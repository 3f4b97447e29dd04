//! The decisions of the workbench's local HTTP server: reading a request
//! head, routing, guarding the run route, and reporting diagnostics. The
//! socket, the child process and the clock stay with the server program.

use vstd::prelude::*;
use crate::lexer::{is_ws, ws, all_digits, digits_value, is_digit, digit};
use crate::text::{owned, push_char, push_str};
use crate::tools::{trimmed, trim_chars, constant_time_eq};
use vstd::string::StringSliceAdditionalSpecFns;

verus! {

/// The pieces of a text between `\r\n` separators, as `str::split("\r\n")`
/// gives them; there is always at least one.
pub open spec fn crlf_pieces(s: Seq<char>) -> Seq<Seq<char>>
    decreases s.len(),
{
    if s.len() == 0 {
        seq![Seq::<char>::empty()]
    } else if s.len() >= 2 && s[s.len() - 2] == '\r' && s.last() == '\n' {
        crlf_pieces(s.take(s.len() - 2)).push(Seq::<char>::empty())
    } else {
        let p = crlf_pieces(s.drop_last());
        p.update(p.len() - 1, p.last().push(s.last()))
    }
}

pub proof fn lemma_crlf_pieces_nonempty(s: Seq<char>)
    ensures
        crlf_pieces(s).len() >= 1,
    decreases s.len(),
{
    if s.len() >= 2 && s[s.len() - 2] == '\r' && s.last() == '\n' {
        lemma_crlf_pieces_nonempty(s.take(s.len() - 2));
    } else if s.len() > 0 {
        lemma_crlf_pieces_nonempty(s.drop_last());
    }
}

/// Splits a text at every `\r\n`.
pub fn split_crlf(s: &Vec<char>) -> (r: Vec<Vec<char>>)
    ensures
        r@.len() == crlf_pieces(s@).len(),
        forall|k: int| 0 <= k < r@.len() ==> (#[trigger] r@[k])@ == crlf_pieces(s@)[k],
{
    let n = s.len();
    let mut done: Vec<Vec<char>> = Vec::new();
    let mut current: Vec<char> = Vec::new();
    let mut i: usize = 0;
    while i < n
        invariant
            n == s@.len(),
            i <= n,
            !(0 < i < n && s@[i - 1] == '\r' && s@[i as int] == '\n'),
            done@.len() + 1 == crlf_pieces(s@.take(i as int)).len(),
            forall|k: int| 0 <= k < done@.len() ==> (#[trigger] done@[k])@ == crlf_pieces(s@.take(i as int))[k],
            current@ == crlf_pieces(s@.take(i as int)).last(),
        decreases n - i,
    {
        proof { lemma_crlf_pieces_nonempty(s@.take(i as int)); }
        if s[i] == '\r' && i + 1 < n && s[i + 1] == '\n' {
            let ghost t = s@.take(i + 2);
            proof {
                assert(t.take(t.len() - 2) =~= s@.take(i as int));
            }
            done.push(current);
            current = Vec::new();
            i = i + 2;
        } else {
            let ghost t = s@.take(i + 1);
            proof {
                assert(t.drop_last() =~= s@.take(i as int));
                assert(t.last() == s@[i as int]);
            }
            current.push(s[i]);
            i = i + 1;
        }
    }
    proof {
        assert(s@.take(n as int) =~= s@);
        lemma_crlf_pieces_nonempty(s@);
    }
    done.push(current);
    proof {
        assert forall|k: int| 0 <= k < done@.len() implies (#[trigger] done@[k])@ == crlf_pieces(s@)[k] by {}
    }
    done
}

/// The whitespace-separated words of a text, as `str::split_whitespace`
/// gives them.
pub open spec fn words(s: Seq<char>) -> Seq<Seq<char>>
    decreases s.len(),
{
    if s.len() == 0 {
        Seq::empty()
    } else if is_ws(s.last()) {
        words(s.drop_last())
    } else if s.len() >= 2 && !is_ws(s[s.len() - 2]) {
        let w = words(s.drop_last());
        w.update(w.len() - 1, w.last().push(s.last()))
    } else {
        words(s.drop_last()).push(seq![s.last()])
    }
}

/// A text whose last character is not whitespace has a word.
proof fn lemma_words_nonempty(s: Seq<char>)
    requires
        s.len() > 0,
        !is_ws(s.last()),
    ensures
        words(s).len() >= 1,
    decreases s.len(),
{
    if s.len() >= 2 && !is_ws(s[s.len() - 2]) {
        assert(s.drop_last().last() == s[s.len() - 2]);
        lemma_words_nonempty(s.drop_last());
    }
}

/// Splits a text into its whitespace-separated words.
pub fn split_words(s: &Vec<char>) -> (r: Vec<Vec<char>>)
    ensures
        r@.len() == words(s@).len(),
        forall|k: int| 0 <= k < r@.len() ==> (#[trigger] r@[k])@ == words(s@)[k],
{
    let n = s.len();
    let mut done: Vec<Vec<char>> = Vec::new();
    let mut current: Vec<char> = Vec::new();
    let mut i: usize = 0;
    while i < n
        invariant
            n == s@.len(),
            i <= n,
            current@.len() > 0 ==> i > 0 && !is_ws(s@[i - 1]),
            current@.len() == 0 ==> (i == 0 || is_ws(s@[i - 1])),
            ({
                let w = words(s@.take(i as int));
                if current@.len() > 0 {
                    &&& done@.len() + 1 == w.len()
                    &&& current@ == w.last()
                    &&& forall|k: int| 0 <= k < done@.len() ==> (#[trigger] done@[k])@ == w[k]
                } else {
                    &&& done@.len() == w.len()
                    &&& forall|k: int| 0 <= k < done@.len() ==> (#[trigger] done@[k])@ == w[k]
                }
            }),
        decreases n - i,
    {
        let c = s[i];
        let ghost t = s@.take(i + 1);
        proof {
            assert(t.drop_last() =~= s@.take(i as int));
            assert(t.last() == c);
            if i > 0 {
                assert(t[t.len() - 2] == s@[i - 1]);
            }
        }
        if ws(c) {
            if current.len() > 0 {
                done.push(current);
                current = Vec::new();
            }
        } else {
            proof {
                if current@.len() == 0 {
                    assert(words(t) == words(s@.take(i as int)).push(seq![c]));
                }
            }
            current.push(c);
        }
        i = i + 1;
    }
    proof {
        assert(s@.take(n as int) =~= s@);
    }
    if current.len() > 0 {
        done.push(current);
    }
    proof {
        assert forall|k: int| 0 <= k < done@.len() implies (#[trigger] done@[k])@ == words(s@)[k] by {}
    }
    done
}

/// The position of the first `c` in `s`.
pub open spec fn first_index(s: Seq<char>, c: char, k: int) -> bool {
    &&& 0 <= k < s.len()
    &&& s[k] == c
    &&& forall|j: int| 0 <= j < k ==> s[j] != c
}

/// Where `c` first occurs, if it does.
pub fn find_char(s: &Vec<char>, c: char) -> (r: Option<usize>)
    ensures
        match r {
            Some(k) => first_index(s@, c, k as int),
            None => !s@.contains(c),
        },
{
    let mut i: usize = 0;
    while i < s.len()
        invariant
            i <= s@.len(),
            forall|j: int| 0 <= j < i ==> s@[j] != c,
        decreases s@.len() - i,
    {
        if s[i] == c {
            return Some(i);
        }
        i = i + 1;
    }
    None
}

/// The text before the first `c`, or all of it.
pub open spec fn before_first(s: Seq<char>, c: char) -> Seq<char> {
    if s.contains(c) {
        s.take(choose|k: int| first_index(s, c, k))
    } else {
        s
    }
}

/// `first_index` names one position.
pub proof fn lemma_first_index_unique(s: Seq<char>, c: char, k: int, l: int)
    requires
        first_index(s, c, k),
        first_index(s, c, l),
    ensures
        k == l,
{
}

/// The characters `start..end` of a text.
fn chars_between(s: &Vec<char>, start: usize, end: usize) -> (r: Vec<char>)
    requires
        start <= end <= s@.len(),
    ensures
        r@ == s@.subrange(start as int, end as int),
{
    let mut r: Vec<char> = Vec::new();
    let mut i = start;
    while i < end
        invariant
            start <= i <= end <= s@.len(),
            r@ == s@.subrange(start as int, i as int),
        decreases end - i,
    {
        r.push(s[i]);
        proof { assert(r@ =~= s@.subrange(start as int, i + 1)); }
        i = i + 1;
    }
    r
}

/// The ASCII lowercase of a character; every other character stays.
pub open spec fn ascii_lower(c: char) -> char {
    if 'A' <= c && c <= 'Z' {
        ((c as u32) + 32) as char
    } else {
        c
    }
}

fn lower_char(c: char) -> (r: char)
    ensures
        r == ascii_lower(c),
{
    if 'A' <= c && c <= 'Z' {
        let code = (c as u8) + 32;
        assert(code as u32 == (c as u32) + 32);
        code as char
    } else {
        c
    }
}

/// A text in ASCII lowercase, as `str::to_ascii_lowercase` gives it.
pub fn lowercase(s: &Vec<char>) -> (r: Vec<char>)
    ensures
        r@ == s@.map_values(|c: char| ascii_lower(c)),
{
    let mut r: Vec<char> = Vec::new();
    let mut i: usize = 0;
    while i < s.len()
        invariant
            i <= s@.len(),
            r@ == s@.take(i as int).map_values(|c: char| ascii_lower(c)),
        decreases s@.len() - i,
    {
        r.push(lower_char(s[i]));
        proof {
            assert(s@.take(i + 1).map_values(|c: char| ascii_lower(c)) =~= s@.take(i as int).map_values(|c: char| ascii_lower(c)).push(ascii_lower(s@[i as int])));
        }
        i = i + 1;
    }
    proof { assert(s@.take(i as int) =~= s@); }
    r
}

} // verus!

verus! {

/// The most a request body may hold.
pub const MAX_REQUEST_BODY: usize = 327680;
/// The most a program's source may hold, in bytes.
pub const MAX_SOURCE: usize = 262144;
/// The most a program's standard input may hold, in bytes.
pub const MAX_STDIN: usize = 65536;

/// A refusal: the status line's status and the message sent with it.
#[derive(Debug)]
pub struct HttpError {
    pub status: &'static str,
    pub message: String,
}

/// A refusal for a request that is not allowed.
pub fn forbidden(message: &str) -> (e: HttpError)
    ensures
        e.status@ == "403 Forbidden"@,
        e.message@ == message@,
{
    HttpError { status: "403 Forbidden", message: owned(message) }
}

fn bad_request(message: &str) -> (e: HttpError)
    ensures
        e.status@ == "400 Bad Request"@,
        e.message@ == message@,
{
    HttpError { status: "400 Bad Request", message: owned(message) }
}

/// A request's method, target and headers, and how long its body is.
#[derive(Debug)]
pub struct RequestHead {
    pub method: String,
    pub path: String,
    /// Lowercased names with trimmed values, in the order received.
    pub headers: Vec<(String, String)>,
    pub content_length: usize,
}

/// The name and value a header line gives: the name before the first `:`,
/// trimmed and lowercased, and the trimmed rest.
pub open spec fn header_entry(line: Seq<char>) -> (Seq<char>, Seq<char>) {
    let k = choose|k: int| first_index(line, ':', k);
    (trimmed(line.take(k)).map_values(|c: char| ascii_lower(c)), trimmed(line.skip(k + 1)))
}

/// The value of the last header of that name: a later one replaces an
/// earlier one.
pub open spec fn header_value(headers: Seq<(Seq<char>, Seq<char>)>, name: Seq<char>) -> Option<Seq<char>>
    decreases headers.len(),
{
    if headers.len() == 0 {
        None
    } else if headers.last().0 == name {
        Some(headers.last().1)
    } else {
        header_value(headers.drop_last(), name)
    }
}

/// What `usize::from_str` reads: an optional `+`, then at least one digit,
/// with a value that fits.
pub open spec fn count_value(v: Seq<char>) -> Option<nat> {
    let d = if v.len() > 0 && v[0] == '+' { v.drop_first() } else { v };
    if d.len() > 0 && all_digits(d) && digits_value(d) <= usize::MAX {
        Some(digits_value(d))
    } else {
        None
    }
}

/// The views of received headers.
pub open spec fn header_views(headers: Seq<(String, String)>) -> Seq<(Seq<char>, Seq<char>)> {
    headers.map_values(|h: (String, String)| (h.0@, h.1@))
}

/// What a request head gives: method, target, headers and body length, or
/// the status and message it is refused with.
pub open spec fn head_outcome(text: Seq<char>)
    -> Result<(Seq<char>, Seq<char>, Seq<(Seq<char>, Seq<char>)>, nat), (Seq<char>, Seq<char>)>
{
    let lines = crlf_pieces(text);
    let parts = words(lines[0]);
    if parts.len() != 3 || parts[2] != "HTTP/1.1"@ {
        Err(("400 Bad Request"@, "only HTTP/1.1 requests are supported"@))
    } else if exists|j: int| 1 <= j < lines.len() && !(#[trigger] lines[j]).contains(':') {
        Err(("400 Bad Request"@, "malformed request header"@))
    } else {
        let headers = lines.skip(1).map_values(|l: Seq<char>| header_entry(l));
        let length = match header_value(headers, "content-length"@) {
            None => Some(0nat),
            Some(v) => count_value(v),
        };
        match length {
            None => Err(("400 Bad Request"@, "invalid Content-Length"@)),
            Some(n) => if n > MAX_REQUEST_BODY {
                Err(("413 Payload Too Large"@, "request body exceeds the 320 KiB limit"@))
            } else {
                Ok((parts[0], parts[1], headers, n))
            },
        }
    }
}

/// The last header of a name, if any.
pub fn header<'a>(headers: &'a Vec<(String, String)>, name: &str) -> (r: Option<&'a String>)
    ensures
        match r {
            Some(v) => header_value(header_views(headers@), name@) == Some(v@),
            None => header_value(header_views(headers@), name@) is None,
        },
{
    let mut i: usize = headers.len();
    proof { assert(headers@.take(i as int) =~= headers@); }
    while i > 0
        invariant
            i <= headers@.len(),
            header_value(header_views(headers@), name@) == header_value(header_views(headers@.take(i as int)), name@),
        decreases i,
    {
        let ghost t = header_views(headers@.take(i as int));
        proof {
            assert(t.drop_last() =~= header_views(headers@.take(i - 1)));
            assert(t.last() == (headers@[i - 1].0@, headers@[i - 1].1@));
        }
        if crate::text::string_is(&headers[i - 1].0, name) {
            return Some(&headers[i - 1].1);
        }
        i = i - 1;
    }
    None
}

/// The value of a count, as `usize::from_str` reads it.
fn parse_count(v: &Vec<char>) -> (r: Option<usize>)
    ensures
        match r {
            Some(n) => count_value(v@) == Some(n as nat),
            None => count_value(v@) is None,
        },
{
    let start: usize = if v.len() > 0 && v[0] == '+' { 1 } else { 0 };
    let ghost d = if v@.len() > 0 && v@[0] == '+' { v@.drop_first() } else { v@ };
    proof { assert(d =~= v@.subrange(start as int, v@.len() as int)); }
    if start == v.len() {
        return None;
    }
    let mut i = start;
    while i < v.len()
        invariant
            start <= i <= v@.len(),
            start <= 1,
            d == v@.subrange(start as int, v@.len() as int),
            d == (if v@.len() > 0 && v@[0] == '+' { v@.drop_first() } else { v@ }),
            forall|j: int| start <= j < i ==> is_digit(v@[j]),
        decreases v@.len() - i,
    {
        if !digit(v[i]) {
            proof {
                assert(!is_digit(d[i - start]));
                assert(!all_digits(d));
            }
            return None;
        }
        i = i + 1;
    }
    proof {
        assert(all_digits(d)) by {
            assert forall|j: int| 0 <= j < d.len() implies is_digit(#[trigger] d[j]) by {
                assert(d[j] == v@[j + start]);
            }
        }
    }
    match crate::lexer::value_at_most(v, start, v.len(), usize::MAX as u128) {
        Some(n) => Some(n as usize),
        None => None,
    }
}

} // verus!

verus! {

/// The name and value of one header line that holds a `:`.
fn header_line(line: &Vec<char>, k: usize) -> (r: (String, String))
    requires
        first_index(line@, ':', k as int),
    ensures
        (r.0@, r.1@) == header_entry(line@),
{
    proof {
        let j = choose|j: int| first_index(line@, ':', j);
        lemma_first_index_unique(line@, ':', j, k as int);
    }
    let name = lowercase(&trim_chars(&chars_between(line, 0, k)));
    assert(k < line.len());
    let value = trim_chars(&chars_between(line, k + 1, line.len()));
    proof {
        assert(line@.subrange(0, k as int) =~= line@.take(k as int));
        assert(line@.subrange(k + 1, line@.len() as int) =~= line@.skip(k + 1));
    }
    (crate::text::string_of(&name, 0, name.len()), crate::text::string_of(&value, 0, value.len()))
}

/// Reads a request head: the request line, which must be `METHOD TARGET
/// HTTP/1.1`, then one `name: value` header per line, then the body length
/// that `content-length` gives, at most `MAX_REQUEST_BODY`.
#[verifier::loop_isolation(false)]
pub fn parse_head(text: &str) -> (r: Result<RequestHead, HttpError>)
    ensures
        match r {
            Ok(h) => head_outcome(text@) == Ok::<(Seq<char>, Seq<char>, Seq<(Seq<char>, Seq<char>)>, nat), (Seq<char>, Seq<char>)>(
                (h.method@, h.path@, header_views(h.headers@), h.content_length as nat)),
            Err(e) => head_outcome(text@) == Err::<(Seq<char>, Seq<char>, Seq<(Seq<char>, Seq<char>)>, nat), (Seq<char>, Seq<char>)>(
                (e.status@, e.message@)),
        },
{
    let chars = crate::text::chars_of(text);
    let lines = split_crlf(&chars);
    let ghost pieces = crlf_pieces(text@);
    proof { lemma_crlf_pieces_nonempty(text@); }
    let parts = split_words(&lines[0]);
    proof { assert(lines@[0]@ == pieces[0]); }
    if parts.len() != 3 || !crate::text::slice_is(&parts[2], 0, parts[2].len(), "HTTP/1.1") {
        proof {
            if parts@.len() == 3 {
                assert(parts@[2]@.subrange(0, parts@[2]@.len() as int) =~= parts@[2]@);
            }
        }
        return Err(bad_request("only HTTP/1.1 requests are supported"));
    }
    proof { assert(parts@[2]@.subrange(0, parts@[2]@.len() as int) =~= parts@[2]@); }
    let mut headers: Vec<(String, String)> = Vec::new();
    let mut j: usize = 1;
    while j < lines.len()
        invariant
            1 <= j <= lines@.len(),
            lines@.len() == pieces.len(),
            pieces == crlf_pieces(text@),
            forall|k: int| 0 <= k < lines@.len() ==> (#[trigger] lines@[k])@ == pieces[k],
            forall|k: int| 1 <= k < j ==> (#[trigger] pieces[k]).contains(':'),
            header_views(headers@) == pieces.skip(1).take(j - 1).map_values(|l: Seq<char>| header_entry(l)),
        decreases lines@.len() - j,
    {
        let line = &lines[j];
        proof { assert(line@ == pieces[j as int]); }
        match find_char(line, ':') {
            None => {
                return Err(bad_request("malformed request header"));
            },
            Some(k) => {
                let entry = header_line(line, k);
                let ghost before = headers@;
                headers.push(entry);
                proof {
                    assert(pieces.skip(1).take(j as int) =~= pieces.skip(1).take(j - 1).push(pieces[j as int]));
                    assert(header_views(headers@) =~= header_views(before).push((entry.0@, entry.1@)));
                    assert(pieces[j as int].contains(':')) by {
                        assert(pieces[j as int][k as int] == ':');
                    }
                }
            },
        }
        j = j + 1;
    }
    proof {
        assert(pieces.skip(1).take(j - 1) =~= pieces.skip(1));
    }
    let length: usize = match header(&headers, "content-length") {
        None => 0,
        Some(v) => {
            match parse_count(&crate::text::chars_of(v.as_str())) {
                None => {
                    return Err(bad_request("invalid Content-Length"));
                },
                Some(n) => n,
            }
        },
    };
    if length > MAX_REQUEST_BODY {
        return Err(HttpError {
            status: "413 Payload Too Large",
            message: owned("request body exceeds the 320 KiB limit"),
        });
    }
    let method = crate::text::string_of(&parts[0], 0, parts[0].len());
    let path = crate::text::string_of(&parts[1], 0, parts[1].len());
    proof {
        assert(parts@[0]@.subrange(0, parts@[0]@.len() as int) =~= parts@[0]@);
        assert(parts@[1]@.subrange(0, parts@[1]@.len() as int) =~= parts@[1]@);
    }
    Ok(RequestHead { method, path, headers, content_length: length })
}

} // verus!

verus! {

/// What the server does with a request whose head it has read.
#[derive(Debug)]
pub enum Route {
    /// Serve the page.
    Page,
    /// Serve the snippets.
    Snippets,
    /// Read the body as a run request.
    Run,
    /// Answer `405 Method Not Allowed`, allowing only this method.
    WrongMethod(&'static str),
    /// Answer with this refusal.
    Refuse(HttpError),
}

/// A route, by the views of what it carries.
pub enum RouteView {
    Page,
    Snippets,
    Run,
    WrongMethod(Seq<char>),
    Refuse(Seq<char>, Seq<char>),
}

pub open spec fn route_view(r: Route) -> RouteView {
    match r {
        Route::Page => RouteView::Page,
        Route::Snippets => RouteView::Snippets,
        Route::Run => RouteView::Run,
        Route::WrongMethod(m) => RouteView::WrongMethod(m@),
        Route::Refuse(e) => RouteView::Refuse(e.status@, e.message@),
    }
}

/// Whether a request carries the session token.
pub open spec fn is_authorized(headers: Seq<(Seq<char>, Seq<char>)>, token: Seq<char>) -> bool {
    header_value(headers, "x-snacc-session"@) == Some(token)
}

/// Whether the media type a request names, before any parameter, is JSON.
pub open spec fn names_json(headers: Seq<(Seq<char>, Seq<char>)>) -> bool {
    let value = match header_value(headers, "content-type"@) {
        Some(v) => v,
        None => Seq::empty(),
    };
    trimmed(before_first(value, ';')) == "application/json"@
}

/// Where a request goes: the host must be this server's loopback address;
/// the page and the snippets are read with `GET`; the API needs the session
/// token, and the run route also a same-origin `POST` of JSON.
pub open spec fn route_outcome(
    method: Seq<char>,
    path: Seq<char>,
    headers: Seq<(Seq<char>, Seq<char>)>,
    port: u16,
    token: Seq<char>,
) -> RouteView {
    let host = "127.0.0.1:"@ + crate::text::decimal(port as nat);
    if header_value(headers, "host"@) != Some(host) {
        RouteView::Refuse("400 Bad Request"@, "invalid Host header"@)
    } else if path == "/"@ {
        if method != "GET"@ { RouteView::WrongMethod("GET"@) } else { RouteView::Page }
    } else if path == "/api/snippets"@ {
        if method != "GET"@ {
            RouteView::WrongMethod("GET"@)
        } else if !is_authorized(headers, token) {
            RouteView::Refuse("403 Forbidden"@, "missing or invalid session token"@)
        } else {
            RouteView::Snippets
        }
    } else if path == "/api/run"@ {
        if method != "POST"@ {
            RouteView::WrongMethod("POST"@)
        } else if !is_authorized(headers, token) {
            RouteView::Refuse("403 Forbidden"@, "missing or invalid session token"@)
        } else if header_value(headers, "origin"@) != Some("http://"@ + host) {
            RouteView::Refuse("403 Forbidden"@, "invalid Origin header"@)
        } else if !names_json(headers) {
            RouteView::Refuse("415 Unsupported Media Type"@, "Content-Type must be application/json"@)
        } else {
            RouteView::Run
        }
    } else {
        RouteView::Refuse("404 Not Found"@, "not found"@)
    }
}

/// Whether an optional header holds exactly `expected`.
fn header_is(headers: &Vec<(String, String)>, name: &str, expected: &String) -> (r: bool)
    ensures
        r == (header_value(header_views(headers@), name@) == Some(expected@)),
{
    match header(headers, name) {
        Some(v) => crate::text::same(v, expected),
        None => false,
    }
}

/// Whether the session header holds the token, compared in constant time.
pub fn authorized(headers: &Vec<(String, String)>, token: &str) -> (r: bool)
    ensures
        r == is_authorized(header_views(headers@), token@),
{
    match header(headers, "x-snacc-session") {
        Some(t) => constant_time_eq(t.as_str(), token),
        None => false,
    }
}

/// Whether the request names JSON as its media type.
fn content_is_json(headers: &Vec<(String, String)>) -> (r: bool)
    ensures
        r == names_json(header_views(headers@)),
{
    let value: Vec<char> = match header(headers, "content-type") {
        Some(v) => crate::text::chars_of(v.as_str()),
        None => Vec::new(),
    };
    let before = match find_char(&value, ';') {
        Some(k) => {
            proof {
                assert(value@.contains(';')) by { assert(value@[k as int] == ';'); }
                let j = choose|j: int| first_index(value@, ';', j);
                lemma_first_index_unique(value@, ';', j, k as int);
                assert(value@.subrange(0, k as int) =~= value@.take(k as int));
            }
            chars_between(&value, 0, k)
        },
        None => {
            proof { assert(value@.subrange(0, value@.len() as int) =~= value@); }
            chars_between(&value, 0, value.len())
        },
    };
    let t = trim_chars(&before);
    proof { assert(t@.subrange(0, t@.len() as int) =~= t@); }
    crate::text::slice_is(&t, 0, t.len(), "application/json")
}

/// Decides where a request goes; the server then serves the page or the
/// snippets, reads the run request, or answers with the refusal.
pub fn route(head: &RequestHead, port: u16, token: &str) -> (r: Route)
    ensures
        route_view(r) == route_outcome(head.method@, head.path@, header_views(head.headers@), port, token@),
{
    let mut host = owned("127.0.0.1:");
    crate::text::push_decimal(&mut host, port as u64);
    if !header_is(&head.headers, "host", &host) {
        return Route::Refuse(bad_request("invalid Host header"));
    }
    let get = crate::text::string_is(&head.method, "GET");
    if crate::text::string_is(&head.path, "/") {
        if !get {
            return Route::WrongMethod("GET");
        }
        return Route::Page;
    }
    if crate::text::string_is(&head.path, "/api/snippets") {
        if !get {
            return Route::WrongMethod("GET");
        }
        if !authorized(&head.headers, token) {
            return Route::Refuse(forbidden("missing or invalid session token"));
        }
        return Route::Snippets;
    }
    if crate::text::string_is(&head.path, "/api/run") {
        if !crate::text::string_is(&head.method, "POST") {
            return Route::WrongMethod("POST");
        }
        if !authorized(&head.headers, token) {
            return Route::Refuse(forbidden("missing or invalid session token"));
        }
        let mut origin = owned("http://");
        crate::text::push_string(&mut origin, &host);
        if !header_is(&head.headers, "origin", &origin) {
            return Route::Refuse(forbidden("invalid Origin header"));
        }
        if !content_is_json(&head.headers) {
            return Route::Refuse(HttpError {
                status: "415 Unsupported Media Type",
                message: owned("Content-Type must be application/json"),
            });
        }
        return Route::Run;
    }
    Route::Refuse(HttpError { status: "404 Not Found", message: owned("not found") })
}

/// Whether a text holds nothing but whitespace.
pub open spec fn blank(s: Seq<char>) -> bool {
    forall|i: int| 0 <= i < s.len() ==> is_ws(#[trigger] s[i])
}

/// Checks a decoded run request: the source must hold a non-whitespace
/// character and both it and the input must fit their limits.
pub fn validate_run(source: &str, stdin: &str) -> (r: Result<(), HttpError>)
    ensures
        match r {
            Ok(()) => !blank(source@) && source.spec_bytes().len() <= MAX_SOURCE && stdin.spec_bytes().len() <= MAX_STDIN,
            Err(e) => {
                if blank(source@) {
                    e.status@ == "400 Bad Request"@ && e.message@ == "source must contain a non-whitespace character"@
                } else if source.spec_bytes().len() > MAX_SOURCE {
                    e.status@ == "413 Payload Too Large"@ && e.message@ == "source exceeds the 256 KiB limit"@
                } else {
                    stdin.spec_bytes().len() > MAX_STDIN
                        && e.status@ == "413 Payload Too Large"@ && e.message@ == "stdin exceeds the 64 KiB limit"@
                }
            },
        },
{
    let chars = crate::text::chars_of(source);
    let mut i: usize = 0;
    let mut all_space = true;
    while i < chars.len()
        invariant
            i <= chars@.len(),
            chars@ == source@,
            all_space == (forall|j: int| 0 <= j < i ==> is_ws(#[trigger] chars@[j])),
        decreases chars@.len() - i,
    {
        if !ws(chars[i]) {
            all_space = false;
        }
        i = i + 1;
    }
    if all_space {
        return Err(bad_request("source must contain a non-whitespace character"));
    }
    if source.as_bytes().len() > MAX_SOURCE {
        return Err(HttpError { status: "413 Payload Too Large", message: owned("source exceeds the 256 KiB limit") });
    }
    if stdin.as_bytes().len() > MAX_STDIN {
        return Err(HttpError { status: "413 Payload Too Large", message: owned("stdin exceeds the 64 KiB limit") });
    }
    Ok(())
}

} // verus!

verus! {

/// The status line and headers of a response, ending with the blank line
/// that precedes the body.
pub open spec fn response_head_text(
    status: Seq<char>,
    content_type: Seq<char>,
    body_len: nat,
    extra: Seq<(Seq<char>, Seq<char>)>,
) -> Seq<char>
    decreases extra.len(),
{
    if extra.len() == 0 {
        "HTTP/1.1 "@ + status + "\r\nContent-Type: "@ + content_type + "\r\nContent-Length: "@
            + crate::text::decimal(body_len)
            + "\r\nConnection: close\r\nX-Content-Type-Options: nosniff\r\n"@
    } else {
        response_head_text(status, content_type, body_len, extra.drop_last()) + extra.last().0 + ": "@
            + extra.last().1 + "\r\n"@
    }
}

/// The head of a response: status line, content type and length, no
/// keep-alive, no sniffing, then the extra headers in order.
pub fn response_head(status: &str, content_type: &str, body_len: usize, extra: &Vec<(String, String)>) -> (r: String)
    ensures
        r@ == response_head_text(status@, content_type@, body_len as nat, header_views(extra@)) + "\r\n"@,
{
    let mut r = owned("HTTP/1.1 ");
    push_str(&mut r, status);
    push_str(&mut r, "\r\nContent-Type: ");
    push_str(&mut r, content_type);
    push_str(&mut r, "\r\nContent-Length: ");
    crate::text::push_count(&mut r, body_len);
    push_str(&mut r, "\r\nConnection: close\r\nX-Content-Type-Options: nosniff\r\n");
    proof {
        assert(header_views(extra@.take(0)) =~= Seq::<(Seq<char>, Seq<char>)>::empty());
    }
    let mut i: usize = 0;
    while i < extra.len()
        invariant
            i <= extra@.len(),
            r@ == response_head_text(status@, content_type@, body_len as nat, header_views(extra@.take(i as int))),
        decreases extra@.len() - i,
    {
        let ghost t = header_views(extra@.take(i + 1));
        proof {
            assert(t.drop_last() =~= header_views(extra@.take(i as int)));
            assert(t.last() == (extra@[i as int].0@, extra@[i as int].1@));
        }
        let ghost before = r@;
        crate::text::push_string(&mut r, &extra[i].0);
        push_str(&mut r, ": ");
        crate::text::push_string(&mut r, &extra[i].1);
        push_str(&mut r, "\r\n");
        proof {
            assert(r@ =~= before + extra@[i as int].0@ + ": "@ + extra@[i as int].1@ + "\r\n"@);
        }
        i = i + 1;
    }
    proof { assert(extra@.take(i as int) =~= extra@); }
    push_str(&mut r, "\r\n");
    r
}

} // verus!

verus! {

/// Where a diagnostic points, in bytes and as positions.
#[derive(Clone, Copy, Debug, PartialEq, Eq, Structural)]
pub struct SpanReport {
    pub start_byte: usize,
    pub end_byte: usize,
    pub start: crate::tools::PositionReport,
    pub end: crate::tools::PositionReport,
}

/// One diagnostic as the workbench reports it.
#[derive(Debug)]
pub struct DiagnosticReport {
    pub phase: String,
    pub message: String,
    pub span: Option<SpanReport>,
}

/// The phase name in lowercase, as reports give it.
pub open spec fn phase_label(phase: crate::DiagnosticPhase) -> Seq<char> {
    match phase {
        crate::DiagnosticPhase::Lex => "lex"@,
        crate::DiagnosticPhase::Parse => "parse"@,
        crate::DiagnosticPhase::TypeCheck => "typecheck"@,
        crate::DiagnosticPhase::Internal => "internal"@,
    }
}

fn phase_label_of(phase: crate::DiagnosticPhase) -> (s: &'static str)
    ensures
        s@ == phase_label(phase),
{
    match phase {
        crate::DiagnosticPhase::Lex => "lex",
        crate::DiagnosticPhase::Parse => "parse",
        crate::DiagnosticPhase::TypeCheck => "typecheck",
        crate::DiagnosticPhase::Internal => "internal",
    }
}

/// The byte offset a position is taken at: clamped to the source.
pub open spec fn clamped(b: Seq<u8>, offset: int) -> int {
    if offset < b.len() { offset } else { b.len() as int }
}

/// Whether a position can be taken at an offset.
pub open spec fn reportable(b: Seq<u8>, offset: int) -> bool {
    vstd::utf8::is_char_boundary(b, clamped(b, offset))
}

/// Whether positions can be taken at both ends of a diagnostic's span.
pub open spec fn diagnostic_reportable(b: Seq<u8>, d: crate::Diagnostic) -> bool {
    match d.span {
        Some(span) => reportable(b, span.start as int) && reportable(b, span.end as int),
        None => true,
    }
}

/// The position `position` gives for an offset.
pub open spec fn position_at(b: Seq<u8>, offset: int) -> crate::tools::PositionReport {
    let o = clamped(b, offset);
    crate::tools::PositionReport {
        line: (crate::tools::newline_count(b.take(o)) + 1) as usize,
        column: (crate::tools::last_line_chars(b.take(o)) + 1) as usize,
    }
}

/// Whether a report says what its diagnostic says.
pub open spec fn reports(b: Seq<u8>, d: crate::Diagnostic, r: DiagnosticReport) -> bool {
    &&& r.phase@ == phase_label(d.phase)
    &&& r.message@ == d.message@
    &&& match d.span {
        None => r.span is None,
        Some(span) => r.span == Some(SpanReport {
            start_byte: span.start,
            end_byte: span.end,
            start: position_at(b, span.start as int),
            end: position_at(b, span.end as int),
        }),
    }
}

/// The report of every diagnostic, in order.
pub fn diagnostic_reports(source: &str, diagnostics: &crate::Diagnostics) -> (r: Vec<DiagnosticReport>)
    requires
        source.spec_bytes().len() < usize::MAX,
        forall|i: int| 0 <= i < diagnostics.items@.len() ==> diagnostic_reportable(source.spec_bytes(), #[trigger] diagnostics.items@[i]),
    ensures
        r@.len() == diagnostics.items@.len(),
        forall|i: int| 0 <= i < r@.len() ==> reports(source.spec_bytes(), diagnostics.items@[i], #[trigger] r@[i]),
{
    let mut r: Vec<DiagnosticReport> = Vec::new();
    let mut i: usize = 0;
    while i < diagnostics.items.len()
        invariant
            i <= diagnostics.items@.len(),
            r@.len() == i,
            source.spec_bytes().len() < usize::MAX,
            forall|k: int| 0 <= k < diagnostics.items@.len() ==> diagnostic_reportable(source.spec_bytes(), #[trigger] diagnostics.items@[k]),
            forall|k: int| 0 <= k < i ==> reports(source.spec_bytes(), diagnostics.items@[k], #[trigger] r@[k]),
        decreases diagnostics.items@.len() - i,
    {
        let d = &diagnostics.items[i];
        let span = match &d.span {
            Some(s) => Some(SpanReport {
                start_byte: s.start,
                end_byte: s.end,
                start: crate::tools::position(source, s.start),
                end: crate::tools::position(source, s.end),
            }),
            None => None,
        };
        r.push(DiagnosticReport { phase: owned(phase_label_of(d.phase)), message: d.message.clone(), span });
        i = i + 1;
    }
    r
}

} // verus!

verus! {

/// Only a request to this server's own loopback address, carrying the
/// session token, reaches the snippets or the run route; a run also needs a
/// same-origin `POST` of JSON.
pub proof fn law_guarded_routes_need_the_session(
    method: Seq<char>,
    path: Seq<char>,
    headers: Seq<(Seq<char>, Seq<char>)>,
    port: u16,
    token: Seq<char>,
)
    ensures
        ({
            let r = route_outcome(method, path, headers, port, token);
            let host = "127.0.0.1:"@ + crate::text::decimal(port as nat);
            &&& (r is Snippets || r is Run) ==> is_authorized(headers, token) && header_value(headers, "host"@) == Some(host)
            &&& r is Snippets ==> method == "GET"@ && path == "/api/snippets"@
            &&& r is Run ==> method == "POST"@ && path == "/api/run"@
                && header_value(headers, "origin"@) == Some("http://"@ + host) && names_json(headers)
            &&& r is Page ==> method == "GET"@ && path == "/"@
        }),
{
    reveal_strlit("/");
    reveal_strlit("/api/snippets");
    reveal_strlit("/api/run");
}

/// A head that is read never announces a body over the limit.
pub proof fn law_accepted_bodies_fit(text: Seq<char>)
    ensures
        head_outcome(text) matches Ok(h) ==> h.3 <= MAX_REQUEST_BODY,
{
}

} // verus!

verus! {

/// The most a request head may hold, in bytes, before it is refused.
pub const MAX_HEAD: usize = 65536;

/// Whether a blank line (`\r\n\r\n`) starts at `k`.
pub open spec fn blank_line_at(raw: Seq<u8>, k: int) -> bool {
    0 <= k && k + 4 <= raw.len() && raw[k] == 13u8 && raw[k + 1] == 10u8 && raw[k + 2] == 13u8 && raw[k + 3] == 10u8
}

/// Where the head of the bytes read so far ends: the first blank line.
pub fn find_head_end(raw: &Vec<u8>) -> (r: Option<usize>)
    ensures
        match r {
            Some(k) => blank_line_at(raw@, k as int) && forall|j: int| 0 <= j < k ==> !#[trigger] blank_line_at(raw@, j),
            None => forall|j: int| !#[trigger] blank_line_at(raw@, j),
        },
{
    if raw.len() < 4 {
        return None;
    }
    let mut i: usize = 0;
    while i < raw.len() - 3
        invariant
            raw@.len() >= 4,
            i <= raw@.len() - 3,
            forall|j: int| 0 <= j < i ==> !#[trigger] blank_line_at(raw@, j),
        decreases raw@.len() - i,
    {
        if raw[i] == 13u8 && raw[i + 1] == 10u8 && raw[i + 2] == 13u8 && raw[i + 3] == 10u8 {
            return Some(i);
        }
        i = i + 1;
    }
    None
}

/// A head that has not ended within the limit is refused.
pub fn head_too_large(read: usize) -> (r: Option<HttpError>)
    ensures
        (r is Some) == (read > MAX_HEAD),
        r matches Some(e) ==> e.status@ == "413 Payload Too Large"@ && e.message@ == "request headers are too large"@,
{
    if read > MAX_HEAD {
        Some(HttpError { status: "413 Payload Too Large", message: owned("request headers are too large") })
    } else {
        None
    }
}

/// The part of the body that came with the head, cut to its announced
/// length.
pub fn initial_body(raw: &Vec<u8>, head_end: usize, content_length: usize) -> (r: Vec<u8>)
    requires
        head_end + 4 <= raw@.len(),
    ensures
        r@ == raw@.skip(head_end + 4).take(
            if raw@.len() - (head_end + 4) <= content_length { raw@.len() - (head_end + 4) } else { content_length as int }),
{
    let len = raw.len();
    assert(head_end + 4 <= len);
    let start = head_end + 4;
    let available = len - start;
    let n = if available <= content_length { available } else { content_length };
    let mut r: Vec<u8> = Vec::new();
    let mut i: usize = 0;
    while i < n
        invariant
            start == head_end + 4,
            start <= raw@.len(),
            n <= raw@.len() - start,
            i <= n,
            r@ == raw@.skip(start as int).take(i as int),
            len == raw@.len(),
        decreases n - i,
    {
        assert(start + i < len);
        r.push(raw[start + i]);
        proof { assert(r@ =~= raw@.skip(start as int).take(i + 1)); }
        i = i + 1;
    }
    r
}

} // verus!

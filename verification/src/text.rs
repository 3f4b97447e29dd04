//! Verified string building blocks shared by every diagnostic.

use vstd::prelude::*;

verus! {

/// Appends one character to a string (`String::push`).
#[verifier::external_body]
pub fn push_char(s: &mut String, c: char)
    ensures
        final(s)@ == old(s)@.push(c),
{
    s.push(c);
}

/// The decimal spelling of a natural number, most significant digit first.
pub open spec fn decimal(n: nat) -> Seq<char>
    decreases n,
{
    if n < 10 {
        seq![digit_char(n)]
    } else {
        decimal(n / 10).push(digit_char(n % 10))
    }
}

pub open spec fn digit_char(d: nat) -> char {
    if d == 0 { '0' } else if d == 1 { '1' } else if d == 2 { '2' } else if d == 3 { '3' }
    else if d == 4 { '4' } else if d == 5 { '5' } else if d == 6 { '6' } else if d == 7 { '7' }
    else if d == 8 { '8' } else { '9' }
}

fn exec_digit_char(d: u64) -> (c: char)
    requires
        d < 10,
    ensures
        c == digit_char(d as nat),
{
    if d == 0 { '0' } else if d == 1 { '1' } else if d == 2 { '2' } else if d == 3 { '3' }
    else if d == 4 { '4' } else if d == 5 { '5' } else if d == 6 { '6' } else if d == 7 { '7' }
    else if d == 8 { '8' } else { '9' }
}

/// Appends the decimal spelling of `n`.
pub fn push_decimal(s: &mut String, n: u64)
    ensures
        final(s)@ == old(s)@ + decimal(n as nat),
    decreases n,
{
    if n < 10 {
        push_char(s, exec_digit_char(n));
    } else {
        push_decimal(s, n / 10);
        push_char(s, exec_digit_char(n % 10));
    }
}

} // verus!

verus! {

/// Appends `src[start..end]`.
pub fn push_chars(s: &mut String, src: &Vec<char>, start: usize, end: usize)
    requires
        start <= end <= src@.len(),
    ensures
        final(s)@ == old(s)@ + src@.subrange(start as int, end as int),
{
    let ghost base = s@;
    let mut i = start;
    while i < end
        invariant
            start <= i <= end <= src@.len(),
            s@ == base + src@.subrange(start as int, i as int),
        decreases end - i,
    {
        push_char(s, src[i]);
        assert(src@.subrange(start as int, (i + 1) as int) =~= src@.subrange(start as int, i as int).push(src@[i as int]));
        i = i + 1;
    }
}

/// A fresh string holding `src[start..end]`.
pub fn string_of(src: &Vec<char>, start: usize, end: usize) -> (s: String)
    requires
        start <= end <= src@.len(),
    ensures
        s@ == src@.subrange(start as int, end as int),
{
    let mut s = String::new();
    push_chars(&mut s, src, start, end);
    assert(s@ =~= src@.subrange(start as int, end as int));
    s
}

/// Whether `src[start..end]` spells exactly `word`.
pub fn slice_is(src: &Vec<char>, start: usize, end: usize, word: &str) -> (r: bool)
    requires
        start <= end <= src@.len(),
    ensures
        r == (src@.subrange(start as int, end as int) == word@),
{
    let n = word.unicode_len();
    if end - start != n {
        proof {
            assert(src@.subrange(start as int, end as int).len() != word@.len());
        }
        return false;
    }
    let mut i: usize = 0;
    while i < n
        invariant
            n == word@.len(),
            end - start == n,
            start <= end <= src@.len(),
            i <= n,
            forall|j: int| 0 <= j < i ==> src@[start + j] == word@[j],
        decreases n - i,
    {
        if src[start + i] != word.get_char(i) {
            proof {
                assert(src@.subrange(start as int, end as int)[i as int] != word@[i as int]);
            }
            return false;
        }
        i = i + 1;
    }
    assert(src@.subrange(start as int, end as int) =~= word@);
    true
}

/// Appends a string slice.
pub fn push_str(s: &mut String, t: &str)
    ensures
        final(s)@ == old(s)@ + t@,
{
    s.append(t);
}

/// Appends another string.
pub fn push_string(s: &mut String, t: &String)
    ensures
        final(s)@ == old(s)@ + t@,
{
    s.append(t.as_str());
}

/// A fresh copy of a string slice.
pub fn owned(t: &str) -> (s: String)
    ensures
        s@ == t@,
{
    String::from_str(t)
}

/// `a`, then `b`, then `c`.
pub fn concat3(a: &str, b: &String, c: &str) -> (s: String)
    ensures
        s@ == a@ + b@ + c@,
{
    let mut s = owned(a);
    push_string(&mut s, b);
    push_str(&mut s, c);
    s
}

/// Whether two strings hold the same characters.
pub fn same(a: &String, b: &String) -> (r: bool)
    ensures
        r == (a@ == b@),
{
    a.eq(b)
}

/// Whether a string spells exactly `word`.
pub fn string_is(a: &String, word: &str) -> (r: bool)
    ensures
        r == (a@ == word@),
{
    let w = owned(word);
    a.eq(&w)
}


/// Appends the decimal spelling of a signed number.
pub fn push_signed(s: &mut String, n: i64)
    ensures
        n >= 0 ==> final(s)@ == old(s)@ + decimal(n as nat),
        n < 0 ==> final(s)@ == old(s)@.push('-') + decimal((-n) as nat),
{
    if n >= 0 {
        push_decimal(s, n as u64);
    } else {
        push_char(s, '-');
        let m: i128 = -(n as i128);
        push_decimal(s, m as u64);
    }
}

/// Appends the decimal spelling of a count.
pub fn push_count(s: &mut String, n: usize)
    ensures
        final(s)@ == old(s)@ + decimal(n as nat),
{
    push_decimal(s, n as u64);
}

} // verus!

verus! {

/// The characters of a string slice, in order.
pub fn chars_of(source: &str) -> (v: Vec<char>)
    ensures
        v@ == source@,
{
    let mut v: Vec<char> = Vec::new();
    broadcast use vstd::string::axiom_spec_iter;
    for c in it: source.chars()
        invariant
            v@ == it.seq().subrange(0, it.index() as int),
            it.seq() == source@,
    {
        v.push(c);
    }
    v
}

} // verus!

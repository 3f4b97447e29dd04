//! The Snacc compiler front end: lexing, parsing, declaration collection and
//! type checking, with the small pure helpers of the command-line tools.

pub mod text;
pub mod ast;
pub mod lexer;
pub mod grammar;
pub mod parser;
pub mod types;
pub mod collect;
pub mod checker;
pub mod expressions;
pub mod statements;
pub mod tools;
pub mod bridge;
pub mod digests;
pub mod workbench;
pub mod lowering;
pub mod cargo;
pub mod cache;

use vstd::prelude::*;
use crate::ast::Span;
use crate::lexer::{lex, Token};
use crate::parser::{parse_program, Tokens};

verus! {

/// The phase that produced a diagnostic.
#[derive(Clone, Copy, Debug, PartialEq, Eq, Structural)]
pub enum DiagnosticPhase {
    Lex,
    Parse,
    TypeCheck,
    /// A compiler limit or defect rather than an error in the source.
    Internal,
}

/// One reported problem: where, in bytes of the source, and why.
#[derive(Debug)]
pub struct Diagnostic {
    pub phase: DiagnosticPhase,
    pub message: String,
    pub span: Option<core::ops::Range<usize>>,
}

/// Every diagnostic of one failed compilation step, in report order.
#[derive(Debug)]
pub struct Diagnostics {
    pub items: Vec<Diagnostic>,
}

impl Diagnostics {
    /// The first diagnostic, if there is one.
    pub fn first(&self) -> (r: Option<&Diagnostic>)
        ensures
            self.items@.len() == 0 ==> r is None,
            self.items@.len() > 0 ==> r == Some(&self.items@[0]),
    {
        if self.items.len() == 0 {
            None
        } else {
            Some(&self.items[0])
        }
    }
}

/// The byte offset of character `i` of `s`: the length of the UTF-8
/// encoding of the characters before it.
pub open spec fn utf8_offset(s: Seq<char>, i: int) -> int {
    vstd::utf8::encode_utf8(s.subrange(0, i)).len() as int
}

/// Encoding one more character appends its UTF-8 bytes.
pub proof fn lemma_encode_utf8_push(s: Seq<char>, c: char)
    ensures
        vstd::utf8::encode_utf8(s.push(c)) == vstd::utf8::encode_utf8(s) + vstd::utf8::encode_scalar(c as u32),
    decreases s.len(),
{
    if s.len() == 0 {
        assert(s.push(c).drop_first() =~= Seq::<char>::empty());
        assert(vstd::utf8::encode_utf8(Seq::<char>::empty()) =~= Seq::<u8>::empty());
        assert(vstd::utf8::encode_utf8(s) =~= Seq::<u8>::empty());
        assert(vstd::utf8::encode_utf8(s.push(c)) =~= vstd::utf8::encode_scalar(c as u32) + Seq::<u8>::empty());
        assert(vstd::utf8::encode_scalar(c as u32) + Seq::<u8>::empty() =~= vstd::utf8::encode_utf8(s) + vstd::utf8::encode_scalar(c as u32));
    } else {
        lemma_encode_utf8_push(s.drop_first(), c);
        assert(s.push(c).drop_first() =~= s.drop_first().push(c));
        assert(s.push(c)[0] == s[0]);
        let head = vstd::utf8::encode_scalar(s[0] as u32);
        assert(vstd::utf8::encode_utf8(s.push(c)) == head + vstd::utf8::encode_utf8(s.drop_first().push(c)));
        assert(vstd::utf8::encode_utf8(s) == head + vstd::utf8::encode_utf8(s.drop_first()));
        assert(head + (vstd::utf8::encode_utf8(s.drop_first()) + vstd::utf8::encode_scalar(c as u32))
            =~= (head + vstd::utf8::encode_utf8(s.drop_first())) + vstd::utf8::encode_scalar(c as u32));
    }
}

/// The byte offset of every character boundary: `off[i]` is where
/// character `i` starts, and `off[len]` is the length in bytes. Each offset
/// is the length of the UTF-8 encoding of the characters before it, so
/// consecutive offsets differ by the UTF-8 width of the character between
/// them (1, 2, 3 or 4 bytes); past `usize::MAX` bytes offsets saturate.
pub fn byte_offsets(chars: &Vec<char>) -> (off: Vec<usize>)
    ensures
        off@.len() == chars@.len() + 1,
        off@[0] == 0,
        forall|i: int, j: int| 0 <= i <= j < off@.len() ==> off@[i] <= off@[j],
        vstd::utf8::encode_utf8(chars@).len() <= usize::MAX ==> forall|i: int| 0 <= i <= chars@.len()
            ==> #[trigger] off@[i] == vstd::utf8::encode_utf8(chars@.subrange(0, i)).len(),
        vstd::utf8::encode_utf8(chars@).len() <= usize::MAX ==> forall|i: int| 0 <= i < chars@.len()
            ==> off@[i + 1] - off@[i] == vstd::utf8::encode_scalar(#[trigger] chars@[i] as u32).len(),
{
    let mut off: Vec<usize> = Vec::new();
    off.push(0);
    let mut total: usize = 0;
    let mut i: usize = 0;
    let ghost mut exact: bool = true;
    proof { assert(chars@.subrange(0, 0) =~= Seq::<char>::empty()); }
    while i < chars.len()
        invariant
            i <= chars@.len(),
            off@.len() == i + 1,
            off@[0] == 0,
            off@[i as int] == total,
            forall|a: int, b: int| 0 <= a <= b < off@.len() ==> off@[a] <= off@[b],
            exact ==> forall|k: int| 0 <= k <= i ==> #[trigger] off@[k] == vstd::utf8::encode_utf8(chars@.subrange(0, k)).len(),
            !exact ==> vstd::utf8::encode_utf8(chars@.subrange(0, i as int)).len() > usize::MAX,
        decreases chars@.len() - i,
    {
        let code = chars[i] as u32;
        let width: usize = if code < 0x80 {
            1
        } else if code < 0x800 {
            2
        } else if code < 0x10000 {
            3
        } else {
            4
        };
        proof {
            vstd::utf8::char_is_scalar(chars@[i as int]);
            assert(width == vstd::utf8::encode_scalar(code).len());
            lemma_encode_utf8_push(chars@.subrange(0, i as int), chars@[i as int]);
            assert(chars@.subrange(0, i as int).push(chars@[i as int]) =~= chars@.subrange(0, i + 1));
        }
        let ghost before = off@;
        total = match total.checked_add(width) {
            Some(t) => t,
            None => {
                proof { exact = false; }
                usize::MAX
            }
        };
        off.push(total);
        proof {
            assert forall|k: int| 0 <= k <= i implies #[trigger] off@[k] == before[k] by {}
        }
        i = i + 1;
    }
    proof {
        assert(chars@.subrange(0, chars@.len() as int) =~= chars@);
        if vstd::utf8::encode_utf8(chars@).len() <= usize::MAX {
            assert(exact);
            assert forall|k: int| 0 <= k < chars@.len()
                implies off@[k + 1] - off@[k] == vstd::utf8::encode_scalar(#[trigger] chars@[k] as u32).len() by {
                lemma_encode_utf8_push(chars@.subrange(0, k), chars@[k]);
                assert(chars@.subrange(0, k).push(chars@[k]) =~= chars@.subrange(0, k + 1));
                assert(off@[k + 1] == vstd::utf8::encode_utf8(chars@.subrange(0, k + 1)).len());
                assert(off@[k] == vstd::utf8::encode_utf8(chars@.subrange(0, k)).len());
            }
        }
    }
    off
}

fn byte_span(off: &Vec<usize>, s: Span) -> (r: Span)
    requires
        s.start <= s.end < off@.len(),
        forall|i: int, j: int| 0 <= i <= j < off@.len() ==> off@[i] <= off@[j],
    ensures
        r.start <= r.end <= off@[off@.len() - 1],
        r.start == off@[s.start as int],
        r.end == off@[s.end as int],
{
    Span { start: off[s.start], end: off[s.end] }
}

fn range_of(s: Span) -> (r: core::ops::Range<usize>)
    ensures
        r.start == s.start && r.end == s.end,
{
    core::ops::Range { start: s.start, end: s.end }
}

/// The tokens the lexer reads from `source`, in order, whatever spans they
/// carry.
pub open spec fn lexed_as(source: Seq<char>, toks: Seq<(Token, Span)>) -> bool {
    let lexemes = lexer::token_lexemes(source, 0);
    &&& toks.len() == lexemes.len()
    &&& forall|k: int| 0 <= k < toks.len() ==> lexer::token_from(source, (#[trigger] toks[k]).0, lexemes[k].0, lexemes[k].1)
}

/// Lexes and parses a source text. A lexical error stops before parsing;
/// every span in the result and in the diagnostics is a byte offset.
pub fn parse(source: &str) -> (r: Result<ast::Program, Diagnostics>)
    ensures
        r matches Err(d) ==> d.items@.len() > 0,
        r matches Ok(p) ==> parser::callable_names_distinct(p.funcs@, p.externs@) && parser::symbols_distinct(p.externs@),
        r is Ok ==> lexer::error_lexemes(source@, 0).len() == 0,
        r matches Ok(p) ==> exists|toks: Seq<(Token, Span)>| #[trigger] lexed_as(source@, toks)
            && grammar::is_program(toks, p),
        lexer::error_lexemes(source@, 0).len() == 0
            && (forall|toks: Seq<(Token, Span)>| #[trigger] lexed_as(source@, toks) ==> grammar::literal_lets_from(toks, 0))
            ==> r is Ok,
        ({
            let errs = lexer::error_lexemes(source@, 0);
            &&& errs.len() > 0 ==> (r matches Err(d) && d.items@.len() == errs.len()
                && forall|k: int| 0 <= k < errs.len() ==> (#[trigger] d.items@[k]).phase == DiagnosticPhase::Lex
                    && d.items@[k].message@ == lexer::error_message(source@, errs[k].0)
                    && d.items@[k].span is Some)
            &&& errs.len() == 0 ==> (r matches Err(d) ==> forall|k: int| 0 <= k < d.items@.len()
                ==> (#[trigger] d.items@[k]).phase == DiagnosticPhase::Parse)
        }),
        ({
            let errs = lexer::error_lexemes(source@, 0);
            errs.len() > 0 && vstd::utf8::encode_utf8(source@).len() <= usize::MAX ==> (r matches Err(d)
                && forall|k: int| 0 <= k < errs.len() ==> ((#[trigger] d.items@[k]).span matches Some(rg)
                    && rg.start == utf8_offset(source@, errs[k].0) && rg.end == utf8_offset(source@, errs[k].1)))
        }),
{
    let chars = crate::text::chars_of(source);
    let off = byte_offsets(&chars);
    let lexed = lex(&chars);
    let eof = off[chars.len()];
    if lexed.errors.len() > 0 {
        let mut items: Vec<Diagnostic> = Vec::new();
        let mut k: usize = 0;
        while k < lexed.errors.len()
            invariant
                k <= lexed.errors@.len(),
                items@.len() == k,
                off@.len() == chars@.len() + 1,
                forall|i: int, j: int| 0 <= i <= j < off@.len() ==> off@[i] <= off@[j],
                lexer::errors_within(lexed.errors@, chars@),
                forall|j: int| 0 <= j < k ==> (#[trigger] items@[j]).phase == DiagnosticPhase::Lex
                    && items@[j].message@ == lexed.errors@[j].1@ && items@[j].span is Some,
                forall|j: int| 0 <= j < k ==> ((#[trigger] items@[j]).span matches Some(rg)
                    && rg.start == off@[lexed.errors@[j].0.start as int] && rg.end == off@[lexed.errors@[j].0.end as int]),
            decreases lexed.errors@.len() - k,
        {
            proof { assert(lexed.errors@[k as int].0.end <= chars@.len()); }
            let sp = byte_span(&off, lexed.errors[k].0);
            items.push(Diagnostic { phase: DiagnosticPhase::Lex, message: lexed.errors[k].1.clone(), span: Some(range_of(sp)) });
            k = k + 1;
        }
        proof {
            let errs = lexer::error_lexemes(source@, 0);
            assert forall|j: int| 0 <= j < errs.len() implies (#[trigger] items@[j]).phase == DiagnosticPhase::Lex
                && items@[j].message@ == lexer::error_message(source@, errs[j].0) && items@[j].span is Some by {
                assert(lexer::error_spans(lexed.errors@)[j] == errs[j]);
            }
            if errs.len() > 0 && vstd::utf8::encode_utf8(source@).len() <= usize::MAX {
                assert forall|j: int| 0 <= j < errs.len() implies ((#[trigger] items@[j]).span matches Some(rg)
                    && rg.start == utf8_offset(source@, errs[j].0) && rg.end == utf8_offset(source@, errs[j].1)) by {
                    assert(lexer::error_spans(lexed.errors@)[j] == errs[j]);
                    assert(lexed.errors@[j].0.end <= chars@.len());
                    assert(off@[lexed.errors@[j].0.start as int] == vstd::utf8::encode_utf8(chars@.subrange(0, lexed.errors@[j].0.start as int)).len());
                    assert(off@[lexed.errors@[j].0.end as int] == vstd::utf8::encode_utf8(chars@.subrange(0, lexed.errors@[j].0.end as int)).len());
                }
            }
        }
        return Err(Diagnostics { items });
    }
    proof {
        assert(lexer::error_spans(lexed.errors@).len() == 0);
    }
    let mut toks: Vec<(Token, Span)> = Vec::new();
    let mut k: usize = 0;
    while k < lexed.tokens.len()
        invariant
            k <= lexed.tokens@.len(),
            toks@.len() == k,
            off@.len() == chars@.len() + 1,
            eof == off@[chars@.len() as int],
            forall|i: int, j: int| 0 <= i <= j < off@.len() ==> off@[i] <= off@[j],
            lexer::tokens_from(lexed.tokens@, chars@),
            forall|i: int| 0 <= i < toks@.len() ==> (#[trigger] toks@[i]).1.start <= toks@[i].1.end <= eof,
            forall|i: int| 0 <= i < toks@.len() ==> (#[trigger] toks@[i]).0 == lexed.tokens@[i].0,
        decreases lexed.tokens@.len() - k,
    {
        proof { assert(lexed.tokens@[k as int].1.end <= chars@.len()); }
        let sp = byte_span(&off, lexed.tokens[k].1);
        toks.push((lexer::copy_token(&lexed.tokens[k].0), sp));
        k = k + 1;
    }
    let tokens = Tokens { toks, eof };
    proof {
        let lexemes = lexer::token_lexemes(source@, 0);
        assert forall|j: int| 0 <= j < tokens.toks@.len() implies lexer::token_from(source@, (#[trigger] tokens.toks@[j]).0,
            lexemes[j].0, lexemes[j].1) by {
            assert(lexer::token_spans(lexed.tokens@)[j] == lexemes[j]);
        }
        assert(lexed_as(source@, tokens.toks@));
        assert(tokens.wf());
    }
    match parse_program(&tokens) {
        Ok(p) => Ok(p),
        Err(es) => {
            let mut items: Vec<Diagnostic> = Vec::new();
            let mut k: usize = 0;
            while k < es.len()
                invariant
                    k <= es@.len(),
                    items@.len() == k,
                    forall|j: int| 0 <= j < k ==> (#[trigger] items@[j]).phase == DiagnosticPhase::Parse,
                decreases es@.len() - k,
            {
                items.push(Diagnostic { phase: DiagnosticPhase::Parse, message: es[k].1.clone(), span: Some(range_of(es[k].0)) });
                k = k + 1;
            }
            Err(Diagnostics { items })
        }
    }
}

/// Whether every diagnostic comes from one phase.
pub open spec fn one_phase(items: Seq<Diagnostic>) -> bool {
    forall|k: int| 0 <= k < items.len() ==> (#[trigger] items[k]).phase == items[0].phase
}

/// Parses and checks a source text.
pub fn check(source: &str) -> (r: Result<checker::Program, Diagnostics>)
    ensures
        r matches Err(d) ==> d.items@.len() > 0 && one_phase(d.items@),
        ({
            let errs = lexer::error_lexemes(source@, 0);
            errs.len() > 0 ==> (r matches Err(d) && d.items@.len() == errs.len()
                && forall|k: int| 0 <= k < errs.len() ==> (#[trigger] d.items@[k]).phase == DiagnosticPhase::Lex
                    && d.items@[k].message@ == lexer::error_message(source@, errs[k].0))
        }),
        r matches Err(d) ==> (d.items@[0].phase == DiagnosticPhase::Internal ==> d.items@.len() == 1 && d.items@[0].span is None),
        r matches Ok(p) ==> checker::program_typed(p),
{
    let program = match parse(source) {
        Ok(p) => p,
        Err(d) => return Err(d),
    };
    match checker::check(&program) {
        Ok(p) => Ok(p),
        Err(checker::Failure::Source(errors)) => {
            let mut items: Vec<Diagnostic> = Vec::new();
            let mut k: usize = 0;
            while k < errors.len()
                invariant
                    k <= errors@.len(),
                    items@.len() == k,
                    forall|j: int| 0 <= j < k ==> (#[trigger] items@[j]).phase == DiagnosticPhase::TypeCheck,
                decreases errors@.len() - k,
            {
                items.push(Diagnostic { phase: DiagnosticPhase::TypeCheck, message: errors[k].msg.clone(), span: Some(range_of(errors[k].span)) });
                k = k + 1;
            }
            Err(Diagnostics { items })
        }
        Err(checker::Failure::Unknown(detail)) => {
            let mut items: Vec<Diagnostic> = Vec::new();
            items.push(Diagnostic { phase: DiagnosticPhase::Internal, message: text::owned(detail), span: None });
            Err(Diagnostics { items })
        }
    }
}

} // verus!

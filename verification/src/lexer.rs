//! Turns source characters into tokens. Whitespace and `//` comments separate
//! tokens; a numeric literal is munched together with every letter, digit or
//! underscore touching it, so a bad suffix is one bad token.

use vstd::prelude::*;
use crate::ast::{NumLiteral, Span};
use crate::text::{push_char, push_chars, push_str, string_of, slice_is, owned};

verus! {

#[derive(Clone, Copy, Debug, PartialEq, Eq, Structural)]
pub enum Operator {
    Plus,
    Minus,
    Star,
    Slash,
    Bang,
    Assign,
    Less,
    Greater,
    EqEq,
    NotEq,
    LessEq,
    GreaterEq,
}

#[derive(Clone, Debug)]
pub enum Token {
    Bool(bool),
    Num(NumLiteral),
    Str(String),
    Op(Operator),
    Ctrl(char),
    Ident(String),
    Extern,
    Rust,
    Fun,
    Let,
    Mut,
    Print,
    If,
    Then,
    Do,
    Type,
    Is,
    Struct,
    Union,
    Method,
    SelfKw,
    /// `Ref`, reserved for the reference parameter type.
    Ref,
    TyDec64,
    TyInt64,
    TyBool,
    TyNil,
    TyUInt8,
    TyUInt16,
    TyUInt32,
    TyUInt64,
    TyFloat32,
    /// `Box`, reserved for the box type.
    TyBox,
    /// `box`, the allocation form.
    BoxKw,
    Nil,
    While,
    ElseIf,
    Else,
    End,
    Break,
}

/// A copy of a numeric literal.
pub fn copy_number(n: &NumLiteral) -> (c: NumLiteral)
    ensures
        c == *n,
{
    match n {
        NumLiteral::Int(v) => NumLiteral::Int(*v),
        NumLiteral::Dec(d) => NumLiteral::Dec(d.clone()),
        NumLiteral::U8(v) => NumLiteral::U8(*v),
        NumLiteral::U16(v) => NumLiteral::U16(*v),
        NumLiteral::U32(v) => NumLiteral::U32(*v),
        NumLiteral::U64(v) => NumLiteral::U64(*v),
        NumLiteral::F32(d) => NumLiteral::F32(d.clone()),
    }
}

/// A copy of a token.
pub fn copy_token(t: &Token) -> (c: Token)
    ensures
        c == *t,
{
    match t {
        Token::Bool(b) => Token::Bool(*b),
        Token::Num(n) => Token::Num(copy_number(n)),
        Token::Str(s) => Token::Str(s.clone()),
        Token::Op(o) => Token::Op(*o),
        Token::Ctrl(c) => Token::Ctrl(*c),
        Token::Ident(s) => Token::Ident(s.clone()),
        Token::Extern => Token::Extern,
        Token::Rust => Token::Rust,
        Token::Fun => Token::Fun,
        Token::Let => Token::Let,
        Token::Mut => Token::Mut,
        Token::Print => Token::Print,
        Token::If => Token::If,
        Token::Then => Token::Then,
        Token::Do => Token::Do,
        Token::Type => Token::Type,
        Token::Is => Token::Is,
        Token::Struct => Token::Struct,
        Token::Union => Token::Union,
        Token::Method => Token::Method,
        Token::SelfKw => Token::SelfKw,
        Token::Ref => Token::Ref,
        Token::TyDec64 => Token::TyDec64,
        Token::TyInt64 => Token::TyInt64,
        Token::TyBool => Token::TyBool,
        Token::TyNil => Token::TyNil,
        Token::TyUInt8 => Token::TyUInt8,
        Token::TyUInt16 => Token::TyUInt16,
        Token::TyUInt32 => Token::TyUInt32,
        Token::TyUInt64 => Token::TyUInt64,
        Token::TyFloat32 => Token::TyFloat32,
        Token::TyBox => Token::TyBox,
        Token::BoxKw => Token::BoxKw,
        Token::Nil => Token::Nil,
        Token::While => Token::While,
        Token::ElseIf => Token::ElseIf,
        Token::Else => Token::Else,
        Token::End => Token::End,
        Token::Break => Token::Break,
    }
}

pub struct Lexed {
    pub tokens: Vec<(Token, Span)>,
    pub errors: Vec<(Span, String)>,
}

/// Unicode `White_Space`.
pub open spec fn is_ws(c: char) -> bool {
    ||| c == ' ' || c == '\t' || c == '\n' || c == '\r' || c == '\x0b' || c == '\x0c'
    ||| c == '\u{85}' || c == '\u{a0}' || c == '\u{1680}'
    ||| ('\u{2000}' <= c && c <= '\u{200a}')
    ||| c == '\u{2028}' || c == '\u{2029}' || c == '\u{202f}' || c == '\u{205f}' || c == '\u{3000}'
}

pub open spec fn is_digit(c: char) -> bool {
    '0' <= c && c <= '9'
}

/// A character that may start an identifier.
pub open spec fn is_ident_start(c: char) -> bool {
    ('a' <= c && c <= 'z') || ('A' <= c && c <= 'Z') || c == '_'
}

/// A character that may continue an identifier or a numeric suffix.
pub open spec fn is_ident_char(c: char) -> bool {
    is_ident_start(c) || is_digit(c)
}

pub fn ws(c: char) -> (r: bool)
    ensures
        r == is_ws(c),
        r <==> (('\u{9}' <= c && c <= '\u{d}') || c == '\u{20}' || c == '\u{85}' || c == '\u{a0}' || c == '\u{1680}'
            || ('\u{2000}' <= c && c <= '\u{200a}') || c == '\u{2028}' || c == '\u{2029}' || c == '\u{202f}'
            || c == '\u{205f}' || c == '\u{3000}'),
{
    c == ' ' || c == '\t' || c == '\n' || c == '\r' || c == '\x0b' || c == '\x0c'
        || c == '\u{85}' || c == '\u{a0}' || c == '\u{1680}'
        || ('\u{2000}' <= c && c <= '\u{200a}')
        || c == '\u{2028}' || c == '\u{2029}' || c == '\u{202f}' || c == '\u{205f}' || c == '\u{3000}'
}

pub fn digit(c: char) -> (r: bool)
    ensures
        r == is_digit(c),
{
    '0' <= c && c <= '9'
}

pub fn ident_start(c: char) -> (r: bool)
    ensures
        r == is_ident_start(c),
{
    ('a' <= c && c <= 'z') || ('A' <= c && c <= 'Z') || c == '_'
}

pub fn ident_char(c: char) -> (r: bool)
    ensures
        r == is_ident_char(c),
{
    ident_start(c) || digit(c)
}

/// The value of a run of decimal digits.
pub open spec fn digits_value(s: Seq<char>) -> nat
    decreases s.len(),
{
    if s.len() == 0 {
        0
    } else {
        digits_value(s.drop_last()) * 10 + ((s.last() as u32) - ('0' as u32)) as nat
    }
}

pub open spec fn all_digits(s: Seq<char>) -> bool {
    forall|i: int| 0 <= i < s.len() ==> is_digit(#[trigger] s[i])
}

/// The largest decimal value whose nearest binary32 value is finite is just
/// below `2^128 - 2^103`, the midpoint between `f32::MAX` and `2^128`, which
/// rounds to even and so to infinity.
pub open spec fn f32_overflow_threshold() -> nat {
    340282356779733661637539395458142568448
}

/// The integer part of a literal's digits: everything before a `.`.
pub open spec fn integer_part(s: Seq<char>) -> Seq<char>
    decreases s.len(),
{
    if s.len() == 0 {
        s
    } else if s[0] == '.' {
        Seq::empty()
    } else {
        seq![s[0]].add(integer_part(s.drop_first()))
    }
}

/// The value of `src[start..end]` when it is at most `bound`, computed
/// without overflow.
pub(crate) fn value_at_most(src: &Vec<char>, start: usize, end: usize, bound: u128) -> (r: Option<u128>)
    requires
        start <= end <= src@.len(),
        all_digits(src@.subrange(start as int, end as int)),
        bound >= 9,
    ensures
        match r {
            Some(v) => v == digits_value(src@.subrange(start as int, end as int)) && v <= bound,
            None => digits_value(src@.subrange(start as int, end as int)) > bound,
        },
{
    let mut v: u128 = 0;
    let mut i = start;
    while i < end
        invariant
            start <= i <= end <= src@.len(),
            all_digits(src@.subrange(start as int, end as int)),
            bound >= 9,
            v == digits_value(src@.subrange(start as int, i as int)),
            v <= bound,
        decreases end - i,
    {
        let c = src[i];
        assert(src@.subrange(start as int, end as int)[i - start] == c);
        let d = (c as u32 - '0' as u32) as u128;
        let ghost prefix = src@.subrange(start as int, (i + 1) as int);
        assert(prefix.drop_last() =~= src@.subrange(start as int, i as int));
        assert(prefix.last() == c);
        if v > (bound - d) / 10 {
            proof {
                lemma_digits_monotone(src@.subrange(start as int, end as int), (i + 1 - start) as nat);
                assert(src@.subrange(start as int, end as int).subrange(0, (i + 1 - start) as int) =~= prefix);
                assert(v * 10 + d > bound) by (nonlinear_arith)
                    requires v > (bound - d) / 10, d < 10, bound >= 9;
            }
            return None;
        }
        assert(v * 10 + d <= bound) by (nonlinear_arith)
            requires v <= (bound - d) / 10, d < 10, bound >= 9;
        v = v * 10 + d;
        i = i + 1;
    }
    Some(v)
}

/// Extending a digit run never lowers its value.
proof fn lemma_digits_monotone(s: Seq<char>, k: nat)
    requires
        k <= s.len(),
        all_digits(s),
    ensures
        digits_value(s.subrange(0, k as int)) <= digits_value(s),
    decreases s.len(),
{
    if k < s.len() {
        let t = s.drop_last();
        assert(all_digits(t));
        lemma_digits_monotone(t, k);
        assert(t.subrange(0, k as int) =~= s.subrange(0, k as int));
        assert(is_digit(s[s.len() - 1]));
        assert(digits_value(t) <= digits_value(t) * 10) by (nonlinear_arith);
    } else {
        assert(s.subrange(0, k as int) =~= s);
    }
}


/// Every suffix a numeric literal may carry, named when one is rejected.
pub open spec fn numeric_suffixes() -> Seq<char> {
    "'u8', 'u16', 'u32', 'u64', and 'f32'"@
}

/// The shape the lexer munches as a number: integer digits, then optionally
/// a point and more digits. `int_end` is where the integer digits stop.
pub open spec fn number_shape(s: Seq<char>, start: int, int_end: int, mid: int) -> bool {
    &&& 0 <= start < int_end <= mid <= s.len()
    &&& all_digits(s.subrange(start, int_end))
    &&& (int_end == mid || (s[int_end] == '.' && int_end + 1 < mid
        && all_digits(s.subrange(int_end + 1, mid))))
}

/// What a literal with digits `d` (integer part `ip`, fractional when
/// `frac`) and suffix `x` denotes, or the message that rejects it.
pub open spec fn classify_spec(d: Seq<char>, ip: Seq<char>, frac: bool, x: Seq<char>) -> Result<NumLiteral, Seq<char>> {
    let whole = d + x;
    let out_of_range = |ty: Seq<char>| "unsigned literal '"@ + whole + "' is out of range for "@ + ty;
    if x.len() == 0 && frac {
        Ok(NumLiteral::Dec(arbitrary()))
    } else if x.len() == 0 {
        if digits_value(d) <= i64::MAX {
            Ok(NumLiteral::Int(digits_value(d) as i64))
        } else {
            Err("integer literal '"@ + d + "' is out of range for Int64"@)
        }
    } else if x == "f32"@ {
        if digits_value(ip) < f32_overflow_threshold() {
            Ok(NumLiteral::F32(arbitrary()))
        } else {
            Err("float literal '"@ + d + "f32' is out of range for Float32"@)
        }
    } else if (x == "u8"@ || x == "u16"@ || x == "u32"@ || x == "u64"@) && frac {
        Err("numeric literal '"@ + whole + "' has a fractional part, but '"@ + x
            + "' requires an integer literal"@)
    } else if x == "u8"@ {
        if digits_value(d) <= u8::MAX { Ok(NumLiteral::U8(digits_value(d) as u8)) }
        else { Err(out_of_range("UInt8"@)) }
    } else if x == "u16"@ {
        if digits_value(d) <= u16::MAX { Ok(NumLiteral::U16(digits_value(d) as u16)) }
        else { Err(out_of_range("UInt16"@)) }
    } else if x == "u32"@ {
        if digits_value(d) <= u32::MAX { Ok(NumLiteral::U32(digits_value(d) as u32)) }
        else { Err(out_of_range("UInt32"@)) }
    } else if x == "u64"@ {
        if digits_value(d) <= u64::MAX { Ok(NumLiteral::U64(digits_value(d) as u64)) }
        else { Err(out_of_range("UInt64"@)) }
    } else {
        Err("numeric literal '"@ + whole + "' has an unknown suffix; supported suffixes are "@
            + numeric_suffixes())
    }
}

/// Whether an exec result matches the specified classification: the same
/// variant with the same value, the floating forms holding their digits,
/// and an error holding exactly the specified message.
pub open spec fn classified_as(r: Result<NumLiteral, String>, c: Result<NumLiteral, Seq<char>>, d: Seq<char>) -> bool {
    match (r, c) {
        (Ok(NumLiteral::Dec(t)), Ok(NumLiteral::Dec(_))) => t@ == d,
        (Ok(NumLiteral::F32(t)), Ok(NumLiteral::F32(_))) => t@ == d,
        (Ok(NumLiteral::Int(a)), Ok(NumLiteral::Int(b))) => a == b,
        (Ok(NumLiteral::U8(a)), Ok(NumLiteral::U8(b))) => a == b,
        (Ok(NumLiteral::U16(a)), Ok(NumLiteral::U16(b))) => a == b,
        (Ok(NumLiteral::U32(a)), Ok(NumLiteral::U32(b))) => a == b,
        (Ok(NumLiteral::U64(a)), Ok(NumLiteral::U64(b))) => a == b,
        (Err(m), Err(n)) => m@ == n,
        _ => false,
    }
}

fn out_of_range(src: &Vec<char>, start: usize, end: usize, ty: &str) -> (m: String)
    requires
        start <= end <= src@.len(),
    ensures
        m@ == "unsigned literal '"@ + src@.subrange(start as int, end as int)
            + "' is out of range for "@ + ty@,
{
    let mut m = owned("unsigned literal '");
    push_chars(&mut m, src, start, end);
    push_str(&mut m, "' is out of range for ");
    push_str(&mut m, ty);
    m
}

/// Classifies one munched numeric token `src[start..end]`, whose digits end
/// at `mid` and whose integer part ends at `int_end`.
pub fn classify_number(src: &Vec<char>, start: usize, int_end: usize, mid: usize, end: usize) -> (r: Result<NumLiteral, String>)
    requires
        number_shape(src@, start as int, int_end as int, mid as int),
        mid <= end <= src@.len(),
    ensures
        classified_as(r, classify_spec(src@.subrange(start as int, mid as int),
            src@.subrange(start as int, int_end as int), int_end < mid,
            src@.subrange(mid as int, end as int)), src@.subrange(start as int, mid as int)),
{
    let ghost d = src@.subrange(start as int, mid as int);
    let ghost x = src@.subrange(mid as int, end as int);
    let ghost ip = src@.subrange(start as int, int_end as int);
    let frac = int_end < mid;
    proof {
        assert(src@.subrange(start as int, end as int) =~= d + x);
        if !frac {
            assert(d =~= ip);
        }
    }
    if mid == end && frac {
        return Ok(NumLiteral::Dec(string_of(src, start, mid)));
    }
    if mid == end {
        return match value_at_most(src, start, mid, 9223372036854775807u128) {
            Some(v) => Ok(NumLiteral::Int(v as i64)),
            None => {
                let mut m = owned("integer literal '");
                push_chars(&mut m, src, start, mid);
                push_str(&mut m, "' is out of range for Int64");
                Err(m)
            }
        };
    }
    if slice_is(src, mid, end, "f32") {
        return match value_at_most(src, start, int_end, 340282356779733661637539395458142568447u128) {
            Some(_) => Ok(NumLiteral::F32(string_of(src, start, mid))),
            None => {
                let mut m = owned("float literal '");
                push_chars(&mut m, src, start, mid);
                push_str(&mut m, "f32' is out of range for Float32");
                Err(m)
            }
        };
    }
    let is_u8 = slice_is(src, mid, end, "u8");
    let is_u16 = slice_is(src, mid, end, "u16");
    let is_u32 = slice_is(src, mid, end, "u32");
    let is_u64 = slice_is(src, mid, end, "u64");
    if (is_u8 || is_u16 || is_u32 || is_u64) && frac {
        let mut m = owned("numeric literal '");
        push_chars(&mut m, src, start, end);
        push_str(&mut m, "' has a fractional part, but '");
        push_chars(&mut m, src, mid, end);
        push_str(&mut m, "' requires an integer literal");
        return Err(m);
    }
    if is_u8 {
        return match value_at_most(src, start, mid, 255u128) {
            Some(v) => Ok(NumLiteral::U8(v as u8)),
            None => Err(out_of_range(src, start, end, "UInt8")),
        };
    }
    if is_u16 {
        return match value_at_most(src, start, mid, 65535u128) {
            Some(v) => Ok(NumLiteral::U16(v as u16)),
            None => Err(out_of_range(src, start, end, "UInt16")),
        };
    }
    if is_u32 {
        return match value_at_most(src, start, mid, 4294967295u128) {
            Some(v) => Ok(NumLiteral::U32(v as u32)),
            None => Err(out_of_range(src, start, end, "UInt32")),
        };
    }
    if is_u64 {
        return match value_at_most(src, start, mid, 18446744073709551615u128) {
            Some(v) => Ok(NumLiteral::U64(v as u64)),
            None => Err(out_of_range(src, start, end, "UInt64")),
        };
    }
    let mut m = owned("numeric literal '");
    push_chars(&mut m, src, start, end);
    push_str(&mut m, "' has an unknown suffix; supported suffixes are ");
    push_str(&mut m, "'u8', 'u16', 'u32', 'u64', and 'f32'");
    Err(m)
}


/// The reserved words and the token each one lexes to.
pub open spec fn keyword(s: Seq<char>) -> Option<Token> {
    if s == "fun"@ {
        Some(Token::Fun)
    } else if s == "extern"@ {
        Some(Token::Extern)
    } else if s == "rust"@ {
        Some(Token::Rust)
    } else if s == "let"@ {
        Some(Token::Let)
    } else if s == "mut"@ {
        Some(Token::Mut)
    } else if s == "type"@ {
        Some(Token::Type)
    } else if s == "is"@ {
        Some(Token::Is)
    } else if s == "struct"@ {
        Some(Token::Struct)
    } else if s == "union"@ {
        Some(Token::Union)
    } else if s == "method"@ {
        Some(Token::Method)
    } else if s == "self"@ {
        Some(Token::SelfKw)
    } else if s == "Ref"@ {
        Some(Token::Ref)
    } else if s == "Box"@ {
        Some(Token::TyBox)
    } else if s == "box"@ {
        Some(Token::BoxKw)
    } else if s == "print"@ {
        Some(Token::Print)
    } else if s == "if"@ {
        Some(Token::If)
    } else if s == "then"@ {
        Some(Token::Then)
    } else if s == "Dec64"@ {
        Some(Token::TyDec64)
    } else if s == "Int64"@ {
        Some(Token::TyInt64)
    } else if s == "Bool"@ {
        Some(Token::TyBool)
    } else if s == "Nil"@ {
        Some(Token::TyNil)
    } else if s == "UInt8"@ {
        Some(Token::TyUInt8)
    } else if s == "UInt16"@ {
        Some(Token::TyUInt16)
    } else if s == "UInt32"@ {
        Some(Token::TyUInt32)
    } else if s == "UInt64"@ {
        Some(Token::TyUInt64)
    } else if s == "Float32"@ {
        Some(Token::TyFloat32)
    } else if s == "nil"@ {
        Some(Token::Nil)
    } else if s == "null"@ {
        Some(Token::Nil)
    } else if s == "while"@ {
        Some(Token::While)
    } else if s == "do"@ {
        Some(Token::Do)
    } else if s == "elseif"@ {
        Some(Token::ElseIf)
    } else if s == "else"@ {
        Some(Token::Else)
    } else if s == "end"@ {
        Some(Token::End)
    } else if s == "break"@ {
        Some(Token::Break)
    } else if s == "true"@ {
        Some(Token::Bool(true))
    } else if s == "false"@ {
        Some(Token::Bool(false))
    } else {
        None
    }
}

fn keyword_at(src: &Vec<char>, start: usize, end: usize) -> (r: Option<Token>)
    requires
        start <= end <= src@.len(),
    ensures
        r == keyword(src@.subrange(start as int, end as int)),
{
    if slice_is(src, start, end, "fun") {
        Some(Token::Fun)
    } else if slice_is(src, start, end, "extern") {
        Some(Token::Extern)
    } else if slice_is(src, start, end, "rust") {
        Some(Token::Rust)
    } else if slice_is(src, start, end, "let") {
        Some(Token::Let)
    } else if slice_is(src, start, end, "mut") {
        Some(Token::Mut)
    } else if slice_is(src, start, end, "type") {
        Some(Token::Type)
    } else if slice_is(src, start, end, "is") {
        Some(Token::Is)
    } else if slice_is(src, start, end, "struct") {
        Some(Token::Struct)
    } else if slice_is(src, start, end, "union") {
        Some(Token::Union)
    } else if slice_is(src, start, end, "method") {
        Some(Token::Method)
    } else if slice_is(src, start, end, "self") {
        Some(Token::SelfKw)
    } else if slice_is(src, start, end, "Ref") {
        Some(Token::Ref)
    } else if slice_is(src, start, end, "Box") {
        Some(Token::TyBox)
    } else if slice_is(src, start, end, "box") {
        Some(Token::BoxKw)
    } else if slice_is(src, start, end, "print") {
        Some(Token::Print)
    } else if slice_is(src, start, end, "if") {
        Some(Token::If)
    } else if slice_is(src, start, end, "then") {
        Some(Token::Then)
    } else if slice_is(src, start, end, "Dec64") {
        Some(Token::TyDec64)
    } else if slice_is(src, start, end, "Int64") {
        Some(Token::TyInt64)
    } else if slice_is(src, start, end, "Bool") {
        Some(Token::TyBool)
    } else if slice_is(src, start, end, "Nil") {
        Some(Token::TyNil)
    } else if slice_is(src, start, end, "UInt8") {
        Some(Token::TyUInt8)
    } else if slice_is(src, start, end, "UInt16") {
        Some(Token::TyUInt16)
    } else if slice_is(src, start, end, "UInt32") {
        Some(Token::TyUInt32)
    } else if slice_is(src, start, end, "UInt64") {
        Some(Token::TyUInt64)
    } else if slice_is(src, start, end, "Float32") {
        Some(Token::TyFloat32)
    } else if slice_is(src, start, end, "nil") {
        Some(Token::Nil)
    } else if slice_is(src, start, end, "null") {
        Some(Token::Nil)
    } else if slice_is(src, start, end, "while") {
        Some(Token::While)
    } else if slice_is(src, start, end, "do") {
        Some(Token::Do)
    } else if slice_is(src, start, end, "elseif") {
        Some(Token::ElseIf)
    } else if slice_is(src, start, end, "else") {
        Some(Token::Else)
    } else if slice_is(src, start, end, "end") {
        Some(Token::End)
    } else if slice_is(src, start, end, "break") {
        Some(Token::Break)
    } else if slice_is(src, start, end, "true") {
        Some(Token::Bool(true))
    } else if slice_is(src, start, end, "false") {
        Some(Token::Bool(false))
    } else {
        None
    }
}

pub open spec fn op_spelling(o: Operator) -> Seq<char> {
    match o {
        Operator::Plus => "+"@,
        Operator::Minus => "-"@,
        Operator::Star => "*"@,
        Operator::Slash => "/"@,
        Operator::Bang => "!"@,
        Operator::Assign => "="@,
        Operator::Less => "<"@,
        Operator::Greater => ">"@,
        Operator::EqEq => "=="@,
        Operator::NotEq => "!="@,
        Operator::LessEq => "<="@,
        Operator::GreaterEq => ">="@,
    }
}

pub open spec fn is_ctrl(c: char) -> bool {
    c == '(' || c == ')' || c == '[' || c == ']' || c == ',' || c == ':' || c == '.' || c == '|'
}

pub open spec fn ident_shape(s: Seq<char>) -> bool {
    s.len() > 0 && is_ident_start(s[0]) && forall|i: int| 0 <= i < s.len() ==> is_ident_char(#[trigger] s[i])
}

/// Whether token `t` is what the characters `s` lex to.
pub open spec fn token_spelled(t: Token, s: Seq<char>) -> bool {
    match t {
        Token::Num(_) => s.len() > 0 && is_digit(s[0]),
        Token::Str(v) => s.len() >= 2 && s[0] == '"' && s.last() == '"'
            && v@ == s.subrange(1, s.len() - 1) && !v@.contains('"'),
        Token::Ident(n) => n@ == s && ident_shape(s) && keyword(s) is None,
        Token::Op(o) => s == op_spelling(o),
        Token::Ctrl(c) => s == seq![c] && is_ctrl(c),
        other => ident_shape(s) && keyword(s) == Some(other),
    }
}

/// Every token lies inside the source, in order, and is what its
/// characters spell; every error lies inside the source.
pub open spec fn lexed_from(l: Lexed, src: Seq<char>) -> bool {
    tokens_from(l.tokens@, src) && errors_within(l.errors@, src)
}

pub open spec fn tokens_from(tokens: Seq<(Token, Span)>, src: Seq<char>) -> bool {
    &&& forall|i: int| 0 <= i < tokens.len() ==> {
        let (t, sp) = #[trigger] tokens[i];
        &&& sp.start < sp.end <= src.len()
        &&& token_spelled(t, src.subrange(sp.start as int, sp.end as int))
    }
    &&& forall|i: int| 0 <= i < tokens.len() - 1 ==> #[trigger] tokens[i].1.end <= tokens[i + 1].1.start
}

pub open spec fn errors_within(errors: Seq<(Span, String)>, src: Seq<char>) -> bool {
    forall|i: int| 0 <= i < errors.len() ==> {
        let sp = (#[trigger] errors[i]).0;
        sp.start <= sp.end <= src.len()
    }
}

proof fn lemma_push_token(tokens: Seq<(Token, Span)>, src: Seq<char>, t: Token, sp: Span)
    requires
        tokens_from(tokens, src),
        sp.start < sp.end <= src.len(),
        token_spelled(t, src.subrange(sp.start as int, sp.end as int)),
        tokens.len() > 0 ==> tokens.last().1.end <= sp.start,
    ensures
        tokens_from(tokens.push((t, sp)), src),
{
    let n = tokens.push((t, sp));
    assert forall|i: int| 0 <= i < n.len() - 1 implies #[trigger] n[i].1.end <= n[i + 1].1.start by {
        if i < tokens.len() - 1 {
            assert(tokens[i].1.end <= tokens[i + 1].1.start);
        }
    }
    assert forall|i: int| 0 <= i < n.len() implies {
        let (t2, sp2) = #[trigger] n[i];
        &&& sp2.start < sp2.end <= src.len()
        &&& token_spelled(t2, src.subrange(sp2.start as int, sp2.end as int))
    } by {
        if i < tokens.len() {
            assert(n[i] == tokens[i]);
        }
    }
}

/// Where the run of identifier characters starting at `i` ends.
pub open spec fn ident_end(s: Seq<char>, i: int) -> int
    decreases s.len() - i,
{
    if i < 0 || i >= s.len() || !is_ident_char(s[i]) { i } else { ident_end(s, i + 1) }
}

/// Where the run of digits starting at `i` ends.
pub open spec fn digit_end(s: Seq<char>, i: int) -> int
    decreases s.len() - i,
{
    if i < 0 || i >= s.len() || !is_digit(s[i]) { i } else { digit_end(s, i + 1) }
}

/// The first line feed at or after `j`, or the end of the source.
pub open spec fn line_end(s: Seq<char>, j: int) -> int
    decreases s.len() - j,
{
    if j < 0 || j >= s.len() || s[j] == '\n' { j } else { line_end(s, j + 1) }
}

/// The first `"` at or after `j`, or the end of the source.
pub open spec fn quote_at(s: Seq<char>, j: int) -> int
    decreases s.len() - j,
{
    if j < 0 || j >= s.len() || s[j] == '"' { j } else { quote_at(s, j + 1) }
}

pub proof fn lemma_line_end_bounds(s: Seq<char>, j: int)
    requires
        0 <= j,
    ensures
        j <= line_end(s, j),
        j <= s.len() ==> line_end(s, j) <= s.len(),
    decreases s.len() - j,
{
    if j < s.len() && s[j] != '\n' {
        lemma_line_end_bounds(s, j + 1);
    }
}

/// Where the whitespace and `//` comments starting at `i` end.
pub open spec fn padding_end(s: Seq<char>, i: int) -> int
    decreases s.len() - i,
{
    if i < 0 || i >= s.len() {
        i
    } else if is_ws(s[i]) {
        padding_end(s, i + 1)
    } else if i + 1 < s.len() && s[i] == '/' && s[i + 1] == '/' {
        proof { lemma_line_end_bounds(s, i + 2); }
        padding_end(s, line_end(s, i + 2))
    } else {
        i
    }
}

pub proof fn lemma_padding_end_bounds(s: Seq<char>, i: int)
    requires
        0 <= i <= s.len(),
    ensures
        i <= padding_end(s, i) <= s.len(),
    decreases s.len() - i,
{
    if i < s.len() {
        if is_ws(s[i]) {
            lemma_padding_end_bounds(s, i + 1);
        } else if i + 1 < s.len() && s[i] == '/' && s[i + 1] == '/' {
            lemma_line_end_bounds(s, i + 2);
            lemma_padding_end_bounds(s, line_end(s, i + 2));
        }
    }
}

/// How many characters the operator at `i` spells, or 0 where none starts:
/// the two-character comparisons are tried first.
pub open spec fn op_len(s: Seq<char>, i: int) -> int {
    let c = s[i];
    if i + 1 < s.len() && s[i + 1] == '=' && (c == '=' || c == '!' || c == '<' || c == '>') {
        2
    } else if c == '+' || c == '*' || c == '-' || c == '/' || c == '!' || c == '=' || c == '<' || c == '>' {
        1
    } else {
        0
    }
}

/// Where a numeric literal's integer digits end.
pub open spec fn int_digits_end(s: Seq<char>, start: int) -> int {
    if s[start] == '0' { start + 1 } else { digit_end(s, start) }
}

/// Where a numeric literal's digits, with any fraction, end.
pub open spec fn number_digits_end(s: Seq<char>, start: int) -> int {
    let int_end = int_digits_end(s, start);
    if int_end + 1 < s.len() && s[int_end] == '.' && is_digit(s[int_end + 1]) {
        digit_end(s, int_end + 1)
    } else {
        int_end
    }
}

/// What the numeric literal at `start` denotes, or the message that
/// rejects it.
pub open spec fn number_at(s: Seq<char>, start: int) -> Result<NumLiteral, Seq<char>> {
    let int_end = int_digits_end(s, start);
    let mid = number_digits_end(s, start);
    let end = ident_end(s, mid);
    classify_spec(s.subrange(start, mid), s.subrange(start, int_end), int_end < mid, s.subrange(mid, end))
}

/// Where the lexeme starting at `start` ends: maximal munch, with a bad
/// character or an unterminated quote taking one character.
pub open spec fn lexeme_end(s: Seq<char>, start: int) -> int {
    let c = s[start];
    if is_digit(c) {
        ident_end(s, number_digits_end(s, start))
    } else if c == '"' {
        if quote_at(s, start + 1) < s.len() { quote_at(s, start + 1) + 1 } else { start + 1 }
    } else if op_len(s, start) > 0 {
        start + op_len(s, start)
    } else if is_ctrl(c) || !is_ident_start(c) {
        start + 1
    } else {
        ident_end(s, start)
    }
}

/// Whether the lexeme starting at `start` is a token rather than an error.
pub open spec fn lexeme_ok(s: Seq<char>, start: int) -> bool {
    let c = s[start];
    if is_digit(c) {
        number_at(s, start) is Ok
    } else if c == '"' {
        quote_at(s, start + 1) < s.len()
    } else {
        op_len(s, start) > 0 || is_ctrl(c) || is_ident_start(c)
    }
}

/// The message of the error lexeme starting at `start`.
pub open spec fn error_message(s: Seq<char>, start: int) -> Seq<char> {
    let c = s[start];
    if is_digit(c) {
        match number_at(s, start) {
            Err(m) => m,
            Ok(_) => Seq::empty(),
        }
    } else if c == '"' {
        "unterminated string literal: found '\"' with no closing '\"'"@
    } else {
        "found '"@ + seq![c] + "', which cannot start any token"@
    }
}

/// Whether `t` is the token the characters `a..b` lex to: it is spelled by
/// them, and a number has the value its digits and suffix denote.
pub open spec fn token_from(s: Seq<char>, t: Token, a: int, b: int) -> bool {
    &&& token_spelled(t, s.subrange(a, b))
    &&& (t matches Token::Num(lit) ==> classified_as(Ok(lit), number_at(s, a), s.subrange(a, number_digits_end(s, a))))
}

pub proof fn lemma_ident_end_bounds(s: Seq<char>, i: int)
    requires
        0 <= i <= s.len(),
    ensures
        i <= ident_end(s, i) <= s.len(),
    decreases s.len() - i,
{
    if i < s.len() && is_ident_char(s[i]) {
        lemma_ident_end_bounds(s, i + 1);
    }
}

pub proof fn lemma_digit_end_bounds(s: Seq<char>, i: int)
    requires
        0 <= i <= s.len(),
    ensures
        i <= digit_end(s, i) <= s.len(),
    decreases s.len() - i,
{
    if i < s.len() && is_digit(s[i]) {
        lemma_digit_end_bounds(s, i + 1);
    }
}

pub proof fn lemma_quote_at_bounds(s: Seq<char>, j: int)
    requires
        0 <= j <= s.len(),
    ensures
        j <= quote_at(s, j) <= s.len(),
    decreases s.len() - j,
{
    if j < s.len() && s[j] != '"' {
        lemma_quote_at_bounds(s, j + 1);
    }
}

/// Every lexeme takes at least one character and stays in the source.
pub proof fn lemma_lexeme_end_bounds(s: Seq<char>, start: int)
    requires
        0 <= start < s.len(),
    ensures
        start < lexeme_end(s, start) <= s.len(),
{
    let c = s[start];
    if is_digit(c) {
        lemma_digit_end_bounds(s, start);
        let int_end = int_digits_end(s, start);
        if int_end + 1 < s.len() && s[int_end] == '.' && is_digit(s[int_end + 1]) {
            lemma_digit_end_bounds(s, int_end + 1);
        }
        lemma_ident_end_bounds(s, number_digits_end(s, start));
        if c != '0' {
            assert(digit_end(s, start) == digit_end(s, start + 1));
            lemma_digit_end_bounds(s, start + 1);
        }
    } else if c == '"' {
        lemma_quote_at_bounds(s, start + 1);
    } else if op_len(s, start) > 0 {
    } else if is_ctrl(c) || !is_ident_start(c) {
    } else {
        assert(ident_end(s, start) == ident_end(s, start + 1));
        lemma_ident_end_bounds(s, start + 1);
    }
}

/// The spans of the tokens the source lexes to from `i`, in order.
pub open spec fn token_lexemes(s: Seq<char>, i: int) -> Seq<(int, int)>
    decreases s.len() - i,
{
    if i < 0 || i > s.len() {
        Seq::empty()
    } else {
        let p = padding_end(s, i);
        if p >= s.len() {
            Seq::empty()
        } else {
            proof {
                lemma_padding_end_bounds(s, i);
                lemma_lexeme_end_bounds(s, p);
            }
            let e = lexeme_end(s, p);
            if lexeme_ok(s, p) {
                seq![(p, e)] + token_lexemes(s, e)
            } else {
                token_lexemes(s, e)
            }
        }
    }
}

/// The spans of the lexical errors of the source from `i`, in order.
pub open spec fn error_lexemes(s: Seq<char>, i: int) -> Seq<(int, int)>
    decreases s.len() - i,
{
    if i < 0 || i > s.len() {
        Seq::empty()
    } else {
        let p = padding_end(s, i);
        if p >= s.len() {
            Seq::empty()
        } else {
            proof {
                lemma_padding_end_bounds(s, i);
                lemma_lexeme_end_bounds(s, p);
            }
            let e = lexeme_end(s, p);
            if lexeme_ok(s, p) {
                error_lexemes(s, e)
            } else {
                seq![(p, e)] + error_lexemes(s, e)
            }
        }
    }
}

/// The spans of tokens, as pairs.
pub open spec fn token_spans(tokens: Seq<(Token, Span)>) -> Seq<(int, int)> {
    tokens.map_values(|t: (Token, Span)| (t.1.start as int, t.1.end as int))
}

/// The spans of errors, as pairs.
pub open spec fn error_spans(errors: Seq<(Span, String)>) -> Seq<(int, int)> {
    errors.map_values(|e: (Span, String)| (e.0.start as int, e.0.end as int))
}

/// The end of the run starting at `i` of characters satisfying `ident_char`.
fn ident_run(src: &Vec<char>, i: usize) -> (j: usize)
    requires
        i <= src@.len(),
    ensures
        j == ident_end(src@, i as int),
        i <= j <= src@.len(),
        forall|k: int| i <= k < j ==> is_ident_char(#[trigger] src@[k]),
        j == src@.len() || !is_ident_char(src@[j as int]),
{
    let mut j = i;
    while j < src.len() && ident_char(src[j])
        invariant
            i <= j <= src@.len(),
            forall|k: int| i <= k < j ==> is_ident_char(#[trigger] src@[k]),
            ident_end(src@, i as int) == ident_end(src@, j as int),
        decreases src@.len() - j,
    {
        j = j + 1;
    }
    j
}

/// The end of the run of digits starting at `i`.
fn digit_run(src: &Vec<char>, i: usize) -> (j: usize)
    requires
        i <= src@.len(),
    ensures
        j == digit_end(src@, i as int),
        i <= j <= src@.len(),
        all_digits(src@.subrange(i as int, j as int)),
        j == src@.len() || !is_digit(src@[j as int]),
{
    let mut j = i;
    while j < src.len() && digit(src[j])
        invariant
            i <= j <= src@.len(),
            forall|k: int| i <= k < j ==> is_digit(#[trigger] src@[k]),
            digit_end(src@, i as int) == digit_end(src@, j as int),
        decreases src@.len() - j,
    {
        j = j + 1;
    }
    assert(all_digits(src@.subrange(i as int, j as int))) by {
        assert forall|k: int| 0 <= k < j - i implies is_digit(#[trigger] src@.subrange(i as int, j as int)[k]) by {
            assert(src@.subrange(i as int, j as int)[k] == src@[i + k]);
        }
    }
    j
}

/// Skips whitespace and `//` comments from `i`.
fn skip_padding(src: &Vec<char>, i: usize) -> (j: usize)
    requires
        i <= src@.len(),
    ensures
        j == padding_end(src@, i as int),
        i <= j <= src@.len(),
{
    let mut j = i;
    loop
        invariant
            i <= j <= src@.len(),
            padding_end(src@, i as int) == padding_end(src@, j as int),
        decreases src@.len() - j,
    {
        if j < src.len() && ws(src[j]) {
            j = j + 1;
        } else if j < src.len() && src.len() - j >= 2 && src[j] == '/' && src[j + 1] == '/' {
            let ghost top = j as int;
            j = j + 2;
            while j < src.len() && src[j] != '\n'
                invariant
                    i <= j <= src@.len(),
                    top + 2 <= j,
                    line_end(src@, top + 2) == line_end(src@, j as int),
                decreases src@.len() - j,
            {
                j = j + 1;
            }
            proof {
                assert(line_end(src@, j as int) == j as int);
            }
        } else {
            return j;
        }
    }
}

/// The operator starting at `i` and its length, trying the two-character
/// comparisons first.
fn operator_at(src: &Vec<char>, i: usize) -> (r: Option<(Operator, usize)>)
    requires
        i < src@.len(),
    ensures
        (r is Some) == (op_len(src@, i as int) > 0),
        r matches Some((o, n)) ==> n == op_len(src@, i as int),
        match r {
            Some((o, n)) => i + n <= src@.len() && n >= 1
                && src@.subrange(i as int, (i + n) as int) == op_spelling(o),
            None => true,
        },
{
    let c = src[i];
    if src.len() - i >= 2 && src[i + 1] == '=' {
        let two = if c == '=' { Some(Operator::EqEq) } else if c == '!' { Some(Operator::NotEq) }
            else if c == '<' { Some(Operator::LessEq) } else if c == '>' { Some(Operator::GreaterEq) }
            else { None };
        if let Some(o) = two {
            proof {
                let sub = src@.subrange(i as int, (i + 2) as int);
                assert(sub =~= seq![c, '=']);
                reveal_strlit("==");
                reveal_strlit("!=");
                reveal_strlit("<=");
                reveal_strlit(">=");
            }
            return Some((o, 2));
        }
    }
    let one = if c == '+' { Some(Operator::Plus) } else if c == '*' { Some(Operator::Star) }
        else if c == '-' { Some(Operator::Minus) } else if c == '/' { Some(Operator::Slash) }
        else if c == '!' { Some(Operator::Bang) } else if c == '=' { Some(Operator::Assign) }
        else if c == '<' { Some(Operator::Less) } else if c == '>' { Some(Operator::Greater) }
        else { None };
    match one {
        Some(o) => {
            proof {
                assert(src@.subrange(i as int, (i + 1) as int) =~= seq![c]);
                reveal_strlit("+");
                reveal_strlit("*");
                reveal_strlit("-");
                reveal_strlit("/");
                reveal_strlit("!");
                reveal_strlit("=");
                reveal_strlit("<");
                reveal_strlit(">");
            }
            Some((o, 1))
        }
        None => None,
    }
}

fn ctrl(c: char) -> (r: bool)
    ensures
        r == is_ctrl(c),
{
    c == '(' || c == ')' || c == '[' || c == ']' || c == ',' || c == ':' || c == '.' || c == '|'
}

/// Lexes one token at `start` (where no padding starts), returning it or the
/// error it raises, and where lexing continues.
fn lex_at(src: &Vec<char>, start: usize) -> (r: (Result<(Token, Span), (Span, String)>, usize))
    requires
        start < src@.len(),
    ensures
        start < r.1 <= src@.len(),
        r.1 == lexeme_end(src@, start as int),
        (r.0 is Ok) == lexeme_ok(src@, start as int),
        match r.0 {
            Ok((t, sp)) => sp.start == start && sp.end == r.1
                && token_from(src@, t, start as int, r.1 as int),
            Err((sp, m)) => sp.start == start && sp.end == r.1 && m@ == error_message(src@, start as int),
        },
{
    let len = src.len();
    assert(start < len);
    let c = src[start];
    if digit(c) {
        let int_end = if c == '0' { start + 1 } else { digit_run(src, start) };
        proof {
            if c == '0' {
                assert(all_digits(src@.subrange(start as int, (start + 1) as int))) by {
                    assert(src@.subrange(start as int, (start + 1) as int)[0] == c);
                }
            }
        }
        let mut mid = int_end;
        if int_end < src.len() && src.len() - int_end >= 2 && src[int_end] == '.' && digit(src[int_end + 1]) {
            mid = digit_run(src, int_end + 1);
        }
        let end = ident_run(src, mid);
        proof {
            assert(int_end == int_digits_end(src@, start as int));
            assert(mid == number_digits_end(src@, start as int));
        }
        let span = Span { start, end };
        match classify_number(src, start, int_end, mid, end) {
            Ok(literal) => (Ok((Token::Num(literal), span)), end),
            Err(message) => (Err((span, message)), end),
        }
    } else if c == '"' {
        let mut j = start + 1;
        while j < src.len() && src[j] != '"'
            invariant
                start < j <= src@.len(),
                forall|k: int| start < k < j ==> #[trigger] src@[k] != '"',
                quote_at(src@, start + 1) == quote_at(src@, j as int),
            decreases src@.len() - j,
        {
            j = j + 1;
        }
        if j < src.len() {
            let body = string_of(src, start + 1, j);
            let span = Span { start, end: j + 1 };
            proof {
                let s = src@.subrange(start as int, (j + 1) as int);
                assert(s.subrange(1, s.len() - 1) =~= body@);
                assert(!body@.contains('"')) by {
                    if body@.contains('"') {
                        let k = choose|k: int| 0 <= k < body@.len() && body@[k] == '"';
                        assert(src@[start + 1 + k] == '"');
                    }
                }
            }
            (Ok((Token::Str(body), span)), j + 1)
        } else {
            let m = owned("unterminated string literal: found '\"' with no closing '\"'");
            (Err((Span { start, end: start + 1 }, m)), start + 1)
        }
    } else if let Some((o, n)) = operator_at(src, start) {
        (Ok((Token::Op(o), Span { start, end: start + n })), start + n)
    } else if ctrl(c) {
        proof {
            assert(src@.subrange(start as int, (start + 1) as int) =~= seq![c]);
        }
        (Ok((Token::Ctrl(c), Span { start, end: start + 1 })), start + 1)
    } else if ident_start(c) {
        let end = ident_run(src, start);
        let ghost s = src@.subrange(start as int, end as int);
        assert(ident_shape(s)) by {
            assert forall|k: int| 0 <= k < s.len() implies is_ident_char(#[trigger] s[k]) by {
                assert(s[k] == src@[start + k]);
            }
        }
        let token = match keyword_at(src, start, end) {
            Some(k) => k,
            None => Token::Ident(string_of(src, start, end)),
        };
        (Ok((token, Span { start, end })), end)
    } else {
        let mut m = owned("found '");
        push_char(&mut m, c);
        push_str(&mut m, "', which cannot start any token");
        (Err((Span { start, end: start + 1 }, m)), start + 1)
    }
}

/// Lexes a whole source. Lexing continues past an error so every bad token
/// is reported: the tokens are exactly the well-formed lexemes and the
/// errors exactly the bad ones, each in source order.
pub fn lex(src: &Vec<char>) -> (l: Lexed)
    ensures
        lexed_from(l, src@),
        token_spans(l.tokens@) == token_lexemes(src@, 0),
        forall|k: int| 0 <= k < l.tokens@.len() ==> token_from(src@, (#[trigger] l.tokens@[k]).0,
            l.tokens@[k].1.start as int, l.tokens@[k].1.end as int),
        error_spans(l.errors@) == error_lexemes(src@, 0),
        forall|k: int| 0 <= k < l.errors@.len() ==> (#[trigger] l.errors@[k]).1@ == error_message(src@, l.errors@[k].0.start as int),
{
    let mut tokens: Vec<(Token, Span)> = Vec::new();
    let mut errors: Vec<(Span, String)> = Vec::new();
    let mut i: usize = 0;
    proof {
        assert(token_spans(tokens@) =~= Seq::<(int, int)>::empty());
        assert(error_spans(errors@) =~= Seq::<(int, int)>::empty());
        assert(token_lexemes(src@, 0) =~= token_spans(tokens@) + token_lexemes(src@, 0));
        assert(error_lexemes(src@, 0) =~= error_spans(errors@) + error_lexemes(src@, 0));
    }
    while i < src.len()
        invariant
            i <= src@.len(),
            tokens_from(tokens@, src@),
            errors_within(errors@, src@),
            tokens@.len() > 0 ==> tokens@.last().1.end <= i,
            token_lexemes(src@, 0) == token_spans(tokens@) + token_lexemes(src@, i as int),
            error_lexemes(src@, 0) == error_spans(errors@) + error_lexemes(src@, i as int),
            forall|k: int| 0 <= k < tokens@.len() ==> token_from(src@, (#[trigger] tokens@[k]).0,
                tokens@[k].1.start as int, tokens@[k].1.end as int),
            forall|k: int| 0 <= k < errors@.len() ==> (#[trigger] errors@[k]).1@ == error_message(src@, errors@[k].0.start as int),
        decreases src@.len() - i,
    {
        let start = skip_padding(src, i);
        if start == src.len() {
            proof {
                assert(token_lexemes(src@, i as int) =~= Seq::<(int, int)>::empty());
                assert(error_lexemes(src@, i as int) =~= Seq::<(int, int)>::empty());
                assert(token_lexemes(src@, start as int) =~= Seq::<(int, int)>::empty());
                assert(error_lexemes(src@, start as int) =~= Seq::<(int, int)>::empty());
            }
            i = start;
        } else {
            let (result, next) = lex_at(src, start);
            let ghost before_tokens = tokens@;
            let ghost before_errors = errors@;
            proof {
                lemma_padding_end_bounds(src@, i as int);
            }
            match result {
                Ok((t, sp)) => {
                    proof { lemma_push_token(tokens@, src@, t, sp); }
                    tokens.push((t, sp));
                    proof {
                        assert(token_spans(tokens@) =~= token_spans(before_tokens).push((start as int, next as int)));
                        assert(token_lexemes(src@, i as int) == seq![(start as int, next as int)] + token_lexemes(src@, next as int));
                        assert(token_lexemes(src@, 0) =~= token_spans(tokens@) + token_lexemes(src@, next as int));
                        assert(error_lexemes(src@, i as int) == error_lexemes(src@, next as int));
                        assert forall|k: int| 0 <= k < tokens@.len() implies token_from(src@, (#[trigger] tokens@[k]).0,
                            tokens@[k].1.start as int, tokens@[k].1.end as int) by {
                            if k < before_tokens.len() {
                                assert(tokens@[k] == before_tokens[k]);
                            }
                        }
                    }
                }
                Err((sp, m)) => {
                    errors.push((sp, m));
                    proof {
                        assert forall|k: int| 0 <= k < errors@.len() implies {
                            let sp2 = (#[trigger] errors@[k]).0;
                            sp2.start <= sp2.end <= src@.len()
                        } by {
                            if k < before_errors.len() { assert(errors@[k] == before_errors[k]); }
                        }
                        assert(error_spans(errors@) =~= error_spans(before_errors).push((start as int, next as int)));
                        assert(error_lexemes(src@, i as int) == seq![(start as int, next as int)] + error_lexemes(src@, next as int));
                        assert(error_lexemes(src@, 0) =~= error_spans(errors@) + error_lexemes(src@, next as int));
                        assert(token_lexemes(src@, i as int) == token_lexemes(src@, next as int));
                        assert forall|k: int| 0 <= k < errors@.len() implies (#[trigger] errors@[k]).1@
                            == error_message(src@, errors@[k].0.start as int) by {
                            if k < before_errors.len() {
                                assert(errors@[k] == before_errors[k]);
                            }
                        }
                    }
                }
            }
            i = next;
        }
    }
    proof {
        assert(token_lexemes(src@, i as int) =~= Seq::<(int, int)>::empty());
        assert(error_lexemes(src@, i as int) =~= Seq::<(int, int)>::empty());
        assert(token_spans(tokens@) =~= token_lexemes(src@, 0));
        assert(error_spans(errors@) =~= error_lexemes(src@, 0));
    }
    Lexed { tokens, errors }
}

} // verus!

verus! {

/// `t` is `s` with some whitespace characters replaced by other whitespace
/// characters.
pub open spec fn whitespace_variant(s: Seq<char>, t: Seq<char>) -> bool {
    &&& s.len() == t.len()
    &&& forall|i: int| 0 <= i < s.len() ==> s[i] == t[i] || (is_ws(#[trigger] s[i]) && is_ws(t[i]))
}

/// A source without `//` comments.
pub open spec fn comment_free(s: Seq<char>) -> bool {
    forall|i: int| 0 <= i < s.len() - 1 ==> !(#[trigger] s[i] == '/' && s[i + 1] == '/')
}

proof fn lemma_ws_not_ident(c: char)
    requires
        is_ws(c),
    ensures
        !is_ident_char(c),
        !is_digit(c),
        c != '"',
        c != '.',
        c != '=',
{
}

proof fn lemma_ident_end_same(s: Seq<char>, t: Seq<char>, i: int)
    requires
        whitespace_variant(s, t),
        0 <= i <= s.len(),
    ensures
        ident_end(s, i) == ident_end(t, i),
        forall|k: int| i <= k < ident_end(s, i) ==> is_ident_char(#[trigger] s[k]),
    decreases s.len() - i,
{
    if i < s.len() {
        if s[i] != t[i] {
            lemma_ws_not_ident(s[i]);
            lemma_ws_not_ident(t[i]);
        } else if is_ident_char(s[i]) {
            lemma_ident_end_same(s, t, i + 1);
        }
    }
}

proof fn lemma_digit_end_same(s: Seq<char>, t: Seq<char>, i: int)
    requires
        whitespace_variant(s, t),
        0 <= i <= s.len(),
    ensures
        digit_end(s, i) == digit_end(t, i),
        forall|k: int| i <= k < digit_end(s, i) ==> is_digit(#[trigger] s[k]),
    decreases s.len() - i,
{
    if i < s.len() {
        if s[i] != t[i] {
            lemma_ws_not_ident(s[i]);
            lemma_ws_not_ident(t[i]);
        } else if is_digit(s[i]) {
            lemma_digit_end_same(s, t, i + 1);
        }
    }
}

proof fn lemma_quote_at_same(s: Seq<char>, t: Seq<char>, j: int)
    requires
        whitespace_variant(s, t),
        0 <= j <= s.len(),
    ensures
        quote_at(s, j) == quote_at(t, j),
    decreases s.len() - j,
{
    if j < s.len() {
        if s[j] != t[j] {
            lemma_ws_not_ident(s[j]);
            lemma_ws_not_ident(t[j]);
            lemma_quote_at_same(s, t, j + 1);
        } else if s[j] != '"' {
            lemma_quote_at_same(s, t, j + 1);
        }
    }
}

proof fn lemma_padding_end_same(s: Seq<char>, t: Seq<char>, i: int)
    requires
        whitespace_variant(s, t),
        comment_free(s),
        comment_free(t),
        0 <= i <= s.len(),
    ensures
        padding_end(s, i) == padding_end(t, i),
    decreases s.len() - i,
{
    if i < s.len() {
        if is_ws(s[i]) || is_ws(t[i]) {
            if s[i] != t[i] {
                assert(is_ws(s[i]) && is_ws(t[i]));
            }
            lemma_padding_end_same(s, t, i + 1);
        } else {
            assert(s[i] == t[i]);
            if i + 1 < s.len() {
                assert(!(s[i] == '/' && s[i + 1] == '/'));
                assert(!(t[i] == '/' && t[i + 1] == '/'));
            }
        }
    }
}

/// A stretch without whitespace reads the same in both.
proof fn lemma_same_stretch(s: Seq<char>, t: Seq<char>, a: int, b: int)
    requires
        whitespace_variant(s, t),
        0 <= a <= b <= s.len(),
        forall|k: int| a <= k < b ==> !is_ws(#[trigger] s[k]),
    ensures
        s.subrange(a, b) == t.subrange(a, b),
{
    assert forall|k: int| 0 <= k < b - a implies s.subrange(a, b)[k] == t.subrange(a, b)[k] by {
        assert(!is_ws(s[a + k]));
    }
    assert(s.subrange(a, b) =~= t.subrange(a, b));
}

/// A lexeme that starts on a non-whitespace character ends, succeeds and
/// fails alike in both.
proof fn lemma_lexeme_same(s: Seq<char>, t: Seq<char>, p: int)
    requires
        whitespace_variant(s, t),
        0 <= p < s.len(),
        !is_ws(s[p]),
    ensures
        lexeme_end(s, p) == lexeme_end(t, p),
        lexeme_ok(s, p) == lexeme_ok(t, p),
        error_message(s, p) == error_message(t, p),
{
    let c = s[p];
    assert(t[p] == c);
    if is_digit(c) {
        lemma_digit_end_same(s, t, p);
        let int_end = int_digits_end(s, p);
        assert(int_end == int_digits_end(t, p));
        lemma_digit_end_bounds(s, p);
        assert(p < int_end) by {
            if c != '0' {
                assert(digit_end(s, p) == digit_end(s, p + 1));
                lemma_digit_end_bounds(s, p + 1);
            }
        }
        let mid = number_digits_end(s, p);
        if int_end + 1 < s.len() && s[int_end] == '.' && is_digit(s[int_end + 1]) {
            assert(t[int_end] == '.') by {
                if s[int_end] != t[int_end] { lemma_ws_not_ident(s[int_end]); }
            }
            assert(is_digit(t[int_end + 1])) by {
                if s[int_end + 1] != t[int_end + 1] { lemma_ws_not_ident(s[int_end + 1]); }
            }
            lemma_digit_end_same(s, t, int_end + 1);
            lemma_digit_end_bounds(s, int_end + 1);
        } else if int_end + 1 < s.len() {
            if s[int_end] != t[int_end] {
                lemma_ws_not_ident(s[int_end]);
                lemma_ws_not_ident(t[int_end]);
            }
            if s[int_end + 1] != t[int_end + 1] {
                lemma_ws_not_ident(s[int_end + 1]);
                lemma_ws_not_ident(t[int_end + 1]);
            }
        }
        assert(mid == number_digits_end(t, p));
        lemma_ident_end_same(s, t, mid);
        lemma_ident_end_bounds(s, mid);
        let end = ident_end(s, mid);
        assert forall|k: int| p <= k < end implies !is_ws(#[trigger] s[k]) by {
            if k < int_end {
                if c == '0' {
                    assert(k == p);
                } else {
                    assert(is_digit(s[k]));
                }
            } else if k < mid {
                if k == int_end {
                    assert(s[k] == '.');
                } else {
                    assert(is_digit(s[k]));
                }
            } else {
                assert(is_ident_char(s[k]));
            }
        }
        lemma_same_stretch(s, t, p, mid);
        lemma_same_stretch(s, t, p, int_end);
        lemma_same_stretch(s, t, mid, end);
    } else if c == '"' {
        lemma_quote_at_same(s, t, p + 1);
    } else {
        if p + 1 < s.len() && s[p + 1] != t[p + 1] {
            lemma_ws_not_ident(s[p + 1]);
            lemma_ws_not_ident(t[p + 1]);
        }
        assert(op_len(s, p) == op_len(t, p));
        if !(op_len(s, p) > 0) && !(is_ctrl(c) || !is_ident_start(c)) {
            lemma_ident_end_same(s, t, p);
        }
    }
}

proof fn lemma_lexemes_same(s: Seq<char>, t: Seq<char>, i: int)
    requires
        whitespace_variant(s, t),
        comment_free(s),
        comment_free(t),
        0 <= i <= s.len(),
    ensures
        token_lexemes(s, i) == token_lexemes(t, i),
        error_lexemes(s, i) == error_lexemes(t, i),
    decreases s.len() - i,
{
    lemma_padding_end_same(s, t, i);
    lemma_padding_end_bounds(s, i);
    let p = padding_end(s, i);
    if p < s.len() {
        assert(!is_ws(s[p])) by {
            lemma_padding_stops(s, i);
        }
        lemma_lexeme_same(s, t, p);
        lemma_lexeme_end_bounds(s, p);
        lemma_lexemes_same(s, t, lexeme_end(s, p));
    }
}

proof fn lemma_padding_stops(s: Seq<char>, i: int)
    requires
        0 <= i <= s.len(),
        padding_end(s, i) < s.len(),
    ensures
        !is_ws(s[padding_end(s, i)]),
    decreases s.len() - i,
{
    if i < s.len() {
        if is_ws(s[i]) {
            lemma_padding_stops(s, i + 1);
        } else if i + 1 < s.len() && s[i] == '/' && s[i + 1] == '/' {
            lemma_line_end_bounds(s, i + 2);
            lemma_padding_stops(s, line_end(s, i + 2));
        }
    }
}

/// Whitespace only separates tokens: replacing whitespace characters by
/// other whitespace characters (a newline by a space, say) in a source
/// without comments leaves every token and every lexical error where it was.
pub proof fn law_whitespace_only_separates_tokens(s: Seq<char>, t: Seq<char>)
    requires
        whitespace_variant(s, t),
        comment_free(s),
        comment_free(t),
    ensures
        token_lexemes(s, 0) == token_lexemes(t, 0),
        error_lexemes(s, 0) == error_lexemes(t, 0),
{
    lemma_lexemes_same(s, t, 0);
}

/// A carriage return is whitespace like a space: a comment-free source
/// with CRLF line endings lexes to the tokens and errors, at the same
/// places, that it gives with each carriage return replaced by a space.
pub proof fn law_carriage_return_is_whitespace(s: Seq<char>)
    requires
        comment_free(s),
    ensures
        is_ws('\r'),
        token_lexemes(s, 0) == token_lexemes(s.map_values(|c: char| if c == '\r' { ' ' } else { c }), 0),
        error_lexemes(s, 0) == error_lexemes(s.map_values(|c: char| if c == '\r' { ' ' } else { c }), 0),
{
    let t = s.map_values(|c: char| if c == '\r' { ' ' } else { c });
    assert forall|i: int| 0 <= i < t.len() - 1 implies !(#[trigger] t[i] == '/' && t[i + 1] == '/') by {
        assert(t[i] == (if s[i] == '\r' { ' ' } else { s[i] }));
        assert(t[i + 1] == (if s[i + 1] == '\r' { ' ' } else { s[i + 1] }));
    }
    assert forall|i: int| 0 <= i < s.len() implies s[i] == t[i] || (is_ws(#[trigger] s[i]) && is_ws(t[i])) by {
        assert(t[i] == (if s[i] == '\r' { ' ' } else { s[i] }));
    }
    law_whitespace_only_separates_tokens(s, t);
}



/// Each reserved word lexes as its own keyword token (`while` as `while`,
/// `UInt8` as the `UInt8` type name, `nil` and `null` both as `nil`), and no
/// other word is reserved.
pub proof fn law_keyword_words(s: Seq<char>)
    ensures
        keyword("fun"@) == Some(Token::Fun),
        keyword("extern"@) == Some(Token::Extern),
        keyword("rust"@) == Some(Token::Rust),
        keyword("let"@) == Some(Token::Let),
        keyword("mut"@) == Some(Token::Mut),
        keyword("type"@) == Some(Token::Type),
        keyword("is"@) == Some(Token::Is),
        keyword("struct"@) == Some(Token::Struct),
        keyword("union"@) == Some(Token::Union),
        keyword("method"@) == Some(Token::Method),
        keyword("self"@) == Some(Token::SelfKw),
        keyword("Ref"@) == Some(Token::Ref),
        keyword("Box"@) == Some(Token::TyBox),
        keyword("box"@) == Some(Token::BoxKw),
        keyword("print"@) == Some(Token::Print),
        keyword("if"@) == Some(Token::If),
        keyword("then"@) == Some(Token::Then),
        keyword("Dec64"@) == Some(Token::TyDec64),
        keyword("Int64"@) == Some(Token::TyInt64),
        keyword("Bool"@) == Some(Token::TyBool),
        keyword("Nil"@) == Some(Token::TyNil),
        keyword("UInt8"@) == Some(Token::TyUInt8),
        keyword("UInt16"@) == Some(Token::TyUInt16),
        keyword("UInt32"@) == Some(Token::TyUInt32),
        keyword("UInt64"@) == Some(Token::TyUInt64),
        keyword("Float32"@) == Some(Token::TyFloat32),
        keyword("nil"@) == Some(Token::Nil),
        keyword("null"@) == Some(Token::Nil),
        keyword("while"@) == Some(Token::While),
        keyword("do"@) == Some(Token::Do),
        keyword("elseif"@) == Some(Token::ElseIf),
        keyword("else"@) == Some(Token::Else),
        keyword("end"@) == Some(Token::End),
        keyword("break"@) == Some(Token::Break),
        keyword("true"@) == Some(Token::Bool(true)),
        keyword("false"@) == Some(Token::Bool(false)),
        keyword(s) is Some ==> (s == "fun"@ || s == "extern"@ || s == "rust"@ || s == "let"@ || s == "mut"@ || s == "type"@ || s == "is"@ || s == "struct"@ || s == "union"@ || s == "method"@ || s == "self"@ || s == "Ref"@ || s == "Box"@ || s == "box"@ || s == "print"@ || s == "if"@ || s == "then"@ || s == "Dec64"@ || s == "Int64"@ || s == "Bool"@ || s == "Nil"@ || s == "UInt8"@ || s == "UInt16"@ || s == "UInt32"@ || s == "UInt64"@ || s == "Float32"@ || s == "nil"@ || s == "null"@ || s == "while"@ || s == "do"@ || s == "elseif"@ || s == "else"@ || s == "end"@ || s == "break"@ || s == "true"@ || s == "false"@),
{
    assert(keyword("fun"@) == Some(Token::Fun)) by { reveal_strlit("fun");  }
    assert(keyword("extern"@) == Some(Token::Extern)) by { reveal_strlit("extern"); reveal_strlit("fun"); assert("fun"@.len() != "extern"@.len()); }
    assert(keyword("rust"@) == Some(Token::Rust)) by { reveal_strlit("rust"); reveal_strlit("fun"); assert("fun"@.len() != "rust"@.len()); reveal_strlit("extern"); assert("extern"@.len() != "rust"@.len()); }
    assert(keyword("let"@) == Some(Token::Let)) by { reveal_strlit("let"); reveal_strlit("fun"); assert("fun"@[0] != "let"@[0]); reveal_strlit("extern"); assert("extern"@.len() != "let"@.len()); reveal_strlit("rust"); assert("rust"@.len() != "let"@.len()); }
    assert(keyword("mut"@) == Some(Token::Mut)) by { reveal_strlit("mut"); reveal_strlit("fun"); assert("fun"@[0] != "mut"@[0]); reveal_strlit("extern"); assert("extern"@.len() != "mut"@.len()); reveal_strlit("rust"); assert("rust"@.len() != "mut"@.len()); reveal_strlit("let"); assert("let"@[0] != "mut"@[0]); }
    assert(keyword("type"@) == Some(Token::Type)) by { reveal_strlit("type"); reveal_strlit("fun"); assert("fun"@.len() != "type"@.len()); reveal_strlit("extern"); assert("extern"@.len() != "type"@.len()); reveal_strlit("rust"); assert("rust"@[0] != "type"@[0]); reveal_strlit("let"); assert("let"@.len() != "type"@.len()); reveal_strlit("mut"); assert("mut"@.len() != "type"@.len()); }
    assert(keyword("is"@) == Some(Token::Is)) by { reveal_strlit("is"); reveal_strlit("fun"); assert("fun"@.len() != "is"@.len()); reveal_strlit("extern"); assert("extern"@.len() != "is"@.len()); reveal_strlit("rust"); assert("rust"@.len() != "is"@.len()); reveal_strlit("let"); assert("let"@.len() != "is"@.len()); reveal_strlit("mut"); assert("mut"@.len() != "is"@.len()); reveal_strlit("type"); assert("type"@.len() != "is"@.len()); }
    assert(keyword("struct"@) == Some(Token::Struct)) by { reveal_strlit("struct"); reveal_strlit("fun"); assert("fun"@.len() != "struct"@.len()); reveal_strlit("extern"); assert("extern"@[0] != "struct"@[0]); reveal_strlit("rust"); assert("rust"@.len() != "struct"@.len()); reveal_strlit("let"); assert("let"@.len() != "struct"@.len()); reveal_strlit("mut"); assert("mut"@.len() != "struct"@.len()); reveal_strlit("type"); assert("type"@.len() != "struct"@.len()); reveal_strlit("is"); assert("is"@.len() != "struct"@.len()); }
    assert(keyword("union"@) == Some(Token::Union)) by { reveal_strlit("union"); reveal_strlit("fun"); assert("fun"@.len() != "union"@.len()); reveal_strlit("extern"); assert("extern"@.len() != "union"@.len()); reveal_strlit("rust"); assert("rust"@.len() != "union"@.len()); reveal_strlit("let"); assert("let"@.len() != "union"@.len()); reveal_strlit("mut"); assert("mut"@.len() != "union"@.len()); reveal_strlit("type"); assert("type"@.len() != "union"@.len()); reveal_strlit("is"); assert("is"@.len() != "union"@.len()); reveal_strlit("struct"); assert("struct"@.len() != "union"@.len()); }
    assert(keyword("method"@) == Some(Token::Method)) by { reveal_strlit("method"); reveal_strlit("fun"); assert("fun"@.len() != "method"@.len()); reveal_strlit("extern"); assert("extern"@[0] != "method"@[0]); reveal_strlit("rust"); assert("rust"@.len() != "method"@.len()); reveal_strlit("let"); assert("let"@.len() != "method"@.len()); reveal_strlit("mut"); assert("mut"@.len() != "method"@.len()); reveal_strlit("type"); assert("type"@.len() != "method"@.len()); reveal_strlit("is"); assert("is"@.len() != "method"@.len()); reveal_strlit("struct"); assert("struct"@[0] != "method"@[0]); reveal_strlit("union"); assert("union"@.len() != "method"@.len()); }
    assert(keyword("self"@) == Some(Token::SelfKw)) by { reveal_strlit("self"); reveal_strlit("fun"); assert("fun"@.len() != "self"@.len()); reveal_strlit("extern"); assert("extern"@.len() != "self"@.len()); reveal_strlit("rust"); assert("rust"@[0] != "self"@[0]); reveal_strlit("let"); assert("let"@.len() != "self"@.len()); reveal_strlit("mut"); assert("mut"@.len() != "self"@.len()); reveal_strlit("type"); assert("type"@[0] != "self"@[0]); reveal_strlit("is"); assert("is"@.len() != "self"@.len()); reveal_strlit("struct"); assert("struct"@.len() != "self"@.len()); reveal_strlit("union"); assert("union"@.len() != "self"@.len()); reveal_strlit("method"); assert("method"@.len() != "self"@.len()); }
    assert(keyword("Ref"@) == Some(Token::Ref)) by { reveal_strlit("Ref"); reveal_strlit("fun"); assert("fun"@[0] != "Ref"@[0]); reveal_strlit("extern"); assert("extern"@.len() != "Ref"@.len()); reveal_strlit("rust"); assert("rust"@.len() != "Ref"@.len()); reveal_strlit("let"); assert("let"@[0] != "Ref"@[0]); reveal_strlit("mut"); assert("mut"@[0] != "Ref"@[0]); reveal_strlit("type"); assert("type"@.len() != "Ref"@.len()); reveal_strlit("is"); assert("is"@.len() != "Ref"@.len()); reveal_strlit("struct"); assert("struct"@.len() != "Ref"@.len()); reveal_strlit("union"); assert("union"@.len() != "Ref"@.len()); reveal_strlit("method"); assert("method"@.len() != "Ref"@.len()); reveal_strlit("self"); assert("self"@.len() != "Ref"@.len()); }
    assert(keyword("Box"@) == Some(Token::TyBox)) by { reveal_strlit("Box"); reveal_strlit("fun"); assert("fun"@[0] != "Box"@[0]); reveal_strlit("extern"); assert("extern"@.len() != "Box"@.len()); reveal_strlit("rust"); assert("rust"@.len() != "Box"@.len()); reveal_strlit("let"); assert("let"@[0] != "Box"@[0]); reveal_strlit("mut"); assert("mut"@[0] != "Box"@[0]); reveal_strlit("type"); assert("type"@.len() != "Box"@.len()); reveal_strlit("is"); assert("is"@.len() != "Box"@.len()); reveal_strlit("struct"); assert("struct"@.len() != "Box"@.len()); reveal_strlit("union"); assert("union"@.len() != "Box"@.len()); reveal_strlit("method"); assert("method"@.len() != "Box"@.len()); reveal_strlit("self"); assert("self"@.len() != "Box"@.len()); reveal_strlit("Ref"); assert("Ref"@[0] != "Box"@[0]); }
    assert(keyword("box"@) == Some(Token::BoxKw)) by { reveal_strlit("box"); reveal_strlit("fun"); assert("fun"@[0] != "box"@[0]); reveal_strlit("extern"); assert("extern"@.len() != "box"@.len()); reveal_strlit("rust"); assert("rust"@.len() != "box"@.len()); reveal_strlit("let"); assert("let"@[0] != "box"@[0]); reveal_strlit("mut"); assert("mut"@[0] != "box"@[0]); reveal_strlit("type"); assert("type"@.len() != "box"@.len()); reveal_strlit("is"); assert("is"@.len() != "box"@.len()); reveal_strlit("struct"); assert("struct"@.len() != "box"@.len()); reveal_strlit("union"); assert("union"@.len() != "box"@.len()); reveal_strlit("method"); assert("method"@.len() != "box"@.len()); reveal_strlit("self"); assert("self"@.len() != "box"@.len()); reveal_strlit("Ref"); assert("Ref"@[0] != "box"@[0]); reveal_strlit("Box"); assert("Box"@[0] != "box"@[0]); }
    assert(keyword("print"@) == Some(Token::Print)) by { reveal_strlit("print"); reveal_strlit("fun"); assert("fun"@.len() != "print"@.len()); reveal_strlit("extern"); assert("extern"@.len() != "print"@.len()); reveal_strlit("rust"); assert("rust"@.len() != "print"@.len()); reveal_strlit("let"); assert("let"@.len() != "print"@.len()); reveal_strlit("mut"); assert("mut"@.len() != "print"@.len()); reveal_strlit("type"); assert("type"@.len() != "print"@.len()); reveal_strlit("is"); assert("is"@.len() != "print"@.len()); reveal_strlit("struct"); assert("struct"@.len() != "print"@.len()); reveal_strlit("union"); assert("union"@[0] != "print"@[0]); reveal_strlit("method"); assert("method"@.len() != "print"@.len()); reveal_strlit("self"); assert("self"@.len() != "print"@.len()); reveal_strlit("Ref"); assert("Ref"@.len() != "print"@.len()); reveal_strlit("Box"); assert("Box"@.len() != "print"@.len()); reveal_strlit("box"); assert("box"@.len() != "print"@.len()); }
    assert(keyword("if"@) == Some(Token::If)) by { reveal_strlit("if"); reveal_strlit("fun"); assert("fun"@.len() != "if"@.len()); reveal_strlit("extern"); assert("extern"@.len() != "if"@.len()); reveal_strlit("rust"); assert("rust"@.len() != "if"@.len()); reveal_strlit("let"); assert("let"@.len() != "if"@.len()); reveal_strlit("mut"); assert("mut"@.len() != "if"@.len()); reveal_strlit("type"); assert("type"@.len() != "if"@.len()); reveal_strlit("is"); assert("is"@[1] != "if"@[1]); reveal_strlit("struct"); assert("struct"@.len() != "if"@.len()); reveal_strlit("union"); assert("union"@.len() != "if"@.len()); reveal_strlit("method"); assert("method"@.len() != "if"@.len()); reveal_strlit("self"); assert("self"@.len() != "if"@.len()); reveal_strlit("Ref"); assert("Ref"@.len() != "if"@.len()); reveal_strlit("Box"); assert("Box"@.len() != "if"@.len()); reveal_strlit("box"); assert("box"@.len() != "if"@.len()); reveal_strlit("print"); assert("print"@.len() != "if"@.len()); }
    assert(keyword("then"@) == Some(Token::Then)) by { reveal_strlit("then"); reveal_strlit("fun"); assert("fun"@.len() != "then"@.len()); reveal_strlit("extern"); assert("extern"@.len() != "then"@.len()); reveal_strlit("rust"); assert("rust"@[0] != "then"@[0]); reveal_strlit("let"); assert("let"@.len() != "then"@.len()); reveal_strlit("mut"); assert("mut"@.len() != "then"@.len()); reveal_strlit("type"); assert("type"@[1] != "then"@[1]); reveal_strlit("is"); assert("is"@.len() != "then"@.len()); reveal_strlit("struct"); assert("struct"@.len() != "then"@.len()); reveal_strlit("union"); assert("union"@.len() != "then"@.len()); reveal_strlit("method"); assert("method"@.len() != "then"@.len()); reveal_strlit("self"); assert("self"@[0] != "then"@[0]); reveal_strlit("Ref"); assert("Ref"@.len() != "then"@.len()); reveal_strlit("Box"); assert("Box"@.len() != "then"@.len()); reveal_strlit("box"); assert("box"@.len() != "then"@.len()); reveal_strlit("print"); assert("print"@.len() != "then"@.len()); reveal_strlit("if"); assert("if"@.len() != "then"@.len()); }
    assert(keyword("Dec64"@) == Some(Token::TyDec64)) by { reveal_strlit("Dec64"); reveal_strlit("fun"); assert("fun"@.len() != "Dec64"@.len()); reveal_strlit("extern"); assert("extern"@.len() != "Dec64"@.len()); reveal_strlit("rust"); assert("rust"@.len() != "Dec64"@.len()); reveal_strlit("let"); assert("let"@.len() != "Dec64"@.len()); reveal_strlit("mut"); assert("mut"@.len() != "Dec64"@.len()); reveal_strlit("type"); assert("type"@.len() != "Dec64"@.len()); reveal_strlit("is"); assert("is"@.len() != "Dec64"@.len()); reveal_strlit("struct"); assert("struct"@.len() != "Dec64"@.len()); reveal_strlit("union"); assert("union"@[0] != "Dec64"@[0]); reveal_strlit("method"); assert("method"@.len() != "Dec64"@.len()); reveal_strlit("self"); assert("self"@.len() != "Dec64"@.len()); reveal_strlit("Ref"); assert("Ref"@.len() != "Dec64"@.len()); reveal_strlit("Box"); assert("Box"@.len() != "Dec64"@.len()); reveal_strlit("box"); assert("box"@.len() != "Dec64"@.len()); reveal_strlit("print"); assert("print"@[0] != "Dec64"@[0]); reveal_strlit("if"); assert("if"@.len() != "Dec64"@.len()); reveal_strlit("then"); assert("then"@.len() != "Dec64"@.len()); }
    assert(keyword("Int64"@) == Some(Token::TyInt64)) by { reveal_strlit("Int64"); reveal_strlit("fun"); assert("fun"@.len() != "Int64"@.len()); reveal_strlit("extern"); assert("extern"@.len() != "Int64"@.len()); reveal_strlit("rust"); assert("rust"@.len() != "Int64"@.len()); reveal_strlit("let"); assert("let"@.len() != "Int64"@.len()); reveal_strlit("mut"); assert("mut"@.len() != "Int64"@.len()); reveal_strlit("type"); assert("type"@.len() != "Int64"@.len()); reveal_strlit("is"); assert("is"@.len() != "Int64"@.len()); reveal_strlit("struct"); assert("struct"@.len() != "Int64"@.len()); reveal_strlit("union"); assert("union"@[0] != "Int64"@[0]); reveal_strlit("method"); assert("method"@.len() != "Int64"@.len()); reveal_strlit("self"); assert("self"@.len() != "Int64"@.len()); reveal_strlit("Ref"); assert("Ref"@.len() != "Int64"@.len()); reveal_strlit("Box"); assert("Box"@.len() != "Int64"@.len()); reveal_strlit("box"); assert("box"@.len() != "Int64"@.len()); reveal_strlit("print"); assert("print"@[0] != "Int64"@[0]); reveal_strlit("if"); assert("if"@.len() != "Int64"@.len()); reveal_strlit("then"); assert("then"@.len() != "Int64"@.len()); reveal_strlit("Dec64"); assert("Dec64"@[0] != "Int64"@[0]); }
    assert(keyword("Bool"@) == Some(Token::TyBool)) by { reveal_strlit("Bool"); reveal_strlit("fun"); assert("fun"@.len() != "Bool"@.len()); reveal_strlit("extern"); assert("extern"@.len() != "Bool"@.len()); reveal_strlit("rust"); assert("rust"@[0] != "Bool"@[0]); reveal_strlit("let"); assert("let"@.len() != "Bool"@.len()); reveal_strlit("mut"); assert("mut"@.len() != "Bool"@.len()); reveal_strlit("type"); assert("type"@[0] != "Bool"@[0]); reveal_strlit("is"); assert("is"@.len() != "Bool"@.len()); reveal_strlit("struct"); assert("struct"@.len() != "Bool"@.len()); reveal_strlit("union"); assert("union"@.len() != "Bool"@.len()); reveal_strlit("method"); assert("method"@.len() != "Bool"@.len()); reveal_strlit("self"); assert("self"@[0] != "Bool"@[0]); reveal_strlit("Ref"); assert("Ref"@.len() != "Bool"@.len()); reveal_strlit("Box"); assert("Box"@.len() != "Bool"@.len()); reveal_strlit("box"); assert("box"@.len() != "Bool"@.len()); reveal_strlit("print"); assert("print"@.len() != "Bool"@.len()); reveal_strlit("if"); assert("if"@.len() != "Bool"@.len()); reveal_strlit("then"); assert("then"@[0] != "Bool"@[0]); reveal_strlit("Dec64"); assert("Dec64"@.len() != "Bool"@.len()); reveal_strlit("Int64"); assert("Int64"@.len() != "Bool"@.len()); }
    assert(keyword("Nil"@) == Some(Token::TyNil)) by { reveal_strlit("Nil"); reveal_strlit("fun"); assert("fun"@[0] != "Nil"@[0]); reveal_strlit("extern"); assert("extern"@.len() != "Nil"@.len()); reveal_strlit("rust"); assert("rust"@.len() != "Nil"@.len()); reveal_strlit("let"); assert("let"@[0] != "Nil"@[0]); reveal_strlit("mut"); assert("mut"@[0] != "Nil"@[0]); reveal_strlit("type"); assert("type"@.len() != "Nil"@.len()); reveal_strlit("is"); assert("is"@.len() != "Nil"@.len()); reveal_strlit("struct"); assert("struct"@.len() != "Nil"@.len()); reveal_strlit("union"); assert("union"@.len() != "Nil"@.len()); reveal_strlit("method"); assert("method"@.len() != "Nil"@.len()); reveal_strlit("self"); assert("self"@.len() != "Nil"@.len()); reveal_strlit("Ref"); assert("Ref"@[0] != "Nil"@[0]); reveal_strlit("Box"); assert("Box"@[0] != "Nil"@[0]); reveal_strlit("box"); assert("box"@[0] != "Nil"@[0]); reveal_strlit("print"); assert("print"@.len() != "Nil"@.len()); reveal_strlit("if"); assert("if"@.len() != "Nil"@.len()); reveal_strlit("then"); assert("then"@.len() != "Nil"@.len()); reveal_strlit("Dec64"); assert("Dec64"@.len() != "Nil"@.len()); reveal_strlit("Int64"); assert("Int64"@.len() != "Nil"@.len()); reveal_strlit("Bool"); assert("Bool"@.len() != "Nil"@.len()); }
    assert(keyword("UInt8"@) == Some(Token::TyUInt8)) by { reveal_strlit("UInt8"); reveal_strlit("fun"); assert("fun"@.len() != "UInt8"@.len()); reveal_strlit("extern"); assert("extern"@.len() != "UInt8"@.len()); reveal_strlit("rust"); assert("rust"@.len() != "UInt8"@.len()); reveal_strlit("let"); assert("let"@.len() != "UInt8"@.len()); reveal_strlit("mut"); assert("mut"@.len() != "UInt8"@.len()); reveal_strlit("type"); assert("type"@.len() != "UInt8"@.len()); reveal_strlit("is"); assert("is"@.len() != "UInt8"@.len()); reveal_strlit("struct"); assert("struct"@.len() != "UInt8"@.len()); reveal_strlit("union"); assert("union"@[0] != "UInt8"@[0]); reveal_strlit("method"); assert("method"@.len() != "UInt8"@.len()); reveal_strlit("self"); assert("self"@.len() != "UInt8"@.len()); reveal_strlit("Ref"); assert("Ref"@.len() != "UInt8"@.len()); reveal_strlit("Box"); assert("Box"@.len() != "UInt8"@.len()); reveal_strlit("box"); assert("box"@.len() != "UInt8"@.len()); reveal_strlit("print"); assert("print"@[0] != "UInt8"@[0]); reveal_strlit("if"); assert("if"@.len() != "UInt8"@.len()); reveal_strlit("then"); assert("then"@.len() != "UInt8"@.len()); reveal_strlit("Dec64"); assert("Dec64"@[0] != "UInt8"@[0]); reveal_strlit("Int64"); assert("Int64"@[0] != "UInt8"@[0]); reveal_strlit("Bool"); assert("Bool"@.len() != "UInt8"@.len()); reveal_strlit("Nil"); assert("Nil"@.len() != "UInt8"@.len()); }
    assert(keyword("UInt16"@) == Some(Token::TyUInt16)) by { reveal_strlit("UInt16"); reveal_strlit("fun"); assert("fun"@.len() != "UInt16"@.len()); reveal_strlit("extern"); assert("extern"@[0] != "UInt16"@[0]); reveal_strlit("rust"); assert("rust"@.len() != "UInt16"@.len()); reveal_strlit("let"); assert("let"@.len() != "UInt16"@.len()); reveal_strlit("mut"); assert("mut"@.len() != "UInt16"@.len()); reveal_strlit("type"); assert("type"@.len() != "UInt16"@.len()); reveal_strlit("is"); assert("is"@.len() != "UInt16"@.len()); reveal_strlit("struct"); assert("struct"@[0] != "UInt16"@[0]); reveal_strlit("union"); assert("union"@.len() != "UInt16"@.len()); reveal_strlit("method"); assert("method"@[0] != "UInt16"@[0]); reveal_strlit("self"); assert("self"@.len() != "UInt16"@.len()); reveal_strlit("Ref"); assert("Ref"@.len() != "UInt16"@.len()); reveal_strlit("Box"); assert("Box"@.len() != "UInt16"@.len()); reveal_strlit("box"); assert("box"@.len() != "UInt16"@.len()); reveal_strlit("print"); assert("print"@.len() != "UInt16"@.len()); reveal_strlit("if"); assert("if"@.len() != "UInt16"@.len()); reveal_strlit("then"); assert("then"@.len() != "UInt16"@.len()); reveal_strlit("Dec64"); assert("Dec64"@.len() != "UInt16"@.len()); reveal_strlit("Int64"); assert("Int64"@.len() != "UInt16"@.len()); reveal_strlit("Bool"); assert("Bool"@.len() != "UInt16"@.len()); reveal_strlit("Nil"); assert("Nil"@.len() != "UInt16"@.len()); reveal_strlit("UInt8"); assert("UInt8"@.len() != "UInt16"@.len()); }
    assert(keyword("UInt32"@) == Some(Token::TyUInt32)) by { reveal_strlit("UInt32"); reveal_strlit("fun"); assert("fun"@.len() != "UInt32"@.len()); reveal_strlit("extern"); assert("extern"@[0] != "UInt32"@[0]); reveal_strlit("rust"); assert("rust"@.len() != "UInt32"@.len()); reveal_strlit("let"); assert("let"@.len() != "UInt32"@.len()); reveal_strlit("mut"); assert("mut"@.len() != "UInt32"@.len()); reveal_strlit("type"); assert("type"@.len() != "UInt32"@.len()); reveal_strlit("is"); assert("is"@.len() != "UInt32"@.len()); reveal_strlit("struct"); assert("struct"@[0] != "UInt32"@[0]); reveal_strlit("union"); assert("union"@.len() != "UInt32"@.len()); reveal_strlit("method"); assert("method"@[0] != "UInt32"@[0]); reveal_strlit("self"); assert("self"@.len() != "UInt32"@.len()); reveal_strlit("Ref"); assert("Ref"@.len() != "UInt32"@.len()); reveal_strlit("Box"); assert("Box"@.len() != "UInt32"@.len()); reveal_strlit("box"); assert("box"@.len() != "UInt32"@.len()); reveal_strlit("print"); assert("print"@.len() != "UInt32"@.len()); reveal_strlit("if"); assert("if"@.len() != "UInt32"@.len()); reveal_strlit("then"); assert("then"@.len() != "UInt32"@.len()); reveal_strlit("Dec64"); assert("Dec64"@.len() != "UInt32"@.len()); reveal_strlit("Int64"); assert("Int64"@.len() != "UInt32"@.len()); reveal_strlit("Bool"); assert("Bool"@.len() != "UInt32"@.len()); reveal_strlit("Nil"); assert("Nil"@.len() != "UInt32"@.len()); reveal_strlit("UInt8"); assert("UInt8"@.len() != "UInt32"@.len()); reveal_strlit("UInt16"); assert("UInt16"@[4] != "UInt32"@[4]); }
    assert(keyword("UInt64"@) == Some(Token::TyUInt64)) by { reveal_strlit("UInt64"); reveal_strlit("fun"); assert("fun"@.len() != "UInt64"@.len()); reveal_strlit("extern"); assert("extern"@[0] != "UInt64"@[0]); reveal_strlit("rust"); assert("rust"@.len() != "UInt64"@.len()); reveal_strlit("let"); assert("let"@.len() != "UInt64"@.len()); reveal_strlit("mut"); assert("mut"@.len() != "UInt64"@.len()); reveal_strlit("type"); assert("type"@.len() != "UInt64"@.len()); reveal_strlit("is"); assert("is"@.len() != "UInt64"@.len()); reveal_strlit("struct"); assert("struct"@[0] != "UInt64"@[0]); reveal_strlit("union"); assert("union"@.len() != "UInt64"@.len()); reveal_strlit("method"); assert("method"@[0] != "UInt64"@[0]); reveal_strlit("self"); assert("self"@.len() != "UInt64"@.len()); reveal_strlit("Ref"); assert("Ref"@.len() != "UInt64"@.len()); reveal_strlit("Box"); assert("Box"@.len() != "UInt64"@.len()); reveal_strlit("box"); assert("box"@.len() != "UInt64"@.len()); reveal_strlit("print"); assert("print"@.len() != "UInt64"@.len()); reveal_strlit("if"); assert("if"@.len() != "UInt64"@.len()); reveal_strlit("then"); assert("then"@.len() != "UInt64"@.len()); reveal_strlit("Dec64"); assert("Dec64"@.len() != "UInt64"@.len()); reveal_strlit("Int64"); assert("Int64"@.len() != "UInt64"@.len()); reveal_strlit("Bool"); assert("Bool"@.len() != "UInt64"@.len()); reveal_strlit("Nil"); assert("Nil"@.len() != "UInt64"@.len()); reveal_strlit("UInt8"); assert("UInt8"@.len() != "UInt64"@.len()); reveal_strlit("UInt16"); assert("UInt16"@[4] != "UInt64"@[4]); reveal_strlit("UInt32"); assert("UInt32"@[4] != "UInt64"@[4]); }
    assert(keyword("Float32"@) == Some(Token::TyFloat32)) by { reveal_strlit("Float32"); reveal_strlit("fun"); assert("fun"@.len() != "Float32"@.len()); reveal_strlit("extern"); assert("extern"@.len() != "Float32"@.len()); reveal_strlit("rust"); assert("rust"@.len() != "Float32"@.len()); reveal_strlit("let"); assert("let"@.len() != "Float32"@.len()); reveal_strlit("mut"); assert("mut"@.len() != "Float32"@.len()); reveal_strlit("type"); assert("type"@.len() != "Float32"@.len()); reveal_strlit("is"); assert("is"@.len() != "Float32"@.len()); reveal_strlit("struct"); assert("struct"@.len() != "Float32"@.len()); reveal_strlit("union"); assert("union"@.len() != "Float32"@.len()); reveal_strlit("method"); assert("method"@.len() != "Float32"@.len()); reveal_strlit("self"); assert("self"@.len() != "Float32"@.len()); reveal_strlit("Ref"); assert("Ref"@.len() != "Float32"@.len()); reveal_strlit("Box"); assert("Box"@.len() != "Float32"@.len()); reveal_strlit("box"); assert("box"@.len() != "Float32"@.len()); reveal_strlit("print"); assert("print"@.len() != "Float32"@.len()); reveal_strlit("if"); assert("if"@.len() != "Float32"@.len()); reveal_strlit("then"); assert("then"@.len() != "Float32"@.len()); reveal_strlit("Dec64"); assert("Dec64"@.len() != "Float32"@.len()); reveal_strlit("Int64"); assert("Int64"@.len() != "Float32"@.len()); reveal_strlit("Bool"); assert("Bool"@.len() != "Float32"@.len()); reveal_strlit("Nil"); assert("Nil"@.len() != "Float32"@.len()); reveal_strlit("UInt8"); assert("UInt8"@.len() != "Float32"@.len()); reveal_strlit("UInt16"); assert("UInt16"@.len() != "Float32"@.len()); reveal_strlit("UInt32"); assert("UInt32"@.len() != "Float32"@.len()); reveal_strlit("UInt64"); assert("UInt64"@.len() != "Float32"@.len()); }
    assert(keyword("nil"@) == Some(Token::Nil)) by { reveal_strlit("nil"); reveal_strlit("fun"); assert("fun"@[0] != "nil"@[0]); reveal_strlit("extern"); assert("extern"@.len() != "nil"@.len()); reveal_strlit("rust"); assert("rust"@.len() != "nil"@.len()); reveal_strlit("let"); assert("let"@[0] != "nil"@[0]); reveal_strlit("mut"); assert("mut"@[0] != "nil"@[0]); reveal_strlit("type"); assert("type"@.len() != "nil"@.len()); reveal_strlit("is"); assert("is"@.len() != "nil"@.len()); reveal_strlit("struct"); assert("struct"@.len() != "nil"@.len()); reveal_strlit("union"); assert("union"@.len() != "nil"@.len()); reveal_strlit("method"); assert("method"@.len() != "nil"@.len()); reveal_strlit("self"); assert("self"@.len() != "nil"@.len()); reveal_strlit("Ref"); assert("Ref"@[0] != "nil"@[0]); reveal_strlit("Box"); assert("Box"@[0] != "nil"@[0]); reveal_strlit("box"); assert("box"@[0] != "nil"@[0]); reveal_strlit("print"); assert("print"@.len() != "nil"@.len()); reveal_strlit("if"); assert("if"@.len() != "nil"@.len()); reveal_strlit("then"); assert("then"@.len() != "nil"@.len()); reveal_strlit("Dec64"); assert("Dec64"@.len() != "nil"@.len()); reveal_strlit("Int64"); assert("Int64"@.len() != "nil"@.len()); reveal_strlit("Bool"); assert("Bool"@.len() != "nil"@.len()); reveal_strlit("Nil"); assert("Nil"@[0] != "nil"@[0]); reveal_strlit("UInt8"); assert("UInt8"@.len() != "nil"@.len()); reveal_strlit("UInt16"); assert("UInt16"@.len() != "nil"@.len()); reveal_strlit("UInt32"); assert("UInt32"@.len() != "nil"@.len()); reveal_strlit("UInt64"); assert("UInt64"@.len() != "nil"@.len()); reveal_strlit("Float32"); assert("Float32"@.len() != "nil"@.len()); }
    assert(keyword("null"@) == Some(Token::Nil)) by { reveal_strlit("null"); reveal_strlit("fun"); assert("fun"@.len() != "null"@.len()); reveal_strlit("extern"); assert("extern"@.len() != "null"@.len()); reveal_strlit("rust"); assert("rust"@[0] != "null"@[0]); reveal_strlit("let"); assert("let"@.len() != "null"@.len()); reveal_strlit("mut"); assert("mut"@.len() != "null"@.len()); reveal_strlit("type"); assert("type"@[0] != "null"@[0]); reveal_strlit("is"); assert("is"@.len() != "null"@.len()); reveal_strlit("struct"); assert("struct"@.len() != "null"@.len()); reveal_strlit("union"); assert("union"@.len() != "null"@.len()); reveal_strlit("method"); assert("method"@.len() != "null"@.len()); reveal_strlit("self"); assert("self"@[0] != "null"@[0]); reveal_strlit("Ref"); assert("Ref"@.len() != "null"@.len()); reveal_strlit("Box"); assert("Box"@.len() != "null"@.len()); reveal_strlit("box"); assert("box"@.len() != "null"@.len()); reveal_strlit("print"); assert("print"@.len() != "null"@.len()); reveal_strlit("if"); assert("if"@.len() != "null"@.len()); reveal_strlit("then"); assert("then"@[0] != "null"@[0]); reveal_strlit("Dec64"); assert("Dec64"@.len() != "null"@.len()); reveal_strlit("Int64"); assert("Int64"@.len() != "null"@.len()); reveal_strlit("Bool"); assert("Bool"@[0] != "null"@[0]); reveal_strlit("Nil"); assert("Nil"@.len() != "null"@.len()); reveal_strlit("UInt8"); assert("UInt8"@.len() != "null"@.len()); reveal_strlit("UInt16"); assert("UInt16"@.len() != "null"@.len()); reveal_strlit("UInt32"); assert("UInt32"@.len() != "null"@.len()); reveal_strlit("UInt64"); assert("UInt64"@.len() != "null"@.len()); reveal_strlit("Float32"); assert("Float32"@.len() != "null"@.len()); reveal_strlit("nil"); assert("nil"@.len() != "null"@.len()); }
    assert(keyword("while"@) == Some(Token::While)) by { reveal_strlit("while"); reveal_strlit("fun"); assert("fun"@.len() != "while"@.len()); reveal_strlit("extern"); assert("extern"@.len() != "while"@.len()); reveal_strlit("rust"); assert("rust"@.len() != "while"@.len()); reveal_strlit("let"); assert("let"@.len() != "while"@.len()); reveal_strlit("mut"); assert("mut"@.len() != "while"@.len()); reveal_strlit("type"); assert("type"@.len() != "while"@.len()); reveal_strlit("is"); assert("is"@.len() != "while"@.len()); reveal_strlit("struct"); assert("struct"@.len() != "while"@.len()); reveal_strlit("union"); assert("union"@[0] != "while"@[0]); reveal_strlit("method"); assert("method"@.len() != "while"@.len()); reveal_strlit("self"); assert("self"@.len() != "while"@.len()); reveal_strlit("Ref"); assert("Ref"@.len() != "while"@.len()); reveal_strlit("Box"); assert("Box"@.len() != "while"@.len()); reveal_strlit("box"); assert("box"@.len() != "while"@.len()); reveal_strlit("print"); assert("print"@[0] != "while"@[0]); reveal_strlit("if"); assert("if"@.len() != "while"@.len()); reveal_strlit("then"); assert("then"@.len() != "while"@.len()); reveal_strlit("Dec64"); assert("Dec64"@[0] != "while"@[0]); reveal_strlit("Int64"); assert("Int64"@[0] != "while"@[0]); reveal_strlit("Bool"); assert("Bool"@.len() != "while"@.len()); reveal_strlit("Nil"); assert("Nil"@.len() != "while"@.len()); reveal_strlit("UInt8"); assert("UInt8"@[0] != "while"@[0]); reveal_strlit("UInt16"); assert("UInt16"@.len() != "while"@.len()); reveal_strlit("UInt32"); assert("UInt32"@.len() != "while"@.len()); reveal_strlit("UInt64"); assert("UInt64"@.len() != "while"@.len()); reveal_strlit("Float32"); assert("Float32"@.len() != "while"@.len()); reveal_strlit("nil"); assert("nil"@.len() != "while"@.len()); reveal_strlit("null"); assert("null"@.len() != "while"@.len()); }
    assert(keyword("do"@) == Some(Token::Do)) by { reveal_strlit("do"); reveal_strlit("fun"); assert("fun"@.len() != "do"@.len()); reveal_strlit("extern"); assert("extern"@.len() != "do"@.len()); reveal_strlit("rust"); assert("rust"@.len() != "do"@.len()); reveal_strlit("let"); assert("let"@.len() != "do"@.len()); reveal_strlit("mut"); assert("mut"@.len() != "do"@.len()); reveal_strlit("type"); assert("type"@.len() != "do"@.len()); reveal_strlit("is"); assert("is"@[0] != "do"@[0]); reveal_strlit("struct"); assert("struct"@.len() != "do"@.len()); reveal_strlit("union"); assert("union"@.len() != "do"@.len()); reveal_strlit("method"); assert("method"@.len() != "do"@.len()); reveal_strlit("self"); assert("self"@.len() != "do"@.len()); reveal_strlit("Ref"); assert("Ref"@.len() != "do"@.len()); reveal_strlit("Box"); assert("Box"@.len() != "do"@.len()); reveal_strlit("box"); assert("box"@.len() != "do"@.len()); reveal_strlit("print"); assert("print"@.len() != "do"@.len()); reveal_strlit("if"); assert("if"@[0] != "do"@[0]); reveal_strlit("then"); assert("then"@.len() != "do"@.len()); reveal_strlit("Dec64"); assert("Dec64"@.len() != "do"@.len()); reveal_strlit("Int64"); assert("Int64"@.len() != "do"@.len()); reveal_strlit("Bool"); assert("Bool"@.len() != "do"@.len()); reveal_strlit("Nil"); assert("Nil"@.len() != "do"@.len()); reveal_strlit("UInt8"); assert("UInt8"@.len() != "do"@.len()); reveal_strlit("UInt16"); assert("UInt16"@.len() != "do"@.len()); reveal_strlit("UInt32"); assert("UInt32"@.len() != "do"@.len()); reveal_strlit("UInt64"); assert("UInt64"@.len() != "do"@.len()); reveal_strlit("Float32"); assert("Float32"@.len() != "do"@.len()); reveal_strlit("nil"); assert("nil"@.len() != "do"@.len()); reveal_strlit("null"); assert("null"@.len() != "do"@.len()); reveal_strlit("while"); assert("while"@.len() != "do"@.len()); }
    assert(keyword("elseif"@) == Some(Token::ElseIf)) by { reveal_strlit("elseif"); reveal_strlit("fun"); assert("fun"@.len() != "elseif"@.len()); reveal_strlit("extern"); assert("extern"@[1] != "elseif"@[1]); reveal_strlit("rust"); assert("rust"@.len() != "elseif"@.len()); reveal_strlit("let"); assert("let"@.len() != "elseif"@.len()); reveal_strlit("mut"); assert("mut"@.len() != "elseif"@.len()); reveal_strlit("type"); assert("type"@.len() != "elseif"@.len()); reveal_strlit("is"); assert("is"@.len() != "elseif"@.len()); reveal_strlit("struct"); assert("struct"@[0] != "elseif"@[0]); reveal_strlit("union"); assert("union"@.len() != "elseif"@.len()); reveal_strlit("method"); assert("method"@[0] != "elseif"@[0]); reveal_strlit("self"); assert("self"@.len() != "elseif"@.len()); reveal_strlit("Ref"); assert("Ref"@.len() != "elseif"@.len()); reveal_strlit("Box"); assert("Box"@.len() != "elseif"@.len()); reveal_strlit("box"); assert("box"@.len() != "elseif"@.len()); reveal_strlit("print"); assert("print"@.len() != "elseif"@.len()); reveal_strlit("if"); assert("if"@.len() != "elseif"@.len()); reveal_strlit("then"); assert("then"@.len() != "elseif"@.len()); reveal_strlit("Dec64"); assert("Dec64"@.len() != "elseif"@.len()); reveal_strlit("Int64"); assert("Int64"@.len() != "elseif"@.len()); reveal_strlit("Bool"); assert("Bool"@.len() != "elseif"@.len()); reveal_strlit("Nil"); assert("Nil"@.len() != "elseif"@.len()); reveal_strlit("UInt8"); assert("UInt8"@.len() != "elseif"@.len()); reveal_strlit("UInt16"); assert("UInt16"@[0] != "elseif"@[0]); reveal_strlit("UInt32"); assert("UInt32"@[0] != "elseif"@[0]); reveal_strlit("UInt64"); assert("UInt64"@[0] != "elseif"@[0]); reveal_strlit("Float32"); assert("Float32"@.len() != "elseif"@.len()); reveal_strlit("nil"); assert("nil"@.len() != "elseif"@.len()); reveal_strlit("null"); assert("null"@.len() != "elseif"@.len()); reveal_strlit("while"); assert("while"@.len() != "elseif"@.len()); reveal_strlit("do"); assert("do"@.len() != "elseif"@.len()); }
    assert(keyword("else"@) == Some(Token::Else)) by { reveal_strlit("else"); reveal_strlit("fun"); assert("fun"@.len() != "else"@.len()); reveal_strlit("extern"); assert("extern"@.len() != "else"@.len()); reveal_strlit("rust"); assert("rust"@[0] != "else"@[0]); reveal_strlit("let"); assert("let"@.len() != "else"@.len()); reveal_strlit("mut"); assert("mut"@.len() != "else"@.len()); reveal_strlit("type"); assert("type"@[0] != "else"@[0]); reveal_strlit("is"); assert("is"@.len() != "else"@.len()); reveal_strlit("struct"); assert("struct"@.len() != "else"@.len()); reveal_strlit("union"); assert("union"@.len() != "else"@.len()); reveal_strlit("method"); assert("method"@.len() != "else"@.len()); reveal_strlit("self"); assert("self"@[0] != "else"@[0]); reveal_strlit("Ref"); assert("Ref"@.len() != "else"@.len()); reveal_strlit("Box"); assert("Box"@.len() != "else"@.len()); reveal_strlit("box"); assert("box"@.len() != "else"@.len()); reveal_strlit("print"); assert("print"@.len() != "else"@.len()); reveal_strlit("if"); assert("if"@.len() != "else"@.len()); reveal_strlit("then"); assert("then"@[0] != "else"@[0]); reveal_strlit("Dec64"); assert("Dec64"@.len() != "else"@.len()); reveal_strlit("Int64"); assert("Int64"@.len() != "else"@.len()); reveal_strlit("Bool"); assert("Bool"@[0] != "else"@[0]); reveal_strlit("Nil"); assert("Nil"@.len() != "else"@.len()); reveal_strlit("UInt8"); assert("UInt8"@.len() != "else"@.len()); reveal_strlit("UInt16"); assert("UInt16"@.len() != "else"@.len()); reveal_strlit("UInt32"); assert("UInt32"@.len() != "else"@.len()); reveal_strlit("UInt64"); assert("UInt64"@.len() != "else"@.len()); reveal_strlit("Float32"); assert("Float32"@.len() != "else"@.len()); reveal_strlit("nil"); assert("nil"@.len() != "else"@.len()); reveal_strlit("null"); assert("null"@[0] != "else"@[0]); reveal_strlit("while"); assert("while"@.len() != "else"@.len()); reveal_strlit("do"); assert("do"@.len() != "else"@.len()); reveal_strlit("elseif"); assert("elseif"@.len() != "else"@.len()); }
    assert(keyword("end"@) == Some(Token::End)) by { reveal_strlit("end"); reveal_strlit("fun"); assert("fun"@[0] != "end"@[0]); reveal_strlit("extern"); assert("extern"@.len() != "end"@.len()); reveal_strlit("rust"); assert("rust"@.len() != "end"@.len()); reveal_strlit("let"); assert("let"@[0] != "end"@[0]); reveal_strlit("mut"); assert("mut"@[0] != "end"@[0]); reveal_strlit("type"); assert("type"@.len() != "end"@.len()); reveal_strlit("is"); assert("is"@.len() != "end"@.len()); reveal_strlit("struct"); assert("struct"@.len() != "end"@.len()); reveal_strlit("union"); assert("union"@.len() != "end"@.len()); reveal_strlit("method"); assert("method"@.len() != "end"@.len()); reveal_strlit("self"); assert("self"@.len() != "end"@.len()); reveal_strlit("Ref"); assert("Ref"@[0] != "end"@[0]); reveal_strlit("Box"); assert("Box"@[0] != "end"@[0]); reveal_strlit("box"); assert("box"@[0] != "end"@[0]); reveal_strlit("print"); assert("print"@.len() != "end"@.len()); reveal_strlit("if"); assert("if"@.len() != "end"@.len()); reveal_strlit("then"); assert("then"@.len() != "end"@.len()); reveal_strlit("Dec64"); assert("Dec64"@.len() != "end"@.len()); reveal_strlit("Int64"); assert("Int64"@.len() != "end"@.len()); reveal_strlit("Bool"); assert("Bool"@.len() != "end"@.len()); reveal_strlit("Nil"); assert("Nil"@[0] != "end"@[0]); reveal_strlit("UInt8"); assert("UInt8"@.len() != "end"@.len()); reveal_strlit("UInt16"); assert("UInt16"@.len() != "end"@.len()); reveal_strlit("UInt32"); assert("UInt32"@.len() != "end"@.len()); reveal_strlit("UInt64"); assert("UInt64"@.len() != "end"@.len()); reveal_strlit("Float32"); assert("Float32"@.len() != "end"@.len()); reveal_strlit("nil"); assert("nil"@[0] != "end"@[0]); reveal_strlit("null"); assert("null"@.len() != "end"@.len()); reveal_strlit("while"); assert("while"@.len() != "end"@.len()); reveal_strlit("do"); assert("do"@.len() != "end"@.len()); reveal_strlit("elseif"); assert("elseif"@.len() != "end"@.len()); reveal_strlit("else"); assert("else"@.len() != "end"@.len()); }
    assert(keyword("break"@) == Some(Token::Break)) by { reveal_strlit("break"); reveal_strlit("fun"); assert("fun"@.len() != "break"@.len()); reveal_strlit("extern"); assert("extern"@.len() != "break"@.len()); reveal_strlit("rust"); assert("rust"@.len() != "break"@.len()); reveal_strlit("let"); assert("let"@.len() != "break"@.len()); reveal_strlit("mut"); assert("mut"@.len() != "break"@.len()); reveal_strlit("type"); assert("type"@.len() != "break"@.len()); reveal_strlit("is"); assert("is"@.len() != "break"@.len()); reveal_strlit("struct"); assert("struct"@.len() != "break"@.len()); reveal_strlit("union"); assert("union"@[0] != "break"@[0]); reveal_strlit("method"); assert("method"@.len() != "break"@.len()); reveal_strlit("self"); assert("self"@.len() != "break"@.len()); reveal_strlit("Ref"); assert("Ref"@.len() != "break"@.len()); reveal_strlit("Box"); assert("Box"@.len() != "break"@.len()); reveal_strlit("box"); assert("box"@.len() != "break"@.len()); reveal_strlit("print"); assert("print"@[0] != "break"@[0]); reveal_strlit("if"); assert("if"@.len() != "break"@.len()); reveal_strlit("then"); assert("then"@.len() != "break"@.len()); reveal_strlit("Dec64"); assert("Dec64"@[0] != "break"@[0]); reveal_strlit("Int64"); assert("Int64"@[0] != "break"@[0]); reveal_strlit("Bool"); assert("Bool"@.len() != "break"@.len()); reveal_strlit("Nil"); assert("Nil"@.len() != "break"@.len()); reveal_strlit("UInt8"); assert("UInt8"@[0] != "break"@[0]); reveal_strlit("UInt16"); assert("UInt16"@.len() != "break"@.len()); reveal_strlit("UInt32"); assert("UInt32"@.len() != "break"@.len()); reveal_strlit("UInt64"); assert("UInt64"@.len() != "break"@.len()); reveal_strlit("Float32"); assert("Float32"@.len() != "break"@.len()); reveal_strlit("nil"); assert("nil"@.len() != "break"@.len()); reveal_strlit("null"); assert("null"@.len() != "break"@.len()); reveal_strlit("while"); assert("while"@[0] != "break"@[0]); reveal_strlit("do"); assert("do"@.len() != "break"@.len()); reveal_strlit("elseif"); assert("elseif"@.len() != "break"@.len()); reveal_strlit("else"); assert("else"@.len() != "break"@.len()); reveal_strlit("end"); assert("end"@.len() != "break"@.len()); }
    assert(keyword("true"@) == Some(Token::Bool(true))) by { reveal_strlit("true"); reveal_strlit("fun"); assert("fun"@.len() != "true"@.len()); reveal_strlit("extern"); assert("extern"@.len() != "true"@.len()); reveal_strlit("rust"); assert("rust"@[0] != "true"@[0]); reveal_strlit("let"); assert("let"@.len() != "true"@.len()); reveal_strlit("mut"); assert("mut"@.len() != "true"@.len()); reveal_strlit("type"); assert("type"@[1] != "true"@[1]); reveal_strlit("is"); assert("is"@.len() != "true"@.len()); reveal_strlit("struct"); assert("struct"@.len() != "true"@.len()); reveal_strlit("union"); assert("union"@.len() != "true"@.len()); reveal_strlit("method"); assert("method"@.len() != "true"@.len()); reveal_strlit("self"); assert("self"@[0] != "true"@[0]); reveal_strlit("Ref"); assert("Ref"@.len() != "true"@.len()); reveal_strlit("Box"); assert("Box"@.len() != "true"@.len()); reveal_strlit("box"); assert("box"@.len() != "true"@.len()); reveal_strlit("print"); assert("print"@.len() != "true"@.len()); reveal_strlit("if"); assert("if"@.len() != "true"@.len()); reveal_strlit("then"); assert("then"@[1] != "true"@[1]); reveal_strlit("Dec64"); assert("Dec64"@.len() != "true"@.len()); reveal_strlit("Int64"); assert("Int64"@.len() != "true"@.len()); reveal_strlit("Bool"); assert("Bool"@[0] != "true"@[0]); reveal_strlit("Nil"); assert("Nil"@.len() != "true"@.len()); reveal_strlit("UInt8"); assert("UInt8"@.len() != "true"@.len()); reveal_strlit("UInt16"); assert("UInt16"@.len() != "true"@.len()); reveal_strlit("UInt32"); assert("UInt32"@.len() != "true"@.len()); reveal_strlit("UInt64"); assert("UInt64"@.len() != "true"@.len()); reveal_strlit("Float32"); assert("Float32"@.len() != "true"@.len()); reveal_strlit("nil"); assert("nil"@.len() != "true"@.len()); reveal_strlit("null"); assert("null"@[0] != "true"@[0]); reveal_strlit("while"); assert("while"@.len() != "true"@.len()); reveal_strlit("do"); assert("do"@.len() != "true"@.len()); reveal_strlit("elseif"); assert("elseif"@.len() != "true"@.len()); reveal_strlit("else"); assert("else"@[0] != "true"@[0]); reveal_strlit("end"); assert("end"@.len() != "true"@.len()); reveal_strlit("break"); assert("break"@.len() != "true"@.len()); }
    assert(keyword("false"@) == Some(Token::Bool(false))) by { reveal_strlit("false"); reveal_strlit("fun"); assert("fun"@.len() != "false"@.len()); reveal_strlit("extern"); assert("extern"@.len() != "false"@.len()); reveal_strlit("rust"); assert("rust"@.len() != "false"@.len()); reveal_strlit("let"); assert("let"@.len() != "false"@.len()); reveal_strlit("mut"); assert("mut"@.len() != "false"@.len()); reveal_strlit("type"); assert("type"@.len() != "false"@.len()); reveal_strlit("is"); assert("is"@.len() != "false"@.len()); reveal_strlit("struct"); assert("struct"@.len() != "false"@.len()); reveal_strlit("union"); assert("union"@[0] != "false"@[0]); reveal_strlit("method"); assert("method"@.len() != "false"@.len()); reveal_strlit("self"); assert("self"@.len() != "false"@.len()); reveal_strlit("Ref"); assert("Ref"@.len() != "false"@.len()); reveal_strlit("Box"); assert("Box"@.len() != "false"@.len()); reveal_strlit("box"); assert("box"@.len() != "false"@.len()); reveal_strlit("print"); assert("print"@[0] != "false"@[0]); reveal_strlit("if"); assert("if"@.len() != "false"@.len()); reveal_strlit("then"); assert("then"@.len() != "false"@.len()); reveal_strlit("Dec64"); assert("Dec64"@[0] != "false"@[0]); reveal_strlit("Int64"); assert("Int64"@[0] != "false"@[0]); reveal_strlit("Bool"); assert("Bool"@.len() != "false"@.len()); reveal_strlit("Nil"); assert("Nil"@.len() != "false"@.len()); reveal_strlit("UInt8"); assert("UInt8"@[0] != "false"@[0]); reveal_strlit("UInt16"); assert("UInt16"@.len() != "false"@.len()); reveal_strlit("UInt32"); assert("UInt32"@.len() != "false"@.len()); reveal_strlit("UInt64"); assert("UInt64"@.len() != "false"@.len()); reveal_strlit("Float32"); assert("Float32"@.len() != "false"@.len()); reveal_strlit("nil"); assert("nil"@.len() != "false"@.len()); reveal_strlit("null"); assert("null"@.len() != "false"@.len()); reveal_strlit("while"); assert("while"@[0] != "false"@[0]); reveal_strlit("do"); assert("do"@.len() != "false"@.len()); reveal_strlit("elseif"); assert("elseif"@.len() != "false"@.len()); reveal_strlit("else"); assert("else"@.len() != "false"@.len()); reveal_strlit("end"); assert("end"@.len() != "false"@.len()); reveal_strlit("break"); assert("break"@[0] != "false"@[0]); reveal_strlit("true"); assert("true"@.len() != "false"@.len()); }
}

/// Each operator is spelled as written, and no two share a spelling.
pub proof fn law_operator_spellings(a: Operator, b: Operator)
    ensures
        op_spelling(Operator::Plus) == "+"@,
        op_spelling(Operator::Minus) == "-"@,
        op_spelling(Operator::Star) == "*"@,
        op_spelling(Operator::Slash) == "/"@,
        op_spelling(Operator::Bang) == "!"@,
        op_spelling(Operator::Assign) == "="@,
        op_spelling(Operator::Less) == "<"@,
        op_spelling(Operator::Greater) == ">"@,
        op_spelling(Operator::EqEq) == "=="@,
        op_spelling(Operator::NotEq) == "!="@,
        op_spelling(Operator::LessEq) == "<="@,
        op_spelling(Operator::GreaterEq) == ">="@,
        op_spelling(a) == op_spelling(b) ==> a == b,
{
    reveal_strlit("+");
    reveal_strlit("-");
    reveal_strlit("*");
    reveal_strlit("/");
    reveal_strlit("!");
    reveal_strlit("=");
    reveal_strlit("<");
    reveal_strlit(">");
    reveal_strlit("==");
    reveal_strlit("!=");
    reveal_strlit("<=");
    reveal_strlit(">=");
    assert("+"@[0] != "-"@[0]);
    assert("+"@[0] != "*"@[0]);
    assert("+"@[0] != "/"@[0]);
    assert("+"@[0] != "!"@[0]);
    assert("+"@[0] != "="@[0]);
    assert("+"@[0] != "<"@[0]);
    assert("+"@[0] != ">"@[0]);
    assert("+"@.len() != "=="@.len());
    assert("+"@.len() != "!="@.len());
    assert("+"@.len() != "<="@.len());
    assert("+"@.len() != ">="@.len());
    assert("-"@[0] != "*"@[0]);
    assert("-"@[0] != "/"@[0]);
    assert("-"@[0] != "!"@[0]);
    assert("-"@[0] != "="@[0]);
    assert("-"@[0] != "<"@[0]);
    assert("-"@[0] != ">"@[0]);
    assert("-"@.len() != "=="@.len());
    assert("-"@.len() != "!="@.len());
    assert("-"@.len() != "<="@.len());
    assert("-"@.len() != ">="@.len());
    assert("*"@[0] != "/"@[0]);
    assert("*"@[0] != "!"@[0]);
    assert("*"@[0] != "="@[0]);
    assert("*"@[0] != "<"@[0]);
    assert("*"@[0] != ">"@[0]);
    assert("*"@.len() != "=="@.len());
    assert("*"@.len() != "!="@.len());
    assert("*"@.len() != "<="@.len());
    assert("*"@.len() != ">="@.len());
    assert("/"@[0] != "!"@[0]);
    assert("/"@[0] != "="@[0]);
    assert("/"@[0] != "<"@[0]);
    assert("/"@[0] != ">"@[0]);
    assert("/"@.len() != "=="@.len());
    assert("/"@.len() != "!="@.len());
    assert("/"@.len() != "<="@.len());
    assert("/"@.len() != ">="@.len());
    assert("!"@[0] != "="@[0]);
    assert("!"@[0] != "<"@[0]);
    assert("!"@[0] != ">"@[0]);
    assert("!"@.len() != "=="@.len());
    assert("!"@.len() != "!="@.len());
    assert("!"@.len() != "<="@.len());
    assert("!"@.len() != ">="@.len());
    assert("="@[0] != "<"@[0]);
    assert("="@[0] != ">"@[0]);
    assert("="@.len() != "=="@.len());
    assert("="@.len() != "!="@.len());
    assert("="@.len() != "<="@.len());
    assert("="@.len() != ">="@.len());
    assert("<"@[0] != ">"@[0]);
    assert("<"@.len() != "=="@.len());
    assert("<"@.len() != "!="@.len());
    assert("<"@.len() != "<="@.len());
    assert("<"@.len() != ">="@.len());
    assert(">"@.len() != "=="@.len());
    assert(">"@.len() != "!="@.len());
    assert(">"@.len() != "<="@.len());
    assert(">"@.len() != ">="@.len());
    assert("=="@[0] != "!="@[0]);
    assert("=="@[0] != "<="@[0]);
    assert("=="@[0] != ">="@[0]);
    assert("!="@[0] != "<="@[0]);
    assert("!="@[0] != ">="@[0]);
    assert("<="@[0] != ">="@[0]);
}


/// A literal's suffix picks its type, and an in-range whole number keeps its
/// value: no suffix gives `Int64`, `u8`, `u16`, `u32` and `u64` the unsigned
/// type of that width, and a value past the width's maximum is refused.
pub proof fn law_literal_suffixes(d: Seq<char>, ip: Seq<char>)
    ensures
        digits_value(d) <= i64::MAX ==> classify_spec(d, ip, false, Seq::empty()) == Ok::<NumLiteral, Seq<char>>(NumLiteral::Int(digits_value(d) as i64)),
        digits_value(d) <= u8::MAX ==> classify_spec(d, ip, false, "u8"@) == Ok::<NumLiteral, Seq<char>>(NumLiteral::U8(digits_value(d) as u8)),
        digits_value(d) <= u16::MAX ==> classify_spec(d, ip, false, "u16"@) == Ok::<NumLiteral, Seq<char>>(NumLiteral::U16(digits_value(d) as u16)),
        digits_value(d) <= u32::MAX ==> classify_spec(d, ip, false, "u32"@) == Ok::<NumLiteral, Seq<char>>(NumLiteral::U32(digits_value(d) as u32)),
        digits_value(d) <= u64::MAX ==> classify_spec(d, ip, false, "u64"@) == Ok::<NumLiteral, Seq<char>>(NumLiteral::U64(digits_value(d) as u64)),
        digits_value(d) > i64::MAX ==> classify_spec(d, ip, false, Seq::empty()) is Err,
        digits_value(d) > u8::MAX ==> classify_spec(d, ip, false, "u8"@) is Err,
        digits_value(d) > u16::MAX ==> classify_spec(d, ip, false, "u16"@) is Err,
        digits_value(d) > u32::MAX ==> classify_spec(d, ip, false, "u32"@) is Err,
        digits_value(d) > u64::MAX ==> classify_spec(d, ip, false, "u64"@) is Err,
        classify_spec(d, ip, true, Seq::empty()) matches Ok(NumLiteral::Dec(_)),
        classify_spec(d, ip, true, "u8"@) is Err,
{
    reveal_strlit("u8");
    reveal_strlit("u16");
    reveal_strlit("u32");
    reveal_strlit("u64");
    reveal_strlit("f32");
    assert("u8"@.len() != "f32"@.len());
    assert("u16"@[0] != "f32"@[0]);
    assert("u32"@[0] != "f32"@[0]);
    assert("u64"@[0] != "f32"@[0]);
    assert("u8"@.len() != "u16"@.len());
    assert("u16"@[1] != "u32"@[1]);
    assert("u16"@[1] != "u64"@[1]);
    assert("u32"@[1] != "u64"@[1]);
}

} // verus!

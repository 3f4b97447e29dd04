//! Recursive-descent parsing of a token sequence into a [`Program`].
//!
//! The grammar, one rule per function below:
//! ```text
//! program      = { extern | fun | type | method | element } EOF
//! element      = let | while | "break" | if | assignment | expression
//! expression   = sum { ("==" | "!=" | "<" | "<=" | ">" | ">=") sum }
//! sum          = product { ("+" | "-") product }
//! product      = postfix { ("*" | "/") postfix }
//! postfix      = atom { "(" arguments ")" | "." identifier }
//! sum-type     = primary { "|" primary }
//! primary      = builtin | name { "." name } | "(" sum-type ")" | "Box" "<" sum-type ">"
//! ```

use vstd::prelude::*;
use crate::ast::{
    Arg, BinaryOp, Block, BlockElement, Condition, Element, Expr, ExternFunc, FieldDecl, Func,
    IfForm, MethodDecl, Param, ParamMode, PlacePath, PlaceRootName, Program, SExpr, Span, TypeBody,
    TypeDecl, TypeName, TypeRef, TypeTest, UnionMemberDecl, Value,
};
use crate::lexer::{Operator, Token};
use crate::grammar::{
    additive_at, arguments_close, arguments_separated, builtin_token, comparison_at, ctrl_at, ident_at,
    is_argument, is_atom, is_expression, is_postfix, is_product, is_sum, items_close, items_separated,
    multiplicative_at, split_at, token_at, dotted_names, is_sum_type, type_members, is_primary_type,
    is_reference_type, is_param, params_separated, is_params, is_result_type, is_place, place_fields,
    segment_at, member_segments, is_type_test, is_condition, is_block, elements_run, is_element, is_if_form,
    arms_run, is_arm, is_field, fields_run, is_struct_body, is_union_member, members_run, is_type_decl,
    is_callable_tail, is_func, is_extern, is_method, items_run, is_program, literal_token_at, let_or_end_at,
    literal_let_end, literal_lets_from,
};
use crate::text::{owned, push_char, push_str, push_string, push_signed, push_decimal, same, concat3};

verus! {

/// A parse failure: where, and why.
pub type ParseError = (Span, String);

/// A parsed value and the position just after it.
pub type Parsed<T> = Result<(T, usize), ParseError>;

pub const REFERENCE_OUTSIDE_A_PARAMETER: &'static str = "'Ref<T>' is only valid as the direct type of a function, method, or Rust bridge parameter; a reference is not storable, so it cannot be a result, a local, a field, a represented type, or a union member";

pub const NESTED_REFERENCE: &'static str = "'Ref<T>' cannot contain another reference; a reference parameter refers to a value type";

/// Progress: a successful parse consumed at least one token.
pub open spec fn advanced<T>(r: Parsed<T>, pos: int, len: int) -> bool {
    r matches Ok((_, q)) ==> pos < q <= len
}

/// How a numeric literal is spelled back: its value, then its suffix; the
/// floating forms keep their digits.
pub open spec fn number_text(n: crate::ast::NumLiteral) -> Seq<char> {
    match n {
        crate::ast::NumLiteral::Int(v) => if v >= 0 { crate::text::decimal(v as nat) } else { "-"@ + crate::text::decimal((-v) as nat) },
        crate::ast::NumLiteral::Dec(t) => t@,
        crate::ast::NumLiteral::U8(v) => crate::text::decimal(v as nat) + "u8"@,
        crate::ast::NumLiteral::U16(v) => crate::text::decimal(v as nat) + "u16"@,
        crate::ast::NumLiteral::U32(v) => crate::text::decimal(v as nat) + "u32"@,
        crate::ast::NumLiteral::U64(v) => crate::text::decimal(v as nat) + "u64"@,
        crate::ast::NumLiteral::F32(t) => t@ + "f32"@,
    }
}

/// How a diagnostic spells a token: a word as written, a literal by its
/// value, a string by its contents.
pub open spec fn token_spelling(t: Token) -> Seq<char> {
    match t {
        Token::Bool(b) => if b { "true"@ } else { "false"@ },
        Token::Num(n) => number_text(n),
        Token::Str(v) => v@,
        Token::Op(o) => crate::lexer::op_spelling(o),
        Token::Ctrl(c) => seq![c],
        Token::Ident(n) => n@,
        Token::Extern => "extern"@,
        Token::Rust => "rust"@,
        Token::Fun => "fun"@,
        Token::Let => "let"@,
        Token::Mut => "mut"@,
        Token::Print => "print"@,
        Token::If => "if"@,
        Token::Then => "then"@,
        Token::Do => "do"@,
        Token::Type => "type"@,
        Token::Is => "is"@,
        Token::Struct => "struct"@,
        Token::Union => "union"@,
        Token::Method => "method"@,
        Token::SelfKw => "self"@,
        Token::Ref => "Ref"@,
        Token::TyDec64 => "Dec64"@,
        Token::TyInt64 => "Int64"@,
        Token::TyBool => "Bool"@,
        Token::TyNil => "Nil"@,
        Token::TyUInt8 => "UInt8"@,
        Token::TyUInt16 => "UInt16"@,
        Token::TyUInt32 => "UInt32"@,
        Token::TyUInt64 => "UInt64"@,
        Token::TyFloat32 => "Float32"@,
        Token::TyBox => "Box"@,
        Token::BoxKw => "box"@,
        Token::Nil => "nil"@,
        Token::While => "while"@,
        Token::ElseIf => "elseif"@,
        Token::Else => "else"@,
        Token::End => "end"@,
        Token::Break => "break"@,
    }
}

/// A reserved word is spelled back as it was read: the keyword token a word
/// lexes to is spelled as that word (`null`, read as `nil`, is spelled
/// `nil`), and a built-in type token names a member segment by its word.
pub proof fn law_keywords_spelled_back(w: Seq<char>)
    ensures
        w != "null"@ ==> (crate::lexer::keyword(w) matches Some(t) ==> token_spelling(t) == w),
        crate::lexer::keyword(w) matches Some(t) ==> (crate::grammar::segment_text(t) is Some
            ==> crate::grammar::segment_text(t) == Some(w)),
{
    crate::lexer::law_keyword_words(w);
}

/// The token spelling used when a diagnostic names what it found.
pub fn token_text(t: &Token) -> (s: String)
    ensures
        s@ == token_spelling(*t),
{
    match t {
        Token::Bool(b) => {
            let r = if *b { owned("true") } else { owned("false") };
            assert(r@ == token_spelling(*t));
            r
        },
        Token::Num(n) => {
            let mut s = String::new();
            match n {
                crate::ast::NumLiteral::Int(v) => push_signed(&mut s, *v),
                crate::ast::NumLiteral::Dec(t) => push_string(&mut s, t),
                crate::ast::NumLiteral::U8(v) => { push_decimal(&mut s, *v as u64); push_str(&mut s, "u8"); }
                crate::ast::NumLiteral::U16(v) => { push_decimal(&mut s, *v as u64); push_str(&mut s, "u16"); }
                crate::ast::NumLiteral::U32(v) => { push_decimal(&mut s, *v as u64); push_str(&mut s, "u32"); }
                crate::ast::NumLiteral::U64(v) => { push_decimal(&mut s, *v); push_str(&mut s, "u64"); }
                crate::ast::NumLiteral::F32(t) => { push_string(&mut s, t); push_str(&mut s, "f32"); }
            }
            proof { reveal_strlit("-"); }
            assert(s@ =~= number_text(*n));
            s
        }
        Token::Str(v) => {
            let mut s = String::new();
            push_string(&mut s, v);
            assert(s@ =~= v@);
            s
        }
        Token::Op(o) => {
            let r = owned(match o {
                Operator::Plus => "+",
                Operator::Minus => "-",
                Operator::Star => "*",
                Operator::Slash => "/",
                Operator::Bang => "!",
                Operator::Assign => "=",
                Operator::Less => "<",
                Operator::Greater => ">",
                Operator::EqEq => "==",
                Operator::NotEq => "!=",
                Operator::LessEq => "<=",
                Operator::GreaterEq => ">=",
            });
            assert(r@ == crate::lexer::op_spelling(*o));
            r
        }
        Token::Ctrl(c) => {
            let mut s = String::new();
            push_char(&mut s, *c);
            assert(s@ =~= seq![*c]);
            s
        }
        Token::Ident(n) => {
            let mut s = String::new();
            push_string(&mut s, n);
            assert(s@ =~= n@);
            s
        }
        Token::Extern => owned("extern"),
        Token::Rust => owned("rust"),
        Token::Fun => owned("fun"),
        Token::Let => owned("let"),
        Token::Mut => owned("mut"),
        Token::Print => owned("print"),
        Token::If => owned("if"),
        Token::Then => owned("then"),
        Token::Do => owned("do"),
        Token::Type => owned("type"),
        Token::Is => owned("is"),
        Token::Struct => owned("struct"),
        Token::Union => owned("union"),
        Token::Method => owned("method"),
        Token::SelfKw => owned("self"),
        Token::Ref => owned("Ref"),
        Token::TyDec64 => owned("Dec64"),
        Token::TyInt64 => owned("Int64"),
        Token::TyBool => owned("Bool"),
        Token::TyNil => owned("Nil"),
        Token::TyUInt8 => owned("UInt8"),
        Token::TyUInt16 => owned("UInt16"),
        Token::TyUInt32 => owned("UInt32"),
        Token::TyUInt64 => owned("UInt64"),
        Token::TyFloat32 => owned("Float32"),
        Token::TyBox => owned("Box"),
        Token::BoxKw => owned("box"),
        Token::Nil => owned("nil"),
        Token::While => owned("while"),
        Token::ElseIf => owned("elseif"),
        Token::Else => owned("else"),
        Token::End => owned("end"),
        Token::Break => owned("break"),
    }
}

/// The parser's view of a token stream: the tokens and the source length,
/// which places the end-of-input position.
pub struct Tokens {
    pub toks: Vec<(Token, Span)>,
    pub eof: usize,
}

impl Tokens {
    pub open spec fn len(&self) -> int {
        self.toks@.len() as int
    }

    pub open spec fn wf(&self) -> bool {
        &&& self.toks@.len() <= usize::MAX
        &&& forall|i: int| 0 <= i < self.toks@.len() ==> (#[trigger] self.toks@[i]).1.start <= self.toks@[i].1.end <= self.eof
    }
}

/// The span of the token at `pos`, or the empty end-of-input span.
fn span_at(t: &Tokens, pos: usize) -> (s: Span)
    requires
        t.wf(),
    ensures
        s.start <= s.end <= t.eof,
        pos < t.toks@.len() ==> s == t.toks@[pos as int].1,
        pos >= t.toks@.len() ==> s == (Span { start: t.eof, end: t.eof }),
{
    if pos < t.toks.len() {
        t.toks[pos].1
    } else {
        Span { start: t.eof, end: t.eof }
    }
}

/// The span from the token at `start` to the one just before `end`.
fn span_from(t: &Tokens, start: usize, end: usize) -> (s: Span)
    requires
        t.wf(),
        start < end <= t.len(),
    ensures
        s.start <= s.end <= t.eof,
        s.start == t.toks@[start as int].1.start,
        s.end == if t.toks@[end - 1].1.end < t.toks@[start as int].1.start { t.toks@[start as int].1.start } else { t.toks@[end - 1].1.end },
{
    let a = t.toks[start].1;
    let b = t.toks[end - 1].1;
    if b.end < a.start {
        Span { start: a.start, end: a.start }
    } else {
        Span { start: a.start, end: b.end }
    }
}

/// "expected WHAT, found X" at `pos`.
fn expected(t: &Tokens, pos: usize, what: &str) -> (e: ParseError)
    requires
        t.wf(),
    ensures
        e.0.start <= e.0.end <= t.eof,
{
    let mut m = owned("expected ");
    push_str(&mut m, what);
    if pos < t.toks.len() {
        push_str(&mut m, ", found '");
        let found = token_text(&t.toks[pos].0);
        push_string(&mut m, &found);
        push_str(&mut m, "'");
    } else {
        push_str(&mut m, ", found end of input");
    }
    (span_at(t, pos), m)
}

fn is_ctrl(t: &Tokens, pos: usize, c: char) -> (r: bool)
    ensures
        r ==> pos < t.toks@.len(),
        r == ctrl_at(t.toks@, pos as int, c),
{
    pos < t.toks.len() && match &t.toks[pos].0 {
        Token::Ctrl(d) => *d == c,
        _ => false,
    }
}

fn is_op(t: &Tokens, pos: usize, o: Operator) -> (r: bool)
    ensures
        r ==> pos < t.toks@.len(),
        r == (pos < t.toks@.len() && t.toks@[pos as int].0 == Token::Op(o)),
{
    pos < t.toks.len() && match &t.toks[pos].0 {
        Token::Op(p) => *p == o,
        _ => false,
    }
}

/// The simple tokens the grammar names by kind.
#[derive(Clone, Copy, PartialEq, Eq, Structural)]
enum Kw {
    Do,
    End,
    Then,
    Is,
    Rust,
    Fun,
    Struct,
    Union,
    Else,
    ElseIf,
    Let,
    Mut,
    While,
    Break,
    If,
    Ref,
    TyBox,
    TyNil,
    Extern,
    Type,
    Method,
}

/// The token a keyword kind stands for.
spec fn kw_token(k: Kw) -> Token {
    match k {
        Kw::Do => Token::Do,
        Kw::End => Token::End,
        Kw::Then => Token::Then,
        Kw::Is => Token::Is,
        Kw::Rust => Token::Rust,
        Kw::Fun => Token::Fun,
        Kw::Struct => Token::Struct,
        Kw::Union => Token::Union,
        Kw::Else => Token::Else,
        Kw::ElseIf => Token::ElseIf,
        Kw::Let => Token::Let,
        Kw::Mut => Token::Mut,
        Kw::While => Token::While,
        Kw::Break => Token::Break,
        Kw::If => Token::If,
        Kw::Ref => Token::Ref,
        Kw::TyBox => Token::TyBox,
        Kw::TyNil => Token::TyNil,
        Kw::Extern => Token::Extern,
        Kw::Type => Token::Type,
        Kw::Method => Token::Method,
    }
}

fn is_kw(t: &Tokens, pos: usize, k: Kw) -> (r: bool)
    ensures
        r ==> pos < t.toks@.len(),
        r == token_at(t.toks@, pos as int, kw_token(k)),
{
    if pos >= t.toks.len() {
        return false;
    }
    match (&t.toks[pos].0, k) {
        (Token::Do, Kw::Do) | (Token::End, Kw::End) | (Token::Then, Kw::Then)
        | (Token::Is, Kw::Is) | (Token::Rust, Kw::Rust) | (Token::Fun, Kw::Fun)
        | (Token::Struct, Kw::Struct) | (Token::Union, Kw::Union) | (Token::Else, Kw::Else)
        | (Token::ElseIf, Kw::ElseIf) | (Token::Let, Kw::Let) | (Token::Mut, Kw::Mut)
        | (Token::While, Kw::While) | (Token::Break, Kw::Break) | (Token::If, Kw::If)
        | (Token::Ref, Kw::Ref) | (Token::TyBox, Kw::TyBox) | (Token::TyNil, Kw::TyNil)
        | (Token::Extern, Kw::Extern) | (Token::Type, Kw::Type)
        | (Token::Method, Kw::Method) => true,
        _ => false,
    }
}

fn expect_kw(t: &Tokens, pos: usize, k: Kw, what: &str) -> (r: Result<usize, ParseError>)
    requires
        t.wf(),
    ensures
        r matches Ok(q) ==> q == pos + 1 && q <= t.len() && token_at(t.toks@, pos as int, kw_token(k)),
        r matches Err(e) ==> e.0.start <= e.0.end <= t.eof,
{
    if is_kw(t, pos, k) {
        Ok(pos + 1)
    } else {
        Err(expected(t, pos, what))
    }
}

fn expect_ctrl(t: &Tokens, pos: usize, c: char, what: &str) -> (r: Result<usize, ParseError>)
    requires
        t.wf(),
    ensures
        r matches Ok(q) ==> q == pos + 1 && q <= t.len() && ctrl_at(t.toks@, pos as int, c),
        ctrl_at(t.toks@, pos as int, c) ==> r is Ok,
        r matches Err(e) ==> e.0.start <= e.0.end <= t.eof,
{
    if is_ctrl(t, pos, c) {
        Ok(pos + 1)
    } else {
        Err(expected(t, pos, what))
    }
}

fn expect_op(t: &Tokens, pos: usize, o: Operator, what: &str) -> (r: Result<usize, ParseError>)
    requires
        t.wf(),
    ensures
        r matches Ok(q) ==> q == pos + 1 && q <= t.len() && token_at(t.toks@, pos as int, Token::Op(o)),
        token_at(t.toks@, pos as int, Token::Op(o)) ==> r is Ok,
        r matches Err(e) ==> e.0.start <= e.0.end <= t.eof,
{
    if is_op(t, pos, o) {
        Ok(pos + 1)
    } else {
        Err(expected(t, pos, what))
    }
}

/// An identifier token and its span.
fn name_at(t: &Tokens, pos: usize, what: &str) -> (r: Parsed<(String, Span)>)
    requires
        t.wf(),
    ensures
        r matches Ok((_, q)) ==> q == pos + 1 && q <= t.len(),
        r matches Ok((n, _)) ==> ident_at(t.toks@, pos as int, n.0@),
        pos < t.toks@.len() && t.toks@[pos as int].0 is Ident ==> r is Ok,
        r matches Err(e) ==> e.0.start <= e.0.end <= t.eof,
{
    if pos < t.toks.len() {
        if let Token::Ident(n) = &t.toks[pos].0 {
            return Ok(((n.clone(), t.toks[pos].1), pos + 1));
        }
    }
    Err(expected(t, pos, what))
}

fn builtin_at(t: &Tokens, pos: usize) -> (r: Option<TypeName>)
    ensures
        r is Some ==> pos < t.toks@.len(),
        pos < t.toks@.len() ==> r == builtin_token(t.toks@[pos as int].0),
{
    if pos >= t.toks.len() {
        return None;
    }
    match &t.toks[pos].0 {
        Token::TyDec64 => Some(TypeName::Dec64),
        Token::TyInt64 => Some(TypeName::Int64),
        Token::TyBool => Some(TypeName::Bool),
        Token::TyNil => Some(TypeName::Nil),
        Token::TyUInt8 => Some(TypeName::UInt8),
        Token::TyUInt16 => Some(TypeName::UInt16),
        Token::TyUInt32 => Some(TypeName::UInt32),
        Token::TyUInt64 => Some(TypeName::UInt64),
        Token::TyFloat32 => Some(TypeName::Float32),
        _ => None,
    }
}

/// `sum-type = primary { "|" primary }`; one primary stands for itself.
fn sum_type(t: &Tokens, pos: usize) -> (r: Parsed<TypeRef>)
    requires
        t.wf(),
    ensures
        advanced(r, pos as int, t.len()),
        r matches Err(e) ==> e.0.start <= e.0.end <= t.eof,
        r matches Ok((ty, q)) ==> is_sum_type(t.toks@, pos as int, q as int, ty),
        pos < t.toks@.len() && builtin_token(t.toks@[pos as int].0) is Some && !ctrl_at(t.toks@, pos + 1, '|')
            ==> (r matches Ok((_, q)) && q == pos + 1),
    decreases t.len() - pos, 1nat,
{
    let (first, mut q) = primary_type(t, pos)?;
    if !is_ctrl(t, q, '|') {
        return Ok((first, q));
    }
    let mut members = vec![first];
    proof {
        assert(members@ == seq![first]);
    }
    while is_ctrl(t, q, '|')
        invariant
            t.wf(),
            pos < q <= t.len(),
            members@.len() >= 1,
            members@.len() >= 2 || ctrl_at(t.toks@, q as int, '|'),
            !(pos < t.toks@.len() && builtin_token(t.toks@[pos as int].0) is Some && !ctrl_at(t.toks@, pos + 1, '|')),
            type_members(t.toks@, pos as int, q as int, members@),
        decreases t.len() - q,
    {
        let (next, q2) = primary_type(t, q + 1)?;
        let ghost before = members@;
        members.push(next);
        proof {
            assert(members@.drop_last() == before);
            assert(ctrl_at(t.toks@, q as int, '|'));
        }
        q = q2;
    }
    Ok((TypeRef::Sum(members, span_from(t, pos, q)), q))
}

fn primary_type(t: &Tokens, pos: usize) -> (r: Parsed<TypeRef>)
    requires
        t.wf(),
    ensures
        advanced(r, pos as int, t.len()),
        r matches Err(e) ==> e.0.start <= e.0.end <= t.eof,
        r matches Ok((ty, q)) ==> is_primary_type(t.toks@, pos as int, q as int, ty),
        pos < t.toks@.len() && builtin_token(t.toks@[pos as int].0) is Some ==> (r matches Ok((_, q)) && q == pos + 1),
    decreases t.len() - pos, 0nat,
{
    if let Some(b) = builtin_at(t, pos) {
        return Ok((TypeRef::Builtin(b, t.toks[pos].1), pos + 1));
    }
    if is_ctrl(t, pos, '(') {
        let (inner, q) = sum_type(t, pos + 1)?;
        let q = expect_ctrl(t, q, ')', "')'")?;
        return Ok((inner, q));
    }
    if is_kw(t, pos, Kw::TyBox) {
        let q = expect_op(t, pos + 1, Operator::Less, "'<' after 'Box'")?;
        let (inner, q) = sum_type(t, q)?;
        let q = expect_op(t, q, Operator::Greater, "'>' closing 'Box<'")?;
        return Ok((TypeRef::Box(Box::new(inner), span_from(t, pos, q)), q));
    }
    let (first, mut q) = name_at(t, pos, "type")?;
    let mut segments = vec![first];
    proof {
        assert(segments@ == seq![first]);
    }
    while is_ctrl(t, q, '.')
        invariant
            t.wf(),
            pos < q <= t.len(),
            segments@.len() >= 1,
            dotted_names(t.toks@, pos as int, q as int, segments@),
            !(pos < t.toks@.len() && builtin_token(t.toks@[pos as int].0) is Some),
        decreases t.len() - q,
    {
        let (next, q2) = name_at(t, q + 1, "identifier")?;
        let ghost before = segments@;
        segments.push(next);
        proof {
            assert(segments@.drop_last() == before);
        }
        q = q2;
    }
    Ok((TypeRef::Named(segments, span_from(t, pos, q)), q))
}

/// `"Ref" "<" referent ">"` where the referent is a sum type or, reported as
/// an error, another reference.
fn reference_type(t: &Tokens, pos: usize) -> (r: Parsed<TypeRef>)
    requires
        t.wf(),
        pos < t.toks@.len(),
        token_at(t.toks@, pos as int, Token::Ref),
    ensures
        advanced(r, pos as int, t.len()),
        r matches Err(e) ==> e.0.start <= e.0.end <= t.eof,
        r matches Ok((ty, q)) ==> is_reference_type(t.toks@, pos as int, q as int, ty),
{
    let q = expect_op(t, pos + 1, Operator::Less, "'<' after 'Ref'")?;
    if is_kw(t, q, Kw::Ref) {
        return Err((span_at(t, q), owned(NESTED_REFERENCE)));
    }
    let (inner, q) = sum_type(t, q)?;
    let q = expect_op(t, q, Operator::Greater, "'>' closing 'Ref<'")?;
    Ok((inner, q))
}

/// Every type position but a parameter: a reference is rejected here.
fn type_ref(t: &Tokens, pos: usize) -> (r: Parsed<TypeRef>)
    requires
        t.wf(),
    ensures
        advanced(r, pos as int, t.len()),
        r matches Err(e) ==> e.0.start <= e.0.end <= t.eof,
        r matches Ok((ty, q)) ==> is_sum_type(t.toks@, pos as int, q as int, ty),
        pos < t.toks@.len() && builtin_token(t.toks@[pos as int].0) is Some && !ctrl_at(t.toks@, pos + 1, '|')
            ==> (r matches Ok((_, q)) && q == pos + 1),
{
    if is_kw(t, pos, Kw::Ref) {
        return Err((span_at(t, pos), owned(REFERENCE_OUTSIDE_A_PARAMETER)));
    }
    sum_type(t, pos)
}

/// `parameter = identifier ":" ( value-type | "Ref" "<" value-type ">" )`.
fn param(t: &Tokens, pos: usize) -> (r: Parsed<Param>)
    requires
        t.wf(),
    ensures
        advanced(r, pos as int, t.len()),
        r matches Err(e) ==> e.0.start <= e.0.end <= t.eof,
        r matches Ok((p, q)) ==> is_param(t.toks@, pos as int, q as int, p),
{
    let ((name, span), q) = name_at(t, pos, "parameter name")?;
    let q = expect_ctrl(t, q, ':', "':' after a parameter name")?;
    if is_kw(t, q, Kw::Ref) {
        let (ty, q) = reference_type(t, q)?;
        Ok((Param { name, mode: ParamMode::Reference, ty, span }, q))
    } else {
        let (ty, q) = sum_type(t, q)?;
        Ok((Param { name, mode: ParamMode::Value, ty, span }, q))
    }
}

/// `"(" [ parameter { "," parameter } [ "," ] ] ")"`.
fn params(t: &Tokens, pos: usize) -> (r: Parsed<Vec<Param>>)
    requires
        t.wf(),
    ensures
        advanced(r, pos as int, t.len()),
        r matches Err(e) ==> e.0.start <= e.0.end <= t.eof,
        r matches Ok((ps, q)) ==> is_params(t.toks@, pos as int, q as int, ps@),
{
    let mut q = expect_ctrl(t, pos, '(', "'(' opening the parameter list")?;
    let mut list: Vec<Param> = Vec::new();
    while !is_ctrl(t, q, ')')
        invariant
            t.wf(),
            pos < q <= t.len(),
            ctrl_at(t.toks@, pos as int, '('),
            params_separated(t.toks@, pos + 1, q as int, list@)
                || (ctrl_at(t.toks@, q as int, ')') && list@.len() > 0
                    && exists|m: int| #[trigger] split_at(pos + 1, m, q + 1) && m < q
                        && params_separated(t.toks@, pos + 1, m, list@.drop_last())
                        && is_param(t.toks@, m, q as int, list@.last())),
        decreases t.len() - q,
    {
        let (p, q2) = param(t, q)?;
        let ghost before = list@;
        list.push(p);
        proof {
            assert(list@.drop_last() == before);
            assert(split_at(pos + 1, q as int, q2 + 1));
        }
        let ghost at = q;
        q = q2;
        if is_ctrl(t, q, ',') {
            q = q + 1;
            proof {
                assert(split_at(pos + 1, at as int, q as int));
            }
        } else if !is_ctrl(t, q, ')') {
            return Err(expected(t, q, "',' or ')' in the parameter list"));
        }
    }
    Ok((list, q + 1))
}

/// An optional `":" type` result.
fn result_type(t: &Tokens, pos: usize) -> (r: Parsed<Option<TypeRef>>)
    requires
        t.wf(),
        pos <= t.len(),
    ensures
        r matches Ok((_, q)) ==> pos <= q <= t.len(),
        r matches Err(e) ==> e.0.start <= e.0.end <= t.eof,
        r matches Ok((ret, q)) ==> is_result_type(t.toks@, pos as int, q as int, ret),
{
    if is_ctrl(t, pos, ':') {
        let (ty, q) = type_ref(t, pos + 1)?;
        Ok((Some(ty), q))
    } else {
        Ok((None, pos))
    }
}

/// An expression: a left-associative chain of comparisons.
pub fn expression(t: &Tokens, pos: usize) -> (r: Parsed<SExpr>)
    requires
        t.wf(),
    ensures
        advanced(r, pos as int, t.len()),
        r matches Err(e) ==> e.0.start <= e.0.end <= t.eof,
        r matches Ok((e, q)) ==> is_expression(t.toks@, pos as int, q as int, e),
        literal_token_at(t.toks@, pos as int) && let_or_end_at(t.toks@, pos + 1) ==> (r matches Ok((_, q)) && q == pos + 1),
    decreases t.len() - pos, 4nat,
{
    let (mut left, mut q) = sum_expr(t, pos)?;
    loop
        invariant
            t.wf(),
            pos < q <= t.len(),
            is_expression(t.toks@, pos as int, q as int, left),
            literal_token_at(t.toks@, pos as int) && let_or_end_at(t.toks@, pos + 1) ==> q == pos + 1,
        decreases t.len() - q,
    {
        let op = if is_op(t, q, Operator::EqEq) { BinaryOp::Eq }
            else if is_op(t, q, Operator::NotEq) { BinaryOp::NotEq }
            else if is_op(t, q, Operator::Less) { BinaryOp::Less }
            else if is_op(t, q, Operator::LessEq) { BinaryOp::LessEq }
            else if is_op(t, q, Operator::Greater) { BinaryOp::Greater }
            else if is_op(t, q, Operator::GreaterEq) { BinaryOp::GreaterEq }
            else { return Ok((left, q)); };
        proof { assert(comparison_at(t.toks@, q as int) == Some(op)); }
        let (right, q2) = sum_expr(t, q + 1)?;
        let span = span_from(t, pos, q2);
        let ghost (l0, r0) = (left, right);
        left = SExpr { expr: Expr::Binary(Box::new(left), op, Box::new(right)), span };
        proof {
            assert(is_expression(t.toks@, pos as int, q as int, l0) && is_sum(t.toks@, q + 1, q2 as int, r0));
            assert(q + 1 < q2);
            assert(left.expr == Expr::Binary(Box::new(l0), op, Box::new(r0)));
            assert(is_expression(t.toks@, pos as int, q2 as int, left));
        }
        q = q2;
    }
}

fn sum_expr(t: &Tokens, pos: usize) -> (r: Parsed<SExpr>)
    requires
        t.wf(),
    ensures
        advanced(r, pos as int, t.len()),
        r matches Err(e) ==> e.0.start <= e.0.end <= t.eof,
        r matches Ok((e, q)) ==> is_sum(t.toks@, pos as int, q as int, e),
        literal_token_at(t.toks@, pos as int) && let_or_end_at(t.toks@, pos + 1) ==> (r matches Ok((_, q)) && q == pos + 1),
    decreases t.len() - pos, 3nat,
{
    let (mut left, mut q) = product_expr(t, pos)?;
    loop
        invariant
            t.wf(),
            pos < q <= t.len(),
            is_sum(t.toks@, pos as int, q as int, left),
            literal_token_at(t.toks@, pos as int) && let_or_end_at(t.toks@, pos + 1) ==> q == pos + 1,
        decreases t.len() - q,
    {
        let op = if is_op(t, q, Operator::Plus) { BinaryOp::Add }
            else if is_op(t, q, Operator::Minus) { BinaryOp::Sub }
            else { return Ok((left, q)); };
        proof { assert(additive_at(t.toks@, q as int) == Some(op)); }
        let (right, q2) = product_expr(t, q + 1)?;
        let span = span_from(t, pos, q2);
        let ghost (l0, r0) = (left, right);
        left = SExpr { expr: Expr::Binary(Box::new(left), op, Box::new(right)), span };
        proof {
            assert(is_sum(t.toks@, pos as int, q as int, l0) && is_product(t.toks@, q + 1, q2 as int, r0));
            assert(q + 1 < q2);
            assert(left.expr == Expr::Binary(Box::new(l0), op, Box::new(r0)));
            assert(is_sum(t.toks@, pos as int, q2 as int, left));
        }
        q = q2;
    }
}

fn product_expr(t: &Tokens, pos: usize) -> (r: Parsed<SExpr>)
    requires
        t.wf(),
    ensures
        advanced(r, pos as int, t.len()),
        r matches Err(e) ==> e.0.start <= e.0.end <= t.eof,
        r matches Ok((e, q)) ==> is_product(t.toks@, pos as int, q as int, e),
        literal_token_at(t.toks@, pos as int) && let_or_end_at(t.toks@, pos + 1) ==> (r matches Ok((_, q)) && q == pos + 1),
    decreases t.len() - pos, 2nat,
{
    let (mut left, mut q) = postfix_expr(t, pos)?;
    loop
        invariant
            t.wf(),
            pos < q <= t.len(),
            is_product(t.toks@, pos as int, q as int, left),
            literal_token_at(t.toks@, pos as int) && let_or_end_at(t.toks@, pos + 1) ==> q == pos + 1,
        decreases t.len() - q,
    {
        let op = if is_op(t, q, Operator::Star) { BinaryOp::Mul }
            else if is_op(t, q, Operator::Slash) { BinaryOp::Div }
            else { return Ok((left, q)); };
        proof { assert(multiplicative_at(t.toks@, q as int) == Some(op)); }
        let (right, q2) = postfix_expr(t, q + 1)?;
        let span = span_from(t, pos, q2);
        let ghost (l0, r0) = (left, right);
        left = SExpr { expr: Expr::Binary(Box::new(left), op, Box::new(right)), span };
        proof {
            assert(is_product(t.toks@, pos as int, q as int, l0) && is_postfix(t.toks@, q + 1, q2 as int, r0));
            assert(q + 1 < q2);
            assert(left.expr == Expr::Binary(Box::new(l0), op, Box::new(r0)));
            assert(is_product(t.toks@, pos as int, q2 as int, left));
        }
        q = q2;
    }
}

/// `postfix = atom { "(" arguments ")" | "." identifier }`.
fn postfix_expr(t: &Tokens, pos: usize) -> (r: Parsed<SExpr>)
    requires
        t.wf(),
    ensures
        advanced(r, pos as int, t.len()),
        r matches Err(e) ==> e.0.start <= e.0.end <= t.eof,
        r matches Ok((e, q)) ==> is_postfix(t.toks@, pos as int, q as int, e),
        literal_token_at(t.toks@, pos as int) && let_or_end_at(t.toks@, pos + 1) ==> (r matches Ok((_, q)) && q == pos + 1),
    decreases t.len() - pos, 1nat,
{
    let (mut base, mut q) = atom(t, pos)?;
    loop
        invariant
            t.wf(),
            pos < q <= t.len(),
            is_postfix(t.toks@, pos as int, q as int, base),
            literal_token_at(t.toks@, pos as int) && let_or_end_at(t.toks@, pos + 1) ==> q == pos + 1,
        decreases t.len() - q,
    {
        if is_ctrl(t, q, '(') {
            let open = q;
            let (args, q2) = arguments(t, q + 1)?;
            let args_span = span_from(t, open, q2);
            let span = span_from(t, pos, q2);
            let ghost (b0, a0) = (base, args);
            base = SExpr { expr: Expr::Call(Box::new(base), args, args_span), span };
            proof {
                assert(ctrl_at(t.toks@, q as int, '(') && is_postfix(t.toks@, pos as int, q as int, b0)
                    && arguments_close(t.toks@, q + 1, q2 as int, a0@));
                assert(base.expr == Expr::Call(Box::new(b0), a0, args_span));
                assert(is_postfix(t.toks@, pos as int, q2 as int, base));
            }
            q = q2;
        } else if is_ctrl(t, q, '.') {
            let ((name, name_span), q2) = name_at(t, q + 1, "a field or method name after '.'")?;
            let span = span_from(t, pos, q2);
            let ghost b0 = base;
            base = SExpr { expr: Expr::Member(Box::new(base), name, name_span), span };
            proof {
                assert(is_postfix(t.toks@, pos as int, q as int, b0));
                assert(is_postfix(t.toks@, pos as int, q2 as int, base));
            }
            q = q2;
        } else {
            return Ok((base, q));
        }
    }
}

/// `[ argument { "," argument } [ "," ] ] ")"`, after the opening `(`.
fn arguments(t: &Tokens, pos: usize) -> (r: Parsed<Vec<Arg>>)
    requires
        t.wf(),
        pos <= t.len(),
    ensures
        r matches Ok((_, q)) ==> pos < q <= t.len(),
        r matches Err(e) ==> e.0.start <= e.0.end <= t.eof,
        r matches Ok((args, q)) ==> arguments_close(t.toks@, pos as int, q as int, args@),
    decreases t.len() - pos, 5nat,
{
    let mut q = pos;
    let mut list: Vec<Arg> = Vec::new();
    while !is_ctrl(t, q, ')')
        invariant
            t.wf(),
            pos <= q <= t.len(),
            arguments_separated(t.toks@, pos as int, q as int, list@)
                || (ctrl_at(t.toks@, q as int, ')') && list@.len() > 0
                    && exists|m: int| #[trigger] split_at(pos as int, m, q + 1) && m < q
                        && arguments_separated(t.toks@, pos as int, m, list@.drop_last())
                        && is_argument(t.toks@, m, q as int, list@.last())),
        decreases t.len() - q,
    {
        let mut name = None;
        let mut start = q;
        if q < t.toks.len() && is_ctrl(t, q + 1, ':') {
            if let Token::Ident(n) = &t.toks[q].0 {
                name = Some((n.clone(), t.toks[q].1));
                start = q + 2;
            }
        }
        let (value, q2) = expression(t, start)?;
        let arg = Arg { name, value };
        proof {
            assert(is_argument(t.toks@, q as int, q2 as int, arg));
        }
        let ghost before = list@;
        list.push(arg);
        proof {
            assert(list@.drop_last() == before);
            assert(split_at(pos as int, q as int, q2 + 1));
        }
        let ghost at = q;
        q = q2;
        if is_ctrl(t, q, ',') {
            q = q + 1;
            proof {
                assert(split_at(pos as int, at as int, q as int));
            }
        } else if !is_ctrl(t, q, ')') {
            return Err(expected(t, q, "',' or ')' in the argument list"));
        }
    }
    Ok((list, q + 1))
}

/// `atom = value | "self" | builtin | identifier | list | print | box | "(" expression ")"`.
fn atom(t: &Tokens, pos: usize) -> (r: Parsed<SExpr>)
    requires
        t.wf(),
    ensures
        advanced(r, pos as int, t.len()),
        r matches Err(e) ==> e.0.start <= e.0.end <= t.eof,
        r matches Ok((e, q)) ==> is_atom(t.toks@, pos as int, q as int, e),
        literal_token_at(t.toks@, pos as int) ==> (r matches Ok((_, q)) && q == pos + 1),
    decreases t.len() - pos, 0nat,
{
    if pos >= t.toks.len() {
        return Err(expected(t, pos, "expression"));
    }
    let span = t.toks[pos].1;
    if let Some(b) = builtin_at(t, pos) {
        return Ok((SExpr { expr: Expr::BuiltinType(b), span }, pos + 1));
    }
    match &t.toks[pos].0 {
        Token::Nil => Ok((SExpr { expr: Expr::Value(Value::Nil), span }, pos + 1)),
        Token::Bool(b) => Ok((SExpr { expr: Expr::Value(Value::Bool(*b)), span }, pos + 1)),
        Token::Num(n) => Ok((SExpr { expr: Expr::Value(Value::Num(crate::lexer::copy_number(n))), span }, pos + 1)),
        Token::Str(s) => Ok((SExpr { expr: Expr::Value(Value::Str(s.clone())), span }, pos + 1)),
        Token::SelfKw => Ok((SExpr { expr: Expr::SelfRef, span }, pos + 1)),
        Token::Ident(n) => Ok((SExpr { expr: Expr::Local(n.clone()), span }, pos + 1)),
        Token::Ctrl('[') => {
            let mut q = pos + 1;
            let mut items: Vec<SExpr> = Vec::new();
            while !is_ctrl(t, q, ']')
                invariant
                    t.wf(),
                    pos < q <= t.len(),
                    !literal_token_at(t.toks@, pos as int),
                    items_separated(t.toks@, pos + 1, q as int, items@)
                        || (ctrl_at(t.toks@, q as int, ']') && items@.len() > 0
                            && exists|m: int| #[trigger] split_at(pos + 1, m, q + 1) && m < q
                                && items_separated(t.toks@, pos + 1, m, items@.drop_last())
                                && is_expression(t.toks@, m, q as int, items@.last())),
                decreases t.len() - q,
            {
                let (item, q2) = expression(t, q)?;
                let ghost before = items@;
                items.push(item);
                proof {
                    assert(items@.drop_last() == before);
                    assert(split_at(pos + 1, q as int, q2 + 1));
                }
                let ghost at = q;
                q = q2;
                if is_ctrl(t, q, ',') {
                    q = q + 1;
                    proof {
                        assert(split_at(pos + 1, at as int, q as int));
                    }
                } else if !is_ctrl(t, q, ']') {
                    return Err(expected(t, q, "',' or ']' in the list"));
                }
            }
            Ok((SExpr { expr: Expr::List(items), span: span_from(t, pos, q + 1) }, q + 1))
        }
        Token::Ctrl('(') => {
            let (inner, q) = expression(t, pos + 1)?;
            let q = expect_ctrl(t, q, ')', "')'")?;
            Ok((inner, q))
        }
        Token::Print => {
            let q = expect_ctrl(t, pos + 1, '(', "'(' after 'print'")?;
            let (inner, q) = expression(t, q)?;
            let q = expect_ctrl(t, q, ')', "')' closing 'print('")?;
            Ok((SExpr { expr: Expr::Print(Box::new(inner)), span: span_from(t, pos, q) }, q))
        }
        Token::BoxKw => {
            let q = expect_ctrl(t, pos + 1, '(', "'(' after 'box'")?;
            let (inner, q) = expression(t, q)?;
            let q = expect_ctrl(t, q, ')', "')' closing 'box('")?;
            Ok((SExpr { expr: Expr::Box(Box::new(inner)), span: span_from(t, pos, q) }, q))
        }
        _ => Err(expected(t, pos, "expression")),
    }
}


/// The tokens a block element can begin with: a statement keyword, or the
/// first token of an expression.
spec fn element_start(t: Token) -> bool {
    match t {
        Token::Let | Token::While | Token::Break | Token::If | Token::Ident(_) | Token::SelfKw
        | Token::Nil | Token::Bool(_) | Token::Num(_) | Token::Str(_) | Token::Print
        | Token::BoxKw | Token::TyDec64 | Token::TyInt64 | Token::TyBool | Token::TyNil
        | Token::TyUInt8 | Token::TyUInt16 | Token::TyUInt32 | Token::TyUInt64
        | Token::TyFloat32 => true,
        Token::Ctrl(c) => c == '(' || c == '[',
        _ => false,
    }
}

/// Whether the token at `pos` can begin a block element.
fn starts_element(t: &Tokens, pos: usize) -> (r: bool)
    ensures
        r ==> pos < t.toks@.len(),
        r == (pos < t.toks@.len() && element_start(t.toks@[pos as int].0)),
{
    if pos >= t.toks.len() {
        return false;
    }
    match &t.toks[pos].0 {
        Token::Let | Token::While | Token::Break | Token::If | Token::Ident(_) | Token::SelfKw
        | Token::Nil | Token::Bool(_) | Token::Num(_) | Token::Str(_) | Token::Print
        | Token::BoxKw | Token::TyDec64 | Token::TyInt64 | Token::TyBool | Token::TyNil
        | Token::TyUInt8 | Token::TyUInt16 | Token::TyUInt32 | Token::TyUInt64
        | Token::TyFloat32 => true,
        Token::Ctrl(c) => *c == '(' || *c == '[',
        _ => false,
    }
}

/// `place = ( identifier | "self" ) { "." identifier }`, when one starts at
/// `pos`.
fn place(t: &Tokens, pos: usize) -> (r: Option<(PlacePath, usize)>)
    requires
        t.wf(),
    ensures
        r matches Some((_, q)) ==> pos < q <= t.len(),
        r matches Some((p, q)) ==> is_place(t.toks@, pos as int, q as int, p),
        r is None <==> !(pos < t.toks@.len() && (t.toks@[pos as int].0 is Ident || t.toks@[pos as int].0 is SelfKw)),
{
    if pos >= t.toks.len() {
        return None;
    }
    let root = match &t.toks[pos].0 {
        Token::Ident(n) => PlaceRootName::Name(n.clone()),
        Token::SelfKw => PlaceRootName::SelfRef,
        _ => return None,
    };
    let root_span = t.toks[pos].1;
    let mut q = pos + 1;
    let mut fields: Vec<(String, Span)> = Vec::new();
    while is_ctrl(t, q, '.') && q + 1 < t.toks.len()
        invariant
            t.wf(),
            pos < q <= t.len(),
            place_fields(t.toks@, pos + 1, q as int, fields@),
        decreases t.len() - q,
    {
        match &t.toks[q + 1].0 {
            Token::Ident(n) => {
                let ghost before = fields@;
                fields.push((n.clone(), t.toks[q + 1].1));
                proof {
                    assert(fields@.drop_last() == before);
                }
                q = q + 2;
            }
            _ => break,
        }
    }
    Some((PlacePath { root, root_span, fields, span: span_from(t, pos, q) }, q))
}

/// A type-test member segment: an identifier or a built-in type name.
fn segment(t: &Tokens, pos: usize) -> (r: Parsed<(String, Span)>)
    requires
        t.wf(),
    ensures
        r matches Ok((_, q)) ==> q == pos + 1 && q <= t.len(),
        r matches Ok((s, _)) ==> segment_at(t.toks@, pos as int) == Some(s.0@),
        r matches Err(e) ==> e.0.start <= e.0.end <= t.eof,
{
    if pos < t.toks.len() {
        let sp = t.toks[pos].1;
        let text = match &t.toks[pos].0 {
            Token::Ident(n) => Some(n.clone()),
            Token::TyNil => Some(owned("Nil")),
            Token::TyDec64 => Some(owned("Dec64")),
            Token::TyInt64 => Some(owned("Int64")),
            Token::TyBool => Some(owned("Bool")),
            Token::TyUInt8 => Some(owned("UInt8")),
            Token::TyUInt16 => Some(owned("UInt16")),
            Token::TyUInt32 => Some(owned("UInt32")),
            Token::TyUInt64 => Some(owned("UInt64")),
            Token::TyFloat32 => Some(owned("Float32")),
            _ => None,
        };
        if let Some(text) = text {
            return Ok(((text, sp), pos + 1));
        }
    }
    Err(expected(t, pos, "a member type name"))
}

/// `condition = type-test | expression`, where
/// `type-test = place "is" segment { "." segment } [ "(" identifier ")" ]`.
fn condition(t: &Tokens, pos: usize) -> (r: Parsed<Condition>)
    requires
        t.wf(),
    ensures
        advanced(r, pos as int, t.len()),
        r matches Err(e) ==> e.0.start <= e.0.end <= t.eof,
        r matches Ok((c, q)) ==> is_condition(t.toks@, pos as int, q as int, c),
{
    if let Some((subject, q)) = place(t, pos) {
        if is_kw(t, q, Kw::Is) {
            let member_start = q + 1;
            let (first, mut q) = segment(t, member_start)?;
            let mut member = vec![first];
            proof {
                assert(member@ == seq![first]);
            }
            while is_ctrl(t, q, '.')
                invariant
                    t.wf(),
                    member_start < q <= t.len(),
                    pos < member_start,
                    member@.len() >= 1,
                    member_segments(t.toks@, member_start as int, q as int, member@),
                decreases t.len() - q,
            {
                let (next, q2) = segment(t, q + 1)?;
                let ghost before = member@;
                member.push(next);
                proof {
                    assert(member@.drop_last() == before);
                }
                q = q2;
            }
            let ghost k = q;
            let member_span = span_from(t, member_start, q);
            let mut binding = None;
            if is_ctrl(t, q, '(') {
                let (name, q2) = name_at(t, q + 1, "a binding name")?;
                let q2 = expect_ctrl(t, q2, ')', "')' closing the binding")?;
                binding = Some(name);
                q = q2;
            }
            let span = span_from(t, pos, q);
            let test = TypeTest { place: subject, member, member_span, binding, span };
            proof {
                assert(token_at(t.toks@, member_start - 1, Token::Is));
                assert(is_type_test(t.toks@, pos as int, q as int, test));
            }
            return Ok((Condition::TypeTest(test), q));
        }
    }
    let (e, q) = expression(t, pos)?;
    Ok((Condition::Expr(e), q))
}

/// A possibly empty run of block elements, stopping before the first token
/// that cannot begin one.
fn block(t: &Tokens, pos: usize) -> (r: Parsed<Block>)
    requires
        t.wf(),
        pos <= t.len(),
    ensures
        r matches Ok((_, q)) ==> pos <= q <= t.len(),
        r matches Err(e) ==> e.0.start <= e.0.end <= t.eof,
        r matches Ok((b, q)) ==> is_block(t.toks@, pos as int, q as int, b),
    decreases t.len() - pos, 2nat,
{
    let mut q = pos;
    let mut elements: Vec<Element> = Vec::new();
    while starts_element(t, q)
        invariant
            t.wf(),
            pos <= q <= t.len(),
            elements_run(t.toks@, pos as int, q as int, elements@),
        decreases t.len() - q,
    {
        let (e, q2) = element(t, q)?;
        let ghost before = elements@;
        elements.push(e);
        proof {
            assert(elements@.drop_last() == before);
            assert(split_at(pos as int, q as int, q2 as int));
        }
        q = q2;
    }
    let span = if q > pos {
        span_from(t, pos, q)
    } else {
        let s = span_at(t, pos);
        Span { start: s.start, end: s.start }
    };
    Ok((Block { elements, span }, q))
}

/// `if condition "then" block { "elseif" condition "then" block } [ "else" block ] "end"`,
/// after the `if`.
fn if_form(t: &Tokens, start: usize, pos: usize) -> (r: Parsed<IfForm>)
    requires
        t.wf(),
        start < pos <= t.len(),
    ensures
        r matches Ok((_, q)) ==> pos < q <= t.len(),
        r matches Err(e) ==> e.0.start <= e.0.end <= t.eof,
        r matches Ok((f, q)) ==> is_if_form(t.toks@, pos as int, q as int, f),
    decreases t.len() - pos, 3nat,
{
    let mut arms: Vec<(Condition, Block)> = Vec::new();
    let (c, q) = condition(t, pos)?;
    let ghost at_then = q;
    let q = expect_kw(t, q, Kw::Then, "'then'")?;
    let (b, mut q) = block(t, q)?;
    arms.push((c, b));
    proof {
        assert(token_at(t.toks@, at_then as int, Token::Then));
        assert(is_arm(t.toks@, pos as int, q as int, arms@[0]));
    }
    while is_kw(t, q, Kw::ElseIf)
        invariant
            t.wf(),
            pos < q <= t.len(),
            arms@.len() >= 1,
            arms_run(t.toks@, pos as int, q as int, arms@),
        decreases t.len() - q,
    {
        let (c, q2) = condition(t, q + 1)?;
        let ghost at_then = q2;
        let q2 = expect_kw(t, q2, Kw::Then, "'then'")?;
        let (b, q2) = block(t, q2)?;
        let ghost before = arms@;
        arms.push((c, b));
        proof {
            assert(arms@.drop_last() == before);
            assert(token_at(t.toks@, at_then as int, Token::Then));
            assert(is_arm(t.toks@, q + 1, q2 as int, arms@.last()));
            assert(token_at(t.toks@, q as int, Token::ElseIf));
        }
        q = q2;
    }
    let mut else_branch = None;
    let ghost at_else = q;
    if is_kw(t, q, Kw::Else) {
        let (b, q2) = block(t, q + 1)?;
        else_branch = Some(b);
        q = q2;
    }
    let q = expect_kw(t, q, Kw::End, "'end' closing 'if'")?;
    let form = IfForm { arms, else_branch, span: span_from(t, start, q) };
    proof {
        if form.else_branch is Some {
            assert(token_at(t.toks@, at_else as int, Token::Else));
        }
    }
    Ok((form, q))
}

/// `element = let | while | "break" | if | assignment | expression`.
fn element(t: &Tokens, pos: usize) -> (r: Parsed<Element>)
    requires
        t.wf(),
    ensures
        advanced(r, pos as int, t.len()),
        r matches Err(e) ==> e.0.start <= e.0.end <= t.eof,
        r matches Ok((el, q)) ==> is_element(t.toks@, pos as int, q as int, el),
        literal_let_end(t.toks@, pos as int) is Some && let_or_end_at(t.toks@, literal_let_end(t.toks@, pos as int)->Some_0)
            ==> (r matches Ok((el, q)) && q == literal_let_end(t.toks@, pos as int)->Some_0 && el.kind is Let),
    decreases t.len() - pos, 1nat,
{
    if is_kw(t, pos, Kw::Let) {
        let mut q = pos + 1;
        let mut mutable = false;
        if is_kw(t, q, Kw::Mut) {
            mutable = true;
            q = q + 1;
        }
        let ((name, name_span), q) = name_at(t, q, "a variable name")?;
        let q = expect_ctrl(t, q, ':', "':' after the variable name")?;
        let (ty, q) = type_ref(t, q)?;
        let ghost at_assign = q;
        let q = expect_op(t, q, Operator::Assign, "'=' in the declaration")?;
        let (value, q) = expression(t, q)?;
        let kind = BlockElement::Let { mutable, name, name_span, ty, value };
        let el = Element { kind, span: span_from(t, pos, q) };
        proof {
            assert(token_at(t.toks@, at_assign as int, Token::Op(Operator::Assign)));
        }
        return Ok((el, q));
    }
    if is_kw(t, pos, Kw::While) {
        let (condition, q) = expression(t, pos + 1)?;
        let ghost at_do = q;
        let q = expect_kw(t, q, Kw::Do, "'do'")?;
        let (body, q) = block(t, q)?;
        let q = expect_kw(t, q, Kw::End, "'end' closing 'while'")?;
        let el = Element { kind: BlockElement::While { condition, body }, span: span_from(t, pos, q) };
        proof {
            assert(token_at(t.toks@, at_do as int, Token::Do));
        }
        return Ok((el, q));
    }
    if is_kw(t, pos, Kw::Break) {
        let span = t.toks[pos].1;
        return Ok((Element { kind: BlockElement::Break(span), span }, pos + 1));
    }
    if is_kw(t, pos, Kw::If) {
        let (form, q) = if_form(t, pos, pos + 1)?;
        return Ok((Element { kind: BlockElement::If(form), span: span_from(t, pos, q) }, q));
    }
    if let Some((target, q)) = place(t, pos) {
        if is_op(t, q, Operator::Assign) {
            let ghost at_assign = q;
            let (value, q) = expression(t, q + 1)?;
            let el = Element { kind: BlockElement::Assign { place: target, value }, span: span_from(t, pos, q) };
            proof {
                assert(token_at(t.toks@, at_assign as int, Token::Op(Operator::Assign)));
            }
            return Ok((el, q));
        }
    }
    let (e, q) = expression(t, pos)?;
    let span = e.span;
    Ok((Element { kind: BlockElement::Expr(e), span }, q))
}


/// `struct { name ":" type [","] } end`, after the `struct`.
fn struct_fields(t: &Tokens, pos: usize) -> (r: Parsed<Vec<FieldDecl>>)
    requires
        t.wf(),
        pos <= t.len(),
    ensures
        r matches Ok((_, q)) ==> pos < q <= t.len(),
        r matches Err(e) ==> e.0.start <= e.0.end <= t.eof,
        r matches Ok((fs, q)) ==> is_struct_body(t.toks@, pos as int, q as int, fs@),
{
    let mut q = pos;
    let mut fields: Vec<FieldDecl> = Vec::new();
    while !is_kw(t, q, Kw::End)
        invariant
            t.wf(),
            pos <= q <= t.len(),
            fields_run(t.toks@, pos as int, q as int, fields@),
        decreases t.len() - q,
    {
        let ghost at = q;
        let ((name, name_span), q2) = name_at(t, q, "a field name or 'end'")?;
        let q2 = expect_ctrl(t, q2, ':', "':' after the field name")?;
        let (ty, q2) = type_ref(t, q2)?;
        let ghost before = fields@;
        fields.push(FieldDecl { name, name_span, ty });
        q = q2;
        if is_ctrl(t, q, ',') {
            q = q + 1;
        }
        proof {
            assert(fields@.drop_last() == before);
            assert(is_field(t.toks@, at as int, q as int, fields@.last()));
            assert(split_at(pos as int, at as int, q as int));
        }
    }
    Ok((fields, q + 1))
}

/// `union member { member } end`, after the `union`, where
/// `member = "|" ( "Nil" | identifier ) [ "is" "struct" fields "end" ]`.
fn union_members(t: &Tokens, pos: usize) -> (r: Parsed<Vec<UnionMemberDecl>>)
    requires
        t.wf(),
        pos <= t.len(),
    ensures
        r matches Ok((_, q)) ==> pos < q <= t.len(),
        r matches Err(e) ==> e.0.start <= e.0.end <= t.eof,
        r matches Ok((ms, q)) ==> ms@.len() > 0 && token_at(t.toks@, q - 1, Token::End)
            && members_run(t.toks@, pos as int, q - 1, ms@),
{
    let mut q = pos;
    let mut members: Vec<UnionMemberDecl> = Vec::new();
    loop
        invariant
            t.wf(),
            pos <= q <= t.len(),
            members_run(t.toks@, pos as int, q as int, members@),
        decreases t.len() - q,
    {
        let ghost start = q;
        if !is_ctrl(t, q, '|') {
            if members.len() > 0 && is_kw(t, q, Kw::End) {
                return Ok((members, q + 1));
            }
            return Err(expected(t, q, "'|' beginning a union member"));
        }
        let at = q + 1;
        if at >= t.toks.len() {
            return Err(expected(t, at, "a union member name"));
        }
        let name_span = t.toks[at].1;
        let (name, nil) = match &t.toks[at].0 {
            Token::TyNil => (owned("Nil"), true),
            Token::Ident(n) => (n.clone(), false),
            _ => return Err(expected(t, at, "a union member name")),
        };
        q = at + 1;
        let mut fields = Vec::new();
        if is_kw(t, q, Kw::Is) {
            let q2 = expect_kw(t, q + 1, Kw::Struct, "'struct' after 'is'")?;
            let (f, q2) = struct_fields(t, q2)?;
            fields = f;
            q = q2;
        }
        let ghost before = members@;
        members.push(UnionMemberDecl { name, name_span, nil, fields });
        proof {
            assert(members@.drop_last() == before);
            assert(is_union_member(t.toks@, start as int, q as int, members@.last()));
            assert(split_at(pos as int, start as int, q as int));
        }
    }
}

/// `type name "is" ( struct | union | type )`, after the `type`.
fn type_decl(t: &Tokens, start: usize) -> (r: Parsed<TypeDecl>)
    requires
        t.wf(),
        start < t.len(),
        token_at(t.toks@, start as int, Token::Type),
    ensures
        advanced(r, start as int, t.len()),
        r matches Err(e) ==> e.0.start <= e.0.end <= t.eof,
        r matches Ok((d, q)) ==> is_type_decl(t.toks@, start as int, q as int, d),
{
    let ((name, name_span), q) = name_at(t, start + 1, "a type name")?;
    let q = expect_kw(t, q, Kw::Is, "'is' after the type name")?;
    let (body, q) = if is_kw(t, q, Kw::Struct) {
        let (f, q) = struct_fields(t, q + 1)?;
        (TypeBody::Struct(f), q)
    } else if is_kw(t, q, Kw::Union) {
        let (m, q) = union_members(t, q + 1)?;
        (TypeBody::Union(m), q)
    } else {
        let (ty, q) = type_ref(t, q)?;
        (TypeBody::Represented(ty), q)
    };
    Ok((TypeDecl { name, name_span, body, span: span_from(t, start, q) }, q))
}

/// `params [ ":" type ] "do" block "end"`, the shared tail of a function
/// and a method.
fn callable_tail(t: &Tokens, pos: usize) -> (r: Parsed<(Vec<Param>, Option<TypeRef>, Block)>)
    requires
        t.wf(),
    ensures
        advanced(r, pos as int, t.len()),
        r matches Err(e) ==> e.0.start <= e.0.end <= t.eof,
        r matches Ok((c, q)) ==> is_callable_tail(t.toks@, pos as int, q as int, c.0@, c.1, c.2),
{
    let (args, q) = params(t, pos)?;
    let ghost m = q;
    let (ret, q) = result_type(t, q)?;
    let ghost d = q;
    let q = expect_kw(t, q, Kw::Do, "'do'")?;
    let (body, q) = block(t, q)?;
    let q = expect_kw(t, q, Kw::End, "'end' closing the body")?;
    proof {
        assert(token_at(t.toks@, d as int, Token::Do));
        assert(split_at(pos as int, m as int, d as int));
    }
    Ok(((args, ret, body), q))
}

/// One top-level declaration or element.
enum Item {
    Func(Func),
    Extern(ExternFunc),
    Type(TypeDecl),
    Method(MethodDecl),
    Element(Element),
}

/// What an item was read from.
spec fn item_read(toks: Seq<(Token, Span)>, lo: int, hi: int, it: Item) -> bool {
    match it {
        Item::Func(f) => is_func(toks, lo, hi, f),
        Item::Extern(f) => is_extern(toks, lo, hi, f),
        Item::Type(d) => is_type_decl(toks, lo, hi, d),
        Item::Method(m) => is_method(toks, lo, hi, m),
        Item::Element(e) => is_element(toks, lo, hi, e),
    }
}

fn item(t: &Tokens, pos: usize) -> (r: Parsed<Item>)
    requires
        t.wf(),
    ensures
        advanced(r, pos as int, t.len()),
        r matches Err(e) ==> e.0.start <= e.0.end <= t.eof,
        r matches Ok((it, q)) ==> item_read(t.toks@, pos as int, q as int, it),
        literal_let_end(t.toks@, pos as int) is Some && let_or_end_at(t.toks@, literal_let_end(t.toks@, pos as int)->Some_0)
            ==> (r matches Ok((it, q)) && q == literal_let_end(t.toks@, pos as int)->Some_0 && it is Element),
{
    if is_kw(t, pos, Kw::Extern) {
        let q = expect_kw(t, pos + 1, Kw::Rust, "'rust' after 'extern'")?;
        let symbol = match if q < t.toks.len() { Some(&t.toks[q].0) } else { None } {
            Some(Token::Str(s)) => s.clone(),
            _ => return Err(expected(t, q, "link symbol")),
        };
        let q = expect_kw(t, q + 1, Kw::Fun, "'fun'")?;
        let ((name, name_span), q) = name_at(t, q, "function name")?;
        let (args, q) = params(t, q)?;
        let ghost m = q;
        let (ret, q) = result_type(t, q)?;
        proof {
            assert(split_at(pos + 5, m as int, q as int));
        }
        let span = span_from(t, pos, q);
        return Ok((Item::Extern(ExternFunc { name, name_span, symbol, args, ret, span }), q));
    }
    if is_kw(t, pos, Kw::Fun) {
        let ((name, name_span), q) = name_at(t, pos + 1, "function name")?;
        let ((args, ret, body), q) = callable_tail(t, q)?;
        let span = span_from(t, pos, q);
        return Ok((Item::Func(Func { name, name_span, args, ret, span, body }), q));
    }
    if is_kw(t, pos, Kw::Type) {
        let (d, q) = type_decl(t, pos)?;
        return Ok((Item::Type(d), q));
    }
    if is_kw(t, pos, Kw::Method) {
        let (first, mut q) = name_at(t, pos + 1, "method name")?;
        let mut path = vec![first];
        proof {
            assert(path@ == seq![first]);
        }
        while is_ctrl(t, q, '.')
            invariant
                t.wf(),
                pos < q <= t.len(),
                path@.len() >= 1,
                dotted_names(t.toks@, pos + 1, q as int, path@),
                token_at(t.toks@, pos as int, Token::Method),
            decreases t.len() - q,
        {
            let (next, q2) = name_at(t, q + 1, "method name")?;
            let ghost before = path@;
            path.push(next);
            proof {
                assert(path@.drop_last() == before);
            }
            q = q2;
        }
        let ghost k = q;
        let ((args, ret, body), q) = callable_tail(t, q)?;
        proof {
            assert(split_at(pos + 1, k as int, q as int));
        }
        let span = span_from(t, pos, q);
        return Ok((Item::Method(MethodDecl { path, args, ret, span, body }), q));
    }
    if starts_element(t, pos) {
        let (e, q) = element(t, pos)?;
        return Ok((Item::Element(e), q));
    }
    Err(expected(t, pos, "a declaration or a block element"))
}

/// Whether no two functions or bridges share a name.
pub open spec fn callable_names_distinct(funcs: Seq<Func>, externs: Seq<ExternFunc>) -> bool {
    &&& forall|i: int, j: int| 0 <= i < j < funcs.len() ==> (#[trigger] funcs[i]).name@ != (#[trigger] funcs[j]).name@
    &&& forall|i: int, j: int| 0 <= i < j < externs.len() ==> (#[trigger] externs[i]).name@ != (#[trigger] externs[j]).name@
    &&& forall|i: int, j: int| 0 <= i < funcs.len() && 0 <= j < externs.len() ==> (#[trigger] funcs[i]).name@ != (#[trigger] externs[j]).name@
}

/// Whether no two bridges share a link symbol.
pub open spec fn symbols_distinct(externs: Seq<ExternFunc>) -> bool {
    forall|i: int, j: int| 0 <= i < j < externs.len() ==> (#[trigger] externs[i]).symbol@ != (#[trigger] externs[j]).symbol@
}

fn has_callable(funcs: &Vec<Func>, externs: &Vec<ExternFunc>, name: &String) -> (r: bool)
    ensures
        r == ((exists|i: int| 0 <= i < funcs@.len() && (#[trigger] funcs@[i]).name@ == name@)
            || (exists|j: int| 0 <= j < externs@.len() && (#[trigger] externs@[j]).name@ == name@)),
{
    let mut i: usize = 0;
    while i < funcs.len()
        invariant
            i <= funcs@.len(),
            forall|k: int| 0 <= k < i ==> (#[trigger] funcs@[k]).name@ != name@,
        decreases funcs.len() - i,
    {
        if same(&funcs[i].name, name) {
            return true;
        }
        i = i + 1;
    }
    let mut j: usize = 0;
    while j < externs.len()
        invariant
            j <= externs@.len(),
            forall|k: int| 0 <= k < funcs@.len() ==> (#[trigger] funcs@[k]).name@ != name@,
            forall|k: int| 0 <= k < j ==> (#[trigger] externs@[k]).name@ != name@,
        decreases externs.len() - j,
    {
        if same(&externs[j].name, name) {
            return true;
        }
        j = j + 1;
    }
    false
}

/// Parses a whole token stream. A syntax error stops parsing; afterwards
/// every repeated function or bridge name and repeated link symbol is
/// reported.
pub fn parse_program(t: &Tokens) -> (r: Result<Program, Vec<ParseError>>)
    requires
        t.wf(),
    ensures
        r matches Err(es) ==> es@.len() > 0,
        r matches Ok(p) ==> callable_names_distinct(p.funcs@, p.externs@) && symbols_distinct(p.externs@),
        r matches Ok(p) ==> is_program(t.toks@, p),
        literal_lets_from(t.toks@, 0) ==> r is Ok,
{
    let mut q: usize = 0;
    let mut funcs: Vec<Func> = Vec::new();
    let mut externs: Vec<ExternFunc> = Vec::new();
    let mut types: Vec<TypeDecl> = Vec::new();
    let mut methods: Vec<MethodDecl> = Vec::new();
    let mut elements: Vec<Element> = Vec::new();
    let mut errors: Vec<ParseError> = Vec::new();
    while q < t.toks.len()
        invariant
            t.wf(),
            q <= t.len(),
            callable_names_distinct(funcs@, externs@),
            errors@.len() == 0 ==> symbols_distinct(externs@),
            errors@.len() == 0 ==> items_run(t.toks@, 0, q as int, funcs@, externs@, types@, methods@, elements@),
            literal_lets_from(t.toks@, 0) ==> literal_lets_from(t.toks@, q as int) && errors@.len() == 0,
        decreases t.len() - q,
    {
        proof {
            if literal_lets_from(t.toks@, 0) {
                assert(literal_lets_from(t.toks@, q as int));
                assert(literal_let_end(t.toks@, q as int) is Some);
                let e = literal_let_end(t.toks@, q as int)->Some_0;
                assert(literal_lets_from(t.toks@, e));
                if e < t.toks@.len() {
                    assert(literal_let_end(t.toks@, e) is Some);
                    assert(let_or_end_at(t.toks@, e));
                }
            }
        }
        match item(t, q) {
            Err(e) => {
                let mut one = Vec::new();
                one.push(e);
                return Err(one);
            }
            Ok((it, q2)) => {
                let ghost (q0, f0, x0, t0, m0, e0) = (q, funcs@, externs@, types@, methods@, elements@);
                proof {
                    assert(split_at(0, q0 as int, q2 as int));
                }
                q = q2;
                match it {
                    Item::Func(f) => {
                        if has_callable(&funcs, &externs, &f.name) {
                            errors.push((f.name_span, concat3("Function '", &f.name, "' already exists")));
                        } else {
                            funcs.push(f);
                            proof {
                                assert(funcs@.drop_last() == f0);
                            }
                        }
                    }
                    Item::Extern(f) => {
                        if has_callable(&funcs, &externs, &f.name) {
                            errors.push((f.name_span, concat3("Function '", &f.name, "' already exists")));
                        } else {
                            let mut k: usize = 0;
                            let ghost before_errors = errors@.len();
                            while k < externs.len()
                                invariant
                                    k <= externs@.len(),
                                    errors@.len() >= before_errors,
                                    errors@.len() == before_errors ==> forall|m: int| 0 <= m < k ==> (#[trigger] externs@[m]).symbol@ != f.symbol@,
                                ensures
                                    errors@.len() >= before_errors,
                                    errors@.len() == before_errors ==> forall|m: int| 0 <= m < externs@.len() ==> (#[trigger] externs@[m]).symbol@ != f.symbol@,
                                decreases externs.len() - k,
                            {
                                if same(&externs[k].symbol, &f.symbol) {
                                    let mut m = owned("External link symbol '");
                                    push_string(&mut m, &f.symbol);
                                    push_str(&mut m, "' is already declared at ");
                                    push_decimal(&mut m, externs[k].name_span.start as u64);
                                    push_str(&mut m, "..");
                                    push_decimal(&mut m, externs[k].name_span.end as u64);
                                    errors.push((f.span, m));
                                    break;
                                }
                                k = k + 1;
                            }
                            externs.push(f);
                            proof {
                                assert(externs@.drop_last() == x0);
                            }
                        }
                    }
                    Item::Type(d) => {
                        types.push(d);
                        proof {
                            assert(types@.drop_last() == t0);
                        }
                    }
                    Item::Method(m) => {
                        methods.push(m);
                        proof {
                            assert(methods@.drop_last() == m0);
                        }
                    }
                    Item::Element(e) => {
                        elements.push(e);
                        proof {
                            assert(elements@.drop_last() == e0);
                        }
                    }
                }
            }
        }
    }
    if errors.len() > 0 {
        return Err(errors);
    }
    let span = Span { start: 0, end: t.eof };
    Ok(Program { funcs, externs, types, methods, body: Block { elements, span } })
}

} // verus!

//! The syntax tree the parser produces and the checker consumes.

use vstd::prelude::*;

verus! {

/// A source range in characters, half open.
#[derive(Clone, Copy, Debug, PartialEq, Eq, Structural)]
pub struct Span {
    pub start: usize,
    pub end: usize,
}

/// A span joining two others: from the first's start to the second's end.
pub fn join(a: Span, b: Span) -> (r: Span)
    ensures
        r.start == a.start,
        r.end == if b.end < a.start { a.start } else { b.end },
{
    Span { start: a.start, end: if b.end < a.start { a.start } else { b.end } }
}

/// The built-in value types that have a spelling of their own.
#[derive(Clone, Copy, Debug, PartialEq, Eq, Structural)]
pub enum TypeName {
    Dec64,
    Int64,
    Bool,
    Nil,
    UInt8,
    UInt16,
    UInt32,
    UInt64,
    Float32,
}

/// A numeric literal's exact value. The two floating forms keep the decimal
/// text they were written with; its binary value is the backend's concern.
#[derive(Clone, Debug)]
pub enum NumLiteral {
    Int(i64),
    Dec(String),
    U8(u8),
    U16(u16),
    U32(u32),
    U64(u64),
    F32(String),
}

/// A literal value. Strings survive parsing so that checking owns their
/// diagnostic.
#[derive(Clone, Debug)]
pub enum Value {
    Nil,
    Bool(bool),
    Num(NumLiteral),
    Str(String),
}

#[derive(Clone, Copy, Debug, PartialEq, Eq, Structural)]
pub enum BinaryOp {
    Add,
    Sub,
    Mul,
    Div,
    Eq,
    NotEq,
    Less,
    LessEq,
    Greater,
    GreaterEq,
}

/// A written type.
#[derive(Debug)]
pub enum TypeRef {
    Builtin(TypeName, Span),
    /// A qualified name, `A` or `A.B`, segment by segment.
    Named(Vec<(String, Span)>, Span),
    /// At least two members, possibly nested through parentheses.
    Sum(Vec<TypeRef>, Span),
    Box(Box<TypeRef>, Span),
}

impl TypeRef {
    pub open spec fn span_of(self) -> Span {
        match self {
            TypeRef::Builtin(_, s) => s,
            TypeRef::Named(_, s) => s,
            TypeRef::Sum(_, s) => s,
            TypeRef::Box(_, s) => s,
        }
    }

    pub fn span(&self) -> (s: Span)
        ensures
            s == self.span_of(),
    {
        match self {
            TypeRef::Builtin(_, s) => *s,
            TypeRef::Named(_, s) => *s,
            TypeRef::Sum(_, s) => *s,
            TypeRef::Box(_, s) => *s,
        }
    }
}

/// Value-producing expressions only; statements are block elements.
#[derive(Debug)]
pub enum Expr {
    Value(Value),
    List(Vec<SExpr>),
    Local(String),
    SelfRef,
    BuiltinType(TypeName),
    Member(Box<SExpr>, String, Span),
    Binary(Box<SExpr>, BinaryOp, Box<SExpr>),
    Call(Box<SExpr>, Vec<Arg>, Span),
    Print(Box<SExpr>),
    Box(Box<SExpr>),
}

/// An expression with its source range.
#[derive(Debug)]
pub struct SExpr {
    pub expr: Expr,
    pub span: Span,
}

/// `[ name ":" ] expression`.
#[derive(Debug)]
pub struct Arg {
    pub name: Option<(String, Span)>,
    pub value: SExpr,
}

#[derive(Clone, Copy, Debug, PartialEq, Eq, Structural)]
pub enum ParamMode {
    Value,
    Reference,
}

#[derive(Debug)]
pub struct Param {
    pub name: String,
    pub mode: ParamMode,
    pub ty: TypeRef,
    pub span: Span,
}

#[derive(Debug)]
pub enum PlaceRootName {
    Name(String),
    SelfRef,
}

/// `( identifier | "self" ) { "." identifier }`.
#[derive(Debug)]
pub struct PlacePath {
    pub root: PlaceRootName,
    pub root_span: Span,
    pub fields: Vec<(String, Span)>,
    pub span: Span,
}

#[derive(Debug)]
pub struct TypeTest {
    pub place: PlacePath,
    pub member: Vec<(String, Span)>,
    pub member_span: Span,
    pub binding: Option<(String, Span)>,
    pub span: Span,
}

#[derive(Debug)]
pub enum Condition {
    Expr(SExpr),
    TypeTest(TypeTest),
}

impl Condition {
    /// Where the condition was written.
    pub fn span(&self) -> (s: Span)
        ensures
            s == match self {
                Condition::Expr(e) => e.span,
                Condition::TypeTest(t) => t.span,
            },
    {
        match self {
            Condition::Expr(e) => e.span,
            Condition::TypeTest(t) => t.span,
        }
    }
}

#[derive(Debug)]
pub struct Block {
    pub elements: Vec<Element>,
    pub span: Span,
}

#[derive(Debug)]
pub struct Element {
    pub kind: BlockElement,
    pub span: Span,
}

#[derive(Debug)]
pub enum BlockElement {
    Let { mutable: bool, name: String, name_span: Span, ty: TypeRef, value: SExpr },
    Assign { place: PlacePath, value: SExpr },
    While { condition: SExpr, body: Block },
    Break(Span),
    If(IfForm),
    Expr(SExpr),
}

#[derive(Debug)]
pub struct IfForm {
    pub arms: Vec<(Condition, Block)>,
    pub else_branch: Option<Block>,
    pub span: Span,
}

#[derive(Debug)]
pub struct Func {
    pub name: String,
    pub name_span: Span,
    pub args: Vec<Param>,
    pub ret: Option<TypeRef>,
    pub span: Span,
    pub body: Block,
}

#[derive(Debug)]
pub struct ExternFunc {
    pub name: String,
    pub name_span: Span,
    pub symbol: String,
    pub args: Vec<Param>,
    pub ret: Option<TypeRef>,
    pub span: Span,
}

#[derive(Debug)]
pub struct FieldDecl {
    pub name: String,
    pub name_span: Span,
    pub ty: TypeRef,
}

#[derive(Debug)]
pub struct UnionMemberDecl {
    pub name: String,
    pub name_span: Span,
    pub nil: bool,
    pub fields: Vec<FieldDecl>,
}

#[derive(Debug)]
pub enum TypeBody {
    Represented(TypeRef),
    Struct(Vec<FieldDecl>),
    Union(Vec<UnionMemberDecl>),
}

#[derive(Debug)]
pub struct TypeDecl {
    pub name: String,
    pub name_span: Span,
    pub body: TypeBody,
    pub span: Span,
}

/// `method Receiver.name(...)` or `method Union.Member.name(...)`: the path
/// holds every written segment.
#[derive(Debug)]
pub struct MethodDecl {
    pub path: Vec<(String, Span)>,
    pub args: Vec<Param>,
    pub ret: Option<TypeRef>,
    pub span: Span,
    pub body: Block,
}

/// A parsed program. Functions and bridges are unique by name (the parser
/// rejects a repeat) and kept in source order.
#[derive(Debug)]
pub struct Program {
    pub funcs: Vec<Func>,
    pub externs: Vec<ExternFunc>,
    pub types: Vec<TypeDecl>,
    pub methods: Vec<MethodDecl>,
    pub body: Block,
}

} // verus!

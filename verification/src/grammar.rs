//! The expression grammar, stated as predicates over token ranges: which
//! trees the tokens `lo..hi` can be read as. Spans are left aside; only the
//! shape of a tree and the tokens it was read from are stated.

use vstd::prelude::*;
use crate::ast::{
    Arg, BinaryOp, Block, BlockElement, Condition, Element, Expr, ExternFunc, FieldDecl, Func, IfForm,
    MethodDecl, Param, ParamMode, PlacePath, PlaceRootName, Program, SExpr, Span, TypeBody, TypeDecl,
    TypeName, TypeRef, TypeTest, UnionMemberDecl, Value,
};
use crate::lexer::{Operator, Token};

verus! {

/// The token at `i` is the control character `c`.
pub open spec fn ctrl_at(toks: Seq<(Token, Span)>, i: int, c: char) -> bool {
    0 <= i < toks.len() && toks[i].0 == Token::Ctrl(c)
}

/// The token at `i` is the identifier `name`.
pub open spec fn ident_at(toks: Seq<(Token, Span)>, i: int, name: Seq<char>) -> bool {
    0 <= i < toks.len() && (toks[i].0 matches Token::Ident(n) && n@ == name)
}

/// The comparison the token at `i` spells, if it spells one.
pub open spec fn comparison_at(toks: Seq<(Token, Span)>, i: int) -> Option<BinaryOp> {
    if 0 <= i < toks.len() {
        match toks[i].0 {
            Token::Op(Operator::EqEq) => Some(BinaryOp::Eq),
            Token::Op(Operator::NotEq) => Some(BinaryOp::NotEq),
            Token::Op(Operator::Less) => Some(BinaryOp::Less),
            Token::Op(Operator::LessEq) => Some(BinaryOp::LessEq),
            Token::Op(Operator::Greater) => Some(BinaryOp::Greater),
            Token::Op(Operator::GreaterEq) => Some(BinaryOp::GreaterEq),
            _ => None,
        }
    } else {
        None
    }
}

/// `+` or `-` at `i`.
pub open spec fn additive_at(toks: Seq<(Token, Span)>, i: int) -> Option<BinaryOp> {
    if 0 <= i < toks.len() {
        match toks[i].0 {
            Token::Op(Operator::Plus) => Some(BinaryOp::Add),
            Token::Op(Operator::Minus) => Some(BinaryOp::Sub),
            _ => None,
        }
    } else {
        None
    }
}

/// `*` or `/` at `i`.
pub open spec fn multiplicative_at(toks: Seq<(Token, Span)>, i: int) -> Option<BinaryOp> {
    if 0 <= i < toks.len() {
        match toks[i].0 {
            Token::Op(Operator::Star) => Some(BinaryOp::Mul),
            Token::Op(Operator::Slash) => Some(BinaryOp::Div),
            _ => None,
        }
    } else {
        None
    }
}

/// `m` splits the range `lo..hi` in two.
pub open spec fn split_at(lo: int, m: int, hi: int) -> bool {
    lo <= m <= hi
}

/// The built-in type a token names, if it names one.
pub open spec fn builtin_token(t: Token) -> Option<TypeName> {
    match t {
        Token::TyDec64 => Some(TypeName::Dec64),
        Token::TyInt64 => Some(TypeName::Int64),
        Token::TyBool => Some(TypeName::Bool),
        Token::TyNil => Some(TypeName::Nil),
        Token::TyUInt8 => Some(TypeName::UInt8),
        Token::TyUInt16 => Some(TypeName::UInt16),
        Token::TyUInt32 => Some(TypeName::UInt32),
        Token::TyUInt64 => Some(TypeName::UInt64),
        Token::TyFloat32 => Some(TypeName::Float32),
        _ => None,
    }
}

/// `expression = sum { comparison sum }`, grouping to the left.
pub open spec fn is_expression(toks: Seq<(Token, Span)>, lo: int, hi: int, e: SExpr) -> bool
    decreases hi - lo, 4nat,
{
    lo < hi && (is_sum(toks, lo, hi, e) || (e.expr matches Expr::Binary(l, op, r)
        && exists|m: int| lo < m < hi - 1 && #[trigger] comparison_at(toks, m) == Some(op)
            && is_expression(toks, lo, m, *l) && is_sum(toks, m + 1, hi, *r)))
}

/// `sum = product { ("+" | "-") product }`, grouping to the left.
pub open spec fn is_sum(toks: Seq<(Token, Span)>, lo: int, hi: int, e: SExpr) -> bool
    decreases hi - lo, 3nat,
{
    lo < hi && (is_product(toks, lo, hi, e) || (e.expr matches Expr::Binary(l, op, r)
        && exists|m: int| lo < m < hi - 1 && #[trigger] additive_at(toks, m) == Some(op)
            && is_sum(toks, lo, m, *l) && is_product(toks, m + 1, hi, *r)))
}

/// `product = postfix { ("*" | "/") postfix }`, grouping to the left.
pub open spec fn is_product(toks: Seq<(Token, Span)>, lo: int, hi: int, e: SExpr) -> bool
    decreases hi - lo, 2nat,
{
    lo < hi && (is_postfix(toks, lo, hi, e) || (e.expr matches Expr::Binary(l, op, r)
        && exists|m: int| lo < m < hi - 1 && #[trigger] multiplicative_at(toks, m) == Some(op)
            && is_product(toks, lo, m, *l) && is_postfix(toks, m + 1, hi, *r)))
}

/// `postfix = atom { "(" arguments ")" | "." identifier }`.
pub open spec fn is_postfix(toks: Seq<(Token, Span)>, lo: int, hi: int, e: SExpr) -> bool
    decreases hi - lo, 1nat,
{
    lo < hi && (is_atom(toks, lo, hi, e)
        || (e.expr matches Expr::Call(b, args, _)
            && exists|m: int| lo < m < hi && #[trigger] ctrl_at(toks, m, '(')
                && is_postfix(toks, lo, m, *b) && arguments_close(toks, m + 1, hi, args@))
        || (e.expr matches Expr::Member(b, name, _) && lo + 2 < hi && ctrl_at(toks, hi - 2, '.')
            && ident_at(toks, hi - 1, name@) && is_postfix(toks, lo, hi - 2, *b)))
}

/// `atom = value | "self" | builtin | identifier | "[" items "]"
///       | "print" "(" expression ")" | "box" "(" expression ")" | "(" expression ")"`;
/// parentheses only group.
pub open spec fn is_atom(toks: Seq<(Token, Span)>, lo: int, hi: int, e: SExpr) -> bool
    decreases hi - lo, 0nat,
{
    0 <= lo < hi && lo < toks.len() && match builtin_token(toks[lo].0) {
        Some(b) => hi == lo + 1 && e.expr == Expr::BuiltinType(b),
        None => match toks[lo].0 {
            Token::Nil => hi == lo + 1 && e.expr == Expr::Value(Value::Nil),
            Token::Bool(b) => hi == lo + 1 && e.expr == Expr::Value(Value::Bool(b)),
            Token::Num(n) => hi == lo + 1 && e.expr == Expr::Value(Value::Num(n)),
            Token::Str(s) => hi == lo + 1 && e.expr == Expr::Value(Value::Str(s)),
            Token::SelfKw => hi == lo + 1 && e.expr == Expr::SelfRef,
            Token::Ident(n) => hi == lo + 1 && e.expr == Expr::Local(n),
            Token::Ctrl(c) => if c == '[' {
                e.expr matches Expr::List(items) && items_close(toks, lo + 1, hi, items@)
            } else if c == '(' {
                lo + 2 < hi && ctrl_at(toks, hi - 1, ')') && is_expression(toks, lo + 1, hi - 1, e)
            } else {
                false
            },
            Token::Print => lo + 3 < hi && ctrl_at(toks, lo + 1, '(') && ctrl_at(toks, hi - 1, ')')
                && (e.expr matches Expr::Print(inner) && is_expression(toks, lo + 2, hi - 1, *inner)),
            Token::BoxKw => lo + 3 < hi && ctrl_at(toks, lo + 1, '(') && ctrl_at(toks, hi - 1, ')')
                && (e.expr matches Expr::Box(inner) && is_expression(toks, lo + 2, hi - 1, *inner)),
            _ => false,
        },
    }
}

/// `argument = [ identifier ":" ] expression`.
pub open spec fn is_argument(toks: Seq<(Token, Span)>, lo: int, hi: int, a: Arg) -> bool
    decreases hi - lo, 6nat,
{
    lo < hi && match a.name {
        None => is_expression(toks, lo, hi, a.value),
        Some((n, _)) => ident_at(toks, lo, n@) && ctrl_at(toks, lo + 1, ':') && lo + 2 < hi && is_expression(toks, lo + 2, hi, a.value),
    }
}

/// Arguments, each followed by a comma, filling `lo..hi`.
pub open spec fn arguments_separated(toks: Seq<(Token, Span)>, lo: int, hi: int, args: Seq<Arg>) -> bool
    decreases hi - lo, 5nat,
{
    if args.len() == 0 {
        hi == lo
    } else {
        exists|m: int| #[trigger] split_at(lo, m, hi) && m < hi - 1 && ctrl_at(toks, hi - 1, ',')
            && arguments_separated(toks, lo, m, args.drop_last()) && is_argument(toks, m, hi - 1, args.last())
    }
}

/// `arguments = [ argument { "," argument } [ "," ] ] ")"`: `lo..hi` ends at the `)`.
pub open spec fn arguments_close(toks: Seq<(Token, Span)>, lo: int, hi: int, args: Seq<Arg>) -> bool
    decreases hi - lo, 6nat,
{
    lo < hi && ctrl_at(toks, hi - 1, ')') && (arguments_separated(toks, lo, hi - 1, args)
        || (args.len() > 0 && exists|m: int| #[trigger] split_at(lo, m, hi) && m < hi - 1
            && arguments_separated(toks, lo, m, args.drop_last()) && is_argument(toks, m, hi - 1, args.last())))
}

/// List items, each followed by a comma, filling `lo..hi`.
pub open spec fn items_separated(toks: Seq<(Token, Span)>, lo: int, hi: int, items: Seq<SExpr>) -> bool
    decreases hi - lo, 5nat,
{
    if items.len() == 0 {
        hi == lo
    } else {
        exists|m: int| #[trigger] split_at(lo, m, hi) && m < hi - 1 && ctrl_at(toks, hi - 1, ',')
            && items_separated(toks, lo, m, items.drop_last()) && is_expression(toks, m, hi - 1, items.last())
    }
}

/// `items = [ expression { "," expression } [ "," ] ] "]"`: `lo..hi` ends at the `]`.
pub open spec fn items_close(toks: Seq<(Token, Span)>, lo: int, hi: int, items: Seq<SExpr>) -> bool
    decreases hi - lo, 6nat,
{
    lo < hi && ctrl_at(toks, hi - 1, ']') && (items_separated(toks, lo, hi - 1, items)
        || (items.len() > 0 && exists|m: int| #[trigger] split_at(lo, m, hi) && m < hi - 1
            && items_separated(toks, lo, m, items.drop_last()) && is_expression(toks, m, hi - 1, items.last())))
}

/// The token at `i` is `t`.
pub open spec fn token_at(toks: Seq<(Token, Span)>, i: int, t: Token) -> bool {
    0 <= i < toks.len() && toks[i].0 == t
}

/// Identifiers separated by `.` filling `lo..hi`: `identifier { "." identifier }`.
pub open spec fn dotted_names(toks: Seq<(Token, Span)>, lo: int, hi: int, names: Seq<(String, Span)>) -> bool
    decreases hi - lo,
{
    if names.len() == 1 {
        hi == lo + 1 && ident_at(toks, lo, names[0].0@)
    } else {
        names.len() > 1 && lo + 3 <= hi && ctrl_at(toks, hi - 2, '.') && ident_at(toks, hi - 1, names.last().0@)
            && dotted_names(toks, lo, hi - 2, names.drop_last())
    }
}

/// `sum-type = primary { "|" primary }`; one primary stands for itself, more
/// make a sum.
pub open spec fn is_sum_type(toks: Seq<(Token, Span)>, lo: int, hi: int, ty: TypeRef) -> bool
    decreases hi - lo, 2nat,
{
    lo < hi && (is_primary_type(toks, lo, hi, ty)
        || (ty matches TypeRef::Sum(members, _) && members@.len() >= 2 && type_members(toks, lo, hi, members@)))
}

/// Primaries separated by `|` filling `lo..hi`.
pub open spec fn type_members(toks: Seq<(Token, Span)>, lo: int, hi: int, members: Seq<TypeRef>) -> bool
    decreases hi - lo, 1nat,
{
    if members.len() == 1 {
        is_primary_type(toks, lo, hi, members[0])
    } else {
        members.len() > 1 && exists|m: int| lo < m < hi - 1 && #[trigger] ctrl_at(toks, m, '|')
            && type_members(toks, lo, m, members.drop_last()) && is_primary_type(toks, m + 1, hi, members.last())
    }
}

/// `primary = builtin | name { "." name } | "(" sum-type ")" | "Box" "<" sum-type ">"`.
pub open spec fn is_primary_type(toks: Seq<(Token, Span)>, lo: int, hi: int, ty: TypeRef) -> bool
    decreases hi - lo, 0nat,
{
    0 <= lo < hi && lo < toks.len() && match builtin_token(toks[lo].0) {
        Some(b) => hi == lo + 1 && (ty matches TypeRef::Builtin(c, _) && c == b),
        None => if toks[lo].0 == Token::Ctrl('(') {
            lo + 2 < hi && ctrl_at(toks, hi - 1, ')') && is_sum_type(toks, lo + 1, hi - 1, ty)
        } else if toks[lo].0 == Token::TyBox {
            lo + 3 < hi && token_at(toks, lo + 1, Token::Op(Operator::Less)) && token_at(toks, hi - 1, Token::Op(Operator::Greater))
                && (ty matches TypeRef::Box(inner, _) && is_sum_type(toks, lo + 2, hi - 1, *inner))
        } else {
            ty matches TypeRef::Named(segments, _) && dotted_names(toks, lo, hi, segments@)
        },
    }
}

/// `"Ref" "<" sum-type ">"`: the referent.
pub open spec fn is_reference_type(toks: Seq<(Token, Span)>, lo: int, hi: int, ty: TypeRef) -> bool {
    lo + 3 < hi && token_at(toks, lo, Token::Ref) && token_at(toks, lo + 1, Token::Op(Operator::Less))
        && token_at(toks, hi - 1, Token::Op(Operator::Greater)) && is_sum_type(toks, lo + 2, hi - 1, ty)
}

/// `parameter = identifier ":" ( sum-type | "Ref" "<" sum-type ">" )`.
pub open spec fn is_param(toks: Seq<(Token, Span)>, lo: int, hi: int, p: Param) -> bool {
    ident_at(toks, lo, p.name@) && ctrl_at(toks, lo + 1, ':') && match p.mode {
        ParamMode::Reference => is_reference_type(toks, lo + 2, hi, p.ty),
        ParamMode::Value => !token_at(toks, lo + 2, Token::Ref) && is_sum_type(toks, lo + 2, hi, p.ty),
    }
}

/// Parameters, each followed by a comma, filling `lo..hi`.
pub open spec fn params_separated(toks: Seq<(Token, Span)>, lo: int, hi: int, ps: Seq<Param>) -> bool
    decreases hi - lo,
{
    if ps.len() == 0 {
        hi == lo
    } else {
        exists|m: int| #[trigger] split_at(lo, m, hi) && m < hi - 1 && ctrl_at(toks, hi - 1, ',')
            && params_separated(toks, lo, m, ps.drop_last()) && is_param(toks, m, hi - 1, ps.last())
    }
}

/// `"(" [ parameter { "," parameter } [ "," ] ] ")"`.
pub open spec fn is_params(toks: Seq<(Token, Span)>, lo: int, hi: int, ps: Seq<Param>) -> bool {
    lo + 1 < hi && ctrl_at(toks, lo, '(') && ctrl_at(toks, hi - 1, ')') && (params_separated(toks, lo + 1, hi - 1, ps)
        || (ps.len() > 0 && exists|m: int| #[trigger] split_at(lo + 1, m, hi) && m < hi - 1
            && params_separated(toks, lo + 1, m, ps.drop_last()) && is_param(toks, m, hi - 1, ps.last())))
}

/// An optional `":" sum-type` result: nothing at all, or the colon and the type.
pub open spec fn is_result_type(toks: Seq<(Token, Span)>, lo: int, hi: int, ret: Option<TypeRef>) -> bool {
    match ret {
        None => hi == lo && !ctrl_at(toks, lo, ':'),
        Some(ty) => ctrl_at(toks, lo, ':') && is_sum_type(toks, lo + 1, hi, ty),
    }
}

/// `place = ( identifier | "self" ) { "." identifier }`.
pub open spec fn is_place(toks: Seq<(Token, Span)>, lo: int, hi: int, p: PlacePath) -> bool {
    0 <= lo < toks.len() && match p.root {
        PlaceRootName::Name(n) => ident_at(toks, lo, n@),
        PlaceRootName::SelfRef => toks[lo].0 == Token::SelfKw,
    } && place_fields(toks, lo + 1, hi, p.fields@)
}

/// `{ "." identifier }` filling `lo..hi`.
pub open spec fn place_fields(toks: Seq<(Token, Span)>, lo: int, hi: int, fields: Seq<(String, Span)>) -> bool
    decreases hi - lo,
{
    if fields.len() == 0 {
        hi == lo
    } else {
        lo + 2 <= hi && ctrl_at(toks, hi - 2, '.') && ident_at(toks, hi - 1, fields.last().0@)
            && place_fields(toks, lo, hi - 2, fields.drop_last())
    }
}

/// The member name a token spells in a type test: an identifier, or a
/// built-in type's name.
pub open spec fn segment_text(t: Token) -> Option<Seq<char>> {
    match t {
        Token::Ident(n) => Some(n@),
        Token::TyNil => Some("Nil"@),
        Token::TyDec64 => Some("Dec64"@),
        Token::TyInt64 => Some("Int64"@),
        Token::TyBool => Some("Bool"@),
        Token::TyUInt8 => Some("UInt8"@),
        Token::TyUInt16 => Some("UInt16"@),
        Token::TyUInt32 => Some("UInt32"@),
        Token::TyUInt64 => Some("UInt64"@),
        Token::TyFloat32 => Some("Float32"@),
        _ => None,
    }
}

/// The member name spelled at `i`, if one is.
pub open spec fn segment_at(toks: Seq<(Token, Span)>, i: int) -> Option<Seq<char>> {
    if 0 <= i < toks.len() { segment_text(toks[i].0) } else { None }
}

/// `segment { "." segment }` filling `lo..hi`.
pub open spec fn member_segments(toks: Seq<(Token, Span)>, lo: int, hi: int, segs: Seq<(String, Span)>) -> bool
    decreases hi - lo,
{
    if segs.len() == 1 {
        hi == lo + 1 && segment_at(toks, lo) == Some(segs[0].0@)
    } else {
        segs.len() > 1 && lo + 3 <= hi && ctrl_at(toks, hi - 2, '.') && segment_at(toks, hi - 1) == Some(segs.last().0@)
            && member_segments(toks, lo, hi - 2, segs.drop_last())
    }
}

/// `type-test = place "is" segment { "." segment } [ "(" identifier ")" ]`.
pub open spec fn is_type_test(toks: Seq<(Token, Span)>, lo: int, hi: int, test: TypeTest) -> bool {
    let k = match test.binding { None => hi, Some(_) => hi - 3 };
    &&& match test.binding {
        None => true,
        Some((n, _)) => ctrl_at(toks, k, '(') && ident_at(toks, k + 1, n@) && ctrl_at(toks, k + 2, ')'),
    }
    &&& exists|m: int| #[trigger] token_at(toks, m, Token::Is) && lo < m && m + 1 < k
        && is_place(toks, lo, m, test.place) && member_segments(toks, m + 1, k, test.member@)
}

/// `condition = type-test | expression`.
pub open spec fn is_condition(toks: Seq<(Token, Span)>, lo: int, hi: int, c: Condition) -> bool {
    match c {
        Condition::Expr(e) => is_expression(toks, lo, hi, e),
        Condition::TypeTest(test) => is_type_test(toks, lo, hi, test),
    }
}

/// `block = { element }`, possibly empty.
pub open spec fn is_block(toks: Seq<(Token, Span)>, lo: int, hi: int, b: Block) -> bool
    decreases hi - lo, 2nat,
{
    lo <= hi && elements_run(toks, lo, hi, b.elements@)
}

/// Elements one after another, filling `lo..hi`.
pub open spec fn elements_run(toks: Seq<(Token, Span)>, lo: int, hi: int, es: Seq<Element>) -> bool
    decreases hi - lo, 1nat,
{
    if es.len() == 0 {
        hi == lo
    } else {
        exists|m: int| #[trigger] split_at(lo, m, hi) && m < hi
            && elements_run(toks, lo, m, es.drop_last()) && is_element(toks, m, hi, es.last())
    }
}

/// `element = let | while | "break" | if | assignment | expression`, where
/// `let = "let" [ "mut" ] identifier ":" sum-type "=" expression`,
/// `while = "while" expression "do" block "end"`,
/// `if = "if" if-form` and `assignment = place "=" expression`.
pub open spec fn is_element(toks: Seq<(Token, Span)>, lo: int, hi: int, el: Element) -> bool
    decreases hi - lo, 0nat,
{
    0 <= lo < hi && match el.kind {
        BlockElement::Let { mutable, name, ty, value, .. } => {
            let n = if mutable { lo + 2 } else { lo + 1 };
            &&& token_at(toks, lo, Token::Let)
            &&& mutable == token_at(toks, lo + 1, Token::Mut)
            &&& ident_at(toks, n, name@)
            &&& ctrl_at(toks, n + 1, ':')
            &&& exists|m: int| #[trigger] token_at(toks, m, Token::Op(Operator::Assign)) && n + 2 < m && m + 1 < hi
                && is_sum_type(toks, n + 2, m, ty) && is_expression(toks, m + 1, hi, value)
        },
        BlockElement::While { condition, body } => token_at(toks, lo, Token::While) && token_at(toks, hi - 1, Token::End)
            && exists|m: int| #[trigger] token_at(toks, m, Token::Do) && lo + 1 < m && m < hi - 1
                && is_expression(toks, lo + 1, m, condition) && is_block(toks, m + 1, hi - 1, body),
        BlockElement::Break(_) => token_at(toks, lo, Token::Break) && hi == lo + 1,
        BlockElement::If(form) => token_at(toks, lo, Token::If) && is_if_form(toks, lo + 1, hi, form),
        BlockElement::Assign { place, value } => exists|m: int| #[trigger] token_at(toks, m, Token::Op(Operator::Assign))
            && lo < m && m + 1 < hi && is_place(toks, lo, m, place) && is_expression(toks, m + 1, hi, value),
        BlockElement::Expr(e) => is_expression(toks, lo, hi, e),
    }
}

/// `if-form = arm { "elseif" arm } [ "else" block ] "end"`, after the `if`.
pub open spec fn is_if_form(toks: Seq<(Token, Span)>, lo: int, hi: int, form: IfForm) -> bool
    decreases hi - lo, 2nat,
{
    lo < hi && token_at(toks, hi - 1, Token::End) && form.arms@.len() >= 1 && match form.else_branch {
        None => arms_run(toks, lo, hi - 1, form.arms@),
        Some(b) => exists|m: int| #[trigger] token_at(toks, m, Token::Else) && lo < m && m < hi - 1
            && arms_run(toks, lo, m, form.arms@) && is_block(toks, m + 1, hi - 1, b),
    }
}

/// Arms separated by `elseif`, filling `lo..hi`.
pub open spec fn arms_run(toks: Seq<(Token, Span)>, lo: int, hi: int, arms: Seq<(Condition, Block)>) -> bool
    decreases hi - lo, 1nat,
{
    if arms.len() == 1 {
        is_arm(toks, lo, hi, arms[0])
    } else {
        arms.len() > 1 && exists|m: int| #[trigger] token_at(toks, m, Token::ElseIf) && lo < m && m < hi
            && arms_run(toks, lo, m, arms.drop_last()) && is_arm(toks, m + 1, hi, arms.last())
    }
}

/// `arm = condition "then" block`.
pub open spec fn is_arm(toks: Seq<(Token, Span)>, lo: int, hi: int, arm: (Condition, Block)) -> bool
    decreases hi - lo, 0nat,
{
    exists|m: int| #[trigger] token_at(toks, m, Token::Then) && lo < m && m < hi
        && is_condition(toks, lo, m, arm.0) && is_block(toks, m + 1, hi, arm.1)
}

/// `field = identifier ":" sum-type [ "," ]`.
pub open spec fn is_field(toks: Seq<(Token, Span)>, lo: int, hi: int, f: FieldDecl) -> bool {
    ident_at(toks, lo, f.name@) && ctrl_at(toks, lo + 1, ':')
        && (is_sum_type(toks, lo + 2, hi, f.ty) || (ctrl_at(toks, hi - 1, ',') && is_sum_type(toks, lo + 2, hi - 1, f.ty)))
}

/// Fields one after another, filling `lo..hi`.
pub open spec fn fields_run(toks: Seq<(Token, Span)>, lo: int, hi: int, fs: Seq<FieldDecl>) -> bool
    decreases hi - lo,
{
    if fs.len() == 0 {
        hi == lo
    } else {
        exists|m: int| #[trigger] split_at(lo, m, hi) && m < hi
            && fields_run(toks, lo, m, fs.drop_last()) && is_field(toks, m, hi, fs.last())
    }
}

/// `{ field } "end"`, after the `struct`.
pub open spec fn is_struct_body(toks: Seq<(Token, Span)>, lo: int, hi: int, fs: Seq<FieldDecl>) -> bool {
    lo < hi && token_at(toks, hi - 1, Token::End) && fields_run(toks, lo, hi - 1, fs)
}

/// `member = "|" ( "Nil" | identifier ) [ "is" "struct" { field } "end" ]`.
pub open spec fn is_union_member(toks: Seq<(Token, Span)>, lo: int, hi: int, m: UnionMemberDecl) -> bool {
    &&& ctrl_at(toks, lo, '|')
    &&& if m.nil { token_at(toks, lo + 1, Token::TyNil) && m.name@ == "Nil"@ } else { ident_at(toks, lo + 1, m.name@) }
    &&& if token_at(toks, lo + 2, Token::Is) {
        token_at(toks, lo + 3, Token::Struct) && is_struct_body(toks, lo + 4, hi, m.fields@)
    } else {
        hi == lo + 2 && m.fields@.len() == 0
    }
}

/// Union members one after another, filling `lo..hi`.
pub open spec fn members_run(toks: Seq<(Token, Span)>, lo: int, hi: int, ms: Seq<UnionMemberDecl>) -> bool
    decreases hi - lo,
{
    if ms.len() == 0 {
        hi == lo
    } else {
        exists|m: int| #[trigger] split_at(lo, m, hi) && m < hi
            && members_run(toks, lo, m, ms.drop_last()) && is_union_member(toks, m, hi, ms.last())
    }
}

/// `type = "type" identifier "is" ( "struct" { field } "end" | "union" member { member } "end" | sum-type )`.
pub open spec fn is_type_decl(toks: Seq<(Token, Span)>, lo: int, hi: int, d: TypeDecl) -> bool {
    &&& token_at(toks, lo, Token::Type)
    &&& ident_at(toks, lo + 1, d.name@)
    &&& token_at(toks, lo + 2, Token::Is)
    &&& match d.body {
        TypeBody::Struct(fs) => token_at(toks, lo + 3, Token::Struct) && is_struct_body(toks, lo + 4, hi, fs@),
        TypeBody::Union(ms) => token_at(toks, lo + 3, Token::Union) && ms@.len() > 0 && lo + 4 < hi
            && token_at(toks, hi - 1, Token::End) && members_run(toks, lo + 4, hi - 1, ms@),
        TypeBody::Represented(ty) => is_sum_type(toks, lo + 3, hi, ty),
    }
}

/// `params [ ":" sum-type ] "do" block "end"`: the tail a function and a
/// method share.
pub open spec fn is_callable_tail(toks: Seq<(Token, Span)>, lo: int, hi: int, args: Seq<Param>, ret: Option<TypeRef>, body: Block) -> bool {
    token_at(toks, hi - 1, Token::End) && exists|d: int| #[trigger] token_at(toks, d, Token::Do) && lo < d && d < hi - 1
        && is_block(toks, d + 1, hi - 1, body)
        && exists|m: int| #[trigger] split_at(lo, m, d) && is_params(toks, lo, m, args) && is_result_type(toks, m, d, ret)
}

/// `fun = "fun" identifier callable-tail`.
pub open spec fn is_func(toks: Seq<(Token, Span)>, lo: int, hi: int, f: Func) -> bool {
    token_at(toks, lo, Token::Fun) && ident_at(toks, lo + 1, f.name@) && is_callable_tail(toks, lo + 2, hi, f.args@, f.ret, f.body)
}

/// `extern = "extern" "rust" string "fun" identifier params [ ":" sum-type ]`.
pub open spec fn is_extern(toks: Seq<(Token, Span)>, lo: int, hi: int, f: ExternFunc) -> bool {
    &&& token_at(toks, lo, Token::Extern)
    &&& token_at(toks, lo + 1, Token::Rust)
    &&& token_at(toks, lo + 2, Token::Str(f.symbol))
    &&& token_at(toks, lo + 3, Token::Fun)
    &&& ident_at(toks, lo + 4, f.name@)
    &&& exists|m: int| #[trigger] split_at(lo + 5, m, hi) && is_params(toks, lo + 5, m, f.args@) && is_result_type(toks, m, hi, f.ret)
}

/// `method = "method" identifier { "." identifier } callable-tail`.
pub open spec fn is_method(toks: Seq<(Token, Span)>, lo: int, hi: int, md: MethodDecl) -> bool {
    token_at(toks, lo, Token::Method) && exists|k: int| #[trigger] split_at(lo + 1, k, hi)
        && dotted_names(toks, lo + 1, k, md.path@) && is_callable_tail(toks, k, hi, md.args@, md.ret, md.body)
}

/// Declarations and block elements one after another, filling `lo..hi`;
/// each kind is collected in order into its own sequence.
pub open spec fn items_run(
    toks: Seq<(Token, Span)>, lo: int, hi: int, fs: Seq<Func>, xs: Seq<ExternFunc>, ts: Seq<TypeDecl>,
    ms: Seq<MethodDecl>, es: Seq<Element>,
) -> bool
    decreases hi - lo,
{
    if fs.len() == 0 && xs.len() == 0 && ts.len() == 0 && ms.len() == 0 && es.len() == 0 {
        hi == lo
    } else {
        exists|m: int| #[trigger] split_at(lo, m, hi) && m < hi && {
            ||| fs.len() > 0 && is_func(toks, m, hi, fs.last()) && items_run(toks, lo, m, fs.drop_last(), xs, ts, ms, es)
            ||| xs.len() > 0 && is_extern(toks, m, hi, xs.last()) && items_run(toks, lo, m, fs, xs.drop_last(), ts, ms, es)
            ||| ts.len() > 0 && is_type_decl(toks, m, hi, ts.last()) && items_run(toks, lo, m, fs, xs, ts.drop_last(), ms, es)
            ||| ms.len() > 0 && is_method(toks, m, hi, ms.last()) && items_run(toks, lo, m, fs, xs, ts, ms.drop_last(), es)
            ||| es.len() > 0 && is_element(toks, m, hi, es.last()) && items_run(toks, lo, m, fs, xs, ts, ms, es.drop_last())
        }
    }
}

/// `program = { extern | fun | type | method | element }`: the whole token
/// sequence read as the program's declarations and top-level elements.
pub open spec fn is_program(toks: Seq<(Token, Span)>, p: Program) -> bool {
    items_run(toks, 0, toks.len() as int, p.funcs@, p.externs@, p.types@, p.methods@, p.body.elements@)
}

/// A literal token: a number or a boolean.
pub open spec fn literal_token_at(toks: Seq<(Token, Span)>, i: int) -> bool {
    0 <= i < toks.len() && (toks[i].0 is Num || toks[i].0 is Bool)
}

/// Nothing at `i` continues an expression: the input ends or a `let` begins.
pub open spec fn let_or_end_at(toks: Seq<(Token, Span)>, i: int) -> bool {
    i >= toks.len() || toks[i].0 == Token::Let
}

/// Where `let [mut] name ":" builtin "=" literal` starting at `i` ends, if
/// one starts there.
pub open spec fn literal_let_end(toks: Seq<(Token, Span)>, i: int) -> Option<int> {
    let m = if token_at(toks, i + 1, Token::Mut) { i + 2 } else { i + 1 };
    if token_at(toks, i, Token::Let) && 0 <= m && m < toks.len() && toks[m].0 is Ident && ctrl_at(toks, m + 1, ':')
        && m + 2 < toks.len() && builtin_token(toks[m + 2].0) is Some && token_at(toks, m + 3, Token::Op(Operator::Assign))
        && literal_token_at(toks, m + 4) {
        Some(m + 5)
    } else {
        None
    }
}

/// From `i` on, the tokens are literal `let` declarations, one after another.
pub open spec fn literal_lets_from(toks: Seq<(Token, Span)>, i: int) -> bool
    decreases toks.len() - i,
{
    if i >= toks.len() {
        i == toks.len()
    } else {
        match literal_let_end(toks, i) {
            Some(e) => i < e && literal_lets_from(toks, e),
            None => false,
        }
    }
}


/// Each operator token is read as the operation it spells: `+` and `-` as
/// the additive operators, `*` and `/` as the multiplicative ones, and the
/// six comparisons as the comparison of the same name; `!` and `=` are none
/// of them, and neither is any token that is not an operator.
pub proof fn law_operator_tokens(toks: Seq<(Token, Span)>, i: int)
    requires
        0 <= i < toks.len(),
    ensures
        toks[i].0 == Token::Op(Operator::Plus) ==> additive_at(toks, i) == Some(BinaryOp::Add)
            && multiplicative_at(toks, i) == None::<BinaryOp>
            && comparison_at(toks, i) == None::<BinaryOp>,
        toks[i].0 == Token::Op(Operator::Minus) ==> additive_at(toks, i) == Some(BinaryOp::Sub)
            && multiplicative_at(toks, i) == None::<BinaryOp>
            && comparison_at(toks, i) == None::<BinaryOp>,
        toks[i].0 == Token::Op(Operator::Star) ==> additive_at(toks, i) == None::<BinaryOp>
            && multiplicative_at(toks, i) == Some(BinaryOp::Mul)
            && comparison_at(toks, i) == None::<BinaryOp>,
        toks[i].0 == Token::Op(Operator::Slash) ==> additive_at(toks, i) == None::<BinaryOp>
            && multiplicative_at(toks, i) == Some(BinaryOp::Div)
            && comparison_at(toks, i) == None::<BinaryOp>,
        toks[i].0 == Token::Op(Operator::Bang) ==> additive_at(toks, i) == None::<BinaryOp>
            && multiplicative_at(toks, i) == None::<BinaryOp>
            && comparison_at(toks, i) == None::<BinaryOp>,
        toks[i].0 == Token::Op(Operator::Assign) ==> additive_at(toks, i) == None::<BinaryOp>
            && multiplicative_at(toks, i) == None::<BinaryOp>
            && comparison_at(toks, i) == None::<BinaryOp>,
        toks[i].0 == Token::Op(Operator::Less) ==> additive_at(toks, i) == None::<BinaryOp>
            && multiplicative_at(toks, i) == None::<BinaryOp>
            && comparison_at(toks, i) == Some(BinaryOp::Less),
        toks[i].0 == Token::Op(Operator::Greater) ==> additive_at(toks, i) == None::<BinaryOp>
            && multiplicative_at(toks, i) == None::<BinaryOp>
            && comparison_at(toks, i) == Some(BinaryOp::Greater),
        toks[i].0 == Token::Op(Operator::EqEq) ==> additive_at(toks, i) == None::<BinaryOp>
            && multiplicative_at(toks, i) == None::<BinaryOp>
            && comparison_at(toks, i) == Some(BinaryOp::Eq),
        toks[i].0 == Token::Op(Operator::NotEq) ==> additive_at(toks, i) == None::<BinaryOp>
            && multiplicative_at(toks, i) == None::<BinaryOp>
            && comparison_at(toks, i) == Some(BinaryOp::NotEq),
        toks[i].0 == Token::Op(Operator::LessEq) ==> additive_at(toks, i) == None::<BinaryOp>
            && multiplicative_at(toks, i) == None::<BinaryOp>
            && comparison_at(toks, i) == Some(BinaryOp::LessEq),
        toks[i].0 == Token::Op(Operator::GreaterEq) ==> additive_at(toks, i) == None::<BinaryOp>
            && multiplicative_at(toks, i) == None::<BinaryOp>
            && comparison_at(toks, i) == Some(BinaryOp::GreaterEq),
        !(toks[i].0 is Op) ==> additive_at(toks, i) is None && multiplicative_at(toks, i) is None && comparison_at(toks, i) is None,
{
}

/// Each built-in type token names the built-in type of the same name, and no
/// other token names one.
pub proof fn law_builtin_tokens(t: Token)
    ensures
        builtin_token(Token::TyDec64) == Some(TypeName::Dec64),
        builtin_token(Token::TyInt64) == Some(TypeName::Int64),
        builtin_token(Token::TyBool) == Some(TypeName::Bool),
        builtin_token(Token::TyNil) == Some(TypeName::Nil),
        builtin_token(Token::TyUInt8) == Some(TypeName::UInt8),
        builtin_token(Token::TyUInt16) == Some(TypeName::UInt16),
        builtin_token(Token::TyUInt32) == Some(TypeName::UInt32),
        builtin_token(Token::TyUInt64) == Some(TypeName::UInt64),
        builtin_token(Token::TyFloat32) == Some(TypeName::Float32),
        builtin_token(t) is Some ==> t is TyDec64 || t is TyInt64 || t is TyBool || t is TyNil || t is TyUInt8 || t is TyUInt16 || t is TyUInt32 || t is TyUInt64 || t is TyFloat32,
{
}

} // verus!

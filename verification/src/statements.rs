//! Checking blocks, statements, conditions, type tests and local types.

use vstd::prelude::*;
use crate::ast::{Block, BlockElement, Condition, Element, Expr, IfForm, PlaceRootName, SExpr, Span, TypeName, TypeRef, TypeTest, Value};
use crate::checker::{
    clone_place, clone_root, coerce, contains_ty, ctx_intern_box, ctx_intern_sum, declare, env_ok, in_state,
    is_moved, mark_consumed, merge_moves, path_text, place_ok, release, resolve_place, Binding, Ctx, Decls,
    Place, PlaceRoot, TBlock, TCondition, TExpr, TStmt, TStmtIf, TSumTypeTest, TTypeTest, TValueIf,
};
use crate::collect::{dedupe_sum, distinct_of, lemma_distinct_of, sort_tys};
use crate::expressions::{
    block_well_typed, calls_of, carried_ty, check_call, check_expr, condition_well_typed, lemma_converts, method_shapes,
    stmt_well_typed, typed, CheckedCall, texpr_ok, def_shapes,
};
use crate::text::{concat3, owned, push_char, push_str, push_string, same};
use crate::types::{normalized, Ty, TypeDef, TypeId, NIL_NEEDS_A_SUM_SIBLING, STANDALONE_NIL, SUM_TOO_FEW_MEMBERS};

verus! {

/// A fresh copy of a move state.
pub(crate) fn clone_state(s: &Vec<(PlaceRoot, Span)>) -> (c: Vec<(PlaceRoot, Span)>)
    ensures
        c@ == s@,
{
    let mut out: Vec<(PlaceRoot, Span)> = Vec::new();
    let mut k: usize = 0;
    while k < s.len()
        invariant
            k <= s@.len(),
            out@ == s@.subrange(0, k as int),
        decreases s@.len() - k,
    {
        out.push((clone_root(&s[k].0), s[k].1));
        proof { assert(out@ =~= s@.subrange(0, (k + 1) as int)); }
        k = k + 1;
    }
    proof { assert(out@ =~= s@); }
    out
}

/// Resolves a type written in a `let`; declarations are resolved once,
/// during collection.
pub(crate) fn resolve_type(ctx: &mut Ctx, d: &Decls, ty: &TypeRef) -> (r: Ty)
    requires
        old(ctx).wf(d),
    ensures
        final(ctx).wf(d),
        final(ctx).grows(old(ctx)),
        final(ctx).ok(r),
        final(ctx).move_state == old(ctx).move_state,
        *ty matches TypeRef::Builtin(n, _) ==> if n == TypeName::Nil {
            r == Ty::Nil && final(ctx).errors@.len() == old(ctx).errors@.len() + 1
                && final(ctx).errors@.last().msg@ == STANDALONE_NIL@
        } else {
            r == crate::types::ty_of_name(n) && *final(ctx) == *old(ctx)
        },
        *ty matches TypeRef::Named(segs, _) ==> (segs@.len() == 1 ==> match r {
            Ty::User(id) => final(ctx).errors@ == old(ctx).errors@ && exists|i: int| 0 <= i < old(ctx).types.top_level_view().len()
                && (#[trigger] old(ctx).types.top_level_view()[i]).0@ == segs@[0].0@ && old(ctx).types.top_level_view()[i].1 == id,
            _ => r == Ty::Nil && final(ctx).errors@.len() == old(ctx).errors@.len() + 1,
        }),
        *ty matches TypeRef::Named(segs, _) ==> (segs@.len() == 2 ==> match r {
            Ty::User(id) => final(ctx).errors@ == old(ctx).errors@ && exists|i: int| 0 <= i < old(ctx).types.members_view().len()
                && (#[trigger] old(ctx).types.members_view()[i]).1@ == segs@[1].0@ && old(ctx).types.members_view()[i].2 == id,
            _ => r == Ty::Nil && final(ctx).errors@.len() == old(ctx).errors@.len() + 1,
        }),
        *ty matches TypeRef::Named(segs, _) ==> (segs@.len() > 2 ==> r == Ty::Nil
            && final(ctx).errors@.len() == old(ctx).errors@.len() + 1),
        ty is Box && final(ctx).types.nb() < u32::MAX ==> r is Box,
    decreases ty, 1nat,
{
    match ty {
        TypeRef::Builtin(name, span) => match name {
            TypeName::Nil => {
                ctx.error(*span, owned(STANDALONE_NIL));
                Ty::Nil
            }
            _ => Ty::from_name(*name),
        },
        TypeRef::Named(segments, span) => {
            if segments.len() == 0 {
                return Ty::Nil;
            }
            let first = &segments[0].0;
            let root = match ctx.types.top_level(first) {
                Some(r) => r,
                None => {
                    ctx.error(segments[0].1, concat3("Unknown type '", first, "'"));
                    return Ty::Nil;
                }
            };
            if segments.len() == 1 {
                Ty::User(root)
            } else if segments.len() == 2 {
                let member = &segments[1].0;
                match ctx.types.member(root, member) {
                    Some(id) => Ty::User(id),
                    None => {
                        let mut m = owned("Unknown type '");
                        push_string(&mut m, first);
                        push_char(&mut m, '.');
                        push_string(&mut m, member);
                        push_char(&mut m, '\'');
                        ctx.error(segments[1].1, m);
                        Ty::Nil
                    }
                }
            } else {
                ctx.error(*span, owned("a qualified type name has at most two components"));
                Ty::Nil
            }
        }
        TypeRef::Sum(members, span) => resolve_sum(ctx, d, members, *span),
        TypeRef::Box(inner, _) => {
            let pointee = resolve_type(ctx, d, inner);
            ctx_intern_box(ctx, d, pointee)
        }
    }
}

/// Whether every resolved entry is valid and is not itself a sum.
pub(crate) open spec fn raw_valid(ctx: &Ctx, raw: Seq<(Option<Ty>, Span)>) -> bool {
    forall|i: int| 0 <= i < raw.len() ==> ((#[trigger] raw[i]).0 matches Some(t) ==> ctx.ok(t) && !(t is Sum))
}

/// Resolves every member of a written sum, expanding a nested sum; a member
/// that reports an error of its own is dropped rather than kept as `Nil`.
pub(crate) fn resolve_sum(ctx: &mut Ctx, d: &Decls, members: &Vec<TypeRef>, span: Span) -> (r: Ty)
    requires
        old(ctx).wf(d),
    ensures
        final(ctx).wf(d),
        final(ctx).grows(old(ctx)),
        final(ctx).ok(r),
        final(ctx).move_state == old(ctx).move_state,
        final(ctx).errors@.len() == old(ctx).errors@.len() ==> (r matches Ty::Sum(id)
            && final(ctx).types.sums_view()[id.0 as int].len() >= 2) || final(ctx).unknown is Some,
        r matches Ty::Sum(id) ==> final(ctx).types.sums_view()[id.0 as int].len() >= 2,
        members@.len() == 0 ==> r == Ty::Nil && final(ctx).errors@.len() > old(ctx).errors@.len(),
    decreases members, 0nat,
{
    let ghost start = *ctx;
    let mut raw: Vec<(Option<Ty>, Span)> = Vec::new();
    let mut i: usize = 0;
    proof { assert(decreases_to!(members => members@)); }
    while i < members.len()
        invariant
            decreases_to!(members => members@),
            i <= members@.len(),
            ctx.wf(d),
            ctx.grows(&start),
            ctx.move_state == start.move_state,
            raw_valid(ctx, raw@),
            ctx.errors@.len() == start.errors@.len() ==> forall|j: int| 0 <= j < raw@.len() ==> (#[trigger] raw@[j]).0 is Some,
            i == 0 ==> raw@.len() == 0,
        decreases members@.len() - i,
    {
        proof { assert(decreases_to!(members@ => members@[i as int])); }
        let member = &members[i];
        match member {
            TypeRef::Builtin(TypeName::Nil, s) => {
                raw.push((Some(Ty::Nil), *s));
            }
            _ => {
                let before = ctx.errors.len();
                let resolved = resolve_type(ctx, d, member);
                if ctx.errors.len() != before {
                    raw.push((None, member.span()));
                } else {
                    match resolved {
                        Ty::Sum(id) => {
                            let flat = ctx.types.sum_members(id);
                            let mut k: usize = 0;
                            while k < flat.len()
                                invariant
                                    k <= flat@.len(),
                                    ctx.wf(d),
                                    normalized(flat@),
                                    forall|j: int| 0 <= j < flat@.len() ==> ctx.ok(#[trigger] flat@[j]),
                                    raw_valid(ctx, raw@),
                                    ctx.errors@.len() == start.errors@.len() ==> forall|j: int| 0 <= j < raw@.len() ==> (#[trigger] raw@[j]).0 is Some,
                                decreases flat@.len() - k,
                            {
                                raw.push((Some(flat[k]), member.span()));
                                k = k + 1;
                            }
                        }
                        other => raw.push((Some(other), member.span())),
                    }
                }
            }
        }
        i = i + 1;
    }
    let outcome = dedupe_sum(&raw);
    if outcome.any_unresolved {
        return Ty::Nil;
    }
    let ghost e_mid = ctx.errors@.len();
    let mut k: usize = 0;
    while k < outcome.duplicates.len()
        invariant
            ctx.wf(d),
            ctx.grows(&start),
            ctx.move_state == start.move_state,
            raw_valid(ctx, raw@),
            ctx.errors@.len() == e_mid + k,
            k <= outcome.duplicates@.len(),
        decreases outcome.duplicates@.len() - k,
    {
        let (t, dup_span) = outcome.duplicates[k];
        let mut m = owned("'");
        push_string(&mut m, &ctx.name(t));
        push_str(&mut m, "' is repeated in this sum type; each member must be distinct");
        ctx.error(dup_span, m);
        k = k + 1;
    }
    if outcome.distinct.len() < 2 {
        let lone_nil = outcome.distinct.len() == 1 && outcome.distinct[0] == Ty::Nil;
        let msg = if lone_nil { owned(NIL_NEEDS_A_SUM_SIBLING) } else { owned(SUM_TOO_FEW_MEMBERS) };
        ctx.error(span, msg);
        return Ty::Nil;
    }
    proof {
        lemma_distinct_of(raw@);
        assert forall|j: int| 0 <= j < outcome.distinct@.len() implies ctx.ok(#[trigger] outcome.distinct@[j]) && !(outcome.distinct@[j] is Sum) by {
            let w = choose|w: int| 0 <= w < raw@.len() && raw@[w].0 == Some(distinct_of(raw@)[j]);
            assert(raw@[w].0 matches Some(t) ==> ctx.ok(t) && !(t is Sum));
        }
    }
    let sorted = sort_tys(outcome.distinct);
    proof {
        assert forall|j: int| 0 <= j < sorted@.len() implies ctx.ok(#[trigger] sorted@[j]) && !(sorted@[j] is Sum) by {
            assert(sorted@.contains(sorted@[j]));
            assert(distinct_of(raw@).contains(sorted@[j]));
        }
    }
    ctx_intern_sum(ctx, d, sorted)
}

/// A built-in type keyword spelled as a type-test segment.
pub fn builtin_type_name(name: &String) -> (r: Option<TypeName>)
    ensures
        r == builtin_named(name@),
{
    if crate::text::string_is(name, "Dec64") {
        Some(TypeName::Dec64)
    } else if crate::text::string_is(name, "Int64") {
        Some(TypeName::Int64)
    } else if crate::text::string_is(name, "Bool") {
        Some(TypeName::Bool)
    } else if crate::text::string_is(name, "Nil") {
        Some(TypeName::Nil)
    } else if crate::text::string_is(name, "UInt8") {
        Some(TypeName::UInt8)
    } else if crate::text::string_is(name, "UInt16") {
        Some(TypeName::UInt16)
    } else if crate::text::string_is(name, "UInt32") {
        Some(TypeName::UInt32)
    } else if crate::text::string_is(name, "UInt64") {
        Some(TypeName::UInt64)
    } else if crate::text::string_is(name, "Float32") {
        Some(TypeName::Float32)
    } else {
        None
    }
}

/// The built-in type a name spells, if any.
pub open spec fn builtin_named(s: Seq<char>) -> Option<TypeName> {
    if s == "Dec64"@ {
        Some(TypeName::Dec64)
    } else if s == "Int64"@ {
        Some(TypeName::Int64)
    } else if s == "Bool"@ {
        Some(TypeName::Bool)
    } else if s == "Nil"@ {
        Some(TypeName::Nil)
    } else if s == "UInt8"@ {
        Some(TypeName::UInt8)
    } else if s == "UInt16"@ {
        Some(TypeName::UInt16)
    } else if s == "UInt32"@ {
        Some(TypeName::UInt32)
    } else if s == "UInt64"@ {
        Some(TypeName::UInt64)
    } else if s == "Float32"@ {
        Some(TypeName::Float32)
    } else {
        None
    }
}

/// A checked condition's places and members are valid.
pub(crate) open spec fn cond_ok(c: TCondition, ctx: &Ctx) -> bool {
    match c {
        TCondition::Test(t) => place_ok(t.place, &ctx.types) && t.member.0 < ctx.types.nd(),
        TCondition::SumTest(t) => place_ok(t.place, &ctx.types) && ctx.ok(t.member),
        TCondition::Expr(_) => true,
    }
}

/// The union-member test: the subject is a place of union type, and the
/// tested type is one direct member of that union.
fn check_type_test(ctx: &mut Ctx, d: &Decls, test: &TypeTest, place: Place, union: TypeId) -> (r: Option<TTypeTest>)
    requires
        old(ctx).wf(d),
        place_ok(place, &old(ctx).types),
        union.0 < old(ctx).types.nd(),
    ensures
        final(ctx).wf(d),
        final(ctx).grows(old(ctx)),
        final(ctx).types == old(ctx).types,
        final(ctx).move_state == old(ctx).move_state,
        r matches Some(t) ==> place_ok(t.place, &final(ctx).types) && t.member.0 < final(ctx).types.nd()
            && (t.binding matches Some(b) ==> final(ctx).ok(b.1)),
        r is None ==> final(ctx).errors@.len() > old(ctx).errors@.len(),
        !(test.member@.len() == 1 || test.member@.len() == 2) ==> r is None,
        r matches Some(t) ==> {
            &&& t.place == place
            &&& exists|i: int| 0 <= i < old(ctx).types.members_view().len()
                && (#[trigger] old(ctx).types.members_view()[i]).0 == union
                && old(ctx).types.members_view()[i].1@ == test.member@.last().0@ && old(ctx).types.members_view()[i].2 == t.member
            &&& (old(ctx).types.defs_view()[t.member.0 as int] matches TypeDef::UnionMember { tag, .. } ==> t.tag == tag)
            &&& (test.binding is None ==> t.binding is None)
            &&& (t.binding matches Some((n, bt)) ==> test.binding matches Some((w, _)) && n@ == w@ && bt == Ty::User(t.member))
        },
{
    let subject = ctx.name(place.ty);
    let member = if test.member.len() == 1 {
        let name = &test.member[0].0;
        match ctx.types.member(union, name) {
            Some(id) => id,
            None => {
                let mut m = owned("'");
                if ctx.types.top_level(name) == Some(union) {
                    push_string(&mut m, &path_text(&test.place));
                    push_str(&mut m, "' already has type '");
                    push_string(&mut m, &subject);
                    push_str(&mut m, "', so this test is always true");
                } else {
                    push_string(&mut m, name);
                    push_str(&mut m, "' is not a direct member of '");
                    push_string(&mut m, &subject);
                    push_str(&mut m, "'");
                }
                ctx.error(test.member_span, m);
                return None;
            }
        }
    } else if test.member.len() == 2 {
        let first = &test.member[0].0;
        let second = &test.member[1].0;
        let root = match ctx.types.top_level(first) {
            Some(r) => r,
            None => {
                ctx.error(test.member[0].1, concat3("Unknown type '", first, "'"));
                return None;
            }
        };
        let id = match ctx.types.member(root, second) {
            Some(id) => id,
            None => {
                let owner = ctx.types.def(root).name().clone();
                let mut m = owned("'");
                push_string(&mut m, &owner);
                push_str(&mut m, "' has no member type '");
                push_string(&mut m, second);
                push_str(&mut m, "'");
                ctx.error(test.member_span, m);
                return None;
            }
        };
        if root != union {
            let named = ctx.types.def(id).name().clone();
            let mut m = owned("'");
            push_string(&mut m, &named);
            push_str(&mut m, "' is not a direct member of '");
            push_string(&mut m, &subject);
            push_str(&mut m, "'");
            ctx.error(test.member_span, m);
            return None;
        }
        id
    } else {
        ctx.error(test.member_span, owned("a tested member name has at most two components"));
        return None;
    };
    let (tag, nil) = match ctx.types.def(member) {
        TypeDef::UnionMember { tag, nil, .. } => (*tag, *nil),
        _ => (0u32, false),
    };
    let binding = match &test.binding {
        Some((name, name_span)) => {
            if nil {
                ctx.error(*name_span, owned("'Nil' carries no value, so it cannot be bound by a type test"));
                None
            } else {
                declare(ctx, name, *name_span, "Binding");
                Some((name.clone(), Ty::User(member)))
            }
        }
        None => None,
    };
    Some(TTypeTest { place, member, tag, binding })
}

/// The inline-sum test: the tested type is one direct member of the sum,
/// named by exactly one segment.
fn check_sum_type_test(ctx: &mut Ctx, d: &Decls, test: &TypeTest, place: Place, sum: crate::types::SumId) -> (r: Option<TSumTypeTest>)
    requires
        old(ctx).wf(d),
        place_ok(place, &old(ctx).types),
        sum.0 < old(ctx).types.ns(),
    ensures
        final(ctx).wf(d),
        final(ctx).grows(old(ctx)),
        final(ctx).types == old(ctx).types,
        final(ctx).move_state == old(ctx).move_state,
        r matches Some(t) ==> place_ok(t.place, &final(ctx).types) && final(ctx).ok(t.member)
            && (t.binding matches Some(b) ==> final(ctx).ok(b.1)),
        r is None ==> final(ctx).errors@.len() > old(ctx).errors@.len(),
        test.member@.len() != 1 ==> r is None,
        r matches Some(t) ==> {
            &&& t.place == place
            &&& t.sum == sum
            &&& old(ctx).types.sums_view()[sum.0 as int].contains(t.member)
            &&& (test.binding is None ==> t.binding is None)
            &&& (t.binding matches Some((n, bt)) ==> test.binding matches Some((w, _)) && n@ == w@ && bt == t.member)
        },
{
    let subject = ctx.name(place.ty);
    if test.member.len() != 1 {
        ctx.error(test.member_span, owned("a type test on an inline sum names exactly one direct member; testing a member inside a named-union member requires a second test after binding that union"));
        return None;
    }
    let name = &test.member[0].0;
    let name_span = test.member[0].1;
    let member = match builtin_type_name(name) {
        Some(b) => Ty::from_name(b),
        None => match ctx.types.top_level(name) {
            Some(id) => Ty::User(id),
            None => {
                ctx.error(name_span, concat3("Unknown type '", name, "'"));
                return None;
            }
        },
    };
    if !contains_ty(ctx.types.sum_members(sum), member) {
        let mut m = owned("'");
        push_string(&mut m, name);
        push_str(&mut m, "' is not a direct member of '");
        push_string(&mut m, &subject);
        push_str(&mut m, "'");
        ctx.error(name_span, m);
        return None;
    }
    let binding = match &test.binding {
        Some((bname, bspan)) => {
            if member == Ty::Nil {
                ctx.error(*bspan, owned("'Nil' carries no value, so it cannot be bound by a type test"));
                None
            } else {
                declare(ctx, bname, *bspan, "Binding");
                Some((bname.clone(), member))
            }
        }
        None => None,
    };
    Some(TSumTypeTest { place, sum, member, binding })
}

/// Pushes a proven type-test binding into scope for the arm body.
fn bind_type_test(env: &mut Vec<Binding>, written: &Option<(String, Span)>, checked: &Option<(String, Ty)>)
    ensures
        final(env)@.len() >= old(env)@.len(),
        forall|i: int| 0 <= i < old(env)@.len() ==> #[trigger] final(env)@[i] == old(env)@[i],
        forall|i: int| old(env)@.len() <= i < final(env)@.len() ==> (checked matches Some(b) && (#[trigger] final(env)@[i]).ty == b.1),
        match (*written, *checked) {
            (Some((n, _)), Some((_, t))) => final(env)@ == old(env)@.push(Binding { name: n, ty: t, mutable: false }),
            _ => final(env)@ == old(env)@,
        },
{
    if let Some((name, _)) = written {
        if let Some((_, t)) = checked {
            env.push(Binding { name: name.clone(), ty: *t, mutable: false });
        }
    }
}

/// One arm's condition; a type-test binding stays in `env` for the arm
/// body only, and the caller restores `env` afterwards.
fn check_arm_condition(ctx: &mut Ctx, d: &Decls, env: &mut Vec<Binding>, condition: &Condition) -> (r: TCondition)
    requires
        old(ctx).wf(d),
        env_ok(old(env)@, &old(ctx).types),
    ensures
        final(ctx).wf(d),
        final(ctx).grows(old(ctx)),
        env_ok(final(env)@, &final(ctx).types),
        keeps(final(env)@, old(env)@),
        cond_ok(r, final(ctx)),
        final(ctx).errors@.len() == old(ctx).errors@.len() ==> cond_typed(r, d),
        condition is Expr ==> r is Expr && final(env)@ == old(env)@,
        condition matches Condition::Expr(e) ==> (e.expr matches Expr::Value(Value::Bool(b))
            ==> r == TCondition::Expr(TExpr::Bool(b)) && final(ctx).errors@ == old(ctx).errors@),
        condition is TypeTest && final(ctx).errors@.len() == old(ctx).errors@.len() ==> r is Test || r is SumTest,
{
    match condition {
        Condition::Expr(e) => {
            let (value, t) = check_expr(ctx, d, env, e);
            if t != Ty::Bool {
                ctx.mismatch(e.span, Ty::Bool, t);
            }
            TCondition::Expr(value)
        }
        Condition::TypeTest(test) => {
            let resolved = match resolve_place(ctx, d, env, &test.place) {
                Some(r) => r,
                None => return TCondition::Expr(TExpr::Bool(false)),
            };
            let place = resolved.place;
            match place.ty {
                Ty::User(id) if ctx.types.union_members(id).is_some() => {
                    match check_type_test(ctx, d, test, place, id) {
                        Some(checked) => {
                            bind_type_test(env, &test.binding, &checked.binding);
                            TCondition::Test(checked)
                        }
                        None => TCondition::Expr(TExpr::Bool(false)),
                    }
                }
                Ty::Sum(sum) => match check_sum_type_test(ctx, d, test, place, sum) {
                    Some(checked) => {
                        bind_type_test(env, &test.binding, &checked.binding);
                        TCondition::SumTest(checked)
                    }
                    None => TCondition::Expr(TExpr::Bool(false)),
                },
                other => {
                    let name = ctx.name(other);
                    let mut m = owned("the left side of 'is' must have a union type or an inline sum type, but '");
                    push_string(&mut m, &path_text(&test.place));
                    push_str(&mut m, "' has type '");
                    push_string(&mut m, &name);
                    push_str(&mut m, "'");
                    ctx.error(test.place.span, m);
                    TCondition::Expr(TExpr::Bool(false))
                }
            }
        }
    }
}

/// A `while` condition: any `Bool` value.
fn check_condition(ctx: &mut Ctx, d: &Decls, env: &Vec<Binding>, condition: &SExpr) -> (r: TExpr)
    requires
        old(ctx).wf(d),
        env_ok(env@, &old(ctx).types),
    ensures
        final(ctx).wf(d),
        final(ctx).grows(old(ctx)),
        final(ctx).errors@.len() == old(ctx).errors@.len() ==> carried_ty(r, d) == Some(Ty::Bool) && typed(r, d),
        condition.expr matches Expr::Value(Value::Bool(b)) ==> r == TExpr::Bool(b) && final(ctx).errors@ == old(ctx).errors@,
        condition.expr matches Expr::Value(v) && !(v is Bool) ==> final(ctx).errors@.len() > old(ctx).errors@.len(),
{
    let (value, t) = check_expr(ctx, d, env, condition);
    if t != Ty::Bool {
        ctx.mismatch(condition.span, Ty::Bool, t);
    }
    value
}

/// `stmt_well_typed` against the declarations being checked.
pub(crate) open spec fn stmt_typed(s: TStmt, d: &Decls) -> bool {
    stmt_well_typed(s, calls_of(d), method_shapes(d), def_shapes(d.defs@))
}

/// `block_well_typed` against the declarations being checked.
pub(crate) open spec fn block_typed(b: TBlock, d: &Decls) -> bool {
    block_well_typed(b, calls_of(d), method_shapes(d), def_shapes(d.defs@))
}

/// An arm's condition and block are typed, and a value arm ends in a value
/// of the expected type.
pub(crate) open spec fn arm_typed(arm: (TCondition, TBlock), expected: Option<Ty>, d: &Decls) -> bool {
    &&& cond_typed(arm.0, d)
    &&& block_typed(arm.1, d)
    &&& (expected matches Some(t) ==> (arm.1.result matches Some(x) && carried_ty(x, d) == Some(t)))
}

/// `condition_well_typed` against the declarations being checked.
pub(crate) open spec fn cond_typed(c: TCondition, d: &Decls) -> bool {
    condition_well_typed(c, calls_of(d), method_shapes(d), def_shapes(d.defs@))
}

/// Whether two places are the same.
pub(crate) fn same_place(a: &Place, b: &Place) -> (r: bool)
    ensures
        r == (a.root.same_as(b.root) && a.root_ty == b.root_ty && a.path@ == b.path@ && a.ty == b.ty),
{
    if !a.root.same(&b.root) || a.root_ty != b.root_ty || a.ty != b.ty || a.path.len() != b.path.len() {
        return false;
    }
    let mut k: usize = 0;
    while k < a.path.len()
        invariant
            a.path@.len() == b.path@.len(),
            k <= a.path@.len(),
            forall|j: int| 0 <= j < k ==> a.path@[j] == b.path@[j],
        decreases a.path@.len() - k,
    {
        if a.path[k] != b.path[k] {
            return false;
        }
        k = k + 1;
    }
    proof { assert(a.path@ =~= b.path@); }
    true
}

/// What an `if` chain proves about member coverage.
pub(crate) struct ChainFact {
    /// Every arm tests one place, and every direct member is tested once.
    pub(crate) exhaustive: bool,
    /// The names of the members a same-place chain fails to handle.
    pub(crate) missing: Vec<String>,
}

/// The place a condition tests and the member it tests for; `None` for a
/// plain value condition.
pub(crate) open spec fn tested_by(c: TCondition) -> Option<(Place, Ty)> {
    match c {
        TCondition::Test(t) => Some((t.place, Ty::User(t.member))),
        TCondition::SumTest(t) => Some((t.place, t.member)),
        TCondition::Expr(_) => None,
    }
}

/// The direct members of a union or inline sum type.
pub(crate) open spec fn subject_members(types: &crate::types::Types, t: Ty) -> Option<Seq<Ty>> {
    match t {
        Ty::User(id) => match types.defs_view()[id.0 as int] {
            TypeDef::Union { members, .. } => Some(members@.map_values(|m: TypeId| Ty::User(m))),
            _ => None,
        },
        Ty::Sum(s) => Some(types.sums_view()[s.0 as int]),
        _ => None,
    }
}

/// Two places select the same storage in the same way.
pub(crate) open spec fn same_place_spec(a: Place, b: Place) -> bool {
    a.root.same_as(b.root) && a.root_ty == b.root_ty && a.path@ == b.path@ && a.ty == b.ty
}

/// Some arm among the first `n` tests for `m`.
pub(crate) open spec fn covered(arms: Seq<(TCondition, TBlock)>, n: int, m: Ty) -> bool {
    exists|k: int| 0 <= k < n && tested_by((#[trigger] arms[k]).0)->Some_0.1 == m
}

/// The first `n` arms all test one place, that place has a union or inline
/// sum type with members, and every member is tested by some arm.
pub(crate) open spec fn chain_covers(types: &crate::types::Types, arms: Seq<(TCondition, TBlock)>, n: int) -> bool {
    &&& n > 0
    &&& forall|k: int| 0 <= k < n ==> (tested_by((#[trigger] arms[k]).0) matches Some((p, _))
        && same_place_spec(tested_by(arms[0].0)->Some_0.0, p))
    &&& subject_members(types, tested_by(arms[0].0)->Some_0.0.ty) matches Some(ms)
    &&& ms.len() > 0
    &&& forall|j: int| 0 <= j < ms.len() ==> covered(arms, n, #[trigger] ms[j])
}

/// Some arm among the first `n` is not a test of the same place as the
/// first arm.
pub(crate) open spec fn chain_broken(arms: Seq<(TCondition, TBlock)>, n: int) -> bool {
    exists|k: int| 0 <= k < n && (tested_by((#[trigger] arms[k]).0) is None
        || tested_by(arms[0].0) is None
        || !same_place_spec(tested_by(arms[0].0)->Some_0.0, tested_by(arms[k].0)->Some_0.0))
}

/// The arms looked at: those that have a span.
pub(crate) open spec fn arms_seen(arms: Seq<(TCondition, TBlock)>, spans: Seq<Span>) -> int {
    if arms.len() < spans.len() { arms.len() as int } else { spans.len() as int }
}

/// Proves, never guesses, whether a chain covers every member of its
/// subject, and reports a branch that repeats an earlier member.
fn analyze_chain(ctx: &mut Ctx, d: &Decls, arms: &Vec<(TCondition, TBlock)>, spans: &Vec<Span>) -> (r: ChainFact)
    requires
        old(ctx).wf(d),
        forall|k: int| 0 <= k < arms@.len() ==> cond_ok((#[trigger] arms@[k]).0, old(ctx)),
    ensures
        final(ctx).wf(d),
        final(ctx).grows(old(ctx)),
        final(ctx).types == old(ctx).types,
        final(ctx).move_state == old(ctx).move_state,
        r.exhaustive ==> r.missing@.len() == 0,
        (exists|k: int| 0 <= k < arms_seen(arms@, spans@) && (#[trigger] arms@[k]).0 is Expr) ==> !r.exhaustive && r.missing@.len() == 0,
        r.exhaustive == chain_covers(&old(ctx).types, arms@, arms_seen(arms@, spans@)),
{
    let mut subject: Option<Place> = None;
    let mut tested: Vec<Ty> = Vec::new();
    let mut chain = true;
    let mut i: usize = 0;
    let ghost n = arms_seen(arms@, spans@);
    while i < arms.len() && i < spans.len()
        invariant_except_break
            chain,
        invariant
            ctx.wf(d),
            ctx.grows(old(ctx)),
            ctx.types == old(ctx).types,
            ctx.move_state == old(ctx).move_state,
            forall|k: int| 0 <= k < arms@.len() ==> cond_ok((#[trigger] arms@[k]).0, ctx),
            subject matches Some(p) ==> place_ok(p, &ctx.types),
            i <= n,
            n == arms_seen(arms@, spans@),
            chain ==> (i == 0 <==> subject is None),
            chain ==> forall|k: int| 0 <= k < i ==> (tested_by((#[trigger] arms@[k]).0) matches Some((p, _))
                && same_place_spec(subject->Some_0, p)),
            chain && i > 0 ==> same_place_spec(tested_by(arms@[0].0)->Some_0.0, subject->Some_0),
            chain ==> forall|k: int| 0 <= k < i ==> tested@.contains(tested_by((#[trigger] arms@[k]).0)->Some_0.1),
            forall|t: Ty| tested@.contains(t) ==> covered(arms@, i as int, t),
        ensures
            !chain ==> chain_broken(arms@, n),
            chain ==> i == n,
            chain ==> (i == 0 <==> subject is None),
            chain ==> forall|k: int| 0 <= k < i ==> (tested_by((#[trigger] arms@[k]).0) matches Some((p, _))
                && same_place_spec(subject->Some_0, p)),
            chain && i > 0 ==> same_place_spec(tested_by(arms@[0].0)->Some_0.0, subject->Some_0),
            chain ==> forall|k: int| 0 <= k < i ==> tested@.contains(tested_by((#[trigger] arms@[k]).0)->Some_0.1),
            forall|t: Ty| tested@.contains(t) ==> covered(arms@, i as int, t),
            subject matches Some(p) ==> place_ok(p, &ctx.types),
            ctx.wf(d),
            ctx.grows(old(ctx)),
            ctx.types == old(ctx).types,
            ctx.move_state == old(ctx).move_state,
        decreases arms@.len() - i,
    {
        proof { assert(cond_ok(arms@[i as int].0, ctx)); }
        let (place, member) = match &arms[i].0 {
            TCondition::Test(t) => (&t.place, Ty::User(t.member)),
            TCondition::SumTest(t) => (&t.place, t.member),
            TCondition::Expr(_) => {
                chain = false;
                proof { assert(tested_by(arms@[i as int].0) is None); }
                break;
            }
        };
        match &subject {
            None => {
                subject = Some(clone_place(place));
            }
            Some(first) => {
                if !same_place(first, place) {
                    chain = false;
                    proof {
                        assert(tested_by(arms@[i as int].0)->Some_0.0 == *place);
                        assert(!same_place_spec(tested_by(arms@[0].0)->Some_0.0, tested_by(arms@[i as int].0)->Some_0.0));
                    }
                    break;
                }
            }
        }
        let ghost tested0 = tested@;
        if contains_ty(&tested, member) {
            let mut m = owned("'");
            push_string(&mut m, &ctx.name(member));
            push_str(&mut m, "' is already handled by an earlier branch, so this branch is unreachable");
            ctx.error(spans[i], m);
        } else {
            tested.push(member);
            proof { assert(tested@[tested0.len() as int] == member); }
        }
        proof {
            assert(tested_by(arms@[i as int].0) == Some((*place, member)));
            assert(tested@.contains(member));
            assert forall|k: int| 0 <= k < i + 1 implies tested@.contains(tested_by((#[trigger] arms@[k]).0)->Some_0.1) by {
                if k < i {
                    assert(tested0.contains(tested_by(arms@[k].0)->Some_0.1));
                    let j = choose|j: int| 0 <= j < tested0.len() && tested0[j] == tested_by(arms@[k].0)->Some_0.1;
                    assert(tested@[j] == tested0[j]);
                }
            }
            assert forall|t: Ty| tested@.contains(t) implies covered(arms@, i + 1, t) by {
                if t == member {
                    assert(tested_by(arms@[i as int].0)->Some_0.1 == t);
                } else {
                    let j = choose|j: int| 0 <= j < tested@.len() && tested@[j] == t;
                    assert(tested0[j] == t);
                    assert(tested0.contains(t));
                    assert(covered(arms@, i as int, t));
                    let k = choose|k: int| 0 <= k < i && tested_by((#[trigger] arms@[k]).0)->Some_0.1 == t;
                    assert(tested_by(arms@[k].0)->Some_0.1 == t);
                }
            }
        }
        i = i + 1;
    }
    let place = match (chain, &subject) {
        (true, Some(p)) => p,
        _ => {
            proof {
                if !chain {
                    lemma_broken_not_covers(&old(ctx).types, arms@, n);
                }
            }
            return ChainFact { exhaustive: false, missing: Vec::new() };
        }
    };
    proof {
        assert(same_place_spec(tested_by(arms@[0].0)->Some_0.0, *place));
        assert(tested_by(arms@[0].0)->Some_0.0.ty == place.ty);
    }
    let members: Vec<Ty> = match place.ty {
        Ty::User(id) => match ctx.types.union_members(id) {
            Some(ms) => {
                let mut out: Vec<Ty> = Vec::new();
                let mut k: usize = 0;
                while k < ms.len()
                    invariant
                        k <= ms@.len(),
                        out@ =~= ms@.subrange(0, k as int).map_values(|m: TypeId| Ty::User(m)),
                    decreases ms@.len() - k,
                {
                    out.push(Ty::User(ms[k]));
                    k = k + 1;
                }
                proof { assert(ms@.subrange(0, ms@.len() as int) =~= ms@); }
                out
            }
            None => {
                proof { assert(subject_members(&old(ctx).types, place.ty) is None); }
                return ChainFact { exhaustive: false, missing: Vec::new() };
            }
        },
        Ty::Sum(id) => {
            let ms = ctx.types.sum_members(id);
            let mut out: Vec<Ty> = Vec::new();
            let mut k: usize = 0;
            while k < ms.len()
                invariant
                    k <= ms@.len(),
                    out@ =~= ms@.subrange(0, k as int),
                decreases ms@.len() - k,
            {
                out.push(ms[k]);
                k = k + 1;
            }
            out
        }
        _ => {
            proof { assert(subject_members(&old(ctx).types, place.ty) is None); }
            return ChainFact { exhaustive: false, missing: Vec::new() };
        }
    };
    proof {
        assert(members@ == subject_members(&old(ctx).types, place.ty)->Some_0);
        assert forall|t: Ty| tested@.contains(t) <==> covered(arms@, n, t) by {
            if covered(arms@, n, t) {
                let k = choose|k: int| 0 <= k < n && tested_by((#[trigger] arms@[k]).0)->Some_0.1 == t;
                assert(tested@.contains(tested_by(arms@[k].0)->Some_0.1));
            }
        }
    }
    let mut missing: Vec<String> = Vec::new();
    let mut k: usize = 0;
    while k < members.len()
        invariant
            k <= members@.len(),
            missing@.len() == 0 <==> forall|j: int| 0 <= j < k ==> tested@.contains(#[trigger] members@[j]),
        decreases members@.len() - k,
    {
        if !contains_ty(&tested, members[k]) {
            missing.push(ctx.name(members[k]));
        }
        k = k + 1;
    }
    let exhaustive = missing.len() == 0 && members.len() > 0;
    proof {
        let ms = members@;
        if exhaustive {
            assert forall|j: int| 0 <= j < ms.len() implies covered(arms@, n, #[trigger] ms[j]) by {
                assert(tested@.contains(ms[j]));
            }
            assert(chain_covers(&old(ctx).types, arms@, n));
        } else if chain_covers(&old(ctx).types, arms@, n) {
            assert forall|j: int| 0 <= j < ms.len() implies tested@.contains(#[trigger] ms[j]) by {
                assert(covered(arms@, n, ms[j]));
            }
        }
    }
    ChainFact { exhaustive, missing }
}

/// A broken chain covers nothing.
proof fn lemma_broken_not_covers(types: &crate::types::Types, arms: Seq<(TCondition, TBlock)>, n: int)
    requires
        chain_broken(arms, n),
    ensures
        !chain_covers(types, arms, n),
{
    let k = choose|k: int| 0 <= k < n && (tested_by((#[trigger] arms[k]).0) is None
        || tested_by(arms[0].0) is None
        || !same_place_spec(tested_by(arms[0].0)->Some_0.0, tested_by(arms[k].0)->Some_0.0));
    if chain_covers(types, arms, n) {
        assert(tested_by(arms[k].0) is Some);
        assert(tested_by(arms[0].0) is Some);
    }
}

/// An `env` prefix is kept: `before` is still the start of `after`.
pub(crate) open spec fn keeps(after: Seq<Binding>, before: Seq<Binding>) -> bool {
    after.len() >= before.len() && forall|i: int| 0 <= i < before.len() ==> #[trigger] after[i] == before[i]
}

/// A block that must supply a value of `expected`: every element but the
/// last is a statement, and the last is a value or a value-form `if`.
pub(crate) fn check_value_block(ctx: &mut Ctx, d: &Decls, env: &mut Vec<Binding>, block: &Block, expected: Ty) -> (r: TBlock)
    requires
        old(ctx).wf(d),
        env_ok(old(env)@, &old(ctx).types),
        old(ctx).ok(expected),
    ensures
        final(ctx).wf(d),
        final(ctx).grows(old(ctx)),
        final(env)@ == old(env)@,
        final(ctx).errors@.len() == old(ctx).errors@.len() ==> block_typed(r, d)
            && (r.result matches Some(v) && carried_ty(v, d) == Some(expected)),
    decreases block, 3nat,
{
    let ghost start = *ctx;
    let ghost env0 = env@;
    let scope = env.len();
    let mut statements: Vec<TStmt> = Vec::new();
    let mut result: Option<TExpr> = None;
    let n = block.elements.len();
    let mut index: usize = 0;
    proof { assert(decreases_to!(block => block.elements@)); }
    while index < n
        invariant
            decreases_to!(block => block.elements@),
            n == block.elements@.len(),
            index <= n,
            scope == env0.len(),
            ctx.wf(d),
            ctx.grows(&start),
            start.wf(d),
            start.ok(expected),
            env_ok(env@, &ctx.types),
            keeps(env@, env0),
            ctx.errors@.len() == start.errors@.len() ==> forall|k: int| 0 <= k < statements@.len()
                ==> stmt_typed(#[trigger] statements@[k], d),
            ctx.errors@.len() == start.errors@.len() ==> (result matches Some(v) ==> typed(v, d) && carried_ty(v, d) == Some(expected)),
            result is Some ==> index == n,
            ctx.errors@.len() == start.errors@.len() && index == n && n > 0 ==> result is Some,
        decreases n - index,
    {
        proof { assert(decreases_to!(block.elements@ => block.elements@[index as int])); }
        let element = &block.elements[index];
        let ghost before = *ctx;
        if index + 1 != n {
            let st = check_stmt(ctx, d, env, element);
            statements.push(st);
        } else {
            match &element.kind {
                BlockElement::Expr(e) => {
                    let (value, t) = check_expr(ctx, d, env, e);
                    let value = mark_consumed(ctx, value, e.span);
                    let ghost consumed = value;
                    let converted = coerce(ctx, value, t, expected, e.span);
                    proof {
                        if ctx.errors@.len() == start.errors@.len() {
                            lemma_converts(converted, consumed, t, expected, d);
                        }
                    }
                    result = Some(converted);
                }
                BlockElement::If(form) => {
                    proof { assert(decreases_to!(block.elements@[index as int] => form)); }
                    result = Some(check_value_if(ctx, d, env, form, expected));
                }
                _ => {
                    let mut m = owned("this block must end in an expression of type '");
                    push_string(&mut m, &ctx.name(expected));
                    push_str(&mut m, "', but it ends in a statement");
                    ctx.error(element.span, m);
                    let st = check_stmt(ctx, d, env, element);
                    statements.push(st);
                }
            }
        }
        index = index + 1;
    }
    if result.is_none() && n == 0 {
        let mut m = owned("this block must end in an expression of type '");
        push_string(&mut m, &ctx.name(expected));
        push_str(&mut m, "', but it is empty");
        ctx.error(block.span, m);
    }
    env.truncate(scope);
    proof { assert(env@ =~= env0); }
    TBlock { statements, result }
}

/// A literal of the built-in type `n`.
pub open spec fn literal_of(n: TypeName, value: SExpr) -> bool {
    match value.expr {
        Expr::Value(Value::Num(lit)) => crate::expressions::literal_ty(lit) == crate::types::ty_of_name(n),
        Expr::Value(Value::Bool(_)) => n == TypeName::Bool,
        _ => false,
    }
}

/// `let [mut] name: T = literal`, where `T` is a built-in type other than
/// `Nil` and the literal has type `T`.
pub open spec fn literal_let(el: Element) -> bool {
    el.kind matches BlockElement::Let { ty, value, .. }
        && (ty matches TypeRef::Builtin(n, _) && n != TypeName::Nil && literal_of(n, value))
}

/// The name a `let` binds.
pub open spec fn let_name(el: Element) -> Seq<char> {
    match el.kind {
        BlockElement::Let { name, .. } => name@,
        _ => Seq::empty(),
    }
}

/// Every element is a literal `let`, and no two bind the same name, nor any
/// name in `declared`.
pub open spec fn fresh_literal_lets(es: Seq<Element>, declared: Seq<String>) -> bool {
    &&& forall|k: int| 0 <= k < es.len() ==> literal_let(#[trigger] es[k])
    &&& forall|i: int, j: int| 0 <= i < j < es.len() ==> let_name(#[trigger] es[i]) != let_name(#[trigger] es[j])
    &&& forall|k: int, i: int| 0 <= k < es.len() && 0 <= i < declared.len() ==> (#[trigger] declared[i])@ != let_name(#[trigger] es[k])
}

/// The type of a literal value: a number's by its suffix, or `Bool`.
pub open spec fn literal_value_ty(value: SExpr) -> Option<Ty> {
    match value.expr {
        Expr::Value(Value::Num(lit)) => Some(crate::expressions::literal_ty(lit)),
        Expr::Value(Value::Bool(_)) => Some(Ty::Bool),
        _ => None,
    }
}

/// `let [mut] name: T = literal`, with `T` a built-in type other than `Nil`
/// that the literal's type cannot be assigned to.
pub open spec fn mismatched_literal_let(el: Element) -> bool {
    el.kind matches BlockElement::Let { ty, value, .. } && (ty matches TypeRef::Builtin(n, _) && n != TypeName::Nil
        && literal_value_ty(value) is Some
        && literal_value_ty(value)->Some_0 != crate::types::ty_of_name(n)
        && !crate::checker::implicit_conversion(literal_value_ty(value)->Some_0, crate::types::ty_of_name(n)))
}

/// The diagnostic for a literal `let` whose literal cannot be assigned to
/// the declared type.
pub open spec fn mismatch_message(el: Element) -> Seq<char> {
    "expected '"@ + crate::types::scalar_name(crate::types::ty_of_name(el.kind->Let_ty->Builtin_0))
        + "', found '"@ + crate::types::scalar_name(literal_value_ty(el.kind->Let_value)->Some_0) + "'"@
}

/// Some diagnostic from position `from` on has exactly this text.
pub open spec fn reported(errors: Seq<crate::checker::Error>, from: int, msg: Seq<char>) -> bool {
    exists|k: int| from <= k < errors.len() && (#[trigger] errors[k]).msg@ == msg
}

/// The diagnostic for a name declared twice in one function.
pub open spec fn redeclared_message(name: Seq<char>) -> Seq<char> {
    "Variable '"@ + name + "' already exists"@
}

/// A declaration, loop, `break` or `if` is checked into the same kind of
/// statement.
pub open spec fn statement_kind_kept(written: BlockElement, checked: TStmt) -> bool {
    &&& (written is Let ==> checked is Let)
    &&& (written is While ==> checked is While)
    &&& (written is Break ==> checked is Break)
    &&& (written is If ==> checked is If)
}

/// A block with no required value: every element is a statement.
pub(crate) fn check_statement_block(ctx: &mut Ctx, d: &Decls, env: &mut Vec<Binding>, block: &Block) -> (r: TBlock)
    requires
        old(ctx).wf(d),
        env_ok(old(env)@, &old(ctx).types),
    ensures
        final(ctx).wf(d),
        final(ctx).grows(old(ctx)),
        final(env)@ == old(env)@,
        final(ctx).errors@.len() == old(ctx).errors@.len() ==> block_typed(r, d),
        r.result is None,
        r.statements@.len() == block.elements@.len(),
        forall|k: int| 0 <= k < block.elements@.len() ==> statement_kind_kept((#[trigger] block.elements@[k]).kind, r.statements@[k]),
        fresh_literal_lets(block.elements@, old(ctx).declared@) ==> final(ctx).errors@ == old(ctx).errors@
            && final(ctx).unknown == old(ctx).unknown && final(ctx).receiver_calls == old(ctx).receiver_calls,
        old(ctx).loops@.len() == 0 && (exists|k: int| 0 <= k < block.elements@.len() && (#[trigger] block.elements@[k]).kind is Break)
            ==> reported(final(ctx).errors@, old(ctx).errors@.len() as int, BREAK_OUTSIDE_LOOP@),
        forall|k: int| 0 <= k < block.elements@.len() && mismatched_literal_let(#[trigger] block.elements@[k])
            ==> reported(final(ctx).errors@, old(ctx).errors@.len() as int, mismatch_message(block.elements@[k])),
        forall|i: int, j: int| 0 <= i < j < block.elements@.len() && (#[trigger] block.elements@[i]).kind is Let
            && (#[trigger] block.elements@[j]).kind is Let && let_name(block.elements@[i]) == let_name(block.elements@[j])
            ==> reported(final(ctx).errors@, old(ctx).errors@.len() as int, redeclared_message(let_name(block.elements@[j]))),
    decreases block, 3nat,
{
    let ghost start = *ctx;
    let ghost env0 = env@;
    let scope = env.len();
    let mut statements: Vec<TStmt> = Vec::new();
    let mut index: usize = 0;
    proof { assert(decreases_to!(block => block.elements@)); }
    while index < block.elements.len()
        invariant
            decreases_to!(block => block.elements@),
            index <= block.elements@.len(),
            scope == env0.len(),
            ctx.wf(d),
            ctx.grows(&start),
            env_ok(env@, &ctx.types),
            keeps(env@, env0),
            ctx.errors@.len() == start.errors@.len() ==> forall|k: int| 0 <= k < statements@.len()
                ==> stmt_typed(#[trigger] statements@[k], d),
            statements@.len() == index,
            forall|k: int| 0 <= k < index ==> statement_kind_kept((#[trigger] block.elements@[k]).kind, statements@[k]),
            start.loops@.len() == 0 && (exists|k: int| 0 <= k < index && (#[trigger] block.elements@[k]).kind is Break)
                ==> reported(ctx.errors@, start.errors@.len() as int, BREAK_OUTSIDE_LOOP@),
            forall|k: int| 0 <= k < index && mismatched_literal_let(#[trigger] block.elements@[k])
                ==> reported(ctx.errors@, start.errors@.len() as int, mismatch_message(block.elements@[k])),
            forall|k: int| 0 <= k < index && (#[trigger] block.elements@[k]).kind is Let
                ==> exists|q: int| 0 <= q < ctx.declared@.len() && (#[trigger] ctx.declared@[q])@ == let_name(block.elements@[k]),
            forall|i: int, j: int| 0 <= i < j < index && (#[trigger] block.elements@[i]).kind is Let
                && (#[trigger] block.elements@[j]).kind is Let && let_name(block.elements@[i]) == let_name(block.elements@[j])
                ==> reported(ctx.errors@, start.errors@.len() as int, redeclared_message(let_name(block.elements@[j]))),
            fresh_literal_lets(block.elements@, start.declared@) ==> {
                &&& ctx.errors@ == start.errors@
                &&& ctx.unknown == start.unknown
                &&& ctx.receiver_calls == start.receiver_calls
                &&& ctx.declared@.len() == start.declared@.len() + index
                &&& forall|j: int| 0 <= j < start.declared@.len() ==> #[trigger] ctx.declared@[j] == start.declared@[j]
                &&& forall|k: int| 0 <= k < index ==> ctx.declared@[start.declared@.len() + k]@ == let_name(#[trigger] block.elements@[k])
            },
        decreases block.elements@.len() - index,
    {
        proof {
            assert(decreases_to!(block.elements@ => block.elements@[index as int]));
            if fresh_literal_lets(block.elements@, start.declared@) {
                let el = block.elements@[index as int];
                assert(literal_let(el));
                assert forall|i: int| 0 <= i < ctx.declared@.len() implies (#[trigger] ctx.declared@[i])@ != let_name(el) by {
                    if i < start.declared@.len() {
                        assert(ctx.declared@[i] == start.declared@[i]);
                    } else {
                        let k = i - start.declared@.len();
                        assert(ctx.declared@[start.declared@.len() + k]@ == let_name(block.elements@[k]));
                        assert(let_name(block.elements@[k]) != let_name(block.elements@[index as int]));
                    }
                }
            }
        }
        let ghost declared_before = ctx.declared@;
        let ghost before_stmt = *ctx;
        let st = check_stmt(ctx, d, env, &block.elements[index]);
        proof {
            let el = block.elements@[index as int];
            let e0 = start.errors@.len() as int;
            assert forall|m: Seq<char>| reported(before_stmt.errors@, e0, m) implies reported(ctx.errors@, e0, m) by {
                let k = choose|k: int| e0 <= k < before_stmt.errors@.len() && (#[trigger] before_stmt.errors@[k]).msg@ == m;
                assert(ctx.errors@[k] == before_stmt.errors@[k]);
            }
            assert forall|m: Seq<char>| reported(ctx.errors@, before_stmt.errors@.len() as int, m) implies reported(ctx.errors@, e0, m) by {
                let k = choose|k: int| before_stmt.errors@.len() <= k < ctx.errors@.len() && (#[trigger] ctx.errors@[k]).msg@ == m;
            }
            assert forall|k: int| 0 <= k < index + 1 && (#[trigger] block.elements@[k]).kind is Let
                implies exists|q: int| 0 <= q < ctx.declared@.len() && (#[trigger] ctx.declared@[q])@ == let_name(block.elements@[k]) by {
                if k < index {
                    let q = choose|q: int| 0 <= q < before_stmt.declared@.len() && (#[trigger] before_stmt.declared@[q])@ == let_name(block.elements@[k]);
                    assert(ctx.declared@[q] == before_stmt.declared@[q]);
                }
            }
            assert forall|i: int, j: int| 0 <= i < j < index + 1 && (#[trigger] block.elements@[i]).kind is Let
                && (#[trigger] block.elements@[j]).kind is Let && let_name(block.elements@[i]) == let_name(block.elements@[j])
                implies reported(ctx.errors@, e0, redeclared_message(let_name(block.elements@[j]))) by {
                if j == index {
                    let q = choose|q: int| 0 <= q < before_stmt.declared@.len() && (#[trigger] before_stmt.declared@[q])@ == let_name(block.elements@[i]);
                    assert(reported(ctx.errors@, before_stmt.errors@.len() as int, redeclared_message(let_name(el))));
                }
            }
        }
        proof {
            if fresh_literal_lets(block.elements@, start.declared@) {
                assert forall|k: int| 0 <= k < index + 1 implies ctx.declared@[start.declared@.len() + k]@
                    == let_name(#[trigger] block.elements@[k]) by {
                    if k < index {
                        assert(ctx.declared@[start.declared@.len() + k] == declared_before[start.declared@.len() + k]);
                    }
                }
            }
        }
        statements.push(st);
        index = index + 1;
    }
    env.truncate(scope);
    proof { assert(env@ =~= env0); }
    TBlock { statements, result: None }
}

/// Where a condition was written.
pub open spec fn condition_span(c: Condition) -> Span {
    match c {
        Condition::Expr(e) => e.span,
        Condition::TypeTest(t) => t.span,
    }
}

/// Checks every arm of an `if`, each from the same entry move state,
/// collecting each arm's exit state.
fn check_arms(ctx: &mut Ctx, d: &Decls, env: &mut Vec<Binding>, form: &IfForm, expected: Option<Ty>,
    arms: &mut Vec<(TCondition, TBlock)>, spans: &mut Vec<Span>, exits: &mut Vec<Vec<(PlaceRoot, Span)>>, entry: &Vec<(PlaceRoot, Span)>)
    requires
        old(ctx).wf(d),
        env_ok(old(env)@, &old(ctx).types),
        expected matches Some(t) ==> old(ctx).ok(t),
        old(arms)@.len() == 0,
    ensures
        final(ctx).wf(d),
        final(ctx).grows(old(ctx)),
        final(env)@ == old(env)@,
        forall|k: int| 0 <= k < final(arms)@.len() ==> cond_ok((#[trigger] final(arms)@[k]).0, final(ctx)),
        final(ctx).errors@.len() == old(ctx).errors@.len() ==> forall|k: int| 0 <= k < final(arms)@.len()
            ==> arm_typed(#[trigger] final(arms)@[k], expected, d),
        final(arms)@.len() == form.arms@.len(),
        forall|k: int| 0 <= k < form.arms@.len() ==> ((#[trigger] form.arms@[k]).0 is Expr ==> final(arms)@[k].0 is Expr),
        final(spans)@.len() == old(spans)@.len() + form.arms@.len(),
        forall|k: int| 0 <= k < old(spans)@.len() ==> #[trigger] final(spans)@[k] == old(spans)@[k],
        forall|k: int| 0 <= k < form.arms@.len() ==> #[trigger] final(spans)@[old(spans)@.len() + k]
            == condition_span(form.arms@[k].0),
        final(exits)@.len() == old(exits)@.len() + form.arms@.len(),
    decreases form, 2nat,
{
    let ghost start = *ctx;
    let ghost env0 = env@;
    let mut i: usize = 0;
    proof { assert(decreases_to!(form => form.arms@)); }
    while i < form.arms.len()
        invariant
            decreases_to!(form => form.arms@),
            i <= form.arms@.len(),
            ctx.wf(d),
            ctx.grows(&start),
            start.wf(d),
            expected matches Some(t) ==> start.ok(t),
            env_ok(env@, &ctx.types),
            env@ == env0,
            forall|k: int| 0 <= k < arms@.len() ==> cond_ok((#[trigger] arms@[k]).0, ctx),
            ctx.errors@.len() == start.errors@.len() ==> forall|k: int| 0 <= k < arms@.len()
                ==> arm_typed(#[trigger] arms@[k], expected, d),
            arms@.len() == i,
            forall|k: int| 0 <= k < i ==> ((#[trigger] form.arms@[k]).0 is Expr ==> arms@[k].0 is Expr),
            spans@.len() == old(spans)@.len() + i,
            forall|k: int| 0 <= k < old(spans)@.len() ==> #[trigger] spans@[k] == old(spans)@[k],
            forall|k: int| 0 <= k < i ==> #[trigger] spans@[old(spans)@.len() + k] == condition_span(form.arms@[k].0),
            exits@.len() == old(exits)@.len() + i,
        decreases form.arms@.len() - i,
    {
        proof {
            assert(decreases_to!(form.arms@ => form.arms@[i as int]));
            assert(decreases_to!(form.arms@[i as int] => form.arms@[i as int].1));
        }
        let (condition, body) = (&form.arms[i].0, &form.arms[i].1);
        ctx.move_state = clone_state(entry);
        let scope = env.len();
        let ghost before = *ctx;
        let checked = check_arm_condition(ctx, d, env, condition);
        let tb = match expected {
            Some(t) => check_value_block(ctx, d, env, body, t),
            None => check_statement_block(ctx, d, env, body),
        };
        env.truncate(scope);
        proof { assert(env@ =~= env0); }
        spans.push(condition.span());
        exits.push(clone_state(&ctx.move_state));
        let ghost arms0 = arms@;
        arms.push((checked, tb));
        proof {
            assert forall|k: int| 0 <= k < arms0.len() implies arms@[k] == arms0[k] by {}
        }
        i = i + 1;
    }
}

/// A value-form `if`: every path produces a value, through an `else` or a
/// proven-exhaustive type-test chain.
pub(crate) fn check_value_if(ctx: &mut Ctx, d: &Decls, env: &mut Vec<Binding>, form: &IfForm, expected: Ty) -> (r: TExpr)
    requires
        old(ctx).wf(d),
        env_ok(old(env)@, &old(ctx).types),
        old(ctx).ok(expected),
    ensures
        final(ctx).wf(d),
        final(ctx).grows(old(ctx)),
        final(env)@ == old(env)@,
        r matches TExpr::If(v) && v.ty == expected,
        final(ctx).errors@.len() == old(ctx).errors@.len() ==> typed(r, d),
    decreases form, 3nat,
{
    let entry = clone_state(&ctx.move_state);
    let mut arms: Vec<(TCondition, TBlock)> = Vec::new();
    let mut spans: Vec<Span> = Vec::new();
    let mut exits: Vec<Vec<(PlaceRoot, Span)>> = Vec::new();
    check_arms(ctx, d, env, form, Some(expected), &mut arms, &mut spans, &mut exits, &entry);
    let fact = analyze_chain(ctx, d, &arms, &spans);
    let else_branch = match &form.else_branch {
        Some(body) => {
            if fact.exhaustive {
                ctx.error(form.span, owned("this type-test chain already covers every direct member, so the 'else' branch is unreachable"));
            }
            ctx.move_state = clone_state(&entry);
            proof { assert(decreases_to!(form => body)); }
            let checked = check_value_block(ctx, d, env, body, expected);
            exits.push(clone_state(&ctx.move_state));
            Some(checked)
        }
        None => {
            if !fact.exhaustive {
                let name = ctx.name(expected);
                let m = if fact.missing.len() == 0 {
                    let mut m = owned("an 'if' that produces a value of type '");
                    push_string(&mut m, &name);
                    push_str(&mut m, "' requires an 'else' branch");
                    m
                } else {
                    let mut m = owned("this type-test chain produces a value of type '");
                    push_string(&mut m, &name);
                    push_str(&mut m, "' without an 'else' branch, but does not handle ");
                    let mut k: usize = 0;
                    while k < fact.missing.len()
                        decreases fact.missing@.len() - k,
                    {
                        if k > 0 {
                            push_str(&mut m, ", ");
                        }
                        push_string(&mut m, &fact.missing[k]);
                        k = k + 1;
                    }
                    m
                };
                ctx.error(form.span, m);
            }
            None
        }
    };
    if !fact.exhaustive && else_branch.is_none() {
        exits.push(entry);
    }
    ctx.move_state = merge_moves(&exits);
    TExpr::If(Box::new(TValueIf { arms, else_branch, exhaustive: fact.exhaustive, ty: expected }))
}

/// A statement-form `if`: `else` is optional and every branch is a
/// no-result block.
fn check_if_statement(ctx: &mut Ctx, d: &Decls, env: &mut Vec<Binding>, form: &IfForm) -> (r: TStmt)
    requires
        old(ctx).wf(d),
        env_ok(old(env)@, &old(ctx).types),
    ensures
        final(ctx).wf(d),
        final(ctx).grows(old(ctx)),
        final(env)@ == old(env)@,
        r is If,
        final(ctx).errors@.len() == old(ctx).errors@.len() ==> stmt_typed(r, d),
    decreases form, 3nat,
{
    let entry = clone_state(&ctx.move_state);
    let mut arms: Vec<(TCondition, TBlock)> = Vec::new();
    let mut spans: Vec<Span> = Vec::new();
    let mut exits: Vec<Vec<(PlaceRoot, Span)>> = Vec::new();
    check_arms(ctx, d, env, form, None, &mut arms, &mut spans, &mut exits, &entry);
    let fact = analyze_chain(ctx, d, &arms, &spans);
    if fact.exhaustive && form.else_branch.is_some() {
        ctx.error(form.span, owned("this type-test chain already covers every direct member, so the 'else' branch is unreachable"));
    }
    let else_branch = match &form.else_branch {
        Some(body) => {
            ctx.move_state = clone_state(&entry);
            proof { assert(decreases_to!(form => body)); }
            let checked = check_statement_block(ctx, d, env, body);
            exits.push(clone_state(&ctx.move_state));
            Some(checked)
        }
        None => None,
    };
    if !fact.exhaustive && else_branch.is_none() {
        exits.push(entry);
    }
    ctx.move_state = merge_moves(&exits);
    TStmt::If(TStmtIf { arms, else_branch, exhaustive: fact.exhaustive })
}

/// How a written place's root is spelled.
fn root_text(root: &PlaceRootName) -> (s: String)
    ensures
        s@ == crate::checker::written_root(*root),
{
    match root {
        PlaceRootName::Name(n) => n.clone(),
        PlaceRootName::SelfRef => owned("self"),
    }
}

/// `break` needs an enclosing loop.
pub const BREAK_OUTSIDE_LOOP: &'static str = "'break' is only valid inside a 'while' body, which is the only construct that establishes a loop target";

/// Checks one block element: a declaration adds its binding to the
/// environment, and `break` needs an enclosing `while`.
pub(crate) fn check_stmt(ctx: &mut Ctx, d: &Decls, env: &mut Vec<Binding>, element: &Element) -> (r: TStmt)
    requires
        old(ctx).wf(d),
        env_ok(old(env)@, &old(ctx).types),
    ensures
        final(ctx).wf(d),
        final(ctx).grows(old(ctx)),
        env_ok(final(env)@, &final(ctx).types),
        keeps(final(env)@, old(env)@),
        element.kind matches BlockElement::Let { mutable, name, .. } ==> r is Let
            && final(env)@.len() == old(env)@.len() + 1
            && final(env)@.last().name@ == name@ && final(env)@.last().mutable == mutable,
        element.kind is Break ==> r is Break
            && (old(ctx).loops@.len() == 0 ==> final(ctx).errors@.len() == old(ctx).errors@.len() + 1
                && final(ctx).errors@.last().msg@ == BREAK_OUTSIDE_LOOP@)
            && (old(ctx).loops@.len() > 0 ==> final(ctx).errors@ == old(ctx).errors@),
        element.kind is While ==> r is While,
        element.kind is If ==> r is If,
        element.kind is Let ==> exists|i: int| 0 <= i < final(ctx).declared@.len() && (#[trigger] final(ctx).declared@[i])@ == let_name(*element),
        element.kind is Let && (exists|i: int| 0 <= i < old(ctx).declared@.len() && (#[trigger] old(ctx).declared@[i])@ == let_name(*element))
            ==> reported(final(ctx).errors@, old(ctx).errors@.len() as int, redeclared_message(let_name(*element))),
        mismatched_literal_let(*element) ==> reported(final(ctx).errors@, old(ctx).errors@.len() as int,
            mismatch_message(*element)),
        literal_let(*element) && !(exists|i: int| 0 <= i < old(ctx).declared@.len()
            && (#[trigger] old(ctx).declared@[i])@ == let_name(*element)) ==> {
            &&& final(ctx).errors@ == old(ctx).errors@
            &&& final(ctx).unknown == old(ctx).unknown
            &&& final(ctx).receiver_calls == old(ctx).receiver_calls
            &&& final(ctx).declared@.len() == old(ctx).declared@.len() + 1
            &&& forall|i: int| 0 <= i < old(ctx).declared@.len() ==> #[trigger] final(ctx).declared@[i] == old(ctx).declared@[i]
            &&& final(ctx).declared@.last()@ == let_name(*element)
        },
        element.kind matches BlockElement::Assign { place, .. } ==> (crate::checker::place_root_spec(old(ctx).self_ty, old(env)@,
            match place.root { PlaceRootName::Name(n) => Expr::Local(n), PlaceRootName::SelfRef => Expr::SelfRef })
            matches Some((_, _, mutable)) && !mutable ==> final(ctx).errors@.len() > old(ctx).errors@.len()
                && (r is Assign ==> exists|k: int| old(ctx).errors@.len() <= k < final(ctx).errors@.len()
                    && (#[trigger] final(ctx).errors@[k]).span == place.root_span
                    && final(ctx).errors@[k].msg@ == "'"@ + crate::checker::written_root(place.root)
                        + "' is not declared 'mut' and cannot be assigned"@)),
        final(ctx).errors@.len() == old(ctx).errors@.len() ==> stmt_typed(r, d),
    decreases element, 4nat,
{
    match &element.kind {
        BlockElement::Let { mutable, name, name_span, ty, value } => {
            let ghost cstart = *ctx;
            let declared = resolve_type(ctx, d, ty);
            let ghost c0 = *ctx;
            let (checked, value_ty) = check_expr(ctx, d, env, value);
            proof {
                if literal_let(*element) {
                    assert(c0 == cstart);
                    assert(*ctx == c0);
                    assert(value_ty == declared);
                    assert(!(checked is Place));
                }
            }
            let checked = mark_consumed(ctx, checked, value.span);
            let ghost consumed = checked;
            let ghost c1 = *ctx;
            let checked = coerce(ctx, checked, value_ty, declared, value.span);
            proof {
                if ctx.errors@.len() == c0.errors@.len() {
                    lemma_converts(checked, consumed, value_ty, declared, d);
                }
                if literal_let(*element) {
                    assert(c1 == cstart);
                    assert(ctx.errors@ == cstart.errors@);
                }
            }
            let ghost c2 = *ctx;
            proof {
                if mismatched_literal_let(*element) {
                    assert(c1 == cstart);
                    assert(ctx.errors@[cstart.errors@.len() as int] == ctx.errors@.last());
                    let to = crate::types::ty_of_name(element.kind->Let_ty->Builtin_0);
                    let from = literal_value_ty(element.kind->Let_value)->Some_0;
                    assert(cstart.types.shown(to) == crate::types::scalar_name(to));
                    assert(cstart.types.shown(from) == crate::types::scalar_name(from));
                }
            }
            declare(ctx, name, *name_span, "Variable");
            proof {
                if mismatched_literal_let(*element) {
                    assert(ctx.errors@[cstart.errors@.len() as int] == c2.errors@[cstart.errors@.len() as int]);
                }
                if exists|i: int| 0 <= i < cstart.declared@.len() && (#[trigger] cstart.declared@[i])@ == name@ {
                    let i = choose|i: int| 0 <= i < cstart.declared@.len() && (#[trigger] cstart.declared@[i])@ == name@;
                    assert(c2.declared@[i] == cstart.declared@[i]);
                    reveal_strlit("Variable");
                    reveal_strlit(" '");
                    reveal_strlit("Variable '");
                    assert("Variable"@ + " '"@ =~= "Variable '"@);
                    assert(ctx.errors@.last().msg@ =~= redeclared_message(name@));
                    assert(ctx.errors@[ctx.errors@.len() - 1] == ctx.errors@.last());
                } else if !(exists|i: int| 0 <= i < c2.declared@.len() && (#[trigger] c2.declared@[i])@ == name@) {
                    assert(ctx.declared@[ctx.declared@.len() - 1]@ == name@);
                } else {
                    let i = choose|i: int| 0 <= i < c2.declared@.len() && (#[trigger] c2.declared@[i])@ == name@;
                    assert(ctx.declared@[i] == c2.declared@[i]);
                }
            }
            env.push(Binding { name: name.clone(), ty: declared, mutable: *mutable });
            TStmt::Let { mutable: *mutable, name: name.clone(), ty: declared, value: checked }
        }
        BlockElement::Assign { place, value } => {
            let target = resolve_place(ctx, d, env, place);
            let ghost c0 = *ctx;
            let (checked, value_ty) = check_expr(ctx, d, env, value);
            let checked = mark_consumed(ctx, checked, value.span);
            match target {
                Some(res) => {
                    let ghost consumed = checked;
                    let ghost e_mut = ctx.errors@.len();
                    if !res.mutable {
                        let mut m = owned("'");
                        push_string(&mut m, &root_text(&place.root));
                        push_str(&mut m, "' is not declared 'mut' and cannot be assigned");
                        ctx.error(place.root_span, m);
                    }
                    let ghost after_mut = ctx.errors@;
                    let checked = coerce(ctx, checked, value_ty, res.place.ty, value.span);
                    proof {
                        if !res.mutable {
                            assert(ctx.errors@[e_mut as int] == after_mut[e_mut as int]);
                        }
                    }
                    proof {
                        if ctx.errors@.len() == c0.errors@.len() {
                            lemma_converts(checked, consumed, value_ty, res.place.ty, d);
                        }
                    }
                    if let PlaceRoot::SelfRef = res.place.root {
                        if let Some(method) = ctx.current_method {
                            ctx.direct_writes.set(method.index(), true);
                        }
                    }
                    if res.place.path.len() == 0 {
                        release(&mut ctx.move_state, &res.place.root);
                    }
                    TStmt::Assign { place: res.place, value: checked }
                }
                None => {
                    TStmt::Expr(checked)
                }
            }
        }
        BlockElement::While { condition, body } => {
            let condition = check_condition(ctx, d, env, condition);
            let ghost after_condition = ctx.errors@.len();
            let pre = clone_state(&ctx.move_state);
            ctx.loops.push(element.span);
            let body = check_statement_block(ctx, d, env, body);
            let ghost after_body = ctx.errors@.len();
            ctx.loops.pop();
            proof {
                assert(ctx.loops@ =~= old(ctx).loops@);
            }
            let post = clone_state(&ctx.move_state);
            let mut k: usize = 0;
            while k < post.len()
                invariant
                    ctx.wf(d),
                    ctx.grows(old(ctx)),
                    ctx.errors@.len() >= after_body,
                    after_body >= after_condition,
                    env_ok(env@, &ctx.types),
                    keeps(env@, old(env)@),
                decreases post@.len() - k,
            {
                if !is_moved(&pre, &post[k].0) {
                    let root = post[k].0.to_text();
                    let mut m = owned("'");
                    push_string(&mut m, &root);
                    push_str(&mut m, "' is moved here, but this is inside a 'while' body, so a later iteration would find '");
                    push_string(&mut m, &root);
                    push_str(&mut m, "' already moved");
                    ctx.error(post[k].1, m);
                }
                k = k + 1;
            }
            let mut both: Vec<Vec<(PlaceRoot, Span)>> = Vec::new();
            both.push(pre);
            both.push(post);
            ctx.move_state = merge_moves(&both);
            TStmt::While { condition, body }
        }
        BlockElement::Break(span) => {
            if ctx.loops.len() == 0 {
                ctx.error(*span, owned(BREAK_OUTSIDE_LOOP));
            }
            TStmt::Break
        }
        BlockElement::If(form) => check_if_statement(ctx, d, env, form),
        BlockElement::Expr(e) => {
            if let Expr::Call(_, _, _) = &e.expr {
                let ghost c0 = *ctx;
                let called = check_call(ctx, d, env, e);
                proof {
                    if ctx.errors@.len() == c0.errors@.len() && called is Some && called->Some_0 is Value {
                        assert(typed(called->Some_0->Value_0, d));
                    }
                }
                let st = match called {
                    Some(CheckedCall::Function { name, args, result }) => match result {
                        None => TStmt::Call(name, args),
                        Some(_) => TStmt::Expr(TExpr::Call(name, args)),
                    },
                    Some(CheckedCall::Method { call, result }) => match result {
                        None => TStmt::MethodCall(call),
                        Some(_) => TStmt::Expr(TExpr::MethodCall(Box::new(call))),
                    },
                    Some(CheckedCall::Value(v, _)) => TStmt::Expr(v),
                    None => TStmt::Expr(TExpr::Nil),
                };
                return st;
            }
            TStmt::Expr(check_expr(ctx, d, env, e).0)
        }
    }
}

} // verus!

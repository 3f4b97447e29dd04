//! Checking expressions and calls.

use vstd::prelude::*;
use crate::ast::{Arg, BinaryOp, Expr, NumLiteral, ParamMode, SExpr, Span, TypeName, Value};
use crate::checker::{
    as_place, check_move, clone_place, clone_root, coerce, env_ok, find_method, lookup, mark_consumed,
    method_name, operand_numeric, common_numeric, overlaps, place_name, place_ok, ArithOp, Binding, CmpOp,
    Ctx, Decls, Place, PlaceOutcome, PlaceRoot, ReceiverCall, TArg, TBlock, TCondition, TExpr, TMethodCall, TParam,
    TReceiver, TStmt, UseMode,
};
use crate::text::{concat3, owned, push_char, push_str, push_string, same};
use crate::types::{params_ok, opt_ok, Ty, TypeDef, TypeId, MethodId, CONTEXTLESS_NIL};

verus! {

/// Whether a checked value's place, if it is one, has a valid type.
pub(crate) open spec fn texpr_ok(e: TExpr, ctx: &Ctx) -> bool {
    e matches TExpr::Place(p, _) ==> ctx.ok(p.ty)
}

/// What a checked call turned out to be.
pub(crate) enum CheckedCall {
    Function { name: String, args: Vec<TArg>, result: Option<Ty> },
    Method { call: TMethodCall, result: Option<Ty> },
    /// A construction, wrap or unwrap: always a value.
    Value(TExpr, Ty),
}

pub(crate) open spec fn call_ok(c: CheckedCall, ctx: &Ctx, d: &Decls) -> bool {
    match c {
        CheckedCall::Function { result, .. } => result matches Some(t) ==> ctx.ok(t),
        CheckedCall::Method { call, result } => call.method.0 < d.methods@.len() && (result matches Some(t) ==> ctx.ok(t)),
        CheckedCall::Value(e, t) => ctx.ok(t) && texpr_ok(e, ctx),
    }
}

/// A function or bridge as calls see it: its name, each parameter's mode
/// and type, and its result.
pub type Callable = (Seq<char>, Seq<(ParamMode, Ty)>, Option<Ty>);

/// A method as calls see it: each parameter's mode and type, and its result.
pub type MethodShape = (Seq<(ParamMode, Ty)>, Option<Ty>);

/// What typing reads of a type definition: its fields' types, the union a
/// member belongs to, and the type a represented type wraps.
pub type DefShape = (Option<Seq<Ty>>, Option<TypeId>, Option<Ty>);

/// The shape of each definition, by type position.
pub open spec fn def_shapes(defs: Seq<TypeDef>) -> Seq<DefShape> {
    defs.map_values(|t: TypeDef| (
        match t.fields_of() {
            Some(f) => Some(f.map_values(|p: (String, Ty)| p.1)),
            None => None,
        },
        match t {
            TypeDef::UnionMember { union, .. } => Some(union),
            _ => None,
        },
        match t {
            TypeDef::Represented { target, .. } => Some(target),
            _ => None,
        },
    ))
}

/// The type reached from `root` by selecting the fields at `path`, one
/// after another; `None` where a step selects no field.
pub open spec fn path_ty(defs: Seq<DefShape>, root: Ty, path: Seq<usize>) -> Option<Ty>
    decreases path.len(),
{
    if path.len() == 0 {
        Some(root)
    } else {
        match path_ty(defs, root, path.drop_last()) {
            Some(Ty::User(id)) => if id.0 < defs.len() {
                match defs[id.0 as int].0 {
                    Some(fts) => if path.last() < fts.len() { Some(fts[path.last() as int]) } else { None },
                    None => None,
                }
            } else {
                None
            },
            _ => None,
        }
    }
}

/// Each parameter's mode and type.
pub open spec fn param_shapes(ps: Seq<TParam>) -> Seq<(ParamMode, Ty)> {
    ps.map_values(|p: TParam| (p.mode, p.ty))
}

/// The position of the first callable named `name`.
pub open spec fn first_named(calls: Seq<Callable>, name: Seq<char>) -> Option<int>
    decreases calls.len(),
{
    if calls.len() == 0 {
        None
    } else if calls[0].0 == name {
        Some(0)
    } else {
        match first_named(calls.drop_first(), name) {
            Some(i) => Some(i + 1),
            None => None,
        }
    }
}

/// `first_named` finds the first callable of that name.
pub(crate) proof fn lemma_first_named(calls: Seq<Callable>, name: Seq<char>, i: int)
    requires
        0 <= i < calls.len(),
        calls[i].0 == name,
        forall|j: int| 0 <= j < i ==> (#[trigger] calls[j]).0 != name,
    ensures
        first_named(calls, name) == Some(i),
    decreases i,
{
    if i > 0 {
        assert(calls[0].0 != name);
        assert forall|j: int| 0 <= j < i - 1 implies (#[trigger] calls.drop_first()[j]).0 != name by {
            assert(calls.drop_first()[j] == calls[j + 1]);
        }
        lemma_first_named(calls.drop_first(), name, i - 1);
    }
}

/// Each function's and bridge's name and declared result, in signature order.
pub(crate) open spec fn calls_of(d: &Decls) -> Seq<Callable> {
    d.sigs@.map_values(|s: (String, crate::types::FuncSig)| (s.0@, param_shapes(s.1.params@), s.1.result))
}

/// Each method's parameters and declared result, by method position.
pub(crate) open spec fn method_shapes(d: &Decls) -> Seq<MethodShape> {
    d.methods@.map_values(|m: crate::types::MethodSig| (param_shapes(m.params@), m.result))
}

/// The type a checked node records at its root: the literal's, the place's,
/// the declared result of the callee (the first callable of that name, or
/// the method by position), or the type written into the node.
pub open spec fn node_ty(e: TExpr, calls: Seq<Callable>, methods: Seq<MethodShape>, defs: Seq<DefShape>) -> Option<Ty> {
    match e {
        TExpr::Num(lit) => Some(literal_ty(lit)),
        TExpr::Bool(_) => Some(Ty::Bool),
        TExpr::Nil => Some(Ty::Nil),
        TExpr::Place(p, _) => Some(p.ty),
        TExpr::FieldRead { ty, .. } => Some(ty),
        TExpr::Construct { type_id, .. } => Some(Ty::User(type_id)),
        TExpr::Represent { ty, .. } => Some(ty),
        TExpr::Inject { into_union, .. } => Some(Ty::User(into_union)),
        TExpr::InjectSum { sum, .. } => Some(Ty::Sum(sum)),
        TExpr::Arith(_, _, _, t) => Some(t),
        TExpr::Cmp(..) => Some(Ty::Bool),
        TExpr::Call(name, _) => match first_named(calls, name@) {
            Some(i) => calls[i].2,
            None => None,
        },
        TExpr::MethodCall(c) => if c.method.0 < methods.len() { methods[c.method.0 as int].1 } else { None },
        TExpr::If(v) => Some(v.ty),
        TExpr::Print(_, t) => Some(t),
        TExpr::Cast(_, t) => Some(t),
        TExpr::Box(_, t) => Some(t),
    }
}

/// Below the root, every operand carries the type its node expects: both
/// sides of arithmetic and of a comparison the operand type, a cast `Int64`,
/// an injection the member's type, `print` the type it records.
pub open spec fn well_typed(e: TExpr, calls: Seq<Callable>, methods: Seq<MethodShape>, defs: Seq<DefShape>) -> bool
    decreases e,
{
    match e {
        TExpr::Place(p, _) => path_ty(defs, p.root_ty, p.path@) == Some(p.ty),
        TExpr::Arith(l, _, r, t) => node_ty(*l, calls, methods, defs) == Some(t) && node_ty(*r, calls, methods, defs) == Some(t)
            && well_typed(*l, calls, methods, defs) && well_typed(*r, calls, methods, defs),
        TExpr::Cmp(l, _, r, t) => node_ty(*l, calls, methods, defs) == Some(t) && node_ty(*r, calls, methods, defs) == Some(t)
            && well_typed(*l, calls, methods, defs) && well_typed(*r, calls, methods, defs),
        TExpr::Cast(v, t) => t == Ty::Dec64 && node_ty(*v, calls, methods, defs) == Some(Ty::Int64) && well_typed(*v, calls, methods, defs),
        TExpr::Inject { member, value, .. } => node_ty(*value, calls, methods, defs) == Some(Ty::User(member))
            && well_typed(*value, calls, methods, defs),
        TExpr::InjectSum { member, value, .. } => node_ty(*value, calls, methods, defs) == Some(member)
            && well_typed(*value, calls, methods, defs),
        TExpr::Print(v, t) => node_ty(*v, calls, methods, defs) == Some(t) && well_typed(*v, calls, methods, defs),
        TExpr::Box(v, _) => well_typed(*v, calls, methods, defs),
        TExpr::Represent { value, ty } => well_typed(*value, calls, methods, defs) && {
            ||| (ty matches Ty::User(id) && id.0 < defs.len() && defs[id.0 as int].2 == node_ty(*value, calls, methods, defs))
            ||| (node_ty(*value, calls, methods, defs) matches Some(Ty::User(id)) && id.0 < defs.len() && defs[id.0 as int].2 == Some(ty))
        },
        TExpr::FieldRead { base, index, ty } => well_typed(*base, calls, methods, defs)
            && (node_ty(*base, calls, methods, defs) matches Some(Ty::User(id)) && id.0 < defs.len()
                && (defs[id.0 as int].0 matches Some(fts) && index < fts.len() && fts[index as int] == ty)),
        TExpr::Construct { type_id, fields } => forall|k: int| 0 <= k < fields@.len() ==> type_id.0 < defs.len()
            && (defs[type_id.0 as int].0 matches Some(fts) && (#[trigger] fields@[k]).0 < fts.len()
                && node_ty(fields@[k].1, calls, methods, defs) == Some(fts[fields@[k].0 as int])
                && well_typed(fields@[k].1, calls, methods, defs)),
        TExpr::Call(name, args) => first_named(calls, name@) matches Some(i)
            && args_fit(args, calls[i].1, calls, methods, defs),
        TExpr::MethodCall(c) => method_call_fits(*c, calls, methods, defs),
        TExpr::If(v) => {
            &&& forall|k: int| 0 <= k < v.arms@.len() ==> condition_well_typed((#[trigger] v.arms@[k]).0, calls, methods, defs)
                && block_well_typed(v.arms@[k].1, calls, methods, defs)
                && (v.arms@[k].1.result matches Some(x) && node_ty(x, calls, methods, defs) == Some(v.ty))
            &&& (v.else_branch matches Some(b) ==> block_well_typed(b, calls, methods, defs)
                && (b.result matches Some(x) && node_ty(x, calls, methods, defs) == Some(v.ty)))
        },
        _ => true,
    }
}

/// A checked argument fits its parameter: a value parameter gets a typed
/// value of the parameter's type, a reference parameter a place of exactly
/// that type.
pub open spec fn arg_fits(a: TArg, p: (ParamMode, Ty), calls: Seq<Callable>, methods: Seq<MethodShape>, defs: Seq<DefShape>) -> bool
    decreases a,
{
    match a {
        TArg::Value(e) => p.0 == ParamMode::Value && node_ty(e, calls, methods, defs) == Some(p.1) && well_typed(e, calls, methods, defs),
        TArg::Reference(place) => p.0 == ParamMode::Reference && place.ty == p.1
            && path_ty(defs, place.root_ty, place.path@) == Some(place.ty),
    }
}

/// Arguments fit the parameters one for one.
pub open spec fn args_fit(args: Vec<TArg>, params: Seq<(ParamMode, Ty)>, calls: Seq<Callable>, methods: Seq<MethodShape>, defs: Seq<DefShape>) -> bool
    decreases args,
{
    &&& args@.len() == params.len()
    &&& forall|k: int| 0 <= k < args@.len() ==> arg_fits(#[trigger] args@[k], params[k], calls, methods, defs)
}

/// A method call names a method, its arguments fit the method's parameters,
/// and a computed receiver is typed.
pub open spec fn method_call_fits(c: TMethodCall, calls: Seq<Callable>, methods: Seq<MethodShape>, defs: Seq<DefShape>) -> bool
    decreases c,
{
    &&& c.method.0 < methods.len()
    &&& args_fit(c.args, methods[c.method.0 as int].0, calls, methods, defs)
    &&& (c.receiver matches TReceiver::Value(e) ==> well_typed(e, calls, methods, defs))
    &&& (c.receiver matches TReceiver::Place(p) ==> path_ty(defs, p.root_ty, p.path@) == Some(p.ty))
}

/// An `if` or `while` condition written as a value carries `Bool`.
pub open spec fn condition_well_typed(c: TCondition, calls: Seq<Callable>, methods: Seq<MethodShape>, defs: Seq<DefShape>) -> bool
    decreases c,
{
    match c {
        TCondition::Expr(e) => node_ty(e, calls, methods, defs) == Some(Ty::Bool) && well_typed(e, calls, methods, defs),
        _ => true,
    }
}

/// A checked statement's values carry what it expects: a declaration's
/// value its declared type, an assignment's value the place's type, a loop
/// condition `Bool`; nested blocks are typed throughout.
pub open spec fn stmt_well_typed(s: TStmt, calls: Seq<Callable>, methods: Seq<MethodShape>, defs: Seq<DefShape>) -> bool
    decreases s,
{
    match s {
        TStmt::Let { ty, value, .. } => node_ty(value, calls, methods, defs) == Some(ty) && well_typed(value, calls, methods, defs),
        TStmt::Assign { place, value } => node_ty(value, calls, methods, defs) == Some(place.ty) && well_typed(value, calls, methods, defs)
            && path_ty(defs, place.root_ty, place.path@) == Some(place.ty),
        TStmt::While { condition, body } => node_ty(condition, calls, methods, defs) == Some(Ty::Bool)
            && well_typed(condition, calls, methods, defs) && block_well_typed(body, calls, methods, defs),
        TStmt::If(f) => {
            &&& forall|k: int| 0 <= k < f.arms@.len() ==> condition_well_typed((#[trigger] f.arms@[k]).0, calls, methods, defs)
                && block_well_typed(f.arms@[k].1, calls, methods, defs)
            &&& (f.else_branch matches Some(b) ==> block_well_typed(b, calls, methods, defs))
        },
        TStmt::Expr(e) => well_typed(e, calls, methods, defs),
        TStmt::Call(name, args) => first_named(calls, name@) matches Some(i) && args_fit(args, calls[i].1, calls, methods, defs),
        TStmt::MethodCall(c) => method_call_fits(c, calls, methods, defs),
        _ => true,
    }
}

/// Every statement of a block is typed, and so is its result.
pub open spec fn block_well_typed(b: TBlock, calls: Seq<Callable>, methods: Seq<MethodShape>, defs: Seq<DefShape>) -> bool
    decreases b,
{
    &&& forall|k: int| 0 <= k < b.statements@.len() ==> stmt_well_typed(#[trigger] b.statements@[k], calls, methods, defs)
    &&& (b.result matches Some(v) ==> well_typed(v, calls, methods, defs))
}

/// `node_ty` against the declarations being checked.
pub(crate) open spec fn carried_ty(e: TExpr, d: &Decls) -> Option<Ty> {
    node_ty(e, calls_of(d), method_shapes(d), def_shapes(d.defs@))
}

/// `well_typed` against the declarations being checked.
pub(crate) open spec fn typed(e: TExpr, d: &Decls) -> bool {
    well_typed(e, calls_of(d), method_shapes(d), def_shapes(d.defs@))
}

/// A conversion keeps a typed value typed, at the target type.
pub(crate) proof fn lemma_converts(r: TExpr, value: TExpr, from: Ty, to: Ty, d: &Decls)
    requires
        crate::checker::converts(r, value, from, to),
        carried_ty(value, d) == Some(from),
        typed(value, d),
    ensures
        carried_ty(r, d) == Some(to),
        typed(r, d),
{
    reveal_with_fuel(well_typed, 2);
}

/// A checked call's result is the callee's declared one; a value carries
/// its own type.
pub(crate) open spec fn call_carries(c: CheckedCall, d: &Decls) -> bool {
    match c {
        CheckedCall::Function { name, args, result } => first_named(calls_of(d), name@) matches Some(i) && result == calls_of(d)[i].2
            && args_fit(args, calls_of(d)[i].1, calls_of(d), method_shapes(d), def_shapes(d.defs@)),
        CheckedCall::Method { call, result } => call.method.0 < d.methods@.len() && result == method_shapes(d)[call.method.0 as int].1
            && method_call_fits(call, calls_of(d), method_shapes(d), def_shapes(d.defs@)),
        CheckedCall::Value(e, t) => carried_ty(e, d) == Some(t) && typed(e, d),
    }
}

/// The position of the signature named `name`.
pub(crate) fn find_sig(d: &Decls, name: &String) -> (r: Option<usize>)
    ensures
        r matches Some(i) ==> i < d.sigs@.len() && d.sigs@[i as int].0@ == name@
            && first_named(calls_of(d), name@) == Some(i as int),
        r is None ==> forall|j: int| 0 <= j < d.sigs@.len() ==> (#[trigger] d.sigs@[j]).0@ != name@,
{
    let mut i: usize = 0;
    while i < d.sigs.len()
        invariant
            i <= d.sigs@.len(),
            forall|j: int| 0 <= j < i ==> (#[trigger] d.sigs@[j]).0@ != name@,
        decreases d.sigs@.len() - i,
    {
        if same(&d.sigs[i].0, name) {
            proof {
                assert forall|j: int| 0 <= j < i implies (#[trigger] calls_of(d)[j]).0 != name@ by {
                    assert(calls_of(d)[j].0 == d.sigs@[j].0@);
                }
                lemma_first_named(calls_of(d), name@, i as int);
            }
            return Some(i);
        }
        i = i + 1;
    }
    None
}

/// The spelling of a built-in type name.
pub open spec fn type_name_text(n: TypeName) -> Seq<char> {
    match n {
        TypeName::Dec64 => "Dec64"@,
        TypeName::Int64 => "Int64"@,
        TypeName::Bool => "Bool"@,
        TypeName::Nil => "Nil"@,
        TypeName::UInt8 => "UInt8"@,
        TypeName::UInt16 => "UInt16"@,
        TypeName::UInt32 => "UInt32"@,
        TypeName::UInt64 => "UInt64"@,
        TypeName::Float32 => "Float32"@,
    }
}

/// How a built-in type name is spelled.
pub(crate) fn builtin_spelling(n: TypeName) -> (s: String)
    ensures
        s@ == type_name_text(n),
{
    owned(match n {
        TypeName::Dec64 => "Dec64",
        TypeName::Int64 => "Int64",
        TypeName::Bool => "Bool",
        TypeName::Nil => "Nil",
        TypeName::UInt8 => "UInt8",
        TypeName::UInt16 => "UInt16",
        TypeName::UInt32 => "UInt32",
        TypeName::UInt64 => "UInt64",
        TypeName::Float32 => "Float32",
    })
}

/// The names written on arguments, in order.
pub open spec fn named_args(args: Seq<Arg>) -> Seq<(String, Span)>
    decreases args.len(),
{
    if args.len() == 0 {
        Seq::empty()
    } else {
        match args.last().name {
            Some(n) => named_args(args.drop_last()).push(n),
            None => named_args(args.drop_last()),
        }
    }
}

/// The diagnostic for a named argument outside struct construction.
pub open spec fn named_arg_message(name: Seq<char>, what: Seq<char>) -> Seq<char> {
    "named argument '"@ + name + "' is not valid for "@ + what + "; named arguments are only used to construct a struct"@
}

/// Rejects the named-argument form outside struct construction: one
/// diagnostic per named argument, at its name, in order.
pub(crate) fn reject_named_args(ctx: &mut Ctx, d: &Decls, what: &str, args: &Vec<Arg>)
    requires
        old(ctx).wf(d),
    ensures
        final(ctx).wf(d),
        final(ctx).types == old(ctx).types,
        final(ctx).grows(old(ctx)),
        final(ctx).move_state == old(ctx).move_state,
        final(ctx).errors@.len() == old(ctx).errors@.len() + named_args(args@).len(),
        forall|j: int| 0 <= j < old(ctx).errors@.len() ==> #[trigger] final(ctx).errors@[j] == old(ctx).errors@[j],
        forall|k: int| 0 <= k < named_args(args@).len() ==> (#[trigger] final(ctx).errors@[old(ctx).errors@.len() + k]).span
            == named_args(args@)[k].1
            && final(ctx).errors@[old(ctx).errors@.len() + k].msg@ == named_arg_message(named_args(args@)[k].0@, what@),
{
    let ghost e0 = ctx.errors@;
    let mut i: usize = 0;
    proof { assert(args@.subrange(0, 0) =~= Seq::<Arg>::empty()); }
    while i < args.len()
        invariant
            ctx.wf(d),
            ctx.types == old(ctx).types,
            ctx.grows(old(ctx)),
            ctx.move_state == old(ctx).move_state,
            i <= args@.len(),
            e0 == old(ctx).errors@,
            ctx.errors@.len() == e0.len() + named_args(args@.subrange(0, i as int)).len(),
            forall|j: int| 0 <= j < e0.len() ==> #[trigger] ctx.errors@[j] == e0[j],
            forall|k: int| 0 <= k < named_args(args@.subrange(0, i as int)).len() ==> (#[trigger] ctx.errors@[e0.len() + k]).span
                == named_args(args@.subrange(0, i as int))[k].1
                && ctx.errors@[e0.len() + k].msg@ == named_arg_message(named_args(args@.subrange(0, i as int))[k].0@, what@),
        decreases args@.len() - i,
    {
        proof { assert(args@.subrange(0, i + 1).drop_last() =~= args@.subrange(0, i as int)); }
        if let Some((name, span)) = &args[i].name {
            let mut m = owned("named argument '");
            push_string(&mut m, name);
            push_str(&mut m, "' is not valid for ");
            push_str(&mut m, what);
            push_str(&mut m, "; named arguments are only used to construct a struct");
            proof { assert(m@ =~= named_arg_message(name@, what@)); }
            ctx.error(*span, m);
        }
        i = i + 1;
    }
    proof { assert(args@.subrange(0, args@.len() as int) =~= args@); }
}

/// The `"'{name}' called with wrong number of arguments ..."` diagnostic.
fn arity_message(name: &String, expected: usize, found: usize) -> (m: String)
    ensures
        m@ == "'"@ + name@ + "' called with wrong number of arguments (expected "@ + crate::text::decimal(expected as nat)
            + ", found "@ + crate::text::decimal(found as nat) + ")"@,
{
    let mut m = owned("'");
    push_string(&mut m, name);
    push_str(&mut m, "' called with wrong number of arguments (expected ");
    crate::text::push_count(&mut m, expected);
    push_str(&mut m, ", found ");
    crate::text::push_count(&mut m, found);
    push_str(&mut m, ")");
    proof {
        assert(m@ =~= "'"@ + name@ + "' called with wrong number of arguments (expected "@ + crate::text::decimal(expected as nat)
            + ", found "@ + crate::text::decimal(found as nat) + ")"@);
    }
    m
}

/// The aggregate a `value == nil` comparison takes: a named union or an
/// inline sum that directly contains `Nil`.
pub(crate) fn nil_union(ctx: &Ctx, left: Ty, right: Ty) -> (r: Option<Ty>)
    requires
        ctx.types.wf(),
        ctx.ok(left),
        ctx.ok(right),
    ensures
        r matches Some(t) ==> ctx.ok(t),
        r == match nil_pair_spec(&ctx.types, left, right) {
            Some(t) => Some(t),
            None => nil_pair_spec(&ctx.types, right, left),
        },
{
    match nil_pair(ctx, left, right) {
        Some(t) => Some(t),
        None => nil_pair(ctx, right, left),
    }
}

/// `aggregate`, when `other` is `Nil` and `aggregate` is a union with a
/// `Nil` member or an inline sum holding `Nil`.
pub(crate) open spec fn nil_pair_spec(t: &crate::types::Types, aggregate: Ty, other: Ty) -> Option<Ty> {
    if other == Ty::Nil && match aggregate {
        Ty::User(id) => crate::checker::has_nil_member(t, id),
        Ty::Sum(s) => t.sums_view()[s.0 as int].contains(Ty::Nil),
        _ => false,
    } {
        Some(aggregate)
    } else {
        None
    }
}

fn nil_pair(ctx: &Ctx, aggregate: Ty, other: Ty) -> (r: Option<Ty>)
    requires
        ctx.types.wf(),
        ctx.ok(aggregate),
    ensures
        r matches Some(t) ==> ctx.ok(t),
        r == nil_pair_spec(&ctx.types, aggregate, other),
{
    if other != Ty::Nil {
        return None;
    }
    match aggregate {
        Ty::User(id) => {
            let nil = owned("Nil");
            match ctx.types.member(id, &nil) {
                Some(_) => Some(aggregate),
                None => {
                    proof { assert(!crate::checker::has_nil_member(&ctx.types, id)); }
                    None
                }
            }
        }
        Ty::Sum(id) => {
            if crate::checker::contains_ty(ctx.types.sum_members(id), Ty::Nil) {
                Some(aggregate)
            } else {
                None
            }
        }
        _ => None,
    }
}

/// Checks one expression: its checked form and its type.
pub(crate) fn check_expr(ctx: &mut Ctx, d: &Decls, env: &Vec<Binding>, e: &SExpr) -> (r: (TExpr, Ty))
    requires
        old(ctx).wf(d),
        env_ok(env@, &old(ctx).types),
    ensures
        final(ctx).wf(d),
        final(ctx).grows(old(ctx)),
        final(ctx).ok(r.1),
        texpr_ok(r.0, final(ctx)),
        e.expr matches Expr::Value(Value::Num(lit)) ==> r.1 == literal_ty(lit) && r.0 == TExpr::Num(lit) && final(ctx).errors@ == old(ctx).errors@,
        e.expr matches Expr::Value(Value::Bool(b)) ==> r.1 == Ty::Bool && r.0 == TExpr::Bool(b) && final(ctx).errors@ == old(ctx).errors@,
        (e.expr matches Expr::Value(v) && (v is Num || v is Bool || v is Nil)) ==> *final(ctx) == *old(ctx),
        e.expr matches Expr::Value(Value::Nil) ==> r.1 == Ty::Nil && final(ctx).errors@ == old(ctx).errors@,
        e.expr matches Expr::Value(Value::Str(_)) ==> final(ctx).errors@.len() == old(ctx).errors@.len() + 1
            && final(ctx).errors@.last().msg@ == "strings are not supported by the AOT backend"@,
        e.expr is List || e.expr is BuiltinType ==> final(ctx).errors@.len() > old(ctx).errors@.len(),
        e.expr matches Expr::Binary(_, op, _) ==> (!is_arithmetic(op) ==> r.1 == Ty::Bool),
        e.expr matches Expr::Binary(_, op, _) ==> (is_arithmetic(op) ==> (r.0 matches TExpr::Arith(_, o, _, _) && o == arith_of(op))),
        e.expr matches Expr::Binary(_, op, _) ==> (!is_arithmetic(op) ==> (r.0 matches TExpr::Cmp(_, o, _, _) && o == comparison_denoted(op))),
        e.expr matches Expr::Binary(_, BinaryOp::Add, _) ==> r.0 matches TExpr::Arith(_, ArithOp::Add, _, _),
        e.expr matches Expr::Binary(_, BinaryOp::Sub, _) ==> r.0 matches TExpr::Arith(_, ArithOp::Sub, _, _),
        e.expr matches Expr::Binary(_, BinaryOp::Mul, _) ==> r.0 matches TExpr::Arith(_, ArithOp::Mul, _, _),
        e.expr matches Expr::Binary(_, BinaryOp::Div, _) ==> r.0 matches TExpr::Arith(_, ArithOp::Div, _, _),
        e.expr matches Expr::Binary(_, BinaryOp::Eq, _) ==> r.0 matches TExpr::Cmp(_, CmpOp::Eq, _, _),
        e.expr matches Expr::Binary(_, BinaryOp::NotEq, _) ==> r.0 matches TExpr::Cmp(_, CmpOp::NotEq, _, _),
        e.expr matches Expr::Binary(_, BinaryOp::Less, _) ==> r.0 matches TExpr::Cmp(_, CmpOp::Less, _, _),
        e.expr matches Expr::Binary(_, BinaryOp::LessEq, _) ==> r.0 matches TExpr::Cmp(_, CmpOp::LessEq, _, _),
        e.expr matches Expr::Binary(_, BinaryOp::Greater, _) ==> r.0 matches TExpr::Cmp(_, CmpOp::Greater, _, _),
        e.expr matches Expr::Binary(_, BinaryOp::GreaterEq, _) ==> r.0 matches TExpr::Cmp(_, CmpOp::GreaterEq, _, _),
        e.expr matches Expr::Local(name) ==> match latest_binding(env@, name@) {
            Some(i) => r.1 == env@[i].ty && final(ctx).errors@ == old(ctx).errors@,
            None => final(ctx).errors@.len() > old(ctx).errors@.len(),
        },
        e.expr is SelfRef ==> match old(ctx).self_ty {
            Some(t) => r.1 == t && final(ctx).errors@ == old(ctx).errors@,
            None => final(ctx).errors@.len() == old(ctx).errors@.len() + 1
                && final(ctx).errors@.last().msg@ == "'self' is only valid inside a method body"@,
        },
        e.expr is Print && (r.1 is User || r.1 is Sum || r.1 is Box || r.1 == Ty::Nil)
            ==> final(ctx).errors@.len() > old(ctx).errors@.len(),
        e.expr is Box && final(ctx).types.nb() < u32::MAX ==> r.1 is Box,
        final(ctx).errors@.len() == old(ctx).errors@.len() ==> carried_ty(r.0, d) == Some(r.1) && typed(r.0, d),
    decreases e, 9nat,
{
    let span = e.span;
    match &e.expr {
        Expr::Value(Value::Num(lit)) => {
            let t = match lit {
                NumLiteral::Int(_) => Ty::Int64,
                NumLiteral::Dec(_) => Ty::Dec64,
                NumLiteral::U8(_) => Ty::UInt8,
                NumLiteral::U16(_) => Ty::UInt16,
                NumLiteral::U32(_) => Ty::UInt32,
                NumLiteral::U64(_) => Ty::UInt64,
                NumLiteral::F32(_) => Ty::Float32,
            };
            (TExpr::Num(crate::lexer::copy_number(lit)), t)
        }
        Expr::Value(Value::Bool(b)) => (TExpr::Bool(*b), Ty::Bool),
        Expr::Value(Value::Nil) => (TExpr::Nil, Ty::Nil),
        Expr::Value(Value::Str(_)) => {
            ctx.error(span, owned("strings are not supported by the AOT backend"));
            (TExpr::Nil, Ty::Nil)
        }
        Expr::List(items) => {
            let ghost start = *ctx;
            let mut i: usize = 0;
            proof { assert(decreases_to!(e => items@)); }
            while i < items.len()
                invariant
                    decreases_to!(e => items@),
                    i <= items@.len(),
                    ctx.wf(d),
                    ctx.grows(&start),
                    start.wf(d),
                    env_ok(env@, &start.types),
                decreases items@.len() - i,
            {
                proof { assert(decreases_to!(items@ => items@[i as int])); }
                check_expr(ctx, d, env, &items[i]);
                i = i + 1;
            }
            ctx.error(span, owned("lists are not supported by the AOT backend"));
            (TExpr::Nil, Ty::Nil)
        }
        Expr::SelfRef => match ctx.self_ty {
            Some(t) => (TExpr::Place(Place { root: PlaceRoot::SelfRef, root_ty: t, path: Vec::new(), ty: t }, UseMode::Copy), t),
            None => {
                ctx.error(span, owned("'self' is only valid inside a method body"));
                (TExpr::Nil, Ty::Nil)
            }
        },
        Expr::BuiltinType(name) => {
            let mut m = owned("'");
            push_string(&mut m, &builtin_spelling(*name));
            push_str(&mut m, "' is a type name; a type name alone is never a value");
            ctx.error(span, m);
            (TExpr::Nil, Ty::Nil)
        }
        Expr::Local(name) => {
            let found = lookup(env, name);
            proof { lemma_latest_binding(env@, name@, found); }
            if let Some(i) = found {
                let t = env[i].ty;
                return (TExpr::Place(Place { root: PlaceRoot::Local(name.clone()), root_ty: t, path: Vec::new(), ty: t }, UseMode::Copy), t);
            }
            if find_sig(d, name).is_some() {
                ctx.error(span, concat3("'", name, "' is a function; functions cannot be used as values"));
            } else if ctx.types.top_level(name).is_some() {
                ctx.error(span, concat3("'", name, "' is a type name; a type name alone is never a value"));
            } else {
                ctx.error(span, concat3("No such variable '", name, "' in scope"));
            }
            (TExpr::Nil, Ty::Nil)
        }
        Expr::Member(base, field, field_span) => {
            match as_place(ctx, d, env, e) {
                PlaceOutcome::Resolved(res) => {
                    let t = res.place.ty;
                    (TExpr::Place(res.place, UseMode::Copy), t)
                }
                PlaceOutcome::Reported => (TExpr::Nil, Ty::Nil),
                PlaceOutcome::NotAPlace => {
                    if let Expr::Local(first) = &base.expr {
                        if let Some(root) = ctx.types.top_level(first) {
                            let owner = ctx.types.def(root).name().clone();
                            let mut m = owned("'");
                            push_string(&mut m, &owner);
                            if ctx.types.member(root, field).is_some() {
                                push_char(&mut m, '.');
                                push_string(&mut m, field);
                                push_str(&mut m, "' is a type name; a type name alone is never a value");
                            } else {
                                push_str(&mut m, "' has no member type '");
                                push_string(&mut m, field);
                                push_str(&mut m, "'");
                            }
                            ctx.error(span, m);
                            return (TExpr::Nil, Ty::Nil);
                        }
                    }
                    let before = ctx.errors.len();
                    let (value, base_ty) = check_expr(ctx, d, env, base);
                    if ctx.errors.len() != before {
                        return (TExpr::Nil, Ty::Nil);
                    }
                    let id = match base_ty {
                        Ty::User(id) => id,
                        _ => {
                            let mut m = owned("'");
                            push_string(&mut m, &ctx.name(base_ty));
                            push_str(&mut m, "' is not a struct, so it has no field '");
                            push_string(&mut m, field);
                            push_str(&mut m, "'");
                            ctx.error(*field_span, m);
                            return (TExpr::Nil, Ty::Nil);
                        }
                    };
                    match ctx.types.field(id, field) {
                        Some((index, t)) => (TExpr::FieldRead { base: Box::new(value), index, ty: t }, t),
                        None => {
                            let owner = ctx.types.def(id).name().clone();
                            let mut m = owned("'");
                            push_string(&mut m, &owner);
                            if find_method(d, id, field).is_some() {
                                push_char(&mut m, '.');
                                push_string(&mut m, field);
                                push_str(&mut m, "' is a method; a method requires a receiver call");
                            } else if ctx.types.def(id).fields().is_none() {
                                push_str(&mut m, "' is not a struct, so it has no field '");
                                push_string(&mut m, field);
                                push_str(&mut m, "'");
                            } else {
                                push_str(&mut m, "' has no field '");
                                push_string(&mut m, field);
                                push_str(&mut m, "'");
                            }
                            ctx.error(*field_span, m);
                            (TExpr::Nil, Ty::Nil)
                        }
                    }
                }
            }
        }
        Expr::Binary(left, op, right) => {
            let (lv, lt) = check_expr(ctx, d, env, left);
            let (rv, rt) = check_expr(ctx, d, env, right);
            check_binary(ctx, d, span, lv, lt, *op, rv, rt)
        }
        Expr::Call(_, _, _) => {
            match check_call(ctx, d, env, e) {
                None => (TExpr::Nil, Ty::Nil),
                Some(CheckedCall::Value(v, t)) => (v, t),
                Some(CheckedCall::Function { name, args, result }) => match result {
                    Some(t) => (TExpr::Call(name, args), t),
                    None => {
                        ctx.error(span, concat3("'", &name, "' declares no result, so its call cannot be used as a value"));
                        (TExpr::Nil, Ty::Nil)
                    }
                },
                Some(CheckedCall::Method { call, result }) => match result {
                    Some(t) => (TExpr::MethodCall(Box::new(call)), t),
                    None => {
                        let name = method_name(ctx, d, call.method);
                        ctx.error(span, concat3("'", &name, "' declares no result, so its call cannot be used as a value"));
                        (TExpr::Nil, Ty::Nil)
                    }
                },
            }
        }
        Expr::Print(value) => {
            let before = ctx.errors.len();
            let (v, t) = check_expr(ctx, d, env, value);
            if t == Ty::Nil && ctx.errors.len() == before {
                ctx.error(span, owned(CONTEXTLESS_NIL));
            }
            match t {
                Ty::User(_) => {
                    let mut m = owned("'print' does not support the user-defined type '");
                    push_string(&mut m, &ctx.name(t));
                    push_str(&mut m, "'; print a scalar field or unwrap a represented scalar");
                    ctx.error(span, m);
                }
                Ty::Sum(_) => {
                    let mut m = owned("'print' does not support the inline sum type '");
                    push_string(&mut m, &ctx.name(t));
                    push_str(&mut m, "'; decompose it with 'is' and print the bound member");
                    ctx.error(span, m);
                }
                Ty::Box(_) => {
                    let mut m = owned("'print' does not support the box type '");
                    push_string(&mut m, &ctx.name(t));
                    push_str(&mut m, "'");
                    ctx.error(span, m);
                }
                _ => {}
            }
            (TExpr::Print(Box::new(v), t), t)
        }
        Expr::Box(operand) => {
            let (v, pointee) = check_expr(ctx, d, env, operand);
            let t = crate::checker::ctx_intern_box(ctx, d, pointee);
            (TExpr::Box(Box::new(v), t), t)
        }
    }
}

/// Checks the operator of an already checked operand pair.
/// The type a numeric literal has by its suffix.
pub open spec fn literal_ty(lit: NumLiteral) -> Ty {
    match lit {
        NumLiteral::Int(_) => Ty::Int64,
        NumLiteral::Dec(_) => Ty::Dec64,
        NumLiteral::U8(_) => Ty::UInt8,
        NumLiteral::U16(_) => Ty::UInt16,
        NumLiteral::U32(_) => Ty::UInt32,
        NumLiteral::U64(_) => Ty::UInt64,
        NumLiteral::F32(_) => Ty::Float32,
    }
}

/// A numeric literal has the type its form names: a plain integer `Int64`,
/// a decimal `Dec64`, and each suffixed literal the type of its suffix.
pub proof fn law_literal_types(v: i64, w: u8, x: u16, y: u32, z: u64, t: String)
    ensures
        literal_ty(NumLiteral::Int(v)) == Ty::Int64,
        literal_ty(NumLiteral::Dec(t)) == Ty::Dec64,
        literal_ty(NumLiteral::U8(w)) == Ty::UInt8,
        literal_ty(NumLiteral::U16(x)) == Ty::UInt16,
        literal_ty(NumLiteral::U32(y)) == Ty::UInt32,
        literal_ty(NumLiteral::U64(z)) == Ty::UInt64,
        literal_ty(NumLiteral::F32(t)) == Ty::Float32,
{
}

/// The position of the innermost binding of `name`: the last one.
pub(crate) open spec fn latest_binding(env: Seq<Binding>, name: Seq<char>) -> Option<int>
    decreases env.len(),
{
    if env.len() == 0 {
        None
    } else if env.last().name@ == name {
        Some(env.len() - 1)
    } else {
        latest_binding(env.drop_last(), name)
    }
}

/// `latest_binding` names the last binding of `name`, if there is one.
pub(crate) proof fn lemma_latest_binding(env: Seq<Binding>, name: Seq<char>, r: Option<usize>)
    requires
        r matches Some(i) ==> i < env.len() && env[i as int].name@ == name
            && forall|j: int| i < j < env.len() ==> (#[trigger] env[j]).name@ != name,
        r is None ==> forall|i: int| 0 <= i < env.len() ==> (#[trigger] env[i]).name@ != name,
    ensures
        match r {
            Some(i) => latest_binding(env, name) == Some(i as int),
            None => latest_binding(env, name) is None,
        },
    decreases env.len(),
{
    if env.len() > 0 {
        match r {
            Some(i) => {
                if (i as int) < env.len() - 1 {
                    assert(env.last() == env[env.len() - 1]);
                    lemma_latest_binding(env.drop_last(), name, r);
                }
            },
            None => {
                assert(env.last() == env[env.len() - 1]);
                lemma_latest_binding(env.drop_last(), name, r);
            },
        }
    }
}

/// Each written operator is checked as the operation it names, and no two
/// written operators share one: `+`, `-`, `*`, `/` give addition,
/// subtraction, multiplication and division, and `==`, `!=`, `<`, `<=`,
/// `>`, `>=` the comparison of the same name.
pub proof fn law_written_operator_is_checked_operator(a: BinaryOp, b: BinaryOp)
    ensures
        (a is Add) <==> (is_arithmetic(a) && arith_of(a) == ArithOp::Add),
        (a is Sub) <==> (is_arithmetic(a) && arith_of(a) == ArithOp::Sub),
        (a is Mul) <==> (is_arithmetic(a) && arith_of(a) == ArithOp::Mul),
        (a is Div) <==> (is_arithmetic(a) && arith_of(a) == ArithOp::Div),
        (a is Eq) <==> (!is_arithmetic(a) && comparison_denoted(a) == CmpOp::Eq),
        (a is NotEq) <==> (!is_arithmetic(a) && comparison_denoted(a) == CmpOp::NotEq),
        (a is Less) <==> (!is_arithmetic(a) && comparison_denoted(a) == CmpOp::Less),
        (a is LessEq) <==> (!is_arithmetic(a) && comparison_denoted(a) == CmpOp::LessEq),
        (a is Greater) <==> (!is_arithmetic(a) && comparison_denoted(a) == CmpOp::Greater),
        (a is GreaterEq) <==> (!is_arithmetic(a) && comparison_denoted(a) == CmpOp::GreaterEq),
        is_arithmetic(a) && is_arithmetic(b) && arith_of(a) == arith_of(b) ==> a == b,
        !is_arithmetic(a) && !is_arithmetic(b) && comparison_denoted(a) == comparison_denoted(b) ==> a == b,
{
}

/// The checked arithmetic a written operator denotes.
pub open spec fn arith_of(op: BinaryOp) -> ArithOp {
    match op {
        BinaryOp::Add => ArithOp::Add,
        BinaryOp::Sub => ArithOp::Sub,
        BinaryOp::Mul => ArithOp::Mul,
        _ => ArithOp::Div,
    }
}

/// The checked comparison a written operator denotes.
pub open spec fn comparison_denoted(op: BinaryOp) -> CmpOp {
    match op {
        BinaryOp::Eq => CmpOp::Eq,
        BinaryOp::NotEq => CmpOp::NotEq,
        BinaryOp::Less => CmpOp::Less,
        BinaryOp::LessEq => CmpOp::LessEq,
        BinaryOp::Greater => CmpOp::Greater,
        _ => CmpOp::GreaterEq,
    }
}

/// `+`, `-`, `*` and `/`.
pub open spec fn is_arithmetic(op: BinaryOp) -> bool {
    op is Add || op is Sub || op is Mul || op is Div
}

/// `==` and `!=`.
pub open spec fn is_equality(op: BinaryOp) -> bool {
    op is Eq || op is NotEq
}

/// Arithmetic gives the operands' shared numeric type and every comparison
/// gives `Bool`; operands without a shared numeric type are an error for
/// arithmetic and ordering, and `nil == nil` has no type to compare at.
fn check_binary(ctx: &mut Ctx, d: &Decls, span: Span, left: TExpr, left_ty: Ty, op: BinaryOp, right: TExpr, right_ty: Ty) -> (r: (TExpr, Ty))
    requires
        old(ctx).wf(d),
        old(ctx).ok(left_ty),
        old(ctx).ok(right_ty),
    ensures
        final(ctx).wf(d),
        final(ctx).grows(old(ctx)),
        final(ctx).ok(r.1),
        texpr_ok(r.0, final(ctx)),
        final(ctx).types == old(ctx).types,
        is_arithmetic(op) ==> r.1 == (match crate::checker::operand_numeric_spec(left_ty, right_ty) { Some(t) => t, None => left_ty }),
        !is_arithmetic(op) ==> r.1 == Ty::Bool,
        !is_equality(op) && crate::checker::operand_numeric_spec(left_ty, right_ty) is None ==> final(ctx).errors@.len() > old(ctx).errors@.len(),
        is_equality(op) && left_ty == Ty::Nil && right_ty == Ty::Nil ==> final(ctx).errors@.len() > old(ctx).errors@.len(),
        carried_ty(r.0, d) == Some(r.1),
        carried_ty(left, d) == Some(left_ty) && typed(left, d) && carried_ty(right, d) == Some(right_ty) && typed(right, d)
            && final(ctx).errors@.len() == old(ctx).errors@.len() ==> typed(r.0, d),
        is_arithmetic(op) ==> (r.0 matches TExpr::Arith(l, o, rr, t) && o == arith_of(op) && t == r.1
            && (*l == left || crate::checker::converts(*l, left, left_ty, t))
            && (*rr == right || crate::checker::converts(*rr, right, right_ty, t))),
        !is_arithmetic(op) ==> (r.0 matches TExpr::Cmp(l, o, rr, t) && o == comparison_denoted(op)
            && (*l == left || crate::checker::converts(*l, left, left_ty, t))
            && (*rr == right || crate::checker::converts(*rr, right, right_ty, t))),
        op is Add ==> r.0 matches TExpr::Arith(_, ArithOp::Add, _, _),
        op is Sub ==> r.0 matches TExpr::Arith(_, ArithOp::Sub, _, _),
        op is Mul ==> r.0 matches TExpr::Arith(_, ArithOp::Mul, _, _),
        op is Div ==> r.0 matches TExpr::Arith(_, ArithOp::Div, _, _),
        op is Eq ==> r.0 matches TExpr::Cmp(_, CmpOp::Eq, _, _),
        op is NotEq ==> r.0 matches TExpr::Cmp(_, CmpOp::NotEq, _, _),
        op is Less ==> r.0 matches TExpr::Cmp(_, CmpOp::Less, _, _),
        op is LessEq ==> r.0 matches TExpr::Cmp(_, CmpOp::LessEq, _, _),
        op is Greater ==> r.0 matches TExpr::Cmp(_, CmpOp::Greater, _, _),
        op is GreaterEq ==> r.0 matches TExpr::Cmp(_, CmpOp::GreaterEq, _, _),
{
    match op {
        BinaryOp::Add | BinaryOp::Sub | BinaryOp::Mul | BinaryOp::Div => {
            let operation = match op {
                BinaryOp::Add => ArithOp::Add,
                BinaryOp::Sub => ArithOp::Sub,
                BinaryOp::Mul => ArithOp::Mul,
                _ => ArithOp::Div,
            };
            match operand_numeric(left_ty, right_ty) {
                None => {
                    ctx.operands(span, "arithmetic", left_ty, right_ty);
                    (TExpr::Arith(Box::new(left), operation, Box::new(right), left_ty), left_ty)
                }
                Some(t) => {
                    let ghost (l0, r0) = (left, right);
                    let l = coerce(ctx, left, left_ty, t, span);
                    let r = coerce(ctx, right, right_ty, t, span);
                    proof {
                        if carried_ty(l0, d) == Some(left_ty) && typed(l0, d) && carried_ty(r0, d) == Some(right_ty) && typed(r0, d)
                            && ctx.errors@.len() == old(ctx).errors@.len() {
                            lemma_converts(l, l0, left_ty, t, d);
                            lemma_converts(r, r0, right_ty, t, d);
                        }
                    }
                    (TExpr::Arith(Box::new(l), operation, Box::new(r), t), t)
                }
            }
        }
        BinaryOp::Eq | BinaryOp::NotEq => {
            let operation = match op {
                BinaryOp::Eq => CmpOp::Eq,
                _ => CmpOp::NotEq,
            };
            if left_ty == Ty::Nil && right_ty == Ty::Nil {
                ctx.error(span, owned(CONTEXTLESS_NIL));
                return (TExpr::Cmp(Box::new(left), operation, Box::new(right), Ty::Nil), Ty::Bool);
            }
            let operand_ty = match common_numeric(left_ty, right_ty) {
                Some(t) => t,
                None => {
                    if left_ty == right_ty {
                        left_ty
                    } else {
                        match nil_union(ctx, left_ty, right_ty) {
                            Some(t) => t,
                            None => {
                                ctx.mismatch(span, left_ty, right_ty);
                                return (TExpr::Cmp(Box::new(left), operation, Box::new(right), left_ty), Ty::Bool);
                            }
                        }
                    }
                }
            };
            if !ctx.types.supports_equality(operand_ty) {
                let mut m = owned("'");
                push_string(&mut m, &ctx.name(operand_ty));
                push_str(&mut m, "' does not support equality because one of the types it contains does not");
                ctx.error(span, m);
            }
            let ghost (l0, r0) = (left, right);
            let l = coerce(ctx, left, left_ty, operand_ty, span);
            let r = coerce(ctx, right, right_ty, operand_ty, span);
            proof {
                if carried_ty(l0, d) == Some(left_ty) && typed(l0, d) && carried_ty(r0, d) == Some(right_ty) && typed(r0, d)
                    && ctx.errors@.len() == old(ctx).errors@.len() {
                    lemma_converts(l, l0, left_ty, operand_ty, d);
                    lemma_converts(r, r0, right_ty, operand_ty, d);
                }
            }
            (TExpr::Cmp(Box::new(l), operation, Box::new(r), operand_ty), Ty::Bool)
        }
        _ => {
            let operation = match op {
                BinaryOp::Less => CmpOp::Less,
                BinaryOp::LessEq => CmpOp::LessEq,
                BinaryOp::Greater => CmpOp::Greater,
                _ => CmpOp::GreaterEq,
            };
            match operand_numeric(left_ty, right_ty) {
                None => {
                    ctx.operands(span, "ordered comparison", left_ty, right_ty);
                    (TExpr::Cmp(Box::new(left), operation, Box::new(right), left_ty), Ty::Bool)
                }
                Some(t) => {
                    let ghost (l0, r0) = (left, right);
                    let l = coerce(ctx, left, left_ty, t, span);
                    let r = coerce(ctx, right, right_ty, t, span);
                    proof {
                        if carried_ty(l0, d) == Some(left_ty) && typed(l0, d) && carried_ty(r0, d) == Some(right_ty) && typed(r0, d)
                            && ctx.errors@.len() == old(ctx).errors@.len() {
                            lemma_converts(l, l0, left_ty, t, d);
                            lemma_converts(r, r0, right_ty, t, d);
                        }
                    }
                    (TExpr::Cmp(Box::new(l), operation, Box::new(r), t), Ty::Bool)
                }
            }
        }
    }
}

/// Resolves one call head: a built-in conversion, a function or bridge, a
/// type constructor, or a method on a place or a computed value.
pub(crate) fn check_call(ctx: &mut Ctx, d: &Decls, env: &Vec<Binding>, e: &SExpr) -> (r: Option<CheckedCall>)
    requires
        old(ctx).wf(d),
        env_ok(env@, &old(ctx).types),
    ensures
        final(ctx).wf(d),
        final(ctx).grows(old(ctx)),
        r matches Some(c) ==> call_ok(c, final(ctx), d),
        final(ctx).errors@.len() == old(ctx).errors@.len() ==> (r matches Some(c) ==> call_carries(c, d)),
        !(e.expr is Call) ==> r is None && *final(ctx) == *old(ctx),
        e.expr is Call && r is None ==> final(ctx).errors@.len() > old(ctx).errors@.len(),
    decreases e, 8nat,
{
    let span = e.span;
    let (callee, args) = match &e.expr {
        Expr::Call(callee, args, _) => (callee, args),
        _ => return None,
    };
    match &callee.expr {
        Expr::BuiltinType(name) => Some(check_convert(ctx, d, env, span, Ty::from_name(*name), args)),
        Expr::Local(name) => {
            if let Some(i) = find_sig(d, name) {
                return Some(check_function_call(ctx, d, env, span, i, args));
            }
            if let Some(id) = ctx.types.top_level(name) {
                return Some(check_type_call(ctx, d, env, span, id, args, callee.span));
            }
            if lookup(env, name).is_some() {
                ctx.error(callee.span, concat3("'", name, "' is a variable; Snacc has no function values, so it cannot be called"));
            } else {
                ctx.error(callee.span, concat3("'", name, "' is not callable"));
            }
            None
        }
        Expr::Member(base, member, member_span) => {
            match as_place(ctx, d, env, base) {
                PlaceOutcome::Resolved(res) => {
                    let receiver_ty = res.place.ty;
                    let self_rooted = match res.place.root {
                        PlaceRoot::SelfRef => true,
                        _ => false,
                    };
                    let description = res.place.root.to_text();
                    check_method_call(ctx, d, env, span, TReceiver::Place(res.place), receiver_ty, res.mutable, self_rooted, description, member, *member_span, args)
                }
                PlaceOutcome::Reported => None,
                PlaceOutcome::NotAPlace => {
                    if let Expr::Local(first) = &base.expr {
                        if let Some(root) = ctx.types.top_level(first) {
                            return match ctx.types.member(root, member) {
                                Some(id) => Some(check_type_call(ctx, d, env, span, id, args, callee.span)),
                                None => {
                                    let owner = ctx.types.def(root).name().clone();
                                    let mut m = owned("'");
                                    push_string(&mut m, &owner);
                                    push_str(&mut m, "' has no member type '");
                                    push_string(&mut m, member);
                                    push_str(&mut m, "'");
                                    ctx.error(*member_span, m);
                                    None
                                }
                            };
                        }
                    }
                    let before = ctx.errors.len();
                    proof { assert(decreases_to!(e => base)); }
                    let (value, t) = check_expr(ctx, d, env, base);
                    if ctx.errors.len() != before {
                        return None;
                    }
                    check_method_call(ctx, d, env, span, TReceiver::Value(value), t, false, false, owned("a temporary"), member, *member_span, args)
                }
            }
        }
        _ => {
            ctx.error(callee.span, owned("only calling a function, type, or method by name is supported"));
            None
        }
    }
}

/// Calls a function or bridge by signature position.
fn check_function_call(ctx: &mut Ctx, d: &Decls, env: &Vec<Binding>, span: Span, sig: usize, args: &Vec<Arg>) -> (r: CheckedCall)
    requires
        old(ctx).wf(d),
        env_ok(env@, &old(ctx).types),
        sig < d.sigs@.len(),
    ensures
        final(ctx).wf(d),
        final(ctx).grows(old(ctx)),
        call_ok(r, final(ctx), d),
        first_named(calls_of(d), d.sigs@[sig as int].0@) == Some(sig as int)
            && final(ctx).errors@.len() == old(ctx).errors@.len() ==> call_carries(r, d),
    decreases args, 7nat,
{
    let name = &d.sigs[sig].0;
    let params = &d.sigs[sig].1.params;
    reject_named_args(ctx, d, "a function call", args);
    if params.len() != args.len() {
        ctx.error(span, arity_message(name, params.len(), args.len()));
    }
    let values = check_args(ctx, d, env, args, params, name, None);
    proof { assert(opt_ok(d.sigs@[sig as int].1.result, ctx.types.nd(), ctx.types.ns(), ctx.types.nb())); }
    CheckedCall::Function { name: name.clone(), args: values, result: d.sigs[sig].1.result }
}

/// Arguments left to right: a value argument is checked and converted; a
/// reference argument resolves to one mutable place of exactly the
/// parameter's type, disjoint from every other reference in the call.
fn check_args(ctx: &mut Ctx, d: &Decls, env: &Vec<Binding>, args: &Vec<Arg>, params: &Vec<TParam>, callee: &String, receiver: Option<&Place>) -> (r: Vec<TArg>)
    requires
        old(ctx).wf(d),
        env_ok(env@, &old(ctx).types),
        params_ok(params@, old(ctx).types.nd(), old(ctx).types.ns(), old(ctx).types.nb()),
        receiver matches Some(p) ==> place_ok(*p, &old(ctx).types),
    ensures
        final(ctx).wf(d),
        final(ctx).grows(old(ctx)),
        final(ctx).errors@.len() == old(ctx).errors@.len() && args@.len() == params@.len()
            ==> args_fit(r, param_shapes(params@), calls_of(d), method_shapes(d), def_shapes(d.defs@)),
    decreases args, 6nat,
{
    let ghost start = *ctx;
    let mut checked: Vec<TArg> = Vec::new();
    let mut references: Vec<(String, Place, Span)> = Vec::new();
    let mut i: usize = 0;
    proof { assert(decreases_to!(args => args@)); }
    while i < args.len()
        invariant
            decreases_to!(args => args@),
            i <= args@.len(),
            ctx.wf(d),
            ctx.grows(&start),
            start.wf(d),
            env_ok(env@, &start.types),
            params_ok(params@, start.types.nd(), start.types.ns(), start.types.nb()),
            forall|k: int| 0 <= k < references@.len() ==> place_ok((#[trigger] references@[k]).1, &ctx.types),
            checked@.len() == i,
            ctx.errors@.len() == start.errors@.len() && args@.len() == params@.len() ==> forall|k: int| 0 <= k < i
                ==> arg_fits(#[trigger] checked@[k], param_shapes(params@)[k], calls_of(d), method_shapes(d), def_shapes(d.defs@)),
        decreases args@.len() - i,
    {
        proof { assert(decreases_to!(args@ => args@[i as int])); }
        let arg = &args[i];
        if i >= params.len() {
            proof { assert(decreases_to!(args@[i as int] => args@[i as int].value)); }
            let (v, _) = check_expr(ctx, d, env, &arg.value);
            checked.push(TArg::Value(v));
        } else {
            let param = &params[i];
            proof { assert(ty_ok_param(param, &start)); }
            match param.mode {
                ParamMode::Value => {
                    proof { assert(decreases_to!(args@[i as int] => args@[i as int].value)); }
                    let (v, t) = check_expr(ctx, d, env, &arg.value);
                    let v = mark_consumed(ctx, v, arg.value.span);
                    let ghost consumed = v;
                    let v = coerce(ctx, v, t, param.ty, arg.value.span);
                    proof {
                        if ctx.errors@.len() == start.errors@.len() {
                            lemma_converts(v, consumed, t, param.ty, d);
                        }
                    }
                    checked.push(TArg::Value(v));
                }
                ParamMode::Reference => match check_reference_arg(ctx, d, env, arg, param, callee) {
                    Some(place) => {
                        references.push((param.name.clone(), clone_place(&place), arg.value.span));
                        checked.push(TArg::Reference(place));
                    }
                    None => checked.push(TArg::Value(TExpr::Nil)),
                },
            }
        }
        proof {
            if ctx.errors@.len() == start.errors@.len() && args@.len() == params@.len() {
                assert(param_shapes(params@)[i as int] == (params@[i as int].mode, params@[i as int].ty));
            }
        }
        i = i + 1;
    }
    reject_overlap(ctx, d, &references, receiver);
    checked
}

spec fn ty_ok_param(p: &TParam, ctx: &Ctx) -> bool {
    ctx.ok(p.ty)
}

/// Resolves one reference argument.
fn check_reference_arg(ctx: &mut Ctx, d: &Decls, env: &Vec<Binding>, arg: &Arg, param: &TParam, callee: &String) -> (r: Option<Place>)
    requires
        old(ctx).wf(d),
        env_ok(env@, &old(ctx).types),
        old(ctx).ok(param.ty),
    ensures
        final(ctx).wf(d),
        final(ctx).grows(old(ctx)),
        r matches Some(p) ==> place_ok(p, &final(ctx).types),
        final(ctx).errors@.len() == old(ctx).errors@.len() ==> (r matches Some(p) && p.ty == param.ty),
    decreases arg, 5nat,
{
    let span = arg.value.span;
    match as_place(ctx, d, env, &arg.value) {
        PlaceOutcome::Resolved(res) => {
            if !res.mutable {
                let mut m = owned("'");
                push_string(&mut m, &res.place.root.to_text());
                push_str(&mut m, "' is not declared 'mut', so it cannot be passed to the reference parameter '");
                push_string(&mut m, &param.name);
                push_str(&mut m, "' of '");
                push_string(&mut m, callee);
                push_str(&mut m, "'");
                ctx.error(span, m);
            }
            if res.place.ty != param.ty {
                let expected = ctx.name(param.ty);
                let found = ctx.name(res.place.ty);
                let mut m = owned("reference parameter '");
                push_string(&mut m, &param.name);
                push_str(&mut m, "' of '");
                push_string(&mut m, callee);
                push_str(&mut m, "' requires a place of exactly type '");
                push_string(&mut m, &expected);
                push_str(&mut m, "', found '");
                push_string(&mut m, &found);
                push_str(&mut m, "'");
                ctx.error(span, m);
            }
            if let PlaceRoot::SelfRef = res.place.root {
                if let Some(method) = ctx.current_method {
                    ctx.direct_writes.set(method.index(), true);
                }
            }
            Some(res.place)
        }
        PlaceOutcome::Reported => None,
        PlaceOutcome::NotAPlace => {
            let before = ctx.errors.len();
            proof { assert(decreases_to!(arg => arg.value)); }
            check_expr(ctx, d, env, &arg.value);
            if ctx.errors.len() == before {
                let expected = ctx.name(param.ty);
                let mut m = owned("reference parameter '");
                push_string(&mut m, &param.name);
                push_str(&mut m, "' of '");
                push_string(&mut m, callee);
                push_str(&mut m, "' requires an initialized mutable place of type '");
                push_string(&mut m, &expected);
                push_str(&mut m, "', but this argument is a value with no storage");
                ctx.error(span, m);
            }
            None
        }
    }
}

/// Every pair of reference arguments, and each against an addressable
/// receiver, must be disjoint.
/// Reference arguments `a` and `b` overlap.
pub(crate) open spec fn pair_overlap(refs: Seq<(String, Place, Span)>, a: int, b: int) -> bool {
    crate::checker::overlap_spec(refs[a].1, refs[b].1)
}

/// Reference argument `a` overlaps the receiver place.
pub(crate) open spec fn receiver_overlap(refs: Seq<(String, Place, Span)>, receiver: Option<&Place>, a: int) -> bool {
    receiver matches Some(p) && crate::checker::overlap_spec(refs[a].1, *p)
}

/// Two reference arguments overlap, or one overlaps the receiver, among
/// the first `upto` references.
pub(crate) open spec fn overlap_among(refs: Seq<(String, Place, Span)>, receiver: Option<&Place>, upto: int) -> bool {
    ||| exists|a: int, b: int| 0 <= a < upto && a < b < refs.len() && #[trigger] pair_overlap(refs, a, b)
    ||| exists|a: int| 0 <= a < upto && #[trigger] receiver_overlap(refs, receiver, a)
}

/// Reports every overlap between reference arguments and with the
/// receiver: a diagnostic is added exactly when some pair overlaps.
fn reject_overlap(ctx: &mut Ctx, d: &Decls, references: &Vec<(String, Place, Span)>, receiver: Option<&Place>)
    requires
        old(ctx).wf(d),
        forall|k: int| 0 <= k < references@.len() ==> place_ok((#[trigger] references@[k]).1, &old(ctx).types),
        receiver matches Some(p) ==> place_ok(*p, &old(ctx).types),
    ensures
        final(ctx).wf(d),
        final(ctx).grows(old(ctx)),
        final(ctx).types == old(ctx).types,
        final(ctx).move_state == old(ctx).move_state,
        (final(ctx).errors@.len() == old(ctx).errors@.len()) == !overlap_among(references@, receiver, references@.len() as int),
{
    let ghost e0 = ctx.errors@.len();
    let mut i: usize = 0;
    while i < references.len()
        invariant
            ctx.wf(d),
            ctx.grows(old(ctx)),
            ctx.types == old(ctx).types,
            ctx.move_state == old(ctx).move_state,
            e0 == old(ctx).errors@.len(),
            i <= references@.len(),
            forall|k: int| 0 <= k < references@.len() ==> place_ok((#[trigger] references@[k]).1, &ctx.types),
            receiver matches Some(p) ==> place_ok(*p, &ctx.types),
            (ctx.errors@.len() == e0) == !overlap_among(references@, receiver, i as int),
        decreases references@.len() - i,
    {
        let ghost e_start = ctx.errors@.len();
        let (name, place, span) = (&references[i].0, &references[i].1, references[i].2);
        proof { assert(place_ok(references@[i as int].1, &ctx.types)); }
        if let Some(recv) = receiver {
            if overlaps(place, recv) {
                let argument = place_name(ctx, place);
                let subject = place_name(ctx, recv);
                let mut m = owned("reference argument '");
                push_string(&mut m, &argument);
                push_str(&mut m, "' for parameter '");
                push_string(&mut m, name);
                push_str(&mut m, "' overlaps the receiver '");
                push_string(&mut m, &subject);
                push_str(&mut m, "', which the method may access through 'self'");
                ctx.error(span, m);
            }
        }
        proof {
            if receiver_overlap(references@, receiver, i as int) {
                assert(ctx.errors@.len() > e_start);
            } else {
                assert(ctx.errors@.len() == e_start);
            }
        }
        let ghost e_mid = ctx.errors@.len();
        let mut j: usize = i + 1;
        while j < references.len()
            invariant
                ctx.wf(d),
                ctx.grows(old(ctx)),
                ctx.types == old(ctx).types,
                ctx.move_state == old(ctx).move_state,
                i < references@.len(),
                i < j <= references@.len(),
                forall|k: int| 0 <= k < references@.len() ==> place_ok((#[trigger] references@[k]).1, &ctx.types),
                ctx.errors@.len() >= e_mid,
                (ctx.errors@.len() == e_mid) == !(exists|b: int| i < b < j && #[trigger] pair_overlap(references@, i as int, b)),
            decreases references@.len() - j,
        {
            let other = &references[j].1;
            if overlaps(&references[i].1, other) {
                proof {
                    assert(place_ok(references@[i as int].1, &ctx.types));
                    assert(place_ok(references@[j as int].1, &ctx.types));
                }
                let left = place_name(ctx, &references[i].1);
                let right = place_name(ctx, other);
                let mut m = owned("reference arguments '");
                push_string(&mut m, &left);
                push_str(&mut m, "' and '");
                push_string(&mut m, &right);
                push_str(&mut m, "' overlap, so parameters '");
                push_string(&mut m, &references[i].0);
                push_str(&mut m, "' and '");
                push_string(&mut m, &references[j].0);
                push_str(&mut m, "' cannot both have exclusive access");
                ctx.error(references[i].2, m);
                proof { assert(pair_overlap(references@, i as int, j as int)); }
            }
            j = j + 1;
        }
        proof {
            let n = references@.len() as int;
            if ctx.errors@.len() == e0 {
                assert(e_start == e0 && e_mid == e0);
                assert forall|a: int, b: int| 0 <= a < i + 1 && a < b < n implies !#[trigger] pair_overlap(references@, a, b) by {
                    if a < i {
                        assert(!overlap_among(references@, receiver, i as int));
                    }
                }
                assert forall|a: int| 0 <= a < i + 1 implies !#[trigger] receiver_overlap(references@, receiver, a) by {
                    if a < i {
                        assert(!overlap_among(references@, receiver, i as int));
                    }
                }
            } else {
                if e_start == e0 && e_mid == e0 {
                    let b = choose|b: int| i < b < n && #[trigger] pair_overlap(references@, i as int, b);
                    assert(pair_overlap(references@, i as int, b));
                } else if e_start == e0 {
                    assert(receiver_overlap(references@, receiver, i as int));
                } else {
                    assert(overlap_among(references@, receiver, i as int));
                    if exists|a: int, b: int| 0 <= a < i && a < b < n && #[trigger] pair_overlap(references@, a, b) {
                        let (a, b) = choose|a: int, b: int| 0 <= a < i && a < b < n && #[trigger] pair_overlap(references@, a, b);
                        assert(pair_overlap(references@, a, b));
                    } else {
                        let a = choose|a: int| 0 <= a < i && #[trigger] receiver_overlap(references@, receiver, a);
                        assert(receiver_overlap(references@, receiver, a));
                    }
                }
            }
        }
        i = i + 1;
    }
}

/// A method call on a place or a computed receiver. Whether the receiver
/// must be mutable is settled later, once every method's write effect is
/// known.
fn check_method_call(
    ctx: &mut Ctx,
    d: &Decls,
    env: &Vec<Binding>,
    span: Span,
    receiver: TReceiver,
    receiver_ty: Ty,
    mutable_root: bool,
    self_rooted: bool,
    description: String,
    name: &String,
    name_span: Span,
    args: &Vec<Arg>,
) -> (r: Option<CheckedCall>)
    requires
        old(ctx).wf(d),
        env_ok(env@, &old(ctx).types),
        old(ctx).ok(receiver_ty),
        receiver matches TReceiver::Place(p) ==> place_ok(p, &old(ctx).types),
    ensures
        final(ctx).wf(d),
        final(ctx).grows(old(ctx)),
        r matches Some(c) ==> call_ok(c, final(ctx), d),
        final(ctx).errors@.len() == old(ctx).errors@.len() && (receiver matches TReceiver::Value(e) ==> typed(e, d))
            ==> (r matches Some(c) ==> call_carries(c, d)),
        r is None ==> final(ctx).errors@.len() > old(ctx).errors@.len(),
        r is None ==> !(receiver_ty is User) || forall|i: int| 0 <= i < d.method_index@.len()
            ==> !((#[trigger] d.method_index@[i]).0 == receiver_ty->User_0 && d.method_index@[i].1@ == name@),
    decreases args, 7nat,
{
    let id = match receiver_ty {
        Ty::User(id) => id,
        _ => {
            let mut m = owned("'");
            push_string(&mut m, &ctx.name(receiver_ty));
            push_str(&mut m, "' has no method '");
            push_string(&mut m, name);
            push_str(&mut m, "'");
            ctx.error(name_span, m);
            return None;
        }
    };
    let method = match find_method(d, id, name) {
        Some(m) => m,
        None => {
            let owner = ctx.types.def(id).name().clone();
            let mut m = owned("'");
            push_string(&mut m, &owner);
            if ctx.types.field(id, name).is_some() {
                push_char(&mut m, '.');
                push_string(&mut m, name);
                push_str(&mut m, "' is a field, not a method, so it cannot be called");
            } else {
                push_str(&mut m, "' has no method '");
                push_string(&mut m, name);
                push_str(&mut m, "'");
            }
            ctx.error(name_span, m);
            return None;
        }
    };
    reject_named_args(ctx, d, "a method call", args);
    let params = &d.methods[method.index()].params;
    let result = d.methods[method.index()].result;
    if params.len() != args.len() {
        let qualified = method_name(ctx, d, method);
        ctx.error(span, arity_message(&qualified, params.len(), args.len()));
    }
    let receiver_place = match &receiver {
        TReceiver::Place(p) => Some(clone_place(p)),
        TReceiver::Value(_) => None,
    };
    let qualified = method_name(ctx, d, method);
    let values = match &receiver_place {
        Some(p) => check_args(ctx, d, env, args, params, &qualified, Some(p)),
        None => check_args(ctx, d, env, args, params, &qualified, None),
    };
    let is_place = match &receiver {
        TReceiver::Place(_) => true,
        TReceiver::Value(_) => false,
    };
    ctx.receiver_calls.push(ReceiverCall { method, mutable_root: mutable_root && is_place, receiver: description, span });
    if self_rooted {
        if let Some(caller) = ctx.current_method {
            ctx.effect_edges.push((caller, method));
        }
    }
    Some(CheckedCall::Method { call: TMethodCall { receiver, method, args: values }, result })
}

/// Calling a user type: construction, or one represented layer.
fn check_type_call(ctx: &mut Ctx, d: &Decls, env: &Vec<Binding>, span: Span, id: TypeId, args: &Vec<Arg>, head_span: Span) -> (r: CheckedCall)
    requires
        old(ctx).wf(d),
        env_ok(env@, &old(ctx).types),
        id.0 < old(ctx).types.nd(),
    ensures
        final(ctx).wf(d),
        final(ctx).grows(old(ctx)),
        call_ok(r, final(ctx), d),
        final(ctx).errors@.len() == old(ctx).errors@.len() ==> call_carries(r, d),
    decreases args, 7nat,
{
    let kind: u8 = match ctx.types.def(id) {
        TypeDef::Represented { .. } => 0,
        TypeDef::Union { .. } => 1,
        _ => 2,
    };
    if kind == 0 {
        check_convert(ctx, d, env, span, Ty::User(id), args)
    } else if kind == 1 {
        let name = ctx.types.def(id).name().clone();
        let mut m = owned("'");
        push_string(&mut m, &name);
        push_str(&mut m, "' is a union; construction names one member type, not the union itself");
        ctx.error(head_span, m);
        check_all(ctx, d, env, args);
        CheckedCall::Value(TExpr::Nil, Ty::Nil)
    } else {
        check_construct(ctx, d, env, span, id, args)
    }
}

/// A value that is always rejected on its own: a string, a list, or a type
/// name used as a value.
pub open spec fn always_rejected(e: SExpr) -> bool {
    e.expr matches Expr::Value(Value::Str(_)) || e.expr is List || e.expr is BuiltinType
}

/// Checks every argument value for its own diagnostics, discarding the
/// values: an argument that is always rejected is reported.
fn check_all(ctx: &mut Ctx, d: &Decls, env: &Vec<Binding>, args: &Vec<Arg>)
    requires
        old(ctx).wf(d),
        env_ok(env@, &old(ctx).types),
    ensures
        final(ctx).wf(d),
        final(ctx).grows(old(ctx)),
        (exists|k: int| 0 <= k < args@.len() && always_rejected((#[trigger] args@[k]).value))
            ==> final(ctx).errors@.len() > old(ctx).errors@.len(),
    decreases args, 4nat,
{
    let ghost start = *ctx;
    let mut i: usize = 0;
    proof { assert(decreases_to!(args => args@)); }
    while i < args.len()
        invariant
            decreases_to!(args => args@),
            i <= args@.len(),
            ctx.wf(d),
            ctx.grows(&start),
            start.wf(d),
            env_ok(env@, &start.types),
            (exists|k: int| 0 <= k < i && always_rejected((#[trigger] args@[k]).value)) ==> ctx.errors@.len() > start.errors@.len(),
        decreases args@.len() - i,
    {
        proof {
            assert(decreases_to!(args@ => args@[i as int]));
            assert(decreases_to!(args@[i as int] => args@[i as int].value));
        }
        check_expr(ctx, d, env, &args[i].value);
        proof {
            if exists|k: int| 0 <= k < i + 1 && always_rejected((#[trigger] args@[k]).value) {
                let k = choose|k: int| 0 <= k < i + 1 && always_rejected((#[trigger] args@[k]).value);
                if k < i {
                    assert(exists|k: int| 0 <= k < i && always_rejected((#[trigger] args@[k]).value));
                }
            }
        }
        i = i + 1;
    }
}

/// Exactly one layer, the exact immediate type, no named arguments and no
/// general numeric cast.
fn check_convert(ctx: &mut Ctx, d: &Decls, env: &Vec<Binding>, span: Span, to: Ty, args: &Vec<Arg>) -> (r: CheckedCall)
    requires
        old(ctx).wf(d),
        env_ok(env@, &old(ctx).types),
        old(ctx).ok(to),
    ensures
        final(ctx).wf(d),
        final(ctx).grows(old(ctx)),
        call_ok(r, final(ctx), d),
        final(ctx).errors@.len() == old(ctx).errors@.len() ==> call_carries(r, d),
    decreases args, 6nat,
{
    reject_named_args(ctx, d, "a represented-type conversion", args);
    if args.len() != 1 {
        let mut m = owned("'");
        push_string(&mut m, &ctx.name(to));
        push_str(&mut m, "' converts exactly one positional value, but ");
        crate::text::push_count(&mut m, args.len());
        push_str(&mut m, " were supplied");
        ctx.error(span, m);
        check_all(ctx, d, env, args);
        return CheckedCall::Value(TExpr::Nil, to);
    }
    let arg = &args[0];
    proof {
        assert(decreases_to!(args => args@));
        assert(decreases_to!(args@ => args@[0]));
        assert(decreases_to!(args@[0] => args@[0].value));
    }
    let (value, from) = check_expr(ctx, d, env, &arg.value);
    let wraps = match to {
        Ty::User(id) => ctx.types.represented_target(id) == Some(from),
        _ => false,
    };
    let unwraps = match from {
        Ty::User(id) => ctx.types.represented_target(id) == Some(to),
        _ => false,
    };
    if !wraps && !unwraps {
        let target = ctx.name(to);
        let found = ctx.name(from);
        let mut m = owned("'");
        push_string(&mut m, &target);
        match to {
            Ty::User(id) => {
                let immediate = match ctx.types.represented_target(id) {
                    Some(t) => ctx.name(t),
                    None => target.clone(),
                };
                push_str(&mut m, "' wraps exactly its immediate representation '");
                push_string(&mut m, &immediate);
                push_str(&mut m, "', found '");
                push_string(&mut m, &found);
                push_str(&mut m, "'");
            }
            _ => {
                push_str(&mut m, "' unwraps exactly one value of a type represented by '");
                push_string(&mut m, &target);
                push_str(&mut m, "', found '");
                push_string(&mut m, &found);
                push_str(&mut m, "'");
            }
        }
        ctx.error(arg.value.span, m);
    }
    CheckedCall::Value(TExpr::Represent { value: Box::new(value), ty: to }, to)
}

/// Named fields, each exactly once, checked and evaluated in written order.
fn check_construct(ctx: &mut Ctx, d: &Decls, env: &Vec<Binding>, span: Span, id: TypeId, args: &Vec<Arg>) -> (r: CheckedCall)
    requires
        old(ctx).wf(d),
        env_ok(env@, &old(ctx).types),
        id.0 < old(ctx).types.nd(),
    ensures
        final(ctx).wf(d),
        final(ctx).grows(old(ctx)),
        call_ok(r, final(ctx), d),
        final(ctx).errors@.len() == old(ctx).errors@.len() ==> call_carries(r, d),
    decreases args, 6nat,
{
    let ghost start = *ctx;
    let owner_name = ctx.types.def(id).name().clone();
    let fields = match ctx.types.def(id).fields() {
        Some(f) => crate::collect::clone_fields(f),
        None => Vec::new(),
    };
    proof {
        ctx.types.lemma_wf_facts();
        assert(crate::types::def_ok(ctx.types.defs_view()[id.0 as int], ctx.types.nd(), ctx.types.ns(), ctx.types.nb()));
        assert forall|k: int| 0 <= k < fields@.len() implies ctx.ok(#[trigger] fields@[k].1) by {
            assert(crate::types::ty_ok(fields@[k].1, ctx.types.nd(), ctx.types.ns(), ctx.types.nb()));
        }
    }
    if fields.len() == 0 {
        if args.len() > 0 {
            let mut m = owned("'");
            push_string(&mut m, &owner_name);
            push_str(&mut m, "' has no fields, so it is constructed with '()'");
            ctx.error(span, m);
            check_all(ctx, d, env, args);
        }
        return CheckedCall::Value(TExpr::Construct { type_id: id, fields: Vec::new() }, Ty::User(id));
    }
    let mut checked: Vec<(usize, TExpr)> = Vec::new();
    let mut filled: Vec<bool> = Vec::new();
    let mut f: usize = 0;
    while f < fields.len()
        invariant
            f <= fields@.len(),
            filled@.len() == f,
        decreases fields@.len() - f,
    {
        filled.push(false);
        f = f + 1;
    }
    let mut i: usize = 0;
    proof { assert(decreases_to!(args => args@)); }
    while i < args.len()
        invariant
            decreases_to!(args => args@),
            i <= args@.len(),
            ctx.wf(d),
            ctx.grows(&start),
            start.wf(d),
            env_ok(env@, &start.types),
            filled@.len() == fields@.len(),
            forall|k: int| 0 <= k < fields@.len() ==> start.ok(#[trigger] fields@[k].1),
            id.0 < start.types.nd(),
            d.defs@[id.0 as int].fields_of() == Some(fields@),
            ctx.errors@.len() == start.errors@.len() ==> forall|k: int| 0 <= k < checked@.len()
                ==> (#[trigger] checked@[k]).0 < fields@.len() && carried_ty(checked@[k].1, d) == Some(fields@[checked@[k].0 as int].1)
                    && typed(checked@[k].1, d),
        decreases args@.len() - i,
    {
        proof {
            assert(decreases_to!(args@ => args@[i as int]));
            assert(decreases_to!(args@[i as int] => args@[i as int].value));
        }
        let arg = &args[i];
        match &arg.name {
            None => {
                let mut m = owned("'");
                push_string(&mut m, &owner_name);
                push_str(&mut m, "' requires named fields; positional construction of a non-empty struct is invalid");
                ctx.error(arg.value.span, m);
                check_expr(ctx, d, env, &arg.value);
            }
            Some((name, name_span)) => {
                let mut index: usize = 0;
                while index < fields.len() && !same(&fields[index].0, name)
                    invariant
                        index <= fields@.len(),
                    decreases fields@.len() - index,
                {
                    index = index + 1;
                }
                if index == fields.len() {
                    let mut m = owned("'");
                    push_string(&mut m, &owner_name);
                    push_str(&mut m, "' has no field '");
                    push_string(&mut m, name);
                    push_str(&mut m, "'");
                    ctx.error(*name_span, m);
                    check_expr(ctx, d, env, &arg.value);
                } else {
                    let (value, t) = check_expr(ctx, d, env, &arg.value);
                    if filled[index] {
                        let mut m = owned("Field '");
                        push_string(&mut m, &owner_name);
                        push_char(&mut m, '.');
                        push_string(&mut m, name);
                        push_str(&mut m, "' is supplied more than once");
                        ctx.error(*name_span, m);
                    } else {
                        filled.set(index, true);
                        proof { assert(start.ok(fields@[index as int].1)); }
                        let expected = fields[index].1;
                        let value = mark_consumed(ctx, value, arg.value.span);
                        let ghost consumed = value;
                        let value = coerce(ctx, value, t, expected, arg.value.span);
                        proof {
                            if ctx.errors@.len() == start.errors@.len() {
                                lemma_converts(value, consumed, t, expected, d);
                            }
                        }
                        checked.push((index, value));
                    }
                }
            }
        }
        i = i + 1;
    }
    let mut missing = String::new();
    let mut any_missing = false;
    let mut k: usize = 0;
    while k < fields.len()
        invariant
            filled@.len() == fields@.len(),
        decreases fields@.len() - k,
    {
        if !filled[k] {
            if any_missing {
                push_str(&mut missing, ", ");
            }
            push_char(&mut missing, '\'');
            push_string(&mut missing, &fields[k].0);
            push_char(&mut missing, '\'');
            any_missing = true;
        }
        k = k + 1;
    }
    if any_missing {
        let mut m = owned("'");
        push_string(&mut m, &owner_name);
        push_str(&mut m, "' is missing field ");
        push_string(&mut m, &missing);
        ctx.error(span, m);
    }
    let built = TExpr::Construct { type_id: id, fields: checked };
    proof {
        if ctx.errors@.len() == start.errors@.len() {
            let shape = def_shapes(d.defs@)[id.0 as int];
            assert(shape.0 == Some(fields@.map_values(|p: (String, Ty)| p.1)));
        }
    }
    CheckedCall::Value(built, Ty::User(id))
}

} // verus!

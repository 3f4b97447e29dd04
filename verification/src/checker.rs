//! Type checking: every body is checked against the collected declarations,
//! producing a checked program or the diagnostics that reject it.

use vstd::prelude::*;
use crate::ast::{Expr, NumLiteral, Param, ParamMode, PlacePath, PlaceRootName, Program as SyntaxProgram, SExpr, Span};
use crate::collect::{collect, clone_def};
use crate::expressions::{block_well_typed, calls_of, def_shapes, find_sig, first_named, method_shapes, node_ty, param_shapes};
use crate::statements::{check_statement_block, check_value_block, BREAK_OUTSIDE_LOOP};
use crate::text::{owned, push_char, push_str, push_string, same};
use crate::types::{
    decls_ok, params_ok, ty_key, ty_ok, Collected, FuncSig, MethodId, MethodSig, SumId, Ty, TypeDef, TypeId, Types,
};

verus! {

/// One rejected construct: where, and why.
#[derive(Debug)]
pub struct Error {
    pub span: Span,
    pub msg: String,
}

#[derive(Debug)]
pub enum Failure {
    Source(Vec<Error>),
    Unknown(&'static str),
}

#[derive(Clone, Copy, Debug, PartialEq, Eq, Structural)]
pub enum ArithOp {
    Add,
    Sub,
    Mul,
    Div,
}

#[derive(Clone, Copy, Debug, PartialEq, Eq, Structural)]
pub enum CmpOp {
    Eq,
    NotEq,
    Less,
    LessEq,
    Greater,
    GreaterEq,
}

/// The root of a checked place. Local names are unique within a function
/// or method, so a name is the binding's identity.
#[derive(Clone, Debug, PartialEq, Eq)]
pub enum PlaceRoot {
    Local(String),
    /// The implicit method receiver.
    SelfRef,
}

impl PlaceRoot {
    /// Whether two roots are the same binding.
    pub open spec fn same_as(self, other: PlaceRoot) -> bool {
        match (self, other) {
            (PlaceRoot::Local(a), PlaceRoot::Local(b)) => a@ == b@,
            (PlaceRoot::SelfRef, PlaceRoot::SelfRef) => true,
            _ => false,
        }
    }

    pub fn same(&self, other: &PlaceRoot) -> (r: bool)
        ensures
            r == self.same_as(*other),
    {
        match (self, other) {
            (PlaceRoot::Local(a), PlaceRoot::Local(b)) => crate::text::same(a, b),
            (PlaceRoot::SelfRef, PlaceRoot::SelfRef) => true,
            _ => false,
        }
    }

    /// How the root is written: its name, or `self`.
    pub open spec fn text(self) -> Seq<char> {
        match self {
            PlaceRoot::Local(n) => n@,
            PlaceRoot::SelfRef => "self"@,
        }
    }

    pub fn to_text(&self) -> (s: String)
        ensures
            s@ == self.text(),
    {
        match self {
            PlaceRoot::Local(n) => n.clone(),
            PlaceRoot::SelfRef => crate::text::owned("self"),
        }
    }
}

/// A resolved place: a root plus field selectors.
#[derive(Clone, Debug, PartialEq)]
pub struct Place {
    pub root: PlaceRoot,
    pub root_ty: Ty,
    /// Field indices in selection order; empty selects the root itself.
    pub path: Vec<usize>,
    /// The type reached after applying `path`.
    pub ty: Ty,
}

/// Whether a place read sits in a consuming context.
#[derive(Clone, Copy, Debug, PartialEq, Eq, Structural)]
pub enum UseMode {
    /// An ordinary read.
    Copy,
    /// Initialization, an assignment's right operand, a by-value argument,
    /// a result, or a constructor argument: a move-only value moves.
    Consume,
}

/// One resolved parameter; a `Ref<T>` parameter's `ty` is the referent.
#[derive(Clone, Debug)]
pub struct TParam {
    pub name: String,
    pub ty: Ty,
    pub mode: ParamMode,
}

/// One checked call argument.
pub enum TArg {
    Value(TExpr),
    /// The referent place; lowering passes its address.
    Reference(Place),
}

/// How a method call reaches its receiver.
pub enum TReceiver {
    Place(Place),
    Value(TExpr),
}

pub struct TMethodCall {
    pub receiver: TReceiver,
    pub method: MethodId,
    pub args: Vec<TArg>,
}

/// Value-producing checked nodes.
pub enum TExpr {
    Num(NumLiteral),
    Bool(bool),
    Nil,
    Place(Place, UseMode),
    /// Reads one field of a value with no addressable storage.
    FieldRead { base: Box<TExpr>, index: usize, ty: Ty },
    /// Builds a struct or union-member value; entries in written order, each
    /// with its destination field index.
    Construct { type_id: TypeId, fields: Vec<(usize, TExpr)> },
    /// Adds or removes exactly one represented-type layer.
    Represent { value: Box<TExpr>, ty: Ty },
    /// Injects a direct member value into its union.
    Inject { member: TypeId, into_union: TypeId, value: Box<TExpr> },
    /// Injects a direct member value into an inline sum.
    InjectSum { sum: SumId, member: Ty, value: Box<TExpr> },
    Arith(Box<TExpr>, ArithOp, Box<TExpr>, Ty),
    Cmp(Box<TExpr>, CmpOp, Box<TExpr>, Ty),
    /// A call to a declaration that has a result.
    Call(String, Vec<TArg>),
    MethodCall(Box<TMethodCall>),
    /// A value-form `if`.
    If(Box<TValueIf>),
    Print(Box<TExpr>, Ty),
    Cast(Box<TExpr>, Ty),
    /// `box(expression)`; `ty` is the whole `Box<T>`.
    Box(Box<TExpr>, Ty),
}

/// A proven type test against a named union.
pub struct TTypeTest {
    pub place: Place,
    pub member: TypeId,
    pub tag: u32,
    /// The name and exact member type bound on the successful edge.
    pub binding: Option<(String, Ty)>,
}

/// A proven type test against one direct member of an inline sum.
pub struct TSumTypeTest {
    pub place: Place,
    pub sum: SumId,
    pub member: Ty,
    pub binding: Option<(String, Ty)>,
}

pub enum TCondition {
    Expr(TExpr),
    Test(TTypeTest),
    SumTest(TSumTypeTest),
}

pub struct TValueIf {
    pub arms: Vec<(TCondition, TBlock)>,
    /// `None` only when `exhaustive` proved every path covered.
    pub else_branch: Option<TBlock>,
    pub exhaustive: bool,
    pub ty: Ty,
}

pub enum TStmt {
    Let { mutable: bool, name: String, ty: Ty, value: TExpr },
    Assign { place: Place, value: TExpr },
    While { condition: TExpr, body: TBlock },
    Break,
    If(TStmtIf),
    /// A call to a declaration without a result.
    Call(String, Vec<TArg>),
    /// A call to a method without a result.
    MethodCall(TMethodCall),
    /// A value whose result is discarded.
    Expr(TExpr),
}

pub struct TStmtIf {
    pub arms: Vec<(TCondition, TBlock)>,
    pub else_branch: Option<TBlock>,
    pub exhaustive: bool,
}

pub struct TBlock {
    pub statements: Vec<TStmt>,
    pub result: Option<TExpr>,
}

pub struct TFunc {
    pub name: String,
    pub params: Vec<TParam>,
    /// `None` is a function without a result.
    pub result: Option<Ty>,
    pub body: TBlock,
}

pub struct TMethod {
    pub receiver: TypeId,
    pub name: String,
    pub params: Vec<TParam>,
    pub result: Option<Ty>,
    /// The least-fixed-point receiver-write effect.
    pub writes_receiver: bool,
    pub body: TBlock,
}

#[derive(Clone, Debug)]
pub struct TExtern {
    pub name: String,
    pub symbol: String,
    pub params: Vec<TParam>,
    /// `None` is a bridge without a result.
    pub result: Option<Ty>,
    pub span: Span,
}

/// A checked program. Functions and bridges keep their declaration order.
pub struct Program {
    pub funcs: Vec<TFunc>,
    pub externs: Vec<TExtern>,
    /// Every resolved user-defined type, indexed by `TypeId`.
    pub types: Vec<TypeDef>,
    /// Every checked method, indexed by `MethodId`.
    pub methods: Vec<TMethod>,
    /// Every interned inline sum's members, indexed by `SumId`.
    pub sums: Vec<Vec<Ty>>,
    /// Every interned box's pointee, indexed by `BoxId`.
    pub boxes: Vec<Ty>,
    pub body: TBlock,
}

/// One local binding: a parameter, a `let`, or a type-test binding.
pub(crate) struct Binding {
    pub(crate) name: String,
    pub(crate) ty: Ty,
    pub(crate) mutable: bool,
}

/// One method call awaiting the receiver-write fixed point.
pub(crate) struct ReceiverCall {
    pub(crate) method: MethodId,
    pub(crate) mutable_root: bool,
    pub(crate) receiver: String,
    pub(crate) span: Span,
}

/// The resolved declarations, fixed while bodies are checked.
pub(crate) struct Decls {
    pub(crate) sigs: Vec<(String, FuncSig)>,
    pub(crate) methods: Vec<MethodSig>,
    pub(crate) method_index: Vec<(TypeId, String, MethodId)>,
    /// The type definitions, which checking bodies never changes.
    pub(crate) defs: Ghost<Seq<TypeDef>>,
}

/// The checking state of one program.
pub(crate) struct Ctx {
    pub(crate) types: Types,
    /// Every name bound anywhere in the function or method being checked.
    pub(crate) declared: Vec<String>,
    /// One entry per enclosing `while` body.
    pub(crate) loops: Vec<Span>,
    /// The receiver type while a method body is checked.
    pub(crate) self_ty: Option<Ty>,
    pub(crate) current_method: Option<MethodId>,
    pub(crate) direct_writes: Vec<bool>,
    pub(crate) effect_edges: Vec<(MethodId, MethodId)>,
    pub(crate) receiver_calls: Vec<ReceiverCall>,
    /// Every whole move-only root currently moved, with the consuming span.
    pub(crate) move_state: Vec<(PlaceRoot, Span)>,
    pub(crate) errors: Vec<Error>,
    pub(crate) unknown: Option<&'static str>,
}

impl Ctx {
    pub(crate) open spec fn ok(&self, t: Ty) -> bool {
        self.types.ok(t)
    }

    /// Everything the state names is valid.
    pub(crate) open spec fn wf(&self, d: &Decls) -> bool {
        &&& self.types.wf()
        &&& d.defs@ == self.types.defs_view()
        &&& decls_ok(d.methods@, d.method_index@, d.sigs@, self.types.nd(), self.types.ns(), self.types.nb())
        &&& (self.self_ty matches Some(t) ==> self.types.ok(t))
        &&& (self.current_method matches Some(m) ==> m.0 < d.methods@.len())
        &&& self.direct_writes@.len() == d.methods@.len()
        &&& forall|i: int| 0 <= i < self.effect_edges@.len() ==> (#[trigger] self.effect_edges@[i]).0.0 < d.methods@.len()
            && self.effect_edges@[i].1.0 < d.methods@.len()
        &&& forall|i: int| 0 <= i < self.receiver_calls@.len() ==> (#[trigger] self.receiver_calls@[i]).method.0 < d.methods@.len()
    }

    /// Checking only adds: tables grow, diagnostics accumulate, and the
    /// region being checked stays the same.
    pub(crate) open spec fn grows(&self, old: &Ctx) -> bool {
        &&& self.types.extends(&old.types)
        &&& self.errors@.len() >= old.errors@.len()
        &&& self.self_ty == old.self_ty
        &&& self.current_method == old.current_method
        &&& self.loops@ == old.loops@
        &&& forall|i: int| 0 <= i < old.errors@.len() ==> #[trigger] self.errors@[i] == old.errors@[i]
        &&& old.declared@.len() <= self.declared@.len()
        &&& forall|i: int| 0 <= i < old.declared@.len() ==> #[trigger] self.declared@[i] == old.declared@[i]
    }
}

/// Every binding's type is valid.
pub(crate) open spec fn env_ok(env: Seq<Binding>, types: &Types) -> bool {
    forall|i: int| 0 <= i < env.len() ==> types.ok(#[trigger] env[i].ty)
}

/// A place's types are valid.
pub(crate) open spec fn place_ok(p: Place, types: &Types) -> bool {
    &&& types.ok(p.root_ty)
    &&& types.ok(p.ty)
    &&& crate::expressions::path_ty(def_shapes(types.defs_view()), p.root_ty, p.path@) == Some(p.ty)
}

impl Ctx {
    pub(crate) fn error(&mut self, span: Span, msg: String)
        ensures
            final(self).errors@ == old(self).errors@.push(Error { span, msg }),
            forall|i: int| 0 <= i < old(self).errors@.len() ==> #[trigger] final(self).errors@[i] == old(self).errors@[i],
            final(self).types == old(self).types,
            final(self).self_ty == old(self).self_ty,
            final(self).current_method == old(self).current_method,
            final(self).direct_writes == old(self).direct_writes,
            final(self).effect_edges == old(self).effect_edges,
            final(self).receiver_calls == old(self).receiver_calls,
            final(self).move_state == old(self).move_state,
            final(self).declared == old(self).declared,
            final(self).loops == old(self).loops,
            final(self).unknown == old(self).unknown,
    {
        self.errors.push(Error { span, msg });
    }

    /// The qualified name of a type, for diagnostics.
    pub(crate) fn name(&self, t: Ty) -> (r: String)
        ensures
            r@ == self.types.shown(t),
    {
        self.types.display(t)
    }

    /// "expected 'A', found 'B'".
    pub(crate) fn mismatch(&mut self, span: Span, expected: Ty, found: Ty)
        ensures
            final(self).errors@.len() == old(self).errors@.len() + 1,
            final(self).errors@.drop_last() == old(self).errors@,
            forall|i: int| 0 <= i < old(self).errors@.len() ==> #[trigger] final(self).errors@[i] == old(self).errors@[i],
            final(self).errors@.last().msg@ == "expected '"@ + old(self).types.shown(expected) + "', found '"@
                + old(self).types.shown(found) + "'"@,
            final(self).types == old(self).types,
            final(self).self_ty == old(self).self_ty,
            final(self).current_method == old(self).current_method,
            final(self).direct_writes == old(self).direct_writes,
            final(self).effect_edges == old(self).effect_edges,
            final(self).receiver_calls == old(self).receiver_calls,
            final(self).move_state == old(self).move_state,
            final(self).declared == old(self).declared,
            final(self).loops == old(self).loops,
            final(self).unknown == old(self).unknown,
    {
        let mut m = owned("expected '");
        push_string(&mut m, &self.name(expected));
        push_str(&mut m, "', found '");
        push_string(&mut m, &self.name(found));
        push_str(&mut m, "'");
        self.error(span, m);
    }

    /// A rejected operand pair names both types and the exact-match rule.
    pub(crate) fn operands(&mut self, span: Span, what: &str, left: Ty, right: Ty)
        ensures
            final(self).errors@.len() == old(self).errors@.len() + 1,
            final(self).errors@.drop_last() == old(self).errors@,
            forall|i: int| 0 <= i < old(self).errors@.len() ==> #[trigger] final(self).errors@[i] == old(self).errors@[i],
            final(self).types == old(self).types,
            final(self).self_ty == old(self).self_ty,
            final(self).current_method == old(self).current_method,
            final(self).direct_writes == old(self).direct_writes,
            final(self).effect_edges == old(self).effect_edges,
            final(self).receiver_calls == old(self).receiver_calls,
            final(self).move_state == old(self).move_state,
            final(self).declared == old(self).declared,
            final(self).loops == old(self).loops,
            final(self).unknown == old(self).unknown,
    {
        let mut m = String::new();
        push_str(&mut m, what);
        push_str(&mut m, " operands must be two numbers of the same type, found '");
        push_string(&mut m, &self.name(left));
        push_str(&mut m, "' and '");
        push_string(&mut m, &self.name(right));
        push_str(&mut m, "'");
        self.error(span, m);
    }
}

/// `Receiver.name` of a method.
pub(crate) fn method_name(ctx: &Ctx, d: &Decls, method: MethodId) -> (s: String)
    requires
        ctx.wf(d),
        method.0 < d.methods@.len(),
    ensures
        s@ == ctx.types.names()[d.methods@[method.0 as int].receiver.0 as int] + "."@ + d.methods@[method.0 as int].name@,
{
    d.methods[method.index()].qualified(&ctx.types)
}

/// A resolved place written the way it was selected: the root, then each
/// field name.
/// The field names met selecting `path` from a value of type `current`,
/// each after a `.`, up to the first step that selects no field.
pub open spec fn names_along(defs: Seq<TypeDef>, current: Ty, path: Seq<usize>) -> Seq<char>
    decreases path.len(),
{
    if path.len() == 0 {
        Seq::empty()
    } else {
        match current {
            Ty::User(id) => if id.0 < defs.len() {
                match defs[id.0 as int].fields_of() {
                    Some(f) => if path[0] < f.len() {
                        "."@ + f[path[0] as int].0@ + names_along(defs, f[path[0] as int].1, path.drop_first())
                    } else {
                        Seq::empty()
                    },
                    None => Seq::empty(),
                }
            } else {
                Seq::empty()
            },
            _ => Seq::empty(),
        }
    }
}

pub(crate) fn place_name(ctx: &Ctx, place: &Place) -> (text: String)
    requires
        ctx.types.wf(),
        ctx.types.ok(place.root_ty),
    ensures
        text@ == place.root.text() + names_along(ctx.types.defs_view(), place.root_ty, place.path@),
{
    let mut text = place.root.to_text();
    let mut current = place.root_ty;
    let mut k: usize = 0;
    proof { assert(place.path@.subrange(0, place.path@.len() as int) =~= place.path@); }
    while k < place.path.len()
        invariant
            ctx.types.wf(),
            ctx.types.ok(current),
            k <= place.path@.len(),
            text@ + names_along(ctx.types.defs_view(), current, place.path@.subrange(k as int, place.path@.len() as int))
                == place.root.text() + names_along(ctx.types.defs_view(), place.root_ty, place.path@),
        ensures
            text@ == place.root.text() + names_along(ctx.types.defs_view(), place.root_ty, place.path@),
        decreases place.path@.len() - k,
    {
        let ghost rest = place.path@.subrange(k as int, place.path@.len() as int);
        proof {
            assert(text@ + names_along(ctx.types.defs_view(), current, rest)
                == place.root.text() + names_along(ctx.types.defs_view(), place.root_ty, place.path@));
            assert(rest[0] == place.path@[k as int]);
            assert(rest.drop_first() =~= place.path@.subrange(k + 1, place.path@.len() as int));
        }
        let id = match current {
            Ty::User(id) => id,
            _ => {
                proof { assert(names_along(ctx.types.defs_view(), current, rest) =~= Seq::<char>::empty()); assert(text@ + Seq::<char>::empty() =~= text@); }
                break;
            }
        };
        let fields = match ctx.types.def(id).fields() {
            Some(f) => f,
            None => {
                proof { assert(names_along(ctx.types.defs_view(), current, rest) =~= Seq::<char>::empty()); assert(text@ + Seq::<char>::empty() =~= text@); }
                break;
            }
        };
        let index = place.path[k];
        if index >= fields.len() {
            proof { assert(names_along(ctx.types.defs_view(), current, rest) =~= Seq::<char>::empty()); assert(text@ + Seq::<char>::empty() =~= text@); }
            break;
        }
        let ghost before = text@;
        push_char(&mut text, '.');
        push_string(&mut text, &fields[index].0);
        proof {
            reveal_strlit(".");
            assert(text@ =~= before + "."@ + fields@[index as int].0@);
            assert(names_along(ctx.types.defs_view(), current, rest)
                =~= "."@ + fields@[index as int].0@ + names_along(ctx.types.defs_view(), fields@[index as int].1, rest.drop_first()));
            ctx.types.lemma_wf_facts();
            assert(crate::types::def_ok(ctx.types.defs_view()[id.0 as int], ctx.types.nd(), ctx.types.ns(), ctx.types.nb()));
            assert(ctx.types.ok(fields@[index as int].1));
        }
        current = fields[index].1;
        k = k + 1;
    }
    text
}

/// The least fixed point of "this method may write its receiver": a method
/// writes it when it writes directly, or when it calls a receiver-writing
/// method on a `self`-rooted receiver, transitively and through cycles.
pub fn solve_receiver_writes(direct: &Vec<bool>, edges: &Vec<(MethodId, MethodId)>) -> (writes: Vec<bool>)
    requires
        forall|i: int| 0 <= i < edges@.len() ==> (#[trigger] edges@[i]).0.0 < direct@.len() && edges@[i].1.0 < direct@.len(),
    ensures
        writes@.len() == direct@.len(),
        forall|i: int| 0 <= i < direct@.len() ==> (#[trigger] direct@[i] ==> writes@[i]),
        writes_closed(writes@, edges@),
        forall|f: Seq<bool>| #[trigger] writes_closed(f, edges@) && crate::collect::le_bools(direct@, f) ==> crate::collect::le_bools(writes@, f),
{
    let mut writes: Vec<bool> = Vec::new();
    let mut i: usize = 0;
    while i < direct.len()
        invariant
            i <= direct@.len(),
            writes@ == direct@.subrange(0, i as int),
        decreases direct@.len() - i,
    {
        writes.push(direct[i]);
        i = i + 1;
    }
    proof {
        assert(writes@ =~= direct@);
        crate::collect::lemma_count_true_len(writes@);
    }
    loop
        invariant
            writes@.len() == direct@.len(),
            forall|i: int| 0 <= i < edges@.len() ==> (#[trigger] edges@[i]).0.0 < direct@.len() && edges@[i].1.0 < direct@.len(),
            crate::collect::le_bools(direct@, writes@),
            forall|f: Seq<bool>| #[trigger] writes_closed(f, edges@) && crate::collect::le_bools(direct@, f) ==> crate::collect::le_bools(writes@, f),
        ensures
            writes@.len() == direct@.len(),
            crate::collect::le_bools(direct@, writes@),
            writes_closed(writes@, edges@),
            forall|f: Seq<bool>| #[trigger] writes_closed(f, edges@) && crate::collect::le_bools(direct@, f) ==> crate::collect::le_bools(writes@, f),
        decreases writes@.len() - crate::collect::count_true(writes@),
    {
        let ghost entry = writes@;
        proof { crate::collect::lemma_count_true_len(writes@); }
        let mut changed = false;
        let mut k: usize = 0;
        while k < edges.len()
            invariant
                writes@.len() == direct@.len(),
                k <= edges@.len(),
                forall|i: int| 0 <= i < edges@.len() ==> (#[trigger] edges@[i]).0.0 < direct@.len() && edges@[i].1.0 < direct@.len(),
                crate::collect::le_bools(direct@, writes@),
                crate::collect::le_bools(entry, writes@),
                forall|f: Seq<bool>| #[trigger] writes_closed(f, edges@) && crate::collect::le_bools(direct@, f) ==> crate::collect::le_bools(writes@, f),
                changed ==> crate::collect::count_true(writes@) > crate::collect::count_true(entry),
                !changed ==> writes@ == entry,
                !changed ==> forall|j: int| 0 <= j < k ==> (writes@[(#[trigger] edges@[j]).1.0 as int] ==> writes@[edges@[j].0.0 as int]),
                crate::collect::count_true(writes@) <= writes@.len(),
            decreases edges@.len() - k,
        {
            let (caller, callee) = edges[k];
            if writes[callee.index()] && !writes[caller.index()] {
                let ghost before = writes@;
                proof { crate::collect::lemma_count_true_update(before, caller.0 as int, true); }
                writes.set(caller.index(), true);
                proof {
                    crate::collect::lemma_count_true_len(writes@);
                    assert forall|f: Seq<bool>| #[trigger] writes_closed(f, edges@) && crate::collect::le_bools(direct@, f)
                        implies crate::collect::le_bools(writes@, f) by {
                        assert(crate::collect::le_bools(before, f));
                        assert(f[callee.0 as int]);
                        assert(edges@[k as int] == (caller, callee));
                    }
                }
                changed = true;
            }
            k = k + 1;
        }
        if !changed {
            break;
        }
    }
    writes
}

/// Whether a write set is closed under the call edges: a caller writes
/// whenever a callee it reaches through `self` does.
pub open spec fn writes_closed(w: Seq<bool>, edges: Seq<(MethodId, MethodId)>) -> bool {
    forall|i: int| 0 <= i < edges.len() ==> (w[(#[trigger] edges[i]).1.0 as int] ==> w[edges[i].0.0 as int])
}

/// The parameters whose name an earlier parameter already has, in order.
pub open spec fn repeated_params(ps: Seq<Param>) -> Seq<Param>
    decreases ps.len(),
{
    if ps.len() == 0 {
        Seq::empty()
    } else if exists|j: int| 0 <= j < ps.len() - 1 && (#[trigger] ps[j]).name@ == ps.last().name@ {
        repeated_params(ps.drop_last()).push(ps.last())
    } else {
        repeated_params(ps.drop_last())
    }
}

/// Some name in `seen` is `n`.
spec fn seen_name(seen: Seq<String>, n: Seq<char>) -> bool {
    exists|k: int| 0 <= k < seen.len() && (#[trigger] seen[k])@ == n
}

/// An earlier parameter than position `i` is named `n`.
spec fn name_before(ps: Seq<Param>, i: int, n: Seq<char>) -> bool {
    exists|j: int| 0 <= j < i && (#[trigger] ps[j]).name@ == n
}

/// Every parameter name is unique within one declaration: each repeat is
/// reported at the repeating parameter, in order.
pub(crate) fn check_duplicate_params(ctx: &mut Ctx, params: &Vec<Param>)
    ensures
        final(ctx).types == old(ctx).types,
        final(ctx).errors@.len() >= old(ctx).errors@.len(),
        final(ctx).errors@.len() == old(ctx).errors@.len() + repeated_params(params@).len(),
        forall|j: int| 0 <= j < old(ctx).errors@.len() ==> #[trigger] final(ctx).errors@[j] == old(ctx).errors@[j],
        forall|k: int| 0 <= k < repeated_params(params@).len() ==> (#[trigger] final(ctx).errors@[old(ctx).errors@.len() + k]).span
            == repeated_params(params@)[k].span
            && final(ctx).errors@[old(ctx).errors@.len() + k].msg@ == "Parameter '"@ + repeated_params(params@)[k].name@ + "' already exists"@,
        final(ctx).move_state == old(ctx).move_state,
        final(ctx).declared == old(ctx).declared,
        final(ctx).loops == old(ctx).loops,
        final(ctx).unknown == old(ctx).unknown,
        final(ctx).self_ty == old(ctx).self_ty,
        final(ctx).current_method == old(ctx).current_method,
        final(ctx).direct_writes == old(ctx).direct_writes,
        final(ctx).effect_edges == old(ctx).effect_edges,
        final(ctx).receiver_calls == old(ctx).receiver_calls,
{
    let ghost e0 = ctx.errors@;
    let mut seen: Vec<String> = Vec::new();
    let mut i: usize = 0;
    proof { assert(params@.subrange(0, 0) =~= Seq::<Param>::empty()); }
    while i < params.len()
        invariant
            i <= params@.len(),
            e0 == old(ctx).errors@,
            forall|k: int| 0 <= k < seen@.len() ==> name_before(params@, i as int, (#[trigger] seen@[k])@),
            forall|j: int| 0 <= j < i ==> seen_name(seen@, (#[trigger] params@[j]).name@),
            ctx.errors@.len() == e0.len() + repeated_params(params@.subrange(0, i as int)).len(),
            forall|j: int| 0 <= j < e0.len() ==> #[trigger] ctx.errors@[j] == e0[j],
            forall|k: int| 0 <= k < repeated_params(params@.subrange(0, i as int)).len() ==> (#[trigger] ctx.errors@[e0.len() + k]).span
                == repeated_params(params@.subrange(0, i as int))[k].span
                && ctx.errors@[e0.len() + k].msg@ == "Parameter '"@ + repeated_params(params@.subrange(0, i as int))[k].name@ + "' already exists"@,
            ctx.move_state == old(ctx).move_state,
            ctx.declared == old(ctx).declared,
            ctx.loops == old(ctx).loops,
            ctx.unknown == old(ctx).unknown,
            ctx.types == old(ctx).types,
            ctx.errors@.len() >= old(ctx).errors@.len(),
            ctx.self_ty == old(ctx).self_ty,
            ctx.current_method == old(ctx).current_method,
            ctx.direct_writes == old(ctx).direct_writes,
            ctx.effect_edges == old(ctx).effect_edges,
            ctx.receiver_calls == old(ctx).receiver_calls,
        decreases params@.len() - i,
    {
        let param = &params[i];
        let ghost seen0 = seen@;
        let ghost pre = params@.subrange(0, i + 1);
        proof {
            assert(pre.drop_last() =~= params@.subrange(0, i as int));
            assert(pre.last() == params@[i as int]);
        }
        if contains_name(&seen, &param.name) {
            proof {
                let k = choose|k: int| 0 <= k < seen@.len() && (#[trigger] seen@[k])@ == param.name@;
                assert(name_before(params@, i as int, seen@[k]@));
                let j = choose|j: int| 0 <= j < i && (#[trigger] params@[j]).name@ == seen@[k]@;
                assert(pre[j] == params@[j]);
            }
            ctx.error(param.span, crate::text::concat3("Parameter '", &param.name, "' already exists"));
        } else {
            proof {
                assert forall|j: int| 0 <= j < pre.len() - 1 implies (#[trigger] pre[j]).name@ != pre.last().name@ by {
                    assert(pre[j] == params@[j]);
                    assert(seen_name(seen@, params@[j].name@));
                }
            }
            seen.push(param.name.clone());
        }
        proof {
            assert forall|j: int| 0 <= j < i + 1 implies seen_name(seen@, (#[trigger] params@[j]).name@) by {
                if j < i {
                    assert(seen_name(seen0, params@[j].name@));
                    let k = choose|k: int| 0 <= k < seen0.len() && (#[trigger] seen0[k])@ == params@[j].name@;
                    assert(seen@[k] == seen0[k]);
                } else if seen@.len() > seen0.len() {
                    assert(seen@[seen0.len() as int]@ == params@[j].name@);
                } else {
                    let k = choose|k: int| 0 <= k < seen0.len() && (#[trigger] seen0[k])@ == params@[j].name@;
                    assert(seen@[k]@ == params@[j].name@);
                }
            }
            assert forall|k: int| 0 <= k < seen@.len() implies name_before(params@, i + 1, (#[trigger] seen@[k])@) by {
                if k < seen0.len() {
                    assert(seen@[k] == seen0[k]);
                    assert(name_before(params@, i as int, seen0[k]@));
                    let j = choose|j: int| 0 <= j < i && (#[trigger] params@[j]).name@ == seen0[k]@;
                    assert(params@[j].name@ == seen@[k]@);
                } else {
                    assert(params@[i as int].name@ == seen@[k]@);
                }
            }
        }
        i = i + 1;
    }
    proof { assert(params@.subrange(0, params@.len() as int) =~= params@); }
}

/// Whether `names` holds `name`.
pub(crate) fn contains_name(names: &Vec<String>, name: &String) -> (r: bool)
    ensures
        r == exists|i: int| 0 <= i < names@.len() && (#[trigger] names@[i])@ == name@,
{
    let mut i: usize = 0;
    while i < names.len()
        invariant
            i <= names@.len(),
            forall|j: int| 0 <= j < i ==> (#[trigger] names@[j])@ != name@,
        decreases names@.len() - i,
    {
        if same(&names[i], name) {
            return true;
        }
        i = i + 1;
    }
    false
}

/// Records a function-wide binding, reporting a repeat rather than binding
/// the name twice.
pub(crate) fn declare(ctx: &mut Ctx, name: &String, span: Span, kind: &str)
    ensures
        forall|i: int| 0 <= i < old(ctx).errors@.len() ==> #[trigger] final(ctx).errors@[i] == old(ctx).errors@[i],
        final(ctx).types == old(ctx).types,
        final(ctx).errors@.len() >= old(ctx).errors@.len(),
        final(ctx).self_ty == old(ctx).self_ty,
        final(ctx).current_method == old(ctx).current_method,
        final(ctx).direct_writes == old(ctx).direct_writes,
        final(ctx).effect_edges == old(ctx).effect_edges,
        final(ctx).receiver_calls == old(ctx).receiver_calls,
        final(ctx).move_state == old(ctx).move_state,
        final(ctx).loops == old(ctx).loops,
        final(ctx).unknown == old(ctx).unknown,
        (exists|i: int| 0 <= i < old(ctx).declared@.len() && (#[trigger] old(ctx).declared@[i])@ == name@) ==> {
            &&& final(ctx).declared == old(ctx).declared
            &&& final(ctx).errors@.len() == old(ctx).errors@.len() + 1
            &&& final(ctx).errors@.drop_last() == old(ctx).errors@
            &&& final(ctx).errors@.last().span == span
            &&& final(ctx).errors@.last().msg@ == kind@ + " '"@ + name@ + "' already exists"@
        },
        !(exists|i: int| 0 <= i < old(ctx).declared@.len() && (#[trigger] old(ctx).declared@[i])@ == name@) ==> {
            &&& final(ctx).declared@ == old(ctx).declared@.push(*name)
            &&& final(ctx).errors@ == old(ctx).errors@
        },
{
    if contains_name(&ctx.declared, name) {
        let mut m = String::new();
        push_str(&mut m, kind);
        push_str(&mut m, " '");
        push_string(&mut m, name);
        push_str(&mut m, "' already exists");
        proof { assert(m@ =~= kind@ + " '"@ + name@ + "' already exists"@); }
        ctx.error(span, m);
    } else {
        ctx.declared.push(name.clone());
    }
}

pub open spec fn ascii_alpha(c: char) -> bool {
    ('a' <= c && c <= 'z') || ('A' <= c && c <= 'Z')
}

pub open spec fn ascii_digit(c: char) -> bool {
    '0' <= c && c <= '9'
}

/// A bridge's link symbol: `snacc_user_` then the rest of a Rust
/// identifier.
pub open spec fn bridge_symbol_ok(s: Seq<char>) -> bool {
    &&& "snacc_user_"@.len() <= s.len()
    &&& s.subrange(0, "snacc_user_"@.len() as int) == "snacc_user_"@
    &&& rust_identifier(s)
}

/// A Rust identifier: a letter or `_`, then letters, digits and `_`.
pub open spec fn rust_identifier(s: Seq<char>) -> bool {
    &&& s.len() > 0
    &&& (s[0] == '_' || ascii_alpha(s[0]))
    &&& forall|i: int| 1 <= i < s.len() ==> (#[trigger] s[i] == '_' || ascii_alpha(s[i]) || ascii_digit(s[i]))
}

pub fn is_rust_identifier(symbol: &String) -> (r: bool)
    ensures
        r == rust_identifier(symbol@),
{
    let text = symbol.as_str();
    let n = text.unicode_len();
    if n == 0 {
        return false;
    }
    let first = text.get_char(0);
    if !(first == '_' || ('a' <= first && first <= 'z') || ('A' <= first && first <= 'Z')) {
        return false;
    }
    let mut i: usize = 1;
    while i < n
        invariant
            n == symbol@.len(),
            text@ == symbol@,
            1 <= i <= n,
            forall|j: int| 1 <= j < i ==> (#[trigger] symbol@[j] == '_' || ascii_alpha(symbol@[j]) || ascii_digit(symbol@[j])),
        decreases n - i,
    {
        let c = text.get_char(i);
        if !(c == '_' || ('a' <= c && c <= 'z') || ('A' <= c && c <= 'Z') || ('0' <= c && c <= '9')) {
            return false;
        }
        i = i + 1;
    }
    true
}

/// Whether a string starts with `prefix`.
pub fn starts_with(s: &String, prefix: &str) -> (r: bool)
    ensures
        r == (prefix@.len() <= s@.len() && s@.subrange(0, prefix@.len() as int) == prefix@),
{
    let text = s.as_str();
    let n = text.unicode_len();
    let m = prefix.unicode_len();
    if m > n {
        return false;
    }
    let mut i: usize = 0;
    while i < m
        invariant
            n == s@.len(),
            m == prefix@.len(),
            text@ == s@,
            m <= n,
            i <= m,
            forall|j: int| 0 <= j < i ==> s@[j] == prefix@[j],
        decreases m - i,
    {
        if text.get_char(i) != prefix.get_char(i) {
            proof { assert(s@.subrange(0, m as int)[i as int] != prefix@[i as int]); }
            return false;
        }
        i = i + 1;
    }
    proof { assert(s@.subrange(0, m as int) =~= prefix@); }
    true
}

/// The two types the one implicit numeric conversion joins.
pub open spec fn numeric(t: Ty) -> bool {
    t == Ty::Dec64 || t == Ty::Int64
}

/// Numeric types that combine only with themselves.
pub open spec fn exact_match_numeric(t: Ty) -> bool {
    t == Ty::UInt8 || t == Ty::UInt16 || t == Ty::UInt32 || t == Ty::UInt64 || t == Ty::Float32
}

pub open spec fn common_numeric_spec(l: Ty, r: Ty) -> Option<Ty> {
    if !numeric(l) || !numeric(r) {
        None
    } else if l == Ty::Dec64 || r == Ty::Dec64 {
        Some(Ty::Dec64)
    } else {
        Some(Ty::Int64)
    }
}

/// The type an arithmetic or ordered pair shares, if any.
pub open spec fn operand_numeric_spec(l: Ty, r: Ty) -> Option<Ty> {
    match common_numeric_spec(l, r) {
        Some(t) => Some(t),
        None => if l == r && exact_match_numeric(l) { Some(l) } else { None },
    }
}

/// Arithmetic and ordering operands share a type only by the language's
/// numeric rule: two operands of one numeric type share it, `Int64` and
/// `Dec64` share `Dec64`, and nothing else combines; widening `Int64` to
/// `Dec64` is the one implicit conversion, so no operand is ever narrowed.
pub proof fn law_numeric_operands(l: Ty, r: Ty)
    ensures
        operand_numeric_spec(l, r) matches Some(t) ==> (t == l || (l == Ty::Int64 && t == Ty::Dec64))
            && (t == r || (r == Ty::Int64 && t == Ty::Dec64)),
        operand_numeric_spec(l, r) is Some <==> ((l == r && (l is Int64 || l is Dec64 || l is UInt8 || l is UInt16
            || l is UInt32 || l is UInt64 || l is Float32)) || (l is Int64 && r is Dec64) || (l is Dec64 && r is Int64)),
        implicit_conversion(l, r) <==> (l is Int64 && r is Dec64),
{
}

pub fn common_numeric(left: Ty, right: Ty) -> (r: Option<Ty>)
    ensures
        r == common_numeric_spec(left, right),
{
    let ln = left == Ty::Dec64 || left == Ty::Int64;
    let rn = right == Ty::Dec64 || right == Ty::Int64;
    if !ln || !rn {
        return None;
    }
    if left == Ty::Dec64 || right == Ty::Dec64 {
        Some(Ty::Dec64)
    } else {
        Some(Ty::Int64)
    }
}

pub fn operand_numeric(left: Ty, right: Ty) -> (r: Option<Ty>)
    ensures
        r == operand_numeric_spec(left, right),
{
    match common_numeric(left, right) {
        Some(t) => Some(t),
        None => {
            let exact = left == Ty::UInt8 || left == Ty::UInt16 || left == Ty::UInt32 || left == Ty::UInt64 || left == Ty::Float32;
            if left == right && exact {
                Some(left)
            } else {
                None
            }
        }
    }
}

/// The one implicit scalar conversion.
pub open spec fn implicit_conversion(from: Ty, to: Ty) -> bool {
    from == Ty::Int64 && to == Ty::Dec64
}

pub fn implicit_conversion_target(from: Ty, to: Ty) -> (r: bool)
    ensures
        r == implicit_conversion(from, to),
{
    from == Ty::Int64 && to == Ty::Dec64
}

/// A union member of `union`.
pub open spec fn member_of_union(t: &Types, member: TypeId, union: TypeId) -> bool {
    member.0 < t.nd() && (t.defs_view()[member.0 as int] matches TypeDef::UnionMember { union: u, .. } && u == union)
}

/// Whether union `union` has a member spelled `Nil`.
pub open spec fn has_nil_member(t: &Types, union: TypeId) -> bool {
    exists|i: int| 0 <= i < t.members_view().len() && (#[trigger] t.members_view()[i]).0 == union
        && t.members_view()[i].1@ == "Nil"@
}

/// Whether `v` holds `t`.
pub(crate) fn contains_ty(v: &Vec<Ty>, t: Ty) -> (r: bool)
    ensures
        r == v@.contains(t),
{
    let mut k: usize = 0;
    while k < v.len()
        invariant
            k <= v@.len(),
            forall|j: int| 0 <= j < k ==> v@[j] != t,
        decreases v@.len() - k,
    {
        if v[k] == t {
            return true;
        }
        k = k + 1;
    }
    false
}

/// The positions of the members an implicit conversion reaches from `from`.
fn conversion_candidates(members: &Vec<Ty>, from: Ty) -> (candidates: Vec<usize>)
    ensures
        forall|j: int| 0 <= j < candidates@.len() ==> (#[trigger] candidates@[j]) < members@.len()
            && implicit_conversion(from, members@[candidates@[j] as int]),
        forall|a: int, b: int| 0 <= a < b < candidates@.len() ==> #[trigger] candidates@[a] < #[trigger] candidates@[b],
        candidates@.len() == 0 <==> forall|j: int| 0 <= j < members@.len() ==> !implicit_conversion(from, #[trigger] members@[j]),
{
    let mut candidates: Vec<usize> = Vec::new();
    let mut c: usize = 0;
    while c < members.len()
        invariant
            c <= members@.len(),
            forall|j: int| 0 <= j < candidates@.len() ==> (#[trigger] candidates@[j]) < c
                && implicit_conversion(from, members@[candidates@[j] as int]),
            forall|a: int, b: int| 0 <= a < b < candidates@.len() ==> #[trigger] candidates@[a] < #[trigger] candidates@[b],
            candidates@.len() == 0 <==> forall|j: int| 0 <= j < c ==> !implicit_conversion(from, #[trigger] members@[j]),
        decreases members@.len() - c,
    {
        if implicit_conversion_target(from, members[c]) {
            candidates.push(c);
        }
        c = c + 1;
    }
    candidates
}

/// Assignability: the same type; `Int64` into `Dec64`; a union member into
/// its union, with `nil` naming the union's `Nil` member; a direct member
/// into an inline sum, or a value one implicit conversion turns into one.
pub open spec fn assignable(t: &Types, from: Ty, to: Ty) -> bool {
    ||| from == to
    ||| implicit_conversion(from, to)
    ||| (to matches Ty::User(u) && ((from matches Ty::User(m) && member_of_union(t, m, u)) || (from == Ty::Nil && has_nil_member(t, u))))
    ||| (to matches Ty::Sum(s) && s.0 < t.ns() && (t.sums_view()[s.0 as int].contains(from)
        || (from == Ty::Int64 && t.sums_view()[s.0 as int].contains(Ty::Dec64))))
}

/// How a value of type `from` becomes `r` of type `to`: unchanged when the
/// types agree; `Int64` cast to `Dec64`; a member, or `nil` as the `Nil`
/// member, injected into its union; a member, or an `Int64` cast to a
/// `Dec64` member, injected into an inline sum.
pub open spec fn converts(r: TExpr, value: TExpr, from: Ty, to: Ty) -> bool {
    ||| from == to && r == value
    ||| (r matches TExpr::Cast(v, t) && *v == value && t == Ty::Dec64 && from == Ty::Int64 && to == Ty::Dec64)
    ||| (r matches TExpr::Inject { member, into_union, value: v } && to == Ty::User(into_union)
        && ((from == Ty::User(member) && *v == value)
            || (from == Ty::Nil && (*v matches TExpr::Construct { type_id, fields } && type_id == member && fields@.len() == 0))))
    ||| (r matches TExpr::InjectSum { sum, member, value: v } && to == Ty::Sum(sum)
        && ((member == from && *v == value)
            || (from == Ty::Int64 && member == Ty::Dec64 && *v == TExpr::Cast(Box::new(value), Ty::Dec64))))
}

/// Converts a value of type `from` to `to` when assignability allows it;
/// otherwise reports the mismatch and keeps the value.
pub(crate) fn coerce(ctx: &mut Ctx, value: TExpr, from: Ty, to: Ty, span: Span) -> (r: TExpr)
    requires
        old(ctx).types.wf(),
        old(ctx).ok(from),
        old(ctx).ok(to),
    ensures
        final(ctx).types == old(ctx).types,
        final(ctx).self_ty == old(ctx).self_ty,
        final(ctx).current_method == old(ctx).current_method,
        final(ctx).direct_writes == old(ctx).direct_writes,
        final(ctx).effect_edges == old(ctx).effect_edges,
        final(ctx).receiver_calls == old(ctx).receiver_calls,
        final(ctx).move_state == old(ctx).move_state,
        final(ctx).declared == old(ctx).declared,
        final(ctx).loops == old(ctx).loops,
        final(ctx).unknown == old(ctx).unknown,
        assignable(&old(ctx).types, from, to) ==> final(ctx).errors@ == old(ctx).errors@ && converts(r, value, from, to),
        !assignable(&old(ctx).types, from, to) ==> r == value,
        !assignable(&old(ctx).types, from, to) ==> final(ctx).errors@.len() == old(ctx).errors@.len() + 1
            && final(ctx).errors@.last().msg@ == "expected '"@ + old(ctx).types.shown(to) + "', found '"@
                + old(ctx).types.shown(from) + "'"@,
        !assignable(&old(ctx).types, from, to) ==> final(ctx).errors@.drop_last() == old(ctx).errors@,
        forall|i: int| 0 <= i < old(ctx).errors@.len() ==> #[trigger] final(ctx).errors@[i] == old(ctx).errors@[i],
{
    if from == to {
        return value;
    }
    if from == Ty::Int64 && to == Ty::Dec64 {
        return TExpr::Cast(Box::new(value), Ty::Dec64);
    }
    if let Ty::User(union) = to {
        if let Ty::User(member) = from {
            if ctx.types.containing_union(member) == Some(union) {
                return TExpr::Inject { member, into_union: union, value: Box::new(value) };
            }
        }
        if from == Ty::Nil {
            let nil = owned("Nil");
            if let Some(member) = ctx.types.member(union, &nil) {
                proof { reveal_strlit("Nil"); }
                return TExpr::Inject {
                    member,
                    into_union: union,
                    value: Box::new(TExpr::Construct { type_id: member, fields: Vec::new() }),
                };
            }
            proof {
                reveal_strlit("Nil");
                assert(!has_nil_member(&ctx.types, union));
            }
        }
    }
    if let Ty::Sum(sum) = to {
        let members = ctx.types.sum_members(sum);
        let ghost ms = ctx.types.sums_view()[sum.0 as int];
        if contains_ty(members, from) {
            return TExpr::InjectSum { sum, member: from, value: Box::new(value) };
        }
        let candidates = conversion_candidates(members, from);
        if candidates.len() == 1 {
            let one = members[candidates[0]];
            proof {
                assert(ms.contains(Ty::Dec64));
                assert(implicit_conversion(from, members@[candidates@[0] as int]));
            }
            return TExpr::InjectSum { sum, member: one, value: Box::new(TExpr::Cast(Box::new(value), Ty::Dec64)) };
        }
        if candidates.len() > 1 {
            proof {
                let a = candidates@[0] as int;
                let b = candidates@[1] as int;
                assert(a < b);
                assert(ty_key(members@[a]) < ty_key(members@[b]));
                assert(false);
            }
            let found = ctx.name(from);
            let target = ctx.name(to);
            let mut m = owned("'");
            push_string(&mut m, &found);
            push_str(&mut m, "' could convert into more than one member of '");
            push_string(&mut m, &target);
            push_str(&mut m, "'; add an explicit conversion to pick one");
            ctx.error(span, m);
            return value;
        }
        proof {
            if from == Ty::Int64 && ms.contains(Ty::Dec64) {
                let j = choose|j: int| 0 <= j < members@.len() && members@[j] == Ty::Dec64;
                assert(implicit_conversion(from, members@[j]));
            }
        }
    }
    ctx.mismatch(span, to, from);
    value
}

/// Whether the move state holds `root`.
pub open spec fn in_state(s: Seq<(PlaceRoot, Span)>, root: PlaceRoot) -> bool {
    exists|i: int| 0 <= i < s.len() && (#[trigger] s[i]).0.same_as(root)
}

pub(crate) fn clone_root(r: &PlaceRoot) -> (c: PlaceRoot)
    ensures
        c == *r,
{
    match r {
        PlaceRoot::Local(n) => PlaceRoot::Local(n.clone()),
        PlaceRoot::SelfRef => PlaceRoot::SelfRef,
    }
}

pub(crate) fn clone_path(p: &Vec<usize>) -> (c: Vec<usize>)
    ensures
        c@ == p@,
{
    let mut out: Vec<usize> = Vec::new();
    let mut k: usize = 0;
    while k < p.len()
        invariant
            k <= p@.len(),
            out@ == p@.subrange(0, k as int),
        decreases p@.len() - k,
    {
        out.push(p[k]);
        proof { assert(out@ =~= p@.subrange(0, (k + 1) as int)); }
        k = k + 1;
    }
    proof { assert(out@ =~= p@); }
    out
}

pub(crate) fn clone_place(p: &Place) -> (c: Place)
    ensures
        c.root == p.root,
        c.root_ty == p.root_ty,
        c.path@ == p.path@,
        c.ty == p.ty,
{
    Place { root: clone_root(&p.root), root_ty: p.root_ty, path: clone_path(&p.path), ty: p.ty }
}

/// Whether `root` is currently moved.
pub(crate) fn is_moved(state: &Vec<(PlaceRoot, Span)>, root: &PlaceRoot) -> (r: bool)
    ensures
        r == in_state(state@, *root),
{
    let mut i: usize = 0;
    while i < state.len()
        invariant
            i <= state@.len(),
            forall|j: int| 0 <= j < i ==> !(#[trigger] state@[j]).0.same_as(*root),
        decreases state@.len() - i,
    {
        if state[i].0.same(root) {
            return true;
        }
        i = i + 1;
    }
    false
}

/// Makes `root` available again: assigning a whole root installs a fresh
/// value.
pub(crate) fn release(state: &mut Vec<(PlaceRoot, Span)>, root: &PlaceRoot)
    ensures
        !in_state(final(state)@, *root),
        forall|r: PlaceRoot| !r.same_as(*root) ==> (in_state(final(state)@, r) <==> in_state(old(state)@, r)),
{
    let mut kept: Vec<(PlaceRoot, Span)> = Vec::new();
    let mut i: usize = 0;
    while i < state.len()
        invariant
            i <= state@.len(),
            !in_state(kept@, *root),
            forall|r: PlaceRoot| !r.same_as(*root) ==> (in_state(kept@, r) <==> in_state(state@.subrange(0, i as int), r)),
        decreases state@.len() - i,
    {
        let ghost sub = state@.subrange(0, (i + 1) as int);
        let ghost prev = state@.subrange(0, i as int);
        let ghost old_kept = kept@;
        if !state[i].0.same(root) {
            kept.push((clone_root(&state[i].0), state[i].1));
        }
        proof {
            assert(sub =~= prev.push(state@[i as int]));
            assert forall|r: PlaceRoot| !r.same_as(*root) implies (in_state(kept@, r) <==> in_state(sub, r)) by {
                if in_state(sub, r) {
                    let j = choose|j: int| 0 <= j < sub.len() && (#[trigger] sub[j]).0.same_as(r);
                    if j < i {
                        assert(prev[j] == sub[j]);
                        assert(in_state(prev, r));
                        assert(in_state(old_kept, r));
                        let k = choose|k: int| 0 <= k < old_kept.len() && (#[trigger] old_kept[k]).0.same_as(r);
                        assert(kept@[k] == old_kept[k]);
                    } else {
                        assert(sub[j] == state@[i as int]);
                        assert(kept@.last().0 == state@[i as int].0);
                        assert(kept@[kept@.len() - 1].0.same_as(r));
                    }
                }
                if in_state(kept@, r) {
                    let k = choose|k: int| 0 <= k < kept@.len() && (#[trigger] kept@[k]).0.same_as(r);
                    if k < old_kept.len() {
                        assert(old_kept[k] == kept@[k]);
                        assert(in_state(old_kept, r));
                        assert(in_state(prev, r));
                        let j = choose|j: int| 0 <= j < prev.len() && (#[trigger] prev[j]).0.same_as(r);
                        assert(sub[j] == prev[j]);
                    } else {
                        assert(kept@[k].0 == state@[i as int].0);
                        assert(sub[i as int] == state@[i as int]);
                    }
                }
            }
            assert(!in_state(kept@, *root)) by {
                if in_state(kept@, *root) {
                    let k = choose|k: int| 0 <= k < kept@.len() && (#[trigger] kept@[k]).0.same_as(*root);
                    if k < old_kept.len() {
                        assert(old_kept[k] == kept@[k]);
                    }
                }
            }
        }
        i = i + 1;
    }
    proof { assert(state@.subrange(0, state@.len() as int) =~= state@); }
    *state = kept;
}

/// A root is available after a merge only when it is available on every
/// path that reaches it: the merged moved-set is the union of every path's.
pub fn merge_moves(exits: &Vec<Vec<(PlaceRoot, Span)>>) -> (merged: Vec<(PlaceRoot, Span)>)
    ensures
        forall|r: PlaceRoot| in_state(merged@, r) <==> exists|i: int| 0 <= i < exits@.len() && in_state(#[trigger] exits@[i]@, r),
{
    let mut merged: Vec<(PlaceRoot, Span)> = Vec::new();
    let mut i: usize = 0;
    while i < exits.len()
        invariant
            i <= exits@.len(),
            forall|r: PlaceRoot| in_state(merged@, r) <==> exists|k: int| 0 <= k < i && in_state(#[trigger] exits@[k]@, r),
        decreases exits@.len() - i,
    {
        let exit = &exits[i];
        let ghost before = merged@;
        assert(forall|r: PlaceRoot| in_state(before, r) <==> exists|k: int| 0 <= k < i && in_state(#[trigger] exits@[k]@, r));
        let mut j: usize = 0;
        while j < exit.len()
            invariant
                i < exits@.len(),
                j <= exit@.len(),
                exit@ == exits@[i as int]@,
                forall|r: PlaceRoot| in_state(merged@, r) <==> (in_state(before, r) || in_state(exit@.subrange(0, j as int), r)),
            decreases exit@.len() - j,
        {
            let ghost sub = exit@.subrange(0, (j + 1) as int);
            if !is_moved(&merged, &exit[j].0) {
                let ghost prev = merged@;
                merged.push((clone_root(&exit[j].0), exit[j].1));
                proof {
                    assert forall|r: PlaceRoot| in_state(merged@, r) <==> (in_state(before, r) || in_state(sub, r)) by {
                        if in_state(merged@, r) {
                            let k = choose|k: int| 0 <= k < merged@.len() && (#[trigger] merged@[k]).0.same_as(r);
                            if k < prev.len() {
                                assert(prev[k] == merged@[k]);
                                assert(in_state(prev, r));
                                if !in_state(before, r) {
                                    let m = choose|m: int| 0 <= m < j && (#[trigger] exit@.subrange(0, j as int)[m]).0.same_as(r);
                                    assert(sub[m] == exit@.subrange(0, j as int)[m]);
                                }
                            } else {
                                assert(sub[j as int].0.same_as(r));
                            }
                        }
                        if in_state(sub, r) && !in_state(before, r) {
                            let m = choose|m: int| 0 <= m < sub.len() && (#[trigger] sub[m]).0.same_as(r);
                            if m < j {
                                assert(exit@.subrange(0, j as int)[m] == sub[m]);
                                assert(in_state(prev, r));
                                let k = choose|k: int| 0 <= k < prev.len() && (#[trigger] prev[k]).0.same_as(r);
                                assert(merged@[k] == prev[k]);
                            } else {
                                assert(merged@.last().0.same_as(r));
                            }
                        }
                        if in_state(before, r) {
                            let k = choose|k: int| 0 <= k < prev.len() && (#[trigger] prev[k]).0.same_as(r) || true;
                            assert(in_state(prev, r));
                            let k2 = choose|k: int| 0 <= k < prev.len() && (#[trigger] prev[k]).0.same_as(r);
                            assert(merged@[k2] == prev[k2]);
                        }
                    }
                }
            } else {
                proof {
                    assert forall|r: PlaceRoot| in_state(merged@, r) <==> (in_state(before, r) || in_state(sub, r)) by {
                        if in_state(sub, r) && !in_state(before, r) {
                            let m = choose|m: int| 0 <= m < sub.len() && (#[trigger] sub[m]).0.same_as(r);
                            if m < j {
                                assert(exit@.subrange(0, j as int)[m] == sub[m]);
                            } else {
                                let k = choose|k: int| 0 <= k < merged@.len() && (#[trigger] merged@[k]).0.same_as(exit@[j as int].0);
                                assert(merged@[k].0.same_as(r));
                            }
                        }
                        if in_state(exit@.subrange(0, j as int), r) {
                            let m = choose|m: int| 0 <= m < j && (#[trigger] exit@.subrange(0, j as int)[m]).0.same_as(r);
                            assert(sub[m] == exit@.subrange(0, j as int)[m]);
                        }
                    }
                }
            }
            j = j + 1;
        }
        proof {
            assert(exit@.subrange(0, exit@.len() as int) =~= exit@);
            assert forall|r: PlaceRoot| in_state(merged@, r) <==> exists|k: int| 0 <= k < i + 1 && in_state(#[trigger] exits@[k]@, r) by {
                assert(in_state(merged@, r) <==> (in_state(before, r) || in_state(exit@.subrange(0, j as int), r)));
                assert(exit@.subrange(0, j as int) == exit@);
                assert(in_state(before, r) <==> exists|k: int| 0 <= k < i && in_state(#[trigger] exits@[k]@, r));
                if in_state(merged@, r) {
                    if in_state(before, r) {
                        let k = choose|k: int| 0 <= k < i && in_state(#[trigger] exits@[k]@, r);
                        assert(0 <= k < i + 1 && in_state(exits@[k]@, r));
                    } else {
                        assert(in_state(exit@, r));
                        assert(in_state(exits@[i as int]@, r));
                    }
                }
                if exists|k: int| 0 <= k < i + 1 && in_state(#[trigger] exits@[k]@, r) {
                    let k = choose|k: int| 0 <= k < i + 1 && in_state(#[trigger] exits@[k]@, r);
                    if k < i {
                        assert(in_state(before, r));
                    } else {
                        assert(in_state(exit@, r));
                    }
                }
            }
        }
        i = i + 1;
    }
    merged
}

/// Two places overlap when they share a root and one field path is a prefix
/// of the other.
pub open spec fn overlap_spec(a: Place, b: Place) -> bool {
    &&& a.root.same_as(b.root)
    &&& forall|k: int| 0 <= k < a.path@.len() && k < b.path@.len() ==> a.path@[k] == b.path@[k]
}

pub fn overlaps(left: &Place, right: &Place) -> (r: bool)
    ensures
        r == overlap_spec(*left, *right),
{
    if !left.root.same(&right.root) {
        return false;
    }
    let shared = if left.path.len() < right.path.len() { left.path.len() } else { right.path.len() };
    let mut k: usize = 0;
    while k < shared
        invariant
            shared <= left.path@.len(),
            shared <= right.path@.len(),
            shared == left.path@.len() || shared == right.path@.len(),
            k <= shared,
            forall|j: int| 0 <= j < k ==> left.path@[j] == right.path@[j],
        decreases shared - k,
    {
        if left.path[k] != right.path[k] {
            return false;
        }
        k = k + 1;
    }
    true
}

/// Overlap is symmetric: neither argument is privileged.
pub proof fn law_overlap_symmetric(a: Place, b: Place)
    ensures
        overlap_spec(a, b) == overlap_spec(b, a),
{
}

/// A resolved place plus its root's mutability.
pub(crate) struct Resolved {
    pub(crate) place: Place,
    pub(crate) mutable: bool,
}

/// Whether an expression resolves to a place.
pub(crate) enum PlaceOutcome {
    Resolved(Resolved),
    /// The root was a binding or `self`, but the field path failed; the
    /// diagnostic is already recorded.
    Reported,
    /// The root is not a binding.
    NotAPlace,
}

/// The innermost atom of a chain of field selections.
pub open spec fn member_root(e: SExpr) -> SExpr
    decreases e,
{
    match e.expr {
        Expr::Member(base, _, _) => member_root(*base),
        _ => e,
    }
}

/// The field names a chain of selections selects, innermost first.
pub open spec fn member_path(e: SExpr) -> Seq<(String, Span)>
    decreases e,
{
    match e.expr {
        Expr::Member(base, name, span) => member_path(*base).push((name, span)),
        _ => Seq::empty(),
    }
}

/// The innermost atom of `a.b.c`, with the field names selected from it
/// appended to `fields` innermost first.
pub(crate) fn flatten<'a>(expr: &'a SExpr, fields: &mut Vec<(String, Span)>) -> (r: &'a SExpr)
    ensures
        *r == member_root(*expr),
        final(fields)@ == old(fields)@ + member_path(*expr),
    decreases expr,
{
    match &expr.expr {
        Expr::Member(base, name, span) => {
            let ghost f0 = fields@;
            let root = flatten(base, fields);
            fields.push((name.clone(), *span));
            proof { assert(fields@ =~= f0 + member_path(*expr)); }
            root
        }
        _ => {
            proof { assert(fields@ =~= fields@ + member_path(*expr)); }
            expr
        }
    }
}

/// The index of the innermost binding named `name`.
pub(crate) fn lookup(env: &Vec<Binding>, name: &String) -> (r: Option<usize>)
    ensures
        r matches Some(i) ==> i < env@.len() && env@[i as int].name@ == name@,
        r is None ==> forall|i: int| 0 <= i < env@.len() ==> (#[trigger] env@[i]).name@ != name@,
        r matches Some(i) ==> forall|j: int| i < j < env@.len() ==> (#[trigger] env@[j]).name@ != name@,
{
    let mut i = env.len();
    while i > 0
        invariant
            i <= env@.len(),
            forall|j: int| i <= j < env@.len() ==> (#[trigger] env@[j]).name@ != name@,
        decreases i,
    {
        i = i - 1;
        if same(&env[i].name, name) {
            return Some(i);
        }
    }
    None
}

/// Whether a method `name` is declared on `receiver`.
pub(crate) fn find_method(d: &Decls, receiver: TypeId, name: &String) -> (r: Option<MethodId>)
    ensures
        r matches Some(m) ==> exists|i: int| 0 <= i < d.method_index@.len() && (#[trigger] d.method_index@[i]).2 == m
            && d.method_index@[i].0 == receiver && d.method_index@[i].1@ == name@,
        r is None ==> forall|i: int| 0 <= i < d.method_index@.len()
            ==> !((#[trigger] d.method_index@[i]).0 == receiver && d.method_index@[i].1@ == name@),
{
    let mut i: usize = 0;
    while i < d.method_index.len()
        invariant
            i <= d.method_index@.len(),
            forall|j: int| 0 <= j < i ==> !((#[trigger] d.method_index@[j]).0 == receiver && d.method_index@[j].1@ == name@),
        decreases d.method_index@.len() - i,
    {
        if d.method_index[i].0 == receiver && same(&d.method_index[i].1, name) {
            return Some(d.method_index[i].2);
        }
        i = i + 1;
    }
    None
}

/// Walks a field path from a root type, reporting the first failure.
pub(crate) fn walk_fields(ctx: &mut Ctx, d: &Decls, root_ty: Ty, fields: &Vec<(String, Span)>) -> (r: Option<(Vec<usize>, Ty)>)
    requires
        old(ctx).wf(d),
        old(ctx).ok(root_ty),
    ensures
        final(ctx).wf(d),
        final(ctx).types == old(ctx).types,
        final(ctx).grows(old(ctx)),
        final(ctx).move_state == old(ctx).move_state,
        final(ctx).direct_writes == old(ctx).direct_writes,
        final(ctx).effect_edges == old(ctx).effect_edges,
        final(ctx).receiver_calls == old(ctx).receiver_calls,
        r matches Some((_, t)) ==> final(ctx).ok(t),
        r matches Some((path, t)) ==> crate::expressions::path_ty(def_shapes(final(ctx).types.defs_view()), root_ty, path@) == Some(t),
        r matches Some((path, _)) ==> path@.len() == fields@.len(),
        r is None ==> final(ctx).errors@.len() > old(ctx).errors@.len(),
{
    let mut path: Vec<usize> = Vec::new();
    let mut current = root_ty;
    let mut k: usize = 0;
    while k < fields.len()
        invariant
            ctx.wf(d),
            ctx.types == old(ctx).types,
            ctx.grows(old(ctx)),
            ctx.move_state == old(ctx).move_state,
            ctx.direct_writes == old(ctx).direct_writes,
            ctx.effect_edges == old(ctx).effect_edges,
            ctx.receiver_calls == old(ctx).receiver_calls,
            ctx.ok(current),
            crate::expressions::path_ty(def_shapes(ctx.types.defs_view()), root_ty, path@) == Some(current),
            k <= fields@.len(),
            path@.len() == k,
        decreases fields@.len() - k,
    {
        let name = &fields[k].0;
        let span = fields[k].1;
        let id = match current {
            Ty::User(id) => id,
            _ => {
                let mut m = owned("'");
                push_string(&mut m, &ctx.name(current));
                push_str(&mut m, "' is not a struct, so it has no field '");
                push_string(&mut m, name);
                push_str(&mut m, "'");
                ctx.error(span, m);
                return None;
            }
        };
        match ctx.types.field(id, name) {
            Some((index, t)) => {
                let ghost before = path@;
                path.push(index);
                proof {
                    assert(path@.drop_last() == before);
                    let shape = def_shapes(ctx.types.defs_view())[id.0 as int];
                    assert(shape.0 == Some(ctx.types.defs_view()[id.0 as int].fields_of()->Some_0.map_values(|p: (String, Ty)| p.1)));
                }
                current = t;
            }
            None => {
                let owner = ctx.types.def(id).name().clone();
                let mut m = owned("'");
                push_string(&mut m, &owner);
                if find_method(d, id, name).is_some() {
                    push_char(&mut m, '.');
                    push_string(&mut m, name);
                    push_str(&mut m, "' is a method; a method requires a receiver call");
                } else if ctx.types.def(id).fields().is_none() {
                    push_str(&mut m, "' is not a struct, so it has no field '");
                    push_string(&mut m, name);
                    push_str(&mut m, "'");
                } else {
                    push_str(&mut m, "' has no field '");
                    push_string(&mut m, name);
                    push_str(&mut m, "'");
                }
                ctx.error(span, m);
                return None;
            }
        }
        k = k + 1;
    }
    Some((path, current))
}

/// The root a place expression names: `self` in a method, or the innermost
/// binding of a name, with its type and whether it is mutable.
pub(crate) open spec fn place_root_spec(self_ty: Option<Ty>, env: Seq<Binding>, root: Expr) -> Option<(PlaceRoot, Ty, bool)> {
    match root {
        Expr::SelfRef => match self_ty {
            Some(t) => Some((PlaceRoot::SelfRef, t, true)),
            None => None,
        },
        Expr::Local(name) => match crate::expressions::latest_binding(env, name@) {
            Some(i) => Some((PlaceRoot::Local(name), env[i].ty, env[i].mutable)),
            None => None,
        },
        _ => None,
    }
}

/// The root of a place, without reporting anything, so a caller can fall
/// back to value or type-path resolution.
pub(crate) fn place_root(ctx: &Ctx, env: &Vec<Binding>, root: &Expr) -> (r: Option<(PlaceRoot, Ty, bool)>)
    requires
        ctx.self_ty matches Some(t) ==> ctx.ok(t),
        env_ok(env@, &ctx.types),
    ensures
        r matches Some((_, t, _)) ==> ctx.ok(t),
        r == place_root_spec(ctx.self_ty, env@, *root),
{
    match root {
        Expr::SelfRef => match ctx.self_ty {
            Some(t) => Some((PlaceRoot::SelfRef, t, true)),
            None => None,
        },
        Expr::Local(name) => {
            let found = lookup(env, name);
            proof { crate::expressions::lemma_latest_binding(env@, name@, found); }
            match found {
                Some(i) => Some((PlaceRoot::Local(name.clone()), env[i].ty, env[i].mutable)),
                None => None,
            }
        }
        _ => None,
    }
}

/// Resolves an expression as a place: a binding or `self`, then fields.
pub(crate) fn as_place(ctx: &mut Ctx, d: &Decls, env: &Vec<Binding>, expr: &SExpr) -> (r: PlaceOutcome)
    requires
        old(ctx).wf(d),
        env_ok(env@, &old(ctx).types),
    ensures
        final(ctx).wf(d),
        final(ctx).types == old(ctx).types,
        final(ctx).grows(old(ctx)),
        final(ctx).move_state == old(ctx).move_state,
        final(ctx).direct_writes == old(ctx).direct_writes,
        final(ctx).effect_edges == old(ctx).effect_edges,
        final(ctx).receiver_calls == old(ctx).receiver_calls,
        r matches PlaceOutcome::Resolved(res) ==> place_ok(res.place, &final(ctx).types),
        r is Reported ==> final(ctx).errors@.len() > old(ctx).errors@.len(),
        r is NotAPlace ==> final(ctx).errors@ == old(ctx).errors@,
        (r is NotAPlace) == (place_root_spec(old(ctx).self_ty, env@, member_root(*expr).expr) is None),
        r matches PlaceOutcome::Resolved(res) ==> place_root_spec(old(ctx).self_ty, env@, member_root(*expr).expr)
            == Some((res.place.root, res.place.root_ty, res.mutable))
            && res.place.path@.len() == member_path(*expr).len(),
{
    let mut fields: Vec<(String, Span)> = Vec::new();
    let root = flatten(expr, &mut fields);
    let (root, root_ty, mutable) = match place_root(ctx, env, &root.expr) {
        Some(r) => r,
        None => return PlaceOutcome::NotAPlace,
    };
    match walk_fields(ctx, d, root_ty, &fields) {
        Some((path, t)) => PlaceOutcome::Resolved(Resolved { place: Place { root, root_ty, path, ty: t }, mutable }),
        None => PlaceOutcome::Reported,
    }
}

/// How a written place root is spelled.
pub open spec fn written_root(root: PlaceRootName) -> Seq<char> {
    match root {
        PlaceRootName::Name(n) => n@,
        PlaceRootName::SelfRef => "self"@,
    }
}

/// Each field name after a `.`.
pub open spec fn field_suffix(fields: Seq<(String, Span)>) -> Seq<char>
    decreases fields.len(),
{
    if fields.len() == 0 {
        Seq::empty()
    } else {
        field_suffix(fields.drop_last()) + "."@ + fields.last().0@
    }
}

/// How a written place path is spelled.
pub(crate) fn path_text(path: &PlacePath) -> (s: String)
    ensures
        s@ == written_root(path.root) + field_suffix(path.fields@),
{
    let mut s = match &path.root {
        PlaceRootName::Name(n) => n.clone(),
        PlaceRootName::SelfRef => owned("self"),
    };
    let mut k: usize = 0;
    proof { assert(path.fields@.subrange(0, 0) =~= Seq::<(String, Span)>::empty()); }
    while k < path.fields.len()
        invariant
            k <= path.fields@.len(),
            s@ == written_root(path.root) + field_suffix(path.fields@.subrange(0, k as int)),
        decreases path.fields@.len() - k,
    {
        let ghost before = s@;
        push_char(&mut s, '.');
        push_string(&mut s, &path.fields[k].0);
        proof {
            reveal_strlit(".");
            let pre = path.fields@.subrange(0, k + 1);
            assert(pre.drop_last() =~= path.fields@.subrange(0, k as int));
            assert(s@ =~= before + "."@ + pre.last().0@);
        }
        k = k + 1;
    }
    proof { assert(path.fields@.subrange(0, path.fields@.len() as int) =~= path.fields@); }
    s
}

/// Resolves a written place: an assignment target or an `is` subject.
pub(crate) fn resolve_place(ctx: &mut Ctx, d: &Decls, env: &Vec<Binding>, path: &PlacePath) -> (r: Option<Resolved>)
    requires
        old(ctx).wf(d),
        env_ok(env@, &old(ctx).types),
    ensures
        final(ctx).wf(d),
        final(ctx).types == old(ctx).types,
        final(ctx).grows(old(ctx)),
        final(ctx).move_state == old(ctx).move_state,
        final(ctx).direct_writes == old(ctx).direct_writes,
        final(ctx).effect_edges == old(ctx).effect_edges,
        final(ctx).receiver_calls == old(ctx).receiver_calls,
        r matches Some(res) ==> place_ok(res.place, &final(ctx).types),
        r is None ==> final(ctx).errors@.len() > old(ctx).errors@.len(),
        r matches Some(res) ==> Some((res.place.root, res.place.root_ty, res.mutable)) == place_root_spec(old(ctx).self_ty, env@,
            match path.root { PlaceRootName::Name(n) => Expr::Local(n), PlaceRootName::SelfRef => Expr::SelfRef })
            && res.place.path@.len() == path.fields@.len(),
        place_root_spec(old(ctx).self_ty, env@,
            match path.root { PlaceRootName::Name(n) => Expr::Local(n), PlaceRootName::SelfRef => Expr::SelfRef }) is None ==> r is None,
{
    let (root, root_ty, mutable) = match &path.root {
        PlaceRootName::SelfRef => match ctx.self_ty {
            Some(t) => (PlaceRoot::SelfRef, t, true),
            None => {
                ctx.error(path.root_span, owned("'self' is only valid inside a method body"));
                return None;
            }
        },
        PlaceRootName::Name(name) => {
            let found = lookup(env, name);
            proof { crate::expressions::lemma_latest_binding(env@, name@, found); }
            match found {
                Some(i) => (PlaceRoot::Local(name.clone()), env[i].ty, env[i].mutable),
                None => {
                    ctx.error(path.root_span, crate::text::concat3("No such variable '", name, "' in scope"));
                    return None;
                }
            }
        }
    };
    match walk_fields(ctx, d, root_ty, &path.fields) {
        Some((p, t)) => Some(Resolved { place: Place { root, root_ty, path: p, ty: t }, mutable }),
        None => None,
    }
}

/// A consuming use of a move-only root needs it available; it is moved
/// from this point on. A copyable type is an ordinary copy.
pub(crate) fn check_move(ctx: &mut Ctx, place: &Place, span: Span)
    requires
        old(ctx).types.wf(),
        old(ctx).ok(place.ty),
    ensures
        final(ctx).loops@ == old(ctx).loops@,
        final(ctx).declared == old(ctx).declared,
        forall|i: int| 0 <= i < old(ctx).errors@.len() ==> #[trigger] final(ctx).errors@[i] == old(ctx).errors@[i],
        final(ctx).types == old(ctx).types,
        final(ctx).self_ty == old(ctx).self_ty,
        final(ctx).current_method == old(ctx).current_method,
        final(ctx).direct_writes == old(ctx).direct_writes,
        final(ctx).effect_edges == old(ctx).effect_edges,
        final(ctx).receiver_calls == old(ctx).receiver_calls,
        final(ctx).errors@.len() >= old(ctx).errors@.len(),
        !old(ctx).types.is_move_only_spec(place.ty) ==> final(ctx).move_state == old(ctx).move_state
            && final(ctx).errors@ == old(ctx).errors@,
        old(ctx).types.is_move_only_spec(place.ty) ==> in_state(final(ctx).move_state@, place.root),
        old(ctx).types.is_move_only_spec(place.ty) && in_state(old(ctx).move_state@, place.root)
            ==> final(ctx).errors@.len() == old(ctx).errors@.len() + 1,
{
    if !ctx.types.is_move_only(place.ty) {
        return;
    }
    if is_moved(&ctx.move_state, &place.root) {
        let mut m = owned("'");
        push_string(&mut m, &place.root.to_text());
        push_str(&mut m, "' is already moved, so this use is invalid");
        ctx.error(span, m);
        return;
    }
    ctx.move_state.push((clone_root(&place.root), span));
    proof { assert(ctx.move_state@.last().0.same_as(place.root)); }
}

/// Tags a value in a consuming context; a bare whole-root place read also
/// runs the availability check.
pub(crate) fn mark_consumed(ctx: &mut Ctx, expr: TExpr, span: Span) -> (r: TExpr)
    requires
        old(ctx).types.wf(),
        expr matches TExpr::Place(p, _) ==> old(ctx).ok(p.ty),
    ensures
        final(ctx).loops@ == old(ctx).loops@,
        final(ctx).declared == old(ctx).declared,
        forall|i: int| 0 <= i < old(ctx).errors@.len() ==> #[trigger] final(ctx).errors@[i] == old(ctx).errors@[i],
        final(ctx).types == old(ctx).types,
        final(ctx).self_ty == old(ctx).self_ty,
        final(ctx).current_method == old(ctx).current_method,
        final(ctx).direct_writes == old(ctx).direct_writes,
        final(ctx).effect_edges == old(ctx).effect_edges,
        final(ctx).receiver_calls == old(ctx).receiver_calls,
        final(ctx).errors@.len() >= old(ctx).errors@.len(),
        !(expr is Place) ==> final(ctx).errors@ == old(ctx).errors@ && final(ctx).move_state == old(ctx).move_state,
        expr matches TExpr::Place(p, _) ==> r == TExpr::Place(p, UseMode::Consume),
        !(expr is Place) ==> r == expr && *final(ctx) == *old(ctx),
{
    match expr {
        TExpr::Place(place, _) => {
            if place.path.len() == 0 {
                check_move(ctx, &place, span);
            }
            TExpr::Place(place, UseMode::Consume)
        }
        other => other,
    }
}

pub(crate) proof fn lemma_decls_grow(d: &Decls, nd: nat, ns: nat, nb: nat, ns2: nat, nb2: nat)
    requires
        decls_ok(d.methods@, d.method_index@, d.sigs@, nd, ns, nb),
        ns <= ns2,
        nb <= nb2,
    ensures
        decls_ok(d.methods@, d.method_index@, d.sigs@, nd, ns2, nb2),
{
    assert forall|i: int| 0 <= i < d.methods@.len() implies (#[trigger] d.methods@[i]).receiver.0 < nd
        && crate::types::params_ok(d.methods@[i].params@, nd, ns2, nb2) && crate::types::opt_ok(d.methods@[i].result, nd, ns2, nb2) by {
        crate::collect::lemma_params_grow(d.methods@[i].params@, nd, ns, nb, ns2, nb2);
    }
    assert forall|i: int| 0 <= i < d.sigs@.len() implies crate::types::params_ok((#[trigger] d.sigs@[i]).1.params@, nd, ns2, nb2)
        && crate::types::opt_ok(d.sigs@[i].1.result, nd, ns2, nb2) by {
        crate::collect::lemma_params_grow(d.sigs@[i].1.params@, nd, ns, nb, ns2, nb2);
    }
}

/// Interns a box's pointee; a full table is a compiler limit, recorded as
/// an internal failure.
pub(crate) fn ctx_intern_box(ctx: &mut Ctx, d: &Decls, pointee: Ty) -> (r: Ty)
    requires
        old(ctx).wf(d),
        old(ctx).ok(pointee),
    ensures
        final(ctx).wf(d),
        final(ctx).grows(old(ctx)),
        final(ctx).ok(r),
        final(ctx).move_state == old(ctx).move_state,
        final(ctx).errors == old(ctx).errors,
        old(ctx).types.nb() < u32::MAX ==> (r matches Ty::Box(id) && final(ctx).types.boxes_view()[id.0 as int] == pointee
            && final(ctx).unknown == old(ctx).unknown),
        old(ctx).types.nb() >= u32::MAX ==> r == Ty::Nil && final(ctx).unknown is Some,
{
    if ctx.types.box_count() >= 0xffff_ffff {
        ctx.unknown = Some("the box type table is full");
        return Ty::Nil;
    }
    let ghost before = *ctx;
    let id = ctx.types.intern_box(pointee);
    proof { lemma_decls_grow(d, before.types.nd(), before.types.ns(), before.types.nb(), ctx.types.ns(), ctx.types.nb()); }
    Ty::Box(id)
}

/// Interns a canonical member set met in a local declaration.
pub(crate) fn ctx_intern_sum(ctx: &mut Ctx, d: &Decls, members: Vec<Ty>) -> (r: Ty)
    requires
        old(ctx).wf(d),
        crate::types::normalized(members@),
        forall|i: int| 0 <= i < members@.len() ==> old(ctx).ok(#[trigger] members@[i]),
    ensures
        final(ctx).wf(d),
        final(ctx).grows(old(ctx)),
        final(ctx).ok(r),
        final(ctx).move_state == old(ctx).move_state,
        final(ctx).errors == old(ctx).errors,
        old(ctx).types.ns() < u32::MAX ==> (r matches Ty::Sum(id) && final(ctx).types.sums_view()[id.0 as int] == members@
            && final(ctx).unknown == old(ctx).unknown),
        old(ctx).types.ns() >= u32::MAX ==> r == Ty::Nil && final(ctx).unknown is Some,
{
    if ctx.types.sum_count() >= 0xffff_ffff {
        ctx.unknown = Some("the sum type table is full");
        return Ty::Nil;
    }
    let ghost before = *ctx;
    let id = ctx.types.intern_sum(members);
    proof { lemma_decls_grow(d, before.types.nd(), before.types.ns(), before.types.nb(), ctx.types.ns(), ctx.types.nb()); }
    Ty::Sum(id)
}

/// A fresh copy of a parameter list.
pub(crate) fn clone_params(ps: &Vec<TParam>) -> (c: Vec<TParam>)
    ensures
        c@.len() == ps@.len(),
        forall|i: int| 0 <= i < ps@.len() ==> (#[trigger] c@[i]).ty == ps@[i].ty && c@[i].mode == ps@[i].mode && c@[i].name@ == ps@[i].name@,
{
    let mut out: Vec<TParam> = Vec::new();
    let mut k: usize = 0;
    while k < ps.len()
        invariant
            k <= ps@.len(),
            out@.len() == k,
            forall|i: int| 0 <= i < k ==> (#[trigger] out@[i]).ty == ps@[i].ty && out@[i].mode == ps@[i].mode && out@[i].name@ == ps@[i].name@,
        decreases ps@.len() - k,
    {
        out.push(TParam { name: ps[k].name.clone(), ty: ps[k].ty, mode: ps[k].mode });
        k = k + 1;
    }
    out
}

/// Starts one function-wide binding region: clears the reserved names,
/// binds every parameter, and records the receiver type of a method.
/// Ordinary parameters are immutable; a reference parameter is a mutable
/// root of its referent type.
fn begin_region(ctx: &mut Ctx, d: &Decls, env: &mut Vec<Binding>, args: &Vec<Param>, params: &Vec<TParam>, self_ty: Option<Ty>) -> (r: Vec<TParam>)
    requires
        old(ctx).wf(d),
        params_ok(params@, old(ctx).types.nd(), old(ctx).types.ns(), old(ctx).types.nb()),
        self_ty matches Some(t) ==> old(ctx).ok(t),
        env_ok(old(env)@, &old(ctx).types),
    ensures
        final(ctx).wf(d),
        final(ctx).types == old(ctx).types,
        final(ctx).errors@.len() >= old(ctx).errors@.len(),
        final(ctx).self_ty == self_ty,
        final(ctx).current_method == old(ctx).current_method,
        env_ok(final(env)@, &final(ctx).types),
        params_ok(r@, final(ctx).types.nd(), final(ctx).types.ns(), final(ctx).types.nb()),
        param_shapes(r@) == param_shapes(params@),
{
    ctx.declared = Vec::new();
    ctx.loops = Vec::new();
    ctx.move_state = Vec::new();
    ctx.self_ty = self_ty;
    let mut i: usize = 0;
    while i < args.len() && i < params.len()
        invariant
            ctx.wf(d),
            ctx.types == old(ctx).types,
            ctx.errors@.len() >= old(ctx).errors@.len(),
            ctx.self_ty == self_ty,
            ctx.current_method == old(ctx).current_method,
            env_ok(env@, &ctx.types),
            params_ok(params@, ctx.types.nd(), ctx.types.ns(), ctx.types.nb()),
        decreases args@.len() - i,
    {
        declare(ctx, &args[i].name, args[i].span, "Parameter");
        proof { assert(ty_ok(params@[i as int].ty, ctx.types.nd(), ctx.types.ns(), ctx.types.nb())); }
        env.push(Binding { name: args[i].name.clone(), ty: params[i].ty, mutable: params[i].mode == ParamMode::Reference });
        i = i + 1;
    }
    let r = clone_params(params);
    proof {
        assert(param_shapes(r@) =~= param_shapes(params@));
        assert forall|k: int| 0 <= k < r@.len() implies ty_ok(#[trigger] r@[k].ty, ctx.types.nd(), ctx.types.ns(), ctx.types.nb()) by {
            assert(ty_ok(params@[k].ty, ctx.types.nd(), ctx.types.ns(), ctx.types.nb()));
        }
    }
    r
}

/// The pieces of a checked method, before its write effect is known.
/// The main body holds a `break` of its own, outside any loop.
pub open spec fn body_breaks(elements: Seq<crate::ast::Element>) -> bool {
    exists|k: int| 0 <= k < elements.len() && (#[trigger] elements[k]).kind is Break
}

/// A checked body is typed throughout, and one with a declared result ends
/// in a value of that type.
pub open spec fn body_typed(body: TBlock, result: Option<Ty>, calls: Seq<crate::expressions::Callable>, methods: Seq<crate::expressions::MethodShape>, defs: Seq<crate::expressions::DefShape>) -> bool {
    &&& block_well_typed(body, calls, methods, defs)
    &&& (result matches Some(t) ==> (body.result matches Some(x) && node_ty(x, calls, methods, defs) == Some(t)))
}

/// Each checked function's and bridge's name and result, functions first.
pub open spec fn program_calls(p: Program) -> Seq<crate::expressions::Callable> {
    p.funcs@.map_values(|f: TFunc| (f.name@, param_shapes(f.params@), f.result))
        + p.externs@.map_values(|x: TExtern| (x.name@, param_shapes(x.params@), x.result))
}

/// Each checked method's parameters and result, by method position.
pub open spec fn program_method_shapes(p: Program) -> Seq<crate::expressions::MethodShape> {
    p.methods@.map_values(|m: TMethod| (param_shapes(m.params@), m.result))
}

/// Every body of a checked program is typed against the program's own
/// declarations.
pub open spec fn program_typed(p: Program) -> bool {
    let calls = program_calls(p);
    let methods = program_method_shapes(p);
    let defs = crate::expressions::def_shapes(p.types@);
    &&& forall|i: int| 0 <= i < p.funcs@.len() ==> body_typed((#[trigger] p.funcs@[i]).body, p.funcs@[i].result, calls, methods, defs)
    &&& forall|i: int| 0 <= i < p.methods@.len() ==> body_typed((#[trigger] p.methods@[i]).body, p.methods@[i].result, calls, methods, defs)
    &&& block_well_typed(p.body, calls, methods, defs)
}

struct MethodParts {
    receiver: TypeId,
    name: String,
    params: Vec<TParam>,
    result: Option<Ty>,
    body: TBlock,
}

/// Checks every body of a parsed program against its collected
/// declarations: a checked program, or every diagnostic that rejects it.
#[verifier::loop_isolation(false)]
pub fn check(program: &SyntaxProgram) -> (r: Result<Program, Failure>)
    ensures
        r matches Err(Failure::Source(es)) ==> es@.len() > 0,
        r matches Ok(p) ==> p.funcs@.len() == program.funcs@.len()
            && forall|i: int| 0 <= i < program.funcs@.len() ==> (#[trigger] p.funcs@[i]).name@ == program.funcs@[i].name@,
        r matches Ok(p) ==> p.externs@.len() == program.externs@.len()
            && forall|i: int| 0 <= i < program.externs@.len() ==> (#[trigger] p.externs@[i]).name@ == program.externs@[i].name@
                && p.externs@[i].symbol@ == program.externs@[i].symbol@ && p.externs@[i].span == program.externs@[i].span,
        r is Ok ==> forall|i: int| 0 <= i < program.externs@.len() ==> bridge_symbol_ok((#[trigger] program.externs@[i]).symbol@),
        crate::parser::callable_names_distinct(program.funcs@, program.externs@) ==> (r matches Ok(p) ==> program_typed(p)),
        crate::collect::no_declarations(program) && crate::statements::fresh_literal_lets(program.body.elements@, Seq::empty())
            ==> r is Ok,
        crate::collect::records_only(program) && crate::statements::fresh_literal_lets(program.body.elements@, Seq::empty())
            ==> r is Ok,
        (exists|u: int| 0 <= u < program.types@.len() && crate::collect::callable_named(program, (#[trigger] program.types@[u]).name@))
            ==> r is Err,
        (exists|j: int| 0 <= j < program.externs@.len() && repeated_params((#[trigger] program.externs@[j]).args@).len() > 0)
            ==> r is Err,
        body_breaks(program.body.elements@) ==> r is Err
            && (r matches Err(Failure::Source(es)) ==> crate::statements::reported(es@, 0, BREAK_OUTSIDE_LOOP@)),
        forall|k: int| 0 <= k < program.body.elements@.len() && crate::statements::mismatched_literal_let(#[trigger] program.body.elements@[k])
            ==> r is Err && (r matches Err(Failure::Source(es))
                ==> crate::statements::reported(es@, 0, crate::statements::mismatch_message(program.body.elements@[k]))),
        forall|i: int, j: int| 0 <= i < j < program.body.elements@.len() && (#[trigger] program.body.elements@[i]).kind is Let
            && (#[trigger] program.body.elements@[j]).kind is Let
            && crate::statements::let_name(program.body.elements@[i]) == crate::statements::let_name(program.body.elements@[j])
            ==> r is Err && (r matches Err(Failure::Source(es))
                ==> crate::statements::reported(es@, 0, crate::statements::redeclared_message(crate::statements::let_name(program.body.elements@[j])))),
        crate::parser::callable_names_distinct(program.funcs@, program.externs@) ==> (r matches Ok(p) ==> forall|x: int|
            0 <= x < p.externs@.len() ==> crate::collect::bridge_shapes_scalar(param_shapes((#[trigger] p.externs@[x]).params@), p.externs@[x].result)),
        crate::parser::callable_names_distinct(program.funcs@, program.externs@) && crate::collect::bridge_types_written(program)
            ==> (r matches Ok(p) ==> forall|x: int| 0 <= x < p.externs@.len() ==> (#[trigger] p.externs@[x]).result != Some(Ty::Nil)
                && forall|k: int| 0 <= k < p.externs@[x].params@.len() ==> #[trigger] p.externs@[x].params@[k].ty != Ty::Nil),
{
    let mut errors: Vec<Error> = Vec::new();
    let collected = collect(program, &mut errors);
    let Collected { types, methods, method_index, sigs } = collected;
    let method_count = methods.len();
    let d = Decls { sigs, methods, method_index, defs: Ghost(types.defs_view()) };
    let mut direct_writes: Vec<bool> = Vec::new();
    let mut k: usize = 0;
    while k < method_count
        invariant
            k <= method_count,
            direct_writes@.len() == k,
        decreases method_count - k,
    {
        direct_writes.push(false);
        k = k + 1;
    }
    let mut ctx = Ctx {
        types,
        declared: Vec::new(),
        loops: Vec::new(),
        self_ty: None,
        current_method: None,
        direct_writes,
        effect_edges: Vec::new(),
        receiver_calls: Vec::new(),
        move_state: Vec::new(),
        errors,
        unknown: None,
    };
    let ghost c_init = ctx;
    let ghost nonscalar = !crate::collect::bridges_scalar(d.sigs@, program);
    let ghost nilbridge = crate::collect::bridge_types_written(program) && !crate::collect::bridges_not_nil(d.sigs@, program);
    let ghost clash = exists|u: int| 0 <= u < program.types@.len()
        && crate::collect::callable_named(program, (#[trigger] program.types@[u]).name@);
    proof {
        if clash {
            let u = choose|u: int| 0 <= u < program.types@.len()
                && crate::collect::callable_named(program, (#[trigger] program.types@[u]).name@);
            assert(crate::collect::head_clash_reported(0, ctx.errors@, program.types@[u]));
        }
    }
    let mut e: usize = 0;
    while e < program.externs.len()
        invariant
            e == 0 ==> ctx == c_init,
            clash ==> ctx.errors@.len() > 0,
            nonscalar ==> ctx.errors@.len() > 0,
            nilbridge ==> ctx.errors@.len() > 0,
            ctx.wf(&d),
            ctx.self_ty is None,
            ctx.current_method is None,
            e <= program.externs@.len(),
            (exists|j: int| 0 <= j < e && !bridge_symbol_ok((#[trigger] program.externs@[j]).symbol@)) ==> ctx.errors@.len() > 0,
            (exists|j: int| 0 <= j < e && repeated_params((#[trigger] program.externs@[j]).args@).len() > 0) ==> ctx.errors@.len() > 0,
        decreases program.externs@.len() - e,
    {
        let f = &program.externs[e];
        check_duplicate_params(&mut ctx, &f.args);
        if !starts_with(&f.symbol, "snacc_user_") {
            ctx.error(f.span, owned("Rust bridge symbols must start with 'snacc_user_'"));
        } else if !is_rust_identifier(&f.symbol) {
            ctx.error(f.span, owned("Rust bridge symbols must be valid Rust identifiers"));
        }
        e = e + 1;
    }
    let ghost bad = exists|j: int| 0 <= j < program.externs@.len() && !bridge_symbol_ok((#[trigger] program.externs@[j]).symbol@);
    let ghost dup = exists|j: int| 0 <= j < program.externs@.len() && repeated_params((#[trigger] program.externs@[j]).args@).len() > 0;

    let mut funcs: Vec<TFunc> = Vec::new();
    let ghost c_f = ctx;
    let mut i: usize = 0;
    while i < program.funcs.len()
        invariant
            i == 0 ==> ctx == c_f,
            ctx.wf(&d),
            ctx.self_ty is None,
            ctx.current_method is None,
            i <= program.funcs@.len(),
            funcs@.len() == i,
            forall|j: int| 0 <= j < i ==> (#[trigger] funcs@[j]).name@ == program.funcs@[j].name@,
            crate::collect::sigs_named(d.sigs@, program),
            bad ==> ctx.errors@.len() > 0,
            clash ==> ctx.errors@.len() > 0,
            nonscalar ==> ctx.errors@.len() > 0,
            nilbridge ==> ctx.errors@.len() > 0,
            dup ==> ctx.errors@.len() > 0,
            forall|j: int| 0 <= j < i ==> (first_named(calls_of(&d), (#[trigger] funcs@[j]).name@) matches Some(s)
                && funcs@[j].result == calls_of(&d)[s].2 && param_shapes(funcs@[j].params@) == calls_of(&d)[s].1),
            ctx.errors@.len() == 0 ==> forall|j: int| 0 <= j < i
                ==> body_typed((#[trigger] funcs@[j]).body, funcs@[j].result, calls_of(&d), method_shapes(&d), def_shapes(d.defs@)),
        decreases program.funcs@.len() - i,
    {
        let f = &program.funcs[i];
        if let Some(s) = find_sig(&d, &f.name) {
            let mut env: Vec<Binding> = Vec::new();
            let params = begin_region(&mut ctx, &d, &mut env, &f.args, &d.sigs[s].1.params, None);
            let result = d.sigs[s].1.result;
            let body = match result {
                Some(t) => check_value_block(&mut ctx, &d, &mut env, &f.body, t),
                None => check_statement_block(&mut ctx, &d, &mut env, &f.body),
            };
            funcs.push(TFunc { name: f.name.clone(), params, result, body });
        } else {
            proof { assert(d.sigs@[i as int].0@ == f.name@); }
        }
        i = i + 1;
    }

    let ghost e_funcs = ctx.errors@.len();
    let mut parts: Vec<MethodParts> = Vec::new();
    let ghost c_m = ctx;
    let mut m: usize = 0;
    while m < method_count
        invariant
            m == 0 ==> ctx == c_m,
            ctx.wf(&d),
            ctx.self_ty is None,
            ctx.current_method is None,
            method_count == d.methods@.len(),
            forall|j: int| 0 <= j < d.methods@.len() ==> (#[trigger] d.methods@[j]).decl < program.methods@.len(),
            parts@.len() == m,
            m <= method_count,
            bad ==> ctx.errors@.len() > 0,
            clash ==> ctx.errors@.len() > 0,
            nonscalar ==> ctx.errors@.len() > 0,
            nilbridge ==> ctx.errors@.len() > 0,
            dup ==> ctx.errors@.len() > 0,
            ctx.errors@.len() >= e_funcs,
            forall|j: int| 0 <= j < m ==> ((param_shapes((#[trigger] parts@[j]).params@), parts@[j].result) == method_shapes(&d)[j]),
            ctx.errors@.len() == 0 ==> forall|j: int| 0 <= j < m
                ==> body_typed((#[trigger] parts@[j]).body, parts@[j].result, calls_of(&d), method_shapes(&d), def_shapes(d.defs@)),
        decreases method_count - m,
    {
        let sig = &d.methods[m];
        let declaration = &program.methods[sig.decl];
        let mut env: Vec<Binding> = Vec::new();
        let self_ty = Ty::User(sig.receiver);
        let params = begin_region(&mut ctx, &d, &mut env, &declaration.args, &sig.params, Some(self_ty));
        ctx.current_method = Some(MethodId(m as u32));
        let body = match sig.result {
            Some(t) => check_value_block(&mut ctx, &d, &mut env, &declaration.body, t),
            None => check_statement_block(&mut ctx, &d, &mut env, &declaration.body),
        };
        ctx.current_method = None;
        ctx.self_ty = None;
        let ghost before = parts@;
        parts.push(MethodParts { receiver: sig.receiver, name: sig.name.clone(), params, result: sig.result, body });
        proof {
            assert forall|j: int| 0 <= j < m implies parts@[j] == before[j] by {}
        }
        m = m + 1;
    }

    let mut externs: Vec<TExtern> = Vec::new();
    let mut x: usize = 0;
    while x < program.externs.len()
        invariant
            x <= program.externs@.len(),
            externs@.len() == x,
            forall|j: int| 0 <= j < x ==> (first_named(calls_of(&d), (#[trigger] externs@[j]).name@) matches Some(s)
                && externs@[j].result == calls_of(&d)[s].2 && param_shapes(externs@[j].params@) == calls_of(&d)[s].1),
            forall|j: int| 0 <= j < x ==> (#[trigger] externs@[j]).name@ == program.externs@[j].name@
                && externs@[j].symbol@ == program.externs@[j].symbol@ && externs@[j].span == program.externs@[j].span,
            crate::collect::sigs_named(d.sigs@, program),
        decreases program.externs@.len() - x,
    {
        let f = &program.externs[x];
        if let Some(s) = find_sig(&d, &f.name) {
            externs.push(TExtern {
                name: f.name.clone(),
                symbol: f.symbol.clone(),
                params: clone_params(&d.sigs[s].1.params),
                result: d.sigs[s].1.result,
                span: f.span,
            });
        } else {
            proof { assert(d.sigs@[program.funcs@.len() + x].0@ == f.name@); }
        }
        x = x + 1;
    }

    ctx.declared = Vec::new();
    ctx.loops = Vec::new();
    ctx.move_state = Vec::new();
    let mut env: Vec<Binding> = Vec::new();
    let ghost e_methods = ctx.errors@.len();
    let body = check_statement_block(&mut ctx, &d, &mut env, &program.body);
    let ghost e_body = ctx.errors@.len();
    let ghost errs_body = ctx.errors@;
    proof {
        if body_breaks(program.body.elements@) {
            assert(crate::statements::reported(ctx.errors@, 0, BREAK_OUTSIDE_LOOP@));
        }
    }

    let writes = solve_receiver_writes(&ctx.direct_writes, &ctx.effect_edges);
    let mut typed_methods: Vec<TMethod> = Vec::new();
    let ghost parts0 = parts@;
    while parts.len() > 0
        invariant
            writes@.len() == method_count,
            typed_methods@.len() + parts@.len() == method_count,
            parts0.len() == method_count,
            parts@ =~= parts0.subrange(typed_methods@.len() as int, method_count as int),
            forall|k: int| 0 <= k < typed_methods@.len() ==> (#[trigger] typed_methods@[k]).result == parts0[k].result
                && typed_methods@[k].body == parts0[k].body && typed_methods@[k].params == parts0[k].params,
        decreases parts@.len(),
    {
        let ghost done = typed_methods@;
        let p = parts.remove(0);
        let w = writes[typed_methods.len()];
        typed_methods.push(TMethod { receiver: p.receiver, name: p.name, params: p.params, result: p.result, writes_receiver: w, body: p.body });
        proof {
            assert forall|k: int| 0 <= k < done.len() implies typed_methods@[k] == done[k] by {}
        }
    }
    let ghost c_r = ctx;
    let mut c: usize = 0;
    while c < ctx.receiver_calls.len()
        invariant
            c == 0 ==> ctx == c_r,
            c <= ctx.receiver_calls@.len(),
            ctx.receiver_calls == c_r.receiver_calls,
            ctx.unknown == c_r.unknown,
            ctx.errors@.len() >= c_r.errors@.len(),
            forall|i: int| 0 <= i < c_r.errors@.len() ==> #[trigger] ctx.errors@[i] == c_r.errors@[i],
            ctx.wf(&d),
            writes@.len() == d.methods@.len(),
            bad ==> ctx.errors@.len() > 0,
            clash ==> ctx.errors@.len() > 0,
            nonscalar ==> ctx.errors@.len() > 0,
            nilbridge ==> ctx.errors@.len() > 0,
            dup ==> ctx.errors@.len() > 0,
            ctx.errors@.len() >= e_body,
        decreases ctx.receiver_calls@.len() - c,
    {
        let method = ctx.receiver_calls[c].method;
        if writes[method.index()] && !ctx.receiver_calls[c].mutable_root {
            let name = method_name(&ctx, &d, method);
            let mut msg = owned("'");
            push_string(&mut msg, &name);
            push_str(&mut msg, "' may assign through 'self', so its receiver requires a mutable root, but '");
            push_string(&mut msg, &ctx.receiver_calls[c].receiver);
            push_str(&mut msg, "' is not mutable");
            let span = ctx.receiver_calls[c].span;
            ctx.error(span, msg);
        }
        c = c + 1;
    }

    proof {
        assert forall|m: Seq<char>| crate::statements::reported(errs_body, e_methods as int, m)
            implies crate::statements::reported(ctx.errors@, 0, m) by {
            let k = choose|k: int| e_methods <= k < errs_body.len() && (#[trigger] errs_body[k]).msg@ == m;
            assert(ctx.errors@[k] == c_r.errors@[k]);
            assert(ctx.errors@[k].msg@ == m);
        }
        assert forall|m: Seq<char>| crate::statements::reported(errs_body, 0, m)
            implies crate::statements::reported(ctx.errors@, 0, m) by {
            let k = choose|k: int| 0 <= k < errs_body.len() && (#[trigger] errs_body[k]).msg@ == m;
            assert(ctx.errors@[k] == c_r.errors@[k]);
            assert(ctx.errors@[k].msg@ == m);
        }
    }
    if let Some(detail) = ctx.unknown {
        return Err(Failure::Unknown(detail));
    }
    if ctx.errors.len() > 0 {
        return Err(Failure::Source(ctx.errors));
    }
    let all_defs = ctx.types.all_defs();
    let mut defs: Vec<TypeDef> = Vec::new();
    let mut t: usize = 0;
    while t < all_defs.len()
        invariant
            t <= all_defs@.len(),
            defs@.len() == t,
            forall|k: int| 0 <= k < t ==> crate::collect::same_def(#[trigger] defs@[k], all_defs@[k]),
        decreases all_defs@.len() - t,
    {
        defs.push(clone_def(&all_defs[t]));
        t = t + 1;
    }
    let all_sums = ctx.types.all_sums();
    let mut sums: Vec<Vec<Ty>> = Vec::new();
    let mut s: usize = 0;
    while s < all_sums.len()
        decreases all_sums@.len() - s,
    {
        sums.push(all_sums[s].clone());
        s = s + 1;
    }
    let boxes = ctx.types.all_boxes().clone();
    let checked = Program { funcs, externs, types: defs, methods: typed_methods, sums, boxes, body };
    proof {
        if crate::parser::callable_names_distinct(program.funcs@, program.externs@) {
            let calls = calls_of(&d);
            let nf = program.funcs@.len();
            let fs = checked.funcs@.map_values(|f: TFunc| (f.name@, param_shapes(f.params@), f.result));
            let xs = checked.externs@.map_values(|x: TExtern| (x.name@, param_shapes(x.params@), x.result));
            assert forall|i: int| 0 <= i < calls.len() implies (#[trigger] calls[i]).0 == (if i < nf {
                program.funcs@[i].name@
            } else {
                program.externs@[i - nf].name@
            }) by {
                assert(calls[i].0 == d.sigs@[i].0@);
                if i >= nf {
                    assert(d.sigs@[nf + (i - nf)].0@ == program.externs@[i - nf].name@);
                }
            }
            assert forall|k: int| 0 <= k < calls.len() implies #[trigger] program_calls(checked)[k] == calls[k] by {
                assert forall|i: int| 0 <= i < k implies (#[trigger] calls[i]).0 != calls[k].0 by {
                    assert(calls[i].0 == (if i < nf { program.funcs@[i].name@ } else { program.externs@[i - nf].name@ }));
                    assert(calls[k].0 == (if k < nf { program.funcs@[k].name@ } else { program.externs@[k - nf].name@ }));
                    if k < nf {
                        assert(program.funcs@[i].name@ != program.funcs@[k].name@);
                    } else if i < nf {
                        assert(program.funcs@[i].name@ != program.externs@[k - nf].name@);
                    } else {
                        assert(program.externs@[i - nf].name@ != program.externs@[k - nf].name@);
                    }
                }
                crate::expressions::lemma_first_named(calls, calls[k].0, k);
                assert(program_calls(checked) == fs + xs);
                if k < nf {
                    assert(program_calls(checked)[k] == fs[k]);
                    assert(checked.funcs@[k].name@ == program.funcs@[k].name@);
                } else {
                    assert(program_calls(checked)[k] == xs[k - nf]);
                    assert(checked.externs@[k - nf].name@ == program.externs@[k - nf].name@);
                }
            }
            assert(program_calls(checked) =~= calls);
            if crate::collect::bridge_types_written(program) {
                assert forall|x: int| 0 <= x < checked.externs@.len() implies (#[trigger] checked.externs@[x]).result != Some(Ty::Nil)
                    && forall|k: int| 0 <= k < checked.externs@[x].params@.len() ==> #[trigger] checked.externs@[x].params@[k].ty != Ty::Nil by {
                    assert(program_calls(checked)[nf + x] == calls[nf + x]);
                    assert(xs[x] == program_calls(checked)[nf + x]);
                    assert forall|k: int| 0 <= k < checked.externs@[x].params@.len() implies #[trigger] checked.externs@[x].params@[k].ty != Ty::Nil by {
                        assert(param_shapes(checked.externs@[x].params@)[k] == param_shapes(d.sigs@[nf + x].1.params@)[k]);
                    }
                }
            }
            assert forall|x: int| 0 <= x < checked.externs@.len() implies crate::collect::bridge_shapes_scalar(
                param_shapes((#[trigger] checked.externs@[x]).params@), checked.externs@[x].result) by {
                assert(program_calls(checked)[nf + x] == calls[nf + x]);
                assert(xs[x] == program_calls(checked)[nf + x]);
            }
            assert(program_method_shapes(checked) =~= method_shapes(&d));
            assert forall|k: int| 0 <= k < checked.types@.len() implies
                #[trigger] def_shapes(checked.types@)[k] == def_shapes(d.defs@)[k] by {
                assert(crate::collect::same_def(checked.types@[k], d.defs@[k]));
            }
            assert(def_shapes(checked.types@) =~= def_shapes(d.defs@));
        }
    }
    Ok(checked)
}

} // verus!

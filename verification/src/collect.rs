//! Declaration collection: every type, signature and method is resolved
//! before any body is checked.

use vstd::prelude::*;
use crate::ast::{FieldDecl, MethodDecl, Param, ParamMode, Program, Span, TypeBody, TypeDecl, TypeName, TypeRef};
use crate::checker::{Error, TParam};
use crate::text::{concat3, owned, push_char, push_str, push_string, same};
use crate::types::{
    atom_eq, atom_move_only, eq_support, move_support, boxes_below, decls_ok, opt_ok, params_ok,
    Collected, FuncSig, MethodId, MethodSig, Types, SUM_AS_REPRESENTED_TARGET, def_ok, display_in, normalized, ty_key, ty_key_exec, ty_ok, BoxId, BoxTable, SumId,
    SumTable, Ty, TypeDef, TypeId, NIL_NEEDS_A_SUM_SIBLING, STANDALONE_NIL, SUM_TOO_FEW_MEMBERS,
};

verus! {

/// The distinct resolved members of a raw member list, in first-occurrence
/// order.
pub open spec fn distinct_of(raw: Seq<(Option<Ty>, Span)>) -> Seq<Ty>
    decreases raw.len(),
{
    if raw.len() == 0 {
        Seq::empty()
    } else {
        let before = distinct_of(raw.drop_last());
        match raw.last().0 {
            Some(t) => if before.contains(t) { before } else { before.push(t) },
            None => before,
        }
    }
}

/// Every repeated occurrence beyond a member's first, with its span.
pub open spec fn duplicates_of(raw: Seq<(Option<Ty>, Span)>) -> Seq<(Ty, Span)>
    decreases raw.len(),
{
    if raw.len() == 0 {
        Seq::empty()
    } else {
        let before = duplicates_of(raw.drop_last());
        match raw.last().0 {
            Some(t) => if distinct_of(raw.drop_last()).contains(t) { before.push((t, raw.last().1)) } else { before },
            None => before,
        }
    }
}

pub open spec fn any_unresolved_in(raw: Seq<(Option<Ty>, Span)>) -> bool {
    exists|i: int| 0 <= i < raw.len() && (#[trigger] raw[i]).0 is None
}

/// Whether no type occurs twice.
pub open spec fn no_repeats(s: Seq<Ty>) -> bool {
    forall|i: int, j: int| 0 <= i < j < s.len() ==> s[i] != s[j]
}

/// The outcome of comparing an inline sum's raw members.
pub struct SumOutcome {
    /// A member failed to resolve on its own, and reported that already.
    pub any_unresolved: bool,
    /// Each repeated occurrence beyond a member's first, with its span.
    pub duplicates: Vec<(Ty, Span)>,
    /// The distinct members, in first-occurrence order.
    pub distinct: Vec<Ty>,
}

/// The distinct members of an already flattened member list: none of them
/// repeats, and every one of them was written.
pub proof fn lemma_distinct_of(raw: Seq<(Option<Ty>, Span)>)
    ensures
        no_repeats(distinct_of(raw)),
        forall|k: int| 0 <= k < distinct_of(raw).len() ==> exists|j: int| 0 <= j < raw.len()
            && raw[j].0 == Some(#[trigger] distinct_of(raw)[k]),
        forall|j: int| 0 <= j < raw.len() && (#[trigger] raw[j]).0 is Some ==> distinct_of(raw).contains(raw[j].0->0),
    decreases raw.len(),
{
    if raw.len() > 0 {
        let p = raw.drop_last();
        lemma_distinct_of(p);
        let d = distinct_of(raw);
        assert forall|k: int| 0 <= k < d.len() implies exists|j: int| 0 <= j < raw.len()
            && raw[j].0 == Some(#[trigger] d[k]) by {
            if k < distinct_of(p).len() {
                let j = choose|j: int| 0 <= j < p.len() && p[j].0 == Some(distinct_of(p)[k]);
                assert(raw[j] == p[j]);
            } else {
                assert(raw[raw.len() - 1].0 == Some(d[k]));
            }
        }
        assert forall|j: int| 0 <= j < raw.len() && (#[trigger] raw[j]).0 is Some implies d.contains(raw[j].0->0) by {
            if j < p.len() {
                assert(p[j] == raw[j]);
                assert(distinct_of(p).contains(p[j].0->0));
                let k = choose|k: int| 0 <= k < distinct_of(p).len() && distinct_of(p)[k] == p[j].0->0;
                assert(d[k] == distinct_of(p)[k]);
            } else {
                assert(raw.last() == raw[j]);
                if !distinct_of(p).contains(raw[j].0->0) {
                    assert(d[d.len() - 1] == raw[j].0->0);
                }
            }
        }
    }
}

/// Splits an already flattened member list into its distinct members and
/// the repeats; `None` marks a member that failed to resolve.
pub fn dedupe_sum(raw: &Vec<(Option<Ty>, Span)>) -> (r: SumOutcome)
    ensures
        r.any_unresolved == any_unresolved_in(raw@),
        r.distinct@ == distinct_of(raw@),
        r.duplicates@ == duplicates_of(raw@),
{
    let mut distinct: Vec<Ty> = Vec::new();
    let mut duplicates: Vec<(Ty, Span)> = Vec::new();
    let mut any_unresolved = false;
    let mut i: usize = 0;
    while i < raw.len()
        invariant
            i <= raw@.len(),
            distinct@ == distinct_of(raw@.subrange(0, i as int)),
            duplicates@ == duplicates_of(raw@.subrange(0, i as int)),
            any_unresolved == any_unresolved_in(raw@.subrange(0, i as int)),
        decreases raw@.len() - i,
    {
        let ghost sub = raw@.subrange(0, (i + 1) as int);
        proof {
            assert(sub.drop_last() =~= raw@.subrange(0, i as int));
            assert(sub.last() == raw@[i as int]);
        }
        match raw[i].0 {
            None => {
                any_unresolved = true;
                proof { assert(sub[i as int].0 is None); }
            }
            Some(t) => {
                let mut k: usize = 0;
                let mut found = false;
                while k < distinct.len()
                    invariant
                        k <= distinct@.len(),
                        found == exists|m: int| 0 <= m < k && distinct@[m] == t,
                    decreases distinct@.len() - k,
                {
                    if distinct[k] == t {
                        found = true;
                    }
                    k = k + 1;
                }
                if found {
                    duplicates.push((t, raw[i].1));
                } else {
                    distinct.push(t);
                }
                proof {
                    assert(found == distinct_of(raw@.subrange(0, i as int)).contains(t));
                }
            }
        }
        proof {
            assert(any_unresolved == any_unresolved_in(sub)) by {
                if any_unresolved_in(sub) && !any_unresolved_in(raw@.subrange(0, i as int)) {
                    let j = choose|j: int| 0 <= j < sub.len() && (#[trigger] sub[j]).0 is None;
                    if j < i {
                        assert(raw@.subrange(0, i as int)[j] == sub[j]);
                    }
                }
                if any_unresolved_in(raw@.subrange(0, i as int)) {
                    let j = choose|j: int| 0 <= j < i && (#[trigger] raw@.subrange(0, i as int)[j]).0 is None;
                    assert(sub[j] == raw@.subrange(0, i as int)[j]);
                }
            }
        }
        i = i + 1;
    }
    proof { assert(raw@.subrange(0, raw@.len() as int) =~= raw@); }
    SumOutcome { any_unresolved, duplicates, distinct }
}

/// Whether keys strictly increase along the sequence.
pub open spec fn key_sorted(s: Seq<Ty>) -> bool {
    forall|i: int, j: int| 0 <= i < j < s.len() ==> ty_key(#[trigger] s[i]) < ty_key(#[trigger] s[j])
}

/// A sum's canonical order is determined by its members alone: two
/// key-sorted sequences holding the same types are the same sequence, so the
/// order in which members were written never changes a sum's identity.
pub proof fn law_canonical_order_is_unique(a: Seq<Ty>, b: Seq<Ty>)
    requires
        key_sorted(a),
        key_sorted(b),
        forall|t: Ty| a.contains(t) <==> b.contains(t),
    ensures
        a == b,
    decreases a.len(),
{
    if a.len() == 0 {
        if b.len() > 0 {
            assert(b.contains(b[0]));
        }
        assert(a =~= b);
    } else {
        assert(a.contains(a[0]));
        assert(b.len() > 0);
        assert(b.contains(b[0]));
        let k = choose|k: int| 0 <= k < b.len() && b[k] == a[0];
        let l = choose|l: int| 0 <= l < a.len() && a[l] == b[0];
        assert(ty_key(b[0]) <= ty_key(b[k]));
        assert(ty_key(a[0]) <= ty_key(a[l]));
        crate::types::lemma_ty_key_injective(a[0], b[0]);
        assert(a[0] == b[0]);
        let a1 = a.drop_first();
        let b1 = b.drop_first();
        assert forall|t: Ty| a1.contains(t) <==> b1.contains(t) by {
            if a1.contains(t) {
                let i = choose|i: int| 0 <= i < a1.len() && a1[i] == t;
                assert(a[i + 1] == t);
                assert(ty_key(a[0]) < ty_key(a[i + 1]));
                assert(b.contains(t));
                let j = choose|j: int| 0 <= j < b.len() && b[j] == t;
                if j == 0 {
                    assert(false);
                }
                assert(b1[j - 1] == t);
            }
            if b1.contains(t) {
                let i = choose|i: int| 0 <= i < b1.len() && b1[i] == t;
                assert(b[i + 1] == t);
                assert(ty_key(b[0]) < ty_key(b[i + 1]));
                assert(a.contains(t));
                let j = choose|j: int| 0 <= j < a.len() && a[j] == t;
                if j == 0 {
                    assert(false);
                }
                assert(a1[j - 1] == t);
            }
        }
        law_canonical_order_is_unique(a1, b1);
        assert(a =~= seq![a[0]] + a1);
        assert(b =~= seq![b[0]] + b1);
    }
}

/// Puts distinct types into the canonical key order.
pub fn sort_tys(v: Vec<Ty>) -> (r: Vec<Ty>)
    requires
        no_repeats(v@),
    ensures
        key_sorted(r@),
        r@.len() == v@.len(),
        forall|t: Ty| r@.contains(t) <==> v@.contains(t),
{
    let mut out: Vec<Ty> = Vec::new();
    let mut i: usize = 0;
    while i < v.len()
        invariant
            i <= v@.len(),
            no_repeats(v@),
            key_sorted(out@),
            out@.len() == i,
            forall|t: Ty| out@.contains(t) <==> v@.subrange(0, i as int).contains(t),
        decreases v@.len() - i,
    {
        let t = v[i];
        let key = ty_key_exec(t);
        let mut pos: usize = 0;
        while pos < out.len() && ty_key_exec(out[pos]) < key
            invariant
                pos <= out@.len(),
                key == ty_key(t),
                key_sorted(out@),
                forall|m: int| 0 <= m < pos ==> ty_key(#[trigger] out@[m]) < ty_key(t),
            decreases out@.len() - pos,
        {
            pos = pos + 1;
        }
        proof {
            assert(!v@.subrange(0, i as int).contains(t)) by {
                if v@.subrange(0, i as int).contains(t) {
                    let m = choose|m: int| 0 <= m < i && v@.subrange(0, i as int)[m] == t;
                    assert(v@[m] == v@[i as int]);
                }
            }
            assert(!out@.contains(t));
            assert forall|m: int| pos <= m < out@.len() implies ty_key(t) < ty_key(#[trigger] out@[m]) by {
                assert(ty_key(out@[pos as int]) >= ty_key(t));
                if m > pos {
                    assert(ty_key(out@[pos as int]) < ty_key(out@[m]));
                }
                if ty_key(t) == ty_key(out@[m]) {
                    crate::types::lemma_ty_key_injective(t, out@[m]);
                    assert(out@.contains(t));
                }
            }
        }
        let ghost before = out@;
        out.insert(pos, t);
        proof {
            assert(out@ =~= before.subrange(0, pos as int).push(t) + before.subrange(pos as int, before.len() as int));
            assert forall|a: int, b: int| 0 <= a < b < out@.len() implies ty_key(#[trigger] out@[a]) < ty_key(#[trigger] out@[b]) by {
                if b < pos {
                } else if b == pos {
                    assert(out@[a] == before[a]);
                } else if a < pos {
                    assert(out@[b] == before[b - 1]);
                    assert(ty_key(before[a]) < ty_key(t));
                } else if a == pos {
                    assert(out@[b] == before[b - 1]);
                } else {
                    assert(out@[a] == before[a - 1]);
                    assert(out@[b] == before[b - 1]);
                }
            }
            assert forall|u: Ty| out@.contains(u) <==> v@.subrange(0, (i + 1) as int).contains(u) by {
                let sub = v@.subrange(0, (i + 1) as int);
                assert(sub =~= v@.subrange(0, i as int).push(t));
                if out@.contains(u) {
                    let m = choose|m: int| 0 <= m < out@.len() && out@[m] == u;
                    if m < pos {
                        assert(before[m] == u);
                        assert(before.contains(u));
                    } else if m > pos {
                        assert(before[m - 1] == u);
                        assert(before.contains(u));
                    }
                    if m == pos {
                        assert(sub[i as int] == u);
                    } else {
                        assert(v@.subrange(0, i as int).contains(u));
                        let k = choose|k: int| 0 <= k < i && v@.subrange(0, i as int)[k] == u;
                        assert(sub[k] == u);
                    }
                    assert(sub.contains(u));
                }
                if sub.contains(u) {
                    if u == t {
                        assert(out@[pos as int] == t);
                    } else {
                        assert(v@.subrange(0, i as int).contains(u));
                        assert(before.contains(u));
                        let m = choose|m: int| 0 <= m < before.len() && before[m] == u;
                        if m < pos {
                            assert(out@[m] == u);
                        } else {
                            assert(out@[m + 1] == u);
                        }
                    }
                }
            }
        }
        i = i + 1;
    }
    proof { assert(v@.subrange(0, v@.len() as int) =~= v@); }
    out
}

/// A partly built type table: the name maps exist before any body is
/// resolved, so a field may name a type declared later.
pub(crate) struct Builder {
    pub(crate) defs: Vec<Option<TypeDef>>,
    pub(crate) spans: Vec<Span>,
    pub(crate) top_level: Vec<(String, TypeId)>,
    pub(crate) members: Vec<(TypeId, String, TypeId)>,
    pub(crate) sums: SumTable,
    pub(crate) boxes: BoxTable,
}

impl Builder {
    pub(crate) open spec fn nd(&self) -> nat {
        self.defs@.len()
    }

    pub(crate) open spec fn ns(&self) -> nat {
        self.sums.view().len()
    }

    pub(crate) open spec fn nb(&self) -> nat {
        self.boxes.view().len()
    }

    pub(crate) open spec fn ok(&self, t: Ty) -> bool {
        ty_ok(t, self.nd(), self.ns(), self.nb())
    }

    /// Every identity the builder holds points into it, and every box names
    /// only earlier boxes.
    pub(crate) open spec fn wf(&self) -> bool {
        &&& self.defs@.len() == self.spans@.len()
        &&& self.defs@.len() <= u32::MAX
        &&& self.sums.wf()
        &&& self.boxes.wf()
        &&& forall|i: int| 0 <= i < self.nd() ==> (#[trigger] self.defs@[i] matches Some(d) ==> def_ok(d, self.nd(), self.ns(), self.nb()))
        &&& forall|i: int, j: int| 0 <= i < self.ns() && 0 <= j < self.sums.view()[i].len()
            ==> self.ok(#[trigger] self.sums.view()[i][j])
        &&& forall|i: int| 0 <= i < self.nb() ==> self.ok(#[trigger] self.boxes.view()[i])
            && boxes_below(self.boxes.view()[i], self.sums.view(), i as nat)
        &&& forall|i: int| 0 <= i < self.top_level@.len() ==> (#[trigger] self.top_level@[i]).1.0 < self.nd()
        &&& forall|i: int| 0 <= i < self.members@.len() ==> (#[trigger] self.members@[i]).0.0 < self.nd()
            && self.members@[i].2.0 < self.nd()
    }

    /// Only the sum and box tables changed, and only by growing.
    pub(crate) open spec fn grows_from(&self, old: &Builder) -> bool {
        &&& self.defs@ == old.defs@
        &&& self.spans@ == old.spans@
        &&& self.top_level@ == old.top_level@
        &&& self.members@ == old.members@
        &&& self.ns() >= old.ns()
        &&& self.nb() >= old.nb()
        &&& forall|i: int| 0 <= i < old.ns() ==> #[trigger] self.sums.view()[i] == old.sums.view()[i]
        &&& forall|i: int| 0 <= i < old.nb() ==> #[trigger] self.boxes.view()[i] == old.boxes.view()[i]
    }
}

/// A grown builder keeps everything valid that was valid before.
proof fn lemma_grown_wf(b: &Builder, before: &Builder)
    requires
        before.wf(),
        b.grows_from(before),
        b.sums.wf(),
        b.boxes.wf(),
        forall|i: int, j: int| before.ns() <= i < b.ns() && 0 <= j < b.sums.view()[i].len()
            ==> b.ok(#[trigger] b.sums.view()[i][j]),
        forall|i: int| before.nb() <= i < b.nb() ==> b.ok(#[trigger] b.boxes.view()[i])
            && boxes_below(b.boxes.view()[i], b.sums.view(), i as nat),
    ensures
        b.wf(),
{
    assert forall|i: int| 0 <= i < b.nd() implies (#[trigger] b.defs@[i] matches Some(d) ==> def_ok(d, b.nd(), b.ns(), b.nb())) by {
        if let Some(d) = b.defs@[i] {
            crate::types::lemma_def_ok_grow(d, before.nd(), before.ns(), before.nb(), b.ns(), b.nb());
        }
    }
    assert forall|i: int, j: int| 0 <= i < b.ns() && 0 <= j < b.sums.view()[i].len()
        implies b.ok(#[trigger] b.sums.view()[i][j]) by {
        if i < before.ns() {
            assert(before.ok(before.sums.view()[i][j]));
        }
    }
    assert forall|i: int| 0 <= i < b.nb() implies b.ok(#[trigger] b.boxes.view()[i])
        && boxes_below(b.boxes.view()[i], b.sums.view(), i as nat) by {
        if i < before.nb() {
            assert(before.ok(before.boxes.view()[i]));
            assert(boxes_below(before.boxes.view()[i], before.sums.view(), i as nat));
            if let Ty::Sum(sid) = b.boxes.view()[i] {
                assert(b.sums.view()[sid.0 as int] == before.sums.view()[sid.0 as int]);
            }
        }
    }
}

/// Each entry's name so far, `<type #i>` for one still being built.
pub open spec fn builder_names(defs: Seq<Option<TypeDef>>) -> Seq<Seq<char>> {
    Seq::new(defs.len(), |i: int| match defs[i] {
        Some(d) => d.name_of(),
        None => "<type #"@ + crate::text::decimal(i as nat) + ">"@,
    })
}

impl Builder {
    /// Interns a canonical member set; `None` once the table is full.
    fn intern_sum(&mut self, members: Vec<Ty>) -> (r: Option<SumId>)
        requires
            old(self).wf(),
            normalized(members@),
            forall|i: int| 0 <= i < members@.len() ==> old(self).ok(#[trigger] members@[i]),
        ensures
            final(self).wf(),
            final(self).grows_from(old(self)),
            r matches Some(id) ==> id.0 < final(self).ns() && final(self).sums.view()[id.0 as int] == members@,
            r is None <==> old(self).ns() >= u32::MAX,
            r is None ==> *final(self) == *old(self),
    {
        if self.sums.len() >= 0xffff_ffff {
            return None;
        }
        let ghost before = *self;
        let id = self.sums.intern(members);
        proof { lemma_grown_wf(self, &before); }
        Some(id)
    }

    /// Interns a pointee; `None` once the table is full.
    fn intern_box(&mut self, pointee: Ty) -> (r: Option<BoxId>)
        requires
            old(self).wf(),
            old(self).ok(pointee),
        ensures
            final(self).wf(),
            final(self).grows_from(old(self)),
            r matches Some(id) ==> id.0 < final(self).nb() && final(self).boxes.view()[id.0 as int] == pointee,
            r is None <==> old(self).nb() >= u32::MAX,
            r is None ==> *final(self) == *old(self),
            final(self).nb() <= old(self).nb() + 1,
    {
        if self.boxes.len() >= 0xffff_ffff {
            return None;
        }
        let ghost before = *self;
        let id = self.boxes.intern(pointee);
        proof {
            assert forall|i: int| before.nb() <= i < self.nb() implies self.ok(#[trigger] self.boxes.view()[i])
                && boxes_below(self.boxes.view()[i], self.sums.view(), i as nat) by {
                assert(self.boxes.view()[i] == pointee);
                if let Ty::Sum(sid) = pointee {
                    assert forall|k: int| 0 <= k < self.sums.view()[sid.0 as int].len()
                        implies !(#[trigger] self.sums.view()[sid.0 as int][k] matches Ty::Box(b) && b.0 >= i) by {
                        assert(before.ok(before.sums.view()[sid.0 as int][k]));
                    }
                }
            }
            lemma_grown_wf(self, &before);
        }
        Some(id)
    }

    /// The top-level type named `name`.
    fn top(&self, name: &String) -> (r: Option<TypeId>)
        requires
            self.wf(),
        ensures
            r matches Some(id) ==> id.0 < self.nd(),
            r matches Some(id) ==> exists|i: int| 0 <= i < self.top_level@.len() && (#[trigger] self.top_level@[i]).0@ == name@
                && self.top_level@[i].1 == id,
            r is None ==> forall|i: int| 0 <= i < self.top_level@.len() ==> (#[trigger] self.top_level@[i]).0@ != name@,
    {
        let mut i: usize = 0;
        while i < self.top_level.len()
            invariant
                self.wf(),
                i <= self.top_level@.len(),
                forall|j: int| 0 <= j < i ==> (#[trigger] self.top_level@[j]).0@ != name@,
            decreases self.top_level@.len() - i,
        {
            if same(&self.top_level[i].0, name) {
                return Some(self.top_level[i].1);
            }
            i = i + 1;
        }
        None
    }

    /// The member `name` of union `union`.
    fn member(&self, union: TypeId, name: &String) -> (r: Option<TypeId>)
        requires
            self.wf(),
        ensures
            r matches Some(id) ==> id.0 < self.nd(),
            r matches Some(id) ==> exists|i: int| 0 <= i < self.members@.len() && (#[trigger] self.members@[i]).0 == union
                && self.members@[i].1@ == name@ && self.members@[i].2 == id,
            r is None ==> forall|i: int| 0 <= i < self.members@.len() ==> !((#[trigger] self.members@[i]).0 == union && self.members@[i].1@ == name@),
    {
        let mut i: usize = 0;
        while i < self.members.len()
            invariant
                self.wf(),
                i <= self.members@.len(),
                forall|j: int| 0 <= j < i ==> !((#[trigger] self.members@[j]).0 == union && self.members@[j].1@ == name@),
            decreases self.members@.len() - i,
        {
            if self.members[i].0 == union && same(&self.members[i].1, name) {
                return Some(self.members[i].2);
            }
            i = i + 1;
        }
        None
    }

    /// Each entry's name so far; an entry still being built is `<type #i>`.
    fn names(&self) -> (r: Vec<String>)
        ensures
            r@.len() == self.defs@.len(),
            crate::types::names_view(r@) == builder_names(self.defs@),
    {
        let mut names: Vec<String> = Vec::new();
        let mut i: usize = 0;
        while i < self.defs.len()
            invariant
                i <= self.defs@.len(),
                names@.len() == i,
                forall|j: int| 0 <= j < i ==> (#[trigger] names@[j])@ == builder_names(self.defs@)[j],
            decreases self.defs@.len() - i,
        {
            let name = match &self.defs[i] {
                Some(d) => d.name().clone(),
                None => {
                    let mut n = owned("<type #");
                    crate::text::push_count(&mut n, i);
                    push_char(&mut n, '>');
                    proof { reveal_strlit(">"); assert(n@ =~= "<type #"@ + crate::text::decimal(i as nat) + ">"@); }
                    n
                }
            };
            names.push(name);
            i = i + 1;
        }
        proof { assert(crate::types::names_view(names@) =~= builder_names(self.defs@)); }
        names
    }

    /// How `t` is written in a diagnostic.
    fn display(&self, t: Ty) -> (r: String)
        ensures
            r@ == crate::types::disp(builder_names(self.defs@), self.sums.view(), self.boxes.view(), t, self.boxes.view().len()),
    {
        let names = self.names();
        display_in(&names, &self.sums, &self.boxes, t)
    }
}

/// `new` keeps every entry of `old` in place and may add more after them.
pub open spec fn appended(old: Seq<Error>, new: Seq<Error>) -> bool {
    old.len() <= new.len() && forall|i: int| 0 <= i < old.len() ==> #[trigger] new[i] == old[i]
}

fn error(errors: &mut Vec<Error>, span: Span, msg: String)
    ensures
        final(errors)@.len() >= old(errors)@.len(),
        appended(old(errors)@, final(errors)@),
        final(errors)@ == old(errors)@.push(Error { span, msg }),
{
    errors.push(Error { span, msg });
}

/// Texts joined with `.` between them.
pub open spec fn dot_join(parts: Seq<Seq<char>>) -> Seq<char>
    decreases parts.len(),
{
    if parts.len() == 0 {
        Seq::empty()
    } else if parts.len() == 1 {
        parts[0]
    } else {
        dot_join(parts.drop_last()) + seq!['.'] + parts.last()
    }
}

/// A qualified name as written, segments joined by `.`.
pub fn dotted(segments: &Vec<(String, Span)>) -> (s: String)
    ensures
        s@ == dot_join(segments@.map_values(|p: (String, Span)| p.0@)),
{
    let ghost names = segments@.map_values(|p: (String, Span)| p.0@);
    let mut s = String::new();
    let mut i: usize = 0;
    while i < segments.len()
        invariant
            i <= segments@.len(),
            names == segments@.map_values(|p: (String, Span)| p.0@),
            s@ == dot_join(names.take(i as int)),
        decreases segments@.len() - i,
    {
        proof {
            assert(names.take(i + 1).drop_last() =~= names.take(i as int));
            assert(names.take(i + 1).last() == segments@[i as int].0@);
        }
        let ghost before = s@;
        if i > 0 {
            push_char(&mut s, '.');
        }
        push_string(&mut s, &segments[i].0);
        proof {
            if i == 0 {
                assert(s@ =~= dot_join(names.take(1)));
            } else {
                assert(s@ =~= dot_join(names.take(i + 1)));
            }
        }
        i = i + 1;
    }
    proof { assert(names.take(i as int) =~= names); }
    s
}

/// Every qualified name in a written type has at least one segment.
pub open spec fn names_written(ty: TypeRef) -> bool
    decreases ty,
{
    match ty {
        TypeRef::Builtin(..) => true,
        TypeRef::Named(segs, _) => segs@.len() > 0,
        TypeRef::Sum(members, _) => forall|k: int| 0 <= k < members@.len() ==> names_written(#[trigger] members@[k]),
        TypeRef::Box(inner, _) => names_written(*inner),
    }
}

/// The top-level table has an entry named `name`.
pub open spec fn named_in(top: Seq<(String, TypeId)>, name: Seq<char>) -> bool {
    exists|e: int| 0 <= e < top.len() && (#[trigger] top[e]).0@ == name
}

/// A written type that resolves without a diagnostic and without touching
/// the tables: a built-in type other than `Nil`, or one name of the table.
pub open spec fn silent_atom(top: Seq<(String, TypeId)>, ty: TypeRef) -> bool {
    match ty {
        TypeRef::Builtin(n, _) => n != TypeName::Nil,
        TypeRef::Named(segs, _) => segs@.len() == 1 && named_in(top, segs@[0].0@),
        _ => false,
    }
}

/// A field type that resolves without a diagnostic: a silent atom, or a box
/// of one.
pub open spec fn silent_field_type(top: Seq<(String, TypeId)>, ty: TypeRef) -> bool {
    silent_atom(top, ty) || (ty matches TypeRef::Box(inner, _) && silent_atom(top, *inner))
}

/// How a silently resolved field type comes out: a built-in type as itself,
/// a name as the user type its table entry names, a box as a box.
pub open spec fn resolved_as(t: Ty, ty: TypeRef, top: Seq<(String, TypeId)>) -> bool {
    match ty {
        TypeRef::Builtin(n, _) => t == crate::types::ty_of_name(n),
        TypeRef::Named(segs, _) => t matches Ty::User(id) && exists|e: int| 0 <= e < top.len()
            && (#[trigger] top[e]).0@ == segs@[0].0@ && top[e].1 == id,
        TypeRef::Box(..) => t is Box,
        _ => false,
    }
}

/// Resolves one written type. `None` after reporting an unknown or
/// malformed name, a standalone `Nil`, or an invalid sum.
pub(crate) fn resolve(b: &mut Builder, ty: &TypeRef, errors: &mut Vec<Error>) -> (r: Option<Ty>)
    requires
        old(b).wf(),
    ensures
        final(b).wf(),
        final(b).grows_from(old(b)),
        r matches Some(t) ==> final(b).ok(t),
        final(errors)@.len() >= old(errors)@.len(),
        appended(old(errors)@, final(errors)@),
        names_written(*ty) && r is None ==> final(errors)@.len() > old(errors)@.len(),
        r matches Some(t) ==> t != Ty::Nil,
        *ty matches TypeRef::Builtin(n, _) ==> if n == TypeName::Nil {
            r is None && final(errors)@.len() == old(errors)@.len() + 1 && final(errors)@.last().msg@ == STANDALONE_NIL@
        } else {
            r == Some(crate::types::ty_of_name(n)) && final(errors)@ == old(errors)@
        },
        *ty matches TypeRef::Named(segs, _) ==> (segs@.len() == 1 ==> match r {
            Some(t) => final(errors)@ == old(errors)@ && (t matches Ty::User(id) && exists|i: int| 0 <= i < old(b).top_level@.len()
                && (#[trigger] old(b).top_level@[i]).0@ == segs@[0].0@ && old(b).top_level@[i].1 == id),
            None => final(errors)@.len() == old(errors)@.len() + 1,
        }),
        *ty matches TypeRef::Named(segs, _) ==> (segs@.len() == 2 ==> match r {
            Some(t) => final(errors)@ == old(errors)@ && (t matches Ty::User(id) && exists|i: int| 0 <= i < old(b).members@.len()
                && (#[trigger] old(b).members@[i]).1@ == segs@[1].0@ && old(b).members@[i].2 == id),
            None => final(errors)@.len() == old(errors)@.len() + 1,
        }),
        *ty matches TypeRef::Named(segs, _) ==> (segs@.len() > 2 ==> r is None && final(errors)@.len() == old(errors)@.len() + 1),
        *ty is Sum ==> (r matches Some(t) ==> t matches Ty::Sum(id) && final(b).sums.view()[id.0 as int].len() >= 2),
        *ty is Box ==> (r matches Some(t) ==> t is Box),
        silent_atom(old(b).top_level@, *ty) ==> r is Some && final(errors)@ == old(errors)@ && *final(b) == *old(b),
        *ty matches TypeRef::Box(inner, _) && silent_atom(old(b).top_level@, *inner) && old(b).nb() < u32::MAX
            ==> r is Some && final(errors)@ == old(errors)@ && final(b).nb() <= old(b).nb() + 1,
        silent_field_type(old(b).top_level@, *ty) && r is Some ==> resolved_as(r->Some_0, *ty, old(b).top_level@),
        final(b).nb() <= old(b).nb() + 1 || !silent_field_type(old(b).top_level@, *ty),
    decreases ty, 1nat,
{
    match ty {
        TypeRef::Builtin(name, span) => {
            match name {
                TypeName::Nil => {
                    error(errors, *span, owned(STANDALONE_NIL));
                    None
                }
                _ => Some(Ty::from_name(*name)),
            }
        }
        TypeRef::Named(segments, span) => {
            if segments.len() == 0 {
                return None;
            }
            let first = &segments[0].0;
            let root = match b.top(first) {
                Some(r) => r,
                None => {
                    error(errors, segments[0].1, concat3("Unknown type '", first, "'"));
                    return None;
                }
            };
            if segments.len() == 1 {
                Some(Ty::User(root))
            } else if segments.len() == 2 {
                let member = &segments[1].0;
                match b.member(root, member) {
                    Some(id) => Some(Ty::User(id)),
                    None => {
                        let mut m = owned("Unknown type '");
                        push_string(&mut m, first);
                        push_char(&mut m, '.');
                        push_string(&mut m, member);
                        push_char(&mut m, '\'');
                        error(errors, segments[1].1, m);
                        None
                    }
                }
            } else {
                let mut m = owned("Unknown type '");
                push_string(&mut m, &dotted(segments));
                push_str(&mut m, "'; a qualified type name has at most two components");
                error(errors, *span, m);
                None
            }
        }
        TypeRef::Sum(members, span) => resolve_sum(b, members, *span, errors),
        TypeRef::Box(inner, span) => {
            let pointee = match resolve(b, inner, errors) {
                Some(t) => t,
                None => Ty::Nil,
            };
            match b.intern_box(pointee) {
                Some(id) => Some(Ty::Box(id)),
                None => {
                    error(errors, *span, owned("too many distinct box types in one program"));
                    None
                }
            }
        }
    }
}

/// Whether every resolved entry is valid in `b` and is not itself a sum.
pub(crate) open spec fn raw_ok(b: &Builder, raw: Seq<(Option<Ty>, Span)>) -> bool {
    forall|i: int| 0 <= i < raw.len() ==> ((#[trigger] raw[i]).0 matches Some(t) ==> b.ok(t) && !(t is Sum))
}

/// Resolves every member of a written sum, expanding a nested sum into its
/// members, then applies the member-set rules.
pub(crate) fn resolve_sum(b: &mut Builder, members: &Vec<TypeRef>, span: Span, errors: &mut Vec<Error>) -> (r: Option<Ty>)
    requires
        old(b).wf(),
    ensures
        final(b).wf(),
        final(b).grows_from(old(b)),
        r matches Some(t) ==> final(b).ok(t),
        final(errors)@.len() >= old(errors)@.len(),
        appended(old(errors)@, final(errors)@),
        r matches Some(t) ==> t matches Ty::Sum(id) && final(b).sums.view()[id.0 as int].len() >= 2,
        (forall|k: int| 0 <= k < members@.len() ==> names_written(#[trigger] members@[k])) && r is None
            ==> final(errors)@.len() > old(errors)@.len(),
    decreases members, 0nat,
{
    let ghost start = *b;
    let ghost start_errors = errors@.len();
    let mut raw: Vec<(Option<Ty>, Span)> = Vec::new();
    let mut i: usize = 0;
    proof { assert(decreases_to!(members => members@)); }
    while i < members.len()
        invariant
            decreases_to!(members => members@),
            i <= members@.len(),
            b.wf(),
            b.grows_from(&start),
            raw_ok(b, raw@),
            errors@.len() >= start_errors,
            appended(old(errors)@, errors@),
            (forall|k: int| 0 <= k < members@.len() ==> names_written(#[trigger] members@[k])) && errors@.len() == start_errors
                ==> forall|j: int| 0 <= j < raw@.len() ==> (#[trigger] raw@[j]).0 is Some,
        decreases members@.len() - i,
    {
        proof { assert(decreases_to!(members@ => members@[i as int])); }
        let member = &members[i];
        let ghost before = *b;
        match member {
            TypeRef::Builtin(TypeName::Nil, s) => {
                raw.push((Some(Ty::Nil), *s));
            }
            _ => {
                let resolved = resolve(b, member, errors);
                match resolved {
                    Some(Ty::Sum(id)) => {
                        let flat = b.sums.members(id);
                        proof { b.sums.lemma_wf_normalized(id.0 as int); }
                        let mut k: usize = 0;
                        while k < flat.len()
                            invariant
                                k <= flat@.len(),
                                b.wf(),
                                id.0 < b.ns(),
                                flat@ == b.sums.view()[id.0 as int],
                                normalized(flat@),
                                raw_ok(b, raw@),
                                (forall|k: int| 0 <= k < members@.len() ==> names_written(#[trigger] members@[k])) && errors@.len() == start_errors
                                    ==> forall|j: int| 0 <= j < raw@.len() ==> (#[trigger] raw@[j]).0 is Some,
                            decreases flat@.len() - k,
                        {
                            raw.push((Some(flat[k]), member.span()));
                            k = k + 1;
                        }
                    }
                    other => raw.push((other, member.span())),
                }
                proof {
                    assert forall|j: int| 0 <= j < raw@.len() implies ((#[trigger] raw@[j]).0 matches Some(t) ==> b.ok(t) && !(t is Sum)) by {
                        if let Some(t) = raw@[j].0 {
                            assert(ty_ok(t, b.nd(), b.ns(), b.nb()));
                        }
                    }
                }
            }
        }
        i = i + 1;
    }
    let outcome = dedupe_sum(&raw);
    if outcome.any_unresolved {
        return None;
    }
    let ghost e_mid = errors@.len();
    let mut d: usize = 0;
    while d < outcome.duplicates.len()
        invariant
            b.wf(),
            b.grows_from(&start),
            errors@.len() >= start_errors,
            appended(old(errors)@, errors@),
            errors@.len() == e_mid + d,
            d <= outcome.duplicates@.len(),
        decreases outcome.duplicates@.len() - d,
    {
        let (t, dup_span) = outcome.duplicates[d];
        let mut m = owned("'");
        push_string(&mut m, &b.display(t));
        push_str(&mut m, "' is repeated in this sum type; each member must be distinct");
        error(errors, dup_span, m);
        d = d + 1;
    }
    if outcome.distinct.len() < 2 {
        let lone_nil = outcome.distinct.len() == 1 && outcome.distinct[0] == Ty::Nil;
        let msg = if lone_nil { owned(NIL_NEEDS_A_SUM_SIBLING) } else { owned(SUM_TOO_FEW_MEMBERS) };
        error(errors, span, msg);
        return None;
    }
    proof {
        lemma_distinct_of(raw@);
        assert forall|k: int| 0 <= k < outcome.distinct@.len() implies b.ok(#[trigger] outcome.distinct@[k]) && !(outcome.distinct@[k] is Sum) by {
            let j = choose|j: int| 0 <= j < raw@.len() && raw@[j].0 == Some(distinct_of(raw@)[k]);
            assert(raw@[j].0 matches Some(t) ==> b.ok(t) && !(t is Sum));
        }
    }
    let sorted = sort_tys(outcome.distinct);
    proof {
        assert forall|k: int| 0 <= k < sorted@.len() implies b.ok(#[trigger] sorted@[k]) && !(sorted@[k] is Sum) by {
            assert(sorted@.contains(sorted@[k]));
            assert(distinct_of(raw@).contains(sorted@[k]));
        }
    }
    match b.intern_sum(sorted) {
        Some(id) => Some(Ty::Sum(id)),
        None => {
            error(errors, span, owned("too many distinct inline sum types in one program"));
            None
        }
    }
}

/// The user types a type reaches by value: itself when it is one, a sum's
/// user-type members; a box is an indirection and reaches nothing.
/// The user types among a sum's members, in order.
pub open spec fn user_ids(ms: Seq<Ty>) -> Seq<TypeId>
    decreases ms.len(),
{
    if ms.len() == 0 {
        Seq::empty()
    } else {
        match ms.last() {
            Ty::User(u) => user_ids(ms.drop_last()).push(u),
            _ => user_ids(ms.drop_last()),
        }
    }
}

/// The user types a type reaches by value: itself, or a sum's user members.
pub open spec fn edges_of(t: Ty, sums: Seq<Seq<Ty>>) -> Seq<TypeId> {
    match t {
        Ty::User(id) => seq![id],
        Ty::Sum(s) => user_ids(sums[s.0 as int]),
        _ => Seq::empty(),
    }
}

/// The user types a list of fields reaches by value, field by field.
pub open spec fn field_edges(fields: Seq<(String, Ty)>, sums: Seq<Seq<Ty>>) -> Seq<TypeId>
    decreases fields.len(),
{
    if fields.len() == 0 {
        Seq::empty()
    } else {
        field_edges(fields.drop_last(), sums) + edges_of(fields.last().1, sums)
    }
}

/// The user types a definition holds by value.
pub open spec fn contained_spec(d: TypeDef, sums: Seq<Seq<Ty>>) -> Seq<TypeId> {
    match d {
        TypeDef::Represented { target, .. } => edges_of(target, sums),
        TypeDef::Struct { fields, .. } => field_edges(fields@, sums),
        TypeDef::UnionMember { fields, .. } => field_edges(fields@, sums),
        TypeDef::Union { members, .. } => members@,
    }
}

fn push_edges(out: &mut Vec<TypeId>, t: Ty, sums: &SumTable, nd: usize)
    requires
        sums.wf(),
        ty_ok(t, nd as nat, sums.view().len(), 0xffff_ffff),
        forall|i: int, j: int| 0 <= i < sums.view().len() && 0 <= j < sums.view()[i].len()
            ==> ty_ok(#[trigger] sums.view()[i][j], nd as nat, sums.view().len(), 0xffff_ffff),
        forall|i: int| 0 <= i < old(out)@.len() ==> (#[trigger] old(out)@[i]).0 < nd,
    ensures
        forall|i: int| 0 <= i < final(out)@.len() ==> (#[trigger] final(out)@[i]).0 < nd,
        final(out)@ == old(out)@ + edges_of(t, sums.view()),
{
    match t {
        Ty::User(id) => {
            out.push(id);
            proof { assert(out@ =~= old(out)@ + edges_of(t, sums.view())); }
        }
        Ty::Sum(id) => {
            let ms = sums.members(id);
            let mut k: usize = 0;
            proof { assert(ms@.subrange(0, 0) =~= Seq::<Ty>::empty()); assert(old(out)@ + Seq::<TypeId>::empty() =~= old(out)@); }
            while k < ms.len()
                invariant
                    k <= ms@.len(),
                    ms@ == sums.view()[id.0 as int],
                    id.0 < sums.view().len(),
                    forall|j: int| 0 <= j < ms@.len() ==> ty_ok(#[trigger] ms@[j], nd as nat, sums.view().len(), 0xffff_ffff),
                    forall|i: int| 0 <= i < out@.len() ==> (#[trigger] out@[i]).0 < nd,
                    out@ == old(out)@ + user_ids(ms@.subrange(0, k as int)),
                decreases ms@.len() - k,
            {
                let ghost before = out@;
                proof {
                    let pre = ms@.subrange(0, k + 1);
                    assert(pre.drop_last() =~= ms@.subrange(0, k as int));
                    assert(pre.last() == ms@[k as int]);
                }
                if let Ty::User(u) = ms[k] {
                    out.push(u);
                    proof { assert(out@ =~= old(out)@ + user_ids(ms@.subrange(0, k + 1))); }
                } else {
                    proof { assert(out@ =~= old(out)@ + user_ids(ms@.subrange(0, k + 1))); }
                }
                k = k + 1;
            }
            proof { assert(ms@.subrange(0, ms@.len() as int) =~= ms@); }
        }
        _ => {
            proof { assert(out@ =~= old(out)@ + edges_of(t, sums.view())); }
        }
    }
}

/// Whether every identity a finished definition list names is in range.
pub(crate) open spec fn defs_ok(defs: Seq<TypeDef>, sums: &SumTable, nb: nat) -> bool {
    &&& sums.wf()
    &&& defs.len() <= u32::MAX
    &&& forall|i: int| 0 <= i < defs.len() ==> def_ok(#[trigger] defs[i], defs.len(), sums.view().len(), nb)
    &&& forall|i: int, j: int| 0 <= i < sums.view().len() && 0 <= j < sums.view()[i].len()
        ==> ty_ok(#[trigger] sums.view()[i][j], defs.len(), sums.view().len(), nb)
    &&& nb <= 0xffff_ffff
}

/// The user types reachable by value from a definition, for layout cycle
/// detection.
fn contained(defs: &Vec<TypeDef>, id: usize, sums: &SumTable, nb: Ghost<nat>) -> (r: Vec<TypeId>)
    requires
        defs_ok(defs@, sums, nb@),
        id < defs@.len(),
    ensures
        forall|i: int| 0 <= i < r@.len() ==> (#[trigger] r@[i]).0 < defs@.len(),
        r@ == contained_spec(defs@[id as int], sums.view()),
{
    let nd = defs.len();
    let mut out: Vec<TypeId> = Vec::new();
    proof {
        assert(def_ok(defs@[id as int], defs@.len(), sums.view().len(), nb@));
        assert forall|i: int, j: int| 0 <= i < sums.view().len() && 0 <= j < sums.view()[i].len()
            implies ty_ok(#[trigger] sums.view()[i][j], nd as nat, sums.view().len(), 0xffff_ffff) by {
            assert(ty_ok(sums.view()[i][j], defs@.len(), sums.view().len(), nb@));
        }
    }
    match &defs[id] {
        TypeDef::Represented { target, .. } => push_edges(&mut out, *target, sums, nd),
        TypeDef::Struct { fields, .. } | TypeDef::UnionMember { fields, .. } => {
            let mut k: usize = 0;
            proof { assert(fields@.subrange(0, 0) =~= Seq::<(String, Ty)>::empty()); }
            while k < fields.len()
                invariant
                    out@ == field_edges(fields@.subrange(0, k as int), sums.view()),
                    k <= fields@.len(),
                    nd == defs@.len(),
                    sums.wf(),
                    forall|j: int| 0 <= j < fields@.len() ==> ty_ok(#[trigger] fields@[j].1, nd as nat, sums.view().len(), 0xffff_ffff),
                    forall|i: int, j: int| 0 <= i < sums.view().len() && 0 <= j < sums.view()[i].len()
                        ==> ty_ok(#[trigger] sums.view()[i][j], nd as nat, sums.view().len(), 0xffff_ffff),
                    forall|i: int| 0 <= i < out@.len() ==> (#[trigger] out@[i]).0 < nd,
                decreases fields@.len() - k,
            {
                proof {
                    assert(ty_ok(fields@[k as int].1, nd as nat, sums.view().len(), 0xffff_ffff));
                    let pre = fields@.subrange(0, k + 1);
                    assert(pre.drop_last() =~= fields@.subrange(0, k as int));
                    assert(pre.last() == fields@[k as int]);
                }
                push_edges(&mut out, fields[k].1, sums, nd);
                k = k + 1;
            }
            proof { assert(fields@.subrange(0, fields@.len() as int) =~= fields@); }
        }
        TypeDef::Union { members, .. } => {
            let mut k: usize = 0;
            while k < members.len()
                invariant
                    k <= members@.len(),
                    nd == defs@.len(),
                    forall|j: int| 0 <= j < members@.len() ==> (#[trigger] members@[j]).0 < nd,
                    forall|i: int| 0 <= i < out@.len() ==> (#[trigger] out@[i]).0 < nd,
                    out@ =~= members@.subrange(0, k as int),
                decreases members@.len() - k,
            {
                out.push(members[k]);
                k = k + 1;
            }
            proof { assert(members@.subrange(0, members@.len() as int) =~= members@); }
        }
    }
    out
}

/// How many entries are `true`.
pub open spec fn count_true(s: Seq<bool>) -> nat
    decreases s.len(),
{
    if s.len() == 0 {
        0
    } else {
        count_true(s.drop_last()) + if s.last() { 1nat } else { 0nat }
    }
}

pub proof fn lemma_count_true_update(s: Seq<bool>, i: int, v: bool)
    requires
        0 <= i < s.len(),
    ensures
        count_true(s.update(i, v)) + (if s[i] { 1nat } else { 0nat }) == count_true(s) + (if v { 1nat } else { 0nat }),
        count_true(s) <= s.len(),
    decreases s.len(),
{
    let u = s.update(i, v);
    if i == s.len() - 1 {
        assert(u.drop_last() =~= s.drop_last());
    } else {
        assert(u.drop_last() =~= s.drop_last().update(i, v));
        lemma_count_true_update(s.drop_last(), i, v);
    }
    lemma_count_true_len(s);
}

pub proof fn lemma_count_true_len(s: Seq<bool>)
    ensures
        count_true(s) <= s.len(),
    decreases s.len(),
{
    if s.len() > 0 {
        lemma_count_true_len(s.drop_last());
    }
}

/// Each named type followed by ` -> `.
pub open spec fn arrow_names(defs: Seq<TypeDef>, ids: Seq<TypeId>) -> Seq<char>
    decreases ids.len(),
{
    if ids.len() == 0 {
        Seq::empty()
    } else {
        arrow_names(defs, ids.drop_last()) + defs[ids.last().0 as int].name_of() + " -> "@
    }
}

/// The names along a cycle, joined by ` -> `: `stack[start..]`, then `id`.
fn cycle_text(defs: &Vec<TypeDef>, stack: &Vec<TypeId>, start: usize, id: TypeId) -> (text: String)
    requires
        start <= stack@.len(),
        id.0 < defs@.len(),
        forall|i: int| 0 <= i < stack@.len() ==> (#[trigger] stack@[i]).0 < defs@.len(),
    ensures
        text@ == arrow_names(defs@, stack@.subrange(start as int, stack@.len() as int)) + defs@[id.0 as int].name_of(),
{
    let mut text = String::new();
    let mut k = start;
    proof { assert(stack@.subrange(start as int, start as int) =~= Seq::<TypeId>::empty()); }
    while k < stack.len()
        invariant
            start <= k <= stack@.len(),
            forall|i: int| 0 <= i < stack@.len() ==> (#[trigger] stack@[i]).0 < defs@.len(),
            text@ == arrow_names(defs@, stack@.subrange(start as int, k as int)),
        decreases stack@.len() - k,
    {
        let ghost before = text@;
        push_string(&mut text, defs[stack[k].index()].name());
        push_str(&mut text, " -> ");
        proof {
            let pre = stack@.subrange(start as int, k + 1);
            assert(pre.drop_last() =~= stack@.subrange(start as int, k as int));
            assert(pre.last() == stack@[k as int]);
            assert(text@ =~= before + defs@[stack@[k as int].0 as int].name_of() + " -> "@);
        }
        k = k + 1;
    }
    push_string(&mut text, defs[id.index()].name());
    text
}

/// Every definition holds by value only earlier definitions.
pub open spec fn edges_lower(defs: Seq<TypeDef>, sums: Seq<Seq<Ty>>) -> bool {
    forall|i: int, k: int| 0 <= i < defs.len() && 0 <= k < contained_spec(defs[i], sums).len()
        ==> (#[trigger] contained_spec(defs[i], sums)[k]).0 < i
}

/// A definition holds itself by value.
pub open spec fn holds_itself(defs: Seq<TypeDef>, sums: Seq<Seq<Ty>>, i: int) -> bool {
    contained_spec(defs[i], sums).contains(TypeId(i as u32))
}

/// Each type along `path` holds the next one by value.
pub open spec fn layout_path(defs: Seq<TypeDef>, sums: Seq<Seq<Ty>>, path: Seq<TypeId>) -> bool {
    &&& forall|j: int| 0 <= j < path.len() ==> (#[trigger] path[j]).0 < defs.len()
    &&& forall|j: int| 1 <= j < path.len() ==> contained_spec(defs[path[j - 1].0 as int], sums).contains(#[trigger] path[j])
}

/// `path` is a by-value layout cycle: a layout path whose last type holds
/// the first.
pub open spec fn layout_cycle(defs: Seq<TypeDef>, sums: Seq<Seq<Ty>>, path: Seq<TypeId>) -> bool {
    &&& path.len() >= 1
    &&& layout_path(defs, sums, path)
    &&& contained_spec(defs[path.last().0 as int], sums).contains(path[0])
}

/// The diagnostic for a layout cycle: the first type's name, then the cycle
/// written out and closed on that name.
pub open spec fn cycle_message(defs: Seq<TypeDef>, path: Seq<TypeId>) -> Seq<char> {
    "Type '"@ + defs[path[0].0 as int].name_of() + "' has an infinite value layout: "@
        + arrow_names(defs, path) + defs[path[0].0 as int].name_of()
}

/// Error `k` reports some layout cycle.
pub open spec fn cycle_reported_at(defs: Seq<TypeDef>, sums: Seq<Seq<Ty>>, errors: Seq<Error>, k: int) -> bool {
    exists|path: Seq<TypeId>| #[trigger] layout_cycle(defs, sums, path) && errors[k].msg@ == cycle_message(defs, path)
}

/// Every type a finished type holds by value is finished too.
pub open spec fn done_closed(defs: Seq<TypeDef>, sums: Seq<Seq<Ty>>, done: Seq<bool>) -> bool {
    forall|i: int, m: int| 0 <= i < defs.len() && done[i] && 0 <= m < contained_spec(defs[i], sums).len()
        && contained_spec(defs[i], sums)[m].0 < defs.len()
        ==> #[trigger] done[(#[trigger] contained_spec(defs[i], sums)[m]).0 as int]
}

/// No layout cycle runs through finished types only.
pub open spec fn no_done_cycle(defs: Seq<TypeDef>, sums: Seq<Seq<Ty>>, done: Seq<bool>) -> bool {
    forall|path: Seq<TypeId>| #[trigger] layout_cycle(defs, sums, path)
        ==> exists|j: int| 0 <= j < path.len() && !done[(#[trigger] path[j]).0 as int]
}

/// A layout path that starts at a finished type stays among finished types.
proof fn lemma_path_stays_done(defs: Seq<TypeDef>, sums: Seq<Seq<Ty>>, done: Seq<bool>, path: Seq<TypeId>, j: int)
    requires
        done.len() == defs.len(),
        done_closed(defs, sums, done),
        layout_path(defs, sums, path),
        path.len() > 0,
        done[path[0].0 as int],
        0 <= j < path.len(),
    ensures
        done[path[j].0 as int],
    decreases j,
{
    if j > 0 {
        lemma_path_stays_done(defs, sums, done, path, j - 1);
        let c = contained_spec(defs[path[j - 1].0 as int], sums);
        assert(c.contains(path[j]));
        let m = choose|m: int| 0 <= m < c.len() && c[m] == path[j];
        assert(done[c[m].0 as int]);
    }
}

/// A layout cycle that meets one finished type is finished throughout.
proof fn lemma_cycle_all_done(defs: Seq<TypeDef>, sums: Seq<Seq<Ty>>, done: Seq<bool>, path: Seq<TypeId>, j: int)
    requires
        done.len() == defs.len(),
        done_closed(defs, sums, done),
        layout_cycle(defs, sums, path),
        0 <= j < path.len(),
        done[path[j].0 as int],
    ensures
        forall|k: int| 0 <= k < path.len() ==> done[(#[trigger] path[k]).0 as int],
{
    let tail = path.subrange(j, path.len() as int);
    assert forall|k: int| 1 <= k < tail.len() implies contained_spec(defs[tail[k - 1].0 as int], sums).contains(#[trigger] tail[k]) by {
        assert(tail[k] == path[j + k]);
        assert(tail[k - 1] == path[j + k - 1]);
    }
    assert forall|k: int| 0 <= k < tail.len() implies (#[trigger] tail[k]).0 < defs.len() by {
        assert(tail[k] == path[j + k]);
    }
    lemma_path_stays_done(defs, sums, done, tail, tail.len() - 1);
    assert(tail[tail.len() - 1] == path.last());
    let c = contained_spec(defs[path.last().0 as int], sums);
    let m = choose|m: int| 0 <= m < c.len() && c[m] == path[0];
    assert(done[c[m].0 as int]);
    assert forall|k: int| 0 <= k < path.len() implies done[(#[trigger] path[k]).0 as int] by {
        lemma_path_stays_done(defs, sums, done, path, k);
    }
}

/// Finishing a type whose contents are all finished keeps the finished set
/// closed and free of cycles.
proof fn lemma_finish(defs: Seq<TypeDef>, sums: Seq<Seq<Ty>>, done: Seq<bool>, id: int)
    requires
        done.len() == defs.len(),
        0 <= id < defs.len(),
        !done[id],
        done_closed(defs, sums, done),
        no_done_cycle(defs, sums, done),
        forall|m: int| 0 <= m < contained_spec(defs[id], sums).len() ==> done[(#[trigger] contained_spec(defs[id], sums)[m]).0 as int],
    ensures
        done_closed(defs, sums, done.update(id, true)),
        no_done_cycle(defs, sums, done.update(id, true)),
{
    let d2 = done.update(id, true);
    assert forall|i: int, m: int| 0 <= i < defs.len() && d2[i] && 0 <= m < contained_spec(defs[i], sums).len()
        && contained_spec(defs[i], sums)[m].0 < defs.len()
        implies #[trigger] d2[(#[trigger] contained_spec(defs[i], sums)[m]).0 as int] by {
        if i != id {
            assert(done[contained_spec(defs[i], sums)[m].0 as int]);
        }
    }
    assert forall|path: Seq<TypeId>| #[trigger] layout_cycle(defs, sums, path)
        implies exists|j: int| 0 <= j < path.len() && !d2[(#[trigger] path[j]).0 as int] by {
        if forall|j: int| 0 <= j < path.len() ==> d2[(#[trigger] path[j]).0 as int] {
            let w = choose|j: int| 0 <= j < path.len() && !done[(#[trigger] path[j]).0 as int];
            assert(path[w].0 == id);
            let nxt = if w + 1 < path.len() { w + 1 } else { 0 };
            let c = contained_spec(defs[id], sums);
            assert(c.contains(path[nxt]));
            let m = choose|m: int| 0 <= m < c.len() && c[m] == path[nxt];
            assert(done[c[m].0 as int]);
            lemma_cycle_all_done(defs, sums, done, path, nxt);
            assert(done[path[w].0 as int]);
        }
    }
}

/// One step of the depth-first layout walk: `seen` marks every type
/// entered, `done` every type finished, and `stack` the path being walked.
fn visit(
    id: TypeId,
    defs: &Vec<TypeDef>,
    spans: &Vec<Span>,
    sums: &SumTable,
    nb: Ghost<nat>,
    seen: &mut Vec<bool>,
    done: &mut Vec<bool>,
    stack: &mut Vec<TypeId>,
    errors: &mut Vec<Error>,
) -> (ok: bool)
    requires
        defs_ok(defs@, sums, nb@),
        spans@.len() == defs@.len(),
        id.0 < defs@.len(),
        old(seen)@.len() == defs@.len(),
        old(done)@.len() == defs@.len(),
        forall|i: int| 0 <= i < old(stack)@.len() ==> (#[trigger] old(stack)@[i]).0 < defs@.len(),
        layout_path(defs@, sums.view(), old(stack)@),
        old(stack)@.len() > 0 ==> contained_spec(defs@[old(stack)@.last().0 as int], sums.view()).contains(id),
        forall|j: int| 0 <= j < defs@.len() && #[trigger] old(seen)@[j] && !old(done)@[j] ==> old(stack)@.contains(TypeId(j as u32)),
        done_closed(defs@, sums.view(), old(done)@),
        no_done_cycle(defs@, sums.view(), old(done)@),
    ensures
        ok ==> done_closed(defs@, sums.view(), final(done)@) && no_done_cycle(defs@, sums.view(), final(done)@),
        ok ==> forall|j: int| 0 <= j < defs@.len() && #[trigger] final(seen)@[j] && !old(seen)@[j] ==> final(done)@[j],
        !ok ==> final(errors)@.len() == old(errors)@.len() + 1
            && cycle_reported_at(defs@, sums.view(), final(errors)@, old(errors)@.len() as int),
        final(seen)@.len() == defs@.len(),
        final(done)@.len() == defs@.len(),
        final(stack)@ == old(stack)@,
        count_true(final(seen)@) >= count_true(old(seen)@),
        !ok ==> final(errors)@.len() > old(errors)@.len(),
        final(errors)@.len() >= old(errors)@.len(),
        appended(old(errors)@, final(errors)@),
        ok ==> final(errors)@ == old(errors)@ && final(done)@[id.0 as int],
        old(done)@[id.0 as int] ==> ok && final(seen)@ == old(seen)@ && final(done)@ == old(done)@,
        forall|i: int| 0 <= i < defs@.len() && old(done)@[i] ==> #[trigger] final(done)@[i],
        forall|i: int| 0 <= i < defs@.len() && old(seen)@[i] ==> #[trigger] final(seen)@[i],
        forall|i: int| 0 <= i < defs@.len() && old(seen)@[i] && !old(done)@[i] ==> !#[trigger] final(done)@[i],
        old(seen)@[id.0 as int] && !old(done)@[id.0 as int] ==> !ok,
        ok ==> forall|i: int| 0 <= i < defs@.len() && #[trigger] final(done)@[i] && !old(done)@[i]
            ==> !holds_itself(defs@, sums.view(), i),
        edges_lower(defs@, sums.view()) && (forall|j: int| 0 <= j < id.0 ==> #[trigger] old(done)@[j])
            && (forall|j: int| 0 <= j < defs@.len() ==> #[trigger] old(seen)@[j] == old(done)@[j])
            ==> ok && final(done)@ == old(done)@.update(id.0 as int, true) && final(seen)@ == old(seen)@.update(id.0 as int, true)
                && final(errors)@ == old(errors)@,
    decreases defs@.len() - count_true(old(seen)@),
{
    proof { lemma_count_true_len(seen@); }
    let ghost lower = edges_lower(defs@, sums.view()) && (forall|j: int| 0 <= j < id.0 ==> #[trigger] old(done)@[j])
        && (forall|j: int| 0 <= j < defs@.len() ==> #[trigger] old(seen)@[j] == old(done)@[j]);
    if done[id.index()] {
        proof {
            assert(done@.update(id.0 as int, true) =~= done@);
            if lower {
                assert(seen@.update(id.0 as int, true) =~= seen@);
            }
        }
        return true;
    }
    if seen[id.index()] {
        proof {
            assert(!lower);
            assert(stack@.contains(TypeId(id.0)));
        }
        let mut start: usize = 0;
        while start < stack.len() && stack[start] != id
            invariant
                start <= stack@.len(),
                stack@.contains(id),
                forall|j: int| 0 <= j < start ==> (#[trigger] stack@[j]) != id,
            decreases stack@.len() - start,
        {
            start = start + 1;
        }
        proof {
            if start == stack@.len() {
                let w = choose|w: int| 0 <= w < stack@.len() && stack@[w] == id;
                assert(stack@[w] != id);
            }
        }
        let cycle = cycle_text(defs, stack, start, id);
        let mut m = owned("Type '");
        push_string(&mut m, defs[id.index()].name());
        push_str(&mut m, "' has an infinite value layout: ");
        push_string(&mut m, &cycle);
        let ghost path = stack@.subrange(start as int, stack@.len() as int);
        proof {
            assert(path[0] == id);
            assert(path.last() == stack@.last());
            assert forall|j: int| 1 <= j < path.len() implies contained_spec(defs@[path[j - 1].0 as int], sums.view()).contains(#[trigger] path[j]) by {
                assert(path[j] == stack@[start + j]);
                assert(path[j - 1] == stack@[start + j - 1]);
            }
            assert(layout_cycle(defs@, sums.view(), path));
            assert(m@ =~= cycle_message(defs@, path));
        }
        error(errors, spans[id.index()], m);
        proof {
            assert(errors@[old(errors)@.len() as int].msg@ == cycle_message(defs@, path));
            assert(layout_cycle(defs@, sums.view(), path));
        }
        return false;
    }
    let ghost entry = count_true(seen@);
    proof { lemma_count_true_update(seen@, id.0 as int, true); }
    seen.set(id.index(), true);
    stack.push(id);
    proof {
        assert(stack@[stack@.len() - 1] == id);
        assert forall|j: int| 0 <= j < defs@.len() && #[trigger] seen@[j] && !done@[j] implies stack@.contains(TypeId(j as u32)) by {
            if j == id.0 {
                assert(stack@[stack@.len() - 1] == TypeId(j as u32));
            } else {
                assert(old(stack)@.contains(TypeId(j as u32)));
                let w = choose|w: int| 0 <= w < old(stack)@.len() && old(stack)@[w] == TypeId(j as u32);
                assert(stack@[w] == old(stack)@[w]);
            }
        }
    }
    let next = contained(defs, id.index(), sums, nb);
    let mut ok = true;
    let mut k: usize = 0;
    while k < next.len()
        invariant_except_break
            ok,
            done_closed(defs@, sums.view(), done@),
            no_done_cycle(defs@, sums.view(), done@),
            forall|j: int| 0 <= j < k ==> #[trigger] done@[next@[j].0 as int],
            forall|j: int| 0 <= j < defs@.len() && #[trigger] seen@[j] && !done@[j] ==> stack@.contains(TypeId(j as u32)),
            forall|j: int| 0 <= j < defs@.len() && #[trigger] seen@[j] && !old(seen)@[j] && j != id.0 ==> done@[j],
            lower ==> done@ == old(done)@ && seen@ == old(seen)@.update(id.0 as int, true) && errors@ == old(errors)@,
            forall|i: int| 0 <= i < defs@.len() && #[trigger] done@[i] && !old(done)@[i] ==> !holds_itself(defs@, sums.view(), i),
            forall|j: int| 0 <= j < k ==> (#[trigger] next@[j]) != id,
        invariant
            defs_ok(defs@, sums, nb@),
            spans@.len() == defs@.len(),
            k <= next@.len(),
            seen@.len() == defs@.len(),
            done@.len() == defs@.len(),
            count_true(seen@) > entry,
            entry >= count_true(old(seen)@),
            stack@ == old(stack)@.push(id),
            id.0 < defs@.len(),
            forall|i: int| 0 <= i < old(stack)@.len() ==> (#[trigger] old(stack)@[i]).0 < defs@.len(),
            forall|i: int| 0 <= i < next@.len() ==> (#[trigger] next@[i]).0 < defs@.len(),
            errors@.len() >= old(errors)@.len(),
            appended(old(errors)@, errors@),
            !ok ==> errors@.len() > old(errors)@.len(),
            ok ==> errors@ == old(errors)@,
            forall|i: int| 0 <= i < defs@.len() && old(done)@[i] ==> #[trigger] done@[i],
            forall|i: int| 0 <= i < defs@.len() && old(seen)@[i] ==> #[trigger] seen@[i],
            forall|i: int| 0 <= i < defs@.len() && old(seen)@[i] && !old(done)@[i] ==> !#[trigger] done@[i],
            seen@[id.0 as int],
            !done@[id.0 as int],
            !old(done)@[id.0 as int],
            next@ == contained_spec(defs@[id.0 as int], sums.view()),
            layout_path(defs@, sums.view(), old(stack)@),
            old(stack)@.len() > 0 ==> contained_spec(defs@[old(stack)@.last().0 as int], sums.view()).contains(id),
            lower == (edges_lower(defs@, sums.view()) && (forall|j: int| 0 <= j < id.0 ==> #[trigger] old(done)@[j])
                && (forall|j: int| 0 <= j < defs@.len() ==> #[trigger] old(seen)@[j] == old(done)@[j])),
        ensures
            ok ==> forall|i: int| 0 <= i < defs@.len() && #[trigger] done@[i] && !old(done)@[i] ==> !holds_itself(defs@, sums.view(), i),
            ok ==> forall|j: int| 0 <= j < next@.len() ==> (#[trigger] next@[j]) != id,
            lower ==> ok && done@ == old(done)@ && seen@ == old(seen)@.update(id.0 as int, true) && errors@ == old(errors)@,
            ok ==> forall|j: int| 0 <= j < defs@.len() && #[trigger] seen@[j] && !old(seen)@[j] && j != id.0 ==> done@[j],
            ok ==> done_closed(defs@, sums.view(), done@) && no_done_cycle(defs@, sums.view(), done@)
                && forall|j: int| 0 <= j < next@.len() ==> #[trigger] done@[next@[j].0 as int],
            !ok ==> errors@.len() == old(errors)@.len() + 1
                && cycle_reported_at(defs@, sums.view(), errors@, old(errors)@.len() as int),
        decreases next@.len() - k,
    {
        proof {
            lemma_count_true_len(seen@);
            assert forall|i: int| 0 <= i < stack@.len() implies (#[trigger] stack@[i]).0 < defs@.len() by {
                if i < old(stack)@.len() {
                    assert(stack@[i] == old(stack)@[i]);
                }
            }
            if lower {
                assert(contained_spec(defs@[id.0 as int], sums.view())[k as int].0 < id.0);
                assert(done@[next@[k as int].0 as int]);
            }
            assert(stack@.last() == id);
            assert(next@.contains(next@[k as int]));
            assert forall|j: int| 1 <= j < stack@.len() implies contained_spec(defs@[stack@[j - 1].0 as int], sums.view()).contains(#[trigger] stack@[j]) by {
                if j < old(stack)@.len() {
                    assert(stack@[j] == old(stack)@[j]);
                    assert(stack@[j - 1] == old(stack)@[j - 1]);
                } else {
                    assert(stack@[j - 1] == old(stack)@.last());
                }
            }
        }
        let ghost seen_before = seen@;
        let ghost done_before = done@;
        if !visit(next[k], defs, spans, sums, nb, seen, done, stack, errors) {
            ok = false;
            break;
        }
        proof {
            assert forall|j: int| 0 <= j < defs@.len() && #[trigger] seen@[j] && !done@[j] implies stack@.contains(TypeId(j as u32)) by {
                if !seen_before[j] {
                    assert(done@[j]);
                } else if done_before[j] {
                    assert(done@[j]);
                }
            }
            assert forall|j: int| 0 <= j < defs@.len() && #[trigger] seen@[j] && !old(seen)@[j] && j != id.0 implies done@[j] by {
                if seen_before[j] {
                    assert(done_before[j]);
                }
            }
            assert forall|j: int| 0 <= j < k + 1 implies #[trigger] done@[next@[j].0 as int] by {
                if j < k {
                    assert(done_before[next@[j].0 as int]);
                }
            }
        }
        k = k + 1;
    }
    stack.pop();
    proof {
        assert(stack@ =~= old(stack)@);
        if ok {
            lemma_finish(defs@, sums.view(), done@, id.0 as int);
        }
    }
    done.set(id.index(), true);
    ok
}

/// Rejects a by-value layout cycle, reporting the complete first one the
/// walk finds in declaration order.
fn reject_layout_cycles(defs: &Vec<TypeDef>, spans: &Vec<Span>, sums: &SumTable, nb: Ghost<nat>, errors: &mut Vec<Error>) -> (acyclic: bool)
    requires
        defs_ok(defs@, sums, nb@),
        spans@.len() == defs@.len(),
    ensures
        !acyclic ==> final(errors)@.len() > old(errors)@.len(),
        final(errors)@.len() >= old(errors)@.len(),
        appended(old(errors)@, final(errors)@),
        acyclic ==> final(errors)@ == old(errors)@,
        defs@.len() == 0 ==> acyclic,
        acyclic ==> forall|i: int| 0 <= i < defs@.len() ==> !#[trigger] holds_itself(defs@, sums.view(), i),
        edges_lower(defs@, sums.view()) ==> acyclic,
        !acyclic ==> final(errors)@.len() == old(errors)@.len() + 1
            && cycle_reported_at(defs@, sums.view(), final(errors)@, old(errors)@.len() as int),
        acyclic ==> forall|path: Seq<TypeId>| !#[trigger] layout_cycle(defs@, sums.view(), path),
{
    let mut seen: Vec<bool> = Vec::new();
    let mut done: Vec<bool> = Vec::new();
    let mut i: usize = 0;
    while i < defs.len()
        invariant
            i <= defs@.len(),
            seen@.len() == i,
            done@.len() == i,
            forall|j: int| 0 <= j < i ==> !#[trigger] done@[j],
            forall|j: int| 0 <= j < i ==> !#[trigger] seen@[j],
        decreases defs@.len() - i,
    {
        seen.push(false);
        done.push(false);
        i = i + 1;
    }
    let mut stack: Vec<TypeId> = Vec::new();
    let mut index: usize = 0;
    proof {
        assert forall|path: Seq<TypeId>| #[trigger] layout_cycle(defs@, sums.view(), path)
            implies exists|j: int| 0 <= j < path.len() && !done@[(#[trigger] path[j]).0 as int] by {
            assert(!done@[path[0].0 as int]);
        }
    }
    while index < defs.len()
        invariant
            defs_ok(defs@, sums, nb@),
            spans@.len() == defs@.len(),
            index <= defs@.len(),
            seen@.len() == defs@.len(),
            done@.len() == defs@.len(),
            stack@.len() == 0,
            errors@.len() >= old(errors)@.len(),
            appended(old(errors)@, errors@),
            errors@ == old(errors)@,
            forall|j: int| 0 <= j < defs@.len() && #[trigger] done@[j] ==> !holds_itself(defs@, sums.view(), j),
            forall|j: int| 0 <= j < index ==> #[trigger] done@[j],
            edges_lower(defs@, sums.view()) ==> forall|j: int| 0 <= j < defs@.len() ==> #[trigger] seen@[j] == done@[j],
            forall|j: int| 0 <= j < defs@.len() && #[trigger] seen@[j] ==> done@[j],
            done_closed(defs@, sums.view(), done@),
            no_done_cycle(defs@, sums.view(), done@),
        decreases defs@.len() - index,
    {
        if !visit(TypeId(index as u32), defs, spans, sums, nb, &mut seen, &mut done, &mut stack, errors) {
            return false;
        }
        index = index + 1;
    }
    proof {
        assert forall|i: int| 0 <= i < defs@.len() implies !#[trigger] holds_itself(defs@, sums.view(), i) by {
            assert(done@[i]);
        }
        assert forall|path: Seq<TypeId>| !#[trigger] layout_cycle(defs@, sums.view(), path) by {
            if layout_cycle(defs@, sums.view(), path) {
                let j = choose|j: int| 0 <= j < path.len() && !done@[(#[trigger] path[j]).0 as int];
                assert(done@[path[j].0 as int]);
            }
        }
    }
    true
}

/// Whether a definition supports `==`, given which types do: every field,
/// the representation, or every member must.
pub open spec fn def_eq_support(eq: Seq<bool>, sums: Seq<Seq<Ty>>, d: TypeDef) -> bool {
    match d {
        TypeDef::Represented { target, .. } => eq_support(eq, sums, target),
        TypeDef::Struct { fields, .. } => forall|k: int| 0 <= k < fields@.len() ==> eq_support(eq, sums, #[trigger] fields@[k].1),
        TypeDef::UnionMember { fields, .. } => forall|k: int| 0 <= k < fields@.len() ==> eq_support(eq, sums, #[trigger] fields@[k].1),
        TypeDef::Union { members, .. } => forall|k: int| 0 <= k < members@.len() ==> atom_eq(eq, Ty::User(#[trigger] members@[k])),
    }
}

/// Whether a definition is move-only, given which types are: any field, the
/// representation, or any member makes it so.
pub open spec fn def_move_support(mo: Seq<bool>, sums: Seq<Seq<Ty>>, d: TypeDef) -> bool {
    match d {
        TypeDef::Represented { target, .. } => move_support(mo, sums, target),
        TypeDef::Struct { fields, .. } => exists|k: int| 0 <= k < fields@.len() && move_support(mo, sums, #[trigger] fields@[k].1),
        TypeDef::UnionMember { fields, .. } => exists|k: int| 0 <= k < fields@.len() && move_support(mo, sums, #[trigger] fields@[k].1),
        TypeDef::Union { members, .. } => exists|k: int| 0 <= k < members@.len() && atom_move_only(mo, Ty::User(#[trigger] members@[k])),
    }
}

pub open spec fn le_bools(f: Seq<bool>, g: Seq<bool>) -> bool {
    f.len() == g.len() && forall|i: int| 0 <= i < f.len() ==> (#[trigger] f[i] ==> g[i])
}

/// `f` claims equality only where the definitions allow it.
pub open spec fn eq_post_fixed(f: Seq<bool>, defs: Seq<TypeDef>, sums: Seq<Seq<Ty>>) -> bool {
    f.len() == defs.len() && forall|i: int| 0 <= i < f.len() ==> (#[trigger] f[i] ==> def_eq_support(f, sums, defs[i]))
}

/// `f` claims move-only status wherever the definitions force it.
pub open spec fn move_pre_fixed(f: Seq<bool>, defs: Seq<TypeDef>, sums: Seq<Seq<Ty>>) -> bool {
    f.len() == defs.len() && forall|i: int| 0 <= i < f.len() ==> (def_move_support(f, sums, defs[i]) ==> #[trigger] f[i])
}

pub proof fn lemma_eq_monotone(f: Seq<bool>, g: Seq<bool>, sums: Seq<Seq<Ty>>, d: TypeDef)
    requires
        le_bools(f, g),
        def_eq_support(f, sums, d),
    ensures
        def_eq_support(g, sums, d),
{
    match d {
        TypeDef::Represented { target, .. } => {
            if let Ty::Sum(id) = target {
                assert forall|i: int| 0 <= i < sums[id.0 as int].len() implies atom_eq(g, #[trigger] sums[id.0 as int][i]) by {
                    assert(atom_eq(f, sums[id.0 as int][i]));
                }
            }
        }
        TypeDef::Struct { fields, .. } => {
            assert forall|k: int| 0 <= k < fields@.len() implies eq_support(g, sums, #[trigger] fields@[k].1) by {
                assert(eq_support(f, sums, fields@[k].1));
                if let Ty::Sum(id) = fields@[k].1 {
                    assert forall|i: int| 0 <= i < sums[id.0 as int].len() implies atom_eq(g, #[trigger] sums[id.0 as int][i]) by {
                        assert(atom_eq(f, sums[id.0 as int][i]));
                    }
                }
            }
        }
        TypeDef::UnionMember { fields, .. } => {
            assert forall|k: int| 0 <= k < fields@.len() implies eq_support(g, sums, #[trigger] fields@[k].1) by {
                assert(eq_support(f, sums, fields@[k].1));
                if let Ty::Sum(id) = fields@[k].1 {
                    assert forall|i: int| 0 <= i < sums[id.0 as int].len() implies atom_eq(g, #[trigger] sums[id.0 as int][i]) by {
                        assert(atom_eq(f, sums[id.0 as int][i]));
                    }
                }
            }
        }
        TypeDef::Union { members, .. } => {
            assert forall|k: int| 0 <= k < members@.len() implies atom_eq(g, Ty::User(#[trigger] members@[k])) by {
                assert(atom_eq(f, Ty::User(members@[k])));
            }
        }
    }
}

pub proof fn lemma_move_monotone(f: Seq<bool>, g: Seq<bool>, sums: Seq<Seq<Ty>>, d: TypeDef)
    requires
        le_bools(f, g),
        def_move_support(f, sums, d),
    ensures
        def_move_support(g, sums, d),
{
    match d {
        TypeDef::Represented { target, .. } => {
            if let Ty::Sum(id) = target {
                let i = choose|i: int| 0 <= i < sums[id.0 as int].len() && atom_move_only(f, #[trigger] sums[id.0 as int][i]);
                assert(atom_move_only(g, sums[id.0 as int][i]));
            }
        }
        TypeDef::Struct { fields, .. } => {
            let k = choose|k: int| 0 <= k < fields@.len() && move_support(f, sums, #[trigger] fields@[k].1);
            if let Ty::Sum(id) = fields@[k].1 {
                let i = choose|i: int| 0 <= i < sums[id.0 as int].len() && atom_move_only(f, #[trigger] sums[id.0 as int][i]);
                assert(atom_move_only(g, sums[id.0 as int][i]));
            }
            assert(move_support(g, sums, fields@[k].1));
        }
        TypeDef::UnionMember { fields, .. } => {
            let k = choose|k: int| 0 <= k < fields@.len() && move_support(f, sums, #[trigger] fields@[k].1);
            if let Ty::Sum(id) = fields@[k].1 {
                let i = choose|i: int| 0 <= i < sums[id.0 as int].len() && atom_move_only(f, #[trigger] sums[id.0 as int][i]);
                assert(atom_move_only(g, sums[id.0 as int][i]));
            }
            assert(move_support(g, sums, fields@[k].1));
        }
        TypeDef::Union { members, .. } => {
            let k = choose|k: int| 0 <= k < members@.len() && atom_move_only(f, Ty::User(#[trigger] members@[k]));
            assert(atom_move_only(g, Ty::User(members@[k])));
        }
    }
}

fn ty_eq_exec(eq: &Vec<bool>, sums: &SumTable, t: Ty) -> (r: bool)
    requires
        sums.wf(),
        t matches Ty::Sum(id) ==> id.0 < sums.view().len(),
    ensures
        r == eq_support(eq@, sums.view(), t),
{
    match t {
        Ty::Sum(id) => {
            let ms = sums.members(id);
            let mut k: usize = 0;
            while k < ms.len()
                invariant
                    k <= ms@.len(),
                    id.0 < sums.view().len(),
                    t == Ty::Sum(id),
                    ms@ == sums.view()[id.0 as int],
                    forall|j: int| 0 <= j < k ==> atom_eq(eq@, #[trigger] ms@[j]),
                decreases ms@.len() - k,
            {
                let ok = match ms[k] {
                    Ty::User(u) => u.index() < eq.len() && eq[u.index()],
                    Ty::Box(_) => false,
                    Ty::Sum(_) => false,
                    _ => true,
                };
                if !ok {
                    proof { assert(!atom_eq(eq@, sums.view()[id.0 as int][k as int])); }
                    return false;
                }
                k = k + 1;
            }
            true
        }
        Ty::User(u) => u.index() < eq.len() && eq[u.index()],
        Ty::Box(_) => false,
        _ => true,
    }
}

fn ty_move_exec(mo: &Vec<bool>, sums: &SumTable, t: Ty) -> (r: bool)
    requires
        sums.wf(),
        t matches Ty::Sum(id) ==> id.0 < sums.view().len(),
    ensures
        r == move_support(mo@, sums.view(), t),
{
    match t {
        Ty::Sum(id) => {
            let ms = sums.members(id);
            let mut k: usize = 0;
            while k < ms.len()
                invariant
                    k <= ms@.len(),
                    id.0 < sums.view().len(),
                    t == Ty::Sum(id),
                    ms@ == sums.view()[id.0 as int],
                    forall|j: int| 0 <= j < k ==> !atom_move_only(mo@, #[trigger] ms@[j]),
                decreases ms@.len() - k,
            {
                let yes = match ms[k] {
                    Ty::User(u) => u.index() < mo.len() && mo[u.index()],
                    Ty::Box(_) => true,
                    _ => false,
                };
                if yes {
                    proof {
                        assert(ms@[k as int] == sums.view()[id.0 as int][k as int]);
                        assert(atom_move_only(mo@, sums.view()[id.0 as int][k as int]));
                        assert(0 <= k < sums.view()[id.0 as int].len());
                        assert(move_support(mo@, sums.view(), Ty::Sum(id)));
                    }
                    return true;
                }
                k = k + 1;
            }
            false
        }
        Ty::User(u) => u.index() < mo.len() && mo[u.index()],
        Ty::Box(_) => true,
        _ => false,
    }
}

fn def_eq_exec(defs: &Vec<TypeDef>, i: usize, sums: &SumTable, nb: Ghost<nat>, eq: &Vec<bool>) -> (r: bool)
    requires
        defs_ok(defs@, sums, nb@),
        i < defs@.len(),
    ensures
        r == def_eq_support(eq@, sums.view(), defs@[i as int]),
{
    proof { assert(def_ok(defs@[i as int], defs@.len(), sums.view().len(), nb@)); }
    match &defs[i] {
        TypeDef::Represented { target, .. } => ty_eq_exec(eq, sums, *target),
        TypeDef::Struct { fields, .. } | TypeDef::UnionMember { fields, .. } => {
            let mut k: usize = 0;
            while k < fields.len()
                invariant
                    k <= fields@.len(),
                    sums.wf(),
                    forall|j: int| 0 <= j < fields@.len() ==> ty_ok(#[trigger] fields@[j].1, defs@.len(), sums.view().len(), nb@),
                    forall|j: int| 0 <= j < k ==> eq_support(eq@, sums.view(), #[trigger] fields@[j].1),
                    i < defs@.len(),
                    defs@[i as int].fields_of() == Some(fields@),
                decreases fields@.len() - k,
            {
                proof { assert(ty_ok(fields@[k as int].1, defs@.len(), sums.view().len(), nb@)); }
                if !ty_eq_exec(eq, sums, fields[k].1) {
                    return false;
                }
                k = k + 1;
            }
            true
        }
        TypeDef::Union { members, .. } => {
            let mut k: usize = 0;
            while k < members.len()
                invariant
                    k <= members@.len(),
                    forall|j: int| 0 <= j < k ==> atom_eq(eq@, Ty::User(#[trigger] members@[j])),
                    i < defs@.len(),
                    defs@[i as int] matches TypeDef::Union { members: ms, .. } && ms@ == members@,
                decreases members@.len() - k,
            {
                let u = members[k];
                if !(u.index() < eq.len() && eq[u.index()]) {
                    proof { assert(!atom_eq(eq@, Ty::User(members@[k as int]))); }
                    return false;
                }
                k = k + 1;
            }
            true
        }
    }
}

fn def_move_exec(defs: &Vec<TypeDef>, i: usize, sums: &SumTable, nb: Ghost<nat>, mo: &Vec<bool>) -> (r: bool)
    requires
        defs_ok(defs@, sums, nb@),
        i < defs@.len(),
    ensures
        r == def_move_support(mo@, sums.view(), defs@[i as int]),
{
    proof { assert(def_ok(defs@[i as int], defs@.len(), sums.view().len(), nb@)); }
    match &defs[i] {
        TypeDef::Represented { target, .. } => ty_move_exec(mo, sums, *target),
        TypeDef::Struct { fields, .. } | TypeDef::UnionMember { fields, .. } => {
            let mut k: usize = 0;
            while k < fields.len()
                invariant
                    k <= fields@.len(),
                    sums.wf(),
                    forall|j: int| 0 <= j < fields@.len() ==> ty_ok(#[trigger] fields@[j].1, defs@.len(), sums.view().len(), nb@),
                    forall|j: int| 0 <= j < k ==> !move_support(mo@, sums.view(), #[trigger] fields@[j].1),
                    i < defs@.len(),
                    defs@[i as int].fields_of() == Some(fields@),
                decreases fields@.len() - k,
            {
                proof { assert(ty_ok(fields@[k as int].1, defs@.len(), sums.view().len(), nb@)); }
                if ty_move_exec(mo, sums, fields[k].1) {
                    return true;
                }
                k = k + 1;
            }
            false
        }
        TypeDef::Union { members, .. } => {
            let mut k: usize = 0;
            while k < members.len()
                invariant
                    k <= members@.len(),
                    forall|j: int| 0 <= j < k ==> !atom_move_only(mo@, Ty::User(#[trigger] members@[j])),
                    i < defs@.len(),
                    defs@[i as int] matches TypeDef::Union { members: ms, .. } && ms@ == members@,
                decreases members@.len() - k,
            {
                let u = members[k];
                if u.index() < mo.len() && mo[u.index()] {
                    proof { assert(atom_move_only(mo@, Ty::User(members@[k as int]))); }
                    return true;
                }
                k = k + 1;
            }
            false
        }
    }
}

/// What every pass of the equality computation keeps: a type marked without
/// equality really lacks it, and no consistent assignment claims more.
pub open spec fn eq_inv(e: Seq<bool>, defs: Seq<TypeDef>, sums: Seq<Seq<Ty>>) -> bool {
    &&& e.len() == defs.len()
    &&& forall|i: int| 0 <= i < e.len() ==> (!#[trigger] e[i] ==> !def_eq_support(e, sums, defs[i]))
    &&& forall|f: Seq<bool>| #[trigger] eq_post_fixed(f, defs, sums) ==> le_bools(f, e)
}

/// One pass: every type still marked that no longer qualifies is unmarked.
fn eq_pass(defs: &Vec<TypeDef>, sums: &SumTable, nb: Ghost<nat>, eq: &mut Vec<bool>) -> (changed: bool)
    requires
        defs_ok(defs@, sums, nb@),
        eq_inv(old(eq)@, defs@, sums.view()),
    ensures
        eq_inv(final(eq)@, defs@, sums.view()),
        changed ==> count_true(final(eq)@) < count_true(old(eq)@),
        !changed ==> final(eq)@ == old(eq)@ && eq_post_fixed(final(eq)@, defs@, sums.view()),
{
    let mut changed = false;
    let mut i: usize = 0;
    while i < defs.len()
        invariant
            defs_ok(defs@, sums, nb@),
            i <= defs@.len(),
            eq_inv(eq@, defs@, sums.view()),
            changed ==> count_true(eq@) < count_true(old(eq)@),
            !changed ==> eq@ == old(eq)@,
            !changed ==> forall|j: int| 0 <= j < i ==> (#[trigger] eq@[j] ==> def_eq_support(eq@, sums.view(), defs@[j])),
        decreases defs@.len() - i,
    {
        if eq[i] && !def_eq_exec(defs, i, sums, nb, eq) {
            let ghost before = eq@;
            proof { lemma_count_true_update(before, i as int, false); }
            eq.set(i, false);
            proof {
                assert(eq@ == before.update(i as int, false));
                assert(le_bools(eq@, before));
                assert forall|j: int| 0 <= j < eq@.len() implies (!#[trigger] eq@[j] ==> !def_eq_support(eq@, sums.view(), defs@[j])) by {
                    if !eq@[j] && def_eq_support(eq@, sums.view(), defs@[j]) {
                        lemma_eq_monotone(eq@, before, sums.view(), defs@[j]);
                    }
                }
                assert forall|f: Seq<bool>| #[trigger] eq_post_fixed(f, defs@, sums.view()) implies le_bools(f, eq@) by {
                    assert(le_bools(f, before));
                    if f[i as int] {
                        lemma_eq_monotone(f, before, sums.view(), defs@[i as int]);
                    }
                }
            }
            changed = true;
        }
        i = i + 1;
    }
    changed
}

/// Which user types support `==`: the greatest assignment in which a type
/// supports it exactly when everything it contains by value does.
fn equality_support(defs: &Vec<TypeDef>, sums: &SumTable, nb: Ghost<nat>) -> (eq: Vec<bool>)
    requires
        defs_ok(defs@, sums, nb@),
    ensures
        eq@.len() == defs@.len(),
        forall|i: int| 0 <= i < eq@.len() ==> #[trigger] eq@[i] == def_eq_support(eq@, sums.view(), defs@[i]),
        forall|f: Seq<bool>| #[trigger] eq_post_fixed(f, defs@, sums.view()) ==> le_bools(f, eq@),
{
    let mut eq: Vec<bool> = Vec::new();
    let mut i: usize = 0;
    while i < defs.len()
        invariant
            i <= defs@.len(),
            eq@.len() == i,
            forall|j: int| 0 <= j < i ==> #[trigger] eq@[j],
        decreases defs@.len() - i,
    {
        eq.push(true);
        i = i + 1;
    }
    loop
        invariant
            defs_ok(defs@, sums, nb@),
            eq_inv(eq@, defs@, sums.view()),
        ensures
            eq_inv(eq@, defs@, sums.view()),
            eq_post_fixed(eq@, defs@, sums.view()),
        decreases count_true(eq@),
    {
        if !eq_pass(defs, sums, nb, &mut eq) {
            break;
        }
    }
    eq
}

/// What every pass of the move-only computation keeps: a type marked
/// move-only really is, and every consistent assignment marks at least as
/// much.
pub open spec fn move_inv(m: Seq<bool>, defs: Seq<TypeDef>, sums: Seq<Seq<Ty>>) -> bool {
    &&& m.len() == defs.len()
    &&& forall|i: int| 0 <= i < m.len() ==> (#[trigger] m[i] ==> def_move_support(m, sums, defs[i]))
    &&& forall|f: Seq<bool>| #[trigger] move_pre_fixed(f, defs, sums) ==> le_bools(m, f)
}

fn move_pass(defs: &Vec<TypeDef>, sums: &SumTable, nb: Ghost<nat>, mo: &mut Vec<bool>) -> (changed: bool)
    requires
        defs_ok(defs@, sums, nb@),
        move_inv(old(mo)@, defs@, sums.view()),
    ensures
        move_inv(final(mo)@, defs@, sums.view()),
        changed ==> count_true(final(mo)@) > count_true(old(mo)@),
        !changed ==> final(mo)@ == old(mo)@ && move_pre_fixed(final(mo)@, defs@, sums.view()),
{
    let mut changed = false;
    let mut i: usize = 0;
    while i < defs.len()
        invariant
            defs_ok(defs@, sums, nb@),
            i <= defs@.len(),
            move_inv(mo@, defs@, sums.view()),
            changed ==> count_true(mo@) > count_true(old(mo)@),
            !changed ==> mo@ == old(mo)@,
            !changed ==> forall|j: int| 0 <= j < i ==> (def_move_support(mo@, sums.view(), defs@[j]) ==> #[trigger] mo@[j]),
        decreases defs@.len() - i,
    {
        if !mo[i] && def_move_exec(defs, i, sums, nb, mo) {
            let ghost before = mo@;
            proof { lemma_count_true_update(before, i as int, true); }
            mo.set(i, true);
            proof {
                assert(mo@ == before.update(i as int, true));
                assert(le_bools(before, mo@));
                assert forall|j: int| 0 <= j < mo@.len() implies (#[trigger] mo@[j] ==> def_move_support(mo@, sums.view(), defs@[j])) by {
                    if mo@[j] {
                        lemma_move_monotone(before, mo@, sums.view(), defs@[j]);
                    }
                }
                assert forall|f: Seq<bool>| #[trigger] move_pre_fixed(f, defs@, sums.view()) implies le_bools(mo@, f) by {
                    assert(le_bools(before, f));
                    lemma_move_monotone(before, f, sums.view(), defs@[i as int]);
                }
            }
            changed = true;
        }
        i = i + 1;
    }
    changed
}

/// Which user types are move-only: the least assignment in which a type is
/// move-only exactly when something it contains by value is.
fn move_only_support(defs: &Vec<TypeDef>, sums: &SumTable, nb: Ghost<nat>) -> (mo: Vec<bool>)
    requires
        defs_ok(defs@, sums, nb@),
    ensures
        mo@.len() == defs@.len(),
        forall|i: int| 0 <= i < mo@.len() ==> #[trigger] mo@[i] == def_move_support(mo@, sums.view(), defs@[i]),
        forall|f: Seq<bool>| #[trigger] move_pre_fixed(f, defs@, sums.view()) ==> le_bools(mo@, f),
{
    let mut mo: Vec<bool> = Vec::new();
    let mut i: usize = 0;
    while i < defs.len()
        invariant
            i <= defs@.len(),
            mo@.len() == i,
            forall|j: int| 0 <= j < i ==> !#[trigger] mo@[j],
        decreases defs@.len() - i,
    {
        mo.push(false);
        i = i + 1;
    }
    proof { lemma_count_true_len(mo@); }
    loop
        invariant
            defs_ok(defs@, sums, nb@),
            move_inv(mo@, defs@, sums.view()),
        ensures
            move_inv(mo@, defs@, sums.view()),
            move_pre_fixed(mo@, defs@, sums.view()),
        decreases defs@.len() - count_true(mo@),
    {
        proof { lemma_count_true_len(mo@); }
        if !move_pass(defs, sums, nb, &mut mo) {
            break;
        }
        proof { lemma_count_true_len(mo@); }
    }
    mo
}

pub proof fn lemma_params_grow(ps: Seq<TParam>, nd: nat, ns: nat, nb: nat, ns2: nat, nb2: nat)
    requires
        params_ok(ps, nd, ns, nb),
        ns <= ns2,
        nb <= nb2,
    ensures
        params_ok(ps, nd, ns2, nb2),
{
    assert forall|i: int| 0 <= i < ps.len() implies ty_ok(#[trigger] ps[i].ty, nd, ns2, nb2) by {
        assert(ty_ok(ps[i].ty, nd, ns, nb));
    }
}

/// Resolves a parameter list; a parameter whose type fails to resolve takes
/// `Nil` after its error is reported.
fn resolve_params(b: &mut Builder, params: &Vec<Param>, errors: &mut Vec<Error>) -> (r: Vec<TParam>)
    requires
        old(b).wf(),
    ensures
        final(errors)@.len() >= old(errors)@.len(),
        appended(old(errors)@, final(errors)@),
        final(b).wf(),
        final(b).grows_from(old(b)),
        r@.len() == params@.len(),
        params_ok(r@, final(b).nd(), final(b).ns(), final(b).nb()),
        forall|i: int| 0 <= i < r@.len() ==> (#[trigger] r@[i]).name@ == params@[i].name@ && r@[i].mode == params@[i].mode,
        final(errors)@.len() == old(errors)@.len() && (forall|i: int| 0 <= i < params@.len() ==> names_written(#[trigger] params@[i].ty))
            ==> forall|i: int| 0 <= i < r@.len() ==> (#[trigger] r@[i]).ty != Ty::Nil,
{
    let ghost e_start = errors@.len();
    let ghost start = *b;
    let mut out: Vec<TParam> = Vec::new();
    let mut i: usize = 0;
    while i < params.len()
        invariant
            errors@.len() >= e_start,
            appended(old(errors)@, errors@),
            i <= params@.len(),
            b.wf(),
            b.grows_from(&start),
            out@.len() == i,
            params_ok(out@, b.nd(), b.ns(), b.nb()),
            forall|j: int| 0 <= j < i ==> (#[trigger] out@[j]).name@ == params@[j].name@ && out@[j].mode == params@[j].mode,
            errors@.len() == e_start && (forall|j: int| 0 <= j < params@.len() ==> names_written(#[trigger] params@[j].ty))
                ==> forall|j: int| 0 <= j < i ==> (#[trigger] out@[j]).ty != Ty::Nil,
        decreases params@.len() - i,
    {
        let ghost before = *b;
        let ty = match resolve(b, &params[i].ty, errors) {
            Some(t) => t,
            None => Ty::Nil,
        };
        proof { lemma_params_grow(out@, before.nd(), before.ns(), before.nb(), b.ns(), b.nb()); }
        out.push(TParam { name: params[i].name.clone(), ty, mode: params[i].mode });
        i = i + 1;
    }
    out
}

/// Whether every field type is valid in `b`.
pub(crate) open spec fn fields_valid(f: Seq<(String, Ty)>, b: &Builder) -> bool {
    forall|i: int| 0 <= i < f.len() ==> b.ok(#[trigger] f[i].1)
}

/// Resolves a field list, reporting a repeated field name.
/// No two fields share a name.
pub open spec fn field_names_distinct(fs: Seq<FieldDecl>) -> bool {
    forall|a: int, c: int| 0 <= a < c < fs.len() ==> (#[trigger] fs[a]).name@ != (#[trigger] fs[c]).name@
}

/// Every field's type resolves silently against the table.
pub open spec fn fields_silent(top: Seq<(String, TypeId)>, fs: Seq<FieldDecl>) -> bool {
    forall|k: int| 0 <= k < fs.len() ==> silent_field_type(top, (#[trigger] fs[k]).ty)
}

/// The field names in declaration order, each first occurrence only.
pub open spec fn kept_fields(fs: Seq<FieldDecl>) -> Seq<Seq<char>>
    decreases fs.len(),
{
    if fs.len() == 0 {
        Seq::empty()
    } else if kept_fields(fs.drop_last()).contains(fs.last().name@) {
        kept_fields(fs.drop_last())
    } else {
        kept_fields(fs.drop_last()).push(fs.last().name@)
    }
}

/// The names of resolved fields.
pub open spec fn field_names(fs: Seq<(String, Ty)>) -> Seq<Seq<char>> {
    fs.map_values(|f: (String, Ty)| f.0@)
}

/// Field `k` repeats the name of a field written before it.
pub open spec fn field_repeated(fs: Seq<FieldDecl>, k: int) -> bool {
    kept_fields(fs.subrange(0, k)).contains(fs[k].name@)
}

/// The diagnostic for a field name written twice in one record.
pub open spec fn field_exists_message(owner: Seq<char>, name: Seq<char>) -> Seq<char> {
    "Field '"@ + owner + "."@ + name + "' already exists"@
}

/// A message reported in a list stays reported when the list grows.
pub proof fn lemma_reported_kept(a: Seq<Error>, b: Seq<Error>, from: int, msg: Seq<char>)
    requires
        0 <= from,
        appended(a, b),
        crate::statements::reported(a, from, msg),
    ensures
        crate::statements::reported(b, from, msg),
{
    let w = choose|w: int| from <= w < a.len() && (#[trigger] a[w]).msg@ == msg;
    assert(b[w] == a[w]);
}

fn resolve_fields(b: &mut Builder, owner: &String, fields: &Vec<FieldDecl>, errors: &mut Vec<Error>) -> (r: Vec<(String, Ty)>)
    requires
        old(b).wf(),
    ensures
        final(errors)@.len() >= old(errors)@.len(),
        appended(old(errors)@, final(errors)@),
        final(b).wf(),
        final(b).grows_from(old(b)),
        fields_valid(r@, final(b)),
        field_names(r@) == kept_fields(fields@),
        kept_fields(fields@).len() < fields@.len() ==> final(errors)@.len() > old(errors)@.len(),
        forall|k: int| 0 <= k < fields@.len() && #[trigger] field_repeated(fields@, k)
            ==> crate::statements::reported(final(errors)@, old(errors)@.len() as int, field_exists_message(owner@, fields@[k].name@)),
        field_names_distinct(fields@) && fields_silent(old(b).top_level@, fields@) && old(b).nb() + fields@.len() < u32::MAX ==> {
            &&& final(errors)@ == old(errors)@
            &&& r@.len() == fields@.len()
            &&& forall|k: int| 0 <= k < fields@.len() ==> resolved_as((#[trigger] r@[k]).1, fields@[k].ty, old(b).top_level@)
            &&& final(b).nb() <= old(b).nb() + fields@.len()
        },
{
    let ghost e_start = errors@.len();
    let ghost start = *b;
    let mut out: Vec<(String, Ty)> = Vec::new();
    let mut i: usize = 0;
    proof { assert(fields@.subrange(0, 0) =~= Seq::<FieldDecl>::empty()); }
    while i < fields.len()
        invariant
            errors@.len() >= e_start,
            appended(old(errors)@, errors@),
            i <= fields@.len(),
            b.wf(),
            b.grows_from(&start),
            fields_valid(out@, b),
            field_names(out@) == kept_fields(fields@.subrange(0, i as int)),
            kept_fields(fields@.subrange(0, i as int)).len() <= i,
            kept_fields(fields@.subrange(0, i as int)).len() < i ==> errors@.len() > e_start,
            forall|k: int| 0 <= k < i && #[trigger] field_repeated(fields@, k)
                ==> crate::statements::reported(errors@, e_start as int, field_exists_message(owner@, fields@[k].name@)),
            e_start == old(errors)@.len(),
            field_names_distinct(fields@) && fields_silent(start.top_level@, fields@) && start.nb() + fields@.len() < u32::MAX ==> {
                &&& errors@ == old(errors)@
                &&& out@.len() == i
                &&& forall|k: int| 0 <= k < i ==> resolved_as((#[trigger] out@[k]).1, fields@[k].ty, start.top_level@)
                    && out@[k].0@ == fields@[k].name@
                &&& b.nb() <= start.nb() + i
            },
            start == *old(b),
        decreases fields@.len() - i,
    {
        let field = &fields[i];
        let ghost e_iter = errors@;
        proof {
            let pre = fields@.subrange(0, i + 1);
            assert(pre.drop_last() =~= fields@.subrange(0, i as int));
            assert(pre.last() == fields@[i as int]);
        }
        let mut repeated = false;
        let mut k: usize = 0;
        while k < out.len()
            invariant
                k <= out@.len(),
                repeated == exists|j: int| 0 <= j < k && (#[trigger] out@[j]).0@ == field.name@,
            decreases out@.len() - k,
        {
            if same(&out[k].0, &field.name) {
                repeated = true;
            }
            k = k + 1;
        }
        if repeated {
            let mut m = owned("Field '");
            push_string(&mut m, owner);
            push_char(&mut m, '.');
            push_string(&mut m, &field.name);
            push_str(&mut m, "' already exists");
            proof {
                reveal_strlit(".");
                assert("."@ =~= seq!['.']);
                assert(m@ =~= field_exists_message(owner@, field.name@));
            }
            error(errors, field.name_span, m);
            proof { assert(errors@[e_iter.len() as int].msg@ == field_exists_message(owner@, field.name@)); }
        } else {
            let ghost before = *b;
            proof {
                if field_names_distinct(fields@) && fields_silent(start.top_level@, fields@) && start.nb() + fields@.len() < u32::MAX {
                    assert(silent_field_type(start.top_level@, fields@[i as int].ty));
                }
            }
            let ty = match resolve(b, &field.ty, errors) {
                Some(t) => t,
                None => Ty::Nil,
            };
            proof {
                assert forall|j: int| 0 <= j < out@.len() implies b.ok(#[trigger] out@[j].1) by {
                    assert(before.ok(out@[j].1));
                }
            }
            out.push((field.name.clone(), ty));
        }
        proof {
            let pre = fields@.subrange(0, i + 1);
            let names0 = kept_fields(fields@.subrange(0, i as int));
            if repeated {
                let j = choose|j: int| 0 <= j < out@.len() && (#[trigger] out@[j]).0@ == field.name@;
                assert(field_names(out@)[j] == field.name@);
                assert(names0.contains(field.name@));
            } else {
                assert forall|j: int| 0 <= j < names0.len() implies names0[j] != field.name@ by {
                    assert(field_names(out@.drop_last())[j] == names0[j]);
                }
                assert(!names0.contains(field.name@));
                assert(field_names(out@) =~= names0.push(field.name@));
            }
            assert forall|k: int| 0 <= k < i + 1 && #[trigger] field_repeated(fields@, k)
                implies crate::statements::reported(errors@, e_start as int, field_exists_message(owner@, fields@[k].name@)) by {
                if k < i {
                    lemma_reported_kept(e_iter, errors@, e_start as int, field_exists_message(owner@, fields@[k].name@));
                } else {
                    assert(repeated);
                    assert(errors@[e_iter.len() as int].msg@ == field_exists_message(owner@, fields@[k].name@));
                }
            }
        }
        i = i + 1;
    }
    proof { assert(fields@.subrange(0, fields@.len() as int) =~= fields@); }
    out
}

/// Why a type may not cross a Rust bridge, if it may not, given how the
/// type is shown.
pub open spec fn bridge_refusal_text(shown: Seq<char>, ty: Ty) -> Option<Seq<char>> {
    match ty {
        Ty::User(_) => Some("'"@ + shown + "' is a user-defined type; only the ABI's permitted types may cross a Rust bridge"@),
        Ty::Sum(_) => Some("'"@ + shown
            + "' is an inline sum type; no inline sum may cross a Rust bridge, even when every member individually has a bridge representation"@),
        Ty::Box(_) => Some("'"@ + shown
            + "' is a box type; 'Box<T>' and every type transitively containing one are rejected in 'extern rust' parameters and results"@),
        _ => None,
    }
}

/// How `ty` is shown while declarations are being collected.
pub(crate) open spec fn builder_shown(b: &Builder, ty: Ty) -> Seq<char> {
    crate::types::disp(builder_names(b.defs@), b.sums.view(), b.boxes.view(), ty, b.boxes.view().len())
}

/// Why a type may not cross a Rust bridge, if it may not.
fn bridge_refusal(b: &Builder, ty: Ty) -> (r: Option<String>)
    ensures
        match bridge_refusal_text(builder_shown(b, ty), ty) {
            Some(t) => r matches Some(m) && m@ == t,
            None => r is None,
        },
{
    match ty {
        Ty::User(_) => {
            let mut m = owned("'");
            push_string(&mut m, &b.display(ty));
            push_str(&mut m, "' is a user-defined type; only the ABI's permitted types may cross a Rust bridge");
            proof { assert(m@ =~= bridge_refusal_text(builder_shown(b, ty), ty)->Some_0); }
            Some(m)
        }
        Ty::Sum(_) => {
            let mut m = owned("'");
            push_string(&mut m, &b.display(ty));
            push_str(&mut m, "' is an inline sum type; no inline sum may cross a Rust bridge, even when every member individually has a bridge representation");
            proof { assert(m@ =~= bridge_refusal_text(builder_shown(b, ty), ty)->Some_0); }
            Some(m)
        }
        Ty::Box(_) => {
            let mut m = owned("'");
            push_string(&mut m, &b.display(ty));
            push_str(&mut m, "' is a box type; 'Box<T>' and every type transitively containing one are rejected in 'extern rust' parameters and results");
            proof { assert(m@ =~= bridge_refusal_text(builder_shown(b, ty), ty)->Some_0); }
            Some(m)
        }
        _ => None,
    }
}

/// No user type, inline sum or box crosses a Rust bridge, and a bridge
/// reference never refers to `Nil`.
/// Whether a bridge signature passes: no parameter or result type is
/// refused, and no reference parameter refers to `Nil`.
pub(crate) open spec fn bridge_signature_ok(b: &Builder, params: Seq<TParam>, result: Option<Ty>) -> bool {
    &&& forall|k: int| 0 <= k < params.len() ==> bridge_refusal_text(builder_shown(b, (#[trigger] params[k]).ty), params[k].ty) is None
    &&& (result matches Some(t) ==> bridge_refusal_text(builder_shown(b, t), t) is None)
    &&& forall|k: int| 0 <= k < params.len() ==> !((#[trigger] params[k]).mode == ParamMode::Reference && params[k].ty == Ty::Nil)
}

fn reject_bridge_user_types(b: &Builder, params: &Vec<TParam>, result: Option<Ty>, span: Span, errors: &mut Vec<Error>)
    ensures
        final(errors)@.len() >= old(errors)@.len(),
        appended(old(errors)@, final(errors)@),
        forall|j: int| 0 <= j < old(errors)@.len() ==> #[trigger] final(errors)@[j] == old(errors)@[j],
        forall|j: int| old(errors)@.len() <= j < final(errors)@.len() ==> (#[trigger] final(errors)@[j]).span == span,
        (final(errors)@.len() == old(errors)@.len()) == bridge_signature_ok(b, params@, result),
{
    let ghost e0 = errors@;
    let mut i: usize = 0;
    while i < params.len()
        invariant
            errors@.len() >= old(errors)@.len(),
            appended(old(errors)@, errors@),
            e0 == old(errors)@,
            i <= params@.len(),
            forall|j: int| 0 <= j < e0.len() ==> #[trigger] errors@[j] == e0[j],
            forall|j: int| e0.len() <= j < errors@.len() ==> (#[trigger] errors@[j]).span == span,
            (errors@.len() == e0.len()) == forall|k: int| 0 <= k < i
                ==> bridge_refusal_text(builder_shown(b, (#[trigger] params@[k]).ty), params@[k].ty) is None,
        decreases params@.len() - i,
    {
        if let Some(m) = bridge_refusal(b, params[i].ty) {
            errors.push(Error { span, msg: m });
        }
        i = i + 1;
    }
    let ghost e1 = errors@.len();
    if let Some(ty) = result {
        if let Some(m) = bridge_refusal(b, ty) {
            errors.push(Error { span, msg: m });
        }
    }
    let ghost e2 = errors@.len();
    let mut k: usize = 0;
    while k < params.len()
        invariant
            errors@.len() >= old(errors)@.len(),
            appended(old(errors)@, errors@),
            e0 == old(errors)@,
            k <= params@.len(),
            errors@.len() >= e2,
            appended(old(errors)@, errors@),
            forall|j: int| 0 <= j < e0.len() ==> #[trigger] errors@[j] == e0[j],
            forall|j: int| e0.len() <= j < errors@.len() ==> (#[trigger] errors@[j]).span == span,
            (errors@.len() == e2) == forall|j: int| 0 <= j < k
                ==> !((#[trigger] params@[j]).mode == ParamMode::Reference && params@[j].ty == Ty::Nil),
        decreases params@.len() - k,
    {
        if params[k].mode == ParamMode::Reference && params[k].ty == Ty::Nil {
            let mut m = owned("'Ref<Nil>' cannot cross a Rust bridge; a bridge reference refers only to a permitted ABI scalar, and '");
            push_string(&mut m, &b.display(params[k].ty));
            push_str(&mut m, "' is not one");
            errors.push(Error { span, msg: m });
        }
        k = k + 1;
    }
}

/// Resolves a method's receiver path: `Type.method` or
/// `Union.Member.method`.
fn method_receiver(b: &Builder, decl: &MethodDecl, errors: &mut Vec<Error>) -> (r: Option<TypeId>)
    requires
        b.wf(),
    ensures
        final(errors)@.len() >= old(errors)@.len(),
        appended(old(errors)@, final(errors)@),
        r matches Some(id) ==> id.0 < b.nd() && decl.path@.len() >= 2,
        r is Some ==> final(errors)@ == old(errors)@,
        r is None ==> final(errors)@.len() == old(errors)@.len() + 1 && final(errors)@.drop_last() == old(errors)@,
        !(decl.path@.len() == 2 || decl.path@.len() == 3) ==> r is None,
        decl.path@.len() == 2 ==> (r matches Some(id) ==> exists|i: int| 0 <= i < b.top_level@.len()
            && (#[trigger] b.top_level@[i]).0@ == decl.path@[0].0@ && b.top_level@[i].1 == id),
        decl.path@.len() == 2 && (exists|i: int| 0 <= i < b.top_level@.len() && (#[trigger] b.top_level@[i]).0@ == decl.path@[0].0@)
            ==> r is Some,
        decl.path@.len() == 3 ==> (r matches Some(id) ==> exists|i: int| 0 <= i < b.members@.len()
            && (#[trigger] b.members@[i]).1@ == decl.path@[1].0@ && b.members@[i].2 == id),
{
    let n = decl.path.len();
    if n < 2 {
        error(errors, decl.span, owned("A method name is a receiver type followed by one method name"));
        return None;
    }
    let first = &decl.path[0].0;
    let root = match b.top(first) {
        Some(r) => r,
        None => {
            error(errors, decl.path[0].1, concat3("Unknown type '", first, "'"));
            return None;
        }
    };
    if n == 2 {
        Some(root)
    } else if n == 3 {
        let member = &decl.path[1].0;
        match b.member(root, member) {
            Some(id) => Some(id),
            None => {
                let mut m = owned("Unknown type '");
                push_string(&mut m, first);
                push_char(&mut m, '.');
                push_string(&mut m, member);
                push_char(&mut m, '\'');
                error(errors, decl.path[1].1, m);
                None
            }
        }
    } else {
        error(errors, decl.span, owned("A method receiver names a top-level type or one union member"));
        None
    }
}

/// Whether two definitions hold the same content.
pub open spec fn same_def(a: TypeDef, b: TypeDef) -> bool {
    match (a, b) {
        (TypeDef::Represented { name: x, target: t }, TypeDef::Represented { name: y, target: u }) => x@ == y@ && t == u,
        (TypeDef::Struct { name: x, fields: f }, TypeDef::Struct { name: y, fields: g }) => x@ == y@ && f@ == g@,
        (TypeDef::Union { name: x, members: m }, TypeDef::Union { name: y, members: n }) => x@ == y@ && m@ == n@,
        (TypeDef::UnionMember { name: x, union: u, tag: t, fields: f, nil: p },
         TypeDef::UnionMember { name: y, union: v, tag: w, fields: g, nil: q }) => x@ == y@ && u == v && t == w && f@ == g@ && p == q,
        _ => false,
    }
}

/// A finished definition with the same content.
pub(crate) fn clone_def(d: &TypeDef) -> (r: TypeDef)
    ensures
        same_def(r, *d),
{
    match d {
        TypeDef::Represented { name, target } => TypeDef::Represented { name: name.clone(), target: *target },
        TypeDef::Struct { name, fields } => TypeDef::Struct { name: name.clone(), fields: clone_fields(fields) },
        TypeDef::Union { name, members } => {
            let mut ms: Vec<TypeId> = Vec::new();
            let mut k: usize = 0;
            while k < members.len()
                invariant
                    k <= members@.len(),
                    ms@ == members@.subrange(0, k as int),
                decreases members@.len() - k,
            {
                ms.push(members[k]);
                k = k + 1;
            }
            proof { assert(ms@ =~= members@); }
            TypeDef::Union { name: name.clone(), members: ms }
        }
        TypeDef::UnionMember { name, union, tag, fields, nil } => TypeDef::UnionMember {
            name: name.clone(),
            union: *union,
            tag: *tag,
            fields: clone_fields(fields),
            nil: *nil,
        },
    }
}

pub(crate) fn clone_fields(f: &Vec<(String, Ty)>) -> (r: Vec<(String, Ty)>)
    ensures
        r@ == f@,
{
    let mut out: Vec<(String, Ty)> = Vec::new();
    let mut k: usize = 0;
    while k < f.len()
        invariant
            k <= f@.len(),
            out@ == f@.subrange(0, k as int),
        decreases f@.len() - k,
    {
        out.push((f[k].0.clone(), f[k].1));
        proof { assert(out@ =~= f@.subrange(0, (k + 1) as int)); }
        k = k + 1;
    }
    proof { assert(out@ =~= f@); }
    out
}

/// Validity survives growth of every table.
pub proof fn lemma_def_ok_grow_all(d: TypeDef, nd: nat, ns: nat, nb: nat, nd2: nat, ns2: nat, nb2: nat)
    requires
        def_ok(d, nd, ns, nb),
        nd <= nd2,
        ns <= ns2,
        nb <= nb2,
    ensures
        def_ok(d, nd2, ns2, nb2),
{
    match d {
        TypeDef::Struct { fields, .. } => {
            assert forall|k: int| 0 <= k < fields@.len() implies ty_ok(#[trigger] fields@[k].1, nd2, ns2, nb2) by {
                assert(ty_ok(fields@[k].1, nd, ns, nb));
            }
        }
        TypeDef::UnionMember { fields, .. } => {
            assert forall|k: int| 0 <= k < fields@.len() implies ty_ok(#[trigger] fields@[k].1, nd2, ns2, nb2) by {
                assert(ty_ok(fields@[k].1, nd, ns, nb));
            }
        }
        TypeDef::Union { members, .. } => {
            assert forall|k: int| 0 <= k < members@.len() implies (#[trigger] members@[k]).0 < nd2 by {
                assert(members@[k].0 < nd);
            }
        }
        _ => {}
    }
}

impl Builder {
    /// Only grew: no table got smaller.
    pub(crate) open spec fn larger(&self, old: &Builder) -> bool {
        &&& self.nd() >= old.nd()
        &&& self.ns() >= old.ns()
        &&& self.nb() >= old.nb()
    }

    /// A new entry, named at top level when `top` holds the name, or as
    /// member `member.1` of union `member.0` otherwise.
    fn allocate(&mut self, name: &String, member_of: Option<TypeId>, span: Span) -> (r: Option<TypeId>)
        requires
            old(self).wf(),
            member_of matches Some(u) ==> u.0 < old(self).nd(),
        ensures
            final(self).wf(),
            final(self).larger(old(self)),
            r matches Some(id) ==> id.0 < final(self).nd(),
            r is None <==> old(self).nd() >= u32::MAX,
            r is None ==> *final(self) == *old(self),
            r matches Some(id) ==> {
                &&& id.0 == old(self).nd()
                &&& final(self).defs@ == old(self).defs@.push(None)
                &&& final(self).spans@ == old(self).spans@.push(span)
                &&& final(self).sums == old(self).sums
                &&& final(self).boxes == old(self).boxes
                &&& match member_of {
                    None => final(self).top_level@ == old(self).top_level@.push((*name, id))
                        && final(self).members@ == old(self).members@,
                    Some(u) => final(self).members@ == old(self).members@.push((u, *name, id))
                        && final(self).top_level@ == old(self).top_level@,
                }
            },
    {
        if self.defs.len() >= 0xffff_ffff {
            return None;
        }
        let ghost before = *self;
        let id = TypeId(self.defs.len() as u32);
        self.defs.push(None);
        self.spans.push(span);
        match member_of {
            None => self.top_level.push((name.clone(), id)),
            Some(u) => self.members.push((u, name.clone(), id)),
        }
        proof {
            assert forall|i: int| 0 <= i < self.nd() implies (#[trigger] self.defs@[i] matches Some(d) ==> def_ok(d, self.nd(), self.ns(), self.nb())) by {
                if i < before.nd() {
                    assert(self.defs@[i] == before.defs@[i]);
                    if let Some(d) = before.defs@[i] {
                        lemma_def_ok_grow_all(d, before.nd(), before.ns(), before.nb(), self.nd(), self.ns(), self.nb());
                    }
                }
            }
            assert forall|i: int, j: int| 0 <= i < self.ns() && 0 <= j < self.sums.view()[i].len()
                implies self.ok(#[trigger] self.sums.view()[i][j]) by {
                assert(before.ok(before.sums.view()[i][j]));
            }
            assert forall|i: int| 0 <= i < self.nb() implies self.ok(#[trigger] self.boxes.view()[i])
                && boxes_below(self.boxes.view()[i], self.sums.view(), i as nat) by {
                assert(before.ok(before.boxes.view()[i]));
            }
            assert forall|i: int| 0 <= i < self.top_level@.len() implies (#[trigger] self.top_level@[i]).1.0 < self.nd() by {
                if i < before.top_level@.len() {
                    assert(self.top_level@[i] == before.top_level@[i]);
                }
            }
            assert forall|i: int| 0 <= i < self.members@.len() implies (#[trigger] self.members@[i]).0.0 < self.nd()
                && self.members@[i].2.0 < self.nd() by {
                if i < before.members@.len() {
                    assert(self.members@[i] == before.members@[i]);
                }
            }
        }
        Some(id)
    }

    /// Installs a resolved definition.
    fn install(&mut self, id: TypeId, def: TypeDef)
        requires
            old(self).wf(),
            id.0 < old(self).nd(),
            def_ok(def, old(self).nd(), old(self).ns(), old(self).nb()),
        ensures
            final(self).wf(),
            final(self).nd() == old(self).nd(),
            final(self).ns() == old(self).ns(),
            final(self).nb() == old(self).nb(),
            final(self).defs@ == old(self).defs@.update(id.0 as int, Some(def)),
            final(self).spans == old(self).spans,
            final(self).top_level == old(self).top_level,
            final(self).members == old(self).members,
            final(self).sums == old(self).sums,
            final(self).boxes == old(self).boxes,
    {
        self.defs.set(id.index(), Some(def));
    }
}

pub(crate) open spec fn ids_valid(ids: Seq<Option<TypeId>>, nd: nat) -> bool {
    forall|i: int| 0 <= i < ids.len() ==> (#[trigger] ids[i] matches Some(id) ==> id.0 < nd)
}

/// A definition has the declaration's name and kind; a struct keeps the
/// first field of each name, in order.
pub open spec fn def_matches_decl(d: TypeDef, decl: TypeDecl) -> bool {
    &&& d.name_of() == decl.name@
    &&& match decl.body {
        TypeBody::Represented(_) => d is Represented,
        TypeBody::Struct(fs) => d matches TypeDef::Struct { fields, .. } && field_names(fields@) == kept_fields(fs@),
        TypeBody::Union(_) => d is Union,
    }
}

/// Declaration `i` has identity `i`, and every union member an identity
/// after all the declarations.
pub open spec fn fresh_ids(ids: Seq<Option<TypeId>>, member_ids: Seq<Vec<Option<TypeId>>>) -> bool {
    &&& ids.len() < u32::MAX
    &&& forall|i: int| 0 <= i < ids.len() ==> #[trigger] ids[i] == Some(TypeId(i as u32))
    &&& forall|i: int, k: int| 0 <= i < member_ids.len() && 0 <= k < member_ids[i]@.len() && (#[trigger] member_ids[i]@[k]) is Some
        ==> member_ids[i]@[k]->Some_0.0 >= ids.len()
}

/// A function or bridge has this name.
pub open spec fn callable_named(program: &Program, name: Seq<char>) -> bool {
    ||| exists|j: int| 0 <= j < program.funcs@.len() && (#[trigger] program.funcs@[j]).name@ == name
    ||| exists|j: int| 0 <= j < program.externs@.len() && (#[trigger] program.externs@[j]).name@ == name
}

/// Diagnostic `k` reports that the type shares its name with a callable.
pub open spec fn head_clash_at(errors: Seq<Error>, k: int, decl: TypeDecl) -> bool {
    &&& errors[k].span == decl.name_span
    &&& errors[k].msg@ == "Type '"@ + decl.name@ + "' shares a call head with the function or Rust bridge of the same name"@
}

/// Some diagnostic from position `from` on reports the name clash.
pub open spec fn head_clash_reported(from: int, errors: Seq<Error>, decl: TypeDecl) -> bool {
    exists|k: int| from <= k < errors.len() && head_clash_at(errors, k, decl)
}

/// A program that declares no type, function, bridge or method.
/// The program declares records only, each naming declared types, and no
/// function, bridge or method.
pub open spec fn declared_records_only(program: &Program) -> bool {
    &&& records_declared(program.types@)
    &&& program.funcs@.len() == 0
    &&& program.externs@.len() == 0
    &&& program.methods@.len() == 0
}

/// The program declares record types only, in the order `ordered_records`
/// asks for, and no function, bridge or method.
pub open spec fn records_only(program: &Program) -> bool {
    &&& ordered_records(program.types@)
    &&& program.funcs@.len() == 0
    &&& program.externs@.len() == 0
    &&& program.methods@.len() == 0
}

pub open spec fn no_declarations(program: &Program) -> bool {
    &&& program.types@.len() == 0
    &&& program.funcs@.len() == 0
    &&& program.externs@.len() == 0
    &&& program.methods@.len() == 0
}

/// A type that may cross a Rust bridge: no user type, inline sum or box.
pub open spec fn bridge_scalar(t: Ty) -> bool {
    !(t is User || t is Sum || t is Box)
}

/// Every parameter and the result may cross a Rust bridge, and no reference
/// parameter refers to `Nil`.
pub open spec fn bridge_shapes_scalar(ps: Seq<(ParamMode, Ty)>, result: Option<Ty>) -> bool {
    &&& forall|k: int| 0 <= k < ps.len() ==> bridge_scalar((#[trigger] ps[k]).1) && !(ps[k].0 == ParamMode::Reference && ps[k].1 == Ty::Nil)
    &&& (result matches Some(t) ==> bridge_scalar(t))
}

/// Every type a bridge writes names something: no qualified name without a
/// segment.
pub open spec fn bridge_types_written(program: &Program) -> bool {
    forall|j: int| 0 <= j < program.externs@.len() ==> {
        &&& forall|k: int| 0 <= k < (#[trigger] program.externs@[j]).args@.len() ==> names_written(#[trigger] program.externs@[j].args@[k].ty)
        &&& (program.externs@[j].ret matches Some(t) ==> names_written(t))
    }
}

/// No bridge parameter or result is `Nil`.
pub open spec fn bridges_not_nil(sigs: Seq<(String, FuncSig)>, program: &Program) -> bool {
    forall|j: int| 0 <= j < program.externs@.len() ==> {
        &&& forall|k: int| 0 <= k < (#[trigger] sigs[program.funcs@.len() + j]).1.params@.len()
            ==> #[trigger] sigs[program.funcs@.len() + j].1.params@[k].ty != Ty::Nil
        &&& sigs[program.funcs@.len() + j].1.result != Some(Ty::Nil)
    }
}

/// Every bridge's resolved signature may cross a Rust bridge.
pub open spec fn bridges_scalar(sigs: Seq<(String, FuncSig)>, program: &Program) -> bool {
    forall|j: int| 0 <= j < program.externs@.len() ==> bridge_shapes_scalar(
        crate::expressions::param_shapes((#[trigger] sigs[program.funcs@.len() + j]).1.params@), sigs[program.funcs@.len() + j].1.result)
}

/// How many union members the first `i` declarations declare.
pub open spec fn members_before(types: Seq<TypeDecl>, i: int) -> nat
    decreases i,
{
    if i <= 0 {
        0
    } else {
        members_before(types, i - 1) + match types[i - 1].body {
            TypeBody::Union(ms) => ms@.len(),
            _ => 0nat,
        }
    }
}

/// The members table holds `(union j, name, id)`.
pub open spec fn member_entry(members: Seq<(TypeId, String, TypeId)>, j: int, name: Seq<char>, id: TypeId) -> bool {
    exists|e: int| 0 <= e < members.len() && (#[trigger] members[e]).0 == TypeId(j as u32) && members[e].1@ == name
        && members[e].2 == id
}

/// Every member of the first `i` unions is in the members table under its
/// union, with its identity.
pub open spec fn members_recorded(members: Seq<(TypeId, String, TypeId)>, member_ids: Seq<Vec<Option<TypeId>>>,
    types: Seq<TypeDecl>, i: int) -> bool {
    forall|j: int, k: int| 0 <= j < i && types[j].body is Union && 0 <= k < types[j].body->Union_0@.len()
        ==> member_entry(members, j, types[j].body->Union_0@[k].name@, (#[trigger] member_ids[j]@[k])->Some_0)
}

/// The member of union declaration `j` at position `k` is installed at its
/// identity, named `Union.Member`, with its union and its tag.
pub open spec fn member_installed(defs: Seq<Option<TypeDef>>, types: Seq<TypeDecl>, j: int, k: int) -> bool {
    let x = types.len() + members_before(types, j) + k;
    &&& 0 <= x < defs.len()
    &&& defs[x] matches Some(TypeDef::UnionMember { name, union, tag, .. })
    &&& name@ == types[j].name@ + "."@ + types[j].body->Union_0@[k].name@
    &&& union == TypeId(j as u32)
    &&& tag == k as u32
}

/// Union declaration `j` is installed at its identity with its members in
/// source order, each installed as a member.
pub open spec fn union_installed(defs: Seq<Option<TypeDef>>, types: Seq<TypeDecl>, j: int) -> bool {
    &&& 0 <= j < defs.len()
    &&& defs[j] matches Some(TypeDef::Union { members, .. })
    &&& members@.len() == types[j].body->Union_0@.len()
    &&& forall|k: int| 0 <= k < members@.len() ==> #[trigger] members@[k] == TypeId((types.len() + members_before(types, j) + k) as u32)
    &&& forall|k: int| 0 <= k < types[j].body->Union_0@.len() ==> #[trigger] member_installed(defs, types, j, k)
}

/// In a finished table, the member of union declaration `j` at position `k`
/// sits at its identity, named `Union.Member`, with its union and its tag.
pub open spec fn member_laid_out(defs: Seq<TypeDef>, types: Seq<TypeDecl>, j: int, k: int) -> bool {
    let x = types.len() + members_before(types, j) + k;
    &&& 0 <= x < defs.len()
    &&& defs[x] matches TypeDef::UnionMember { name, union, tag, .. }
    &&& name@ == types[j].name@ + "."@ + types[j].body->Union_0@[k].name@
    &&& union == TypeId(j as u32)
    &&& tag == k as u32
}

/// In a finished table, union declaration `j` lists its members in source
/// order, numbered after all declarations, each laid out as a member.
pub open spec fn union_laid_out(defs: Seq<TypeDef>, types: Seq<TypeDecl>, j: int) -> bool {
    &&& 0 <= j < defs.len()
    &&& defs[j] matches TypeDef::Union { members, .. }
    &&& members@.len() == types[j].body->Union_0@.len()
    &&& forall|k: int| 0 <= k < members@.len() ==> #[trigger] members@[k] == TypeId((types.len() + members_before(types, j) + k) as u32)
    &&& forall|k: int| 0 <= k < types[j].body->Union_0@.len() ==> #[trigger] member_laid_out(defs, types, j, k)
}

/// Declaration `i` has identity `i` and union members are numbered after all
/// declarations, union by union in source order.
pub open spec fn sequential_ids(ids: Seq<Option<TypeId>>, member_ids: Seq<Vec<Option<TypeId>>>, types: Seq<TypeDecl>) -> bool {
    &&& fresh_ids(ids, member_ids)
    &&& ids.len() == types.len()
    &&& member_ids.len() == types.len()
    &&& types.len() + members_before(types, types.len() as int) < u32::MAX
    &&& forall|j: int, k: int| 0 <= j < types.len() && types[j].body is Union && 0 <= k < types[j].body->Union_0@.len()
        ==> #[trigger] member_ids[j]@[k] == Some(TypeId((types.len() + members_before(types, j) + k) as u32))
}

/// Installing at an index outside a union's own entries keeps it installed.
proof fn lemma_union_installed_frame(d1: Seq<Option<TypeDef>>, d2: Seq<Option<TypeDef>>, types: Seq<TypeDecl>, j: int, x: int,
    v: Option<TypeDef>)
    requires
        union_installed(d1, types, j),
        0 <= x < d1.len(),
        d2 == d1.update(x, v),
        x != j,
        x < types.len() + members_before(types, j) || x >= types.len() + members_before(types, j) + types[j].body->Union_0@.len(),
    ensures
        union_installed(d2, types, j),
{
    assert forall|k: int| 0 <= k < types[j].body->Union_0@.len() implies #[trigger] member_installed(d2, types, j, k) by {
        assert(member_installed(d1, types, j, k));
    }
}

/// A union's members come right after those of the unions before it.
proof fn lemma_members_before_next(types: Seq<TypeDecl>, j: int)
    requires
        0 <= j < types.len(),
    ensures
        members_before(types, j + 1) == members_before(types, j) + match types[j].body {
            TypeBody::Union(ms) => ms@.len(),
            _ => 0nat,
        },
{
}

/// Within each union, no two members share a name.
pub open spec fn union_members_distinct(types: Seq<TypeDecl>) -> bool {
    forall|i: int, a: int, b: int| 0 <= i < types.len() && types[i].body is Union && 0 <= a < b < types[i].body->Union_0@.len()
        ==> (#[trigger] types[i].body->Union_0@[a]).name@ != (#[trigger] types[i].body->Union_0@[b]).name@
}

/// Declarations with distinct names and distinct member names, few enough
/// that every one gets an identity.
pub open spec fn declarations_fit(types: Seq<TypeDecl>) -> bool {
    &&& type_names_distinct(types)
    &&& union_members_distinct(types)
    &&& types.len() + members_before(types, types.len() as int) < u32::MAX
}

/// `members_before` only grows.
proof fn lemma_members_before_mono(types: Seq<TypeDecl>, i: int, j: int)
    requires
        0 <= i <= j <= types.len(),
    ensures
        members_before(types, i) <= members_before(types, j),
    decreases j - i,
{
    if i < j {
        lemma_members_before_mono(types, i, j - 1);
    }
}

/// A record field type that needs no diagnostic and holds by value only
/// earlier declarations: a built-in type other than `Nil`, the name of an
/// earlier declaration, or a box of a built-in type or of any declared name.
pub open spec fn plain_field(ty: TypeRef, types: Seq<TypeDecl>, i: int) -> bool {
    match ty {
        TypeRef::Builtin(n, _) => n != TypeName::Nil,
        TypeRef::Named(segs, _) => segs@.len() == 1 && exists|j: int| 0 <= j < i && (#[trigger] types[j]).name@ == segs@[0].0@,
        TypeRef::Box(inner, _) => match *inner {
            TypeRef::Builtin(n, _) => n != TypeName::Nil,
            TypeRef::Named(segs, _) => segs@.len() == 1
                && exists|j: int| 0 <= j < types.len() && (#[trigger] types[j]).name@ == segs@[0].0@,
            _ => false,
        },
        _ => false,
    }
}

/// How many fields the first `i` record declarations declare.
pub open spec fn fields_before(types: Seq<TypeDecl>, i: int) -> nat
    decreases i,
{
    if i <= 0 {
        0
    } else {
        fields_before(types, i - 1) + match types[i - 1].body {
            TypeBody::Struct(fs) => fs@.len(),
            _ => 0nat,
        }
    }
}

/// `fields_before` only grows.
proof fn lemma_fields_before_mono(types: Seq<TypeDecl>, i: int, j: int)
    requires
        0 <= i <= j <= types.len(),
    ensures
        fields_before(types, i) <= fields_before(types, j),
    decreases j - i,
{
    if i < j {
        lemma_fields_before_mono(types, i, j - 1);
    }
}

/// Record declarations only, with distinct names and distinct field names,
/// each holding by value only built-in types and earlier declarations.
/// Record declarations only, with distinct names and distinct field names,
/// each field a built-in type other than `Nil`, a declared name, or a box of
/// either.
pub open spec fn records_declared(types: Seq<TypeDecl>) -> bool {
    &&& type_names_distinct(types)
    &&& types.len() + fields_before(types, types.len() as int) < u32::MAX
    &&& forall|i: int| 0 <= i < types.len() ==> (#[trigger] types[i]).body is Struct
        && field_names_distinct(types[i].body->Struct_0@)
        && forall|k: int| 0 <= k < types[i].body->Struct_0@.len()
            ==> plain_field((#[trigger] types[i].body->Struct_0@[k]).ty, types, types.len() as int)
}

/// Ordered records are declared records.
proof fn lemma_ordered_records_declared(types: Seq<TypeDecl>)
    requires
        ordered_records(types),
    ensures
        records_declared(types),
{
    assert forall|i: int, k: int| 0 <= i < types.len() && 0 <= k < types[i].body->Struct_0@.len()
        implies plain_field((#[trigger] types[i].body->Struct_0@[k]).ty, types, types.len() as int) by {
        let ty = types[i].body->Struct_0@[k].ty;
        assert(plain_field(ty, types, i));
        if let TypeRef::Named(segs, _) = ty {
            let j = choose|j: int| 0 <= j < i && (#[trigger] types[j]).name@ == segs@[0].0@;
            assert(types[j].name@ == segs@[0].0@);
        }
    }
}

pub open spec fn ordered_records(types: Seq<TypeDecl>) -> bool {
    &&& type_names_distinct(types)
    &&& types.len() + fields_before(types, types.len() as int) < u32::MAX
    &&& forall|i: int| 0 <= i < types.len() ==> (#[trigger] types[i]).body is Struct
        && field_names_distinct(types[i].body->Struct_0@)
        && forall|k: int| 0 <= k < types[i].body->Struct_0@.len() ==> plain_field((#[trigger] types[i].body->Struct_0@[k]).ty, types, i)
}

/// A record's resolved fields: one per written field, each resolved as
/// written.
pub open spec fn record_resolved(d: Option<TypeDef>, decl: TypeDecl, top: Seq<(String, TypeId)>) -> bool {
    d matches Some(TypeDef::Struct { fields, .. }) && fields@.len() == decl.body->Struct_0@.len()
        && forall|k: int| 0 <= k < fields@.len() ==> resolved_as((#[trigger] fields@[k]).1, decl.body->Struct_0@[k].ty, top)
}

/// A plain field type resolves silently against an in-order table.
proof fn lemma_plain_is_silent(ty: TypeRef, types: Seq<TypeDecl>, i: int, top: Seq<(String, TypeId)>)
    requires
        plain_field(ty, types, i),
        top_level_in_order(top, types),
        i <= types.len(),
    ensures
        silent_field_type(top, ty),
{
    match ty {
        TypeRef::Named(segs, _) => {
            let j = choose|j: int| 0 <= j < i && (#[trigger] types[j]).name@ == segs@[0].0@;
            assert(top[j].0@ == segs@[0].0@);
        }
        TypeRef::Box(inner, _) => {
            if let TypeRef::Named(segs, _) = *inner {
                let j = choose|j: int| 0 <= j < types.len() && (#[trigger] types[j]).name@ == segs@[0].0@;
                assert(top[j].0@ == segs@[0].0@);
            }
        }
        _ => {}
    }
}

/// Fields that each reach by value at most a user type below `bound`
/// reach only types below it.
proof fn lemma_field_edges_below(fields: Seq<(String, Ty)>, sums: Seq<Seq<Ty>>, bound: int)
    requires
        forall|k: int| 0 <= k < fields.len() ==> match (#[trigger] fields[k]).1 {
            Ty::User(u) => u.0 < bound,
            Ty::Sum(_) => false,
            _ => true,
        },
    ensures
        forall|m: int| 0 <= m < field_edges(fields, sums).len() ==> (#[trigger] field_edges(fields, sums)[m]).0 < bound,
    decreases fields.len(),
{
    if fields.len() > 0 {
        let rest = fields.drop_last();
        assert forall|k: int| 0 <= k < rest.len() implies match (#[trigger] rest[k]).1 {
            Ty::User(u) => u.0 < bound,
            Ty::Sum(_) => false,
            _ => true,
        } by {
            assert(rest[k] == fields[k]);
        }
        lemma_field_edges_below(rest, sums, bound);
        let last = fields[fields.len() - 1];
        assert(fields.last() == last);
        let tail = edges_of(last.1, sums);
        assert(forall|m: int| 0 <= m < tail.len() ==> (#[trigger] tail[m]).0 < bound);
        let all = field_edges(fields, sums);
        assert(all == field_edges(rest, sums) + tail);
        assert forall|m: int| 0 <= m < all.len() implies (#[trigger] all[m]).0 < bound by {
            if m < field_edges(rest, sums).len() {
                assert(all[m] == field_edges(rest, sums)[m]);
            } else {
                assert(all[m] == tail[m - field_edges(rest, sums).len()]);
            }
        }
    }
}

/// Ordered records, resolved against an in-order table, hold by value only
/// earlier definitions.
proof fn lemma_records_lower(defs: Seq<TypeDef>, sums: Seq<Seq<Ty>>, types: Seq<TypeDecl>, top: Seq<(String, TypeId)>)
    requires
        ordered_records(types),
        top_level_in_order(top, types),
        defs.len() == types.len(),
        forall|i: int| 0 <= i < defs.len() ==> record_resolved(Some(#[trigger] defs[i]), types[i], top),
    ensures
        edges_lower(defs, sums),
{
    assert forall|i: int, m: int| 0 <= i < defs.len() && 0 <= m < contained_spec(defs[i], sums).len()
        implies (#[trigger] contained_spec(defs[i], sums)[m]).0 < i by {
        assert(record_resolved(Some(defs[i]), types[i], top));
        let fields = defs[i]->Struct_fields@;
        let written = types[i].body->Struct_0@;
        assert forall|k: int| 0 <= k < fields.len() implies match (#[trigger] fields[k]).1 {
            Ty::User(u) => u.0 < i,
            Ty::Sum(_) => false,
            _ => true,
        } by {
            assert(resolved_as(fields[k].1, written[k].ty, top));
            assert(plain_field(written[k].ty, types, i));
            if let TypeRef::Named(segs, _) = written[k].ty {
                let j = choose|j: int| 0 <= j < i && (#[trigger] types[j]).name@ == segs@[0].0@;
                let e = choose|e: int| 0 <= e < top.len() && (#[trigger] top[e]).0@ == segs@[0].0@ && top[e].1 == fields[k].1->User_0;
                assert(top[e].0@ == types[e].name@);
                if e != j {
                    if e < j {
                        assert(types[e].name@ != types[j].name@);
                    } else {
                        assert(types[j].name@ != types[e].name@);
                    }
                }
            }
        }
        lemma_field_edges_below(fields, sums, i);
    }
}

/// No two type declarations share a name.
pub open spec fn type_names_distinct(types: Seq<TypeDecl>) -> bool {
    forall|i: int, j: int| 0 <= i < j < types.len() ==> (#[trigger] types[i]).name@ != (#[trigger] types[j]).name@
}

/// The top-level table names declaration `i` with `TypeId(i)`, in source
/// order.
pub open spec fn top_level_in_order(top: Seq<(String, TypeId)>, types: Seq<TypeDecl>) -> bool {
    &&& top.len() == types.len()
    &&& forall|i: int| 0 <= i < types.len() ==> (#[trigger] top[i]).0@ == types[i].name@ && top[i].1 == TypeId(i as u32)
}

/// Every top-level type name gets an identity, in source order; a repeated
/// name is reported and gets none.
fn allocate_types(b: &mut Builder, program: &Program, errors: &mut Vec<Error>) -> (ids: Vec<Option<TypeId>>)
    requires
        old(b).wf(),
    ensures
        final(errors)@.len() >= old(errors)@.len(),
        appended(old(errors)@, final(errors)@),
        final(b).wf(),
        final(b).larger(old(b)),
        ids@.len() == program.types@.len(),
        ids_valid(ids@, final(b).nd()),
        final(b).members@ == old(b).members@,
        final(b).boxes == old(b).boxes,
        program.types@.len() == 0 ==> final(errors)@ == old(errors)@ && *final(b) == *old(b),
        old(b).nd() == 0 && old(b).top_level@.len() == 0 && type_names_distinct(program.types@)
            && program.types@.len() < u32::MAX ==> {
            &&& final(b).nd() == program.types@.len()
            &&& top_level_in_order(final(b).top_level@, program.types@)
            &&& forall|i: int| 0 <= i < ids@.len() ==> #[trigger] ids@[i] == Some(TypeId(i as u32))
            &&& final(errors)@ == old(errors)@
        },
{
    let ghost e_start = errors@.len();
    let ghost start = *b;
    let mut ids: Vec<Option<TypeId>> = Vec::new();
    let mut i: usize = 0;
    while i < program.types.len()
        invariant
            errors@.len() >= e_start,
            appended(old(errors)@, errors@),
            i <= program.types@.len(),
            b.wf(),
            b.larger(&start),
            ids@.len() == i,
            ids_valid(ids@, b.nd()),
            b.members@ == start.members@,
            b.boxes == start.boxes,
            i == 0 ==> errors@ == old(errors)@ && *b == start,
            start == *old(b),
            start.nd() == 0 && start.top_level@.len() == 0 && type_names_distinct(program.types@)
                && program.types@.len() < u32::MAX ==> {
                &&& b.nd() == i
                &&& top_level_in_order(b.top_level@, program.types@.subrange(0, i as int))
                &&& forall|k: int| 0 <= k < i ==> #[trigger] ids@[k] == Some(TypeId(k as u32))
                &&& errors@ == old(errors)@
            },
        decreases program.types@.len() - i,
    {
        let decl = &program.types[i];
        let ghost b0 = *b;
        let ghost ids0 = ids@;
        match b.top(&decl.name) {
            Some(existing) => {
                proof {
                    if start.nd() == 0 && start.top_level@.len() == 0 && type_names_distinct(program.types@)
                        && program.types@.len() < u32::MAX {
                        let j = choose|j: int| 0 <= j < b.top_level@.len() && (#[trigger] b.top_level@[j]).0@ == decl.name@
                            && b.top_level@[j].1 == existing;
                        assert(program.types@.subrange(0, i as int)[j] == program.types@[j]);
                        assert(program.types@[j].name@ != program.types@[i as int].name@);
                    }
                }
                let previous = b.spans[existing.index()];
                let mut m = owned("Type '");
                push_string(&mut m, &decl.name);
                push_str(&mut m, "' already exists (first declared at ");
                crate::text::push_count(&mut m, previous.start);
                push_str(&mut m, "..");
                crate::text::push_count(&mut m, previous.end);
                push_char(&mut m, ')');
                error(errors, decl.name_span, m);
                ids.push(None);
            }
            None => {
                let id = b.allocate(&decl.name, None, decl.name_span);
                if id.is_none() {
                    error(errors, decl.name_span, owned("too many types in one program"));
                }
                ids.push(id);
                proof {
                    if start.nd() == 0 && start.top_level@.len() == 0 && type_names_distinct(program.types@)
                        && program.types@.len() < u32::MAX {
                        let pre = program.types@.subrange(0, i + 1);
                        assert forall|k: int| 0 <= k < i + 1 implies (#[trigger] b.top_level@[k]).0@ == pre[k].name@
                            && b.top_level@[k].1 == TypeId(k as u32) by {
                            if k < i {
                                assert(b0.top_level@[k].0@ == program.types@.subrange(0, i as int)[k].name@);
                            }
                        }
                        assert forall|k: int| 0 <= k < i + 1 implies #[trigger] ids@[k] == Some(TypeId(k as u32)) by {
                            if k < i {
                                assert(ids@[k] == ids0[k]);
                            }
                        }
                    }
                }
            }
        }
        i = i + 1;
    }
    proof { assert(program.types@.subrange(0, program.types@.len() as int) =~= program.types@); }
    ids
}

/// Every union member gets an identity once all top-level names exist.
fn allocate_members(b: &mut Builder, program: &Program, ids: &Vec<Option<TypeId>>, errors: &mut Vec<Error>) -> (member_ids: Vec<Vec<Option<TypeId>>>)
    requires
        old(b).wf(),
        ids@.len() == program.types@.len(),
        ids_valid(ids@, old(b).nd()),
    ensures
        final(errors)@.len() >= old(errors)@.len(),
        appended(old(errors)@, final(errors)@),
        final(b).wf(),
        final(b).larger(old(b)),
        member_ids@.len() == program.types@.len(),
        forall|i: int| 0 <= i < member_ids@.len() ==> ids_valid(#[trigger] member_ids@[i]@, final(b).nd()),
        forall|i: int| 0 <= i < member_ids@.len() ==> (program.types@[i].body matches TypeBody::Union(ms)
            ==> (#[trigger] member_ids@[i])@.len() == ms@.len()),
        final(b).top_level@ == old(b).top_level@,
        program.types@.len() == 0 ==> final(errors)@ == old(errors)@ && *final(b) == *old(b) && member_ids@.len() == 0,
        (forall|i: int| 0 <= i < program.types@.len() ==> !((#[trigger] program.types@[i]).body is Union))
            ==> final(errors)@ == old(errors)@ && *final(b) == *old(b),
        declarations_fit(program.types@) && old(b).nd() == program.types@.len() && old(b).members@.len() == 0
            && (forall|i: int| 0 <= i < ids@.len() ==> #[trigger] ids@[i] == Some(TypeId(i as u32))) ==> {
            &&& forall|i: int, k: int| 0 <= i < program.types@.len() && program.types@[i].body is Union
                && 0 <= k < program.types@[i].body->Union_0@.len()
                ==> #[trigger] member_ids@[i]@[k] == Some(TypeId((program.types@.len() + members_before(program.types@, i) + k) as u32))
            &&& forall|i: int, k: int| 0 <= i < program.types@.len() && program.types@[i].body is Union
                && 0 <= k < program.types@[i].body->Union_0@.len()
                ==> exists|e: int| 0 <= e < final(b).members@.len() && (#[trigger] final(b).members@[e]).0 == TypeId(i as u32)
                    && final(b).members@[e].1@ == program.types@[i].body->Union_0@[k].name@
                    && final(b).members@[e].2 == (#[trigger] member_ids@[i]@[k])->Some_0
        },
        forall|i: int, k: int| 0 <= i < member_ids@.len() && 0 <= k < member_ids@[i]@.len() && (#[trigger] member_ids@[i]@[k]) is Some
            ==> member_ids@[i]@[k]->Some_0.0 >= old(b).nd(),
{
    let ghost e_start = errors@.len();
    let ghost start = *b;
    let ghost n = program.types@.len() as int;
    let ghost cond = declarations_fit(program.types@) && start.nd() == program.types@.len() && start.members@.len() == 0
        && (forall|i: int| 0 <= i < ids@.len() ==> #[trigger] ids@[i] == Some(TypeId(i as u32)));
    let mut member_ids: Vec<Vec<Option<TypeId>>> = Vec::new();
    let mut i: usize = 0;
    while i < program.types.len()
        invariant
            errors@.len() >= e_start,
            appended(old(errors)@, errors@),
            i <= program.types@.len(),
            ids@.len() == program.types@.len(),
            ids_valid(ids@, start.nd()),
            b.wf(),
            b.larger(&start),
            member_ids@.len() == i,
            forall|k: int| 0 <= k < i ==> ids_valid(#[trigger] member_ids@[k]@, b.nd()),
            forall|k: int| 0 <= k < i ==> (program.types@[k].body matches TypeBody::Union(ms)
                ==> (#[trigger] member_ids@[k])@.len() == ms@.len()),
            b.top_level@ == start.top_level@,
            i == 0 ==> errors@ == old(errors)@ && *b == start,
            (forall|j: int| 0 <= j < program.types@.len() ==> !((#[trigger] program.types@[j]).body is Union))
                ==> errors@ == old(errors)@ && *b == start,
            forall|j: int, k: int| 0 <= j < i && 0 <= k < member_ids@[j]@.len() && (#[trigger] member_ids@[j]@[k]) is Some
                ==> member_ids@[j]@[k]->Some_0.0 >= start.nd(),
            n == program.types@.len(),
            cond == (declarations_fit(program.types@) && start.nd() == program.types@.len() && start.members@.len() == 0
                && (forall|i2: int| 0 <= i2 < ids@.len() ==> #[trigger] ids@[i2] == Some(TypeId(i2 as u32)))),
            cond ==> b.nd() == n + members_before(program.types@, i as int),
            cond ==> forall|e: int| 0 <= e < b.members@.len() ==> (#[trigger] b.members@[e]).0.0 < i,
            cond ==> forall|j: int, k: int| 0 <= j < i && program.types@[j].body is Union
                && 0 <= k < program.types@[j].body->Union_0@.len()
                ==> #[trigger] member_ids@[j]@[k] == Some(TypeId((n + members_before(program.types@, j) + k) as u32)),
            cond ==> members_recorded(b.members@, member_ids@, program.types@, i as int),
        decreases program.types@.len() - i,
    {
        let decl = &program.types[i];
        let ghost before = *b;
        let mut row: Vec<Option<TypeId>> = Vec::new();
        match &decl.body {
            TypeBody::Union(members) => {
                match ids[i] {
                    None => {
                        let mut k: usize = 0;
                        while k < members.len()
                            invariant
                                errors@.len() >= e_start,
                                appended(old(errors)@, errors@),
                                k <= members@.len(),
                                row@.len() == k,
                                ids_valid(row@, b.nd()),
                                forall|k2: int| 0 <= k2 < k ==> (#[trigger] row@[k2]) is None,
                            decreases members@.len() - k,
                        {
                            row.push(None);
                            k = k + 1;
                        }
                    }
                    Some(union) => {
                        if members.len() > 0xffff_ffff {
                            let mut m = owned("Union '");
                            push_string(&mut m, &decl.name);
                            push_str(&mut m, "' declares more than 2^32 members, which exceeds the 32-bit tag limit");
                            error(errors, decl.name_span, m);
                        }
                        proof {
                            if cond {
                                assert(ids@[i as int] == Some(TypeId(i as u32)));
                                lemma_members_before_mono(program.types@, i + 1, n);
                                assert(members_before(program.types@, i + 1) == members_before(program.types@, i as int) + members@.len());
                            }
                        }
                        let mut k: usize = 0;
                        while k < members.len()
                            invariant
                                errors@.len() >= e_start,
                                appended(old(errors)@, errors@),
                                k <= members@.len(),
                                row@.len() == k,
                                b.wf(),
                                b.larger(&before),
                                union.0 < b.nd(),
                                ids_valid(row@, b.nd()),
                                b.top_level@ == start.top_level@,
                                b.larger(&start),
                                n == program.types@.len(),
                                ids@.len() == program.types@.len(),
                                cond == (declarations_fit(program.types@) && start.nd() == program.types@.len() && start.members@.len() == 0
                                    && (forall|i2: int| 0 <= i2 < ids@.len() ==> #[trigger] ids@[i2] == Some(TypeId(i2 as u32)))),
                                cond ==> union == TypeId(i as u32),
                                cond ==> b.nd() == n + members_before(program.types@, i as int) + k,
                                cond ==> n + members_before(program.types@, i as int) + members@.len() < u32::MAX,
                                cond ==> forall|k2: int| 0 <= k2 < k ==> #[trigger] row@[k2]
                                    == Some(TypeId((n + members_before(program.types@, i as int) + k2) as u32)),
                                cond ==> forall|e: int| 0 <= e < b.members@.len() ==> (#[trigger] b.members@[e]).0.0 < i
                                    || (b.members@[e].0 == TypeId(i as u32) && exists|k2: int| 0 <= k2 < k
                                        && #[trigger] members@[k2].name@ == b.members@[e].1@),
                                forall|e: int| 0 <= e < before.members@.len() ==> #[trigger] b.members@[e] == before.members@[e],
                                b.members@.len() >= before.members@.len(),
                                cond ==> forall|k2: int| 0 <= k2 < k ==> exists|e: int| 0 <= e < b.members@.len()
                                    && (#[trigger] b.members@[e]).0 == TypeId(i as u32)
                                    && b.members@[e].1@ == (#[trigger] members@[k2]).name@
                                    && b.members@[e].2 == row@[k2]->Some_0,
                                members@ == program.types@[i as int].body->Union_0@,
                                program.types@[i as int].body is Union,
                                i < program.types@.len(),
                                forall|k2: int| 0 <= k2 < k && (#[trigger] row@[k2]) is Some ==> row@[k2]->Some_0.0 >= start.nd(),
                            decreases members@.len() - k,
                        {
                            let member = &members[k];
                            let ghost b_k = *b;
                            let ghost row_k = row@;
                            proof {
                                if cond {
                                    assert(union_members_distinct(program.types@));
                                    assert forall|e: int| 0 <= e < b.members@.len()
                                        implies !((#[trigger] b.members@[e]).0 == union && b.members@[e].1@ == member.name@) by {
                                        if b.members@[e].0 == union && b.members@[e].1@ == member.name@ {
                                            let k2 = choose|k2: int| 0 <= k2 < k && #[trigger] members@[k2].name@ == b.members@[e].1@;
                                            assert(program.types@[i as int].body->Union_0@[k2].name@
                                                != program.types@[i as int].body->Union_0@[k as int].name@);
                                        }
                                    }
                                }
                            }
                            if b.member(union, &member.name).is_some() {
                                let mut m = owned("Union member '");
                                push_string(&mut m, &decl.name);
                                push_char(&mut m, '.');
                                push_string(&mut m, &member.name);
                                push_str(&mut m, "' already exists");
                                error(errors, member.name_span, m);
                                row.push(None);
                            } else {
                                let id = b.allocate(&member.name, Some(union), member.name_span);
                                if id.is_none() {
                                    error(errors, member.name_span, owned("too many types in one program"));
                                }
                                row.push(id);
                                proof {
                                    if cond {
                                        assert(id is Some);
                                        assert(b.members@ == b_k.members@.push((union, member.name, id->Some_0)));
                                        let newe = b_k.members@.len() as int;
                                        assert(b.members@[newe] == (union, member.name, id->Some_0));
                                        assert forall|k2: int| 0 <= k2 < k + 1 implies #[trigger] row@[k2]
                                            == Some(TypeId((n + members_before(program.types@, i as int) + k2) as u32)) by {
                                            if k2 < k {
                                                assert(row@[k2] == row_k[k2]);
                                            }
                                        }
                                        assert forall|e: int| 0 <= e < b.members@.len() implies (#[trigger] b.members@[e]).0.0 < i
                                            || (b.members@[e].0 == TypeId(i as u32) && exists|k2: int| 0 <= k2 < k + 1
                                                && #[trigger] members@[k2].name@ == b.members@[e].1@) by {
                                            if e < newe {
                                                assert(b.members@[e] == b_k.members@[e]);
                                                if !(b_k.members@[e].0.0 < i) {
                                                    let k2 = choose|k2: int| 0 <= k2 < k && #[trigger] members@[k2].name@ == b_k.members@[e].1@;
                                                    assert(members@[k2].name@ == b.members@[e].1@);
                                                }
                                            } else {
                                                assert(members@[k as int].name@ == b.members@[e].1@);
                                            }
                                        }

                                        assert forall|k2: int| 0 <= k2 < k + 1 implies exists|e: int| 0 <= e < b.members@.len()
                                            && (#[trigger] b.members@[e]).0 == TypeId(i as u32)
                                            && b.members@[e].1@ == (#[trigger] members@[k2]).name@
                                            && b.members@[e].2 == row@[k2]->Some_0 by {
                                            if k2 < k {
                                                let e = choose|e: int| 0 <= e < b_k.members@.len()
                                                    && (#[trigger] b_k.members@[e]).0 == TypeId(i as u32)
                                                    && b_k.members@[e].1@ == (#[trigger] members@[k2]).name@
                                                    && b_k.members@[e].2 == row_k[k2]->Some_0;
                                                assert(b.members@[e] == b_k.members@[e]);
                                                assert(row@[k2] == row_k[k2]);
                                            } else {
                                                assert(b.members@[newe].1@ == members@[k2].name@);
                                            }
                                        }
                                    }
                                }
                            }
                            k = k + 1;
                        }
                        let mut all_nil = true;
                        let mut k2: usize = 0;
                        while k2 < members.len()
                            decreases members@.len() - k2,
                        {
                            if !members[k2].nil {
                                all_nil = false;
                            }
                            k2 = k2 + 1;
                        }
                        if all_nil {
                            let mut m = owned("Union '");
                            push_string(&mut m, &decl.name);
                            push_str(&mut m, "' contains only 'Nil'; 'Nil' requires another member type");
                            error(errors, decl.name_span, m);
                        }
                    }
                }
            }
            _ => {}
        }
        let ghost mids0 = member_ids@;
        member_ids.push(row);
        let ghost i0 = i as int;
        i = i + 1;
        proof {
            if cond {
                lemma_members_before_mono(program.types@, i0, i as int);
                assert forall|j: int, k: int| 0 <= j < i && program.types@[j].body is Union
                    && 0 <= k < program.types@[j].body->Union_0@.len()
                    implies #[trigger] member_ids@[j]@[k] == Some(TypeId((n + members_before(program.types@, j) + k) as u32)) by {
                    if j < i0 {
                        assert(member_ids@[j] == mids0[j]);
                    }
                }
                assert forall|j: int, k: int| 0 <= j < i && program.types@[j].body is Union
                    && 0 <= k < program.types@[j].body->Union_0@.len()
                    implies member_entry(b.members@, j, program.types@[j].body->Union_0@[k].name@, (#[trigger] member_ids@[j]@[k])->Some_0) by {
                    if j < i0 {
                        assert(member_ids@[j] == mids0[j]);
                        assert(member_entry(before.members@, j, program.types@[j].body->Union_0@[k].name@, mids0[j]@[k]->Some_0));
                        let e = choose|e: int| 0 <= e < before.members@.len() && (#[trigger] before.members@[e]).0 == TypeId(j as u32)
                            && before.members@[e].1@ == program.types@[j].body->Union_0@[k].name@
                            && before.members@[e].2 == mids0[j]@[k]->Some_0;
                        assert(b.members@[e] == before.members@[e]);
                    } else {
                        let k2 = k;
                        assert(program.types@[j].body->Union_0@[k2] == program.types@[i0].body->Union_0@[k2]);
                    }
                }
            }
        }
    }
    member_ids
}

/// Resolves every type body now that every name exists.
fn resolve_bodies(b: &mut Builder, program: &Program, ids: &Vec<Option<TypeId>>, member_ids: &Vec<Vec<Option<TypeId>>>, errors: &mut Vec<Error>)
    requires
        old(b).wf(),
        ids@.len() == program.types@.len(),
        ids_valid(ids@, old(b).nd()),
        member_ids@.len() == program.types@.len(),
        forall|i: int| 0 <= i < member_ids@.len() ==> ids_valid(#[trigger] member_ids@[i]@, old(b).nd()),
        forall|i: int| 0 <= i < member_ids@.len() ==> (program.types@[i].body matches TypeBody::Union(ms)
            ==> (#[trigger] member_ids@[i])@.len() == ms@.len()),
    ensures
        final(errors)@.len() >= old(errors)@.len(),
        appended(old(errors)@, final(errors)@),
        final(b).wf(),
        final(b).larger(old(b)),
        final(b).nd() == old(b).nd(),
        final(b).top_level@ == old(b).top_level@,
        records_declared(program.types@) && top_level_in_order(old(b).top_level@, program.types@) && old(b).nb() == 0
            && (forall|i: int| 0 <= i < ids@.len() ==> #[trigger] ids@[i] == Some(TypeId(i as u32))) ==> {
            &&& final(errors)@ == old(errors)@
            &&& forall|i: int| 0 <= i < program.types@.len()
                ==> record_resolved(#[trigger] final(b).defs@[i], program.types@[i], old(b).top_level@)
        },
        forall|i: int, k: int| 0 <= i < program.types@.len() && ids@[i] is Some && program.types@[i].body is Struct
            && 0 <= k < program.types@[i].body->Struct_0@.len() && #[trigger] field_repeated(program.types@[i].body->Struct_0@, k)
            ==> crate::statements::reported(final(errors)@, old(errors)@.len() as int,
                field_exists_message(program.types@[i].name@, program.types@[i].body->Struct_0@[k].name@)),
        program.types@.len() == 0 ==> final(errors)@ == old(errors)@ && *final(b) == *old(b),
        sequential_ids(ids@, member_ids@, program.types@) ==> forall|j: int| 0 <= j < program.types@.len()
            && program.types@[j].body is Union ==> #[trigger] union_installed(final(b).defs@, program.types@, j),
        fresh_ids(ids@, member_ids@) ==> forall|i: int| 0 <= i < ids@.len()
            ==> (#[trigger] final(b).defs@[i]) is Some && def_matches_decl(final(b).defs@[i]->Some_0, program.types@[i]),
        forall|j: int| 0 <= j < old(b).nd() && old(b).defs@[j] is Some ==> (#[trigger] final(b).defs@[j]) is Some,
        forall|i: int| 0 <= i < ids@.len() && ids@[i] is Some ==> final(b).defs@[(#[trigger] ids@[i])->Some_0.0 as int] is Some,
        forall|i: int, k: int| 0 <= i < ids@.len() && ids@[i] is Some && program.types@[i].body is Union
            && 0 <= k < member_ids@[i]@.len() && (#[trigger] member_ids@[i]@[k]) is Some
            ==> final(b).defs@[member_ids@[i]@[k]->Some_0.0 as int] is Some,
{
    let ghost e_start = errors@.len();
    let ghost start = *b;
    let ghost recs = records_declared(program.types@) && top_level_in_order(start.top_level@, program.types@) && start.nb() == 0
        && (forall|i2: int| 0 <= i2 < ids@.len() ==> #[trigger] ids@[i2] == Some(TypeId(i2 as u32)));
    let mut i: usize = 0;
    while i < program.types.len()
        invariant
            forall|j: int| 0 <= j < start.nd() && start.defs@[j] is Some ==> (#[trigger] b.defs@[j]) is Some,
            forall|j: int| 0 <= j < i && ids@[j] is Some ==> b.defs@[(#[trigger] ids@[j])->Some_0.0 as int] is Some,
            forall|j: int, k: int| 0 <= j < i && ids@[j] is Some && program.types@[j].body is Union
                && 0 <= k < member_ids@[j]@.len() && (#[trigger] member_ids@[j]@[k]) is Some
                ==> b.defs@[member_ids@[j]@[k]->Some_0.0 as int] is Some,
            errors@.len() >= e_start,
            appended(old(errors)@, errors@),
            i <= program.types@.len(),
            b.wf(),
            b.larger(&start),
            b.nd() == start.nd(),
            b.top_level@ == start.top_level@,
            i == 0 ==> errors@ == old(errors)@ && *b == start,
            e_start == old(errors)@.len(),
            forall|j: int, k: int| 0 <= j < i && ids@[j] is Some && program.types@[j].body is Struct
                && 0 <= k < program.types@[j].body->Struct_0@.len() && #[trigger] field_repeated(program.types@[j].body->Struct_0@, k)
                ==> crate::statements::reported(errors@, e_start as int,
                    field_exists_message(program.types@[j].name@, program.types@[j].body->Struct_0@[k].name@)),
            recs == (records_declared(program.types@) && top_level_in_order(start.top_level@, program.types@) && start.nb() == 0
                && (forall|i2: int| 0 <= i2 < ids@.len() ==> #[trigger] ids@[i2] == Some(TypeId(i2 as u32)))),
            recs ==> errors@ == old(errors)@ && b.nb() <= fields_before(program.types@, i as int)
                && forall|j: int| 0 <= j < i ==> record_resolved(#[trigger] b.defs@[j], program.types@[j], start.top_level@),
            fresh_ids(ids@, member_ids@) ==> forall|j: int| 0 <= j < i
                ==> (#[trigger] b.defs@[j]) is Some && def_matches_decl(b.defs@[j]->Some_0, program.types@[j]),
            sequential_ids(ids@, member_ids@, program.types@) ==> forall|j: int| 0 <= j < i
                && program.types@[j].body is Union ==> #[trigger] union_installed(b.defs@, program.types@, j),
            ids@.len() == program.types@.len(),
            ids_valid(ids@, start.nd()),
            member_ids@.len() == program.types@.len(),
            forall|k: int| 0 <= k < member_ids@.len() ==> ids_valid(#[trigger] member_ids@[k]@, start.nd()),
            forall|k: int| 0 <= k < member_ids@.len() ==> (program.types@[k].body matches TypeBody::Union(ms)
                ==> (#[trigger] member_ids@[k])@.len() == ms@.len()),
        decreases program.types@.len() - i,
    {
        let decl = &program.types[i];
        let ghost e_iter = errors@;
        if let Some(id) = ids[i] {
            match &decl.body {
                TypeBody::Represented(target_ref) => {
                    let resolved = resolve(b, target_ref, errors);
                    if let Some(Ty::Sum(_)) = resolved {
                        error(errors, target_ref.span(), owned(SUM_AS_REPRESENTED_TARGET));
                    }
                    let target = match resolved {
                        Some(t) => t,
                        None => Ty::Nil,
                    };
                    let ghost dprev = b.defs@;
                    b.install(id, TypeDef::Represented { name: decl.name.clone(), target });
                    proof {
                        if fresh_ids(ids@, member_ids@) {
                            assert(ids@[i as int] == Some(TypeId(i as u32)));
                            assert forall|j: int| 0 <= j < i + 1 implies (#[trigger] b.defs@[j]) is Some
                                && def_matches_decl(b.defs@[j]->Some_0, program.types@[j]) by {
                                if j < i {
                                    assert(b.defs@[j] == dprev[j]);
                                }
                            }
                        }
                        if sequential_ids(ids@, member_ids@, program.types@) {
                            assert forall|j: int| 0 <= j < i + 1 && program.types@[j].body is Union
                                implies #[trigger] union_installed(b.defs@, program.types@, j) by {
                                if j < i {
                                    assert(union_installed(dprev, program.types@, j));
                                    lemma_members_before_mono(program.types@, 0, j);
                                    lemma_union_installed_frame(dprev, b.defs@, program.types@, j, i as int, b.defs@[i as int]);
                                }
                            }
                        }
                    }
                }
                TypeBody::Struct(fields) => {
                    proof {
                        if recs {
                            assert(program.types@[i as int].body is Struct);
                            assert forall|k: int| 0 <= k < fields@.len() implies silent_field_type(b.top_level@, (#[trigger] fields@[k]).ty) by {
                                assert(fields@[k] == program.types@[i as int].body->Struct_0@[k]);
                                lemma_plain_is_silent(fields@[k].ty, program.types@, program.types@.len() as int, start.top_level@);
                            }
                            lemma_fields_before_mono(program.types@, i + 1, program.types@.len() as int);
                            assert(fields_before(program.types@, i + 1) == fields_before(program.types@, i as int) + fields@.len());
                        }
                    }
                    let ghost e_before = errors@;
                    let f = resolve_fields(b, &decl.name, fields, errors);
                    let ghost dprev = b.defs@;
                    b.install(id, TypeDef::Struct { name: decl.name.clone(), fields: f });
                    proof {
                        if recs {
                            assert(ids@[i as int] == Some(TypeId(i as u32)));
                            assert forall|j: int| 0 <= j < i + 1 implies record_resolved(#[trigger] b.defs@[j], program.types@[j], start.top_level@) by {
                                if j < i {
                                    assert(b.defs@[j] == dprev[j]);
                                }
                            }
                        }
                        if fresh_ids(ids@, member_ids@) {
                            assert(ids@[i as int] == Some(TypeId(i as u32)));
                            assert forall|j: int| 0 <= j < i + 1 implies (#[trigger] b.defs@[j]) is Some
                                && def_matches_decl(b.defs@[j]->Some_0, program.types@[j]) by {
                                if j < i {
                                    assert(b.defs@[j] == dprev[j]);
                                }
                            }
                        }
                        if sequential_ids(ids@, member_ids@, program.types@) {
                            assert forall|j: int| 0 <= j < i + 1 && program.types@[j].body is Union
                                implies #[trigger] union_installed(b.defs@, program.types@, j) by {
                                if j < i {
                                    assert(union_installed(dprev, program.types@, j));
                                    lemma_members_before_mono(program.types@, 0, j);
                                    lemma_union_installed_frame(dprev, b.defs@, program.types@, j, i as int, b.defs@[i as int]);
                                }
                            }
                        }
                    }
                }
                TypeBody::Union(declared) => {
                    let row = &member_ids[i];
                    let mut members: Vec<TypeId> = Vec::new();
                    let mut k: usize = 0;
                    while k < declared.len()
                        invariant
                            errors@.len() >= e_start,
                            appended(old(errors)@, errors@),
                            appended(e_iter, errors@),
                            k <= declared@.len(),
                            row@.len() == declared@.len(),
                            ids_valid(row@, start.nd()),
                            id.0 < start.nd(),
                            b.wf(),
                            b.larger(&start),
                            b.nd() == start.nd(),
                            b.top_level@ == start.top_level@,
                            fresh_ids(ids@, member_ids@) ==> forall|j: int| 0 <= j < i
                                ==> (#[trigger] b.defs@[j]) is Some && def_matches_decl(b.defs@[j]->Some_0, program.types@[j]),
                            fresh_ids(ids@, member_ids@) ==> id == TypeId(i as u32),
                            forall|j: int| 0 <= j < members@.len() ==> (#[trigger] members@[j]).0 < start.nd(),
                            row == member_ids@[i as int],
                            i < program.types@.len(),
                            ids@.len() == program.types@.len(),
                            ids_valid(ids@, start.nd()),
                            member_ids@.len() == program.types@.len(),
                            forall|k3: int| 0 <= k3 < member_ids@.len() ==> ids_valid(#[trigger] member_ids@[k3]@, start.nd()),
                            forall|j: int| 0 <= j < start.nd() && start.defs@[j] is Some ==> (#[trigger] b.defs@[j]) is Some,
                            forall|j: int| 0 <= j < i && ids@[j] is Some ==> b.defs@[(#[trigger] ids@[j])->Some_0.0 as int] is Some,
                            forall|j: int, k2: int| 0 <= j < i && ids@[j] is Some && program.types@[j].body is Union
                                && 0 <= k2 < member_ids@[j]@.len() && (#[trigger] member_ids@[j]@[k2]) is Some
                                ==> b.defs@[member_ids@[j]@[k2]->Some_0.0 as int] is Some,
                            forall|k2: int| 0 <= k2 < k && (#[trigger] row@[k2]) is Some ==> b.defs@[row@[k2]->Some_0.0 as int] is Some,
                            declared@ == program.types@[i as int].body->Union_0@,
                            program.types@[i as int].body is Union,
                            decl == program.types@[i as int],
                            sequential_ids(ids@, member_ids@, program.types@) ==> forall|j: int| 0 <= j < i
                                && program.types@[j].body is Union ==> #[trigger] union_installed(b.defs@, program.types@, j),
                            sequential_ids(ids@, member_ids@, program.types@) ==> forall|k2: int| 0 <= k2 < k
                                ==> #[trigger] member_installed(b.defs@, program.types@, i as int, k2),
                            sequential_ids(ids@, member_ids@, program.types@) ==> members@.len() == k && forall|k2: int| 0 <= k2 < k
                                ==> #[trigger] members@[k2] == TypeId((program.types@.len() + members_before(program.types@, i as int) + k2) as u32),
                        decreases declared@.len() - k,
                    {
                        if let Some(mid) = row[k] {
                            let member = &declared[k];
                            let mut qualified = decl.name.clone();
                            push_char(&mut qualified, '.');
                            push_string(&mut qualified, &member.name);
                            let fields = resolve_fields(b, &qualified, &member.fields, errors);
                            let ghost d0 = b.defs@;
                            let ghost qname = qualified@;
                            proof {
                                reveal_strlit(".");
                                assert(qname =~= decl.name@ + "."@ + member.name@);
                            }
                            b.install(mid, TypeDef::UnionMember {
                                name: qualified,
                                union: id,
                                tag: k as u32,
                                fields,
                                nil: member.nil,
                            });
                            proof {
                                assert forall|x: int| 0 <= x < d0.len() && d0[x] is Some implies (#[trigger] b.defs@[x]) is Some by {}
                                assert forall|j: int| 0 <= j < i && ids@[j] is Some implies b.defs@[(#[trigger] ids@[j])->Some_0.0 as int] is Some by {
                                    assert(d0[ids@[j]->Some_0.0 as int] is Some);
                                    assert(ids@[j] matches Some(id2) ==> id2.0 < start.nd());
                                    assert(b.defs@[ids@[j]->Some_0.0 as int] is Some);
                                }
                                assert forall|j: int, k2: int| 0 <= j < i && ids@[j] is Some && program.types@[j].body is Union
                                    && 0 <= k2 < member_ids@[j]@.len() && (#[trigger] member_ids@[j]@[k2]) is Some
                                    implies b.defs@[member_ids@[j]@[k2]->Some_0.0 as int] is Some by {
                                    assert(d0[member_ids@[j]@[k2]->Some_0.0 as int] is Some);
                                    assert(ids_valid(member_ids@[j]@, start.nd()));
                                    assert(member_ids@[j]@[k2] matches Some(id2) ==> id2.0 < start.nd());
                                    assert(b.defs@[member_ids@[j]@[k2]->Some_0.0 as int] is Some);
                                }
                            }
                            let ghost members0 = members@;
                            members.push(mid);
                            proof {
                                if sequential_ids(ids@, member_ids@, program.types@) {
                                    let nn = program.types@.len() as int;
                                    let base = nn + members_before(program.types@, i as int);
                                    lemma_members_before_next(program.types@, i as int);
                                    lemma_members_before_mono(program.types@, i + 1, nn);
                                    assert(row@[k as int] == Some(TypeId((base + k) as u32)));
                                    assert(mid.0 as int == base + k);
                                    assert forall|j: int| 0 <= j < i && program.types@[j].body is Union
                                        implies #[trigger] union_installed(b.defs@, program.types@, j) by {
                                        lemma_members_before_next(program.types@, j);
                                        lemma_members_before_mono(program.types@, j + 1, i as int);
                                        lemma_members_before_mono(program.types@, 0, j);
                                        lemma_union_installed_frame(d0, b.defs@, program.types@, j, base + k, b.defs@[base + k]);
                                    }
                                    assert forall|k2: int| 0 <= k2 < k + 1
                                        implies #[trigger] member_installed(b.defs@, program.types@, i as int, k2) by {
                                        if k2 < k {
                                            assert(member_installed(d0, program.types@, i as int, k2));
                                        } else {
                                            assert(program.types@[i as int].body->Union_0@[k2] == member);
                                        }
                                    }
                                    assert forall|k2: int| 0 <= k2 < k + 1 implies #[trigger] members@[k2]
                                        == TypeId((nn + members_before(program.types@, i as int) + k2) as u32) by {
                                        if k2 < k {
                                            assert(members@[k2] == members0[k2]);
                                        }
                                    }
                                }
                            }
                        } else {
                            proof {
                                if sequential_ids(ids@, member_ids@, program.types@) {
                                    assert(row@[k as int] is Some);
                                }
                            }
                        }
                        k = k + 1;
                    }
                    let ghost dprev = b.defs@;
                    let ghost members_final = members@;
                    b.install(id, TypeDef::Union { name: decl.name.clone(), members });
                    proof {
                        if sequential_ids(ids@, member_ids@, program.types@) {
                            let nn = program.types@.len() as int;
                            assert(ids@[i as int] == Some(TypeId(i as u32)));
                            lemma_members_before_mono(program.types@, 0, i as int);
                            assert forall|j: int| 0 <= j < i + 1 && program.types@[j].body is Union
                                implies #[trigger] union_installed(b.defs@, program.types@, j) by {
                                if j < i {
                                    lemma_members_before_mono(program.types@, 0, j);
                                    lemma_union_installed_frame(dprev, b.defs@, program.types@, j, i as int, b.defs@[i as int]);
                                } else {
                                    assert forall|k2: int| 0 <= k2 < program.types@[j].body->Union_0@.len()
                                        implies #[trigger] member_installed(b.defs@, program.types@, j, k2) by {
                                        assert(member_installed(dprev, program.types@, j, k2));
                                    }
                                }
                            }
                        }
                        if fresh_ids(ids@, member_ids@) {
                            assert(ids@[i as int] == Some(TypeId(i as u32)));
                            assert forall|j: int| 0 <= j < i + 1 implies (#[trigger] b.defs@[j]) is Some
                                && def_matches_decl(b.defs@[j]->Some_0, program.types@[j]) by {
                                if j < i {
                                    assert(b.defs@[j] == dprev[j]);
                                }
                            }
                        }
                    }
                }
            }
        }
        proof {
            if recs {
                assert(program.types@[i as int].body is Struct);
            }
            assert forall|j: int, k: int| 0 <= j < i + 1 && ids@[j] is Some && program.types@[j].body is Struct
                && 0 <= k < program.types@[j].body->Struct_0@.len() && #[trigger] field_repeated(program.types@[j].body->Struct_0@, k)
                implies crate::statements::reported(errors@, e_start as int,
                    field_exists_message(program.types@[j].name@, program.types@[j].body->Struct_0@[k].name@)) by {
                if j < i {
                    lemma_reported_kept(e_iter, errors@, e_start as int,
                        field_exists_message(program.types@[j].name@, program.types@[j].body->Struct_0@[k].name@));
                } else {
                    assert(program.types@[j] == *decl);
                }
            }
        }
        i = i + 1;
    }
}

/// The finished definitions; a name that failed to resolve leaves an empty
/// struct so later phases still index the table safely.
fn finish_defs(b: &Builder) -> (defs: Vec<TypeDef>)
    requires
        b.wf(),
    ensures
        defs@.len() == b.nd(),
        forall|i: int| 0 <= i < defs@.len() ==> def_ok(#[trigger] defs@[i], b.nd(), b.ns(), b.nb()),
        forall|i: int| 0 <= i < defs@.len() && b.defs@[i] is Some ==> same_def(#[trigger] defs@[i], b.defs@[i]->Some_0),
{
    let mut defs: Vec<TypeDef> = Vec::new();
    let mut i: usize = 0;
    while i < b.defs.len()
        invariant
            b.wf(),
            i <= b.nd(),
            defs@.len() == i,
            forall|k: int| 0 <= k < i ==> def_ok(#[trigger] defs@[k], b.nd(), b.ns(), b.nb()),
            forall|k: int| 0 <= k < i && b.defs@[k] is Some ==> same_def(#[trigger] defs@[k], b.defs@[k]->Some_0),
        decreases b.nd() - i,
    {
        let d = match &b.defs[i] {
            Some(d) => clone_def(d),
            None => {
                let mut name = owned("<unresolved type #");
                crate::text::push_count(&mut name, i);
                push_char(&mut name, '>');
                TypeDef::Struct { name, fields: Vec::new() }
            }
        };
        defs.push(d);
        i = i + 1;
    }
    defs
}

/// Every signature's types are valid in tables of the given sizes.
pub open spec fn sigs_ok(sigs: Seq<(String, FuncSig)>, nd: nat, ns: nat, nb: nat) -> bool {
    forall|i: int| 0 <= i < sigs.len() ==> params_ok((#[trigger] sigs[i]).1.params@, nd, ns, nb)
        && opt_ok(sigs[i].1.result, nd, ns, nb)
}

pub open spec fn methods_ok(ms: Seq<MethodSig>, nd: nat, ns: nat, nb: nat) -> bool {
    forall|i: int| 0 <= i < ms.len() ==> (#[trigger] ms[i]).receiver.0 < nd
        && params_ok(ms[i].params@, nd, ns, nb) && opt_ok(ms[i].result, nd, ns, nb)
}

pub proof fn lemma_sigs_grow(sigs: Seq<(String, FuncSig)>, nd: nat, ns: nat, nb: nat, ns2: nat, nb2: nat)
    requires
        sigs_ok(sigs, nd, ns, nb),
        ns <= ns2,
        nb <= nb2,
    ensures
        sigs_ok(sigs, nd, ns2, nb2),
{
    assert forall|i: int| 0 <= i < sigs.len() implies params_ok((#[trigger] sigs[i]).1.params@, nd, ns2, nb2)
        && opt_ok(sigs[i].1.result, nd, ns2, nb2) by {
        lemma_params_grow(sigs[i].1.params@, nd, ns, nb, ns2, nb2);
    }
}

pub proof fn lemma_methods_grow(ms: Seq<MethodSig>, nd: nat, ns: nat, nb: nat, ns2: nat, nb2: nat)
    requires
        methods_ok(ms, nd, ns, nb),
        ns <= ns2,
        nb <= nb2,
    ensures
        methods_ok(ms, nd, ns2, nb2),
{
    assert forall|i: int| 0 <= i < ms.len() implies (#[trigger] ms[i]).receiver.0 < nd
        && params_ok(ms[i].params@, nd, ns2, nb2) && opt_ok(ms[i].result, nd, ns2, nb2) by {
        lemma_params_grow(ms[i].params@, nd, ns, nb, ns2, nb2);
    }
}

fn has_sig(sigs: &Vec<(String, FuncSig)>, name: &String) -> (r: bool)
    ensures
        r == exists|i: int| 0 <= i < sigs@.len() && (#[trigger] sigs@[i]).0@ == name@,
{
    let mut i: usize = 0;
    while i < sigs.len()
        invariant
            i <= sigs@.len(),
            forall|j: int| 0 <= j < i ==> (#[trigger] sigs@[j]).0@ != name@,
        decreases sigs@.len() - i,
    {
        if same(&sigs[i].0, name) {
            return true;
        }
        i = i + 1;
    }
    false
}

/// Resolves every function and bridge signature, in source order, and
/// rejects what may not cross a bridge.
/// One signature per function, then one per bridge, each under its
/// declaration's name.
pub open spec fn sigs_named(sigs: Seq<(String, FuncSig)>, program: &Program) -> bool {
    &&& sigs.len() == program.funcs@.len() + program.externs@.len()
    &&& forall|k: int| 0 <= k < program.funcs@.len() ==> (#[trigger] sigs[k]).0@ == program.funcs@[k].name@
    &&& forall|k: int| 0 <= k < program.externs@.len()
        ==> (#[trigger] sigs[program.funcs@.len() + k]).0@ == program.externs@[k].name@
}

fn collect_sigs(b: &mut Builder, program: &Program, errors: &mut Vec<Error>) -> (sigs: Vec<(String, FuncSig)>)
    requires
        old(b).wf(),
    ensures
        final(errors)@.len() >= old(errors)@.len(),
        appended(old(errors)@, final(errors)@),
        final(b).wf(),
        final(b).grows_from(old(b)),
        sigs_ok(sigs@, final(b).nd(), final(b).ns(), final(b).nb()),
        sigs_named(sigs@, program),
        program.funcs@.len() == 0 && program.externs@.len() == 0 ==> final(errors)@ == old(errors)@,
        final(errors)@.len() == old(errors)@.len() ==> bridges_scalar(sigs@, program),
        final(errors)@.len() == old(errors)@.len() && bridge_types_written(program) ==> bridges_not_nil(sigs@, program),
{
    let ghost e_start = errors@.len();
    let ghost start = *b;
    let mut sigs: Vec<(String, FuncSig)> = Vec::new();
    let mut i: usize = 0;
    while i < program.funcs.len()
        invariant
            errors@.len() >= e_start,
            appended(old(errors)@, errors@),
            i <= program.funcs@.len(),
            b.wf(),
            b.grows_from(&start),
            sigs_ok(sigs@, b.nd(), b.ns(), b.nb()),
            sigs@.len() == i,
            i == 0 ==> errors@ == old(errors)@,
            forall|k: int| 0 <= k < i ==> (#[trigger] sigs@[k]).0@ == program.funcs@[k].name@,
        decreases program.funcs@.len() - i,
    {
        let f = &program.funcs[i];
        let ghost before = *b;
        let params = resolve_params(b, &f.args, errors);
        let result = match &f.ret {
            Some(t) => resolve(b, t, errors),
            None => None,
        };
        proof {
            lemma_params_grow(params@, b.nd(), b.ns(), b.nb(), b.ns(), b.nb());
            lemma_sigs_grow(sigs@, before.nd(), before.ns(), before.nb(), b.ns(), b.nb());
        }
        let ghost mid = *b;
        proof { lemma_params_grow(params@, mid.nd(), mid.ns(), mid.nb(), b.ns(), b.nb()); }
        sigs.push((f.name.clone(), FuncSig { params, result }));
        i = i + 1;
    }
    let mut j: usize = 0;
    while j < program.externs.len()
        invariant
            errors@.len() >= e_start,
            appended(old(errors)@, errors@),
            j <= program.externs@.len(),
            b.wf(),
            b.grows_from(&start),
            sigs_ok(sigs@, b.nd(), b.ns(), b.nb()),
            sigs@.len() == program.funcs@.len() + j,
            program.funcs@.len() == 0 && j == 0 ==> errors@ == old(errors)@,
            forall|k: int| 0 <= k < program.funcs@.len() ==> (#[trigger] sigs@[k]).0@ == program.funcs@[k].name@,
            forall|k: int| 0 <= k < j ==> (#[trigger] sigs@[program.funcs@.len() + k]).0@ == program.externs@[k].name@,
            errors@.len() == old(errors)@.len() && bridge_types_written(program) ==> forall|k: int| 0 <= k < j ==> {
                &&& forall|q: int| 0 <= q < (#[trigger] sigs@[program.funcs@.len() + k]).1.params@.len()
                    ==> #[trigger] sigs@[program.funcs@.len() + k].1.params@[q].ty != Ty::Nil
                &&& sigs@[program.funcs@.len() + k].1.result != Some(Ty::Nil)
            },
            errors@.len() == old(errors)@.len() ==> forall|k: int| 0 <= k < j ==> bridge_shapes_scalar(
                crate::expressions::param_shapes((#[trigger] sigs@[program.funcs@.len() + k]).1.params@), sigs@[program.funcs@.len() + k].1.result),
        decreases program.externs@.len() - j,
    {
        let f = &program.externs[j];
        let ghost before = *b;
        let params = resolve_params(b, &f.args, errors);
        let ghost mid = *b;
        let result = match &f.ret {
            Some(t) => resolve(b, t, errors),
            None => None,
        };
        proof {
            lemma_params_grow(params@, mid.nd(), mid.ns(), mid.nb(), b.ns(), b.nb());
            lemma_sigs_grow(sigs@, before.nd(), before.ns(), before.nb(), b.ns(), b.nb());
        }
        let ghost e_pre = errors@.len();
        reject_bridge_user_types(b, &params, result, f.span, errors);
        let ghost sigs0 = sigs@;
        sigs.push((f.name.clone(), FuncSig { params, result }));
        proof {
            if errors@.len() == old(errors)@.len() && bridge_types_written(program) {
                assert forall|k: int| 0 <= k < j + 1 implies {
                    &&& forall|q: int| 0 <= q < (#[trigger] sigs@[program.funcs@.len() + k]).1.params@.len()
                        ==> #[trigger] sigs@[program.funcs@.len() + k].1.params@[q].ty != Ty::Nil
                    &&& sigs@[program.funcs@.len() + k].1.result != Some(Ty::Nil)
                } by {
                    if k < j {
                        assert(sigs@[program.funcs@.len() + k] == sigs0[program.funcs@.len() + k]);
                    } else {
                        assert(forall|q: int| 0 <= q < f.args@.len() ==> names_written(#[trigger] f.args@[q].ty));
                    }
                }
            }
            if errors@.len() == old(errors)@.len() {
                assert(bridge_signature_ok(b, params@, result));
                let shapes = crate::expressions::param_shapes(params@);
                assert forall|k: int| 0 <= k < shapes.len() implies bridge_scalar((#[trigger] shapes[k]).1)
                    && !(shapes[k].0 == ParamMode::Reference && shapes[k].1 == Ty::Nil) by {
                    assert(bridge_refusal_text(builder_shown(b, params@[k].ty), params@[k].ty) is None);
                    assert(!(params@[k].mode == ParamMode::Reference && params@[k].ty == Ty::Nil));
                }
                assert forall|k: int| 0 <= k < j + 1 implies bridge_shapes_scalar(
                    crate::expressions::param_shapes((#[trigger] sigs@[program.funcs@.len() + k]).1.params@),
                    sigs@[program.funcs@.len() + k].1.result) by {
                    if k < j {
                        assert(sigs@[program.funcs@.len() + k] == sigs0[program.funcs@.len() + k]);
                    }
                }
            }
        }
        j = j + 1;
    }
    sigs
}

fn has_method(index: &Vec<(TypeId, String, MethodId)>, receiver: TypeId, name: &String) -> (r: bool)
    ensures
        r == exists|i: int| 0 <= i < index@.len() && (#[trigger] index@[i]).0 == receiver && index@[i].1@ == name@,
{
    let mut i: usize = 0;
    while i < index.len()
        invariant
            i <= index@.len(),
            forall|j: int| 0 <= j < i ==> !((#[trigger] index@[j]).0 == receiver && index@[j].1@ == name@),
        decreases index@.len() - i,
    {
        if index[i].0 == receiver && same(&index[i].1, name) {
            return true;
        }
        i = i + 1;
    }
    false
}

/// Resolves every method's receiver and signature, in declaration order; a
/// method name is unique per receiver.
fn collect_methods(b: &mut Builder, defs: &Vec<TypeDef>, program: &Program, errors: &mut Vec<Error>) -> (r: (Vec<MethodSig>, Vec<(TypeId, String, MethodId)>))
    requires
        old(b).wf(),
        defs@.len() == old(b).nd(),
    ensures
        final(errors)@.len() >= old(errors)@.len(),
        appended(old(errors)@, final(errors)@),
        final(b).wf(),
        final(b).grows_from(old(b)),
        methods_ok(r.0@, final(b).nd(), final(b).ns(), final(b).nb()),
        r.0@.len() <= u32::MAX,
        forall|i: int| 0 <= i < r.1@.len() ==> (#[trigger] r.1@[i]).2.0 < r.0@.len(),
        forall|i: int| 0 <= i < r.0@.len() ==> (#[trigger] r.0@[i]).decl < program.methods@.len(),
        r.1@.len() == r.0@.len(),
        program.methods@.len() == 0 ==> final(errors)@ == old(errors)@ && r.0@.len() == 0,
        forall|k: int| 0 <= k < r.0@.len() ==> (#[trigger] r.1@[k]).0 == r.0@[k].receiver && r.1@[k].1@ == r.0@[k].name@
            && r.1@[k].2 == MethodId(k as u32),
        forall|j: int, k: int| 0 <= j < k < r.0@.len() ==> !((#[trigger] r.0@[j]).receiver == (#[trigger] r.0@[k]).receiver
            && r.0@[j].name@ == r.0@[k].name@),
        forall|k: int| 0 <= k < r.0@.len() ==> (#[trigger] r.0@[k]).name@ == program.methods@[r.0@[k].decl as int].path@.last().0@,
        final(errors)@.len() == old(errors)@.len() && program.methods@.len() < u32::MAX ==> r.0@.len() == program.methods@.len(),
{
    let ghost e_start = errors@.len();
    let ghost start = *b;
    let mut methods: Vec<MethodSig> = Vec::new();
    let mut index: Vec<(TypeId, String, MethodId)> = Vec::new();
    let mut i: usize = 0;
    while i < program.methods.len()
        invariant
            errors@.len() >= e_start,
            appended(old(errors)@, errors@),
            i <= program.methods@.len(),
            b.wf(),
            b.grows_from(&start),
            defs@.len() == b.nd(),
            methods_ok(methods@, b.nd(), b.ns(), b.nb()),
            methods@.len() <= i,
            methods@.len() <= u32::MAX,
            forall|k: int| 0 <= k < index@.len() ==> (#[trigger] index@[k]).2.0 < methods@.len(),
            forall|k: int| 0 <= k < methods@.len() ==> (#[trigger] methods@[k]).decl < program.methods@.len(),
            index@.len() == methods@.len(),
            i == 0 ==> errors@ == old(errors)@,
            forall|k: int| 0 <= k < methods@.len() ==> (#[trigger] index@[k]).0 == methods@[k].receiver && index@[k].1@ == methods@[k].name@
                && index@[k].2 == MethodId(k as u32),
            forall|j: int, k: int| 0 <= j < k < methods@.len() ==> !((#[trigger] methods@[j]).receiver == (#[trigger] methods@[k]).receiver
                && methods@[j].name@ == methods@[k].name@),
            forall|k: int| 0 <= k < methods@.len() ==> (#[trigger] methods@[k]).name@ == program.methods@[methods@[k].decl as int].path@.last().0@,
            errors@.len() == e_start && program.methods@.len() < u32::MAX ==> methods@.len() == i,
        decreases program.methods@.len() - i,
    {
        let decl = &program.methods[i];
        if let Some(receiver) = method_receiver(b, decl, errors) {
            let n = decl.path.len();
            let name = &decl.path[n - 1].0;
            let name_span = decl.path[n - 1].1;
            if has_method(&index, receiver, name) {
                let mut m = owned("Method '");
                push_string(&mut m, defs[receiver.index()].name());
                push_char(&mut m, '.');
                push_string(&mut m, name);
                push_str(&mut m, "' already exists; methods are not overloaded");
                error(errors, name_span, m);
            } else if methods.len() < 0xffff_ffff {
                let ghost before = *b;
                let params = resolve_params(b, &decl.args, errors);
                let ghost mid = *b;
                let result = match &decl.ret {
                    Some(t) => resolve(b, t, errors),
                    None => None,
                };
                proof {
                    lemma_params_grow(params@, mid.nd(), mid.ns(), mid.nb(), b.ns(), b.nb());
                    lemma_methods_grow(methods@, before.nd(), before.ns(), before.nb(), b.ns(), b.nb());
                }
                let id = MethodId(methods.len() as u32);
                let ghost (m0, x0) = (methods@, index@);
                index.push((receiver, name.clone(), id));
                methods.push(MethodSig { receiver, name: name.clone(), params, result, decl: i });
                proof {
                    assert forall|k: int| 0 <= k < m0.len() implies methods@[k] == m0[k] && index@[k] == x0[k] by {}
                    assert forall|j: int| 0 <= j < m0.len() implies !(m0[j].receiver == receiver && m0[j].name@ == name@) by {
                        assert(x0[j].0 == m0[j].receiver && x0[j].1@ == m0[j].name@);
                    }
                    assert(decl.path@.last() == decl.path@[n - 1]);
                }
            }
        }
        i = i + 1;
    }
    (methods, index)
}

/// Declaration collection in order: allocate names, allocate union members,
/// resolve bodies, reject infinite layouts, compute equality and move-only
/// support, then resolve signatures and methods.
/// Equality support is the greatest assignment the definitions allow and
/// move-only status the least they force, each a fixed point.
pub open spec fn support_tables_exact(defs: Seq<TypeDef>, sums: Seq<Seq<Ty>>, eq: Seq<bool>, mo: Seq<bool>) -> bool {
    &&& eq.len() == defs.len()
    &&& mo.len() == defs.len()
    &&& forall|i: int| 0 <= i < eq.len() ==> #[trigger] eq[i] == def_eq_support(eq, sums, defs[i])
    &&& forall|f: Seq<bool>| #[trigger] eq_post_fixed(f, defs, sums) ==> le_bools(f, eq)
    &&& forall|i: int| 0 <= i < mo.len() ==> #[trigger] mo[i] == def_move_support(mo, sums, defs[i])
    &&& forall|f: Seq<bool>| #[trigger] move_pre_fixed(f, defs, sums) ==> le_bools(mo, f)
}

/// A definition's support reads only the sums it names, so growing the sum
/// table leaves it unchanged.
proof fn lemma_support_stable(f: Seq<bool>, s1: Seq<Seq<Ty>>, s2: Seq<Seq<Ty>>, d: TypeDef, nd: nat, nb: nat)
    requires
        def_ok(d, nd, s1.len(), nb),
        s1.len() <= s2.len(),
        forall|i: int| 0 <= i < s1.len() ==> #[trigger] s2[i] == s1[i],
    ensures
        def_eq_support(f, s1, d) == def_eq_support(f, s2, d),
        def_move_support(f, s1, d) == def_move_support(f, s2, d),
{
    match d {
        TypeDef::Represented { target, .. } => {
            if let Ty::Sum(id) = target {
                assert(s2[id.0 as int] == s1[id.0 as int]);
            }
        },
        TypeDef::Struct { fields, .. } => {
            assert forall|k: int| 0 <= k < fields@.len() implies
                eq_support(f, s1, #[trigger] fields@[k].1) == eq_support(f, s2, fields@[k].1)
                && move_support(f, s1, fields@[k].1) == move_support(f, s2, fields@[k].1) by {
                assert(ty_ok(fields@[k].1, nd, s1.len(), nb));
                if let Ty::Sum(id) = fields@[k].1 {
                    assert(s2[id.0 as int] == s1[id.0 as int]);
                }
            }
        },
        TypeDef::UnionMember { fields, .. } => {
            assert forall|k: int| 0 <= k < fields@.len() implies
                eq_support(f, s1, #[trigger] fields@[k].1) == eq_support(f, s2, fields@[k].1)
                && move_support(f, s1, fields@[k].1) == move_support(f, s2, fields@[k].1) by {
                assert(ty_ok(fields@[k].1, nd, s1.len(), nb));
                if let Ty::Sum(id) = fields@[k].1 {
                    assert(s2[id.0 as int] == s1[id.0 as int]);
                }
            }
        },
        TypeDef::Union { .. } => {},
    }
}

/// The fixed points computed against a sum table stay exact against any
/// table that extends it.
/// Each entry negated.
pub open spec fn negated(f: Seq<bool>) -> Seq<bool> {
    Seq::new(f.len(), |i: int| !f[i])
}

/// A type that is move-only under `!eq` is one that `eq` does not compare.
proof fn lemma_move_blocks_eq(eq: Seq<bool>, sums: Seq<Seq<Ty>>, t: Ty)
    requires
        move_support(negated(eq), sums, t),
    ensures
        !eq_support(eq, sums, t),
{
    if let Ty::Sum(id) = t {
        let k = choose|k: int| 0 <= k < sums[id.0 as int].len() && atom_move_only(negated(eq), #[trigger] sums[id.0 as int][k]);
        assert(!atom_eq(eq, sums[id.0 as int][k]));
    }
}

/// A move-only type never supports `==`: in exact support tables no type is
/// marked both.
pub proof fn law_move_only_is_not_comparable(defs: Seq<TypeDef>, sums: Seq<Seq<Ty>>, eq: Seq<bool>, mo: Seq<bool>)
    requires
        support_tables_exact(defs, sums, eq, mo),
    ensures
        forall|i: int| 0 <= i < defs.len() ==> !(#[trigger] mo[i] && eq[i]),
{
    let h = negated(eq);
    assert forall|i: int| 0 <= i < h.len() implies (def_move_support(h, sums, defs[i]) ==> #[trigger] h[i]) by {
        if def_move_support(h, sums, defs[i]) {
            match defs[i] {
                TypeDef::Represented { target, .. } => {
                    lemma_move_blocks_eq(eq, sums, target);
                }
                TypeDef::Struct { fields, .. } => {
                    let k = choose|k: int| 0 <= k < fields@.len() && move_support(h, sums, #[trigger] fields@[k].1);
                    lemma_move_blocks_eq(eq, sums, fields@[k].1);
                }
                TypeDef::UnionMember { fields, .. } => {
                    let k = choose|k: int| 0 <= k < fields@.len() && move_support(h, sums, #[trigger] fields@[k].1);
                    lemma_move_blocks_eq(eq, sums, fields@[k].1);
                }
                TypeDef::Union { members, .. } => {
                    let k = choose|k: int| 0 <= k < members@.len() && atom_move_only(h, Ty::User(#[trigger] members@[k]));
                    assert(!atom_eq(eq, Ty::User(members@[k])));
                }
            }
            assert(!eq[i]);
        }
    }
    assert(move_pre_fixed(h, defs, sums));
    assert(le_bools(mo, h));
    assert forall|i: int| 0 <= i < defs.len() implies !(#[trigger] mo[i] && eq[i]) by {
        if mo[i] {
            assert(h[i]);
        }
    }
}

/// What a list of fields holds by value reads only the sums it names.
proof fn lemma_field_edges_stable(fields: Seq<(String, Ty)>, s1: Seq<Seq<Ty>>, s2: Seq<Seq<Ty>>, nd: nat, nb: nat)
    requires
        crate::types::fields_ok(fields, nd, s1.len(), nb),
        s1.len() <= s2.len(),
        forall|i: int| 0 <= i < s1.len() ==> #[trigger] s2[i] == s1[i],
    ensures
        field_edges(fields, s1) == field_edges(fields, s2),
    decreases fields.len(),
{
    if fields.len() > 0 {
        assert(crate::types::fields_ok(fields.drop_last(), nd, s1.len(), nb)) by {
            assert forall|i: int| 0 <= i < fields.drop_last().len() implies ty_ok(#[trigger] fields.drop_last()[i].1, nd, s1.len(), nb) by {
                assert(fields.drop_last()[i] == fields[i]);
            }
        }
        lemma_field_edges_stable(fields.drop_last(), s1, s2, nd, nb);
        assert(ty_ok(fields[fields.len() - 1].1, nd, s1.len(), nb));
    }
}

/// What a definition holds by value reads only the sums it names, so
/// growing the sum table leaves it unchanged.
/// A layout cycle stays one when later sums are interned.
proof fn lemma_cycle_stable(defs: Seq<TypeDef>, s1: Seq<Seq<Ty>>, s2: Seq<Seq<Ty>>, nb: nat, path: Seq<TypeId>)
    requires
        forall|i: int| 0 <= i < defs.len() ==> def_ok(#[trigger] defs[i], defs.len(), s1.len(), nb),
        s1.len() <= s2.len(),
        forall|i: int| 0 <= i < s1.len() ==> #[trigger] s2[i] == s1[i],
    ensures
        layout_cycle(defs, s1, path) <==> layout_cycle(defs, s2, path),
{
    if path.len() >= 1 && forall|j: int| 0 <= j < path.len() ==> (#[trigger] path[j]).0 < defs.len() {
        assert forall|j: int| 0 <= j < path.len() implies contained_spec(defs[(#[trigger] path[j]).0 as int], s1)
            == contained_spec(defs[path[j].0 as int], s2) by {
            lemma_contained_stable(defs[path[j].0 as int], s1, s2, defs.len(), nb);
        }
        assert(path.last() == path[path.len() - 1]);
        assert forall|j: int| 1 <= j < path.len() implies
            (contained_spec(defs[path[j - 1].0 as int], s1).contains(#[trigger] path[j])
            <==> contained_spec(defs[path[j - 1].0 as int], s2).contains(path[j])) by {
            assert(contained_spec(defs[path[j - 1].0 as int], s1) == contained_spec(defs[path[j - 1].0 as int], s2));
        }
    }
}

pub proof fn lemma_contained_stable(d: TypeDef, s1: Seq<Seq<Ty>>, s2: Seq<Seq<Ty>>, nd: nat, nb: nat)
    requires
        def_ok(d, nd, s1.len(), nb),
        s1.len() <= s2.len(),
        forall|i: int| 0 <= i < s1.len() ==> #[trigger] s2[i] == s1[i],
    ensures
        contained_spec(d, s1) == contained_spec(d, s2),
{
    match d {
        TypeDef::Struct { fields, .. } => lemma_field_edges_stable(fields@, s1, s2, nd, nb),
        TypeDef::UnionMember { fields, .. } => lemma_field_edges_stable(fields@, s1, s2, nd, nb),
        _ => {}
    }
}

/// Exact support tables stay exact when the sum table grows: a
/// definition's support reads only the sums it names.
pub proof fn lemma_tables_stable(defs: Seq<TypeDef>, s1: Seq<Seq<Ty>>, s2: Seq<Seq<Ty>>, eq: Seq<bool>, mo: Seq<bool>, nd: nat, nb: nat)
    requires
        support_tables_exact(defs, s1, eq, mo),
        forall|i: int| 0 <= i < defs.len() ==> def_ok(#[trigger] defs[i], nd, s1.len(), nb),
        s1.len() <= s2.len(),
        forall|i: int| 0 <= i < s1.len() ==> #[trigger] s2[i] == s1[i],
    ensures
        support_tables_exact(defs, s2, eq, mo),
{
    assert forall|i: int| 0 <= i < eq.len() implies #[trigger] eq[i] == def_eq_support(eq, s2, defs[i]) by {
        lemma_support_stable(eq, s1, s2, defs[i], nd, nb);
    }
    assert forall|i: int| 0 <= i < mo.len() implies #[trigger] mo[i] == def_move_support(mo, s2, defs[i]) by {
        lemma_support_stable(mo, s1, s2, defs[i], nd, nb);
    }
    assert forall|f: Seq<bool>| #[trigger] eq_post_fixed(f, defs, s2) implies le_bools(f, eq) by {
        assert forall|i: int| 0 <= i < f.len() implies (#[trigger] f[i] ==> def_eq_support(f, s1, defs[i])) by {
            lemma_support_stable(f, s1, s2, defs[i], nd, nb);
        }
        assert(eq_post_fixed(f, defs, s1));
    }
    assert forall|f: Seq<bool>| #[trigger] move_pre_fixed(f, defs, s2) implies le_bools(mo, f) by {
        assert forall|i: int| 0 <= i < f.len() implies (def_move_support(f, s1, defs[i]) ==> #[trigger] f[i]) by {
            lemma_support_stable(f, s1, s2, defs[i], nd, nb);
        }
        assert(move_pre_fixed(f, defs, s1));
    }
}

pub fn collect(program: &Program, errors: &mut Vec<Error>) -> (c: Collected)
    ensures
        c.wf(),
        forall|i: int| 0 <= i < c.methods@.len() ==> (#[trigger] c.methods@[i]).decl < program.methods@.len(),
        forall|k: int| 0 <= k < c.methods@.len() ==> (#[trigger] c.methods@[k]).name@ == program.methods@[c.methods@[k].decl as int].path@.last().0@,
        c.method_index@.len() == c.methods@.len(),
        forall|k: int| 0 <= k < c.methods@.len() ==> (#[trigger] c.method_index@[k]).0 == c.methods@[k].receiver
            && c.method_index@[k].1@ == c.methods@[k].name@ && c.method_index@[k].2 == MethodId(k as u32),
        forall|j: int, k: int| 0 <= j < k < c.methods@.len() ==> !((#[trigger] c.methods@[j]).receiver == (#[trigger] c.methods@[k]).receiver
            && c.methods@[j].name@ == c.methods@[k].name@),
        final(errors)@.len() == old(errors)@.len() && program.methods@.len() < u32::MAX ==> c.methods@.len() == program.methods@.len(),
        final(errors)@.len() >= old(errors)@.len(),
        appended(old(errors)@, final(errors)@),
        sigs_named(c.sigs@, program),
        final(errors)@.len() == old(errors)@.len() ==> bridges_scalar(c.sigs@, program),
        final(errors)@.len() == old(errors)@.len() && bridge_types_written(program) ==> bridges_not_nil(c.sigs@, program),
        no_declarations(program) ==> final(errors)@ == old(errors)@ && c.methods@.len() == 0,
        records_only(program) ==> final(errors)@ == old(errors)@,
        declared_records_only(program) && (exists|path: Seq<TypeId>| #[trigger] layout_cycle(c.types.defs_view(), c.types.sums_view(), path))
            ==> final(errors)@.len() == old(errors)@.len() + 1
                && cycle_reported_at(c.types.defs_view(), c.types.sums_view(), final(errors)@, old(errors)@.len() as int),
        declared_records_only(program) && !(exists|path: Seq<TypeId>| #[trigger] layout_cycle(c.types.defs_view(), c.types.sums_view(), path))
            ==> final(errors)@ == old(errors)@,
        type_names_distinct(program.types@) && program.types@.len() < u32::MAX ==> forall|i: int, k: int|
            0 <= i < program.types@.len() && program.types@[i].body is Struct
            && 0 <= k < program.types@[i].body->Struct_0@.len() && #[trigger] field_repeated(program.types@[i].body->Struct_0@, k)
            ==> crate::statements::reported(final(errors)@, old(errors)@.len() as int,
                field_exists_message(program.types@[i].name@, program.types@[i].body->Struct_0@[k].name@)),
        type_names_distinct(program.types@) && program.types@.len() < u32::MAX
            ==> top_level_in_order(c.types.top_level_view(), program.types@),
        (exists|i: int| 0 <= i < c.types.defs_view().len() && #[trigger] holds_itself(c.types.defs_view(), c.types.sums_view(), i))
            ==> final(errors)@.len() > old(errors)@.len(),
        (exists|i: int| 0 <= i < c.types.defs_view().len() && #[trigger] holds_itself(c.types.defs_view(), c.types.sums_view(), i))
            ==> exists|k: int| old(errors)@.len() <= k < final(errors)@.len()
                && #[trigger] cycle_reported_at(c.types.defs_view(), c.types.sums_view(), final(errors)@, k),
        (exists|path: Seq<TypeId>| #[trigger] layout_cycle(c.types.defs_view(), c.types.sums_view(), path))
            ==> exists|k: int| old(errors)@.len() <= k < final(errors)@.len()
                && #[trigger] cycle_reported_at(c.types.defs_view(), c.types.sums_view(), final(errors)@, k),
        forall|u: int| 0 <= u < program.types@.len() && callable_named(program, (#[trigger] program.types@[u]).name@)
            ==> head_clash_reported(old(errors)@.len() as int, final(errors)@, program.types@[u]),
        type_names_distinct(program.types@) && program.types@.len() < u32::MAX
            ==> forall|i: int| 0 <= i < program.types@.len() ==> def_matches_decl(#[trigger] c.types.defs_view()[i], program.types@[i]),
        declarations_fit(program.types@) ==> forall|j: int| 0 <= j < program.types@.len() && program.types@[j].body is Union
            ==> #[trigger] union_laid_out(c.types.defs_view(), program.types@, j),
        final(errors)@.len() == old(errors)@.len() ==> support_tables_exact(
            c.types.defs_view(), c.types.sums_view(), c.types.equality_view(), c.types.move_only_view()),
{
    let mut b = Builder {
        defs: Vec::new(),
        spans: Vec::new(),
        top_level: Vec::new(),
        members: Vec::new(),
        sums: SumTable::new(),
        boxes: BoxTable::new(),
    };
    proof {
        if records_only(program) {
            lemma_ordered_records_declared(program.types@);
        }
    }
    let ghost recs = declared_records_only(program);
    let ids = allocate_types(&mut b, program, errors);
    let ghost nd0 = b.nd();
    let ghost top0 = b.top_level@;
    proof {
        if recs {
            assert(b.boxes.view().len() == 0);
            assert(errors@ == old(errors)@);
        }
    }
    let ghost e_ids = errors@;
    let member_ids = allocate_members(&mut b, program, &ids, errors);
    proof {
        if recs {
            assert(forall|i: int| 0 <= i < program.types@.len() ==> (#[trigger] program.types@[i]).body is Struct);
            assert(errors@ == e_ids);
        }
    }
    proof {
        if type_names_distinct(program.types@) && program.types@.len() < u32::MAX {
            assert(fresh_ids(ids@, member_ids@));
        }
        if declarations_fit(program.types@) {
            lemma_members_before_mono(program.types@, 0, program.types@.len() as int);
            assert(sequential_ids(ids@, member_ids@, program.types@));
        }
    }
    let ghost e_members = errors@;
    resolve_bodies(&mut b, program, &ids, &member_ids, errors);
    let ghost e_res = errors@;
    let defs = finish_defs(&b);
    proof {
        if recs {
            assert(errors@ == e_members);
            assert forall|i: int| 0 <= i < defs@.len() implies record_resolved(Some(#[trigger] defs@[i]), program.types@[i], top0) by {
                assert(record_resolved(b.defs@[i], program.types@[i], top0));
                assert(same_def(defs@[i], b.defs@[i]->Some_0));
            }
        }
    }
    proof {
        if declarations_fit(program.types@) {
            assert forall|j: int| 0 <= j < program.types@.len() && program.types@[j].body is Union
                implies #[trigger] union_laid_out(defs@, program.types@, j) by {
                assert(union_installed(b.defs@, program.types@, j));
                assert(same_def(defs@[j], b.defs@[j]->Some_0));
                assert forall|k: int| 0 <= k < program.types@[j].body->Union_0@.len()
                    implies #[trigger] member_laid_out(defs@, program.types@, j, k) by {
                    assert(member_installed(b.defs@, program.types@, j, k));
                    let x = program.types@.len() + members_before(program.types@, j) + k;
                    assert(same_def(defs@[x], b.defs@[x]->Some_0));
                }
            }
        }
        if type_names_distinct(program.types@) && program.types@.len() < u32::MAX {
            assert forall|i: int| 0 <= i < program.types@.len() implies def_matches_decl(#[trigger] defs@[i], program.types@[i]) by {
                assert(b.defs@[i] is Some);
                assert(same_def(defs@[i], b.defs@[i]->Some_0));
            }
        }
    }
    let ghost nb = b.nb();
    proof {
        b.boxes.lemma_len();
        assert forall|i: int, j: int| 0 <= i < b.ns() && 0 <= j < b.sums.view()[i].len()
            implies ty_ok(#[trigger] b.sums.view()[i][j], defs@.len(), b.ns(), b.nb()) by {
            assert(b.ok(b.sums.view()[i][j]));
        }
    }
    let ghost e0 = errors@.len();
    let ghost s1 = b.sums.view();
    proof {
        assert(e0 >= old(errors)@.len());
    }
    proof {
        if no_declarations(program) {
            assert(b.nd() == 0);
            assert(defs@.len() == 0);
            assert(errors@ == old(errors)@);
        }
    }
    proof {
        if recs && records_only(program) {
            lemma_records_lower(defs@, s1, program.types@, top0);
        }
        if recs {
            assert(errors@ == old(errors)@);
        }
    }
    let ghost e_pre_layout = errors@;
    let acyclic = reject_layout_cycles(&defs, &b.spans, &b.sums, Ghost(nb), errors);
    let ghost e_acyclic = errors@;
    let equality = if acyclic {
        equality_support(&defs, &b.sums, Ghost(nb))
    } else {
        let mut v: Vec<bool> = Vec::new();
        let mut i: usize = 0;
        while i < defs.len()
            invariant
                i <= defs@.len(),
                v@.len() == i,
            decreases defs@.len() - i,
        {
            v.push(false);
            i = i + 1;
        }
        v
    };
    let move_only = if acyclic {
        move_only_support(&defs, &b.sums, Ghost(nb))
    } else {
        let mut v: Vec<bool> = Vec::new();
        let mut i: usize = 0;
        while i < defs.len()
            invariant
                i <= defs@.len(),
                v@.len() == i,
            decreases defs@.len() - i,
        {
            v.push(true);
            i = i + 1;
        }
        v
    };
    let ghost b1 = b;
    proof {
        if no_declarations(program) {
            assert(errors@ == e_acyclic);
            assert(errors@ == old(errors)@);
        }
    }
    let sigs = collect_sigs(&mut b, program, errors);
    proof {
        if recs {
            assert(errors@ == e_acyclic);
            assert(sigs@.len() == 0);
        }
    }
    let ghost e_sigs = errors@.len();
    let ghost e_sig_seq = errors@;
    let mut t: usize = 0;
    while t < program.types.len()
        invariant
            errors@.len() >= e_sigs,
            appended(old(errors)@, errors@),
            e_sigs >= old(errors)@.len(),
            sigs_named(sigs@, program),
            forall|u: int| 0 <= u < t && callable_named(program, (#[trigger] program.types@[u]).name@)
                ==> head_clash_reported(old(errors)@.len() as int, errors@, program.types@[u]),
            t == 0 ==> errors@ == e_sig_seq,
            recs ==> errors@ == e_sig_seq && sigs@.len() == 0,
            appended(e_res, e_sig_seq),
            appended(e_sig_seq, errors@),
            recs == declared_records_only(program),
            t <= program.types@.len(),
        decreases program.types@.len() - t,
    {
        let decl = &program.types[t];
        let ghost e_before = errors@;
        proof {
            if callable_named(program, decl.name@) {
                if exists|j: int| 0 <= j < program.funcs@.len() && (#[trigger] program.funcs@[j]).name@ == decl.name@ {
                    let j = choose|j: int| 0 <= j < program.funcs@.len() && (#[trigger] program.funcs@[j]).name@ == decl.name@;
                    assert(sigs@[j].0@ == decl.name@);
                } else {
                    let j = choose|j: int| 0 <= j < program.externs@.len() && (#[trigger] program.externs@[j]).name@ == decl.name@;
                    assert(sigs@[program.funcs@.len() + j].0@ == decl.name@);
                }
            }
        }
        if has_sig(&sigs, &decl.name) {
            let mut m = owned("Type '");
            push_string(&mut m, &decl.name);
            push_str(&mut m, "' shares a call head with the function or Rust bridge of the same name");
            errors.push(Error { span: decl.name_span, msg: m });
            proof {
                assert(errors@[e_before.len() as int].msg@ == "Type '"@ + decl.name@
                    + "' shares a call head with the function or Rust bridge of the same name"@);
            }
        }
        proof {
            assert forall|u: int| 0 <= u < t + 1 && callable_named(program, (#[trigger] program.types@[u]).name@)
                implies head_clash_reported(old(errors)@.len() as int, errors@, program.types@[u]) by {
                if u < t {
                    let k = choose|k: int| old(errors)@.len() <= k < e_before.len() && head_clash_at(e_before, k, program.types@[u]);
                    assert(errors@[k] == e_before[k]);
                    assert(head_clash_at(errors@, k, program.types@[u]));
                } else {
                    assert(head_clash_at(errors@, e_before.len() as int, program.types@[u]));
                }
            }
        }
        t = t + 1;
    }
    let ghost b2 = b;
    let ghost e_loop = errors@;
    proof {
        if no_declarations(program) {
            assert(e_sig_seq == old(errors)@);
            assert(errors@ == old(errors)@);
        }
    }
    let (methods, method_index) = collect_methods(&mut b, &defs, program, errors);
    proof {
        if recs {
            assert(e_loop == e_sig_seq);
            assert(errors@ == e_acyclic);
        }
    }
    proof {
        if no_declarations(program) {
            assert(errors@ == old(errors)@);
            assert(methods@.len() == 0);
        }
    }
    proof {
        assert forall|u: int| 0 <= u < program.types@.len() && callable_named(program, (#[trigger] program.types@[u]).name@)
            implies head_clash_reported(old(errors)@.len() as int, errors@, program.types@[u]) by {
            let k = choose|k: int| old(errors)@.len() <= k < e_loop.len() && head_clash_at(e_loop, k, program.types@[u]);
            assert(errors@[k] == e_loop[k]);
            assert(head_clash_at(errors@, k, program.types@[u]));
        }
    }
    proof {
        lemma_sigs_grow(sigs@, b2.nd(), b2.ns(), b2.nb(), b.ns(), b.nb());
        assert forall|i: int| 0 <= i < defs@.len() implies def_ok(#[trigger] defs@[i], defs@.len(), b.ns(), b.nb()) by {
            crate::types::lemma_def_ok_grow(defs@[i], defs@.len(), b1.ns(), b1.nb(), b.ns(), b.nb());
        }
        assert forall|i: int, j: int| 0 <= i < b.ns() && 0 <= j < b.sums.view()[i].len()
            implies ty_ok(#[trigger] b.sums.view()[i][j], defs@.len(), b.ns(), b.nb()) by {
            assert(b.ok(b.sums.view()[i][j]));
        }
        assert forall|i: int| 0 <= i < b.nb() implies ty_ok(#[trigger] b.boxes.view()[i], defs@.len(), b.ns(), b.nb())
            && boxes_below(b.boxes.view()[i], b.sums.view(), i as nat) by {
            assert(b.ok(b.boxes.view()[i]));
        }
    }
    proof {
        if !acyclic {
            let k = e_pre_layout.len() as int;
            let path = choose|path: Seq<TypeId>| #[trigger] layout_cycle(defs@, s1, path) && e_acyclic[k].msg@ == cycle_message(defs@, path);
            lemma_cycle_stable(defs@, s1, b.sums.view(), nb, path);
            assert(layout_cycle(defs@, b.sums.view(), path));
            assert(appended(e_acyclic, errors@));
            assert(errors@[k] == e_acyclic[k]);
            assert(cycle_reported_at(defs@, b.sums.view(), errors@, k));
        }
    }
    proof {
        if acyclic {
            assert forall|path: Seq<TypeId>| !#[trigger] layout_cycle(defs@, b.sums.view(), path) by {
                lemma_cycle_stable(defs@, s1, b.sums.view(), nb, path);
            }
            lemma_tables_stable(defs@, s1, b.sums.view(), equality@, move_only@, defs@.len(), nb);
            assert forall|i: int| 0 <= i < defs@.len() implies !#[trigger] holds_itself(defs@, b.sums.view(), i) by {
                lemma_contained_stable(defs@[i], s1, b.sums.view(), defs@.len(), nb);
                assert(!holds_itself(defs@, s1, i));
            }
        }
    }
    proof {
        if type_names_distinct(program.types@) && program.types@.len() < u32::MAX {
            assert(appended(e_res, errors@));
            assert forall|i: int, k: int| 0 <= i < program.types@.len() && program.types@[i].body is Struct
                && 0 <= k < program.types@[i].body->Struct_0@.len() && #[trigger] field_repeated(program.types@[i].body->Struct_0@, k)
                implies crate::statements::reported(errors@, old(errors)@.len() as int,
                    field_exists_message(program.types@[i].name@, program.types@[i].body->Struct_0@[k].name@)) by {
                let msg = field_exists_message(program.types@[i].name@, program.types@[i].body->Struct_0@[k].name@);
                assert(ids@[i] is Some);
                assert(crate::statements::reported(e_res, e_members.len() as int, msg));
                let w = choose|w: int| e_members.len() <= w < e_res.len() && (#[trigger] e_res[w]).msg@ == msg;
                assert(crate::statements::reported(e_res, old(errors)@.len() as int, msg));
                lemma_reported_kept(e_res, errors@, old(errors)@.len() as int, msg);
            }
        }
    }
    let Builder { defs: _, spans: _, top_level, members, sums, boxes } = b;
    let types = Types::assemble(defs, top_level, members, equality, move_only, sums, boxes);
    Collected { types, methods, method_index, sigs }
}

} // verus!

//! Type identity, the type-definition table, and declaration collection.
//!
//! Top-level type names are collected in source order and given stable
//! [`TypeId`]s before any body is resolved; union members are numbered
//! afterwards, and the by-value layout graph is checked for cycles before
//! any expression is checked.

use vstd::prelude::*;
use crate::ast::{Span, TypeName};
use crate::checker::TParam;
use crate::text::{owned, push_char, push_str, push_string, same, string_is, push_decimal};

verus! {

/// An opaque nominal type identity; it indexes [`Types::defs`].
#[derive(Clone, Copy, Debug, PartialEq, Eq, Hash, Structural)]
pub struct TypeId(pub u32);

impl TypeId {
    pub fn index(self) -> (r: usize)
        ensures
            r == self.0,
    {
        self.0 as usize
    }
}

/// An opaque method identity, allocated in declaration order.
#[derive(Clone, Copy, Debug, PartialEq, Eq, Hash, Structural)]
pub struct MethodId(pub u32);

impl MethodId {
    pub fn index(self) -> (r: usize)
        ensures
            r == self.0,
    {
        self.0 as usize
    }
}

/// An inline sum's identity: an index into [`SumTable`]'s interned member
/// sets. Only [`SumTable::intern`] produces one.
#[derive(Clone, Copy, Debug, PartialEq, Eq, Hash, Structural)]
pub struct SumId(pub u32);

impl SumId {
    pub fn index(self) -> (r: usize)
        ensures
            r == self.0,
    {
        self.0 as usize
    }
}

/// A boxed pointee's identity: an index into [`BoxTable`]'s interned
/// pointee types. Only [`BoxTable::intern`] produces one.
#[derive(Clone, Copy, Debug, PartialEq, Eq, Hash, Structural)]
pub struct BoxId(pub u32);

impl BoxId {
    pub fn index(self) -> (r: usize)
        ensures
            r == self.0,
    {
        self.0 as usize
    }
}

/// Every checked type. A user-defined type's category lives in the type
/// table, never here; an inline sum's members and a box's pointee do too.
#[derive(Clone, Copy, Debug, PartialEq, Eq, Hash, Structural)]
pub enum Ty {
    Dec64,
    Int64,
    Bool,
    Nil,
    UInt8,
    UInt16,
    UInt32,
    UInt64,
    Float32,
    User(TypeId),
    Sum(SumId),
    Box(BoxId),
}

/// The position of a type in the canonical member order: by variant in
/// declaration order, then by identity.
pub open spec fn ty_key(t: Ty) -> int {
    match t {
        Ty::Dec64 => 0,
        Ty::Int64 => 1,
        Ty::Bool => 2,
        Ty::Nil => 3,
        Ty::UInt8 => 4,
        Ty::UInt16 => 5,
        Ty::UInt32 => 6,
        Ty::UInt64 => 7,
        Ty::Float32 => 8,
        Ty::User(id) => 9 + id.0 as int,
        Ty::Sum(id) => 9 + 0x1_0000_0000 + id.0 as int,
        Ty::Box(id) => 9 + 0x2_0000_0000 + id.0 as int,
    }
}

/// Distinct types have distinct keys, so the key order is total.
pub proof fn lemma_ty_key_injective(a: Ty, b: Ty)
    ensures
        ty_key(a) == ty_key(b) <==> a == b,
{
}

pub fn ty_key_exec(t: Ty) -> (k: u64)
    ensures
        k == ty_key(t),
{
    match t {
        Ty::Dec64 => 0,
        Ty::Int64 => 1,
        Ty::Bool => 2,
        Ty::Nil => 3,
        Ty::UInt8 => 4,
        Ty::UInt16 => 5,
        Ty::UInt32 => 6,
        Ty::UInt64 => 7,
        Ty::Float32 => 8,
        Ty::User(id) => 9 + id.0 as u64,
        Ty::Sum(id) => 9 + 0x1_0000_0000 + id.0 as u64,
        Ty::Box(id) => 9 + 0x2_0000_0000 + id.0 as u64,
    }
}

/// The built-in type a type name denotes.
pub open spec fn ty_of_name(n: TypeName) -> Ty {
    match n {
        TypeName::Dec64 => Ty::Dec64,
        TypeName::Int64 => Ty::Int64,
        TypeName::Bool => Ty::Bool,
        TypeName::Nil => Ty::Nil,
        TypeName::UInt8 => Ty::UInt8,
        TypeName::UInt16 => Ty::UInt16,
        TypeName::UInt32 => Ty::UInt32,
        TypeName::UInt64 => Ty::UInt64,
        TypeName::Float32 => Ty::Float32,
    }
}

impl Ty {
    pub fn from_name(n: TypeName) -> (t: Ty)
        ensures
            t == ty_of_name(n),
    {
        match n {
            TypeName::Dec64 => Ty::Dec64,
            TypeName::Int64 => Ty::Int64,
            TypeName::Bool => Ty::Bool,
            TypeName::Nil => Ty::Nil,
            TypeName::UInt8 => Ty::UInt8,
            TypeName::UInt16 => Ty::UInt16,
            TypeName::UInt32 => Ty::UInt32,
            TypeName::UInt64 => Ty::UInt64,
            TypeName::Float32 => Ty::Float32,
        }
    }
}

/// Each built-in type name denotes the built-in type of the same name and is
/// spelled back as written; no two names share a type or a spelling.
pub proof fn law_builtin_type_names(a: TypeName, b: TypeName)
    ensures
        ty_of_name(TypeName::Dec64) == Ty::Dec64,
        scalar_name(Ty::Dec64) == "Dec64"@,
        ty_of_name(TypeName::Int64) == Ty::Int64,
        scalar_name(Ty::Int64) == "Int64"@,
        ty_of_name(TypeName::Bool) == Ty::Bool,
        scalar_name(Ty::Bool) == "Bool"@,
        ty_of_name(TypeName::Nil) == Ty::Nil,
        scalar_name(Ty::Nil) == "Nil"@,
        ty_of_name(TypeName::UInt8) == Ty::UInt8,
        scalar_name(Ty::UInt8) == "UInt8"@,
        ty_of_name(TypeName::UInt16) == Ty::UInt16,
        scalar_name(Ty::UInt16) == "UInt16"@,
        ty_of_name(TypeName::UInt32) == Ty::UInt32,
        scalar_name(Ty::UInt32) == "UInt32"@,
        ty_of_name(TypeName::UInt64) == Ty::UInt64,
        scalar_name(Ty::UInt64) == "UInt64"@,
        ty_of_name(TypeName::Float32) == Ty::Float32,
        scalar_name(Ty::Float32) == "Float32"@,
        ty_of_name(a) == ty_of_name(b) ==> a == b,
        scalar_name(ty_of_name(a)) == scalar_name(ty_of_name(b)) ==> a == b,
{
    reveal_strlit("Dec64");
    reveal_strlit("Int64");
    reveal_strlit("Bool");
    reveal_strlit("Nil");
    reveal_strlit("UInt8");
    reveal_strlit("UInt16");
    reveal_strlit("UInt32");
    reveal_strlit("UInt64");
    reveal_strlit("Float32");
    assert("Dec64"@[0] != "Int64"@[0]);
    assert("Dec64"@.len() != "Bool"@.len());
    assert("Dec64"@.len() != "Nil"@.len());
    assert("Dec64"@[0] != "UInt8"@[0]);
    assert("Dec64"@.len() != "UInt16"@.len());
    assert("Dec64"@.len() != "UInt32"@.len());
    assert("Dec64"@.len() != "UInt64"@.len());
    assert("Dec64"@.len() != "Float32"@.len());
    assert("Int64"@.len() != "Bool"@.len());
    assert("Int64"@.len() != "Nil"@.len());
    assert("Int64"@[0] != "UInt8"@[0]);
    assert("Int64"@.len() != "UInt16"@.len());
    assert("Int64"@.len() != "UInt32"@.len());
    assert("Int64"@.len() != "UInt64"@.len());
    assert("Int64"@.len() != "Float32"@.len());
    assert("Bool"@.len() != "Nil"@.len());
    assert("Bool"@.len() != "UInt8"@.len());
    assert("Bool"@.len() != "UInt16"@.len());
    assert("Bool"@.len() != "UInt32"@.len());
    assert("Bool"@.len() != "UInt64"@.len());
    assert("Bool"@.len() != "Float32"@.len());
    assert("Nil"@.len() != "UInt8"@.len());
    assert("Nil"@.len() != "UInt16"@.len());
    assert("Nil"@.len() != "UInt32"@.len());
    assert("Nil"@.len() != "UInt64"@.len());
    assert("Nil"@.len() != "Float32"@.len());
    assert("UInt8"@.len() != "UInt16"@.len());
    assert("UInt8"@.len() != "UInt32"@.len());
    assert("UInt8"@.len() != "UInt64"@.len());
    assert("UInt8"@.len() != "Float32"@.len());
    assert("UInt16"@[4] != "UInt32"@[4]);
    assert("UInt16"@[4] != "UInt64"@[4]);
    assert("UInt16"@.len() != "Float32"@.len());
    assert("UInt32"@[4] != "UInt64"@[4]);
    assert("UInt32"@.len() != "Float32"@.len());
    assert("UInt64"@.len() != "Float32"@.len());
}

/// The spelling of a built-in type.
pub open spec fn scalar_name(t: Ty) -> Seq<char> {
    match t {
        Ty::Dec64 => "Dec64"@,
        Ty::Int64 => "Int64"@,
        Ty::Bool => "Bool"@,
        Ty::Nil => "Nil"@,
        Ty::UInt8 => "UInt8"@,
        Ty::UInt16 => "UInt16"@,
        Ty::UInt32 => "UInt32"@,
        Ty::UInt64 => "UInt64"@,
        Ty::Float32 => "Float32"@,
        _ => Seq::empty(),
    }
}

pub open spec fn is_scalar(t: Ty) -> bool {
    !(t is User) && !(t is Sum) && !(t is Box)
}

/// Appends a built-in type's spelling, or a placeholder naming a table entry
/// for the others; diagnostics name those through [`Types::display`].
pub fn push_ty_text(s: &mut String, t: Ty)
    ensures
        is_scalar(t) ==> final(s)@ == old(s)@ + scalar_name(t),
{
    match t {
        Ty::Dec64 => push_str(s, "Dec64"),
        Ty::Int64 => push_str(s, "Int64"),
        Ty::Bool => push_str(s, "Bool"),
        Ty::Nil => push_str(s, "Nil"),
        Ty::UInt8 => push_str(s, "UInt8"),
        Ty::UInt16 => push_str(s, "UInt16"),
        Ty::UInt32 => push_str(s, "UInt32"),
        Ty::UInt64 => push_str(s, "UInt64"),
        Ty::Float32 => push_str(s, "Float32"),
        Ty::User(id) => {
            push_str(s, "<user type #");
            push_decimal(s, id.0 as u64);
            push_char(s, '>');
        }
        Ty::Sum(id) => {
            push_str(s, "<sum #");
            push_decimal(s, id.0 as u64);
            push_char(s, '>');
        }
        Ty::Box(id) => {
            push_str(s, "<box #");
            push_decimal(s, id.0 as u64);
            push_char(s, '>');
        }
    }
}

/// A canonical member set: strictly increasing in key order, so sorted and
/// free of repeats, with at least two members, none of them a sum.
pub open spec fn normalized(m: Seq<Ty>) -> bool {
    &&& m.len() >= 2
    &&& forall|i: int, j: int| 0 <= i < j < m.len() ==> ty_key(#[trigger] m[i]) < ty_key(#[trigger] m[j])
    &&& forall|i: int| 0 <= i < m.len() ==> !(#[trigger] m[i] is Sum)
}

/// Whether two member lists are equal element by element.
pub fn tys_equal(a: &Vec<Ty>, b: &Vec<Ty>) -> (r: bool)
    ensures
        r == (a@ == b@),
{
    if a.len() != b.len() {
        return false;
    }
    let mut i: usize = 0;
    while i < a.len()
        invariant
            a@.len() == b@.len(),
            i <= a@.len(),
            forall|j: int| 0 <= j < i ==> a@[j] == b@[j],
        decreases a@.len() - i,
    {
        if a[i] != b[i] {
            return false;
        }
        i = i + 1;
    }
    assert(a@ =~= b@);
    true
}

/// Interns each inline sum's canonical member set, so `Byte | Nil` and
/// `Nil | Byte` share one identity.
pub struct SumTable {
    members: Vec<Vec<Ty>>,
}

impl SumTable {
    pub closed spec fn view(&self) -> Seq<Seq<Ty>> {
        Seq::new(self.members@.len(), |i: int| self.members@[i]@)
    }

    /// Every set is canonical and appears once.
    pub closed spec fn wf(&self) -> bool {
        &&& self.members@.len() <= u32::MAX
        &&& forall|i: int| 0 <= i < self.members@.len() ==> normalized(#[trigger] self.members@[i]@)
        &&& forall|i: int, j: int| 0 <= i < j < self.members@.len() ==> #[trigger] self.members@[i]@ != #[trigger] self.members@[j]@
    }

    /// No member set appears twice.
    pub proof fn lemma_distinct(&self)
        requires
            self.wf(),
        ensures
            forall|i: int, j: int| 0 <= i < j < self.view().len() ==> #[trigger] self.view()[i] != #[trigger] self.view()[j],
    {
    }

    pub fn new() -> (t: SumTable)
        ensures
            t.wf(),
            t.view().len() == 0,
    {
        SumTable { members: Vec::new() }
    }

    pub fn len(&self) -> (n: usize)
        ensures
            n == self.view().len(),
    {
        self.members.len()
    }

    /// Interns an already-normalized member set, reusing the identity of an
    /// identical set.
    pub fn intern(&mut self, members: Vec<Ty>) -> (id: SumId)
        requires
            old(self).wf(),
            normalized(members@),
            old(self).view().len() < u32::MAX,
        ensures
            final(self).wf(),
            id.0 < final(self).view().len(),
            final(self).view()[id.0 as int] == members@,
            old(self).view().contains(members@) ==> final(self).view() == old(self).view(),
            !old(self).view().contains(members@) ==> final(self).view() == old(self).view().push(members@),
            forall|i: int| 0 <= i < old(self).view().len() && #[trigger] old(self).view()[i] == members@ ==> id.0 == i,
    {
        let mut i: usize = 0;
        while i < self.members.len()
            invariant
                self.wf(),
                i <= self.members@.len(),
                forall|j: int| 0 <= j < i ==> self.members@[j]@ != members@,
            decreases self.members@.len() - i,
        {
            if tys_equal(&self.members[i], &members) {
                proof {
                    assert(self.view()[i as int] == members@);
                    assert forall|j: int| 0 <= j < self.view().len() && #[trigger] self.view()[j] == members@ implies j == i by {
                        if j != i {
                            if j < i {
                                assert(self.members@[j]@ != self.members@[i as int]@);
                            } else {
                                assert(self.members@[i as int]@ != self.members@[j]@);
                            }
                        }
                    }
                }
                return SumId(i as u32);
            }
            i = i + 1;
        }
        let ghost old_view = self.view();
        let id = SumId(self.members.len() as u32);
        proof {
            assert(!old_view.contains(members@)) by {
                if old_view.contains(members@) {
                    let k = choose|k: int| 0 <= k < old_view.len() && old_view[k] == members@;
                    assert(self.members@[k]@ == members@);
                }
            }
        }
        self.members.push(members);
        proof {
            assert(self.view() =~= old_view.push(members@));
        }
        id
    }

    /// A sum's members, in canonical order.
    pub fn members(&self, id: SumId) -> (m: &Vec<Ty>)
        requires
            id.0 < self.view().len(),
        ensures
            m@ == self.view()[id.0 as int],
    {
        &self.members[id.index()]
    }

    /// Every interned set, indexed by `SumId`.
    pub fn all(&self) -> (a: &Vec<Vec<Ty>>)
        ensures
            a@.len() == self.view().len(),
            forall|i: int| 0 <= i < a@.len() ==> (#[trigger] a@[i])@ == self.view()[i],
    {
        &self.members
    }

    pub proof fn lemma_wf_normalized(&self, i: int)
        requires
            self.wf(),
            0 <= i < self.view().len(),
        ensures
            normalized(self.view()[i]),
    {
        assert(normalized(self.members@[i]@));
    }
}

/// A sum's identity is its member set: two identities of a well-formed
/// table with the same members are the same identity, so interning a set a
/// second time gives back the first identity.
pub proof fn law_sum_identity_is_its_members(t: SumTable, a: SumId, b: SumId)
    requires
        t.wf(),
        a.0 < t.view().len(),
        b.0 < t.view().len(),
        t.view()[a.0 as int] == t.view()[b.0 as int],
    ensures
        a == b,
{
    if a.0 < b.0 {
        assert(t.members@[a.0 as int]@ != t.members@[b.0 as int]@);
    } else if b.0 < a.0 {
        assert(t.members@[b.0 as int]@ != t.members@[a.0 as int]@);
    }
}

/// Interns each `Box<T>`'s pointee type: a box's identity is its pointee.
pub struct BoxTable {
    pointees: Vec<Ty>,
}

impl BoxTable {
    pub closed spec fn view(&self) -> Seq<Ty> {
        self.pointees@
    }

    pub closed spec fn wf(&self) -> bool {
        &&& self.pointees@.len() <= u32::MAX
        &&& forall|i: int, j: int| 0 <= i < j < self.pointees@.len() ==> self.pointees@[i] != self.pointees@[j]
    }

    /// No pointee appears twice.
    pub proof fn lemma_distinct(&self)
        requires
            self.wf(),
        ensures
            forall|i: int, j: int| 0 <= i < j < self.view().len() ==> #[trigger] self.view()[i] != #[trigger] self.view()[j],
    {
    }

    pub fn new() -> (t: BoxTable)
        ensures
            t.wf(),
            t.view().len() == 0,
    {
        BoxTable { pointees: Vec::new() }
    }

    pub fn len(&self) -> (n: usize)
        ensures
            n == self.view().len(),
    {
        self.pointees.len()
    }

    /// Interns a pointee type, reusing the identity of an identical one.
    pub fn intern(&mut self, pointee: Ty) -> (id: BoxId)
        requires
            old(self).wf(),
            old(self).view().len() < u32::MAX,
        ensures
            final(self).wf(),
            id.0 < final(self).view().len(),
            final(self).view()[id.0 as int] == pointee,
            old(self).view().contains(pointee) ==> final(self).view() == old(self).view(),
            !old(self).view().contains(pointee) ==> final(self).view() == old(self).view().push(pointee),
            forall|i: int| 0 <= i < old(self).view().len() && #[trigger] old(self).view()[i] == pointee ==> id.0 == i,
    {
        let mut i: usize = 0;
        while i < self.pointees.len()
            invariant
                self.wf(),
                i <= self.pointees@.len(),
                forall|j: int| 0 <= j < i ==> self.pointees@[j] != pointee,
            decreases self.pointees@.len() - i,
        {
            if self.pointees[i] == pointee {
                proof {
                    assert forall|j: int| 0 <= j < self.view().len() && #[trigger] self.view()[j] == pointee implies j == i by {
                        if j != i {
                            if j < i {
                                assert(self.pointees@[j] != self.pointees@[i as int]);
                            } else {
                                assert(self.pointees@[i as int] != self.pointees@[j]);
                            }
                        }
                    }
                }
                return BoxId(i as u32);
            }
            i = i + 1;
        }
        let id = BoxId(self.pointees.len() as u32);
        self.pointees.push(pointee);
        id
    }

    /// The pointee a box was built from.
    pub fn pointee(&self, id: BoxId) -> (t: Ty)
        requires
            id.0 < self.view().len(),
        ensures
            t == self.view()[id.0 as int],
    {
        self.pointees[id.index()]
    }

    pub proof fn lemma_len(&self)
        requires
            self.wf(),
        ensures
            self.view().len() <= u32::MAX,
    {
    }

    /// A box's identity is its pointee: two identities of a well-formed
    /// table with the same pointee are the same identity.
    pub proof fn law_box_identity_is_its_pointee(&self, a: BoxId, b: BoxId)
        requires
            self.wf(),
            a.0 < self.view().len(),
            b.0 < self.view().len(),
            self.view()[a.0 as int] == self.view()[b.0 as int],
        ensures
            a == b,
    {
    }

    /// Every interned pointee, indexed by `BoxId`.
    pub fn all(&self) -> (a: &Vec<Ty>)
        ensures
            a@ == self.view(),
    {
        &self.pointees
    }
}

/// One resolved user-defined type. Every category is reached through
/// `Ty::User(TypeId)`.
#[derive(Clone, Debug)]
pub enum TypeDef {
    /// `type N is T`. Nominally distinct from `T`.
    Represented { name: String, target: Ty },
    /// `type N is struct ... end`; fields in declaration order.
    Struct { name: String, fields: Vec<(String, Ty)> },
    /// `type N is union ... end`; members in declaration order.
    Union { name: String, members: Vec<TypeId> },
    /// One union alternative, itself a nominal type; `tag` is its position
    /// in the union.
    UnionMember { name: String, union: TypeId, tag: u32, fields: Vec<(String, Ty)>, nil: bool },
}

impl TypeDef {
    pub open spec fn name_of(&self) -> Seq<char> {
        match self {
            TypeDef::Represented { name, .. } => name@,
            TypeDef::Struct { name, .. } => name@,
            TypeDef::Union { name, .. } => name@,
            TypeDef::UnionMember { name, .. } => name@,
        }
    }

    /// The qualified name used in diagnostics.
    pub fn name(&self) -> (n: &String)
        ensures
            n@ == self.name_of(),
    {
        match self {
            TypeDef::Represented { name, .. } => name,
            TypeDef::Struct { name, .. } => name,
            TypeDef::Union { name, .. } => name,
            TypeDef::UnionMember { name, .. } => name,
        }
    }

    pub open spec fn fields_of(&self) -> Option<Seq<(String, Ty)>> {
        match self {
            TypeDef::Struct { fields, .. } => Some(fields@),
            TypeDef::UnionMember { fields, .. } => Some(fields@),
            _ => None,
        }
    }

    /// The declared fields, for the two categories that have them.
    pub fn fields(&self) -> (f: Option<&Vec<(String, Ty)>>)
        ensures
            match f {
                Some(v) => self.fields_of() == Some(v@),
                None => self.fields_of() is None,
            },
    {
        match self {
            TypeDef::Struct { fields, .. } => Some(fields),
            TypeDef::UnionMember { fields, .. } => Some(fields),
            _ => None,
        }
    }
}


/// Whether every identity `t` names exists in tables of the given sizes.
pub open spec fn ty_ok(t: Ty, nd: nat, ns: nat, nb: nat) -> bool {
    match t {
        Ty::User(id) => id.0 < nd,
        Ty::Sum(id) => id.0 < ns,
        Ty::Box(id) => id.0 < nb,
        _ => true,
    }
}

/// Whether every box `t` names, directly or as a sum member, comes before
/// box `bound`: a pointee never names its own box or a later one.
pub open spec fn boxes_below(t: Ty, sums: Seq<Seq<Ty>>, bound: nat) -> bool {
    match t {
        Ty::Box(id) => id.0 < bound,
        Ty::Sum(id) => id.0 < sums.len() && forall|i: int| 0 <= i < sums[id.0 as int].len()
            ==> !(#[trigger] sums[id.0 as int][i] matches Ty::Box(b) && b.0 >= bound),
        _ => true,
    }
}

pub open spec fn fields_ok(f: Seq<(String, Ty)>, nd: nat, ns: nat, nb: nat) -> bool {
    forall|i: int| 0 <= i < f.len() ==> ty_ok(#[trigger] f[i].1, nd, ns, nb)
}

pub open spec fn def_ok(d: TypeDef, nd: nat, ns: nat, nb: nat) -> bool {
    match d {
        TypeDef::Represented { target, .. } => ty_ok(target, nd, ns, nb),
        TypeDef::Struct { fields, .. } => fields_ok(fields@, nd, ns, nb),
        TypeDef::Union { members, .. } => forall|i: int| 0 <= i < members@.len() ==> (#[trigger] members@[i]).0 < nd,
        TypeDef::UnionMember { union, fields, .. } => union.0 < nd && fields_ok(fields@, nd, ns, nb),
    }
}

/// One display level below a sum: a sum here has no members to show.
pub open spec fn disp_atom(names: Seq<Seq<char>>, sums: Seq<Seq<Ty>>, boxes: Seq<Ty>, t: Ty, bound: nat) -> Seq<char>
    decreases bound, 0nat, 0nat,
{
    match t {
        Ty::User(id) => if id.0 < names.len() { names[id.0 as int] } else { "<type #"@ + crate::text::decimal(id.0 as nat) + ">"@ },
        Ty::Box(id) => if id.0 < bound && id.0 < boxes.len() {
            "Box<"@ + disp(names, sums, boxes, boxes[id.0 as int], id.0 as nat) + ">"@
        } else {
            "<box #"@ + crate::text::decimal(id.0 as nat) + ">"@
        },
        Ty::Sum(id) => "<sum #"@ + crate::text::decimal(id.0 as nat) + ">"@,
        _ => scalar_name(t),
    }
}

/// Members joined by `" | "`.
pub open spec fn disp_join(names: Seq<Seq<char>>, sums: Seq<Seq<Ty>>, boxes: Seq<Ty>, ms: Seq<Ty>, bound: nat) -> Seq<char>
    decreases bound, 1nat, ms.len(),
{
    if ms.len() == 0 {
        Seq::empty()
    } else if ms.len() == 1 {
        disp_atom(names, sums, boxes, ms[0], bound)
    } else {
        disp_join(names, sums, boxes, ms.drop_last(), bound) + " | "@ + disp_atom(names, sums, boxes, ms.last(), bound)
    }
}

/// How a type is written in a diagnostic: a user type by its qualified
/// name, a sum as its members joined by `" | "`, a box as `Box<T>`.
pub open spec fn disp(names: Seq<Seq<char>>, sums: Seq<Seq<Ty>>, boxes: Seq<Ty>, t: Ty, bound: nat) -> Seq<char>
    decreases bound, 2nat, 0nat,
{
    match t {
        Ty::Sum(id) => if id.0 < sums.len() {
            disp_join(names, sums, boxes, sums[id.0 as int], bound)
        } else {
            disp_atom(names, sums, boxes, t, bound)
        },
        _ => disp_atom(names, sums, boxes, t, bound),
    }
}

/// Whether a non-sum member supports `==`.
pub open spec fn atom_eq(equality: Seq<bool>, t: Ty) -> bool {
    match t {
        Ty::User(id) => id.0 < equality.len() && equality[id.0 as int],
        Ty::Box(_) => false,
        Ty::Sum(_) => false,
        _ => true,
    }
}

/// Equality is supported when every contained type supports it; a box
/// never does.
pub open spec fn eq_support(equality: Seq<bool>, sums: Seq<Seq<Ty>>, t: Ty) -> bool {
    match t {
        Ty::Sum(id) => id.0 < sums.len() && forall|i: int| 0 <= i < sums[id.0 as int].len()
            ==> atom_eq(equality, #[trigger] sums[id.0 as int][i]),
        _ => atom_eq(equality, t),
    }
}

pub open spec fn atom_move_only(move_only: Seq<bool>, t: Ty) -> bool {
    match t {
        Ty::User(id) => id.0 < move_only.len() && move_only[id.0 as int],
        Ty::Box(_) => true,
        _ => false,
    }
}

/// A box is always move-only; a sum is when any member is.
pub open spec fn move_support(move_only: Seq<bool>, sums: Seq<Seq<Ty>>, t: Ty) -> bool {
    match t {
        Ty::Sum(id) => id.0 < sums.len() && exists|i: int| 0 <= i < sums[id.0 as int].len()
            && atom_move_only(move_only, #[trigger] sums[id.0 as int][i]),
        _ => atom_move_only(move_only, t),
    }
}

/// The resolved type table plus the name maps resolution needs.
pub struct Types {
    pub defs: Vec<TypeDef>,
    top_level: Vec<(String, TypeId)>,
    members: Vec<(TypeId, String, TypeId)>,
    /// Memoized `==` support, indexed by `TypeId`.
    equality: Vec<bool>,
    /// Memoized move-only status, indexed by `TypeId`.
    move_only: Vec<bool>,
    sums: SumTable,
    boxes: BoxTable,
}

impl Types {
    pub closed spec fn defs_view(&self) -> Seq<TypeDef> {
        self.defs@
    }

    pub open spec fn nd(&self) -> nat {
        self.defs_view().len()
    }

    pub closed spec fn sums_view(&self) -> Seq<Seq<Ty>> {
        self.sums.view()
    }

    pub closed spec fn boxes_view(&self) -> Seq<Ty> {
        self.boxes.view()
    }

    pub open spec fn ns(&self) -> nat {
        self.sums_view().len()
    }

    pub open spec fn nb(&self) -> nat {
        self.boxes_view().len()
    }

    pub open spec fn ok(&self, t: Ty) -> bool {
        ty_ok(t, self.nd(), self.ns(), self.nb())
    }

    pub open spec fn names(&self) -> Seq<Seq<char>> {
        Seq::new(self.defs_view().len(), |i: int| self.defs_view()[i].name_of())
    }

    pub closed spec fn equality_view(&self) -> Seq<bool> {
        self.equality@
    }

    pub closed spec fn move_only_view(&self) -> Seq<bool> {
        self.move_only@
    }

    pub closed spec fn top_level_view(&self) -> Seq<(String, TypeId)> {
        self.top_level@
    }

    pub closed spec fn members_view(&self) -> Seq<(TypeId, String, TypeId)> {
        self.members@
    }

    /// How `t` is written in a diagnostic.
    pub open spec fn shown(&self, t: Ty) -> Seq<char> {
        disp(self.names(), self.sums_view(), self.boxes_view(), t, self.nb())
    }

    /// Every identity the table holds points into the table, and every box
    /// names only earlier boxes.
    pub closed spec fn wf(&self) -> bool {
        let (nd, ns, nb) = (self.defs@.len(), self.sums.view().len(), self.boxes.view().len());
        &&& nd <= u32::MAX
        &&& self.sums.wf()
        &&& self.boxes.wf()
        &&& self.equality@.len() == nd
        &&& self.move_only@.len() == nd
        &&& forall|i: int| 0 <= i < nd ==> def_ok(#[trigger] self.defs@[i], nd, ns, nb)
        &&& forall|i: int, j: int| 0 <= i < ns && 0 <= j < self.sums.view()[i].len()
            ==> ty_ok(#[trigger] self.sums.view()[i][j], nd, ns, nb)
        &&& forall|i: int| 0 <= i < nb ==> ty_ok(#[trigger] self.boxes.view()[i], nd, ns, nb)
            && boxes_below(self.boxes.view()[i], self.sums.view(), i as nat)
        &&& forall|i: int| 0 <= i < self.top_level@.len() ==> (#[trigger] self.top_level@[i]).1.0 < nd
        &&& forall|i: int| 0 <= i < self.members@.len() ==> (#[trigger] self.members@[i]).2.0 < nd
    }

    /// Tables only grow: every identity valid before stays valid.
    pub open spec fn extends(&self, old: &Types) -> bool {
        &&& self.defs_view() == old.defs_view()
        &&& self.ns() >= old.ns()
        &&& self.nb() >= old.nb()
        &&& forall|i: int| 0 <= i < old.ns() ==> #[trigger] self.sums_view()[i] == old.sums_view()[i]
        &&& forall|i: int| 0 <= i < old.nb() ==> #[trigger] self.boxes_view()[i] == old.boxes_view()[i]
        &&& self.equality_view() == old.equality_view()
        &&& self.move_only_view() == old.move_only_view()
        &&& self.top_level_view() == old.top_level_view()
        &&& self.members_view() == old.members_view()
    }

    pub proof fn lemma_wf_facts(&self)
        requires
            self.wf(),
        ensures
            self.nd() <= u32::MAX,
            self.ns() <= u32::MAX,
            self.nb() <= u32::MAX,
            forall|i: int| 0 <= i < self.nd() ==> def_ok(#[trigger] self.defs_view()[i], self.nd(), self.ns(), self.nb()),
            forall|i: int| 0 <= i < self.ns() ==> normalized(#[trigger] self.sums_view()[i]),
            forall|i: int, j: int| 0 <= i < self.ns() && 0 <= j < self.sums_view()[i].len()
                ==> self.ok(#[trigger] self.sums_view()[i][j]),
            forall|i: int| 0 <= i < self.nb() ==> self.ok(#[trigger] self.boxes_view()[i]),
    {
        assert forall|i: int| 0 <= i < self.ns() implies normalized(#[trigger] self.sums_view()[i]) by {
            self.sums.lemma_wf_normalized(i);
        }
    }

    pub fn def(&self, id: TypeId) -> (d: &TypeDef)
        requires
            id.0 < self.nd(),
        ensures
            *d == self.defs_view()[id.0 as int],
    {
        &self.defs[id.index()]
    }

    /// Every definition, indexed by `TypeId`.
    pub fn all_defs(&self) -> (r: &Vec<TypeDef>)
        ensures
            r@ == self.defs_view(),
    {
        &self.defs
    }

    /// How many sums are interned.
    pub fn sum_count(&self) -> (n: usize)
        ensures
            n == self.ns(),
    {
        self.sums.len()
    }

    /// How many boxes are interned.
    pub fn box_count(&self) -> (n: usize)
        ensures
            n == self.nb(),
    {
        self.boxes.len()
    }

    /// The top-level type named `name`.
    pub fn top_level(&self, name: &str) -> (r: Option<TypeId>)
        requires
            self.wf(),
        ensures
            r matches Some(id) ==> id.0 < self.nd() && exists|i: int| 0 <= i < self.top_level_view().len()
                && (#[trigger] self.top_level_view()[i]).0@ == name@ && self.top_level_view()[i].1 == id,
            r is None ==> forall|i: int| 0 <= i < self.top_level_view().len() ==> (#[trigger] self.top_level_view()[i]).0@ != name@,
    {
        let mut i: usize = 0;
        while i < self.top_level.len()
            invariant
                self.wf(),
                i <= self.top_level@.len(),
                forall|j: int| 0 <= j < i ==> (#[trigger] self.top_level@[j]).0@ != name@,
            decreases self.top_level@.len() - i,
        {
            if string_is(&self.top_level[i].0, name) {
                proof {
                    assert(self.top_level@[i as int].1.0 < self.nd());
                    assert(self.top_level_view()[i as int] == self.top_level@[i as int]);
                }
                return Some(self.top_level[i].1);
            }
            i = i + 1;
        }
        None
    }

    /// The member `name` of union `union`.
    pub fn member(&self, union: TypeId, name: &str) -> (r: Option<TypeId>)
        requires
            self.wf(),
        ensures
            r matches Some(id) ==> id.0 < self.nd() && exists|i: int| 0 <= i < self.members_view().len()
                && (#[trigger] self.members_view()[i]).0 == union && self.members_view()[i].1@ == name@ && self.members_view()[i].2 == id,
            r is None ==> forall|i: int| 0 <= i < self.members_view().len() ==> !((#[trigger] self.members_view()[i]).0 == union && self.members_view()[i].1@ == name@),
    {
        let mut i: usize = 0;
        while i < self.members.len()
            invariant
                self.wf(),
                i <= self.members@.len(),
                forall|j: int| 0 <= j < i ==> !((#[trigger] self.members@[j]).0 == union && self.members@[j].1@ == name@),
            decreases self.members@.len() - i,
        {
            if self.members[i].0 == union && string_is(&self.members[i].1, name) {
                proof {
                    assert(self.members@[i as int].2.0 < self.nd());
                    assert(self.members_view()[i as int] == self.members@[i as int]);
                }
                return Some(self.members[i].2);
            }
            i = i + 1;
        }
        None
    }

    /// The union containing `id`, when `id` is a union member.
    pub fn containing_union(&self, id: TypeId) -> (r: Option<TypeId>)
        requires
            self.wf(),
            id.0 < self.nd(),
        ensures
            r == match self.defs_view()[id.0 as int] { TypeDef::UnionMember { union, .. } => Some(union), _ => None },
            r matches Some(u) ==> u.0 < self.nd(),
    {
        proof { assert(def_ok(self.defs@[id.0 as int], self.nd(), self.ns(), self.nb())); }
        match self.def(id) {
            TypeDef::UnionMember { union, .. } => Some(*union),
            _ => None,
        }
    }

    pub fn union_members(&self, id: TypeId) -> (r: Option<&Vec<TypeId>>)
        requires
            self.wf(),
            id.0 < self.nd(),
        ensures
            match r {
                Some(m) => self.defs_view()[id.0 as int] matches TypeDef::Union { members, .. } && members@ == m@
                    && forall|i: int| 0 <= i < m@.len() ==> (#[trigger] m@[i]).0 < self.nd(),
                None => !(self.defs_view()[id.0 as int] is Union),
            },
    {
        proof { assert(def_ok(self.defs@[id.0 as int], self.nd(), self.ns(), self.nb())); }
        match self.def(id) {
            TypeDef::Union { members, .. } => Some(members),
            _ => None,
        }
    }

    /// The declaration index and type of `name` among `id`'s fields.
    pub fn field(&self, id: TypeId, name: &str) -> (r: Option<(usize, Ty)>)
        requires
            self.wf(),
            id.0 < self.nd(),
        ensures
            match r {
                Some((k, t)) => self.defs_view()[id.0 as int].fields_of() matches Some(f) && k < f.len()
                    && f[k as int].0@ == name@ && f[k as int].1 == t && self.ok(t)
                    && forall|j: int| 0 <= j < k ==> (#[trigger] f[j]).0@ != name@,
                None => match self.defs_view()[id.0 as int].fields_of() {
                    Some(f) => forall|j: int| 0 <= j < f.len() ==> (#[trigger] f[j]).0@ != name@,
                    None => true,
                },
            },
    {
        proof { assert(def_ok(self.defs@[id.0 as int], self.nd(), self.ns(), self.nb())); }
        let fields = match self.def(id).fields() {
            Some(f) => f,
            None => return None,
        };
        let mut i: usize = 0;
        while i < fields.len()
            invariant
                self.wf(),
                id.0 < self.nd(),
                self.defs_view()[id.0 as int].fields_of() == Some(fields@),
                def_ok(self.defs_view()[id.0 as int], self.nd(), self.ns(), self.nb()),
                i <= fields@.len(),
                forall|j: int| 0 <= j < i ==> (#[trigger] fields@[j]).0@ != name@,
            decreases fields@.len() - i,
        {
            if string_is(&fields[i].0, name) {
                proof {
                    assert(fields_ok(fields@, self.nd(), self.ns(), self.nb()));
                    assert(ty_ok(fields@[i as int].1, self.nd(), self.ns(), self.nb()));
                }
                return Some((i, fields[i].1));
            }
            i = i + 1;
        }
        None
    }

    /// The immediate representation of a represented type.
    pub fn represented_target(&self, id: TypeId) -> (r: Option<Ty>)
        requires
            self.wf(),
            id.0 < self.nd(),
        ensures
            r == match self.defs_view()[id.0 as int] { TypeDef::Represented { target, .. } => Some(target), _ => None },
            r matches Some(t) ==> self.ok(t),
    {
        proof { assert(def_ok(self.defs@[id.0 as int], self.nd(), self.ns(), self.nb())); }
        match self.def(id) {
            TypeDef::Represented { target, .. } => Some(*target),
            _ => None,
        }
    }

    fn push_atom(&self, s: &mut String, t: Ty, bound: usize)
        requires
            bound <= self.nb(),
        ensures
            final(s)@ == old(s)@ + disp_atom(self.names(), self.sums_view(), self.boxes_view(), t, bound as nat),
        decreases bound, 0nat,
    {
        match t {
            Ty::User(id) => {
                if id.index() < self.defs.len() {
                    push_string(s, self.defs[id.index()].name());
                } else {
                    push_str(s, "<type #");
                    push_decimal(s, id.0 as u64);
                    push_str(s, ">");
                }
            }
            Ty::Box(id) => {
                if id.index() < bound {
                    push_str(s, "Box<");
                    self.push_display(s, self.boxes.pointee(id), id.index());
                    push_str(s, ">");
                } else {
                    push_str(s, "<box #");
                    push_decimal(s, id.0 as u64);
                    push_str(s, ">");
                }
            }
            Ty::Sum(id) => {
                push_str(s, "<sum #");
                push_decimal(s, id.0 as u64);
                push_str(s, ">");
            }
            _ => push_ty_text(s, t),
        }
    }

    fn push_display(&self, s: &mut String, t: Ty, bound: usize)
        requires
            bound <= self.nb(),
        ensures
            final(s)@ == old(s)@ + disp(self.names(), self.sums_view(), self.boxes_view(), t, bound as nat),
        decreases bound, 2nat,
    {
        match t {
            Ty::Sum(id) => {
                if id.index() < self.sums.len() {
                    let ms = self.sums.members(id);
                    let ghost base = s@;
                    let mut i: usize = 0;
                    while i < ms.len()
                        invariant
                            bound <= self.nb(),
                            ms@ == self.sums_view()[id.0 as int],
                            i <= ms@.len(),
                            s@ == base + disp_join(self.names(), self.sums_view(), self.boxes_view(), ms@.subrange(0, i as int), bound as nat),
                        decreases ms@.len() - i,
                    {
                        let ghost before = s@;
                        if i > 0 {
                            push_str(s, " | ");
                        }
                        self.push_atom(s, ms[i], bound);
                        proof {
                            let sub = ms@.subrange(0, (i + 1) as int);
                            assert(sub.drop_last() =~= ms@.subrange(0, i as int));
                            assert(sub.last() == ms@[i as int]);
                            if i == 0 {
                                assert(ms@.subrange(0, 0) =~= Seq::<Ty>::empty());
                            }
                        }
                        i = i + 1;
                    }
                    proof { assert(ms@.subrange(0, ms@.len() as int) =~= ms@); }
                } else {
                    self.push_atom(s, t, bound);
                }
            }
            _ => self.push_atom(s, t, bound),
        }
    }

    /// The qualified name of any type, used in every diagnostic that names
    /// one.
    pub fn display(&self, t: Ty) -> (r: String)
        ensures
            r@ == self.shown(t),
    {
        let mut s = String::new();
        self.push_display(&mut s, t, self.boxes.len());
        proof { assert(s@ =~= self.shown(t)); }
        s
    }

    /// Whether `==` applies to values of `t`.
    pub fn supports_equality(&self, t: Ty) -> (r: bool)
        requires
            self.wf(),
            self.ok(t),
        ensures
            r == eq_support(self.equality_view(), self.sums_view(), t),
    {
        match t {
            Ty::Sum(id) => {
                let ms = self.sums.members(id);
                let mut i: usize = 0;
                while i < ms.len()
                    invariant
                        self.wf(),
                        t == Ty::Sum(id),
                        id.0 < self.ns(),
                        ms@ == self.sums_view()[id.0 as int],
                        i <= ms@.len(),
                        forall|j: int| 0 <= j < i ==> atom_eq(self.equality_view(), #[trigger] ms@[j]),
                    decreases ms@.len() - i,
                {
                    let ok = match ms[i] {
                        Ty::User(u) => u.index() < self.equality.len() && self.equality[u.index()],
                        Ty::Box(_) => false,
                        Ty::Sum(_) => false,
                        _ => true,
                    };
                    if !ok {
                        proof {
                            assert(!atom_eq(self.equality_view(), self.sums_view()[id.0 as int][i as int]));
                            assert(t == Ty::Sum(id));
                            assert(!eq_support(self.equality_view(), self.sums_view(), Ty::Sum(id)));
                        }
                        return false;
                    }
                    i = i + 1;
                }
                true
            }
            Ty::User(u) => self.equality[u.index()],
            Ty::Box(_) => false,
            _ => true,
        }
    }

    pub open spec fn is_move_only_spec(&self, t: Ty) -> bool {
        move_support(self.move_only_view(), self.sums_view(), t)
    }

    /// Whether a value of `t` moves rather than copies.
    pub fn is_move_only(&self, t: Ty) -> (r: bool)
        requires
            self.wf(),
            self.ok(t),
        ensures
            r == move_support(self.move_only_view(), self.sums_view(), t),
    {
        match t {
            Ty::Sum(id) => {
                let ms = self.sums.members(id);
                let mut i: usize = 0;
                while i < ms.len()
                    invariant
                        self.wf(),
                        t == Ty::Sum(id),
                        id.0 < self.ns(),
                        ms@ == self.sums_view()[id.0 as int],
                        i <= ms@.len(),
                        forall|j: int| 0 <= j < i ==> !atom_move_only(self.move_only_view(), #[trigger] ms@[j]),
                    decreases ms@.len() - i,
                {
                    let mo = match ms[i] {
                        Ty::User(u) => u.index() < self.move_only.len() && self.move_only[u.index()],
                        Ty::Box(_) => true,
                        _ => false,
                    };
                    if mo {
                        proof { assert(atom_move_only(self.move_only_view(), self.sums_view()[id.0 as int][i as int])); }
                        return true;
                    }
                    i = i + 1;
                }
                false
            }
            Ty::User(u) => self.move_only[u.index()],
            Ty::Box(_) => true,
            _ => false,
        }
    }

    /// An inline sum's members, in canonical order.
    pub fn sum_members(&self, id: SumId) -> (m: &Vec<Ty>)
        requires
            self.wf(),
            id.0 < self.ns(),
        ensures
            m@ == self.sums_view()[id.0 as int],
            normalized(m@),
            forall|i: int| 0 <= i < m@.len() ==> self.ok(#[trigger] m@[i]),
    {
        proof { self.lemma_wf_facts(); }
        self.sums.members(id)
    }

    /// Every interned sum's members, indexed by `SumId`.
    pub fn all_sums(&self) -> (a: &Vec<Vec<Ty>>)
        ensures
            a@.len() == self.ns(),
            forall|i: int| 0 <= i < a@.len() ==> (#[trigger] a@[i])@ == self.sums_view()[i],
    {
        self.sums.all()
    }

    /// A box's pointee.
    pub fn box_pointee(&self, id: BoxId) -> (t: Ty)
        requires
            self.wf(),
            id.0 < self.nb(),
        ensures
            t == self.boxes_view()[id.0 as int],
            self.ok(t),
    {
        proof { self.lemma_wf_facts(); }
        self.boxes.pointee(id)
    }

    /// Every interned box's pointee, indexed by `BoxId`.
    pub fn all_boxes(&self) -> (a: &Vec<Ty>)
        ensures
            a@ == self.boxes_view(),
    {
        self.boxes.all()
    }
}

impl Types {
    /// Interns a member set met while resolving a local declaration,
    /// continuing the table that declaration collection built.
    pub fn intern_sum(&mut self, members: Vec<Ty>) -> (id: SumId)
        requires
            old(self).wf(),
            normalized(members@),
            forall|i: int| 0 <= i < members@.len() ==> old(self).ok(#[trigger] members@[i]),
            old(self).ns() < u32::MAX,
        ensures
            final(self).wf(),
            final(self).extends(old(self)),
            id.0 < final(self).ns(),
            final(self).sums_view()[id.0 as int] == members@,
            final(self).nb() == old(self).nb(),
            forall|i: int| 0 <= i < old(self).ns() && #[trigger] old(self).sums_view()[i] == members@ ==> id.0 == i,
            old(self).sums_view().contains(members@) ==> final(self).ns() == old(self).ns(),
    {
        let ghost before = *self;
        let id = self.sums.intern(members);
        proof {
            let nd = self.defs@.len();
            let (ns, nb) = (self.sums.view().len(), self.boxes.view().len());
            assert forall|i: int, j: int| 0 <= i < ns && 0 <= j < self.sums.view()[i].len()
                implies ty_ok(#[trigger] self.sums.view()[i][j], nd, ns, nb) by {
                if i < before.sums.view().len() {
                    assert(ty_ok(before.sums.view()[i][j], nd, before.sums.view().len(), nb));
                }
            }
            assert forall|i: int| 0 <= i < nd implies def_ok(#[trigger] self.defs@[i], nd, ns, nb) by {
                assert(def_ok(before.defs@[i], nd, before.sums.view().len(), nb));
                match self.defs@[i] {
                    TypeDef::Struct { fields, .. } => {
                        assert forall|k: int| 0 <= k < fields@.len() implies ty_ok(#[trigger] fields@[k].1, nd, ns, nb) by {
                            assert(ty_ok(fields@[k].1, nd, before.sums.view().len(), nb));
                        }
                    }
                    TypeDef::UnionMember { fields, .. } => {
                        assert forall|k: int| 0 <= k < fields@.len() implies ty_ok(#[trigger] fields@[k].1, nd, ns, nb) by {
                            assert(ty_ok(fields@[k].1, nd, before.sums.view().len(), nb));
                        }
                    }
                    _ => {}
                }
            }
            assert forall|i: int| 0 <= i < nb implies ty_ok(#[trigger] self.boxes.view()[i], nd, ns, nb)
                && boxes_below(self.boxes.view()[i], self.sums.view(), i as nat) by {
                assert(ty_ok(before.boxes.view()[i], nd, before.sums.view().len(), nb));
                assert(boxes_below(before.boxes.view()[i], before.sums.view(), i as nat));
            }
        }
        id
    }

    /// Interns a pointee met while resolving a local declaration or a
    /// `box(...)` expression.
    pub fn intern_box(&mut self, pointee: Ty) -> (id: BoxId)
        requires
            old(self).wf(),
            old(self).ok(pointee),
            old(self).nb() < u32::MAX,
        ensures
            final(self).wf(),
            final(self).extends(old(self)),
            id.0 < final(self).nb(),
            final(self).boxes_view()[id.0 as int] == pointee,
            final(self).ns() == old(self).ns(),
            forall|i: int| 0 <= i < old(self).nb() && #[trigger] old(self).boxes_view()[i] == pointee ==> id.0 == i,
            old(self).boxes_view().contains(pointee) ==> final(self).nb() == old(self).nb(),
    {
        let ghost before = *self;
        let id = self.boxes.intern(pointee);
        proof {
            let nd = self.defs@.len();
            let (ns, nb) = (self.sums.view().len(), self.boxes.view().len());
            let ob = before.boxes.view().len();
            assert forall|i: int, j: int| 0 <= i < ns && 0 <= j < self.sums.view()[i].len()
                implies ty_ok(#[trigger] self.sums.view()[i][j], nd, ns, nb) by {
                assert(ty_ok(before.sums.view()[i][j], nd, ns, ob));
            }
            assert forall|i: int| 0 <= i < nd implies def_ok(#[trigger] self.defs@[i], nd, ns, nb) by {
                assert(def_ok(before.defs@[i], nd, ns, ob));
                match self.defs@[i] {
                    TypeDef::Struct { fields, .. } => {
                        assert forall|k: int| 0 <= k < fields@.len() implies ty_ok(#[trigger] fields@[k].1, nd, ns, nb) by {
                            assert(ty_ok(fields@[k].1, nd, ns, ob));
                        }
                    }
                    TypeDef::UnionMember { fields, .. } => {
                        assert forall|k: int| 0 <= k < fields@.len() implies ty_ok(#[trigger] fields@[k].1, nd, ns, nb) by {
                            assert(ty_ok(fields@[k].1, nd, ns, ob));
                        }
                    }
                    _ => {}
                }
            }
            assert forall|i: int| 0 <= i < nb implies ty_ok(#[trigger] self.boxes.view()[i], nd, ns, nb)
                && boxes_below(self.boxes.view()[i], self.sums.view(), i as nat) by {
                if i < ob {
                    assert(ty_ok(before.boxes.view()[i], nd, ns, ob));
                    assert(boxes_below(before.boxes.view()[i], before.sums.view(), i as nat));
                } else {
                    assert(self.boxes.view()[i] == pointee);
                    if let Ty::Sum(sid) = pointee {
                        assert forall|k: int| 0 <= k < self.sums.view()[sid.0 as int].len()
                            implies !(#[trigger] self.sums.view()[sid.0 as int][k] matches Ty::Box(b) && b.0 >= i) by {
                            assert(ty_ok(self.sums.view()[sid.0 as int][k], nd, ns, ob));
                        }
                    }
                }
            }
        }
        id
    }
}

/// The names a table gives its entries, as character sequences.
pub open spec fn names_view(names: Seq<String>) -> Seq<Seq<char>> {
    Seq::new(names.len(), |i: int| names[i]@)
}

fn push_atom_in(names: &Vec<String>, sums: &SumTable, boxes: &BoxTable, s: &mut String, t: Ty, bound: usize)
    requires
        bound <= boxes.view().len(),
    ensures
        final(s)@ == old(s)@ + disp_atom(names_view(names@), sums.view(), boxes.view(), t, bound as nat),
    decreases bound, 0nat,
{
    match t {
        Ty::User(id) => {
            if id.index() < names.len() {
                push_string(s, &names[id.index()]);
            } else {
                push_str(s, "<type #");
                push_decimal(s, id.0 as u64);
                push_str(s, ">");
            }
        }
        Ty::Box(id) => {
            if id.index() < bound {
                push_str(s, "Box<");
                push_display_in(names, sums, boxes, s, boxes.pointee(id), id.index());
                push_str(s, ">");
            } else {
                push_str(s, "<box #");
                push_decimal(s, id.0 as u64);
                push_str(s, ">");
            }
        }
        Ty::Sum(id) => {
            push_str(s, "<sum #");
            push_decimal(s, id.0 as u64);
            push_str(s, ">");
        }
        _ => push_ty_text(s, t),
    }
}

fn push_display_in(names: &Vec<String>, sums: &SumTable, boxes: &BoxTable, s: &mut String, t: Ty, bound: usize)
    requires
        bound <= boxes.view().len(),
    ensures
        final(s)@ == old(s)@ + disp(names_view(names@), sums.view(), boxes.view(), t, bound as nat),
    decreases bound, 2nat,
{
    match t {
        Ty::Sum(id) => {
            if id.index() < sums.len() {
                let ms = sums.members(id);
                let ghost base = s@;
                let mut i: usize = 0;
                while i < ms.len()
                    invariant
                        bound <= boxes.view().len(),
                        ms@ == sums.view()[id.0 as int],
                        i <= ms@.len(),
                        s@ == base + disp_join(names_view(names@), sums.view(), boxes.view(), ms@.subrange(0, i as int), bound as nat),
                    decreases ms@.len() - i,
                {
                    if i > 0 {
                        push_str(s, " | ");
                    }
                    push_atom_in(names, sums, boxes, s, ms[i], bound);
                    proof {
                        let sub = ms@.subrange(0, (i + 1) as int);
                        assert(sub.drop_last() =~= ms@.subrange(0, i as int));
                        assert(sub.last() == ms@[i as int]);
                        if i == 0 {
                            assert(ms@.subrange(0, 0) =~= Seq::<Ty>::empty());
                        }
                    }
                    i = i + 1;
                }
                proof { assert(ms@.subrange(0, ms@.len() as int) =~= ms@); }
            } else {
                push_atom_in(names, sums, boxes, s, t, bound);
            }
        }
        _ => push_atom_in(names, sums, boxes, s, t, bound),
    }
}

/// How `t` is written in a diagnostic, for tables still being built: entry
/// `i` is called `names[i]`.
pub fn display_in(names: &Vec<String>, sums: &SumTable, boxes: &BoxTable, t: Ty) -> (r: String)
    ensures
        r@ == disp(names_view(names@), sums.view(), boxes.view(), t, boxes.view().len()),
{
    let mut s = String::new();
    push_display_in(names, sums, boxes, &mut s, t, boxes.len());
    proof { assert(s@ =~= disp(names_view(names@), sums.view(), boxes.view(), t, boxes.view().len())); }
    s
}

/// Validity survives growth of the sum and box tables.
pub proof fn lemma_def_ok_grow(d: TypeDef, nd: nat, ns: nat, nb: nat, ns2: nat, nb2: nat)
    requires
        def_ok(d, nd, ns, nb),
        ns <= ns2,
        nb <= nb2,
    ensures
        def_ok(d, nd, ns2, nb2),
{
    match d {
        TypeDef::Struct { fields, .. } => {
            assert forall|k: int| 0 <= k < fields@.len() implies ty_ok(#[trigger] fields@[k].1, nd, ns2, nb2) by {
                assert(ty_ok(fields@[k].1, nd, ns, nb));
            }
        }
        TypeDef::UnionMember { fields, .. } => {
            assert forall|k: int| 0 <= k < fields@.len() implies ty_ok(#[trigger] fields@[k].1, nd, ns2, nb2) by {
                assert(ty_ok(fields@[k].1, nd, ns, nb));
            }
        }
        _ => {}
    }
}

impl Types {
    /// Puts a finished table together.
    pub fn assemble(
        defs: Vec<TypeDef>,
        top_level: Vec<(String, TypeId)>,
        members: Vec<(TypeId, String, TypeId)>,
        equality: Vec<bool>,
        move_only: Vec<bool>,
        sums: SumTable,
        boxes: BoxTable,
    ) -> (t: Types)
        requires
            defs@.len() <= u32::MAX,
            sums.wf(),
            boxes.wf(),
            equality@.len() == defs@.len(),
            move_only@.len() == defs@.len(),
            forall|i: int| 0 <= i < defs@.len() ==> def_ok(#[trigger] defs@[i], defs@.len(), sums.view().len(), boxes.view().len()),
            forall|i: int, j: int| 0 <= i < sums.view().len() && 0 <= j < sums.view()[i].len()
                ==> ty_ok(#[trigger] sums.view()[i][j], defs@.len(), sums.view().len(), boxes.view().len()),
            forall|i: int| 0 <= i < boxes.view().len() ==> ty_ok(#[trigger] boxes.view()[i], defs@.len(), sums.view().len(), boxes.view().len())
                && boxes_below(boxes.view()[i], sums.view(), i as nat),
            forall|i: int| 0 <= i < top_level@.len() ==> (#[trigger] top_level@[i]).1.0 < defs@.len(),
            forall|i: int| 0 <= i < members@.len() ==> (#[trigger] members@[i]).2.0 < defs@.len(),
        ensures
            t.wf(),
            t.defs_view() == defs@,
            t.sums_view() == sums.view(),
            t.boxes_view() == boxes.view(),
            t.equality_view() == equality@,
            t.move_only_view() == move_only@,
            t.top_level_view() == top_level@,
            t.members_view() == members@,
    {
        Types { defs, top_level, members, equality, move_only, sums, boxes }
    }
}

/// `Nil` is spelled only as a union or sum member; anywhere else it is
/// rejected.
pub const STANDALONE_NIL: &'static str = "'Nil' is not a standalone type; it is permitted only as a member of a union that also declares a non-Nil member";

/// `nil` names a union's `Nil` member, so it needs an expected union.
pub const CONTEXTLESS_NIL: &'static str = "'nil' has no type of its own; it is valid only where one expected union type directly contains 'Nil'";

/// A written sum needs at least two distinct members.
pub const SUM_TOO_FEW_MEMBERS: &'static str = "a sum type requires at least two distinct member types";

/// `Nil` inside a sum needs a non-`Nil` sibling.
pub const NIL_NEEDS_A_SUM_SIBLING: &'static str = "'Nil' is valid in a sum type only alongside at least one non-'Nil' member";

/// A represented type is opened by calling its named representation, which
/// an inline sum does not have.
pub const SUM_AS_REPRESENTED_TARGET: &'static str = "an inline sum cannot be a represented type's immediate representation; it has no callable type name to open it with";

/// A function's or bridge's resolved signature.
#[derive(Clone, Debug)]
pub struct FuncSig {
    pub params: Vec<TParam>,
    pub result: Option<Ty>,
}

/// A method's resolved signature. Bodies are checked separately.
#[derive(Clone, Debug)]
pub struct MethodSig {
    pub receiver: TypeId,
    pub name: String,
    pub params: Vec<TParam>,
    pub result: Option<Ty>,
    /// Index into the parsed program's `methods`.
    pub decl: usize,
}

impl MethodSig {
    /// `Receiver.name`, the way diagnostics name a method.
    pub fn qualified(&self, types: &Types) -> (s: String)
        requires
            self.receiver.0 < types.nd(),
        ensures
            s@ == types.names()[self.receiver.0 as int] + "."@ + self.name@,
    {
        let mut s = types.def(self.receiver).name().clone();
        push_char(&mut s, '.');
        push_string(&mut s, &self.name);
        proof {
            assert(types.names()[self.receiver.0 as int] == types.defs_view()[self.receiver.0 as int].name_of());
            reveal_strlit(".");
            assert(s@ =~= types.names()[self.receiver.0 as int] + "."@ + self.name@);
        }
        s
    }
}

pub open spec fn opt_ok(t: Option<Ty>, nd: nat, ns: nat, nb: nat) -> bool {
    t matches Some(u) ==> ty_ok(u, nd, ns, nb)
}

pub open spec fn params_ok(ps: Seq<TParam>, nd: nat, ns: nat, nb: nat) -> bool {
    forall|i: int| 0 <= i < ps.len() ==> ty_ok(#[trigger] ps[i].ty, nd, ns, nb)
}

/// Everything declaration collection produces.
pub struct Collected {
    pub types: Types,
    pub methods: Vec<MethodSig>,
    /// `(receiver, name, method)`: one entry per declared method.
    pub method_index: Vec<(TypeId, String, MethodId)>,
    /// Resolved signatures of `fun` and `extern rust` declarations.
    pub sigs: Vec<(String, FuncSig)>,
}

/// Whether every identity that signatures and methods name exists in tables
/// of the given sizes.
pub open spec fn decls_ok(methods: Seq<MethodSig>, index: Seq<(TypeId, String, MethodId)>, sigs: Seq<(String, FuncSig)>, nd: nat, ns: nat, nb: nat) -> bool {
    &&& methods.len() <= u32::MAX
    &&& forall|i: int| 0 <= i < methods.len() ==> (#[trigger] methods[i]).receiver.0 < nd
        && params_ok(methods[i].params@, nd, ns, nb) && opt_ok(methods[i].result, nd, ns, nb)
    &&& forall|i: int| 0 <= i < index.len() ==> (#[trigger] index[i]).2.0 < methods.len()
    &&& forall|i: int| 0 <= i < sigs.len() ==> params_ok((#[trigger] sigs[i]).1.params@, nd, ns, nb)
        && opt_ok(sigs[i].1.result, nd, ns, nb)
}

impl Collected {
    pub open spec fn wf(&self) -> bool {
        &&& self.types.wf()
        &&& decls_ok(self.methods@, self.method_index@, self.sigs@, self.types.nd(), self.types.ns(), self.types.nb())
    }
}

} // verus!

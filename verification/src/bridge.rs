//! The Rust side of `extern rust` bridges: the ABI spelling of each scalar
//! type, and the compile-time assertions that pin every checked bridge to the
//! host's `crate::interop` function of the same signature.

use vstd::prelude::*;
use crate::checker::{Program, TExtern};
use crate::text::{decimal, push_str, push_string};
use crate::types::Ty;
use vstd::string::StringSliceAdditionalSpecFns;

verus! {

/// The types a bridge may carry: every built-in scalar.
pub open spec fn is_bridge_scalar(ty: Ty) -> bool {
    !(ty is User) && !(ty is Sum) && !(ty is Box)
}

/// The Rust type a scalar crosses the C ABI as.
pub open spec fn abi_text(ty: Ty) -> Seq<char> {
    match ty {
        Ty::Int64 => "i64"@,
        Ty::Dec64 => "f64"@,
        Ty::Bool => "u8"@,
        Ty::Nil => "u8"@,
        Ty::UInt8 => "u8"@,
        Ty::UInt16 => "u16"@,
        Ty::UInt32 => "u32"@,
        Ty::UInt64 => "u64"@,
        Ty::Float32 => "f32"@,
        _ => Seq::empty(),
    }
}

/// The Rust type a bridge scalar crosses the C ABI as; `Bool` and `Nil`
/// travel as one byte.
pub fn rust_abi_type(ty: Ty) -> (s: &'static str)
    requires
        is_bridge_scalar(ty),
    ensures
        s@ == abi_text(ty),
{
    match ty {
        Ty::Int64 => "i64",
        Ty::Dec64 => "f64",
        Ty::Bool => "u8",
        Ty::Nil => "u8",
        Ty::UInt8 => "u8",
        Ty::UInt16 => "u16",
        Ty::UInt32 => "u32",
        Ty::UInt64 => "u64",
        Ty::Float32 => "f32",
        _ => "",
    }
}

/// The result type of a bridge: `()` for one without a result.
pub open spec fn abi_result_text(ty: Option<Ty>) -> Seq<char> {
    match ty {
        Some(t) => abi_text(t),
        None => "()"@,
    }
}

/// The Rust result type of a bridge; one without a result spells `()`
/// rather than omitting the arrow, so every assertion has the same shape.
pub fn rust_abi_result_type(ty: Option<Ty>) -> (s: &'static str)
    requires
        ty matches Some(t) ==> is_bridge_scalar(t),
    ensures
        s@ == abi_result_text(ty),
{
    match ty {
        Some(t) => rust_abi_type(t),
        None => "()",
    }
}

} // verus!

verus! {

/// Strict lexicographic order on character sequences, by code point; on
/// UTF-8 strings it is the order of their bytes.
pub open spec fn text_less(a: Seq<char>, b: Seq<char>) -> bool
    decreases a.len(),
{
    if a.len() == 0 {
        b.len() > 0
    } else if b.len() == 0 {
        false
    } else if a[0] != b[0] {
        (a[0] as u32) < (b[0] as u32)
    } else {
        text_less(a.drop_first(), b.drop_first())
    }
}

/// `text_less` never holds of a sequence and itself.
pub proof fn lemma_text_less_irreflexive(a: Seq<char>)
    ensures
        !text_less(a, a),
    decreases a.len(),
{
    if a.len() > 0 {
        lemma_text_less_irreflexive(a.drop_first());
    }
}

/// `text_less` is transitive.
pub proof fn lemma_text_less_transitive(a: Seq<char>, b: Seq<char>, c: Seq<char>)
    requires
        text_less(a, b),
        text_less(b, c),
    ensures
        text_less(a, c),
    decreases a.len(),
{
    if a.len() > 0 && b.len() > 0 && c.len() > 0 && a[0] == b[0] && b[0] == c[0] {
        lemma_text_less_transitive(a.drop_first(), b.drop_first(), c.drop_first());
    }
}

/// Of two different sequences, one sorts before the other.
pub proof fn lemma_text_less_total(a: Seq<char>, b: Seq<char>)
    ensures
        a == b || text_less(a, b) || text_less(b, a),
    decreases a.len(),
{
    if a.len() > 0 && b.len() > 0 {
        if a[0] == b[0] {
            lemma_text_less_total(a.drop_first(), b.drop_first());
            if a.drop_first() == b.drop_first() {
                assert(a =~= seq![a[0]] + a.drop_first());
                assert(b =~= seq![b[0]] + b.drop_first());
            }
        } else {
            vstd::utf8::char_u32_cast(a[0], a[0] as u32);
            vstd::utf8::char_u32_cast(b[0], b[0] as u32);
        }
    } else if a.len() == 0 && b.len() == 0 {
        assert(a =~= b);
    }
}

/// Two strictly ascending sequences of texts with the same elements are
/// the same sequence.
proof fn lemma_ascending_unique(a: Seq<Seq<char>>, b: Seq<Seq<char>>)
    requires
        forall|i: int, j: int| 0 <= i < j < a.len() ==> text_less(#[trigger] a[i], #[trigger] a[j]),
        forall|i: int, j: int| 0 <= i < j < b.len() ==> text_less(#[trigger] b[i], #[trigger] b[j]),
        forall|t: Seq<char>| a.contains(t) <==> b.contains(t),
    ensures
        a == b,
    decreases a.len(),
{
    if a.len() == 0 {
        if b.len() > 0 {
            assert(b.contains(b[0]));
        }
        assert(a =~= b);
    } else {
        assert(a.contains(a[0]));
        assert(b.contains(b[0]));
        let k = choose|k: int| 0 <= k < b.len() && b[k] == a[0];
        let l = choose|l: int| 0 <= l < a.len() && a[l] == b[0];
        if a[0] != b[0] {
            assert(k > 0 && l > 0);
            assert(text_less(b[0], b[k]));
            assert(text_less(a[0], a[l]));
            lemma_text_less_transitive(a[0], b[0], a[0]);
            lemma_text_less_irreflexive(a[0]);
        }
        let a1 = a.drop_first();
        let b1 = b.drop_first();
        assert forall|t: Seq<char>| a1.contains(t) <==> b1.contains(t) by {
            if a1.contains(t) {
                let i = choose|i: int| 0 <= i < a1.len() && a1[i] == t;
                assert(a[i + 1] == t);
                assert(text_less(a[0], a[i + 1]));
                assert(b.contains(t));
                let j = choose|j: int| 0 <= j < b.len() && b[j] == t;
                if j == 0 {
                    lemma_text_less_irreflexive(t);
                }
                assert(b1[j - 1] == t);
            }
            if b1.contains(t) {
                let i = choose|i: int| 0 <= i < b1.len() && b1[i] == t;
                assert(b[i + 1] == t);
                assert(text_less(b[0], b[i + 1]));
                assert(a.contains(t));
                let j = choose|j: int| 0 <= j < a.len() && a[j] == t;
                if j == 0 {
                    lemma_text_less_irreflexive(t);
                }
                assert(a1[j - 1] == t);
            }
        }
        lemma_ascending_unique(a1, b1);
        assert(a =~= seq![a[0]] + a1);
        assert(b =~= seq![b[0]] + b1);
    }
}

/// Where no two bridges share a name, exactly one order lists them by
/// name, so the rendered assertions are determined by the checked program,
/// the entry path, the source and the ABI version.
pub proof fn law_name_order_is_unique(externs: Seq<TExtern>, o1: Seq<int>, o2: Seq<int>)
    requires
        forall|i: int, j: int| 0 <= i < j < externs.len() ==> (#[trigger] externs[i]).name@ != (#[trigger] externs[j]).name@,
        is_index_permutation(o1, externs.len() as int),
        is_index_permutation(o2, externs.len() as int),
        sorted_by_name(externs, o1),
        sorted_by_name(externs, o2),
    ensures
        o1 == o2,
{
    let n1 = o1.map_values(|k: int| externs[k].name@);
    let n2 = o2.map_values(|k: int| externs[k].name@);
    assert forall|i: int, j: int| 0 <= i < j < n1.len() implies text_less(#[trigger] n1[i], #[trigger] n1[j]) by {
        assert(!text_less(externs[o1[j]].name@, externs[o1[i]].name@));
        lemma_text_less_total(n1[i], n1[j]);
        if o1[i] < o1[j] {
            assert(externs[o1[i]].name@ != externs[o1[j]].name@);
        } else {
            assert(externs[o1[j]].name@ != externs[o1[i]].name@);
        }
    }
    assert forall|i: int, j: int| 0 <= i < j < n2.len() implies text_less(#[trigger] n2[i], #[trigger] n2[j]) by {
        assert(!text_less(externs[o2[j]].name@, externs[o2[i]].name@));
        lemma_text_less_total(n2[i], n2[j]);
        if o2[i] < o2[j] {
            assert(externs[o2[i]].name@ != externs[o2[j]].name@);
        } else {
            assert(externs[o2[j]].name@ != externs[o2[i]].name@);
        }
    }
    assert forall|t: Seq<char>| n1.contains(t) <==> n2.contains(t) by {
        if n1.contains(t) {
            let i = choose|i: int| 0 <= i < n1.len() && n1[i] == t;
            assert(o2.contains(o1[i]));
            let j = choose|j: int| 0 <= j < o2.len() && o2[j] == o1[i];
            assert(n2[j] == t);
        }
        if n2.contains(t) {
            let i = choose|i: int| 0 <= i < n2.len() && n2[i] == t;
            assert(o1.contains(o2[i]));
            let j = choose|j: int| 0 <= j < o1.len() && o1[j] == o2[i];
            assert(n1[j] == t);
        }
    }
    lemma_ascending_unique(n1, n2);
    assert forall|k: int| 0 <= k < o1.len() implies o1[k] == o2[k] by {
        assert(n1[k] == n2[k]);
        if o1[k] != o2[k] {
            if o1[k] < o2[k] {
                assert(externs[o1[k]].name@ != externs[o2[k]].name@);
            } else {
                assert(externs[o2[k]].name@ != externs[o1[k]].name@);
            }
        }
    }
    assert(o1 =~= o2);
}

/// Whether `a` sorts strictly before `b`.
pub fn string_less(a: &String, b: &String) -> (r: bool)
    ensures
        r == text_less(a@, b@),
{
    let x = crate::text::chars_of(a.as_str());
    let y = crate::text::chars_of(b.as_str());
    let mut i: usize = 0;
    proof {
        assert(x@.skip(0) =~= x@);
        assert(y@.skip(0) =~= y@);
    }
    while i < x.len() && i < y.len()
        invariant
            i <= x@.len(),
            i <= y@.len(),
            x@ == a@,
            y@ == b@,
            forall|j: int| 0 <= j < i ==> x@[j] == y@[j],
            text_less(a@, b@) == text_less(x@.skip(i as int), y@.skip(i as int)),
        decreases x@.len() - i,
    {
        let p = x[i];
        let q = y[i];
        proof {
            assert(x@.skip(i as int)[0] == p);
            assert(y@.skip(i as int)[0] == q);
            assert(x@.skip(i as int).drop_first() =~= x@.skip(i + 1));
            assert(y@.skip(i as int).drop_first() =~= y@.skip(i + 1));
        }
        if p != q {
            return (p as u32) < (q as u32);
        }
        i = i + 1;
    }
    i < y.len()
}

/// Whether `order` lists every index below `n` exactly once.
pub open spec fn is_index_permutation(order: Seq<int>, n: int) -> bool {
    &&& order.len() == n
    &&& forall|k: int| 0 <= k < order.len() ==> 0 <= #[trigger] order[k] < n
    &&& forall|k: int, l: int| 0 <= k < l < order.len() ==> order[k] != order[l]
    &&& forall|j: int| 0 <= j < n ==> #[trigger] order.contains(j)
}

/// Whether the bridges taken in `order` have names in ascending order.
pub open spec fn sorted_by_name(externs: Seq<TExtern>, order: Seq<int>) -> bool {
    forall|k: int, l: int| 0 <= k < l < order.len() ==> !text_less(
        #[trigger] externs[order[l]].name@,
        #[trigger] externs[order[k]].name@,
    )
}

/// Whether index `j` is listed.
pub open spec fn holds_index(order: Seq<usize>, j: int) -> bool {
    exists|k: int| 0 <= k < order.len() && order[k] == j
}

/// The indices of the bridges, ordered by name.
fn name_order(externs: &Vec<TExtern>) -> (order: Vec<usize>)
    ensures
        is_index_permutation(order@.map_values(|i: usize| i as int), externs@.len() as int),
        sorted_by_name(externs@, order@.map_values(|i: usize| i as int)),
{
    let mut order: Vec<usize> = Vec::new();
    let mut i: usize = 0;
    while i < externs.len()
        invariant
            i <= externs@.len(),
            order@.len() == i,
            forall|k: int| 0 <= k < order@.len() ==> #[trigger] order@[k] < i,
            forall|k: int, l: int| 0 <= k < l < order@.len() ==> order@[k] != order@[l],
            forall|j: int| 0 <= j < i ==> #[trigger] holds_index(order@, j),
            forall|k: int, l: int| 0 <= k < l < order@.len() ==> !text_less(
                #[trigger] externs@[order@[l] as int].name@,
                #[trigger] externs@[order@[k] as int].name@,
            ),
        decreases externs@.len() - i,
    {
        let name = &externs[i].name;
        let mut p: usize = 0;
        while p < order.len()
            invariant
                i < externs@.len(),
                p <= order@.len(),
                *name == externs@[i as int].name,
                forall|k: int| 0 <= k < p ==> !text_less(name@, #[trigger] externs@[order@[k] as int].name@),
                forall|k: int| 0 <= k < order@.len() ==> #[trigger] order@[k] < i,
            ensures
                p <= order@.len(),
                forall|k: int| 0 <= k < p ==> !text_less(name@, #[trigger] externs@[order@[k] as int].name@),
                p < order@.len() ==> text_less(name@, externs@[order@[p as int] as int].name@),
            decreases order@.len() - p,
        {
            if string_less(name, &externs[order[p]].name) {
                break;
            }
            p = p + 1;
        }
        let ghost before = order@;
        proof {
            if p < before.len() {
                assert(text_less(name@, externs@[before[p as int] as int].name@));
            }
        }
        order.insert(p, i);
        proof {
            assert forall|j: int| 0 <= j < i + 1 implies #[trigger] holds_index(order@, j) by {
                if j == i {
                    assert(order@[p as int] == j);
                } else {
                    assert(holds_index(before, j));
                    let k0 = choose|k: int| 0 <= k < before.len() && before[k] == j;
                    if k0 < p {
                        assert(order@[k0] == j);
                    } else {
                        assert(order@[k0 + 1] == j);
                    }
                }
            }
            assert forall|k: int, l: int| 0 <= k < l < order@.len() implies !text_less(
                #[trigger] externs@[order@[l] as int].name@,
                #[trigger] externs@[order@[k] as int].name@,
            ) by {
                if l == p {
                    assert(order@[k] == before[k]);
                } else if k == p {
                    let m = order@[l] as int;
                    assert(order@[l] == before[l - 1]);
                    if text_less(externs@[m].name@, name@) {
                        if l - 1 == p {
                            lemma_text_less_irreflexive(name@);
                            assert(text_less(name@, externs@[m].name@));
                            lemma_text_less_transitive(name@, externs@[m].name@, name@);
                        } else {
                            let q = externs@[before[p as int] as int].name@;
                            assert(text_less(name@, q));
                            lemma_text_less_transitive(externs@[m].name@, name@, q);
                            assert(!text_less(externs@[before[l - 1] as int].name@, externs@[before[p as int] as int].name@));
                        }
                    }
                } else {
                    let k0 = if k < p { k } else { k - 1 };
                    let l0 = if l < p { l } else { l - 1 };
                    assert(order@[k] == before[k0]);
                    assert(order@[l] == before[l0]);
                }
            }
        }
        i = i + 1;
    }
    proof {
        let o = order@.map_values(|i: usize| i as int);
        assert forall|j: int| 0 <= j < externs@.len() implies #[trigger] o.contains(j) by {
            assert(holds_index(order@, j));
            let k = choose|k: int| 0 <= k < order@.len() && order@[k] == j;
            assert(o[k] == j);
        }
        assert forall|k: int, l: int| 0 <= k < l < o.len() implies !text_less(
            #[trigger] externs@[o[l]].name@,
            #[trigger] externs@[o[k]].name@,
        ) by {
            assert(o[l] == order@[l] as int);
            assert(o[k] == order@[k] as int);
        }
    }
    order
}

} // verus!

verus! {

/// The opening of every assertion file: a notice, and the check that the
/// compiler and the runtime agree on the ABI version.
pub open spec fn assertion_header(abi_version: u32) -> Seq<char> {
    "// Generated by cargo-snacc from checked `extern rust` declarations.\n// Do not edit; this file is regenerated on every build.\n"@
        + "const _: () = assert!(snacc_runtime::ABI_VERSION == "@ + decimal(abi_version as nat)
        + ", \"snacc compiler/runtime ABI version mismatch\");\n"@
}

/// The ABI types of a bridge's parameters, separated by `, `.
pub open spec fn params_text(params: Seq<crate::checker::TParam>) -> Seq<char>
    decreases params.len(),
{
    if params.len() == 0 {
        Seq::empty()
    } else if params.len() == 1 {
        abi_text(params[0].ty)
    } else {
        params_text(params.drop_last()) + ", "@ + abi_text(params.last().ty)
    }
}

/// The assertion of one bridge: the host function `crate::interop::symbol`
/// must have the bridge's C signature; the trailing comment names the
/// declaration and where it stands.
pub open spec fn bridge_line(entry: Seq<char>, b: Seq<u8>, e: TExtern) -> Seq<char> {
    "const _: unsafe extern \"C\" fn("@ + params_text(e.params@) + ") -> "@ + abi_result_text(e.result)
        + " = crate::interop::"@ + e.symbol@ + "; // snacc: "@ + e.name@ + " ("@ + entry
        + crate::tools::location_text(b, e.span.start as int) + ")\n"@
}

/// The assertions of the bridges taken in `order`.
pub open spec fn bridge_lines(entry: Seq<char>, b: Seq<u8>, externs: Seq<TExtern>, order: Seq<int>) -> Seq<char>
    decreases order.len(),
{
    if order.len() == 0 {
        Seq::empty()
    } else {
        bridge_lines(entry, b, externs, order.drop_last()) + bridge_line(entry, b, externs[order.last()])
    }
}

/// Whether every bridge carries only scalars.
pub open spec fn bridges_are_scalar(externs: Seq<TExtern>) -> bool {
    forall|i: int| 0 <= i < externs.len() ==> {
        &&& (forall|j: int| 0 <= j < (#[trigger] externs[i]).params@.len() ==> is_bridge_scalar(externs[i].params@[j].ty))
        &&& (externs[i].result matches Some(t) ==> is_bridge_scalar(t))
    }
}

/// Appends the ABI types of a bridge's parameters.
fn push_params(s: &mut String, params: &Vec<crate::checker::TParam>)
    requires
        forall|j: int| 0 <= j < params@.len() ==> is_bridge_scalar(#[trigger] params@[j].ty),
    ensures
        final(s)@ == old(s)@ + params_text(params@),
{
    let ghost start = s@;
    let mut j: usize = 0;
    while j < params.len()
        invariant
            j <= params@.len(),
            forall|k: int| 0 <= k < params@.len() ==> is_bridge_scalar(#[trigger] params@[k].ty),
            s@ == start + params_text(params@.take(j as int)),
        decreases params@.len() - j,
    {
        proof {
            assert(params@.take(j + 1).drop_last() =~= params@.take(j as int));
            assert(params@.take(j + 1).last() == params@[j as int]);
        }
        if j > 0 {
            push_str(s, ", ");
        }
        push_str(s, rust_abi_type(params[j].ty));
        proof {
            if j == 0 {
                assert(s@ =~= start + params_text(params@.take(1)));
            } else {
                assert(s@ =~= start + params_text(params@.take(j + 1)));
            }
        }
        j = j + 1;
    }
    proof {
        assert(params@.take(j as int) =~= params@);
    }
}

/// Appends the assertion of one bridge.
fn push_bridge_line(rendered: &mut String, entry: &str, source: &str, e: &TExtern)
    requires
        forall|j: int| 0 <= j < e.params@.len() ==> is_bridge_scalar(#[trigger] e.params@[j].ty),
        e.result matches Some(t) ==> is_bridge_scalar(t),
        source.spec_bytes().len() < usize::MAX,
    ensures
        final(rendered)@ == old(rendered)@ + bridge_line(entry@, source.spec_bytes(), *e),
{
    let ghost before = rendered@;
    push_str(rendered, "const _: unsafe extern \"C\" fn(");
    push_params(rendered, &e.params);
    push_str(rendered, ") -> ");
    push_str(rendered, rust_abi_result_type(e.result));
    push_str(rendered, " = crate::interop::");
    push_string(rendered, &e.symbol);
    push_str(rendered, "; // snacc: ");
    push_string(rendered, &e.name);
    push_str(rendered, " (");
    push_str(rendered, entry);
    let ghost mid = rendered@;
    crate::tools::push_location(rendered, source, e.span.start);
    push_str(rendered, ")\n");
    proof {
        assert(rendered@ =~= before + bridge_line(entry@, source.spec_bytes(), *e));
    }
}

/// The Rust source that asserts, at compile time, that every checked bridge
/// matches the host function it names, ordered by bridge name, after the
/// check that compiler and runtime share `abi_version`.
pub fn render_bridge_assertions(checked: &Program, entry: &str, source: &str, abi_version: u32) -> (r: String)
    requires
        bridges_are_scalar(checked.externs@),
        source.spec_bytes().len() < usize::MAX,
    ensures
        exists|order: Seq<int>| {
            &&& is_index_permutation(order, checked.externs@.len() as int)
            &&& sorted_by_name(checked.externs@, order)
            &&& r@ == assertion_header(abi_version) + bridge_lines(entry@, source.spec_bytes(), checked.externs@, order)
        },
{
    let externs = &checked.externs;
    let order = name_order(externs);
    let ghost o = order@.map_values(|i: usize| i as int);
    let mut rendered = String::new();
    push_str(&mut rendered, "// Generated by cargo-snacc from checked `extern rust` declarations.\n// Do not edit; this file is regenerated on every build.\n");
    push_str(&mut rendered, "const _: () = assert!(snacc_runtime::ABI_VERSION == ");
    crate::text::push_decimal(&mut rendered, abi_version as u64);
    push_str(&mut rendered, ", \"snacc compiler/runtime ABI version mismatch\");\n");
    let ghost header = rendered@;
    assert(header =~= assertion_header(abi_version));
    let mut k: usize = 0;
    while k < order.len()
        invariant
            k <= order@.len(),
            o == order@.map_values(|i: usize| i as int),
            is_index_permutation(o, externs@.len() as int),
            bridges_are_scalar(externs@),
            source.spec_bytes().len() < usize::MAX,
            rendered@ == header + bridge_lines(entry@, source.spec_bytes(), externs@, o.take(k as int)),
        decreases order@.len() - k,
    {
        let index = order[k];
        proof {
            assert(o[k as int] == index as int);
            assert(o.take(k + 1).drop_last() =~= o.take(k as int));
            assert(o.take(k + 1).last() == index as int);
        }
        let e = &externs[index];
        push_bridge_line(&mut rendered, entry, source, e);
        k = k + 1;
    }
    proof {
        assert(o.take(k as int) =~= o);
    }
    rendered
}

} // verus!

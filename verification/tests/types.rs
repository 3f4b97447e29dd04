//! Type-table behaviour: box interning, value layouts and move-only status.

use snacc_compiler::collect::collect;
use snacc_compiler::parse;
use snacc_compiler::types::{Collected, Ty};

fn collected(source: &str) -> Collected {
    let program = parse(source).unwrap_or_else(|d| panic!("{source} should parse: {d:?}"));
    let mut errors = Vec::new();
    let collected = collect(&program, &mut errors);
    assert!(errors.is_empty(), "expected no declaration errors for {source}, got: {errors:?}");
    collected
}

#[test]
fn box_pointees_intern_to_the_same_id_for_the_same_pointee_type() {
    let collected = collected(
        "type A is struct value: Box<Int64>, end\n\
         type B is struct value: Box<Int64>, end",
    );
    let types = &collected.types;
    let a = types.top_level("A").expect("A exists");
    let b = types.top_level("B").expect("B exists");
    let a_ty = types.def(a).fields().expect("A is a struct")[0].1;
    let b_ty = types.def(b).fields().expect("B is a struct")[0].1;
    assert_eq!(a_ty, b_ty, "two 'Box<Int64>' fields must intern to the same 'Ty::Box' id");
    let Ty::Box(id) = a_ty else { panic!("expected a Box field, got {a_ty:?}") };
    assert_eq!(types.box_pointee(id), Ty::Int64);
}

#[test]
fn a_box_edge_breaks_an_otherwise_infinite_value_layout() {
    let program = parse("type Node is struct next: Node, end").expect("a self-referential field parses");
    let mut errors = Vec::new();
    collect(&program, &mut errors);
    assert!(!errors.is_empty(), "an unbroken direct value-layout cycle must still be rejected");
    collected("type Node is struct next: Box<Node>, end");
}

#[test]
fn a_box_is_always_move_only_regardless_of_a_copyable_pointee() {
    let collected = collected("type Holder is struct value: Box<Int64>, end");
    let types = &collected.types;
    let holder = types.top_level("Holder").expect("Holder exists");
    let box_ty = types.def(holder).fields().expect("Holder is a struct")[0].1;
    assert!(types.is_move_only(box_ty), "'Box<Int64>' must be move-only even though 'Int64' is copyable");
}

#[test]
fn move_only_is_structural_and_transitive() {
    let collected = collected(
        "type Leaf is struct value: Int64, end\n\
         type Boxy is struct payload: Box<Leaf>, end\n\
         type Wrapper is struct inner: Boxy, end\n\
         type Choice is union\n\
         \x20   | A is struct value: Box<Leaf>, end\n\
         \x20   | B is struct value: Int64, end\n\
         end",
    );
    let types = &collected.types;
    let leaf = Ty::User(types.top_level("Leaf").expect("Leaf exists"));
    let boxy = Ty::User(types.top_level("Boxy").expect("Boxy exists"));
    let wrapper = Ty::User(types.top_level("Wrapper").expect("Wrapper exists"));
    let choice = types.top_level("Choice").expect("Choice exists");
    let b_member = Ty::User(types.member(choice, "B").expect("Choice.B exists"));

    assert!(!types.is_move_only(leaf), "a plain 'Int64' field is copyable");
    assert!(types.is_move_only(boxy), "a direct 'Box<T>' field makes its struct move-only");
    assert!(types.is_move_only(wrapper), "move-only propagates transitively through further struct nesting");
    assert!(types.is_move_only(Ty::User(choice)), "a union is move-only when any member's payload is");
    assert!(!types.is_move_only(b_member), "one move-only member does not make every member move-only");
}

#[test]
fn a_sum_is_interned_once_whatever_the_member_order() {
    let collected = collected(
        "type A is struct value: Int64 | Bool, end\n\
         type B is struct value: Bool | Int64, end",
    );
    let types = &collected.types;
    let a = types.top_level("A").expect("A exists");
    let b = types.top_level("B").expect("B exists");
    let a_ty = types.def(a).fields().expect("A is a struct")[0].1;
    let b_ty = types.def(b).fields().expect("B is a struct")[0].1;
    assert_eq!(a_ty, b_ty, "a sum is its member set, not its written order");
    let Ty::Sum(id) = a_ty else { panic!("expected a sum field, got {a_ty:?}") };
    assert_eq!(types.sum_members(id).len(), 2);
}

#[test]
fn equality_support_follows_fields_and_members() {
    let collected = collected(
        "type Plain is struct value: Int64, end\n\
         type Holder is struct value: Box<Int64>, end\n\
         type Outer is struct inner: Holder, end",
    );
    let types = &collected.types;
    let plain = Ty::User(types.top_level("Plain").expect("Plain exists"));
    let outer = Ty::User(types.top_level("Outer").expect("Outer exists"));
    assert!(types.supports_equality(plain));
    assert!(types.supports_equality(Ty::Int64));
    assert!(!types.is_move_only(Ty::Int64));
    assert!(types.is_move_only(outer));
}

#[test]
fn records_that_name_only_earlier_records_collect_without_errors() {
    let collected = collected(
        "type Leaf is struct value: Int64, end\n\
         type Pair is struct a: Leaf, b: Leaf, end",
    );
    let types = &collected.types;
    let leaf = types.top_level("Leaf").expect("Leaf exists");
    let pair = types.top_level("Pair").expect("Pair exists");
    assert_eq!(leaf.0, 0);
    assert_eq!(pair.0, 1);
    assert!(types.supports_equality(Ty::User(pair)));
    assert!(!types.is_move_only(Ty::User(pair)));
}

#[test]
fn a_two_type_cycle_is_reported_once_with_its_whole_path() {
    let program = parse("type A is struct b: B, end\ntype B is struct a: A, end").expect("the cycle parses");
    let mut errors = Vec::new();
    collect(&program, &mut errors);
    assert_eq!(errors.len(), 1, "one cycle gives one error: {errors:?}");
    assert_eq!(errors[0].msg, "Type 'A' has an infinite value layout: A -> B -> A");
}

#[test]
fn a_repeated_field_is_reported_and_the_first_one_kept() {
    let program = parse("type Point is struct x: Dec64, x: Dec64, end").expect("the record parses");
    let mut errors = Vec::new();
    let collected = collect(&program, &mut errors);
    assert_eq!(errors.len(), 1, "{errors:?}");
    assert_eq!(errors[0].msg, "Field 'Point.x' already exists");
    let point = collected.types.top_level("Point").expect("Point exists");
    let fields = collected.types.def(point).fields().expect("Point is a struct");
    assert_eq!(fields.len(), 1);
    assert_eq!(fields[0].0, "x");
    assert_eq!(fields[0].1, Ty::Dec64);
}

//! What code generation reads off checked types and places.

use snacc_compiler::checker::PlaceRoot;
use snacc_compiler::lowering::{internal, is_float, is_unsigned, root_name, INTERNAL_ERROR, SELF};
use snacc_compiler::types::Ty;

#[test]
fn only_the_floating_types_lower_as_floats() {
    assert!(is_float(Ty::Dec64));
    assert!(is_float(Ty::Float32));
    for ty in [Ty::Int64, Ty::Bool, Ty::Nil, Ty::UInt8, Ty::UInt16, Ty::UInt32, Ty::UInt64] {
        assert!(!is_float(ty), "{ty:?}");
    }
}

#[test]
fn only_the_unsigned_types_divide_and_order_without_a_sign() {
    for ty in [Ty::UInt8, Ty::UInt16, Ty::UInt32, Ty::UInt64] {
        assert!(is_unsigned(ty), "{ty:?}");
    }
    for ty in [Ty::Int64, Ty::Dec64, Ty::Float32, Ty::Bool, Ty::Nil] {
        assert!(!is_unsigned(ty), "{ty:?}");
    }
}

#[test]
fn a_place_root_is_stored_under_its_name_or_self() {
    assert_eq!(root_name(&PlaceRoot::Local("total".to_string())), "total");
    assert_eq!(root_name(&PlaceRoot::SelfRef), SELF);
    assert_eq!(SELF, "self");
}

#[test]
fn internal_failures_carry_the_compiler_error_prefix() {
    assert_eq!(internal("no block"), "internal compiler error: no block");
    assert!(internal("x").starts_with(INTERNAL_ERROR));
}

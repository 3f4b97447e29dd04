//! What code generation reads off checked types and places: which values are
//! floating point, which integers are unsigned, the name a place's root is
//! stored under, and how an internal failure is labelled.

use vstd::prelude::*;
use crate::checker::PlaceRoot;
use crate::types::Ty;

verus! {

/// The prefix of every failure that the checker should have ruled out.
pub const INTERNAL_ERROR: &'static str = "internal compiler error: ";

/// The receiver's name in a lowered method body; `self` is a reserved word,
/// so no local can take it.
pub const SELF: &'static str = "self";

/// Labels a failure as a compiler defect.
pub fn internal(message: &str) -> (s: String)
    ensures
        s@ == INTERNAL_ERROR@ + message@,
{
    let mut s = crate::text::owned(INTERNAL_ERROR);
    crate::text::push_str(&mut s, message);
    s
}

/// Whether a type is lowered as a floating-point value rather than an
/// integer.
pub fn is_float(ty: Ty) -> (r: bool)
    ensures
        r == (ty is Dec64 || ty is Float32),
{
    match ty {
        Ty::Dec64 | Ty::Float32 => true,
        _ => false,
    }
}

/// Whether an integer type divides and orders without a sign.
pub fn is_unsigned(ty: Ty) -> (r: bool)
    ensures
        r == (ty is UInt8 || ty is UInt16 || ty is UInt32 || ty is UInt64),
{
    match ty {
        Ty::UInt8 | Ty::UInt16 | Ty::UInt32 | Ty::UInt64 => true,
        _ => false,
    }
}

/// The name a place's root is stored under: a local's own name, or `self`
/// for the receiver.
pub fn root_name(root: &PlaceRoot) -> (s: &str)
    ensures
        match root {
            PlaceRoot::Local(name) => s@ == name@,
            PlaceRoot::SelfRef => s@ == SELF@,
        },
{
    match root {
        PlaceRoot::Local(name) => name.as_str(),
        PlaceRoot::SelfRef => SELF,
    }
}

} // verus!

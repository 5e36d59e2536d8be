//! The NBT value type of `fastnbt`, which the chunk structures carry through unchanged.

use vstd::prelude::*;

verus! {

/// `fastnbt::Value`: an NBT tag of any kind. The library never looks inside one; it only
/// keeps such values so that a chunk can be written back with everything it was read with.
#[verifier::external_type_specification]
#[verifier::external_body]
pub struct ExNbtValue(fastnbt::Value);

/// `PartialEq::eq` of `fastnbt::Value` (derived: tags compare by kind and content, floats as
/// floats). Nothing is claimed of the result: the library cannot look inside a `Value`.
#[verifier::external_body]
pub(crate) fn nbt_value_eq(a: &fastnbt::Value, b: &fastnbt::Value) -> bool {
    a == b
}

/// `Clone::clone` of `fastnbt::Value` (derived, a deep copy). Nothing is claimed of the
/// result: the library cannot look inside a `Value`.
#[verifier::external_body]
pub(crate) fn nbt_value_clone(v: &fastnbt::Value) -> fastnbt::Value {
    v.clone()
}

} // verus!

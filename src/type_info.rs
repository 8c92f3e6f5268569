use vstd::prelude::*;

verus! {

/// The identity of a component type: a 128-bit value fixed where the type is
/// defined, so it is the same in every build and every process.
#[derive(Debug, Clone, Copy, PartialEq, Eq, Structural)]
pub struct TypeInfo {
    pub id: u128,
}

impl TypeInfo {
    /// The identity of the component type whose fixed value is `id`.
    pub fn from_type(id: u128) -> (r: TypeInfo)
        ensures
            r.id == id,
    {
        TypeInfo { id }
    }
}

} // verus!

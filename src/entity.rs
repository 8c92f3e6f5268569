use vstd::prelude::*;

verus! {

/// The identity of the component type that every entity carries: its own id.
pub const ENTITY_ID_UUID: u128 = 0x2ac0c046_bf65_4857_9095_0137d418520c;

/// The opaque identity of an entity. It is also stored as a component of the
/// entity, so that a row of an archetype tells whose row it is.
#[derive(Debug, Clone, Copy, PartialEq, Eq, Structural)]
pub struct EntityId(pub u128);

/// Relies on uuid::Uuid::new_v4 and Uuid::as_u128: a random 128-bit value,
/// of which nothing is promised. new_v4 panics only when the operating
/// system cannot supply random bytes, whatever the input.
#[verifier::external_body]
fn random_uuid() -> (r: u128) {
    uuid::Uuid::new_v4().as_u128()
}

/// A fresh entity id drawn at random.
pub fn new() -> (r: EntityId) {
    EntityId(random_uuid())
}

} // verus!

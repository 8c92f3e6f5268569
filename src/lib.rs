//! An append-only, archetype-based store for entity/component data.
//!
//! Components are grouped by the exact set of component types an entity
//! carries (its archetype). Each component type owns one store of
//! fixed-capacity chunks shared by every archetype that uses the type, and an
//! archetype remembers, per type, which chunks of that store hold its rows.
//! Rows of one archetype line up positionally across all of its stores.

pub mod chunk;
pub mod component;
pub mod type_info;
pub mod archetype;
pub mod entity;
pub mod world;
pub mod access;
pub mod system;

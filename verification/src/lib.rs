//! An in-process, archetype-based component storage engine.
//!
//! Components are plain byte records tagged with a stable type identifier.
//! Entities that share an identical set of component types are grouped into
//! contiguous column-oriented tables (archetypes), so iterating over all
//! entities with a given component combination is a linear scan.
//!
//! Instead of raw pointers, rows are addressed by bounds-checked
//! `(archetype index, row index)` pairs, and ownership transfer across the
//! type-erased boundary is an explicit move of the component's byte vector.

pub mod archetype;
pub mod bundle;
pub mod entity;
pub mod laws;
pub mod query;
pub mod world;

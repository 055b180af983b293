use vstd::prelude::*;

verus! {

/// An opaque 64-bit entity identifier.
///
/// Identifiers are issued by a `World` from a monotonically increasing
/// counter and are never reused for the lifetime of that `World`.
#[derive(Clone, Copy, PartialEq, Eq, Structural, Debug, Hash)]
pub struct Entity(pub u64);

} // verus!

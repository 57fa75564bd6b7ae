use vstd::prelude::*;

verus! {

/// The identifier of a game entity (an actor, a wall, a floor tile, ...).
pub type EntityId = u64;

} // verus!

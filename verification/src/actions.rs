use vstd::prelude::*;

use crate::entity::EntityId;
use crate::geometry::IVec2;

verus! {

/// Who performs an action.
#[derive(Clone, Copy, PartialEq, Eq, Structural, Debug)]
pub enum ActorType {
    Nobody,
    Actor(EntityId),
}

/// What an action is aimed at.
#[derive(Clone, Copy, PartialEq, Eq, Structural, Debug)]
pub enum TargetType {
    Nothing,
    Tile(IVec2),
    MultiTile(IVec2),
    Actor(EntityId),
    MultiActor(EntityId),
}

/// What sets off an action: a key bound to it.
#[derive(Clone, Copy, PartialEq, Eq, Structural, Debug)]
pub enum Trigger {
    CharBinding(char),
}

} // verus!

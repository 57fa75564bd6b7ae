use vstd::prelude::*;

use crate::entity::EntityId;

verus! {

/// The sides an actor can be on.
#[derive(Clone, Copy, PartialEq, Eq, Structural, Debug, Hash)]
pub enum Alignment {
    Cock,
    AntiCock,
}

/// The sides an actor belongs to, befriends, and opposes.
#[derive(Clone)]
pub struct Relations {
    pub alignments: Vec<Alignment>,
    pub friends: Vec<Alignment>,
    pub enemies: Vec<Alignment>,
}

fn contains_alignment(v: &Vec<Alignment>, a: Alignment) -> (r: bool)
    ensures
        r == v@.contains(a),
{
    let mut i: usize = 0;
    while i < v.len()
        invariant
            i <= v@.len(),
            forall|j: int| 0 <= j < i ==> v@[j] != a,
        decreases v@.len() - i,
    {
        if v[i] == a {
            assert(v@[i as int] == a);
            return true;
        }
        i = i + 1;
    }
    false
}

impl Relations {
    /// Relations with the given sides (a side listed twice counts once).
    pub fn new(alignments: Vec<Alignment>, friends: Vec<Alignment>, enemies: Vec<Alignment>) -> (r: Relations)
        ensures
            r.alignments@.to_set() == alignments@.to_set(),
            r.friends@.to_set() == friends@.to_set(),
            r.enemies@.to_set() == enemies@.to_set(),
    {
        Relations { alignments, friends, enemies }
    }

    pub open spec fn spec_opposes(&self, other: &Relations) -> bool {
        forall|i: int| 0 <= i < other.alignments@.len() ==> self.enemies@.contains(#[trigger] other.alignments@[i])
    }

    /// Whether every side of the other actor is one this actor opposes (an
    /// actor on no side at all is opposed by everyone).
    pub fn opposes(&self, other: &Relations) -> (r: bool)
        ensures
            r == self.spec_opposes(other),
    {
        let mut i: usize = 0;
        while i < other.alignments.len()
            invariant
                i <= other.alignments@.len(),
                forall|j: int| 0 <= j < i ==> self.enemies@.contains(#[trigger] other.alignments@[j]),
            decreases other.alignments@.len() - i,
        {
            if !contains_alignment(&self.enemies, other.alignments[i]) {
                return false;
            }
            i = i + 1;
        }
        true
    }
}

/// The entities an actor treats as enemies.
pub struct Enemies(pub Vec<EntityId>);

/// The entities an actor leads.
pub struct Leader(pub Vec<EntityId>);

/// The entity an actor follows.
pub struct Follows(pub EntityId);

} // verus!

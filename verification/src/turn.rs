use vstd::prelude::*;

use crate::entity::EntityId;

verus! {

/// The order in which actors take turns, whose turn it is, and whether that
/// actor has finished its turn.
pub struct Turns {
    pub order: Vec<EntityId>,
    pub current: usize,
    pub progress: bool,
}

/// The index of the turn after `current` in an order of `len` actors.
pub open spec fn next_index(current: int, len: int) -> int {
    if current + 1 > len - 1 {
        0
    } else {
        current + 1
    }
}

/// The index reached after `k` turns from `current`.
pub open spec fn advance_by(current: int, len: int, k: nat) -> int
    decreases k,
{
    if k == 0 {
        current
    } else {
        next_index(advance_by(current, len, (k - 1) as nat), len)
    }
}

impl Turns {
    /// Whether `current` points into the order (or the order is empty).
    pub open spec fn current_valid(&self) -> bool {
        self.order@.len() > 0 ==> self.current < self.order@.len()
    }

    /// No actors, the first index, and no turn taken.
    pub fn default() -> (r: Turns)
        ensures
            r.order@ == Seq::<EntityId>::empty(),
            r.current == 0,
            !r.progress,
    {
        Turns { order: Vec::new(), current: 0, progress: false }
    }

    pub open spec fn spec_current_entity(&self) -> Option<EntityId> {
        if self.current < self.order@.len() {
            Some(self.order@[self.current as int])
        } else {
            None
        }
    }

    /// The actor whose turn it is, if the index points into the order.
    pub fn current_entity(&self) -> (r: Option<EntityId>)
        ensures
            r == self.spec_current_entity(),
    {
        if self.current < self.order.len() {
            Some(self.order[self.current])
        } else {
            None
        }
    }

    pub open spec fn spec_is_turn(&self, entity: EntityId) -> bool {
        self.order@.len() > 0 && self.order@[self.current as int] == entity && !self.progress
    }

    /// Whether it is the entity's turn and it has not yet acted.
    pub fn is_turn(&self, entity: &EntityId) -> (r: bool)
        requires
            self.current_valid(),
        ensures
            r == self.spec_is_turn(*entity),
    {
        self.order.len() > 0 && self.order[self.current] == *entity && !self.progress
    }

    pub open spec fn spec_was_turn(&self, entity: EntityId) -> bool {
        self.order@.len() > 0 && self.order@[self.current as int] == entity && self.progress
    }

    /// Whether it is the entity's turn and it has already acted.
    pub fn was_turn(&self, entity: &EntityId) -> (r: bool)
        requires
            self.current_valid(),
        ensures
            r == self.spec_was_turn(*entity),
    {
        self.order.len() > 0 && self.order[self.current] == *entity && self.progress
    }

    /// Marks the current turn as taken.
    pub fn progress_turn(&mut self)
        ensures
            final(self).order@ == old(self).order@,
            final(self).current == old(self).current,
            final(self).progress,
    {
        self.progress = true;
    }
}

/// An event that stops turns from advancing this frame.
pub struct HaltTurnEvent;

/// Replaces the turn order with the given actors when the set of actors that
/// take turns has changed (or an actor was removed); otherwise leaves it.
/// The index of the current turn is kept as it was.
pub fn update_turn_order(turns: &mut Turns, changed: bool, actors: Vec<EntityId>)
    ensures
        final(turns).order@ == (if changed {
            actors@
        } else {
            old(turns).order@
        }),
        final(turns).current == old(turns).current,
        final(turns).progress == old(turns).progress,
{
    if changed {
        turns.order = actors;
    }
}

/// Moves on to the next actor's turn once the current one has been taken,
/// unless turns are halted; after the last actor comes the first again.
pub fn update_turn(turns: &mut Turns, halted: bool)
    requires
        old(turns).progress && !halted ==> old(turns).order@.len() > 0,
        old(turns).current < usize::MAX,
    ensures
        final(turns).order@ == old(turns).order@,
        if old(turns).progress && !halted {
            &&& final(turns).current == next_index(
                old(turns).current as int,
                old(turns).order@.len() as int,
            )
            &&& !final(turns).progress
        } else {
            &&& final(turns).current == old(turns).current
            &&& final(turns).progress == old(turns).progress
        },
{
    if halted {
        return ;
    }
    if turns.progress {
        let mut next_turn = turns.current + 1;
        if next_turn > turns.order.len() - 1 {
            next_turn = 0;
        }
        turns.current = next_turn;
        turns.progress = false;
    }
}

/// Advancing keeps the index within the order.
pub proof fn lemma_next_index_valid(current: int, len: int)
    requires
        len > 0,
        0 <= current < len,
    ensures
        0 <= next_index(current, len) < len,
        next_index(current, len) == (current + 1) % len,
{
    if current + 1 < len {
        vstd::arithmetic::div_mod::lemma_small_mod((current + 1) as nat, len as nat);
    } else {
        vstd::arithmetic::div_mod::lemma_mod_add_multiples_vanish(0, len);
        vstd::arithmetic::div_mod::lemma_small_mod(0, len as nat);
    }
}

/// Turns go round: from any place in an order of `len` actors, `k` advances
/// lead to place `(current + k) % len`, so after `len` of them the same actor's
/// turn comes again, and every actor's turn comes within `len` advances.
pub proof fn lemma_turns_cycle(current: int, len: int, k: nat)
    requires
        len > 0,
        0 <= current < len,
    ensures
        advance_by(current, len, k) == (current + k) % len,
        advance_by(current, len, len as nat) == current,
{
    lemma_advance_mod(current, len, k);
    assert(advance_by(current, len, len as nat) == current) by {
        lemma_advance_mod(current, len, len as nat);
        vstd::arithmetic::div_mod::lemma_mod_add_multiples_vanish(current, len);
        vstd::arithmetic::div_mod::lemma_small_mod(current as nat, len as nat);
    }
}

proof fn lemma_advance_mod(current: int, len: int, k: nat)
    requires
        len > 0,
        0 <= current < len,
    ensures
        advance_by(current, len, k) == (current + k) % len,
    decreases k,
{
    if k > 0 {
        lemma_advance_mod(current, len, (k - 1) as nat);
        let prev = advance_by(current, len, (k - 1) as nat);
        vstd::arithmetic::div_mod::lemma_mod_bound(current + k - 1, len);
        lemma_next_index_valid(prev, len);
        vstd::arithmetic::div_mod::lemma_add_mod_noop_right(1, current + k - 1, len);
        assert(advance_by(current, len, k) == next_index(prev, len));
        assert((prev + 1) % len == (1 + prev) % len);
        assert(1 + (current + k - 1) == current + k);
    } else {
        vstd::arithmetic::div_mod::lemma_small_mod(current as nat, len as nat);
    }
}

/// Sent when an actor leaves the game, with the turn at which it left.
pub struct ActorRemovedEvent {
    pub removed_actor: EntityId,
    pub turn: u32,
    /// Whether the event has been handled.
    pub has_run: bool,
}

impl ActorRemovedEvent {
    pub fn new(removed_actor: EntityId, turn: u32) -> (r: ActorRemovedEvent)
        ensures
            r.removed_actor == removed_actor,
            r.turn == turn,
            r.spec_frame_valid(),
    {
        ActorRemovedEvent { removed_actor, turn, has_run: false }
    }

    /// The turn at which the actor left.
    pub fn get_turn(&self) -> (r: u32)
        ensures
            r == self.turn,
    {
        self.turn
    }

    /// Records that the event has been handled once.
    pub fn update(&mut self)
        ensures
            final(self).removed_actor == old(self).removed_actor,
            final(self).turn == old(self).turn,
            !final(self).spec_frame_valid(),
    {
        self.has_run = true;
    }

    pub open spec fn spec_frame_valid(&self) -> bool {
        !self.has_run
    }

    /// Whether the event has not been handled yet.
    pub fn frame_valid(&self) -> (r: bool)
        ensures
            r == self.spec_frame_valid(),
    {
        !self.has_run
    }
}

} // verus!

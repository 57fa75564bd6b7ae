use vstd::prelude::*;

use crate::ai::Engages;
use crate::color::Palette;
use crate::entity::EntityId;
use crate::stats::StatModification;
use crate::turn::Turns;

verus! {

/// The kinds of status effect.
#[derive(Clone, Copy, PartialEq, Eq, Structural, Debug)]
pub enum StatusEffectType {
    Tranced,
    Sneaking,
    Cumblobbed,
    Restrained,
}

impl StatusEffectType {
    pub open spec fn spec_name(self) -> Seq<char> {
        match self {
            StatusEffectType::Tranced => "tranced"@,
            StatusEffectType::Sneaking => "sneaking"@,
            StatusEffectType::Cumblobbed => "cumblobbed"@,
            StatusEffectType::Restrained => "restrained"@,
        }
    }

    /// The name of the status as shown to the player.
    pub fn name(&self) -> (r: String)
        ensures
            r@ == self.spec_name(),
    {
        match self {
            StatusEffectType::Tranced => String::from_str("tranced"),
            StatusEffectType::Sneaking => String::from_str("sneaking"),
            StatusEffectType::Cumblobbed => String::from_str("cumblobbed"),
            StatusEffectType::Restrained => String::from_str("restrained"),
        }
    }

    pub open spec fn spec_color(self) -> Palette {
        match self {
            StatusEffectType::Tranced => Palette::Pink,
            StatusEffectType::Sneaking => Palette::Gray,
            StatusEffectType::Cumblobbed => Palette::White,
            StatusEffectType::Restrained => Palette::Yellow,
        }
    }

    /// The colour the status is drawn in.
    pub fn color(&self) -> (r: Palette)
        ensures
            r == self.spec_color(),
    {
        match self {
            StatusEffectType::Tranced => Palette::Pink,
            StatusEffectType::Sneaking => Palette::Gray,
            StatusEffectType::Cumblobbed => Palette::White,
            StatusEffectType::Restrained => Palette::Yellow,
        }
    }

    pub open spec fn spec_abbreviation(self) -> Seq<char> {
        match self {
            StatusEffectType::Tranced => "trn"@,
            StatusEffectType::Sneaking => "snk"@,
            StatusEffectType::Cumblobbed => "cum"@,
            StatusEffectType::Restrained => "rst"@,
        }
    }

    /// The three-letter abbreviation of the status.
    pub fn abbreviate(&self) -> (r: String)
        ensures
            r@ == self.spec_abbreviation(),
    {
        match self {
            StatusEffectType::Tranced => String::from_str("trn"),
            StatusEffectType::Sneaking => String::from_str("snk"),
            StatusEffectType::Cumblobbed => String::from_str("cum"),
            StatusEffectType::Restrained => String::from_str("rst"),
        }
    }
}

/// How a status effect combines with one of the same kind already present.
#[derive(Clone, Copy, PartialEq, Eq, Structural, Debug)]
pub enum StatusEffectStacking {
    /// Another copy is added.
    Stacks,
    /// The durations add up.
    Adds,
    /// The duration is replaced by the new one.
    Refreshes,
}

/// A change to how an affected actor is drawn.
#[derive(Clone, Copy, PartialEq, Eq, Structural, Debug)]
pub struct TileModification {
    pub glyph: Option<char>,
    pub fg_color: Option<Palette>,
    pub bg_color: Option<Palette>,
}

/// A status effect on an actor; `None` as duration means it lasts until removed.
#[derive(Clone, Copy, PartialEq, Eq, Structural, Debug)]
pub struct StatusEffect {
    pub status_type: StatusEffectType,
    pub from: Option<EntityId>,
    pub tile_modification: Option<TileModification>,
    pub duration: Option<u32>,
    pub stat_modification: Option<StatModification>,
}

impl StatusEffect {
    pub open spec fn spec_priority(self) -> u8 {
        match self.stat_modification {
            Some(m) => m.operation.spec_priority(),
            None => 0,
        }
    }

    /// The order in which statuses modify stats: lower first.
    pub fn priority(&self) -> (r: u8)
        ensures
            r == self.spec_priority(),
    {
        match self.stat_modification {
            Some(m) => m.priority(),
            None => 0,
        }
    }
}

/// A status effect together with how it stacks.
#[derive(Clone, Copy, PartialEq, Eq, Structural, Debug)]
pub struct StatusEffectApplication {
    pub effect: StatusEffect,
    pub stacking: StatusEffectStacking,
}

/// Sent to apply a status effect to an entity.
#[derive(Clone, Copy, PartialEq, Eq, Structural, Debug)]
pub struct StatusEffectEvent {
    pub application: StatusEffectApplication,
    pub entity: EntityId,
}

/// Sent when some status effect of an entity has run out.
#[derive(Clone, Copy, PartialEq, Eq, Structural, Debug)]
pub struct RemoveStatusEffectEvent {
    pub entity: EntityId,
}

// ---------------------------------------------------------------------------
// The statuses of an actor
// ---------------------------------------------------------------------------

/// The source of the first status of the given kind, if there is one.
pub open spec fn first_source(s: Seq<StatusEffect>, t: StatusEffectType) -> Option<Option<EntityId>>
    decreases s.len(),
{
    if s.len() == 0 {
        None
    } else if s[0].status_type == t {
        Some(s[0].from)
    } else {
        first_source(s.drop_first(), t)
    }
}

/// Whether the statuses are listed by non-decreasing priority.
pub open spec fn sorted_by_priority(s: Seq<StatusEffect>) -> bool {
    forall|i: int, j: int| 0 <= i < j < s.len() ==> #[trigger] s[i].spec_priority() <= #[trigger] s[j].spec_priority()
}

/// Whether no status has a duration of zero.
pub open spec fn no_expired(s: Seq<StatusEffect>) -> bool {
    forall|i: int| 0 <= i < s.len() ==> #[trigger] s[i].duration != Some(0u32)
}

/// The place at which an effect of priority `p` goes: after every status of
/// priority at most `p` at the end of the list.
pub open spec fn insertion_index(s: Seq<StatusEffect>, p: u8) -> int
    decreases s.len(),
{
    if s.len() == 0 {
        0
    } else if s.last().spec_priority() <= p {
        s.len() as int
    } else {
        insertion_index(s.drop_last(), p)
    }
}

/// The statuses with `e` added where a stable sort by priority puts it.
pub open spec fn insert_by_priority(s: Seq<StatusEffect>, e: StatusEffect) -> Seq<StatusEffect> {
    let k = insertion_index(s, e.spec_priority());
    s.take(k) + seq![e] + s.skip(k)
}

/// The status after one turn: its duration, if any, goes down by one.
pub open spec fn decremented(e: StatusEffect) -> StatusEffect {
    match e.duration {
        Some(d) => StatusEffect { duration: Some((d - 1) as u32), ..e },
        None => e,
    }
}

/// The statuses after one turn: durations go down by one and those that reach
/// zero are removed; the others keep their order.
pub open spec fn ticked(s: Seq<StatusEffect>) -> Seq<StatusEffect>
    decreases s.len(),
{
    if s.len() == 0 {
        Seq::empty()
    } else {
        let prev = ticked(s.drop_last());
        let e = decremented(s.last());
        if e.duration == Some(0u32) {
            prev
        } else {
            prev.push(e)
        }
    }
}

/// Whether some status has the given kind.
pub open spec fn has_type(s: Seq<StatusEffect>, t: StatusEffectType) -> bool {
    exists|i: int| 0 <= i < s.len() && #[trigger] s[i].status_type == t
}

/// A status of the applied kind, after an application that does not stack.
pub open spec fn restacked(st: StatusEffect, a: StatusEffectApplication) -> StatusEffect {
    match a.stacking {
        StatusEffectStacking::Adds => match st.duration {
            Some(d) => match a.effect.duration {
                Some(ed) => StatusEffect { duration: Some((d + ed) as u32), ..st },
                None => StatusEffect { duration: None, ..st },
            },
            None => st,
        },
        _ => StatusEffect { duration: a.effect.duration, ..st },
    }
}

/// The statuses after an application: a stacking effect, or one whose kind is
/// not yet present, is added in priority order; otherwise every status of that
/// kind gets its duration extended (`Adds`) or replaced (`Refreshes`).
pub open spec fn applied(s: Seq<StatusEffect>, a: StatusEffectApplication) -> Seq<StatusEffect> {
    if a.stacking == StatusEffectStacking::Stacks || !has_type(s, a.effect.status_type) {
        insert_by_priority(s, a.effect)
    } else {
        s.map_values(
            |st: StatusEffect|
                if st.status_type == a.effect.status_type {
                    restacked(st, a)
                } else {
                    st
                },
        )
    }
}

/// Whether applying `a` keeps every added-up duration within `u32`.
pub open spec fn application_fits(s: Seq<StatusEffect>, a: StatusEffectApplication) -> bool {
    a.stacking == StatusEffectStacking::Adds && a.effect.duration is Some ==> forall|i: int|
        0 <= i < s.len() && #[trigger] s[i].status_type == a.effect.status_type
            && s[i].duration is Some ==> s[i].duration->Some_0 + a.effect.duration->Some_0
            <= u32::MAX
}

/// The status effects on an actor, kept in order of priority.
#[derive(Clone)]
pub struct StatusEffects {
    effects: Vec<StatusEffect>,
}

impl StatusEffects {
    pub closed spec fn view(&self) -> Seq<StatusEffect> {
        self.effects@
    }

    /// The list is ordered by priority.
    pub closed spec fn wf(&self) -> bool {
        sorted_by_priority(self.effects@)
    }

    /// No status effects.
    pub fn default() -> (r: StatusEffects)
        ensures
            r.view() == Seq::<StatusEffect>::empty(),
            r.wf(),
    {
        StatusEffects { effects: Vec::new() }
    }

    /// The status effects, in order of priority.
    pub fn effects(&self) -> (r: &Vec<StatusEffect>)
        ensures
            r@ == self.view(),
    {
        &self.effects
    }

    /// A well-formed list is sorted by priority.
    pub proof fn lemma_wf_sorted(&self)
        requires
            self.wf(),
        ensures
            sorted_by_priority(self.view()),
    {
    }

    /// Whether some status has the given kind.
    pub fn has_status_effect(&self, status_effect_type: &StatusEffectType) -> (r: bool)
        ensures
            r == has_type(self.view(), *status_effect_type),
    {
        let mut i: usize = 0;
        while i < self.effects.len()
            invariant
                i <= self.effects@.len(),
                forall|j: int| 0 <= j < i ==> self.effects@[j].status_type != *status_effect_type,
            decreases self.effects@.len() - i,
        {
            if self.effects[i].status_type == *status_effect_type {
                return true;
            }
            i = i + 1;
        }
        false
    }

    /// The source of the first status of the given kind, if there is one.
    pub fn status_from(&self, status_effect_type: &StatusEffectType) -> (r: Option<Option<EntityId>>)
        ensures
            r == first_source(self.view(), *status_effect_type),
            r is None <==> !has_type(self.view(), *status_effect_type),
    {
        assert(self.effects@.skip(0) =~= self.effects@);
        let mut i: usize = 0;
        while i < self.effects.len()
            invariant
                i <= self.effects@.len(),
                first_source(self.effects@, *status_effect_type) == first_source(
                    self.effects@.skip(i as int),
                    *status_effect_type,
                ),
                forall|j: int| 0 <= j < i ==> #[trigger] self.effects@[j].status_type != *status_effect_type,
            decreases self.effects@.len() - i,
        {
            assert(self.effects@.skip(i as int).drop_first() =~= self.effects@.skip(i as int + 1));
            if self.effects[i].status_type == *status_effect_type {
                return Some(self.effects[i].from);
            }
            i = i + 1;
        }
        None
    }

    /// Runs one turn off every status: durations go down by one and statuses
    /// that reach zero are removed. Returns whether any status was removed.
    pub fn tick(&mut self) -> (removed: bool)
        requires
            old(self).wf(),
            no_expired(old(self).view()),
        ensures
            final(self).wf(),
            final(self).view() == ticked(old(self).view()),
            removed == (final(self).view().len() != old(self).view().len()),
    {
        let ghost s0 = self.effects@;
        let mut kept: Vec<StatusEffect> = Vec::new();
        let mut i: usize = 0;
        while i < self.effects.len()
            invariant
                s0 == self.effects@,
                i <= s0.len(),
                no_expired(s0),
                kept@ == ticked(s0.take(i as int)),
            decreases s0.len() - i,
        {
            let e = self.effects[i];
            let d = match e.duration {
                Some(d) => StatusEffect { duration: Some(d - 1), ..e },
                None => e,
            };
            assert(s0.take(i as int + 1).drop_last() =~= s0.take(i as int));
            if d.duration != Some(0u32) {
                kept.push(d);
            }
            i = i + 1;
        }
        assert(s0.take(s0.len() as int) =~= s0);
        let len_before = self.effects.len();
        self.effects = kept;
        proof {
            lemma_ticked_sorted(s0);
        }
        self.effects.len() != len_before
    }

    /// Whether the application keeps every added-up duration within `u32`.
    pub fn fits(&self, application: &StatusEffectApplication) -> (r: bool)
        ensures
            r == application_fits(self.view(), *application),
    {
        let d = match (application.stacking, application.effect.duration) {
            (StatusEffectStacking::Adds, Some(d)) => d,
            _ => {
                return true;
            },
        };
        let mut i: usize = 0;
        while i < self.effects.len()
            invariant
                i <= self.effects@.len(),
                application.effect.duration == Some(d),
                application.stacking == StatusEffectStacking::Adds,
                forall|j: int|
                    0 <= j < i && #[trigger] self.effects@[j].status_type == application.effect.status_type
                        && self.effects@[j].duration is Some ==> self.effects@[j].duration->Some_0 + d
                        <= u32::MAX,
            decreases self.effects@.len() - i,
        {
            let e = self.effects[i];
            if e.status_type == application.effect.status_type {
                match e.duration {
                    Some(x) => {
                        if x > u32::MAX - d {
                            return false;
                        }
                    },
                    None => {},
                }
            }
            i = i + 1;
        }
        true
    }

    /// Applies a status effect: a stacking effect, or one whose kind is not yet
    /// present, is added after the statuses of no greater priority; otherwise
    /// each status of that kind has its duration extended or replaced.
    pub fn apply(&mut self, application: &StatusEffectApplication)
        requires
            old(self).wf(),
            application_fits(old(self).view(), *application),
        ensures
            final(self).wf(),
            final(self).view() == applied(old(self).view(), *application),
    {
        let ghost s0 = self.effects@;
        let t = application.effect.status_type;
        let stacks = match application.stacking {
            StatusEffectStacking::Stacks => true,
            _ => false,
        };
        if stacks || !self.has_status_effect(&t) {
            self.insert_sorted(application.effect);
        } else {
            let mut updated: Vec<StatusEffect> = Vec::new();
            let mut i: usize = 0;
            while i < self.effects.len()
                invariant
                    s0 == self.effects@,
                    t == application.effect.status_type,
                    i <= s0.len(),
                    application_fits(s0, *application),
                    updated@.len() == i,
                    forall|j: int|
                        0 <= j < i ==> #[trigger] updated@[j] == (if s0[j].status_type
                            == application.effect.status_type {
                            restacked(s0[j], *application)
                        } else {
                            s0[j]
                        }),
                decreases s0.len() - i,
            {
                let st = self.effects[i];
                assert(st == s0[i as int]);
                if st.status_type == t {
                    let new_st = match application.stacking {
                        StatusEffectStacking::Adds => match st.duration {
                            Some(d) => match application.effect.duration {
                                Some(ed) => {
                                    assert(s0[i as int].status_type == application.effect.status_type);
                                    StatusEffect { duration: Some(d + ed), ..st }
                                },
                                None => StatusEffect { duration: None, ..st },
                            },
                            None => st,
                        },
                        _ => StatusEffect { duration: application.effect.duration, ..st },
                    };
                    updated.push(new_st);
                    assert(updated@[i as int] == restacked(s0[i as int], *application));
                } else {
                    updated.push(st);
                    assert(updated@[i as int] == s0[i as int]);
                }
                i = i + 1;
            }
            self.effects = updated;
            proof {
                let r = applied(s0, *application);
                assert(self.effects@ =~= r);
                assert forall|i: int, j: int|
                    0 <= i < j < r.len() implies #[trigger] r[i].spec_priority()
                    <= #[trigger] r[j].spec_priority() by {
                    assert(r[i].spec_priority() == s0[i].spec_priority());
                    assert(r[j].spec_priority() == s0[j].spec_priority());
                }
            }
        }
    }

    fn insert_sorted(&mut self, e: StatusEffect)
        requires
            old(self).wf(),
        ensures
            final(self).wf(),
            final(self).view() == insert_by_priority(old(self).view(), e),
    {
        let ghost s0 = self.effects@;
        let p = e.priority();
        let mut k = self.effects.len();
        while k > 0 && self.effects[k - 1].priority() > p
            invariant
                s0 == self.effects@,
                k <= s0.len(),
                forall|j: int| k <= j < s0.len() ==> #[trigger] s0[j].spec_priority() > p,
            decreases k,
        {
            k = k - 1;
        }
        proof {
            lemma_insertion_index(s0, p, k as int);
        }
        self.effects.insert(k, e);
        proof {
            assert(self.effects@ =~= s0.take(k as int) + seq![e] + s0.skip(k as int));
            lemma_insert_sorted(s0, e);
        }
    }
}

proof fn lemma_insertion_index(s: Seq<StatusEffect>, p: u8, k: int)
    requires
        0 <= k <= s.len(),
        forall|j: int| k <= j < s.len() ==> #[trigger] s[j].spec_priority() > p,
        k == 0 || s[k - 1].spec_priority() <= p,
    ensures
        insertion_index(s, p) == k,
    decreases s.len(),
{
    if s.len() > k {
        assert(s.last().spec_priority() > p);
        lemma_insertion_index(s.drop_last(), p, k);
    }
}

proof fn lemma_insertion_index_props(s: Seq<StatusEffect>, p: u8)
    ensures
        0 <= insertion_index(s, p) <= s.len(),
        forall|j: int|
            insertion_index(s, p) <= j < s.len() ==> #[trigger] s[j].spec_priority() > p,
        sorted_by_priority(s) ==> forall|j: int|
            0 <= j < insertion_index(s, p) ==> #[trigger] s[j].spec_priority() <= p,
    decreases s.len(),
{
    if s.len() > 0 {
        lemma_insertion_index_props(s.drop_last(), p);
        if s.last().spec_priority() <= p {
            if sorted_by_priority(s) {
                assert forall|j: int| 0 <= j < s.len() implies #[trigger] s[j].spec_priority() <= p by {
                    if j < s.len() - 1 {
                        assert(s[j].spec_priority() <= s[s.len() - 1].spec_priority());
                    }
                }
            }
        } else {
            if sorted_by_priority(s) {
                assert(sorted_by_priority(s.drop_last())) by {
                    assert forall|i: int, j: int| 0 <= i < j < s.drop_last().len() implies #[trigger] s.drop_last()[i].spec_priority()
                        <= #[trigger] s.drop_last()[j].spec_priority() by {
                        assert(s.drop_last()[i] == s[i] && s.drop_last()[j] == s[j]);
                    }
                }
            }
            if sorted_by_priority(s) {
                assert forall|j: int| 0 <= j < insertion_index(s, p) implies #[trigger] s[j].spec_priority() <= p by {
                    assert(s.drop_last()[j] == s[j]);
                }
            }
            assert forall|j: int|
                insertion_index(s, p) <= j < s.len() implies #[trigger] s[j].spec_priority() > p by {
                if j < s.len() - 1 {
                    assert(s.drop_last()[j] == s[j]);
                }
            }
        }
    }
}

/// Adding an effect in priority order keeps the list ordered by priority.
pub proof fn lemma_insert_sorted(s: Seq<StatusEffect>, e: StatusEffect)
    requires
        sorted_by_priority(s),
    ensures
        sorted_by_priority(insert_by_priority(s, e)),
        insert_by_priority(s, e).len() == s.len() + 1,
        insert_by_priority(s, e).to_multiset() == s.push(e).to_multiset(),
{
    let k = insertion_index(s, e.spec_priority());
    lemma_insertion_index_props(s, e.spec_priority());
    let r = insert_by_priority(s, e);
    assert forall|i: int, j: int| 0 <= i < j < r.len() implies #[trigger] r[i].spec_priority()
        <= #[trigger] r[j].spec_priority() by {
        if j < k {
            assert(r[i] == s[i] && r[j] == s[j]);
        } else if j == k {
            assert(r[i] == s[i]);
        } else if i < k {
            assert(r[i] == s[i] && r[j] == s[j - 1]);
        } else if i == k {
            assert(r[j] == s[j - 1]);
        } else {
            assert(r[i] == s[i - 1] && r[j] == s[j - 1]);
        }
    }
    assert(s =~= s.take(k) + s.skip(k));
    vstd::seq_lib::lemma_multiset_commutative(s.take(k), s.skip(k));
    vstd::seq_lib::lemma_multiset_commutative(s.take(k) + seq![e], s.skip(k));
    vstd::seq_lib::lemma_multiset_commutative(s.take(k), seq![e]);
    vstd::seq_lib::lemma_multiset_commutative(s, seq![e]);
    assert(s.push(e) =~= s + seq![e]);
}

/// Running a turn off a list ordered by priority leaves it ordered, and leaves
/// no status with zero duration, so that the next turn can run off too.
pub proof fn lemma_ticked_sorted(s: Seq<StatusEffect>)
    ensures
        sorted_by_priority(s) ==> sorted_by_priority(ticked(s)),
        no_expired(ticked(s)),
        ticked(s).len() <= s.len(),
        forall|i: int|
            0 <= i < ticked(s).len() ==> exists|j: int|
                0 <= j < s.len() && #[trigger] ticked(s)[i] == decremented(s[j]),
    decreases s.len(),
{
    if s.len() > 0 {
        let d = s.drop_last();
        lemma_ticked_sorted(d);
        let prev = ticked(d);
        let e = decremented(s.last());
        assert forall|i: int| 0 <= i < ticked(s).len() implies exists|j: int|
            0 <= j < s.len() && #[trigger] ticked(s)[i] == decremented(s[j]) by {
            if i < prev.len() {
                let j = choose|j: int| 0 <= j < d.len() && #[trigger] prev[i] == decremented(d[j]);
                assert(s[j] == d[j]);
            } else {
                assert(ticked(s)[i] == decremented(s[s.len() - 1]));
            }
        }
        if sorted_by_priority(s) {
            assert(sorted_by_priority(d)) by {
                assert forall|i: int, j: int| 0 <= i < j < d.len() implies #[trigger] d[i].spec_priority()
                    <= #[trigger] d[j].spec_priority() by {
                    assert(d[i] == s[i] && d[j] == s[j]);
                }
            }
            let r = ticked(s);
            assert forall|i: int, j: int| 0 <= i < j < r.len() implies #[trigger] r[i].spec_priority()
                <= #[trigger] r[j].spec_priority() by {
                if j == prev.len() {
                    let a = choose|a: int| 0 <= a < d.len() && #[trigger] prev[i] == decremented(d[a]);
                    assert(d[a] == s[a]);
                    assert(s[a].spec_priority() <= s[s.len() - 1].spec_priority());
                }
            }
        }
    }
}

/// An effect added to a list ordered by priority is present afterwards, and
/// an application never changes the number of statuses unless it adds one.
pub proof fn lemma_applied_has_effect(s: Seq<StatusEffect>, a: StatusEffectApplication)
    ensures
        has_type(applied(s, a), a.effect.status_type),
        applied(s, a).len() == (if a.stacking == StatusEffectStacking::Stacks || !has_type(
            s,
            a.effect.status_type,
        ) {
            s.len() + 1
        } else {
            s.len() + 0
        }),
{
    let t = a.effect.status_type;
    if a.stacking == StatusEffectStacking::Stacks || !has_type(s, t) {
        let k = insertion_index(s, a.effect.spec_priority());
        lemma_insertion_index_props(s, a.effect.spec_priority());
        assert(applied(s, a)[k] == a.effect);
    } else {
        let i = choose|i: int| 0 <= i < s.len() && #[trigger] s[i].status_type == t;
        assert(applied(s, a)[i].status_type == t);
    }
}

/// Runs one turn off the statuses of an actor whose turn has just been taken.
/// Returns whether some status ran out (and a removal event is due).
pub fn update_status_effects(turns: &Turns, entity: EntityId, statuses: &mut StatusEffects) -> (removed: bool)
    requires
        turns.current_valid(),
        old(statuses).wf(),
        no_expired(old(statuses).view()),
    ensures
        final(statuses).wf(),
        if turns.progress && turns.spec_was_turn(entity) {
            &&& final(statuses).view() == ticked(old(statuses).view())
            &&& removed == (final(statuses).view().len() != old(statuses).view().len())
        } else {
            &&& final(statuses).view() == old(statuses).view()
            &&& !removed
        },
{
    if turns.progress && turns.was_turn(&entity) {
        statuses.tick()
    } else {
        false
    }
}

/// Applies a status effect event to the statuses of its entity.
pub fn apply_status_effects(statuses: &mut StatusEffects, ev: &StatusEffectEvent)
    requires
        old(statuses).wf(),
        application_fits(old(statuses).view(), ev.application),
    ensures
        final(statuses).wf(),
        final(statuses).view() == applied(old(statuses).view(), ev.application),
{
    statuses.apply(&ev.application);
}

/// A tranced actor skips its turn: if the current actor has not acted yet and
/// is tranced, its turn is marked as taken.
pub fn tranced_behavior(turns: &mut Turns, current_statuses: Option<&StatusEffects>)
    ensures
        final(turns).order@ == old(turns).order@,
        final(turns).current == old(turns).current,
        final(turns).progress == (old(turns).progress || (match current_statuses {
            Some(s) => has_type(s.view(), StatusEffectType::Tranced),
            None => false,
        })),
{
    if turns.progress {
        return ;
    }
    match current_statuses {
        Some(s) => {
            if s.has_status_effect(&StatusEffectType::Tranced) {
                turns.progress_turn();
            }
        },
        None => {},
    }
}

/// A cumblobbed actor skips its turn and turns on whoever cumblobbed it: if
/// the current actor has not acted yet and is cumblobbed, an engaging actor
/// takes the source of its first such status as its engaged target, and its
/// turn is marked as taken.
pub fn cumblobbed_behavior(
    turns: &mut Turns,
    current_statuses: Option<&StatusEffects>,
    engagement: Option<&mut Engages>,
)
    ensures
        final(turns).order@ == old(turns).order@,
        final(turns).current == old(turns).current,
        ({
            let source = match current_statuses {
                Some(s) => first_source(s.view(), StatusEffectType::Cumblobbed),
                None => None,
            };
            &&& final(turns).progress == (old(turns).progress || source is Some)
            &&& match engagement {
                Some(e) => if !old(turns).progress && source is Some {
                    &&& final(e).target == source->Some_0
                    &&& final(e).delay_timer == (*e).delay
                    &&& final(e).delay == (*e).delay
                    &&& final(e).distance_sq == (*e).distance_sq
                    &&& final(e).path.positions@ == (*e).path.positions@
                    &&& final(e).path.cost == (*e).path.cost
                } else {
                    &&& final(e).target == (*e).target
                    &&& final(e).delay_timer == (*e).delay_timer
                    &&& final(e).delay == (*e).delay
                    &&& final(e).distance_sq == (*e).distance_sq
                    &&& final(e).path.positions@ == (*e).path.positions@
                    &&& final(e).path.cost == (*e).path.cost
                },
                None => true,
            }
        }),
{
    if turns.progress {
        return ;
    }
    let source = match current_statuses {
        Some(s) => s.status_from(&StatusEffectType::Cumblobbed),
        None => None,
    };
    match source {
        Some(from) => {
            match engagement {
                Some(e) => {
                    e.delay_timer = e.delay;
                    e.target = from;
                },
                None => {},
            }
            turns.progress_turn();
        },
        None => {},
    }
}

} // verus!

use vstd::prelude::*;

use crate::color::Palette;
use crate::entity::EntityId;
use crate::log::{LogFragment, Log, all_colored, line_texts, split_inclusive};
use crate::status_effects::{StatusEffect, StatusEffectApplication, StatusEffectEvent, StatusEffectStacking, StatusEffectType};
use crate::turn::ActorRemovedEvent;

verus! {

// ---------------------------------------------------------------------------
// Stat types
// ---------------------------------------------------------------------------

/// The kinds of stat an actor can have, in the order in which they are listed.
#[derive(Clone, Copy, PartialEq, Eq, Structural, Debug, Hash)]
pub enum StatType {
    Health,
    Resistance,
    CumPoints,
    Dexterity,
    Perception,
    Strength,
    StealthRange,
}

/// The number of stat kinds.
pub const STAT_KINDS: usize = 7;

impl StatType {
    /// The place of the stat kind in the listing order.
    pub open spec fn rank(self) -> int {
        match self {
            StatType::Health => 0,
            StatType::Resistance => 1,
            StatType::CumPoints => 2,
            StatType::Dexterity => 3,
            StatType::Perception => 4,
            StatType::Strength => 5,
            StatType::StealthRange => 6,
        }
    }

    pub open spec fn from_rank(i: int) -> StatType {
        if i == 0 {
            StatType::Health
        } else if i == 1 {
            StatType::Resistance
        } else if i == 2 {
            StatType::CumPoints
        } else if i == 3 {
            StatType::Dexterity
        } else if i == 4 {
            StatType::Perception
        } else if i == 5 {
            StatType::Strength
        } else {
            StatType::StealthRange
        }
    }

    /// The place of the stat kind in the listing order.
    pub fn ordinal(&self) -> (r: usize)
        ensures
            r == self.rank(),
            r < STAT_KINDS,
    {
        match self {
            StatType::Health => 0,
            StatType::Resistance => 1,
            StatType::CumPoints => 2,
            StatType::Dexterity => 3,
            StatType::Perception => 4,
            StatType::Strength => 5,
            StatType::StealthRange => 6,
        }
    }

    /// The stat kind at the given place of the listing order.
    pub fn from_ordinal(i: usize) -> (r: StatType)
        requires
            i < STAT_KINDS,
        ensures
            r.rank() == i,
            r == StatType::from_rank(i as int),
    {
        if i == 0 {
            StatType::Health
        } else if i == 1 {
            StatType::Resistance
        } else if i == 2 {
            StatType::CumPoints
        } else if i == 3 {
            StatType::Dexterity
        } else if i == 4 {
            StatType::Perception
        } else if i == 5 {
            StatType::Strength
        } else {
            StatType::StealthRange
        }
    }

    pub open spec fn spec_name(self) -> Seq<char> {
        match self {
            StatType::Health => "health"@,
            StatType::Resistance => "resistance"@,
            StatType::CumPoints => "cum points"@,
            StatType::Dexterity => "dexterity"@,
            StatType::Perception => "perception"@,
            StatType::Strength => "strength"@,
            StatType::StealthRange => "stealth range"@,
        }
    }

    /// The stat's name as shown to the player.
    pub fn name(&self) -> (r: String)
        ensures
            r@ == self.spec_name(),
    {
        match self {
            StatType::Health => String::from_str("health"),
            StatType::Resistance => String::from_str("resistance"),
            StatType::CumPoints => String::from_str("cum points"),
            StatType::Dexterity => String::from_str("dexterity"),
            StatType::Perception => String::from_str("perception"),
            StatType::Strength => String::from_str("strength"),
            StatType::StealthRange => String::from_str("stealth range"),
        }
    }

    pub open spec fn spec_color(self) -> Palette {
        match self {
            StatType::Health => Palette::Red,
            StatType::Resistance => Palette::Blue,
            StatType::CumPoints => Palette::White,
            StatType::Dexterity => Palette::Green,
            StatType::Perception => Palette::Pink,
            StatType::Strength => Palette::Pink,
            StatType::StealthRange => Palette::Gray,
        }
    }

    /// The colour the stat is drawn in.
    pub fn color(&self) -> (r: Palette)
        ensures
            r == self.spec_color(),
    {
        match self {
            StatType::Health => Palette::Red,
            StatType::Resistance => Palette::Blue,
            StatType::CumPoints => Palette::White,
            StatType::Dexterity => Palette::Green,
            StatType::Perception => Palette::Pink,
            StatType::Strength => Palette::Pink,
            StatType::StealthRange => Palette::Gray,
        }
    }

    pub open spec fn spec_abbreviation(self) -> Seq<char> {
        match self {
            StatType::Health => "hth"@,
            StatType::Resistance => "res"@,
            StatType::CumPoints => "cum"@,
            StatType::Dexterity => "dex"@,
            StatType::Perception => "per"@,
            StatType::Strength => "str"@,
            StatType::StealthRange => "sth"@,
        }
    }

    /// The three-letter abbreviation of the stat.
    pub fn abbreviate(&self) -> (r: String)
        ensures
            r@ == self.spec_abbreviation(),
    {
        match self {
            StatType::Health => String::from_str("hth"),
            StatType::Resistance => String::from_str("res"),
            StatType::CumPoints => String::from_str("cum"),
            StatType::Dexterity => String::from_str("dex"),
            StatType::Perception => String::from_str("per"),
            StatType::Strength => String::from_str("str"),
            StatType::StealthRange => String::from_str("sth"),
        }
    }
}

/// Distinct stat kinds have distinct places in the listing order.
pub proof fn lemma_rank_injective(a: StatType, b: StatType)
    ensures
        a.rank() == b.rank() <==> a == b,
        0 <= a.rank() < STAT_KINDS,
        StatType::from_rank(a.rank()) == a,
{
}

// ---------------------------------------------------------------------------
// Stats
// ---------------------------------------------------------------------------

/// What happens to an actor whose stat reaches its fatal value.
#[derive(Clone, Copy, PartialEq, Eq, Structural, Debug)]
pub enum FatalEffect {
    Disintegrate,
    Corpse,
    Trance,
}

/// What a fatality does to the actor: whether it leaves the game at once,
/// whether it stops taking turns, whether it stops blocking the way, and the
/// ground colour its tile takes (if it stays). Its other parts stay.
#[derive(Clone, Copy, PartialEq, Eq, Structural, Debug)]
pub struct FatalFate {
    pub despawned: bool,
    pub loses_turns: bool,
    pub loses_collision: bool,
    pub ground: Option<Palette>,
}

/// A disintegrated actor leaves the game; a corpse stays on an orange-red
/// ground, but takes no more turns and blocks nothing; a tranced actor stays
/// as it was, on a pink ground.
pub open spec fn spec_fatal_fate(effect: FatalEffect) -> FatalFate {
    match effect {
        FatalEffect::Disintegrate => FatalFate { despawned: true, loses_turns: true, loses_collision: true, ground: None },
        FatalEffect::Corpse => FatalFate {
            despawned: false,
            loses_turns: true,
            loses_collision: true,
            ground: Some(Palette::OrangeRed),
        },
        FatalEffect::Trance => FatalFate {
            despawned: false,
            loses_turns: false,
            loses_collision: false,
            ground: Some(Palette::Pink),
        },
    }
}

/// What the fatality does to the actor.
pub fn fatal_fate(effect: FatalEffect) -> (r: FatalFate)
    ensures
        r == spec_fatal_fate(effect),
{
    match effect {
        FatalEffect::Disintegrate => FatalFate { despawned: true, loses_turns: true, loses_collision: true, ground: None },
        FatalEffect::Corpse => FatalFate {
            despawned: false,
            loses_turns: true,
            loses_collision: true,
            ground: Some(Palette::OrangeRed),
        },
        FatalEffect::Trance => FatalFate {
            despawned: false,
            loses_turns: false,
            loses_collision: false,
            ground: Some(Palette::Pink),
        },
    }
}

/// Who may see a stat.
#[derive(Clone, Copy, PartialEq, Eq, Structural, Debug)]
pub enum StatVisibility {
    Public,
    Private,
    Hidden,
}

/// One stat of an actor: its base value, its value after status effects,
/// and the bounds of its base value.
#[derive(Clone, Copy, PartialEq, Eq, Structural, Debug)]
pub struct Stat {
    pub base: i32,
    pub effective: i32,
    pub min: i32,
    pub max: i32,
    pub visibility: StatVisibility,
}

impl Stat {
    /// A stat that starts at its maximum.
    pub fn new(min: i32, max: i32, visibility: StatVisibility) -> (r: Stat)
        ensures
            r == (Stat { base: max, effective: max, min, max, visibility }),
    {
        Stat { base: max, effective: max, min, max, visibility }
    }

    /// A stat that starts at the given value.
    pub fn with_value(value: i32, min: i32, max: i32, visibility: StatVisibility) -> (r: Stat)
        ensures
            r == (Stat { base: value, effective: value, min, max, visibility }),
    {
        Stat { base: value, effective: value, min, max, visibility }
    }
}

/// A map keyed by stat kind that lists its entries in the order of the kinds.
#[derive(Clone, Copy)]
pub struct StatMap<V> {
    slots: [Option<V>; 7],
}

/// The map built by inserting the entries one after the other, a later entry
/// replacing an earlier one of the same kind.
pub open spec fn map_of_entries<V>(s: Seq<(StatType, V)>) -> Map<StatType, V>
    decreases s.len(),
{
    if s.len() == 0 {
        Map::empty()
    } else {
        map_of_entries(s.drop_last()).insert(s.last().0, s.last().1)
    }
}

impl<V: Copy> StatMap<V> {
    pub closed spec fn view(&self) -> Map<StatType, V> {
        Map::new(
            |t: StatType| self.slots@[t.rank()] is Some,
            |t: StatType| self.slots@[t.rank()]->Some_0,
        )
    }

    /// The map with no entries.
    pub fn empty() -> (r: StatMap<V>)
        ensures
            r.view() == Map::<StatType, V>::empty(),
    {
        let r = StatMap { slots: [None, None, None, None, None, None, None] };
        assert(r.view() =~= Map::<StatType, V>::empty());
        r
    }

    /// Whether the map has an entry for the stat kind.
    pub fn contains_key(&self, key: &StatType) -> (r: bool)
        ensures
            r == self.view().contains_key(*key),
    {
        let i = key.ordinal();
        self.slots[i].is_some()
    }

    /// The entry for the stat kind, if any.
    pub fn get(&self, key: &StatType) -> (r: Option<V>)
        ensures
            r == (if self.view().contains_key(*key) {
                Some(self.view()[*key])
            } else {
                None
            }),
    {
        let i = key.ordinal();
        self.slots[i]
    }

    /// Sets the entry for the stat kind, replacing any entry it had.
    pub fn insert(&mut self, key: StatType, value: V)
        ensures
            final(self).view() == old(self).view().insert(key, value),
    {
        let i = key.ordinal();
        self.slots[i] = Some(value);
        proof {
            assert forall|t: StatType| #![auto] t.rank() == key.rank() <==> t == key by {
                lemma_rank_injective(t, key);
            }
        }
        assert(final(self).view() =~= old(self).view().insert(key, value));
    }

    /// The map holding the given entries, a later entry replacing an earlier
    /// one of the same kind.
    pub fn from_entries(entries: Vec<(StatType, V)>) -> (r: StatMap<V>)
        ensures
            r.view() == map_of_entries(entries@),
    {
        let mut r = StatMap::empty();
        let mut i: usize = 0;
        while i < entries.len()
            invariant
                i <= entries.len(),
                r.view() == map_of_entries(entries@.take(i as int)),
            decreases entries.len() - i,
        {
            let (k, v) = entries[i];
            r.insert(k, v);
            assert(entries@.take(i as int + 1).drop_last() =~= entries@.take(i as int));
            i = i + 1;
        }
        assert(entries@.take(entries.len() as int) =~= entries@);
        r
    }

    /// The entries of the map, listed in the order of their stat kinds.
    pub fn entries(&self) -> (r: Vec<(StatType, V)>)
        ensures
            forall|i: int, j: int|
                0 <= i < j < r@.len() ==> #[trigger] r@[i].0.rank() < #[trigger] r@[j].0.rank(),
            forall|i: int|
                0 <= i < r@.len() ==> self.view().contains_key(#[trigger] r@[i].0) && self.view()[r@[i].0]
                    == r@[i].1,
            forall|t: StatType|
                self.view().contains_key(t) ==> exists|i: int| 0 <= i < r@.len() && #[trigger] r@[i].0 == t,
    {
        let mut r: Vec<(StatType, V)> = Vec::new();
        let mut i: usize = 0;
        while i < STAT_KINDS
            invariant
                i <= STAT_KINDS,
                forall|a: int, b: int|
                    0 <= a < b < r@.len() ==> #[trigger] r@[a].0.rank() < #[trigger] r@[b].0.rank(),
                forall|a: int| 0 <= a < r@.len() ==> #[trigger] r@[a].0.rank() < i,
                forall|a: int|
                    0 <= a < r@.len() ==> self.view().contains_key(#[trigger] r@[a].0)
                        && self.view()[r@[a].0] == r@[a].1,
                forall|t: StatType|
                    self.view().contains_key(t) && t.rank() < i ==> exists|a: int|
                        0 <= a < r@.len() && #[trigger] r@[a].0 == t,
            decreases STAT_KINDS - i,
        {
            let t = StatType::from_ordinal(i);
            let ghost old_r = r@;
            match self.slots[i] {
                Some(v) => {
                    r.push((t, v));
                    assert(r@[r@.len() - 1].0 == t);
                },
                None => {},
            }
            proof {
                assert forall|u: StatType|
                    self.view().contains_key(u) && u.rank() < i + 1 implies exists|a: int|
                        0 <= a < r@.len() && #[trigger] r@[a].0 == u by {
                    lemma_rank_injective(u, t);
                    if u.rank() == i {
                        assert(r@[r@.len() - 1].0 == u);
                    } else {
                        let a = choose|a: int| 0 <= a < old_r.len() && #[trigger] old_r[a].0 == u;
                        assert(r@[a] == old_r[a]);
                    }
                }
            }
            i = i + 1;
        }
        r
    }
}

/// The stats of an actor, keyed by stat kind.
#[derive(Clone, Copy)]
pub struct Stats(pub StatMap<Stat>);

/// The effective value of a stat, or 0 where the actor lacks it.
pub open spec fn effective_of(stats: Stats, t: StatType) -> int {
    if stats.view().contains_key(t) {
        stats.view()[t].effective as int
    } else {
        0
    }
}

/// The stats behind an optional reference, taken by value.
pub open spec fn stats_of(o: Option<&Stats>) -> Option<Stats> {
    match o {
        Some(s) => Some(*s),
        None => None,
    }
}

/// The values at which a stat is fatal, and what then happens.
#[derive(Clone, Copy)]
pub struct FatalStats(pub StatMap<(i32, FatalEffect)>);

impl Stats {
    pub open spec fn view(&self) -> Map<StatType, Stat> {
        self.0.view()
    }

    /// An actor with only a health stat that runs from 0 to 3.
    pub fn default() -> (r: Stats)
        ensures
            r.view() == map![StatType::Health => Stat {
                base: 3,
                effective: 3,
                min: 0,
                max: 3,
                visibility: StatVisibility::Public,
            }],
    {
        let mut m = StatMap::empty();
        m.insert(StatType::Health, Stat::new(0, 3, StatVisibility::Public));
        let r = Stats(m);
        assert(r.view() =~= map![StatType::Health => Stat {
                base: 3,
                effective: 3,
                min: 0,
                max: 3,
                visibility: StatVisibility::Public,
            }]);
        r
    }

    /// Whether the actor has the stat.
    pub fn contains_key(&self, stat: &StatType) -> (r: bool)
        ensures
            r == self.view().contains_key(*stat),
    {
        self.0.contains_key(stat)
    }

    /// The base value of the stat, or 0 where the actor lacks it.
    pub fn get_base(&self, stat: &StatType) -> (r: i32)
        ensures
            r == (if self.view().contains_key(*stat) {
                self.view()[*stat].base
            } else {
                0
            }),
    {
        match self.0.get(stat) {
            Some(s) => s.base,
            None => 0,
        }
    }

    /// The effective value of the stat, or 0 where the actor lacks it.
    pub fn get_effective(&self, stat: &StatType) -> (r: i32)
        ensures
            r == (if self.view().contains_key(*stat) {
                self.view()[*stat].effective
            } else {
                0
            }),
    {
        match self.0.get(stat) {
            Some(s) => s.effective,
            None => 0,
        }
    }

    /// The lower bound of the stat.
    pub fn get_min(&self, stat: &StatType) -> (r: i32)
        requires
            self.view().contains_key(*stat),
        ensures
            r == self.view()[*stat].min,
    {
        match self.0.get(stat) {
            Some(s) => s.min,
            None => 0,
        }
    }

    /// The upper bound of the stat.
    pub fn get_max(&self, stat: &StatType) -> (r: i32)
        requires
            self.view().contains_key(*stat),
        ensures
            r == self.view()[*stat].max,
    {
        match self.0.get(stat) {
            Some(s) => s.max,
            None => 0,
        }
    }

    /// Whether the value lies within the bounds of the stat.
    pub fn in_range(&self, stat: &StatType, value: i32) -> (r: bool)
        requires
            self.view().contains_key(*stat),
        ensures
            r == (self.view()[*stat].min <= value <= self.view()[*stat].max),
    {
        let s = self.0.get(stat).unwrap();
        value <= s.max && value >= s.min
    }
}

impl FatalStats {
    pub open spec fn view(&self) -> Map<StatType, (i32, FatalEffect)> {
        self.0.view()
    }

    /// Health is fatal at 0 and leaves a corpse.
    pub fn default() -> (r: FatalStats)
        ensures
            r.view() == map![StatType::Health => (0i32, FatalEffect::Corpse)],
    {
        let mut m = StatMap::empty();
        m.insert(StatType::Health, (0i32, FatalEffect::Corpse));
        let r = FatalStats(m);
        assert(r.view() =~= map![StatType::Health => (0i32, FatalEffect::Corpse)]);
        r
    }
}

/// Why a stat was changed for a while.
#[derive(Clone, Copy, PartialEq, Eq, Structural, Debug)]
pub enum TempStatReason {
    Nothing,
    Wait,
    RangedAttack,
    MeleeAttack,
}

/// Whether to show hidden and private stats publicly.
pub struct DebugShowStats(pub bool);

impl DebugShowStats {
    pub fn default() -> (r: DebugShowStats)
        ensures
            r.0 == false,
    {
        DebugShowStats(false)
    }
}

// ---------------------------------------------------------------------------
// Stat changes
// ---------------------------------------------------------------------------

/// A change of a stat's base value by some amount.
#[derive(Clone, Copy, PartialEq, Eq, Structural, Debug)]
pub struct StatChangeEvent {
    pub stat: StatType,
    pub amount: i32,
    pub entity: EntityId,
}

impl StatChangeEvent {
    pub fn new(stat: StatType, amount: i32, entity: EntityId) -> (r: StatChangeEvent)
        ensures
            r == (StatChangeEvent { stat, amount, entity }),
    {
        StatChangeEvent { stat, amount, entity }
    }
}

pub open spec fn clamp(v: int, lo: int, hi: int) -> int {
    if v < lo {
        lo
    } else if v > hi {
        hi
    } else {
        v
    }
}

/// The stat after its base value has been changed by `amount` and brought back
/// within its bounds.
pub open spec fn changed_stat(s: Stat, amount: int) -> Stat {
    Stat { base: clamp(s.base + amount, s.min as int, s.max as int) as i32, ..s }
}

/// Applies a stat change to an actor's stats: the base value moves by the
/// amount and is then clamped to the stat's bounds. Nothing else changes.
pub fn do_stat_change(stats: &mut Stats, ev: &StatChangeEvent)
    requires
        old(stats).view().contains_key(ev.stat),
        old(stats).view()[ev.stat].min <= old(stats).view()[ev.stat].max,
        i32::MIN <= old(stats).view()[ev.stat].base + ev.amount <= i32::MAX,
    ensures
        final(stats).view() == old(stats).view().insert(
            ev.stat,
            changed_stat(old(stats).view()[ev.stat], ev.amount as int),
        ),
{
    let s = stats.0.get(&ev.stat).unwrap();
    let moved = s.base + ev.amount;
    let clamped = if moved < s.min {
        s.min
    } else if moved > s.max {
        s.max
    } else {
        moved
    };
    stats.0.insert(ev.stat, Stat { base: clamped, ..s });
}

/// After a stat change the base value lies within the stat's bounds.
pub proof fn lemma_stat_change_stays_in_bounds(s: Stat, amount: int)
    requires
        s.min <= s.max,
    ensures
        s.min <= changed_stat(s, amount).base <= s.max,
        changed_stat(s, amount).min == s.min,
        changed_stat(s, amount).max == s.max,
        changed_stat(s, amount).effective == s.effective,
{
}

/// A change by zero leaves a stat that is within its bounds as it was.
pub proof fn lemma_zero_change_is_identity(s: Stat)
    requires
        s.min <= s.base <= s.max,
    ensures
        changed_stat(s, 0) == s,
{
}

// ---------------------------------------------------------------------------
// Modifications of effective values
// ---------------------------------------------------------------------------

/// An arithmetic operation applied to an effective value.
#[derive(Clone, Copy, PartialEq, Eq, Structural, Debug)]
pub enum Operation {
    Add(i32),
    /// Division rounding toward zero.
    Divide(i32),
    /// Division rounding to the nearest integer, halves away from zero.
    DivideRound(i32),
}

pub open spec fn abs(x: int) -> int {
    if x < 0 {
        -x
    } else {
        x
    }
}

/// `x / n` rounded to the nearest integer, halves away from zero, and brought
/// within the range of `i32`; a division by zero gives the largest `i32` for a
/// positive `x`, the smallest for a negative one, and 0 for 0.
pub open spec fn round_div(x: int, n: int) -> int {
    if n == 0 {
        if x > 0 {
            i32::MAX as int
        } else if x < 0 {
            i32::MIN as int
        } else {
            0
        }
    } else {
        let mag = (2 * abs(x) + abs(n)) / (2 * abs(n));
        let v = if (x < 0) != (n < 0) {
            -mag
        } else {
            mag
        };
        clamp(v, i32::MIN as int, i32::MAX as int)
    }
}

impl Operation {
    /// Whether applying the operation to `x` is defined.
    pub open spec fn defined_on(self, x: int) -> bool {
        match self {
            Operation::Add(n) => i32::MIN <= x + n <= i32::MAX,
            Operation::Divide(n) => n != 0 && !(x == i32::MIN && n == -1),
            Operation::DivideRound(_) => true,
        }
    }

    /// Whether applying the operation to `x` is defined.
    pub fn is_defined_on(&self, x: i32) -> (r: bool)
        ensures
            r == self.defined_on(x as int),
    {
        match *self {
            Operation::Add(n) => x.checked_add(n).is_some(),
            Operation::Divide(n) => n != 0 && !(x == i32::MIN && n == -1),
            Operation::DivideRound(_) => true,
        }
    }

    pub open spec fn spec_compute(self, x: int) -> int {
        match self {
            Operation::Add(n) => x + n,
            Operation::Divide(n) => crate::geometry::trunc_div(x, n as int),
            Operation::DivideRound(n) => round_div(x, n as int),
        }
    }

    /// Applies the operation to a value.
    pub fn compute(&self, x: i32) -> (r: i32)
        requires
            self.defined_on(x as int),
        ensures
            r == self.spec_compute(x as int),
    {
        match *self {
            Operation::Add(n) => x + n,
            Operation::Divide(n) => divide_toward_zero(x, n),
            Operation::DivideRound(n) => divide_round(x, n),
        }
    }

    pub open spec fn spec_priority(self) -> u8 {
        match self {
            Operation::Add(_) => 2,
            Operation::Divide(_) => 1,
            Operation::DivideRound(_) => 1,
        }
    }

    /// The order in which modifications apply: lower first.
    pub fn priority(&self) -> (r: u8)
        ensures
            r == self.spec_priority(),
    {
        match self {
            Operation::Add(_) => 2,
            Operation::Divide(_) => 1,
            Operation::DivideRound(_) => 1,
        }
    }
}

fn divide_toward_zero(x: i32, n: i32) -> (r: i32)
    requires
        n != 0,
        !(x == i32::MIN && n == -1),
    ensures
        r == crate::geometry::trunc_div(x as int, n as int),
{
    if n > 0 {
        x / n
    } else if n == i32::MIN {
        if x == i32::MIN {
            1
        } else {
            0
        }
    } else {
        let m = -n;
        let q = x / m;
        assert(x >= 0 ==> q >= 0 && q <= x);
        assert(x < 0 ==> q <= 0 && q >= x);
        if x == i32::MIN {
            assert(m >= 2);
            assert((-(x as int)) / (m as int) <= (-(x as int)) / 2) by (nonlinear_arith)
                requires
                    m >= 2,
                    x < 0,
            ;
        }
        -q
    }
}

fn divide_round(x: i32, n: i32) -> (r: i32)
    ensures
        r == round_div(x as int, n as int),
{
    if n == 0 {
        if x > 0 {
            i32::MAX
        } else if x < 0 {
            i32::MIN
        } else {
            0
        }
    } else {
        let a: i64 = if x < 0 {
            -(x as i64)
        } else {
            x as i64
        };
        let b: i64 = if n < 0 {
            -(n as i64)
        } else {
            n as i64
        };
        let mag: i64 = (2 * a + b) / (2 * b);
        assert(mag <= 2 * a + b) by (nonlinear_arith)
            requires
                b >= 1,
                a >= 0,
                mag == (2 * a + b) / (2 * b),
        ;
        let v: i64 = if (x < 0) != (n < 0) {
            -mag
        } else {
            mag
        };
        if v < i32::MIN as i64 {
            i32::MIN
        } else if v > i32::MAX as i64 {
            i32::MAX
        } else {
            v as i32
        }
    }
}

/// A modification of one stat's effective value.
#[derive(Clone, Copy, PartialEq, Eq, Structural, Debug)]
pub struct StatModification {
    pub stat_type: StatType,
    pub operation: Operation,
}

impl StatModification {
    /// Applies the operation to the effective value of the given stat.
    pub fn compute(&self, stat_type: &StatType, stats: &mut Stats)
        requires
            old(stats).view().contains_key(*stat_type),
            self.operation.defined_on(old(stats).view()[*stat_type].effective as int),
        ensures
            final(stats).view() == old(stats).view().insert(
                *stat_type,
                Stat {
                    effective: self.operation.spec_compute(
                        old(stats).view()[*stat_type].effective as int,
                    ) as i32,
                    ..old(stats).view()[*stat_type]
                },
            ),
    {
        let s = stats.0.get(stat_type).unwrap();
        let e = self.operation.compute(s.effective);
        stats.0.insert(*stat_type, Stat { effective: e, ..s });
    }

    /// The order in which modifications apply: lower first.
    pub fn priority(&self) -> (r: u8)
        ensures
            r == self.operation.spec_priority(),
    {
        self.operation.priority()
    }
}

/// The stats with every effective value reset to its base value.
pub open spec fn reset_effective(m: Map<StatType, Stat>) -> Map<StatType, Stat> {
    Map::new(|t: StatType| m.contains_key(t), |t: StatType| Stat { effective: m[t].base, ..m[t] })
}

/// The value held within `[min, max]`.
pub open spec fn clamped(v: i32, min: i32, max: i32) -> i32 {
    if v < min {
        min
    } else if v > max {
        max
    } else {
        v
    }
}

/// The stats with every effective value held within its bounds.
pub open spec fn clamp_effective(m: Map<StatType, Stat>) -> Map<StatType, Stat> {
    Map::new(
        |t: StatType| m.contains_key(t),
        |t: StatType| Stat { effective: clamped(m[t].effective, m[t].min, m[t].max), ..m[t] },
    )
}

/// The stats after applying the modifications in order, or `None` where one of
/// them concerns a stat the actor lacks or is undefined on its value.
pub open spec fn apply_modifications(
    m: Map<StatType, Stat>,
    mods: Seq<Option<StatModification>>,
) -> Option<Map<StatType, Stat>>
    decreases mods.len(),
{
    if mods.len() == 0 {
        Some(m)
    } else {
        match apply_modifications(m, mods.drop_last()) {
            None => None,
            Some(prev) => match mods.last() {
                None => Some(prev),
                Some(md) => if prev.contains_key(md.stat_type) && md.operation.defined_on(
                    prev[md.stat_type].effective as int,
                ) {
                    Some(
                        prev.insert(
                            md.stat_type,
                            Stat {
                                effective: md.operation.spec_compute(
                                    prev[md.stat_type].effective as int,
                                ) as i32,
                                ..prev[md.stat_type]
                            },
                        ),
                    )
                } else {
                    None
                },
            },
        }
    }
}

/// Sets every effective value back to its base value.
fn reset_all_effective(stats: &mut Stats)
    ensures
        final(stats).view() == reset_effective(old(stats).view()),
{
    let mut i: usize = 0;
    while i < STAT_KINDS
        invariant
            i <= STAT_KINDS,
            stats.view().dom() == old(stats).view().dom(),
            forall|t: StatType| #[trigger]
                stats.view().contains_key(t) ==> stats.view()[t] == (if t.rank() < i {
                    reset_effective(old(stats).view())[t]
                } else {
                    old(stats).view()[t]
                }),
        decreases STAT_KINDS - i,
    {
        let t = StatType::from_ordinal(i);
        match stats.0.get(&t) {
            Some(s) => {
                stats.0.insert(t, Stat { effective: s.base, ..s });
            },
            None => {},
        }
        proof {
            assert forall|u: StatType| #[trigger] stats.view().contains_key(u) implies stats.view()[u]
                == (if u.rank() < i + 1 {
                reset_effective(old(stats).view())[u]
            } else {
                old(stats).view()[u]
            }) by {
                lemma_rank_injective(u, t);
            }
            assert(stats.view().dom() =~= old(stats).view().dom());
        }
        i = i + 1;
    }
    proof {
        assert forall|u: StatType| #[trigger] stats.view().contains_key(u) implies u.rank() < 7 by {
            lemma_rank_injective(u, u);
        }
        assert(stats.view() =~= reset_effective(old(stats).view()));
    }
}

/// Holds every effective value within its bounds.
fn clamp_all_effective(stats: &mut Stats)
    ensures
        final(stats).view() == clamp_effective(old(stats).view()),
{
    let mut i: usize = 0;
    while i < STAT_KINDS
        invariant
            i <= STAT_KINDS,
            stats.view().dom() == old(stats).view().dom(),
            forall|t: StatType| #[trigger]
                stats.view().contains_key(t) ==> stats.view()[t] == (if t.rank() < i {
                    clamp_effective(old(stats).view())[t]
                } else {
                    old(stats).view()[t]
                }),
        decreases STAT_KINDS - i,
    {
        let t = StatType::from_ordinal(i);
        match stats.0.get(&t) {
            Some(s) => {
                let e = if s.effective < s.min {
                    s.min
                } else if s.effective > s.max {
                    s.max
                } else {
                    s.effective
                };
                stats.0.insert(t, Stat { effective: e, ..s });
            },
            None => {},
        }
        proof {
            assert forall|u: StatType| #[trigger] stats.view().contains_key(u) implies stats.view()[u]
                == (if u.rank() < i + 1 {
                clamp_effective(old(stats).view())[u]
            } else {
                old(stats).view()[u]
            }) by {
                lemma_rank_injective(u, t);
            }
            assert(stats.view().dom() =~= old(stats).view().dom());
        }
        i = i + 1;
    }
    proof {
        assert forall|u: StatType| #[trigger] stats.view().contains_key(u) implies u.rank() < 7 by {
            lemma_rank_injective(u, u);
        }
        assert(stats.view() =~= clamp_effective(old(stats).view()));
    }
}

/// Recomputes every effective value: each is reset to its base value, then the
/// given modifications (those of the actor's status effects, in order) apply,
/// and last the value is held within the stat's bounds.
pub fn update_effective_stats(stats: &mut Stats, mods: &Vec<Option<StatModification>>)
    requires
        apply_modifications(reset_effective(old(stats).view()), mods@) is Some,
    ensures
        final(stats).view() == clamp_effective(
            apply_modifications(reset_effective(old(stats).view()), mods@)->Some_0,
        ),
        final(stats).view().dom() == old(stats).view().dom(),
        forall|t: StatType| #[trigger]
            old(stats).view().contains_key(t) ==> final(stats).view()[t].base == old(stats).view()[t].base
                && final(stats).view()[t].min == old(stats).view()[t].min
                && final(stats).view()[t].max == old(stats).view()[t].max
                && (old(stats).view()[t].min <= old(stats).view()[t].max ==> old(stats).view()[t].min
                <= final(stats).view()[t].effective <= old(stats).view()[t].max),
{
    reset_all_effective(stats);
    let ghost start = stats.view();
    let mut j: usize = 0;
    while j < mods.len()
        invariant
            j <= mods.len(),
            start == reset_effective(old(stats).view()),
            apply_modifications(start, mods@) is Some,
            apply_modifications(start, mods@.take(j as int)) == Some(stats.view()),
        decreases mods.len() - j,
    {
        proof {
            lemma_apply_prefix_some(start, mods@, j as int + 1);
            assert(mods@.take(j as int + 1).drop_last() =~= mods@.take(j as int));
        }
        match mods[j] {
            Some(m) => {
                m.compute(&m.stat_type, stats);
            },
            None => {},
        }
        j = j + 1;
    }
    assert(mods@.take(mods.len() as int) =~= mods@);
    proof {
        lemma_modifications_keep_base(start, mods@);
        assert(start.dom() =~= old(stats).view().dom());
    }
    clamp_all_effective(stats);
    proof {
        assert(stats.view().dom() =~= old(stats).view().dom());
    }
}

/// Whether the modifications apply to the stats: whether each concerns a stat
/// the actor has and is defined on its value at that point.
pub fn modifications_apply(stats: &Stats, mods: &Vec<Option<StatModification>>) -> (r: bool)
    ensures
        r == (apply_modifications(reset_effective(stats.view()), mods@) is Some),
{
    let mut s = *stats;
    reset_all_effective(&mut s);
    let ghost start = s.view();
    let mut j: usize = 0;
    while j < mods.len()
        invariant
            j <= mods.len(),
            start == reset_effective(stats.view()),
            apply_modifications(start, mods@.take(j as int)) == Some(s.view()),
        decreases mods.len() - j,
    {
        assert(mods@.take(j as int + 1).drop_last() =~= mods@.take(j as int));
        match mods[j] {
            Some(m) => {
                if !s.0.contains_key(&m.stat_type) || !m.operation.is_defined_on(
                    s.0.get(&m.stat_type).unwrap().effective,
                ) {
                    proof {
                        if apply_modifications(start, mods@) is Some {
                            lemma_apply_prefix_some(start, mods@, j as int + 1);
                        }
                    }
                    return false;
                }
                m.compute(&m.stat_type, &mut s);
            },
            None => {},
        }
        j = j + 1;
    }
    assert(mods@.take(mods.len() as int) =~= mods@);
    true
}

proof fn lemma_apply_prefix_some(m: Map<StatType, Stat>, mods: Seq<Option<StatModification>>, k: int)
    requires
        0 <= k <= mods.len(),
        apply_modifications(m, mods) is Some,
    ensures
        apply_modifications(m, mods.take(k)) is Some,
    decreases mods.len(),
{
    if k < mods.len() {
        assert(mods.drop_last().take(k) =~= mods.take(k));
        lemma_apply_prefix_some(m, mods.drop_last(), k);
    } else {
        assert(mods.take(k) =~= mods);
    }
}

/// Updating effective values never touches base values or bounds.
pub proof fn lemma_modifications_keep_base(
    m: Map<StatType, Stat>,
    mods: Seq<Option<StatModification>>,
)
    requires
        apply_modifications(m, mods) is Some,
    ensures
        apply_modifications(m, mods)->Some_0.dom() == m.dom(),
        forall|t: StatType| #[trigger]
            m.contains_key(t) ==> apply_modifications(m, mods)->Some_0[t].base == m[t].base
                && apply_modifications(m, mods)->Some_0[t].min == m[t].min
                && apply_modifications(m, mods)->Some_0[t].max == m[t].max
                && apply_modifications(m, mods)->Some_0[t].visibility == m[t].visibility,
    decreases mods.len(),
{
    if mods.len() > 0 {
        lemma_modifications_keep_base(m, mods.drop_last());
        let prev = apply_modifications(m, mods.drop_last())->Some_0;
        match mods.last() {
            None => {},
            Some(md) => {
                assert(prev.insert(md.stat_type, Stat {
                    effective: md.operation.spec_compute(prev[md.stat_type].effective as int) as i32,
                    ..prev[md.stat_type]
                }).dom() =~= prev.dom());
            },
        }
    }
}

/// Recomputing the effective values is idempotent: they depend only on the
/// base values, the bounds and the modifications, so a second update with
/// the same modifications gives what the first gave.
pub proof fn lemma_effective_update_idempotent(m: Map<StatType, Stat>, mods: Seq<Option<StatModification>>)
    requires
        apply_modifications(reset_effective(m), mods) is Some,
    ensures
        ({
            let once = clamp_effective(apply_modifications(reset_effective(m), mods)->Some_0);
            &&& reset_effective(once) == reset_effective(m)
            &&& apply_modifications(reset_effective(once), mods) is Some
            &&& clamp_effective(apply_modifications(reset_effective(once), mods)->Some_0) == once
        }),
{
    let applied = apply_modifications(reset_effective(m), mods)->Some_0;
    let once = clamp_effective(applied);
    lemma_modifications_keep_base(reset_effective(m), mods);
    assert(reset_effective(once) =~= reset_effective(m));
}

/// Without modifications every effective value equals its base value.
pub proof fn lemma_no_modifications_resets(m: Map<StatType, Stat>)
    ensures
        apply_modifications(reset_effective(m), Seq::empty()) == Some(reset_effective(m)),
        forall|t: StatType| #[trigger]
            m.contains_key(t) ==> reset_effective(m)[t].effective == m[t].base,
{
}

// ---------------------------------------------------------------------------
// Fatal stats
// ---------------------------------------------------------------------------

pub open spec fn spec_fatal_effect_for(
    stats: Map<StatType, Stat>,
    fatal: Map<StatType, (i32, FatalEffect)>,
    stat: StatType,
) -> Option<FatalEffect> {
    if stats.contains_key(stat) && fatal.contains_key(stat) && stats[stat].effective
        == fatal[stat].0 {
        Some(fatal[stat].1)
    } else {
        None
    }
}

/// The fatal effect that a change of `stat` triggers: the one recorded for the
/// stat, where the stat's effective value equals its fatal value.
pub fn fatal_effect_for(stats: &Stats, fatal_stats: &FatalStats, stat: &StatType) -> (r: Option<
    FatalEffect,
>)
    ensures
        r == spec_fatal_effect_for(stats.view(), fatal_stats.view(), *stat),
{
    match stats.0.get(stat) {
        None => None,
        Some(s) => match fatal_stats.0.get(stat) {
            None => None,
            Some(f) => if s.effective == f.0 {
                Some(f.1)
            } else {
                None
            },
        },
    }
}

pub open spec fn fatality_seen(s: Seq<(EntityId, FatalEffect)>, e: EntityId, f: FatalEffect) -> bool {
    exists|i: int| 0 <= i < s.len() && s[i] == (e, f)
}

/// The fatalities in the order they arise, each pair of entity and effect kept
/// once: a later repeat of a pair already met is dropped.
pub open spec fn spec_fatalities(c: Seq<(EntityId, Option<FatalEffect>)>) -> Seq<(EntityId, FatalEffect)>
    decreases c.len(),
{
    if c.len() == 0 {
        Seq::empty()
    } else {
        let prev = spec_fatalities(c.drop_last());
        match c.last().1 {
            None => prev,
            Some(f) => if fatality_seen(prev, c.last().0, f) {
                prev
            } else {
                prev.push((c.last().0, f))
            },
        }
    }
}

/// Collects the fatalities that a round of stat changes causes: given, for each
/// change in order, the changed entity and the fatal effect triggered (if any),
/// it keeps each pair of entity and effect the first time it occurs.
pub fn collect_fatalities(candidates: &Vec<(EntityId, Option<FatalEffect>)>) -> (r: Vec<
    (EntityId, FatalEffect),
>)
    ensures
        r@ == spec_fatalities(candidates@),
{
    let mut r: Vec<(EntityId, FatalEffect)> = Vec::new();
    let mut i: usize = 0;
    while i < candidates.len()
        invariant
            i <= candidates.len(),
            r@ == spec_fatalities(candidates@.take(i as int)),
        decreases candidates.len() - i,
    {
        let (e, of) = candidates[i];
        assert(candidates@.take(i as int + 1).drop_last() =~= candidates@.take(i as int));
        match of {
            None => {},
            Some(f) => {
                let mut seen = false;
                let mut k: usize = 0;
                while k < r.len()
                    invariant
                        k <= r.len(),
                        seen <==> exists|j: int| 0 <= j < k && r@[j] == (e, f),
                    decreases r.len() - k,
                {
                    if r[k].0 == e && r[k].1 == f {
                        seen = true;
                    }
                    k = k + 1;
                }
                if !seen {
                    r.push((e, f));
                }
            },
        }
        i = i + 1;
    }
    assert(candidates@.take(candidates.len() as int) =~= candidates@);
    r
}

/// The collected fatalities hold no pair twice, and hold exactly the pairs
/// that arose.
pub proof fn lemma_fatalities_unique_and_complete(c: Seq<(EntityId, Option<FatalEffect>)>)
    ensures
        forall|i: int, j: int|
            0 <= i < j < spec_fatalities(c).len() ==> spec_fatalities(c)[i] != spec_fatalities(
                c,
            )[j],
        forall|e: EntityId, f: FatalEffect|
            fatality_seen(spec_fatalities(c), e, f) <==> exists|i: int|
                0 <= i < c.len() && c[i] == (e, Some(f)),
    decreases c.len(),
{
    if c.len() > 0 {
        let d = c.drop_last();
        lemma_fatalities_unique_and_complete(d);
        let prev = spec_fatalities(d);
        let cur = spec_fatalities(c);
        assert(cur.len() >= prev.len());
        assert forall|j: int| 0 <= j < prev.len() implies cur[j] == prev[j] by {}
        assert forall|e: EntityId, f: FatalEffect|
            fatality_seen(cur, e, f) <==> exists|i: int| 0 <= i < c.len() && c[i] == (e, Some(f)) by {
            if fatality_seen(cur, e, f) {
                let j = choose|j: int| 0 <= j < cur.len() && cur[j] == (e, f);
                if j < prev.len() {
                    assert(fatality_seen(prev, e, f));
                    let i = choose|i: int| 0 <= i < d.len() && d[i] == (e, Some(f));
                    assert(c[i] == (e, Some(f)));
                } else {
                    assert(c[c.len() - 1] == (e, Some(f)));
                }
            }
            if exists|i: int| 0 <= i < c.len() && c[i] == (e, Some(f)) {
                let i = choose|i: int| 0 <= i < c.len() && c[i] == (e, Some(f));
                if i < c.len() - 1 {
                    assert(d[i] == (e, Some(f)));
                    assert(fatality_seen(prev, e, f));
                    let j = choose|j: int| 0 <= j < prev.len() && prev[j] == (e, f);
                    assert(cur[j] == (e, f));
                } else {
                    if fatality_seen(prev, e, f) {
                        let j = choose|j: int| 0 <= j < prev.len() && prev[j] == (e, f);
                        assert(cur[j] == (e, f));
                    } else {
                        assert(cur[prev.len() as int] == (e, f));
                    }
                }
            }
        }
    }
}

/// A stat change to check for fatality: the changed entity, its name, the
/// changed stat, and its stats and fatal stats where it has both.
pub struct FatalCheck {
    pub entity: EntityId,
    pub name: String,
    pub stat: StatType,
    pub stats: Option<(Stats, FatalStats)>,
}

/// The fatal effect a check triggers, if any.
pub open spec fn check_effect(c: FatalCheck) -> Option<FatalEffect> {
    match c.stats {
        Some((s, f)) => spec_fatal_effect_for(s.view(), f.view(), c.stat),
        None => None,
    }
}

/// The log message of a fatality.
pub open spec fn fatal_message(name: Seq<char>, f: FatalEffect) -> Seq<char> {
    match f {
        FatalEffect::Trance => " "@ + name + " has fallen under a trance!"@,
        _ => " "@ + name + " has died!"@,
    }
}

/// The colour a fatality is told in.
pub open spec fn fatal_color(f: FatalEffect) -> Palette {
    match f {
        FatalEffect::Trance => Palette::Pink,
        _ => Palette::OrangeRed,
    }
}

/// The trance a fatal stat puts an entity under: a lasting status with no
/// stat change, that refreshes.
pub open spec fn trance_of(entity: EntityId) -> StatusEffectEvent {
    StatusEffectEvent {
        application: StatusEffectApplication {
            effect: StatusEffect {
                status_type: StatusEffectType::Tranced,
                from: None,
                tile_modification: None,
                duration: None,
                stat_modification: None,
            },
            stacking: StatusEffectStacking::Refreshes,
        },
        entity,
    }
}

/// What the fatalities of a frame bring about: entities that leave the turn
/// order (those that disintegrate or die), trances, the fatalities
/// themselves in order, and what each does to its actor.
pub struct FatalOutcome {
    pub removals: Vec<ActorRemovedEvent>,
    pub trances: Vec<StatusEffectEvent>,
    pub fatalities: Vec<(EntityId, FatalEffect)>,
    pub fates: Vec<(EntityId, FatalFate)>,
}

/// The fatalities of the first `n` checks.
pub open spec fn fatalities_of(checks: Seq<FatalCheck>, n: int) -> Seq<(EntityId, FatalEffect)> {
    spec_fatalities(Seq::new(n as nat, |i: int| (checks[i].entity, check_effect(checks[i]))))
}

/// The entities that leave: those of the fatalities that kill.
pub open spec fn leavers(f: Seq<(EntityId, FatalEffect)>) -> Seq<EntityId>
    decreases f.len(),
{
    if f.len() == 0 {
        Seq::empty()
    } else {
        let rest = leavers(f.drop_last());
        if f.last().1 == FatalEffect::Trance {
            rest
        } else {
            rest.push(f.last().0)
        }
    }
}

/// The entities put under a trance.
pub open spec fn tranced(f: Seq<(EntityId, FatalEffect)>) -> Seq<EntityId>
    decreases f.len(),
{
    if f.len() == 0 {
        Seq::empty()
    } else {
        let rest = tranced(f.drop_last());
        if f.last().1 == FatalEffect::Trance {
            rest.push(f.last().0)
        } else {
            rest
        }
    }
}

/// Whether the log gained exactly one line for each fatality, told with the
/// name from one of the checks of that entity, in the fatality's colour.
pub open spec fn fatalities_told(
    before: Seq<Vec<LogFragment>>,
    after: Seq<Vec<LogFragment>>,
    checks: Seq<FatalCheck>,
    f: Seq<(EntityId, FatalEffect)>,
) -> bool {
    &&& after.len() == before.len() + f.len()
    &&& forall|i: int| 0 <= i < before.len() ==> after[i] == before[i]
    &&& forall|j: int|
        0 <= j < f.len() ==> {
            let line = (#[trigger] after[before.len() + j])@;
            &&& all_colored(line, fatal_color(f[j].1))
            &&& exists|i: int|
                0 <= i < checks.len() && checks[i].entity == f[j].0 && line_texts(line)
                    == split_inclusive(fatal_message(checks[i].name@, f[j].1), false)
        }
}

/// Handles the fatalities of a frame's stat changes, in order: a change that
/// leaves a stat at its fatal value triggers the stat's fatal effect, each
/// pair of entity and effect once. A death is told in orange red and takes
/// the entity out of the turn order (as of `turn`); a trance is told in pink
/// and puts the entity under a lasting trance. Each fatality comes with what
/// it does to its actor (see `spec_fatal_fate`).
pub fn update_fatal(checks: &Vec<FatalCheck>, turn: u32, log: &mut Log) -> (r: FatalOutcome)
    ensures
        r.fatalities@ == fatalities_of(checks@, checks@.len() as int),
        r.fates@.len() == r.fatalities@.len(),
        forall|j: int|
            0 <= j < r.fates@.len() ==> #[trigger] r.fates@[j] == (r.fatalities@[j].0, spec_fatal_fate(
                r.fatalities@[j].1,
            )),
        r.removals@.len() == leavers(r.fatalities@).len(),
        forall|j: int|
            0 <= j < r.removals@.len() ==> (#[trigger] r.removals@[j]).removed_actor == leavers(
                r.fatalities@,
            )[j] && r.removals@[j].turn == turn && r.removals@[j].spec_frame_valid(),
        r.trances@ == tranced(r.fatalities@).map_values(|e: EntityId| trance_of(e)),
        fatalities_told(old(log).lines@, final(log).lines@, checks@, r.fatalities@),
{
    let mut fatalities: Vec<(EntityId, FatalEffect)> = Vec::new();
    let mut removals: Vec<ActorRemovedEvent> = Vec::new();
    let mut trances: Vec<StatusEffectEvent> = Vec::new();
    let mut i: usize = 0;
    while i < checks.len()
        invariant
            i <= checks@.len(),
            fatalities@ == fatalities_of(checks@, i as int),
            removals@.len() == leavers(fatalities@).len(),
            forall|j: int|
                0 <= j < removals@.len() ==> (#[trigger] removals@[j]).removed_actor == leavers(
                    fatalities@,
                )[j] && removals@[j].turn == turn && removals@[j].spec_frame_valid(),
            trances@ == tranced(fatalities@).map_values(|e: EntityId| trance_of(e)),
            fatalities_told(old(log).lines@, log.lines@, checks@, fatalities@),
        decreases checks@.len() - i,
    {
        let c = &checks[i];
        let ghost cands = Seq::new((i + 1) as nat, |k: int| (checks@[k].entity, check_effect(checks@[k])));
        proof {
            assert(cands.drop_last() =~= Seq::new(i as nat, |k: int| (checks@[k].entity, check_effect(checks@[k]))));
        }
        let effect = match &c.stats {
            Some((s, f)) => fatal_effect_for(s, f, &c.stat),
            None => None,
        };
        match effect {
            None => {},
            Some(f) => {
                let mut seen = false;
                let mut k: usize = 0;
                while k < fatalities.len()
                    invariant
                        k <= fatalities@.len(),
                        seen <==> exists|j: int| 0 <= j < k && fatalities@[j] == (c.entity, f),
                    decreases fatalities@.len() - k,
                {
                    if fatalities[k].0 == c.entity && fatalities[k].1 == f {
                        seen = true;
                    }
                    k = k + 1;
                }
                if !seen {
                    let ghost lines0 = log.lines@;
                    let ghost f0 = fatalities@;
                    let mut m = String::from_str(" ");
                    m.append(c.name.as_str());
                    match f {
                        FatalEffect::Trance => {
                            m.append(" has fallen under a trance!");
                            log.log_string_formatted(m, Palette::Pink);
                            trances.push(
                                StatusEffectEvent {
                                    application: StatusEffectApplication {
                                        effect: StatusEffect {
                                            status_type: StatusEffectType::Tranced,
                                            from: None,
                                            tile_modification: None,
                                            duration: None,
                                            stat_modification: None,
                                        },
                                        stacking: StatusEffectStacking::Refreshes,
                                    },
                                    entity: c.entity,
                                },
                            );
                        },
                        _ => {
                            m.append(" has died!");
                            log.log_string_formatted(m, Palette::OrangeRed);
                            removals.push(ActorRemovedEvent::new(c.entity, turn));
                        },
                    }
                    fatalities.push((c.entity, f));
                    proof {
                        assert(fatalities@.drop_last() =~= f0);
                        assert(tranced(fatalities@).map_values(|e: EntityId| trance_of(e)) =~= trances@);
                        assert(fatalities_told(old(log).lines@, log.lines@, checks@, fatalities@)) by {
                            assert forall|j: int| 0 <= j < fatalities@.len() implies {
                                let line = (#[trigger] log.lines@[old(log).lines@.len() + j])@;
                                &&& all_colored(line, fatal_color(fatalities@[j].1))
                                &&& exists|i2: int|
                                    0 <= i2 < checks@.len() && checks@[i2].entity == fatalities@[j].0
                                        && line_texts(line) == split_inclusive(
                                        fatal_message(checks@[i2].name@, fatalities@[j].1),
                                        false,
                                    )
                            } by {
                                if j == f0.len() {
                                    assert(checks@[i as int].entity == fatalities@[j].0);
                                    assert(log.lines@[old(log).lines@.len() + j] == log.lines@.last());
                                } else {
                                    assert(fatalities@[j] == f0[j]);
                                    assert(log.lines@[old(log).lines@.len() + j] == lines0[old(log).lines@.len() + j]);
                                }
                            }
                        }
                    }
                }
            },
        }
        i = i + 1;
    }
    let mut fates: Vec<(EntityId, FatalFate)> = Vec::new();
    let mut k: usize = 0;
    while k < fatalities.len()
        invariant
            k <= fatalities@.len(),
            fates@.len() == k,
            forall|j: int|
                0 <= j < k ==> #[trigger] fates@[j] == (fatalities@[j].0, spec_fatal_fate(fatalities@[j].1)),
        decreases fatalities@.len() - k,
    {
        let (e, f) = fatalities[k];
        fates.push((e, fatal_fate(f)));
        k = k + 1;
    }
    FatalOutcome { removals, trances, fatalities, fates }
}

} // verus!

use vstd::prelude::*;

use sark_grids::Grid;

use crate::attack::{Attack, AttackEvent, AttackType, can_pay, spec_can_pay};
use crate::entity::EntityId;
use crate::geometry::IVec2;
use crate::grid::{in_bounds, occupant_at, occupant_of, occupant_size, occupants_ok};
use crate::movement::Collidables;
use crate::stats::{StatType, Stats};

verus! {

/// Sent when an actor fires one of its projectiles, picked at random, at a
/// point.
#[derive(Clone, Copy, PartialEq, Eq, Structural, Debug)]
pub struct RandRangedAttackEvent {
    pub targetting_entity: EntityId,
    pub target: IVec2,
}

/// Where a shot along a line of tiles ends.
#[derive(Clone, Copy, PartialEq, Eq, Structural, Debug)]
pub enum ShotEnd {
    /// It hits the entity on the tile of that index.
    Hit(usize, EntityId),
    /// It leaves the map at the tile of that index.
    OffMap(usize),
    /// It passes every tile.
    Clear,
}

/// Where a shot along `points` ends, looking at the tiles from index `i` on.
pub open spec fn shot_end_from(points: Seq<IVec2>, col: Grid<Option<EntityId>>, i: int) -> ShotEnd
    decreases points.len() - i,
{
    if i >= points.len() || i < 0 {
        ShotEnd::Clear
    } else if !in_bounds(occupant_size(col), points[i]) {
        ShotEnd::OffMap(i as usize)
    } else if occupant_of(col, points[i]) is Some {
        ShotEnd::Hit(i as usize, occupant_of(col, points[i])->Some_0)
    } else {
        shot_end_from(points, col, i + 1)
    }
}

/// Where a shot along the line of tiles ends: the first tile is the
/// shooter's own and is passed over; the shot stops at the first tile that
/// holds a blocking entity, or where it leaves the map.
pub fn shot_end(points: &Vec<IVec2>, collidables: &Collidables) -> (r: ShotEnd)
    requires
        occupants_ok(collidables.0),
    ensures
        r == shot_end_from(points@, collidables.0, 1),
{
    let mut i: usize = 1;
    if points.len() == 0 {
        return ShotEnd::Clear;
    }
    while i < points.len()
        invariant
            1 <= i <= points@.len(),
            occupants_ok(collidables.0),
            shot_end_from(points@, collidables.0, 1) == shot_end_from(points@, collidables.0, i as int),
        decreases points@.len() - i,
    {
        match occupant_at(&collidables.0, points[i]) {
            None => {
                return ShotEnd::OffMap(i);
            },
            Some(Some(e)) => {
                return ShotEnd::Hit(i, e);
            },
            Some(None) => {},
        }
        i = i + 1;
    }
    ShotEnd::Clear
}

/// The entities hit by the shots, in order (shots that pass every tile hit
/// nothing).
pub open spec fn burst_targets(ends: Seq<ShotEnd>) -> Seq<EntityId>
    decreases ends.len(),
{
    if ends.len() == 0 {
        Seq::empty()
    } else {
        let rest = burst_targets(ends.drop_last());
        match ends.last() {
            ShotEnd::Hit(_, e) => rest.push(e),
            _ => rest,
        }
    }
}

/// A burst of shots of a projectile whose attack is `attack`, each along its
/// line of tiles: every shot that hits sends an attack on what it hit. `None`
/// where a shot leaves the map (the game cannot follow it there).
pub fn burst_hits(
    attacker: EntityId,
    attack: &Attack,
    shots: &Vec<Vec<IVec2>>,
    collidables: &Collidables,
) -> (r: Option<Vec<AttackEvent>>)
    requires
        occupants_ok(collidables.0),
    ensures
        ({
            let ends = Seq::new(shots@.len(), |i: int| shot_end_from(shots@[i]@, collidables.0, 1));
            match r {
                None => exists|i: int| 0 <= i < ends.len() && #[trigger] ends[i] is OffMap,
                Some(v) => {
                    &&& forall|i: int| 0 <= i < ends.len() ==> !(#[trigger] ends[i] is OffMap)
                    &&& v@.len() == burst_targets(ends).len()
                    &&& forall|j: int|
                        0 <= j < v@.len() ==> (#[trigger] v@[j]).attacking_entity == attacker
                            && v@[j].attacked_entity == burst_targets(ends)[j] && v@[j].attack_type
                            == AttackType::Ranged && v@[j].attack.same_as(*attack)
                },
            }
        }),
{
    let ghost ends = Seq::new(shots@.len(), |i: int| shot_end_from(shots@[i]@, collidables.0, 1));
    let mut hits: Vec<AttackEvent> = Vec::new();
    let mut i: usize = 0;
    while i < shots.len()
        invariant
            i <= shots@.len(),
            occupants_ok(collidables.0),
            ends == Seq::new(shots@.len(), |k: int| shot_end_from(shots@[k]@, collidables.0, 1)),
            forall|k: int| 0 <= k < i ==> !(#[trigger] ends[k] is OffMap),
            hits@.len() == burst_targets(ends.take(i as int)).len(),
            forall|j: int|
                0 <= j < hits@.len() ==> (#[trigger] hits@[j]).attacking_entity == attacker
                    && hits@[j].attacked_entity == burst_targets(ends.take(i as int))[j]
                    && hits@[j].attack_type == AttackType::Ranged && hits@[j].attack.same_as(*attack),
        decreases shots@.len() - i,
    {
        assert(ends.take(i as int + 1).drop_last() =~= ends.take(i as int));
        let end = shot_end(&shots[i], collidables);
        match end {
            ShotEnd::OffMap(_) => {
                assert(ends[i as int] is OffMap);
                return None;
            },
            ShotEnd::Hit(_, e) => {
                hits.push(
                    AttackEvent {
                        attacking_entity: attacker,
                        attacked_entity: e,
                        attack: attack.duplicate(),
                        attack_type: AttackType::Ranged,
                    },
                );
            },
            ShotEnd::Clear => {},
        }
        i = i + 1;
    }
    assert(ends.take(shots@.len() as int) =~= ends);
    Some(hits)
}

/// The shots of a burst looked at in order until one stops short of its
/// last tile: `Some((i, end))` where shot `i` is the first that hits
/// something or leaves the map, and `None` where every shot passes all its
/// tiles.
pub fn first_stopped_shot(shots: &Vec<Vec<IVec2>>, collidables: &Collidables) -> (r: Option<(usize, ShotEnd)>)
    requires
        occupants_ok(collidables.0),
    ensures
        ({
            let ends = Seq::new(shots@.len(), |i: int| shot_end_from(shots@[i]@, collidables.0, 1));
            match r {
                None => forall|i: int| 0 <= i < ends.len() ==> #[trigger] ends[i] is Clear,
                Some((i, e)) => {
                    &&& i < ends.len()
                    &&& e == ends[i as int]
                    &&& !(e is Clear)
                    &&& forall|j: int| 0 <= j < i ==> #[trigger] ends[j] is Clear
                },
            }
        }),
{
    let ghost ends = Seq::new(shots@.len(), |i: int| shot_end_from(shots@[i]@, collidables.0, 1));
    let mut i: usize = 0;
    while i < shots.len()
        invariant
            i <= shots@.len(),
            occupants_ok(collidables.0),
            ends == Seq::new(shots@.len(), |k: int| shot_end_from(shots@[k]@, collidables.0, 1)),
            forall|j: int| 0 <= j < i ==> #[trigger] ends[j] is Clear,
        decreases shots@.len() - i,
    {
        let end = shot_end(&shots[i], collidables);
        match end {
            ShotEnd::Clear => {},
            _ => {
                return Some((i, end));
            },
        }
        i = i + 1;
    }
    None
}

/// Whether an aimed ranged attack goes ahead. The projectile's own cost
/// decides: a projectile that costs nothing is fired, a costly one only
/// where the shooter has the cost's stat and can pay it. A projectile that
/// cannot be paid is not fired; it calls off nothing else.
pub fn aimed_attack_goes_ahead(stats: &Stats, cost_type: StatType, cost_total: i32) -> (r: bool)
    ensures
        r == (cost_total == 0 || spec_can_pay(*stats, cost_type, cost_total as int)),
{
    cost_total == 0 || can_pay(stats, cost_type, cost_total)
}

/// Whether a projectile tried while firing at random is fired: the shooter
/// has stats, and the projectile's attack costs nothing or the shooter can
/// pay it. Each projectile is judged on its own roll.
pub fn projectile_fires(attack_cost_total: i32, cost_type: StatType, attacker_stats: Option<&Stats>) -> (r: bool)
    ensures
        r == (attacker_stats matches Some(s) && (attack_cost_total == 0 || spec_can_pay(
            *s,
            cost_type,
            attack_cost_total as int,
        ))),
{
    match attacker_stats {
        Some(s) => attack_cost_total == 0 || can_pay(s, cost_type, attack_cost_total),
        None => false,
    }
}

} // verus!

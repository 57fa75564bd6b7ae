use vstd::prelude::*;

use std::collections::VecDeque;

use sark_grids::Grid;

use crate::entity::EntityId;
use crate::geometry::{IVec2, Rectangle};
use crate::grid::{
    cell_index, clone_occupant_grid, filled_weight_grid, in_bounds, lemma_cell_index_in_range,
    occupant_at, occupant_cells, occupant_grid_size, occupant_of, occupant_size, occupants_ok, set_occupant, set_weight,
    weight_cells, weight_size, weights_ok,
};
use crate::movement::{Collidables, PointMoveEvent};
use crate::pathfinding::{
    dijkstra, dijkstra_result, lemma_same_grids_same_routes, no_cheaper_route, walk_cost, walk_from, Path,
};
use crate::ranged::RandRangedAttackEvent;
use crate::rng::random_in_range;
use crate::alignments::Relations;
use crate::dice::{Dice, lemma_game_dice_are_plain, possible_total, rolls_within_i32};
use crate::stats::{StatType, Stats};
use crate::turn::{ActorRemovedEvent, Turns};
use crate::status_effects::{StatusEffect, StatusEffectType, has_type};

verus! {

/// Registers the behaviours of computer-controlled actors.
pub struct AIPlugin;

/// The squared distance between two points.
pub open spec fn dist_sq(a: IVec2, b: IVec2) -> int {
    (a.x - b.x) * (a.x - b.x) + (a.y - b.y) * (a.y - b.y)
}

/// The squared distance between two points (their distance compares as its
/// square does).
pub fn distance_sq(a: IVec2, b: IVec2) -> (r: u128)
    ensures
        r == dist_sq(a, b),
{
    let dx: i128 = a.x as i128 - b.x as i128;
    let dy: i128 = a.y as i128 - b.y as i128;
    assert(0 <= dx * dx <= 0x1_0000_0000_0000_0000) by (nonlinear_arith)
        requires
            -0x1_0000_0000 <= dx <= 0x1_0000_0000,
    ;
    assert(0 <= dy * dy <= 0x1_0000_0000_0000_0000) by (nonlinear_arith)
        requires
            -0x1_0000_0000 <= dy <= 0x1_0000_0000,
    ;
    (dx * dx + dy * dy) as u128
}

/// An actor that picks an opposed actor as its target and closes in on it.
/// A target counts only once it has been seen for longer than `delay` turns;
/// the actor keeps its place once its target is within the squared distance
/// `distance_sq`.
#[derive(Clone)]
pub struct Engages {
    pub target: Option<EntityId>,
    pub delay: u32,
    pub delay_timer: u32,
    pub distance_sq: u64,
    pub path: Path,
}

impl Engages {
    /// No target, a delay of one turn, no reach beyond the actor's own tile,
    /// and no route.
    pub fn default() -> (r: Engages)
        ensures
            r.target is None,
            r.delay == 1,
            r.delay_timer == 0,
            r.distance_sq == 0,
            r.path.positions@ == Seq::<IVec2>::empty(),
            r.path.cost == 0,
    {
        Engages { target: None, delay: 1, delay_timer: 0, distance_sq: 0, path: Path::default() }
    }

    pub open spec fn spec_get_target(&self) -> Option<EntityId> {
        if self.delay_timer > self.delay {
            self.target
        } else {
            None
        }
    }

    /// The target, once it has been seen for longer than the delay.
    pub fn get_target(&self) -> (r: Option<EntityId>)
        ensures
            r == self.spec_get_target(),
    {
        if self.delay_timer > self.delay {
            self.target
        } else {
            None
        }
    }

    pub open spec fn spec_get_alert(&self) -> bool {
        self.target is Some && self.delay_timer > 0 && self.delay_timer <= self.delay
    }

    /// Whether the actor has noticed a target but does not engage it yet.
    pub fn get_alert(&self) -> (r: bool)
        ensures
            r == self.spec_get_alert(),
    {
        self.target.is_some() && self.delay_timer > 0 && self.delay_timer <= self.delay
    }
}

/// Whether the cell of index `i` lies under one of the actors.
pub open spec fn under_actor(size: (u32, u32), actors: Seq<IVec2>, i: int) -> bool {
    exists|k: int| 0 <= k < actors.len() && cell_index(size, #[trigger] actors[k]) == i
}

/// The blocking grid with the actors taken out of it.
pub open spec fn cleared_cells(
    cells: Seq<Option<EntityId>>,
    size: (u32, u32),
    actors: Seq<IVec2>,
) -> Seq<Option<EntityId>> {
    Seq::new(cells.len(), |i: int| if under_actor(size, actors, i) { None } else { cells[i] })
}

/// The cost grid: 8 under each actor, 0 elsewhere.
pub open spec fn actor_weights(n: nat, size: (u32, u32), actors: Seq<IVec2>) -> Seq<u32> {
    Seq::new(n, |i: int| if under_actor(size, actors, i) { 8u32 } else { 0u32 })
}

/// Whether every actor stands inside a grid of the given size.
pub open spec fn actors_inside(size: (u32, u32), actors: Seq<IVec2>) -> bool {
    forall|k: int| 0 <= k < actors.len() ==> in_bounds(size, #[trigger] actors[k])
}

/// The grids a route is searched on: actors do not block it, but passing one
/// costs 8 more.
pub fn pathing_grids(collidables: &Grid<Option<EntityId>>, actors: &Vec<IVec2>) -> (r: (
    Grid<Option<EntityId>>,
    Grid<u32>,
))
    requires
        occupants_ok(*collidables),
        actors_inside(occupant_size(*collidables), actors@),
    ensures
        occupants_ok(r.0),
        weights_ok(r.1),
        occupant_size(r.0) == occupant_size(*collidables),
        weight_size(r.1) == occupant_size(*collidables),
        occupant_cells(r.0) == cleared_cells(
            occupant_cells(*collidables),
            occupant_size(*collidables),
            actors@,
        ),
        weight_cells(r.1) == actor_weights(
            occupant_cells(*collidables).len(),
            occupant_size(*collidables),
            actors@,
        ),
{
    let ghost size = occupant_size(*collidables);
    let ghost cells = occupant_cells(*collidables);
    let mut col = clone_occupant_grid(collidables);
    let sz = occupant_grid_size(collidables);
    let mut obs = filled_weight_grid(0, sz.0, sz.1);
    let mut k: usize = 0;
    while k < actors.len()
        invariant
            k <= actors@.len(),
            sz == size,
            size == occupant_size(*collidables),
            cells == occupant_cells(*collidables),
            occupants_ok(*collidables),
            actors_inside(size, actors@),
            occupant_size(col) == size,
            weight_size(obs) == size,
            occupant_cells(col) == cleared_cells(cells, size, actors@.take(k as int)),
            weight_cells(obs) == actor_weights(cells.len(), size, actors@.take(k as int)),
        decreases actors@.len() - k,
    {
        let p = actors[k];
        assert(in_bounds(size, actors@[k as int]));
        let ghost ci = cell_index(size, p);
        proof {
            lemma_cell_index_in_range(size, p);
        }
        set_occupant(&mut col, p, None);
        set_weight(&mut obs, p, 8);
        proof {
            let pre = actors@.take(k as int);
            let post = actors@.take(k as int + 1);
            assert forall|i: int| 0 <= i < cells.len() implies under_actor(size, post, i) == (
            under_actor(size, pre, i) || i == ci) by {
                if under_actor(size, pre, i) {
                    let w = choose|w: int| 0 <= w < pre.len() && cell_index(size, #[trigger] pre[w]) == i;
                    assert(post[w] == pre[w]);
                }
                if i == ci {
                    assert(post[k as int] == p);
                }
                if under_actor(size, post, i) {
                    let w = choose|w: int| 0 <= w < post.len() && cell_index(size, #[trigger] post[w]) == i;
                    if w < k {
                        assert(pre[w] == post[w]);
                    }
                }
            }
            assert(occupant_cells(col) =~= cleared_cells(cells, size, post));
            assert(weight_cells(obs) =~= actor_weights(cells.len(), size, post));
        }
        k = k + 1;
    }
    assert(actors@.take(actors@.len() as int) =~= actors@);
    (col, obs)
}


/// The moves that take an actor at `pos` straight onto `target`, in order.
pub open spec fn moves_onto(pos: IVec2, target: IVec2, moves: Seq<IVec2>) -> Seq<IVec2>
    decreases moves.len(),
{
    if moves.len() == 0 {
        Seq::empty()
    } else {
        let m = moves.last();
        let rest = moves_onto(pos, target, moves.drop_last());
        if pos.x + m.x == target.x && pos.y + m.y == target.y {
            rest.push(m)
        } else {
            rest
        }
    }
}

/// Whether the actor is free to act on a target it has and can locate.
pub open spec fn acts_on_target(turns: Turns, e: Option<EntityId>, target_pos: Option<IVec2>) -> bool {
    !turns.progress && e is Some && target_pos is Some
}

/// Melee behaviour: the actor whose turn it is, at `pos`, sends a move for each
/// of its moves that lands on its target (bumping into it), and its turn is
/// taken if there was any.
pub fn melee_behavior(
    turns: &mut Turns,
    entity: EntityId,
    pos: IVec2,
    engagement: &Engages,
    target_pos: Option<IVec2>,
    moves: &Vec<IVec2>,
) -> (r: Vec<PointMoveEvent>)
    ensures
        final(turns).order@ == old(turns).order@,
        final(turns).current == old(turns).current,
        if acts_on_target(*old(turns), engagement.target, target_pos) {
            let hits = moves_onto(pos, target_pos->Some_0, moves@);
            &&& r@.len() == hits.len()
            &&& forall|i: int|
                0 <= i < hits.len() ==> r@[i] == (PointMoveEvent { entity, movement: #[trigger] hits[i] })
            &&& final(turns).progress == (hits.len() > 0)
        } else {
            &&& r@.len() == 0
            &&& final(turns).progress == old(turns).progress
        },
{
    let mut events: Vec<PointMoveEvent> = Vec::new();
    if turns.progress {
        return events;
    }
    if engagement.target.is_none() {
        return events;
    }
    let target = match target_pos {
        Some(t) => t,
        None => {
            return events;
        },
    };
    let mut i: usize = 0;
    while i < moves.len()
        invariant
            i <= moves@.len(),
            !old(turns).progress,
            turns.order@ == old(turns).order@,
            turns.current == old(turns).current,
            events@.len() == moves_onto(pos, target, moves@.take(i as int)).len(),
            forall|j: int|
                0 <= j < events@.len() ==> events@[j] == (PointMoveEvent {
                    entity,
                    movement: #[trigger] moves_onto(pos, target, moves@.take(i as int))[j],
                }),
            turns.progress == (events@.len() > 0),
        decreases moves@.len() - i,
    {
        let m = moves[i];
        proof {
            assert(moves@.take(i as int + 1).drop_last() =~= moves@.take(i as int));
            assert(moves@.take(i as int + 1).last() == m);
        }
        let hit_x = pos.x as i64 + m.x as i64 == target.x as i64;
        let hit_y = pos.y as i64 + m.y as i64 == target.y as i64;
        if hit_x && hit_y {
            events.push(PointMoveEvent { entity, movement: m });
            turns.progress_turn();
        }
        i = i + 1;
    }
    assert(moves@.take(moves@.len() as int) =~= moves@);
    events
}

/// Ranged behaviour: the actor whose turn it is fires at its target when it
/// can see it, and its turn is taken.
pub fn ranged_behavior(
    turns: &mut Turns,
    entity: EntityId,
    engagement: &Engages,
    target_pos: Option<IVec2>,
    target_visible: bool,
) -> (r: Option<RandRangedAttackEvent>)
    ensures
        final(turns).order@ == old(turns).order@,
        final(turns).current == old(turns).current,
        if acts_on_target(*old(turns), engagement.target, target_pos) && target_visible {
            &&& r == Some(RandRangedAttackEvent { targetting_entity: entity, target: target_pos->Some_0 })
            &&& final(turns).progress
        } else {
            &&& r is None
            &&& final(turns).progress == old(turns).progress
        },
{
    if turns.progress {
        return None;
    }
    if engagement.target.is_none() {
        return None;
    }
    match target_pos {
        Some(t) => {
            if !target_visible {
                return None;
            }
            turns.progress_turn();
            Some(RandRangedAttackEvent { targetting_entity: entity, target: t })
        },
        None => None,
    }
}

/// The route an actor keeps: none once its end has drifted out of reach of
/// the actor.
pub open spec fn kept_route(path: Seq<IVec2>, pos: IVec2, reach: int) -> Seq<IVec2> {
    if path.len() > 0 && dist_sq(path.last(), pos) > reach {
        Seq::empty()
    } else {
        path
    }
}

/// Whether the grids are those a route is searched on (see `pathing_grids`).
pub open spec fn are_search_grids(
    collidables: Grid<Option<EntityId>>,
    actors: Seq<IVec2>,
    g0: Grid<Option<EntityId>>,
    g1: Grid<u32>,
) -> bool {
    &&& occupant_size(g0) == occupant_size(collidables)
    &&& weight_size(g1) == occupant_size(collidables)
    &&& occupant_cells(g0) == cleared_cells(occupant_cells(collidables), occupant_size(collidables), actors)
    &&& weight_cells(g1) == actor_weights(occupant_cells(collidables).len(), occupant_size(collidables), actors)
}

/// Whether nothing blocks the tile.
pub open spec fn tile_free(collidables: Grid<Option<EntityId>>, p: IVec2) -> bool {
    in_bounds(occupant_size(collidables), p) && occupant_of(collidables, p) is None
}

/// Whether the engaging actor acts this turn: it has not acted, has a target
/// it can locate, and that target is out of its reach.
pub open spec fn engages_now(turns: Turns, e: Engages, pos: IVec2, target_pos: Option<IVec2>) -> bool {
    acts_on_target(turns, e.target, target_pos) && dist_sq(target_pos->Some_0, pos) > e.distance_sq
}

/// A tranced actor does nothing with its turn: once the trance has taken the
/// turn (as `tranced_behavior` leaves the turns), none of the actor's
/// behaviours attacks, fires or closes in on its target.
pub proof fn lemma_tranced_actor_does_nothing(
    turns: Turns,
    statuses: Seq<StatusEffect>,
    engagement: Engages,
    pos: IVec2,
    target_pos: Option<IVec2>,
)
    requires
        has_type(statuses, StatusEffectType::Tranced),
    ensures
        ({
            let after = Turns { progress: turns.progress || has_type(statuses, StatusEffectType::Tranced), ..turns };
            &&& !acts_on_target(after, engagement.target, target_pos)
            &&& !engages_now(after, engagement, pos, target_pos)
        }),
{
}

/// Whether `route` (with `cost`) is the route the engaging actor follows: the
/// route it kept, or else one that Dijkstra's search found to its target.
pub open spec fn followed_route(
    e: Engages,
    pos: IVec2,
    target: IVec2,
    moves: Seq<IVec2>,
    collidables: Grid<Option<EntityId>>,
    actors: Seq<IVec2>,
    route: Seq<IVec2>,
    cost: u32,
) -> bool {
    let kept = kept_route(e.path.positions@, pos, e.distance_sq as int);
    if kept.len() > 0 {
        route == kept && cost == e.path.cost
    } else {
        exists|g0: Grid<Option<EntityId>>, g1: Grid<u32>|
            are_search_grids(collidables, actors, g0, g1) && #[trigger] dijkstra_result(
                pos,
                target,
                moves,
                g0,
                g1,
                route,
                cost,
            )
    }
}

/// Whether the path and move event are the outcome of one step along `route`:
/// where its first tile is free the actor moves there and drops it from the
/// route, else it waits.
pub open spec fn stepped_along(
    entity: EntityId,
    pos: IVec2,
    collidables: Grid<Option<EntityId>>,
    route: Seq<IVec2>,
    cost: u32,
    path: Path,
    r: Option<PointMoveEvent>,
) -> bool {
    if route.len() > 0 && tile_free(collidables, route[0]) {
        &&& r == Some(
            PointMoveEvent {
                entity,
                movement: IVec2 { x: (route[0].x - pos.x) as i32, y: (route[0].y - pos.y) as i32 },
            },
        )
        &&& path.positions@ == route.drop_first()
        &&& path.cost == cost
    } else {
        &&& r is None
        &&& path.positions@ == route
        &&& path.cost == cost
    }
}

/// Whether some route leads from `from` to `to`, for a cost within `u32`, on
/// the grids a route is searched on (see `pathing_grids`).
pub open spec fn route_exists(
    from: IVec2,
    to: IVec2,
    moves: Seq<IVec2>,
    collidables: Grid<Option<EntityId>>,
    actors: Seq<IVec2>,
) -> bool {
    exists|g0: Grid<Option<EntityId>>, g1: Grid<u32>, path: Seq<IVec2>|
        are_search_grids(collidables, actors, g0, g1) && #[trigger] walk_from(moves, g0, g1, from, to, from, path)
            && path.len() > 0 && path.last() == to && walk_cost(g1, path) <= u32::MAX
}

/// Whether the engaging actor searches a new route this turn: it closes in
/// on its target and has no route left to follow.
pub open spec fn searches_route(turns: Turns, e: Engages, pos: IVec2, target_pos: Option<IVec2>) -> bool {
    engages_now(turns, e, pos, target_pos) && kept_route(e.path.positions@, pos, e.distance_sq as int).len() == 0
}

/// A search on the search grids finds a route exactly when one exists.
proof fn lemma_search_finds_route(
    pos: IVec2,
    target: IVec2,
    moves: Seq<IVec2>,
    collidables: Grid<Option<EntityId>>,
    actors: Seq<IVec2>,
    g0: Grid<Option<EntityId>>,
    g1: Grid<u32>,
    positions: Seq<IVec2>,
    cost: u32,
)
    requires
        are_search_grids(collidables, actors, g0, g1),
        dijkstra_result(pos, target, moves, g0, g1, positions, cost),
        in_bounds(occupant_size(collidables), pos),
        pos != target,
    ensures
        positions.len() > 0 <==> route_exists(pos, target, moves, collidables, actors),
{
    reveal(no_cheaper_route);
    if positions.len() > 0 {
        assert(walk_from(moves, g0, g1, pos, target, pos, positions));
    } else if route_exists(pos, target, moves, collidables, actors) {
        let (h0, h1, path) = choose|h0: Grid<Option<EntityId>>, h1: Grid<u32>, path: Seq<IVec2>|
            are_search_grids(collidables, actors, h0, h1) && #[trigger] walk_from(moves, h0, h1, pos, target, pos, path)
                && path.len() > 0 && path.last() == target && walk_cost(h1, path) <= u32::MAX;
        lemma_same_grids_same_routes(moves, h0, h1, g0, g1, pos, target, pos, path);
        assert(walk_from(moves, g0, g1, pos, target, pos, path));
    }
}

/// Engage behaviour: the actor whose turn it is, at `pos`, closes in on its
/// target while the target is out of reach. It drops its route if the route's
/// end lies farther from it than its reach, searches a new one when it has
/// none (actors do not block the search but cost 8 more to pass), steps onto
/// the route's first tile if nothing blocks it, and its turn is taken. A
/// search must find a route (`engage_can_route` tells whether one will).
pub fn engage_behavior(
    turns: &mut Turns,
    entity: EntityId,
    pos: IVec2,
    engagement: &mut Engages,
    target_pos: Option<IVec2>,
    moves: &Vec<IVec2>,
    collidables: &Collidables,
    actors: &Vec<IVec2>,
) -> (r: Option<PointMoveEvent>)
    requires
        occupants_ok(collidables.0),
        in_bounds(occupant_size(collidables.0), pos),
        actors_inside(occupant_size(collidables.0), actors@),
        searches_route(*old(turns), *old(engagement), pos, target_pos) ==> route_exists(
            pos,
            target_pos->Some_0,
            moves@,
            collidables.0,
            actors@,
        ),
    ensures
        final(turns).order@ == old(turns).order@,
        final(turns).current == old(turns).current,
        final(engagement).target == old(engagement).target,
        final(engagement).delay == old(engagement).delay,
        final(engagement).delay_timer == old(engagement).delay_timer,
        final(engagement).distance_sq == old(engagement).distance_sq,
        if engages_now(*old(turns), *old(engagement), pos, target_pos) {
            &&& final(turns).progress
            &&& exists|route: Seq<IVec2>, cost: u32|
                followed_route(
                    *old(engagement),
                    pos,
                    target_pos->Some_0,
                    moves@,
                    collidables.0,
                    actors@,
                    route,
                    cost,
                ) && route.len() > 0 && #[trigger] stepped_along(
                    entity,
                    pos,
                    collidables.0,
                    route,
                    cost,
                    final(engagement).path,
                    r,
                )
        } else {
            &&& r is None
            &&& final(turns).progress == old(turns).progress
            &&& final(engagement).path.positions@ == old(engagement).path.positions@
            &&& final(engagement).path.cost == old(engagement).path.cost
        },
{
    if turns.progress {
        return None;
    }
    if engagement.target.is_none() {
        return None;
    }
    let target = match target_pos {
        Some(t) => t,
        None => {
            return None;
        },
    };
    if distance_sq(target, pos) <= engagement.distance_sq as u128 {
        return None;
    }
    let n = engagement.path.positions.len();
    if n > 0 {
        let last = engagement.path.positions[n - 1];
        if distance_sq(last, pos) > engagement.distance_sq as u128 {
            engagement.path.positions.clear();
        }
    }
    let ghost route_kept = engagement.path.positions@;
    assert(route_kept == kept_route(old(engagement).path.positions@, pos, old(engagement).distance_sq as int));
    if engagement.path.positions.len() == 0 {
        let grids = pathing_grids(&collidables.0, actors);
        engagement.path = dijkstra(&pos, &target, moves, &grids.0, &grids.1);
        assert(are_search_grids(collidables.0, actors@, grids.0, grids.1));
        proof {
            if target == pos {
                assert(target.x - pos.x == 0 && target.y - pos.y == 0);
                assert((target.x - pos.x) * (target.x - pos.x) == 0) by (nonlinear_arith)
                    requires
                        target.x - pos.x == 0,
                ;
                assert((target.y - pos.y) * (target.y - pos.y) == 0) by (nonlinear_arith)
                    requires
                        target.y - pos.y == 0,
                ;
            }
            lemma_search_finds_route(
                pos,
                target,
                moves@,
                collidables.0,
                actors@,
                grids.0,
                grids.1,
                engagement.path.positions@,
                engagement.path.cost,
            );
        }
    }
    let ghost route = engagement.path.positions@;
    let ghost cost = engagement.path.cost;
    assert(followed_route(*old(engagement), pos, target, moves@, collidables.0, actors@, route, cost));
    assert(route.len() > 0);
    let mut r: Option<PointMoveEvent> = None;
    if engagement.path.positions.len() > 0 {
        let first = engagement.path.positions[0];
        match occupant_at(&collidables.0, first) {
            Some(None) => {
                let movement = IVec2 { x: first.x - pos.x, y: first.y - pos.y };
                r = Some(PointMoveEvent { entity, movement });
                engagement.path.positions.pop_front();
                assert(engagement.path.positions@ =~= route.drop_first());
            },
            _ => {},
        }
    }
    turns.progress_turn();
    assert(stepped_along(entity, pos, collidables.0, route, cost, engagement.path, r));
    r
}

/// Whether the engage behaviour can go ahead: where the actor has to search
/// a new route this turn, whether a route to its target exists (the search
/// is made here to tell).
pub fn engage_can_route(
    turns: &Turns,
    pos: IVec2,
    engagement: &Engages,
    target_pos: Option<IVec2>,
    moves: &Vec<IVec2>,
    collidables: &Collidables,
    actors: &Vec<IVec2>,
) -> (r: bool)
    requires
        occupants_ok(collidables.0),
        in_bounds(occupant_size(collidables.0), pos),
        actors_inside(occupant_size(collidables.0), actors@),
    ensures
        r == (searches_route(*turns, *engagement, pos, target_pos) ==> route_exists(
            pos,
            target_pos->Some_0,
            moves@,
            collidables.0,
            actors@,
        )),
{
    if turns.progress || engagement.target.is_none() {
        return true;
    }
    let target = match target_pos {
        Some(t) => t,
        None => {
            return true;
        },
    };
    if distance_sq(target, pos) <= engagement.distance_sq as u128 {
        return true;
    }
    let n = engagement.path.positions.len();
    if n > 0 {
        let last = engagement.path.positions[n - 1];
        if distance_sq(last, pos) <= engagement.distance_sq as u128 {
            return true;
        }
    }
    assert(searches_route(*turns, *engagement, pos, target_pos));
    let grids = pathing_grids(&collidables.0, actors);
    let path = dijkstra(&pos, &target, moves, &grids.0, &grids.1);
    assert(are_search_grids(collidables.0, actors@, grids.0, grids.1));
    proof {
        if target == pos {
            assert(target.x - pos.x == 0 && target.y - pos.y == 0);
            assert((target.x - pos.x) * (target.x - pos.x) == 0) by (nonlinear_arith)
                requires
                    target.x - pos.x == 0,
            ;
            assert((target.y - pos.y) * (target.y - pos.y) == 0) by (nonlinear_arith)
                requires
                    target.y - pos.y == 0,
            ;
        }
        lemma_search_finds_route(
            pos,
            target,
            moves@,
            collidables.0,
            actors@,
            grids.0,
            grids.1,
            path.positions@,
            path.cost,
        );
    }
    path.positions.len() > 0
}

/// An actor that roams between the given areas.
#[derive(Clone)]
pub struct Wanderer {
    pub locations: Vec<Rectangle>,
    pub target_index: usize,
    pub path: Path,
}

impl Wanderer {
    /// A wanderer heading for the first area, with no route yet.
    pub fn new(locations: Vec<Rectangle>) -> (r: Wanderer)
        ensures
            r.locations@ == locations@,
            r.target_index == 0,
            r.path.positions@ == Seq::<IVec2>::empty(),
            r.path.cost == 0,
    {
        Wanderer { locations, target_index: 0, path: Path { positions: VecDeque::new(), cost: 0 } }
    }

    /// The area the wanderer heads for.
    pub fn get_target(&self) -> (r: Rectangle)
        requires
            self.target_index < self.locations@.len(),
        ensures
            r == self.locations@[self.target_index as int],
    {
        self.locations[self.target_index]
    }
}

/// Whether the centre of every area can be computed without overflow.
pub open spec fn centers_fit(areas: Seq<Rectangle>) -> bool {
    forall|k: int|
        0 <= k < areas.len() ==> i32::MIN <= (#[trigger] areas[k]).pos1.x + areas[k].pos2.x <= i32::MAX
            && i32::MIN <= areas[k].pos1.y + areas[k].pos2.y <= i32::MAX
}

/// Wander behaviour: the actor whose turn it is, at `pos`, picks one of its
/// areas at random and searches a route to its centre when it has no route
/// (actors do not block the search but cost 8 more to pass); its turn is
/// taken.
pub fn wander_behaviour(
    turns: &mut Turns,
    pos: IVec2,
    wanderer: &mut Wanderer,
    moves: &Vec<IVec2>,
    collidables: &Collidables,
    actors: &Vec<IVec2>,
)
    requires
        occupants_ok(collidables.0),
        actors_inside(occupant_size(collidables.0), actors@),
        centers_fit(old(wanderer).locations@),
        !old(turns).progress && old(wanderer).path.positions@.len() == 0 ==> old(
            wanderer,
        ).locations@.len() > 0,
    ensures
        final(turns).order@ == old(turns).order@,
        final(turns).current == old(turns).current,
        final(turns).progress,
        final(wanderer).locations@ == old(wanderer).locations@,
        if old(turns).progress || old(wanderer).path.positions@.len() > 0 {
            &&& final(wanderer).target_index == old(wanderer).target_index
            &&& final(wanderer).path.positions@ == old(wanderer).path.positions@
            &&& final(wanderer).path.cost == old(wanderer).path.cost
        } else {
            &&& final(wanderer).target_index < old(wanderer).locations@.len()
            &&& exists|g0: Grid<Option<EntityId>>, g1: Grid<u32>|
                are_search_grids(collidables.0, actors@, g0, g1) && #[trigger] dijkstra_result(
                    pos,
                    old(wanderer).locations@[final(wanderer).target_index as int].spec_center(),
                    moves@,
                    g0,
                    g1,
                    final(wanderer).path.positions@,
                    final(wanderer).path.cost,
                )
        },
{
    if turns.progress {
        return ;
    }
    if wanderer.path.positions.len() == 0 {
        let grids = pathing_grids(&collidables.0, actors);
        let count = wanderer.locations.len();
        wanderer.target_index = random_in_range(0, count);
        let area = wanderer.get_target();
        assert(area == wanderer.locations@[wanderer.target_index as int]);
        let goal = area.center();
        wanderer.path = dijkstra(&pos, &goal, moves, &grids.0, &grids.1);
        assert(goal == old(wanderer).locations@[wanderer.target_index as int].spec_center());
        assert(are_search_grids(collidables.0, actors@, grids.0, grids.1) && dijkstra_result(
            pos,
            goal,
            moves@,
            grids.0,
            grids.1,
            wanderer.path.positions@,
            wanderer.path.cost,
        ));
    }
    turns.progress_turn();
}

/// An actor that a targetting actor may pick, as the targetting actor sees
/// it: whether it is in sight, and its stats if it has any.
pub struct TargetCandidate {
    pub entity: EntityId,
    pub position: IVec2,
    pub relations: Relations,
    pub visible: bool,
    pub stats: Option<Stats>,
}

/// Where a look over the candidates stands: the target and its timer so far,
/// the closest spotted enemy with its squared distance, and whether the look
/// ended early (the target was seen again).
#[derive(Clone, Copy, Debug)]
pub struct TargetScan {
    pub target: Option<EntityId>,
    pub delay_timer: u32,
    pub best: Option<(EntityId, u128)>,
    pub done: bool,
}

/// The candidate's stealth range, where it has one.
pub open spec fn stealth_of(c: TargetCandidate) -> Option<i32> {
    match c.stats {
        Some(s) => if s.view().contains_key(StatType::StealthRange) {
            Some(s.view()[StatType::StealthRange].effective)
        } else {
            None
        },
        None => None,
    }
}

/// Whether an enemy at squared distance `d` is spotted: one without a stealth
/// range always is; a stealthy one only within its stealth range and with a
/// roll of a twenty-sided die above 15.
pub open spec fn spotted(d: int, stealth: Option<i32>, roll: Option<i32>) -> bool {
    match stealth {
        None => true,
        Some(s) => s >= 0 && d <= s * s && (roll matches Some(t) && t > 15),
    }
}

/// One candidate looked at.
pub open spec fn scan_step(me: Relations, pos: IVec2, st: TargetScan, c: TargetCandidate, roll: Option<i32>) -> TargetScan {
    if st.done || !me.spec_opposes(&c.relations) {
        st
    } else if !c.visible {
        if st.target == Some(c.entity) {
            let t = (st.delay_timer - 1) as u32;
            TargetScan { target: if t == 0 { None } else { st.target }, delay_timer: t, best: st.best, done: false }
        } else {
            st
        }
    } else if st.target == Some(c.entity) {
        TargetScan { target: st.target, delay_timer: (st.delay_timer + 1) as u32, best: st.best, done: true }
    } else {
        let d = dist_sq(c.position, pos);
        if (st.best is None || d < st.best->Some_0.1) && spotted(d, stealth_of(c), roll) {
            TargetScan { target: st.target, delay_timer: st.delay_timer, best: Some((c.entity, d as u128)), done: false }
        } else {
            st
        }
    }
}

/// The look over the candidates, in order; `rolls[i]` is the die roll for
/// candidate `i`, used only when that candidate is stealthy.
pub open spec fn scan(
    me: Relations,
    pos: IVec2,
    cands: Seq<TargetCandidate>,
    rolls: Seq<Option<i32>>,
    start: TargetScan,
) -> TargetScan
    decreases cands.len(),
{
    if cands.len() == 0 {
        start
    } else {
        scan_step(me, pos, scan(me, pos, cands.drop_last(), rolls, start), cands.last(), rolls[cands.len() - 1])
    }
}

/// Whether one of the events reports the actor as removed.
pub open spec fn reported_removed(removed: Seq<ActorRemovedEvent>, t: EntityId) -> bool {
    exists|i: int| 0 <= i < removed.len() && (#[trigger] removed[i]).removed_actor == t
}

/// The target once removed actors are dropped.
pub open spec fn target_after_removals(target: Option<EntityId>, removed: Seq<ActorRemovedEvent>) -> Option<EntityId> {
    match target {
        Some(t) => if reported_removed(removed, t) {
            None
        } else {
            target
        },
        None => None,
    }
}

/// The target and timer an engaging actor ends with: it keeps an engaged
/// target; otherwise it looks over the candidates. Seeing its target again
/// counts one more turn; losing sight of it counts one turn down and drops it
/// at zero; else the closest spotted enemy becomes the target, counting one
/// turn, or there is no target.
pub open spec fn chosen_target(
    e_target: Option<EntityId>,
    delay: u32,
    delay_timer: u32,
    removed: Seq<ActorRemovedEvent>,
    me: Relations,
    pos: IVec2,
    cands: Seq<TargetCandidate>,
    rolls: Seq<Option<i32>>,
) -> (Option<EntityId>, u32) {
    let t0 = target_after_removals(e_target, removed);
    if delay_timer > delay && t0 is Some {
        (t0, delay_timer)
    } else {
        let st = scan(me, pos, cands, rolls, TargetScan { target: t0, delay_timer, best: None, done: false });
        if st.done {
            (st.target, st.delay_timer)
        } else {
            match st.best {
                Some(b) => (Some(b.0), (st.delay_timer + 1) as u32),
                None => (None, st.delay_timer),
            }
        }
    }
}

/// Whether the look keeps the timer in bounds: until it ends, a target is
/// held with a timer of at least one and the timer has not grown; once it
/// has ended, the target is held with a timer of at least one that has grown
/// by at most one.
pub open spec fn scan_bounded(st: TargetScan, timer0: u32) -> bool {
    if st.done {
        &&& st.target is Some
        &&& 1 <= st.delay_timer <= timer0 + 1
    } else {
        &&& st.target is Some ==> st.delay_timer >= 1
        &&& st.delay_timer <= timer0
    }
}

proof fn lemma_scan_bounded(
    me: Relations,
    pos: IVec2,
    cands: Seq<TargetCandidate>,
    rolls: Seq<Option<i32>>,
    start: TargetScan,
)
    requires
        scan_bounded(start, start.delay_timer),
        !start.done,
        start.delay_timer < u32::MAX,
    ensures
        scan_bounded(scan(me, pos, cands, rolls, start), start.delay_timer),
    decreases cands.len(),
{
    if cands.len() > 0 {
        lemma_scan_bounded(me, pos, cands.drop_last(), rolls, start);
        let prev = scan(me, pos, cands.drop_last(), rolls, start);
        assert(scan(me, pos, cands, rolls, start) == scan_step(
            me,
            pos,
            prev,
            cands.last(),
            rolls[cands.len() - 1],
        ));
    }
}

/// One candidate looked at.
fn scan_candidate(me: &Relations, pos: IVec2, st: TargetScan, c: &TargetCandidate, roll: Option<i32>) -> (r: TargetScan)
    requires
        !st.done ==> (st.target is Some ==> st.delay_timer >= 1),
        st.delay_timer < u32::MAX,
    ensures
        r == scan_step(*me, pos, st, *c, roll),
{
    if st.done || !me.opposes(&c.relations) {
        return st;
    }
    if !c.visible {
        if st.target == Some(c.entity) {
            let t = st.delay_timer - 1;
            return TargetScan { target: if t == 0 { None } else { st.target }, delay_timer: t, best: st.best, done: false };
        }
        return st;
    }
    if st.target == Some(c.entity) {
        return TargetScan { target: st.target, delay_timer: st.delay_timer + 1, best: st.best, done: true };
    }
    let d = distance_sq(c.position, pos);
    let closer = match st.best {
        None => true,
        Some(b) => d < b.1,
    };
    if !closer {
        return st;
    }
    let seen = match c.stats {
        Some(s) => {
            if s.contains_key(&StatType::StealthRange) {
                let range = s.get_effective(&StatType::StealthRange);
                if range >= 0 {
                    let rr: u128 = range as u128;
                    assert(rr * rr <= 0x1_0000_0000_0000_0000) by (nonlinear_arith)
                        requires
                            0 <= rr <= 0x1_0000_0000,
                    ;
                    let r2: u128 = rr * rr;
                    if d <= r2 {
                        match roll {
                            Some(t) => t > 15,
                            None => false,
                        }
                    } else {
                        false
                    }
                } else {
                    false
                }
            } else {
                true
            }
        },
        None => true,
    };
    if seen {
        TargetScan { target: st.target, delay_timer: st.delay_timer, best: Some((c.entity, d)), done: false }
    } else {
        st
    }
}

/// Targetting with the die rolls given: `rolls[i]` is the roll for candidate
/// `i`. Drops a target that was removed, keeps a target that is engaged, and
/// otherwise looks over the candidates (see `chosen_target`). A target is
/// never held with a zero timer, and the timer grows by at most one.
pub fn choose_target(
    engagement: &mut Engages,
    removed: &Vec<ActorRemovedEvent>,
    me: &Relations,
    pos: IVec2,
    candidates: &Vec<TargetCandidate>,
    rolls: &Vec<Option<i32>>,
)
    requires
        rolls@.len() == candidates@.len(),
        old(engagement).target is Some ==> old(engagement).delay_timer >= 1,
        old(engagement).delay_timer < u32::MAX,
    ensures
        (final(engagement).target, final(engagement).delay_timer) == chosen_target(
            old(engagement).target,
            old(engagement).delay,
            old(engagement).delay_timer,
            removed@,
            *me,
            pos,
            candidates@,
            rolls@,
        ),
        final(engagement).delay == old(engagement).delay,
        final(engagement).distance_sq == old(engagement).distance_sq,
        final(engagement).path.positions@ == old(engagement).path.positions@,
        final(engagement).path.cost == old(engagement).path.cost,
        final(engagement).target is Some ==> final(engagement).delay_timer >= 1,
        final(engagement).delay_timer <= old(engagement).delay_timer + 1,
{
    let ghost t_in = engagement.target;
    if engagement.target.is_some() {
        let t = engagement.target.unwrap();
        let mut found = false;
        let mut i: usize = 0;
        while i < removed.len()
            invariant
                i <= removed@.len(),
                found <==> exists|j: int| 0 <= j < i && (#[trigger] removed@[j]).removed_actor == t,
            decreases removed@.len() - i,
        {
            if removed[i].removed_actor == t {
                found = true;
            }
            i = i + 1;
        }
        if found {
            engagement.target = None;
        }
    }
    assert(engagement.target == target_after_removals(t_in, removed@));
    if engagement.get_target().is_some() {
        return ;
    }
    let ghost start = TargetScan {
        target: engagement.target,
        delay_timer: engagement.delay_timer,
        best: None,
        done: false,
    };
    let mut st = TargetScan { target: engagement.target, delay_timer: engagement.delay_timer, best: None, done: false };
    let mut i: usize = 0;
    while i < candidates.len() && !st.done
        invariant
            i <= candidates@.len(),
            rolls@.len() == candidates@.len(),
            start.delay_timer < u32::MAX,
            !start.done,
            scan_bounded(start, start.delay_timer),
            st == scan(*me, pos, candidates@.take(i as int), rolls@, start),
        decreases candidates@.len() - i,
    {
        proof {
            lemma_scan_bounded(*me, pos, candidates@.take(i as int), rolls@, start);
            assert(candidates@.take(i as int + 1).drop_last() =~= candidates@.take(i as int));
        }
        st = scan_candidate(me, pos, st, &candidates[i], rolls[i]);
        i = i + 1;
    }
    proof {
        if i < candidates@.len() {
            // The look ended early; the rest leaves it as it stands.
            lemma_scan_done_rest(*me, pos, candidates@, rolls@, start, i as int);
        }
        assert(candidates@.take(candidates@.len() as int) =~= candidates@);
        lemma_scan_bounded(*me, pos, candidates@, rolls@, start);
    }
    if st.done {
        engagement.target = st.target;
        engagement.delay_timer = st.delay_timer;
    } else {
        match st.best {
            Some(b) => {
                engagement.target = Some(b.0);
                engagement.delay_timer = st.delay_timer + 1;
            },
            None => {
                engagement.target = None;
                engagement.delay_timer = st.delay_timer;
            },
        }
    }
}

/// Once the look has ended, later candidates leave it unchanged.
proof fn lemma_scan_done_rest(
    me: Relations,
    pos: IVec2,
    cands: Seq<TargetCandidate>,
    rolls: Seq<Option<i32>>,
    start: TargetScan,
    i: int,
)
    requires
        0 <= i <= cands.len(),
        scan(me, pos, cands.take(i), rolls, start).done,
    ensures
        scan(me, pos, cands, rolls, start) == scan(me, pos, cands.take(i), rolls, start),
    decreases cands.len() - i,
{
    if i < cands.len() {
        assert(cands.take(i + 1).drop_last() =~= cands.take(i));
        lemma_scan_done_rest(me, pos, cands, rolls, start, i + 1);
    } else {
        assert(cands.take(i) =~= cands);
    }
}

/// Whether a roll is a possible total of one twenty-sided die, or missing
/// (which it can be only where a roll of the die may not come back within
/// an `i32`).
pub open spec fn d20_roll(roll: Option<i32>) -> bool {
    &&& roll matches Some(t) ==> possible_total("1d20"@, t as int)
    &&& rolls_within_i32("1d20"@) ==> roll is Some
}

/// Targetting behaviour of the actor whose turn it is: rolls a
/// twenty-sided die for each candidate (the roll decides whether a stealthy
/// enemy is spotted) and then chooses its target as `choose_target` does with
/// those rolls.
pub fn targetting_behavior(
    engagement: &mut Engages,
    removed: &Vec<ActorRemovedEvent>,
    me: &Relations,
    pos: IVec2,
    candidates: &Vec<TargetCandidate>,
)
    requires
        old(engagement).target is Some ==> old(engagement).delay_timer >= 1,
        old(engagement).delay_timer < u32::MAX,
    ensures
        exists|rolls: Seq<Option<i32>>|
            rolls.len() == candidates@.len() && (forall|j: int| 0 <= j < rolls.len() ==> d20_roll(#[trigger] rolls[j]))
                && (final(engagement).target, final(engagement).delay_timer)
                == #[trigger] chosen_target(
                old(engagement).target,
                old(engagement).delay,
                old(engagement).delay_timer,
                removed@,
                *me,
                pos,
                candidates@,
                rolls,
            ),
        final(engagement).delay == old(engagement).delay,
        final(engagement).distance_sq == old(engagement).distance_sq,
        final(engagement).path.positions@ == old(engagement).path.positions@,
        final(engagement).path.cost == old(engagement).path.cost,
        final(engagement).target is Some ==> final(engagement).delay_timer >= 1,
        final(engagement).delay_timer <= old(engagement).delay_timer + 1,
{
    let mut rolls: Vec<Option<i32>> = Vec::new();
    let mut i: usize = 0;
    while i < candidates.len()
        invariant
            i <= candidates@.len(),
            rolls@.len() == i,
            forall|j: int| 0 <= j < i ==> d20_roll(#[trigger] rolls@[j]),
        decreases candidates@.len() - i,
    {
        proof {
            lemma_game_dice_are_plain();
        }
        let roll = match Dice::new("1d20") {
            Some(d) => Some(d.total),
            None => None,
        };
        rolls.push(roll);
        i = i + 1;
    }
    choose_target(engagement, removed, me, pos, candidates, &rolls);
}

/// Whether a candidate could be newly spotted from `pos` with die roll
/// `roll`: it is in sight, and where it has a stealth range (the stat's
/// effective value, which sneaking lowers) it stands within that range and
/// the roll is above 15.
pub open spec fn spottable(c: TargetCandidate, pos: IVec2, roll: Option<i32>) -> bool {
    &&& c.visible
    &&& (c.stats matches Some(s) && s.view().contains_key(StatType::StealthRange)) ==> {
        let r = c.stats->Some_0.view()[StatType::StealthRange].effective;
        &&& r >= 0
        &&& dist_sq(c.position, pos) <= r * r
        &&& rolls_above_15(roll)
    }
}

/// Whether the roll came back above 15.
pub open spec fn rolls_above_15(roll: Option<i32>) -> bool {
    roll matches Some(t) && t > 15
}

/// Squared distances are nonnegative and small enough for a `u128`.
proof fn lemma_dist_sq_range(a: IVec2, b: IVec2)
    ensures
        0 <= dist_sq(a, b) <= 0x8_0000_0000_0000_0000,
{
    let dx = a.x - b.x;
    let dy = a.y - b.y;
    assert(0 <= dx * dx <= 0x4_0000_0000_0000_0000) by (nonlinear_arith)
        requires
            -0x1_0000_0000 <= dx <= 0x1_0000_0000,
    ;
    assert(0 <= dy * dy <= 0x4_0000_0000_0000_0000) by (nonlinear_arith)
        requires
            -0x1_0000_0000 <= dy <= 0x1_0000_0000,
    ;
}

/// Whether candidate `c` is an enemy in sight, other than the target held,
/// that could be spotted with its roll.
pub open spec fn fresh_enemy(me: Relations, held: Option<EntityId>, c: TargetCandidate, pos: IVec2, roll: Option<i32>) -> bool {
    &&& me.spec_opposes(&c.relations)
    &&& held != Some(c.entity)
    &&& spottable(c, pos, roll)
}

/// What a look over the candidates can pick: the target it started with is
/// kept or dropped, never swapped; the closest enemy it holds is one of the
/// candidates, an enemy that could be spotted with its roll; and, until the
/// look ends, that enemy is no farther than any other such candidate, and
/// it holds one whenever there is such a candidate.
proof fn lemma_scan_picks_spottable(
    me: Relations,
    pos: IVec2,
    cands: Seq<TargetCandidate>,
    rolls: Seq<Option<i32>>,
    start: TargetScan,
)
    requires
        start.best is None,
        !start.done,
    ensures
        ({
            let st = scan(me, pos, cands, rolls, start);
            &&& st.target == start.target || st.target is None
            &&& st.best matches Some(b) ==> exists|i: int|
                0 <= i < cands.len() && (#[trigger] cands[i]).entity == b.0 && me.spec_opposes(&cands[i].relations)
                    && spottable(cands[i], pos, rolls[i]) && dist_sq(cands[i].position, pos) == b.1
            &&& !st.done ==> forall|j: int|
                0 <= j < cands.len() && fresh_enemy(me, start.target, #[trigger] cands[j], pos, rolls[j])
                    ==> (st.best matches Some(b) && b.1 <= dist_sq(cands[j].position, pos))
        }),
    decreases cands.len(),
{
    if cands.len() > 0 {
        let n = cands.len() - 1;
        lemma_scan_picks_spottable(me, pos, cands.drop_last(), rolls, start);
        let prev = scan(me, pos, cands.drop_last(), rolls, start);
        let st = scan(me, pos, cands, rolls, start);
        let c = cands[n];
        assert(c == cands.last());
        assert(st == scan_step(me, pos, prev, cands.last(), rolls[n]));
        if st.best != prev.best {
            assert(st.best == Some((c.entity, dist_sq(c.position, pos) as u128)));
            lemma_dist_sq_range(c.position, pos);
        } else if prev.best is Some {
            let i = choose|i: int|
                0 <= i < cands.drop_last().len() && (#[trigger] cands.drop_last()[i]).entity == prev.best->Some_0.0
                    && me.spec_opposes(&cands.drop_last()[i].relations) && spottable(cands.drop_last()[i], pos, rolls[i])
                    && dist_sq(cands.drop_last()[i].position, pos) == prev.best->Some_0.1;
            assert(cands[i] == cands.drop_last()[i]);
        }
        if !st.done {
            assert(!prev.done);
            assert forall|j: int|
                0 <= j < cands.len() && fresh_enemy(me, start.target, #[trigger] cands[j], pos, rolls[j])
                    implies (st.best matches Some(b) && b.1 <= dist_sq(cands[j].position, pos)) by {
                lemma_dist_sq_range(cands[j].position, pos);
                if j < n {
                    assert(cands[j] == cands.drop_last()[j]);
                    assert(fresh_enemy(me, start.target, cands.drop_last()[j], pos, rolls[j]));
                }
            }
        }
    }
}

/// A target an actor newly takes up is one of the candidates: an enemy in
/// sight that, where it has a stealth range, stands within its effective
/// stealth range and was spotted on a roll above 15. Sneaking (which lowers
/// the effective range) hides an actor beyond that range.
pub proof fn lemma_new_target_was_spotted(
    e_target: Option<EntityId>,
    delay: u32,
    delay_timer: u32,
    removed: Seq<ActorRemovedEvent>,
    me: Relations,
    pos: IVec2,
    cands: Seq<TargetCandidate>,
    rolls: Seq<Option<i32>>,
    t: EntityId,
)
    requires
        chosen_target(e_target, delay, delay_timer, removed, me, pos, cands, rolls).0 == Some(t),
        target_after_removals(e_target, removed) != Some(t),
    ensures
        exists|i: int|
            0 <= i < cands.len() && (#[trigger] cands[i]).entity == t && me.spec_opposes(&cands[i].relations)
                && spottable(cands[i], pos, rolls[i]) && forall|j: int|
                0 <= j < cands.len() && fresh_enemy(
                    me,
                    target_after_removals(e_target, removed),
                    #[trigger] cands[j],
                    pos,
                    rolls[j],
                ) ==> dist_sq(cands[i].position, pos) <= dist_sq(cands[j].position, pos),
{
    let t0 = target_after_removals(e_target, removed);
    let start = TargetScan { target: t0, delay_timer, best: None, done: false };
    lemma_scan_picks_spottable(me, pos, cands, rolls, start);
    let st = scan(me, pos, cands, rolls, start);
    assert(!st.done);
    let b = st.best->Some_0;
    let i = choose|i: int|
        0 <= i < cands.len() && (#[trigger] cands[i]).entity == b.0 && me.spec_opposes(&cands[i].relations)
            && spottable(cands[i], pos, rolls[i]) && dist_sq(cands[i].position, pos) == b.1;
    assert(cands[i].entity == t);
}

/// An actor that holds no target and looks while an enemy in sight could be
/// spotted with its roll does take up a target.
pub proof fn lemma_spottable_enemy_is_taken(
    e_target: Option<EntityId>,
    delay: u32,
    delay_timer: u32,
    removed: Seq<ActorRemovedEvent>,
    me: Relations,
    pos: IVec2,
    cands: Seq<TargetCandidate>,
    rolls: Seq<Option<i32>>,
    j: int,
)
    requires
        target_after_removals(e_target, removed) is None,
        0 <= j < cands.len(),
        fresh_enemy(me, None, cands[j], pos, rolls[j]),
    ensures
        chosen_target(e_target, delay, delay_timer, removed, me, pos, cands, rolls).0 is Some,
{
    let start = TargetScan { target: None, delay_timer, best: None, done: false };
    lemma_scan_picks_spottable(me, pos, cands, rolls, start);
    lemma_scan_never_done_without_target(me, pos, cands, rolls, start);
}

/// A look that holds no target never ends early.
proof fn lemma_scan_never_done_without_target(
    me: Relations,
    pos: IVec2,
    cands: Seq<TargetCandidate>,
    rolls: Seq<Option<i32>>,
    start: TargetScan,
)
    requires
        start.target is None,
        !start.done,
    ensures
        !scan(me, pos, cands, rolls, start).done,
        scan(me, pos, cands, rolls, start).target is None,
    decreases cands.len(),
{
    if cands.len() > 0 {
        lemma_scan_never_done_without_target(me, pos, cands.drop_last(), rolls, start);
    }
}

/// An enemy with a stealth range that stands beyond its effective stealth
/// range is never newly taken up as a target.
pub proof fn lemma_sneaker_beyond_range_unseen(
    e_target: Option<EntityId>,
    delay: u32,
    delay_timer: u32,
    removed: Seq<ActorRemovedEvent>,
    me: Relations,
    pos: IVec2,
    cands: Seq<TargetCandidate>,
    rolls: Seq<Option<i32>>,
    t: EntityId,
)
    requires
        target_after_removals(e_target, removed) != Some(t),
        forall|i: int|
            0 <= i < cands.len() && (#[trigger] cands[i]).entity == t ==> (cands[i].stats matches Some(s)
                && s.view().contains_key(StatType::StealthRange) && dist_sq(cands[i].position, pos) > s.view()[StatType::StealthRange].effective
                * s.view()[StatType::StealthRange].effective),
    ensures
        chosen_target(e_target, delay, delay_timer, removed, me, pos, cands, rolls).0 != Some(t),
{
    if chosen_target(e_target, delay, delay_timer, removed, me, pos, cands, rolls).0 == Some(t) {
        lemma_new_target_was_spotted(e_target, delay, delay_timer, removed, me, pos, cands, rolls, t);
    }
}

} // verus!

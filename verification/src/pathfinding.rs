use vstd::prelude::*;

use std::collections::VecDeque;

use sark_grids::Grid;

use crate::entity::EntityId;
use crate::geometry::IVec2;
use crate::grid::{
    occupant_cells, weight_cells, cell_index, in_bounds, lemma_cell_index_in_range, lemma_cell_index_injective, occupant_at,
    occupant_grid_size, occupant_of, occupant_size, occupants_ok, weight_at, weight_of,
    weight_size, weights_ok,
};

verus! {

/// A route of positions (the first position is one step from the start, the
/// last is the goal) and what it was found to cost.
#[derive(Clone)]
pub struct Path {
    pub positions: VecDeque<IVec2>,
    pub cost: u32,
}

impl Path {
    /// An empty route of cost 0.
    pub fn default() -> (r: Path)
        ensures
            r.positions@ == Seq::<IVec2>::empty(),
            r.cost == 0,
    {
        Path { positions: VecDeque::new(), cost: 0 }
    }
}

/// Whether a route may pass the point: it lies in both grids and nothing
/// blocking stands there (the start and the goal never count as blocked).
pub open spec fn passable(
    col: Grid<Option<EntityId>>,
    obs: Grid<u32>,
    start: IVec2,
    goal: IVec2,
    p: IVec2,
) -> bool {
    &&& in_bounds(occupant_size(col), p)
    &&& in_bounds(weight_size(obs), p)
    &&& (occupant_of(col, p) is None || p == start || p == goal)
}

/// What entering the point costs: its obstacle weight plus one.
pub open spec fn step_cost(obs: Grid<u32>, p: IVec2) -> int {
    weight_of(obs, p) + 1
}

/// Whether one of the allowed movements leads from `from` to `to`.
pub open spec fn is_step(moves: Seq<IVec2>, from: IVec2, to: IVec2) -> bool {
    exists|k: int|
        0 <= k < moves.len() && to.x == from.x + (#[trigger] moves[k]).x && to.y == from.y + moves[k].y
}

/// Whether the route leads from `from` through passable points, one allowed
/// movement at a time.
pub open spec fn walk_from(
    moves: Seq<IVec2>,
    col: Grid<Option<EntityId>>,
    obs: Grid<u32>,
    start: IVec2,
    goal: IVec2,
    from: IVec2,
    path: Seq<IVec2>,
) -> bool {
    &&& path.len() > 0 ==> is_step(moves, from, path[0])
    &&& forall|i: int| 0 < i < path.len() ==> is_step(moves, #[trigger] path[i - 1], path[i])
    &&& forall|i: int| 0 <= i < path.len() ==> passable(col, obs, start, goal, #[trigger] path[i])
}

/// The summed cost of entering each point of the route.
pub open spec fn walk_cost(obs: Grid<u32>, path: Seq<IVec2>) -> int
    decreases path.len(),
{
    if path.len() == 0 {
        0
    } else {
        step_cost(obs, path[0]) + walk_cost(obs, path.drop_first())
    }
}

/// The cost of an unreached cell, above any reachable cost.
pub open spec fn unreached_cost() -> int {
    0x1_0000_0000
}

pub open spec fn cost_value(c: Option<u32>) -> int {
    match c {
        Some(v) => v as int,
        None => unreached_cost(),
    }
}

/// The sum of the costs recorded so far; it falls with every improvement.
pub open spec fn potential(costs: Seq<Option<u32>>) -> int
    decreases costs.len(),
{
    if costs.len() == 0 {
        0
    } else {
        potential(costs.drop_last()) + cost_value(costs.last())
    }
}

proof fn lemma_potential_update(costs: Seq<Option<u32>>, i: int, c: Option<u32>)
    requires
        0 <= i < costs.len(),
    ensures
        potential(costs.update(i, c)) == potential(costs) - cost_value(costs[i]) + cost_value(c),
        potential(costs) >= 0,
    decreases costs.len(),
{
    if i < costs.len() - 1 {
        lemma_potential_update(costs.drop_last(), i, c);
        assert(costs.update(i, c).drop_last() =~= costs.drop_last().update(i, c));
    } else {
        assert(costs.update(i, c).drop_last() =~= costs.drop_last());
        lemma_potential_nonneg(costs.drop_last());
    }
    lemma_potential_nonneg(costs);
}

proof fn lemma_potential_nonneg(costs: Seq<Option<u32>>)
    ensures
        potential(costs) >= 0,
    decreases costs.len(),
{
    if costs.len() > 0 {
        lemma_potential_nonneg(costs.drop_last());
    }
}

/// The facts that the search keeps about the cells it has reached.
pub open spec fn search_inv(
    moves: Seq<IVec2>,
    col: Grid<Option<EntityId>>,
    obs: Grid<u32>,
    start: IVec2,
    goal: IVec2,
    n: int,
    s_idx: int,
    cost: Seq<Option<u32>>,
    came: Seq<Option<(usize, IVec2)>>,
    pts: Seq<IVec2>,
) -> bool {
    &&& cost.len() == n
    &&& came.len() == n
    &&& pts.len() == n
    &&& 0 <= s_idx < n
    &&& cost[s_idx] == Some(0u32)
    &&& came[s_idx] is None
    &&& pts[s_idx] == start
    &&& forall|v: int|
        0 <= v < n && (#[trigger] cost[v]) is Some ==> in_bounds(occupant_size(col), pts[v])
            && cell_index(occupant_size(col), pts[v]) == v && passable(col, obs, start, goal, pts[v])
    &&& forall|v: int|
        0 <= v < n && (#[trigger] cost[v]) is Some && v != s_idx ==> {
            let (u, up) = came[v]->Some_0;
            &&& came[v] is Some
            &&& u < n
            &&& cost[u as int] is Some
            &&& up == pts[u as int]
            &&& is_step(moves, up, pts[v])
            &&& cost[u as int]->Some_0 + step_cost(obs, pts[v]) <= cost[v]->Some_0
        }
}

/// What Dijkstra's search promises of the route and cost it returns: a
/// route from the start to the goal that costs at most the cost returned,
/// and (from a start on the grids) no route that costs less; where no route
/// is returned, every route costs more than any `u32`.
pub open spec fn dijkstra_result(
    start: IVec2,
    goal: IVec2,
    moves: Seq<IVec2>,
    col: Grid<Option<EntityId>>,
    obs: Grid<u32>,
    positions: Seq<IVec2>,
    cost: u32,
) -> bool {
    &&& walk_from(moves, col, obs, start, goal, start, positions)
    &&& positions.len() > 0 ==> positions.last() == goal && walk_cost(obs, positions) <= cost
    &&& positions.len() == 0 ==> cost == u32::MAX || (start == goal && cost == 0)
    &&& start == goal && in_bounds(occupant_size(col), start) && in_bounds(weight_size(obs), start)
        ==> positions.len() == 0 && cost == 0
    &&& in_bounds(occupant_size(col), start) && in_bounds(weight_size(obs), start) ==> no_cheaper_route(
        moves,
        col,
        obs,
        start,
        goal,
        goal,
        if positions.len() == 0 && cost == u32::MAX {
            u32::MAX + 1
        } else {
            cost as int
        },
    )
}

fn same_point(a: IVec2, b: IVec2) -> (r: bool)
    ensures
        r == (a == b),
{
    a.x == b.x && a.y == b.y
}

fn checked_step(p: IVec2, m: IVec2) -> (r: Option<IVec2>)
    ensures
        match r {
            Some(q) => q.x == p.x + m.x && q.y == p.y + m.y,
            None => !(i32::MIN <= p.x + m.x <= i32::MAX && i32::MIN <= p.y + m.y <= i32::MAX),
        },
{
    let x = p.x as i64 + m.x as i64;
    let y = p.y as i64 + m.y as i64;
    if x < i32::MIN as i64 || x > i32::MAX as i64 || y < i32::MIN as i64 || y > i32::MAX as i64 {
        None
    } else {
        Some(IVec2 { x: x as i32, y: y as i32 })
    }
}

fn index_of(size: (u32, u32), p: IVec2) -> (r: usize)
    requires
        in_bounds(size, p),
        size.0 * size.1 <= i32::MAX,
    ensures
        r == cell_index(size, p),
        r < size.0 * size.1,
{
    proof {
        lemma_cell_index_in_range(size, p);
    }
    let yy = p.y as usize;
    let ww = size.0 as usize;
    assert(yy * ww <= cell_index(size, p));
    yy * ww + p.x as usize
}

/// Every route from the start to `p` costs at least `c`.
#[verifier::opaque]
pub open spec fn no_cheaper_route(
    moves: Seq<IVec2>,
    col: Grid<Option<EntityId>>,
    obs: Grid<u32>,
    start: IVec2,
    goal: IVec2,
    p: IVec2,
    c: int,
) -> bool {
    forall|path: Seq<IVec2>|
        #[trigger] walk_from(moves, col, obs, start, goal, start, path) && path.len() > 0 && path.last() == p
            ==> walk_cost(obs, path) >= c
}

/// Whether the recorded cost of every passable cell one movement away from
/// cell `v` is at most the cost of `v` plus the cost of entering that cell.
pub open spec fn relaxed(
    moves: Seq<IVec2>,
    col: Grid<Option<EntityId>>,
    obs: Grid<u32>,
    start: IVec2,
    goal: IVec2,
    cost: Seq<Option<u32>>,
    pts: Seq<IVec2>,
    v: int,
) -> bool {
    forall|y: IVec2|
        #[trigger] is_step(moves, pts[v], y) && passable(col, obs, start, goal, y) ==> cost_value(
            cost[cell_index(occupant_size(col), y)],
        ) <= cost[v]->Some_0 + step_cost(obs, y)
}

/// The cells the search has finished with: each has a recorded cost that no
/// route beats, and has passed it on to every passable neighbour.
#[verifier::opaque]
pub open spec fn settled_inv(
    moves: Seq<IVec2>,
    col: Grid<Option<EntityId>>,
    obs: Grid<u32>,
    start: IVec2,
    goal: IVec2,
    cost: Seq<Option<u32>>,
    pts: Seq<IVec2>,
    settled: Seq<bool>,
) -> bool {
    &&& settled.len() == cost.len()
    &&& forall|v: int|
        0 <= v < settled.len() && #[trigger] settled[v] ==> cost[v] is Some && relaxed(
            moves,
            col,
            obs,
            start,
            goal,
            cost,
            pts,
            v,
        ) && no_cheaper_route(moves, col, obs, start, goal, pts[v], cost[v]->Some_0 as int)
}

proof fn lemma_walk_cost_push(obs: Grid<u32>, path: Seq<IVec2>, p: IVec2)
    ensures
        walk_cost(obs, path.push(p)) == walk_cost(obs, path) + step_cost(obs, p),
    decreases path.len(),
{
    let q = path.push(p);
    if path.len() > 0 {
        lemma_walk_cost_push(obs, path.drop_first(), p);
        assert(q.drop_first() =~= path.drop_first().push(p));
        assert(q[0] == path[0]);
        assert(walk_cost(obs, q) == step_cost(obs, q[0]) + walk_cost(obs, q.drop_first()));
    } else {
        assert(q.drop_first() =~= Seq::<IVec2>::empty());
        assert(walk_cost(obs, q.drop_first()) == 0);
        assert(q[0] == p);
        assert(walk_cost(obs, path) == 0);
    }
}

proof fn lemma_walk_cost_prefix(obs: Grid<u32>, path: Seq<IVec2>, j: int)
    requires
        0 <= j <= path.len(),
    ensures
        0 <= walk_cost(obs, path.take(j)) <= walk_cost(obs, path),
    decreases path.len() - j,
{
    if j < path.len() {
        lemma_walk_cost_prefix(obs, path, j + 1);
        assert(path.take(j + 1) =~= path.take(j).push(path[j]));
        lemma_walk_cost_push(obs, path.take(j), path[j]);
        lemma_walk_cost_nonneg(obs, path.take(j));
    } else {
        assert(path.take(j) =~= path);
        lemma_walk_cost_nonneg(obs, path);
    }
}

proof fn lemma_walk_cost_nonneg(obs: Grid<u32>, path: Seq<IVec2>)
    ensures
        walk_cost(obs, path) >= 0,
    decreases path.len(),
{
    if path.len() > 0 {
        lemma_walk_cost_nonneg(obs, path.drop_first());
    }
}

proof fn lemma_walk_prefix(
    moves: Seq<IVec2>,
    col: Grid<Option<EntityId>>,
    obs: Grid<u32>,
    start: IVec2,
    goal: IVec2,
    from: IVec2,
    path: Seq<IVec2>,
    j: int,
)
    requires
        walk_from(moves, col, obs, start, goal, from, path),
        0 <= j <= path.len(),
    ensures
        walk_from(moves, col, obs, start, goal, from, path.take(j)),
{
    let t = path.take(j);
    assert forall|i: int| 0 < i < t.len() implies is_step(moves, #[trigger] t[i - 1], t[i]) by {
        assert(t[i - 1] == path[i - 1]);
        assert(t[i] == path[i]);
    }
    assert forall|i: int| 0 <= i < t.len() implies passable(col, obs, start, goal, #[trigger] t[i]) by {
        assert(t[i] == path[i]);
    }
}

proof fn lemma_walk_push(
    moves: Seq<IVec2>,
    col: Grid<Option<EntityId>>,
    obs: Grid<u32>,
    start: IVec2,
    goal: IVec2,
    from: IVec2,
    path: Seq<IVec2>,
    p: IVec2,
)
    requires
        walk_from(moves, col, obs, start, goal, from, path),
        is_step(moves, if path.len() == 0 { from } else { path.last() }, p),
        passable(col, obs, start, goal, p),
    ensures
        walk_from(moves, col, obs, start, goal, from, path.push(p)),
{
    let t = path.push(p);
    assert forall|i: int| 0 < i < t.len() implies is_step(moves, #[trigger] t[i - 1], t[i]) by {
        if i < path.len() {
            assert(t[i - 1] == path[i - 1]);
            assert(t[i] == path[i]);
        } else {
            assert(t[i - 1] == path.last());
        }
    }
    assert forall|i: int| 0 <= i < t.len() implies passable(col, obs, start, goal, #[trigger] t[i]) by {
        if i < path.len() {
            assert(t[i] == path[i]);
        }
    }
}

/// A cell the search has reached is the cell its index names.
proof fn lemma_reached_point(
    moves: Seq<IVec2>,
    col: Grid<Option<EntityId>>,
    obs: Grid<u32>,
    start: IVec2,
    goal: IVec2,
    n: int,
    s_idx: int,
    cost: Seq<Option<u32>>,
    came: Seq<Option<(usize, IVec2)>>,
    pts: Seq<IVec2>,
    q: IVec2,
)
    requires
        search_inv(moves, col, obs, start, goal, n, s_idx, cost, came, pts),
        in_bounds(occupant_size(col), q),
        0 <= cell_index(occupant_size(col), q) < n,
        cost[cell_index(occupant_size(col), q)] is Some,
    ensures
        pts[cell_index(occupant_size(col), q)] == q,
{
    let qi = cell_index(occupant_size(col), q);
    if pts[qi] != q {
        lemma_cell_index_injective(occupant_size(col), pts[qi], q);
    }
}

/// Some route from the start to a reached cell costs at most its recorded
/// cost: the route that follows the recorded predecessors.
proof fn lemma_walk_to(
    moves: Seq<IVec2>,
    col: Grid<Option<EntityId>>,
    obs: Grid<u32>,
    start: IVec2,
    goal: IVec2,
    n: int,
    s_idx: int,
    cost: Seq<Option<u32>>,
    came: Seq<Option<(usize, IVec2)>>,
    pts: Seq<IVec2>,
    v: int,
) -> (path: Seq<IVec2>)
    requires
        search_inv(moves, col, obs, start, goal, n, s_idx, cost, came, pts),
        0 <= v < n,
        cost[v] is Some,
        v != s_idx,
    ensures
        walk_from(moves, col, obs, start, goal, start, path),
        path.len() > 0,
        path.last() == pts[v],
        walk_cost(obs, path) <= cost[v]->Some_0,
    decreases cost[v]->Some_0,
{
    let (u, up) = came[v]->Some_0;
    let e = Seq::<IVec2>::empty();
    if u == s_idx {
        lemma_walk_push(moves, col, obs, start, goal, start, e, pts[v]);
        lemma_walk_cost_push(obs, e, pts[v]);
        e.push(pts[v])
    } else {
        let prev = lemma_walk_to(moves, col, obs, start, goal, n, s_idx, cost, came, pts, u as int);
        lemma_walk_push(moves, col, obs, start, goal, start, prev, pts[v]);
        lemma_walk_cost_push(obs, prev, pts[v]);
        prev.push(pts[v])
    }
}

/// A route that ends on a cell the search has not finished with passes a
/// first such cell, and the recorded cost of that cell (a cell not reached
/// counting as beyond every `u32`) is at most what the route costs up to it.
proof fn lemma_first_open(
    moves: Seq<IVec2>,
    col: Grid<Option<EntityId>>,
    obs: Grid<u32>,
    start: IVec2,
    goal: IVec2,
    n: int,
    s_idx: int,
    cost: Seq<Option<u32>>,
    came: Seq<Option<(usize, IVec2)>>,
    pts: Seq<IVec2>,
    settled: Seq<bool>,
    path: Seq<IVec2>,
) -> (j: int)
    requires
        search_inv(moves, col, obs, start, goal, n, s_idx, cost, came, pts),
        settled_inv(moves, col, obs, start, goal, cost, pts, settled),
        n == occupant_size(col).0 * occupant_size(col).1,
        settled[s_idx],
        walk_from(moves, col, obs, start, goal, start, path),
        path.len() > 0,
        !settled[cell_index(occupant_size(col), path.last())],
    ensures
        0 <= j < path.len(),
        !settled[cell_index(occupant_size(col), path[j])],
        cost_value(cost[cell_index(occupant_size(col), path[j])]) <= walk_cost(obs, path.take(j + 1)),
    decreases path.len(),
{
    reveal(settled_inv);
    reveal(no_cheaper_route);
    let size = occupant_size(col);
    let last = path.len() - 1;
    let e = Seq::<IVec2>::empty();
    if path.len() == 1 {
        assert(passable(col, obs, start, goal, path[0]));
        assert(is_step(moves, pts[s_idx], path[0]));
        lemma_walk_cost_push(obs, e, path[0]);
        assert(path.take(1) =~= e.push(path[0]));
        0
    } else {
        let q = path[last - 1];
        let qi = cell_index(size, q);
        assert(passable(col, obs, start, goal, path[last - 1]));
        lemma_cell_index_in_range(size, q);
        lemma_walk_prefix(moves, col, obs, start, goal, start, path, last);
        let pre = path.take(last);
        if !settled[qi] {
            assert(pre.last() == q);
            let j = lemma_first_open(moves, col, obs, start, goal, n, s_idx, cost, came, pts, settled, pre);
            assert(pre.take(j + 1) =~= path.take(j + 1));
            assert(pre[j] == path[j]);
            j
        } else {
            lemma_reached_point(moves, col, obs, start, goal, n, s_idx, cost, came, pts, q);
            assert(is_step(moves, path[last - 1], path[last]));
            assert(passable(col, obs, start, goal, path[last]));
            assert(pre.last() == q);
            lemma_walk_cost_push(obs, pre, path[last]);
            assert(pre.push(path[last]) =~= path);
            assert(path.take(last + 1) =~= path);
            last
        }
    }
}

/// The frontier's entries: each names a reached cell by its point and its
/// index, with a weight no less than the cell's recorded cost.
#[verifier::opaque]
pub open spec fn frontier_ok(
    frontier: Seq<(IVec2, usize, u32)>,
    n: int,
    cost: Seq<Option<u32>>,
    pts: Seq<IVec2>,
) -> bool {
    forall|f: int|
        0 <= f < frontier.len() ==> (#[trigger] frontier[f]).1 < n && cost[frontier[f].1 as int] is Some
            && frontier[f].0 == pts[frontier[f].1 as int] && frontier[f].2 >= cost[frontier[f].1 as int]->Some_0
}

/// Every reached cell the search has not finished with, but for `skip`,
/// waits in the frontier with its recorded cost as weight.
#[verifier::opaque]
pub open spec fn waiting(
    frontier: Seq<(IVec2, usize, u32)>,
    n: int,
    cost: Seq<Option<u32>>,
    settled: Seq<bool>,
    skip: int,
) -> bool {
    forall|v: int|
        0 <= v < n && !settled[v] && #[trigger] cost[v] is Some && v != skip ==> exists|f: int|
            0 <= f < frontier.len() && (#[trigger] frontier[f]).1 == v && frontier[f].2 == cost[v]->Some_0
}

/// Every route from the start to the goal costs at least the goal's recorded
/// cost (a goal not reached counting as beyond every `u32`).
#[verifier::opaque]
pub open spec fn goal_bound(
    moves: Seq<IVec2>,
    col: Grid<Option<EntityId>>,
    obs: Grid<u32>,
    start: IVec2,
    goal: IVec2,
    cost: Seq<Option<u32>>,
) -> bool {
    forall|path: Seq<IVec2>|
        #[trigger] walk_from(moves, col, obs, start, goal, start, path) && path.len() > 0 && path.last() == goal
            ==> walk_cost(obs, path) >= cost_value(cost[cell_index(occupant_size(col), goal)])
}

/// The cell taken from the frontier with the least weight has a recorded
/// cost that no route beats, and no weight in the frontier is below it.
proof fn lemma_popped_optimal(
    moves: Seq<IVec2>,
    col: Grid<Option<EntityId>>,
    obs: Grid<u32>,
    start: IVec2,
    goal: IVec2,
    n: int,
    s_idx: int,
    cost: Seq<Option<u32>>,
    came: Seq<Option<(usize, IVec2)>>,
    pts: Seq<IVec2>,
    settled: Seq<bool>,
    frontier: Seq<(IVec2, usize, u32)>,
    best: int,
)
    requires
        search_inv(moves, col, obs, start, goal, n, s_idx, cost, came, pts),
        settled_inv(moves, col, obs, start, goal, cost, pts, settled),
        n == occupant_size(col).0 * occupant_size(col).1,
        frontier_ok(frontier, n, cost, pts),
        waiting(frontier, n, cost, settled, -1),
        0 <= best < frontier.len(),
        forall|f: int| 0 <= f < frontier.len() ==> frontier[best].2 <= #[trigger] frontier[f].2,
        !settled[s_idx] ==> forall|v: int| 0 <= v < n && #[trigger] cost[v] is Some ==> v == s_idx,
    ensures
        no_cheaper_route(
            moves,
            col,
            obs,
            start,
            goal,
            pts[frontier[best].1 as int],
            cost[frontier[best].1 as int]->Some_0 as int,
        ),
        forall|f: int|
            0 <= f < frontier.len() ==> cost[frontier[best].1 as int]->Some_0 <= #[trigger] frontier[f].2,
{
    reveal(frontier_ok);
    reveal(settled_inv);
    reveal(no_cheaper_route);
    reveal(waiting);
    let size = occupant_size(col);
    let ci = frontier[best].1 as int;
    let cp = pts[ci];
    let w = frontier[best].2;
    assert(frontier_ok(frontier, n, cost, pts));
    assert(cost[ci] is Some && w >= cost[ci]->Some_0);
    if !settled[ci] {
        assert forall|path: Seq<IVec2>|
            #[trigger] walk_from(moves, col, obs, start, goal, start, path) && path.len() > 0 && path.last()
                == cp implies walk_cost(obs, path) >= cost[ci]->Some_0 by {
            lemma_walk_cost_nonneg(obs, path);
            if settled[s_idx] {
                assert(cell_index(size, path.last()) == ci);
                let j = lemma_first_open(moves, col, obs, start, goal, n, s_idx, cost, came, pts, settled, path);
                lemma_walk_cost_prefix(obs, path, j + 1);
                let y = cell_index(size, path[j]);
                assert(passable(col, obs, start, goal, path[j]));
                lemma_cell_index_in_range(size, path[j]);
                if cost[y] is Some {
                    let f = choose|f: int|
                        0 <= f < frontier.len() && (#[trigger] frontier[f]).1 == y && frontier[f].2 == cost[y]->Some_0;
                    assert(w <= frontier[f].2);
                }
            } else {
                assert(ci == s_idx);
            }
        }
    }
}

/// Relaxing a cell keeps the facts about the finished cells: their costs and
/// points are untouched, and other costs only fall.
proof fn lemma_relax_keeps_settled(
    moves: Seq<IVec2>,
    col: Grid<Option<EntityId>>,
    obs: Grid<u32>,
    start: IVec2,
    goal: IVec2,
    cost: Seq<Option<u32>>,
    pts: Seq<IVec2>,
    settled: Seq<bool>,
    ni: int,
    nc: u32,
    next: IVec2,
)
    requires
        settled_inv(moves, col, obs, start, goal, cost, pts, settled),
        0 <= ni < cost.len(),
        pts.len() == cost.len(),
        cost.len() == occupant_size(col).0 * occupant_size(col).1,
        !settled[ni],
        nc < cost_value(cost[ni]),
    ensures
        settled_inv(moves, col, obs, start, goal, cost.update(ni, Some(nc)), pts.update(ni, next), settled),
{
    reveal(settled_inv);
    reveal(no_cheaper_route);
    let c2 = cost.update(ni, Some(nc));
    let p2 = pts.update(ni, next);
    assert forall|v: int| 0 <= v < settled.len() && #[trigger] settled[v] implies c2[v] is Some && relaxed(
        moves,
        col,
        obs,
        start,
        goal,
        c2,
        p2,
        v,
    ) && no_cheaper_route(moves, col, obs, start, goal, p2[v], c2[v]->Some_0 as int) by {
        assert(v != ni);
        assert(relaxed(moves, col, obs, start, goal, cost, pts, v));
        assert forall|y: IVec2|
            #[trigger] is_step(moves, p2[v], y) && passable(col, obs, start, goal, y) implies cost_value(
            c2[cell_index(occupant_size(col), y)],
        ) <= c2[v]->Some_0 + step_cost(obs, y) by {
            let yi = cell_index(occupant_size(col), y);
            assert(is_step(moves, pts[v], y));
            lemma_cell_index_in_range(occupant_size(col), y);
            if yi == ni {
                assert(cost_value(c2[yi]) <= cost_value(cost[yi]));
            }
        }
    }
}

/// A cell whose recorded cost a relaxation lowers is not a finished one.
proof fn lemma_relax_target_open(
    moves: Seq<IVec2>,
    col: Grid<Option<EntityId>>,
    obs: Grid<u32>,
    start: IVec2,
    goal: IVec2,
    n: int,
    s_idx: int,
    cost: Seq<Option<u32>>,
    came: Seq<Option<(usize, IVec2)>>,
    pts: Seq<IVec2>,
    settled: Seq<bool>,
    ci: int,
    next: IVec2,
    nc: u32,
)
    requires
        search_inv(moves, col, obs, start, goal, n, s_idx, cost, came, pts),
        settled_inv(moves, col, obs, start, goal, cost, pts, settled),
        n == occupant_size(col).0 * occupant_size(col).1,
        0 <= ci < n,
        cost[ci] is Some,
        is_step(moves, pts[ci], next),
        passable(col, obs, start, goal, next),
        nc == cost[ci]->Some_0 + step_cost(obs, next),
        0 <= cell_index(occupant_size(col), next) < n,
        nc < cost_value(cost[cell_index(occupant_size(col), next)]),
    ensures
        !settled[cell_index(occupant_size(col), next)],
{
    reveal(settled_inv);
    reveal(no_cheaper_route);
    let ni = cell_index(occupant_size(col), next);
    if settled[ni] {
        lemma_reached_point(moves, col, obs, start, goal, n, s_idx, cost, came, pts, next);
        let e = Seq::<IVec2>::empty();
        let path = if ci == s_idx {
            lemma_walk_push(moves, col, obs, start, goal, start, e, next);
            lemma_walk_cost_push(obs, e, next);
            e.push(next)
        } else {
            let prev = lemma_walk_to(moves, col, obs, start, goal, n, s_idx, cost, came, pts, ci);
            lemma_walk_push(moves, col, obs, start, goal, start, prev, next);
            lemma_walk_cost_push(obs, prev, next);
            prev.push(next)
        };
        assert(walk_from(moves, col, obs, start, goal, start, path));
        assert(walk_cost(obs, path) <= nc);
        assert(no_cheaper_route(moves, col, obs, start, goal, pts[ni], cost[ni]->Some_0 as int));
    }
}

/// When the search stops because a movement from the cell it is expanding
/// leads onto the goal, no route to the goal beats the goal's recorded cost.
proof fn lemma_goal_bound_when_found(
    moves: Seq<IVec2>,
    col: Grid<Option<EntityId>>,
    obs: Grid<u32>,
    start: IVec2,
    goal: IVec2,
    n: int,
    s_idx: int,
    cost: Seq<Option<u32>>,
    came: Seq<Option<(usize, IVec2)>>,
    pts: Seq<IVec2>,
    settled: Seq<bool>,
    frontier: Seq<(IVec2, usize, u32)>,
    ci: int,
)
    requires
        search_inv(moves, col, obs, start, goal, n, s_idx, cost, came, pts),
        settled_inv(moves, col, obs, start, goal, cost, pts, settled),
        n == occupant_size(col).0 * occupant_size(col).1,
        waiting(frontier, n, cost, settled, ci),
        0 <= ci < n,
        cost[ci] is Some,
        forall|f: int| 0 <= f < frontier.len() ==> cost[ci]->Some_0 <= #[trigger] frontier[f].2,
        no_cheaper_route(moves, col, obs, start, goal, pts[ci], cost[ci]->Some_0 as int),
        !settled[s_idx] ==> ci == s_idx,
        forall|v: int| 0 <= v < n && #[trigger] settled[v] ==> !is_step(moves, pts[v], goal),
        passable(col, obs, start, goal, goal) ==> cost_value(cost[cell_index(occupant_size(col), goal)])
            <= cost[ci]->Some_0 + step_cost(obs, goal),
    ensures
        goal_bound(moves, col, obs, start, goal, cost),
{
    reveal(settled_inv);
    reveal(no_cheaper_route);
    reveal(waiting);
    reveal(goal_bound);
    let size = occupant_size(col);
    let cc = cost[ci]->Some_0;
    assert forall|path: Seq<IVec2>|
        #[trigger] walk_from(moves, col, obs, start, goal, start, path) && path.len() > 0 && path.last() == goal
            implies walk_cost(obs, path) >= cost_value(cost[cell_index(size, goal)]) by {
        let l = path.len() - 1;
        let pre = path.take(l);
        assert(passable(col, obs, start, goal, path[l]));
        lemma_walk_prefix(moves, col, obs, start, goal, start, path, l);
        lemma_walk_cost_push(obs, pre, goal);
        assert(pre.push(goal) =~= path);
        lemma_walk_cost_nonneg(obs, pre);
        // What the route costs before its last step is at least `cc`.
        if l == 0 {
            assert(is_step(moves, start, goal));
            if settled[s_idx] {
                assert(!is_step(moves, pts[s_idx], goal));
            }
        } else {
            let q = path[l - 1];
            let qi = cell_index(size, q);
            assert(passable(col, obs, start, goal, q));
            lemma_cell_index_in_range(size, q);
            assert(pre.last() == q);
            assert(is_step(moves, q, goal));
            if qi == ci {
                if cost[qi] is Some {
                    lemma_reached_point(moves, col, obs, start, goal, n, s_idx, cost, came, pts, q);
                }
            } else if settled[qi] {
                lemma_reached_point(moves, col, obs, start, goal, n, s_idx, cost, came, pts, q);
                assert(!is_step(moves, pts[qi], goal));
            } else if settled[s_idx] {
                let j = lemma_first_open(moves, col, obs, start, goal, n, s_idx, cost, came, pts, settled, pre);
                lemma_walk_cost_prefix(obs, pre, j + 1);
                let y = cell_index(size, pre[j]);
                assert(passable(col, obs, start, goal, pre[j]));
                lemma_cell_index_in_range(size, pre[j]);
                if cost[y] is Some && y != ci {
                    let f = choose|f: int|
                        0 <= f < frontier.len() && (#[trigger] frontier[f]).1 == y && frontier[f].2 == cost[y]->Some_0;
                    assert(cc <= frontier[f].2);
                }
            }
        }
        assert(walk_cost(obs, pre) >= cc);
    }
}

/// When the frontier runs out before the goal is found, no route reaches the
/// goal for a cost within `u32`.
proof fn lemma_goal_bound_when_exhausted(
    moves: Seq<IVec2>,
    col: Grid<Option<EntityId>>,
    obs: Grid<u32>,
    start: IVec2,
    goal: IVec2,
    n: int,
    s_idx: int,
    cost: Seq<Option<u32>>,
    came: Seq<Option<(usize, IVec2)>>,
    pts: Seq<IVec2>,
    settled: Seq<bool>,
)
    requires
        search_inv(moves, col, obs, start, goal, n, s_idx, cost, came, pts),
        settled_inv(moves, col, obs, start, goal, cost, pts, settled),
        n == occupant_size(col).0 * occupant_size(col).1,
        settled[s_idx],
        waiting(Seq::empty(), n, cost, settled, -1),
        forall|v: int| 0 <= v < n && #[trigger] cost[v] is Some && v != s_idx ==> pts[v] != goal,
    ensures
        goal_bound(moves, col, obs, start, goal, cost),
{
    reveal(settled_inv);
    reveal(waiting);
    reveal(goal_bound);
    let size = occupant_size(col);
    assert forall|path: Seq<IVec2>|
        #[trigger] walk_from(moves, col, obs, start, goal, start, path) && path.len() > 0 && path.last() == goal
            implies walk_cost(obs, path) >= cost_value(cost[cell_index(size, goal)]) by {
        let gi = cell_index(size, goal);
        assert(passable(col, obs, start, goal, path[path.len() - 1]));
        lemma_cell_index_in_range(size, goal);
        lemma_walk_cost_nonneg(obs, path);
        if gi == s_idx {
        } else {
            if cost[gi] is Some {
                lemma_reached_point(moves, col, obs, start, goal, n, s_idx, cost, came, pts, goal);
            }
            assert(cost[gi] is None);
            let j = lemma_first_open(moves, col, obs, start, goal, n, s_idx, cost, came, pts, settled, path);
            lemma_walk_cost_prefix(obs, path, j + 1);
            let y = cell_index(size, path[j]);
            assert(passable(col, obs, start, goal, path[j]));
            lemma_cell_index_in_range(size, path[j]);
            if cost[y] is Some {
                assert(exists|f: int| 0 <= f < 0 && (#[trigger] Seq::<(IVec2, usize, u32)>::empty()[f]).1 == y);
            }
        }
    }
}

/// Whether the first `d` movements from `cp` (at cost `cc`) have been
/// passed on: every passable cell they lead to has a recorded cost at most
/// `cc` plus the cost of entering it.
#[verifier::opaque]
pub open spec fn relaxed_upto(
    moves: Seq<IVec2>,
    col: Grid<Option<EntityId>>,
    obs: Grid<u32>,
    start: IVec2,
    goal: IVec2,
    cost: Seq<Option<u32>>,
    cp: IVec2,
    cc: int,
    d: int,
) -> bool {
    forall|kk: int, y: IVec2|
        #![trigger moves[kk], passable(col, obs, start, goal, y)]
        0 <= kk < d && y.x == cp.x + moves[kk].x && y.y == cp.y + moves[kk].y && passable(col, obs, start, goal, y)
            ==> cost_value(cost[cell_index(occupant_size(col), y)]) <= cc + step_cost(obs, y)
}

/// Whether none of the first `d` movements from `cp` leads onto the goal.
#[verifier::opaque]
pub open spec fn misses_goal_upto(moves: Seq<IVec2>, goal: IVec2, cp: IVec2, d: int) -> bool {
    forall|kk: int| 0 <= kk < d ==> !(goal.x == cp.x + (#[trigger] moves[kk]).x && goal.y == cp.y + moves[kk].y)
}

/// One more movement passed on: costs only fell, and the cell the movement
/// leads to (if it is on the grids and passable) got a cost within bounds.
proof fn lemma_relaxed_step(
    moves: Seq<IVec2>,
    col: Grid<Option<EntityId>>,
    obs: Grid<u32>,
    start: IVec2,
    goal: IVec2,
    before: Seq<Option<u32>>,
    cost: Seq<Option<u32>>,
    cp: IVec2,
    cc: int,
    d: int,
)
    requires
        relaxed_upto(moves, col, obs, start, goal, before, cp, cc, d),
        0 <= d < moves.len(),
        cost.len() == before.len(),
        cost.len() == occupant_size(col).0 * occupant_size(col).1,
        forall|i: int| 0 <= i < cost.len() ==> cost_value(#[trigger] cost[i]) <= cost_value(before[i]),
        forall|y: IVec2|
            y.x == cp.x + moves[d].x && y.y == cp.y + moves[d].y && #[trigger] passable(col, obs, start, goal, y)
                ==> cost_value(cost[cell_index(occupant_size(col), y)]) <= cc + step_cost(obs, y),
    ensures
        relaxed_upto(moves, col, obs, start, goal, cost, cp, cc, d + 1),
{
    reveal(relaxed_upto);
    assert forall|kk: int, y: IVec2|
        #![trigger moves[kk], passable(col, obs, start, goal, y)]
        0 <= kk < d + 1 && y.x == cp.x + moves[kk].x && y.y == cp.y + moves[kk].y && passable(col, obs, start, goal, y)
            implies cost_value(cost[cell_index(occupant_size(col), y)]) <= cc + step_cost(obs, y) by {
        lemma_cell_index_in_range(occupant_size(col), y);
        if kk < d {
            assert(cost_value(cost[cell_index(occupant_size(col), y)]) <= cost_value(
                before[cell_index(occupant_size(col), y)],
            ));
        }
    }
}

/// Once every movement has been passed on, the cell is relaxed.
proof fn lemma_relaxed_all(
    moves: Seq<IVec2>,
    col: Grid<Option<EntityId>>,
    obs: Grid<u32>,
    start: IVec2,
    goal: IVec2,
    cost: Seq<Option<u32>>,
    pts: Seq<IVec2>,
    ci: int,
)
    requires
        0 <= ci < cost.len(),
        pts.len() == cost.len(),
        cost[ci] is Some,
        relaxed_upto(moves, col, obs, start, goal, cost, pts[ci], cost[ci]->Some_0 as int, moves.len() as int),
    ensures
        relaxed(moves, col, obs, start, goal, cost, pts, ci),
{
    reveal(relaxed_upto);
    assert forall|y: IVec2|
        #[trigger] is_step(moves, pts[ci], y) && passable(col, obs, start, goal, y) implies cost_value(
        cost[cell_index(occupant_size(col), y)],
    ) <= cost[ci]->Some_0 + step_cost(obs, y) by {
        let kk = choose|kk: int|
            0 <= kk < moves.len() && y.x == pts[ci].x + (#[trigger] moves[kk]).x && y.y == pts[ci].y + moves[kk].y;
        assert(passable(col, obs, start, goal, y));
    }
}

/// A cell none of whose movements leads onto the goal does not step onto it.
proof fn lemma_misses_goal(moves: Seq<IVec2>, goal: IVec2, cp: IVec2)
    requires
        misses_goal_upto(moves, goal, cp, moves.len() as int),
    ensures
        !is_step(moves, cp, goal),
{
    reveal(misses_goal_upto);
}

/// Taking an entry out of the frontier keeps the others, each with what is
/// known of it; only the cell of the entry taken may stop waiting there.
proof fn lemma_frontier_remove(
    frontier: Seq<(IVec2, usize, u32)>,
    n: int,
    cost: Seq<Option<u32>>,
    pts: Seq<IVec2>,
    settled: Seq<bool>,
    best: int,
    low: int,
)
    requires
        frontier_ok(frontier, n, cost, pts),
        waiting(frontier, n, cost, settled, -1),
        0 <= best < frontier.len(),
        forall|f: int| 0 <= f < frontier.len() ==> low <= #[trigger] frontier[f].2,
    ensures
        frontier_ok(frontier.remove(best), n, cost, pts),
        waiting(frontier.remove(best), n, cost, settled, frontier[best].1 as int),
        frontier[best].1 < n,
        cost[frontier[best].1 as int] is Some,
        frontier[best].0 == pts[frontier[best].1 as int],
        forall|f: int| 0 <= f < frontier.remove(best).len() ==> low <= #[trigger] frontier.remove(best)[f].2,
{
    reveal(frontier_ok);
    reveal(waiting);
    let r = frontier.remove(best);
    assert forall|f: int| 0 <= f < r.len() implies r[f] == frontier[if f < best { f } else { f + 1 }] by {}
    assert forall|f: int| 0 <= f < r.len() implies low <= #[trigger] r[f].2 by {
        assert(r[f] == frontier[if f < best { f } else { f + 1 }]);
    }
    assert forall|f: int| 0 <= f < r.len() implies (#[trigger] r[f]).1 < n && cost[r[f].1 as int] is Some
        && r[f].0 == pts[r[f].1 as int] && r[f].2 >= cost[r[f].1 as int]->Some_0 by {
        assert(r[f] == frontier[if f < best { f } else { f + 1 }]);
    }
    assert forall|v: int|
        0 <= v < n && !settled[v] && #[trigger] cost[v] is Some && v != frontier[best].1 as int implies exists|f: int|
        0 <= f < r.len() && (#[trigger] r[f]).1 == v && r[f].2 == cost[v]->Some_0 by {
        let g = choose|g: int| 0 <= g < frontier.len() && (#[trigger] frontier[g]).1 == v && frontier[g].2 == cost[v]->Some_0;
        assert(g != best);
        let f = if g < best { g } else { g - 1 };
        assert(r[f] == frontier[g]);
    }
}

/// Lowering a cell's cost and adding it to the frontier with that cost
/// keeps the frontier's facts and what waits in it.
proof fn lemma_frontier_push(
    frontier: Seq<(IVec2, usize, u32)>,
    n: int,
    cost: Seq<Option<u32>>,
    pts: Seq<IVec2>,
    settled: Seq<bool>,
    skip: int,
    ni: usize,
    nc: u32,
    next: IVec2,
    low: int,
)
    requires
        frontier_ok(frontier, n, cost, pts),
        waiting(frontier, n, cost, settled, skip),
        forall|f: int| 0 <= f < frontier.len() ==> low <= #[trigger] frontier[f].2,
        low <= nc,
        ni < n,
        cost.len() == n,
        pts.len() == n,
        nc < cost_value(cost[ni as int]),
        cost[ni as int] is Some ==> pts[ni as int] == next,
    ensures
        frontier_ok(frontier.push((next, ni, nc)), n, cost.update(ni as int, Some(nc)), pts.update(ni as int, next)),
        waiting(frontier.push((next, ni, nc)), n, cost.update(ni as int, Some(nc)), settled, skip),
        forall|f: int|
            0 <= f < frontier.push((next, ni, nc)).len() ==> low <= #[trigger] frontier.push(
                (next, ni, nc),
            )[f].2,
{
    reveal(frontier_ok);
    reveal(waiting);
    let r = frontier.push((next, ni, nc));
    let c2 = cost.update(ni as int, Some(nc));
    let p2 = pts.update(ni as int, next);
    assert forall|f: int| 0 <= f < r.len() implies low <= #[trigger] r[f].2 by {
        if f < frontier.len() {
            assert(r[f] == frontier[f]);
        }
    }
    assert forall|f: int| 0 <= f < r.len() implies (#[trigger] r[f]).1 < n && c2[r[f].1 as int] is Some && r[f].0
        == p2[r[f].1 as int] && r[f].2 >= c2[r[f].1 as int]->Some_0 by {
        if f < frontier.len() {
            assert(r[f] == frontier[f]);
        }
    }
    assert forall|v: int| 0 <= v < n && !settled[v] && #[trigger] c2[v] is Some && v != skip implies exists|f: int|
        0 <= f < r.len() && (#[trigger] r[f]).1 == v && r[f].2 == c2[v]->Some_0 by {
        if v == ni as int {
            assert(r[frontier.len() as int].1 == v);
        } else {
            assert(cost[v] is Some);
            let g = choose|g: int| 0 <= g < frontier.len() && (#[trigger] frontier[g]).1 == v && frontier[g].2 == cost[v]->Some_0;
            assert(r[g] == frontier[g]);
        }
    }
}

/// Recording a cheaper cost for a cell, reached from the cell being
/// expanded, keeps the facts the search holds about the cells it reached.
proof fn lemma_relax_search_inv(
    moves: Seq<IVec2>,
    col: Grid<Option<EntityId>>,
    obs: Grid<u32>,
    start: IVec2,
    goal: IVec2,
    n: int,
    s_idx: int,
    cost: Seq<Option<u32>>,
    came: Seq<Option<(usize, IVec2)>>,
    pts: Seq<IVec2>,
    ci: usize,
    cp: IVec2,
    ni: usize,
    next: IVec2,
    nc: u32,
)
    requires
        search_inv(moves, col, obs, start, goal, n, s_idx, cost, came, pts),
        ni < n,
        ni != s_idx,
        ni != ci,
        ci < n,
        cost[ci as int] is Some,
        pts[ci as int] == cp,
        in_bounds(occupant_size(col), next),
        cell_index(occupant_size(col), next) == ni,
        passable(col, obs, start, goal, next),
        is_step(moves, cp, next),
        cost[ci as int]->Some_0 + step_cost(obs, next) <= nc,
        nc < cost_value(cost[ni as int]),
        cost[ni as int] is Some ==> pts[ni as int] == next,
    ensures
        search_inv(
            moves,
            col,
            obs,
            start,
            goal,
            n,
            s_idx,
            cost.update(ni as int, Some(nc)),
            came.update(ni as int, Some((ci, cp))),
            pts.update(ni as int, next),
        ),
{
    let c2 = cost.update(ni as int, Some(nc));
    let m2 = came.update(ni as int, Some((ci, cp)));
    let p2 = pts.update(ni as int, next);
    assert forall|v: int| 0 <= v < n && (#[trigger] c2[v]) is Some implies in_bounds(occupant_size(col), p2[v])
        && cell_index(occupant_size(col), p2[v]) == v && passable(col, obs, start, goal, p2[v]) by {
        if v != ni {
            assert(cost[v] is Some);
        }
    }
    assert forall|v: int| 0 <= v < n && (#[trigger] c2[v]) is Some && v != s_idx implies {
        let (u, up) = m2[v]->Some_0;
        &&& m2[v] is Some
        &&& u < n
        &&& c2[u as int] is Some
        &&& up == p2[u as int]
        &&& is_step(moves, up, p2[v])
        &&& c2[u as int]->Some_0 + step_cost(obs, p2[v]) <= c2[v]->Some_0
    } by {
        if v != ni {
            assert(cost[v] is Some);
            let (u, up) = came[v]->Some_0;
            assert(cost[u as int] is Some);
            assert(c2[v] == cost[v]);
            assert(m2[v] == came[v]);
            if u == ni {
                assert(pts[u as int] == next);
                assert(c2[u as int]->Some_0 <= cost[u as int]->Some_0);
            } else {
                assert(c2[u as int] == cost[u as int]);
                assert(p2[u as int] == pts[u as int]);
            }
        } else {
            assert(m2[v] == Some((ci, cp)));
            assert(c2[ci as int] == cost[ci as int]);
            assert(p2[ci as int] == cp);
            assert(p2[v] == next);
        }
    }
}

/// Routes depend on the grids only through their sizes and cells.
pub proof fn lemma_same_grids_same_routes(
    moves: Seq<IVec2>,
    col: Grid<Option<EntityId>>,
    obs: Grid<u32>,
    col2: Grid<Option<EntityId>>,
    obs2: Grid<u32>,
    start: IVec2,
    goal: IVec2,
    from: IVec2,
    path: Seq<IVec2>,
)
    requires
        occupant_size(col) == occupant_size(col2),
        occupant_cells(col) == occupant_cells(col2),
        weight_size(obs) == weight_size(obs2),
        weight_cells(obs) == weight_cells(obs2),
    ensures
        walk_from(moves, col, obs, start, goal, from, path) == walk_from(moves, col2, obs2, start, goal, from, path),
        walk_cost(obs, path) == walk_cost(obs2, path),
    decreases path.len(),
{
    assert forall|p: IVec2| passable(col, obs, start, goal, p) == passable(col2, obs2, start, goal, p) by {}
    if path.len() > 0 {
        lemma_same_grids_same_routes(moves, col, obs, col2, obs2, start, goal, from, path.drop_first());
        assert(step_cost(obs, path[0]) == step_cost(obs2, path[0]));
    }
}

/// Searches for a route from `start` to `goal` with Dijkstra's algorithm:
/// the cheapest known cell is expanded next, entering a cell costs its obstacle
/// weight plus one, cells that hold a blocking entity are avoided (except the
/// start and the goal), and the search stops as soon as a movement leads onto
/// the goal. The route found leads from the start to the goal through passable
/// cells, one allowed movement at a time, and no route from a start on the
/// grids costs less than the cost returned: the search is cut short only when
/// the goal is first met, which is from the first finished cell next to it,
/// a cheapest one, since entering the goal costs the same from anywhere.
/// When no route was found the positions are empty and the cost is
/// `u32::MAX`, and every route costs more than any `u32`; when the start is
/// the goal they are empty and the cost is 0.
#[verifier::rlimit(80)]
#[verifier::spinoff_prover]
pub fn dijkstra(
    start: &IVec2,
    goal: &IVec2,
    allowed_movements: &Vec<IVec2>,
    collidables: &Grid<Option<EntityId>>,
    obstacles: &Grid<u32>,
) -> (r: Path)
    requires
        occupants_ok(*collidables),
        weights_ok(*obstacles),
    ensures
        dijkstra_result(
            *start,
            *goal,
            allowed_movements@,
            *collidables,
            *obstacles,
            r.positions@,
            r.cost,
        ),
{
    let ghost moves = allowed_movements@;
    let ghost col = *collidables;
    let ghost obs = *obstacles;
    let size = occupant_grid_size(collidables);
    let start_in = match (occupant_at(collidables, *start), weight_at(obstacles, *start)) {
        (Some(_), Some(_)) => true,
        _ => false,
    };
    if !start_in {
        return Path { positions: VecDeque::new(), cost: u32::MAX };
    }
    let n = size.0 as usize * size.1 as usize;
    let s_idx = index_of(size, *start);
    let mut cost: Vec<Option<u32>> = Vec::new();
    let mut came: Vec<Option<(usize, IVec2)>> = Vec::new();
    let mut i: usize = 0;
    while i < n
        invariant
            i <= n,
            cost@.len() == i,
            came@.len() == i,
            forall|k: int| 0 <= k < i ==> cost@[k] is None && came@[k] is None,
        decreases n - i,
    {
        cost.push(None);
        came.push(None);
        i = i + 1;
    }
    cost.set(s_idx, Some(0));
    let ghost mut pts: Seq<IVec2> = Seq::new(n as nat, |k: int| *start);
    let ghost mut settled: Seq<bool> = Seq::new(n as nat, |k: int| false);
    let mut frontier: Vec<(IVec2, usize, u32)> = Vec::new();
    frontier.push((*start, s_idx, 0));
    let mut done = false;
    proof {
        assert forall|v: int| 0 <= v < n && (#[trigger] cost@[v]) is Some implies v == s_idx by {}
        assert(frontier@[0].1 == s_idx);
        assert(settled_inv(moves, col, obs, *start, *goal, cost@, pts, settled)) by {
            reveal(settled_inv);
        }
        assert(waiting(frontier@, n as int, cost@, settled, -1)) by {
            reveal(waiting);
        }
        assert(frontier_ok(frontier@, n as int, cost@, pts)) by {
            reveal(frontier_ok);
        }
    }
    while !done && frontier.len() > 0
        invariant
            size == occupant_size(col),
            occupants_ok(col),
            weights_ok(obs),
            col == *collidables,
            obs == *obstacles,
            moves == allowed_movements@,
            n == size.0 * size.1,
            in_bounds(size, *start),
            in_bounds(weight_size(obs), *start),
            s_idx == cell_index(size, *start),
            search_inv(moves, col, obs, *start, *goal, n as int, s_idx as int, cost@, came@, pts),
            frontier_ok(frontier@, n as int, cost@, pts),
            settled_inv(moves, col, obs, *start, *goal, cost@, pts, settled),
            settled.len() == n,
            !done ==> waiting(frontier@, n as int, cost@, settled, -1),
            !done && !settled[s_idx as int] ==> frontier@.len() > 0 && forall|v: int|
                0 <= v < n && #[trigger] cost@[v] is Some ==> v == s_idx,
            !done ==> forall|v: int| 0 <= v < n && #[trigger] settled[v] ==> !is_step(moves, pts[v], *goal),
            !done ==> forall|v: int| 0 <= v < n && #[trigger] cost@[v] is Some && v != s_idx ==> pts[v] != *goal,
            done ==> goal_bound(moves, col, obs, *start, *goal, cost@),
        decreases potential(cost@), frontier@.len(),
    {
        proof {
            lemma_potential_nonneg(cost@);
        }
        let ghost phi0 = potential(cost@);
        let ghost f0 = frontier@.len();
        let mut best: usize = 0;
        let mut k: usize = 1;
        while k < frontier.len()
            invariant
                0 <= best < frontier@.len(),
                1 <= k <= frontier@.len(),
                forall|f: int| 0 <= f < k ==> frontier@[best as int].2 <= #[trigger] frontier@[f].2,
            decreases frontier@.len() - k,
        {
            if frontier[k].2 < frontier[best].2 {
                best = k;
            }
            k = k + 1;
        }
        let ghost before = frontier@;
        proof {
            lemma_popped_optimal(
                moves,
                col,
                obs,
                *start,
                *goal,
                n as int,
                s_idx as int,
                cost@,
                came@,
                pts,
                settled,
                before,
                best as int,
            );
            lemma_frontier_remove(
                before,
                n as int,
                cost@,
                pts,
                settled,
                best as int,
                cost@[before[best as int].1 as int]->Some_0 as int,
            );
        }
        let (cp, ci, _) = frontier.remove(best);
        assert(frontier@ == before.remove(best as int));
        assert(cost@[ci as int] is Some);
        let cc = cost[ci].unwrap();
        let mut d: usize = 0;
        proof {
            assert(relaxed_upto(moves, col, obs, *start, *goal, cost@, cp, cc as int, 0)) by {
                reveal(relaxed_upto);
            }
            assert(misses_goal_upto(moves, *goal, cp, 0)) by {
                reveal(misses_goal_upto);
            }
        }
        while d < allowed_movements.len() && !done
            invariant
                size == occupant_size(col),
                occupants_ok(col),
                weights_ok(obs),
                col == *collidables,
                obs == *obstacles,
                moves == allowed_movements@,
                n == size.0 * size.1,
                in_bounds(size, *start),
                s_idx == cell_index(size, *start),
                search_inv(moves, col, obs, *start, *goal, n as int, s_idx as int, cost@, came@, pts),
                frontier_ok(frontier@, n as int, cost@, pts),
                settled_inv(moves, col, obs, *start, *goal, cost@, pts, settled),
                settled.len() == n,
                ci < n,
                cost@[ci as int] == Some(cc),
                pts[ci as int] == cp,
                d <= allowed_movements@.len(),
                (potential(cost@) == phi0 && frontier@.len() == f0 - 1) || potential(cost@) < phi0,
                !done ==> waiting(frontier@, n as int, cost@, settled, ci as int),
                forall|f: int| 0 <= f < frontier@.len() ==> cc <= #[trigger] frontier@[f].2,
                no_cheaper_route(moves, col, obs, *start, *goal, cp, cc as int),
                !settled[s_idx as int] ==> ci == s_idx,
                !done ==> forall|v: int| 0 <= v < n && #[trigger] settled[v] ==> !is_step(moves, pts[v], *goal),
                !done ==> forall|v: int| 0 <= v < n && #[trigger] cost@[v] is Some && v != s_idx ==> pts[v] != *goal,
                done ==> goal_bound(moves, col, obs, *start, *goal, cost@),
                relaxed_upto(moves, col, obs, *start, *goal, cost@, cp, cc as int, d as int),
                !done ==> misses_goal_upto(moves, *goal, cp, d as int),
            decreases allowed_movements@.len() - d,
        {
            let ghost cost_d = cost@;
            let m = allowed_movements[d];
            match checked_step(cp, m) {
                None => {
                    assert(moves[d as int] == m);
                    assert forall|y: IVec2|
                        y.x == cp.x + moves[d as int].x && y.y == cp.y + moves[d as int].y && #[trigger] passable(
                            col,
                            obs,
                            *start,
                            *goal,
                            y,
                        ) implies cost_value(cost@[cell_index(size, y)]) <= cc + step_cost(obs, y) by {}
                    assert(!((*goal).x == cp.x + moves[d as int].x && (*goal).y == cp.y + moves[d as int].y));
                },
                Some(next) => {
                    assert(is_step(moves, cp, next)) by {
                        assert(moves[d as int] == m);
                    }
                    match (occupant_at(collidables, next), weight_at(obstacles, next)) {
                        (Some(occ), Some(wt)) => {
                            let ni = index_of(size, next);
                            let free = occ.is_none() || same_point(next, *start) || same_point(
                                next,
                                *goal,
                            );
                            assert(free == passable(col, obs, *start, *goal, next));
                            let new_cost = match cc.checked_add(wt) {
                                Some(c1) => c1.checked_add(1),
                                None => None,
                            };
                            match new_cost {
                                Some(nc) => {
                                    let better = match cost[ni] {
                                        None => true,
                                        Some(old_c) => nc < old_c,
                                    };
                                    if free && better {
                                        proof {
                                            lemma_potential_update(cost@, ni as int, Some(nc));
                                            assert(ni != s_idx);
                                            assert(ni != ci);
                                            assert(weight_of(obs, next) == wt);
                                            lemma_relax_target_open(
                                                moves,
                                                col,
                                                obs,
                                                *start,
                                                *goal,
                                                n as int,
                                                s_idx as int,
                                                cost@,
                                                came@,
                                                pts,
                                                settled,
                                                ci as int,
                                                next,
                                                nc,
                                            );
                                            lemma_relax_keeps_settled(
                                                moves,
                                                col,
                                                obs,
                                                *start,
                                                *goal,
                                                cost@,
                                                pts,
                                                settled,
                                                ni as int,
                                                nc,
                                                next,
                                            );
                                        }
                                        let ghost old_cost = cost@;
                                        let ghost old_came = came@;
                                        let ghost old_pts = pts;
                                        proof {
                                            if old_cost[ni as int] is Some && old_pts[ni as int] != next {
                                                lemma_cell_index_injective(size, old_pts[ni as int], next);
                                            }
                                            lemma_frontier_push(
                                                frontier@,
                                                n as int,
                                                cost@,
                                                pts,
                                                settled,
                                                ci as int,
                                                ni,
                                                nc,
                                                next,
                                                cc as int,
                                            );
                                        }
                                        cost.set(ni, Some(nc));
                                        came.set(ni, Some((ci, cp)));
                                        proof {
                                            lemma_relax_search_inv(
                                                moves,
                                                col,
                                                obs,
                                                *start,
                                                *goal,
                                                n as int,
                                                s_idx as int,
                                                old_cost,
                                                old_came,
                                                old_pts,
                                                ci,
                                                cp,
                                                ni,
                                                next,
                                                nc,
                                            );
                                            pts = pts.update(ni as int, next);
                                            if next != *goal {
                                                assert forall|v: int|
                                                    0 <= v < n && #[trigger] cost@[v] is Some && v != s_idx implies pts[v]
                                                    != *goal by {
                                                    if v != ni {
                                                        assert(old_cost[v] is Some);
                                                    }
                                                }
                                            }
                                        }
                                        frontier.push((next, ni, nc));
                                    }
                                    assert(passable(col, obs, *start, *goal, next) ==> cost_value(
                                        cost@[cell_index(size, next)],
                                    ) <= cc + step_cost(obs, next));
                                },
                                None => {
                                    assert(cost_value(cost@[cell_index(size, next)]) <= cc + step_cost(obs, next));
                                },
                            }
                        },
                        _ => {
                            assert(!passable(col, obs, *start, *goal, next));
                        },
                    }
                    assert(passable(col, obs, *start, *goal, next) ==> cost_value(cost@[cell_index(size, next)])
                        <= cc + step_cost(obs, next));
                    if same_point(next, *goal) {
                        proof {
                            lemma_goal_bound_when_found(
                                moves,
                                col,
                                obs,
                                *start,
                                *goal,
                                n as int,
                                s_idx as int,
                                cost@,
                                came@,
                                pts,
                                settled,
                                frontier@,
                                ci as int,
                            );
                        }
                        done = true;
                    }
                    assert(moves[d as int] == m);
                    assert forall|y: IVec2|
                        y.x == cp.x + moves[d as int].x && y.y == cp.y + moves[d as int].y && #[trigger] passable(
                            col,
                            obs,
                            *start,
                            *goal,
                            y,
                        ) implies cost_value(cost@[cell_index(size, y)]) <= cc + step_cost(obs, y) by {
                        assert(y == next);
                    }
                    assert(!done ==> !((*goal).x == cp.x + moves[d as int].x && (*goal).y == cp.y
                        + moves[d as int].y));
                },
            }
            proof {
                assert forall|i: int| 0 <= i < n implies cost_value(#[trigger] cost@[i]) <= cost_value(cost_d[i]) by {}
                lemma_relaxed_step(moves, col, obs, *start, *goal, cost_d, cost@, cp, cc as int, d as int);
                if !done {
                    assert(misses_goal_upto(moves, *goal, cp, d + 1)) by {
                        reveal(misses_goal_upto);
                    }
                }
            }
            d = d + 1;
        }
        proof {
            lemma_potential_nonneg(cost@);
            if !done {
                lemma_relaxed_all(moves, col, obs, *start, *goal, cost@, pts, ci as int);
                lemma_misses_goal(moves, *goal, cp);
                assert(!is_step(moves, pts[ci as int], *goal));
                let ghost old_settled = settled;
                settled = settled.update(ci as int, true);
                assert(settled_inv(moves, col, obs, *start, *goal, cost@, pts, settled)) by {
                    reveal(settled_inv);
                    assert forall|v: int| 0 <= v < settled.len() && #[trigger] settled[v] implies cost@[v] is Some
                        && relaxed(moves, col, obs, *start, *goal, cost@, pts, v) && no_cheaper_route(
                        moves,
                        col,
                        obs,
                        *start,
                        *goal,
                        pts[v],
                        cost@[v]->Some_0 as int,
                    ) by {
                        if v != ci {
                            assert(old_settled[v]);
                        }
                    }
                }
                assert forall|v: int| 0 <= v < n && #[trigger] settled[v] implies !is_step(moves, pts[v], *goal) by {
                    if v != ci {
                        assert(old_settled[v]);
                    }
                }
                assert(waiting(frontier@, n as int, cost@, settled, -1)) by {
                    reveal(waiting);
                    assert forall|v: int|
                        0 <= v < n && !settled[v] && #[trigger] cost@[v] is Some && v != -1 implies exists|f: int|
                        0 <= f < frontier@.len() && (#[trigger] frontier@[f]).1 == v && frontier@[f].2
                            == cost@[v]->Some_0 by {
                        assert(!old_settled[v]);
                    }
                }
            }
        }
    }
    proof {
        if !done {
            assert(frontier@ =~= Seq::<(IVec2, usize, u32)>::empty());
            lemma_goal_bound_when_exhausted(
                moves,
                col,
                obs,
                *start,
                *goal,
                n as int,
                s_idx as int,
                cost@,
                came@,
                pts,
                settled,
            );
        }
    }
    // Follow the recorded predecessors back from the goal.
    let mut positions: VecDeque<IVec2> = VecDeque::new();
    let goal_in = match (occupant_at(collidables, *goal), weight_at(obstacles, *goal)) {
        (Some(_), Some(_)) => true,
        _ => false,
    };
    if !goal_in {
        proof {
            reveal(no_cheaper_route);
            assert forall|path: Seq<IVec2>|
                #[trigger] walk_from(moves, col, obs, *start, *goal, *start, path) && path.len() > 0 && path.last()
                    == *goal implies walk_cost(obs, path) >= u32::MAX + 1 by {
                assert(passable(col, obs, *start, *goal, path[path.len() - 1]));
            }
        }
        return Path { positions, cost: u32::MAX };
    }
    let gi = index_of(size, *goal);
    assert(goal_bound(moves, col, obs, *start, *goal, cost@));
    proof {
        reveal(goal_bound);
        reveal(no_cheaper_route);
    }
    match cost[gi] {
        None => Path { positions, cost: u32::MAX },
        Some(gc) => {
            proof {
                assert(pts[gi as int] == *goal) by {
                    if pts[gi as int] != *goal {
                        lemma_cell_index_injective(size, pts[gi as int], *goal);
                    }
                }
            }
            let mut cur = gi;
            let mut cur_pt = *goal;
            while cur != s_idx
                invariant
                    size == occupant_size(col),
                    col == *collidables,
                    obs == *obstacles,
                    moves == allowed_movements@,
                    search_inv(moves, col, obs, *start, *goal, n as int, s_idx as int, cost@, came@, pts),
                    cur < n,
                    cost@[cur as int] is Some,
                    pts[cur as int] == cur_pt,
                    cost@[gi as int] == Some(gc),
                    walk_from(moves, col, obs, *start, *goal, cur_pt, positions@),
                    positions@.len() > 0 ==> positions@.last() == *goal,
                    positions@.len() == 0 ==> cur_pt == *goal && cur == gi,
                    gi == s_idx ==> positions@.len() == 0,
                    gi < n,
                    cost@[cur as int]->Some_0 + walk_cost(obs, positions@) <= gc,
                decreases cost@[cur as int]->Some_0,
            {
                let ghost old_pos = positions@;
                positions.push_front(cur_pt);
                let (u, up) = came[cur].unwrap();
                proof {
                    assert(positions@.drop_first() =~= old_pos);
                    assert forall|i: int| 0 < i < positions@.len() implies is_step(
                        moves,
                        #[trigger] positions@[i - 1],
                        positions@[i],
                    ) by {
                        if i > 1 {
                            assert(positions@[i - 1] == old_pos[i - 2]);
                            assert(positions@[i] == old_pos[i - 1]);
                        } else {
                            assert(positions@[1] == old_pos[0]);
                        }
                    }
                    assert forall|i: int| 0 <= i < positions@.len() implies passable(
                        col,
                        obs,
                        *start,
                        *goal,
                        #[trigger] positions@[i],
                    ) by {
                        if i > 0 {
                            assert(positions@[i] == old_pos[i - 1]);
                        }
                    }
                    if old_pos.len() > 0 {
                        assert(positions@.last() == old_pos.last());
                    }
                }
                cur = u;
                cur_pt = up;
            }
            Path { positions, cost: gc }
        },
    }
}

} // verus!

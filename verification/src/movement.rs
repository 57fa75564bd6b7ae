use vstd::prelude::*;

use sark_grids::Grid;

use crate::entity::EntityId;
use crate::geometry::{IVec2, add_fits};
use crate::grid::{
    cell_index, in_bounds, lemma_cell_index_in_range, lemma_cell_index_injective, occupant_at,
    new_occupant_grid, occupant_cells, occupant_of, occupant_size, occupants_ok, set_occupant,
};

verus! {

/// The size of the map in tiles.
#[derive(Clone, Copy, PartialEq, Eq, Structural, Debug)]
pub struct MapSize {
    pub width: u32,
    pub height: u32,
}

impl MapSize {
    /// 80 by 40 tiles.
    pub fn default() -> (r: MapSize)
        ensures
            r == (MapSize { width: 80, height: 40 }),
    {
        MapSize { width: 80, height: 40 }
    }
}

/// The grid of the entities that block movement, one at most per tile.
pub struct Collidables(pub Grid<Option<EntityId>>);

impl Collidables {
    /// An empty grid of blocking entities the size of the map.
    pub fn new(map_size: &MapSize) -> (r: Collidables)
        requires
            map_size.width <= i32::MAX,
            map_size.height <= i32::MAX,
            map_size.width * map_size.height <= i32::MAX,
        ensures
            occupants_ok(r.0),
            occupant_size(r.0) == (map_size.width, map_size.height),
            forall|i: int| 0 <= i < occupant_cells(r.0).len() ==> (#[trigger] occupant_cells(r.0)[i]) is None,
    {
        Collidables(new_occupant_grid(map_size.width, map_size.height))
    }
}

/// Sent to move an entity by an offset.
#[derive(Clone, Copy, PartialEq, Eq, Structural, Debug)]
pub struct PointMoveEvent {
    pub entity: EntityId,
    pub movement: IVec2,
}

/// Sent when a blocking entity has moved from one tile to another.
#[derive(Clone, Copy, PartialEq, Eq, Structural, Debug)]
pub struct CollidableChangeEvent {
    pub old_position: IVec2,
    pub new_position: IVec2,
    pub entity: EntityId,
}

/// Sent when an entity walks into a blocking one.
#[derive(Clone, Copy, PartialEq, Eq, Structural, Debug)]
pub struct BumpEvent {
    pub bumping_entity: EntityId,
    pub bumped_entity: EntityId,
}

/// What a move attempt comes to.
#[derive(Clone, Copy, PartialEq, Eq, Structural, Debug)]
pub enum MoveOutcome {
    /// The mover (which blocks movement) walked into a blocking entity.
    Bump(EntityId),
    /// The mover stays where it is.
    Stay,
    /// The mover moves to the new tile.
    Move(IVec2),
}

/// The outcome of moving from `pos` by `movement`: into an occupied tile is a
/// bump (for a mover that blocks movement itself) or nothing; off the map is
/// nothing; otherwise the mover moves there.
pub open spec fn spec_point_move(
    pos: IVec2,
    movement: IVec2,
    collides: bool,
    map_size: MapSize,
    collidables: Grid<Option<EntityId>>,
) -> MoveOutcome {
    let new_pos = IVec2 { x: (pos.x + movement.x) as i32, y: (pos.y + movement.y) as i32 };
    if in_bounds(occupant_size(collidables), new_pos) && occupant_of(collidables, new_pos) is Some {
        if collides {
            MoveOutcome::Bump(occupant_of(collidables, new_pos)->Some_0)
        } else {
            MoveOutcome::Stay
        }
    } else if new_pos.x >= map_size.width || new_pos.y >= map_size.height || new_pos.x <= -1
        || new_pos.y <= -1 {
        MoveOutcome::Stay
    } else {
        MoveOutcome::Move(new_pos)
    }
}

/// Decides a move of an entity at `pos` by `movement`.
pub fn do_point_move(
    pos: IVec2,
    movement: IVec2,
    collides: bool,
    map_size: &MapSize,
    collidables: &Collidables,
) -> (r: MoveOutcome)
    requires
        add_fits(pos, movement),
        occupants_ok(collidables.0),
    ensures
        r == spec_point_move(pos, movement, collides, *map_size, collidables.0),
{
    let new_pos = pos.add(movement);
    match occupant_at(&collidables.0, new_pos) {
        Some(Some(e)) => {
            if collides {
                return MoveOutcome::Bump(e);
            } else {
                return MoveOutcome::Stay;
            }
        },
        _ => {},
    }
    if new_pos.x as i64 >= map_size.width as i64 || new_pos.y as i64 >= map_size.height as i64
        || new_pos.x <= -1 || new_pos.y <= -1 {
        MoveOutcome::Stay
    } else {
        MoveOutcome::Move(new_pos)
    }
}

/// A move never lands on an occupied tile, and never leaves the map.
pub proof fn lemma_move_lands_on_free_tile(
    pos: IVec2,
    movement: IVec2,
    collides: bool,
    map_size: MapSize,
    collidables: Grid<Option<EntityId>>,
)
    requires
        occupant_size(collidables) == (map_size.width, map_size.height),
    ensures
        spec_point_move(pos, movement, collides, map_size, collidables) matches MoveOutcome::Move(
            p,
        ) ==> in_bounds(occupant_size(collidables), p) && occupant_of(collidables, p) is None,
{
}

/// The cells after the blocking entities that just appeared have been placed.
pub open spec fn place_added(cells: Seq<Option<EntityId>>, size: (u32, u32), added: Seq<(EntityId, IVec2)>) -> Seq<
    Option<EntityId>,
>
    decreases added.len(),
{
    if added.len() == 0 {
        cells
    } else {
        place_added(cells, size, added.drop_last()).update(
            cell_index(size, added.last().1),
            Some(added.last().0),
        )
    }
}

/// The cells after the moves have been recorded: each clears its old tile and
/// then marks its new one.
pub open spec fn record_moves(cells: Seq<Option<EntityId>>, size: (u32, u32), moves: Seq<CollidableChangeEvent>) -> Seq<
    Option<EntityId>,
>
    decreases moves.len(),
{
    if moves.len() == 0 {
        cells
    } else {
        let m = moves.last();
        record_moves(cells, size, moves.drop_last()).update(cell_index(size, m.old_position), None).update(
            cell_index(size, m.new_position),
            Some(m.entity),
        )
    }
}

/// Keeps the grid of blocking entities up to date: first the entities that
/// just became blocking are placed at their positions, then each move clears
/// the old tile and marks the new one.
pub fn update_collidables(
    collidables: &mut Collidables,
    added: &Vec<(EntityId, IVec2)>,
    changes: &Vec<CollidableChangeEvent>,
)
    requires
        occupants_ok(old(collidables).0),
        forall|i: int| 0 <= i < added@.len() ==> in_bounds(occupant_size(old(collidables).0), #[trigger] added@[i].1),
        forall|i: int|
            0 <= i < changes@.len() ==> in_bounds(occupant_size(old(collidables).0), #[trigger] changes@[i].old_position)
                && in_bounds(occupant_size(old(collidables).0), changes@[i].new_position),
    ensures
        occupant_size(final(collidables).0) == occupant_size(old(collidables).0),
        occupant_cells(final(collidables).0) == record_moves(
            place_added(occupant_cells(old(collidables).0), occupant_size(old(collidables).0), added@),
            occupant_size(old(collidables).0),
            changes@,
        ),
{
    let ghost size = occupant_size(collidables.0);
    let ghost c0 = occupant_cells(collidables.0);
    let mut i: usize = 0;
    while i < added.len()
        invariant
            i <= added@.len(),
            occupant_size(collidables.0) == size,
            occupants_ok(collidables.0),
            forall|k: int| 0 <= k < added@.len() ==> in_bounds(size, #[trigger] added@[k].1),
            occupant_cells(collidables.0) == place_added(c0, size, added@.take(i as int)),
        decreases added@.len() - i,
    {
        let (e, p) = added[i];
        assert(added@[i as int].1 == p);
        proof {
            lemma_cell_index_in_range(size, p);
        }
        set_occupant(&mut collidables.0, p, Some(e));
        assert(added@.take(i as int + 1).drop_last() =~= added@.take(i as int));
        i = i + 1;
    }
    assert(added@.take(added@.len() as int) =~= added@);
    let ghost c1 = occupant_cells(collidables.0);
    let mut j: usize = 0;
    while j < changes.len()
        invariant
            j <= changes@.len(),
            occupant_size(collidables.0) == size,
            occupants_ok(collidables.0),
            forall|k: int|
                0 <= k < changes@.len() ==> in_bounds(size, #[trigger] changes@[k].old_position)
                    && in_bounds(size, changes@[k].new_position),
            occupant_cells(collidables.0) == record_moves(c1, size, changes@.take(j as int)),
        decreases changes@.len() - j,
    {
        let ev = changes[j];
        assert(changes@[j as int] == ev);
        proof {
            lemma_cell_index_in_range(size, ev.old_position);
            lemma_cell_index_in_range(size, ev.new_position);
        }
        set_occupant(&mut collidables.0, ev.old_position, None);
        set_occupant(&mut collidables.0, ev.new_position, Some(ev.entity));
        assert(changes@.take(j as int + 1).drop_last() =~= changes@.take(j as int));
        j = j + 1;
    }
    assert(changes@.take(changes@.len() as int) =~= changes@);
}

/// After a recorded move the mover occupies its new tile, and its old tile
/// (if different) is free.
pub proof fn lemma_move_recorded(
    cells: Seq<Option<EntityId>>,
    size: (u32, u32),
    m: CollidableChangeEvent,
)
    requires
        cells.len() == size.0 * size.1,
        in_bounds(size, m.old_position),
        in_bounds(size, m.new_position),
    ensures
        record_moves(cells, size, seq![m])[cell_index(size, m.new_position)] == Some(m.entity),
        m.old_position != m.new_position ==> record_moves(cells, size, seq![m])[cell_index(
            size,
            m.old_position,
        )] is None,
        record_moves(cells, size, seq![m]).len() == cells.len(),
{
    lemma_cell_index_in_range(size, m.old_position);
    lemma_cell_index_in_range(size, m.new_position);
    if m.old_position != m.new_position {
        lemma_cell_index_injective(size, m.old_position, m.new_position);
    }
    assert(seq![m].drop_last() =~= Seq::<CollidableChangeEvent>::empty());
    reveal_with_fuel(record_moves, 2);
}

/// Whether the grid holds exactly the blocking entities at their positions:
/// each one's tile names it, and a tile that names an entity is that
/// entity's position.
pub open spec fn grid_matches(cells: Seq<Option<EntityId>>, size: (u32, u32), blockers: Map<EntityId, IVec2>) -> bool {
    &&& cells.len() == size.0 * size.1
    &&& forall|e: EntityId|
        #[trigger] blockers.contains_key(e) ==> in_bounds(size, blockers[e]) && cells[cell_index(size, blockers[e])]
            == Some(e)
    &&& forall|p: IVec2|
        in_bounds(size, p) && (#[trigger] cells[cell_index(size, p)]) is Some ==> blockers.contains_key(
            cells[cell_index(size, p)]->Some_0,
        ) && blockers[cells[cell_index(size, p)]->Some_0] == p
}

/// Whether the tile is free of every blocking entity but `e`.
pub open spec fn free_but(blockers: Map<EntityId, IVec2>, e: EntityId, p: IVec2) -> bool {
    forall|x: EntityId| #[trigger] blockers.contains_key(x) && x != e ==> blockers[x] != p
}

/// A recorded move keeps the grid matching the blocking entities: where the
/// mover stood at the move's old position and its new position, on the map,
/// was free of the others, the grid afterwards holds it at the new one.
pub proof fn lemma_move_keeps_grid(
    cells: Seq<Option<EntityId>>,
    size: (u32, u32),
    blockers: Map<EntityId, IVec2>,
    m: CollidableChangeEvent,
)
    requires
        grid_matches(cells, size, blockers),
        blockers.contains_key(m.entity),
        blockers[m.entity] == m.old_position,
        in_bounds(size, m.new_position),
        free_but(blockers, m.entity, m.new_position),
    ensures
        grid_matches(record_moves(cells, size, seq![m]), size, blockers.insert(m.entity, m.new_position)),
{
    let after = record_moves(cells, size, seq![m]);
    let nb = blockers.insert(m.entity, m.new_position);
    let io = cell_index(size, m.old_position);
    let inew = cell_index(size, m.new_position);
    lemma_cell_index_in_range(size, m.old_position);
    lemma_cell_index_in_range(size, m.new_position);
    assert(seq![m].drop_last() =~= Seq::<CollidableChangeEvent>::empty());
    reveal_with_fuel(record_moves, 2);
    assert(after == cells.update(io, None).update(inew, Some(m.entity)));
    assert forall|e: EntityId| #[trigger] nb.contains_key(e) implies in_bounds(size, nb[e]) && after[cell_index(size, nb[e])]
        == Some(e) by {
        if e != m.entity {
            assert(blockers.contains_key(e));
            assert(blockers[e] != m.new_position);
            assert(cells[cell_index(size, blockers[e])] == Some(e));
            if blockers[e] == m.old_position {
                assert(false);
            }
            lemma_cell_index_injective(size, blockers[e], m.old_position);
            lemma_cell_index_injective(size, blockers[e], m.new_position);
            lemma_cell_index_in_range(size, blockers[e]);
        }
    }
    assert forall|p: IVec2| in_bounds(size, p) && (#[trigger] after[cell_index(size, p)]) is Some implies nb.contains_key(
        after[cell_index(size, p)]->Some_0,
    ) && nb[after[cell_index(size, p)]->Some_0] == p by {
        lemma_cell_index_in_range(size, p);
        if p == m.new_position {
        } else {
            lemma_cell_index_injective(size, p, m.new_position);
            if p == m.old_position {
            } else {
                lemma_cell_index_injective(size, p, m.old_position);
                assert(after[cell_index(size, p)] == cells[cell_index(size, p)]);
                let x = cells[cell_index(size, p)]->Some_0;
                assert(blockers.contains_key(x) && blockers[x] == p);
                if x == m.entity {
                    assert(false);
                }
            }
        }
    }
}

/// Placing a new blocking entity keeps the grid matching the blocking
/// entities: where it was not blocking yet and its tile, on the map, was
/// free, the grid afterwards holds it there too.
pub proof fn lemma_placing_keeps_grid(
    cells: Seq<Option<EntityId>>,
    size: (u32, u32),
    blockers: Map<EntityId, IVec2>,
    e: EntityId,
    p: IVec2,
)
    requires
        grid_matches(cells, size, blockers),
        !blockers.contains_key(e),
        in_bounds(size, p),
        free_but(blockers, e, p),
    ensures
        grid_matches(place_added(cells, size, seq![(e, p)]), size, blockers.insert(e, p)),
{
    let after = place_added(cells, size, seq![(e, p)]);
    let nb = blockers.insert(e, p);
    lemma_cell_index_in_range(size, p);
    assert(seq![(e, p)].drop_last() =~= Seq::<(EntityId, IVec2)>::empty());
    reveal_with_fuel(place_added, 2);
    assert(after == cells.update(cell_index(size, p), Some(e)));
    assert forall|x: EntityId| #[trigger] nb.contains_key(x) implies in_bounds(size, nb[x]) && after[cell_index(size, nb[x])]
        == Some(x) by {
        if x != e {
            assert(blockers.contains_key(x));
            lemma_cell_index_injective(size, blockers[x], p);
            lemma_cell_index_in_range(size, blockers[x]);
        }
    }
    assert forall|q: IVec2| in_bounds(size, q) && (#[trigger] after[cell_index(size, q)]) is Some implies nb.contains_key(
        after[cell_index(size, q)]->Some_0,
    ) && nb[after[cell_index(size, q)]->Some_0] == q by {
        lemma_cell_index_in_range(size, q);
        if q != p {
            lemma_cell_index_injective(size, q, p);
            let x = cells[cell_index(size, q)]->Some_0;
            assert(blockers.contains_key(x) && blockers[x] == q);
        }
    }
}

/// The blocking entities after the placements, in order.
pub open spec fn blockers_after_placing(blockers: Map<EntityId, IVec2>, added: Seq<(EntityId, IVec2)>) -> Map<
    EntityId,
    IVec2,
>
    decreases added.len(),
{
    if added.len() == 0 {
        blockers
    } else {
        blockers_after_placing(blockers, added.drop_last()).insert(added.last().0, added.last().1)
    }
}

/// Whether each placement, in order, puts an entity that is not blocking yet
/// on a tile of the map that no other blocking entity holds.
pub open spec fn placements_ok(blockers: Map<EntityId, IVec2>, size: (u32, u32), added: Seq<(EntityId, IVec2)>) -> bool
    decreases added.len(),
{
    if added.len() == 0 {
        true
    } else {
        let before = blockers_after_placing(blockers, added.drop_last());
        &&& placements_ok(blockers, size, added.drop_last())
        &&& !before.contains_key(added.last().0)
        &&& in_bounds(size, added.last().1)
        &&& free_but(before, added.last().0, added.last().1)
    }
}

/// The blocking entities after the moves, in order.
pub open spec fn blockers_after_moves(blockers: Map<EntityId, IVec2>, moves: Seq<CollidableChangeEvent>) -> Map<
    EntityId,
    IVec2,
>
    decreases moves.len(),
{
    if moves.len() == 0 {
        blockers
    } else {
        blockers_after_moves(blockers, moves.drop_last()).insert(moves.last().entity, moves.last().new_position)
    }
}

/// Whether each move, in order, is of a blocking entity from where it stands
/// to a tile of the map that no other blocking entity holds.
pub open spec fn moves_ok(blockers: Map<EntityId, IVec2>, size: (u32, u32), moves: Seq<CollidableChangeEvent>) -> bool
    decreases moves.len(),
{
    if moves.len() == 0 {
        true
    } else {
        let before = blockers_after_moves(blockers, moves.drop_last());
        let m = moves.last();
        &&& moves_ok(blockers, size, moves.drop_last())
        &&& before.contains_key(m.entity)
        &&& before[m.entity] == m.old_position
        &&& in_bounds(size, m.new_position)
        &&& free_but(before, m.entity, m.new_position)
    }
}

proof fn lemma_placements_keep_grid(
    cells: Seq<Option<EntityId>>,
    size: (u32, u32),
    blockers: Map<EntityId, IVec2>,
    added: Seq<(EntityId, IVec2)>,
)
    requires
        grid_matches(cells, size, blockers),
        placements_ok(blockers, size, added),
    ensures
        grid_matches(place_added(cells, size, added), size, blockers_after_placing(blockers, added)),
    decreases added.len(),
{
    if added.len() > 0 {
        let prev = place_added(cells, size, added.drop_last());
        lemma_placements_keep_grid(cells, size, blockers, added.drop_last());
        lemma_placing_keeps_grid(
            prev,
            size,
            blockers_after_placing(blockers, added.drop_last()),
            added.last().0,
            added.last().1,
        );
        assert(seq![(added.last().0, added.last().1)].drop_last() =~= Seq::<(EntityId, IVec2)>::empty());
        reveal_with_fuel(place_added, 2);
    }
}

proof fn lemma_moves_keep_grid(
    cells: Seq<Option<EntityId>>,
    size: (u32, u32),
    blockers: Map<EntityId, IVec2>,
    moves: Seq<CollidableChangeEvent>,
)
    requires
        grid_matches(cells, size, blockers),
        moves_ok(blockers, size, moves),
    ensures
        grid_matches(record_moves(cells, size, moves), size, blockers_after_moves(blockers, moves)),
    decreases moves.len(),
{
    if moves.len() > 0 {
        let prev = record_moves(cells, size, moves.drop_last());
        lemma_moves_keep_grid(cells, size, blockers, moves.drop_last());
        lemma_move_keeps_grid(prev, size, blockers_after_moves(blockers, moves.drop_last()), moves.last());
        assert(seq![moves.last()].drop_last() =~= Seq::<CollidableChangeEvent>::empty());
        reveal_with_fuel(record_moves, 2);
    }
}

/// `update_collidables` keeps the grid matching the blocking entities: where
/// the grid held exactly the blocking entities at their positions, the new
/// ones are placed on free tiles of the map and then the moves take blocking
/// entities from where they stand to free tiles of the map, the grid it
/// leaves holds exactly the blocking entities at their new positions.
pub proof fn lemma_update_collidables_keeps_grid(
    cells: Seq<Option<EntityId>>,
    size: (u32, u32),
    blockers: Map<EntityId, IVec2>,
    added: Seq<(EntityId, IVec2)>,
    moves: Seq<CollidableChangeEvent>,
)
    requires
        grid_matches(cells, size, blockers),
        placements_ok(blockers, size, added),
        moves_ok(blockers_after_placing(blockers, added), size, moves),
    ensures
        grid_matches(
            record_moves(place_added(cells, size, added), size, moves),
            size,
            blockers_after_moves(blockers_after_placing(blockers, added), moves),
        ),
{
    lemma_placements_keep_grid(cells, size, blockers, added);
    lemma_moves_keep_grid(place_added(cells, size, added), size, blockers_after_placing(blockers, added), moves);
}

/// Moving is complete: a step onto a tile of the map that no blocking entity
/// holds is always taken, whether or not the mover blocks movement itself.
pub proof fn lemma_free_tile_is_entered(
    pos: IVec2,
    movement: IVec2,
    collides: bool,
    map_size: MapSize,
    collidables: Grid<Option<EntityId>>,
    new_pos: IVec2,
)
    requires
        occupant_size(collidables) == (map_size.width, map_size.height),
        new_pos.x == pos.x + movement.x,
        new_pos.y == pos.y + movement.y,
        0 <= new_pos.x < map_size.width,
        0 <= new_pos.y < map_size.height,
        occupant_of(collidables, new_pos) is None,
    ensures
        spec_point_move(pos, movement, collides, map_size, collidables) == MoveOutcome::Move(new_pos),
{
}

/// A blocking mover that steps onto a tile held by a blocking entity bumps
/// into that entity; a mover that does not block stays put.
pub proof fn lemma_occupied_tile_is_bumped(
    pos: IVec2,
    movement: IVec2,
    collides: bool,
    map_size: MapSize,
    collidables: Grid<Option<EntityId>>,
    new_pos: IVec2,
    e: EntityId,
)
    requires
        occupant_size(collidables) == (map_size.width, map_size.height),
        new_pos.x == pos.x + movement.x,
        new_pos.y == pos.y + movement.y,
        0 <= new_pos.x < map_size.width,
        0 <= new_pos.y < map_size.height,
        occupant_of(collidables, new_pos) == Some(e),
    ensures
        spec_point_move(pos, movement, collides, map_size, collidables) == (if collides {
            MoveOutcome::Bump(e)
        } else {
            MoveOutcome::Stay
        }),
{
}

} // verus!

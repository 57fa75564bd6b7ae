use vstd::prelude::*;

use sark_grids::Grid;

use crate::entity::EntityId;
use crate::geometry::IVec2;

verus! {

/// `sark_grids::Grid`, a rectangle of cells stored row by row.
#[verifier::external_type_specification]
#[verifier::external_body]
#[verifier::reject_recursive_types(T)]
pub struct ExGrid<T>(Grid<T>);

/// The cells of a grid of occupants, row by row.
pub uninterp spec fn occupant_cells(g: Grid<Option<EntityId>>) -> Seq<Option<EntityId>>;

/// The width and height a grid of occupants was made with.
pub uninterp spec fn occupant_size(g: Grid<Option<EntityId>>) -> (u32, u32);

/// The cells of a grid of weights, row by row.
pub uninterp spec fn weight_cells(g: Grid<u32>) -> Seq<u32>;

/// The width and height a grid of weights was made with.
pub uninterp spec fn weight_size(g: Grid<u32>) -> (u32, u32);

/// Whether the point lies in a grid of the given size.
pub open spec fn in_bounds(size: (u32, u32), p: IVec2) -> bool {
    0 <= p.x < size.0 && 0 <= p.y < size.1
}

/// The row-by-row index of a point of a grid of the given size.
pub open spec fn cell_index(size: (u32, u32), p: IVec2) -> int {
    p.y * size.0 + p.x
}

/// Whether a grid of the given size holds exactly `len` cells and has sides
/// that fit in an `i32`.
pub open spec fn grid_shape_ok(size: (u32, u32), len: nat) -> bool {
    &&& size.0 <= i32::MAX
    &&& size.1 <= i32::MAX
    &&& size.0 * size.1 <= i32::MAX
    &&& len == size.0 * size.1
}

/// A point inside a grid has an index among its cells.
pub proof fn lemma_cell_index_in_range(size: (u32, u32), p: IVec2)
    requires
        in_bounds(size, p),
    ensures
        0 <= cell_index(size, p) < size.0 * size.1,
{
    assert(p.y * size.0 + p.x < size.0 * size.1) by (nonlinear_arith)
        requires
            0 <= p.x < size.0,
            0 <= p.y < size.1,
    ;
    assert(0 <= p.y * size.0) by (nonlinear_arith)
        requires
            0 <= p.y,
    ;
}

/// Two distinct points of a grid have distinct indices.
pub proof fn lemma_cell_index_injective(size: (u32, u32), p: IVec2, q: IVec2)
    requires
        in_bounds(size, p),
        in_bounds(size, q),
        p != q,
    ensures
        cell_index(size, p) != cell_index(size, q),
{
    if p.y == q.y {
    } else if p.y < q.y {
        assert(p.y * size.0 + size.0 <= q.y * size.0) by (nonlinear_arith)
            requires
                p.y < q.y,
                size.0 >= 0,
        ;
    } else {
        assert(q.y * size.0 + size.0 <= p.y * size.0) by (nonlinear_arith)
            requires
                q.y < p.y,
                size.0 >= 0,
        ;
    }
}

/// A new grid of empty cells (`Grid::new`).
#[verifier::external_body]
pub(crate) fn new_occupant_grid(width: u32, height: u32) -> (g: Grid<Option<EntityId>>)
    requires
        width <= i32::MAX,
        height <= i32::MAX,
        width * height <= i32::MAX,
    ensures
        occupant_size(g) == (width, height),
        occupant_cells(g) == Seq::new((width * height) as nat, |i: int| None::<EntityId>),
{
    Grid::new([width, height])
}

/// A copy of a grid of occupants (`Grid::clone`).
#[verifier::external_body]
pub(crate) fn clone_occupant_grid(g: &Grid<Option<EntityId>>) -> (r: Grid<Option<EntityId>>)
    ensures
        occupant_size(r) == occupant_size(*g),
        occupant_cells(r) == occupant_cells(*g),
{
    g.clone()
}

/// The width and height of a grid of occupants (`SizedGrid::size`).
#[verifier::external_body]
pub(crate) fn occupant_grid_size(g: &Grid<Option<EntityId>>) -> (r: (u32, u32))
    ensures
        r == occupant_size(*g),
{
    let s = sark_grids::SizedGrid::size(g);
    (s.x, s.y)
}

/// The cell at a point, or `None` outside the grid (`Grid::get`).
#[verifier::external_body]
pub(crate) fn occupant_at(g: &Grid<Option<EntityId>>, p: IVec2) -> (r: Option<Option<EntityId>>)
    requires
        grid_shape_ok(occupant_size(*g), occupant_cells(*g).len()),
    ensures
        r == (if in_bounds(occupant_size(*g), p) {
            Some(occupant_cells(*g)[cell_index(occupant_size(*g), p)])
        } else {
            None
        }),
{
    g.get([p.x, p.y]).copied()
}

/// Sets the cell at a point inside the grid (`Grid::index_mut`).
#[verifier::external_body]
pub(crate) fn set_occupant(g: &mut Grid<Option<EntityId>>, p: IVec2, v: Option<EntityId>)
    requires
        grid_shape_ok(occupant_size(*old(g)), occupant_cells(*old(g)).len()),
        in_bounds(occupant_size(*old(g)), p),
    ensures
        occupant_size(*final(g)) == occupant_size(*old(g)),
        occupant_cells(*final(g)) == occupant_cells(*old(g)).update(
            cell_index(occupant_size(*old(g)), p),
            v,
        ),
{
    g[[p.x, p.y]] = v;
}

/// A new grid with every cell holding the value (`Grid::filled`).
#[verifier::external_body]
pub(crate) fn filled_weight_grid(value: u32, width: u32, height: u32) -> (g: Grid<u32>)
    requires
        width <= i32::MAX,
        height <= i32::MAX,
        width * height <= i32::MAX,
    ensures
        weight_size(g) == (width, height),
        weight_cells(g) == Seq::new((width * height) as nat, |i: int| value),
{
    Grid::filled(value, [width, height])
}

/// The cell at a point, or `None` outside the grid (`Grid::get`).
#[verifier::external_body]
pub(crate) fn weight_at(g: &Grid<u32>, p: IVec2) -> (r: Option<u32>)
    requires
        grid_shape_ok(weight_size(*g), weight_cells(*g).len()),
    ensures
        r == (if in_bounds(weight_size(*g), p) {
            Some(weight_cells(*g)[cell_index(weight_size(*g), p)])
        } else {
            None
        }),
{
    g.get([p.x, p.y]).copied()
}

/// Sets the cell at a point inside the grid (`Grid::index_mut`).
#[verifier::external_body]
pub(crate) fn set_weight(g: &mut Grid<u32>, p: IVec2, v: u32)
    requires
        grid_shape_ok(weight_size(*old(g)), weight_cells(*old(g)).len()),
        in_bounds(weight_size(*old(g)), p),
    ensures
        weight_size(*final(g)) == weight_size(*old(g)),
        weight_cells(*final(g)) == weight_cells(*old(g)).update(cell_index(weight_size(*old(g)), p), v),
{
    g[[p.x, p.y]] = v;
}

/// Whether a grid of occupants has the shape it was made with.
pub open spec fn occupants_ok(g: Grid<Option<EntityId>>) -> bool {
    grid_shape_ok(occupant_size(g), occupant_cells(g).len())
}

/// Whether a grid of weights has the shape it was made with.
pub open spec fn weights_ok(g: Grid<u32>) -> bool {
    grid_shape_ok(weight_size(g), weight_cells(g).len())
}

/// The occupant of a point inside a grid.
pub open spec fn occupant_of(g: Grid<Option<EntityId>>, p: IVec2) -> Option<EntityId> {
    occupant_cells(g)[cell_index(occupant_size(g), p)]
}

/// The weight of a point inside a grid.
pub open spec fn weight_of(g: Grid<u32>, p: IVec2) -> u32 {
    weight_cells(g)[cell_index(weight_size(g), p)]
}

} // verus!

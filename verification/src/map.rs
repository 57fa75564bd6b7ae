use vstd::prelude::*;

use crate::color::Palette;
use crate::geometry::{IVec2, Position, Rectangle};
use crate::movement::MapSize;
use crate::rendering::{Renderable, Tile};
use crate::rng::random_in_range;

verus! {

/// What a map tile is made of.
#[derive(Clone, Copy, PartialEq, Eq, Structural, Debug)]
pub enum TileKind {
    Wall,
    Floor,
}

/// The tiles of a map, row by row.
#[derive(Clone)]
pub struct TileMap {
    pub width: u32,
    pub height: u32,
    pub tiles: Vec<TileKind>,
}

/// The rooms of the map, in the order they were laid out.
#[derive(Clone)]
pub struct Rooms(pub Vec<Rectangle>);

/// Marks the system that lays out the map.
pub struct MapPlugin;

pub open spec fn idx(width: int, x: int, y: int) -> int {
    y * width + x
}

proof fn lemma_idx(width: int, height: int, x: int, y: int)
    requires
        0 <= x < width,
        0 <= y < height,
    ensures
        0 <= idx(width, x, y) < width * height,
{
    assert(y * width + x < width * height) by (nonlinear_arith)
        requires
            0 <= x < width,
            0 <= y < height,
    ;
    assert(0 <= y * width) by (nonlinear_arith)
        requires
            0 <= y,
            0 <= width,
    ;
}

proof fn lemma_idx_injective(width: int, x1: int, y1: int, x2: int, y2: int)
    requires
        0 <= x1 < width,
        0 <= x2 < width,
        (x1, y1) != (x2, y2),
    ensures
        idx(width, x1, y1) != idx(width, x2, y2),
{
    if y1 < y2 {
        assert(y1 * width + width <= y2 * width) by (nonlinear_arith)
            requires
                y1 < y2,
                width >= 0,
        ;
    } else if y2 < y1 {
        assert(y2 * width + width <= y1 * width) by (nonlinear_arith)
            requires
                y2 < y1,
                width >= 0,
        ;
    }
}

impl TileMap {
    /// Whether the map holds one tile per cell and has sides that fit an `i32`.
    pub open spec fn wf(&self) -> bool {
        &&& self.width <= i32::MAX
        &&& self.height <= i32::MAX
        &&& self.tiles@.len() == self.width * self.height
    }

    /// The tile at a point inside the map.
    pub open spec fn at(&self, x: int, y: int) -> TileKind {
        self.tiles@[idx(self.width as int, x, y)]
    }

    pub open spec fn contains_point(&self, x: int, y: int) -> bool {
        0 <= x < self.width && 0 <= y < self.height
    }

    /// A map of the given size made of one kind of tile.
    pub fn filled(width: u32, height: u32, kind: TileKind) -> (r: TileMap)
        requires
            width <= i32::MAX,
            height <= i32::MAX,
            width * height <= i32::MAX,
        ensures
            r.wf(),
            r.width == width,
            r.height == height,
            forall|x: int, y: int| r.contains_point(x, y) ==> r.at(x, y) == kind,
    {
        let n = width as usize * height as usize;
        let mut tiles: Vec<TileKind> = Vec::new();
        let mut i: usize = 0;
        while i < n
            invariant
                i <= n,
                tiles@.len() == i,
                forall|k: int| 0 <= k < i ==> tiles@[k] == kind,
            decreases n - i,
        {
            tiles.push(kind);
            i = i + 1;
        }
        let r = TileMap { width, height, tiles };
        assert forall|x: int, y: int| r.contains_point(x, y) implies r.at(x, y) == kind by {
            lemma_idx(width as int, height as int, x, y);
        }
        r
    }

    /// The tile at a point, or `None` outside the map.
    pub fn get(&self, x: i32, y: i32) -> (r: Option<TileKind>)
        requires
            self.wf(),
        ensures
            r == (if self.contains_point(x as int, y as int) {
                Some(self.at(x as int, y as int))
            } else {
                None
            }),
    {
        if x < 0 || y < 0 || x as u32 >= self.width || y as u32 >= self.height {
            None
        } else {
            let yy = y as usize;
            let ww = self.width as usize;
            proof {
                lemma_idx(self.width as int, self.height as int, x as int, y as int);
                assert(yy * ww <= idx(self.width as int, x as int, y as int));
            }
            let n = self.tiles.len();
            assert(idx(self.width as int, x as int, y as int) < n);
            Some(self.tiles[yy * ww + x as usize])
        }
    }

    fn set(&mut self, x: i32, y: i32, kind: TileKind)
        requires
            old(self).wf(),
            old(self).contains_point(x as int, y as int),
        ensures
            final(self).wf(),
            final(self).width == old(self).width,
            final(self).height == old(self).height,
            forall|a: int, b: int|
                final(self).contains_point(a, b) ==> final(self).at(a, b) == (if a == x && b == y {
                    kind
                } else {
                    old(self).at(a, b)
                }),
    {
        let yy = y as usize;
        let ww = self.width as usize;
        proof {
            lemma_idx(self.width as int, self.height as int, x as int, y as int);
            assert(yy * ww <= idx(self.width as int, x as int, y as int));
        }
        let n = self.tiles.len();
        assert(idx(self.width as int, x as int, y as int) < n);
        let i = yy * ww + x as usize;
        self.tiles.set(i, kind);
        proof {
            assert forall|a: int, b: int| self.contains_point(a, b) implies self.at(a, b) == (if a
                == x && b == y {
                kind
            } else {
                old(self).at(a, b)
            }) by {
                lemma_idx(self.width as int, self.height as int, a, b);
                if a != x || b != y {
                    lemma_idx_injective(self.width as int, a, b, x as int, y as int);
                }
            }
        }
    }
}

/// Whether the rectangle lies inside the map.
pub open spec fn rect_inside(map: TileMap, rect: Rectangle) -> bool {
    0 <= rect.pos1.x && rect.pos2.x < map.width && 0 <= rect.pos1.y && rect.pos2.y < map.height
}

/// Fills every tile of the rectangle (corners included) with the kind.
pub fn fill_rect(map: &mut TileMap, kind: TileKind, rect: &Rectangle)
    requires
        old(map).wf(),
        rect_inside(*old(map), *rect),
    ensures
        final(map).wf(),
        final(map).width == old(map).width,
        final(map).height == old(map).height,
        forall|a: int, b: int|
            final(map).contains_point(a, b) ==> final(map).at(a, b) == (if rect.contains(
                (IVec2 { x: a as i32, y: b as i32 }),
            ) {
                kind
            } else {
                old(map).at(a, b)
            }),
{
    let ghost m0 = *map;
    let mut y = rect.pos1.y;
    while y <= rect.pos2.y
        invariant
            map.wf(),
            map.width == m0.width,
            map.height == m0.height,
            rect_inside(m0, *rect),
            rect.pos1.y <= y,
            y == rect.pos1.y || y <= rect.pos2.y + 1,
            forall|a: int, b: int|
                map.contains_point(a, b) ==> map.at(a, b) == (if rect.pos1.x <= a <= rect.pos2.x
                    && rect.pos1.y <= b < y {
                    kind
                } else {
                    m0.at(a, b)
                }),
        decreases rect.pos2.y + 1 - y,
    {
        let mut x = rect.pos1.x;
        while x <= rect.pos2.x
            invariant
                map.wf(),
                map.width == m0.width,
                map.height == m0.height,
                rect_inside(m0, *rect),
                rect.pos1.y <= y <= rect.pos2.y,
                rect.pos1.x <= x,
                x == rect.pos1.x || x <= rect.pos2.x + 1,
                forall|a: int, b: int|
                    map.contains_point(a, b) ==> map.at(a, b) == (if (rect.pos1.x <= a <= rect.pos2.x
                        && rect.pos1.y <= b < y) || (b == y && rect.pos1.x <= a < x) {
                        kind
                    } else {
                        m0.at(a, b)
                    }),
            decreases rect.pos2.x + 1 - x,
        {
            map.set(x, y, kind);
            x = x + 1;
        }
        y = y + 1;
    }
}

/// Fills the tiles of row `y` from column `x1` to column `x2` (either order).
pub fn fill_row(map: &mut TileMap, kind: TileKind, x1: i32, x2: i32, y: i32)
    requires
        old(map).wf(),
        old(map).contains_point(x1 as int, y as int),
        old(map).contains_point(x2 as int, y as int),
    ensures
        final(map).wf(),
        final(map).width == old(map).width,
        final(map).height == old(map).height,
        forall|a: int, b: int|
            final(map).contains_point(a, b) ==> final(map).at(a, b) == (if b == y && (x1 <= a <= x2
                || x2 <= a <= x1) {
                kind
            } else {
                old(map).at(a, b)
            }),
{
    let ghost m0 = *map;
    let lo = if x1 < x2 {
        x1
    } else {
        x2
    };
    let hi = if x1 < x2 {
        x2
    } else {
        x1
    };
    let mut x = lo;
    while x <= hi
        invariant
            map.wf(),
            map.width == m0.width,
            map.height == m0.height,
            m0.contains_point(lo as int, y as int),
            m0.contains_point(hi as int, y as int),
            lo <= x <= hi + 1,
            forall|a: int, b: int|
                map.contains_point(a, b) ==> map.at(a, b) == (if b == y && lo <= a < x {
                    kind
                } else {
                    m0.at(a, b)
                }),
        decreases hi + 1 - x,
    {
        map.set(x, y, kind);
        x = x + 1;
    }
}

/// Fills the tiles of column `x` from row `y1` to row `y2` (either order).
pub fn fill_column(map: &mut TileMap, kind: TileKind, y1: i32, y2: i32, x: i32)
    requires
        old(map).wf(),
        old(map).contains_point(x as int, y1 as int),
        old(map).contains_point(x as int, y2 as int),
    ensures
        final(map).wf(),
        final(map).width == old(map).width,
        final(map).height == old(map).height,
        forall|a: int, b: int|
            final(map).contains_point(a, b) ==> final(map).at(a, b) == (if a == x && (y1 <= b <= y2
                || y2 <= b <= y1) {
                kind
            } else {
                old(map).at(a, b)
            }),
{
    let ghost m0 = *map;
    let lo = if y1 < y2 {
        y1
    } else {
        y2
    };
    let hi = if y1 < y2 {
        y2
    } else {
        y1
    };
    let mut y = lo;
    while y <= hi
        invariant
            map.wf(),
            map.width == m0.width,
            map.height == m0.height,
            m0.contains_point(x as int, lo as int),
            m0.contains_point(x as int, hi as int),
            lo <= y <= hi + 1,
            forall|a: int, b: int|
                map.contains_point(a, b) ==> map.at(a, b) == (if a == x && lo <= b < y {
                    kind
                } else {
                    m0.at(a, b)
                }),
        decreases hi + 1 - y,
    {
        map.set(x, y, kind);
        y = y + 1;
    }
}

/// The wall positions of a straight line between two points that share a
/// column or a row (both ends included); empty for any other pair.
pub fn draw_line_cardinal(pos1: IVec2, pos2: IVec2) -> (r: Vec<IVec2>)
    ensures
        pos1.x == pos2.x ==> r@.len() == (if pos1.y <= pos2.y {
            pos2.y - pos1.y + 1
        } else {
            0
        }) && forall|i: int| 0 <= i < r@.len() ==> #[trigger] r@[i] == (IVec2 { x: pos1.x, y: (pos1.y + i) as i32 }),
        pos1.x != pos2.x && pos1.y == pos2.y ==> r@.len() == (if pos1.x <= pos2.x {
            pos2.x - pos1.x + 1
        } else {
            0
        }) && forall|i: int| 0 <= i < r@.len() ==> #[trigger] r@[i] == (IVec2 { x: (pos1.x + i) as i32, y: pos1.y }),
        pos1.x != pos2.x && pos1.y != pos2.y ==> r@.len() == 0,
{
    let mut r: Vec<IVec2> = Vec::new();
    if pos1.x == pos2.x {
        let mut i = pos1.y as i64;
        while i <= pos2.y as i64
            invariant
                pos1.y <= i,
                i == pos1.y || i <= pos2.y + 1,
                r@.len() == i - pos1.y,
                forall|k: int| 0 <= k < r@.len() ==> #[trigger] r@[k] == (IVec2 { x: pos1.x, y: (pos1.y + k) as i32 }),
            decreases pos2.y + 1 - i,
        {
            r.push(IVec2 { x: pos1.x, y: i as i32 });
            i = i + 1;
        }
    } else if pos1.y == pos2.y {
        let mut i = pos1.x as i64;
        while i <= pos2.x as i64
            invariant
                pos1.x <= i,
                i == pos1.x || i <= pos2.x + 1,
                r@.len() == i - pos1.x,
                forall|k: int| 0 <= k < r@.len() ==> #[trigger] r@[k] == (IVec2 { x: (pos1.x + k) as i32, y: pos1.y }),
            decreases pos2.x + 1 - i,
        {
            r.push(IVec2 { x: i as i32, y: pos1.y });
            i = i + 1;
        }
    }
    r
}

/// Whether the tile lies on the edge of the map.
pub open spec fn on_border(map: TileMap, x: int, y: int) -> bool {
    map.contains_point(x, y) && (x == 0 || y == 0 || x == map.width - 1 || y == map.height - 1)
}

/// Whether the room lies inside the map, clear of its edge, with sides of 6
/// to 9 tiles beyond its first corner.
pub open spec fn room_placed(map_size: MapSize, room: Rectangle) -> bool {
    &&& 1 <= room.pos1.x
    &&& 1 <= room.pos1.y
    &&& room.pos2.x <= map_size.width - 2
    &&& room.pos2.y <= map_size.height - 2
    &&& 6 <= room.pos2.x - room.pos1.x <= 9
    &&& 6 <= room.pos2.y - room.pos1.y <= 9
}

/// Whether every tile of row `y` between columns `x1` and `x2` (in either
/// order) is floor.
pub open spec fn row_floored(map: TileMap, y: int, x1: int, x2: int) -> bool {
    forall|x: int| (x1 <= x <= x2 || x2 <= x <= x1) ==> #[trigger] map.at(x, y) == TileKind::Floor
}

/// Whether every tile of column `x` between rows `y1` and `y2` (in either
/// order) is floor.
pub open spec fn column_floored(map: TileMap, x: int, y1: int, y2: int) -> bool {
    forall|y: int| (y1 <= y <= y2 || y2 <= y <= y1) ==> #[trigger] map.at(x, y) == TileKind::Floor
}

/// Whether an L-shaped passage of floor joins `a` to `b`: along the row of
/// `a` and then the column of `b`, or along the column of `a` and then the
/// row of `b`.
pub open spec fn joined(map: TileMap, a: IVec2, b: IVec2) -> bool {
    ||| row_floored(map, a.y as int, a.x as int, b.x as int) && column_floored(map, b.x as int, a.y as int, b.y as int)
    ||| column_floored(map, a.x as int, a.y as int, b.y as int) && row_floored(map, b.y as int, a.x as int, b.x as int)
}

/// Whether every floor tile of `m1` is still floor in `m2`, a map of the same
/// size.
pub open spec fn floor_kept(m1: TileMap, m2: TileMap) -> bool {
    &&& m1.width == m2.width
    &&& m1.height == m2.height
    &&& forall|x: int, y: int|
        m1.contains_point(x, y) && #[trigger] m1.at(x, y) == TileKind::Floor ==> m2.at(x, y) == TileKind::Floor
}

/// A passage of floor stays a passage while floor is kept.
proof fn lemma_joined_kept(m1: TileMap, m2: TileMap, a: IVec2, b: IVec2)
    requires
        floor_kept(m1, m2),
        m1.contains_point(a.x as int, a.y as int),
        m1.contains_point(b.x as int, b.y as int),
        joined(m1, a, b),
    ensures
        joined(m2, a, b),
{
    assert forall|x: int, y: int| m1.contains_point(x, y) && m1.at(x, y) == TileKind::Floor implies #[trigger] m2.at(
        x,
        y,
    ) == TileKind::Floor by {}
    if row_floored(m1, a.y as int, a.x as int, b.x as int) && column_floored(m1, b.x as int, a.y as int, b.y as int) {
        assert forall|x: int| (a.x <= x <= b.x || b.x <= x <= a.x) implies #[trigger] m2.at(x, a.y as int)
            == TileKind::Floor by {
            assert(m1.at(x, a.y as int) == TileKind::Floor);
        }
        assert forall|y: int| (a.y <= y <= b.y || b.y <= y <= a.y) implies #[trigger] m2.at(b.x as int, y)
            == TileKind::Floor by {
            assert(m1.at(b.x as int, y) == TileKind::Floor);
        }
    } else {
        assert forall|y: int| (a.y <= y <= b.y || b.y <= y <= a.y) implies #[trigger] m2.at(a.x as int, y)
            == TileKind::Floor by {
            assert(m1.at(a.x as int, y) == TileKind::Floor);
        }
        assert forall|x: int| (a.x <= x <= b.x || b.x <= x <= a.x) implies #[trigger] m2.at(x, b.y as int)
            == TileKind::Floor by {
            assert(m1.at(x, b.y as int) == TileKind::Floor);
        }
    }
}

/// Keeping floor is transitive.
proof fn lemma_floor_kept_trans(m1: TileMap, m2: TileMap, m3: TileMap)
    requires
        floor_kept(m1, m2),
        floor_kept(m2, m3),
    ensures
        floor_kept(m1, m3),
{
    assert forall|x: int, y: int| m1.contains_point(x, y) && #[trigger] m1.at(x, y) == TileKind::Floor implies m3.at(
        x,
        y,
    ) == TileKind::Floor by {
        assert(m2.at(x, y) == TileKind::Floor);
    }
}

/// Whether each room after the first is joined to the room placed before it
/// by a passage of floor between their centres.
#[verifier::opaque]
pub open spec fn rooms_joined(map: TileMap, rooms: Seq<Rectangle>) -> bool {
    forall|i: int|
        0 < i < rooms.len() ==> joined(map, rooms[i - 1].spec_center(), (#[trigger] rooms[i]).spec_center())
}

/// Writing floor over a region keeps every floor tile.
proof fn lemma_floor_written(m0: TileMap, m1: TileMap, region: spec_fn(int, int) -> bool)
    requires
        m0.width == m1.width,
        m0.height == m1.height,
        forall|x: int, y: int|
            m1.contains_point(x, y) ==> #[trigger] m1.at(x, y) == (if region(x, y) {
                TileKind::Floor
            } else {
                m0.at(x, y)
            }),
    ensures
        floor_kept(m0, m1),
{
    assert forall|x: int, y: int| m0.contains_point(x, y) && #[trigger] m0.at(x, y) == TileKind::Floor implies m1.at(
        x,
        y,
    ) == TileKind::Floor by {
        assert(m1.contains_point(x, y));
    }
}

/// A row of floor and then a column of floor lay the first passage shape;
/// a column and then a row lay the second.
proof fn lemma_passage_laid(m0: TileMap, m1: TileMap, m2: TileMap, a: IVec2, b: IVec2, row_first: bool)
    requires
        m0.width == m1.width,
        m0.height == m1.height,
        m1.width == m2.width,
        m1.height == m2.height,
        m0.contains_point(a.x as int, a.y as int),
        m0.contains_point(b.x as int, b.y as int),
        row_first ==> forall|x: int, y: int|
            m1.contains_point(x, y) ==> #[trigger] m1.at(x, y) == (if y == a.y && (a.x <= x <= b.x || b.x <= x
                <= a.x) {
                TileKind::Floor
            } else {
                m0.at(x, y)
            }),
        row_first ==> forall|x: int, y: int|
            m2.contains_point(x, y) ==> #[trigger] m2.at(x, y) == (if x == b.x && (a.y <= y <= b.y || b.y <= y
                <= a.y) {
                TileKind::Floor
            } else {
                m1.at(x, y)
            }),
        !row_first ==> forall|x: int, y: int|
            m1.contains_point(x, y) ==> #[trigger] m1.at(x, y) == (if x == a.x && (a.y <= y <= b.y || b.y <= y
                <= a.y) {
                TileKind::Floor
            } else {
                m0.at(x, y)
            }),
        !row_first ==> forall|x: int, y: int|
            m2.contains_point(x, y) ==> #[trigger] m2.at(x, y) == (if y == b.y && (a.x <= x <= b.x || b.x <= x
                <= a.x) {
                TileKind::Floor
            } else {
                m1.at(x, y)
            }),
    ensures
        joined(m2, a, b),
        floor_kept(m0, m2),
{
    if row_first {
        lemma_floor_written(m0, m1, |x: int, y: int| y == a.y && (a.x <= x <= b.x || b.x <= x <= a.x));
        lemma_floor_written(m1, m2, |x: int, y: int| x == b.x && (a.y <= y <= b.y || b.y <= y <= a.y));
        assert forall|x: int| (a.x <= x <= b.x || b.x <= x <= a.x) implies #[trigger] m2.at(x, a.y as int)
            == TileKind::Floor by {
            assert(m1.at(x, a.y as int) == TileKind::Floor);
        }
        assert forall|y: int| (a.y <= y <= b.y || b.y <= y <= a.y) implies #[trigger] m2.at(b.x as int, y)
            == TileKind::Floor by {}
        assert(row_floored(m2, a.y as int, a.x as int, b.x as int));
        assert(column_floored(m2, b.x as int, a.y as int, b.y as int));
    } else {
        lemma_floor_written(m0, m1, |x: int, y: int| x == a.x && (a.y <= y <= b.y || b.y <= y <= a.y));
        lemma_floor_written(m1, m2, |x: int, y: int| y == b.y && (a.x <= x <= b.x || b.x <= x <= a.x));
        assert forall|y: int| (a.y <= y <= b.y || b.y <= y <= a.y) implies #[trigger] m2.at(a.x as int, y)
            == TileKind::Floor by {
            assert(m1.at(a.x as int, y) == TileKind::Floor);
        }
        assert forall|x: int| (a.x <= x <= b.x || b.x <= x <= a.x) implies #[trigger] m2.at(x, b.y as int)
            == TileKind::Floor by {}
        assert(column_floored(m2, a.x as int, a.y as int, b.y as int));
        assert(row_floored(m2, b.y as int, a.x as int, b.x as int));
    }
    lemma_floor_kept_trans(m0, m1, m2);
}

/// Adding a room joined to the last one keeps the rooms joined, on a map
/// that kept its floor.
proof fn lemma_rooms_joined_push(
    map_size: MapSize,
    m0: TileMap,
    m1: TileMap,
    rooms: Seq<Rectangle>,
    room: Rectangle,
)
    requires
        rooms_joined(m0, rooms),
        floor_kept(m0, m1),
        m0.width == map_size.width,
        m0.height == map_size.height,
        forall|i: int| 0 <= i < rooms.len() ==> room_placed(map_size, #[trigger] rooms[i]),
        rooms.len() > 0 ==> joined(m1, rooms.last().spec_center(), room.spec_center()),
    ensures
        rooms_joined(m1, rooms.push(room)),
{
    reveal(rooms_joined);
    let r2 = rooms.push(room);
    assert forall|i: int| 0 < i < r2.len() implies joined(m1, r2[i - 1].spec_center(), (#[trigger] r2[i]).spec_center()) by {
        if i < rooms.len() {
            assert(r2[i] == rooms[i]);
            assert(r2[i - 1] == rooms[i - 1]);
            assert(joined(m0, rooms[i - 1].spec_center(), rooms[i].spec_center()));
            assert(room_placed(map_size, rooms[i - 1]));
            assert(room_placed(map_size, rooms[i]));
            crate::geometry::lemma_center_inside(rooms[i - 1]);
            crate::geometry::lemma_center_inside(rooms[i]);
            lemma_joined_kept(m0, m1, rooms[i - 1].spec_center(), rooms[i].spec_center());
        } else {
            assert(r2[i - 1] == rooms.last());
        }
    }
}

/// How the rooms lie on a map: inside it and apart, every tile of a room is
/// floor, each room after the first is joined to the one before it by a
/// passage of floor, and the edge of the map is wall.
pub open spec fn rooms_laid(map_size: MapSize, map: TileMap, rooms: Seq<Rectangle>) -> bool {
    &&& map.wf()
    &&& map.width == map_size.width
    &&& map.height == map_size.height
    &&& forall|i: int| 0 <= i < rooms.len() ==> room_placed(map_size, #[trigger] rooms[i])
    &&& forall|i: int, j: int|
        0 <= i < j < rooms.len() ==> !(#[trigger] rooms[i]).spec_intersect(#[trigger] rooms[j])
    &&& forall|i: int, x: int, y: int|
        0 <= i < rooms.len() && #[trigger] rooms[i].contains(IVec2 { x: x as i32, y: y as i32 })
            && i32::MIN <= x <= i32::MAX && i32::MIN <= y <= i32::MAX ==> map.at(x, y)
            == TileKind::Floor
    &&& rooms_joined(map, rooms)
    &&& forall|x: int, y: int| on_border(map, x, y) ==> map.at(x, y) == TileKind::Wall
}

/// Whether `v` lies between `p` and `q` (in either order).
pub open spec fn between(v: int, p: int, q: int) -> bool {
    p <= v <= q || q <= v <= p
}

/// Whether the tile lies on the L-shaped passage from `a` to `b`: along the
/// row of `a` and then the column of `b`, or (where `row_first` is false)
/// along the column of `a` and then the row of `b`.
pub open spec fn on_passage(a: IVec2, b: IVec2, row_first: bool, x: int, y: int) -> bool {
    if row_first {
        (y == a.y && between(x, a.x as int, b.x as int)) || (x == b.x && between(y, a.y as int, b.y as int))
    } else {
        (x == a.x && between(y, a.y as int, b.y as int)) || (y == b.y && between(x, a.x as int, b.x as int))
    }
}

/// Whether the tile lies in one of the rooms or on one of the two L-shaped
/// passages between the centres of two rooms in a row.
pub open spec fn in_rooms_or_passages(rooms: Seq<Rectangle>, x: int, y: int) -> bool {
    ||| exists|i: int| 0 <= i < rooms.len() && (#[trigger] rooms[i]).contains(IVec2 { x: x as i32, y: y as i32 })
    ||| exists|i: int|
        0 < i < rooms.len() && (on_passage(rooms[i - 1].spec_center(), (#[trigger] rooms[i]).spec_center(), true, x, y)
            || on_passage(rooms[i - 1].spec_center(), rooms[i].spec_center(), false, x, y))
}

/// The laws of a generated map: the rooms are placed inside the map and do not
/// overlap, every tile of a room is floor, each room after the first is
/// joined to the one before it by a passage of floor, every floor tile lies
/// in a room or on such a passage (so the floor is one connected region that
/// holds every room), and the edge of the map is wall.
pub open spec fn map_laws(map_size: MapSize, map: TileMap, rooms: Seq<Rectangle>) -> bool {
    &&& rooms_laid(map_size, map, rooms)
    &&& forall|x: int, y: int|
        map.contains_point(x, y) && #[trigger] map.at(x, y) == TileKind::Floor ==> in_rooms_or_passages(rooms, x, y)
}

/// One attempt at a room: its width and height beyond its first corner, that
/// corner, and whether its passage to the room before runs along a row first.
#[derive(Clone, Copy, PartialEq, Eq, Structural, Debug)]
pub struct RoomDraw {
    pub w: i32,
    pub h: i32,
    pub x: i32,
    pub y: i32,
    pub horizontal_first: bool,
}

/// Whether the attempt is one the generator can draw on a map of this size:
/// sides of 6 to 9 beyond the first corner, and the room clear of the edge.
pub open spec fn draw_in_range(map_size: MapSize, d: RoomDraw) -> bool {
    &&& 6 <= d.w <= 9
    &&& 6 <= d.h <= 9
    &&& 1 <= d.x
    &&& d.x + d.w <= map_size.width - 2
    &&& 1 <= d.y
    &&& d.y + d.h <= map_size.height - 2
}

/// The room an attempt would lay.
pub open spec fn draw_room(d: RoomDraw) -> Rectangle {
    Rectangle { pos1: IVec2 { x: d.x, y: d.y }, pos2: IVec2 { x: (d.x + d.w) as i32, y: (d.y + d.h) as i32 } }
}

/// The attempts that become rooms, in order: each whose room overlaps none
/// of the rooms kept before it.
pub open spec fn kept_draws(draws: Seq<RoomDraw>) -> Seq<RoomDraw>
    decreases draws.len(),
{
    if draws.len() == 0 {
        Seq::empty()
    } else {
        let prev = kept_draws(draws.drop_last());
        if forall|j: int| 0 <= j < prev.len() ==> !draw_room(draws.last()).spec_intersect(draw_room(#[trigger] prev[j])) {
            prev.push(draws.last())
        } else {
            prev
        }
    }
}

/// The rooms the attempts lay.
pub open spec fn kept_rooms(draws: Seq<RoomDraw>) -> Seq<Rectangle> {
    kept_draws(draws).map_values(|d: RoomDraw| draw_room(d))
}

/// Whether the tile is floor once the kept attempts are laid: it lies in one
/// of their rooms, or on the passage (the shape the attempt's flag picks)
/// from the centre of a kept room to the centre of the next.
pub open spec fn floor_at(kept: Seq<RoomDraw>, x: int, y: int) -> bool
    decreases kept.len(),
{
    if kept.len() == 0 {
        false
    } else {
        ||| floor_at(kept.drop_last(), x, y)
        ||| draw_room(kept.last()).contains(IVec2 { x: x as i32, y: y as i32 })
        ||| kept.len() > 1 && on_passage(
            draw_room(kept[kept.len() - 2]).spec_center(),
            draw_room(kept.last()).spec_center(),
            kept.last().horizontal_first,
            x,
            y,
        )
    }
}

/// A floor tile of the kept attempts lies in a room or on a passage.
proof fn lemma_floor_in_rooms_or_passages(kept: Seq<RoomDraw>, x: int, y: int)
    requires
        floor_at(kept, x, y),
    ensures
        in_rooms_or_passages(kept.map_values(|d: RoomDraw| draw_room(d)), x, y),
    decreases kept.len(),
{
    let rooms = kept.map_values(|d: RoomDraw| draw_room(d));
    let n = kept.len() as int;
    if floor_at(kept.drop_last(), x, y) {
        lemma_floor_in_rooms_or_passages(kept.drop_last(), x, y);
        let prev = kept.drop_last().map_values(|d: RoomDraw| draw_room(d));
        assert(prev =~= rooms.drop_last());
        if exists|i: int| 0 <= i < prev.len() && (#[trigger] prev[i]).contains(IVec2 { x: x as i32, y: y as i32 }) {
            let i = choose|i: int| 0 <= i < prev.len() && (#[trigger] prev[i]).contains(IVec2 { x: x as i32, y: y as i32 });
            assert(rooms[i] == prev[i]);
        } else {
            let i = choose|i: int|
                0 < i < prev.len() && (on_passage(prev[i - 1].spec_center(), (#[trigger] prev[i]).spec_center(), true, x, y)
                    || on_passage(prev[i - 1].spec_center(), prev[i].spec_center(), false, x, y));
            assert(rooms[i] == prev[i] && rooms[i - 1] == prev[i - 1]);
        }
    } else if draw_room(kept.last()).contains(IVec2 { x: x as i32, y: y as i32 }) {
        assert(rooms[n - 1] == draw_room(kept.last()));
    } else {
        assert(rooms[n - 1] == draw_room(kept.last()));
        assert(rooms[n - 2] == draw_room(kept[n - 2]));
        if kept.last().horizontal_first {
            assert(on_passage(rooms[n - 2].spec_center(), rooms[n - 1].spec_center(), true, x, y));
        } else {
            assert(on_passage(rooms[n - 2].spec_center(), rooms[n - 1].spec_center(), false, x, y));
        }
    }
}

/// The tiles of column `x` from row 0 up to row `h - 1`.
pub open spec fn column_tiles(x: i32, h: int) -> Seq<IVec2> {
    Seq::new(h as nat, |i: int| IVec2 { x, y: i as i32 })
}

/// The tiles of row `y` from column 0 to column `w - 1`.
pub open spec fn row_tiles(y: i32, w: int) -> Seq<IVec2> {
    Seq::new(w as nat, |i: int| IVec2 { x: i as i32, y })
}

/// The edges of a map, in the order they are walled: the left and right
/// columns, then the top and bottom rows.
pub open spec fn map_edges(w: int, h: int) -> Seq<IVec2> {
    column_tiles(0, h) + column_tiles((w - 1) as i32, h) + row_tiles((h - 1) as i32, w) + row_tiles(0, w)
}

/// The walls of the simple map: its four edges (see `map_edges`), then a
/// hundred walls on tiles drawn at random.
pub fn simple_entity_map(map_size: &MapSize) -> (r: Vec<IVec2>)
    requires
        1 <= map_size.width <= i32::MAX,
        1 <= map_size.height <= i32::MAX,
    ensures
        ({
            let edges = map_edges(map_size.width as int, map_size.height as int);
            &&& r@.len() == edges.len() + 100
            &&& r@.subrange(0, edges.len() as int) == edges
            &&& forall|i: int|
                edges.len() <= i < r@.len() ==> 0 <= (#[trigger] r@[i]).x < map_size.width && 0 <= r@[i].y
                    < map_size.height
        }),
{
    let w = map_size.width as i32;
    let h = map_size.height as i32;
    let left = draw_line_cardinal(IVec2 { x: 0, y: 0 }, IVec2 { x: 0, y: h - 1 });
    let right = draw_line_cardinal(IVec2 { x: w - 1, y: 0 }, IVec2 { x: w - 1, y: h - 1 });
    let top = draw_line_cardinal(IVec2 { x: 0, y: h - 1 }, IVec2 { x: w - 1, y: h - 1 });
    let bottom = draw_line_cardinal(IVec2 { x: 0, y: 0 }, IVec2 { x: w - 1, y: 0 });
    assert(left@ =~= column_tiles(0, h as int));
    assert(right@ =~= column_tiles((w - 1) as i32, h as int));
    assert(top@ =~= row_tiles((h - 1) as i32, w as int));
    assert(bottom@ =~= row_tiles(0, w as int));
    let mut walls: Vec<IVec2> = Vec::new();
    walls.extend_from_slice(left.as_slice());
    walls.extend_from_slice(right.as_slice());
    walls.extend_from_slice(top.as_slice());
    walls.extend_from_slice(bottom.as_slice());
    let ghost edges = map_edges(w as int, h as int);
    assert(walls@ =~= edges);
    let mut k: usize = 0;
    while k < 100
        invariant
            k <= 100,
            w == map_size.width,
            h == map_size.height,
            1 <= w,
            1 <= h,
            walls@.len() == edges.len() + k,
            walls@.subrange(0, edges.len() as int) == edges,
            forall|i: int|
                edges.len() <= i < walls@.len() ==> 0 <= (#[trigger] walls@[i]).x < w && 0 <= walls@[i].y < h,
        decreases 100 - k,
    {
        let x = random_in_range(0, w as usize) as i32;
        let y = random_in_range(0, h as usize) as i32;
        let ghost before = walls@;
        walls.push(IVec2 { x, y });
        assert(walls@.subrange(0, edges.len() as int) =~= before.subrange(0, edges.len() as int));
        k = k + 1;
    }
    walls
}

/// Lays out a map of rooms joined by passages from the given attempts: the
/// map starts as wall; each attempt whose room overlaps none of the rooms
/// kept before it is kept, floored, and joined to the previous kept room by
/// an L-shaped passage between their centres, along a row first where its
/// flag says so and along a column first otherwise.
pub fn rooms_passages_from_draws(map_size: &MapSize, draws: &Vec<RoomDraw>) -> (r: (TileMap, Rooms))
    requires
        12 <= map_size.width,
        12 <= map_size.height,
        map_size.width * map_size.height <= i32::MAX,
        forall|i: int| 0 <= i < draws@.len() ==> draw_in_range(*map_size, #[trigger] draws@[i]),
    ensures
        map_laws(*map_size, r.0, r.1.0@),
        r.1.0@ == kept_rooms(draws@),
        forall|x: int, y: int|
            r.0.contains_point(x, y) ==> #[trigger] r.0.at(x, y) == (if floor_at(kept_draws(draws@), x, y) {
                TileKind::Floor
            } else {
                TileKind::Wall
            }),
{
    assert(map_size.width <= i32::MAX / 12 && map_size.height <= i32::MAX / 12) by (nonlinear_arith)
        requires
            12 <= map_size.width,
            12 <= map_size.height,
            map_size.width * map_size.height <= i32::MAX,
    ;
    let w_map = map_size.width as i32;
    let h_map = map_size.height as i32;
    let mut map = TileMap::filled(map_size.width, map_size.height, TileKind::Wall);
    let wall_rect = Rectangle::new(IVec2::new(0, 0), w_map - 1, h_map - 1);
    fill_rect(&mut map, TileKind::Wall, &wall_rect);
    let mut rooms: Vec<Rectangle> = Vec::new();
    let ghost mut kept: Seq<RoomDraw> = Seq::empty();
    assert(rooms_joined(map, rooms@)) by {
        reveal(rooms_joined);
    }
    assert(rooms@ =~= kept.map_values(|d: RoomDraw| draw_room(d)));
    let mut i: usize = 0;
    while i < draws.len()
        invariant
            i <= draws@.len(),
            w_map == map_size.width,
            h_map == map_size.height,
            12 <= map_size.width <= i32::MAX / 12,
            12 <= map_size.height <= i32::MAX / 12,
            forall|k: int| 0 <= k < draws@.len() ==> draw_in_range(*map_size, #[trigger] draws@[k]),
            kept == kept_draws(draws@.take(i as int)),
            rooms@ == kept.map_values(|d: RoomDraw| draw_room(d)),
            rooms_laid(*map_size, map, rooms@),
            forall|x: int, y: int|
                map.contains_point(x, y) ==> #[trigger] map.at(x, y) == (if floor_at(kept, x, y) {
                    TileKind::Floor
                } else {
                    TileKind::Wall
                }),
        decreases draws@.len() - i,
    {
        let d = draws[i];
        assert(draw_in_range(*map_size, d));
        let room = Rectangle::new(IVec2::new(d.x, d.y), d.w, d.h);
        assert(room == draw_room(d));
        proof {
            assert(draws@.take(i as int + 1).drop_last() =~= draws@.take(i as int));
            assert(draws@.take(i as int + 1).last() == d);
        }
        let mut ok = true;
        let mut k: usize = 0;
        while k < rooms.len()
            invariant
                k <= rooms@.len(),
                ok <==> forall|j: int| 0 <= j < k ==> !room.spec_intersect(#[trigger] rooms@[j]),
            decreases rooms@.len() - k,
        {
            if room.intersect(&rooms[k]) {
                ok = false;
            }
            k = k + 1;
        }
        proof {
            assert(ok <==> forall|j: int| 0 <= j < kept.len() ==> !draw_room(d).spec_intersect(draw_room(#[trigger] kept[j]))) by {
                assert forall|j: int| 0 <= j < kept.len() implies rooms@[j] == draw_room(#[trigger] kept[j]) by {}
            }
        }
        if ok {
            let ghost before = map;
            let ghost kept0 = kept;
            fill_rect(&mut map, TileKind::Floor, &room);
            proof {
                lemma_floor_written(
                    before,
                    map,
                    |x: int, y: int| room.contains((IVec2 { x: x as i32, y: y as i32 })),
                );
            }
            let ghost after_room = map;
            if rooms.len() > 0 {
                let center = room.center();
                let previous_center = rooms[rooms.len() - 1].center();
                let ghost prev_room = rooms@[rooms@.len() - 1];
                assert(prev_room.contains(previous_center));
                assert(room.contains(center));
                let ghost m0 = map;
                if d.horizontal_first {
                    fill_row(&mut map, TileKind::Floor, previous_center.x, center.x, previous_center.y);
                    let ghost m1 = map;
                    fill_column(&mut map, TileKind::Floor, previous_center.y, center.y, center.x);
                    proof {
                        lemma_passage_laid(m0, m1, map, previous_center, center, true);
                    }
                } else {
                    fill_column(&mut map, TileKind::Floor, previous_center.y, center.y, previous_center.x);
                    let ghost m1 = map;
                    fill_row(&mut map, TileKind::Floor, previous_center.x, center.x, center.y);
                    proof {
                        lemma_passage_laid(m0, m1, map, previous_center, center, false);
                    }
                }
                proof {
                    lemma_floor_kept_trans(before, after_room, map);
                    assert(prev_room == draw_room(kept0.last()));
                }
            }
            proof {
                lemma_rooms_joined_push(*map_size, before, map, rooms@, room);
                kept = kept0.push(d);
                assert(kept.drop_last() =~= kept0);
                assert(kept.last() == d);
                if kept0.len() > 0 {
                    assert(kept[kept.len() - 2] == kept0.last());
                }
            }
            let ghost old_rooms = rooms@;
            rooms.push(room);
            proof {
                assert(rooms@ =~= kept.map_values(|d: RoomDraw| draw_room(d)));
                assert forall|i: int, j: int| 0 <= i < j < rooms@.len() implies !(
                #[trigger] rooms@[i]).spec_intersect(#[trigger] rooms@[j]) by {
                    if j == rooms@.len() - 1 {
                        assert(!room.spec_intersect(rooms@[i]));
                    }
                }
            }
        }
        i = i + 1;
    }
    assert(draws@.take(draws@.len() as int) =~= draws@);
    proof {
        assert forall|x: int, y: int| map.contains_point(x, y) && #[trigger] map.at(x, y) == TileKind::Floor implies in_rooms_or_passages(
            rooms@,
            x,
            y,
        ) by {
            lemma_floor_in_rooms_or_passages(kept, x, y);
        }
    }
    (map, Rooms(rooms))
}

/// Lays out a map of rooms joined by passages: 31 attempts at a room are
/// drawn at random (sides of 6 to 9, a place clear of the edge, and which leg
/// of its passage comes first), and the map is laid from them as
/// `rooms_passages_from_draws` does.
pub fn entity_map_rooms_passages(map_size: &MapSize) -> (r: (TileMap, Rooms))
    requires
        12 <= map_size.width,
        12 <= map_size.height,
        map_size.width * map_size.height <= i32::MAX,
    ensures
        map_laws(*map_size, r.0, r.1.0@),
        1 <= r.1.0@.len() <= 31,
        exists|draws: Seq<RoomDraw>|
            {
                &&& draws.len() == 31
                &&& forall|i: int| 0 <= i < draws.len() ==> draw_in_range(*map_size, #[trigger] draws[i])
                &&& r.1.0@ == #[trigger] kept_rooms(draws)
                &&& forall|x: int, y: int|
                    r.0.contains_point(x, y) ==> #[trigger] r.0.at(x, y) == (if floor_at(kept_draws(draws), x, y) {
                        TileKind::Floor
                    } else {
                        TileKind::Wall
                    })
            },
{
    assert(map_size.width <= i32::MAX / 12 && map_size.height <= i32::MAX / 12) by (nonlinear_arith)
        requires
            12 <= map_size.width,
            12 <= map_size.height,
            map_size.width * map_size.height <= i32::MAX,
    ;
    let w_map = map_size.width as i32;
    let h_map = map_size.height as i32;
    let mut draws: Vec<RoomDraw> = Vec::new();
    let mut attempt: u32 = 0;
    while attempt <= 30
        invariant
            attempt <= 31,
            draws@.len() == attempt,
            w_map == map_size.width,
            h_map == map_size.height,
            12 <= map_size.width <= i32::MAX / 12,
            12 <= map_size.height <= i32::MAX / 12,
            forall|k: int| 0 <= k < draws@.len() ==> draw_in_range(*map_size, #[trigger] draws@[k]),
        decreases 31 - attempt,
    {
        let w = random_in_range(6, 10) as i32;
        let h = random_in_range(6, 10) as i32;
        let x = random_in_range(1, (w_map - w - 1) as usize) as i32;
        let y = random_in_range(1, (h_map - h - 1) as usize) as i32;
        let horizontal_first = random_in_range(0, 2) == 1;
        draws.push(RoomDraw { w, h, x, y, horizontal_first });
        attempt = attempt + 1;
    }
    let r = rooms_passages_from_draws(map_size, &draws);
    proof {
        lemma_first_draw_kept(draws@);
        lemma_kept_at_most(draws@);
    }
    r
}

/// The first attempt is always kept, so a nonempty run of attempts keeps at
/// least one room.
proof fn lemma_first_draw_kept(draws: Seq<RoomDraw>)
    requires
        draws.len() > 0,
    ensures
        kept_draws(draws).len() >= 1,
    decreases draws.len(),
{
    if draws.len() == 1 {
        assert(draws.drop_last().len() == 0);
    } else {
        lemma_first_draw_kept(draws.drop_last());
    }
}

/// No more rooms are kept than attempts made.
proof fn lemma_kept_at_most(draws: Seq<RoomDraw>)
    ensures
        kept_draws(draws).len() <= draws.len(),
    decreases draws.len(),
{
    if draws.len() > 0 {
        lemma_kept_at_most(draws.drop_last());
    }
}

/// A wall tile on the map: a white `#` on black, drawn at order 32, that
/// blocks movement.
pub struct WallBundle {
    pub position: Position,
    pub renderable: Renderable,
}

impl WallBundle {
    pub fn default() -> (r: WallBundle)
        ensures
            r.position == Position(IVec2 { x: 0, y: 0 }),
            r.renderable == (Renderable {
                base_tile: Tile { glyph: '#', fg_color: Palette::White, bg_color: Palette::Black },
                effective_tile: Tile { glyph: '#', fg_color: Palette::White, bg_color: Palette::Black },
                order: 32,
            }),
    {
        WallBundle {
            position: Position(IVec2 { x: 0, y: 0 }),
            renderable: Renderable::new(Tile { glyph: '#', fg_color: Palette::White, bg_color: Palette::Black }, 32),
        }
    }
}

/// A floor tile on the map: a dark grey `.` on black, drawn at order 48.
pub struct FloorBundle {
    pub position: Position,
    pub renderable: Renderable,
}

impl FloorBundle {
    pub fn default() -> (r: FloorBundle)
        ensures
            r.position == Position(IVec2 { x: 0, y: 0 }),
            r.renderable == (Renderable {
                base_tile: Tile { glyph: '.', fg_color: Palette::DarkGray, bg_color: Palette::Black },
                effective_tile: Tile { glyph: '.', fg_color: Palette::DarkGray, bg_color: Palette::Black },
                order: 48,
            }),
    {
        FloorBundle {
            position: Position(IVec2 { x: 0, y: 0 }),
            renderable: Renderable::new(Tile { glyph: '.', fg_color: Palette::DarkGray, bg_color: Palette::Black }, 48),
        }
    }
}

/// Every kept attempt is one of the attempts, so it is in range.
proof fn lemma_kept_in_range(map_size: MapSize, draws: Seq<RoomDraw>)
    requires
        forall|i: int| 0 <= i < draws.len() ==> draw_in_range(map_size, #[trigger] draws[i]),
    ensures
        forall|j: int| 0 <= j < kept_draws(draws).len() ==> draw_in_range(map_size, #[trigger] kept_draws(draws)[j]),
    decreases draws.len(),
{
    if draws.len() > 0 {
        lemma_kept_in_range(map_size, draws.drop_last());
        assert(draw_in_range(map_size, draws[draws.len() - 1]));
        let prev = kept_draws(draws.drop_last());
        let k = kept_draws(draws);
        assert forall|j: int| 0 <= j < k.len() implies draw_in_range(map_size, #[trigger] k[j]) by {
            if j < prev.len() {
                assert(k[j] == prev[j]);
            } else {
                assert(k[j] == draws.last());
            }
        }
    }
}

/// An attempt is kept exactly when its room shares no tile with any room
/// kept before it.
pub proof fn lemma_attempt_kept_iff_apart(map_size: MapSize, draws: Seq<RoomDraw>)
    requires
        draws.len() > 0,
        map_size.width <= i32::MAX,
        map_size.height <= i32::MAX,
        forall|i: int| 0 <= i < draws.len() ==> draw_in_range(map_size, #[trigger] draws[i]),
    ensures
        ({
            let prev = kept_draws(draws.drop_last());
            let apart = forall|j: int|
                0 <= j < prev.len() ==> !exists|p: IVec2|
                    draw_room(draws.last()).contains(p) && draw_room(#[trigger] prev[j]).contains(p);
            kept_draws(draws) == if apart {
                prev.push(draws.last())
            } else {
                prev
            }
        }),
{
    let prev = kept_draws(draws.drop_last());
    lemma_kept_in_range(map_size, draws.drop_last());
    assert(draw_in_range(map_size, draws[draws.len() - 1]));
    assert forall|j: int| 0 <= j < prev.len() implies (draw_room(draws.last()).spec_intersect(draw_room(#[trigger] prev[j]))
        <==> exists|p: IVec2| draw_room(draws.last()).contains(p) && draw_room(prev[j]).contains(p)) by {
        assert(draw_in_range(map_size, prev[j]));
        crate::geometry::lemma_intersect_is_shared_point(draw_room(draws.last()), draw_room(prev[j]));
    }
}

/// The rooms of a generated map share no tile with one another.
pub proof fn lemma_rooms_share_no_tile(map_size: MapSize, map: TileMap, rooms: Seq<Rectangle>)
    requires
        map_laws(map_size, map, rooms),
    ensures
        forall|i: int, j: int, p: IVec2|
            0 <= i < j < rooms.len() ==> !(#[trigger] rooms[i].contains(p) && #[trigger] rooms[j].contains(p)),
{
    assert forall|i: int, j: int, p: IVec2| 0 <= i < j < rooms.len() implies !(#[trigger] rooms[i].contains(p)
        && #[trigger] rooms[j].contains(p)) by {
        assert(room_placed(map_size, rooms[i]) && room_placed(map_size, rooms[j]));
        assert(!rooms[i].spec_intersect(rooms[j]));
        crate::geometry::lemma_intersect_is_shared_point(rooms[i], rooms[j]);
    }
}

} // verus!

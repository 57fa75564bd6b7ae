use vstd::prelude::*;

verus! {

/// Division that rounds toward zero, as Rust's `/` does on signed integers.
pub open spec fn trunc_div(a: int, b: int) -> int
    recommends
        b != 0,
{
    if b > 0 {
        if a >= 0 {
            a / b
        } else {
            -((-a) / b)
        }
    } else {
        if a >= 0 {
            -(a / (-b))
        } else {
            (-a) / (-b)
        }
    }
}

/// A point or an offset on the integer grid.
#[derive(Clone, Copy, PartialEq, Eq, Structural, Debug)]
pub struct IVec2 {
    pub x: i32,
    pub y: i32,
}

/// Whether `a + b` fits in an `i32` in both coordinates.
pub open spec fn add_fits(a: IVec2, b: IVec2) -> bool {
    &&& i32::MIN <= a.x + b.x <= i32::MAX
    &&& i32::MIN <= a.y + b.y <= i32::MAX
}

/// Whether `a - b` fits in an `i32` in both coordinates.
pub open spec fn sub_fits(a: IVec2, b: IVec2) -> bool {
    &&& i32::MIN <= a.x - b.x <= i32::MAX
    &&& i32::MIN <= a.y - b.y <= i32::MAX
}

impl IVec2 {
    pub fn new(x: i32, y: i32) -> (r: IVec2)
        ensures
            r == (IVec2 { x, y }),
    {
        IVec2 { x, y }
    }

    /// The sum of two vectors.
    pub fn add(self, other: IVec2) -> (r: IVec2)
        requires
            add_fits(self, other),
        ensures
            r.x == self.x + other.x,
            r.y == self.y + other.y,
    {
        IVec2 { x: self.x + other.x, y: self.y + other.y }
    }

    /// The difference of two vectors.
    pub fn sub(self, other: IVec2) -> (r: IVec2)
        requires
            sub_fits(self, other),
        ensures
            r.x == self.x - other.x,
            r.y == self.y - other.y,
    {
        IVec2 { x: self.x - other.x, y: self.y - other.y }
    }

    /// Whether the two vectors are equal.
    pub fn same(self, other: IVec2) -> (r: bool)
        ensures
            r == (self == other),
    {
        self.x == other.x && self.y == other.y
    }
}

/// A marker for entities that block movement.
#[derive(Clone, Copy, PartialEq, Eq, Structural, Debug, Default)]
pub struct Collides;

/// The grid position of an entity.
#[derive(Clone, Copy, PartialEq, Eq, Structural, Debug)]
pub struct Position(pub IVec2);

/// An axis-aligned rectangle given by two corners, both included.
#[derive(Clone, Copy, PartialEq, Eq, Structural, Debug)]
pub struct Rectangle {
    pub pos1: IVec2,
    pub pos2: IVec2,
}

impl Rectangle {
    /// The rectangle whose first corner is `pos` and whose second corner lies
    /// `width` and `height` further along.
    pub fn new(pos: IVec2, width: i32, height: i32) -> (r: Rectangle)
        requires
            i32::MIN <= pos.x + width <= i32::MAX,
            i32::MIN <= pos.y + height <= i32::MAX,
        ensures
            r.pos1 == pos,
            r.pos2.x == pos.x + width,
            r.pos2.y == pos.y + height,
    {
        Rectangle { pos1: pos, pos2: IVec2 { x: pos.x + width, y: pos.y + height } }
    }

    pub open spec fn spec_intersect(self, other: Rectangle) -> bool {
        &&& self.pos1.x <= other.pos2.x
        &&& self.pos2.x >= other.pos1.x
        &&& self.pos1.y <= other.pos2.y
        &&& self.pos2.y >= other.pos1.y
    }

    /// Whether the two rectangles overlap (touching edges count).
    pub fn intersect(&self, other: &Rectangle) -> (r: bool)
        ensures
            r == self.spec_intersect(*other),
    {
        self.pos1.x <= other.pos2.x && self.pos2.x >= other.pos1.x && self.pos1.y <= other.pos2.y
            && self.pos2.y >= other.pos1.y
    }

    pub open spec fn spec_center(self) -> IVec2 {
        IVec2 {
            x: trunc_div(self.pos1.x + self.pos2.x, 2) as i32,
            y: trunc_div(self.pos1.y + self.pos2.y, 2) as i32,
        }
    }

    /// The midpoint of the two corners, each coordinate rounded toward zero.
    pub fn center(&self) -> (r: IVec2)
        requires
            i32::MIN <= self.pos1.x + self.pos2.x <= i32::MAX,
            i32::MIN <= self.pos1.y + self.pos2.y <= i32::MAX,
        ensures
            r == self.spec_center(),
            r.x == trunc_div(self.pos1.x + self.pos2.x, 2),
            r.y == trunc_div(self.pos1.y + self.pos2.y, 2),
    {
        IVec2 { x: (self.pos1.x + self.pos2.x) / 2, y: (self.pos1.y + self.pos2.y) / 2 }
    }

    /// Whether the point lies in the rectangle (corners ordered low to high).
    pub open spec fn contains(self, p: IVec2) -> bool {
        self.pos1.x <= p.x <= self.pos2.x && self.pos1.y <= p.y <= self.pos2.y
    }
}

/// A polygon with only right-angle turns.
pub struct Turngon {
    pub vertices: Vec<IVec2>,
}

/// A polygon given by its vertices.
pub struct Polygon {
    pub vertices: Vec<IVec2>,
}

/// Intersection is symmetric.
pub proof fn lemma_intersect_symmetric(a: Rectangle, b: Rectangle)
    ensures
        a.spec_intersect(b) == b.spec_intersect(a),
{
}

/// A rectangle with ordered corners overlaps itself, and its center lies inside it.
pub proof fn lemma_center_inside(r: Rectangle)
    requires
        r.pos1.x <= r.pos2.x,
        r.pos1.y <= r.pos2.y,
    ensures
        r.spec_intersect(r),
        r.contains(r.spec_center()),
{
}

/// Two rectangles (each with its first corner below and left of its second)
/// overlap exactly when some point lies in both.
pub proof fn lemma_intersect_is_shared_point(r: Rectangle, o: Rectangle)
    requires
        r.pos1.x <= r.pos2.x,
        r.pos1.y <= r.pos2.y,
        o.pos1.x <= o.pos2.x,
        o.pos1.y <= o.pos2.y,
    ensures
        r.spec_intersect(o) <==> exists|p: IVec2| r.contains(p) && o.contains(p),
{
    if r.spec_intersect(o) {
        let p = IVec2 {
            x: if r.pos1.x < o.pos1.x { o.pos1.x } else { r.pos1.x },
            y: if r.pos1.y < o.pos1.y { o.pos1.y } else { r.pos1.y },
        };
        assert(r.contains(p) && o.contains(p));
    }
}

} // verus!

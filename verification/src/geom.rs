//! Value types for 2D geometry: vectors, axis-aligned boxes, shapes,
//! compass directions and flip-aware global tile indices.
//!
//! World coordinates are integer units. Boxes are half-open in spirit:
//! two boxes that merely touch on an edge do not overlap.

use vstd::prelude::*;

verus! {

/// A 2D vector of world units.
#[derive(Clone, Copy, Debug, PartialEq, Eq, Structural)]
pub struct V2 {
    pub x: i64,
    pub y: i64,
}

impl V2 {
    pub fn new(x: i64, y: i64) -> (r: V2)
        ensures
            r == (V2 { x, y }),
    {
        V2 { x, y }
    }

    /// The zero vector.
    pub fn origin() -> (r: V2)
        ensures
            r == (V2 { x: 0, y: 0 }),
    {
        V2 { x: 0, y: 0 }
    }

    pub fn plus(self, other: V2) -> (r: V2)
        requires
            i64::MIN <= self.x + other.x <= i64::MAX,
            i64::MIN <= self.y + other.y <= i64::MAX,
        ensures
            r.x == self.x + other.x,
            r.y == self.y + other.y,
    {
        V2 { x: self.x + other.x, y: self.y + other.y }
    }

    pub fn minus(self, other: V2) -> (r: V2)
        requires
            i64::MIN <= self.x - other.x <= i64::MAX,
            i64::MIN <= self.y - other.y <= i64::MAX,
        ensures
            r.x == self.x - other.x,
            r.y == self.y - other.y,
    {
        V2 { x: self.x - other.x, y: self.y - other.y }
    }

    /// Scale both components by `k`.
    pub fn scalar_mul(self, k: i64) -> (r: V2)
        requires
            i64::MIN <= self.x * k <= i64::MAX,
            i64::MIN <= self.y * k <= i64::MAX,
        ensures
            r.x == self.x * k,
            r.y == self.y * k,
    {
        V2 { x: self.x * k, y: self.y * k }
    }

    /// True when the vector is not zero: a displacement of positive magnitude.
    pub fn is_nonzero(self) -> (r: bool)
        ensures
            r == (self.x != 0 || self.y != 0),
    {
        self.x != 0 || self.y != 0
    }
}

/// An axis-aligned box given by its low and high corners.
#[derive(Clone, Copy, Debug, PartialEq, Eq, Structural)]
pub struct Aabb {
    pub x0: i64,
    pub y0: i64,
    pub x1: i64,
    pub y1: i64,
}

impl Aabb {
    /// A well-formed box has its low corner at or below its high corner.
    pub open spec fn wf(self) -> bool {
        self.x0 <= self.x1 && self.y0 <= self.y1
    }

    /// The box shifted by `v`, as a spec-level function of the corners.
    pub open spec fn shifted(self, dx: int, dy: int) -> Aabb {
        Aabb {
            x0: (self.x0 + dx) as i64,
            y0: (self.y0 + dy) as i64,
            x1: (self.x1 + dx) as i64,
            y1: (self.y1 + dy) as i64,
        }
    }

    /// Strict overlap: boxes that only touch on an edge do not overlap.
    pub open spec fn overlaps(self, other: Aabb) -> bool {
        self.x0 < other.x1 && other.x0 < self.x1 && self.y0 < other.y1 && other.y0 < self.y1
    }

    pub fn new(x0: i64, y0: i64, x1: i64, y1: i64) -> (r: Aabb)
        ensures
            r == (Aabb { x0, y0, x1, y1 }),
    {
        Aabb { x0, y0, x1, y1 }
    }

    /// Translate the box by `v`.
    pub fn translate(&self, v: &V2) -> (r: Aabb)
        requires
            i64::MIN <= self.x0 + v.x <= i64::MAX,
            i64::MIN <= self.y0 + v.y <= i64::MAX,
            i64::MIN <= self.x1 + v.x <= i64::MAX,
            i64::MIN <= self.y1 + v.y <= i64::MAX,
        ensures
            r == self.shifted(v.x as int, v.y as int),
    {
        Aabb { x0: self.x0 + v.x, y0: self.y0 + v.y, x1: self.x1 + v.x, y1: self.y1 + v.y }
    }

    /// Runtime overlap test, equal to the spec-level `overlaps`.
    pub fn intersects(&self, other: &Aabb) -> (r: bool)
        ensures
            r == self.overlaps(*other),
    {
        self.x0 < other.x1 && other.x0 < self.x1 && self.y0 < other.y1 && other.y0 < self.y1
    }

    /// The minimum translation vector between two overlapping boxes:
    /// subtracting it from `self`'s position separates `self` from `other`
    /// along the axis of least penetration (x preferred on ties).
    pub open spec fn mtv_spec(self, other: Aabb) -> V2 {
        let push_left = self.x1 - other.x0;
        let push_right = other.x1 - self.x0;
        let push_up = self.y1 - other.y0;
        let push_down = other.y1 - self.y0;
        let px = if push_left <= push_right { push_left } else { push_right };
        let py = if push_up <= push_down { push_up } else { push_down };
        if px <= py {
            if push_left <= push_right {
                V2 { x: push_left as i64, y: 0 }
            } else {
                V2 { x: (-push_right) as i64, y: 0 }
            }
        } else {
            if push_up <= push_down {
                V2 { x: 0, y: push_up as i64 }
            } else {
                V2 { x: 0, y: (-push_down) as i64 }
            }
        }
    }

    /// Compute the minimum translation vector of two overlapping boxes.
    pub fn mtv(&self, other: &Aabb) -> (r: V2)
        requires
            self.wf(),
            other.wf(),
            self.overlaps(*other),
            i64::MIN <= self.x1 - other.x0 <= i64::MAX,
            i64::MIN <= other.x1 - self.x0 <= i64::MAX,
            i64::MIN <= self.y1 - other.y0 <= i64::MAX,
            i64::MIN <= other.y1 - self.y0 <= i64::MAX,
        ensures
            r == self.mtv_spec(*other),
    {
        let push_left = self.x1 - other.x0;
        let push_right = other.x1 - self.x0;
        let push_up = self.y1 - other.y0;
        let push_down = other.y1 - self.y0;
        let px = if push_left <= push_right { push_left } else { push_right };
        let py = if push_up <= push_down { push_up } else { push_down };
        if px <= py {
            if push_left <= push_right {
                V2 { x: push_left, y: 0 }
            } else {
                V2 { x: -push_right, y: 0 }
            }
        } else {
            if push_up <= push_down {
                V2 { x: 0, y: push_up }
            } else {
                V2 { x: 0, y: -push_down }
            }
        }
    }
}

/// Subtracting the minimum translation vector from an overlapping box's
/// position separates the two boxes: after the shift they no longer overlap.
pub proof fn lemma_mtv_separates(a: Aabb, b: Aabb)
    requires
        a.wf(),
        b.wf(),
        a.overlaps(b),
        -0x2000_0000_0000_0000 <= a.x0,
        a.x1 <= 0x2000_0000_0000_0000,
        -0x2000_0000_0000_0000 <= a.y0,
        a.y1 <= 0x2000_0000_0000_0000,
        -0x2000_0000_0000_0000 <= b.x0,
        b.x1 <= 0x2000_0000_0000_0000,
        -0x2000_0000_0000_0000 <= b.y0,
        b.y1 <= 0x2000_0000_0000_0000,
    ensures
        !a.shifted(-a.mtv_spec(b).x as int, -a.mtv_spec(b).y as int).overlaps(b),
{
}

/// One of the eight compass directions an entity can be moving in.
#[derive(Clone, Copy, Debug, PartialEq, Eq, Structural)]
pub enum Cardinal {
    North,
    NorthEast,
    East,
    SouthEast,
    South,
    SouthWest,
    West,
    NorthWest,
}

impl Cardinal {
    /// The discretized direction of a velocity vector, by the signs of its
    /// components (y grows downward, so positive y is south). A zero vector
    /// has no direction.
    pub open spec fn of_v2_spec(v: V2) -> Option<Cardinal> {
        if v.x == 0 && v.y == 0 {
            None
        } else if v.x == 0 {
            if v.y < 0 {
                Some(Cardinal::North)
            } else {
                Some(Cardinal::South)
            }
        } else if v.y == 0 {
            if v.x < 0 {
                Some(Cardinal::West)
            } else {
                Some(Cardinal::East)
            }
        } else if v.x > 0 {
            if v.y < 0 {
                Some(Cardinal::NorthEast)
            } else {
                Some(Cardinal::SouthEast)
            }
        } else {
            if v.y < 0 {
                Some(Cardinal::NorthWest)
            } else {
                Some(Cardinal::SouthWest)
            }
        }
    }

    /// Discretize a velocity into a compass direction.
    pub fn from_v2(v: &V2) -> (r: Option<Cardinal>)
        ensures
            r == Cardinal::of_v2_spec(*v),
    {
        if v.x == 0 && v.y == 0 {
            None
        } else if v.x == 0 {
            if v.y < 0 {
                Some(Cardinal::North)
            } else {
                Some(Cardinal::South)
            }
        } else if v.y == 0 {
            if v.x < 0 {
                Some(Cardinal::West)
            } else {
                Some(Cardinal::East)
            }
        } else if v.x > 0 {
            if v.y < 0 {
                Some(Cardinal::NorthEast)
            } else {
                Some(Cardinal::SouthEast)
            }
        } else {
            if v.y < 0 {
                Some(Cardinal::NorthWest)
            } else {
                Some(Cardinal::SouthWest)
            }
        }
    }
}

/// Mask of the horizontal-flip flag in a raw global tile index.
pub const FLIP_H: u32 = 0x8000_0000;

/// Mask of the vertical-flip flag in a raw global tile index.
pub const FLIP_V: u32 = 0x4000_0000;

/// Mask of the diagonal-flip flag in a raw global tile index.
pub const FLIP_D: u32 = 0x2000_0000;

/// Mask of the tile-id bits of a raw global tile index.
pub const GID_MASK: u32 = 0x1FFF_FFFF;

/// A global tile index: a tile id unique across all tilesets of a map,
/// plus three independent orientation flip flags packed in the top bits.
#[derive(Clone, Copy, Debug, PartialEq, Eq, Structural)]
pub struct GlobalTileIndex {
    pub raw: u32,
}

impl GlobalTileIndex {
    pub fn new(raw: u32) -> (r: GlobalTileIndex)
        ensures
            r == (GlobalTileIndex { raw }),
    {
        GlobalTileIndex { raw }
    }

    /// The tile id with the flip flags masked off.
    pub fn id(&self) -> (r: u32)
        ensures
            r == self.raw & GID_MASK,
    {
        self.raw & GID_MASK
    }

    /// An id of zero marks an empty cell: no tile is drawn there.
    pub fn is_empty(&self) -> (r: bool)
        ensures
            r == (self.raw & GID_MASK == 0),
    {
        self.raw & GID_MASK == 0
    }

    pub fn flip_h(&self) -> (r: bool)
        ensures
            r == (self.raw & FLIP_H != 0),
    {
        self.raw & FLIP_H != 0
    }

    pub fn flip_v(&self) -> (r: bool)
        ensures
            r == (self.raw & FLIP_V != 0),
    {
        self.raw & FLIP_V != 0
    }

    pub fn flip_d(&self) -> (r: bool)
        ensures
            r == (self.raw & FLIP_D != 0),
    {
        self.raw & FLIP_D != 0
    }
}

/// An entity's collision geometry, in entity-local coordinates.
#[derive(Clone, Debug)]
pub enum Shape {
    /// A rectangle.
    Rect(Aabb),
    /// A convex polygon given by its vertices.
    Polygon(Vec<V2>),
}

/// Spec-level bounding box of a polygon prefix: the smallest box holding
/// the first `n` vertices. An empty polygon has a degenerate box at zero.
pub open spec fn poly_bounds(vs: Seq<V2>, n: int) -> Aabb
    decreases n,
{
    if n <= 0 {
        Aabb { x0: 0, y0: 0, x1: 0, y1: 0 }
    } else if n == 1 {
        Aabb { x0: vs[0].x, y0: vs[0].y, x1: vs[0].x, y1: vs[0].y }
    } else {
        let b = poly_bounds(vs, n - 1);
        let v = vs[n - 1];
        Aabb {
            x0: if v.x < b.x0 { v.x } else { b.x0 },
            y0: if v.y < b.y0 { v.y } else { b.y0 },
            x1: if v.x > b.x1 { v.x } else { b.x1 },
            y1: if v.y > b.y1 { v.y } else { b.y1 },
        }
    }
}

impl Shape {
    /// The shape's bounding box, in entity-local coordinates.
    pub open spec fn aabb_spec(self) -> Aabb {
        match self {
            Shape::Rect(r) => r,
            Shape::Polygon(vs) => poly_bounds(vs@, vs@.len() as int),
        }
    }

    /// Compute the shape's bounding box.
    pub fn aabb(&self) -> (r: Aabb)
        ensures
            r == self.aabb_spec(),
    {
        match self {
            Shape::Rect(b) => *b,
            Shape::Polygon(vs) => {
                let mut b = Aabb { x0: 0, y0: 0, x1: 0, y1: 0 };
                let mut i: usize = 0;
                while i < vs.len()
                    invariant
                        i <= vs.len(),
                        b == poly_bounds(vs@, i as int),
                    decreases vs.len() - i,
                {
                    let v = vs[i];
                    if i == 0 {
                        b = Aabb { x0: v.x, y0: v.y, x1: v.x, y1: v.y };
                    } else {
                        b = Aabb {
                            x0: if v.x < b.x0 { v.x } else { b.x0 },
                            y0: if v.y < b.y0 { v.y } else { b.y0 },
                            x1: if v.x > b.x1 { v.x } else { b.x1 },
                            y1: if v.y > b.y1 { v.y } else { b.y1 },
                        };
                    }
                    i = i + 1;
                }
                b
            },
        }
    }
}

} // verus!

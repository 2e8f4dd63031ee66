//! Points, axis-aligned bounding boxes and the coordinate-providing capability.
use vstd::prelude::*;

verus! {

/// Coordinates are signed integers; a caller holding other coordinates maps them
/// onto this type by an order-preserving conversion (a fixed-point scale, or the
/// order-preserving bit pattern of a float).
pub type CoordinateType = i32;

/// A point, with `x` for the longitude and `y` for the latitude of geographic data.
#[derive(Clone, Copy, Debug, PartialEq, Eq, Structural)]
pub struct Point {
    pub x: CoordinateType,
    pub y: CoordinateType,
}

/// An axis-aligned rectangle with closed bounds on all four sides.
///
/// A box with `minx > maxx` or `miny > maxy` holds no point: the empty box of
/// [`BBox::default`] has the largest coordinate as its minimum and the smallest
/// as its maximum, so that expanding it by a geometry yields exactly that geometry.
#[derive(Clone, Copy, Debug, PartialEq, Eq, Structural)]
pub struct BBox {
    pub minx: CoordinateType,
    pub miny: CoordinateType,
    pub maxx: CoordinateType,
    pub maxy: CoordinateType,
}

/// Anything that can tell its own position.
pub trait SpatiallyIndexable {
    /// The position that `x` and `y` report.
    spec fn position(&self) -> Point;

    fn x(&self) -> (r: CoordinateType)
        ensures
            r == self.position().x,
    ;

    fn y(&self) -> (r: CoordinateType)
        ensures
            r == self.position().y,
    ;
}

impl SpatiallyIndexable for Point {
    open spec fn position(&self) -> Point {
        *self
    }

    fn x(&self) -> (r: CoordinateType) {
        self.x
    }

    fn y(&self) -> (r: CoordinateType) {
        self.y
    }
}

impl Point {
    pub open spec fn as_box(self) -> BBox {
        BBox { minx: self.x, miny: self.y, maxx: self.x, maxy: self.y }
    }
}

impl BBox {
    /// The empty box.
    pub open spec fn empty() -> BBox {
        BBox {
            minx: CoordinateType::MAX,
            miny: CoordinateType::MAX,
            maxx: CoordinateType::MIN,
            maxy: CoordinateType::MIN,
        }
    }

    /// `p` lies inside the box or on its edge.
    pub open spec fn spec_contains(self, p: Point) -> bool {
        &&& self.minx <= p.x <= self.maxx
        &&& self.miny <= p.y <= self.maxy
    }

    /// The two boxes share at least one point; boxes that only touch intersect.
    pub open spec fn spec_intersects(self, o: BBox) -> bool {
        &&& o.minx <= self.maxx
        &&& self.minx <= o.maxx
        &&& o.miny <= self.maxy
        &&& self.miny <= o.maxy
    }

    /// The smallest box that holds both `self` and `o`, where an empty box adds nothing.
    pub open spec fn union(self, o: BBox) -> BBox {
        BBox {
            minx: if o.minx < self.minx { o.minx } else { self.minx },
            miny: if o.miny < self.miny { o.miny } else { self.miny },
            maxx: if o.maxx > self.maxx { o.maxx } else { self.maxx },
            maxy: if o.maxy > self.maxy { o.maxy } else { self.maxy },
        }
    }

    /// Every point of `o` lies in `self`.
    pub open spec fn covers(self, o: BBox) -> bool {
        &&& self.minx <= o.minx
        &&& self.miny <= o.miny
        &&& o.maxx <= self.maxx
        &&& o.maxy <= self.maxy
    }

    pub fn new(
        minx: CoordinateType,
        miny: CoordinateType,
        maxx: CoordinateType,
        maxy: CoordinateType,
    ) -> (r: BBox)
        ensures
            r == (BBox { minx, miny, maxx, maxy }),
    {
        BBox { minx, miny, maxx, maxy }
    }

    /// The extent along x, `maxx - minx`; negative for an empty box.
    pub fn width(&self) -> (r: i64)
        ensures
            r == self.maxx - self.minx,
    {
        self.maxx as i64 - self.minx as i64
    }

    /// The extent along y, `maxy - miny`; negative for an empty box.
    pub fn height(&self) -> (r: i64)
        ensures
            r == self.maxy - self.miny,
    {
        self.maxy as i64 - self.miny as i64
    }

    /// Grows the box to hold `other` too.
    pub fn expand_to_include(&mut self, other: &BBox)
        ensures
            *final(self) == old(self).union(*other),
    {
        if other.minx < self.minx {
            self.minx = other.minx;
        }
        if other.miny < self.miny {
            self.miny = other.miny;
        }
        if other.maxx > self.maxx {
            self.maxx = other.maxx;
        }
        if other.maxy > self.maxy {
            self.maxy = other.maxy;
        }
    }

    /// Grows the box to hold `point` too.
    pub fn expand_to_include_point(&mut self, point: &Point)
        ensures
            *final(self) == old(self).union(point.as_box()),
    {
        self.expand_to_include(&BBox { minx: point.x, miny: point.y, maxx: point.x, maxy: point.y });
    }

    /// Grows the box to hold the position of `item` too.
    pub fn expand_to_include_spatially_indexable<P: SpatiallyIndexable>(&mut self, item: &P)
        ensures
            *final(self) == old(self).union(item.position().as_box()),
    {
        let p = Point { x: item.x(), y: item.y() };
        self.expand_to_include_point(&p);
    }

    /// Whether `other` lies inside the box or on one of its four edges.
    pub fn contains(&self, other: &Point) -> (r: bool)
        ensures
            r == self.spec_contains(*other),
    {
        !(other.x > self.maxx || other.x < self.minx || other.y > self.maxy || other.y < self.miny)
    }

    /// Whether the position of `item` lies inside the box or on one of its edges.
    pub fn contains_spatially_indexable<P: SpatiallyIndexable>(&self, item: &P) -> (r: bool)
        ensures
            r == self.spec_contains(item.position()),
    {
        let x = item.x();
        let y = item.y();
        !(x > self.maxx || x < self.minx || y > self.maxy || y < self.miny)
    }

    /// Whether the two boxes share a point; touching edges count.
    pub fn intersects(&self, other: &BBox) -> (r: bool)
        ensures
            r == self.spec_intersects(*other),
    {
        !(other.minx > self.maxx || other.maxx < self.minx || other.miny > self.maxy
            || other.maxy < self.miny)
    }
}

impl Default for BBox {
    /// The empty box, which holds no point and which expansion replaces.
    fn default() -> (r: BBox)
        ensures
            r == BBox::empty(),
    {
        BBox {
            minx: CoordinateType::MAX,
            miny: CoordinateType::MAX,
            maxx: CoordinateType::MIN,
            maxy: CoordinateType::MIN,
        }
    }
}

} // verus!

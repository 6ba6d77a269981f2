//! Points, directed edges and the exact orientation predicate.

use vstd::prelude::*;

verus! {

/// A point of the integer plane.
#[derive(Clone, Copy, Hash, Debug, PartialEq, Eq, Structural)]
pub struct Point {
    pub x: isize,
    pub y: isize,
}

/// The turn made by three points taken in order.
#[derive(Clone, Copy, Debug, PartialEq, Eq, Structural)]
pub enum PointOrientation {
    Clockwise,
    Counterclockwise,
    Collinear,
}

/// A directed segment between two points.
#[derive(Clone, Copy, Hash, Debug, PartialEq, Eq, Structural)]
pub struct DirEdge {
    pub start: Point,
    pub end: Point,
}

/// The determinant whose sign is the turn of `p`, `q`, `r`.
pub open spec fn turn_value(p: Point, q: Point, r: Point) -> int {
    (q.y - p.y) * (r.x - q.x) - (q.x - p.x) * (r.y - q.y)
}

/// The turn of `p`, `q`, `r`: clockwise for a positive determinant,
/// counter-clockwise for a negative one.
pub open spec fn turn(p: Point, q: Point, r: Point) -> PointOrientation {
    let v = turn_value(p, q, r);
    if v == 0 {
        PointOrientation::Collinear
    } else if v > 0 {
        PointOrientation::Clockwise
    } else {
        PointOrientation::Counterclockwise
    }
}

/// Whether `q` lies in the axis-parallel box spanned by `p` and `r`.
pub open spec fn in_box(p: Point, r: Point, q: Point) -> bool {
    &&& (p.x <= q.x <= r.x || r.x <= q.x <= p.x)
    &&& (p.y <= q.y <= r.y || r.y <= q.y <= p.y)
}

/// Absolute value of an integer.
pub open spec fn magnitude(a: int) -> nat {
    if a < 0 {
        (-a) as nat
    } else {
        a as nat
    }
}

proof fn lemma_magnitude_product(a: int, b: int)
    ensures
        magnitude(a) * magnitude(b) == magnitude(a * b),
        (a * b < 0) == ((a < 0 && b > 0) || (a > 0 && b < 0)),
        (a * b == 0) == (a == 0 || b == 0),
{
    assert(magnitude(a) * magnitude(b) == magnitude(a * b) && ((a * b < 0) == ((a < 0 && b > 0)
        || (a > 0 && b < 0))) && ((a * b == 0) == (a == 0 || b == 0))) by (nonlinear_arith)
        requires
            magnitude(a) == (if a < 0 { -a } else { a }),
            magnitude(b) == (if b < 0 { -b } else { b }),
            magnitude(a * b) == (if a * b < 0 { -(a * b) } else { a * b }),
    ;
}

proof fn lemma_product_bound(a: nat, b: nat)
    requires
        a <= 0xffff_ffff_ffff_ffff,
        b <= 0xffff_ffff_ffff_ffff,
    ensures
        a * b <= 0xffff_ffff_ffff_fffe_0000_0000_0000_0001,
{
    assert(a * b <= 0xffff_ffff_ffff_ffff * 0xffff_ffff_ffff_ffff) by (nonlinear_arith)
        requires
            a <= 0xffff_ffff_ffff_ffff,
            b <= 0xffff_ffff_ffff_ffff,
    ;
}

/// Absolute value of a difference of two coordinates.
fn abs_wide(a: i128) -> (m: u128)
    requires
        -0xffff_ffff_ffff_ffff <= a <= 0xffff_ffff_ffff_ffff,
    ensures
        m == magnitude(a as int),
{
    if a < 0 {
        (-a) as u128
    } else {
        a as u128
    }
}

/// The turn given by the sign of `a * b - c * d`, computed without overflow
/// from the signs and magnitudes of the two products.
fn turn_of_products(a: i128, b: i128, c: i128, d: i128) -> (o: PointOrientation)
    requires
        -0xffff_ffff_ffff_ffff <= a <= 0xffff_ffff_ffff_ffff,
        -0xffff_ffff_ffff_ffff <= b <= 0xffff_ffff_ffff_ffff,
        -0xffff_ffff_ffff_ffff <= c <= 0xffff_ffff_ffff_ffff,
        -0xffff_ffff_ffff_ffff <= d <= 0xffff_ffff_ffff_ffff,
    ensures
        o == (if a * b - c * d == 0 {
            PointOrientation::Collinear
        } else if a * b - c * d > 0 {
            PointOrientation::Clockwise
        } else {
            PointOrientation::Counterclockwise
        }),
{
    let ma: u128 = abs_wide(a);
    let mb: u128 = abs_wide(b);
    let mc: u128 = abs_wide(c);
    let md: u128 = abs_wide(d);
    proof {
        lemma_product_bound(ma as nat, mb as nat);
        lemma_product_bound(mc as nat, md as nat);
        lemma_magnitude_product(a as int, b as int);
        lemma_magnitude_product(c as int, d as int);
    }
    let m1: u128 = ma * mb;
    let m2: u128 = mc * md;
    let neg1: bool = (a < 0 && b > 0) || (a > 0 && b < 0);
    let neg2: bool = (c < 0 && d > 0) || (c > 0 && d < 0);
    if neg1 == neg2 {
        if m1 == m2 {
            PointOrientation::Collinear
        } else if (m1 > m2) != neg1 {
            PointOrientation::Clockwise
        } else {
            PointOrientation::Counterclockwise
        }
    } else if neg2 {
        PointOrientation::Clockwise
    } else {
        PointOrientation::Counterclockwise
    }
}

impl Point {
    /// The order by which the sweep visits points: by `y`, ties broken by `x`.
    pub open spec fn higher_than(self, other: Point) -> bool {
        self.y > other.y || (self.y == other.y && self.x > other.x)
    }

    pub fn new(x: isize, y: isize) -> (p: Point)
        ensures
            p.x == x,
            p.y == y,
    {
        Point { x, y }
    }

    /// Whether `self` comes before `other` in the sweep order. The two points
    /// must differ: the order is strict.
    pub fn is_higher_than(&self, other: &Point) -> (r: bool)
        requires
            *self != *other,
        ensures
            r == self.higher_than(*other),
            r == !other.higher_than(*self),
    {
        self.y > other.y || (self.y == other.y && self.x > other.x)
    }

    /// The turn of `p`, `q`, `r`, exact for all coordinates.
    pub fn orientation(p: &Point, q: &Point, r: &Point) -> (o: PointOrientation)
        ensures
            o == turn(*p, *q, *r),
    {
        let a: i128 = q.y as i128 - p.y as i128;
        let b: i128 = r.x as i128 - q.x as i128;
        let c: i128 = q.x as i128 - p.x as i128;
        let d: i128 = r.y as i128 - q.y as i128;
        turn_of_products(a, b, c, d)
    }

    pub fn clone(&self) -> (p: Point)
        ensures
            p == *self,
    {
        Point { x: self.x, y: self.y }
    }
}

impl DirEdge {
    /// Whether the closed segments `self` and `other` share a point: either
    /// each segment separates the endpoints of the other, or an endpoint of
    /// one lies on the other.
    pub open spec fn crosses(self, other: DirEdge) -> bool {
        let o1 = turn(self.start, self.end, other.start);
        let o2 = turn(self.start, self.end, other.end);
        let o3 = turn(other.start, other.end, self.start);
        let o4 = turn(other.start, other.end, self.end);
        ||| (o1 != o2 && o3 != o4)
        ||| (o1 == PointOrientation::Collinear && in_box(self.start, self.end, other.start))
        ||| (o2 == PointOrientation::Collinear && in_box(self.start, self.end, other.end))
        ||| (o3 == PointOrientation::Collinear && in_box(other.start, other.end, self.start))
        ||| (o4 == PointOrientation::Collinear && in_box(other.start, other.end, self.end))
    }

    pub fn from_points(start: &Point, end: &Point) -> (e: DirEdge)
        ensures
            e.start == *start,
            e.end == *end,
    {
        DirEdge { start: start.clone(), end: end.clone() }
    }

    /// Whether `q` lies in the bounding box of this edge.
    fn box_holds(&self, q: &Point) -> (r: bool)
        ensures
            r == in_box(self.start, self.end, *q),
    {
        let p = &self.start;
        let r = &self.end;
        ((p.x <= q.x && q.x <= r.x) || (r.x <= q.x && q.x <= p.x)) && ((p.y <= q.y && q.y <= r.y)
            || (r.y <= q.y && q.y <= p.y))
    }

    /// Whether the two closed segments share a point.
    pub fn intersects(&self, other: &DirEdge) -> (r: bool)
        ensures
            r == self.crosses(*other),
    {
        let o1 = Point::orientation(&self.start, &self.end, &other.start);
        let o2 = Point::orientation(&self.start, &self.end, &other.end);
        let o3 = Point::orientation(&other.start, &other.end, &self.start);
        let o4 = Point::orientation(&other.start, &other.end, &self.end);
        if o1 != o2 && o3 != o4 {
            return true;
        }
        if o1 == PointOrientation::Collinear && self.box_holds(&other.start) {
            return true;
        }
        if o2 == PointOrientation::Collinear && self.box_holds(&other.end) {
            return true;
        }
        if o3 == PointOrientation::Collinear && other.box_holds(&self.start) {
            return true;
        }
        if o4 == PointOrientation::Collinear && other.box_holds(&self.end) {
            return true;
        }
        false
    }
}

} // verus!

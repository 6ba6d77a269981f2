//! Simple polygons: vertex sequences, neighbours, vertex classes and the
//! order in which a downward sweep meets the vertices.

use crate::primitives::{turn, DirEdge, Point, PointOrientation};
pub use crate::sweep::Trapezoidalization;
use vstd::prelude::*;

verus! {

/// A polygon given by its vertices in order, read circularly.
#[derive(Debug)]
pub struct SimplePolygon {
    point_list: Vec<Point>,
}

/// The class of a vertex with respect to a downward sweep.
#[derive(Clone, Copy, Debug, PartialEq, Eq, Structural)]
pub enum PointType {
    Split,
    Merge,
    Start,
    End,
    Regular,
}

/// The index that follows `i` on a ring of `n` vertices.
pub open spec fn next_index(n: int, i: int) -> int {
    if i + 1 >= n {
        0
    } else {
        i + 1
    }
}

/// The index that precedes `i` on a ring of `n` vertices.
pub open spec fn prev_index(n: int, i: int) -> int {
    if i <= 0 {
        n - 1
    } else {
        i - 1
    }
}

/// Whether the interior angle at vertex `i` exceeds a half turn, for a ring
/// that runs counter-clockwise.
pub open spec fn reflex_at(s: Seq<Point>, i: int) -> bool {
    let n = s.len() as int;
    turn(s[prev_index(n, i)], s[i], s[next_index(n, i)]) == PointOrientation::Clockwise
}

/// The class of vertex `i`: a local top is a start or, when reflex, a split;
/// a local bottom is an end or, when reflex, a merge; all others are regular.
pub open spec fn vertex_kind(s: Seq<Point>, i: int) -> PointType {
    let n = s.len() as int;
    let prev = s[prev_index(n, i)];
    let curr = s[i];
    let next = s[next_index(n, i)];
    if curr.higher_than(next) && curr.higher_than(prev) {
        if reflex_at(s, i) {
            PointType::Split
        } else {
            PointType::Start
        }
    } else if next.higher_than(curr) && prev.higher_than(curr) {
        if reflex_at(s, i) {
            PointType::Merge
        } else {
            PointType::End
        }
    } else {
        PointType::Regular
    }
}

/// The term of vertex `i` in the doubled signed area of the ring `s`.
pub open spec fn cross_term(s: Seq<Point>, i: int) -> int {
    let q = s[next_index(s.len() as int, i)];
    s[i].x * q.y - s[i].y * q.x
}

/// The sum of the terms of the first `k` vertices.
pub open spec fn area_upto(s: Seq<Point>, k: int) -> int
    decreases k,
{
    if k <= 0 {
        0
    } else {
        area_upto(s, k - 1) + cross_term(s, k - 1)
    }
}

/// Twice the signed area of the ring `s`: positive when it runs
/// counter-clockwise.
pub open spec fn determinant(s: Seq<Point>) -> int {
    area_upto(s, s.len() as int)
}

/// Edge `i` of the ring `s`, from vertex `i` to the next.
pub open spec fn edge_of(s: Seq<Point>, i: int) -> DirEdge {
    DirEdge { start: s[i], end: s[next_index(s.len() as int, i)] }
}

/// Whether edges `i` and `j` of a ring of `n` vertices differ and share no
/// vertex.
pub open spec fn edges_apart(n: int, i: int, j: int) -> bool {
    i != j && next_index(n, i) != j && next_index(n, j) != i
}

/// Whether no two edges of the ring `s` that share no vertex have a point in
/// common.
pub open spec fn uncrossed(s: Seq<Point>) -> bool {
    forall|i: int, j: int|
        0 <= i < s.len() && 0 <= j < s.len() && edges_apart(s.len() as int, i, j) ==> !(#[trigger] edge_of(s, i)).crosses(
            #[trigger] edge_of(s, j),
        )
}

/// Whether vertex `i` of the ring `s` makes a turn.
pub open spec fn bends_at(s: Seq<Point>, i: int) -> bool {
    let n = s.len() as int;
    turn(s[prev_index(n, i)], s[i], s[next_index(n, i)]) != PointOrientation::Collinear
}

/// Whether every vertex of the ring `s` makes a turn.
pub open spec fn bends(s: Seq<Point>) -> bool {
    forall|i: int| 0 <= i < s.len() ==> #[trigger] bends_at(s, i)
}

/// Whether the ring `s` is a simple polygon that runs counter-clockwise: at
/// least three vertices, all different, a turn at each, no two edges in
/// touch but neighbours at their common vertex, and no negative area.
pub open spec fn is_simple(s: Seq<Point>) -> bool {
    &&& s.len() >= 3
    &&& s.no_duplicates()
    &&& uncrossed(s)
    &&& bends(s)
    &&& determinant(s) >= 0
}

/// A simple polygon runs counter-clockwise: its doubled area is not
/// negative.
pub proof fn lemma_simple_area(s: Seq<Point>)
    requires
        is_simple(s),
    ensures
        determinant(s) >= 0,
{
}

/// Whether vertex `i` of the ring `s` is higher than both its neighbours.
pub open spec fn local_top(s: Seq<Point>, i: int) -> bool {
    let n = s.len() as int;
    s[i].higher_than(s[prev_index(n, i)]) && s[i].higher_than(s[next_index(n, i)])
}

/// Whether the ring `s` is y-monotone: it has one vertex only that is higher
/// than both its neighbours, so that its boundary falls from that vertex
/// along both sides down to the lowest vertex.
pub open spec fn y_monotone(s: Seq<Point>) -> bool {
    forall|i: int, j: int|
        0 <= i < s.len() && 0 <= j < s.len() && #[trigger] local_top(s, i) && #[trigger] local_top(s, j) ==> i == j
}

/// Whether `ev` lists every vertex index of `s` exactly once, highest vertex
/// first.
pub open spec fn is_event_order(s: Seq<Point>, ev: Seq<usize>) -> bool {
    &&& ev.len() == s.len()
    &&& forall|k: int| 0 <= k < ev.len() ==> (#[trigger] ev[k]) < s.len()
    &&& forall|v: usize| v < s.len() ==> #[trigger] ev.contains(v)
    &&& forall|a: int, b: int|
        0 <= a < b < ev.len() ==> s[#[trigger] ev[a] as int].higher_than(s[#[trigger] ev[b] as int])
}

impl View for SimplePolygon {
    type V = Seq<Point>;

    closed spec fn view(&self) -> Seq<Point> {
        self.point_list@
    }
}

impl SimplePolygon {
    #[verifier::type_invariant]
    spec fn inv(&self) -> bool {
        self.point_list@.len() >= 3 && self.point_list@.no_duplicates()
    }

    /// Whether no point occurs twice in `pl`.
    pub fn points_are_distinct(pl: &Vec<Point>) -> (r: bool)
        ensures
            r == pl@.no_duplicates(),
    {
        let n = pl.len();
        let mut i: usize = 0;
        while i < n
            invariant
                n == pl@.len(),
                i <= n,
                forall|a: int, b: int| 0 <= a < i && 0 <= b < a ==> pl@[a] != pl@[b],
            decreases n - i,
        {
            let mut j: usize = 0;
            while j < i
                invariant
                    n == pl@.len(),
                    i < n,
                    j <= i,
                    forall|b: int| 0 <= b < j ==> pl@[i as int] != pl@[b],
                decreases i - j,
            {
                if pl[i] == pl[j] {
                    return false;
                }
                j += 1;
            }
            i += 1;
        }
        true
    }

    /// A polygon on the given vertices, which must be at least three and all
    /// different. The ring is taken as it is: it is not reoriented.
    pub fn from_point_list(pl: Vec<Point>) -> (p: SimplePolygon)
        requires
            pl@.len() >= 3,
            pl@.no_duplicates(),
        ensures
            p@ == pl@,
    {
        SimplePolygon { point_list: pl }
    }

    /// The vertices in order: at least three, all different.
    pub fn get_point_list(&self) -> (r: &Vec<Point>)
        ensures
            r@ == self@,
            r@.len() >= 3,
            r@.no_duplicates(),
    {
        proof {
            use_type_invariant(self);
        }
        &self.point_list
    }

    pub fn get_next_index(&self, curr_idx: usize) -> (r: usize)
        requires
            curr_idx < self@.len(),
        ensures
            r == next_index(self@.len() as int, curr_idx as int),
            r < self@.len(),
    {
        let n = self.point_list.len();
        if curr_idx + 1 == n {
            0
        } else {
            curr_idx + 1
        }
    }

    pub fn get_prev_index(&self, curr_idx: usize) -> (r: usize)
        requires
            curr_idx < self@.len(),
        ensures
            r == prev_index(self@.len() as int, curr_idx as int),
            r < self@.len(),
    {
        if curr_idx == 0 {
            return self.point_list.len() - 1;
        }
        curr_idx - 1
    }

    pub fn is_reflex(&self, point_index: usize) -> (r: bool)
        requires
            point_index < self@.len(),
        ensures
            r == reflex_at(self@, point_index as int),
    {
        let prev = &self.point_list[self.get_prev_index(point_index)];
        let curr = &self.point_list[point_index];
        let next = &self.point_list[self.get_next_index(point_index)];
        Point::orientation(prev, curr, next) == PointOrientation::Clockwise
    }

    pub fn get_point_type(&self, curr_idx: usize) -> (r: PointType)
        requires
            curr_idx < self@.len(),
        ensures
            r == vertex_kind(self@, curr_idx as int),
    {
        proof {
            use_type_invariant(self);
        }
        let curr = &self.point_list[curr_idx];
        let next_idx = self.get_next_index(curr_idx);
        let next = &self.point_list[next_idx];
        let prev_idx = self.get_prev_index(curr_idx);
        let prev = &self.point_list[prev_idx];
        let rflx = self.is_reflex(curr_idx);
        if curr.is_higher_than(next) && curr.is_higher_than(prev) {
            if rflx {
                PointType::Split
            } else {
                PointType::Start
            }
        } else if next.is_higher_than(curr) && prev.is_higher_than(curr) {
            if rflx {
                PointType::Merge
            } else {
                PointType::End
            }
        } else {
            PointType::Regular
        }
    }

    /// Twice the signed area of the polygon, which must fit the result.
    pub fn get_determinant(&self) -> (d: isize)
        requires
            isize::MIN <= determinant(self@) <= isize::MAX,
        ensures
            d == determinant(self@),
    {
        let n = self.point_list.len();
        let mut acc: i128 = 0;
        let ghost mut wraps: int = 0;
        let mut i: usize = 0;
        while i < n
            invariant
                n == self.point_list@.len(),
                i <= n,
                acc == area_upto(self@, i as int) + wraps * 0x1_0000_0000_0000_0000_0000_0000_0000_0000,
            decreases n - i,
        {
            let p_curr = &self.point_list[i];
            let p_next = &self.point_list[if i + 1 == n { 0 } else { i + 1 }];
            proof {
                lemma_product_range(p_curr.x as int, p_next.y as int);
                lemma_product_range(p_curr.y as int, p_next.x as int);
            }
            let val: i128 = (p_curr.x as i128) * (p_next.y as i128) - (p_curr.y as i128) * (p_next.x as i128);
            let ghost before = acc;
            acc = acc.wrapping_add(val);
            proof {
                if before + val > i128::MAX {
                    wraps = wraps - 1;
                } else if before + val < i128::MIN {
                    wraps = wraps + 1;
                }
            }
            i += 1;
        }
        proof {
            assert(wraps == 0) by (nonlinear_arith)
                requires
                    acc == determinant(self@) + wraps * 0x1_0000_0000_0000_0000_0000_0000_0000_0000,
                    -0x8000_0000_0000_0000_0000_0000_0000_0000 <= acc <= 0x7fff_ffff_ffff_ffff_ffff_ffff_ffff_ffff,
                    -0x8000_0000_0000_0000 <= determinant(self@) <= 0x7fff_ffff_ffff_ffff,
            ;
        }
        acc as isize
    }

    /// Whether the polygon is y-monotone.
    pub fn is_y_monotone(&self) -> (r: bool)
        ensures
            r == y_monotone(self@),
    {
        proof {
            use_type_invariant(self);
        }
        let n = self.point_list.len();
        let mut top: Option<usize> = None;
        let mut i: usize = 0;
        while i < n
            invariant
                n == self.point_list@.len(),
                n >= 3,
                self.point_list@.no_duplicates(),
                i <= n,
                top matches Some(t) ==> t < i && local_top(self@, t as int),
                forall|a: int| 0 <= a < i && local_top(self@, a) ==> top == Some(a as usize),
            decreases n - i,
        {
            let curr = &self.point_list[i];
            let prev = &self.point_list[self.get_prev_index(i)];
            let next = &self.point_list[self.get_next_index(i)];
            if curr.is_higher_than(prev) && curr.is_higher_than(next) {
                if let Some(t) = top {
                    assert(local_top(self@, t as int) && local_top(self@, i as int) && t != i);
                    return false;
                }
                top = Some(i);
            }
            i += 1;
        }
        true
    }

    /// The vertex indices, highest vertex first.
    pub fn event_order(&self) -> (ev: Vec<usize>)
        ensures
            is_event_order(self@, ev@),
    {
        proof {
            use_type_invariant(self);
        }
        let n = self.point_list.len();
        let mut ev: Vec<usize> = Vec::new();
        let mut i: usize = 0;
        while i < n
            invariant
                n == self.point_list@.len(),
                self.point_list@.no_duplicates(),
                i <= n,
                ev@.len() == i,
                forall|k: int| 0 <= k < ev@.len() ==> (#[trigger] ev@[k]) < i,
                forall|v: usize| v < i ==> #[trigger] ev@.contains(v),
                forall|a: int, b: int|
                    0 <= a < b < ev@.len() ==> self.point_list@[#[trigger] ev@[a] as int].higher_than(
                        self.point_list@[#[trigger] ev@[b] as int],
                    ),
            decreases n - i,
        {
            let mut p: usize = 0;
            while p < ev.len() && self.point_list[ev[p]].is_higher_than(&self.point_list[i])
                invariant
                    n == self.point_list@.len(),
                    self.point_list@.no_duplicates(),
                    i < n,
                    ev@.len() == i,
                    p <= ev@.len(),
                    forall|k: int| 0 <= k < ev@.len() ==> (#[trigger] ev@[k]) < i,
                    forall|k: int|
                        0 <= k < p ==> self.point_list@[#[trigger] ev@[k] as int].higher_than(
                            self.point_list@[i as int],
                        ),
                decreases ev@.len() - p,
            {
                p += 1;
            }
            let ghost before = ev@;
            ev.insert(p, i);
            proof {
                let pts = self.point_list@;
                assert forall|v: usize| v < i + 1 implies #[trigger] ev@.contains(v) by {
                    if v < i {
                        assert(before.contains(v));
                        let k0 = choose|k: int| 0 <= k < before.len() && before[k] == v;
                        if k0 < p {
                            assert(ev@[k0] == v);
                        } else {
                            assert(ev@[k0 + 1] == v);
                        }
                    } else {
                        assert(ev@[p as int] == v);
                    }
                }
                assert forall|a: int, b: int| 0 <= a < b < ev@.len() implies pts[#[trigger] ev@[a] as int].higher_than(
                    pts[#[trigger] ev@[b] as int],
                ) by {
                    let ia = if a < p { a } else { a - 1 };
                    let ib = if b < p { b } else { b - 1 };
                    if a == p {
                        // the new vertex against one that was at or after `p`
                        assert(before[ib] == ev@[b]);
                        if ib > p {
                            assert(pts[before[p as int] as int].higher_than(pts[before[ib] as int]));
                        }
                    } else if b == p {
                        assert(before[ia] == ev@[a]);
                    } else {
                        assert(before[ia] == ev@[a]);
                        assert(before[ib] == ev@[b]);
                    }
                }
            }
            i += 1;
        }
        ev
    }
}

/// The first place of `ev`, from `from` on, whose vertex is not higher than
/// the point `x`.
pub open spec fn slot_for(s: Seq<Point>, ev: Seq<usize>, x: Point, from: int) -> int
    decreases ev.len() - from,
{
    if from < 0 || from >= ev.len() || !s[ev[from] as int].higher_than(x) {
        from
    } else {
        slot_for(s, ev, x, from + 1)
    }
}

proof fn lemma_slot_for(s: Seq<Point>, ev: Seq<usize>, x: Point, from: int)
    requires
        0 <= from <= ev.len(),
    ensures
        from <= slot_for(s, ev, x, from) <= ev.len(),
        forall|k: int| from <= k < slot_for(s, ev, x, from) ==> s[#[trigger] ev[k] as int].higher_than(x),
        slot_for(s, ev, x, from) < ev.len() ==> !s[ev[slot_for(s, ev, x, from)] as int].higher_than(x),
    decreases ev.len() - from,
{
    if from < ev.len() && s[ev[from] as int].higher_than(x) {
        lemma_slot_for(s, ev, x, from + 1);
    }
}

/// The first `k` vertex indices of `s`, highest vertex first.
pub open spec fn sorted_events(s: Seq<Point>, k: int) -> Seq<usize>
    decreases k,
{
    if k <= 0 {
        Seq::empty()
    } else {
        let ev = sorted_events(s, k - 1);
        ev.insert(slot_for(s, ev, s[k - 1], 0), (k - 1) as usize)
    }
}

proof fn lemma_sorted_events(s: Seq<Point>, k: int)
    requires
        s.no_duplicates(),
        0 <= k <= s.len() <= usize::MAX,
    ensures
        sorted_events(s, k).len() == k,
        forall|a: int| 0 <= a < k ==> (#[trigger] sorted_events(s, k)[a]) < k,
        forall|v: usize| v < k ==> #[trigger] sorted_events(s, k).contains(v),
        forall|a: int, b: int|
            0 <= a < b < k ==> s[#[trigger] sorted_events(s, k)[a] as int].higher_than(
                s[#[trigger] sorted_events(s, k)[b] as int],
            ),
    decreases k,
{
    if k > 0 {
        lemma_sorted_events(s, k - 1);
        let before = sorted_events(s, k - 1);
        let x = s[k - 1];
        let p = slot_for(s, before, x, 0);
        lemma_slot_for(s, before, x, 0);
        let ev = sorted_events(s, k);
        let i = (k - 1) as usize;
        assert(ev == before.insert(p, i));
        assert forall|a: int| 0 <= a < k implies (#[trigger] ev[a]) < k by {
            if a < p {
                assert(ev[a] == before[a]);
            } else if a > p {
                assert(ev[a] == before[a - 1]);
            }
        }
        assert forall|v: usize| v < k implies #[trigger] ev.contains(v) by {
            if v < k - 1 {
                assert(before.contains(v));
                let k0 = choose|k0: int| 0 <= k0 < before.len() && before[k0] == v;
                if k0 < p {
                    assert(ev[k0] == v);
                } else {
                    assert(ev[k0 + 1] == v);
                }
            } else {
                assert(ev[p] == v);
            }
        }
        assert forall|a: int, b: int| 0 <= a < b < k implies s[#[trigger] ev[a] as int].higher_than(
            s[#[trigger] ev[b] as int],
        ) by {
            let ia = if a < p { a } else { a - 1 };
            let ib = if b < p { b } else { b - 1 };
            if a == p {
                assert(before[ib] == ev[b]);
                assert(before[ib] < k - 1);
                assert(s[before[p] as int] != x);
                if ib > p {
                    assert(s[before[p] as int].higher_than(s[before[ib] as int]));
                }
            } else if b == p {
                assert(before[ia] == ev[a]);
            } else {
                assert(before[ia] == ev[a]);
                assert(before[ib] == ev[b]);
            }
        }
    }
}

/// Points that are all different have an order of events.
pub proof fn lemma_event_order_exists(s: Seq<Point>)
    requires
        s.no_duplicates(),
        s.len() <= usize::MAX,
    ensures
        is_event_order(s, sorted_events(s, s.len() as int)),
{
    lemma_sorted_events(s, s.len() as int);
}

/// The product of two coordinates stays well inside 128 bits.
proof fn lemma_product_range(a: int, b: int)
    requires
        -0x8000_0000_0000_0000 <= a <= 0x7fff_ffff_ffff_ffff,
        -0x8000_0000_0000_0000 <= b <= 0x7fff_ffff_ffff_ffff,
    ensures
        -0x3fff_ffff_ffff_ffff_8000_0000_0000_0000 <= a * b <= 0x4000_0000_0000_0000_0000_0000_0000_0000,
{
    assert(-0x3fff_ffff_ffff_ffff_8000_0000_0000_0000 <= a * b <= 0x4000_0000_0000_0000_0000_0000_0000_0000)
        by (nonlinear_arith)
        requires
            -0x8000_0000_0000_0000 <= a <= 0x7fff_ffff_ffff_ffff,
            -0x8000_0000_0000_0000 <= b <= 0x7fff_ffff_ffff_ffff,
    {
        if a >= 0 && b >= 0 {
            assert(a * b <= 0x7fff_ffff_ffff_ffff * 0x7fff_ffff_ffff_ffff);
            assert(a * b >= 0);
        } else if a < 0 && b < 0 {
            assert((-a) * (-b) <= 0x8000_0000_0000_0000 * 0x8000_0000_0000_0000);
            assert(a * b == (-a) * (-b));
            assert(a * b >= 0);
        } else if a < 0 {
            assert((-a) * b <= 0x8000_0000_0000_0000 * 0x7fff_ffff_ffff_ffff);
            assert(a * b == -((-a) * b));
            assert((-a) * b >= 0);
        } else {
            assert(a * (-b) <= 0x7fff_ffff_ffff_ffff * 0x8000_0000_0000_0000);
            assert(a * b == -(a * (-b)));
            assert(a * (-b) >= 0);
        }
    }
}

} // verus!

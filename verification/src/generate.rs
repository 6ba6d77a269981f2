//! A rejection sampler for simple polygons, and the facts about crossing
//! edges and reversed rings that its result rests on.

use crate::polygon::{
    area_upto, bends, bends_at, cross_term, determinant, edge_of, edges_apart, is_simple, next_index, prev_index,
    uncrossed, SimplePolygon,
};
use crate::primitives::{in_box, turn, turn_value, DirEdge, Point, PointOrientation};
use rand::rngs::ThreadRng;
use rand::Rng;
use vstd::prelude::*;

verus! {

/// `rand::rngs::ThreadRng`, the random number generator of the thread.
/// Nothing is assumed of its state.
#[verifier::external_type_specification]
#[verifier::external_body]
pub struct ExThreadRng(ThreadRng);

/// `rand::thread_rng`: a handle to the generator of the thread.
pub assume_specification[ rand::thread_rng ]() -> (r: ThreadRng)
;

/// `Rng::gen_range` on `0..bound`: some number below `bound`. The range must
/// not be empty.
#[verifier::external_body]
fn random_below(rng: &mut ThreadRng, bound: usize) -> (r: usize)
    requires
        bound > 0,
    ensures
        r < bound,
{
    rng.gen_range(0..bound)
}

/// The edge `e` run the other way.
pub open spec fn turned(e: DirEdge) -> DirEdge {
    DirEdge { start: e.end, end: e.start }
}

/// The ring `s` run the other way.
pub open spec fn reversed(s: Seq<Point>) -> Seq<Point> {
    Seq::new(s.len(), |i: int| s[s.len() - 1 - i])
}

/// Segment `j` of the open chain `s`, from point `j` to the next.
pub open spec fn chain_seg(s: Seq<Point>, j: int) -> DirEdge {
    DirEdge { start: s[j], end: s[j + 1] }
}

/// Whether no two segments of the chain on the first `m` points of `s` that
/// share no point have a point in common.
pub open spec fn chain_clear(s: Seq<Point>, m: int) -> bool {
    forall|j: int, k: int|
        0 <= k && k + 2 <= j && j + 1 < m ==> !(#[trigger] chain_seg(s, j)).crosses(#[trigger] chain_seg(s, k))
}

/// Whether every point of `s` has both coordinates in `0..bound`.
pub open spec fn within(s: Seq<Point>, bound: int) -> bool {
    forall|i: int| 0 <= i < s.len() ==> 0 <= (#[trigger] s[i]).x < bound && 0 <= s[i].y < bound
}

/// Run from the last point to the first, three points turn the other way.
pub proof fn lemma_turn_back(p: Point, q: Point, r: Point)
    ensures
        turn_value(r, q, p) == -turn_value(p, q, r),
        (turn(r, q, p) == PointOrientation::Collinear) == (turn(p, q, r) == PointOrientation::Collinear),
{
    assert(turn_value(r, q, p) == -turn_value(p, q, r)) by (nonlinear_arith)
        requires
            turn_value(r, q, p) == (q.y - r.y) * (p.x - q.x) - (q.x - r.x) * (p.y - q.y),
            turn_value(p, q, r) == (q.y - p.y) * (r.x - q.x) - (q.x - p.x) * (r.y - q.y),
    ;
}

/// Seen from an edge run the other way, a point lies on the other side.
pub proof fn lemma_turn_swap(a: Point, b: Point, x: Point)
    ensures
        turn_value(b, a, x) == -turn_value(a, b, x),
{
    assert(turn_value(b, a, x) == -turn_value(a, b, x)) by (nonlinear_arith)
        requires
            turn_value(b, a, x) == (a.y - b.y) * (x.x - a.x) - (a.x - b.x) * (x.y - a.y),
            turn_value(a, b, x) == (b.y - a.y) * (x.x - b.x) - (b.x - a.x) * (x.y - b.y),
    ;
}

/// Two edges cross whichever is asked first.
pub proof fn lemma_crosses_symmetric(e1: DirEdge, e2: DirEdge)
    ensures
        e1.crosses(e2) == e2.crosses(e1),
{
}

/// An edge crosses what it crosses when run the other way.
pub proof fn lemma_crosses_turned(e1: DirEdge, e2: DirEdge)
    ensures
        turned(e1).crosses(e2) == e1.crosses(e2),
        e2.crosses(turned(e1)) == e2.crosses(e1),
{
    lemma_turn_swap(e1.start, e1.end, e2.start);
    lemma_turn_swap(e1.start, e1.end, e2.end);
    lemma_crosses_symmetric(e1, e2);
    lemma_crosses_symmetric(turned(e1), e2);
}

/// Two edges that start at the same point cross.
pub proof fn lemma_common_start_crosses(e1: DirEdge, e2: DirEdge)
    requires
        e1.start == e2.start,
    ensures
        e1.crosses(e2),
{
    assert(turn_value(e2.start, e2.end, e2.start) == 0) by (nonlinear_arith)
        requires
            turn_value(e2.start, e2.end, e2.start) == (e2.end.y - e2.start.y) * (e2.start.x - e2.end.x) - (e2.end.x
                - e2.start.x) * (e2.start.y - e2.end.y),
    ;
    assert(in_box(e2.start, e2.end, e1.start));
}

/// Three points of which the first two are the same make no turn.
proof fn lemma_no_turn_from_twice(p: Point, r: Point)
    ensures
        turn(p, p, r) == PointOrientation::Collinear,
        turn(r, p, p) == PointOrientation::Collinear,
{
    assert(turn_value(p, p, r) == 0) by (nonlinear_arith)
        requires
            turn_value(p, p, r) == (p.y - p.y) * (r.x - p.x) - (p.x - p.x) * (r.y - p.y),
    ;
    assert(turn_value(r, p, p) == 0) by (nonlinear_arith)
        requires
            turn_value(r, p, p) == (p.y - r.y) * (p.x - p.x) - (p.x - r.x) * (p.y - p.y),
    ;
}

/// A ring with a turn at every vertex and no two edges in touch but
/// neighbours has no point twice.
pub proof fn lemma_simple_distinct(s: Seq<Point>)
    requires
        s.len() >= 3,
        uncrossed(s),
        bends(s),
    ensures
        s.no_duplicates(),
{
    let n = s.len() as int;
    assert forall|i: int, j: int| 0 <= i < n && 0 <= j < n && i != j implies s[i] != s[j] by {
        if s[i] == s[j] {
            if next_index(n, i) == j {
                assert(bends_at(s, j));
                lemma_no_turn_from_twice(s[j], s[next_index(n, j)]);
            } else if next_index(n, j) == i {
                assert(bends_at(s, i));
                lemma_no_turn_from_twice(s[i], s[next_index(n, i)]);
            } else {
                lemma_common_start_crosses(edge_of(s, i), edge_of(s, j));
                assert(edges_apart(n, i, j));
            }
        }
    }
}

/// A chain that is clear, closed by an edge that touches none of its inner
/// segments, is a ring in which no two edges touch but neighbours.
proof fn lemma_ring_uncrossed(s: Seq<Point>)
    requires
        s.len() >= 3,
        chain_clear(s, s.len() as int),
        forall|k: int|
            1 <= k && k + 2 < s.len() ==> !(DirEdge { start: s[0], end: s[s.len() - 1] }).crosses(
                #[trigger] chain_seg(s, k),
            ),
    ensures
        uncrossed(s),
{
    let n = s.len() as int;
    let closing = DirEdge { start: s[n - 1], end: s[0] };
    assert forall|i: int, j: int| 0 <= i < n && 0 <= j < n && edges_apart(n, i, j) implies !(#[trigger] edge_of(s, i)).crosses(
        #[trigger] edge_of(s, j),
    ) by {
        if i < n - 1 && j < n - 1 {
            assert(edge_of(s, i) == chain_seg(s, i));
            assert(edge_of(s, j) == chain_seg(s, j));
            if i > j {
                assert(!chain_seg(s, i).crosses(chain_seg(s, j)));
            } else {
                assert(!chain_seg(s, j).crosses(chain_seg(s, i)));
                lemma_crosses_symmetric(chain_seg(s, i), chain_seg(s, j));
            }
        } else if i == n - 1 {
            assert(edge_of(s, i) == closing);
            assert(edge_of(s, j) == chain_seg(s, j));
            assert(!turned(closing).crosses(chain_seg(s, j)));
            lemma_crosses_turned(closing, chain_seg(s, j));
        } else {
            assert(edge_of(s, j) == closing);
            assert(edge_of(s, i) == chain_seg(s, i));
            assert(!turned(closing).crosses(chain_seg(s, i)));
            lemma_crosses_turned(closing, chain_seg(s, i));
            lemma_crosses_symmetric(closing, chain_seg(s, i));
        }
    }
}

/// The place, on the ring run the other way, of edge `i`.
pub open spec fn mirrored(n: int, i: int) -> int {
    if i == n - 1 {
        n - 1
    } else {
        n - 2 - i
    }
}

/// A simple ring run the other way is simple but for its sense, and has the
/// opposite area.
pub proof fn lemma_reversed(s: Seq<Point>)
    requires
        s.len() >= 3,
        s.no_duplicates(),
        uncrossed(s),
        bends(s),
    ensures
        reversed(s).len() == s.len(),
        reversed(s).no_duplicates(),
        uncrossed(reversed(s)),
        bends(reversed(s)),
        determinant(reversed(s)) == -determinant(s),
{
    let n = s.len() as int;
    let r = reversed(s);
    assert forall|i: int, j: int| 0 <= i < n && 0 <= j < n && i != j implies r[i] != r[j] by {}
    assert forall|i: int, j: int| 0 <= i < n && 0 <= j < n && edges_apart(n, i, j) implies !(#[trigger] edge_of(r, i)).crosses(
        #[trigger] edge_of(r, j),
    ) by {
        let a = mirrored(n, i);
        let b = mirrored(n, j);
        assert(edge_of(r, i) == turned(edge_of(s, a)));
        assert(edge_of(r, j) == turned(edge_of(s, b)));
        assert(edges_apart(n, a, b));
        assert(!edge_of(s, a).crosses(edge_of(s, b)));
        lemma_crosses_turned(edge_of(s, a), edge_of(s, b));
        lemma_crosses_turned(edge_of(s, b), turned(edge_of(s, a)));
    }
    assert forall|i: int| 0 <= i < n implies #[trigger] bends_at(r, i) by {
        let v = n - 1 - i;
        assert(bends_at(s, v));
        assert(r[prev_index(n, i)] == s[next_index(n, v)]);
        assert(r[next_index(n, i)] == s[prev_index(n, v)]);
        lemma_turn_back(s[prev_index(n, v)], s[v], s[next_index(n, v)]);
    }
    lemma_reversed_area(s, n - 1);
    lemma_area_between_all(s, n - 1);
    assert(cross_term(r, n - 1) == -cross_term(s, n - 1)) by {
        assert(r[n - 1] == s[0]);
        assert(r[0] == s[n - 1]);
        lemma_cross_negated(s[n - 1], s[0]);
    }
    assert(area_upto(r, n) == area_upto(r, n - 1) + cross_term(r, n - 1));
    assert(area_upto(s, n) == area_upto(s, n - 1) + cross_term(s, n - 1));
}

/// A term of the area changes sign when its two points change places.
proof fn lemma_cross_negated(a: Point, b: Point)
    ensures
        b.x * a.y - b.y * a.x == -(a.x * b.y - a.y * b.x),
{
    assert(b.x * a.y - b.y * a.x == -(a.x * b.y - a.y * b.x)) by (nonlinear_arith);
}

/// A ring run the other way has as many points.
proof fn lemma_reversed_len(s: Seq<Point>)
    ensures
        reversed(s).len() == s.len(),
        oriented(s).len() == s.len(),
{
}

/// The sum of the terms of the vertices `from` up to, not including, `to`.
pub open spec fn area_between(s: Seq<Point>, from: int, to: int) -> int
    decreases to - from,
{
    if to <= from {
        0
    } else {
        cross_term(s, from) + area_between(s, from + 1, to)
    }
}

proof fn lemma_area_between_last(s: Seq<Point>, from: int, to: int)
    requires
        from < to,
    ensures
        area_between(s, from, to) == area_between(s, from, to - 1) + cross_term(s, to - 1),
    decreases to - from,
{
    if from + 1 < to {
        lemma_area_between_last(s, from + 1, to);
        assert(area_between(s, from, to - 1) == cross_term(s, from) + area_between(s, from + 1, to - 1));
    } else {
        assert(area_between(s, from + 1, to) == 0);
        assert(area_between(s, from, to - 1) == 0);
    }
}

proof fn lemma_area_between_all(s: Seq<Point>, to: int)
    requires
        0 <= to,
    ensures
        area_between(s, 0, to) == area_upto(s, to),
    decreases to,
{
    if to > 0 {
        lemma_area_between_all(s, to - 1);
        lemma_area_between_last(s, 0, to);
    }
}

/// The first `k` terms of the ring run the other way are, negated, the `k`
/// terms of the ring that end before its last.
proof fn lemma_reversed_area(s: Seq<Point>, k: int)
    requires
        s.len() >= 3,
        0 <= k <= s.len() - 1,
    ensures
        area_upto(reversed(s), k) == -area_between(s, s.len() - 1 - k, s.len() - 1),
    decreases k,
{
    let n = s.len() as int;
    let r = reversed(s);
    if k > 0 {
        lemma_reversed_area(s, k - 1);
        let i = k - 1;
        assert(r[i] == s[n - 1 - i]);
        assert(r[next_index(n, i)] == s[n - 2 - i]);
        lemma_cross_negated(s[n - 2 - i], s[n - 1 - i]);
        assert(cross_term(r, i) == -cross_term(s, n - 2 - i));
    }
}

/// The area of a ring in a square of side `bound` is bounded by the square
/// of the side, times the number of vertices.
proof fn lemma_area_bound(s: Seq<Point>, bound: int, k: int)
    requires
        within(s, bound),
        0 <= k <= s.len(),
    ensures
        -(k * (bound * bound)) <= area_upto(s, k) <= k * (bound * bound),
    decreases k,
{
    if k > 0 {
        lemma_area_bound(s, bound, k - 1);
        let n = s.len() as int;
        let p = s[k - 1];
        let q = s[next_index(n, k - 1)];
        assert(-(bound * bound) <= p.x * q.y - p.y * q.x <= bound * bound) by (nonlinear_arith)
            requires
                0 <= p.x < bound,
                0 <= p.y < bound,
                0 <= q.x < bound,
                0 <= q.y < bound,
        {
            assert(0 <= p.x * q.y <= bound * bound);
            assert(0 <= p.y * q.x <= bound * bound);
        }
        assert(k * (bound * bound) == (k - 1) * (bound * bound) + bound * bound) by (nonlinear_arith);
    }
}

/// Whether the point `p` may follow the chain `s` of two points or more: it
/// is not the last point but one, and the segment that it adds touches none
/// of the segments of the chain but the last.
pub open spec fn fits_chain(s: Seq<Point>, p: Point) -> bool {
    &&& p != s[s.len() - 2]
    &&& forall|k: int|
        0 <= k && k + 2 < s.len() ==> !(#[trigger] chain_seg(s.push(p), k)).crosses(chain_seg(s.push(p), s.len() - 1))
}

/// Whether the chain `s` grew point by point: its second point is not its
/// first, and every later point fits the chain before it.
pub open spec fn chain_grown(s: Seq<Point>) -> bool {
    &&& s.len() >= 2
    &&& s[1] != s[0]
    &&& forall|j: int| 2 <= j < s.len() ==> fits_chain(#[trigger] s.take(j), s[j])
}

/// Whether the chain `s` closes to a ring: the edge from its last point to
/// its first touches none of its segments but the first and the last, and
/// the ring makes a turn at every vertex.
pub open spec fn ring_closes(s: Seq<Point>) -> bool {
    &&& forall|k: int|
        1 <= k && k + 2 < s.len() ==> !(DirEdge { start: s[0], end: s[s.len() - 1] }).crosses(
            #[trigger] chain_seg(s, k),
        )
    &&& bends(s)
}

/// Whether an attempt keeps the chain `s` of `n` points in the square of
/// side `bound`: it grew point by point and closes to a ring.
pub open spec fn kept(s: Seq<Point>, n: int, bound: int) -> bool {
    &&& s.len() == n
    &&& n >= 3
    &&& within(s, bound)
    &&& chain_grown(s)
    &&& ring_closes(s)
}

/// The ring `s` as it is where it runs counter-clockwise, and run the other
/// way where it does not.
pub open spec fn oriented(s: Seq<Point>) -> Seq<Point> {
    if determinant(s) < 0 {
        reversed(s)
    } else {
        s
    }
}

/// A chain that grew point by point is clear.
pub proof fn lemma_grown_clear(s: Seq<Point>)
    requires
        chain_grown(s),
    ensures
        chain_clear(s, s.len() as int),
{
    assert forall|j: int, k: int| 0 <= k && k + 2 <= j && j + 1 < s.len() implies !(#[trigger] chain_seg(s, j)).crosses(
        #[trigger] chain_seg(s, k),
    ) by {
        let before = s.take(j + 1);
        let p = s[j + 1];
        assert(fits_chain(before, p));
        let s2 = before.push(p);
        assert(chain_seg(s2, k) == chain_seg(s, k));
        assert(chain_seg(s2, j) == chain_seg(s, j));
        assert(!chain_seg(s2, k).crosses(chain_seg(s2, before.len() - 1)));
        lemma_crosses_symmetric(chain_seg(s, j), chain_seg(s, k));
    }
}

/// A chain that an attempt keeps is a ring in which no two edges touch but
/// neighbours, with a turn at every vertex and no point twice.
pub proof fn lemma_kept_ring(s: Seq<Point>, n: int, bound: int)
    requires
        kept(s, n, bound),
    ensures
        uncrossed(s),
        bends(s),
        s.no_duplicates(),
{
    lemma_grown_clear(s);
    lemma_ring_uncrossed(s);
    lemma_simple_distinct(s);
}

/// A random point with both coordinates in `0..max_coord`.
fn gen_rand_point(rng: &mut ThreadRng, max_coord: usize) -> (p: Point)
    requires
        0 < max_coord <= isize::MAX,
    ensures
        0 <= p.x < max_coord,
        0 <= p.y < max_coord,
{
    let rand_x = random_below(rng, max_coord);
    let rand_y = random_below(rng, max_coord);
    Point::new(rand_x as isize, rand_y as isize)
}

/// Whether the segment from the last point of `pl` to `p` touches none of
/// the segments of the chain `pl` but the last.
fn leads_clear(pl: &Vec<Point>, p: &Point) -> (r: bool)
    requires
        pl@.len() >= 2,
    ensures
        r == forall|k: int|
            0 <= k && k + 2 < pl@.len() ==> !(#[trigger] chain_seg(pl@.push(*p), k)).crosses(
                chain_seg(pl@.push(*p), pl@.len() - 1),
            ),
{
    let m = pl.len();
    let leading_edge = DirEdge::from_points(p, &pl[m - 1]);
    let ghost s2 = pl@.push(*p);
    let mut k: usize = 0;
    while k + 2 < m
        invariant
            m == pl@.len(),
            m >= 2,
            k + 2 <= m,
            s2 == pl@.push(*p),
            leading_edge == turned(chain_seg(s2, m - 1)),
            forall|a: int| 0 <= a < k ==> !(#[trigger] chain_seg(s2, a)).crosses(chain_seg(s2, m - 1)),
        decreases m - k,
    {
        let curr_edge = DirEdge::from_points(&pl[k], &pl[k + 1]);
        proof {
            assert(curr_edge == chain_seg(s2, k as int));
            lemma_crosses_turned(chain_seg(s2, m - 1), curr_edge);
            lemma_crosses_symmetric(chain_seg(s2, m - 1), curr_edge);
        }
        if leading_edge.intersects(&curr_edge) {
            return false;
        }
        k += 1;
    }
    true
}

/// Whether the point `p` may follow the chain `pl`.
fn admits(pl: &Vec<Point>, p: &Point) -> (r: bool)
    requires
        pl@.len() >= 2,
    ensures
        r == fits_chain(pl@, *p),
{
    *p != pl[pl.len() - 2] && leads_clear(pl, p)
}

/// Whether the chain `pl` closes to a ring.
fn closes(pl: &Vec<Point>) -> (r: bool)
    requires
        pl@.len() >= 3,
    ensures
        r == ring_closes(pl@),
{
    let n = pl.len();
    let final_edge = DirEdge::from_points(&pl[0], &pl[n - 1]);
    let mut k: usize = 1;
    while k + 2 < n
        invariant
            n == pl@.len(),
            n >= 3,
            1 <= k,
            k + 2 <= n,
            final_edge == (DirEdge { start: pl@[0], end: pl@[n - 1] }),
            forall|a: int| 1 <= a < k ==> !final_edge.crosses(#[trigger] chain_seg(pl@, a)),
        decreases n - k,
    {
        let curr_edge = DirEdge::from_points(&pl[k], &pl[k + 1]);
        if final_edge.intersects(&curr_edge) {
            assert(final_edge.crosses(chain_seg(pl@, k as int)));
            return false;
        }
        k += 1;
    }
    let mut v: usize = 0;
    while v < n
        invariant
            n == pl@.len(),
            n >= 3,
            v <= n,
            forall|a: int| 0 <= a < v ==> #[trigger] bends_at(pl@, a),
        decreases n - v,
    {
        let p0 = &pl[if v == 0 { n - 1 } else { v - 1 }];
        let p1 = &pl[v];
        let p2 = &pl[if v + 1 == n { 0 } else { v + 1 }];
        if let PointOrientation::Collinear = Point::orientation(p0, p1, p2) {
            assert(!bends_at(pl@, v as int));
            return false;
        }
        v += 1;
    }
    true
}

/// The polygon on the ring `pl`, run the other way where the ring runs
/// clockwise.
fn counter_clockwise(pl: Vec<Point>, Ghost(bound): Ghost<int>) -> (p: SimplePolygon)
    requires
        kept(pl@, pl@.len() as int, bound),
        pl@.len() * (bound * bound) <= isize::MAX,
    ensures
        p@ == oriented(pl@),
        is_simple(p@),
        within(p@, bound),
{
    proof {
        lemma_kept_ring(pl@, pl@.len() as int, bound);
        lemma_area_bound(pl@, bound, pl@.len() as int);
        lemma_reversed(pl@);
    }
    let ghost s = pl@;
    let x = SimplePolygon::from_point_list(pl);
    let d = x.get_determinant();
    if d < 0 {
        let back = reversed_list(x.get_point_list());
        proof {
            assert forall|i: int| 0 <= i < back@.len() implies 0 <= (#[trigger] back@[i]).x < bound && 0 <= back@[i].y
                < bound by {
                assert(back@[i] == s[s.len() - 1 - i]);
            }
        }
        return SimplePolygon::from_point_list(back);
    }
    x
}

/// One attempt at a polygon: a chain of random points, each kept only if
/// the segment it adds touches no earlier one but its neighbour, closed by
/// an edge that must touch none either, with a turn at every vertex. Each
/// point gets `retry_cnt` tries; without a try there is no polygon.
fn engine(rng: &mut ThreadRng, vertex_count: usize, max_coord: usize, retry_cnt: usize) -> (r: Option<Vec<Point>>)
    requires
        vertex_count >= 3,
        0 < max_coord <= isize::MAX,
    ensures
        r matches Some(pl) ==> kept(pl@, vertex_count as int, max_coord as int),
        retry_cnt == 0 ==> r is None,
{
    let mut point_list: Vec<Point> = Vec::new();
    let p1 = gen_rand_point(rng, max_coord);
    let mut p2 = gen_rand_point(rng, max_coord);
    let mut first_tries: usize = 0;
    while p2 == p1
        invariant
            0 < max_coord <= isize::MAX,
            0 <= p2.x < max_coord,
            0 <= p2.y < max_coord,
            first_tries <= retry_cnt,
        decreases retry_cnt - first_tries,
    {
        if first_tries >= retry_cnt {
            return None;
        }
        first_tries += 1;
        p2 = gen_rand_point(rng, max_coord);
    }
    point_list.push(p1);
    point_list.push(p2);
    let mut idx: usize = 2;
    while idx < vertex_count
        invariant
            0 < max_coord <= isize::MAX,
            2 <= idx <= vertex_count,
            point_list@.len() == idx,
            within(point_list@, max_coord as int),
            chain_grown(point_list@),
            idx > 2 ==> retry_cnt > 0,
        decreases vertex_count - idx,
    {
        let mut inner_retry_cnt: usize = 0;
        let mut chosen: Option<Point> = None;
        while chosen.is_none()
            invariant
                0 < max_coord <= isize::MAX,
                2 <= idx,
                point_list@.len() == idx,
                inner_retry_cnt <= retry_cnt,
                chosen is Some ==> retry_cnt > 0,
                chosen matches Some(p) ==> {
                    &&& 0 <= p.x < max_coord
                    &&& 0 <= p.y < max_coord
                    &&& fits_chain(point_list@, p)
                },
            decreases retry_cnt - inner_retry_cnt + (if chosen is None { 1int } else { 0int }),
        {
            if inner_retry_cnt >= retry_cnt {
                return None;
            }
            inner_retry_cnt += 1;
            let p = gen_rand_point(rng, max_coord);
            if admits(&point_list, &p) {
                chosen = Some(p);
            }
        }
        let p = match chosen {
            Some(p) => p,
            None => vstd::pervasive::unreached(),
        };
        let ghost before = point_list@;
        point_list.push(p);
        proof {
            let s2 = point_list@;
            assert(s2 == before.push(p));
            assert forall|j: int| 2 <= j < s2.len() implies fits_chain(#[trigger] s2.take(j), s2[j]) by {
                if j < idx {
                    assert(s2.take(j) =~= before.take(j));
                    assert(fits_chain(before.take(j), before[j]));
                } else {
                    assert(s2.take(j) =~= before);
                }
            }
        }
        idx += 1;
    }
    if !closes(&point_list) {
        return None;
    }
    Some(point_list)
}

/// The points of `pl` from the last to the first.
fn reversed_list(pl: &Vec<Point>) -> (r: Vec<Point>)
    ensures
        r@ == reversed(pl@),
{
    let n = pl.len();
    let mut r: Vec<Point> = Vec::new();
    let mut i: usize = 0;
    while i < n
        invariant
            n == pl@.len(),
            i <= n,
            r@.len() == i,
            forall|a: int| 0 <= a < i ==> #[trigger] r@[a] == pl@[n - 1 - a],
        decreases n - i,
    {
        r.push(pl[n - 1 - i]);
        i += 1;
    }
    proof {
        assert(r@ =~= reversed(pl@));
    }
    r
}

impl SimplePolygon {
    /// A random simple polygon of `vertex_count` vertices with coordinates
    /// in `0..max_coord`, running counter-clockwise: the ring of the first
    /// attempt that keeps its chain, run the other way where it runs
    /// clockwise. The attempts are one fewer than `retry_cnt`, with
    /// `retry_cnt` tries for each vertex; where none keeps its chain there
    /// is no polygon, and none for fewer than three vertices. The area of a
    /// polygon in the square must fit an `isize`.
    pub fn gen_rand_hard(vertex_count: usize, max_coord: usize, retry_cnt: usize) -> (r: Option<SimplePolygon>)
        requires
            vertex_count >= 3 ==> max_coord > 0 && vertex_count * max_coord * max_coord <= isize::MAX,
        ensures
            vertex_count < 3 ==> r is None,
            retry_cnt <= 1 ==> r is None,
            r matches Some(p) ==> p@.len() == vertex_count && is_simple(p@) && within(p@, max_coord as int),
            r matches Some(p) ==> exists|chain: Seq<Point>| #[trigger]
                kept(chain, vertex_count as int, max_coord as int) && p@ == oriented(chain),
    {
        if vertex_count < 3 {
            return None;
        }
        proof {
            assert(max_coord <= isize::MAX) by (nonlinear_arith)
                requires
                    vertex_count >= 3,
                    max_coord > 0,
                    vertex_count * max_coord * max_coord <= isize::MAX,
            ;
            assert(vertex_count * (max_coord * max_coord) == vertex_count * max_coord * max_coord)
                by (nonlinear_arith);
        }
        let mut rng = rand::thread_rng();
        let mut attempt: usize = 1;
        while attempt < retry_cnt
            invariant
                vertex_count >= 3,
                0 < max_coord <= isize::MAX,
                vertex_count * (max_coord * max_coord) <= isize::MAX,
                1 <= attempt,
            decreases retry_cnt - attempt,
        {
            if let Some(pl) = engine(&mut rng, vertex_count, max_coord, retry_cnt) {
                let ghost chain = pl@;
                let x = counter_clockwise(pl, Ghost(max_coord as int));
                proof {
                    assert(kept(chain, vertex_count as int, max_coord as int) && x@ == oriented(chain));
                    lemma_reversed_len(chain);
                }
                return Some(x);
            }
            attempt += 1;
        }
        None
    }
}

} // verus!

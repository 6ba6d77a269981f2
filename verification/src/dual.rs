//! The dual graph of an edge list: the faces inside the polygon, two of them
//! joined where they lie across a common side.

use crate::arena::DCELFace;
use crate::dcel::DCEL;
use crate::keys::{lemma_joined_keys, lemma_push_fresh};
use crate::split::{cut_mesh, cut_ready, lemma_cut_face_of, lemma_cut_inner, Cut};
use crate::tally::chords_pair;
use crate::mesh::{apart, ring, ring_at, wrap_next, Mesh};
use crate::primitives::{DirEdge, Point};
use slotmap::DefaultKey;
use vstd::prelude::*;

verus! {

/// The face across side `t` of face `f`.
pub open spec fn face_across(m: Mesh, f: DefaultKey, t: int) -> DefaultKey {
    m.face(m.twin(m.cycles[f][t]))
}

/// Whether face `g` lies across a side of face `f`.
pub open spec fn across(m: Mesh, f: DefaultKey, g: DefaultKey) -> bool {
    exists|t: int| 0 <= t < m.cycles[f].len() && #[trigger] face_across(m, f, t) == g
}

/// Whether place `i` of `w` is a face inside the polygon that lies across a
/// side of the face before it.
pub open spec fn walk_step(m: Mesh, w: Seq<DefaultKey>, i: int) -> bool {
    m.internal(w[i]) && (i > 0 ==> across(m, w[i - 1], w[i]))
}

/// Whether `w` is a walk over faces inside the polygon, from each to one
/// across a side of it.
pub open spec fn is_walk(m: Mesh, w: Seq<DefaultKey>) -> bool {
    &&& w.len() >= 1
    &&& forall|i: int| 0 <= i < w.len() ==> #[trigger] walk_step(m, w, i)
}

/// Whether `w` is a walk from `f` to `g`.
pub open spec fn walk_between(m: Mesh, w: Seq<DefaultKey>, f: DefaultKey, g: DefaultKey) -> bool {
    is_walk(m, w) && w[0] == f && w[w.len() - 1] == g
}

/// Whether a walk leads from `f` to `g`.
pub open spec fn reaches(m: Mesh, f: DefaultKey, g: DefaultKey) -> bool {
    exists|w: Seq<DefaultKey>| #[trigger] walk_between(m, w, f, g)
}

/// Whether a walk leads from every face inside the polygon to every other.
pub open spec fn connected(m: Mesh) -> bool {
    forall|f: DefaultKey, g: DefaultKey| m.internal(f) && m.internal(g) ==> #[trigger] reaches(m, f, g)
}

/// A face is reached from itself.
pub proof fn lemma_reaches_self(m: Mesh, f: DefaultKey)
    requires
        m.internal(f),
    ensures
        reaches(m, f, f),
{
    let w = seq![f];
    assert forall|i: int| 0 <= i < w.len() implies #[trigger] walk_step(m, w, i) by {}
    assert(walk_between(m, w, f, f));
}

/// A walk goes on to a face across a side of its last face.
pub proof fn lemma_reaches_on(m: Mesh, f: DefaultKey, g: DefaultKey, h: DefaultKey)
    requires
        reaches(m, f, g),
        across(m, g, h),
        m.internal(h),
    ensures
        reaches(m, f, h),
{
    let w = choose|w: Seq<DefaultKey>| #[trigger] walk_between(m, w, f, g);
    let w2 = w.push(h);
    assert forall|i: int| 0 <= i < w2.len() implies #[trigger] walk_step(m, w2, i) by {
        if i < w.len() {
            assert(walk_step(m, w, i));
            assert(w2[i] == w[i]);
            if i > 0 {
                assert(w2[i - 1] == w[i - 1]);
            }
        } else {
            assert(w2[i - 1] == g);
        }
    }
    assert(walk_between(m, w2, f, h));
}

/// Where a face lies across a side of another, the other lies across a side
/// of it.
pub proof fn lemma_across_back(m: Mesh, f: DefaultKey, g: DefaultKey)
    requires
        m.wf(),
        m.faces.dom().contains(f),
        across(m, f, g),
    ensures
        across(m, g, f),
        m.faces.dom().contains(g),
{
    let t = choose|t: int| 0 <= t < m.cycles[f].len() && #[trigger] face_across(m, f, t) == g;
    let e = m.cycles[f][t];
    assert(m.face_ok(f));
    assert(ring_at(m.edges, f, m.cycles[f], t));
    assert(m.edge_ok(e));
    let tw = m.twin(e);
    assert(m.edge_ok(tw));
    let u = choose|u: int| 0 <= u < m.cycles[g].len() && m.cycles[g][u] == tw;
    assert(face_across(m, g, u) == f);
}

/// The face that the face `g` of a cut edge list was, or was part of.
pub open spec fn before_cut(c: Cut, g: DefaultKey) -> DefaultKey {
    if g == c.fa || g == c.fb {
        c.f
    } else {
        g
    }
}

/// Two faces across a side of each other are, after a cut, or have parts
/// that are, across a side of each other.
proof fn lemma_across_lifts(m: Mesh, c: Cut, x: DefaultKey, y: DefaultKey) -> (r: (DefaultKey, DefaultKey))
    requires
        cut_ready(m, c),
        m.internal(x),
        m.internal(y),
        across(m, x, y),
    ensures
        cut_mesh(m, c).internal(r.0),
        cut_mesh(m, c).internal(r.1),
        before_cut(c, r.0) == x,
        before_cut(c, r.1) == y,
        across(cut_mesh(m, c), r.0, r.1),
{
    let m2 = cut_mesh(m, c);
    let t = choose|t: int| 0 <= t < m.cycles[x].len() && #[trigger] face_across(m, x, t) == y;
    let e = m.cycles[x][t];
    assert(m.face_ok(x));
    assert(ring_at(m.edges, x, m.cycles[x], t));
    assert(m.edge_ok(e));
    let tw = m.twin(e);
    assert(m.edge_ok(tw));
    lemma_cut_face_of(m, c, e);
    lemma_cut_face_of(m, c, tw);
    let x2 = m2.face(e);
    let y2 = m2.face(tw);
    let u = choose|u: int| 0 <= u < m2.cycles[x2].len() && m2.cycles[x2][u] == e;
    assert(face_across(m2, x2, u) == y2);
    (x2, y2)
}

/// After a cut the two new faces lie across a side of each other.
proof fn lemma_parts_across(m: Mesh, c: Cut)
    requires
        cut_ready(m, c),
    ensures
        across(cut_mesh(m, c), c.fa, c.fb),
        across(cut_mesh(m, c), c.fb, c.fa),
        cut_mesh(m, c).internal(c.fa),
        cut_mesh(m, c).internal(c.fb),
{
    let m2 = cut_mesh(m, c);
    let a = seq![c.e1] + c.ring.subrange(0, c.at);
    let b = seq![c.e2] + c.ring.subrange(c.at, c.ring.len() as int);
    assert(m2.cycles[c.fa] == a);
    assert(m2.cycles[c.fb] == b);
    assert(a[0] == c.e1);
    assert(b[0] == c.e2);
    assert(face_across(m2, c.fa, 0) == c.fb);
    assert(face_across(m2, c.fb, 0) == c.fa);
}

/// A walk to a face goes on, after a cut, to any part of that face.
proof fn lemma_reach_part(m: Mesh, c: Cut, start: DefaultKey, got: DefaultKey, target: DefaultKey)
    requires
        cut_ready(m, c),
        reaches(cut_mesh(m, c), start, got),
        cut_mesh(m, c).internal(got),
        cut_mesh(m, c).internal(target),
        before_cut(c, got) == before_cut(c, target),
    ensures
        reaches(cut_mesh(m, c), start, target),
{
    if got != target {
        lemma_parts_across(m, c);
        lemma_reaches_on(cut_mesh(m, c), start, got, target);
    }
}

/// A walk before a cut leads, after it, from any part of its first face to
/// any part of each of its faces.
proof fn lemma_walk_lifts(m: Mesh, c: Cut, w: Seq<DefaultKey>, i: int, start: DefaultKey, target: DefaultKey)
    requires
        cut_ready(m, c),
        is_walk(m, w),
        0 <= i < w.len(),
        cut_mesh(m, c).internal(start),
        cut_mesh(m, c).internal(target),
        before_cut(c, start) == w[0],
        before_cut(c, target) == w[i],
    ensures
        reaches(cut_mesh(m, c), start, target),
    decreases i,
{
    let m2 = cut_mesh(m, c);
    if i == 0 {
        lemma_reaches_self(m2, start);
        lemma_reach_part(m, c, start, start, target);
    } else {
        assert(walk_step(m, w, i));
        assert(walk_step(m, w, i - 1));
        let pair = lemma_across_lifts(m, c, w[i - 1], w[i]);
        lemma_walk_lifts(m, c, w, i - 1, start, pair.0);
        lemma_reaches_on(m2, start, pair.0, pair.1);
        lemma_reach_part(m, c, start, pair.1, target);
    }
}

/// After a cut a walk still leads from every face inside the polygon to
/// every other.
pub proof fn lemma_cut_connected(m: Mesh, c: Cut)
    requires
        cut_ready(m, c),
    ensures
        connected(cut_mesh(m, c)),
{
    let m2 = cut_mesh(m, c);
    assert forall|f: DefaultKey, g: DefaultKey| m2.internal(f) && m2.internal(g) implies #[trigger] reaches(m2, f, g) by {
        let a = before_cut(c, f);
        let b = before_cut(c, g);
        assert(m.internal(a) && m.internal(b));
        assert(reaches(m, a, b));
        let w = choose|w: Seq<DefaultKey>| #[trigger] walk_between(m, w, a, b);
        lemma_walk_lifts(m, c, w, w.len() - 1, f, g);
    }
}

/// Whether the half-edge at place `i` of `t` is half of a diagonal, and its
/// twin lies on the face of the half-edge at the next place, the first
/// place being next to the last.
pub open spec fn trail_at(m: Mesh, t: Seq<DefaultKey>, i: int) -> bool {
    m.inner(t[i]) && m.face(m.twin(t[i])) == m.face(t[wrap_next(t.len() as int, i)])
}

/// Whether the half-edges at the places `i` and `j` of `t` belong to two
/// different diagonals.
pub open spec fn other_edge(m: Mesh, t: Seq<DefaultKey>, i: int, j: int) -> bool {
    t[i] != t[j] && t[i] != m.twin(t[j])
}

/// Whether `t` is a round trip in the dual graph: it crosses one diagonal
/// after the other, none twice, from face to face and back to the first.
pub open spec fn is_round_trip(m: Mesh, t: Seq<DefaultKey>) -> bool {
    &&& t.len() >= 1
    &&& forall|i: int| 0 <= i < t.len() ==> #[trigger] trail_at(m, t, i)
    &&& forall|i: int, j: int| 0 <= i < t.len() && 0 <= j < t.len() && i != j ==> #[trigger] other_edge(m, t, i, j)
}

/// Whether the dual graph has no cycle: there is no round trip in it.
pub open spec fn acyclic(m: Mesh) -> bool {
    forall|t: Seq<DefaultKey>| !#[trigger] is_round_trip(m, t)
}

/// What a half of a diagonal was before a cut, if it is not one of the two
/// new half-edges.
proof fn lemma_old_half(m: Mesh, c: Cut, e: DefaultKey)
    requires
        cut_ready(m, c),
        cut_mesh(m, c).inner(e),
        e != c.e1,
        e != c.e2,
    ensures
        m.inner(e),
        cut_mesh(m, c).twin(e) == m.twin(e),
        before_cut(c, cut_mesh(m, c).face(e)) == m.face(e),
        before_cut(c, cut_mesh(m, c).face(m.twin(e))) == m.face(m.twin(e)),
{
    lemma_cut_inner(m, c, e);
    assert(m.edge_ok(e));
    lemma_cut_face_of(m, c, e);
    lemma_cut_face_of(m, c, m.twin(e));
}

/// A round trip after a cut that crosses no new half-edge was a round trip
/// before.
proof fn lemma_trip_without(m: Mesh, c: Cut, t: Seq<DefaultKey>)
    requires
        cut_ready(m, c),
        is_round_trip(cut_mesh(m, c), t),
        forall|i: int| 0 <= i < t.len() ==> #[trigger] t[i] != c.e1 && t[i] != c.e2,
    ensures
        is_round_trip(m, t),
{
    let m2 = cut_mesh(m, c);
    let k = t.len() as int;
    assert forall|i: int| 0 <= i < k implies #[trigger] trail_at(m, t, i) by {
        let n = wrap_next(k, i);
        assert(trail_at(m2, t, i));
        assert(trail_at(m2, t, n));
        lemma_old_half(m, c, t[i]);
        lemma_old_half(m, c, t[n]);
    }
    assert forall|i: int, j: int| 0 <= i < k && 0 <= j < k && i != j implies #[trigger] other_edge(m, t, i, j) by {
        assert(other_edge(m2, t, i, j));
        assert(trail_at(m2, t, j));
        lemma_old_half(m, c, t[j]);
    }
}

/// A round trip after a cut that crosses a new half-edge was, without it, a
/// round trip before.
proof fn lemma_trip_with(m: Mesh, c: Cut, t: Seq<DefaultKey>, j: int)
    requires
        cut_ready(m, c),
        is_round_trip(cut_mesh(m, c), t),
        0 <= j < t.len(),
        t[j] == c.e1 || t[j] == c.e2,
    ensures
        is_round_trip(m, t.remove(j)),
{
    let m2 = cut_mesh(m, c);
    let k = t.len() as int;
    let r = t.remove(j);
    lemma_cut_inner(m, c, c.e1);
    lemma_parts_across(m, c);
    let a = seq![c.e1] + c.ring.subrange(0, c.at);
    let b = seq![c.e2] + c.ring.subrange(c.at, c.ring.len() as int);
    assert(m2.cycles[c.fa] == a);
    assert(m2.cycles[c.fb] == b);
    assert(a[0] == c.e1);
    assert(b[0] == c.e2);
    assert(m2.face(c.e1) == c.fa && m2.face(c.e2) == c.fb);
    assert(trail_at(m2, t, j));
    assert forall|i: int| 0 <= i < k && i != j implies t[i] != c.e1 && t[i] != c.e2 by {
        assert(other_edge(m2, t, i, j));
    }
    if k == 1 {
        assert(wrap_next(k, j) == j);
        assert(false);
    }
    assert forall|i: int| 0 <= i < r.len() implies #[trigger] trail_at(m, r, i) by {
        let o = if i < j { i } else { i + 1 };
        let ni = wrap_next(k - 1, i);
        let no = if ni < j { ni } else { ni + 1 };
        assert(r[i] == t[o]);
        assert(r[ni] == t[no]);
        assert(trail_at(m2, t, o));
        assert(trail_at(m2, t, no));
        lemma_old_half(m, c, t[o]);
        lemma_old_half(m, c, t[no]);
        let next_o = wrap_next(k, o);
        if next_o == j {
            assert(wrap_next(k, j) == no);
        } else {
            assert(next_o == no);
        }
    }
    assert forall|x: int, y: int| 0 <= x < r.len() && 0 <= y < r.len() && x != y implies #[trigger] other_edge(m, r, x, y) by {
        let ox = if x < j { x } else { x + 1 };
        let oy = if y < j { y } else { y + 1 };
        assert(r[x] == t[ox]);
        assert(r[y] == t[oy]);
        assert(other_edge(m2, t, ox, oy));
        assert(trail_at(m2, t, oy));
        lemma_old_half(m, c, t[oy]);
    }
}

/// After a cut the dual graph still has no cycle.
pub proof fn lemma_cut_acyclic(m: Mesh, c: Cut)
    requires
        cut_ready(m, c),
    ensures
        acyclic(cut_mesh(m, c)),
{
    let m2 = cut_mesh(m, c);
    assert forall|t: Seq<DefaultKey>| !#[trigger] is_round_trip(m2, t) by {
        if is_round_trip(m2, t) {
            if exists|j: int| 0 <= j < t.len() && (t[j] == c.e1 || t[j] == c.e2) {
                let j = choose|j: int| 0 <= j < t.len() && (t[j] == c.e1 || t[j] == c.e2);
                lemma_trip_with(m, c, t, j);
                assert(!is_round_trip(m, t.remove(j)));
            } else {
                lemma_trip_without(m, c, t);
                assert(!is_round_trip(m, t));
            }
        }
    }
}

/// The dual graph of an edge list is a tree: a walk leads from every face
/// inside the polygon to every other, and no round trip crosses diagonals
/// one after the other without crossing one twice.
pub proof fn lemma_dual_tree(m: Mesh)
    requires
        m.wf(),
    ensures
        connected(m),
        acyclic(m),
{
}

/// Whether the faces `visited` hold, with each face, every face inside the
/// polygon that lies across a side of it.
pub open spec fn closed_under_across(m: Mesh, visited: Seq<DefaultKey>) -> bool {
    forall|f: DefaultKey, g: DefaultKey|
        visited.contains(f) && m.internal(g) && #[trigger] across(m, f, g) ==> visited.contains(g)
}

/// A set of faces that holds a face, and with each face its neighbours,
/// holds every face that a walk from that face reaches.
pub proof fn lemma_closed_holds_reached(m: Mesh, visited: Seq<DefaultKey>, f: DefaultKey, g: DefaultKey)
    requires
        closed_under_across(m, visited),
        visited.contains(f),
        reaches(m, f, g),
    ensures
        visited.contains(g),
{
    let w = choose|w: Seq<DefaultKey>| #[trigger] walk_between(m, w, f, g);
    lemma_closed_holds_walk(m, visited, w, w.len() - 1);
}

proof fn lemma_closed_holds_walk(m: Mesh, visited: Seq<DefaultKey>, w: Seq<DefaultKey>, i: int)
    requires
        closed_under_across(m, visited),
        is_walk(m, w),
        visited.contains(w[0]),
        0 <= i < w.len(),
    ensures
        visited.contains(w[i]),
    decreases i,
{
    if i > 0 {
        lemma_closed_holds_walk(m, visited, w, i - 1);
        assert(walk_step(m, w, i));
    }
}

/// The sum of the `x` of the first `k` points.
pub open spec fn sum_x(pts: Seq<Point>, k: int) -> int
    decreases k,
{
    if k <= 0 {
        0
    } else {
        sum_x(pts, k - 1) + pts[k - 1].x
    }
}

/// The sum of the `y` of the first `k` points.
pub open spec fn sum_y(pts: Seq<Point>, k: int) -> int
    decreases k,
{
    if k <= 0 {
        0
    } else {
        sum_y(pts, k - 1) + pts[k - 1].y
    }
}

/// The mean of the points, each coordinate rounded down.
pub open spec fn centroid(pts: Seq<Point>) -> Point {
    Point {
        x: (sum_x(pts, pts.len() as int) / (pts.len() as int)) as isize,
        y: (sum_y(pts, pts.len() as int) / (pts.len() as int)) as isize,
    }
}

/// Whether `fs` lists the faces inside the polygon, each once.
pub open spec fn lists_faces(m: Mesh, fs: Seq<DefaultKey>) -> bool {
    &&& fs.no_duplicates()
    &&& forall|f: DefaultKey| #[trigger] m.internal(f) <==> fs.contains(f)
}

/// The edge of the dual graph from face `f` to face `g`, between the
/// centroids of their corners.
pub open spec fn dual_edge(m: Mesh, f: DefaultKey, g: DefaultKey) -> DirEdge {
    DirEdge { start: centroid(m.corner_points(f)), end: centroid(m.corner_points(g)) }
}

/// The edges of the dual graph across the first `t` sides of the face at
/// place `i` of `fs`: one for each side with a face across it that `fs`
/// lists later.
pub open spec fn dual_sides(m: Mesh, fs: Seq<DefaultKey>, i: int, t: int) -> Seq<DirEdge>
    decreases t,
{
    if t <= 0 {
        Seq::empty()
    } else {
        let g = face_across(m, fs[i], t - 1);
        if m.internal(g) && i < fs.index_of(g) {
            dual_sides(m, fs, i, t - 1).push(dual_edge(m, fs[i], g))
        } else {
            dual_sides(m, fs, i, t - 1)
        }
    }
}

/// The edges of the dual graph across the sides of the first `i` faces of
/// `fs`.
pub open spec fn dual_upto(m: Mesh, fs: Seq<DefaultKey>, i: int) -> Seq<DirEdge>
    decreases i,
{
    if i <= 0 {
        Seq::empty()
    } else {
        dual_upto(m, fs, i - 1) + dual_sides(m, fs, i - 1, m.cycles[fs[i - 1]].len() as int)
    }
}

/// Whether side `t` of the face at place `i` of `fs` gets an edge of the
/// dual graph: a face inside the polygon lies across it, one that `fs` lists
/// later.
pub open spec fn due(m: Mesh, fs: Seq<DefaultKey>, i: int, t: int) -> bool {
    m.internal(face_across(m, fs[i], t)) && i < fs.index_of(face_across(m, fs[i], t))
}

/// The half-edges along the first `t` sides of the face at place `i` of
/// `fs` that get an edge of the dual graph.
pub open spec fn half_sides(m: Mesh, fs: Seq<DefaultKey>, i: int, t: int) -> Seq<DefaultKey>
    decreases t,
{
    if t <= 0 {
        Seq::empty()
    } else if due(m, fs, i, t - 1) {
        half_sides(m, fs, i, t - 1).push(m.cycles[fs[i]][t - 1])
    } else {
        half_sides(m, fs, i, t - 1)
    }
}

/// The half-edges along the sides of the first `i` faces of `fs` that get
/// an edge of the dual graph.
pub open spec fn half_upto(m: Mesh, fs: Seq<DefaultKey>, i: int) -> Seq<DefaultKey>
    decreases i,
{
    if i <= 0 {
        Seq::empty()
    } else {
        half_upto(m, fs, i - 1) + half_sides(m, fs, i - 1, m.cycles[fs[i - 1]].len() as int)
    }
}

proof fn lemma_sides_match(m: Mesh, fs: Seq<DefaultKey>, i: int, t: int)
    ensures
        dual_sides(m, fs, i, t).len() == half_sides(m, fs, i, t).len(),
    decreases t,
{
    if t > 0 {
        lemma_sides_match(m, fs, i, t - 1);
    }
}

proof fn lemma_upto_match(m: Mesh, fs: Seq<DefaultKey>, i: int)
    ensures
        dual_upto(m, fs, i).len() == half_upto(m, fs, i).len(),
    decreases i,
{
    if i > 0 {
        lemma_upto_match(m, fs, i - 1);
        lemma_sides_match(m, fs, i - 1, m.cycles[fs[i - 1]].len() as int);
    }
}

/// Whether the half-edge `e` gets an edge of the dual graph: it has faces
/// inside the polygon on either side, its own listed first.
pub open spec fn emits(m: Mesh, fs: Seq<DefaultKey>, e: DefaultKey) -> bool {
    m.inner(e) && fs.index_of(m.face(e)) < fs.index_of(m.face(m.twin(e)))
}

proof fn lemma_half_sides(m: Mesh, fs: Seq<DefaultKey>, i: int, t: int)
    requires
        m.wf(),
        lists_faces(m, fs),
        0 <= i < fs.len(),
        0 <= t <= m.cycles[fs[i]].len(),
    ensures
        half_sides(m, fs, i, t).no_duplicates(),
        forall|e: DefaultKey|
            #[trigger] half_sides(m, fs, i, t).contains(e) <==> (emits(m, fs, e) && m.face(e) == fs[i] && exists|u: int|
                0 <= u < t && m.cycles[fs[i]][u] == e),
    decreases t,
{
    let f = fs[i];
    let cyc = m.cycles[f];
    let now = half_sides(m, fs, i, t);
    assert(fs.contains(fs[i]));
    assert(m.internal(f));
    assert(m.face_ok(f));
    assert(fs.index_of(f) == i) by {
        let w = fs.index_of(f);
        assert(0 <= w < fs.len() && fs[w] == f);
    }
    if t > 0 {
        lemma_half_sides(m, fs, i, t - 1);
        let before = half_sides(m, fs, i, t - 1);
        let x = cyc[t - 1];
        assert(ring_at(m.edges, f, cyc, t - 1));
        assert(m.edge_ok(x));
        assert(m.edge_ok(m.twin(x)));
        assert(m.face(x) == f);
        assert(face_across(m, f, t - 1) == m.face(m.twin(x)));
        if due(m, fs, i, t - 1) {
            assert(now == before.push(x));
            assert(!before.contains(x)) by {
                if before.contains(x) {
                    let u = choose|u: int| 0 <= u < t - 1 && cyc[u] == x;
                    assert(apart(m.edges, cyc, u, t - 1));
                }
            }
            lemma_push_fresh(before, x);
            assert(emits(m, fs, x));
        } else {
            assert(now == before);
            assert(!emits(m, fs, x));
        }
        assert forall|e: DefaultKey|
            #[trigger] now.contains(e) <==> (emits(m, fs, e) && m.face(e) == f && exists|u: int|
                0 <= u < t && cyc[u] == e) by {
            if now.contains(e) {
                if before.contains(e) {
                    let u = choose|u: int| 0 <= u < t - 1 && cyc[u] == e;
                    assert(0 <= u < t && cyc[u] == e);
                } else {
                    assert(e == x);
                    assert(cyc[t - 1] == e);
                }
            }
            if emits(m, fs, e) && m.face(e) == f && exists|u: int| 0 <= u < t && cyc[u] == e {
                let u = choose|u: int| 0 <= u < t && cyc[u] == e;
                if u < t - 1 {
                    assert(before.contains(e));
                } else {
                    assert(e == x);
                }
            }
        }
    } else {
        assert forall|e: DefaultKey| !(#[trigger] now.contains(e)) by {}
    }
}

proof fn lemma_half_upto(m: Mesh, fs: Seq<DefaultKey>, i: int)
    requires
        m.wf(),
        lists_faces(m, fs),
        0 <= i <= fs.len(),
    ensures
        half_upto(m, fs, i).no_duplicates(),
        forall|e: DefaultKey|
            #[trigger] half_upto(m, fs, i).contains(e) <==> (emits(m, fs, e) && fs.index_of(m.face(e)) < i),
    decreases i,
{
    let now = half_upto(m, fs, i);
    if i > 0 {
        lemma_half_upto(m, fs, i - 1);
        let f = fs[i - 1];
        let cyc = m.cycles[f];
        let before = half_upto(m, fs, i - 1);
        let here = half_sides(m, fs, i - 1, cyc.len() as int);
        lemma_half_sides(m, fs, i - 1, cyc.len() as int);
        assert(fs.contains(fs[i - 1]));
        assert(fs.index_of(f) == i - 1) by {
            let w = fs.index_of(f);
            assert(0 <= w < fs.len() && fs[w] == f);
        }
        assert forall|a: int, b: int| 0 <= a < before.len() && 0 <= b < here.len() implies before[a] != here[b] by {
            assert(before.contains(before[a]));
            assert(here.contains(here[b]));
        }
        vstd::seq_lib::lemma_no_dup_in_concat(before, here);
        lemma_joined_keys(before, here);
        assert forall|e: DefaultKey| #[trigger] now.contains(e) <==> (emits(m, fs, e) && fs.index_of(m.face(e)) < i) by {
            if emits(m, fs, e) && fs.index_of(m.face(e)) == i - 1 {
                assert(m.edge_ok(e));
                assert(m.internal(m.face(e)));
                assert(fs.contains(m.face(e)));
                let w = fs.index_of(m.face(e));
                assert(0 <= w < fs.len() && fs[w] == m.face(e));
                assert(m.face(e) == f);
                let u = choose|u: int| 0 <= u < cyc.len() && cyc[u] == e;
                assert(here.contains(e));
            }
        }
    } else {
        assert forall|e: DefaultKey| #[trigger] now.contains(e) <==> (emits(m, fs, e) && fs.index_of(m.face(e)) < i) by {
            if emits(m, fs, e) {
                assert(m.edge_ok(e));
                assert(m.internal(m.face(e)));
                assert(fs.contains(m.face(e)));
                let w = fs.index_of(m.face(e));
                assert(0 <= w < fs.len() && fs[w] == m.face(e));
            }
        }
    }
}

/// The half-edges that get an edge of the dual graph are one half of every
/// diagonal.
pub proof fn lemma_dual_halves(m: Mesh, fs: Seq<DefaultKey>)
    requires
        m.wf(),
        lists_faces(m, fs),
    ensures
        chords_pair(m, half_upto(m, fs, fs.len() as int)),
        dual_upto(m, fs, fs.len() as int).len() == half_upto(m, fs, fs.len() as int).len(),
{
    let all = half_upto(m, fs, fs.len() as int);
    lemma_half_upto(m, fs, fs.len() as int);
    lemma_upto_match(m, fs, fs.len() as int);
    assert forall|i: int| 0 <= i < all.len() implies m.inner(#[trigger] all[i]) by {
        assert(all.contains(all[i]));
    }
    assert forall|e: DefaultKey| #[trigger] m.inner(e) implies all.contains(e) != all.contains(m.twin(e)) by {
        assert(m.edge_ok(e));
        let tw = m.twin(e);
        assert(m.edge_ok(tw));
        let f = m.face(e);
        let g = m.face(tw);
        assert(m.internal(f) && m.internal(g));
        assert(fs.contains(f) && fs.contains(g));
        let a = fs.index_of(f);
        let b = fs.index_of(g);
        assert(0 <= a < fs.len() && fs[a] == f);
        assert(0 <= b < fs.len() && fs[b] == g);
        assert(a != b);
        assert(m.inner(tw));
        assert(emits(m, fs, e) != emits(m, fs, tw));
    }
}

/// A mean lies between the bounds of what it is the mean of.
proof fn lemma_mean_bounds(total: int, n: int, lo: int, hi: int)
    requires
        n > 0,
        n * lo <= total <= n * hi,
    ensures
        lo <= total / n <= hi,
{
    vstd::arithmetic::div_mod::lemma_div_is_ordered(n * lo, total, n);
    vstd::arithmetic::div_mod::lemma_div_is_ordered(total, n * hi, n);
    vstd::arithmetic::div_mod::lemma_div_multiples_vanish(lo, n);
    vstd::arithmetic::div_mod::lemma_div_multiples_vanish(hi, n);
}

proof fn lemma_sum_step(k: int, acc: int, v: int, lo: int, hi: int)
    requires
        0 <= k,
        k * lo <= acc <= k * hi,
        lo <= v <= hi,
    ensures
        (k + 1) * lo <= acc + v <= (k + 1) * hi,
{
    assert((k + 1) * lo == k * lo + lo) by (nonlinear_arith);
    assert((k + 1) * hi == k * hi + hi) by (nonlinear_arith);
}

proof fn lemma_sum_fits(k: int, acc: int)
    requires
        0 <= k <= 0xffff_ffff_ffff_ffff,
        k * (isize::MIN as int) <= acc <= k * (isize::MAX as int),
    ensures
        -0x7fff_ffff_ffff_ffff_8000_0000_0000_0000 <= acc <= 0x7fff_ffff_ffff_ffff_8000_0000_0000_0000,
{
    assert(k * (isize::MIN as int) >= 0xffff_ffff_ffff_ffff * (-0x8000_0000_0000_0000)) by (nonlinear_arith)
        requires
            0 <= k <= 0xffff_ffff_ffff_ffff,
            -0x8000_0000_0000_0000 <= (isize::MIN as int) <= 0,
    ;
    assert(k * (isize::MAX as int) <= 0xffff_ffff_ffff_ffff * 0x8000_0000_0000_0000) by (nonlinear_arith)
        requires
            0 <= k <= 0xffff_ffff_ffff_ffff,
            0 <= (isize::MAX as int) <= 0x8000_0000_0000_0000,
    ;
}

/// The mean of the points, each coordinate rounded down.
pub fn centroid_of(pts: &Vec<Point>) -> (c: Point)
    requires
        pts@.len() > 0,
    ensures
        c == centroid(pts@),
{
    let n = pts.len();
    let mut sx: i128 = 0;
    let mut sy: i128 = 0;
    let mut k: usize = 0;
    while k < n
        invariant
            n == pts@.len(),
            k <= n,
            sx == sum_x(pts@, k as int),
            sy == sum_y(pts@, k as int),
            k * (isize::MIN as int) <= sx <= k * (isize::MAX as int),
            k * (isize::MIN as int) <= sy <= k * (isize::MAX as int),
        decreases n - k,
    {
        proof {
            lemma_sum_fits(k as int, sx as int);
            lemma_sum_fits(k as int, sy as int);
            lemma_sum_step(k as int, sx as int, pts@[k as int].x as int, isize::MIN as int, isize::MAX as int);
            lemma_sum_step(k as int, sy as int, pts@[k as int].y as int, isize::MIN as int, isize::MAX as int);
        }
        sx = sx + pts[k].x as i128;
        sy = sy + pts[k].y as i128;
        k += 1;
    }
    proof {
        lemma_mean_bounds(sx as int, n as int, isize::MIN as int, isize::MAX as int);
        lemma_mean_bounds(sy as int, n as int, isize::MIN as int, isize::MAX as int);
    }
    let cx = match sx.checked_div_euclid(n as i128) {
        Some(v) => v,
        None => vstd::pervasive::unreached(),
    };
    let cy = match sy.checked_div_euclid(n as i128) {
        Some(v) => v,
        None => vstd::pervasive::unreached(),
    };
    Point::new(cx as isize, cy as isize)
}

impl DCEL {
    /// The dual graph for drawing: for every two faces inside the polygon
    /// that lie across a common side, and for every such side, one edge
    /// between the centroids of their corners, from the face that comes
    /// first in the order of the faces. Its edges are one fewer than the
    /// faces inside the polygon.
    pub fn dual_graph(&self) -> (r: Vec<DirEdge>)
        requires
            self.wf(),
        ensures
            exists|fs: Seq<DefaultKey>| #[trigger] lists_faces(self@, fs) && r@ == dual_upto(self@, fs, fs.len() as int),
            r@.len() + 1 == self.face_count(),
    {
        let faces = self.get_internal_faces();
        let ghost m = self@;
        let mut keys: Vec<DefaultKey> = Vec::new();
        let mut a: usize = 0;
        while a < faces.len()
            invariant
                a <= faces@.len(),
                keys@.len() == a,
                forall|i: int| 0 <= i < a ==> #[trigger] keys@[i] == faces@[i].parent_key,
            decreases faces@.len() - a,
        {
            keys.push(faces[a].parent_key);
            a += 1;
        }
        let ghost fs = keys@;
        proof {
            assert forall|i: int, j: int| 0 <= i < fs.len() && 0 <= j < fs.len() && i != j implies fs[i] != fs[j] by {
                if i < j {
                    assert(faces@[i].parent_key != faces@[j].parent_key);
                } else {
                    assert(faces@[j].parent_key != faces@[i].parent_key);
                }
            }
            assert forall|f: DefaultKey| #[trigger] m.internal(f) <==> fs.contains(f) by {
                if m.internal(f) {
                    let i = choose|i: int| 0 <= i < faces@.len() && (#[trigger] faces@[i]).parent_key == f;
                    assert(fs[i] == f);
                }
                if fs.contains(f) {
                    let i = choose|i: int| 0 <= i < fs.len() && fs[i] == f;
                    assert(m.internal(faces@[i].parent_key));
                }
            }
            assert(lists_faces(m, fs));
            lemma_dual_halves(m, fs);
            self.lemma_diagonal_count(half_upto(m, fs, fs.len() as int));
        }
        let mut r: Vec<DirEdge> = Vec::new();
        let mut i: usize = 0;
        while i < keys.len()
            invariant
                self.wf(),
                m == self@,
                fs == keys@,
                faces@.len() == keys@.len(),
                lists_faces(m, fs),
                forall|b: int| 0 <= b < faces@.len() ==> (#[trigger] faces@[b]).parent_key == fs[b],
                i <= keys@.len(),
                r@ == dual_upto(m, fs, i as int),
            decreases keys@.len() - i,
        {
            let f = keys[i];
            proof {
                assert(fs.contains(fs[i as int]));
                assert(m.internal(f));
                assert(m.face_ok(f));
            }
            let cycle = self.face_cycle(f);
            let here = centroid_of(&self.get_point_list(faces[i]));
            let ghost base = r@;
            let mut t: usize = 0;
            while t < cycle.len()
                invariant
                    self.wf(),
                    m == self@,
                    fs == keys@,
                    lists_faces(m, fs),
                    faces@.len() == keys@.len(),
                    forall|b: int| 0 <= b < faces@.len() ==> (#[trigger] faces@[b]).parent_key == fs[b],
                    i < keys@.len(),
                    f == fs[i as int],
                    m.internal(f),
                    cycle@ == m.cycles[f],
                    ring(m.edges, f, cycle@),
                    here == centroid(m.corner_points(f)),
                    t <= cycle@.len(),
                    r@ == base + dual_sides(m, fs, i as int, t as int),
                decreases cycle@.len() - t,
            {
                proof {
                    assert(ring_at(m.edges, f, cycle@, t as int));
                }
                let g = self.get_incident_face(self.get_twin_edge(cycle[t]));
                proof {
                    assert(g == face_across(m, f, t as int));
                }
                if self.is_internal(g) {
                    let j = match DCEL::position_of(&keys, g) {
                        Some(j) => j,
                        None => {
                            proof {
                                assert(fs.contains(g));
                            }
                            vstd::pervasive::unreached()
                        },
                    };
                    proof {
                        assert(fs.contains(g));
                        let w = fs.index_of(g);
                        assert(0 <= w < fs.len() && fs[w] == g);
                        assert(w == j);
                    }
                    if i < j {
                        let there = centroid_of(&self.get_point_list(faces[j]));
                        r.push(DirEdge::from_points(&here, &there));
                    }
                }
                proof {
                    assert(r@ =~= base + dual_sides(m, fs, i as int, t + 1));
                }
                t += 1;
            }
            i += 1;
        }
        r
    }
}

} // verus!

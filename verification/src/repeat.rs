//! Putting diagonals into an edge list a second time changes nothing: once a
//! diagonal is in, its ends are neighbours on every face that has them both.

use crate::mesh::Mesh;
use crate::primitives::DirEdge;
use crate::split::{
    cut_between, cut_mesh, cut_ready, diagonal_put, diagonal_step, diagonals_applied, joins, lemma_adjacent_persists,
    lemma_cut_wf, lemma_ends_adjacent, lemma_ends_apart, lemma_new_corner_was, lemma_old_face_kept, Cut,
};
use slotmap::DefaultKey;
use vstd::prelude::*;

verus! {

/// Whether the vertices `p` and `q` are neighbours on every face inside the
/// polygon that has them both on its boundary.
pub open spec fn settled(m: Mesh, p: DefaultKey, q: DefaultKey) -> bool {
    forall|f: DefaultKey| #[trigger] m.both_on(f, p, q) ==> m.adjacent_on(f, p, q)
}

/// Whether every diagonal of `ds` runs between two different vertices of
/// `m`.
pub open spec fn diagonals_fit(m: Mesh, ds: Seq<DirEdge>) -> bool {
    forall|i: int|
        0 <= i < ds.len() ==> m.has_point((#[trigger] ds[i]).start) && m.has_point(ds[i].end) && ds[i].start
            != ds[i].end
}

/// Two different points of an edge list have two different vertices.
proof fn lemma_two_vertices(m: Mesh, d: DirEdge)
    requires
        m.has_point(d.start),
        m.has_point(d.end),
        d.start != d.end,
    ensures
        m.vertex(d.start) != m.vertex(d.end),
{
    let a = m.vertex(d.start);
    let b = m.vertex(d.end);
    assert(m.points.dom().contains(a) && m.points[a].point2d == d.start);
    assert(m.points.dom().contains(b) && m.points[b].point2d == d.end);
}

/// A cut makes its two ends neighbours on every face that has them both.
proof fn lemma_cut_settles(m: Mesh, c: Cut, p: DefaultKey, q: DefaultKey)
    requires
        cut_ready(m, c),
        joins(m, c, p, q),
    ensures
        settled(cut_mesh(m, c), p, q),
{
    let m2 = cut_mesh(m, c);
    lemma_ends_apart(m, c);
    lemma_ends_adjacent(m, c);
    assert forall|f: DefaultKey| #[trigger] m2.both_on(f, p, q) implies m2.adjacent_on(f, p, q) by {
        if f != c.fa && f != c.fb {
            assert(m.faces.dom().contains(f));
            lemma_old_face_kept(m, c, f, p, q);
            lemma_old_face_kept(m, c, f, q, p);
            assert(m.both_on(f, p, q));
            assert(m.both_on(c.f, p, q));
            assert(m.adjacent_on(c.f, p, q));
        }
    }
}

/// A cut keeps neighbours on every face that has them both.
proof fn lemma_cut_keeps_settled(m: Mesh, c: Cut, p: DefaultKey, q: DefaultKey)
    requires
        cut_ready(m, c),
        settled(m, p, q),
        p != q,
    ensures
        settled(cut_mesh(m, c), p, q),
{
    let m2 = cut_mesh(m, c);
    assert forall|f: DefaultKey| #[trigger] m2.both_on(f, p, q) implies m2.adjacent_on(f, p, q) by {
        if f == c.fa || f == c.fb {
            lemma_new_corner_was(m, c, p);
            lemma_new_corner_was(m, c, q);
            assert(m.both_on(c.f, p, q));
            lemma_adjacent_persists(m, c, p, q, f == c.fa);
        } else {
            assert(m.faces.dom().contains(f));
            lemma_old_face_kept(m, c, f, p, q);
            lemma_old_face_kept(m, c, f, q, p);
            assert(m.both_on(f, p, q));
        }
    }
}

/// A diagonal whose ends are neighbours wherever they meet changes nothing.
pub proof fn lemma_settled_step(m: Mesh, p: DefaultKey, q: DefaultKey, m2: Mesh)
    requires
        m.wf(),
        settled(m, p, q),
        diagonal_step(m, p, q, m2),
    ensures
        m2 == m,
{
    if m2 != m {
        assert(cut_between(m, p, q, m2));
        let c = choose|c: Cut| #[trigger] cut_ready(m, c) && joins(m, c, p, q) && m2 == cut_mesh(m, c);
        lemma_ends_apart(m, c);
        assert(m.both_on(c.f, p, q));
    }
}

/// A diagonal leaves an edge list in which its ends are neighbours wherever
/// they meet.
pub proof fn lemma_step_settles(m: Mesh, p: DefaultKey, q: DefaultKey, m2: Mesh)
    requires
        m.wf(),
        p != q,
        diagonal_step(m, p, q, m2),
    ensures
        m2.wf(),
        m2.points == m.points,
        settled(m2, p, q),
{
    if m2 == m {
        assert forall|g: DefaultKey| #[trigger] m.both_on(g, p, q) implies m.adjacent_on(g, p, q) by {
            assert(m.internal(g) && m.on_boundary(g, p) && m.on_boundary(g, q));
            assert(m.share_face(p, q));
            if cut_between(m, p, q, m2) {
                let c = choose|c: Cut| #[trigger] cut_ready(m, c) && joins(m, c, p, q) && m2 == cut_mesh(m, c);
                lemma_cut_settles(m, c, p, q);
            } else {
                let f = choose|f: DefaultKey| #[trigger] m.internal(f) && m.adjacent_on(f, p, q);
                lemma_adjacent_both(m, f, p, q);
                if g != f {
                    assert(m.both_on(f, p, q));
                }
            }
        }
    } else {
        let c = choose|c: Cut| #[trigger] cut_ready(m, c) && joins(m, c, p, q) && m2 == cut_mesh(m, c);
        lemma_cut_wf(m, c);
        lemma_cut_settles(m, c, p, q);
    }
}

/// Neighbours on a face lie on it.
proof fn lemma_adjacent_both(m: Mesh, f: DefaultKey, p: DefaultKey, q: DefaultKey)
    requires
        m.wf(),
        m.internal(f),
        m.adjacent_on(f, p, q),
    ensures
        m.on_boundary(f, p),
        m.on_boundary(f, q),
{
    let cyc = m.cycles[f];
    let t = choose|t: int|
        0 <= t < cyc.len() && {
            ||| (m.origin(#[trigger] cyc[t]) == p && m.origin(m.next(cyc[t])) == q)
            ||| (m.origin(cyc[t]) == q && m.origin(m.next(cyc[t])) == p)
        };
    assert(m.face_ok(f));
    assert(crate::mesh::ring_at(m.edges, f, cyc, t));
    let w = crate::mesh::wrap_next(cyc.len() as int, t);
    assert(m.next(cyc[t]) == cyc[w]);
    assert(m.origin(cyc[w]) == m.origin(m.next(cyc[t])));
}

/// A diagonal keeps the ends of another neighbours wherever they meet.
pub proof fn lemma_step_keeps_settled(m: Mesh, u: DefaultKey, v: DefaultKey, m2: Mesh, p: DefaultKey, q: DefaultKey)
    requires
        m.wf(),
        p != q,
        settled(m, p, q),
        diagonal_step(m, u, v, m2),
    ensures
        settled(m2, p, q),
{
    if m2 != m {
        let c = choose|c: Cut| #[trigger] cut_ready(m, c) && joins(m, c, u, v) && m2 == cut_mesh(m, c);
        lemma_cut_keeps_settled(m, c, p, q);
    }
}

/// Whether the ends of each of the first `k` diagonals of `ds` are
/// neighbours on every face of `m` that has them both.
pub open spec fn all_settled(m: Mesh, ds: Seq<DirEdge>, k: int) -> bool {
    forall|i: int| 0 <= i < k ==> settled(m, m.vertex((#[trigger] ds[i]).start), m.vertex(ds[i].end))
}

/// Diagonals that have been put in have their ends neighbours wherever they
/// meet.
pub proof fn lemma_applied_settles(m0: Mesh, ds: Seq<DirEdge>, k: int, mk: Mesh)
    requires
        m0.wf(),
        diagonals_fit(m0, ds),
        0 <= k <= ds.len(),
        diagonals_applied(m0, ds, k, mk),
    ensures
        mk.wf(),
        mk.points == m0.points,
        all_settled(mk, ds, k),
    decreases k,
{
    if k > 0 {
        let mid = choose|mid: Mesh| #[trigger] diagonal_put(mid, ds[k - 1], mk) && diagonals_applied(m0, ds, k - 1, mid);
        lemma_applied_settles(m0, ds, k - 1, mid);
        let d = ds[k - 1];
        assert(mid.has_point(d.start) && mid.has_point(d.end)) by {
            assert(m0.has_point(d.start) && m0.has_point(d.end));
            let a = choose|a: DefaultKey| #[trigger] m0.points.dom().contains(a) && m0.points[a].point2d == d.start;
            let b = choose|b: DefaultKey| #[trigger] m0.points.dom().contains(b) && m0.points[b].point2d == d.end;
            assert(mid.points.dom().contains(a) && mid.points[a].point2d == d.start);
            assert(mid.points.dom().contains(b) && mid.points[b].point2d == d.end);
        }
        lemma_two_vertices(mid, d);
        lemma_step_settles(mid, mid.vertex(d.start), mid.vertex(d.end), mk);
        assert forall|i: int| 0 <= i < k implies settled(mk, mk.vertex((#[trigger] ds[i]).start), mk.vertex(ds[i].end)) by {
            assert(mk.vertex(ds[i].start) == mid.vertex(ds[i].start));
            assert(mk.vertex(ds[i].end) == mid.vertex(ds[i].end));
            if i < k - 1 {
                assert(mid.has_point(ds[i].start) && mid.has_point(ds[i].end)) by {
                    assert(m0.has_point(ds[i].start) && m0.has_point(ds[i].end));
                    let a = choose|a: DefaultKey| #[trigger] m0.points.dom().contains(a) && m0.points[a].point2d == ds[i].start;
                    let b = choose|b: DefaultKey| #[trigger] m0.points.dom().contains(b) && m0.points[b].point2d == ds[i].end;
                    assert(mid.points.dom().contains(a) && mid.points[a].point2d == ds[i].start);
                    assert(mid.points.dom().contains(b) && mid.points[b].point2d == ds[i].end);
                }
                lemma_two_vertices(mid, ds[i]);
                lemma_step_keeps_settled(
                    mid,
                    mid.vertex(d.start),
                    mid.vertex(d.end),
                    mk,
                    mid.vertex(ds[i].start),
                    mid.vertex(ds[i].end),
                );
            }
        }
    }
}

/// Diagonals whose ends are neighbours wherever they meet change nothing
/// when they are put in.
pub proof fn lemma_settled_stay(m: Mesh, ds: Seq<DirEdge>, k: int, m2: Mesh)
    requires
        m.wf(),
        0 <= k <= ds.len(),
        all_settled(m, ds, ds.len() as int),
        diagonals_applied(m, ds, k, m2),
    ensures
        m2 == m,
    decreases k,
{
    if k > 0 {
        let mid = choose|mid: Mesh| #[trigger] diagonal_put(mid, ds[k - 1], m2) && diagonals_applied(m, ds, k - 1, mid);
        lemma_settled_stay(m, ds, k - 1, mid);
        let d = ds[k - 1];
        assert(settled(m, m.vertex(d.start), m.vertex(d.end)));
        lemma_settled_step(m, m.vertex(d.start), m.vertex(d.end), m2);
    }
}

/// Where diagonals between vertices of an edge list have been put in,
/// putting them in again changes nothing.
pub proof fn lemma_diagonals_twice(m0: Mesh, ds: Seq<DirEdge>, m1: Mesh, m2: Mesh)
    requires
        m0.wf(),
        diagonals_fit(m0, ds),
        diagonals_applied(m0, ds, ds.len() as int, m1),
        diagonals_applied(m1, ds, ds.len() as int, m2),
    ensures
        m2 == m1,
{
    lemma_applied_settles(m0, ds, ds.len() as int, m1);
    lemma_settled_stay(m1, ds, ds.len() as int, m2);
}

} // verus!

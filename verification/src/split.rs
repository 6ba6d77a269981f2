//! Cutting a face in two along a diagonal, in the model, and the proof that
//! the cut leaves an edge list.

use crate::arena::{DCELEdge, DCELFace};
use crate::mesh::{apart, lemma_ring_place, ring, ring_at, wrap_next, Mesh};
use crate::primitives::DirEdge;
use slotmap::DefaultKey;
use vstd::prelude::*;

verus! {

/// A cut of face `f` by a diagonal. The boundary of `f` is read from the
/// half-edge that leaves the first end of the diagonal; `at` is the place,
/// on that reading, of the half-edge that leaves the second end. The new
/// half-edge `e1` runs from the second end to the first and closes the part
/// of the boundary before `at` into face `fa`; its twin `e2` closes the rest
/// into face `fb`.
pub struct Cut {
    pub f: DefaultKey,
    pub ring: Seq<DefaultKey>,
    pub at: int,
    pub e1: DefaultKey,
    pub e2: DefaultKey,
    pub fa: DefaultKey,
    pub fb: DefaultKey,
}

/// Whether the cut `c` can be made in `m`: the face is inside the polygon,
/// the two ends are not neighbours on its boundary, the keys of the new
/// half-edges are free, and so are those of the two faces, but that one of
/// them may be the key of the face that is cut.
pub open spec fn cut_ready(m: Mesh, c: Cut) -> bool {
    &&& m.wf()
    &&& m.internal(c.f)
    &&& ring(m.edges, c.f, c.ring)
    &&& c.ring.len() == m.cycles[c.f].len()
    &&& forall|k: DefaultKey| c.ring.contains(k) <==> m.cycles[c.f].contains(k)
    &&& 2 <= c.at <= c.ring.len() - 2
    &&& !m.edges.dom().contains(c.e1)
    &&& !m.edges.dom().contains(c.e2)
    &&& c.e1 != c.e2
    &&& c.fa != c.fb
    &&& (c.fa == c.f || !m.faces.dom().contains(c.fa))
    &&& (c.fb == c.f || !m.faces.dom().contains(c.fb))
}

/// The record of half-edge `k` after the cut.
pub open spec fn cut_edge(m: Mesh, c: Cut, k: DefaultKey) -> DCELEdge {
    let n = c.ring.len() as int;
    if k == c.e1 {
        DCELEdge {
            parent_key: k,
            origin: m.edges[c.ring[c.at]].origin,
            next: Some(c.ring[0]),
            prev: Some(c.ring[c.at - 1]),
            twin: Some(c.e2),
            incident_face: Some(c.fa),
        }
    } else if k == c.e2 {
        DCELEdge {
            parent_key: k,
            origin: m.edges[c.ring[0]].origin,
            next: Some(c.ring[c.at]),
            prev: Some(c.ring[n - 1]),
            twin: Some(c.e1),
            incident_face: Some(c.fb),
        }
    } else if c.ring.contains(k) {
        let t = c.ring.index_of(k);
        let old = m.edges[k];
        DCELEdge {
            parent_key: old.parent_key,
            origin: old.origin,
            next: if t == c.at - 1 {
                Some(c.e1)
            } else if t == n - 1 {
                Some(c.e2)
            } else {
                old.next
            },
            prev: if t == 0 {
                Some(c.e1)
            } else if t == c.at {
                Some(c.e2)
            } else {
                old.prev
            },
            twin: old.twin,
            incident_face: Some(if t < c.at { c.fa } else { c.fb }),
        }
    } else {
        m.edges[k]
    }
}

/// The edge list after the cut: the face `f` gives way to `fa` and `fb`.
pub open spec fn cut_mesh(m: Mesh, c: Cut) -> Mesh {
    Mesh {
        points: m.points,
        edges: Map::new(
            |k: DefaultKey| m.edges.dom().contains(k) || k == c.e1 || k == c.e2,
            |k: DefaultKey| cut_edge(m, c, k),
        ),
        faces: m.faces.remove(c.f).insert(c.fa, DCELFace { parent_key: c.fa, inner: None, outer: Some(c.e1) }).insert(
            c.fb,
            DCELFace { parent_key: c.fb, inner: None, outer: Some(c.e2) },
        ),
        cycles: m.cycles.remove(c.f).insert(c.fa, seq![c.e1] + c.ring.subrange(0, c.at)).insert(
            c.fb,
            seq![c.e2] + c.ring.subrange(c.at, c.ring.len() as int),
        ),
        outside: m.outside,
    }
}

/// Whether the cut `c` runs between the vertices `p` and `q`.
pub open spec fn joins(m: Mesh, c: Cut, p: DefaultKey, q: DefaultKey) -> bool {
    ||| (m.origin(c.ring[0]) == p && m.origin(c.ring[c.at]) == q)
    ||| (m.origin(c.ring[0]) == q && m.origin(c.ring[c.at]) == p)
}

/// Whether `m2` is `m` after a cut between the vertices `p` and `q`.
pub open spec fn cut_between(m: Mesh, p: DefaultKey, q: DefaultKey, m2: Mesh) -> bool {
    exists|c: Cut| #[trigger] cut_ready(m, c) && joins(m, c, p, q) && m2 == cut_mesh(m, c)
}

/// Whether `m2` is what a diagonal between the vertices `p` and `q` makes of
/// `m`. Where no face inside the polygon has both on its boundary, nothing
/// changes. Where one has, either the two are neighbours on it and nothing
/// changes, or a face is cut between them.
pub open spec fn diagonal_step(m: Mesh, p: DefaultKey, q: DefaultKey, m2: Mesh) -> bool {
    if m.share_face(p, q) {
        ||| (m2 == m && exists|f: DefaultKey| #[trigger] m.internal(f) && m.adjacent_on(f, p, q))
        ||| cut_between(m, p, q, m2)
    } else {
        m2 == m
    }
}

/// Whether `mk` is what the first `k` diagonals of `ds`, put in one after
/// the other, make of `m0`.
pub open spec fn diagonals_applied(m0: Mesh, ds: Seq<DirEdge>, k: int, mk: Mesh) -> bool
    decreases k,
{
    if k <= 0 {
        mk == m0
    } else {
        exists|mid: Mesh| #[trigger] diagonal_put(mid, ds[k - 1], mk) && diagonals_applied(m0, ds, k - 1, mid)
    }
}

/// Whether `m2` is what the diagonal `d`, given by its end points, makes of
/// `m`.
pub open spec fn diagonal_put(m: Mesh, d: DirEdge, m2: Mesh) -> bool {
    diagonal_step(m, m.vertex(d.start), m.vertex(d.end), m2)
}

/// One more diagonal put in.
pub proof fn lemma_applied_next(m0: Mesh, ds: Seq<DirEdge>, k: int, mid: Mesh, mk: Mesh)
    requires
        0 < k <= ds.len(),
        diagonals_applied(m0, ds, k - 1, mid),
        diagonal_put(mid, ds[k - 1], mk),
    ensures
        diagonals_applied(m0, ds, k, mk),
{
}

/// A diagonal leaves the vertices as they are.
pub proof fn lemma_step_keeps_points(m: Mesh, p: DefaultKey, q: DefaultKey, m2: Mesh)
    requires
        diagonal_step(m, p, q, m2),
    ensures
        m2.points == m.points,
        m2.outside == m.outside,
{
}

/// The keys of the half-edges after the cut.
pub open spec fn cut_keys(m: Mesh, c: Cut) -> Set<DefaultKey> {
    Set::new(|k: DefaultKey| m.edges.dom().contains(k) || k == c.e1 || k == c.e2)
}

/// The record of half-edge `k` once the two new half-edges are tied into
/// the boundary and no face has been given to them yet.
pub open spec fn stitched_edge(m: Mesh, c: Cut, k: DefaultKey) -> DCELEdge {
    let r = cut_edge(m, c, k);
    DCELEdge {
        parent_key: r.parent_key,
        origin: r.origin,
        next: r.next,
        prev: r.prev,
        twin: r.twin,
        incident_face: if k == c.e1 || k == c.e2 {
            None
        } else {
            m.edges[k].incident_face
        },
    }
}

/// The record of half-edge `k` once the new half-edges and the first `t`
/// half-edges of the boundary have got their face.
pub open spec fn relabeled_edge(m: Mesh, c: Cut, t: int, k: DefaultKey) -> DCELEdge {
    if k == c.e1 || k == c.e2 || (c.ring.contains(k) && c.ring.index_of(k) < t) {
        cut_edge(m, c, k)
    } else {
        stitched_edge(m, c, k)
    }
}

/// Whether `edges` holds the records of the cut with the faces given to the
/// new half-edges and to the first `t` half-edges of the boundary.
pub open spec fn relabeled(m: Mesh, c: Cut, t: int, edges: Map<DefaultKey, DCELEdge>) -> bool {
    &&& edges.dom() == cut_keys(m, c)
    &&& forall|k: DefaultKey| cut_keys(m, c).contains(k) ==> #[trigger] edges[k] == relabeled_edge(m, c, t, k)
}

/// Whether `edges` holds the records of the cut before any face is given.
pub open spec fn stitched(m: Mesh, c: Cut, edges: Map<DefaultKey, DCELEdge>) -> bool {
    &&& edges.dom() == cut_keys(m, c)
    &&& forall|k: DefaultKey| cut_keys(m, c).contains(k) ==> #[trigger] edges[k] == stitched_edge(m, c, k)
}

/// Whether the boundary of the face to be cut is known and the keys of the
/// new half-edges are free.
pub open spec fn cut_placed(m: Mesh, c: Cut) -> bool {
    &&& m.wf()
    &&& m.internal(c.f)
    &&& ring(m.edges, c.f, c.ring)
    &&& forall|k: DefaultKey| c.ring.contains(k) <==> m.cycles[c.f].contains(k)
    &&& 2 <= c.at <= c.ring.len() - 2
    &&& !m.edges.dom().contains(c.e1)
    &&& !m.edges.dom().contains(c.e2)
    &&& c.e1 != c.e2
}

/// The record after the cut of the half-edge at place `t` of the boundary.
pub proof fn lemma_cut_edge_at(m: Mesh, c: Cut, t: int)
    requires
        cut_placed(m, c),
        0 <= t < c.ring.len(),
    ensures
        ({
            let k = c.ring[t];
            let old = m.edges[k];
            &&& m.edges.dom().contains(k)
            &&& k != c.e1
            &&& k != c.e2
            &&& c.ring.contains(k)
            &&& c.ring.index_of(k) == t
            &&& old.incident_face == Some(c.f)
            &&& old.parent_key == k
            &&& cut_edge(m, c, k) == (DCELEdge {
                parent_key: k,
                origin: old.origin,
                next: if t == c.at - 1 {
                    Some(c.e1)
                } else if t == c.ring.len() - 1 {
                    Some(c.e2)
                } else {
                    old.next
                },
                prev: if t == 0 {
                    Some(c.e1)
                } else if t == c.at {
                    Some(c.e2)
                } else {
                    old.prev
                },
                twin: old.twin,
                incident_face: Some(if t < c.at { c.fa } else { c.fb }),
            })
        }),
{
    lemma_ring_place(m.edges, c.f, c.ring, t);
    assert(ring_at(m.edges, c.f, c.ring, t));
    assert(m.edge_ok(c.ring[t]));
}

/// Once every half-edge of the boundary has its face the cut is made.
pub proof fn lemma_relabeled_all(m: Mesh, c: Cut, edges: Map<DefaultKey, DCELEdge>)
    requires
        cut_placed(m, c),
        relabeled(m, c, c.ring.len() as int, edges),
    ensures
        edges == cut_mesh(m, c).edges,
{
    let e2 = cut_mesh(m, c).edges;
    assert(edges.dom() =~= e2.dom());
    assert forall|k: DefaultKey| edges.dom().contains(k) implies edges[k] == e2[k] by {
        assert(cut_keys(m, c).contains(k));
        assert(edges[k] == relabeled_edge(m, c, c.ring.len() as int, k));
        if c.ring.contains(k) {
            let t = c.ring.index_of(k);
            assert(0 <= t < c.ring.len() && c.ring[t] == k);
        }
    }
    assert(edges =~= e2);
}

/// What the cut does to the half-edge at place `t` of the boundary that is
/// cut.
proof fn lemma_cut_ring(m: Mesh, c: Cut, t: int)
    requires
        cut_ready(m, c),
        0 <= t < c.ring.len(),
    ensures
        ({
            let k = c.ring[t];
            let r = cut_mesh(m, c).edges[k];
            &&& k != c.e1
            &&& k != c.e2
            &&& m.edges.dom().contains(k)
            &&& m.edge_ok(k)
            &&& m.face(k) == c.f
            &&& c.ring.contains(k)
            &&& r.parent_key == k
            &&& r.origin == m.edges[k].origin
            &&& r.twin == m.edges[k].twin
            &&& r.incident_face == Some(if t < c.at { c.fa } else { c.fb })
            &&& r.next == Some(
                if t == c.at - 1 {
                    c.e1
                } else if t == c.ring.len() - 1 {
                    c.e2
                } else {
                    c.ring[t + 1]
                },
            )
            &&& r.prev == Some(
                if t == 0 {
                    c.e1
                } else if t == c.at {
                    c.e2
                } else {
                    c.ring[t - 1]
                },
            )
        }),
{
    let n = c.ring.len() as int;
    let k = c.ring[t];
    lemma_ring_place(m.edges, c.f, c.ring, t);
    assert(ring_at(m.edges, c.f, c.ring, t));
    assert(m.edge_ok(k));
    let u = if t > 0 { t - 1 } else { n - 1 };
    let p = c.ring[u];
    assert(ring_at(m.edges, c.f, c.ring, u));
    assert(m.edge_ok(p));
    assert(m.next(p) == k);
}

/// The cut leaves a half-edge `k` off the boundary as it was, and such a
/// half-edge has its neighbours off the boundary too.
proof fn lemma_cut_rest(m: Mesh, c: Cut, k: DefaultKey)
    requires
        cut_ready(m, c),
        m.edges.dom().contains(k),
        !c.ring.contains(k),
    ensures
        cut_mesh(m, c).edges[k] == m.edges[k],
        m.edge_ok(k),
        k != c.e1,
        k != c.e2,
        m.face(k) != c.f,
        !c.ring.contains(m.next(k)),
        !c.ring.contains(m.prev(k)),
        cut_mesh(m, c).edges[m.next(k)] == m.edges[m.next(k)],
        cut_mesh(m, c).edges[m.prev(k)] == m.edges[m.prev(k)],
{
    assert(m.edge_ok(k));
    let nk = m.next(k);
    let pk = m.prev(k);
    assert(m.edge_ok(nk));
    assert(m.edge_ok(pk));
    if c.ring.contains(nk) {
        let t = choose|t: int| 0 <= t < c.ring.len() && c.ring[t] == nk;
        assert(ring_at(m.edges, c.f, c.ring, t));
    }
    if c.ring.contains(pk) {
        let t = choose|t: int| 0 <= t < c.ring.len() && c.ring[t] == pk;
        assert(ring_at(m.edges, c.f, c.ring, t));
    }
}

/// The cut keeps the origin and the twin of every half-edge that was there.
proof fn lemma_cut_old(m: Mesh, c: Cut, k: DefaultKey)
    requires
        cut_ready(m, c),
        m.edges.dom().contains(k),
    ensures
        cut_mesh(m, c).edges.dom().contains(k),
        cut_mesh(m, c).edges[k].origin == m.edges[k].origin,
        cut_mesh(m, c).edges[k].twin == m.edges[k].twin,
        cut_mesh(m, c).edges[k].parent_key == m.edges[k].parent_key,
        k != c.e1,
        k != c.e2,
        m.edge_ok(k),
{
    assert(m.edge_ok(k));
    if c.ring.contains(k) {
        let t = choose|t: int| 0 <= t < c.ring.len() && c.ring[t] == k;
        lemma_cut_ring(m, c, t);
    } else {
        lemma_cut_rest(m, c, k);
    }
}

/// After the cut every half-edge fits.
proof fn lemma_cut_edge_ok(m: Mesh, c: Cut, k: DefaultKey)
    requires
        cut_ready(m, c),
        cut_mesh(m, c).edges.dom().contains(k),
    ensures
        cut_mesh(m, c).edge_ok(k),
{
    let m2 = cut_mesh(m, c);
    let n = c.ring.len() as int;
    let a = seq![c.e1] + c.ring.subrange(0, c.at);
    let b = seq![c.e2] + c.ring.subrange(c.at, n);
    assert(m2.cycles[c.fa] == a);
    assert(m2.cycles[c.fb] == b);
    assert(a[0] == c.e1);
    assert(b[0] == c.e2);
    assert(m.face_ok(c.f));
    lemma_cut_ring(m, c, 0);
    lemma_cut_ring(m, c, c.at - 1);
    lemma_cut_ring(m, c, c.at);
    lemma_cut_ring(m, c, n - 1);
    if k == c.e1 {
        assert(m2.edge_ok(k));
    } else if k == c.e2 {
        assert(m2.edge_ok(k));
    } else if c.ring.contains(k) {
        let t = choose|t: int| 0 <= t < c.ring.len() && c.ring[t] == k;
        lemma_cut_ring(m, c, t);
        if t + 1 < n {
            lemma_cut_ring(m, c, t + 1);
        }
        if t > 0 {
            lemma_cut_ring(m, c, t - 1);
        }
        lemma_cut_old(m, c, m.twin(k));
        lemma_cut_old(m, c, m.next(k));
        assert(ring_at(m.edges, c.f, c.ring, t));
        let tw = m.twin(k);
        assert(m.edge_ok(tw));
        if c.ring.contains(tw) {
            let u = choose|u: int| 0 <= u < c.ring.len() && c.ring[u] == tw;
            assert(ring_at(m.edges, c.f, c.ring, u));
        }
        lemma_cut_rest(m, c, tw);
        if t < c.at {
            assert(a[t + 1] == k);
        } else {
            assert(b[t - c.at + 1] == k);
        }
        assert(m2.links_live(k));
        assert(m2.twin_paired(k));
        assert(m2.chained(k));
        assert(m2.faced(k));
    } else {
        lemma_cut_rest(m, c, k);
        lemma_cut_old(m, c, m.twin(k));
        lemma_cut_old(m, c, m.next(k));
        lemma_cut_old(m, c, m.prev(k));
        let tw = m.twin(k);
        assert(m.edge_ok(tw));
        if c.ring.contains(tw) {
            let u = choose|u: int| 0 <= u < c.ring.len() && c.ring[u] == tw;
            lemma_cut_ring(m, c, u);
        } else {
            lemma_cut_rest(m, c, tw);
        }
        assert(m.face_ok(m.face(k)));
        assert(m2.cycles[m.face(k)] == m.cycles[m.face(k)]);
        assert(m2.links_live(k));
        assert(m2.twin_paired(k));
        assert(m2.chained(k));
        assert(m2.faced(k));
    }
}

/// After the cut the two new faces fit.
proof fn lemma_cut_new_faces_ok(m: Mesh, c: Cut)
    requires
        cut_ready(m, c),
    ensures
        cut_mesh(m, c).face_ok(c.fa),
        cut_mesh(m, c).face_ok(c.fb),
{
    let m2 = cut_mesh(m, c);
    let n = c.ring.len() as int;
    let a = seq![c.e1] + c.ring.subrange(0, c.at);
    let b = seq![c.e2] + c.ring.subrange(c.at, n);
    assert(m2.cycles[c.fa] == a);
    assert(m2.cycles[c.fb] == b);
    assert(a[0] == c.e1);
    assert(b[0] == c.e2);
    lemma_cut_ring(m, c, 0);
    lemma_cut_ring(m, c, c.at);
    assert forall|t: int| 0 <= t < a.len() implies #[trigger] ring_at(m2.edges, c.fa, a, t) by {
        if t > 0 {
            lemma_cut_ring(m, c, t - 1);
            assert(a[t] == c.ring[t - 1]);
            if t < c.at {
                assert(a[t + 1] == c.ring[t]);
            }
        } else {
            assert(a[1] == c.ring[0]);
        }
    }
    assert forall|s: int, t: int| 0 <= s < a.len() && 0 <= t < a.len() && s != t implies #[trigger] apart(
        m2.edges,
        a,
        s,
        t,
    ) by {
        if s > 0 {
            lemma_cut_ring(m, c, s - 1);
            assert(a[s] == c.ring[s - 1]);
        }
        if t > 0 {
            lemma_cut_ring(m, c, t - 1);
            assert(a[t] == c.ring[t - 1]);
        }
        if s > 0 && t > 0 {
            assert(apart(m.edges, c.ring, s - 1, t - 1));
        } else if s == 0 {
            assert(apart(m.edges, c.ring, c.at, t - 1));
        } else {
            assert(apart(m.edges, c.ring, s - 1, c.at));
        }
    }
    assert forall|t: int| 0 <= t < b.len() implies #[trigger] ring_at(m2.edges, c.fb, b, t) by {
        if t > 0 {
            lemma_cut_ring(m, c, c.at + t - 1);
            assert(b[t] == c.ring[c.at + t - 1]);
            if c.at + t < n {
                assert(b[t + 1] == c.ring[c.at + t]);
            }
        } else {
            assert(b[1] == c.ring[c.at]);
        }
    }
    assert forall|s: int, t: int| 0 <= s < b.len() && 0 <= t < b.len() && s != t implies #[trigger] apart(
        m2.edges,
        b,
        s,
        t,
    ) by {
        if s > 0 {
            lemma_cut_ring(m, c, c.at + s - 1);
            assert(b[s] == c.ring[c.at + s - 1]);
        }
        if t > 0 {
            lemma_cut_ring(m, c, c.at + t - 1);
            assert(b[t] == c.ring[c.at + t - 1]);
        }
        if s > 0 && t > 0 {
            assert(apart(m.edges, c.ring, c.at + s - 1, c.at + t - 1));
        } else if s == 0 {
            assert(apart(m.edges, c.ring, 0, c.at + t - 1));
        } else {
            assert(apart(m.edges, c.ring, c.at + s - 1, 0));
        }
    }
}

/// After the cut every face that was not cut fits as before.
proof fn lemma_cut_old_face_ok(m: Mesh, c: Cut, g: DefaultKey)
    requires
        cut_ready(m, c),
        m.faces.dom().contains(g),
        g != c.f,
    ensures
        cut_mesh(m, c).face_ok(g),
        cut_mesh(m, c).cycles[g] == m.cycles[g],
        cut_mesh(m, c).faces[g] == m.faces[g],
{
    let m2 = cut_mesh(m, c);
    let cg = m.cycles[g];
    assert(m.face_ok(g));
    assert(m2.cycles[g] == cg);
    assert forall|t: int| 0 <= t < cg.len() implies #[trigger] ring_at(m2.edges, g, cg, t) && m2.edges[cg[t]]
        == m.edges[cg[t]] by {
        assert(ring_at(m.edges, g, cg, t));
        if c.ring.contains(cg[t]) {
            let u = choose|u: int| 0 <= u < c.ring.len() && c.ring[u] == cg[t];
            assert(ring_at(m.edges, c.f, c.ring, u));
        }
        lemma_cut_rest(m, c, cg[t]);
    }
    assert forall|s: int, t: int| 0 <= s < cg.len() && 0 <= t < cg.len() && s != t implies #[trigger] apart(
        m2.edges,
        cg,
        s,
        t,
    ) by {
        assert(apart(m.edges, cg, s, t));
        assert(ring_at(m2.edges, g, cg, s));
        assert(ring_at(m2.edges, g, cg, t));
    }
}

/// Whether the half-edge at a place of the cut boundary from `lo` up to,
/// not including, `hi` leaves the vertex `x`.
spec fn ring_has(m: Mesh, c: Cut, x: DefaultKey, lo: int, hi: int) -> bool {
    exists|t: int| lo <= t < hi && m.origin(#[trigger] c.ring[t]) == x
}

/// The corners of the face that is cut are the origins along its boundary,
/// wherever the boundary is read from.
proof fn lemma_corner_on_ring(m: Mesh, c: Cut, x: DefaultKey)
    requires
        cut_ready(m, c),
    ensures
        m.on_boundary(c.f, x) == ring_has(m, c, x, 0, c.ring.len() as int),
{
    let cyc = m.cycles[c.f];
    if m.on_boundary(c.f, x) {
        let t = choose|t: int| 0 <= t < cyc.len() && m.origin(#[trigger] cyc[t]) == x;
        assert(cyc.contains(cyc[t]));
        assert(c.ring.contains(cyc[t]));
        let u = choose|u: int| 0 <= u < c.ring.len() && c.ring[u] == cyc[t];
        assert(m.origin(c.ring[u]) == x);
    }
    if ring_has(m, c, x, 0, c.ring.len() as int) {
        let u = choose|u: int| 0 <= u < c.ring.len() && m.origin(#[trigger] c.ring[u]) == x;
        assert(c.ring.contains(c.ring[u]));
        assert(cyc.contains(c.ring[u]));
        let t = choose|t: int| 0 <= t < cyc.len() && cyc[t] == c.ring[u];
        assert(m.origin(cyc[t]) == x);
    }
}

/// The corners of the first new face are the second end of the diagonal and
/// the origins along the boundary before it.
proof fn lemma_corner_of_fa(m: Mesh, c: Cut, x: DefaultKey)
    requires
        cut_ready(m, c),
    ensures
        cut_mesh(m, c).on_boundary(c.fa, x) == (x == m.origin(c.ring[c.at]) || ring_has(m, c, x, 0, c.at)),
{
    let m2 = cut_mesh(m, c);
    let a = seq![c.e1] + c.ring.subrange(0, c.at);
    assert(m2.cycles[c.fa] == a);
    assert(a[0] == c.e1);
    if m2.on_boundary(c.fa, x) {
        let t = choose|t: int| 0 <= t < a.len() && m2.origin(#[trigger] m2.cycles[c.fa][t]) == x;
        if t > 0 {
            assert(a[t] == c.ring[t - 1]);
            lemma_cut_ring(m, c, t - 1);
            assert(m.origin(c.ring[t - 1]) == x);
        }
    }
    if x == m.origin(c.ring[c.at]) {
        assert(m2.origin(m2.cycles[c.fa][0]) == x);
    }
    if ring_has(m, c, x, 0, c.at) {
        let u = choose|u: int| 0 <= u < c.at && m.origin(#[trigger] c.ring[u]) == x;
        lemma_cut_ring(m, c, u);
        assert(a[u + 1] == c.ring[u]);
        assert(m2.origin(m2.cycles[c.fa][u + 1]) == x);
    }
}

/// The corners of the second new face are the first end of the diagonal and
/// the origins along the boundary from the second end on.
proof fn lemma_corner_of_fb(m: Mesh, c: Cut, x: DefaultKey)
    requires
        cut_ready(m, c),
    ensures
        cut_mesh(m, c).on_boundary(c.fb, x) == (x == m.origin(c.ring[0]) || ring_has(
            m,
            c,
            x,
            c.at,
            c.ring.len() as int,
        )),
{
    let m2 = cut_mesh(m, c);
    let n = c.ring.len() as int;
    let b = seq![c.e2] + c.ring.subrange(c.at, n);
    assert(m2.cycles[c.fb] == b);
    assert(b[0] == c.e2);
    if m2.on_boundary(c.fb, x) {
        let t = choose|t: int| 0 <= t < b.len() && m2.origin(#[trigger] m2.cycles[c.fb][t]) == x;
        if t > 0 {
            assert(b[t] == c.ring[c.at + t - 1]);
            lemma_cut_ring(m, c, c.at + t - 1);
            assert(m.origin(c.ring[c.at + t - 1]) == x);
        }
    }
    if x == m.origin(c.ring[0]) {
        assert(m2.origin(m2.cycles[c.fb][0]) == x);
    }
    if ring_has(m, c, x, c.at, n) {
        let u = choose|u: int| c.at <= u < n && m.origin(#[trigger] c.ring[u]) == x;
        lemma_cut_ring(m, c, u);
        assert(b[u - c.at + 1] == c.ring[u]);
        assert(m2.origin(m2.cycles[c.fb][u - c.at + 1]) == x);
    }
}

/// A face that is not cut keeps its corners and the neighbours among them.
pub proof fn lemma_old_face_kept(m: Mesh, c: Cut, g: DefaultKey, p: DefaultKey, q: DefaultKey)
    requires
        cut_ready(m, c),
        m.faces.dom().contains(g),
        g != c.f,
    ensures
        cut_mesh(m, c).on_boundary(g, p) == m.on_boundary(g, p),
        cut_mesh(m, c).adjacent_on(g, p, q) == m.adjacent_on(g, p, q),
        cut_mesh(m, c).faces.dom().contains(g),
        g != c.fa,
        g != c.fb,
{
    let m2 = cut_mesh(m, c);
    let cg = m.cycles[g];
    lemma_cut_old_face_ok(m, c, g);
    assert(m.face_ok(g));
    assert forall|t: int| 0 <= t < cg.len() implies m2.origin(#[trigger] cg[t]) == m.origin(cg[t]) && m2.origin(
        m2.next(cg[t]),
    ) == m.origin(m.next(cg[t])) by {
        assert(ring_at(m.edges, g, cg, t));
        if c.ring.contains(cg[t]) {
            let u = choose|u: int| 0 <= u < c.ring.len() && c.ring[u] == cg[t];
            assert(ring_at(m.edges, c.f, c.ring, u));
        }
        lemma_cut_rest(m, c, cg[t]);
    }
    if m2.on_boundary(g, p) {
        let t = choose|t: int| 0 <= t < cg.len() && m2.origin(#[trigger] m2.cycles[g][t]) == p;
        assert(m.origin(cg[t]) == p);
    }
    if m.on_boundary(g, p) {
        let t = choose|t: int| 0 <= t < cg.len() && m.origin(#[trigger] cg[t]) == p;
        assert(m2.origin(m2.cycles[g][t]) == p);
    }
    if m2.adjacent_on(g, p, q) {
        let t = choose|t: int|
            0 <= t < m2.cycles[g].len() && {
                ||| (m2.origin(#[trigger] m2.cycles[g][t]) == p && m2.origin(m2.next(m2.cycles[g][t])) == q)
                ||| (m2.origin(m2.cycles[g][t]) == q && m2.origin(m2.next(m2.cycles[g][t])) == p)
            };
        assert(m.origin(cg[t]) == m2.origin(cg[t]));
    }
    if m.adjacent_on(g, p, q) {
        let t = choose|t: int|
            0 <= t < cg.len() && {
                ||| (m.origin(#[trigger] cg[t]) == p && m.origin(m.next(cg[t])) == q)
                ||| (m.origin(cg[t]) == q && m.origin(m.next(cg[t])) == p)
            };
        assert(m2.origin(m2.cycles[g][t]) == m.origin(cg[t]));
    }
}

/// The two ends of the diagonal are neighbours on both new faces.
pub proof fn lemma_ends_adjacent(m: Mesh, c: Cut)
    requires
        cut_ready(m, c),
    ensures
        cut_mesh(m, c).adjacent_on(c.fa, m.origin(c.ring[0]), m.origin(c.ring[c.at])),
        cut_mesh(m, c).adjacent_on(c.fa, m.origin(c.ring[c.at]), m.origin(c.ring[0])),
        cut_mesh(m, c).adjacent_on(c.fb, m.origin(c.ring[0]), m.origin(c.ring[c.at])),
        cut_mesh(m, c).adjacent_on(c.fb, m.origin(c.ring[c.at]), m.origin(c.ring[0])),
{
    let m2 = cut_mesh(m, c);
    let n = c.ring.len() as int;
    let a = seq![c.e1] + c.ring.subrange(0, c.at);
    let b = seq![c.e2] + c.ring.subrange(c.at, n);
    assert(m2.cycles[c.fa] == a);
    assert(m2.cycles[c.fb] == b);
    assert(a[0] == c.e1);
    assert(b[0] == c.e2);
    lemma_cut_ring(m, c, 0);
    lemma_cut_ring(m, c, c.at);
    assert(m2.origin(m2.cycles[c.fa][0]) == m.origin(c.ring[c.at]));
    assert(m2.origin(m2.next(m2.cycles[c.fa][0])) == m.origin(c.ring[0]));
    assert(m2.origin(m2.cycles[c.fb][0]) == m.origin(c.ring[0]));
    assert(m2.origin(m2.next(m2.cycles[c.fb][0])) == m.origin(c.ring[c.at]));
}

/// Two vertices on both new faces are the two ends of the diagonal.
proof fn lemma_common_corners(m: Mesh, c: Cut, p: DefaultKey, q: DefaultKey)
    requires
        cut_ready(m, c),
        p != q,
        cut_mesh(m, c).on_boundary(c.fa, p),
        cut_mesh(m, c).on_boundary(c.fa, q),
        cut_mesh(m, c).on_boundary(c.fb, p),
        cut_mesh(m, c).on_boundary(c.fb, q),
    ensures
        (p == m.origin(c.ring[0]) && q == m.origin(c.ring[c.at])) || (q == m.origin(c.ring[0]) && p == m.origin(
            c.ring[c.at],
        )),
{
    lemma_corner_of_fa(m, c, p);
    lemma_corner_of_fa(m, c, q);
    lemma_corner_of_fb(m, c, p);
    lemma_corner_of_fb(m, c, q);
    lemma_end_if_common(m, c, p);
    lemma_end_if_common(m, c, q);
}

/// A vertex on both new faces is an end of the diagonal.
proof fn lemma_end_if_common(m: Mesh, c: Cut, x: DefaultKey)
    requires
        cut_ready(m, c),
        x == m.origin(c.ring[c.at]) || ring_has(m, c, x, 0, c.at),
        x == m.origin(c.ring[0]) || ring_has(m, c, x, c.at, c.ring.len() as int),
    ensures
        x == m.origin(c.ring[0]) || x == m.origin(c.ring[c.at]),
{
    let n = c.ring.len() as int;
    if x != m.origin(c.ring[0]) && x != m.origin(c.ring[c.at]) {
        let u = choose|u: int| 0 <= u < c.at && m.origin(#[trigger] c.ring[u]) == x;
        let v = choose|v: int| c.at <= v < n && m.origin(#[trigger] c.ring[v]) == x;
        assert(apart(m.edges, c.ring, u, v));
        assert(ring_at(m.edges, c.f, c.ring, u));
        assert(ring_at(m.edges, c.f, c.ring, v));
        assert(m.edge_ok(c.ring[u]));
        assert(m.edge_ok(c.ring[v]));
    }
}

/// Neighbours on the face that is cut stay neighbours on a new face that
/// has them both.
pub proof fn lemma_adjacent_persists(m: Mesh, c: Cut, p: DefaultKey, q: DefaultKey, first: bool)
    requires
        cut_ready(m, c),
        p != q,
        m.adjacent_on(c.f, p, q),
        first ==> cut_mesh(m, c).on_boundary(c.fa, p) && cut_mesh(m, c).on_boundary(c.fa, q),
        !first ==> cut_mesh(m, c).on_boundary(c.fb, p) && cut_mesh(m, c).on_boundary(c.fb, q),
    ensures
        cut_mesh(m, c).adjacent_on(if first { c.fa } else { c.fb }, p, q),
{
    let m2 = cut_mesh(m, c);
    let n = c.ring.len() as int;
    let cyc = m.cycles[c.f];
    let a = seq![c.e1] + c.ring.subrange(0, c.at);
    let b = seq![c.e2] + c.ring.subrange(c.at, n);
    assert(m2.cycles[c.fa] == a);
    assert(m2.cycles[c.fb] == b);
    let t = choose|t: int|
        0 <= t < cyc.len() && {
            ||| (m.origin(#[trigger] cyc[t]) == p && m.origin(m.next(cyc[t])) == q)
            ||| (m.origin(cyc[t]) == q && m.origin(m.next(cyc[t])) == p)
        };
    let e = cyc[t];
    assert(cyc.contains(e));
    assert(c.ring.contains(e));
    let u = choose|u: int| 0 <= u < c.ring.len() && c.ring[u] == e;
    lemma_cut_ring(m, c, u);
    lemma_cut_ring(m, c, 0);
    lemma_cut_ring(m, c, c.at);
    assert(ring_at(m.edges, c.f, c.ring, u));
    let w = wrap_next(n, u);
    lemma_cut_ring(m, c, w);
    assert(m.next(e) == c.ring[w]);
    // the successor of `e` after the cut leaves the vertex that it left before
    assert(m2.origin(m2.next(e)) == m.origin(m.next(e)));
    assert(m2.origin(e) == m.origin(e));
    let x = m.origin(e);
    let y = m.origin(m.next(e));
    assert(apart(m.edges, c.ring, u, w));
    assert(m.edge_ok(c.ring[w]));
    if u < c.at {
        assert(a[u + 1] == e);
        assert(m2.origin(m2.cycles[c.fa][u + 1]) == x && m2.origin(m2.next(m2.cycles[c.fa][u + 1])) == y);
        assert(m2.adjacent_on(c.fa, p, q));
        if !first {
            lemma_corner_of_fa(m, c, x);
            lemma_corner_of_fa(m, c, y);
            assert(ring_has(m, c, x, 0, c.at));
            if u + 1 < c.at {
                assert(m.origin(c.ring[u + 1]) == y);
                assert(ring_has(m, c, y, 0, c.at));
            }
            lemma_common_corners(m, c, p, q);
            lemma_ends_adjacent(m, c);
        }
    } else {
        assert(b[u - c.at + 1] == e);
        assert(m2.origin(m2.cycles[c.fb][u - c.at + 1]) == x && m2.origin(m2.next(m2.cycles[c.fb][u - c.at + 1])) == y);
        assert(m2.adjacent_on(c.fb, p, q));
        if first {
            lemma_corner_of_fb(m, c, x);
            lemma_corner_of_fb(m, c, y);
            assert(ring_has(m, c, x, c.at, n));
            if u + 1 < n {
                assert(m.origin(c.ring[u + 1]) == y);
                assert(ring_has(m, c, y, c.at, n));
            }
            lemma_common_corners(m, c, p, q);
            lemma_ends_adjacent(m, c);
        }
    }
}

/// A vertex on a new face was on the face that is cut.
pub proof fn lemma_new_corner_was(m: Mesh, c: Cut, x: DefaultKey)
    requires
        cut_ready(m, c),
        cut_mesh(m, c).on_boundary(c.fa, x) || cut_mesh(m, c).on_boundary(c.fb, x),
    ensures
        m.on_boundary(c.f, x),
{
    lemma_corner_of_fa(m, c, x);
    lemma_corner_of_fb(m, c, x);
    lemma_corner_on_ring(m, c, x);
    let n = c.ring.len() as int;
    if ring_has(m, c, x, 0, c.at) {
        let u = choose|u: int| 0 <= u < c.at && m.origin(#[trigger] c.ring[u]) == x;
        assert(0 <= u < n && m.origin(c.ring[u]) == x);
    } else if ring_has(m, c, x, c.at, n) {
        let u = choose|u: int| c.at <= u < n && m.origin(#[trigger] c.ring[u]) == x;
        assert(0 <= u < n && m.origin(c.ring[u]) == x);
    } else {
        assert(m.origin(c.ring[0]) == x || m.origin(c.ring[c.at]) == x);
    }
}

/// The two ends of a cut are two vertices of the face that is cut, and no
/// neighbours on it.
pub proof fn lemma_ends_apart(m: Mesh, c: Cut)
    requires
        cut_ready(m, c),
    ensures
        m.origin(c.ring[0]) != m.origin(c.ring[c.at]),
        m.both_on(c.f, m.origin(c.ring[0]), m.origin(c.ring[c.at])),
        !m.adjacent_on(c.f, m.origin(c.ring[0]), m.origin(c.ring[c.at])),
        !m.adjacent_on(c.f, m.origin(c.ring[c.at]), m.origin(c.ring[0])),
{
    let n = c.ring.len() as int;
    let cyc = m.cycles[c.f];
    let p = m.origin(c.ring[0]);
    let q = m.origin(c.ring[c.at]);
    assert(apart(m.edges, c.ring, 0, c.at));
    assert(ring_at(m.edges, c.f, c.ring, 0));
    assert(ring_at(m.edges, c.f, c.ring, c.at));
    assert(m.edge_ok(c.ring[0]));
    assert(m.edge_ok(c.ring[c.at]));
    lemma_corner_on_ring(m, c, p);
    lemma_corner_on_ring(m, c, q);
    assert(ring_has(m, c, p, 0, n));
    assert(ring_has(m, c, q, 0, n));
    if m.adjacent_on(c.f, p, q) || m.adjacent_on(c.f, q, p) {
        let t = choose|t: int|
            0 <= t < cyc.len() && {
                ||| (m.origin(#[trigger] cyc[t]) == p && m.origin(m.next(cyc[t])) == q)
                ||| (m.origin(cyc[t]) == q && m.origin(m.next(cyc[t])) == p)
            };
        let e = cyc[t];
        assert(cyc.contains(e));
        assert(c.ring.contains(e));
        let u = choose|u: int| 0 <= u < c.ring.len() && c.ring[u] == e;
        let w = wrap_next(n, u);
        assert(ring_at(m.edges, c.f, c.ring, u));
        assert(ring_at(m.edges, c.f, c.ring, w));
        assert(m.edge_ok(c.ring[u]));
        assert(m.edge_ok(c.ring[w]));
        if u != 0 {
            assert(apart(m.edges, c.ring, u, 0));
        }
        if u != c.at {
            assert(apart(m.edges, c.ring, u, c.at));
        }
        if w != 0 {
            assert(apart(m.edges, c.ring, w, 0));
        }
        if w != c.at {
            assert(apart(m.edges, c.ring, w, c.at));
        }
    }
}

/// After a cut the half-edges with a face inside the polygon on either side
/// are those that were so before, and the two new ones.
pub proof fn lemma_cut_inner(m: Mesh, c: Cut, e: DefaultKey)
    requires
        cut_ready(m, c),
    ensures
        cut_mesh(m, c).inner(e) == (e == c.e1 || e == c.e2 || m.inner(e)),
        m.inner(e) ==> cut_mesh(m, c).twin(e) == m.twin(e) && m.inner(m.twin(e)),
        cut_mesh(m, c).twin(c.e1) == c.e2,
        cut_mesh(m, c).twin(c.e2) == c.e1,
{
    let m2 = cut_mesh(m, c);
    if m.edges.dom().contains(e) {
        assert(m.edge_ok(e));
        let tw = m.twin(e);
        assert(m.edge_ok(tw));
        lemma_cut_old(m, c, e);
        lemma_cut_old(m, c, tw);
        assert(m.face_ok(c.f));
        if c.ring.contains(e) {
            let t = choose|t: int| 0 <= t < c.ring.len() && c.ring[t] == e;
            lemma_cut_ring(m, c, t);
        } else {
            lemma_cut_rest(m, c, e);
        }
        if c.ring.contains(tw) {
            let t = choose|t: int| 0 <= t < c.ring.len() && c.ring[t] == tw;
            lemma_cut_ring(m, c, t);
        } else {
            lemma_cut_rest(m, c, tw);
        }
    }
}

/// After a cut a half-edge that was there lies on the face it lay on, or on
/// a part of it, and on the boundary cycle of that face.
pub proof fn lemma_cut_face_of(m: Mesh, c: Cut, e: DefaultKey)
    requires
        cut_ready(m, c),
        m.edges.dom().contains(e),
    ensures
        cut_mesh(m, c).twin(e) == m.twin(e),
        cut_mesh(m, c).faces.dom().contains(cut_mesh(m, c).face(e)),
        m.face(e) != m.outside ==> cut_mesh(m, c).face(e) != m.outside,
        (if cut_mesh(m, c).face(e) == c.fa || cut_mesh(m, c).face(e) == c.fb {
            c.f
        } else {
            cut_mesh(m, c).face(e)
        }) == m.face(e),
        cut_mesh(m, c).cycles[cut_mesh(m, c).face(e)].contains(e),
{
    let m2 = cut_mesh(m, c);
    lemma_cut_old(m, c, e);
    lemma_cut_edge_ok(m, c, e);
    assert(m.face_ok(c.f));
    if c.ring.contains(e) {
        let t = choose|t: int| 0 <= t < c.ring.len() && c.ring[t] == e;
        lemma_cut_ring(m, c, t);
    } else {
        lemma_cut_rest(m, c, e);
    }
}

/// After a cut two faces inside the polygon still touch along an edge at
/// most.
proof fn lemma_cut_thin(m: Mesh, c: Cut)
    requires
        cut_ready(m, c),
    ensures
        cut_mesh(m, c).thin(),
{
    let m2 = cut_mesh(m, c);
    assert forall|f: DefaultKey, g: DefaultKey, p: DefaultKey, q: DefaultKey|
        #[trigger] m2.both_on(f, p, q) && #[trigger] m2.both_on(g, p, q) && f != g && p != q implies m2.adjacent_on(
        f,
        p,
        q,
    ) by {
        let f_new = f == c.fa || f == c.fb;
        let g_new = g == c.fa || g == c.fb;
        if f_new && g_new {
            if f == c.fa {
                lemma_common_corners(m, c, p, q);
            } else {
                lemma_common_corners(m, c, p, q);
            }
            lemma_ends_adjacent(m, c);
        } else if f_new {
            lemma_old_face_kept(m, c, g, p, q);
            lemma_old_face_kept(m, c, g, q, p);
            lemma_new_corner_was(m, c, p);
            lemma_new_corner_was(m, c, q);
            assert(m.both_on(c.f, p, q));
            assert(m.both_on(g, p, q));
            assert(m.adjacent_on(c.f, p, q));
            lemma_adjacent_persists(m, c, p, q, f == c.fa);
        } else if g_new {
            lemma_old_face_kept(m, c, f, p, q);
            lemma_old_face_kept(m, c, f, q, p);
            lemma_new_corner_was(m, c, p);
            lemma_new_corner_was(m, c, q);
            assert(m.both_on(c.f, p, q));
            assert(m.both_on(f, p, q));
            assert(m.adjacent_on(f, p, q));
        } else {
            lemma_old_face_kept(m, c, f, p, q);
            lemma_old_face_kept(m, c, f, q, p);
            lemma_old_face_kept(m, c, g, p, q);
            lemma_old_face_kept(m, c, g, q, p);
            assert(m.both_on(f, p, q));
            assert(m.both_on(g, p, q));
        }
    }
}

/// A cut that can be made leaves an edge list.
pub proof fn lemma_cut_wf(m: Mesh, c: Cut)
    requires
        cut_ready(m, c),
    ensures
        cut_mesh(m, c).wf(),
{
    let m2 = cut_mesh(m, c);
    assert forall|e: DefaultKey| m2.edges.dom().contains(e) implies #[trigger] m2.edge_ok(e) by {
        lemma_cut_edge_ok(m, c, e);
    }
    lemma_cut_new_faces_ok(m, c);
    assert forall|f: DefaultKey| m2.faces.dom().contains(f) implies #[trigger] m2.face_ok(f) by {
        if f != c.fa && f != c.fb {
            lemma_cut_old_face_ok(m, c, f);
        }
    }
    assert forall|p: DefaultKey| m2.points.dom().contains(p) implies #[trigger] m2.point_ok(p) by {
        assert(m.point_ok(p));
        let e = m.points[p].incident_edge->0;
        lemma_cut_old(m, c, e);
        lemma_cut_edge_ok(m, c, e);
        assert(m2.faces.dom().contains(m2.face(e)));
        if c.ring.contains(e) {
            let t = choose|t: int| 0 <= t < c.ring.len() && c.ring[t] == e;
            lemma_cut_ring(m, c, t);
        } else {
            lemma_cut_rest(m, c, e);
        }
    }
    assert(m2.cycles.dom() =~= m2.faces.dom());
    lemma_cut_thin(m, c);
    crate::dual::lemma_cut_connected(m, c);
    crate::dual::lemma_cut_acyclic(m, c);
}

} // verus!

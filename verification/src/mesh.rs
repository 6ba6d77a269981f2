//! The mathematical model of a doubly-connected edge list: its records as
//! maps, the boundary cycle of each face, and what it means for them to fit
//! together.

use crate::arena::{DCELEdge, DCELFace, DCELPoint};
use crate::primitives::Point;
use slotmap::DefaultKey;
use vstd::prelude::*;

verus! {

/// The records of an edge list, and for each face the half-edges of its
/// boundary in order, starting at the half-edge that the face names.
pub struct Mesh {
    pub points: Map<DefaultKey, DCELPoint>,
    pub edges: Map<DefaultKey, DCELEdge>,
    pub faces: Map<DefaultKey, DCELFace>,
    pub cycles: Map<DefaultKey, Seq<DefaultKey>>,
    /// The unbounded face.
    pub outside: DefaultKey,
}

/// The index after `t` on a cycle of length `n`.
pub open spec fn wrap_next(n: int, t: int) -> int {
    if t + 1 < n {
        t + 1
    } else {
        0
    }
}

/// Whether the half-edge at place `t` of the walk `c` is live, lies on face
/// `f` and is followed by the half-edge at the next place.
pub open spec fn ring_at(edges: Map<DefaultKey, DCELEdge>, f: DefaultKey, c: Seq<DefaultKey>, t: int) -> bool {
    &&& edges.dom().contains(c[t])
    &&& edges[c[t]].incident_face == Some(f)
    &&& edges[c[t]].next == Some(c[wrap_next(c.len() as int, t)])
}

/// Whether the half-edges at places `s` and `t` of the walk `c` differ and
/// leave different vertices.
pub open spec fn apart(edges: Map<DefaultKey, DCELEdge>, c: Seq<DefaultKey>, s: int, t: int) -> bool {
    c[s] != c[t] && edges[c[s]].origin != edges[c[t]].origin
}

/// Whether `c` is a closed walk of half-edges around face `f`: at least
/// three, none twice, each followed by the next and the last by the first,
/// all on face `f`, no two leaving the same vertex.
pub open spec fn ring(edges: Map<DefaultKey, DCELEdge>, f: DefaultKey, c: Seq<DefaultKey>) -> bool {
    &&& c.len() >= 3
    &&& forall|t: int| 0 <= t < c.len() ==> #[trigger] ring_at(edges, f, c, t)
    &&& forall|s: int, t: int| 0 <= s < c.len() && 0 <= t < c.len() && s != t ==> #[trigger] apart(edges, c, s, t)
}

impl Mesh {
    pub open spec fn next(self, e: DefaultKey) -> DefaultKey {
        self.edges[e].next->0
    }

    pub open spec fn prev(self, e: DefaultKey) -> DefaultKey {
        self.edges[e].prev->0
    }

    pub open spec fn twin(self, e: DefaultKey) -> DefaultKey {
        self.edges[e].twin->0
    }

    pub open spec fn origin(self, e: DefaultKey) -> DefaultKey {
        self.edges[e].origin->0
    }

    pub open spec fn face(self, e: DefaultKey) -> DefaultKey {
        self.edges[e].incident_face->0
    }

    /// Whether `f` is a face inside the polygon.
    pub open spec fn internal(self, f: DefaultKey) -> bool {
        self.faces.dom().contains(f) && f != self.outside
    }

    /// The half-edge that face `f` names.
    pub open spec fn anchor(self, f: DefaultKey) -> DefaultKey {
        if f == self.outside {
            self.faces[f].inner->0
        } else {
            self.faces[f].outer->0
        }
    }

    /// The vertices around face `f`, from the origin of its named half-edge.
    pub open spec fn corners(self, f: DefaultKey) -> Seq<DefaultKey> {
        Seq::new(self.cycles[f].len(), |t: int| self.origin(self.cycles[f][t]))
    }

    /// The points around face `f`.
    pub open spec fn corner_points(self, f: DefaultKey) -> Seq<Point> {
        Seq::new(self.cycles[f].len(), |t: int| self.points[self.origin(self.cycles[f][t])].point2d)
    }

    /// Whether half-edge `e` holds its own key and names a live vertex, live
    /// neighbours, a live twin and a live face.
    pub open spec fn links_live(self, e: DefaultKey) -> bool {
        &&& self.edges[e].parent_key == e
        &&& self.edges[e].origin is Some
        &&& self.points.dom().contains(self.origin(e))
        &&& self.edges[e].next is Some
        &&& self.edges.dom().contains(self.next(e))
        &&& self.edges[e].prev is Some
        &&& self.edges.dom().contains(self.prev(e))
        &&& self.edges[e].twin is Some
        &&& self.edges.dom().contains(self.twin(e))
        &&& self.edges[e].incident_face is Some
        &&& self.faces.dom().contains(self.face(e))
    }

    /// Whether `e` and its twin are a pair that runs opposite ways, along
    /// two different faces.
    pub open spec fn twin_paired(self, e: DefaultKey) -> bool {
        &&& self.twin(self.twin(e)) == e
        &&& self.twin(e) != e
        &&& self.origin(self.twin(e)) == self.origin(self.next(e))
        &&& self.face(self.twin(e)) != self.face(e)
    }

    /// Whether `next` and `prev` undo each other at `e`.
    pub open spec fn chained(self, e: DefaultKey) -> bool {
        &&& self.next(self.prev(e)) == e
        &&& self.prev(self.next(e)) == e
    }

    /// Whether `e` lies on the face of its successor, and on the boundary
    /// cycle of that face.
    pub open spec fn faced(self, e: DefaultKey) -> bool {
        &&& self.face(self.next(e)) == self.face(e)
        &&& self.cycles[self.face(e)].contains(e)
    }

    /// Whether half-edge `e` fits into the edge list.
    pub open spec fn edge_ok(self, e: DefaultKey) -> bool {
        &&& self.links_live(e)
        &&& self.twin_paired(e)
        &&& self.chained(e)
        &&& self.faced(e)
    }

    /// Whether face `f` holds its own key, names one half-edge, in `inner`
    /// when it is the unbounded face and in `outer` when it is not, and has
    /// a boundary cycle that starts at that half-edge.
    pub open spec fn face_ok(self, f: DefaultKey) -> bool {
        &&& self.faces[f].parent_key == f
        &&& (self.faces[f].inner is Some) == (f == self.outside)
        &&& (self.faces[f].outer is Some) == (f != self.outside)
        &&& ring(self.edges, f, self.cycles[f])
        &&& self.cycles[f][0] == self.anchor(f)
    }

    /// Whether vertex `p` holds its own key and names a half-edge that
    /// leaves it along the boundary of a face inside the polygon.
    pub open spec fn point_ok(self, p: DefaultKey) -> bool {
        &&& self.points[p].parent_key == p
        &&& self.points[p].incident_edge is Some
        &&& self.edges.dom().contains(self.points[p].incident_edge->0)
        &&& self.origin(self.points[p].incident_edge->0) == p
        &&& self.face(self.points[p].incident_edge->0) != self.outside
    }

    /// Whether `e` is a half-edge with a face inside the polygon on either
    /// side: half of a diagonal.
    pub open spec fn inner(self, e: DefaultKey) -> bool {
        &&& self.edges.dom().contains(e)
        &&& self.face(e) != self.outside
        &&& self.face(self.twin(e)) != self.outside
    }

    /// Whether the vertices `p` and `q` are neighbours on the boundary of
    /// face `f`.
    pub open spec fn adjacent_on(self, f: DefaultKey, p: DefaultKey, q: DefaultKey) -> bool {
        exists|t: int|
            0 <= t < self.cycles[f].len() && {
                ||| (self.origin(#[trigger] self.cycles[f][t]) == p && self.origin(self.next(self.cycles[f][t])) == q)
                ||| (self.origin(self.cycles[f][t]) == q && self.origin(self.next(self.cycles[f][t])) == p)
            }
    }

    /// Whether `f` is a face inside the polygon with both `p` and `q` on
    /// its boundary.
    pub open spec fn both_on(self, f: DefaultKey, p: DefaultKey, q: DefaultKey) -> bool {
        self.internal(f) && self.on_boundary(f, p) && self.on_boundary(f, q)
    }

    /// Whether two faces inside the polygon have no two vertices in common
    /// but neighbours: they touch along an edge at most.
    pub open spec fn thin(self) -> bool {
        forall|f: DefaultKey, g: DefaultKey, p: DefaultKey, q: DefaultKey|
            #[trigger] self.both_on(f, p, q) && #[trigger] self.both_on(g, p, q) && f != g && p != q
                ==> self.adjacent_on(f, p, q)
    }

    /// Whether the records fit together as an edge list: every half-edge,
    /// face and vertex fits, one face is the unbounded one, no two vertices
    /// lie at the same point, two faces inside the polygon touch along an
    /// edge at most, and a walk leads from each of them to every other and
    /// none round in a circle.
    pub open spec fn wf(self) -> bool {
        &&& forall|e: DefaultKey| self.edges.dom().contains(e) ==> #[trigger] self.edge_ok(e)
        &&& forall|f: DefaultKey| self.faces.dom().contains(f) ==> #[trigger] self.face_ok(f)
        &&& forall|p: DefaultKey| self.points.dom().contains(p) ==> #[trigger] self.point_ok(p)
        &&& self.faces.dom().contains(self.outside)
        &&& self.cycles.dom() == self.faces.dom()
        &&& forall|p: DefaultKey, q: DefaultKey|
            self.points.dom().contains(p) && self.points.dom().contains(q) && p != q ==> (
            #[trigger] self.points[p]).point2d != (#[trigger] self.points[q]).point2d
        &&& self.thin()
        &&& crate::dual::connected(self)
        &&& crate::dual::acyclic(self)
    }

    /// The half-edge reached from `e` by `k` steps of `next`.
    pub open spec fn next_times(self, e: DefaultKey, k: nat) -> DefaultKey
        decreases k,
    {
        if k == 0 {
            e
        } else {
            self.next(self.next_times(e, (k - 1) as nat))
        }
    }

    /// In an edge list the twin of the twin of a half-edge is the half-edge
    /// itself and lies on another face, `next` and `prev` undo each other,
    /// and a half-edge lies on the face of its successor.
    pub proof fn lemma_round_trip(self, e: DefaultKey)
        requires
            self.wf(),
            self.edges.dom().contains(e),
        ensures
            self.twin(self.twin(e)) == e,
            self.twin(e) != e,
            self.origin(self.twin(e)) == self.origin(self.next(e)),
            self.face(self.twin(e)) != self.face(e),
            self.next(self.prev(e)) == e,
            self.prev(self.next(e)) == e,
            self.face(self.next(e)) == self.face(e),
    {
        assert(self.edge_ok(e));
    }

    /// A walk along `next` from the half-edge that a face names stays on
    /// the boundary of the face.
    pub proof fn lemma_walk_along(self, f: DefaultKey, k: nat)
        requires
            self.wf(),
            self.faces.dom().contains(f),
            k <= self.cycles[f].len(),
        ensures
            self.next_times(self.anchor(f), k) == self.cycles[f][if k == self.cycles[f].len() { 0 } else { k as int }],
        decreases k,
    {
        assert(self.face_ok(f));
        if k > 0 {
            self.lemma_walk_along(f, (k - 1) as nat);
            assert(ring_at(self.edges, f, self.cycles[f], k - 1));
        }
    }

    /// A walk along `next` from the half-edge that a face names comes back
    /// to it after as many steps as the boundary has half-edges, and not
    /// before.
    pub proof fn lemma_walk_returns(self, f: DefaultKey)
        requires
            self.wf(),
            self.faces.dom().contains(f),
        ensures
            self.next_times(self.anchor(f), self.cycles[f].len()) == self.anchor(f),
            forall|k: nat| 0 < k < self.cycles[f].len() ==> #[trigger] self.next_times(self.anchor(f), k) != self.anchor(f),
    {
        assert(self.face_ok(f));
        self.lemma_walk_along(f, self.cycles[f].len());
        assert forall|k: nat| 0 < k < self.cycles[f].len() implies #[trigger] self.next_times(self.anchor(f), k)
            != self.anchor(f) by {
            self.lemma_walk_along(f, k);
            assert(apart(self.edges, self.cycles[f], k as int, 0));
        }
    }

    /// Whether some vertex lies at the point `p`.
    pub open spec fn has_point(self, p: Point) -> bool {
        exists|k: DefaultKey| #[trigger] self.points.dom().contains(k) && self.points[k].point2d == p
    }

    /// The vertex at the point `p`.
    pub open spec fn vertex(self, p: Point) -> DefaultKey {
        choose|k: DefaultKey| #[trigger] self.points.dom().contains(k) && self.points[k].point2d == p
    }

    /// A point has one vertex.
    pub proof fn lemma_vertex_unique(self, p: Point, k: DefaultKey)
        requires
            self.wf(),
            self.points.dom().contains(k),
            self.points[k].point2d == p,
        ensures
            self.vertex(p) == k,
            self.has_point(p),
    {
        let v = self.vertex(p);
        assert(self.points.dom().contains(v) && self.points[v].point2d == p);
        if v != k {
            assert(self.points[v].point2d != self.points[k].point2d);
        }
    }

    /// A point at a corner of a face is the point of a vertex.
    pub proof fn lemma_corner_is_point(self, f: DefaultKey, p: Point)
        requires
            self.wf(),
            self.faces.dom().contains(f),
            self.corner_points(f).contains(p),
        ensures
            self.has_point(p),
    {
        let cp = self.corner_points(f);
        let t = choose|t: int| 0 <= t < cp.len() && cp[t] == p;
        assert(self.face_ok(f));
        assert(ring_at(self.edges, f, self.cycles[f], t));
        assert(self.edge_ok(self.cycles[f][t]));
        assert(self.points.dom().contains(self.origin(self.cycles[f][t])));
    }

    /// The points around a face are at least three and all different.
    pub proof fn lemma_corners_differ(self, f: DefaultKey)
        requires
            self.wf(),
            self.faces.dom().contains(f),
        ensures
            self.corner_points(f).len() >= 3,
            self.corner_points(f).no_duplicates(),
            self.corners(f).no_duplicates(),
    {
        let c = self.cycles[f];
        let cp = self.corner_points(f);
        assert(self.face_ok(f));
        let ck = self.corners(f);
        assert forall|i: int, j: int| 0 <= i < cp.len() && 0 <= j < cp.len() && i != j implies cp[i] != cp[j] by {
            assert(apart(self.edges, c, i, j));
            assert(ring_at(self.edges, f, c, i));
            assert(ring_at(self.edges, f, c, j));
            assert(self.edge_ok(c[i]));
            assert(self.edge_ok(c[j]));
        }
        assert forall|i: int, j: int| 0 <= i < ck.len() && 0 <= j < ck.len() && i != j implies ck[i] != ck[j] by {
            assert(apart(self.edges, c, i, j));
            assert(ring_at(self.edges, f, c, i));
            assert(ring_at(self.edges, f, c, j));
            assert(self.edge_ok(c[i]));
            assert(self.edge_ok(c[j]));
        }
    }

    /// A vertex lies on the boundary of a face when it is one of the
    /// corners of the face.
    pub proof fn lemma_on_boundary(self, f: DefaultKey, p: DefaultKey)
        ensures
            self.on_boundary(f, p) == self.corners(f).contains(p),
    {
        let c = self.corners(f);
        if self.on_boundary(f, p) {
            let t = choose|t: int| 0 <= t < self.cycles[f].len() && self.origin(#[trigger] self.cycles[f][t]) == p;
            assert(c[t] == p);
        }
        if c.contains(p) {
            let t = choose|t: int| 0 <= t < c.len() && c[t] == p;
            assert(self.origin(self.cycles[f][t]) == p);
        }
    }

    /// Whether vertex `p` lies on the boundary of face `f`.
    pub open spec fn on_boundary(self, f: DefaultKey, p: DefaultKey) -> bool {
        exists|t: int| 0 <= t < self.cycles[f].len() && self.origin(#[trigger] self.cycles[f][t]) == p
    }

    /// Whether some face inside the polygon has both vertices on its
    /// boundary.
    pub open spec fn share_face(self, p: DefaultKey, q: DefaultKey) -> bool {
        exists|f: DefaultKey| #[trigger] self.internal(f) && self.on_boundary(f, p) && self.on_boundary(f, q)
    }
}

/// The cycle `c` started at position `i`.
pub open spec fn rotate(c: Seq<DefaultKey>, i: int) -> Seq<DefaultKey> {
    c.subrange(i, c.len() as int) + c.subrange(0, i)
}

/// A boundary cycle may be started at any of its half-edges.
pub proof fn lemma_rotate_ring(edges: Map<DefaultKey, DCELEdge>, f: DefaultKey, c: Seq<DefaultKey>, i: int)
    requires
        ring(edges, f, c),
        0 <= i < c.len(),
    ensures
        ring(edges, f, rotate(c, i)),
        rotate(c, i).len() == c.len(),
        forall|t: int| 0 <= t < c.len() - i ==> rotate(c, i)[t] == c[t + i],
        forall|t: int| c.len() - i <= t < c.len() ==> rotate(c, i)[t] == c[t + i - c.len()],
        forall|k: DefaultKey| rotate(c, i).contains(k) <==> c.contains(k),
{
    let r = rotate(c, i);
    let n = c.len() as int;
    assert forall|t: int| 0 <= t < n - i implies r[t] == c[t + i] by {}
    assert forall|t: int| n - i <= t < n implies r[t] == c[t + i - n] by {}
    assert forall|t: int| 0 <= t < r.len() implies #[trigger] ring_at(edges, f, r, t) by {
        let t2 = if t < n - i { t + i } else { t + i - n };
        assert(r[t] == c[t2]);
        let u = wrap_next(n, t);
        let u2 = if u < n - i { u + i } else { u + i - n };
        assert(r[u] == c[u2]);
        assert(u2 == wrap_next(n, t2));
        assert(ring_at(edges, f, c, t2));
    }
    assert forall|s: int, t: int| 0 <= s < r.len() && 0 <= t < r.len() && s != t implies #[trigger] apart(
        edges,
        r,
        s,
        t,
    ) by {
        let s2 = if s < n - i { s + i } else { s + i - n };
        let t2 = if t < n - i { t + i } else { t + i - n };
        assert(r[s] == c[s2]);
        assert(r[t] == c[t2]);
        assert(apart(edges, c, s2, t2));
    }
    assert forall|k: DefaultKey| r.contains(k) <==> c.contains(k) by {
        if r.contains(k) {
            let t = choose|t: int| 0 <= t < r.len() && r[t] == k;
            let t2 = if t < n - i { t + i } else { t + i - n };
            assert(c[t2] == k);
        }
        if c.contains(k) {
            let t2 = choose|t: int| 0 <= t < c.len() && c[t] == k;
            let t = if t2 >= i { t2 - i } else { t2 + n - i };
            assert(r[t] == k);
        }
    }
}

/// On a boundary cycle a half-edge has one place.
pub proof fn lemma_ring_place(edges: Map<DefaultKey, DCELEdge>, f: DefaultKey, c: Seq<DefaultKey>, t: int)
    requires
        ring(edges, f, c),
        0 <= t < c.len(),
    ensures
        c.contains(c[t]),
        c.index_of(c[t]) == t,
{
    let i = c.index_of(c[t]);
    assert(0 <= i < c.len() && c[i] == c[t]);
    if i != t {
        assert(apart(edges, c, i, t));
    }
}

} // verus!

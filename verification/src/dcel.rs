//! The doubly-connected edge list of a polygon and of the faces that
//! diagonals cut it into.

use crate::arena::{
    edge_arena_new, edge_at, edge_insert, edge_keys, edge_records, edge_set, edge_slots, face_arena_new,
    face_at, face_insert, face_keys, face_records, face_remove, face_set, face_slots, point_arena_new,
    point_at, point_insert, point_keys, point_records, point_set, point_slots, same_key, EdgeArena, EdgeLinks,
    FaceArena, PointArena, SLOT_LIMIT,
};
pub use crate::arena::{DCELEdge, DCELFace, DCELPoint};
use crate::dual::lists_faces;
use crate::keys::{keys_are, lemma_joined_keys, lemma_no_longer, lemma_push_fresh};
use crate::monotone::{fan_diagonals, piece_diagonals};
use crate::mesh::{apart, lemma_rotate_ring, ring, ring_at, rotate, Mesh};
use crate::outline::{
    faces_pair, flip, is_polygon_mesh, lemma_polygon_mesh_wf, lemma_polygon_no_diagonal, outlines, polygon_at,
    polygon_keys,
};
use crate::polygon::SimplePolygon;
use crate::split::{
    cut_edge, cut_keys, cut_mesh, cut_placed, cut_ready, diagonal_step, diagonals_applied, joins, lemma_applied_next,
    lemma_cut_edge_at, lemma_cut_wf, lemma_relabeled_all, lemma_step_keeps_points, relabeled, relabeled_edge,
    stitched, stitched_edge, Cut,
};
use crate::tally::{
    chords_pair, lemma_chords_cut, lemma_count_cut, lemma_halves_no_more, lemma_total_lower, lemma_total_threes,
    total_len,
};
use crate::primitives::{DirEdge, Point};
use slotmap::DefaultKey;
use vstd::prelude::*;

verus! {

/// An edge list: vertices, half-edges and faces in three slot maps, and a
/// table from each point to its vertex.
pub struct DCEL {
    points: PointArena,
    edges: EdgeArena,
    faces: FaceArena,
    point_hash: Vec<(Point, DefaultKey)>,
    cycles: Ghost<Map<DefaultKey, Seq<DefaultKey>>>,
    outside: Ghost<DefaultKey>,
    vertex_count: usize,
    splits: usize,
    interior: Ghost<Seq<DefaultKey>>,
    chords: Ghost<Seq<DefaultKey>>,
}

impl View for DCEL {
    type V = Mesh;

    closed spec fn view(&self) -> Mesh {
        Mesh {
            points: point_records(self.points),
            edges: edge_records(self.edges),
            faces: face_records(self.faces),
            cycles: self.cycles@,
            outside: self.outside@,
        }
    }
}

/// The half-edge `k` with its successor replaced.
fn with_next(edges: &mut EdgeArena, k: DefaultKey, next: DefaultKey)
    requires
        edge_records(*old(edges)).dom().contains(k),
    ensures
        edge_slots(*final(edges)) == edge_slots(*old(edges)),
        edge_records(*final(edges)) == edge_records(*old(edges)).insert(
            k,
            (DCELEdge { next: Some(next), ..edge_records(*old(edges))[k] }),
        ),
{
    let mut rec = edge_at(edges, k);
    rec.next = Some(next);
    edge_set(edges, k, rec);
}

/// The half-edge `k` with its predecessor replaced.
fn with_prev(edges: &mut EdgeArena, k: DefaultKey, prev: DefaultKey)
    requires
        edge_records(*old(edges)).dom().contains(k),
    ensures
        edge_slots(*final(edges)) == edge_slots(*old(edges)),
        edge_records(*final(edges)) == edge_records(*old(edges)).insert(
            k,
            (DCELEdge { prev: Some(prev), ..edge_records(*old(edges))[k] }),
        ),
{
    let mut rec = edge_at(edges, k);
    rec.prev = Some(prev);
    edge_set(edges, k, rec);
}

/// The half-edge `k` with its twin replaced.
fn with_twin(edges: &mut EdgeArena, k: DefaultKey, twin: DefaultKey)
    requires
        edge_records(*old(edges)).dom().contains(k),
    ensures
        edge_slots(*final(edges)) == edge_slots(*old(edges)),
        edge_records(*final(edges)) == edge_records(*old(edges)).insert(
            k,
            (DCELEdge { twin: Some(twin), ..edge_records(*old(edges))[k] }),
        ),
{
    let mut rec = edge_at(edges, k);
    rec.twin = Some(twin);
    edge_set(edges, k, rec);
}

/// The half-edge `k` with its face replaced.
fn with_face(edges: &mut EdgeArena, k: DefaultKey, face: DefaultKey)
    requires
        edge_records(*old(edges)).dom().contains(k),
    ensures
        edge_slots(*final(edges)) == edge_slots(*old(edges)),
        edge_records(*final(edges)) == edge_records(*old(edges)).insert(
            k,
            (DCELEdge { incident_face: Some(face), ..edge_records(*old(edges))[k] }),
        ),
{
    let mut rec = edge_at(edges, k);
    rec.incident_face = Some(face);
    edge_set(edges, k, rec);
}

/// Makes the two half-edges of a cut and ties them into the boundary: the
/// first runs from `o_second` and is followed by `e1_next`, the second runs
/// from `o_first` and is followed by `e2_next`. No face is given yet.
fn install_pair(
    edges: &mut EdgeArena,
    Ghost(m): Ghost<Mesh>,
    Ghost(c): Ghost<Cut>,
    e1_next: DefaultKey,
    e1_prev: DefaultKey,
    e2_next: DefaultKey,
    e2_prev: DefaultKey,
    o_first: DefaultKey,
    o_second: DefaultKey,
) -> (r: (DefaultKey, DefaultKey))
    requires
        edge_records(*old(edges)) == m.edges,
        edge_slots(*old(edges)) + 2 <= SLOT_LIMIT,
        m.wf(),
        m.internal(c.f),
        ring(m.edges, c.f, c.ring),
        forall|k: DefaultKey| c.ring.contains(k) <==> m.cycles[c.f].contains(k),
        2 <= c.at <= c.ring.len() - 2,
        e1_next == c.ring[0],
        e1_prev == c.ring[c.at - 1],
        e2_next == c.ring[c.at],
        e2_prev == c.ring[c.ring.len() - 1],
        Some(o_first) == m.edges[c.ring[0]].origin,
        Some(o_second) == m.edges[c.ring[c.at]].origin,
    ensures
        cut_placed(m, (Cut { e1: r.0, e2: r.1, ..c })),
        stitched(m, (Cut { e1: r.0, e2: r.1, ..c }), edge_records(*final(edges))),
        edge_slots(*final(edges)) <= edge_slots(*old(edges)) + 2,
{
    let e1 = edge_insert(
        edges,
        EdgeLinks { origin: Some(o_second), next: Some(e1_next), prev: Some(e1_prev), twin: None, incident_face: None },
    );
    let e2 = edge_insert(
        edges,
        EdgeLinks { origin: Some(o_first), next: Some(e2_next), prev: Some(e2_prev), twin: None, incident_face: None },
    );
    let ghost cc = Cut { e1, e2, ..c };
    let ghost n = c.ring.len() as int;
    proof {
        lemma_cut_edge_at(m, cc, 0);
        lemma_cut_edge_at(m, cc, c.at - 1);
        lemma_cut_edge_at(m, cc, c.at);
        lemma_cut_edge_at(m, cc, n - 1);
        assert(apart(m.edges, c.ring, 0, c.at - 1));
        assert(apart(m.edges, c.ring, 0, c.at));
        assert(apart(m.edges, c.ring, 0, n - 1));
        assert(apart(m.edges, c.ring, c.at - 1, c.at));
        assert(apart(m.edges, c.ring, c.at - 1, n - 1));
        assert(apart(m.edges, c.ring, c.at, n - 1));
    }
    with_twin(edges, e1, e2);
    with_twin(edges, e2, e1);
    with_prev(edges, e1_next, e1);
    with_prev(edges, e2_next, e2);
    with_next(edges, e1_prev, e1);
    with_next(edges, e2_prev, e2);
    proof {
        let fin = edge_records(*edges);
        assert(fin.dom() =~= cut_keys(m, cc));
        assert forall|k: DefaultKey| cut_keys(m, cc).contains(k) implies #[trigger] fin[k] == stitched_edge(m, cc, k) by {
            if k == e1 || k == e2 {
            } else if c.ring.contains(k) {
                let t = c.ring.index_of(k);
                assert(0 <= t < n && c.ring[t] == k);
                lemma_cut_edge_at(m, cc, t);
            } else {
                assert(m.edge_ok(k));
            }
        }
    }
    (e1, e2)
}

/// Gives the half-edges of the boundary that is cut their faces: `f1` to
/// those before the second end of the diagonal, `f2` to the rest.
fn relabel(
    edges: &mut EdgeArena,
    Ghost(m): Ghost<Mesh>,
    Ghost(c): Ghost<Cut>,
    cr: &Vec<DefaultKey>,
    jj: usize,
    f1: DefaultKey,
    f2: DefaultKey,
)
    requires
        cut_placed(m, c),
        cr@ == c.ring,
        jj == c.at,
        f1 == c.fa,
        f2 == c.fb,
        relabeled(m, c, 0, edge_records(*old(edges))),
    ensures
        edge_records(*final(edges)) == cut_mesh(m, c).edges,
        edge_slots(*final(edges)) == edge_slots(*old(edges)),
{
    let n = cr.len();
    let mut t: usize = 0;
    while t < n
        invariant
            n == cr@.len(),
            cr@ == c.ring,
            jj == c.at,
            f1 == c.fa,
            f2 == c.fb,
            t <= n,
            cut_placed(m, c),
            relabeled(m, c, t as int, edge_records(*edges)),
            edge_slots(*edges) == edge_slots(*old(edges)),
        decreases n - t,
    {
        let ghost before = edge_records(*edges);
        proof {
            lemma_cut_edge_at(m, c, t as int);
            assert(cut_keys(m, c).contains(c.ring[t as int]));
        }
        with_face(edges, cr[t], if t < jj { f1 } else { f2 });
        proof {
            let after = edge_records(*edges);
            assert(after.dom() =~= cut_keys(m, c));
            assert forall|k: DefaultKey| cut_keys(m, c).contains(k) implies #[trigger] after[k] == relabeled_edge(
                m,
                c,
                t + 1,
                k,
            ) by {
                assert(before[k] == relabeled_edge(m, c, t as int, k));
                if c.ring.contains(k) {
                    let u = c.ring.index_of(k);
                    assert(0 <= u < n && c.ring[u] == k);
                }
            }
        }
        t += 1;
    }
    proof {
        lemma_relabeled_all(m, c, edge_records(*edges));
    }
}

/// The largest number of vertices of a polygon that gets an edge list: its
/// triangulation then fits the slot maps.
pub const POLYGON_LIMIT: usize = 0x3fff_fff0;

impl DCEL {
    /// The table from points to vertices names every vertex once, each under
    /// its point.
    pub closed spec fn indexed(&self) -> bool {
        &&& forall|i: int| 0 <= i < self.point_hash@.len() ==> #[trigger] self.indexed_at(i)
        &&& forall|k: DefaultKey| self@.points.dom().contains(k) ==> #[trigger] self.index_has(k)
        &&& forall|i: int, j: int|
            0 <= i < j < self.point_hash@.len() ==> (#[trigger] self.point_hash@[i]).1 != (
            #[trigger] self.point_hash@[j]).1
    }

    spec fn indexed_at(&self, i: int) -> bool {
        &&& self@.points.dom().contains(self.point_hash@[i].1)
        &&& self@.points[self.point_hash@[i].1].point2d == self.point_hash@[i].0
    }

    spec fn index_has(&self, k: DefaultKey) -> bool {
        exists|i: int| 0 <= i < self.point_hash@.len() && (#[trigger] self.point_hash@[i]).1 == k
    }


    /// The faces inside the polygon are counted, and so are the half-edges
    /// on their boundaries: a polygon of `n` vertices that has been cut `k`
    /// times has `k + 1` faces inside it, bounded by `n + 2 k` half-edges,
    /// and `k` diagonals.
    pub closed spec fn counted(&self) -> bool {
        &&& 3 <= self.vertex_count <= POLYGON_LIMIT
        &&& self.interior@.no_duplicates()
        &&& forall|f: DefaultKey|
            #![trigger self@.internal(f)]
            #![trigger self.interior@.contains(f)]
            self@.internal(f) == self.interior@.contains(f)
        &&& self.interior@.len() == self.splits + 1
        &&& total_len(self.cycles@, self.interior@) == self.vertex_count + 2 * self.splits
        &&& edge_slots(self.edges) <= 2 * self.vertex_count + 2 * self.splits + 1
        &&& face_slots(self.faces) <= 2 * self.splits + 3
        &&& self.chords@.len() == self.splits
        &&& chords_pair(self@, self.chords@)
    }

    /// Whether the edge list is sound: its records fit together, its table
    /// of points is complete, and its faces are counted.
    pub open spec fn wf(&self) -> bool {
        &&& self@.wf()
        &&& self.indexed()
        &&& self.counted()
    }

    /// The vertices with their points, in the order of the polygon.
    pub closed spec fn table(&self) -> Seq<(Point, DefaultKey)> {
        self.point_hash@
    }

    /// The number of vertices of the polygon.
    pub closed spec fn size(&self) -> nat {
        self.vertex_count as nat
    }

    /// The number of faces inside the polygon.
    pub closed spec fn face_count(&self) -> nat {
        self.interior@.len()
    }

    /// A polygon of `n` vertices is cut at most `n - 3` times.
    proof fn lemma_splits_bounded(&self)
        requires
            self.wf(),
        ensures
            self.splits + 3 <= self.vertex_count,
    {
        assert forall|i: int| 0 <= i < self.interior@.len() implies self.cycles@[#[trigger] self.interior@[i]].len()
            >= 3 by {
            let f = self.interior@[i];
            assert(self.interior@.contains(f));
            assert(self@.internal(f));
            assert(self@.face_ok(f));
        }
        lemma_total_lower(self.cycles@, self.interior@);
    }

    /// An edge list has a face inside the polygon.
    pub proof fn lemma_some_face(&self)
        requires
            self.wf(),
        ensures
            self.face_count() >= 1,
    {
    }

    /// Different faces inside the polygon are no more than the edge list
    /// counts, and as many only if they are all of them.
    pub proof fn lemma_faces_counted(&self, s: Seq<DefaultKey>)
        requires
            self.wf(),
            s.no_duplicates(),
            forall|i: int| 0 <= i < s.len() ==> self@.internal(#[trigger] s[i]),
        ensures
            s.len() <= self.face_count(),
            s.len() == self.face_count() ==> forall|f: DefaultKey| self@.internal(f) ==> s.contains(f),
    {
        assert forall|i: int| 0 <= i < s.len() implies self.interior@.contains(#[trigger] s[i]) by {
            assert(self@.internal(s[i]));
        }
        lemma_no_longer(s, self.interior@);
        if s.len() == self.face_count() {
            assert forall|f: DefaultKey| self@.internal(f) implies s.contains(f) by {
                assert(self.interior@.contains(f));
            }
        }
    }

    /// A polygon of `n` vertices has at most `n - 2` faces inside it, and
    /// exactly `n - 2` where they are all triangles.
    pub proof fn lemma_face_count(&self)
        requires
            self.wf(),
        ensures
            1 <= self.face_count() <= self.size() - 2,
            (forall|f: DefaultKey| self@.internal(f) ==> (#[trigger] self@.cycles[f]).len() == 3) ==> self.face_count()
                == self.size() - 2,
    {
        self.lemma_splits_bounded();
        if forall|f: DefaultKey| self@.internal(f) ==> (#[trigger] self@.cycles[f]).len() == 3 {
            assert forall|i: int| 0 <= i < self.interior@.len() implies self.cycles@[#[trigger] self.interior@[i]].len()
                == 3 by {
                assert(self.interior@.contains(self.interior@[i]));
                assert(self@.internal(self.interior@[i]));
            }
            lemma_total_threes(self.cycles@, self.interior@);
        }
    }

    /// Half-edges that are one half of every diagonal are one fewer than the
    /// faces inside the polygon.
    pub proof fn lemma_diagonal_count(&self, halves: Seq<DefaultKey>)
        requires
            self.wf(),
            chords_pair(self@, halves),
        ensures
            halves.len() + 1 == self.face_count(),
    {
        lemma_halves_no_more(self@, halves, self.chords@);
        lemma_halves_no_more(self@, self.chords@, halves);
    }

    /// Different faces that are all the faces inside the polygon are as
    /// many as the edge list counts.
    pub proof fn lemma_faces_covered(&self, s: Seq<DefaultKey>)
        requires
            self.wf(),
            s.no_duplicates(),
            forall|f: DefaultKey| self@.internal(f) ==> s.contains(f),
        ensures
            self.face_count() <= s.len(),
    {
        assert forall|i: int| 0 <= i < self.interior@.len() implies s.contains(#[trigger] self.interior@[i]) by {
            assert(self.interior@.contains(self.interior@[i]));
            assert(self@.internal(self.interior@[i]));
        }
        lemma_no_longer(self.interior@, s);
    }

    fn get_dcelpoint_key(&self, p: &Point) -> (r: Option<DefaultKey>)
        requires
            self.wf(),
        ensures
            r matches Some(k) ==> self@.points.dom().contains(k) && self@.points[k].point2d == *p,
            r is None ==> !self@.has_point(*p),
    {
        let mut i: usize = 0;
        while i < self.point_hash.len()
            invariant
                self.wf(),
                i <= self.point_hash@.len(),
                forall|j: int| 0 <= j < i ==> (#[trigger] self.point_hash@[j]).0 != *p,
            decreases self.point_hash@.len() - i,
        {
            if self.point_hash[i].0 == *p {
                assert(self.indexed_at(i as int));
                return Some(self.point_hash[i].1);
            }
            i += 1;
        }
        proof {
            if self@.has_point(*p) {
                let k = choose|k: DefaultKey| self@.points.dom().contains(k) && self@.points[k].point2d == *p;
                assert(self.index_has(k));
                let j = choose|j: int| 0 <= j < self.point_hash@.len() && (#[trigger] self.point_hash@[j]).1 == k;
                assert(self.indexed_at(j));
            }
        }
        None
    }

    fn get_next_edge(&self, e: DefaultKey) -> (r: DefaultKey)
        requires
            self@.wf(),
            self@.edges.dom().contains(e),
        ensures
            r == self@.next(e),
            self@.edges.dom().contains(r),
    {
        proof {
            assert(self@.edge_ok(e));
        }
        match edge_at(&self.edges, e).next {
            Some(r) => r,
            None => vstd::pervasive::unreached(),
        }
    }

    pub(crate) fn get_twin_edge(&self, e: DefaultKey) -> (r: DefaultKey)
        requires
            self@.wf(),
            self@.edges.dom().contains(e),
        ensures
            r == self@.twin(e),
            self@.edges.dom().contains(r),
    {
        proof {
            assert(self@.edge_ok(e));
        }
        match edge_at(&self.edges, e).twin {
            Some(r) => r,
            None => vstd::pervasive::unreached(),
        }
    }

    fn get_prev_edge(&self, e: DefaultKey) -> (r: DefaultKey)
        requires
            self@.wf(),
            self@.edges.dom().contains(e),
        ensures
            r == self@.prev(e),
            self@.edges.dom().contains(r),
    {
        proof {
            assert(self@.edge_ok(e));
        }
        match edge_at(&self.edges, e).prev {
            Some(r) => r,
            None => vstd::pervasive::unreached(),
        }
    }

    fn get_origin_point(&self, e: DefaultKey) -> (r: DefaultKey)
        requires
            self@.wf(),
            self@.edges.dom().contains(e),
        ensures
            r == self@.origin(e),
            self@.points.dom().contains(r),
    {
        proof {
            assert(self@.edge_ok(e));
        }
        match edge_at(&self.edges, e).origin {
            Some(r) => r,
            None => vstd::pervasive::unreached(),
        }
    }

    pub(crate) fn get_incident_face(&self, e: DefaultKey) -> (r: DefaultKey)
        requires
            self@.wf(),
            self@.edges.dom().contains(e),
        ensures
            r == self@.face(e),
            self@.faces.dom().contains(r),
    {
        proof {
            assert(self@.edge_ok(e));
        }
        match edge_at(&self.edges, e).incident_face {
            Some(r) => r,
            None => vstd::pervasive::unreached(),
        }
    }

    /// The half-edges around a face inside the polygon, from the one that
    /// the face names, each followed by its `next`.
    pub(crate) fn face_cycle(&self, f: DefaultKey) -> (r: Vec<DefaultKey>)
        requires
            self@.wf(),
            self@.internal(f),
        ensures
            r@ == self@.cycles[f],
    {
        let ghost c = self@.cycles[f];
        proof {
            assert(self@.face_ok(f));
            assert(ring_at(self@.edges, f, c, 0));
        }
        let start = match face_at(&self.faces, f).outer {
            Some(e) => e,
            None => vstd::pervasive::unreached(),
        };
        let mut r: Vec<DefaultKey> = Vec::new();
        let mut curr = start;
        loop
            invariant_except_break
                self@.wf(),
                c == self@.cycles[f],
                ring(self@.edges, f, c),
                start == c[0],
                r@.len() < c.len(),
                r@ == c.take(r@.len() as int),
                curr == c[r@.len() as int],
            ensures
                r@ == c,
            decreases c.len() - r@.len(),
        {
            let ghost t = r@.len() as int;
            proof {
                assert(ring_at(self@.edges, f, c, t));
            }
            r.push(curr);
            curr = self.get_next_edge(curr);
            proof {
                assert(r@ =~= c.take(t + 1));
                if t + 1 < c.len() {
                    assert(apart(self@.edges, c, t + 1, 0));
                } else {
                    assert(c.take(t + 1) =~= c);
                }
            }
            if same_key(curr, start) {
                break;
            }
        }
        r
    }

    pub(crate) fn get_pointkey_list(&self, f: DefaultKey) -> (r: Vec<DefaultKey>)
        requires
            self@.wf(),
            self@.internal(f),
        ensures
            r@ == self@.corners(f),
    {
        let cycle = self.face_cycle(f);
        let mut r: Vec<DefaultKey> = Vec::new();
        let mut t: usize = 0;
        proof {
            assert(self@.face_ok(f));
        }
        while t < cycle.len()
            invariant
                self@.wf(),
                cycle@ == self@.cycles[f],
                ring(self@.edges, f, cycle@),
                t <= cycle@.len(),
                r@.len() == t,
                forall|u: int| 0 <= u < t ==> #[trigger] r@[u] == self@.origin(cycle@[u]),
            decreases cycle@.len() - t,
        {
            proof {
                assert(ring_at(self@.edges, f, cycle@, t as int));
            }
            r.push(self.get_origin_point(cycle[t]));
            t += 1;
        }
        proof {
            assert(r@ =~= self@.corners(f));
        }
        r
    }

    /// The points around a face inside the polygon, from the origin of the
    /// half-edge that the face names.
    pub fn get_point_list(&self, face: &DCELFace) -> (r: Vec<Point>)
        requires
            self.wf(),
            self@.internal(face.parent_key),
        ensures
            r@ == self@.corner_points(face.parent_key),
            r@.len() >= 3,
            r@.no_duplicates(),
    {
        let f = face.parent_key;
        let keys = self.get_pointkey_list(f);
        let mut r: Vec<Point> = Vec::new();
        let mut t: usize = 0;
        proof {
            assert(self@.face_ok(f));
        }
        while t < keys.len()
            invariant
                self@.wf(),
                keys@ == self@.corners(f),
                ring(self@.edges, f, self@.cycles[f]),
                t <= keys@.len(),
                r@.len() == t,
                forall|u: int| 0 <= u < t ==> #[trigger] r@[u] == self@.points[keys@[u]].point2d,
            decreases keys@.len() - t,
        {
            proof {
                assert(ring_at(self@.edges, f, self@.cycles[f], t as int));
                assert(self@.edge_ok(self@.cycles[f][t as int]));
            }
            r.push(point_at(&self.points, keys[t]).point2d);
            t += 1;
        }
        proof {
            assert(r@ =~= self@.corner_points(f));
            self@.lemma_corners_differ(f);
        }
        r
    }

    /// The first place of `k` in `keys`.
    pub(crate) fn position_of(keys: &Vec<DefaultKey>, k: DefaultKey) -> (r: Option<usize>)
        ensures
            r matches Some(i) ==> i < keys@.len() && keys@[i as int] == k,
            r is None ==> !keys@.contains(k),
    {
        let mut i: usize = 0;
        while i < keys.len()
            invariant
                i <= keys@.len(),
                forall|j: int| 0 <= j < i ==> keys@[j] != k,
            decreases keys@.len() - i,
        {
            if same_key(keys[i], k) {
                return Some(i);
            }
            i += 1;
        }
        None
    }

    /// A face inside the polygon that has both vertices on its boundary, if
    /// there is one.
    pub fn get_common_face(&self, p1: DefaultKey, p2: DefaultKey) -> (r: Option<DefaultKey>)
        requires
            self.wf(),
            p1 != p2,
        ensures
            r matches Some(f) ==> self@.internal(f) && self@.on_boundary(f, p1) && self@.on_boundary(f, p2),
            r is None ==> !self@.share_face(p1, p2),
    {
        let keys = face_keys(&self.faces);
        let mut i: usize = 0;
        while i < keys.len()
            invariant
                self.wf(),
                i <= keys@.len(),
                forall|k: DefaultKey| keys@.contains(k) <==> self@.faces.dom().contains(k),
                forall|j: int|
                    0 <= j < i ==> !(self@.internal(#[trigger] keys@[j]) && self@.on_boundary(keys@[j], p1)
                        && self@.on_boundary(keys@[j], p2)),
            decreases keys@.len() - i,
        {
            let facekey = keys[i];
            proof {
                assert(keys@.contains(keys@[i as int]));
                assert(self@.face_ok(facekey));
            }
            if face_at(&self.faces, facekey).outer.is_some() {
                let corners = self.get_pointkey_list(facekey);
                let at1 = Self::position_of(&corners, p1);
                let at2 = Self::position_of(&corners, p2);
                proof {
                    self@.lemma_on_boundary(facekey, p1);
                    self@.lemma_on_boundary(facekey, p2);
                }
                if at1.is_some() && at2.is_some() {
                    return Some(facekey);
                }
            }
            i += 1;
        }
        proof {
            if self@.share_face(p1, p2) {
                let f = choose|f: DefaultKey| #[trigger]
                    self@.internal(f) && self@.on_boundary(f, p1) && self@.on_boundary(f, p2);
                assert(keys@.contains(f));
                let j = choose|j: int| 0 <= j < keys@.len() && keys@[j] == f;
                assert(!(self@.internal(keys@[j]) && self@.on_boundary(keys@[j], p1) && self@.on_boundary(
                    keys@[j],
                    p2,
                )));
            }
        }
        None
    }

    /// The unbounded face.
    pub fn get_external_face(&self) -> (r: &DCELFace)
        requires
            self.wf(),
        ensures
            r.parent_key == self@.outside,
            *r == self@.faces[self@.outside],
            r.inner is Some,
            r.outer is None,
    {
        let keys = face_keys(&self.faces);
        let mut i: usize = 0;
        while i < keys.len()
            invariant
                self.wf(),
                i <= keys@.len(),
                forall|k: DefaultKey| keys@.contains(k) <==> self@.faces.dom().contains(k),
                forall|j: int| 0 <= j < i ==> #[trigger] keys@[j] != self@.outside,
            decreases keys@.len() - i,
        {
            proof {
                assert(keys@.contains(keys@[i as int]));
                assert(self@.face_ok(keys@[i as int]));
            }
            let f = face_at(&self.faces, keys[i]);
            if f.outer.is_none() {
                return f;
            }
            i += 1;
        }
        proof {
            assert(keys@.contains(self@.outside));
            let j = choose|j: int| 0 <= j < keys@.len() && keys@[j] == self@.outside;
            assert(keys@[j] != self@.outside);
        }
        vstd::pervasive::unreached()
    }

    /// The faces inside the polygon, each once.
    pub fn get_internal_faces(&self) -> (r: Vec<&DCELFace>)
        requires
            self.wf(),
        ensures
            r@.len() == self.face_count(),
            forall|i: int| 0 <= i < r@.len() ==> self@.internal((#[trigger] r@[i]).parent_key) && *r@[i] == self@.faces[r@[i].parent_key],
            forall|i: int, j: int| 0 <= i < j < r@.len() ==> (#[trigger] r@[i]).parent_key != (#[trigger] r@[j]).parent_key,
            forall|f: DefaultKey| self@.internal(f) ==> exists|i: int| 0 <= i < r@.len() && (#[trigger] r@[i]).parent_key == f,
    {
        let keys = face_keys(&self.faces);
        let mut r: Vec<&DCELFace> = Vec::new();
        let ghost mut picked: Seq<DefaultKey> = Seq::empty();
        let mut i: usize = 0;
        while i < keys.len()
            invariant
                self.wf(),
                i <= keys@.len(),
                keys@.no_duplicates(),
                forall|k: DefaultKey| keys@.contains(k) <==> self@.faces.dom().contains(k),
                picked.len() == r@.len(),
                picked.no_duplicates(),
                forall|a: int| 0 <= a < r@.len() ==> (#[trigger] r@[a]).parent_key == picked[a],
                forall|a: int| 0 <= a < r@.len() ==> self@.internal(#[trigger] picked[a]) && *r@[a] == self@.faces[picked[a]],
                forall|a: int| 0 <= a < picked.len() ==> exists|j: int| 0 <= j < i && keys@[j] == #[trigger] picked[a],
                forall|j: int| 0 <= j < i && self@.internal(#[trigger] keys@[j]) ==> picked.contains(keys@[j]),
            decreases keys@.len() - i,
        {
            proof {
                assert(keys@.contains(keys@[i as int]));
                assert(self@.face_ok(keys@[i as int]));
            }
            let f = face_at(&self.faces, keys[i]);
            if f.inner.is_none() {
                proof {
                    let k = keys@[i as int];
                    if picked.contains(k) {
                        let a = choose|a: int| 0 <= a < picked.len() && picked[a] == k;
                        let j = choose|j: int| 0 <= j < i && keys@[j] == picked[a];
                        assert(keys@[j] == keys@[i as int]);
                    }
                    lemma_push_fresh(picked, k);
                    let old_picked = picked;
                    picked = picked.push(k);
                    assert forall|j: int| 0 <= j < i + 1 && self@.internal(#[trigger] keys@[j]) implies picked.contains(
                        keys@[j],
                    ) by {
                        if j < i {
                            assert(old_picked.contains(keys@[j]));
                        }
                    }
                    assert forall|a: int| 0 <= a < picked.len() implies exists|j: int|
                        0 <= j < i + 1 && keys@[j] == #[trigger] picked[a] by {
                        if a < old_picked.len() {
                            assert(picked[a] == old_picked[a]);
                            let j = choose|j: int| 0 <= j < i && keys@[j] == old_picked[a];
                            assert(keys@[j] == picked[a]);
                        } else {
                            assert(keys@[i as int] == picked[a]);
                        }
                    }
                }
                r.push(f);
            }
            i += 1;
        }
        proof {
            assert forall|f: DefaultKey| picked.contains(f) <==> self.interior@.contains(f) by {
                if picked.contains(f) {
                    let a = choose|a: int| 0 <= a < picked.len() && picked[a] == f;
                    assert(self@.internal(picked[a]));
                }
                if self.interior@.contains(f) {
                    assert(self@.internal(f));
                    assert(keys@.contains(f));
                    let j = choose|j: int| 0 <= j < keys@.len() && keys@[j] == f;
                    assert(self@.internal(keys@[j]));
                }
            }
            assert(picked.to_set() =~= self.interior@.to_set());
            picked.unique_seq_to_set();
            self.interior@.unique_seq_to_set();
            assert forall|f: DefaultKey| self@.internal(f) implies exists|i: int|
                0 <= i < r@.len() && (#[trigger] r@[i]).parent_key == f by {
                assert(self.interior@.contains(f));
                assert(picked.contains(f));
                let a = choose|a: int| 0 <= a < picked.len() && picked[a] == f;
                assert(r@[a].parent_key == f);
            }
        }
        r
    }

    /// Takes the records of a cut that has been made in the slot maps into
    /// the account of the edge list: the boundaries of the two faces, and
    /// the count of faces and half-edges.
    fn settle(&mut self, Ghost(d0): Ghost<DCEL>, Ghost(c): Ghost<Cut>)
        requires
            d0.wf(),
            cut_ready(d0@, c),
            edge_records(old(self).edges) == cut_mesh(d0@, c).edges,
            face_records(old(self).faces) == cut_mesh(d0@, c).faces,
            old(self).points == d0.points,
            old(self).point_hash == d0.point_hash,
            old(self).outside == d0.outside,
            old(self).vertex_count == d0.vertex_count,
            old(self).splits == d0.splits,
            old(self).interior == d0.interior,
            old(self).chords == d0.chords,
            edge_slots(old(self).edges) <= edge_slots(d0.edges) + 2,
            face_slots(old(self).faces) <= face_slots(d0.faces) + 2,
        ensures
            final(self).wf(),
            final(self)@ == cut_mesh(d0@, c),
            final(self).size() == d0.size(),
            final(self).table() == d0.table(),
            final(self).face_count() == d0.face_count() + 1,
    {
        proof {
            d0.lemma_splits_bounded();
            lemma_cut_wf(d0@, c);
            lemma_count_cut(d0@, c, d0.interior@);
        }
        self.cycles = Ghost(cut_mesh(d0@, c).cycles);
        self.interior = Ghost(d0.interior@.remove(d0.interior@.index_of(c.f)).push(c.fa).push(c.fb));
        self.chords = Ghost(d0.chords@.push(c.e1));
        self.splits = self.splits + 1;
        proof {
            lemma_chords_cut(d0@, c, d0.chords@);
            assert(self@.points == d0@.points);
            assert(self@ == cut_mesh(d0@, c));
            assert forall|i: int| 0 <= i < self.point_hash@.len() implies #[trigger] self.indexed_at(i) by {
                assert(d0.indexed_at(i));
            }
            assert forall|k: DefaultKey| self@.points.dom().contains(k) implies #[trigger] self.index_has(k) by {
                assert(d0.index_has(k));
            }
        }
    }

    /// Cuts a triangle off a face of four or more half-edges: the triangle
    /// is bounded by `e_int`, the half-edge before it and a new half-edge.
    /// The triangle becomes a new face; the rest keeps the face that is cut.
    fn split_with_triangle(&mut self, e_int: DefaultKey) -> (c: Ghost<Cut>)
        requires
            old(self).wf(),
            old(self)@.edges.dom().contains(e_int),
            old(self)@.internal(old(self)@.face(e_int)),
            old(self)@.cycles[old(self)@.face(e_int)].len() >= 4,
        ensures
            final(self).wf(),
            cut_ready(old(self)@, c@),
            final(self)@ == cut_mesh(old(self)@, c@),
            c@.at == 2,
            c@.ring[1] == e_int,
            c@.f == old(self)@.face(e_int),
            final(self).size() == old(self).size(),
            final(self).table() == old(self).table(),
            final(self).face_count() == old(self).face_count() + 1,
    {
        let ghost d0 = *self;
        let ghost m = self@;
        let e_prev = e_int;
        let e_next = self.get_prev_edge(e_int);
        let e_twin_next = self.get_next_edge(e_int);
        let e_twin_prev = self.get_prev_edge(e_next);
        let e_orig = self.get_origin_point(e_twin_next);
        let e_twin_orig = self.get_origin_point(e_next);
        let ghost f = m.face(e_int);
        let ghost cyc = m.cycles[f];
        let ghost n = cyc.len() as int;
        let ghost t = cyc.index_of(e_int);
        let ghost t0 = if t > 0 { t - 1 } else { n - 1 };
        let ghost rg = rotate(cyc, t0);
        let ghost c0 = Cut { f, ring: rg, at: 2, e1: e_int, e2: e_int, fa: f, fb: f };
        proof {
            assert(m.edge_ok(e_int));
            assert(m.face_ok(f));
            assert(cyc.contains(e_int));
            assert(0 <= t < n && cyc[t] == e_int);
            lemma_rotate_ring(m.edges, f, cyc, t0);
            assert(ring_at(m.edges, f, cyc, t0));
            assert(m.edge_ok(cyc[t0]));
            assert(rg[0] == cyc[t0]);
            assert(ring_at(m.edges, f, rg, 0));
            assert(ring_at(m.edges, f, rg, 1));
            assert(ring_at(m.edges, f, rg, n - 1));
            assert(m.edge_ok(rg[n - 1]));
            assert(m.edge_ok(rg[0]));
            assert(rg[1] == e_int);
            assert(ring_at(m.edges, f, rg, 2));
            assert(rg[2] == e_twin_next);
            assert(m.edge_ok(rg[2]));
            self.lemma_splits_bounded();
        }
        let pair = install_pair(
            &mut self.edges,
            Ghost(m),
            Ghost(c0),
            e_next,
            e_prev,
            e_twin_next,
            e_twin_prev,
            e_twin_orig,
            e_orig,
        );
        let e_new = pair.0;
        let e_new_twin = pair.1;
        let fnew = face_insert(&mut self.faces, None, Some(e_new));
        let ghost c = Cut { f, ring: rg, at: 2, e1: e_new, e2: e_new_twin, fa: fnew, fb: f };
        proof {
            lemma_cut_edge_at(m, c, 0);
            lemma_cut_edge_at(m, c, 1);
            lemma_cut_edge_at(m, c, 2);
            assert(apart(m.edges, rg, 0, 1));
            assert(stitched_edge(m, c, e_twin_next) == stitched_edge(m, (Cut { e1: e_new, e2: e_new_twin, ..c0 }), e_twin_next));
        }
        with_face(&mut self.edges, e_new, fnew);
        with_face(&mut self.edges, e_next, fnew);
        with_face(&mut self.edges, e_prev, fnew);
        let other_face = match edge_at(&self.edges, e_twin_next).incident_face {
            Some(g) => g,
            None => vstd::pervasive::unreached(),
        };
        let mut rec = *face_at(&self.faces, other_face);
        rec.outer = Some(e_new_twin);
        face_set(&mut self.faces, other_face, rec);
        with_face(&mut self.edges, e_new_twin, other_face);
        proof {
            let fin = edge_records(self.edges);
            let want = cut_mesh(m, c).edges;
            let cc = Cut { e1: e_new, e2: e_new_twin, ..c0 };
            assert(fin.dom() =~= want.dom());
            assert forall|k: DefaultKey| fin.dom().contains(k) implies fin[k] == want[k] by {
                assert(cut_keys(m, cc).contains(k));
                assert(cut_edge(m, cc, k).next == cut_edge(m, c, k).next);
                if k == e_new || k == e_new_twin {
                } else if rg.contains(k) {
                    let u = rg.index_of(k);
                    assert(0 <= u < n && rg[u] == k);
                    lemma_cut_edge_at(m, c, u);
                    lemma_cut_edge_at(m, cc, u);
                } else {
                    assert(m.edge_ok(k));
                }
            }
            assert(fin =~= want);
            assert(face_records(self.faces) =~= cut_mesh(m, c).faces);
        }
        self.settle(Ghost(d0), Ghost(c));
        Ghost(c)
    }

    /// The cycle `cyc` started at place `i`.
    fn rotated(cyc: &Vec<DefaultKey>, i: usize) -> (r: Vec<DefaultKey>)
        requires
            i < cyc@.len(),
        ensures
            r@ == rotate(cyc@, i as int),
    {
        let n = cyc.len();
        let mut r: Vec<DefaultKey> = Vec::new();
        let mut t: usize = i;
        while t < n
            invariant
                n == cyc@.len(),
                i <= t <= n,
                r@ == cyc@.subrange(i as int, t as int),
            decreases n - t,
        {
            r.push(cyc[t]);
            proof {
                assert(r@ =~= cyc@.subrange(i as int, t + 1));
            }
            t += 1;
        }
        let mut u: usize = 0;
        while u < i
            invariant
                n == cyc@.len(),
                i < n,
                u <= i,
                r@ == cyc@.subrange(i as int, n as int) + cyc@.subrange(0, u as int),
            decreases i - u,
        {
            r.push(cyc[u]);
            proof {
                assert(r@ =~= cyc@.subrange(i as int, n as int) + cyc@.subrange(0, u + 1));
            }
            u += 1;
        }
        r
    }

    /// Puts a diagonal between the vertices `p1` and `p2`, where a face
    /// inside the polygon has both on its boundary: the face is cut in two,
    /// unless the two are neighbours on it. Tells whether there was such a
    /// face.
    pub fn split_face(&mut self, p1: DefaultKey, p2: DefaultKey) -> (r: bool)
        requires
            old(self).wf(),
            p1 != p2,
        ensures
            final(self).wf(),
            r == old(self)@.share_face(p1, p2),
            diagonal_step(old(self)@, p1, p2, final(self)@),
            final(self).size() == old(self).size(),
            final(self).table() == old(self).table(),
            old(self).face_count() <= final(self).face_count() <= old(self).face_count() + 1,
    {
        let ghost d0 = *self;
        let ghost m = self@;
        let f = match self.get_common_face(p1, p2) {
            None => {
                return false;
            },
            Some(f) => f,
        };
        let cyc = self.face_cycle(f);
        let corners = self.get_pointkey_list(f);
        proof {
            m.lemma_on_boundary(f, p1);
            m.lemma_on_boundary(f, p2);
            assert(m.face_ok(f));
        }
        let i = match Self::position_of(&corners, p1) {
            Some(i) => i,
            None => vstd::pervasive::unreached(),
        };
        let j = match Self::position_of(&corners, p2) {
            Some(j) => j,
            None => vstd::pervasive::unreached(),
        };
        let n = cyc.len();
        let jj = if j > i { j - i } else { n - i + j };
        let cr = Self::rotated(&cyc, i);
        let ghost rg = cr@;
        proof {
            lemma_rotate_ring(m.edges, f, cyc@, i as int);
            assert(rg[0] == cyc@[i as int]);
            assert(rg[jj as int] == cyc@[j as int]);
            assert(ring_at(m.edges, f, rg, 0));
            assert(ring_at(m.edges, f, rg, jj as int));
            assert(ring_at(m.edges, f, cyc@, i as int));
            assert(ring_at(m.edges, f, cyc@, j as int));
            assert(m.origin(rg[0]) == p1);
            assert(m.origin(rg[jj as int]) == p2);
            assert(m.edge_ok(rg[0]));
            assert(m.edge_ok(rg[jj as int]));
        }
        if jj == 1 || jj == n - 1 {
            proof {
                if jj == 1 {
                    assert(m.next(cyc@[i as int]) == cyc@[j as int]);
                } else {
                    assert(m.next(cyc@[j as int]) == cyc@[i as int]);
                }
                assert(m.adjacent_on(f, p1, p2));
            }
            return true;
        }
        if jj == 2 {
            proof {
                assert(ring_at(m.edges, f, rg, 1));
                assert(m.edge_ok(rg[1]));
            }
            let Ghost(c) = self.split_with_triangle(cr[1]);
            proof {
                assert(ring_at(m.edges, f, c.ring, 0));
                assert(ring_at(m.edges, f, c.ring, 1));
                assert(m.edge_ok(c.ring[0]));
                assert(c.ring[0] == rg[0]);
                assert(c.ring[2] == rg[2]);
                assert(joins(m, c, p1, p2));
            }
            return true;
        }
        if jj == n - 2 {
            proof {
                assert(ring_at(m.edges, f, rg, jj + 1));
                assert(m.edge_ok(rg[jj + 1]));
            }
            let Ghost(c) = self.split_with_triangle(cr[jj + 1]);
            proof {
                assert(ring_at(m.edges, f, c.ring, 0));
                assert(ring_at(m.edges, f, c.ring, 1));
                assert(m.edge_ok(c.ring[0]));
                assert(c.ring[0] == rg[jj as int]);
                assert(c.ring[2] == rg[0]);
                assert(joins(m, c, p1, p2));
            }
            return true;
        }
        let ghost c0 = Cut { f, ring: rg, at: jj as int, e1: f, e2: f, fa: f, fb: f };
        proof {
            self.lemma_splits_bounded();
        }
        let pair = install_pair(
            &mut self.edges,
            Ghost(m),
            Ghost(c0),
            cr[0],
            cr[jj - 1],
            cr[jj],
            cr[n - 1],
            p1,
            p2,
        );
        let e1 = pair.0;
        let e2 = pair.1;
        let f1 = face_insert(&mut self.faces, None, Some(e1));
        let f2 = face_insert(&mut self.faces, None, Some(e2));
        let ghost c = Cut { f, ring: rg, at: jj as int, e1, e2, fa: f1, fb: f2 };
        let ghost cc = Cut { e1, e2, ..c0 };
        proof {
            assert forall|k: DefaultKey| stitched_edge(m, cc, k) == stitched_edge(m, c, k) by {}
        }
        with_face(&mut self.edges, e1, f1);
        with_face(&mut self.edges, e2, f2);
        proof {
            let now = edge_records(self.edges);
            assert(now.dom() =~= cut_keys(m, c));
            assert forall|k: DefaultKey| cut_keys(m, c).contains(k) implies #[trigger] now[k] == relabeled_edge(m, c, 0, k) by {
                assert(cut_keys(m, cc).contains(k));
                assert(stitched_edge(m, cc, k) == stitched_edge(m, c, k));
                if rg.contains(k) {
                    let u = rg.index_of(k);
                    assert(0 <= u < n && rg[u] == k);
                    lemma_cut_edge_at(m, c, u);
                }
            }
        }
        relabel(&mut self.edges, Ghost(m), Ghost(c), &cr, jj, f1, f2);
        face_remove(&mut self.faces, f);
        proof {
            assert(face_records(self.faces) =~= cut_mesh(m, c).faces);
            assert(joins(m, c, p1, p2));
        }
        self.settle(Ghost(d0), Ghost(c));
        proof {
            assert(cut_ready(m, c) && joins(m, c, p1, p2) && self@ == cut_mesh(m, c));
        }
        true
    }

    /// The vertices, each once, with their points, in the order of the
    /// polygon.
    pub fn vertices(&self) -> (r: &Vec<(Point, DefaultKey)>)
        requires
            self.wf(),
        ensures
            r@ == self.table(),
            forall|i: int|
                0 <= i < r@.len() ==> self@.points.dom().contains((#[trigger] r@[i]).1) && self@.points[r@[i].1].point2d
                    == r@[i].0,
            forall|k: DefaultKey|
                self@.points.dom().contains(k) ==> exists|i: int| 0 <= i < r@.len() && (#[trigger] r@[i]).1 == k,
            forall|i: int, j: int| 0 <= i < j < r@.len() ==> (#[trigger] r@[i]).1 != (#[trigger] r@[j]).1,
    {
        proof {
            assert forall|i: int| 0 <= i < self.point_hash@.len() implies self@.points.dom().contains(
                (#[trigger] self.point_hash@[i]).1,
            ) && self@.points[self.point_hash@[i].1].point2d == self.point_hash@[i].0 by {
                assert(self.indexed_at(i));
            }
            assert forall|k: DefaultKey| self@.points.dom().contains(k) implies exists|i: int|
                0 <= i < self.point_hash@.len() && (#[trigger] self.point_hash@[i]).1 == k by {
                assert(self.index_has(k));
            }
        }
        &self.point_hash
    }

    /// Whether the face record `f` is that of a face inside the polygon.
    pub(crate) fn is_internal(&self, f: DefaultKey) -> (r: bool)
        requires
            self.wf(),
            self@.faces.dom().contains(f),
        ensures
            r == self@.internal(f),
    {
        proof {
            assert(self@.face_ok(f));
        }
        face_at(&self.faces, f).outer.is_some()
    }

    /// Whether the edge list has a vertex at `p`.
    pub fn has_vertex(&self, p: &Point) -> (r: bool)
        requires
            self.wf(),
        ensures
            r == self@.has_point(*p),
    {
        let k = self.get_dcelpoint_key(p);
        proof {
            if let Some(key) = k {
                self@.lemma_vertex_unique(*p, key);
            }
        }
        k.is_some()
    }

    /// Puts the diagonals in, one after the other: each cuts the face that
    /// has both its ends on the boundary, as the diagonals before it have
    /// left that face. Every diagonal must run between two different
    /// vertices of the edge list.
    pub fn add_internal_diagonals(&mut self, diagonals: &Vec<DirEdge>)
        requires
            old(self).wf(),
            forall|i: int|
                0 <= i < diagonals@.len() ==> {
                    &&& old(self)@.has_point((#[trigger] diagonals@[i]).start)
                    &&& old(self)@.has_point(diagonals@[i].end)
                    &&& diagonals@[i].start != diagonals@[i].end
                },
        ensures
            final(self).wf(),
            final(self).size() == old(self).size(),
            final(self).table() == old(self).table(),
            final(self)@.points == old(self)@.points,
            diagonals_applied(old(self)@, diagonals@, diagonals@.len() as int, final(self)@),
            old(self).face_count() <= final(self).face_count() <= old(self).face_count() + diagonals@.len(),
    {
        let ghost m0 = self@;
        let mut int_diagonals: Vec<(DefaultKey, DefaultKey)> = Vec::new();
        let mut i: usize = 0;
        while i < diagonals.len()
            invariant
                self.wf(),
                *self == *old(self),
                m0 == self@,
                i <= diagonals@.len(),
                int_diagonals@.len() == i,
                forall|a: int|
                    0 <= a < diagonals@.len() ==> {
                        &&& self@.has_point((#[trigger] diagonals@[a]).start)
                        &&& self@.has_point(diagonals@[a].end)
                        &&& diagonals@[a].start != diagonals@[a].end
                    },
                forall|a: int|
                    0 <= a < i ==> {
                        &&& (#[trigger] int_diagonals@[a]).0 == m0.vertex(diagonals@[a].start)
                        &&& int_diagonals@[a].1 == m0.vertex(diagonals@[a].end)
                        &&& int_diagonals@[a].0 != int_diagonals@[a].1
                    },
            decreases diagonals@.len() - i,
        {
            let e = diagonals[i];
            let p1 = match self.get_dcelpoint_key(&e.start) {
                Some(k) => k,
                None => vstd::pervasive::unreached(),
            };
            let p2 = match self.get_dcelpoint_key(&e.end) {
                Some(k) => k,
                None => vstd::pervasive::unreached(),
            };
            proof {
                m0.lemma_vertex_unique(e.start, p1);
                m0.lemma_vertex_unique(e.end, p2);
            }
            int_diagonals.push((p1, p2));
            i += 1;
        }
        let mut k: usize = 0;
        while k < int_diagonals.len()
            invariant
                self.wf(),
                self.size() == old(self).size(),
                self.table() == old(self).table(),
                self@.points == m0.points,
                m0 == old(self)@,
                k <= int_diagonals@.len(),
                int_diagonals@.len() == diagonals@.len(),
                diagonals_applied(m0, diagonals@, k as int, self@),
                old(self).face_count() <= self.face_count() <= old(self).face_count() + k,
                forall|a: int|
                    0 <= a < int_diagonals@.len() ==> {
                        &&& (#[trigger] int_diagonals@[a]).0 == m0.vertex(diagonals@[a].start)
                        &&& int_diagonals@[a].1 == m0.vertex(diagonals@[a].end)
                        &&& int_diagonals@[a].0 != int_diagonals@[a].1
                    },
            decreases int_diagonals@.len() - k,
        {
            let ghost mid = self@;
            let pair = int_diagonals[k];
            self.split_face(pair.0, pair.1);
            proof {
                lemma_step_keeps_points(mid, pair.0, pair.1, self@);
                assert(mid.vertex(diagonals@[k as int].start) == pair.0);
                assert(mid.vertex(diagonals@[k as int].end) == pair.1);
                lemma_applied_next(m0, diagonals@, k + 1, mid, self@);
            }
            k += 1;
        }
    }

    /// The records of all half-edges, each once.
    pub fn half_edges(&self) -> (r: Vec<DCELEdge>)
        requires
            self.wf(),
        ensures
            forall|i: int|
                0 <= i < r@.len() ==> self@.edges.dom().contains((#[trigger] r@[i]).parent_key) && r@[i]
                    == self@.edges[r@[i].parent_key],
            forall|i: int, j: int| 0 <= i < j < r@.len() ==> (#[trigger] r@[i]).parent_key != (#[trigger] r@[j]).parent_key,
            forall|e: DefaultKey|
                self@.edges.dom().contains(e) ==> exists|i: int| 0 <= i < r@.len() && (#[trigger] r@[i]).parent_key == e,
    {
        let keys = edge_keys(&self.edges);
        let mut r: Vec<DCELEdge> = Vec::new();
        let mut i: usize = 0;
        while i < keys.len()
            invariant
                self.wf(),
                i <= keys@.len(),
                r@.len() == i,
                forall|k: DefaultKey| keys@.contains(k) <==> self@.edges.dom().contains(k),
                forall|a: int| 0 <= a < i ==> (#[trigger] r@[a]).parent_key == keys@[a] && r@[a] == self@.edges[keys@[a]],
            decreases keys@.len() - i,
        {
            proof {
                assert(keys@.contains(keys@[i as int]));
                assert(self@.edge_ok(keys@[i as int]));
            }
            r.push(edge_at(&self.edges, keys[i]));
            i += 1;
        }
        proof {
            assert forall|a: int| 0 <= a < r@.len() implies self@.edges.dom().contains((#[trigger] r@[a]).parent_key) by {
                assert(keys@.contains(keys@[a]));
            }
            assert forall|e: DefaultKey| self@.edges.dom().contains(e) implies exists|a: int|
                0 <= a < r@.len() && (#[trigger] r@[a]).parent_key == e by {
                assert(keys@.contains(e));
                let a = choose|a: int| 0 <= a < keys@.len() && keys@[a] == e;
                assert(r@[a].parent_key == e);
            }
        }
        r
    }

    /// The records of all vertices, each once.
    pub fn vertex_records(&self) -> (r: Vec<DCELPoint>)
        requires
            self.wf(),
        ensures
            forall|i: int|
                0 <= i < r@.len() ==> self@.points.dom().contains((#[trigger] r@[i]).parent_key) && r@[i]
                    == self@.points[r@[i].parent_key],
            forall|i: int, j: int| 0 <= i < j < r@.len() ==> (#[trigger] r@[i]).parent_key != (#[trigger] r@[j]).parent_key,
            forall|p: DefaultKey|
                self@.points.dom().contains(p) ==> exists|i: int| 0 <= i < r@.len() && (#[trigger] r@[i]).parent_key == p,
    {
        let keys = point_keys(&self.points);
        let mut r: Vec<DCELPoint> = Vec::new();
        let mut i: usize = 0;
        while i < keys.len()
            invariant
                self.wf(),
                i <= keys@.len(),
                r@.len() == i,
                forall|k: DefaultKey| keys@.contains(k) <==> self@.points.dom().contains(k),
                forall|a: int| 0 <= a < i ==> (#[trigger] r@[a]).parent_key == keys@[a] && r@[a] == self@.points[keys@[a]],
            decreases keys@.len() - i,
        {
            proof {
                assert(keys@.contains(keys@[i as int]));
                assert(self@.point_ok(keys@[i as int]));
            }
            r.push(point_at(&self.points, keys[i]));
            i += 1;
        }
        proof {
            assert forall|a: int| 0 <= a < r@.len() implies self@.points.dom().contains((#[trigger] r@[a]).parent_key) by {
                assert(keys@.contains(keys@[a]));
            }
            assert forall|p: DefaultKey| self@.points.dom().contains(p) implies exists|a: int|
                0 <= a < r@.len() && (#[trigger] r@[a]).parent_key == p by {
                assert(keys@.contains(p));
                let a = choose|a: int| 0 <= a < keys@.len() && keys@[a] == p;
                assert(r@[a].parent_key == p);
            }
        }
        r
    }

    /// Walks over the edge list and tells whether every half-edge is the
    /// successor of its predecessor and the predecessor of its successor,
    /// and every half-edge around a face inside the polygon lies on that
    /// face. A sound edge list always passes.
    pub fn check_consistency(&self) -> (ok: bool)
        requires
            self.wf(),
        ensures
            ok,
    {
        let keys = edge_keys(&self.edges);
        let mut i: usize = 0;
        while i < keys.len()
            invariant
                self.wf(),
                i <= keys@.len(),
                forall|k: DefaultKey| keys@.contains(k) <==> self@.edges.dom().contains(k),
            decreases keys@.len() - i,
        {
            let e = keys[i];
            proof {
                assert(keys@.contains(keys@[i as int]));
                assert(self@.edge_ok(e));
            }
            if !same_key(e, self.get_next_edge(self.get_prev_edge(e))) {
                return false;
            }
            if !same_key(e, self.get_prev_edge(self.get_next_edge(e))) {
                return false;
            }
            i += 1;
        }
        let faces = self.get_internal_faces();
        let mut j: usize = 0;
        while j < faces.len()
            invariant
                self.wf(),
                j <= faces@.len(),
                forall|a: int| 0 <= a < faces@.len() ==> self@.internal((#[trigger] faces@[a]).parent_key),
            decreases faces@.len() - j,
        {
            let f = faces[j].parent_key;
            let cycle = self.face_cycle(f);
            proof {
                assert(self@.face_ok(f));
            }
            let mut t: usize = 0;
            while t < cycle.len()
                invariant
                    self.wf(),
                    self@.internal(f),
                    cycle@ == self@.cycles[f],
                    ring(self@.edges, f, cycle@),
                    t <= cycle@.len(),
                decreases cycle@.len() - t,
            {
                proof {
                    assert(ring_at(self@.edges, f, cycle@, t as int));
                }
                if !same_key(f, self.get_incident_face(cycle[t])) {
                    return false;
                }
                t += 1;
            }
            j += 1;
        }
        true
    }

    /// The diagonals that triangulate the faces inside the polygon: those
    /// that the stack of waiting vertices finds in each face, taken as a
    /// monotone polygon of its own on the points around it, face after face.
    /// Each runs between two different vertices of the edge list.
    pub fn triangulation_diagonals(&self) -> (r: Vec<DirEdge>)
        requires
            self.wf(),
        ensures
            exists|fs: Seq<DefaultKey>| #[trigger] lists_faces(self@, fs) && r@ == piece_diagonals(self@, fs, fs.len() as int),
            forall|i: int|
                0 <= i < r@.len() ==> self@.has_point((#[trigger] r@[i]).start) && self@.has_point(r@[i].end)
                    && r@[i].start != r@[i].end,
    {
        let faces = self.get_internal_faces();
        let ghost m = self@;
        let ghost fs = Seq::new(faces@.len(), |i: int| faces@[i].parent_key);
        proof {
            assert forall|i: int, j: int| 0 <= i < fs.len() && 0 <= j < fs.len() && i != j implies fs[i] != fs[j] by {
                if i < j {
                    assert(faces@[i].parent_key != faces@[j].parent_key);
                } else {
                    assert(faces@[j].parent_key != faces@[i].parent_key);
                }
            }
            assert forall|f: DefaultKey| #[trigger] m.internal(f) <==> fs.contains(f) by {
                if m.internal(f) {
                    let i = choose|i: int| 0 <= i < faces@.len() && (#[trigger] faces@[i]).parent_key == f;
                    assert(fs[i] == f);
                }
                if fs.contains(f) {
                    let i = choose|i: int| 0 <= i < fs.len() && fs[i] == f;
                    assert(m.internal(faces@[i].parent_key));
                }
            }
            assert(lists_faces(m, fs));
        }
        let mut r: Vec<DirEdge> = Vec::new();
        let mut j: usize = 0;
        while j < faces.len()
            invariant
                self.wf(),
                m == self@,
                j <= faces@.len(),
                fs.len() == faces@.len(),
                forall|a: int| 0 <= a < faces@.len() ==> fs[a] == (#[trigger] faces@[a]).parent_key,
                forall|a: int| 0 <= a < faces@.len() ==> self@.internal((#[trigger] faces@[a]).parent_key),
                r@ == piece_diagonals(m, fs, j as int),
                forall|i: int|
                    0 <= i < r@.len() ==> self@.has_point((#[trigger] r@[i]).start) && self@.has_point(r@[i].end)
                        && r@[i].start != r@[i].end,
            decreases faces@.len() - j,
        {
            let f = faces[j].parent_key;
            let p = SimplePolygon::from_point_list(self.get_point_list(faces[j]));
            let mut edges = p.triangulate_monotone();
            proof {
                assert(self@.face_ok(f));
                assert(edges@ == fan_diagonals(m.corner_points(fs[j as int])));
                assert forall|i: int| 0 <= i < edges@.len() implies self@.has_point((#[trigger] edges@[i]).start)
                    && self@.has_point(edges@[i].end) && edges@[i].start != edges@[i].end by {
                    self@.lemma_corner_is_point(f, edges@[i].start);
                    self@.lemma_corner_is_point(f, edges@[i].end);
                }
            }
            r.append(&mut edges);
            j += 1;
        }
        r
    }

    /// The edge list of a polygon: one face inside it, bounded by the
    /// polygon, and the unbounded face around it.
    pub fn from_simple_polygon(p: &SimplePolygon) -> (d: DCEL)
        requires
            p@.len() <= POLYGON_LIMIT,
        ensures
            d.wf(),
            d.size() == p@.len(),
            d.table().len() == p@.len(),
            forall|i: int| 0 <= i < p@.len() ==> (#[trigger] d.table()[i]).0 == p@[i],
            outlines(d@, p@),
            d.face_count() == 1,
            forall|pt: Point| d@.has_point(pt) <==> p@.contains(pt),
            exists|f: DefaultKey| #[trigger]
                d@.internal(f) && d@.corner_points(f) == p@ && d@.faces.dom() =~= set![f, d@.outside],
    {
        let inp = p.get_point_list();
        let n = inp.len();
        let mut points = point_arena_new();
        let mut edges = edge_arena_new();
        let mut faces = face_arena_new();
        let mut point_hash: Vec<(Point, DefaultKey)> = Vec::new();
        let mut point_key_vec: Vec<DefaultKey> = Vec::new();
        let mut edge_key_vec: Vec<DefaultKey> = Vec::new();
        let mut twin_edges: Vec<DefaultKey> = Vec::new();
        let blank = EdgeLinks { origin: None, next: None, prev: None, twin: None, incident_face: None };

        let f_inside = face_insert(&mut faces, None, None);
        let f_outside = face_insert(&mut faces, None, None);

        let mut idx: usize = 0;
        while idx < n
            invariant
                n == inp@.len(),
                n <= POLYGON_LIMIT,
                idx <= n,
                point_key_vec@.len() == idx,
                edge_key_vec@.len() == idx,
                point_hash@.len() == idx,
                point_key_vec@.no_duplicates(),
                edge_key_vec@.no_duplicates(),
                point_slots(points) <= idx + 1,
                edge_slots(edges) <= idx + 1,
                keys_are(point_records(points).dom(), point_key_vec@),
                keys_are(edge_records(edges).dom(), edge_key_vec@),
                forall|i: int| 0 <= i < idx ==> #[trigger] point_hash@[i] == (inp@[i], point_key_vec@[i]),
            decreases n - idx,
        {
            let cur_pt = inp[idx];
            let pkey = point_insert(&mut points, cur_pt, None);
            point_hash.push((cur_pt, pkey));
            let ekey = edge_insert(&mut edges, blank);
            proof {
                lemma_push_fresh(point_key_vec@, pkey);
                lemma_push_fresh(edge_key_vec@, ekey);
            }
            point_key_vec.push(pkey);
            edge_key_vec.push(ekey);
            idx += 1;
        }

        let mut twin_idx: usize = 0;
        while twin_idx < n
            invariant
                n == inp@.len(),
                n <= POLYGON_LIMIT,
                twin_idx <= n,
                edge_key_vec@.len() == n,
                twin_edges@.len() == twin_idx,
                edge_key_vec@.no_duplicates(),
                twin_edges@.no_duplicates(),
                edge_slots(edges) <= n + twin_idx + 1,
                forall|i: int, j: int|
                    0 <= i < n && 0 <= j < twin_idx ==> #[trigger] edge_key_vec@[i] != #[trigger] twin_edges@[j],
                keys_are(edge_records(edges).dom(), edge_key_vec@ + twin_edges@),
            decreases n - twin_idx,
        {
            proof {
                lemma_joined_keys(edge_key_vec@, twin_edges@);
            }
            let tkey = edge_insert(&mut edges, blank);
            proof {
                lemma_push_fresh(twin_edges@, tkey);
                lemma_joined_keys(edge_key_vec@, twin_edges@.push(tkey));
                assert forall|i: int, j: int| 0 <= i < n && 0 <= j < twin_idx + 1 implies #[trigger] edge_key_vec@[i]
                    != #[trigger] twin_edges@.push(tkey)[j] by {
                    assert(edge_key_vec@.contains(edge_key_vec@[i]));
                }
            }
            twin_edges.push(tkey);
            twin_idx += 1;
        }

        let ghost pk = point_key_vec@;
        let ghost ek = edge_key_vec@;
        let ghost tk = twin_edges@;
        let mut fill: usize = 0;
        while fill < n
            invariant
                n == inp@.len(),
                3 <= n <= POLYGON_LIMIT,
                edge_slots(edges) <= 2 * n + 1,
                fill <= n,
                pk == point_key_vec@,
                ek == edge_key_vec@,
                tk == twin_edges@,
                polygon_keys(n as int, pk, ek, tk, f_inside, f_outside),
                point_hash@.len() == n,
                keys_are(point_records(points).dom(), pk),
                keys_are(edge_records(edges).dom(), ek + tk),
                forall|i: int| 0 <= i < n ==> #[trigger] point_hash@[i] == (inp@[i], pk[i]),
                forall|i: int|
                    0 <= i < fill ==> #[trigger] polygon_at(
                        point_records(points),
                        edge_records(edges),
                        inp@,
                        pk,
                        ek,
                        tk,
                        f_inside,
                        f_outside,
                        i,
                    ),
            decreases n - fill,
        {
            let next_idx = if fill == n - 1 { 0 } else { fill + 1 };
            let prev_idx = if fill == 0 { n - 1 } else { fill - 1 };
            let curr_point_key = point_key_vec[fill];
            let curr_edge_key = edge_key_vec[fill];
            let curr_twin_key = twin_edges[fill];
            let ghost points0 = point_records(points);
            let ghost edges0 = edge_records(edges);
            proof {
                lemma_joined_keys(ek, tk);
                assert(pk.contains(pk[fill as int]));
                assert(ek.contains(ek[fill as int]));
                assert(tk.contains(tk[fill as int]));
            }
            point_set(&mut points, curr_point_key, DCELPoint::new(curr_point_key, inp[fill], Some(curr_edge_key)));
            edge_set(
                &mut edges,
                curr_edge_key,
                DCELEdge::new(
                    curr_edge_key,
                    EdgeLinks {
                        origin: Some(curr_point_key),
                        next: Some(edge_key_vec[next_idx]),
                        prev: Some(edge_key_vec[prev_idx]),
                        twin: Some(curr_twin_key),
                        incident_face: Some(f_inside),
                    },
                ),
            );
            edge_set(
                &mut edges,
                curr_twin_key,
                DCELEdge::new(
                    curr_twin_key,
                    EdgeLinks {
                        origin: Some(point_key_vec[next_idx]),
                        next: Some(twin_edges[prev_idx]),
                        prev: Some(twin_edges[next_idx]),
                        twin: Some(curr_edge_key),
                        incident_face: Some(f_outside),
                    },
                ),
            );
            proof {
                let points1 = point_records(points);
                let edges1 = edge_records(edges);
                assert forall|i: int| 0 <= i < fill + 1 implies #[trigger] polygon_at(
                    points1,
                    edges1,
                    inp@,
                    pk,
                    ek,
                    tk,
                    f_inside,
                    f_outside,
                    i,
                ) by {
                    if i < fill {
                        assert(polygon_at(points0, edges0, inp@, pk, ek, tk, f_inside, f_outside, i));
                        assert(pk[i] != pk[fill as int]);
                        assert(ek[i] != ek[fill as int]);
                        assert(tk[i] != tk[fill as int]);
                        assert(ek[i] != tk[fill as int]);
                        assert(ek[fill as int] != tk[i]);
                    } else {
                        assert(ek[i] != tk[i]);
                    }
                }
            }
            fill += 1;
        }
        proof {
            assert(faces_pair(face_records(faces), f_inside, f_outside));
        }
        face_set(&mut faces, f_inside, DCELFace::new(f_inside, None, Some(edge_key_vec[0])));
        face_set(&mut faces, f_outside, DCELFace::new(f_outside, Some(twin_edges[0]), None));
        let ghost cycles = Map::<DefaultKey, Seq<DefaultKey>>::empty().insert(f_inside, ek).insert(
            f_outside,
            Seq::new(n as nat, |t: int| tk[flip(n as int, t)]),
        );
        let d = DCEL {
            points,
            edges,
            faces,
            point_hash,
            vertex_count: n,
            splits: 0,
            cycles: Ghost(cycles),
            outside: Ghost(f_outside),
            interior: Ghost(Seq::empty().push(f_inside)),
            chords: Ghost(Seq::empty()),
        };
        proof {
            assert(d@.cycles.dom() =~= d@.faces.dom());
            assert(is_polygon_mesh(d@, inp@, pk, ek, tk, f_inside, f_outside));
            lemma_polygon_mesh_wf(d@, inp@, pk, ek, tk, f_inside, f_outside);
            assert forall|i: int| 0 <= i < d.point_hash@.len() implies #[trigger] d.indexed_at(i) by {
                assert(pk.contains(pk[i]));
                assert(polygon_at(d@.points, d@.edges, inp@, pk, ek, tk, f_inside, f_outside, i));
            }
            assert forall|k: DefaultKey| d@.points.dom().contains(k) implies #[trigger] d.index_has(k) by {
                assert(pk.contains(k));
                let i = choose|i: int| 0 <= i < pk.len() && pk[i] == k;
                assert(d.point_hash@[i].1 == k);
            }
            assert(d@.internal(f_inside));
            assert(d@.faces.dom() =~= set![f_inside, d@.outside]);
            assert forall|pt: Point| d@.has_point(pt) <==> inp@.contains(pt) by {
                if d@.has_point(pt) {
                    let k = choose|k: DefaultKey| #[trigger] d@.points.dom().contains(k) && d@.points[k].point2d == pt;
                    assert(pk.contains(k));
                    let i = choose|i: int| 0 <= i < pk.len() && pk[i] == k;
                    assert(polygon_at(d@.points, d@.edges, inp@, pk, ek, tk, f_inside, f_outside, i));
                    assert(inp@[i] == pt);
                }
                if inp@.contains(pt) {
                    let i = choose|i: int| 0 <= i < inp@.len() && inp@[i] == pt;
                    assert(polygon_at(d@.points, d@.edges, inp@, pk, ek, tk, f_inside, f_outside, i));
                    assert(pk.contains(pk[i]));
                    assert(d@.points.dom().contains(pk[i]));
                }
            }
            assert(d.interior@[0] == f_inside);
            assert forall|f: DefaultKey|
                #![trigger d@.internal(f)]
                #![trigger d.interior@.contains(f)]
                d@.internal(f) == d.interior@.contains(f) by {
                if d.interior@.contains(f) {
                    let i = choose|i: int| 0 <= i < d.interior@.len() && d.interior@[i] == f;
                }
            }
            assert forall|e: DefaultKey| !d@.inner(e) by {
                lemma_polygon_no_diagonal(d@, inp@, pk, ek, tk, f_inside, f_outside, e);
            }
            assert(d.interior@.drop_last() =~= Seq::<DefaultKey>::empty());
            assert(total_len(d.cycles@, d.interior@.drop_last()) == 0);
            assert(total_len(d.cycles@, d.interior@) == n);
        }
        d
    }
}

} // verus!

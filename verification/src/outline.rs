//! The edge list of a polygon alone: one face inside it and the unbounded
//! face around it.

use crate::arena::{DCELEdge, DCELFace, DCELPoint};
use crate::keys::{keys_are, lemma_joined_keys};
use crate::mesh::{apart, ring_at, wrap_next, Mesh};
use crate::polygon::{next_index, prev_index};
use crate::primitives::Point;
use slotmap::DefaultKey;
use vstd::prelude::*;

verus! {

/// The place of `t` on the boundary of the unbounded face, which runs
/// against the polygon.
pub open spec fn flip(n: int, t: int) -> int {
    if t == 0 {
        0
    } else {
        n - t
    }
}

/// Whether the maps hold, for place `i` of the polygon `pts`, vertex `i` under
/// key `pk[i]`, the half-edge from vertex `i` to the next under `ek[i]` and
/// its twin under `tk[i]`.
pub open spec fn polygon_at(
    points: Map<DefaultKey, DCELPoint>,
    edges: Map<DefaultKey, DCELEdge>,
    pts: Seq<Point>,
    pk: Seq<DefaultKey>,
    ek: Seq<DefaultKey>,
    tk: Seq<DefaultKey>,
    f_in: DefaultKey,
    f_out: DefaultKey,
    i: int,
) -> bool {
    let n = pts.len() as int;
    &&& points[pk[i]] == (DCELPoint { parent_key: pk[i], point2d: pts[i], incident_edge: Some(ek[i]) })
    &&& edges[ek[i]] == (DCELEdge {
        parent_key: ek[i],
        origin: Some(pk[i]),
        next: Some(ek[next_index(n, i)]),
        prev: Some(ek[prev_index(n, i)]),
        twin: Some(tk[i]),
        incident_face: Some(f_in),
    })
    &&& edges[tk[i]] == (DCELEdge {
        parent_key: tk[i],
        origin: Some(pk[next_index(n, i)]),
        next: Some(tk[prev_index(n, i)]),
        prev: Some(tk[next_index(n, i)]),
        twin: Some(ek[i]),
        incident_face: Some(f_out),
    })
}

/// Whether the keys of a polygon's edge list are all different: `n` vertex
/// keys, `n` half-edge keys, `n` twin keys and two face keys.
pub open spec fn polygon_keys(
    n: int,
    pk: Seq<DefaultKey>,
    ek: Seq<DefaultKey>,
    tk: Seq<DefaultKey>,
    f_in: DefaultKey,
    f_out: DefaultKey,
) -> bool {
    &&& pk.len() == n
    &&& ek.len() == n
    &&& tk.len() == n
    &&& pk.no_duplicates()
    &&& ek.no_duplicates()
    &&& tk.no_duplicates()
    &&& forall|i: int, j: int| 0 <= i < n && 0 <= j < n ==> #[trigger] ek[i] != #[trigger] tk[j]
    &&& f_in != f_out
}

/// Whether `m` is the edge list of the polygon `pts` alone, with the face
/// inside under `f_in` and the unbounded face under `f_out`.
pub open spec fn is_polygon_mesh(
    m: Mesh,
    pts: Seq<Point>,
    pk: Seq<DefaultKey>,
    ek: Seq<DefaultKey>,
    tk: Seq<DefaultKey>,
    f_in: DefaultKey,
    f_out: DefaultKey,
) -> bool {
    let n = pts.len() as int;
    &&& n >= 3
    &&& pts.no_duplicates()
    &&& polygon_keys(n, pk, ek, tk, f_in, f_out)
    &&& m.outside == f_out
    &&& keys_are(m.points.dom(), pk)
    &&& keys_are(m.edges.dom(), ek + tk)
    &&& forall|k: DefaultKey| #[trigger] m.faces.dom().contains(k) <==> (k == f_in || k == f_out)
    &&& m.cycles.dom() == m.faces.dom()
    &&& m.faces[f_in] == (DCELFace { parent_key: f_in, inner: None, outer: Some(ek[0]) })
    &&& m.faces[f_out] == (DCELFace { parent_key: f_out, inner: Some(tk[0]), outer: None })
    &&& m.cycles[f_in] == ek
    &&& m.cycles[f_out] == Seq::new(n as nat, |t: int| tk[flip(n, t)])
    &&& forall|i: int| 0 <= i < n ==> #[trigger] polygon_at(m.points, m.edges, pts, pk, ek, tk, f_in, f_out, i)
}

pub proof fn lemma_polygon_edge_ok(
    m: Mesh,
    pts: Seq<Point>,
    pk: Seq<DefaultKey>,
    ek: Seq<DefaultKey>,
    tk: Seq<DefaultKey>,
    f_in: DefaultKey,
    f_out: DefaultKey,
    i: int,
)
    requires
        is_polygon_mesh(m, pts, pk, ek, tk, f_in, f_out),
        0 <= i < pts.len(),
    ensures
        m.edge_ok(ek[i]),
        m.edge_ok(tk[i]),
        m.point_ok(pk[i]),
{
    let n = pts.len() as int;
    let nx = next_index(n, i);
    let pv = prev_index(n, i);
    let co = Seq::new(n as nat, |t: int| tk[flip(n, t)]);
    assert(polygon_at(m.points, m.edges, pts, pk, ek, tk, f_in, f_out, i));
    assert(polygon_at(m.points, m.edges, pts, pk, ek, tk, f_in, f_out, nx));
    assert(polygon_at(m.points, m.edges, pts, pk, ek, tk, f_in, f_out, pv));
    lemma_joined_keys(ek, tk);
    assert(ek.contains(ek[i]) && ek.contains(ek[nx]) && ek.contains(ek[pv]));
    assert(tk.contains(tk[i]) && tk.contains(tk[nx]) && tk.contains(tk[pv]));
    assert(pk.contains(pk[i]) && pk.contains(pk[nx]));
    assert(ek[i] != tk[i]);
    assert(m.cycles[f_in][i] == ek[i]);
    assert(co[flip(n, i)] == tk[i]);
    assert(m.cycles[f_out].contains(tk[i]));
    assert(m.links_live(ek[i]));
    assert(m.twin_paired(ek[i]));
    assert(m.chained(ek[i]));
    assert(m.faced(ek[i]));
    assert(m.links_live(tk[i]));
    assert(m.twin_paired(tk[i]));
    assert(m.chained(tk[i]));
    assert(m.faced(tk[i]));
}

pub proof fn lemma_polygon_faces_ok(
    m: Mesh,
    pts: Seq<Point>,
    pk: Seq<DefaultKey>,
    ek: Seq<DefaultKey>,
    tk: Seq<DefaultKey>,
    f_in: DefaultKey,
    f_out: DefaultKey,
)
    requires
        is_polygon_mesh(m, pts, pk, ek, tk, f_in, f_out),
    ensures
        m.face_ok(f_in),
        m.face_ok(f_out),
{
    let n = pts.len() as int;
    let co = Seq::new(n as nat, |t: int| tk[flip(n, t)]);
    lemma_joined_keys(ek, tk);
    assert forall|t: int| 0 <= t < n implies #[trigger] ring_at(m.edges, f_in, ek, t) by {
        assert(polygon_at(m.points, m.edges, pts, pk, ek, tk, f_in, f_out, t));
        assert(wrap_next(n, t) == next_index(n, t));
        assert(ek.contains(ek[t]));
    }
    assert forall|s: int, t: int| 0 <= s < n && 0 <= t < n && s != t implies #[trigger] apart(m.edges, ek, s, t) by {
        assert(polygon_at(m.points, m.edges, pts, pk, ek, tk, f_in, f_out, s));
        assert(polygon_at(m.points, m.edges, pts, pk, ek, tk, f_in, f_out, t));
        assert(pk[s] != pk[t]);
    }
    assert forall|t: int| 0 <= t < n implies #[trigger] ring_at(m.edges, f_out, co, t) by {
        let i = flip(n, t);
        assert(polygon_at(m.points, m.edges, pts, pk, ek, tk, f_in, f_out, i));
        assert(co[t] == tk[i]);
        assert(co[wrap_next(n, t)] == tk[flip(n, wrap_next(n, t))]);
        assert(flip(n, wrap_next(n, t)) == prev_index(n, i));
        assert(tk.contains(tk[i]));
    }
    assert forall|s: int, t: int| 0 <= s < n && 0 <= t < n && s != t implies #[trigger] apart(m.edges, co, s, t) by {
        let i = flip(n, s);
        let j = flip(n, t);
        assert(polygon_at(m.points, m.edges, pts, pk, ek, tk, f_in, f_out, i));
        assert(polygon_at(m.points, m.edges, pts, pk, ek, tk, f_in, f_out, j));
        assert(co[s] == tk[i]);
        assert(co[t] == tk[j]);
        assert(tk[i] != tk[j]);
        assert(pk[next_index(n, i)] != pk[next_index(n, j)]);
    }
    assert(co[0] == tk[0]);
}

/// Whether `m` is the edge list of the polygon `pts` alone.
pub open spec fn outlines(m: Mesh, pts: Seq<Point>) -> bool {
    exists|pk: Seq<DefaultKey>, ek: Seq<DefaultKey>, tk: Seq<DefaultKey>, f_in: DefaultKey| #[trigger]
        is_polygon_mesh(m, pts, pk, ek, tk, f_in, m.outside)
}

/// The edge list of a polygon alone has no diagonal.
pub proof fn lemma_polygon_no_diagonal(
    m: Mesh,
    pts: Seq<Point>,
    pk: Seq<DefaultKey>,
    ek: Seq<DefaultKey>,
    tk: Seq<DefaultKey>,
    f_in: DefaultKey,
    f_out: DefaultKey,
    e: DefaultKey,
)
    requires
        is_polygon_mesh(m, pts, pk, ek, tk, f_in, f_out),
    ensures
        !m.inner(e),
{
    if m.inner(e) {
        lemma_joined_keys(ek, tk);
        assert((ek + tk).contains(e));
        if ek.contains(e) {
            let i = choose|i: int| 0 <= i < ek.len() && ek[i] == e;
            assert(polygon_at(m.points, m.edges, pts, pk, ek, tk, f_in, f_out, i));
        } else {
            let i = choose|i: int| 0 <= i < tk.len() && tk[i] == e;
            assert(polygon_at(m.points, m.edges, pts, pk, ek, tk, f_in, f_out, i));
        }
    }
}

/// The edge list of a polygon alone is an edge list, and the face inside
/// has the points of the polygon around it.
pub proof fn lemma_polygon_mesh_wf(
    m: Mesh,
    pts: Seq<Point>,
    pk: Seq<DefaultKey>,
    ek: Seq<DefaultKey>,
    tk: Seq<DefaultKey>,
    f_in: DefaultKey,
    f_out: DefaultKey,
)
    requires
        is_polygon_mesh(m, pts, pk, ek, tk, f_in, f_out),
    ensures
        m.wf(),
        m.corner_points(f_in) == pts,
{
    let n = pts.len() as int;
    lemma_joined_keys(ek, tk);
    assert forall|e: DefaultKey| m.edges.dom().contains(e) implies #[trigger] m.edge_ok(e) by {
        assert((ek + tk).contains(e));
        if ek.contains(e) {
            let i = choose|i: int| 0 <= i < ek.len() && ek[i] == e;
            lemma_polygon_edge_ok(m, pts, pk, ek, tk, f_in, f_out, i);
        } else {
            let i = choose|i: int| 0 <= i < tk.len() && tk[i] == e;
            lemma_polygon_edge_ok(m, pts, pk, ek, tk, f_in, f_out, i);
        }
    }
    lemma_polygon_faces_ok(m, pts, pk, ek, tk, f_in, f_out);
    assert forall|f: DefaultKey| m.faces.dom().contains(f) implies #[trigger] m.face_ok(f) by {}
    assert forall|p: DefaultKey| m.points.dom().contains(p) implies #[trigger] m.point_ok(p) by {
        assert(pk.contains(p));
        let i = choose|i: int| 0 <= i < pk.len() && pk[i] == p;
        lemma_polygon_edge_ok(m, pts, pk, ek, tk, f_in, f_out, i);
    }
    assert forall|p: DefaultKey, q: DefaultKey|
        m.points.dom().contains(p) && m.points.dom().contains(q) && p != q implies (#[trigger] m.points[p]).point2d != (
    #[trigger] m.points[q]).point2d by {
        assert(pk.contains(p));
        assert(pk.contains(q));
        let i = choose|i: int| 0 <= i < pk.len() && pk[i] == p;
        let j = choose|j: int| 0 <= j < pk.len() && pk[j] == q;
        assert(polygon_at(m.points, m.edges, pts, pk, ek, tk, f_in, f_out, i));
        assert(polygon_at(m.points, m.edges, pts, pk, ek, tk, f_in, f_out, j));
    }
    assert(m.faces.dom().contains(f_out));
    assert forall|f: DefaultKey, g: DefaultKey, p: DefaultKey, q: DefaultKey|
        #[trigger] m.both_on(f, p, q) && #[trigger] m.both_on(g, p, q) && f != g && p != q implies m.adjacent_on(f, p, q) by {
        assert(f == f_in && g == f_in);
    }
    assert forall|f: DefaultKey, g: DefaultKey| m.internal(f) && m.internal(g) implies #[trigger] crate::dual::reaches(
        m,
        f,
        g,
    ) by {
        assert(f == f_in && g == f_in);
        crate::dual::lemma_reaches_self(m, f);
    }
    assert forall|t: Seq<DefaultKey>| !#[trigger] crate::dual::is_round_trip(m, t) by {
        if crate::dual::is_round_trip(m, t) {
            assert(crate::dual::trail_at(m, t, 0));
            lemma_polygon_no_diagonal(m, pts, pk, ek, tk, f_in, f_out, t[0]);
        }
    }
    assert(m.corner_points(f_in) =~= pts) by {
        assert forall|t: int| 0 <= t < n implies m.corner_points(f_in)[t] == pts[t] by {
            assert(polygon_at(m.points, m.edges, pts, pk, ek, tk, f_in, f_out, t));
        }
    }
}

/// Whether the face map holds the two keys and no other.
pub open spec fn faces_pair(faces: Map<DefaultKey, DCELFace>, f: DefaultKey, g: DefaultKey) -> bool {
    &&& f != g
    &&& forall|k: DefaultKey| #[trigger] faces.dom().contains(k) <==> (k == f || k == g)
}

} // verus!

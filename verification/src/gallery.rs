//! From a polygon to its guards: the monotone pieces, the triangulation,
//! the coloring, and the smallest class of color.

use crate::coloring::{colorable, is_smallest_class, proper, Coloring};
use crate::dcel::{DCEL, POLYGON_LIMIT};
use crate::dual::lists_faces;
use crate::mesh::Mesh;
use crate::monotone::piece_diagonals;
use crate::outline::outlines;
use crate::polygon::SimplePolygon;
use crate::primitives::{DirEdge, Point};
use crate::split::diagonals_applied;
use crate::sweep::{monotone_diagonals, trapezoids_of};
use slotmap::DefaultKey;
use vstd::prelude::*;

verus! {

/// What the way from a polygon to its guards leaves behind.
pub struct Gallery {
    /// The diagonals that cut the polygon into monotone pieces.
    pub monotone: Vec<DirEdge>,
    /// The diagonals that cut the monotone pieces into triangles.
    pub triangulation: Vec<DirEdge>,
    /// The edge list of the polygon with all these diagonals.
    pub dcel: DCEL,
    /// The colors of the vertices.
    pub coloring: Coloring,
    /// The vertices of the color that the fewest have.
    pub guards: Vec<Point>,
}

/// Whether the gallery `g` is one of the polygon `s`: its edge list is sound
/// and has the vertices of `s` and two triangles fewer than `s` has
/// vertices, its first diagonals are those that the
/// trapezoids of `s` call for, its coloring gives every triangle three
/// colors, and its guards are the vertices of a color that no other color
/// has fewer of, a third of the vertices at most.
pub open spec fn is_gallery_of(g: Gallery, s: Seq<Point>) -> bool {
    &&& trapezoids_of(s) is Some
    &&& g.monotone@ == monotone_diagonals(s, trapezoids_of(s)->0, trapezoids_of(s)->0.len() as int)
    &&& g.dcel.wf()
    &&& g.dcel.size() == s.len()
    &&& g.dcel.face_count() == s.len() - 2
    &&& forall|p: Point| g.dcel@.has_point(p) <==> s.contains(p)
    &&& proper(g.dcel@, g.coloring@)
    &&& g.guards@.no_duplicates()
    &&& 3 * g.guards@.len() <= s.len()
    &&& exists|k: usize| #[trigger] is_smallest_class(g.coloring@, k, g.guards@)
}

/// The diagonals that cut the polygon `s` into monotone pieces.
pub open spec fn monotone_cut(s: Seq<Point>) -> Seq<DirEdge> {
    monotone_diagonals(s, trapezoids_of(s)->0, trapezoids_of(s)->0.len() as int)
}

/// Whether the way from the polygon `s` leads to the edge list `m2`: the
/// sweep succeeds on `s`, `m0` is the edge list of `s` alone, `m1` is what
/// the diagonals that cut `s` into monotone pieces make of `m0`, `fs` lists
/// the faces of `m1`, and `m2` is what the diagonals that triangulate these
/// faces, one after the other, make of `m1`.
pub open spec fn led_to(s: Seq<Point>, m0: Mesh, m1: Mesh, fs: Seq<DefaultKey>, m2: Mesh) -> bool {
    &&& trapezoids_of(s) is Some
    &&& outlines(m0, s)
    &&& diagonals_applied(m0, monotone_cut(s), monotone_cut(s).len() as int, m1)
    &&& lists_faces(m1, fs)
    &&& diagonals_applied(
        m1,
        piece_diagonals(m1, fs, fs.len() as int),
        piece_diagonals(m1, fs, fs.len() as int).len() as int,
        m2,
    )
}

/// Whether the gallery `g` was reached from the polygon `s`: the way from
/// `s` leads to its edge list, which can be colored, and its second
/// diagonals are those that triangulate the monotone pieces.
pub open spec fn reached(g: Gallery, s: Seq<Point>) -> bool {
    exists|m0: Mesh, m1: Mesh, fs: Seq<DefaultKey>| #[trigger]
        led_to(s, m0, m1, fs, g.dcel@) && g.triangulation@ == piece_diagonals(m1, fs, fs.len() as int) && colorable(
            g.dcel@,
        )
}

/// Whether the way from the polygon `s` leads to an edge list that cannot be
/// colored.
pub open spec fn stuck(s: Seq<Point>) -> bool {
    exists|m0: Mesh, m1: Mesh, fs: Seq<DefaultKey>, m2: Mesh| #[trigger] led_to(s, m0, m1, fs, m2) && !colorable(m2)
}

/// The guards of the polygon `p`, with the diagonals and colors that lead
/// to them: the polygon is cut into monotone pieces, the pieces into
/// triangles, the vertices are colored so that every triangle has three
/// colors, and the vertices of the rarest color are the guards. Nothing
/// comes back where the sweep fails on the polygon, or where the diagonals
/// do not leave triangles that can be colored, and only there.
pub fn guard_polygon(p: &SimplePolygon) -> (r: Option<Gallery>)
    requires
        p@.len() <= POLYGON_LIMIT,
    ensures
        r matches Some(g) ==> is_gallery_of(g, p@) && reached(g, p@),
        trapezoids_of(p@) is None ==> r is None,
        r is None ==> trapezoids_of(p@) is None || stuck(p@),
{
    let ghost s = p@;
    let pts = p.get_point_list();
    let traps = match p.sweep() {
        Some(t) => t,
        None => {
            return None;
        },
    };
    let monotone = p.diagonals_of(&traps);
    let mut dcel = DCEL::from_simple_polygon(p);
    let ghost m0 = dcel@;
    proof {
        assert forall|i: int| 0 <= i < monotone@.len() implies (#[trigger] monotone@[i]).start != monotone@[i].end by {
            assert(monotone@[i].start.higher_than(monotone@[i].end));
        }
    }
    dcel.add_internal_diagonals(&monotone);
    let ghost m1 = dcel@;
    let triangulation = dcel.triangulation_diagonals();
    let ghost fs = choose|fs: Seq<DefaultKey>| #[trigger]
        lists_faces(m1, fs) && triangulation@ == piece_diagonals(m1, fs, fs.len() as int);
    dcel.add_internal_diagonals(&triangulation);
    proof {
        assert(led_to(s, m0, m1, fs, dcel@));
    }
    let coloring = match dcel.try_three_color() {
        Some(c) => c,
        None => {
            proof {
                assert(led_to(s, m0, m1, fs, dcel@) && !colorable(dcel@));
            }
            return None;
        },
    };
    let guards = coloring.guards();
    proof {
        assert(coloring@.dom() =~= s.to_set()) by {
            assert forall|q: Point| coloring@.dom().contains(q) <==> s.to_set().contains(q) by {
                assert(coloring@.dom().contains(q) <==> dcel@.has_point(q));
            }
        }
        s.unique_seq_to_set();
        assert forall|f: slotmap::DefaultKey| dcel@.internal(f) implies (#[trigger] dcel@.cycles[f]).len() == 3 by {
            assert(crate::coloring::rainbow_face(dcel@, coloring@, f));
        }
        dcel.lemma_face_count();
    }
    let g = Gallery { monotone, triangulation, dcel, coloring, guards };
    proof {
        assert(led_to(s, m0, m1, fs, g.dcel@) && g.triangulation@ == piece_diagonals(m1, fs, fs.len() as int)
            && colorable(g.dcel@));
    }
    Some(g)
}

} // verus!

//! Three-coloring of a triangulated edge list, by a walk over the
//! triangles from neighbour to neighbour.

use crate::dcel::DCEL;
use crate::dual::{across, closed_under_across, face_across, lemma_across_back, lemma_closed_holds_reached, reaches};
use crate::mesh::{ring, ring_at, Mesh};
use crate::primitives::Point;
use slotmap::DefaultKey;
use vstd::prelude::*;

verus! {

/// A color for each point, held as a list of points with their colors in
/// which no point occurs twice.
#[derive(Debug)]
pub struct Coloring {
    entries: Vec<(Point, usize)>,
}

/// Whether `p` has an entry in `entries`.
pub open spec fn listed(entries: Seq<(Point, usize)>, p: Point) -> bool {
    exists|i: int| 0 <= i < entries.len() && (#[trigger] entries[i]).0 == p
}

/// The color of `p` in `entries`.
pub open spec fn color_in(entries: Seq<(Point, usize)>, p: Point) -> usize {
    entries[choose|i: int| 0 <= i < entries.len() && (#[trigger] entries[i]).0 == p].1
}

impl View for Coloring {
    type V = Map<Point, usize>;

    closed spec fn view(&self) -> Map<Point, usize> {
        Map::new(|p: Point| listed(self.entries@, p), |p: Point| color_in(self.entries@, p))
    }
}

/// Whether the corners of face `f` are three and have three different
/// colors.
pub open spec fn rainbow_face(m: Mesh, c: Map<Point, usize>, f: DefaultKey) -> bool {
    let pts = m.corner_points(f);
    &&& pts.len() == 3
    &&& c[pts[0]] != c[pts[1]]
    &&& c[pts[1]] != c[pts[2]]
    &&& c[pts[0]] != c[pts[2]]
}

/// Whether `c` gives every vertex, and nothing else, one of the colors 1, 2
/// and 3, so that every face inside the polygon is a triangle whose corners
/// have the three colors.
pub open spec fn proper(m: Mesh, c: Map<Point, usize>) -> bool {
    &&& forall|p: Point| #[trigger] c.dom().contains(p) <==> m.has_point(p)
    &&& forall|p: Point| #[trigger] c.dom().contains(p) ==> 1 <= c[p] <= 3
    &&& forall|f: DefaultKey| m.internal(f) ==> #[trigger] rainbow_face(m, c, f)
}

/// Whether the entries at `a`, `b` and `c` of `col` are those of the three
/// corners of face `f`, in order, with three different colors.
pub open spec fn corners_at(m: Mesh, col: Seq<(DefaultKey, usize)>, f: DefaultKey, a: int, b: int, c: int) -> bool {
    &&& 0 <= a < col.len()
    &&& 0 <= b < col.len()
    &&& 0 <= c < col.len()
    &&& col[a].0 == m.origin(m.cycles[f][0])
    &&& col[b].0 == m.origin(m.cycles[f][1])
    &&& col[c].0 == m.origin(m.cycles[f][2])
    &&& col[a].1 != col[b].1
    &&& col[b].1 != col[c].1
    &&& col[a].1 != col[c].1
}

/// Whether face `f` is a triangle whose corners have three different colors
/// in `col`.
pub open spec fn key_rainbow(m: Mesh, col: Seq<(DefaultKey, usize)>, f: DefaultKey) -> bool {
    &&& m.cycles[f].len() == 3
    &&& exists|a: int, b: int, c: int| #[trigger] corners_at(m, col, f, a, b, c)
}

/// Whether `col` gives no vertex two entries, and only colors 1, 2 and 3.
pub open spec fn tidy(col: Seq<(DefaultKey, usize)>) -> bool {
    &&& forall|i: int, j: int| 0 <= i < j < col.len() ==> (#[trigger] col[i]).0 != (#[trigger] col[j]).0
    &&& forall|i: int| 0 <= i < col.len() ==> 1 <= (#[trigger] col[i]).1 <= 3
}

/// Whether `new` begins with `old`.
pub open spec fn grown(old: Seq<(DefaultKey, usize)>, new: Seq<(DefaultKey, usize)>) -> bool {
    &&& old.len() <= new.len()
    &&& forall|i: int| 0 <= i < old.len() ==> #[trigger] new[i] == old[i]
}

proof fn lemma_rainbow_grows(m: Mesh, old: Seq<(DefaultKey, usize)>, new: Seq<(DefaultKey, usize)>, f: DefaultKey)
    requires
        key_rainbow(m, old, f),
        grown(old, new),
    ensures
        key_rainbow(m, new, f),
{
    let (a, b, c) = choose|a: int, b: int, c: int| #[trigger] corners_at(m, old, f, a, b, c);
    assert(corners_at(m, new, f, a, b, c));
}

/// The color of the vertex `k` in `col`, if it has one.
fn lookup(col: &Vec<(DefaultKey, usize)>, k: DefaultKey) -> (r: Option<usize>)
    ensures
        r matches Some(c) ==> exists|i: int| 0 <= i < col@.len() && #[trigger] col@[i] == (k, c),
        r is None ==> forall|i: int| 0 <= i < col@.len() ==> (#[trigger] col@[i]).0 != k,
{
    let mut i: usize = 0;
    while i < col.len()
        invariant
            i <= col@.len(),
            forall|j: int| 0 <= j < i ==> (#[trigger] col@[j]).0 != k,
        decreases col@.len() - i,
    {
        if crate::arena::same_key(col[i].0, k) {
            return Some(col[i].1);
        }
        i += 1;
    }
    None
}

/// The smallest of the colors 1, 2 and 3 that is not taken, if one is left.
fn smallest_free(used1: bool, used2: bool, used3: bool) -> (r: Option<usize>)
    ensures
        r == (if !used1 {
            Some(1usize)
        } else if !used2 {
            Some(2usize)
        } else if !used3 {
            Some(3usize)
        } else {
            None
        }),
{
    if !used1 {
        Some(1)
    } else if !used2 {
        Some(2)
    } else if !used3 {
        Some(3)
    } else {
        None
    }
}

impl Coloring {
    #[verifier::type_invariant]
    spec fn inv(&self) -> bool {
        &&& forall|i: int, j: int|
            0 <= i < j < self.entries@.len() ==> (#[trigger] self.entries@[i]).0 != (#[trigger] self.entries@[j]).0
        &&& forall|i: int| 0 <= i < self.entries@.len() ==> 1 <= (#[trigger] self.entries@[i]).1 <= 3
    }

    /// The color of the point `p`, if it has one.
    pub fn get(&self, p: &Point) -> (r: Option<usize>)
        ensures
            r == (if self@.dom().contains(*p) {
                Some(self@[*p])
            } else {
                None
            }),
    {
        proof {
            use_type_invariant(self);
        }
        let mut i: usize = 0;
        while i < self.entries.len()
            invariant
                i <= self.entries@.len(),
                forall|j: int| 0 <= j < i ==> (#[trigger] self.entries@[j]).0 != *p,
                forall|a: int, b: int|
                    0 <= a < b < self.entries@.len() ==> (#[trigger] self.entries@[a]).0 != (
                    #[trigger] self.entries@[b]).0,
            decreases self.entries@.len() - i,
        {
            if self.entries[i].0 == *p {
                proof {
                    assert(listed(self.entries@, *p));
                    let w = choose|w: int| 0 <= w < self.entries@.len() && (#[trigger] self.entries@[w]).0 == *p;
                    assert(w == i);
                }
                return Some(self.entries[i].1);
            }
            i += 1;
        }
        None
    }

    /// The number of points that have a color.
    pub fn len(&self) -> (r: usize)
        ensures
            r == self@.dom().len(),
            self@.dom().finite(),
    {
        proof {
            use_type_invariant(self);
            lemma_entries_counted(self.entries@);
            assert(self@.dom() =~= Set::new(|p: Point| listed(self.entries@, p)));
        }
        self.entries.len()
    }

    /// The number of points of the color `k`.
    pub fn class_size(&self, k: usize) -> (r: usize)
        ensures
            r == color_class(self@, k).len(),
            color_class(self@, k).finite(),
    {
        proof {
            use_type_invariant(self);
            lemma_class_counted(self.entries@, k, self.entries@.len() as int);
            lemma_class_of_view(self.entries@, k);
        }
        let mut r: usize = 0;
        let mut i: usize = 0;
        while i < self.entries.len()
            invariant
                i <= self.entries@.len(),
                r == color_count(self.entries@, k, i as int),
                r <= i,
            decreases self.entries@.len() - i,
        {
            if self.entries[i].1 == k {
                r += 1;
            }
            i += 1;
        }
        r
    }

    /// The color, of 1, 2 and 3, with the fewest points; the smaller color
    /// where two have as few. It has at most a third of all points.
    pub fn smallest_class(&self) -> (k: usize)
        ensures
            1 <= k <= 3,
            forall|j: usize| 1 <= j <= 3 ==> color_class(self@, k).len() <= (#[trigger] color_class(self@, j)).len(),
            forall|j: usize| 1 <= j < k ==> color_class(self@, k).len() < (#[trigger] color_class(self@, j)).len(),
            3 * color_class(self@, k).len() <= self@.dom().len(),
    {
        let n = self.len();
        let c1 = self.class_size(1);
        let c2 = self.class_size(2);
        let c3 = self.class_size(3);
        proof {
            use_type_invariant(self);
            lemma_counts_add_up(self.entries@, self.entries@.len() as int);
            lemma_class_counted(self.entries@, 1, self.entries@.len() as int);
            lemma_class_counted(self.entries@, 2, self.entries@.len() as int);
            lemma_class_counted(self.entries@, 3, self.entries@.len() as int);
            lemma_class_of_view(self.entries@, 1);
            lemma_class_of_view(self.entries@, 2);
            lemma_class_of_view(self.entries@, 3);
            lemma_entries_counted(self.entries@);
            assert(self@.dom() =~= Set::new(|p: Point| listed(self.entries@, p)));
            assert(c1 + c2 + c3 == n);
        }
        if c1 <= c2 && c1 <= c3 {
            1
        } else if c2 <= c3 {
            2
        } else {
            3
        }
    }

    /// The points of the color `k`, each once.
    pub fn class_points(&self, k: usize) -> (r: Vec<Point>)
        ensures
            r@.no_duplicates(),
            forall|p: Point| r@.contains(p) <==> color_class(self@, k).contains(p),
            r@.len() == color_class(self@, k).len(),
    {
        proof {
            use_type_invariant(self);
            lemma_class_counted(self.entries@, k, self.entries@.len() as int);
            lemma_class_of_view(self.entries@, k);
        }
        let mut r: Vec<Point> = Vec::new();
        let mut i: usize = 0;
        while i < self.entries.len()
            invariant
                i <= self.entries@.len(),
                r@.len() == color_count(self.entries@, k, i as int),
                forall|a: int, b: int|
                    0 <= a < b < self.entries@.len() ==> (#[trigger] self.entries@[a]).0 != (
                    #[trigger] self.entries@[b]).0,
                forall|a: int| 0 <= a < r@.len() ==> class_upto(self.entries@, k, i as int).contains(#[trigger] r@[a]),
                forall|p: Point| class_upto(self.entries@, k, i as int).contains(p) ==> r@.contains(p),
                r@.no_duplicates(),
            decreases self.entries@.len() - i,
        {
            let ghost before = r@;
            if self.entries[i].1 == k {
                let pt = self.entries[i].0;
                proof {
                    if before.contains(pt) {
                        let a = choose|a: int| 0 <= a < before.len() && before[a] == pt;
                        assert(class_upto(self.entries@, k, i as int).contains(before[a]));
                        let w = choose|w: int| 0 <= w < i && #[trigger] self.entries@[w] == (pt, k);
                        assert(self.entries@[w].0 == self.entries@[i as int].0);
                    }
                    assert forall|x: int, y: int| 0 <= x < before.len() + 1 && 0 <= y < before.len() + 1 && x != y implies before.push(
                        pt,
                    )[x] != before.push(pt)[y] by {
                        if x < before.len() {
                            assert(before.contains(before[x]));
                        }
                        if y < before.len() {
                            assert(before.contains(before[y]));
                        }
                    }
                }
                r.push(pt);
            }
            proof {
                assert forall|a: int| 0 <= a < r@.len() implies class_upto(self.entries@, k, i + 1).contains(
                    #[trigger] r@[a],
                ) by {
                    if a < before.len() {
                        assert(class_upto(self.entries@, k, i as int).contains(before[a]));
                        let w = choose|w: int| 0 <= w < i && #[trigger] self.entries@[w] == (before[a], k);
                        assert(self.entries@[w] == (r@[a], k));
                    } else {
                        assert(self.entries@[i as int] == (r@[a], k));
                    }
                }
                assert forall|p: Point| class_upto(self.entries@, k, i + 1).contains(p) implies r@.contains(p) by {
                    let w = choose|w: int| 0 <= w < i + 1 && #[trigger] self.entries@[w] == (p, k);
                    if w < i {
                        assert(class_upto(self.entries@, k, i as int).contains(p));
                        assert(before.contains(p));
                        let a = choose|a: int| 0 <= a < before.len() && before[a] == p;
                        assert(r@[a] == p);
                    } else {
                        assert(r@[r@.len() - 1] == p);
                    }
                }
            }
            i += 1;
        }
        r
    }

    /// The points of the smallest color class: at most a third of all
    /// points.
    pub fn guards(&self) -> (r: Vec<Point>)
        ensures
            r@.no_duplicates(),
            3 * r@.len() <= self@.dom().len(),
            exists|k: usize| #[trigger] is_smallest_class(self@, k, r@),
    {
        let k = self.smallest_class();
        let r = self.class_points(k);
        proof {
            assert(is_smallest_class(self@, k, r@));
        }
        r
    }

    /// The points with their colors, each point once.
    pub fn entries(&self) -> (r: &Vec<(Point, usize)>)
        ensures
            forall|i: int| 0 <= i < r@.len() ==> self@.dom().contains((#[trigger] r@[i]).0) && self@[r@[i].0] == r@[i].1,
            forall|p: Point| self@.dom().contains(p) ==> listed(r@, p),
            forall|i: int, j: int| 0 <= i < j < r@.len() ==> (#[trigger] r@[i]).0 != (#[trigger] r@[j]).0,
    {
        proof {
            use_type_invariant(self);
            assert forall|i: int| 0 <= i < self.entries@.len() implies self@.dom().contains(
                (#[trigger] self.entries@[i]).0,
            ) && self@[self.entries@[i].0] == self.entries@[i].1 by {
                let p = self.entries@[i].0;
                assert(listed(self.entries@, p));
                let w = choose|w: int| 0 <= w < self.entries@.len() && (#[trigger] self.entries@[w]).0 == p;
                assert(w == i);
            }
        }
        &self.entries
    }
}

/// The points that have the color `k` in `c`.
pub open spec fn color_class(c: Map<Point, usize>, k: usize) -> Set<Point> {
    Set::new(|p: Point| c.dom().contains(p) && c[p] == k)
}

/// Whether `s` lists the points of the color `k`, no color of 1, 2 and 3
/// has fewer points, and every smaller color has more.
pub open spec fn is_smallest_class(c: Map<Point, usize>, k: usize, s: Seq<Point>) -> bool {
    &&& 1 <= k <= 3
    &&& forall|p: Point| s.contains(p) <==> #[trigger] color_class(c, k).contains(p)
    &&& forall|j: usize| 1 <= j <= 3 ==> s.len() <= (#[trigger] color_class(c, j)).len()
    &&& forall|j: usize| 1 <= j < k ==> s.len() < (#[trigger] color_class(c, j)).len()
}

/// The number of the first `upto` entries that have the color `k`.
pub open spec fn color_count(entries: Seq<(Point, usize)>, k: usize, upto: int) -> nat
    decreases upto,
{
    if upto <= 0 {
        0
    } else {
        color_count(entries, k, upto - 1) + if entries[upto - 1].1 == k {
            1nat
        } else {
            0nat
        }
    }
}

/// Every entry has one of the three colors, so the three classes share out
/// the entries.
proof fn lemma_counts_add_up(entries: Seq<(Point, usize)>, upto: int)
    requires
        0 <= upto <= entries.len(),
        forall|i: int| 0 <= i < entries.len() ==> 1 <= (#[trigger] entries[i]).1 <= 3,
    ensures
        color_count(entries, 1, upto) + color_count(entries, 2, upto) + color_count(entries, 3, upto) == upto,
    decreases upto,
{
    if upto > 0 {
        lemma_counts_add_up(entries, upto - 1);
        assert(1 <= entries[upto - 1].1 <= 3);
    }
}

/// The points among the first `upto` entries that have the color `k`.
spec fn class_upto(entries: Seq<(Point, usize)>, k: usize, upto: int) -> Set<Point> {
    Set::new(|p: Point| exists|i: int| 0 <= i < upto && #[trigger] entries[i] == (p, k))
}

/// In a list without a point twice, the points of a color are as many as
/// the entries of that color.
proof fn lemma_class_counted(entries: Seq<(Point, usize)>, k: usize, upto: int)
    requires
        0 <= upto <= entries.len(),
        forall|i: int, j: int| 0 <= i < j < entries.len() ==> (#[trigger] entries[i]).0 != (#[trigger] entries[j]).0,
    ensures
        class_upto(entries, k, upto).finite(),
        class_upto(entries, k, upto).len() == color_count(entries, k, upto),
    decreases upto,
{
    let all = class_upto(entries, k, upto);
    if upto == 0 {
        assert(all =~= Set::<Point>::empty());
    } else {
        lemma_class_counted(entries, k, upto - 1);
        let part = class_upto(entries, k, upto - 1);
        let last = entries[upto - 1];
        if last.1 == k {
            assert(!part.contains(last.0)) by {
                if part.contains(last.0) {
                    let i = choose|i: int| 0 <= i < upto - 1 && #[trigger] entries[i] == (last.0, k);
                    assert(entries[i].0 == entries[upto - 1].0);
                }
            }
            assert(all =~= part.insert(last.0)) by {
                assert forall|p: Point| all.contains(p) <==> part.insert(last.0).contains(p) by {
                    if all.contains(p) {
                        let i = choose|i: int| 0 <= i < upto && #[trigger] entries[i] == (p, k);
                        if i < upto - 1 {
                            assert(part.contains(p));
                        }
                    }
                    if part.contains(p) {
                        let i = choose|i: int| 0 <= i < upto - 1 && #[trigger] entries[i] == (p, k);
                        assert(entries[i] == (p, k));
                    }
                    if p == last.0 {
                        assert(entries[upto - 1] == (p, k));
                    }
                }
            }
        } else {
            assert(all =~= part) by {
                assert forall|p: Point| all.contains(p) <==> part.contains(p) by {
                    if all.contains(p) {
                        let i = choose|i: int| 0 <= i < upto && #[trigger] entries[i] == (p, k);
                        assert(i < upto - 1);
                    }
                    if part.contains(p) {
                        let i = choose|i: int| 0 <= i < upto - 1 && #[trigger] entries[i] == (p, k);
                        assert(entries[i] == (p, k));
                    }
                }
            }
        }
    }
}

/// The class of a color in the map of a list is the set of the points that
/// the list gives that color.
proof fn lemma_class_of_view(entries: Seq<(Point, usize)>, k: usize)
    requires
        forall|i: int, j: int| 0 <= i < j < entries.len() ==> (#[trigger] entries[i]).0 != (#[trigger] entries[j]).0,
    ensures
        color_class(Map::new(|p: Point| listed(entries, p), |p: Point| color_in(entries, p)), k) == class_upto(
            entries,
            k,
            entries.len() as int,
        ),
{
    let c = Map::new(|p: Point| listed(entries, p), |p: Point| color_in(entries, p));
    let a = color_class(c, k);
    let b = class_upto(entries, k, entries.len() as int);
    assert forall|p: Point| a.contains(p) <==> b.contains(p) by {
        if a.contains(p) {
            let w = choose|w: int| 0 <= w < entries.len() && (#[trigger] entries[w]).0 == p;
            assert(entries[w] == (p, k));
        }
        if b.contains(p) {
            let i = choose|i: int| 0 <= i < entries.len() && #[trigger] entries[i] == (p, k);
            assert(entries[i].0 == p);
            assert(listed(entries, p));
            let w = choose|w: int| 0 <= w < entries.len() && (#[trigger] entries[w]).0 == p;
            assert(w == i);
        }
    }
    assert(a =~= b);
}

/// A list in which no point occurs twice lists as many points as it is long.
proof fn lemma_entries_counted(entries: Seq<(Point, usize)>)
    requires
        forall|i: int, j: int| 0 <= i < j < entries.len() ==> (#[trigger] entries[i]).0 != (#[trigger] entries[j]).0,
    ensures
        Set::new(|p: Point| listed(entries, p)).finite(),
        Set::new(|p: Point| listed(entries, p)).len() == entries.len(),
    decreases entries.len(),
{
    let all = Set::new(|p: Point| listed(entries, p));
    if entries.len() == 0 {
        assert(all =~= Set::<Point>::empty());
    } else {
        let rest = entries.drop_last();
        let last = entries.last().0;
        lemma_entries_counted(rest);
        let part = Set::new(|p: Point| listed(rest, p));
        assert(!part.contains(last)) by {
            if listed(rest, last) {
                let i = choose|i: int| 0 <= i < rest.len() && (#[trigger] rest[i]).0 == last;
                assert(entries[i].0 == last);
            }
        }
        assert(all =~= part.insert(last)) by {
            assert forall|p: Point| all.contains(p) <==> part.insert(last).contains(p) by {
                if listed(entries, p) {
                    let i = choose|i: int| 0 <= i < entries.len() && (#[trigger] entries[i]).0 == p;
                    if i < rest.len() {
                        assert(rest[i].0 == p);
                    }
                }
                if listed(rest, p) {
                    let i = choose|i: int| 0 <= i < rest.len() && (#[trigger] rest[i]).0 == p;
                    assert(entries[i].0 == p);
                }
                if p == last {
                    assert(entries[entries.len() - 1].0 == p);
                }
            }
        }
    }
}

/// Whether `g` gives the three corners of face `f` three different colors
/// of 1, 2 and 3.
pub open spec fn key_proper_at(m: Mesh, g: Map<DefaultKey, usize>, f: DefaultKey) -> bool {
    let c = m.cycles[f];
    let x = g[m.origin(c[0])];
    let y = g[m.origin(c[1])];
    let z = g[m.origin(c[2])];
    &&& c.len() == 3
    &&& 1 <= x <= 3
    &&& 1 <= y <= 3
    &&& 1 <= z <= 3
    &&& x != y
    &&& y != z
    &&& x != z
}

/// Whether `g` colors the vertices so that every face inside the polygon
/// is a triangle with three colors.
pub open spec fn key_proper(m: Mesh, g: Map<DefaultKey, usize>) -> bool {
    forall|f: DefaultKey| m.internal(f) ==> #[trigger] key_proper_at(m, g, f)
}

/// Whether the vertices can be colored so that every face inside the
/// polygon is a triangle with three colors.
pub open spec fn colorable(m: Mesh) -> bool {
    exists|g: Map<DefaultKey, usize>| #[trigger] key_proper(m, g)
}

/// Whether `sig` changes the colors 1, 2 and 3 about among themselves.
pub open spec fn perm(sig: Map<usize, usize>) -> bool {
    &&& 1 <= sig[1] <= 3
    &&& 1 <= sig[2] <= 3
    &&& 1 <= sig[3] <= 3
    &&& sig[1] != sig[2]
    &&& sig[2] != sig[3]
    &&& sig[1] != sig[3]
}

/// Whether every color in `col` is that of `g`, changed by `sig`.
pub open spec fn consistent(col: Seq<(DefaultKey, usize)>, g: Map<DefaultKey, usize>, sig: Map<usize, usize>) -> bool {
    forall|i: int| 0 <= i < col.len() ==> (#[trigger] col[i]).1 == sig[g[col[i].0]]
}

/// Whether the vertex `k` has a color in `col`.
pub open spec fn has_color(col: Seq<(DefaultKey, usize)>, k: DefaultKey) -> bool {
    exists|i: int| 0 <= i < col.len() && (#[trigger] col[i]).0 == k
}

/// Whether the corners at the places `a` and `b` of face `f` are two, and
/// have colors in `col`.
pub open spec fn primed_at(m: Mesh, col: Seq<(DefaultKey, usize)>, f: DefaultKey, a: int, b: int) -> bool {
    &&& 0 <= a < 3
    &&& 0 <= b < 3
    &&& a != b
    &&& has_color(col, m.origin(m.cycles[f][a]))
    &&& has_color(col, m.origin(m.cycles[f][b]))
}

/// Whether two corners of face `f` have colors in `col`.
pub open spec fn primed(m: Mesh, col: Seq<(DefaultKey, usize)>, f: DefaultKey) -> bool {
    exists|a: int, b: int| #[trigger] primed_at(m, col, f, a, b)
}

/// Whether a face that has been visited lies across a side of face `s`.
pub open spec fn backed(m: Mesh, visited: Seq<DefaultKey>, s: DefaultKey) -> bool {
    exists|t: int| 0 <= t < m.cycles[s].len() && visited.contains(#[trigger] face_across(m, s, t))
}

/// Whether the face across side `t` of face `v`, if it lies inside the
/// polygon, has been visited or waits on the stack.
pub open spec fn side_settled(m: Mesh, visited: Seq<DefaultKey>, stack: Seq<DefaultKey>, v: DefaultKey, t: int) -> bool {
    m.internal(face_across(m, v, t)) ==> visited.contains(face_across(m, v, t)) || stack.contains(
        face_across(m, v, t),
    )
}

/// Whether every face across a side of face `v` is settled.
pub open spec fn settled(m: Mesh, visited: Seq<DefaultKey>, stack: Seq<DefaultKey>, v: DefaultKey) -> bool {
    forall|t: int| 0 <= t < m.cycles[v].len() ==> #[trigger] side_settled(m, visited, stack, v, t)
}

/// Every corner of a triangle with three colors has a color.
proof fn lemma_rainbow_corner(m: Mesh, col: Seq<(DefaultKey, usize)>, f: DefaultKey, u: int)
    requires
        key_rainbow(m, col, f),
        0 <= u < 3,
    ensures
        has_color(col, m.origin(m.cycles[f][u])),
{
    let (a, b, c) = choose|a: int, b: int, c: int| #[trigger] corners_at(m, col, f, a, b, c);
    if u == 0 {
        assert(col[a].0 == m.origin(m.cycles[f][u]));
    } else if u == 1 {
        assert(col[b].0 == m.origin(m.cycles[f][u]));
    } else {
        assert(col[c].0 == m.origin(m.cycles[f][u]));
    }
}

/// A triangle across a side of a colored triangle has two colored corners.
proof fn lemma_backed_primed(m: Mesh, col: Seq<(DefaultKey, usize)>, visited: Seq<DefaultKey>, s: DefaultKey)
    requires
        m.wf(),
        m.internal(s),
        m.cycles[s].len() == 3,
        backed(m, visited, s),
        forall|i: int| 0 <= i < visited.len() ==> m.internal(#[trigger] visited[i]),
        forall|i: int| 0 <= i < visited.len() ==> key_rainbow(m, col, #[trigger] visited[i]),
    ensures
        primed(m, col, s),
{
    let t = choose|t: int| 0 <= t < m.cycles[s].len() && visited.contains(#[trigger] face_across(m, s, t));
    let p = face_across(m, s, t);
    let i = choose|i: int| 0 <= i < visited.len() && visited[i] == p;
    assert(m.internal(visited[i]));
    assert(key_rainbow(m, col, visited[i]));
    assert(m.face_ok(s));
    assert(m.face_ok(p));
    let e = m.cycles[s][t];
    assert(ring_at(m.edges, s, m.cycles[s], t));
    assert(m.edge_ok(e));
    let tw = m.twin(e);
    assert(m.edge_ok(tw));
    let u = choose|u: int| 0 <= u < m.cycles[p].len() && m.cycles[p][u] == tw;
    let u2 = crate::mesh::wrap_next(3, u);
    assert(ring_at(m.edges, p, m.cycles[p], u));
    lemma_rainbow_corner(m, col, p, u);
    lemma_rainbow_corner(m, col, p, u2);
    let t2 = crate::mesh::wrap_next(3, t);
    assert(m.origin(m.cycles[s][t]) == m.origin(m.cycles[p][u2]));
    assert(m.origin(m.cycles[s][t2]) == m.origin(m.cycles[p][u]));
    assert(primed_at(m, col, s, t, t2));
}

/// The colors of `col` as a map.
pub open spec fn key_map(col: Seq<(DefaultKey, usize)>) -> Map<DefaultKey, usize> {
    Map::new(
        |k: DefaultKey| has_color(col, k),
        |k: DefaultKey| col[choose|i: int| 0 <= i < col.len() && (#[trigger] col[i]).0 == k].1,
    )
}

/// Where every face inside the polygon is a triangle with three colors in
/// `col`, the colors of `col` color the vertices as they should.
proof fn lemma_rainbows_proper(m: Mesh, col: Seq<(DefaultKey, usize)>, visited: Seq<DefaultKey>)
    requires
        tidy(col),
        forall|f: DefaultKey| m.internal(f) ==> visited.contains(f),
        forall|a: int| 0 <= a < visited.len() ==> key_rainbow(m, col, #[trigger] visited[a]),
    ensures
        key_proper(m, key_map(col)),
{
    let g = key_map(col);
    assert forall|f: DefaultKey| m.internal(f) implies #[trigger] key_proper_at(m, g, f) by {
        assert(visited.contains(f));
        let i = choose|i: int| 0 <= i < visited.len() && visited[i] == f;
        assert(key_rainbow(m, col, visited[i]));
        let (a, b, c) = choose|a: int, b: int, c: int| #[trigger] corners_at(m, col, f, a, b, c);
        lemma_key_map_at(col, a);
        lemma_key_map_at(col, b);
        lemma_key_map_at(col, c);
    }
}

proof fn lemma_key_map_at(col: Seq<(DefaultKey, usize)>, a: int)
    requires
        tidy(col),
        0 <= a < col.len(),
    ensures
        key_map(col)[col[a].0] == col[a].1,
        1 <= col[a].1 <= 3,
{
    let k = col[a].0;
    assert(has_color(col, k));
    let w = choose|i: int| 0 <= i < col.len() && (#[trigger] col[i]).0 == k;
    if w != a {
        if w < a {
            assert(col[w].0 != col[a].0);
        } else {
            assert(col[a].0 != col[w].0);
        }
    }
}

impl DCEL {
    /// Gives the corners of the face `f` that have no color yet the smallest
    /// colors that the other corners leave free, and tells whether `f` is a
    /// triangle whose corners then have three different colors. It is one
    /// wherever the vertices have a coloring `g` of which the colors given
    /// so far are those of `g`, changed about by `sig`, and two corners of
    /// `f` have their colors; and for the first triangle of all.
    fn color_face(
        &self,
        f: DefaultKey,
        col: &mut Vec<(DefaultKey, usize)>,
        Ghost(g): Ghost<Map<DefaultKey, usize>>,
        Ghost(sig): Ghost<Map<usize, usize>>,
    ) -> (r: (bool, Ghost<Map<usize, usize>>))
        requires
            self.wf(),
            self@.internal(f),
            tidy(old(col)@),
        ensures
            tidy(final(col)@),
            grown(old(col)@, final(col)@),
            r.0 ==> key_rainbow(self@, final(col)@, f),
            key_proper_at(self@, g, f) && old(col)@.len() == 0 ==> r.0 && perm(r.1@) && consistent(
                final(col)@,
                g,
                r.1@,
            ),
            key_proper_at(self@, g, f) && perm(sig) && consistent(old(col)@, g, sig) && primed(self@, old(col)@, f)
                ==> r.0 && r.1@ == sig && consistent(final(col)@, g, sig),
    {
        let corners = self.get_pointkey_list(f);
        if corners.len() != 3 {
            return (false, Ghost(sig));
        }
        proof {
            self@.lemma_corners_differ(f);
            assert(self@.face_ok(f));
        }
        let k0 = corners[0];
        let k1 = corners[1];
        let k2 = corners[2];
        let c0 = lookup(col, k0);
        let c1 = lookup(col, k1);
        let c2 = lookup(col, k2);
        let ghost start = col@;
        let ghost first = key_proper_at(self@, g, f) && start.len() == 0;
        let ghost later = key_proper_at(self@, g, f) && perm(sig) && consistent(start, g, sig) && primed(self@, start, f);
        let ghost sig2 = if start.len() == 0 {
            Map::<usize, usize>::empty().insert(g[k0], 1usize).insert(g[k1], 2usize).insert(g[k2], 3usize)
        } else {
            sig
        };
        let ghost i0 = if c0 is Some {
            choose|i: int| 0 <= i < start.len() && #[trigger] start[i] == (k0, c0->0)
        } else {
            start.len() as int
        };
        proof {
            assert(self@.corners(f)[0] == self@.origin(self@.cycles[f][0]));
            assert(self@.corners(f)[1] == self@.origin(self@.cycles[f][1]));
            assert(self@.corners(f)[2] == self@.origin(self@.cycles[f][2]));
            if later {
                let (a, b) = choose|a: int, b: int| #[trigger] primed_at(self@, start, f, a, b);
                assert(has_color(start, self@.origin(self@.cycles[f][a])));
                assert(has_color(start, self@.origin(self@.cycles[f][b])));
                let ia = choose|i: int| 0 <= i < start.len() && (#[trigger] start[i]).0 == self@.origin(self@.cycles[f][a]);
                let ib = choose|i: int| 0 <= i < start.len() && (#[trigger] start[i]).0 == self@.origin(self@.cycles[f][b]);
                assert(start[ia].0 == corners@[a]);
                assert(start[ib].0 == corners@[b]);
                assert((c0 is Some && c1 is Some) || (c1 is Some && c2 is Some) || (c0 is Some && c2 is Some));
                if c0 is Some {
                    assert(c0->0 == sig[g[k0]]);
                }
                if c1 is Some {
                    let i = choose|i: int| 0 <= i < start.len() && #[trigger] start[i] == (k1, c1->0);
                    assert(c1->0 == sig[g[k1]]);
                }
                if c2 is Some {
                    let i = choose|i: int| 0 <= i < start.len() && #[trigger] start[i] == (k2, c2->0);
                    assert(c2->0 == sig[g[k2]]);
                }
            }
        }
        let mut used1 = is_color(c0, 1) || is_color(c1, 1) || is_color(c2, 1);
        let mut used2 = is_color(c0, 2) || is_color(c1, 2) || is_color(c2, 2);
        let mut used3 = is_color(c0, 3) || is_color(c1, 3) || is_color(c2, 3);
        let a0 = match c0 {
            Some(c) => c,
            None => match smallest_free(used1, used2, used3) {
                None => {
                    return (false, Ghost(sig2));
                },
                Some(c) => {
                    col.push((k0, c));
                    if c == 1 {
                        used1 = true;
                    } else if c == 2 {
                        used2 = true;
                    } else {
                        used3 = true;
                    }
                    c
                },
            },
        };
        let ghost mid1 = col@;
        let ghost i1 = if c1 is Some {
            choose|i: int| 0 <= i < start.len() && #[trigger] start[i] == (k1, c1->0)
        } else {
            mid1.len() as int
        };
        proof {
            assert(first ==> a0 == 1);
            assert(later ==> a0 == sig[g[k0]]);
        }
        let a1 = match c1 {
            Some(c) => c,
            None => match smallest_free(used1, used2, used3) {
                None => {
                    return (false, Ghost(sig2));
                },
                Some(c) => {
                    col.push((k1, c));
                    if c == 1 {
                        used1 = true;
                    } else if c == 2 {
                        used2 = true;
                    } else {
                        used3 = true;
                    }
                    c
                },
            },
        };
        let ghost mid2 = col@;
        let ghost i2 = if c2 is Some {
            choose|i: int| 0 <= i < start.len() && #[trigger] start[i] == (k2, c2->0)
        } else {
            mid2.len() as int
        };
        proof {
            assert(first ==> a1 == 2);
            assert(later ==> a1 == sig[g[k1]]);
        }
        let a2 = match c2 {
            Some(c) => c,
            None => match smallest_free(used1, used2, used3) {
                None => {
                    return (false, Ghost(sig2));
                },
                Some(c) => {
                    col.push((k2, c));
                    c
                },
            },
        };
        proof {
            assert(first ==> a2 == 3);
            assert(later ==> a2 == sig[g[k2]]);
            assert(col@[i0] == (k0, a0));
            assert(col@[i1] == (k1, a1));
            assert(col@[i2] == (k2, a2));
            if first {
                assert(perm(sig2));
                assert(sig2[g[k0]] == 1 && sig2[g[k1]] == 2 && sig2[g[k2]] == 3);
                assert(col@ =~= seq![(k0, a0), (k1, a1), (k2, a2)]);
            }
            if later {
                assert forall|i: int| 0 <= i < col@.len() implies (#[trigger] col@[i]).1 == sig[g[col@[i].0]] by {
                    if i < start.len() {
                        assert(col@[i] == start[i]);
                    } else {
                        assert(col@[i] == (k0, a0) || col@[i] == (k1, a1) || col@[i] == (k2, a2));
                    }
                }
            }
        }
        if a0 == a1 || a1 == a2 || a0 == a2 {
            return (false, Ghost(sig2));
        }
        proof {
            assert(corners_at(self@, col@, f, i0, i1, i2));
        }
        (true, Ghost(sig2))
    }

    /// Puts on the stack the faces inside the polygon that lie across the
    /// sides of the face `f`.
    fn push_neighbours(&self, f: DefaultKey, stack: &mut Vec<DefaultKey>)
        requires
            self.wf(),
            self@.internal(f),
        ensures
            old(stack)@.len() <= final(stack)@.len(),
            forall|i: int| 0 <= i < old(stack)@.len() ==> final(stack)@[i] == old(stack)@[i],
            forall|i: int|
                old(stack)@.len() <= i < final(stack)@.len() ==> self@.internal(#[trigger] final(stack)@[i]) && across(
                    self@,
                    f,
                    final(stack)@[i],
                ),
            forall|t: int|
                0 <= t < self@.cycles[f].len() && self@.internal(#[trigger] face_across(self@, f, t))
                    ==> final(stack)@.contains(face_across(self@, f, t)),
    {
        let cycle = self.face_cycle(f);
        proof {
            assert(self@.face_ok(f));
        }
        let mut t: usize = 0;
        while t < cycle.len()
            invariant
                self.wf(),
                self@.internal(f),
                cycle@ == self@.cycles[f],
                ring(self@.edges, f, cycle@),
                t <= cycle@.len(),
                old(stack)@.len() <= stack@.len(),
                forall|i: int| 0 <= i < old(stack)@.len() ==> stack@[i] == old(stack)@[i],
                forall|i: int|
                    old(stack)@.len() <= i < stack@.len() ==> self@.internal(#[trigger] stack@[i]) && across(
                        self@,
                        f,
                        stack@[i],
                    ),
                forall|u: int|
                    0 <= u < t && self@.internal(#[trigger] face_across(self@, f, u)) ==> stack@.contains(
                        face_across(self@, f, u),
                    ),
            decreases cycle@.len() - t,
        {
            proof {
                assert(ring_at(self@.edges, f, cycle@, t as int));
            }
            let g = self.get_incident_face(self.get_twin_edge(cycle[t]));
            let ghost before = stack@;
            if self.is_internal(g) {
                stack.push(g);
                proof {
                    assert(face_across(self@, f, t as int) == g);
                    assert(stack@[stack@.len() - 1] == g);
                }
            }
            proof {
                assert forall|u: int| 0 <= u < t + 1 && self@.internal(#[trigger] face_across(self@, f, u)) implies stack@.contains(
                    face_across(self@, f, u),
                ) by {
                    if u < t {
                        let w = choose|w: int| 0 <= w < before.len() && before[w] == face_across(self@, f, u);
                        assert(stack@[w] == face_across(self@, f, u));
                    }
                }
            }
            t += 1;
        }
    }

    /// A coloring of the vertices with the colors 1, 2 and 3 in which
    /// every triangle has all three, found by a walk over the faces inside
    /// the polygon, from one face to those across its sides. One comes back
    /// exactly where the faces are triangles that can be so colored: the
    /// walk reaches them all.
    pub fn try_three_color(&self) -> (r: Option<Coloring>)
        requires
            self.wf(),
        ensures
            r is Some <==> colorable(self@),
            r matches Some(c) ==> proper(self@, c@),
    {
        let faces = self.get_internal_faces();
        let total = faces.len();
        proof {
            self.lemma_some_face();
        }
        let ghost m = self@;
        let ghost g = choose|g: Map<DefaultKey, usize>| #[trigger] key_proper(m, g);
        let mut sig: Ghost<Map<usize, usize>> = Ghost(Map::empty());
        let mut col: Vec<(DefaultKey, usize)> = Vec::new();
        let mut visited: Vec<DefaultKey> = Vec::new();
        let mut stack: Vec<DefaultKey> = Vec::new();
        let f0 = faces[0].parent_key;
        stack.push(f0);
        proof {
            assert(stack@ =~= seq![f0]);
        }
        while stack.len() > 0
            invariant
                self.wf(),
                m == self@,
                total == self.face_count(),
                tidy(col@),
                m.internal(f0),
                colorable(m) ==> key_proper(m, g),
                visited@.no_duplicates(),
                visited@.len() <= total,
                forall|i: int| 0 <= i < visited@.len() ==> m.internal(#[trigger] visited@[i]),
                forall|i: int| 0 <= i < visited@.len() ==> key_rainbow(m, col@, #[trigger] visited@[i]),
                forall|i: int| 0 <= i < visited@.len() ==> settled(m, visited@, stack@, #[trigger] visited@[i]),
                forall|i: int| 0 <= i < stack@.len() ==> m.internal(#[trigger] stack@[i]),
                visited@.len() == 0 ==> stack@ == seq![f0] && col@.len() == 0,
                visited@.len() > 0 ==> visited@[0] == f0,
                visited@.len() > 0 ==> forall|i: int| 0 <= i < stack@.len() ==> backed(m, visited@, #[trigger] stack@[i]),
                colorable(m) && visited@.len() > 0 ==> perm(sig@) && consistent(col@, g, sig@),
            decreases total - visited@.len(), stack@.len(),
        {
            let ghost stack0 = stack@;
            let ghost visited0 = visited@;
            let s = match stack.pop() {
                Some(s) => s,
                None => vstd::pervasive::unreached(),
            };
            proof {
                assert(stack0[stack0.len() - 1] == s);
                assert(m.internal(stack0[stack0.len() - 1]));
                assert forall|i: int| 0 <= i < stack@.len() implies stack@[i] == stack0[i] by {}
            }
            if DCEL::position_of(&visited, s).is_none() {
                let ghost before = col@;
                proof {
                    if visited0.len() > 0 {
                        assert(backed(m, visited0, stack0[stack0.len() - 1]));
                    }
                    if colorable(m) {
                        assert(key_proper_at(m, g, s));
                        if visited0.len() > 0 {
                            lemma_backed_primed(m, before, visited0, s);
                        }
                    }
                }
                let res = self.color_face(s, &mut col, Ghost(g), Ghost(sig@));
                if !res.0 {
                    return None;
                }
                proof {
                    sig@ = res.1@;
                    assert forall|i: int| 0 <= i < visited@.len() implies key_rainbow(m, col@, #[trigger] visited@[i]) by {
                        lemma_rainbow_grows(m, before, col@, visited@[i]);
                    }
                    crate::keys::lemma_push_fresh(visited@, s);
                    self.lemma_faces_counted(visited@.push(s));
                }
                visited.push(s);
                let ghost stack1 = stack@;
                self.push_neighbours(s, &mut stack);
                proof {
                    assert(visited@[visited@.len() - 1] == s);
                    assert forall|i: int| 0 <= i < stack@.len() implies m.internal(#[trigger] stack@[i]) && backed(
                        m,
                        visited@,
                        stack@[i],
                    ) by {
                        if i < stack1.len() {
                            assert(stack@[i] == stack0[i]);
                            assert(m.internal(stack0[i]));
                            assert(visited0.len() > 0);
                            assert(backed(m, visited0, stack0[i]));
                            let t = choose|t: int|
                                0 <= t < m.cycles[stack0[i]].len() && visited0.contains(
                                    #[trigger] face_across(m, stack0[i], t),
                                );
                            let w = choose|w: int| 0 <= w < visited0.len() && visited0[w] == face_across(m, stack0[i], t);
                            assert(visited@[w] == face_across(m, stack0[i], t));
                        } else {
                            lemma_across_back(m, s, stack@[i]);
                            let t = choose|t: int| 0 <= t < m.cycles[stack@[i]].len() && #[trigger] face_across(m, stack@[i], t) == s;
                            assert(visited@.contains(face_across(m, stack@[i], t)));
                        }
                    }
                    assert forall|i: int| 0 <= i < visited@.len() implies settled(m, visited@, stack@, #[trigger] visited@[i]) by {
                        let v = visited@[i];
                        assert forall|t: int| 0 <= t < m.cycles[v].len() implies #[trigger] side_settled(
                            m,
                            visited@,
                            stack@,
                            v,
                            t,
                        ) by {
                            let h = face_across(m, v, t);
                            if m.internal(h) {
                                if i < visited0.len() {
                                    assert(settled(m, visited0, stack0, visited0[i]));
                                    assert(side_settled(m, visited0, stack0, v, t));
                                    if visited0.contains(h) {
                                        let w = choose|w: int| 0 <= w < visited0.len() && visited0[w] == h;
                                        assert(visited@[w] == h);
                                    } else {
                                        let w = choose|w: int| 0 <= w < stack0.len() && stack0[w] == h;
                                        if w < stack1.len() {
                                            assert(stack@[w] == h);
                                        } else {
                                            assert(h == s);
                                        }
                                    }
                                } else {
                                    assert(stack@.contains(h));
                                }
                            }
                        }
                    }
                }
            } else {
                proof {
                    assert forall|i: int| 0 <= i < visited@.len() implies settled(m, visited@, stack@, #[trigger] visited@[i]) by {
                        let v = visited@[i];
                        assert(settled(m, visited0, stack0, visited0[i]));
                        assert forall|t: int| 0 <= t < m.cycles[v].len() implies #[trigger] side_settled(
                            m,
                            visited@,
                            stack@,
                            v,
                            t,
                        ) by {
                            let h = face_across(m, v, t);
                            assert(side_settled(m, visited0, stack0, v, t));
                            if m.internal(h) && !visited0.contains(h) {
                                let w = choose|w: int| 0 <= w < stack0.len() && stack0[w] == h;
                                assert(w < stack@.len());
                                assert(stack@[w] == h);
                            }
                        }
                    }
                    assert(visited0.len() > 0);
                    assert forall|i: int| 0 <= i < stack@.len() implies backed(m, visited@, #[trigger] stack@[i]) by {
                        assert(backed(m, visited0, stack0[i]));
                    }
                }
            }
        }
        proof {
            assert(visited@.len() > 0);
            assert(visited@.contains(visited@[0]));
            assert forall|f: DefaultKey, h: DefaultKey|
                visited@.contains(f) && m.internal(h) && #[trigger] across(m, f, h) implies visited@.contains(h) by {
                let i = choose|i: int| 0 <= i < visited@.len() && visited@[i] == f;
                assert(settled(m, visited@, stack@, visited@[i]));
                let t = choose|t: int| 0 <= t < m.cycles[f].len() && #[trigger] face_across(m, f, t) == h;
                assert(side_settled(m, visited@, stack@, f, t));
                if stack@.contains(h) {
                    let w = choose|w: int| 0 <= w < stack@.len() && stack@[w] == h;
                }
            }
            assert(closed_under_across(m, visited@));
        }
        proof {
            assert forall|h: DefaultKey| m.internal(h) implies visited@.contains(h) by {
                assert(reaches(m, f0, h));
                lemma_closed_holds_reached(m, visited@, f0, h);
            }
            self.lemma_faces_covered(visited@);
            lemma_rainbows_proper(m, col@, visited@);
            assert(colorable(m));
        }
        let verts = self.vertices();
        let mut entries: Vec<(Point, usize)> = Vec::new();
        let mut i: usize = 0;
        while i < verts.len()
            invariant
                self.wf(),
                tidy(col@),
                i <= verts@.len(),
                entries@.len() == i,
                forall|f: DefaultKey| self@.internal(f) ==> visited@.contains(f),
                forall|a: int| 0 <= a < visited@.len() ==> key_rainbow(self@, col@, #[trigger] visited@[a]),
                forall|a: int|
                    0 <= a < verts@.len() ==> self@.points.dom().contains((#[trigger] verts@[a]).1)
                        && self@.points[verts@[a].1].point2d == verts@[a].0,
                forall|a: int|
                    0 <= a < i ==> (#[trigger] entries@[a]).0 == verts@[a].0 && exists|j: int|
                        0 <= j < col@.len() && #[trigger] col@[j] == (verts@[a].1, entries@[a].1),
            decreases verts@.len() - i,
        {
            let key = verts[i].1;
            let c = match lookup(&col, key) {
                Some(c) => c,
                None => {
                    proof {
                        lemma_vertex_colored(self@, col@, visited@, key);
                    }
                    vstd::pervasive::unreached()
                },
            };
            entries.push((verts[i].0, c));
            i += 1;
        }
        proof {
            lemma_entries_proper(self@, col@, visited@, verts@, entries@);
            assert forall|a: int| 0 <= a < entries@.len() implies 1 <= (#[trigger] entries@[a]).1 <= 3 by {
                let j = choose|j: int| 0 <= j < col@.len() && #[trigger] col@[j] == (verts@[a].1, entries@[a].1);
                assert(1 <= col@[j].1 <= 3);
            }
        }
        Some(Coloring { entries })
    }

    /// A coloring of the vertices with the colors 1, 2 and 3 in which
    /// every triangle has all three. The faces inside the polygon must be
    /// triangles that can be so colored.
    pub fn three_color(&self) -> (c: Coloring)
        requires
            self.wf(),
            colorable(self@),
        ensures
            proper(self@, c@),
    {
        match self.try_three_color() {
            Some(c) => c,
            None => vstd::pervasive::unreached(),
        }
    }
}

/// Where every face inside the polygon is a triangle with colored corners,
/// every vertex has a color.
proof fn lemma_vertex_colored(m: Mesh, col: Seq<(DefaultKey, usize)>, visited: Seq<DefaultKey>, key: DefaultKey)
    requires
        m.wf(),
        m.points.dom().contains(key),
        forall|f: DefaultKey| m.internal(f) ==> visited.contains(f),
        forall|a: int| 0 <= a < visited.len() ==> key_rainbow(m, col, #[trigger] visited[a]),
    ensures
        exists|j: int| 0 <= j < col.len() && (#[trigger] col[j]).0 == key,
{
    assert(m.point_ok(key));
    let e = m.points[key].incident_edge->0;
    assert(m.edge_ok(e));
    let g = m.face(e);
    assert(m.internal(g));
    assert(visited.contains(g));
    let a = choose|a: int| 0 <= a < visited.len() && visited[a] == g;
    assert(key_rainbow(m, col, visited[a]));
    let (x, y, z) = choose|x: int, y: int, z: int| #[trigger] corners_at(m, col, g, x, y, z);
    let t = choose|t: int| 0 <= t < m.cycles[g].len() && m.cycles[g][t] == e;
    if t == 0 {
        assert(col[x].0 == key);
    } else if t == 1 {
        assert(col[y].0 == key);
    } else {
        assert(col[z].0 == key);
    }
}

/// The colors of the vertices, listed by point, are a proper coloring.
proof fn lemma_entries_proper(
    m: Mesh,
    col: Seq<(DefaultKey, usize)>,
    visited: Seq<DefaultKey>,
    verts: Seq<(Point, DefaultKey)>,
    entries: Seq<(Point, usize)>,
)
    requires
        m.wf(),
        tidy(col),
        forall|f: DefaultKey| m.internal(f) ==> visited.contains(f),
        forall|a: int| 0 <= a < visited.len() ==> key_rainbow(m, col, #[trigger] visited[a]),
        forall|a: int|
            0 <= a < verts.len() ==> m.points.dom().contains((#[trigger] verts[a]).1) && m.points[verts[a].1].point2d
                == verts[a].0,
        forall|k: DefaultKey| m.points.dom().contains(k) ==> exists|i: int| 0 <= i < verts.len() && (#[trigger] verts[i]).1 == k,
        forall|i: int, j: int| 0 <= i < j < verts.len() ==> (#[trigger] verts[i]).1 != (#[trigger] verts[j]).1,
        entries.len() == verts.len(),
        forall|a: int|
            0 <= a < entries.len() ==> (#[trigger] entries[a]).0 == verts[a].0 && exists|j: int|
                0 <= j < col.len() && #[trigger] col[j] == (verts[a].1, entries[a].1),
    ensures
        forall|i: int, j: int| 0 <= i < j < entries.len() ==> (#[trigger] entries[i]).0 != (#[trigger] entries[j]).0,
        proper(m, Map::new(|p: Point| listed(entries, p), |p: Point| color_in(entries, p))),
{
    let c = Map::new(|p: Point| listed(entries, p), |p: Point| color_in(entries, p));
    assert forall|i: int, j: int| 0 <= i < j < entries.len() implies (#[trigger] entries[i]).0 != (#[trigger] entries[j]).0 by {
        assert(m.points[verts[i].1].point2d == verts[i].0);
        assert(m.points[verts[j].1].point2d == verts[j].0);
        assert(verts[i].1 != verts[j].1);
    }
    assert forall|p: Point| #[trigger] c.dom().contains(p) <==> m.has_point(p) by {
        if listed(entries, p) {
            let i = choose|i: int| 0 <= i < entries.len() && (#[trigger] entries[i]).0 == p;
            assert(m.points.dom().contains(verts[i].1));
        }
        if m.has_point(p) {
            let k = choose|k: DefaultKey| #[trigger] m.points.dom().contains(k) && m.points[k].point2d == p;
            let i = choose|i: int| 0 <= i < verts.len() && (#[trigger] verts[i]).1 == k;
            assert(entries[i].0 == p);
        }
    }
    assert forall|p: Point| #[trigger] c.dom().contains(p) implies 1 <= c[p] <= 3 by {
        let i = choose|i: int| 0 <= i < entries.len() && (#[trigger] entries[i]).0 == p;
        let j = choose|j: int| 0 <= j < col.len() && #[trigger] col[j] == (verts[i].1, entries[i].1);
        assert(1 <= col[j].1 <= 3);
    }
    assert forall|f: DefaultKey| m.internal(f) implies #[trigger] rainbow_face(m, c, f) by {
        assert(visited.contains(f));
        let a = choose|a: int| 0 <= a < visited.len() && visited[a] == f;
        assert(key_rainbow(m, col, visited[a]));
        let (x, y, z) = choose|x: int, y: int, z: int| #[trigger] corners_at(m, col, f, x, y, z);
        assert(m.face_ok(f));
        let pts = m.corner_points(f);
        assert(ring_at(m.edges, f, m.cycles[f], 0));
        assert(ring_at(m.edges, f, m.cycles[f], 1));
        assert(ring_at(m.edges, f, m.cycles[f], 2));
        lemma_color_of_key(m, col, verts, entries, m.cycles[f][0], x);
        lemma_color_of_key(m, col, verts, entries, m.cycles[f][1], y);
        lemma_color_of_key(m, col, verts, entries, m.cycles[f][2], z);
    }
}

/// The color listed for the point at the origin of `e` is the color of
/// that vertex.
proof fn lemma_color_of_key(
    m: Mesh,
    col: Seq<(DefaultKey, usize)>,
    verts: Seq<(Point, DefaultKey)>,
    entries: Seq<(Point, usize)>,
    e: DefaultKey,
    x: int,
)
    requires
        m.wf(),
        tidy(col),
        m.edges.dom().contains(e),
        0 <= x < col.len(),
        col[x].0 == m.origin(e),
        forall|a: int|
            0 <= a < verts.len() ==> m.points.dom().contains((#[trigger] verts[a]).1) && m.points[verts[a].1].point2d
                == verts[a].0,
        forall|k: DefaultKey| m.points.dom().contains(k) ==> exists|i: int| 0 <= i < verts.len() && (#[trigger] verts[i]).1 == k,
        forall|i: int, j: int| 0 <= i < j < verts.len() ==> (#[trigger] verts[i]).1 != (#[trigger] verts[j]).1,
        entries.len() == verts.len(),
        forall|a: int|
            0 <= a < entries.len() ==> (#[trigger] entries[a]).0 == verts[a].0 && exists|j: int|
                0 <= j < col.len() && #[trigger] col[j] == (verts[a].1, entries[a].1),
    ensures
        listed(entries, m.points[m.origin(e)].point2d),
        color_in(entries, m.points[m.origin(e)].point2d) == col[x].1,
{
    assert(m.edge_ok(e));
    let k = m.origin(e);
    let p = m.points[k].point2d;
    let i = choose|i: int| 0 <= i < verts.len() && (#[trigger] verts[i]).1 == k;
    assert(entries[i].0 == p);
    let w = choose|w: int| 0 <= w < entries.len() && (#[trigger] entries[w]).0 == p;
    assert(m.points[verts[w].1].point2d == verts[w].0);
    assert(m.points[verts[i].1].point2d == verts[i].0);
    if verts[w].1 != verts[i].1 {
        assert(m.points[verts[w].1].point2d != m.points[verts[i].1].point2d);
    }
    assert(w == i);
    let j = choose|j: int| 0 <= j < col.len() && #[trigger] col[j] == (verts[i].1, entries[i].1);
    assert(j == x);
}

/// Whether the color `c`, if there is one, is `want`.
fn is_color(c: Option<usize>, want: usize) -> (r: bool)
    ensures
        r == (c == Some(want)),
{
    match c {
        Some(v) => v == want,
        None => false,
    }
}

} // verus!

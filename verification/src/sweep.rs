//! The plane sweep that cuts a polygon into trapezoids, and the diagonals
//! that make its pieces monotone.
//!
//! The sweep meets the vertices from the highest to the lowest. Its status is
//! the list of slabs cut by the sweep line, from left to right, each named by
//! the two polygon edges that bound it. Edge `i` runs from vertex `i` to the
//! vertex after it.

use crate::polygon::{
    is_event_order, lemma_event_order_exists, next_index, prev_index, sorted_events, vertex_kind, PointType,
    SimplePolygon,
};
use crate::primitives::{turn, DirEdge, Point, PointOrientation};
use vstd::prelude::*;

verus! {

/// An edge with its endpoints told apart by height.
#[derive(Clone, Copy, Debug)]
pub struct UnorderedEdge {
    pub higher: Point,
    pub lower: Point,
}

/// A trapezoid: its bounding edges, and the vertices at which the sweep
/// opened and closed it, each with its index in the polygon.
#[derive(Clone, Copy, Debug)]
pub struct TrapezoidalizationRecord {
    pub left_edge: (usize, UnorderedEdge),
    pub right_edge: (usize, UnorderedEdge),
    pub top_vertex: (usize, Point),
    pub bottom_vertex: (usize, Point),
}

/// The trapezoids of a polygon, in the order in which the sweep opened them.
#[derive(Debug)]
pub struct Trapezoidalization(Vec<TrapezoidalizationRecord>);

/// A slab while the sweep runs: the edges that bound it, the vertex that
/// opened it and, once known, the vertex that closed it.
#[derive(Clone, Copy, Debug)]
pub struct Staged {
    pub left: usize,
    pub right: usize,
    pub higher: usize,
    pub lower: Option<usize>,
}

/// What the sweep holds between two events.
pub struct SweepState {
    /// The open slabs from left to right, as pairs of left and right edge.
    pub status: Seq<(usize, usize)>,
    /// Every slab opened so far.
    pub staged: Seq<Staged>,
}

/// The higher endpoint of edge `e`.
pub open spec fn edge_top(s: Seq<Point>, e: int) -> Point {
    let a = s[e];
    let b = s[next_index(s.len() as int, e)];
    if a.higher_than(b) {
        a
    } else {
        b
    }
}

/// The lower endpoint of edge `e`.
pub open spec fn edge_bottom(s: Seq<Point>, e: int) -> Point {
    let a = s[e];
    let b = s[next_index(s.len() as int, e)];
    if a.higher_than(b) {
        b
    } else {
        a
    }
}

/// Whether `p` lies strictly to the left of the line from `top` down to
/// `bottom`; nothing when the three are collinear.
pub open spec fn side_of(top: Point, bottom: Point, p: Point) -> Option<bool> {
    match turn(top, bottom, p) {
        PointOrientation::Clockwise => Some(true),
        PointOrientation::Counterclockwise => Some(false),
        PointOrientation::Collinear => None,
    }
}

/// Whether `p` lies strictly to the left of edge `e`.
pub open spec fn left_of_edge(s: Seq<Point>, e: int, p: Point) -> Option<bool> {
    side_of(edge_top(s, e), edge_bottom(s, e), p)
}

/// Where a slab opened at `p` enters the status: before the first slab, from
/// `from` on, whose left edge has `p` on its left, or at the end.
pub open spec fn start_slot(s: Seq<Point>, status: Seq<(usize, usize)>, p: Point, from: int) -> Option<int>
    decreases status.len() - from,
{
    if from < 0 || from >= status.len() {
        Some(status.len() as int)
    } else {
        match left_of_edge(s, status[from].0 as int, p) {
            None => None,
            Some(true) => Some(from),
            Some(false) => start_slot(s, status, p, from + 1),
        }
    }
}

/// The first slab, from `from` on, that holds `p` strictly inside: `p` is
/// right of its left edge and left of its right edge.
pub open spec fn split_slot(s: Seq<Point>, status: Seq<(usize, usize)>, p: Point, from: int) -> Option<int>
    decreases status.len() - from,
{
    if from < 0 || from >= status.len() {
        None
    } else {
        match left_of_edge(s, status[from].0 as int, p) {
            None => None,
            Some(true) => split_slot(s, status, p, from + 1),
            Some(false) => match left_of_edge(s, status[from].1 as int, p) {
                None => None,
                Some(true) => Some(from),
                Some(false) => split_slot(s, status, p, from + 1),
            },
        }
    }
}

/// The first slab, from `from` on, whose right edge is `e`.
pub open spec fn slot_with_right(status: Seq<(usize, usize)>, e: usize, from: int) -> Option<int>
    decreases status.len() - from,
{
    if from < 0 || from >= status.len() {
        None
    } else if status[from].1 == e {
        Some(from)
    } else {
        slot_with_right(status, e, from + 1)
    }
}

/// The first slab, from `from` on, that the chain through a regular vertex
/// bounds: its right edge is `curr`, or its left edge is `prev`.
pub open spec fn regular_slot(status: Seq<(usize, usize)>, curr: usize, prev: usize, from: int) -> Option<int>
    decreases status.len() - from,
{
    if from < 0 || from >= status.len() {
        None
    } else if status[from].1 == curr || status[from].0 == prev {
        Some(from)
    } else {
        regular_slot(status, curr, prev, from + 1)
    }
}

/// The place, from `from` on, of the slab bounded by `left` and `right` among
/// those opened so far.
pub open spec fn staged_index(staged: Seq<Staged>, left: usize, right: usize, from: int) -> Option<int>
    decreases staged.len() - from,
{
    if from < 0 || from >= staged.len() {
        None
    } else if staged[from].left == left && staged[from].right == right {
        Some(from)
    } else {
        staged_index(staged, left, right, from + 1)
    }
}

/// Opens the slab between `left` and `right` at vertex `at`. A pair of edges
/// bounds at most one slab during a sweep.
pub open spec fn stage_open(staged: Seq<Staged>, left: usize, right: usize, at: usize) -> Option<Seq<Staged>> {
    match staged_index(staged, left, right, 0) {
        Some(_) => None,
        None => Some(staged.push(Staged { left, right, higher: at, lower: None })),
    }
}

/// Closes the slab between `left` and `right` at vertex `at`. The slab must
/// be open.
pub open spec fn stage_close(staged: Seq<Staged>, left: usize, right: usize, at: usize) -> Option<Seq<Staged>> {
    match staged_index(staged, left, right, 0) {
        None => None,
        Some(k) => if staged[k].lower is None {
            Some(staged.update(k, Staged { left, right, higher: staged[k].higher, lower: Some(at) }))
        } else {
            None
        },
    }
}

/// A start vertex opens a slab between its two edges.
pub open spec fn start_step(s: Seq<Point>, st: SweepState, curr: usize) -> Option<SweepState> {
    let prev = prev_index(s.len() as int, curr as int) as usize;
    match start_slot(s, st.status, s[curr as int], 0) {
        None => None,
        Some(k) => match stage_open(st.staged, curr, prev, curr) {
            None => None,
            Some(g) => Some(SweepState { status: st.status.insert(k, (curr, prev)), staged: g }),
        },
    }
}

/// A split vertex closes the slab that holds it and opens one on each side.
pub open spec fn split_step(s: Seq<Point>, st: SweepState, curr: usize) -> Option<SweepState> {
    let prev = prev_index(s.len() as int, curr as int) as usize;
    match split_slot(s, st.status, s[curr as int], 0) {
        None => None,
        Some(k) => {
            let (ll, rr) = st.status[k];
            match stage_close(st.staged, ll, rr, curr) {
                None => None,
                Some(g1) => match stage_open(g1, curr, rr, curr) {
                    None => None,
                    Some(g2) => match stage_open(g2, ll, prev, curr) {
                        None => None,
                        Some(g3) => Some(
                            SweepState {
                                status: st.status.update(k, (ll, prev)).insert(k + 1, (curr, rr)),
                                staged: g3,
                            },
                        ),
                    },
                },
            }
        },
    }
}

/// A merge vertex closes the two slabs that meet at it and opens the slab
/// that joins them.
pub open spec fn merge_step(s: Seq<Point>, st: SweepState, curr: usize) -> Option<SweepState> {
    let prev = prev_index(s.len() as int, curr as int) as usize;
    match slot_with_right(st.status, curr, 0) {
        None => None,
        Some(k) => if k + 1 < st.status.len() && st.status[k + 1].0 == prev {
            let (ll, lr) = st.status[k];
            let (rl, rr) = st.status[k + 1];
            match stage_close(st.staged, rl, rr, curr) {
                None => None,
                Some(g1) => match stage_close(g1, ll, lr, curr) {
                    None => None,
                    Some(g2) => match stage_open(g2, ll, rr, curr) {
                        None => None,
                        Some(g3) => Some(
                            SweepState {
                                status: st.status.remove(k + 1).update(k, (ll, rr)),
                                staged: g3,
                            },
                        ),
                    },
                },
            }
        } else {
            None
        },
    }
}

/// An end vertex closes the slab between its two edges.
pub open spec fn end_step(s: Seq<Point>, st: SweepState, curr: usize) -> Option<SweepState> {
    let prev = prev_index(s.len() as int, curr as int) as usize;
    match slot_with_right(st.status, curr, 0) {
        None => None,
        Some(k) => if st.status[k].0 == prev {
            match stage_close(st.staged, prev, curr, curr) {
                None => None,
                Some(g) => Some(SweepState { status: st.status.remove(k), staged: g }),
            }
        } else {
            None
        },
    }
}

/// A regular vertex closes the slab that its upper edge bounds and opens the
/// slab that its lower edge bounds, on the same side.
pub open spec fn regular_step(s: Seq<Point>, st: SweepState, curr: usize) -> Option<SweepState> {
    let prev = prev_index(s.len() as int, curr as int) as usize;
    match regular_slot(st.status, curr, prev, 0) {
        None => None,
        Some(k) => {
            let (left, right) = st.status[k];
            if right == curr {
                match stage_close(st.staged, left, curr, curr) {
                    None => None,
                    Some(g1) => match stage_open(g1, left, prev, curr) {
                        None => None,
                        Some(g2) => Some(
                            SweepState { status: st.status.update(k, (left, prev)), staged: g2 },
                        ),
                    },
                }
            } else {
                match stage_close(st.staged, prev, right, curr) {
                    None => None,
                    Some(g1) => match stage_open(g1, curr, right, curr) {
                        None => None,
                        Some(g2) => Some(
                            SweepState { status: st.status.update(k, (curr, right)), staged: g2 },
                        ),
                    },
                }
            }
        },
    }
}

/// The state after the sweep has met vertex `curr`; nothing when the status
/// does not hold the slabs that the class of the vertex calls for.
pub open spec fn sweep_step(s: Seq<Point>, st: SweepState, curr: usize) -> Option<SweepState> {
    match vertex_kind(s, curr as int) {
        PointType::Start => start_step(s, st, curr),
        PointType::Split => split_step(s, st, curr),
        PointType::Merge => merge_step(s, st, curr),
        PointType::End => end_step(s, st, curr),
        PointType::Regular => regular_step(s, st, curr),
    }
}

/// The state after the first `k` events of `ev`.
pub open spec fn sweep_prefix(s: Seq<Point>, ev: Seq<usize>, k: int) -> Option<SweepState>
    decreases k,
{
    if k <= 0 {
        Some(SweepState { status: Seq::empty(), staged: Seq::empty() })
    } else {
        match sweep_prefix(s, ev, k - 1) {
            None => None,
            Some(st) => sweep_step(s, st, ev[k - 1]),
        }
    }
}

/// Edge `e` with its endpoints told apart.
pub open spec fn edge_points(s: Seq<Point>, e: int) -> UnorderedEdge {
    UnorderedEdge { higher: edge_top(s, e), lower: edge_bottom(s, e) }
}

/// The trapezoid of a closed slab.
pub open spec fn record_of(s: Seq<Point>, g: Staged) -> TrapezoidalizationRecord {
    TrapezoidalizationRecord {
        left_edge: (g.left, edge_points(s, g.left as int)),
        right_edge: (g.right, edge_points(s, g.right as int)),
        top_vertex: (g.higher, s[g.higher as int]),
        bottom_vertex: (g.lower->0, s[g.lower->0 as int]),
    }
}

/// The trapezoids that the sweep over the events `ev` leaves; nothing when
/// the sweep fails at some event or leaves a slab open.
pub open spec fn trapezoids_over(s: Seq<Point>, ev: Seq<usize>) -> Option<Seq<TrapezoidalizationRecord>> {
    match sweep_prefix(s, ev, ev.len() as int) {
        None => None,
        Some(st) => if forall|i: int| 0 <= i < st.staged.len() ==> (#[trigger] st.staged[i]).lower is Some {
            Some(Seq::new(st.staged.len(), |i: int| record_of(s, st.staged[i])))
        } else {
            None
        },
    }
}

/// The order in which a sweep meets the vertices of `s`: from the highest
/// down.
pub open spec fn events_of(s: Seq<Point>) -> Seq<usize> {
    sorted_events(s, s.len() as int)
}

/// The trapezoids of the polygon `s`.
pub open spec fn trapezoids_of(s: Seq<Point>) -> Option<Seq<TrapezoidalizationRecord>> {
    trapezoids_over(s, events_of(s))
}

/// Whether every index that the records name is below `n`.
pub open spec fn records_in_range(n: int, recs: Seq<TrapezoidalizationRecord>) -> bool {
    forall|i: int|
        0 <= i < recs.len() ==> {
            &&& (#[trigger] recs[i]).left_edge.0 < n
            &&& recs[i].right_edge.0 < n
            &&& recs[i].top_vertex.0 < n
            &&& recs[i].bottom_vertex.0 < n
        }
}

/// Whether a trapezoid calls for a diagonal: its top is a merge vertex or
/// its bottom is a split vertex.
pub open spec fn needs_diagonal(s: Seq<Point>, t: TrapezoidalizationRecord) -> bool {
    vertex_kind(s, t.top_vertex.0 as int) == PointType::Merge || vertex_kind(s, t.bottom_vertex.0 as int)
        == PointType::Split
}

/// The diagonals called for by the first `k` trapezoids, each from the top
/// vertex of its trapezoid to the bottom vertex.
pub open spec fn monotone_diagonals(s: Seq<Point>, recs: Seq<TrapezoidalizationRecord>, k: int) -> Seq<DirEdge>
    decreases k,
{
    if k <= 0 {
        Seq::empty()
    } else if needs_diagonal(s, recs[k - 1]) {
        monotone_diagonals(s, recs, k - 1).push(
            DirEdge { start: recs[k - 1].top_vertex.1, end: recs[k - 1].bottom_vertex.1 },
        )
    } else {
        monotone_diagonals(s, recs, k - 1)
    }
}

/// Whether all edge and vertex indices of a sweep state are below `n`.
pub open spec fn state_in_range(n: int, status: Seq<(usize, usize)>, staged: Seq<Staged>) -> bool {
    &&& forall|i: int| 0 <= i < status.len() ==> (#[trigger] status[i]).0 < n && status[i].1 < n
    &&& forall|i: int|
        0 <= i < staged.len() ==> {
            &&& (#[trigger] staged[i]).left < n
            &&& staged[i].right < n
            &&& staged[i].higher < n
            &&& (staged[i].lower matches Some(b) ==> b < n)
        }
}

/// Two event orders of the same distinct points agree up to `k`.
proof fn lemma_event_order_prefix(s: Seq<Point>, a: Seq<usize>, b: Seq<usize>, k: int)
    requires
        s.no_duplicates(),
        is_event_order(s, a),
        is_event_order(s, b),
        0 <= k <= s.len(),
    ensures
        forall|j: int| 0 <= j < k ==> a[j] == b[j],
    decreases k,
{
    if k > 0 {
        lemma_event_order_prefix(s, a, b, k - 1);
        let j = k - 1;
        if a[j] != b[j] {
            assert(a[j] < s.len());
            assert(b[j] < s.len());
            assert(b.contains(a[j]));
            let m = choose|m: int| 0 <= m < b.len() && b[m] == a[j];
            assert(a.contains(b[j]));
            let m2 = choose|m2: int| 0 <= m2 < a.len() && a[m2] == b[j];
            if m < j {
                assert(a[m] == b[m]);
                assert(s[a[m] as int].higher_than(s[a[j] as int]));
            } else {
                assert(s[b[j] as int].higher_than(s[b[m] as int]));
                if m2 < j {
                    assert(a[m2] == b[m2]);
                    assert(s[b[m2] as int].higher_than(s[b[j] as int]));
                } else {
                    assert(s[a[j] as int].higher_than(s[a[m2] as int]));
                }
            }
        }
    }
}

/// Distinct points have one event order.
pub proof fn lemma_event_order_unique(s: Seq<Point>, a: Seq<usize>, b: Seq<usize>)
    requires
        s.no_duplicates(),
        is_event_order(s, a),
        is_event_order(s, b),
    ensures
        a == b,
{
    lemma_event_order_prefix(s, a, b, s.len() as int);
    assert(a =~= b);
}

/// Once the sweep has failed it stays failed.
proof fn lemma_sweep_stays_failed(s: Seq<Point>, ev: Seq<usize>, k: int, m: int)
    requires
        0 <= k <= m,
        sweep_prefix(s, ev, k) is None,
    ensures
        sweep_prefix(s, ev, m) is None,
    decreases m - k,
{
    if k < m {
        lemma_sweep_stays_failed(s, ev, k, m - 1);
    }
}

/// The place of the slab bounded by `left` and `right` among those opened.
fn find_staged(staged: &Vec<Staged>, left: usize, right: usize) -> (r: Option<usize>)
    ensures
        r matches Some(k) ==> staged_index(staged@, left, right, 0) == Some(k as int) && k < staged@.len()
            && staged@[k as int].left == left && staged@[k as int].right == right,
        r is None ==> staged_index(staged@, left, right, 0) is None,
{
    let mut i: usize = 0;
    while i < staged.len()
        invariant
            i <= staged@.len(),
            staged_index(staged@, left, right, 0) == staged_index(staged@, left, right, i as int),
        decreases staged@.len() - i,
    {
        if staged[i].left == left && staged[i].right == right {
            return Some(i);
        }
        i += 1;
    }
    None
}

/// Opens a slab; fails, leaving the list as it was, when the two edges
/// already bound one.
fn open_slab(staged: &mut Vec<Staged>, left: usize, right: usize, at: usize) -> (ok: bool)
    ensures
        ok == stage_open(old(staged)@, left, right, at).is_some(),
        ok ==> stage_open(old(staged)@, left, right, at) == Some(final(staged)@),
        !ok ==> final(staged)@ == old(staged)@,
{
    match find_staged(staged, left, right) {
        Some(_) => false,
        None => {
            staged.push(Staged { left, right, higher: at, lower: None });
            true
        },
    }
}

/// Closes a slab; fails, leaving the list as it was, unless the slab is open.
fn close_slab(staged: &mut Vec<Staged>, left: usize, right: usize, at: usize) -> (ok: bool)
    ensures
        ok == stage_close(old(staged)@, left, right, at).is_some(),
        ok ==> stage_close(old(staged)@, left, right, at) == Some(final(staged)@),
        !ok ==> final(staged)@ == old(staged)@,
{
    match find_staged(staged, left, right) {
        None => false,
        Some(k) => {
            let g = staged[k];
            if g.lower.is_none() {
                staged.set(k, Staged { left, right, higher: g.higher, lower: Some(at) });
                true
            } else {
                false
            }
        },
    }
}

proof fn lemma_open_in_range(n: int, status: Seq<(usize, usize)>, staged: Seq<Staged>, left: usize, right: usize, at: usize)
    requires
        state_in_range(n, status, staged),
        left < n,
        right < n,
        at < n,
        stage_open(staged, left, right, at) is Some,
    ensures
        state_in_range(n, status, stage_open(staged, left, right, at)->0),
{
    let g = stage_open(staged, left, right, at)->0;
    assert forall|i: int| 0 <= i < g.len() implies {
        &&& (#[trigger] g[i]).left < n
        &&& g[i].right < n
        &&& g[i].higher < n
        &&& (g[i].lower matches Some(b) ==> b < n)
    } by {
        if i < staged.len() {
            assert(g[i] == staged[i]);
        }
    }
}

proof fn lemma_staged_index_bounds(staged: Seq<Staged>, left: usize, right: usize, from: int)
    requires
        0 <= from,
    ensures
        staged_index(staged, left, right, from) matches Some(k) ==> from <= k < staged.len()
            && staged[k].left == left && staged[k].right == right,
    decreases staged.len() - from,
{
    if from < staged.len() && !(staged[from].left == left && staged[from].right == right) {
        lemma_staged_index_bounds(staged, left, right, from + 1);
    }
}

proof fn lemma_close_in_range(n: int, status: Seq<(usize, usize)>, staged: Seq<Staged>, left: usize, right: usize, at: usize)
    requires
        state_in_range(n, status, staged),
        at < n,
        stage_close(staged, left, right, at) is Some,
    ensures
        state_in_range(n, status, stage_close(staged, left, right, at)->0),
{
    let g = stage_close(staged, left, right, at)->0;
    lemma_staged_index_bounds(staged, left, right, 0);
    let k = staged_index(staged, left, right, 0)->0;
    assert forall|i: int| 0 <= i < g.len() implies {
        &&& (#[trigger] g[i]).left < n
        &&& g[i].right < n
        &&& g[i].higher < n
        &&& (g[i].lower matches Some(b) ==> b < n)
    } by {
        if i != k {
            assert(g[i] == staged[i]);
        } else {
            assert(staged[k].left < n);
        }
    }
}

/// The first slab whose right edge is `e`.
fn find_right(status: &Vec<(usize, usize)>, e: usize) -> (r: Option<usize>)
    ensures
        r matches Some(k) ==> slot_with_right(status@, e, 0) == Some(k as int) && k < status@.len(),
        r is None ==> slot_with_right(status@, e, 0) is None,
{
    let mut k: usize = 0;
    while k < status.len()
        invariant
            k <= status@.len(),
            slot_with_right(status@, e, 0) == slot_with_right(status@, e, k as int),
        decreases status@.len() - k,
    {
        if status[k].1 == e {
            return Some(k);
        }
        k += 1;
    }
    None
}

impl View for Trapezoidalization {
    type V = Seq<TrapezoidalizationRecord>;

    closed spec fn view(&self) -> Seq<TrapezoidalizationRecord> {
        self.0@
    }
}

impl Trapezoidalization {
    /// The trapezoids, in the order in which the sweep opened them.
    pub fn records(&self) -> (r: &Vec<TrapezoidalizationRecord>)
        ensures
            r@ == self@,
    {
        &self.0
    }
}

impl SimplePolygon {
    /// Edge `e` with its endpoints told apart by height.
    fn get_edgepoints(&self, e: usize) -> (r: UnorderedEdge)
        requires
            e < self@.len(),
        ensures
            r == edge_points(self@, e as int),
    {
        let pts = self.get_point_list();
        let p1 = pts[e];
        let p2 = pts[self.get_next_index(e)];
        if p1.is_higher_than(&p2) {
            UnorderedEdge { higher: p1, lower: p2 }
        } else {
            UnorderedEdge { higher: p2, lower: p1 }
        }
    }

    /// Whether `p` lies strictly to the left of edge `e`; nothing when `p`
    /// is collinear with the edge.
    fn on_left(&self, e: usize, p: &Point) -> (r: Option<bool>)
        requires
            e < self@.len(),
        ensures
            r == left_of_edge(self@, e as int, *p),
    {
        let ep = self.get_edgepoints(e);
        match Point::orientation(&ep.higher, &ep.lower, p) {
            PointOrientation::Counterclockwise => Some(false),
            PointOrientation::Clockwise => Some(true),
            PointOrientation::Collinear => None,
        }
    }

    fn start_event(&self, status: &mut Vec<(usize, usize)>, staged: &mut Vec<Staged>, curr: usize) -> (ok: bool)
        requires
            curr < self@.len(),
            state_in_range(self@.len() as int, old(status)@, old(staged)@),
        ensures
            ok == start_step(self@, (SweepState { status: old(status)@, staged: old(staged)@ }), curr).is_some(),
            ok ==> start_step(self@, (SweepState { status: old(status)@, staged: old(staged)@ }), curr) == Some(
                (SweepState { status: final(status)@, staged: final(staged)@ }),
            ),
            ok ==> state_in_range(self@.len() as int, final(status)@, final(staged)@),
    {
        let pts = self.get_point_list();
        let p = pts[curr];
        let prev = self.get_prev_index(curr);
        let mut k: usize = 0;
        let mut found = false;
        while !found && k < status.len()
            invariant
                pts@ == self@,
                curr < self@.len(),
                p == self@[curr as int],
                k <= status@.len(),
                status@ == old(status)@,
                state_in_range(self@.len() as int, status@, old(staged)@),
                !found ==> start_slot(self@, status@, p, 0) == start_slot(self@, status@, p, k as int),
                found ==> start_slot(self@, status@, p, 0) == Some(k as int) && k < status@.len(),
            decreases status@.len() - k + (if found { 0int } else { 1int }),
        {
            match self.on_left(status[k].0, &p) {
                None => {
                    return false;
                },
                Some(true) => {
                    found = true;
                },
                Some(false) => {
                    k += 1;
                },
            }
        }
        let ghost st0 = status@;
        let ghost g0 = staged@;
        if !open_slab(staged, curr, prev, curr) {
            return false;
        }
        status.insert(k, (curr, prev));
        proof {
            lemma_open_in_range(self@.len() as int, st0, g0, curr, prev, curr);
            assert forall|i: int| 0 <= i < status@.len() implies (#[trigger] status@[i]).0 < self@.len()
                && status@[i].1 < self@.len() by {
                if i < k {
                    assert(status@[i] == st0[i]);
                } else if i > k {
                    assert(status@[i] == st0[i - 1]);
                }
            }
        }
        true
    }

    fn split_event(&self, status: &mut Vec<(usize, usize)>, staged: &mut Vec<Staged>, curr: usize) -> (ok: bool)
        requires
            curr < self@.len(),
            state_in_range(self@.len() as int, old(status)@, old(staged)@),
        ensures
            ok == split_step(self@, (SweepState { status: old(status)@, staged: old(staged)@ }), curr).is_some(),
            ok ==> split_step(self@, (SweepState { status: old(status)@, staged: old(staged)@ }), curr) == Some(
                (SweepState { status: final(status)@, staged: final(staged)@ }),
            ),
            ok ==> state_in_range(self@.len() as int, final(status)@, final(staged)@),
    {
        let pts = self.get_point_list();
        let p = pts[curr];
        let prev = self.get_prev_index(curr);
        let mut k: usize = 0;
        let mut found = false;
        while !found && k < status.len()
            invariant
                pts@ == self@,
                curr < self@.len(),
                p == self@[curr as int],
                k <= status@.len(),
                status@ == old(status)@,
                state_in_range(self@.len() as int, status@, old(staged)@),
                !found ==> split_slot(self@, status@, p, 0) == split_slot(self@, status@, p, k as int),
                found ==> split_slot(self@, status@, p, 0) == Some(k as int) && k < status@.len(),
            decreases status@.len() - k + (if found { 0int } else { 1int }),
        {
            match self.on_left(status[k].0, &p) {
                None => {
                    return false;
                },
                Some(true) => {
                    k += 1;
                },
                Some(false) => match self.on_left(status[k].1, &p) {
                    None => {
                        return false;
                    },
                    Some(true) => {
                        found = true;
                    },
                    Some(false) => {
                        k += 1;
                    },
                },
            }
        }
        if !found {
            return false;
        }
        let ll = status[k].0;
        let rr = status[k].1;
        let ghost n = self@.len() as int;
        let ghost st0 = status@;
        let ghost g0 = staged@;
        if !close_slab(staged, ll, rr, curr) {
            return false;
        }
        let ghost g1 = staged@;
        if !open_slab(staged, curr, rr, curr) {
            return false;
        }
        let ghost g2 = staged@;
        if !open_slab(staged, ll, prev, curr) {
            return false;
        }
        status.set(k, (ll, prev));
        status.insert(k + 1, (curr, rr));
        proof {
            lemma_close_in_range(n, st0, g0, ll, rr, curr);
            lemma_open_in_range(n, st0, g1, curr, rr, curr);
            lemma_open_in_range(n, st0, g2, ll, prev, curr);
            assert forall|i: int| 0 <= i < status@.len() implies (#[trigger] status@[i]).0 < n && status@[i].1 < n by {
                if i < k {
                    assert(status@[i] == st0[i]);
                } else if i > k + 1 {
                    assert(status@[i] == st0[i - 1]);
                }
            }
        }
        true
    }

    fn merge_event(&self, status: &mut Vec<(usize, usize)>, staged: &mut Vec<Staged>, curr: usize) -> (ok: bool)
        requires
            curr < self@.len(),
            state_in_range(self@.len() as int, old(status)@, old(staged)@),
        ensures
            ok == merge_step(self@, (SweepState { status: old(status)@, staged: old(staged)@ }), curr).is_some(),
            ok ==> merge_step(self@, (SweepState { status: old(status)@, staged: old(staged)@ }), curr) == Some(
                (SweepState { status: final(status)@, staged: final(staged)@ }),
            ),
            ok ==> state_in_range(self@.len() as int, final(status)@, final(staged)@),
    {
        let prev = self.get_prev_index(curr);
        let k = match find_right(status, curr) {
            None => {
                return false;
            },
            Some(k) => k,
        };
        if k >= status.len() - 1 || status[k + 1].0 != prev {
            return false;
        }
        let ll = status[k].0;
        let lr = status[k].1;
        let rl = status[k + 1].0;
        let rr = status[k + 1].1;
        let ghost n = self@.len() as int;
        let ghost st0 = status@;
        let ghost g0 = staged@;
        if !close_slab(staged, rl, rr, curr) {
            return false;
        }
        let ghost g1 = staged@;
        if !close_slab(staged, ll, lr, curr) {
            return false;
        }
        let ghost g2 = staged@;
        if !open_slab(staged, ll, rr, curr) {
            return false;
        }
        status.remove(k + 1);
        status.set(k, (ll, rr));
        proof {
            lemma_close_in_range(n, st0, g0, rl, rr, curr);
            lemma_close_in_range(n, st0, g1, ll, lr, curr);
            lemma_open_in_range(n, st0, g2, ll, rr, curr);
            assert forall|i: int| 0 <= i < status@.len() implies (#[trigger] status@[i]).0 < n && status@[i].1 < n by {
                if i < k {
                    assert(status@[i] == st0[i]);
                } else if i > k {
                    assert(status@[i] == st0[i + 1]);
                }
            }
        }
        true
    }

    fn end_event(&self, status: &mut Vec<(usize, usize)>, staged: &mut Vec<Staged>, curr: usize) -> (ok: bool)
        requires
            curr < self@.len(),
            state_in_range(self@.len() as int, old(status)@, old(staged)@),
        ensures
            ok == end_step(self@, (SweepState { status: old(status)@, staged: old(staged)@ }), curr).is_some(),
            ok ==> end_step(self@, (SweepState { status: old(status)@, staged: old(staged)@ }), curr) == Some(
                (SweepState { status: final(status)@, staged: final(staged)@ }),
            ),
            ok ==> state_in_range(self@.len() as int, final(status)@, final(staged)@),
    {
        let prev = self.get_prev_index(curr);
        let k = match find_right(status, curr) {
            None => {
                return false;
            },
            Some(k) => k,
        };
        if status[k].0 != prev {
            return false;
        }
        let ghost n = self@.len() as int;
        let ghost st0 = status@;
        let ghost g0 = staged@;
        if !close_slab(staged, prev, curr, curr) {
            return false;
        }
        status.remove(k);
        proof {
            lemma_close_in_range(n, st0, g0, prev, curr, curr);
            assert forall|i: int| 0 <= i < status@.len() implies (#[trigger] status@[i]).0 < n && status@[i].1 < n by {
                if i < k {
                    assert(status@[i] == st0[i]);
                } else {
                    assert(status@[i] == st0[i + 1]);
                }
            }
        }
        true
    }

    fn regular_event(&self, status: &mut Vec<(usize, usize)>, staged: &mut Vec<Staged>, curr: usize) -> (ok: bool)
        requires
            curr < self@.len(),
            state_in_range(self@.len() as int, old(status)@, old(staged)@),
        ensures
            ok == regular_step(self@, (SweepState { status: old(status)@, staged: old(staged)@ }), curr).is_some(),
            ok ==> regular_step(self@, (SweepState { status: old(status)@, staged: old(staged)@ }), curr) == Some(
                (SweepState { status: final(status)@, staged: final(staged)@ }),
            ),
            ok ==> state_in_range(self@.len() as int, final(status)@, final(staged)@),
    {
        let prev = self.get_prev_index(curr);
        let mut k: usize = 0;
        while k < status.len() && !(status[k].1 == curr || status[k].0 == prev)
            invariant
                k <= status@.len(),
                status@ == old(status)@,
                regular_slot(status@, curr, prev, 0) == regular_slot(status@, curr, prev, k as int),
            decreases status@.len() - k,
        {
            k += 1;
        }
        if k >= status.len() {
            return false;
        }
        let left = status[k].0;
        let right = status[k].1;
        let ghost n = self@.len() as int;
        let ghost st0 = status@;
        let ghost g0 = staged@;
        if right == curr {
            if !close_slab(staged, left, curr, curr) {
                return false;
            }
            let ghost g1 = staged@;
            if !open_slab(staged, left, prev, curr) {
                return false;
            }
            status.set(k, (left, prev));
            proof {
                lemma_close_in_range(n, st0, g0, left, curr, curr);
                lemma_open_in_range(n, st0, g1, left, prev, curr);
            }
        } else {
            if !close_slab(staged, prev, right, curr) {
                return false;
            }
            let ghost g1 = staged@;
            if !open_slab(staged, curr, right, curr) {
                return false;
            }
            status.set(k, (curr, right));
            proof {
                lemma_close_in_range(n, st0, g0, prev, right, curr);
                lemma_open_in_range(n, st0, g1, curr, right, curr);
            }
        }
        proof {
            assert forall|i: int| 0 <= i < status@.len() implies (#[trigger] status@[i]).0 < n && status@[i].1 < n by {
                if i != k {
                    assert(status@[i] == st0[i]);
                }
            }
        }
        true
    }

    /// The trapezoids of the polygon, or nothing when the sweep fails: when
    /// at some vertex the status does not hold the slabs that the class of
    /// the vertex calls for, when a vertex is collinear with an edge that it
    /// is tested against, or when a slab stays open.
    pub fn sweep(&self) -> (r: Option<Trapezoidalization>)
        ensures
            r matches Some(t) ==> trapezoids_of(self@) == Some(t@) && records_in_range(self@.len() as int, t@)
                && t@.len() == crate::slabs::opened_upto(self@, self@.len() as int),
            r is None ==> trapezoids_of(self@) is None,
    {
        let pts = self.get_point_list();
        let n = pts.len();
        proof {
            if trapezoids_of(self@) is Some {
                crate::slabs::lemma_trapezoid_count(self@);
            }
        }
        let ev = self.event_order();
        proof {
            lemma_event_order_exists(self@);
            lemma_event_order_unique(self@, ev@, events_of(self@));
        }
        let mut status: Vec<(usize, usize)> = Vec::new();
        let mut staged: Vec<Staged> = Vec::new();
        let mut k: usize = 0;
        while k < n
            invariant
                n == self@.len(),
                ev@ == events_of(self@),
                is_event_order(self@, ev@),
                k <= n,
                state_in_range(n as int, status@, staged@),
                sweep_prefix(self@, ev@, k as int) == Some((SweepState { status: status@, staged: staged@ })),
            decreases n - k,
        {
            let curr = ev[k];
            let ok = match self.get_point_type(curr) {
                PointType::Start => self.start_event(&mut status, &mut staged, curr),
                PointType::Split => self.split_event(&mut status, &mut staged, curr),
                PointType::Merge => self.merge_event(&mut status, &mut staged, curr),
                PointType::End => self.end_event(&mut status, &mut staged, curr),
                PointType::Regular => self.regular_event(&mut status, &mut staged, curr),
            };
            if !ok {
                proof {
                    assert(sweep_prefix(self@, ev@, k + 1) is None);
                    lemma_sweep_stays_failed(self@, ev@, k + 1, n as int);
                }
                return None;
            }
            k += 1;
        }
        let mut out: Vec<TrapezoidalizationRecord> = Vec::new();
        let mut i: usize = 0;
        while i < staged.len()
            invariant
                n == self@.len(),
                pts@ == self@,
                i <= staged@.len(),
                state_in_range(n as int, status@, staged@),
                out@.len() == i,
                ev@ == events_of(self@),
                ev@.len() == n,
                sweep_prefix(self@, ev@, n as int) == Some((SweepState { status: status@, staged: staged@ })),
                forall|j: int| 0 <= j < i ==> (#[trigger] staged@[j]).lower is Some,
                forall|j: int| 0 <= j < i ==> #[trigger] out@[j] == record_of(self@, staged@[j]),
            decreases staged@.len() - i,
        {
            let g = staged[i];
            match g.lower {
                None => {
                    assert(staged@[i as int].lower is None);
                    return None;
                },
                Some(b) => {
                    out.push(
                        TrapezoidalizationRecord {
                            left_edge: (g.left, self.get_edgepoints(g.left)),
                            right_edge: (g.right, self.get_edgepoints(g.right)),
                            top_vertex: (g.higher, pts[g.higher]),
                            bottom_vertex: (b, pts[b]),
                        },
                    );
                },
            }
            i += 1;
        }
        proof {
            assert(out@ =~= Seq::new(staged@.len(), |i: int| record_of(self@, staged@[i])));
            assert forall|j: int| 0 <= j < out@.len() implies {
                &&& (#[trigger] out@[j]).left_edge.0 < n
                &&& out@[j].right_edge.0 < n
                &&& out@[j].top_vertex.0 < n
                &&& out@[j].bottom_vertex.0 < n
            } by {
                assert(out@[j] == record_of(self@, staged@[j]));
            }
        }
        Some(Trapezoidalization(out))
    }

    /// The trapezoids of a polygon on which the sweep succeeds.
    pub fn partition_trapezoid(&self) -> (t: Trapezoidalization)
        requires
            trapezoids_of(self@) is Some,
        ensures
            trapezoids_of(self@) == Some(t@),
            records_in_range(self@.len() as int, t@),
            t@.len() == crate::slabs::opened_upto(self@, self@.len() as int),
    {
        match self.sweep() {
            Some(t) => t,
            None => vstd::pervasive::unreached(),
        }
    }

    /// The diagonals that the trapezoids of this polygon call for. Each
    /// runs from a vertex down to a lower one.
    pub fn diagonals_of(&self, traps: &Trapezoidalization) -> (r: Vec<DirEdge>)
        requires
            trapezoids_of(self@) == Some(traps@),
        ensures
            r@ == monotone_diagonals(self@, traps@, traps@.len() as int),
            forall|k: int|
                0 <= k < r@.len() ==> self@.contains((#[trigger] r@[k]).start) && self@.contains(r@[k].end)
                    && r@[k].start.higher_than(r@[k].end),
    {
        let n = self.get_point_list().len();
        proof {
            assert forall|i: int| 0 <= i < traps@.len() implies {
                &&& (#[trigger] traps@[i]).top_vertex.0 < self@.len()
                &&& traps@[i].bottom_vertex.0 < self@.len()
                &&& traps@[i].top_vertex.1 == self@[traps@[i].top_vertex.0 as int]
                &&& traps@[i].bottom_vertex.1 == self@[traps@[i].bottom_vertex.0 as int]
                &&& traps@[i].top_vertex.1.higher_than(traps@[i].bottom_vertex.1)
            } by {
                crate::slabs::lemma_trapezoid_heights(self@, i);
            }
        }
        let recs = traps.records();
        let mut ret: Vec<DirEdge> = Vec::new();
        let mut i: usize = 0;
        while i < recs.len()
            invariant
                recs@ == traps@,
                i <= recs@.len(),
                ret@ == monotone_diagonals(self@, traps@, i as int),
                forall|a: int|
                    0 <= a < traps@.len() ==> {
                        &&& (#[trigger] traps@[a]).top_vertex.0 < self@.len()
                        &&& traps@[a].bottom_vertex.0 < self@.len()
                        &&& traps@[a].top_vertex.1 == self@[traps@[a].top_vertex.0 as int]
                        &&& traps@[a].bottom_vertex.1 == self@[traps@[a].bottom_vertex.0 as int]
                        &&& traps@[a].top_vertex.1.higher_than(traps@[a].bottom_vertex.1)
                    },
                forall|k: int|
                    0 <= k < ret@.len() ==> self@.contains((#[trigger] ret@[k]).start) && self@.contains(ret@[k].end)
                        && ret@[k].start.higher_than(ret@[k].end),
            decreases recs@.len() - i,
        {
            let t = recs[i];
            if self.get_point_type(t.top_vertex.0) == PointType::Merge {
                ret.push(DirEdge::from_points(&t.top_vertex.1, &t.bottom_vertex.1));
            } else if self.get_point_type(t.bottom_vertex.0) == PointType::Split {
                ret.push(DirEdge::from_points(&t.top_vertex.1, &t.bottom_vertex.1));
            }
            i += 1;
        }
        ret
    }

    /// The diagonals that cut the polygon into monotone pieces: one for each
    /// trapezoid whose top is a merge vertex or whose bottom is a split
    /// vertex. The sweep must succeed on the polygon.
    pub fn partition_monotone(&self) -> (r: Vec<DirEdge>)
        requires
            trapezoids_of(self@) is Some,
        ensures
            r@ == monotone_diagonals(self@, trapezoids_of(self@)->0, trapezoids_of(self@)->0.len() as int),
            forall|k: int|
                0 <= k < r@.len() ==> self@.contains((#[trigger] r@[k]).start) && self@.contains(r@[k].end)
                    && r@[k].start.higher_than(r@[k].end),
    {
        let traps = self.partition_trapezoid();
        self.diagonals_of(&traps)
    }
}

} // verus!

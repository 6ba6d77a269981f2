//! What holds of the slabs that a sweep opens and closes: every slab is
//! closed at a vertex below the one that opened it, and the slabs are as
//! many as the classes of the vertices tell.

use crate::polygon::{is_event_order, prev_index, vertex_kind, PointType};
use crate::primitives::Point;
use crate::sweep::{
    end_step, events_of, merge_step, record_of, regular_slot, regular_step, slot_with_right, split_slot, split_step,
    stage_close, stage_open, staged_index, start_slot, start_step, sweep_prefix, sweep_step, trapezoids_of,
    trapezoids_over, Staged, SweepState, TrapezoidalizationRecord,
};
use vstd::prelude::*;

verus! {

/// Whether the slab `g` was opened at place `j` of `ev` and, if it is
/// closed, was closed at a later place before `upto`.
pub open spec fn timed_at(ev: Seq<usize>, upto: int, g: Staged, j: int) -> bool {
    &&& 0 <= j < upto
    &&& ev[j] == g.higher
    &&& (g.lower matches Some(b) ==> exists|h: int| j < h < upto && #[trigger] ev[h] == b)
}

/// Whether the slab `g` was opened, and closed if it is, among the first
/// `upto` events, and closed after it was opened.
pub open spec fn timed(ev: Seq<usize>, upto: int, g: Staged) -> bool {
    exists|j: int| #[trigger] timed_at(ev, upto, g, j)
}

/// Whether all slabs are timed among the first `upto` events.
pub open spec fn all_timed(ev: Seq<usize>, upto: int, staged: Seq<Staged>) -> bool {
    forall|i: int| 0 <= i < staged.len() ==> timed(ev, upto, #[trigger] staged[i])
}

/// Whether all slabs are timed among the first `k + 1` events, and the open
/// ones among the first `k`.
spec fn mid_step(ev: Seq<usize>, k: int, staged: Seq<Staged>) -> bool {
    &&& all_timed(ev, k + 1, staged)
    &&& forall|i: int| 0 <= i < staged.len() && (#[trigger] staged[i]).lower is None ==> timed(ev, k, staged[i])
}

proof fn lemma_timed_later(ev: Seq<usize>, k: int, g: Staged)
    requires
        timed(ev, k, g),
    ensures
        timed(ev, k + 1, g),
{
    let j = choose|j: int| #[trigger] timed_at(ev, k, g, j);
    if g.lower is Some {
        let h = choose|h: int| j < h < k && #[trigger] ev[h] == g.lower->0;
        assert(j < h < k + 1 && ev[h] == g.lower->0);
    }
    assert(timed_at(ev, k + 1, g, j));
}

proof fn lemma_staged_index_found(staged: Seq<Staged>, left: usize, right: usize, from: int)
    requires
        0 <= from,
    ensures
        staged_index(staged, left, right, from) matches Some(k) ==> from <= k < staged.len(),
    decreases staged.len() - from,
{
    if from < staged.len() && !(staged[from].left == left && staged[from].right == right) {
        lemma_staged_index_found(staged, left, right, from + 1);
    }
}

/// Closing a slab at event `k` keeps the slabs timed.
proof fn lemma_close_timed(ev: Seq<usize>, k: int, staged: Seq<Staged>, left: usize, right: usize)
    requires
        0 <= k < ev.len(),
        mid_step(ev, k, staged),
        stage_close(staged, left, right, ev[k]) is Some,
    ensures
        mid_step(ev, k, stage_close(staged, left, right, ev[k])->0),
        stage_close(staged, left, right, ev[k])->0.len() == staged.len(),
{
    let after = stage_close(staged, left, right, ev[k])->0;
    lemma_staged_index_found(staged, left, right, 0);
    let at = staged_index(staged, left, right, 0)->0;
    assert forall|i: int| 0 <= i < after.len() implies timed(ev, k + 1, #[trigger] after[i]) by {
        if i == at {
            assert(staged[at].lower is None);
            assert(timed(ev, k, staged[at]));
            let j = choose|j: int| #[trigger] timed_at(ev, k, staged[at], j);
            assert(j < k < k + 1 && ev[k] == after[i].lower->0);
            assert(timed_at(ev, k + 1, after[i], j));
        } else {
            assert(after[i] == staged[i]);
            assert(timed(ev, k + 1, staged[i]));
        }
    }
    assert forall|i: int| 0 <= i < after.len() && (#[trigger] after[i]).lower is None implies timed(ev, k, after[i]) by {
        assert(i != at);
        assert(after[i] == staged[i]);
    }
}

/// Opening a slab at event `k` keeps the slabs timed among the first
/// `k + 1` events.
proof fn lemma_open_timed(ev: Seq<usize>, k: int, staged: Seq<Staged>, left: usize, right: usize)
    requires
        0 <= k < ev.len(),
        all_timed(ev, k + 1, staged),
        stage_open(staged, left, right, ev[k]) is Some,
    ensures
        all_timed(ev, k + 1, stage_open(staged, left, right, ev[k])->0),
        stage_open(staged, left, right, ev[k])->0.len() == staged.len() + 1,
{
    let after = stage_open(staged, left, right, ev[k])->0;
    assert forall|i: int| 0 <= i < after.len() implies timed(ev, k + 1, #[trigger] after[i]) by {
        if i < staged.len() {
            assert(after[i] == staged[i]);
            assert(timed(ev, k + 1, staged[i]));
        } else {
            assert(timed_at(ev, k + 1, after[i], k));
        }
    }
}

/// One event keeps the slabs timed.
proof fn lemma_step_timed(s: Seq<Point>, ev: Seq<usize>, k: int, st: SweepState)
    requires
        0 <= k < ev.len(),
        all_timed(ev, k, st.staged),
        sweep_step(s, st, ev[k]) is Some,
    ensures
        all_timed(ev, k + 1, sweep_step(s, st, ev[k])->0.staged),
{
    let curr = ev[k];
    let prev = prev_index(s.len() as int, curr as int) as usize;
    assert(mid_step(ev, k, st.staged)) by {
        assert forall|i: int| 0 <= i < st.staged.len() implies timed(ev, k + 1, #[trigger] st.staged[i]) by {
            lemma_timed_later(ev, k, st.staged[i]);
        }
    }
    match vertex_kind(s, curr as int) {
        PointType::Start => {
            lemma_open_timed(ev, k, st.staged, curr, prev);
        },
        PointType::Split => {
            let at = split_slot(s, st.status, s[curr as int], 0)->0;
            let (ll, rr) = st.status[at];
            lemma_close_timed(ev, k, st.staged, ll, rr);
            let g1 = stage_close(st.staged, ll, rr, curr)->0;
            lemma_open_timed(ev, k, g1, curr, rr);
            let g2 = stage_open(g1, curr, rr, curr)->0;
            lemma_open_timed(ev, k, g2, ll, prev);
        },
        PointType::Merge => {
            let at = slot_with_right(st.status, curr, 0)->0;
            let (ll, lr) = st.status[at];
            let (rl, rr) = st.status[at + 1];
            lemma_close_timed(ev, k, st.staged, rl, rr);
            let g1 = stage_close(st.staged, rl, rr, curr)->0;
            lemma_close_timed(ev, k, g1, ll, lr);
            let g2 = stage_close(g1, ll, lr, curr)->0;
            lemma_open_timed(ev, k, g2, ll, rr);
        },
        PointType::End => {
            lemma_close_timed(ev, k, st.staged, prev, curr);
        },
        PointType::Regular => {
            let at = regular_slot(st.status, curr, prev, 0)->0;
            let (left, right) = st.status[at];
            if right == curr {
                lemma_close_timed(ev, k, st.staged, left, curr);
                let g1 = stage_close(st.staged, left, curr, curr)->0;
                lemma_open_timed(ev, k, g1, left, prev);
            } else {
                lemma_close_timed(ev, k, st.staged, prev, right);
                let g1 = stage_close(st.staged, prev, right, curr)->0;
                lemma_open_timed(ev, k, g1, curr, right);
            }
        },
    }
}

/// After `k` events all slabs are timed among them.
proof fn lemma_prefix_timed(s: Seq<Point>, ev: Seq<usize>, k: int)
    requires
        0 <= k <= ev.len(),
        sweep_prefix(s, ev, k) is Some,
    ensures
        all_timed(ev, k, sweep_prefix(s, ev, k)->0.staged),
    decreases k,
{
    if k > 0 {
        lemma_prefix_timed(s, ev, k - 1);
        lemma_step_timed(s, ev, k - 1, sweep_prefix(s, ev, k - 1)->0);
    }
}

/// The number of slabs that a vertex of the class `kind` opens.
pub open spec fn opened_by(kind: PointType) -> int {
    match kind {
        PointType::Start => 1,
        PointType::Split => 2,
        PointType::Merge => 1,
        PointType::Regular => 1,
        PointType::End => 0,
    }
}

/// The number of slabs that the first `k` vertices of `s` open: one for
/// each start, merge and regular vertex, two for each split vertex.
pub open spec fn opened_upto(s: Seq<Point>, k: int) -> int
    decreases k,
{
    if k <= 0 {
        0
    } else {
        opened_upto(s, k - 1) + opened_by(vertex_kind(s, k - 1))
    }
}

/// The number of slabs that the first `k` vertices of `ev` open.
spec fn opened_in_order(s: Seq<Point>, ev: Seq<usize>, k: int) -> int
    decreases k,
{
    if k <= 0 {
        0
    } else {
        opened_in_order(s, ev, k - 1) + opened_by(vertex_kind(s, ev[k - 1] as int))
    }
}

/// The number of slabs that the vertices at all places of `p` but `skip`,
/// up to place `k`, open.
spec fn opened_but(s: Seq<Point>, p: Seq<usize>, skip: int, k: int) -> int
    decreases k,
{
    if k <= 0 {
        0
    } else if k - 1 == skip {
        opened_but(s, p, skip, k - 1)
    } else {
        opened_but(s, p, skip, k - 1) + opened_by(vertex_kind(s, p[k - 1] as int))
    }
}

/// Whether `p` lists the numbers below `m`, each once.
spec fn lists_below(p: Seq<usize>, m: int) -> bool {
    &&& p.len() == m
    &&& p.no_duplicates()
    &&& forall|j: int| 0 <= j < p.len() ==> (#[trigger] p[j]) < m
    &&& forall|v: usize| v < m ==> #[trigger] p.contains(v)
}

proof fn lemma_opened_but_all(s: Seq<Point>, p: Seq<usize>, skip: int, k: int)
    requires
        0 <= k <= p.len(),
        0 <= skip < p.len(),
    ensures
        opened_in_order(s, p, k) == opened_but(s, p, skip, k) + if skip < k {
            opened_by(vertex_kind(s, p[skip] as int))
        } else {
            0
        },
    decreases k,
{
    if k > 0 {
        lemma_opened_but_all(s, p, skip, k - 1);
    }
}

proof fn lemma_opened_but_removed(s: Seq<Point>, p: Seq<usize>, skip: int, k: int)
    requires
        0 <= k <= p.len(),
        0 <= skip < p.len(),
    ensures
        opened_but(s, p, skip, k) == opened_in_order(s, p.remove(skip), if k <= skip { k } else { k - 1 }),
    decreases k,
{
    if k > 0 {
        lemma_opened_but_removed(s, p, skip, k - 1);
        let q = p.remove(skip);
        if k - 1 < skip {
            assert(q[k - 1] == p[k - 1]);
        } else if k - 1 > skip {
            assert(q[k - 2] == p[k - 1]);
        }
    }
}

/// In whatever order the vertices below `m` are met, they open as many
/// slabs.
proof fn lemma_opened_any_order(s: Seq<Point>, p: Seq<usize>, m: int)
    requires
        0 <= m <= usize::MAX,
        lists_below(p, m),
    ensures
        opened_in_order(s, p, m) == opened_upto(s, m),
    decreases m,
{
    if m > 0 {
        let last = (m - 1) as usize;
        assert(p.contains(last));
        let at = choose|at: int| 0 <= at < p.len() && p[at] == last;
        let q = p.remove(at);
        assert forall|j: int| 0 <= j < q.len() implies (#[trigger] q[j]) < m - 1 by {
            let j2 = if j < at { j } else { j + 1 };
            assert(q[j] == p[j2]);
            assert(p[j2] < m);
            assert(p[j2] != p[at]);
        }
        assert forall|a: int, b: int| 0 <= a < q.len() && 0 <= b < q.len() && a != b implies q[a] != q[b] by {
            let a2 = if a < at { a } else { a + 1 };
            let b2 = if b < at { b } else { b + 1 };
            assert(q[a] == p[a2]);
            assert(q[b] == p[b2]);
        }
        assert forall|v: usize| v < m - 1 implies #[trigger] q.contains(v) by {
            assert(p.contains(v));
            let j = choose|j: int| 0 <= j < p.len() && p[j] == v;
            let j2 = if j < at { j } else { j - 1 };
            assert(q[j2] == v);
        }
        lemma_opened_any_order(s, q, m - 1);
        lemma_opened_but_all(s, p, at, m);
        lemma_opened_but_removed(s, p, at, m);
    }
}

proof fn lemma_close_len(staged: Seq<Staged>, left: usize, right: usize, at: usize)
    requires
        stage_close(staged, left, right, at) is Some,
    ensures
        stage_close(staged, left, right, at)->0.len() == staged.len(),
{
    lemma_staged_index_found(staged, left, right, 0);
}

/// One event opens as many slabs as the class of its vertex tells.
proof fn lemma_step_opens(s: Seq<Point>, st: SweepState, curr: usize)
    requires
        sweep_step(s, st, curr) is Some,
    ensures
        sweep_step(s, st, curr)->0.staged.len() == st.staged.len() + opened_by(vertex_kind(s, curr as int)),
{
    let prev = prev_index(s.len() as int, curr as int) as usize;
    match vertex_kind(s, curr as int) {
        PointType::Start => {},
        PointType::Split => {
            let at = split_slot(s, st.status, s[curr as int], 0)->0;
            let (ll, rr) = st.status[at];
            lemma_close_len(st.staged, ll, rr, curr);
        },
        PointType::Merge => {
            let at = slot_with_right(st.status, curr, 0)->0;
            let (ll, lr) = st.status[at];
            let (rl, rr) = st.status[at + 1];
            lemma_close_len(st.staged, rl, rr, curr);
            let g1 = stage_close(st.staged, rl, rr, curr)->0;
            lemma_close_len(g1, ll, lr, curr);
        },
        PointType::End => {
            lemma_close_len(st.staged, prev, curr, curr);
        },
        PointType::Regular => {
            let at = regular_slot(st.status, curr, prev, 0)->0;
            let (left, right) = st.status[at];
            if right == curr {
                lemma_close_len(st.staged, left, curr, curr);
            } else {
                lemma_close_len(st.staged, prev, right, curr);
            }
        },
    }
}

proof fn lemma_prefix_opens(s: Seq<Point>, ev: Seq<usize>, k: int)
    requires
        0 <= k <= ev.len(),
        sweep_prefix(s, ev, k) is Some,
    ensures
        sweep_prefix(s, ev, k)->0.staged.len() == opened_in_order(s, ev, k),
    decreases k,
{
    if k > 0 {
        lemma_prefix_opens(s, ev, k - 1);
        lemma_step_opens(s, sweep_prefix(s, ev, k - 1)->0, ev[k - 1]);
    }
}

/// A sweep that succeeds leaves one trapezoid for each start, merge and
/// regular vertex of the polygon, and two for each split vertex.
pub proof fn lemma_trapezoid_count(s: Seq<Point>)
    requires
        s.no_duplicates(),
        s.len() <= usize::MAX,
        trapezoids_of(s) is Some,
    ensures
        trapezoids_of(s)->0.len() == opened_upto(s, s.len() as int),
{
    crate::polygon::lemma_event_order_exists(s);
    let ev = events_of(s);
    lemma_prefix_opens(s, ev, ev.len() as int);
    assert(lists_below(ev, s.len() as int)) by {
        assert forall|a: int, b: int| 0 <= a < ev.len() && 0 <= b < ev.len() && a != b implies ev[a] != ev[b] by {
            if a < b {
                assert(s[ev[a] as int].higher_than(s[ev[b] as int]));
            } else {
                assert(s[ev[b] as int].higher_than(s[ev[a] as int]));
            }
        }
    }
    lemma_opened_any_order(s, ev, s.len() as int);
}

/// Every trapezoid of a sweep over distinct points has its top vertex above
/// its bottom vertex, and both are vertices of the polygon.
pub proof fn lemma_trapezoid_heights(s: Seq<Point>, i: int)
    requires
        s.no_duplicates(),
        s.len() <= usize::MAX,
        trapezoids_of(s) is Some,
        0 <= i < trapezoids_of(s)->0.len(),
    ensures
        ({
            let t = trapezoids_of(s)->0[i];
            &&& t.top_vertex.0 < s.len()
            &&& t.bottom_vertex.0 < s.len()
            &&& t.top_vertex.1 == s[t.top_vertex.0 as int]
            &&& t.bottom_vertex.1 == s[t.bottom_vertex.0 as int]
            &&& t.top_vertex.1.higher_than(t.bottom_vertex.1)
        }),
{
    crate::polygon::lemma_event_order_exists(s);
    let ev = events_of(s);
    let st = sweep_prefix(s, ev, ev.len() as int)->0;
    lemma_prefix_timed(s, ev, ev.len() as int);
    let g = st.staged[i];
    assert(trapezoids_of(s)->0[i] == record_of(s, g));
    assert(timed(ev, ev.len() as int, g));
    let j = choose|j: int| #[trigger] timed_at(ev, ev.len() as int, g, j);
    assert(g.lower is Some);
    let h = choose|h: int| j < h < ev.len() && #[trigger] ev[h] == g.lower->0;
    assert(ev[j] < s.len());
    assert(ev[h] < s.len());
    assert(s[ev[j] as int].higher_than(s[ev[h] as int]));
}

} // verus!

//! Triangulation of a y-monotone polygon by a stack of vertices that still
//! wait for their diagonals.

use crate::mesh::Mesh;
use crate::polygon::{is_event_order, next_index, SimplePolygon};
use crate::primitives::{turn, DirEdge, Point, PointOrientation};
use crate::sweep::{events_of, lemma_event_order_unique};
use slotmap::DefaultKey;
use vstd::prelude::*;

verus! {

/// What the triangulation holds between two vertices: the vertices that
/// wait, oldest first, and the diagonals found, each from the later vertex
/// to the earlier.
pub struct FanState {
    pub stack: Seq<usize>,
    pub found: Seq<(usize, usize)>,
}

/// Whether `a` and `b` are neighbours on a ring of `n` vertices.
pub open spec fn neighbours(n: int, a: int, b: int) -> bool {
    next_index(n, a) == b || next_index(n, b) == a
}

/// The diagonals from vertex `i` to the waiting vertices at places 1 to `k`,
/// but to those that are neighbours of `i`.
pub open spec fn fan(n: int, i: usize, stack: Seq<usize>, k: int) -> Seq<(usize, usize)>
    decreases k,
{
    if k < 1 {
        Seq::empty()
    } else if neighbours(n, i as int, stack[k] as int) {
        fan(n, i, stack, k - 1)
    } else {
        fan(n, i, stack, k - 1).push((i, stack[k]))
    }
}

/// Whether the newest waiting vertex can be cut off by a diagonal from `i`
/// to the vertex that waits below it.
pub open spec fn cuts_corner(pts: Seq<Point>, i: usize, right: bool, stack: Seq<usize>) -> bool {
    let pl = pts[i as int];
    let pm = pts[stack[stack.len() - 1] as int];
    let ph = pts[stack[stack.len() - 2] as int];
    let o = if right {
        turn(pl, pm, ph)
    } else {
        turn(ph, pm, pl)
    };
    o == PointOrientation::Counterclockwise
}

/// Cuts off waiting vertices from the newest on, as long as the corner at
/// the newest can be cut.
pub open spec fn trim(pts: Seq<Point>, i: usize, right: bool, st: FanState) -> FanState
    decreases st.stack.len(),
{
    if st.stack.len() <= 1 || !cuts_corner(pts, i, right, st.stack) {
        st
    } else {
        trim(
            pts,
            i,
            right,
            FanState { stack: st.stack.drop_last(), found: st.found.push((i, st.stack[st.stack.len() - 2])) },
        )
    }
}

/// The state after vertex `i`. Where `i` is a neighbour of the oldest
/// waiting vertex it lies on the other chain: it gets a diagonal to every
/// waiting vertex but the oldest, and only the newest goes on waiting, with
/// `i`. Otherwise it lies on the chain of the newest: corners are cut off
/// while they can be, and `i` waits with what is left.
pub open spec fn fan_step(pts: Seq<Point>, st: FanState, i: usize) -> FanState {
    let n = pts.len() as int;
    if neighbours(n, i as int, st.stack[0] as int) {
        FanState {
            stack: seq![st.stack[st.stack.len() - 1], i],
            found: st.found + fan(n, i, st.stack, st.stack.len() - 1),
        }
    } else {
        let right = next_index(n, i as int) == st.stack[st.stack.len() - 1];
        let t = trim(pts, i, right, st);
        FanState { stack: t.stack.push(i), found: t.found }
    }
}

/// The state after the first `k` vertices of `ev`, of which the first two
/// just wait.
pub open spec fn fan_prefix(pts: Seq<Point>, ev: Seq<usize>, k: int) -> FanState
    decreases k,
{
    if k <= 2 {
        FanState { stack: seq![ev[0], ev[1]], found: Seq::empty() }
    } else {
        fan_step(pts, fan_prefix(pts, ev, k - 1), ev[k - 1])
    }
}

/// The diagonals that the stack of waiting vertices finds in the polygon
/// `pts`, as pairs of vertex indices.
pub open spec fn fan_pairs(pts: Seq<Point>) -> Seq<(usize, usize)> {
    fan_prefix(pts, events_of(pts), pts.len() as int).found
}

/// The diagonals that the stack of waiting vertices finds in the polygon
/// `pts`.
pub open spec fn fan_diagonals(pts: Seq<Point>) -> Seq<DirEdge> {
    Seq::new(
        fan_pairs(pts).len(),
        |k: int| DirEdge { start: pts[fan_pairs(pts)[k].0 as int], end: pts[fan_pairs(pts)[k].1 as int] },
    )
}

/// The diagonals that the stack of waiting vertices finds in the first `k`
/// faces of `fs`, each face taken as a polygon of its own on the points
/// around it.
pub open spec fn piece_diagonals(m: Mesh, fs: Seq<DefaultKey>, k: int) -> Seq<DirEdge>
    decreases k,
{
    if k <= 0 {
        Seq::empty()
    } else {
        piece_diagonals(m, fs, k - 1) + fan_diagonals(m.corner_points(fs[k - 1]))
    }
}

/// Whether the waiting vertices are one at least, all among the first `k` of
/// `ev`, and the diagonals found all run from a vertex among the first `k`
/// of `ev` to one that `ev` lists before it.
pub open spec fn fan_sound(pts: Seq<Point>, ev: Seq<usize>, k: int, st: FanState) -> bool {
    &&& st.stack.len() >= 1
    &&& forall|a: int| 0 <= a < st.stack.len() ==> exists|j: int| 0 <= j < k && ev[j] == #[trigger] st.stack[a]
    &&& forall|a: int|
        0 <= a < st.found.len() ==> exists|j: int, h: int|
            0 <= h < j < k && ev[j] == (#[trigger] st.found[a]).0 && ev[h] == st.found[a].1
}

impl SimplePolygon {
    /// Whether the vertices `i1` and `i2` are neighbours on the polygon.
    fn is_adjacent(&self, i1: usize, i2: usize) -> (r: bool)
        requires
            i1 < self@.len(),
            i2 < self@.len(),
        ensures
            r == neighbours(self@.len() as int, i1 as int, i2 as int),
    {
        if self.get_next_index(i1) == i2 {
            true
        } else if self.get_next_index(i2) == i1 {
            true
        } else {
            false
        }
    }

    /// The diagonals that triangulate the polygon, which is taken to be
    /// y-monotone: the vertices are met from the highest down, and each gets
    /// its diagonals to the vertices above it that still wait for one. Every
    /// diagonal runs from a vertex up to a higher one.
    pub fn triangulate_monotone(&self) -> (r: Vec<DirEdge>)
        ensures
            r@ == fan_diagonals(self@),
            forall|k: int|
                0 <= k < r@.len() ==> self@.contains((#[trigger] r@[k]).start) && self@.contains(r@[k].end)
                    && r@[k].end.higher_than(r@[k].start),
    {
        let point_list = self.get_point_list();
        let n = point_list.len();
        let event_queue = self.event_order();
        proof {
            crate::polygon::lemma_event_order_exists(self@);
            lemma_event_order_unique(self@, event_queue@, events_of(self@));
        }
        let ghost ev = event_queue@;
        let mut stack: Vec<usize> = Vec::new();
        let mut found: Vec<(usize, usize)> = Vec::new();
        stack.push(event_queue[0]);
        stack.push(event_queue[1]);
        proof {
            assert(stack@ =~= seq![ev[0], ev[1]]);
            assert(ev[0] == stack@[0] && ev[1] == stack@[1]);
        }
        let mut idx: usize = 2;
        while idx < n
            invariant
                n == self@.len(),
                point_list@ == self@,
                ev == event_queue@,
                ev == events_of(self@),
                is_event_order(self@, ev),
                2 <= idx <= n,
                fan_prefix(self@, ev, idx as int) == (FanState { stack: stack@, found: found@ }),
                fan_sound(self@, ev, idx as int, (FanState { stack: stack@, found: found@ })),
            decreases n - idx,
        {
            let i = event_queue[idx];
            let ghost st0 = FanState { stack: stack@, found: found@ };
            proof {
                assert forall|a: int| 0 <= a < stack@.len() implies (#[trigger] stack@[a]) < n by {
                    let j = choose|j: int| 0 <= j < idx && ev[j] == stack@[a];
                    assert(ev[j] < n);
                }
            }
            if self.is_adjacent(i, stack[0]) {
                let len = stack.len();
                let mut k: usize = 1;
                while k < len
                    invariant
                        n == self@.len(),
                        i < n,
                        len == stack@.len(),
                        stack@ == st0.stack,
                        1 <= k <= len,
                        forall|a: int| 0 <= a < stack@.len() ==> (#[trigger] stack@[a]) < n,
                        found@ == st0.found + fan(n as int, i, stack@, k - 1),
                    decreases len - k,
                {
                    if !self.is_adjacent(i, stack[k]) {
                        found.push((i, stack[k]));
                    }
                    proof {
                        assert(found@ =~= st0.found + fan(n as int, i, stack@, k as int));
                    }
                    k += 1;
                }
                let top = stack[len - 1];
                stack = Vec::new();
                stack.push(top);
                stack.push(i);
                proof {
                    assert(stack@ =~= seq![st0.stack[st0.stack.len() - 1], i]);
                    lemma_fan_sound(self@, ev, idx as int, st0, st0.stack.len() - 1);
                    assert(ev[idx as int] == i);
                    let st1 = FanState { stack: stack@, found: found@ };
                    assert forall|a: int| 0 <= a < st1.stack.len() implies exists|j: int|
                        0 <= j < idx + 1 && ev[j] == #[trigger] st1.stack[a] by {
                        if a == 0 {
                            let j = choose|j: int| 0 <= j < idx && ev[j] == st0.stack[st0.stack.len() - 1];
                            assert(ev[j] == st1.stack[a]);
                        } else {
                            assert(ev[idx as int] == st1.stack[a]);
                        }
                    }
                    let all = st0.found + fan(self@.len() as int, ev[idx as int], st0.stack, st0.stack.len() - 1);
                    assert(st1.found == all);
                    assert forall|a: int| 0 <= a < st1.found.len() implies exists|j: int, h: int|
                        0 <= h < j < idx + 1 && ev[j] == (#[trigger] st1.found[a]).0 && ev[h] == st1.found[a].1 by {
                        let (j, h) = choose|j: int, h: int| 0 <= h < j < idx + 1 && ev[j] == all[a].0 && ev[h] == all[a].1;
                        assert(ev[j] == st1.found[a].0 && ev[h] == st1.found[a].1);
                    }
                    assert(fan_sound(self@, ev, idx + 1, st1));
                }
            } else {
                let is_right_chain = self.get_next_index(i) == stack[stack.len() - 1];
                let mut go = true;
                while go && stack.len() > 1
                    invariant
                        n == self@.len(),
                        point_list@ == self@,
                        i < n,
                        ev[idx as int] == i,
                        idx < n,
                        is_event_order(self@, ev),
                        stack@.len() >= 1,
                        fan_sound(self@, ev, idx as int, st0),
                        fan_sound(self@, ev, idx + 1, (FanState { stack: stack@, found: found@ })),
                        forall|a: int|
                            0 <= a < stack@.len() ==> exists|j: int| 0 <= j < idx && ev[j] == #[trigger] stack@[a],
                        go ==> trim(self@, i, is_right_chain, st0) == trim(
                            self@,
                            i,
                            is_right_chain,
                            (FanState { stack: stack@, found: found@ }),
                        ),
                        !go ==> trim(self@, i, is_right_chain, st0) == (FanState { stack: stack@, found: found@ }),
                    decreases stack@.len() + (if go { 1int } else { 0int }),
                {
                    let len = stack.len();
                    proof {
                        let ja = choose|j: int| 0 <= j < idx && ev[j] == stack@[len - 1];
                        let jb = choose|j: int| 0 <= j < idx && ev[j] == stack@[len - 2];
                        assert(ev[ja] < n && ev[jb] < n);
                    }
                    let pl = &point_list[i];
                    let pm = &point_list[stack[len - 1]];
                    let ph = &point_list[stack[len - 2]];
                    let o = if is_right_chain {
                        Point::orientation(pl, pm, ph)
                    } else {
                        Point::orientation(ph, pm, pl)
                    };
                    if o != PointOrientation::Counterclockwise {
                        go = false;
                    } else {
                        let ghost s_before = stack@;
                        let ghost f_before = found@;
                        found.push((i, stack[len - 2]));
                        stack.pop();
                        proof {
                            assert(stack@ =~= s_before.drop_last());
                            let st1 = FanState { stack: stack@, found: found@ };
                            assert forall|a: int| 0 <= a < st1.found.len() implies exists|j: int, h: int|
                                0 <= h < j < idx + 1 && ev[j] == (#[trigger] st1.found[a]).0 && ev[h] == st1.found[a].1 by {
                                if a < f_before.len() {
                                    assert(st1.found[a] == f_before[a]);
                                } else {
                                    let h = choose|h: int| 0 <= h < idx && ev[h] == s_before[len - 2];
                                    assert(ev[idx as int] == st1.found[a].0 && ev[h] == st1.found[a].1);
                                }
                            }
                            assert forall|a: int| 0 <= a < st1.stack.len() implies exists|j: int|
                                0 <= j < idx && ev[j] == #[trigger] st1.stack[a] by {
                                assert(st1.stack[a] == s_before[a]);
                            }
                        }
                    }
                }
                let ghost trimmed = FanState { stack: stack@, found: found@ };
                stack.push(i);
                proof {
                    let st1 = FanState { stack: stack@, found: found@ };
                    assert forall|a: int| 0 <= a < st1.stack.len() implies exists|j: int|
                        0 <= j < idx + 1 && ev[j] == #[trigger] st1.stack[a] by {
                        if a < trimmed.stack.len() {
                            let j = choose|j: int| 0 <= j < idx && ev[j] == trimmed.stack[a];
                            assert(ev[j] == st1.stack[a]);
                        } else {
                            assert(ev[idx as int] == st1.stack[a]);
                        }
                    }
                    assert forall|a: int| 0 <= a < st1.found.len() implies exists|j: int, h: int|
                        0 <= h < j < idx + 1 && ev[j] == (#[trigger] st1.found[a]).0 && ev[h] == st1.found[a].1 by {
                        let (j, h) = choose|j: int, h: int|
                            0 <= h < j < idx + 1 && ev[j] == trimmed.found[a].0 && ev[h] == trimmed.found[a].1;
                        assert(ev[j] == st1.found[a].0 && ev[h] == st1.found[a].1);
                    }
                    assert(fan_sound(self@, ev, idx + 1, st1));
                }
            }
            idx += 1;
        }
        let mut r: Vec<DirEdge> = Vec::new();
        let mut k: usize = 0;
        while k < found.len()
            invariant
                n == self@.len(),
                point_list@ == self@,
                is_event_order(self@, ev),
                found@ == fan_pairs(self@),
                fan_sound(self@, ev, n as int, (FanState { stack: stack@, found: found@ })),
                k <= found@.len(),
                r@.len() == k,
                forall|a: int|
                    0 <= a < k ==> #[trigger] r@[a] == (DirEdge {
                        start: self@[found@[a].0 as int],
                        end: self@[found@[a].1 as int],
                    }),
                forall|a: int|
                    0 <= a < k ==> self@.contains((#[trigger] r@[a]).start) && self@.contains(r@[a].end) && r@[a].end.higher_than(
                        r@[a].start,
                    ),
            decreases found@.len() - k,
        {
            proof {
                let st = FanState { stack: stack@, found: found@ };
                let pair = st.found[k as int];
                let (j, h) = choose|j: int, h: int| 0 <= h < j < n && ev[j] == pair.0 && ev[h] == pair.1;
                assert(ev[j] < n && ev[h] < n);
                assert(self@[ev[h] as int].higher_than(self@[ev[j] as int]));
            }
            let s = found[k].0;
            let e = found[k].1;
            r.push(DirEdge::from_points(&point_list[s], &point_list[e]));
            k += 1;
        }
        proof {
            assert(r@ =~= fan_diagonals(self@));
        }
        r
    }
}

/// A fan of diagonals from the vertex at place `k` of `ev` to waiting
/// vertices keeps the diagonals running from later to earlier vertices.
proof fn lemma_fan_sound(pts: Seq<Point>, ev: Seq<usize>, k: int, st: FanState, upto: int)
    requires
        fan_sound(pts, ev, k, st),
        0 <= k < ev.len(),
        0 <= upto < st.stack.len(),
    ensures
        forall|a: int|
            0 <= a < (st.found + fan(pts.len() as int, ev[k], st.stack, upto)).len() ==> exists|j: int, h: int|
                0 <= h < j < k + 1 && ev[j] == (#[trigger] (st.found + fan(pts.len() as int, ev[k], st.stack, upto))[a]).0
                    && ev[h] == (st.found + fan(pts.len() as int, ev[k], st.stack, upto))[a].1,
    decreases upto,
{
    let n = pts.len() as int;
    let all = st.found + fan(n, ev[k], st.stack, upto);
    if upto < 1 {
        assert(all =~= st.found);
        assert forall|a: int| 0 <= a < all.len() implies exists|j: int, h: int|
            0 <= h < j < k + 1 && ev[j] == (#[trigger] all[a]).0 && ev[h] == all[a].1 by {
            let (j, h) = choose|j: int, h: int| 0 <= h < j < k && ev[j] == st.found[a].0 && ev[h] == st.found[a].1;
            assert(ev[j] == all[a].0 && ev[h] == all[a].1);
        }
    } else {
        lemma_fan_sound(pts, ev, k, st, upto - 1);
        let less = st.found + fan(n, ev[k], st.stack, upto - 1);
        if neighbours(n, ev[k] as int, st.stack[upto] as int) {
            assert(all =~= less);
        } else {
            assert(all =~= less.push((ev[k], st.stack[upto])));
            assert forall|a: int| 0 <= a < all.len() implies exists|j: int, h: int|
                0 <= h < j < k + 1 && ev[j] == (#[trigger] all[a]).0 && ev[h] == all[a].1 by {
                if a < less.len() {
                    assert(all[a] == less[a]);
                    let (j, h) = choose|j: int, h: int| 0 <= h < j < k + 1 && ev[j] == less[a].0 && ev[h] == less[a].1;
                    assert(ev[j] == all[a].0 && ev[h] == all[a].1);
                } else {
                    let h = choose|h: int| 0 <= h < k && ev[h] == st.stack[upto];
                    assert(ev[k] == all[a].0 && ev[h] == all[a].1);
                }
            }
        }
    }
}

} // verus!

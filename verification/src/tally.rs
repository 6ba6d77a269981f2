//! Counting in an edge list: the half-edges around the faces inside the
//! polygon, and the diagonals.

use crate::keys::{lemma_no_longer, lemma_push_fresh};
use crate::mesh::Mesh;
use crate::split::{cut_mesh, cut_ready, lemma_cut_inner, Cut};
use slotmap::DefaultKey;
use vstd::prelude::*;

verus! {

/// The number of half-edges on the boundaries of the faces `fs`.
pub open spec fn total_len(cycles: Map<DefaultKey, Seq<DefaultKey>>, fs: Seq<DefaultKey>) -> nat
    decreases fs.len(),
{
    if fs.len() == 0 {
        0
    } else {
        total_len(cycles, fs.drop_last()) + cycles[fs.last()].len()
    }
}

pub proof fn lemma_total_lower(cycles: Map<DefaultKey, Seq<DefaultKey>>, fs: Seq<DefaultKey>)
    requires
        forall|i: int| 0 <= i < fs.len() ==> cycles[#[trigger] fs[i]].len() >= 3,
    ensures
        total_len(cycles, fs) >= 3 * fs.len(),
    decreases fs.len(),
{
    if fs.len() > 0 {
        assert forall|i: int| 0 <= i < fs.drop_last().len() implies cycles[#[trigger] fs.drop_last()[i]].len() >= 3 by {
            assert(fs.drop_last()[i] == fs[i]);
        }
        lemma_total_lower(cycles, fs.drop_last());
    }
}

pub proof fn lemma_total_threes(cycles: Map<DefaultKey, Seq<DefaultKey>>, fs: Seq<DefaultKey>)
    requires
        forall|i: int| 0 <= i < fs.len() ==> cycles[#[trigger] fs[i]].len() == 3,
    ensures
        total_len(cycles, fs) == 3 * fs.len(),
    decreases fs.len(),
{
    if fs.len() > 0 {
        assert forall|i: int| 0 <= i < fs.drop_last().len() implies cycles[#[trigger] fs.drop_last()[i]].len() == 3 by {
            assert(fs.drop_last()[i] == fs[i]);
        }
        lemma_total_threes(cycles, fs.drop_last());
    }
}

pub proof fn lemma_total_same(a: Map<DefaultKey, Seq<DefaultKey>>, b: Map<DefaultKey, Seq<DefaultKey>>, fs: Seq<DefaultKey>)
    requires
        forall|i: int| 0 <= i < fs.len() ==> a[#[trigger] fs[i]] == b[fs[i]],
    ensures
        total_len(a, fs) == total_len(b, fs),
    decreases fs.len(),
{
    if fs.len() > 0 {
        assert forall|i: int| 0 <= i < fs.drop_last().len() implies a[#[trigger] fs.drop_last()[i]] == b[fs.drop_last()[i]] by {
            assert(fs.drop_last()[i] == fs[i]);
        }
        lemma_total_same(a, b, fs.drop_last());
    }
}

pub proof fn lemma_total_remove(cycles: Map<DefaultKey, Seq<DefaultKey>>, fs: Seq<DefaultKey>, i: int)
    requires
        0 <= i < fs.len(),
    ensures
        total_len(cycles, fs) == total_len(cycles, fs.remove(i)) + cycles[fs[i]].len(),
    decreases fs.len(),
{
    if i == fs.len() - 1 {
        assert(fs.remove(i) =~= fs.drop_last());
    } else {
        lemma_total_remove(cycles, fs.drop_last(), i);
        assert(fs.remove(i).drop_last() =~= fs.drop_last().remove(i));
        assert(fs.remove(i).last() == fs.last());
    }
}

pub proof fn lemma_total_push(cycles: Map<DefaultKey, Seq<DefaultKey>>, fs: Seq<DefaultKey>, f: DefaultKey)
    ensures
        total_len(cycles, fs.push(f)) == total_len(cycles, fs) + cycles[f].len(),
{
    assert(fs.push(f).drop_last() =~= fs);
}

/// A cut adds one face inside the polygon and two half-edges to the
/// boundaries of such faces.
pub proof fn lemma_count_cut(m: Mesh, c: Cut, interior: Seq<DefaultKey>)
    requires
        cut_ready(m, c),
        interior.no_duplicates(),
        forall|g: DefaultKey|
            #![trigger m.internal(g)]
            #![trigger interior.contains(g)]
            m.internal(g) == interior.contains(g),
    ensures
        ({
            let after = interior.remove(interior.index_of(c.f)).push(c.fa).push(c.fb);
            let m2 = cut_mesh(m, c);
            &&& after.no_duplicates()
            &&& forall|g: DefaultKey|
                #![trigger m2.internal(g)]
                #![trigger after.contains(g)]
                m2.internal(g) == after.contains(g)
            &&& after.len() == interior.len() + 1
            &&& total_len(m2.cycles, after) == total_len(m.cycles, interior) + 2
        }),
{
    let m2 = cut_mesh(m, c);
    assert(interior.contains(c.f));
    let idx = interior.index_of(c.f);
    assert(0 <= idx < interior.len() && interior[idx] == c.f);
    let rest = interior.remove(idx);
    assert forall|a: int| 0 <= a < rest.len() implies #[trigger] rest[a] == interior[if a < idx { a } else { a + 1 }] by {}
    assert forall|g: DefaultKey| #[trigger] rest.contains(g) <==> (interior.contains(g) && g != c.f) by {
        if rest.contains(g) {
            let a = choose|a: int| 0 <= a < rest.len() && rest[a] == g;
            let b = if a < idx { a } else { a + 1 };
            assert(interior[b] == g);
        }
        if interior.contains(g) && g != c.f {
            let b = choose|b: int| 0 <= b < interior.len() && interior[b] == g;
            let a = if b < idx { b } else { b - 1 };
            assert(rest[a] == g);
        }
    }
    assert(rest.no_duplicates()) by {
        assert forall|a: int, b: int| 0 <= a < rest.len() && 0 <= b < rest.len() && a != b implies rest[a] != rest[b] by {
            let a2 = if a < idx { a } else { a + 1 };
            let b2 = if b < idx { b } else { b + 1 };
            assert(rest[a] == interior[a2]);
            assert(rest[b] == interior[b2]);
        }
    }
    assert(!rest.contains(c.fa)) by {
        if rest.contains(c.fa) {
            assert(m.internal(c.fa));
        }
    }
    lemma_push_fresh(rest, c.fa);
    let r1 = rest.push(c.fa);
    assert(!r1.contains(c.fb)) by {
        if rest.contains(c.fb) {
            assert(m.internal(c.fb));
        }
    }
    lemma_push_fresh(r1, c.fb);
    let after = r1.push(c.fb);
    assert(m.internal(m.outside) == false);
    assert forall|g: DefaultKey|
        #![trigger m2.internal(g)]
        #![trigger after.contains(g)]
        m2.internal(g) == after.contains(g) by {
        assert(r1.contains(g) == (rest.contains(g) || g == c.fa));
        assert(after.contains(g) == (r1.contains(g) || g == c.fb));
        assert(rest.contains(g) == (interior.contains(g) && g != c.f));
        assert(interior.contains(g) == m.internal(g));
    }
    lemma_total_push(m2.cycles, r1, c.fb);
    lemma_total_push(m2.cycles, rest, c.fa);
    assert forall|a: int| 0 <= a < rest.len() implies m2.cycles[#[trigger] rest[a]] == m.cycles[rest[a]] by {
        assert(rest.contains(rest[a]));
        assert(m.internal(rest[a]));
    }
    lemma_total_same(m2.cycles, m.cycles, rest);
    lemma_total_remove(m.cycles, interior, idx);
}

/// Whether `chords` lists one half of every diagonal: half-edges with a face
/// inside the polygon on either side, none twice, and of every such
/// half-edge and its twin exactly one.
pub open spec fn chords_pair(m: Mesh, chords: Seq<DefaultKey>) -> bool {
    &&& chords.no_duplicates()
    &&& forall|i: int| 0 <= i < chords.len() ==> m.inner(#[trigger] chords[i])
    &&& forall|e: DefaultKey| #[trigger] m.inner(e) ==> chords.contains(e) != chords.contains(m.twin(e))
}

/// A cut adds a diagonal.
pub proof fn lemma_chords_cut(m: Mesh, c: Cut, chords: Seq<DefaultKey>)
    requires
        cut_ready(m, c),
        chords_pair(m, chords),
    ensures
        chords_pair(cut_mesh(m, c), chords.push(c.e1)),
{
    let m2 = cut_mesh(m, c);
    let after = chords.push(c.e1);
    assert(!chords.contains(c.e1) && !chords.contains(c.e2)) by {
        if chords.contains(c.e1) {
            let i = choose|i: int| 0 <= i < chords.len() && chords[i] == c.e1;
            assert(m.inner(chords[i]));
        }
        if chords.contains(c.e2) {
            let i = choose|i: int| 0 <= i < chords.len() && chords[i] == c.e2;
            assert(m.inner(chords[i]));
        }
    }
    lemma_push_fresh(chords, c.e1);
    assert forall|i: int| 0 <= i < after.len() implies m2.inner(#[trigger] after[i]) by {
        lemma_cut_inner(m, c, after[i]);
        if i < chords.len() {
            assert(m.inner(chords[i]));
        }
    }
    assert forall|e: DefaultKey| #[trigger] m2.inner(e) implies after.contains(e) != after.contains(m2.twin(e)) by {
        lemma_cut_inner(m, c, e);
        if e != c.e1 && e != c.e2 {
            assert(m.inner(e));
            assert(m.inner(m.twin(e)));
        }
    }
}

/// Half-edges that hold one half of every diagonal are as many as another
/// such list.
pub proof fn lemma_halves_no_more(m: Mesh, a: Seq<DefaultKey>, b: Seq<DefaultKey>)
    requires
        m.wf(),
        chords_pair(m, a),
        chords_pair(m, b),
    ensures
        a.len() <= b.len(),
{
    let picked = Seq::new(a.len(), |i: int| if b.contains(a[i]) { a[i] } else { m.twin(a[i]) });
    assert forall|i: int, j: int| 0 <= i < picked.len() && 0 <= j < picked.len() && i != j implies picked[i] != picked[j] by {
        assert(m.inner(a[i]));
        assert(m.inner(a[j]));
        assert(m.edge_ok(a[i]));
        assert(m.edge_ok(a[j]));
        if picked[i] == picked[j] {
            if b.contains(a[i]) == b.contains(a[j]) {
                assert(m.edge_ok(m.twin(a[i])));
                assert(m.twin(m.twin(a[i])) == m.twin(m.twin(a[j])));
            } else if b.contains(a[i]) {
                assert(a.contains(a[j]));
                assert(a.contains(m.twin(a[j])));
            } else {
                assert(a.contains(a[i]));
                assert(a.contains(m.twin(a[i])));
            }
        }
    }
    assert forall|i: int| 0 <= i < picked.len() implies b.contains(#[trigger] picked[i]) by {
        assert(m.inner(a[i]));
    }
    lemma_no_longer(picked, b);
}

} // verus!

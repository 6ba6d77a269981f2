//! Facts about lists of keys.

use slotmap::DefaultKey;
use vstd::prelude::*;

verus! {

/// Whether the sequence `s` lists the keys of the set `dom`.
pub open spec fn keys_are(dom: Set<DefaultKey>, s: Seq<DefaultKey>) -> bool {
    forall|k: DefaultKey|
        #![trigger dom.contains(k)]
        #![trigger s.contains(k)]
        dom.contains(k) == s.contains(k)
}

/// A key occurs in two sequences laid end to end when it occurs in one.
pub proof fn lemma_joined_keys(a: Seq<DefaultKey>, b: Seq<DefaultKey>)
    ensures
        forall|k: DefaultKey| #[trigger] (a + b).contains(k) <==> (a.contains(k) || b.contains(k)),
{
    let c = a + b;
    assert forall|k: DefaultKey| #[trigger] c.contains(k) <==> (a.contains(k) || b.contains(k)) by {
        if c.contains(k) {
            let i = choose|i: int| 0 <= i < c.len() && c[i] == k;
            if i < a.len() {
                assert(a[i] == k);
            } else {
                assert(b[i - a.len()] == k);
            }
        }
        if a.contains(k) {
            let i = choose|i: int| 0 <= i < a.len() && a[i] == k;
            assert(c[i] == k);
        }
        if b.contains(k) {
            let i = choose|i: int| 0 <= i < b.len() && b[i] == k;
            assert(c[a.len() + i] == k);
        }
    }
}

/// A key that a sequence of different keys lacks may be added to it.
pub proof fn lemma_push_fresh(s: Seq<DefaultKey>, k: DefaultKey)
    requires
        s.no_duplicates(),
        !s.contains(k),
    ensures
        s.push(k).no_duplicates(),
        forall|x: DefaultKey|
            #![trigger s.push(k).contains(x)]
            #![trigger s.contains(x)]
            s.push(k).contains(x) <==> (s.contains(x) || x == k),
{
    let r = s.push(k);
    assert forall|i: int, j: int| 0 <= i < r.len() && 0 <= j < r.len() && i != j implies r[i] != r[j] by {
        if i < s.len() {
            assert(s.contains(s[i]));
        }
        if j < s.len() {
            assert(s.contains(s[j]));
        }
    }
    assert forall|x: DefaultKey|
        #![trigger r.contains(x)]
        #![trigger s.contains(x)]
        r.contains(x) <==> (s.contains(x) || x == k) by {
        if r.contains(x) {
            let i = choose|i: int| 0 <= i < r.len() && r[i] == x;
            if i < s.len() {
                assert(s[i] == x);
            }
        }
        if s.contains(x) {
            let i = choose|i: int| 0 <= i < s.len() && s[i] == x;
            assert(r[i] == x);
        }
        assert(r[s.len() as int] == k);
    }
}

/// A list of different keys, all found in another list of different keys, is
/// no longer than that list.
pub proof fn lemma_no_longer(s: Seq<DefaultKey>, t: Seq<DefaultKey>)
    requires
        s.no_duplicates(),
        t.no_duplicates(),
        forall|i: int| 0 <= i < s.len() ==> t.contains(#[trigger] s[i]),
    ensures
        s.len() <= t.len(),
        s.len() == t.len() ==> forall|k: DefaultKey| t.contains(k) ==> s.contains(k),
{
    broadcast use vstd::seq_lib::group_seq_properties;

    s.unique_seq_to_set();
    t.unique_seq_to_set();
    assert(s.to_set().subset_of(t.to_set())) by {
        assert forall|k: DefaultKey| s.to_set().contains(k) implies t.to_set().contains(k) by {
            let i = choose|i: int| 0 <= i < s.len() && s[i] == k;
            assert(t.contains(s[i]));
        }
    }
    vstd::set_lib::lemma_len_subset(s.to_set(), t.to_set());
    if s.len() == t.len() {
        vstd::set_lib::lemma_subset_equality(s.to_set(), t.to_set());
        assert forall|k: DefaultKey| t.contains(k) implies s.contains(k) by {
            assert(t.to_set().contains(k));
            assert(s.to_set().contains(k));
        }
    }
}

} // verus!

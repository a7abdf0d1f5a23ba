//! Heap-wide ordering laws, stated over the multiset model that the heap
//! operations' contracts use. Together with those contracts they pin down
//! the observable behaviour of extraction, key decrease and meld.

use vstd::prelude::*;
use vstd::multiset::Multiset;

verus! {

broadcast use vstd::multiset::group_multiset_axioms;

/// Repeated minimum extraction is sorted: if `p1` is a minimum of the
/// contents `m` (as `delete_min` ensures of its result) and `p2` is a
/// minimum of what remains after removing `p1`, then the two keys come out
/// in non-decreasing order. Applied inductively along a drain of the heap,
/// any insertion order yields a non-decreasing key sequence.
pub proof fn lemma_extract_sorted<V>(m: Multiset<(u64, V)>, p1: (u64, V), p2: (u64, V))
    requires
        m.count(p1) > 0,
        forall|q: (u64, V)| m.count(q) > 0 ==> p1.0 <= q.0,
        m.remove(p1).count(p2) > 0,
    ensures
        p1.0 <= p2.0,
{
    assert(m.count(p2) > 0);
}

/// A key decrease that lands below every remaining key becomes the minimum:
/// after exchanging `oldp` for `newp` (as `decrease_key` ensures of the
/// heap's contents) a minimum lookup must report `newp.0`, as `find_min`
/// ensures the reported key bounds every entry.
pub proof fn lemma_new_key_is_min<V>(m: Multiset<(u64, V)>, oldp: (u64, V), newp: (u64, V))
    requires
        m.count(oldp) > 0,
        forall|q: (u64, V)| #[trigger] m.count(q) > 0 ==> newp.0 <= q.0,
    ensures
        forall|q: (u64, V)| #[trigger] m.remove(oldp).insert(newp).count(q) > 0 ==> newp.0 <= q.0,
{
    assert forall|q: (u64, V)| #[trigger] m.remove(oldp).insert(newp).count(q) > 0 implies newp.0
        <= q.0 by {
        if q != newp {
            assert(m.count(q) > 0);
        }
    }
}

/// Whether `s` is a complete extraction trace of the contents `m`: each
/// element in turn is a minimal pair of what remains, until nothing does.
/// This is exactly the shape `delete_min`'s contract forces on a loop that
/// drains a heap: every `Ok` result is a minimal member and removes itself
/// from the contents, and `Err` arrives exactly when the contents are empty.
pub open spec fn is_drain<V>(m: Multiset<(u64, V)>, s: Seq<(u64, V)>) -> bool
    decreases s.len(),
{
    if s.len() == 0 {
        m.len() == 0
    } else {
        &&& m.count(s[0]) > 0
        &&& (forall|q: (u64, V)| m.count(q) > 0 ==> s[0].0 <= q.0)
        &&& is_drain(m.remove(s[0]), s.drop_first())
    }
}

/// Every element of a drain came from the contents.
pub proof fn lemma_drain_members<V>(m: Multiset<(u64, V)>, s: Seq<(u64, V)>, j: int)
    requires
        is_drain(m, s),
        0 <= j < s.len(),
    ensures
        m.count(s[j]) > 0,
    decreases s.len(),
{
    if j > 0 {
        lemma_drain_members(m.remove(s[0]), s.drop_first(), j - 1);
        assert(s.drop_first()[j - 1] == s[j]);
    }
}

/// Draining a heap by repeated minimum extraction yields keys in
/// non-decreasing sorted order — for any contents, hence for any insertion
/// order that built them.
pub proof fn lemma_drain_sorted<V>(m: Multiset<(u64, V)>, s: Seq<(u64, V)>, j1: int, j2: int)
    requires
        is_drain(m, s),
        0 <= j1 <= j2 < s.len(),
    ensures
        s[j1].0 <= s[j2].0,
    decreases s.len(),
{
    if j1 == 0 {
        if j2 > 0 {
            lemma_drain_members(m.remove(s[0]), s.drop_first(), j2 - 1);
            assert(s.drop_first()[j2 - 1] == s[j2]);
            assert(m.count(s[j2]) > 0);
        }
    } else {
        lemma_drain_sorted(m.remove(s[0]), s.drop_first(), j1 - 1, j2 - 1);
        assert(s.drop_first()[j1 - 1] == s[j1]);
        assert(s.drop_first()[j2 - 1] == s[j2]);
    }
}

/// The key a drain extracts next is determined by the contents alone: two
/// drains of equal contents agree on their first key (and on whether there
/// is one).
pub proof fn lemma_drain_first_key<V>(
    m: Multiset<(u64, V)>,
    s1: Seq<(u64, V)>,
    s2: Seq<(u64, V)>,
)
    requires
        is_drain(m, s1),
        is_drain(m, s2),
        s1.len() > 0,
    ensures
        s2.len() > 0,
        s1[0].0 == s2[0].0,
{
    vstd::multiset::axiom_count_le_len(m, s1[0]);
    assert(s2.len() > 0);
    assert(s1[0].0 <= s2[0].0);
    assert(s2[0].0 <= s1[0].0);
}

/// The minimum of a meld is the smaller of the two minima: a lower bound
/// `kb` for one side that also lies at or below a lower bound `ka` of the
/// other side bounds the merged contents (which `meld` ensures are the sum
/// of both sides).
pub proof fn lemma_union_min<V>(a: Multiset<(u64, V)>, b: Multiset<(u64, V)>, ka: u64, kb: u64)
    requires
        forall|q: (u64, V)| #[trigger] a.count(q) > 0 ==> ka <= q.0,
        forall|q: (u64, V)| #[trigger] b.count(q) > 0 ==> kb <= q.0,
        kb <= ka,
    ensures
        forall|q: (u64, V)| #[trigger] a.add(b).count(q) > 0 ==> kb <= q.0,
{
    assert forall|q: (u64, V)| #[trigger] a.add(b).count(q) > 0 implies kb <= q.0 by {
        if a.count(q) > 0 {
        } else {
            assert(b.count(q) > 0);
        }
    }
}

} // verus!

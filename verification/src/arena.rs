use vstd::prelude::*;
use vstd::multiset::Multiset;

verus! {

broadcast use vstd::multiset::group_multiset_axioms;

/// One slot of a Fibonacci-heap arena: a heap entry together with the
/// structural links that place it inside some tree of the forest.
///
/// A slot stays allocated for the lifetime of the heap; `alive` is false
/// once the entry has been removed, which is what makes a stale entry
/// handle detectable in constant time.
pub(crate) struct Node<V> {
    pub(crate) key: u64,
    pub(crate) value: V,
    pub(crate) parent: Option<usize>,
    pub(crate) children: Vec<usize>,
    pub(crate) marked: bool,
    pub(crate) alive: bool,
}

/// The multiset of (key, value) pairs held by the live slots of an arena.
pub(crate) open spec fn arena_view<V>(nodes: Seq<Node<V>>) -> Multiset<(u64, V)>
    decreases nodes.len(),
{
    if nodes.len() == 0 {
        Multiset::empty()
    } else if nodes.last().alive {
        arena_view(nodes.drop_last()).insert((nodes.last().key, nodes.last().value))
    } else {
        arena_view(nodes.drop_last())
    }
}

/// How many slots of the arena are live.
pub(crate) open spec fn count_live<V>(nodes: Seq<Node<V>>) -> nat
    decreases nodes.len(),
{
    if nodes.len() == 0 {
        0
    } else {
        count_live(nodes.drop_last()) + (if nodes.last().alive {
            1nat
        } else {
            0nat
        })
    }
}

pub(crate) proof fn lemma_count_le_len<V>(nodes: Seq<Node<V>>)
    ensures
        count_live(nodes) <= nodes.len(),
    decreases nodes.len(),
{
    if nodes.len() > 0 {
        lemma_count_le_len(nodes.drop_last());
    }
}

pub(crate) proof fn lemma_view_len<V>(nodes: Seq<Node<V>>)
    ensures
        arena_view(nodes).len() == count_live(nodes),
    decreases nodes.len(),
{
    if nodes.len() > 0 {
        lemma_view_len(nodes.drop_last());
    }
}

pub(crate) proof fn lemma_view_push<V>(nodes: Seq<Node<V>>, n: Node<V>)
    ensures
        arena_view(nodes.push(n)) == (if n.alive {
            arena_view(nodes).insert((n.key, n.value))
        } else {
            arena_view(nodes)
        }),
        count_live(nodes.push(n)) == count_live(nodes) + (if n.alive {
            1nat
        } else {
            0nat
        }),
{
    assert(nodes.push(n).drop_last() =~= nodes);
}

/// Two arenas that agree on liveness, keys and values slot by slot hold the
/// same entries, whatever their structural links look like.
pub(crate) proof fn lemma_view_pointwise<V>(a: Seq<Node<V>>, b: Seq<Node<V>>)
    requires
        a.len() == b.len(),
        forall|i: int|
            0 <= i < a.len() ==> #[trigger] a[i].alive == b[i].alive && a[i].key == b[i].key
                && a[i].value == b[i].value,
    ensures
        arena_view(a) == arena_view(b),
        count_live(a) == count_live(b),
    decreases a.len(),
{
    if a.len() > 0 {
        lemma_view_pointwise(a.drop_last(), b.drop_last());
    }
}

/// Updating one slot exchanges its old contribution for its new one.
pub(crate) proof fn lemma_view_update<V>(nodes: Seq<Node<V>>, i: int, n: Node<V>)
    requires
        0 <= i < nodes.len(),
    ensures
        nodes[i].alive && n.alive ==> arena_view(nodes.update(i, n)) == arena_view(nodes).remove(
            (nodes[i].key, nodes[i].value),
        ).insert((n.key, n.value)),
        nodes[i].alive && !n.alive ==> arena_view(nodes.update(i, n)) == arena_view(nodes).remove(
            (nodes[i].key, nodes[i].value),
        ),
        !nodes[i].alive && n.alive ==> arena_view(nodes.update(i, n)) == arena_view(nodes).insert(
            (n.key, n.value),
        ),
        !nodes[i].alive && !n.alive ==> arena_view(nodes.update(i, n)) == arena_view(nodes),
        count_live(nodes.update(i, n)) + (if nodes[i].alive {
            1nat
        } else {
            0nat
        }) == count_live(nodes) + (if n.alive {
            1nat
        } else {
            0nat
        }),
    decreases nodes.len(),
{
    if i == nodes.len() - 1 {
        assert(nodes.update(i, n).drop_last() =~= nodes.drop_last());
        if nodes[i].alive && n.alive {
            assert(arena_view(nodes.update(i, n)) =~= arena_view(nodes).remove(
                (nodes[i].key, nodes[i].value),
            ).insert((n.key, n.value)));
        }
        if nodes[i].alive && !n.alive {
            assert(arena_view(nodes.update(i, n)) =~= arena_view(nodes).remove(
                (nodes[i].key, nodes[i].value),
            ));
        }
    } else {
        lemma_view_update(nodes.drop_last(), i, n);
        assert(nodes.update(i, n).drop_last() =~= nodes.drop_last().update(i, n));
        assert(nodes.update(i, n).last() == nodes.last());
        let lastp = (nodes.last().key, nodes.last().value);
        let oldp = (nodes[i].key, nodes[i].value);
        let newp = (n.key, n.value);
        if nodes.last().alive {
            if nodes[i].alive && n.alive {
                assert(arena_view(nodes.drop_last().update(i, n)).insert(lastp) =~= arena_view(
                    nodes,
                ).remove(oldp).insert(newp)) by {
                    lemma_view_member(nodes.drop_last(), i);
                }
            }
            if nodes[i].alive && !n.alive {
                assert(arena_view(nodes.drop_last().update(i, n)).insert(lastp) =~= arena_view(
                    nodes,
                ).remove(oldp)) by {
                    lemma_view_member(nodes.drop_last(), i);
                }
            }
            if !nodes[i].alive && n.alive {
                assert(arena_view(nodes.drop_last().update(i, n)).insert(lastp) =~= arena_view(
                    nodes,
                ).insert(newp));
            }
        }
    }
}

/// A live slot's pair is in the arena's view.
pub(crate) proof fn lemma_view_member<V>(nodes: Seq<Node<V>>, i: int)
    requires
        0 <= i < nodes.len(),
        nodes[i].alive,
    ensures
        arena_view(nodes).count((nodes[i].key, nodes[i].value)) >= 1,
    decreases nodes.len(),
{
    if i < nodes.len() - 1 {
        lemma_view_member(nodes.drop_last(), i);
    }
}

/// Every pair in the view comes from some live slot.
pub(crate) proof fn lemma_view_exists<V>(nodes: Seq<Node<V>>, p: (u64, V))
    requires
        arena_view(nodes).count(p) >= 1,
    ensures
        exists|i: int|
            0 <= i < nodes.len() && (#[trigger] nodes[i]).alive && nodes[i].key == p.0
                && nodes[i].value == p.1,
    decreases nodes.len(),
{
    if nodes.len() > 0 {
        let last = nodes.last();
        if last.alive && last.key == p.0 && last.value == p.1 {
            assert(nodes[nodes.len() - 1].alive);
        } else {
            lemma_view_exists(nodes.drop_last(), p);
            let i = choose|i: int|
                0 <= i < nodes.drop_last().len() && (#[trigger] nodes.drop_last()[i]).alive
                    && nodes.drop_last()[i].key == p.0 && nodes.drop_last()[i].value == p.1;
            assert(nodes[i].alive && nodes[i].key == p.0 && nodes[i].value == p.1);
        }
    }
}

/// A nonempty count of live slots names a live slot.
pub(crate) proof fn lemma_live_exists<V>(nodes: Seq<Node<V>>)
    requires
        count_live(nodes) > 0,
    ensures
        exists|i: int| 0 <= i < nodes.len() && (#[trigger] nodes[i]).alive,
    decreases nodes.len(),
{
    if nodes.len() > 0 {
        if nodes.last().alive {
            assert(nodes[nodes.len() - 1].alive);
        } else {
            lemma_live_exists(nodes.drop_last());
            let i = choose|i: int|
                0 <= i < nodes.drop_last().len() && (#[trigger] nodes.drop_last()[i]).alive;
            assert(nodes[i].alive);
        }
    }
}

/// Splitting an arena splits its view.
pub(crate) proof fn lemma_view_concat<V>(a: Seq<Node<V>>, b: Seq<Node<V>>)
    ensures
        arena_view(a + b) == arena_view(a).add(arena_view(b)),
        count_live(a + b) == count_live(a) + count_live(b),
    decreases b.len(),
{
    if b.len() == 0 {
        assert(a + b =~= a);
        assert(arena_view(a).add(arena_view(b)) =~= arena_view(a));
    } else {
        lemma_view_concat(a, b.drop_last());
        assert((a + b).drop_last() =~= a + b.drop_last());
        assert((a + b).last() == b.last());
        if b.last().alive {
            assert(arena_view(a).add(arena_view(b.drop_last())).insert(
                (b.last().key, b.last().value),
            ) =~= arena_view(a).add(arena_view(b)));
        }
    }
}

} // verus!

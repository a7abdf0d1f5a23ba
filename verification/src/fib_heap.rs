use vstd::prelude::*;
use vstd::multiset::Multiset;

use crate::arena::{
    arena_view, count_live, lemma_count_le_len, lemma_live_exists, lemma_view_concat,
    lemma_view_exists, lemma_view_len, lemma_view_member, lemma_view_pointwise, lemma_view_push,
    lemma_view_update, Node,
};

verus! {

broadcast use vstd::multiset::group_multiset_axioms;

/// The ways an operation on a Fibonacci heap can fail.
///
/// `EmptyHeap` is returned by minimum lookup and extraction on a heap with no
/// entries. `KeyOrder` is returned when a key decrease is asked to install a
/// key that is not strictly smaller than the current one. `StaleHandle` is
/// returned when an entry handle names a node that has already been removed.
#[derive(Clone, Copy, PartialEq, Eq, Structural, Debug)]
pub enum HeapError {
    EmptyHeap,
    KeyOrder,
    StaleHandle,
}

/// A handle to one entry of a [`FibHeap`], returned by `insert` and accepted
/// by `decrease_key` and `delete`. A handle stays usable until its entry is
/// removed; afterwards the heap reports `StaleHandle` instead of touching
/// another entry. Handles obtained from a heap consumed by `meld` must not be
/// used further.
#[derive(Clone, Copy, PartialEq, Eq, Structural, Debug)]
pub struct FibEntry {
    idx: usize,
}

/// The arena slot a handle points at. Slots are never reused, so handles
/// with distinct slots never alias within one heap.
pub closed spec fn slot_of(e: FibEntry) -> int {
    e.idx as int
}

/// A Fibonacci heap: a forest of min-heap-ordered trees over an arena of
/// nodes, with the minimum root kept at the front of the root list.
///
/// Entries are `u64` keys paired with copyable payload values; the heap is a
/// multiset of such pairs, which is what `view` (the `@` operator) returns.
pub struct FibHeap<V> {
    nodes: Vec<Node<V>>,
    roots: Vec<usize>,
    total: usize,
    /// For each arena slot, the chain of ancestors of the node it holds,
    /// listed from the root of its tree down to its parent. The chain of a
    /// root is empty. This ghost data is what makes the parent links provably
    /// acyclic: every chain is finite and shrinks step by step toward a root.
    chains: Ghost<Seq<Seq<int>>>,
}

impl<V> View for FibHeap<V> {
    type V = Multiset<(u64, V)>;

    closed spec fn view(&self) -> Multiset<(u64, V)> {
        arena_view(self.nodes@)
    }
}

impl<V> FibHeap<V> {
    /// The running count of entries.
    pub closed spec fn spec_total(&self) -> int {
        self.total as int
    }

    /// How many trees the root list currently holds.
    pub closed spec fn spec_root_count(&self) -> int {
        self.roots@.len() as int
    }

    /// Whether a handle still names a live entry of this heap.
    pub closed spec fn valid_entry(&self, e: FibEntry) -> bool {
        e.idx < self.nodes@.len() && self.nodes@[e.idx as int].alive
    }

    /// The key currently held by the entry a handle names.
    pub closed spec fn spec_key(&self, e: FibEntry) -> u64 {
        self.nodes@[e.idx as int].key
    }

    /// The payload held by the entry a handle names.
    pub closed spec fn spec_value(&self, e: FibEntry) -> V {
        self.nodes@[e.idx as int].value
    }

    /// The (key, value) pair of the entry a handle names.
    pub open spec fn spec_pair(&self, e: FibEntry) -> (u64, V) {
        (self.spec_key(e), self.spec_value(e))
    }

    /// The handle of the parent of an entry, or `None` for a root.
    pub closed spec fn spec_parent(&self, e: FibEntry) -> Option<FibEntry> {
        match self.nodes@[e.idx as int].parent {
            Some(p) => Some(FibEntry { idx: p }),
            None => None,
        }
    }

    /// Whether a handle names the entry at the minimum position of the root
    /// list.
    pub closed spec fn spec_is_min(&self, e: FibEntry) -> bool {
        self.roots@.len() > 0 && e.idx == self.roots@[0]
    }

    /// The (key, value) pair at the minimum position of the root list.
    pub closed spec fn spec_min_entry(&self) -> (u64, V) {
        let r = self.roots@[0] as int;
        (self.nodes@[r].key, self.nodes@[r].value)
    }

    /// How many arena slots hold live entries.
    pub closed spec fn spec_entry_count(&self) -> nat {
        count_live(self.nodes@)
    }

    /// How many arena slots the heap has ever allocated, live or retired.
    /// Handles index into this range; slots are never reused, which is what
    /// keeps a retired handle recognizably stale.
    pub closed spec fn spec_slot_count(&self) -> int {
        self.nodes@.len() as int
    }

    /// The rank of the entry a handle names: its number of direct children.
    pub closed spec fn spec_rank(&self, e: FibEntry) -> int {
        self.nodes@[e.idx as int].children@.len() as int
    }

    /// Whether the entry a handle names carries the mark bit (it has lost a
    /// child since it last became a child of another node).
    pub closed spec fn spec_marked(&self, e: FibEntry) -> bool {
        self.nodes@[e.idx as int].marked
    }

    spec fn live(&self, i: int) -> bool {
        0 <= i < self.nodes@.len() && self.nodes@[i].alive
    }

    /// Everything the invariant asks of one live node: its ancestor chain is
    /// consistent with its parent link, heap order holds along the parent
    /// link, and its child list is a duplicate-free list of live nodes that
    /// point back to it.
    spec fn node_ok(&self, i: int) -> bool {
        let n = self.nodes@[i];
        &&& (n.parent is None ==> self.chains@[i].len() == 0)
        &&& (n.parent is Some ==> {
            let p = n.parent->0 as int;
            &&& self.live(p)
            &&& self.nodes@[p].key <= n.key
            &&& self.nodes@[p].children@.contains(i as usize)
            &&& self.chains@[i] == self.chains@[p].push(p)
        })
        &&& forall|k: int| 0 <= k < self.chains@[i].len() ==> self.live(#[trigger] self.chains@[i][k])
        &&& forall|j: int|
            0 <= j < n.children@.len() ==> self.live(#[trigger] n.children@[j] as int)
                && self.nodes@[n.children@[j] as int].parent == Some(i as usize)
        &&& forall|j1: int, j2: int|
            0 <= j1 < j2 < n.children@.len() ==> n.children@[j1] != n.children@[j2]
    }

    spec fn inv_core(&self) -> bool {
        &&& self.chains@.len() == self.nodes@.len()
        &&& self.total as nat == count_live(self.nodes@)
        &&& forall|i: int| #[trigger] self.live(i) ==> self.node_ok(i)
        &&& forall|i: int|
            0 <= i < self.nodes@.len() && !(#[trigger] self.nodes@[i]).alive ==> self.nodes@[i].parent
                is None && self.nodes@[i].children@.len() == 0
    }

    spec fn root_at_ok(&self, j: int) -> bool {
        let r = self.roots@[j] as int;
        self.live(r) && self.nodes@[r].parent is None && !self.nodes@[r].marked
    }

    /// The root list holds exactly the live parentless nodes, each once,
    /// none of them marked.
    spec fn roots_ok(&self) -> bool {
        &&& forall|j: int| 0 <= j < self.roots@.len() ==> #[trigger] self.root_at_ok(j)
        &&& forall|j1: int, j2: int|
            0 <= j1 < j2 < self.roots@.len() ==> self.roots@[j1] != self.roots@[j2]
        &&& forall|i: int|
            #[trigger] self.live(i) && self.nodes@[i].parent is None ==> self.roots@.contains(
                i as usize,
            )
    }

    /// The key at the front of the root list is a lower bound for every live
    /// entry's key.
    spec fn min_ok(&self) -> bool {
        self.roots@.len() > 0 ==> forall|i: int|
            #[trigger] self.live(i) ==> self.nodes@[self.roots@[0] as int].key <= self.nodes@[i].key
    }

    /// The heap's invariant: every public operation requires it and
    /// re-establishes it.
    pub closed spec fn wf(&self) -> bool {
        self.inv_core() && self.roots_ok() && self.min_ok()
    }

    /// Walking ancestor chains upward ends at a live, parentless node whose
    /// key bounds the starting key from below.
    proof fn lemma_chain_top(&self, i: int)
        requires
            self.inv_core(),
            self.live(i),
        ensures
            ({
                let top = if self.chains@[i].len() == 0 {
                    i
                } else {
                    self.chains@[i][0]
                };
                self.live(top) && self.nodes@[top].parent is None && self.nodes@[top].key
                    <= self.nodes@[i].key
            }),
        decreases self.chains@[i].len(),
    {
        assert(self.node_ok(i));
        if self.chains@[i].len() > 0 {
            let p = self.nodes@[i].parent->0 as int;
            assert(self.nodes@[i].parent is Some);
            self.lemma_chain_top(p);
            assert(self.chains@[i][0] == if self.chains@[p].len() == 0 {
                p
            } else {
                self.chains@[p][0]
            });
        }
    }

    /// If a node's chain passes through an ancestor `a`, the chain up to `a`
    /// is exactly `a`'s own chain.
    proof fn lemma_chain_prefix(&self, i: int, a: int)
        requires
            self.inv_core(),
            self.live(i),
            self.chains@[i].contains(a),
        ensures
            ({
                let k = self.chains@[a].len() as int;
                &&& self.live(a)
                &&& k < self.chains@[i].len()
                &&& self.chains@[i].take(k) == self.chains@[a]
                &&& self.chains@[i][k] == a
            }),
        decreases self.chains@[i].len(),
    {
        assert(self.node_ok(i));
        let p = self.nodes@[i].parent->0 as int;
        assert(self.nodes@[i].parent is Some);
        assert(self.chains@[i] == self.chains@[p].push(p));
        if a == p {
            assert(self.chains@[i].take(self.chains@[p].len() as int) =~= self.chains@[p]);
        } else {
            assert(self.chains@[i][self.chains@[i].len() - 1] == p);
            let w = choose|w: int| 0 <= w < self.chains@[i].len() && self.chains@[i][w] == a;
            assert(w < self.chains@[i].len() - 1);
            assert(self.chains@[p][w] == a);
            assert(self.chains@[p].contains(a));
            self.lemma_chain_prefix(p, a);
            let k = self.chains@[a].len() as int;
            assert(self.chains@[i].take(k) =~= self.chains@[p].take(k));
        }
    }

    /// A node never sits on its own ancestor chain.
    proof fn lemma_no_self_chain(&self, i: int)
        requires
            self.inv_core(),
            self.live(i),
        ensures
            !self.chains@[i].contains(i),
    {
        if self.chains@[i].contains(i) {
            self.lemma_chain_prefix(i, i);
        }
    }

    /// No chain passes through a childless node.
    proof fn lemma_no_chain_through_childless(&self, i: int, m: int)
        requires
            self.inv_core(),
            self.live(i),
            self.live(m),
            self.nodes@[m].children@.len() == 0,
        ensures
            !self.chains@[i].contains(m),
        decreases self.chains@[i].len(),
    {
        assert(self.node_ok(i));
        if self.chains@[i].contains(m) {
            let p = self.nodes@[i].parent->0 as int;
            assert(self.nodes@[i].parent is Some);
            assert(self.nodes@[m].children@.contains(i as usize) ==> false);
            if p == m {
                assert(self.nodes@[m].children@.contains(i as usize));
            } else {
                assert(self.chains@[i][self.chains@[i].len() - 1] == p);
                let w = choose|w: int| 0 <= w < self.chains@[i].len() && self.chains@[i][w] == m;
                assert(w < self.chains@[i].len() - 1);
                assert(self.chains@[p][w] == m);
                assert(self.chains@[p].contains(m));
                self.lemma_no_chain_through_childless(p, m);
            }
        }
    }

    /// An empty root list means an empty heap.
    proof fn lemma_no_roots_no_live(&self)
        requires
            self.inv_core(),
            self.roots_ok(),
            self.roots@.len() == 0,
        ensures
            count_live(self.nodes@) == 0,
            arena_view(self.nodes@) == Multiset::<(u64, V)>::empty(),
    {
        if count_live(self.nodes@) > 0 {
            lemma_live_exists(self.nodes@);
            let i = choose|i: int| 0 <= i < self.nodes@.len() && (#[trigger] self.nodes@[i]).alive;
            assert(self.live(i));
            self.lemma_chain_top(i);
            let top = if self.chains@[i].len() == 0 {
                i
            } else {
                self.chains@[i][0]
            };
            assert(self.roots@.contains(top as usize));
        }
        lemma_view_len(self.nodes@);
        assert(arena_view(self.nodes@) =~= Multiset::<(u64, V)>::empty()) by {
            assert forall|p: (u64, V)| arena_view(self.nodes@).count(p) == 0 by {
                vstd::multiset::axiom_count_le_len(arena_view(self.nodes@), p);
            }
        }
    }
}

impl<V: Copy> FibHeap<V> {
    /// Produces an empty heap.
    pub fn new() -> (h: Self)
        ensures
            h.wf(),
            h@ == Multiset::<(u64, V)>::empty(),
            h.spec_total() == 0,
            h.spec_root_count() == 0,
    {
        let h = FibHeap {
            nodes: Vec::new(),
            roots: Vec::new(),
            total: 0,
            chains: Ghost(Seq::empty()),
        };
        proof {
            assert(h@ =~= Multiset::<(u64, V)>::empty());
        }
        h
    }

    /// Adds one entry and hands back its handle. The new entry joins the
    /// root list; every previously issued handle keeps naming what it named.
    pub fn insert(&mut self, key: u64, value: V) -> (e: FibEntry)
        requires
            old(self).wf(),
        ensures
            final(self).wf(),
            final(self)@ == old(self)@.insert((key, value)),
            final(self).valid_entry(e),
            !old(self).valid_entry(e),
            final(self).spec_pair(e) == (key, value),
            final(self).spec_total() == old(self).spec_total() + 1,
            // the new entry joins as an unmarked, parentless, childless root
            final(self).spec_parent(e) is None,
            final(self).spec_children(e).len() == 0,
            !final(self).spec_marked(e),
            final(self).spec_slot_count() == old(self).spec_slot_count() + 1,
            forall|e2: FibEntry| #[trigger]
                old(self).valid_entry(e2) ==> final(self).valid_entry(e2) && final(self).spec_pair(
                    e2,
                ) == old(self).spec_pair(e2),
            // a handle that was stale stays stale
            forall|e2: FibEntry| #[trigger]
                final(self).valid_entry(e2) ==> old(self).valid_entry(e2) || e2 == e,
    {
        let ghost h0 = *self;
        let idx = self.nodes.len();
        let node = Node {
            key,
            value,
            parent: None,
            children: Vec::new(),
            marked: false,
            alive: true,
        };
        proof {
            lemma_count_le_len(h0.nodes@);
        }
        self.nodes.push(node);
        let n = self.nodes.len();
        proof {
            lemma_view_push(h0.nodes@, self.nodes@.last());
            assert(self.total < n);
        }
        self.chains = Ghost(self.chains@.push(Seq::empty()));
        self.total = self.total + 1;
        let ghost at_front: bool;
        if self.roots.len() == 0 {
            proof {
                h0.lemma_no_roots_no_live();
                at_front = false;
            }
            self.roots.push(idx);
        } else {
            proof {
                assert(h0.root_at_ok(0));
            }
            let m = self.roots[0];
            if key < self.nodes[m].key {
                proof {
                    at_front = true;
                }
                self.roots.insert(0, idx);
            } else {
                proof {
                    at_front = false;
                }
                self.roots.push(idx);
            }
        }
        proof {
            self.lemma_after_insert(h0, idx, at_front);
        }
        FibEntry { idx }
    }

    /// The invariant bookkeeping shared by both root-list placements of a
    /// freshly inserted node.
    proof fn lemma_after_insert(&self, h0: FibHeap<V>, idx: usize, at_front: bool)
        requires
            h0.wf(),
            idx as int == h0.nodes@.len(),
            self.nodes@.len() == h0.nodes@.len() + 1,
            forall|i: int| 0 <= i < idx ==> self.nodes@[i] == h0.nodes@[i],
            self.nodes@[idx as int].alive,
            self.nodes@[idx as int].parent is None,
            !self.nodes@[idx as int].marked,
            self.nodes@[idx as int].children@.len() == 0,
            count_live(self.nodes@) == count_live(h0.nodes@) + 1,
            self.chains@ == h0.chains@.push(Seq::<int>::empty()),
            self.total == h0.total + 1,
            self.roots@ == (if at_front {
                h0.roots@.insert(0, idx)
            } else {
                h0.roots@.push(idx)
            }),
            at_front ==> h0.roots@.len() > 0 && self.nodes@[idx as int].key
                < self.nodes@[h0.roots@[0] as int].key,
            !at_front && h0.roots@.len() > 0 ==> self.nodes@[h0.roots@[0] as int].key
                <= self.nodes@[idx as int].key,
        ensures
            self.wf(),
    {
        let ii = idx as int;
        let at = at_front;
        assert forall|i: int| #[trigger] self.live(i) implies self.node_ok(i) by {
            if i < ii {
                assert(h0.live(i));
                assert(h0.node_ok(i));
                assert(self.nodes@[i] == h0.nodes@[i]);
                assert forall|k: int| 0 <= k < self.chains@[i].len() implies self.live(
                    #[trigger] self.chains@[i][k],
                ) by {
                    assert(h0.live(h0.chains@[i][k]));
                }
            }
        }
        assert forall|j: int| 0 <= j < self.roots@.len() implies #[trigger] self.root_at_ok(j) by {
            if !at {
                if j < h0.roots@.len() {
                    assert(h0.root_at_ok(j));
                    assert(self.roots@[j] == h0.roots@[j]);
                } else {
                    assert(self.roots@[j] == idx);
                }
            } else {
                if j > 0 {
                    assert(h0.root_at_ok(j - 1));
                    assert(self.roots@[j] == h0.roots@[j - 1]);
                } else {
                    assert(self.roots@[0] == idx);
                }
            }
        }
        assert forall|j: int| 0 <= j < h0.roots@.len() implies h0.roots@[j] != idx by {
            assert(h0.root_at_ok(j));
        }
        assert forall|j1: int, j2: int| 0 <= j1 < j2 < self.roots@.len() implies self.roots@[j1]
            != self.roots@[j2] by {
            if !at {
                if j2 < h0.roots@.len() {
                    assert(self.roots@[j1] == h0.roots@[j1] && self.roots@[j2] == h0.roots@[j2]);
                } else {
                    assert(self.roots@[j1] == h0.roots@[j1] && self.roots@[j2] == idx);
                }
            } else {
                if j1 > 0 {
                    assert(self.roots@[j1] == h0.roots@[j1 - 1] && self.roots@[j2] == h0.roots@[j2
                        - 1]);
                } else {
                    assert(self.roots@[j1] == idx && self.roots@[j2] == h0.roots@[j2 - 1]);
                }
            }
        }
        assert forall|i: int| #[trigger] self.live(i) && self.nodes@[i].parent is None implies self
            .roots@.contains(i as usize) by {
            if i < ii {
                assert(h0.live(i));
                assert(h0.roots@.contains(i as usize));
                let w = choose|w: int| 0 <= w < h0.roots@.len() && h0.roots@[w] == i as usize;
                if !at {
                    assert(self.roots@[w] == i as usize);
                } else {
                    assert(self.roots@[w + 1] == i as usize);
                }
            } else {
                if !at {
                    assert(self.roots@[self.roots@.len() - 1] == idx);
                } else {
                    assert(self.roots@[0] == idx);
                }
            }
        }
        assert(self.min_ok()) by {
            assert(self.roots@.len() > 0);
            let m0 = self.roots@[0] as int;
            assert forall|i: int| #[trigger] self.live(i) implies self.nodes@[m0].key
                <= self.nodes@[i].key by {
                if at {
                    assert(m0 == ii);
                    assert(h0.root_at_ok(0));
                    assert(self.nodes@[h0.roots@[0] as int] == h0.nodes@[h0.roots@[0] as int]);
                    if i < ii {
                        assert(h0.live(i));
                        assert(h0.nodes@[h0.roots@[0] as int].key <= h0.nodes@[i].key);
                    }
                } else {
                    if h0.roots@.len() == 0 {
                        h0.lemma_no_roots_no_live();
                        if i < ii {
                            assert(h0.live(i));
                            lemma_live_at(h0.nodes@, i);
                        }
                        assert(m0 == ii);
                    } else {
                        assert(self.roots@[0] == h0.roots@[0]);
                        assert(h0.root_at_ok(0));
                        assert(self.nodes@[h0.roots@[0] as int] == h0.nodes@[h0.roots@[0] as int]);
                        if i < ii {
                            assert(h0.live(i));
                            assert(h0.nodes@[h0.roots@[0] as int].key <= h0.nodes@[i].key);
                        }
                    }
                }
            }
        }
    }

    /// Detaches the `j`-th child of node `p` and makes it a root: the child
    /// loses its parent link and its mark and is pushed onto the back of the
    /// root list. No key, value or liveness changes, so the heap's contents
    /// are untouched; only the forest's shape changes.
    fn detach_child(&mut self, p: usize, j: usize) -> (c: usize)
        requires
            old(self).inv_core(),
            old(self).roots_ok(),
            old(self).live(p as int),
            j < old(self).nodes@[p as int].children@.len(),
        ensures
            self_entries_match(*old(self), *final(self)),
            final(self).inv_core(),
            final(self).roots_ok(),
            c == old(self).nodes@[p as int].children@[j as int],
            final(self).roots@ == old(self).roots@.push(c),
            final(self).nodes@[c as int].parent is None,
            !final(self).nodes@[c as int].marked,
            final(self).nodes@[p as int].children@ == old(self).nodes@[p as int].children@.remove(
                j as int,
            ),
            forall|i: int|
                0 <= i < final(self).nodes@.len() && i != p
                    ==> (#[trigger] final(self).nodes@[i]).children == old(self).nodes@[i].children,
            forall|i: int|
                0 <= i < final(self).nodes@.len() && i != c
                    ==> (#[trigger] final(self).nodes@[i]).parent == old(self).nodes@[i].parent
                    && final(self).nodes@[i].marked == old(self).nodes@[i].marked,
            final(self).nodes@[p as int].parent == old(self).nodes@[p as int].parent,
            final(self).chains@[p as int] == old(self).chains@[p as int],
    {
        let ghost h0 = *self;
        let c = self.nodes[p].children[j];
        proof {
            assert(h0.node_ok(p as int));
            assert(h0.live(c as int));
            assert(h0.nodes@[c as int].parent == Some(p));
        }
        self.nodes[p].children.remove(j);
        self.nodes[c].parent = None;
        self.nodes[c].marked = false;
        self.roots.push(c);
        let ghost k = h0.chains@[c as int].len() as int;
        self.chains = Ghost(
            Seq::new(
                h0.chains@.len(),
                |m: int|
                    if m == c as int || h0.chains@[m].contains(c as int) {
                        h0.chains@[m].skip(k)
                    } else {
                        h0.chains@[m]
                    },
            ),
        );
        proof {
            lemma_after_detach(h0, *self, p, j, c);
        }
        c
    }

    /// Links two trees of equal standing: the root `c` becomes the first
    /// child of the root `w`, whose key does not exceed `c`'s. The loser's
    /// mark is cleared, as a node that has just become a child has lost no
    /// child since.
    fn link_under(&mut self, w: usize, c: usize)
        requires
            old(self).inv_core(),
            old(self).live(w as int),
            old(self).live(c as int),
            c != w,
            old(self).nodes@[w as int].parent is None,
            old(self).nodes@[c as int].parent is None,
            old(self).nodes@[w as int].key <= old(self).nodes@[c as int].key,
        ensures
            self_entries_match(*old(self), *final(self)),
            final(self).inv_core(),
            final(self)@ == old(self)@,
            final(self).roots@ == old(self).roots@,
            final(self).nodes@[w as int].children@ == old(self).nodes@[w as int].children@.insert(
                0,
                c,
            ),
            forall|i: int|
                0 <= i < final(self).nodes@.len() && i != w
                    ==> (#[trigger] final(self).nodes@[i]).children == old(self).nodes@[i].children,
            final(self).nodes@[c as int].parent == Some(w),
            !final(self).nodes@[c as int].marked,
            forall|i: int|
                0 <= i < final(self).nodes@.len() && i != c
                    ==> (#[trigger] final(self).nodes@[i]).parent == old(self).nodes@[i].parent
                    && final(self).nodes@[i].marked == old(self).nodes@[i].marked,
    {
        let ghost h0 = *self;
        self.nodes[c].parent = Some(w);
        self.nodes[c].marked = false;
        self.nodes[w].children.insert(0, c);
        self.chains = Ghost(
            Seq::new(
                h0.chains@.len(),
                |m: int|
                    if m == c as int || h0.chains@[m].contains(c as int) {
                        seq![w as int] + h0.chains@[m]
                    } else {
                        h0.chains@[m]
                    },
            ),
        );
        proof {
            lemma_after_link(h0, *self, w, c);
        }
    }

    /// Whether slot `i` holds a live, parentless node: a tree root, whether
    /// or not it currently sits on the root list.
    spec fn parentless(&self, i: int) -> bool {
        self.live(i) && self.nodes@[i].parent is None
    }

    /// Settles the tree rooted at `x` into the rank-indexed slot array:
    /// while the slot for `x`'s rank is occupied, the two equal-rank trees
    /// are linked (the strictly smaller key wins; on equal keys the earlier
    /// occupant wins) and the merged tree moves up one rank.
    fn place_by_rank(&mut self, slots: &mut Vec<Option<usize>>, x: usize)
        requires
            old(self).inv_core(),
            old(self).live(x as int),
            old(self).nodes@[x as int].parent is None,
            !old(self).nodes@[x as int].marked,
            !in_slots(old(slots)@, x),
            forall|s: int|
                0 <= s < old(slots)@.len() && (#[trigger] old(slots)@[s]) is Some ==> old(self).parentless(old(slots)@[s]->0 as int) && !old(self).nodes@[old(slots)@[s]->0 as int].marked,
            forall|s1: int, s2: int|
                0 <= s1 < s2 < old(slots)@.len() && old(slots)@[s1] is Some && old(slots)@[s2]
                    is Some ==> old(slots)@[s1]->0 != old(slots)@[s2]->0,
            // slot s holds a tree whose root has rank s
            forall|s: int|
                0 <= s < old(slots)@.len() && (#[trigger] old(slots)@[s]) is Some ==> old(self).nodes@[old(slots)@[s]->0 as int].children@.len() == s,
        ensures
            final(self).inv_core(),
            self_entries_match(*old(self), *final(self)),
            final(self)@ == old(self)@,
            final(self).roots@ == old(self).roots@,
            forall|s: int|
                0 <= s < final(slots)@.len() && (#[trigger] final(slots)@[s]) is Some ==> final(self).parentless(final(slots)@[s]->0 as int) && !final(self).nodes@[final(slots)@[s]->0 as int].marked,
            forall|s1: int, s2: int|
                0 <= s1 < s2 < final(slots)@.len() && final(slots)@[s1] is Some && final(slots)@[s2] is Some ==> final(slots)@[s1]->0 != final(slots)@[s2]->0,
            forall|s: int|
                0 <= s < final(slots)@.len() && (#[trigger] final(slots)@[s]) is Some ==> final(self).nodes@[final(slots)@[s]->0 as int].children@.len() == s,
            forall|i: usize| #[trigger]
                in_slots(final(slots)@, i) ==> in_slots(old(slots)@, i) || i == x,
            forall|i: int| #[trigger]
                final(self).parentless(i) ==> old(self).parentless(i),
            forall|i: int| #[trigger]
                old(self).parentless(i) && !in_slots(old(slots)@, i as usize) && i != x as int
                    ==> final(self).parentless(i) && final(self).nodes@[i].marked == old(self).nodes@[i].marked,
            forall|i: int| #[trigger]
                final(self).parentless(i) ==> in_slots(final(slots)@, i as usize) || (old(self).parentless(i) && !in_slots(old(slots)@, i as usize) && i != x as int),
        decreases occ_count(old(slots)@),
    {
        let ghost h0 = *self;
        let ghost s0 = slots@;
        proof {
            vstd::std_specs::vec::axiom_spec_len(&self.nodes);
            assert(h0.node_ok(x as int));
        }
        let r = self.nodes[x].children.len();
        while slots.len() <= r
            invariant
                slots@.len() >= s0.len(),
                forall|s: int|
                    0 <= s < slots@.len() ==> #[trigger] slots@[s] == (if s < s0.len() {
                        s0[s]
                    } else {
                        None::<usize>
                    }),
            decreases r + 1 - slots@.len(),
        {
            slots.push(None);
        }
        proof {
            assert forall|i: usize| #[trigger]
                in_slots(slots@, i) implies in_slots(s0, i) by {
                let s = choose|s: int| 0 <= s < slots@.len() && slots@[s] == Some(i);
                assert(s < s0.len() && s0[s] == Some(i));
            }
            assert forall|i: usize| #[trigger]
                in_slots(s0, i) implies in_slots(slots@, i) by {
                let s = choose|s: int| 0 <= s < s0.len() && s0[s] == Some(i);
                assert(slots@[s] == Some(i));
            }
            lemma_occ_grown(s0, slots@);
        }
        let cur = slots[r];
        match cur {
            None => {
                let ghost sg = slots@;
                slots[r] = Some(x);
                proof {
                    assert forall|i: usize| #[trigger]
                        in_slots(slots@, i) implies in_slots(s0, i) || i == x by {
                        let s = choose|s: int| 0 <= s < slots@.len() && slots@[s] == Some(i);
                        if s != r {
                            assert(sg[s] == Some(i));
                        }
                    }
                    assert forall|i: int| #[trigger]
                        self.parentless(i) implies in_slots(slots@, i as usize) || (h0.parentless(i)
                        && !in_slots(s0, i as usize) && i != x as int) by {
                        if i == x as int {
                            assert(slots@[r as int] == Some(x));
                        } else if in_slots(s0, i as usize) {
                            let s = choose|s: int| 0 <= s < s0.len() && s0[s] == Some(i as usize);
                            assert(s != r);
                            assert(slots@[s] == Some(i as usize));
                        }
                    }
                }
            },
            Some(y) => {
                let ghost sg = slots@;
                slots[r] = None;
                proof {
                    assert(sg[r as int] == Some(y));
                    assert(in_slots(s0, y));
                    assert(h0.parentless(y as int) && !h0.nodes@[y as int].marked);
                    assert(y != x);
                    lemma_occ_update_to_none(sg, r as int);
                    assert forall|i: usize| #[trigger]
                        in_slots(slots@, i) implies in_slots(s0, i) && i != y by {
                        let s = choose|s: int| 0 <= s < slots@.len() && slots@[s] == Some(i);
                        assert(s != r);
                        assert(sg[s] == Some(i));
                        if i == y {
                            assert(sg[s] == Some(y) && sg[r as int] == Some(y));
                        }
                    }
                }
                let w: usize;
                let c: usize;
                if self.nodes[x].key < self.nodes[y].key {
                    w = x;
                    c = y;
                } else {
                    w = y;
                    c = x;
                }
                self.link_under(w, c);
                let ghost hl = *self;
                let ghost sn = slots@;
                proof {
                    assert(self.parentless(w as int));
                    assert(!in_slots(slots@, w));
                }
                self.place_by_rank(slots, w);
                proof {
                    assert forall|i: int| #[trigger]
                        self.parentless(i) implies in_slots(slots@, i as usize) || (h0.parentless(i)
                        && !in_slots(s0, i as usize) && i != x as int) by {
                        if !in_slots(slots@, i as usize) {
                            assert(hl.parentless(i) && !in_slots(sn, i as usize) && i != w as int);
                            assert(i != c as int);
                            assert(h0.parentless(i));
                            assert(!in_slots(s0, i as usize)) by {
                                if in_slots(s0, i as usize) {
                                    let s = choose|s: int|
                                        0 <= s < s0.len() && s0[s] == Some(i as usize);
                                    assert(sg[s] == Some(i as usize));
                                    if s == r as int {
                                        assert(i as usize == y);
                                        assert(i == w as int || i == c as int);
                                    } else {
                                        assert(sn[s] == Some(i as usize));
                                        assert(in_slots(sn, i as usize));
                                    }
                                }
                            }
                            assert(i != x as int) by {
                                if i == x as int {
                                    assert(i == w as int || i == c as int);
                                }
                            }
                        }
                    }
                    assert forall|i: int| #[trigger]
                        h0.parentless(i) && !in_slots(s0, i as usize) && i != x as int implies self
                        .parentless(i) && self.nodes@[i].marked == h0.nodes@[i].marked by {
                        assert(in_slots(s0, y));
                        assert(i != y as int);
                        assert(i != c as int && i != w as int);
                        assert(hl.parentless(i) && hl.nodes@[i].marked == h0.nodes@[i].marked);
                        assert(!in_slots(sn, i as usize)) by {
                            if in_slots(sn, i as usize) {
                                let s = choose|s: int|
                                    0 <= s < sn.len() && sn[s] == Some(i as usize);
                                assert(s != r as int);
                                assert(sg[s] == Some(i as usize));
                                assert(s < s0.len() && s0[s] == Some(i as usize));
                                assert(in_slots(s0, i as usize));
                            }
                        }
                    }
                    assert forall|i: usize| #[trigger]
                        in_slots(slots@, i) implies in_slots(s0, i) || i == x by {
                        if i != w {
                            assert(in_slots(sn, i));
                            let s = choose|s: int| 0 <= s < sn.len() && sn[s] == Some(i);
                            assert(s != r as int);
                            assert(sg[s] == Some(i));
                            assert(s < s0.len() && s0[s] == Some(i));
                        } else {
                            if w == y {
                                assert(in_slots(s0, y));
                            }
                        }
                    }
                }
            },
        }
    }

    /// The linking pass of minimum extraction: drains the root list into a
    /// rank-indexed slot array, linking equal-rank trees until every
    /// remaining tree has a distinct rank, then rebuilds the root list from
    /// the slots in rank order. The slot array grows on demand; since ranks
    /// stay logarithmic in the entry count, it stays within the
    /// logarithmically-sized bound that rank-indexed consolidation needs.
    fn consolidate(&mut self)
        requires
            old(self).inv_core(),
            old(self).roots_ok(),
        ensures
            final(self).inv_core(),
            final(self).roots_ok(),
            self_entries_match(*old(self), *final(self)),
            final(self)@ == old(self)@,
            // after consolidation every root tree has a distinct rank
            forall|j1: int, j2: int|
                0 <= j1 < j2 < final(self).roots@.len() ==> final(self).nodes@[final(self).roots@[j1] as int].children@.len() != final(self).nodes@[final(self).roots@[j2] as int].children@.len(),
    {
        let ghost h0 = *self;
        let mut work: Vec<usize> = Vec::new();
        core::mem::swap(&mut work, &mut self.roots);
        let mut slots: Vec<Option<usize>> = Vec::new();
        let mut t: usize = 0;
        proof {
            vstd::std_specs::vec::axiom_spec_len(&self.nodes);
            lemma_core_same(h0, *self);
            assert forall|u: int| t <= u < work@.len() implies self.parentless(
                #[trigger] work@[u] as int,
            ) && !self.nodes@[work@[u] as int].marked by {
                assert(h0.root_at_ok(u));
            }
            assert forall|i: int| #[trigger] self.parentless(i) implies in_slots(
                slots@,
                i as usize,
            ) || exists|u: int| t <= u < work@.len() && work@[u] == i as usize by {
                assert(h0.live(i) && h0.nodes@[i].parent is None);
                assert(h0.roots@.contains(i as usize));
            }
        }
        while t < work.len()
            invariant
                self.inv_core(),
                self_entries_match(h0, *self),
                self.roots@.len() == 0,
                work@ == h0.roots@,
                t <= work@.len(),
                forall|u1: int, u2: int| 0 <= u1 < u2 < work@.len() ==> work@[u1] != work@[u2],
                forall|u: int|
                    t <= u < work@.len() ==> self.parentless(#[trigger] work@[u] as int)
                        && !self.nodes@[work@[u] as int].marked,
                forall|s: int|
                    0 <= s < slots@.len() && (#[trigger] slots@[s]) is Some ==> self.parentless(
                        slots@[s]->0 as int,
                    ) && !self.nodes@[slots@[s]->0 as int].marked,
                forall|i: int| #[trigger]
                    self.parentless(i) ==> in_slots(slots@, i as usize) || exists|u: int|
                        t <= u < work@.len() && work@[u] == i as usize,
                forall|s1: int, s2: int|
                    0 <= s1 < s2 < slots@.len() && slots@[s1] is Some && slots@[s2] is Some
                        ==> slots@[s1]->0 != slots@[s2]->0,
                forall|s: int, u: int|
                    0 <= s < slots@.len() && (#[trigger] slots@[s]) is Some && t <= u
                        < work@.len() ==> slots@[s]->0 != #[trigger] work@[u],
                forall|s: int|
                    0 <= s < slots@.len() && (#[trigger] slots@[s]) is Some
                        ==> self.nodes@[slots@[s]->0 as int].children@.len() == s,
            decreases work@.len() - t,
        {
            let x = work[t];
            let ghost told = t as int;
            t = t + 1;
            proof {
                assert(self.parentless(work@[told] as int));
                assert(!in_slots(slots@, x)) by {
                    if in_slots(slots@, x) {
                        let s = choose|s: int| 0 <= s < slots@.len() && slots@[s] == Some(x);
                        assert(slots@[s]->0 != work@[told]);
                    }
                }
            }
            let ghost hb = *self;
            let ghost sb = slots@;
            self.place_by_rank(&mut slots, x);
            proof {
                vstd::std_specs::vec::axiom_spec_len(&hb.nodes);
                vstd::std_specs::vec::axiom_spec_len(&self.nodes);
                assert forall|u: int| t <= u < work@.len() implies self.parentless(
                    #[trigger] work@[u] as int,
                ) && !self.nodes@[work@[u] as int].marked by {
                    assert(hb.parentless(work@[u] as int));
                    assert(!in_slots(sb, work@[u])) by {
                        if in_slots(sb, work@[u]) {
                            let s = choose|s: int|
                                0 <= s < sb.len() && sb[s] == Some(work@[u] as usize);
                            assert(sb[s]->0 != work@[u]);
                        }
                    }
                    assert(work@[u] != x);
                }
                assert forall|i: int| #[trigger]
                    self.parentless(i) implies in_slots(slots@, i as usize) || exists|u: int|
                    t <= u < work@.len() && work@[u] == i as usize by {
                    if !in_slots(slots@, i as usize) {
                        assert(hb.parentless(i) && !in_slots(sb, i as usize) && i != x as int);
                        let u = choose|u: int|
                            told <= u < work@.len() && work@[u] == i as usize;
                        assert(u != told);
                    }
                }
                assert forall|s: int, u: int|
                    0 <= s < slots@.len() && (#[trigger] slots@[s]) is Some && t <= u
                        < work@.len() implies slots@[s]->0 != #[trigger] work@[u] by {
                    let i = slots@[s]->0;
                    assert(in_slots(slots@, i));
                    assert(in_slots(sb, i) || i == x);
                    if i == work@[u] {
                        if i == x {
                            assert(work@[told] == work@[u]);
                        } else {
                            let s2 = choose|s2: int| 0 <= s2 < sb.len() && sb[s2] == Some(i);
                            assert(sb[s2]->0 != work@[u]);
                        }
                    }
                }
            }
        }
        // rebuild the root list from the occupied slots, lowest rank first
        let ghost h2 = *self;
        let ghost sf = slots@;
        proof {
            vstd::std_specs::vec::axiom_spec_len(&self.nodes);
            assert(self_entries_match(h0, *self));
            assert forall|i: int| #[trigger] self.parentless(i) implies in_slots(
                sf,
                i as usize,
            ) by {
                if !in_slots(sf, i as usize) {
                    let u = choose|u: int| t <= u < work@.len() && work@[u] == i as usize;
                }
            }
        }
        let mut s: usize = 0;
        while s < slots.len()
            invariant
                self.nodes@ == h2.nodes@,
                self.chains@ == h2.chains@,
                self.total == h2.total,
                self.inv_core(),
                slots@ == sf,
                s <= sf.len(),
                forall|s2: int|
                    0 <= s2 < sf.len() && (#[trigger] sf[s2]) is Some ==> self.parentless(
                        sf[s2]->0 as int,
                    ) && !self.nodes@[sf[s2]->0 as int].marked,
                forall|s2: int|
                    0 <= s2 < sf.len() && (#[trigger] sf[s2]) is Some
                        ==> self.nodes@[sf[s2]->0 as int].children@.len() == s2,
                forall|j: int|
                    0 <= j < self.roots@.len()
                        ==> self.nodes@[#[trigger] self.roots@[j] as int].children@.len() < s as int,
                forall|j1: int, j2: int|
                    0 <= j1 < j2 < self.roots@.len()
                        ==> self.nodes@[self.roots@[j1] as int].children@.len()
                        != self.nodes@[self.roots@[j2] as int].children@.len(),
                forall|i: int| #[trigger] self.parentless(i) ==> in_slots(sf, i as usize),
                forall|s1: int, s2: int|
                    0 <= s1 < s2 < sf.len() && sf[s1] is Some && sf[s2] is Some ==> sf[s1]->0
                        != sf[s2]->0,
                forall|j: int| 0 <= j < self.roots@.len() ==> #[trigger] self.root_at_ok(j),
                forall|j: int|
                    0 <= j < self.roots@.len() ==> exists|s2: int|
                        0 <= s2 < s && sf[s2] == Some(#[trigger] self.roots@[j]),
                forall|s2: int|
                    0 <= s2 < s && (#[trigger] sf[s2]) is Some ==> self.roots@.contains(
                        sf[s2]->0,
                    ),
                forall|j1: int, j2: int|
                    0 <= j1 < j2 < self.roots@.len() ==> self.roots@[j1] != self.roots@[j2],
            decreases sf.len() - s,
        {
            let cur = slots[s];
            let ghost r0 = self.roots@;
            let ghost hp = *self;
            match cur {
                Some(xx) => {
                    proof {
                        assert forall|j: int| 0 <= j < r0.len() implies r0[j] != xx by {
                            let s2 = choose|s2: int| 0 <= s2 < s && sf[s2] == Some(r0[j]);
                            if r0[j] == xx {
                                assert(sf[s2]->0 != sf[s as int]->0);
                            }
                        }
                    }
                    self.roots.push(xx);
                    proof {
                        vstd::std_specs::vec::axiom_spec_len(&self.nodes);
                        lemma_core_same(hp, *self);
                        assert forall|i: int| #[trigger] self.parentless(i) implies in_slots(
                            sf,
                            i as usize,
                        ) by {
                            assert(hp.parentless(i));
                        }
                        assert forall|s2: int|
                            0 <= s2 < s + 1 && (#[trigger] sf[s2]) is Some implies self.roots@
                            .contains(sf[s2]->0) by {
                            if s2 < s {
                                let w = choose|w: int| 0 <= w < r0.len() && r0[w] == sf[s2]->0;
                                assert(self.roots@[w] == sf[s2]->0);
                            } else {
                                assert(self.roots@[self.roots@.len() - 1] == xx);
                            }
                        }
                        assert forall|s2: int|
                            0 <= s2 < sf.len() && (#[trigger] sf[s2]) is Some implies self
                            .parentless(sf[s2]->0 as int) && !self.nodes@[sf[s2]->0 as int].marked
                         by {
                            assert(hp.parentless(sf[s2]->0 as int));
                        }
                    }
                },
                None => {},
            }
            s += 1;
        }
        proof {
            assert forall|i: int| #[trigger] self.live(i) && self.nodes@[i].parent is None
                implies self.roots@.contains(i as usize) by {
                assert(self.parentless(i));
                let s2 = choose|s2: int| 0 <= s2 < sf.len() && sf[s2] == Some(i as usize);
            }
            lemma_view_pointwise(h0.nodes@, self.nodes@);
        }
    }

    /// Scans the root list for the smallest key and brings that root to the
    /// front, where minimum lookup expects it. On equal keys the
    /// first-encountered root wins.
    fn fix_min(&mut self)
        requires
            old(self).inv_core(),
            old(self).roots_ok(),
        ensures
            final(self).wf(),
            final(self).nodes@ == old(self).nodes@,
            final(self).chains@ == old(self).chains@,
            final(self).total == old(self).total,
            final(self).roots@.len() == old(self).roots@.len(),
            old(self).roots@.len() == 0 ==> final(self).roots@ == old(self).roots@,
            old(self).roots@.len() > 0 ==> root_swap(old(self).roots@, final(self).roots@),
    {
        let ghost h0 = *self;
        if self.roots.len() == 0 {
            return ;
        }
        let mut best: usize = 0;
        let mut b: usize = 1;
        while b < self.roots.len()
            invariant
                *self == h0,
                h0.inv_core(),
                h0.roots_ok(),
                h0.roots@.len() > 0,
                1 <= b <= self.roots@.len(),
                (best as int) < b,
                forall|j: int|
                    0 <= j < b ==> self.nodes@[self.roots@[best as int] as int].key
                        <= self.nodes@[#[trigger] self.roots@[j] as int].key,
            decreases self.roots@.len() - b,
        {
            proof {
                assert(self.root_at_ok(b as int));
                assert(self.root_at_ok(best as int));
            }
            let rb = self.roots[b];
            let rbest = self.roots[best];
            if self.nodes[rb].key < self.nodes[rbest].key {
                best = b;
            }
            b += 1;
        }
        proof {
            assert(self.root_at_ok(best as int));
            assert(self.root_at_ok(0));
        }
        let rbest = self.roots[best];
        let r0 = self.roots[0];
        self.roots[0] = rbest;
        self.roots[best] = r0;
        proof {
            vstd::std_specs::vec::axiom_spec_len(&self.nodes);
            lemma_core_same(h0, *self);
            let rs = self.roots@;
            let os = h0.roots@;
            assert(rs == os.update(0, rbest).update(best as int, r0));
            assert forall|j: int| 0 <= j < rs.len() implies #[trigger] self.root_at_ok(j) by {
                if j == 0 {
                    assert(h0.root_at_ok(best as int));
                } else if j == best as int {
                    assert(h0.root_at_ok(0));
                } else {
                    assert(h0.root_at_ok(j));
                }
            }
            assert forall|j1: int, j2: int| 0 <= j1 < j2 < rs.len() implies rs[j1] != rs[j2] by {
                let a1 = if j1 == 0 {
                    best as int
                } else if j1 == best as int {
                    0
                } else {
                    j1
                };
                let a2 = if j2 == 0 {
                    best as int
                } else if j2 == best as int {
                    0
                } else {
                    j2
                };
                assert(rs[j1] == os[a1] && rs[j2] == os[a2]);
            }
            assert forall|i: int| #[trigger] self.live(i) && self.nodes@[i].parent is None
                implies self.roots@.contains(i as usize) by {
                assert(h0.live(i) && h0.nodes@[i].parent is None);
                assert(h0.roots@.contains(i as usize));
                let w = choose|w: int| 0 <= w < os.len() && os[w] == i as usize;
                let w2 = if w == 0 {
                    best as int
                } else if w == best as int {
                    0
                } else {
                    w
                };
                assert(rs[w2] == i as usize);
            }
            assert forall|i: int| #[trigger] self.live(i) implies self.nodes@[self.roots@[0] as int].key
                <= self.nodes@[i].key by {
                self.lemma_chain_top(i);
                let top = if self.chains@[i].len() == 0 {
                    i
                } else {
                    self.chains@[i][0]
                };
                assert(self.roots@.contains(top as usize));
                let w = choose|w: int| 0 <= w < rs.len() && rs[w] == top as usize;
                let a = if w == 0 {
                    best as int
                } else if w == best as int {
                    0
                } else {
                    w
                };
                assert(os[a] == top as usize);
                assert(self.nodes@[os[best as int] as int].key <= self.nodes@[os[a] as int].key);
            }
            assert(root_swap(h0.roots@, self.roots@)) by {
                assert(rs == os.update(0, os[best as int]).update(best as int, os[0]));
            }
        }
    }

    /// Removes and returns the minimum entry: the front root is detached,
    /// its children are promoted to roots, the root list is consolidated by
    /// rank, and the new minimum root is moved to the front. Fails with
    /// `EmptyHeap` exactly when the heap has no entries. Every other entry,
    /// and every handle to one, survives unchanged.
    pub fn delete_min(&mut self) -> (r: Result<(u64, V), HeapError>)
        requires
            old(self).wf(),
        ensures
            final(self).wf(),
            match r {
                Ok(p) => {
                    &&& p == old(self).spec_min_entry()
                    &&& old(self)@.count(p) >= 1
                    &&& forall|q: (u64, V)| old(self)@.count(q) > 0 ==> p.0 <= q.0
                    &&& final(self)@ == old(self)@.remove(p)
                    &&& final(self).spec_total() == old(self).spec_total() - 1
                    &&& forall|e: FibEntry| #[trigger]
                        old(self).valid_entry(e) && !old(self).spec_is_min(e) ==> final(self).valid_entry(e) && final(self).spec_pair(e) == old(self).spec_pair(e)
                    &&& forall|e: FibEntry| #[trigger]
                        old(self).spec_is_min(e) ==> !final(self).valid_entry(e)
                },
                Err(err) => {
                    &&& err == HeapError::EmptyHeap
                    &&& old(self)@ == Multiset::<(u64, V)>::empty()
                    &&& old(self).spec_total() == 0
                    &&& *final(self) == *old(self)
                },
            },
            final(self).spec_slot_count() == old(self).spec_slot_count(),
            // a handle that was stale stays stale
            forall|e2: FibEntry| #[trigger]
                final(self).valid_entry(e2) ==> old(self).valid_entry(e2),
            // consolidation leaves one tree per rank on the root list
            forall|j1: int, j2: int|
                0 <= j1 < j2 < final(self).spec_root_count() ==> final(self).spec_rank(
                    final(self).spec_root_entry(j1),
                ) != final(self).spec_rank(final(self).spec_root_entry(j2)),
    {
        if self.roots.len() == 0 {
            proof {
                self.lemma_no_roots_no_live();
            }
            return Err(HeapError::EmptyHeap);
        }
        let ghost h0 = *self;
        proof {
            assert(h0.root_at_ok(0));
        }
        let m = self.roots[0];
        let k = self.nodes[m].key;
        let v = self.nodes[m].value;
        proof {
            lemma_view_member(self.nodes@, m as int);
            assert forall|q: (u64, V)| h0@.count(q) > 0 implies k <= q.0 by {
                lemma_view_exists(self.nodes@, q);
                let i = choose|i: int|
                    0 <= i < self.nodes@.len() && (#[trigger] self.nodes@[i]).alive
                        && self.nodes@[i].key == q.0 && self.nodes@[i].value == q.1;
                assert(self.live(i));
            }
        }
        // promote the children of the minimum root
        while self.nodes[m].children.len() > 0
            invariant
                self.inv_core(),
                self.roots_ok(),
                self_entries_match(h0, *self),
                m < self.nodes@.len(),
                self.live(m as int),
                self.roots@.len() > 0,
                self.roots@[0] == m,
                self.nodes@[m as int].key == k,
                self.nodes@[m as int].value == v,
                self.nodes@[m as int].parent is None,
                forall|i: int|
                    #[trigger] self.live(i) ==> self.nodes@[m as int].key <= self.nodes@[i].key,
            decreases self.nodes@[m as int].children@.len(),
        {
            let ghost hb = *self;
            let c = self.detach_child(m, 0);
            proof {
                assert forall|i: int| #[trigger] self.live(i) implies self.nodes@[m as int].key
                    <= self.nodes@[i].key by {
                    assert(hb.live(i));
                    assert(hb.nodes@[m as int].key <= hb.nodes@[i].key);
                }
            }
        }
        // detach and retire the minimum root itself
        let ghost h1 = *self;
        proof {
            lemma_live_at(h1.nodes@, m as int);
        }
        self.roots.remove(0);
        self.nodes[m].alive = false;
        self.total = self.total - 1;
        proof {
            lemma_after_kill(h1, *self, m, 0);
            lemma_view_pointwise(h0.nodes@, h1.nodes@);
        }
        let ghost h2 = *self;
        self.consolidate();
        let ghost h3 = *self;
        self.fix_min();
        proof {
            assert forall|j1: int, j2: int|
                0 <= j1 < j2 < self.spec_root_count() implies self.spec_rank(
                self.spec_root_entry(j1),
            ) != self.spec_rank(self.spec_root_entry(j2)) by {
                let w = choose|w: int|
                    0 <= w < h3.roots@.len() && self.roots@ == h3.roots@.update(
                        0,
                        h3.roots@[w],
                    ).update(w, h3.roots@[0]);
                let a1 = if j1 == 0 {
                    w
                } else if j1 == w {
                    0
                } else {
                    j1
                };
                let a2 = if j2 == 0 {
                    w
                } else if j2 == w {
                    0
                } else {
                    j2
                };
                assert(self.roots@[j1] == h3.roots@[a1] && self.roots@[j2] == h3.roots@[a2]);
                if a1 < a2 {
                    assert(h3.nodes@[h3.roots@[a1] as int].children@.len()
                        != h3.nodes@[h3.roots@[a2] as int].children@.len());
                } else {
                    assert(h3.nodes@[h3.roots@[a2] as int].children@.len()
                        != h3.nodes@[h3.roots@[a1] as int].children@.len());
                }
            }
            lemma_view_pointwise(h2.nodes@, self.nodes@);
            assert(self@ == h0@.remove((k, v)));
            assert forall|e: FibEntry| #[trigger]
                h0.valid_entry(e) && !h0.spec_is_min(e) implies self.valid_entry(e)
                && self.spec_pair(e) == h0.spec_pair(e) by {
                assert(e.idx != m);
                assert(h1.nodes@[e.idx as int].alive == h0.nodes@[e.idx as int].alive);
            }
            assert forall|e: FibEntry| #[trigger] self.valid_entry(e) implies h0.valid_entry(
                e,
            ) by {
                assert(h2.nodes@[e.idx as int].alive == self.nodes@[e.idx as int].alive);
                if e.idx != m {
                    assert(h1.nodes@[e.idx as int].alive == h0.nodes@[e.idx as int].alive);
                    assert(h2.nodes@[e.idx as int].alive == h1.nodes@[e.idx as int].alive);
                }
            }
        }
        Ok((k, v))
    }

    /// Brings the root `i`, known to hold a globally minimal key, to the
    /// front of the root list by swapping it with the current front.
    fn move_root_to_front(&mut self, i: usize)
        requires
            old(self).inv_core(),
            old(self).roots_ok(),
            old(self).live(i as int),
            old(self).nodes@[i as int].parent is None,
            forall|w: int|
                #[trigger] old(self).live(w) ==> old(self).nodes@[i as int].key <= old(self).nodes@[w].key,
        ensures
            final(self).wf(),
            final(self).nodes@ == old(self).nodes@,
            final(self).chains@ == old(self).chains@,
            final(self).total == old(self).total,
            final(self).roots@.len() == old(self).roots@.len(),
            final(self).roots@[0] == i,
    {
        let ghost h0 = *self;
        proof {
            vstd::std_specs::vec::axiom_spec_len(&self.nodes);
            assert(self.roots@.contains(i));
        }
        let mut pos: usize = 0;
        while pos < self.roots.len() && self.roots[pos] != i
            invariant
                *self == h0,
                h0.inv_core(),
                h0.roots_ok(),
                h0.live(i as int),
                h0.nodes@[i as int].parent is None,
                pos <= self.roots@.len(),
                forall|w: int| 0 <= w < pos ==> self.roots@[w] != i,
            decreases self.roots@.len() - pos,
        {
            pos += 1;
        }
        proof {
            assert(self.roots@.contains(i));
            if pos == self.roots@.len() {
                let w = choose|w: int| 0 <= w < self.roots@.len() && self.roots@[w] == i;
                assert(self.roots@[w] != i);
            }
            assert(self.root_at_ok(0));
        }
        let ri = self.roots[pos];
        let r0 = self.roots[0];
        self.roots[0] = ri;
        self.roots[pos] = r0;
        proof {
            lemma_core_same(h0, *self);
            let rs = self.roots@;
            let os = h0.roots@;
            assert forall|j: int| 0 <= j < rs.len() implies #[trigger] self.root_at_ok(j) by {
                if j == 0 {
                    assert(h0.root_at_ok(pos as int));
                } else if j == pos as int {
                    assert(h0.root_at_ok(0));
                } else {
                    assert(h0.root_at_ok(j));
                }
            }
            assert forall|j1: int, j2: int| 0 <= j1 < j2 < rs.len() implies rs[j1] != rs[j2] by {
                let a1 = if j1 == 0 {
                    pos as int
                } else if j1 == pos as int {
                    0
                } else {
                    j1
                };
                let a2 = if j2 == 0 {
                    pos as int
                } else if j2 == pos as int {
                    0
                } else {
                    j2
                };
                assert(rs[j1] == os[a1] && rs[j2] == os[a2]);
            }
            assert forall|w: int| #[trigger] self.live(w) && self.nodes@[w].parent is None
                implies self.roots@.contains(w as usize) by {
                assert(h0.live(w) && h0.nodes@[w].parent is None);
                assert(h0.roots@.contains(w as usize));
                let u = choose|u: int| 0 <= u < os.len() && os[u] == w as usize;
                let u2 = if u == 0 {
                    pos as int
                } else if u == pos as int {
                    0
                } else {
                    u
                };
                assert(rs[u2] == w as usize);
            }
            assert forall|w: int| #[trigger] self.live(w) implies self.nodes@[self.roots@[0] as int].key
                <= self.nodes@[w].key by {
                assert(h0.live(w));
            }
        }
    }

    /// Restores the cascading-cut discipline after `start` has lost a
    /// child: walking up the ancestor chain, an unmarked non-root is marked
    /// and the walk stops; a marked node is cut to the root list (clearing
    /// its mark) and the walk continues at its former parent; a root stops
    /// the walk. The contract pins the first step: a root start is left
    /// alone, an unmarked non-root start ends up marked in place, a marked
    /// non-root start ends up an unmarked root. Roots stay roots.
    fn cascading_cut(&mut self, start: usize)
        requires
            old(self).inv_core(),
            old(self).roots_ok(),
            old(self).live(start as int),
            old(self).roots@.len() > 0,
            forall|w: int|
                #[trigger] old(self).live(w) ==> old(self).nodes@[old(self).roots@[0] as int].key <= old(self).nodes@[w].key,
        ensures
            final(self).wf(),
            self_entries_match(*old(self), *final(self)),
            final(self)@ == old(self)@,
            final(self).roots@.len() >= old(self).roots@.len(),
            final(self).roots@[0] == old(self).roots@[0],
            cascade_start_done(*old(self), *final(self), start),
            forall|i: int|
                old(self).parentless(i) ==> #[trigger] final(self).parentless(i) && final(self).nodes@[i].marked == old(self).nodes@[i].marked,
    {
        let ghost h0 = *self;
        let mut cur = start;
        let mut go = true;
        let ghost mut first: bool = true;
        while go
            invariant
                self.inv_core(),
                self.roots_ok(),
                self_entries_match(h0, *self),
                self.roots@.len() >= h0.roots@.len(),
                self.roots@.len() > 0,
                self.roots@[0] == h0.roots@[0],
                h0.live(start as int),
                go ==> self.live(cur as int),
                first ==> go && cur == start && *self == h0,
                go && !first ==> h0.nodes@[start as int].parent is Some,
                !first ==> cascade_start_done(h0, *self, start),
                go && !first ==> cur != start && !self.chains@[cur as int].contains(start as int),
                forall|i: int| h0.parentless(i) ==> #[trigger] self.parentless(i),
                forall|i: int|
                    h0.parentless(i) && #[trigger] self.parentless(i) ==> self.nodes@[i].marked
                        == h0.nodes@[i].marked,
                forall|w: int|
                    #[trigger] self.live(w) ==> self.nodes@[self.roots@[0] as int].key
                        <= self.nodes@[w].key,
            decreases self.chains@[cur as int].len() + (if go {
                1int
            } else {
                0int
            }),
        {
            let ghost hb = *self;
            let ghost wasfirst = first;
            let par = self.nodes[cur].parent;
            match par {
                None => {
                    go = false;
                    proof {
                        first = false;
                        assert forall|i: int| h0.parentless(i) implies #[trigger] self.parentless(
                            i,
                        ) && self.nodes@[i].marked == h0.nodes@[i].marked by {
                            assert(hb.parentless(i));
                        }
                    }
                },
                Some(q) => {
                    proof {
                        assert(hb.node_ok(cur as int));
                    }
                    if !self.nodes[cur].marked {
                        self.nodes[cur].marked = true;
                        proof {
                            first = false;
                            lemma_mark_change(hb, *self, cur);
                            assert(hb.root_at_ok(0));
                            assert(hb.roots@[0] != cur) by {
                                if hb.roots@[0] == cur {
                                    assert(hb.nodes@[cur as int].parent is None);
                                }
                            }
                            assert forall|w: int| #[trigger] self.live(w) implies self.nodes@[self.roots@[0] as int].key
                                <= self.nodes@[w].key by {
                                assert(hb.live(w));
                                assert(self.nodes@[hb.roots@[0] as int].key == hb.nodes@[hb.roots@[0] as int].key);
                                assert(hb.nodes@[hb.roots@[0] as int].key <= hb.nodes@[w].key);
                            }
                            assert(self_entries_match(h0, *self));
                            if !wasfirst {
                                assert(self.nodes@[start as int] == hb.nodes@[start as int]);
                            }
                            assert forall|i: int| h0.parentless(i) implies #[trigger] self.parentless(i)
                                && self.nodes@[i].marked == h0.nodes@[i].marked by {
                                assert(hb.parentless(i));
                                assert(i != cur as int) by {
                                    if i == cur as int {
                                        assert(hb.nodes@[cur as int].parent is None);
                                    }
                                }
                                assert(self.nodes@[i] == hb.nodes@[i]);
                            }
                        }
                        go = false;
                    } else {
                        // locate cur among its parent's children, then cut it
                        proof {
                            vstd::std_specs::vec::axiom_spec_len(&self.nodes);
                            assert(self.nodes@[q as int].children@.contains(cur));
                            hb.lemma_no_self_chain(cur as int);
                        }
                        let mut pos: usize = 0;
                        while pos < self.nodes[q].children.len() && self.nodes[q].children[pos]
                            != cur
                            invariant
                                *self == hb,
                                hb.inv_core(),
                                q < hb.nodes@.len(),
                                hb.nodes@[q as int].children@.contains(cur),
                                pos <= hb.nodes@[q as int].children@.len(),
                                forall|w: int|
                                    0 <= w < pos ==> hb.nodes@[q as int].children@[w] != cur,
                            decreases hb.nodes@[q as int].children@.len() - pos,
                        {
                            pos += 1;
                        }
                        proof {
                            if pos == self.nodes@[q as int].children@.len() {
                                let w = choose|w: int|
                                    0 <= w < self.nodes@[q as int].children@.len()
                                        && self.nodes@[q as int].children@[w] == cur;
                                assert(self.nodes@[q as int].children@[w] != cur);
                            }
                        }
                        let ghost lold = self.chains@[cur as int].len();
                        self.detach_child(q, pos);
                        proof {
                            first = false;
                            assert(self.chains@[q as int] == hb.chains@[q as int]);
                            assert(hb.chains@[cur as int] == hb.chains@[q as int].push(q as int));
                            assert(self.chains@[q as int].len() + 1 == lold);
                            assert(self.roots@[0] == hb.roots@[0]);
                            assert(hb.root_at_ok(0));
                            assert forall|w: int| #[trigger] self.live(w) implies self.nodes@[self.roots@[0] as int].key
                                <= self.nodes@[w].key by {
                                assert(hb.live(w));
                                assert(self.nodes@[hb.roots@[0] as int].key == hb.nodes@[hb.roots@[0] as int].key);
                                assert(hb.nodes@[hb.roots@[0] as int].key <= hb.nodes@[w].key);
                            }
                            assert(self_entries_match(h0, *self));
                            // the cut touched only cur and q, and q is on
                            // cur's chain, so neither is the start node once
                            // the walk has moved past it
                            assert(hb.chains@[cur as int].contains(q as int)) by {
                                assert(hb.chains@[cur as int][hb.chains@[cur as int].len() - 1]
                                    == q as int);
                            }
                            if wasfirst {
                                assert(cur == start);
                                assert(q != start) by {
                                    if q == start {
                                        assert(hb.chains@[cur as int].contains(start as int));
                                    }
                                }
                            } else {
                                assert(cur != start);
                                assert(q != start) by {
                                    if q == start {
                                        assert(hb.chains@[cur as int].contains(start as int));
                                    }
                                }
                                assert(self.nodes@[start as int] == hb.nodes@[start as int]);
                            }
                            assert(cascade_start_done(h0, *self, start));
                            // the next node of the walk lies strictly above
                            // the start node
                            assert(!self.chains@[q as int].contains(start as int)) by {
                                if self.chains@[q as int].contains(start as int) {
                                    let w = choose|w: int|
                                        0 <= w < hb.chains@[q as int].len()
                                            && hb.chains@[q as int][w] == start as int;
                                    assert(hb.chains@[cur as int][w] == start as int);
                                    assert(hb.chains@[cur as int].contains(start as int));
                                }
                            }
                            assert forall|i: int| h0.parentless(i) implies #[trigger] self.parentless(i)
                                && self.nodes@[i].marked == h0.nodes@[i].marked by {
                                assert(hb.parentless(i));
                                assert(i != cur as int) by {
                                    if i == cur as int {
                                        assert(hb.nodes@[cur as int].parent is None);
                                    }
                                }
                            }
                        }
                        cur = q;
                    }
                },
            }
        }
        proof {
            lemma_view_pointwise(h0.nodes@, self.nodes@);
        }
    }

    /// Lowers the key of the entry `entry` names to `new_key`. The new key
    /// must be strictly smaller than the current one; otherwise `KeyOrder`
    /// is reported and nothing changes. A stale handle is reported as
    /// `StaleHandle`. On success, if heap order with the entry's parent is
    /// violated the entry is cut to the root list and a cascading cut runs
    /// up its former ancestors; the minimum position reflects the new key
    /// immediately.
    #[verifier::rlimit(80)]
    pub fn decrease_key(&mut self, entry: FibEntry, new_key: u64) -> (r: Result<(), HeapError>)
        requires
            old(self).wf(),
        ensures
            final(self).wf(),
            !old(self).valid_entry(entry) ==> r == Err::<(), HeapError>(HeapError::StaleHandle)
                && *final(self) == *old(self),
            old(self).valid_entry(entry) && new_key >= old(self).spec_key(entry) ==> r == Err::<
                (),
                HeapError,
            >(HeapError::KeyOrder) && *final(self) == *old(self),
            old(self).valid_entry(entry) && new_key < old(self).spec_key(entry) ==> {
                &&& r == Ok::<(), HeapError>(())
                &&& final(self)@ == old(self)@.remove(old(self).spec_pair(entry)).insert(
                    (new_key, old(self).spec_value(entry)),
                )
                &&& final(self).valid_entry(entry)
                &&& final(self).spec_pair(entry) == (new_key, old(self).spec_value(entry))
                &&& final(self).spec_total() == old(self).spec_total()
                &&& forall|e2: FibEntry| #[trigger]
                    old(self).valid_entry(e2) && e2 != entry ==> final(self).valid_entry(e2)
                        && final(self).spec_pair(e2) == old(self).spec_pair(e2)
            },
            final(self).spec_slot_count() == old(self).spec_slot_count(),
            // a handle that was stale stays stale
            forall|e2: FibEntry| #[trigger]
                final(self).valid_entry(e2) ==> old(self).valid_entry(e2),
            // a root entry stays a root
            old(self).valid_entry(entry) && new_key < old(self).spec_key(entry) && old(self).spec_parent(entry) is None ==> final(self).spec_parent(entry) is None,
            // a new key that still respects the parent changes no structure:
            // parents, children, marks and the root list stay as they were
            old(self).valid_entry(entry) && new_key < old(self).spec_key(entry) && old(self).spec_parent(entry) is Some && new_key >= old(self).spec_key(
                old(self).spec_parent(entry)->0,
            ) ==> {
                &&& forall|e2: FibEntry| #[trigger]
                    old(self).valid_entry(e2) ==> final(self).spec_parent(e2) == old(self).spec_parent(e2) && final(self).spec_children(e2) == old(self).spec_children(
                        e2,
                    ) && final(self).spec_marked(e2) == old(self).spec_marked(e2)
                &&& final(self).spec_root_count() == old(self).spec_root_count()
                &&& forall|j: int|
                    0 <= j < old(self).spec_root_count() ==> #[trigger] final(self).spec_root_entry(
                        j,
                    ) == old(self).spec_root_entry(j)
            },
            // a new key that undercuts the parent cuts the entry to the root
            // list with its mark cleared
            old(self).valid_entry(entry) && new_key < old(self).spec_key(entry) && old(self).spec_parent(entry) is Some && new_key < old(self).spec_key(
                old(self).spec_parent(entry)->0,
            ) ==> final(self).spec_parent(entry) is None && !final(self).spec_marked(entry),
            // ... and the former parent loses that one child; a root parent
            // stays a root, an unmarked non-root parent is marked in place, a
            // marked non-root parent is itself cut loose with its mark
            // cleared (the cascade continuing above it)
            old(self).valid_entry(entry) && new_key < old(self).spec_key(entry) && old(self).spec_parent(entry) is Some && new_key < old(self).spec_key(
                old(self).spec_parent(entry)->0,
            ) ==> ({
                let pe = old(self).spec_parent(entry)->0;
                &&& final(self).spec_rank(pe) + 1 == old(self).spec_rank(pe)
                &&& (old(self).spec_parent(pe) is None ==> final(self).spec_parent(pe) is None)
                &&& (old(self).spec_parent(pe) is Some && !old(self).spec_marked(pe) ==> final(self).spec_marked(pe) && final(self).spec_parent(pe) == old(self).spec_parent(pe))
                &&& (old(self).spec_parent(pe) is Some && old(self).spec_marked(pe) ==> final(self).spec_parent(pe) is None && !final(self).spec_marked(pe))
            }),
    {
        let i = entry.idx;
        if i >= self.nodes.len() || !self.nodes[i].alive {
            return Err(HeapError::StaleHandle);
        }
        let cur = self.nodes[i].key;
        if new_key >= cur {
            return Err(HeapError::KeyOrder);
        }
        let ghost h0 = *self;
        proof {
            assert(h0.live(i as int));
            assert(h0.node_ok(i as int));
        }
        let par = self.nodes[i].parent;
        match par {
            None => {
                self.nodes[i].key = new_key;
                proof {
                    lemma_key_change(h0, *self, i, new_key);
                    assert(self.roots@.contains(i));
                    assert(self.roots@.len() > 0);
                    assert(self.root_at_ok(0));
                }
                let r0 = self.roots[0];
                if new_key < self.nodes[r0].key {
                    proof {
                        assert forall|w: int| #[trigger] self.live(w) implies self.nodes@[i as int].key
                            <= self.nodes@[w].key by {
                            if w != i as int {
                                assert(h0.live(w));
                                assert(h0.nodes@[h0.roots@[0] as int].key <= h0.nodes@[w].key);
                            }
                        }
                    }
                    self.move_root_to_front(i);
                } else {
                    proof {
                        assert forall|w: int| #[trigger] self.live(w) implies self.nodes@[self.roots@[0] as int].key
                            <= self.nodes@[w].key by {
                            assert(h0.live(w));
                            if w != i as int {
                                assert(h0.nodes@[h0.roots@[0] as int].key <= h0.nodes@[w].key);
                            }
                        }
                    }
                }
                proof {
                    assert(self.nodes@[i as int].parent is None);
                    assert forall|e2: FibEntry| #[trigger] self.valid_entry(e2) implies h0
                        .valid_entry(e2) by {
                        assert(self.nodes@[e2.idx as int].alive == h0.nodes@[e2.idx as int].alive);
                    }
                }
            },
            Some(p) => {
                let pk = self.nodes[p].key;
                if new_key >= pk {
                    self.nodes[i].key = new_key;
                    proof {
                        lemma_key_change(h0, *self, i, new_key);
                        assert(self.roots@.len() > 0) by {
                            assert(h0.live(p as int));
                            h0.lemma_chain_top(p as int);
                            let top = if h0.chains@[p as int].len() == 0 {
                                p as int
                            } else {
                                h0.chains@[p as int][0]
                            };
                            assert(h0.roots@.contains(top as usize));
                        }
                        assert(h0.root_at_ok(0));
                        assert(h0.roots@[0] != i) by {
                            if h0.roots@[0] == i {
                                assert(h0.nodes@[i as int].parent is None);
                            }
                        }
                        assert forall|w: int| #[trigger] self.live(w) implies self.nodes@[self.roots@[0] as int].key
                            <= self.nodes@[w].key by {
                            assert(h0.live(w));
                            assert(self.nodes@[h0.roots@[0] as int].key == h0.nodes@[h0.roots@[0] as int].key);
                            if w != i as int {
                                assert(h0.nodes@[h0.roots@[0] as int].key <= h0.nodes@[w].key);
                            } else {
                                assert(h0.nodes@[h0.roots@[0] as int].key <= h0.nodes@[p as int].key);
                            }
                        }
                    }
                } else {
                    // heap order violated: cut, re-key, reseat, cascade
                    proof {
                        vstd::std_specs::vec::axiom_spec_len(&self.nodes);
                        assert(self.nodes@[p as int].children@.contains(i));
                    }
                    let ghost hb = *self;
                    let mut pos: usize = 0;
                    while pos < self.nodes[p].children.len() && self.nodes[p].children[pos] != i
                        invariant
                            *self == hb,
                            hb.inv_core(),
                            p < hb.nodes@.len(),
                            hb.nodes@[p as int].children@.contains(i),
                            pos <= hb.nodes@[p as int].children@.len(),
                            forall|w: int| 0 <= w < pos ==> hb.nodes@[p as int].children@[w] != i,
                        decreases hb.nodes@[p as int].children@.len() - pos,
                    {
                        pos += 1;
                    }
                    proof {
                        if pos == self.nodes@[p as int].children@.len() {
                            let w = choose|w: int|
                                0 <= w < self.nodes@[p as int].children@.len()
                                    && self.nodes@[p as int].children@[w] == i;
                            assert(self.nodes@[p as int].children@[w] != i);
                        }
                    }
                    self.detach_child(p, pos);
                    let ghost h1 = *self;
                    self.nodes[i].key = new_key;
                    proof {
                        lemma_key_change(h1, *self, i, new_key);
                        assert(self.roots@.len() > 0);
                        assert(self.root_at_ok(0));
                    }
                    let r0 = self.roots[0];
                    if new_key < self.nodes[r0].key {
                        proof {
                            assert forall|w: int| #[trigger] self.live(w) implies self.nodes@[i as int].key
                                <= self.nodes@[w].key by {
                                if w != i as int {
                                    assert(h0.live(w));
                                    assert(h0.nodes@[h0.roots@[0] as int].key <= h0.nodes@[w].key);
                                    assert(h1.live(w));
                                }
                            }
                        }
                        self.move_root_to_front(i);
                    } else {
                        proof {
                            assert(h0.roots@.len() > 0) by {
                                h0.lemma_chain_top(p as int);
                                let top = if h0.chains@[p as int].len() == 0 {
                                    p as int
                                } else {
                                    h0.chains@[p as int][0]
                                };
                                assert(h0.roots@.contains(top as usize));
                            }
                            assert(self.roots@[0] == h0.roots@[0]);
                            assert(h0.roots@[0] != i) by {
                                assert(h0.root_at_ok(0));
                                if h0.roots@[0] == i {
                                    assert(h0.nodes@[i as int].parent is None);
                                }
                            }
                            assert forall|w: int| #[trigger] self.live(w) implies self.nodes@[self.roots@[0] as int].key
                                <= self.nodes@[w].key by {
                                assert(h0.live(w));
                                assert(self.nodes@[h0.roots@[0] as int].key == h0.nodes@[h0.roots@[0] as int].key);
                                if w != i as int {
                                    assert(h0.nodes@[h0.roots@[0] as int].key <= h0.nodes@[w].key);
                                    assert(self.nodes@[w].key == h0.nodes@[w].key);
                                } else {
                                    assert(h0.nodes@[h0.roots@[0] as int].key <= h0.nodes@[p as int].key);
                                }
                            }
                        }
                    }
                    let ghost h2 = *self;
                    self.cascading_cut(p);
                    proof {
                        lemma_view_pointwise(h0.nodes@, h1.nodes@);
                        assert(h1.nodes@[i as int].key == cur);
                        assert(h1.nodes@[i as int].value == h0.nodes@[i as int].value);
                        assert(self@ == h0@.remove((cur, h0.nodes@[i as int].value)).insert(
                            (new_key, h0.nodes@[i as int].value),
                        ));
                        assert forall|e2: FibEntry| #[trigger]
                            h0.valid_entry(e2) && e2 != entry implies self.valid_entry(e2)
                            && self.spec_pair(e2) == h0.spec_pair(e2) by {
                            assert(e2.idx != i);
                            assert(h2.nodes@[e2.idx as int].alive == h0.nodes@[e2.idx as int].alive);
                        }
                        // the cut entry sits on the root list, unmarked
                        assert(h2.parentless(i as int));
                        assert(self.parentless(i as int));
                        assert(!h2.nodes@[i as int].marked);
                        assert(!self.nodes@[i as int].marked);
                        // the former parent lost exactly one child, and met
                        // the cascade's mark-or-cut step
                        assert(p != i) by {
                            assert(h0.node_ok(i as int));
                            if p == i {
                                assert(h0.chains@[i as int] == h0.chains@[i as int].push(i as int));
                            }
                        }
                        assert(h1.nodes@[p as int].parent == h0.nodes@[p as int].parent);
                        assert(h1.nodes@[p as int].marked == h0.nodes@[p as int].marked);
                        assert(h1.nodes@[p as int].children@.len() + 1 == h0.nodes@[p as int].children@.len());
                        assert(h2.nodes@[p as int] == h1.nodes@[p as int]);
                        assert(cascade_start_done(h2, *self, p));
                        assert(self.nodes@[p as int].children == h2.nodes@[p as int].children);
                        if h0.nodes@[p as int].parent is None {
                            assert(h2.parentless(p as int));
                            assert(self.parentless(p as int));
                        }
                        assert forall|e2: FibEntry| #[trigger] self.valid_entry(e2) implies h0
                            .valid_entry(e2) by {
                            assert(h2.nodes@[e2.idx as int].alive == h0.nodes@[e2.idx as int].alive);
                            assert(self.nodes@[e2.idx as int].alive == h2.nodes@[e2.idx as int].alive);
                        }
                    }
                }
            },
        }
        proof {
            assert forall|e2: FibEntry| #[trigger]
                h0.valid_entry(e2) && e2 != entry implies self.valid_entry(e2) && self.spec_pair(
                e2,
            ) == h0.spec_pair(e2) by {
                assert(e2.idx != i);
            }
        }
        Ok(())
    }

    /// Removes the entry `entry` names, whatever its position. Deleting the
    /// current minimum behaves like `delete_min`; any other entry is cut out
    /// of its tree (its children are promoted to roots and a cascading cut
    /// runs up its former ancestors), and in that case the identity of the
    /// current minimum does not change. A stale handle is reported as
    /// `StaleHandle` and nothing changes.
    #[verifier::rlimit(80)]
    pub fn delete(&mut self, entry: FibEntry) -> (r: Result<(), HeapError>)
        requires
            old(self).wf(),
        ensures
            final(self).wf(),
            !old(self).valid_entry(entry) ==> r == Err::<(), HeapError>(HeapError::StaleHandle)
                && *final(self) == *old(self),
            old(self).valid_entry(entry) ==> {
                &&& r == Ok::<(), HeapError>(())
                &&& final(self)@ == old(self)@.remove(old(self).spec_pair(entry))
                &&& !final(self).valid_entry(entry)
                &&& final(self).spec_total() == old(self).spec_total() - 1
                &&& forall|e2: FibEntry| #[trigger]
                    old(self).valid_entry(e2) && e2 != entry ==> final(self).valid_entry(e2)
                        && final(self).spec_pair(e2) == old(self).spec_pair(e2)
            },
            old(self).valid_entry(entry) && !old(self).spec_is_min(entry) ==> final(self).spec_min_entry() == old(self).spec_min_entry() && (forall|e2: FibEntry| #[trigger]
                old(self).spec_is_min(e2) ==> final(self).spec_is_min(e2)),
            // outside the minimum path, the deleted entry's children are
            // promoted: each ends up a live, parentless root
            old(self).valid_entry(entry) && !old(self).spec_is_min(entry) ==> forall|j: int|
                0 <= j < old(self).spec_children(entry).len() ==> final(self).valid_entry(
                    #[trigger] old(self).spec_children(entry)[j],
                ) && final(self).spec_parent(old(self).spec_children(entry)[j]) is None,
            final(self).spec_slot_count() == old(self).spec_slot_count(),
            // a handle that was stale stays stale
            forall|e2: FibEntry| #[trigger]
                final(self).valid_entry(e2) ==> old(self).valid_entry(e2),
    {
        let i = entry.idx;
        if i >= self.nodes.len() || !self.nodes[i].alive {
            return Err(HeapError::StaleHandle);
        }
        let ghost h0 = *self;
        proof {
            assert(h0.live(i as int));
            assert(self.roots@.len() > 0) by {
                h0.lemma_chain_top(i as int);
                let top = if h0.chains@[i as int].len() == 0 {
                    i as int
                } else {
                    h0.chains@[i as int][0]
                };
                assert(h0.roots@.contains(top as usize));
            }
        }
        if self.roots[0] == i {
            proof {
                assert(h0.spec_is_min(entry));
                assert(h0.root_at_ok(0));
                assert(h0.spec_min_entry() == h0.spec_pair(entry));
                lemma_view_member(h0.nodes@, i as int);
            }
            let _ = self.delete_min();
            proof {
                assert forall|e2: FibEntry| #[trigger]
                    h0.valid_entry(e2) && e2 != entry implies self.valid_entry(e2)
                    && self.spec_pair(e2) == h0.spec_pair(e2) by {
                    assert(e2.idx != i);
                    assert(!h0.spec_is_min(e2));
                }
            }
            return Ok(());
        }
        let ghost kv = (h0.nodes@[i as int].key, h0.nodes@[i as int].value);
        let ghost ck = h0.nodes@[i as int].children@;
        let ghost mut done: int = 0;
        proof {
            assert(h0.node_ok(i as int));
        }
        // promote the children of the doomed entry
        while self.nodes[i].children.len() > 0
            invariant
                self.inv_core(),
                self.roots_ok(),
                self_entries_match(h0, *self),
                i < self.nodes@.len(),
                self.live(i as int),
                self.roots@.len() > 0,
                self.roots@[0] == h0.roots@[0],
                h0.roots@[0] != i,
                self.nodes@[i as int].key == kv.0,
                self.nodes@[i as int].value == kv.1,
                self.nodes@[i as int].parent == h0.nodes@[i as int].parent,
                0 <= done <= ck.len(),
                self.nodes@[i as int].children@ == ck.skip(done),
                forall|j: int| 0 <= j < ck.len() ==> ck[j] != i,
                forall|j: int| 0 <= j < done ==> self.parentless(#[trigger] ck[j] as int),
                forall|w: int|
                    #[trigger] self.live(w) ==> self.nodes@[self.roots@[0] as int].key
                        <= self.nodes@[w].key,
            decreases self.nodes@[i as int].children@.len(),
        {
            let ghost hb = *self;
            let c = self.detach_child(i, 0);
            proof {
                assert(c == ck[done]);
                done = done + 1;
                assert(self.nodes@[i as int].children@ =~= ck.skip(done));
                assert(self.roots@[0] == hb.roots@[0]);
                assert(hb.root_at_ok(0));
                assert forall|j: int| 0 <= j < done implies self.parentless(
                    #[trigger] ck[j] as int,
                ) by {
                    if j + 1 < done {
                        assert(hb.parentless(ck[j] as int));
                        assert(ck[j] != c) by {
                            if ck[j] == c {
                                assert(hb.nodes@[c as int].parent is Some);
                            }
                        }
                    }
                }
                assert forall|w: int| #[trigger] self.live(w) implies self.nodes@[self.roots@[0] as int].key
                    <= self.nodes@[w].key by {
                    assert(hb.live(w));
                    assert(self.nodes@[hb.roots@[0] as int].key == hb.nodes@[hb.roots@[0] as int].key);
                    assert(hb.nodes@[hb.roots@[0] as int].key <= hb.nodes@[w].key);
                }
            }
        }
        proof {
            assert(done == ck.len());
        }
        let par = self.nodes[i].parent;
        match par {
            None => {
                // a non-minimum root: take it off the root list and retire it
                let ghost hb = *self;
                proof {
                    vstd::std_specs::vec::axiom_spec_len(&self.nodes);
                    assert(self.roots@.contains(i));
                }
                let mut pos: usize = 0;
                while pos < self.roots.len() && self.roots[pos] != i
                    invariant
                        *self == hb,
                        hb.roots@.contains(i),
                        pos <= self.roots@.len(),
                        forall|w: int| 0 <= w < pos ==> self.roots@[w] != i,
                    decreases self.roots@.len() - pos,
                {
                    pos += 1;
                }
                proof {
                    if pos == self.roots@.len() {
                        let w = choose|w: int|
                            0 <= w < self.roots@.len() && self.roots@[w] == i;
                        assert(self.roots@[w] != i);
                    }
                    assert(pos != 0);
                }
                self.roots.remove(pos);
                self.nodes[i].alive = false;
                proof {
                    lemma_live_at(hb.nodes@, i as int);
                }
                self.total = self.total - 1;
                proof {
                    lemma_after_kill(hb, *self, i, pos as int);
                    lemma_view_pointwise(h0.nodes@, hb.nodes@);
                    assert(hb.nodes@[i as int].key == kv.0 && hb.nodes@[i as int].value == kv.1);
                    assert(self@ == h0@.remove(kv));
                    assert(self.roots@[0] == hb.roots@[0]);
                    assert(hb.root_at_ok(0));
                    assert forall|w: int| #[trigger] self.live(w) implies self.nodes@[self.roots@[0] as int].key
                        <= self.nodes@[w].key by {
                        assert(hb.live(w));
                        assert(self.nodes@[hb.roots@[0] as int].key == hb.nodes@[hb.roots@[0] as int].key);
                        assert(hb.nodes@[hb.roots@[0] as int].key <= hb.nodes@[w].key);
                    }
                    assert forall|j: int| 0 <= j < ck.len() implies self.parentless(
                        #[trigger] ck[j] as int,
                    ) by {
                        assert(hb.parentless(ck[j] as int));
                        assert(ck[j] != i);
                        assert(self.nodes@[ck[j] as int] == hb.nodes@[ck[j] as int]);
                    }
                    assert forall|e2: FibEntry| #[trigger] self.valid_entry(e2) implies h0
                        .valid_entry(e2) by {
                        if e2.idx != i {
                            assert(self.nodes@[e2.idx as int].alive == hb.nodes@[e2.idx as int].alive);
                            assert(hb.nodes@[e2.idx as int].alive == h0.nodes@[e2.idx as int].alive);
                        }
                    }
                }
            },
            Some(q) => {
                // cut the entry out of its tree, retire it, and cascade
                let ghost hb = *self;
                proof {
                    vstd::std_specs::vec::axiom_spec_len(&self.nodes);
                    assert(hb.node_ok(i as int));
                    assert(self.nodes@[q as int].children@.contains(i));
                }
                let mut pos: usize = 0;
                while pos < self.nodes[q].children.len() && self.nodes[q].children[pos] != i
                    invariant
                        *self == hb,
                        hb.inv_core(),
                        q < hb.nodes@.len(),
                        hb.nodes@[q as int].children@.contains(i),
                        pos <= hb.nodes@[q as int].children@.len(),
                        forall|w: int| 0 <= w < pos ==> hb.nodes@[q as int].children@[w] != i,
                    decreases hb.nodes@[q as int].children@.len() - pos,
                {
                    pos += 1;
                }
                proof {
                    if pos == self.nodes@[q as int].children@.len() {
                        let w = choose|w: int|
                            0 <= w < self.nodes@[q as int].children@.len()
                                && self.nodes@[q as int].children@[w] == i;
                        assert(self.nodes@[q as int].children@[w] != i);
                    }
                }
                self.detach_child(q, pos);
                let ghost h1 = *self;
                let last = self.roots.len() - 1;
                proof {
                    assert(h1.roots@[last as int] == i);
                }
                self.roots.remove(last);
                self.nodes[i].alive = false;
                proof {
                    lemma_live_at(h1.nodes@, i as int);
                }
                self.total = self.total - 1;
                proof {
                    lemma_after_kill(h1, *self, i, last as int);
                    lemma_view_pointwise(h0.nodes@, h1.nodes@);
                    assert(h1.nodes@[i as int].key == kv.0 && h1.nodes@[i as int].value == kv.1);
                    assert(self@ == h0@.remove(kv));
                    assert(self.roots@ =~= hb.roots@);
                    assert(self.roots@[0] == hb.roots@[0]);
                    assert(hb.root_at_ok(0));
                    assert(self.live(q as int));
                    assert forall|w: int| #[trigger] self.live(w) implies self.nodes@[self.roots@[0] as int].key
                        <= self.nodes@[w].key by {
                        assert(hb.live(w));
                        assert(self.nodes@[hb.roots@[0] as int].key == hb.nodes@[hb.roots@[0] as int].key);
                        assert(hb.nodes@[hb.roots@[0] as int].key <= hb.nodes@[w].key);
                    }
                    assert forall|j: int| 0 <= j < ck.len() implies self.parentless(
                        #[trigger] ck[j] as int,
                    ) by {
                        assert(hb.parentless(ck[j] as int));
                        assert(ck[j] != i);
                        assert(h1.nodes@[ck[j] as int].parent == hb.nodes@[ck[j] as int].parent);
                        assert(h1.nodes@[ck[j] as int].alive == hb.nodes@[ck[j] as int].alive);
                        assert(self.nodes@[ck[j] as int] == h1.nodes@[ck[j] as int]);
                    }
                }
                let ghost hk = *self;
                self.cascading_cut(q);
                proof {
                    assert forall|j: int| 0 <= j < ck.len() implies self.parentless(
                        #[trigger] ck[j] as int,
                    ) by {
                        assert(hk.parentless(ck[j] as int));
                    }
                    assert forall|e2: FibEntry| #[trigger] self.valid_entry(e2) implies h0
                        .valid_entry(e2) by {
                        assert(hk.nodes@[e2.idx as int].alive == self.nodes@[e2.idx as int].alive);
                        if e2.idx != i {
                            assert(h1.nodes@[e2.idx as int].alive == hb.nodes@[e2.idx as int].alive);
                            assert(hk.nodes@[e2.idx as int].alive == h1.nodes@[e2.idx as int].alive);
                            assert(hb.nodes@[e2.idx as int].alive == h0.nodes@[e2.idx as int].alive);
                        }
                    }
                }
            },
        }
        proof {
            lemma_view_member(h0.nodes@, i as int);
            assert(h0.root_at_ok(0));
            assert(self@ == h0@.remove(kv));
            assert forall|j: int| 0 <= j < h0.spec_children(entry).len() implies self.valid_entry(
                #[trigger] h0.spec_children(entry)[j],
            ) && self.spec_parent(h0.spec_children(entry)[j]) is None by {
                assert(h0.spec_children(entry)[j] == FibEntry { idx: ck[j] });
                assert(self.parentless(ck[j] as int));
            }
            assert(self.roots@.len() > 0);
            assert(self.roots@[0] == h0.roots@[0]);
            assert(self.nodes@[h0.roots@[0] as int].alive == h0.nodes@[h0.roots@[0] as int].alive);
            assert forall|e2: FibEntry| #[trigger]
                h0.valid_entry(e2) && e2 != entry implies self.valid_entry(e2) && self.spec_pair(
                e2,
            ) == h0.spec_pair(e2) by {
                assert(e2.idx != i);
            }
        }
        Ok(())
    }

    /// Merges `other` into this heap, consuming it. The other heap's trees
    /// join this heap's root list unchanged — no consolidation runs — and
    /// whichever of the two previous minima is smaller ends up at the
    /// front. The incoming arena is appended slot for slot, so handles into
    /// this heap stay valid; handles into `other` must not be used
    /// afterwards.
    #[verifier::rlimit(100)]
    pub fn meld(&mut self, other: FibHeap<V>)
        requires
            old(self).wf(),
            other.wf(),
        ensures
            final(self).wf(),
            final(self)@ == old(self)@.add(other@),
            final(self).spec_total() == old(self).spec_total() + other.spec_total(),
            final(self).spec_slot_count() == old(self).spec_slot_count() + other.spec_slot_count(),
            forall|e2: FibEntry| #[trigger]
                old(self).valid_entry(e2) ==> final(self).valid_entry(e2) && final(self).spec_pair(
                    e2,
                ) == old(self).spec_pair(e2),
            // a handle that was stale stays stale unless it falls in the
            // newly absorbed slot range
            forall|e2: FibEntry| #[trigger]
                final(self).valid_entry(e2) && slot_of(e2) < old(self).spec_slot_count() ==> old(
                    self,
                ).valid_entry(e2),
    {
        let ghost h0 = *self;
        let off = self.nodes.len();
        let ghost on = other.nodes@;
        let ghost och = other.chains@;
        let ghost oro = other.roots@;
        let mut src = other.nodes;
        // phase one: append the incoming arena unchanged
        while src.len() > 0
            invariant
                src@ == on.skip(on.len() - src@.len()),
                src@.len() <= on.len(),
                self.nodes@ == h0.nodes@ + on.take(on.len() - src@.len()),
                off == h0.nodes@.len(),
                self.roots@ == h0.roots@,
                self.chains@ == h0.chains@,
                self.total == h0.total,
            decreases src@.len(),
        {
            let ghost done = on.len() - src@.len();
            let n = src.remove(0);
            proof {
                assert(n == on[done as int]);
            }
            self.nodes.push(n);
            proof {
                assert(self.nodes@ =~= h0.nodes@ + on.take(done as int + 1));
                assert(src@ =~= on.skip(done as int + 1));
            }
        }
        // phase two: shift the appended nodes' links by the offset
        let total_len = self.nodes.len();
        let mut idx = off;
        while idx < total_len
            invariant
                other.inv_core(),
                on == other.nodes@,
                total_len == self.nodes@.len(),
                total_len == off + on.len(),
                off <= idx <= total_len,
                off == h0.nodes@.len(),
                forall|j: int| 0 <= j < off ==> self.nodes@[j] == h0.nodes@[j],
                forall|j: int|
                    0 <= j < idx - off ==> shifted_from(
                        #[trigger] self.nodes@[off + j],
                        on[j],
                        off as int,
                    ),
                forall|j: int| idx - off <= j < on.len() ==> self.nodes@[off + j] == on[j],
                self.roots@ == h0.roots@,
                self.chains@ == h0.chains@,
                self.total == h0.total,
            decreases total_len - idx,
        {
            let ghost jj = idx - off;
            proof {
                assert(self.nodes@[idx as int] == on[jj as int]);
                if self.nodes@[idx as int].alive {
                    assert(other.live(jj as int));
                    assert(other.node_ok(jj as int));
                } else {
                    assert(!on[jj as int].alive);
                }
            }
            let ghost hp = *self;
            let par = self.nodes[idx].parent;
            match par {
                Some(p) => {
                    proof {
                        assert(on[jj as int].parent == Some(p));
                        assert(other.live(p as int));
                    }
                    self.nodes[idx].parent = Some(p + off);
                },
                None => {},
            }
            let clen = self.nodes[idx].children.len();
            let mut newch: Vec<usize> = Vec::new();
            let mut w: usize = 0;
            while w < clen
                invariant
                    idx < self.nodes@.len(),
                    clen == self.nodes@[idx as int].children@.len(),
                    self.nodes@[idx as int].children == on[idx - off].children,
                    0 <= idx - off < on.len(),
                    other.inv_core(),
                    on == other.nodes@,
                    off + on.len() == self.nodes@.len(),
                    clen > 0 ==> on[idx - off].alive,
                    clen > 0 ==> other.node_ok(idx - off),
                    w <= clen,
                    newch@.len() == w as int,
                    forall|u: int|
                        0 <= u < w ==> newch@[u] as int == self.nodes@[idx as int].children@[u]
                            + off,
                decreases clen - w,
            {
                let cc = self.nodes[idx].children[w];
                proof {
                    vstd::std_specs::vec::axiom_spec_len(&self.nodes);
                    assert(on[idx - off].children@[w as int] == cc);
                    assert(other.live(cc as int));
                }
                newch.push(cc + off);
                w += 1;
            }
            self.nodes[idx].children = newch;
            proof {
                assert(shifted_from(self.nodes@[idx as int], on[jj as int], off as int));
                assert forall|j: int|
                    0 <= j < (idx + 1) - off implies shifted_from(
                    #[trigger] self.nodes@[off + j],
                    on[j],
                    off as int,
                ) by {
                    if j < jj {
                        assert(self.nodes@[off + j] == hp.nodes@[off + j]);
                        assert(shifted_from(hp.nodes@[off + j], on[j], off as int));
                    }
                }
            }
            idx += 1;
        }
        // merged chains: the incoming chains shifted by the offset
        self.chains = Ghost(
            h0.chains@ + Seq::new(on.len(), |j: int| shift_chain(och[j], off as int)),
        );
        proof {
            vstd::std_specs::vec::axiom_spec_len(&self.nodes);
            assert(self.nodes@ =~= h0.nodes@ + self.nodes@.skip(off as int));
            lemma_view_concat(h0.nodes@, self.nodes@.skip(off as int));
            assert forall|u: int| 0 <= u < self.nodes@.skip(off as int).len() implies #[trigger] self.nodes@.skip(
                off as int,
            )[u].alive == on[u].alive && self.nodes@.skip(off as int)[u].key == on[u].key
                && self.nodes@.skip(off as int)[u].value == on[u].value by {
                assert(self.nodes@.skip(off as int)[u] == self.nodes@[off + u]);
                assert(shifted_from(self.nodes@[off as int + u], on[u], off as int));
            }
            lemma_view_pointwise(self.nodes@.skip(off as int), on);
            lemma_count_le_len(self.nodes@);
            assert(h0.total as nat == count_live(h0.nodes@));
            assert(other.total as nat == count_live(on));
            assert(count_live(self.nodes@) == count_live(h0.nodes@) + count_live(on));
            assert(self.total as int + other.total as int <= self.nodes@.len());
        }
        self.total = self.total + other.total;
        proof {
            lemma_after_meld(h0, other, *self, off as int);
        }
        // splice the root lists, smaller minimum first
        let ghost hm = *self;
        let oroots = other.roots;
        let self_first: bool;
        if self.roots.len() == 0 {
            self_first = true;
        } else if oroots.len() == 0 {
            self_first = true;
        } else {
            proof {
                vstd::std_specs::vec::axiom_spec_len(&self.nodes);
                assert(h0.root_at_ok(0));
                assert(other.root_at_ok(0));
                assert(self.roots@ == h0.roots@);
                assert(self.nodes@[self.roots@[0] as int] == h0.nodes@[h0.roots@[0] as int]);
            }
            let a = self.roots[0];
            let b = oroots[0];
            self_first = self.nodes[a].key <= self.nodes[b + off].key;
            proof {
                assert(shifted_from(
                    self.nodes@[off as int + other.roots@[0] as int],
                    on[other.roots@[0] as int],
                    off as int,
                ));
                assert(self_first == (h0.nodes@[h0.roots@[0] as int].key <= on[other.roots@[0] as int].key));
            }
        }
        if self_first {
            let mut w: usize = 0;
            while w < oroots.len()
                invariant
                    oroots@ == oro,
                    oro == other.roots@,
                    other.inv_core(),
                    other.roots_ok(),
                    on == other.nodes@,
                    off as int == h0.nodes@.len(),
                    off + on.len() == self.nodes@.len(),
                    w <= oro.len(),
                    self.nodes@ == hm.nodes@,
                    self.chains@ == hm.chains@,
                    self.total == hm.total,
                    self.roots@.len() == hm.roots@.len() + w as int,
                    forall|j: int| 0 <= j < hm.roots@.len() ==> self.roots@[j] == hm.roots@[j],
                    forall|j: int|
                        0 <= j < w ==> (#[trigger] self.roots@[hm.roots@.len() + j]) as int
                            == oro[j] as int + off,
                decreases oro.len() - w,
            {
                proof {
                    vstd::std_specs::vec::axiom_spec_len(&self.nodes);
                    assert(other.root_at_ok(w as int));
                }
                let x = oroots[w];
                self.roots.push(x + off);
                w += 1;
            }
        } else {
            let mut newroots: Vec<usize> = Vec::new();
            let mut w: usize = 0;
            while w < oroots.len()
                invariant
                    oroots@ == oro,
                    oro == other.roots@,
                    other.inv_core(),
                    other.roots_ok(),
                    on == other.nodes@,
                    off + on.len() == self.nodes@.len(),
                    w <= oro.len(),
                    newroots@.len() == w as int,
                    forall|j: int| 0 <= j < w ==> newroots@[j] as int == oro[j] as int + off,
                decreases oro.len() - w,
            {
                proof {
                    vstd::std_specs::vec::axiom_spec_len(&self.nodes);
                    assert(other.root_at_ok(w as int));
                }
                let x = oroots[w];
                newroots.push(x + off);
                w += 1;
            }
            let mut w2: usize = 0;
            let mut selfroots: Vec<usize> = Vec::new();
            core::mem::swap(&mut selfroots, &mut self.roots);
            while w2 < selfroots.len()
                invariant
                    w2 <= selfroots@.len(),
                    newroots@.len() == oro.len() + w2 as int,
                    forall|j: int| 0 <= j < oro.len() ==> newroots@[j] as int == oro[j] + off,
                    forall|j: int|
                        0 <= j < w2 ==> newroots@[oro.len() + j] == selfroots@[j],
                decreases selfroots@.len() - w2,
            {
                let x = selfroots[w2];
                newroots.push(x);
                w2 += 1;
            }
            self.roots = newroots;
            proof {
                assert(selfroots@ == hm.roots@);
            }
        }
        proof {
            lemma_core_same(hm, *self);
            lemma_meld_roots(h0, other, hm, *self, off as int, self_first);
        }
    }

    /// Reports the minimum entry without changing the heap: the pair at the
    /// front of the root list, whose key is smallest among all entries.
    /// Fails with `EmptyHeap` exactly when the heap has no entries.
    pub fn find_min(&self) -> (r: Result<(u64, V), HeapError>)
        requires
            self.wf(),
        ensures
            match r {
                Ok(p) => {
                    &&& self@.count(p) >= 1
                    &&& p == self.spec_min_entry()
                    &&& self.spec_total() > 0
                    &&& forall|q: (u64, V)| self@.count(q) > 0 ==> p.0 <= q.0
                },
                Err(err) => {
                    &&& err == HeapError::EmptyHeap
                    &&& self@ == Multiset::<(u64, V)>::empty()
                    &&& self.spec_total() == 0
                },
            },
    {
        if self.roots.len() == 0 {
            proof {
                self.lemma_no_roots_no_live();
            }
            Err(HeapError::EmptyHeap)
        } else {
            proof {
                assert(self.root_at_ok(0));
            }
            let m = self.roots[0];
            let k = self.nodes[m].key;
            let v = self.nodes[m].value;
            proof {
                lemma_view_member(self.nodes@, m as int);
                lemma_view_len(self.nodes@);
                vstd::multiset::axiom_count_le_len(arena_view(self.nodes@), (k, v));
                assert forall|q: (u64, V)| self@.count(q) > 0 implies k <= q.0 by {
                    lemma_view_exists(self.nodes@, q);
                    let i = choose|i: int|
                        0 <= i < self.nodes@.len() && (#[trigger] self.nodes@[i]).alive
                            && self.nodes@[i].key == q.0 && self.nodes@[i].value == q.1;
                    assert(self.live(i));
                }
            }
            Ok((k, v))
        }
    }

    /// The handles of the direct children of the entry a handle names.
    pub closed spec fn spec_children(&self, e: FibEntry) -> Seq<FibEntry> {
        Seq::new(
            self.nodes@[e.idx as int].children@.len(),
            |j: int| FibEntry { idx: self.nodes@[e.idx as int].children@[j] },
        )
    }

    /// The handle sitting at position `j` of the root list.
    pub closed spec fn spec_root_entry(&self, j: int) -> FibEntry {
        FibEntry { idx: self.roots@[j] }
    }

    /// Whether `b` can be reached from `a` in at most `fuel` child-link
    /// steps.
    pub open spec fn reaches(&self, a: FibEntry, b: FibEntry, fuel: nat) -> bool
        decreases fuel,
    {
        a == b || (fuel > 0 && exists|j: int|
            0 <= j < self.spec_children(a).len() && self.reaches(
                self.spec_children(a)[j],
                b,
                (fuel - 1) as nat,
            ))
    }

    /// The minimum lives at the front of the root list: in a nonempty
    /// well-formed heap, the entry at root position 0 is live, is the entry
    /// `spec_is_min` names, its pair is `spec_min_entry`, and its key bounds
    /// every entry of the heap. Deleting the entry at the minimum position
    /// therefore has exactly the effect `delete_min` describes.
    pub proof fn lemma_front_is_min(&self)
        requires
            self.wf(),
        ensures
            self.spec_root_count() > 0 <==> self.spec_total() > 0,
            self.spec_root_count() > 0 ==> {
                &&& self.valid_entry(self.spec_root_entry(0))
                &&& self.spec_is_min(self.spec_root_entry(0))
                &&& self.spec_pair(self.spec_root_entry(0)) == self.spec_min_entry()
                &&& forall|q: (u64, V)| self@.count(q) > 0 ==> self.spec_min_entry().0 <= q.0
            },
            forall|e: FibEntry| #[trigger]
                self.spec_is_min(e) ==> self.valid_entry(e) && self.spec_pair(e)
                    == self.spec_min_entry(),
    {
        if self.roots@.len() == 0 {
            self.lemma_no_roots_no_live();
            lemma_view_len(self.nodes@);
        } else {
            assert(self.root_at_ok(0));
            lemma_live_at(self.nodes@, self.roots@[0] as int);
            lemma_view_len(self.nodes@);
            assert forall|q: (u64, V)| self@.count(q) > 0 implies self.spec_min_entry().0
                <= q.0 by {
                lemma_view_exists(self.nodes@, q);
                let i = choose|i: int|
                    0 <= i < self.nodes@.len() && (#[trigger] self.nodes@[i]).alive
                        && self.nodes@[i].key == q.0 && self.nodes@[i].value == q.1;
                assert(self.live(i));
            }
        }
    }

    /// Heap order: in a well-formed heap, every entry that has a parent
    /// carries a key no smaller than its parent's key.
    pub proof fn lemma_heap_order(&self)
        requires
            self.wf(),
        ensures
            forall|e: FibEntry|
                self.valid_entry(e) && (#[trigger] self.spec_parent(e)) is Some ==> self.spec_key(
                    self.spec_parent(e)->0,
                ) <= self.spec_key(e) && self.valid_entry(self.spec_parent(e)->0),
    {
        assert forall|e: FibEntry|
            self.valid_entry(e) && (#[trigger] self.spec_parent(e)) is Some implies self.spec_key(
            self.spec_parent(e)->0,
        ) <= self.spec_key(e) && self.valid_entry(self.spec_parent(e)->0) by {
            assert(self.live(e.idx as int));
            assert(self.node_ok(e.idx as int));
        }
    }

    /// A single child step extends reachability by one unit of fuel.
    proof fn lemma_reach_step(&self, a: FibEntry, b: FibEntry, c: FibEntry, fuel: nat)
        requires
            self.reaches(a, b, fuel),
            exists|j: int|
                0 <= j < self.spec_children(b).len() && self.spec_children(b)[j] == c,
        ensures
            self.reaches(a, c, fuel + 1),
        decreases fuel,
    {
        if a == b {
            let j = choose|j: int|
                0 <= j < self.spec_children(b).len() && self.spec_children(b)[j] == c;
            assert(self.reaches(self.spec_children(a)[j], c, fuel));
        } else {
            let j = choose|j: int|
                0 <= j < self.spec_children(a).len() && self.reaches(
                    self.spec_children(a)[j],
                    b,
                    (fuel - 1) as nat,
                );
            self.lemma_reach_step(self.spec_children(a)[j], b, c, (fuel - 1) as nat);
            assert(self.reaches(self.spec_children(a)[j], c, fuel));
        }
    }

    /// Every live entry hangs below some root.
    proof fn lemma_reach_entry(&self, e: FibEntry)
        requires
            self.inv_core(),
            self.roots_ok(),
            self.valid_entry(e),
        ensures
            exists|j: int, fuel: nat|
                0 <= j < self.spec_root_count() && #[trigger] self.reaches(
                    self.spec_root_entry(j),
                    e,
                    fuel,
                ),
        decreases self.chains@[e.idx as int].len(),
    {
        assert(self.live(e.idx as int));
        assert(self.node_ok(e.idx as int));
        if self.nodes@[e.idx as int].parent is None {
            assert(self.roots@.contains(e.idx));
            let j = choose|j: int| 0 <= j < self.roots@.len() && self.roots@[j] == e.idx;
            assert(self.spec_root_entry(j) == e);
            assert(self.reaches(self.spec_root_entry(j), e, 0nat));
        } else {
            let p = self.nodes@[e.idx as int].parent->0;
            let pe = FibEntry { idx: p };
            assert(self.live(p as int));
            self.lemma_reach_entry(pe);
            let (j, fuel): (int, nat) = choose|j: int, fuel: nat|
                0 <= j < self.spec_root_count() && #[trigger] self.reaches(
                    self.spec_root_entry(j),
                    pe,
                    fuel,
                );
            let w = choose|w: int|
                0 <= w < self.nodes@[p as int].children@.len() && self.nodes@[p as int].children@[w]
                    == e.idx;
            assert(self.spec_children(pe)[w] == e);
            self.lemma_reach_step(self.spec_root_entry(j), pe, e, fuel);
        }
    }

    /// The entry count: `total` equals the number of entries reachable from
    /// the root list by child links, which is the number of live entries and
    /// the size of the heap's multiset of pairs.
    pub proof fn lemma_total_counts(&self)
        requires
            self.wf(),
        ensures
            self@.len() == self.spec_total(),
            self.spec_entry_count() == self.spec_total(),
            forall|e: FibEntry| #[trigger]
                self.valid_entry(e) ==> exists|j: int, fuel: nat|
                    0 <= j < self.spec_root_count() && #[trigger] self.reaches(
                        self.spec_root_entry(j),
                        e,
                        fuel,
                    ),
            forall|j: int, e: FibEntry, fuel: nat|
                0 <= j < self.spec_root_count() && #[trigger] self.reaches(
                    self.spec_root_entry(j),
                    e,
                    fuel,
                ) ==> self.valid_entry(e),
    {
        lemma_view_len(self.nodes@);
        assert forall|e: FibEntry| #[trigger] self.valid_entry(e) implies exists|j: int, fuel: nat|
            0 <= j < self.spec_root_count() && #[trigger] self.reaches(
                self.spec_root_entry(j),
                e,
                fuel,
            ) by {
            self.lemma_reach_entry(e);
        }
        assert forall|j: int, e: FibEntry, fuel: nat|
            0 <= j < self.spec_root_count() && #[trigger] self.reaches(
                self.spec_root_entry(j),
                e,
                fuel,
            ) implies self.valid_entry(e) by {
            assert(self.root_at_ok(j));
            self.lemma_reach_valid(self.spec_root_entry(j), e, fuel);
        }
    }

    /// Everything reachable from a live entry is itself live.
    proof fn lemma_reach_valid(&self, a: FibEntry, b: FibEntry, fuel: nat)
        requires
            self.inv_core(),
            self.valid_entry(a),
            self.reaches(a, b, fuel),
        ensures
            self.valid_entry(b),
        decreases fuel,
    {
        if a != b {
            let j = choose|j: int|
                0 <= j < self.spec_children(a).len() && self.reaches(
                    self.spec_children(a)[j],
                    b,
                    (fuel - 1) as nat,
                );
            assert(self.live(a.idx as int));
            assert(self.node_ok(a.idx as int));
            assert(self.live(self.nodes@[a.idx as int].children@[j] as int));
            self.lemma_reach_valid(self.spec_children(a)[j], b, (fuel - 1) as nat);
        }
    }

    /// The number of entries currently in the heap.
    pub fn len(&self) -> (n: usize)
        requires
            self.wf(),
        ensures
            n as int == self.spec_total(),
            n as nat == self@.len(),
    {
        proof {
            lemma_view_len(self.nodes@);
        }
        self.total
    }

    /// The number of trees on the root list.
    pub fn root_count(&self) -> (n: usize)
        ensures
            n as int == self.spec_root_count(),
    {
        self.roots.len()
    }

    /// The key currently held by the entry a handle names, or `None` for a
    /// stale handle.
    pub fn entry_key(&self, e: FibEntry) -> (r: Option<u64>)
        ensures
            r == (if self.valid_entry(e) {
                Some(self.spec_key(e))
            } else {
                None::<u64>
            }),
    {
        if e.idx < self.nodes.len() && self.nodes[e.idx].alive {
            Some(self.nodes[e.idx].key)
        } else {
            None
        }
    }

    /// Whether a handle names a live entry that currently sits on the root
    /// list (that is, has no parent).
    pub fn is_root(&self, e: FibEntry) -> (r: bool)
        ensures
            r == (self.valid_entry(e) && self.spec_parent(e) is None),
    {
        e.idx < self.nodes.len() && self.nodes[e.idx].alive && self.nodes[e.idx].parent.is_none()
    }
}

/// What a cascading cut leaves of the node it starts from: a root is left
/// untouched (with the whole heap unchanged), an unmarked non-root is now
/// marked with its parent link intact, and a marked non-root has been cut
/// loose — parentless with its mark cleared.
spec fn cascade_start_done<V>(h0: FibHeap<V>, h1: FibHeap<V>, start: usize) -> bool {
    &&& h1.nodes@[start as int].children == h0.nodes@[start as int].children
    &&& (h0.nodes@[start as int].parent is None ==> h1 == h0)
    &&& (h0.nodes@[start as int].parent is Some && !h0.nodes@[start as int].marked
        ==> h1.nodes@[start as int].marked && h1.nodes@[start as int].parent == h0.nodes@[start as int].parent)
    &&& (h0.nodes@[start as int].parent is Some && h0.nodes@[start as int].marked
        ==> h1.nodes@[start as int].parent is None && !h1.nodes@[start as int].marked)
}

/// Whether node `d` is node `s` with every arena index shifted by `off`:
/// same entry and mark, parent and children moved up by the offset.
spec fn shifted_from<V>(d: Node<V>, s: Node<V>, off: int) -> bool {
    &&& d.key == s.key
    &&& d.value == s.value
    &&& d.alive == s.alive
    &&& d.marked == s.marked
    &&& (s.parent is None ==> d.parent is None)
    &&& (s.parent is Some ==> d.parent is Some && d.parent->0 as int == s.parent->0 as int + off)
    &&& d.children@.len() == s.children@.len()
    &&& forall|w: int|
        0 <= w < s.children@.len() ==> (#[trigger] d.children@[w]) as int == s.children@[w] as int
            + off
}

/// An ancestor chain with every index shifted by `off`.
spec fn shift_chain(s: Seq<int>, off: int) -> Seq<int> {
    Seq::new(s.len(), |w: int| s[w] + off)
}

/// Merging two arenas side by side, with the second one's links shifted,
/// preserves the core invariant and adds the two heaps' contents.
proof fn lemma_after_meld<V>(h0: FibHeap<V>, other: FibHeap<V>, h1: FibHeap<V>, off: int)
    requires
        h0.inv_core(),
        other.inv_core(),
        off == h0.nodes@.len(),
        h1.nodes@.len() == off + other.nodes@.len(),
        forall|j: int| 0 <= j < off ==> h1.nodes@[j] == h0.nodes@[j],
        forall|j: int|
            0 <= j < other.nodes@.len() ==> shifted_from(
                #[trigger] h1.nodes@[off + j],
                other.nodes@[j],
                off,
            ),
        h1.chains@ == h0.chains@ + Seq::new(
            other.nodes@.len(),
            |j: int| shift_chain(other.chains@[j], off),
        ),
        h1.total as int == h0.total as int + other.total as int,
    ensures
        h1.inv_core(),
        arena_view(h1.nodes@) == arena_view(h0.nodes@).add(arena_view(other.nodes@)),
        count_live(h1.nodes@) == count_live(h0.nodes@) + count_live(other.nodes@),
{
    let on = other.nodes@;
    vstd::std_specs::vec::axiom_spec_len(&h1.nodes);
    assert(h1.nodes@ =~= h0.nodes@ + h1.nodes@.skip(off));
    lemma_view_concat(h0.nodes@, h1.nodes@.skip(off));
    assert forall|u: int| 0 <= u < h1.nodes@.skip(off).len() implies #[trigger] h1.nodes@.skip(
        off,
    )[u].alive == on[u].alive && h1.nodes@.skip(off)[u].key == on[u].key && h1.nodes@.skip(
        off,
    )[u].value == on[u].value by {
        assert(h1.nodes@.skip(off)[u] == h1.nodes@[off + u]);
        assert(shifted_from(h1.nodes@[off + u], on[u], off));
    }
    lemma_view_pointwise(h1.nodes@.skip(off), on);
    assert forall|i: int| #[trigger] h1.live(i) implies h1.node_ok(i) by {
        if i < off {
            assert(h0.live(i));
            assert(h0.node_ok(i));
            assert(h1.chains@[i] == h0.chains@[i]);
            if h0.nodes@[i].parent is Some {
                let q = h0.nodes@[i].parent->0 as int;
                assert(h1.nodes@[q] == h0.nodes@[q]);
                assert(h1.chains@[q] == h0.chains@[q]);
            }
            assert forall|w: int| 0 <= w < h1.chains@[i].len() implies h1.live(
                #[trigger] h1.chains@[i][w],
            ) by {
                assert(h0.live(h0.chains@[i][w]));
                assert(h1.nodes@[h0.chains@[i][w]] == h0.nodes@[h0.chains@[i][w]]);
            }
            assert forall|w: int| 0 <= w < h1.nodes@[i].children@.len() implies h1.live(
                #[trigger] h1.nodes@[i].children@[w] as int,
            ) && h1.nodes@[h1.nodes@[i].children@[w] as int].parent == Some(i as usize) by {
                let d = h0.nodes@[i].children@[w] as int;
                assert(h0.live(d));
                assert(h1.nodes@[d] == h0.nodes@[d]);
            }
        } else {
            let j = i - off;
            assert(shifted_from(h1.nodes@[off + j], on[j], off));
            assert(other.live(j));
            assert(other.node_ok(j));
            assert(h1.chains@[i] == shift_chain(other.chains@[j], off));
            if on[j].parent is Some {
                let q = on[j].parent->0 as int;
                assert(other.live(q));
                assert(shifted_from(h1.nodes@[off + q], on[q], off));
                assert(h1.nodes@[i].parent->0 as int == q + off);
                assert(h1.live(q + off));
                assert(h1.nodes@[q + off].key == on[q].key);
                // the shifted parent's child list still names this node
                assert(on[q].children@.contains(j as usize));
                let w = choose|w: int| 0 <= w < on[q].children@.len() && on[q].children@[w] == j as usize;
                assert(h1.nodes@[off + q].children@[w] as int == j + off);
                assert(h1.nodes@[off + q].children@.contains((j + off) as usize)) by {
                    assert(h1.nodes@[off + q].children@[w] == (j + off) as usize);
                }
                assert(h1.chains@[off + q] == shift_chain(other.chains@[q], off));
                assert(h1.chains@[i] =~= h1.chains@[off + q].push(q + off)) by {
                    assert(other.chains@[j] == other.chains@[q].push(q));
                }
            } else {
                assert(other.chains@[j].len() == 0);
                assert(h1.chains@[i].len() == 0);
            }
            assert forall|w: int| 0 <= w < h1.chains@[i].len() implies h1.live(
                #[trigger] h1.chains@[i][w],
            ) by {
                assert(h1.chains@[i][w] == other.chains@[j][w] + off);
                assert(other.live(other.chains@[j][w]));
                assert(shifted_from(
                    h1.nodes@[off + other.chains@[j][w]],
                    on[other.chains@[j][w]],
                    off,
                ));
            }
            assert forall|w: int| 0 <= w < h1.nodes@[i].children@.len() implies h1.live(
                #[trigger] h1.nodes@[i].children@[w] as int,
            ) && h1.nodes@[h1.nodes@[i].children@[w] as int].parent == Some(i as usize) by {
                let d = on[j].children@[w] as int;
                assert(other.live(d));
                assert(on[d].parent == Some(j as usize));
                assert(h1.nodes@[i].children@[w] as int == d + off);
                assert(shifted_from(h1.nodes@[off + d], on[d], off));
                assert(h1.nodes@[off + d].parent->0 as int == j + off);
                assert(h1.nodes@[off + d].parent == Some(i as usize));
            }
            assert forall|w1: int, w2: int|
                0 <= w1 < w2 < h1.nodes@[i].children@.len() implies h1.nodes@[i].children@[w1]
                != h1.nodes@[i].children@[w2] by {
                assert(on[j].children@[w1] != on[j].children@[w2]);
                assert(h1.nodes@[i].children@[w1] as int == on[j].children@[w1] as int + off);
                assert(h1.nodes@[i].children@[w2] as int == on[j].children@[w2] as int + off);
            }
        }
    }
    assert forall|i: int|
        0 <= i < h1.nodes@.len() && !(#[trigger] h1.nodes@[i]).alive implies h1.nodes@[i].parent
        is None && h1.nodes@[i].children@.len() == 0 by {
        if i >= off {
            assert(shifted_from(h1.nodes@[off + (i - off)], on[i - off], off));
            assert(!on[i - off].alive);
        }
    }
}

/// Splicing the two root lists, smaller front first, restores the root-list
/// and minimum invariants of the merged heap.
proof fn lemma_meld_roots<V>(
    h0: FibHeap<V>,
    other: FibHeap<V>,
    hm: FibHeap<V>,
    h1: FibHeap<V>,
    off: int,
    self_first: bool,
)
    requires
        h0.wf(),
        other.wf(),
        h1.inv_core(),
        off == h0.nodes@.len(),
        h1.nodes@.len() == off + other.nodes@.len(),
        forall|j: int| 0 <= j < off ==> h1.nodes@[j] == h0.nodes@[j],
        forall|j: int|
            0 <= j < other.nodes@.len() ==> shifted_from(
                #[trigger] h1.nodes@[off + j],
                other.nodes@[j],
                off,
            ),
        hm.roots@ == h0.roots@,
        h1.roots@.len() == h0.roots@.len() + other.roots@.len(),
        self_first ==> (forall|j: int|
            0 <= j < h0.roots@.len() ==> h1.roots@[j] == h0.roots@[j]) && (forall|j: int|
            0 <= j < other.roots@.len() ==> (#[trigger] h1.roots@[h0.roots@.len() + j]) as int
                == other.roots@[j] as int + off),
        !self_first ==> (forall|j: int|
            0 <= j < other.roots@.len() ==> (#[trigger] h1.roots@[j]) as int
                == other.roots@[j] as int + off) && (forall|j: int|
            0 <= j < h0.roots@.len() ==> #[trigger] h1.roots@[other.roots@.len() + j]
                == h0.roots@[j]),
        self_first && h0.roots@.len() > 0 && other.roots@.len() > 0
            ==> h0.nodes@[h0.roots@[0] as int].key
            <= other.nodes@[other.roots@[0] as int].key,
        !self_first ==> h0.roots@.len() > 0 && other.roots@.len() > 0
            && other.nodes@[other.roots@[0] as int].key < h0.nodes@[h0.roots@[0] as int].key,
    ensures
        h1.roots_ok(),
        h1.min_ok(),
{
    let on = other.nodes@;
    let hl = h0.roots@.len() as int;
    let ol = other.roots@.len() as int;
    vstd::std_specs::vec::axiom_spec_len(&h0.nodes);
    vstd::std_specs::vec::axiom_spec_len(&h1.nodes);
    assert forall|j: int| 0 <= j < h1.roots@.len() implies #[trigger] h1.root_at_ok(j) by {
        if self_first {
            if j < hl {
                assert(h1.roots@[j] == h0.roots@[j]);
                assert(h0.root_at_ok(j));
                assert(h1.nodes@[h0.roots@[j] as int] == h0.nodes@[h0.roots@[j] as int]);
            } else {
                assert(h1.roots@[hl + (j - hl)] as int == other.roots@[j - hl] as int + off);
                assert(other.root_at_ok(j - hl));
                assert(shifted_from(
                    h1.nodes@[off + other.roots@[j - hl] as int],
                    on[other.roots@[j - hl] as int],
                    off,
                ));
            }
        } else {
            if j < ol {
                assert(h1.roots@[j] as int == other.roots@[j] as int + off);
                assert(other.root_at_ok(j));
                assert(shifted_from(
                    h1.nodes@[off + other.roots@[j] as int],
                    on[other.roots@[j] as int],
                    off,
                ));
            } else {
                assert(h1.roots@[ol + (j - ol)] == h0.roots@[j - ol]);
                assert(h0.root_at_ok(j - ol));
                assert(h1.nodes@[h0.roots@[j - ol] as int] == h0.nodes@[h0.roots@[j - ol] as int]);
            }
        }
    }
    assert forall|j1: int, j2: int| 0 <= j1 < j2 < h1.roots@.len() implies h1.roots@[j1]
        != h1.roots@[j2] by {
        assert(h1.root_at_ok(j1));
        assert(h1.root_at_ok(j2));
        if self_first {
            if j1 < hl && j2 < hl {
                assert(h1.roots@[j1] == h0.roots@[j1] && h1.roots@[j2] == h0.roots@[j2]);
            } else if j1 < hl {
                assert(h1.roots@[j1] == h0.roots@[j1]);
                assert(h1.roots@[hl + (j2 - hl)] as int == other.roots@[j2 - hl] as int + off);
                assert(h0.root_at_ok(j1));
                assert((h1.roots@[j1] as int) < off);
                assert((h1.roots@[j2] as int) >= off);
            } else {
                assert(h1.roots@[hl + (j1 - hl)] as int == other.roots@[j1 - hl] as int + off);
                assert(h1.roots@[hl + (j2 - hl)] as int == other.roots@[j2 - hl] as int + off);
                assert(other.roots@[j1 - hl] != other.roots@[j2 - hl]);
            }
        } else {
            if j1 < ol && j2 < ol {
                assert(h1.roots@[j1] as int == other.roots@[j1] as int + off);
                assert(h1.roots@[j2] as int == other.roots@[j2] as int + off);
                assert(other.roots@[j1] != other.roots@[j2]);
            } else if j1 < ol {
                assert(h1.roots@[ol + (j2 - ol)] == h0.roots@[j2 - ol]);
                assert(h1.roots@[j1] as int == other.roots@[j1] as int + off);
                assert(h0.root_at_ok(j2 - ol));
                assert((h1.roots@[j2] as int) < off);
                assert((h1.roots@[j1] as int) >= off);
            } else {
                assert(h1.roots@[ol + (j1 - ol)] == h0.roots@[j1 - ol]);
                assert(h1.roots@[ol + (j2 - ol)] == h0.roots@[j2 - ol]);
                assert(h0.roots@[j1 - ol] != h0.roots@[j2 - ol]);
            }
        }
    }
    assert forall|i: int| #[trigger] h1.live(i) && h1.nodes@[i].parent is None implies h1.roots@
        .contains(i as usize) by {
        if i < off {
            assert(h0.live(i) && h0.nodes@[i].parent is None);
            assert(h0.roots@.contains(i as usize));
            let w = choose|w: int| 0 <= w < hl && h0.roots@[w] == i as usize;
            if self_first {
                assert(h1.roots@[w] == i as usize);
            } else {
                assert(h1.roots@[ol + w] == i as usize);
            }
        } else {
            let j = i - off;
            assert(shifted_from(h1.nodes@[off + j], on[j], off));
            assert(other.live(j) && on[j].parent is None);
            assert(other.roots@.contains(j as usize));
            let w = choose|w: int| 0 <= w < ol && other.roots@[w] == j as usize;
            if self_first {
                assert(h1.roots@[hl + w] as int == i);
                assert(h1.roots@[hl + w] == i as usize);
            } else {
                assert(h1.roots@[w] as int == i);
                assert(h1.roots@[w] == i as usize);
            }
        }
    }
    assert(h1.min_ok()) by {
        if h1.roots@.len() > 0 {
            assert forall|i: int| #[trigger] h1.live(i) implies h1.nodes@[h1.roots@[0] as int].key
                <= h1.nodes@[i].key by {
                if hl == 0 {
                    assert(self_first);
                    if i < off {
                        assert(h0.live(i));
                        h0.lemma_no_roots_no_live();
                        lemma_live_at(h0.nodes@, i);
                    } else {
                        assert(ol > 0);
                        assert(other.root_at_ok(0));
                        assert(h1.roots@[hl + 0] as int == other.roots@[0] as int + off);
                        assert(shifted_from(
                            h1.nodes@[off + other.roots@[0] as int],
                            on[other.roots@[0] as int],
                            off,
                        ));
                        assert(h1.nodes@[h1.roots@[0] as int].key
                            == on[other.roots@[0] as int].key);
                        assert(shifted_from(h1.nodes@[off + (i - off)], on[i - off], off));
                        assert(other.live(i - off));
                        assert(on[other.roots@[0] as int].key <= on[i - off].key);
                        assert(h1.nodes@[i].key == on[i - off].key);
                    }
                } else if ol == 0 {
                    assert(self_first);
                    assert(h1.roots@[0] == h0.roots@[0]);
                    assert(h0.root_at_ok(0));
                    if i < off {
                        assert(h0.live(i));
                        assert(h0.nodes@[h0.roots@[0] as int].key <= h0.nodes@[i].key);
                    } else {
                        assert(shifted_from(h1.nodes@[off + (i - off)], on[i - off], off));
                        assert(other.live(i - off));
                        other.lemma_no_roots_no_live();
                        lemma_live_at(other.nodes@, i - off);
                    }
                } else {
                    assert(h0.root_at_ok(0));
                    assert(other.root_at_ok(0));
                    let km0 = h0.nodes@[h0.roots@[0] as int].key;
                    let kmo = on[other.roots@[0] as int].key;
                    assert(h1.nodes@[h0.roots@[0] as int].key == km0);
                    assert(shifted_from(
                        h1.nodes@[off + other.roots@[0] as int],
                        on[other.roots@[0] as int],
                        off,
                    ));
                    assert(h1.nodes@[off + other.roots@[0] as int].key == kmo);
                    if self_first {
                        assert(h1.roots@[0] == h0.roots@[0]);
                    } else {
                        assert(h1.roots@[0] as int == other.roots@[0] as int + off);
                    }
                    let kf = h1.nodes@[h1.roots@[0] as int].key;
                    assert(kf == if self_first {
                        km0
                    } else {
                        kmo
                    });
                    if i < off {
                        assert(h0.live(i));
                        assert(km0 <= h0.nodes@[i].key);
                        assert(h1.nodes@[i].key == h0.nodes@[i].key);
                    } else {
                        assert(shifted_from(h1.nodes@[off + (i - off)], on[i - off], off));
                        assert(other.live(i - off));
                        assert(kmo <= on[i - off].key);
                        assert(h1.nodes@[i].key == on[i - off].key);
                    }
                }
            }
        }
    }
}

/// Whether the rank-indexed slot array holds node `i` somewhere.
spec fn in_slots(slots: Seq<Option<usize>>, i: usize) -> bool {
    exists|s: int| 0 <= s < slots.len() && slots[s] == Some(i)
}

/// How many slots of the rank-indexed array are occupied.
spec fn occ_count(slots: Seq<Option<usize>>) -> nat
    decreases slots.len(),
{
    if slots.len() == 0 {
        0
    } else {
        occ_count(slots.drop_last()) + (if slots.last() is Some {
            1nat
        } else {
            0nat
        })
    }
}

proof fn lemma_occ_update_to_none(slots: Seq<Option<usize>>, r: int)
    requires
        0 <= r < slots.len(),
        slots[r] is Some,
    ensures
        occ_count(slots.update(r, None)) + 1 == occ_count(slots),
    decreases slots.len(),
{
    if r == slots.len() - 1 {
        assert(slots.update(r, None).drop_last() =~= slots.drop_last());
    } else {
        lemma_occ_update_to_none(slots.drop_last(), r);
        assert(slots.update(r, None).drop_last() =~= slots.drop_last().update(r, None));
        assert(slots.update(r, None).last() == slots.last());
    }
}

/// Extending a slot array with empty slots does not change its occupancy.
proof fn lemma_occ_grown(a: Seq<Option<usize>>, b: Seq<Option<usize>>)
    requires
        b.len() >= a.len(),
        forall|s: int|
            0 <= s < b.len() ==> #[trigger] b[s] == (if s < a.len() {
                a[s]
            } else {
                None::<usize>
            }),
    ensures
        occ_count(b) == occ_count(a),
    decreases b.len(),
{
    if b.len() > a.len() {
        lemma_occ_grown(a, b.drop_last());
    } else if b.len() > 0 {
        lemma_occ_grown(a.drop_last(), b.drop_last());
        assert(b.last() == a.last());
    }
}

/// Whether `b` is `a` with the front element and the element at one
/// position exchanged.
spec fn root_swap(a: Seq<usize>, b: Seq<usize>) -> bool {
    exists|w: int| 0 <= w < a.len() && b == a.update(0, #[trigger] a[w]).update(w, a[0])
}

/// Two heap states with the same entries slot for slot: only the shape of
/// the forest may differ.
spec fn self_entries_match<V>(a: FibHeap<V>, b: FibHeap<V>) -> bool {
    &&& a.nodes@.len() == b.nodes@.len()
    &&& b.total == a.total
    &&& forall|i: int|
        0 <= i < a.nodes@.len() ==> (#[trigger] b.nodes@[i]).alive == a.nodes@[i].alive
            && b.nodes@[i].key == a.nodes@[i].key && b.nodes@[i].value == a.nodes@[i].value
}

/// Detaching one child preserves the heap invariant: the full accounting for
/// the arena and chain updates done by `detach_child`.
proof fn lemma_after_detach<V>(h0: FibHeap<V>, h1: FibHeap<V>, p: usize, j: usize, c: usize)
    requires
        h0.inv_core(),
        h0.roots_ok(),
        h0.live(p as int),
        j < h0.nodes@[p as int].children@.len(),
        c == h0.nodes@[p as int].children@[j as int],
        self_entries_match(h0, h1),
        h1.nodes@[p as int].children@ == h0.nodes@[p as int].children@.remove(j as int),
        forall|i: int|
            0 <= i < h1.nodes@.len() && i != p ==> (#[trigger] h1.nodes@[i]).children
                == h0.nodes@[i].children,
        h1.nodes@[c as int].parent is None,
        !h1.nodes@[c as int].marked,
        forall|i: int|
            0 <= i < h1.nodes@.len() && i != c ==> (#[trigger] h1.nodes@[i]).parent
                == h0.nodes@[i].parent && h1.nodes@[i].marked == h0.nodes@[i].marked,
        h1.roots@ == h0.roots@.push(c),
        h1.chains@ == Seq::new(
            h0.chains@.len(),
            |m: int|
                if m == c as int || h0.chains@[m].contains(c as int) {
                    h0.chains@[m].skip(h0.chains@[c as int].len() as int)
                } else {
                    h0.chains@[m]
                },
        ),
    ensures
        h1.inv_core(),
        h1.roots_ok(),
        arena_view(h1.nodes@) == arena_view(h0.nodes@),
        count_live(h1.nodes@) == count_live(h0.nodes@),
        h1.chains@[p as int] == h0.chains@[p as int],
{
    let k = h0.chains@[c as int].len() as int;
    let ci = c as int;
    let pi = p as int;
    vstd::std_specs::vec::axiom_spec_len(&h0.nodes);
    vstd::std_specs::vec::axiom_spec_len(&h1.nodes);
    assert(h0.node_ok(pi));
    assert(h0.live(ci));
    assert(h0.node_ok(ci));
    assert(h0.nodes@[ci].parent == Some(p));
    assert(h0.chains@[ci] == h0.chains@[pi].push(pi));
    // a node never sits on its own ancestor chain
    assert(!h0.chains@[ci].contains(ci)) by {
        if h0.chains@[ci].contains(ci) {
            h0.lemma_chain_prefix(ci, ci);
        }
    }
    assert(ci != pi);
    // p is not below c
    assert(!h0.chains@[pi].contains(ci)) by {
        if h0.chains@[pi].contains(ci) {
            let w = choose|w: int| 0 <= w < h0.chains@[pi].len() && h0.chains@[pi][w] == ci;
            assert(h0.chains@[ci][w] == ci);
            assert(h0.chains@[ci].contains(ci));
        }
    }
    lemma_view_pointwise(h0.nodes@, h1.nodes@);
    // every live node satisfies node_ok in the new state
    assert forall|i: int| #[trigger] h1.live(i) implies h1.node_ok(i) by {
        assert(h0.live(i));
        assert(h0.node_ok(i));
        let in_sub = i == ci || h0.chains@[i].contains(ci);
        if in_sub && i != ci {
            h0.lemma_chain_prefix(i, ci);
        }
        // chain elements stay live
        assert forall|w: int| 0 <= w < h1.chains@[i].len() implies h1.live(
            #[trigger] h1.chains@[i][w],
        ) by {
            if in_sub {
                assert(h1.chains@[i][w] == h0.chains@[i][w + k]);
                assert(h0.live(h0.chains@[i][w + k]));
            } else {
                assert(h0.live(h0.chains@[i][w]));
            }
        }
        // children stay consistent
        assert forall|w: int| 0 <= w < h1.nodes@[i].children@.len() implies h1.live(
            #[trigger] h1.nodes@[i].children@[w] as int,
        ) && h1.nodes@[h1.nodes@[i].children@[w] as int].parent == Some(i as usize) by {
            if i == pi {
                let d = h1.nodes@[pi].children@[w];
                assert(d == if w < j {
                    h0.nodes@[pi].children@[w]
                } else {
                    h0.nodes@[pi].children@[w + 1]
                });
                assert(h0.nodes@[pi].children@.contains(d));
                assert(h0.live(d as int) && h0.nodes@[d as int].parent == Some(p));
                assert(d != c) by {
                    if w < j {
                        assert(h0.nodes@[pi].children@[w] != h0.nodes@[pi].children@[j as int]);
                    } else {
                        assert(h0.nodes@[pi].children@[w + 1] != h0.nodes@[pi].children@[j as int]);
                    }
                }
            } else {
                let d = h0.nodes@[i].children@[w];
                assert(h0.live(d as int) && h0.nodes@[d as int].parent == Some(i as usize));
                assert(d != c) by {
                    if d == c {
                        assert(h0.nodes@[ci].parent == Some(i as usize));
                        assert(i == pi);
                    }
                }
            }
        }
        // children stay duplicate-free
        assert forall|w1: int, w2: int|
            0 <= w1 < w2 < h1.nodes@[i].children@.len() implies h1.nodes@[i].children@[w1]
            != h1.nodes@[i].children@[w2] by {
            if i == pi {
                let a1 = if w1 < j {
                    w1
                } else {
                    w1 + 1
                };
                let a2 = if w2 < j {
                    w2
                } else {
                    w2 + 1
                };
                assert(h1.nodes@[i].children@[w1] == h0.nodes@[pi].children@[a1]);
                assert(h1.nodes@[i].children@[w2] == h0.nodes@[pi].children@[a2]);
            }
        }
        // parent link and chain shape
        if i == ci {
            assert(h1.chains@[ci] == h0.chains@[ci].skip(k));
            assert(h1.chains@[ci].len() == 0);
        } else if h1.nodes@[i].parent is Some {
            let q = h1.nodes@[i].parent->0 as int;
            assert(h0.nodes@[i].parent == h1.nodes@[i].parent);
            assert(h0.live(q));
            assert(h0.nodes@[q].key <= h0.nodes@[i].key);
            assert(h0.chains@[i] == h0.chains@[q].push(q));
            if in_sub {
                // the parent of a strictly-below node is below or equal to c
                assert(q == ci || h0.chains@[q].contains(ci)) by {
                    if q != ci {
                        let w = choose|w: int|
                            0 <= w < h0.chains@[i].len() && h0.chains@[i][w] == ci;
                        assert(w < h0.chains@[i].len() - 1);
                        assert(h0.chains@[q][w] == ci);
                    }
                }
                if q == ci {
                    assert(h1.chains@[i] == h0.chains@[i].skip(k));
                    assert(h0.chains@[i] == h0.chains@[ci].push(ci));
                    assert(h1.chains@[i] =~= h1.chains@[ci].push(ci));
                } else {
                    h0.lemma_chain_prefix(q, ci);
                    assert(h0.chains@[q].len() > k);
                    assert(h1.chains@[i] == h0.chains@[i].skip(k));
                    assert(h1.chains@[q] == h0.chains@[q].skip(k));
                    assert(h1.chains@[i] =~= h1.chains@[q].push(q));
                }
                // the parent's child list still holds i
                assert(h1.nodes@[q].children@.contains(i as usize)) by {
                    assert(q != pi) by {
                        if q == pi {
                            assert(h0.chains@[i] == h0.chains@[pi].push(pi));
                            assert(h0.chains@[i].contains(ci));
                            let w = choose|w: int|
                                0 <= w < h0.chains@[i].len() && h0.chains@[i][w] == ci;
                            assert(w < h0.chains@[i].len() - 1 || h0.chains@[i][w] == pi);
                            if w == h0.chains@[i].len() - 1 {
                                assert(ci == pi);
                            } else {
                                assert(h0.chains@[pi][w] == ci);
                            }
                        }
                    }
                    assert(h0.nodes@[q].children@.contains(i as usize));
                }
            } else {
                assert(!h0.chains@[q].contains(ci)) by {
                    if h0.chains@[q].contains(ci) {
                        let w = choose|w: int|
                            0 <= w < h0.chains@[q].len() && h0.chains@[q][w] == ci;
                        assert(h0.chains@[i][w] == ci);
                        assert(h0.chains@[i].contains(ci));
                    }
                }
                assert(q != ci) by {
                    if q == ci {
                        assert(h0.chains@[i] == h0.chains@[ci].push(ci));
                        assert(h0.chains@[i][h0.chains@[i].len() - 1] == ci);
                        assert(h0.chains@[i].contains(ci));
                    }
                }
                assert(h1.chains@[i] == h0.chains@[i]);
                assert(h1.chains@[q] == h0.chains@[q]);
                // the parent's child list still holds i
                if q == pi {
                    assert(i != ci);
                    let w = choose|w: int|
                        0 <= w < h0.nodes@[pi].children@.len() && h0.nodes@[pi].children@[w]
                            == i as usize;
                    assert(w != j) by {
                        if w == j {
                            assert(i == ci);
                        }
                    }
                    if w < j {
                        assert(h1.nodes@[pi].children@[w] == i as usize);
                    } else {
                        assert(h1.nodes@[pi].children@[w - 1] == i as usize);
                    }
                } else {
                    assert(h1.nodes@[q].children@.contains(i as usize));
                }
            }
        } else {
            // a root outside the cut subtree keeps its empty chain
            assert(h0.nodes@[i].parent is None);
            assert(h0.chains@[i].len() == 0);
            assert(!h0.chains@[i].contains(ci));
            assert(h1.chains@[i] == h0.chains@[i]);
        }
    }
    // the root list stays a duplicate-free list of live unmarked parentless
    // nodes, and now also holds c
    assert forall|w: int| 0 <= w < h0.roots@.len() implies h0.roots@[w] != c by {
        assert(h0.root_at_ok(w));
        if h0.roots@[w] == c {
            assert(h0.nodes@[ci].parent is None);
        }
    }
    assert forall|w: int| 0 <= w < h1.roots@.len() implies #[trigger] h1.root_at_ok(w) by {
        if w < h0.roots@.len() {
            assert(h0.root_at_ok(w));
            assert(h1.roots@[w] == h0.roots@[w]);
            assert(h0.roots@[w] != c);
        } else {
            assert(h1.roots@[w] == c);
        }
    }
    assert forall|w1: int, w2: int| 0 <= w1 < w2 < h1.roots@.len() implies h1.roots@[w1]
        != h1.roots@[w2] by {
        if w2 < h0.roots@.len() {
            assert(h1.roots@[w1] == h0.roots@[w1] && h1.roots@[w2] == h0.roots@[w2]);
        } else {
            assert(h1.roots@[w1] == h0.roots@[w1] && h1.roots@[w2] == c);
        }
    }
    assert forall|i: int| #[trigger] h1.live(i) && h1.nodes@[i].parent is None implies h1.roots@
        .contains(i as usize) by {
        if i == ci {
            assert(h1.roots@[h1.roots@.len() - 1] == c);
        } else {
            assert(h0.live(i) && h0.nodes@[i].parent is None);
            assert(h0.roots@.contains(i as usize));
            let w = choose|w: int| 0 <= w < h0.roots@.len() && h0.roots@[w] == i as usize;
            assert(h1.roots@[w] == i as usize);
        }
    }
}

/// Linking one root under another preserves the heap invariant: the full
/// accounting for the arena and chain updates done by `link_under`.
proof fn lemma_after_link<V>(h0: FibHeap<V>, h1: FibHeap<V>, w: usize, c: usize)
    requires
        h0.inv_core(),
        h0.live(w as int),
        h0.live(c as int),
        c != w,
        h0.nodes@[w as int].parent is None,
        h0.nodes@[c as int].parent is None,
        h0.nodes@[w as int].key <= h0.nodes@[c as int].key,
        self_entries_match(h0, h1),
        h1.nodes@[w as int].children@ == h0.nodes@[w as int].children@.insert(0, c),
        forall|i: int|
            0 <= i < h1.nodes@.len() && i != w ==> (#[trigger] h1.nodes@[i]).children
                == h0.nodes@[i].children,
        h1.nodes@[c as int].parent == Some(w),
        !h1.nodes@[c as int].marked,
        forall|i: int|
            0 <= i < h1.nodes@.len() && i != c ==> (#[trigger] h1.nodes@[i]).parent
                == h0.nodes@[i].parent && h1.nodes@[i].marked == h0.nodes@[i].marked,
        h1.chains@ == Seq::new(
            h0.chains@.len(),
            |m: int|
                if m == c as int || h0.chains@[m].contains(c as int) {
                    seq![w as int] + h0.chains@[m]
                } else {
                    h0.chains@[m]
                },
        ),
    ensures
        h1.inv_core(),
        arena_view(h1.nodes@) == arena_view(h0.nodes@),
        count_live(h1.nodes@) == count_live(h0.nodes@),
{
    let ci = c as int;
    let wi = w as int;
    vstd::std_specs::vec::axiom_spec_len(&h0.nodes);
    vstd::std_specs::vec::axiom_spec_len(&h1.nodes);
    assert(h0.node_ok(ci));
    assert(h0.node_ok(wi));
    assert(h0.chains@[ci].len() == 0);
    assert(h0.chains@[wi].len() == 0);
    lemma_view_pointwise(h0.nodes@, h1.nodes@);
    assert forall|i: int| #[trigger] h1.live(i) implies h1.node_ok(i) by {
        assert(h0.live(i));
        assert(h0.node_ok(i));
        let in_sub = i == ci || h0.chains@[i].contains(ci);
        assert forall|v: int| 0 <= v < h1.chains@[i].len() implies h1.live(
            #[trigger] h1.chains@[i][v],
        ) by {
            if in_sub {
                if v == 0 {
                    assert(h1.chains@[i][0] == wi);
                } else {
                    assert(h1.chains@[i][v] == h0.chains@[i][v - 1]);
                    assert(h0.live(h0.chains@[i][v - 1]));
                }
            } else {
                assert(h0.live(h0.chains@[i][v]));
            }
        }
        assert forall|v: int| 0 <= v < h1.nodes@[i].children@.len() implies h1.live(
            #[trigger] h1.nodes@[i].children@[v] as int,
        ) && h1.nodes@[h1.nodes@[i].children@[v] as int].parent == Some(i as usize) by {
            if i == wi {
                if v == 0 {
                    assert(h1.nodes@[wi].children@[0] == c);
                } else {
                    let d = h0.nodes@[wi].children@[v - 1];
                    assert(h1.nodes@[wi].children@[v] == d);
                    assert(h0.live(d as int) && h0.nodes@[d as int].parent == Some(w));
                    assert(d != c);
                }
            } else {
                let d = h0.nodes@[i].children@[v];
                assert(h0.live(d as int) && h0.nodes@[d as int].parent == Some(i as usize));
                assert(d != c) by {
                    if d == c {
                        assert(h0.nodes@[ci].parent == Some(i as usize));
                    }
                }
            }
        }
        assert forall|v1: int, v2: int|
            0 <= v1 < v2 < h1.nodes@[i].children@.len() implies h1.nodes@[i].children@[v1]
            != h1.nodes@[i].children@[v2] by {
            if i == wi {
                if v1 == 0 {
                    let d = h0.nodes@[wi].children@[v2 - 1];
                    assert(h1.nodes@[wi].children@[v2] == d);
                    assert(h0.live(d as int) && h0.nodes@[d as int].parent == Some(w));
                    assert(d != c);
                    assert(h1.nodes@[wi].children@[v1] == c);
                } else {
                    assert(h1.nodes@[wi].children@[v1] == h0.nodes@[wi].children@[v1 - 1]);
                    assert(h1.nodes@[wi].children@[v2] == h0.nodes@[wi].children@[v2 - 1]);
                }
            }
        }
        if i == ci {
            assert(h1.nodes@[ci].parent == Some(w));
            assert(h1.live(wi));
            assert(h1.nodes@[wi].key <= h1.nodes@[ci].key);
            assert(h1.nodes@[wi].children@[0] == c);
            assert(h1.nodes@[wi].children@.contains(c));
            assert(!h0.chains@[wi].contains(ci));
            assert(h1.chains@[wi] == h0.chains@[wi]);
            assert(h1.chains@[ci] =~= h1.chains@[wi].push(wi));
        } else if h1.nodes@[i].parent is Some {
            let q = h1.nodes@[i].parent->0 as int;
            assert(h1.nodes@[i].parent == h0.nodes@[i].parent);
            assert(h0.live(q));
            assert(h0.nodes@[q].key <= h0.nodes@[i].key);
            assert(h0.chains@[i] == h0.chains@[q].push(q));
            if in_sub {
                assert(q == ci || h0.chains@[q].contains(ci)) by {
                    if q != ci {
                        let v = choose|v: int|
                            0 <= v < h0.chains@[i].len() && h0.chains@[i][v] == ci;
                        assert(v < h0.chains@[i].len() - 1);
                        assert(h0.chains@[q][v] == ci);
                    }
                }
                assert(q != wi) by {
                    if q == wi {
                        assert(h0.chains@[i] =~= seq![wi]);
                        assert(h0.chains@[i].contains(ci));
                        assert(ci == wi);
                    }
                }
                assert(h1.chains@[i] == seq![wi] + h0.chains@[i]);
                assert(h1.chains@[q] == seq![wi] + h0.chains@[q]);
                assert(h1.chains@[i] =~= h1.chains@[q].push(q));
                assert(h1.nodes@[q].children@.contains(i as usize)) by {
                    assert(h0.nodes@[q].children@.contains(i as usize));
                }
            } else {
                assert(q != ci) by {
                    if q == ci {
                        assert(h0.chains@[i][h0.chains@[i].len() - 1] == ci);
                        assert(h0.chains@[i].contains(ci));
                    }
                }
                assert(!h0.chains@[q].contains(ci)) by {
                    if h0.chains@[q].contains(ci) {
                        let v = choose|v: int|
                            0 <= v < h0.chains@[q].len() && h0.chains@[q][v] == ci;
                        assert(h0.chains@[i][v] == ci);
                        assert(h0.chains@[i].contains(ci));
                    }
                }
                assert(h1.chains@[i] == h0.chains@[i]);
                assert(h1.chains@[q] == h0.chains@[q]);
                if q == wi {
                    assert(h0.nodes@[wi].children@.contains(i as usize));
                    let v = choose|v: int|
                        0 <= v < h0.nodes@[wi].children@.len() && h0.nodes@[wi].children@[v]
                            == i as usize;
                    assert(h1.nodes@[wi].children@[v + 1] == i as usize);
                    assert(h1.nodes@[wi].children@.contains(i as usize));
                } else {
                    assert(h1.nodes@[q].children@.contains(i as usize));
                }
            }
        } else {
            assert(h0.nodes@[i].parent is None);
            assert(h0.chains@[i].len() == 0);
            assert(!h0.chains@[i].contains(ci));
            assert(h1.chains@[i] == h0.chains@[i]);
        }
    }
}

/// Lowering one node's key preserves the heap invariant as long as the new
/// key still respects the node's parent, and exchanges the node's old pair
/// for its new one in the heap's contents.
proof fn lemma_key_change<V>(h0: FibHeap<V>, h1: FibHeap<V>, i: usize, nk: u64)
    requires
        h0.inv_core(),
        h0.roots_ok(),
        h0.live(i as int),
        nk <= h0.nodes@[i as int].key,
        h0.nodes@[i as int].parent is Some ==> nk >= h0.nodes@[h0.nodes@[i as int].parent->0 as int].key,
        h1.nodes@.len() == h0.nodes@.len(),
        forall|w: int| 0 <= w < h1.nodes@.len() && w != i ==> h1.nodes@[w] == h0.nodes@[w],
        h1.nodes@[i as int].key == nk,
        h1.nodes@[i as int].value == h0.nodes@[i as int].value,
        h1.nodes@[i as int].alive,
        h1.nodes@[i as int].parent == h0.nodes@[i as int].parent,
        h1.nodes@[i as int].children == h0.nodes@[i as int].children,
        h1.nodes@[i as int].marked == h0.nodes@[i as int].marked,
        h1.roots@ == h0.roots@,
        h1.chains@ == h0.chains@,
        h1.total == h0.total,
    ensures
        h1.inv_core(),
        h1.roots_ok(),
        arena_view(h1.nodes@) == arena_view(h0.nodes@).remove(
            (h0.nodes@[i as int].key, h0.nodes@[i as int].value),
        ).insert((nk, h0.nodes@[i as int].value)),
        count_live(h1.nodes@) == count_live(h0.nodes@),
{
    let ii = i as int;
    vstd::std_specs::vec::axiom_spec_len(&h0.nodes);
    assert(h1.nodes@ =~= h0.nodes@.update(ii, h1.nodes@[ii]));
    lemma_view_update(h0.nodes@, ii, h1.nodes@[ii]);
    assert forall|w: int| #[trigger] h1.live(w) implies h1.node_ok(w) by {
        assert(h0.live(w));
        assert(h0.node_ok(w));
        if w != ii && h0.nodes@[w].parent is Some && h0.nodes@[w].parent->0 == i {
            assert(h0.nodes@[ii].key <= h0.nodes@[w].key);
        }
    }
    assert forall|j: int| 0 <= j < h1.roots@.len() implies #[trigger] h1.root_at_ok(j) by {
        assert(h0.root_at_ok(j));
    }
    assert forall|w: int| #[trigger] h1.live(w) && h1.nodes@[w].parent is None implies h1.roots@
        .contains(w as usize) by {
        assert(h0.live(w) && h0.nodes@[w].parent is None);
    }
}

/// Setting a non-root node's mark bit touches nothing the invariant
/// depends on apart from the unmarked status of roots, which only concerns
/// parentless nodes.
proof fn lemma_mark_change<V>(h0: FibHeap<V>, h1: FibHeap<V>, i: usize)
    requires
        h0.inv_core(),
        h0.roots_ok(),
        h0.live(i as int),
        h0.nodes@[i as int].parent is Some,
        h1.nodes@.len() == h0.nodes@.len(),
        forall|w: int| 0 <= w < h1.nodes@.len() && w != i ==> h1.nodes@[w] == h0.nodes@[w],
        h1.nodes@[i as int].key == h0.nodes@[i as int].key,
        h1.nodes@[i as int].value == h0.nodes@[i as int].value,
        h1.nodes@[i as int].alive,
        h1.nodes@[i as int].parent == h0.nodes@[i as int].parent,
        h1.nodes@[i as int].children == h0.nodes@[i as int].children,
        h1.roots@ == h0.roots@,
        h1.chains@ == h0.chains@,
        h1.total == h0.total,
    ensures
        h1.inv_core(),
        h1.roots_ok(),
        arena_view(h1.nodes@) == arena_view(h0.nodes@),
        count_live(h1.nodes@) == count_live(h0.nodes@),
{
    let ii = i as int;
    vstd::std_specs::vec::axiom_spec_len(&h0.nodes);
    lemma_view_pointwise(h0.nodes@, h1.nodes@);
    assert forall|w: int| #[trigger] h1.live(w) implies h1.node_ok(w) by {
        assert(h0.live(w));
        assert(h0.node_ok(w));
    }
    assert forall|j: int| 0 <= j < h1.roots@.len() implies #[trigger] h1.root_at_ok(j) by {
        assert(h0.root_at_ok(j));
        if h0.roots@[j] == i {
            assert(h0.nodes@[i as int].parent is None);
        }
    }
    assert forall|w: int| #[trigger] h1.live(w) && h1.nodes@[w].parent is None implies h1.roots@
        .contains(w as usize) by {
        assert(h0.live(w) && h0.nodes@[w].parent is None);
    }
}

/// The core invariant does not mention the root list: two states with the
/// same arena, chains and count share it.
proof fn lemma_core_same<V>(a: FibHeap<V>, b: FibHeap<V>)
    requires
        a.inv_core(),
        b.nodes@ == a.nodes@,
        b.chains@ == a.chains@,
        b.total == a.total,
    ensures
        b.inv_core(),
{
    assert forall|i: int| #[trigger] b.live(i) implies b.node_ok(i) by {
        assert(a.live(i));
        assert(a.node_ok(i));
    }
}

/// Retiring a childless root preserves the heap invariant: the accounting
/// for removing the front root from the root list and marking its slot dead.
proof fn lemma_after_kill<V>(h1: FibHeap<V>, h2: FibHeap<V>, m: usize, w: int)
    requires
        h1.inv_core(),
        h1.roots_ok(),
        h1.live(m as int),
        h1.nodes@[m as int].parent is None,
        h1.nodes@[m as int].children@.len() == 0,
        0 <= w < h1.roots@.len(),
        h1.roots@[w] == m,
        h2.nodes@.len() == h1.nodes@.len(),
        forall|i: int| 0 <= i < h2.nodes@.len() && i != m ==> h2.nodes@[i] == h1.nodes@[i],
        !h2.nodes@[m as int].alive,
        h2.nodes@[m as int].parent is None,
        h2.nodes@[m as int].children@.len() == 0,
        h2.nodes@[m as int].key == h1.nodes@[m as int].key,
        h2.nodes@[m as int].value == h1.nodes@[m as int].value,
        h2.roots@ == h1.roots@.remove(w),
        h2.chains@ == h1.chains@,
        h2.total + 1 == h1.total,
    ensures
        h2.inv_core(),
        h2.roots_ok(),
        arena_view(h2.nodes@) == arena_view(h1.nodes@).remove(
            (h1.nodes@[m as int].key, h1.nodes@[m as int].value),
        ),
        count_live(h2.nodes@) + 1 == count_live(h1.nodes@),
{
    let mi = m as int;
    vstd::std_specs::vec::axiom_spec_len(&h1.nodes);
    assert(h2.nodes@ =~= h1.nodes@.update(mi, h2.nodes@[mi]));
    lemma_view_update(h1.nodes@, mi, h2.nodes@[mi]);
    assert forall|i: int| #[trigger] h2.live(i) implies h2.node_ok(i) by {
        assert(i != mi);
        assert(h1.live(i));
        assert(h1.node_ok(i));
        h1.lemma_no_chain_through_childless(i, mi);
        assert forall|w: int| 0 <= w < h2.chains@[i].len() implies h2.live(
            #[trigger] h2.chains@[i][w],
        ) by {
            assert(h1.live(h1.chains@[i][w]));
            assert(h1.chains@[i][w] != mi);
        }
        if h1.nodes@[i].parent is Some {
            let q = h1.nodes@[i].parent->0 as int;
            assert(q != mi) by {
                if q == mi {
                    assert(h1.nodes@[mi].children@.contains(i as usize));
                }
            }
            assert(h2.nodes@[q] == h1.nodes@[q]);
        }
        assert forall|w: int| 0 <= w < h2.nodes@[i].children@.len() implies h2.live(
            #[trigger] h2.nodes@[i].children@[w] as int,
        ) && h2.nodes@[h2.nodes@[i].children@[w] as int].parent == Some(i as usize) by {
            let d = h1.nodes@[i].children@[w];
            assert(h1.live(d as int) && h1.nodes@[d as int].parent == Some(i as usize));
            assert(d != m) by {
                if d == m {
                    assert(h1.nodes@[mi].parent == Some(i as usize));
                }
            }
        }
    }
    assert forall|j: int| 0 <= j < h2.roots@.len() implies #[trigger] h2.root_at_ok(j) by {
        let a = if j < w {
            j
        } else {
            j + 1
        };
        assert(h1.root_at_ok(a));
        assert(h2.roots@[j] == h1.roots@[a]);
        assert(h1.roots@[a] != h1.roots@[w]);
    }
    assert forall|j1: int, j2: int| 0 <= j1 < j2 < h2.roots@.len() implies h2.roots@[j1]
        != h2.roots@[j2] by {
        let a1 = if j1 < w {
            j1
        } else {
            j1 + 1
        };
        let a2 = if j2 < w {
            j2
        } else {
            j2 + 1
        };
        assert(h2.roots@[j1] == h1.roots@[a1] && h2.roots@[j2] == h1.roots@[a2]);
    }
    assert forall|i: int| #[trigger] h2.live(i) && h2.nodes@[i].parent is None implies h2.roots@
        .contains(i as usize) by {
        assert(h1.live(i) && h1.nodes@[i].parent is None);
        assert(h1.roots@.contains(i as usize));
        let u = choose|u: int| 0 <= u < h1.roots@.len() && h1.roots@[u] == i as usize;
        assert(u != w);
        if u < w {
            assert(h2.roots@[u] == i as usize);
        } else {
            assert(h2.roots@[u - 1] == i as usize);
        }
    }
}

/// A live slot makes the live count positive.
proof fn lemma_live_at<V>(nodes: Seq<Node<V>>, i: int)
    requires
        0 <= i < nodes.len(),
        nodes[i].alive,
    ensures
        count_live(nodes) >= 1,
{
    lemma_view_member(nodes, i);
    lemma_view_len(nodes);
    vstd::multiset::axiom_count_le_len(arena_view(nodes), (nodes[i].key, nodes[i].value));
}

} // verus!

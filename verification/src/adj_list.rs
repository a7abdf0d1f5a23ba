//! An adjacency-list undirected graph over `u64` vertex labels: each vertex
//! carries the list of endpoint pairs of its incident edges, and a global
//! list records each edge once, in insertion order.

use vstd::prelude::*;

use crate::{prune_edge, prune_touching, Edge, Graph};

verus! {

/// A plain edge value: the two endpoint labels, in creation order.
#[derive(Clone, Copy, PartialEq, Eq, Structural, Debug)]
pub struct PairEdge {
    pub source: u64,
    pub target: u64,
}

impl Edge for PairEdge {
    open spec fn src(&self) -> u64 {
        self.source
    }

    open spec fn dst(&self) -> u64 {
        self.target
    }

    fn new(x: u64, y: u64) -> (e: Self) {
        PairEdge { source: x, target: y }
    }

    fn endpoints(&self) -> (r: (u64, u64)) {
        (self.source, self.target)
    }
}

/// The first position of `x` in `s` (meaningful only when `s` holds `x`
/// exactly once).
spec fn vidx(s: Seq<u64>, x: u64) -> int {
    choose|i: int| 0 <= i < s.len() && s[i] == x
}

spec fn vert_distinct(s: Seq<u64>) -> bool {
    forall|i: int, j: int| 0 <= i < j < s.len() ==> s[i] != s[j]
}

/// An adjacency-list graph: `verts` lists the vertex labels in insertion
/// order, `adj[i]` the endpoint pairs stored at `verts[i]`, and `links`
/// every edge once, in insertion order.
pub struct AdjList<E> {
    verts: Vec<u64>,
    adj: Vec<Vec<(u64, u64)>>,
    links: Vec<(u64, u64)>,
    edge_kind: core::marker::PhantomData<E>,
}

impl<E: Edge> AdjList<E> {
    /// Locates a vertex label in the vertex list.
    fn find_vertex(&self, x: &u64) -> (r: usize)
        requires
            self.inv(),
            self.vertex_seq().contains(*x),
        ensures
            r as int == vidx(self.verts@, *x),
            (r as int) < self.verts@.len(),
            self.verts@[r as int] == *x,
    {
        let ghost g0 = *self;
        let mut i: usize = 0;
        while i < self.verts.len() && self.verts[i] != *x
            invariant
                *self == g0,
                i <= self.verts@.len(),
                forall|w: int| 0 <= w < i ==> self.verts@[w] != *x,
            decreases self.verts@.len() - i,
        {
            i += 1;
        }
        proof {
            if i == self.verts@.len() {
                let w = choose|w: int| 0 <= w < self.verts@.len() && self.verts@[w] == *x;
                assert(self.verts@[w] != *x);
            }
            let c = vidx(self.verts@, *x);
            assert(0 <= c < self.verts@.len() && self.verts@[c] == *x);
            if c != i as int {
                assert(vert_distinct(self.verts@));
                if c < i as int {
                    assert(self.verts@[c] != *x);
                } else {
                    assert(self.verts@[i as int] != self.verts@[c]);
                }
            }
        }
        i
    }

    /// Removes from `x`'s incidence list every stored edge that touches the
    /// vertex `y`. The vertex list and the global edge list are untouched.
    pub fn remove_edge_from_hash(&mut self, x: &u64, y: &u64)
        requires
            old(self).inv(),
            old(self).vertex_seq().contains(*x),
        ensures
            final(self).inv(),
            final(self).vertex_seq() == old(self).vertex_seq(),
            final(self).edge_pairs() == old(self).edge_pairs(),
            final(self).adj_pairs(*x) == prune_touching(old(self).adj_pairs(*x), *y),
            forall|w: u64| w != *x ==> final(self).adj_pairs(w) == old(self).adj_pairs(w),
    {
        let ghost g0 = *self;
        let ix = self.find_vertex(x);
        let ghost src = self.adj@[ix as int]@;
        let mut out: Vec<(u64, u64)> = Vec::new();
        let mut j: usize = 0;
        while j < self.adj[ix].len()
            invariant
                *self == g0,
                (ix as int) < self.adj@.len(),
                src == self.adj@[ix as int]@,
                j <= src.len(),
                out@ == prune_touching(src.take(j as int), *y),
            decreases src.len() - j,
        {
            let p = self.adj[ix][j];
            proof {
                assert(src.take(j as int + 1).drop_last() =~= src.take(j as int));
                assert(src.take(j as int + 1).last() == p);
            }
            if !(p.0 == *y || p.1 == *y) {
                out.push(p);
            }
            j += 1;
        }
        proof {
            assert(src.take(src.len() as int) =~= src);
        }
        self.adj[ix] = out;
        proof {
            self.lemma_adj_update(g0, ix as int, *x);
        }
    }

    /// After replacing the incidence list at one vertex position, every
    /// other vertex keeps its stored pairs.
    proof fn lemma_adj_update(&self, g0: AdjList<E>, ix: int, x: u64)
        requires
            g0.inv(),
            self.verts@ == g0.verts@,
            self.links@ == g0.links@,
            self.adj@.len() == g0.adj@.len(),
            0 <= ix < g0.adj@.len(),
            g0.verts@[ix] == x,
            ix == vidx(g0.verts@, x),
            forall|w: int| 0 <= w < self.adj@.len() && w != ix ==> self.adj@[w] == g0.adj@[w],
        ensures
            self.inv(),
            self.vertex_seq() == g0.vertex_seq(),
            self.edge_pairs() == g0.edge_pairs(),
            self.adj_pairs(x) == self.adj@[ix]@,
            forall|w: u64| w != x ==> self.adj_pairs(w) == g0.adj_pairs(w),
    {
        assert forall|w: u64| w != x implies self.adj_pairs(w) == g0.adj_pairs(w) by {
            if self.verts@.contains(w) {
                let c = vidx(self.verts@, w);
                assert(0 <= c < self.verts@.len() && self.verts@[c] == w);
                assert(c != ix);
                assert(self.adj@[c] == g0.adj@[c]);
            }
        }
        assert(self.verts@.contains(x)) by {
            assert(self.verts@[ix] == x);
        }
        assert(vidx(self.verts@, x) == ix) by {
            let c = vidx(self.verts@, x);
            assert(0 <= c < self.verts@.len() && self.verts@[c] == x);
            if c != ix {
                assert(vert_distinct(self.verts@));
            }
        }
    }
}

impl<E: Edge> Graph<E> for AdjList<E> {
    closed spec fn vertex_seq(&self) -> Seq<u64> {
        self.verts@
    }

    closed spec fn adj_pairs(&self, x: u64) -> Seq<(u64, u64)> {
        if self.verts@.contains(x) {
            self.adj@[vidx(self.verts@, x)]@
        } else {
            Seq::empty()
        }
    }

    closed spec fn edge_pairs(&self) -> Seq<(u64, u64)> {
        self.links@
    }

    closed spec fn inv(&self) -> bool {
        self.adj@.len() == self.verts@.len() && vert_distinct(self.verts@)
    }

    fn new() -> (g: Self) {
        let g = AdjList {
            verts: Vec::new(),
            adj: Vec::new(),
            links: Vec::new(),
            edge_kind: core::marker::PhantomData,
        };
        proof {
            assert(g.vertex_seq() =~= Seq::<u64>::empty());
            assert(g.edge_pairs() =~= Seq::<(u64, u64)>::empty());
            assert forall|v: u64| g.adj_pairs(v) =~= Seq::<(u64, u64)>::empty() by {
                if g.verts@.contains(v) {
                    let c = choose|i: int| 0 <= i < g.verts@.len() && g.verts@[i] == v;
                }
            }
        }
        g
    }

    fn add_node(&mut self, x: u64) {
        let ghost g0 = *self;
        let mut i: usize = 0;
        while i < self.verts.len() && self.verts[i] != x
            invariant
                *self == g0,
                i <= self.verts@.len(),
                forall|w: int| 0 <= w < i ==> self.verts@[w] != x,
            decreases self.verts@.len() - i,
        {
            i += 1;
        }
        if i < self.verts.len() {
            self.adj[i] = Vec::new();
            proof {
                assert(g0.verts@.contains(x)) by {
                    assert(g0.verts@[i as int] == x);
                }
                assert(vidx(g0.verts@, x) == i as int) by {
                    let c = vidx(g0.verts@, x);
                    assert(0 <= c < g0.verts@.len() && g0.verts@[c] == x);
                    if c != i as int {
                        assert(vert_distinct(g0.verts@));
                        if c < i as int {
                            assert(g0.verts@[c] != x);
                        }
                    }
                }
                self.lemma_adj_update(g0, i as int, x);
                assert(self.adj_pairs(x) =~= Seq::<(u64, u64)>::empty());
            }
        } else {
            proof {
                if g0.verts@.contains(x) {
                    let w = choose|w: int| 0 <= w < g0.verts@.len() && g0.verts@[w] == x;
                    assert(g0.verts@[w] != x);
                }
            }
            self.verts.push(x);
            self.adj.push(Vec::new());
            proof {
                let n = g0.verts@.len() as int;
                assert(self.verts@ == g0.verts@.push(x));
                assert(vert_distinct(self.verts@)) by {
                    assert forall|a: int, b: int|
                        0 <= a < b < self.verts@.len() implies self.verts@[a] != self.verts@[b] by {
                        if b == n {
                            assert(self.verts@[a] == g0.verts@[a]);
                            assert(!g0.verts@.contains(x) ==> g0.verts@[a] != x);
                        } else {
                            assert(self.verts@[a] == g0.verts@[a] && self.verts@[b] == g0.verts@[b]);
                        }
                    }
                }
                assert(self.verts@.contains(x)) by {
                    assert(self.verts@[n] == x);
                }
                assert(vidx(self.verts@, x) == n) by {
                    let c = vidx(self.verts@, x);
                    assert(0 <= c < self.verts@.len() && self.verts@[c] == x);
                    if c < n {
                        assert(g0.verts@[c] == x);
                        assert(g0.verts@.contains(x));
                    }
                }
                assert(self.adj_pairs(x) =~= Seq::<(u64, u64)>::empty());
                assert forall|v: u64| v != x implies self.adj_pairs(v) == g0.adj_pairs(v) by {
                    if g0.verts@.contains(v) {
                        let c = choose|w: int| 0 <= w < g0.verts@.len() && g0.verts@[w] == v;
                        assert(self.verts@[c] == v);
                        assert(self.verts@.contains(v));
                        let c1 = vidx(self.verts@, v);
                        let c0 = vidx(g0.verts@, v);
                        assert(0 <= c0 < g0.verts@.len() && g0.verts@[c0] == v);
                        assert(self.verts@[c0] == v);
                        assert(0 <= c1 < self.verts@.len() && self.verts@[c1] == v);
                        assert(c1 == c0) by {
                            if c1 != c0 {
                                assert(vert_distinct(self.verts@));
                            }
                        }
                        assert(self.adj@[c0] == g0.adj@[c0]);
                    } else {
                        if self.verts@.contains(v) {
                            let c = choose|w: int|
                                0 <= w < self.verts@.len() && self.verts@[w] == v;
                            assert(self.verts@[c] == v);
                            if c < n {
                                assert(g0.verts@[c] == v);
                                assert(g0.verts@.contains(v));
                            }
                        }
                    }
                }
            }
        }
    }

    fn add_edge(&mut self, u: &u64, v: &u64) {
        let ghost g0 = *self;
        let iu = self.find_vertex(u);
        let ghost su = self.adj@[iu as int]@;
        self.adj[iu].push((*u, *v));
        let ghost g1 = *self;
        proof {
            g1.lemma_adj_update(g0, iu as int, *u);
        }
        let iv = self.find_vertex(v);
        self.adj[iv].push((*u, *v));
        let ghost g2 = *self;
        proof {
            g2.lemma_adj_update(g1, iv as int, *v);
        }
        self.links.push((*u, *v));
        proof {
            assert forall|w: u64| self.adj_pairs(w) == g2.adj_pairs(w) by {
                if self.verts@.contains(w) {
                }
            }
            if *u != *v {
                assert(iu != iv) by {
                    assert(g0.verts@[iu as int] == *u && g0.verts@[iv as int] == *v);
                }
                assert(g1.adj_pairs(*u) == g0.adj_pairs(*u).push((*u, *v)));
                assert(g2.adj_pairs(*u) == g1.adj_pairs(*u));
                assert(self.adj_pairs(*u) == g2.adj_pairs(*u));
                assert(g2.adj_pairs(*v) == g1.adj_pairs(*v).push((*u, *v)));
                assert(g1.adj_pairs(*v) == g0.adj_pairs(*v));
            } else {
                assert(iu == iv);
                assert(g1.adj_pairs(*u) == g0.adj_pairs(*u).push((*u, *v)));
                assert(g2.adj_pairs(*u) == g1.adj_pairs(*u).push((*u, *v)));
            }
        }
    }

    fn remove_edge(&mut self, x: &u64, y: &u64) {
        let ghost g0 = *self;
        self.remove_edge_from_hash(x, y);
        let ghost g1 = *self;
        self.remove_edge_from_hash(y, x);
        let ghost g2 = *self;
        let ghost src = self.links@;
        let mut out: Vec<(u64, u64)> = Vec::new();
        let mut j: usize = 0;
        while j < self.links.len()
            invariant
                *self == g2,
                src == self.links@,
                j <= src.len(),
                out@ == prune_edge(src.take(j as int), *x, *y),
            decreases src.len() - j,
        {
            let p = self.links[j];
            proof {
                assert(src.take(j as int + 1).drop_last() =~= src.take(j as int));
                assert(src.take(j as int + 1).last() == p);
            }
            if !((p.0 == *x && p.1 == *y) || (p.0 == *y && p.1 == *x)) {
                out.push(p);
            }
            j += 1;
        }
        proof {
            assert(src.take(src.len() as int) =~= src);
        }
        self.links = out;
        proof {
            assert(self.inv());
            assert forall|w: u64| self.adj_pairs(w) == g2.adj_pairs(w) by {
                if self.verts@.contains(w) {
                }
            }
            if *x == *y {
                lemma_prune_touching_idem(g0.adj_pairs(*x), *x);
            }
        }
    }

    fn adjacent(&self, x: &u64, y: &u64) -> (r: bool) {
        let ix = self.find_vertex(x);
        let ghost src = self.adj@[ix as int]@;
        let mut res = false;
        let mut j: usize = 0;
        while j < self.adj[ix].len()
            invariant
                (ix as int) < self.adj@.len(),
                src == self.adj@[ix as int]@,
                j <= src.len(),
                res == exists|w: int| 0 <= w < j && ((#[trigger] src[w]).0 == *y || src[w].1 == *y),
            decreases src.len() - j,
        {
            let p = self.adj[ix][j];
            if p.0 == *y || p.1 == *y {
                res = true;
                proof {
                    assert(src[j as int].0 == *y || src[j as int].1 == *y);
                }
            } else {
                proof {
                    assert forall|w: int|
                        0 <= w < j + 1 && ((#[trigger] src[w]).0 == *y || src[w].1 == *y)
                        implies exists|w2: int|
                        0 <= w2 < j && ((#[trigger] src[w2]).0 == *y || src[w2].1 == *y) by {
                        assert(w != j as int);
                    }
                }
            }
            j += 1;
        }
        proof {
            assert(self.adj_pairs(*x) == src);
        }
        res
    }

    fn neighbors(&self, x: &u64) -> (r: Vec<u64>) {
        let ix = self.find_vertex(x);
        let ghost src = self.adj@[ix as int]@;
        let mut out: Vec<u64> = Vec::new();
        let mut j: usize = 0;
        while j < self.adj[ix].len()
            invariant
                (ix as int) < self.adj@.len(),
                src == self.adj@[ix as int]@,
                j <= src.len(),
                out@.len() == j as int,
                forall|w: int|
                    0 <= w < j ==> out@[w] == (if (#[trigger] src[w]).0 == *x {
                        src[w].1
                    } else {
                        src[w].0
                    }),
            decreases src.len() - j,
        {
            let p = self.adj[ix][j];
            if p.0 == *x {
                out.push(p.1);
            } else {
                out.push(p.0);
            }
            j += 1;
        }
        out
    }

    fn vertex_edges(&self, x: &u64) -> (r: Vec<E>) {
        let ix = self.find_vertex(x);
        let ghost src = self.adj@[ix as int]@;
        let mut out: Vec<E> = Vec::new();
        let mut j: usize = 0;
        while j < self.adj[ix].len()
            invariant
                (ix as int) < self.adj@.len(),
                src == self.adj@[ix as int]@,
                j <= src.len(),
                out@.len() == j as int,
                forall|w: int|
                    0 <= w < j ==> (#[trigger] out@[w]).src() == src[w].0 && out@[w].dst()
                        == src[w].1,
            decreases src.len() - j,
        {
            let p = self.adj[ix][j];
            let e = E::new(p.0, p.1);
            out.push(e);
            j += 1;
        }
        out
    }

    fn vertices(&self) -> (r: Vec<u64>) {
        let mut out: Vec<u64> = Vec::new();
        let mut j: usize = 0;
        while j < self.verts.len()
            invariant
                j <= self.verts@.len(),
                out@ == self.verts@.take(j as int),
            decreases self.verts@.len() - j,
        {
            let x = self.verts[j];
            proof {
                assert(self.verts@.take(j as int + 1).drop_last() =~= self.verts@.take(j as int));
            }
            out.push(x);
            j += 1;
        }
        proof {
            assert(self.verts@.take(self.verts@.len() as int) =~= self.verts@);
        }
        out
    }

    fn edges(&self) -> (r: Vec<E>) {
        let mut out: Vec<E> = Vec::new();
        let mut j: usize = 0;
        while j < self.links.len()
            invariant
                j <= self.links@.len(),
                out@.len() == j as int,
                forall|w: int|
                    0 <= w < j ==> (#[trigger] out@[w]).src() == self.links@[w].0 && out@[w].dst()
                        == self.links@[w].1,
            decreases self.links@.len() - j,
        {
            let p = self.links[j];
            let e = E::new(p.0, p.1);
            out.push(e);
            j += 1;
        }
        out
    }
}

/// Pruning everything that touches `y` twice is the same as pruning once.
proof fn lemma_prune_touching_idem(s: Seq<(u64, u64)>, y: u64)
    ensures
        prune_touching(prune_touching(s, y), y) == prune_touching(s, y),
    decreases s.len(),
{
    if s.len() > 0 {
        lemma_prune_touching_idem(s.drop_last(), y);
        let rest = prune_touching(s.drop_last(), y);
        if !(s.last().0 == y || s.last().1 == y) {
            assert(prune_touching(s, y) == rest.push(s.last()));
            assert(prune_touching(rest.push(s.last()), y) =~= prune_touching(rest, y).push(
                s.last(),
            )) by {
                assert(rest.push(s.last()).drop_last() =~= rest);
            }
        }
    }
}

} // verus!

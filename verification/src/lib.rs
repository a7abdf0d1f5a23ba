//! A verified Fibonacci heap — a priority queue with constant-time insert
//! and meld, amortized-logarithmic minimum extraction, arbitrary key
//! decrease and arbitrary-entry deletion — together with the undirected
//! adjacency-list graph that consumes it.

use vstd::prelude::*;

mod arena;
pub mod adj_list;
pub mod fib_heap;
pub mod laws;

verus! {

/// An undirected edge between two vertices named by `u64` labels. The two
/// spec functions name the endpoints an implementation stores; the two
/// executable methods construct and read an edge.
pub trait Edge: Sized {
    /// The endpoint an edge was created from first.
    spec fn src(&self) -> u64;

    /// The endpoint an edge was created from second.
    spec fn dst(&self) -> u64;

    /// Builds the edge (x, y).
    fn new(x: u64, y: u64) -> (e: Self)
        ensures
            e.src() == x,
            e.dst() == y,
    ;

    /// Reads back both endpoints.
    fn endpoints(&self) -> (r: (u64, u64))
        ensures
            r.0 == self.src(),
            r.1 == self.dst(),
    ;
}

/// The endpoint pairs of `s` that do not touch the vertex `y`, in order.
pub open spec fn prune_touching(s: Seq<(u64, u64)>, y: u64) -> Seq<(u64, u64)>
    decreases s.len(),
{
    if s.len() == 0 {
        Seq::empty()
    } else {
        let rest = prune_touching(s.drop_last(), y);
        if s.last().0 == y || s.last().1 == y {
            rest
        } else {
            rest.push(s.last())
        }
    }
}

/// The endpoint pairs of `s` that are neither (x, y) nor (y, x), in order.
pub open spec fn prune_edge(s: Seq<(u64, u64)>, x: u64, y: u64) -> Seq<(u64, u64)>
    decreases s.len(),
{
    if s.len() == 0 {
        Seq::empty()
    } else {
        let rest = prune_edge(s.drop_last(), x, y);
        if (s.last().0 == x && s.last().1 == y) || (s.last().0 == y && s.last().1 == x) {
            rest
        } else {
            rest.push(s.last())
        }
    }
}

/// An undirected graph over `u64` vertex labels whose edges are materialized
/// as values of an [`Edge`] type.
///
/// The model is three spec-level components: the vertex labels in insertion
/// order, the list of endpoint pairs stored at each vertex (one entry per
/// incident edge, in insertion order), and the global list of endpoint pairs
/// in insertion order (one entry per edge).
pub trait Graph<E: Edge>: Sized {
    /// The vertex labels, in insertion order, without duplicates.
    spec fn vertex_seq(&self) -> Seq<u64>;

    /// The endpoint pairs stored at vertex `x`, in insertion order.
    spec fn adj_pairs(&self, x: u64) -> Seq<(u64, u64)>;

    /// The endpoint pairs of all edges, in insertion order, each edge once.
    spec fn edge_pairs(&self) -> Seq<(u64, u64)>;

    /// The graph's internal well-formedness.
    spec fn inv(&self) -> bool;

    /// Produces an empty graph.
    fn new() -> (g: Self)
        ensures
            g.inv(),
            g.vertex_seq() == Seq::<u64>::empty(),
            g.edge_pairs() == Seq::<(u64, u64)>::empty(),
            forall|v: u64| g.adj_pairs(v) == Seq::<(u64, u64)>::empty(),
    ;

    /// Adds vertex `x`. A label that is already present keeps its place in
    /// the vertex order but has its incidence list reset to empty.
    fn add_node(&mut self, x: u64)
        requires
            old(self).inv(),
        ensures
            final(self).inv(),
            final(self).vertex_seq() == (if old(self).vertex_seq().contains(x) {
                old(self).vertex_seq()
            } else {
                old(self).vertex_seq().push(x)
            }),
            final(self).adj_pairs(x) == Seq::<(u64, u64)>::empty(),
            forall|v: u64| v != x ==> final(self).adj_pairs(v) == old(self).adj_pairs(v),
            final(self).edge_pairs() == old(self).edge_pairs(),
    ;

    /// Adds the edge (u, v), storing it in the incidence lists of both
    /// endpoints. Both endpoints must already be vertices.
    fn add_edge(&mut self, u: &u64, v: &u64)
        requires
            old(self).inv(),
            old(self).vertex_seq().contains(*u),
            old(self).vertex_seq().contains(*v),
        ensures
            final(self).inv(),
            final(self).vertex_seq() == old(self).vertex_seq(),
            final(self).edge_pairs() == old(self).edge_pairs().push((*u, *v)),
            *u != *v ==> final(self).adj_pairs(*u) == old(self).adj_pairs(*u).push((*u, *v)),
            *u != *v ==> final(self).adj_pairs(*v) == old(self).adj_pairs(*v).push((*u, *v)),
            *u == *v ==> final(self).adj_pairs(*u) == old(self).adj_pairs(*u).push((*u, *v)).push(
                (*u, *v),
            ),
            forall|w: u64| w != *u && w != *v ==> final(self).adj_pairs(w) == old(self).adj_pairs(w),
    ;

    /// Removes from `x`'s incidence list every edge touching `y`, from `y`'s
    /// every edge touching `x`, and from the edge list every (x, y) or
    /// (y, x) edge. Both labels must be vertices.
    fn remove_edge(&mut self, x: &u64, y: &u64)
        requires
            old(self).inv(),
            old(self).vertex_seq().contains(*x),
            old(self).vertex_seq().contains(*y),
        ensures
            final(self).inv(),
            final(self).vertex_seq() == old(self).vertex_seq(),
            final(self).edge_pairs() == prune_edge(old(self).edge_pairs(), *x, *y),
            *x != *y ==> final(self).adj_pairs(*x) == prune_touching(old(self).adj_pairs(*x), *y),
            *x != *y ==> final(self).adj_pairs(*y) == prune_touching(old(self).adj_pairs(*y), *x),
            *x == *y ==> final(self).adj_pairs(*x) == prune_touching(old(self).adj_pairs(*x), *x),
            forall|w: u64| w != *x && w != *y ==> final(self).adj_pairs(w) == old(self).adj_pairs(w),
    ;

    /// Whether some edge stored at `x` touches `y`.
    fn adjacent(&self, x: &u64, y: &u64) -> (r: bool)
        requires
            self.inv(),
            self.vertex_seq().contains(*x),
        ensures
            r == exists|j: int|
                0 <= j < self.adj_pairs(*x).len() && ((#[trigger] self.adj_pairs(*x)[j]).0 == *y
                    || self.adj_pairs(*x)[j].1 == *y),
    ;

    /// The other endpoint of each edge stored at `x`, in storage order.
    fn neighbors(&self, x: &u64) -> (r: Vec<u64>)
        requires
            self.inv(),
            self.vertex_seq().contains(*x),
        ensures
            r@.len() == self.adj_pairs(*x).len(),
            forall|j: int|
                0 <= j < r@.len() ==> r@[j] == (if (#[trigger] self.adj_pairs(*x)[j]).0 == *x {
                    self.adj_pairs(*x)[j].1
                } else {
                    self.adj_pairs(*x)[j].0
                }),
    ;

    /// The edges stored at `x`, in storage order, materialized as values.
    fn vertex_edges(&self, x: &u64) -> (r: Vec<E>)
        requires
            self.inv(),
            self.vertex_seq().contains(*x),
        ensures
            r@.len() == self.adj_pairs(*x).len(),
            forall|j: int|
                0 <= j < r@.len() ==> (#[trigger] r@[j]).src() == self.adj_pairs(*x)[j].0
                    && r@[j].dst() == self.adj_pairs(*x)[j].1,
    ;

    /// All vertex labels, in insertion order.
    fn vertices(&self) -> (r: Vec<u64>)
        requires
            self.inv(),
        ensures
            r@ == self.vertex_seq(),
    ;

    /// All edges, in insertion order, each edge once, materialized as values.
    fn edges(&self) -> (r: Vec<E>)
        requires
            self.inv(),
        ensures
            r@.len() == self.edge_pairs().len(),
            forall|j: int|
                0 <= j < r@.len() ==> (#[trigger] r@[j]).src() == self.edge_pairs()[j].0
                    && r@[j].dst() == self.edge_pairs()[j].1,
    ;
}

} // verus!

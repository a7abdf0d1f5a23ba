use fib_heap::adj_list::{AdjList, PairEdge};
use fib_heap::{Edge, Graph};

type TestEdge = PairEdge;

#[test]
fn test_adjacent() {
    let mut graph: AdjList<TestEdge> = Graph::new();
    graph.add_node(0);
    graph.add_node(1);
    graph.add_node(2);
    graph.add_node(3);
    graph.add_edge(&0, &1);
    graph.add_edge(&0, &3);
    graph.add_edge(&2, &3);
    graph.add_edge(&1, &2);
    assert!(graph.adjacent(&0, &1));
    assert!(graph.adjacent(&0, &3));
    assert!(graph.adjacent(&2, &3));
    assert!(graph.adjacent(&1, &2));
}

#[test]
fn adj_list_test_adjacent() {
    let mut graph: AdjList<TestEdge> = Graph::new();
    graph.add_node(0);
    graph.add_node(1);
    graph.add_node(2);
    graph.add_node(3);
    graph.add_edge(&0, &1);
    graph.add_edge(&0, &3);
    graph.add_edge(&2, &3);
    graph.add_edge(&1, &2);
    assert!(graph.adjacent(&0, &1));
    assert!(graph.adjacent(&0, &3));
    assert!(graph.adjacent(&2, &3));
    assert!(graph.adjacent(&1, &2));
}

#[test]
fn test_neighbors() {
    let mut graph: AdjList<TestEdge> = Graph::new();
    graph.add_node(0);
    graph.add_node(1);
    graph.add_node(2);
    graph.add_node(3);
    graph.add_node(4);
    graph.add_edge(&0, &1);
    graph.add_edge(&0, &3);
    graph.add_edge(&2, &3);
    graph.add_edge(&1, &2);
    graph.add_edge(&1, &4);
    let mut neighbors = graph.neighbors(&1);
    assert_eq!(neighbors.len(), 3);
    neighbors.sort();
    let expected = vec![0u64, 2, 4];
    let mut exp_iter = expected.iter();
    for i in neighbors.iter() {
        assert_eq!(i, exp_iter.next().unwrap());
    }
}

#[test]
fn adj_list_test_neighbors() {
    let mut graph: AdjList<TestEdge> = Graph::new();
    graph.add_node(0);
    graph.add_node(1);
    graph.add_node(2);
    graph.add_node(3);
    graph.add_node(4);
    graph.add_edge(&0, &1);
    graph.add_edge(&0, &3);
    graph.add_edge(&2, &3);
    graph.add_edge(&1, &2);
    graph.add_edge(&1, &4);
    let mut neighbors = graph.neighbors(&1);
    neighbors.sort();
    let expected = vec![0u64, 2, 4];
    let mut exp_iter = expected.iter();
    for i in neighbors.iter() {
        assert_eq!(i, exp_iter.next().unwrap());
    }
}

#[test]
fn test_vertex_edges() {
    let mut graph: AdjList<TestEdge> = Graph::new();
    graph.add_node(0);
    graph.add_node(1);
    graph.add_node(2);
    graph.add_node(3);
    graph.add_node(4);
    graph.add_edge(&0, &1);
    graph.add_edge(&0, &3);
    graph.add_edge(&2, &3);
    graph.add_edge(&1, &2);
    graph.add_edge(&1, &4);
    let edge0: TestEdge = Edge::new(0, 1);
    let edge2: TestEdge = Edge::new(1, 2);
    let edge4: TestEdge = Edge::new(1, 4);
    let edges = graph.vertex_edges(&1);
    assert_eq!(edges.len(), 3);
    let expected = vec![edge0, edge2, edge4];
    let mut exp_iter = expected.iter();
    for i in edges.iter() {
        assert_eq!(i, exp_iter.next().unwrap());
    }
}

#[test]
fn test_remove_edge() {
    let mut graph: AdjList<TestEdge> = Graph::new();
    graph.add_node(0);
    graph.add_node(1);
    graph.add_node(2);
    graph.add_node(3);
    graph.add_node(4);
    graph.add_edge(&0, &1);
    graph.add_edge(&0, &3);
    graph.add_edge(&2, &3);
    graph.add_edge(&1, &2);
    graph.add_edge(&1, &4);
    graph.remove_edge(&1, &2);
    let mut neighbors = graph.neighbors(&1);
    neighbors.sort();
    assert_eq!(neighbors.len(), 2);
    let expected = vec![0u64, 4];
    let mut exp_iter = expected.iter();
    for i in neighbors.iter() {
        assert_eq!(i, exp_iter.next().unwrap());
    }
}

#[test]
fn test_vertices() {
    let mut graph: AdjList<TestEdge> = Graph::new();
    graph.add_node(0);
    graph.add_node(1);
    graph.add_node(2);
    graph.add_node(3);
    graph.add_node(4);
    graph.add_edge(&0, &1);
    graph.add_edge(&0, &3);
    graph.add_edge(&2, &3);
    graph.add_edge(&1, &2);
    graph.add_edge(&1, &4);
    let mut vertices = graph.vertices();
    assert_eq!(vertices.len(), 5);
    vertices.sort();
    let expected = vec![0u64, 1, 2, 3, 4];
    let mut exp_iter = expected.iter();
    for i in vertices.iter() {
        assert_eq!(i, exp_iter.next().unwrap());
    }
}

#[test]
fn test_edges() {
    let mut graph: AdjList<TestEdge> = Graph::new();
    graph.add_node(0);
    graph.add_node(1);
    graph.add_node(2);
    graph.add_node(3);
    graph.add_node(4);
    graph.add_edge(&0, &1);
    graph.add_edge(&2, &3);
    graph.add_edge(&1, &2);
    graph.add_edge(&1, &4);
    let edge0: TestEdge = Edge::new(0, 1);
    let edge2: TestEdge = Edge::new(1, 2);
    let edge3: TestEdge = Edge::new(2, 3);
    let edge4: TestEdge = Edge::new(1, 4);
    let edges = graph.edges();
    assert_eq!(edges.len(), 4);
    let expected = vec![edge0, edge3, edge2, edge4];
    let mut exp_iter = expected.iter();
    for i in edges.iter() {
        assert_eq!(i, exp_iter.next().unwrap());
    }
}

#[test]
fn endpoints_reads_back_creation_order() {
    let e: PairEdge = Edge::new(6, 2);
    assert_eq!(e.endpoints(), (6, 2));
}

#[test]
fn remove_edge_drops_it_from_the_edge_list() {
    let mut graph: AdjList<TestEdge> = Graph::new();
    graph.add_node(10);
    graph.add_node(20);
    graph.add_node(30);
    graph.add_edge(&10, &20);
    graph.add_edge(&20, &30);
    graph.remove_edge(&20, &10);
    let edges = graph.edges();
    assert_eq!(edges.len(), 1);
    assert_eq!(edges[0].endpoints(), (20, 30));
    assert!(!graph.adjacent(&10, &20));
    assert!(graph.adjacent(&20, &30));
}

#[test]
fn it_works() {
}

#[test]
fn lib_it_works() {
}

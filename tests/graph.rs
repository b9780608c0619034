use commuter::graph::{all_paths, DiGraph, Edge};

#[derive(Clone, Copy, PartialEq, Debug)]
struct TestGraphEdge {
    from: u32,
    to: u32,
}

impl Edge for TestGraphEdge {
    type Node = u32;

    fn spec_from(&self) -> u32 {
        self.from
    }

    fn spec_to(&self) -> u32 {
        self.to
    }

    fn from(&self) -> &Self::Node {
        &self.from
    }

    fn to(&self) -> &Self::Node {
        &self.to
    }
}

struct TestGraph {
    nodes: Vec<u32>,
    edges: Vec<TestGraphEdge>,
}

impl DiGraph for TestGraph {
    type Node = u32;
    type Edge = TestGraphEdge;

    fn spec_nodes(&self) -> vstd::seq::Seq<u32> {
        panic!("used only by the verifier")
    }

    fn spec_outbounds(&self, _node: u32) -> vstd::seq::Seq<TestGraphEdge> {
        panic!("used only by the verifier")
    }

    fn nodes(&self) -> Vec<Self::Node> {
        self.nodes.clone()
    }

    fn outbounds(&self, node: &Self::Node) -> Vec<Self::Edge> {
        self.edges
            .iter()
            .filter(|e| e.from == *node)
            .cloned()
            .collect()
    }
}

fn edge(from: u32, to: u32) -> TestGraphEdge {
    TestGraphEdge { from, to }
}

fn example_graph() -> TestGraph {
    TestGraph {
        nodes: vec![1, 2, 3, 4],
        edges: vec![edge(1, 2), edge(1, 3), edge(2, 3), edge(2, 4), edge(3, 4)],
    }
}

#[test]
fn test_all_paths_on_example_graph() {
    let graph = example_graph();

    // Fetch all paths through the graph
    let paths = all_paths(&graph).unwrap();

    // Test one: all paths should be valid
    for path in paths.clone() {
        for edge in path {
            assert!(graph.outbounds(edge.from()).iter().any(|e| e.to() == edge.to()));
        }
    }

    // Test two: some sample paths should be present to test various cases
    assert!(paths.contains(&vec![edge(1, 2), edge(2, 3), edge(3, 4)]));
    assert!(paths.contains(&vec![edge(1, 2), edge(2, 4)]));
    assert!(paths.contains(&vec![edge(1, 3), edge(3, 4)]));
    assert!(paths.contains(&vec![edge(2, 3), edge(3, 4)]));
    assert!(paths.contains(&vec![edge(2, 4)]));
}

#[test]
fn all_paths_lists_every_path_exactly() {
    let paths = all_paths(&example_graph()).unwrap();
    let expected = vec![
        vec![edge(1, 2)],
        vec![edge(1, 2), edge(2, 3)],
        vec![edge(1, 2), edge(2, 3), edge(3, 4)],
        vec![edge(1, 2), edge(2, 4)],
        vec![edge(1, 3)],
        vec![edge(1, 3), edge(3, 4)],
        vec![edge(2, 3)],
        vec![edge(2, 3), edge(3, 4)],
        vec![edge(2, 4)],
        vec![edge(3, 4)],
    ];
    assert_eq!(paths, expected);
}

#[test]
fn enumerating_twice_gives_the_same_paths() {
    let graph = example_graph();
    let first = all_paths(&graph).unwrap();
    let second = all_paths(&graph).unwrap();
    assert_eq!(first.len(), second.len());
    for p in &first {
        assert!(second.contains(p));
    }
    for p in &second {
        assert!(first.contains(p));
    }
}

#[test]
fn graph_without_edges_has_no_paths() {
    let graph = TestGraph { nodes: vec![7], edges: vec![] };
    assert!(all_paths(&graph).unwrap().is_empty());
}

#[test]
fn self_loop_is_a_cycle() {
    let graph = TestGraph { nodes: vec![1], edges: vec![edge(1, 1)] };
    assert!(all_paths(&graph).is_err());
}

#[test]
fn cycle_back_to_the_start_is_rejected() {
    let graph = TestGraph {
        nodes: vec![1, 2, 3],
        edges: vec![edge(1, 2), edge(2, 3), edge(3, 1)],
    };
    assert!(all_paths(&graph).is_err());
}

#[test]
fn cycle_away_from_the_first_start_is_rejected() {
    // The search from node 1 meets the cycle between 2 and 3 before the search
    // from node 2 begins.
    let graph = TestGraph {
        nodes: vec![1, 2, 3],
        edges: vec![edge(1, 2), edge(2, 3), edge(3, 2)],
    };
    assert!(all_paths(&graph).is_err());
}

#[test]
fn cyclic_graph_error_message() {
    let e = commuter::graph::CyclicGraphError;
    assert_eq!(
        e.message(),
        "Graph contains at least one cycle - this is currently unsupported"
    );
}

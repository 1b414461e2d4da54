use concurrent_labs::hamiltonian::{get_hamiltonian_cycles, Graph};

fn example_graph() -> Graph {
    Graph {
        adjacency: vec![
            vec![1, 2, 5],
            vec![0, 2, 5, 4],
            vec![0, 1, 3],
            vec![2, 4],
            vec![1, 3, 5],
            vec![0, 1, 4],
        ],
        total_nodes: 6,
    }
}

#[test]
fn finds_all_cycles_of_the_example() {
    let graph = example_graph();
    let mut results = vec![];
    get_hamiltonian_cycles(0, 0, &graph, vec![], &mut results);
    assert_eq!(
        results,
        vec![
            vec![0, 1, 2, 3, 4, 5, 0],
            vec![0, 1, 5, 4, 3, 2, 0],
            vec![0, 2, 3, 4, 1, 5, 0],
            vec![0, 2, 3, 4, 5, 1, 0],
            vec![0, 5, 1, 4, 3, 2, 0],
            vec![0, 5, 4, 3, 2, 1, 0],
        ]
    );
}

#[test]
fn a_path_graph_has_no_cycle() {
    let graph = Graph::new(vec![vec![1], vec![2], vec![]]);
    assert_eq!(graph.total_nodes, 3);
    let mut results = vec![];
    get_hamiltonian_cycles(0, 0, &graph, vec![], &mut results);
    assert!(results.is_empty());
}

#[test]
fn a_triangle_has_one_cycle_each_way() {
    let graph = Graph::new(vec![vec![1, 2], vec![2, 0], vec![0, 1]]);
    let mut results = vec![vec![9]];
    get_hamiltonian_cycles(0, 0, &graph, vec![], &mut results);
    assert_eq!(results, vec![vec![9], vec![0, 1, 2, 0], vec![0, 2, 1, 0]]);
}

#[test]
fn a_single_node_needs_a_loop() {
    let with_loop = Graph::new(vec![vec![0]]);
    let mut results = vec![];
    get_hamiltonian_cycles(0, 0, &with_loop, vec![], &mut results);
    assert_eq!(results, vec![vec![0, 0]]);
    let without = Graph::new(vec![vec![]]);
    let mut results = vec![];
    get_hamiltonian_cycles(0, 0, &without, vec![], &mut results);
    assert!(results.is_empty());
}

#[test]
fn a_self_loop_may_repeat_a_node() {
    let graph = Graph::new(vec![vec![0, 1], vec![0]]);
    let mut results = vec![];
    get_hamiltonian_cycles(0, 0, &graph, vec![], &mut results);
    assert_eq!(results, vec![vec![0, 0, 0], vec![0, 1, 0]]);
}

#[test]
fn a_longer_cycle_than_the_graph_is_never_found() {
    let graph = Graph { adjacency: vec![vec![1], vec![0]], total_nodes: 5 };
    let mut results = vec![];
    get_hamiltonian_cycles(0, 0, &graph, vec![], &mut results);
    assert!(results.is_empty());
}

#[test]
fn an_unreached_bad_neighbour_is_harmless() {
    // node 1 lists node 7, which does not exist, but the search closes the
    // path at node 1 before looking at its neighbours
    let graph = Graph::new(vec![vec![1], vec![0, 7]]);
    let mut results = vec![];
    get_hamiltonian_cycles(0, 0, &graph, vec![], &mut results);
    assert_eq!(results, vec![vec![0, 1, 0]]);
}

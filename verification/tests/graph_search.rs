use traversal::graph::Graph;

fn sample() -> Graph {
    let mut graph = Graph::new(5);
    graph.add_edge(0, 1);
    graph.add_edge(0, 2);
    graph.add_edge(0, 3);
    graph.add_edge(1, 2);
    graph.add_edge(2, 4);
    graph
}

#[test]
fn test_dfs() {
    let mut graph = Graph::new(5);
    graph.add_edge(0, 1);
    graph.add_edge(0, 2);
    graph.add_edge(0, 3);
    graph.add_edge(1, 2);
    graph.add_edge(2, 4);

    let result: Vec<usize> = graph.dfs(0);
    assert_eq!(vec![0, 1, 2, 4, 3], result);
}

#[test]
fn second_search_from_same_start_yields_only_the_start() {
    let mut graph = sample();
    assert_eq!(graph.dfs(0), vec![0, 1, 2, 4, 3]);
    assert_eq!(graph.dfs(0), vec![0]);
    assert_eq!(graph.dfs(0), vec![0]);
}

#[test]
fn marks_stay_between_searches_from_different_starts() {
    let mut graph = sample();
    assert_eq!(graph.dfs(2), vec![2, 4]);
    // 2 and 4 are marked now, so the search from 0 passes them by.
    assert_eq!(graph.dfs(0), vec![0, 1, 3]);
}

#[test]
fn search_lists_only_what_the_start_reaches() {
    let mut graph = sample();
    assert_eq!(graph.dfs(1), vec![1, 2, 4]);
    let mut graph = sample();
    assert_eq!(graph.dfs(4), vec![4]);
    let mut graph = sample();
    assert_eq!(graph.dfs(3), vec![3]);
}

#[test]
fn neighbours_are_taken_in_insertion_order() {
    let mut graph = Graph::new(4);
    graph.add_edge(0, 3);
    graph.add_edge(0, 1);
    graph.add_edge(0, 2);
    assert_eq!(graph.dfs(0), vec![0, 3, 1, 2]);
}

#[test]
fn duplicate_edges_do_not_repeat_a_vertex() {
    let mut graph = Graph::new(3);
    graph.add_edge(0, 1);
    graph.add_edge(0, 1);
    graph.add_edge(1, 2);
    graph.add_edge(0, 2);
    graph.add_edge(1, 2);
    graph.add_edge(0, 1);
    assert_eq!(graph.dfs(0), vec![0, 1, 2]);
}

#[test]
fn cycles_and_self_loops_end() {
    let mut graph = Graph::new(3);
    graph.add_edge(0, 0);
    graph.add_edge(0, 1);
    graph.add_edge(1, 2);
    graph.add_edge(2, 0);
    graph.add_edge(2, 2);
    assert_eq!(graph.dfs(0), vec![0, 1, 2]);
}

#[test]
fn edges_are_directed() {
    let mut graph = Graph::new(2);
    graph.add_edge(0, 1);
    assert_eq!(graph.dfs(1), vec![1]);
    assert_eq!(graph.dfs(0), vec![0]);
}

#[test]
fn vertex_without_edges_yields_itself() {
    let mut graph = Graph::new(1);
    assert_eq!(graph.dfs(0), vec![0]);
}

#[test]
fn every_vertex_is_visited_once_on_a_dense_graph() {
    let mut graph = Graph::new(6);
    for src in 0..6 {
        for dest in 0..6 {
            graph.add_edge(src, dest);
            graph.add_edge(src, dest);
        }
    }
    let mut got = graph.dfs(3);
    assert_eq!(got, vec![3, 0, 1, 2, 4, 5]);
    got.sort();
    got.dedup();
    assert_eq!(got.len(), 6);
}

#[test]
fn edge_added_after_a_search_opens_new_vertices() {
    let mut graph = Graph::new(3);
    graph.add_edge(0, 1);
    assert_eq!(graph.dfs(0), vec![0, 1]);
    graph.add_edge(0, 2);
    assert_eq!(graph.dfs(0), vec![0, 2]);
}

#[test]
fn a_clone_carries_its_own_marks() {
    let mut graph = sample();
    let mut copy = graph.clone();
    assert_eq!(graph.dfs(0), vec![0, 1, 2, 4, 3]);
    assert_eq!(copy.dfs(0), vec![0, 1, 2, 4, 3]);
    let mut marked = graph.clone();
    assert_eq!(marked.dfs(1), vec![1]);
}

#[test]
fn empty_graph_can_be_built() {
    let graph = Graph::new(0);
    let _copy = graph.clone();
}

#[test]
fn deep_chain_is_followed_to_its_end() {
    let n = 200;
    let mut graph = Graph::new(n);
    for v in 0..n - 1 {
        graph.add_edge(v, v + 1);
    }
    let expected: Vec<usize> = (0..n).collect();
    assert_eq!(graph.dfs(0), expected);
}

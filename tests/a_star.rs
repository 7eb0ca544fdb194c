use astar_lib::a_star::{NavGraph, NodeState};
use astar_lib::vector::Vec2;

/// The example graph, on a grid of tenths: nodes at (0,0), (0.5,0.5), (1,0),
/// (1,1), (0.1,0) and an unconnected one at (2,2).
fn example_graph() -> (NavGraph, [usize; 6]) {
    let mut graph = NavGraph::new();
    let p0 = graph.add_node([0, 0]);
    let p1 = graph.add_node([5, 5]);
    let p2 = graph.add_node([10, 0]);
    let p3 = graph.add_node([10, 10]);
    let p4 = graph.add_node([1, 0]);
    let p5 = graph.add_node([20, 20]);
    graph.connect_nodes(p0, p1);
    graph.connect_nodes(p1, p2);
    graph.connect_nodes(p0, p2);
    graph.connect_nodes(p1, p4);
    graph.connect_nodes(p4, p3);
    graph.connect_nodes(p2, p3);
    (graph, [p0, p1, p2, p3, p4, p5])
}

fn cost(graph: &NavGraph, path: &[usize]) -> u64 {
    let nodes = graph.get_all_nodes_with_state();
    path.windows(2).map(|w| nodes[w[0]].0.dist_to(&nodes[w[1]].0)).sum()
}

#[test]
fn a_star_base_test() {
    let (mut graph, [p0, _p1, _p2, p3, _p4, p5]) = example_graph();

    let result = graph.search_graph(p0, p3);
    assert!(result.is_some());

    let result = result.unwrap();
    assert_eq!(result, [0, 2, 3]);

    for (_source, _destination, _solution) in graph.get_all_links_with_solution_hint() {}

    for (_position, _state) in graph.get_all_nodes_with_state() {}

    let result = graph.search_graph(p0, p5);
    assert!(result.is_none(), "There should not be a solution!");
}

#[test]
fn handles_are_consecutive() {
    let (graph, handles) = example_graph();
    assert_eq!(handles, [0, 1, 2, 3, 4, 5]);
    assert_eq!(graph.node_count(), 6);
    assert_eq!(graph.get_link_list(), vec![(0, 1), (1, 2), (0, 2), (1, 4), (4, 3), (2, 3)]);
}

#[test]
fn search_to_itself_is_single_node() {
    let (mut graph, [_p0, p1, _p2, _p3, _p4, p5]) = example_graph();
    assert_eq!(graph.search_graph(p1, p1), Some(vec![p1]));
    assert_eq!(graph.search_graph(p5, p5), Some(vec![p5]));
}

#[test]
fn search_path_follows_edges() {
    let (mut graph, [p0, _p1, _p2, p3, p4, _p5]) = example_graph();
    let links = graph.get_link_list();
    for (s, d) in [(p4, p0), (p3, p0), (p4, p3), (p0, p4)] {
        let path = graph.search_graph(s, d).unwrap();
        assert_eq!(path[0], s);
        assert_eq!(*path.last().unwrap(), d);
        for w in path.windows(2) {
            assert!(links.contains(&(w[0], w[1])) || links.contains(&(w[1], w[0])));
        }
    }
}

#[test]
fn search_finds_cheapest_path() {
    let (mut graph, [p0, _p1, _p2, p3, _p4, _p5]) = example_graph();
    let path = graph.search_graph(p0, p3).unwrap();
    // Edge costs on the grid of tenths, rounded up: 0-1: 8, 1-2: 8, 0-2: 10,
    // 1-4: 7, 4-3: 14, 2-3: 10.
    assert_eq!(cost(&graph, &path), 20);
    assert!(cost(&graph, &path) <= cost(&graph, &[0, 1, 2, 3]));
    assert!(cost(&graph, &path) <= cost(&graph, &[0, 1, 4, 3]));
    assert_eq!(cost(&graph, &[0, 1, 4, 3]), 29);
}

#[test]
fn search_prefers_detour_when_cheaper() {
    let mut graph = NavGraph::new();
    let a = graph.add_node([0, 0]);
    let b = graph.add_node([100, 0]);
    let c = graph.add_node([50, 1]);
    graph.connect_nodes(a, b);
    graph.connect_nodes(a, c);
    graph.connect_nodes(c, b);
    // Direct: 100; through c: 51 + 51.
    assert_eq!(graph.search_graph(a, b), Some(vec![a, b]));
    let mut graph = NavGraph::new();
    let a = graph.add_node([0, 0]);
    let m = graph.add_node([3, 4]);
    let b = graph.add_node([6, 8]);
    let far = graph.add_node([100, 100]);
    graph.connect_nodes(a, far);
    graph.connect_nodes(far, b);
    graph.connect_nodes(a, m);
    graph.connect_nodes(m, b);
    assert_eq!(graph.search_graph(a, b), Some(vec![a, m, b]));
}

#[test]
fn search_in_other_component_fails() {
    let mut graph = NavGraph::new();
    let a = graph.add_node([0, 0]);
    let b = graph.add_node([1, 0]);
    let c = graph.add_node([5, 5]);
    let d = graph.add_node([6, 5]);
    graph.connect_nodes(a, b);
    graph.connect_nodes(c, d);
    assert_eq!(graph.search_graph(a, d), None);
    assert_eq!(graph.search_graph(d, b), None);
    assert_eq!(graph.search_graph(c, d), Some(vec![c, d]));
}

#[test]
fn solution_states_mark_the_path() {
    let (mut graph, [p0, _p1, _p2, p3, _p4, _p5]) = example_graph();
    let path = graph.search_graph(p0, p3).unwrap();
    let nodes = graph.get_all_nodes_with_state();
    for (i, (_pos, state)) in nodes.iter().enumerate() {
        assert_eq!(*state == NodeState::Solution, path.contains(&i));
    }
    assert_eq!(nodes[5].1, NodeState::Clear);
    let hints: Vec<bool> = graph
        .get_all_links_with_solution_hint()
        .iter()
        .map(|(_, _, s)| *s)
        .collect();
    assert_eq!(hints, vec![false, false, true, false, false, true]);
    let links = graph.get_all_links_with_solution_hint();
    assert_eq!(links[2].0, Vec2::new(0, 0));
    assert_eq!(links[2].1, Vec2::new(10, 0));
}

#[test]
fn new_nodes_start_clear() {
    let mut graph = NavGraph::new();
    graph.add_node([3, -4]);
    let nodes = graph.get_all_nodes_with_state();
    assert_eq!(nodes, vec![(Vec2::new(3, -4), NodeState::Clear)]);
}

#[test]
fn nearest_node_lookup() {
    let (graph, _) = example_graph();
    assert_eq!(graph.find_nearest_node([9, 1]), Some(2));
    assert_eq!(graph.find_nearest_node([19, 21]), Some(5));
    // (0,0) and (1,0) are equally near to x = 0.5: the first added wins.
    let mut tie = NavGraph::new();
    tie.add_node([0, 0]);
    tie.add_node([2, 0]);
    assert_eq!(tie.find_nearest_node([1, 0]), Some(0));
    assert_eq!(NavGraph::new().find_nearest_node([0, 0]), None);
}

#[test]
fn nearest_node_within_radius() {
    let (graph, _) = example_graph();
    assert_eq!(graph.find_nearest_node_with_radius([9, 1], 2), Some(2));
    assert_eq!(graph.find_nearest_node_with_radius([9, 1], 1), None);
    assert_eq!(graph.find_nearest_node_with_radius([10, 1], 1), Some(2));
    assert_eq!(graph.find_nearest_node_with_radius([15, 15], 3), None);
    assert_eq!(NavGraph::new().find_nearest_node_with_radius([0, 0], 100), None);
}

#[test]
fn search_on_extreme_coordinates() {
    let mut graph = NavGraph::new();
    let a = graph.add_node([i32::MIN, i32::MIN]);
    let b = graph.add_node([i32::MAX, i32::MAX]);
    let c = graph.add_node([i32::MAX, i32::MIN]);
    graph.connect_nodes(a, c);
    graph.connect_nodes(c, b);
    graph.connect_nodes(a, b);
    assert_eq!(graph.search_graph(a, b), Some(vec![a, b]));
    assert_eq!(graph.search_graph(c, c), Some(vec![c]));
}

#[test]
fn ask_node_and_link_filters() {
    let (mut graph, [p0, _p1, _p2, p3, _p4, _p5]) = example_graph();
    assert_eq!(graph.ask_node(1), (Vec2::new(5, 5), NodeState::Clear));
    assert_eq!(graph.get_all_solution_links(), vec![]);
    assert_eq!(graph.get_all_simple_links().len(), 6);
    graph.search_graph(p0, p3);
    assert_eq!(graph.ask_node(2).1, NodeState::Solution);
    assert_eq!(graph.get_all_solution_links(), vec![(0, 2), (2, 3)]);
    assert_eq!(graph.get_all_simple_links(), vec![(0, 1), (1, 2), (1, 4), (4, 3)]);
}

#[test]
fn search_with_unknown_handles_fails() {
    let mut empty = NavGraph::new();
    assert_eq!(empty.search_graph(0, 0), None);
    let (mut graph, [p0, ..]) = example_graph();
    assert_eq!(graph.search_graph(p0, 6), None);
    assert_eq!(graph.search_graph(17, p0), None);
}

#[test]
fn repeated_searches_agree() {
    let (mut graph, [p0, p1, _p2, p3, p4, _p5]) = example_graph();
    let first = graph.search_graph(p0, p3);
    graph.search_graph(p4, p1);
    graph.search_graph(p3, p0);
    assert_eq!(graph.search_graph(p0, p3), first);
}

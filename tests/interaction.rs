use astar_lib::a_star::NodeState;
use astar_lib::interaction::{InteractionCore, VIEW_EXTENSION};
use astar_lib::vector::Vec2;

fn new_view() -> InteractionCore {
    // The settings of the interactive program, on a grid of ten-thousandths.
    InteractionCore::new(150, 400, 2500, 500, 300, 800)
}

#[test]
fn new_view_has_a_graph_and_no_start() {
    let view = new_view();
    assert_eq!(view.node_selected(), None);
    let nodes = view.graph().get_all_nodes_with_state();
    assert!(!nodes.is_empty() && nodes.len() <= 300);
    for (pos, state) in &nodes {
        assert!(-VIEW_EXTENSION <= pos.x && pos.x < VIEW_EXTENSION);
        assert!(-VIEW_EXTENSION <= pos.y && pos.y < VIEW_EXTENSION);
        assert_eq!(*state, NodeState::Clear);
    }
}

#[test]
fn pick_then_hover_searches() {
    let mut view = new_view();
    let graph = view.graph();
    let links = graph.get_link_list();
    let nodes = graph.get_all_nodes_with_state();
    let (a, b) = links[0];
    let pa = nodes[a].0;
    let pb = nodes[b].0;
    // Nothing is picked yet: hovering changes no state.
    view.set_cursor_pos(pb);
    assert!(view
        .graph()
        .get_all_nodes_with_state()
        .iter()
        .all(|(_, s)| *s == NodeState::Clear));
    view.set_cursor_pos(pa);
    view.pick_node();
    assert_eq!(view.node_selected(), Some(a));
    view.set_cursor_pos(Vec2::new(pb.x + 10, pb.y));
    let states = view.graph().get_all_nodes_with_state();
    assert_eq!(states[a].1, NodeState::Solution);
    assert_eq!(states[b].1, NodeState::Solution);
    assert_eq!(view.node_selected(), Some(a));
}

#[test]
fn picking_empty_space_keeps_the_start() {
    let mut view = new_view();
    let nodes = view.graph().get_all_nodes_with_state();
    let p0 = nodes[0].0;
    view.set_cursor_pos(p0);
    view.pick_node();
    assert_eq!(view.node_selected(), Some(0));
    // Far outside the view no node is under the cursor.
    view.set_cursor_pos(Vec2::new(5 * VIEW_EXTENSION, 5 * VIEW_EXTENSION));
    view.pick_node();
    assert_eq!(view.node_selected(), Some(0));
}

#[test]
fn regenerating_forgets_the_start() {
    let mut view = new_view();
    let p0 = view.graph().get_all_nodes_with_state()[0].0;
    view.set_cursor_pos(p0);
    view.pick_node();
    assert!(view.node_selected().is_some());
    view.generate_graph();
    assert_eq!(view.node_selected(), None);
    assert!(view.graph().node_count() > 0);
}

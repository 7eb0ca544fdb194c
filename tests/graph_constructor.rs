use astar_lib::a_star::NodeState;
use astar_lib::graph_constructor::GraphConstructor;
use astar_lib::line::Line;
use astar_lib::vector::Vec2;

fn check_points(points: &[Vec2], extension: i32, exclusion: u64) {
    for (i, a) in points.iter().enumerate() {
        assert!(-extension <= a.x && a.x < extension);
        assert!(-extension <= a.y && a.y < extension);
        for b in &points[i + 1..] {
            assert!(a.sq_dist_to(b) > (exclusion as u128) * (exclusion as u128));
        }
    }
}

fn check_links(points: &[Vec2], pairs: &[(usize, usize)], max_length: u32, clearance: u32) {
    let lines: Vec<Line> = pairs.iter().map(|&(a, b)| Line::new(points[a], points[b])).collect();
    for (k, &(a, b)) in pairs.iter().enumerate() {
        assert_ne!(a, b);
        assert!(points[a].sq_dist_to(&points[b]) < (max_length as u128) * (max_length as u128));
        for &(c, d) in &pairs[k + 1..] {
            assert!((a, b) != (c, d) && (a, b) != (d, c));
        }
        for later in &lines[k + 1..] {
            assert!(!lines[k].intersects_with(later));
        }
        for p in points {
            assert!(!lines[k].is_in_critical_range(*p, clearance));
        }
    }
}

#[test]
fn graph_constructor_vec_construction_test() {
    // On a grid of thousandths.
    let mut constructor = GraphConstructor::new(1000, 300, 20, 10);
    constructor.add_random_points(1000);
    constructor.add_random_links(5000);
    assert!(constructor.point_count() > 0 && constructor.link_count() > 0);
    let graph = constructor.generate_graph();
    assert!(graph.node_count() > 0);
}

#[test]
fn generated_points_keep_their_distance() {
    let mut constructor = GraphConstructor::new(1000, 300, 20, 10);
    constructor.add_random_points(300);
    let points = constructor.get_points();
    assert!(points.len() <= 300);
    assert!(!points.is_empty());
    check_points(&points, 1000, 40);
}

#[test]
fn generated_points_stop_at_the_target() {
    let mut constructor = GraphConstructor::new(1000, 300, 1, 10);
    constructor.add_random_points(50);
    assert_eq!(constructor.point_count(), 50);
}

#[test]
fn infeasible_packing_falls_short() {
    // Points at least 40 apart in a 20 by 20 square: only one fits.
    let mut constructor = GraphConstructor::new(10, 300, 20, 10);
    constructor.add_random_points(5);
    assert_eq!(constructor.point_count(), 1);
}

#[test]
fn generated_links_are_well_formed() {
    let mut constructor = GraphConstructor::new(1000, 400, 30, 20);
    constructor.add_random_points(120);
    constructor.add_random_links(300);
    let points = constructor.get_points();
    let pairs = constructor.get_pairs();
    assert!(pairs.len() <= 300);
    assert!(!pairs.is_empty());
    check_points(&points, 1000, 60);
    check_links(&points, &pairs, 400, 20);
}

#[test]
fn links_need_points() {
    let mut constructor = GraphConstructor::new(1000, 300, 20, 10);
    constructor.add_random_links(10);
    assert_eq!(constructor.link_count(), 0);
    assert_eq!(constructor.point_count(), 0);
}

#[test]
fn emitted_graph_mirrors_points_and_links() {
    let mut constructor = GraphConstructor::new(1000, 500, 30, 20);
    constructor.add_random_points(60);
    constructor.add_random_links(80);
    let points = constructor.get_points();
    let pairs = constructor.get_pairs();
    assert!(!pairs.is_empty());
    let mut graph = constructor.generate_graph();
    assert_eq!(constructor.point_count(), 0);
    assert_eq!(constructor.link_count(), 0);
    let nodes = graph.get_all_nodes_with_state();
    assert_eq!(nodes.len(), points.len());
    for (i, (pos, state)) in nodes.iter().enumerate() {
        assert_eq!(*pos, points[i]);
        assert_eq!(*state, NodeState::Clear);
    }
    assert_eq!(graph.get_link_list(), pairs);
    let (a, b) = pairs[0];
    assert_eq!(graph.search_graph(a, b), Some(vec![a, b]));
}

#[test]
fn try_add_point_keeps_distance() {
    let mut constructor = GraphConstructor::new(1000, 300, 20, 10);
    assert!(constructor.try_add_point(Vec2::new(0, 0)));
    // 40 is the exclusion distance: exactly 40 away is too near.
    assert!(!constructor.try_add_point(Vec2::new(40, 0)));
    assert!(constructor.try_add_point(Vec2::new(41, 0)));
    assert!(!constructor.try_add_point(Vec2::new(20, 20)));
    assert_eq!(constructor.get_points(), vec![Vec2::new(0, 0), Vec2::new(41, 0)]);
}

#[test]
fn partners_are_the_near_points_in_order() {
    let mut constructor = GraphConstructor::new(1000, 300, 20, 10);
    for p in [(0, 0), (100, 0), (400, 0), (0, 299), (300, 0), (-200, -200)] {
        assert!(constructor.try_add_point(Vec2::new(p.0, p.1)));
    }
    // At exactly the maximum length of 300, (300, 0) is out of reach of (0, 0).
    assert_eq!(constructor.partners_in_reach(0), vec![1, 3, 5]);
    assert_eq!(constructor.partners_in_reach(2), vec![4]);
    assert_eq!(constructor.partners_in_reach(1), vec![0, 4]);
}

#[test]
fn try_add_link_rejects_repeats_crossings_and_near_points() {
    let mut constructor = GraphConstructor::new(1000, 1000, 5, 10);
    for p in [(0, 0), (100, 100), (0, 100), (100, 0), (50, 200), (300, 0), (200, 5)] {
        assert!(constructor.try_add_point(Vec2::new(p.0, p.1)));
    }
    assert!(constructor.try_add_link(0, 1));
    // The same pair, in either order.
    assert!(!constructor.try_add_link(0, 1));
    assert!(!constructor.try_add_link(1, 0));
    // Crosses the link 0-1.
    assert!(!constructor.try_add_link(2, 3));
    // Passes within 10 of point 6 at (200, 5).
    assert!(!constructor.try_add_link(3, 5));
    // Touches link 0-1 only at its end.
    assert!(constructor.try_add_link(1, 4));
    assert_eq!(constructor.get_pairs(), vec![(0, 1), (1, 4)]);
}

#[test]
fn first_draw_is_always_kept() {
    let mut constructor = GraphConstructor::new(10, 300, 1000, 10);
    constructor.add_random_points(3);
    assert_eq!(constructor.point_count(), 1);
}

#[test]
fn new_points_keep_the_links() {
    let mut constructor = GraphConstructor::new(1000, 1000, 5, 10);
    assert!(constructor.try_add_point(Vec2::new(0, 0)));
    assert!(constructor.try_add_point(Vec2::new(100, 100)));
    assert!(constructor.try_add_link(0, 1));
    constructor.add_random_points(20);
    assert_eq!(constructor.get_pairs(), vec![(0, 1)]);
    assert!(constructor.point_count() > 0);
}

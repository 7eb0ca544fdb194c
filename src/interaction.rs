//! The decisions of an interactive view of a generated graph: which node is
//! picked as the start, which node lies under the cursor, when to search and
//! when to build a new graph. Windows, pixels and drawing are left to the caller,
//! which hands over cursor positions already on the grid.
use crate::a_star::{is_walk_between, reachable, walk_cost, NavGraph, NodeState};
use crate::graph_constructor::{well_formed_links, well_separated, GraphConstructor};
use crate::vector::Vec2;
use vstd::prelude::*;

verus! {

/// The view shows the square `[-VIEW_EXTENSION, VIEW_EXTENSION)²` of the grid.
pub const VIEW_EXTENSION: i32 = 10_000;

/// The state of an interactive view: the graph shown, the generator that made
/// it, the cursor, and the node picked as the start of searches.
pub struct InteractionCore {
    cursor_pos: Vec2,
    graph_constructor: GraphConstructor,
    num_of_points: usize,
    num_of_links: usize,
    graph: NavGraph,
    circle_radius: u32,
    node_selected: Option<usize>,
}

impl InteractionCore {
    /// The graph shown.
    pub closed spec fn graph_spec(&self) -> NavGraph {
        self.graph
    }

    /// The node picked as the start of searches.
    pub closed spec fn selected(&self) -> Option<usize> {
        self.node_selected
    }

    /// Where the cursor is.
    pub closed spec fn cursor(&self) -> Vec2 {
        self.cursor_pos
    }

    /// Nodes within this distance of the cursor are under it.
    pub closed spec fn radius(&self) -> u32 {
        self.circle_radius
    }

    /// A new graph has at most this many nodes.
    pub closed spec fn target_points(&self) -> usize {
        self.num_of_points
    }

    /// A new graph has at most this many edges.
    pub closed spec fn target_links(&self) -> usize {
        self.num_of_links
    }

    /// What holds of every graph the generator builds for this view: it has at most
    /// the target numbers of nodes and edges, all its nodes are `Clear`, and it is
    /// empty where no edge could be made.
    pub open spec fn fresh_graph(&self) -> bool {
        let g = self.graph_spec();
        &&& g.node_positions().len() <= self.target_points()
        &&& g.link_seq().len() <= self.target_links()
        &&& g.link_seq().len() == 0 ==> g.node_positions().len() == 0
        &&& g.node_states().len() == g.node_positions().len()
        &&& forall|v: int| 0 <= v < g.node_states().len() ==> #[trigger] g.node_states()[v] == NodeState::Clear
    }

    /// The graph is well formed, and as the generator promises: its nodes keep
    /// their distance and its edges are in reach, distinct, uncrossed and clear.
    pub closed spec fn wf(&self) -> bool {
        &&& self.graph.wf()
        &&& self.graph_constructor.wf()
        &&& self.graph_constructor.extension_spec() == VIEW_EXTENSION
        &&& well_separated(
            self.graph.node_positions(),
            self.graph_constructor.exclusion_distance_spec(),
        )
        &&& well_formed_links(
            self.graph.node_positions(),
            self.graph.link_seq(),
            self.graph_constructor.max_line_length_spec(),
            self.graph_constructor.edge_distance_spec(),
        )
        &&& self.node_selected matches Some(s) ==> s < self.graph.node_positions().len()
    }

    /// Builds a new graph of up to `num_of_points` nodes and `num_of_links` edges.
    /// Where no edge could be made, the new graph is empty.
    fn regenerate(&mut self)
        requires
            old(self).graph_constructor.wf(),
            old(self).graph_constructor.extension_spec() == VIEW_EXTENSION,
        ensures
            final(self).wf(),
            final(self).fresh_graph(),
            final(self).num_of_points == old(self).num_of_points,
            final(self).num_of_links == old(self).num_of_links,
            (final(self).node_selected is None),
            final(self).cursor_pos == old(self).cursor_pos,
            final(self).circle_radius == old(self).circle_radius,
            final(self).graph_constructor.exclusion_distance_spec()
                == old(self).graph_constructor.exclusion_distance_spec(),
            final(self).graph_constructor.max_line_length_spec()
                == old(self).graph_constructor.max_line_length_spec(),
            final(self).graph_constructor.edge_distance_spec()
                == old(self).graph_constructor.edge_distance_spec(),
    {
        self.node_selected = None;
        self.graph_constructor.add_random_points(self.num_of_points);
        self.graph_constructor.add_random_links(self.num_of_links);
        if self.graph_constructor.point_count() > 0 && self.graph_constructor.link_count() > 0 {
            self.graph = self.graph_constructor.generate_graph();
        } else {
            self.graph = NavGraph::new();
        }
        proof {
            self.graph.lemma_wf_facts();
        }
    }

    /// A view whose graph has up to `num_of_points` nodes, farther apart than
    /// `2 * circle_exclusion_radius`, and up to `num_of_links` edges, shorter than
    /// `max_line_length` and passing no node within `edge_distance`. Nodes within
    /// `circle_radius` of the cursor are under it.
    pub fn new(
        circle_radius: u32,
        circle_exclusion_radius: u32,
        max_line_length: u32,
        edge_distance: u32,
        num_of_points: usize,
        num_of_links: usize,
    ) -> (r: InteractionCore)
        requires
            circle_radius < circle_exclusion_radius,
        ensures
            r.wf(),
            r.fresh_graph(),
            r.target_points() == num_of_points,
            r.target_links() == num_of_links,
            (r.selected() is None),
            r.radius() == circle_radius,
            r.cursor() == (Vec2 { x: 0, y: 0 }),
    {
        let graph_constructor = GraphConstructor::new(
            VIEW_EXTENSION,
            max_line_length,
            circle_exclusion_radius,
            edge_distance,
        );
        let mut core = InteractionCore {
            cursor_pos: Vec2::new(0, 0),
            graph_constructor,
            num_of_points,
            num_of_links,
            graph: NavGraph::new(),
            circle_radius,
            node_selected: None,
        };
        core.regenerate();
        core
    }

    /// The graph shown.
    pub fn graph(&self) -> (r: &NavGraph)
        ensures
            *r == self.graph_spec(),
    {
        &self.graph
    }

    /// The node picked as the start of searches.
    pub fn node_selected(&self) -> (r: Option<usize>)
        ensures
            r == self.selected(),
    {
        self.node_selected
    }

    /// Moves the cursor to `position`. Where a start is picked and a node lies
    /// under the cursor, searches a cheapest path from the start to that node:
    /// its nodes, and no others, are then in state `Solution`.
    pub fn set_cursor_pos(&mut self, position: Vec2)
        requires
            old(self).wf(),
        ensures
            final(self).wf(),
            final(self).cursor() == position,
            final(self).selected() == old(self).selected(),
            final(self).radius() == old(self).radius(),
            final(self).graph_spec().node_positions() == old(self).graph_spec().node_positions(),
            final(self).graph_spec().link_seq() == old(self).graph_spec().link_seq(),
            ({
                let g = old(self).graph_spec();
                let hit = g.nearest_within(position, old(self).radius());
                match (old(self).selected(), hit) {
                    (Some(s), Some(d)) => if reachable(g.link_seq(), s, d) {
                        exists|p: Seq<usize>|
                            #[trigger] is_walk_between(g.link_seq(), p, s, d) && (forall|q: Seq<usize>|
                                #[trigger] is_walk_between(g.link_seq(), q, s, d) ==> walk_cost(
                                    g.node_positions(),
                                    p,
                                ) <= walk_cost(g.node_positions(), q)) && (forall|v: usize|
                                v < g.node_positions().len() ==> (
                                #[trigger] final(self).graph_spec().node_states()[v as int]
                                    == NodeState::Solution <==> p.contains(v)))
                    } else {
                        forall|v: usize|
                            v < g.node_positions().len() ==> #[trigger] final(self).graph_spec().node_states()[v as int]
                                != NodeState::Solution
                    },
                    _ => final(self).graph_spec() == g,
                }
            }),
    {
        self.cursor_pos = position;
        if let Some(start) = self.node_selected {
            if let Some(destination) = self.graph.find_nearest_node_with_radius(
                [position.x, position.y],
                self.circle_radius,
            ) {
                let result = self.graph.search_graph(start, destination);
                proof {
                    if let Some(p) = result {
                        assert(is_walk_between(old(self).graph.link_seq(), p@, start, destination));
                    }
                }
            }
        }
    }

    /// Picks the node under the cursor, if any, as the start of searches.
    pub fn pick_node(&mut self)
        requires
            old(self).wf(),
        ensures
            final(self).wf(),
            final(self).graph_spec() == old(self).graph_spec(),
            final(self).cursor() == old(self).cursor(),
            final(self).radius() == old(self).radius(),
            final(self).selected() == (match old(self).graph_spec().nearest_within(
                old(self).cursor(),
                old(self).radius(),
            ) {
                Some(hit) => Some(hit),
                None => old(self).selected(),
            }),
    {
        let position = [self.cursor_pos.x, self.cursor_pos.y];
        if let Some(hit_node) = self.graph.find_nearest_node_with_radius(position, self.circle_radius) {
            self.node_selected = Some(hit_node);
        }
    }

    /// Forgets the picked start and builds a new graph with the same settings.
    pub fn generate_graph(&mut self)
        requires
            old(self).wf(),
        ensures
            final(self).wf(),
            final(self).fresh_graph(),
            final(self).target_points() == old(self).target_points(),
            final(self).target_links() == old(self).target_links(),
            (final(self).selected() is None),
            final(self).cursor() == old(self).cursor(),
            final(self).radius() == old(self).radius(),
    {
        self.regenerate();
    }
}

} // verus!

//! The A* algorithm on two-dimensional navigation graphs.
//!
//! A graph owns positioned nodes, addressed by handles (their indices), and
//! undirected edges. An edge costs the Euclidean distance between its two
//! nodes rounded up to whole grid units; the search estimates the remaining
//! cost by the straight-line distance to the destination rounded down, which
//! never overestimates, so every path the search returns is a cheapest one.
//!
//! Cheapest is meant in these rounded costs. Rounding adds less than one unit
//! to each edge, so a returned path may be longer in true Euclidean distance
//! than a shortest one, by less than one unit per edge of that shortest path.
use crate::vector::{dist_down, dist_up, max_dist, sq_dist, Vec2};
use vstd::prelude::*;

verus! {

/// The state a node is in during and after a search.
#[derive(Clone, Copy, Debug, PartialEq, Eq, Structural)]
pub enum NodeState {
    /// Not reached by the search.
    Clear,
    /// Reached, and still waiting in the open set.
    Visited,
    /// Taken out of the open set: its cost from the start is final.
    Closed,
    /// Part of the path that the last search returned.
    Solution,
}

/// The neighbours of `v`, in the order the links in `links` connected them.
/// A link `(a, b)` makes `b` a neighbour of `a` and `a` one of `b`.
pub open spec fn adj_of(links: Seq<(usize, usize)>, v: usize) -> Seq<usize>
    decreases links.len(),
{
    if links.len() == 0 {
        Seq::empty()
    } else {
        let l = links.last();
        let before = adj_of(links.drop_last(), v);
        let with_first = if l.0 == v {
            before.push(l.1)
        } else {
            before
        };
        if l.1 == v {
            with_first.push(l.0)
        } else {
            with_first
        }
    }
}

/// An edge joins `a` and `b`.
pub open spec fn adjacent(links: Seq<(usize, usize)>, a: usize, b: usize) -> bool {
    adj_of(links, a).contains(b)
}

/// `p` is a non-empty sequence of handles in which each two consecutive ones are joined by an edge.
pub open spec fn is_walk(links: Seq<(usize, usize)>, p: Seq<usize>) -> bool {
    &&& p.len() > 0
    &&& forall|i: int| 0 <= i < p.len() - 1 ==> #[trigger] adjacent(links, p[i], p[i + 1])
}

/// `p` is a walk from `s` to `d`.
pub open spec fn is_walk_between(links: Seq<(usize, usize)>, p: Seq<usize>, s: usize, d: usize) -> bool {
    is_walk(links, p) && p[0] == s && p.last() == d
}

/// Some walk leads from `s` to `d`.
pub open spec fn reachable(links: Seq<(usize, usize)>, s: usize, d: usize) -> bool {
    exists|p: Seq<usize>| #[trigger] is_walk_between(links, p, s, d)
}

/// The cost of a walk: the sum of the costs of its edges.
pub open spec fn walk_cost(pos: Seq<Vec2>, p: Seq<usize>) -> nat
    decreases p.len(),
{
    if p.len() <= 1 {
        0
    } else {
        walk_cost(pos, p.drop_last()) + dist_up(pos[p[p.len() - 2] as int], pos[p.last() as int])
    }
}

/// The links of `links` whose two ends are both in state `Solution` (if `on_path`)
/// or not both (otherwise), in their order.
pub open spec fn links_by_solution(links: Seq<(usize, usize)>, states: Seq<NodeState>, on_path: bool) -> Seq<
    (usize, usize),
>
    decreases links.len(),
{
    if links.len() == 0 {
        Seq::empty()
    } else {
        let l = links.last();
        let before = links_by_solution(links.drop_last(), states, on_path);
        let both = states[l.0 as int] == NodeState::Solution && states[l.1 as int] == NodeState::Solution;
        if both == on_path {
            before.push(l)
        } else {
            before
        }
    }
}

/// Node `i` is nearest to `p` among `pos`, and no node before it is as near.
pub open spec fn is_nearest(pos: Seq<Vec2>, p: Vec2, i: int) -> bool {
    &&& 0 <= i < pos.len()
    &&& forall|j: int| 0 <= j < pos.len() ==> sq_dist(pos[i], p) <= #[trigger] sq_dist(pos[j], p)
    &&& forall|j: int| 0 <= j < i ==> sq_dist(pos[i], p) < #[trigger] sq_dist(pos[j], p)
}

/// The connection list `c` of node `v` mirrors its neighbours, with the cost of each edge.
pub open spec fn connections_match(
    positions: Seq<Vec2>,
    links: Seq<(usize, usize)>,
    c: Seq<(usize, u64)>,
    v: usize,
) -> bool {
    let a = adj_of(links, v);
    &&& c.len() == a.len()
    &&& forall|j: int|
        0 <= j < c.len() ==> {
            &&& (#[trigger] c[j]).0 == a[j]
            &&& c[j].0 < positions.len()
            &&& c[j].1 == dist_up(positions[v as int], positions[c[j].0 as int])
        }
}

/// A graph of positioned nodes and undirected edges, with the state of the last search.
pub struct NavGraph {
    positions: Vec<Vec2>,
    connections: Vec<Vec<(usize, u64)>>,
    links: Vec<(usize, usize)>,
    states: Vec<NodeState>,
    ancestors: Vec<usize>,
    g_values: Vec<u128>,
    f_values: Vec<u128>,
}

impl NavGraph {
    /// The positions of the nodes, by handle.
    pub closed spec fn node_positions(&self) -> Seq<Vec2> {
        self.positions@
    }

    /// The edges, in the order they were made.
    pub closed spec fn link_seq(&self) -> Seq<(usize, usize)> {
        self.links@
    }

    /// The states of the nodes, by handle.
    pub closed spec fn node_states(&self) -> Seq<NodeState> {
        self.states@
    }

    /// The graph's internal consistency.
    pub closed spec fn wf(&self) -> bool {
        let n = self.positions@.len();
        &&& self.connections@.len() == n
        &&& self.states@.len() == n
        &&& self.ancestors@.len() == n
        &&& self.g_values@.len() == n
        &&& self.f_values@.len() == n
        &&& forall|k: int|
            0 <= k < self.links@.len() ==> (#[trigger] self.links@[k]).0 < n && self.links@[k].1 < n
        &&& forall|v: usize|
            v < n ==> #[trigger] connections_match(
                self.positions@,
                self.links@,
                self.connections@[v as int]@,
                v,
            )
    }

    /// The node nearest to `p`, as `is_nearest` picks it, where it lies within
    /// `radius` of `p`; else `None`.
    pub closed spec fn nearest_within(&self, p: Vec2, radius: u32) -> Option<usize> {
        if exists|i: int| #[trigger] is_nearest(self.positions@, p, i) && sq_dist(self.positions@[i], p)
            <= radius * radius {
            Some((choose|i: int| #[trigger] is_nearest(self.positions@, p, i) && sq_dist(self.positions@[i], p)
                <= radius * radius) as usize)
        } else {
            None
        }
    }

    /// The scratch state of the graph with the open list `open`.
    spec fn snapshot(&self, open: Seq<usize>) -> SearchState {
        SearchState {
            states: self.states@,
            g: self.g_values@,
            f: self.f_values@,
            anc: self.ancestors@,
            open: open,
        }
    }

    /// The straight-line estimate from `v` to `dest`, rounded down.
    spec fn estimate(&self, v: usize, dest: usize) -> nat {
        dist_down(self.positions@[v as int], self.positions@[dest as int])
    }

    /// The cost of the edge from `a` to `b`.
    spec fn cost(&self, a: usize, b: usize) -> nat {
        dist_up(self.positions@[a as int], self.positions@[b as int])
    }

    /// The open list holds exactly the visited nodes, each once.
    spec fn open_ok(&self, open: Seq<usize>) -> bool {
        let n = self.positions@.len();
        &&& open.no_duplicates()
        &&& forall|i: int| 0 <= i < open.len() ==> (#[trigger] open[i]) < n
        &&& forall|v: usize|
            #![trigger self.states@[v as int]]
            #![trigger open.contains(v)]
            v < n ==> (self.states@[v as int] == NodeState::Visited <==> open.contains(v))
    }

    /// The values of the reached nodes are consistent and bounded.
    spec fn scratch_ok(&self, start: usize, dest: usize, cnt: nat) -> bool {
        let n = self.positions@.len();
        &&& forall|v: usize|
            #![trigger self.states@[v as int]]
            v < n ==> self.states@[v as int] != NodeState::Solution
        &&& forall|v: usize|
            #![trigger self.f_values@[v as int]]
            v < n && self.states@[v as int] != NodeState::Clear ==> self.f_values@[v as int]
                == self.g_values@[v as int] + self.estimate(v, dest)
        &&& forall|v: usize|
            #![trigger self.g_values@[v as int]]
            v < n && self.states@[v as int] != NodeState::Clear ==> self.g_values@[v as int]
                <= cnt * max_dist()
        &&& self.states@[start as int] != NodeState::Clear
        &&& self.g_values@[start as int] == 0
        &&& self.states@[dest as int] != NodeState::Closed
    }

    /// Each reached node but the start has a closed ancestor, one edge away, through
    /// which its cost is reached; closed nodes were closed after their ancestors.
    spec fn ancestry_ok(&self, start: usize, rank: Seq<nat>, cnt: nat) -> bool {
        let n = self.positions@.len();
        &&& rank.len() == n
        &&& forall|v: usize|
            #![trigger rank[v as int]]
            v < n && self.states@[v as int] == NodeState::Closed ==> rank[v as int] < cnt
        &&& forall|v: usize|
            #![trigger self.ancestors@[v as int]]
            v < n && v != start && self.states@[v as int] != NodeState::Clear ==> {
                let a = self.ancestors@[v as int];
                &&& a < n
                &&& self.states@[a as int] == NodeState::Closed
                &&& adjacent(self.links@, a, v)
                &&& self.g_values@[v as int] == self.g_values@[a as int] + self.cost(a, v)
                &&& (self.states@[v as int] == NodeState::Closed ==> rank[a as int] < rank[v as int])
            }
    }

    /// The `j`-th neighbour of `y` has been reached, and if still open, costs no
    /// more than the way through `y`.
    spec fn relaxed(&self, y: usize, j: int) -> bool {
        let x = adj_of(self.links@, y)[j];
        &&& self.states@[x as int] != NodeState::Clear
        &&& (self.states@[x as int] == NodeState::Visited ==> self.g_values@[x as int]
            <= self.g_values@[y as int] + self.cost(y, x))
    }

    /// Every neighbour of a closed node is relaxed, but those of `u` from the `done`-th on.
    spec fn frontier_ok(&self, u: usize, done: int) -> bool {
        forall|y: usize, j: int|
            y < self.positions@.len() && self.states@[y as int] == NodeState::Closed && 0 <= j < adj_of(
                self.links@,
                y,
            ).len() && (y != u || j < done) ==> #[trigger] self.relaxed(y, j)
    }

    /// Every neighbour of every closed node is relaxed.
    spec fn frontier_all(&self) -> bool {
        forall|y: usize, j: int|
            y < self.positions@.len() && self.states@[y as int] == NodeState::Closed && 0 <= j < adj_of(
                self.links@,
                y,
            ).len() ==> #[trigger] self.relaxed(y, j)
    }

    /// Every closed node costs no more than any walk from the start to it.
    spec fn optimal_ok(&self, start: usize) -> bool {
        forall|y: usize, q: Seq<usize>|
            y < self.positions@.len() && self.states@[y as int] == NodeState::Closed
                && #[trigger] is_walk_between(self.links@, q, start, y) ==> self.g_values@[y as int]
                <= walk_cost(self.positions@, q)
    }

    /// A walk that leaves the closed nodes crosses from a closed node to one that is not.
    proof fn lemma_crossing(&self, q: Seq<usize>, k: int) -> (j: int)
        requires
            0 <= k < q.len(),
            forall|i: int| 0 <= i < q.len() ==> #[trigger] q[i] < self.positions@.len(),
            self.states@[q[k] as int] == NodeState::Closed,
            self.states@[q.last() as int] != NodeState::Closed,
        ensures
            k < j < q.len(),
            self.states@[q[j - 1] as int] == NodeState::Closed,
            self.states@[q[j] as int] != NodeState::Closed,
        decreases q.len() - k,
    {
        if self.states@[q[k + 1] as int] != NodeState::Closed {
            k + 1
        } else {
            self.lemma_crossing(q, k + 1)
        }
    }

    /// The open node of least estimated total cost is as cheap as any walk to it.
    proof fn lemma_closing_optimal(&self, open: Seq<usize>, start: usize, dest: usize, best: int)
        requires
            self.wf(),
            start < self.positions@.len(),
            dest < self.positions@.len(),
            self.open_ok(open),
            self.scratch_ok(start, dest, count_closed(self.states@)),
            self.frontier_all(),
            count_closed(self.states@) > 0 ==> self.states@[start as int] == NodeState::Closed,
            count_closed(self.states@) == 0 ==> open == seq![start],
            self.optimal_ok(start),
            0 <= best < open.len(),
            forall|k: int|
                0 <= k < open.len() ==> self.f_values@[open[best] as int]
                    <= #[trigger] self.f_values@[open[k] as int],
        ensures
            forall|q: Seq<usize>|
                #[trigger] is_walk_between(self.links@, q, start, open[best]) ==> self.g_values@[open[best] as int]
                    <= walk_cost(self.positions@, q),
    {
        let u = open[best];
        let n = self.positions@.len();
        let pos = self.positions@;
        let links = self.links@;
        assert(self.states@[u as int] == NodeState::Visited);
        assert forall|q: Seq<usize>| #[trigger] is_walk_between(links, q, start, u) implies self.g_values@[u as int]
            <= walk_cost(pos, q) by {
            if count_closed(self.states@) == 0 {
                assert(u == start);
            } else {
                lemma_walk_bound(links, q, n);
                let j = self.lemma_crossing(q, 0);
                let y = q[j - 1];
                let x = q[j];
                assert(adjacent(links, q[j - 1], q[(j - 1) + 1]));
                let idx = choose|idx: int| 0 <= idx < adj_of(links, y).len() && adj_of(links, y)[idx] == x;
                assert(self.relaxed(y, idx));
                assert(self.states@[x as int] == NodeState::Visited);
                assert(open.contains(x));
                let kx = choose|kx: int| 0 <= kx < open.len() && open[kx] == x;
                assert(self.f_values@[open[kx] as int] >= self.f_values@[u as int]);
                let pre = q.subrange(0, j);
                assert forall|i: int| 0 <= i < pre.len() - 1 implies #[trigger] adjacent(links, pre[i], pre[i + 1]) by {
                    assert(adjacent(links, q[i], q[i + 1]));
                }
                assert(is_walk_between(links, pre, start, y));
                assert(self.g_values@[y as int] <= walk_cost(pos, pre));
                let upto = q.subrange(0, j + 1);
                assert(upto.drop_last() =~= pre);
                assert(walk_cost(pos, upto) == walk_cost(pos, pre) + self.cost(y, x));
                lemma_walk_cost_split(pos, q, j);
                let rest = q.subrange(j, q.len() as int);
                lemma_estimate_along_walk(pos, rest, pos[dest as int]);
                assert(rest[0] == x);
                assert(rest.last() == u);
            }
        }
    }

    /// With no open node left, every walk from the start ends at a closed node.
    proof fn lemma_exhausted(&self, start: usize, q: Seq<usize>)
        requires
            self.wf(),
            start < self.positions@.len(),
            self.states@[start as int] == NodeState::Closed,
            forall|v: usize| v < self.positions@.len() ==> #[trigger] self.states@[v as int] != NodeState::Visited
                && self.states@[v as int] != NodeState::Solution,
            self.frontier_all(),
            is_walk(self.links@, q),
            q[0] == start,
        ensures
            self.states@[q.last() as int] == NodeState::Closed,
        decreases q.len(),
    {
        let links = self.links@;
        let n = self.positions@.len();
        if q.len() > 1 {
            let p = q.drop_last();
            assert forall|i: int| 0 <= i < p.len() - 1 implies #[trigger] adjacent(links, p[i], p[i + 1]) by {
                assert(adjacent(links, q[i], q[i + 1]));
            }
            self.lemma_exhausted(start, p);
            lemma_walk_bound(links, q, n);
            let i = q.len() - 2;
            let y = q[i];
            let x = q[i + 1];
            assert(adjacent(links, q[i], q[i + 1]));
            let idx = choose|idx: int| 0 <= idx < adj_of(links, y).len() && adj_of(links, y)[idx] == x;
            assert(self.relaxed(y, idx));
        }
    }

    /// One relaxation step of the search keeps its invariants.
    proof fn lemma_relax_step(
        &self,
        before: NavGraph,
        open_before: Seq<usize>,
        open: Seq<usize>,
        start: usize,
        dest: usize,
        u: usize,
        j: int,
        cnt: nat,
        rank: Seq<nat>,
    )
        requires
            before.wf(),
            self.positions@ == before.positions@,
            self.links@ == before.links@,
            self.connections@ == before.connections@,
            self.states@.len() == before.states@.len(),
            self.g_values@.len() == before.g_values@.len(),
            self.f_values@.len() == before.f_values@.len(),
            self.ancestors@.len() == before.ancestors@.len(),
            start < before.positions@.len(),
            dest < before.positions@.len(),
            u < before.positions@.len(),
            0 <= j < before.connections@[u as int]@.len(),
            before.states@[u as int] == NodeState::Closed,
            before.states@[start as int] == NodeState::Closed,
            before.g_values@[u as int] + max_dist() <= cnt * max_dist(),
            cnt * max_dist() <= 0x2_0000_0000_0000_0000_0000_0000,
            before.open_ok(open_before),
            before.scratch_ok(start, dest, cnt),
            before.ancestry_ok(start, rank, cnt),
            before.frontier_ok(u, j),
            before.optimal_ok(start),
            ({
                let x = before.connections@[u as int]@[j].0;
                let w = before.connections@[u as int]@[j].1;
                let new_g = before.g_values@[u as int] + w;
                let h = dist_down(before.positions@[x as int], before.positions@[dest as int]);
                let sx = before.states@[x as int];
                if sx == NodeState::Clear {
                    &&& self.states@ == before.states@.update(x as int, NodeState::Visited)
                    &&& self.g_values@ == before.g_values@.update(x as int, new_g as u128)
                    &&& self.f_values@ == before.f_values@.update(x as int, (new_g + h) as u128)
                    &&& self.ancestors@ == before.ancestors@.update(x as int, u)
                    &&& open == open_before.push(x)
                } else if sx == NodeState::Visited && new_g < before.g_values@[x as int] {
                    &&& self.states@ == before.states@
                    &&& self.g_values@ == before.g_values@.update(x as int, new_g as u128)
                    &&& self.f_values@ == before.f_values@.update(x as int, (new_g + h) as u128)
                    &&& self.ancestors@ == before.ancestors@.update(x as int, u)
                    &&& open == open_before
                } else {
                    &&& self.states@ == before.states@
                    &&& self.g_values@ == before.g_values@
                    &&& self.f_values@ == before.f_values@
                    &&& self.ancestors@ == before.ancestors@
                    &&& open == open_before
                }
            }),
        ensures
            self.wf(),
            self.open_ok(open),
            self.scratch_ok(start, dest, cnt),
            self.ancestry_ok(start, rank, cnt),
            self.frontier_ok(u, j + 1),
            self.optimal_ok(start),
            self.states@[u as int] == NodeState::Closed,
            self.states@[start as int] == NodeState::Closed,
            self.g_values@[u as int] == before.g_values@[u as int],
            count_closed(self.states@) == count_closed(before.states@),
    {
        let n = before.positions@.len();
        let links = before.links@;
        let pos = before.positions@;
        assert(connections_match(pos, links, before.connections@[u as int]@, u));
        let x = before.connections@[u as int]@[j].0;
        let w = before.connections@[u as int]@[j].1;
        assert(x == adj_of(links, u)[j]);
        assert(x < n);
        assert(adjacent(links, u, x));
        assert(w == before.cost(u, x));
        crate::vector::lemma_dist_bounds(pos[u as int], pos[x as int]);
        crate::vector::lemma_dist_bounds(pos[x as int], pos[dest as int]);
        let sx = before.states@[x as int];
        assert(sx != NodeState::Solution);
        let new_g = before.g_values@[u as int] + w;
        let changed = sx == NodeState::Clear || (sx == NodeState::Visited && new_g < before.g_values@[x as int]);
        if sx == NodeState::Clear {
            lemma_count_closed_update(before.states@, x as int, NodeState::Visited);
        }
        assert(self.wf());
        if !changed {
            assert(self.states@ == before.states@);
            assert(self.relaxed(u, j));
            assert forall|y: usize, jj: int|
                y < n && self.states@[y as int] == NodeState::Closed && 0 <= jj < adj_of(links, y).len()
                    && (y != u || jj < j + 1) implies #[trigger] self.relaxed(y, jj) by {
                if !(y == u && jj == j) {
                    assert(before.relaxed(y, jj));
                }
            }
        } else {
            assert(x != u);
            assert(x != start);
            // the open list
            if sx == NodeState::Clear {
                assert(!open_before.contains(x));
                assert forall|i: int| 0 <= i < open.len() implies (#[trigger] open[i]) < n by {
                    if i < open_before.len() {
                        assert(open[i] == open_before[i]);
                    }
                }
                assert forall|a: int, b: int| 0 <= a < open.len() && 0 <= b < open.len() && a != b implies open[a] != open[b] by {
                    if a < open_before.len() && b < open_before.len() {
                        assert(open[a] == open_before[a]);
                        assert(open[b] == open_before[b]);
                    } else if a < open_before.len() {
                        assert(open[a] == open_before[a]);
                    } else if b < open_before.len() {
                        assert(open[b] == open_before[b]);
                    }
                }
                assert forall|v: usize|
                    #![trigger self.states@[v as int]]
                    #![trigger open.contains(v)]
                    v < n implies (self.states@[v as int] == NodeState::Visited <==> open.contains(v)) by {
                    assert(before.states@[v as int] == NodeState::Visited <==> open_before.contains(v));
                    if v == x {
                        assert(open[open.len() - 1] == x);
                    } else {
                        if open.contains(v) {
                            let i = choose|i: int| 0 <= i < open.len() && open[i] == v;
                            assert(open_before[i] == v);
                        }
                        if open_before.contains(v) {
                            let i = choose|i: int| 0 <= i < open_before.len() && open_before[i] == v;
                            assert(open[i] == v);
                        }
                    }
                }
            } else {
                assert forall|v: usize|
                    #![trigger self.states@[v as int]]
                    #![trigger open.contains(v)]
                    v < n implies (self.states@[v as int] == NodeState::Visited <==> open.contains(v)) by {
                    assert(before.states@[v as int] == NodeState::Visited <==> open_before.contains(v));
                }
            }
            // the values
            assert forall|v: usize| #![trigger self.states@[v as int]] v < n implies self.states@[v as int] != NodeState::Solution by {
                assert(before.states@[v as int] != NodeState::Solution);
            }
            assert forall|v: usize|
                #![trigger self.f_values@[v as int]]
                v < n && self.states@[v as int] != NodeState::Clear implies self.f_values@[v as int]
                    == self.g_values@[v as int] + self.estimate(v, dest) by {
                if v != x {
                    assert(before.f_values@[v as int] == before.g_values@[v as int] + before.estimate(v, dest));
                }
            }
            assert forall|v: usize|
                #![trigger self.g_values@[v as int]]
                v < n && self.states@[v as int] != NodeState::Clear implies self.g_values@[v as int]
                    <= cnt * max_dist() by {
                if v != x {
                    assert(before.g_values@[v as int] <= cnt * max_dist());
                } else {
                    assert(before.states@[x as int] != NodeState::Clear ==> before.g_values@[x as int] <= cnt * max_dist());
                }
            }
            // the ancestors
            assert forall|v: usize|
                #![trigger rank[v as int]]
                v < n && self.states@[v as int] == NodeState::Closed implies rank[v as int] < cnt by {
                assert(before.states@[v as int] == NodeState::Closed);
            }
            assert forall|v: usize|
                #![trigger self.ancestors@[v as int]]
                v < n && v != start && self.states@[v as int] != NodeState::Clear implies {
                    let a = self.ancestors@[v as int];
                    &&& a < n
                    &&& self.states@[a as int] == NodeState::Closed
                    &&& adjacent(self.links@, a, v)
                    &&& self.g_values@[v as int] == self.g_values@[a as int] + self.cost(a, v)
                    &&& (self.states@[v as int] == NodeState::Closed ==> rank[a as int] < rank[v as int])
                } by {
                if v == x && self.ancestors@[v as int] == u {
                    assert(self.states@[u as int] == NodeState::Closed);
                } else {
                    assert(before.ancestors@[v as int] == self.ancestors@[v as int]);
                    assert(before.states@[v as int] != NodeState::Clear);
                    let a = before.ancestors@[v as int];
                    assert(before.states@[a as int] == NodeState::Closed);
                    assert(a != x);
                }
            }
            // the frontier
            assert forall|y: usize, jj: int|
                y < n && self.states@[y as int] == NodeState::Closed && 0 <= jj < adj_of(links, y).len()
                    && (y != u || jj < j + 1) implies #[trigger] self.relaxed(y, jj) by {
                assert(before.states@[y as int] == NodeState::Closed);
                assert(y != x);
                if !(y == u && jj == j) {
                    assert(before.relaxed(y, jj));
                    assert(connections_match(pos, links, before.connections@[y as int]@, y));
                    let xx = adj_of(links, y)[jj];
                    assert(xx == before.connections@[y as int]@[jj].0);
                    assert(xx < n);
                    if xx == x {
                        assert(sx != NodeState::Clear);
                    }
                }
            }
            // the optimality of closed nodes
            assert forall|y: usize, q: Seq<usize>|
                y < n && self.states@[y as int] == NodeState::Closed && #[trigger] is_walk_between(
                    links,
                    q,
                    start,
                    y,
                ) implies self.g_values@[y as int] <= walk_cost(pos, q) by {
                assert(before.states@[y as int] == NodeState::Closed);
                assert(y != x);
                assert(before.g_values@[y as int] <= walk_cost(pos, q));
            }
        }
    }

    fn reset_graph_search(&mut self)
        requires
            old(self).wf(),
        ensures
            final(self).wf(),
            final(self).positions@ == old(self).positions@,
            final(self).links@ == old(self).links@,
            forall|v: int| 0 <= v < final(self).states@.len() ==> #[trigger] final(self).states@[v] == NodeState::Clear,
            forall|v: int| 0 <= v < final(self).g_values@.len() ==> #[trigger] final(self).g_values@[v] == 0,
            forall|v: int| 0 <= v < final(self).f_values@.len() ==> #[trigger] final(self).f_values@[v] == 0,
            forall|v: int| 0 <= v < final(self).ancestors@.len() ==> #[trigger] final(self).ancestors@[v] == 0,
    {
        let n = self.states.len();
        let mut i: usize = 0;
        while i < n
            invariant
                self.wf(),
                n == self.states@.len(),
                i <= n,
                self.positions@ == old(self).positions@,
                self.links@ == old(self).links@,
                self.connections@ == old(self).connections@,
                forall|v: int| 0 <= v < i ==> #[trigger] self.states@[v] == NodeState::Clear,
                forall|v: int| 0 <= v < i ==> #[trigger] self.g_values@[v] == 0,
                forall|v: int| 0 <= v < i ==> #[trigger] self.f_values@[v] == 0,
                forall|v: int| 0 <= v < i ==> #[trigger] self.ancestors@[v] == 0,
            decreases n - i,
        {
            self.states[i] = NodeState::Clear;
            self.g_values[i] = 0;
            self.f_values[i] = 0;
            self.ancestors[i] = 0;
            i = i + 1;
        }
    }

    /// Follows the ancestors back from `dest` to `start`, marks the nodes on the
    /// way as the solution, and returns them from `start` to `dest`.
    fn get_path(&mut self, start: usize, dest: usize, Ghost(rank): Ghost<Seq<nat>>) -> (path: Vec<usize>)
        requires
            old(self).wf(),
            start < old(self).positions@.len(),
            dest < old(self).positions@.len(),
            old(self).ancestry_ok(start, rank, count_closed(old(self).states@)),
            old(self).states@[dest as int] == NodeState::Closed,
            old(self).g_values@[start as int] == 0,
            count_closed(old(self).states@) <= old(self).positions@.len(),
            forall|v: usize| v < old(self).positions@.len() ==> #[trigger] old(self).states@[v as int] != NodeState::Solution,
        ensures
            path@ == ancestor_path(old(self).ancestors@, start, dest, old(self).positions@.len()),
            final(self).wf(),
            final(self).positions@ == old(self).positions@,
            final(self).links@ == old(self).links@,
            is_walk_between(old(self).links@, path@, start, dest),
            walk_cost(old(self).positions@, path@) == old(self).g_values@[dest as int],
            start == dest ==> path@ == seq![start],
            forall|v: usize| v < old(self).positions@.len() ==> (#[trigger] final(self).states@[v as int] == NodeState::Solution <==> path@.contains(v)),
    {
        let ghost n = self.positions@.len();
        let ghost links = self.links@;
        let ghost pos = self.positions@;
        let ghost g = self.g_values@;
        let ghost s0 = self.states@;
        let mut chain: Vec<usize> = Vec::new();
        chain.push(dest);
        let mut scan = dest;
        while scan != start
            invariant
                self.wf(),
                self == old(self),
                pos == self.positions@,
                links == self.links@,
                g == self.g_values@,
                n == self.positions@.len(),
                start < n,
                self.ancestry_ok(start, rank, count_closed(self.states@)),
                chain@.len() >= 1,
                chain@[0] == dest,
                chain@.last() == scan,
                scan < n,
                self.states@[scan as int] == NodeState::Closed,
                rank[scan as int] + (chain@.len() - 1) <= rank[dest as int],
                forall|i: int| 0 <= i < chain@.len() ==> #[trigger] chain@[i] < n,
                forall|i: int|
                    0 <= i < chain@.len() - 1 ==> {
                        &&& chain@[i] != start
                        &&& chain@[i + 1] == self.ancestors@[chain@[i] as int]
                        &&& adjacent(links, chain@[i + 1], #[trigger] chain@[i])
                        &&& g[chain@[i] as int] == g[chain@[i + 1] as int] + dist_up(
                            pos[chain@[i + 1] as int],
                            pos[chain@[i] as int],
                        )
                    },
            decreases rank[scan as int],
        {
            let ghost before = chain@;
            scan = self.ancestors[scan];
            chain.push(scan);
            proof {
                assert(chain@.drop_last() == before);
                assert forall|i: int|
                    0 <= i < chain@.len() - 1 implies {
                        &&& chain@[i] != start
                        &&& chain@[i + 1] == self.ancestors@[chain@[i] as int]
                        &&& adjacent(links, chain@[i + 1], #[trigger] chain@[i])
                        &&& g[chain@[i] as int] == g[chain@[i + 1] as int] + dist_up(
                            pos[chain@[i + 1] as int],
                            pos[chain@[i] as int],
                        )
                    } by {
                    if i < chain@.len() - 2 {
                        assert(chain@[i] == before[i]);
                        assert(chain@[i + 1] == before[i + 1]);
                    } else {
                        let sc = before.last();
                        assert(chain@[i] == sc);
                        assert(chain@[i + 1] == self.ancestors@[sc as int]);
                    }
                }
            }
        }
        proof {
            assert(rank[dest as int] < count_closed(self.states@));
            assert forall|j: int| 0 <= j < chain@.len() - 1 implies #[trigger] chain@[j] != start
                && chain@[j + 1] == self.ancestors@[chain@[j] as int] by {}
            lemma_chain_path(self.ancestors@, start, chain@, 0, n);
        }
        let ghost anc = self.ancestors@;
        let mut path: Vec<usize> = Vec::new();
        let mut k: usize = chain.len();
        while k > 0
            invariant
                self.wf(),
                self.positions@ == pos,
                self.links@ == links,
                self.g_values@ == g,
                n == self.positions@.len(),
                self.states@.len() == n,
                start < n,
                chain@.len() >= 1,
                chain@[0] == dest,
                chain@.last() == start,
                forall|i: int| 0 <= i < chain@.len() ==> #[trigger] chain@[i] < n,
                forall|i: int|
                    0 <= i < chain@.len() - 1 ==> {
                        &&& adjacent(links, chain@[i + 1], #[trigger] chain@[i])
                        &&& g[chain@[i] as int] == g[chain@[i + 1] as int] + dist_up(
                            pos[chain@[i + 1] as int],
                            pos[chain@[i] as int],
                        )
                    },
                g[start as int] == 0,
                k <= chain@.len(),
                path@.len() == chain@.len() - k,
                forall|i: int| 0 <= i < path@.len() ==> #[trigger] path@[i] == chain@[chain@.len() - 1 - i],
                path@.len() > 0 ==> is_walk(links, path@) && path@[0] == start && walk_cost(pos, path@)
                    == g[path@.last() as int] && path@.last() == chain@[k as int],
                forall|v: usize|
                    v < n ==> (#[trigger] self.states@[v as int] == NodeState::Solution <==> path@.contains(v)),
            decreases k,
        {
            k = k - 1;
            let v = chain[k];
            let ghost before = path@;
            path.push(v);
            self.states[v] = NodeState::Solution;
            proof {
                if before.len() > 0 {
                    assert(path@.drop_last() == before);
                    assert forall|i: int| 0 <= i < path@.len() - 1 implies #[trigger] adjacent(links, path@[i], path@[i + 1]) by {
                        if i < path@.len() - 2 {
                            assert(adjacent(links, before[i], before[i + 1]));
                        } else {
                            assert(path@[i] == chain@[k as int + 1]);
                        }
                    }
                } else {
                    assert(v == start);
                }
                assert forall|w: usize| w < n implies (#[trigger] self.states@[w as int] == NodeState::Solution <==> path@.contains(w)) by {
                    if w == v {
                        assert(path@[path@.len() - 1] == v);
                    } else {
                        assert(path@.contains(w) ==> before.contains(w)) by {
                            if path@.contains(w) {
                                let i = choose|i: int| 0 <= i < path@.len() && path@[i] == w;
                                assert(before[i] == w);
                            }
                        }
                        assert(before.contains(w) ==> path@.contains(w)) by {
                            if before.contains(w) {
                                let i = choose|i: int| 0 <= i < before.len() && before[i] == w;
                                assert(path@[i] == w);
                            }
                        }
                    }
                }
            }
        }
        proof {
            if start == dest {
                assert(path@ =~= seq![start]);
            }
            assert(path@ =~= Seq::new(chain@.len() as nat, |k: int| chain@[chain@.len() - 1 - k]));
        }
        path
    }

    /// A well-formed graph has one state per node, and its links and neighbours
    /// are handles of nodes.
    pub proof fn lemma_wf_facts(&self)
        requires
            self.wf(),
        ensures
            self.node_states().len() == self.node_positions().len(),
            forall|k: int|
                0 <= k < self.link_seq().len() ==> (#[trigger] self.link_seq()[k]).0
                    < self.node_positions().len() && self.link_seq()[k].1 < self.node_positions().len(),
            forall|v: usize, j: int|
                0 <= j < adj_of(self.link_seq(), v).len() ==> #[trigger] adj_of(self.link_seq(), v)[j]
                    < self.node_positions().len(),
    {
        assert forall|v: usize, j: int|
            0 <= j < adj_of(self.link_seq(), v).len() implies #[trigger] adj_of(self.link_seq(), v)[j]
            < self.node_positions().len() by {
            lemma_adj_of_bound(self.links@, v, self.positions@.len());
        }
    }

    /// An empty graph.
    pub fn new() -> (r: NavGraph)
        ensures
            r.wf(),
            r.node_positions() == Seq::<Vec2>::empty(),
            r.link_seq() == Seq::<(usize, usize)>::empty(),
            r.node_states() == Seq::<NodeState>::empty(),
    {
        NavGraph {
            positions: Vec::new(),
            connections: Vec::new(),
            links: Vec::new(),
            states: Vec::new(),
            ancestors: Vec::new(),
            g_values: Vec::new(),
            f_values: Vec::new(),
        }
    }

    /// The number of nodes.
    pub fn node_count(&self) -> (r: usize)
        requires
            self.wf(),
        ensures
            r == self.node_positions().len(),
    {
        self.positions.len()
    }

    /// Every node with its position and its state after the last search.
    pub fn get_all_nodes_with_state(&self) -> (r: Vec<(Vec2, NodeState)>)
        requires
            self.wf(),
        ensures
            r@.len() == self.node_positions().len(),
            forall|i: int|
                0 <= i < r@.len() ==> #[trigger] r@[i] == (
                self.node_positions()[i],
                self.node_states()[i],
            ),
    {
        let mut r: Vec<(Vec2, NodeState)> = Vec::new();
        let mut i: usize = 0;
        while i < self.positions.len()
            invariant
                self.wf(),
                i <= self.positions@.len(),
                r@.len() == i,
                forall|j: int|
                    0 <= j < i ==> #[trigger] r@[j] == (self.positions@[j], self.states@[j]),
            decreases self.positions@.len() - i,
        {
            r.push((self.positions[i], self.states[i]));
            i = i + 1;
        }
        r
    }

    /// Both ends of a link belong to the path of the last search.
    fn is_solution_link(&self, start_node: usize, end_node: usize) -> (r: bool)
        requires
            self.wf(),
            start_node < self.node_positions().len(),
            end_node < self.node_positions().len(),
        ensures
            r == (self.node_states()[start_node as int] == NodeState::Solution
                && self.node_states()[end_node as int] == NodeState::Solution),
    {
        self.states[start_node] == NodeState::Solution && self.states[end_node]
            == NodeState::Solution
    }

    /// Every link with the positions of its ends, and whether both ends belong to
    /// the path of the last search.
    pub fn get_all_links_with_solution_hint(&self) -> (r: Vec<(Vec2, Vec2, bool)>)
        requires
            self.wf(),
        ensures
            r@.len() == self.link_seq().len(),
            forall|k: int|
                0 <= k < r@.len() ==> #[trigger] r@[k] == (
                self.node_positions()[self.link_seq()[k].0 as int],
                self.node_positions()[self.link_seq()[k].1 as int],
                self.node_states()[self.link_seq()[k].0 as int] == NodeState::Solution
                    && self.node_states()[self.link_seq()[k].1 as int] == NodeState::Solution,
            ),
    {
        let mut r: Vec<(Vec2, Vec2, bool)> = Vec::new();
        let mut k: usize = 0;
        while k < self.links.len()
            invariant
                self.wf(),
                k <= self.links@.len(),
                r@.len() == k,
                forall|j: int|
                    0 <= j < k ==> #[trigger] r@[j] == (
                    self.positions@[self.links@[j].0 as int],
                    self.positions@[self.links@[j].1 as int],
                    self.states@[self.links@[j].0 as int] == NodeState::Solution
                        && self.states@[self.links@[j].1 as int] == NodeState::Solution,
                ),
            decreases self.links@.len() - k,
        {
            let (a, b) = self.links[k];
            assert(self.links@[k as int].0 < self.positions@.len());
            let solution = self.is_solution_link(a, b);
            r.push((self.positions[a], self.positions[b], solution));
            k = k + 1;
        }
        r
    }

    /// The position and the state of node `handle`.
    pub fn ask_node(&self, handle: usize) -> (r: (Vec2, NodeState))
        requires
            self.wf(),
            handle < self.node_positions().len(),
        ensures
            r == (self.node_positions()[handle as int], self.node_states()[handle as int]),
    {
        (self.positions[handle], self.states[handle])
    }

    /// The links on the path of the last search (`on_path`), or the others.
    fn links_filtered(&self, on_path: bool) -> (r: Vec<(usize, usize)>)
        requires
            self.wf(),
        ensures
            r@ == links_by_solution(self.link_seq(), self.node_states(), on_path),
    {
        let mut r: Vec<(usize, usize)> = Vec::new();
        let mut k: usize = 0;
        while k < self.links.len()
            invariant
                self.wf(),
                k <= self.links@.len(),
                r@ == links_by_solution(self.links@.subrange(0, k as int), self.states@, on_path),
            decreases self.links@.len() - k,
        {
            let link = self.links[k];
            assert(self.links@[k as int].0 < self.positions@.len());
            let both = self.is_solution_link(link.0, link.1);
            if both == on_path {
                r.push(link);
            }
            k = k + 1;
            assert(self.links@.subrange(0, k as int).drop_last() =~= self.links@.subrange(0, k - 1));
        }
        assert(self.links@.subrange(0, k as int) =~= self.links@);
        r
    }

    /// The links whose two ends are both on the path of the last search.
    pub fn get_all_solution_links(&self) -> (r: Vec<(usize, usize)>)
        requires
            self.wf(),
        ensures
            r@ == links_by_solution(self.link_seq(), self.node_states(), true),
    {
        self.links_filtered(true)
    }

    /// The links that do not have both ends on the path of the last search.
    pub fn get_all_simple_links(&self) -> (r: Vec<(usize, usize)>)
        requires
            self.wf(),
        ensures
            r@ == links_by_solution(self.link_seq(), self.node_states(), false),
    {
        self.links_filtered(false)
    }

    /// The links, each as the pair of handles it joins.
    pub fn get_link_list(&self) -> (r: Vec<(usize, usize)>)
        requires
            self.wf(),
        ensures
            r@ == self.link_seq(),
    {
        let mut r: Vec<(usize, usize)> = Vec::new();
        let mut k: usize = 0;
        while k < self.links.len()
            invariant
                k <= self.links@.len(),
                r@ == self.links@.subrange(0, k as int),
            decreases self.links@.len() - k,
        {
            r.push(self.links[k]);
            k = k + 1;
            assert(r@ =~= self.links@.subrange(0, k as int));
        }
        assert(r@ =~= self.links@);
        r
    }

    /// The handle of the node nearest to `position`; of equally near ones, the
    /// first added. `None` for a graph without nodes.
    pub fn find_nearest_node(&self, position: [i32; 2]) -> (r: Option<usize>)
        requires
            self.wf(),
        ensures
            r.is_none() <==> self.node_positions().len() == 0,
            r matches Some(i) ==> is_nearest(
                self.node_positions(),
                Vec2 { x: position@[0], y: position@[1] },
                i as int,
            ),
    {
        let probing = Vec2::new(position[0], position[1]);
        let n = self.positions.len();
        if n == 0 {
            return None;
        }
        let mut best_index: usize = 0;
        let mut min_dist: u128 = self.positions[0].sq_dist_to(&probing);
        let mut index: usize = 1;
        while index < n
            invariant
                n == self.positions@.len(),
                1 <= index <= n,
                best_index < index,
                min_dist == sq_dist(self.positions@[best_index as int], probing),
                forall|j: int| 0 <= j < index ==> min_dist <= #[trigger] sq_dist(self.positions@[j], probing),
                forall|j: int| 0 <= j < best_index ==> min_dist < #[trigger] sq_dist(self.positions@[j], probing),
            decreases n - index,
        {
            let dist = self.positions[index].sq_dist_to(&probing);
            if dist < min_dist {
                min_dist = dist;
                best_index = index;
            }
            index = index + 1;
        }
        Some(best_index)
    }

    /// The handle of the node nearest to `position`, as `find_nearest_node` gives
    /// it, where that node lies within `radius` of `position`; else `None`.
    pub fn find_nearest_node_with_radius(&self, position: [i32; 2], radius: u32) -> (r: Option<
        usize,
    >)
        requires
            self.wf(),
        ensures
            r.is_none() <==> forall|j: int|
                0 <= j < self.node_positions().len() ==> #[trigger] sq_dist(
                    self.node_positions()[j],
                    Vec2 { x: position@[0], y: position@[1] },
                ) > radius * radius,
            r matches Some(i) ==> is_nearest(
                self.node_positions(),
                Vec2 { x: position@[0], y: position@[1] },
                i as int,
            ),
            r == self.nearest_within(Vec2 { x: position@[0], y: position@[1] }, radius),
    {
        let probing = Vec2::new(position[0], position[1]);
        let ghost pv = Vec2 { x: position@[0], y: position@[1] };
        proof {
            assert forall|i: int, j: int|
                #[trigger] is_nearest(self.positions@, pv, i) && #[trigger] is_nearest(self.positions@, pv, j) implies i == j by {
                if i < j {
                    assert(sq_dist(self.positions@[j], pv) < sq_dist(self.positions@[i], pv));
                } else if j < i {
                    assert(sq_dist(self.positions@[i], pv) < sq_dist(self.positions@[j], pv));
                }
            }
        }
        match self.find_nearest_node(position) {
            None => None,
            Some(best) => {
                let dist = self.positions[best].sq_dist_to(&probing);
                assert((radius as u128) * (radius as u128) <= 0x1_0000_0000_0000_0000) by (nonlinear_arith)
                    requires
                        radius <= 0xffff_ffff,
                ;
                let limit: u128 = (radius as u128) * (radius as u128);
                if dist <= limit {
                    Some(best)
                } else {
                    None
                }
            },
        }
    }

    /// Searches a cheapest path from `start_index` to `destination_index` with A*.
    ///
    /// Returns the handles of the path from start to destination, both included, or
    /// `None` where no walk joins them. Afterwards the nodes of the returned path are
    /// in state `Solution`; the others show how far the search went.
    ///
    /// The open set is a list: each step takes the first entry of least estimated
    /// total cost and fills its place with the last entry. Among several cheapest
    /// paths, which one is returned follows from that order: the result is
    /// `search_result` of the positions, the links and the two handles, whatever
    /// earlier searches left behind.
    pub fn search_graph(&mut self, start_index: usize, destination_index: usize) -> (r: Option<
        Vec<usize>,
    >)
        requires
            old(self).wf(),
        ensures
            final(self).wf(),
            final(self).node_positions() == old(self).node_positions(),
            final(self).link_seq() == old(self).link_seq(),
            start_index >= old(self).node_positions().len() || destination_index >= old(
                self,
            ).node_positions().len() ==> (r is None && final(self).node_states() == old(
                self,
            ).node_states()),
            start_index < old(self).node_positions().len() && destination_index < old(
                self,
            ).node_positions().len() ==> (r is None <==> !reachable(
                old(self).link_seq(),
                start_index,
                destination_index,
            )),
            r matches Some(p) ==> search_result(
                old(self).node_positions(),
                old(self).link_seq(),
                start_index,
                destination_index,
            ) == Some(p@),
            r is None ==> search_result(
                old(self).node_positions(),
                old(self).link_seq(),
                start_index,
                destination_index,
            ) is None,
            r matches Some(p) ==> forall|i: int|
                0 <= i < p@.len() ==> #[trigger] p@[i] < old(self).node_positions().len(),
            r matches Some(p) ==> is_walk_between(
                old(self).link_seq(),
                p@,
                start_index,
                destination_index,
            ),
            r matches Some(p) ==> forall|q: Seq<usize>|
                #[trigger] is_walk_between(old(self).link_seq(), q, start_index, destination_index)
                    ==> walk_cost(old(self).node_positions(), p@) <= walk_cost(
                    old(self).node_positions(),
                    q,
                ),
            start_index == destination_index && start_index < old(self).node_positions().len() ==> (
            r matches Some(p) && p@ == seq![start_index]),
            r matches Some(p) ==> forall|v: usize|
                v < old(self).node_positions().len() ==> (#[trigger] final(self).node_states()[v as int]
                    == NodeState::Solution <==> p@.contains(v)),
            start_index < old(self).node_positions().len() && destination_index < old(
                self,
            ).node_positions().len() && r is None ==> forall|v: usize|
                v < old(self).node_positions().len() ==> #[trigger] final(self).node_states()[v as int]
                    != NodeState::Solution,
    {
        if start_index >= self.positions.len() || destination_index >= self.positions.len() {
            return None;
        }
        let start = start_index;
        let dest = destination_index;
        let ghost n = self.positions@.len();
        let ghost links = self.links@;
        let ghost pos = self.positions@;
        self.reset_graph_search();
        let dest_point = self.positions[dest];
        let mut open: Vec<usize> = Vec::new();
        self.states[start] = NodeState::Visited;
        self.g_values[start] = 0;
        let h0 = self.positions[start].dist_floor(&dest_point);
        self.f_values[start] = h0 as u128;
        open.push(start);
        let ghost mut rank: Seq<nat> = Seq::new(n, |i: int| 0nat);
        let ghost init = initial_state(pos, start, dest);
        proof {
            assert(self.states@ =~= init.states);
            assert(self.g_values@ =~= init.g);
            assert(self.f_values@ =~= init.f);
            assert(self.ancestors@ =~= init.anc);
            assert(self.snapshot(open@) == init);
            lemma_count_closed_none(self.states@);
            assert(open@ =~= seq![start]);
            assert forall|v: usize|
                #![trigger self.states@[v as int]]
                #![trigger open@.contains(v)]
                v < n implies (self.states@[v as int] == NodeState::Visited <==> open@.contains(v)) by {
                if v == start {
                    assert(open@[0] == start);
                }
            }
        }
        loop
            invariant
                self.wf(),
                self.positions@ == pos,
                self.links@ == links,
                pos == old(self).positions@,
                links == old(self).links@,
                start == start_index,
                dest == destination_index,
                n == self.positions@.len(),
                start < n,
                dest < n,
                dest_point == pos[dest as int],
                self.open_ok(open@),
                self.scratch_ok(start, dest, count_closed(self.states@)),
                self.ancestry_ok(start, rank, count_closed(self.states@)),
                self.frontier_all(),
                self.optimal_ok(start),
                count_closed(self.states@) == 0 ==> open@ == seq![start],
                count_closed(self.states@) == 0 ==> forall|v: usize|
                    v < n && v != start ==> #[trigger] self.states@[v as int] == NodeState::Clear,
                count_closed(self.states@) > 0 ==> self.states@[start as int] == NodeState::Closed,
                count_closed(self.states@) <= n,
                run_search(pos, links, dest, self.snapshot(open@), (n + 1 - count_closed(self.states@)) as nat)
                    == run_search(pos, links, dest, init, (n + 1) as nat),
                init == initial_state(pos, start, dest),
            decreases n - count_closed(self.states@),
        {
            if open.len() == 0 {
                proof {
                    assert forall|q: Seq<usize>| !#[trigger] is_walk_between(links, q, start, dest) by {
                        if is_walk_between(links, q, start, dest) {
                            self.lemma_exhausted(start, q);
                        }
                    }
                    assert(!reachable(links, start, dest));
                    if start == dest {
                        assert(is_walk_between(links, seq![start], start, dest));
                    }
                    let fuel = (n + 1 - count_closed(self.states@)) as nat;
                    assert(run_search(pos, links, dest, self.snapshot(open@), fuel) == (self.snapshot(open@), false));
                }
                return None;
            }
            let mut best: usize = 0;
            let mut k: usize = 1;
            while k < open.len()
                invariant
                    self.wf(),
                    n == self.positions@.len(),
                    self.open_ok(open@),
                    open@.len() > 0,
                    best < k <= open@.len(),
                    best == first_min(open@, self.f_values@, k as nat),
                    forall|j: int|
                        0 <= j < k ==> self.f_values@[open@[best as int] as int]
                            <= #[trigger] self.f_values@[open@[j] as int],
                decreases open@.len() - k,
            {
                if self.f_values[open[k]] < self.f_values[open[best]] {
                    best = k;
                }
                k = k + 1;
            }
            let ghost open_before = open@;
            let ghost cnt_before = count_closed(self.states@);
            let ghost s_pre = self.snapshot(open@);
            let ghost fuel = (n + 1 - cnt_before) as nat;
            proof {
                self.lemma_closing_optimal(open@, start, dest, best as int);
                lemma_swap_remove(open@, best as int);
            }
            let u = open.swap_remove(best);
            let ghost states_before = self.states@;
            let ghost snap = *self;
            self.states[u] = NodeState::Closed;
            proof {
                lemma_count_closed_update(states_before, u as int, NodeState::Closed);
                lemma_count_closed_le(self.states@);
                rank = rank.update(u as int, cnt_before);
                let c = close_best(s_pre);
                assert(self.states@ =~= c.0.states);
                assert(open@ =~= c.0.open);
                assert(self.snapshot(open@) == c.0);
                assert(u == c.1);
                assert(run_search(pos, links, dest, s_pre, fuel) == if u == dest {
                    (c.0, true)
                } else {
                    run_search(pos, links, dest, relax_upto(pos, links, dest, c.0, u, adj_of(links, u).len()), (fuel - 1) as nat)
                });
            }
            let ghost closed_state = self.snapshot(open@);
            if u == dest {
                let ghost g_close = self.g_values@;
                proof {
                    assert(open_before[best as int] == u);
                    if cnt_before == 0 {
                        assert(u == start);
                    }
                    assert forall|v: usize| v < n implies #[trigger] self.states@[v as int] != NodeState::Solution by {
                        assert(snap.states@[v as int] != NodeState::Solution);
                    }
                }
                let path = self.get_path(start, dest, Ghost(rank));
                proof {
                    assert(is_walk_between(links, path@, start, dest));
                    lemma_walk_bound(links, path@, n);
                    assert forall|q: Seq<usize>| #[trigger] is_walk_between(links, q, start, dest) implies walk_cost(pos, path@)
                        <= walk_cost(pos, q) by {
                        assert(g_close[dest as int] <= walk_cost(pos, q));
                    }
                }
                return Some(path);
            }
            let ghost cnt = count_closed(self.states@);
            let node_count = self.positions.len();
            let root_g = self.g_values[u];
            assert(root_g + max_dist() <= cnt * max_dist()) by (nonlinear_arith)
                requires
                    root_g <= cnt_before * max_dist(),
                    cnt == cnt_before + 1,
            ;
            assert(cnt * max_dist() <= 0x2_0000_0000_0000_0000_0000_0000) by (nonlinear_arith)
                requires
                    cnt <= n,
                    n <= usize::MAX,
            ;
            proof {
                assert(self.states@[start as int] == NodeState::Closed);
                assert forall|y: usize, jj: int|
                    y < n && self.states@[y as int] == NodeState::Closed && 0 <= jj < adj_of(links, y).len()
                        && (y != u || jj < 0) implies #[trigger] self.relaxed(y, jj) by {
                    assert(states_before[y as int] == NodeState::Closed);
                    assert(snap.relaxed(y, jj));
                    let x = adj_of(links, y)[jj];
                    assert(connections_match(pos, links, self.connections@[y as int]@, y));
                    assert(x == self.connections@[y as int]@[jj].0);
                    if !(x == u) {
                        assert(self.states@[x as int] == states_before[x as int]);
                    }
                }
                assert forall|v: usize|
                    #![trigger self.states@[v as int]]
                    #![trigger open@.contains(v)]
                    v < n implies (self.states@[v as int] == NodeState::Visited <==> open@.contains(v)) by {
                    assert(snap.states@[v as int] == NodeState::Visited <==> open_before.contains(v));
                }
                assert(cnt_before * max_dist() <= cnt * max_dist()) by (nonlinear_arith)
                    requires
                        cnt == cnt_before + 1,
                ;
                assert forall|v: usize|
                    #![trigger self.g_values@[v as int]]
                    v < n && self.states@[v as int] != NodeState::Clear implies self.g_values@[v as int]
                        <= cnt * max_dist() by {
                    assert(snap.states@[v as int] != NodeState::Clear);
                    assert(snap.g_values@[v as int] <= cnt_before * max_dist());
                }
                assert forall|v: usize|
                    #![trigger self.f_values@[v as int]]
                    v < n && self.states@[v as int] != NodeState::Clear implies self.f_values@[v as int]
                        == self.g_values@[v as int] + self.estimate(v, dest) by {
                    assert(snap.states@[v as int] != NodeState::Clear);
                    assert(snap.f_values@[v as int] == snap.g_values@[v as int] + snap.estimate(v, dest));
                }
                assert forall|v: usize| #![trigger self.states@[v as int]] v < n implies self.states@[v as int] != NodeState::Solution by {
                    assert(snap.states@[v as int] != NodeState::Solution);
                }
            }
            let connection_count = self.connections[u].len();
            let mut j: usize = 0;
            while j < connection_count
                invariant
                    self.wf(),
                    self.positions@ == pos,
                    self.links@ == links,
                    n == self.positions@.len(),
                    start < n,
                    dest < n,
                    u < n,
                    u != dest,
                    dest_point == pos[dest as int],
                    connection_count == self.connections@[u as int]@.len(),
                    j <= connection_count,
                    self.states@[u as int] == NodeState::Closed,
                    root_g == self.g_values@[u as int],
                    root_g + max_dist() <= cnt * max_dist(),
                    cnt * max_dist() <= 0x2_0000_0000_0000_0000_0000_0000,
                    count_closed(self.states@) == cnt,
                    self.open_ok(open@),
                    self.scratch_ok(start, dest, cnt),
                    self.ancestry_ok(start, rank, cnt),
                    self.frontier_ok(u, j as int),
                    self.optimal_ok(start),
                    self.states@[start as int] == NodeState::Closed,
                    cnt <= n,
                    self.snapshot(open@) == relax_upto(pos, links, dest, closed_state, u, j as nat),
                    closed_state.g[u as int] == root_g,
                decreases connection_count - j,
            {
                let (partner, distance) = self.connections[u][j];
                proof {
                    assert(connections_match(pos, links, self.connections@[u as int]@, u));
                    assert(self.connections@[u as int]@[j as int].0 == partner);
                }
                let ghost s_before = self.states@;
                let ghost snap2 = *self;
                let ghost open_before2 = open@;
                match self.states[partner] {
                    NodeState::Clear => {
                        let h = self.positions[partner].dist_floor(&dest_point);
                        self.states[partner] = NodeState::Visited;
                        self.ancestors[partner] = u;
                        self.g_values[partner] = root_g + distance as u128;
                        self.f_values[partner] = root_g + distance as u128 + h as u128;
                        open.push(partner);
                        proof {
                            lemma_count_closed_update(s_before, partner as int, NodeState::Visited);
                        }
                    },
                    NodeState::Visited => {
                        let new_g_value = root_g + distance as u128;
                        if new_g_value < self.g_values[partner] {
                            let h = self.positions[partner].dist_floor(&dest_point);
                            self.g_values[partner] = new_g_value;
                            self.f_values[partner] = new_g_value + h as u128;
                            self.ancestors[partner] = u;
                        }
                    },
                    NodeState::Closed => {},
                    NodeState::Solution => {},
                }
                proof {
                    self.lemma_relax_step(snap2, open_before2, open@, start, dest, u, j as int, cnt, rank);
                    let prev = snap2.snapshot(open_before2);
                    let next = relax_entry(pos, dest, prev, u, partner);
                    assert(prev.g[u as int] == root_g);
                    assert(self.states@ =~= next.states);
                    assert(self.g_values@ =~= next.g);
                    assert(self.f_values@ =~= next.f);
                    assert(self.ancestors@ =~= next.anc);
                    assert(open@ =~= next.open);
                    assert(self.snapshot(open@) == next);
                    assert(partner == adj_of(links, u)[j as int]);
                }
                j = j + 1;
            }
            proof {
                assert(connections_match(pos, links, self.connections@[u as int]@, u));
                assert(connection_count == adj_of(links, u).len());
            }
        }
    }

    /// Adds a node at `position`, in state `Clear`, and returns its handle.
    pub fn add_node(&mut self, position: [i32; 2]) -> (r: usize)
        requires
            old(self).wf(),
        ensures
            final(self).wf(),
            r == old(self).node_positions().len(),
            final(self).node_positions() == old(self).node_positions().push(
                Vec2 { x: position@[0], y: position@[1] },
            ),
            final(self).link_seq() == old(self).link_seq(),
            final(self).node_states() == old(self).node_states().push(NodeState::Clear),
            final(self).node_states().len() == final(self).node_positions().len(),
            adj_of(final(self).link_seq(), r) == Seq::<usize>::empty(),
    {
        let ret_val = self.positions.len();
        self.positions.push(Vec2::new(position[0], position[1]));
        self.connections.push(Vec::new());
        self.states.push(NodeState::Clear);
        self.ancestors.push(0);
        self.g_values.push(0);
        self.f_values.push(0);
        assert forall|v: usize| v < self.positions@.len() implies #[trigger] connections_match(
            self.positions@,
            self.links@,
            self.connections@[v as int]@,
            v,
        ) by {
            if v < ret_val {
                assert(connections_match(old(self).positions@, old(self).links@, old(self).connections@[v as int]@, v));
                assert(self.connections@[v as int] == old(self).connections@[v as int]);
                let c = self.connections@[v as int]@;
                assert forall|j: int| 0 <= j < c.len() implies #[trigger] c[j].1 == dist_up(self.positions@[v as int], self.positions@[c[j].0 as int]) by {
                    assert(self.positions@[c[j].0 as int] == old(self).positions@[c[j].0 as int]);
                }
            } else {
                lemma_adj_of_unused(self.links@, v);
            }
        }
        proof {
            lemma_adj_of_unused(self.links@, ret_val);
        }
        ret_val
    }

    /// Joins nodes `node1` and `node2` by an edge whose cost is their distance.
    pub fn connect_nodes(&mut self, node1: usize, node2: usize)
        requires
            old(self).wf(),
            node1 < old(self).node_positions().len(),
            node2 < old(self).node_positions().len(),
        ensures
            final(self).wf(),
            final(self).node_positions() == old(self).node_positions(),
            final(self).link_seq() == old(self).link_seq().push((node1, node2)),
            final(self).node_states() == old(self).node_states(),
    {
        let dist = self.positions[node1].dist_to(&self.positions[node2]);
        proof {
            crate::vector::lemma_sq_dist_bounds(self.positions@[node1 as int], self.positions@[node2 as int]);
        }
        self.connections[node1].push((node2, dist));
        self.connections[node2].push((node1, dist));
        self.links.push((node1, node2));
        assert(self.links@.drop_last() =~= old(self).links@);
        assert(self.links@.last() == (node1, node2));
        assert(self.links@.len() > 0);
        assert forall|v: usize| v < self.positions@.len() implies #[trigger] connections_match(
            self.positions@,
            self.links@,
            self.connections@[v as int]@,
            v,
        ) by {
            assert(connections_match(old(self).positions@, old(self).links@, old(self).connections@[v as int]@, v));
            let vu = v;
            let a_old = adj_of(old(self).links@, vu);
            let a1 = if node1 == vu { a_old.push(node2) } else { a_old };
            let a2 = if node2 == vu { a1.push(node1) } else { a1 };
            assert(adj_of(self.links@, vu) == a2);
            let c = self.connections@[v as int]@;
            let c_old = old(self).connections@[v as int]@;
            let c1 = if node1 == v { c_old.push((node2, dist)) } else { c_old };
            let c2 = if node2 == v { c1.push((node1, dist)) } else { c1 };
            assert(c == c2);
        }
    }
}

/// Adjacency is symmetric: if `a` is a neighbour of `b`, then `b` is one of `a`,
/// and the edge costs the same both ways.
pub proof fn lemma_adjacency_symmetric(links: Seq<(usize, usize)>, a: usize, b: usize, pos: Seq<Vec2>)
    ensures
        adjacent(links, a, b) <==> adjacent(links, b, a),
        dist_up(pos[a as int], pos[b as int]) == dist_up(pos[b as int], pos[a as int]),
    decreases links.len(),
{
    crate::vector::lemma_sq_dist_bounds(pos[a as int], pos[b as int]);
    if links.len() > 0 {
        lemma_adjacency_symmetric(links.drop_last(), a, b, pos);
        let l = links.last();
        let ba = adj_of(links.drop_last(), a);
        let bb = adj_of(links.drop_last(), b);
        let a1 = if l.0 == a { ba.push(l.1) } else { ba };
        let a2 = if l.1 == a { a1.push(l.0) } else { a1 };
        let b1 = if l.0 == b { bb.push(l.1) } else { bb };
        let b2 = if l.1 == b { b1.push(l.0) } else { b1 };
        assert(adj_of(links, a) == a2);
        assert(adj_of(links, b) == b2);
        lemma_push_contains(ba, l.1, b);
        lemma_push_contains(a1, l.0, b);
        lemma_push_contains(bb, l.1, a);
        lemma_push_contains(b1, l.0, a);
    }
}

proof fn lemma_push_contains(s: Seq<usize>, x: usize, y: usize)
    ensures
        s.push(x).contains(y) <==> (s.contains(y) || x == y),
{
    if s.contains(y) {
        let i = choose|i: int| 0 <= i < s.len() && s[i] == y;
        assert(s.push(x)[i] == y);
    }
    if x == y {
        assert(s.push(x)[s.len() as int] == y);
    }
    if s.push(x).contains(y) {
        let i = choose|i: int| 0 <= i < s.push(x).len() && s.push(x)[i] == y;
        if i < s.len() {
            assert(s[i] == y);
        }
    }
}

/// The scratch state of a search: node states, costs from the start, estimated
/// total costs, ancestors, and the open list.
pub struct SearchState {
    pub states: Seq<NodeState>,
    pub g: Seq<u128>,
    pub f: Seq<u128>,
    pub anc: Seq<usize>,
    pub open: Seq<usize>,
}

/// The position in `open[0..k]` of the first entry of least `f`.
pub open spec fn first_min(open: Seq<usize>, f: Seq<u128>, k: nat) -> nat
    decreases k,
{
    if k <= 1 {
        0
    } else {
        let b = first_min(open, f, (k - 1) as nat);
        if f[open[k - 1] as int] < f[open[b as int] as int] {
            (k - 1) as nat
        } else {
            b
        }
    }
}

/// The state before the first step of a search from `start` to `dest`.
pub open spec fn initial_state(pos: Seq<Vec2>, start: usize, dest: usize) -> SearchState {
    SearchState {
        states: Seq::new(pos.len(), |i: int| NodeState::Clear).update(start as int, NodeState::Visited),
        g: Seq::new(pos.len(), |i: int| 0u128),
        f: Seq::new(pos.len(), |i: int| 0u128).update(
            start as int,
            dist_down(pos[start as int], pos[dest as int]) as u128,
        ),
        anc: Seq::new(pos.len(), |i: int| 0usize),
        open: seq![start],
    }
}

/// Takes the first open node of least `f` out of the open list, by moving the
/// last entry into its place, and closes it.
pub open spec fn close_best(s: SearchState) -> (SearchState, usize) {
    let b = first_min(s.open, s.f, s.open.len()) as int;
    let u = s.open[b];
    (
        SearchState {
            states: s.states.update(u as int, NodeState::Closed),
            g: s.g,
            f: s.f,
            anc: s.anc,
            open: s.open.update(b, s.open.last()).drop_last(),
        },
        u,
    )
}

/// Relaxes the edge from the closed node `u` to `x`: a clear `x` is opened with
/// `u` as ancestor; an open `x` takes `u` as ancestor where that is cheaper.
pub open spec fn relax_entry(pos: Seq<Vec2>, dest: usize, s: SearchState, u: usize, x: usize) -> SearchState {
    let new_g = (s.g[u as int] + dist_up(pos[u as int], pos[x as int])) as u128;
    let new_f = (new_g + dist_down(pos[x as int], pos[dest as int])) as u128;
    if s.states[x as int] == NodeState::Clear {
        SearchState {
            states: s.states.update(x as int, NodeState::Visited),
            g: s.g.update(x as int, new_g),
            f: s.f.update(x as int, new_f),
            anc: s.anc.update(x as int, u),
            open: s.open.push(x),
        }
    } else if s.states[x as int] == NodeState::Visited && new_g < s.g[x as int] {
        SearchState {
            states: s.states,
            g: s.g.update(x as int, new_g),
            f: s.f.update(x as int, new_f),
            anc: s.anc.update(x as int, u),
            open: s.open,
        }
    } else {
        s
    }
}

/// Relaxes the edges to the first `j` neighbours of `u`, in order.
pub open spec fn relax_upto(
    pos: Seq<Vec2>,
    links: Seq<(usize, usize)>,
    dest: usize,
    s: SearchState,
    u: usize,
    j: nat,
) -> SearchState
    decreases j,
{
    if j == 0 {
        s
    } else {
        relax_entry(pos, dest, relax_upto(pos, links, dest, s, u, (j - 1) as nat), u, adj_of(links, u)[j - 1])
    }
}

/// Runs at most `fuel` steps of the search from `s`: the final state, and
/// whether the destination was closed.
pub open spec fn run_search(
    pos: Seq<Vec2>,
    links: Seq<(usize, usize)>,
    dest: usize,
    s: SearchState,
    fuel: nat,
) -> (SearchState, bool)
    decreases fuel,
{
    if fuel == 0 || s.open.len() == 0 {
        (s, false)
    } else {
        let (c, u) = close_best(s);
        if u == dest {
            (c, true)
        } else {
            run_search(pos, links, dest, relax_upto(pos, links, dest, c, u, adj_of(links, u).len()), (fuel - 1) as nat)
        }
    }
}

/// What a search from `start` to `dest` returns, as a function of the positions,
/// the links and the two handles alone.
pub open spec fn search_result(pos: Seq<Vec2>, links: Seq<(usize, usize)>, start: usize, dest: usize) -> Option<
    Seq<usize>,
> {
    if start >= pos.len() || dest >= pos.len() {
        None
    } else {
        let (s, found) = run_search(pos, links, dest, initial_state(pos, start, dest), (pos.len() + 1) as nat);
        if found {
            Some(ancestor_path(s.anc, start, dest, pos.len()))
        } else {
            None
        }
    }
}

/// The handles from `start` to `v` along ancestor links: `v` preceded by the
/// ancestor path of `anc[v]`, at most `fuel` steps back.
pub open spec fn ancestor_path(anc: Seq<usize>, start: usize, v: usize, fuel: nat) -> Seq<usize>
    decreases fuel,
{
    if v == start || fuel == 0 {
        seq![v]
    } else {
        ancestor_path(anc, start, anc[v as int], (fuel - 1) as nat).push(v)
    }
}

/// Reading a chain of ancestors backwards gives the ancestor path.
proof fn lemma_chain_path(anc: Seq<usize>, start: usize, chain: Seq<usize>, i: int, fuel: nat)
    requires
        0 <= i < chain.len(),
        chain.last() == start,
        forall|j: int|
            i <= j < chain.len() - 1 ==> #[trigger] chain[j] != start && chain[j + 1] == anc[chain[j] as int],
        fuel >= chain.len() - 1 - i,
    ensures
        ancestor_path(anc, start, chain[i], fuel) =~= Seq::new(
            (chain.len() - i) as nat,
            |k: int| chain[chain.len() - 1 - k],
        ),
    decreases chain.len() - i,
{
    if i < chain.len() - 1 {
        assert(chain[i] != start && chain[i + 1] == anc[chain[i] as int]);
        lemma_chain_path(anc, start, chain, i + 1, (fuel - 1) as nat);
    }
}

/// The number of closed nodes.
pub open spec fn count_closed(s: Seq<NodeState>) -> nat
    decreases s.len(),
{
    if s.len() == 0 {
        0
    } else {
        count_closed(s.drop_last()) + if s.last() == NodeState::Closed {
            1nat
        } else {
            0nat
        }
    }
}

proof fn lemma_count_closed_le(s: Seq<NodeState>)
    ensures
        count_closed(s) <= s.len(),
    decreases s.len(),
{
    if s.len() > 0 {
        lemma_count_closed_le(s.drop_last());
    }
}

proof fn lemma_count_closed_none(s: Seq<NodeState>)
    requires
        forall|i: int| 0 <= i < s.len() ==> s[i] != NodeState::Closed,
    ensures
        count_closed(s) == 0,
    decreases s.len(),
{
    if s.len() > 0 {
        lemma_count_closed_none(s.drop_last());
    }
}

proof fn lemma_count_closed_update(s: Seq<NodeState>, i: int, x: NodeState)
    requires
        0 <= i < s.len(),
    ensures
        count_closed(s.update(i, x)) + (if s[i] == NodeState::Closed {
            1nat
        } else {
            0nat
        }) == count_closed(s) + (if x == NodeState::Closed {
            1nat
        } else {
            0nat
        }),
    decreases s.len(),
{
    if i == s.len() - 1 {
        assert(s.update(i, x).drop_last() =~= s.drop_last());
    } else {
        lemma_count_closed_update(s.drop_last(), i, x);
        assert(s.update(i, x).drop_last() =~= s.drop_last().update(i, x));
    }
}

/// Every neighbour of a node is a handle that some link mentions.
proof fn lemma_adj_of_bound(links: Seq<(usize, usize)>, v: usize, n: nat)
    requires
        forall|k: int| 0 <= k < links.len() ==> (#[trigger] links[k]).0 < n && links[k].1 < n,
    ensures
        forall|j: int| 0 <= j < adj_of(links, v).len() ==> #[trigger] adj_of(links, v)[j] < n,
    decreases links.len(),
{
    if links.len() > 0 {
        assert forall|k: int| 0 <= k < links.drop_last().len() implies (#[trigger] links.drop_last()[k]).0 < n
            && links.drop_last()[k].1 < n by {
            assert(links.drop_last()[k] == links[k]);
        }
        lemma_adj_of_bound(links.drop_last(), v, n);
        assert(links[links.len() - 1] == links.last());
        let l = links.last();
        let before = adj_of(links.drop_last(), v);
        let a1 = if l.0 == v { before.push(l.1) } else { before };
        assert forall|j: int| 0 <= j < a1.len() implies #[trigger] a1[j] < n by {
            if j < before.len() {
                assert(a1[j] == before[j]);
            }
        }
        let a2 = if l.1 == v { a1.push(l.0) } else { a1 };
        assert(adj_of(links, v) == a2);
        assert forall|j: int| 0 <= j < a2.len() implies #[trigger] a2[j] < n by {
            if j < a1.len() {
                assert(a2[j] == a1[j]);
            }
        }
    }
}

/// Every handle of a walk that starts at a node of the graph is a node of the graph.
proof fn lemma_walk_bound(links: Seq<(usize, usize)>, p: Seq<usize>, n: nat)
    requires
        forall|k: int| 0 <= k < links.len() ==> (#[trigger] links[k]).0 < n && links[k].1 < n,
        is_walk(links, p),
        p[0] < n,
    ensures
        forall|i: int| 0 <= i < p.len() ==> #[trigger] p[i] < n,
    decreases p.len(),
{
    if p.len() > 1 {
        let q = p.drop_last();
        assert forall|i: int| 0 <= i < q.len() - 1 implies #[trigger] adjacent(links, q[i], q[i + 1]) by {
            assert(adjacent(links, p[i], p[i + 1]));
        }
        lemma_walk_bound(links, q, n);
        let i = p.len() - 2;
        assert(adjacent(links, p[i], p[i + 1]));
        assert(q[i] == p[i]);
        lemma_adj_of_bound(links, p[i], n);
        let j = choose|j: int| 0 <= j < adj_of(links, p[i]).len() && adj_of(links, p[i])[j] == p[i + 1];
        assert forall|k: int| 0 <= k < p.len() implies #[trigger] p[k] < n by {
            if k < p.len() - 1 {
                assert(p[k] == q[k]);
            }
        }
    }
}

/// The cost of a walk is the cost up to any of its handles plus the cost from there on.
pub proof fn lemma_walk_cost_split(pos: Seq<Vec2>, p: Seq<usize>, j: int)
    requires
        0 <= j < p.len(),
    ensures
        walk_cost(pos, p) == walk_cost(pos, p.subrange(0, j + 1)) + walk_cost(
            pos,
            p.subrange(j, p.len() as int),
        ),
    decreases p.len(),
{
    let t = p.subrange(j, p.len() as int);
    if j == p.len() - 1 {
        assert(p.subrange(0, j + 1) =~= p);
        assert(t.len() == 1);
    } else {
        lemma_walk_cost_split(pos, p.drop_last(), j);
        assert(p.drop_last().subrange(0, j + 1) =~= p.subrange(0, j + 1));
        assert(t.drop_last() =~= p.drop_last().subrange(j, p.len() - 1));
        assert(t[t.len() - 2] == p[p.len() - 2]);
        assert(t.last() == p.last());
    }
}

/// Along a walk, the straight-line estimate falls by at most what the walk costs.
pub proof fn lemma_estimate_along_walk(pos: Seq<Vec2>, p: Seq<usize>, d: Vec2)
    requires
        p.len() > 0,
    ensures
        dist_down(pos[p[0] as int], d) <= walk_cost(pos, p) + dist_down(pos[p.last() as int], d),
    decreases p.len(),
{
    if p.len() > 1 {
        lemma_estimate_along_walk(pos, p.drop_last(), d);
        crate::vector::lemma_estimate_consistent(pos[p[p.len() - 2] as int], pos[p.last() as int], d);
    }
}

/// Removing the element at `i` by moving the last one into its place keeps the
/// other elements and no duplicates.
proof fn lemma_swap_remove(open: Seq<usize>, i: int)
    requires
        0 <= i < open.len(),
        open.no_duplicates(),
    ensures
        open.update(i, open.last()).drop_last().no_duplicates(),
        forall|v: usize|
            open.update(i, open.last()).drop_last().contains(v) <==> (open.contains(v) && v
                != open[i]),
{
    let r = open.update(i, open.last()).drop_last();
    let last = open.len() - 1;
    assert forall|k: int| 0 <= k < r.len() implies #[trigger] r[k] == open[if k == i {
        last
    } else {
        k
    }] && (if k == i {
        last
    } else {
        k
    }) != i by {}
    assert forall|a: int, b: int| 0 <= a < r.len() && 0 <= b < r.len() && a != b implies r[a]
        != r[b] by {
        let ia = if a == i { last } else { a };
        let ib = if b == i { last } else { b };
        assert(r[a] == open[ia]);
        assert(r[b] == open[ib]);
    }
    assert forall|v: usize| r.contains(v) <==> (open.contains(v) && v != open[i]) by {
        if r.contains(v) {
            let k = choose|k: int| 0 <= k < r.len() && r[k] == v;
            let ik = if k == i { last } else { k };
            assert(open[ik] == v);
        }
        if open.contains(v) && v != open[i] {
            let m = choose|m: int| 0 <= m < open.len() && open[m] == v;
            if m == last {
                assert(r[i] == v);
            } else {
                assert(r[m] == v);
            }
        }
    }
}

/// A node that no link mentions has no neighbours.
proof fn lemma_adj_of_unused(links: Seq<(usize, usize)>, v: usize)
    requires
        forall|k: int| 0 <= k < links.len() ==> (#[trigger] links[k]).0 != v && links[k].1 != v,
    ensures
        adj_of(links, v) == Seq::<usize>::empty(),
    decreases links.len(),
{
    if links.len() > 0 {
        lemma_adj_of_unused(links.drop_last(), v);
    }
}

} // verus!

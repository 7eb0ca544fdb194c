//! Random generation of well-formed navigation graphs by rejection sampling.
//!
//! Points are drawn in a square and kept only where they keep their distance
//! from the points kept before; links are drawn between near points and kept
//! only where they are new, cross no link kept before, and pass no point too
//! closely. Each pass gives up after a bounded number of draws.
use crate::a_star::{NavGraph, NodeState};
use crate::line::{crosses, in_bounds, in_critical_range, segments_cross, Line, COORD_LIMIT};
use crate::vector::{sq_dist, Vec2};
use rand::seq::IteratorRandom;
use vstd::prelude::*;

verus! {

/// The number of draws after which a pass gives up.
pub const MAX_ITERATIONS: usize = 100000;

/// Relies on `rand::random_range`: an index drawn from `0..n`, which panics only
/// where `n` is zero.
#[verifier::external_body]
fn random_index(n: usize) -> (r: usize)
    requires
        0 < n,
    ensures
        r < n,
{
    rand::random_range(0..n)
}

/// Relies on `rand::seq::IteratorRandom::choose`: `None` for an empty
/// sequence, else one of its items.
#[verifier::external_body]
fn choose_one(items: &Vec<usize>) -> (r: Option<usize>)
    ensures
        r is None <==> items@.len() == 0,
        r matches Some(x) ==> items@.contains(x),
{
    items.iter().copied().choose(&mut rand::rng())
}

/// No two points lie within `distance` of each other.
pub open spec fn well_separated(points: Seq<Vec2>, distance: int) -> bool {
    forall|i: int, j: int|
        0 <= i < j < points.len() ==> #[trigger] sq_dist(points[i], points[j]) > distance
            * distance
}

/// Every point lies in the square `[-extension, extension)²`.
pub open spec fn in_square(points: Seq<Vec2>, extension: int) -> bool {
    forall|i: int|
        0 <= i < points.len() ==> -extension <= (#[trigger] points[i]).x < extension && -extension
            <= points[i].y < extension
}

/// Link `k` of `pairs` joins two distinct points of `points` nearer than `max_length`.
pub open spec fn link_in_reach(points: Seq<Vec2>, pairs: Seq<(usize, usize)>, k: int, max_length: int) -> bool {
    let (a, b) = pairs[k];
    &&& a < points.len()
    &&& b < points.len()
    &&& a != b
    &&& sq_dist(points[a as int], points[b as int]) < max_length * max_length
}

/// The links `k` and `l` join different pairs of points, in either order.
pub open spec fn links_distinct(pairs: Seq<(usize, usize)>, k: int, l: int) -> bool {
    pairs[k] != pairs[l] && pairs[k] != (pairs[l].1, pairs[l].0)
}

/// The earlier link `k` is not crossed by the later link `l`.
pub open spec fn links_uncrossed(points: Seq<Vec2>, pairs: Seq<(usize, usize)>, k: int, l: int) -> bool {
    !segments_cross(
        points[pairs[k].0 as int],
        points[pairs[k].1 as int],
        points[pairs[l].0 as int],
        points[pairs[l].1 as int],
    )
}

/// No point lies beside link `k` within `clearance`.
pub open spec fn link_clear(points: Seq<Vec2>, pairs: Seq<(usize, usize)>, k: int, clearance: int) -> bool {
    forall|i: int|
        0 <= i < points.len() ==> !in_critical_range(
            points[pairs[k].0 as int],
            points[pairs[k].1 as int],
            #[trigger] points[i],
            clearance,
        )
}

/// The links are in reach, pairwise distinct, uncrossed, and clear of all points.
pub open spec fn well_formed_links(
    points: Seq<Vec2>,
    pairs: Seq<(usize, usize)>,
    max_length: int,
    clearance: int,
) -> bool {
    &&& forall|k: int| 0 <= k < pairs.len() ==> #[trigger] link_in_reach(points, pairs, k, max_length)
    &&& forall|k: int, l: int| 0 <= k < l < pairs.len() ==> #[trigger] links_distinct(pairs, k, l)
    &&& forall|k: int, l: int|
        0 <= k < l < pairs.len() ==> #[trigger] links_uncrossed(points, pairs, k, l)
    &&& forall|k: int| 0 <= k < pairs.len() ==> #[trigger] link_clear(points, pairs, k, clearance)
}

/// Every link of `pairs` joins two indices of `points`.
pub open spec fn pairs_in_range(points: Seq<Vec2>, pairs: Seq<(usize, usize)>) -> bool {
    forall|k: int|
        0 <= k < pairs.len() ==> (#[trigger] pairs[k]).0 < points.len() && pairs[k].1 < points.len()
}

/// The indices below `n`, other than `first`, of the points nearer to point
/// `first` than `max_length`, in increasing order.
pub open spec fn partners(points: Seq<Vec2>, first: usize, max_length: int, n: nat) -> Seq<usize>
    decreases n,
{
    if n == 0 {
        Seq::empty()
    } else {
        let i = (n - 1) as nat;
        let before = partners(points, first, max_length, i);
        if i != first && sq_dist(points[i as int], points[first as int]) < max_length * max_length {
            before.push(i as usize)
        } else {
            before
        }
    }
}

/// No two well-formed links cross, whichever of the two is named first.
pub proof fn lemma_links_never_cross(
    points: Seq<Vec2>,
    pairs: Seq<(usize, usize)>,
    max_length: int,
    clearance: int,
    k: int,
    l: int,
)
    requires
        well_formed_links(points, pairs, max_length, clearance),
        0 <= k < pairs.len(),
        0 <= l < pairs.len(),
        k != l,
    ensures
        !segments_cross(
            points[pairs[k].0 as int],
            points[pairs[k].1 as int],
            points[pairs[l].0 as int],
            points[pairs[l].1 as int],
        ),
{
    if k < l {
        assert(links_uncrossed(points, pairs, k, l));
    } else {
        assert(links_uncrossed(points, pairs, l, k));
        crate::line::lemma_segments_cross_symmetric(
            points[pairs[l].0 as int],
            points[pairs[l].1 as int],
            points[pairs[k].0 as int],
            points[pairs[k].1 as int],
        );
    }
}

/// Appending a link that satisfies every test keeps the links well formed.
proof fn lemma_link_added(
    points: Seq<Vec2>,
    pairs_before: Seq<(usize, usize)>,
    pairs: Seq<(usize, usize)>,
    first: usize,
    second: usize,
    max_len: int,
    clearance: int,
)
    requires
        pairs == pairs_before.push((first, second)),
        well_formed_links(points, pairs_before, max_len, clearance),
        first < points.len(),
        second < points.len(),
        first != second,
        sq_dist(points[second as int], points[first as int]) < max_len * max_len,
        forall|j: int|
            0 <= j < pairs_before.len() ==> #[trigger] pairs_before[j] != (first, second)
                && pairs_before[j] != (second, first),
        forall|j: int|
            0 <= j < pairs_before.len() ==> !segments_cross(
                points[(#[trigger] pairs_before[j]).0 as int],
                points[pairs_before[j].1 as int],
                points[first as int],
                points[second as int],
            ),
        forall|j: int|
            0 <= j < points.len() ==> !in_critical_range(
                points[first as int],
                points[second as int],
                #[trigger] points[j],
                clearance,
            ),
    ensures
        well_formed_links(points, pairs, max_len, clearance),
{
    let last = pairs_before.len() as int;
    crate::vector::lemma_sq_dist_bounds(points[second as int], points[first as int]);
    assert forall|k: int| 0 <= k < pairs.len() implies #[trigger] link_in_reach(points, pairs, k, max_len) by {
        if k < last {
            assert(link_in_reach(points, pairs_before, k, max_len));
            assert(pairs[k] == pairs_before[k]);
        }
    }
    assert forall|k: int, l: int| 0 <= k < l < pairs.len() implies #[trigger] links_distinct(pairs, k, l) by {
        assert(pairs[k] == pairs_before[k]);
        if l < last {
            assert(links_distinct(pairs_before, k, l));
            assert(pairs[l] == pairs_before[l]);
        } else {
            assert(pairs_before[k] != (first, second));
        }
    }
    assert forall|k: int, l: int| 0 <= k < l < pairs.len() implies #[trigger] links_uncrossed(points, pairs, k, l) by {
        assert(pairs[k] == pairs_before[k]);
        if l < last {
            assert(links_uncrossed(points, pairs_before, k, l));
            assert(pairs[l] == pairs_before[l]);
        }
    }
    assert forall|k: int| 0 <= k < pairs.len() implies #[trigger] link_clear(points, pairs, k, clearance) by {
        if k < last {
            assert(link_clear(points, pairs_before, k, clearance));
            assert(pairs[k] == pairs_before[k]);
        }
    }
}

/// Builds random graphs whose nodes keep a minimum distance from each other,
/// whose edges do not cross, and whose edges pass no node too closely.
pub struct GraphConstructor {
    point_collection: Vec<Vec2>,
    point_pairing: Vec<(usize, usize)>,
    extension: i32,
    max_line_length: u32,
    exclusion_distance: u64,
    edge_distance: u32,
}

impl GraphConstructor {
    /// The points generated so far.
    pub closed spec fn points(&self) -> Seq<Vec2> {
        self.point_collection@
    }

    /// The links generated so far, as pairs of indices into `points()`.
    pub closed spec fn pairs(&self) -> Seq<(usize, usize)> {
        self.point_pairing@
    }

    /// Points are drawn from `[-extension, extension)²`.
    pub closed spec fn extension_spec(&self) -> int {
        self.extension as int
    }

    /// Links are shorter than this.
    pub closed spec fn max_line_length_spec(&self) -> int {
        self.max_line_length as int
    }

    /// Points lie farther apart than this: twice the exclusion radius.
    pub closed spec fn exclusion_distance_spec(&self) -> int {
        self.exclusion_distance as int
    }

    /// No point lies beside a link within this distance.
    pub closed spec fn edge_distance_spec(&self) -> int {
        self.edge_distance as int
    }

    /// The constructor's internal consistency.
    pub closed spec fn wf(&self) -> bool {
        &&& 0 < self.extension <= COORD_LIMIT
        &&& self.exclusion_distance <= 0x2_0000_0000
        &&& in_square(self.point_collection@, self.extension as int)
    }

    /// A constructor for points in `[-extension, extension)²`, links shorter than
    /// `max_line_length`, points farther apart than `2 * exclusion_radius`, and no
    /// point within `edge_distance` beside a link.
    pub fn new(extension: i32, max_line_length: u32, exclusion_radius: u32, edge_distance: u32) -> (r:
        GraphConstructor)
        requires
            0 < extension <= COORD_LIMIT,
        ensures
            r.wf(),
            r.points() == Seq::<Vec2>::empty(),
            r.pairs() == Seq::<(usize, usize)>::empty(),
            r.extension_spec() == extension,
            r.max_line_length_spec() == max_line_length,
            r.exclusion_distance_spec() == 2 * exclusion_radius,
            r.edge_distance_spec() == edge_distance,
    {
        let exclusion_distance: u64 = 2 * (exclusion_radius as u64);
        GraphConstructor {
            point_collection: Vec::new(),
            point_pairing: Vec::new(),
            extension,
            max_line_length,
            exclusion_distance,
            edge_distance,
        }
    }

    /// The number of points generated so far.
    pub fn point_count(&self) -> (r: usize)
        ensures
            r == self.points().len(),
    {
        self.point_collection.len()
    }

    /// The number of links generated so far.
    pub fn link_count(&self) -> (r: usize)
        ensures
            r == self.pairs().len(),
    {
        self.point_pairing.len()
    }

    /// The points generated so far.
    pub fn get_points(&self) -> (r: Vec<Vec2>)
        ensures
            r@ == self.points(),
    {
        self.point_collection.clone()
    }

    /// The links generated so far.
    pub fn get_pairs(&self) -> (r: Vec<(usize, usize)>)
        ensures
            r@ == self.pairs(),
    {
        let mut r: Vec<(usize, usize)> = Vec::new();
        let mut k: usize = 0;
        while k < self.point_pairing.len()
            invariant
                k <= self.point_pairing@.len(),
                r@ == self.point_pairing@.subrange(0, k as int),
            decreases self.point_pairing@.len() - k,
        {
            r.push(self.point_pairing[k]);
            k = k + 1;
            assert(r@ =~= self.point_pairing@.subrange(0, k as int));
        }
        assert(r@ =~= self.point_pairing@);
        r
    }

    /// Keeps `candidate` as a new point where it lies farther than the exclusion
    /// distance from every point kept so far; returns whether it was kept.
    pub fn try_add_point(&mut self, candidate: Vec2) -> (added: bool)
        requires
            old(self).wf(),
            -old(self).extension_spec() <= candidate.x < old(self).extension_spec(),
            -old(self).extension_spec() <= candidate.y < old(self).extension_spec(),
        ensures
            final(self).wf(),
            added == forall|i: int|
                0 <= i < old(self).points().len() ==> #[trigger] sq_dist(old(self).points()[i], candidate)
                    > old(self).exclusion_distance_spec() * old(self).exclusion_distance_spec(),
            final(self).points() == if added {
                old(self).points().push(candidate)
            } else {
                old(self).points()
            },
            final(self).pairs() == old(self).pairs(),
            final(self).extension_spec() == old(self).extension_spec(),
            final(self).max_line_length_spec() == old(self).max_line_length_spec(),
            final(self).exclusion_distance_spec() == old(self).exclusion_distance_spec(),
            final(self).edge_distance_spec() == old(self).edge_distance_spec(),
    {
        let excl = self.exclusion_distance as u128;
        assert(excl * excl <= 0x4_0000_0000_0000_0000) by (nonlinear_arith)
            requires
                excl <= 0x2_0000_0000,
        ;
        let excl_sq: u128 = excl * excl;
        let n = self.point_collection.len();
        let mut all_far = true;
        let mut i: usize = 0;
        while all_far && i < n
            invariant
                n == self.point_collection@.len(),
                i <= n,
                all_far == (forall|j: int|
                    0 <= j < i ==> #[trigger] sq_dist(self.point_collection@[j], candidate) > excl_sq),
            decreases n - i,
        {
            if self.point_collection[i].sq_dist_to(&candidate) <= excl_sq {
                all_far = false;
            }
            i = i + 1;
        }
        proof {
            if !all_far {
                let j = choose|j: int| 0 <= j < i && !(#[trigger] sq_dist(self.point_collection@[j], candidate) > excl_sq);
                assert(!(sq_dist(old(self).points()[j], candidate) > old(self).exclusion_distance_spec() * old(self).exclusion_distance_spec()));
            }
        }
        if all_far {
            let ghost before = self.point_collection@;
            self.point_collection.push(candidate);
            proof {
                assert forall|j: int| 0 <= j < self.point_collection@.len() implies -self.extension
                    <= (#[trigger] self.point_collection@[j]).x < self.extension && -self.extension
                    <= self.point_collection@[j].y < self.extension by {
                    if j < before.len() {
                        assert(self.point_collection@[j] == before[j]);
                    }
                }
            }
        }
        all_far
    }

    /// Replaces the points by up to `num_of_points` random ones, each farther than
    /// the exclusion distance from all others; the links stay as they were. Each draw is
    /// offered to `try_add_point`; the first one is always kept. Gives up after
    /// `MAX_ITERATIONS` draws.
    pub fn add_random_points(&mut self, num_of_points: usize)
        requires
            old(self).wf(),
        ensures
            final(self).wf(),
            final(self).points().len() <= num_of_points,
            num_of_points > 0 ==> final(self).points().len() > 0,
            well_separated(final(self).points(), final(self).exclusion_distance_spec()),
            in_square(final(self).points(), final(self).extension_spec()),
            final(self).pairs() == old(self).pairs(),
            final(self).extension_spec() == old(self).extension_spec(),
            final(self).max_line_length_spec() == old(self).max_line_length_spec(),
            final(self).exclusion_distance_spec() == old(self).exclusion_distance_spec(),
            final(self).edge_distance_spec() == old(self).edge_distance_spec(),
    {
        self.point_collection = Vec::with_capacity(num_of_points);
        let ext = self.extension;
        let ghost excl = self.exclusion_distance as int;
        let mut counter: usize = 0;
        while self.point_collection.len() < num_of_points && counter < MAX_ITERATIONS
            invariant
                self.wf(),
                self.extension == ext,
                excl == self.exclusion_distance,
                self.point_pairing@ == old(self).point_pairing@,
                self.point_collection@.len() <= num_of_points,
                num_of_points > 0 && counter > 0 ==> self.point_collection@.len() > 0,
                well_separated(self.point_collection@, excl),
                self.max_line_length == old(self).max_line_length,
                self.exclusion_distance == old(self).exclusion_distance,
                self.edge_distance == old(self).edge_distance,
                self.extension == old(self).extension,
            decreases MAX_ITERATIONS - counter,
        {
            counter = counter + 1;
            let width = 2 * (ext as usize);
            let x = random_index(width) as i32 - ext;
            let y = random_index(width) as i32 - ext;
            let candidate = Vec2::new(x, y);
            let ghost before = self.point_collection@;
            let added = self.try_add_point(candidate);
            proof {
                if added {
                    assert forall|a: int, b: int| 0 <= a < b < self.point_collection@.len() implies #[trigger] sq_dist(
                        self.point_collection@[a],
                        self.point_collection@[b],
                    ) > excl * excl by {
                        if b == before.len() {
                            assert(sq_dist(before[a], candidate) > excl * excl);
                        } else {
                            assert(sq_dist(before[a], before[b]) > excl * excl);
                        }
                    }
                }
            }
        }
    }

    /// The indices of the points other than `first` that lie nearer to point
    /// `first` than the maximum link length, in increasing order.
    pub fn partners_in_reach(&self, first: usize) -> (r: Vec<usize>)
        requires
            self.wf(),
            first < self.points().len(),
        ensures
            r@ == partners(self.points(), first, self.max_line_length_spec(), self.points().len()),
            forall|c: int|
                0 <= c < r@.len() ==> (#[trigger] r@[c]) < self.points().len() && r@[c] != first
                    && sq_dist(self.points()[r@[c] as int], self.points()[first as int])
                    < self.max_line_length_spec() * self.max_line_length_spec(),
    {
        let n = self.point_collection.len();
        let max_len = self.max_line_length as u128;
        assert(max_len * max_len <= 0x1_0000_0000_0000_0000) by (nonlinear_arith)
            requires
                max_len <= 0xffff_ffff,
        ;
        let max_sq: u128 = max_len * max_len;
        let first_pos = self.point_collection[first];
        let mut candidates: Vec<usize> = Vec::new();
        let mut index: usize = 0;
        while index < n
            invariant
                n == self.point_collection@.len(),
                first < n,
                first_pos == self.point_collection@[first as int],
                max_sq == max_len * max_len,
                max_len == self.max_line_length,
                index <= n,
                candidates@ == partners(self.point_collection@, first, max_len as int, index as nat),
                forall|c: int|
                    0 <= c < candidates@.len() ==> (#[trigger] candidates@[c]) < n
                        && candidates@[c] != first && sq_dist(
                        self.point_collection@[candidates@[c] as int],
                        first_pos,
                    ) < max_sq,
            decreases n - index,
        {
            if index != first && self.point_collection[index].sq_dist_to(&first_pos) < max_sq {
                candidates.push(index);
            }
            index = index + 1;
        }
        candidates
    }

    /// Keeps the link from point `first` to point `second` where it joins a pair
    /// not yet joined in either order, crosses no link kept so far, and passes no
    /// point within the edge distance; returns whether it was kept.
    pub fn try_add_link(&mut self, first: usize, second: usize) -> (added: bool)
        requires
            old(self).wf(),
            pairs_in_range(old(self).points(), old(self).pairs()),
            first < old(self).points().len(),
            second < old(self).points().len(),
        ensures
            final(self).wf(),
            pairs_in_range(final(self).points(), final(self).pairs()),
            added == ((forall|k: int|
                0 <= k < old(self).pairs().len() ==> #[trigger] old(self).pairs()[k] != (first, second)
                    && old(self).pairs()[k] != (second, first)) && (forall|k: int|
                0 <= k < old(self).pairs().len() ==> !segments_cross(
                    old(self).points()[(#[trigger] old(self).pairs()[k]).0 as int],
                    old(self).points()[old(self).pairs()[k].1 as int],
                    old(self).points()[first as int],
                    old(self).points()[second as int],
                )) && (forall|i: int|
                0 <= i < old(self).points().len() ==> !in_critical_range(
                    old(self).points()[first as int],
                    old(self).points()[second as int],
                    #[trigger] old(self).points()[i],
                    old(self).edge_distance_spec(),
                ))),
            final(self).pairs() == if added {
                old(self).pairs().push((first, second))
            } else {
                old(self).pairs()
            },
            final(self).points() == old(self).points(),
            final(self).extension_spec() == old(self).extension_spec(),
            final(self).max_line_length_spec() == old(self).max_line_length_spec(),
            final(self).exclusion_distance_spec() == old(self).exclusion_distance_spec(),
            final(self).edge_distance_spec() == old(self).edge_distance_spec(),
    {
        let ghost points = self.point_collection@;
        let n = self.point_collection.len();
        let m = self.point_pairing.len();
        let mut known = false;
        let mut k: usize = 0;
        while !known && k < m
            invariant
                m == self.point_pairing@.len(),
                k <= m,
                known == !(forall|j: int|
                    0 <= j < k ==> #[trigger] self.point_pairing@[j] != (first, second)
                        && self.point_pairing@[j] != (second, first)),
            decreases m - k,
        {
            let other = self.point_pairing[k];
            if (other.0 == first && other.1 == second) || (other.0 == second && other.1 == first) {
                known = true;
            }
            k = k + 1;
        }
        if known {
            proof {
                let j = choose|j: int| 0 <= j < k && !(#[trigger] self.point_pairing@[j] != (first, second)
                    && self.point_pairing@[j] != (second, first));
                assert(!(old(self).pairs()[j] != (first, second) && old(self).pairs()[j] != (second, first)));
            }
            return false;
        }
        proof {
            assert(in_bounds(points[first as int]));
            assert(in_bounds(points[second as int]));
        }
        let a = self.point_collection[first];
        let b = self.point_collection[second];
        let mut crossing = false;
        let mut l: usize = 0;
        while !crossing && l < m
            invariant
                self.wf(),
                points == self.point_collection@,
                n == points.len(),
                m == self.point_pairing@.len(),
                a == points[first as int],
                b == points[second as int],
                pairs_in_range(points, self.point_pairing@),
                in_bounds(a),
                in_bounds(b),
                l <= m,
                crossing == !(forall|j: int|
                    0 <= j < l ==> !segments_cross(
                        points[(#[trigger] self.point_pairing@[j]).0 as int],
                        points[self.point_pairing@[j].1 as int],
                        a,
                        b,
                    )),
            decreases m - l,
        {
            let (c, d) = self.point_pairing[l];
            assert(self.point_pairing@[l as int].0 < n);
            if crosses(self.point_collection[c], self.point_collection[d], a, b) {
                crossing = true;
            }
            l = l + 1;
        }
        if crossing {
            proof {
                let j = choose|j: int| 0 <= j < l && segments_cross(
                    points[(#[trigger] self.point_pairing@[j]).0 as int],
                    points[self.point_pairing@[j].1 as int],
                    a,
                    b,
                );
                assert(segments_cross(
                    old(self).points()[old(self).pairs()[j].0 as int],
                    old(self).points()[old(self).pairs()[j].1 as int],
                    old(self).points()[first as int],
                    old(self).points()[second as int],
                ));
            }
            return false;
        }
        let line = Line::new(a, b);
        let clearance = self.edge_distance;
        let mut close = false;
        let mut i: usize = 0;
        while !close && i < n
            invariant
                self.wf(),
                points == self.point_collection@,
                n == points.len(),
                clearance == self.edge_distance,
                line.start_point() == a,
                line.end_point() == b,
                i <= n,
                close == !(forall|j: int|
                    0 <= j < i ==> !in_critical_range(a, b, #[trigger] points[j], clearance as int)),
            decreases n - i,
        {
            if line.is_in_critical_range(self.point_collection[i], clearance) {
                close = true;
            }
            i = i + 1;
        }
        if close {
            proof {
                let j = choose|j: int| 0 <= j < i && in_critical_range(a, b, #[trigger] points[j], clearance as int);
                assert(in_critical_range(
                    old(self).points()[first as int],
                    old(self).points()[second as int],
                    old(self).points()[j],
                    old(self).edge_distance_spec(),
                ));
            }
            return false;
        }
        self.point_pairing.push((first, second));
        true
    }

    /// Replaces the links by up to `num_of_links` random ones. Each draw picks a
    /// point, then one of `partners_in_reach` of it, and offers the pair to
    /// `try_add_link`. Gives up after `MAX_ITERATIONS` draws, and at once where
    /// there are no points.
    pub fn add_random_links(&mut self, num_of_links: usize)
        requires
            old(self).wf(),
        ensures
            final(self).wf(),
            final(self).points() == old(self).points(),
            final(self).pairs().len() <= num_of_links,
            pairs_in_range(final(self).points(), final(self).pairs()),
            well_formed_links(
                final(self).points(),
                final(self).pairs(),
                final(self).max_line_length_spec(),
                final(self).edge_distance_spec(),
            ),
            final(self).extension_spec() == old(self).extension_spec(),
            final(self).max_line_length_spec() == old(self).max_line_length_spec(),
            final(self).exclusion_distance_spec() == old(self).exclusion_distance_spec(),
            final(self).edge_distance_spec() == old(self).edge_distance_spec(),
    {
        self.point_pairing = Vec::with_capacity(num_of_links);
        let num_of_points = self.point_collection.len();
        if num_of_points == 0 {
            return;
        }
        let ghost points = self.point_collection@;
        let ghost max_len = self.max_line_length as int;
        let ghost clearance = self.edge_distance as int;
        let mut counter: usize = 0;
        while self.point_pairing.len() < num_of_links && counter < MAX_ITERATIONS
            invariant
                self.wf(),
                self.point_collection@ == points,
                points == old(self).point_collection@,
                self.max_line_length == old(self).max_line_length,
                self.exclusion_distance == old(self).exclusion_distance,
                self.edge_distance == old(self).edge_distance,
                self.extension == old(self).extension,
                max_len == self.max_line_length,
                clearance == self.edge_distance,
                num_of_points == points.len(),
                num_of_points > 0,
                self.point_pairing@.len() <= num_of_links,
                pairs_in_range(points, self.point_pairing@),
                well_formed_links(points, self.point_pairing@, max_len, clearance),
            decreases MAX_ITERATIONS - counter,
        {
            counter = counter + 1;
            let first_ind = random_index(num_of_points);
            let candidates = self.partners_in_reach(first_ind);
            if let Some(second_ind) = choose_one(&candidates) {
                let ghost ci = choose|ci: int| 0 <= ci < candidates@.len() && candidates@[ci] == second_ind;
                assert(candidates@[ci] == second_ind);
                let ghost pairs_before = self.point_pairing@;
                if self.try_add_link(first_ind, second_ind) {
                    proof {
                        lemma_link_added(points, pairs_before, self.point_pairing@, first_ind, second_ind, max_len, clearance);
                    }
                }
            }
        }
    }

    /// Builds the graph of the generated points and links: node `i` at point `i`,
    /// an edge for each link, all nodes `Clear`; then forgets points and links.
    pub fn generate_graph(&mut self) -> (r: NavGraph)
        requires
            old(self).wf(),
            old(self).points().len() > 0,
            old(self).pairs().len() > 0,
            pairs_in_range(old(self).points(), old(self).pairs()),
        ensures
            r.wf(),
            r.node_positions() == old(self).points(),
            r.link_seq() == old(self).pairs(),
            r.node_states().len() == r.node_positions().len(),
            forall|i: int| 0 <= i < r.node_states().len() ==> #[trigger] r.node_states()[i] == NodeState::Clear,
            final(self).wf(),
            final(self).points() == Seq::<Vec2>::empty(),
            final(self).pairs() == Seq::<(usize, usize)>::empty(),
            final(self).extension_spec() == old(self).extension_spec(),
            final(self).max_line_length_spec() == old(self).max_line_length_spec(),
            final(self).exclusion_distance_spec() == old(self).exclusion_distance_spec(),
            final(self).edge_distance_spec() == old(self).edge_distance_spec(),
    {
        let mut graph = NavGraph::new();
        let n = self.point_collection.len();
        let mut point_handle: Vec<usize> = Vec::new();
        let mut i: usize = 0;
        while i < n
            invariant
                n == self.point_collection@.len(),
                i <= n,
                graph.wf(),
                graph.node_positions() == self.point_collection@.subrange(0, i as int),
                graph.link_seq() == Seq::<(usize, usize)>::empty(),
                graph.node_states().len() == i,
                forall|j: int| 0 <= j < i ==> #[trigger] graph.node_states()[j] == NodeState::Clear,
                point_handle@.len() == i,
                forall|j: int| 0 <= j < i ==> #[trigger] point_handle@[j] == j,
            decreases n - i,
        {
            let p = self.point_collection[i].get_as_array();
            let h = graph.add_node(p);
            point_handle.push(h);
            i = i + 1;
            proof {
                assert(graph.node_positions() =~= self.point_collection@.subrange(0, i as int));
            }
        }
        assert(graph.node_positions() =~= self.point_collection@);
        let m = self.point_pairing.len();
        let mut k: usize = 0;
        while k < m
            invariant
                self.wf(),
                pairs_in_range(self.point_collection@, self.point_pairing@),
                n == self.point_collection@.len(),
                m == self.point_pairing@.len(),
                k <= m,
                graph.wf(),
                graph.node_positions() == self.point_collection@,
                graph.link_seq() == self.point_pairing@.subrange(0, k as int),
                graph.node_states().len() == n,
                forall|j: int| 0 <= j < n ==> #[trigger] graph.node_states()[j] == NodeState::Clear,
                point_handle@.len() == n,
                forall|j: int| 0 <= j < n ==> #[trigger] point_handle@[j] == j,
            decreases m - k,
        {
            let (first, second) = self.point_pairing[k];
            assert(self.point_pairing@[k as int].0 < n);
            graph.connect_nodes(point_handle[first], point_handle[second]);
            k = k + 1;
            proof {
                assert(graph.link_seq() =~= self.point_pairing@.subrange(0, k as int));
            }
        }
        assert(graph.link_seq() =~= self.point_pairing@);
        self.point_collection.clear();
        self.point_pairing.clear();
        graph
    }
}

} // verus!

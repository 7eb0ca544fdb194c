//! Two-dimensional positions on an integer grid, with exact squared distances
//! and whole-unit Euclidean lengths.
//!
//! A coordinate is a count of grid units: the caller picks the unit (for
//! instance a thousandth of a world unit). A Euclidean length is in general
//! not a whole number of units, so the library offers it rounded up
//! (`dist_to`, `magnitude`: what an edge costs) and rounded down
//! (`dist_floor`: what an estimate may claim without overestimating).
use vstd::prelude::*;

verus! {

/// A position, or a displacement, on the integer grid.
#[derive(Clone, Copy, Debug, PartialEq, Eq, Structural)]
pub struct Vec2 {
    pub x: i32,
    pub y: i32,
}

/// Squared Euclidean length of the vector `(x, y)`.
pub open spec fn sq_len(x: int, y: int) -> int {
    x * x + y * y
}

/// Squared Euclidean distance between two positions.
pub open spec fn sq_dist(a: Vec2, b: Vec2) -> int {
    sq_len(a.x - b.x, a.y - b.y)
}

/// `r` is the square root of `n` rounded down.
pub open spec fn is_floor_root(n: nat, r: nat) -> bool {
    r * r <= n < (r + 1) * (r + 1)
}

/// The integer square root rounded down: the `r` with `r * r <= n < (r + 1) * (r + 1)`.
pub open spec fn floor_sqrt(n: nat) -> nat {
    choose|r: nat| is_floor_root(n, r)
}

/// The integer square root rounded up: the least `r` with `n <= r * r`.
pub open spec fn ceil_sqrt(n: nat) -> nat {
    if floor_sqrt(n) * floor_sqrt(n) == n {
        floor_sqrt(n)
    } else {
        floor_sqrt(n) + 1
    }
}

/// Euclidean distance between two positions, rounded up to whole units.
pub open spec fn dist_up(a: Vec2, b: Vec2) -> nat {
    ceil_sqrt(sq_dist(a, b) as nat)
}

/// Euclidean distance between two positions, rounded down to whole units.
pub open spec fn dist_down(a: Vec2, b: Vec2) -> nat {
    floor_sqrt(sq_dist(a, b) as nat)
}

/// The largest squared distance between two grid positions: `2 * (2^32)^2`.
pub open spec fn max_sq_dist() -> int {
    0x2_0000_0000_0000_0000
}

/// An upper bound of every whole-unit distance between two grid positions.
pub open spec fn max_dist() -> nat {
    0x2_0000_0000
}

/// Squared distances are non-negative and bounded by those of the grid's corners.
pub proof fn lemma_sq_dist_bounds(a: Vec2, b: Vec2)
    ensures
        0 <= sq_dist(a, b) <= max_sq_dist(),
        sq_dist(a, b) == sq_dist(b, a),
{
    let dx = a.x - b.x;
    let dy = a.y - b.y;
    assert(-0x1_0000_0000 < dx < 0x1_0000_0000);
    assert(-0x1_0000_0000 < dy < 0x1_0000_0000);
    assert(0 <= dx * dx <= 0x1_0000_0000_0000_0000) by (nonlinear_arith)
        requires
            -0x1_0000_0000 < dx < 0x1_0000_0000,
    ;
    assert(0 <= dy * dy <= 0x1_0000_0000_0000_0000) by (nonlinear_arith)
        requires
            -0x1_0000_0000 < dy < 0x1_0000_0000,
    ;
    assert((b.x - a.x) * (b.x - a.x) == dx * dx) by (nonlinear_arith)
        requires
            dx == a.x - b.x,
    ;
    assert((b.y - a.y) * (b.y - a.y) == dy * dy) by (nonlinear_arith)
        requires
            dy == a.y - b.y,
    ;
}

/// The product of two 32-bit integers lies within `2^62` of zero.
pub proof fn lemma_mul_i32_bounds(a: int, b: int)
    requires
        -0x8000_0000 <= a <= 0x8000_0000,
        -0x8000_0000 <= b <= 0x8000_0000,
    ensures
        -0x4000_0000_0000_0000 <= a * b <= 0x4000_0000_0000_0000,
{
    assert(-0x4000_0000_0000_0000 <= a * b <= 0x4000_0000_0000_0000) by (nonlinear_arith)
        requires
            -0x8000_0000 <= a <= 0x8000_0000,
            -0x8000_0000 <= b <= 0x8000_0000,
    ;
}

/// Every natural number has an integer square root.
pub proof fn lemma_floor_sqrt_exists(n: nat)
    ensures
        exists|r: nat| is_floor_root(n, r),
    decreases n,
{
    if n == 0 {
        assert(is_floor_root(n, 0)) by (nonlinear_arith)
            requires
                n == 0,
        ;
    } else {
        let m: nat = (n - 1) as nat;
        lemma_floor_sqrt_exists(m);
        let r = choose|r: nat| is_floor_root(m, r);
        if (r + 1) * (r + 1) <= n {
            assert(n < (r + 2) * (r + 2)) by (nonlinear_arith)
                requires
                    n - 1 < (r + 1) * (r + 1),
            ;
            assert(is_floor_root(n, r + 1));
        } else {
            assert(is_floor_root(n, r));
        }
    }
}

/// `floor_sqrt` is the unique root rounded down.
pub proof fn lemma_floor_sqrt(n: nat)
    ensures
        floor_sqrt(n) * floor_sqrt(n) <= n < (floor_sqrt(n) + 1) * (floor_sqrt(n) + 1),
        forall|r: nat| #[trigger] is_floor_root(n, r) ==> r == floor_sqrt(n),
{
    lemma_floor_sqrt_exists(n);
    let s = floor_sqrt(n);
    assert forall|r: nat| #[trigger] is_floor_root(n, r) implies r == s by {
        if r < s {
            assert((r + 1) * (r + 1) <= s * s) by (nonlinear_arith)
                requires
                    r < s,
            ;
        } else if s < r {
            assert((s + 1) * (s + 1) <= r * r) by (nonlinear_arith)
                requires
                    s < r,
            ;
        }
    }
}

/// `ceil_sqrt` is the least `r` with `n <= r * r`.
pub proof fn lemma_ceil_sqrt(n: nat)
    ensures
        n <= ceil_sqrt(n) * ceil_sqrt(n),
        ceil_sqrt(n) == 0 || (ceil_sqrt(n) - 1) * (ceil_sqrt(n) - 1) < n,
        floor_sqrt(n) <= ceil_sqrt(n),
        forall|r: nat| #![trigger r * r] n <= r * r ==> ceil_sqrt(n) <= r,
{
    lemma_floor_sqrt(n);
    let s = floor_sqrt(n);
    if s * s == n && s > 0 {
        assert((s - 1) * (s - 1) < s * s) by (nonlinear_arith)
            requires
                s > 0,
        ;
    }
    assert forall|r: nat| #![trigger r * r] n <= r * r implies ceil_sqrt(n) <= r by {
        if r < ceil_sqrt(n) {
            assert(r <= s);
            if r < s {
                assert(r * r < s * s) by (nonlinear_arith)
                    requires
                        r < s,
                ;
            } else {
                assert(s * s != n);
            }
        }
    }
}

proof fn lemma_distribute(a: int, b: int, c: int, d: int)
    ensures
        (a + b) * (c + d) == a * c + a * d + b * c + b * d,
{
    assert((a + b) * (c + d) == a * c + a * d + b * c + b * d) by (nonlinear_arith);
}

proof fn lemma_square_of_product(x: int, y: int)
    ensures
        (x * x) * (y * y) == (x * y) * (x * y),
{
    assert((x * x) * (y * y) == (x * y) * (x * y)) by (nonlinear_arith);
}

/// The dot product of two vectors is at most the product of any bounds of their lengths.
pub proof fn lemma_dot_le(ux: int, uy: int, vx: int, vy: int, p: int, q: int)
    requires
        p >= 0,
        q >= 0,
        sq_len(ux, uy) <= p * p,
        sq_len(vx, vy) <= q * q,
    ensures
        ux * vx + uy * vy <= p * q,
{
    let d = ux * vx + uy * vy;
    let c = ux * vy - uy * vx;
    let a1 = ux * vx;
    let b1 = uy * vy;
    let e1 = ux * vy;
    let f1 = uy * vx;
    assert(a1 * b1 == e1 * f1) by (nonlinear_arith)
        requires
            a1 == ux * vx,
            b1 == uy * vy,
            e1 == ux * vy,
            f1 == uy * vx,
    ;
    lemma_distribute(ux * ux, uy * uy, vx * vx, vy * vy);
    lemma_square_of_product(ux, vx);
    lemma_square_of_product(ux, vy);
    lemma_square_of_product(uy, vx);
    lemma_square_of_product(uy, vy);
    assert(d * d == a1 * a1 + 2 * (a1 * b1) + b1 * b1) by (nonlinear_arith)
        requires
            d == a1 + b1,
    ;
    assert(c * c == e1 * e1 - 2 * (e1 * f1) + f1 * f1) by (nonlinear_arith)
        requires
            c == e1 - f1,
    ;
    assert((ux * ux + uy * uy) * (vx * vx + vy * vy) == d * d + c * c);
    assert(c * c >= 0) by (nonlinear_arith);
    assert(ux * ux + uy * uy >= 0 && vx * vx + vy * vy >= 0) by (nonlinear_arith);
    assert(sq_len(ux, uy) * sq_len(vx, vy) <= (p * p) * (q * q)) by (nonlinear_arith)
        requires
            0 <= sq_len(ux, uy) <= p * p,
            0 <= sq_len(vx, vy) <= q * q,
    ;
    assert((p * p) * (q * q) == (p * q) * (p * q)) by (nonlinear_arith);
    if d > p * q {
        assert(p * q >= 0) by (nonlinear_arith)
            requires
                p >= 0,
                q >= 0,
        ;
        assert(d * d > (p * q) * (p * q)) by (nonlinear_arith)
            requires
                d > p * q,
                p * q >= 0,
        ;
    }
}

/// The straight-line distance rounded down never exceeds the cost of one edge
/// plus the rest of the way, rounded down: the estimate is consistent.
pub proof fn lemma_estimate_consistent(a: Vec2, b: Vec2, d: Vec2)
    ensures
        dist_down(a, d) <= dist_up(a, b) + dist_down(b, d),
{
    lemma_sq_dist_bounds(a, b);
    lemma_sq_dist_bounds(b, d);
    lemma_sq_dist_bounds(a, d);
    let ux = a.x - b.x;
    let uy = a.y - b.y;
    let vx = b.x - d.x;
    let vy = b.y - d.y;
    let p = dist_up(a, b);
    let q = dist_down(b, d) + 1;
    lemma_ceil_sqrt(sq_dist(a, b) as nat);
    lemma_floor_sqrt(sq_dist(b, d) as nat);
    lemma_floor_sqrt(sq_dist(a, d) as nat);
    assert(sq_len(vx, vy) < q * q);
    lemma_dot_le(ux, uy, vx, vy, p as int, q as int);
    assert(sq_dist(a, d) == sq_len(ux, uy) + 2 * (ux * vx + uy * vy) + sq_len(vx, vy))
        by (nonlinear_arith)
        requires
            ux == a.x - b.x,
            uy == a.y - b.y,
            vx == b.x - d.x,
            vy == b.y - d.y,
    ;
    assert(sq_dist(a, d) < (p + q) * (p + q)) by (nonlinear_arith)
        requires
            sq_dist(a, d) == sq_len(ux, uy) + 2 * (ux * vx + uy * vy) + sq_len(vx, vy),
            sq_len(ux, uy) <= p * p,
            sq_len(vx, vy) < q * q,
            ux * vx + uy * vy <= p * q,
    ;
    let r = dist_down(a, d);
    if r >= p + q {
        assert(r * r >= (p + q) * (p + q)) by (nonlinear_arith)
            requires
                r >= p + q,
                p + q >= 0,
        ;
    }
}

/// Whole-unit distances between grid positions are at most `max_dist()`.
pub proof fn lemma_dist_bounds(a: Vec2, b: Vec2)
    ensures
        dist_down(a, b) <= dist_up(a, b) <= max_dist(),
{
    lemma_sq_dist_bounds(a, b);
    let n = sq_dist(a, b) as nat;
    lemma_ceil_sqrt(n);
    let m = max_dist();
    assert(n <= m * m);
}

/// The root rounded down, of a number below `2^66`.
pub(crate) fn floor_sqrt_u128(n: u128) -> (r: u64)
    requires
        n < 0x4_0000_0000_0000_0000,
    ensures
        r as nat == floor_sqrt(n as nat),
        r <= 0x2_0000_0000,
{
    let mut lo: u128 = 0;
    let mut hi: u128 = 0x4_0000_0000;
    assert(n < hi * hi);
    while lo + 1 < hi
        invariant
            lo < hi <= 0x4_0000_0000,
            lo * lo <= n < hi * hi,
        decreases hi - lo,
    {
        let mid: u128 = lo + (hi - lo) / 2;
        assert(mid * mid <= 0x10_0000_0000_0000_0000) by (nonlinear_arith)
            requires
                mid < 0x4_0000_0000,
        ;
        if mid * mid <= n {
            lo = mid;
        } else {
            hi = mid;
        }
    }
    assert(is_floor_root(n as nat, lo as nat));
    proof {
        lemma_floor_sqrt(n as nat);
        assert(lo <= 0x2_0000_0000) by (nonlinear_arith)
            requires
                lo * lo <= n,
                n < 0x4_0000_0000_0000_0000,
        ;
    }
    lo as u64
}

/// The root rounded up, of a number below `2^66`.
fn ceil_sqrt_u128(n: u128) -> (r: u64)
    requires
        n < 0x4_0000_0000_0000_0000,
    ensures
        r as nat == ceil_sqrt(n as nat),
{
    let r = floor_sqrt_u128(n);
    assert((r as u128) * (r as u128) <= 0x4_0000_0000_0000_0000) by (nonlinear_arith)
        requires
            r <= 0x2_0000_0000,
    ;
    let sq: u128 = (r as u128) * (r as u128);
    if sq == n {
        r
    } else {
        r + 1
    }
}

/// Squared length of `(dx, dy)` for coordinate differences, exactly.
fn sq_len_exec(dx: i64, dy: i64) -> (r: u128)
    requires
        -0x1_0000_0000 < dx < 0x1_0000_0000,
        -0x1_0000_0000 < dy < 0x1_0000_0000,
    ensures
        r as int == sq_len(dx as int, dy as int),
        r <= max_sq_dist(),
{
    let ax: u128 = if dx < 0 { (-dx) as u128 } else { dx as u128 };
    let ay: u128 = if dy < 0 { (-dy) as u128 } else { dy as u128 };
    assert(ax * ax == dx * dx && ax * ax <= 0x1_0000_0000_0000_0000) by (nonlinear_arith)
        requires
            ax == dx || ax == -dx,
            ax < 0x1_0000_0000,
    ;
    assert(ay * ay == dy * dy && ay * ay <= 0x1_0000_0000_0000_0000) by (nonlinear_arith)
        requires
            ay == dy || ay == -dy,
            ay < 0x1_0000_0000,
    ;
    ax * ax + ay * ay
}

impl Vec2 {
    /// A vector from its two coordinates.
    pub fn new(x: i32, y: i32) -> (r: Vec2)
        ensures
            r.x == x,
            r.y == y,
    {
        Vec2 { x, y }
    }

    /// The coordinates as an array `[x, y]`.
    pub fn get_as_array(&self) -> (r: [i32; 2])
        ensures
            r@ == seq![self.x, self.y],
    {
        [self.x, self.y]
    }

    /// The coordinates of this vector followed by those of `other`:
    /// `[x, y, other.x, other.y]`.
    pub fn get_combined_as_array(&self, other: &Vec2) -> (r: [i32; 4])
        ensures
            r@ == seq![self.x, self.y, other.x, other.y],
    {
        [self.x, self.y, other.x, other.y]
    }

    /// The sum of two vectors.
    pub fn add(self, other: Vec2) -> (r: Vec2)
        requires
            i32::MIN <= self.x + other.x <= i32::MAX,
            i32::MIN <= self.y + other.y <= i32::MAX,
        ensures
            r.x == self.x + other.x,
            r.y == self.y + other.y,
    {
        Vec2 { x: self.x + other.x, y: self.y + other.y }
    }

    /// The difference of two vectors.
    pub fn sub(self, other: Vec2) -> (r: Vec2)
        requires
            i32::MIN <= self.x - other.x <= i32::MAX,
            i32::MIN <= self.y - other.y <= i32::MAX,
        ensures
            r.x == self.x - other.x,
            r.y == self.y - other.y,
    {
        Vec2 { x: self.x - other.x, y: self.y - other.y }
    }

    /// The vector scaled by an integer factor.
    pub fn scale(self, factor: i32) -> (r: Vec2)
        requires
            i32::MIN <= self.x * factor <= i32::MAX,
            i32::MIN <= self.y * factor <= i32::MAX,
        ensures
            r.x == self.x * factor,
            r.y == self.y * factor,
    {
        Vec2 { x: self.x * factor, y: self.y * factor }
    }

    /// The dot product of two vectors, exactly.
    pub fn dot(&self, other: Vec2) -> (r: i128)
        ensures
            r == self.x * other.x + self.y * other.y,
    {
        proof {
            lemma_mul_i32_bounds(self.x as int, other.x as int);
            lemma_mul_i32_bounds(self.y as int, other.y as int);
        }
        let a: i128 = (self.x as i128) * (other.x as i128);
        let b: i128 = (self.y as i128) * (other.y as i128);
        a + b
    }

    /// The vector turned by a right angle clockwise: `(y, -x)`.
    pub fn get_orthogonal(&self) -> (r: Vec2)
        requires
            self.x != i32::MIN,
        ensures
            r.x == self.y,
            r.y == -self.x,
            r.x * self.x + r.y * self.y == 0,
    {
        assert(self.y * self.x + (-self.x) * self.y == 0) by (nonlinear_arith);
        Vec2 { x: self.y, y: -self.x }
    }

    /// The squared length of the vector, exactly.
    pub fn sq_magnitude(&self) -> (r: u128)
        ensures
            r as int == sq_len(self.x as int, self.y as int),
            r <= max_sq_dist(),
    {
        sq_len_exec(self.x as i64, self.y as i64)
    }

    /// The length of the vector, rounded up to whole units.
    pub fn magnitude(&self) -> (r: u64)
        ensures
            r as nat == ceil_sqrt(sq_len(self.x as int, self.y as int) as nat),
    {
        let sq = self.sq_magnitude();
        ceil_sqrt_u128(sq)
    }

    /// The squared distance to another position, exactly.
    pub fn sq_dist_to(&self, other: &Vec2) -> (r: u128)
        ensures
            r as int == sq_dist(*self, *other),
            r <= max_sq_dist(),
    {
        sq_len_exec(self.x as i64 - other.x as i64, self.y as i64 - other.y as i64)
    }

    /// The distance to another position, rounded up to whole units.
    pub fn dist_to(&self, other: &Vec2) -> (r: u64)
        ensures
            r as nat == dist_up(*self, *other),
            r <= max_dist(),
    {
        let sq = self.sq_dist_to(other);
        let r = ceil_sqrt_u128(sq);
        proof {
            lemma_ceil_sqrt(sq as nat);
            assert(sq <= (max_dist() as nat) * (max_dist() as nat));
        }
        r
    }

    /// The distance to another position, rounded down to whole units.
    pub fn dist_floor(&self, other: &Vec2) -> (r: u64)
        ensures
            r as nat == dist_down(*self, *other),
            r <= max_dist(),
    {
        let sq = self.sq_dist_to(other);
        floor_sqrt_u128(sq)
    }
}

impl From<[i32; 2]> for Vec2 {
    /// The vector `(v[0], v[1])`.
    fn from(v: [i32; 2]) -> (r: Vec2) {
        Vec2 { x: v[0], y: v[1] }
    }
}

impl vstd::std_specs::convert::FromSpecImpl<[i32; 2]> for Vec2 {
    open spec fn obeys_from_spec() -> bool {
        true
    }

    open spec fn from_spec(v: [i32; 2]) -> Vec2 {
        Vec2 { x: v@[0], y: v@[1] }
    }
}

impl From<Vec2> for [i32; 2] {
    /// The array `[v.x, v.y]`.
    fn from(v: Vec2) -> (r: [i32; 2]) {
        [v.x, v.y]
    }
}

impl vstd::std_specs::convert::FromSpecImpl<Vec2> for [i32; 2] {
    open spec fn obeys_from_spec() -> bool {
        true
    }

    open spec fn from_spec(v: Vec2) -> [i32; 2] {
        [v.x, v.y]
    }
}

} // verus!

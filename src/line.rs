//! Line segments between grid positions: their length, whether two of them
//! cross, and whether a point lies close beside one.
//!
//! All tests are computed exactly in integer arithmetic. Positions handed to
//! a segment lie within `COORD_LIMIT` of the origin on both axes, which keeps
//! every product in range.
use crate::vector::{dist_up, sq_dist, Vec2};
use vstd::prelude::*;

verus! {

/// The largest absolute coordinate of a segment's ends and of a tested point.
/// Beyond it, the squared cross product of the critical-range test would not fit
/// in 128 bits.
pub const COORD_LIMIT: i32 = 0x4000_0000;

/// The reciprocal of the tolerance of the crossing test: a crossing counts only
/// where it lies farther than `1 / TOLERANCE_INV` of each segment from the
/// segment's ends.
pub const TOLERANCE_INV: i128 = 100_000;

/// Both coordinates lie within `COORD_LIMIT` of the origin.
pub open spec fn in_bounds(p: Vec2) -> bool {
    -COORD_LIMIT <= p.x <= COORD_LIMIT && -COORD_LIMIT <= p.y <= COORD_LIMIT
}

/// The cross product of `(ax, ay)` and `(bx, by)`.
pub open spec fn cross(ax: int, ay: int, bx: int, by: int) -> int {
    ax * by - ay * bx
}

/// The quotient `num / den` lies strictly between `1 / K` and `1 - 1 / K`, for
/// `K == TOLERANCE_INV`; never where `den` is zero.
pub open spec fn strictly_inside(num: int, den: int) -> bool {
    let k = TOLERANCE_INV as int;
    if den > 0 {
        den < k * num && k * num < (k - 1) * den
    } else if den < 0 {
        den > k * num && k * num > (k - 1) * den
    } else {
        false
    }
}

/// The segments `a0`-`a1` and `b0`-`b1` cross: solving `a0 + t (a1 - a0) ==
/// b0 + u (b1 - b0)` by Cramer's rule gives both parameters strictly inside
/// the tolerance interval. Parallel segments never cross.
pub open spec fn segments_cross(a0: Vec2, a1: Vec2, b0: Vec2, b1: Vec2) -> bool {
    let dx = a1.x - a0.x;
    let dy = a1.y - a0.y;
    let ex = b1.x - b0.x;
    let ey = b1.y - b0.y;
    let sx = b0.x - a0.x;
    let sy = b0.y - a0.y;
    let base_det = dy * ex - dx * ey;
    let own_det = sy * ex - sx * ey;
    let other_det = dx * sy - dy * sx;
    strictly_inside(own_det, base_det) && strictly_inside(other_det, base_det)
}

/// The inverse of the margin of the critical-range test: a projection counts as
/// inside a segment only where it lies farther than `1 / MARGIN_INV` units from
/// both ends.
pub const MARGIN_INV: i128 = 100_000;

/// The point `p` lies beside the segment `a`-`b`: its projection onto the
/// segment lies farther than `1 / MARGIN_INV` from both ends, and its distance
/// from the line through them is at most `range`.
///
/// With `len` the segment's length, the projection is `along / len`; the margin
/// conditions `along / len > 1 / k` and `len - along / len > 1 / k` are stated
/// squared, with both sides positive.
pub open spec fn in_critical_range(a: Vec2, b: Vec2, p: Vec2, range: int) -> bool {
    let dx = b.x - a.x;
    let dy = b.y - a.y;
    let rx = p.x - a.x;
    let ry = p.y - a.y;
    let along = rx * dx + ry * dy;
    let len2 = dx * dx + dy * dy;
    let across = cross(dx, dy, rx, ry);
    let k = MARGIN_INV as int;
    &&& 0 < along
    &&& len2 < (k * along) * (k * along)
    &&& 0 < len2 - along
    &&& len2 < (k * (len2 - along)) * (k * (len2 - along))
    &&& across * across <= range * range * len2
}

/// A positive integer exceeds the square root of `n` exactly when its square
/// exceeds `n`.
proof fn lemma_above_root(n: nat, m: int)
    requires
        m > 0,
    ensures
        (n < m * m) == (m > crate::vector::floor_sqrt(n)),
{
    crate::vector::lemma_floor_sqrt(n);
    let f = crate::vector::floor_sqrt(n) as int;
    if m > f {
        assert(m * m >= (f + 1) * (f + 1)) by (nonlinear_arith)
            requires
                m >= f + 1,
                f >= 0,
        ;
    } else {
        assert(m * m <= f * f) by (nonlinear_arith)
            requires
                0 < m <= f,
        ;
    }
}

/// `delta * d / len`, rounded toward zero: how far a shortening by `d` moves an
/// end along an axis on which the segment extends by `delta`, for a segment of
/// length `len`.
pub open spec fn shortening_offset(delta: int, d: int, len: int) -> int {
    if delta >= 0 {
        (delta * d) / len
    } else {
        -((-delta * d) / len)
    }
}

proof fn lemma_strictly_inside_negated(num: int, den: int)
    ensures
        strictly_inside(-num, -den) == strictly_inside(num, den),
{
}

/// Whether two segments cross does not depend on which is named first.
pub proof fn lemma_segments_cross_symmetric(a0: Vec2, a1: Vec2, b0: Vec2, b1: Vec2)
    ensures
        segments_cross(a0, a1, b0, b1) == segments_cross(b0, b1, a0, a1),
{
    let dx = a1.x - a0.x;
    let dy = a1.y - a0.y;
    let ex = b1.x - b0.x;
    let ey = b1.y - b0.y;
    let sx = b0.x - a0.x;
    let sy = b0.y - a0.y;
    let base_det = dy * ex - dx * ey;
    let own_det = sy * ex - sx * ey;
    let other_det = dx * sy - dy * sx;
    assert(ey * dx - ex * dy == -base_det) by (nonlinear_arith)
        requires
            base_det == dy * ex - dx * ey,
    ;
    assert((-sy) * dx - (-sx) * dy == -other_det) by (nonlinear_arith)
        requires
            other_det == dx * sy - dy * sx,
    ;
    assert(ex * (-sy) - ey * (-sx) == -own_det) by (nonlinear_arith)
        requires
            own_det == sy * ex - sx * ey,
    ;
    assert(a0.x - b0.x == -sx && a0.y - b0.y == -sy);
    lemma_strictly_inside_negated(own_det, base_det);
    lemma_strictly_inside_negated(other_det, base_det);
}

proof fn lemma_mul_le(a: int, b: int, m: int)
    requires
        -m <= a <= m,
        -m <= b <= m,
    ensures
        -(m * m) <= a * b <= m * m,
{
    assert(-(m * m) <= a * b <= m * m) by (nonlinear_arith)
        requires
            -m <= a <= m,
            -m <= b <= m,
    ;
}

/// Whether `num / den` lies strictly inside the tolerance interval.
fn inside_tolerance(num: i128, den: i128) -> (r: bool)
    requires
        -0x8000_0000_0000_0000 <= num <= 0x8000_0000_0000_0000,
        -0x8000_0000_0000_0000 <= den <= 0x8000_0000_0000_0000,
    ensures
        r == strictly_inside(num as int, den as int),
{
    let k = TOLERANCE_INV;
    proof {
        let b: int = 0x8000_0000_0000_0000;
        assert(-(b * b) <= k * num <= b * b) by (nonlinear_arith)
            requires
                -b <= num <= b,
                0 <= k <= b,
        ;
        assert(-(b * b) <= (k - 1) * den <= b * b) by (nonlinear_arith)
            requires
                -b <= den <= b,
                0 <= k - 1 <= b,
        ;
    }
    if den > 0 {
        den < k * num && k * num < (k - 1) * den
    } else if den < 0 {
        den > k * num && k * num > (k - 1) * den
    } else {
        false
    }
}

/// Whether the segments `a0`-`a1` and `b0`-`b1` cross, as `segments_cross`
/// states it.
pub fn crosses(a0: Vec2, a1: Vec2, b0: Vec2, b1: Vec2) -> (r: bool)
    requires
        in_bounds(a0),
        in_bounds(a1),
        in_bounds(b0),
        in_bounds(b1),
    ensures
        r == segments_cross(a0, a1, b0, b1),
{
    let m: i128 = 0x8000_0000;
    let dx = a1.x as i128 - a0.x as i128;
    let dy = a1.y as i128 - a0.y as i128;
    let ex = b1.x as i128 - b0.x as i128;
    let ey = b1.y as i128 - b0.y as i128;
    let sx = b0.x as i128 - a0.x as i128;
    let sy = b0.y as i128 - a0.y as i128;
    proof {
        lemma_mul_le(dx as int, ey as int, m as int);
        lemma_mul_le(dy as int, ex as int, m as int);
        lemma_mul_le(sx as int, ey as int, m as int);
        lemma_mul_le(sy as int, ex as int, m as int);
        lemma_mul_le(dx as int, sy as int, m as int);
        lemma_mul_le(dy as int, sx as int, m as int);
    }
    let base_det = dy * ex - dx * ey;
    let own_det = sy * ex - sx * ey;
    let other_det = dx * sy - dy * sx;
    inside_tolerance(own_det, base_det) && inside_tolerance(other_det, base_det)
}

/// A segment from `start` to `end`, with its displacement and its length.
pub struct Line {
    start: Vec2,
    end: Vec2,
    delta_x: i64,
    delta_y: i64,
    magnitude: u64,
}

impl Line {
    /// The segment's ends lie in bounds and its cached values are its own.
    #[verifier::type_invariant]
    spec fn inv(&self) -> bool {
        &&& in_bounds(self.start)
        &&& in_bounds(self.end)
        &&& self.delta_x == self.end.x - self.start.x
        &&& self.delta_y == self.end.y - self.start.y
        &&& self.magnitude == dist_up(self.start, self.end)
    }

    /// Where the segment starts.
    pub closed spec fn start_point(&self) -> Vec2 {
        self.start
    }

    /// Where the segment ends.
    pub closed spec fn end_point(&self) -> Vec2 {
        self.end
    }

    /// The segment from `start` to `end`.
    pub fn new(start: Vec2, end: Vec2) -> (r: Line)
        requires
            in_bounds(start),
            in_bounds(end),
        ensures
            r.start_point() == start,
            r.end_point() == end,
    {
        let magnitude = start.dist_to(&end);
        Line {
            start,
            end,
            delta_x: end.x as i64 - start.x as i64,
            delta_y: end.y as i64 - start.y as i64,
            magnitude,
        }
    }

    /// The length of the segment, rounded up to whole units.
    pub fn length(&self) -> (r: u64)
        ensures
            r as nat == dist_up(self.start_point(), self.end_point()),
    {
        proof {
            use_type_invariant(self);
        }
        self.magnitude
    }

    /// The two ends of the segment.
    pub fn get_start_end(&self) -> (r: (Vec2, Vec2))
        ensures
            r == (self.start_point(), self.end_point()),
    {
        (self.start, self.end)
    }

    /// The segment with `shortening_distance` cut off at each end: each end moves
    /// towards the other by `shortening_offset` on each axis. The distance must be
    /// less than half the length of the segment.
    pub fn get_shortened_version(&self, shortening_distance: u32) -> (r: Line)
        requires
            4 * shortening_distance * shortening_distance < sq_dist(
                self.start_point(),
                self.end_point(),
            ),
        ensures
            ({
                let a = self.start_point();
                let b = self.end_point();
                let len = dist_up(a, b) as int;
                let ox = shortening_offset(b.x - a.x, shortening_distance as int, len);
                let oy = shortening_offset(b.y - a.y, shortening_distance as int, len);
                &&& r.start_point() == (Vec2 { x: (a.x + ox) as i32, y: (a.y + oy) as i32 })
                &&& r.end_point() == (Vec2 { x: (b.x - ox) as i32, y: (b.y - oy) as i32 })
                &&& a.x + ox == (a.x + ox) as i32
                &&& a.y + oy == (a.y + oy) as i32
                &&& b.x - ox == (b.x - ox) as i32
                &&& b.y - oy == (b.y - oy) as i32
            }),
    {
        proof {
            use_type_invariant(self);
            crate::vector::lemma_sq_dist_bounds(self.start, self.end);
            crate::vector::lemma_ceil_sqrt(sq_dist(self.start, self.end) as nat);
        }
        let len = self.magnitude;
        let d = shortening_distance as u64;
        proof {
            let l = len as int;
            let n = sq_dist(self.start, self.end);
            assert(n <= l * l);
            assert(4 * d * d < n);
            if l <= 2 * d {
                assert(l * l <= 4 * d * d) by (nonlinear_arith)
                    requires
                        0 <= l <= 2 * d,
                ;
            }
            assert(d < l);
        }
        let ox = Self::offset(self.delta_x, d, len);
        let oy = Self::offset(self.delta_y, d, len);
        let start = Vec2::new((self.start.x as i64 + ox) as i32, (self.start.y as i64 + oy) as i32);
        let end = Vec2::new((self.end.x as i64 - ox) as i32, (self.end.y as i64 - oy) as i32);
        Line::new(start, end)
    }

    /// `shortening_offset(delta, d, len)`, which lies between zero and `delta`.
    fn offset(delta: i64, d: u64, len: u64) -> (r: i64)
        requires
            -0x8000_0000 <= delta <= 0x8000_0000,
            d < len,
        ensures
            r == shortening_offset(delta as int, d as int, len as int),
            0 <= delta ==> 0 <= r <= delta,
            delta < 0 ==> delta <= r <= 0,
    {
        let ax: u128 = if delta < 0 { (-delta) as u128 } else { delta as u128 };
        assert(ax * (d as u128) <= 0x8000_0000 * 0xffff_ffff_ffff_ffff) by (nonlinear_arith)
            requires
                ax <= 0x8000_0000,
                d <= 0xffff_ffff_ffff_ffff,
        ;
        let q: u128 = (ax * (d as u128)) / (len as u128);
        proof {
            let x = ax * d;
            vstd::arithmetic::div_mod::lemma_fundamental_div_mod(x as int, len as int);
            vstd::arithmetic::div_mod::lemma_mod_pos_bound(x as int, len as int);
            assert(q * len <= x) by (nonlinear_arith)
                requires
                    x == len * q + x % (len as int),
                    x % (len as int) >= 0,
            ;
            assert(q <= ax) by (nonlinear_arith)
                requires
                    q * len <= ax * d,
                    d < len,
                    0 <= q,
                    0 <= ax,
            ;
            if delta < 0 {
                assert(-delta * d == ax * d) by (nonlinear_arith)
                    requires
                        ax == -delta,
                ;
            }
        }
        if delta < 0 {
            -(q as i64)
        } else {
            q as i64
        }
    }

    /// Whether this segment crosses `other`, as `segments_cross` states it.
    pub fn intersects_with(&self, other: &Line) -> (r: bool)
        ensures
            r == segments_cross(
                self.start_point(),
                self.end_point(),
                other.start_point(),
                other.end_point(),
            ),
    {
        proof {
            use_type_invariant(self);
            use_type_invariant(other);
        }
        crosses(self.start, self.end, other.start, other.end)
    }

    /// Whether `test_point` lies beside this segment within `range`, as
    /// `in_critical_range` states it.
    pub fn is_in_critical_range(&self, test_point: Vec2, range: u32) -> (r: bool)
        requires
            in_bounds(test_point),
        ensures
            r == in_critical_range(self.start_point(), self.end_point(), test_point, range as int),
    {
        proof {
            use_type_invariant(self);
        }
        let m: i128 = 0x8000_0000;
        let dx = self.delta_x as i128;
        let dy = self.delta_y as i128;
        let rx = test_point.x as i128 - self.start.x as i128;
        let ry = test_point.y as i128 - self.start.y as i128;
        proof {
            lemma_mul_le(rx as int, dx as int, m as int);
            lemma_mul_le(ry as int, dy as int, m as int);
            lemma_mul_le(dx as int, dx as int, m as int);
            lemma_mul_le(dy as int, dy as int, m as int);
            lemma_mul_le(dx as int, ry as int, m as int);
            lemma_mul_le(dy as int, rx as int, m as int);
        }
        let along = rx * dx + ry * dy;
        let len2 = dx * dx + dy * dy;
        if !(0 < along && along < len2) {
            return false;
        }
        let root = crate::vector::floor_sqrt_u128(len2 as u128) as i128;
        let k = MARGIN_INV;
        let rest = len2 - along;
        proof {
            lemma_above_root(len2 as nat, k * along);
            lemma_above_root(len2 as nat, k * rest);
        }
        if !(k * along > root && k * rest > root) {
            return false;
        }
        let across = dx * ry - dy * rx;
        let across_abs: u128 = if across < 0 { (-across) as u128 } else { across as u128 };
        assert((range as u128) * (range as u128) <= 0x1_0000_0000_0000_0000) by (nonlinear_arith)
            requires
                range <= 0xffff_ffff,
        ;
        let r2: u128 = (range as u128) * (range as u128);
        proof {
            assert(0 <= len2 <= 0x8000_0000_0000_0000);
            assert(across_abs <= 0x8000_0000_0000_0000);
            assert(across_abs * across_abs <= 0x4000_0000_0000_0000_0000_0000_0000_0000) by (nonlinear_arith)
                requires
                    across_abs <= 0x8000_0000_0000_0000,
            ;
            assert(across_abs * across_abs == across * across) by (nonlinear_arith)
                requires
                    across_abs == across || across_abs == -across,
            ;
            assert(r2 <= 0x1_0000_0000_0000_0000) by (nonlinear_arith)
                requires
                    r2 == range * range,
                    range <= 0xffff_ffff,
            ;
            assert(r2 * (len2 as u128) <= 0x8000_0000_0000_0000_0000_0000_0000_0000) by (nonlinear_arith)
                requires
                    r2 <= 0x1_0000_0000_0000_0000,
                    0 <= len2 <= 0x8000_0000_0000_0000,
            ;
        }
        across_abs * across_abs <= r2 * (len2 as u128)
    }
}

} // verus!

//! Geometric primitives of the tiling engine.
//!
//! Coordinates are fixed-point: `SCALE` units to one geometric unit.  The
//! classic closeness tolerance of `1e-5` between coordinates is therefore
//! the exact integer bound `TOLERANCE`.  Closeness is reflexive and
//! symmetric but not transitive, so it is kept as a standalone predicate
//! and never wired into `PartialEq` or a hash.
//!
//! Rotation is restricted to multiples of 36 degrees, the symmetry of the
//! tiling; its cosines and sines are fixed-point constants at
//! `TRIG_SCALE`, chosen so that a rotation perturbs a coordinate by far
//! less than the tolerance.

use vstd::prelude::*;
use vstd::arithmetic::div_mod::{
    lemma_div_is_ordered, lemma_fundamental_div_mod, lemma_fundamental_div_mod_converse,
};
use crate::num::{floor_div, isqrt, is_sqrt_floor, sqrt_floor};
use core::cmp::Ordering;

verus! {

/// Fixed-point units in one geometric unit.
pub const SCALE: i64 = 1_000_000;

/// Two coordinates closer than this are considered the same point
/// coordinate: 1e-5 geometric units.
pub const TOLERANCE: i64 = 10;

/// Scale of the trigonometric constants below.
pub const TRIG_SCALE: i64 = 1_000_000_000_000;

/// Scale at which dimensionless side-length ratios are computed.
pub const RATIO_SCALE: i64 = 1_000_000_000_000;

/// The closeness tolerance of 1e-5, expressed at `RATIO_SCALE`.
pub const RATIO_TOLERANCE: i64 = 10_000_000;

/// The golden ratio at `RATIO_SCALE`.
pub const PHI: i64 = 1_618_033_988_750;

/// The inverse golden ratio (phi - 1 == 1 / phi) at `RATIO_SCALE`.
pub const PHI_INVERSE: i64 = 618_033_988_750;

/// cos 36 degrees at `TRIG_SCALE`.
pub const COS_36: i64 = 809_016_994_375;

/// sin 36 degrees at `TRIG_SCALE`.
pub const SIN_36: i64 = 587_785_252_292;

/// cos 72 degrees at `TRIG_SCALE`.
pub const COS_72: i64 = 309_016_994_375;

/// sin 72 degrees at `TRIG_SCALE`.
pub const SIN_72: i64 = 951_056_516_295;

/// Every geometric operation accepts coordinates up to this bound, chosen
/// so that no intermediate fixed-point product can overflow.
pub const COORD_MAX: i64 = 100_000_000_000_000;

/// A coordinate a geometric operation may work on.
pub open spec fn coord_ok(v: int) -> bool {
    -COORD_MAX <= v <= COORD_MAX
}

/// Closeness of two scalar fixed-point values: within `TOLERANCE`.
pub open spec fn spec_close_scalar(a: int, b: int) -> bool {
    -(TOLERANCE as int) < a - b < TOLERANCE as int
}

/// Closeness of two scalars, as the tolerance relation of this engine.
pub fn close_scalar(a: i64, b: i64) -> (r: bool)
    requires
        -1_000_000_000_000_000 <= a <= 1_000_000_000_000_000,
        -1_000_000_000_000_000 <= b <= 1_000_000_000_000_000,
    ensures
        r == spec_close_scalar(a as int, b as int),
{
    a - b < TOLERANCE && b - a < TOLERANCE
}

/// A point of the fixed-point plane.
#[derive(Copy, Clone, Debug, PartialEq, Eq, Structural)]
pub struct Point(pub i64, pub i64);

/// Both coordinates in working range.
pub open spec fn point_ok(p: Point) -> bool {
    coord_ok(p.0 as int) && coord_ok(p.1 as int)
}

/// Both coordinates within `bound`.
pub open spec fn point_within(p: Point, bound: int) -> bool {
    -bound <= p.0 as int <= bound && -bound <= p.1 as int <= bound
}

/// Closeness of two points: both coordinates close.
pub open spec fn spec_close_point(a: Point, b: Point) -> bool {
    spec_close_scalar(a.0 as int, b.0 as int) && spec_close_scalar(a.1 as int, b.1 as int)
}

/// Two points are the same up to the tolerance.
pub fn close(a: Point, b: Point) -> (r: bool)
    requires
        point_ok(a),
        point_ok(b),
    ensures
        r == spec_close_point(a, b),
{
    close_scalar(a.0, b.0) && close_scalar(a.1, b.1)
}

/// The tolerance relation is reflexive and symmetric.
pub proof fn lemma_close_reflexive_symmetric(a: Point, b: Point)
    ensures
        spec_close_point(a, a),
        spec_close_point(a, b) == spec_close_point(b, a),
{
}

/// The tolerance relation is not transitive: two hops of nine units
/// stay within the tolerance while their sum leaves it.  This is why it
/// must never back a general equality or hash contract.
pub proof fn lemma_close_not_transitive()
    ensures
        exists|a: Point, b: Point, c: Point|
            #[trigger] spec_close_point(a, b) && #[trigger] spec_close_point(b, c)
                && !spec_close_point(a, c),
{
    let a = Point(0, 0);
    let b = Point(9, 0);
    let c = Point(18, 0);
    assert(spec_close_point(a, b) && spec_close_point(b, c) && !spec_close_point(a, c));
}

/// Squared distance between two points, exactly.
pub open spec fn dist_sq(a: Point, b: Point) -> int {
    (a.0 - b.0) * (a.0 - b.0) + (a.1 - b.1) * (a.1 - b.1)
}

/// How `Point::compare` orders two points: by x coordinate, then by y,
/// treating close coordinates as ties.
pub open spec fn spec_compare(a: Point, b: Point) -> Ordering {
    if spec_close_scalar(a.0 as int, b.0 as int) {
        if spec_close_scalar(a.1 as int, b.1 as int) {
            Ordering::Equal
        } else if a.1 > b.1 {
            Ordering::Greater
        } else {
            Ordering::Less
        }
    } else if a.0 > b.0 {
        Ordering::Greater
    } else {
        Ordering::Less
    }
}

/// Index, 0 to 9, of a whole multiple of 36 degrees.
pub open spec fn angle_index(angle: int) -> int {
    (angle / 36) % 10
}

/// Fixed-point cosine of `k` times 36 degrees.
pub open spec fn cos_tab(k: int) -> int {
    if k == 0 { TRIG_SCALE as int }
    else if k == 1 { COS_36 as int }
    else if k == 2 { COS_72 as int }
    else if k == 3 { -COS_72 as int }
    else if k == 4 { -COS_36 as int }
    else if k == 5 { -TRIG_SCALE as int }
    else if k == 6 { -COS_36 as int }
    else if k == 7 { -COS_72 as int }
    else if k == 8 { COS_72 as int }
    else { COS_36 as int }
}

/// Fixed-point sine of `k` times 36 degrees, for a clockwise-positive
/// screen coordinate system.
pub open spec fn sin_tab(k: int) -> int {
    if k == 0 { 0int }
    else if k == 1 { SIN_36 as int }
    else if k == 2 { SIN_72 as int }
    else if k == 3 { SIN_72 as int }
    else if k == 4 { SIN_36 as int }
    else if k == 5 { 0int }
    else if k == 6 { -SIN_36 as int }
    else if k == 7 { -SIN_72 as int }
    else if k == 8 { -SIN_72 as int }
    else { -SIN_36 as int }
}

/// The x coordinate of `p` rotated by `k` table steps.
pub open spec fn rot_x(p: Point, k: int) -> int {
    (p.0 * cos_tab(k) - p.1 * sin_tab(k)) / (TRIG_SCALE as int)
}

/// The y coordinate of `p` rotated by `k` table steps.
pub open spec fn rot_y(p: Point, k: int) -> int {
    (p.0 * sin_tab(k) + p.1 * cos_tab(k)) / (TRIG_SCALE as int)
}

/// The point `p` rotated by `angle` degrees, as a value.
pub open spec fn spec_rot_point(p: Point, angle: int) -> Point {
    mk_point(rot_x(p, angle_index(angle)), rot_y(p, angle_index(angle)))
}

/// The component-wise sum of two points, as a value.
pub open spec fn spec_add_points(p: Point, q: Point) -> Point {
    mk_point(p.0 + q.0, p.1 + q.1)
}

/// The cosine/sine table entry for index `k`.
fn trig_entry(k: u64) -> (r: (i64, i64))
    requires
        k < 10,
    ensures
        r.0 as int == cos_tab(k as int),
        r.1 as int == sin_tab(k as int),
{
    match k {
        0 => (TRIG_SCALE, 0),
        1 => (COS_36, SIN_36),
        2 => (COS_72, SIN_72),
        3 => (-COS_72, SIN_72),
        4 => (-COS_36, SIN_36),
        5 => (-TRIG_SCALE, 0),
        6 => (-COS_36, -SIN_36),
        7 => (-COS_72, -SIN_72),
        8 => (COS_72, -SIN_72),
        _ => (COS_36, -SIN_36),
    }
}

impl Point {
    /// The origin.
    pub fn zero() -> (r: Point)
        ensures
            r == (Point(0, 0)),
    {
        Point(0, 0)
    }

    /// Component-wise sum.
    pub fn add(self, rhs: Point) -> (r: Point)
        requires
            point_ok(self),
            point_ok(rhs),
        ensures
            r.0 as int == self.0 + rhs.0,
            r.1 as int == self.1 + rhs.1,
    {
        Point(self.0 + rhs.0, self.1 + rhs.1)
    }

    /// Component-wise difference.
    pub fn sub(self, rhs: Point) -> (r: Point)
        requires
            point_ok(self),
            point_ok(rhs),
        ensures
            r.0 as int == self.0 - rhs.0,
            r.1 as int == self.1 - rhs.1,
    {
        Point(self.0 - rhs.0, self.1 - rhs.1)
    }

    /// Negation of both components.
    pub fn neg(self) -> (r: Point)
        requires
            point_ok(self),
        ensures
            r.0 as int == -self.0,
            r.1 as int == -self.1,
    {
        Point(-self.0, -self.1)
    }

    /// Multiplication by the fixed-point scalar `k` (at `SCALE`).
    pub fn scale(self, k: i64) -> (r: Point)
        requires
            point_within(self, 1_000_000_000_000),
            -1_000_000_000_000 <= k <= 1_000_000_000_000,
        ensures
            r.0 as int == (self.0 * k) / (SCALE as int),
            r.1 as int == (self.1 * k) / (SCALE as int),
    {
        proof {
            lemma_scaled_bound(self.0 as int, k as int);
            lemma_scaled_bound(self.1 as int, k as int);
        }
        let x = floor_div((self.0 as i128) * (k as i128), SCALE as i128);
        let y = floor_div((self.1 as i128) * (k as i128), SCALE as i128);
        Point(x as i64, y as i64)
    }

    /// Division by the fixed-point scalar `k` (at `SCALE`), `k` positive.
    pub fn scale_div(self, k: i64) -> (r: Point)
        requires
            point_within(self, 1_000_000_000_000),
            1 <= k,
        ensures
            r.0 as int == (self.0 * SCALE) / (k as int),
            r.1 as int == (self.1 * SCALE) / (k as int),
    {
        proof {
            lemma_product_bound(self.0 as int, SCALE as int, 1_000_000_000_000);
            lemma_product_bound(self.1 as int, SCALE as int, 1_000_000_000_000);
            lemma_div_small_bound(self.0 as int * SCALE as int, k as int,
                1_000_000_000_000_000_000);
            lemma_div_small_bound(self.1 as int * SCALE as int, k as int,
                1_000_000_000_000_000_000);
        }
        let x = floor_div((self.0 as i128) * (SCALE as i128), k as i128);
        let y = floor_div((self.1 as i128) * (SCALE as i128), k as i128);
        Point(x as i64, y as i64)
    }

    /// Euclidean distance to `point`, rounded down to a whole
    /// fixed-point unit.
    pub fn distance_to(&self, point: Point) -> (r: i64)
        requires
            point_ok(*self),
            point_ok(point),
        ensures
            r == sqrt_floor(dist_sq(*self, point)),
            is_sqrt_floor(dist_sq(*self, point), r as int),
            0 <= r < 1_000_000_000_000_000,
    {
        let dx = (self.0 as i128) - (point.0 as i128);
        let dy = (self.1 as i128) - (point.1 as i128);
        proof {
            lemma_square_bound(dx as int, 200_000_000_000_000);
            lemma_square_bound(dy as int, 200_000_000_000_000);
        }
        let d2 = (dx * dx + dy * dy) as u128;
        let r = isqrt(d2);
        proof {
            lemma_sqrt_small(d2 as int, r as int);
        }
        r as i64
    }

    /// The vector scaled to (fixed-point) unit length.  The input must
    /// be a measured, non-degenerate length: at least a fifth of a
    /// geometric unit.  On shorter vectors fixed-point quantization
    /// would push the result's length beyond the tolerance of one unit,
    /// so they are outside this function's domain.
    pub fn normalized(&self) -> (r: Point)
        requires
            point_ok(*self),
            dist_sq(*self, Point(0, 0)) >= 40_000_000_000,
        ensures
            r.0 as int == (self.0 * SCALE) / sqrt_floor(dist_sq(*self, Point(0, 0))),
            r.1 as int == (self.1 * SCALE) / sqrt_floor(dist_sq(*self, Point(0, 0))),
            point_within(r, 2 * SCALE),
    {
        let l = self.distance_to(Point(0, 0));
        proof {
            lemma_component_le_norm(*self, l as int);
        }
        let x = floor_div((self.0 as i128) * (SCALE as i128), l as i128);
        let y = floor_div((self.1 as i128) * (SCALE as i128), l as i128);
        proof {
            lemma_normalized_component(self.0 as int, l as int);
            lemma_normalized_component(self.1 as int, l as int);
        }
        Point(x as i64, y as i64)
    }

    /// Cross product (exact).
    pub fn cross(&self, other: Point) -> (r: i128)
        requires
            point_ok(*self),
            point_ok(other),
        ensures
            r as int == self.0 * other.1 - self.1 * other.0,
    {
        proof {
            lemma_product_bound(self.0 as int, other.1 as int, COORD_MAX as int);
            lemma_product_bound(self.1 as int, other.0 as int, COORD_MAX as int);
        }
        (self.0 as i128) * (other.1 as i128) - (self.1 as i128) * (other.0 as i128)
    }

    /// Order two points by x coordinate, then by y coordinate, with close
    /// coordinates counting as equal.  This is only locally consistent (the
    /// closeness relation is not transitive); it is safe for clustering
    /// co-located points, not as a general comparator.
    pub fn compare(a: Point, b: Point) -> (r: Ordering)
        requires
            point_ok(a),
            point_ok(b),
        ensures
            r == spec_compare(a, b),
    {
        if close_scalar(a.0, b.0) {
            if close_scalar(a.1, b.1) {
                Ordering::Equal
            } else if a.1 > b.1 {
                Ordering::Greater
            } else {
                Ordering::Less
            }
        } else if a.0 > b.0 {
            Ordering::Greater
        } else {
            Ordering::Less
        }
    }

    /// Rotation about the origin by `angle` degrees, a whole multiple of
    /// 36; a positive angle turns clockwise in screen coordinates.
    ///
    /// The domain is the tiling's own symmetry group: every turn the
    /// engine makes — assembling seed sectors, placing an apex over a
    /// base — is a multiple of 36 degrees, and those are the angles
    /// whose cosine and sine the engine carries as exact fixed-point
    /// constants.  Other angles have no constant here and no caller.
    pub fn rotate(&self, angle: i64) -> (r: Point)
        requires
            point_ok(*self),
            angle % 36 == 0,
            -1_000_000_000 <= angle <= 1_000_000_000,
        ensures
            r == spec_rot_point(*self, angle as int),
            r.0 as int == rot_x(*self, angle_index(angle as int)),
            r.1 as int == rot_y(*self, angle_index(angle as int)),
            -(abs1(self.0 as int) + abs1(self.1 as int)) <= r.0 as int
                <= abs1(self.0 as int) + abs1(self.1 as int),
            -(abs1(self.0 as int) + abs1(self.1 as int)) <= r.1 as int
                <= abs1(self.0 as int) + abs1(self.1 as int),
    {
        let k: u64 = if angle >= 0 {
            let q = (angle as u64) / 36;
            proof { lemma_angle_index_nonneg(angle as int); }
            q % 10
        } else {
            let n = (-angle) as u64;
            let q = n / 36;
            let m = q % 10;
            proof { lemma_angle_index_neg(angle as int); }
            (10 - m) % 10
        };
        let (c, s) = trig_entry(k);
        proof {
            lemma_rot_num_bound(self.0 as int, self.1 as int, c as int, s as int);
        }
        let xi = (self.0 as i128) * (c as i128) - (self.1 as i128) * (s as i128);
        let yi = (self.0 as i128) * (s as i128) + (self.1 as i128) * (c as i128);
        let x = floor_div(xi, TRIG_SCALE as i128);
        let y = floor_div(yi, TRIG_SCALE as i128);
        proof {
            lemma_rot_result_bound(xi as int, self.0 as int, self.1 as int);
            lemma_rot_result_bound(yi as int, self.0 as int, self.1 as int);
        }
        Point(x as i64, y as i64)
    }

    /// Whether this point is the same as `b` up to the tolerance.
    pub fn is_close(&self, b: &Point) -> (r: bool)
        requires
            point_ok(*self),
            point_ok(*b),
        ensures
            r == spec_close_point(*self, *b),
    {
        close(*self, *b)
    }

    /// Mirror across the x axis.
    pub fn mirror_x(&self) -> (r: Point)
        requires
            point_ok(*self),
        ensures
            r.0 as int == -self.0,
            r.1 as int == self.1,
    {
        Point(-self.0, self.1)
    }

    /// Mirror across the y axis.
    pub fn mirror_y(&self) -> (r: Point)
        requires
            point_ok(*self),
        ensures
            r.0 as int == self.0,
            r.1 as int == -self.1,
    {
        Point(self.0, -self.1)
    }
}

/// Absolute value, for bound bookkeeping in contracts.
pub open spec fn abs1(v: int) -> int {
    if v >= 0 { v } else { -v }
}

proof fn lemma_product_bound(a: int, b: int, m: int)
    requires
        -m <= a <= m,
        -m <= b <= m,
        0 <= m,
    ensures
        -(m * m) <= a * b <= m * m,
{
    assert(-(m * m) <= a * b <= m * m) by (nonlinear_arith)
        requires -m <= a <= m, -m <= b <= m, 0 <= m;
}

proof fn lemma_square_bound(a: int, m: int)
    requires
        -m <= a <= m,
        0 <= m,
    ensures
        0 <= a * a <= m * m,
{
    assert(0 <= a * a <= m * m) by (nonlinear_arith)
        requires -m <= a <= m, 0 <= m;
}

proof fn lemma_sqrt_small(n: int, r: int)
    requires
        is_sqrt_floor(n, r),
        n < 1000000000000000000000000000000,
    ensures
        0 <= r < 1_000_000_000_000_000,
{
    if r >= 1_000_000_000_000_000 {
        assert(r * r >= 1000000000000000000000000000000int) by (nonlinear_arith)
            requires r >= 1_000_000_000_000_000int;
    }
}

proof fn lemma_scaled_bound(x: int, k: int)
    requires
        -1_000_000_000_000 <= x <= 1_000_000_000_000,
        -1_000_000_000_000 <= k <= 1_000_000_000_000,
    ensures
        -1000000000000000000000000 <= x * k <= 1000000000000000000000000,
        -1_000_000_000_000_000_000 <= (x * k) / (SCALE as int) <= 1_000_000_000_000_000_000,
{
    lemma_product_bound(x, k, 1_000_000_000_000);
    lemma_div_small_bound(x * k, SCALE as int, 1000000000000000000000000);
    assert(1000000000000000000000000int / (SCALE as int) == 1_000_000_000_000_000_000int);
}

/// If `|a| <= m` then `a / b` lies within `[-m, m]` for positive `b`
/// (indeed within `[-m/b - 1, m/b]`, but the loose bound is what callers
/// need to cast back down).
proof fn lemma_div_small_bound(a: int, b: int, m: int)
    requires
        0 < b,
        0 <= m,
        -m <= a <= m,
    ensures
        -(m / b) - 1 <= a / b <= m / b,
{
    lemma_div_is_ordered(a, m, b);
    lemma_div_is_ordered(-m, a, b);
    lemma_neg_div_lower(m, b);
}

/// `(-m) / b >= -(m / b) - 1` for positive `b`, nonnegative `m`.
proof fn lemma_neg_div_lower(m: int, b: int)
    requires
        0 < b,
        0 <= m,
    ensures
        (-m) / b >= -(m / b) - 1,
{
    lemma_fundamental_div_mod(m, b);
    lemma_fundamental_div_mod(-m, b);
    let q = m / b;
    let r = m % b;
    // -m == (-q - 1) * b + (b - r) when r > 0, and (-q) * b when r == 0.
    if r == 0 {
        assert(-m == (-q) * b + 0) by (nonlinear_arith)
            requires m == b * q + 0;
        lemma_fundamental_div_mod_converse(-m, b, -q, 0);
    } else {
        assert(-m == (-q - 1) * b + (b - r)) by (nonlinear_arith)
            requires m == b * q + r;
        lemma_fundamental_div_mod_converse(-m, b, -q - 1, b - r);
    }
}

proof fn lemma_component_le_norm(p: Point, l: int)
    requires
        is_sqrt_floor(dist_sq(p, Point(0, 0)), l),
    ensures
        -l <= p.0 as int <= l,
        -l <= p.1 as int <= l,
{
    let x = p.0 as int;
    let y = p.1 as int;
    let d2 = dist_sq(p, Point(0, 0));
    assert(d2 == x * x + y * y);
    assert(x * x <= d2 && y * y <= d2) by (nonlinear_arith)
        requires d2 == x * x + y * y;
    if x > l {
        assert((l + 1) * (l + 1) <= x * x) by (nonlinear_arith)
            requires 0 <= l, l + 1 <= x;
    }
    if x < -l {
        assert((l + 1) * (l + 1) <= x * x) by (nonlinear_arith)
            requires 0 <= l, l + 1 <= -x;
    }
    if y > l {
        assert((l + 1) * (l + 1) <= y * y) by (nonlinear_arith)
            requires 0 <= l, l + 1 <= y;
    }
    if y < -l {
        assert((l + 1) * (l + 1) <= y * y) by (nonlinear_arith)
            requires 0 <= l, l + 1 <= -y;
    }
}

proof fn lemma_normalized_component(x: int, l: int)
    requires
        0 < l <= 1_000_000_000_000_000,
        -l <= x <= l,
    ensures
        -2 * SCALE <= (x * SCALE) / l <= 2 * SCALE,
        -1000000000000000000000 <= x * SCALE <= 1000000000000000000000,
{
    assert(-(l * SCALE) <= x * SCALE <= l * SCALE) by (nonlinear_arith)
        requires -l <= x <= l, 0 < l, SCALE == 1_000_000;
    lemma_div_is_ordered(x * SCALE, l * SCALE, l);
    lemma_div_is_ordered(-(l * SCALE), x * SCALE, l);
    assert((l * SCALE) / l == SCALE) by {
        lemma_mul_div_exact(SCALE as int, l);
    }
    assert((-(l * SCALE)) / l == -(SCALE as int)) by {
        lemma_mul_div_exact(-(SCALE as int), l);
    }
    assert(-(l * SCALE) >= -1000000000000000000000 && l * SCALE <= 1000000000000000000000)
        by (nonlinear_arith)
        requires 0 < l <= 1_000_000_000_000_000int, SCALE == 1_000_000;
}

/// `(k * l) / l == k` for positive `l`.
proof fn lemma_mul_div_exact(k: int, l: int)
    requires
        0 < l,
    ensures
        (l * k) / l == k,
        (k * l) / l == k,
{
    assert(l * k == k * l + 0) by (nonlinear_arith);
    lemma_fundamental_div_mod_converse(l * k, l, k, 0);
}

proof fn lemma_angle_index_nonneg(angle: int)
    requires
        0 <= angle,
        angle % 36 == 0,
    ensures
        angle_index(angle) == ((angle / 36) % 10),
        0 <= angle_index(angle) < 10,
{
}

proof fn lemma_angle_index_neg(angle: int)
    requires
        angle < 0,
        angle % 36 == 0,
        -1_000_000_000 <= angle,
    ensures
        ({
            let q = (-angle) / 36;
            let m = q % 10;
            angle_index(angle) == (10 - m) % 10
        }),
{
    let n = -angle;
    lemma_fundamental_div_mod(n, 36);
    lemma_fundamental_div_mod(angle, 36);
    let q = n / 36;
    // 36 divides angle, so it divides n and the quotients negate exactly.
    assert(n % 36 == 0) by {
        assert(angle == 36 * (angle / 36) + angle % 36);
        assert(n == 36 * (-(angle / 36)));
        lemma_fundamental_div_mod_converse(n, 36, -(angle / 36), 0);
    }
    assert(angle / 36 == -q) by {
        assert(n == 36 * q);
        lemma_fundamental_div_mod_converse(angle, 36, -q, 0);
    }
    lemma_fundamental_div_mod(q, 10);
    let t = q / 10;
    let m = q % 10;
    if m == 0 {
        lemma_fundamental_div_mod_converse(-q, 10, -t, 0);
        assert((10 - 0) % 10 == 0);
    } else {
        assert(-q == 10 * (-t - 1) + (10 - m)) by (nonlinear_arith)
            requires q == 10 * t + m;
        lemma_fundamental_div_mod_converse(-q, 10, -t - 1, 10 - m);
    }
}

proof fn lemma_rot_num_bound(x: int, y: int, c: int, s: int)
    requires
        coord_ok(x),
        coord_ok(y),
        -(TRIG_SCALE as int) <= c <= TRIG_SCALE as int,
        -(TRIG_SCALE as int) <= s <= TRIG_SCALE as int,
    ensures
        -(abs1(x) + abs1(y)) * TRIG_SCALE <= x * c - y * s
            <= (abs1(x) + abs1(y)) * TRIG_SCALE,
        -(abs1(x) + abs1(y)) * TRIG_SCALE <= x * s + y * c
            <= (abs1(x) + abs1(y)) * TRIG_SCALE,
        -1000000000000000000000000000 <= x * c - y * s <= 1000000000000000000000000000,
        -1000000000000000000000000000 <= x * s + y * c <= 1000000000000000000000000000,
        -1000000000000000000000000000 <= x * c <= 1000000000000000000000000000,
        -1000000000000000000000000000 <= y * s <= 1000000000000000000000000000,
        -1000000000000000000000000000 <= x * s <= 1000000000000000000000000000,
        -1000000000000000000000000000 <= y * c <= 1000000000000000000000000000,
{
    let kk = TRIG_SCALE as int;
    assert(-(abs1(x) * kk) <= x * c <= abs1(x) * kk) by (nonlinear_arith)
        requires -kk <= c <= kk, 0 <= abs1(x), -abs1(x) <= x <= abs1(x), 0 <= kk;
    assert(-(abs1(y) * kk) <= y * s <= abs1(y) * kk) by (nonlinear_arith)
        requires -kk <= s <= kk, 0 <= abs1(y), -abs1(y) <= y <= abs1(y), 0 <= kk;
    assert(-(abs1(x) * kk) <= x * s <= abs1(x) * kk) by (nonlinear_arith)
        requires -kk <= s <= kk, 0 <= abs1(x), -abs1(x) <= x <= abs1(x), 0 <= kk;
    assert(-(abs1(y) * kk) <= y * c <= abs1(y) * kk) by (nonlinear_arith)
        requires -kk <= c <= kk, 0 <= abs1(y), -abs1(y) <= y <= abs1(y), 0 <= kk;
    assert((abs1(x) + abs1(y)) * kk == abs1(x) * kk + abs1(y) * kk) by (nonlinear_arith);
    assert((abs1(x) + abs1(y)) * kk <= 1000000000000000000000000000) by (nonlinear_arith)
        requires abs1(x) <= COORD_MAX as int, abs1(y) <= COORD_MAX as int,
            kk == 1_000_000_000_000int;
}

/// A directed segment between two points.
#[derive(Copy, Clone, Debug, PartialEq, Eq, Structural)]
pub struct Line(pub Point, pub Point);

impl Line {
    /// Euclidean length, rounded down to a whole fixed-point unit.
    pub fn length(&self) -> (r: i64)
        requires
            point_ok(self.0),
            point_ok(self.1),
        ensures
            r == sqrt_floor(dist_sq(self.0, self.1)),
            is_sqrt_floor(dist_sq(self.0, self.1), r as int),
            0 <= r < 1_000_000_000_000_000,
    {
        self.0.distance_to(self.1)
    }

    /// Midpoint of the segment.
    pub fn median(&self) -> (r: Point)
        requires
            point_ok(self.0),
            point_ok(self.1),
        ensures
            r.0 as int == (self.0.0 + self.1.0) / 2,
            r.1 as int == (self.0.1 + self.1.1) / 2,
    {
        proof {
            lemma_div_small_bound(self.0.0 as int + self.1.0 as int, 2, 2 * COORD_MAX);
            lemma_div_small_bound(self.0.1 as int + self.1.1 as int, 2, 2 * COORD_MAX);
        }
        let x = floor_div((self.0.0 as i128) + (self.1.0 as i128), 2);
        let y = floor_div((self.0.1 as i128) + (self.1.1 as i128), 2);
        Point(x as i64, y as i64)
    }
}

/// The shape categories of the tiling's triangles: the two halves of the
/// golden rhombi, and the halves of the kite and dart tiles.
#[derive(Copy, Clone, Debug, PartialEq, Eq, Structural)]
pub enum TileType {
    SmallRhombus,
    LargeRhombus,
    Kite,
    Dart,
}

/// The canonical ratio, at `RATIO_SCALE`, of a tile's base to its leg
/// (to its longest side for the kite and dart).
pub open spec fn spec_ratio_of(t: TileType) -> int {
    match t {
        TileType::SmallRhombus => PHI_INVERSE as int,
        TileType::LargeRhombus => PHI as int,
        TileType::Kite => RATIO_SCALE as int,
        TileType::Dart => PHI_INVERSE as int,
    }
}

impl TileType {
    /// The canonical base-to-side ratio of this tile kind.
    pub fn base_to_side_ratio(self) -> (r: i64)
        ensures
            r as int == spec_ratio_of(self),
            0 < r,
    {
        match self {
            TileType::SmallRhombus => PHI_INVERSE,
            TileType::LargeRhombus => PHI,
            TileType::Kite => RATIO_SCALE,
            TileType::Dart => PHI_INVERSE,
        }
    }
}

/// Closeness of two fixed-point ratios: within `RATIO_TOLERANCE`,
/// the 1e-5 tolerance at `RATIO_SCALE`.
pub open spec fn spec_close_ratio(a: int, b: int) -> bool {
    -(RATIO_TOLERANCE as int) < a - b < RATIO_TOLERANCE as int
}

/// What classification computes from three vertices: the side lengths
/// `ab`, `bc`, `ca`, the ratio `ca / ab` at `RATIO_SCALE`, and the first
/// matching kind.  `None` when the base is degenerate or no kind's ratio
/// matches within tolerance.
#[verifier::opaque]
pub open spec fn spec_infer(a: Point, b: Point, c: Point) -> Option<TileType> {
    let ab = sqrt_floor(dist_sq(a, b));
    let bc = sqrt_floor(dist_sq(b, c));
    let ca = sqrt_floor(dist_sq(c, a));
    if ab == 0 {
        None
    } else {
        let ratio = (ca * RATIO_SCALE) / ab;
        if spec_close_scalar(ab, bc) && spec_close_ratio(ratio, PHI as int) {
            Some(TileType::LargeRhombus)
        } else if spec_close_scalar(ab, bc) && spec_close_ratio(ratio, PHI_INVERSE as int) {
            Some(TileType::SmallRhombus)
        } else if spec_close_ratio(ratio, RATIO_SCALE as int) {
            Some(TileType::Kite)
        } else if spec_close_ratio(ratio, PHI_INVERSE as int) {
            Some(TileType::Dart)
        } else {
            None
        }
    }
}

/// An isosceles triangle of the tiling, apex `b` over base `a`--`c`,
/// tagged with its kind.
#[derive(Copy, Clone, Debug, PartialEq, Eq, Structural)]
pub struct RobinsonTriangle {
    pub triangle_type: TileType,
    pub a: Point,
    pub b: Point,
    pub c: Point,
}

/// All three vertices in working range.
pub open spec fn tri_ok(t: RobinsonTriangle) -> bool {
    point_ok(t.a) && point_ok(t.b) && point_ok(t.c)
}

/// All three vertices within `bound`.
pub open spec fn tri_within(t: RobinsonTriangle, bound: int) -> bool {
    point_within(t.a, bound) && point_within(t.b, bound) && point_within(t.c, bound)
}

/// The kind tag agrees with what classification of the live vertices
/// gives: the invariant of every triangle this engine hands out.
pub open spec fn tri_valid(t: RobinsonTriangle) -> bool {
    spec_infer(t.a, t.b, t.c) == Some(t.triangle_type)
}

/// What `RobinsonTriangle::new` returns.
pub open spec fn spec_new(a: Point, b: Point, c: Point) -> Option<RobinsonTriangle> {
    match spec_infer(a, b, c) {
        Some(k) => Some(RobinsonTriangle { triangle_type: k, a, b, c }),
        None => None,
    }
}

/// The signed turn, in degrees, from the base direction `a` to `c`
/// toward the apex direction `a` to `b`.
pub open spec fn spec_turn(t: TileType, right_handed: bool) -> int {
    let deg: int = if t == TileType::SmallRhombus { 72 } else { 36 };
    if right_handed { -deg } else { deg }
}

/// A point built from unbounded coordinates; faithful whenever the
/// values fit an `i64`, which the operations' bounds guarantee.
pub open spec fn mk_point(x: int, y: int) -> Point {
    Point(x as i64, y as i64)
}

/// The x coordinate of the apex that `from_base` places over the base
/// `a`--`c` for the given kind and handedness.
pub open spec fn spec_apex_x(a: Point, c: Point, t: TileType, right_handed: bool) -> int {
    let k = angle_index(spec_turn(t, right_handed));
    let v = mk_point(c.0 - a.0, c.1 - a.1);
    let l0 = sqrt_floor(dist_sq(a, c));
    let abl = (l0 * RATIO_SCALE) / spec_ratio_of(t);
    a.0 + (abl * rot_x(v, k)) / l0
}

/// The y coordinate of the apex placed by `from_base`.
pub open spec fn spec_apex_y(a: Point, c: Point, t: TileType, right_handed: bool) -> int {
    let k = angle_index(spec_turn(t, right_handed));
    let v = mk_point(c.0 - a.0, c.1 - a.1);
    let l0 = sqrt_floor(dist_sq(a, c));
    let abl = (l0 * RATIO_SCALE) / spec_ratio_of(t);
    a.1 + (abl * rot_y(v, k)) / l0
}

/// A triangle's vertices rotated by `angle` degrees and re-classified.
pub open spec fn spec_rotate_tri(t: RobinsonTriangle, angle: int) -> Option<RobinsonTriangle> {
    spec_new(
        spec_rot_point(t.a, angle),
        spec_rot_point(t.b, angle),
        spec_rot_point(t.c, angle),
    )
}

/// A triangle's vertices mirrored across the x axis and re-classified.
pub open spec fn spec_mirror_x_tri(t: RobinsonTriangle) -> Option<RobinsonTriangle> {
    spec_new(
        mk_point(-t.a.0, t.a.1 as int),
        mk_point(-t.b.0, t.b.1 as int),
        mk_point(-t.c.0, t.c.1 as int),
    )
}

/// A triangle's vertices mirrored across the y axis and re-classified.
pub open spec fn spec_mirror_y_tri(t: RobinsonTriangle) -> Option<RobinsonTriangle> {
    spec_new(
        mk_point(t.a.0 as int, -t.a.1),
        mk_point(t.b.0 as int, -t.b.1),
        mk_point(t.c.0 as int, -t.c.1),
    )
}

/// The triangle `from_base` builds: the requested kind over the base
/// `a`--`c`, with the computed apex.
pub open spec fn spec_from_base(a: Point, c: Point, t: TileType, right_handed: bool)
    -> RobinsonTriangle {
    RobinsonTriangle {
        triangle_type: t,
        a,
        b: mk_point(
            spec_apex_x(a, c, t, right_handed),
            spec_apex_y(a, c, t, right_handed),
        ),
        c,
    }
}

impl RobinsonTriangle {
    /// Classify three vertices by their side-length ratios, requiring the
    /// rhombus kinds to be isosceles; `None` marks invalid geometry.
    pub fn infer_triangle_type(a: Point, b: Point, c: Point) -> (r: Option<TileType>)
        requires
            point_ok(a),
            point_ok(b),
            point_ok(c),
        ensures
            r == spec_infer(a, b, c),
    {
        proof {
            reveal(spec_infer);
        }
        let ab = Line(a, b).length();
        let bc = Line(b, c).length();
        let ca = Line(c, a).length();
        if ab == 0 {
            return None;
        }
        proof {
            lemma_product_bound(ca as int, RATIO_SCALE as int, 1_000_000_000_000_000);
        }
        let ratio = floor_div((ca as i128) * (RATIO_SCALE as i128), ab as i128);
        let iso = close_scalar(ab, bc);
        if iso && ratio - (PHI as i128) < RATIO_TOLERANCE as i128
            && (PHI as i128) - ratio < RATIO_TOLERANCE as i128 {
            Some(TileType::LargeRhombus)
        } else if iso && ratio - (PHI_INVERSE as i128) < RATIO_TOLERANCE as i128
            && (PHI_INVERSE as i128) - ratio < RATIO_TOLERANCE as i128 {
            Some(TileType::SmallRhombus)
        } else if ratio - (RATIO_SCALE as i128) < RATIO_TOLERANCE as i128
            && (RATIO_SCALE as i128) - ratio < RATIO_TOLERANCE as i128 {
            Some(TileType::Kite)
        } else if ratio - (PHI_INVERSE as i128) < RATIO_TOLERANCE as i128
            && (PHI_INVERSE as i128) - ratio < RATIO_TOLERANCE as i128 {
            Some(TileType::Dart)
        } else {
            None
        }
    }

    /// Build a triangle from three vertices, inferring its kind;
    /// `None` when the vertices fit no kind.
    pub fn new(a: Point, b: Point, c: Point) -> (r: Option<RobinsonTriangle>)
        requires
            point_ok(a),
            point_ok(b),
            point_ok(c),
        ensures
            r == spec_new(a, b, c),
            r is Some ==> tri_valid(r->Some_0),
            r is Some ==> r->Some_0.a == a && r->Some_0.b == b && r->Some_0.c == c,
    {
        match Self::infer_triangle_type(a, b, c) {
            Some(triangle_type) => Some(RobinsonTriangle { triangle_type, a, b, c }),
            None => None,
        }
    }

    /// Build a triangle over the base `a`--`c` with the requested kind,
    /// placing the apex by turning the base direction by the kind's
    /// vertex angle and scaling to the kind's side length.
    /// `right_handed` selects on which side of the base the apex lies.
    pub fn from_base(a: Point, c: Point, triangle_type: TileType, right_handed: bool)
        -> (r: RobinsonTriangle)
        requires
            point_within(a, 1_000_000_000_000),
            point_within(c, 1_000_000_000_000),
            a != c,
        ensures
            r == spec_from_base(a, c, triangle_type, right_handed),
            r.triangle_type == triangle_type,
            r.a == a,
            r.c == c,
            r.b.0 as int == spec_apex_x(a, c, triangle_type, right_handed),
            r.b.1 as int == spec_apex_y(a, c, triangle_type, right_handed),
            point_within(r.b, 12_000_000_000_000),
    {
        let angle: i64 = {
            let deg: i64 = if let TileType::SmallRhombus = triangle_type { 72 } else { 36 };
            if right_handed { -deg } else { deg }
        };
        let v = c.sub(a).rotate(angle);
        let l0 = a.distance_to(c);
        proof {
            lemma_pos_dist(a, c);
            lemma_base_len_bound(a, c, l0 as int);
            assert(0 <= l0 as int * RATIO_SCALE as int <= 3000000000000000000000000int)
                by (nonlinear_arith)
                requires 0 <= l0 <= 3_000_000_000_000int, RATIO_SCALE == 1_000_000_000_000int;
        }
        let ratio = triangle_type.base_to_side_ratio();
        let ab_len = floor_div((l0 as i128) * (RATIO_SCALE as i128), ratio as i128);
        proof {
            lemma_div_small_bound(l0 as int * RATIO_SCALE as int, ratio as int,
                3000000000000000000000000);
            assert(3000000000000000000000000int / (PHI_INVERSE as int) < 5_000_000_000_000int);
            assert(3000000000000000000000000int / (PHI as int) < 5_000_000_000_000int);
            assert(3000000000000000000000000int / (RATIO_SCALE as int) < 5_000_000_000_000int);
            lemma_div_nonneg(l0 as int * RATIO_SCALE as int, ratio as int);
            lemma_diff_le_norm(a, c, l0 as int);
            lemma_apex_component(ab_len as int, v.0 as int, l0 as int);
            lemma_apex_component(ab_len as int, v.1 as int, l0 as int);
        }
        let bx = a.0 + (floor_div((ab_len as i128) * (v.0 as i128), l0 as i128) as i64);
        let by = a.1 + (floor_div((ab_len as i128) * (v.1 as i128), l0 as i128) as i64);
        RobinsonTriangle { triangle_type, a, b: Point(bx, by), c }
    }

    /// Midpoint of the base `a`--`c`: the adjacency key for merging.
    pub fn base_median(&self) -> (r: Point)
        requires
            tri_ok(*self),
        ensures
            r.0 as int == (self.a.0 + self.c.0) / 2,
            r.1 as int == (self.a.1 + self.c.1) / 2,
    {
        Line(self.a, self.c).median()
    }

    /// Rotate about the origin by `angle` degrees (a multiple of 36),
    /// re-classifying the rotated vertices; `None` when rounding has
    /// pushed them outside every kind, which valid geometry never does.
    pub fn rotate(&self, angle: i64) -> (r: Option<RobinsonTriangle>)
        requires
            tri_within(*self, 50_000_000_000_000),
            angle % 36 == 0,
            -1_000_000_000 <= angle <= 1_000_000_000,
        ensures
            r == spec_rotate_tri(*self, angle as int),
    {
        RobinsonTriangle::new(
            self.a.rotate(angle),
            self.b.rotate(angle),
            self.c.rotate(angle),
        )
    }

    /// Mirror across the x axis, re-classifying the vertices.
    pub fn mirror_x(&self) -> (r: Option<RobinsonTriangle>)
        requires
            tri_ok(*self),
        ensures
            r == spec_mirror_x_tri(*self),
    {
        RobinsonTriangle::new(self.a.mirror_x(), self.b.mirror_x(), self.c.mirror_x())
    }

    /// Mirror across the y axis, re-classifying the vertices.
    pub fn mirror_y(&self) -> (r: Option<RobinsonTriangle>)
        requires
            tri_ok(*self),
        ensures
            r == spec_mirror_y_tri(*self),
    {
        RobinsonTriangle::new(self.a.mirror_y(), self.b.mirror_y(), self.c.mirror_y())
    }
}

impl RobinsonTriangle {
    /// The two matching arcs drawn on a triangle: each is centered on a
    /// base vertex, starts at the midpoint of the leg meeting there, and
    /// ends on the base at the same radius.
    pub fn arcs(&self) -> (r: (Arc, Arc))
        requires
            tri_within(*self, 50_000_000_000_000),
            self.a != self.c,
        ensures
            ({
                let m1 = Line(self.a, self.b).spec_median();
                let rad1 = sqrt_floor(dist_sq(m1, self.a));
                let l = sqrt_floor(dist_sq(self.a, self.c));
                &&& r.0.0 == m1
                &&& r.0.1 == self.a
                &&& r.0.2.0 as int == self.a.0 + (rad1 * (self.c.0 - self.a.0)) / l
                &&& r.0.2.1 as int == self.a.1 + (rad1 * (self.c.1 - self.a.1)) / l
            }),
            ({
                let m2 = Line(self.c, self.b).spec_median();
                let rad2 = sqrt_floor(dist_sq(m2, self.c));
                let l = sqrt_floor(dist_sq(self.a, self.c));
                &&& r.1.0 == m2
                &&& r.1.1 == self.c
                &&& r.1.2.0 as int == self.c.0 + (rad2 * (self.a.0 - self.c.0)) / l
                &&& r.1.2.1 as int == self.c.1 + (rad2 * (self.a.1 - self.c.1)) / l
            }),
    {
        let m1 = Line(self.a, self.b).median();
        let rad1 = m1.distance_to(self.a);
        let l = self.a.distance_to(self.c);
        proof {
            lemma_pos_dist(self.a, self.c);
            lemma_diff_le_norm(self.a, self.c, l as int);
            lemma_arc_component(rad1 as int, self.c.0 - self.a.0 as int, l as int);
            lemma_arc_component(rad1 as int, self.c.1 - self.a.1 as int, l as int);
        }
        let e1x = self.a.0
            + (floor_div((rad1 as i128) * ((self.c.0 - self.a.0) as i128), l as i128) as i64);
        let e1y = self.a.1
            + (floor_div((rad1 as i128) * ((self.c.1 - self.a.1) as i128), l as i128) as i64);
        let m2 = Line(self.c, self.b).median();
        let rad2 = m2.distance_to(self.c);
        proof {
            lemma_arc_component(rad2 as int, self.a.0 - self.c.0 as int, l as int);
            lemma_arc_component(rad2 as int, self.a.1 - self.c.1 as int, l as int);
        }
        let e2x = self.c.0
            + (floor_div((rad2 as i128) * ((self.a.0 - self.c.0) as i128), l as i128) as i64);
        let e2y = self.c.1
            + (floor_div((rad2 as i128) * ((self.a.1 - self.c.1) as i128), l as i128) as i64);
        ((m1, self.a, Point(e1x, e1y)), (m2, self.c, Point(e2x, e2y)))
    }
}

/// Bound on an arc endpoint offset: a radius scaled along a base
/// direction component and divided by the base length stays within the
/// radius.
proof fn lemma_arc_component(rad: int, dx: int, l: int)
    requires
        0 < l <= 1_000_000_000_000_000,
        0 <= rad <= 1_000_000_000_000_000,
        -l <= dx <= l,
    ensures
        -rad - 1 <= (rad * dx) / l <= rad,
        -1000000000000000000000000000000 <= rad * dx <= 1000000000000000000000000000000,
{
    assert(-(rad * l) <= rad * dx <= rad * l) by (nonlinear_arith)
        requires 0 <= rad, -l <= dx <= l;
    lemma_div_is_ordered(rad * dx, rad * l, l);
    lemma_div_is_ordered(-(rad * l), rad * dx, l);
    lemma_mul_div_exact(rad, l);
    lemma_neg_div_lower(rad * l, l);
    assert(rad * l <= 1000000000000000000000000000000) by (nonlinear_arith)
        requires 0 <= rad <= 1_000_000_000_000_000int, 0 < l <= 1_000_000_000_000_000int;
}

/// Closeness of two triangles: all three vertices close, pairwise.
pub open spec fn spec_close_triangle(t1: RobinsonTriangle, t2: RobinsonTriangle) -> bool {
    spec_close_point(t1.a, t2.a) && spec_close_point(t1.b, t2.b)
        && spec_close_point(t1.c, t2.c)
}

impl RobinsonTriangle {
    /// Whether this triangle is the same as `other` up to the tolerance,
    /// vertex by vertex.
    pub fn is_close(&self, other: &RobinsonTriangle) -> (r: bool)
        requires
            tri_ok(*self),
            tri_ok(*other),
        ensures
            r == spec_close_triangle(*self, *other),
    {
        close(self.a, other.a) && close(self.b, other.b) && close(self.c, other.c)
    }
}

/// An arc's start, center and end point.
pub type Arc = (Point, Point, Point);

/// A rhombus fused from two triangles that shared a base: `b` and `d`
/// are the two apexes, `a` and `c` the shared base's endpoints.
#[derive(Copy, Clone, Debug, PartialEq, Eq, Structural)]
pub struct Quadrilateral {
    pub a: Point,
    pub b: Point,
    pub c: Point,
    pub d: Point,
}

/// All four vertices in working range.
pub open spec fn quad_ok(q: Quadrilateral) -> bool {
    point_ok(q.a) && point_ok(q.b) && point_ok(q.c) && point_ok(q.d)
}

/// The kind a rhombus's vertex geometry shows: large when the `a`--`c`
/// diagonal is the longer one.
pub open spec fn spec_quad_type(q: Quadrilateral) -> TileType {
    if sqrt_floor(dist_sq(q.a, q.c)) > sqrt_floor(dist_sq(q.b, q.d)) {
        TileType::LargeRhombus
    } else {
        TileType::SmallRhombus
    }
}

impl Quadrilateral {
    /// Re-derive the rhombus kind from the diagonal lengths; it is never
    /// stored redundantly.
    pub fn quadrilateral_type(&self) -> (r: TileType)
        requires
            quad_ok(*self),
        ensures
            r == spec_quad_type(*self),
    {
        if Line(self.a, self.c).length() > Line(self.b, self.d).length() {
            TileType::LargeRhombus
        } else {
            TileType::SmallRhombus
        }
    }

    /// The two matching arcs drawn on a rhombus: each is centered on an
    /// apex of the fused pair and runs between the midpoints of the two
    /// sides meeting there.
    pub fn arcs(&self) -> (r: (Arc, Arc))
        requires
            quad_ok(*self),
        ensures
            r.0.0 == Line(self.a, self.b).spec_median(),
            r.0.1 == self.a,
            r.0.2 == Line(self.a, self.d).spec_median(),
            r.1.0 == Line(self.c, self.b).spec_median(),
            r.1.1 == self.c,
            r.1.2 == Line(self.c, self.d).spec_median(),
    {
        let first_arc = (
            Line(self.a, self.b).median(),
            self.a,
            Line(self.a, self.d).median(),
        );
        let second_arc = (
            Line(self.c, self.b).median(),
            self.c,
            Line(self.c, self.d).median(),
        );
        (first_arc, second_arc)
    }
}

impl Line {
    /// The midpoint, as a value.
    pub open spec fn spec_median(self) -> Point {
        mk_point((self.0.0 + self.1.0) / 2, (self.0.1 + self.1.1) / 2)
    }
}

/// Rotating by zero degrees, or by any whole number of full turns, is
/// the exact identity.
pub proof fn lemma_rotate_identity(p: Point, angle: int)
    requires
        point_ok(p),
        angle % 360 == 0,
        angle % 36 == 0,
    ensures
        rot_x(p, angle_index(angle)) == p.0 as int,
        rot_y(p, angle_index(angle)) == p.1 as int,
{
    let kk = TRIG_SCALE as int;
    lemma_fundamental_div_mod(angle, 360);
    let n = angle / 360;
    assert(angle == 10 * n * 36 + 0) by (nonlinear_arith)
        requires angle == 360 * n;
    lemma_fundamental_div_mod_converse(angle, 36, 10 * n, 0);
    vstd::arithmetic::div_mod::lemma_mod_multiples_basic(n, 10);
    assert(angle_index(angle) == 0);
    assert(p.0 * cos_tab(0) - p.1 * sin_tab(0) == kk * (p.0 as int)) by (nonlinear_arith)
        requires cos_tab(0) == kk, sin_tab(0) == 0;
    assert(p.0 * sin_tab(0) + p.1 * cos_tab(0) == kk * (p.1 as int)) by (nonlinear_arith)
        requires cos_tab(0) == kk, sin_tab(0) == 0;
    vstd::arithmetic::div_mod::lemma_div_multiples_vanish(p.0 as int, kk);
    vstd::arithmetic::div_mod::lemma_div_multiples_vanish(p.1 as int, kk);
}

/// Mirroring across both axes in turn lands exactly where a half turn
/// does: both send a point to its negation.
pub proof fn lemma_double_mirror_is_half_turn(p: Point)
    requires
        point_ok(p),
    ensures
        rot_x(p, angle_index(180)) == -p.0,
        rot_y(p, angle_index(180)) == -p.1,
{
    let kk = TRIG_SCALE as int;
    assert(angle_index(180) == 5);
    assert(p.0 * cos_tab(5) - p.1 * sin_tab(5) == kk * (-p.0 as int)) by (nonlinear_arith)
        requires cos_tab(5) == -kk, sin_tab(5) == 0;
    assert(p.0 * sin_tab(5) + p.1 * cos_tab(5) == kk * (-p.1 as int)) by (nonlinear_arith)
        requires cos_tab(5) == -kk, sin_tab(5) == 0;
    vstd::arithmetic::div_mod::lemma_div_multiples_vanish(-p.0 as int, kk);
    vstd::arithmetic::div_mod::lemma_div_multiples_vanish(-p.1 as int, kk);
}

/// The table index of a negated angle is the opposite index.
proof fn lemma_angle_index_opposite(angle: int)
    requires
        angle % 36 == 0,
    ensures
        0 <= angle_index(angle) < 10,
        angle_index(-angle) == (10 - angle_index(angle)) % 10,
{
    lemma_fundamental_div_mod(angle, 36);
    let q = angle / 36;
    assert(angle == 36 * q);
    assert(-angle == (-q) * 36 + 0) by (nonlinear_arith)
        requires angle == 36 * q;
    lemma_fundamental_div_mod_converse(-angle, 36, -q, 0);
    lemma_fundamental_div_mod(q, 10);
    vstd::arithmetic::div_mod::lemma_mod_bound(q, 10);
    let t = q / 10;
    let m = q % 10;
    if m == 0 {
        assert(-q == (-t) * 10 + 0) by (nonlinear_arith)
            requires q == 10 * t;
        lemma_fundamental_div_mod_converse(-q, 10, -t, 0);
        assert((10 - 0) % 10 == 0);
    } else {
        assert(-q == (-t - 1) * 10 + (10 - m)) by (nonlinear_arith)
            requires q == 10 * t + m;
        lemma_fundamental_div_mod_converse(-q, 10, -t - 1, 10 - m);
        assert((10 - m) % 10 == 10 - m);
    }
}

/// Opposite table rows carry the same cosine and the negated sine.
proof fn lemma_table_opposite(k: int)
    requires
        0 <= k < 10,
    ensures
        cos_tab((10 - k) % 10) == cos_tab(k),
        sin_tab((10 - k) % 10) == -sin_tab(k),
{
    if k == 0 {
        assert((10 - 0) % 10 == 0);
    } else {
        assert((10 - k) % 10 == 10 - k);
    }
}

/// Each table row is a unit vector up to a small defect: the sum of the
/// squares of its cosine and sine falls short of a perfect square of the
/// scale by less than 5e11.
proof fn lemma_table_delta(k: int)
    requires
        0 <= k < 10,
    ensures
        -500_000_000_000 <= cos_tab(k) * cos_tab(k) + sin_tab(k) * sin_tab(k)
            - (TRIG_SCALE as int) * (TRIG_SCALE as int) <= 0,
{
    let kk = TRIG_SCALE as int;
    if k == 0 || k == 5 {
        assert(cos_tab(k) * cos_tab(k) == kk * kk) by (nonlinear_arith)
            requires cos_tab(k) == kk || cos_tab(k) == -kk;
    } else if k == 1 || k == 4 || k == 6 || k == 9 {
        assert(-500_000_000_000 <= (COS_36 as int) * (COS_36 as int)
            + (SIN_36 as int) * (SIN_36 as int) - kk * kk <= 0) by (nonlinear_arith)
            requires COS_36 == 809_016_994_375i64, SIN_36 == 587_785_252_292i64,
                kk == 1_000_000_000_000int;
        assert(cos_tab(k) * cos_tab(k) == (COS_36 as int) * (COS_36 as int)
            && sin_tab(k) * sin_tab(k) == (SIN_36 as int) * (SIN_36 as int))
            by (nonlinear_arith)
            requires (cos_tab(k) == COS_36 as int || cos_tab(k) == -COS_36 as int)
                && (sin_tab(k) == SIN_36 as int || sin_tab(k) == -SIN_36 as int);
    } else {
        assert(-500_000_000_000 <= (COS_72 as int) * (COS_72 as int)
            + (SIN_72 as int) * (SIN_72 as int) - kk * kk <= 0) by (nonlinear_arith)
            requires COS_72 == 309_016_994_375i64, SIN_72 == 951_056_516_295i64,
                kk == 1_000_000_000_000int;
        assert(cos_tab(k) * cos_tab(k) == (COS_72 as int) * (COS_72 as int)
            && sin_tab(k) * sin_tab(k) == (SIN_72 as int) * (SIN_72 as int))
            by (nonlinear_arith)
            requires (cos_tab(k) == COS_72 as int || cos_tab(k) == -COS_72 as int)
                && (sin_tab(k) == SIN_72 as int || sin_tab(k) == -SIN_72 as int);
    }
}

/// One coordinate's worth of the round-trip argument: rotating by a table
/// row and back moves a coordinate by fewer than `TOLERANCE` units.
proof fn lemma_round_trip_core(x: int, y: int, c: int, s: int)
    requires
        -10_000_000_000_000 <= x <= 10_000_000_000_000,
        -10_000_000_000_000 <= y <= 10_000_000_000_000,
        -(TRIG_SCALE as int) <= c <= TRIG_SCALE as int,
        -(TRIG_SCALE as int) <= s <= TRIG_SCALE as int,
        -500_000_000_000 <= c * c + s * s - (TRIG_SCALE as int) * (TRIG_SCALE as int) <= 0,
    ensures
        ({
            let kk = TRIG_SCALE as int;
            let x1 = (x * c - y * s) / kk;
            let y1 = (x * s + y * c) / kk;
            spec_close_scalar((x1 * c + y1 * s) / kk, x)
                && spec_close_scalar((x1 * (-s) + y1 * c) / kk, y)
        }),
{
    let kk = TRIG_SCALE as int;
    let delta = c * c + s * s - kk * kk;
    let u = x * c - y * s;
    let v = x * s + y * c;
    lemma_fundamental_div_mod(u, kk);
    lemma_fundamental_div_mod(v, kk);
    vstd::arithmetic::div_mod::lemma_mod_bound(u, kk);
    vstd::arithmetic::div_mod::lemma_mod_bound(v, kk);
    let x1 = u / kk;
    let r1 = u % kk;
    let y1 = v / kk;
    let r2 = v % kk;
    let m = x1 * c + y1 * s;
    let w = x1 * (-s) + y1 * c;
    let e_num = x * delta - r1 * c - r2 * s;
    let f_num = y * delta + r1 * s - r2 * c;
    assert(kk * m == (kk * x1) * c + (kk * y1) * s) by (nonlinear_arith)
        requires m == x1 * c + y1 * s;
    assert((kk * x1) * c + (kk * y1) * s == (u - r1) * c + (v - r2) * s);
    assert((u - r1) * c + (v - r2) * s == u * c + v * s - r1 * c - r2 * s)
        by (nonlinear_arith);
    assert(u * c + v * s == x * (c * c + s * s)) by (nonlinear_arith)
        requires u == x * c - y * s, v == x * s + y * c;
    assert(x * (c * c + s * s) == kk * kk * x + x * delta) by (nonlinear_arith)
        requires delta == c * c + s * s - kk * kk;
    assert(kk * m == kk * kk * x + e_num);
    assert(kk * w == (kk * x1) * (-s) + (kk * y1) * c) by (nonlinear_arith)
        requires w == x1 * (-s) + y1 * c;
    assert((kk * x1) * (-s) + (kk * y1) * c == (u - r1) * (-s) + (v - r2) * c);
    assert((u - r1) * (-s) + (v - r2) * c == -(u * s) + v * c + r1 * s - r2 * c)
        by (nonlinear_arith);
    assert(-(u * s) + v * c == y * (c * c + s * s)) by (nonlinear_arith)
        requires u == x * c - y * s, v == x * s + y * c;
    assert(y * (c * c + s * s) == kk * kk * y + y * delta) by (nonlinear_arith)
        requires delta == c * c + s * s - kk * kk;
    assert(kk * w == kk * kk * y + f_num);
    assert(-8000000000000000000000000 <= e_num <= 8000000000000000000000000
        && -8000000000000000000000000 <= f_num <= 8000000000000000000000000)
        by (nonlinear_arith)
        requires
            e_num == x * delta - r1 * c - r2 * s,
            f_num == y * delta + r1 * s - r2 * c,
            -10_000_000_000_000 <= x <= 10_000_000_000_000,
            -10_000_000_000_000 <= y <= 10_000_000_000_000,
            -500_000_000_000 <= delta <= 500_000_000_000,
            0 <= r1 < kk,
            0 <= r2 < kk,
            -kk <= c <= kk,
            -kk <= s <= kk,
            kk == 1_000_000_000_000int;
    lemma_shift_bounded(m, x, e_num, kk);
    lemma_shift_bounded(w, y, f_num, kk);
}

/// If `kk * m == kk * kk * x + e` with `|e| <= 8e24`, then `m / kk` is
/// within 8 of `x`.
proof fn lemma_shift_bounded(m: int, x: int, e_num: int, kk: int)
    requires
        kk == TRIG_SCALE as int,
        kk * m == kk * kk * x + e_num,
        -8000000000000000000000000 <= e_num <= 8000000000000000000000000,
    ensures
        spec_close_scalar(m / kk, x),
{
    let e = m - kk * x;
    assert(e_num == kk * e) by (nonlinear_arith)
        requires kk * m == kk * kk * x + e_num, e == m - kk * x;
    assert(-8_000_000_000_000 <= e <= 8_000_000_000_000) by (nonlinear_arith)
        requires e_num == kk * e,
            -8000000000000000000000000 <= e_num <= 8000000000000000000000000,
            kk == 1_000_000_000_000int;
    lemma_fundamental_div_mod(e, kk);
    vstd::arithmetic::div_mod::lemma_mod_bound(e, kk);
    let q3 = e / kk;
    let r3 = e % kk;
    assert(m == (x + q3) * kk + r3) by (nonlinear_arith)
        requires e == kk * q3 + r3, e == m - kk * x;
    lemma_fundamental_div_mod_converse(m, kk, x + q3, r3);
    assert(-9 <= q3 <= 8) by (nonlinear_arith)
        requires e == kk * q3 + r3, 0 <= r3 < kk,
            -8_000_000_000_000 <= e <= 8_000_000_000_000,
            kk == 1_000_000_000_000int;
}

/// Rotating by any multiple of 36 degrees and then by its negation
/// returns every (engine-range) point to within the tolerance of where
/// it started.
pub proof fn lemma_rotate_round_trip(p: Point, angle: int)
    requires
        point_within(p, 10_000_000_000_000),
        angle % 36 == 0,
    ensures
        ({
            let k = angle_index(angle);
            let k2 = angle_index(-angle);
            let q = mk_point(rot_x(p, k), rot_y(p, k));
            spec_close_point(mk_point(rot_x(q, k2), rot_y(q, k2)), p)
        }),
{
    let kk = TRIG_SCALE as int;
    lemma_angle_index_opposite(angle);
    let k = angle_index(angle);
    let k2 = angle_index(-angle);
    lemma_table_opposite(k);
    lemma_table_delta(k);
    let c = cos_tab(k);
    let s = sin_tab(k);
    let x = p.0 as int;
    let y = p.1 as int;
    lemma_rot_num_bound(x, y, c, s);
    lemma_rot_result_bound(x * c - y * s, x, y);
    lemma_rot_result_bound(x * s + y * c, x, y);
    let x1 = (x * c - y * s) / kk;
    let y1 = (x * s + y * c) / kk;
    let q = mk_point(rot_x(p, k), rot_y(p, k));
    assert(q.0 as int == x1 && q.1 as int == y1);
    lemma_round_trip_core(x, y, c, s);
    assert(q.0 * cos_tab(k2) - q.1 * sin_tab(k2) == x1 * c + y1 * s) by (nonlinear_arith)
        requires q.0 as int == x1, q.1 as int == y1, cos_tab(k2) == c, sin_tab(k2) == -s;
    assert(q.0 * sin_tab(k2) + q.1 * cos_tab(k2) == x1 * (-s) + y1 * c) by (nonlinear_arith)
        requires q.0 as int == x1, q.1 as int == y1, cos_tab(k2) == c, sin_tab(k2) == -s;
    let x2 = rot_x(q, k2);
    let y2 = rot_y(q, k2);
    assert(spec_close_scalar(x2, x) && spec_close_scalar(y2, y));
    assert(-40_000_000_000_000 <= x2 <= 40_000_000_000_000
        && -40_000_000_000_000 <= y2 <= 40_000_000_000_000);
    assert(mk_point(x2, y2).0 as int == x2 && mk_point(x2, y2).1 as int == y2);
}

/// Mirroring across the x axis leaves every squared distance unchanged.
proof fn lemma_mirror_x_dist(p: Point, q: Point)
    requires
        point_ok(p),
        point_ok(q),
    ensures
        dist_sq(mk_point(-p.0, p.1 as int), mk_point(-q.0, q.1 as int)) == dist_sq(p, q),
{
    let mp = mk_point(-p.0, p.1 as int);
    let mq = mk_point(-q.0, q.1 as int);
    assert(mp.0 as int == -p.0 && mq.0 as int == -q.0);
    assert((mp.0 - mq.0) * (mp.0 - mq.0) == (p.0 - q.0) * (p.0 - q.0)) by (nonlinear_arith)
        requires mp.0 as int == -(p.0 as int), mq.0 as int == -(q.0 as int);
}

/// Mirroring across the y axis leaves every squared distance unchanged.
proof fn lemma_mirror_y_dist(p: Point, q: Point)
    requires
        point_ok(p),
        point_ok(q),
    ensures
        dist_sq(mk_point(p.0 as int, -p.1), mk_point(q.0 as int, -q.1)) == dist_sq(p, q),
{
    let mp = mk_point(p.0 as int, -p.1);
    let mq = mk_point(q.0 as int, -q.1);
    assert(mp.1 as int == -p.1 && mq.1 as int == -q.1);
    assert((mp.1 - mq.1) * (mp.1 - mq.1) == (p.1 - q.1) * (p.1 - q.1)) by (nonlinear_arith)
        requires mp.1 as int == -(p.1 as int), mq.1 as int == -(q.1 as int);
}

/// Classification is exactly invariant under either axis mirror: the
/// mirrored vertices have the same side lengths, so the same kind.
pub proof fn lemma_mirror_preserves_kind(a: Point, b: Point, c: Point)
    requires
        point_ok(a),
        point_ok(b),
        point_ok(c),
    ensures
        spec_infer(
            mk_point(-a.0, a.1 as int),
            mk_point(-b.0, b.1 as int),
            mk_point(-c.0, c.1 as int),
        ) == spec_infer(a, b, c),
        spec_infer(
            mk_point(a.0 as int, -a.1),
            mk_point(b.0 as int, -b.1),
            mk_point(c.0 as int, -c.1),
        ) == spec_infer(a, b, c),
{
    reveal(spec_infer);
    lemma_mirror_x_dist(a, b);
    lemma_mirror_x_dist(b, c);
    lemma_mirror_x_dist(c, a);
    lemma_mirror_y_dist(a, b);
    lemma_mirror_y_dist(b, c);
    lemma_mirror_y_dist(c, a);
}

/// A valid triangle's mirror is again valid, with the same kind: the
/// mirror constructors never fail on the triangles this engine builds.
pub proof fn lemma_mirror_y_of_valid(t: RobinsonTriangle)
    requires
        tri_ok(t),
        tri_valid(t),
    ensures
        spec_mirror_y_tri(t) == Some(RobinsonTriangle {
            triangle_type: t.triangle_type,
            a: mk_point(t.a.0 as int, -t.a.1),
            b: mk_point(t.b.0 as int, -t.b.1),
            c: mk_point(t.c.0 as int, -t.c.1),
        }),
{
    lemma_mirror_preserves_kind(t.a, t.b, t.c);
}

/// A valid triangle's half turn is again valid, with the same kind:
/// rotation by 180 degrees is the exact negation of every coordinate
/// (see `lemma_double_mirror_is_half_turn`), so it preserves every
/// squared distance and with them the classification.  For the other
/// table angles rotation rounds each coordinate, so kind preservation
/// there is a tolerance-margin statement, not an exact one, and is
/// checked at run time by the re-classifying constructors instead.
pub proof fn lemma_half_turn_of_valid(t: RobinsonTriangle)
    requires
        tri_ok(t),
        tri_valid(t),
    ensures
        ({
            let k = angle_index(180);
            spec_new(
                mk_point(rot_x(t.a, k), rot_y(t.a, k)),
                mk_point(rot_x(t.b, k), rot_y(t.b, k)),
                mk_point(rot_x(t.c, k), rot_y(t.c, k)),
            ) == Some(RobinsonTriangle {
                triangle_type: t.triangle_type,
                a: mk_point(-t.a.0, -t.a.1),
                b: mk_point(-t.b.0, -t.b.1),
                c: mk_point(-t.c.0, -t.c.1),
            })
        }),
{
    lemma_double_mirror_is_half_turn(t.a);
    lemma_double_mirror_is_half_turn(t.b);
    lemma_double_mirror_is_half_turn(t.c);
    lemma_mirror_preserves_kind(t.a, t.b, t.c);
    let ma = mk_point(-t.a.0, t.a.1 as int);
    let mb = mk_point(-t.b.0, t.b.1 as int);
    let mc = mk_point(-t.c.0, t.c.1 as int);
    lemma_mirror_preserves_kind(ma, mb, mc);
    assert(mk_point(ma.0 as int, -ma.1) == mk_point(-t.a.0, -t.a.1));
    assert(mk_point(mb.0 as int, -mb.1) == mk_point(-t.b.0, -t.b.1));
    assert(mk_point(mc.0 as int, -mc.1) == mk_point(-t.c.0, -t.c.1));
    let k = angle_index(180);
    assert(mk_point(rot_x(t.a, k), rot_y(t.a, k)) == mk_point(-t.a.0, -t.a.1));
    assert(mk_point(rot_x(t.b, k), rot_y(t.b, k)) == mk_point(-t.b.0, -t.b.1));
    assert(mk_point(rot_x(t.c, k), rot_y(t.c, k)) == mk_point(-t.c.0, -t.c.1));
}

/// Distinct points are at least one unit apart.
proof fn lemma_pos_dist(a: Point, c: Point)
    requires
        a != c,
        point_ok(a),
        point_ok(c),
    ensures
        dist_sq(a, c) >= 1,
        sqrt_floor(dist_sq(a, c)) >= 1,
        is_sqrt_floor(dist_sq(a, c), sqrt_floor(dist_sq(a, c))),
{
    let dx = a.0 - c.0;
    let dy = a.1 - c.1;
    assert(dx * dx + dy * dy >= 1) by (nonlinear_arith)
        requires dx != 0 || dy != 0;
    assert(dist_sq(a, c) >= 1);
    lemma_sqrt_exists(dist_sq(a, c));
    let r = sqrt_floor(dist_sq(a, c));
    assert(r >= 1) by (nonlinear_arith)
        requires is_sqrt_floor(dist_sq(a, c), r), dist_sq(a, c) >= 1;
}

/// Every nonnegative number has a floor square root (so `sqrt_floor` of
/// it satisfies `is_sqrt_floor`).
pub proof fn lemma_sqrt_exists(n: int)
    requires
        0 <= n,
    ensures
        is_sqrt_floor(n, sqrt_floor(n)),
    decreases n,
{
    if n == 0 {
        assert(is_sqrt_floor(0, 0));
    } else {
        lemma_sqrt_exists(n - 1);
        let r = sqrt_floor(n - 1);
        assert(is_sqrt_floor(n - 1, r));
        if (r + 1) * (r + 1) <= n {
            assert(is_sqrt_floor(n, r + 1)) by (nonlinear_arith)
                requires (r + 1) * (r + 1) <= n, n - 1 < (r + 1) * (r + 1), 0 <= r;
        } else {
            assert(is_sqrt_floor(n, r));
        }
    }
}

/// A nonnegative value divided by a positive one stays nonnegative.
proof fn lemma_div_nonneg(a: int, b: int)
    requires
        0 <= a,
        0 < b,
    ensures
        0 <= a / b,
{
    lemma_div_is_ordered(0, a, b);
}

/// Each coordinate of the difference `c - a` is bounded by the distance.
proof fn lemma_diff_le_norm(a: Point, c: Point, l: int)
    requires
        is_sqrt_floor(dist_sq(a, c), l),
    ensures
        -l <= c.0 - a.0 <= l,
        -l <= c.1 - a.1 <= l,
{
    let x = c.0 - a.0;
    let y = c.1 - a.1;
    let d2 = dist_sq(a, c);
    assert(d2 == x * x + y * y) by (nonlinear_arith)
        requires d2 == (a.0 - c.0) * (a.0 - c.0) + (a.1 - c.1) * (a.1 - c.1),
            x == c.0 - a.0, y == c.1 - a.1;
    assert(x * x <= d2 && y * y <= d2) by (nonlinear_arith)
        requires d2 == x * x + y * y;
    if x > l {
        assert((l + 1) * (l + 1) <= x * x) by (nonlinear_arith)
            requires 0 <= l, l + 1 <= x;
    }
    if x < -l {
        assert((l + 1) * (l + 1) <= x * x) by (nonlinear_arith)
            requires 0 <= l, l + 1 <= -x;
    }
    if y > l {
        assert((l + 1) * (l + 1) <= y * y) by (nonlinear_arith)
            requires 0 <= l, l + 1 <= y;
    }
    if y < -l {
        assert((l + 1) * (l + 1) <= y * y) by (nonlinear_arith)
            requires 0 <= l, l + 1 <= -y;
    }
}

/// Bound on one apex coordinate offset: a side length `f` scaled along a
/// rotated base direction `vx` and divided by the base length `l` stays
/// within twice the side length.
proof fn lemma_apex_component(f: int, vx: int, l: int)
    requires
        0 < l <= 1_000_000_000_000_000,
        0 <= f <= 5_000_000_000_000,
        -2 * l <= vx <= 2 * l,
    ensures
        -2 * f - 1 <= (f * vx) / l <= 2 * f,
        -30000000000000000000000000000 <= f * vx <= 30000000000000000000000000000,
{
    assert(-(f * (2 * l)) <= f * vx <= f * (2 * l)) by (nonlinear_arith)
        requires 0 <= f, -2 * l <= vx <= 2 * l;
    assert(f * (2 * l) == (2 * f) * l) by (nonlinear_arith);
    lemma_div_is_ordered(f * vx, (2 * f) * l, l);
    lemma_div_is_ordered(-((2 * f) * l), f * vx, l);
    lemma_mul_div_exact(2 * f, l);
    lemma_neg_div_lower((2 * f) * l, l);
    assert(((2 * f) * l) / l == 2 * f);
    assert(-(f * (2 * l)) >= -30000000000000000000000000000
        && f * (2 * l) <= 30000000000000000000000000000) by (nonlinear_arith)
        requires 0 <= f <= 5_000_000_000_000int, 0 < l <= 1_000_000_000_000_000int;
}

/// The distance between two points of the restricted (seed-scale) range
/// is itself small.
proof fn lemma_base_len_bound(a: Point, c: Point, l: int)
    requires
        point_within(a, 1_000_000_000_000),
        point_within(c, 1_000_000_000_000),
        is_sqrt_floor(dist_sq(a, c), l),
    ensures
        0 <= l <= 3_000_000_000_000,
{
    let dx = a.0 - c.0;
    let dy = a.1 - c.1;
    assert(dx * dx + dy * dy <= 8000000000000000000000000int) by (nonlinear_arith)
        requires -2_000_000_000_000 <= dx <= 2_000_000_000_000,
            -2_000_000_000_000 <= dy <= 2_000_000_000_000;
    if l > 3_000_000_000_000 {
        assert(l * l > 8000000000000000000000000int) by (nonlinear_arith)
            requires l > 3_000_000_000_000int;
    }
}

proof fn lemma_rot_result_bound(num: int, x: int, y: int)
    requires
        -(abs1(x) + abs1(y)) * TRIG_SCALE <= num <= (abs1(x) + abs1(y)) * TRIG_SCALE,
    ensures
        -(abs1(x) + abs1(y)) <= num / (TRIG_SCALE as int) <= abs1(x) + abs1(y),
{
    let kk = TRIG_SCALE as int;
    let b = abs1(x) + abs1(y);
    lemma_div_is_ordered(num, b * kk, kk);
    lemma_div_is_ordered(-(b * kk), num, kk);
    lemma_mul_div_exact(b, kk);
    lemma_mul_div_exact(-b, kk);
    assert(-(b * kk) == (-b) * kk) by (nonlinear_arith);
}

} // verus!

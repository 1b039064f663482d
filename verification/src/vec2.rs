//! Fixed-point 2D vectors.
//!
//! All world coordinates and velocities are integers in milli-units: one
//! thousand counts stand for one world unit. Distances are measured with an
//! integer square root rounded up, so a stated distance never undershoots the
//! exact one. Divisions truncate toward zero, as Rust's integer division does.

use vstd::prelude::*;
use vstd::arithmetic::div_mod::{
    lemma_div_is_ordered, lemma_div_multiples_vanish, lemma_fundamental_div_mod,
    lemma_div_pos_is_pos,
};

verus! {

/// Milli-unit scale: this many counts make one world unit.
pub const UNIT: i64 = 1000;

/// Largest magnitude a world coordinate may have, in milli-units.
pub const MAX_COORD: i64 = 1_000_000_000;

/// A 2D point or vector in milli-units.
#[derive(Clone, Copy, Debug, PartialEq, Eq, Structural)]
pub struct Vec2 {
    /// Horizontal component, in milli-units.
    pub x: i64,
    /// Vertical component, in milli-units.
    pub y: i64,
}

impl View for Vec2 {
    type V = (int, int);

    open spec fn view(&self) -> (int, int) {
        (self.x as int, self.y as int)
    }
}

/// Componentwise sum.
pub open spec fn addp(a: (int, int), b: (int, int)) -> (int, int) {
    (a.0 + b.0, a.1 + b.1)
}

/// Componentwise difference.
pub open spec fn subp(a: (int, int), b: (int, int)) -> (int, int) {
    (a.0 - b.0, a.1 - b.1)
}

/// Componentwise negation.
pub open spec fn negp(a: (int, int)) -> (int, int) {
    (-a.0, -a.1)
}

/// Squared Euclidean length.
pub open spec fn len2p(a: (int, int)) -> int {
    a.0 * a.0 + a.1 * a.1
}

/// Both components lie within `[-b, b]`.
pub open spec fn boundedp(a: (int, int), b: int) -> bool {
    -b <= a.0 <= b && -b <= a.1 <= b
}

/// Division truncating toward zero, as Rust's `/` on signed integers.
pub open spec fn tdiv(a: int, d: int) -> int {
    if a >= 0 {
        a / d
    } else {
        -((-a) / d)
    }
}

/// Componentwise multiply by `m` then divide by `d`, truncating toward zero.
pub open spec fn scalep(a: (int, int), m: int, d: int) -> (int, int) {
    (tdiv(a.0 * m, d), tdiv(a.1 * m, d))
}

/// Integer square root, rounded down.
pub open spec fn sqrt_floor(n: int) -> int
    decreases n,
{
    if n <= 0 {
        0
    } else {
        let r = sqrt_floor(n - 1);
        if (r + 1) * (r + 1) <= n {
            r + 1
        } else {
            r
        }
    }
}

/// Integer square root, rounded up.
pub open spec fn sqrt_ceil(n: int) -> int {
    let r = sqrt_floor(n);
    if r * r == n {
        r
    } else {
        r + 1
    }
}

/// Length of a vector: ceiling square root of the squared length.
pub open spec fn lenp(a: (int, int)) -> int {
    sqrt_ceil(len2p(a))
}

/// Distance from `a` to `b`, rounded up.
pub open spec fn distp(a: (int, int), b: (int, int)) -> int {
    lenp(subp(b, a))
}

/// Normalization to a unit-scale vector; the zero vector stays zero.
pub open spec fn normp(a: (int, int)) -> (int, int) {
    if len2p(a) == 0 {
        (0, 0)
    } else {
        scalep(a, UNIT as int, lenp(a))
    }
}

pub proof fn lemma_sqrt_floor_props(n: int)
    requires
        n >= 0,
    ensures
        sqrt_floor(n) >= 0,
        sqrt_floor(n) * sqrt_floor(n) <= n,
        n < (sqrt_floor(n) + 1) * (sqrt_floor(n) + 1),
    decreases n,
{
    if n == 0 {
    } else {
        lemma_sqrt_floor_props(n - 1);
        let r = sqrt_floor(n - 1);
        let s = sqrt_floor(n);
        if (r + 1) * (r + 1) <= n {
            assert(s == r + 1);
            assert(n < (r + 2) * (r + 2)) by {
                assert(n - 1 < (r + 1) * (r + 1));
                assert((r + 1) * (r + 1) < (r + 2) * (r + 2)) by (nonlinear_arith)
                    requires r >= 0;
            }
            assert((s + 1) * (s + 1) == (r + 2) * (r + 2)) by (nonlinear_arith)
                requires s == r + 1;
        } else {
            assert(s == r);
            assert(r * r <= n - 1 <= n);
            assert(n < (r + 1) * (r + 1));
        }
    }
}

pub proof fn lemma_sqrt_floor_unique(n: int, r: int)
    requires
        n >= 0,
        r >= 0,
        r * r <= n,
        n < (r + 1) * (r + 1),
    ensures
        r == sqrt_floor(n),
{
    lemma_sqrt_floor_props(n);
    let s = sqrt_floor(n);
    if r < s {
        assert((r + 1) * (r + 1) <= s * s) by (nonlinear_arith)
            requires 0 <= r, r < s;
        assert(false);
    }
    if s < r {
        assert((s + 1) * (s + 1) <= r * r) by (nonlinear_arith)
            requires 0 <= s, s < r;
        assert(false);
    }
}

pub proof fn lemma_sqrt_ceil_props(n: int)
    requires
        n >= 0,
    ensures
        sqrt_ceil(n) >= 0,
        sqrt_ceil(n) * sqrt_ceil(n) >= n,
        n >= 1 ==> sqrt_ceil(n) >= 1,
{
    lemma_sqrt_floor_props(n);
    let s = sqrt_floor(n);
    if s * s == n {
        assert(sqrt_ceil(n) == s);
    } else {
        assert(sqrt_ceil(n) == s + 1);
        assert((s + 1) * (s + 1) > n);
    }
    if n >= 1 && s == 0 {
        assert(s * s != n);
    }
}

/// The ceiling square root never exceeds a bound whose square covers `n`.
pub proof fn lemma_sqrt_ceil_le(n: int, b: int)
    requires
        0 <= n,
        0 <= b,
        n <= b * b,
    ensures
        sqrt_ceil(n) <= b,
{
    lemma_sqrt_floor_props(n);
    let s = sqrt_floor(n);
    if s > b {
        assert(b * b < s * s) by (nonlinear_arith)
            requires 0 <= b, b < s;
        assert(false);
    }
    if s == b && s * s < n {
        assert(false);
    }
}

/// The ceiling square root is monotone.
pub proof fn lemma_sqrt_ceil_mono(m: int, n: int)
    requires
        0 <= m <= n,
    ensures
        sqrt_ceil(m) <= sqrt_ceil(n),
{
    lemma_sqrt_ceil_props(n);
    lemma_sqrt_ceil_le(m, sqrt_ceil(n));
}

/// The ceiling square root of a squared length covers each component.
pub proof fn lemma_sqrt_ceil_ge_abs(x: int, y: int)
    requires
        x * x + y * y >= 0,
    ensures
        sqrt_ceil(x * x + y * y) >= x,
        sqrt_ceil(x * x + y * y) >= -x,
        sqrt_ceil(x * x + y * y) >= y,
        sqrt_ceil(x * x + y * y) >= -y,
{
    let n = x * x + y * y;
    lemma_sqrt_ceil_props(n);
    let c = sqrt_ceil(n);
    assert(x * x >= 0 && y * y >= 0) by (nonlinear_arith);
    lemma_sq_covered(c, x, n);
    lemma_sq_covered(c, y, n);
}

/// A nonnegative `c` with `c * c >= v * v` bounds `v` on both sides.
proof fn lemma_sq_covered(c: int, v: int, n: int)
    requires
        c >= 0,
        c * c >= n,
        v * v <= n,
    ensures
        c >= v,
        c >= -v,
{
    if c < v {
        assert(c * c < v * v) by (nonlinear_arith)
            requires 0 <= c, c < v;
        assert(false);
    }
    if c < -v {
        assert(c * c < v * v) by (nonlinear_arith)
            requires 0 <= c, c < -v;
        assert(false);
    }
}

/// The Cauchy-Schwarz inequality on integer pairs.
proof fn lemma_cauchy_schwarz(a: int, b: int, c: int, d: int)
    ensures
        (a * b + c * d) * (a * b + c * d) <= (a * a + c * c) * (b * b + d * d),
{
    let p = a * b;
    let q = c * d;
    let r = a * d;
    let s = c * b;
    assert((a * a) * (b * b) == p * p) by (nonlinear_arith)
        requires p == a * b;
    assert((a * a) * (d * d) == r * r) by (nonlinear_arith)
        requires r == a * d;
    assert((c * c) * (b * b) == s * s) by (nonlinear_arith)
        requires s == c * b;
    assert((c * c) * (d * d) == q * q) by (nonlinear_arith)
        requires q == c * d;
    assert((a * a + c * c) * (b * b + d * d)
        == (a * a) * (b * b) + (a * a) * (d * d) + (c * c) * (b * b) + (c * c) * (d * d))
        by (nonlinear_arith);
    assert(p * q == r * s) by (nonlinear_arith)
        requires p == a * b, q == c * d, r == a * d, s == c * b;
    assert((p + q) * (p + q) == p * p + 2 * (p * q) + q * q) by (nonlinear_arith);
    assert((r - s) * (r - s) == r * r - 2 * (r * s) + s * s) by (nonlinear_arith);
    assert((r - s) * (r - s) >= 0) by (nonlinear_arith);
}

/// A point's distance to itself is zero.
pub proof fn lemma_dist_self(a: (int, int))
    ensures
        distp(a, a) == 0,
{
    assert(subp(a, a) == (0int, 0int));
    assert(len2p((0int, 0int)) == 0);
}

/// The triangle inequality for rounded-up distances.
pub proof fn lemma_dist_triangle(a: (int, int), b: (int, int), c: (int, int))
    ensures
        distp(a, c) <= distp(a, b) + distp(b, c),
{
    let u = subp(b, a);
    let v = subp(c, b);
    assert(subp(c, a) == addp(u, v));
    let nu = len2p(u);
    let nv = len2p(v);
    lemma_len2_nonneg(u);
    lemma_len2_nonneg(v);
    let ca = sqrt_ceil(nu);
    let cb = sqrt_ceil(nv);
    lemma_sqrt_ceil_props(nu);
    lemma_sqrt_ceil_props(nv);
    let dot = u.0 * v.0 + u.1 * v.1;
    assert(dot <= ca * cb) by {
        if dot > 0 {
            lemma_cauchy_schwarz(u.0, v.0, u.1, v.1);
            assert(nu * nv <= (ca * ca) * (cb * cb)) by (nonlinear_arith)
                requires 0 <= nu <= ca * ca, 0 <= nv <= cb * cb;
            assert((ca * ca) * (cb * cb) == (ca * cb) * (ca * cb)) by (nonlinear_arith);
            assert(dot <= ca * cb) by (nonlinear_arith)
                requires dot * dot <= (ca * cb) * (ca * cb), dot > 0, ca >= 0, cb >= 0;
        } else {
            assert(ca * cb >= 0) by (nonlinear_arith)
                requires ca >= 0, cb >= 0;
        }
    }
    assert(len2p(addp(u, v)) == nu + nv + 2 * dot) by (nonlinear_arith)
        requires
            nu == u.0 * u.0 + u.1 * u.1,
            nv == v.0 * v.0 + v.1 * v.1,
            dot == u.0 * v.0 + u.1 * v.1,
            len2p(addp(u, v))
                == (u.0 + v.0) * (u.0 + v.0) + (u.1 + v.1) * (u.1 + v.1);
    assert(nu + nv + 2 * dot <= (ca + cb) * (ca + cb)) by (nonlinear_arith)
        requires nu <= ca * ca, nv <= cb * cb, dot <= ca * cb;
    lemma_len2_nonneg(addp(u, v));
    lemma_sqrt_ceil_le(len2p(addp(u, v)), ca + cb);
}

/// Truncating division stays within a componentwise bound.
pub proof fn lemma_tdiv_abs_le(a: int, d: int, c: int)
    requires
        d >= 1,
        c >= 0,
        -(c * d) <= a <= c * d,
    ensures
        -c <= tdiv(a, d) <= c,
{
    if a >= 0 {
        lemma_div_is_ordered(a, c * d, d);
        lemma_div_multiples_vanish(c, d);
        lemma_div_pos_is_pos(a, d);
        assert((c * d) / d == c) by {
            assert(c * d == d * c) by (nonlinear_arith);
        }
    } else {
        lemma_div_is_ordered(-a, c * d, d);
        lemma_div_multiples_vanish(c, d);
        lemma_div_pos_is_pos(-a, d);
        assert((c * d) / d == c) by {
            assert(c * d == d * c) by (nonlinear_arith);
        }
    }
}

/// Truncating division is odd in its dividend.
pub proof fn lemma_tdiv_neg(a: int, d: int)
    requires
        d >= 1,
    ensures
        tdiv(-a, d) == -tdiv(a, d),
{
    if a == 0 {
        vstd::arithmetic::div_mod::lemma_div_pos_is_pos(0, d);
        vstd::arithmetic::div_mod::lemma_div_nonincreasing(0, d);
    }
}

/// Truncating division times the divisor does not exceed a nonnegative dividend.
pub proof fn lemma_tdiv_mul_le(a: int, d: int)
    requires
        a >= 0,
        d >= 1,
    ensures
        0 <= tdiv(a, d),
        tdiv(a, d) * d <= a,
{
    lemma_fundamental_div_mod(a, d);
    lemma_div_pos_is_pos(a, d);
    assert(tdiv(a, d) * d == d * (a / d)) by (nonlinear_arith)
        requires a >= 0, tdiv(a, d) == a / d;
    assert(a % d >= 0) by {
        lemma_mod_bound(a, d);
    }
}

/// The remainder of a nonnegative dividend is nonnegative and below the divisor.
proof fn lemma_mod_bound(a: int, d: int)
    requires
        a >= 0,
        d >= 1,
    ensures
        0 <= a % d < d,
{
}

impl Vec2 {
    /// Build a vector from milli-unit components.
    pub fn new(x: i64, y: i64) -> (r: Vec2)
        ensures
            r@ == (x as int, y as int),
    {
        Vec2 { x, y }
    }

    /// The zero vector.
    pub fn zero() -> (r: Vec2)
        ensures
            r@ == (0int, 0int),
    {
        Vec2 { x: 0, y: 0 }
    }

    /// Componentwise sum.
    pub fn plus(self, o: Vec2) -> (r: Vec2)
        requires
            boundedp(self@, 2_000_000_000_000_000_000),
            boundedp(o@, 2_000_000_000_000_000_000),
        ensures
            r@ == addp(self@, o@),
    {
        Vec2 { x: self.x + o.x, y: self.y + o.y }
    }

    /// Componentwise difference.
    pub fn minus(self, o: Vec2) -> (r: Vec2)
        requires
            boundedp(self@, 2_000_000_000_000_000_000),
            boundedp(o@, 2_000_000_000_000_000_000),
        ensures
            r@ == subp(self@, o@),
    {
        Vec2 { x: self.x - o.x, y: self.y - o.y }
    }

    /// Componentwise negation.
    pub fn neg(self) -> (r: Vec2)
        requires
            boundedp(self@, 2_000_000_000_000_000_000),
        ensures
            r@ == negp(self@),
    {
        Vec2 { x: -self.x, y: -self.y }
    }

    /// Squared Euclidean length.
    pub fn len2(self) -> (r: i64)
        requires
            boundedp(self@, 2_100_000_000),
        ensures
            r == len2p(self@),
            r >= 0,
    {
        proof {
            assert(self.x * self.x <= 2_100_000_000 * 2_100_000_000
                && self.x * self.x >= 0) by (nonlinear_arith)
                requires -2_100_000_000 <= self.x <= 2_100_000_000;
            assert(self.y * self.y <= 2_100_000_000 * 2_100_000_000
                && self.y * self.y >= 0) by (nonlinear_arith)
                requires -2_100_000_000 <= self.y <= 2_100_000_000;
        }
        self.x * self.x + self.y * self.y
    }

    /// Multiply by `m` and divide by `d`, truncating toward zero, per component.
    pub fn scale_div(self, m: i64, d: i64) -> (r: Vec2)
        requires
            d >= 1,
            -9_000_000_000_000_000_000 <= self@.0 * m <= 9_000_000_000_000_000_000,
            -9_000_000_000_000_000_000 <= self@.1 * m <= 9_000_000_000_000_000_000,
        ensures
            r@ == scalep(self@, m as int, d as int),
    {
        let px = self.x * m;
        let py = self.y * m;
        proof {
            lemma_tdiv_abs_le_weak(px as int, d as int);
            lemma_tdiv_abs_le_weak(py as int, d as int);
        }
        Vec2 { x: px / d, y: py / d }
    }

    /// Ceiling of the Euclidean length.
    pub fn len_ceil(self) -> (r: i64)
        requires
            boundedp(self@, 2_100_000_000),
        ensures
            r == lenp(self@),
            r >= 0,
            len2p(self@) >= 1 ==> r >= 1,
    {
        let n = self.len2();
        proof {
            lemma_sqrt_ceil_props(n as int);
        }
        isqrt_ceil(n)
    }

    /// Ceiling of the distance to `o`.
    pub fn dist_ceil(self, o: Vec2) -> (r: i64)
        requires
            boundedp(self@, 1_050_000_000),
            boundedp(o@, 1_050_000_000),
        ensures
            r == distp(self@, o@),
            r >= 0,
            r <= 3_000_000_000,
    {
        let d = o.minus(self);
        proof {
            let n = len2p(d@);
            assert(n <= 9_000_000_000_000_000_000) by (nonlinear_arith)
                requires -2_100_000_000 <= d@.0 <= 2_100_000_000,
                    -2_100_000_000 <= d@.1 <= 2_100_000_000,
                    n == d@.0 * d@.0 + d@.1 * d@.1;
            assert(9_000_000_000_000_000_000 == 3_000_000_000 * 3_000_000_000)
                by (nonlinear_arith);
            lemma_len2_nonneg(d@);
            lemma_sqrt_ceil_le(n, 3_000_000_000);
        }
        d.len_ceil()
    }

    /// Scale to unit length (`UNIT` milli-units); the zero vector stays zero.
    pub fn normalize_or_zero(self) -> (r: Vec2)
        requires
            boundedp(self@, 2_100_000_000),
        ensures
            r@ == normp(self@),
            boundedp(r@, UNIT as int),
    {
        let n = self.len2();
        if n == 0 {
            Vec2 { x: 0, y: 0 }
        } else {
            let l = isqrt_ceil(n);
            proof {
                lemma_sqrt_ceil_props(n as int);
                lemma_sqrt_ceil_ge_abs(self@.0, self@.1);
                assert(self@.0 * UNIT <= l * UNIT && -(l * UNIT) <= self@.0 * UNIT)
                    by (nonlinear_arith)
                    requires -l <= self@.0 <= l, UNIT > 0;
                assert(self@.1 * UNIT <= l * UNIT && -(l * UNIT) <= self@.1 * UNIT)
                    by (nonlinear_arith)
                    requires -l <= self@.1 <= l, UNIT > 0;
                assert(l * UNIT <= 9_000_000_000_000_000_000) by (nonlinear_arith)
                    requires 1 <= l <= 3_037_000_500, UNIT == 1000;
                lemma_tdiv_abs_le(self@.0 * UNIT, l as int, UNIT as int);
                lemma_tdiv_abs_le(self@.1 * UNIT, l as int, UNIT as int);
            }
            self.scale_div(UNIT, l)
        }
    }
}

/// Squared lengths are never negative.
pub proof fn lemma_len2_nonneg(a: (int, int))
    ensures
        len2p(a) >= 0,
{
    assert(a.0 * a.0 >= 0 && a.1 * a.1 >= 0) by (nonlinear_arith);
}

/// The quotient's magnitude never exceeds the dividend's.
proof fn lemma_tdiv_abs_le_weak(a: int, d: int)
    requires
        d >= 1,
        -9_000_000_000_000_000_000 <= a <= 9_000_000_000_000_000_000,
    ensures
        -9_000_000_000_000_000_000 <= tdiv(a, d) <= 9_000_000_000_000_000_000,
{
    lemma_tdiv_abs_le(a, d, 9_000_000_000_000_000_000);
    assert(a <= 9_000_000_000_000_000_000 * d && -(9_000_000_000_000_000_000 * d) <= a)
        by (nonlinear_arith)
        requires d >= 1, -9_000_000_000_000_000_000 <= a <= 9_000_000_000_000_000_000;
}

/// Ceiling integer square root by binary search.
pub fn isqrt_ceil(n: i64) -> (r: i64)
    requires
        n >= 0,
    ensures
        r == sqrt_ceil(n as int),
        0 <= r <= 3_037_000_500,
        r * r >= n,
{
    let mut lo: i64 = 0;
    let mut hi: i64 = 3_037_000_500;
    proof {
        assert(n < 3_037_000_500 * 3_037_000_500) by (nonlinear_arith)
            requires n <= 0x7fff_ffff_ffff_ffff;
    }
    while lo + 1 < hi
        invariant
            0 <= lo < hi <= 3_037_000_500,
            lo * lo <= n,
            n < hi * hi,
        decreases hi - lo,
    {
        let mid = lo + (hi - lo) / 2;
        proof {
            assert(mid * mid <= 3_037_000_499 * 3_037_000_500) by (nonlinear_arith)
                requires 0 <= mid < 3_037_000_500;
        }
        if mid * mid <= n {
            lo = mid;
        } else {
            hi = mid;
        }
    }
    proof {
        lemma_sqrt_floor_unique(n as int, lo as int);
        lemma_sqrt_ceil_props(n as int);
    }
    if lo * lo == n {
        lo
    } else {
        lo + 1
    }
}

} // verus!

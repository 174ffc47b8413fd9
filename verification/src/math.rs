//! Fixed-point plane geometry: numbers are whole counts of sub-tile units,
//! `UNIT` of them to one tile, so every operation here is exact integer
//! arithmetic with a stated rounding.

use vstd::prelude::*;

verus! {

/// One tile (and the number one) in sub-tile units.
pub const UNIT: i64 = 65536;

/// Largest magnitude of a coordinate that the vector arithmetic accepts.
pub const COORD_LIMIT: i64 = 1152921504606846976;

/// Largest product of a coordinate and a length that `of_magnitude` accepts.
pub const STRETCH_LIMIT: i64 = 9223372036854775807;

/// Magnitude of `a`.
pub open spec fn magnitude_of(a: int) -> int {
    if a < 0 {
        -a
    } else {
        a
    }
}

/// Sign of `a`: one of -1, 0, 1.
pub open spec fn sign_of(a: int) -> int {
    if a > 0 {
        1
    } else if a < 0 {
        -1
    } else {
        0
    }
}

/// Quotient of `n` by a positive `d`, rounded toward zero.
pub open spec fn quot_toward_zero(n: int, d: int) -> int {
    if n >= 0 {
        n / d
    } else {
        -((-n) / d)
    }
}

/// `r` is the integer square root of `n`: the largest whole number whose
/// square does not exceed `n`.
pub open spec fn is_floor_sqrt(n: int, r: int) -> bool {
    0 <= r && r * r <= n && n < (r + 1) * (r + 1)
}

/// The integer square root of `n` (meaningful for `n >= 0`).
pub open spec fn floor_sqrt(n: int) -> int {
    choose|r: int| is_floor_sqrt(n, r)
}

/// A number has at most one integer square root, so `floor_sqrt` names it.
pub proof fn lemma_floor_sqrt_unique(n: int, r: int)
    requires
        is_floor_sqrt(n, r),
    ensures
        floor_sqrt(n) == r,
{
    let s = floor_sqrt(n);
    assert(is_floor_sqrt(n, s));
    if s < r {
        assert((s + 1) * (s + 1) <= r * r) by (nonlinear_arith)
            requires
                0 <= s,
                s + 1 <= r,
        ;
    }
    if r < s {
        assert((r + 1) * (r + 1) <= s * s) by (nonlinear_arith)
            requires
                0 <= r,
                r + 1 <= s,
        ;
    }
}

/// Integer square root by bisection.
pub fn isqrt(n: u128) -> (r: u64)
    ensures
        is_floor_sqrt(n as int, r as int),
        r as int == floor_sqrt(n as int),
{
    let mut lo: u128 = 0;
    let mut hi: u128 = 18446744073709551616;
    assert(hi * hi > n) by (nonlinear_arith)
        requires
            hi == 18446744073709551616,
            n <= u128::MAX,
    ;
    while hi - lo > 1
        invariant
            lo < hi <= 18446744073709551616,
            lo * lo <= n,
            n < hi * hi,
        decreases hi - lo,
    {
        let mid: u128 = lo + (hi - lo) / 2;
        assert(mid * mid <= 340282366920938463426481119284349108225) by (nonlinear_arith)
            requires
                0 <= mid <= 18446744073709551615,
        ;
        if mid * mid <= n {
            lo = mid;
        } else {
            hi = mid;
        }
    }
    proof {
        lemma_floor_sqrt_unique(n as int, lo as int);
    }
    lo as u64
}

/// Division of `n` by a positive `d` that rounds toward zero.
pub fn div_toward_zero(n: i128, d: i128) -> (q: i128)
    requires
        d > 0,
        n > i128::MIN,
    ensures
        q == quot_toward_zero(n as int, d as int),
        magnitude_of(q as int) <= magnitude_of(n as int),
{
    if n >= 0 {
        let q: i128 = n / d;
        assert(q <= n) by (nonlinear_arith)
            requires
                q == n as int / d as int,
                n >= 0,
                d >= 1,
        ;
        q
    } else {
        let m: i128 = -n;
        let q: i128 = m / d;
        assert(0 <= q <= m) by (nonlinear_arith)
            requires
                q == m as int / d as int,
                m >= 0,
                d >= 1,
        ;
        -q
    }
}

/// A pair of coordinates.
#[derive(Debug, Copy, Clone)]
pub struct Vec2<T> {
    pub x: T,
    pub y: T,
}

/// A vector, or a position, in sub-tile units.
pub type Vec2f = Vec2<i64>;

impl<T> Vec2<T> {
    pub fn new(x: T, y: T) -> (v: Vec2<T>)
        ensures
            v.x == x,
            v.y == y,
    {
        Vec2 { x: x, y: y }
    }
}

impl View for Vec2<i64> {
    type V = Vec2<int>;

    open spec fn view(&self) -> Vec2<int> {
        Vec2 { x: self.x as int, y: self.y as int }
    }
}

/// The failure of an operation that needs a direction, on the zero vector.
#[derive(Debug, Copy, Clone, PartialEq, Eq)]
pub struct DegenerateVector;

/// Square of the Euclidean distance between two points.
pub open spec fn dist_sq(a: Vec2<int>, b: Vec2<int>) -> int {
    (b.x - a.x) * (b.x - a.x) + (b.y - a.y) * (b.y - a.y)
}

/// Square of the Euclidean length of a vector.
pub open spec fn norm_sq(v: Vec2<int>) -> int {
    v.x * v.x + v.y * v.y
}

/// The coordinate that a rotation reads in place of `v`: a zero is replaced by
/// the smallest positive amount, so that no rotated direction is born flat.
pub open spec fn off_zero(v: int) -> int {
    if v == 0 {
        1
    } else {
        v
    }
}

/// `v` turned by the angle whose cosine and sine are `by.x` and `by.y` (both
/// scaled by `UNIT`), each coordinate rounded toward zero.
pub open spec fn rotated(v: Vec2<int>, by: Vec2<int>) -> Vec2<int> {
    let x = off_zero(v.x);
    let y = off_zero(v.y);
    Vec2 {
        x: quot_toward_zero(x * by.x - y * by.y, UNIT as int),
        y: quot_toward_zero(x * by.y + y * by.x, UNIT as int),
    }
}

/// The vector `out` has the length `|magnitude|`, as nearly as whole
/// coordinates allow: it is no longer than that, and lengthening each
/// coordinate by one sub-tile unit makes it longer.
pub open spec fn has_length(out: Vec2<int>, magnitude: int) -> bool {
    &&& norm_sq(out) <= magnitude * magnitude
    &&& magnitude * magnitude < (magnitude_of(out.x) + 1) * (magnitude_of(out.x) + 1) + (
    magnitude_of(out.y) + 1) * (magnitude_of(out.y) + 1)
}

/// The coordinate `a` of a vector of squared length `n > 0`, stretched so that
/// the vector gets the length `magnitude`: `a * magnitude / sqrt(n)`, rounded
/// toward zero. The square root is not rounded first: the quotient of the
/// squares is, and the root of that is the same whole number.
pub open spec fn stretched(a: int, magnitude: int, n: int) -> int {
    let p = magnitude_of(a) * magnitude_of(magnitude);
    let q = floor_sqrt((p * p) / n);
    if (a >= 0) == (magnitude >= 0) {
        q
    } else {
        -q
    }
}

/// `v` stretched to the length `magnitude`, each coordinate rounded toward
/// zero; for `v` other than the zero vector.
pub open spec fn rescaled(v: Vec2<int>, magnitude: int) -> Vec2<int> {
    Vec2 {
        x: stretched(v.x, magnitude, norm_sq(v)),
        y: stretched(v.y, magnitude, norm_sq(v)),
    }
}

/// The product of the magnitudes of a coordinate and of a scalar is small
/// enough to be squared.
pub open spec fn can_stretch(a: int, magnitude: int) -> bool {
    magnitude_of(a) * magnitude_of(magnitude) <= STRETCH_LIMIT
}

/// The product of a coordinate and of a fixed-point scalar is again a
/// coordinate within `COORD_LIMIT`.
pub open spec fn can_scale(a: int, k: int) -> bool {
    magnitude_of(a) * magnitude_of(k) <= COORD_LIMIT * UNIT
}

/// `v` times the fixed-point scalar `k`, each coordinate rounded toward zero.
pub open spec fn scaled_by(v: Vec2<int>, k: int) -> Vec2<int> {
    Vec2 {
        x: quot_toward_zero(v.x * k, UNIT as int),
        y: quot_toward_zero(v.y * k, UNIT as int),
    }
}

/// `|a * b| <= la * lb` for `|a| <= la`, `|b| <= lb`.
pub proof fn lemma_product_bound(a: int, b: int, la: int, lb: int)
    requires
        magnitude_of(a) <= la,
        magnitude_of(b) <= lb,
    ensures
        magnitude_of(a * b) <= la * lb,
        -(la * lb) <= a * b <= la * lb,
{
    assert(-(la * lb) <= a * b <= la * lb) by (nonlinear_arith)
        requires
            -la <= a <= la,
            -lb <= b <= lb,
    ;
}

impl Vec2<i64> {
    /// Both coordinates lie within `COORD_LIMIT` of zero.
    pub open spec fn bounded(&self) -> bool {
        -COORD_LIMIT <= self.x <= COORD_LIMIT && -COORD_LIMIT <= self.y <= COORD_LIMIT
    }

    /// Both coordinates lie within `limit` of zero.
    pub open spec fn within(&self, limit: int) -> bool {
        -limit <= self.x <= limit && -limit <= self.y <= limit
    }

    /// Euclidean distance to `other`, rounded down.
    pub fn distance(&self, other: &Vec2f) -> (d: i64)
        requires
            self.bounded(),
            other.bounded(),
        ensures
            d == floor_sqrt(dist_sq(self@, other@)),
            is_floor_sqrt(dist_sq(self@, other@), d as int),
            d >= 0,
            d <= magnitude_of(other.x - self.x) + magnitude_of(other.y - self.y),
    {
        let dx: i128 = other.x as i128 - self.x as i128;
        let dy: i128 = other.y as i128 - self.y as i128;
        proof {
            lemma_product_bound(dx as int, dx as int, 2 * COORD_LIMIT, 2 * COORD_LIMIT);
            lemma_product_bound(dy as int, dy as int, 2 * COORD_LIMIT, 2 * COORD_LIMIT);
            assert(dx * dx >= 0 && dy * dy >= 0) by (nonlinear_arith);
        }
        let sq: u128 = (dx * dx + dy * dy) as u128;
        let r: u64 = isqrt(sq);
        proof {
            let lim: int = magnitude_of(dx as int) + magnitude_of(dy as int);
            assert(lim * lim >= dx * dx + dy * dy) by (nonlinear_arith)
                requires
                    lim == magnitude_of(dx as int) + magnitude_of(dy as int),
            ;
            if r as int > lim {
                assert((r as int) * (r as int) > lim * lim) by (nonlinear_arith)
                    requires
                        r as int > lim,
                        lim >= 0,
                ;
            }
        }
        r as i64
    }

    /// Euclidean length, rounded down.
    pub fn magnitude(&self) -> (m: i64)
        requires
            self.bounded(),
        ensures
            m == floor_sqrt(norm_sq(self@)),
            is_floor_sqrt(norm_sq(self@), m as int),
            m >= 0,
            m == 0 <==> (self.x == 0 && self.y == 0),
            magnitude_of(self.x as int) <= m,
            magnitude_of(self.y as int) <= m,
    {
        let x: i128 = self.x as i128;
        let y: i128 = self.y as i128;
        proof {
            lemma_product_bound(x as int, x as int, COORD_LIMIT as int, COORD_LIMIT as int);
            lemma_product_bound(y as int, y as int, COORD_LIMIT as int, COORD_LIMIT as int);
            assert(x * x >= 0 && y * y >= 0) by (nonlinear_arith);
        }
        let sq: u128 = (x * x + y * y) as u128;
        let r: u64 = isqrt(sq);
        proof {
            let lim: int = 2 * COORD_LIMIT;
            let ri: int = r as int;
            if ri > lim {
                assert(ri * ri > lim * lim) by (nonlinear_arith)
                    requires
                        ri > lim,
                        lim >= 0,
                ;
            }
            let ax: int = magnitude_of(x as int);
            let ay: int = magnitude_of(y as int);
            assert(ax * ax == x * x && ay * ay == y * y) by (nonlinear_arith)
                requires
                    ax == magnitude_of(x as int),
                    ay == magnitude_of(y as int),
            ;
            if ax > ri {
                assert(ax * ax >= (ri + 1) * (ri + 1)) by (nonlinear_arith)
                    requires
                        ax >= ri + 1,
                        ri >= 0,
                ;
            }
            if ay > ri {
                assert(ay * ay >= (ri + 1) * (ri + 1)) by (nonlinear_arith)
                    requires
                        ay >= ri + 1,
                        ri >= 0,
                ;
            }
            if ri == 0 {
                assert((ri + 1) * (ri + 1) == 1) by (nonlinear_arith)
                    requires
                        ri == 0,
                ;
                assert(x == 0 && y == 0) by (nonlinear_arith)
                    requires
                        x * x + y * y < 1,
                ;
            }
            if x == 0 && y == 0 && ri > 0 {
                assert(x * x + y * y == 0) by (nonlinear_arith)
                    requires
                        x == 0,
                        y == 0,
                ;
                assert(ri * ri > 0) by (nonlinear_arith)
                    requires
                        ri > 0,
                ;
            }
        }
        r as i64
    }

    /// The vector of the same direction whose length is `magnitude`; of the
    /// opposite direction for a negative `magnitude`.
    pub fn of_magnitude(&self, magnitude: i64) -> (out: Result<Vec2f, DegenerateVector>)
        requires
            can_stretch(self.x as int, magnitude as int),
            can_stretch(self.y as int, magnitude as int),
        ensures
            out is Err <==> (self.x == 0 && self.y == 0),
            out is Ok ==> out->Ok_0@ == rescaled(self@, magnitude as int),
            out is Ok ==> has_length(out->Ok_0@, magnitude as int),
            out is Ok ==> out->Ok_0.within(magnitude_of(magnitude as int)),
    {
        if self.x == 0 && self.y == 0 {
            return Err(DegenerateVector);
        }
        let x: u128 = size_of(self.x);
        let y: u128 = size_of(self.y);
        proof {
            lemma_squares_ordered(x as int, 9223372036854775808);
            lemma_squares_ordered(y as int, 9223372036854775808);
            assert(9223372036854775808int * 9223372036854775808
                == 85070591730234615865843651857942052864);
            lemma_square_of_magnitude(self.x as int);
            lemma_square_of_magnitude(self.y as int);
            lemma_norm_is_positive(self@);
        }
        let n: u128 = x * x + y * y;
        let ox: i64 = stretch(self.x, magnitude, n);
        let oy: i64 = stretch(self.y, magnitude, n);
        proof {
            lemma_rescaled_length(self@, magnitude as int);
            lemma_within_length(ox as int, oy as int, magnitude as int);
        }
        Ok(Vec2 { x: ox, y: oy })
    }

    /// The unit vector of the same direction.
    pub fn forward(&self) -> (out: Result<Vec2f, DegenerateVector>)
        requires
            can_stretch(self.x as int, UNIT as int),
            can_stretch(self.y as int, UNIT as int),
        ensures
            out is Err <==> (self.x == 0 && self.y == 0),
            out is Ok ==> out->Ok_0@ == rescaled(self@, UNIT as int),
            out is Ok ==> has_length(out->Ok_0@, UNIT as int),
            out is Ok ==> out->Ok_0.within(UNIT as int),
    {
        self.of_magnitude(UNIT)
    }

    /// The vector turned about the origin by `by`.
    pub fn rotate(&self, by: &Angle) -> (out: Vec2f)
        requires
            self.bounded(),
            by.0.within(UNIT as int),
        ensures
            out@ == rotated(self@, by.0@),
    {
        let x: i128 = if self.x == 0 {
            1
        } else {
            self.x as i128
        };
        let y: i128 = if self.y == 0 {
            1
        } else {
            self.y as i128
        };
        let c: i128 = by.0.x as i128;
        let s: i128 = by.0.y as i128;
        proof {
            lemma_product_bound(x as int, c as int, COORD_LIMIT as int, UNIT as int);
            lemma_product_bound(y as int, s as int, COORD_LIMIT as int, UNIT as int);
            lemma_product_bound(x as int, s as int, COORD_LIMIT as int, UNIT as int);
            lemma_product_bound(y as int, c as int, COORD_LIMIT as int, UNIT as int);
        }
        let nx: i128 = x * c - y * s;
        let ny: i128 = x * s + y * c;
        let qx: i128 = div_toward_zero(nx, UNIT as i128);
        let qy: i128 = div_toward_zero(ny, UNIT as i128);
        Vec2 { x: qx as i64, y: qy as i64 }
    }

    /// The sum of two vectors.
    pub fn plus(&self, rhs: &Vec2f) -> (out: Vec2f)
        requires
            i64::MIN <= self.x + rhs.x <= i64::MAX,
            i64::MIN <= self.y + rhs.y <= i64::MAX,
        ensures
            out.x == self.x + rhs.x,
            out.y == self.y + rhs.y,
    {
        Vec2 { x: self.x + rhs.x, y: self.y + rhs.y }
    }

    /// The vector times the fixed-point scalar `k`.
    pub fn scaled(&self, k: i64) -> (out: Vec2f)
        requires
            can_scale(self.x as int, k as int),
            can_scale(self.y as int, k as int),
        ensures
            out@ == scaled_by(self@, k as int),
            out.bounded(),
    {
        let qx: i64 = scale(self.x, k);
        let qy: i64 = scale(self.y, k);
        Vec2 { x: qx, y: qy }
    }
}

/// The magnitude of a coordinate.
fn size_of(a: i64) -> (out: u128)
    ensures
        out == magnitude_of(a as int),
        out <= 9223372036854775808,
{
    if a < 0 {
        (-(a as i128)) as u128
    } else {
        a as u128
    }
}

/// One coordinate times a fixed-point scalar, rounded toward zero.
fn scale(a: i64, k: i64) -> (out: i64)
    requires
        can_scale(a as int, k as int),
    ensures
        out == quot_toward_zero(a * k, UNIT as int),
        -COORD_LIMIT <= out <= COORD_LIMIT,
{
    proof {
        lemma_product_bound(a as int, k as int, 9223372036854775808, 9223372036854775808);
    }
    let n: i128 = a as i128 * k as i128;
    let q: i128 = div_toward_zero(n, UNIT as i128);
    proof {
        let p = magnitude_of(n as int);
        assert(p == magnitude_of(a as int) * magnitude_of(k as int)) by (nonlinear_arith)
            requires
                p == magnitude_of(a as int * k as int),
        ;
        assert(COORD_LIMIT * UNIT == 75557863725914323419136);
        assert(p / 65536 <= COORD_LIMIT);
    }
    q as i64
}

/// One coordinate of a vector of squared length `n`, stretched so that the
/// vector gets the length `magnitude`.
fn stretch(a: i64, magnitude: i64, n: u128) -> (out: i64)
    requires
        n > 0,
        can_stretch(a as int, magnitude as int),
    ensures
        out == stretched(a as int, magnitude as int, n as int),
{
    let size: u128 = size_of(a);
    let length: u128 = size_of(magnitude);
    proof {
        assert(size * length >= 0) by (nonlinear_arith)
            requires
                size >= 0,
                length >= 0,
        ;
    }
    let p: u128 = size * length;
    proof {
        lemma_squares_ordered(p as int, STRETCH_LIMIT as int);
        assert(STRETCH_LIMIT * STRETCH_LIMIT == 85070591730234615847396907784232501249);
    }
    let square: u128 = p * p;
    let q: u64 = isqrt(square / n);
    proof {
        let f = square as int / n as int;
        assert(0 <= f <= square) by (nonlinear_arith)
            requires
                f == square as int / n as int,
                square >= 0,
                n >= 1,
        ;
        if q > p {
            lemma_squares_ordered(p as int, q as int);
        }
    }
    if (a >= 0) == (magnitude >= 0) {
        q as i64
    } else {
        -(q as i64)
    }
}

/// A coordinate within `la` and a scalar within `lk` can be multiplied if the
/// limits can.
pub proof fn lemma_can_scale(a: int, k: int, la: int, lk: int)
    requires
        magnitude_of(a) <= la,
        magnitude_of(k) <= lk,
        la * lk <= COORD_LIMIT * UNIT,
    ensures
        can_scale(a, k),
{
    assert(magnitude_of(a) * magnitude_of(k) <= la * lk) by (nonlinear_arith)
        requires
            0 <= magnitude_of(a) <= la,
            0 <= magnitude_of(k) <= lk,
    ;
}

/// A vector other than the zero vector has a positive squared length.
pub proof fn lemma_norm_is_positive(v: Vec2<int>)
    requires
        v.x != 0 || v.y != 0,
    ensures
        norm_sq(v) > 0,
{
    assert(v.x * v.x + v.y * v.y > 0) by (nonlinear_arith)
        requires
            v.x != 0 || v.y != 0,
    ;
}

/// Every number that is not negative has an integer square root.
pub proof fn lemma_floor_sqrt_exists(n: int)
    requires
        n >= 0,
    ensures
        is_floor_sqrt(n, floor_sqrt(n)),
    decreases n,
{
    if n == 0 {
        assert(is_floor_sqrt(0, 0)) by (nonlinear_arith);
    } else {
        lemma_floor_sqrt_exists(n - 1);
        let r = floor_sqrt(n - 1);
        if (r + 1) * (r + 1) <= n {
            assert(n < (r + 2) * (r + 2)) by (nonlinear_arith)
                requires
                    n - 1 < (r + 1) * (r + 1),
                    0 <= r,
            ;
            assert(is_floor_sqrt(n, r + 1));
        } else {
            assert(r * r <= n);
            assert(is_floor_sqrt(n, r));
        }
    }
}

/// The coordinates of a vector are no longer than the vector.
pub proof fn lemma_within_length(x: int, y: int, magnitude: int)
    requires
        x * x + y * y <= magnitude * magnitude,
    ensures
        magnitude_of(x) <= magnitude_of(magnitude),
        magnitude_of(y) <= magnitude_of(magnitude),
{
    let m = magnitude_of(magnitude);
    lemma_square_of_magnitude(magnitude);
    lemma_square_of_magnitude(x);
    lemma_square_of_magnitude(y);
    assert(x * x >= 0 && y * y >= 0) by (nonlinear_arith);
    if magnitude_of(x) > m {
        lemma_squares_ordered(m, magnitude_of(x));
    }
    if magnitude_of(y) > m {
        lemma_squares_ordered(m, magnitude_of(y));
    }
}

/// Rise over run of a vector with `v.x != 0`, as a fixed-point number rounded
/// toward zero.
pub open spec fn slope_of(v: Vec2<int>) -> int {
    if v.x > 0 {
        quot_toward_zero(v.y * UNIT, v.x)
    } else {
        quot_toward_zero(-(v.y * UNIT), -v.x)
    }
}

/// A direction in the plane, held as a vector: the cosine and the sine of the
/// angle, scaled by `UNIT`.
#[derive(Debug, Copy, Clone)]
pub struct Angle(pub Vec2f);

impl Angle {
    pub fn new(x: i64, y: i64) -> (a: Angle)
        ensures
            a.0.x == x,
            a.0.y == y,
    {
        Angle(Vec2 { x: x, y: y })
    }

    pub fn get_vec(&self) -> (v: Vec2f)
        ensures
            v == self.0,
    {
        self.0
    }

    /// Rise over run, as a fixed-point number rounded toward zero.
    pub fn slope(&self) -> (m: i64)
        requires
            self.0.x != 0,
            can_stretch(self.0.y as int, UNIT as int),
        ensures
            m == slope_of(self.0@),
    {
        let n: i128 = self.0.y as i128 * UNIT as i128;
        let run: i128 = self.0.x as i128;
        proof {
            assert(magnitude_of(n as int) == magnitude_of(self.0.y as int) * magnitude_of(
                UNIT as int,
            )) by (nonlinear_arith)
                requires
                    n == self.0.y * UNIT,
                    UNIT == 65536,
            ;
        }
        if run > 0 {
            let q: i128 = div_toward_zero(n, run);
            q as i64
        } else {
            let q: i128 = div_toward_zero(-n, -run);
            q as i64
        }
    }

    /// The direction turned by `by`.
    pub fn rotate(&self, by: &Angle) -> (out: Angle)
        requires
            self.0.bounded(),
            by.0.within(UNIT as int),
        ensures
            out.0@ == rotated(self.0@, by.0@),
    {
        Angle(self.0.rotate(by))
    }
}

/// Rounding toward zero loses less than one: `|q| * d <= |n| < (|q| + 1) * d`
/// for the quotient `q` of `n` by `d`.
pub proof fn lemma_quotient_brackets(n: int, d: int)
    requires
        d > 0,
    ensures
        magnitude_of(quot_toward_zero(n, d)) * d <= magnitude_of(n),
        magnitude_of(n) < (magnitude_of(quot_toward_zero(n, d)) + 1) * d,
        magnitude_of(quot_toward_zero(n, d)) == magnitude_of(n) / d,
{
    let p = magnitude_of(n);
    let q = p / d;
    vstd::arithmetic::div_mod::lemma_fundamental_div_mod(p, d);
    assert(0 <= q) by (nonlinear_arith)
        requires
            q == p / d,
            0 <= p,
            0 < d,
    ;
    assert(p == d * q + p % d);
    assert(q * d <= p < (q + 1) * d) by (nonlinear_arith)
        requires
            p == d * q + p % d,
            0 <= p % d < d,
    ;
}

/// Squares keep the order of numbers that are not negative.
pub proof fn lemma_squares_ordered(a: int, b: int)
    requires
        0 <= a <= b,
    ensures
        a * a <= b * b,
        a < b ==> a * a < b * b,
{
    assert(a * a <= b * b) by (nonlinear_arith)
        requires
            0 <= a <= b,
    ;
    if a < b {
        assert(a * a < b * b) by (nonlinear_arith)
            requires
                0 <= a,
                a < b,
        ;
    }
}

/// The square of a number is the square of its magnitude.
pub proof fn lemma_square_of_magnitude(a: int)
    ensures
        magnitude_of(a) * magnitude_of(a) == a * a,
{
    assert(magnitude_of(a) * magnitude_of(a) == a * a) by (nonlinear_arith);
}

/// A pair of quotients by `d` is as long as the pair of numerators, divided by
/// `d`, to within the rounding: with the quotients `qx`, `qy` of `nx`, `ny`,
/// `d^2 (qx^2 + qy^2) <= nx^2 + ny^2 < d^2 ((|qx| + 1)^2 + (|qy| + 1)^2)`.
pub proof fn lemma_quotients_keep_length(nx: int, ny: int, d: int)
    requires
        d > 0,
    ensures
        ({
            let qx = quot_toward_zero(nx, d);
            let qy = quot_toward_zero(ny, d);
            &&& d * d * (qx * qx + qy * qy) <= nx * nx + ny * ny
            &&& nx * nx + ny * ny < d * d * ((magnitude_of(qx) + 1) * (magnitude_of(qx) + 1) + (
            magnitude_of(qy) + 1) * (magnitude_of(qy) + 1))
        }),
{
    let qx = quot_toward_zero(nx, d);
    let qy = quot_toward_zero(ny, d);
    let ax = magnitude_of(qx);
    let ay = magnitude_of(qy);
    let px = magnitude_of(nx);
    let py = magnitude_of(ny);
    lemma_quotient_brackets(nx, d);
    lemma_quotient_brackets(ny, d);
    assert(0 <= ax * d && 0 <= ay * d) by (nonlinear_arith)
        requires
            0 <= ax,
            0 <= ay,
            0 < d,
    ;
    lemma_squares_ordered(ax * d, px);
    lemma_squares_ordered(ay * d, py);
    lemma_squares_ordered(px, (ax + 1) * d);
    lemma_squares_ordered(py, (ay + 1) * d);
    lemma_square_of_magnitude(nx);
    lemma_square_of_magnitude(ny);
    lemma_square_of_magnitude(qx);
    lemma_square_of_magnitude(qy);
    assert((ax * d) * (ax * d) == d * d * (qx * qx)) by (nonlinear_arith)
        requires
            ax * ax == qx * qx,
    ;
    assert((ay * d) * (ay * d) == d * d * (qy * qy)) by (nonlinear_arith)
        requires
            ay * ay == qy * qy,
    ;
    assert(d * d * (qx * qx + qy * qy) == d * d * (qx * qx) + d * d * (qy * qy))
        by (nonlinear_arith);
    assert(((ax + 1) * d) * ((ax + 1) * d) == d * d * ((ax + 1) * (ax + 1))) by (nonlinear_arith);
    assert(((ay + 1) * d) * ((ay + 1) * d) == d * d * ((ay + 1) * (ay + 1))) by (nonlinear_arith);
    assert(d * d * ((ax + 1) * (ax + 1) + (ay + 1) * (ay + 1)) == d * d * ((ax + 1) * (ax + 1)) + d
        * d * ((ay + 1) * (ay + 1))) by (nonlinear_arith);
}

/// The square of a stretched coordinate, times the squared length of the
/// vector, is at most the square of the coordinate times the length asked for,
/// and with the coordinate one longer it is more.
pub proof fn lemma_stretched_brackets(a: int, magnitude: int, n: int)
    requires
        n > 0,
    ensures
        ({
            let q = magnitude_of(stretched(a, magnitude, n));
            &&& stretched(a, magnitude, n) * stretched(a, magnitude, n) == q * q
            &&& q * q * n <= (a * a) * (magnitude * magnitude)
            &&& (a * a) * (magnitude * magnitude) < (q + 1) * (q + 1) * n
        }),
{
    let p = magnitude_of(a) * magnitude_of(magnitude);
    let square = p * p;
    assert(square >= 0) by (nonlinear_arith)
        requires
            square == p * p,
    ;
    let f = square / n;
    vstd::arithmetic::div_mod::lemma_fundamental_div_mod(square, n);
    assert(0 <= f) by (nonlinear_arith)
        requires
            f == square / n,
            square >= 0,
            n > 0,
    ;
    assert(f * n <= square < (f + 1) * n) by (nonlinear_arith)
        requires
            square == n * f + square % n,
            0 <= square % n < n,
    ;
    lemma_floor_sqrt_exists(f);
    let r = floor_sqrt(f);
    assert(magnitude_of(stretched(a, magnitude, n)) == r);
    lemma_square_of_magnitude(stretched(a, magnitude, n));
    assert(r * r * n <= f * n) by (nonlinear_arith)
        requires
            r * r <= f,
            n > 0,
    ;
    assert((f + 1) * n <= (r + 1) * (r + 1) * n) by (nonlinear_arith)
        requires
            f + 1 <= (r + 1) * (r + 1),
            n > 0,
    ;
    lemma_square_of_magnitude(a);
    lemma_square_of_magnitude(magnitude);
    let sa = magnitude_of(a);
    let sm = magnitude_of(magnitude);
    assert(square == (sa * sa) * (sm * sm)) by (nonlinear_arith)
        requires
            square == (sa * sm) * (sa * sm),
    ;
}

/// A rescaled vector has the length asked for, as nearly as whole coordinates
/// allow.
pub proof fn lemma_rescaled_length(v: Vec2<int>, magnitude: int)
    requires
        v.x != 0 || v.y != 0,
    ensures
        has_length(rescaled(v, magnitude), magnitude),
{
    let n = norm_sq(v);
    lemma_norm_is_positive(v);
    let out = rescaled(v, magnitude);
    let qx = magnitude_of(out.x);
    let qy = magnitude_of(out.y);
    lemma_stretched_brackets(v.x, magnitude, n);
    lemma_stretched_brackets(v.y, magnitude, n);
    let m2 = magnitude * magnitude;
    let x2 = v.x * v.x;
    let y2 = v.y * v.y;
    assert(x2 * m2 + y2 * m2 == m2 * n) by (nonlinear_arith)
        requires
            n == x2 + y2,
    ;
    let low = qx * qx + qy * qy;
    let high = (qx + 1) * (qx + 1) + (qy + 1) * (qy + 1);
    assert(low * n == qx * qx * n + qy * qy * n) by (nonlinear_arith)
        requires
            low == qx * qx + qy * qy,
    ;
    assert(high * n == (qx + 1) * (qx + 1) * n + (qy + 1) * (qy + 1) * n) by (nonlinear_arith)
        requires
            high == (qx + 1) * (qx + 1) + (qy + 1) * (qy + 1),
    ;
    assert(low * n <= m2 * n);
    assert(m2 * n < high * n);
    assert(low <= m2) by (nonlinear_arith)
        requires
            low * n <= m2 * n,
            n > 0,
    ;
    assert(m2 < high) by (nonlinear_arith)
        requires
            m2 * n < high * n,
            n > 0,
    ;
    assert(norm_sq(out) == low);
}

/// A rotation keeps the length of a vector, to within the rounding: the
/// squared length of the rotated vector, times `UNIT^2`, is at most the
/// product of the squared lengths of the vector (off zero) and of the pair of
/// cosine and sine, and lengthening each coordinate by one sub-tile unit
/// makes it more.
pub proof fn lemma_rotated_length(v: Vec2<int>, by: Vec2<int>)
    ensures
        ({
            let out = rotated(v, by);
            let from = Vec2 { x: off_zero(v.x), y: off_zero(v.y) };
            &&& UNIT * UNIT * norm_sq(out) <= norm_sq(from) * norm_sq(by)
            &&& norm_sq(from) * norm_sq(by) < UNIT * UNIT * ((magnitude_of(out.x) + 1) * (
            magnitude_of(out.x) + 1) + (magnitude_of(out.y) + 1) * (magnitude_of(out.y) + 1))
        }),
{
    let x = off_zero(v.x);
    let y = off_zero(v.y);
    let nx = x * by.x - y * by.y;
    let ny = x * by.y + y * by.x;
    lemma_quotients_keep_length(nx, ny, UNIT as int);
    let c = by.x;
    let s = by.y;
    let xc = x * c;
    let ys = y * s;
    let xs = x * s;
    let yc = y * c;
    assert(xc * ys == xs * yc) by (nonlinear_arith)
        requires
            xc == x * c,
            ys == y * s,
            xs == x * s,
            yc == y * c,
    ;
    assert(nx * nx == xc * xc - 2 * (xc * ys) + ys * ys) by (nonlinear_arith)
        requires
            nx == xc - ys,
    ;
    assert(ny * ny == xs * xs + 2 * (xs * yc) + yc * yc) by (nonlinear_arith)
        requires
            ny == xs + yc,
    ;
    assert(xc * xc == (x * x) * (c * c)) by (nonlinear_arith)
        requires
            xc == x * c,
    ;
    assert(ys * ys == (y * y) * (s * s)) by (nonlinear_arith)
        requires
            ys == y * s,
    ;
    assert(xs * xs == (x * x) * (s * s)) by (nonlinear_arith)
        requires
            xs == x * s,
    ;
    assert(yc * yc == (y * y) * (c * c)) by (nonlinear_arith)
        requires
            yc == y * c,
    ;
    let x2 = x * x;
    let y2 = y * y;
    let c2 = c * c;
    let s2 = s * s;
    assert((x2 + y2) * (c2 + s2) == x2 * c2 + x2 * s2 + y2 * c2 + y2 * s2) by (nonlinear_arith);
    assert(nx * nx + ny * ny == (x * x + y * y) * (by.x * by.x + by.y * by.y));
}

/// Rounding a quotient toward zero is off by less than the divisor:
/// `n - d * q` lies strictly between `-d` and `d` for the quotient `q` of `n`
/// by `d`.
pub proof fn lemma_quotient_error(n: int, d: int)
    requires
        d > 0,
    ensures
        -d < n - d * quot_toward_zero(n, d) < d,
{
    if n >= 0 {
        vstd::arithmetic::div_mod::lemma_fundamental_div_mod(n, d);
    } else {
        vstd::arithmetic::div_mod::lemma_fundamental_div_mod(-n, d);
        let q = (-n) / d;
        assert(d * (-q) == -(d * q)) by (nonlinear_arith);
    }
}

/// The vector that `rotated` reads in place of `v`.
pub open spec fn off_zero_vector(v: Vec2<int>) -> Vec2<int> {
    Vec2 { x: off_zero(v.x), y: off_zero(v.y) }
}

/// The turn opposite to `by`.
pub open spec fn turned_back(by: Vec2<int>) -> Vec2<int> {
    Vec2 { x: by.x, y: -by.y }
}

/// One coordinate of a vector that was turned there and back: `w` is the
/// quotient by `UNIT` of `rx * c + ry * s`, where `rx` and `ry` are within one
/// of the quotients by `UNIT` of `n1` and `n2`, and `n1 * c + n2 * s` is
/// `x * (c * c + s * s)`. Then `w` is `x`, times the squared length of the
/// turn, to within five sub-tile units.
proof fn lemma_back_coordinate(
    x: int,
    c: int,
    s: int,
    n1: int,
    n2: int,
    rx: int,
    ry: int,
    m: int,
    w: int,
)
    requires
        -UNIT <= c <= UNIT,
        -UNIT <= s <= UNIT,
        n1 * c + n2 * s == x * (c * c + s * s),
        0 <= rx - quot_toward_zero(n1, UNIT as int) <= 1,
        0 <= ry - quot_toward_zero(n2, UNIT as int) <= 1,
        m == rx * c + ry * s,
        w == quot_toward_zero(m, UNIT as int),
    ensures
        -(5 * (UNIT * UNIT)) < UNIT * UNIT * w - x * (c * c + s * s) < 5 * (UNIT * UNIT),
{
    let u = UNIT as int;
    let q1 = quot_toward_zero(n1, u);
    let q2 = quot_toward_zero(n2, u);
    lemma_quotient_error(n1, u);
    lemma_quotient_error(n2, u);
    lemma_quotient_error(m, u);
    // What the first rounding, and the step off zero, leave of u * rx - n1.
    let f1 = u * rx - n1;
    let f2 = u * ry - n2;
    assert(f1 == u * (rx - q1) - (n1 - u * q1)) by (nonlinear_arith)
        requires
            f1 == u * rx - n1,
    ;
    assert(f2 == u * (ry - q2) - (n2 - u * q2)) by (nonlinear_arith)
        requires
            f2 == u * ry - n2,
    ;
    assert(-u < f1 < 2 * u) by (nonlinear_arith)
        requires
            f1 == u * (rx - q1) - (n1 - u * q1),
            0 <= rx - q1 <= 1,
            -u < n1 - u * q1 < u,
            u > 0,
    ;
    assert(-u < f2 < 2 * u) by (nonlinear_arith)
        requires
            f2 == u * (ry - q2) - (n2 - u * q2),
            0 <= ry - q2 <= 1,
            -u < n2 - u * q2 < u,
            u > 0,
    ;
    assert(u * m == n1 * c + n2 * s + (f1 * c + f2 * s)) by (nonlinear_arith)
        requires
            m == rx * c + ry * s,
            f1 == u * rx - n1,
            f2 == u * ry - n2,
    ;
    assert(-(2 * u * u) <= f1 * c <= 2 * u * u) by (nonlinear_arith)
        requires
            -u < f1 < 2 * u,
            -u <= c <= u,
            u > 0,
    ;
    assert(-(2 * u * u) <= f2 * s <= 2 * u * u) by (nonlinear_arith)
        requires
            -u < f2 < 2 * u,
            -u <= s <= u,
            u > 0,
    ;
    let e3 = m - u * w;
    assert(u * u * w == u * m - u * e3) by (nonlinear_arith)
        requires
            e3 == m - u * w,
    ;
    assert(-(u * u) < u * e3 < u * u) by (nonlinear_arith)
        requires
            -u < e3 < u,
            u > 0,
    ;
    assert(u * u == UNIT * UNIT);
}

/// Rotating there and back: a vector turned by an angle and then by the
/// opposite angle comes back to where it was (off zero), times the squared
/// length of the pair of cosine and sine, to within five sub-tile units.
pub proof fn lemma_rotated_there_and_back(v: Vec2<int>, by: Vec2<int>)
    requires
        -UNIT <= by.x <= UNIT,
        -UNIT <= by.y <= UNIT,
    ensures
        ({
            let back = rotated(rotated(v, by), turned_back(by));
            let from = off_zero_vector(v);
            &&& -(5 * (UNIT * UNIT)) < UNIT * UNIT * back.x - from.x * norm_sq(by) < 5 * (UNIT
                * UNIT)
            &&& -(5 * (UNIT * UNIT)) < UNIT * UNIT * back.y - from.y * norm_sq(by) < 5 * (UNIT
                * UNIT)
        }),
{
    let u = UNIT as int;
    let x = off_zero(v.x);
    let y = off_zero(v.y);
    let c = by.x;
    let s = by.y;
    let n1 = x * c - y * s;
    let n2 = x * s + y * c;
    let there = rotated(v, by);
    let rx = off_zero(there.x);
    let ry = off_zero(there.y);
    let back = rotated(there, turned_back(by));
    assert(back.x == quot_toward_zero(rx * c - ry * (-s), u));
    assert(back.y == quot_toward_zero(rx * (-s) + ry * c, u));
    assert(rx * c - ry * (-s) == rx * c + ry * s) by (nonlinear_arith);
    assert(rx * (-s) + ry * c == ry * c + rx * (-s)) by (nonlinear_arith);
    // x: n1 * c + n2 * s == x * (c^2 + s^2)
    assert(n1 * c + n2 * s == x * (c * c + s * s)) by (nonlinear_arith)
        requires
            n1 == x * c - y * s,
            n2 == x * s + y * c,
    ;
    lemma_back_coordinate(x, c, s, n1, n2, rx, ry, rx * c + ry * s, back.x);
    // y: n2 * c + n1 * (-s) == y * (c^2 + s^2)
    assert(n2 * c + n1 * (-s) == y * (c * c + (-s) * (-s))) by (nonlinear_arith)
        requires
            n1 == x * c - y * s,
            n2 == x * s + y * c,
    ;
    lemma_back_coordinate(y, c, -s, n2, n1, ry, rx, ry * c + rx * (-s), back.y);
    assert((-s) * (-s) == s * s) by (nonlinear_arith);
}

} // verus!

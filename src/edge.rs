use vstd::prelude::*;
use crate::geometry::{IMAGE_SIZE, ScreenPos};

verus! {

/// One entry of the active edge table: the edge's x-intercept on the
/// current scanline is the exact fraction `num / den`, and it grows by
/// `inc / den` from one scanline to the next.
#[derive(Clone, Copy, Debug)]
pub struct Edge {
    pub num: i64,
    pub den: i64,
    pub inc: i64,
}

/// The edge from `low` up to `high`, as seen on scanline `y`: it enters the
/// table on the scanline after its lower end, with the lower end's x.
pub open spec fn edge_at(e: Edge, low: ScreenPos, high: ScreenPos, y: int) -> bool {
    &&& e.den == high.y - low.y
    &&& e.inc == high.x - low.x
    &&& e.num == low.x * (high.y - low.y) + (y - 1 - low.y) * (high.x - low.x)
}

/// The fraction `num / den` rounded down plus rounded up: twice the value
/// when it is whole, else one more than twice its whole part. It orders as
/// the value does, and two fractions with the same code have the same whole
/// numbers strictly above and strictly below them.
pub open spec fn frac_code(num: int, den: int) -> int {
    num / den + (num + den - 1) / den
}

/// The numerator, over `high.y - low.y`, of the exact x-intercept of the
/// edge `low`-`high` on scanline `y`.
pub open spec fn intercept_num(low: ScreenPos, high: ScreenPos, y: int) -> int {
    low.x * (high.y - low.y) + (y - 1 - low.y) * (high.x - low.x)
}

/// The code of the x-intercept of the edge `low`-`high` on scanline `y`.
pub open spec fn intercept_code(low: ScreenPos, high: ScreenPos, y: int) -> int {
    frac_code(intercept_num(low, high, y), high.y - low.y)
}

/// For a whole number `x` and a fraction `v = num / den`: `x > v` exactly
/// when `x` is at least half the code plus one, and `x < v` exactly when
/// `x` is below half of the code plus one.
pub proof fn lemma_code_bounds_strictly(num: int, den: int, x: int)
    requires
        num >= 0,
        den > 0,
    ensures
        x * den > num <==> x >= frac_code(num, den) / 2 + 1,
        x * den < num <==> x < (frac_code(num, den) + 1) / 2,
{
    let f = num / den;
    let r = num % den;
    assert(num == f * den + r && 0 <= r < den) by (nonlinear_arith)
        requires den > 0, f == num / den, r == num % den;
    if r == 0 {
        assert((num + den - 1) / den == f) by (nonlinear_arith)
            requires num == f * den, den > 0;
        assert(x * den > num <==> x > f) by (nonlinear_arith)
            requires num == f * den, den > 0;
        assert(x * den < num <==> x < f) by (nonlinear_arith)
            requires num == f * den, den > 0;
    } else {
        assert((num + den - 1) / den == f + 1) by (nonlinear_arith)
            requires num == f * den + r, 0 < r < den;
        assert(x * den > num <==> x >= f + 1) by (nonlinear_arith)
            requires num == f * den + r, 0 < r < den;
        assert(x * den < num <==> x < f + 1) by (nonlinear_arith)
            requires num == f * den + r, 0 < r < den;
    }
}

/// A smaller fraction never has a larger code.
pub proof fn lemma_code_monotone(n1: int, d1: int, n2: int, d2: int)
    requires
        n1 >= 0,
        n2 >= 0,
        d1 > 0,
        d2 > 0,
        n1 * d2 <= n2 * d1,
    ensures
        frac_code(n1, d1) <= frac_code(n2, d2),
{
    let f1 = n1 / d1;
    let f2 = n2 / d2;
    let c1 = (n1 + d1 - 1) / d1;
    let c2 = (n2 + d2 - 1) / d2;
    assert(n1 == f1 * d1 + n1 % d1 && 0 <= n1 % d1 < d1) by (nonlinear_arith)
        requires d1 > 0, f1 == n1 / d1;
    assert(n2 == f2 * d2 + n2 % d2 && 0 <= n2 % d2 < d2) by (nonlinear_arith)
        requires d2 > 0, f2 == n2 / d2;
    lemma_code_bounds_strictly(n1, d1, f2 + 1);
    lemma_code_bounds_strictly(n2, d2, f2 + 1);
    lemma_code_bounds_strictly(n1, d1, c2);
    lemma_code_bounds_strictly(n2, d2, c2);
    // f1 <= f2: else f2 + 1 <= f1 <= n1 / d1 <= n2 / d2 < f2 + 1
    assert((f2 + 1) * d2 > n2) by (nonlinear_arith)
        requires n2 == f2 * d2 + n2 % d2, n2 % d2 < d2;
    assert(f1 <= f2) by (nonlinear_arith)
        requires
            n1 * d2 <= n2 * d1,
            (f2 + 1) * d2 > n2,
            f1 * d1 <= n1,
            d1 > 0,
            d2 > 0;
    // c1 <= c2: c2 * d2 >= n2, so c2 * d1 >= n1
    assert(c2 * d2 >= n2 && c1 <= f1 + 1 && (c1 == f1 <==> n1 % d1 == 0)) by (nonlinear_arith)
        requires
            n2 == f2 * d2 + n2 % d2,
            0 <= n2 % d2 < d2,
            c2 == (n2 + d2 - 1) / d2,
            n1 == f1 * d1 + n1 % d1,
            0 <= n1 % d1 < d1,
            c1 == (n1 + d1 - 1) / d1,
            d1 > 0,
            d2 > 0;
    assert(c2 * d1 >= n1) by (nonlinear_arith)
        requires c2 * d2 >= n2, n1 * d2 <= n2 * d1, d1 > 0, d2 > 0;
}

/// An edge between two on-screen points, rising from `low` to `high`.
pub open spec fn rising(low: ScreenPos, high: ScreenPos) -> bool {
    low.on_screen() && high.on_screen() && low.y < high.y
}

proof fn lemma_num_bounds(low: ScreenPos, high: ScreenPos, y: int)
    requires
        rising(low, high),
        low.y < y <= IMAGE_SIZE + 2,
    ensures
        -1_000_000 <= low.x * (high.y - low.y) + (y - 1 - low.y) * (high.x - low.x) <= 2_000_000,
{
    let (lx, ly, hx, hy) = (low.x as int, low.y as int, high.x as int, high.y as int);
    assert(0 <= lx * (hy - ly) <= 490_000) by (nonlinear_arith)
        requires 0 <= lx <= 700, 0 < hy - ly <= 700;
    assert(-700 * 702 <= (y - 1 - ly) * (hx - lx) <= 700 * 702) by (nonlinear_arith)
        requires 0 <= y - 1 - ly <= 702, -700 <= hx - lx <= 700;
}

pub(crate) proof fn lemma_intercept_in_range(low: ScreenPos, high: ScreenPos, y: int)
    requires
        rising(low, high),
        low.y < y <= high.y,
    ensures
        0 <= intercept_code(low, high, y) <= 2 * IMAGE_SIZE,
{
    let (lx, ly, hx, hy) = (low.x as int, low.y as int, high.x as int, high.y as int);
    let d = hy - ly;
    let k = y - 1 - ly;
    let num = lx * d + k * (hx - lx);
    assert(0 <= num <= 700 * d) by (nonlinear_arith)
        requires
            0 <= lx <= 700,
            0 <= hx <= 700,
            0 <= k < d,
            num == lx * d + k * (hx - lx);
    assert(0 <= num / d <= 700) by (nonlinear_arith)
        requires 0 <= num <= 700 * d, d > 0;
    assert(0 <= (num + d - 1) / d <= 700) by (nonlinear_arith)
        requires 0 <= num <= 700 * d, d > 0;
}

proof fn lemma_intercept_num_nonneg(low: ScreenPos, high: ScreenPos, y: int)
    requires
        rising(low, high),
        low.y < y <= high.y,
    ensures
        0 <= low.x * (high.y - low.y) + (y - 1 - low.y) * (high.x - low.x),
{
    let (lx, ly, hx, hy) = (low.x as int, low.y as int, high.x as int, high.y as int);
    assert(0 <= lx * (hy - ly) + (y - 1 - ly) * (hx - lx)) by (nonlinear_arith)
        requires
            0 <= lx <= 700,
            0 <= hx <= 700,
            0 <= y - 1 - ly < hy - ly;
}

impl Edge {
    /// A new entry for the edge from `low` up to `high`, placed on the
    /// scanline just above `low`.
    pub fn new(low: ScreenPos, high: ScreenPos) -> (e: Edge)
        requires
            rising(low, high),
        ensures
            edge_at(e, low, high, low.y + 1),
    {
        let den = (high.y - low.y) as i64;
        let inc = (high.x - low.x) as i64;
        assert(0 <= low.x * den <= 490_000) by (nonlinear_arith)
            requires 0 <= low.x <= 700, 0 < den <= 700;
        let num = low.x as i64 * den;
        assert(0 * (high.x - low.x) == 0);
        Edge { num, den, inc }
    }

    /// The code of the x-intercept on the current scanline: rounded down
    /// plus rounded up.
    pub fn current_code(&self, low: Ghost<ScreenPos>, high: Ghost<ScreenPos>, y: Ghost<int>) -> (x: i32)
        requires
            rising(low@, high@),
            low@.y < y@ <= high@.y,
            edge_at(*self, low@, high@, y@),
        ensures
            x as int == intercept_code(low@, high@, y@),
            0 <= x <= 2 * IMAGE_SIZE,
    {
        proof {
            lemma_intercept_in_range(low@, high@, y@);
            lemma_intercept_num_nonneg(low@, high@, y@);
        }
        let n = self.num as u64;
        let d = self.den as u64;
        (n / d + (n + d - 1) / d) as i32
    }

    /// Moves the entry on to the next scanline.
    pub fn advance(&mut self, low: Ghost<ScreenPos>, high: Ghost<ScreenPos>, y: Ghost<int>)
        requires
            rising(low@, high@),
            low@.y < y@ <= IMAGE_SIZE + 1,
            edge_at(*old(self), low@, high@, y@),
        ensures
            edge_at(*final(self), low@, high@, y@ + 1),
    {
        proof {
            lemma_num_bounds(low@, high@, y@ + 1);
            let (lx, ly, hx, hy) = (low@.x as int, low@.y as int, high@.x as int, high@.y as int);
            assert(lx * (hy - ly) + (y@ - 1 - ly) * (hx - lx) + (hx - lx)
                == lx * (hy - ly) + (y@ + 1 - 1 - ly) * (hx - lx)) by (nonlinear_arith);
        }
        self.num = self.num + self.inc;
    }
}

} // verus!

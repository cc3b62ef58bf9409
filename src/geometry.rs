use vstd::prelude::*;

verus! {

/// Side length of the square drawing area, in pixels, minus one.
pub const IMAGE_SIZE: i32 = 700;

/// A vertex position in screen coordinates; `z` is a pseudo-depth.
#[derive(Clone, Copy, Debug, PartialEq, Eq, Structural)]
pub struct ScreenPos {
    pub x: i32,
    pub y: i32,
    pub z: i32,
}

impl ScreenPos {
    /// The position lies on the drawing area.
    pub open spec fn on_screen(self) -> bool {
        0 <= self.x <= IMAGE_SIZE && 0 <= self.y <= IMAGE_SIZE
    }
}

/// Barycentric weights of a point as exact fractions over a common
/// denominator: the weights are `w1 / den`, `w2 / den` and `w3 / den`.
#[derive(Clone, Copy, Debug, PartialEq, Eq, Structural)]
pub struct Bary {
    pub w1: i64,
    pub w2: i64,
    pub w3: i64,
    pub den: i64,
}

/// Twice the signed area of the triangle `a b c`: the common denominator
/// of the barycentric weights.
pub open spec fn bary_den(a: ScreenPos, b: ScreenPos, c: ScreenPos) -> int {
    (b.y - c.y) * (a.x - c.x) + (c.x - b.x) * (a.y - c.y)
}

/// Numerator of the weight of `a` at the point `(x, y)`.
pub open spec fn bary_w1(a: ScreenPos, b: ScreenPos, c: ScreenPos, x: int, y: int) -> int {
    (b.y - c.y) * (x - c.x) + (c.x - b.x) * (y - c.y)
}

/// Numerator of the weight of `b` at the point `(x, y)`.
pub open spec fn bary_w2(a: ScreenPos, b: ScreenPos, c: ScreenPos, x: int, y: int) -> int {
    (c.y - a.y) * (x - c.x) + (a.x - c.x) * (y - c.y)
}

/// The barycentric weights of `(x, y)` with respect to `a b c`.
pub open spec fn bary_of(a: ScreenPos, b: ScreenPos, c: ScreenPos, x: int, y: int) -> Bary {
    let den = bary_den(a, b, c);
    let w1 = bary_w1(a, b, c, x, y);
    let w2 = bary_w2(a, b, c, x, y);
    Bary { w1: w1 as i64, w2: w2 as i64, w3: (den - w1 - w2) as i64, den: den as i64 }
}

/// Coordinates small enough that every weight fits in an `i64`.
pub open spec fn coord_ok(v: int) -> bool {
    -1_000_000 <= v <= 1_000_000
}

pub open spec fn pos_ok(p: ScreenPos) -> bool {
    coord_ok(p.x as int) && coord_ok(p.y as int)
}

proof fn lemma_bary_bounds(a: ScreenPos, b: ScreenPos, c: ScreenPos, x: int, y: int)
    requires
        pos_ok(a),
        pos_ok(b),
        pos_ok(c),
        coord_ok(x),
        coord_ok(y),
    ensures
        -4_000_000_000_000 <= (b.y - c.y) * (a.x - c.x) <= 4_000_000_000_000,
        -4_000_000_000_000 <= (c.x - b.x) * (a.y - c.y) <= 4_000_000_000_000,
        -4_000_000_000_000 <= (b.y - c.y) * (x - c.x) <= 4_000_000_000_000,
        -4_000_000_000_000 <= (c.x - b.x) * (y - c.y) <= 4_000_000_000_000,
        -4_000_000_000_000 <= (c.y - a.y) * (x - c.x) <= 4_000_000_000_000,
        -4_000_000_000_000 <= (a.x - c.x) * (y - c.y) <= 4_000_000_000_000,
        -16_000_000_000_000 <= bary_den(a, b, c) <= 16_000_000_000_000,
        -16_000_000_000_000 <= bary_w1(a, b, c, x, y) <= 16_000_000_000_000,
        -16_000_000_000_000 <= bary_w2(a, b, c, x, y) <= 16_000_000_000_000,
{
    let (ax, ay, bx, by, cx, cy) = (a.x as int, a.y as int, b.x as int, b.y as int, c.x as int, c.y as int);
    assert(-4_000_000_000_000 <= (by - cy) * (ax - cx) <= 4_000_000_000_000) by (nonlinear_arith)
        requires -2_000_000 <= by - cy <= 2_000_000, -2_000_000 <= ax - cx <= 2_000_000;
    assert(-4_000_000_000_000 <= (cx - bx) * (ay - cy) <= 4_000_000_000_000) by (nonlinear_arith)
        requires -2_000_000 <= cx - bx <= 2_000_000, -2_000_000 <= ay - cy <= 2_000_000;
    assert(-4_000_000_000_000 <= (by - cy) * (x - cx) <= 4_000_000_000_000) by (nonlinear_arith)
        requires -2_000_000 <= by - cy <= 2_000_000, -2_000_000 <= x - cx <= 2_000_000;
    assert(-4_000_000_000_000 <= (cx - bx) * (y - cy) <= 4_000_000_000_000) by (nonlinear_arith)
        requires -2_000_000 <= cx - bx <= 2_000_000, -2_000_000 <= y - cy <= 2_000_000;
    assert(-4_000_000_000_000 <= (cy - ay) * (x - cx) <= 4_000_000_000_000) by (nonlinear_arith)
        requires -2_000_000 <= cy - ay <= 2_000_000, -2_000_000 <= x - cx <= 2_000_000;
    assert(-4_000_000_000_000 <= (ax - cx) * (y - cy) <= 4_000_000_000_000) by (nonlinear_arith)
        requires -2_000_000 <= ax - cx <= 2_000_000, -2_000_000 <= y - cy <= 2_000_000;
}

/// Barycentric weights of the pixel `(x, y)` with respect to the triangle
/// `a b c`, or `None` when the triangle has zero area.
pub fn barycentric(a: ScreenPos, b: ScreenPos, c: ScreenPos, x: i32, y: i32) -> (r: Option<Bary>)
    requires
        pos_ok(a),
        pos_ok(b),
        pos_ok(c),
        coord_ok(x as int),
        coord_ok(y as int),
    ensures
        bary_den(a, b, c) == 0 <==> r is None,
        r matches Some(w) ==> w == bary_of(a, b, c, x as int, y as int),
{
    proof {
        lemma_bary_bounds(a, b, c, x as int, y as int);
    }
    let (ax, ay, bx, by) = (a.x as i64, a.y as i64, b.x as i64, b.y as i64);
    let (cx, cy, px, py) = (c.x as i64, c.y as i64, x as i64, y as i64);
    let den = (by - cy) * (ax - cx) + (cx - bx) * (ay - cy);
    if den == 0 {
        return None;
    }
    let w1 = (by - cy) * (px - cx) + (cx - bx) * (py - cy);
    let w2 = (cy - ay) * (px - cx) + (ax - cx) * (py - cy);
    Some(Bary { w1, w2, w3: den - w1 - w2, den })
}

/// At each corner of a triangle the weights single out that corner, and at
/// every point the three weights add up to the whole.
pub proof fn lemma_barycentric_corners(a: ScreenPos, b: ScreenPos, c: ScreenPos, x: int, y: int)
    requires
        pos_ok(a),
        pos_ok(b),
        pos_ok(c),
        coord_ok(x),
        coord_ok(y),
    ensures
        ({
            let w = bary_of(a, b, c, a.x as int, a.y as int);
            w.w1 == w.den && w.w2 == 0 && w.w3 == 0
        }),
        ({
            let w = bary_of(a, b, c, b.x as int, b.y as int);
            w.w1 == 0 && w.w2 == w.den && w.w3 == 0
        }),
        ({
            let w = bary_of(a, b, c, c.x as int, c.y as int);
            w.w1 == 0 && w.w2 == 0 && w.w3 == w.den
        }),
        ({
            let w = bary_of(a, b, c, x, y);
            w.w1 + w.w2 + w.w3 == w.den
        }),
{
    let (ax, ay, bx, by, cx, cy) = (a.x as int, a.y as int, b.x as int, b.y as int, c.x as int, c.y as int);
    lemma_bary_bounds(a, b, c, x, y);
    lemma_bary_bounds(a, b, c, ax, ay);
    lemma_bary_bounds(a, b, c, bx, by);
    lemma_bary_bounds(a, b, c, cx, cy);
    assert((cy - ay) * (ax - cx) + (ax - cx) * (ay - cy) == 0) by (nonlinear_arith);
    assert((by - cy) * (bx - cx) + (cx - bx) * (by - cy) == 0) by (nonlinear_arith);
    assert((cy - ay) * (bx - cx) + (ax - cx) * (by - cy)
        == (by - cy) * (ax - cx) + (cx - bx) * (ay - cy)) by (nonlinear_arith);
    assert((by - cy) * (cx - cx) + (cx - bx) * (cy - cy) == 0) by (nonlinear_arith);
    assert((cy - ay) * (cx - cx) + (ax - cx) * (cy - cy) == 0) by (nonlinear_arith);
}

} // verus!

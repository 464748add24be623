//! Triangle rasterization: clip rejection, screen mapping, barycentric
//! coverage, attribute interpolation and depth-tested writes.
use vstd::prelude::*;
use crate::arith::{floor_div, lemma_div_shrinks};
use crate::framebuffer::{Framebuffer, MAX_SIDE, lemma_cell_index, lemma_cell_of_index};
use crate::vertex::{unit_vector, Clip4, FragmentInput, Point3, COORD_LIMIT};

verus! {

/// Sub-pixel steps per pixel along each screen axis.
pub const SUB: i64 = 16;

/// Fixed-point scale of NDC depth: `DEPTH_ONE` stands for 1.0.
pub const DEPTH_ONE: i64 = 1048576;

/// Bound on the magnitude of a screen coordinate in sub-pixel units.
pub const SCREEN_LIMIT: i128 = 0x100_0000_0000;

/// One covered pixel with its interpolated attributes.
#[derive(Clone, Copy, Debug, PartialEq, Eq, Structural)]
pub struct Fragment {
    pub x: usize,
    pub y: usize,
    pub depth: i64,
    pub world_pos: Point3,
    pub normal: Point3,
}

/// What turns a fragment into a packed `0xRRGGBB` colour.
pub trait FragmentShader {
    fn shade(&self, fragment: &Fragment) -> u32;
}

/// NDC depth `z / w` is outside `[-1, 1]` (for `w > 0`).
pub open spec fn z_outside(c: Clip4) -> bool {
    c.z > c.w || c.z < -c.w
}

/// The triangle is dropped whole: a vertex has `w <= 0`, or every NDC depth
/// lies outside `[-1, 1]`.
pub open spec fn rejected(v0: FragmentInput, v1: FragmentInput, v2: FragmentInput) -> bool {
    v0.position.w <= 0 || v1.position.w <= 0 || v2.position.w <= 0 || (z_outside(v0.position)
        && z_outside(v1.position) && z_outside(v2.position))
}

/// Screen column in sub-pixel units: NDC x in `[-1, 1]` maps to `[0, width]`.
pub open spec fn screen_x(c: Clip4, width: int) -> int {
    ((c.x + c.w) * width * SUB) / (2 * c.w as int)
}

/// Screen row in sub-pixel units: NDC y = +1 maps to row 0.
pub open spec fn screen_y(c: Clip4, height: int) -> int {
    ((c.w - c.y) * height * SUB) / (2 * c.w as int)
}

/// NDC depth `z / w` in units of `1 / DEPTH_ONE`.
pub open spec fn ndc_depth(c: Clip4) -> int {
    (c.z * DEPTH_ONE) / (c.w as int)
}

/// Twice the signed area of `(a, b, c)`: the common denominator of the weights.
pub open spec fn edge_denom(a: (int, int), b: (int, int), c: (int, int)) -> int {
    (b.1 - c.1) * (a.0 - c.0) + (c.0 - b.0) * (a.1 - c.1)
}

pub open spec fn edge_w0(p: (int, int), b: (int, int), c: (int, int)) -> int {
    (b.1 - c.1) * (p.0 - c.0) + (c.0 - b.0) * (p.1 - c.1)
}

pub open spec fn edge_w1(p: (int, int), a: (int, int), c: (int, int)) -> int {
    (c.1 - a.1) * (p.0 - c.0) + (a.0 - c.0) * (p.1 - c.1)
}

/// Barycentric weights of `p` as numerators over a positive common
/// denominator `(w0, w1, w2, d)`, meaning `w0 / d`, `w1 / d`, `w2 / d`.
/// A degenerate triangle gives the sentinel `(-1, -1, -1, 1)`.
pub open spec fn bary(p: (int, int), a: (int, int), b: (int, int), c: (int, int)) -> (
    int,
    int,
    int,
    int,
) {
    let d = edge_denom(a, b, c);
    let w0 = edge_w0(p, b, c);
    let w1 = edge_w1(p, a, c);
    if d == 0 {
        (-1, -1, -1, 1)
    } else if d > 0 {
        (w0, w1, d - w0 - w1, d)
    } else {
        (-w0, -w1, -(d - w0 - w1), -d)
    }
}

/// Twice the signed area of the triangle `(a, b, q)`: positive when `q` lies to
/// the left of the directed edge from `a` to `b`.
pub open spec fn orient(a: (int, int), b: (int, int), q: (int, int)) -> int {
    (b.0 - a.0) * (q.1 - a.1) - (b.1 - a.1) * (q.0 - a.0)
}

/// `p` lies strictly on the inner side of all three edges of `(a, b, c)`.
pub open spec fn strictly_inside(p: (int, int), a: (int, int), b: (int, int), c: (int, int)) -> bool {
    let o = orient(a, b, c);
    &&& o > 0 ==> orient(a, b, p) > 0 && orient(b, c, p) > 0 && orient(c, a, p) > 0
    &&& o < 0 ==> orient(a, b, p) < 0 && orient(b, c, p) < 0 && orient(c, a, p) < 0
}

/// The numerators of the barycentric weights are the signed areas of the
/// sub-triangles opposite each vertex.
proof fn lemma_bary_areas(p: (int, int), a: (int, int), b: (int, int), c: (int, int))
    ensures
        edge_denom(a, b, c) == orient(a, b, c),
        edge_w0(p, b, c) == orient(b, c, p),
        edge_w1(p, a, c) == orient(c, a, p),
        edge_denom(a, b, c) - edge_w0(p, b, c) - edge_w1(p, a, c) == orient(a, b, p),
{
    let (ax, ay) = a;
    let (bx, by) = b;
    let (cx, cy) = c;
    let (px, py) = p;
    assert((by - cy) * (ax - cx) + (cx - bx) * (ay - cy) == (bx - ax) * (cy - ay) - (by - ay) * (cx - ax)) by (nonlinear_arith);
    assert((by - cy) * (px - cx) + (cx - bx) * (py - cy) == (cx - bx) * (py - by) - (cy - by) * (px - bx)) by (nonlinear_arith);
    assert((cy - ay) * (px - cx) + (ax - cx) * (py - cy) == (ax - cx) * (py - cy) - (ay - cy) * (px - cx)) by (nonlinear_arith);
    let vx = cx - ax;
    let vy = cy - ay;
    let qx = px - ax;
    let qy = py - ay;
    assert((-vx) * (qy - vy) == -(vx * qy) + vx * vy) by (nonlinear_arith);
    assert((-vy) * (qx - vx) == -(vy * qx) + vy * vx) by (nonlinear_arith);
    assert(vx * vy == vy * vx) by (nonlinear_arith);
    assert((ax - cx) * (py - cy) - (ay - cy) * (px - cx) == vy * qx - vx * qy);
    lemma_orient_sum(bx - ax, by - ay, cx - ax, cy - ay, px - ax, py - ay);
}

/// The areas of the three sub-triangles add up to the whole, written with
/// `a` at the origin: `u = b - a`, `v = c - a`, `q = p - a`.
proof fn lemma_orient_sum(ux: int, uy: int, vx: int, vy: int, qx: int, qy: int)
    ensures
        ux * vy - uy * vx == (ux * qy - uy * qx) + ((vx - ux) * (qy - uy) - (vy - uy) * (qx - ux)) + (
        vy * qx - vx * qy),
{
    assert((vx - ux) * (qy - uy) == vx * qy - vx * uy - ux * qy + ux * uy) by (nonlinear_arith);
    assert((vy - uy) * (qx - ux) == vy * qx - vy * ux - uy * qx + uy * ux) by (nonlinear_arith);
    assert(ux * vy == vy * ux && uy * vx == vx * uy && ux * uy == uy * ux) by (nonlinear_arith);
}

/// For a non-degenerate triangle the three weights sum to one (their
/// numerators sum to the positive denominator), and at a point strictly
/// inside the triangle every weight is positive.
pub proof fn lemma_bary_inside(p: (int, int), a: (int, int), b: (int, int), c: (int, int))
    requires
        edge_denom(a, b, c) != 0,
        strictly_inside(p, a, b, c),
    ensures
        ({
            let w = bary(p, a, b, c);
            w.3 > 0 && w.0 + w.1 + w.2 == w.3 && w.0 > 0 && w.1 > 0 && w.2 > 0
        }),
{
    lemma_bary_areas(p, a, b, c);
}

/// At a vertex of a non-degenerate triangle, that vertex's weight is one and
/// the other two are zero.
pub proof fn lemma_bary_at_vertex(a: (int, int), b: (int, int), c: (int, int))
    requires
        edge_denom(a, b, c) != 0,
    ensures
        ({
            let w = bary(a, a, b, c);
            w.3 > 0 && w.0 == w.3 && w.1 == 0 && w.2 == 0
        }),
        ({
            let w = bary(b, a, b, c);
            w.3 > 0 && w.0 == 0 && w.1 == w.3 && w.2 == 0
        }),
        ({
            let w = bary(c, a, b, c);
            w.3 > 0 && w.0 == 0 && w.1 == 0 && w.2 == w.3
        }),
{
    lemma_bary_areas(a, a, b, c);
    lemma_bary_areas(b, a, b, c);
    lemma_bary_areas(c, a, b, c);
    let (ax, ay) = a;
    let (bx, by) = b;
    let (cx, cy) = c;
    assert((bx - ax) * (ay - ay) - (by - ay) * (ax - ax) == 0) by (nonlinear_arith);
    assert((ax - cx) * (ay - cy) - (ay - cy) * (ax - cx) == 0) by (nonlinear_arith);
    assert((cx - bx) * (by - by) - (cy - by) * (bx - bx) == 0) by (nonlinear_arith);
    assert((bx - ax) * (by - ay) - (by - ay) * (bx - ax) == 0) by (nonlinear_arith);
    assert((cx - bx) * (cy - by) - (cy - by) * (cx - bx) == 0) by (nonlinear_arith);
    assert((ax - cx) * (cy - cy) - (ay - cy) * (cx - cx) == 0) by (nonlinear_arith);
    assert(orient(b, c, a) == orient(a, b, c)) by (nonlinear_arith);
    assert(orient(c, a, b) == orient(a, b, c)) by (nonlinear_arith);
}

/// The weights rebuild the point: `w0 * a + w1 * b + w2 * c == d * p`, with `a` at the origin.
proof fn lemma_rebuild_translated(ux: int, uy: int, vx: int, vy: int, qx: int, qy: int)
    ensures
        (vy * qx - vx * qy) * ux + (ux * qy - uy * qx) * vx == (ux * vy - uy * vx) * qx,
        (vy * qx - vx * qy) * uy + (ux * qy - uy * qx) * vy == (ux * vy - uy * vx) * qy,
{
    assert((vy * qx - vx * qy) * ux == vy * qx * ux - vx * qy * ux) by (nonlinear_arith);
    assert((ux * qy - uy * qx) * vx == ux * qy * vx - uy * qx * vx) by (nonlinear_arith);
    assert((ux * vy - uy * vx) * qx == ux * vy * qx - uy * vx * qx) by (nonlinear_arith);
    assert(vy * qx * ux == ux * vy * qx && vx * qy * ux == ux * qy * vx && uy * qx * vx == uy * vx * qx) by (nonlinear_arith);
    assert((vy * qx - vx * qy) * uy == vy * qx * uy - vx * qy * uy) by (nonlinear_arith);
    assert((ux * qy - uy * qx) * vy == ux * qy * vy - uy * qx * vy) by (nonlinear_arith);
    assert((ux * vy - uy * vx) * qy == ux * vy * qy - uy * vx * qy) by (nonlinear_arith);
    assert(vy * qx * uy == uy * qx * vy && vx * qy * uy == uy * vx * qy && ux * qy * vy == ux * vy * qy) by (nonlinear_arith);
}

/// A point whose weights are all non-negative lies within the bounds of the
/// triangle's vertices.
proof fn lemma_covered_within(p: (int, int), a: (int, int), b: (int, int), c: (int, int))
    requires
        edge_denom(a, b, c) != 0,
        bary(p, a, b, c).0 >= 0,
        bary(p, a, b, c).1 >= 0,
        bary(p, a, b, c).2 >= 0,
    ensures
        min3(a.0, b.0, c.0) <= p.0 <= max3(a.0, b.0, c.0),
        min3(a.1, b.1, c.1) <= p.1 <= max3(a.1, b.1, c.1),
{
    lemma_bary_areas(p, a, b, c);
    let (ax, ay) = a;
    let (bx, by) = b;
    let (cx, cy) = c;
    let (px, py) = p;
    let vx = cx - ax;
    let vy = cy - ay;
    let qx = px - ax;
    let qy = py - ay;
    assert((-vx) * (qy - vy) == -(vx * qy) + vx * vy) by (nonlinear_arith);
    assert((-vy) * (qx - vx) == -(vy * qx) + vy * vx) by (nonlinear_arith);
    assert(vx * vy == vy * vx) by (nonlinear_arith);
    lemma_orient_sum(bx - ax, by - ay, cx - ax, cy - ay, px - ax, py - ay);
    lemma_rebuild_translated(bx - ax, by - ay, cx - ax, cy - ay, px - ax, py - ay);
    let w = bary(p, a, b, c);
    let (w0, w1, w2, d) = w;
    // w1 * (b - a) + w2 * (c - a) == d * (p - a), and w0 + w1 + w2 == d
    assert(w1 * (bx - ax) + w2 * (cx - ax) == d * (px - ax)) by (nonlinear_arith)
        requires
            d == orient(a, b, c) || d == -orient(a, b, c),
            d == orient(a, b, c) ==> w1 == orient(c, a, p) && w2 == orient(a, b, p),
            d == -orient(a, b, c) ==> w1 == -orient(c, a, p) && w2 == -orient(a, b, p),
            orient(c, a, p) == vy * qx - vx * qy,
            orient(a, b, p) == (bx - ax) * qy - (by - ay) * qx,
            orient(a, b, c) == (bx - ax) * vy - (by - ay) * vx,
            (vy * qx - vx * qy) * (bx - ax) + ((bx - ax) * qy - (by - ay) * qx) * vx == ((bx - ax) * vy - (by
                - ay) * vx) * qx,
            vx == cx - ax,
            vy == cy - ay,
            qx == px - ax,
            qy == py - ay,
    ;
    assert(w1 * (by - ay) + w2 * (cy - ay) == d * (py - ay)) by (nonlinear_arith)
        requires
            d == orient(a, b, c) || d == -orient(a, b, c),
            d == orient(a, b, c) ==> w1 == orient(c, a, p) && w2 == orient(a, b, p),
            d == -orient(a, b, c) ==> w1 == -orient(c, a, p) && w2 == -orient(a, b, p),
            orient(c, a, p) == vy * qx - vx * qy,
            orient(a, b, p) == (bx - ax) * qy - (by - ay) * qx,
            orient(a, b, c) == (bx - ax) * vy - (by - ay) * vx,
            (vy * qx - vx * qy) * (by - ay) + ((bx - ax) * qy - (by - ay) * qx) * vy == ((bx - ax) * vy - (by
                - ay) * vx) * qy,
            vx == cx - ax,
            vy == cy - ay,
            qx == px - ax,
            qy == py - ay,
    ;
    lemma_mean_within(w0, w1, w2, d, ax, bx, cx, px);
    lemma_mean_within(w0, w1, w2, d, ay, by, cy, py);
}

/// If `d * p == w0 * a + w1 * b + w2 * c` with non-negative weights summing to
/// `d > 0`, then `p` lies between the least and the greatest of `a`, `b`, `c`.
proof fn lemma_mean_within(w0: int, w1: int, w2: int, d: int, a: int, b: int, c: int, p: int)
    requires
        w0 >= 0,
        w1 >= 0,
        w2 >= 0,
        w0 + w1 + w2 == d,
        d > 0,
        w1 * (b - a) + w2 * (c - a) == d * (p - a),
    ensures
        min3(a, b, c) <= p <= max3(a, b, c),
{
    let lo = min3(a, b, c);
    let hi = max3(a, b, c);
    assert(d * (lo - a) <= d * (p - a) <= d * (hi - a)) by (nonlinear_arith)
        requires
            w0 >= 0,
            w1 >= 0,
            w2 >= 0,
            w0 + w1 + w2 == d,
            w1 * (b - a) + w2 * (c - a) == d * (p - a),
            lo <= a && lo <= b && lo <= c,
            hi >= a && hi >= b && hi >= c,
    ;
    assert(lo <= p <= hi) by (nonlinear_arith)
        requires
            d > 0,
            d * (lo - a) <= d * (p - a) <= d * (hi - a),
    ;
}

pub open spec fn min3(a: int, b: int, c: int) -> int {
    if a <= b && a <= c {
        a
    } else if b <= c {
        b
    } else {
        c
    }
}

pub open spec fn max3(a: int, b: int, c: int) -> int {
    if a >= b && a >= c {
        a
    } else if b >= c {
        b
    } else {
        c
    }
}

/// The three vertices mapped to the screen of a `width` by `height` framebuffer.
pub open spec fn screen_tri(
    v0: FragmentInput,
    v1: FragmentInput,
    v2: FragmentInput,
    width: int,
    height: int,
) -> ((int, int), (int, int), (int, int)) {
    (
        (screen_x(v0.position, width), screen_y(v0.position, height)),
        (screen_x(v1.position, width), screen_y(v1.position, height)),
        (screen_x(v2.position, width), screen_y(v2.position, height)),
    )
}

/// The centre of pixel `(x, y)` in sub-pixel units.
pub open spec fn pixel_center(x: int, y: int) -> (int, int) {
    (x * SUB + SUB / 2, y * SUB + SUB / 2)
}

/// Pixel `(x, y)` lies in the triangle's bounding box, clamped to the framebuffer.
pub open spec fn in_bbox(s: ((int, int), (int, int), (int, int)), width: int, height: int, x: int, y: int) -> bool {
    let lo_x = min3(s.0.0, s.1.0, s.2.0) / (SUB as int);
    let hi_x = max3(s.0.0, s.1.0, s.2.0) / (SUB as int);
    let lo_y = min3(s.0.1, s.1.1, s.2.1) / (SUB as int);
    let hi_y = max3(s.0.1, s.1.1, s.2.1) / (SUB as int);
    &&& 0 <= x < width
    &&& 0 <= y < height
    &&& lo_x <= x <= hi_x
    &&& lo_y <= y <= hi_y
}

/// The triangle covers pixel `(x, y)`: the pixel lies in the framebuffer and
/// its centre has no negative barycentric weight (a centre on an edge counts).
pub open spec fn covers(
    v0: FragmentInput,
    v1: FragmentInput,
    v2: FragmentInput,
    width: int,
    height: int,
    x: int,
    y: int,
) -> bool {
    let s = screen_tri(v0, v1, v2, width, height);
    let b = bary(pixel_center(x, y), s.0, s.1, s.2);
    &&& 0 <= x < width
    &&& 0 <= y < height
    &&& b.0 >= 0 && b.1 >= 0 && b.2 >= 0
}

/// A pixel whose centre lies between `lo` and `hi` lies between their pixels.
proof fn lemma_center_pixel(x: int, lo: int, hi: int)
    requires
        lo <= x * SUB + SUB / 2 <= hi,
    ensures
        lo / (SUB as int) <= x <= hi / (SUB as int),
{
    let c = x * SUB + SUB / 2;
    vstd::arithmetic::div_mod::lemma_fundamental_div_mod_converse(c, SUB as int, x, SUB / 2);
    vstd::arithmetic::div_mod::lemma_div_is_ordered(lo, c, SUB as int);
    vstd::arithmetic::div_mod::lemma_div_is_ordered(c, hi, SUB as int);
}

/// Every covered pixel lies in the triangle's bounding box.
proof fn lemma_covered_in_bbox(
    v0: FragmentInput,
    v1: FragmentInput,
    v2: FragmentInput,
    width: int,
    height: int,
    x: int,
    y: int,
)
    requires
        covers(v0, v1, v2, width, height, x, y),
    ensures
        in_bbox(screen_tri(v0, v1, v2, width, height), width, height, x, y),
{
    let s = screen_tri(v0, v1, v2, width, height);
    let p = pixel_center(x, y);
    lemma_covered_within(p, s.0, s.1, s.2);
    lemma_center_pixel(x, min3(s.0.0, s.1.0, s.2.0), max3(s.0.0, s.1.0, s.2.0));
    lemma_center_pixel(y, min3(s.0.1, s.1.1, s.2.1), max3(s.0.1, s.1.1, s.2.1));
}

/// The weighted sum `(w0 * a + w1 * b + w2 * c) / d`, rounded down.
pub open spec fn lerp3(b: (int, int, int, int), a0: int, a1: int, a2: int) -> int {
    (b.0 * a0 + b.1 * a1 + b.2 * a2) / b.3
}

/// Depth interpolated linearly in screen space at the centre of pixel `(x, y)`.
pub open spec fn fragment_depth(
    v0: FragmentInput,
    v1: FragmentInput,
    v2: FragmentInput,
    width: int,
    height: int,
    x: int,
    y: int,
) -> int {
    let s = screen_tri(v0, v1, v2, width, height);
    let b = bary(pixel_center(x, y), s.0, s.1, s.2);
    lerp3(b, ndc_depth(v0.position), ndc_depth(v1.position), ndc_depth(v2.position))
}

/// The triangle writes pixel `(x, y)`: it covers it and is strictly nearer than `old_depth`.
pub open spec fn draws(
    v0: FragmentInput,
    v1: FragmentInput,
    v2: FragmentInput,
    width: int,
    height: int,
    x: int,
    y: int,
    old_depth: int,
) -> bool {
    &&& !rejected(v0, v1, v2)
    &&& covers(v0, v1, v2, width, height, x, y)
    &&& fragment_depth(v0, v1, v2, width, height, x, y) < old_depth
}

/// Bounds a product from bounds on its factors.
proof fn lemma_mul_within(a: int, b: int, ma: int, mb: int)
    requires
        -ma <= a <= ma,
        -mb <= b <= mb,
    ensures
        -(ma * mb) <= a * b <= ma * mb,
{
    assert(-(ma * mb) <= a * b <= ma * mb) by (nonlinear_arith)
        requires
            -ma <= a <= ma,
            -mb <= b <= mb,
    ;
}

/// A coordinate of `c` mapped onto a screen side of `side` pixels, in sub-pixel
/// units: `floor(offset * side * SUB / (2 * w))`.
fn to_screen(offset: i128, side: i128, w: i128) -> (r: i128)
    requires
        -2 * COORD_LIMIT <= offset <= 2 * COORD_LIMIT,
        0 <= side <= MAX_SIDE,
        1 <= w <= COORD_LIMIT,
    ensures
        r == (offset * side * SUB) / (2 * w as int),
        -SCREEN_LIMIT <= r <= SCREEN_LIMIT,
{
    proof {
        lemma_mul_within(offset as int, side as int, 2 * COORD_LIMIT, MAX_SIDE as int);
        lemma_mul_within(offset * side, SUB as int, 2 * COORD_LIMIT * MAX_SIDE, SUB as int);
        lemma_div_shrinks(offset * side * SUB, 2 * w as int, SCREEN_LIMIT as int);
    }
    floor_div(offset * side * SUB as i128, 2 * w)
}

/// The vertex's position on the screen, in sub-pixel units.
fn screen_point(c: &Clip4, width: usize, height: usize) -> (r: (i128, i128))
    requires
        c.wf(),
        c.w > 0,
        width <= MAX_SIDE,
        height <= MAX_SIDE,
    ensures
        r.0 == screen_x(*c, width as int),
        r.1 == screen_y(*c, height as int),
        -SCREEN_LIMIT <= r.0 <= SCREEN_LIMIT,
        -SCREEN_LIMIT <= r.1 <= SCREEN_LIMIT,
{
    let w = c.w as i128;
    let sx = to_screen(c.x as i128 + w, width as i128, w);
    let sy = to_screen(w - c.y as i128, height as i128, w);
    (sx, sy)
}

/// The vertex's NDC depth `z / w`, in units of `1 / DEPTH_ONE`.
fn depth_of(c: &Clip4) -> (r: i128)
    requires
        c.wf(),
        c.w > 0,
    ensures
        r == ndc_depth(*c),
        -SCREEN_LIMIT <= r <= SCREEN_LIMIT,
{
    proof {
        lemma_mul_within(c.z as int, DEPTH_ONE as int, COORD_LIMIT as int, DEPTH_ONE as int);
        lemma_div_shrinks(c.z * DEPTH_ONE, c.w as int, SCREEN_LIMIT as int);
    }
    floor_div(c.z as i128 * DEPTH_ONE as i128, c.w as i128)
}

pub open spec fn on_screen(p: (i128, i128)) -> bool {
    -SCREEN_LIMIT <= p.0 <= SCREEN_LIMIT && -SCREEN_LIMIT <= p.1 <= SCREEN_LIMIT
}

pub open spec fn as_int_pair(p: (i128, i128)) -> (int, int) {
    (p.0 as int, p.1 as int)
}

/// Barycentric weights of `p` in triangle `(a, b, c)` as numerators over a
/// positive denominator; a degenerate triangle gives `(-1, -1, -1, 1)`.
pub fn barycentric(p: (i128, i128), a: (i128, i128), b: (i128, i128), c: (i128, i128)) -> (r: (
    i128,
    i128,
    i128,
    i128,
))
    requires
        on_screen(p),
        on_screen(a),
        on_screen(b),
        on_screen(c),
    ensures
        (r.0 as int, r.1 as int, r.2 as int, r.3 as int) == bary(
            as_int_pair(p),
            as_int_pair(a),
            as_int_pair(b),
            as_int_pair(c),
        ),
        0 < r.3 <= 8 * SCREEN_LIMIT * SCREEN_LIMIT,
{
    let lim = 2 * SCREEN_LIMIT;
    proof {
        lemma_mul_within((b.1 - c.1) as int, (a.0 - c.0) as int, lim as int, lim as int);
        lemma_mul_within((c.0 - b.0) as int, (a.1 - c.1) as int, lim as int, lim as int);
        lemma_mul_within((b.1 - c.1) as int, (p.0 - c.0) as int, lim as int, lim as int);
        lemma_mul_within((c.0 - b.0) as int, (p.1 - c.1) as int, lim as int, lim as int);
        lemma_mul_within((c.1 - a.1) as int, (p.0 - c.0) as int, lim as int, lim as int);
        lemma_mul_within((a.0 - c.0) as int, (p.1 - c.1) as int, lim as int, lim as int);
    }
    let d: i128 = (b.1 - c.1) * (a.0 - c.0) + (c.0 - b.0) * (a.1 - c.1);
    let w0: i128 = (b.1 - c.1) * (p.0 - c.0) + (c.0 - b.0) * (p.1 - c.1);
    let w1: i128 = (c.1 - a.1) * (p.0 - c.0) + (a.0 - c.0) * (p.1 - c.1);
    if d == 0 {
        (-1, -1, -1, 1)
    } else if d > 0 {
        (w0, w1, d - w0 - w1, d)
    } else {
        (-w0, -w1, -(d - w0 - w1), -d)
    }
}

pub open spec fn in_range_3(a0: i128, a1: i128, a2: i128) -> bool {
    -COORD_LIMIT <= a0 <= COORD_LIMIT && -COORD_LIMIT <= a1 <= COORD_LIMIT && -COORD_LIMIT <= a2 <= COORD_LIMIT
}

proof fn lemma_weighted_within(w: int, a: int, m: int)
    requires
        0 <= w,
        -m <= a <= m,
    ensures
        -(w * m) <= w * a <= w * m,
{
    assert(-(w * m) <= w * a <= w * m) by (nonlinear_arith)
        requires
            0 <= w,
            -m <= a <= m,
    ;
}

/// A weighted mean of values within `m` stays within `m`.
proof fn lemma_convex_bound(w0: int, w1: int, w2: int, d: int, a0: int, a1: int, a2: int, m: int)
    requires
        0 <= w0,
        0 <= w1,
        0 <= w2,
        w0 + w1 + w2 == d,
        d > 0,
        -m <= a0 <= m,
        -m <= a1 <= m,
        -m <= a2 <= m,
    ensures
        -(d * m) <= w0 * a0 + w1 * a1 + w2 * a2 <= d * m,
        -m <= (w0 * a0 + w1 * a1 + w2 * a2) / d <= m,
{
    let sum = w0 * a0 + w1 * a1 + w2 * a2;
    lemma_weighted_within(w0, a0, m);
    lemma_weighted_within(w1, a1, m);
    lemma_weighted_within(w2, a2, m);
    assert(w0 * m + w1 * m + w2 * m == d * m) by (nonlinear_arith)
        requires
            w0 + w1 + w2 == d,
    ;
    vstd::arithmetic::div_mod::lemma_fundamental_div_mod(sum, d);
    let q = sum / d;
    let rem = sum % d;
    assert(-m <= q <= m) by (nonlinear_arith)
        requires
            sum == d * q + rem,
            0 <= rem < d,
            -(d * m) <= sum <= d * m,
    ;
}

/// The weighted sum `(w0 * a0 + w1 * a1 + w2 * a2) / d`, rounded down, for
/// non-negative weights that sum to `d`.
fn interpolate(b: (i128, i128, i128, i128), a0: i128, a1: i128, a2: i128) -> (r: i128)
    requires
        0 <= b.0,
        0 <= b.1,
        0 <= b.2,
        b.0 + b.1 + b.2 == b.3,
        0 < b.3 <= 8 * SCREEN_LIMIT * SCREEN_LIMIT,
        -SCREEN_LIMIT <= a0 <= SCREEN_LIMIT,
        -SCREEN_LIMIT <= a1 <= SCREEN_LIMIT,
        -SCREEN_LIMIT <= a2 <= SCREEN_LIMIT,
    ensures
        r == lerp3((b.0 as int, b.1 as int, b.2 as int, b.3 as int), a0 as int, a1 as int, a2 as int),
        -SCREEN_LIMIT <= r <= SCREEN_LIMIT,
        in_range_3(a0, a1, a2) ==> -COORD_LIMIT <= r <= COORD_LIMIT,
{
    proof {
        lemma_mul_within(b.0 as int, a0 as int, b.3 as int, SCREEN_LIMIT as int);
        lemma_mul_within(b.1 as int, a1 as int, b.3 as int, SCREEN_LIMIT as int);
        lemma_mul_within(b.2 as int, a2 as int, b.3 as int, SCREEN_LIMIT as int);
        lemma_mul_within(b.3 as int, SCREEN_LIMIT as int, 8 * SCREEN_LIMIT * SCREEN_LIMIT, SCREEN_LIMIT as int);
        lemma_convex_bound(b.0 as int, b.1 as int, b.2 as int, b.3 as int, a0 as int, a1 as int, a2 as int, SCREEN_LIMIT as int);
        if in_range_3(a0, a1, a2) {
            lemma_convex_bound(b.0 as int, b.1 as int, b.2 as int, b.3 as int, a0 as int, a1 as int, a2 as int, COORD_LIMIT as int);
        }
    }
    floor_div(b.0 * a0 + b.1 * a1 + b.2 * a2, b.3)
}

/// The centre of pixel `(x, y)` in sub-pixel units.
fn center_of(x: i128, y: i128) -> (r: (i128, i128))
    requires
        0 <= x < MAX_SIDE,
        0 <= y < MAX_SIDE,
    ensures
        as_int_pair(r) == pixel_center(x as int, y as int),
        on_screen(r),
{
    let step = SUB as i128;
    let half = step / 2;
    assert(half == 8);
    (x * step + half, y * step + half)
}

fn smallest(a: i128, b: i128, c: i128) -> (r: i128)
    ensures
        r == min3(a as int, b as int, c as int),
{
    if a <= b && a <= c {
        a
    } else if b <= c {
        b
    } else {
        c
    }
}

fn largest(a: i128, b: i128, c: i128) -> (r: i128)
    ensures
        r == max3(a as int, b as int, c as int),
{
    if a >= b && a >= c {
        a
    } else if b >= c {
        b
    } else {
        c
    }
}

/// Pixel `(px, py)` comes before `(x, y)` in row-major scan order.
pub open spec fn scanned_before(px: int, py: int, x: int, y: int) -> bool {
    py < y || (py == y && px < x)
}

/// The depth of pixel `(x, y)` after the triangle is drawn over `old_depth`.
pub open spec fn depth_through(
    v0: FragmentInput,
    v1: FragmentInput,
    v2: FragmentInput,
    w: int,
    h: int,
    x: int,
    y: int,
    old_depth: int,
) -> int {
    if draws(v0, v1, v2, w, h, x, y, old_depth) {
        fragment_depth(v0, v1, v2, w, h, x, y)
    } else {
        old_depth
    }
}

/// Drawing two triangles leaves the same depth in every pixel whichever of
/// them is drawn first.
pub proof fn lemma_depth_order_independent(
    a: (FragmentInput, FragmentInput, FragmentInput),
    b: (FragmentInput, FragmentInput, FragmentInput),
    w: int,
    h: int,
    x: int,
    y: int,
    old_depth: int,
)
    ensures
        depth_through(b.0, b.1, b.2, w, h, x, y, depth_through(a.0, a.1, a.2, w, h, x, y, old_depth))
            == depth_through(a.0, a.1, a.2, w, h, x, y, depth_through(b.0, b.1, b.2, w, h, x, y, old_depth)),
{
}

/// Cell `i` has been drawn by the scan once it has reached pixel `(x, y)`.
pub open spec fn drawn_before(
    v0: FragmentInput,
    v1: FragmentInput,
    v2: FragmentInput,
    w: int,
    h: int,
    old_depths: Seq<i64>,
    i: int,
    x: int,
    y: int,
) -> bool {
    scanned_before(i % w, i / w, x, y) && draws(v0, v1, v2, w, h, i % w, i / w, old_depths[i] as int)
}

/// The depth of cell `i` once the scan has reached pixel `(x, y)`.
pub open spec fn depth_after(
    v0: FragmentInput,
    v1: FragmentInput,
    v2: FragmentInput,
    w: int,
    h: int,
    old_depths: Seq<i64>,
    i: int,
    x: int,
    y: int,
) -> int {
    if drawn_before(v0, v1, v2, w, h, old_depths, i, x, y) {
        fragment_depth(v0, v1, v2, w, h, i % w, i / w)
    } else {
        old_depths[i] as int
    }
}

/// Attributes `p0`, `p1`, `p2` of the three vertices blended with weights `b`.
pub open spec fn lerp_point(b: (int, int, int, int), p0: Point3, p1: Point3, p2: Point3) -> Point3 {
    Point3 {
        x: lerp3(b, p0.x as int, p1.x as int, p2.x as int) as i64,
        y: lerp3(b, p0.y as int, p1.y as int, p2.y as int) as i64,
        z: lerp3(b, p0.z as int, p1.z as int, p2.z as int) as i64,
    }
}

pub open spec fn weights_of(b: (i128, i128, i128, i128)) -> (int, int, int, int) {
    (b.0 as int, b.1 as int, b.2 as int, b.3 as int)
}

/// The fragment at pixel `(x, y)` with barycentric weights `b`: world position
/// blended linearly, normal blended and rescaled to unit length.
fn make_fragment(
    b: (i128, i128, i128, i128),
    v0: &FragmentInput,
    v1: &FragmentInput,
    v2: &FragmentInput,
    x: usize,
    y: usize,
    depth: i64,
) -> (f: Fragment)
    requires
        0 <= b.0,
        0 <= b.1,
        0 <= b.2,
        b.0 + b.1 + b.2 == b.3,
        0 < b.3 <= 8 * SCREEN_LIMIT * SCREEN_LIMIT,
        v0.wf(),
        v1.wf(),
        v2.wf(),
    ensures
        f.x == x,
        f.y == y,
        f.depth == depth,
        f.world_pos == lerp_point(weights_of(b), v0.world_pos, v1.world_pos, v2.world_pos),
        f.normal == unit_vector(lerp_point(weights_of(b), v0.normal, v1.normal, v2.normal)),
{
    let world_pos = Point3 {
        x: interpolate(b, v0.world_pos.x as i128, v1.world_pos.x as i128, v2.world_pos.x as i128) as i64,
        y: interpolate(b, v0.world_pos.y as i128, v1.world_pos.y as i128, v2.world_pos.y as i128) as i64,
        z: interpolate(b, v0.world_pos.z as i128, v1.world_pos.z as i128, v2.world_pos.z as i128) as i64,
    };
    let blended = Point3 {
        x: interpolate(b, v0.normal.x as i128, v1.normal.x as i128, v2.normal.x as i128) as i64,
        y: interpolate(b, v0.normal.y as i128, v1.normal.y as i128, v2.normal.y as i128) as i64,
        z: interpolate(b, v0.normal.z as i128, v1.normal.z as i128, v2.normal.z as i128) as i64,
    };
    Fragment { x, y, depth, world_pos, normal: blended.normalize() }
}

/// Rasterizes one triangle into `framebuffer`, colouring each covered pixel
/// with `shader` and writing it through the depth test.
pub fn rasterize_triangle<S: FragmentShader>(
    framebuffer: &mut Framebuffer,
    v0: &FragmentInput,
    v1: &FragmentInput,
    v2: &FragmentInput,
    shader: &S,
)
    requires
        old(framebuffer).wf(),
        v0.wf(),
        v1.wf(),
        v2.wf(),
    ensures
        final(framebuffer).wf(),
        final(framebuffer).width == old(framebuffer).width,
        final(framebuffer).height == old(framebuffer).height,
        rejected(*v0, *v1, *v2) ==> final(framebuffer).buffer@ == old(framebuffer).buffer@
            && final(framebuffer).depths() == old(framebuffer).depths(),
        forall|i: int|
            0 <= i < old(framebuffer).depths().len() ==> #[trigger] final(framebuffer).depths()[i]
                == depth_through(
                *v0,
                *v1,
                *v2,
                old(framebuffer).width as int,
                old(framebuffer).height as int,
                i % (old(framebuffer).width as int),
                i / (old(framebuffer).width as int),
                old(framebuffer).depths()[i] as int,
            ),
        forall|i: int|
            0 <= i < old(framebuffer).buffer@.len() && !draws(
                *v0,
                *v1,
                *v2,
                old(framebuffer).width as int,
                old(framebuffer).height as int,
                i % (old(framebuffer).width as int),
                i / (old(framebuffer).width as int),
                old(framebuffer).depths()[i] as int,
            ) ==> #[trigger] final(framebuffer).buffer@[i] == old(framebuffer).buffer@[i],
{
    if v0.position.w <= 0 || v1.position.w <= 0 || v2.position.w <= 0 {
        return ;
    }
    let p0 = &v0.position;
    let p1 = &v1.position;
    let p2 = &v2.position;
    if (p0.z > p0.w || p0.z < -p0.w) && (p1.z > p1.w || p1.z < -p1.w) && (p2.z > p2.w || p2.z
        < -p2.w) {
        return ;
    }
    let ghost w = framebuffer.width as int;
    let ghost h = framebuffer.height as int;
    let ghost old_colors = framebuffer.buffer@;
    let ghost old_depths = framebuffer.depths();
    let ghost tri = screen_tri(*v0, *v1, *v2, w, h);
    proof {
        framebuffer.lemma_wf_len();
    }
    let width = framebuffer.width;
    let height = framebuffer.height;
    let s0 = screen_point(p0, width, height);
    let s1 = screen_point(p1, width, height);
    let s2 = screen_point(p2, width, height);
    let z0 = depth_of(p0);
    let z1 = depth_of(p1);
    let z2 = depth_of(p2);
    let lo_x = floor_div(smallest(s0.0, s1.0, s2.0), SUB as i128);
    let hi_x = floor_div(largest(s0.0, s1.0, s2.0), SUB as i128);
    let lo_y = floor_div(smallest(s0.1, s1.1, s2.1), SUB as i128);
    let hi_y = floor_div(largest(s0.1, s1.1, s2.1), SUB as i128);
    let min_x: i128 = if lo_x > 0 { lo_x } else { 0 };
    let max_x: i128 = if hi_x < width as i128 - 1 { hi_x } else { width as i128 - 1 };
    let min_y: i128 = if lo_y > 0 { lo_y } else { 0 };
    let max_y: i128 = if hi_y < height as i128 - 1 { hi_y } else { height as i128 - 1 };
    assert(forall|px: int, py: int| #[trigger] in_bbox(tri, w, h, px, py) ==> min_x <= px <= max_x && min_y <= py <= max_y);
    proof {
        assert forall|px: int, py: int| #[trigger] covers(*v0, *v1, *v2, w, h, px, py) implies in_bbox(tri, w, h, px, py) by {
            lemma_covered_in_bbox(*v0, *v1, *v2, w, h, px, py);
        }
    }
    let mut y: i128 = min_y;
    while y <= max_y
        invariant
            framebuffer.wf(),
            framebuffer.width == width,
            framebuffer.height == height,
            w == width,
            h == height,
            0 <= min_y <= y,
            0 <= min_x,
            max_y < height,
            max_x < width,
            tri == screen_tri(*v0, *v1, *v2, w, h),
            !rejected(*v0, *v1, *v2),
            as_int_pair(s0) == tri.0,
            as_int_pair(s1) == tri.1,
            as_int_pair(s2) == tri.2,
            on_screen(s0),
            on_screen(s1),
            on_screen(s2),
            z0 == ndc_depth(v0.position),
            z1 == ndc_depth(v1.position),
            z2 == ndc_depth(v2.position),
            -SCREEN_LIMIT <= z0 <= SCREEN_LIMIT,
            -SCREEN_LIMIT <= z1 <= SCREEN_LIMIT,
            -SCREEN_LIMIT <= z2 <= SCREEN_LIMIT,
            v0.wf(),
            v1.wf(),
            v2.wf(),
            forall|px: int, py: int| #[trigger] in_bbox(tri, w, h, px, py) ==> min_x <= px <= max_x && min_y <= py <= max_y,
            forall|px: int, py: int| #[trigger] covers(*v0, *v1, *v2, w, h, px, py) ==> in_bbox(tri, w, h, px, py),
            lo_x == min3(tri.0.0, tri.1.0, tri.2.0) / (SUB as int),
            hi_x == max3(tri.0.0, tri.1.0, tri.2.0) / (SUB as int),
            lo_y == min3(tri.0.1, tri.1.1, tri.2.1) / (SUB as int),
            hi_y == max3(tri.0.1, tri.1.1, tri.2.1) / (SUB as int),
            lo_x <= min_x,
            max_x <= hi_x,
            lo_y <= min_y,
            max_y <= hi_y,
            old_depths.len() == w * h,
            old_colors.len() == w * h,
            forall|i: int|
                0 <= i < w * h ==> #[trigger] framebuffer.depths()[i] == depth_after(*v0, *v1, *v2, w, h, old_depths, i, min_x as int, y as int),
            forall|i: int|
                0 <= i < w * h && !drawn_before(*v0, *v1, *v2, w, h, old_depths, i, min_x as int, y as int) ==> #[trigger] framebuffer.buffer@[i] == old_colors[i],
        decreases max_y + 1 - y,
    {
        let mut x: i128 = min_x;
        while x <= max_x
            invariant
                framebuffer.wf(),
                framebuffer.width == width,
                framebuffer.height == height,
                w == width,
                h == height,
                0 <= min_y <= y <= max_y,
                0 <= min_x <= x,
                max_y < height,
                max_x < width,
                tri == screen_tri(*v0, *v1, *v2, w, h),
                !rejected(*v0, *v1, *v2),
                as_int_pair(s0) == tri.0,
                as_int_pair(s1) == tri.1,
                as_int_pair(s2) == tri.2,
                on_screen(s0),
                on_screen(s1),
                on_screen(s2),
                z0 == ndc_depth(v0.position),
                z1 == ndc_depth(v1.position),
                z2 == ndc_depth(v2.position),
                -SCREEN_LIMIT <= z0 <= SCREEN_LIMIT,
                -SCREEN_LIMIT <= z1 <= SCREEN_LIMIT,
                -SCREEN_LIMIT <= z2 <= SCREEN_LIMIT,
                v0.wf(),
                v1.wf(),
                v2.wf(),
                forall|px: int, py: int| #[trigger] in_bbox(tri, w, h, px, py) ==> min_x <= px <= max_x && min_y <= py <= max_y,
                forall|px: int, py: int| #[trigger] covers(*v0, *v1, *v2, w, h, px, py) ==> in_bbox(tri, w, h, px, py),
            forall|px: int, py: int| #[trigger] covers(*v0, *v1, *v2, w, h, px, py) ==> in_bbox(tri, w, h, px, py),
                lo_x == min3(tri.0.0, tri.1.0, tri.2.0) / (SUB as int),
                hi_x == max3(tri.0.0, tri.1.0, tri.2.0) / (SUB as int),
                lo_y == min3(tri.0.1, tri.1.1, tri.2.1) / (SUB as int),
                hi_y == max3(tri.0.1, tri.1.1, tri.2.1) / (SUB as int),
                lo_x <= min_x,
                max_x <= hi_x,
                lo_y <= min_y,
                max_y <= hi_y,
            lo_x == min3(tri.0.0, tri.1.0, tri.2.0) / (SUB as int),
            hi_x == max3(tri.0.0, tri.1.0, tri.2.0) / (SUB as int),
            lo_y == min3(tri.0.1, tri.1.1, tri.2.1) / (SUB as int),
            hi_y == max3(tri.0.1, tri.1.1, tri.2.1) / (SUB as int),
            lo_x <= min_x,
            max_x <= hi_x,
            lo_y <= min_y,
            max_y <= hi_y,
                old_depths.len() == w * h,
                old_colors.len() == w * h,
                forall|i: int|
                    0 <= i < w * h ==> #[trigger] framebuffer.depths()[i] == depth_after(*v0, *v1, *v2, w, h, old_depths, i, x as int, y as int),
                forall|i: int|
                    0 <= i < w * h && !drawn_before(*v0, *v1, *v2, w, h, old_depths, i, x as int, y as int) ==> #[trigger] framebuffer.buffer@[i] == old_colors[i],
            decreases max_x + 1 - x,
        {
            let ghost fb_before = *framebuffer;
            let center = center_of(x, y);
            let b = barycentric(center, s0, s1, s2);
            let ghost cell = y * w + x;
            proof {
                lemma_cell_index(w, h, x as int, y as int);
                lemma_cell_of_index(w, h, x as int, y as int, cell);
            }
            if b.0 >= 0 && b.1 >= 0 && b.2 >= 0 {
                let depth = interpolate(b, z0, z1, z2);
                let fragment = make_fragment(b, v0, v1, v2, x as usize, y as usize, depth as i64);
                let color = shader.shade(&fragment);
                framebuffer.set_pixel(x as usize, y as usize, color, depth as i64);
            }
            proof {
                assert(in_bbox(tri, w, h, x as int, y as int));
                assert forall|i: int| 0 <= i < w * h implies #[trigger] framebuffer.depths()[i]
                    == depth_after(*v0, *v1, *v2, w, h, old_depths, i, x + 1, y as int) by {
                    lemma_cell_of_index(w, h, x as int, y as int, i);
                    assert(fb_before.depths()[i] == depth_after(*v0, *v1, *v2, w, h, old_depths, i, x as int, y as int));
                    if i == cell {
                        assert(fb_before.depths()[i] == old_depths[i]);
                    }
                }
                assert forall|i: int| 0 <= i < w * h && !drawn_before(*v0, *v1, *v2, w, h, old_depths, i, x + 1, y as int)
                    implies #[trigger] framebuffer.buffer@[i] == old_colors[i] by {
                    lemma_cell_of_index(w, h, x as int, y as int, i);
                    if i == cell {
                        assert(fb_before.depths()[i] == old_depths[i]);
                        assert(fb_before.buffer@[i] == old_colors[i]);
                    } else {
                        assert(!drawn_before(*v0, *v1, *v2, w, h, old_depths, i, x as int, y as int));
                        assert(fb_before.buffer@[i] == old_colors[i]);
                    }
                }
            }
            x = x + 1;
        }
        y = y + 1;
    }
}

} // verus!

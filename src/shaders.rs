//! The colour stage: intensity from the shading terms, a four-band
//! temperature ramp, and an over-bright glow near peak intensity.
use vstd::prelude::*;
use crate::arith::{floor_div, int_sqrt, isqrt, lemma_int_sqrt_bounds};

verus! {

/// Fixed-point scale of intensities and shading terms: `UNIT` stands for 1.0.
pub const UNIT: i64 = 1000;

/// Intensities are clamped to `[0, CEILING]`; above `UNIT` they are over-bright.
pub const CEILING: i64 = 1200;

/// Largest magnitude of a shading term the colour stage accepts.
pub const TERM_LIMIT: i64 = 1000000;

pub const EMBER: u32 = 0x662200;
pub const ORANGE: u32 = 0xFF4400;
pub const YELLOW: u32 = 0xFFCC00;
pub const PALE_YELLOW: u32 = 0xFFFF66;
pub const WHITE: u32 = 0xFFFFFF;

/// The scalar terms one fragment is shaded from, each in units of `1 / UNIT`:
/// a noise sample in about `[-1, 1]`, the global pulse, the travelling flare,
/// the rotating spots and the energy spike.
#[derive(Clone, Copy, Debug, PartialEq, Eq, Structural)]
pub struct ShadeTerms {
    pub noise: i64,
    pub pulse: i64,
    pub flare: i64,
    pub spots: i64,
    pub spike: i64,
}

impl ShadeTerms {
    pub open spec fn wf(&self) -> bool {
        &&& -TERM_LIMIT <= self.noise <= TERM_LIMIT
        &&& -TERM_LIMIT <= self.pulse <= TERM_LIMIT
        &&& -TERM_LIMIT <= self.flare <= TERM_LIMIT
        &&& -TERM_LIMIT <= self.spots <= TERM_LIMIT
        &&& -TERM_LIMIT <= self.spike <= TERM_LIMIT
    }
}

pub open spec fn red(c: u32) -> int {
    (c / 0x10000) as int % 256
}

pub open spec fn green(c: u32) -> int {
    (c / 0x100) as int % 256
}

pub open spec fn blue(c: u32) -> int {
    c as int % 256
}

/// Packs three channels in `[0, 255]` as `0xRRGGBB`.
pub open spec fn pack(r: int, g: int, b: int) -> u32 {
    (r * 0x10000 + g * 0x100 + b) as u32
}

/// `a + (b - a) * tn / td`, rounded down.
pub open spec fn lerp_channel(a: int, b: int, tn: int, td: int) -> int {
    a + ((b - a) * tn) / td
}

/// The colour a fraction `tn / td` of the way from `c1` to `c2`, channel by channel.
pub open spec fn lerp_rgb(c1: u32, c2: u32, tn: int, td: int) -> u32 {
    pack(
        lerp_channel(red(c1), red(c2), tn, td),
        lerp_channel(green(c1), green(c2), tn, td),
        lerp_channel(blue(c1), blue(c2), tn, td),
    )
}

/// The intensity before clamping: `(noise + 1) / 2 * pulse + flare + spike + spots`.
pub open spec fn raw_intensity(t: ShadeTerms) -> int {
    ((t.noise + UNIT) * t.pulse) / (2 * UNIT as int) + t.flare + t.spike + t.spots
}

/// The intensity clamped to `[0, CEILING]`.
pub open spec fn intensity(t: ShadeTerms) -> int {
    let v = raw_intensity(t);
    if v < 0 {
        0
    } else if v > CEILING {
        CEILING as int
    } else {
        v
    }
}

/// The colour formula of band `k` at intensity `i`: band 0 spans `[0, 0.3)`
/// ember to orange, band 1 `[0.3, 0.7)` orange to yellow, band 2 `[0.7, 1.0)`
/// yellow to pale yellow, band 3 from 1.0 pale yellow to white.
pub open spec fn band_formula(k: int, i: int) -> u32 {
    if k == 0 {
        lerp_rgb(EMBER, ORANGE, i, 300)
    } else if k == 1 {
        lerp_rgb(ORANGE, YELLOW, i - 300, 400)
    } else if k == 2 {
        lerp_rgb(YELLOW, PALE_YELLOW, i - 700, 300)
    } else {
        lerp_rgb(PALE_YELLOW, WHITE, if i - 1000 < 300 { i - 1000 } else { 300 }, 300)
    }
}

/// The band that intensity `i` falls in.
pub open spec fn band_of(i: int) -> int {
    if i < 300 {
        0
    } else if i < 700 {
        1
    } else if i < 1000 {
        2
    } else {
        3
    }
}

/// The temperature colour of intensity `i`.
pub open spec fn band_color(i: int) -> u32 {
    band_formula(band_of(i), i)
}

/// The glow strength `0.4 * ((i - 0.75) / 0.25)^1.5` in units of `1 / UNIT`.
pub open spec fn glow_amount(i: int) -> int {
    let x = (i - 750) * 4;
    ((x * int_sqrt((x * 1000) as nat)) / 1000) * 4 / 10
}

/// A channel pushed toward 255 by `amount / UNIT` of full scale, clamped at 255.
pub open spec fn brighten_channel(c: int, amount: int) -> int {
    let v = c + (255 * amount) / 1000;
    if v > 255 {
        255
    } else {
        v
    }
}

pub open spec fn brighten_rgb(c: u32, amount: int) -> u32 {
    pack(
        brighten_channel(red(c), amount),
        brighten_channel(green(c), amount),
        brighten_channel(blue(c), amount),
    )
}

/// The colour of a fragment with shading terms `t`: the temperature colour of
/// its intensity, brightened by the glow above 0.75.
pub open spec fn shade_color(t: ShadeTerms) -> u32 {
    let i = intensity(t);
    if i > 750 {
        brighten_rgb(band_color(i), glow_amount(i))
    } else {
        band_color(i)
    }
}

proof fn lemma_lerp_ends(a: int, b: int, td: int)
    requires
        td > 0,
    ensures
        lerp_channel(a, b, 0, td) == a,
        lerp_channel(a, b, td, td) == b,
{
    vstd::arithmetic::div_mod::lemma_div_multiples_vanish(b - a, td);
    assert((b - a) * td == td * (b - a)) by (nonlinear_arith);
}

/// Channel `n` of `c`: 0 red, 1 green, 2 blue.
pub open spec fn channel(c: u32, n: int) -> int {
    if n == 0 {
        red(c)
    } else if n == 1 {
        green(c)
    } else {
        blue(c)
    }
}

/// The colour at the start of band `k`, and at the end of band `k - 1`.
pub open spec fn anchor(k: int) -> u32 {
    if k == 0 {
        EMBER
    } else if k == 1 {
        ORANGE
    } else if k == 2 {
        YELLOW
    } else if k == 3 {
        PALE_YELLOW
    } else {
        WHITE
    }
}

pub open spec fn band_start(k: int) -> int {
    if k == 0 {
        0
    } else if k == 1 {
        300
    } else if k == 2 {
        700
    } else {
        1000
    }
}

pub open spec fn band_width(k: int) -> int {
    if k == 1 {
        400
    } else {
        300
    }
}

/// How far into band `k` intensity `i` lies, capped at the band's width.
pub open spec fn band_step(k: int, i: int) -> int {
    if i - band_start(k) < band_width(k) {
        i - band_start(k)
    } else {
        band_width(k)
    }
}

proof fn lemma_unpack(r: int, g: int, b: int)
    requires
        0 <= r <= 255,
        0 <= g <= 255,
        0 <= b <= 255,
    ensures
        red(pack(r, g, b)) == r,
        green(pack(r, g, b)) == g,
        blue(pack(r, g, b)) == b,
{
    let v = r * 0x10000 + g * 0x100 + b;
    assert(0 <= v < 0x1000000);
    vstd::arithmetic::div_mod::lemma_fundamental_div_mod_converse(v, 0x10000, r, g * 0x100 + b);
    vstd::arithmetic::div_mod::lemma_fundamental_div_mod_converse(v, 0x100, r * 0x100 + g, b);
    vstd::arithmetic::div_mod::lemma_fundamental_div_mod_converse(r * 0x100 + g, 0x100, r, g);
    vstd::arithmetic::div_mod::lemma_small_mod(r as nat, 256);
}

/// A channel lerp stays between its ends and grows with the step when `a <= b`.
proof fn lemma_lerp_ordered(a: int, b: int, t1: int, t2: int, td: int)
    requires
        0 <= a <= b,
        0 <= t1 <= t2 <= td,
        td > 0,
    ensures
        a <= lerp_channel(a, b, t1, td) <= lerp_channel(a, b, t2, td) <= b,
{
    lemma_lerp_ends(a, b, td);
    assert((b - a) * t1 <= (b - a) * t2 <= (b - a) * td) by (nonlinear_arith)
        requires
            0 <= a <= b,
            0 <= t1 <= t2 <= td,
    ;
    assert(0 <= (b - a) * t1) by (nonlinear_arith)
        requires
            0 <= a <= b,
            0 <= t1,
    ;
    vstd::arithmetic::div_mod::lemma_div_is_ordered((b - a) * t1, (b - a) * t2, td);
    vstd::arithmetic::div_mod::lemma_div_is_ordered((b - a) * t2, (b - a) * td, td);
    vstd::arithmetic::div_mod::lemma_div_is_ordered(0, (b - a) * t1, td);
}

/// Band `k` is the lerp from `anchor(k)` to `anchor(k + 1)` over its width.
proof fn lemma_band_shape(k: int, i: int)
    requires
        0 <= k <= 3,
        band_start(k) <= i,
        k == 3 || i <= band_start(k) + band_width(k),
    ensures
        band_formula(k, i) == lerp_rgb(anchor(k), anchor(k + 1), band_step(k, i), band_width(k)),
        0 <= band_step(k, i) <= band_width(k),
{
}

/// The channels of the anchors never decrease from one anchor to the next.
proof fn lemma_anchors_ordered(k1: int, k2: int, n: int)
    requires
        0 <= k1 <= k2 <= 4,
        0 <= n <= 2,
    ensures
        0 <= channel(anchor(k1), n) <= channel(anchor(k2), n) <= 255,
{
    assert(red(EMBER) == 0x66 && green(EMBER) == 0x22 && blue(EMBER) == 0);
    assert(red(ORANGE) == 0xFF && green(ORANGE) == 0x44 && blue(ORANGE) == 0);
    assert(red(YELLOW) == 0xFF && green(YELLOW) == 0xCC && blue(YELLOW) == 0);
    assert(red(PALE_YELLOW) == 0xFF && green(PALE_YELLOW) == 0xFF && blue(PALE_YELLOW) == 0x66);
    assert(red(WHITE) == 0xFF && green(WHITE) == 0xFF && blue(WHITE) == 0xFF);
}

/// Within band `k`, each channel runs from the band's first anchor to its
/// second and does not decrease.
proof fn lemma_band_channel(k: int, i: int, j: int, n: int)
    requires
        0 <= k <= 3,
        band_start(k) <= i <= j,
        k == 3 || j <= band_start(k) + band_width(k),
        0 <= n <= 2,
    ensures
        channel(anchor(k), n) <= channel(band_formula(k, i), n) <= channel(band_formula(k, j), n)
            <= channel(anchor(k + 1), n),
{
    lemma_band_shape(k, i);
    lemma_band_shape(k, j);
    let c1 = anchor(k);
    let c2 = anchor(k + 1);
    let w = band_width(k);
    let ti = band_step(k, i);
    let tj = band_step(k, j);
    lemma_anchors_ordered(k, k + 1, 0);
    lemma_anchors_ordered(k, k + 1, 1);
    lemma_anchors_ordered(k, k + 1, 2);
    lemma_lerp_ordered(red(c1), red(c2), ti, tj, w);
    lemma_lerp_ordered(green(c1), green(c2), ti, tj, w);
    lemma_lerp_ordered(blue(c1), blue(c2), ti, tj, w);
    lemma_unpack(
        lerp_channel(red(c1), red(c2), ti, w),
        lerp_channel(green(c1), green(c2), ti, w),
        lerp_channel(blue(c1), blue(c2), ti, w),
    );
    lemma_unpack(
        lerp_channel(red(c1), red(c2), tj, w),
        lerp_channel(green(c1), green(c2), tj, w),
        lerp_channel(blue(c1), blue(c2), tj, w),
    );
}

/// The colour ramp never darkens: for intensities `i <= j` in `[0, CEILING]`,
/// every channel of the colour at `i` is at most that of the colour at `j`.
pub proof fn lemma_ramp_monotonic(i: int, j: int)
    requires
        0 <= i <= j <= CEILING,
    ensures
        red(band_color(i)) <= red(band_color(j)),
        green(band_color(i)) <= green(band_color(j)),
        blue(band_color(i)) <= blue(band_color(j)),
{
    let ki = band_of(i);
    let kj = band_of(j);
    assert forall|n: int| 0 <= n <= 2 implies channel(band_color(i), n) <= channel(band_color(j), n) by {
        if ki == kj {
            lemma_band_channel(ki, i, j, n);
        } else {
            lemma_band_channel(ki, i, i, n);
            lemma_band_channel(kj, j, j, n);
            lemma_anchors_ordered(ki + 1, kj, n);
        }
    }
    assert(channel(band_color(i), 0) <= channel(band_color(j), 0));
    assert(channel(band_color(i), 1) <= channel(band_color(j), 1));
    assert(channel(band_color(i), 2) <= channel(band_color(j), 2));
}

/// The colour ramp is continuous: at each band boundary (0.3, 0.7 and 1.0)
/// the formula of the band below and the formula of the band above give the
/// same colour.
pub proof fn lemma_bands_meet()
    ensures
        band_formula(0, 300) == band_formula(1, 300),
        band_formula(1, 700) == band_formula(2, 700),
        band_formula(2, 1000) == band_formula(3, 1000),
        band_formula(0, 300) == ORANGE,
        band_formula(1, 700) == YELLOW,
        band_formula(2, 1000) == PALE_YELLOW,
{
    lemma_lerp_ends(red(EMBER), red(ORANGE), 300);
    lemma_lerp_ends(green(EMBER), green(ORANGE), 300);
    lemma_lerp_ends(blue(EMBER), blue(ORANGE), 300);
    lemma_lerp_ends(red(ORANGE), red(YELLOW), 400);
    lemma_lerp_ends(green(ORANGE), green(YELLOW), 400);
    lemma_lerp_ends(blue(ORANGE), blue(YELLOW), 400);
    lemma_lerp_ends(red(YELLOW), red(PALE_YELLOW), 300);
    lemma_lerp_ends(green(YELLOW), green(PALE_YELLOW), 300);
    lemma_lerp_ends(blue(YELLOW), blue(PALE_YELLOW), 300);
    lemma_lerp_ends(red(PALE_YELLOW), red(WHITE), 300);
    lemma_lerp_ends(green(PALE_YELLOW), green(WHITE), 300);
    lemma_lerp_ends(blue(PALE_YELLOW), blue(WHITE), 300);
}

fn red_of(c: u32) -> (r: i64)
    ensures
        r == red(c),
        0 <= r <= 255,
{
    (c / 0x10000 % 256) as i64
}

fn green_of(c: u32) -> (r: i64)
    ensures
        r == green(c),
        0 <= r <= 255,
{
    (c / 0x100 % 256) as i64
}

fn blue_of(c: u32) -> (r: i64)
    ensures
        r == blue(c),
        0 <= r <= 255,
{
    (c % 256) as i64
}

fn pack_rgb(r: i64, g: i64, b: i64) -> (c: u32)
    requires
        0 <= r <= 255,
        0 <= g <= 255,
        0 <= b <= 255,
    ensures
        c == pack(r as int, g as int, b as int),
{
    (r * 0x10000 + g * 0x100 + b) as u32
}

/// A channel a fraction `tn / td` of the way from `a` to `b`.
fn lerp_channel_of(a: i64, b: i64, tn: i64, td: i64) -> (r: i64)
    requires
        0 <= a <= 255,
        0 <= b <= 255,
        0 <= tn <= td,
        0 < td <= 1000,
    ensures
        r == lerp_channel(a as int, b as int, tn as int, td as int),
        0 <= r <= 255,
{
    proof {
        assert(-255000 <= (b - a) * tn <= 255000) by (nonlinear_arith)
            requires
                -255 <= b - a <= 255,
                0 <= tn <= 1000,
        ;
    }
    let num = ((b - a) * tn) as i128;
    let q = floor_div(num, td as i128);
    proof {
        let d = (b - a) as int;
        let m = (num as int) % (td as int);
        vstd::arithmetic::div_mod::lemma_fundamental_div_mod(num as int, td as int);
        assert(d >= 0 ==> 0 <= q <= d) by (nonlinear_arith)
            requires
                num == d * tn,
                num == td * q + m,
                0 <= m < td,
                0 <= tn <= td,
        ;
        assert(d < 0 ==> d <= q <= 0) by (nonlinear_arith)
            requires
                num == d * tn,
                num == td * q + m,
                0 <= m < td,
                0 <= tn <= td,
        ;
    }
    a + q as i64
}

/// The colour a fraction `tn / td` of the way from `c1` to `c2`.
pub fn lerp_color(c1: u32, c2: u32, tn: i64, td: i64) -> (r: u32)
    requires
        0 <= tn <= td,
        0 < td <= 1000,
    ensures
        r == lerp_rgb(c1, c2, tn as int, td as int),
{
    let r = lerp_channel_of(red_of(c1), red_of(c2), tn, td);
    let g = lerp_channel_of(green_of(c1), green_of(c2), tn, td);
    let b = lerp_channel_of(blue_of(c1), blue_of(c2), tn, td);
    pack_rgb(r, g, b)
}

fn brighten_channel_of(c: i64, amount: i64) -> (r: i64)
    requires
        0 <= c <= 255,
        0 <= amount <= 10000,
    ensures
        r == brighten_channel(c as int, amount as int),
        0 <= r <= 255,
{
    let v = c + 255 * amount / 1000;
    if v > 255 {
        255
    } else {
        v
    }
}

/// Pushes each channel of `c` toward 255 by `amount / UNIT` of full scale.
pub fn brighten_color(c: u32, amount: i64) -> (r: u32)
    requires
        0 <= amount <= 10000,
    ensures
        r == brighten_rgb(c, amount as int),
{
    let r = brighten_channel_of(red_of(c), amount);
    let g = brighten_channel_of(green_of(c), amount);
    let b = brighten_channel_of(blue_of(c), amount);
    pack_rgb(r, g, b)
}

/// The temperature colour of an intensity in `[0, CEILING]`.
pub fn temperature_color(i: i64) -> (r: u32)
    requires
        0 <= i <= CEILING,
    ensures
        r == band_color(i as int),
{
    if i < 300 {
        lerp_color(EMBER, ORANGE, i, 300)
    } else if i < 700 {
        lerp_color(ORANGE, YELLOW, i - 300, 400)
    } else if i < 1000 {
        lerp_color(YELLOW, PALE_YELLOW, i - 700, 300)
    } else {
        let t: i64 = if i - 1000 < 300 { i - 1000 } else { 300 };
        lerp_color(PALE_YELLOW, WHITE, t, 300)
    }
}

/// The glow strength at an intensity above 0.75.
fn glow(i: i64) -> (r: i64)
    requires
        750 < i <= CEILING,
    ensures
        r == glow_amount(i as int),
        0 <= r <= 10000,
{
    let x: i64 = (i - 750) * 4;
    let root = isqrt((x * 1000) as u64);
    proof {
        lemma_int_sqrt_bounds((x * 1000) as nat);
        assert(root <= 2000) by (nonlinear_arith)
            requires
                root * root <= x * 1000,
                x * 1000 <= 1800000,
        ;
        assert(0 <= x * root <= 1800 * 2000) by (nonlinear_arith)
            requires
                0 <= x <= 1800,
                0 <= root <= 2000,
        ;
    }
    (x * root as i64) / 1000 * 4 / 10
}

/// The intensity of a fragment with shading terms `t`, in `[0, CEILING]`.
pub fn intensity_of(t: &ShadeTerms) -> (r: i64)
    requires
        t.wf(),
    ensures
        r == intensity(*t),
        0 <= r <= CEILING,
{
    proof {
        assert(-2000000000000 <= (t.noise + UNIT) * t.pulse <= 2000000000000) by (nonlinear_arith)
            requires
                -TERM_LIMIT <= t.noise <= TERM_LIMIT,
                -TERM_LIMIT <= t.pulse <= TERM_LIMIT,
        ;
    }
    proof {
        crate::arith::lemma_div_shrinks((t.noise + UNIT) * t.pulse, 2 * UNIT as int, 2000000000000);
    }
    let base = floor_div(((t.noise + UNIT) * t.pulse) as i128, 2 * UNIT as i128) as i64;
    let v: i64 = base + t.flare + t.spike + t.spots;
    if v < 0 {
        0
    } else if v > CEILING {
        CEILING
    } else {
        v
    }
}

/// The colour of a fragment with shading terms `t`: the temperature colour of
/// its intensity, brightened by the glow when the intensity exceeds 0.75.
pub fn fragment_shader(t: &ShadeTerms) -> (r: u32)
    requires
        t.wf(),
    ensures
        r == shade_color(*t),
{
    let i = intensity_of(t);
    let color = temperature_color(i);
    if i > 750 {
        brighten_color(color, glow(i))
    } else {
        color
    }
}

} // verus!

use vstd::prelude::*;

verus! {

/// An RGBA color with one byte per channel.
#[derive(Clone, Copy, PartialEq, Eq, Debug, Structural)]
pub struct Color {
    pub r: u8,
    pub g: u8,
    pub b: u8,
    pub a: u8,
}

impl Color {
    pub open spec fn black_spec() -> Color {
        Color { r: 0, g: 0, b: 0, a: 255 }
    }

    /// Opaque black, the color of a freshly cleared frame.
    #[verifier::when_used_as_spec(black_spec)]
    pub fn black() -> (c: Color)
        ensures
            c == Self::black_spec(),
    {
        Color { r: 0, g: 0, b: 0, a: 255 }
    }
}

/// The position `index / total` used for blending, as an integer numerator
/// clamped to `[0, total]`.
pub open spec fn clamped_index(index: u32, total: u32) -> int {
    if index >= total {
        total as int
    } else {
        index as int
    }
}

/// One channel blended from `a` toward `b` at `index / total`, rounded to the
/// nearest integer; a zero `total` gives `a`.
pub open spec fn lerp_channel(a: u8, b: u8, index: u32, total: u32) -> int {
    if total == 0 {
        a as int
    } else {
        let n = total as int;
        let i = clamped_index(index, total);
        (a as int * (n - i) + b as int * i + n / 2) / n
    }
}

/// The color blended from `a` toward `b` at `index / total`, channel by channel.
pub open spec fn lerp_spec(a: Color, b: Color, index: u32, total: u32) -> Color {
    Color {
        r: lerp_channel(a.r, b.r, index, total) as u8,
        g: lerp_channel(a.g, b.g, index, total) as u8,
        b: lerp_channel(a.b, b.b, index, total) as u8,
        a: lerp_channel(a.a, b.a, index, total) as u8,
    }
}

proof fn lemma_lerp_channel_bounds(a: u8, b: u8, index: u32, total: u32)
    ensures
        0 <= lerp_channel(a, b, index, total) <= 255,
{
    if total != 0 {
        let n = total as int;
        let i = clamped_index(index, total);
        let num = a as int * (n - i) + b as int * i + n / 2;
        assert(0 <= num < 256 * n) by (nonlinear_arith)
            requires
                num == a as int * (n - i) + b as int * i + n / 2,
                0 <= i <= n,
                n > 0,
                0 <= a <= 255,
                0 <= b <= 255,
        ;
        assert(0 <= num / n < 256) by (nonlinear_arith)
            requires
                0 <= num < 256 * n,
                n > 0,
        ;
    }
}

fn lerp_byte(a: u8, b: u8, index: u32, total: u32) -> (r: u8)
    ensures
        r as int == lerp_channel(a, b, index, total),
{
    proof {
        lemma_lerp_channel_bounds(a, b, index, total);
    }
    if total == 0 {
        return a;
    }
    let i: u32 = if index >= total { total } else { index };
    let n = total as u64;
    assert(a as u64 * (n - i as u64) <= 255 * 0x1_0000_0000) by (nonlinear_arith)
        requires
            i <= n,
            n < 0x1_0000_0000,
            a <= 255,
    ;
    assert(b as u64 * i as u64 <= 255 * 0x1_0000_0000) by (nonlinear_arith)
        requires
            i < 0x1_0000_0000,
            b <= 255,
    ;
    let lo = a as u64 * (n - i as u64);
    let hi = b as u64 * i as u64;
    assert(lo <= 255 * n && hi <= 255 * n) by (nonlinear_arith)
        requires
            lo == a as int * (n - i),
            hi == b as int * i,
            i <= n,
            a <= 255,
            b <= 255,
    ;
    let q = (lo + hi + n / 2) / n;
    q as u8
}

/// Blends `a` toward `b` at the position `index / total`; each channel is
/// rounded to the nearest byte. A zero `total` (a degenerate span) gives `a`,
/// and an `index` past `total` counts as `total`.
pub fn lerp(a: Color, b: Color, index: u32, total: u32) -> (r: Color)
    ensures
        r == lerp_spec(a, b, index, total),
{
    Color {
        r: lerp_byte(a.r, b.r, index, total),
        g: lerp_byte(a.g, b.g, index, total),
        b: lerp_byte(a.b, b.b, index, total),
        a: lerp_byte(a.a, b.a, index, total),
    }
}

/// Blending a color with itself gives that color, at every position.
pub proof fn lemma_lerp_same_color(c: Color, index: u32, total: u32)
    ensures
        lerp_spec(c, c, index, total) == c,
{
    lemma_lerp_channel_same(c.r, index, total);
    lemma_lerp_channel_same(c.g, index, total);
    lemma_lerp_channel_same(c.b, index, total);
    lemma_lerp_channel_same(c.a, index, total);
}

proof fn lemma_lerp_channel_same(v: u8, index: u32, total: u32)
    ensures
        lerp_channel(v, v, index, total) == v as int,
{
    if total != 0 {
        let n = total as int;
        let i = clamped_index(index, total);
        assert(v as int * (n - i) + v as int * i == v as int * n) by (nonlinear_arith);
        assert((v as int * n + n / 2) / n == v as int) by (nonlinear_arith)
            requires
                n > 0,
                0 <= v,
        ;
    }
}

/// Blending is exact at both ends: position `0` gives the first color and
/// position `total` the second, for every nonzero `total`.
pub proof fn lemma_lerp_endpoints(a: Color, b: Color, total: u32)
    requires
        total > 0,
    ensures
        lerp_spec(a, b, 0, total) == a,
        lerp_spec(a, b, total, total) == b,
{
    lemma_lerp_channel_endpoints(a.r, b.r, total);
    lemma_lerp_channel_endpoints(a.g, b.g, total);
    lemma_lerp_channel_endpoints(a.b, b.b, total);
    lemma_lerp_channel_endpoints(a.a, b.a, total);
}

proof fn lemma_lerp_channel_endpoints(a: u8, b: u8, total: u32)
    requires
        total > 0,
    ensures
        lerp_channel(a, b, 0, total) == a as int,
        lerp_channel(a, b, total, total) == b as int,
{
    let n = total as int;
    assert(a as int * (n - 0) + b as int * 0 == a as int * n) by (nonlinear_arith);
    assert(a as int * (n - n) + b as int * n == b as int * n) by (nonlinear_arith);
    assert((a as int * n + n / 2) / n == a as int) by (nonlinear_arith)
        requires
            n > 0,
            0 <= a,
    ;
    assert((b as int * n + n / 2) / n == b as int) by (nonlinear_arith)
        requires
            n > 0,
            0 <= b,
    ;
}

} // verus!

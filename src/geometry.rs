use vstd::prelude::*;
use crate::color::Color;

verus! {

/// Largest magnitude of a pixel coordinate that the line tracer accepts; it
/// keeps the tracer's `i32` error terms far from overflow.
pub const COORD_LIMIT: i32 = 16777216;

/// The value of a normalized coordinate that stands for `1.0`.
pub const NORM_ONE: u16 = 65535;

/// Where a vertex lies: either at a pixel, or at a fraction of the framebuffer's
/// size given in units of `1 / NORM_ONE` (so `[0, NORM_ONE]` covers `[0, 1]`).
#[derive(Clone, Copy, PartialEq, Eq, Debug, Structural)]
pub enum Position {
    Pixel { x: i32, y: i32 },
    Normalized { fx: u16, fy: u16 },
}

/// A corner of a primitive: its position and its color.
#[derive(Clone, Copy, PartialEq, Eq, Debug, Structural)]
pub struct Vertex {
    pub pos: Position,
    pub color: Color,
}

/// The pixel a position maps to on a `width` x `height` framebuffer: pixel
/// positions map to themselves, normalized ones are scaled and truncated.
pub open spec fn to_pixel_spec(pos: Position, width: u32, height: u32) -> (int, int) {
    match pos {
        Position::Pixel { x, y } => (x as int, y as int),
        Position::Normalized { fx, fy } => (
            (fx as int * width as int) / (NORM_ONE as int),
            (fy as int * height as int) / (NORM_ONE as int),
        ),
    }
}

/// Maps a vertex position to pixel coordinates, truncating toward zero.
pub fn to_pixel(pos: Position, width: u32, height: u32) -> (r: (i64, i64))
    ensures
        r.0 as int == to_pixel_spec(pos, width, height).0,
        r.1 as int == to_pixel_spec(pos, width, height).1,
{
    match pos {
        Position::Pixel { x, y } => (x as i64, y as i64),
        Position::Normalized { fx, fy } => {
            assert(fx as int * width as int <= 0xffff * 0xffff_ffff) by (nonlinear_arith)
                requires
                    fx <= 0xffff,
                    width <= 0xffff_ffff,
            ;
            assert(fy as int * height as int <= 0xffff * 0xffff_ffff) by (nonlinear_arith)
                requires
                    fy <= 0xffff,
                    height <= 0xffff_ffff,
            ;
            let sx = fx as u64 * width as u64;
            let sy = fy as u64 * height as u64;
            ((sx / NORM_ONE as u64) as i64, (sy / NORM_ONE as u64) as i64)
        },
    }
}

pub open spec fn coord_in_limit(v: int) -> bool {
    -(COORD_LIMIT as int) <= v <= COORD_LIMIT as int
}

/// Both coordinates lie within the tracer's limit.
pub open spec fn in_limit(p: (int, int)) -> bool {
    coord_in_limit(p.0) && coord_in_limit(p.1)
}

pub open spec fn point_int(p: (i32, i32)) -> (int, int) {
    (p.0 as int, p.1 as int)
}

pub open spec fn abs(v: int) -> int {
    if v < 0 {
        -v
    } else {
        v
    }
}

pub open spec fn max(a: int, b: int) -> int {
    if a < b {
        b
    } else {
        a
    }
}

/// `v` lies on the closed interval between `a` and `b`, in either order.
pub open spec fn between(v: int, a: int, b: int) -> bool {
    (a <= v <= b) || (b <= v <= a)
}

/// `s` is a digital line from `p0` to `p1`: it starts at `p0` and ends at
/// `p1`, holds one point per step along the longer axis, stays inside the box
/// spanned by the two ends, and consecutive points differ by at most one on
/// each axis.
pub open spec fn is_digital_line(s: Seq<(i32, i32)>, p0: (i32, i32), p1: (i32, i32)) -> bool {
    &&& s.len() == max(abs(p1.0 - p0.0), abs(p1.1 - p0.1)) + 1
    &&& s[0] == p0
    &&& s.last() == p1
    &&& forall|k: int|
        0 <= k < s.len() ==> between(#[trigger] s[k].0 as int, p0.0 as int, p1.0 as int)
            && between(s[k].1 as int, p0.1 as int, p1.1 as int)
    &&& forall|k: int|
        0 <= k < s.len() - 1 ==> abs(#[trigger] s[k + 1].0 - s[k].0) <= 1 && abs(
            s[k + 1].1 - s[k].1,
        ) <= 1
}

/// The points that Bresenham's algorithm, as line_drawing implements it,
/// yields from `p0` to `p1`.
pub uninterp spec fn line_of(p0: (i32, i32), p1: (i32, i32)) -> Seq<(i32, i32)>;

/// Relies on `line_drawing::Bresenham`: it yields the points from `p0` to
/// `p1`, both included, stepping one unit along the longer axis each time and
/// at most one unit along the other, without leaving the box of the two ends.
/// Coordinates within `COORD_LIMIT` keep its `i32` arithmetic from overflowing.
#[verifier::external_body]
fn bresenham(p0: (i32, i32), p1: (i32, i32)) -> (r: Vec<(i32, i32)>)
    requires
        in_limit(point_int(p0)),
        in_limit(point_int(p1)),
    ensures
        r@ == line_of(p0, p1),
        is_digital_line(r@, p0, p1),
{
    line_drawing::Bresenham::new(p0, p1).collect()
}

/// Traces the digital line from `p0` to `p1`: the same arguments always give
/// the same points, both ends are included, and consecutive points are
/// neighbours (they differ by at most one on each axis).
pub fn trace(p0: (i32, i32), p1: (i32, i32)) -> (r: Vec<(i32, i32)>)
    requires
        in_limit(point_int(p0)),
        in_limit(point_int(p1)),
    ensures
        r@ == line_of(p0, p1),
        is_digital_line(r@, p0, p1),
        r@.contains(p0),
        r@.contains(p1),
{
    let r = bresenham(p0, p1);
    assert(r@[0] == p0);
    assert(r@[r@.len() - 1] == p1);
    r
}

} // verus!

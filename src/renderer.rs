use vstd::prelude::*;
use crate::color::Color;
use crate::geometry::{in_limit, point_int, to_pixel, to_pixel_spec, Vertex};
use crate::raster::{
    edge_spec, lemma_triangle_rows, line_pixels, max3, min3, triangle_pixels, triangle_spec, Pixel,
};

verus! {

/// What a framebuffer write can refuse.
#[derive(Clone, Copy, PartialEq, Eq, Debug, Structural)]
pub enum RasterError {
    /// The pixel lies outside the framebuffer.
    OutOfBounds,
}

/// The abstract state of a renderer: its size, its back buffer (row by row,
/// `width * height` colors) and whether a frame is being built.
pub struct RendererView {
    pub width: nat,
    pub height: nat,
    pub buffer: Seq<Color>,
    pub in_progress: bool,
}

impl RendererView {
    /// The back buffer holds exactly one color per pixel, and its bytes fit
    /// in memory.
    pub open spec fn wf(self) -> bool {
        &&& self.width <= u32::MAX
        &&& self.height <= u32::MAX
        &&& self.width * self.height * 4 <= usize::MAX
        &&& self.buffer.len() == self.width * self.height
    }

    pub open spec fn with_buffer(self, buffer: Seq<Color>) -> RendererView {
        RendererView { buffer, ..self }
    }
}

/// A buffer of `len` opaque black pixels.
pub open spec fn cleared(len: nat) -> Seq<Color> {
    Seq::new(len, |i: int| Color::black_spec())
}

/// Channel `k` (red, green, blue, alpha) of a color.
pub open spec fn channel(c: Color, k: int) -> u8 {
    if k == 0 {
        c.r
    } else if k == 1 {
        c.g
    } else if k == 2 {
        c.b
    } else {
        c.a
    }
}

/// The RGBA bytes of a buffer, four per pixel.
pub open spec fn frame_bytes(buf: Seq<Color>) -> Seq<u8> {
    Seq::new(buf.len() * 4, |j: int| channel(buf[j / 4], j % 4))
}

/// Starting a frame clears the back buffer to opaque black, unless a frame is
/// already being built.
pub open spec fn begin_spec(v: RendererView) -> RendererView {
    if v.in_progress {
        v
    } else {
        RendererView { buffer: cleared(v.width * v.height), in_progress: true, ..v }
    }
}

/// Presenting hands out the back buffer's bytes and ends the frame; with no
/// frame in progress nothing is presented and nothing changes.
pub open spec fn present_spec(v: RendererView) -> (RendererView, Option<Seq<u8>>) {
    if v.in_progress {
        (RendererView { in_progress: false, ..v }, Some(frame_bytes(v.buffer)))
    } else {
        (v, None)
    }
}

/// The buffer after writing the pixels `px` in order; pixels outside the
/// `width` x `height` grid are left out.
pub open spec fn paint(buf: Seq<Color>, width: nat, height: nat, px: Seq<Pixel>) -> Seq<Color>
    decreases px.len(),
{
    if px.len() == 0 {
        buf
    } else {
        let prev = paint(buf, width, height, px.drop_last());
        let p = px.last();
        if 0 <= p.x < width && 0 <= p.y < height {
            prev.update(p.x + p.y * width, p.color)
        } else {
            prev
        }
    }
}

/// Where a vertex lands on a `width` x `height` framebuffer.
pub open spec fn vertex_point(v: Vertex, width: u32, height: u32) -> (i32, i32) {
    let p = to_pixel_spec(v.pos, width, height);
    (p.0 as i32, p.1 as i32)
}

/// The vertex lands within the line tracer's limit.
pub open spec fn vertex_in_limit(v: Vertex, width: u32, height: u32) -> bool {
    in_limit(to_pixel_spec(v.pos, width, height))
}

/// The pixels of the triangle with corners `a`, `b`, `c`.
pub open spec fn vertex_triangle(a: Vertex, b: Vertex, c: Vertex, width: u32, height: u32) -> Seq<
    Pixel,
> {
    triangle_spec(
        vertex_point(a, width, height),
        a.color,
        vertex_point(b, width, height),
        b.color,
        vertex_point(c, width, height),
        c.color,
    )
}

/// The buffer after drawing the first `g` triangles of `vs`, triangle `t`
/// having the corners `3t`, `3t + 1` and `3t + 2`.
pub open spec fn paint_groups(buf: Seq<Color>, width: u32, height: u32, vs: Seq<Vertex>, g: nat) -> Seq<
    Color,
>
    decreases g,
{
    if g == 0 {
        buf
    } else {
        let t = 3 * (g - 1);
        paint(
            paint_groups(buf, width, height, vs, (g - 1) as nat),
            width as nat,
            height as nat,
            vertex_triangle(vs[t], vs[t + 1], vs[t + 2], width, height),
        )
    }
}

/// The buffer after drawing the vertex chain `vs`: one triangle for each run
/// of three vertices, then, where two vertices are left over, the line
/// between them.
pub open spec fn chain_spec(buf: Seq<Color>, width: u32, height: u32, vs: Seq<Vertex>) -> Seq<Color> {
    let full = paint_groups(buf, width, height, vs, vs.len() / 3);
    if vs.len() % 3 == 2 {
        let a = vs[vs.len() - 2];
        let b = vs[vs.len() - 1];
        paint(
            full,
            width as nat,
            height as nat,
            edge_spec(vertex_point(a, width, height), a.color, vertex_point(b, width, height), b.color),
        )
    } else {
        full
    }
}

/// A software renderer: a `width` x `height` back buffer of RGBA colors that
/// frames are drawn into and then presented.
pub struct Renderer {
    frame_buffer: Vec<Color>,
    width: u32,
    height: u32,
    frame_done: bool,
}

impl View for Renderer {
    type V = RendererView;

    closed spec fn view(&self) -> RendererView {
        RendererView {
            width: self.width as nat,
            height: self.height as nat,
            buffer: self.frame_buffer@,
            in_progress: !self.frame_done,
        }
    }
}

fn cleared_buffer(len: usize) -> (r: Vec<Color>)
    ensures
        r@ == cleared(len as nat),
{
    let mut buf: Vec<Color> = Vec::with_capacity(len);
    let mut i: usize = 0;
    while i < len
        invariant
            i <= len,
            buf@ =~= cleared(i as nat),
        decreases len - i,
    {
        buf.push(Color::black());
        i += 1;
    }
    buf
}

fn pixel_index(x: u32, y: u32, width: u32, height: u32) -> (r: usize)
    requires
        x < width,
        y < height,
        width as int * height as int * 4 <= usize::MAX,
    ensures
        r == x + y * width,
        r < width * height,
{
    assert(x + y * width < width * height) by (nonlinear_arith)
        requires
            x < width,
            y < height,
    ;
    x as usize + y as usize * width as usize
}

impl Renderer {
    /// A renderer for a `width` x `height` framebuffer, cleared to opaque black,
    /// with no frame in progress.
    pub fn new(width: u32, height: u32) -> (r: Renderer)
        requires
            width as int * height as int * 4 <= usize::MAX,
        ensures
            r@ == (RendererView {
                width: width as nat,
                height: height as nat,
                buffer: cleared(width as nat * height as nat),
                in_progress: false,
            }),
            r@.wf(),
    {
        let len = width as usize * height as usize;
        Renderer { frame_buffer: cleared_buffer(len), width, height, frame_done: true }
    }

    pub fn width(&self) -> (r: u32)
        ensures
            r == self@.width,
    {
        self.width
    }

    pub fn height(&self) -> (r: u32)
        ensures
            r == self@.height,
    {
        self.height
    }

    /// Whether a frame has begun and not yet been presented.
    pub fn frame_in_progress(&self) -> (r: bool)
        ensures
            r == self@.in_progress,
    {
        !self.frame_done
    }

    /// The color in the back buffer at `(x, y)`, if that pixel exists.
    pub fn pixel(&self, x: u32, y: u32) -> (r: Option<Color>)
        requires
            self@.wf(),
        ensures
            x < self@.width && y < self@.height ==> r == Some(self@.buffer[x + y * self@.width]),
            !(x < self@.width && y < self@.height) ==> r is None,
    {
        if x < self.width && y < self.height {
            Some(self.frame_buffer[pixel_index(x, y, self.width, self.height)])
        } else {
            None
        }
    }

    /// Starts a frame: clears the back buffer to opaque black. Does nothing
    /// while a frame is already in progress.
    pub fn begin_frame(&mut self)
        requires
            old(self)@.wf(),
        ensures
            final(self)@ == begin_spec(old(self)@),
            final(self)@.wf(),
    {
        if self.frame_done {
            self.frame_done = false;
            let len = self.width as usize * self.height as usize;
            self.frame_buffer = cleared_buffer(len);
        }
    }
}

/// Presenting a frame that was just begun, with nothing drawn, hands out
/// `width * height` opaque black pixels: every red, green and blue byte is 0
/// and every alpha byte 255.
pub proof fn lemma_fresh_frame_is_black(v: RendererView)
    requires
        v.wf(),
        !v.in_progress,
    ensures
        present_spec(begin_spec(v)).1 is Some,
        present_spec(begin_spec(v)).1.unwrap().len() == 4 * (v.width * v.height),
        forall|j: int|
            0 <= j < 4 * (v.width * v.height) ==> #[trigger] present_spec(begin_spec(v)).1.unwrap()[j]
                == if j % 4 == 3 {
                255u8
            } else {
                0u8
            },
{
    let bytes = present_spec(begin_spec(v)).1.unwrap();
    assert(bytes == frame_bytes(cleared(v.width * v.height)));
    assert forall|j: int| 0 <= j < 4 * (v.width * v.height) implies #[trigger] bytes[j] == if j % 4
        == 3 {
        255u8
    } else {
        0u8
    } by {
        assert(0 <= j / 4 < v.width * v.height);
    }
}

/// Presenting twice without beginning a frame in between presents nothing the
/// second time and leaves the renderer as the first present left it.
pub proof fn lemma_present_twice(v: RendererView)
    ensures
        present_spec(present_spec(v).0) == (present_spec(v).0, None::<Seq<u8>>),
{
}

/// Pixels that all lie on scanlines outside the framebuffer change nothing.
proof fn lemma_paint_off_rows(buf: Seq<Color>, width: nat, height: nat, px: Seq<Pixel>)
    requires
        forall|k: int| 0 <= k < px.len() ==> !(0 <= #[trigger] px[k].y < height),
    ensures
        paint(buf, width, height, px) == buf,
    decreases px.len(),
{
    if px.len() > 0 {
        let q = px.drop_last();
        assert forall|k: int| 0 <= k < q.len() implies !(0 <= #[trigger] q[k].y < height) by {
            assert(q[k] == px[k]);
        }
        lemma_paint_off_rows(buf, width, height, q);
        assert(!(0 <= px[px.len() - 1].y < height));
    }
}

/// The three corners all lie above the framebuffer, or all below it.
pub open spec fn off_screen_rows(a: (i32, i32), b: (i32, i32), c: (i32, i32), height: nat) -> bool {
    (a.1 < 0 && b.1 < 0 && c.1 < 0) || (a.1 >= height && b.1 >= height && c.1 >= height)
}

/// The bytes that a present handed out, if any.
pub open spec fn opt_bytes(r: Option<Vec<u8>>) -> Option<Seq<u8>> {
    match r {
        Some(v) => Some(v@),
        None => None,
    }
}

fn vertex_pos(v: &Vertex, width: u32, height: u32) -> (r: (i32, i32))
    requires
        vertex_in_limit(*v, width, height),
    ensures
        r == vertex_point(*v, width, height),
        in_limit(point_int(r)),
{
    let (x, y) = to_pixel(v.pos, width, height);
    (x as i32, y as i32)
}

impl Renderer {
    /// Presents the frame: when one is in progress, returns the back buffer's
    /// RGBA bytes (four per pixel, row by row) for the display surface and
    /// ends the frame. Otherwise returns `None` and changes nothing, so a
    /// frame is never presented twice.
    pub fn draw_frame(&mut self) -> (r: Option<Vec<u8>>)
        requires
            old(self)@.wf(),
        ensures
            (final(self)@, opt_bytes(r)) == present_spec(old(self)@),
            final(self)@.wf(),
    {
        if self.frame_done {
            return None;
        }
        let n = self.frame_buffer.len();
        let ghost buf = self.frame_buffer@;
        let mut out: Vec<u8> = Vec::with_capacity(n * 4);
        let mut i: usize = 0;
        while i < n
            invariant
                n == buf.len(),
                buf == self.frame_buffer@,
                n * 4 <= usize::MAX,
                i <= n,
                out@.len() == 4 * i,
                forall|j: int| 0 <= j < 4 * i ==> #[trigger] out@[j] == channel(buf[j / 4], j % 4),
            decreases n - i,
        {
            let c = self.frame_buffer[i];
            out.push(c.r);
            out.push(c.g);
            out.push(c.b);
            out.push(c.a);
            assert forall|j: int| 0 <= j < 4 * (i + 1) implies #[trigger] out@[j] == channel(
                buf[j / 4],
                j % 4,
            ) by {
                if j >= 4 * i {
                    assert(j / 4 == i && j % 4 == j - 4 * i);
                }
            }
            i += 1;
        }
        assert(out@ =~= frame_bytes(buf));
        self.frame_done = true;
        Some(out)
    }

    /// Writes `color` at `(x, y)`, the back buffer's entry `x + y * width`.
    /// A pixel outside the framebuffer is refused with `OutOfBounds`, and
    /// nothing changes.
    pub fn set_pixel(&mut self, x: u32, y: u32, color: Color) -> (r: Result<(), RasterError>)
        requires
            old(self)@.wf(),
        ensures
            final(self)@.wf(),
            x < old(self)@.width && y < old(self)@.height ==> r == Ok::<(), RasterError>(())
                && final(self)@ == old(self)@.with_buffer(
                old(self)@.buffer.update(x + y * old(self)@.width, color),
            ),
            !(x < old(self)@.width && y < old(self)@.height) ==> r == Err::<(), RasterError>(
                RasterError::OutOfBounds,
            ) && final(self)@ == old(self)@,
    {
        if x < self.width && y < self.height {
            let i = pixel_index(x, y, self.width, self.height);
            self.frame_buffer.set(i, color);
            Ok(())
        } else {
            Err(RasterError::OutOfBounds)
        }
    }

    /// Writes the pixels `px` in order, leaving out those outside the
    /// framebuffer.
    pub fn draw_pixels(&mut self, px: &Vec<Pixel>)
        requires
            old(self)@.wf(),
        ensures
            final(self)@ == old(self)@.with_buffer(
                paint(old(self)@.buffer, old(self)@.width, old(self)@.height, px@),
            ),
            final(self)@.wf(),
    {
        let ghost start = self@;
        let mut i: usize = 0;
        while i < px.len()
            invariant
                i <= px@.len(),
                self@.wf(),
                self@ == start.with_buffer(paint(start.buffer, start.width, start.height, px@.take(i as int))),
            decreases px@.len() - i,
        {
            let p = px[i];
            assert(px@.take(i + 1).drop_last() =~= px@.take(i as int));
            assert(px@.take(i + 1).last() == p);
            if p.x >= 0 && p.y >= 0 {
                let _ = self.set_pixel(p.x as u32, p.y as u32, p.color);
            }
            i += 1;
        }
        assert(px@.take(px@.len() as int) =~= px@);
    }

    /// Draws the triangle with corners `v0`, `v1`, `v2`: its three edges, each
    /// shaded from its first corner's color toward its second's, then the
    /// spans between the edges, scanline by scanline. Pixels outside the
    /// framebuffer are left out.
    pub fn draw_polygon(&mut self, v0: &Vertex, v1: &Vertex, v2: &Vertex)
        requires
            old(self)@.wf(),
            vertex_in_limit(*v0, old(self)@.width as u32, old(self)@.height as u32),
            vertex_in_limit(*v1, old(self)@.width as u32, old(self)@.height as u32),
            vertex_in_limit(*v2, old(self)@.width as u32, old(self)@.height as u32),
        ensures
            final(self)@ == old(self)@.with_buffer(
                paint(
                    old(self)@.buffer,
                    old(self)@.width,
                    old(self)@.height,
                    vertex_triangle(*v0, *v1, *v2, old(self)@.width as u32, old(self)@.height as u32),
                ),
            ),
            final(self)@.wf(),
            off_screen_rows(
                vertex_point(*v0, old(self)@.width as u32, old(self)@.height as u32),
                vertex_point(*v1, old(self)@.width as u32, old(self)@.height as u32),
                vertex_point(*v2, old(self)@.width as u32, old(self)@.height as u32),
                old(self)@.height,
            ) ==> final(self)@ == old(self)@,
    {
        let p0 = vertex_pos(v0, self.width, self.height);
        let p1 = vertex_pos(v1, self.width, self.height);
        let p2 = vertex_pos(v2, self.width, self.height);
        let px = triangle_pixels(p0, v0.color, p1, v1.color, p2, v2.color);
        proof {
            if off_screen_rows(p0, p1, p2, self@.height) {
                lemma_triangle_rows(p0, v0.color, p1, v1.color, p2, v2.color);
                let lo = min3(p0.1 as int, p1.1 as int, p2.1 as int);
                let hi = max3(p0.1 as int, p1.1 as int, p2.1 as int);
                assert forall|k: int| 0 <= k < px@.len() implies !(0 <= #[trigger] px@[k].y
                    < self@.height) by {
                    assert(lo <= px@[k].y <= hi);
                }
                lemma_paint_off_rows(self@.buffer, self@.width, self@.height, px@);
            }
        }
        self.draw_pixels(&px);
    }

    /// Draws a vertex chain: each run of three vertices is a triangle, drawn
    /// as `draw_polygon` draws it; where two vertices are left over, the line
    /// between them is drawn. Fewer than two vertices draw nothing.
    pub fn draw_vertices(&mut self, vertices: &[Vertex])
        requires
            old(self)@.wf(),
            forall|k: int|
                0 <= k < vertices@.len() ==> vertex_in_limit(
                    #[trigger] vertices@[k],
                    old(self)@.width as u32,
                    old(self)@.height as u32,
                ),
        ensures
            final(self)@ == old(self)@.with_buffer(
                chain_spec(old(self)@.buffer, old(self)@.width as u32, old(self)@.height as u32, vertices@),
            ),
            final(self)@.wf(),
    {
        let ghost start = self@;
        let n = vertices.len();
        let groups = n / 3;
        let mut g: usize = 0;
        while g < groups
            invariant
                groups == n / 3,
                n == vertices@.len(),
                g <= groups,
                self@.wf(),
                start.wf(),
                forall|k: int|
                    0 <= k < vertices@.len() ==> vertex_in_limit(
                        #[trigger] vertices@[k],
                        start.width as u32,
                        start.height as u32,
                    ),
                self@ == start.with_buffer(
                    paint_groups(start.buffer, start.width as u32, start.height as u32, vertices@, g as nat),
                ),
            decreases groups - g,
        {
            let t = 3 * g;
            self.draw_polygon(&vertices[t], &vertices[t + 1], &vertices[t + 2]);
            g += 1;
        }
        if n % 3 == 2 {
            let a = &vertices[n - 2];
            let b = &vertices[n - 1];
            let pa = vertex_pos(a, self.width, self.height);
            let pb = vertex_pos(b, self.width, self.height);
            let px = line_pixels(pa, a.color, pb, b.color);
            self.draw_pixels(&px);
        }
    }
}

} // verus!

use vstd::prelude::*;
use crate::color::{Color, lerp, lerp_spec};
use crate::geometry::{coord_in_limit, in_limit, line_of, point_int, trace, is_digital_line, COORD_LIMIT};

verus! {

/// A pixel produced by rasterization: where it goes and its color. Its
/// coordinates may lie outside the framebuffer; such pixels are not written.
#[derive(Clone, Copy, PartialEq, Eq, Debug, Structural)]
pub struct Pixel {
    pub x: i32,
    pub y: i32,
    pub color: Color,
}

/// The pixels of the edge from `p0` to `p1`: the traced points, colored by
/// their index along the edge out of the edge's point count.
pub open spec fn edge_spec(p0: (i32, i32), c0: Color, p1: (i32, i32), c1: Color) -> Seq<Pixel> {
    let pts = line_of(p0, p1);
    Seq::new(
        pts.len(),
        |k: int| Pixel { x: pts[k].0, y: pts[k].1, color: lerp_spec(c0, c1, k as u32, pts.len() as u32) },
    )
}

/// The intersections recorded for scanline `y` from the pixel run `px`: a
/// pixel is recorded when it starts a run of pixels on its scanline and that
/// scanline holds fewer than two intersections so far.
pub open spec fn row_entries(px: Seq<Pixel>, y: int) -> Seq<(i32, Color)>
    decreases px.len(),
{
    if px.len() == 0 {
        seq![]
    } else {
        let prev = row_entries(px.drop_last(), y);
        let k = px.len() - 1;
        if px[k].y == y && prev.len() < 2 && (k == 0 || px[k - 1].y != y) {
            prev.push((px[k].x, px[k].color))
        } else {
            prev
        }
    }
}

/// The smallest scanline among `px` (which is non-empty).
pub open spec fn min_y(px: Seq<Pixel>) -> int
    decreases px.len(),
{
    if px.len() <= 1 {
        px[0].y as int
    } else {
        let m = min_y(px.drop_last());
        if px.last().y < m {
            px.last().y as int
        } else {
            m
        }
    }
}

/// The largest scanline among `px` (which is non-empty).
pub open spec fn max_y(px: Seq<Pixel>) -> int
    decreases px.len(),
{
    if px.len() <= 1 {
        px[0].y as int
    } else {
        let m = max_y(px.drop_last());
        if px.last().y > m {
            px.last().y as int
        } else {
            m
        }
    }
}

/// The span filled on scanline `y`: from the left of its two first
/// intersections up to (not including) the right one, blended from the left
/// intersection's color toward the right one's. No span without two.
pub open spec fn row_span(px: Seq<Pixel>, y: int) -> Seq<Pixel> {
    let e = row_entries(px, y);
    if e.len() < 2 {
        seq![]
    } else {
        let l = if e[0].0 < e[1].0 { e[0] } else { e[1] };
        let r = if e[0].0 < e[1].0 { e[1] } else { e[0] };
        let n = r.0 - l.0;
        Seq::new(
            n as nat,
            |k: int| Pixel { x: (l.0 + k) as i32, y: y as i32, color: lerp_spec(l.1, r.1, k as u32, n as u32) },
        )
    }
}

/// The spans of the scanlines `lo..hi`, in increasing order.
pub open spec fn fill_rows(px: Seq<Pixel>, lo: int, hi: int) -> Seq<Pixel>
    decreases hi - lo,
{
    if hi <= lo {
        seq![]
    } else {
        fill_rows(px, lo, hi - 1) + row_span(px, hi - 1)
    }
}

/// The interior pixels that filling adds to the edge pixels `px`: the spans
/// of every scanline from the lowest up to (not including) the highest.
pub open spec fn fill_spec(px: Seq<Pixel>) -> Seq<Pixel> {
    if px.len() == 0 {
        seq![]
    } else {
        fill_rows(px, min_y(px), max_y(px))
    }
}

/// The edge pixels of the triangle `p0 p1 p2`, edge by edge: `p0` to `p1`,
/// `p1` to `p2`, `p2` to `p0`.
pub open spec fn triangle_edges(
    p0: (i32, i32),
    c0: Color,
    p1: (i32, i32),
    c1: Color,
    p2: (i32, i32),
    c2: Color,
) -> Seq<Pixel> {
    edge_spec(p0, c0, p1, c1) + edge_spec(p1, c1, p2, c2) + edge_spec(p2, c2, p0, c0)
}

/// Every pixel that drawing the triangle writes, in order: its edges, then
/// its filled spans.
pub open spec fn triangle_spec(
    p0: (i32, i32),
    c0: Color,
    p1: (i32, i32),
    c1: Color,
    p2: (i32, i32),
    c2: Color,
) -> Seq<Pixel> {
    let e = triangle_edges(p0, c0, p1, c1, p2, c2);
    e + fill_spec(e)
}

pub open spec fn pixel_in_limit(p: Pixel) -> bool {
    coord_in_limit(p.x as int) && coord_in_limit(p.y as int)
}

pub open spec fn all_in_limit(px: Seq<Pixel>) -> bool {
    forall|k: int| 0 <= k < px.len() ==> pixel_in_limit(#[trigger] px[k])
}

/// Appends the pixels of the edge from `p0` to `p1` to `out`.
fn push_edge(out: &mut Vec<Pixel>, p0: (i32, i32), c0: Color, p1: (i32, i32), c1: Color)
    requires
        in_limit(point_int(p0)),
        in_limit(point_int(p1)),
    ensures
        final(out)@ == old(out)@ + edge_spec(p0, c0, p1, c1),
        is_digital_line(line_of(p0, p1), p0, p1),
{
    let pts = trace(p0, p1);
    let n = pts.len();
    assert(n <= 2 * COORD_LIMIT + 1);
    let ghost start = out@;
    let mut k: usize = 0;
    while k < n
        invariant
            n == pts@.len(),
            n <= 2 * COORD_LIMIT + 1,
            pts@ == line_of(p0, p1),
            k <= n,
            out@ == start + edge_spec(p0, c0, p1, c1).take(k as int),
        decreases n - k,
    {
        let (x, y) = pts[k];
        let color = lerp(c0, c1, k as u32, n as u32);
        out.push(Pixel { x, y, color });
        k += 1;
        assert(edge_spec(p0, c0, p1, c1).take(k as int) =~= edge_spec(p0, c0, p1, c1).take(
            (k - 1) as int,
        ).push(Pixel { x, y, color }));
    }
    assert(edge_spec(p0, c0, p1, c1).take(n as int) =~= edge_spec(p0, c0, p1, c1));
}

/// The edge pixels of a triangle lie within the tracer's limit.
proof fn lemma_edge_in_limit(p0: (i32, i32), c0: Color, p1: (i32, i32), c1: Color)
    requires
        in_limit(point_int(p0)),
        in_limit(point_int(p1)),
        is_digital_line(line_of(p0, p1), p0, p1),
    ensures
        all_in_limit(edge_spec(p0, c0, p1, c1)),
{
    let pts = line_of(p0, p1);
    assert forall|k: int| 0 <= k < edge_spec(p0, c0, p1, c1).len() implies pixel_in_limit(
        #[trigger] edge_spec(p0, c0, p1, c1)[k],
    ) by {
        assert(pts[k] == pts[k]);
    }
}

/// Up to two intersections recorded for one scanline.
#[derive(Clone, Copy)]
struct Row {
    count: usize,
    first: (i32, Color),
    second: (i32, Color),
}

spec fn row_view(r: Row) -> Seq<(i32, Color)> {
    if r.count == 0 {
        seq![]
    } else if r.count == 1 {
        seq![r.first]
    } else {
        seq![r.first, r.second]
    }
}

spec fn row_ok(r: Row) -> bool {
    r.count <= 2
}

/// Each recorded intersection comes from a pixel of the run, so shares its limits.
proof fn lemma_row_entries_in_limit(px: Seq<Pixel>, y: int)
    requires
        all_in_limit(px),
    ensures
        row_entries(px, y).len() <= 2,
        forall|j: int|
            0 <= j < row_entries(px, y).len() ==> coord_in_limit(
                #[trigger] row_entries(px, y)[j].0 as int,
            ),
    decreases px.len(),
{
    if px.len() > 0 {
        assert(all_in_limit(px.drop_last())) by {
            assert forall|k: int| 0 <= k < px.drop_last().len() implies pixel_in_limit(
                #[trigger] px.drop_last()[k],
            ) by {
                assert(px.drop_last()[k] == px[k]);
            }
        }
        lemma_row_entries_in_limit(px.drop_last(), y);
        assert(pixel_in_limit(px[px.len() - 1]));
    }
}

/// Bounds of the lowest and highest scanline of a run.
proof fn lemma_min_max_y(px: Seq<Pixel>)
    requires
        px.len() > 0,
    ensures
        forall|k: int| 0 <= k < px.len() ==> min_y(px) <= #[trigger] px[k].y <= max_y(px),
        exists|k: int| 0 <= k < px.len() && px[k].y == min_y(px),
        exists|k: int| 0 <= k < px.len() && px[k].y == max_y(px),
    decreases px.len(),
{
    if px.len() > 1 {
        let q = px.drop_last();
        lemma_min_max_y(q);
        let a = choose|k: int| 0 <= k < q.len() && q[k].y == min_y(q);
        let b = choose|k: int| 0 <= k < q.len() && q[k].y == max_y(q);
        assert(px[a] == q[a] && px[b] == q[b]);
        assert forall|k: int| 0 <= k < px.len() implies min_y(px) <= #[trigger] px[k].y <= max_y(
            px,
        ) by {
            if k < q.len() {
                assert(px[k] == q[k]);
            }
        }
    } else {
        assert(px[0].y == min_y(px));
    }
}

/// Fills the interior of the edge pixels `edges`: records up to two
/// intersections per scanline, then fills, for each scanline from the lowest
/// up to (not including) the highest, the span between its two first
/// intersections with a gradient between their colors.
pub fn fill_spans(edges: &Vec<Pixel>) -> (r: Vec<Pixel>)
    requires
        all_in_limit(edges@),
    ensures
        r@ == fill_spec(edges@),
{
    let n = edges.len();
    if n == 0 {
        return Vec::new();
    }
    let ghost px = edges@;
    // lowest and highest scanline
    let mut lo: i32 = edges[0].y;
    let mut hi: i32 = edges[0].y;
    let mut i: usize = 1;
    assert(px.take(1).drop_last().len() == 0);
    while i < n
        invariant
            n == px.len(),
            px == edges@,
            1 <= i <= n,
            lo as int == min_y(px.take(i as int)),
            hi as int == max_y(px.take(i as int)),
        decreases n - i,
    {
        let y = edges[i].y;
        assert(px.take(i + 1).drop_last() =~= px.take(i as int));
        if y < lo {
            lo = y;
        }
        if y > hi {
            hi = y;
        }
        i += 1;
    }
    assert(px.take(n as int) =~= px);
    proof {
        lemma_min_max_y(px);
        lemma_row_entries_in_limit(px, 0);
    }
    assert(coord_in_limit(lo as int) && coord_in_limit(hi as int)) by {
        let a = choose|k: int| 0 <= k < px.len() && px[k].y == min_y(px);
        let b = choose|k: int| 0 <= k < px.len() && px[k].y == max_y(px);
        assert(pixel_in_limit(px[a]) && pixel_in_limit(px[b]));
    }
    let ghost plo = lo as int;
    let ghost phi = hi as int;
    let rows = (hi - lo) as usize + 1;
    // the scanline table, row `j` standing for scanline `lo + j`
    let empty = Row { count: 0, first: (0, Color::black()), second: (0, Color::black()) };
    let mut table: Vec<Row> = Vec::new();
    let mut j: usize = 0;
    while j < rows
        invariant
            j <= rows,
            table@.len() == j,
            forall|t: int| 0 <= t < j ==> #[trigger] table@[t] == empty,
        decreases rows - j,
    {
        table.push(empty);
        j += 1;
    }
    let mut i: usize = 0;
    while i < n
        invariant
            n == px.len(),
            px == edges@,
            i <= n,
            lo == plo,
            hi == phi,
            rows == phi - plo + 1,
            table@.len() == rows,
            coord_in_limit(plo),
            coord_in_limit(phi),
            all_in_limit(px),
            forall|k: int| 0 <= k < px.len() ==> plo <= #[trigger] px[k].y <= phi,
            forall|t: int|
                0 <= t < rows ==> row_view(#[trigger] table@[t]) == row_entries(
                    px.take(i as int),
                    plo + t,
                ) && row_ok(table@[t]),
        decreases n - i,
    {
        let p = edges[i];
        assert(px[i as int].y == p.y);
        assert(plo <= px[i as int].y <= phi);
        let t = (p.y - lo) as usize;
        let row = table[t];
        let starts_run = i == 0 || edges[i - 1].y != p.y;
        let ghost old_table = table@;
        assert(px.take(i + 1).drop_last() =~= px.take(i as int));
        if starts_run && row.count < 2 {
            let new_row = if row.count == 0 {
                Row { count: 1, first: (p.x, p.color), second: row.second }
            } else {
                Row { count: 2, first: row.first, second: (p.x, p.color) }
            };
            table.set(t, new_row);
            assert(row_view(new_row) =~= row_view(row).push((p.x, p.color)));
        }
        assert forall|u: int| 0 <= u < rows implies row_view(#[trigger] table@[u]) == row_entries(
            px.take(i + 1),
            plo + u,
        ) && row_ok(table@[u]) by {
            assert(px.take(i + 1)[i as int] == p);
            if i > 0 {
                assert(px.take(i + 1)[i - 1] == px[i - 1]);
            }
            if u != t {
                assert(table@[u] == old_table[u]);
            }
        }
        i += 1;
    }
    assert(px.take(n as int) =~= px);
    assert forall|v: int|
        #![trigger row_entries(px, v)]
        forall|j: int|
            0 <= j < row_entries(px, v).len() ==> coord_in_limit(
                #[trigger] row_entries(px, v)[j].0 as int,
            ) by {
        lemma_row_entries_in_limit(px, v);
    }
    // the spans, scanline by scanline
    let mut out: Vec<Pixel> = Vec::new();
    let mut y: i32 = lo;
    while y < hi
        invariant
            lo == plo,
            hi == phi,
            plo <= y <= phi,
            rows == phi - plo + 1,
            table@.len() == rows,
            coord_in_limit(plo),
            coord_in_limit(phi),
            forall|t: int|
                0 <= t < rows ==> row_view(#[trigger] table@[t]) == row_entries(px, plo + t)
                    && row_ok(table@[t]),
            forall|v: int|
                #![trigger row_entries(px, v)]
                forall|j: int|
                    0 <= j < row_entries(px, v).len() ==> coord_in_limit(
                        #[trigger] row_entries(px, v)[j].0 as int,
                    ),
            out@ == fill_rows(px, plo, y as int),
        decreases phi - y,
    {
        let row = table[(y - lo) as usize];
        assert(row_view(row) == row_entries(px, y as int));
        let ghost before = out@;
        if row.count >= 2 {
            let (l, r) = if row.first.0 < row.second.0 {
                (row.first, row.second)
            } else {
                (row.second, row.first)
            };
            assert(coord_in_limit(row_entries(px, y as int)[0].0 as int));
            assert(coord_in_limit(row_entries(px, y as int)[1].0 as int));
            let len = r.0 - l.0;
            let ghost span = row_span(px, y as int);
            let mut k: i32 = 0;
            while k < len
                invariant
                    0 <= k <= len,
                    len == r.0 - l.0,
                    len <= 2 * COORD_LIMIT,
                    coord_in_limit(l.0 as int),
                    span == row_span(px, y as int),
                    span.len() == len,
                    forall|m: int|
                        0 <= m < len ==> #[trigger] span[m] == (Pixel {
                            x: (l.0 + m) as i32,
                            y: y,
                            color: lerp_spec(l.1, r.1, m as u32, len as u32),
                        }),
                    out@ == before + span.take(k as int),
                decreases len - k,
            {
                let color = lerp(l.1, r.1, k as u32, len as u32);
                let p = Pixel { x: l.0 + k, y, color };
                out.push(p);
                assert(span[k as int] == p);
                k += 1;
                assert(span.take(k as int) =~= span.take(k - 1).push(p));
            }
            assert(span.take(len as int) =~= span);
        } else {
            assert(row_span(px, y as int) =~= seq![]);
        }
        y += 1;
        assert(fill_rows(px, plo, y as int) == fill_rows(px, plo, y - 1) + row_span(px, y - 1));
    }
    out
}

proof fn lemma_concat_in_limit(a: Seq<Pixel>, b: Seq<Pixel>)
    requires
        all_in_limit(a),
        all_in_limit(b),
    ensures
        all_in_limit(a + b),
{
    assert forall|k: int| 0 <= k < (a + b).len() implies pixel_in_limit(#[trigger] (a + b)[k]) by {
        if k < a.len() {
            assert((a + b)[k] == a[k]);
        } else {
            assert((a + b)[k] == b[k - a.len()]);
        }
    }
}

/// Every pixel of the triangle `p0 p1 p2`, in the order they are written: the
/// three edges (each colored from its first corner toward its second), then
/// the filled spans.
pub fn triangle_pixels(
    p0: (i32, i32),
    c0: Color,
    p1: (i32, i32),
    c1: Color,
    p2: (i32, i32),
    c2: Color,
) -> (r: Vec<Pixel>)
    requires
        in_limit(point_int(p0)),
        in_limit(point_int(p1)),
        in_limit(point_int(p2)),
    ensures
        r@ == triangle_spec(p0, c0, p1, c1, p2, c2),
        is_digital_line(line_of(p0, p1), p0, p1),
        is_digital_line(line_of(p1, p2), p1, p2),
        is_digital_line(line_of(p2, p0), p2, p0),
{
    let mut edges: Vec<Pixel> = Vec::new();
    push_edge(&mut edges, p0, c0, p1, c1);
    push_edge(&mut edges, p1, c1, p2, c2);
    push_edge(&mut edges, p2, c2, p0, c0);
    proof {
        lemma_edge_in_limit(p0, c0, p1, c1);
        lemma_edge_in_limit(p1, c1, p2, c2);
        lemma_edge_in_limit(p2, c2, p0, c0);
        lemma_concat_in_limit(edge_spec(p0, c0, p1, c1), edge_spec(p1, c1, p2, c2));
        lemma_concat_in_limit(
            edge_spec(p0, c0, p1, c1) + edge_spec(p1, c1, p2, c2),
            edge_spec(p2, c2, p0, c0),
        );
    }
    assert(edges@ =~= triangle_edges(p0, c0, p1, c1, p2, c2));
    let mut fill = fill_spans(&edges);
    edges.append(&mut fill);
    edges
}

/// The spans of the scanlines `lo..hi` lie on those scanlines.
proof fn lemma_fill_rows_range(px: Seq<Pixel>, lo: int, hi: int)
    requires
        i32::MIN <= lo,
        hi <= i32::MAX,
    ensures
        forall|k: int|
            0 <= k < fill_rows(px, lo, hi).len() ==> lo <= #[trigger] fill_rows(px, lo, hi)[k].y < hi,
    decreases hi - lo,
{
    if hi > lo {
        lemma_fill_rows_range(px, lo, hi - 1);
        let a = fill_rows(px, lo, hi - 1);
        let b = row_span(px, hi - 1);
        assert forall|k: int| 0 <= k < (a + b).len() implies lo <= #[trigger] (a + b)[k].y < hi by {
            if k < a.len() {
                assert((a + b)[k] == a[k]);
            } else {
                assert((a + b)[k] == b[k - a.len()]);
            }
        }
    }
}

pub open spec fn min3(a: int, b: int, c: int) -> int {
    if a <= b && a <= c {
        a
    } else if b <= c {
        b
    } else {
        c
    }
}

pub open spec fn max3(a: int, b: int, c: int) -> int {
    if a >= b && a >= c {
        a
    } else if b >= c {
        b
    } else {
        c
    }
}

/// Every pixel of a triangle lies on a scanline between its lowest and its
/// highest corner.
pub proof fn lemma_triangle_rows(
    p0: (i32, i32),
    c0: Color,
    p1: (i32, i32),
    c1: Color,
    p2: (i32, i32),
    c2: Color,
)
    requires
        is_digital_line(line_of(p0, p1), p0, p1),
        is_digital_line(line_of(p1, p2), p1, p2),
        is_digital_line(line_of(p2, p0), p2, p0),
    ensures
        forall|k: int|
            0 <= k < triangle_spec(p0, c0, p1, c1, p2, c2).len() ==> min3(
                p0.1 as int,
                p1.1 as int,
                p2.1 as int,
            ) <= #[trigger] triangle_spec(p0, c0, p1, c1, p2, c2)[k].y <= max3(
                p0.1 as int,
                p1.1 as int,
                p2.1 as int,
            ),
{
    let lo = min3(p0.1 as int, p1.1 as int, p2.1 as int);
    let hi = max3(p0.1 as int, p1.1 as int, p2.1 as int);
    let e0 = edge_spec(p0, c0, p1, c1);
    let e1 = edge_spec(p1, c1, p2, c2);
    let e2 = edge_spec(p2, c2, p0, c0);
    let e = triangle_edges(p0, c0, p1, c1, p2, c2);
    assert(e == e0 + e1 + e2);
    assert forall|k: int| 0 <= k < e.len() implies lo <= #[trigger] e[k].y <= hi by {
        if k < e0.len() {
            assert(e[k] == e0[k]);
            assert(line_of(p0, p1)[k] == line_of(p0, p1)[k]);
        } else if k < e0.len() + e1.len() {
            assert(e[k] == e1[k - e0.len()]);
            assert(line_of(p1, p2)[k - e0.len()] == line_of(p1, p2)[k - e0.len()]);
        } else {
            assert(e[k] == e2[k - e0.len() - e1.len()]);
            assert(line_of(p2, p0)[k - e0.len() - e1.len()] == line_of(p2, p0)[k - e0.len()
                - e1.len()]);
        }
    }
    let f = fill_spec(e);
    assert(e0.len() > 0);
    lemma_min_max_y(e);
    let a = choose|k: int| 0 <= k < e.len() && e[k].y == min_y(e);
    let b = choose|k: int| 0 <= k < e.len() && e[k].y == max_y(e);
    assert(lo <= e[a].y && e[b].y <= hi);
    lemma_fill_rows_range(e, min_y(e), max_y(e));
    let t = triangle_spec(p0, c0, p1, c1, p2, c2);
    assert forall|k: int| 0 <= k < t.len() implies lo <= #[trigger] t[k].y <= hi by {
        if k < e.len() {
            assert(t[k] == e[k]);
        } else {
            assert(t[k] == f[k - e.len()]);
        }
    }
}

/// The pixels of the line from `p0` to `p1`, colored from `c0` toward `c1`.
pub fn line_pixels(p0: (i32, i32), c0: Color, p1: (i32, i32), c1: Color) -> (r: Vec<Pixel>)
    requires
        in_limit(point_int(p0)),
        in_limit(point_int(p1)),
    ensures
        r@ == edge_spec(p0, c0, p1, c1),
{
    let mut out: Vec<Pixel> = Vec::new();
    push_edge(&mut out, p0, c0, p1, c1);
    assert(out@ =~= edge_spec(p0, c0, p1, c1));
    out
}

} // verus!

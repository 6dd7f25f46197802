use soft_raster::color::{lerp, Color};
use soft_raster::geometry::{to_pixel, trace, Position, Vertex};
use soft_raster::raster::{fill_spans, line_pixels, triangle_pixels, Pixel};
use soft_raster::renderer::{RasterError, Renderer};

fn rgba(r: u8, g: u8, b: u8, a: u8) -> Color {
    Color { r, g, b, a }
}

fn px(x: i32, y: i32) -> Vertex {
    Vertex { pos: Position::Pixel { x, y }, color: rgba(10, 200, 30, 255) }
}

#[test]
fn lerp_midpoint_rounds_to_nearest() {
    let c = lerp(rgba(0, 0, 0, 255), rgba(255, 100, 7, 255), 1, 2);
    assert_eq!(c, rgba(128, 50, 4, 255));
}

#[test]
fn lerp_quarter_exact() {
    let c = lerp(rgba(0, 0, 0, 0), rgba(200, 100, 40, 255), 1, 4);
    assert_eq!(c, rgba(50, 25, 10, 64));
}

#[test]
fn lerp_zero_total_gives_start() {
    let a = rgba(1, 2, 3, 4);
    assert_eq!(lerp(a, rgba(9, 9, 9, 9), 0, 0), a);
    assert_eq!(lerp(a, rgba(9, 9, 9, 9), 5, 0), a);
}

#[test]
fn lerp_index_past_total_gives_end() {
    let b = rgba(9, 8, 7, 6);
    assert_eq!(lerp(rgba(0, 0, 0, 0), b, 12, 4), b);
}

#[test]
fn lerp_same_color_is_identity() {
    let c = rgba(17, 99, 254, 3);
    for n in 1..20u32 {
        for i in 0..=n {
            assert_eq!(lerp(c, c, i, n), c);
        }
    }
}

#[test]
fn lerp_endpoints_are_exact() {
    let a = rgba(3, 250, 128, 77);
    let b = rgba(200, 1, 64, 255);
    for n in 1..50u32 {
        assert_eq!(lerp(a, b, 0, n), a);
        assert_eq!(lerp(a, b, n, n), b);
    }
}

#[test]
fn to_pixel_scales_and_truncates() {
    let w = 640;
    let h = 480;
    assert_eq!(to_pixel(Position::Normalized { fx: 32767, fy: 65535 }, w, h), (319, 480));
    assert_eq!(to_pixel(Position::Normalized { fx: 0, fy: 16384 }, w, h), (0, 120));
    assert_eq!(to_pixel(Position::Pixel { x: -3, y: 7 }, w, h), (-3, 7));
}

#[test]
fn trace_matches_bresenham() {
    let pts = trace((0, 0), (5, 6));
    assert_eq!(pts, vec![(0, 0), (0, 1), (1, 2), (2, 3), (3, 4), (4, 5), (5, 6)]);
}

#[test]
fn trace_single_point() {
    assert_eq!(trace((4, -2), (4, -2)), vec![(4, -2)]);
}

#[test]
fn trace_is_connected_with_both_ends() {
    let cases = [((0, 0), (7, 3)), ((5, 5), (-4, 2)), ((-3, 8), (2, -9)), ((1, 1), (1, 9))];
    for (p0, p1) in cases {
        let pts = trace(p0, p1);
        assert_eq!(pts[0], p0);
        assert_eq!(*pts.last().unwrap(), p1);
        for w in pts.windows(2) {
            assert!((w[1].0 - w[0].0).abs() <= 1);
            assert!((w[1].1 - w[0].1).abs() <= 1);
        }
    }
}

#[test]
fn trace_reversed_covers_same_points_on_straight_lines() {
    let cases = [((0, 0), (6, 6)), ((2, 3), (9, 3)), ((4, -1), (4, 5))];
    for (p0, p1) in cases {
        let mut a = trace(p0, p1);
        let mut b = trace(p1, p0);
        a.sort();
        b.sort();
        assert_eq!(a, b);
    }
}

#[test]
fn line_pixels_shade_by_index() {
    let a = rgba(0, 0, 0, 255);
    let b = rgba(100, 0, 0, 255);
    let line = line_pixels((0, 0), a, (3, 0), b);
    let reds: Vec<u8> = line.iter().map(|p| p.color.r).collect();
    assert_eq!(reds, vec![0, 25, 50, 75]);
    assert_eq!(line[3].x, 3);
}

#[test]
fn fill_spans_uses_first_two_intersections() {
    let a = rgba(0, 0, 0, 0);
    let b = rgba(200, 100, 40, 255);
    let c = rgba(1, 1, 1, 1);
    let edges = vec![
        Pixel { x: 0, y: 0, color: a },
        Pixel { x: 4, y: 1, color: c },
        Pixel { x: 4, y: 0, color: b },
        Pixel { x: 0, y: 1, color: c },
    ];
    let fill = fill_spans(&edges);
    assert_eq!(fill.len(), 4);
    assert_eq!(fill[0], Pixel { x: 0, y: 0, color: a });
    assert_eq!(fill[1], Pixel { x: 1, y: 0, color: rgba(50, 25, 10, 64) });
    assert_eq!(fill[3].x, 3);
}

#[test]
fn fill_spans_orders_intersections_by_x() {
    let a = rgba(0, 0, 0, 0);
    let b = rgba(200, 100, 40, 255);
    let edges = vec![
        Pixel { x: 4, y: 0, color: b },
        Pixel { x: 9, y: 1, color: a },
        Pixel { x: 0, y: 0, color: a },
        Pixel { x: 9, y: 2, color: a },
    ];
    let fill = fill_spans(&edges);
    assert_eq!(fill.len(), 4);
    assert_eq!(fill[0], Pixel { x: 0, y: 0, color: a });
    assert_eq!(fill[1].color, rgba(50, 25, 10, 64));
}

#[test]
fn fill_spans_skips_flat_triangle() {
    let c = rgba(5, 5, 5, 5);
    let edges = vec![Pixel { x: 0, y: 3, color: c }, Pixel { x: 8, y: 3, color: c }];
    assert!(fill_spans(&edges).is_empty());
    assert!(fill_spans(&Vec::new()).is_empty());
}

#[test]
fn uniform_triangle_fills_interior() {
    let c = rgba(10, 200, 30, 255);
    let mut r = Renderer::new(20, 20);
    r.begin_frame();
    r.draw_polygon(&px(0, 0), &px(10, 0), &px(0, 10));
    for y in 1..10u32 {
        for x in 0..=(10 - y) {
            assert_eq!(r.pixel(x, y), Some(c), "pixel ({}, {})", x, y);
        }
    }
    assert_eq!(r.pixel(10, 5), Some(rgba(0, 0, 0, 255)));
    assert_eq!(r.pixel(15, 15), Some(rgba(0, 0, 0, 255)));
}

#[test]
fn uniform_triangle_pixels_have_one_color() {
    let c = rgba(10, 200, 30, 255);
    let all = triangle_pixels((0, 0), c, (10, 0), c, (0, 10), c);
    assert!(all.len() > 30);
    assert!(all.iter().all(|p| p.color == c));
}

#[test]
fn fresh_frame_presents_black() {
    let mut r = Renderer::new(4, 3);
    r.begin_frame();
    let bytes = r.draw_frame().unwrap();
    assert_eq!(bytes.len(), 4 * 3 * 4);
    for (j, b) in bytes.iter().enumerate() {
        assert_eq!(*b, if j % 4 == 3 { 255 } else { 0 });
    }
}

#[test]
fn present_twice_is_noop() {
    let mut r = Renderer::new(4, 4);
    r.begin_frame();
    r.set_pixel(1, 2, rgba(9, 9, 9, 9)).unwrap();
    let first = r.draw_frame().unwrap();
    assert_eq!(&first[4 * (1 + 2 * 4)..4 * (1 + 2 * 4) + 4], &[9, 9, 9, 9]);
    assert!(!r.frame_in_progress());
    assert_eq!(r.draw_frame(), None);
    assert_eq!(r.pixel(1, 2), Some(rgba(9, 9, 9, 9)));
}

#[test]
fn begin_frame_twice_keeps_drawing() {
    let mut r = Renderer::new(4, 4);
    r.begin_frame();
    r.set_pixel(3, 3, rgba(1, 2, 3, 4)).unwrap();
    r.begin_frame();
    assert_eq!(r.pixel(3, 3), Some(rgba(1, 2, 3, 4)));
    r.draw_frame();
    r.begin_frame();
    assert_eq!(r.pixel(3, 3), Some(rgba(0, 0, 0, 255)));
}

#[test]
fn set_pixel_out_of_bounds() {
    let mut r = Renderer::new(4, 4);
    assert_eq!(r.set_pixel(4, 0, rgba(1, 1, 1, 1)), Err(RasterError::OutOfBounds));
    assert_eq!(r.set_pixel(0, 4, rgba(1, 1, 1, 1)), Err(RasterError::OutOfBounds));
    assert_eq!(r.set_pixel(3, 3, rgba(1, 1, 1, 1)), Ok(()));
    assert_eq!(r.pixel(4, 0), None);
}

fn buffer_of(r: &Renderer) -> Vec<Option<Color>> {
    let mut out = Vec::new();
    for y in 0..r.height() {
        for x in 0..r.width() {
            out.push(r.pixel(x, y));
        }
    }
    out
}

#[test]
fn triangle_above_frame_writes_nothing() {
    let mut r = Renderer::new(16, 16);
    r.begin_frame();
    let before = buffer_of(&r);
    r.draw_polygon(&px(2, -1), &px(30, -20), &px(-5, -3));
    assert_eq!(buffer_of(&r), before);
}

#[test]
fn triangle_below_frame_writes_nothing() {
    let mut r = Renderer::new(16, 16);
    r.begin_frame();
    let before = buffer_of(&r);
    r.draw_polygon(&px(2, 16), &px(30, 40), &px(-5, 17));
    assert_eq!(buffer_of(&r), before);
}

#[test]
fn triangle_partly_outside_is_clipped() {
    let mut r = Renderer::new(8, 8);
    r.begin_frame();
    r.draw_polygon(&px(-4, -4), &px(20, 2), &px(2, 20));
    assert_eq!(r.pixel(2, 2), Some(rgba(10, 200, 30, 255)));
}

#[test]
fn draw_vertices_groups_by_three() {
    let mut a = Renderer::new(32, 32);
    let mut b = Renderer::new(32, 32);
    a.begin_frame();
    b.begin_frame();
    let vs = [px(1, 1), px(12, 2), px(3, 14), px(20, 20), px(30, 22), px(22, 30)];
    a.draw_vertices(&vs);
    b.draw_polygon(&vs[0], &vs[1], &vs[2]);
    b.draw_polygon(&vs[3], &vs[4], &vs[5]);
    assert_eq!(buffer_of(&a), buffer_of(&b));
    assert_eq!(a.pixel(22, 23), Some(rgba(10, 200, 30, 255)));
}

#[test]
fn draw_vertices_leftover_pair_is_a_line() {
    let mut r = Renderer::new(8, 8);
    r.begin_frame();
    let blue = Vertex { pos: Position::Pixel { x: 5, y: 1 }, color: rgba(0, 0, 255, 255) };
    r.draw_vertices(&[px(1, 1), blue]);
    assert_eq!(r.pixel(1, 1), Some(rgba(10, 200, 30, 255)));
    assert_eq!(r.pixel(3, 1).unwrap().b, 120);
    assert_eq!(r.pixel(3, 2), Some(rgba(0, 0, 0, 255)));
}

#[test]
fn draw_vertices_single_vertex_draws_nothing() {
    let mut r = Renderer::new(8, 8);
    r.begin_frame();
    let before = buffer_of(&r);
    r.draw_vertices(&[px(1, 1)]);
    r.draw_vertices(&[]);
    assert_eq!(buffer_of(&r), before);
}

#[test]
fn normalized_vertices_scale_to_frame() {
    let mut r = Renderer::new(10, 10);
    r.begin_frame();
    let c = rgba(255, 255, 255, 255);
    let v = |fx: u16, fy: u16| Vertex { pos: Position::Normalized { fx, fy }, color: c };
    r.draw_polygon(&v(0, 0), &v(65535, 0), &v(0, 65535));
    assert_eq!(r.pixel(2, 3), Some(c));
    assert_eq!(r.pixel(9, 9), Some(rgba(0, 0, 0, 255)));
}

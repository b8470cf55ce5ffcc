use toy_renderer::framebuf::{clear, set_pixel};
use toy_renderer::line::draw_line;
use toy_renderer::obj::{IndexTuple, SimplePolygon};
use toy_renderer::raster::{barycentric_coordinates, point_inside, render_triangle, reset_depth, ScreenPoint};
use toy_renderer::obj::load_buf;
use toy_renderer::render::{draw_object_wireframe, rasterize_mesh, render_object, RenderConfig};

const RED: [u8; 4] = [255, 0, 0, 255];
const GREEN: [u8; 4] = [0, 255, 0, 255];

fn pixel(frame: &[u8], x: usize, y: usize, w: usize, h: usize) -> [u8; 4] {
    let i = 4 * ((h - 1 - y) * w + x);
    [frame[i], frame[i + 1], frame[i + 2], frame[i + 3]]
}

fn pt(x: i32, y: i32, z: i32) -> ScreenPoint {
    ScreenPoint { x, y, z }
}

fn count_color(frame: &[u8], color: [u8; 4]) -> usize {
    frame.chunks(4).filter(|p| *p == color).count()
}

#[test]
fn set_pixel_puts_origin_bottom_left() {
    let mut frame = vec![0u8; 4 * 3 * 2];
    set_pixel(0, 0, &mut frame, &RED, 3, 2);
    assert_eq!(&frame[12..16], &RED);
    set_pixel(2, 1, &mut frame, &GREEN, 3, 2);
    assert_eq!(&frame[8..12], &GREEN);
    assert_eq!(count_color(&frame, [0, 0, 0, 0]), 4);
}

#[test]
fn clear_fills_every_pixel() {
    let mut frame = vec![7u8; 4 * 5];
    clear(&mut frame, &[1, 2, 3, 4]);
    assert_eq!(count_color(&frame, [1, 2, 3, 4]), 5);
}

#[test]
fn line_skips_its_last_pixel() {
    let (w, h) = (8, 8);
    let mut frame = vec![0u8; 4 * w * h];
    draw_line(0, 0, 4, 2, &mut frame, &RED, w, h);
    assert_eq!(count_color(&frame, RED), 4);
    for (x, y) in [(0, 0), (1, 0), (2, 1), (3, 1)] {
        assert_eq!(pixel(&frame, x, y, w, h), RED);
    }
    let mut frame2 = vec![0u8; 4 * w * h];
    draw_line(4, 2, 0, 0, &mut frame2, &RED, w, h);
    assert_eq!(frame, frame2);
}

#[test]
fn steep_line_walks_along_y() {
    let (w, h) = (8, 8);
    let mut frame = vec![0u8; 4 * w * h];
    draw_line(1, 0, 2, 5, &mut frame, &GREEN, w, h);
    assert_eq!(count_color(&frame, GREEN), 5);
    for (x, y) in [(1, 0), (1, 1), (1, 2), (2, 3), (2, 4)] {
        assert_eq!(pixel(&frame, x, y, w, h), GREEN);
    }
}

#[test]
fn line_outside_the_image_is_clipped() {
    let (w, h) = (4, 4);
    let mut frame = vec![0u8; 4 * w * h];
    draw_line(-2, 1, 6, 1, &mut frame, &RED, w, h);
    assert_eq!(count_color(&frame, RED), 4);
}

#[test]
fn right_triangle_covers_interior_not_beyond_hypotenuse() {
    let (w, h) = (16, 16);
    let mut frame = vec![0u8; 4 * w * h];
    let mut z = vec![0i64; w * h];
    reset_depth(&mut z);
    let tri = [pt(0, 0, 0), pt(10, 0, 0), pt(0, 10, 0)];
    render_triangle(&tri, &mut frame, &mut z, &RED, w, h);
    assert_eq!(pixel(&frame, 1, 1, w, h), RED);
    assert_eq!(pixel(&frame, 9, 9, w, h), [0, 0, 0, 0]);
    assert!(point_inside(&tri, 1, 1));
    assert!(!point_inside(&tri, 9, 9));
    assert_eq!(count_color(&frame, RED), 66);
}

#[test]
fn collinear_triangle_covers_nothing() {
    let (w, h) = (16, 16);
    let mut frame = vec![0u8; 4 * w * h];
    let mut z = vec![i64::MIN; w * h];
    let tri = [pt(0, 0, 0), pt(5, 5, 0), pt(10, 10, 0)];
    render_triangle(&tri, &mut frame, &mut z, &RED, w, h);
    assert_eq!(count_color(&frame, RED), 0);
    assert_eq!(barycentric_coordinates(&tri, 3, 3).w, 0);
}

#[test]
fn nearer_triangle_wins_in_either_order() {
    let (w, h) = (8, 8);
    let near = [pt(0, 0, 800), pt(7, 0, 800), pt(0, 7, 800)];
    let far = [pt(0, 0, 200), pt(7, 0, 200), pt(0, 7, 200)];
    let mut f1 = vec![0u8; 4 * w * h];
    let mut z1 = vec![i64::MIN; w * h];
    render_triangle(&near, &mut f1, &mut z1, &GREEN, w, h);
    render_triangle(&far, &mut f1, &mut z1, &RED, w, h);
    let mut f2 = vec![0u8; 4 * w * h];
    let mut z2 = vec![i64::MIN; w * h];
    render_triangle(&far, &mut f2, &mut z2, &RED, w, h);
    render_triangle(&near, &mut f2, &mut z2, &GREEN, w, h);
    assert_eq!(pixel(&f1, 2, 2, w, h), GREEN);
    assert_eq!(pixel(&f2, 2, 2, w, h), GREEN);
    assert_eq!(z1[2 * w + 2], 571);
    assert_eq!(z2[2 * w + 2], 571);
}

#[test]
fn depth_is_interpolated_from_first_two_weights() {
    let (w, h) = (16, 16);
    let mut frame = vec![0u8; 4 * w * h];
    let mut z = vec![i64::MIN; w * h];
    let tri = [pt(0, 0, 0), pt(10, 0, 1000), pt(0, 10, 0)];
    let b = barycentric_coordinates(&tri, 2, 3);
    assert_eq!((b.u, b.v, b.w), (20, 30, 100));
    render_triangle(&tri, &mut frame, &mut z, &RED, w, h);
    assert_eq!(z[3 * w + 2], 300);
}

#[test]
fn equal_depth_keeps_first_drawn() {
    let (w, h) = (4, 4);
    let tri = [pt(0, 0, 5), pt(3, 0, 5), pt(0, 3, 5)];
    let mut frame = vec![0u8; 4 * w * h];
    let mut z = vec![i64::MIN; w * h];
    render_triangle(&tri, &mut frame, &mut z, &RED, w, h);
    render_triangle(&tri, &mut frame, &mut z, &GREEN, w, h);
    assert_eq!(pixel(&frame, 0, 0, w, h), RED);
}

#[test]
fn mesh_fill_culls_unlit_faces() {
    let (w, h) = (8, 8);
    let screen = vec![pt(0, 0, 0), pt(7, 0, 0), pt(0, 7, 0)];
    let faces = vec![
        SimplePolygon(vec![IndexTuple(0, None, None), IndexTuple(1, None, None), IndexTuple(2, None, None)]),
        SimplePolygon(vec![IndexTuple(0, None, None), IndexTuple(1, None, None)]),
    ];
    let mut frame = vec![0u8; 4 * w * h];
    let mut z = vec![i64::MIN; w * h];
    rasterize_mesh(&screen, &faces, &vec![0, 9], &mut frame, &mut z, w, h);
    assert_eq!(count_color(&frame, [0, 0, 0, 0]), w * h);
    rasterize_mesh(&screen, &faces, &vec![100, 9], &mut frame, &mut z, w, h);
    assert_eq!(pixel(&frame, 1, 1, w, h), [100, 100, 100, 255]);
}

#[test]
fn wireframe_draws_two_edges() {
    let (w, h) = (8, 8);
    let screen = vec![pt(0, 0, 0), pt(4, 0, 0), pt(4, 4, 0)];
    let faces = vec![SimplePolygon(vec![
        IndexTuple(0, None, None),
        IndexTuple(1, None, None),
        IndexTuple(2, None, None),
    ])];
    let mut frame = vec![0u8; 4 * w * h];
    draw_object_wireframe(&screen, &faces, &mut frame, &RED, w, h);
    assert_eq!(count_color(&frame, RED), 8);
    assert_eq!(pixel(&frame, 4, 0, w, h), RED);
    assert_eq!(pixel(&frame, 2, 2, w, h), [0, 0, 0, 0]);
}

#[test]
fn render_object_clears_then_draws_every_group() {
    let (w, h) = (8, 8);
    let mesh = load_buf(b"v 0 0 0\nv 1 0 0\nv 0 1 0\nf 1 2 3\ng second\nf 1 2 3\n").unwrap();
    let screen = vec![pt(0, 0, 10), pt(7, 0, 10), pt(0, 7, 10)];
    let mut frame = vec![9u8; 4 * w * h];
    let mut z = vec![0i64; w * h];
    let filled = RenderConfig { width: w, height: h, is_wireframe: false, default_color: RED };
    render_object(&mesh.objects, &screen, &vec![0, 50], &filled, &[0, 0, 0, 255], &mut frame, &mut z);
    assert_eq!(pixel(&frame, 1, 1, w, h), [50, 50, 50, 255]);
    assert_eq!(pixel(&frame, 7, 7, w, h), [0, 0, 0, 255]);
    assert_eq!(z[w * 7 + 7], i64::MIN);

    let wire = RenderConfig { width: w, height: h, is_wireframe: true, default_color: RED };
    render_object(&mesh.objects, &screen, &vec![0, 50], &wire, &[0, 0, 0, 255], &mut frame, &mut z);
    assert!(z.iter().all(|d| *d == i64::MIN));
    assert_eq!(pixel(&frame, 3, 0, w, h), RED);
    assert_eq!(pixel(&frame, 1, 1, w, h), [0, 0, 0, 255]);
}

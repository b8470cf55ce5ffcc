//! Depth-tested, flat-shaded triangle rasterization.
//!
//! Vertices arrive in screen space: integer pixel coordinates and a
//! fixed-point depth, where a larger depth is nearer the viewer. Coverage is
//! decided with exact integer barycentric coordinates.
use vstd::prelude::*;
use crate::framebuf::{frame_fits, lemma_write_pixel, pixel_at, set_pixel};
use vstd::arithmetic::div_mod::{
    lemma_div_by_multiple, lemma_div_is_ordered, lemma_fundamental_div_mod_converse,
};

verus! {

/// A vertex projected to the screen: pixel coordinates and fixed-point depth.
#[derive(Clone, Copy, Debug)]
pub struct ScreenPoint {
    pub x: i32,
    pub y: i32,
    pub z: i32,
}

/// The cross product of `(x1-x0, x2-x0, x0-px)` and `(y1-y0, y2-y0, y0-py)`.
///
/// With `(u, v, w)` this product, the barycentric weights of the point are
/// `1 - (u + v) / w`, `v / w` and `u / w`; `w` is twice the signed area of the
/// triangle and is zero exactly when the triangle is degenerate.
#[derive(Clone, Copy, Debug)]
pub struct Barycentric {
    pub u: i128,
    pub v: i128,
    pub w: i128,
}

pub open spec fn cross_u(t: Seq<ScreenPoint>, px: int, py: int) -> int {
    (t[2].x - t[0].x) * (t[0].y - py) - (t[0].x - px) * (t[2].y - t[0].y)
}

pub open spec fn cross_v(t: Seq<ScreenPoint>, px: int, py: int) -> int {
    (t[0].x - px) * (t[1].y - t[0].y) - (t[1].x - t[0].x) * (t[0].y - py)
}

/// Twice the signed area of the triangle; it does not depend on the point.
pub open spec fn cross_w(t: Seq<ScreenPoint>) -> int {
    (t[1].x - t[0].x) * (t[2].y - t[0].y) - (t[2].x - t[0].x) * (t[1].y - t[0].y)
}

/// The point `(px, py)` lies in the closed triangle: the triangle is not
/// degenerate and none of the three barycentric weights is negative.
pub open spec fn inside(t: Seq<ScreenPoint>, px: int, py: int) -> bool {
    let u = cross_u(t, px, py);
    let v = cross_v(t, px, py);
    let w = cross_w(t);
    &&& w != 0
    &&& u * w >= 0
    &&& v * w >= 0
    &&& (w - u - v) * w >= 0
}

pub open spec fn min3(a: int, b: int, c: int) -> int {
    if a <= b && a <= c { a } else if b <= c { b } else { c }
}

pub open spec fn max3(a: int, b: int, c: int) -> int {
    if a >= b && a >= c { a } else if b >= c { b } else { c }
}

/// The pixel lies in the triangle's bounding box and in the image.
pub open spec fn in_box(t: Seq<ScreenPoint>, px: int, py: int, width: int, height: int) -> bool {
    &&& 0 <= px < width
    &&& 0 <= py < height
    &&& min3(t[0].x as int, t[1].x as int, t[2].x as int) <= px
    &&& px <= max3(t[0].x as int, t[1].x as int, t[2].x as int)
    &&& min3(t[0].y as int, t[1].y as int, t[2].y as int) <= py
    &&& py <= max3(t[0].y as int, t[1].y as int, t[2].y as int)
}

/// The pixel is covered by the triangle.
pub open spec fn covers(t: Seq<ScreenPoint>, px: int, py: int, width: int, height: int) -> bool {
    in_box(t, px, py, width, height) && inside(t, px, py)
}

/// Depth at a pixel: the depths of the first two vertices weighted by the
/// first two barycentric weights, `z0 * (1 - (u + v) / w) + z1 * (v / w)`,
/// rounded down.
pub open spec fn depth_at(t: Seq<ScreenPoint>, px: int, py: int) -> int {
    let u = cross_u(t, px, py);
    let v = cross_v(t, px, py);
    let w = cross_w(t);
    let num = t[0].z * (w - u - v) + t[1].z * v;
    if w > 0 { num / w } else { (-num) / (-w) }
}

/// Index of pixel `(x, y)` in the depth buffer (row-major, row `y` first at
/// `y * width`).
pub open spec fn depth_index(x: int, y: int, width: int) -> int {
    y * width + x
}

/// The pixel and its stored depth after a fragment of depth `d` and colour
/// `color` is offered to it: it is drawn only when it is covered and strictly
/// nearer than what is stored.
pub open spec fn depth_test(
    pixel: Seq<u8>,
    stored: int,
    hit: bool,
    d: int,
    color: Seq<u8>,
) -> (Seq<u8>, int) {
    if hit && d > stored {
        (color, d)
    } else {
        (pixel, stored)
    }
}

/// The state of pixel `(x, y)` (colour and depth) after rendering the
/// triangle.
pub open spec fn rendered(
    t: Seq<ScreenPoint>,
    frame: Seq<u8>,
    zbuf: Seq<i64>,
    x: int,
    y: int,
    width: int,
    height: int,
    color: Seq<u8>,
) -> (Seq<u8>, int) {
    depth_test(
        pixel_at(frame, x, y, width, height),
        zbuf[depth_index(x, y, width)] as int,
        covers(t, x, y, width, height),
        depth_at(t, x, y),
        color,
    )
}

/// Whether `frame2`/`zbuf2` is `frame`/`zbuf` after rendering the triangle
/// `t` with `color`.
pub open spec fn renders(
    t: Seq<ScreenPoint>,
    frame: Seq<u8>,
    zbuf: Seq<i64>,
    frame2: Seq<u8>,
    zbuf2: Seq<i64>,
    width: int,
    height: int,
    color: Seq<u8>,
) -> bool {
    &&& frame2.len() == frame.len()
    &&& zbuf2.len() == zbuf.len()
    &&& forall|x: int, y: int|
        0 <= x < width && 0 <= y < height ==> (#[trigger] pixel_at(frame2, x, y, width, height),
            zbuf2[depth_index(x, y, width)] as int) == rendered(t, frame, zbuf, x, y, width, height, color)
}

/// A bound on each component of the barycentric cross product of `i32`
/// coordinates.
pub const CROSS_BOUND: i128 = 0x2_0000_0000_0000_0000;

proof fn lemma_sign_product(a: int, w: int)
    requires
        w != 0,
    ensures
        (a * w >= 0) == (a == 0 || (a > 0) == (w > 0)),
{
    if a > 0 && w > 0 {
        assert(a * w > 0) by (nonlinear_arith) requires a > 0, w > 0;
    } else if a > 0 && w < 0 {
        assert(a * w < 0) by (nonlinear_arith) requires a > 0, w < 0;
    } else if a < 0 && w > 0 {
        assert(a * w < 0) by (nonlinear_arith) requires a < 0, w > 0;
    } else if a < 0 && w < 0 {
        assert(a * w > 0) by (nonlinear_arith) requires a < 0, w < 0;
    }
}

proof fn lemma_mul_bound(a: int, b: int, ba: int, bb: int)
    requires
        -ba <= a <= ba,
        -bb <= b <= bb,
    ensures
        -(ba * bb) <= a * b <= ba * bb,
{
    assert(-(ba * bb) <= a * b <= ba * bb) by (nonlinear_arith)
        requires
            -ba <= a <= ba,
            -bb <= b <= bb,
    ;
}

/// Computes the barycentric cross product of pixel `(px, py)` against the
/// triangle.
pub fn barycentric_coordinates(vertices: &[ScreenPoint; 3], px: i32, py: i32) -> (r: Barycentric)
    ensures
        r.u == cross_u(vertices@, px as int, py as int),
        r.v == cross_v(vertices@, px as int, py as int),
        r.w == cross_w(vertices@),
        -CROSS_BOUND <= r.u <= CROSS_BOUND,
        -CROSS_BOUND <= r.v <= CROSS_BOUND,
        -CROSS_BOUND <= r.w <= CROSS_BOUND,
{
    let x0 = vertices[0].x as i128;
    let y0 = vertices[0].y as i128;
    let ax = vertices[1].x as i128 - x0;
    let bx = vertices[2].x as i128 - x0;
    let cx = x0 - px as i128;
    let ay = vertices[1].y as i128 - y0;
    let by = vertices[2].y as i128 - y0;
    let cy = y0 - py as i128;
    proof {
        let k: int = 0x1_0000_0000;
        lemma_mul_bound(bx as int, cy as int, k, k);
        lemma_mul_bound(cx as int, by as int, k, k);
        lemma_mul_bound(cx as int, ay as int, k, k);
        lemma_mul_bound(ax as int, cy as int, k, k);
        lemma_mul_bound(ax as int, by as int, k, k);
        lemma_mul_bound(bx as int, ay as int, k, k);
    }
    Barycentric { u: bx * cy - cx * by, v: cx * ay - ax * cy, w: ax * by - bx * ay }
}

/// Whether `a / w` is not negative, for `w != 0`.
fn weight_non_negative(a: i128, w: i128) -> (r: bool)
    requires
        w != 0,
    ensures
        r == (a * w >= 0),
{
    proof {
        lemma_sign_product(a as int, w as int);
    }
    a == 0 || (a > 0) == (w > 0)
}

/// Whether pixel `(px, py)` lies in the closed triangle.
pub fn point_inside(vertices: &[ScreenPoint; 3], px: i32, py: i32) -> (r: bool)
    ensures
        r == inside(vertices@, px as int, py as int),
{
    let b = barycentric_coordinates(vertices, px, py);
    if b.w == 0 {
        return false;
    }
    weight_non_negative(b.u, b.w) && weight_non_negative(b.v, b.w) && weight_non_negative(
        b.w - b.u - b.v,
        b.w,
    )
}

/// `n / d` rounded down, for `d > 0`.
fn floor_div(n: i128, d: i128) -> (r: i128)
    requires
        d > 0,
        n > i128::MIN,
    ensures
        r == n / d,
{
    if n >= 0 {
        n / d
    } else {
        let m = -n - 1;
        let q = m / d;
        proof {
            let r = m % d;
            assert(m == q * d + r) by {
                vstd::arithmetic::div_mod::lemma_fundamental_div_mod(m as int, d as int);
            }
            assert(n == (-q - 1) * d + (d - r - 1)) by (nonlinear_arith)
                requires
                    m == q * d + r,
                    n == -m - 1,
            ;
            lemma_fundamental_div_mod_converse(n as int, d as int, -q - 1, d - r - 1);
        }
        -q - 1
    }
}

/// A bound on the fixed-point depth of a vertex.
pub const DEPTH_BOUND: i128 = 0x8000_0000;

/// For a pixel inside the triangle, the interpolated depth stays within the
/// range of the vertex depths' magnitude.
proof fn lemma_depth_bounded(t: Seq<ScreenPoint>, px: int, py: int)
    requires
        t.len() == 3,
        inside(t, px, py),
    ensures
        -DEPTH_BOUND <= depth_at(t, px, py) <= DEPTH_BOUND as int,
{
    let u = cross_u(t, px, py);
    let v = cross_v(t, px, py);
    let w = cross_w(t);
    let z0 = t[0].z as int;
    let z1 = t[1].z as int;
    let zb = DEPTH_BOUND as int;
    let (ww, uu, vv, num) = if w > 0 {
        (w, u, v, z0 * (w - u - v) + z1 * v)
    } else {
        (-w, -u, -v, -(z0 * (w - u - v) + z1 * v))
    };
    lemma_sign_product(u, w);
    lemma_sign_product(v, w);
    lemma_sign_product(w - u - v, w);
    assert(num == z0 * (ww - uu - vv) + z1 * vv) by (nonlinear_arith)
        requires
            (ww == w && uu == u && vv == v && num == z0 * (w - u - v) + z1 * v) || (ww == -w && uu
                == -u && vv == -v && num == -(z0 * (w - u - v) + z1 * v)),
    ;
    assert(-zb * ww <= num <= zb * ww) by (nonlinear_arith)
        requires
            num == z0 * (ww - uu - vv) + z1 * vv,
            ww > 0,
            uu >= 0,
            vv >= 0,
            ww - uu - vv >= 0,
            -zb <= z0 <= zb,
            -zb <= z1 <= zb,
    ;
    lemma_div_is_ordered(num, zb * ww, ww);
    lemma_div_by_multiple(zb, ww);
    lemma_div_is_ordered(-zb * ww, num, ww);
    lemma_fundamental_div_mod_converse(-zb * ww, ww, -zb, 0);
    assert(depth_at(t, px, py) == num / ww);
}

/// The interpolated depth of a pixel inside the triangle.
fn interpolate_depth(vertices: &[ScreenPoint; 3], b: Barycentric, px: i32, py: i32) -> (r: i64)
    requires
        b.u == cross_u(vertices@, px as int, py as int),
        b.v == cross_v(vertices@, px as int, py as int),
        b.w == cross_w(vertices@),
        -CROSS_BOUND <= b.u <= CROSS_BOUND,
        -CROSS_BOUND <= b.v <= CROSS_BOUND,
        -CROSS_BOUND <= b.w <= CROSS_BOUND,
        inside(vertices@, px as int, py as int),
    ensures
        r == depth_at(vertices@, px as int, py as int),
{
    let z0 = vertices[0].z as i128;
    let z1 = vertices[1].z as i128;
    let a = b.w - b.u - b.v;
    proof {
        lemma_mul_bound(z0 as int, a as int, DEPTH_BOUND as int, 3 * CROSS_BOUND);
        lemma_mul_bound(z1 as int, b.v as int, DEPTH_BOUND as int, CROSS_BOUND as int);
        lemma_depth_bounded(vertices@, px as int, py as int);
    }
    let num = z0 * a + z1 * b.v;
    let d = if b.w > 0 {
        floor_div(num, b.w)
    } else {
        floor_div(-num, -b.w)
    };
    d as i64
}

proof fn lemma_depth_index(x: int, y: int, width: int, height: int)
    requires
        0 <= x < width,
        0 <= y < height,
    ensures
        0 <= depth_index(x, y, width) < width * height,
        forall|x2: int, y2: int|
            0 <= x2 < width && 0 <= y2 < height && (x2 != x || y2 != y) ==> depth_index(x2, y2, width)
                != depth_index(x, y, width),
{
    assert(0 <= y * width + x < width * height) by (nonlinear_arith)
        requires
            0 <= x < width,
            0 <= y < height,
    ;
    assert forall|x2: int, y2: int|
        0 <= x2 < width && 0 <= y2 < height && (x2 != x || y2 != y) implies depth_index(x2, y2, width)
        != depth_index(x, y, width) by {
        if y2 < y {
            assert(y2 * width + width <= y * width) by (nonlinear_arith)
                requires
                    y2 + 1 <= y,
                    0 <= width,
            ;
        } else if y < y2 {
            assert(y * width + width <= y2 * width) by (nonlinear_arith)
                requires
                    y + 1 <= y2,
                    0 <= width,
            ;
        }
    }
}

/// Draws the triangle into `frame` with `color`, testing each covered pixel
/// against the depth buffer: a pixel is drawn, and its depth stored, only
/// when its interpolated depth is strictly greater than the stored one.
pub fn render_triangle(
    vertices: &[ScreenPoint; 3],
    frame: &mut [u8],
    zbuffer: &mut [i64],
    color: &[u8],
    width: usize,
    height: usize,
)
    requires
        frame_fits(old(frame)@, width as int, height as int),
        old(zbuffer)@.len() == width * height,
        color@.len() == 4,
    ensures
        renders(
            vertices@,
            old(frame)@,
            old(zbuffer)@,
            final(frame)@,
            final(zbuffer)@,
            width as int,
            height as int,
            color@,
        ),
{
    let ghost t = vertices@;
    let ghost f0 = frame@;
    let ghost z0 = zbuffer@;
    let ghost w = width as int;
    let ghost h = height as int;
    if width == 0 || height == 0 {
        return;
    }
    let flen: usize = frame.len();
    assert(w <= 4 * w * h <= usize::MAX) by (nonlinear_arith)
        requires
            w >= 1,
            h >= 1,
            4 * w * h == flen,
            flen <= usize::MAX,
    ;
    assert(4 * h <= 4 * w * h && 4 * w <= 4 * w * h && w * h <= 4 * w * h) by (nonlinear_arith)
        requires
            w >= 1,
            h >= 1,
    ;
    let xs = [vertices[0].x as i64, vertices[1].x as i64, vertices[2].x as i64];
    let ys = [vertices[0].y as i64, vertices[1].y as i64, vertices[2].y as i64];
    let lo_x = min_of3(xs[0], xs[1], xs[2]);
    let hi_x = max_of3(xs[0], xs[1], xs[2]);
    let lo_y = min_of3(ys[0], ys[1], ys[2]);
    let hi_y = max_of3(ys[0], ys[1], ys[2]);
    let min_x: i64 = if lo_x < 0 { 0 } else { lo_x };
    let min_y: i64 = if lo_y < 0 { 0 } else { lo_y };
    let max_x: i64 = if hi_x > width as i64 - 1 { width as i64 - 1 } else { hi_x };
    let max_y: i64 = if hi_y > height as i64 - 1 { height as i64 - 1 } else { hi_y };
    let mut i: i64 = min_x;
    while i <= max_x
        invariant
            t == vertices@,
            w == width as int,
            h == height as int,
            w >= 1,
            h >= 1,
            min_x <= i,
            i <= max_x + 1 || max_x < min_x,
            min_x == (if min3(t[0].x as int, t[1].x as int, t[2].x as int) < 0 { 0 } else { min3(t[0].x as int, t[1].x as int, t[2].x as int) }),
            max_x == (if max3(t[0].x as int, t[1].x as int, t[2].x as int) > w - 1 { w - 1 } else { max3(t[0].x as int, t[1].x as int, t[2].x as int) }),
            min_y == (if min3(t[0].y as int, t[1].y as int, t[2].y as int) < 0 { 0 } else { min3(t[0].y as int, t[1].y as int, t[2].y as int) }),
            max_y == (if max3(t[0].y as int, t[1].y as int, t[2].y as int) > h - 1 { h - 1 } else { max3(t[0].y as int, t[1].y as int, t[2].y as int) }),
            frame@.len() == f0.len(),
            zbuffer@.len() == z0.len(),
            frame_fits(f0, w, h),
            z0.len() == w * h,
            w * h <= 4 * w * h <= usize::MAX,
            color@.len() == 4,
            forall|x: int, y: int|
                0 <= x < w && 0 <= y < h ==> (#[trigger] pixel_at(frame@, x, y, w, h), zbuffer@[depth_index(x, y, w)] as int)
                    == if min_x <= x < i && min_y <= y <= max_y {
                    rendered(t, f0, z0, x, y, w, h, color@)
                } else {
                    (pixel_at(f0, x, y, w, h), z0[depth_index(x, y, w)] as int)
                },
        decreases max_x + 1 - i,
    {
        let mut j: i64 = min_y;
        while j <= max_y
            invariant
                t == vertices@,
                w == width as int,
                h == height as int,
                w >= 1,
                h >= 1,
                min_x <= i <= max_x,
                min_y <= j,
                j <= max_y + 1 || max_y < min_y,
                min_x == (if min3(t[0].x as int, t[1].x as int, t[2].x as int) < 0 { 0 } else { min3(t[0].x as int, t[1].x as int, t[2].x as int) }),
                max_x == (if max3(t[0].x as int, t[1].x as int, t[2].x as int) > w - 1 { w - 1 } else { max3(t[0].x as int, t[1].x as int, t[2].x as int) }),
                min_y == (if min3(t[0].y as int, t[1].y as int, t[2].y as int) < 0 { 0 } else { min3(t[0].y as int, t[1].y as int, t[2].y as int) }),
                max_y == (if max3(t[0].y as int, t[1].y as int, t[2].y as int) > h - 1 { h - 1 } else { max3(t[0].y as int, t[1].y as int, t[2].y as int) }),
                frame@.len() == f0.len(),
                zbuffer@.len() == z0.len(),
                frame_fits(f0, w, h),
                z0.len() == w * h,
                w * h <= 4 * w * h <= usize::MAX,
                color@.len() == 4,
                forall|x: int, y: int|
                    0 <= x < w && 0 <= y < h ==> (#[trigger] pixel_at(frame@, x, y, w, h), zbuffer@[depth_index(x, y, w)] as int)
                        == if (min_x <= x < i && min_y <= y <= max_y) || (x == i && min_y <= y < j) {
                        rendered(t, f0, z0, x, y, w, h, color@)
                    } else {
                        (pixel_at(f0, x, y, w, h), z0[depth_index(x, y, w)] as int)
                    },
            decreases max_y + 1 - j,
        {
            let px = i as i32;
            let py = j as i32;
            let ghost fb = frame@;
            let ghost zb = zbuffer@;
            proof {
                lemma_depth_index(i as int, j as int, w, h);
            }
            assert((j as int) * w <= depth_index(i as int, j as int, w) < w * h);
            let q: usize = (j as usize) * width + (i as usize);
            assert(pixel_at(fb, i as int, j as int, w, h) == pixel_at(f0, i as int, j as int, w, h));
            assert(zb[q as int] == z0[q as int]);
            assert(in_box(t, i as int, j as int, w, h));
            if point_inside(vertices, px, py) {
                let b = barycentric_coordinates(vertices, px, py);
                let d = interpolate_depth(vertices, b, px, py);
                if d > zbuffer[q] {
                    set_pixel(i as usize, j as usize, frame, color, width, height);
                    zbuffer[q] = d;
                    proof {
                        lemma_write_pixel(fb, i as int, j as int, w, h, color@);
                    }
                }
            }
            assert((pixel_at(frame@, i as int, j as int, w, h), zbuffer@[q as int] as int) == rendered(
                t,
                f0,
                z0,
                i as int,
                j as int,
                w,
                h,
                color@,
            ));
            assert forall|x: int, y: int|
                0 <= x < w && 0 <= y < h && (x != i || y != j) implies pixel_at(frame@, x, y, w, h)
                == pixel_at(fb, x, y, w, h) && zbuffer@[depth_index(x, y, w)] == zb[depth_index(x, y, w)] by {
                lemma_depth_index(i as int, j as int, w, h);
                assert(depth_index(x, y, w) != depth_index(i as int, j as int, w));
                lemma_depth_index(x, y, w, h);
            }
            assert forall|x: int, y: int|
                0 <= x < w && 0 <= y < h implies (#[trigger] pixel_at(frame@, x, y, w, h), zbuffer@[depth_index(x, y, w)] as int)
                    == if (min_x <= x < i && min_y <= y <= max_y) || (x == i && min_y <= y < j + 1) {
                    rendered(t, f0, z0, x, y, w, h, color@)
                } else {
                    (pixel_at(f0, x, y, w, h), z0[depth_index(x, y, w)] as int)
                } by {
                assert(pixel_at(fb, x, y, w, h) == pixel_at(fb, x, y, w, h));
            }
            j = j + 1;
        }
        i = i + 1;
    }
    assert forall|x: int, y: int|
        0 <= x < w && 0 <= y < h implies (#[trigger] pixel_at(frame@, x, y, w, h), zbuffer@[depth_index(x, y, w)] as int)
            == rendered(t, f0, z0, x, y, w, h, color@) by {
        assert(pixel_at(frame@, x, y, w, h) == pixel_at(frame@, x, y, w, h));
    }
}

/// A triangle whose three vertices are collinear covers no pixel.
pub proof fn lemma_collinear_covers_nothing(
    t: Seq<ScreenPoint>,
    px: int,
    py: int,
    width: int,
    height: int,
)
    requires
        t.len() == 3,
        (t[1].x - t[0].x) * (t[2].y - t[0].y) == (t[2].x - t[0].x) * (t[1].y - t[0].y),
    ensures
        !covers(t, px, py, width, height),
{
}

/// Two fragments of different depths offered to one pixel leave the same
/// colour and depth whichever comes first.
pub proof fn lemma_depth_test_commutes(
    pixel: Seq<u8>,
    stored: int,
    hit1: bool,
    d1: int,
    c1: Seq<u8>,
    hit2: bool,
    d2: int,
    c2: Seq<u8>,
)
    requires
        hit1 && hit2 ==> d1 != d2,
    ensures
        ({
            let a = depth_test(pixel, stored, hit1, d1, c1);
            let b = depth_test(pixel, stored, hit2, d2, c2);
            depth_test(a.0, a.1, hit2, d2, c2) == depth_test(b.0, b.1, hit1, d1, c1)
        }),
{
}

/// Rendering two triangles in either order gives the same frame and depth
/// buffer, provided that no pixel covered by both gets the same depth from
/// each: on every pixel the nearer triangle wins.
pub proof fn lemma_render_order_independent(
    t1: Seq<ScreenPoint>,
    c1: Seq<u8>,
    t2: Seq<ScreenPoint>,
    c2: Seq<u8>,
    frame: Seq<u8>,
    zbuf: Seq<i64>,
    f1: Seq<u8>,
    z1: Seq<i64>,
    f12: Seq<u8>,
    z12: Seq<i64>,
    f2: Seq<u8>,
    z2: Seq<i64>,
    f21: Seq<u8>,
    z21: Seq<i64>,
    width: int,
    height: int,
)
    requires
        frame_fits(frame, width, height),
        zbuf.len() == width * height,
        renders(t1, frame, zbuf, f1, z1, width, height, c1),
        renders(t2, f1, z1, f12, z12, width, height, c2),
        renders(t2, frame, zbuf, f2, z2, width, height, c2),
        renders(t1, f2, z2, f21, z21, width, height, c1),
        forall|x: int, y: int|
            0 <= x < width && 0 <= y < height && covers(t1, x, y, width, height) && covers(
                t2,
                x,
                y,
                width,
                height,
            ) ==> depth_at(t1, x, y) != depth_at(t2, x, y),
    ensures
        f12.len() == f21.len(),
        z12.len() == z21.len(),
        forall|x: int, y: int|
            0 <= x < width && 0 <= y < height ==> (#[trigger] pixel_at(f12, x, y, width, height)
                == pixel_at(f21, x, y, width, height) && z12[depth_index(x, y, width)]
                == z21[depth_index(x, y, width)]),
{
    assert forall|x: int, y: int| 0 <= x < width && 0 <= y < height implies (#[trigger] pixel_at(
        f12,
        x,
        y,
        width,
        height,
    ) == pixel_at(f21, x, y, width, height) && z12[depth_index(x, y, width)]
        == z21[depth_index(x, y, width)]) by {
        assert(pixel_at(f1, x, y, width, height) == pixel_at(f1, x, y, width, height));
        assert(pixel_at(f2, x, y, width, height) == pixel_at(f2, x, y, width, height));
        assert(pixel_at(f21, x, y, width, height) == pixel_at(f21, x, y, width, height));
        lemma_depth_index(x, y, width, height);
        lemma_depth_test_commutes(
            pixel_at(frame, x, y, width, height),
            zbuf[depth_index(x, y, width)] as int,
            covers(t1, x, y, width, height),
            depth_at(t1, x, y),
            c1,
            covers(t2, x, y, width, height),
            depth_at(t2, x, y),
            c2,
        );
    }
}

/// Resets every entry of the depth buffer to the farthest depth.
pub fn reset_depth(zbuffer: &mut [i64])
    ensures
        final(zbuffer)@.len() == old(zbuffer)@.len(),
        forall|i: int| 0 <= i < final(zbuffer)@.len() ==> #[trigger] final(zbuffer)@[i] == i64::MIN,
{
    let mut i: usize = 0;
    while i < zbuffer.len()
        invariant
            i <= zbuffer@.len(),
            zbuffer@.len() == old(zbuffer)@.len(),
            forall|j: int| 0 <= j < i ==> #[trigger] zbuffer@[j] == i64::MIN,
        decreases zbuffer@.len() - i,
    {
        zbuffer[i] = i64::MIN;
        i = i + 1;
    }
}

fn min_of3(a: i64, b: i64, c: i64) -> (r: i64)
    ensures
        r == min3(a as int, b as int, c as int),
{
    if a <= b && a <= c { a } else if b <= c { b } else { c }
}

fn max_of3(a: i64, b: i64, c: i64) -> (r: i64)
    ensures
        r == max3(a as int, b as int, c as int),
{
    if a >= b && a >= c { a } else if b >= c { b } else { c }
}

} // verus!

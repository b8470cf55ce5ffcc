//! Single-pixel-wide line drawing (integer Bresenham) and wireframe edges.
use vstd::prelude::*;
use crate::framebuf::{frame_fits, lemma_write_pixel, painted, pixel_at, set_pixel};
use vstd::arithmetic::div_mod::lemma_fundamental_div_mod_converse;

verus! {

/// The absolute value.
pub open spec fn abs(a: int) -> int {
    if a < 0 { -a } else { a }
}

/// The line is steep when it rises faster than it runs; it is then walked
/// along `y`.
pub open spec fn is_steep(x1: int, y1: int, x2: int, y2: int) -> bool {
    abs(x1 - x2) < abs(y1 - y2)
}

/// The endpoints in walking order `(a1, b1, a2, b2)`: transposed when the line
/// is steep, then ordered so that `a1 <= a2`.
pub open spec fn walk_ends(x1: int, y1: int, x2: int, y2: int) -> (int, int, int, int) {
    let (a1, b1, a2, b2) = if is_steep(x1, y1, x2, y2) {
        (y1, x1, y2, x2)
    } else {
        (x1, y1, x2, y2)
    };
    if a1 > a2 {
        (a2, b2, a1, b1)
    } else {
        (a1, b1, a2, b2)
    }
}

/// How far the minor coordinate has moved after `k` steps along the major
/// one: the error term doubles `|db|` per step and the minor coordinate moves
/// whenever the error exceeds `da`, which rounds `k * |db| / da` to the
/// nearest integer, halves rounding down.
pub open spec fn minor_offset(k: int, da: int, derror: int) -> int {
    (k * derror + da - 1) / (2 * da)
}

/// Whether the pixel `(px, py)` is among those drawn for the line from
/// `(x1, y1)` to `(x2, y2)` before the walk along the major axis reaches
/// `stop`. The final endpoint along the major axis is never drawn.
pub open spec fn on_line_before(x1: int, y1: int, x2: int, y2: int, px: int, py: int, stop: int) -> bool {
    let (a1, b1, a2, b2) = walk_ends(x1, y1, x2, y2);
    let da = a2 - a1;
    let derror = 2 * abs(b2 - b1);
    let m = minor_offset(qa_of(x1, y1, x2, y2, px, py) - a1, da, derror);
    let qa = qa_of(x1, y1, x2, y2, px, py);
    let qb = if is_steep(x1, y1, x2, y2) { px } else { py };
    a1 <= qa < stop && qa < a2 && qb == (if b2 > b1 { b1 + m } else { b1 - m })
}

/// The coordinate of `(px, py)` along the major axis.
pub open spec fn qa_of(x1: int, y1: int, x2: int, y2: int, px: int, py: int) -> int {
    if is_steep(x1, y1, x2, y2) { py } else { px }
}

/// Whether the pixel `(px, py)` is drawn for the line from `(x1, y1)` to
/// `(x2, y2)`.
pub open spec fn on_line(x1: int, y1: int, x2: int, y2: int, px: int, py: int) -> bool {
    on_line_before(x1, y1, x2, y2, px, py, walk_ends(x1, y1, x2, y2).2)
}

proof fn lemma_minor_offset(k: int, da: int, derror: int, s: int, e: int)
    requires
        da > 0,
        k >= 0,
        e == k * derror - 2 * da * s,
        -da < e <= da,
    ensures
        s == minor_offset(k, da, derror),
{
    let x = k * derror + da - 1;
    assert(x == s * (2 * da) + (e + da - 1)) by (nonlinear_arith)
        requires
            e == k * derror - 2 * da * s,
            x == k * derror + da - 1,
    ;
    lemma_fundamental_div_mod_converse(x, 2 * da, s, e + da - 1);
}

proof fn lemma_line_advance(x1: int, y1: int, x2: int, y2: int, px: int, py: int, a: int, b: int)
    requires
        walk_ends(x1, y1, x2, y2).0 <= a < walk_ends(x1, y1, x2, y2).2,
        ({
            let (a1, b1, a2, b2) = walk_ends(x1, y1, x2, y2);
            let m = minor_offset(a - a1, a2 - a1, 2 * abs(b2 - b1));
            b == (if b2 > b1 { b1 + m } else { b1 - m })
        }),
    ensures
        on_line_before(x1, y1, x2, y2, px, py, a + 1) == (on_line_before(x1, y1, x2, y2, px, py, a)
            || (if is_steep(x1, y1, x2, y2) { px == b && py == a } else { px == a && py == b })),
{
}

/// Draws the line from `(x1, y1)` to `(x2, y2)` in `color`, with no depth
/// test. Pixels that fall outside the image are skipped.
pub fn draw_line(
    x1: i32,
    y1: i32,
    x2: i32,
    y2: i32,
    frame: &mut [u8],
    color: &[u8],
    width: usize,
    height: usize,
)
    requires
        frame_fits(old(frame)@, width as int, height as int),
        color@.len() == 4,
    ensures
        painted(
            old(frame)@,
            final(frame)@,
            width as int,
            height as int,
            |px: int, py: int| on_line(x1 as int, y1 as int, x2 as int, y2 as int, px, py),
            color@,
        ),
{
    let ghost f0 = frame@;
    let ghost w = width as int;
    let ghost h = height as int;
    let mut a1 = x1 as i64;
    let mut b1 = y1 as i64;
    let mut a2 = x2 as i64;
    let mut b2 = y2 as i64;
    let ddx = if a1 > a2 { a1 - a2 } else { a2 - a1 };
    let ddy = if b1 > b2 { b1 - b2 } else { b2 - b1 };
    let steep = ddx < ddy;
    if steep {
        let t = a1;
        a1 = b1;
        b1 = t;
        let t = a2;
        a2 = b2;
        b2 = t;
    }
    if a1 > a2 {
        let t = a1;
        a1 = a2;
        a2 = t;
        let t = b1;
        b1 = b2;
        b2 = t;
    }
    assert(walk_ends(x1 as int, y1 as int, x2 as int, y2 as int) == (a1 as int, b1 as int, a2 as int, b2 as int));
    assert(-0x8000_0000 <= a1 < 0x8000_0000 && -0x8000_0000 <= a2 < 0x8000_0000);
    assert(-0x8000_0000 <= b1 < 0x8000_0000 && -0x8000_0000 <= b2 < 0x8000_0000);
    let da = a2 - a1;
    let db = b2 - b1;
    let adb: i64 = if db < 0 { -db } else { db };
    let derror: i64 = 2 * adb;
    let step: i64 = if b2 > b1 { 1 } else { -1 };
    let mut error: i64 = 0;
    let mut b = b1;
    let mut a = a1;
    let ghost mut s: int = 0;
    proof {
        if da > 0 {
            lemma_minor_offset(0, da as int, derror as int, 0, 0);
        }
    }
    while a < a2
        invariant
            f0 == old(frame)@,
            w == width as int,
            h == height as int,
            frame_fits(f0, w, h),
            frame@.len() == f0.len(),
            color@.len() == 4,
            walk_ends(x1 as int, y1 as int, x2 as int, y2 as int) == (a1 as int, b1 as int, a2 as int, b2 as int),
            steep == is_steep(x1 as int, y1 as int, x2 as int, y2 as int),
            da == a2 - a1,
            derror == 2 * abs(b2 - b1),
            derror <= 2 * da,
            step == (if b2 > b1 { 1int } else { -1int }),
            b2 == b1 ==> step == -1 && derror == 0,
            a1 <= a <= a2,
            da > 0 || a == a2,
            da > 0 ==> -da < error <= da,
            error == (a - a1) * derror - 2 * da * s,
            b == (if b2 > b1 { b1 + s } else { b1 - s }),
            da > 0 ==> s == minor_offset(a - a1, da as int, derror as int),
            0 <= s <= abs(b2 - b1),
            -0x8000_0000 <= a1 < 0x8000_0000 && -0x8000_0000 <= a2 < 0x8000_0000,
            -0x8000_0000 <= b1 < 0x8000_0000 && -0x8000_0000 <= b2 < 0x8000_0000,
            forall|px: int, py: int|
                0 <= px < w && 0 <= py < h ==> #[trigger] pixel_at(frame@, px, py, w, h) == if on_line_before(
                    x1 as int,
                    y1 as int,
                    x2 as int,
                    y2 as int,
                    px,
                    py,
                    a as int,
                ) {
                    color@
                } else {
                    pixel_at(f0, px, py, w, h)
                },
        decreases a2 - a,
    {
        let (cx, cy) = if steep { (b, a) } else { (a, b) };
        let ghost fb = frame@;
        if 0 <= cx && (cx as usize) < width && 0 <= cy && (cy as usize) < height {
            set_pixel(cx as usize, cy as usize, frame, color, width, height);
            proof {
                lemma_write_pixel(fb, cx as int, cy as int, w, h, color@);
            }
        }
        assert forall|px: int, py: int| 0 <= px < w && 0 <= py < h implies #[trigger] pixel_at(
            frame@,
            px,
            py,
            w,
            h,
        ) == if on_line_before(x1 as int, y1 as int, x2 as int, y2 as int, px, py, a + 1) {
            color@
        } else {
            pixel_at(f0, px, py, w, h)
        } by {
            assert(pixel_at(fb, px, py, w, h) == pixel_at(fb, px, py, w, h));
            lemma_line_advance(x1 as int, y1 as int, x2 as int, y2 as int, px, py, a as int, b as int);
            assert(pixel_at(fb, px, py, w, h) == if on_line_before(x1 as int, y1 as int, x2 as int, y2 as int, px, py, a as int) {
                color@
            } else {
                pixel_at(f0, px, py, w, h)
            });
            if px == cx && py == cy {
                assert(pixel_at(frame@, px, py, w, h) == color@);
            } else {
                assert(pixel_at(frame@, px, py, w, h) == pixel_at(fb, px, py, w, h));
            }
        }
        let ghost e0 = error;
        error = error + derror;
        let ghost k = a - a1;
        assert((k + 1) * derror == k * derror + derror) by (nonlinear_arith);
        if error > da {
            assert(s + 1 <= abs(b2 - b1)) by (nonlinear_arith)
                requires
                    e0 + derror > da,
                    e0 == k * derror - 2 * da * s,
                    k + 1 <= da,
                    derror == 2 * abs(b2 - b1),
                    da > 0,
            ;
            b = b + step;
            error = error - 2 * da;
            proof {
                s = s + 1;
            }
        }
        assert(error == (k + 1) * derror - 2 * da * s) by (nonlinear_arith)
            requires
                e0 == k * derror - 2 * da * (if error == e0 + derror { s } else { s - 1 }),
                error == e0 + derror || error == e0 + derror - 2 * da,
                (k + 1) * derror == k * derror + derror,
        ;
        proof {
            lemma_minor_offset(k + 1, da as int, derror as int, s, error as int);
            assert(2 * s <= derror) by (nonlinear_arith)
                requires
                    error == (k + 1) * derror - 2 * da * s,
                    -da < error,
                    k + 1 <= da,
                    derror >= 0,
                    da > 0,
            ;
        }
        a = a + 1;
    }
}

} // verus!

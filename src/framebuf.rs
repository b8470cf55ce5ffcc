//! Pixel writes over a flat RGBA frame buffer.
//!
//! The buffer holds `width * height` pixels of four bytes each, row after
//! row. The origin `(0, 0)` is the bottom-left pixel: row `y` of the image is
//! stored at row `height - 1 - y` of the buffer.
use vstd::prelude::*;

verus! {

/// Offset of the first byte of pixel `(x, y)` in the buffer.
pub open spec fn pixel_base(x: int, y: int, width: int, height: int) -> int {
    4 * ((height - 1 - y) * width + x)
}

/// Whether `frame` is a buffer of `width * height` four-byte pixels.
pub open spec fn frame_fits(frame: Seq<u8>, width: int, height: int) -> bool {
    frame.len() == 4 * width * height
}

/// The four bytes of pixel `(x, y)`.
pub open spec fn pixel_at(frame: Seq<u8>, x: int, y: int, width: int, height: int) -> Seq<u8> {
    frame.subrange(pixel_base(x, y, width, height), pixel_base(x, y, width, height) + 4)
}

/// `frame` with the four bytes starting at `base` replaced by `color`.
pub open spec fn write_at(frame: Seq<u8>, base: int, color: Seq<u8>) -> Seq<u8> {
    Seq::new(frame.len(), |i: int| if base <= i < base + 4 { color[i - base] } else { frame[i] })
}

/// `after` is `before` with every pixel for which `hit` holds set to `color`,
/// and every other pixel kept.
pub open spec fn painted(
    before: Seq<u8>,
    after: Seq<u8>,
    width: int,
    height: int,
    hit: spec_fn(int, int) -> bool,
    color: Seq<u8>,
) -> bool {
    &&& after.len() == before.len()
    &&& forall|x: int, y: int|
        0 <= x < width && 0 <= y < height ==> #[trigger] pixel_at(after, x, y, width, height) == (
        if hit(x, y) {
            color
        } else {
            pixel_at(before, x, y, width, height)
        })
}

/// A pixel inside the image starts at an offset that leaves room for its four
/// bytes.
pub proof fn lemma_pixel_in_frame(x: int, y: int, width: int, height: int)
    requires
        0 <= x < width,
        0 <= y < height,
    ensures
        0 <= pixel_base(x, y, width, height),
        pixel_base(x, y, width, height) + 4 <= 4 * width * height,
{
    assert(0 <= (height - 1 - y) * width) by (nonlinear_arith)
        requires
            0 <= height - 1 - y,
            0 <= width,
    ;
    assert(4 * ((height - 1 - y) * width + x) + 4 <= 4 * width * height) by (nonlinear_arith)
        requires
            0 <= y,
            y < height,
            0 <= x,
            x < width,
    ;
}

/// Two distinct pixels of the image own disjoint bytes.
pub proof fn lemma_pixels_disjoint(x1: int, y1: int, x2: int, y2: int, width: int, height: int)
    requires
        0 <= x1 < width,
        0 <= y1 < height,
        0 <= x2 < width,
        0 <= y2 < height,
        x1 != x2 || y1 != y2,
    ensures
        pixel_base(x1, y1, width, height) + 4 <= pixel_base(x2, y2, width, height)
            || pixel_base(x2, y2, width, height) + 4 <= pixel_base(x1, y1, width, height),
{
    let r1 = height - 1 - y1;
    let r2 = height - 1 - y2;
    if r1 < r2 {
        assert(r1 * width + width <= r2 * width) by (nonlinear_arith)
            requires
                r1 + 1 <= r2,
                0 <= width,
        ;
    } else if r2 < r1 {
        assert(r2 * width + width <= r1 * width) by (nonlinear_arith)
            requires
                r2 + 1 <= r1,
                0 <= width,
        ;
    }
}

/// Writing pixel `(x, y)` changes that pixel alone.
pub proof fn lemma_write_pixel(frame: Seq<u8>, x: int, y: int, width: int, height: int, color: Seq<u8>)
    requires
        0 <= x < width,
        0 <= y < height,
        frame_fits(frame, width, height),
        color.len() == 4,
    ensures
        frame_fits(write_at(frame, pixel_base(x, y, width, height), color), width, height),
        forall|x2: int, y2: int|
            0 <= x2 < width && 0 <= y2 < height ==> #[trigger] pixel_at(
                write_at(frame, pixel_base(x, y, width, height), color),
                x2,
                y2,
                width,
                height,
            ) == if x2 == x && y2 == y {
                color
            } else {
                pixel_at(frame, x2, y2, width, height)
            },
{
    let b = pixel_base(x, y, width, height);
    let f2 = write_at(frame, b, color);
    lemma_pixel_in_frame(x, y, width, height);
    assert forall|x2: int, y2: int| 0 <= x2 < width && 0 <= y2 < height implies #[trigger] pixel_at(
        f2,
        x2,
        y2,
        width,
        height,
    ) == if x2 == x && y2 == y {
        color
    } else {
        pixel_at(frame, x2, y2, width, height)
    } by {
        lemma_pixel_in_frame(x2, y2, width, height);
        if x2 == x && y2 == y {
            assert(pixel_at(f2, x2, y2, width, height) =~= color);
        } else {
            lemma_pixels_disjoint(x, y, x2, y2, width, height);
            assert(pixel_at(f2, x2, y2, width, height) =~= pixel_at(frame, x2, y2, width, height));
        }
    }
}

/// Sets pixel `(x, y)` to `color`; the origin is the bottom-left corner.
pub fn set_pixel(x: usize, y: usize, frame: &mut [u8], color: &[u8], width: usize, height: usize)
    requires
        x < width,
        y < height,
        frame_fits(old(frame)@, width as int, height as int),
        color@.len() == 4,
    ensures
        final(frame)@ == write_at(old(frame)@, pixel_base(x as int, y as int, width as int, height as int), color@),
{
    proof {
        lemma_pixel_in_frame(x as int, y as int, width as int, height as int);
    }
    let frame_len: usize = frame.len();
    assert((height - 1 - y) * width <= (height - 1 - y) * width + x);
    let row: usize = height - 1 - y;
    let si: usize = 4 * (row * width + x);
    assert(si + 4 <= frame_len);
    let mut k: usize = 0;
    while k < 4
        invariant
            k <= 4,
            si as int == pixel_base(x as int, y as int, width as int, height as int),
            si + 4 <= frame@.len(),
            color@.len() == 4,
            frame@.len() == old(frame)@.len(),
            forall|i: int| 0 <= i < frame@.len() ==> #[trigger] frame@[i] == (
                if si <= i < si + k { color@[i - si] } else { old(frame)@[i] }),
        decreases 4 - k,
    {
        frame[si + k] = color[k];
        k = k + 1;
    }
    assert(frame@ =~= write_at(old(frame)@, si as int, color@));
}

/// Writes `color` into every four-byte pixel slot of `frame`.
pub fn clear(frame: &mut [u8], color: &[u8])
    requires
        color@.len() == 4,
    ensures
        final(frame)@.len() == old(frame)@.len(),
        forall|i: int| 0 <= i < old(frame)@.len() - old(frame)@.len() % 4 ==> #[trigger] final(frame)@[i] == color@[i % 4],
        forall|i: int| old(frame)@.len() - old(frame)@.len() % 4 <= i < old(frame)@.len() ==> #[trigger] final(frame)@[i] == old(frame)@[i],
{
    let n: usize = frame.len() - frame.len() % 4;
    let mut i: usize = 0;
    while i < n
        invariant
            n == old(frame)@.len() - old(frame)@.len() % 4,
            i <= n,
            i % 4 == 0,
            color@.len() == 4,
            frame@.len() == old(frame)@.len(),
            forall|j: int| 0 <= j < i ==> #[trigger] frame@[j] == color@[j % 4],
            forall|j: int| i <= j < frame@.len() ==> #[trigger] frame@[j] == old(frame)@[j],
        decreases n - i,
    {
        frame[i] = color[0];
        frame[i + 1] = color[1];
        frame[i + 2] = color[2];
        frame[i + 3] = color[3];
        i = i + 4;
    }
}

} // verus!

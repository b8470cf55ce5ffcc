//! Drawing a mesh: each group's polygons as wireframe outlines or as
//! depth-tested flat fill, and a whole frame from a cleared buffer.
//!
//! Only the first three vertices of a polygon are used; a polygon with fewer
//! vertices, or one whose position indices fall outside the screen points,
//! is skipped.
use vstd::prelude::*;
use crate::framebuf::{clear, frame_fits, painted, pixel_at};
use crate::line::{draw_line, on_line};
use crate::obj::{GroupView, IndexTuple, Object, ObjectView, SimplePolygon};
use crate::raster::{covers, depth_at, depth_index, depth_test, render_triangle, reset_depth, ScreenPoint};
use crate::text::copy_range;

verus! {

/// The screen positions of a polygon's first three vertices.
pub open spec fn face_triangle(screen: Seq<ScreenPoint>, face: Seq<IndexTuple>) -> Option<Seq<ScreenPoint>> {
    if face.len() >= 3 && face[0].0 < screen.len() && face[1].0 < screen.len() && face[2].0 < screen.len() {
        Some(seq![screen[face[0].0 as int], screen[face[1].0 as int], screen[face[2].0 as int]])
    } else {
        None
    }
}

pub open spec fn polys_of(faces: Seq<SimplePolygon>) -> Seq<Seq<IndexTuple>> {
    faces.map_values(|p: SimplePolygon| p.0@)
}

/// Whether the outline of a polygon covers the pixel: the edges from vertex
/// 0 to 1 and from 1 to 2 are drawn, the closing edge is not.
pub open spec fn face_outline_hit(screen: Seq<ScreenPoint>, face: Seq<IndexTuple>, x: int, y: int) -> bool {
    match face_triangle(screen, face) {
        Some(t) => on_line(t[0].x as int, t[0].y as int, t[1].x as int, t[1].y as int, x, y) || on_line(
            t[1].x as int,
            t[1].y as int,
            t[2].x as int,
            t[2].y as int,
            x,
            y,
        ),
        None => false,
    }
}

/// Whether the outline of one of the first `k` polygons covers the pixel.
pub open spec fn outline_hit(screen: Seq<ScreenPoint>, faces: Seq<Seq<IndexTuple>>, k: int, x: int, y: int) -> bool {
    exists|f: int| 0 <= f < k && #[trigger] face_outline_hit(screen, faces[f], x, y)
}

proof fn lemma_painted_compose(
    a: Seq<u8>,
    b: Seq<u8>,
    c: Seq<u8>,
    w: int,
    h: int,
    p: spec_fn(int, int) -> bool,
    q: spec_fn(int, int) -> bool,
    r: spec_fn(int, int) -> bool,
    color: Seq<u8>,
)
    requires
        painted(a, b, w, h, p, color),
        painted(b, c, w, h, q, color),
        forall|x: int, y: int| #[trigger] r(x, y) == (p(x, y) || q(x, y)),
    ensures
        painted(a, c, w, h, r, color),
{
    assert forall|x: int, y: int| 0 <= x < w && 0 <= y < h implies #[trigger] pixel_at(c, x, y, w, h) == (
    if r(x, y) {
        color
    } else {
        pixel_at(a, x, y, w, h)
    }) by {
        assert(pixel_at(b, x, y, w, h) == pixel_at(b, x, y, w, h));
        assert(r(x, y) == (p(x, y) || q(x, y)));
    }
}

/// Draws the outline of every polygon with `color`, with no depth test.
pub fn draw_object_wireframe(
    screen: &Vec<ScreenPoint>,
    faces: &Vec<SimplePolygon>,
    frame: &mut [u8],
    color: &[u8],
    width: usize,
    height: usize,
)
    requires
        frame_fits(old(frame)@, width as int, height as int),
        color@.len() == 4,
    ensures
        painted(
            old(frame)@,
            final(frame)@,
            width as int,
            height as int,
            |x: int, y: int| outline_hit(screen@, polys_of(faces@), faces@.len() as int, x, y),
            color@,
        ),
{
    let ghost f0 = frame@;
    let ghost w = width as int;
    let ghost h = height as int;
    let ghost fs = polys_of(faces@);
    let mut k: usize = 0;
    assert(painted(f0, frame@, w, h, |x: int, y: int| outline_hit(screen@, fs, 0, x, y), color@)) by {
        assert forall|x: int, y: int| 0 <= x < w && 0 <= y < h implies #[trigger] pixel_at(frame@, x, y, w, h)
            == (if outline_hit(screen@, fs, 0, x, y) {
            color@
        } else {
            pixel_at(f0, x, y, w, h)
        }) by {}
    }
    while k < faces.len()
        invariant
            f0 == old(frame)@,
            w == width as int,
            h == height as int,
            fs == polys_of(faces@),
            frame_fits(f0, w, h),
            frame@.len() == f0.len(),
            color@.len() == 4,
            k <= faces@.len(),
            painted(f0, frame@, w, h, |x: int, y: int| outline_hit(screen@, fs, k as int, x, y), color@),
        decreases faces@.len() - k,
    {
        let face = &faces[k].0;
        assert(fs[k as int] == face@);
        let ghost fk = frame@;
        if face.len() >= 3 && face[0].0 < screen.len() && face[1].0 < screen.len() && face[2].0 < screen.len() {
            let p0 = screen[face[0].0];
            let p1 = screen[face[1].0];
            let p2 = screen[face[2].0];
            draw_line(p0.x, p0.y, p1.x, p1.y, frame, color, width, height);
            let ghost fk1 = frame@;
            draw_line(p1.x, p1.y, p2.x, p2.y, frame, color, width, height);
            proof {
                let e1 = |x: int, y: int| on_line(p0.x as int, p0.y as int, p1.x as int, p1.y as int, x, y);
                let e2 = |x: int, y: int| on_line(p1.x as int, p1.y as int, p2.x as int, p2.y as int, x, y);
                let both = |x: int, y: int| e1(x, y) || e2(x, y);
                lemma_painted_compose(fk, fk1, frame@, w, h, e1, e2, both, color@);
                let before = |x: int, y: int| outline_hit(screen@, fs, k as int, x, y);
                let after = |x: int, y: int| outline_hit(screen@, fs, k as int + 1, x, y);
                assert forall|x: int, y: int| #[trigger] after(x, y) == (before(x, y) || both(x, y)) by {
                    assert(face_outline_hit(screen@, fs[k as int], x, y) == both(x, y));
                    if after(x, y) {
                        let f = choose|f: int| 0 <= f < k + 1 && #[trigger] face_outline_hit(screen@, fs[f], x, y);
                        if f < k {
                            assert(before(x, y));
                        }
                    }
                    if before(x, y) {
                        let f = choose|f: int| 0 <= f < k && #[trigger] face_outline_hit(screen@, fs[f], x, y);
                        assert(0 <= f < k + 1 && face_outline_hit(screen@, fs[f], x, y));
                    }
                }
                lemma_painted_compose(f0, fk, frame@, w, h, before, both, after, color@);
            }
        } else {
            proof {
                assert(face_triangle(screen@, fs[k as int]) is None);
                let before = |x: int, y: int| outline_hit(screen@, fs, k as int, x, y);
                let after = |x: int, y: int| outline_hit(screen@, fs, k as int + 1, x, y);
                let none = |x: int, y: int| false;
                assert(painted(fk, frame@, w, h, none, color@)) by {
                    assert forall|x: int, y: int| 0 <= x < w && 0 <= y < h implies #[trigger] pixel_at(frame@, x, y, w, h)
                        == (if none(x, y) { color@ } else { pixel_at(fk, x, y, w, h) }) by {}
                }
                assert forall|x: int, y: int| #[trigger] after(x, y) == (before(x, y) || none(x, y)) by {
                    if after(x, y) {
                        let f = choose|f: int| 0 <= f < k + 1 && #[trigger] face_outline_hit(screen@, fs[f], x, y);
                        if f < k {
                            assert(before(x, y));
                        }
                    }
                    if before(x, y) {
                        let f = choose|f: int| 0 <= f < k && #[trigger] face_outline_hit(screen@, fs[f], x, y);
                        assert(0 <= f < k + 1 && face_outline_hit(screen@, fs[f], x, y));
                    }
                }
                lemma_painted_compose(f0, fk, frame@, w, h, before, none, after, color@);
            }
        }
        k = k + 1;
    }
}

/// The colour of a face lit with `intensity`: grey, opaque.
pub open spec fn shade(intensity: u8) -> Seq<u8> {
    seq![intensity, intensity, intensity, 255u8]
}

/// Colour and depth of pixel `(x, y)` after the first `k` polygons are
/// filled, each with its intensity; a polygon of intensity zero faces away
/// from the light and is culled.
pub open spec fn filled_pixel(
    screen: Seq<ScreenPoint>,
    faces: Seq<Seq<IndexTuple>>,
    intensities: Seq<u8>,
    frame: Seq<u8>,
    zbuf: Seq<i64>,
    x: int,
    y: int,
    w: int,
    h: int,
    k: int,
) -> (Seq<u8>, int)
    decreases k,
{
    if k <= 0 {
        (pixel_at(frame, x, y, w, h), zbuf[depth_index(x, y, w)] as int)
    } else {
        let prev = filled_pixel(screen, faces, intensities, frame, zbuf, x, y, w, h, k - 1);
        match face_triangle(screen, faces[k - 1]) {
            Some(t) => if intensities[k - 1] > 0 {
                depth_test(prev.0, prev.1, covers(t, x, y, w, h), depth_at(t, x, y), shade(intensities[k - 1]))
            } else {
                prev
            },
            None => prev,
        }
    }
}

/// Fills every polygon, in order, with its flat shade, testing each pixel
/// against the depth buffer.
pub fn rasterize_mesh(
    screen: &Vec<ScreenPoint>,
    faces: &Vec<SimplePolygon>,
    intensities: &Vec<u8>,
    frame: &mut [u8],
    zbuffer: &mut [i64],
    width: usize,
    height: usize,
)
    requires
        frame_fits(old(frame)@, width as int, height as int),
        old(zbuffer)@.len() == width * height,
        intensities@.len() == faces@.len(),
    ensures
        final(frame)@.len() == old(frame)@.len(),
        final(zbuffer)@.len() == old(zbuffer)@.len(),
        forall|x: int, y: int|
            0 <= x < width && 0 <= y < height ==> (#[trigger] pixel_at(final(frame)@, x, y, width as int, height as int),
                final(zbuffer)@[depth_index(x, y, width as int)] as int) == filled_pixel(
                screen@,
                polys_of(faces@),
                intensities@,
                old(frame)@,
                old(zbuffer)@,
                x,
                y,
                width as int,
                height as int,
                faces@.len() as int,
            ),
{
    let ghost f0 = frame@;
    let ghost z0 = zbuffer@;
    let ghost w = width as int;
    let ghost h = height as int;
    let ghost fs = polys_of(faces@);
    let mut k: usize = 0;
    while k < faces.len()
        invariant
            f0 == old(frame)@,
            z0 == old(zbuffer)@,
            w == width as int,
            h == height as int,
            fs == polys_of(faces@),
            intensities@.len() == faces@.len(),
            frame_fits(f0, w, h),
            z0.len() == w * h,
            frame@.len() == f0.len(),
            zbuffer@.len() == z0.len(),
            k <= faces@.len(),
            forall|x: int, y: int|
                0 <= x < w && 0 <= y < h ==> (#[trigger] pixel_at(frame@, x, y, w, h), zbuffer@[depth_index(x, y, w)] as int)
                    == filled_pixel(screen@, fs, intensities@, f0, z0, x, y, w, h, k as int),
        decreases faces@.len() - k,
    {
        let face = &faces[k].0;
        assert(fs[k as int] == face@);
        let ghost fk = frame@;
        let ghost zk = zbuffer@;
        let i = intensities[k];
        if i > 0 && face.len() >= 3 && face[0].0 < screen.len() && face[1].0 < screen.len() && face[2].0
            < screen.len() {
            let tri = [screen[face[0].0], screen[face[1].0], screen[face[2].0]];
            let color = [i, i, i, 255u8];
            assert(tri@ =~= face_triangle(screen@, fs[k as int]).unwrap());
            assert(color@ =~= shade(i));
            render_triangle(&tri, frame, zbuffer, &color, width, height);
            assert forall|x: int, y: int| 0 <= x < w && 0 <= y < h implies (#[trigger] pixel_at(frame@, x, y, w, h),
                zbuffer@[depth_index(x, y, w)] as int) == filled_pixel(screen@, fs, intensities@, f0, z0, x, y, w, h, k + 1) by {
                assert(pixel_at(fk, x, y, w, h) == pixel_at(fk, x, y, w, h));
            }
        } else {
            assert forall|x: int, y: int| 0 <= x < w && 0 <= y < h implies (#[trigger] pixel_at(frame@, x, y, w, h),
                zbuffer@[depth_index(x, y, w)] as int) == filled_pixel(screen@, fs, intensities@, f0, z0, x, y, w, h, k + 1) by {
                assert(pixel_at(fk, x, y, w, h) == pixel_at(fk, x, y, w, h));
            }
        }
        k = k + 1;
    }
}

/// The polygons of the groups, in order.
pub open spec fn group_faces(groups: Seq<GroupView>) -> Seq<Seq<IndexTuple>>
    decreases groups.len(),
{
    if groups.len() == 0 {
        seq![]
    } else {
        group_faces(groups.drop_last()) + groups.last().polys
    }
}

/// The polygons of every group of every object, in order.
pub open spec fn mesh_faces(objects: Seq<ObjectView>) -> Seq<Seq<IndexTuple>>
    decreases objects.len(),
{
    if objects.len() == 0 {
        seq![]
    } else {
        mesh_faces(objects.drop_last()) + group_faces(objects.last().groups)
    }
}

/// Filling `more` polygons after `done` ones, from the state that the
/// first `done` left, is filling all of them.
proof fn lemma_filled_append(
    screen: Seq<ScreenPoint>,
    faces: Seq<Seq<IndexTuple>>,
    more: Seq<Seq<IndexTuple>>,
    intensities: Seq<u8>,
    frame: Seq<u8>,
    zbuf: Seq<i64>,
    frame2: Seq<u8>,
    zbuf2: Seq<i64>,
    x: int,
    y: int,
    w: int,
    h: int,
    k: int,
)
    requires
        0 <= k <= more.len(),
        intensities.len() == faces.len() + more.len(),
        (pixel_at(frame2, x, y, w, h), zbuf2[depth_index(x, y, w)] as int) == filled_pixel(
            screen,
            faces,
            intensities.subrange(0, faces.len() as int),
            frame,
            zbuf,
            x,
            y,
            w,
            h,
            faces.len() as int,
        ),
    ensures
        filled_pixel(
            screen,
            more,
            intensities.subrange(faces.len() as int, intensities.len() as int),
            frame2,
            zbuf2,
            x,
            y,
            w,
            h,
            k,
        ) == filled_pixel(screen, faces + more, intensities, frame, zbuf, x, y, w, h, faces.len() + k),
    decreases k,
{
    let n = faces.len() as int;
    let all = faces + more;
    if k == 0 {
        lemma_filled_prefix(screen, all, faces, intensities, intensities.subrange(0, n), frame, zbuf, x, y, w, h, n);
    } else {
        lemma_filled_append(screen, faces, more, intensities, frame, zbuf, frame2, zbuf2, x, y, w, h, k - 1);
        assert(all[n + k - 1] == more[k - 1]);
        assert(intensities.subrange(n, intensities.len() as int)[k - 1] == intensities[n + k - 1]);
    }
}

/// Filling depends only on the first `k` polygons and intensities.
proof fn lemma_filled_prefix(
    screen: Seq<ScreenPoint>,
    faces: Seq<Seq<IndexTuple>>,
    faces2: Seq<Seq<IndexTuple>>,
    intensities: Seq<u8>,
    intensities2: Seq<u8>,
    frame: Seq<u8>,
    zbuf: Seq<i64>,
    x: int,
    y: int,
    w: int,
    h: int,
    k: int,
)
    requires
        0 <= k <= faces.len(),
        k <= faces2.len(),
        k <= intensities.len(),
        k <= intensities2.len(),
        forall|j: int| 0 <= j < k ==> faces[j] == faces2[j] && intensities[j] == intensities2[j],
    ensures
        filled_pixel(screen, faces, intensities, frame, zbuf, x, y, w, h, k) == filled_pixel(
            screen,
            faces2,
            intensities2,
            frame,
            zbuf,
            x,
            y,
            w,
            h,
            k,
        ),
    decreases k,
{
    if k > 0 {
        lemma_filled_prefix(screen, faces, faces2, intensities, intensities2, frame, zbuf, x, y, w, h, k - 1);
        assert(faces[k - 1] == faces2[k - 1] && intensities[k - 1] == intensities2[k - 1]);
    }
}

/// Settings of a render context.
pub struct RenderConfig {
    pub width: usize,
    pub height: usize,
    /// Outlines instead of depth-tested fill.
    pub is_wireframe: bool,
    /// The outline colour.
    pub default_color: [u8; 4],
}

/// A frame of `len` bytes cleared to `background`.
pub open spec fn cleared(len: int, background: Seq<u8>) -> Seq<u8> {
    Seq::new(len as nat, |i: int| background[i % 4])
}

/// A depth buffer of `len` entries at the farthest depth.
pub open spec fn far_depths(len: int) -> Seq<i64> {
    Seq::new(len as nat, |i: int| i64::MIN)
}

/// Draws one frame: clears the frame to `background` and the depth buffer,
/// then draws every group of every object, in order, either as outlines or
/// filled, each polygon with its intensity from `intensities` (one per
/// polygon, in drawing order).
pub fn render_object(
    objects: &Vec<Object>,
    screen: &Vec<ScreenPoint>,
    intensities: &Vec<u8>,
    config: &RenderConfig,
    background: &[u8],
    frame: &mut [u8],
    zbuffer: &mut [i64],
)
    requires
        frame_fits(old(frame)@, config.width as int, config.height as int),
        old(zbuffer)@.len() == config.width * config.height,
        background@.len() == 4,
        intensities@.len() == mesh_faces(objects@.map_values(|o: Object| o@)).len(),
    ensures
        final(frame)@.len() == old(frame)@.len(),
        final(zbuffer)@.len() == old(zbuffer)@.len(),
        config.is_wireframe ==> final(zbuffer)@ == far_depths(old(zbuffer)@.len() as int),
        config.is_wireframe ==> painted(
            cleared(old(frame)@.len() as int, background@),
            final(frame)@,
            config.width as int,
            config.height as int,
            |x: int, y: int|
                outline_hit(
                    screen@,
                    mesh_faces(objects@.map_values(|o: Object| o@)),
                    intensities@.len() as int,
                    x,
                    y,
                ),
            config.default_color@,
        ),
        !config.is_wireframe ==> forall|x: int, y: int|
            0 <= x < config.width && 0 <= y < config.height ==> (#[trigger] pixel_at(
                final(frame)@,
                x,
                y,
                config.width as int,
                config.height as int,
            ), final(zbuffer)@[depth_index(x, y, config.width as int)] as int) == filled_pixel(
                screen@,
                mesh_faces(objects@.map_values(|o: Object| o@)),
                intensities@,
                cleared(old(frame)@.len() as int, background@),
                far_depths(old(zbuffer)@.len() as int),
                x,
                y,
                config.width as int,
                config.height as int,
                intensities@.len() as int,
            ),
{
    let width = config.width;
    let height = config.height;
    let ghost w = width as int;
    let ghost h = height as int;
    let ghost ov = objects@.map_values(|o: Object| o@);
    let ghost all = mesh_faces(ov);
    let ghost color = config.default_color@;
    let ghost len0 = frame@.len() as int;
    assert(len0 == (w * h) * 4) by (nonlinear_arith)
        requires
            len0 == 4 * w * h,
    ;
    proof {
        vstd::arithmetic::div_mod::lemma_mod_multiples_basic(w * h, 4int);
    }
    clear(frame, background);
    reset_depth(zbuffer);
    assert(frame@ =~= cleared(frame@.len() as int, background@));
    assert(zbuffer@ =~= far_depths(zbuffer@.len() as int));
    let ghost f0 = frame@;
    let ghost z0 = zbuffer@;
    let mut base: usize = 0;
    let mut i: usize = 0;
    assert(painted(f0, frame@, w, h, |x: int, y: int| outline_hit(screen@, all, 0, x, y), color)) by {
        assert forall|x: int, y: int| 0 <= x < w && 0 <= y < h implies #[trigger] pixel_at(frame@, x, y, w, h)
            == (if outline_hit(screen@, all, 0, x, y) { color } else { pixel_at(f0, x, y, w, h) }) by {}
    }
    while i < objects.len()
        invariant
            w == width as int,
            h == height as int,
            width == config.width,
            height == config.height,
            ov == objects@.map_values(|o: Object| o@),
            all == mesh_faces(ov),
            color == config.default_color@,
            frame_fits(f0, w, h),
            z0.len() == w * h,
            z0 == far_depths(z0.len() as int),
            frame@.len() == f0.len(),
            zbuffer@.len() == z0.len(),
            intensities@.len() == all.len(),
            i <= objects@.len(),
            base <= all.len(),
            base as int == mesh_faces(ov.subrange(0, i as int)).len(),
            mesh_faces(ov.subrange(0, i as int)) == all.subrange(0, base as int),
            config.is_wireframe ==> zbuffer@ == z0,
            config.is_wireframe ==> painted(
                f0,
                frame@,
                w,
                h,
                |x: int, y: int| outline_hit(screen@, all, base as int, x, y),
                color,
            ),
            !config.is_wireframe ==> forall|x: int, y: int|
                0 <= x < w && 0 <= y < h ==> (#[trigger] pixel_at(frame@, x, y, w, h),
                    zbuffer@[depth_index(x, y, w)] as int) == filled_pixel(
                    screen@,
                    all,
                    intensities@,
                    f0,
                    z0,
                    x,
                    y,
                    w,
                    h,
                    base as int,
                ),
        decreases objects@.len() - i,
    {
        let ghost gs = ov[i as int].groups;
        assert(gs == objects@[i as int]@.groups);
        proof {
            lemma_mesh_faces_step(ov, i as int);
            lemma_mesh_faces_prefix(ov, i as int + 1);
        }
        let groups = &objects[i].groups;
        let ng = groups.len();
        let mut j: usize = 0;
        assert(gs.subrange(0, 0) =~= Seq::<GroupView>::empty());
        assert(mesh_faces(ov.subrange(0, i as int)) + group_faces(gs.subrange(0, 0)) =~= mesh_faces(
            ov.subrange(0, i as int),
        ));
        while j < ng
            invariant
                w == width as int,
                h == height as int,
                width == config.width,
                height == config.height,
                ov == objects@.map_values(|o: Object| o@),
                all == mesh_faces(ov),
                color == config.default_color@,
                frame_fits(f0, w, h),
                z0.len() == w * h,
                frame@.len() == f0.len(),
                zbuffer@.len() == z0.len(),
                intensities@.len() == all.len(),
                i < objects@.len(),
                gs == ov[i as int].groups,
                groups@ == objects@[i as int].groups@,
                ng == gs.len(),
                j <= ng,
                mesh_faces(ov.subrange(0, i as int + 1)) == mesh_faces(ov.subrange(0, i as int)) + group_faces(gs),
                mesh_faces(ov.subrange(0, i as int + 1)) == all.subrange(0, mesh_faces(ov.subrange(0, i as int + 1)).len() as int),
                mesh_faces(ov.subrange(0, i as int + 1)).len() <= all.len(),
                base as int == mesh_faces(ov.subrange(0, i as int)).len() + group_faces(gs.subrange(0, j as int)).len(),
                all.subrange(0, base as int) == mesh_faces(ov.subrange(0, i as int)) + group_faces(gs.subrange(0, j as int)),
                z0 == far_depths(z0.len() as int),
                config.is_wireframe ==> zbuffer@ == z0,
                config.is_wireframe ==> painted(
                    f0,
                    frame@,
                    w,
                    h,
                    |x: int, y: int| outline_hit(screen@, all, base as int, x, y),
                    color,
                ),
                !config.is_wireframe ==> forall|x: int, y: int|
                    0 <= x < w && 0 <= y < h ==> (#[trigger] pixel_at(frame@, x, y, w, h),
                        zbuffer@[depth_index(x, y, w)] as int) == filled_pixel(
                        screen@,
                        all,
                        intensities@,
                        f0,
                        z0,
                        x,
                        y,
                        w,
                        h,
                        base as int,
                    ),
            decreases ng - j,
        {
            let polys = &groups[j].polys;
            let n = polys.len();
            let total = intensities.len();
            let ghost more = gs[j as int].polys;
            assert(more == polys_of(polys@));
            proof {
                lemma_group_faces_step(gs, j as int);
                lemma_group_faces_prefix(gs, j as int + 1);
                let pre = mesh_faces(ov.subrange(0, i as int));
                let g0 = group_faces(gs.subrange(0, j as int));
                let g1 = group_faces(gs.subrange(0, j as int + 1));
                assert(g1 == g0 + more);
                assert(group_faces(gs) == g1 + group_faces(gs).subrange(g1.len() as int, group_faces(gs).len() as int)) by {
                    assert(group_faces(gs) =~= g1 + group_faces(gs).subrange(g1.len() as int, group_faces(gs).len() as int));
                }
                assert(g1.len() <= group_faces(gs).len());
                assert(base + n <= all.len());
                assert(all.subrange(0, base + n) =~= pre + g1);
                assert forall|k: int| 0 <= k < n implies all[base + k] == more[k] by {
                    assert(all[base + k] == all.subrange(0, base + n)[base + k]);
                    assert((pre + g1)[base + k] == g1[g0.len() + k]);
                }
                assert(all.subrange(base as int, base + n) =~= more);
            }
            assert(base + n <= total);
            let ghost fb = frame@;
            let ghost zb = zbuffer@;
            if config.is_wireframe {
                draw_object_wireframe(screen, polys, frame, &config.default_color, width, height);
                proof {
                    let before = |x: int, y: int| outline_hit(screen@, all, base as int, x, y);
                    let step = |x: int, y: int| outline_hit(screen@, more, n as int, x, y);
                    let after = |x: int, y: int| outline_hit(screen@, all, base + n, x, y);
                    assert forall|x: int, y: int| #[trigger] after(x, y) == (before(x, y) || step(x, y)) by {
                        if after(x, y) {
                            let f = choose|f: int| 0 <= f < base + n && #[trigger] face_outline_hit(screen@, all[f], x, y);
                            if f >= base {
                                assert(all[f] == more[f - base]);
                                assert(step(x, y));
                            } else {
                                assert(before(x, y));
                            }
                        }
                        if before(x, y) {
                            let f = choose|f: int| 0 <= f < base && #[trigger] face_outline_hit(screen@, all[f], x, y);
                            assert(0 <= f < base + n && face_outline_hit(screen@, all[f], x, y));
                        }
                        if step(x, y) {
                            let f = choose|f: int| 0 <= f < n && #[trigger] face_outline_hit(screen@, more[f], x, y);
                            assert(all[base + f] == more[f]);
                            assert(0 <= base + f < base + n && face_outline_hit(screen@, all[base + f], x, y));
                        }
                    }
                    lemma_painted_compose(f0, fb, frame@, w, h, before, step, after, color);
                }
            } else {
                let part = copy_range(intensities.as_slice(), base, base + n);
                rasterize_mesh(screen, polys, &part, frame, zbuffer, width, height);
                proof {
                    let pre = all.subrange(0, base as int);
                    let ints = intensities@.subrange(0, base + n);
                    assert(part@ =~= ints.subrange(base as int, ints.len() as int));
                    assert(pre + more =~= all.subrange(0, base + n));
                    assert forall|x: int, y: int| 0 <= x < w && 0 <= y < h implies (#[trigger] pixel_at(frame@, x, y, w, h),
                        zbuffer@[depth_index(x, y, w)] as int) == filled_pixel(
                        screen@,
                        all,
                        intensities@,
                        f0,
                        z0,
                        x,
                        y,
                        w,
                        h,
                        base + n,
                    ) by {
                        assert(pixel_at(fb, x, y, w, h) == pixel_at(fb, x, y, w, h));
                        lemma_filled_prefix(screen@, all, pre, intensities@, ints.subrange(0, base as int), f0, z0, x, y, w, h, base as int);
                        lemma_filled_append(screen@, pre, more, ints, f0, z0, fb, zb, x, y, w, h, n as int);
                        lemma_filled_prefix(screen@, all, pre + more, intensities@, ints, f0, z0, x, y, w, h, base + n);
                    }
                }
            }
            base = base + n;
            j = j + 1;
        }
        assert(gs.subrange(0, j as int) =~= gs);
        i = i + 1;
    }
    assert(ov.subrange(0, i as int) =~= ov);
    assert(all.subrange(0, base as int) =~= all);
}

proof fn lemma_mesh_faces_step(ov: Seq<ObjectView>, i: int)
    requires
        0 <= i < ov.len(),
    ensures
        mesh_faces(ov.subrange(0, i + 1)) == mesh_faces(ov.subrange(0, i)) + group_faces(ov[i].groups),
{
    assert(ov.subrange(0, i + 1).drop_last() =~= ov.subrange(0, i));
}

proof fn lemma_group_faces_step(gs: Seq<GroupView>, j: int)
    requires
        0 <= j < gs.len(),
    ensures
        group_faces(gs.subrange(0, j + 1)) == group_faces(gs.subrange(0, j)) + gs[j].polys,
{
    assert(gs.subrange(0, j + 1).drop_last() =~= gs.subrange(0, j));
}

/// The faces of the first `i` objects begin the faces of all of them.
proof fn lemma_mesh_faces_prefix(ov: Seq<ObjectView>, i: int)
    requires
        0 <= i <= ov.len(),
    ensures
        mesh_faces(ov.subrange(0, i)).len() <= mesh_faces(ov).len(),
        mesh_faces(ov.subrange(0, i)) == mesh_faces(ov).subrange(0, mesh_faces(ov.subrange(0, i)).len() as int),
    decreases ov.len() - i,
{
    if i == ov.len() {
        assert(ov.subrange(0, i) =~= ov);
        assert(mesh_faces(ov) =~= mesh_faces(ov).subrange(0, mesh_faces(ov).len() as int));
    } else {
        lemma_mesh_faces_prefix(ov, i + 1);
        lemma_mesh_faces_step(ov, i);
        let a = mesh_faces(ov.subrange(0, i));
        let b = mesh_faces(ov.subrange(0, i + 1));
        assert(a =~= b.subrange(0, a.len() as int));
        assert(a =~= mesh_faces(ov).subrange(0, a.len() as int));
    }
}

/// The faces of the first `j` groups begin the faces of all of them.
proof fn lemma_group_faces_prefix(gs: Seq<GroupView>, j: int)
    requires
        0 <= j <= gs.len(),
    ensures
        group_faces(gs.subrange(0, j)).len() <= group_faces(gs).len(),
        group_faces(gs.subrange(0, j)) == group_faces(gs).subrange(0, group_faces(gs.subrange(0, j)).len() as int),
    decreases gs.len() - j,
{
    if j == gs.len() {
        assert(gs.subrange(0, j) =~= gs);
        assert(group_faces(gs) =~= group_faces(gs).subrange(0, group_faces(gs).len() as int));
    } else {
        lemma_group_faces_prefix(gs, j + 1);
        lemma_group_faces_step(gs, j);
        let a = group_faces(gs.subrange(0, j));
        let b = group_faces(gs.subrange(0, j + 1));
        assert(a =~= b.subrange(0, a.len() as int));
        assert(a =~= group_faces(gs).subrange(0, a.len() as int));
    }
}

} // verus!

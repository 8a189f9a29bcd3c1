//! The live preview: a downscaled RGB copy of the current frame with the
//! tracked boxes outlined, encoded as JPEG.
use vstd::prelude::*;
use crate::grid::{lemma_pix_bound, lemma_pix_join, lemma_pix_split, pix, pix_chan, pix_col, pix_row};
use crate::resize::{lemma_sample_in_range, sample_at};
use crate::image_ops::min_int;
use crate::tracking::BBox;

verus! {

/// `a - b`, or 0 where it would be negative.
pub open spec fn sat_sub(a: int, b: int) -> int {
    if a >= b {
        a - b
    } else {
        0
    }
}

/// Row `py` is one of the horizontal edges drawn in stroke `t` of the outline
/// `[x1, x2) x [y1, y2)`, and column `px` lies under it.
pub open spec fn on_h_edge(py: int, px: int, x1: int, y1: int, x2: int, y2: int, t: int) -> bool {
    (py == y1 + t || py == sat_sub(sat_sub(y2, 1), t)) && x1 <= px < x2
}

/// Column `px` is one of the vertical edges drawn in stroke `t`, and row `py`
/// lies beside it.
pub open spec fn on_v_edge(py: int, px: int, x1: int, y1: int, x2: int, y2: int, t: int) -> bool {
    (px == x1 + t || px == sat_sub(sat_sub(x2, 1), t)) && y1 <= py < y2
}

/// Pixel (`px`, `py`) belongs to stroke `t` of the outline.
pub open spec fn on_stroke(py: int, px: int, x1: int, y1: int, x2: int, y2: int, t: int) -> bool {
    on_h_edge(py, px, x1, y1, x2, y2, t) || on_v_edge(py, px, x1, y1, x2, y2, t)
}

/// Pixel (`px`, `py`) belongs to one of the first `n` strokes of the outline.
pub open spec fn outlined(py: int, px: int, x1: int, y1: int, x2: int, y2: int, n: int) -> bool {
    exists|t: int| 0 <= t < n && #[trigger] on_stroke(py, px, x1, y1, x2, y2, t)
}

/// The `pw` x `ph` RGB image `buf` with the outline `[x1, x2) x [y1, y2)`,
/// `thickness` pixels wide (drawn inwards), painted in `color`. Bytes past the
/// image are kept.
pub open spec fn draw_rect_spec(
    buf: Seq<u8>,
    pw: int,
    ph: int,
    x1: int,
    y1: int,
    x2: int,
    y2: int,
    color: Seq<u8>,
    thickness: int,
) -> Seq<u8> {
    Seq::new(
        buf.len(),
        |k: int|
            if k < pw * ph * 3 && outlined(pix_row(k, pw), pix_col(k, pw), x1, y1, x2, y2, thickness) {
                color[pix_chan(k)]
            } else {
                buf[k]
            },
    )
}

/// What the frame holds while stroke `t` is being drawn: the strokes before
/// it, and the pixels that `done` says are already painted in stroke `t`.
spec fn drawn_so_far(
    old_buf: Seq<u8>,
    pw: int,
    ph: int,
    x1: int,
    y1: int,
    x2: int,
    y2: int,
    color: Seq<u8>,
    t: int,
    done: spec_fn(int, int) -> bool,
    k: int,
) -> u8 {
    if k < pw * ph * 3 && (outlined(pix_row(k, pw), pix_col(k, pw), x1, y1, x2, y2, t) || done(
        pix_row(k, pw),
        pix_col(k, pw),
    )) {
        color[pix_chan(k)]
    } else {
        old_buf[k]
    }
}

/// `buf` is `old_buf` with the strokes before `t` and the pixels in `done` painted.
spec fn drawn(
    buf: Seq<u8>,
    old_buf: Seq<u8>,
    pw: int,
    ph: int,
    x1: int,
    y1: int,
    x2: int,
    y2: int,
    color: Seq<u8>,
    t: int,
    done: spec_fn(int, int) -> bool,
) -> bool {
    &&& buf.len() == old_buf.len()
    &&& forall|k: int|
        0 <= k < old_buf.len() ==> #[trigger] buf[k] == drawn_so_far(
            old_buf,
            pw,
            ph,
            x1,
            y1,
            x2,
            y2,
            color,
            t,
            done,
            k,
        )
}

/// Every byte of a `pw` x `ph` image lies in a row below `ph`.
proof fn lemma_row_in_image(k: int, pw: int, ph: int)
    requires
        pw > 0,
        0 <= k < pw * ph * 3,
    ensures
        0 <= pix_row(k, pw) < ph,
        0 <= pix_col(k, pw) < pw,
{
    lemma_pix_join(k, pw);
    let r = pix_row(k, pw);
    if r >= ph {
        assert(pix(r, pix_col(k, pw), pix_chan(k), pw) >= ph * pw * 3) by (nonlinear_arith)
            requires
                r >= ph,
                pix_col(k, pw) >= 0,
                pix_chan(k) >= 0,
                pw >= 0,
        ;
        assert(ph * pw * 3 == pw * ph * 3) by (nonlinear_arith);
    }
}

/// Two sets of done pixels that agree inside the image describe the same frame.
proof fn lemma_same_inside(
    buf: Seq<u8>,
    old_buf: Seq<u8>,
    pw: int,
    ph: int,
    x1: int,
    y1: int,
    x2: int,
    y2: int,
    color: Seq<u8>,
    t: int,
    done: spec_fn(int, int) -> bool,
    done2: spec_fn(int, int) -> bool,
)
    requires
        pw > 0,
        drawn(buf, old_buf, pw, ph, x1, y1, x2, y2, color, t, done),
        forall|qy: int, qx: int|
            0 <= qy < ph && 0 <= qx < pw ==> (outlined(qy, qx, x1, y1, x2, y2, t) || #[trigger] done(qy, qx))
                == (outlined(qy, qx, x1, y1, x2, y2, t) || #[trigger] done2(qy, qx)),
    ensures
        drawn(buf, old_buf, pw, ph, x1, y1, x2, y2, color, t, done2),
{
    assert forall|k: int| 0 <= k < old_buf.len() implies #[trigger] buf[k] == drawn_so_far(
        old_buf,
        pw,
        ph,
        x1,
        y1,
        x2,
        y2,
        color,
        t,
        done2,
        k,
    ) by {
        assert(buf[k] == drawn_so_far(old_buf, pw, ph, x1, y1, x2, y2, color, t, done, k));
        if 0 <= k < pw * ph * 3 {
            lemma_row_in_image(k, pw, ph);
        }
    }
}

/// Painting pixel (`px`, `py`) adds it to the done set.
proof fn lemma_paint_step(
    before: Seq<u8>,
    after: Seq<u8>,
    old_buf: Seq<u8>,
    pw: int,
    ph: int,
    x1: int,
    y1: int,
    x2: int,
    y2: int,
    color: Seq<u8>,
    t: int,
    done: spec_fn(int, int) -> bool,
    done2: spec_fn(int, int) -> bool,
    py: int,
    px: int,
)
    requires
        pw > 0,
        0 <= py < ph,
        0 <= px < pw,
        color.len() == 3,
        pw * ph * 3 <= old_buf.len(),
        drawn(before, old_buf, pw, ph, x1, y1, x2, y2, color, t, done),
        after.len() == old_buf.len(),
        forall|c: int| 0 <= c < 3 ==> #[trigger] after[pix(py, px, c, pw)] == color[c],
        forall|k: int|
            0 <= k < old_buf.len() && !(pix(py, px, 0, pw) <= k < pix(py, px, 0, pw) + 3) ==> after[k]
                == before[k],
        forall|qy: int, qx: int| #[trigger] done2(qy, qx) == (done(qy, qx) || (qy == py && qx == px)),
    ensures
        drawn(after, old_buf, pw, ph, x1, y1, x2, y2, color, t, done2),
{
    assert forall|k: int| 0 <= k < old_buf.len() implies #[trigger] after[k] == drawn_so_far(
        old_buf,
        pw,
        ph,
        x1,
        y1,
        x2,
        y2,
        color,
        t,
        done2,
        k,
    ) by {
        lemma_pix_join(k, pw);
        lemma_pix_bound(py, px, 2, pw, ph);
        assert(ph * pw * 3 == pw * ph * 3) by (nonlinear_arith);
        let kr = pix_row(k, pw);
        let kc = pix_col(k, pw);
        if pix(py, px, 0, pw) <= k < pix(py, px, 0, pw) + 3 {
            let c = k - pix(py, px, 0, pw);
            lemma_pix_split(py, px, c, pw);
            assert(k == pix(py, px, c, pw));
            assert(after[pix(py, px, c, pw)] == color[c]);
        } else {
            assert(after[k] == before[k]);
            if kr == py && kc == px {
                assert(k == pix(py, px, pix_chan(k), pw));
            }
        }
    }
}

/// Writes `color` into pixel (`px`, `py`) of the `pw`-wide image `buf`.
fn paint(buf: &mut [u8], pw: usize, px: usize, py: usize, color: [u8; 3], Ghost(ph): Ghost<int>)
    requires
        pw > 0,
        py < ph,
        px < pw,
        pw * ph * 3 <= old(buf)@.len(),
    ensures
        final(buf)@.len() == old(buf)@.len(),
        forall|c: int| 0 <= c < 3 ==> #[trigger] final(buf)@[pix(py as int, px as int, c, pw as int)] == color@[c],
        forall|k: int|
            0 <= k < old(buf)@.len() && !(pix(py as int, px as int, 0, pw as int) <= k < pix(
                py as int,
                px as int,
                0,
                pw as int,
            ) + 3) ==> final(buf)@[k] == old(buf)@[k],
{
    proof {
        lemma_pix_bound(py as int, px as int, 2, pw as int, ph);
        assert(ph * pw * 3 == pw * ph * 3) by (nonlinear_arith);
        assert(buf@.len() == buf.len());
    }
    let i = (py * pw + px) * 3;
    buf[i] = color[0];
    buf[i + 1] = color[1];
    buf[i + 2] = color[2];
}

/// One stroke finished: the outline now has `t + 1` strokes.
proof fn lemma_stroke_done(
    buf: Seq<u8>,
    old_buf: Seq<u8>,
    pw: int,
    ph: int,
    x1: int,
    y1: int,
    x2: int,
    y2: int,
    color: Seq<u8>,
    t: int,
    done: spec_fn(int, int) -> bool,
)
    requires
        pw > 0,
        t >= 0,
        drawn(buf, old_buf, pw, ph, x1, y1, x2, y2, color, t, done),
        forall|qy: int, qx: int|
            0 <= qy < ph && 0 <= qx < pw ==> #[trigger] done(qy, qx) == on_stroke(qy, qx, x1, y1, x2, y2, t),
    ensures
        drawn(buf, old_buf, pw, ph, x1, y1, x2, y2, color, t + 1, |qy: int, qx: int| false),
{
    assert forall|k: int| 0 <= k < old_buf.len() implies #[trigger] buf[k] == drawn_so_far(
        old_buf,
        pw,
        ph,
        x1,
        y1,
        x2,
        y2,
        color,
        t + 1,
        |qy: int, qx: int| false,
        k,
    ) by {
        assert(buf[k] == drawn_so_far(old_buf, pw, ph, x1, y1, x2, y2, color, t, done, k));
        if 0 <= k < pw * ph * 3 {
            lemma_row_in_image(k, pw, ph);
            let qy = pix_row(k, pw);
            let qx = pix_col(k, pw);
            if outlined(qy, qx, x1, y1, x2, y2, t + 1) {
                let w = choose|w: int| 0 <= w < t + 1 && #[trigger] on_stroke(qy, qx, x1, y1, x2, y2, w);
                if w < t {
                    assert(outlined(qy, qx, x1, y1, x2, y2, t));
                } else {
                    assert(done(qy, qx));
                }
            }
            if outlined(qy, qx, x1, y1, x2, y2, t) {
                let w = choose|w: int| 0 <= w < t && #[trigger] on_stroke(qy, qx, x1, y1, x2, y2, w);
                assert(outlined(qy, qx, x1, y1, x2, y2, t + 1));
            }
            if done(qy, qx) {
                assert(on_stroke(qy, qx, x1, y1, x2, y2, t));
                assert(outlined(qy, qx, x1, y1, x2, y2, t + 1));
            }
        }
    }
}

/// Draws the outline of `[x1, x2) x [y1, y2)`, `thickness` pixels wide, into
/// the `pw` x `ph` RGB image `buf`; the parts outside the image are skipped.
/// The bottom and right edges count back from `y2 - 1` and `x2 - 1`, stopping
/// at 0.
pub fn draw_rect_rgb(
    buf: &mut [u8],
    pw: usize,
    ph: usize,
    x1: usize,
    y1: usize,
    x2: usize,
    y2: usize,
    color: [u8; 3],
    thickness: usize,
)
    requires
        pw * ph * 3 <= old(buf)@.len(),
    ensures
        final(buf)@ == draw_rect_spec(
            old(buf)@,
            pw as int,
            ph as int,
            x1 as int,
            y1 as int,
            x2 as int,
            y2 as int,
            color@,
            thickness as int,
        ),
{
    let ghost b0 = buf@;
    let ghost col = color@;
    let ghost (gx1, gy1, gx2, gy2) = (x1 as int, y1 as int, x2 as int, y2 as int);
    let ghost gpw = pw as int;
    let ghost gph = ph as int;
    if pw == 0 {
        assert(buf@ =~= draw_rect_spec(b0, gpw, gph, gx1, gy1, gx2, gy2, col, thickness as int));
        return;
    }
    let mut t: usize = 0;
    while t < thickness
        invariant
            pw > 0,
            gpw == pw as int,
            gph == ph as int,
            pw * ph * 3 <= b0.len(),
            col == color@,
            col.len() == 3,
            gx1 == x1 as int,
            gy1 == y1 as int,
            gx2 == x2 as int,
            gy2 == y2 as int,
            t <= thickness,
            drawn(buf@, b0, gpw, gph, gx1, gy1, gx2, gy2, col, t as int, |qy: int, qx: int| false),
        decreases thickness - t,
    {
        let top = y1.saturating_add(t);
        let bottom = y2.saturating_sub(1).saturating_sub(t);
        let left = x1.saturating_add(t);
        let right = x2.saturating_sub(1).saturating_sub(t);
        let ghost ti = t as int;
        proof {
            lemma_same_inside(
                buf@,
                b0,
                gpw,
                gph,
                gx1,
                gy1,
                gx2,
                gy2,
                col,
                ti,
                |qy: int, qx: int| false,
                |qy: int, qx: int| on_h_edge(qy, qx, gx1, gy1, gx2, gy2, ti) && qx < x1,
            );
        }
        let xe = x2.min(pw);
        let mut x: usize = x1;
        while x < xe
            invariant
                pw > 0,
                gpw == pw as int,
                gph == ph as int,
                pw * ph * 3 <= b0.len(),
                col == color@,
                col.len() == 3,
                gx1 == x1 as int,
                gy1 == y1 as int,
                gx2 == x2 as int,
                gy2 == y2 as int,
                ti == t as int,
                t < thickness,
                top as int == (if y1 + t <= usize::MAX { y1 + t } else { usize::MAX as int }),
                bottom as int == sat_sub(sat_sub(gy2, 1), ti),
                xe <= pw,
                xe <= x2,
                x1 <= x,
                drawn(
                    buf@,
                    b0,
                    gpw,
                    gph,
                    gx1,
                    gy1,
                    gx2,
                    gy2,
                    col,
                    ti,
                    |qy: int, qx: int| on_h_edge(qy, qx, gx1, gy1, gx2, gy2, ti) && qx < x,
                ),
            decreases xe - x,
        {
            let ghost done = |qy: int, qx: int| on_h_edge(qy, qx, gx1, gy1, gx2, gy2, ti) && qx < x;
            let ghost done_top = |qy: int, qx: int| done(qy, qx) || (qy == top && qx == x);
            let ghost done_both = |qy: int, qx: int| done_top(qy, qx) || (qy == bottom && qx == x);
            if top < ph {
                let ghost before = buf@;
                paint(buf, pw, x, top, color, Ghost(gph));
                proof {
                    lemma_paint_step(before, buf@, b0, gpw, gph, gx1, gy1, gx2, gy2, col, ti, done, done_top, top as int, x as int);
                }
            } else {
                proof {
                    lemma_same_inside(buf@, b0, gpw, gph, gx1, gy1, gx2, gy2, col, ti, done, done_top);
                }
            }
            if bottom < ph && bottom != top {
                let ghost before = buf@;
                paint(buf, pw, x, bottom, color, Ghost(gph));
                proof {
                    lemma_paint_step(before, buf@, b0, gpw, gph, gx1, gy1, gx2, gy2, col, ti, done_top, done_both, bottom as int, x as int);
                }
            } else {
                proof {
                    lemma_same_inside(buf@, b0, gpw, gph, gx1, gy1, gx2, gy2, col, ti, done_top, done_both);
                }
            }
            x = x + 1;
            proof {
                lemma_same_inside(
                    buf@,
                    b0,
                    gpw,
                    gph,
                    gx1,
                    gy1,
                    gx2,
                    gy2,
                    col,
                    ti,
                    done_both,
                    |qy: int, qx: int| on_h_edge(qy, qx, gx1, gy1, gx2, gy2, ti) && qx < x,
                );
            }
        }
        proof {
            lemma_same_inside(
                buf@,
                b0,
                gpw,
                gph,
                gx1,
                gy1,
                gx2,
                gy2,
                col,
                ti,
                |qy: int, qx: int| on_h_edge(qy, qx, gx1, gy1, gx2, gy2, ti) && qx < x,
                |qy: int, qx: int| on_h_edge(qy, qx, gx1, gy1, gx2, gy2, ti) || (on_v_edge(qy, qx, gx1, gy1, gx2, gy2, ti) && qy < y1),
            );
        }
        let ye = y2.min(ph);
        let mut y: usize = y1;
        while y < ye
            invariant
                pw > 0,
                gpw == pw as int,
                gph == ph as int,
                pw * ph * 3 <= b0.len(),
                col == color@,
                col.len() == 3,
                gx1 == x1 as int,
                gy1 == y1 as int,
                gx2 == x2 as int,
                gy2 == y2 as int,
                ti == t as int,
                t < thickness,
                left as int == (if x1 + t <= usize::MAX { x1 + t } else { usize::MAX as int }),
                right as int == sat_sub(sat_sub(gx2, 1), ti),
                ye <= ph,
                ye <= y2,
                y1 <= y,
                drawn(
                    buf@,
                    b0,
                    gpw,
                    gph,
                    gx1,
                    gy1,
                    gx2,
                    gy2,
                    col,
                    ti,
                    |qy: int, qx: int| on_h_edge(qy, qx, gx1, gy1, gx2, gy2, ti) || (on_v_edge(qy, qx, gx1, gy1, gx2, gy2, ti) && qy < y),
                ),
            decreases ye - y,
        {
            let ghost done = |qy: int, qx: int| on_h_edge(qy, qx, gx1, gy1, gx2, gy2, ti) || (on_v_edge(qy, qx, gx1, gy1, gx2, gy2, ti) && qy < y);
            let ghost done_l = |qy: int, qx: int| done(qy, qx) || (qy == y && qx == left);
            let ghost done_r = |qy: int, qx: int| done_l(qy, qx) || (qy == y && qx == right);
            if left < pw {
                let ghost before = buf@;
                paint(buf, pw, left, y, color, Ghost(gph));
                proof {
                    lemma_paint_step(before, buf@, b0, gpw, gph, gx1, gy1, gx2, gy2, col, ti, done, done_l, y as int, left as int);
                }
            } else {
                proof {
                    lemma_same_inside(buf@, b0, gpw, gph, gx1, gy1, gx2, gy2, col, ti, done, done_l);
                }
            }
            if right < pw && right != left {
                let ghost before = buf@;
                paint(buf, pw, right, y, color, Ghost(gph));
                proof {
                    lemma_paint_step(before, buf@, b0, gpw, gph, gx1, gy1, gx2, gy2, col, ti, done_l, done_r, y as int, right as int);
                }
            } else {
                proof {
                    lemma_same_inside(buf@, b0, gpw, gph, gx1, gy1, gx2, gy2, col, ti, done_l, done_r);
                }
            }
            y = y + 1;
            proof {
                lemma_same_inside(
                    buf@,
                    b0,
                    gpw,
                    gph,
                    gx1,
                    gy1,
                    gx2,
                    gy2,
                    col,
                    ti,
                    done_r,
                    |qy: int, qx: int| on_h_edge(qy, qx, gx1, gy1, gx2, gy2, ti) || (on_v_edge(qy, qx, gx1, gy1, gx2, gy2, ti) && qy < y),
                );
            }
        }
        proof {
            let ghost fin = |qy: int, qx: int| on_h_edge(qy, qx, gx1, gy1, gx2, gy2, ti) || (on_v_edge(qy, qx, gx1, gy1, gx2, gy2, ti) && qy < y);
            lemma_stroke_done(buf@, b0, gpw, gph, gx1, gy1, gx2, gy2, col, ti, fin);
        }
        t = t + 1;
    }
    assert(buf@ =~= draw_rect_spec(b0, gpw, gph, gx1, gy1, gx2, gy2, col, thickness as int));
}

/// The JPEG encoding of the `width` x `height` RGB image `rgb` at `quality`,
/// as `image`'s `JpegEncoder` writes it.
pub uninterp spec fn jpeg_rgb(rgb: Seq<u8>, width: u32, height: u32, quality: u8) -> Seq<u8>;

/// `image::codecs::jpeg::JpegEncoder::new_with_quality(..).encode(..)` with
/// `ColorType::Rgb8` into a fresh buffer, which is returned whether or not
/// encoding succeeded (it fails only for sides above 65535, after the
/// header has been written). The bytes are named `jpeg_rgb`; what is
/// stated of them is that they start with the JPEG start-of-image marker,
/// which the encoder writes first. `encode` panics unless the buffer holds
/// exactly `width * height * 3` bytes.
#[verifier::external_body]
fn encode_jpeg_rgb(rgb: &[u8], width: u32, height: u32, quality: u8) -> (out: Vec<u8>)
    requires
        rgb@.len() == width * height * 3,
    ensures
        out@ == jpeg_rgb(rgb@, width, height, quality),
        out@.len() >= 2,
        out@[0] == 0xFF,
        out@[1] == 0xD8,
{
    let mut out = Vec::new();
    let _ = image::codecs::jpeg::JpegEncoder::new_with_quality(&mut out, quality).encode(
        rgb,
        width,
        height,
        image::ColorType::Rgb8,
    );
    out
}

/// The preview size for a `fw` x `fh` frame: at most 960 pixels wide,
/// keeping the aspect ratio, and at least 1 x 1.
pub open spec fn preview_size_spec(fw: int, fh: int) -> (int, int) {
    if fw > 960 {
        (960, if fh * 960 / fw >= 1 { fh * 960 / fw } else { 1 })
    } else {
        (if fw >= 1 { fw } else { 1 }, if fh >= 1 { fh } else { 1 })
    }
}

/// The preview size for a `fw` x `fh` frame.
pub fn preview_size(fw: usize, fh: usize) -> (r: (usize, usize))
    requires
        fh * 960 <= usize::MAX,
    ensures
        (r.0 as int, r.1 as int) == preview_size_spec(fw as int, fh as int),
{
    if fw > 960 {
        (960, (fh * 960 / fw).max(1))
    } else {
        (fw.max(1), fh.max(1))
    }
}

/// The `pw` x `ph` RGB copy of the `fw` x `fh` BGR frame, nearest neighbour.
pub open spec fn preview_raster(frame: Seq<u8>, fw: int, fh: int, pw: int, ph: int) -> Seq<u8> {
    Seq::new(
        (pw * ph * 3) as nat,
        |k: int| frame[pix(sample_at(pix_row(k, pw), fh, ph), sample_at(pix_col(k, pw), fw, pw), 2 - pix_chan(k), fw)],
    )
}

/// The image after drawing the outlines of `boxes`, in order, each 2 pixels
/// wide in `color`.
pub open spec fn draw_boxes_spec(buf: Seq<u8>, pw: int, ph: int, boxes: Seq<BBox>, color: Seq<u8>) -> Seq<u8>
    decreases boxes.len(),
{
    if boxes.len() == 0 {
        buf
    } else {
        let b = boxes.last();
        draw_rect_spec(
            draw_boxes_spec(buf, pw, ph, boxes.drop_last(), color),
            pw,
            ph,
            b.x as int,
            b.y as int,
            b.x2 as int,
            b.y2 as int,
            color,
            2,
        )
    }
}

/// Outline colour of faces in the preview.
pub open spec fn face_color() -> Seq<u8> {
    seq![255u8, 60u8, 60u8]
}

/// Outline colour of plates in the preview.
pub open spec fn plate_color() -> Seq<u8> {
    seq![255u8, 200u8, 0u8]
}

/// The preview image of a frame before encoding.
pub open spec fn preview_image(frame: Seq<u8>, fw: int, fh: int, faces: Seq<BBox>, plates: Seq<BBox>) -> Seq<u8> {
    let (pw, ph) = preview_size_spec(fw, fh);
    draw_boxes_spec(
        draw_boxes_spec(preview_raster(frame, fw, fh, pw, ph), pw, ph, faces, face_color()),
        pw,
        ph,
        plates,
        plate_color(),
    )
}

/// Sizes for which the preview can be computed: a non-empty frame held in
/// `len` bytes whose sampling arithmetic fits in a `usize` and whose preview
/// sides fit in a `u32`.
pub open spec fn preview_fits(len: int, fw: int, fh: int) -> bool {
    let (pw, ph) = preview_size_spec(fw, fh);
    &&& fw > 0
    &&& fh > 0
    &&& fw * fh * 3 <= len
    &&& fh * 960 <= usize::MAX
    &&& ph * fh <= usize::MAX
    &&& pw * fw <= usize::MAX
    &&& pw * ph * 3 <= usize::MAX
    &&& ph <= u32::MAX
}

proof fn lemma_preview_dims(fw: int, fh: int)
    requires
        fw > 0,
        fh > 0,
    ensures
        ({
            let (pw, ph) = preview_size_spec(fw, fh);
            &&& 1 <= pw <= fw
            &&& 1 <= ph <= fh
            &&& pw <= 960
        }),
{
    if fw > 960 {
        assert(fh * 960 <= fh * fw) by (nonlinear_arith)
            requires
                fw > 960,
                fh > 0,
        ;
        vstd::arithmetic::div_mod::lemma_div_is_ordered(fh * 960, fh * fw, fw);
        vstd::arithmetic::div_mod::lemma_div_multiples_vanish(fh, fw);
        assert(fh * fw == fw * fh) by (nonlinear_arith);
    }
}

/// The pixel of a `w`-wide buffer at row `py`, column `px` holds the colour
/// (`c0`, `c1`, `c2`), in the buffer's channel order.
pub open spec fn pixel_is(buf: Seq<u8>, py: int, px: int, w: int, c0: u8, c1: u8, c2: u8) -> bool {
    &&& buf[pix(py, px, 0, w)] == c0
    &&& buf[pix(py, px, 1, w)] == c1
    &&& buf[pix(py, px, 2, w)] == c2
}

/// The preview shows the frame in RGB order: each preview pixel is a frame
/// pixel with its channels reversed. The pixel at preview row `dy`, column
/// `dx` comes from frame row `sample_at(dy, fh, ph)`, column
/// `sample_at(dx, fw, pw)`, its channel `c` from the frame's channel `2 - c`.
pub proof fn law_preview_reverses_channels(frame: Seq<u8>, fw: int, fh: int, pw: int, ph: int, dy: int, dx: int, c: int)
    requires
        fw > 0,
        fh > 0,
        0 <= dy < ph,
        0 <= dx < pw,
        0 <= c < 3,
    ensures
        preview_raster(frame, fw, fh, pw, ph)[pix(dy, dx, c, pw)] == frame[pix(
            sample_at(dy, fh, ph),
            sample_at(dx, fw, pw),
            2 - c,
            fw,
        )],
{
    lemma_pix_split(dy, dx, c, pw);
    lemma_pix_bound(dy, dx, c, pw, ph);
    assert(ph * pw * 3 == pw * ph * 3) by (nonlinear_arith);
}

/// A frame that is one BGR colour (`b`, `g`, `r`) everywhere gives a preview
/// raster that is (`r`, `g`, `b`) everywhere; without boxes, that is the
/// whole preview image.
pub proof fn law_preview_of_one_colour(frame: Seq<u8>, fw: int, fh: int, b: u8, g: u8, r: u8)
    requires
        fw > 0,
        fh > 0,
        forall|py: int, px: int| 0 <= py < fh && 0 <= px < fw ==> #[trigger] pixel_is(frame, py, px, fw, b, g, r),
    ensures
        ({
            let (pw, ph) = preview_size_spec(fw, fh);
            &&& preview_image(frame, fw, fh, Seq::empty(), Seq::empty()) == preview_raster(frame, fw, fh, pw, ph)
            &&& forall|dy: int, dx: int|
                0 <= dy < ph && 0 <= dx < pw ==> #[trigger] pixel_is(
                    preview_raster(frame, fw, fh, pw, ph),
                    dy,
                    dx,
                    pw,
                    r,
                    g,
                    b,
                )
        }),
{
    let (pw, ph) = preview_size_spec(fw, fh);
    let out = preview_raster(frame, fw, fh, pw, ph);
    assert forall|dy: int, dx: int| 0 <= dy < ph && 0 <= dx < pw implies #[trigger] pixel_is(out, dy, dx, pw, r, g, b) by {
        lemma_sample_in_range(dy, fh, ph);
        lemma_sample_in_range(dx, fw, pw);
        let sy = sample_at(dy, fh, ph);
        let sx = sample_at(dx, fw, pw);
        assert(pixel_is(frame, sy, sx, fw, b, g, r));
        law_preview_reverses_channels(frame, fw, fh, pw, ph, dy, dx, 0);
        law_preview_reverses_channels(frame, fw, fh, pw, ph, dy, dx, 1);
        law_preview_reverses_channels(frame, fw, fh, pw, ph, dy, dx, 2);
    }
}

/// Writes the preview raster of `frame` into `rgb`.
fn render_raster(frame: &[u8], fw: usize, fh: usize, pw: usize, ph: usize, rgb: &mut [u8])
    requires
        fw > 0,
        fh > 0,
        pw > 0,
        ph > 0,
        fw * fh * 3 <= frame@.len(),
        old(rgb)@.len() == pw * ph * 3,
        ph * fh <= usize::MAX,
        pw * fw <= usize::MAX,
    ensures
        final(rgb)@ == preview_raster(frame@, fw as int, fh as int, pw as int, ph as int),
{
    let ghost target = preview_raster(frame@, fw as int, fh as int, pw as int, ph as int);
    let ghost n = rgb@.len();
    let mut dy: usize = 0;
    while dy < ph
        invariant
            fw > 0,
            fh > 0,
            pw > 0,
            ph > 0,
            fw * fh * 3 <= frame@.len(),
            rgb@.len() == n,
            n == pw * ph * 3,
            ph * fh <= usize::MAX,
            pw * fw <= usize::MAX,
            target == preview_raster(frame@, fw as int, fh as int, pw as int, ph as int),
            dy <= ph,
            forall|k: int| 0 <= k < dy * pw * 3 && k < n ==> #[trigger] rgb@[k] == target[k],
        decreases ph - dy,
    {
        proof {
            assert(dy * fh <= ph * fh) by (nonlinear_arith)
                requires
                    dy < ph,
                    fh > 0,
            ;
            vstd::arithmetic::div_mod::lemma_div_pos_is_pos(dy * fh, ph as int);
        }
        let src_y = (dy * fh / ph).min(fh - 1);
        let mut dx: usize = 0;
        while dx < pw
            invariant
                fw > 0,
                fh > 0,
                pw > 0,
                ph > 0,
                fw * fh * 3 <= frame@.len(),
                rgb@.len() == n,
                n == pw * ph * 3,
                ph * fh <= usize::MAX,
                pw * fw <= usize::MAX,
                target == preview_raster(frame@, fw as int, fh as int, pw as int, ph as int),
                dy < ph,
                src_y == sample_at(dy as int, fh as int, ph as int),
                0 <= src_y < fh,
                dx <= pw,
                forall|k: int| 0 <= k < (dy * pw + dx) * 3 && k < n ==> #[trigger] rgb@[k] == target[k],
            decreases pw - dx,
        {
            proof {
                assert(dx * fw <= pw * fw) by (nonlinear_arith)
                    requires
                        dx < pw,
                        fw > 0,
                ;
                vstd::arithmetic::div_mod::lemma_div_pos_is_pos(dx * fw, pw as int);
            }
            let src_x = (dx * fw / pw).min(fw - 1);
            proof {
                lemma_pix_bound(src_y as int, src_x as int, 2, fw as int, fh as int);
                lemma_pix_bound(dy as int, dx as int, 2, pw as int, ph as int);
                assert(fh * fw * 3 == fw * fh * 3) by (nonlinear_arith);
                assert(ph * pw * 3 == pw * ph * 3) by (nonlinear_arith);
                assert(frame@.len() == frame.len());
                assert(rgb@.len() == rgb.len());
            }
            let s = (src_y * fw + src_x) * 3;
            let d = (dy * pw + dx) * 3;
            rgb[d] = frame[s + 2];
            rgb[d + 1] = frame[s + 1];
            rgb[d + 2] = frame[s];
            proof {
                assert forall|k: int| 0 <= k < (dy * pw + dx + 1) * 3 && k < n implies #[trigger] rgb@[k]
                    == target[k] by {
                    if d <= k < d + 3 {
                        let c = k - d;
                        lemma_pix_split(dy as int, dx as int, c, pw as int);
                        assert(k == pix(dy as int, dx as int, c, pw as int));
                    }
                }
            }
            dx = dx + 1;
        }
        dy = dy + 1;
        proof {
            assert((dy - 1) * pw + pw == dy * pw) by (nonlinear_arith);
        }
    }
    proof {
        assert(ph * pw * 3 == pw * ph * 3) by (nonlinear_arith);
        assert(rgb@ =~= target);
    }
}

/// Draws the outlines of `boxes`, in order, 2 pixels wide in `color`.
fn draw_boxes(buf: &mut [u8], pw: usize, ph: usize, boxes: &[BBox], color: [u8; 3])
    requires
        pw * ph * 3 <= old(buf)@.len(),
    ensures
        final(buf)@ == draw_boxes_spec(old(buf)@, pw as int, ph as int, boxes@, color@),
        final(buf)@.len() == old(buf)@.len(),
{
    let ghost b0 = buf@;
    let mut i: usize = 0;
    while i < boxes.len()
        invariant
            i <= boxes@.len(),
            pw * ph * 3 <= buf@.len(),
            buf@.len() == b0.len(),
            buf@ == draw_boxes_spec(b0, pw as int, ph as int, boxes@.take(i as int), color@),
        decreases boxes@.len() - i,
    {
        let b = boxes[i];
        proof {
            assert(boxes@.take(i as int + 1).drop_last() =~= boxes@.take(i as int));
            assert(boxes@.take(i as int + 1).last() == boxes@[i as int]);
        }
        draw_rect_rgb(buf, pw, ph, b.x, b.y, b.x2, b.y2, color, 2);
        i = i + 1;
    }
    proof {
        assert(boxes@.take(boxes@.len() as int) =~= boxes@);
    }
}

/// The JPEG preview of a `fw` x `fh` BGR frame with the face and plate
/// boxes outlined; the boxes are in preview coordinates.
pub fn make_preview(frame: &[u8], fw: usize, fh: usize, faces: &[BBox], plates: &[BBox]) -> (jpeg: Vec<u8>)
    requires
        preview_fits(frame@.len() as int, fw as int, fh as int),
    ensures
        ({
            let (pw, ph) = preview_size_spec(fw as int, fh as int);
            jpeg@ == jpeg_rgb(preview_image(frame@, fw as int, fh as int, faces@, plates@), pw as u32, ph as u32, 65)
        }),
{
    proof {
        lemma_preview_dims(fw as int, fh as int);
    }
    let (pw, ph) = preview_size(fw, fh);
    let mut rgb: Vec<u8> = vec![0u8; pw * ph * 3];
    assert(rgb@.len() == pw * ph * 3);
    render_raster(frame, fw, fh, pw, ph, rgb.as_mut_slice());
    draw_boxes(rgb.as_mut_slice(), pw, ph, faces, [255, 60, 60]);
    draw_boxes(rgb.as_mut_slice(), pw, ph, plates, [255, 200, 0]);
    proof {
        assert([255u8, 60u8, 60u8]@ =~= face_color());
        assert([255u8, 200u8, 0u8]@ =~= plate_color());
    }
    encode_jpeg_rgb(rgb.as_slice(), pw as u32, ph as u32, 65)
}

/// Whether a preview of a `fw` x `fh` frame held in `len` bytes can be computed.
pub fn preview_possible(len: usize, fw: usize, fh: usize) -> (r: bool)
    ensures
        r == preview_fits(len as int, fw as int, fh as int),
{
    if fw == 0 || fh == 0 {
        return false;
    }
    let fwh = match fw.checked_mul(fh) {
        Some(v) => v,
        None => {
            proof {
                assert(fw * fh * 3 >= fw * fh) by (nonlinear_arith)
                    requires
                        fw * fh >= 0,
                ;
            }
            return false;
        },
    };
    let fwh3 = match fwh.checked_mul(3) {
        Some(v) => v,
        None => {
            return false;
        },
    };
    if fwh3 > len {
        return false;
    }
    if fh.checked_mul(960).is_none() {
        return false;
    }
    proof {
        lemma_preview_dims(fw as int, fh as int);
    }
    let (pw, ph) = preview_size(fw, fh);
    let pp = match pw.checked_mul(ph) {
        Some(v) => v,
        None => {
            proof {
                assert(pw * ph * 3 >= pw * ph) by (nonlinear_arith)
                    requires
                        pw * ph >= 0,
                ;
            }
            return false;
        },
    };
    ph.checked_mul(fh).is_some() && pw.checked_mul(fw).is_some() && pp.checked_mul(3).is_some() && ph as u64
        <= 0xFFFF_FFFFu64
}

} // verus!

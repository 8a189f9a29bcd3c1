//! Overlapping tiles over a frame, so that small objects keep enough pixels
//! when each tile is scaled down to the detector's input.
use vstd::prelude::*;
use crate::image_ops::min_int;
use crate::preview::sat_sub;
use crate::grid::{lemma_pix_bound, lemma_pix_join, lemma_pix_split, pix, pix_chan, pix_col, pix_row};
use crate::resize::sample_at;

verus! {

/// A rectangle of the frame: top-left corner and size.
#[derive(Clone, Copy, Debug, PartialEq, Eq, Structural)]
pub struct Region {
    pub x0: usize,
    pub y0: usize,
    pub w: usize,
    pub h: usize,
}

/// Start of tile `i` of `n` tiles of `size` pixels on an axis of `len`
/// pixels: centred on the `i`-th of `n` equal parts, kept inside the axis.
pub open spec fn tile_start(i: int, len: int, n: int, size: int) -> int {
    let base = len / n;
    min_int(sat_sub(i * base + base / 2, size / 2), len - size)
}

/// The tiles of a `fw` x `fh` frame, `cols` x `rows` of them (at least one
/// each way), `sx` x `sy` pixels large, row by row.
pub open spec fn tile_grid_spec(fw: int, fh: int, cols: int, rows: int, sx: int, sy: int) -> Seq<Region> {
    let c = if cols >= 1 { cols } else { 1 };
    let r = if rows >= 1 { rows } else { 1 };
    Seq::new(
        (c * r) as nat,
        |k: int| Region {
            x0: tile_start(k % c, fw, c, sx) as usize,
            y0: tile_start(k / c, fh, r, sy) as usize,
            w: sx as usize,
            h: sy as usize,
        },
    )
}

fn tile_start_exec(i: usize, len: usize, n: usize, size: usize) -> (s: usize)
    requires
        n >= 1,
        i < n,
        1 <= size <= len,
    ensures
        s == tile_start(i as int, len as int, n as int, size as int),
        s + size <= len,
{
    let base = len / n;
    proof {
        assert(i * base + base <= n * base) by (nonlinear_arith)
            requires
                i < n,
                base >= 0,
        ;
        vstd::arithmetic::div_mod::lemma_fundamental_div_mod(len as int, n as int);
        assert(n * base <= len) by (nonlinear_arith)
            requires
                len == n * (len as int / n as int) + (len as int % n as int),
                base == len as int / n as int,
                len as int % n as int >= 0,
        ;
    }
    let center = i * base + base / 2;
    center.saturating_sub(size / 2).min(len - size)
}

/// The tiles of a `fw` x `fh` frame: `cols` x `rows` tiles (at least one each
/// way) of `sx` x `sy` pixels, row by row.
pub fn tile_grid(fw: usize, fh: usize, cols: usize, rows: usize, sx: usize, sy: usize) -> (t: Vec<Region>)
    requires
        1 <= sx <= fw,
        1 <= sy <= fh,
        cols * rows <= usize::MAX,
    ensures
        t@ == tile_grid_spec(fw as int, fh as int, cols as int, rows as int, sx as int, sy as int),
        forall|k: int| 0 <= k < t@.len() ==> #[trigger] t@[k].x0 + t@[k].w <= fw && t@[k].y0 + t@[k].h <= fh,
{
    let c = cols.max(1);
    let r = rows.max(1);
    proof {
        assert(c * r <= usize::MAX) by (nonlinear_arith)
            requires
                cols * rows <= usize::MAX,
                c == (if cols >= 1 { cols } else { 1 }),
                r == (if rows >= 1 { rows } else { 1 }),
                cols >= 0,
                rows >= 0,
        {
            if cols == 0 || rows == 0 {
                assert(c * r <= usize::MAX);
            }
        }
    }
    let ghost target = tile_grid_spec(fw as int, fh as int, cols as int, rows as int, sx as int, sy as int);
    let mut out: Vec<Region> = Vec::new();
    let mut ty: usize = 0;
    while ty < r
        invariant
            1 <= sx <= fw,
            1 <= sy <= fh,
            c >= 1,
            r >= 1,
            c == (if cols >= 1 { cols } else { 1 }),
            r == (if rows >= 1 { rows } else { 1 }),
            c * r <= usize::MAX,
            target == tile_grid_spec(fw as int, fh as int, cols as int, rows as int, sx as int, sy as int),
            ty <= r,
            out@.len() == ty * c,
            forall|k: int| 0 <= k < out@.len() ==> #[trigger] out@[k] == target[k],
            forall|k: int| 0 <= k < out@.len() ==> #[trigger] out@[k].x0 + out@[k].w <= fw && out@[k].y0 + out@[k].h <= fh,
        decreases r - ty,
    {
        let y0 = tile_start_exec(ty, fh, r, sy);
        let mut tx: usize = 0;
        while tx < c
            invariant
                1 <= sx <= fw,
                1 <= sy <= fh,
                c >= 1,
                r >= 1,
                c == (if cols >= 1 { cols } else { 1 }),
                r == (if rows >= 1 { rows } else { 1 }),
                c * r <= usize::MAX,
                target == tile_grid_spec(fw as int, fh as int, cols as int, rows as int, sx as int, sy as int),
                ty < r,
                y0 == tile_start(ty as int, fh as int, r as int, sy as int),
                y0 + sy <= fh,
                tx <= c,
                out@.len() == ty * c + tx,
                forall|k: int| 0 <= k < out@.len() ==> #[trigger] out@[k] == target[k],
                forall|k: int| 0 <= k < out@.len() ==> #[trigger] out@[k].x0 + out@[k].w <= fw && out@[k].y0 + out@[k].h <= fh,
            decreases c - tx,
        {
            let x0 = tile_start_exec(tx, fw, c, sx);
            proof {
                let k = ty * c + tx;
                assert(k < c * r) by (nonlinear_arith)
                    requires
                        k == ty * c + tx,
                        ty < r,
                        tx < c,
                ;
                vstd::arithmetic::div_mod::lemma_fundamental_div_mod_converse(k as int, c as int, ty as int, tx as int);
                assert(ty * c == c * ty) by (nonlinear_arith);
            }
            out.push(Region { x0, y0, w: sx, h: sy });
            tx = tx + 1;
        }
        ty = ty + 1;
        proof {
            assert((ty - 1) * c + c == ty * c) by (nonlinear_arith);
        }
    }
    proof {
        assert(r * c == c * r) by (nonlinear_arith);
    }
    assert(out@ =~= target);
    out
}

/// The square model input of side `size` after letterboxing `region` of the
/// `fw`-wide BGR frame: the region, resized to `nw` x `nh` by nearest
/// neighbour, sits centred; the border is `pad`. Bytes past the square are kept.
pub open spec fn letterbox_spec(
    buf: Seq<u8>,
    frame: Seq<u8>,
    fw: int,
    region: Region,
    size: int,
    pad: u8,
    nw: int,
    nh: int,
) -> Seq<u8> {
    let pad_x = (size - nw) / 2;
    let pad_y = (size - nh) / 2;
    Seq::new(
        buf.len(),
        |k: int|
            if k < size * size * 3 {
                let r = pix_row(k, size) - pad_y;
                let c = pix_col(k, size) - pad_x;
                if 0 <= r < nh && 0 <= c < nw {
                    frame[pix(
                        region.y0 + sample_at(r, region.h as int, nh),
                        region.x0 + sample_at(c, region.w as int, nw),
                        pix_chan(k),
                        fw,
                    )]
                } else {
                    pad
                }
            } else {
                buf[k]
            },
    )
}

/// Inputs for which letterboxing is defined and its arithmetic fits.
pub open spec fn letterbox_fits(frame_len: int, buf_len: int, fw: int, region: Region, size: int, nw: int, nh: int) -> bool {
    &&& 1 <= nw <= size
    &&& 1 <= nh <= size
    &&& region.w >= 1
    &&& region.h >= 1
    &&& region.x0 + region.w <= fw
    &&& (region.y0 + region.h) * fw * 3 <= frame_len
    &&& size * size * 3 <= buf_len
    &&& nh * region.h <= usize::MAX
    &&& nw * region.w <= usize::MAX
}

/// Letterboxes `region` into the first `size * size * 3` bytes of `buf`:
/// border `pad`, the region resized to `nw` x `nh` in the middle. Returns the
/// left and top border widths.
pub fn letterbox_fill(
    frame: &[u8],
    fw: usize,
    region: &Region,
    size: usize,
    pad: u8,
    nw: usize,
    nh: usize,
    buf: &mut [u8],
) -> (r: (usize, usize))
    requires
        letterbox_fits(frame@.len() as int, old(buf)@.len() as int, fw as int, *region, size as int, nw as int, nh as int),
    ensures
        r.0 == (size - nw) / 2,
        r.1 == (size - nh) / 2,
        final(buf)@ == letterbox_spec(old(buf)@, frame@, fw as int, *region, size as int, pad, nw as int, nh as int),
{
    let ghost b0 = buf@;
    let ghost target = letterbox_spec(b0, frame@, fw as int, *region, size as int, pad, nw as int, nh as int);
    proof {
        assert(buf@.len() == buf.len());
        assert(frame@.len() == frame.len());
        assert(region.y0 + region.h <= (region.y0 + region.h) * fw * 3) by (nonlinear_arith)
            requires
                fw >= 1,
                region.y0 + region.h >= 0,
        ;
    }
    let n = size * size * 3;
    let mut i: usize = 0;
    while i < n
        invariant
            n == size * size * 3,
            n <= b0.len(),
            buf@.len() == b0.len(),
            i <= n,
            forall|k: int| 0 <= k < i ==> #[trigger] buf@[k] == pad,
            forall|k: int| n <= k < b0.len() ==> #[trigger] buf@[k] == b0[k],
        decreases n - i,
    {
        buf[i] = pad;
        i = i + 1;
    }
    let pad_x = (size - nw) / 2;
    let pad_y = (size - nh) / 2;
    let x0 = region.x0;
    let y0 = region.y0;
    let rw = region.w;
    let rh = region.h;
    let ghost reg = *region;
    let mut dy: usize = 0;
    while dy < nh
        invariant
            reg == *region,
            x0 == reg.x0 && y0 == reg.y0 && rw == reg.w && rh == reg.h,
            letterbox_fits(frame@.len() as int, b0.len() as int, fw as int, reg, size as int, nw as int, nh as int),
            y0 + rh <= usize::MAX,
            n == size * size * 3,
            buf@.len() == b0.len(),
            pad_x == (size - nw) / 2,
            pad_y == (size - nh) / 2,
            target == letterbox_spec(b0, frame@, fw as int, reg, size as int, pad, nw as int, nh as int),
            dy <= nh,
            forall|k: int| n <= k < b0.len() ==> #[trigger] buf@[k] == b0[k],
            forall|k: int|
                0 <= k < n ==> #[trigger] buf@[k] == if pix_row(k, size as int) - pad_y < dy && 0 <= pix_row(
                    k,
                    size as int,
                ) - pad_y {
                    target[k]
                } else {
                    pad
                },
        decreases nh - dy,
    {
        proof {
            assert(dy * rh <= nh * rh) by (nonlinear_arith)
                requires
                    dy < nh,
                    rh >= 1,
            ;
            vstd::arithmetic::div_mod::lemma_div_pos_is_pos(dy * rh, nh as int);
        }
        let sy = y0 + (dy * rh / nh).min(rh - 1);
        let mut dx: usize = 0;
        while dx < nw
            invariant
                reg == *region,
                x0 == reg.x0 && y0 == reg.y0 && rw == reg.w && rh == reg.h,
                letterbox_fits(frame@.len() as int, b0.len() as int, fw as int, reg, size as int, nw as int, nh as int),
                n == size * size * 3,
                buf@.len() == b0.len(),
                pad_x == (size - nw) / 2,
                pad_y == (size - nh) / 2,
                target == letterbox_spec(b0, frame@, fw as int, reg, size as int, pad, nw as int, nh as int),
                dy < nh,
                sy == y0 + sample_at(dy as int, rh as int, nh as int),
                y0 <= sy < y0 + rh,
                dx <= nw,
                forall|k: int| n <= k < b0.len() ==> #[trigger] buf@[k] == b0[k],
                forall|k: int|
                    0 <= k < n ==> #[trigger] buf@[k] == if (0 <= pix_row(k, size as int) - pad_y < dy) || (pix_row(
                        k,
                        size as int,
                    ) - pad_y == dy && 0 <= pix_col(k, size as int) - pad_x < dx) {
                        target[k]
                    } else {
                        pad
                    },
            decreases nw - dx,
        {
            proof {
                assert(dx * rw <= nw * rw) by (nonlinear_arith)
                    requires
                        dx < nw,
                        rw >= 1,
                ;
                vstd::arithmetic::div_mod::lemma_div_pos_is_pos(dx * rw, nw as int);
            }
            let sx = x0 + (dx * rw / nw).min(rw - 1);
            proof {
                lemma_pix_bound(sy as int, sx as int, 2, fw as int, (y0 + rh) as int);
                lemma_pix_bound((dy + pad_y) as int, (dx + pad_x) as int, 2, size as int, size as int);
                assert((y0 + rh) * fw * 3 == (y0 + rh) * (fw * 3)) by (nonlinear_arith);
                assert(frame@.len() == frame.len());
                assert(buf@.len() == buf.len());
                assert(dy + pad_y < size);
                assert(dx + pad_x < size);
            }
            let s = (sy * fw + sx) * 3;
            let d = ((dy + pad_y) * size + dx + pad_x) * 3;
            let ghost before = buf@;
            buf[d] = frame[s];
            buf[d + 1] = frame[s + 1];
            buf[d + 2] = frame[s + 2];
            proof {
                assert forall|k: int| 0 <= k < n implies #[trigger] buf@[k] == if (0 <= pix_row(k, size as int)
                    - pad_y < dy) || (pix_row(k, size as int) - pad_y == dy && 0 <= pix_col(k, size as int) - pad_x
                    < dx + 1) {
                    target[k]
                } else {
                    pad
                } by {
                    lemma_pix_join(k, size as int);
                    let kr = pix_row(k, size as int);
                    let kc = pix_col(k, size as int);
                    if d <= k < d + 3 {
                        let c = k - d;
                        lemma_pix_split((dy + pad_y) as int, (dx + pad_x) as int, c, size as int);
                        assert(k == pix((dy + pad_y) as int, (dx + pad_x) as int, c, size as int));
                    } else {
                        assert(buf@[k] == before[k]);
                        if kr == dy + pad_y && kc == dx + pad_x {
                            assert(k == pix(kr, kc, pix_chan(k), size as int));
                        }
                    }
                }
            }
            dx = dx + 1;
        }
        dy = dy + 1;
    }
    proof {
        assert forall|k: int| 0 <= k < b0.len() implies buf@[k] == target[k] by {
            if k < n {
                lemma_pix_join(k, size as int);
            }
        }
    }
    assert(buf@ =~= target);
    (pad_x, pad_y)
}

/// Whether `letterbox_fill` is defined for these inputs.
pub fn letterbox_supported(
    frame_len: usize,
    buf_len: usize,
    fw: usize,
    region: &Region,
    size: usize,
    nw: usize,
    nh: usize,
) -> (r: bool)
    ensures
        r == letterbox_fits(frame_len as int, buf_len as int, fw as int, *region, size as int, nw as int, nh as int),
{
    if !(1 <= nw && nw <= size && 1 <= nh && nh <= size && region.w >= 1 && region.h >= 1) {
        return false;
    }
    let right = match region.x0.checked_add(region.w) {
        Some(v) => v,
        None => return false,
    };
    if right > fw {
        return false;
    }
    let bottom = match region.y0.checked_add(region.h) {
        Some(v) => v,
        None => {
            proof {
                assert((region.y0 + region.h) * fw * 3 >= region.y0 + region.h) by (nonlinear_arith)
                    requires
                        fw >= 1,
                        region.y0 + region.h >= 0,
                ;
            }
            return false;
        },
    };
    let rows_bytes = match bottom.checked_mul(fw) {
        Some(v) => v,
        None => {
            proof {
                assert(bottom * fw * 3 >= bottom * fw) by (nonlinear_arith)
                    requires
                        bottom * fw >= 0,
                ;
            }
            return false;
        },
    };
    let rows_bytes3 = match rows_bytes.checked_mul(3) {
        Some(v) => v,
        None => return false,
    };
    if rows_bytes3 > frame_len {
        return false;
    }
    let sq = match size.checked_mul(size) {
        Some(v) => v,
        None => {
            proof {
                assert(size * size * 3 >= size * size) by (nonlinear_arith)
                    requires
                        size * size >= 0,
                ;
            }
            return false;
        },
    };
    let sq3 = match sq.checked_mul(3) {
        Some(v) => v,
        None => return false,
    };
    sq3 <= buf_len && nh.checked_mul(region.h).is_some() && nw.checked_mul(region.w).is_some()
}

} // verus!

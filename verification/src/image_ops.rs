//! In-place image operations on raw BGR frame buffers.
//! A frame is `[H, W, 3]` bytes, row-major, stored contiguously; `frame_w` is `W`.
use vstd::prelude::*;
use crate::grid::{lemma_pix_bound, lemma_pix_injective, lemma_pix_join, lemma_pix_split, pix, pix_chan, pix_col, pix_row};

verus! {

// ---------------------------------------------------------------------------
// Sliding windows
// ---------------------------------------------------------------------------

/// First index of the averaging window of radius `r` around position `i`.
pub open spec fn win_lo(i: int, r: int) -> int {
    if i >= r {
        i - r
    } else {
        0
    }
}

/// One past the last index of the averaging window of radius `r` around
/// position `i`, on an axis of length `n`.
pub open spec fn win_hi(i: int, r: int, n: int) -> int {
    if i + r + 1 <= n {
        i + r + 1
    } else {
        n
    }
}

/// Sum of channel `c` over the pixels `x + lo .. x + hi` of frame row `py`.
pub open spec fn row_sum(frame: Seq<u8>, fw: int, py: int, x: int, c: int, lo: int, hi: int) -> int
    decreases hi - lo,
{
    if hi <= lo {
        0
    } else {
        row_sum(frame, fw, py, x, c, lo, hi - 1) + frame[pix(py, x + hi - 1, c, fw)] as int
    }
}

/// Sum of channel `c` over rows `lo .. hi` of column `col` of a buffer `w` pixels wide.
pub open spec fn col_sum(t: Seq<u8>, w: int, col: int, c: int, lo: int, hi: int) -> int
    decreases hi - lo,
{
    if hi <= lo {
        0
    } else {
        col_sum(t, w, col, c, lo, hi - 1) + t[pix(hi - 1, col, c, w)] as int
    }
}

proof fn lemma_row_sum_drop_first(frame: Seq<u8>, fw: int, py: int, x: int, c: int, lo: int, hi: int)
    requires
        lo < hi,
    ensures
        row_sum(frame, fw, py, x, c, lo, hi) == frame[pix(py, x + lo, c, fw)] as int + row_sum(
            frame,
            fw,
            py,
            x,
            c,
            lo + 1,
            hi,
        ),
    decreases hi - lo,
{
    if lo + 1 < hi {
        lemma_row_sum_drop_first(frame, fw, py, x, c, lo, hi - 1);
    } else {
        assert(row_sum(frame, fw, py, x, c, lo, hi - 1) == 0);
        assert(row_sum(frame, fw, py, x, c, lo + 1, hi) == 0);
    }
}

proof fn lemma_col_sum_drop_first(t: Seq<u8>, w: int, col: int, c: int, lo: int, hi: int)
    requires
        lo < hi,
    ensures
        col_sum(t, w, col, c, lo, hi) == t[pix(lo, col, c, w)] as int + col_sum(t, w, col, c, lo + 1, hi),
    decreases hi - lo,
{
    if lo + 1 < hi {
        lemma_col_sum_drop_first(t, w, col, c, lo, hi - 1);
    } else {
        assert(col_sum(t, w, col, c, lo, hi - 1) == 0);
        assert(col_sum(t, w, col, c, lo + 1, hi) == 0);
    }
}

proof fn lemma_row_sum_bound(frame: Seq<u8>, fw: int, py: int, x: int, c: int, lo: int, hi: int)
    requires
        lo <= hi,
    ensures
        0 <= row_sum(frame, fw, py, x, c, lo, hi) <= 255 * (hi - lo),
    decreases hi - lo,
{
    if lo < hi {
        lemma_row_sum_bound(frame, fw, py, x, c, lo, hi - 1);
    }
}

proof fn lemma_col_sum_bound(t: Seq<u8>, w: int, col: int, c: int, lo: int, hi: int)
    requires
        lo <= hi,
    ensures
        0 <= col_sum(t, w, col, c, lo, hi) <= 255 * (hi - lo),
    decreases hi - lo,
{
    if lo < hi {
        lemma_col_sum_bound(t, w, col, c, lo, hi - 1);
    }
}

// ---------------------------------------------------------------------------
// Box blur
// ---------------------------------------------------------------------------

/// Byte `j` of the horizontally averaged copy of the region `w` pixels wide
/// at (`x`, `y`): the mean of channel `j % 3` over the window of radius `r`
/// in the same region row.
pub open spec fn h_value(frame: Seq<u8>, fw: int, x: int, y: int, w: int, r: int, j: int) -> u8 {
    let row = pix_row(j, w);
    let col = pix_col(j, w);
    let c = pix_chan(j);
    let lo = win_lo(col, r);
    let hi = win_hi(col, r, w);
    (row_sum(frame, fw, y + row, x, c, lo, hi) / (hi - lo)) as u8
}

/// The horizontally averaged copy of the `w` by `h` region at (`x`, `y`).
pub open spec fn h_pass(frame: Seq<u8>, fw: int, x: int, y: int, w: int, h: int, r: int) -> Seq<u8> {
    Seq::new((w * h * 3) as nat, |j: int| h_value(frame, fw, x, y, w, r, j))
}

/// Byte `k` of the frame after a box pass: inside the region, the mean of
/// channel `k % 3` of the horizontally averaged copy over the vertical
/// window of radius `r`; outside the region, the byte itself.
pub open spec fn v_value(
    frame: Seq<u8>,
    t: Seq<u8>,
    fw: int,
    x: int,
    y: int,
    w: int,
    h: int,
    r: int,
    k: int,
) -> u8 {
    let row = pix_row(k, fw) - y;
    let col = pix_col(k, fw) - x;
    let c = pix_chan(k);
    if 0 <= row < h && 0 <= col < w {
        let lo = win_lo(row, r);
        let hi = win_hi(row, r, h);
        (col_sum(t, w, col, c, lo, hi) / (hi - lo)) as u8
    } else {
        frame[k]
    }
}

/// The frame after one separable box blur of radius `r` over the `w` by `h`
/// region at (`x`, `y`); windows are cut off at the region's edges.
pub open spec fn box_pass(frame: Seq<u8>, fw: int, x: int, y: int, w: int, h: int, r: int) -> Seq<u8> {
    let t = h_pass(frame, fw, x, y, w, h, r);
    Seq::new(frame.len(), |k: int| v_value(frame, t, fw, x, y, w, h, r, k))
}

/// The frame while the vertical pass is under way: the pixels of region
/// columns before `col`, and of column `col` above region row `row`, are done.
spec fn v_partial(
    frame: Seq<u8>,
    t: Seq<u8>,
    fw: int,
    x: int,
    y: int,
    w: int,
    h: int,
    r: int,
    col: int,
    row: int,
) -> Seq<u8> {
    Seq::new(
        frame.len(),
        |k: int|
            {
                let kr = pix_row(k, fw) - y;
                let kc = pix_col(k, fw) - x;
                if 0 <= kr < h && 0 <= kc < w && (kc < col || (kc == col && kr < row)) {
                    v_value(frame, t, fw, x, y, w, h, r, k)
                } else {
                    frame[k]
                }
            },
    )
}

fn box_blur_roi(frame: &mut [u8], frame_w: usize, x: usize, y: usize, x2: usize, y2: usize, r: usize)
    requires
        x < x2 <= frame_w,
        y < y2,
        y2 * frame_w * 3 <= old(frame)@.len(),
        r <= 0xFFFF_FFFF,
        x2 + r + 2 <= usize::MAX,
        y2 + r + 2 <= usize::MAX,
    ensures
        final(frame)@ == box_pass(
            old(frame)@,
            frame_w as int,
            x as int,
            y as int,
            (x2 - x) as int,
            (y2 - y) as int,
            r as int,
        ),
{
    let ghost src = frame@;
    let ghost fw = frame_w as int;
    let flen = frame.len();
    let roi_w = x2 - x;
    let roi_h = y2 - y;
    proof {
        assert(roi_w * roi_h * 3 <= y2 * frame_w * 3) by (nonlinear_arith)
            requires
                roi_w <= frame_w,
                roi_h <= y2,
        ;
        assert(roi_h * roi_w * 3 == roi_w * roi_h * 3) by (nonlinear_arith);
    }
    let ghost tspec = h_pass(src, fw, x as int, y as int, roi_w as int, roi_h as int, r as int);

    // Horizontal pass with a sliding window into `tmp`.
    let mut tmp: Vec<u8> = Vec::new();
    let mut row: usize = 0;
    while row < roi_h
        invariant
            frame@ == src,
            fw == frame_w as int,
            flen == src.len(),
            roi_w == x2 - x,
            roi_h == y2 - y,
            x < x2 <= frame_w,
            y < y2,
            y2 * frame_w * 3 <= src.len(),
            r <= 0xFFFF_FFFF,
            x2 + r + 2 <= usize::MAX,
            row <= roi_h,
            tmp@.len() == row * roi_w * 3,
            forall|j: int|
                0 <= j < tmp@.len() ==> tmp@[j] == h_value(
                    src,
                    fw,
                    x as int,
                    y as int,
                    roi_w as int,
                    r as int,
                    j,
                ),
        decreases roi_h - row,
    {
        let ghost py = (y + row) as int;
        proof {
            assert((y + row) * frame_w <= y2 * frame_w) by (nonlinear_arith)
                requires
                    y + row < y2,
            ;
            assert(y2 * frame_w <= y2 * frame_w * 3) by (nonlinear_arith);
        }
        let row_base = (y + row) * frame_w;
        let init_end = if r < roi_w - 1 {
            r
        } else {
            roi_w - 1
        };
        let mut s0: u64 = 0;
        let mut s1: u64 = 0;
        let mut s2: u64 = 0;
        let mut c: usize = 0;
        while c <= init_end
            invariant
                frame@ == src,
                fw == frame_w as int,
                flen == src.len(),
            fw == frame_w as int,
            flen == src.len(),
                roi_w == x2 - x,
                x < x2 <= frame_w,
                y + row < y2,
                y2 * frame_w * 3 <= src.len(),
                row_base == py * frame_w,
                py == y + row,
                init_end < roi_w,
                init_end <= r,
                r <= 0xFFFF_FFFF,
                c <= init_end + 1,
                s0 == row_sum(src, fw, py, x as int, 0, 0, c as int),
                s1 == row_sum(src, fw, py, x as int, 1, 0, c as int),
                s2 == row_sum(src, fw, py, x as int, 2, 0, c as int),
            decreases init_end + 1 - c,
        {
            proof {
                lemma_pix_bound(py, (x + c) as int, 2, fw, y2 as int);
                lemma_row_sum_bound(src, fw, py, x as int, 0, 0, c as int);
                lemma_row_sum_bound(src, fw, py, x as int, 1, 0, c as int);
                lemma_row_sum_bound(src, fw, py, x as int, 2, 0, c as int);
            }
            let px = (row_base + x + c) * 3;
            s0 = s0 + frame[px] as u64;
            s1 = s1 + frame[px + 1] as u64;
            s2 = s2 + frame[px + 2] as u64;
            c = c + 1;
        }
        let mut cnt: u64 = (init_end + 1) as u64;
        let mut col: usize = 0;
        while col < roi_w
            invariant
                frame@ == src,
                fw == frame_w as int,
                flen == src.len(),
            fw == frame_w as int,
            flen == src.len(),
                roi_w == x2 - x,
                roi_h == y2 - y,
                x < x2 <= frame_w,
                y + row < y2,
                row < roi_h,
                y2 * frame_w * 3 <= src.len(),
                row_base == py * frame_w,
                py == y + row,
                r <= 0xFFFF_FFFF,
                x2 + r + 2 <= usize::MAX,
                col <= roi_w,
                col < roi_w ==> cnt == win_hi(col as int, r as int, roi_w as int) - win_lo(col as int, r as int),
                col < roi_w ==> s0 == row_sum(
                    src,
                    fw,
                    py,
                    x as int,
                    0,
                    win_lo(col as int, r as int),
                    win_hi(col as int, r as int, roi_w as int),
                ),
                col < roi_w ==> s1 == row_sum(
                    src,
                    fw,
                    py,
                    x as int,
                    1,
                    win_lo(col as int, r as int),
                    win_hi(col as int, r as int, roi_w as int),
                ),
                col < roi_w ==> s2 == row_sum(
                    src,
                    fw,
                    py,
                    x as int,
                    2,
                    win_lo(col as int, r as int),
                    win_hi(col as int, r as int, roi_w as int),
                ),
                tmp@.len() == (row * roi_w + col) * 3,
                forall|j: int|
                    0 <= j < tmp@.len() ==> tmp@[j] == h_value(
                        src,
                        fw,
                        x as int,
                        y as int,
                        roi_w as int,
                        r as int,
                        j,
                    ),
            decreases roi_w - col,
        {
            let ghost lo = win_lo(col as int, r as int);
            let ghost hi = win_hi(col as int, r as int, roi_w as int);
            proof {
                lemma_pix_split(row as int, col as int, 0, roi_w as int);
                lemma_pix_split(row as int, col as int, 1, roi_w as int);
                lemma_pix_split(row as int, col as int, 2, roi_w as int);
                assert(pix(row as int, col as int, 0, roi_w as int) == (row * roi_w + col) * 3);
            }
            tmp.push((s0 / cnt) as u8);
            tmp.push((s1 / cnt) as u8);
            tmp.push((s2 / cnt) as u8);
            let add_col = col + r + 1;
            if add_col < roi_w {
                proof {
                    lemma_pix_bound(py, (x + add_col) as int, 2, fw, y2 as int);
                    lemma_row_sum_bound(src, fw, py, x as int, 0, lo, hi);
                    lemma_row_sum_bound(src, fw, py, x as int, 1, lo, hi);
                    lemma_row_sum_bound(src, fw, py, x as int, 2, lo, hi);
                }
                let px = (row_base + x + add_col) * 3;
                s0 = s0 + frame[px] as u64;
                s1 = s1 + frame[px + 1] as u64;
                s2 = s2 + frame[px + 2] as u64;
                cnt = cnt + 1;
            }
            let ghost hi2 = if add_col < roi_w {
                hi + 1
            } else {
                hi
            };
            if col >= r {
                proof {
                    lemma_pix_bound(py, (x + col - r) as int, 2, fw, y2 as int);
                    lemma_row_sum_drop_first(src, fw, py, x as int, 0, lo, hi2);
                    lemma_row_sum_bound(src, fw, py, x as int, 0, lo + 1, hi2);
                    lemma_row_sum_drop_first(src, fw, py, x as int, 1, lo, hi2);
                    lemma_row_sum_bound(src, fw, py, x as int, 1, lo + 1, hi2);
                    lemma_row_sum_drop_first(src, fw, py, x as int, 2, lo, hi2);
                    lemma_row_sum_bound(src, fw, py, x as int, 2, lo + 1, hi2);
                }
                let px = (row_base + x + col - r) * 3;
                s0 = s0 - frame[px] as u64;
                s1 = s1 - frame[px + 1] as u64;
                s2 = s2 - frame[px + 2] as u64;
                cnt = cnt - 1;
            }
            col = col + 1;
            proof {
                assert(tmp@.len() == (row * roi_w + col) * 3) by (nonlinear_arith)
                    requires
                        tmp@.len() == (row * roi_w + (col - 1)) * 3 + 3,
                ;
            }
        }
        row = row + 1;
        proof {
            assert(tmp@.len() == row * roi_w * 3) by (nonlinear_arith)
                requires
                    tmp@.len() == ((row - 1) * roi_w + roi_w) * 3,
            ;
        }
    }
    proof {
        assert(tmp@.len() == roi_w * roi_h * 3) by (nonlinear_arith)
            requires
                tmp@.len() == roi_h * roi_w * 3,
        ;
    }
    assert(tmp@ =~= tspec);

    // Vertical pass with a sliding window, written back into the frame.
    let mut col: usize = 0;
    while col < roi_w
        invariant
            tmp@ == tspec,
            fw == frame_w as int,
            flen == src.len(),
            roi_h * roi_w * 3 <= src.len(),
            tspec.len() == roi_w * roi_h * 3,
            roi_w == x2 - x,
            roi_h == y2 - y,
            x < x2 <= frame_w,
            y < y2,
            y2 * frame_w * 3 <= src.len(),
            r <= 0xFFFF_FFFF,
            y2 + r + 2 <= usize::MAX,
            col <= roi_w,
            frame@ == v_partial(
                src,
                tspec,
                fw,
                x as int,
                y as int,
                roi_w as int,
                roi_h as int,
                r as int,
                col as int,
                0,
            ),
        decreases roi_w - col,
    {
        let init_end = if r < roi_h - 1 {
            r
        } else {
            roi_h - 1
        };
        let mut s0: u64 = 0;
        let mut s1: u64 = 0;
        let mut s2: u64 = 0;
        let mut rr: usize = 0;
        while rr <= init_end
            invariant
                tmp@ == tspec,
                fw == frame_w as int,
                flen == src.len(),
                roi_h * roi_w * 3 <= src.len(),
            fw == frame_w as int,
            flen == src.len(),
            roi_h * roi_w * 3 <= src.len(),
                tspec.len() == roi_w * roi_h * 3,
                col < roi_w,
                init_end < roi_h,
                init_end <= r,
                r <= 0xFFFF_FFFF,
                rr <= init_end + 1,
                s0 == col_sum(tspec, roi_w as int, col as int, 0, 0, rr as int),
                s1 == col_sum(tspec, roi_w as int, col as int, 1, 0, rr as int),
                s2 == col_sum(tspec, roi_w as int, col as int, 2, 0, rr as int),
            decreases init_end + 1 - rr,
        {
            proof {
                lemma_pix_bound(rr as int, col as int, 2, roi_w as int, roi_h as int);
                lemma_col_sum_bound(tspec, roi_w as int, col as int, 0, 0, rr as int);
                lemma_col_sum_bound(tspec, roi_w as int, col as int, 1, 0, rr as int);
                lemma_col_sum_bound(tspec, roi_w as int, col as int, 2, 0, rr as int);
            }
            let src_i = (rr * roi_w + col) * 3;
            s0 = s0 + tmp[src_i] as u64;
            s1 = s1 + tmp[src_i + 1] as u64;
            s2 = s2 + tmp[src_i + 2] as u64;
            rr = rr + 1;
        }
        let mut cnt: u64 = (init_end + 1) as u64;
        let mut row: usize = 0;
        while row < roi_h
            invariant
                tmp@ == tspec,
                fw == frame_w as int,
                flen == src.len(),
                roi_h * roi_w * 3 <= src.len(),
            fw == frame_w as int,
            flen == src.len(),
            roi_h * roi_w * 3 <= src.len(),
                tspec.len() == roi_w * roi_h * 3,
                roi_w == x2 - x,
                roi_h == y2 - y,
                x < x2 <= frame_w,
                y < y2,
                y2 * frame_w * 3 <= src.len(),
                r <= 0xFFFF_FFFF,
                y2 + r + 2 <= usize::MAX,
                col < roi_w,
                row <= roi_h,
                row < roi_h ==> cnt == win_hi(row as int, r as int, roi_h as int) - win_lo(row as int, r as int),
                row < roi_h ==> s0 == col_sum(
                    tspec,
                    roi_w as int,
                    col as int,
                    0,
                    win_lo(row as int, r as int),
                    win_hi(row as int, r as int, roi_h as int),
                ),
                row < roi_h ==> s1 == col_sum(
                    tspec,
                    roi_w as int,
                    col as int,
                    1,
                    win_lo(row as int, r as int),
                    win_hi(row as int, r as int, roi_h as int),
                ),
                row < roi_h ==> s2 == col_sum(
                    tspec,
                    roi_w as int,
                    col as int,
                    2,
                    win_lo(row as int, r as int),
                    win_hi(row as int, r as int, roi_h as int),
                ),
                frame@ == v_partial(
                    src,
                    tspec,
                    fw,
                    x as int,
                    y as int,
                    roi_w as int,
                    roi_h as int,
                    r as int,
                    col as int,
                    row as int,
                ),
            decreases roi_h - row,
        {
            let ghost lo = win_lo(row as int, r as int);
            let ghost hi = win_hi(row as int, r as int, roi_h as int);
            let ghost before = frame@;
            let ghost py = (y + row) as int;
            let ghost qx = (x + col) as int;
            proof {
                lemma_pix_bound(py, qx, 2, fw, y2 as int);
                lemma_pix_split(py, qx, 0, fw);
                lemma_pix_split(py, qx, 1, fw);
                lemma_pix_split(py, qx, 2, fw);
            }
            let px = ((y + row) * frame_w + x + col) * 3;
            if px + 2 < frame.len() {
                frame[px] = (s0 / cnt) as u8;
                frame[px + 1] = (s1 / cnt) as u8;
                frame[px + 2] = (s2 / cnt) as u8;
            }
            proof {
                let next = v_partial(
                    src,
                    tspec,
                    fw,
                    x as int,
                    y as int,
                    roi_w as int,
                    roi_h as int,
                    r as int,
                    col as int,
                    row + 1,
                );
                assert forall|k: int| 0 <= k < frame@.len() implies frame@[k] == next[k] by {
                    lemma_pix_join(k, fw);
                    if pix_row(k, fw) == py && pix_col(k, fw) == qx {
                        assert(k == pix(py, qx, pix_chan(k), fw));
                    } else {
                        if k == px as int || k == px + 1 || k == px + 2 {
                            lemma_pix_injective(
                                pix_row(k, fw),
                                pix_col(k, fw),
                                pix_chan(k),
                                py,
                                qx,
                                k - px,
                                fw,
                            );
                        }
                    }
                }
                assert(frame@ =~= next);
            }
            let add_row = row + r + 1;
            if add_row < roi_h {
                proof {
                    lemma_pix_bound(add_row as int, col as int, 2, roi_w as int, roi_h as int);
                    lemma_col_sum_bound(tspec, roi_w as int, col as int, 0, lo, hi);
                    lemma_col_sum_bound(tspec, roi_w as int, col as int, 1, lo, hi);
                    lemma_col_sum_bound(tspec, roi_w as int, col as int, 2, lo, hi);
                }
                let src_i = (add_row * roi_w + col) * 3;
                s0 = s0 + tmp[src_i] as u64;
                s1 = s1 + tmp[src_i + 1] as u64;
                s2 = s2 + tmp[src_i + 2] as u64;
                cnt = cnt + 1;
            }
            let ghost hi2 = if add_row < roi_h {
                hi + 1
            } else {
                hi
            };
            if row >= r {
                proof {
                    lemma_pix_bound((row - r) as int, col as int, 2, roi_w as int, roi_h as int);
                    lemma_col_sum_drop_first(tspec, roi_w as int, col as int, 0, lo, hi2);
                    lemma_col_sum_bound(tspec, roi_w as int, col as int, 0, lo + 1, hi2);
                    lemma_col_sum_drop_first(tspec, roi_w as int, col as int, 1, lo, hi2);
                    lemma_col_sum_bound(tspec, roi_w as int, col as int, 1, lo + 1, hi2);
                    lemma_col_sum_drop_first(tspec, roi_w as int, col as int, 2, lo, hi2);
                    lemma_col_sum_bound(tspec, roi_w as int, col as int, 2, lo + 1, hi2);
                }
                let src_i = ((row - r) * roi_w + col) * 3;
                s0 = s0 - tmp[src_i] as u64;
                s1 = s1 - tmp[src_i + 1] as u64;
                s2 = s2 - tmp[src_i + 2] as u64;
                cnt = cnt - 1;
            }
            row = row + 1;
        }
        col = col + 1;
        proof {
            assert(v_partial(
                src,
                tspec,
                fw,
                x as int,
                y as int,
                roi_w as int,
                roi_h as int,
                r as int,
                (col - 1) as int,
                roi_h as int,
            ) =~= v_partial(
                src,
                tspec,
                fw,
                x as int,
                y as int,
                roi_w as int,
                roi_h as int,
                r as int,
                col as int,
                0,
            ));
        }
    }
    assert(frame@ =~= box_pass(
        src,
        fw,
        x as int,
        y as int,
        roi_w as int,
        roi_h as int,
        r as int,
    ));
}

// ---------------------------------------------------------------------------
// Gaussian blur
// ---------------------------------------------------------------------------

/// Number of complete pixel rows in a buffer of `len` bytes that is `fw` pixels wide.
pub open spec fn frame_rows(len: int, fw: int) -> int {
    len / (fw * 3)
}

pub open spec fn min_int(a: int, b: int) -> int {
    if a <= b {
        a
    } else {
        b
    }
}

/// Box radius for a region whose shorter side is `m`: a quarter of it, at
/// least 3, made odd.
pub open spec fn blur_radius(m: int) -> int {
    let q = if m / 4 >= 3 {
        m / 4
    } else {
        3
    };
    if q % 2 == 0 {
        q + 1
    } else {
        q
    }
}

/// The frame after `gaussian_blur_roi`: the region `[x, x2) x [y, y2)`,
/// clipped to the frame, is box-blurred three times with `blur_radius`
/// of its shorter side; regions narrower or lower than 4 pixels, and
/// empty ones, leave the frame as it is.
pub open spec fn gaussian_blur_spec(frame: Seq<u8>, fw: int, x: int, y: int, x2: int, y2: int) -> Seq<u8> {
    let cx = min_int(x, fw - 1);
    let cy2 = min_int(y2, frame_rows(frame.len() as int, fw));
    let cx2 = min_int(x2, fw);
    if cx >= cx2 || y >= cy2 {
        frame
    } else {
        let w = cx2 - cx;
        let h = cy2 - y;
        if w < 4 || h < 4 {
            frame
        } else {
            let r = blur_radius(min_int(w, h));
            let p1 = box_pass(frame, fw, cx, y, w, h, r);
            let p2 = box_pass(p1, fw, cx, y, w, h, r);
            box_pass(p2, fw, cx, y, w, h, r)
        }
    }
}

/// Gaussian blur via 3-pass box blur (good approximation, fast).
pub fn gaussian_blur_roi(frame: &mut [u8], frame_w: usize, x: usize, y: usize, x2: usize, y2: usize)
    requires
        frame_w > 0,
        frame_w * 3 <= usize::MAX,
    ensures
        final(frame)@ == gaussian_blur_spec(
            old(frame)@,
            frame_w as int,
            x as int,
            y as int,
            x2 as int,
            y2 as int,
        ),
{
    let ghost src = frame@;
    let flen = frame.len();
    let rows = flen / (frame_w * 3);
    let x = x.min(frame_w.saturating_sub(1));
    let y2 = y2.min(rows);
    let x2 = x2.min(frame_w);
    if x >= x2 || y >= y2 {
        return;
    }
    let roi_w = x2 - x;
    let roi_h = y2 - y;
    if roi_w < 4 || roi_h < 4 {
        return;
    }
    let m = roi_w.min(roi_h);
    let q = (m / 4).max(3);
    let r = q | 1;
    proof {
        assert(rows * (frame_w * 3) <= flen) by (nonlinear_arith)
            requires
                rows == flen as int / (frame_w as int * 3),
                frame_w > 0,
        ;
        assert(y2 * frame_w * 3 <= flen) by (nonlinear_arith)
            requires
                y2 <= rows,
                rows * (frame_w * 3) <= flen,
        ;
        assert(roi_w * roi_h <= y2 * frame_w) by (nonlinear_arith)
            requires
                roi_w <= frame_w,
                roi_h <= y2,
        ;
        assert(m < 0x1_0000_0000) by (nonlinear_arith)
            requires
                m <= roi_w,
                m <= roi_h,
                roi_w * roi_h <= y2 * frame_w,
                y2 * frame_w * 3 <= flen,
                flen <= usize::MAX,
                usize::MAX <= 0xFFFF_FFFF_FFFF_FFFF,
        ;
        assert(x2 * 3 <= frame_w * 3);
        assert(q <= 0xFFFF_FFFF);
        assert((q | 1) == if q % 2 == 0 {
            (q + 1) as usize
        } else {
            q
        }) by (bit_vector)
            requires
                q <= 0xFFFF_FFFF,
        ;

        assert(rows <= flen / 3) by (nonlinear_arith)
            requires
                rows == flen as int / (frame_w as int * 3),
                frame_w > 0,
        ;
    }
    box_blur_roi(frame, frame_w, x, y, x2, y2, r);
    box_blur_roi(frame, frame_w, x, y, x2, y2, r);
    box_blur_roi(frame, frame_w, x, y, x2, y2, r);
}

// ---------------------------------------------------------------------------
// Pixelation
// ---------------------------------------------------------------------------

pub open spec fn max_int(a: int, b: int) -> int {
    if a >= b {
        a
    } else {
        b
    }
}

pub open spec fn ceil_div(a: int, b: int) -> int {
    (a + b - 1) / b
}

/// First of the region rows (or columns) that block `i` of `parts` covers
/// on an axis of length `n`.
pub open spec fn span_lo(i: int, n: int, parts: int) -> int {
    min_int(i * n / parts, n - 1)
}

/// One past the last region row (or column) that block `i` of `parts` covers.
pub open spec fn span_hi(i: int, n: int, parts: int) -> int {
    min_int((i + 1) * n / parts, n)
}

/// Sum of channel `c` over region rows `ry0 .. ry1` and columns `rx0 .. rx1`
/// of the region whose top-left pixel is (`x`, `y`).
pub open spec fn rect_sum(
    frame: Seq<u8>,
    fw: int,
    x: int,
    y: int,
    c: int,
    ry0: int,
    ry1: int,
    rx0: int,
    rx1: int,
) -> int
    decreases ry1 - ry0,
{
    if ry1 <= ry0 {
        0
    } else {
        rect_sum(frame, fw, x, y, c, ry0, ry1 - 1, rx0, rx1) + row_sum(frame, fw, y + ry1 - 1, x, c, rx0, rx1)
    }
}

/// Edge length of the square blocks for a region `h` pixels high: a third of
/// its height, at least 8 pixels.
pub open spec fn pixel_block(h: int) -> int {
    max_int(h / 3, 8)
}

/// Number of blocks along an axis of length `n`.
pub open spec fn block_count(n: int, block: int) -> int {
    max_int(ceil_div(n, block), 1)
}

/// Byte `j` of the block means: channel `j % 3` averaged over the pixels of
/// block (`j / 3 / bw`, `j / 3 % bw`).
pub open spec fn block_mean(frame: Seq<u8>, fw: int, x: int, y: int, w: int, h: int, bw: int, bh: int, j: int) -> u8 {
    let by = pix_row(j, bw);
    let bx = pix_col(j, bw);
    let c = pix_chan(j);
    let ry0 = span_lo(by, h, bh);
    let ry1 = span_hi(by, h, bh);
    let rx0 = span_lo(bx, w, bw);
    let rx1 = span_hi(bx, w, bw);
    let cnt = (ry1 - ry0) * (rx1 - rx0);
    if cnt > 0 {
        (rect_sum(frame, fw, x, y, c, ry0, ry1, rx0, rx1) / cnt) as u8
    } else {
        0
    }
}

/// The clipped region that `pixelate_roi` works on, as (x, y, width, height).
pub open spec fn pixelate_region(len: int, fw: int, x: int, y: int, x2: int, y2: int) -> (int, int, int, int) {
    let fh = frame_rows(len, fw);
    let cx = min_int(x, fw - 1);
    let cy = min_int(y, max_int(fh - 1, 0));
    let cx2 = min_int(x2, fw);
    let cy2 = min_int(y2, fh);
    (cx, cy, cx2 - cx, cy2 - cy)
}

/// The index products of `pixelate_roi` fit in a `usize`.
pub open spec fn pixelate_fits(len: int, fw: int, x: int, y: int, x2: int, y2: int) -> bool {
    let (cx, cy, w, h) = pixelate_region(len, fw, x, y, x2, y2);
    let block = pixel_block(h);
    (w >= 2 && h >= 2) ==> (block_count(w, block) * w <= usize::MAX && block_count(h, block) * h
        <= usize::MAX)
}

/// The frame after `pixelate_roi`: every pixel of the clipped region takes
/// the mean colour of the block it falls in; the rest of the frame is kept.
/// Regions smaller than 2 pixels in either direction are left alone.
pub open spec fn pixelate_spec(frame: Seq<u8>, fw: int, x: int, y: int, x2: int, y2: int) -> Seq<u8> {
    let (cx, cy, w, h) = pixelate_region(frame.len() as int, fw, x, y, x2, y2);
    if w <= 0 || h <= 0 || w < 2 || h < 2 {
        frame
    } else {
        let block = pixel_block(h);
        let bw = block_count(w, block);
        let bh = block_count(h, block);
        let small = Seq::new((bw * bh * 3) as nat, |j: int| block_mean(frame, fw, cx, cy, w, h, bw, bh, j));
        Seq::new(
            frame.len(),
            |k: int|
                {
                    let ry = pix_row(k, fw) - cy;
                    let rx = pix_col(k, fw) - cx;
                    if 0 <= ry < h && 0 <= rx < w {
                        let by = min_int(ry * bh / h, bh - 1);
                        let bx = min_int(rx * bw / w, bw - 1);
                        small[pix(by, bx, pix_chan(k), bw)]
                    } else {
                        frame[k]
                    }
                },
        )
    }
}

proof fn lemma_rect_sum_bound(frame: Seq<u8>, fw: int, x: int, y: int, c: int, ry0: int, ry1: int, rx0: int, rx1: int)
    requires
        ry0 <= ry1,
        rx0 <= rx1,
    ensures
        0 <= rect_sum(frame, fw, x, y, c, ry0, ry1, rx0, rx1) <= 255 * ((ry1 - ry0) * (rx1 - rx0)),
    decreases ry1 - ry0,
{
    if ry0 < ry1 {
        lemma_rect_sum_bound(frame, fw, x, y, c, ry0, ry1 - 1, rx0, rx1);
        lemma_row_sum_bound(frame, fw, y + ry1 - 1, x, c, rx0, rx1);
        assert(255 * ((ry1 - 1 - ry0) * (rx1 - rx0)) + 255 * (rx1 - rx0) == 255 * ((ry1 - ry0) * (
        rx1 - rx0))) by (nonlinear_arith);
    }
}

/// Facts about the block spans of a `parts`-way split of an axis of length `n`.
proof fn lemma_span(i: int, n: int, parts: int)
    requires
        0 <= i < parts,
        0 < parts <= n,
    ensures
        0 <= span_lo(i, n, parts) <= span_hi(i, n, parts) <= n,
        span_lo(i, n, parts) < n,
        i * n <= (i + 1) * n,
        (i + 1) * n <= parts * n,
{
    assert(0 <= i * n) by (nonlinear_arith)
        requires
            0 <= i,
            0 < n,
    ;
    assert(i * n <= (i + 1) * n) by (nonlinear_arith)
        requires
            0 < n,
    ;
    assert((i + 1) * n <= parts * n) by (nonlinear_arith)
        requires
            i + 1 <= parts,
            0 < n,
    ;
    vstd::arithmetic::div_mod::lemma_div_is_ordered(i * n, (i + 1) * n, parts);
    vstd::arithmetic::div_mod::lemma_div_pos_is_pos(i * n, parts);
}

/// Block lookup of a region position: `min(q * parts / n, parts - 1)` is a block index.
proof fn lemma_block_of(q: int, n: int, parts: int)
    requires
        0 <= q < n,
        0 < parts,
    ensures
        0 <= min_int(q * parts / n, parts - 1) < parts,
        q * parts <= n * parts,
{
    assert(0 <= q * parts) by (nonlinear_arith)
        requires
            0 <= q,
            0 < parts,
    ;
    assert(q * parts <= n * parts) by (nonlinear_arith)
        requires
            q < n,
            0 < parts,
    ;
    vstd::arithmetic::div_mod::lemma_div_pos_is_pos(q * parts, n);
}

/// Pixelates the region with blocks a third of its height (at least 8 pixels),
/// so that lettering on number plates cannot be read even in large boxes.
pub fn pixelate_roi(frame: &mut [u8], frame_w: usize, x: usize, y: usize, x2: usize, y2: usize)
    requires
        frame_w > 0,
        frame_w * 3 <= usize::MAX,
        pixelate_fits(old(frame)@.len() as int, frame_w as int, x as int, y as int, x2 as int, y2 as int),
    ensures
        final(frame)@ == pixelate_spec(old(frame)@, frame_w as int, x as int, y as int, x2 as int, y2 as int),
{
    let ghost src = frame@;
    let ghost fw = frame_w as int;
    let flen = frame.len();
    let frame_h = flen / (frame_w * 3);
    let x = x.min(frame_w.saturating_sub(1));
    let y = y.min(frame_h.saturating_sub(1));
    let x2 = x2.min(frame_w);
    let y2 = y2.min(frame_h);
    if x >= x2 || y >= y2 {
        return;
    }
    let roi_w = x2 - x;
    let roi_h = y2 - y;
    if roi_w < 2 || roi_h < 2 {
        return;
    }
    let block = (roi_h / 3).max(8);
    proof {
        assert(frame_h * (frame_w * 3) <= flen) by (nonlinear_arith)
            requires
                frame_h == flen as int / (frame_w as int * 3),
                frame_w > 0,
        ;
        assert(frame_h * 3 <= flen) by (nonlinear_arith)
            requires
                frame_h * (frame_w * 3) <= flen,
                frame_w > 0,
                frame_h >= 0,
        ;
        assert(frame_w * 3 <= flen) by (nonlinear_arith)
            requires
                frame_h * (frame_w * 3) <= flen,
                frame_h >= 1,
        ;
    }
    let bw = ((roi_w + block - 1) / block).max(1);
    let bh = ((roi_h + block - 1) / block).max(1);
    proof {
        assert(frame_h * (frame_w * 3) <= flen) by (nonlinear_arith)
            requires
                frame_h == flen as int / (frame_w as int * 3),
                frame_w > 0,
        ;
        assert(y2 * frame_w * 3 <= flen) by (nonlinear_arith)
            requires
                y2 <= frame_h,
                frame_h * (frame_w * 3) <= flen,
        ;
        assert(roi_w * roi_h <= y2 * frame_w) by (nonlinear_arith)
            requires
                roi_w <= frame_w,
                roi_h <= y2,
        ;
        assert(bw <= roi_w) by (nonlinear_arith)
            requires
                bw == if (roi_w as int + block as int - 1) / (block as int) >= 1 {
                    (roi_w as int + block as int - 1) / (block as int)
                } else {
                    1
                },
                block >= 8,
                roi_w >= 2,
        ;
        assert(bh <= roi_h) by (nonlinear_arith)
            requires
                bh == if (roi_h as int + block as int - 1) / (block as int) >= 1 {
                    (roi_h as int + block as int - 1) / (block as int)
                } else {
                    1
                },
                block >= 8,
                roi_h >= 2,
        ;
        assert(bw * bh <= roi_w * roi_h) by (nonlinear_arith)
            requires
                1 <= bw <= roi_w,
                1 <= bh <= roi_h,
        ;
    }
    let ghost small_spec = Seq::new(
        (bw * bh * 3) as nat,
        |j: int| block_mean(src, fw, x as int, y as int, roi_w as int, roi_h as int, bw as int, bh as int, j),
    );

    // Downsample: average bw x bh blocks.
    let mut small: Vec<u8> = Vec::new();
    let mut by: usize = 0;
    while by < bh
        invariant
            frame@ == src,
            fw == frame_w as int,
            flen == src.len(),
            x < x2 <= frame_w,
            y < y2,
            roi_w == x2 - x,
            roi_h == y2 - y,
            roi_w >= 2,
            roi_h >= 2,
            y2 * frame_w * 3 <= flen,
            roi_w * roi_h <= y2 * frame_w,
            1 <= bw <= roi_w,
            1 <= bh <= roi_h,
            bw * bh <= roi_w * roi_h,
            bw * roi_w <= usize::MAX,
            bh * roi_h <= usize::MAX,
            by <= bh,
            small@.len() == by * bw * 3,
            forall|j: int| 0 <= j < small@.len() ==> small@[j] == small_spec[j],
            small_spec == Seq::new(
                (bw * bh * 3) as nat,
                |j: int| block_mean(src, fw, x as int, y as int, roi_w as int, roi_h as int, bw as int, bh as int, j),
            ),
        decreases bh - by,
    {
        let mut bx: usize = 0;
        while bx < bw
            invariant
                frame@ == src,
                fw == frame_w as int,
                flen == src.len(),
                x < x2 <= frame_w,
                y < y2,
                roi_w == x2 - x,
                roi_h == y2 - y,
                roi_w >= 2,
                roi_h >= 2,
                y2 * frame_w * 3 <= flen,
                roi_w * roi_h <= y2 * frame_w,
                1 <= bw <= roi_w,
                1 <= bh <= roi_h,
                bw * bh <= roi_w * roi_h,
                bw * roi_w <= usize::MAX,
                bh * roi_h <= usize::MAX,
                by < bh,
                bx <= bw,
                small@.len() == (by * bw + bx) * 3,
                forall|j: int| 0 <= j < small@.len() ==> small@[j] == small_spec[j],
                small_spec == Seq::new(
                    (bw * bh * 3) as nat,
                    |j: int| block_mean(src, fw, x as int, y as int, roi_w as int, roi_h as int, bw as int, bh as int, j),
                ),
            decreases bw - bx,
        {
            proof {
                lemma_span(by as int, roi_h as int, bh as int);
                lemma_span(bx as int, roi_w as int, bw as int);
                assert((by + 1) * roi_h <= bh * roi_h);
                assert((bx + 1) * roi_w <= bw * roi_w);
            }
            let ry0 = (by * roi_h / bh).min(roi_h - 1);
            let ry1 = ((by + 1) * roi_h / bh).min(roi_h);
            let rx0 = (bx * roi_w / bw).min(roi_w - 1);
            let rx1 = ((bx + 1) * roi_w / bw).min(roi_w);
            proof {
                assert((ry1 - ry0) * (rx1 - rx0) <= roi_h * roi_w) by (nonlinear_arith)
                    requires
                        0 <= ry1 - ry0 <= roi_h,
                        0 <= rx1 - rx0 <= roi_w,
                ;
                assert(roi_h * roi_w == roi_w * roi_h) by (nonlinear_arith);
            }
            let cnt = ((ry1 - ry0) * (rx1 - rx0)) as u128;
            let mut s0: u128 = 0;
            let mut s1: u128 = 0;
            let mut s2: u128 = 0;
            let mut ry: usize = ry0;
            while ry < ry1
                invariant
                    frame@ == src,
                    fw == frame_w as int,
                    flen == src.len(),
                    x < x2 <= frame_w,
                    y < y2,
                    roi_w == x2 - x,
                    roi_h == y2 - y,
                    y2 * frame_w * 3 <= flen,
                    roi_w * roi_h <= y2 * frame_w,
                    0 <= ry0 <= ry1 <= roi_h,
                    0 <= rx0 <= rx1 <= roi_w,
                    ry0 <= ry <= ry1,
                    s0 == rect_sum(src, fw, x as int, y as int, 0, ry0 as int, ry as int, rx0 as int, rx1 as int),
                    s1 == rect_sum(src, fw, x as int, y as int, 1, ry0 as int, ry as int, rx0 as int, rx1 as int),
                    s2 == rect_sum(src, fw, x as int, y as int, 2, ry0 as int, ry as int, rx0 as int, rx1 as int),
                decreases ry1 - ry,
            {
                let mut t0: u128 = 0;
                let mut t1: u128 = 0;
                let mut t2: u128 = 0;
                let mut rx: usize = rx0;
                let ghost py = (y + ry) as int;
                while rx < rx1
                    invariant
                        frame@ == src,
                        fw == frame_w as int,
                        flen == src.len(),
                        x < x2 <= frame_w,
                        y < y2,
                        roi_w == x2 - x,
                        roi_h == y2 - y,
                        y2 * frame_w * 3 <= flen,
                        0 <= ry0 <= ry < ry1 <= roi_h,
                        0 <= rx0 <= rx1 <= roi_w,
                        py == y + ry,
                        rx0 <= rx <= rx1,
                        t0 == row_sum(src, fw, py, x as int, 0, rx0 as int, rx as int),
                        t1 == row_sum(src, fw, py, x as int, 1, rx0 as int, rx as int),
                        t2 == row_sum(src, fw, py, x as int, 2, rx0 as int, rx as int),
                    decreases rx1 - rx,
                {
                    proof {
                        lemma_pix_bound(py, (x + rx) as int, 2, fw, y2 as int);
                        lemma_row_sum_bound(src, fw, py, x as int, 0, rx0 as int, rx as int);
                        lemma_row_sum_bound(src, fw, py, x as int, 1, rx0 as int, rx as int);
                        lemma_row_sum_bound(src, fw, py, x as int, 2, rx0 as int, rx as int);
                    }
                    let px = ((y + ry) * frame_w + (x + rx)) * 3;
                    if px + 2 < frame.len() {
                        t0 = t0 + frame[px] as u128;
                        t1 = t1 + frame[px + 1] as u128;
                        t2 = t2 + frame[px + 2] as u128;
                    }
                    rx = rx + 1;
                }
                proof {
                    lemma_rect_sum_bound(src, fw, x as int, y as int, 0, ry0 as int, ry as int, rx0 as int, rx1 as int);
                    lemma_rect_sum_bound(src, fw, x as int, y as int, 1, ry0 as int, ry as int, rx0 as int, rx1 as int);
                    lemma_rect_sum_bound(src, fw, x as int, y as int, 2, ry0 as int, ry as int, rx0 as int, rx1 as int);
                    lemma_row_sum_bound(src, fw, py, x as int, 0, rx0 as int, rx1 as int);
                    lemma_row_sum_bound(src, fw, py, x as int, 1, rx0 as int, rx1 as int);
                    lemma_row_sum_bound(src, fw, py, x as int, 2, rx0 as int, rx1 as int);
                    assert((ry - ry0) * (rx1 - rx0) <= roi_h * roi_w) by (nonlinear_arith)
                        requires
                            0 <= ry - ry0 <= roi_h,
                            0 <= rx1 - rx0 <= roi_w,
                    ;
                    assert(roi_h * roi_w <= y2 * frame_w) by (nonlinear_arith)
                        requires
                            roi_w * roi_h <= y2 * frame_w,
                    ;
                }
                s0 = s0 + t0;
                s1 = s1 + t1;
                s2 = s2 + t2;
                ry = ry + 1;
            }
            proof {
                lemma_pix_split(by as int, bx as int, 0, bw as int);
                lemma_pix_split(by as int, bx as int, 1, bw as int);
                lemma_pix_split(by as int, bx as int, 2, bw as int);
                assert(pix(by as int, bx as int, 0, bw as int) == (by * bw + bx) * 3);
                lemma_pix_bound(by as int, bx as int, 2, bw as int, bh as int);
            }
            let ghost len0 = small@.len() as int;
            if cnt > 0 {
                small.push((s0 / cnt) as u8);
                small.push((s1 / cnt) as u8);
                small.push((s2 / cnt) as u8);
            } else {
                small.push(0);
                small.push(0);
                small.push(0);
            }
            proof {
                let ghost xs = x as int;
                let ghost ys = y as int;
                assert(ry == ry1);
                assert(bh * bw * 3 == bw * bh * 3) by (nonlinear_arith);
                assert(small_spec.len() == bw * bh * 3);
                assert forall|c: int| 0 <= c < 3 implies #[trigger] small@[len0 + c] == small_spec[len0 + c] by {
                    let j = len0 + c;
                    assert(j == pix(by as int, bx as int, c, bw as int));
                    lemma_pix_split(by as int, bx as int, c, bw as int);
                    assert(pix_row(j, bw as int) == by);
                    assert(pix_col(j, bw as int) == bx);
                    assert(pix_chan(j) == c);
                    assert(span_lo(by as int, roi_h as int, bh as int) == ry0);
                    assert(span_hi(by as int, roi_h as int, bh as int) == ry1);
                    assert(span_lo(bx as int, roi_w as int, bw as int) == rx0);
                    assert(span_hi(bx as int, roi_w as int, bw as int) == rx1);
                    assert(small_spec[j] == block_mean(src, fw, xs, ys, roi_w as int, roi_h as int, bw as int, bh as int, j));
                    if c == 0 {
                        assert(s0 == rect_sum(src, fw, xs, ys, 0, ry0 as int, ry1 as int, rx0 as int, rx1 as int));
                    } else if c == 1 {
                        assert(s1 == rect_sum(src, fw, xs, ys, 1, ry0 as int, ry1 as int, rx0 as int, rx1 as int));
                    } else {
                        assert(s2 == rect_sum(src, fw, xs, ys, 2, ry0 as int, ry1 as int, rx0 as int, rx1 as int));
                    }
                }
            }
            bx = bx + 1;
            proof {
                assert(small@.len() == (by * bw + bx) * 3) by (nonlinear_arith)
                    requires
                        small@.len() == (by * bw + (bx - 1)) * 3 + 3,
                ;
            }
        }
        by = by + 1;
        proof {
            assert(small@.len() == by * bw * 3) by (nonlinear_arith)
                requires
                    small@.len() == ((by - 1) * bw + bw) * 3,
            ;
        }
    }
    proof {
        assert(small@.len() == bw * bh * 3) by (nonlinear_arith)
            requires
                small@.len() == bh * bw * 3,
        ;
    }
    assert(small@ =~= small_spec);
    let ghost target = pixelate_spec(src, fw, x as int, y as int, x2 as int, y2 as int);

    // Upsample: nearest neighbour back into the frame.
    let mut ry: usize = 0;
    while ry < roi_h
        invariant
            small@ == small_spec,
            small_spec.len() == bw * bh * 3,
            fw == frame_w as int,
            flen == src.len(),
            frame@.len() == src.len(),
            x < x2 <= frame_w,
            y < y2,
            roi_w == x2 - x,
            roi_h == y2 - y,
            y2 * frame_w * 3 <= flen,
            1 <= bw <= roi_w,
            1 <= bh <= roi_h,
            bw * bh <= roi_w * roi_h,
            roi_w * roi_h <= y2 * frame_w,
            bw * roi_w <= usize::MAX,
            bh * roi_h <= usize::MAX,
            ry <= roi_h,
            forall|k: int|
                0 <= k < src.len() ==> frame@[k] == {
                    let kr = pix_row(k, fw) - y;
                    let kc = pix_col(k, fw) - x;
                    if 0 <= kr < ry && 0 <= kc < roi_w {
                        small_spec[pix(
                            min_int(kr * (bh as int) / (roi_h as int), bh - 1),
                            min_int(kc * (bw as int) / (roi_w as int), bw - 1),
                            pix_chan(k),
                            bw as int,
                        )]
                    } else {
                        src[k]
                    }
                },
        decreases roi_h - ry,
    {
        let mut rx: usize = 0;
        while rx < roi_w
            invariant
                small@ == small_spec,
                small_spec.len() == bw * bh * 3,
                fw == frame_w as int,
                flen == src.len(),
                frame@.len() == src.len(),
                x < x2 <= frame_w,
                y < y2,
                roi_w == x2 - x,
                roi_h == y2 - y,
                y2 * frame_w * 3 <= flen,
                1 <= bw <= roi_w,
                1 <= bh <= roi_h,
                bw * bh <= roi_w * roi_h,
                roi_w * roi_h <= y2 * frame_w,
                bw * roi_w <= usize::MAX,
                bh * roi_h <= usize::MAX,
                ry < roi_h,
                rx <= roi_w,
                forall|k: int|
                    0 <= k < src.len() ==> frame@[k] == {
                        let kr = pix_row(k, fw) - y;
                        let kc = pix_col(k, fw) - x;
                        if 0 <= kc < roi_w && (0 <= kr < ry || (kr == ry && kc < rx)) {
                            small_spec[pix(
                                min_int(kr * (bh as int) / (roi_h as int), bh - 1),
                                min_int(kc * (bw as int) / (roi_w as int), bw - 1),
                                pix_chan(k),
                                bw as int,
                            )]
                        } else {
                            src[k]
                        }
                    },
            decreases roi_w - rx,
        {
            proof {
                lemma_block_of(ry as int, roi_h as int, bh as int);
                lemma_block_of(rx as int, roi_w as int, bw as int);
                assert(ry * bh <= bh * roi_h) by (nonlinear_arith)
                    requires
                        ry * bh <= roi_h * bh,
                ;
                assert(rx * bw <= bw * roi_w) by (nonlinear_arith)
                    requires
                        rx * bw <= roi_w * bw,
                ;
            }
            let by = (ry * bh / roi_h).min(bh - 1);
            let bx = (rx * bw / roi_w).min(bw - 1);
            let ghost py = (y + ry) as int;
            let ghost qx = (x + rx) as int;
            proof {
                lemma_pix_bound(by as int, bx as int, 2, bw as int, bh as int);
                assert(bh * bw * 3 == bw * bh * 3) by (nonlinear_arith);
                lemma_pix_bound(py, qx, 2, fw, y2 as int);
                lemma_pix_split(py, qx, 0, fw);
                lemma_pix_split(py, qx, 1, fw);
                lemma_pix_split(py, qx, 2, fw);
            }
            let src_i = (by * bw + bx) * 3;
            let px = ((y + ry) * frame_w + (x + rx)) * 3;
            let ghost before = frame@;
            if px + 2 < frame.len() && src_i + 2 < small.len() {
                frame[px] = small[src_i];
                frame[px + 1] = small[src_i + 1];
                frame[px + 2] = small[src_i + 2];
            }
            proof {
                assert forall|k: int| 0 <= k < src.len() implies frame@[k] == {
                    let kr = pix_row(k, fw) - y;
                    let kc = pix_col(k, fw) - x;
                    if 0 <= kc < roi_w && (0 <= kr < ry || (kr == ry && kc < rx + 1)) {
                        small_spec[pix(
                            min_int(kr * (bh as int) / (roi_h as int), bh - 1),
                            min_int(kc * (bw as int) / (roi_w as int), bw - 1),
                            pix_chan(k),
                            bw as int,
                        )]
                    } else {
                        src[k]
                    }
                } by {
                    lemma_pix_join(k, fw);
                    if pix_row(k, fw) == py && pix_col(k, fw) == qx {
                        assert(k == pix(py, qx, pix_chan(k), fw));
                    } else {
                        if k == px as int || k == px + 1 || k == px + 2 {
                            lemma_pix_injective(
                                pix_row(k, fw),
                                pix_col(k, fw),
                                pix_chan(k),
                                py,
                                qx,
                                k - px,
                                fw,
                            );
                        }
                    }
                }
            }
            rx = rx + 1;
        }
        ry = ry + 1;
    }
    assert(frame@ =~= target);
}

// ---------------------------------------------------------------------------
// Laws
// ---------------------------------------------------------------------------

/// Byte `k` of the frame lies in the `w` x `h` region at (`x`, `y`).
pub open spec fn in_region(k: int, fw: int, x: int, y: int, w: int, h: int) -> bool {
    0 <= pix_row(k, fw) - y < h && 0 <= pix_col(k, fw) - x < w
}

/// Blurring changes nothing outside the region (clipped to the frame): the
/// pixels around a face stay as they were.
pub proof fn law_blur_keeps_outside(frame: Seq<u8>, fw: int, x: int, y: int, x2: int, y2: int, k: int)
    requires
        fw > 0,
        0 <= k < frame.len(),
        !in_region(
            k,
            fw,
            min_int(x, fw - 1),
            y,
            min_int(x2, fw) - min_int(x, fw - 1),
            min_int(y2, frame_rows(frame.len() as int, fw)) - y,
        ),
    ensures
        gaussian_blur_spec(frame, fw, x, y, x2, y2)[k] == frame[k],
        gaussian_blur_spec(frame, fw, x, y, x2, y2).len() == frame.len(),
{
    let cx = min_int(x, fw - 1);
    let cy2 = min_int(y2, frame_rows(frame.len() as int, fw));
    let cx2 = min_int(x2, fw);
    if !(cx >= cx2 || y >= cy2) {
        let w = cx2 - cx;
        let h = cy2 - y;
        if !(w < 4 || h < 4) {
            let r = blur_radius(min_int(w, h));
            let p1 = box_pass(frame, fw, cx, y, w, h, r);
            let p2 = box_pass(p1, fw, cx, y, w, h, r);
            assert(p1[k] == frame[k]);
            assert(p2[k] == p1[k]);
        }
    }
}

/// Pixelation changes nothing outside the region (clipped to the frame).
pub proof fn law_pixelate_keeps_outside(frame: Seq<u8>, fw: int, x: int, y: int, x2: int, y2: int, k: int)
    requires
        fw > 0,
        0 <= k < frame.len(),
        ({
            let (cx, cy, w, h) = pixelate_region(frame.len() as int, fw, x, y, x2, y2);
            !in_region(k, fw, cx, cy, w, h)
        }),
    ensures
        pixelate_spec(frame, fw, x, y, x2, y2)[k] == frame[k],
        pixelate_spec(frame, fw, x, y, x2, y2).len() == frame.len(),
{
}

/// Block of region position `q` on an axis of `n` pixels split in `parts`.
pub open spec fn block_of(q: int, n: int, parts: int) -> int {
    min_int(q * parts / n, parts - 1)
}

/// Inside the region, two pixels of the same block get the same colour: the
/// block's mean. This is what makes plates unreadable.
pub proof fn law_pixelate_blocks_uniform(
    frame: Seq<u8>,
    fw: int,
    x: int,
    y: int,
    x2: int,
    y2: int,
    k1: int,
    k2: int,
)
    requires
        fw > 0,
        0 <= k1 < frame.len(),
        0 <= k2 < frame.len(),
        pix_chan(k1) == pix_chan(k2),
        ({
            let (cx, cy, w, h) = pixelate_region(frame.len() as int, fw, x, y, x2, y2);
            let bw = block_count(w, pixel_block(h));
            let bh = block_count(h, pixel_block(h));
            &&& w >= 2
            &&& h >= 2
            &&& in_region(k1, fw, cx, cy, w, h)
            &&& in_region(k2, fw, cx, cy, w, h)
            &&& block_of(pix_row(k1, fw) - cy, h, bh) == block_of(pix_row(k2, fw) - cy, h, bh)
            &&& block_of(pix_col(k1, fw) - cx, w, bw) == block_of(pix_col(k2, fw) - cx, w, bw)
        }),
    ensures
        pixelate_spec(frame, fw, x, y, x2, y2)[k1] == pixelate_spec(frame, fw, x, y, x2, y2)[k2],
{
}

/// Channel `c` of every pixel of the `w` x `h` region at (`x`, `y`) lies
/// between `lo` and `hi`.
pub open spec fn region_chan_within(
    frame: Seq<u8>,
    fw: int,
    x: int,
    y: int,
    w: int,
    h: int,
    c: int,
    lo: int,
    hi: int,
) -> bool {
    forall|k: int|
        #![trigger frame[k]]
        0 <= k < frame.len() && in_region(k, fw, x, y, w, h) && pix_chan(k) == c ==> lo <= frame[k] <= hi
}

proof fn lemma_row_sum_within(frame: Seq<u8>, fw: int, py: int, x: int, c: int, a: int, b: int, lo: int, hi: int)
    requires
        a <= b,
        forall|i: int| a <= i < b ==> lo <= #[trigger] frame[pix(py, x + i, c, fw)] <= hi,
    ensures
        lo * (b - a) <= row_sum(frame, fw, py, x, c, a, b) <= hi * (b - a),
    decreases b - a,
{
    if a < b {
        lemma_row_sum_within(frame, fw, py, x, c, a, b - 1, lo, hi);
        assert(lo <= frame[pix(py, x + (b - 1), c, fw)] <= hi);
        assert(lo * (b - a) == lo * (b - 1 - a) + lo) by (nonlinear_arith);
        assert(hi * (b - a) == hi * (b - 1 - a) + hi) by (nonlinear_arith);
    } else {
        assert(lo * (b - a) == 0 && hi * (b - a) == 0) by (nonlinear_arith)
            requires
                a == b,
        ;
    }
}

proof fn lemma_col_sum_within(t: Seq<u8>, w: int, col: int, c: int, a: int, b: int, lo: int, hi: int)
    requires
        a <= b,
        forall|i: int| a <= i < b ==> lo <= #[trigger] t[pix(i, col, c, w)] <= hi,
    ensures
        lo * (b - a) <= col_sum(t, w, col, c, a, b) <= hi * (b - a),
    decreases b - a,
{
    if a < b {
        lemma_col_sum_within(t, w, col, c, a, b - 1, lo, hi);
        assert(lo <= t[pix(b - 1, col, c, w)] <= hi);
        assert(lo * (b - a) == lo * (b - 1 - a) + lo) by (nonlinear_arith);
        assert(hi * (b - a) == hi * (b - 1 - a) + hi) by (nonlinear_arith);
    } else {
        assert(lo * (b - a) == 0 && hi * (b - a) == 0) by (nonlinear_arith)
            requires
                a == b,
        ;
    }
}

proof fn lemma_mean_within(s: int, n: int, lo: int, hi: int)
    requires
        n > 0,
        lo * n <= s <= hi * n,
    ensures
        lo <= s / n <= hi,
{
    assert(lo <= s / n) by (nonlinear_arith)
        requires
            n > 0,
            lo * n <= s,
    ;
    assert(s / n <= hi) by (nonlinear_arith)
        requires
            n > 0,
            s <= hi * n,
    ;
}

proof fn lemma_window(i: int, r: int, n: int)
    requires
        0 <= i < n,
        r >= 0,
    ensures
        0 <= win_lo(i, r) <= i < win_hi(i, r, n) <= n,
{
}

/// The horizontal pass keeps channel `c` of the region between `lo` and `hi`.
proof fn lemma_h_pass_within(
    frame: Seq<u8>,
    fw: int,
    x: int,
    y: int,
    w: int,
    h: int,
    r: int,
    c: int,
    lo: int,
    hi: int,
)
    requires
        0 <= x,
        0 <= y,
        0 < w,
        0 < h,
        x + w <= fw,
        (y + h) * fw * 3 <= frame.len(),
        r >= 0,
        0 <= c < 3,
        0 <= lo <= hi <= 255,
        region_chan_within(frame, fw, x, y, w, h, c, lo, hi),
    ensures
        forall|j: int|
            0 <= j < w * h * 3 && pix_chan(j) == c ==> lo <= #[trigger] h_pass(frame, fw, x, y, w, h, r)[j] <= hi,
{
    let t = h_pass(frame, fw, x, y, w, h, r);
    assert forall|j: int| 0 <= j < w * h * 3 && pix_chan(j) == c implies lo <= #[trigger] t[j] <= hi by {
        lemma_pix_join(j, w);
        let row = pix_row(j, w);
        let col = pix_col(j, w);
        assert(row < h) by (nonlinear_arith)
            requires
                row == (j / 3) / w,
                0 <= j < w * h * 3,
                w > 0,
        ;
        let py = y + row;
        lemma_window(col, r, w);
        let a = win_lo(col, r);
        let b = win_hi(col, r, w);
        assert forall|i: int| a <= i < b implies lo <= #[trigger] frame[pix(py, x + i, c, fw)] <= hi by {
            lemma_pix_split(py, x + i, c, fw);
            lemma_pix_bound(py, x + i, c, fw, y + h);
            let k = pix(py, x + i, c, fw);
            assert(in_region(k, fw, x, y, w, h));
            assert(lo <= frame[k] <= hi);
        }
        lemma_row_sum_within(frame, fw, py, x, c, a, b, lo, hi);
        lemma_mean_within(row_sum(frame, fw, py, x, c, a, b), b - a, lo, hi);
        assert(t[j] == h_value(frame, fw, x, y, w, r, j));
    }
}

/// A box pass keeps channel `c` of the region between `lo` and `hi`.
proof fn lemma_box_pass_within(
    frame: Seq<u8>,
    fw: int,
    x: int,
    y: int,
    w: int,
    h: int,
    r: int,
    c: int,
    lo: int,
    hi: int,
)
    requires
        0 <= x,
        0 <= y,
        0 < w,
        0 < h,
        x + w <= fw,
        (y + h) * fw * 3 <= frame.len(),
        r >= 0,
        0 <= c < 3,
        0 <= lo <= hi <= 255,
        region_chan_within(frame, fw, x, y, w, h, c, lo, hi),
    ensures
        box_pass(frame, fw, x, y, w, h, r).len() == frame.len(),
        region_chan_within(box_pass(frame, fw, x, y, w, h, r), fw, x, y, w, h, c, lo, hi),
{
    let t = h_pass(frame, fw, x, y, w, h, r);
    let out = box_pass(frame, fw, x, y, w, h, r);
    lemma_h_pass_within(frame, fw, x, y, w, h, r, c, lo, hi);
    assert(w * h >= 0) by (nonlinear_arith)
        requires
            w > 0,
            h > 0,
    ;
    assert forall|k: int|
        0 <= k < out.len() && in_region(k, fw, x, y, w, h) && pix_chan(k) == c implies lo <= #[trigger] out[k]
        <= hi by {
        let row = pix_row(k, fw) - y;
        let col = pix_col(k, fw) - x;
        lemma_window(row, r, h);
        let a = win_lo(row, r);
        let b = win_hi(row, r, h);
        assert forall|i: int| a <= i < b implies lo <= #[trigger] t[pix(i, col, c, w)] <= hi by {
            lemma_pix_split(i, col, c, w);
            lemma_pix_bound(i, col, c, w, h);
            assert(h * w * 3 == w * h * 3) by (nonlinear_arith);
        }
        lemma_col_sum_within(t, w, col, c, a, b, lo, hi);
        lemma_mean_within(col_sum(t, w, col, c, a, b), b - a, lo, hi);
        assert(out[k] == v_value(frame, t, fw, x, y, w, h, r, k));
    }
}

/// Blurring keeps each channel of the region within the range it had: if
/// channel `c` of every pixel of the (clipped) region lay between `lo` and
/// `hi` before, it does after. Taking `lo` and `hi` as the channel's old
/// minimum and maximum, every byte stays between them.
pub proof fn law_blur_stays_in_channel_range(
    frame: Seq<u8>,
    fw: int,
    x: int,
    y: int,
    x2: int,
    y2: int,
    c: int,
    lo: int,
    hi: int,
)
    requires
        fw > 0,
        0 <= x,
        0 <= y,
        0 <= c < 3,
        0 <= lo <= hi <= 255,
        region_chan_within(
            frame,
            fw,
            min_int(x, fw - 1),
            y,
            min_int(x2, fw) - min_int(x, fw - 1),
            min_int(y2, frame_rows(frame.len() as int, fw)) - y,
            c,
            lo,
            hi,
        ),
    ensures
        region_chan_within(
            gaussian_blur_spec(frame, fw, x, y, x2, y2),
            fw,
            min_int(x, fw - 1),
            y,
            min_int(x2, fw) - min_int(x, fw - 1),
            min_int(y2, frame_rows(frame.len() as int, fw)) - y,
            c,
            lo,
            hi,
        ),
{
    let cx = min_int(x, fw - 1);
    let cy2 = min_int(y2, frame_rows(frame.len() as int, fw));
    let cx2 = min_int(x2, fw);
    if !(cx >= cx2 || y >= cy2) {
        let w = cx2 - cx;
        let h = cy2 - y;
        if !(w < 4 || h < 4) {
            let r = blur_radius(min_int(w, h));
            assert(cy2 * fw * 3 <= frame.len()) by (nonlinear_arith)
                requires
                    cy2 <= (frame.len() as int) / (fw * 3),
                    fw > 0,
            ;
            lemma_box_pass_within(frame, fw, cx, y, w, h, r, c, lo, hi);
            let p1 = box_pass(frame, fw, cx, y, w, h, r);
            lemma_box_pass_within(p1, fw, cx, y, w, h, r, c, lo, hi);
            let p2 = box_pass(p1, fw, cx, y, w, h, r);
            lemma_box_pass_within(p2, fw, cx, y, w, h, r, c, lo, hi);
        }
    }
}

/// A region whose channel `c` is one colour `v` keeps that colour: blurring
/// a flat region leaves it as it was.
pub proof fn law_blur_keeps_flat_region(frame: Seq<u8>, fw: int, x: int, y: int, x2: int, y2: int, c: int, v: u8)
    requires
        fw > 0,
        0 <= x,
        0 <= y,
        0 <= c < 3,
        region_chan_within(
            frame,
            fw,
            min_int(x, fw - 1),
            y,
            min_int(x2, fw) - min_int(x, fw - 1),
            min_int(y2, frame_rows(frame.len() as int, fw)) - y,
            c,
            v as int,
            v as int,
        ),
    ensures
        forall|k: int|
            0 <= k < frame.len() && pix_chan(k) == c ==> #[trigger] gaussian_blur_spec(frame, fw, x, y, x2, y2)[k]
                == frame[k],
{
    law_blur_stays_in_channel_range(frame, fw, x, y, x2, y2, c, v as int, v as int);
    let out = gaussian_blur_spec(frame, fw, x, y, x2, y2);
    let cx = min_int(x, fw - 1);
    let w = min_int(x2, fw) - cx;
    let h = min_int(y2, frame_rows(frame.len() as int, fw)) - y;
    assert forall|k: int| 0 <= k < frame.len() && pix_chan(k) == c implies #[trigger] out[k] == frame[k] by {
        if in_region(k, fw, cx, y, w, h) {
            assert(out[k] == v);
            assert(frame[k] == v);
        } else {
            law_blur_keeps_outside(frame, fw, x, y, x2, y2, k);
        }
    }
}

/// The blur radius grows with the region: for a shorter side `m` it is at
/// least a quarter of `m` and at least 3, it is odd, and it exceeds the
/// larger of the two by at most one.
pub proof fn law_blur_radius_grows(m: int)
    requires
        m >= 0,
    ensures
        blur_radius(m) >= m / 4,
        blur_radius(m) >= 3,
        blur_radius(m) % 2 == 1,
        blur_radius(m) <= max_int(m / 4, 3) + 1,
{
}

/// A region of at least 4 x 4 pixels (clipped to the frame) is blurred by
/// three box passes of one radius `r` that is at least a quarter of its
/// shorter side and at least 3, odd, and at most one more than the larger
/// of the two.
pub proof fn law_gaussian_blur_radius(frame: Seq<u8>, fw: int, x: int, y: int, x2: int, y2: int)
    requires
        fw > 0,
        ({
            let cx = min_int(x, fw - 1);
            let w = min_int(x2, fw) - cx;
            let h = min_int(y2, frame_rows(frame.len() as int, fw)) - y;
            w >= 4 && h >= 4
        }),
    ensures
        ({
            let cx = min_int(x, fw - 1);
            let w = min_int(x2, fw) - cx;
            let h = min_int(y2, frame_rows(frame.len() as int, fw)) - y;
            let m = min_int(w, h);
            exists|r: int|
                #![trigger box_pass(frame, fw, cx, y, w, h, r)]
                r >= m / 4 && r >= 3 && r % 2 == 1 && r <= max_int(m / 4, 3) + 1 && gaussian_blur_spec(
                    frame,
                    fw,
                    x,
                    y,
                    x2,
                    y2,
                ) == box_pass(box_pass(box_pass(frame, fw, cx, y, w, h, r), fw, cx, y, w, h, r), fw, cx, y, w, h, r)
        }),
{
    let cx = min_int(x, fw - 1);
    let w = min_int(x2, fw) - cx;
    let h = min_int(y2, frame_rows(frame.len() as int, fw)) - y;
    let m = min_int(w, h);
    let r = blur_radius(m);
    law_blur_radius_grows(m);
    assert(box_pass(frame, fw, cx, y, w, h, r) == box_pass(frame, fw, cx, y, w, h, r));
}

proof fn lemma_rect_sum_within(
    frame: Seq<u8>,
    fw: int,
    x: int,
    y: int,
    c: int,
    ry0: int,
    ry1: int,
    rx0: int,
    rx1: int,
    lo: int,
    hi: int,
)
    requires
        ry0 <= ry1,
        rx0 <= rx1,
        forall|ry: int, rx: int|
            ry0 <= ry < ry1 && rx0 <= rx < rx1 ==> lo <= #[trigger] frame[pix(y + ry, x + rx, c, fw)] <= hi,
    ensures
        lo * ((ry1 - ry0) * (rx1 - rx0)) <= rect_sum(frame, fw, x, y, c, ry0, ry1, rx0, rx1) <= hi * ((ry1 - ry0) * (
        rx1 - rx0)),
    decreases ry1 - ry0,
{
    if ry0 < ry1 {
        lemma_rect_sum_within(frame, fw, x, y, c, ry0, ry1 - 1, rx0, rx1, lo, hi);
        assert forall|i: int| rx0 <= i < rx1 implies lo <= #[trigger] frame[pix(y + ry1 - 1, x + i, c, fw)] <= hi by {
            assert(frame[pix(y + (ry1 - 1), x + i, c, fw)] == frame[pix(y + ry1 - 1, x + i, c, fw)]);
        }
        lemma_row_sum_within(frame, fw, y + ry1 - 1, x, c, rx0, rx1, lo, hi);
        assert(lo * ((ry1 - ry0) * (rx1 - rx0)) == lo * ((ry1 - 1 - ry0) * (rx1 - rx0)) + lo * (rx1 - rx0))
            by (nonlinear_arith);
        assert(hi * ((ry1 - ry0) * (rx1 - rx0)) == hi * ((ry1 - 1 - ry0) * (rx1 - rx0)) + hi * (rx1 - rx0))
            by (nonlinear_arith);
    } else {
        assert(lo * ((ry1 - ry0) * (rx1 - rx0)) == 0 && hi * ((ry1 - ry0) * (rx1 - rx0)) == 0) by (nonlinear_arith)
            requires
                ry0 == ry1,
        ;
    }
}

/// Each block of a split of `n` positions into `parts <= n` blocks is not empty.
proof fn lemma_span_nonempty(i: int, n: int, parts: int)
    requires
        0 <= i < parts,
        0 < parts <= n,
    ensures
        span_lo(i, n, parts) < span_hi(i, n, parts),
{
    lemma_span(i, n, parts);
    assert(i * n / parts + 1 <= (i + 1) * n / parts) by (nonlinear_arith)
        requires
            0 <= i,
            0 < parts <= n,
    {
        vstd::arithmetic::div_mod::lemma_div_plus_one(i * n, parts);
        assert((i + 1) * n == i * n + n) by (nonlinear_arith);
        vstd::arithmetic::div_mod::lemma_div_is_ordered(i * n + parts, i * n + n, parts);
    }
    if (i + 1) * n / parts > n {
        vstd::arithmetic::div_mod::lemma_div_is_ordered((i + 1) * n, parts * n, parts);
        vstd::arithmetic::div_mod::lemma_div_multiples_vanish(n, parts);
        assert(parts * n == n * parts) by (nonlinear_arith);
    }
}

/// Pixelation keeps each channel of the region within the range it had: a
/// block takes the mean of the region pixels it covers, so if channel `c`
/// of every pixel of the (clipped) region lay between `lo` and `hi`, it
/// does after.
pub proof fn law_pixelate_stays_in_channel_range(
    frame: Seq<u8>,
    fw: int,
    x: int,
    y: int,
    x2: int,
    y2: int,
    c: int,
    lo: int,
    hi: int,
)
    requires
        fw > 0,
        0 <= x,
        0 <= y,
        0 <= c < 3,
        0 <= lo <= hi <= 255,
        ({
            let (cx, cy, w, h) = pixelate_region(frame.len() as int, fw, x, y, x2, y2);
            region_chan_within(frame, fw, cx, cy, w, h, c, lo, hi)
        }),
    ensures
        pixelate_spec(frame, fw, x, y, x2, y2).len() == frame.len(),
        ({
            let (cx, cy, w, h) = pixelate_region(frame.len() as int, fw, x, y, x2, y2);
            region_chan_within(pixelate_spec(frame, fw, x, y, x2, y2), fw, cx, cy, w, h, c, lo, hi)
        }),
{
    let (cx, cy, w, h) = pixelate_region(frame.len() as int, fw, x, y, x2, y2);
    let out = pixelate_spec(frame, fw, x, y, x2, y2);
    if !(w <= 0 || h <= 0 || w < 2 || h < 2) {
        let fh = frame_rows(frame.len() as int, fw);
        let block = pixel_block(h);
        let bw = block_count(w, block);
        let bh = block_count(h, block);
        let small = Seq::new((bw * bh * 3) as nat, |j: int| block_mean(frame, fw, cx, cy, w, h, bw, bh, j));
        assert((cy + h) * fw * 3 <= frame.len()) by (nonlinear_arith)
            requires
                cy + h <= fh,
                fh == (frame.len() as int) / (fw * 3),
                fw > 0,
        ;
        assert(bw <= w) by (nonlinear_arith)
            requires
                bw == max_int((w + block - 1) / block, 1),
                block >= 8,
                w >= 2,
        ;
        assert(bh <= h) by (nonlinear_arith)
            requires
                bh == max_int((h + block - 1) / block, 1),
                block >= 8,
                h >= 2,
        ;
        assert forall|k: int|
            0 <= k < out.len() && in_region(k, fw, cx, cy, w, h) && pix_chan(k) == c implies lo <= #[trigger] out[k]
            <= hi by {
            let ry = pix_row(k, fw) - cy;
            let rx = pix_col(k, fw) - cx;
            lemma_block_of(ry, h, bh);
            lemma_block_of(rx, w, bw);
            let by = min_int(ry * bh / h, bh - 1);
            let bx = min_int(rx * bw / w, bw - 1);
            let j = pix(by, bx, c, bw);
            lemma_pix_split(by, bx, c, bw);
            lemma_pix_bound(by, bx, c, bw, bh);
            assert(bh * bw * 3 == bw * bh * 3) by (nonlinear_arith);
            assert(out[k] == small[j]);
            lemma_span(by, h, bh);
            lemma_span(bx, w, bw);
            lemma_span_nonempty(by, h, bh);
            lemma_span_nonempty(bx, w, bw);
            let ry0 = span_lo(by, h, bh);
            let ry1 = span_hi(by, h, bh);
            let rx0 = span_lo(bx, w, bw);
            let rx1 = span_hi(bx, w, bw);
            assert forall|qy: int, qx: int| ry0 <= qy < ry1 && rx0 <= qx < rx1 implies lo <= #[trigger] frame[pix(
                cy + qy,
                cx + qx,
                c,
                fw,
            )] <= hi by {
                lemma_pix_split(cy + qy, cx + qx, c, fw);
                lemma_pix_bound(cy + qy, cx + qx, c, fw, cy + h);
                let q = pix(cy + qy, cx + qx, c, fw);
                assert(in_region(q, fw, cx, cy, w, h));
                assert(lo <= frame[q] <= hi);
            }
            lemma_rect_sum_within(frame, fw, cx, cy, c, ry0, ry1, rx0, rx1, lo, hi);
            let cnt = (ry1 - ry0) * (rx1 - rx0);
            assert(cnt > 0) by (nonlinear_arith)
                requires
                    ry0 < ry1,
                    rx0 < rx1,
                    cnt == (ry1 - ry0) * (rx1 - rx0),
            ;
            lemma_mean_within(rect_sum(frame, fw, cx, cy, c, ry0, ry1, rx0, rx1), cnt, lo, hi);
            assert(small[j] == block_mean(frame, fw, cx, cy, w, h, bw, bh, j));
        }
    }
}

/// A region whose channel `c` is one colour `v` keeps that colour when it
/// is pixelated: every block's mean is `v` again.
pub proof fn law_pixelate_keeps_flat_region(frame: Seq<u8>, fw: int, x: int, y: int, x2: int, y2: int, c: int, v: u8)
    requires
        fw > 0,
        0 <= x,
        0 <= y,
        0 <= c < 3,
        ({
            let (cx, cy, w, h) = pixelate_region(frame.len() as int, fw, x, y, x2, y2);
            region_chan_within(frame, fw, cx, cy, w, h, c, v as int, v as int)
        }),
    ensures
        forall|k: int|
            0 <= k < frame.len() && pix_chan(k) == c ==> #[trigger] pixelate_spec(frame, fw, x, y, x2, y2)[k]
                == frame[k],
{
    law_pixelate_stays_in_channel_range(frame, fw, x, y, x2, y2, c, v as int, v as int);
    let (cx, cy, w, h) = pixelate_region(frame.len() as int, fw, x, y, x2, y2);
    let out = pixelate_spec(frame, fw, x, y, x2, y2);
    assert forall|k: int| 0 <= k < frame.len() && pix_chan(k) == c implies #[trigger] out[k] == frame[k] by {
        if in_region(k, fw, cx, cy, w, h) {
            assert(out[k] == v);
            assert(frame[k] == v);
        } else {
            law_pixelate_keeps_outside(frame, fw, x, y, x2, y2, k);
        }
    }
}

} // verus!

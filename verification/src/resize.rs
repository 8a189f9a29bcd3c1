//! Nearest-neighbour resizing of three-channel pixel buffers.
use vstd::prelude::*;
use crate::grid::{lemma_pix_bound, lemma_pix_injective, lemma_pix_join, lemma_pix_split, pix, pix_chan, pix_col, pix_row};
use crate::image_ops::min_int;

verus! {

/// Source row (or column) that destination position `d` samples when an axis
/// of `s` pixels is resized to `n` pixels.
pub open spec fn sample_at(d: int, s: int, n: int) -> int {
    min_int(d * s / n, s - 1)
}

/// The `dw` x `dh` nearest-neighbour resize of the `sw` x `sh` image `src`.
pub open spec fn resize_spec(src: Seq<u8>, sw: int, sh: int, dw: int, dh: int) -> Seq<u8> {
    Seq::new(
        (dw * dh * 3) as nat,
        |k: int|
            src[pix(sample_at(pix_row(k, dw), sh, dh), sample_at(pix_col(k, dw), sw, dw), pix_chan(k), sw)],
    )
}

/// Sizes for which resizing `sw` x `sh` to `dw` x `dh` is defined and its
/// index arithmetic fits in a `usize`.
pub open spec fn resize_fits(src_len: int, sw: int, sh: int, dw: int, dh: int) -> bool {
    &&& dw * dh * 3 <= usize::MAX
    &&& (dw > 0 && dh > 0) ==> {
        &&& sw > 0
        &&& sh > 0
        &&& sw * sh * 3 <= src_len
        &&& dh * sh <= usize::MAX
        &&& dw * sw <= usize::MAX
    }
}

/// A sampled position lies inside the source axis.
pub proof fn lemma_sample_in_range(d: int, s: int, n: int)
    requires
        0 <= d < n,
        0 < s,
    ensures
        0 <= sample_at(d, s, n) < s,
        d * s <= n * s,
{
    assert(0 <= d * s) by (nonlinear_arith)
        requires
            0 <= d,
            0 < s,
    ;
    assert(d * s <= n * s) by (nonlinear_arith)
        requires
            d < n,
            0 < s,
    ;
    vstd::arithmetic::div_mod::lemma_div_pos_is_pos(d * s, n);
}

/// Writes the `dw` x `dh` nearest-neighbour resize of `src` (`sw` x `sh`,
/// BGR) into the first `dw * dh * 3` bytes of `dst`.
pub fn resize_bgr_into(src: &[u8], sw: usize, sh: usize, dw: usize, dh: usize, dst: &mut [u8])
    requires
        resize_fits(src@.len() as int, sw as int, sh as int, dw as int, dh as int),
        old(dst)@.len() >= dw * dh * 3,
    ensures
        final(dst)@.len() == old(dst)@.len(),
        forall|k: int|
            0 <= k < dw * dh * 3 ==> #[trigger] final(dst)@[k] == resize_spec(
                src@,
                sw as int,
                sh as int,
                dw as int,
                dh as int,
            )[k],
        forall|k: int| dw * dh * 3 <= k < old(dst)@.len() ==> #[trigger] final(dst)@[k] == old(dst)@[k],
{
    let ghost d0 = dst@;
    let ghost sp = src@;
    let ghost target = resize_spec(sp, sw as int, sh as int, dw as int, dh as int);
    if dw == 0 || dh == 0 {
        proof {
            assert(dw * dh * 3 == 0) by (nonlinear_arith)
                requires
                    dw == 0 || dh == 0,
            ;
        }
        return;
    }
    let mut dy: usize = 0;
    while dy < dh
        invariant
            sp == src@,
            dst@.len() == d0.len(),
            resize_fits(sp.len() as int, sw as int, sh as int, dw as int, dh as int),
            dw > 0,
            dh > 0,
            d0.len() >= dw * dh * 3,
            target == resize_spec(sp, sw as int, sh as int, dw as int, dh as int),
            dy <= dh,
            forall|k: int|
                0 <= k < d0.len() ==> #[trigger] dst@[k] == if k < dy * dw * 3 {
                    target[k]
                } else {
                    d0[k]
                },
        decreases dh - dy,
    {
        proof {
            lemma_sample_in_range(dy as int, sh as int, dh as int);
        }
        let sy = (dy * sh / dh).min(sh - 1);
        let mut dx: usize = 0;
        while dx < dw
            invariant
                sp == src@,
                dst@.len() == d0.len(),
                resize_fits(sp.len() as int, sw as int, sh as int, dw as int, dh as int),
                dw > 0,
                dh > 0,
                d0.len() >= dw * dh * 3,
                target == resize_spec(sp, sw as int, sh as int, dw as int, dh as int),
                dy < dh,
                sy == sample_at(dy as int, sh as int, dh as int),
                0 <= sy < sh,
                dx <= dw,
                forall|k: int|
                    0 <= k < d0.len() ==> #[trigger] dst@[k] == if k < (dy * dw + dx) * 3 {
                        target[k]
                    } else {
                        d0[k]
                    },
            decreases dw - dx,
        {
            proof {
                lemma_sample_in_range(dx as int, sw as int, dw as int);
            }
            let sx = (dx * sw / dw).min(sw - 1);
            proof {
                lemma_pix_bound(sy as int, sx as int, 2, sw as int, sh as int);
                lemma_pix_bound(dy as int, dx as int, 2, dw as int, dh as int);
                assert(dh * dw * 3 == dw * dh * 3) by (nonlinear_arith);
                assert(sh * sw * 3 == sw * sh * 3) by (nonlinear_arith);
                assert(sw * sh * 3 <= sp.len());
                assert(sp.len() == src.len());
                assert((sy * sw + sx) * 3 + 2 < sp.len());
            }
            let s = (sy * sw + sx) * 3;
            let d = (dy * dw + dx) * 3;
            let ghost before = dst@;
            dst[d] = src[s];
            dst[d + 1] = src[s + 1];
            dst[d + 2] = src[s + 2];
            proof {
                assert forall|k: int| 0 <= k < d0.len() implies #[trigger] dst@[k] == if k < (dy * dw
                    + dx + 1) * 3 {
                    target[k]
                } else {
                    d0[k]
                } by {
                    if d <= k < d + 3 {
                        let c = k - d;
                        lemma_pix_split(dy as int, dx as int, c, dw as int);
                        assert(k == pix(dy as int, dx as int, c, dw as int));
                        assert(k < dw * dh * 3);
                        assert(target[k] == sp[pix(sy as int, sx as int, c, sw as int)]);
                    }
                }
            }
            dx = dx + 1;
        }
        dy = dy + 1;
        proof {
            assert((dy - 1) * dw + dw == dy * dw) by (nonlinear_arith);
        }
    }
    proof {
        assert(dh * dw * 3 == dw * dh * 3) by (nonlinear_arith);
    }
}

/// The `dw` x `dh` nearest-neighbour resize of `src` (`sw` x `sh`, BGR) as a
/// new buffer.
pub fn resize_bgr(src: &[u8], sw: usize, sh: usize, dw: usize, dh: usize) -> (dst: Vec<u8>)
    requires
        resize_fits(src@.len() as int, sw as int, sh as int, dw as int, dh as int),
    ensures
        dst@ == resize_spec(src@, sw as int, sh as int, dw as int, dh as int),
{
    let n = dw * dh * 3;
    let mut dst: Vec<u8> = vec![0u8; n];
    resize_bgr_into(src, sw, sh, dw, dh, dst.as_mut_slice());
    assert(dst@ =~= resize_spec(src@, sw as int, sh as int, dw as int, dh as int));
    dst
}

/// Whether resizing a `sw` x `sh` image held in `src_len` bytes to `dw` x `dh`
/// is defined and its index arithmetic fits.
pub fn resize_supported(src_len: usize, sw: usize, sh: usize, dw: usize, dh: usize) -> (r: bool)
    ensures
        r == resize_fits(src_len as int, sw as int, sh as int, dw as int, dh as int),
{
    let d = match dw.checked_mul(dh) {
        Some(v) => v,
        None => {
            proof {
                assert(dw * dh * 3 >= dw * dh) by (nonlinear_arith)
                    requires
                        dw * dh >= 0,
                ;
            }
            return false;
        },
    };
    if d.checked_mul(3).is_none() {
        return false;
    }
    if dw == 0 || dh == 0 {
        return true;
    }
    if sw == 0 || sh == 0 {
        return false;
    }
    let s = match sw.checked_mul(sh) {
        Some(v) => v,
        None => {
            proof {
                assert(sw * sh * 3 >= sw * sh) by (nonlinear_arith)
                    requires
                        sw * sh >= 0,
                ;
            }
            return false;
        },
    };
    let s3 = match s.checked_mul(3) {
        Some(v) => v,
        None => {
            return false;
        },
    };
    s3 <= src_len && dh.checked_mul(sh).is_some() && dw.checked_mul(sw).is_some()
}

} // verus!

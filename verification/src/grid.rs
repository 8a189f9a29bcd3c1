//! Index arithmetic for row-major, three-channel (BGR or RGB) pixel buffers.
use vstd::prelude::*;
use vstd::arithmetic::div_mod::{lemma_fundamental_div_mod, lemma_fundamental_div_mod_converse};
use vstd::arithmetic::mul::lemma_mul_nonnegative;

verus! {

/// Byte index of channel `c` of the pixel in row `py`, column `px` of a
/// buffer that is `w` pixels wide.
pub open spec fn pix(py: int, px: int, c: int, w: int) -> int {
    (py * w + px) * 3 + c
}

/// Row of the pixel that byte `k` belongs to, in a buffer `w` pixels wide.
pub open spec fn pix_row(k: int, w: int) -> int {
    (k / 3) / w
}

/// Column of the pixel that byte `k` belongs to, in a buffer `w` pixels wide.
pub open spec fn pix_col(k: int, w: int) -> int {
    (k / 3) % w
}

/// Channel that byte `k` holds.
pub open spec fn pix_chan(k: int) -> int {
    k % 3
}

/// A pixel position splits back into the row, column and channel it was built from.
pub proof fn lemma_pix_split(py: int, px: int, c: int, w: int)
    requires
        0 <= py,
        0 <= px < w,
        0 <= c < 3,
    ensures
        pix(py, px, c, w) >= 0,
        pix_row(pix(py, px, c, w), w) == py,
        pix_col(pix(py, px, c, w), w) == px,
        pix_chan(pix(py, px, c, w)) == c,
{
    lemma_mul_nonnegative(py, w);
    let p = py * w + px;
    let k = p * 3 + c;
    lemma_fundamental_div_mod_converse(k, 3, p, c);
    lemma_fundamental_div_mod_converse(p, w, py, px);
}

/// Every byte index is the position of its own row, column and channel.
pub proof fn lemma_pix_join(k: int, w: int)
    requires
        0 <= k,
        0 < w,
    ensures
        0 <= pix_row(k, w),
        0 <= pix_col(k, w) < w,
        0 <= pix_chan(k) < 3,
        k == pix(pix_row(k, w), pix_col(k, w), pix_chan(k), w),
{
    lemma_fundamental_div_mod(k, 3);
    lemma_fundamental_div_mod(k / 3, w);
    assert(k == 3 * (k / 3) + k % 3);
    assert(k / 3 == w * ((k / 3) / w) + (k / 3) % w);
    assert(w * ((k / 3) / w) == ((k / 3) / w) * w) by (nonlinear_arith);
}

/// Positions inside a `rows` by `w` image stay below `rows * w * 3`.
pub proof fn lemma_pix_bound(py: int, px: int, c: int, w: int, rows: int)
    requires
        0 <= py < rows,
        0 <= px < w,
        0 <= c < 3,
    ensures
        0 <= pix(py, px, c, w) < rows * w * 3,
{
    assert(0 <= py * w) by (nonlinear_arith)
        requires
            0 <= py,
            0 <= w,
    ;
    assert(py * w + px < rows * w) by (nonlinear_arith)
        requires
            0 <= py < rows,
            0 <= px < w,
    ;
    assert((py * w + px) * 3 + c < rows * w * 3) by (nonlinear_arith)
        requires
            py * w + px < rows * w,
            0 <= c < 3,
    ;
}

/// Distinct pixels (or channels) have distinct byte positions.
pub proof fn lemma_pix_injective(py: int, px: int, c: int, qy: int, qx: int, d: int, w: int)
    requires
        0 <= py,
        0 <= px < w,
        0 <= c < 3,
        0 <= qy,
        0 <= qx < w,
        0 <= d < 3,
        pix(py, px, c, w) == pix(qy, qx, d, w),
    ensures
        py == qy,
        px == qx,
        c == d,
{
    lemma_pix_split(py, px, c, w);
    lemma_pix_split(qy, qx, d, w);
}

} // verus!

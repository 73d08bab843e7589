//! Planes of samples, channel by channel and row by row.

use vstd::prelude::*;
use vstd::arithmetic::div_mod;

verus! {

/// `c` planes of `h x w` samples.
#[derive(Clone, Debug, PartialEq, Eq)]
pub struct Tensor<T> {
    pub c: usize,
    pub h: usize,
    pub w: usize,
    pub data: Vec<T>,
}

impl<T> Tensor<T> {
    /// There is a sample for each place.
    pub open spec fn wf(&self) -> bool {
        self.data@.len() == self.c * self.h * self.w
    }

    /// The tensor has these dimensions.
    pub open spec fn is_of(&self, c: int, h: int, w: int) -> bool {
        &&& self.wf()
        &&& self.c == c
        &&& self.h == h
        &&& self.w == w
    }
}

/// Where a sample lies in the data of planes of `h x w` samples.
pub open spec fn place(h: int, w: int, c: int, y: int, x: int) -> int {
    (c * h + y) * w + x
}

/// A sample of a tensor lies within its data.
pub proof fn lemma_place(h: int, w: int, n: int, c: int, y: int, x: int)
    requires
        0 <= c < n,
        0 <= y < h,
        0 <= x < w,
    ensures
        0 <= place(h, w, c, y, x) < n * h * w,
        0 <= c * h + y < n * h,
        0 <= (c * h + y) * w,
{
    assert(0 <= c * h) by (nonlinear_arith)
        requires
            0 <= c,
            0 < h,
    ;
    assert(c * h + y < n * h) by (nonlinear_arith)
        requires
            c + 1 <= n,
            0 <= y < h,
    ;
    let r = c * h + y;
    assert(0 <= r * w) by (nonlinear_arith)
        requires
            0 <= r,
            0 < w,
    ;
    assert(r * w + x < (n * h) * w) by (nonlinear_arith)
        requires
            r + 1 <= n * h,
            0 <= x < w,
    ;
}

/// A sample's place tells its channel, row and column.
pub proof fn lemma_place_parts(h: int, w: int, c: int, y: int, x: int)
    requires
        0 <= c,
        0 <= y < h,
        0 <= x < w,
    ensures
        ({
            let k = place(h, w, c, y, x);
            &&& k / w == c * h + y
            &&& k % w == x
            &&& k / w / h == c
            &&& k / w % h == y
        }),
{
    let r = c * h + y;
    div_mod::lemma_fundamental_div_mod_converse(r * w + x, w, r, x);
    div_mod::lemma_fundamental_div_mod_converse(r, h, c, y);
}

/// Channel, row and column of a place lead back to it.
pub proof fn lemma_parts_place(h: int, w: int, n: int, k: int)
    requires
        0 < h,
        0 < w,
        0 <= k < n * h * w,
    ensures
        ({
            let r = k / w;
            &&& 0 <= r < n * h
            &&& 0 <= k % w < w
            &&& 0 <= r / h < n
            &&& 0 <= r % h < h
            &&& place(h, w, r / h, r % h, k % w) == k
        }),
{
    let r = k / w;
    div_mod::lemma_fundamental_div_mod(k, w);
    div_mod::lemma_mod_bound(k, w);
    div_mod::lemma_div_pos_is_pos(k, w);
    assert(r < n * h) by (nonlinear_arith)
        requires
            k == w * r + k % w,
            0 <= k % w,
            k < (n * h) * w,
            0 < w,
    ;
    div_mod::lemma_fundamental_div_mod(r, h);
    div_mod::lemma_mod_bound(r, h);
    div_mod::lemma_div_pos_is_pos(r, h);
    assert(r / h < n) by (nonlinear_arith)
        requires
            r == h * (r / h) + r % h,
            0 <= r % h,
            r < n * h,
            0 < h,
    ;
    assert((r / h) * h + r % h == r) by (nonlinear_arith)
        requires
            r == h * (r / h) + r % h,
    ;
    assert(r * w + k % w == k) by (nonlinear_arith)
        requires
            k == w * r + k % w,
    ;
}

} // verus!

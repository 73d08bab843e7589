//! The residual of a component on its way through the entropy coder.

use vstd::prelude::*;

use crate::area::Area;
use crate::residual;
use crate::tensor;

verus! {

/// The distribution that a sigma index selects is the nearest one: no other is closer to the index
/// than half a step of 128. Below the first and above the last there is no other to select.
pub proof fn law_distribution_is_nearest(scale_log: i32)
    ensures
        0 <= scale_log <= 31 * 128 ==> 128 * residual::spec_distribution(scale_log) - 64
            <= scale_log < 128 * residual::spec_distribution(scale_log) + 64,
        scale_log < 64 <==> residual::spec_distribution(scale_log) == 0,
        scale_log >= 31 * 128 - 64 <==> residual::spec_distribution(scale_log) == 31,
{
}

/// The sigma index of a distribution selects it.
pub proof fn law_distribution_of_its_own_index(d: int)
    requires
        0 <= d < 32,
    ensures
        residual::spec_distribution((128 * d) as i32) == d,
{
}

/// A chunk has the least number of channels whose symbols make whole groups of four per thread, or
/// all of them where none does.
pub proof fn law_step_is_least(area: int, num: int, threads: int)
    requires
        1 <= num,
        1 <= threads,
    ensures
        ({
            let step = residual::spec_step(area, num, threads * 4, 1);
            &&& 1 <= step <= num
            &&& step < num ==> (area * step) % (threads * 4) == 0
            &&& forall|k: int|
                1 <= k < step ==> #[trigger] (area * k) % (threads * 4) != 0
        }),
{
    lemma_step_from(area, num, threads * 4, 1);
}

proof fn lemma_step_from(area: int, num: int, delta: int, item: int)
    requires
        1 <= item <= num,
        4 <= delta,
    ensures
        ({
            let step = residual::spec_step(area, num, delta, item);
            &&& item <= step <= num
            &&& step < num ==> (area * step) % delta == 0
            &&& forall|k: int| item <= k < step ==> #[trigger] (area * k) % delta != 0
        }),
    decreases num - item,
{
    reveal_with_fuel(residual::spec_step, 2);
    if (area * item) % delta != 0 && item < num {
        lemma_step_from(area, num, delta, item + 1);
    }
}

/// The symbols of a chunk run through its channels one after the other, through the rows of the
/// region in each, and through the columns in each row.
pub proof fn law_symbols_run_in_raster_order<T>(
    data: Seq<T>,
    lh: int,
    lw: int,
    a: Area,
    c0: int,
    c1: int,
    c: int,
    y: int,
    x: int,
)
    requires
        0 <= c0 <= c < c1,
        a.y <= y < a.y + a.height,
        a.x <= x < a.x + a.width,
    ensures
        ({
            let k = ((c - c0) * a.height + (y - a.y)) * a.width + (x - a.x);
            &&& 0 <= k < residual::gathered(data, lh, lw, a, c0, c1).len()
            &&& residual::gathered(data, lh, lw, a, c0, c1)[k] == data[(c * lh + y) * lw + x]
        }),
{
    let (h, w) = (a.height as int, a.width as int);
    tensor::lemma_place(h, w, c1 - c0, c - c0, y - a.y, x - a.x);
    tensor::lemma_place_parts(h, w, c - c0, y - a.y, x - a.x);
}

/// Symbols that are put in place are found there again, in the same order, and every sample of
/// another channel or outside the region is left as it was.
pub proof fn law_symbols_are_put_in_place(
    dst: Seq<i16>,
    symbols: Seq<i16>,
    n: int,
    lh: int,
    lw: int,
    a: Area,
    c0: int,
    c1: int,
)
    requires
        0 <= c0 <= c1 <= n,
        0 < a.height && a.y + a.height <= lh,
        0 < a.width && a.x + a.width <= lw,
        dst.len() == n * lh * lw,
        symbols.len() == (c1 - c0) * a.height * a.width,
    ensures
        ({
            let put = residual::scattered(dst, symbols, lh, lw, a, c0, c1);
            &&& put.len() == dst.len()
            &&& residual::gathered(put, lh, lw, a, c0, c1) == symbols
            &&& forall|c: int, y: int, x: int|
                0 <= c < n && 0 <= y < lh && 0 <= x < lw && !(c0 <= c < c1 && a.y <= y < a.y
                    + a.height && a.x <= x < a.x + a.width) ==> put[#[trigger] at(lh, lw, c, y, x)]
                    == dst[at(lh, lw, c, y, x)]
        }),
{
    let put = residual::scattered(dst, symbols, lh, lw, a, c0, c1);
    let back = residual::gathered(put, lh, lw, a, c0, c1);
    assert(residual::chunk_fits(dst.len(), n, lh, lw, a, c0, c1));
    assert forall|k: int| 0 <= k < symbols.len() implies back[k] == symbols[k] by {
        residual::lemma_source(dst.len(), n, lh, lw, a, c0, c1, k);
        residual::lemma_slot(dst.len(), n, lh, lw, a, c0, c1, k);
    }
    assert(back =~= symbols);
    assert forall|c: int, y: int, x: int|
        0 <= c < n && 0 <= y < lh && 0 <= x < lw && !(c0 <= c < c1 && a.y <= y < a.y + a.height
            && a.x <= x < a.x + a.width) implies put[#[trigger] at(lh, lw, c, y, x)] == dst[at(
        lh,
        lw,
        c,
        y,
        x,
    )] by {
        tensor::lemma_place(lh, lw, n, c, y, x);
        tensor::lemma_place_parts(lh, lw, c, y, x);
    }
}

/// Where the sample of a channel, row and column lies in planes of `h x w`.
pub open spec fn at(h: int, w: int, c: int, y: int, x: int) -> int {
    (c * h + y) * w + x
}

/// A number is a multiple of another if and only if it is so many times the other.
pub proof fn law_multiples(k: int, of: int, v: int)
    requires
        0 <= of,
    ensures
        residual::multiple(k * of, of),
        0 < v < of ==> !residual::multiple(k * of + v, of),
        residual::multiple(v, 0) <==> v == 0,
{
    if of > 0 {
        vstd::arithmetic::div_mod::lemma_fundamental_div_mod_converse(k * of, of, k, 0);
        if 0 < v < of {
            vstd::arithmetic::div_mod::lemma_fundamental_div_mod_converse(k * of + v, of, k, v);
        }
    } else {
        assert(k * 0 == 0) by (nonlinear_arith);
    }
}

} // verus!

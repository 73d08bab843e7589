//! How the residual of a component is cut up for the entropy coder.
//!
//! The residual is coded per region, and within a region in chunks of whole channels whose symbol
//! count is a multiple of `4 * threads`, so that no chunk but the last takes the coder's tail
//! path. Both directions must cut alike.

use vstd::prelude::*;

use crate::area::Area;
use crate::tensor;

verus! {

/// Fractional bits of a sigma index.
pub const SIGMA_PRECISION: u32 = 7;

/// Number of distributions.
pub const SIGMA_LEVELS: i32 = 32;

/// A sigma index rounded to the nearest distribution number.
pub open spec fn spec_distribution(scale_log: i32) -> u8 {
    let level = (scale_log + 64) / 128;
    if level < 0 {
        0
    } else if level > 31 {
        31
    } else {
        level as u8
    }
}

/// Sigma index (Q7) to distribution number, round to nearest.
pub fn distribution_index(scale_log: i32) -> (d: u8)
    ensures
        d == spec_distribution(scale_log),
        d < 32,
{
    if scale_log < 64 {
        0
    } else if scale_log >= 3904 {
        (SIGMA_LEVELS - 1) as u8
    } else {
        ((scale_log + 64) / 128) as u8
    }
}

/// A larger sigma index never selects a smaller distribution number.
pub proof fn law_distribution_monotone(a: i32, b: i32)
    requires
        a <= b,
    ensures
        spec_distribution(a) <= spec_distribution(b),
        spec_distribution(b) < 32,
{
}

/// A number is a multiple of another; only zero is one of zero.
pub open spec fn multiple(v: int, of: int) -> bool {
    if of == 0 {
        v == 0
    } else {
        v % of == 0
    }
}

/// The first number of channels from `item` on, up to `num`, that makes whole groups of `delta`
/// symbols; `num`, but at least one, if there is none.
pub open spec fn spec_step(area: int, num: int, delta: int, item: int) -> int
    decreases num - item + 1,
{
    if item > num {
        if num < 1 {
            1
        } else {
            num
        }
    } else if multiple(area * item, delta) {
        item
    } else {
        spec_step(area, num, delta, item + 1)
    }
}

/// Channels per call of the entropy coder for a region of `lh * lw` positions.
pub fn channel_step(lh: usize, lw: usize, num_chs: usize, num_threads: usize) -> (step: usize)
    requires
        num_chs >= 1 ==> lh * lw <= usize::MAX,
        lh * lw * num_chs <= usize::MAX,
        num_threads * 4 <= usize::MAX,
    ensures
        step == spec_step(lh * lw, num_chs as int, num_threads * 4, 1),
        1 <= step,
        num_chs >= 1 ==> step <= num_chs,
{
    if num_chs == 0 {
        return 1;
    }
    let delta: usize = num_threads * 4;
    let area: usize = lh * lw;
    let mut item: usize = 1;
    while item <= num_chs
        invariant
            1 <= item,
            num_chs >= 1 ==> item <= num_chs,
            area == lh * lw,
            area * num_chs <= usize::MAX,
            delta == num_threads * 4,
            spec_step(area as int, num_chs as int, delta as int, 1) == spec_step(
                area as int,
                num_chs as int,
                delta as int,
                item as int,
            ),
        decreases num_chs + 1 - item,
    {
        proof {
            assert(area * item <= area * num_chs) by (nonlinear_arith)
                requires
                    item <= num_chs,
            ;
        }
        let n: usize = area * item;
        let whole: bool = if delta == 0 { n == 0 } else { n % delta == 0 };
        if whole {
            return item;
        }
        if item == num_chs {
            proof {
                reveal_with_fuel(spec_step, 2);
            }
            return num_chs;
        }
        item = item + 1;
    }
    1
}

/// The step is found among the numbers from `item` on, or is all channels.
pub proof fn lemma_step_bounds(area: int, num: int, delta: int, item: int)
    requires
        1 <= item,
    ensures
        1 <= spec_step(area, num, delta, item),
        num >= 1 && item <= num + 1 ==> spec_step(area, num, delta, item) <= num,
    decreases num - item + 1,
{
    if item <= num && !multiple(area * item, delta) {
        lemma_step_bounds(area, num, delta, item + 1);
    }
}

/// No chunk but the last takes the coder's tail path: a step below the number of channels makes
/// whole groups of four symbols per thread.
pub proof fn law_step_makes_whole_groups(area: int, num: int, delta: int)
    ensures
        ({
            let step = spec_step(area, num, delta, 1);
            step < num ==> multiple(area * step, delta)
        }),
{
    lemma_step_whole(area, num, delta, 1);
}

proof fn lemma_step_whole(area: int, num: int, delta: int, item: int)
    ensures
        spec_step(area, num, delta, item) < num ==> multiple(
            area * spec_step(area, num, delta, item),
            delta,
        ),
    decreases num - item + 1,
{
    if item <= num && !multiple(area * item, delta) {
        lemma_step_whole(area, num, delta, item + 1);
    }
}

/// Where symbol `k` of a chunk that starts with channel `c0` lies in planes of `lh x lw`.
pub open spec fn source(lh: int, lw: int, a: Area, c0: int, k: int) -> int {
    let (h, w) = (a.height as int, a.width as int);
    tensor::place(lh, lw, c0 + k / w / h, a.y + k / w % h, a.x + k % w)
}

/// Number of symbols of a chunk of the channels `c0..c1` of a region.
pub open spec fn chunk_len(a: Area, c0: int, c1: int) -> int {
    (c1 - c0) * a.height * a.width
}

/// The samples of a chunk, in coding order.
pub open spec fn gathered<T>(data: Seq<T>, lh: int, lw: int, a: Area, c0: int, c1: int) -> Seq<T> {
    Seq::new(chunk_len(a, c0, c1) as nat, |k: int| data[source(lh, lw, a, c0, k)])
}

/// Planes with the symbols of a chunk put in place.
pub open spec fn scattered(
    dst: Seq<i16>,
    symbols: Seq<i16>,
    lh: int,
    lw: int,
    a: Area,
    c0: int,
    c1: int,
) -> Seq<i16> {
    Seq::new(
        dst.len(),
        |p: int|
            {
                let (c, y, x) = (p / lw / lh, p / lw % lh, p % lw);
                if c0 <= c < c1 && a.holds(x, y) {
                    symbols[tensor::place(
                        a.height as int,
                        a.width as int,
                        c - c0,
                        y - a.y,
                        x - a.x,
                    )]
                } else {
                    dst[p]
                }
            },
    )
}

/// The region lies on planes of `lh x lw` samples, and there are `n` planes.
pub open spec fn chunk_fits(len: nat, n: int, lh: int, lw: int, a: Area, c0: int, c1: int) -> bool {
    &&& 0 <= c0 <= c1 <= n
    &&& 0 < a.height && a.y + a.height <= lh
    &&& 0 < a.width && a.x + a.width <= lw
    &&& len == n * lh * lw
}

/// A symbol of a chunk lies within the planes.
pub proof fn lemma_source(len: nat, n: int, lh: int, lw: int, a: Area, c0: int, c1: int, k: int)
    requires
        chunk_fits(len, n, lh, lw, a, c0, c1),
        0 <= k < chunk_len(a, c0, c1),
    ensures
        ({
            let (h, w) = (a.height as int, a.width as int);
            let (i, y, x) = (k / w / h, k / w % h, k % w);
            &&& 0 <= i < c1 - c0
            &&& 0 <= y < h
            &&& 0 <= x < w
            &&& tensor::place(h, w, i, y, x) == k
            &&& 0 <= source(lh, lw, a, c0, k) < len
            &&& 0 <= (c0 + i) * lh + (a.y + y)
            &&& 0 <= ((c0 + i) * lh + (a.y + y)) * lw
            &&& ((c0 + i) * lh + (a.y + y)) * lw <= len
        }),
{
    let (h, w) = (a.height as int, a.width as int);
    tensor::lemma_parts_place(h, w, c1 - c0, k);
    let (i, y, x) = (k / w / h, k / w % h, k % w);
    tensor::lemma_place(lh, lw, n, c0 + i, a.y + y, a.x + x);
}

/// The length of a chunk is no more than that of the planes.
pub proof fn lemma_chunk_len(len: nat, n: int, lh: int, lw: int, a: Area, c0: int, c1: int)
    requires
        chunk_fits(len, n, lh, lw, a, c0, c1),
    ensures
        0 <= chunk_len(a, c0, c1) <= len,
        0 <= (c1 - c0) * a.height <= n * lh,
        0 <= n * lh,
{
    let r = (c1 - c0) * a.height;
    assert(0 <= r <= n * lh) by (nonlinear_arith)
        requires
            r == (c1 - c0) * a.height,
            0 <= c1 - c0 <= n,
            0 <= a.height <= lh,
    ;
    assert(0 <= r * a.width <= (n * lh) * lw) by (nonlinear_arith)
        requires
            0 <= r <= n * lh,
            0 <= a.width <= lw,
    ;
}

/// Read the samples of a chunk out of planes.
pub(crate) fn gather<T: Copy>(
    data: &Vec<T>,
    lh: usize,
    lw: usize,
    a: Area,
    c0: usize,
    c1: usize,
    Ghost(n): Ghost<int>,
) -> (out: Vec<T>)
    requires
        chunk_fits(data@.len(), n, lh as int, lw as int, a, c0 as int, c1 as int),
    ensures
        out@ == gathered(data@, lh as int, lw as int, a, c0 as int, c1 as int),
{
    let planes_len: usize = data.len();
    let ghost len = data@.len();
    let mut out: Vec<T> = Vec::new();
    proof {
        lemma_chunk_len(len, n, lh as int, lw as int, a, c0 as int, c1 as int);
        assert(n * lh <= len) by (nonlinear_arith)
            requires
                len == n * lh * lw,
                lw >= 1,
                n * lh >= 0,
        ;
    }
    let count: usize = (c1 - c0) * a.height * a.width;
    let mut k: usize = 0;
    while k < count
        invariant
            k <= count,
            count == chunk_len(a, c0 as int, c1 as int),
            len == data@.len(),
            len <= usize::MAX,
            chunk_fits(len, n, lh as int, lw as int, a, c0 as int, c1 as int),
            out@.len() == k,
            forall|j: int|
                0 <= j < k ==> #[trigger] out@[j] == data@[source(
                    lh as int,
                    lw as int,
                    a,
                    c0 as int,
                    j,
                )],
        decreases count - k,
    {
        proof {
            lemma_source(len, n, lh as int, lw as int, a, c0 as int, c1 as int, k as int);
        }
        let at: usize = locate(lh, lw, a, c0, k, Ghost(len), Ghost(n), Ghost(c1 as int));
        out.push(data[at]);
        k = k + 1;
    }
    proof {
        assert(out@ =~= gathered(data@, lh as int, lw as int, a, c0 as int, c1 as int));
    }
    out
}

/// Where a symbol of a chunk lies.
fn locate(
    lh: usize,
    lw: usize,
    a: Area,
    c0: usize,
    k: usize,
    Ghost(len): Ghost<nat>,
    Ghost(n): Ghost<int>,
    Ghost(c1): Ghost<int>,
) -> (at: usize)
    requires
        chunk_fits(len, n, lh as int, lw as int, a, c0 as int, c1),
        0 <= k < chunk_len(a, c0 as int, c1),
        len <= usize::MAX,
    ensures
        at == source(lh as int, lw as int, a, c0 as int, k as int),
        at < len,
{
    proof {
        lemma_source(len, n, lh as int, lw as int, a, c0 as int, c1, k as int);
    }
    let row: usize = k / a.width;
    let i: usize = row / a.height;
    let y: usize = row % a.height;
    let x: usize = k % a.width;
    proof {
        let c = (c0 + i) as int;
        let r = c * lh + (a.y + y);
        tensor::lemma_place(lh as int, lw as int, n, c, a.y + y, a.x + x);
        assert(c <= c * lh) by (nonlinear_arith)
            requires
                c >= 0,
                lh >= 1,
        ;
        assert(r <= r * lw) by (nonlinear_arith)
            requires
                r >= 0,
                lw >= 1,
        ;
        assert(c * lh <= r);
    }
    ((c0 + i) * lh + (a.y + y)) * lw + (a.x + x)
}

/// Put the symbols of a chunk in place.
pub(crate) fn scatter(
    dst: &mut Vec<i16>,
    symbols: &Vec<i16>,
    lh: usize,
    lw: usize,
    a: Area,
    c0: usize,
    c1: usize,
    Ghost(n): Ghost<int>,
)
    requires
        chunk_fits(old(dst)@.len(), n, lh as int, lw as int, a, c0 as int, c1 as int),
        symbols@.len() == chunk_len(a, c0 as int, c1 as int),
    ensures
        final(dst)@ == scattered(
            old(dst)@,
            symbols@,
            lh as int,
            lw as int,
            a,
            c0 as int,
            c1 as int,
        ),
{
    let planes_len: usize = dst.len();
    let ghost before = dst@;
    let ghost len = dst@.len();
    let ghost want = scattered(
        before,
        symbols@,
        lh as int,
        lw as int,
        a,
        c0 as int,
        c1 as int,
    );
    let count: usize = symbols.len();
    let mut k: usize = 0;
    proof {
        assert forall|p: int| 0 <= p < len implies #[trigger] dst@[p] == if slot(
            lh as int,
            lw as int,
            a,
            c0 as int,
            c1 as int,
            p,
        ) < 0 {
            want[p]
        } else {
            before[p]
        } by {}
    }
    while k < count
        invariant
            k <= count,
            count == symbols@.len(),
            count == chunk_len(a, c0 as int, c1 as int),
            len == before.len(),
            dst@.len() == len,
            len <= usize::MAX,
            chunk_fits(len, n, lh as int, lw as int, a, c0 as int, c1 as int),
            want == scattered(
                before,
                symbols@,
                lh as int,
                lw as int,
                a,
                c0 as int,
                c1 as int,
            ),
            forall|p: int|
                0 <= p < len ==> #[trigger] dst@[p] == if slot(
                    lh as int,
                    lw as int,
                    a,
                    c0 as int,
                    c1 as int,
                    p,
                ) < k {
                    want[p]
                } else {
                    before[p]
                },
        decreases count - k,
    {
        let at: usize = locate(lh, lw, a, c0, k, Ghost(len), Ghost(n), Ghost(c1 as int));
        let ghost mid = dst@;
        dst.set(at, symbols[k]);
        proof {
            lemma_slot(len, n, lh as int, lw as int, a, c0 as int, c1 as int, k as int);
            assert forall|p: int| 0 <= p < len implies #[trigger] dst@[p] == if slot(
                lh as int,
                lw as int,
                a,
                c0 as int,
                c1 as int,
                p,
            ) < k + 1 {
                want[p]
            } else {
                before[p]
            } by {
                assert(mid[p] == if slot(lh as int, lw as int, a, c0 as int, c1 as int, p) < k {
                    want[p]
                } else {
                    before[p]
                });
                if p != at && slot(lh as int, lw as int, a, c0 as int, c1 as int, p) >= 0 {
                    lemma_slot_unique(
                        len,
                        n,
                        lh as int,
                        lw as int,
                        a,
                        c0 as int,
                        c1 as int,
                        p,
                    );
                }
            }
        }
        k = k + 1;
    }
    proof {
        assert forall|p: int| 0 <= p < len implies dst@[p] == want[p] by {
            if slot(lh as int, lw as int, a, c0 as int, c1 as int, p) >= 0 {
                lemma_slot_unique(len, n, lh as int, lw as int, a, c0 as int, c1 as int, p);
            }
        }
        assert(dst@ =~= want);
    }
}

/// Which symbol of a chunk belongs to a place; -1 if none does.
pub open spec fn slot(lh: int, lw: int, a: Area, c0: int, c1: int, p: int) -> int {
    let (c, y, x) = (p / lw / lh, p / lw % lh, p % lw);
    if c0 <= c < c1 && a.holds(x, y) {
        tensor::place(a.height as int, a.width as int, c - c0, y - a.y, x - a.x)
    } else {
        -1
    }
}

/// The place of a symbol belongs to it.
pub proof fn lemma_slot(len: nat, n: int, lh: int, lw: int, a: Area, c0: int, c1: int, k: int)
    requires
        chunk_fits(len, n, lh, lw, a, c0, c1),
        0 <= k < chunk_len(a, c0, c1),
    ensures
        slot(lh, lw, a, c0, c1, source(lh, lw, a, c0, k)) == k,
{
    let (h, w) = (a.height as int, a.width as int);
    lemma_source(len, n, lh, lw, a, c0, c1, k);
    let (i, y, x) = (k / w / h, k / w % h, k % w);
    tensor::lemma_place_parts(lh, lw, c0 + i, a.y + y, a.x + x);
}

/// A place that belongs to a symbol is the symbol's place.
pub proof fn lemma_slot_unique(
    len: nat,
    n: int,
    lh: int,
    lw: int,
    a: Area,
    c0: int,
    c1: int,
    p: int,
)
    requires
        chunk_fits(len, n, lh, lw, a, c0, c1),
        0 <= p < len,
        slot(lh, lw, a, c0, c1, p) >= 0,
    ensures
        slot(lh, lw, a, c0, c1, p) < chunk_len(a, c0, c1),
        source(lh, lw, a, c0, slot(lh, lw, a, c0, c1, p)) == p,
{
    let (h, w) = (a.height as int, a.width as int);
    let (c, y, x) = (p / lw / lh, p / lw % lh, p % lw);
    tensor::lemma_parts_place(lh, lw, n, p);
    tensor::lemma_place(h, w, c1 - c0, c - c0, y - a.y, x - a.x);
    tensor::lemma_place_parts(h, w, c - c0, y - a.y, x - a.x);
}

} // verus!

//! EFE linear post-filter: a luma-aided linear filter on the chroma planes, which splits luma into
//! its four 2x2 sampling phases and chroma into as many phases as the source format leaves room
//! for. Here stand the regions of the filter with their kernels, and the phase planes.
//!
//! A kernel tap is held in units of 1/2048: every coded weight, every interpolation tap and the
//! identity is a whole number of them.

use vstd::prelude::*;
use vstd::arithmetic::div_mod;

use crate::encoder::tiles;
use crate::error::{Error, Result};
use crate::header::{EfeLinearHeader, EfeLinearSet, PictureHeader, EFE_LINEAR_SPLITS};
use crate::planes::PlaneSize;
use crate::tensor::Tensor;

verus! {

/// The regions of each candidate split, as hundredths `[row_start, row_end, col_start, col_end]`
/// of the phase plane; a candidate has as many regions as [`EFE_LINEAR_SPLITS`] says.
pub const SPLITS: [[[u64; 4]; 6]; 8] = [
    [
        [0, 100, 0, 100],
        [0, 0, 0, 0],
        [0, 0, 0, 0],
        [0, 0, 0, 0],
        [0, 0, 0, 0],
        [0, 0, 0, 0],
    ],
    [
        [0, 50, 0, 100],
        [50, 100, 0, 100],
        [0, 0, 0, 0],
        [0, 0, 0, 0],
        [0, 0, 0, 0],
        [0, 0, 0, 0],
    ],
    [
        [0, 100, 0, 50],
        [0, 100, 50, 100],
        [0, 0, 0, 0],
        [0, 0, 0, 0],
        [0, 0, 0, 0],
        [0, 0, 0, 0],
    ],
    [
        [0, 100, 0, 33],
        [0, 100, 33, 66],
        [0, 100, 66, 100],
        [0, 0, 0, 0],
        [0, 0, 0, 0],
        [0, 0, 0, 0],
    ],
    [
        [0, 33, 0, 100],
        [33, 66, 0, 100],
        [66, 100, 0, 100],
        [0, 0, 0, 0],
        [0, 0, 0, 0],
        [0, 0, 0, 0],
    ],
    [
        [0, 50, 0, 50],
        [0, 50, 50, 100],
        [50, 100, 0, 50],
        [50, 100, 50, 100],
        [0, 0, 0, 0],
        [0, 0, 0, 0],
    ],
    [
        [0, 33, 0, 50],
        [0, 33, 50, 100],
        [33, 66, 0, 50],
        [33, 66, 50, 100],
        [66, 100, 0, 50],
        [66, 100, 50, 100],
    ],
    [
        [0, 50, 0, 33],
        [50, 100, 0, 33],
        [0, 50, 33, 66],
        [50, 100, 33, 66],
        [0, 50, 66, 100],
        [50, 100, 66, 100],
    ],
];

/// Interpolation taps of the four phases, in units of 1/2048; phase 0 has none.
pub const DCT_IF_4TAP: [[i64; 16]; 4] = [
    [0, 0, 0, 0, 0, 0, 0, 0, 0, 0, 0, 0, 0, 0, 0, 0],
    [0, 0, 0, 0, -128, -896, 1152, -128, 0, 0, 0, 0, 0, 0, 0, 0],
    [0, -128, 0, 0, 0, -896, 0, 0, 0, 1152, 0, 0, 0, -128, 0, 0],
    [8, -72, -72, 8, -72, -1400, 648, -72, -72, 648, 648, -72, 8, -72, -72, 8],
];

/// Rows / columns of replicated border before a phase plane.
pub const PAD_BEFORE: usize = 1;

/// Rows / columns of replicated border behind a phase plane.
pub const PAD_AFTER: usize = 2;

/// A quotient rounded to the nearest whole number, a half to the even one.
pub open spec fn rounded(n: int, d: int) -> int {
    let (q, r) = (n / d, n % d);
    if 2 * r < d {
        q
    } else if 2 * r > d {
        q + 1
    } else {
        q + q % 2
    }
}

/// Where a fraction of an axis of `s` phase samples is cut: at a multiple of 32.
pub open spec fn spec_split_edge(hundredths: int, s: int) -> int {
    rounded(hundredths * (s + 31), 3200) * 32
}

/// Where a fraction of an axis of `s` phase samples is cut: `round(fraction * (s + 31) / 32) * 32`,
/// a half rounded to the even number.
pub fn split_edge(hundredths: u64, s: usize) -> (e: usize)
    requires
        hundredths <= 100,
        s <= 0x0fff_ffff,
    ensures
        e == spec_split_edge(hundredths as int, s as int),
{
    proof {
        assert(0 <= hundredths * (s + 31) <= 100 * (s + 31)) by (nonlinear_arith)
            requires
                0 <= hundredths <= 100,
        ;
    }
    let n: u64 = hundredths * (s as u64 + 31);
    let (q, r): (u64, u64) = (n / 3200, n % 3200);
    let v: u64 = if 2 * r < 3200 {
        q
    } else if 2 * r > 3200 {
        q + 1
    } else {
        q + q % 2
    };
    v as usize * 32
}

/// One region of one chroma plane with its convolution kernels, taps in units of 1/2048.
#[derive(Debug)]
pub struct Region {
    pub rows: (usize, usize),
    pub cols: (usize, usize),
    /// Kernel side: `fL` for pictures coded at the source's chroma resolution, else 4.
    pub k: usize,
    /// Rows / columns of context before the output sample.
    pub before: usize,
    /// Chroma kernels of the four phases, `k * k` taps each, identity and interpolation included.
    pub chroma: [Vec<i64>; 4],
    /// Luma kernel, shared by the phases.
    pub luma: Vec<i64>,
}

/// A region as a value.
pub struct RegionView {
    pub rows: (int, int),
    pub cols: (int, int),
    pub k: int,
    pub before: int,
    pub chroma: (Seq<i64>, Seq<i64>, Seq<i64>, Seq<i64>),
    pub luma: Seq<i64>,
}

impl Region {
    /// The region as a value.
    pub open spec fn view(&self) -> RegionView {
        RegionView {
            rows: (self.rows.0 as int, self.rows.1 as int),
            cols: (self.cols.0 as int, self.cols.1 as int),
            k: self.k as int,
            before: self.before as int,
            chroma: (
                self.chroma@[0]@,
                self.chroma@[1]@,
                self.chroma@[2]@,
                self.chroma@[3]@,
            ),
            luma: self.luma@,
        }
    }
}

/// Regions as values.
pub open spec fn region_views(v: Seq<Region>) -> Seq<RegionView> {
    Seq::new(v.len(), |i: int| v[i].view())
}

/// One plane's filters: the candidate and the length, or nothing for a plane that is not filtered.
pub open spec fn plane_filter(set: EfeLinearSet, p: int) -> (int, int) {
    match set.cand@[p] {
        Some(c) => (c as int, set.filter_len@[p] as int),
        None => (0, 0),
    }
}

/// Where the coded filter lies in its kernel.
pub open spec fn filter_offset(fl: int, coded_444: bool) -> int {
    if coded_444 {
        0
    } else if fl <= 2 {
        1
    } else {
        0
    }
}

/// The kernel's side.
pub open spec fn kernel_side(fl: int, coded_444: bool) -> int {
    if coded_444 {
        fl
    } else {
        4
    }
}

/// The tap of the output sample itself, along either axis.
pub open spec fn kernel_centre(fl: int, coded_444: bool) -> int {
    if coded_444 {
        (fl - 1) / 2
    } else {
        1
    }
}

/// A coded tap of a kernel with side `k`: the weight of its place in the `fl x fl` filter that
/// starts at `off`, or nothing outside of that filter.
pub open spec fn coded_tap(w: Seq<u32>, phase: int, min: int, fl: int, k: int, off: int, t: int) -> i64 {
    let (ky, kx) = (t / k - off, t % k - off);
    if 0 <= ky < fl && 0 <= kx < fl {
        (w[(phase * fl + ky) * fl + kx] + min - 32767) as i64
    } else {
        0
    }
}

/// The luma kernel.
pub open spec fn luma_kernel(w: Seq<u32>, min: int, fl: int, coded_444: bool) -> Seq<i64> {
    let k = kernel_side(fl, coded_444);
    Seq::new(
        (k * k) as nat,
        |t: int| coded_tap(w, 0, min, fl, k, filter_offset(fl, coded_444), t),
    )
}

/// The chroma kernel of phase `i`: the coded filter, the interpolation where chroma was coded
/// below the source's resolution, and the identity.
pub open spec fn chroma_kernel(w: Seq<u32>, min: int, fl: int, coded_444: bool, i: int) -> Seq<i64> {
    let k = kernel_side(fl, coded_444);
    let c = kernel_centre(fl, coded_444);
    Seq::new(
        (k * k) as nat,
        |t: int|
            (coded_tap(
                w,
                if coded_444 {
                    0
                } else {
                    i
                },
                min,
                fl,
                k,
                filter_offset(fl, coded_444),
                t,
            ) + (if coded_444 {
                0
            } else {
                DCT_IF_4TAP@[i]@[t] as int
            }) + (if t == c * k + c {
                2048int
            } else {
                0
            })) as i64,
    )
}

/// Rows or columns of a region along an axis of `s` phase samples.
pub open spec fn spec_extent(split: Seq<u64>, at: int, s: int) -> (int, int) {
    let end = spec_split_edge(split[at + 1] as int, s);
    (
        spec_split_edge(split[at] as int, s),
        if end < s {
            end
        } else {
            s
        },
    )
}

/// A region of a plane.
pub open spec fn spec_region(
    set: EfeLinearSet,
    p: int,
    coded_444: bool,
    s0: int,
    s1: int,
    num: int,
) -> RegionView {
    let (cand, fl) = plane_filter(set, p);
    let split = SPLITS@[cand]@[num]@;
    let (cw, lw) = if set.cand@[p] is Some {
        (set.chroma_weights@[p]@[num]@, set.luma_weights@[p]@[num]@)
    } else {
        (seq![], seq![])
    };
    let min = set.min_symbol as int;
    RegionView {
        rows: spec_extent(split, 0, s0),
        cols: spec_extent(split, 2, s1),
        k: kernel_side(fl, coded_444),
        before: kernel_centre(fl, coded_444),
        chroma: (
            chroma_kernel(cw, min, fl, coded_444, 0),
            chroma_kernel(cw, min, fl, coded_444, 1),
            chroma_kernel(cw, min, fl, coded_444, 2),
            chroma_kernel(cw, min, fl, coded_444, 3),
        ),
        luma: luma_kernel(lw, min, fl, coded_444),
    }
}

/// The region holds no sample: small pictures leave some regions empty.
pub open spec fn is_empty(r: RegionView) -> bool {
    r.rows.0 >= r.rows.1 || r.cols.0 >= r.cols.1
}

/// The filters of a region have the wrong size.
pub open spec fn wrong_size(set: EfeLinearSet, p: int, coded_444: bool, num: int) -> bool {
    let (_, fl) = plane_filter(set, p);
    set.cand@[p] is Some && (set.chroma_weights@[p]@[num]@.len() != (if coded_444 {
        1int
    } else {
        4
    }) * (fl * fl) || set.luma_weights@[p]@[num]@.len() != fl * fl)
}

/// The regions from number `num` on, behind those that are there already.
pub open spec fn spec_build(
    set: EfeLinearSet,
    p: int,
    coded_444: bool,
    s0: int,
    s1: int,
    num: int,
    acc: Seq<RegionView>,
) -> core::result::Result<Seq<RegionView>, Error>
    decreases 8 - num,
{
    let r = spec_region(set, p, coded_444, s0, s1, num);
    if num >= EFE_LINEAR_SPLITS@[plane_filter(set, p).0] || num >= 6 {
        Ok(acc)
    } else if is_empty(r) {
        spec_build(set, p, coded_444, s0, s1, num + 1, acc)
    } else if wrong_size(set, p, coded_444, num) {
        Err(Error::InvalidData("EFE linear: filter size"))
    } else {
        spec_build(set, p, coded_444, s0, s1, num + 1, acc.push(r))
    }
}

/// The regions of a plane, or why its filters make none.
pub open spec fn spec_regions(set: EfeLinearSet, p: int, coded_444: bool, s0: int, s1: int) -> core::result::Result<
    Seq<RegionView>,
    Error,
> {
    let (cand, fl) = plane_filter(set, p);
    let weighted = set.cand@[p] is Some;
    if cand >= 8 || fl > 4 || (weighted && fl == 0) {
        Err(Error::InvalidData("EFE linear: filter set out of range"))
    } else if weighted && (set.chroma_weights@[p]@.len() != EFE_LINEAR_SPLITS@[cand]
        || set.luma_weights@[p]@.len() != EFE_LINEAR_SPLITS@[cand]) {
        Err(Error::InvalidData("EFE linear: filter count"))
    } else {
        spec_build(set, p, coded_444, s0, s1, 0, seq![])
    }
}

/// A coded tap of a kernel.
fn tap(w: &Vec<u32>, phase: usize, min: u16, fl: usize, k: usize, off: usize, t: usize) -> (v: i64)
    requires
        fl <= 4,
        k <= 4,
        off <= 1,
        off + fl <= k || fl == 0,
        t < k * k,
        phase < 4,
        fl > 0 ==> w@.len() >= (phase + 1) * (fl * fl),
    ensures
        v == coded_tap(w@, phase as int, min as int, fl as int, k as int, off as int, t as int),
        -32767 <= v <= 0x1_0001_0000,
{
    proof {
        assert(k > 0) by (nonlinear_arith)
            requires
                t < k * k,
                0 <= t,
                0 <= k,
        ;
    }
    let (y, x): (usize, usize) = (t / k, t % k);
    if y < off || x < off || y - off >= fl || x - off >= fl {
        return 0;
    }
    let (ky, kx): (usize, usize) = (y - off, x - off);
    proof {
        assert((phase * fl + ky) * fl + kx < (phase + 1) * (fl * fl) && 0 <= phase * fl <= 12 && 0 <= (
        phase * fl + ky) * fl <= 64) by (nonlinear_arith)
            requires
                0 <= phase <= 3,
                0 <= ky <= fl - 1,
                0 <= kx <= fl - 1,
                fl <= 4,
        ;
    }
    w[(phase * fl + ky) * fl + kx] as i64 + min as i64 - 32767
}

/// The luma kernel.
fn make_luma(w: &Vec<u32>, min: u16, fl: usize, coded_444: bool) -> (v: Vec<i64>)
    requires
        fl <= 4,
        coded_444 ==> fl > 0,
        fl > 0 ==> w@.len() == fl * fl,
    ensures
        v@ == luma_kernel(w@, min as int, fl as int, coded_444),
{
    let k: usize = if coded_444 { fl } else { 4 };
    let off: usize = if coded_444 || fl > 2 { 0 } else { 1 };
    let ghost want = luma_kernel(w@, min as int, fl as int, coded_444);
    proof {
        assert(k * k <= 16) by (nonlinear_arith)
            requires
                0 <= k <= 4,
        ;
        assert((0 + 1) * (fl * fl) == fl * fl) by (nonlinear_arith);
    }
    let n: usize = k * k;
    let mut v: Vec<i64> = Vec::new();
    while v.len() < n
        invariant
            v@.len() <= n,
            n == k * k,
            k == kernel_side(fl as int, coded_444),
            off == filter_offset(fl as int, coded_444),
            fl <= 4,
            k <= 4,
            off + fl <= k || fl == 0,
            off <= 1,
            fl > 0 ==> w@.len() >= (0 + 1) * (fl * fl),
            want == luma_kernel(w@, min as int, fl as int, coded_444),
            v@ == want.take(v@.len() as int),
        decreases n - v@.len(),
    {
        let t: usize = v.len();
        let x: i64 = tap(w, 0, min, fl, k, off, t);
        proof {
            assert(want.take(t + 1) =~= want.take(t as int).push(x));
        }
        v.push(x);
    }
    proof {
        assert(want.take(n as int) =~= want);
    }
    v
}

/// The chroma kernel of a phase.
fn make_chroma(w: &Vec<u32>, min: u16, fl: usize, coded_444: bool, i: usize) -> (v: Vec<i64>)
    requires
        fl <= 4,
        i < 4,
        coded_444 ==> fl > 0,
        fl > 0 ==> w@.len() == (if coded_444 {
            1int
        } else {
            4
        }) * (fl * fl),
    ensures
        v@ == chroma_kernel(w@, min as int, fl as int, coded_444, i as int),
{
    let k: usize = if coded_444 { fl } else { 4 };
    let off: usize = if coded_444 || fl > 2 { 0 } else { 1 };
    let c: usize = if coded_444 { (fl - 1) / 2 } else { 1 };
    let phase: usize = if coded_444 { 0 } else { i };
    let ghost want = chroma_kernel(w@, min as int, fl as int, coded_444, i as int);
    proof {
        assert(k * k <= 16 && 0 <= c * k <= 16) by (nonlinear_arith)
            requires
                0 <= k <= 4,
                0 <= c <= 4,
        ;
        assert((phase + 1) * (fl * fl) <= (if coded_444 {
            1int
        } else {
            4
        }) * (fl * fl)) by (nonlinear_arith)
            requires
                0 <= phase <= (if coded_444 {
                    0int
                } else {
                    3
                }),
                0 <= fl,
        ;
    }
    let n: usize = k * k;
    let centre: usize = c * k + c;
    let mut v: Vec<i64> = Vec::new();
    while v.len() < n
        invariant
            v@.len() <= n,
            n == k * k,
            n <= 16,
            k == kernel_side(fl as int, coded_444),
            off == filter_offset(fl as int, coded_444),
            c == kernel_centre(fl as int, coded_444),
            centre == c * k + c,
            phase == (if coded_444 {
                0
            } else {
                i
            }),
            i < 4,
            fl <= 4,
            k <= 4,
            off + fl <= k || fl == 0,
            off <= 1,
            fl > 0 ==> w@.len() >= (phase + 1) * (fl * fl),
            want == chroma_kernel(w@, min as int, fl as int, coded_444, i as int),
            v@ == want.take(v@.len() as int),
        decreases n - v@.len(),
    {
        let t: usize = v.len();
        let a: i64 = tap(w, phase, min, fl, k, off, t);
        proof {
            lemma_interpolation_small(i as int, t as int);
        }
        let b: i64 = if coded_444 { 0 } else { DCT_IF_4TAP[i][t] };
        let d: i64 = if t == centre { 2048 } else { 0 };
        let x: i64 = a + b + d;
        proof {
            assert(want.take(t + 1) =~= want.take(t as int).push(x));
        }
        v.push(x);
    }
    proof {
        assert(want.take(n as int) =~= want);
    }
    v
}

/// An interpolation tap is small.
proof fn lemma_interpolation_small(i: int, t: int)
    requires
        0 <= i < 4,
        0 <= t < 16,
    ensures
        -1400 <= DCT_IF_4TAP@[i]@[t] <= 1152,
{
}

/// Rows or columns of a region along an axis.
pub fn extent(split: &[u64; 4], at: usize, s: usize) -> (e: (usize, usize))
    requires
        at + 1 < 4,
        split@[at as int] <= 100,
        split@[at + 1] <= 100,
        s <= 0x0fff_ffff,
    ensures
        (e.0 as int, e.1 as int) == spec_extent(split@, at as int, s as int),
{
    let start: usize = split_edge(split[at], s);
    let end: usize = split_edge(split[at + 1], s);
    (start, if end < s { end } else { s })
}

/// Every fraction is one.
pub proof fn lemma_fractions(cand: int, num: int, at: int)
    requires
        0 <= cand < 8,
        0 <= num < 6,
        0 <= at < 4,
    ensures
        SPLITS@[cand]@[num]@[at] <= 100,
        1 <= EFE_LINEAR_SPLITS@[cand] <= 6,
{
}

/// Regions and kernels of plane `p` (`0` = U, `1` = V) for one coded filter set, on a phase plane
/// of `s0 x s1` samples.
pub fn regions(set: &EfeLinearSet, p: usize, coded_444: bool, s0: usize, s1: usize) -> (r: Result<
    Vec<Region>,
>)
    requires
        p < 2,
        set.cand@[p as int] is None ==> !coded_444,
        s0 <= 0x0fff_ffff,
        s1 <= 0x0fff_ffff,
    ensures
        match spec_regions(*set, p as int, coded_444, s0 as int, s1 as int) {
            Ok(s) => r matches Ok(v) && region_views(v@) == s,
            Err(e) => r == Err::<Vec<Region>, Error>(e),
        },
{
    let (cand, fl, weighted): (usize, usize, bool) = match set.cand[p] {
        Some(c) => (c as usize, set.filter_len[p] as usize, true),
        None => (0, 0, false),
    };
    if cand >= 8 || fl > 4 || (weighted && fl == 0) {
        return Err(Error::InvalidData("EFE linear: filter set out of range"));
    }
    let count: usize = EFE_LINEAR_SPLITS[cand];
    if weighted && (set.chroma_weights[p].len() != count || set.luma_weights[p].len() != count) {
        return Err(Error::InvalidData("EFE linear: filter count"));
    }
    let none: Vec<u32> = Vec::new();
    let mut out: Vec<Region> = Vec::new();
    let mut num: usize = 0;
    proof {
        lemma_fractions(cand as int, 0, 0);
        assert(region_views(out@) =~= seq![]);
    }
    while num < count
        invariant
            num <= count,
            count == EFE_LINEAR_SPLITS@[cand as int],
            count <= 6,
            cand < 8,
            fl <= 4,
            p < 2,
            (cand as int, fl as int) == plane_filter(*set, p as int),
            weighted == (set.cand@[p as int] is Some),
            weighted ==> fl > 0,
            !weighted ==> fl == 0 && !coded_444,
            weighted ==> set.chroma_weights@[p as int]@.len() == count
                && set.luma_weights@[p as int]@.len() == count,
            none@ == Seq::<u32>::empty(),
            s0 <= 0x0fff_ffff,
            s1 <= 0x0fff_ffff,
            spec_regions(*set, p as int, coded_444, s0 as int, s1 as int) == spec_build(
                *set,
                p as int,
                coded_444,
                s0 as int,
                s1 as int,
                num as int,
                region_views(out@),
            ),
        decreases count - num,
    {
        proof {
            lemma_fractions(cand as int, num as int, 0);
            lemma_fractions(cand as int, num as int, 1);
            lemma_fractions(cand as int, num as int, 2);
            lemma_fractions(cand as int, num as int, 3);
        }
        let split: [u64; 4] = SPLITS[cand][num];
        let rows: (usize, usize) = extent(&split, 0, s0);
        let cols: (usize, usize) = extent(&split, 2, s1);
        if rows.0 < rows.1 && cols.0 < cols.1 {
            let (cw, lw): (&Vec<u32>, &Vec<u32>) = if weighted {
                (&set.chroma_weights[p][num], &set.luma_weights[p][num])
            } else {
                (&none, &none)
            };
            proof {
                assert(0 <= fl * fl <= 16) by (nonlinear_arith)
                    requires
                        0 <= fl <= 4,
                ;
            }
            let taps: usize = fl * fl;
            let phases: usize = if coded_444 { 1 } else { 4 };
            if weighted && (cw.len() != phases * taps || lw.len() != taps) {
                return Err(Error::InvalidData("EFE linear: filter size"));
            }
            let region = make_region(cw, lw, set.min_symbol, fl, coded_444, rows, cols);
            proof {
                assert(region.view() == spec_region(
                    *set,
                    p as int,
                    coded_444,
                    s0 as int,
                    s1 as int,
                    num as int,
                ));
                assert(region_views(out@.push(region)) =~= region_views(out@).push(region.view()));
            }
            out.push(region);
        }
        num = num + 1;
    }
    Ok(out)
}

/// A region with its kernels.
fn make_region(
    cw: &Vec<u32>,
    lw: &Vec<u32>,
    min: u16,
    fl: usize,
    coded_444: bool,
    rows: (usize, usize),
    cols: (usize, usize),
) -> (r: Region)
    requires
        fl <= 4,
        coded_444 ==> fl > 0,
        fl > 0 ==> lw@.len() == fl * fl && cw@.len() == (if coded_444 {
            1int
        } else {
            4
        }) * (fl * fl),
    ensures
        r.view() == (RegionView {
            rows: (rows.0 as int, rows.1 as int),
            cols: (cols.0 as int, cols.1 as int),
            k: kernel_side(fl as int, coded_444),
            before: kernel_centre(fl as int, coded_444),
            chroma: (
                chroma_kernel(cw@, min as int, fl as int, coded_444, 0),
                chroma_kernel(cw@, min as int, fl as int, coded_444, 1),
                chroma_kernel(cw@, min as int, fl as int, coded_444, 2),
                chroma_kernel(cw@, min as int, fl as int, coded_444, 3),
            ),
            luma: luma_kernel(lw@, min as int, fl as int, coded_444),
        }),
{
    let luma: Vec<i64> = make_luma(lw, min, fl, coded_444);
    let chroma: [Vec<i64>; 4] = [
        make_chroma(cw, min, fl, coded_444, 0),
        make_chroma(cw, min, fl, coded_444, 1),
        make_chroma(cw, min, fl, coded_444, 2),
        make_chroma(cw, min, fl, coded_444, 3),
    ];
    let k: usize = if coded_444 { fl } else { 4 };
    let before: usize = if coded_444 { (fl - 1) / 2 } else { 1 };
    Region { rows, cols, k, before, chroma, luma }
}

/// The formats that the filters support: 4:4:4 coded as 4:4:4, 4:2:2 or 4:2:0, and 4:2:2 / 4:2:0
/// coded as themselves.
pub open spec fn spec_supported(s: (u8, u8), c: (u8, u8)) -> bool {
    ||| s == (1u8, 1u8) && (c == (1u8, 1u8) || c == (1u8, 2u8) || c == (2u8, 2u8))
    ||| s == (1u8, 2u8) && c == (1u8, 2u8)
    ||| s == (2u8, 2u8) && c == (2u8, 2u8)
}

/// Check that the filters support a picture's source and coded chroma formats.
pub fn supported_format(hdr: &PictureHeader) -> (r: Result<()>)
    ensures
        r == if spec_supported((hdr.s_ver, hdr.s_hor), (hdr.c_ver, hdr.c_hor)) {
            Ok::<(), Error>(())
        } else {
            Err::<(), Error>(
                Error::Unsupported("EFE filters: chroma format the reference software does not support"),
            )
        },
{
    let (sv, sh, cv, ch): (u8, u8, u8, u8) = (hdr.s_ver, hdr.s_hor, hdr.c_ver, hdr.c_hor);
    let ok: bool = (sv == 1 && sh == 1 && ((cv == 1 && (ch == 1 || ch == 2)) || (cv == 2 && ch
        == 2))) || (sv == 1 && sh == 2 && cv == 1 && ch == 2) || (sv == 2 && sh == 2 && cv == 2
        && ch == 2);
    if ok {
        Ok(())
    } else {
        Err(Error::Unsupported("EFE filters: chroma format the reference software does not support"))
    }
}

/// How the filter lays out a picture.
#[derive(Clone, Copy, Debug, PartialEq, Eq, Structural)]
pub struct LinearPlan {
    /// Chroma phase factors: 2 where the source has full chroma resolution, 1 where it is
    /// subsampled.
    pub fv: usize,
    /// See `fv`, horizontal factor.
    pub fh: usize,
    /// Phase plane size: half of luma's, rounded up.
    pub s0: usize,
    /// See `s0`, horizontal size.
    pub s1: usize,
    /// The picture was coded at the source's chroma resolution.
    pub coded_444: bool,
    /// The alternative picture is wanted too.
    pub alternative: bool,
}

/// The plan for a picture of a supported format.
pub open spec fn spec_plan(hdr: PictureHeader, h: EfeLinearHeader, first_mask: bool, y: PlaneSize) -> LinearPlan {
    LinearPlan {
        fv: (3 - hdr.s_ver) as usize,
        fh: (3 - hdr.s_hor) as usize,
        s0: tiles::ceil(y.h as int, 2) as usize,
        s1: tiles::ceil(y.w as int, 2) as usize,
        coded_444: hdr.c_ver == hdr.s_ver && hdr.c_hor == hdr.s_hor,
        alternative: (h.upsample_set.cand@[0] is Some || h.upsample_set.cand@[1] is Some)
            && first_mask,
    }
}

/// A plane goes unfiltered in a picture coded at the source's chroma resolution.
pub open spec fn unfiltered(set: EfeLinearSet) -> bool {
    set.cand@[0] is None || set.cand@[1] is None
}

/// Why a picture cannot be filtered.
pub open spec fn plan_error(
    hdr: PictureHeader,
    h: EfeLinearHeader,
    first_mask: bool,
    y: PlaneSize,
    u: PlaneSize,
    v: PlaneSize,
) -> Option<Error> {
    let p = spec_plan(hdr, h, first_mask, y);
    if !spec_supported((hdr.s_ver, hdr.s_hor), (hdr.c_ver, hdr.c_hor)) {
        Some(Error::Unsupported("EFE filters: chroma format the reference software does not support"))
    } else if y.h == 0 || y.w == 0 {
        Some(Error::InvalidArgument("EFE linear: empty picture"))
    } else if tiles::ceil(u.h as int, p.fv as int) != p.s0 || tiles::ceil(u.w as int, p.fh as int)
        != p.s1 || (v.h, v.w) != (u.h, u.w) {
        Some(
            Error::InvalidArgument("EFE linear: chroma plane size does not match the source format"),
        )
    } else if p.coded_444 && ((p.alternative && unfiltered(h.upsample_set)) || unfiltered(h.set)) {
        Some(
            Error::Unsupported(
                "EFE linear: unfiltered plane in a picture coded at the source's chroma resolution",
            ),
        )
    } else {
        None
    }
}

/// How the filter lays out a picture with planes of these sizes. `first_mask` says that the
/// non-linear filter is on and carries its first mask, which is when it reads the alternative
/// picture that the first coded set makes.
pub fn linear_plan(
    hdr: &PictureHeader,
    h: &EfeLinearHeader,
    first_mask: bool,
    y: PlaneSize,
    u: PlaneSize,
    v: PlaneSize,
) -> (r: Result<LinearPlan>)
    ensures
        match plan_error(*hdr, *h, first_mask, y, u, v) {
            Some(e) => r == Err::<LinearPlan, Error>(e),
            None => r == Ok::<LinearPlan, Error>(spec_plan(*hdr, *h, first_mask, y)),
        },
{
    supported_format(hdr)?;
    if y.h == 0 || y.w == 0 {
        return Err(Error::InvalidArgument("EFE linear: empty picture"));
    }
    let (fv, fh): (usize, usize) = (3 - hdr.s_ver as usize, 3 - hdr.s_hor as usize);
    let (s0, s1): (usize, usize) = (tiles::div_up(y.h, 2), tiles::div_up(y.w, 2));
    if tiles::div_up(u.h, fv) != s0 || tiles::div_up(u.w, fh) != s1 || v.h != u.h || v.w != u.w {
        return Err(
            Error::InvalidArgument("EFE linear: chroma plane size does not match the source format"),
        );
    }
    let coded_444: bool = hdr.c_ver == hdr.s_ver && hdr.c_hor == hdr.s_hor;
    let alternative: bool = (h.upsample_set.cand[0].is_some() || h.upsample_set.cand[1].is_some())
        && first_mask;
    let alt_bare: bool = h.upsample_set.cand[0].is_none() || h.upsample_set.cand[1].is_none();
    let bare: bool = h.set.cand[0].is_none() || h.set.cand[1].is_none();
    if coded_444 && ((alternative && alt_bare) || bare) {
        return Err(
            Error::Unsupported(
                "EFE linear: unfiltered plane in a picture coded at the source's chroma resolution",
            ),
        );
    }
    Ok(LinearPlan { fv, fh, s0, s1, coded_444, alternative })
}

/// A position of a phase plane with its border, led back into the plane.
pub open spec fn inside(r: int, s: int) -> int {
    if r < 1 {
        0
    } else if r - 1 < s {
        r - 1
    } else {
        s - 1
    }
}

/// The source row or column of a phase position.
pub open spec fn source_of(r: int, s: int, f: int, phase: int, len: int) -> int {
    let at = inside(r, s) * f + phase;
    if at < len {
        at
    } else {
        len - 1
    }
}

/// One sampling phase of a plane with its replicated border.
pub open spec fn spec_phase<T>(
    src: Tensor<T>,
    fv: int,
    fh: int,
    py: int,
    px: int,
    s0: int,
    s1: int,
) -> Seq<T> {
    let stride = s1 + 3;
    Seq::new(
        ((s0 + 3) * stride) as nat,
        |t: int|
            src.data@[source_of(t / stride, s0, fv, py, src.h as int) * src.w + source_of(
                t % stride,
                s1,
                fh,
                px,
                src.w as int,
            )],
    )
}

/// The source row or column of a phase position.
fn place(r: usize, s: usize, f: usize, phase: usize, len: usize) -> (at: usize)
    requires
        1 <= s <= 0x0fff_ffff,
        1 <= f <= 2,
        phase <= 1,
        1 <= len,
        r <= s + 2,
    ensures
        at == source_of(r as int, s as int, f as int, phase as int, len as int),
        at < len,
{
    let i: usize = if r < 1 {
        0
    } else if r - 1 < s {
        r - 1
    } else {
        s - 1
    };
    proof {
        assert(i * f + phase <= 2 * i + 1) by (nonlinear_arith)
            requires
                1 <= f <= 2,
                0 <= phase <= 1,
                0 <= i,
        ;
    }
    let at: usize = i * f + phase;
    if at < len {
        at
    } else {
        len - 1
    }
}

/// Phase `(py, px)` of `src` sampled every `(fv, fh)` samples, as an `s0 x s1` plane with a border
/// of one row and column before it and two behind it. Rows and columns that the plane lacks
/// replicate its last ones.
pub fn phase_plane<T: Copy>(
    src: &Tensor<T>,
    fv: usize,
    fh: usize,
    py: usize,
    px: usize,
    s0: usize,
    s1: usize,
) -> (data: Vec<T>)
    requires
        src.is_of(1, src.h as int, src.w as int),
        1 <= src.h,
        1 <= src.w,
        1 <= fv <= 2,
        1 <= fh <= 2,
        py <= 1,
        px <= 1,
        1 <= s0 <= 0x0fff_ffff,
        1 <= s1 <= 0x0fff_ffff,
        (s0 + 3) * (s1 + 3) <= usize::MAX,
    ensures
        data@ == spec_phase(
            *src,
            fv as int,
            fh as int,
            py as int,
            px as int,
            s0 as int,
            s1 as int,
        ),
{
    let stride: usize = s1 + PAD_BEFORE + PAD_AFTER;
    let rows: usize = s0 + PAD_BEFORE + PAD_AFTER;
    let n: usize = rows * stride;
    let (h, w): (usize, usize) = (src.h, src.w);
    let len: usize = src.data.len();
    let ghost want = spec_phase(
        *src,
        fv as int,
        fh as int,
        py as int,
        px as int,
        s0 as int,
        s1 as int,
    );
    let mut data: Vec<T> = Vec::new();
    while data.len() < n
        invariant
            data@.len() <= n,
            n == rows * stride,
            stride == s1 + 3,
            rows == s0 + 3,
            h == src.h,
            w == src.w,
            len == src.data@.len(),
            src.data@.len() == 1 * h * w,
            1 <= h,
            1 <= w,
            1 <= fv <= 2,
            1 <= fh <= 2,
            py <= 1,
            px <= 1,
            1 <= s0 <= 0x0fff_ffff,
            1 <= s1 <= 0x0fff_ffff,
            want == spec_phase(
                *src,
                fv as int,
                fh as int,
                py as int,
                px as int,
                s0 as int,
                s1 as int,
            ),
            forall|q: int| 0 <= q < data@.len() ==> #[trigger] data@[q] == want[q],
        decreases n - data@.len(),
    {
        let t: usize = data.len();
        let (r, c): (usize, usize) = (t / stride, t % stride);
        proof {
            div_mod::lemma_fundamental_div_mod(t as int, stride as int);
            assert(r < rows) by (nonlinear_arith)
                requires
                    t == stride * r + c,
                    t < rows * stride,
                    0 <= c,
                    stride >= 1,
            ;
        }
        let sy: usize = place(r, s0, fv, py, h);
        let sx: usize = place(c, s1, fh, px, w);
        proof {
            assert(0 <= sy * w && sy * w + sx < 1 * h * w) by (nonlinear_arith)
                requires
                    0 <= sy <= h - 1,
                    0 <= sx <= w - 1,
            ;
        }
        data.push(src.data[sy * w + sx]);
    }
    proof {
        assert(data@ =~= want);
    }
    data
}

/// A phase sample lies in a region of a candidate.
pub open spec fn in_region(cand: int, num: int, s0: int, s1: int, y: int, x: int) -> bool {
    let split = SPLITS@[cand]@[num]@;
    let (rows, cols) = (spec_extent(split, 0, s0), spec_extent(split, 2, s1));
    rows.0 <= y < rows.1 && cols.0 <= x < cols.1
}

/// The cuts of an axis are in order, and the last lies at or behind its end.
proof fn lemma_edges(s: int)
    requires
        0 <= s,
    ensures
        spec_split_edge(0, s) == 0,
        0 <= spec_split_edge(33, s) <= spec_split_edge(66, s),
        0 <= spec_split_edge(50, s),
        s <= spec_split_edge(100, s),
{
}

/// A position lies between two of an axis' cuts.
spec fn between(lo: u64, hi: u64, e33: int, e50: int, e66: int, at: int) -> bool {
    let reaches = |f: u64|
        if f == 0 {
            true
        } else if f == 33 {
            at >= e33
        } else if f == 50 {
            at >= e50
        } else if f == 66 {
            at >= e66
        } else {
            false
        };
    reaches(lo) && !reaches(hi)
}

/// A region's extent along an axis holds the positions between its cuts.
proof fn lemma_between(split: Seq<u64>, k: int, s: int, at: int)
    requires
        0 <= at < s,
        split[k] == 0 || split[k] == 33 || split[k] == 50 || split[k] == 66,
        split[k + 1] == 33 || split[k + 1] == 50 || split[k + 1] == 66 || split[k + 1] == 100,
    ensures
        ({
            let e = spec_extent(split, k, s);
            (e.0 <= at < e.1) == between(
                split[k],
                split[k + 1],
                spec_split_edge(33, s),
                spec_split_edge(50, s),
                spec_split_edge(66, s),
                at,
            )
        }),
{
    lemma_edges(s);
}

/// The number of the region that holds a position, by which cuts it has passed.
spec fn region_number(cand: int, r33: bool, r50: bool, r66: bool, c33: bool, c50: bool, c66: bool) -> int {
    let half = |b: bool|
        if b {
            1int
        } else {
            0
        };
    let third = |a: bool, b: bool|
        if b {
            2int
        } else if a {
            1
        } else {
            0
        };
    if cand == 0 {
        0
    } else if cand == 1 {
        half(r50)
    } else if cand == 2 {
        half(c50)
    } else if cand == 3 {
        third(c33, c66)
    } else if cand == 4 {
        third(r33, r66)
    } else if cand == 5 {
        2 * half(r50) + half(c50)
    } else if cand == 6 {
        2 * third(r33, r66) + half(c50)
    } else {
        2 * third(c33, c66) + half(r50)
    }
}

/// A position lies between the cuts of exactly the region with its number.
proof fn lemma_region_number(cand: int, n: int, r33: int, r50: int, r66: int, c33: int, c50: int, c66: int, y: int, x: int)
    requires
        0 <= cand < 8,
        0 <= n < EFE_LINEAR_SPLITS@[cand],
        r33 <= r66,
        c33 <= c66,
    ensures
        ({
            let split = SPLITS@[cand]@[n]@;
            (between(split[0], split[1], r33, r50, r66, y) && between(
                split[2],
                split[3],
                c33,
                c50,
                c66,
                x,
            )) == (n == region_number(cand, y >= r33, y >= r50, y >= r66, x >= c33, x >= c50, x >= c66))
        }),
{
}

/// The cuts of a region are cuts.
proof fn lemma_cuts(cand: int, n: int)
    requires
        0 <= cand < 8,
        0 <= n < EFE_LINEAR_SPLITS@[cand],
    ensures
        ({
            let split = SPLITS@[cand]@[n]@;
            &&& split[0] == 0 || split[0] == 33 || split[0] == 50 || split[0] == 66
            &&& split[2] == 0 || split[2] == 33 || split[2] == 50 || split[2] == 66
            &&& split[1] == 33 || split[1] == 50 || split[1] == 66 || split[1] == 100
            &&& split[3] == 33 || split[3] == 50 || split[3] == 66 || split[3] == 100
        }),
{
}

/// The region that holds a sample is the one with its number.
proof fn lemma_held_by(cand: int, n: int, s0: int, s1: int, y: int, x: int)
    requires
        0 <= cand < 8,
        0 <= n < EFE_LINEAR_SPLITS@[cand],
        0 <= y < s0,
        0 <= x < s1,
    ensures
        in_region(cand, n, s0, s1, y, x) == (n == region_number(
            cand,
            y >= spec_split_edge(33, s0),
            y >= spec_split_edge(50, s0),
            y >= spec_split_edge(66, s0),
            x >= spec_split_edge(33, s1),
            x >= spec_split_edge(50, s1),
            x >= spec_split_edge(66, s1),
        )),
{
    let split = SPLITS@[cand]@[n]@;
    lemma_edges(s0);
    lemma_edges(s1);
    lemma_cuts(cand, n);
    lemma_between(split, 0, s0, y);
    lemma_between(split, 2, s1, x);
    lemma_region_number(
        cand,
        n,
        spec_split_edge(33, s0),
        spec_split_edge(50, s0),
        spec_split_edge(66, s0),
        spec_split_edge(33, s1),
        spec_split_edge(50, s1),
        spec_split_edge(66, s1),
        y,
        x,
    );
}

/// The regions of a candidate cover the phase plane, and no two of them share a sample.
pub proof fn law_splits_partition(cand: int, s0: int, s1: int, y: int, x: int)
    requires
        0 <= cand < 8,
        0 <= y < s0,
        0 <= x < s1,
    ensures
        exists|n: int|
            0 <= n < EFE_LINEAR_SPLITS@[cand] && #[trigger] in_region(cand, n, s0, s1, y, x),
        forall|a: int, b: int|
            0 <= a < EFE_LINEAR_SPLITS@[cand] && 0 <= b < EFE_LINEAR_SPLITS@[cand]
                && #[trigger] in_region(cand, a, s0, s1, y, x) && #[trigger] in_region(
                cand,
                b,
                s0,
                s1,
                y,
                x,
            ) ==> a == b,
{
    let n = region_number(
        cand,
        y >= spec_split_edge(33, s0),
        y >= spec_split_edge(50, s0),
        y >= spec_split_edge(66, s0),
        x >= spec_split_edge(33, s1),
        x >= spec_split_edge(50, s1),
        x >= spec_split_edge(66, s1),
    );
    assert(0 <= n < EFE_LINEAR_SPLITS@[cand]);
    lemma_held_by(cand, n, s0, s1, y, x);
    assert(in_region(cand, n, s0, s1, y, x));
    assert forall|a: int, b: int|
        0 <= a < EFE_LINEAR_SPLITS@[cand] && 0 <= b < EFE_LINEAR_SPLITS@[cand]
            && #[trigger] in_region(cand, a, s0, s1, y, x) && #[trigger] in_region(
            cand,
            b,
            s0,
            s1,
            y,
            x,
        ) implies a == b by {
        lemma_held_by(cand, a, s0, s1, y, x);
        lemma_held_by(cand, b, s0, s1, y, x);
    }
}

} // verus!

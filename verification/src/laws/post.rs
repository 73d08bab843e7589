//! What each post-filter works on: regions, kernels, phases, tiles, bands and networks.

use vstd::prelude::*;
use vstd::arithmetic::div_mod;

use crate::encoder::tiles;
use crate::error::Error;
use crate::filters::{efe_linear, efe_nonlinear, icci, lef};
use crate::filters::efe_nonlinear::{NonlinearTile, SwitchTo};
use crate::header::{
    EfeLinearHeader, EfeNonlinearHeader, EfeNonlinearTiles, IcciHeader, IcciTile, OperatingPoint,
    PictureHeader, SynthesisTiling, EFE_LINEAR_SPLITS,
};
use crate::laws::geometry;
use crate::laws::geometry::covers;
use crate::planes::PlaneSize;
use crate::tensor::Tensor;

verus! {

/// An axis is cut at the multiple of 32 that lies nearest to the fraction of the axis, lengthened by
/// 31 samples; where two lie equally near, at the even multiple.
pub proof fn law_cuts_are_nearest(hundredths: int, s: int)
    requires
        0 <= hundredths <= 100,
        0 <= s,
    ensures
        ({
            let e = efe_linear::spec_split_edge(hundredths, s);
            let off = 100 * e - hundredths * (s + 31);
            &&& e % 32 == 0
            &&& -1600 <= off <= 1600
            &&& off == 1600 || off == -1600 ==> e % 64 == 0
        }),
{
    let n = hundredths * (s + 31);
    assert(n == 3200 * (n / 3200) + n % 3200);
}

/// A region runs from the cut of its first fraction to that of its second, and not past the axis.
pub proof fn law_regions_end_with_the_axis(split: Seq<u64>, k: int, s: int, at: int)
    requires
        0 <= at < s,
    ensures
        ({
            let e = efe_linear::spec_extent(split, k, s);
            e.0 <= at < e.1 <==> efe_linear::spec_split_edge(split[k] as int, s) <= at
                < efe_linear::spec_split_edge(split[k + 1] as int, s)
        }),
        efe_linear::spec_extent(split, k, s).1 <= s,
{
}

/// Rows and columns of regions that a candidate cuts a phase plane into.
pub open spec fn split_grid(cand: int) -> (int, int) {
    if cand == 0 {
        (1, 1)
    } else if cand == 1 {
        (2, 1)
    } else if cand == 2 {
        (1, 2)
    } else if cand == 3 {
        (1, 3)
    } else if cand == 4 {
        (3, 1)
    } else if cand == 5 {
        (2, 2)
    } else if cand == 6 {
        (3, 2)
    } else {
        (2, 3)
    }
}

/// Where the `i`-th of `n` equal parts starts, to the hundredth below.
pub open spec fn hundredths(i: int, n: int) -> int {
    if n == 1 {
        100 * i
    } else if n == 2 {
        50 * i
    } else {
        100 * i / 3
    }
}

/// The row and the column of a region, numbered row by row, or column by column for the last
/// candidate.
pub open spec fn split_cell(cand: int, n: int) -> (int, int) {
    let cols = split_grid(cand).1;
    if cand == 7 {
        (n % 2, n / 2)
    } else if cols == 1 {
        (n, 0)
    } else if cols == 2 {
        (n / 2, n % 2)
    } else {
        (n / 3, n % 3)
    }
}

/// A candidate cuts a phase plane into equal rows and equal columns, to the hundredth below. The
/// regions are numbered row by row, those of the last candidate column by column.
pub proof fn law_splits_are_even(cand: int, n: int)
    requires
        0 <= cand < 8,
        0 <= n < EFE_LINEAR_SPLITS@[cand],
    ensures
        ({
            let (rows, cols) = split_grid(cand);
            let (r, c) = split_cell(cand, n);
            let split = efe_linear::SPLITS@[cand]@[n]@;
            &&& 0 <= r < rows && 0 <= c < cols
            &&& split[0] == hundredths(r, rows) && split[1] == hundredths(r + 1, rows)
            &&& split[2] == hundredths(c, cols) && split[3] == hundredths(c + 1, cols)
        }),
{
    assert(cand == 0 || cand == 1 || cand == 2 || cand == 3 || cand == 4 || cand == 5 || cand == 6
        || cand == 7);
    assert(n == 0 || n == 1 || n == 2 || n == 3 || n == 4 || n == 5);
}

/// A coded filter stands in its kernel as it was coded, row by row, less the offset of its symbols:
/// in the whole kernel where the picture was coded at the source's chroma resolution, else in a
/// four by four kernel, with a ring of zeros before it where it is at most two by two.
pub proof fn law_luma_kernels_hold_the_filter(
    w: Seq<u32>,
    min: int,
    fl: int,
    coded_444: bool,
    y: int,
    x: int,
)
    requires
        1 <= fl <= 4,
        0 <= min <= 0xffff,
        0 <= y < fl,
        0 <= x < fl,
    ensures
        ({
            let kernel = efe_linear::luma_kernel(w, min, fl, coded_444);
            let k = if coded_444 {
                fl
            } else {
                4
            };
            let off = if !coded_444 && fl <= 2 {
                1int
            } else {
                0
            };
            &&& kernel.len() == k * k
            &&& kernel[(y + off) * k + x + off] == w[y * fl + x] + min - 32767
        }),
{
    let k = efe_linear::kernel_side(fl, coded_444);
    let off = efe_linear::filter_offset(fl, coded_444);
    let t = (y + off) * k + x + off;
    assert(0 <= t < k * k) by (nonlinear_arith)
        requires
            0 <= y + off < k,
            0 <= x + off < k,
            t == (y + off) * k + x + off,
    ;
    div_mod::lemma_fundamental_div_mod_converse(t, k, y + off, x + off);
    assert((0 * fl + y) * fl == y * fl) by (nonlinear_arith);
}

/// The interpolation of a phase leaves a flat plane as it is: its taps cancel out.
pub proof fn law_interpolation_keeps_flat_planes(i: int)
    requires
        0 <= i < 4,
    ensures
        ({
            let t = efe_linear::DCT_IF_4TAP@[i]@;
            t[0] + t[1] + t[2] + t[3] + t[4] + t[5] + t[6] + t[7] + t[8] + t[9] + t[10] + t[11]
                + t[12] + t[13] + t[14] + t[15] == 0
        }),
{
}

/// The interpolation of the second and of the third phase is the same filter along the other axis,
/// and that of the fourth is symmetric in its axes; the first phase has none.
pub proof fn law_interpolation_along_both_axes(y: int, x: int)
    requires
        0 <= y < 4,
        0 <= x < 4,
    ensures
        efe_linear::DCT_IF_4TAP@[0]@[4 * y + x] == 0,
        efe_linear::DCT_IF_4TAP@[1]@[4 * y + x] == efe_linear::DCT_IF_4TAP@[2]@[4 * x + y],
        efe_linear::DCT_IF_4TAP@[3]@[4 * y + x] == efe_linear::DCT_IF_4TAP@[3]@[4 * x + y],
        y != 1 ==> efe_linear::DCT_IF_4TAP@[1]@[4 * y + x] == 0,
{
    assert(y == 0 || y == 1 || y == 2 || y == 3);
    assert(x == 0 || x == 1 || x == 2 || x == 3);
}

/// With all coded weights zero, a chroma kernel of a picture coded at the source's resolution is the
/// identity; of any other picture it is the identity and the interpolation of the phase.
pub proof fn law_unweighted_chroma_kernels(
    w: Seq<u32>,
    min: int,
    fl: int,
    coded_444: bool,
    i: int,
    y: int,
    x: int,
)
    requires
        1 <= fl <= 4,
        0 <= i < 4,
        0 <= min <= 0xffff,
        forall|j: int| #[trigger] w[j] + min == 32767,
        0 <= y < efe_linear::kernel_side(fl, coded_444),
        0 <= x < efe_linear::kernel_side(fl, coded_444),
    ensures
        ({
            let kernel = efe_linear::chroma_kernel(w, min, fl, coded_444, i);
            let one = |c: int|
                if y == c && x == c {
                    2048int
                } else {
                    0
                };
            if coded_444 {
                &&& kernel.len() == fl * fl
                &&& kernel[y * fl + x] == one((fl - 1) / 2)
            } else {
                &&& kernel.len() == 16
                &&& kernel[y * 4 + x] == one(1) + efe_linear::DCT_IF_4TAP@[i]@[y * 4 + x]
            }
        }),
{
    let k = efe_linear::kernel_side(fl, coded_444);
    let c = efe_linear::kernel_centre(fl, coded_444);
    let t = y * k + x;
    assert(0 <= t < k * k) by (nonlinear_arith)
        requires
            0 <= y < k,
            0 <= x < k,
            t == y * k + x,
    ;
    div_mod::lemma_fundamental_div_mod_converse(t, k, y, x);
    assert(0 <= c < k);
    if t == c * k + c {
        div_mod::lemma_fundamental_div_mod_converse(t, k, c, c);
    }
    let tap = efe_linear::DCT_IF_4TAP@[i]@[t];
    if !coded_444 {
        assert(y == 0 || y == 1 || y == 2 || y == 3);
        assert(x == 0 || x == 1 || x == 2 || x == 3);
        assert(-2000 <= tap <= 2000);
    }
}

/// A chroma kernel adds the coded filter of its phase to what it is without weights: the same filter
/// for every phase where the picture was coded at the source's resolution, else the phase's own.
pub proof fn law_chroma_kernels_add_the_filter(
    w: Seq<u32>,
    min: int,
    fl: int,
    coded_444: bool,
    i: int,
    y: int,
    x: int,
)
    requires
        1 <= fl <= 4,
        0 <= i < 4,
        0 <= min <= 0xffff,
        0 <= y < fl,
        0 <= x < fl,
    ensures
        ({
            let kernel = efe_linear::chroma_kernel(w, min, fl, coded_444, i);
            let c = (fl - 1) / 2;
            let off = if fl <= 2 {
                1int
            } else {
                0
            };
            let (ky, kx) = (y + off, x + off);
            if coded_444 {
                kernel[y * fl + x] == w[y * fl + x] + min - 32767 + (if y == c && x == c {
                    2048int
                } else {
                    0
                })
            } else {
                kernel[ky * 4 + kx] == w[(i * fl + y) * fl + x] + min - 32767
                    + efe_linear::DCT_IF_4TAP@[i]@[ky * 4 + kx] + (if ky == 1 && kx == 1 {
                    2048int
                } else {
                    0
                })
            }
        }),
{
    let k = efe_linear::kernel_side(fl, coded_444);
    let off = efe_linear::filter_offset(fl, coded_444);
    let c = efe_linear::kernel_centre(fl, coded_444);
    let (ky, kx) = (y + off, x + off);
    let t = ky * k + kx;
    assert(0 <= t < k * k) by (nonlinear_arith)
        requires
            0 <= ky < k,
            0 <= kx < k,
            t == ky * k + kx,
    ;
    div_mod::lemma_fundamental_div_mod_converse(t, k, ky, kx);
    assert((0 * fl + y) * fl == y * fl) by (nonlinear_arith);
    assert(0 <= c < k);
    if t == c * k + c {
        div_mod::lemma_fundamental_div_mod_converse(t, k, c, c);
    }
    let tap = efe_linear::DCT_IF_4TAP@[i]@[t];
    if !coded_444 {
        assert(ky == 0 || ky == 1 || ky == 2 || ky == 3);
        assert(kx == 0 || kx == 1 || kx == 2 || kx == 3);
        assert(-2000 <= tap <= 2000);
    }
}

/// The chroma is at full, half or quarter resolution.
pub open spec fn known_format(f: (u8, u8)) -> bool {
    (f.0 == 1 && f.1 == 1) || (f.0 == 1 && f.1 == 2) || (f.0 == 2 && f.1 == 2)
}

/// The linear filter takes a picture that was coded in its source's format, and a source with full
/// chroma resolution however it was coded.
pub proof fn law_supported_formats(s: (u8, u8), c: (u8, u8))
    ensures
        efe_linear::spec_supported(s, c) <==> known_format(s) && known_format(c) && (s == c || (s.0
            == 1 && s.1 == 1)),
{
}

/// The phases of the linear filter: luma has two along each axis; chroma has two along an axis that
/// the source does not subsample and one along an axis that it does, so that all phase planes have
/// one size.
pub proof fn law_phase_planes_have_one_size(
    hdr: PictureHeader,
    h: EfeLinearHeader,
    first_mask: bool,
    y: PlaneSize,
    u: PlaneSize,
    v: PlaneSize,
)
    requires
        efe_linear::plan_error(hdr, h, first_mask, y, u, v) is None,
    ensures
        ({
            let p = efe_linear::spec_plan(hdr, h, first_mask, y);
            &&& p.fv * hdr.s_ver == 2 && p.fh * hdr.s_hor == 2
            &&& covers(p.s0 as int, 2, y.h as int) && covers(p.s1 as int, 2, y.w as int)
            &&& covers(p.s0 as int, p.fv as int, u.h as int)
            &&& covers(p.s1 as int, p.fh as int, u.w as int)
            &&& v.h == u.h && v.w == u.w
            &&& p.coded_444 <==> hdr.c_ver == hdr.s_ver && hdr.c_hor == hdr.s_hor
            &&& p.alternative <==> first_mask && (h.upsample_set.cand@[0] is Some
                || h.upsample_set.cand@[1] is Some)
            &&& p.coded_444 ==> h.set.cand@[0] is Some && h.set.cand@[1] is Some
            &&& p.coded_444 && p.alternative ==> h.upsample_set.cand@[0] is Some
                && h.upsample_set.cand@[1] is Some
        }),
{
    let p = efe_linear::spec_plan(hdr, h, first_mask, y);
    geometry::law_quotients_are_rounded_up(y.h as int, 2);
    geometry::law_quotients_are_rounded_up(y.w as int, 2);
    geometry::law_quotients_are_rounded_up(u.h as int, p.fv as int);
    geometry::law_quotients_are_rounded_up(u.w as int, p.fh as int);
    assert(hdr.s_ver == 1 || hdr.s_ver == 2);
    assert(hdr.s_hor == 1 || hdr.s_hor == 2);
}

/// The linear filter takes every picture whose chroma planes have the source's subsampled size, if
/// its formats are supported and each plane that needs one has a filter.
pub proof fn law_linear_filter_takes_matching_planes(
    hdr: PictureHeader,
    h: EfeLinearHeader,
    first_mask: bool,
    y: PlaneSize,
    u: PlaneSize,
    v: PlaneSize,
)
    requires
        known_format((hdr.s_ver, hdr.s_hor)),
        hdr.c_ver == hdr.s_ver && hdr.c_hor == hdr.s_hor,
        1 <= y.h,
        1 <= y.w,
        covers(u.h as int, hdr.s_ver as int, y.h as int),
        covers(u.w as int, hdr.s_hor as int, y.w as int),
        v.h == u.h && v.w == u.w,
        h.set.cand@[0] is Some && h.set.cand@[1] is Some,
        !first_mask,
    ensures
        efe_linear::plan_error(hdr, h, first_mask, y, u, v) is None,
{
    let p = efe_linear::spec_plan(hdr, h, first_mask, y);
    assert(hdr.s_ver == 1 || hdr.s_ver == 2);
    assert(hdr.s_hor == 1 || hdr.s_hor == 2);
    assert(u.h * 1 == u.h && u.w * 1 == u.w);
}

/// Where along an axis a phase sample lies in the source: the samples of a phase are `f` apart and
/// start at the phase; past the plane's end its last sample stands in.
pub open spec fn along(r: int, f: int, phase: int, len: int) -> int {
    if r * f + phase < len {
        r * f + phase
    } else {
        len - 1
    }
}

/// A phase plane holds every `f`-th sample of its source, with one row and column of the border
/// before it and two behind it.
pub proof fn law_phases_with_their_border<T>(
    src: Tensor<T>,
    fv: int,
    fh: int,
    py: int,
    px: int,
    s0: int,
    s1: int,
    y: int,
    x: int,
)
    requires
        1 <= s0,
        1 <= s1,
        -1 <= y < s0 + 2,
        -1 <= x < s1 + 2,
    ensures
        ({
            let d = efe_linear::spec_phase(src, fv, fh, py, px, s0, s1);
            let within = |v: int, s: int|
                if v < 0 {
                    0
                } else if v >= s {
                    s - 1
                } else {
                    v
                };
            &&& d.len() == (s0 + 3) * (s1 + 3)
            &&& d[(y + 1) * (s1 + 3) + x + 1] == src.data@[along(
                within(y, s0),
                fv,
                py,
                src.h as int,
            ) * src.w + along(within(x, s1), fh, px, src.w as int)]
        }),
{
    let stride = s1 + 3;
    let t = (y + 1) * stride + x + 1;
    assert(0 <= t < (s0 + 3) * stride) by (nonlinear_arith)
        requires
            0 <= y + 1 < s0 + 3,
            0 <= x + 1 < stride,
            t == (y + 1) * stride + x + 1,
    ;
    div_mod::lemma_fundamental_div_mod_converse(t, stride, y + 1, x + 1);
}

/// The on/off switch is in use if and only if there is a first mask and it has blocks.
pub proof fn law_switch_needs_the_first_mask(h: EfeNonlinearHeader)
    ensures
        h.masks@[0] is None ==> !efe_nonlinear::spec_first_mask(h),
        h.mask_geometry is None ==> !efe_nonlinear::spec_first_mask(h),
        h.masks@[0] is Some ==> (h.mask_geometry matches Some((_, my, mx)) ==> (
        efe_nonlinear::spec_first_mask(h) <==> my != 0 || mx != 0)),
{
}

/// A mask value of 0 keeps the filtered sample, 2 takes the alternative picture's, and 1 averages
/// the two.
pub proof fn law_masks_switch(mask: u8)
    ensures
        efe_nonlinear::spec_switch(mask) == SwitchTo::Filtered <==> mask == 0,
        efe_nonlinear::spec_switch(mask) == SwitchTo::Alternative <==> mask == 2,
        mask == 1 ==> efe_nonlinear::spec_switch(mask) == SwitchTo::Average,
{
}

/// The tiles of the non-linear filter lie row by row: the one in row `i` and column `j` starts there
/// a tile's size apart from its neighbours, ends with the plane at the latest, and has the luma range
/// and the eight weights of its place.
pub proof fn law_nonlinear_tiles_row_by_row(
    tile: NonlinearTile,
    t: EfeNonlinearTiles,
    min: int,
    codes: Seq<u32>,
    hh: usize,
    ww: usize,
    rows: int,
    columns: int,
    i: int,
    j: int,
)
    requires
        1 <= t.tile_height,
        1 <= t.tile_width,
        covers(rows, t.tile_height as int, hh as int),
        covers(columns, t.tile_width as int, ww as int),
        0 <= i < rows,
        0 <= j < columns,
        efe_nonlinear::tile_is(tile, t, min, codes, hh as int, ww as int, i * columns + j),
    ensures
        efe_nonlinear::tile_count(t, hh as int, ww as int) == rows * columns,
        tile.rows.0 == i * t.tile_height,
        tile.cols.0 == j * t.tile_width,
        i + 1 < rows ==> tile.rows.1 == tile.rows.0 + t.tile_height,
        i + 1 == rows ==> tile.rows.1 == hh,
        j + 1 < columns ==> tile.cols.1 == tile.cols.0 + t.tile_width,
        j + 1 == columns ==> tile.cols.1 == ww,
        tile.luma_min == t.luma_min@[i * columns + j],
        tile.luma_max == t.luma_max@[i * columns + j],
        forall|b: int|
            0 <= b < 8 ==> #[trigger] tile.weights@[b] == codes[8 * (i * columns + j) + b] + min
                - 32767,
{
    let (th, tw) = (t.tile_height as int, t.tile_width as int);
    let k = i * columns + j;
    geometry::law_quotients_are_rounded_up(hh as int, th);
    geometry::law_quotients_are_rounded_up(ww as int, tw);
    geometry::lemma_covers_once(rows, tiles::ceil(hh as int, th), th, hh as int);
    geometry::lemma_covers_once(columns, tiles::ceil(ww as int, tw), tw, ww as int);
    div_mod::lemma_fundamental_div_mod_converse(k, columns, i, j);
    lemma_part(i, rows, th, hh as int);
    lemma_part(j, columns, tw, ww as int);
}

/// Where the parts of a length start and end.
proof fn lemma_part(i: int, n: int, part: int, len: int)
    requires
        1 <= part,
        covers(n, part, len),
        0 <= i < n,
    ensures
        0 <= i * part < len,
        i + 1 < n ==> i * part + part < len,
        i + 1 == n ==> i * part + part >= len,
{
    assert(0 <= i * part) by (nonlinear_arith)
        requires
            0 <= i,
            1 <= part,
    ;
    assert(i * part <= n * part - part) by (nonlinear_arith)
        requires
            i <= n - 1,
            1 <= part,
    ;
    if i + 1 < n {
        assert(i * part + part <= n * part - part) by (nonlinear_arith)
            requires
                i + 1 <= n - 1,
                1 <= part,
        ;
    } else {
        assert(i * part + part == n * part) by (nonlinear_arith)
            requires
                i + 1 == n,
        ;
    }
}

/// A mask fits a plane if and only if it has a value for each block that the plane has samples of.
pub proof fn law_masks_cover_the_plane(bs: int, my: int, mx: int, len: int, h: int, w: int)
    requires
        0 <= bs,
        0 <= h,
        0 <= w,
    ensures
        !efe_nonlinear::mask_misfits(bs, my, mx, len, h, w) <==> bs != 0 && covers(my, bs, h)
            && covers(mx, bs, w) && len == my * mx,
{
    if bs != 0 {
        geometry::law_quotients_are_rounded_up(h, bs);
        geometry::law_quotients_are_rounded_up(w, bs);
        if covers(my, bs, h) {
            geometry::lemma_covers_once(my, tiles::ceil(h, bs), bs, h);
        }
        if covers(mx, bs, w) {
            geometry::lemma_covers_once(mx, tiles::ceil(w, bs), bs, w);
        }
    }
}

/// The tiles of the eICCI filter along an axis: the first starts at the border and the last ends at
/// the other, neighbours share the overlap and no more, and all but the last two have the tile's
/// size. Where there are more than one, none of the last two is below the minimum.
pub proof fn law_filter_tiles_share_the_overlap(len: int, t: SynthesisTiling, i: int)
    requires
        icci::axis_error(len, t) is None,
        0 <= i < icci::spec_axis(len, t).len(),
    ensures
        ({
            let axis = icci::spec_axis(len, t);
            let n = axis.len();
            let size = if t.tile_size < len {
                t.tile_size as int
            } else {
                len
            };
            &&& axis[0].0 == 0
            &&& axis[n - 1].0 + axis[n - 1].1 == len
            &&& i + 1 < n ==> axis[i].0 + axis[i].1 == axis[i + 1].0 + t.overlap
            &&& i + 2 < n ==> axis[i].1 == size
            &&& 2 <= n ==> 176 <= axis[n - 1].1 && axis[n - 2].1 <= size
            &&& 2 <= n && axis[n - 2].1 != size ==> axis[n - 2].1 == size - 176 && axis[n - 1].1
                < 352
            &&& t.overlap < axis[i].1
        }),
{
    let n = icci::span_count(len, t);
    let step = icci::tile_len(len, t) - t.overlap;
    icci::lemma_raw_span(len, t, 0);
    icci::lemma_raw_span(len, t, i);
    icci::lemma_raw_span(len, t, n - 1);
    assert(0 * step == 0);
    if n >= 2 {
        icci::lemma_raw_span(len, t, n - 2);
    }
    if i + 1 < n {
        icci::lemma_raw_span(len, t, i + 1);
    }
}

/// A tile of the eICCI filter keeps what it has, less half of the overlap on each side where it has
/// a neighbour.
pub proof fn law_filter_tiles_keep_their_core(span: (int, int), len: int, half: int)
    ensures
        ({
            let c = icci::core_of(span, len, half);
            let end = span.0 + span.1;
            &&& c.0 == span.0 + c.2
            &&& span.0 == 0 ==> c.2 == 0
            &&& span.0 != 0 ==> c.2 == half
            &&& end >= len ==> c.0 + c.1 == end
            &&& end < len ==> c.0 + c.1 + half == end
        }),
{
}

/// The tiles of the eICCI filter lie row by row, each where its row and its column of tiles cross.
pub proof fn law_filter_tiles_row_by_row(
    height: usize,
    width: usize,
    t: SynthesisTiling,
    i: int,
    j: int,
)
    requires
        icci::spec_layout(height as int, width as int, Some(t)) is Ok,
        0 <= i < icci::spec_axis(height as int, t).len(),
        0 <= j < icci::spec_axis(width as int, t).len(),
    ensures
        ({
            let v = icci::spec_layout(height as int, width as int, Some(t))->Ok_0;
            let (rows, cols) = (
                icci::spec_axis(height as int, t),
                icci::spec_axis(width as int, t),
            );
            let tile = v[i * cols.len() + j];
            let (r, c) = (
                icci::core_of(rows[i], height as int, t.overlap as int / 2),
                icci::core_of(cols[j], width as int, t.overlap as int / 2),
            );
            &&& v.len() == rows.len() * cols.len()
            &&& tile.image.y == rows[i].0 && tile.image.height == rows[i].1
            &&& tile.image.x == cols[j].0 && tile.image.width == cols[j].1
            &&& tile.core.y == r.0 && tile.core.height == r.1 && tile.core_offset.1 == r.2
            &&& tile.core.x == c.0 && tile.core.width == c.1 && tile.core_offset.0 == c.2
        }),
{
    let (rows, cols) = (icci::spec_axis(height as int, t), icci::spec_axis(width as int, t));
    let k = i * cols.len() + j;
    div_mod::lemma_fundamental_div_mod_converse(k, cols.len() as int, i, j);
    assert(0 <= k < rows.len() * cols.len()) by (nonlinear_arith)
        requires
            0 <= i < rows.len(),
            0 <= j < cols.len(),
            k == i * cols.len() + j,
    ;
    lemma_span_within(height as int, t, i);
    lemma_span_within(width as int, t, j);
    let half = t.overlap as int / 2;
    assert(icci::core_of(rows[i], height as int, half).1 > 0);
    assert(icci::core_of(cols[j], width as int, half).1 > 0);
}

/// A tile lies on its axis.
proof fn lemma_span_within(len: int, t: SynthesisTiling, i: int)
    requires
        icci::axis_error(len, t) is None,
        0 <= i < icci::spec_axis(len, t).len(),
    ensures
        ({
            let s = icci::spec_axis(len, t)[i];
            0 <= s.0 && 0 <= s.1 && s.0 + s.1 <= len
        }),
{
    let n = icci::span_count(len, t);
    icci::lemma_raw_span(len, t, i);
    icci::lemma_raw_span(len, t, n - 1);
    if n >= 2 {
        icci::lemma_raw_span(len, t, n - 2);
    }
}

/// Without a tiling the whole picture is one tile and all of it is kept.
pub proof fn law_untiled_filter(height: usize, width: usize)
    ensures
        ({
            let r = icci::spec_layout(height as int, width as int, None);
            &&& r is Ok
            &&& r->Ok_0.len() == 1
            &&& r->Ok_0[0].image == r->Ok_0[0].core
            &&& r->Ok_0[0].core_offset == (0usize, 0usize)
            &&& r->Ok_0[0].image.x == 0 && r->Ok_0[0].image.y == 0
            &&& r->Ok_0[0].image.width == width && r->Ok_0[0].image.height == height
        }),
{
}

/// A signalled index names its network itself; luma and chroma are chosen by their own index and
/// their own flags, and a plane without its flag is kept.
pub proof fn law_networks_are_chosen_by_index(t: IcciTile, op: OperatingPoint, model: int)
    requires
        !t.short_list,
    ensures
        ({
            let r = icci::spec_selection(t, op, model);
            &&& r is Ok
            &&& r->Ok_0.0 is Some <==> t.use_yuv@[0]
            &&& r->Ok_0.1 is Some <==> t.use_yuv@[1] || t.use_yuv@[2]
            &&& r->Ok_0.0 is Some ==> r->Ok_0.0 == Some(t.index_y as usize)
            &&& r->Ok_0.1 is Some ==> r->Ok_0.1 == Some(t.index_uv as usize)
        }),
{
}

/// A short-list index names one of the two networks that the operating point and the model have in
/// their list; an index past the list is refused where the plane is filtered.
pub proof fn law_networks_are_chosen_by_list(t: IcciTile, op: OperatingPoint, model: int)
    requires
        t.short_list,
        0 <= model,
    ensures
        ({
            let r = icci::spec_selection(t, op, model);
            let (luma, chroma) = (t.use_yuv@[0], t.use_yuv@[1] || t.use_yuv@[2]);
            let row = match op {
                OperatingPoint::Sop => 0int,
                OperatingPoint::Bop => 1,
                OperatingPoint::Hop => 2,
            };
            &&& r is Ok <==> (luma ==> model < 5 && t.index_y < 2) && (chroma ==> model < 5
                && t.index_uv < 2)
            &&& r is Ok ==> {
                &&& r->Ok_0.0 is Some <==> luma
                &&& r->Ok_0.1 is Some <==> chroma
                &&& luma ==> r->Ok_0.0->Some_0
                    == icci::LUMA_SHORT_LIST@[row]@[model]@[t.index_y as int]
                &&& chroma ==> r->Ok_0.1->Some_0
                    == icci::CHROMA_SHORT_LIST@[row]@[model]@[t.index_uv as int]
            }
            &&& r is Err ==> r->Err_0 == Error::InvalidData("eICCI: short-list index out of range")
        }),
{
}

/// A short list holds two different networks of the bank, the lower first.
pub proof fn law_short_lists_rise(row: int, model: int)
    requires
        0 <= row < 3,
        0 <= model < 5,
    ensures
        ({
            let (l, c) = (
                icci::LUMA_SHORT_LIST@[row]@[model]@,
                icci::CHROMA_SHORT_LIST@[row]@[model]@,
            );
            l[0] < l[1] < 10 && c[0] < c[1] < 5
        }),
{
    assert(row == 0 || row == 1 || row == 2);
    assert(model == 0 || model == 1 || model == 2 || model == 3 || model == 4);
}

/// The eICCI filter takes chroma planes of the source's subsampled size, and resamples them where
/// that is below luma's.
pub proof fn law_filter_takes_matching_planes(
    hdr: PictureHeader,
    h: IcciHeader,
    y: PlaneSize,
    u: PlaneSize,
    v: PlaneSize,
)
    ensures
        icci::plan_error(hdr, h, y, u, v) is None ==> {
            &&& known_format((hdr.s_ver, hdr.s_hor))
            &&& covers(u.h as int, hdr.s_ver as int, y.h as int)
            &&& covers(u.w as int, hdr.s_hor as int, y.w as int)
            &&& u == v && u.c == 1 && y.c == 1 && y.h != 0 && y.w != 0
            &&& 1 <= hdr.bit_depth <= 16
            &&& h.tiling is Some ==> y.h == hdr.height && y.w == hdr.width
        },
        known_format((hdr.s_ver, hdr.s_hor)) && h.tiling is None && h.tiles@.len() == 1 && covers(
            u.h as int,
            hdr.s_ver as int,
            y.h as int,
        ) && covers(u.w as int, hdr.s_hor as int, y.w as int) && u == v && u.c == 1 && y.c == 1
            && y.h != 0 && y.w != 0 && 1 <= hdr.bit_depth <= 16 ==> icci::plan_error(
            hdr,
            h,
            y,
            u,
            v,
        ) is None,
{
    geometry::law_quotients_are_rounded_up(y.h as int, 2);
    geometry::law_quotients_are_rounded_up(y.w as int, 2);
    assert(u.h * 1 == u.h && u.w * 1 == u.w);
    assert(known_format((hdr.s_ver, hdr.s_hor)) ==> (hdr.s_ver == 1 || hdr.s_ver == 2) && (hdr.s_hor
        == 1 || hdr.s_hor == 2));
}

/// Chroma is resampled for the eICCI filter if and only if the source subsamples it.
pub proof fn law_resampled_chroma(s: (u8, u8), h: int, w: int)
    requires
        known_format(s),
        0 <= h,
        0 <= w,
    ensures
        icci::spec_chroma(s, h, w) is Some,
        icci::spec_chroma(s, h, w)->Some_0 is Some <==> s.0 == 2 || s.1 == 2,
        icci::spec_chroma(s, h, w)->Some_0 matches Some((ch, cw)) ==> covers(ch, s.0 as int, h)
            && covers(cw, s.1 as int, w),
{
    geometry::law_quotients_are_rounded_up(h, 2);
    geometry::law_quotients_are_rounded_up(w, 2);
    assert(h * 1 == h);
}

/// The band of a sigma index is the number of the model's thresholds that it reaches.
pub proof fn law_bands_count_thresholds(model_id: int, sigma: i32, i: int)
    requires
        0 <= model_id < 4,
        0 <= i < 3,
    ensures
        0 <= lef::spec_band(model_id, sigma) <= 3,
        lef::spec_band(model_id, sigma) > i <==> sigma >= lef::THRESHOLDS@[model_id]@[i],
{
    assert(model_id == 0 || model_id == 1 || model_id == 2 || model_id == 3);
    let t = lef::THRESHOLDS@[model_id]@;
    assert(t[0] <= t[1] <= t[2]);
}

/// A higher model sharpens later: its thresholds rise with its number, the lowest by 200 and the
/// highest by 400.
pub proof fn law_thresholds_rise_with_the_model(model_id: int)
    requires
        0 <= model_id < 4,
    ensures
        ({
            let t = lef::THRESHOLDS@[model_id]@;
            &&& t[0] == 600 + 200 * model_id
            &&& t[2] == 2000 + 400 * model_id
            &&& model_id < 3 ==> t[1] == t[0] + 600
            &&& model_id == 3 ==> t[1] == t[0] + 800
        }),
{
    assert(model_id == 0 || model_id == 1 || model_id == 2 || model_id == 3);
}

/// A sample is sharpened if and only if it has a neighbour on every side.
pub proof fn law_border_samples_lack_a_neighbour(y: int, x: int, h: int, w: int)
    requires
        0 <= y < h,
        0 <= x < w,
    ensures
        !lef::spec_on_border(y, x, h, w) <==> 0 <= y - 1 && y + 1 < h && 0 <= x - 1 && x + 1 < w,
{
}

/// Which luma planes can be sharpened, and why the others cannot.
pub proof fn law_sharpened_planes(
    luma: PlaneSize,
    scale: PlaneSize,
    channel: int,
    model_id: int,
    bit_depth: u8,
)
    ensures
        lef::sharpen_error(luma, scale, channel, model_id, bit_depth) is None <==> {
            &&& model_id < 4 && channel < scale.c
            &&& luma.c == 1 && 0 < luma.h && 0 < luma.w && 0 < scale.h && 0 < scale.w
            &&& 1 <= bit_depth <= 16
        },
        lef::sharpen_error(luma, scale, channel, model_id, bit_depth) matches Some(e) ==> (
        e is InvalidData <==> model_id >= 4 || channel >= scale.c),
{
}

/// A scale map has a channel to signal if and only if it holds samples and its channels fit a byte.
pub proof fn law_signalled_channels(scale: PlaneSize)
    ensures
        lef::map_error(scale) is None <==> 1 <= scale.c <= 256 && 1 <= scale.h && 1 <= scale.w,
{
}

} // verus!

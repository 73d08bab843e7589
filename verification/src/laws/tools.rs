//! How the parameters of the post-filters are read, and which filters they make.

use vstd::prelude::*;
use vstd::arithmetic::power2;

use crate::bitio;
use crate::bits;
use crate::encoder::commit;
use crate::encoder::commit::Committed;
use crate::encoder::filters::efe_linear::PlaneSizes;
use crate::encoder::filters::icci as search;
use crate::error::Error;
use crate::filters::efe_linear;
use crate::filters::efe_linear::RegionView;
use crate::filters::efe_nonlinear;
use crate::header::{EfeLinearSet, EfeNonlinearTiles, PictureHeader, EFE_LINEAR_SPLITS};
use crate::header::{picture, tools};
use crate::header::picture::QualityMapHeader;
use crate::header::tools::{
    EfeLinearView, EfePlaneView, EfeSetView, IcciView, NonlinearView, ToolContext,
};
use crate::laws::geometry;
use crate::laws::geometry::covers;
use crate::laws::headers::{law_fields_are_spelt, number};
use crate::regions;
use crate::tensor::Tensor;

verus! {

/// A bit string is packed into the fewest bytes that hold it; the bits behind it are zero.
pub proof fn law_bits_are_packed(s: Seq<bool>)
    ensures
        ({
            let b = bits::of_bytes(bits::pack(s));
            &&& covers(bits::pack(s).len() as int, 8, s.len() as int)
            &&& b.take(s.len() as int) == s
            &&& forall|i: int| s.len() <= i < b.len() ==> !#[trigger] b[i]
        }),
{
    bits::lemma_pack(s);
    assert(bits::of_bytes(bits::pack(s)).take(s.len() as int) =~= s);
}

/// A quality map has its threads and three bits.
pub proof fn law_quality_maps_are_read_in_place(s: Seq<bool>, p: int)
    requires
        0 <= p,
        p + 6 <= s.len(),
    ensures
        picture::spec_quality_map(s, p) matches Ok((q, end)) && {
            let t = p + if s[p] {
                3int
            } else {
                1
            };
            &&& picture::spec_threads(s, p) == Ok::<(u8, int), Error>((q.num_threads, t))
            &&& q.entropy_index == number(s, t, 3)
            &&& end == t + 3
        },
{
    reveal(picture::spec_quality_map);
    reveal(picture::spec_threads);
    power2::lemma2_to64();
    law_fields_are_spelt(s, p + 1, 3);
    law_fields_are_spelt(s, p + 3, 3);
}

/// The linear filter has two means of fifteen bits, the set of the alternative picture and its own.
pub proof fn law_linear_parameters_are_read_in_order(
    s: Seq<bool>,
    p: int,
    coded_444: bool,
    v: EfeLinearView,
    end: int,
)
    requires
        0 <= p,
        tools::spec_linear(s, p, coded_444) == Ok::<(EfeLinearView, int), Error>((v, end)),
    ensures
        v.mean.0 == number(s, p, 15),
        v.mean.1 == number(s, p + 15, 15),
        tools::spec_linear_set(s, p + 30, coded_444) matches Ok((set, q)) && set == v.upsample_set
            && tools::spec_linear_set(s, q, coded_444) == Ok::<(EfeSetView, int), Error>(
            (v.set, end),
        ),
{
    reveal(tools::spec_linear);
    power2::lemma2_to64();
    law_fields_are_spelt(s, p, 15);
    law_fields_are_spelt(s, p + 15, 15);
}

/// A set has a candidate of four bits for each plane, a length of four bits for each plane that has
/// one, its smallest and its largest symbol in sixteen bits each, and then the weights of each plane.
pub proof fn law_filter_sets_are_read_in_order(
    s: Seq<bool>,
    p: int,
    coded_444: bool,
    v: EfeSetView,
    end: int,
)
    requires
        0 <= p,
        tools::spec_linear_set(s, p, coded_444) == Ok::<(EfeSetView, int), Error>((v, end)),
    ensures
        ({
            let (a, b) = (number(s, p, 4), number(s, p + 4, 4));
            let q = p + 8 + if a != 0 {
                4int
            } else {
                0
            };
            let t = q + if b != 0 {
                4int
            } else {
                0
            };
            &&& v.first.cand is Some <==> a != 0
            &&& v.second.cand is Some <==> b != 0
            &&& v.first.cand matches Some(c) ==> c + 1 == a && v.first.filter_len == number(
                s,
                p + 8,
                4,
            )
            &&& v.second.cand matches Some(c) ==> c + 1 == b && v.second.filter_len == number(s, q, 4)
            &&& v.min_symbol == number(s, t, 16)
            &&& v.max_symbol == number(s, t + 16, 16)
            &&& v.first.cand is None && v.second.cand is None ==> end == t + 32
        }),
{
    reveal(tools::spec_linear_set);
    reveal(tools::spec_weights);
    power2::lemma2_to64();
    law_fields_are_spelt(s, p, 4);
    law_fields_are_spelt(s, p + 4, 4);
    let (a, b) = (number(s, p, 4), number(s, p + 4, 4));
    let q = p + 8 + if a != 0 {
        4int
    } else {
        0
    };
    let t = q + if b != 0 {
        4int
    } else {
        0
    };
    if a != 0 {
        law_fields_are_spelt(s, p + 8, 4);
    }
    if b != 0 {
        law_fields_are_spelt(s, q, 4);
    }
    law_fields_are_spelt(s, t, 16);
    law_fields_are_spelt(s, t + 16, 16);
}

/// The weights of a plane are a list for each region: those of the chroma filters, then those of the
/// luma filters, each symbol as wide as the largest.
pub proof fn law_weights_are_read_in_order(
    s: Seq<bool>,
    p: int,
    cand: u8,
    len: u8,
    coded_444: bool,
    max: nat,
    v: EfePlaneView,
    end: int,
    k: int,
    i: int,
)
    requires
        0 <= p,
        max <= u32::MAX,
        tools::spec_weights(s, p, Some(cand), len, coded_444, max) == Ok::<
            (EfePlaneView, int),
            Error,
        >((v, end)),
        0 <= k < tools::splits_of(cand),
    ensures
        ({
            let w = bitio::bit_width(max) as int;
            let taps = len * len;
            let n = if coded_444 {
                taps
            } else {
                4 * taps
            };
            let q = p + tools::splits_of(cand) * (n * w);
            &&& v.cand == Some(cand) && v.filter_len == len
            &&& v.chroma_weights.len() == tools::splits_of(cand)
            &&& v.luma_weights.len() == tools::splits_of(cand)
            &&& v.chroma_weights[k].len() == n && v.luma_weights[k].len() == taps
            &&& 0 <= i < n ==> v.chroma_weights[k][i] == number(s, p + k * (n * w) + i * w, w)
            &&& 0 <= i < taps ==> v.luma_weights[k][i] == number(s, q + k * (taps * w) + i * w, w)
            &&& end == q + tools::splits_of(cand) * (taps * w)
        }),
{
    reveal(tools::spec_weights);
    reveal(tools::spec_lists);
    bitio::lemma_width_u32(max);
    let w = bitio::bit_width(max) as int;
    let taps = len * len;
    assert(0 <= taps) by (nonlinear_arith)
        requires
            taps == len * len,
            0 <= len,
    ;
    let n = if coded_444 {
        taps
    } else {
        4 * taps
    };
    let count = tools::splits_of(cand) as int;
    let q = p + count * (n * w);
    if 0 <= i < n {
        lemma_symbol_within(k, count, i, n, w);
        law_fields_are_spelt(s, p + k * (n * w) + i * w, w as nat);
    }
    if 0 <= i < taps {
        lemma_symbol_within(k, count, i, taps, w);
        assert(0 <= count * (n * w)) by (nonlinear_arith)
            requires
                0 <= count,
                0 <= n,
                0 <= w,
        ;
        law_fields_are_spelt(s, q + k * (taps * w) + i * w, w as nat);
    }
}

/// A symbol of a list lies within the lists.
proof fn lemma_symbol_within(k: int, count: int, i: int, n: int, w: int)
    requires
        0 <= k < count,
        0 <= i < n,
        0 <= w,
    ensures
        0 <= k * (n * w) + i * w,
        k * (n * w) + i * w + w <= count * (n * w),
{
    assert(0 <= i * w && i * w + w <= n * w) by (nonlinear_arith)
        requires
            0 <= i <= n - 1,
            0 <= w,
    ;
    let each = n * w;
    assert(0 <= k * each && k * each + each <= count * each) by (nonlinear_arith)
        requires
            0 <= k <= count - 1,
            0 <= each,
    ;
}

/// The masks of the non-linear filter share their geometry: a block size, rows and columns of ten
/// bits each, then two bits a block for each mask that is on.
pub proof fn law_masks_are_read_in_order(
    s: Seq<bool>,
    p: int,
    on: (bool, bool),
    g: Option<(u16, u16, u16)>,
    masks: (Option<Seq<u8>>, Option<Seq<u8>>),
    end: int,
)
    requires
        0 <= p,
        tools::spec_masks(s, p, on) == Ok::<
            ((Option<(u16, u16, u16)>, (Option<Seq<u8>>, Option<Seq<u8>>)), int),
            Error,
        >(((g, masks), end)),
    ensures
        g is Some <==> on.0 || on.1,
        masks.0 is Some <==> on.0,
        masks.1 is Some <==> on.1,
        g matches Some((bs, rows, cols)) ==> {
            &&& bs == number(s, p, 10) && rows == number(s, p + 10, 10) && cols == number(
                s,
                p + 20,
                10,
            )
            &&& masks.0 matches Some(m) ==> m.len() == rows * cols
            &&& masks.1 matches Some(m) ==> m.len() == rows * cols
        },
        g is None ==> end == p,
{
    reveal(tools::spec_masks);
    reveal(tools::spec_mask);
    power2::lemma2_to64();
    if on.0 || on.1 {
        law_fields_are_spelt(s, p, 10);
        law_fields_are_spelt(s, p + 10, 10);
        law_fields_are_spelt(s, p + 20, 10);
        let (r, c) = (number(s, p + 10, 10), number(s, p + 20, 10));
        assert(0 <= r * c) by (nonlinear_arith)
            requires
                0 <= r,
                0 <= c,
        ;
    }
}

/// The non-linear filter has its smallest and its largest symbol in sixteen bits each, a bit for each
/// mask, the masks, a bit for each plane, and the tiles where one of these is on.
pub proof fn law_nonlinear_parameters_are_read_in_order(
    s: Seq<bool>,
    p: int,
    v: NonlinearView,
    end: int,
)
    requires
        0 <= p,
        tools::spec_nonlinear(s, p) == Ok::<(NonlinearView, int), Error>((v, end)),
    ensures
        v.min_symbol == number(s, p, 16),
        v.max_symbol == number(s, p + 16, 16),
        v.masks.0 is Some <==> s[p + 32],
        v.masks.1 is Some <==> s[p + 33],
        !s[p + 32] && !s[p + 33] ==> (v.nonlinear is Some <==> s[p + 34] || s[p + 35]),
        v.nonlinear matches Some(t) ==> !s[p + 32] && !s[p + 33] ==> {
            &&& t.tile_width == number(s, p + 36, 16)
            &&& t.tile_height == number(s, p + 52, 16)
            &&& t.luma_min.len() == number(s, p + 68, 16)
            &&& t.luma_max.len() == number(s, p + 68, 16)
            &&& t.weights.0 is Some <==> s[p + 34]
            &&& t.weights.1 is Some <==> s[p + 35]
        },
{
    reveal(tools::spec_nonlinear);
    reveal(tools::spec_masks);
    reveal(tools::spec_mask);
    reveal(tools::spec_nonlinear_tiles);
    reveal(tools::spec_weight_list);
    power2::lemma2_to64();
    law_fields_are_spelt(s, p, 16);
    law_fields_are_spelt(s, p + 16, 16);
    if !s[p + 32] && !s[p + 33] && v.nonlinear is Some {
        law_fields_are_spelt(s, p + 36, 16);
        law_fields_are_spelt(s, p + 52, 16);
        law_fields_are_spelt(s, p + 68, 16);
    }
}

/// Each filter's parameters stand behind its own bit, and the next bit behind them.
pub proof fn law_filters_stand_behind_their_bit(
    s: Seq<bool>,
    c: ToolContext,
    t: tools::ToolView,
    end: int,
)
    requires
        tools::spec_tools(s, c) == Ok::<(tools::ToolView, int), Error>((t, end)),
    ensures
        t.efe_linear is Some <==> s[2],
        t.efe_linear matches Some(x) ==> tools::spec_linear(s, 3, c.coded_444) is Ok
            && tools::spec_linear(s, 3, c.coded_444)->Ok_0.0 == x,
        ({
            let p = if s[2] {
                tools::spec_linear(s, 3, c.coded_444)->Ok_0.1
            } else {
                3
            };
            let q = if !c.icci_coded {
                p
            } else if s[p] {
                tools::spec_icci(s, p + 1, c.height, c.width)->Ok_0.1
            } else {
                p + 1
            };
            let r = if s[q] {
                tools::spec_nonlinear(s, q + 1)->Ok_0.1
            } else {
                q + 1
            };
            &&& t.icci is Some <==> c.icci_coded && s[p]
            &&& t.icci matches Some(x) ==> tools::spec_icci(s, p + 1, c.height, c.width)->Ok_0.0 == x
            &&& t.efe_nonlinear is Some <==> s[q]
            &&& t.efe_nonlinear matches Some(x) ==> tools::spec_nonlinear(s, q + 1)->Ok_0.0 == x
            &&& t.lef_channel is Some <==> s[r]
            &&& t.lef_channel matches Some(x) ==> x == bitio::field(s, r + 1, 8) as u8 && end == r
                + 9
            &&& t.lef_channel is None ==> end == r + 1
        }),
{
}

/// Every sample of a phase plane is filtered: it lies in one of the regions that a plane's filters
/// make, with the kernels of the region's number.
pub proof fn law_every_phase_sample_is_filtered(
    set: EfeLinearSet,
    p: int,
    coded_444: bool,
    s0: int,
    s1: int,
    y: int,
    x: int,
)
    requires
        0 <= y < s0,
        0 <= x < s1,
    ensures
        efe_linear::spec_regions(set, p, coded_444, s0, s1) matches Ok(v) ==> exists|i: int|
            0 <= i < v.len() && (#[trigger] v[i]).rows.0 <= y < v[i].rows.1 && v[i].cols.0 <= x
                < v[i].cols.1,
{
    let (cand, fl) = efe_linear::plane_filter(set, p);
    if let Ok(v) = efe_linear::spec_regions(set, p, coded_444, s0, s1) {
        if cand >= 0 {
            efe_linear::law_splits_partition(cand, s0, s1, y, x);
            let n = choose|n: int|
                0 <= n < EFE_LINEAR_SPLITS@[cand] && #[trigger] efe_linear::in_region(
                    cand,
                    n,
                    s0,
                    s1,
                    y,
                    x,
                );
            lemma_built(set, p, coded_444, s0, s1, 0, Seq::empty(), n);
            let r = efe_linear::spec_region(set, p, coded_444, s0, s1, n);
            let i = choose|i: int| 0 <= i < v.len() && #[trigger] v[i] == r;
            assert(v[i].rows.0 <= y < v[i].rows.1);
        }
    }
}

/// A region with samples is among those that are built, behind those that were there.
proof fn lemma_built(
    set: EfeLinearSet,
    p: int,
    coded_444: bool,
    s0: int,
    s1: int,
    num: int,
    acc: Seq<RegionView>,
    n: int,
)
    requires
        0 <= num <= n,
        n < EFE_LINEAR_SPLITS@[efe_linear::plane_filter(set, p).0],
        n < 6,
        !efe_linear::is_empty(efe_linear::spec_region(set, p, coded_444, s0, s1, n)),
    ensures
        efe_linear::spec_build(set, p, coded_444, s0, s1, num, acc) matches Ok(v) ==> {
            &&& exists|i: int|
                0 <= i < v.len() && #[trigger] v[i] == efe_linear::spec_region(
                    set,
                    p,
                    coded_444,
                    s0,
                    s1,
                    n,
                )
            &&& v.len() >= acc.len()
            &&& forall|i: int| 0 <= i < acc.len() ==> #[trigger] v[i] == acc[i]
        },
    decreases n - num,
{
    let r = efe_linear::spec_region(set, p, coded_444, s0, s1, num);
    let empty = efe_linear::is_empty(r);
    let next = if empty {
        acc
    } else {
        acc.push(r)
    };
    if !empty && efe_linear::wrong_size(set, p, coded_444, num) {
    } else if num < n {
        lemma_built(set, p, coded_444, s0, s1, num + 1, next, n);
        if let Ok(v) = efe_linear::spec_build(set, p, coded_444, s0, s1, num, acc) {
            assert forall|i: int| 0 <= i < acc.len() implies #[trigger] v[i] == acc[i] by {
                assert(next[i] == acc[i]);
            }
        }
    } else {
        lemma_kept(set, p, coded_444, s0, s1, num + 1, next);
        if let Ok(v) = efe_linear::spec_build(set, p, coded_444, s0, s1, num, acc) {
            assert(v[acc.len() as int] == next[acc.len() as int]);
            assert forall|i: int| 0 <= i < acc.len() implies #[trigger] v[i] == acc[i] by {
                assert(next[i] == acc[i]);
            }
        }
    }
}

/// What was built before stays.
proof fn lemma_kept(
    set: EfeLinearSet,
    p: int,
    coded_444: bool,
    s0: int,
    s1: int,
    num: int,
    acc: Seq<RegionView>,
)
    requires
        0 <= num,
    ensures
        efe_linear::spec_build(set, p, coded_444, s0, s1, num, acc) matches Ok(v) ==> v.len()
            >= acc.len() && forall|i: int| 0 <= i < acc.len() ==> #[trigger] v[i] == acc[i],
    decreases 8 - num,
{
    let r = efe_linear::spec_region(set, p, coded_444, s0, s1, num);
    if num < EFE_LINEAR_SPLITS@[efe_linear::plane_filter(set, p).0] && num < 6 {
        if efe_linear::is_empty(r) {
            lemma_kept(set, p, coded_444, s0, s1, num + 1, acc);
        } else if !efe_linear::wrong_size(set, p, coded_444, num) {
            let next = acc.push(r);
            lemma_kept(set, p, coded_444, s0, s1, num + 1, next);
            if let Ok(v) = efe_linear::spec_build(set, p, coded_444, s0, s1, num, acc) {
                assert forall|i: int| 0 <= i < acc.len() implies #[trigger] v[i] == acc[i] by {
                    assert(next[i] == acc[i]);
                }
            }
        }
    }
}

/// A plane has tiles if and only if they have a size and there are parameters for each.
pub proof fn law_tiled_planes(t: EfeNonlinearTiles, codes: int, hh: int, ww: int, r: int, c: int)
    requires
        0 <= hh,
        0 <= ww,
        t.tile_height > 0 ==> covers(r, t.tile_height as int, hh),
        t.tile_width > 0 ==> covers(c, t.tile_width as int, ww),
    ensures
        efe_nonlinear::tiles_error(t, codes, hh, ww) is None <==> {
            &&& t.tile_height > 0 && t.tile_width > 0
            &&& t.luma_min@.len() >= r * c && t.luma_max@.len() >= r * c && codes >= 8 * (r * c)
        },
        efe_nonlinear::tiles_error(t, codes, hh, ww) matches Some(e) ==> e is InvalidData,
{
    if t.tile_height > 0 && t.tile_width > 0 {
        let (th, tw) = (t.tile_height as int, t.tile_width as int);
        geometry::law_quotients_are_rounded_up(hh, th);
        geometry::law_quotients_are_rounded_up(ww, tw);
        geometry::lemma_covers_once(r, crate::encoder::tiles::ceil(hh, th), th, hh);
        geometry::lemma_covers_once(c, crate::encoder::tiles::ceil(ww, tw), tw, ww);
    }
}

/// A search for networks runs on planes of one size, not larger than the source's.
pub proof fn law_searched_planes(org: PlaneSizes, rec: PlaneSizes)
    ensures
        search::full_planes(org, rec) <==> {
            &&& rec.u == rec.y && rec.v == rec.y && org.u == org.y && org.v == org.y
            &&& rec.y.c == 1 && org.y.c == 1
            &&& 0 < rec.y.h && rec.y.h <= org.y.h && 0 < rec.y.w && rec.y.w <= org.y.w
        },
{
}

/// A search for networks is refused where the planes do not match, the tiles cannot be laid out, a
/// tiled picture has a border that is not displayed, or the model has no lists.
pub proof fn law_refused_searches(
    hdr: PictureHeader,
    org: PlaneSizes,
    rec: PlaneSizes,
    tile_samples: u32,
    tile_overlap: u32,
    root: int,
)
    ensures
        ({
            let layout = search::spec_enc_layout(
                rec.y.h as int,
                rec.y.w as int,
                tile_samples,
                tile_overlap,
                root,
            );
            search::select_error(hdr, org, rec, tile_samples, tile_overlap, root) is None <==> {
                &&& search::full_planes(org, rec)
                &&& layout is Ok
                &&& layout->Ok_0.0 is Some ==> hdr.height == rec.y.h && hdr.width == rec.y.w
                &&& hdr.model_id < 5
            }
        }),
{
}

/// What is committed is coded where the threshold or a cube that must not be skipped lets it through,
/// with its value, and zero elsewhere; cube flags are carried where one of them is off.
pub proof fn law_commits_keep_what_is_coded(
    c: Committed,
    threshold: Tensor<bool>,
    residual: Seq<i16>,
    flags: Seq<bool>,
    i: int,
)
    requires
        commit::commits(c, threshold, residual, flags),
        0 <= i < residual.len(),
        residual.len() == c.mask.data@.len(),
    ensures
        c.mask.data@[i] ==> c.residual_q.data@[i] == residual[i],
        !c.mask.data@[i] ==> c.residual_q.data@[i] == 0,
        c.residual_q.c == threshold.c && c.residual_q.h == threshold.h && c.residual_q.w
            == threshold.w,
        c.cube_flags is Some <==> exists|k: int| 0 <= k < flags.len() && !#[trigger] flags[k],
        c.cube_flags matches Some(f) ==> f@ == flags,
        c.mask.data@ == regions::spec_coded_mask(
            threshold,
            match c.cube_flags {
                Some(f) => Some(f@),
                None => None,
            },
        ),
{
    geometry::law_residual_is_cut_to_the_mask(residual, c.mask.data@, i);
    geometry::law_flags_are_carried_where_one_is_off(flags);
}

/// A plane that is not filtered makes regions whatever the set holds. A filtered plane does if its
/// split is one of the eight, its filters are one to four taps long, and there is a filter of the
/// right size for each region; it does not if one of the first two fails, or the number of filters.
pub proof fn law_filters_that_fit_make_regions(
    set: EfeLinearSet,
    p: int,
    coded_444: bool,
    s0: int,
    s1: int,
)
    ensures
        ({
            let r = efe_linear::spec_regions(set, p, coded_444, s0, s1);
            &&& set.cand@[p] is None ==> r is Ok
            &&& set.cand@[p] matches Some(c) ==> {
                let fl = set.filter_len@[p] as int;
                let (cw, lw) = (set.chroma_weights@[p]@, set.luma_weights@[p]@);
                let taps = if coded_444 {
                    fl * fl
                } else {
                    4 * (fl * fl)
                };
                &&& c >= 8 || fl < 1 || fl > 4 ==> r == Err::<Seq<RegionView>, Error>(
                    Error::InvalidData("EFE linear: filter set out of range"),
                )
                &&& c < 8 && 1 <= fl <= 4 && (cw.len() != EFE_LINEAR_SPLITS@[c as int] || lw.len()
                    != EFE_LINEAR_SPLITS@[c as int]) ==> r == Err::<Seq<RegionView>, Error>(
                    Error::InvalidData("EFE linear: filter count"),
                )
                &&& c < 8 && 1 <= fl <= 4 && cw.len() == EFE_LINEAR_SPLITS@[c as int] && lw.len()
                    == EFE_LINEAR_SPLITS@[c as int] && (forall|k: int|
                    0 <= k < cw.len() ==> (#[trigger] cw[k])@.len() == taps) && (forall|k: int|
                    0 <= k < lw.len() ==> (#[trigger] lw[k])@.len() == fl * fl) ==> r is Ok
            }
        }),
{
    let (cand, fl) = efe_linear::plane_filter(set, p);
    if set.cand@[p] is None || (0 <= cand < 8 && forall|k: int|
        0 <= k < EFE_LINEAR_SPLITS@[cand] ==> !#[trigger] efe_linear::wrong_size(
            set,
            p,
            coded_444,
            k,
        )) {
        lemma_all_built(set, p, coded_444, s0, s1, 0, Seq::empty());
    }
    if let Some(c) = set.cand@[p] {
        let (cw, lw) = (set.chroma_weights@[p]@, set.luma_weights@[p]@);
        let taps = if coded_444 {
            fl * fl
        } else {
            4 * (fl * fl)
        };
        assert(1 * (fl * fl) == fl * fl);
        if cw.len() == EFE_LINEAR_SPLITS@[c as int] && lw.len() == EFE_LINEAR_SPLITS@[c as int] && (
        forall|k: int| 0 <= k < cw.len() ==> (#[trigger] cw[k])@.len() == taps) && (forall|k: int|
            0 <= k < lw.len() ==> (#[trigger] lw[k])@.len() == fl * fl) {
            assert forall|k: int| 0 <= k < EFE_LINEAR_SPLITS@[cand] implies !#[trigger]
                efe_linear::wrong_size(set, p, coded_444, k) by {
                assert(cw[k]@.len() == taps);
                assert(lw[k]@.len() == fl * fl);
            }
        }
    }
}

/// Regions whose filters have the right size are built.
proof fn lemma_all_built(
    set: EfeLinearSet,
    p: int,
    coded_444: bool,
    s0: int,
    s1: int,
    num: int,
    acc: Seq<RegionView>,
)
    requires
        0 <= num,
        set.cand@[p] is None || forall|k: int|
            0 <= k < EFE_LINEAR_SPLITS@[efe_linear::plane_filter(set, p).0] ==> !#[trigger]
                efe_linear::wrong_size(set, p, coded_444, k),
    ensures
        efe_linear::spec_build(set, p, coded_444, s0, s1, num, acc) is Ok,
    decreases 8 - num,
{
    let r = efe_linear::spec_region(set, p, coded_444, s0, s1, num);
    if num < EFE_LINEAR_SPLITS@[efe_linear::plane_filter(set, p).0] && num < 6 {
        assert(!efe_linear::wrong_size(set, p, coded_444, num));
        if efe_linear::is_empty(r) {
            lemma_all_built(set, p, coded_444, s0, s1, num + 1, acc);
        } else {
            lemma_all_built(set, p, coded_444, s0, s1, num + 1, acc.push(r));
        }
    }
}

/// The linear filter's parameters can be written if and only if its means fit fifteen bits and both
/// sets can; each plane that has filters has one of the eight splits, a list of the right length for
/// each region, and no symbol above the set's largest.
pub proof fn law_written_filters(v: EfeLinearView, coded_444: bool)
    ensures
        tools::linear_error(v, coded_444) is None <==> {
            &&& v.mean.0 < 0x8000 && v.mean.1 < 0x8000
            &&& written(v.upsample_set.first, coded_444, v.upsample_set.max_symbol)
            &&& written(v.upsample_set.second, coded_444, v.upsample_set.max_symbol)
            &&& written(v.set.first, coded_444, v.set.max_symbol)
            &&& written(v.set.second, coded_444, v.set.max_symbol)
        },
        tools::linear_error(v, coded_444) matches Some(e) ==> e is InvalidArgument,
{
    lemma_written(v.upsample_set.first, coded_444, v.upsample_set.max_symbol);
    lemma_written(v.upsample_set.second, coded_444, v.upsample_set.max_symbol);
    lemma_written(v.set.first, coded_444, v.set.max_symbol);
    lemma_written(v.set.second, coded_444, v.set.max_symbol);
}

/// Lists of weights, one a region, each of so many symbols up to the largest.
pub open spec fn listed(v: Seq<Seq<u32>>, count: int, taps: int, max: u16) -> bool {
    &&& v.len() == count
    &&& forall|k: int| 0 <= k < v.len() ==> (#[trigger] v[k]).len() == taps
    &&& forall|k: int, i: int|
        0 <= k < v.len() && 0 <= i < v[k].len() ==> #[trigger] v[k][i] <= max
}

/// A plane's filters can be written.
pub open spec fn written(v: EfePlaneView, coded_444: bool, max: u16) -> bool {
    v.cand matches Some(c) ==> {
        let taps = v.filter_len * v.filter_len;
        &&& c < 8
        &&& listed(
            v.chroma_weights,
            EFE_LINEAR_SPLITS@[c as int] as int,
            if coded_444 {
                taps
            } else {
                4 * taps
            },
            max,
        )
        &&& listed(v.luma_weights, EFE_LINEAR_SPLITS@[c as int] as int, taps, max)
    }
}

proof fn lemma_written(v: EfePlaneView, coded_444: bool, max: u16)
    ensures
        tools::plane_error(v, coded_444, max as nat) is None <==> written(v, coded_444, max),
        tools::plane_error(v, coded_444, max as nat) matches Some(e) ==> e is InvalidArgument,
{
    if let Some(c) = v.cand {
        if c < 8 {
            crate::laws::headers::law_candidates_have_a_filter_a_region(c);
            let taps = v.filter_len * v.filter_len;
            assert(0 <= taps) by (nonlinear_arith)
                requires
                    taps == v.filter_len * v.filter_len,
                    0 <= v.filter_len,
            ;
            let n = tools::splits_of(c);
            lemma_listed(v.chroma_weights, n, tools::chroma_taps(v.filter_len, coded_444), max);
            lemma_listed(v.luma_weights, n, tools::chroma_taps(v.filter_len, true), max);
        }
    }
}

proof fn lemma_listed(v: Seq<Seq<u32>>, count: nat, n: nat, max: u16)
    ensures
        tools::lists_error(v, count, n, max as nat) is None <==> listed(
            v,
            count as int,
            n as int,
            max,
        ),
{
    if listed(v, count as int, n as int, max) {
        assert forall|k: int| 0 <= k < v.len() implies tools::list_within(
            #[trigger] v[k],
            max as nat,
        ) by {
            assert forall|i: int| 0 <= i < v[k].len() implies #[trigger] v[k][i] <= max by {}
        }
    }
    if tools::lists_error(v, count, n, max as nat) is None {
        assert forall|k: int, i: int| 0 <= k < v.len() && 0 <= i < v[k].len() implies #[trigger]
            v[k][i] <= max by {
            assert(tools::list_within(v[k], max as nat));
        }
    }
}

/// The eICCI filter's parameters can be written if and only if its tiling is in units of 16 that fit
/// their fields, there is a choice for each tile, and each index that is used is one of the short
/// list's two or of the bank's ten.
pub proof fn law_written_choices(v: IcciView, height: int, width: int)
    ensures
        tools::icci_error(v, height, width) is None <==> {
            &&& v.tiling matches Some(t) ==> {
                &&& t.tile_size as int % 16 == 0 && t.overlap as int % 16 == 0
                &&& 16 <= t.tile_size < 4096 && t.overlap < 512
            }
            &&& tools::spec_tile_count(height, width, v.tiling) matches Ok(n) && v.tiles.len() == n
            &&& forall|i: int|
                0 <= i < v.tiles.len() ==> {
                    let t = #[trigger] v.tiles[i];
                    let n = if t.short_list {
                        2int
                    } else {
                        10
                    };
                    &&& t.y ==> t.index_y < n
                    &&& t.u || t.v ==> t.index_uv < n
                }
        },
{
}

/// A tool header can be written if and only if each filter that is on can be; the eICCI filter only
/// where its bit is coded.
pub proof fn law_written_tools(v: tools::ToolView, c: ToolContext)
    ensures
        tools::tools_error(v, c) is None <==> {
            &&& v.efe_linear matches Some(x) ==> tools::linear_error(x, c.coded_444) is None
            &&& v.icci matches Some(x) ==> c.icci_coded && tools::icci_error(x, c.height, c.width)
                is None
            &&& v.efe_nonlinear matches Some(x) ==> tools::nonlinear_error(x) is None
        },
{
}

/// A non-linear filter without masks can be written if and only if its luma ranges go in pairs that
/// can be counted in sixteen bits, and so can the weights of each plane, none above the largest.
pub proof fn law_written_tiles(v: NonlinearView)
    requires
        v.masks.0 is None && v.masks.1 is None,
        v.nonlinear matches Some(t) ==> t.weights.0 is Some || t.weights.1 is Some,
    ensures
        tools::nonlinear_error(v) is None <==> (v.nonlinear matches Some(t) ==> {
            &&& t.luma_min.len() == t.luma_max.len() && t.luma_min.len() < 0x1_0000
            &&& t.weights.0 matches Some(w) ==> w.len() < 0x1_0000 && forall|i: int|
                0 <= i < w.len() ==> #[trigger] w[i] <= v.max_symbol
            &&& t.weights.1 matches Some(w) ==> w.len() < 0x1_0000 && forall|i: int|
                0 <= i < w.len() ==> #[trigger] w[i] <= v.max_symbol
        }),
{
}

/// A region has the kernels of its own filters, a chroma kernel for each phase in their order, on the
/// rows and columns of its own part of the split; the output sample is the middle tap, or the second
/// of four.
pub proof fn law_regions_have_their_own_kernels(
    set: EfeLinearSet,
    p: int,
    coded_444: bool,
    s0: int,
    s1: int,
    num: int,
    c: u8,
)
    requires
        set.cand@[p] == Some(c),
    ensures
        ({
            let r = efe_linear::spec_region(set, p, coded_444, s0, s1, num);
            let (fl, min) = (set.filter_len@[p] as int, set.min_symbol as int);
            let cw = set.chroma_weights@[p]@[num]@;
            let split = efe_linear::SPLITS@[c as int]@[num]@;
            &&& r.chroma.0 == efe_linear::chroma_kernel(cw, min, fl, coded_444, 0)
            &&& r.chroma.1 == efe_linear::chroma_kernel(cw, min, fl, coded_444, 1)
            &&& r.chroma.2 == efe_linear::chroma_kernel(cw, min, fl, coded_444, 2)
            &&& r.chroma.3 == efe_linear::chroma_kernel(cw, min, fl, coded_444, 3)
            &&& r.luma == efe_linear::luma_kernel(
                set.luma_weights@[p]@[num]@,
                min,
                fl,
                coded_444,
            )
            &&& r.rows == efe_linear::spec_extent(split, 0, s0)
            &&& r.cols == efe_linear::spec_extent(split, 2, s1)
            &&& coded_444 ==> r.k == fl && r.before == (fl - 1) / 2
            &&& !coded_444 ==> r.k == 4 && r.before == 1
        }),
{
}

} // verus!

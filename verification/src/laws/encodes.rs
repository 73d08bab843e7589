//! What an encode decides: regions, tiles, headers, the planes it transforms and the rate it meets.

use vstd::prelude::*;
use vstd::arithmetic::div_mod;

use crate::area::Area;
use crate::encoder::colour::SourceImage;
use crate::encoder::commit;
use crate::encoder::pack;
use crate::encoder::params;
use crate::encoder::params::{EncodeParams, RegionMode, SideView};
use crate::encoder::rate;
use crate::encoder::rate::{SearchStage, SearchStep, SearchView};
use crate::encoder::stream;
use crate::encoder::stream::Coded;
use crate::encoder::tiles;
use crate::error::Error;
use crate::header::{OperatingPoint, PictureHeader, RenderingInfo, ToolHeader};
use crate::header::{picture, rendering, tools};
use crate::laws::entropy::at;
use crate::laws::geometry;
use crate::laws::geometry::covers;
use crate::laws::post::known_format;
use crate::mans::tables::ResidualTables;
use crate::regions;
use crate::tensor::Tensor;

verus! {

/// A number within its bounds is kept; one outside becomes the bound that it passed.
pub proof fn law_numbers_are_kept_in_bounds(v: int, min: int, max: int)
    requires
        min <= max,
    ensures
        min <= v <= max ==> params::clamped(v, min, max) == v && rate::clamped(v, min, max) == v,
        v < min ==> params::clamped(v, min, max) == min && rate::clamped(v, min, max) == min,
        v > max ==> params::clamped(v, min, max) == max && rate::clamped(v, min, max) == max,
{
}

/// A picture above a mebisample has a region for each 1024 whole samples along a side, and at least
/// one; any other has none.
pub proof fn law_regions_of_1024_samples(height: int, width: int)
    requires
        1 <= height,
        1 <= width,
    ensures
        params::spec_region_counts(height, width) is Some <==> height * width > 0x10_0000,
        params::spec_region_counts(height, width) matches Some((ver, hor)) ==> {
            &&& height < 1024 ==> ver == 1
            &&& height >= 1024 ==> ver * 1024 <= height < ver * 1024 + 1024
            &&& width < 1024 ==> hor == 1
            &&& width >= 1024 ==> hor * 1024 <= width < hor * 1024 + 1024
        },
{
    geometry::law_quotients_are_rounded_up(height, 256);
    geometry::law_quotients_are_rounded_up(width, 512);
}

/// A picture has regions if and only if it asks for them and is large enough. Independent regions
/// share nothing; the others overlap by two hyper samples and eight latent samples.
pub proof fn law_region_modes(height: int, width: int, mode: Option<RegionMode>)
    requires
        1 <= height <= 65599,
        1 <= width <= 65599,
    ensures
        ({
            let r = params::spec_regions(height, width, mode);
            &&& r is Some <==> mode is Some && height * width > 0x10_0000
            &&& r matches Some(g) ==> {
                &&& g.independent <==> mode == Some(RegionMode::Independent)
                &&& g.independent ==> g.hyper_decoder_overlap == 0 && g.mcm_overlap == 0
                &&& !g.independent ==> g.hyper_decoder_overlap == 2 && g.mcm_overlap == 8
                &&& params::spec_region_counts(height, width) == Some(
                    (g.num_ver as int, g.num_hor as int),
                )
            }
        }),
{
    law_regions_of_1024_samples(height, width);
}

/// A picture is synthesised in tiles of 1024 samples with an overlap of 64 if and only if it has
/// more samples than one such tile.
pub proof fn law_large_pictures_are_tiled(height: int, width: int)
    ensures
        params::spec_tiling(height, width) is Some <==> height * width > 1024 * 1024,
        params::spec_tiling(height, width) matches Some(t) ==> t.tile_size == 1024 && t.overlap
            == 64,
{
    assert(1024 * 1024 == 1_048_576);
}

/// How large an operating point is.
pub open spec fn weight(op: OperatingPoint) -> int {
    match op {
        OperatingPoint::Sop => 0,
        OperatingPoint::Bop => 1,
        OperatingPoint::Hop => 2,
    }
}

/// A stream lists the transform that it was encoded for, and then every smaller one, the larger
/// first; its profile is the number of the first.
pub proof fn law_streams_list_smaller_transforms(op: OperatingPoint, other: OperatingPoint)
    ensures
        ({
            let (id, listed) = params::spec_profile(op);
            &&& id == weight(op)
            &&& listed.len() == weight(op) + 1
            &&& listed[0] == op
            &&& listed.contains(other) <==> weight(other) <= weight(op)
            &&& forall|i: int, j: int|
                0 <= i < j < listed.len() ==> weight(#[trigger] listed[i]) > weight(
                    #[trigger] listed[j],
                )
        }),
{
    let listed = params::spec_profile(op).1;
    assert(listed[0] == op);
    if weight(other) <= weight(op) {
        assert(listed[weight(op) - weight(other)] == other);
    }
}

/// A picture can be encoded if and only if its model is there, its sides are within the format's
/// bounds and it has at most 120 million samples.
pub proof fn law_encodable_pictures(width: int, height: int, model_id: u8)
    ensures
        params::params_error(width, height, model_id) is None <==> {
            &&& model_id <= 3
            &&& 64 <= width <= 65599 && 64 <= height <= 65599
            &&& width * height <= 120_000_000
        },
        params::params_error(width, height, model_id) matches Some(e) ==> (e is InvalidArgument
            <==> model_id > 3) && (e is Unsupported <==> model_id <= 3),
{
}

/// The header of an encode says what was encoded: the picture's size, all of it displayed, the model
/// and the displacements that were used, the threads that were asked for, the regions and the tiles,
/// and as many channels as the networks have.
pub proof fn law_headers_say_what_was_encoded(
    width: u32,
    height: u32,
    model_id: u8,
    beta: (i32, i32),
    p: EncodeParams,
)
    ensures
        ({
            let h = params::spec_picture_header(width, height, model_id, beta, p);
            let tiling = params::spec_tiling(height as int, width as int);
            &&& h.geometry.width == width && h.geometry.height == height
            &&& h.geometry.diff_display_width == 0 && h.geometry.diff_display_height == 0
            &&& h.geometry.bit_depth == 8
            &&& h.geometry.s_ver == 1 && h.geometry.s_hor == 1
            &&& h.geometry.c_ver == 1 && h.geometry.c_hor == 1
            &&& h.colour_transform == picture::ColourView::Bt709
            &&& h.model_id == model_id && h.beta == beta
            &&& h.num_threads_z == p.num_threads_z
            &&& h.luma.num_threads_r == p.num_threads_r && h.chroma.num_threads_r
                == p.num_threads_r
            &&& h.luma.num_chs == 160 && h.chroma.num_chs == 96
            &&& h.luma.synthesis_tiling == tiling && h.chroma.synthesis_tiling == tiling
            &&& h.regions == params::spec_regions(height as int, width as int, p.regions)
            &&& h.synthesis_transforms == params::spec_profile(p.op).1
            &&& h.decoder_profile_id == params::spec_profile(p.op).0
            &&& h.quality_map is None
            &&& h.luma.cube_flags is None && h.chroma.cube_flags is None
            &&& !h.luma.rvs_enabled && !h.chroma.rvs_enabled
            &&& h.luma.grfs_channel_flags is None && h.chroma.grfs_channel_flags is None
        }),
{
}

/// The header that is written adds to it what the quantisation of each component found, each in its
/// own component, and the displacements within the format's range.
pub proof fn law_headers_carry_side_information(
    width: u32,
    height: u32,
    p: EncodeParams,
    luma: SideView,
    chroma: SideView,
)
    ensures
        ({
            let h = params::spec_coded_header(width, height, p, luma, chroma);
            let b = p.beta_displacement_log@;
            &&& h.luma.cube_flags == luma.cube_flags && h.chroma.cube_flags == chroma.cube_flags
            &&& h.luma.grfs_channel_flags == luma.grfs_channel_flags
            &&& h.chroma.grfs_channel_flags == chroma.grfs_channel_flags
            &&& h.luma.rvs_enabled == p.rvs && h.chroma.rvs_enabled == p.rvs
            &&& h.model_id == p.model_id
            &&& -1069 <= b[0] <= 702 ==> h.beta.0 == b[0]
            &&& -1069 <= b[1] <= 702 ==> h.beta.1 == b[1]
            &&& -1069 <= h.beta.0 <= 702 && -1069 <= h.beta.1 <= 702
            &&& b[0] < -1069 ==> h.beta.0 == -1069
            &&& b[0] > 702 ==> h.beta.0 == 702
            &&& b[1] < -1069 ==> h.beta.1 == -1069
            &&& b[1] > 702 ==> h.beta.1 == 702
            &&& h.geometry.width == width && h.geometry.height == height
            &&& h.luma.num_chs == 160 && h.chroma.num_chs == 96
            &&& h.luma.num_threads_r == p.num_threads_r && h.chroma.num_threads_r
                == p.num_threads_r
            &&& h.regions == params::spec_regions(height as int, width as int, p.regions)
        }),
{
}

/// An encode switches latent scaling in both components together and leaves the filters out.
pub proof fn law_tools_of_an_encode(p: EncodeParams)
    ensures
        ({
            let t = params::spec_tool_header(p);
            &&& t.lsbs_enabled.0 == p.lsbs && t.lsbs_enabled.1 == p.lsbs
            &&& t.efe_linear is None && t.icci is None && t.efe_nonlinear is None
                && t.lef_channel is None
        }),
{
}

/// The planes of a source match if and only if each holds one sample for each of its places: three
/// a pixel of an RGB source, one a place of each plane of a YUV source.
pub proof fn law_planes_hold_their_samples(src: SourceImage)
    ensures
        src matches SourceImage::Rgb(i) ==> (pack::planes_match(src) <==> i.data@.len() == 3 * (
        i.width * i.height)),
        src matches SourceImage::Yuv(i) ==> (pack::planes_match(src) <==> i.y@.len() == i.height
            * i.width && i.u@.len() == i.v@.len() && i.v@.len() == i.chroma_height
            * i.chroma_width),
{
    match src {
        SourceImage::Rgb(i) => {
            assert(i.width * i.height * 3 == 3 * (i.width * i.height)) by (nonlinear_arith);
        },
        SourceImage::Yuv(i) => {
            assert(i.height * i.width == i.width * i.height) by (nonlinear_arith);
            assert(i.chroma_height * i.chroma_width == i.chroma_width * i.chroma_height)
                by (nonlinear_arith);
        },
    }
}

/// Chroma keeps its size in its own format; from full resolution it is subsampled to the coded
/// format, each factor of which the coded plane covers the source plane by. Nothing else is
/// converted.
pub proof fn law_coded_chroma_sizes(h: int, w: int, s: (u8, u8), c: (u8, u8))
    requires
        0 <= h,
        0 <= w,
        known_format(s),
    ensures
        ({
            let r = pack::spec_coded_size(h, w, s, c);
            &&& s == c ==> r == Ok::<(int, int), Error>((h, w))
            &&& s.0 == 1 && s.1 == 1 && known_format(c) ==> (r matches Ok(v) && covers(
                v.0,
                c.0 as int,
                h,
            ) && covers(v.1, c.1 as int, w))
            &&& s != c && (s.0 != 1 || s.1 != 1 || !known_format(c)) ==> r is Err
                && r->Err_0 is Unsupported
        }),
{
    geometry::law_quotients_are_rounded_up(h, 2);
    geometry::law_quotients_are_rounded_up(w, 2);
    assert(h * 1 == h && w * 1 == w);
}

/// A plane's sample at a place, or at the nearest place that the plane has.
pub open spec fn nearest(y: int, h: int) -> int {
    if y >= h {
        h - 1
    } else {
        y
    }
}

/// The planes of the chroma transform: channel `2 i + j` holds every second luma sample from row `i`
/// and column `j` on.
pub proof fn law_luma_phases_are_packed<T>(
    luma: Seq<T>,
    w: int,
    h: int,
    u: Seq<T>,
    v: Seq<T>,
    cw: int,
    ch: int,
    c: (u8, u8),
    oh: int,
    ow: int,
    i: int,
    j: int,
    y: int,
    x: int,
)
    requires
        covers(oh, 2, h),
        covers(ow, 2, w),
        1 <= h,
        1 <= w,
        0 <= i < 2,
        0 <= j < 2,
        0 <= y < oh,
        0 <= x < ow,
    ensures
        pack::packed(luma, w, h, u, v, cw, ch, c)[at(oh, ow, 2 * i + j, y, x)] == luma[nearest(
            2 * y + i,
            h,
        ) * w + nearest(2 * x + j, w)],
{
    lemma_packed_at(h, w, oh, ow, 2 * i + j, y, x);
}

/// Where a channel's sample lies among the packed planes.
proof fn lemma_packed_at(h: int, w: int, oh: int, ow: int, n: int, y: int, x: int)
    requires
        covers(oh, 2, h),
        covers(ow, 2, w),
        1 <= h,
        1 <= w,
        0 <= n < 12,
        0 <= y < oh,
        0 <= x < ow,
    ensures
        ({
            let p = at(oh, ow, n, y, x);
            &&& tiles::ceil(h, 2) == oh && tiles::ceil(w, 2) == ow
            &&& p / ow / oh == n && p / ow % oh == y && p % ow == x
            &&& 0 <= p < 12 * oh * ow
        }),
{
    geometry::law_quotients_are_rounded_up(h, 2);
    geometry::law_quotients_are_rounded_up(w, 2);
    let p = at(oh, ow, n, y, x);
    div_mod::lemma_fundamental_div_mod_converse(p, ow, n * oh + y, x);
    div_mod::lemma_fundamental_div_mod_converse(n * oh + y, oh, n, y);
    assert(0 <= p < 12 * oh * ow) by (nonlinear_arith)
        requires
            0 <= n < 12,
            0 <= y < oh,
            0 <= x < ow,
            p == (n * oh + y) * ow + x,
    ;
}

/// Behind the luma phases lie four channels of U and then four of V: the phases of the plane at
/// 4:4:4, the plane itself at 4:2:0, its even rows twice and its odd rows twice at 4:2:2.
pub proof fn law_chroma_channels_are_packed<T>(
    luma: Seq<T>,
    w: int,
    h: int,
    u: Seq<T>,
    v: Seq<T>,
    cw: int,
    ch: int,
    c: (u8, u8),
    oh: int,
    ow: int,
    second: bool,
    i: int,
    j: int,
    y: int,
    x: int,
)
    requires
        pack::pack_error(w, h, cw, ch, c) is None,
        covers(oh, 2, h),
        covers(ow, 2, w),
        1 <= h,
        1 <= w,
        0 <= i < 2,
        0 <= j < 2,
        0 <= y < oh,
        0 <= x < ow,
    ensures
        ({
            let n = 2 * i + j + if second {
                8int
            } else {
                4
            };
            let plane = if second {
                v
            } else {
                u
            };
            let got = pack::packed(luma, w, h, u, v, cw, ch, c)[at(oh, ow, n, y, x)];
            &&& c.0 == 1 && c.1 == 1 ==> got == plane[nearest(2 * y + i, h) * w + nearest(
                2 * x + j,
                w,
            )]
            &&& c.0 == 2 ==> got == plane[y * ow + x]
            &&& c.0 == 1 && c.1 == 2 ==> got == plane[nearest(2 * y + i, h) * ow + x]
        }),
{
    let n = 2 * i + j + if second {
        8int
    } else {
        4
    };
    lemma_packed_at(h, w, oh, ow, n, y, x);
    assert((2 * i + j) / 2 == i && (2 * i + j) % 2 == j);
}

/// Chroma planes go with a picture if and only if they have its subsampled size in the coded format.
pub proof fn law_packed_chroma_has_the_coded_size(w: int, h: int, cw: int, ch: int, c: (u8, u8))
    requires
        0 <= w,
        0 <= h,
    ensures
        pack::pack_error(w, h, cw, ch, c) is None <==> known_format(c) && covers(ch, c.0 as int, h)
            && covers(cw, c.1 as int, w),
        pack::pack_error(w, h, cw, ch, c) matches Some(e) ==> (e is Unsupported <==> !known_format(
            c,
        )) && (e is InvalidData <==> known_format(c)),
{
    geometry::law_quotients_are_rounded_up(h, 2);
    geometry::law_quotients_are_rounded_up(w, 2);
    assert(ch * 1 == ch && cw * 1 == cw);
}

/// Cube flags are taken over region by region: without a region every cube may be skipped; each
/// region gives the flags of its own cubes and leaves all others as the regions before left them.
pub proof fn law_cube_flags_are_taken_over(
    h: int,
    w: int,
    flags: Seq<Tensor<bool>>,
    latents: Seq<Area>,
    n: int,
    c: int,
    y: int,
    x: int,
)
    requires
        0 <= h,
        0 <= w,
        0 <= n,
        0 <= c < 4,
        0 <= y < regions::cubes_along(h),
        0 <= x < regions::cubes_along(w),
    ensures
        ({
            let (ch, cw) = (regions::cubes_along(h), regions::cubes_along(w));
            let k = at(ch, cw, c, y, x);
            let a = regions::spec_cube_area(latents[n]);
            let part = flags[n];
            let (dy, dx) = (y - a.y, x - a.x);
            &&& commit::merged_flags(h, w, flags, latents, 0)[k]
            &&& commit::merged_flags(h, w, flags, latents, n + 1)[k] == if c < part.c && 0 <= dy
                < a.height && 0 <= dx < a.width && dy < part.h && dx < part.w {
                part.data@[at(part.h as int, part.w as int, c, dy, dx)]
            } else {
                commit::merged_flags(h, w, flags, latents, n)[k]
            }
        }),
{
    let (ch, cw) = (regions::cubes_along(h), regions::cubes_along(w));
    lemma_merged_len(h, w, flags, latents, n);
    lemma_merged_len(h, w, flags, latents, 0);
    let k = at(ch, cw, c, y, x);
    assert(0 <= k < 4 * ch * cw) by (nonlinear_arith)
        requires
            0 <= c < 4,
            0 <= y < ch,
            0 <= x < cw,
            k == (c * ch + y) * cw + x,
    ;
    geometry::law_cores_are_copied(
        commit::merged_flags(h, w, flags, latents, n),
        4,
        ch,
        cw,
        regions::spec_cube_area(latents[n]),
        flags[n],
        (0, 0),
        c,
        y,
        x,
    );
}

/// There is a flag for each cube.
proof fn lemma_merged_len(h: int, w: int, flags: Seq<Tensor<bool>>, latents: Seq<Area>, n: int)
    requires
        0 <= h,
        0 <= w,
        0 <= n,
    ensures
        commit::merged_flags(h, w, flags, latents, n).len() == 4 * regions::cubes_along(h)
            * regions::cubes_along(w),
    decreases n,
{
    let (ch, cw) = (regions::cubes_along(h), regions::cubes_along(w));
    assert(0 <= 4 * ch * cw) by (nonlinear_arith)
        requires
            0 <= ch,
            0 <= cw,
    ;
    if n > 0 {
        lemma_merged_len(h, w, flags, latents, n - 1);
    }
}

/// The displacement that a step speaks of.
pub open spec fn asked(step: SearchStep) -> Option<int> {
    match step {
        SearchStep::Measure(b) => Some(b as int),
        SearchStep::Recall(b) => Some(b as int),
        SearchStep::Interpolate => None,
        SearchStep::Done(_) => None,
    }
}

/// A search asks for displacement 0, for the ends of the range in turn, and then for the middle of
/// the window; it recalls what it asked for before and measures everything else.
pub proof fn law_search_asks_in_order(s: SearchView)
    requires
        s.wf(),
    ensures
        ({
            let step = s.step();
            &&& s.stage == SearchStage::Base ==> step == SearchStep::Measure(0)
            &&& s.stage == SearchStage::Low ==> asked(step) == Some(s.low) && (step is Recall
                <==> s.low == 0)
            &&& s.stage == SearchStage::High ==> asked(step) == Some(s.high) && (step is Recall
                <==> s.high == 0 || s.high == s.low)
            &&& s.stage == SearchStage::Window ==> step is Interpolate
            &&& s.stage == SearchStage::Bisect && s.from <= s.to ==> {
                &&& asked(step) is Some
                &&& s.from <= asked(step)->Some_0 <= s.to
                &&& 0 <= (asked(step)->Some_0 - s.from) - (s.to - asked(step)->Some_0) <= 1
                &&& step is Recall <==> asked(step)->Some_0 == 0 || asked(step)->Some_0 == s.low
                    || asked(step)->Some_0 == s.high
            }
        }),
{
}

/// A search ends where displacement 0 met the target, with 0, or where the window is empty: with the
/// best displacement that met the target, or with the last that was looked at where none did.
pub proof fn law_search_ends_with_the_best(s: SearchView)
    requires
        s.wf(),
    ensures
        s.step() is Done <==> s.stage == SearchStage::Met || (s.stage == SearchStage::Bisect
            && s.from > s.to),
        s.stage == SearchStage::Met ==> s.step() == SearchStep::Done(0),
        s.stage == SearchStage::Bisect && s.from > s.to ==> (s.best matches Some(b) ==> s.step()
            == SearchStep::Done(b)) && (s.best is None ==> s.step() == SearchStep::Done(s.last)),
{
}

/// What a search has measured grows by what it asks to measure, and by nothing else.
pub proof fn law_search_counts_what_it_measures(s: SearchView, b: int)
    ensures
        s.measured_next().contains(b) <==> s.measured.contains(b) || (s.step()
            matches SearchStep::Measure(m) && m == b),
{
}

/// A window holds each displacement from one end to the other, and none where the ends crossed.
pub proof fn law_window_holds_its_ends(s: SearchView)
    ensures
        s.from <= s.to ==> s.size() == s.to - s.from + 1,
        s.from > s.to ==> s.size() == 0,
{
}

/// The ranges that are searched lie within the range that is coded, and hold displacement 0 inside;
/// a higher model is never searched lower than a lower one, nor less high.
pub proof fn law_searched_ranges(id: int, other: int)
    requires
        0 <= id <= other < 4,
    ensures
        ({
            let (r, q) = (rate::BDL_SEARCH_RANGE@[id], rate::BDL_SEARCH_RANGE@[other]);
            &&& -1069 <= r.0 < 0 < r.1 <= 702
            &&& r.0 <= q.0 && r.1 <= q.1
            &&& id >= 1 ==> r.0 == -443
            &&& id == 0 ==> r.0 == -1024
            &&& id <= 1 ==> r.1 == 259
            &&& id >= 2 ==> r.1 == 702
        }),
{
    assert(id == 0 || id == 1 || id == 2 || id == 3);
    assert(other == 0 || other == 1 || other == 2 || other == 3);
}

/// The model that is chosen is the last that was closer than every one before it, and the first where
/// none was.
pub proof fn law_last_closer_model_wins(answers: Seq<bool>)
    ensures
        ({
            let id = rate::spec_closest(answers);
            &&& forall|i: int| id < i < answers.len() ==> !#[trigger] answers[i]
            &&& id == 0 || (0 < id < answers.len() && answers[id])
        }),
    decreases answers.len(),
{
    if answers.len() > 0 && !answers.last() {
        let before = answers.drop_last();
        law_last_closer_model_wins(before);
        let id = rate::spec_closest(answers);
        assert forall|i: int| id < i < answers.len() implies !#[trigger] answers[i] by {
            if i < before.len() {
                assert(!before[i]);
            }
        }
    }
}

/// A component's residual is coded on one to sixteen threads, region by region.
pub proof fn law_residuals_need_threads(
    c: Coded,
    tables: ResidualTables,
    hdr: PictureHeader,
    ccs: int,
)
    ensures
        ({
            let n = hdr.components@[ccs].num_threads_r;
            let r = c.payloads(tables, hdr, ccs);
            &&& r is Ok <==> c.areas@.len() == 0 || 1 <= n <= 16
            &&& r is Ok ==> r->Ok_0.len() == c.areas@.len()
            &&& r is Err ==> r->Err_0 is InvalidArgument
        }),
{
}

/// The hyper-latents are coded on one to sixteen threads.
pub proof fn law_hyper_latents_need_threads(luma: Coded, chroma: Coded, n: nat, z_offset: i32)
    ensures
        n == 0 || n > 16 ==> stream::spec_hyper(luma, chroma, n, z_offset) == Err::<Seq<u8>, Error>(
            Error::InvalidArgument("thread count out of range"),
        ),
        stream::spec_hyper(luma, chroma, n, z_offset) is Ok ==> 1 <= n <= 16,
        1 <= n <= 16 && luma.z_hat.data@.len() == 0 && chroma.z_hat.data@.len() == 0 && luma.z_hat.h
            * luma.z_hat.w == 0 && chroma.z_hat.h * chroma.z_hat.w == 0 ==> stream::spec_hyper(
            luma,
            chroma,
            n,
            z_offset,
        ) is Ok,
{
}

/// A codestream holds the residual of each component under its own name, the hyper-latents and the
/// headers; it is written if and only if each of these can be.
pub proof fn law_streams_hold_their_parts(
    tables: ResidualTables,
    hdr: PictureHeader,
    ton: ToolHeader,
    rdi: RenderingInfo,
    luma: Coded,
    chroma: Coded,
    z_offset: i32,
)
    ensures
        ({
            let hyper = stream::spec_hyper(luma, chroma, hdr.num_threads_z as nat, z_offset);
            let (y, uv) = (luma.payloads(tables, hdr, 0), chroma.payloads(tables, hdr, 1));
            let r = stream::spec_stream(tables, hdr, ton, rdi, luma, chroma, z_offset);
            &&& r is Ok <==> {
                &&& hyper is Ok && y is Ok && uv is Ok
                &&& picture::picture_error(hdr@) is None
                &&& tools::tools_error(ton@, tools::context_of_view(hdr@)) is None
                &&& rendering::rendering_error(rdi@) is None
            }
            &&& r matches Ok(p) ==> {
                &&& p.luma == y->Ok_0 && p.chroma == uv->Ok_0 && p.soz == hyper->Ok_0
                &&& p.independent <==> (hdr.regions matches Some(g) && g.independent)
            }
        }),
{
}

} // verus!

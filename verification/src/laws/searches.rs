//! What the encoder's filter searches try, keep and signal.

use vstd::prelude::*;
use vstd::arithmetic::div_mod;

use crate::encoder::colour::SourceMeta;
use crate::encoder::filters::{efe_linear, efe_nonlinear, icci, weights};
use crate::encoder::filters::efe_linear::{BestFilter, PlaneSizes};
use crate::encoder::filters::efe_nonlinear::{TileSolve, TriedMasks};
use crate::encoder::filters::icci::{ChromaGain, TileChoice};
use crate::encoder::filters::weights::PlaneDecision;
use crate::encoder::tiles;
use crate::filters::efe_linear as linear;
use crate::header::{
    EfeLinearHeader, EfeNonlinearHeader, IcciTile, OperatingPoint, PictureHeader, EFE_LINEAR_SPLITS,
};
use crate::laws::geometry;
use crate::laws::geometry::covers;
use crate::planes::PlaneSize;
use crate::tensor::Tensor;

verus! {

/// A list holds the whole numbers from one to another.
pub open spec fn is_run(s: Seq<usize>, from: int, to: int) -> bool {
    &&& s.len() == to - from + 1
    &&& forall|i: int| 0 <= i < s.len() ==> #[trigger] s[i] == from + i
}

/// A search tries runs of filter lengths and of splits. A search for the interpolation alone tries
/// the one length and the one split that need no weights; otherwise the longest filter depends on
/// the model and the size, and the lists end with the last split except on small pictures, which
/// start with the first.
pub proof fn law_searched_filters_are_runs(pixels: int, model_id: int)
    requires
        0 <= pixels,
        0 <= model_id,
    ensures
        ({
            let (lengths, splits) = efe_linear::spec_space(pixels, model_id, false);
            let small = pixels <= 1_000_000;
            let medium = pixels <= 4_000_000;
            let large = pixels <= 9_000_000;
            let huge = pixels >= 16_000_000;
            let longest = if model_id == 0 && small {
                2int
            } else if model_id == 0 && !huge {
                3
            } else {
                4
            };
            let shortest = if model_id == 0 {
                if huge {
                    3int
                } else {
                    1
                }
            } else if model_id == 1 {
                if small {
                    3
                } else if medium {
                    2
                } else if large {
                    3
                } else {
                    4
                }
            } else if medium {
                3
            } else {
                4
            };
            let first = if model_id <= 1 {
                if medium {
                    0int
                } else if large {
                    3
                } else if !huge {
                    5
                } else {
                    6
                }
            } else if medium {
                4
            } else {
                6
            };
            let last = if small && model_id <= 1 {
                2int
            } else {
                7
            };
            &&& is_run(lengths, shortest, longest)
            &&& is_run(splits, first, last)
        }),
        is_run(efe_linear::spec_space(pixels, model_id, true).0, 1, 1),
        is_run(efe_linear::spec_space(pixels, model_id, true).1, 0, 0),
{
}

/// The pair that a search tries next is the first from where it stands, length by length and split
/// by split, that is not the baseline; where there is none, all that is left is the baseline.
pub proof fn law_searches_skip_the_baseline(
    lengths: Seq<usize>,
    candidates: Seq<usize>,
    from: int,
    next: int,
    i: int,
    j: int,
)
    requires
        0 <= from,
        0 <= next,
        0 <= i < lengths.len(),
        0 <= j < candidates.len(),
        from < i || (from == i && next <= j),
    ensures
        ({
            let base = lengths[i] == 1 && EFE_LINEAR_SPLITS@[candidates[j] as int] == 1;
            match efe_linear::spec_next(lengths, candidates, from, next) {
                Some((a, b)) => {
                    &&& from < a || (from == a && next <= b)
                    &&& 0 <= a < lengths.len() && 0 <= b < candidates.len()
                    &&& !(lengths[a] == 1 && EFE_LINEAR_SPLITS@[candidates[b] as int] == 1)
                    &&& i < a || (i == a && j < b) ==> base
                },
                None => base,
            }
        }),
    decreases lengths.len() - from, candidates.len() - next,
{
    if next >= candidates.len() {
        law_searches_skip_the_baseline(lengths, candidates, from + 1, 0, i, j);
    } else if efe_linear::is_baseline(lengths[from], candidates[next]) {
        if from == i && next == j {
            lemma_next_is_later(lengths, candidates, from, next + 1);
        } else {
            law_searches_skip_the_baseline(lengths, candidates, from, next + 1, i, j);
        }
    }
}

/// What a search tries next is one of its pairs, from where it stands.
proof fn lemma_next_is_later(lengths: Seq<usize>, candidates: Seq<usize>, from: int, next: int)
    requires
        0 <= from,
        0 <= next,
    ensures
        efe_linear::spec_next(lengths, candidates, from, next) matches Some((a, b)) ==> {
            &&& from < a || (from == a && next <= b)
            &&& 0 <= a < lengths.len() && 0 <= b < candidates.len()
            &&& !(lengths[a] == 1 && EFE_LINEAR_SPLITS@[candidates[b] as int] == 1)
        },
    decreases lengths.len() - from, candidates.len() - next,
{
    if from < lengths.len() {
        if next >= candidates.len() {
            if candidates.len() != 0 {
                lemma_next_is_later(lengths, candidates, from + 1, 0);
            }
        } else if efe_linear::is_baseline(lengths[from], candidates[next]) {
            lemma_next_is_later(lengths, candidates, from, next + 1);
        }
    }
}

/// A search gives up with a length once neither plane has got anything from the length before it;
/// with length 2 only while both planes still have the baseline.
pub proof fn law_searches_give_up(length: usize, u: BestFilter, v: BestFilter)
    requires
        1 <= u.length,
        1 <= v.length,
    ensures
        length <= 1 || length >= 5 ==> !efe_linear::gives_up(length, u, v),
        length == 3 || length == 4 ==> (efe_linear::gives_up(length, u, v) <==> u.length + 1
            < length && v.length + 1 < length),
        length == 2 ==> (efe_linear::gives_up(length, u, v) <==> u.length == 1 && u.cand == 0
            && u == v),
{
}

/// The search takes a source and a reconstruction of one luma size whose chroma planes have the
/// source's subsampled size.
pub proof fn law_linear_search_takes_matching_planes(
    s_ver: u8,
    s_hor: u8,
    org: PlaneSizes,
    rec: PlaneSizes,
)
    requires
        1 <= s_ver <= 2,
        1 <= s_hor <= 2,
    ensures
        rec.y == org.y && org.u == org.v && org.u == rec.u && covers(
            org.u.h as int,
            s_ver as int,
            org.y.h as int,
        ) && covers(org.u.w as int, s_hor as int, org.y.w as int) ==> efe_linear::sizes_agree(
            s_ver,
            s_hor,
            org,
            rec,
        ),
        efe_linear::sizes_agree(s_ver, s_hor, org, rec) ==> {
            &&& rec.y.h == org.y.h && rec.y.w == org.y.w
            &&& org.u.h == org.v.h && org.u.w == org.v.w
            &&& org.u.h == rec.u.h && org.u.w == rec.u.w
            &&& s_ver == 2 ==> covers(org.u.h as int, 2, org.y.h as int)
            &&& s_hor == 2 ==> covers(org.u.w as int, 2, org.y.w as int)
        },
{
    geometry::law_quotients_are_rounded_up(rec.y.h as int, 2);
    geometry::law_quotients_are_rounded_up(rec.y.w as int, 2);
    geometry::law_quotients_are_rounded_up(org.u.h as int, 3 - s_ver);
    geometry::law_quotients_are_rounded_up(org.u.w as int, 3 - s_hor);
    assert(s_ver == 1 || s_ver == 2);
    assert(s_hor == 1 || s_hor == 2);
    assert(org.u.h * 1 == org.u.h && org.u.w * 1 == org.u.w);
    assert(tiles::ceil(org.u.h as int, 1) * 1 == tiles::ceil(org.u.h as int, 1));
    assert(tiles::ceil(org.u.w as int, 1) * 1 == tiles::ceil(org.u.w as int, 1));
}

/// A search lays a picture out as the decoder's filter does.
pub proof fn law_search_plan_is_the_filter_plan(
    meta: SourceMeta,
    hdr: PictureHeader,
    h: EfeLinearHeader,
    y: PlaneSize,
)
    requires
        hdr.s_ver == meta.s_ver && hdr.s_hor == meta.s_hor,
        hdr.c_ver == meta.c_ver && hdr.c_hor == meta.c_hor,
    ensures
        efe_linear::spec_search_plan(meta, y) == linear::spec_plan(hdr, h, false, y),
{
}

/// Luma phase `2 i + j` reads the chroma phase of the same row and column where chroma has them, and
/// the only one there is along an axis that has one.
pub proof fn law_phases_read_their_own(i: int, j: int)
    requires
        0 <= i < 2,
        0 <= j < 2,
    ensures
        efe_linear::spec_channel_phase(2 * i + j, 2, 2) == 2 * i + j,
        efe_linear::spec_channel_phase(2 * i + j, 2, 1) == 2 * i,
        efe_linear::spec_channel_phase(2 * i + j, 1, 2) == j,
        efe_linear::spec_channel_phase(2 * i + j, 1, 1) == 0,
{
}

/// The tiles of the non-linear filter are the smallest multiple of 64 of which as many cover an axis
/// as it has parts of 1200 samples.
pub proof fn law_nonlinear_tiles_are_smallest(len: int, count: int)
    requires
        1 <= len <= 0x0fff_ffff,
        covers(count, 1200, len),
    ensures
        ({
            let size = efe_nonlinear::spec_tile_size(len);
            size % 64 == 0 && count * (size - 64) < len <= count * size
        }),
{
    let d = 64 * count;
    geometry::law_quotients_are_rounded_up(len, 1200);
    geometry::lemma_covers_once(count, tiles::ceil(len, 1200), 1200, len);
    geometry::law_quotients_are_rounded_up(len, d);
    let q = tiles::ceil(len, d);
    let size = q * 64;
    assert(q * d == count * size && q * d - d == count * (size - 64)) by (nonlinear_arith)
        requires
            d == 64 * count,
            size == q * 64,
    ;
}

/// Luma at the chroma positions is every `sv`-th row and every `sh`-th column.
pub proof fn law_luma_is_thinned_out<T>(
    src: Tensor<T>,
    sv: int,
    sh: int,
    h: int,
    w: int,
    y: int,
    x: int,
)
    requires
        1 <= sv,
        1 <= sh,
        covers(h, sv, src.h as int),
        covers(w, sh, src.w as int),
        0 <= y < h,
        0 <= x < w,
    ensures
        efe_nonlinear::spec_downsample(src, sv, sh).len() == h * w,
        efe_nonlinear::spec_downsample(src, sv, sh)[y * w + x] == src.data@[(y * sv) * src.w + x
            * sh],
{
    geometry::law_quotients_are_rounded_up(src.h as int, sv);
    geometry::law_quotients_are_rounded_up(src.w as int, sh);
    geometry::lemma_covers_once(h, tiles::ceil(src.h as int, sv), sv, src.h as int);
    geometry::lemma_covers_once(w, tiles::ceil(src.w as int, sh), sh, src.w as int);
    let p = y * w + x;
    div_mod::lemma_fundamental_div_mod_converse(p, w, y, x);
    assert(0 <= p < h * w) by (nonlinear_arith)
        requires
            0 <= y < h,
            0 <= x < w,
            p == y * w + x,
    ;
}

/// A block is averaged where that wins, and else shows whichever picture did not lose.
pub proof fn law_blocks_show_the_winner(filtered_loses: bool)
    ensures
        efe_nonlinear::spec_mask_value(filtered_loses, true) == 1,
        efe_nonlinear::spec_mask_value(true, false) == 2,
        efe_nonlinear::spec_mask_value(false, false) == 0,
{
}

/// Mask blocks shrink by 16 samples from one model to the next.
pub proof fn law_blocks_shrink_with_the_model(model_id: int)
    requires
        0 <= model_id < 5,
    ensures
        efe_nonlinear::BLOCK_SIZES@[model_id] == 128 - 16 * model_id,
{
    assert(model_id == 0 || model_id == 1 || model_id == 2 || model_id == 3 || model_id == 4);
}

/// The non-linear search takes a source and a reconstruction of one size, whose chroma planes have
/// the source's subsampled size.
pub proof fn law_nonlinear_search_takes_matching_planes(
    s_ver: u8,
    s_hor: u8,
    org: PlaneSizes,
    rec: PlaneSizes,
)
    requires
        1 <= s_ver,
        1 <= s_hor,
    ensures
        efe_nonlinear::sizes_agree(s_ver, s_hor, org, rec) <==> {
            &&& rec.y.h == org.y.h && rec.y.w == org.y.w
            &&& covers(org.u.h as int, s_ver as int, org.y.h as int)
            &&& covers(org.u.w as int, s_hor as int, org.y.w as int)
            &&& org.u.h == org.v.h && org.v.h == rec.u.h && rec.u.h == rec.v.h
            &&& org.u.w == org.v.w && org.v.w == rec.u.w && rec.u.w == rec.v.w
        },
{
    let (h, w) = (org.y.h as int, org.y.w as int);
    geometry::law_quotients_are_rounded_up(h, s_ver as int);
    geometry::law_quotients_are_rounded_up(w, s_hor as int);
    if covers(org.u.h as int, s_ver as int, h) {
        geometry::lemma_covers_once(
            org.u.h as int,
            tiles::ceil(h, s_ver as int),
            s_ver as int,
            h,
        );
    }
    if covers(org.u.w as int, s_hor as int, w) {
        geometry::lemma_covers_once(
            org.u.w as int,
            tiles::ceil(w, s_hor as int),
            s_hor as int,
            w,
        );
    }
}

/// A header carries a plane's weights if and only if the plane is filtered, a mask if and only if it
/// is kept, and the tiles and the mask geometry where one of the planes needs them.
pub proof fn law_nonlinear_header_carries_what_is_kept(
    h: EfeNonlinearHeader,
    t: TileSolve,
    u: bool,
    v: bool,
    masks: Option<TriedMasks>,
)
    requires
        efe_nonlinear::header_says(h, t, u, v, masks),
    ensures
        h.nonlinear is Some <==> u || v,
        h.nonlinear matches Some(n) ==> {
            &&& n.weights@[0] is Some <==> u
            &&& n.weights@[1] is Some <==> v
            &&& n.weights@[0] matches Some(w) ==> w == t.weights_u
            &&& n.weights@[1] matches Some(w) ==> w == t.weights_v
            &&& n.tile_width == t.tile_width && n.tile_height == t.tile_height
            &&& n.luma_min == t.luma_min && n.luma_max == t.luma_max
        },
        h.masks@[0] is Some <==> (masks matches Some(m) && m.u.kept),
        h.masks@[1] is Some <==> (masks matches Some(m) && m.v.kept),
        h.mask_geometry is Some <==> h.masks@[0] is Some || h.masks@[1] is Some,
        masks matches Some(m) ==> {
            &&& m.u.kept ==> h.masks@[0] == Some(m.u.mask)
            &&& m.v.kept ==> h.masks@[1] == Some(m.v.mask)
            &&& h.mask_geometry matches Some(g) ==> g.0 == m.block && g.1 == m.rows && g.2
                == m.cols
        },
        h.min_symbol == 0 && h.max_symbol == 0xffff,
{
}

/// The eICCI filter is tiled if and only if a tile may hold fewer samples than the picture has; its
/// tiles are the smallest multiple of 16 that is not below the root of what they may hold.
pub proof fn law_filter_tiles_hold_what_they_may(
    height: int,
    width: int,
    tile_samples: u32,
    overlap: u32,
    root: int,
)
    requires
        tiles::is_root(root, tile_samples as int),
    ensures
        ({
            let t = icci::spec_tiling(height, width, tile_samples, overlap, root);
            &&& t is Some <==> tile_samples != u32::MAX && tile_samples < height * width
            &&& t matches Some(t) ==> {
                &&& t.overlap == overlap
                &&& t.tile_size as int % 16 == 0
                &&& t.tile_size - 16 < root <= t.tile_size
                &&& root * root <= tile_samples < (root + 1) * (root + 1)
            }
        }),
{
    assert(root <= 0xffff) by (nonlinear_arith)
        requires
            root * root <= 0xffff_ffff,
            0 <= root,
    ;
    geometry::law_quotients_are_rounded_up(root, 16);
}

/// A tiling can be signalled if and only if its overlap is a multiple of 16 below 512 and its tiles
/// are below 4096.
pub proof fn law_signalled_tilings(t: crate::header::SynthesisTiling)
    ensures
        !icci::bad_tiling(None),
        !icci::bad_tiling(Some(t)) <==> t.overlap as int % 16 == 0 && t.overlap < 512
            && t.tile_size < 4096,
{
}

/// A search tries both networks of the short list, or each of the ten in the bank.
pub proof fn law_searched_networks(list: [[[u8; 2]; 5]; 3], op: OperatingPoint, model: int, i: int)
    ensures
        icci::spec_map(list, false, op, model).len() == 10,
        0 <= i < 10 ==> icci::spec_map(list, false, op, model)[i] == i,
        icci::spec_map(list, true, op, model).len() == 2,
        0 <= i < 2 ==> icci::spec_map(list, true, op, model)[i] == list@[match op {
            OperatingPoint::Sop => 0,
            OperatingPoint::Bop => 1,
            OperatingPoint::Hop => 2,
        }]@[model]@[i],
{
    assert(0 <= i < 2 ==> i == 0 || i == 1);
}

/// A better luma network replaces the last; a better chroma gain takes its network for the planes
/// that it covers and for no other. Nothing else changes.
pub proof fn law_offers_replace_what_they_beat(
    c: TileChoice,
    net_y: u8,
    net_uv: u8,
    luma: bool,
    chroma: Option<ChromaGain>,
)
    ensures
        ({
            let o = icci::spec_offer(c, net_y, net_uv, luma, chroma);
            &&& luma ==> o.y == Some(net_y)
            &&& !luma ==> o.y == c.y
            &&& chroma is None ==> o.u == c.u && o.v == c.v
            &&& chroma == Some(ChromaGain::Both) ==> o.u == Some(net_uv) && o.v == Some(net_uv)
            &&& chroma == Some(ChromaGain::OnlyU) ==> o.u == Some(net_uv) && o.v is None
            &&& chroma == Some(ChromaGain::OnlyV) ==> o.u is None && o.v == Some(net_uv)
        }),
{
}

/// An index stands for the first place of its network in the map.
pub proof fn law_indices_find_the_first(map: Seq<u8>, net: u8, from: int, i: int)
    requires
        0 <= from <= i < map.len(),
    ensures
        match icci::first_place(map, net, from) {
            Some(p) => {
                &&& from <= p < map.len() && map[p] == net
                &&& i < p ==> map[i] != net
            },
            None => map[i] != net,
        },
    decreases map.len() - from,
{
    if map[from] != net {
        if i > from {
            law_indices_find_the_first(map, net, from + 1, i);
        } else if from + 1 < map.len() {
            law_indices_find_the_first(map, net, from + 1, from + 1);
        }
    }
}

/// A signalled tile names the networks that were chosen: a flag for each plane that has one, and an
/// index at which the map holds it; the chroma planes share theirs.
pub proof fn law_tiles_signal_the_choice(
    t: IcciTile,
    c: TileChoice,
    map_y: Seq<u8>,
    map_uv: Seq<u8>,
    short_list: bool,
)
    requires
        icci::says(t, c, map_y, map_uv, short_list),
    ensures
        t.use_yuv@[0] <==> c.y is Some,
        t.use_yuv@[1] <==> c.u is Some,
        t.use_yuv@[2] <==> c.v is Some,
        t.short_list <==> short_list && (c.y is Some || c.u is Some || c.v is Some),
        c.y matches Some(n) ==> map_y[t.index_y as int] == n,
        c.u matches Some(n) ==> map_uv[t.index_uv as int] == n,
        c.u is None ==> (c.v matches Some(n) ==> map_uv[t.index_uv as int] == n),
        c.y is None ==> t.index_y == 0,
        c.u is None && c.v is None ==> t.index_uv == 0,
{
    assert(seq![c.y is Some, c.u is Some, c.v is Some][0] == (c.y is Some));
    assert(seq![c.y is Some, c.u is Some, c.v is Some][1] == (c.u is Some));
    assert(seq![c.y is Some, c.u is Some, c.v is Some][2] == (c.v is Some));
    if c.y is Some {
        lemma_found(map_y, c.y->Some_0);
    }
    if c.u is Some {
        lemma_found(map_uv, c.u->Some_0);
    } else if c.v is Some {
        lemma_found(map_uv, c.v->Some_0);
    }
}

/// The place of a network holds it.
proof fn lemma_found(map: Seq<u8>, net: u8)
    ensures
        icci::first_place(map, net, 0) matches Some(p) ==> 0 <= p < map.len() && map[p] == net,
{
    if map.len() > 0 {
        law_indices_find_the_first(map, net, 0, 0);
    }
}

/// The range of a list's codes is no wider than it has to be: each end is one of the codes, or was
/// there before.
pub proof fn law_code_ranges_are_tight(s: Seq<u32>, n: int, r: (u32, u32), i: int)
    requires
        0 <= i < n <= s.len(),
    ensures
        ({
            let (lo, hi) = weights::list_range(s, n, r);
            &&& lo <= s[i] <= hi && lo <= r.0 && r.1 <= hi
            &&& lo == r.0 || s.subrange(0, n).contains(lo)
            &&& hi == r.1 || s.subrange(0, n).contains(hi)
        }),
    decreases n,
{
    let all = s.subrange(0, n);
    assert(all[n - 1] == s[n - 1]);
    if n >= 2 {
        law_code_ranges_are_tight(
            s,
            n - 1,
            r,
            if i == n - 1 {
                0
            } else {
                i
            },
        );
        let before = s.subrange(0, n - 1);
        assert(forall|k: int| 0 <= k < n - 1 ==> #[trigger] before[k] == all[k]);
    } else {
        reveal_with_fuel(weights::list_range, 2);
    }
}

/// The codes of a plane, wherever they stand.
pub open spec fn holds_code(d: PlaneDecision, c: u32) -> bool {
    ||| exists|i: int, j: int|
        0 <= i < d.chroma@.len() && 0 <= j < d.chroma@[i]@.len() && #[trigger] d.chroma@[i]@[j] == c
    ||| exists|i: int, j: int|
        0 <= i < d.luma@.len() && 0 <= j < d.luma@[i]@.len() && #[trigger] d.luma@[i]@[j] == c
}

/// The ends of the range of lists are codes, or were there before.
proof fn lemma_lists_tight(s: Seq<Vec<u32>>, n: int, r: (u32, u32))
    requires
        0 <= n <= s.len(),
    ensures
        ({
            let (lo, hi) = weights::lists_range(s, n, r);
            &&& lo == r.0 || exists|i: int, j: int|
                0 <= i < s.len() && 0 <= j < s[i]@.len() && #[trigger] s[i]@[j] == lo
            &&& hi == r.1 || exists|i: int, j: int|
                0 <= i < s.len() && 0 <= j < s[i]@.len() && #[trigger] s[i]@[j] == hi
        }),
    decreases n,
{
    if n > 0 {
        lemma_lists_tight(s, n - 1, r);
        let before = weights::lists_range(s, n - 1, r);
        let last = s[n - 1]@;
        if last.len() > 0 {
            law_code_ranges_are_tight(last, last.len() as int, before, 0);
            assert(last.subrange(0, last.len() as int) =~= last);
            let (lo, hi) = weights::lists_range(s, n, r);
            if last.contains(lo) {
                let j = choose|j: int| 0 <= j < last.len() && last[j] == lo;
                assert(s[n - 1]@[j] == lo);
            }
            if last.contains(hi) {
                let j = choose|j: int| 0 <= j < last.len() && last[j] == hi;
                assert(s[n - 1]@[j] == hi);
            }
        }
    }
}

/// The smallest symbol of a coded set is the smallest code of its planes, and the largest is how far
/// the largest code lies above it: the range of a set is that of its codes.
pub proof fn law_sets_start_at_the_smallest_code(u: PlaneDecision, v: PlaneDecision, i: int, j: int)
    requires
        u.wf(),
        v.wf(),
        0 <= i < u.luma@.len(),
        0 <= j < u.luma@[i]@.len(),
    ensures
        ({
            let set = weights::spec_set(u, v);
            let lo = set.min_symbol as u32;
            let hi = (set.min_symbol + set.max_symbol) as u32;
            &&& weights::at_least(u, lo) && weights::at_least(v, lo)
            &&& weights::at_most(u, hi) && weights::at_most(v, hi)
            &&& lo == 0xffff || holds_code(u, lo) || holds_code(v, lo)
            &&& hi == 0 || holds_code(u, hi) || holds_code(v, hi)
        }),
{
    weights::lemma_code_range(u, v);
    let r0 = (0xffffu32, 0u32);
    let r1 = weights::lists_range(u.chroma@, u.chroma@.len() as int, r0);
    let r2 = weights::lists_range(u.luma@, u.luma@.len() as int, r1);
    let r3 = weights::lists_range(v.chroma@, v.chroma@.len() as int, r2);
    lemma_lists_tight(u.chroma@, u.chroma@.len() as int, r0);
    lemma_lists_tight(u.luma@, u.luma@.len() as int, r1);
    lemma_lists_tight(v.chroma@, v.chroma@.len() as int, r2);
    lemma_lists_tight(v.luma@, v.luma@.len() as int, r3);
    let (lo, hi) = weights::code_range(u, v);
    assert(lo <= u.luma@[i]@[j] <= hi);
}

/// A written plane names its split and its length, and holds its codes lowered by the smallest.
pub proof fn law_planes_are_written_as_decided(
    d: PlaneDecision,
    min: u32,
    coded_444: bool,
    split: int,
    k: int,
)
    requires
        d.wf(),
        weights::at_least(d, min),
        weights::plane_error(d, coded_444) is None,
        0 <= split < EFE_LINEAR_SPLITS@[d.cand as int],
        0 <= k < d.filter_len * d.filter_len,
    ensures
        ({
            let p = weights::written(d, min);
            &&& p.cand == Some(d.cand as u8) && p.filter_len == d.filter_len
            &&& p.chroma_weights.len() == EFE_LINEAR_SPLITS@[d.cand as int]
            &&& p.luma_weights.len() == EFE_LINEAR_SPLITS@[d.cand as int]
            &&& p.luma_weights[split].len() == d.filter_len * d.filter_len
            &&& coded_444 ==> p.chroma_weights[split].len() == d.filter_len * d.filter_len
            &&& !coded_444 ==> p.chroma_weights[split].len() == 4 * (d.filter_len * d.filter_len)
            &&& p.luma_weights[split][k] + min == d.luma@[split]@[k]
            &&& p.chroma_weights[split][k] + min == d.chroma@[split]@[k]
        }),
{
    let taps = d.filter_len * d.filter_len;
    assert(d.luma@[split]@.len() == taps);
    assert(d.chroma@[split]@.len() == if coded_444 {
        taps
    } else {
        4 * taps
    });
    assert(min <= d.luma@[split]@[k]);
    assert(min <= d.chroma@[split]@[k]);
}

/// The header of a search holds the alternative picture's filters first, unshifted, and its own
/// behind them; without an alternative the first set is empty.
pub proof fn law_search_headers(
    mean: (u16, u16),
    alternative: Option<(PlaneDecision, PlaneDecision)>,
    u: PlaneDecision,
    v: PlaneDecision,
)
    ensures
        ({
            let h = weights::spec_filter_header(mean, alternative, u, v);
            &&& h.mean == mean
            &&& h.set == weights::spec_set(u, v)
            &&& h.set.first.cand == Some(u.cand as u8) && h.set.second.cand == Some(v.cand as u8)
            &&& alternative is None ==> h.upsample_set.first.cand is None
                && h.upsample_set.second.cand is None
            &&& alternative matches Some((a, b)) ==> {
                &&& h.upsample_set.first.cand == Some(a.cand as u8)
                &&& h.upsample_set.second.cand == Some(b.cand as u8)
                &&& h.upsample_set.min_symbol == 0 && h.upsample_set.max_symbol == 0xffff
            }
        }),
        weights::spec_bare_header().set.first.cand is None,
        weights::spec_bare_header().set.second.cand is None,
        weights::spec_bare_header().upsample_set.first.cand is None,
        weights::spec_bare_header().upsample_set.second.cand is None,
        weights::spec_bare_header().mean == (0u16, 0u16),
{
}

} // verus!

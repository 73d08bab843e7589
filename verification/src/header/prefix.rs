//! Headers that are cut short are refused: whatever a parser finds in the first bits of a payload
//! it finds in the whole payload, and it ends where these bits end at the latest.

use vstd::prelude::*;

use crate::bitio;
use crate::bitio::kept;
use crate::bits;
use crate::header::picture;
use crate::header::picture::{ColourView, Geometry, OperatingPoint, PictureView};
use crate::header::rendering;
use crate::header::rendering::RenderingView;
use crate::header::tools;
use crate::header::tools::{IcciTileView, ToolContext, ToolView};

verus! {

proof fn lemma_rendering_parts(s: Seq<bool>, k: int, pos: int)
    requires
        0 <= k <= s.len(),
        0 <= pos,
    ensures
        kept(rendering::spec_cicp(s.take(k), pos), rendering::spec_cicp(s, pos), pos, k),
        kept(rendering::spec_mdcv(s.take(k), pos), rendering::spec_mdcv(s, pos), pos, k),
        kept(rendering::spec_clli(s.take(k), pos), rendering::spec_clli(s, pos), pos, k),
        kept(
            rendering::spec_display_mapping(s.take(k), pos),
            rendering::spec_display_mapping(s, pos),
            pos,
            k,
        ),
{
    reveal(rendering::spec_cicp);
    reveal(rendering::spec_mdcv);
    reveal(rendering::spec_clli);
    reveal(rendering::spec_display_mapping);
    bitio::lemma_prefix(s, k);
    let short = rendering::spec_display_mapping(s.take(k), pos);
    if let Ok((v, p)) = short {
        let long = rendering::spec_display_mapping(s, pos)->Ok_0.0;
        assert(v.1 =~= long.1);
    }
}

/// Rendering information found in the first bits is found in all of them.
proof fn lemma_rendering_kept(s: Seq<bool>, k: int)
    requires
        0 <= k <= s.len(),
    ensures
        kept(rendering::spec_rendering(s.take(k)), rendering::spec_rendering(s), 0, k),
{
    bitio::lemma_prefix(s, k);
    let t = s.take(k);
    if k >= 8 {
        lemma_rendering_parts(s, k, 8);
        if let Ok((c, p1)) = rendering::optional(t[0], rendering::spec_cicp(t, 8), 8) {
            lemma_rendering_parts(s, k, p1);
            if let Ok((m, p2)) = rendering::optional(t[1], rendering::spec_mdcv(t, p1), p1) {
                lemma_rendering_parts(s, k, p2);
                if let Ok((l, p3)) = rendering::optional(t[2], rendering::spec_clli(t, p2), p2) {
                    lemma_rendering_parts(s, k, p3);
                }
            }
        }
    }
}

/// Rendering information that was written and cut short is refused, wherever it is cut.
pub proof fn law_cut_rendering_is_refused(v: RenderingView, j: int)
    requires
        rendering::rendering_error(v) is None,
        v.mdcv matches Some(m) ==> m.primaries.len() == 3,
        0 <= j < bits::pack(rendering::rendering_code(v)).len(),
    ensures
        rendering::spec_rendering(bits::of_bytes(bits::pack(rendering::rendering_code(v)).take(j)))
            is Err,
{
    let code = rendering::rendering_code(v);
    let s = bits::of_bytes(bits::pack(code));
    rendering::law_rendering_round_trip(v);
    bitio::lemma_cut_bytes(code, j);
    lemma_rendering_kept(s, 8 * j);
    bitio::lemma_prefix_fails(
        rendering::spec_rendering(s.take(8 * j)),
        rendering::spec_rendering(s),
        code,
        v,
        j,
    );
}

proof fn lemma_transforms_kept(
    s: Seq<bool>,
    k: int,
    pos: int,
    count: nat,
    acc: Seq<OperatingPoint>,
)
    requires
        0 <= pos <= k <= s.len(),
    ensures
        kept(
            picture::spec_transforms(s.take(k), pos, count, acc),
            picture::spec_transforms(s, pos, count, acc),
            pos,
            k,
        ),
    decreases count,
{
    bitio::lemma_prefix(s, k);
    if count > 0 && pos + 4 <= k {
        if let Some(op) = OperatingPoint::of_id(bitio::field(s, pos, 4)) {
            lemma_transforms_kept(s, k, pos + 4, (count - 1) as nat, acc.push(op));
        }
    }
}

proof fn lemma_geometry_kept(s: Seq<bool>, k: int, pos: int)
    requires
        0 <= k <= s.len(),
        0 <= pos,
    ensures
        kept(picture::spec_geometry(s.take(k), pos), picture::spec_geometry(s, pos), pos, k),
{
    reveal(picture::spec_geometry);
    bitio::lemma_prefix(s, k);
}

proof fn lemma_colour_kept(s: Seq<bool>, k: int, pos: int)
    requires
        0 <= k <= s.len(),
        0 <= pos,
    ensures
        kept(picture::spec_colour(s.take(k), pos), picture::spec_colour(s, pos), pos, k),
{
    reveal(picture::spec_colour);
    bitio::lemma_prefix(s, k);
    if pos + 98 <= k {
        assert(Seq::new(12, |i: int| bitio::field(s.take(k), pos + 2 + 8 * i, 8) as u8)
            =~= Seq::new(12, |i: int| bitio::field(s, pos + 2 + 8 * i, 8) as u8));
    }
}

proof fn lemma_small_parts_kept(s: Seq<bool>, k: int, pos: int)
    requires
        0 <= k <= s.len(),
        0 <= pos,
    ensures
        kept(picture::spec_threads(s.take(k), pos), picture::spec_threads(s, pos), pos, k),
        kept(picture::spec_quality_map(s.take(k), pos), picture::spec_quality_map(s, pos), pos, k),
        forall|zero: &'static str|
            kept(
                #[trigger] picture::spec_tiling(s.take(k), pos, zero),
                picture::spec_tiling(s, pos, zero),
                pos,
                k,
            ),
        forall|beta0: i32|
            kept(
                #[trigger] picture::spec_beta1(s.take(k), pos, beta0),
                picture::spec_beta1(s, pos, beta0),
                pos,
                k,
            ),
        forall|height: int, width: int|
            kept(
                #[trigger] picture::spec_regions(s.take(k), pos, height, width),
                picture::spec_regions(s, pos, height, width),
                pos,
                k,
            ),
{
    reveal(picture::spec_threads);
    reveal(picture::spec_quality_map);
    reveal(picture::spec_tiling);
    reveal(picture::spec_beta1);
    reveal(picture::spec_regions);
    bitio::lemma_prefix(s, k);
}

proof fn lemma_cube_flags_kept(s: Seq<bool>, k: int, pos: int, count: nat, acc: Seq<bool>)
    requires
        0 <= pos <= k <= s.len(),
    ensures
        kept(
            picture::spec_cube_flags(s.take(k), pos, count, acc),
            picture::spec_cube_flags(s, pos, count, acc),
            pos,
            k,
        ),
    decreases count - acc.len(),
{
    bitio::lemma_prefix(s, k);
    if acc.len() < count && pos + 1 <= k {
        let n = if count - acc.len() < 8 {
            (count - acc.len()) as nat
        } else {
            8
        };
        if !s[pos] {
            lemma_cube_flags_kept(s, k, pos + 1, count, acc + picture::all_set(n));
        } else if pos + 1 + n <= k {
            lemma_cube_flags_kept(
                s,
                k,
                pos + 1 + n,
                count,
                acc + s.subrange(pos + 1, pos + 1 + n),
            );
        }
    }
}

proof fn lemma_component_kept(s: Seq<bool>, k: int, pos: int, height: int, width: int, ccs: int)
    requires
        0 <= k <= s.len(),
        0 <= pos,
    ensures
        kept(
            picture::spec_component(s.take(k), pos, height, width, ccs),
            picture::spec_component(s, pos, height, width, ccs),
            pos,
            k,
        ),
{
    reveal(picture::spec_component);
    bitio::lemma_prefix(s, k);
    let t = s.take(k);
    lemma_small_parts_kept(s, k, pos);
    if let Ok((n, p1)) = picture::spec_threads(t, pos) {
        if p1 + 9 <= k {
            let count = picture::spec_cube_flag_count(height, width, ccs) as nat;
            lemma_cube_flags_kept(s, k, p1 + 9, count, Seq::empty());
            let cubes = picture::spec_cube_flags(t, p1 + 9, count, Seq::empty());
            if let Ok((f, p2)) = picture::flagged(t, p1 + 8, cubes) {
                let n = picture::channels_at(t, p1, ccs) as nat;
                assert(n == picture::channels_at(s, p1, ccs));
                if p2 + 2 <= k {
                    if let Ok((g, p3)) = picture::flagged(
                        t,
                        p2 + 1,
                        picture::spec_flags(t, p2 + 2, n),
                    ) {
                        lemma_small_parts_kept(s, k, p3 + 1);
                    }
                }
            }
        }
    }
}

/// A picture header found in the first bits is found in all of them.
proof fn lemma_coding_kept(
    s: Seq<bool>,
    k: int,
    pos: int,
    profiles: (u8, u8),
    transforms: Seq<OperatingPoint>,
    geometry: Geometry,
    colour: ColourView,
)
    requires
        0 <= k <= s.len(),
        0 <= pos,
    ensures
        kept(
            picture::spec_coding(
                s.take(k),
                pos,
                profiles.0,
                profiles.1,
                transforms,
                geometry,
                colour,
            ),
            picture::spec_coding(s, pos, profiles.0, profiles.1, transforms, geometry, colour),
            pos,
            k,
        ),
{
    bitio::lemma_prefix(s, k);
    let t = s.take(k);
    let (h, w) = (geometry.height as int, geometry.width as int);
    lemma_small_parts_kept(s, k, pos + 4);
    if let Ok((n, p1)) = picture::spec_threads(t, pos + 4) {
        lemma_small_parts_kept(s, k, p1 + 12);
        if let Ok((r, p2)) = picture::spec_regions(t, p1 + 12, h, w) {
            lemma_small_parts_kept(s, k, p2);
            if let Ok((b, p3)) = picture::spec_beta1(t, p2, picture::displacement(t, p1)) {
                lemma_component_kept(s, k, p3, h, w, 0);
                if let Ok((l, p4)) = picture::spec_component(t, p3, h, w, 0) {
                    lemma_component_kept(s, k, p4, h, w, 1);
                    if let Ok((c, p5)) = picture::spec_component(t, p4, h, w, 1) {
                        lemma_small_parts_kept(s, k, p5 + 1);
                    }
                }
            }
        }
    }
}

proof fn lemma_picture_kept(s: Seq<bool>, k: int)
    requires
        0 <= k <= s.len(),
    ensures
        kept(picture::spec_picture(s.take(k)), picture::spec_picture(s), 0, k),
{
    bitio::lemma_prefix(s, k);
    let t = s.take(k);
    if k >= 12 {
        let count = bitio::field(s, 8, 4) as nat + 1;
        lemma_transforms_kept(s, k, 12, count, Seq::empty());
        if let Ok((ts, p1)) = picture::spec_transforms(t, 12, count, Seq::empty()) {
            lemma_geometry_kept(s, k, p1);
            if let Ok((g, p2)) = picture::spec_geometry(t, p1) {
                lemma_colour_kept(s, k, p2);
                if let Ok((c, p3)) = picture::spec_colour(t, p2) {
                    let profiles = (bitio::field(s, 0, 4) as u8, bitio::field(s, 4, 4) as u8);
                    lemma_coding_kept(s, k, p3, profiles, ts, g, c);
                }
            }
        }
    }
}

/// A picture header that was written and cut short is refused, wherever it is cut.
pub proof fn law_cut_picture_is_refused(v: PictureView, j: int)
    requires
        picture::picture_error(v) is None,
        picture::picture_codable(v),
        0 <= j < bits::pack(picture::picture_code(v)).len(),
    ensures
        picture::spec_picture(bits::of_bytes(bits::pack(picture::picture_code(v)).take(j))) is Err,
{
    let code = picture::picture_code(v);
    let s = bits::of_bytes(bits::pack(code));
    picture::law_picture_round_trip(v);
    bitio::lemma_cut_bytes(code, j);
    lemma_picture_kept(s, 8 * j);
    bitio::lemma_prefix_fails(
        picture::spec_picture(s.take(8 * j)),
        picture::spec_picture(s),
        code,
        v,
        j,
    );
}

proof fn lemma_symbols_at(s: Seq<bool>, k: int, pos: int, n: nat, width: nat)
    requires
        0 <= pos,
        pos + n * width <= k <= s.len(),
    ensures
        tools::symbols(s.take(k), pos, n, width) == tools::symbols(s, pos, n, width),
{
    bitio::lemma_prefix(s, k);
    assert forall|i: int| 0 <= i < n implies #[trigger] tools::symbols(s.take(k), pos, n, width)[i]
        == tools::symbols(s, pos, n, width)[i] by {
        assert(0 <= i * width && i * width + width <= n * width) by (nonlinear_arith)
            requires
                0 <= i < n,
                0 <= width,
        ;
    }
    assert(tools::symbols(s.take(k), pos, n, width) =~= tools::symbols(s, pos, n, width));
}

proof fn lemma_symbols_kept(s: Seq<bool>, k: int, pos: int, n: nat, max: nat)
    requires
        0 <= k <= s.len(),
        0 <= pos,
    ensures
        kept(
            tools::spec_symbols(s.take(k), pos, n, max),
            tools::spec_symbols(s, pos, n, max),
            pos,
            k,
        ),
{
    let width = bitio::bit_width(max);
    assert(0 <= n * width) by (nonlinear_arith);
    if pos + n * width <= k {
        lemma_symbols_at(s, k, pos, n, width);
    }
}

proof fn lemma_lists_kept(s: Seq<bool>, k: int, pos: int, count: nat, n: nat, max: nat)
    requires
        0 <= k <= s.len(),
        0 <= pos,
    ensures
        kept(
            tools::spec_lists(s.take(k), pos, count, n, max),
            tools::spec_lists(s, pos, count, n, max),
            pos,
            k,
        ),
{
    reveal(tools::spec_lists);
    let width = bitio::bit_width(max);
    let each = n * width;
    assert(0 <= count * each) by (nonlinear_arith);
    if pos + count * each <= k {
        let short = Seq::new(count, |i: int| tools::symbols(s.take(k), pos + i * each, n, width));
        let long = Seq::new(count, |i: int| tools::symbols(s, pos + i * each, n, width));
        assert forall|i: int| 0 <= i < count implies #[trigger] short[i] == long[i] by {
            assert(0 <= i * each && i * each + each <= count * each) by (nonlinear_arith)
                requires
                    0 <= i < count,
                    0 <= each,
            ;
            lemma_symbols_at(s, k, pos + i * each, n, width);
        }
        assert(short =~= long);
    }
}

proof fn lemma_weights_kept(
    s: Seq<bool>,
    k: int,
    pos: int,
    cand: Option<u8>,
    len: u8,
    coded_444: bool,
    max: nat,
)
    requires
        0 <= pos <= k <= s.len(),
    ensures
        kept(
            tools::spec_weights(s.take(k), pos, cand, len, coded_444, max),
            tools::spec_weights(s, pos, cand, len, coded_444, max),
            pos,
            k,
        ),
{
    reveal(tools::spec_weights);
    if let Some(c) = cand {
        let n = tools::chroma_taps(len, coded_444);
        lemma_lists_kept(s, k, pos, tools::splits_of(c), n, max);
        if let Ok((w, p)) = tools::spec_lists(s.take(k), pos, tools::splits_of(c), n, max) {
            lemma_lists_kept(s, k, p, tools::splits_of(c), tools::chroma_taps(len, true), max);
        }
    }
}

proof fn lemma_linear_set_kept(s: Seq<bool>, k: int, pos: int, coded_444: bool)
    requires
        0 <= k <= s.len(),
        0 <= pos,
    ensures
        kept(
            tools::spec_linear_set(s.take(k), pos, coded_444),
            tools::spec_linear_set(s, pos, coded_444),
            pos,
            k,
        ),
{
    reveal(tools::spec_linear_set);
    bitio::lemma_prefix(s, k);
    let t = s.take(k);
    if pos + 8 <= k {
        let cand0 = tools::cand_of(bitio::field(s, pos, 4));
        let cand1 = tools::cand_of(bitio::field(s, pos + 4, 4));
        if let Ok((len0, p1)) = tools::spec_filter_len(t, pos + 8, cand0) {
            if let Ok((len1, p2)) = tools::spec_filter_len(t, p1, cand1) {
                if p2 + 32 <= k {
                    let max = bitio::field(s, p2 + 16, 16) as u16 as nat;
                    lemma_weights_kept(s, k, p2 + 32, cand0, len0, coded_444, max);
                    if let Ok((w, p3)) = tools::spec_weights(
                        t,
                        p2 + 32,
                        cand0,
                        len0,
                        coded_444,
                        max,
                    ) {
                        lemma_weights_kept(s, k, p3, cand1, len1, coded_444, max);
                    }
                }
            }
        }
    }
}

proof fn lemma_linear_kept(s: Seq<bool>, k: int, pos: int, coded_444: bool)
    requires
        0 <= k <= s.len(),
        0 <= pos,
    ensures
        kept(
            tools::spec_linear(s.take(k), pos, coded_444),
            tools::spec_linear(s, pos, coded_444),
            pos,
            k,
        ),
{
    reveal(tools::spec_linear);
    bitio::lemma_prefix(s, k);
    lemma_linear_set_kept(s, k, pos + 30, coded_444);
    if let Ok((u, p)) = tools::spec_linear_set(s.take(k), pos + 30, coded_444) {
        lemma_linear_set_kept(s, k, p, coded_444);
    }
}

proof fn lemma_icci_tile_kept(s: Seq<bool>, k: int, pos: int)
    requires
        0 <= k <= s.len(),
        0 <= pos,
    ensures
        kept(tools::spec_icci_tile(s.take(k), pos), tools::spec_icci_tile(s, pos), pos, k),
{
    reveal(tools::spec_icci_tile);
    bitio::lemma_prefix(s, k);
}

proof fn lemma_icci_tiles_kept(
    s: Seq<bool>,
    k: int,
    pos: int,
    count: nat,
    acc: Seq<IcciTileView>,
)
    requires
        0 <= pos <= k <= s.len(),
    ensures
        kept(
            tools::spec_icci_tiles(s.take(k), pos, count, acc),
            tools::spec_icci_tiles(s, pos, count, acc),
            pos,
            k,
        ),
    decreases count,
{
    if count > 0 {
        lemma_icci_tile_kept(s, k, pos);
        if let Ok((t, p)) = tools::spec_icci_tile(s.take(k), pos) {
            lemma_icci_tiles_kept(s, k, p, (count - 1) as nat, acc.push(t));
        }
    }
}

proof fn lemma_icci_kept(s: Seq<bool>, k: int, pos: int, height: int, width: int)
    requires
        0 <= k <= s.len(),
        0 <= pos,
    ensures
        kept(
            tools::spec_icci(s.take(k), pos, height, width),
            tools::spec_icci(s, pos, height, width),
            pos,
            k,
        ),
{
    reveal(tools::spec_icci);
    bitio::lemma_prefix(s, k);
    let t = s.take(k);
    lemma_small_parts_kept(s, k, pos + 1);
    let tiling = picture::spec_tiling(t, pos + 1, "eICCI: tile size is zero");
    if let Ok((tiling, p)) = picture::flagged(t, pos, tiling) {
        if let Ok(count) = tools::spec_tile_count(height, width, tiling) {
            lemma_icci_tiles_kept(s, k, p, count as nat, Seq::empty());
        }
    }
}

proof fn lemma_mask_kept(s: Seq<bool>, k: int, pos: int, enabled: bool, n: nat)
    requires
        0 <= pos <= k <= s.len(),
    ensures
        kept(
            tools::spec_mask(s.take(k), pos, enabled, n),
            tools::spec_mask(s, pos, enabled, n),
            pos,
            k,
        ),
{
    reveal(tools::spec_mask);
    lemma_symbols_kept(s, k, pos, n, 2);
}

proof fn lemma_masks_kept(s: Seq<bool>, k: int, pos: int, on: (bool, bool))
    requires
        0 <= pos <= k <= s.len(),
    ensures
        kept(tools::spec_masks(s.take(k), pos, on), tools::spec_masks(s, pos, on), pos, k),
{
    reveal(tools::spec_masks);
    bitio::lemma_prefix(s, k);
    if pos + 30 <= k {
        let rows = bitio::field(s, pos + 10, 10) as u16;
        let cols = bitio::field(s, pos + 20, 10) as u16;
        let n = (rows * cols) as nat;
        lemma_mask_kept(s, k, pos + 30, on.0, n);
        if let Ok((m, p)) = tools::spec_mask(s.take(k), pos + 30, on.0, n) {
            lemma_mask_kept(s, k, p, on.1, n);
        }
    }
}

proof fn lemma_weight_list_kept(s: Seq<bool>, k: int, pos: int, enabled: bool, max: nat)
    requires
        0 <= pos <= k <= s.len(),
    ensures
        kept(
            tools::spec_weight_list(s.take(k), pos, enabled, max),
            tools::spec_weight_list(s, pos, enabled, max),
            pos,
            k,
        ),
{
    reveal(tools::spec_weight_list);
    bitio::lemma_prefix(s, k);
    if pos + 16 <= k {
        lemma_symbols_kept(s, k, pos + 16, bitio::field(s, pos, 16) as nat, max);
    }
}

proof fn lemma_nonlinear_tiles_kept(s: Seq<bool>, k: int, pos: int, on: (bool, bool), max: nat)
    requires
        0 <= k <= s.len(),
        0 <= pos,
    ensures
        kept(
            tools::spec_nonlinear_tiles(s.take(k), pos, on, max),
            tools::spec_nonlinear_tiles(s, pos, on, max),
            pos,
            k,
        ),
{
    reveal(tools::spec_nonlinear_tiles);
    bitio::lemma_prefix(s, k);
    let t = s.take(k);
    if pos + 48 <= k {
        let n = bitio::field(s, pos + 32, 16) as nat;
        lemma_symbols_kept(s, k, pos + 48, n, 65535);
        if let Ok((low, p1)) = tools::spec_symbols(t, pos + 48, n, 65535) {
            lemma_symbols_kept(s, k, p1, n, 65535);
            if let Ok((high, p2)) = tools::spec_symbols(t, p1, n, 65535) {
                lemma_weight_list_kept(s, k, p2, on.0, max);
                if let Ok((first, p3)) = tools::spec_weight_list(t, p2, on.0, max) {
                    lemma_weight_list_kept(s, k, p3, on.1, max);
                }
            }
        }
    }
}

proof fn lemma_nonlinear_kept(s: Seq<bool>, k: int, pos: int)
    requires
        0 <= k <= s.len(),
        0 <= pos,
    ensures
        kept(tools::spec_nonlinear(s.take(k), pos), tools::spec_nonlinear(s, pos), pos, k),
{
    reveal(tools::spec_nonlinear);
    bitio::lemma_prefix(s, k);
    let t = s.take(k);
    if pos + 34 <= k {
        let on = (s[pos + 32], s[pos + 33]);
        let max = bitio::field(s, pos + 16, 16) as u16 as nat;
        lemma_masks_kept(s, k, pos + 34, on);
        if let Ok((m, p)) = tools::spec_masks(t, pos + 34, on) {
            if p + 2 <= k {
                lemma_nonlinear_tiles_kept(s, k, p + 2, (s[p], s[p + 1]), max);
            }
        }
    }
}

/// A tool header found in the first bits is found in all of them.
proof fn lemma_tools_kept(s: Seq<bool>, k: int, c: ToolContext)
    requires
        0 <= k <= s.len(),
    ensures
        kept(tools::spec_tools(s.take(k), c), tools::spec_tools(s, c), 0, k),
{
    bitio::lemma_prefix(s, k);
    let t = s.take(k);
    if k >= 2 {
        lemma_linear_kept(s, k, 3, c.coded_444);
        if let Ok((l, p1)) = picture::flagged(t, 2, tools::spec_linear(t, 3, c.coded_444)) {
            lemma_icci_kept(s, k, p1 + 1, c.height, c.width);
            if let Ok((i, p2)) = tools::spec_icci_part(t, p1, c) {
                lemma_nonlinear_kept(s, k, p2 + 1);
            }
        }
    }
}

/// A tool header that was written and cut short is refused, wherever it is cut.
pub proof fn law_cut_tools_are_refused(v: ToolView, c: ToolContext, j: int)
    requires
        tools::tools_error(v, c) is None,
        tools::tools_codable(v),
        0 <= c.height,
        0 <= c.width,
        0 <= j < bits::pack(tools::tools_code(v, c)).len(),
    ensures
        tools::spec_tools(bits::of_bytes(bits::pack(tools::tools_code(v, c)).take(j)), c) is Err,
{
    let code = tools::tools_code(v, c);
    let s = bits::of_bytes(bits::pack(code));
    tools::law_tools_round_trip(v, c);
    bitio::lemma_cut_bytes(code, j);
    lemma_tools_kept(s, 8 * j, c);
    bitio::lemma_prefix_fails(
        tools::spec_tools(s.take(8 * j), c),
        tools::spec_tools(s, c),
        code,
        v,
        j,
    );
}

} // verus!

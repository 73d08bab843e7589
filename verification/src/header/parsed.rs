//! Whatever a header parser accepts can be written again, and comes back when it is.

use vstd::prelude::*;
use vstd::arithmetic::power2;

use crate::bitio;
use crate::bits;
use crate::error::Error;
use crate::header::picture;
use crate::header::picture::{ColourView, Geometry, OperatingPoint, PictureView};
use crate::header::tools;
use crate::header::tools::{IcciTileView, ToolContext, ToolView};

verus! {

/// A field of `n` bits is below `2^n`.
proof fn lemma_field_bound(s: Seq<bool>, pos: int, n: nat)
    requires
        0 <= pos,
        pos + n <= s.len(),
        n <= 32,
    ensures
        bitio::field(s, pos, n) < power2::pow2(n),
{
    power2::lemma2_to64();
    bits::lemma_value_bound(s.subrange(pos, pos + n));
    if n < 32 {
        power2::lemma_pow2_strictly_increases(n, 32);
    }
}

proof fn lemma_transforms(s: Seq<bool>, pos: int, count: nat, acc: Seq<OperatingPoint>)
    requires
        0 <= pos,
    ensures
        picture::spec_transforms(s, pos, count, acc) matches Ok((v, p)) ==> v.len() == acc.len()
            + count && pos <= p,
    decreases count,
{
    if count > 0 && pos + 4 <= s.len() {
        if let Some(op) = OperatingPoint::of_id(bitio::field(s, pos, 4)) {
            lemma_transforms(s, pos + 4, (count - 1) as nat, acc.push(op));
        }
    }
}

proof fn lemma_geometry(s: Seq<bool>, pos: int)
    requires
        0 <= pos,
    ensures
        picture::spec_geometry(s, pos) matches Ok((g, p)) ==> {
            &&& pos <= p
            &&& 64 <= g.width <= 65599 && 64 <= g.height <= 65599
            &&& g.diff_display_width <= 63 && g.diff_display_height <= 63
            &&& g.bit_depth == 8 || g.bit_depth == 10
            &&& 1 <= g.s_ver <= 2 && 1 <= g.s_hor <= 2
            &&& g.s_ver <= g.c_ver <= 2 && g.s_hor <= g.c_hor <= 2
        },
{
    reveal(picture::spec_geometry);
    power2::lemma2_to64();
    if pos + 55 <= s.len() {
        lemma_field_bound(s, pos + 8, 16);
        lemma_field_bound(s, pos + 24, 16);
        lemma_field_bound(s, pos + 40, 6);
        lemma_field_bound(s, pos + 46, 6);
    }
}

proof fn lemma_threads(s: Seq<bool>, pos: int)
    requires
        0 <= pos,
    ensures
        picture::spec_threads(s, pos) matches Ok((n, p)) ==> picture::thread_count_ok(n) && pos <= p,
{
    reveal(picture::spec_threads);
}

proof fn lemma_regions(s: Seq<bool>, pos: int, height: int, width: int)
    requires
        0 <= pos,
    ensures
        picture::spec_regions(s, pos, height, width) matches Ok((r, p)) ==> pos <= p && (
        r matches Some(r) ==> picture::regions_codable(r, height, width)),
{
    reveal(picture::spec_regions);
    power2::lemma2_to64();
    if pos + 15 <= s.len() {
        lemma_field_bound(s, pos + 1, 7);
        lemma_field_bound(s, pos + 8, 7);
    }
    if pos + 22 <= s.len() {
        lemma_field_bound(s, pos + 16, 2);
        lemma_field_bound(s, pos + 18, 4);
    }
}

proof fn lemma_displacement(s: Seq<bool>, pos: int)
    requires
        0 <= pos,
        pos + 12 <= s.len(),
    ensures
        picture::displacement_ok(picture::displacement(s, pos)),
{
    power2::lemma2_to64();
    lemma_field_bound(s, pos, 12);
}

proof fn lemma_beta1(s: Seq<bool>, pos: int, beta0: i32)
    requires
        0 <= pos,
        picture::displacement_ok(beta0),
    ensures
        picture::spec_beta1(s, pos, beta0) matches Ok((b, p)) ==> picture::displacement_ok(b)
            && pos <= p,
{
    reveal(picture::spec_beta1);
    if pos + 13 <= s.len() {
        lemma_displacement(s, pos + 1);
    }
}

proof fn lemma_cube_flags(s: Seq<bool>, pos: int, count: nat, acc: Seq<bool>)
    requires
        0 <= pos,
        acc.len() <= count,
    ensures
        picture::spec_cube_flags(s, pos, count, acc) matches Ok((f, p)) ==> f.len() == count && pos
            <= p,
    decreases count - acc.len(),
{
    if acc.len() < count && pos + 1 <= s.len() {
        let n = if count - acc.len() < 8 {
            (count - acc.len()) as nat
        } else {
            8
        };
        if !s[pos] {
            lemma_cube_flags(s, pos + 1, count, acc + picture::all_set(n));
        } else if pos + 1 + n <= s.len() {
            lemma_cube_flags(s, pos + 1 + n, count, acc + s.subrange(pos + 1, pos + 1 + n));
        }
    }
}

proof fn lemma_tiling(s: Seq<bool>, pos: int, zero: &'static str)
    requires
        0 <= pos,
    ensures
        picture::spec_tiling(s, pos, zero) matches Ok((t, p)) ==> picture::tiling_error(Some(t))
            is None && pos <= p,
{
    reveal(picture::spec_tiling);
    power2::lemma2_to64();
    if pos + 13 <= s.len() {
        lemma_field_bound(s, pos, 8);
        lemma_field_bound(s, pos + 8, 5);
    }
}

proof fn lemma_component(s: Seq<bool>, pos: int, height: int, width: int, ccs: int)
    requires
        0 <= pos,
        0 <= picture::spec_cube_flag_count(height, width, ccs),
        0 <= ccs <= 1,
    ensures
        picture::spec_component(s, pos, height, width, ccs) matches Ok((c, p)) ==> pos <= p
            && picture::component_error(c, height, width, ccs) is None,
{
    reveal(picture::spec_component);
    lemma_threads(s, pos);
    if let Ok((t, p1)) = picture::spec_threads(s, pos) {
        let count = picture::spec_cube_flag_count(height, width, ccs) as nat;
        lemma_cube_flags(s, p1 + 9, count, Seq::empty());
        let cubes = picture::spec_cube_flags(s, p1 + 9, count, Seq::empty());
        if let Ok((f, p2)) = picture::flagged(s, p1 + 8, cubes) {
            let n = picture::channels_at(s, p1, ccs) as nat;
            if let Ok((g, p3)) = picture::flagged(s, p2 + 1, picture::spec_flags(s, p2 + 2, n)) {
                lemma_tiling(s, p3 + 1, "synthesis_tile_size is zero");
            }
        }
    }
}

/// Every picture header that parses can be written, and parses to itself when it was.
pub proof fn law_parsed_picture_comes_back(s: Seq<bool>, v: PictureView, p: int)
    requires
        picture::spec_picture(s) == Ok::<(PictureView, int), Error>((v, p)),
    ensures
        picture::picture_error(v) is None,
        picture::picture_codable(v),
        picture::spec_picture(bits::of_bytes(bits::pack(picture::picture_code(v)))) == Ok::<
            (PictureView, int),
            Error,
        >((v, picture::picture_code(v).len() as int)),
{
    power2::lemma2_to64();
    lemma_field_bound(s, 0, 4);
    lemma_field_bound(s, 4, 4);
    lemma_field_bound(s, 8, 4);
    let count = bitio::field(s, 8, 4) as nat + 1;
    lemma_transforms(s, 12, count, Seq::empty());
    let (ts, p1) = picture::spec_transforms(s, 12, count, Seq::empty())->Ok_0;
    lemma_geometry(s, p1);
    let (g, p2) = picture::spec_geometry(s, p1)->Ok_0;
    assert(picture::spec_colour(s, p2) matches Ok((c, p3)) && p2 <= p3 && (
    c matches ColourView::Custom(m) ==> m.len() == 12)) by {
        reveal(picture::spec_colour);
    }
    let (c, p3) = picture::spec_colour(s, p2)->Ok_0;
    lemma_coding(s, p3, v.stream_profile_idc, v.decoder_profile_id, ts, g, c);
    picture::law_picture_round_trip(v);
}

proof fn lemma_coding(
    s: Seq<bool>,
    pos: int,
    stream_profile_idc: u8,
    decoder_profile_id: u8,
    ts: Seq<OperatingPoint>,
    g: Geometry,
    c: ColourView,
)
    requires
        0 <= pos,
        64 <= g.width <= 65599,
        64 <= g.height <= 65599,
    ensures
        picture::spec_coding(
            s,
            pos,
            stream_profile_idc,
            decoder_profile_id,
            ts,
            g,
            c,
        ) matches Ok((v, p)) ==> {
            let (h, w) = (g.height as int, g.width as int);
            &&& v.stream_profile_idc == stream_profile_idc
            &&& v.decoder_profile_id == decoder_profile_id
            &&& v.synthesis_transforms == ts
            &&& v.geometry == g
            &&& v.colour_transform == c
            &&& v.model_id < 16
            &&& picture::thread_count_ok(v.num_threads_z)
            &&& picture::displacement_ok(v.beta.0) && picture::displacement_ok(v.beta.1)
            &&& v.regions matches Some(r) ==> picture::regions_codable(r, h, w)
            &&& picture::component_error(v.luma, h, w, 0) is None
            &&& picture::component_error(v.chroma, h, w, 1) is None
            &&& v.quality_map matches Some(q) ==> picture::thread_count_ok(q.num_threads)
                && q.entropy_index < 8
        },
{
    power2::lemma2_to64();
    let (h, w) = (g.height as int, g.width as int);
    picture::lemma_cube_flag_count(h, w, 0);
    picture::lemma_cube_flag_count(h, w, 1);
    if pos + 4 <= s.len() {
        lemma_field_bound(s, pos, 4);
    }
    lemma_threads(s, pos + 4);
    if let Ok((n, p1)) = picture::spec_threads(s, pos + 4) {
        if p1 + 12 <= s.len() {
            lemma_displacement(s, p1);
            lemma_regions(s, p1 + 12, h, w);
            if let Ok((r, p2)) = picture::spec_regions(s, p1 + 12, h, w) {
                lemma_beta1(s, p2, picture::displacement(s, p1));
                if let Ok((b, p3)) = picture::spec_beta1(s, p2, picture::displacement(s, p1)) {
                    lemma_component(s, p3, h, w, 0);
                    if let Ok((l, p4)) = picture::spec_component(s, p3, h, w, 0) {
                        lemma_component(s, p4, h, w, 1);
                        if let Ok((c, p5)) = picture::spec_component(s, p4, h, w, 1) {
                            lemma_quality_map(s, p5 + 1);
                        }
                    }
                }
            }
        }
    }
}

proof fn lemma_quality_map(s: Seq<bool>, pos: int)
    requires
        0 <= pos,
    ensures
        picture::spec_quality_map(s, pos) matches Ok((q, p)) ==> picture::thread_count_ok(
            q.num_threads,
        ) && q.entropy_index < 8,
{
    reveal(picture::spec_quality_map);
    power2::lemma2_to64();
    lemma_threads(s, pos);
    if let Ok((n, p)) = picture::spec_threads(s, pos) {
        if p + 3 <= s.len() {
            lemma_field_bound(s, p, 3);
        }
    }
}

proof fn lemma_linear_set(s: Seq<bool>, pos: int, coded_444: bool)
    ensures
        tools::spec_linear_set(s, pos, coded_444) matches Ok((v, p)) ==> tools::plane_codable(
            v.first,
        ) && tools::plane_codable(v.second),
{
    reveal(tools::spec_linear_set);
    reveal(tools::spec_weights);
}

proof fn lemma_icci_tiles(s: Seq<bool>, pos: int, count: nat, acc: Seq<IcciTileView>)
    requires
        forall|i: int| 0 <= i < acc.len() ==> tools::icci_tile_codable(#[trigger] acc[i]),
    ensures
        tools::spec_icci_tiles(s, pos, count, acc) matches Ok((v, p)) ==> forall|i: int|
            0 <= i < v.len() ==> tools::icci_tile_codable(#[trigger] v[i]),
    decreases count,
{
    if count > 0 {
        reveal(tools::spec_icci_tile);
        if let Ok((t, p)) = tools::spec_icci_tile(s, pos) {
            lemma_icci_tiles(s, p, (count - 1) as nat, acc.push(t));
        }
    }
}

proof fn lemma_icci(s: Seq<bool>, pos: int, height: int, width: int)
    ensures
        tools::spec_icci(s, pos, height, width) matches Ok((v, p)) ==> forall|i: int|
            0 <= i < v.tiles.len() ==> tools::icci_tile_codable(#[trigger] v.tiles[i]),
{
    reveal(tools::spec_icci);
    let tiling = picture::spec_tiling(s, pos + 1, "eICCI: tile size is zero");
    if let Ok((tiling, p)) = picture::flagged(s, pos, tiling) {
        if let Ok(count) = tools::spec_tile_count(height, width, tiling) {
            lemma_icci_tiles(s, p, count as nat, Seq::empty());
        }
    }
}

proof fn lemma_nonlinear(s: Seq<bool>, pos: int)
    ensures
        tools::spec_nonlinear(s, pos) matches Ok((v, p)) ==> tools::nonlinear_codable(v),
{
    reveal(tools::spec_nonlinear);
    reveal(tools::spec_masks);
    reveal(tools::spec_mask);
    reveal(tools::spec_nonlinear_tiles);
    reveal(tools::spec_weight_list);
}

/// Every tool header that parses is codable: where it can be written, it parses to itself when it
/// was. Where no flag is coded for them, it has no eICCI parameters.
pub proof fn law_parsed_tools_come_back(s: Seq<bool>, c: ToolContext, v: ToolView, p: int)
    requires
        tools::spec_tools(s, c) == Ok::<(ToolView, int), Error>((v, p)),
        0 <= c.height,
        0 <= c.width,
    ensures
        tools::tools_codable(v),
        !c.icci_coded ==> v.icci is None,
        tools::tools_error(v, c) is None ==> tools::spec_tools(
            bits::of_bytes(bits::pack(tools::tools_code(v, c))),
            c,
        ) == Ok::<(ToolView, int), Error>((v, tools::tools_code(v, c).len() as int)),
{
    let (l, p1) = picture::flagged(s, 2, tools::spec_linear(s, 3, c.coded_444))->Ok_0;
    assert(l matches Some(x) ==> tools::linear_codable(x)) by {
        reveal(tools::spec_linear);
        lemma_linear_set(s, 33, c.coded_444);
        if let Ok((u, q)) = tools::spec_linear_set(s, 33, c.coded_444) {
            lemma_linear_set(s, q, c.coded_444);
        }
    }
    lemma_icci(s, p1 + 1, c.height, c.width);
    let (i, p2) = tools::spec_icci_part(s, p1, c)->Ok_0;
    lemma_nonlinear(s, p2 + 1);
    if tools::tools_error(v, c) is None {
        tools::law_tools_round_trip(v, c);
    }
}

} // verus!

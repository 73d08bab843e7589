//! What headers say: how their bits are read, and what of a picture follows from them.

use vstd::prelude::*;
use vstd::arithmetic::power2;

use crate::bitio;
use crate::bits;
use crate::error::Error;
use crate::header::{OperatingPoint, SynthesisTiling};
use crate::header::picture;
use crate::header::picture::{ColourView, ComponentView, PictureView};
use crate::header::rendering;
use crate::header::rendering::RenderingView;
use crate::header::tools;
use crate::header::tools::{IcciTileView, NonlinearView, ToolContext};
use crate::laws::geometry;
use crate::laws::geometry::covers;

verus! {

/// The number that `n` bits from a position on spell, the most significant first.
pub open spec fn number(s: Seq<bool>, pos: int, n: int) -> int
    decreases n,
{
    if n <= 0 {
        0
    } else {
        2 * number(s, pos, n - 1) + if s[pos + n - 1] {
            1int
        } else {
            0
        }
    }
}

/// A field holds the number that its bits spell.
pub proof fn law_fields_are_spelt(s: Seq<bool>, pos: int, n: nat)
    requires
        0 <= pos,
        pos + n <= s.len(),
        n <= 32,
    ensures
        bitio::field(s, pos, n) == number(s, pos, n as int),
        0 <= number(s, pos, n as int) < power2::pow2(n),
{
    lemma_number(s, pos, n);
    bits::lemma_value_bound(s.subrange(pos, pos + n));
    power2::lemma2_to64();
    if n < 32 {
        power2::lemma_pow2_strictly_increases(n, 32);
    }
}

proof fn lemma_number(s: Seq<bool>, pos: int, n: nat)
    requires
        0 <= pos,
        pos + n <= s.len(),
    ensures
        bits::value(s.subrange(pos, pos + n)) == number(s, pos, n as int),
    decreases n,
{
    let part = s.subrange(pos, pos + n);
    if n > 0 {
        lemma_number(s, pos, (n - 1) as nat);
        assert(part.drop_last() =~= s.subrange(pos, pos + (n - 1)));
        assert(part.last() == s[pos + n - 1]);
    }
}

/// A number is written with the digits that spell it, and the bits of bytes spell the bytes.
pub proof fn law_bits_spell_numbers(v: nat, n: nat, bytes: Seq<u8>, i: int)
    requires
        n <= 32,
        v < power2::pow2(n),
        0 <= i < bytes.len(),
    ensures
        bits::low_bits(v, n).len() == n,
        number(bits::low_bits(v, n), 0, n as int) == v,
        bits::of_bytes(bytes).len() == 8 * bytes.len(),
        number(bits::of_bytes(bytes), 8 * i, 8) == bytes[i],
{
    let low = bits::low_bits(v, n);
    assert(low.subrange(0, n as int) =~= low);
    lemma_number(low, 0, n);
    bits::lemma_value_of_low_bits(v, n);
    assert(v % power2::pow2(n) == v) by {
        vstd::arithmetic::div_mod::lemma_small_mod(v, power2::pow2(n));
    }
    let all = bits::of_bytes(bytes);
    assert(all.subrange(0, all.len() as int) =~= all);
    bitio::lemma_byte_at(all, 0, bytes, i);
    law_fields_are_spelt(all, 8 * i, 8);
}

/// Signed codes alternate: the odd ones are the positive numbers, the even ones the others.
pub proof fn law_signed_codes_alternate(k: nat)
    ensures
        bitio::signed_of(2 * k) == -(k as int),
        bitio::signed_of(2 * k + 1) == k + 1,
        bitio::unsigned_of(-(k as int)) == 2 * k,
        bitio::unsigned_of((k + 1) as int) == 2 * k + 1,
{
}

/// An Exp-Golomb code without a zero in front is a single bit and stands for 0; with `k` zeros it
/// stands for what the `k` bits behind its first one spell, past the codes with fewer.
pub proof fn law_golomb_codes(s: Seq<bool>, pos: int, k: nat)
    requires
        0 <= pos,
        k <= 32,
        pos + 2 * k + 1 <= s.len(),
        forall|i: int| pos <= i < pos + k ==> !#[trigger] s[i],
        s[pos + k],
    ensures
        bitio::spec_ue(s, pos) == Ok::<(u64, int), Error>(
            (
                (power2::pow2(k) - 1 + number(s, pos + k + 1, k as int)) as u64,
                pos + 2 * k + 1,
            ),
        ),
{
    lemma_golomb_prefix(s, pos, 0, k);
    lemma_number(s, pos + k + 1, k);
}

proof fn lemma_golomb_prefix(s: Seq<bool>, pos: int, done: nat, left: nat)
    requires
        0 <= pos,
        done + left <= 32,
        pos + left < s.len(),
        forall|i: int| pos <= i < pos + left ==> !#[trigger] s[i],
        s[pos + left],
    ensures
        bitio::spec_ue_prefix(s, pos, done) == Ok::<(nat, int), Error>(
            (done + left, pos + left + 1),
        ),
    decreases left,
{
    if left > 0 {
        assert(!s[pos]);
        lemma_golomb_prefix(s, pos + 1, done + 1, (left - 1) as nat);
    }
}

/// A number of `w` digits lies between two powers of two: its width is the least that holds it.
pub proof fn law_widths_are_least(m: nat)
    ensures
        m < power2::pow2(bitio::bit_width(m)),
        m > 0 ==> bitio::bit_width(m) >= 1 && power2::pow2((bitio::bit_width(m) - 1) as nat) <= m,
        m == 0 ==> bitio::bit_width(m) == 0,
{
    bitio::lemma_bit_width(m);
}

/// The latents of a picture: one for each 16 luma samples along a side in both components, the
/// chroma component being half as large and divided by 8; hyper latents for each 64; and cube flags
/// for each 16 by 16 latents, four a cube.
pub proof fn law_latents_cover_the_picture(height: int, width: int)
    requires
        1 <= height,
        1 <= width,
    ensures
        ({
            let (h, w) = picture::spec_component_size(height, width, 0);
            let (ch, cw) = picture::spec_component_size(height, width, 1);
            let (lh, lw) = picture::spec_latent_size(height, width, 0);
            let (kh, kw) = picture::spec_latent_size(height, width, 1);
            let (zh, zw) = picture::spec_hyper_latent_size(height, width, 0);
            let (yh, yw) = picture::spec_hyper_latent_size(height, width, 1);
            &&& h == height && w == width
            &&& covers(ch, 2, height) && covers(cw, 2, width)
            &&& covers(lh, 16, height) && covers(lw, 16, width)
            &&& kh == lh && kw == lw
            &&& covers(zh, 64, height) && covers(zw, 64, width)
            &&& yh == zh && yw == zw
        }),
{
}

/// A component has four cube flags for each 16 by 16 of its latents.
pub proof fn law_cube_flags_cover_the_latents(height: int, width: int, ccs: int, r: int, c: int)
    requires
        1 <= height,
        1 <= width,
        0 <= ccs <= 1,
        covers(r, 256, height),
        covers(c, 256, width),
    ensures
        picture::spec_cube_flag_count(height, width, ccs) == 4 * (r * c),
{
    let (lh, lw) = picture::spec_latent_size(height, width, ccs);
    assert(covers(lh, 16, height) && covers(lw, 16, width)) by {
        law_latents_cover_the_picture(height, width);
    }
    assert(picture::ceil_of(picture::ceil_of(lh, 2), 8) == r);
    assert(picture::ceil_of(picture::ceil_of(lw, 2), 8) == c);
}

/// A quotient rounded up is the least number of whole parts that cover the whole.
pub proof fn law_header_quotients_are_rounded_up(a: int, b: int)
    requires
        0 <= a,
        0 < b,
    ensures
        covers(picture::ceil_of(a, b), b, a),
{
    geometry::law_quotients_are_rounded_up(a, b);
}

/// Luma has 160 latent channels and chroma 96; a header's count is cut to that.
pub proof fn law_channel_counts(s: Seq<bool>, pos: int)
    requires
        0 <= pos,
        pos + 8 <= s.len(),
    ensures
        picture::latent_channels(0) == 160,
        picture::latent_channels(1) == 96,
        number(s, pos, 8) <= 160 ==> picture::channels_at(s, pos, 0) == number(s, pos, 8),
        number(s, pos, 8) > 160 ==> picture::channels_at(s, pos, 0) == 160,
        number(s, pos, 8) <= 96 ==> picture::channels_at(s, pos, 1) == number(s, pos, 8),
        number(s, pos, 8) > 96 ==> picture::channels_at(s, pos, 1) == 96,
{
    law_fields_are_spelt(s, pos, 8);
}

/// Operating points are numbered in their order, and a number names the one that has it.
pub proof fn law_operating_points_are_numbered(op: OperatingPoint, id: u32)
    ensures
        op.spec_id() == match op {
            OperatingPoint::Sop => 0int,
            OperatingPoint::Bop => 1,
            OperatingPoint::Hop => 2,
        },
        OperatingPoint::of_id(id) == Some(op) <==> op.spec_id() == id,
        OperatingPoint::of_id(id) is None <==> id > 2,
{
}

/// The picture's level, size and sampling are read from fixed places: sides count from 64, depths
/// are 8 or 10 bits, and the coded chroma factors are read only along an axis that the source does
/// not subsample.
pub proof fn law_geometry_is_read_in_place(s: Seq<bool>, p: int)
    requires
        0 <= p,
        p + 59 <= s.len(),
    ensures
        picture::spec_geometry(s, p) is Ok <==> number(s, p + 52, 3) <= 1,
        picture::spec_geometry(s, p) matches Ok((g, end)) ==> {
            &&& g.level_idc == number(s, p, 8)
            &&& g.width == 64 + number(s, p + 8, 16)
            &&& g.height == 64 + number(s, p + 24, 16)
            &&& g.diff_display_width == number(s, p + 40, 6)
            &&& g.diff_display_height == number(s, p + 46, 6)
            &&& g.bit_depth == 8 + 2 * number(s, p + 52, 3)
            &&& g.s_ver == 2 <==> s[p + 55]
            &&& g.s_hor == 2 <==> s[p + 56]
            &&& s[p + 55] ==> g.c_ver == 2
            &&& s[p + 56] ==> g.c_hor == 2
            &&& !s[p + 55] ==> (g.c_ver == 2 <==> s[p + 57])
            &&& !s[p + 55] && !s[p + 56] ==> (g.c_hor == 2 <==> s[p + 58]) && end == p + 59
            &&& s[p + 55] && !s[p + 56] ==> (g.c_hor == 2 <==> s[p + 57]) && end == p + 58
            &&& !s[p + 55] && s[p + 56] ==> end == p + 58
            &&& s[p + 55] && s[p + 56] ==> end == p + 57
            &&& 1 <= g.s_ver <= 2 && 1 <= g.s_hor <= 2 && 1 <= g.c_ver <= 2 && 1 <= g.c_hor <= 2
        },
{
    reveal(picture::spec_geometry);
    power2::lemma2_to64();
    law_fields_are_spelt(s, p, 8);
    law_fields_are_spelt(s, p + 8, 16);
    law_fields_are_spelt(s, p + 24, 16);
    law_fields_are_spelt(s, p + 40, 6);
    law_fields_are_spelt(s, p + 46, 6);
    law_fields_are_spelt(s, p + 52, 3);
}

/// The colour transform: two bits name it, and a custom one has twelve bytes behind them.
pub proof fn law_colour_is_read_in_place(s: Seq<bool>, p: int, i: int)
    requires
        0 <= p,
        p + 98 <= s.len(),
        0 <= i < 12,
    ensures
        ({
            let r = picture::spec_colour(s, p);
            let id = number(s, p, 2);
            &&& id == 0 ==> r == Ok::<(ColourView, int), Error>((ColourView::Plain, p + 2))
            &&& id == 1 ==> r == Ok::<(ColourView, int), Error>((ColourView::Bt709, p + 2))
            &&& id == 3 ==> r is Err && r->Err_0 is InvalidData
            &&& id == 2 ==> (r matches Ok((ColourView::Custom(m), end)) && m.len() == 12 && m[i]
                == number(s, p + 2 + 8 * i, 8) && end == p + 98)
        }),
{
    reveal(picture::spec_colour);
    power2::lemma2_to64();
    law_fields_are_spelt(s, p, 2);
    law_fields_are_spelt(s, p + 2 + 8 * i, 8);
}

/// A thread count is one, or twice two to the power of two bits.
pub proof fn law_threads_are_powers_of_two(s: Seq<bool>, p: int)
    requires
        0 <= p,
        p + 3 <= s.len(),
    ensures
        ({
            let r = picture::spec_threads(s, p);
            &&& r is Ok
            &&& !s[p] ==> r->Ok_0 == (1u8, p + 1)
            &&& s[p] ==> r->Ok_0.0 == 2 * power2::pow2(number(s, p + 1, 2) as nat) && r->Ok_0.1
                == p + 3
        }),
        forall|n: u8| #[trigger]
            picture::thread_count_ok(n) <==> n == 1 || n == 2 || n == 4 || n == 8 || n == 16,
{
    reveal(picture::spec_threads);
    power2::lemma2_to64();
    law_fields_are_spelt(s, p + 1, 2);
}

/// Regions: a flag, the rows and columns less one, and the overlaps where the regions are not
/// independent. There are at most a row for each 256 and a column for each 512 samples.
pub proof fn law_regions_are_read_in_place(s: Seq<bool>, p: int, height: int, width: int)
    requires
        0 <= p,
        p + 22 <= s.len(),
        1 <= height,
        1 <= width,
    ensures
        ({
            let r = picture::spec_regions(s, p, height, width);
            let (ver, hor) = (number(s, p + 1, 7) + 1, number(s, p + 8, 7) + 1);
            let allowed = ver * 256 - 256 < height && hor * 512 - 512 < width;
            &&& !s[p] ==> r == Ok::<(Option<crate::header::Regions>, int), Error>((None, p + 1))
            &&& s[p] && !allowed ==> r is Err
            &&& s[p] && allowed ==> {
                &&& r matches Ok((Some(g), end))
                &&& g.num_ver == ver && g.num_hor == hor
                &&& g.independent == s[p + 15]
                &&& g.independent ==> g.hyper_decoder_overlap == 0 && g.mcm_overlap == 0 && end == p
                    + 16
                &&& !g.independent ==> g.hyper_decoder_overlap == number(s, p + 16, 2)
                    && g.mcm_overlap == number(s, p + 18, 4) && end == p + 22
            }
        }),
{
    reveal(picture::spec_regions);
    power2::lemma2_to64();
    law_fields_are_spelt(s, p + 1, 7);
    law_fields_are_spelt(s, p + 8, 7);
    law_fields_are_spelt(s, p + 16, 2);
    law_fields_are_spelt(s, p + 18, 4);
}

/// Displacements are twelve bits, from -2048 on; chroma has luma's unless a flag gives it its own.
pub proof fn law_displacements_are_read_in_place(s: Seq<bool>, p: int, beta0: i32)
    requires
        0 <= p,
        p + 13 <= s.len(),
    ensures
        picture::displacement(s, p) == number(s, p, 12) - 2048,
        !s[p] ==> picture::spec_beta1(s, p, beta0) == Ok::<(i32, int), Error>((beta0, p + 1)),
        s[p] ==> (picture::spec_beta1(s, p, beta0) matches Ok((b, end)) && b == number(
            s,
            p + 1,
            12,
        ) - 2048 && end == p + 13),
{
    reveal(picture::spec_beta1);
    power2::lemma2_to64();
    law_fields_are_spelt(s, p, 12);
    law_fields_are_spelt(s, p + 1, 12);
}

/// A tiling is a size and an overlap in units of 16 samples; a size of zero is refused.
pub proof fn law_tilings_are_read_in_place(s: Seq<bool>, p: int, zero: &'static str)
    requires
        0 <= p,
        p + 13 <= s.len(),
    ensures
        number(s, p, 8) == 0 ==> picture::spec_tiling(s, p, zero) == Err::<
            (SynthesisTiling, int),
            Error,
        >(Error::InvalidData(zero)),
        number(s, p, 8) != 0 ==> (picture::spec_tiling(s, p, zero) matches Ok((t, end))
            && t.tile_size == 16 * number(s, p, 8) && t.overlap == 16 * number(s, p + 8, 5) && end
            == p + 13),
{
    reveal(picture::spec_tiling);
    power2::lemma2_to64();
    law_fields_are_spelt(s, p, 8);
    law_fields_are_spelt(s, p + 8, 5);
}

/// Cube flags come in groups of eight behind a bit: a group whose bit is off is all set, any other
/// is read as it stands.
pub proof fn law_cube_flags_in_groups(s: Seq<bool>, p: int, count: nat, acc: Seq<bool>)
    requires
        0 <= p,
        p + 9 <= s.len(),
        acc.len() + 8 <= count,
    ensures
        !s[p] ==> picture::spec_cube_flags(s, p, count, acc) == picture::spec_cube_flags(
            s,
            p + 1,
            count,
            acc + seq![true, true, true, true, true, true, true, true],
        ),
        s[p] ==> picture::spec_cube_flags(s, p, count, acc) == picture::spec_cube_flags(
            s,
            p + 9,
            count,
            acc + s.subrange(p + 1, p + 9),
        ),
        picture::spec_cube_flags(s, p, acc.len(), acc) == Ok::<(Seq<bool>, int), Error>((acc, p)),
{
    assert(picture::all_set(8) =~= seq![true, true, true, true, true, true, true, true]);
}

/// A component starts with its threads and its channels; then come the cube flags behind a bit, the
/// bit of variance scaling, the gain flags behind a bit, one a channel, and the tiling behind a bit.
pub proof fn law_components_are_read_in_order(
    s: Seq<bool>,
    p: int,
    height: int,
    width: int,
    ccs: int,
    c: ComponentView,
    end: int,
)
    requires
        0 <= p,
        picture::spec_component(s, p, height, width, ccs) == Ok::<(ComponentView, int), Error>(
            (c, end),
        ),
        c.cube_flags is None,
    ensures
        ({
            let q = p + if s[p] {
                3int
            } else {
                1
            };
            let n = c.num_chs as int;
            let t = q + 11 + if c.grfs_channel_flags is Some {
                n
            } else {
                0
            };
            &&& picture::spec_threads(s, p) == Ok::<(u8, int), Error>((c.num_threads_r, q))
            &&& c.num_chs == picture::channels_at(s, q, ccs)
            &&& !s[q + 8]
            &&& c.rvs_enabled == s[q + 9]
            &&& c.grfs_channel_flags is Some <==> s[q + 10]
            &&& c.grfs_channel_flags matches Some(f) ==> f == s.subrange(q + 11, q + 11 + n)
            &&& c.synthesis_tiling is Some <==> s[t]
            &&& c.synthesis_tiling is None ==> end == t + 1
            &&& c.synthesis_tiling is Some ==> end == t + 14
        }),
{
    reveal(picture::spec_component);
    reveal(picture::spec_threads);
    reveal(picture::spec_tiling);
}

/// A picture header starts with its two profiles and the number of its transforms less one, four
/// bits each; then come the transforms, four bits each, the geometry, the colour transform and the
/// model, four bits.
pub proof fn law_picture_headers_are_read_in_order(s: Seq<bool>, v: PictureView, end: int)
    requires
        picture::spec_picture(s) == Ok::<(PictureView, int), Error>((v, end)),
    ensures
        v.stream_profile_idc == number(s, 0, 4),
        v.decoder_profile_id == number(s, 4, 4),
        v.synthesis_transforms.len() == number(s, 8, 4) + 1,
        ({
            let p = 12 + 4 * v.synthesis_transforms.len() as int;
            &&& picture::spec_geometry(s, p) matches Ok((g, q))
            &&& g == v.geometry
            &&& picture::spec_colour(s, q) matches Ok((c, t))
            &&& c == v.colour_transform
            &&& v.model_id == bitio::field(s, t, 4) as u8
        }),
{
    power2::lemma2_to64();
    law_fields_are_spelt(s, 0, 4);
    law_fields_are_spelt(s, 4, 4);
    law_fields_are_spelt(s, 8, 4);
    lemma_transforms(s, 12, (bitio::field(s, 8, 4) + 1) as nat, Seq::empty(), 0);
}

/// Transforms are read one after the other, four bits each.
pub proof fn lemma_transforms(
    s: Seq<bool>,
    pos: int,
    count: nat,
    acc: Seq<OperatingPoint>,
    i: int,
)
    requires
        0 <= pos,
    ensures
        picture::spec_transforms(s, pos, count, acc) matches Ok((ts, end)) ==> {
            &&& ts.len() == acc.len() + count && end == pos + 4 * count && (count > 0 ==> end
                <= s.len())
            &&& forall|k: int| 0 <= k < acc.len() ==> #[trigger] ts[k] == acc[k]
            &&& 0 <= i < count ==> OperatingPoint::of_id(bitio::field(s, pos + 4 * i, 4)) == Some(
                ts[acc.len() + i],
            )
        },
    decreases count,
{
    if count > 0 && pos + 4 <= s.len() {
        match OperatingPoint::of_id(bitio::field(s, pos, 4)) {
            Some(op) => {
                let next = acc.push(op);
                lemma_transforms(s, pos + 4, (count - 1) as nat, next, i - 1);
                if let Ok((ts, end)) = picture::spec_transforms(s, pos, count, acc) {
                    assert(forall|k: int| 0 <= k < acc.len() ==> next[k] == acc[k]);
                    assert(ts[acc.len() as int] == next[acc.len() as int]);
                }
            },
            None => {},
        }
    }
}

/// The transforms of a stream are listed in the order of their numbers in the header.
pub proof fn law_transforms_are_read_in_order(s: Seq<bool>, v: PictureView, end: int, i: int)
    requires
        picture::spec_picture(s) == Ok::<(PictureView, int), Error>((v, end)),
        0 <= i < v.synthesis_transforms.len(),
    ensures
        v.synthesis_transforms[i].spec_id() == number(s, 12 + 4 * i, 4),
{
    power2::lemma2_to64();
    let n = (bitio::field(s, 8, 4) + 1) as nat;
    lemma_transforms(s, 12, n, Seq::empty(), 0);
    lemma_transforms(s, 12, n, Seq::empty(), i);
    law_fields_are_spelt(s, 12 + 4 * i, 4);
}

/// A header conforms if and only if its profile is known and has its first transform, its size
/// level is known and holds the picture, and its model level is known and has its model.
pub proof fn law_conforming_headers(v: PictureView)
    ensures
        ({
            let g = v.geometry;
            let (size, models) = (g.level_idc as int / 10, g.level_idc as int % 10);
            let most = if size == 1 {
                3840 * 1620int
            } else if size == 2 {
                7680 * 3240int
            } else if size == 3 {
                15360 * 6480int
            } else if size == 4 {
                15360 * 6480 + 50_284_800int
            } else {
                30720 * 12960int
            };
            picture::conformance_error(v) is None <==> {
                &&& v.stream_profile_idc == 0 && v.decoder_profile_id <= 2
                &&& v.synthesis_transforms.len() > 0
                &&& match v.synthesis_transforms[0] {
                    OperatingPoint::Sop => true,
                    OperatingPoint::Bop => v.decoder_profile_id != 0,
                    OperatingPoint::Hop => v.decoder_profile_id == 2,
                }
                &&& 1 <= size <= 5 && g.width * g.height <= most
                &&& models == 0 ==> v.model_id == 2
                &&& models == 1 ==> v.model_id == 2 || v.model_id == 3
                &&& models == 2 ==> v.model_id <= 3
                &&& models <= 2
            }
        }),
        picture::conformance_error(v) matches Some(e) ==> e is NonConforming,
{
}

/// A header can be written if and only if each of its fields holds what it has to say.
pub proof fn law_written_headers(v: PictureView)
    ensures
        picture::picture_error(v) is None <==> {
            let g = v.geometry;
            &&& 1 <= v.synthesis_transforms.len() <= 16
            &&& 64 <= g.width < 64 + 0x1_0000 && 64 <= g.height < 64 + 0x1_0000
            &&& g.diff_display_width < 64 && g.diff_display_height < 64
            &&& g.bit_depth == 8 || g.bit_depth == 10 || g.bit_depth == 12 || g.bit_depth == 14
                || g.bit_depth == 16
            &&& picture::thread_count_ok(v.num_threads_z)
            &&& -2048 <= v.beta.0 < 2048 && -2048 <= v.beta.1 < 2048
            &&& picture::component_error(v.luma, g.height as int, g.width as int, 0) is None
            &&& picture::component_error(v.chroma, g.height as int, g.width as int, 1) is None
            &&& v.quality_map matches Some(q) ==> picture::thread_count_ok(q.num_threads)
        },
        picture::picture_error(v) matches Some(e) ==> e is InvalidArgument,
{
}

/// A component header can be written if and only if its threads are a count that is coded, its
/// channels are at most those of the component, and it has as many flags as it needs.
pub proof fn law_written_components(c: ComponentView, height: int, width: int, ccs: int)
    ensures
        picture::component_error(c, height, width, ccs) is None <==> {
            &&& picture::thread_count_ok(c.num_threads_r)
            &&& c.num_chs <= picture::latent_channels(ccs)
            &&& c.cube_flags matches Some(f) ==> f.len() == picture::spec_cube_flag_count(
                height,
                width,
                ccs,
            )
            &&& c.grfs_channel_flags matches Some(f) ==> f.len() == c.num_chs
            &&& c.synthesis_tiling matches Some(t) ==> {
                &&& t.tile_size as int % 16 == 0 && t.overlap as int % 16 == 0
                &&& 16 <= t.tile_size < 4096 && t.overlap < 512
            }
        },
        picture::component_error(c, height, width, ccs) matches Some(e) ==> e is InvalidArgument,
{
}

/// A bit depth's index counts the even depths from 8 on.
pub proof fn law_depths_are_indexed(depth: u8)
    ensures
        picture::depth_index(depth) is Some <==> 8 <= depth <= 16 && depth as int % 2 == 0,
        picture::depth_index(depth) matches Some(i) ==> depth == 8 + 2 * i,
{
}

/// The candidate of a plane is one less than its four bits say, and none where they are zero.
pub proof fn law_candidates_count_from_one(v: u32, c: u8)
    requires
        v < 16,
        c < 15,
    ensures
        tools::cand_of(0) is None,
        v > 0 ==> (tools::cand_of(v) matches Some(k) && k + 1 == v),
        tools::cand_value(None) == 0,
        tools::cand_value(Some(c)) == c + 1,
{
}

/// A candidate has as many filters as regions.
pub proof fn law_candidates_have_a_filter_a_region(cand: u8)
    requires
        cand < 8,
    ensures
        tools::splits_of(cand) == tools::EFE_LINEAR_SPLITS@[cand as int],
        tools::EFE_LINEAR_SPLITS@[cand as int] == match cand {
            0 => 1int,
            1 => 2,
            2 => 2,
            3 => 3,
            4 => 3,
            5 => 4,
            6 => 6,
            _ => 6,
        },
{
}

/// A chroma filter has a tap for each place, for each phase of a picture that is not coded at full
/// chroma resolution.
pub proof fn law_chroma_filters_have_a_tap_a_place(len: u8)
    ensures
        tools::chroma_taps(len, true) == len * len,
        tools::chroma_taps(len, false) == len * len + len * len + len * len + len * len,
{
    assert(0 <= len * len) by (nonlinear_arith);
}

/// A filtered plane has a length of 1 to 4, in four bits.
pub proof fn law_filter_lengths_are_read_in_place(s: Seq<bool>, p: int, cand: u8)
    requires
        0 <= p,
        p + 4 <= s.len(),
    ensures
        tools::spec_filter_len(s, p, None) == Ok::<(u8, int), Error>((0, p)),
        cand >= 8 ==> tools::spec_filter_len(s, p, Some(cand)) is Err,
        cand < 8 ==> (tools::spec_filter_len(s, p, Some(cand)) is Ok <==> 1 <= number(s, p, 4)
            <= 4),
        tools::spec_filter_len(s, p, Some(cand)) matches Ok((n, end)) ==> n == number(s, p, 4)
            && end == p + 4,
{
    power2::lemma2_to64();
    law_fields_are_spelt(s, p, 4);
}

/// Symbols stand one after the other, each as wide as the largest.
pub proof fn law_symbols_are_read_in_order(s: Seq<bool>, p: int, n: nat, max: nat, w: int, i: int)
    requires
        0 <= p,
        max <= u32::MAX,
        w == bitio::bit_width(max),
        0 <= i < n,
    ensures
        tools::spec_symbols(s, p, n, max) is Ok <==> p + n * w <= s.len(),
        tools::spec_symbols(s, p, n, max) matches Ok((v, end)) ==> {
            &&& v.len() == n && end == p + n * w
            &&& v[i] == number(s, p + i * w, w)
        },
{
    if p + n * w <= s.len() {
        bitio::lemma_width_u32(max);
        assert(0 <= i * w && i * w + w <= n * w) by (nonlinear_arith)
            requires
                0 <= i <= n - 1,
                0 <= w,
        ;
        law_fields_are_spelt(s, p + i * w, w as nat);
    }
}

/// A tile of the eICCI filter has a flag a plane, and where one is set a list flag and the indices of
/// the planes that are: two bits below 2 in a short list, four below 10 in the bank. U and V share
/// one.
pub proof fn law_network_choices_are_read_in_order(s: Seq<bool>, p: int, t: IcciTileView, end: int)
    requires
        0 <= p,
        tools::spec_icci_tile(s, p) == Ok::<(IcciTileView, int), Error>((t, end)),
    ensures
        t.y == s[p] && t.u == s[p + 1] && t.v == s[p + 2],
        !t.y && !t.u && !t.v ==> !t.short_list && end == p + 3,
        ({
            let w = if t.short_list {
                2int
            } else {
                4
            };
            let uv = t.u || t.v;
            let q = p + 4 + if t.y {
                w
            } else {
                0
            };
            &&& t.y || uv ==> t.short_list == s[p + 3] && end == q + if uv {
                w
            } else {
                0
            }
            &&& t.y ==> t.index_y == number(s, p + 4, w)
            &&& uv ==> t.index_uv == number(s, q, w)
            &&& !t.y ==> t.index_y == 0
            &&& !uv ==> t.index_uv == 0
            &&& t.short_list ==> t.index_y < 2 && t.index_uv < 2
            &&& t.index_y < 10 && t.index_uv < 10
        }),
{
    reveal(tools::spec_icci_tile);
    power2::lemma2_to64();
    let w = tools::index_width(t.short_list);
    let q = p + 4 + if t.y {
        w
    } else {
        0
    };
    if t.y {
        law_fields_are_spelt(s, p + 4, w);
    }
    if t.u || t.v {
        law_fields_are_spelt(s, q, w);
    }
}

/// The eICCI filter has one set of choices a tile: one without a tiling, else one for each step of a
/// tile less its overlap along both sides.
pub proof fn law_filter_tile_counts(height: int, width: int, t: SynthesisTiling, r: int, c: int)
    requires
        t.overlap < t.tile_size,
        t.overlap < height,
        t.overlap < width,
        ({
            let tile = |len: int|
                if t.tile_size < len {
                    t.tile_size as int
                } else {
                    len
                };
            &&& covers(r, tile(height) - t.overlap, height - t.overlap)
            &&& covers(c, tile(width) - t.overlap, width - t.overlap)
        }),
    ensures
        tools::spec_tile_count(height, width, None) == Ok::<int, Error>(1),
        tools::spec_tile_count(height, width, Some(t)) == Ok::<int, Error>(r * c),
{
    let tile = |len: int|
        if t.tile_size < len {
            t.tile_size as int
        } else {
            len
        };
    let (a, b) = (tile(height) - t.overlap, tile(width) - t.overlap);
    law_header_quotients_are_rounded_up(height - t.overlap, a);
    law_header_quotients_are_rounded_up(width - t.overlap, b);
    geometry::lemma_covers_once(
        r,
        picture::ceil_of(height - t.overlap, a),
        a,
        height - t.overlap,
    );
    geometry::lemma_covers_once(c, picture::ceil_of(width - t.overlap, b), b, width - t.overlap);
}

/// A tiling whose tiles are no larger than their overlap is refused.
pub proof fn law_overlapping_tiles_are_refused(height: int, width: int, t: SynthesisTiling)
    ensures
        t.tile_size <= t.overlap || height <= t.overlap || width <= t.overlap
            ==> tools::spec_tile_count(height, width, Some(t)) is Err,
{
}

/// The context of a tool header follows from the picture's formats and its size.
pub proof fn law_tool_context(v: PictureView)
    ensures
        ({
            let (c, g) = (tools::context_of_view(v), v.geometry);
            &&& c.coded_444 <==> g.c_ver == g.s_ver && g.c_hor == g.s_hor
            &&& !c.icci_coded <==> g.s_ver != 1 && g.s_hor != 1
            &&& c.height == g.height && c.width == g.width
        }),
{
}

/// A tool header has a scaling bit a component and then each filter behind a bit of its own, in the
/// order in which they run; the eICCI filter's is missing where the source is 4:2:0.
pub proof fn law_tools_are_read_in_order(s: Seq<bool>, c: ToolContext)
    requires
        5 <= s.len(),
        !s[2],
    ensures
        tools::spec_tools(s, c) matches Ok((t, end)) ==> {
            &&& t.lsbs_enabled.0 == s[0] && t.lsbs_enabled.1 == s[1]
            &&& t.efe_linear is None
            &&& c.icci_coded ==> (t.icci is Some <==> s[3])
            &&& !c.icci_coded ==> t.icci is None && (t.efe_nonlinear is Some <==> s[3])
            &&& c.icci_coded && !s[3] ==> (t.efe_nonlinear is Some <==> s[4])
            &&& !c.icci_coded && !s[3] ==> (t.lef_channel is Some <==> s[4])
            &&& c.icci_coded && !s[3] && !s[4] ==> (t.lef_channel is Some <==> s[5])
            &&& c.icci_coded && !s[3] && !s[4] && s[5] ==> t.lef_channel == Some(
                bitio::field(s, 6, 8) as u8,
            )
        },
{
}

/// Rendering information starts with four presence bits and four zero bits; what is present follows
/// in their order.
pub proof fn law_rendering_is_read_in_order(s: Seq<bool>, v: RenderingView, end: int)
    requires
        rendering::spec_rendering(s) == Ok::<(RenderingView, int), Error>((v, end)),
    ensures
        v.cicp is Some <==> s[0],
        v.mdcv is Some <==> s[1],
        v.clli is Some <==> s[2],
        v.display_mapping is Some <==> s[3],
        number(s, 4, 4) == 0,
        ({
            let p = 8 + if s[0] {
                32int
            } else {
                0
            };
            let q = p + if s[1] {
                192int
            } else {
                0
            };
            let t = q + if s[2] {
                32int
            } else {
                0
            };
            &&& v.cicp matches Some(c) ==> {
                &&& c.colour_primaries == number(s, 8, 8)
                &&& c.transfer_characteristics == number(s, 16, 8)
                &&& c.matrix_coefficients == number(s, 24, 8)
                &&& c.full_range == s[32]
                &&& c.chroma420_sample_loc_type == number(s, 33, 3)
            }
            &&& v.mdcv matches Some(m) ==> {
                &&& m.primaries.len() == 3
                &&& m.primaries[0].0 == number(s, p, 16) && m.primaries[0].1 == number(s, p + 16, 16)
                &&& m.white_point.0 == number(s, p + 96, 16) && m.white_point.1 == number(
                    s,
                    p + 112,
                    16,
                )
                &&& m.max_luminance == number(s, p + 128, 32)
                &&& m.min_luminance == number(s, p + 160, 32)
            }
            &&& v.clli matches Some(c) ==> {
                &&& c.max_content_light_level == number(s, q, 16)
                &&& c.max_frame_average_light_level == number(s, q + 16, 16)
            }
            &&& v.display_mapping matches Some(d) ==> {
                &&& d.0 == number(s, t, 8)
                &&& d.1.len() == number(s, t + 8, 16)
                &&& end == t + 24 + 8 * d.1.len()
            }
            &&& v.display_mapping is None ==> end == t
        }),
{
    reveal(rendering::spec_cicp);
    reveal(rendering::spec_mdcv);
    reveal(rendering::spec_clli);
    reveal(rendering::spec_display_mapping);
    power2::lemma2_to64();
    law_fields_are_spelt(s, 4, 4);
    let p = 8 + if s[0] {
        32int
    } else {
        0
    };
    let q = p + if s[1] {
        192int
    } else {
        0
    };
    let t = q + if s[2] {
        32int
    } else {
        0
    };
    if s[0] {
        law_fields_are_spelt(s, 8, 8);
        law_fields_are_spelt(s, 16, 8);
        law_fields_are_spelt(s, 24, 8);
        law_fields_are_spelt(s, 33, 3);
    }
    if s[1] {
        law_fields_are_spelt(s, p, 16);
        law_fields_are_spelt(s, p + 16, 16);
        law_fields_are_spelt(s, p + 96, 16);
        law_fields_are_spelt(s, p + 112, 16);
        law_fields_are_spelt(s, p + 128, 32);
        law_fields_are_spelt(s, p + 160, 32);
    }
    if s[2] {
        law_fields_are_spelt(s, q, 16);
        law_fields_are_spelt(s, q + 16, 16);
    }
    if s[3] {
        law_fields_are_spelt(s, t, 8);
        law_fields_are_spelt(s, t + 8, 16);
    }
}

/// Rendering information can be written if and only if its sample position fits three bits and its
/// mapping data are counted in sixteen.
pub proof fn law_written_rendering(v: RenderingView)
    ensures
        rendering::rendering_error(v) is None <==> {
            &&& v.cicp matches Some(c) ==> c.chroma420_sample_loc_type < 8
            &&& v.display_mapping matches Some(d) ==> d.1.len() < 0x1_0000
        },
        rendering::rendering_error(v) matches Some(e) ==> e is InvalidArgument,
{
}

/// A non-linear filter can be written if and only if its masks have their geometry and a value of at
/// most 2 a block, its luma ranges go in pairs, and its weights are at most the largest symbol.
pub proof fn law_written_masks_and_weights(v: NonlinearView)
    requires
        v.nonlinear is None,
    ensures
        tools::nonlinear_error(v) is None <==> {
            let masked = v.masks.0 is Some || v.masks.1 is Some;
            masked ==> {
                &&& v.mask_geometry matches Some((bs, rows, cols))
                &&& bs < 1024 && rows < 1024 && cols < 1024
                &&& v.masks.0 matches Some(m) ==> m.len() == rows * cols && forall|i: int|
                    0 <= i < m.len() ==> #[trigger] m[i] <= 2
                &&& v.masks.1 matches Some(m) ==> m.len() == rows * cols && forall|i: int|
                    0 <= i < m.len() ==> #[trigger] m[i] <= 2
            }
        },
{
    if let Some(g) = v.mask_geometry {
        assert(0 <= g.1 * g.2) by (nonlinear_arith);
    }
}

} // verus!

//! Areas, planes, tiles and regions.

use vstd::prelude::*;
use vstd::arithmetic::div_mod;

use crate::area::Area;
use crate::decoder::synthesis;
use crate::encoder::grid;
use crate::encoder::tiles;
use crate::encoder::tiles::{AnalysisTile, TilePlan};
use crate::error::Error;
use crate::header::PictureHeader;
use crate::laws::entropy::at;
use crate::planes;
use crate::planes::PlaneSize;
use crate::regions;
use crate::tensor;
use crate::tensor::Tensor;

verus! {

/// A quotient rounded up is the least number of whole parts that cover the whole.
pub proof fn law_quotients_are_rounded_up(a: int, b: int)
    requires
        0 <= a,
        0 < b,
    ensures
        tiles::ceil(a, b) * b - b < a <= tiles::ceil(a, b) * b,
{
    let q = tiles::ceil(a, b);
    div_mod::lemma_fundamental_div_mod(a + b - 1, b);
    div_mod::lemma_mod_bound(a + b - 1, b);
    assert(b * q == q * b) by (nonlinear_arith);
}

/// Samples lie row by row and channel by channel: the next column is one place on, the next row a
/// row's samples, the next channel a plane's.
pub proof fn law_samples_lie_in_raster_order(h: int, w: int, c: int, y: int, x: int)
    ensures
        tensor::place(h, w, 0, 0, 0) == 0,
        tensor::place(h, w, c, y, x + 1) == tensor::place(h, w, c, y, x) + 1,
        tensor::place(h, w, c, y + 1, x) == tensor::place(h, w, c, y, x) + w,
        tensor::place(h, w, c + 1, y, x) == tensor::place(h, w, c, y, x) + h * w,
{
    assert((0 * h + 0) * w + 0 == 0) by (nonlinear_arith);
    assert((c * h + (y + 1)) * w == (c * h + y) * w + w) by (nonlinear_arith);
    assert(((c + 1) * h + y) * w == (c * h + y) * w + h * w) by (nonlinear_arith);
}

/// A clipped area starts where it did and holds what of it lies on the grid.
pub proof fn law_clipped_areas(a: Area, h: int, w: int, x: int, y: int)
    requires
        0 <= h,
        0 <= w,
    ensures
        ({
            let c = a.clipped(h, w);
            &&& c.x == a.x && c.y == a.y
            &&& c.x <= x < c.x + c.width <==> a.x <= x < a.x + a.width && x < w
            &&& c.y <= y < c.y + c.height <==> a.y <= y < a.y + a.height && y < h
        }),
{
}

/// A number of whole parts covers a length, and one part less does not.
pub open spec fn covers(n: int, part: int, len: int) -> bool {
    n * part - part < len <= n * part
}

/// What of a tile's core lies in the tile and on the planes is copied, sample by sample; every other
/// sample of the planes is left as it was.
pub proof fn law_cores_are_copied<T>(
    data: Seq<T>,
    n: int,
    h: int,
    w: int,
    core: Area,
    src: Tensor<T>,
    offset: (usize, usize),
    c: int,
    y: int,
    x: int,
)
    requires
        data.len() == n * h * w,
        0 <= c < n,
        0 <= y < h,
        0 <= x < w,
    ensures
        ({
            let out = planes::assigned_to(data, h, w, core, src, offset);
            let (dy, dx) = (y - core.y, x - core.x);
            &&& out.len() == data.len()
            &&& out[at(h, w, c, y, x)] == if c < src.c && 0 <= dy < core.height && 0 <= dx
                < core.width && dy + offset.1 < src.h && dx + offset.0 < src.w {
                src.data@[at(src.h as int, src.w as int, c, dy + offset.1, dx + offset.0)]
            } else {
                data[at(h, w, c, y, x)]
            }
        }),
{
    tensor::lemma_place(h, w, n, c, y, x);
    tensor::lemma_place_parts(h, w, c, y, x);
}

/// A sub-sampled plane takes every `sv`-th row and `sh`-th column of the picture: those of a tile's
/// core from the tile, and no others.
pub proof fn law_planes_are_subsampled<T>(
    dst: Tensor<T>,
    src: Tensor<T>,
    plane: int,
    core: Area,
    offset: (usize, usize),
    sv: int,
    sh: int,
    y: int,
    x: int,
)
    requires
        dst.is_of(1, dst.h as int, dst.w as int),
        0 <= y < dst.h,
        0 <= x < dst.w,
    ensures
        ({
            let out = planes::subsampled(dst, src, plane, core, offset, sv, sh);
            let (dy, dx) = (y * sv - core.y, x * sh - core.x);
            &&& out.len() == dst.data@.len()
            &&& out[y * dst.w + x] == if 0 <= dy < core.height && 0 <= dx < core.width {
                src.data@[at(src.h as int, src.w as int, plane, dy + offset.1, dx + offset.0)]
            } else {
                dst.data@[y * dst.w + x]
            }
        }),
{
    let (h, w) = (dst.h as int, dst.w as int);
    tensor::lemma_place(h, w, 1, 0, y, x);
    tensor::lemma_place_parts(h, w, 0, y, x);
    assert(0 * h + y == y);
}

/// A padded plane keeps its samples and repeats the last row and column.
pub proof fn law_padding_repeats_the_border<T>(
    src: Seq<T>,
    w: int,
    h: int,
    pw: int,
    ph: int,
    y: int,
    x: int,
)
    requires
        0 <= y < ph,
        0 <= x < pw,
        1 <= w,
        1 <= h,
    ensures
        ({
            let out = planes::padded(src, w, h, pw, ph);
            &&& out.len() == ph * pw
            &&& y < h && x < w ==> out[y * pw + x] == src[y * w + x]
            &&& y >= h && x < w ==> out[y * pw + x] == src[(h - 1) * w + x]
            &&& y < h && x >= w ==> out[y * pw + x] == src[y * w + w - 1]
            &&& y >= h && x >= w ==> out[y * pw + x] == src[(h - 1) * w + w - 1]
        }),
{
    tensor::lemma_place(ph, pw, 1, 0, y, x);
    tensor::lemma_place_parts(ph, pw, 0, y, x);
    assert(0 * ph + y == y);
    assert(1 * ph == ph);
}

/// Unshuffling puts the sample of row `2 y + dy` and column `2 x + dx` into row `y` and column `x`
/// of the phase `2 dy + dx`, and leaves every channel outside the four phases as it was.
pub proof fn law_phases_are_unshuffled<T>(
    out: Tensor<T>,
    base: int,
    plane: Seq<T>,
    pw: int,
    c: int,
    y: int,
    x: int,
)
    requires
        out.wf(),
        0 <= c < out.c,
        0 <= y < out.h,
        0 <= x < out.w,
    ensures
        ({
            let after = planes::unshuffled(out, base, plane, pw);
            let p = at(out.h as int, out.w as int, c, y, x);
            &&& after.len() == out.data@.len()
            &&& forall|dy: int, dx: int|
                0 <= dy <= 1 && 0 <= dx <= 1 && c == base + 2 * dy + dx ==> after[p]
                    == #[trigger] plane[(2 * y + dy) * pw + (2 * x + dx)]
            &&& c < base || c >= base + 4 ==> after[p] == out.data@[p]
        }),
{
    tensor::lemma_place(out.h as int, out.w as int, out.c as int, c, y, x);
    tensor::lemma_place_parts(out.h as int, out.w as int, c, y, x);
}

/// Where a hyper-latent covers an axis in parts of twice the divider, the hyper-decoder gives the
/// number of parts of the divider itself: it crops what the last part has too many.
pub proof fn law_hyper_decoder_covers_the_axis(z: int, len: int, divider: int)
    requires
        0 <= len,
        1 <= divider,
        covers(z, 2 * divider, len),
    ensures
        regions::spec_psi_len(z, len, divider) matches Some(n) && covers(n, divider, len),
{
    law_quotients_are_rounded_up(len, divider);
    law_quotients_are_rounded_up(len, 2 * divider);
    lemma_covers_once(z, tiles::ceil(len, 2 * divider), 2 * divider, len);
    let n = tiles::ceil(len, divider);
    assert(n >= 0) by (nonlinear_arith)
        requires
            n * divider >= len,
            len >= 0,
            divider >= 1,
    ;
}

pub proof fn lemma_covers_once(a: int, b: int, part: int, len: int)
    requires
        1 <= part,
        covers(a, part, len),
        covers(b, part, len),
    ensures
        a == b,
{
    assert(a == b) by (nonlinear_arith)
        requires
            1 <= part,
            a * part - part < len <= a * part,
            b * part - part < len <= b * part,
    ;
}

/// The hyper-decoder's output covers a region's picture area in parts of 32 samples, for luma and
/// for chroma, where the hyper-latent area covers it in parts of 64.
pub proof fn law_psi_covers_the_region(image: Area, hyper: Area, ccs: int)
    requires
        covers(hyper.height as int, 64, image.height as int),
        covers(hyper.width as int, 64, image.width as int),
    ensures
        regions::spec_psi_size(image, hyper, ccs) matches Some((h, w)) && covers(
            h,
            32,
            image.height as int,
        ) && covers(w, 32, image.width as int),
{
    let (h, w) = (image.height as int, image.width as int);
    if ccs == 0 {
        law_hyper_decoder_covers_the_axis(hyper.height as int, h, 32);
        law_hyper_decoder_covers_the_axis(hyper.width as int, w, 32);
    } else {
        law_quotients_are_rounded_up(h, 2);
        law_quotients_are_rounded_up(w, 2);
        assert(covers(hyper.height as int, 32, tiles::ceil(h, 2)));
        assert(covers(hyper.width as int, 32, tiles::ceil(w, 2)));
        assert(2 * 16 == 32);
        law_hyper_decoder_covers_the_axis(hyper.height as int, tiles::ceil(h, 2), 16);
        law_hyper_decoder_covers_the_axis(hyper.width as int, tiles::ceil(w, 2), 16);
    }
}

/// A region keeps its latents but for one row or column on each side where another region follows:
/// none at the borders of the picture, and none at all where regions are merged whole.
pub proof fn law_regions_drop_what_faces_another(
    latent: Area,
    image: Area,
    pic_h: int,
    pic_w: int,
    whole: bool,
    x: int,
    y: int,
)
    requires
        latent.x < usize::MAX,
        latent.y < usize::MAX,
    ensures
        regions::spec_region_core(latent, image, pic_h, pic_w, whole) matches Some((core, offset))
            ==> {
            &&& core.x == latent.x + offset.0 && core.y == latent.y + offset.1
            &&& core.x <= x < core.x + core.width <==> {
                &&& latent.x <= x < latent.x + latent.width
                &&& !(!whole && image.x > 0 && x == latent.x)
                &&& !(!whole && image.x + image.width < pic_w && x == latent.x + latent.width - 1)
            }
            &&& core.y <= y < core.y + core.height <==> {
                &&& latent.y <= y < latent.y + latent.height
                &&& !(!whole && image.y > 0 && y == latent.y)
                &&& !(!whole && image.y + image.height < pic_h && y == latent.y + latent.height - 1)
            }
        },
        regions::spec_region_core(latent, image, pic_h, pic_w, whole) is None ==> !whole && (
        latent.width < 2 || latent.height < 2),
{
}

/// A cube is eight samples of a phase, which is sixteen of the latent, along either axis.
pub proof fn law_cubes_cover_the_axis(len: int)
    requires
        0 <= len,
    ensures
        covers(regions::cubes_along(len), 16, len),
{
}

/// Two latent samples share a cube flag if and only if they are of the same phase and lie in the
/// same block of sixteen by sixteen.
pub proof fn law_cubes_hold_a_phase_of_a_block(
    h: int,
    w: int,
    y: int,
    x: int,
    v: int,
    u: int,
)
    requires
        0 <= y < h,
        0 <= x < w,
        0 <= v < h,
        0 <= u < w,
    ensures
        ({
            let (ch, cw) = (regions::cubes_along(h), regions::cubes_along(w));
            &&& regions::cube_of(y, x, ch, cw) == at(ch, cw, 2 * (y % 2) + x % 2, y / 16, x / 16)
            &&& 0 <= regions::cube_of(y, x, ch, cw) < 4 * ch * cw
            &&& regions::cube_of(y, x, ch, cw) == regions::cube_of(v, u, ch, cw) <==> y % 2 == v % 2
                && x % 2 == u % 2 && y / 16 == v / 16 && x / 16 == u / 16
        }),
{
    let (ch, cw) = (regions::cubes_along(h), regions::cubes_along(w));
    assert(y / 2 / 8 == y / 16 && x / 2 / 8 == x / 16 && v / 2 / 8 == v / 16 && u / 2 / 8 == u
        / 16);
    assert(0 <= y / 16 < ch && 0 <= x / 16 < cw && 0 <= v / 16 < ch && 0 <= u / 16 < cw);
    tensor::lemma_place(ch, cw, 4, 2 * (y % 2) + x % 2, y / 16, x / 16);
    tensor::lemma_place_parts(ch, cw, 2 * (y % 2) + x % 2, y / 16, x / 16);
    tensor::lemma_place_parts(ch, cw, 2 * (v % 2) + u % 2, v / 16, u / 16);
}

/// Where the header carries cube flags, a sample is coded if the threshold lets it through or the
/// flag of its cube is off; where it carries none, the threshold alone decides.
pub proof fn law_cubes_widen_the_mask(mask: Tensor<bool>, flags: Seq<bool>, c: int, y: int, x: int)
    requires
        mask.wf(),
        0 <= c < mask.c,
        0 <= y < mask.h,
        0 <= x < mask.w,
    ensures
        ({
            let (h, w) = (mask.h as int, mask.w as int);
            let p = at(h, w, c, y, x);
            let f = at(
                regions::cubes_along(h),
                regions::cubes_along(w),
                2 * (y % 2) + x % 2,
                y / 16,
                x / 16,
            );
            &&& regions::spec_coded_mask(mask, Some(flags)).len() == mask.data@.len()
            &&& regions::spec_coded_mask(mask, Some(flags))[p] <==> mask.data@[p] || !flags[f]
            &&& regions::spec_coded_mask(mask, None) == mask.data@
        }),
{
    let (h, w) = (mask.h as int, mask.w as int);
    tensor::lemma_place(h, w, mask.c as int, c, y, x);
    tensor::lemma_place_parts(h, w, c, y, x);
    law_cubes_hold_a_phase_of_a_block(h, w, y, x, y, x);
}

/// A cube's flag is on if and only if no sample of it strays, in any channel.
pub proof fn law_flags_guard_strays(strays: Tensor<bool>, y: int, x: int)
    requires
        strays.wf(),
        0 <= y < strays.h,
        0 <= x < strays.w,
    ensures
        ({
            let (h, w) = (strays.h as int, strays.w as int);
            let f = regions::cube_of(y, x, regions::cubes_along(h), regions::cubes_along(w));
            regions::flag_for(
                strays.data@,
                strays.c as int,
                h,
                w,
                strays.data@.len() as int,
                f,
            ) <==> forall|c: int, v: int, u: int|
                0 <= c < strays.c && 0 <= v < h && 0 <= u < w && v % 2 == y % 2 && u % 2 == x % 2
                    && v / 16 == y / 16 && u / 16 == x / 16 ==> !strays.data@[#[trigger] at(
                    h,
                    w,
                    c,
                    v,
                    u,
                )]
        }),
{
    let (h, w, n) = (strays.h as int, strays.w as int, strays.data@.len() as int);
    let (ch, cw) = (regions::cubes_along(h), regions::cubes_along(w));
    let f = regions::cube_of(y, x, ch, cw);
    if regions::flag_for(strays.data@, strays.c as int, h, w, n, f) {
        assert forall|c: int, v: int, u: int|
            0 <= c < strays.c && 0 <= v < h && 0 <= u < w && v % 2 == y % 2 && u % 2 == x % 2 && v
                / 16 == y / 16 && u / 16 == x / 16 implies !strays.data@[#[trigger] at(
            h,
            w,
            c,
            v,
            u,
        )] by {
            tensor::lemma_place(h, w, strays.c as int, c, v, u);
            tensor::lemma_place_parts(h, w, c, v, u);
            law_cubes_hold_a_phase_of_a_block(h, w, y, x, v, u);
            assert(!strays.data@[at(h, w, c, v, u)]);
        }
    }
    if forall|c: int, v: int, u: int|
        0 <= c < strays.c && 0 <= v < h && 0 <= u < w && v % 2 == y % 2 && u % 2 == x % 2 && v / 16
            == y / 16 && u / 16 == x / 16 ==> !strays.data@[#[trigger] at(h, w, c, v, u)] {
        assert forall|p: int|
            0 <= p < n && regions::cube_of(p / w % h, p % w, ch, cw) == f implies
            !#[trigger] strays.data@[p] by {
            tensor::lemma_parts_place(h, w, strays.c as int, p);
            let (c, v, u) = (p / w / h, p / w % h, p % w);
            law_cubes_hold_a_phase_of_a_block(h, w, y, x, v, u);
            assert(!strays.data@[at(h, w, c, v, u)]);
        }
    }
}

/// All regions along an axis but the last have the same length, which is the largest multiple of 128
/// of which as many as there are regions fit the blocks of 128 samples that cover the axis.
pub proof fn law_regions_are_even(size: int, n: int, i: int, blocks: int)
    requires
        1 <= n <= blocks,
        0 <= i,
        i + 1 < n,
        0 <= size,
        covers(blocks, 128, size),
    ensures
        ({
            let len = regions::cut_at(size, n, i + 1) - regions::cut_at(size, n, i);
            &&& len == regions::cut_at(size, n, 1) - regions::cut_at(size, n, 0)
            &&& len % 128 == 0
            &&& n * (len / 128) <= blocks < n * (len / 128 + 1)
        }),
        regions::cut_at(size, n, 0) == 0,
        regions::cut_at(size, n, n) == size,
{
    law_quotients_are_rounded_up(size, 128);
    lemma_covers_once(blocks, tiles::ceil(size, 128), 128, size);
    let q = blocks / n;
    let len = q * 128;
    assert((i + 1) * len == i * len + len) by (nonlinear_arith);
    assert(0 * len == 0 && 1 * len == len);
    div_mod::lemma_fundamental_div_mod(blocks, n);
    div_mod::lemma_mod_bound(blocks, n);
    assert(n * (q + 1) == n * q + n) by (nonlinear_arith);
}

/// Regions are numbered row by row, and lie between the cuts of their row and of their column.
pub proof fn law_regions_row_by_row(h: int, w: int, num_ver: int, num_hor: int, i: int, j: int)
    requires
        0 <= i < num_ver,
        0 <= j < num_hor,
    ensures
        ({
            let g = regions::spec_area_grid(h, w, num_ver, num_hor);
            let a = g[i * num_hor + j];
            &&& g.len() == num_ver * num_hor
            &&& a.x == regions::cut_at(w, num_hor, j) as usize
            &&& a.y == regions::cut_at(h, num_ver, i) as usize
            &&& a.width == (regions::cut_at(w, num_hor, j + 1) - regions::cut_at(w, num_hor, j)) as usize
            &&& a.height == (regions::cut_at(h, num_ver, i + 1) - regions::cut_at(
                h,
                num_ver,
                i,
            )) as usize
        }),
{
    tensor::lemma_place(1, num_hor, num_ver, i, 0, j);
    assert(i * 1 == i && num_ver * 1 == num_ver);
    div_mod::lemma_fundamental_div_mod_converse(i * num_hor + j, num_hor, i, j);
}

/// The cubes of a region start at the first block of sixteen at or behind the region's corner and
/// cover its size.
pub proof fn law_cube_areas(tile: Area)
    ensures
        ({
            let a = regions::spec_cube_area(tile);
            &&& covers(a.x as int, 16, tile.x as int)
            &&& covers(a.y as int, 16, tile.y as int)
            &&& covers(a.width as int, 16, tile.width as int)
            &&& covers(a.height as int, 16, tile.height as int)
        }),
{
}

/// Cube flags are carried, as they are, if and only if one of them is off.
pub proof fn law_flags_are_carried_where_one_is_off(flags: Seq<bool>)
    ensures
        regions::spec_signalled(flags) == Some(flags) <==> exists|i: int|
            0 <= i < flags.len() && !#[trigger] flags[i],
        regions::spec_signalled(flags) is None <==> forall|i: int|
            0 <= i < flags.len() ==> #[trigger] flags[i],
{
}

/// What is coded of a residual keeps its value, and all else is zero.
pub proof fn law_residual_is_cut_to_the_mask(residual: Seq<i16>, mask: Seq<bool>, i: int)
    requires
        0 <= i < residual.len(),
    ensures
        regions::spec_coded_only(residual, mask).len() == residual.len(),
        mask[i] ==> regions::spec_coded_only(residual, mask)[i] == residual[i],
        !mask[i] ==> regions::spec_coded_only(residual, mask)[i] == 0,
{
}

/// A region's result lies where its latents do: after a merge, a sample that the last region keeps
/// is that of the region at its place in it, and one that it does not keep is as the regions before
/// left it.
pub proof fn law_regions_are_merged_in_place<T>(
    data: Seq<T>,
    c_num: int,
    h: int,
    w: int,
    parts: Seq<Tensor<T>>,
    latents: Seq<Area>,
    images: Seq<Area>,
    pic: (int, int),
    whole: bool,
    n: int,
    c: int,
    y: int,
    x: int,
)
    requires
        data.len() == c_num * h * w,
        1 <= n <= parts.len(),
        parts[n - 1].is_of(c_num, latents[n - 1].height as int, latents[n - 1].width as int),
        latents[n - 1].x < usize::MAX,
        latents[n - 1].y < usize::MAX,
        0 <= c < c_num,
        0 <= y < h,
        0 <= x < w,
    ensures
        regions::spec_merged(data, h, w, parts, latents, images, pic, whole, 0) == Ok::<
            Seq<T>,
            Error,
        >(data),
        match regions::spec_merged(data, h, w, parts, latents, images, pic, whole, n - 1) {
            Err(e) => regions::spec_merged(data, h, w, parts, latents, images, pic, whole, n)
                == Err::<Seq<T>, Error>(e),
            Ok(before) => match regions::spec_region_core(
                latents[n - 1],
                images[n - 1],
                pic.0,
                pic.1,
                whole,
            ) {
                None => regions::spec_merged(data, h, w, parts, latents, images, pic, whole, n)
                    is Err,
                Some((core, offset)) => {
                    let a = latents[n - 1];
                    &&& regions::spec_merged(data, h, w, parts, latents, images, pic, whole, n)
                        matches Ok(after)
                    &&& after.len() == data.len()
                    &&& after[at(h, w, c, y, x)] == if core.x <= x < core.x + core.width && core.y
                        <= y < core.y + core.height {
                        parts[n - 1].data@[at(
                            a.height as int,
                            a.width as int,
                            c,
                            y - a.y,
                            x - a.x,
                        )]
                    } else {
                        before[at(h, w, c, y, x)]
                    }
                },
            },
        },
{
    lemma_merged_len(data, h, w, parts, latents, images, pic, whole, n - 1);
    if let Ok(before) = regions::spec_merged(
        data,
        h,
        w,
        parts,
        latents,
        images,
        pic,
        whole,
        n - 1,
    ) {
        if let Some((core, offset)) = regions::spec_region_core(
            latents[n - 1],
            images[n - 1],
            pic.0,
            pic.1,
            whole,
        ) {
            law_cores_are_copied(before, c_num, h, w, core, parts[n - 1], offset, c, y, x);
        }
    }
}

proof fn lemma_merged_len<T>(
    data: Seq<T>,
    h: int,
    w: int,
    parts: Seq<Tensor<T>>,
    latents: Seq<Area>,
    images: Seq<Area>,
    pic: (int, int),
    whole: bool,
    n: int,
)
    ensures
        regions::spec_merged(data, h, w, parts, latents, images, pic, whole, n) matches Ok(after)
            ==> after.len() == data.len(),
    decreases n,
{
    if n > 0 {
        lemma_merged_len(data, h, w, parts, latents, images, pic, whole, n - 1);
    }
}

/// Regions are merged whole when decoding if and only if the header says that they are coded on
/// their own.
pub proof fn law_independent_regions(hdr: PictureHeader)
    ensures
        hdr.regions is None ==> !regions::spec_independent(hdr),
        hdr.regions matches Some(r) ==> regions::spec_independent(hdr) == r.independent,
{
}

/// The output has the displayed size, and the chroma planes cover it in parts of the coded factors.
pub proof fn law_output_has_the_displayed_size(hdr: PictureHeader)
    requires
        hdr.diff_display_height <= hdr.height,
        hdr.diff_display_width <= hdr.width,
        1 <= hdr.c_ver,
        1 <= hdr.c_hor,
    ensures
        ({
            let o = synthesis::size_of(hdr);
            &&& o.height + hdr.diff_display_height == hdr.height
            &&& o.width + hdr.diff_display_width == hdr.width
            &&& covers(o.chroma_height as int, hdr.c_ver as int, o.height as int)
            &&& covers(o.chroma_width as int, hdr.c_hor as int, o.width as int)
        }),
{
    let (h, w) = (hdr.height - hdr.diff_display_height, hdr.width - hdr.diff_display_width);
    law_quotients_are_rounded_up(h, hdr.c_ver as int);
    law_quotients_are_rounded_up(w, hdr.c_hor as int);
    lemma_cover_small(tiles::ceil(h, hdr.c_ver as int), hdr.c_ver as int, h);
    lemma_cover_small(tiles::ceil(w, hdr.c_hor as int), hdr.c_hor as int, w);
}

proof fn lemma_cover_small(n: int, part: int, len: int)
    requires
        1 <= part,
        0 <= len,
        covers(n, part, len),
    ensures
        0 <= n <= len,
{
    assert(0 <= n <= len) by (nonlinear_arith)
        requires
            1 <= part,
            0 <= len,
            n * part - part < len <= n * part,
    ;
}

/// A picture can be synthesised if and only if both components are tiled alike, their latents have
/// one size, and neither chroma factor is zero.
pub proof fn law_synthesis_needs_matching_components(
    hdr: PictureHeader,
    luma: PlaneSize,
    chroma: PlaneSize,
)
    ensures
        synthesis::synthesis_error(
            hdr.components@[0].synthesis_tiling,
            hdr.components@[1].synthesis_tiling,
            luma,
            chroma,
            hdr.c_ver,
            hdr.c_hor,
        ) is None <==> {
            &&& hdr.components@[0].synthesis_tiling == hdr.components@[1].synthesis_tiling
            &&& luma.h == chroma.h && luma.w == chroma.w
            &&& hdr.c_ver > 0 && hdr.c_hor > 0
        },
        synthesis::holds_core(luma, Area { x: 0, y: 0, width: luma.w, height: luma.h }, (0, 0)),
{
}

/// A plane is cut into tiles only where it has more samples than one: 1024 a side for luma, half of
/// that for chroma, and one tile else.
pub proof fn law_planes_are_tiled_where_they_are_large(ccs: int, h: int, w: int)
    requires
        ccs == 0 || ccs == 1,
    ensures
        match tiles::spec_tile_size(ccs, h, w) {
            Some(side) => h * w > side * side && side == 1024 - 512 * ccs,
            None => h * w <= (1024 - 512 * ccs) * (1024 - 512 * ccs),
        },
{
    assert(1024 * 1024 == 1_048_576 && 512 * 512 == 262_144);
}

/// The latents and hyper-latents of a plane cover it: in parts of 16 and 64 samples for luma, and
/// of 8 and 32 for the chroma planes, which are half the picture a side, rounded up.
pub proof fn law_planes_and_their_latents(width: int, height: int, ccs: int)
    requires
        0 <= width < usize::MAX,
        0 <= height < usize::MAX,
        ccs == 0 || ccs == 1,
    ensures
        ({
            let p = grid::spec_planes(width, height, ccs);
            let f = 1 + ccs;
            &&& p.ccs == ccs
            &&& covers(p.h as int, f, height) && covers(p.w as int, f, width)
            &&& covers(p.lh as int, 16 - 8 * ccs, p.h as int) && covers(
                p.lw as int,
                16 - 8 * ccs,
                p.w as int,
            )
            &&& covers(p.hz as int, 64 - 32 * ccs, p.h as int) && covers(
                p.wz as int,
                64 - 32 * ccs,
                p.w as int,
            )
        }),
{
    let (h, w) = (grid::plane_side(height, ccs), grid::plane_side(width, ccs));
    let (d, z) = (16 - 8 * ccs, 64 - 32 * ccs);
    law_quotients_are_rounded_up(height, 2);
    law_quotients_are_rounded_up(width, 2);
    assert(covers(h, 1 + ccs, height) && covers(w, 1 + ccs, width)) by {
        assert(h * 1 == h && w * 1 == w);
    }
    lemma_cover_small(h, 1 + ccs, height);
    lemma_cover_small(w, 1 + ccs, width);
    law_quotients_are_rounded_up(h, d);
    law_quotients_are_rounded_up(w, d);
    law_quotients_are_rounded_up(h, z);
    law_quotients_are_rounded_up(w, z);
    lemma_cover_small(tiles::ceil(h, d), d, h);
    lemma_cover_small(tiles::ceil(w, d), d, w);
    lemma_cover_small(tiles::ceil(h, z), z, h);
    lemma_cover_small(tiles::ceil(w, z), z, w);
}

/// A tile's latents and hyper-latents cover its part of the plane from the point on that its corner
/// falls on; the latents that are kept leave out two on each side where another tile follows, the
/// hyper-latents none.
pub proof fn law_tiles_keep_their_cores(p: TilePlan, image: Area, t: AnalysisTile)
    requires
        p.ccs < 2,
        image.x + image.width < usize::MAX,
        image.y + image.height < usize::MAX,
        tiles::spec_tile(p, image) == Ok::<AnalysisTile, Error>(t),
    ensures
        ({
            let (d, z) = (16 - 8 * p.ccs, 64 - 32 * p.ccs);
            let left: int = if image.x == 0 {
                0
            } else {
                2
            };
            let top: int = if image.y == 0 {
                0
            } else {
                2
            };
            let right: int = if image.x + image.width >= p.w {
                0
            } else {
                2
            };
            let bottom: int = if image.y + image.height >= p.h {
                0
            } else {
                2
            };
            &&& t.image == image
            &&& t.latent.x == image.x as int / d && t.latent.y == image.y as int / d
            &&& covers(t.latent.width as int, d, image.width as int)
            &&& covers(t.latent.height as int, d, image.height as int)
            &&& t.hyper.x == image.x as int / z && t.hyper.y == image.y as int / z
            &&& covers(t.hyper.width as int, z, image.width as int)
            &&& covers(t.hyper.height as int, z, image.height as int)
            &&& t.latent_core_offset == (left as usize, top as usize)
            &&& t.latent_core.x == t.latent.x + left && t.latent_core.y == t.latent.y + top
            &&& t.latent_core.width == t.latent.width - left - right
            &&& t.latent_core.height == t.latent.height - top - bottom
            &&& t.hyper_core == t.hyper && t.hyper_core_offset == (0usize, 0usize)
        }),
{
    let ccs = p.ccs as int;
    assert(tiles::latent_down(ccs) == 16 - 8 * p.ccs);
    assert(tiles::hyper_down(ccs) == 64 - 32 * p.ccs);
    assert(1 <= tiles::ceil(1, 16));
}

/// Tiles are laid out row by row. Each begins where its neighbour's overlap begins, of 64 samples for
/// luma and 32 for chroma, and reaches as far as the side of a tile or the plane does; there are
/// just as many as it takes to reach the border.
pub proof fn law_tiles_row_by_row(p: TilePlan, side: int, i: int, j: int)
    requires
        p.ccs < 2,
        64 < side,
        64 < p.h,
        64 < p.w,
        0 <= i,
        0 <= j,
    ensures
        ({
            let ov = 64 - 32 * p.ccs;
            let (th, tw) = (
                if side < p.h {
                    side
                } else {
                    p.h as int
                },
                if side < p.w {
                    side
                } else {
                    p.w as int
                },
            );
            let cols = tiles::tiles_along(p.w as int, ov, tw - ov);
            let rows = tiles::tiles_along(p.h as int, ov, th - ov);
            &&& covers(cols, tw - ov, p.w - ov) && covers(rows, th - ov, p.h - ov)
            &&& tiles::tile_count(p, side) == rows * cols
            &&& j < cols && i < rows ==> {
                let a = Area {
                    x: (j * (tw - ov)) as usize,
                    y: (i * (th - ov)) as usize,
                    width: (if tw < p.w - j * (tw - ov) {
                        tw
                    } else {
                        p.w - j * (tw - ov)
                    }) as usize,
                    height: (if th < p.h - i * (th - ov) {
                        th
                    } else {
                        p.h - i * (th - ov)
                    }) as usize,
                };
                tiles::nth_tile(p, side, i * cols + j) == tiles::spec_tile(p, a)
            }
        }),
{
    let ov = tiles::overlap_of(p.ccs as int);
    assert(ov == 64 - 32 * p.ccs);
    let (th, tw) = (tiles::lesser(side, p.h as int), tiles::lesser(side, p.w as int));
    law_quotients_are_rounded_up(p.w - ov, tw - ov);
    law_quotients_are_rounded_up(p.h - ov, th - ov);
    let cols = tiles::tiles_along(p.w as int, ov, tw - ov);
    if j < cols {
        div_mod::lemma_fundamental_div_mod_converse(i * cols + j, cols, i, j);
    }
}

/// A plane that is not tiled is one tile that is kept whole.
pub proof fn law_whole_planes(p: TilePlan)
    ensures
        ({
            let t = tiles::whole_tile(p);
            &&& t.image == (Area { x: 0, y: 0, width: p.w, height: p.h })
            &&& t.latent == (Area { x: 0, y: 0, width: p.lw, height: p.lh })
            &&& t.hyper == (Area { x: 0, y: 0, width: p.wz, height: p.hz })
            &&& t.latent_core == t.latent && t.hyper_core == t.hyper
            &&& t.latent_core_offset == (0usize, 0usize) && t.hyper_core_offset == (0usize, 0usize)
        }),
{
}

/// A stretch of whole grid steps covers that many points. Any other must reach the border, and then
/// covers the point that it begins as well.
pub proof fn law_stretches_are_aligned(pos: int, len: int, down: int, full: int, n: int)
    requires
        0 <= pos,
        0 <= len,
        1 <= down,
        covers(n, down, len),
    ensures
        n * down == len ==> tiles::spec_extent(pos, len, down, full) == Some(n),
        n * down != len && pos + len > full * down - down ==> tiles::spec_extent(
            pos,
            len,
            down,
            full,
        ) == Some(n),
        n * down != len && pos + len <= full * down - down ==> tiles::spec_extent(
            pos,
            len,
            down,
            full,
        ) is None,
{
    law_quotients_are_rounded_up(len, down);
    law_quotients_are_rounded_up(pos + len, down);
    lemma_covers_once(n, tiles::ceil(len, down), down, len);
    let m = tiles::ceil(pos + len, down);
    if n * down == len {
        div_mod::lemma_fundamental_div_mod_converse(len, down, n, 0);
    } else {
        assert((n - 1) * down == n * down - down) by (nonlinear_arith);
        div_mod::lemma_fundamental_div_mod_converse(len, down, n - 1, len - (n - 1) * down);
        if m < full {
            assert(m * down <= full * down - down) by (nonlinear_arith)
                requires
                    m <= full - 1,
                    1 <= down,
            ;
        } else {
            assert(m * down >= full * down) by (nonlinear_arith)
                requires
                    m >= full,
                    1 <= down,
            ;
        }
    }
}

} // verus!

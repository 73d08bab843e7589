//! Region geometry shared by both directions: what the hyper-decoder crops, what of a region is
//! kept, and the skip-mode cube flags.

use vstd::prelude::*;
use vstd::arithmetic::div_mod;

use crate::area::Area;
use crate::encoder::tiles;
use crate::error::{Error, Result};
use crate::header::PictureHeader;
use crate::planes;
use crate::tensor;
use crate::tensor::Tensor;

verus! {

/// Overlap of the hyper-decoder's and context model's tiles, in picture samples. It is not
/// signalled; with dependent regions it decides how much of each region's result is dropped
/// before merging: one latent sample per interior side.
pub const HD_MCM_TILE_OVERLAP: usize = 48;

/// Side of a skip-mode cube, in samples of a latent phase.
pub const CUBE_SIZE: usize = 8;

/// Rows or columns the hyper-decoder crops after its transposed convolution.
pub open spec fn spec_hyper_crop(len: int, divider: int) -> int {
    2 * tiles::ceil(len, 2 * divider) - tiles::ceil(len, divider)
}

/// Rows or columns the hyper-decoder crops after its transposed convolution; `divider` is 32 for
/// luma and 16 for chroma.
pub fn hyper_crop(len: usize, divider: usize) -> (n: usize)
    requires
        1 <= divider,
        2 * divider <= usize::MAX,
        len <= usize::MAX - 1,
    ensures
        n == spec_hyper_crop(len as int, divider as int),
        n <= 1,
{
    proof {
        law_hyper_crop(len as int, divider as int);
        lemma_ceil_half(len as int, 2 * divider);
    }
    2 * tiles::div_up(len, 2 * divider) - tiles::div_up(len, divider)
}

/// A quotient by two or more, rounded up, is at most about half.
proof fn lemma_ceil_half(len: int, d: int)
    requires
        0 <= len,
        2 <= d,
    ensures
        0 <= 2 * tiles::ceil(len, d) <= len + 1,
{
    let a = len + d - 1;
    let q = a / d;
    div_mod::lemma_fundamental_div_mod(a, d);
    div_mod::lemma_mod_bound(a, d);
    div_mod::lemma_div_pos_is_pos(a, d);
    assert(2 * q <= len + 1) by (nonlinear_arith)
        requires
            len + d - 1 == d * q + a % d,
            0 <= a % d,
            2 <= d,
            0 <= q,
            0 <= len,
    ;
}

/// The hyper-decoder crops at most one row or column.
pub proof fn law_hyper_crop(len: int, divider: int)
    requires
        0 <= len,
        1 <= divider,
    ensures
        0 <= spec_hyper_crop(len, divider) <= 1,
{
    let d = divider;
    let (a, b) = (len + 2 * d - 1, len + d - 1);
    let (p, q) = (a / (2 * d), b / d);
    div_mod::lemma_fundamental_div_mod(a, 2 * d);
    div_mod::lemma_mod_bound(a, 2 * d);
    div_mod::lemma_fundamental_div_mod(b, d);
    div_mod::lemma_mod_bound(b, d);
    let (r, s) = (a % (2 * d), b % d);
    assert(2 * d * p == d * (2 * p)) by (nonlinear_arith);
    assert(d * (2 * p - q) == d * (2 * p) - d * q) by (nonlinear_arith);
    let e = 2 * p - q;
    assert(d * e == d - r + s);
    assert(-1 < e < 2) by (nonlinear_arith)
        requires
            d * e == d - r + s,
            0 <= r < 2 * d,
            0 <= s < d,
            d >= 1,
    ;
}

/// Size that the hyper-decoder gives for `z` hyper-latent samples that stand for `len` samples.
pub open spec fn spec_psi_len(z: int, len: int, divider: int) -> Option<int> {
    let crop = spec_hyper_crop(len, divider);
    if 2 * z < crop {
        None
    } else {
        Some(2 * z - crop)
    }
}

fn psi_len(z: usize, len: usize, divider: usize) -> (r: Result<usize>)
    requires
        2 * z <= usize::MAX,
        1 <= divider,
        2 * divider <= usize::MAX,
        len <= usize::MAX - 1,
    ensures
        match spec_psi_len(z as int, len as int, divider as int) {
            Some(n) => r matches Ok(v) && v == n,
            None => r == Err::<usize, Error>(Error::InvalidData("region geometry")),
        },
{
    let crop: usize = hyper_crop(len, divider);
    if 2 * z < crop {
        return Err(Error::InvalidData("region geometry"));
    }
    Ok(2 * z - crop)
}

/// What the hyper-decoder is told: the image area's size for luma with divider 32, half of it for
/// chroma with divider 16.
pub open spec fn spec_psi_size(image: Area, hyper: Area, ccs: int) -> Option<(int, int)> {
    let (h, w, d) = if ccs == 0 {
        (image.height as int, image.width as int, 32int)
    } else {
        (tiles::ceil(image.height as int, 2), tiles::ceil(image.width as int, 2), 16)
    };
    match (
        spec_psi_len(hyper.height as int, h, d),
        spec_psi_len(hyper.width as int, w, d),
    ) {
        (Some(oh), Some(ow)) => Some((oh, ow)),
        _ => None,
    }
}

/// Size of the hyper-decoder's output for a region with an image area and a hyper-latent area:
/// `(height, width)`.
pub fn psi_size(image: Area, hyper: Area, ccs: usize) -> (r: Result<(usize, usize)>)
    requires
        2 * hyper.height <= usize::MAX,
        2 * hyper.width <= usize::MAX,
        image.height <= usize::MAX - 1,
        image.width <= usize::MAX - 1,
    ensures
        match spec_psi_size(image, hyper, ccs as int) {
            Some(v) => r matches Ok(x) && (x.0 as int, x.1 as int) == v,
            None => r == Err::<(usize, usize), Error>(Error::InvalidData("region geometry")),
        },
{
    proof {
        lemma_ceil_half(image.height as int, 2);
        lemma_ceil_half(image.width as int, 2);
    }
    let (h, w, d): (usize, usize, usize) = if ccs == 0 {
        (image.height, image.width, 32)
    } else {
        (tiles::div_up(image.height, 2), tiles::div_up(image.width, 2), 16)
    };
    let out_h: usize = psi_len(hyper.height, h, d)?;
    let out_w: usize = psi_len(hyper.width, w, d)?;
    Ok((out_h, out_w))
}

/// What of a region's latent area is kept, and its offset in it. A region that is merged whole
/// keeps everything; any other drops one sample on every side that faces another region.
pub open spec fn spec_region_core(
    latent: Area,
    image: Area,
    pic_h: int,
    pic_w: int,
    whole: bool,
) -> Option<(Area, (usize, usize))> {
    let left = if whole || image.x == 0 {
        0int
    } else {
        1
    };
    let top = if whole || image.y == 0 {
        0int
    } else {
        1
    };
    let right = if whole || image.x + image.width >= pic_w {
        0int
    } else {
        1
    };
    let bottom = if whole || image.y + image.height >= pic_h {
        0int
    } else {
        1
    };
    if latent.width < left + right || latent.height < top + bottom {
        None
    } else {
        Some(
            (
                Area {
                    x: (latent.x + left) as usize,
                    y: (latent.y + top) as usize,
                    width: (latent.width - left - right) as usize,
                    height: (latent.height - top - bottom) as usize,
                },
                (left as usize, top as usize),
            ),
        )
    }
}

/// What of a region's latent area is kept, and its offset in it. `whole` holds for independent
/// regions, and when encoding for a single one.
pub fn region_core(latent: Area, image: Area, pic_h: usize, pic_w: usize, whole: bool) -> (r: Result<
    (Area, (usize, usize)),
>)
    requires
        image.x + image.width <= usize::MAX,
        image.y + image.height <= usize::MAX,
        latent.x <= usize::MAX - 1,
        latent.y <= usize::MAX - 1,
    ensures
        match spec_region_core(latent, image, pic_h as int, pic_w as int, whole) {
            Some(v) => r == Ok::<(Area, (usize, usize)), Error>(v),
            None => r == Err::<(Area, (usize, usize)), Error>(
                Error::InvalidData("region smaller than its overlap"),
            ),
        },
{
    if whole {
        return Ok((latent, (0, 0)));
    }
    let cut: usize = HD_MCM_TILE_OVERLAP / 2 / 16;
    let left: usize = if image.x == 0 { 0 } else { cut };
    let top: usize = if image.y == 0 { 0 } else { cut };
    let right: usize = if image.x + image.width >= pic_w { 0 } else { cut };
    let bottom: usize = if image.y + image.height >= pic_h { 0 } else { cut };
    if latent.width < left + right || latent.height < top + bottom {
        return Err(Error::InvalidData("region smaller than its overlap"));
    }
    Ok(
        (
            Area::new(
                latent.x + left,
                latent.y + top,
                latent.width - left - right,
                latent.height - top - bottom,
            ),
            (left, top),
        ),
    )
}

/// Cubes along an axis of `len` latent samples.
pub open spec fn cubes_along(len: int) -> int {
    tiles::ceil(tiles::ceil(len, 2), 8)
}

/// Cubes along an axis of `len` latent samples.
pub fn cube_count(len: usize) -> (n: usize)
    ensures
        n == cubes_along(len as int),
        n <= len,
{
    proof {
        lemma_ceil_half(len as int, 2);
        lemma_ceil_half(tiles::ceil(len as int, 2), 8);
    }
    tiles::div_up(tiles::div_up(len, 2), CUBE_SIZE)
}

/// The cube flag that a latent sample belongs to: `[phase][cube row][cube column]`.
pub open spec fn cube_of(y: int, x: int, cube_h: int, cube_w: int) -> int {
    ((y % 2 * 2 + x % 2) * cube_h + y / 2 / 8) * cube_w + x / 2 / 8
}

/// A latent sample's cube flag is one of the flags.
proof fn lemma_cube_of(y: int, x: int, h: int, w: int)
    requires
        0 <= y < h,
        0 <= x < w,
    ensures
        ({
            let (ch, cw) = (cubes_along(h), cubes_along(w));
            let phase = y % 2 * 2 + x % 2;
            &&& 0 <= phase < 4
            &&& 0 <= y / 2 / 8 < ch
            &&& 0 <= x / 2 / 8 < cw
            &&& 0 <= cube_of(y, x, ch, cw) < 4 * ch * cw
            &&& 0 <= phase * ch + y / 2 / 8 < 4 * ch
            &&& 0 <= (phase * ch + y / 2 / 8) * cw
        }),
{
    let (ch, cw) = (cubes_along(h), cubes_along(w));
    tensor::lemma_place(ch, cw, 4, y % 2 * 2 + x % 2, y / 2 / 8, x / 2 / 8);
}

/// Threshold mask widened by the cubes that must not be skipped.
pub open spec fn widened(mask: Tensor<bool>, cube_flag: Seq<bool>) -> Seq<bool> {
    let (h, w) = (mask.h as int, mask.w as int);
    Seq::new(
        mask.data@.len(),
        |p: int|
            mask.data@[p] || !cube_flag[cube_of(p / w % h, p % w, cubes_along(h), cubes_along(w))],
    )
}

/// The mask of coded samples: those that the threshold mask lets through, and every sample of a
/// cube that must not be skipped (its flag is not set).
pub fn skip_mask_or_cubes(mask: &Tensor<bool>, cube_flag: &[bool]) -> (out: Tensor<bool>)
    requires
        mask.wf(),
        cube_flag@.len() == 4 * cubes_along(mask.h as int) * cubes_along(mask.w as int),
    ensures
        out.is_of(mask.c as int, mask.h as int, mask.w as int),
        out.data@ == widened(*mask, cube_flag@),
{
    let (h, w): (usize, usize) = (mask.h, mask.w);
    let (cube_h, cube_w): (usize, usize) = (cube_count(h), cube_count(w));
    let flags: usize = cube_flag.len();
    let len: usize = mask.data.len();
    let ghost want = widened(*mask, cube_flag@);
    let mut data: Vec<bool> = Vec::new();
    while data.len() < len
        invariant
            data@.len() <= len,
            len == mask.data@.len(),
            mask.wf(),
            h == mask.h,
            w == mask.w,
            cube_h == cubes_along(h as int),
            cube_w == cubes_along(w as int),
            flags == cube_flag@.len(),
            cube_flag@.len() == 4 * cubes_along(h as int) * cubes_along(w as int),
            want == widened(*mask, cube_flag@),
            forall|q: int| 0 <= q < data@.len() ==> #[trigger] data@[q] == want[q],
        decreases len - data@.len(),
    {
        let p: usize = data.len();
        proof {
            assert(h > 0 && w > 0) by (nonlinear_arith)
                requires
                    mask.c * h * w > 0,
                    h >= 0,
                    w >= 0,
            ;
            tensor::lemma_parts_place(h as int, w as int, mask.c as int, p as int);
        }
        let at: usize = cube_index(p / w % h, p % w, h, w, flags);
        data.push(mask.data[p] || !cube_flag[at]);
    }
    proof {
        assert(data@ =~= want);
    }
    Tensor { c: mask.c, h, w, data }
}

/// The mask of coded samples, where the header carries these cube flags or none.
pub open spec fn spec_coded_mask(threshold: Tensor<bool>, flags: Option<Seq<bool>>) -> Seq<bool> {
    match flags {
        Some(f) => widened(threshold, f),
        None => threshold.data@,
    }
}

/// The mask of coded samples: the threshold mask, widened where the header carries cube flags.
pub fn coded_mask(threshold: &Tensor<bool>, flags: &Option<Vec<bool>>) -> (mask: Tensor<bool>)
    requires
        threshold.wf(),
        flags matches Some(f) ==> f@.len() == 4 * cubes_along(threshold.h as int) * cubes_along(
            threshold.w as int,
        ),
    ensures
        mask.is_of(threshold.c as int, threshold.h as int, threshold.w as int),
        mask.data@ == spec_coded_mask(*threshold, flags_view(*flags)),
{
    match flags {
        Some(f) => skip_mask_or_cubes(threshold, f.as_slice()),
        None => {
            let mut data: Vec<bool> = Vec::new();
            while data.len() < threshold.data.len()
                invariant
                    data@ == threshold.data@.take(data@.len() as int),
                    data@.len() <= threshold.data@.len(),
                decreases threshold.data@.len() - data@.len(),
            {
                let i: usize = data.len();
                data.push(threshold.data[i]);
                proof {
                    assert(data@ =~= threshold.data@.take(i + 1));
                }
            }
            proof {
                assert(data@ =~= threshold.data@);
            }
            Tensor { c: threshold.c, h: threshold.h, w: threshold.w, data }
        },
    }
}

/// The cube flag that a latent sample belongs to.
fn cube_index(y: usize, x: usize, h: usize, w: usize, flags: usize) -> (at: usize)
    requires
        y < h,
        x < w,
        flags == 4 * cubes_along(h as int) * cubes_along(w as int),
    ensures
        at == cube_of(y as int, x as int, cubes_along(h as int), cubes_along(w as int)),
        at < flags,
{
    let (cube_h, cube_w): (usize, usize) = (cube_count(h), cube_count(w));
    let phase: usize = y % 2 * 2 + x % 2;
    proof {
        lemma_cube_of(y as int, x as int, h as int, w as int);
        let r = phase * cube_h + y as int / 2 / 8;
        assert(phase * cube_h >= 0) by (nonlinear_arith);
        assert(r <= r * cube_w) by (nonlinear_arith)
            requires
                r >= 0,
                cube_w >= 1,
        ;
    }
    (phase * cube_h + y / 2 / CUBE_SIZE) * cube_w + x / 2 / CUBE_SIZE
}

/// A cube may be skipped while no sample in it strays too far.
pub open spec fn flag_for(strays: Seq<bool>, c: int, h: int, w: int, upto: int, at: int) -> bool {
    forall|p: int|
        0 <= p < upto && cube_of(p / w % h, p % w, cubes_along(h), cubes_along(w)) == at
            ==> !#[trigger] strays[p]
}

/// The cube flags of a component without a context model: `strays` marks the samples whose
/// reconstruction error exceeds the threshold, and a cube that holds one must not be skipped.
pub fn cube_flags(strays: &Tensor<bool>) -> (flags: Vec<bool>)
    requires
        strays.wf(),
        4 * cubes_along(strays.h as int) * cubes_along(strays.w as int) <= usize::MAX,
    ensures
        flags@.len() == 4 * cubes_along(strays.h as int) * cubes_along(strays.w as int),
        forall|at: int|
            0 <= at < flags@.len() ==> #[trigger] flags@[at] == flag_for(
                strays.data@,
                strays.c as int,
                strays.h as int,
                strays.w as int,
                strays.data@.len() as int,
                at,
            ),
{
    let (h, w): (usize, usize) = (strays.h, strays.w);
    let (cube_h, cube_w): (usize, usize) = (cube_count(h), cube_count(w));
    let ghost n = 4 * cubes_along(h as int) * cubes_along(w as int);
    proof {
        assert(0 <= 4 * cube_h <= n || cube_w == 0) by (nonlinear_arith)
            requires
                n == 4 * cube_h * cube_w,
                cube_h >= 0,
                cube_w >= 0,
        ;
    }
    let mut flags: Vec<bool> = Vec::new();
    if cube_w > 0 {
        let total: usize = 4 * cube_h * cube_w;
        while flags.len() < total
            invariant
                flags@.len() <= total,
                forall|q: int| 0 <= q < flags@.len() ==> #[trigger] flags@[q],
            decreases total - flags@.len(),
        {
            flags.push(true);
        }
    } else {
        proof {
            assert(n == 0) by (nonlinear_arith)
                requires
                    n == 4 * cube_h * cube_w,
                    cube_w == 0,
            ;
        }
    }
    let count: usize = flags.len();
    let len: usize = strays.data.len();
    let mut p: usize = 0;
    while p < len
        invariant
            p <= len,
            len == strays.data@.len(),
            strays.wf(),
            h == strays.h,
            w == strays.w,
            count == flags@.len(),
            n == count,
            n == 4 * cubes_along(h as int) * cubes_along(w as int),
            forall|at: int|
                0 <= at < n ==> #[trigger] flags@[at] == flag_for(
                    strays.data@,
                    strays.c as int,
                    h as int,
                    w as int,
                    p as int,
                    at,
                ),
        decreases len - p,
    {
        proof {
            assert(h > 0 && w > 0) by (nonlinear_arith)
                requires
                    strays.c * h * w > 0,
                    h >= 0,
                    w >= 0,
            ;
            tensor::lemma_parts_place(h as int, w as int, strays.c as int, p as int);
        }
        let cube: usize = cube_index(p / w % h, p % w, h, w, count);
        let ghost before = flags@;
        if strays.data[p] {
            flags.set(cube, false);
        }
        proof {
            assert forall|at: int| 0 <= at < n implies #[trigger] flags@[at] == flag_for(
                strays.data@,
                strays.c as int,
                h as int,
                w as int,
                p + 1,
                at,
            ) by {
                assert(before[at] == flag_for(
                    strays.data@,
                    strays.c as int,
                    h as int,
                    w as int,
                    p as int,
                    at,
                ));
                if !before[at] {
                    let q = choose|q: int|
                        0 <= q < p && cube_of(
                            q / w as int % h as int,
                            q % w as int,
                            cubes_along(h as int),
                            cubes_along(w as int),
                        ) == at && #[trigger] strays.data@[q];
                    assert(strays.data@[q]);
                }
                if at == cube && strays.data@[p as int] {
                    assert(strays.data@[p as int]);
                }
            }
        }
        p = p + 1;
    }
    flags
}

/// Where an axis is cut into regions: every region but the last is a multiple of 128 samples.
pub open spec fn cut_at(size: int, n: int, i: int) -> int {
    if i >= n {
        size
    } else {
        i * (tiles::ceil(size, 128) / n * 128)
    }
}

/// The regions of a plane, row by row.
pub open spec fn spec_area_grid(h: int, w: int, num_ver: int, num_hor: int) -> Seq<Area> {
    Seq::new(
        (num_ver * num_hor) as nat,
        |k: int|
            {
                let (i, j) = (k / num_hor, k % num_hor);
                Area {
                    x: cut_at(w, num_hor, j) as usize,
                    y: cut_at(h, num_ver, i) as usize,
                    width: (cut_at(w, num_hor, j + 1) - cut_at(w, num_hor, j)) as usize,
                    height: (cut_at(h, num_ver, i + 1) - cut_at(h, num_ver, i)) as usize,
                }
            },
    )
}

/// Cuts along an axis are in order.
pub proof fn law_cuts_ordered(size: int, n: int, i: int)
    requires
        0 <= size,
        1 <= n <= tiles::ceil(size, 128),
        0 <= i < n,
    ensures
        cut_at(size, n, 0) == 0,
        cut_at(size, n, n) == size,
        cut_at(size, n, i) < cut_at(size, n, i + 1) <= size,
{
    let c = tiles::ceil(size, 128);
    let q = c / n;
    div_mod::lemma_fundamental_div_mod(c, n);
    div_mod::lemma_mod_bound(c, n);
    let region = q * 128;
    assert(q >= 1) by (nonlinear_arith)
        requires
            c == n * q + c % n,
            c % n < n,
            c >= n,
            n >= 1,
    ;
    assert((n - 1) * region < size) by {
        // All regions but the last take at most `c - 1` blocks of 128 samples.
        assert((n - 1) * q <= c - 1) by (nonlinear_arith)
            requires
                c == n * q + c % n,
                0 <= c % n,
                q >= 1,
        ;
        assert((n - 1) * region == ((n - 1) * q) * 128) by (nonlinear_arith)
            requires
                region == q * 128,
        ;
    }
    assert(0 * region == 0);
    assert((i + 1) * region == i * region + region) by (nonlinear_arith);
    assert(i * region <= (n - 1) * region) by (nonlinear_arith)
        requires
            i <= n - 1,
            region >= 0,
    ;
    if i + 1 < n {
        assert((i + 1) * region <= (n - 1) * region) by (nonlinear_arith)
            requires
                i + 1 <= n - 1,
                region >= 0,
        ;
    }
}

/// The regions of one component's plane, in that plane's coordinates.
pub fn region_area_grid(h: usize, w: usize, num_ver: usize, num_hor: usize) -> (out: Vec<Area>)
    requires
        1 <= num_ver <= tiles::ceil(h as int, 128),
        1 <= num_hor <= tiles::ceil(w as int, 128),
        num_ver * num_hor <= usize::MAX,
    ensures
        out@ == spec_area_grid(h as int, w as int, num_ver as int, num_hor as int),
{
    let total: usize = num_ver * num_hor;
    let ghost want = spec_area_grid(h as int, w as int, num_ver as int, num_hor as int);
    let mut out: Vec<Area> = Vec::new();
    while out.len() < total
        invariant
            out@.len() <= total,
            total == num_ver * num_hor,
            1 <= num_ver <= tiles::ceil(h as int, 128),
            1 <= num_hor <= tiles::ceil(w as int, 128),
            want == spec_area_grid(h as int, w as int, num_ver as int, num_hor as int),
            forall|k: int| 0 <= k < out@.len() ==> #[trigger] out@[k] == want[k],
        decreases total - out@.len(),
    {
        let k: usize = out.len();
        let (i, j): (usize, usize) = (k / num_hor, k % num_hor);
        proof {
            div_mod::lemma_fundamental_div_mod(k as int, num_hor as int);
            assert(i < num_ver) by (nonlinear_arith)
                requires
                    k == num_hor * i + j,
                    k < num_ver * num_hor,
                    0 <= j,
                    num_hor >= 1,
            ;
            law_cuts_ordered(h as int, num_ver as int, i as int);
            law_cuts_ordered(w as int, num_hor as int, j as int);
        }
        let (y0, y1): (usize, usize) = (axis_cut(h, num_ver, i), axis_cut(h, num_ver, i + 1));
        let (x0, x1): (usize, usize) = (axis_cut(w, num_hor, j), axis_cut(w, num_hor, j + 1));
        out.push(Area::new(x0, y0, x1 - x0, y1 - y0));
    }
    proof {
        assert(out@ =~= want);
    }
    out
}

fn axis_cut(size: usize, n: usize, i: usize) -> (at: usize)
    requires
        1 <= n <= tiles::ceil(size as int, 128),
        i <= n,
    ensures
        at == cut_at(size as int, n as int, i as int),
{
    if i >= n {
        return size;
    }
    proof {
        law_cuts_ordered(size as int, n as int, i as int);
        let q = tiles::ceil(size as int, 128) / n as int;
        if i == 0 {
            law_cuts_ordered(size as int, n as int, 0);
            if n >= 2 {
                assert(1 * (q * 128) == q * 128);
            } else {
                assert(tiles::ceil(size as int, 128) / 1 == tiles::ceil(size as int, 128));
            }
        } else {
            assert(q * 128 <= i * (q * 128)) by (nonlinear_arith)
                requires
                    q * 128 >= 0,
                    i >= 1,
            ;
        }
    }
    if i == 0 {
        0
    } else {
        i * (tiles::div_up(size, 128) / n * 128)
    }
}

/// The cubes of a region: its latent area, downscaled by 16.
pub open spec fn spec_cube_area(tile: Area) -> Area {
    Area {
        x: tiles::ceil(tile.x as int, 16) as usize,
        y: tiles::ceil(tile.y as int, 16) as usize,
        width: cubes_along(tile.width as int) as usize,
        height: cubes_along(tile.height as int) as usize,
    }
}

/// The cubes of a region: its latent area, downscaled by 16.
pub fn cube_area(tile: Area) -> (cubes: Area)
    ensures
        cubes == spec_cube_area(tile),
{
    Area::new(
        tiles::div_up(tile.x, 16),
        tiles::div_up(tile.y, 16),
        cube_count(tile.width),
        cube_count(tile.height),
    )
}

/// Take over the cube flags of a region, whole: where regions overlap, the later one wins.
pub fn merge_cube_flags(flags: &mut Tensor<bool>, tile: Area, region: &Tensor<bool>)
    requires
        old(flags).wf(),
        region.wf(),
    ensures
        final(flags).is_of(old(flags).c as int, old(flags).h as int, old(flags).w as int),
        final(flags).data@ == planes::assigned(*old(flags), spec_cube_area(tile), *region, (0, 0)),
{
    planes::assign(flags, cube_area(tile), region, (0, 0));
}

/// Some cube must not be skipped.
pub open spec fn any_kept(flags: Seq<bool>) -> bool {
    exists|i: int| 0 <= i < flags.len() && !#[trigger] flags[i]
}

/// Cube flags as the header carries them.
pub open spec fn flags_view(flags: Option<Vec<bool>>) -> Option<Seq<bool>> {
    match flags {
        Some(f) => Some(f@),
        None => None,
    }
}

/// The cube flags as the header carries them: none when every cube may be skipped.
pub open spec fn spec_signalled(flags: Seq<bool>) -> Option<Seq<bool>> {
    if any_kept(flags) {
        Some(flags)
    } else {
        None
    }
}

/// The cube flags as the header carries them: none when every cube may be skipped.
pub fn signalled_flags(flags: &Vec<bool>) -> (out: Option<Vec<bool>>)
    ensures
        flags_view(out) == spec_signalled(flags@),
{
    let mut kept: bool = false;
    let mut copy: Vec<bool> = Vec::new();
    while copy.len() < flags.len()
        invariant
            copy@ == flags@.take(copy@.len() as int),
            copy@.len() <= flags@.len(),
            kept == any_kept(flags@.take(copy@.len() as int)),
        decreases flags@.len() - copy@.len(),
    {
        let i: usize = copy.len();
        let flag: bool = flags[i];
        let ghost (before, after) = (flags@.take(i as int), flags@.take(i + 1));
        proof {
            assert(after =~= before.push(flag));
            if any_kept(before) {
                let k = choose|k: int| 0 <= k < before.len() && !#[trigger] before[k];
                assert(!after[k]);
            }
            if !flag {
                assert(!after[i as int]);
            }
            if any_kept(after) && flag {
                let k = choose|k: int| 0 <= k < after.len() && !#[trigger] after[k];
                assert(!before[k]);
            }
        }
        if !flag {
            kept = true;
        }
        copy.push(flag);
    }
    proof {
        assert(flags@.take(flags@.len() as int) =~= flags@);
    }
    if kept {
        Some(copy)
    } else {
        None
    }
}

/// To carry no cube flags loses nothing where every cube may be skipped.
pub proof fn law_unsignalled_flags_lose_nothing(threshold: Tensor<bool>, flags: Seq<bool>)
    requires
        threshold.wf(),
        flags.len() == 4 * cubes_along(threshold.h as int) * cubes_along(threshold.w as int),
    ensures
        spec_coded_mask(threshold, spec_signalled(flags)) == widened(threshold, flags),
{
    let (h, w) = (threshold.h as int, threshold.w as int);
    if !any_kept(flags) {
        assert forall|p: int| 0 <= p < threshold.data@.len() implies #[trigger] widened(
            threshold,
            flags,
        )[p] == threshold.data@[p] by {
            assert(h > 0 && w > 0) by (nonlinear_arith)
                requires
                    threshold.c * h * w > 0,
                    threshold.c >= 0,
                    h >= 0,
                    w >= 0,
            ;
            tensor::lemma_parts_place(h, w, threshold.c as int, p);
            lemma_cube_of(p / w % h, p % w, h, w);
            assert(flags[cube_of(p / w % h, p % w, cubes_along(h), cubes_along(w))]);
        }
        assert(widened(threshold, flags) =~= threshold.data@);
    }
}

/// The residual with everything that is not coded dropped.
pub open spec fn spec_coded_only(residual: Seq<i16>, mask: Seq<bool>) -> Seq<i16> {
    Seq::new(
        residual.len(),
        |i: int|
            if mask[i] {
                residual[i]
            } else {
                0
            },
    )
}

/// Drop the residual of every sample that is not coded.
pub fn coded_only(residual: &Tensor<i16>, mask: &Tensor<bool>) -> (out: Tensor<i16>)
    requires
        residual.wf(),
        mask.is_of(residual.c as int, residual.h as int, residual.w as int),
    ensures
        out.is_of(residual.c as int, residual.h as int, residual.w as int),
        out.data@ == spec_coded_only(residual.data@, mask.data@),
{
    let mut data: Vec<i16> = Vec::new();
    while data.len() < residual.data.len()
        invariant
            residual.data@.len() == mask.data@.len(),
            data@.len() <= residual.data@.len(),
            data@ == spec_coded_only(residual.data@, mask.data@).take(data@.len() as int),
        decreases residual.data@.len() - data@.len(),
    {
        let i: usize = data.len();
        let v: i16 = if mask.data[i] { residual.data[i] } else { 0 };
        let ghost want = spec_coded_only(residual.data@, mask.data@);
        proof {
            assert(want.take(i + 1) =~= want.take(i as int).push(v));
        }
        data.push(v);
    }
    proof {
        let want = spec_coded_only(residual.data@, mask.data@);
        assert(want.take(want.len() as int) =~= want);
    }
    Tensor { c: residual.c, h: residual.h, w: residual.w, data }
}

/// An axis position lies between two neighbouring cuts.
proof fn lemma_between_cuts(size: int, n: int, at: int) -> (i: int)
    requires
        1 <= n <= tiles::ceil(size, 128),
        0 <= at < size,
    ensures
        0 <= i < n,
        cut_at(size, n, i) <= at < cut_at(size, n, i + 1),
{
    lemma_between_cuts_upto(size, n, at, n)
}

proof fn lemma_between_cuts_upto(size: int, n: int, at: int, upto: int) -> (i: int)
    requires
        1 <= n <= tiles::ceil(size, 128),
        1 <= upto <= n,
        0 <= at < cut_at(size, n, upto),
        0 <= size,
    ensures
        0 <= i < upto,
        cut_at(size, n, i) <= at < cut_at(size, n, i + 1),
    decreases upto,
{
    if cut_at(size, n, upto - 1) <= at {
        upto - 1
    } else {
        law_cuts_ordered(size, n, 0);
        lemma_between_cuts_upto(size, n, at, upto - 1)
    }
}

/// No cut lies before the start of its axis.
proof fn lemma_cut_positive(size: int, n: int, i: int)
    requires
        0 <= size,
        1 <= n <= tiles::ceil(size, 128),
        0 <= i <= n,
    ensures
        0 <= cut_at(size, n, i),
    decreases i,
{
    law_cuts_ordered(size, n, 0);
    if i > 0 {
        lemma_cut_positive(size, n, i - 1);
        law_cuts_ordered(size, n, i - 1);
    }
}

/// Cuts grow with their number.
proof fn lemma_cuts_grow(size: int, n: int, i: int, j: int)
    requires
        0 <= size,
        1 <= n <= tiles::ceil(size, 128),
        0 <= i <= j <= n,
    ensures
        cut_at(size, n, i) <= cut_at(size, n, j),
        0 <= cut_at(size, n, i) <= size,
    decreases j - i,
{
    law_cuts_ordered(size, n, 0);
    if i < n {
        law_cuts_ordered(size, n, i);
        lemma_cut_positive(size, n, i);
    }
    if i < j {
        lemma_cuts_grow(size, n, i + 1, j);
    }
}

/// The regions of a plane cover it, and no two of them share a sample.
pub proof fn law_regions_partition(h: usize, w: usize, num_ver: int, num_hor: int, y: int, x: int)
    requires
        1 <= num_ver <= tiles::ceil(h as int, 128),
        1 <= num_hor <= tiles::ceil(w as int, 128),
        0 <= y < h,
        0 <= x < w,
    ensures
        ({
            let grid = spec_area_grid(h as int, w as int, num_ver, num_hor);
            &&& exists|k: int| 0 <= k < grid.len() && #[trigger] grid[k].holds(x, y)
            &&& forall|k: int, l: int|
                0 <= k < grid.len() && 0 <= l < grid.len() && #[trigger] grid[k].holds(x, y)
                    && #[trigger] grid[l].holds(x, y) ==> k == l
        }),
{
    let grid = spec_area_grid(h as int, w as int, num_ver, num_hor);
    let i = lemma_between_cuts(h as int, num_ver, y);
    let j = lemma_between_cuts(w as int, num_hor, x);
    let k = i * num_hor + j;
    tensor::lemma_place(1, num_hor, num_ver, i, 0, j);
    assert(i * 1 == i && num_ver * 1 == num_ver);
    div_mod::lemma_fundamental_div_mod_converse(k, num_hor, i, j);
    law_cuts_ordered(h as int, num_ver, i);
    law_cuts_ordered(w as int, num_hor, j);
    lemma_cuts_grow(h as int, num_ver, i, i);
    lemma_cuts_grow(w as int, num_hor, j, j);
    assert(grid[k].holds(x, y));
    assert forall|a: int, b: int|
        0 <= a < grid.len() && 0 <= b < grid.len() && #[trigger] grid[a].holds(x, y)
            && #[trigger] grid[b].holds(x, y) implies a == b by {
        lemma_region_at(h, w, num_ver, num_hor, y, x, i, j, a);
        lemma_region_at(h, w, num_ver, num_hor, y, x, i, j, b);
    }
}

/// The region that holds a sample is the one between the cuts around it.
proof fn lemma_region_at(
    h: usize,
    w: usize,
    num_ver: int,
    num_hor: int,
    y: int,
    x: int,
    i: int,
    j: int,
    a: int,
)
    requires
        1 <= num_ver <= tiles::ceil(h as int, 128),
        1 <= num_hor <= tiles::ceil(w as int, 128),
        0 <= i < num_ver,
        0 <= j < num_hor,
        cut_at(h as int, num_ver, i) <= y < cut_at(h as int, num_ver, i + 1),
        cut_at(w as int, num_hor, j) <= x < cut_at(w as int, num_hor, j + 1),
        0 <= a < num_ver * num_hor,
        spec_area_grid(h as int, w as int, num_ver, num_hor)[a].holds(x, y),
    ensures
        a == i * num_hor + j,
{
    let (ai, aj) = (a / num_hor, a % num_hor);
    div_mod::lemma_fundamental_div_mod(a, num_hor);
    div_mod::lemma_mod_bound(a, num_hor);
    div_mod::lemma_div_pos_is_pos(a, num_hor);
    assert(ai < num_ver) by (nonlinear_arith)
        requires
            a == num_hor * ai + aj,
            a < num_ver * num_hor,
            0 <= aj,
            num_hor >= 1,
    ;
    law_cuts_ordered(h as int, num_ver, ai);
    law_cuts_ordered(w as int, num_hor, aj);
    lemma_cuts_grow(h as int, num_ver, ai, ai);
    lemma_cuts_grow(w as int, num_hor, aj, aj);
    if ai < i {
        lemma_cuts_grow(h as int, num_ver, ai + 1, i);
    } else if ai > i {
        lemma_cuts_grow(h as int, num_ver, i + 1, ai);
    }
    if aj < j {
        lemma_cuts_grow(w as int, num_hor, aj + 1, j);
    } else if aj > j {
        lemma_cuts_grow(w as int, num_hor, j + 1, aj);
    }
    assert(num_hor * i == i * num_hor) by (nonlinear_arith);
}

/// The samples of `h x w` planes after the first `n` regions were put in place, one after the
/// other: a later region wins where two overlap. A region that is smaller than its overlap ends
/// the merge.
pub open spec fn spec_merged<T>(
    data: Seq<T>,
    h: int,
    w: int,
    regions: Seq<Tensor<T>>,
    latents: Seq<Area>,
    images: Seq<Area>,
    pic: (int, int),
    whole: bool,
    n: int,
) -> core::result::Result<Seq<T>, Error>
    decreases n,
{
    if n <= 0 {
        Ok(data)
    } else {
        match spec_merged(data, h, w, regions, latents, images, pic, whole, n - 1) {
            Err(e) => Err(e),
            Ok(before) => match spec_region_core(
                latents[n - 1],
                images[n - 1],
                pic.0,
                pic.1,
                whole,
            ) {
                None => Err(Error::InvalidData("region smaller than its overlap")),
                Some((core, offset)) => Ok(
                    planes::assigned_to(before, h, w, core, regions[n - 1], offset),
                ),
            },
        }
    }
}

/// A merge that fails has failed once the failing region was reached.
proof fn lemma_merge_fails<T>(
    data: Seq<T>,
    h: int,
    w: int,
    regions: Seq<Tensor<T>>,
    latents: Seq<Area>,
    images: Seq<Area>,
    pic: (int, int),
    whole: bool,
    m: int,
    n: int,
)
    requires
        0 <= m <= n,
        spec_merged(data, h, w, regions, latents, images, pic, whole, m) is Err,
    ensures
        spec_merged(data, h, w, regions, latents, images, pic, whole, n) == spec_merged(
            data,
            h,
            w,
            regions,
            latents,
            images,
            pic,
            whole,
            m,
        ),
    decreases n - m,
{
    if m < n {
        lemma_merge_fails(data, h, w, regions, latents, images, pic, whole, m, n - 1);
    }
}

/// The regions of a picture are coded on their own.
pub open spec fn spec_independent(hdr: PictureHeader) -> bool {
    hdr.regions matches Some(r) && r.independent
}

/// Whether a decoder merges regions whole: where each is coded on its own.
pub fn decoded_whole(hdr: &PictureHeader) -> (whole: bool)
    ensures
        whole == spec_independent(*hdr),
{
    match hdr.regions {
        Some(r) => r.independent,
        None => false,
    }
}

/// A region that covers the picture faces no other: it is kept whole however regions are merged,
/// so that an encoder and a decoder agree on it.
pub proof fn law_only_region_is_whole(latent: Area, image: Area, pic_h: int, pic_w: int)
    requires
        image.x == 0,
        image.y == 0,
        image.width >= pic_w,
        image.height >= pic_h,
    ensures
        spec_region_core(latent, image, pic_h, pic_w, false) == spec_region_core(
            latent,
            image,
            pic_h,
            pic_w,
            true,
        ),
{
}

/// Put what the context model gave for each region into the planes of the component: regions that
/// are merged whole entirely, any other without the samples that face another region.
pub fn merge_regions<T: Copy>(
    dst: &mut Tensor<T>,
    regions: &[Tensor<T>],
    latents: &[Area],
    images: &[Area],
    pic_h: usize,
    pic_w: usize,
    whole: bool,
) -> (r: Result<()>)
    requires
        old(dst).wf(),
        regions@.len() == latents@.len(),
        regions@.len() == images@.len(),
        forall|i: int| 0 <= i < regions@.len() ==> (#[trigger] regions@[i]).wf(),
        forall|i: int|
            0 <= i < images@.len() ==> (#[trigger] images@[i]).x + images@[i].width <= usize::MAX
                && images@[i].y + images@[i].height <= usize::MAX,
        forall|i: int|
            0 <= i < latents@.len() ==> (#[trigger] latents@[i]).x < usize::MAX && latents@[i].y
                < usize::MAX,
    ensures
        final(dst).is_of(old(dst).c as int, old(dst).h as int, old(dst).w as int),
        match spec_merged(
            old(dst).data@,
            old(dst).h as int,
            old(dst).w as int,
            regions@,
            latents@,
            images@,
            (pic_h as int, pic_w as int),
            whole,
            regions@.len() as int,
        ) {
            Err(e) => r == Err::<(), Error>(e),
            Ok(data) => r is Ok && final(dst).data@ == data,
        },
{
    let ghost before = *dst;
    let ghost (h, w) = (dst.h as int, dst.w as int);
    let ghost pic = (pic_h as int, pic_w as int);
    let mut i: usize = 0;
    while i < regions.len()
        invariant
            i <= regions@.len(),
            regions@.len() == latents@.len(),
            regions@.len() == images@.len(),
            before == *old(dst),
            before.wf(),
            h == before.h,
            w == before.w,
            pic == (pic_h as int, pic_w as int),
            dst.is_of(before.c as int, h, w),
            spec_merged(before.data@, h, w, regions@, latents@, images@, pic, whole, i as int)
                == Ok::<Seq<T>, Error>(dst.data@),
            forall|i: int| 0 <= i < regions@.len() ==> (#[trigger] regions@[i]).wf(),
            forall|i: int|
                0 <= i < images@.len() ==> (#[trigger] images@[i]).x + images@[i].width
                    <= usize::MAX && images@[i].y + images@[i].height <= usize::MAX,
            forall|i: int|
                0 <= i < latents@.len() ==> (#[trigger] latents@[i]).x < usize::MAX
                    && latents@[i].y < usize::MAX,
        decreases regions@.len() - i,
    {
        proof {
            assert(regions@[i as int].wf());
            assert(images@[i as int].x + images@[i as int].width <= usize::MAX);
            assert(latents@[i as int].x < usize::MAX);
            if spec_merged(
                before.data@,
                h,
                w,
                regions@,
                latents@,
                images@,
                pic,
                whole,
                i + 1,
            ) is Err {
                lemma_merge_fails(
                    before.data@,
                    h,
                    w,
                    regions@,
                    latents@,
                    images@,
                    pic,
                    whole,
                    i + 1,
                    regions@.len() as int,
                );
            }
        }
        let (core, offset) = region_core(latents[i], images[i], pic_h, pic_w, whole)?;
        planes::assign(dst, core, &regions[i], offset);
        i = i + 1;
    }
    Ok(())
}

} // verus!

//! EFE non-linear post-filter: a luma-driven piecewise-linear chroma correction, followed by a
//! block-wise switch between its result and the alternative picture the EFE linear filter
//! prepared. Here stand the tiles with their parameters and the switch.

use vstd::prelude::*;
use vstd::arithmetic::div_mod;

use crate::encoder::tiles;
use crate::error::{Error, Result};
use crate::header::{EfeNonlinearHeader, EfeNonlinearTiles, PictureHeader};
use crate::planes::PlaneSize;
use crate::tensor;

verus! {

/// Luma bins per tile, which is also the number of weights per tile.
pub const BINS: usize = 8;

/// The on/off switch is in use: the first mask is there and not empty. A stream with the second
/// mask alone never switches.
pub open spec fn spec_first_mask(h: EfeNonlinearHeader) -> bool {
    h.masks@[0] is Some && (h.mask_geometry matches Some(g) && (g.1 > 0 || g.2 > 0))
}

/// Whether the on/off switch is in use.
pub fn has_first_mask(h: &EfeNonlinearHeader) -> (b: bool)
    ensures
        b == spec_first_mask(*h),
{
    match h.mask_geometry {
        Some(g) => h.masks[0].is_some() && (g.1 > 0 || g.2 > 0),
        None => false,
    }
}

/// One tile of the filter. The weights are held in units of 1/2048.
#[derive(Clone, Copy, Debug)]
pub struct NonlinearTile {
    pub rows: (usize, usize),
    pub cols: (usize, usize),
    /// The tile's luma range, in hundredths.
    pub luma_min: u16,
    pub luma_max: u16,
    pub weights: [i64; 8],
}

/// The end of a tile that starts at `at`.
pub open spec fn tile_end(at: int, len: int, size: int) -> int {
    if at + size < len {
        at + size
    } else {
        len
    }
}

/// A tile holds these parameters.
pub open spec fn tile_is(
    tile: NonlinearTile,
    t: EfeNonlinearTiles,
    min: int,
    codes: Seq<u32>,
    hh: int,
    ww: int,
    k: int,
) -> bool {
    let (th, tw) = (t.tile_height as int, t.tile_width as int);
    let nj = tiles::ceil(ww, tw);
    let (y, x) = (k / nj * th, k % nj * tw);
    &&& tile.rows == (y as usize, tile_end(y, hh, th) as usize)
    &&& tile.cols == (x as usize, tile_end(x, ww, tw) as usize)
    &&& tile.luma_min == t.luma_min@[k]
    &&& tile.luma_max == t.luma_max@[k]
    &&& forall|b: int|
        0 <= b < 8 ==> #[trigger] tile.weights@[b] == codes[8 * k + b] + min - 32767
}

/// Tiles of a plane.
pub open spec fn tile_count(t: EfeNonlinearTiles, hh: int, ww: int) -> int {
    tiles::ceil(hh, t.tile_height as int) * tiles::ceil(ww, t.tile_width as int)
}

/// Why a plane has no tiles.
pub open spec fn tiles_error(t: EfeNonlinearTiles, codes: int, hh: int, ww: int) -> Option<Error> {
    if t.tile_height == 0 || t.tile_width == 0 {
        Some(Error::InvalidData("EFE non-linear: zero tile size"))
    } else if t.luma_min@.len() < tile_count(t, hh, ww) || t.luma_max@.len() < tile_count(t, hh, ww)
        || codes < 8 * tile_count(t, hh, ww) {
        Some(Error::InvalidData("EFE non-linear: fewer tile parameters than tiles"))
    } else {
        None
    }
}

/// The weights of a tile.
fn tile_weights(codes: &Vec<u32>, min: u16, k: usize) -> (w: [i64; 8])
    requires
        8 * k + 8 <= codes@.len(),
        codes@.len() <= usize::MAX,
    ensures
        forall|b: int| 0 <= b < 8 ==> #[trigger] w@[b] == codes@[8 * k + b] + min - 32767,
{
    let at: usize = 8 * k;
    let m: i64 = min as i64 - 32767;
    [
        codes[at] as i64 + m,
        codes[at + 1] as i64 + m,
        codes[at + 2] as i64 + m,
        codes[at + 3] as i64 + m,
        codes[at + 4] as i64 + m,
        codes[at + 5] as i64 + m,
        codes[at + 6] as i64 + m,
        codes[at + 7] as i64 + m,
    ]
}

/// The number of tiles fits what is there for them.
fn enough(ni: usize, nj: usize, min: usize, max: usize, codes: usize) -> (b: bool)
    ensures
        b == (min >= ni * nj && max >= ni * nj && codes >= 8 * (ni * nj)),
{
    proof {
        assert(0 <= ni * nj <= 0xffff_ffff_ffff_ffff * 0xffff_ffff_ffff_ffff) by (nonlinear_arith)
            requires
                0 <= ni <= 0xffff_ffff_ffff_ffff,
                0 <= nj <= 0xffff_ffff_ffff_ffff,
        ;
    }
    let count: u128 = ni as u128 * nj as u128;
    min as u128 >= count && max as u128 >= count && count <= codes as u128 && 8 * count
        <= codes as u128
}

/// Where a tile starts along an axis lies within it.
proof fn lemma_tile_start(i: int, len: int, size: int)
    requires
        1 <= size,
        0 <= len,
        0 <= i < tiles::ceil(len, size),
    ensures
        0 <= i * size < len,
{
    let a = len + size - 1;
    div_mod::lemma_fundamental_div_mod(a, size);
    div_mod::lemma_mod_bound(a, size);
    assert(0 <= i * size < len) by (nonlinear_arith)
        requires
            a == size * (a / size) + a % size,
            0 <= a % size,
            0 <= i <= a / size - 1,
            a == len + size - 1,
            size >= 1,
    ;
}

/// The tiles of one chroma plane of `hh x ww` samples with their parameters, row by row.
pub fn tiles(t: &EfeNonlinearTiles, min_symbol: u16, codes: &Vec<u32>, hh: usize, ww: usize) -> (r:
    Result<Vec<NonlinearTile>>)
    ensures
        match tiles_error(*t, codes@.len() as int, hh as int, ww as int) {
            Some(e) => r == Err::<Vec<NonlinearTile>, Error>(e),
            None => r matches Ok(v) && v@.len() == tile_count(*t, hh as int, ww as int)
                && forall|k: int|
                0 <= k < v@.len() ==> tile_is(
                    #[trigger] v@[k],
                    *t,
                    min_symbol as int,
                    codes@,
                    hh as int,
                    ww as int,
                    k,
                ),
        },
{
    let (th, tw): (usize, usize) = (t.tile_height as usize, t.tile_width as usize);
    if th == 0 || tw == 0 {
        return Err(Error::InvalidData("EFE non-linear: zero tile size"));
    }
    let (ni, nj): (usize, usize) = (tiles::div_up(hh, th), tiles::div_up(ww, tw));
    if !enough(ni, nj, t.luma_min.len(), t.luma_max.len(), codes.len()) {
        return Err(Error::InvalidData("EFE non-linear: fewer tile parameters than tiles"));
    }
    let total: usize = codes.len();
    let count: usize = ni * nj;
    let mut out: Vec<NonlinearTile> = Vec::new();
    while out.len() < count
        invariant
            out@.len() <= count,
            count == ni * nj,
            count == tile_count(*t, hh as int, ww as int),
            ni == tiles::ceil(hh as int, th as int),
            nj == tiles::ceil(ww as int, tw as int),
            th == t.tile_height,
            tw == t.tile_width,
            th >= 1,
            tw >= 1,
            t.luma_min@.len() >= count,
            t.luma_max@.len() >= count,
            codes@.len() >= 8 * count,
            total == codes@.len(),
            forall|k: int|
                0 <= k < out@.len() ==> tile_is(
                    #[trigger] out@[k],
                    *t,
                    min_symbol as int,
                    codes@,
                    hh as int,
                    ww as int,
                    k,
                ),
        decreases count - out@.len(),
    {
        let k: usize = out.len();
        proof {
            assert(nj > 0) by (nonlinear_arith)
                requires
                    ni * nj > 0,
                    0 <= ni,
                    0 <= nj,
            ;
            div_mod::lemma_fundamental_div_mod(k as int, nj as int);
            div_mod::lemma_mod_bound(k as int, nj as int);
            let (i, j) = (k as int / nj as int, k as int % nj as int);
            assert(0 <= i < ni) by (nonlinear_arith)
                requires
                    k == nj * i + j,
                    0 <= k < ni * nj,
                    0 <= j < nj,
                    nj >= 1,
            ;
            lemma_tile_start(i, hh as int, th as int);
            lemma_tile_start(j, ww as int, tw as int);
        }
        let (y, x): (usize, usize) = (k / nj * th, k % nj * tw);
        let y1: usize = if th < hh - y { y + th } else { hh };
        let x1: usize = if tw < ww - x { x + tw } else { ww };
        let tile = NonlinearTile {
            rows: (y, y1),
            cols: (x, x1),
            luma_min: t.luma_min[k],
            luma_max: t.luma_max[k],
            weights: tile_weights(codes, min_symbol, k),
        };
        out.push(tile);
    }
    Ok(out)
}

/// A tile holds a sample.
pub open spec fn tile_holds(t: EfeNonlinearTiles, hh: int, ww: int, k: int, y: int, x: int) -> bool {
    let (th, tw) = (t.tile_height as int, t.tile_width as int);
    let nj = tiles::ceil(ww, tw);
    let (ty, tx) = (k / nj * th, k % nj * tw);
    ty <= y < tile_end(ty, hh, th) && tx <= x < tile_end(tx, ww, tw)
}

/// Of the tiles of a plane exactly one holds a sample.
pub proof fn law_nonlinear_tiles_partition(t: EfeNonlinearTiles, hh: int, ww: int, y: int, x: int)
    requires
        1 <= t.tile_height,
        1 <= t.tile_width,
        0 <= y < hh,
        0 <= x < ww,
    ensures
        exists|k: int| 0 <= k < tile_count(t, hh, ww) && #[trigger] tile_holds(t, hh, ww, k, y, x),
        forall|a: int, b: int|
            0 <= a < tile_count(t, hh, ww) && 0 <= b < tile_count(t, hh, ww)
                && #[trigger] tile_holds(t, hh, ww, a, y, x) && #[trigger] tile_holds(
                t,
                hh,
                ww,
                b,
                y,
                x,
            ) ==> a == b,
{
    let (th, tw) = (t.tile_height as int, t.tile_width as int);
    let (ni, nj) = (tiles::ceil(hh, th), tiles::ceil(ww, tw));
    lemma_in_tile(y, hh, th);
    lemma_in_tile(x, ww, tw);
    let (i, j) = (y / th, x / tw);
    tensor::lemma_place(1, nj, ni, i, 0, j);
    assert(i * 1 == i && ni * 1 == ni);
    div_mod::lemma_fundamental_div_mod_converse(i * nj + j, nj, i, j);
    assert(tile_holds(t, hh, ww, i * nj + j, y, x));
    assert forall|a: int| 0 <= a < ni * nj && #[trigger] tile_holds(t, hh, ww, a, y, x) implies a
        == i * nj + j by {
        div_mod::lemma_fundamental_div_mod(a, nj);
        div_mod::lemma_mod_bound(a, nj);
        lemma_tile_number(y, a / nj, hh, th);
        lemma_tile_number(x, a % nj, ww, tw);
        assert(nj * i == i * nj) by (nonlinear_arith);
    }
}

/// A position lies in the tile with its quotient.
proof fn lemma_in_tile(at: int, len: int, size: int)
    requires
        1 <= size,
        0 <= at < len,
    ensures
        0 <= at / size < tiles::ceil(len, size),
        at / size * size <= at < tile_end(at / size * size, len, size),
{
    let (i, a) = (at / size, len + size - 1);
    div_mod::lemma_fundamental_div_mod(at, size);
    div_mod::lemma_mod_bound(at, size);
    div_mod::lemma_div_pos_is_pos(at, size);
    div_mod::lemma_fundamental_div_mod(a, size);
    div_mod::lemma_mod_bound(a, size);
    assert(size * i == i * size) by (nonlinear_arith);
    assert(i < a / size) by (nonlinear_arith)
        requires
            size * i <= at,
            at <= len - 1,
            a == len + size - 1,
            a == size * (a / size) + a % size,
            a % size < size,
            size >= 1,
    ;
}

/// The tile that a position lies in has its quotient.
proof fn lemma_tile_number(at: int, i: int, len: int, size: int)
    requires
        1 <= size,
        0 <= at < len,
        i * size <= at < tile_end(i * size, len, size),
    ensures
        i == at / size,
{
    let e = tile_end(i * size, len, size);
    assert(at < i * size + size);
    div_mod::lemma_fundamental_div_mod_converse(at, size, i, at - i * size);
}

/// What a sample is taken from.
#[derive(Clone, Copy, Debug, PartialEq, Eq, Structural)]
pub enum SwitchTo {
    /// The filtered picture.
    Filtered,
    /// The mean of the filtered and the alternative picture.
    Average,
    /// The alternative picture.
    Alternative,
}

/// What a mask value means.
pub open spec fn spec_switch(mask: u8) -> SwitchTo {
    if mask == 0 {
        SwitchTo::Filtered
    } else if mask == 2 {
        SwitchTo::Alternative
    } else {
        SwitchTo::Average
    }
}

/// The mask does not cover a plane of these dimensions in blocks of `bs x bs`.
pub open spec fn mask_misfits(bs: int, my: int, mx: int, len: int, h: int, w: int) -> bool {
    bs == 0 || my != tiles::ceil(h, bs) || mx != tiles::ceil(w, bs) || len != my * mx
}

/// Check that a plane can be switched: the alternative plane has its size, and the mask covers it.
pub fn check_switch(
    bs: usize,
    my: usize,
    mx: usize,
    mask: &Vec<u8>,
    alternative: PlaneSize,
    plane: PlaneSize,
) -> (r: Result<()>)
    ensures
        r == if (alternative.h, alternative.w) != (plane.h, plane.w) {
            Err::<(), Error>(Error::InvalidArgument("EFE non-linear: alternative picture size"))
        } else if mask_misfits(
            bs as int,
            my as int,
            mx as int,
            mask@.len() as int,
            plane.h as int,
            plane.w as int,
        ) {
            Err::<(), Error>(
                Error::InvalidData("EFE non-linear: mask size does not cover the picture"),
            )
        } else {
            Ok::<(), Error>(())
        },
{
    if alternative.h != plane.h || alternative.w != plane.w {
        return Err(Error::InvalidArgument("EFE non-linear: alternative picture size"));
    }
    proof {
        assert(0 <= my * mx <= 0xffff_ffff_ffff_ffff * 0xffff_ffff_ffff_ffff) by (nonlinear_arith)
            requires
                0 <= my <= 0xffff_ffff_ffff_ffff,
                0 <= mx <= 0xffff_ffff_ffff_ffff,
        ;
    }
    if bs == 0 || my != tiles::div_up(plane.h, bs) || mx != tiles::div_up(plane.w, bs)
        || mask.len() as u128 != my as u128 * mx as u128 {
        return Err(Error::InvalidData("EFE non-linear: mask size does not cover the picture"));
    }
    Ok(())
}

/// What the sample at row `y` and column `x` is taken from, per `bs x bs` block: mask value 0
/// keeps the filtered sample, 2 takes the alternative picture's, 1 averages the two.
pub fn switch_at(bs: usize, mx: usize, mask: &Vec<u8>, y: usize, x: usize, h: usize, w: usize) -> (s:
    SwitchTo)
    requires
        y < h,
        x < w,
        exists|my: int|
            !#[trigger] mask_misfits(
                bs as int,
                my,
                mx as int,
                mask@.len() as int,
                h as int,
                w as int,
            ),
    ensures
        s == spec_switch(mask@[y as int / bs as int * mx + x as int / bs as int]),
{
    let len: usize = mask.len();
    proof {
        let my = choose|my: int|
            !#[trigger] mask_misfits(
                bs as int,
                my,
                mx as int,
                mask@.len() as int,
                h as int,
                w as int,
            );
        lemma_in_tile(y as int, h as int, bs as int);
        lemma_in_tile(x as int, w as int, bs as int);
        let (i, j) = (y as int / bs as int, x as int / bs as int);
        assert(0 <= i * mx && i * mx + j < my * mx) by (nonlinear_arith)
            requires
                0 <= i <= my - 1,
                0 <= j <= mx - 1,
        ;
    }
    let m: u8 = mask[y / bs * mx + x / bs];
    if m == 0 {
        SwitchTo::Filtered
    } else if m == 2 {
        SwitchTo::Alternative
    } else {
        SwitchTo::Average
    }
}

/// The masks' geometry where the switch is in use: block size, rows and columns of blocks. It
/// needs the alternative picture.
pub fn switch_geometry(h: &EfeNonlinearHeader, has_alternative: bool) -> (r: Result<
    Option<(usize, usize, usize)>,
>)
    ensures
        r == if !spec_first_mask(*h) {
            Ok::<Option<(usize, usize, usize)>, Error>(None)
        } else if !has_alternative {
            Err::<Option<(usize, usize, usize)>, Error>(
                Error::InvalidData(
                    "EFE non-linear: on/off masks without the EFE linear filter's alternative picture",
                ),
            )
        } else {
            Ok::<Option<(usize, usize, usize)>, Error>(
                Some(
                    (
                        h.mask_geometry->Some_0.0 as usize,
                        h.mask_geometry->Some_0.1 as usize,
                        h.mask_geometry->Some_0.2 as usize,
                    ),
                ),
            )
        },
{
    if !has_first_mask(h) {
        return Ok(None);
    }
    if !has_alternative {
        return Err(
            Error::InvalidData(
                "EFE non-linear: on/off masks without the EFE linear filter's alternative picture",
            ),
        );
    }
    match h.mask_geometry {
        Some(g) => Ok(Some((g.0 as usize, g.1 as usize, g.2 as usize))),
        None => Ok(None),
    }
}

/// Check that a chroma plane has luma's size at the chroma positions.
pub fn check_chroma(hdr: &PictureHeader, luma: PlaneSize, plane: PlaneSize) -> (r: Result<()>)
    requires
        1 <= hdr.s_ver,
        1 <= hdr.s_hor,
    ensures
        r == if plane.h == tiles::ceil(luma.h as int, hdr.s_ver as int) && plane.w == tiles::ceil(
            luma.w as int,
            hdr.s_hor as int,
        ) {
            Ok::<(), Error>(())
        } else {
            Err::<(), Error>(
                Error::InvalidArgument(
                    "EFE non-linear: chroma plane size does not match the source format",
                ),
            )
        },
{
    if plane.h != tiles::div_up(luma.h, hdr.s_ver as usize) || plane.w != tiles::div_up(
        luma.w,
        hdr.s_hor as usize,
    ) {
        return Err(
            Error::InvalidArgument(
                "EFE non-linear: chroma plane size does not match the source format",
            ),
        );
    }
    Ok(())
}

} // verus!

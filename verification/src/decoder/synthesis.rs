//! Synthesis: the size of the output planes, and where a tile's samples go.

use vstd::prelude::*;

use crate::area::Area;
use crate::encoder::tiles;
use crate::error::{Error, Result};
use crate::header::{PictureHeader, SynthesisTiling};
use crate::planes;
use crate::planes::PlaneSize;
use crate::tensor::Tensor;

verus! {

/// Sizes of the output planes: luma cropped to the displayed size, chroma subsampled.
#[derive(Clone, Copy, Debug, PartialEq, Eq, Structural)]
pub struct OutputSize {
    pub height: usize,
    pub width: usize,
    pub chroma_height: usize,
    pub chroma_width: usize,
}

/// Sizes of the output planes of a picture.
pub open spec fn spec_output_size(
    height: int,
    width: int,
    diff_height: int,
    diff_width: int,
    c_ver: int,
    c_hor: int,
) -> OutputSize {
    OutputSize {
        height: (height - diff_height) as usize,
        width: (width - diff_width) as usize,
        chroma_height: tiles::ceil(height - diff_height, c_ver) as usize,
        chroma_width: tiles::ceil(width - diff_width, c_hor) as usize,
    }
}

/// The output sizes of a header's picture.
pub open spec fn size_of(hdr: PictureHeader) -> OutputSize {
    spec_output_size(
        hdr.height as int,
        hdr.width as int,
        hdr.diff_display_height as int,
        hdr.diff_display_width as int,
        hdr.c_ver as int,
        hdr.c_hor as int,
    )
}

/// Why a picture cannot be synthesised. Both components must be tiled identically: a luma tile is
/// looked up by the chroma tile's picture area.
pub open spec fn synthesis_error(
    luma: Option<SynthesisTiling>,
    chroma: Option<SynthesisTiling>,
    luma_latent: PlaneSize,
    chroma_latent: PlaneSize,
    c_ver: u8,
    c_hor: u8,
) -> Option<Error> {
    if luma != chroma {
        Some(Error::Unsupported("different synthesis tiling for luma and chroma"))
    } else if luma_latent.h != chroma_latent.h || luma_latent.w != chroma_latent.w {
        Some(Error::InvalidArgument("luma / chroma latent size mismatch"))
    } else if c_ver == 0 || c_hor == 0 {
        Some(Error::InvalidData("chroma subsampling factor"))
    } else {
        None
    }
}

/// Whether two tilings are the same.
fn same_tiling(a: Option<SynthesisTiling>, b: Option<SynthesisTiling>) -> (r: bool)
    ensures
        r == (a == b),
{
    match (a, b) {
        (Some(x), Some(y)) => x.tile_size == y.tile_size && x.overlap == y.overlap,
        (None, None) => true,
        _ => false,
    }
}

/// Sizes of the output planes of a picture whose latents have these sizes.
pub fn output_size(hdr: &PictureHeader, luma_latent: PlaneSize, chroma_latent: PlaneSize) -> (r: Result<
    OutputSize,
>)
    requires
        hdr.diff_display_height <= hdr.height,
        hdr.diff_display_width <= hdr.width,
    ensures
        match synthesis_error(
            hdr.components@[0].synthesis_tiling,
            hdr.components@[1].synthesis_tiling,
            luma_latent,
            chroma_latent,
            hdr.c_ver,
            hdr.c_hor,
        ) {
            Some(e) => r == Err::<OutputSize, Error>(e),
            None => r == Ok::<OutputSize, Error>(size_of(*hdr)),
        },
{
    let same: bool = same_tiling(
        hdr.components[0].synthesis_tiling,
        hdr.components[1].synthesis_tiling,
    );
    if !same {
        return Err(Error::Unsupported("different synthesis tiling for luma and chroma"));
    }
    if luma_latent.h != chroma_latent.h || luma_latent.w != chroma_latent.w {
        return Err(Error::InvalidArgument("luma / chroma latent size mismatch"));
    }
    if hdr.c_ver == 0 || hdr.c_hor == 0 {
        return Err(Error::InvalidData("chroma subsampling factor"));
    }
    let height: usize = hdr.height as usize - hdr.diff_display_height as usize;
    let width: usize = hdr.width as usize - hdr.diff_display_width as usize;
    Ok(
        OutputSize {
            height,
            width,
            chroma_height: tiles::div_up(height, hdr.c_ver as usize),
            chroma_width: tiles::div_up(width, hdr.c_hor as usize),
        },
    )
}

/// The tile holds its core.
pub open spec fn holds_core(tile: PlaneSize, core: Area, offset: (usize, usize)) -> bool {
    offset.1 + core.height <= tile.h && offset.0 + core.width <= tile.w
}

/// Write the core of a luma tile to the output plane, cut to what is displayed.
pub fn place_luma<T: Copy>(out: &mut Tensor<T>, tile: &Tensor<T>, core: Area, offset: (usize, usize)) -> (r:
    Result<()>)
    requires
        old(out).wf(),
        tile.wf(),
        offset.0 + core.width <= usize::MAX,
        offset.1 + core.height <= usize::MAX,
    ensures
        final(out).is_of(old(out).c as int, old(out).h as int, old(out).w as int),
        if holds_core(PlaneSize { c: tile.c, h: tile.h, w: tile.w }, core, offset) {
            r == Ok::<(), Error>(()) && final(out).data@ == planes::assigned(
                *old(out),
                core,
                *tile,
                offset,
            )
        } else {
            r == Err::<(), Error>(Error::InvalidData("synthesis tile smaller than its core"))
                && final(out).data@ == old(out).data@
        },
{
    if tile.h < offset.1 + core.height || tile.w < offset.0 + core.width {
        return Err(Error::InvalidData("synthesis tile smaller than its core"));
    }
    planes::assign(out, core, tile, offset);
    Ok(())
}

/// Write the core of a chroma tile, which holds U and V at picture resolution, to the two output
/// planes: the samples that survive the subsampling by `sv x sh`.
pub fn place_chroma<T: Copy>(
    u: &mut Tensor<T>,
    v: &mut Tensor<T>,
    tile: &Tensor<T>,
    core: Area,
    offset: (usize, usize),
    sv: usize,
    sh: usize,
) -> (r: Result<()>)
    requires
        old(u).is_of(1, old(u).h as int, old(u).w as int),
        old(v).is_of(1, old(u).h as int, old(u).w as int),
        tile.wf(),
        offset.0 + core.width <= usize::MAX,
        offset.1 + core.height <= usize::MAX,
        core.y + core.height <= usize::MAX,
        core.x + core.width <= usize::MAX,
        sv >= 1,
        sh >= 1,
        old(u).h * sv <= usize::MAX,
        old(u).w * sh <= usize::MAX,
    ensures
        final(u).is_of(1, old(u).h as int, old(u).w as int),
        final(v).is_of(1, old(v).h as int, old(v).w as int),
        if tile.c == 2 && holds_core(PlaneSize { c: tile.c, h: tile.h, w: tile.w }, core, offset) {
            r == Ok::<(), Error>(()) && final(u).data@ == planes::subsampled(
                *old(u),
                *tile,
                0,
                core,
                offset,
                sv as int,
                sh as int,
            ) && final(v).data@ == planes::subsampled(
                *old(v),
                *tile,
                1,
                core,
                offset,
                sv as int,
                sh as int,
            )
        } else {
            r == Err::<(), Error>(Error::InvalidData("synthesis tile smaller than its core"))
                && final(u).data@ == old(u).data@ && final(v).data@ == old(v).data@
        },
{
    if tile.c != 2 || tile.h < offset.1 + core.height || tile.w < offset.0 + core.width {
        return Err(Error::InvalidData("synthesis tile smaller than its core"));
    }
    planes::subsample_into(u, tile, 0, core, offset, sv, sh);
    planes::subsample_into(v, tile, 1, core, offset, sv, sh);
    Ok(())
}

} // verus!

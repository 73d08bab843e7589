//! The analysis tile grid of a picture's components.

use vstd::prelude::*;

use crate::encoder::params;
use crate::encoder::params::{EncodeParams, RegionMode};
use crate::encoder::tiles;
use crate::encoder::tiles::{analysis_tiles, AnalysisTile, TilePlan};
use crate::error::Result;

verus! {

/// Encodes pictures.
#[derive(Clone, Copy, Debug)]
pub struct Encoder;

/// A side of the plane that a component is analysed on: the picture's side for luma, which is not
/// padded, and half of it, rounded up, for the packed chroma planes.
pub open spec fn plane_side(len: int, ccs: int) -> int {
    if ccs == 0 {
        len
    } else {
        tiles::ceil(len, 2)
    }
}

/// The planes that the tiles of a component are laid out on.
pub open spec fn spec_planes(width: int, height: int, ccs: int) -> TilePlan {
    let (h, w) = (plane_side(height, ccs), plane_side(width, ccs));
    let (d, z) = (tiles::latent_down(ccs), tiles::hyper_down(ccs));
    TilePlan {
        ccs: ccs as usize,
        h: h as usize,
        w: w as usize,
        lh: tiles::ceil(h, d) as usize,
        lw: tiles::ceil(w, d) as usize,
        hz: tiles::ceil(h, z) as usize,
        wz: tiles::ceil(w, z) as usize,
    }
}

impl Encoder {
    /// The analysis tile grid an encode would use for component `ccs` of a `width x height`
    /// picture that is not divided into independent regions.
    pub fn analysis_tile_grid(width: usize, height: usize, ccs: usize, params: &EncodeParams) -> (r: Result<
        Vec<AnalysisTile>,
    >)
        requires
            ccs < 2,
            width <= usize::MAX - 3,
            height <= usize::MAX - 3,
            width * height <= usize::MAX,
            params.regions == Some(RegionMode::Independent) ==> params::spec_region_counts(
                height as int,
                width as int,
            ) is None,
        ensures
            tiles::tiles_are(
                tiles::tiles_view(r),
                spec_planes(width as int, height as int, ccs as int),
            ),
    {
        let p: TilePlan = planes_of(width, height, ccs);
        analysis_tiles(p.ccs, p.h, p.w, p.lh, p.lw, p.hz, p.wz)
    }
}

/// The planes that the tiles of a component are laid out on.
fn planes_of(width: usize, height: usize, ccs: usize) -> (p: TilePlan)
    requires
        ccs < 2,
        width <= usize::MAX - 3,
        height <= usize::MAX - 3,
        width * height <= usize::MAX,
    ensures
        p == spec_planes(width as int, height as int, ccs as int),
        p.ccs == ccs,
        p.h * p.w <= usize::MAX,
        p.h <= usize::MAX - 2,
        p.w <= usize::MAX - 2,
{
    let (h, w): (usize, usize) = if ccs == 0 {
        (height, width)
    } else {
        (tiles::div_up(height, 2), tiles::div_up(width, 2))
    };
    let d: usize = tiles::LATENT_DOWNSCALE[ccs];
    proof {
        assert(h == plane_side(height as int, ccs as int));
        assert(w == plane_side(width as int, ccs as int));
        assert(d == tiles::latent_down(ccs as int) && 4 * d == tiles::hyper_down(ccs as int));
        assert(h * w <= width * height) by (nonlinear_arith)
            requires
                0 <= h <= height,
                0 <= w <= width,
        ;
    }
    TilePlan {
        ccs,
        h,
        w,
        lh: tiles::div_up(h, d),
        lw: tiles::div_up(w, d),
        hz: tiles::div_up(h, 4 * d),
        wz: tiles::div_up(w, 4 * d),
    }
}

} // verus!

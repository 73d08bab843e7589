//! Analysis tiling: above about 1 MP the analysis transform and the hyper-encoder run tile by
//! tile and only each tile's core is kept.
//!
//! The analysis tile size is not in the bitstream.

use vstd::prelude::*;
use vstd::arithmetic::div_mod;

use crate::area::Area;
use crate::error::{Error, Result};
use crate::header::SynthesisTiling;

verus! {

/// Samples per analysis tile, per component.
pub const ENC_SAMPLES_PER_TILE: [usize; 2] = [1_048_576, 262_144];

/// Overlap of analysis tiles, per component.
pub const ENC_TILE_OVERLAP: [usize; 2] = [64, 32];

/// Component plane samples per latent sample.
pub const LATENT_DOWNSCALE: [usize; 2] = [16, 8];

/// Component plane samples per hyper-latent sample.
pub const HYPER_DOWNSCALE: [usize; 2] = [64, 32];

/// Samples per synthesis tile: the same for both components, and counted on the *luma* picture
/// (chroma is synthesised at luma resolution).
pub const SYNTHESIS_SAMPLES_PER_TILE: usize = 1_048_576;

/// Overlap of synthesis tiles.
pub const SYNTHESIS_TILE_OVERLAP: u32 = 64;

/// One analysis tile of one component.
#[derive(Clone, Copy, Debug, PartialEq, Eq)]
pub struct AnalysisTile {
    /// Area of the component plane the analysis transform runs on.
    pub image: Area,
    /// Latent area it produces.
    pub latent: Area,
    /// Part of `latent` that is kept, in whole-latent coordinates.
    pub latent_core: Area,
    /// Offset of `latent_core` inside the tile's own latent.
    pub latent_core_offset: (usize, usize),
    /// Hyper-latent area the tile produces, and the part of it that is kept.
    pub hyper: Area,
    pub hyper_core: Area,
    pub hyper_core_offset: (usize, usize),
}

/// The quotient rounded up.
pub open spec fn ceil(a: int, b: int) -> int {
    (a + b - 1) / b
}

/// The quotient rounded up.
pub fn div_up(a: usize, b: usize) -> (q: usize)
    requires
        b > 0,
    ensures
        q == ceil(a as int, b as int),
{
    proof {
        lemma_ceil(a as int, b as int);
    }
    if a % b == 0 {
        a / b
    } else {
        a / b + 1
    }
}

/// A quotient rounded up is the quotient, or one more if something is left.
proof fn lemma_ceil(a: int, b: int)
    requires
        a >= 0,
        b > 0,
    ensures
        ceil(a, b) == a / b + if a % b == 0 {
            0int
        } else {
            1
        },
        0 <= a / b <= a,
        a % b != 0 ==> a / b < a,
{
    let (q, r) = (a / b, a % b);
    div_mod::lemma_fundamental_div_mod(a, b);
    div_mod::lemma_mod_bound(a, b);
    div_mod::lemma_div_pos_is_pos(a, b);
    assert(q <= b * q) by (nonlinear_arith)
        requires
            q >= 0,
            b >= 1,
    ;
    if r == 0 {
        assert(a + b - 1 == q * b + (b - 1)) by (nonlinear_arith)
            requires
                a == b * q + r,
                r == 0,
        ;
        div_mod::lemma_fundamental_div_mod_converse(a + b - 1, b, q, b - 1);
    } else {
        assert(a + b - 1 == (q + 1) * b + (r - 1)) by (nonlinear_arith)
            requires
                a == b * q + r,
        ;
        div_mod::lemma_fundamental_div_mod_converse(a + b - 1, b, q + 1, r - 1);
    }
}

/// A number is the square root of another, rounded down.
pub open spec fn is_root(r: int, n: int) -> bool {
    0 <= r && r * r <= n < (r + 1) * (r + 1)
}

/// Square root, rounded down.
pub fn floor_sqrt(n: usize) -> (r: usize)
    requires
        n <= 0xffff_ffff,
    ensures
        is_root(r as int, n as int),
        r <= 0xffff,
{
    let mut r: u64 = 0;
    while (r + 1) * (r + 1) <= n as u64
        invariant
            n <= 0xffff_ffff,
            r <= 0xffff,
            r * r <= n,
            (r + 1) * (r + 1) <= 0x1_0000_0000,
        decreases n - r,
    {
        proof {
            assert(r + 1 <= 0xffff) by (nonlinear_arith)
                requires
                    (r + 1) * (r + 1) <= 0xffff_ffff,
            ;
            assert(r < (r + 1) * (r + 1)) by (nonlinear_arith);
            assert((r + 2) * (r + 2) <= 0x1_0000_0000) by (nonlinear_arith)
                requires
                    r + 1 <= 0xffff,
            ;
        }
        r = r + 1;
    }
    r as usize
}

/// The square root of a square.
proof fn lemma_root(r: int, root: int)
    requires
        0 <= root,
        is_root(r, root * root),
    ensures
        r == root,
{
    assert(r <= root) by (nonlinear_arith)
        requires
            0 <= root,
            r * r <= root * root,
    ;
    assert(root < r + 1) by (nonlinear_arith)
        requires
            0 <= r,
            root * root < (r + 1) * (r + 1),
    ;
}

/// Side of an analysis tile: the square root of its samples, 1024 for luma and 512 for chroma.
/// There is none where the plane has no more samples than a tile.
pub open spec fn spec_tile_size(ccs: int, h: int, w: int) -> Option<int> {
    if ccs == 0 {
        if 1_048_576 >= h * w {
            None
        } else {
            Some(1024)
        }
    } else {
        if 262_144 >= h * w {
            None
        } else {
            Some(512)
        }
    }
}

/// `floor(sqrt(samples per tile))` rounded up to the alignment size. `None` when the picture is
/// small enough that tiling is disabled.
fn tile_size(ccs: usize, h: usize, w: usize) -> (size: Option<usize>)
    requires
        ccs < 2,
        h * w <= usize::MAX,
    ensures
        match size {
            Some(s) => spec_tile_size(ccs as int, h as int, w as int) == Some(s as int),
            None => spec_tile_size(ccs as int, h as int, w as int) is None,
        },
{
    let n: usize = ENC_SAMPLES_PER_TILE[ccs];
    if n >= h * w {
        return None;
    }
    let align: usize = LATENT_DOWNSCALE[ccs];
    let root: usize = floor_sqrt(n);
    proof {
        if ccs == 0 {
            lemma_root(root as int, 1024);
        } else {
            lemma_root(root as int, 512);
        }
    }
    Some(div_up(root, align) * align)
}

/// What of a grid with `down` samples per point, `full` points long, `len` samples from `pos` on
/// cover: a stretch that is not a multiple of the downscale factor must end at the border.
pub open spec fn spec_extent(pos: int, len: int, down: int, full: int) -> Option<int> {
    if len % down != 0 && ceil(pos + len, down) < full {
        None
    } else {
        Some(ceil(len, down))
    }
}

fn extent(pos: usize, len: usize, down: usize, full: usize) -> (r: Result<usize>)
    requires
        down > 0,
        pos + len <= usize::MAX,
    ensures
        match spec_extent(pos as int, len as int, down as int, full as int) {
            Some(n) => r matches Ok(v) && v == n,
            None => r == Err::<usize, Error>(
                Error::InvalidData("unaligned analysis tile inside the plane"),
            ),
        },
        r matches Ok(v) ==> v <= len,
{
    proof {
        lemma_ceil(len as int, down as int);
    }
    if len % down != 0 && div_up(pos + len, down) < full {
        return Err(Error::InvalidData("unaligned analysis tile inside the plane"));
    }
    Ok(div_up(len, down))
}

/// The kept part of `len` grid points from `at` on: `cut` points are dropped on a side that faces
/// another tile.
pub open spec fn spec_core(at: int, len: int, first: bool, last: bool, cut: int) -> Option<
    (int, int, int),
> {
    let left = if first {
        0
    } else {
        cut
    };
    let right = if last {
        0
    } else {
        cut
    };
    if len < left + right {
        None
    } else {
        Some((at + left, len - left - right, left))
    }
}

fn kept(at: usize, len: usize, first: bool, last: bool, cut: usize) -> (r: Result<
    (usize, usize, usize),
>)
    requires
        cut <= 2,
        at + 2 <= usize::MAX,
    ensures
        match spec_core(at as int, len as int, first, last, cut as int) {
            Some(v) => r matches Ok(x) && (x.0 as int, x.1 as int, x.2 as int) == v,
            None => r == Err::<(usize, usize, usize), Error>(
                Error::InvalidData("analysis tile is all overlap"),
            ),
        },
{
    let left: usize = if first { 0 } else { cut };
    let right: usize = if last { 0 } else { cut };
    if len < left + right {
        return Err(Error::InvalidData("analysis tile is all overlap"));
    }
    Ok((at + left, len - left - right, left))
}

/// A plane and its grids.
#[derive(Clone, Copy, Debug)]
pub struct TilePlan {
    /// Component: 0 luma, 1 chroma.
    pub ccs: usize,
    /// Plane size.
    pub h: usize,
    pub w: usize,
    /// Latent size.
    pub lh: usize,
    pub lw: usize,
    /// Hyper-latent size.
    pub hz: usize,
    pub wz: usize,
}

/// The constants of a component.
pub open spec fn overlap_of(ccs: int) -> int {
    if ccs == 0 {
        64
    } else {
        32
    }
}

pub open spec fn latent_down(ccs: int) -> int {
    if ccs == 0 {
        16
    } else {
        8
    }
}

pub open spec fn hyper_down(ccs: int) -> int {
    if ccs == 0 {
        64
    } else {
        32
    }
}

/// The image part of the tile at `(x, y)`.
pub open spec fn image_at(p: TilePlan, tile_h: int, tile_w: int, x: int, y: int) -> Area {
    Area {
        x: x as usize,
        y: y as usize,
        width: lesser(tile_w, p.w - x) as usize,
        height: lesser(tile_h, p.h - y) as usize,
    }
}

/// What of a grid with `down` samples per point an image part covers.
pub open spec fn spec_grid(image: Area, down: int, full_h: int, full_w: int) -> Option<Area> {
    match (
        spec_extent(image.x as int, image.width as int, down, full_w),
        spec_extent(image.y as int, image.height as int, down, full_h),
    ) {
        (Some(width), Some(height)) => Some(
            Area {
                x: (image.x as int / down) as usize,
                y: (image.y as int / down) as usize,
                width: width as usize,
                height: height as usize,
            },
        ),
        _ => None,
    }
}

/// What of a grid's area is kept, and its offset in the area.
pub open spec fn spec_kept(p: TilePlan, image: Area, grid: Area, cut: int) -> Option<
    (Area, (usize, usize)),
> {
    match (
        spec_core(
            grid.x as int,
            grid.width as int,
            image.x == 0,
            image.x + image.width >= p.w,
            cut,
        ),
        spec_core(
            grid.y as int,
            grid.height as int,
            image.y == 0,
            image.y + image.height >= p.h,
            cut,
        ),
    ) {
        (Some(cx), Some(cy)) => Some(
            (
                Area {
                    x: cx.0 as usize,
                    y: cy.0 as usize,
                    width: cx.1 as usize,
                    height: cy.1 as usize,
                },
                (cx.2 as usize, cy.2 as usize),
            ),
        ),
        _ => None,
    }
}

/// The tile with an image part: its grids must be aligned, and its cores must not be cut away.
pub open spec fn spec_tile(p: TilePlan, image: Area) -> core::result::Result<AnalysisTile, Error> {
    let ccs = p.ccs as int;
    match (
        spec_grid(image, latent_down(ccs), p.lh as int, p.lw as int),
        spec_grid(image, hyper_down(ccs), p.hz as int, p.wz as int),
    ) {
        (Some(latent), Some(hyper)) => match (
            spec_kept(p, image, latent, 2),
            spec_kept(p, image, hyper, 0),
        ) {
            (Some(l), Some(z)) => Ok(
                AnalysisTile {
                    image,
                    latent,
                    latent_core: l.0,
                    latent_core_offset: l.1,
                    hyper,
                    hyper_core: z.0,
                    hyper_core_offset: z.1,
                },
            ),
            _ => Err(Error::InvalidData("analysis tile is all overlap")),
        },
        _ => Err(Error::InvalidData("unaligned analysis tile inside the plane")),
    }
}

/// What of a grid an image part covers.
fn grid_of(image: Area, down: usize, full_h: usize, full_w: usize) -> (r: Result<Area>)
    requires
        down > 0,
        image.x + image.width <= usize::MAX,
        image.y + image.height <= usize::MAX,
    ensures
        match spec_grid(image, down as int, full_h as int, full_w as int) {
            Some(a) => r == Ok::<Area, Error>(a),
            None => r == Err::<Area, Error>(
                Error::InvalidData("unaligned analysis tile inside the plane"),
            ),
        },
        r matches Ok(a) ==> a.x <= image.x && a.y <= image.y,
{
    proof {
        lemma_ceil(image.x as int, down as int);
        lemma_ceil(image.y as int, down as int);
    }
    let width: usize = extent(image.x, image.width, down, full_w)?;
    let height: usize = extent(image.y, image.height, down, full_h)?;
    Ok(Area::new(image.x / down, image.y / down, width, height))
}

/// What of a grid's area is kept.
fn kept_of(p: TilePlan, image: Area, grid: Area, cut: usize) -> (r: Result<(Area, (usize, usize))>)
    requires
        cut <= 2,
        image.x + image.width <= usize::MAX,
        image.y + image.height <= usize::MAX,
        grid.x + 2 <= usize::MAX,
        grid.y + 2 <= usize::MAX,
    ensures
        match spec_kept(p, image, grid, cut as int) {
            Some(k) => r == Ok::<(Area, (usize, usize)), Error>(k),
            None => r == Err::<(Area, (usize, usize)), Error>(
                Error::InvalidData("analysis tile is all overlap"),
            ),
        },
{
    let cx: (usize, usize, usize) = kept(
        grid.x,
        grid.width,
        image.x == 0,
        image.x + image.width >= p.w,
        cut,
    )?;
    let cy: (usize, usize, usize) = kept(
        grid.y,
        grid.height,
        image.y == 0,
        image.y + image.height >= p.h,
        cut,
    )?;
    Ok((Area::new(cx.0, cy.0, cx.1, cy.1), (cx.2, cy.2)))
}

/// The tile with an image part.
fn make_tile(p: TilePlan, image: Area) -> (r: Result<AnalysisTile>)
    requires
        p.ccs < 2,
        image.x + image.width <= p.w,
        image.y + image.height <= p.h,
        p.w <= usize::MAX - 2,
        p.h <= usize::MAX - 2,
    ensures
        r == spec_tile(p, image),
{
    let (yd, zd): (usize, usize) = (LATENT_DOWNSCALE[p.ccs], HYPER_DOWNSCALE[p.ccs]);
    let overlap: usize = ENC_TILE_OVERLAP[p.ccs];
    let (yo, zo): (usize, usize) = (overlap / 2 / yd, overlap / 2 / zd);
    proof {
        if p.ccs == 0 {
            assert(yd == 16 && zd == 64 && overlap / 2 == 32);
            assert(32int / 16 == 2 && 32int / 64 == 0);
        } else {
            assert(yd == 8 && zd == 32 && overlap / 2 == 16);
            assert(16int / 8 == 2 && 16int / 32 == 0);
        }
        assert(yo == 2 && zo == 0);
    }
    let latent: Area = grid_of(image, yd, p.lh, p.lw)?;
    let hyper: Area = grid_of(image, zd, p.hz, p.wz)?;
    let (latent_core, latent_core_offset) = kept_of(p, image, latent, yo)?;
    let (hyper_core, hyper_core_offset) = kept_of(p, image, hyper, zo)?;
    Ok(
        AnalysisTile {
            image,
            latent,
            latent_core,
            latent_core_offset,
            hyper,
            hyper_core,
            hyper_core_offset,
        },
    )
}

/// The one tile of a plane that is not tiled.
pub open spec fn whole_tile(p: TilePlan) -> AnalysisTile {
    let latent = Area { x: 0, y: 0, width: p.lw, height: p.lh };
    let hyper = Area { x: 0, y: 0, width: p.wz, height: p.hz };
    AnalysisTile {
        image: Area { x: 0, y: 0, width: p.w, height: p.h },
        latent,
        latent_core: latent,
        latent_core_offset: (0, 0),
        hyper,
        hyper_core: hyper,
        hyper_core_offset: (0, 0),
    }
}

/// Tiles along an axis: one every `step` samples, over `len - overlap` samples.
pub open spec fn tiles_along(len: int, overlap: int, step: int) -> int {
    ceil(len - overlap, step)
}

/// The smaller of two numbers.
pub open spec fn lesser(a: int, b: int) -> int {
    if a < b {
        a
    } else {
        b
    }
}

/// The `k`-th tile, row by row.
pub open spec fn nth_tile(p: TilePlan, size: int, k: int) -> core::result::Result<
    AnalysisTile,
    Error,
> {
    let overlap = overlap_of(p.ccs as int);
    let (tile_h, tile_w) = (lesser(size, p.h as int), lesser(size, p.w as int));
    let cols = tiles_along(p.w as int, overlap, tile_w - overlap);
    spec_tile(
        p,
        image_at(
            p,
            tile_h,
            tile_w,
            (k % cols) * (tile_w - overlap),
            (k / cols) * (tile_h - overlap),
        ),
    )
}

/// Number of tiles of a tiled plane.
pub open spec fn tile_count(p: TilePlan, size: int) -> int {
    let overlap = overlap_of(p.ccs as int);
    let (tile_h, tile_w) = (lesser(size, p.h as int), lesser(size, p.w as int));
    tiles_along(p.h as int, overlap, tile_h - overlap) * tiles_along(
        p.w as int,
        overlap,
        tile_w - overlap,
    )
}

/// What [`analysis_tiles`] gives: the tiles row by row, or the error of the first tile that has
/// one.
pub open spec fn tiles_are(
    r: core::result::Result<Seq<AnalysisTile>, Error>,
    p: TilePlan,
) -> bool {
    match spec_tile_size(p.ccs as int, p.h as int, p.w as int) {
        None => r == Ok::<Seq<AnalysisTile>, Error>(seq![whole_tile(p)]),
        Some(size) => {
            let overlap = overlap_of(p.ccs as int);
            if lesser(size, p.h as int) <= overlap || lesser(size, p.w as int) <= overlap {
                r == Err::<Seq<AnalysisTile>, Error>(
                    Error::InvalidData("analysis tile not larger than overlap"),
                )
            } else {
                match r {
                    Ok(tiles) => tiles.len() == tile_count(p, size) && forall|k: int|
                        0 <= k < tiles.len() ==> nth_tile(p, size, k) == Ok::<AnalysisTile, Error>(
                            #[trigger] tiles[k],
                        ),
                    Err(e) => exists|k: int|
                        0 <= k < tile_count(p, size) && #[trigger] nth_tile(p, size, k) == Err::<
                            AnalysisTile,
                            Error,
                        >(e) && forall|j: int|
                            0 <= j < k ==> (#[trigger] nth_tile(p, size, j)) is Ok,
                }
            }
        },
    }
}

/// A result with its tiles as a sequence.
pub open spec fn tiles_view(r: Result<Vec<AnalysisTile>>) -> core::result::Result<
    Seq<AnalysisTile>,
    Error,
> {
    match r {
        Ok(v) => Ok(v@),
        Err(e) => Err(e),
    }
}

/// Tiles of component `ccs` for a plane of `h x w` samples whose latent is `lh x lw` and whose
/// hyper-latent is `hz x wz`. One whole-plane tile when tiling is disabled.
pub fn analysis_tiles(
    ccs: usize,
    h: usize,
    w: usize,
    lh: usize,
    lw: usize,
    hz: usize,
    wz: usize,
) -> (r: Result<Vec<AnalysisTile>>)
    requires
        ccs < 2,
        h * w <= usize::MAX,
        h <= usize::MAX - 2,
        w <= usize::MAX - 2,
    ensures
        tiles_are(tiles_view(r), (TilePlan { ccs, h, w, lh, lw, hz, wz })),
{
    let p = TilePlan { ccs, h, w, lh, lw, hz, wz };
    let mut tiles: Vec<AnalysisTile> = Vec::new();
    let size: usize = match tile_size(ccs, h, w) {
        Some(s) => s,
        None => {
            let latent = Area::new(0, 0, lw, lh);
            let hyper = Area::new(0, 0, wz, hz);
            tiles.push(
                AnalysisTile {
                    image: Area::new(0, 0, w, h),
                    latent,
                    latent_core: latent,
                    latent_core_offset: (0, 0),
                    hyper,
                    hyper_core: hyper,
                    hyper_core_offset: (0, 0),
                },
            );
            proof {
                assert(tiles@ =~= seq![whole_tile(p)]);
            }
            return Ok(tiles);
        },
    };
    let overlap: usize = ENC_TILE_OVERLAP[ccs];
    let tile_h: usize = if size < h { size } else { h };
    let tile_w: usize = if size < w { size } else { w };
    if tile_h <= overlap || tile_w <= overlap {
        return Err(Error::InvalidData("analysis tile not larger than overlap"));
    }
    let (step_h, step_w): (usize, usize) = (tile_h - overlap, tile_w - overlap);
    let rows: usize = div_up(h - overlap, step_h);
    let cols: usize = div_up(w - overlap, step_w);
    let ghost n = size as int;
    let mut i: usize = 0;
    proof {
        assert(0 * cols == 0);
    }
    while i < rows
        invariant
            p == (TilePlan { ccs, h, w, lh, lw, hz, wz }),
            ccs < 2,
            h <= usize::MAX - 2,
            w <= usize::MAX - 2,
            n == size,
            spec_tile_size(ccs as int, h as int, w as int) == Some(n),
            overlap == overlap_of(ccs as int),
            tile_h == lesser(n, h as int),
            tile_w == lesser(n, w as int),
            overlap < tile_h <= h,
            overlap < tile_w <= w,
            step_h == tile_h - overlap,
            step_w == tile_w - overlap,
            rows == tiles_along(h as int, overlap as int, step_h as int),
            cols == tiles_along(w as int, overlap as int, step_w as int),
            i <= rows,
            tiles@.len() == i * cols,
            forall|k: int|
                0 <= k < tiles@.len() ==> nth_tile(p, n, k) == Ok::<AnalysisTile, Error>(
                    #[trigger] tiles@[k],
                ),
        decreases rows - i,
    {
        proof {
            lemma_start_within(h as int, overlap as int, step_h as int, i as int);
        }
        let y: usize = i * step_h;
        let mut j: usize = 0;
        while j < cols
            invariant
                p == (TilePlan { ccs, h, w, lh, lw, hz, wz }),
                ccs < 2,
                h <= usize::MAX - 2,
                w <= usize::MAX - 2,
                n == size,
                spec_tile_size(ccs as int, h as int, w as int) == Some(n),
                overlap == overlap_of(ccs as int),
                tile_h == lesser(n, h as int),
                tile_w == lesser(n, w as int),
                overlap < tile_h <= h,
                overlap < tile_w <= w,
                step_h == tile_h - overlap,
                step_w == tile_w - overlap,
                rows == tiles_along(h as int, overlap as int, step_h as int),
                cols == tiles_along(w as int, overlap as int, step_w as int),
                i < rows,
                y == i * step_h,
                y < h,
                j <= cols,
                tiles@.len() == i * cols + j,
                forall|k: int|
                    0 <= k < tiles@.len() ==> nth_tile(p, n, k) == Ok::<AnalysisTile, Error>(
                        #[trigger] tiles@[k],
                    ),
            decreases cols - j,
        {
            let ghost k = i * cols + j;
            proof {
                lemma_start_within(w as int, overlap as int, step_w as int, j as int);
                div_mod::lemma_fundamental_div_mod_converse(k, cols as int, i as int, j as int);
                assert(0 <= k < rows * cols) by (nonlinear_arith)
                    requires
                        k == i * cols + j,
                        i + 1 <= rows,
                        j < cols,
                ;
                assert(tile_count(p, n) == rows * cols);
            }
            let x: usize = j * step_w;
            let image = Area::new(
                x,
                y,
                if tile_w < w - x {
                    tile_w
                } else {
                    w - x
                },
                if tile_h < h - y {
                    tile_h
                } else {
                    h - y
                },
            );
            let tile = make_tile(p, image);
            proof {
                assert(tile == nth_tile(p, n, k));
                assert forall|q: int| 0 <= q < k implies (#[trigger] nth_tile(p, n, q)) is Ok by {
                    assert(nth_tile(p, n, q) == Ok::<AnalysisTile, Error>(tiles@[q]));
                }
            }
            tiles.push(tile?);
            j = j + 1;
        }
        proof {
            assert((i + 1) * cols == i * cols + cols) by (nonlinear_arith);
        }
        i = i + 1;
    }
    Ok(tiles)
}

/// A tile starts before the end of the plane.
proof fn lemma_start_within(len: int, overlap: int, step: int, i: int)
    requires
        0 < step,
        0 <= overlap < len,
        0 <= i < tiles_along(len, overlap, step),
    ensures
        0 <= i * step < len - overlap,
{
    let a = len - overlap;
    let c = ceil(a, step);
    div_mod::lemma_fundamental_div_mod(a + step - 1, step);
    div_mod::lemma_mod_bound(a + step - 1, step);
    let r = (a + step - 1) % step;
    assert(i * step < a) by (nonlinear_arith)
        requires
            a + step - 1 == step * c + r,
            0 <= r,
            i + 1 <= c,
            step > 0,
    ;
    assert(0 <= i * step) by (nonlinear_arith)
        requires
            0 <= i,
            0 < step,
    ;
}

/// The synthesis tiling that the picture header must carry, computed from the coded luma picture
/// size, or `None`.
pub fn synthesis_tiling(height: usize, width: usize) -> (t: Option<SynthesisTiling>)
    requires
        height * width <= usize::MAX,
    ensures
        t == if height * width <= 1_048_576 {
            None
        } else {
            Some(SynthesisTiling { tile_size: 1024, overlap: 64 })
        },
{
    if SYNTHESIS_SAMPLES_PER_TILE >= height * width {
        return None;
    }
    let root: usize = floor_sqrt(SYNTHESIS_SAMPLES_PER_TILE);
    proof {
        lemma_root(root as int, 1024);
    }
    Some(
        SynthesisTiling {
            tile_size: (div_up(root, 16) * 16) as u32,
            overlap: SYNTHESIS_TILE_OVERLAP,
        },
    )
}

/// Side of an analysis tile of a tiled plane.
pub open spec fn side_of(ccs: int) -> int {
    if ccs == 0 {
        1024
    } else {
        512
    }
}

/// Where the kept latents of the `i`-th tile along an axis start and end, if the tile has any.
pub open spec fn core_span(ccs: int, len: int, i: int) -> Option<(int, int)> {
    let overlap = overlap_of(ccs);
    let tile = lesser(side_of(ccs), len);
    let x = i * (tile - overlap);
    let width = lesser(tile, len - x);
    let down = latent_down(ccs);
    match spec_extent(x, width, down, ceil(len, down)) {
        None => None,
        Some(ext) => match spec_core(x / down, ext, x == 0, x + width >= len, 2) {
            None => None,
            Some((at, n, offset)) => Some((at, at + n)),
        },
    }
}

/// Tiles along an axis of a component.
pub open spec fn axis_tiles(ccs: int, len: int) -> int {
    tiles_along(len, overlap_of(ccs), lesser(side_of(ccs), len) - overlap_of(ccs))
}

/// The kept latents of a tile are some, start at the border where the tile is the first, and end
/// where the next tile's start, or at the other border where there is none.
pub open spec fn spans_meet(ccs: int, len: int, i: int) -> bool {
    core_span(ccs, len, i) matches Some((from, to)) && from < to && (i == 0 ==> from == 0) && (if i
        + 1 == axis_tiles(ccs, len) {
        to == ceil(len, latent_down(ccs))
    } else {
        core_span(ccs, len, i + 1) matches Some((next, end)) && to == next
    })
}

proof fn lemma_one_tile(ccs: int, len: int)
    requires
        ccs == 0 || ccs == 1,
        overlap_of(ccs) < len <= side_of(ccs),
    ensures
        axis_tiles(ccs, len) == 1,
        spans_meet(ccs, len, 0),
{
    let step = len - overlap_of(ccs);
    div_mod::lemma_fundamental_div_mod_converse(step + step - 1, step, 1, step - 1);
    assert(0 * step == 0);
}

/// What a luma tile of a tiled plane keeps.
proof fn lemma_luma_span(len: int, i: int)
    requires
        len > 1024,
        0 <= i,
        960 * i < len - 64,
    ensures
        core_span(0, len, i) == Some(
            (
                if i == 0 {
                    0
                } else {
                    60 * i + 2
                },
                if 960 * i + 1024 >= len {
                    ceil(len, 16)
                } else {
                    60 * i + 62
                },
            ),
        ),
{
    let step = lesser(side_of(0), len) - overlap_of(0);
    assert(step == 960);
    let x = i * step;
    assert(x == 960 * i) by (nonlinear_arith)
        requires
            x == i * step,
            step == 960,
    ;
    assert(x / 16 == 60 * i);
    let width = lesser(1024, len - x);
    if x + 1024 >= len {
        assert(ceil(width, 16) == ceil(len, 16) - 60 * i);
    }
}

/// What a chroma tile of a tiled plane keeps.
proof fn lemma_chroma_span(len: int, i: int)
    requires
        len > 512,
        0 <= i,
        480 * i < len - 32,
    ensures
        core_span(1, len, i) == Some(
            (
                if i == 0 {
                    0
                } else {
                    60 * i + 2
                },
                if 480 * i + 512 >= len {
                    ceil(len, 8)
                } else {
                    60 * i + 62
                },
            ),
        ),
{
    let step = lesser(side_of(1), len) - overlap_of(1);
    assert(step == 480);
    let x = i * step;
    assert(x == 480 * i) by (nonlinear_arith)
        requires
            x == i * step,
            step == 480,
    ;
    assert(x / 8 == 60 * i);
    let width = lesser(512, len - x);
    if x + 512 >= len {
        assert(ceil(width, 8) == ceil(len, 8) - 60 * i);
    }
}

/// Along each axis the kept latents of the tiles partition the latent of the plane: the first
/// tile's start at its border, each tile's end where the next tile's start, and the last tile's
/// end at the other border. No tile is unaligned or all overlap.
pub proof fn law_cores_partition(ccs: int, len: int, i: int)
    requires
        ccs == 0 || ccs == 1,
        overlap_of(ccs) < len,
        0 <= i < axis_tiles(ccs, len),
    ensures
        spans_meet(ccs, len, i),
{
    if len <= side_of(ccs) {
        lemma_one_tile(ccs, len);
    } else if ccs == 0 {
        assert(axis_tiles(ccs, len) == (len - 64 + 959) / 960);
        lemma_luma_span(len, i);
        if i + 1 < axis_tiles(ccs, len) {
            lemma_luma_span(len, i + 1);
        }
    } else {
        assert(axis_tiles(ccs, len) == (len - 32 + 479) / 480);
        lemma_chroma_span(len, i);
        if i + 1 < axis_tiles(ccs, len) {
            lemma_chroma_span(len, i + 1);
        }
    }
}

} // verus!

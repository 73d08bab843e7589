//! EFE non-linear post-filter, encode side: the tile grid, the blocks of the on/off masks, and the
//! header that the decisions make. The fits and the losses are arithmetic on samples; what is kept
//! follows from how they compare.

use vstd::prelude::*;
use vstd::arithmetic::div_mod;

use crate::encoder::filters::efe_linear;
use crate::encoder::filters::efe_linear::PlaneSizes;
use crate::encoder::tiles;
use crate::error::{Error, Result};
use crate::filters::efe_nonlinear::SwitchTo;
use crate::header::tools;
use crate::header::{EfeNonlinearHeader, EfeNonlinearTiles};
use crate::tensor::Tensor;

verus! {

/// What a tile may measure along a side before the plane is divided.
pub const TILE_BASE: usize = 1200;

/// The on/off mask block size per model.
pub const BLOCK_SIZES: [usize; 5] = [128, 112, 96, 80, 64];

/// Tile size along an axis: the axis in equal parts of at most 1200 samples, rounded up to a
/// multiple of 64.
pub open spec fn spec_tile_size(len: int) -> int {
    tiles::ceil(len, 64 * tiles::ceil(len, 1200)) * 64
}

/// Tile size along an axis.
pub fn tile_size(len: usize) -> (size: usize)
    requires
        1 <= len <= 0x0fff_ffff,
    ensures
        size == spec_tile_size(len as int),
        1 <= size,
        size <= 1216,
{
    let count: usize = tiles::div_up(len, TILE_BASE);
    proof {
        law_tiles_are_few(len as int);
    }
    tiles::div_up(len, 64 * count) * 64
}

/// A tile is a positive multiple of 64, at most 1216, and the tiles of an axis are no more than its
/// parts of 1200 samples.
pub proof fn law_tiles_are_few(len: int)
    requires
        1 <= len <= 0x0fff_ffff,
    ensures
        1 <= tiles::ceil(len, 1200) <= len,
        64 <= spec_tile_size(len) <= 1216,
        spec_tile_size(len) % 64 == 0,
        tiles::ceil(len, spec_tile_size(len)) <= tiles::ceil(len, 1200),
{
    let count = tiles::ceil(len, 1200);
    let d = 64 * count;
    let a = len + d - 1;
    let q = a / d;
    div_mod::lemma_fundamental_div_mod(a, d);
    div_mod::lemma_mod_bound(a, d);
    assert(len <= 1200 * count);
    assert(q >= 1) by (nonlinear_arith)
        requires
            a == d * q + a % d,
            a >= d,
            a % d < d,
            d >= 1,
    ;
    assert(q <= 19) by (nonlinear_arith)
        requires
            a == d * q + a % d,
            0 <= a % d,
            a == len + d - 1,
            len <= 1200 * count,
            d == 64 * count,
            count >= 1,
    ;
    let size = q * 64;
    assert(size * count >= len) by (nonlinear_arith)
        requires
            a == d * q + a % d,
            a % d <= d - 1,
            a == len + d - 1,
            d == 64 * count,
            size == q * 64,
    ;
    let b = len + size - 1;
    div_mod::lemma_fundamental_div_mod(b, size);
    div_mod::lemma_mod_bound(b, size);
    assert(b / size <= count) by (nonlinear_arith)
        requires
            b == size * (b / size) + b % size,
            0 <= b % size,
            b == len + size - 1,
            len <= size * count,
            size >= 1,
    ;
}

/// Every `sv`-th row and `sh`-th column of a plane.
pub open spec fn spec_downsample<T>(src: Tensor<T>, sv: int, sh: int) -> Seq<T> {
    let (h, w) = (tiles::ceil(src.h as int, sv), tiles::ceil(src.w as int, sh));
    Seq::new((h * w) as nat, |p: int| src.data@[p / w * sv * src.w + p % w * sh])
}

/// A position of the smaller plane lies in the larger one.
proof fn lemma_sampled(i: int, len: int, f: int)
    requires
        1 <= f,
        0 <= len,
        0 <= i < tiles::ceil(len, f),
    ensures
        0 <= i * f < len,
{
    let a = len + f - 1;
    div_mod::lemma_fundamental_div_mod(a, f);
    div_mod::lemma_mod_bound(a, f);
    assert(0 <= i * f < len) by (nonlinear_arith)
        requires
            a == f * (a / f) + a % f,
            0 <= a % f,
            0 <= i <= a / f - 1,
            a == len + f - 1,
            f >= 1,
    ;
}

/// The luma plane at the chroma positions: every `sv`-th row and `sh`-th column.
pub fn downsample<T: Copy>(src: &Tensor<T>, sv: usize, sh: usize) -> (out: Tensor<T>)
    requires
        src.is_of(1, src.h as int, src.w as int),
        1 <= sv,
        1 <= sh,
    ensures
        out.is_of(
            1,
            tiles::ceil(src.h as int, sv as int),
            tiles::ceil(src.w as int, sh as int),
        ),
        out.data@ == spec_downsample(*src, sv as int, sh as int),
{
    let (h, w): (usize, usize) = (tiles::div_up(src.h, sv), tiles::div_up(src.w, sh));
    let len: usize = src.data.len();
    let (sh_rows, sw): (usize, usize) = (src.h, src.w);
    let ghost want = spec_downsample(*src, sv as int, sh as int);
    let mut data: Vec<T> = Vec::new();
    let mut y: usize = 0;
    proof {
        assert(0 * (w as int) == 0);
    }
    while y < h
        invariant
            y <= h,
            h == tiles::ceil(src.h as int, sv as int),
            w == tiles::ceil(src.w as int, sh as int),
            sh_rows == src.h,
            sw == src.w,
            len == src.data@.len(),
            len == 1 * sh_rows * sw,
            1 <= sv,
            1 <= sh,
            data@.len() == y * w,
            want == spec_downsample(*src, sv as int, sh as int),
            forall|p: int| 0 <= p < data@.len() ==> #[trigger] data@[p] == want[p],
        decreases h - y,
    {
        let mut x: usize = 0;
        while x < w
            invariant
                y < h,
                x <= w,
                h == tiles::ceil(src.h as int, sv as int),
                w == tiles::ceil(src.w as int, sh as int),
                sh_rows == src.h,
                sw == src.w,
                len == src.data@.len(),
                len == 1 * sh_rows * sw,
                1 <= sv,
                1 <= sh,
                data@.len() == y * w + x,
                want == spec_downsample(*src, sv as int, sh as int),
                forall|p: int| 0 <= p < data@.len() ==> #[trigger] data@[p] == want[p],
            decreases w - x,
        {
            proof {
                lemma_sampled(y as int, sh_rows as int, sv as int);
                lemma_sampled(x as int, sw as int, sh as int);
                let (a, b) = (y * sv, x * sh);
                assert(0 <= a * sw && a * sw + b < 1 * sh_rows * sw) by (nonlinear_arith)
                    requires
                        0 <= a <= sh_rows - 1,
                        0 <= b <= sw - 1,
                ;
                let p = y * w + x;
                assert(0 <= y * w) by (nonlinear_arith);
                div_mod::lemma_fundamental_div_mod_converse(p, w as int, y as int, x as int);
                assert(p < h * w) by (nonlinear_arith)
                    requires
                        p == y * w + x,
                        y <= h - 1,
                        x <= w - 1,
                        0 <= y,
                        0 <= x,
                ;
            }
            data.push(src.data[y * sv * sw + x * sh]);
            x = x + 1;
        }
        proof {
            assert((y + 1) * w == y * w + w) by (nonlinear_arith);
        }
        y = y + 1;
    }
    proof {
        assert(1 * h * w == h * w);
        assert(data@ =~= want);
    }
    Tensor { c: 1, h, w, data }
}

/// The block of a mask: the alternative where the filtered picture loses to it, the average where
/// averaging the two beats the winner.
pub open spec fn spec_mask_value(filtered_loses: bool, average_wins: bool) -> u8 {
    if average_wins {
        1
    } else if filtered_loses {
        2
    } else {
        0
    }
}

/// The value of a mask's block.
pub fn mask_value(filtered_loses: bool, average_wins: bool) -> (m: u8)
    ensures
        m == spec_mask_value(filtered_loses, average_wins),
        crate::filters::efe_nonlinear::spec_switch(m) == if average_wins {
            SwitchTo::Average
        } else if filtered_loses {
            SwitchTo::Alternative
        } else {
            SwitchTo::Filtered
        },
{
    if average_wins {
        1
    } else if filtered_loses {
        2
    } else {
        0
    }
}

/// The mask block size of a model; models past the last have the last one's.
pub fn block_size(model_id: usize) -> (bs: usize)
    ensures
        bs == BLOCK_SIZES@[if model_id < 4 {
            model_id as int
        } else {
            4
        }],
        64 <= bs <= 128,
{
    let i: usize = if model_id < 4 { model_id } else { 4 };
    BLOCK_SIZES[i]
}

/// The source and the reconstruction go together: luma alike, and every chroma plane of luma's
/// size at the chroma positions.
pub open spec fn sizes_agree(s_ver: u8, s_hor: u8, org: PlaneSizes, rec: PlaneSizes) -> bool {
    &&& efe_linear::alike(rec.y, org.y)
    &&& org.u.h == tiles::ceil(org.y.h as int, s_ver as int)
    &&& org.u.w == tiles::ceil(org.y.w as int, s_hor as int)
    &&& efe_linear::alike(org.u, org.v)
    &&& efe_linear::alike(org.u, rec.u)
    &&& efe_linear::alike(org.u, rec.v)
}

/// Check that the format is supported and that the source and the reconstruction go together.
pub fn check_input(s_ver: u8, s_hor: u8, org: PlaneSizes, rec: PlaneSizes) -> (r: Result<()>)
    ensures
        r == if !crate::encoder::colour::is_format((s_ver, s_hor)) {
            Err::<(), Error>(
                Error::Unsupported(
                    "EFE non-linear: chroma format the reference software does not support",
                ),
            )
        } else if !sizes_agree(s_ver, s_hor, org, rec) {
            Err::<(), Error>(
                Error::InvalidArgument("EFE non-linear: reconstruction and source sizes differ"),
            )
        } else {
            Ok::<(), Error>(())
        },
{
    if !((s_ver == 1 && (s_hor == 1 || s_hor == 2)) || (s_ver == 2 && s_hor == 2)) {
        return Err(
            Error::Unsupported(
                "EFE non-linear: chroma format the reference software does not support",
            ),
        );
    }
    let (h, w): (usize, usize) = (
        tiles::div_up(org.y.h, s_ver as usize),
        tiles::div_up(org.y.w, s_hor as usize),
    );
    if rec.y.h != org.y.h || rec.y.w != org.y.w || org.u.h != h || org.u.w != w || org.v.h != h
        || org.v.w != w || rec.u.h != h || rec.u.w != w || rec.v.h != h || rec.v.w != w {
        return Err(Error::InvalidArgument("EFE non-linear: reconstruction and source sizes differ"));
    }
    Ok(())
}

/// The tile grid and the fitted weights of both planes.
#[derive(Debug)]
pub struct TileSolve {
    pub tile_width: u16,
    pub tile_height: u16,
    /// Luma range per tile, in hundredths.
    pub luma_min: Vec<u16>,
    pub luma_max: Vec<u16>,
    /// Eight codes per tile, row by row.
    pub weights_u: Vec<u32>,
    pub weights_v: Vec<u32>,
}

/// A mask that was tried: what it holds, and whether it is kept.
#[derive(Debug)]
pub struct TriedMask {
    pub mask: Vec<u8>,
    pub kept: bool,
}

/// The masks that were tried against the alternative picture, with their geometry.
#[derive(Debug)]
pub struct TriedMasks {
    pub block: u16,
    pub rows: u16,
    pub cols: u16,
    pub u: TriedMask,
    pub v: TriedMask,
}

/// A header says which planes are filtered and which masks are kept. Its weight codes go out
/// unshifted: the smallest symbol is always 0 and the largest 65535.
pub open spec fn header_says(
    h: EfeNonlinearHeader,
    t: TileSolve,
    u: bool,
    v: bool,
    masks: Option<TriedMasks>,
) -> bool {
    &&& h.min_symbol == 0
    &&& h.max_symbol == u16::MAX
    &&& match masks {
        Some(m) => {
            &&& h.mask_geometry == if m.u.kept || m.v.kept {
                Some((m.block, m.rows, m.cols))
            } else {
                None
            }
            &&& h.masks@[0] == if m.u.kept {
                Some(m.u.mask)
            } else {
                None
            }
            &&& h.masks@[1] == if m.v.kept {
                Some(m.v.mask)
            } else {
                None
            }
        },
        None => h.mask_geometry is None && h.masks@[0] is None && h.masks@[1] is None,
    }
    &&& if !u && !v {
        h.nonlinear is None
    } else {
        h.nonlinear matches Some(n) && n.tile_width == t.tile_width && n.tile_height
            == t.tile_height && n.luma_min == t.luma_min && n.luma_max == t.luma_max
            && n.weights@[0] == (if u {
            Some(t.weights_u)
        } else {
            None
        }) && n.weights@[1] == (if v {
            Some(t.weights_v)
        } else {
            None
        })
    }
}

/// The header that the decisions make: `u` and `v` say whether the plane's filter pays for itself.
pub fn assemble_header(
    t: TileSolve,
    u: bool,
    v: bool,
    masks: Option<TriedMasks>,
) -> (h: EfeNonlinearHeader)
    ensures
        header_says(h, t, u, v, masks),
{
    let (geometry, mask_u, mask_v): (Option<(u16, u16, u16)>, Option<Vec<u8>>, Option<Vec<u8>>) =
        match masks {
        Some(m) => (
            if m.u.kept || m.v.kept {
                Some((m.block, m.rows, m.cols))
            } else {
                None
            },
            if m.u.kept {
                Some(m.u.mask)
            } else {
                None
            },
            if m.v.kept {
                Some(m.v.mask)
            } else {
                None
            },
        ),
        None => (None, None, None),
    };
    let nonlinear: Option<EfeNonlinearTiles> = if u || v {
        Some(
            EfeNonlinearTiles {
                tile_width: t.tile_width,
                tile_height: t.tile_height,
                luma_min: t.luma_min,
                luma_max: t.luma_max,
                weights: [
                    if u {
                        Some(t.weights_u)
                    } else {
                        None
                    },
                    if v {
                        Some(t.weights_v)
                    } else {
                        None
                    },
                ],
            },
        )
    } else {
        None
    };
    EfeNonlinearHeader {
        min_symbol: 0,
        max_symbol: 65535,
        mask_geometry: geometry,
        masks: [mask_u, mask_v],
        nonlinear,
    }
}

/// The weights of a fit are codes, as many for each plane as can be counted, and every tile has a
/// luma range.
pub open spec fn solve_fits(t: TileSolve) -> bool {
    &&& t.luma_min@.len() == t.luma_max@.len() <= 65535
    &&& t.weights_u@.len() <= 65535 && tools::list_within(t.weights_u@, 0xffff)
    &&& t.weights_v@.len() <= 65535 && tools::list_within(t.weights_v@, 0xffff)
}

/// A mask has a value for each block of a geometry that the header can hold.
pub open spec fn masks_fit(m: TriedMasks) -> bool {
    &&& m.block <= 1023 && m.rows <= 1023 && m.cols <= 1023
    &&& m.u.mask@.len() == m.rows * m.cols && tools::mask_within(m.u.mask@)
    &&& m.v.mask@.len() == m.rows * m.cols && tools::mask_within(m.v.mask@)
}

/// Whatever is decided of a fit and its masks, the header can be written and parses to what was
/// written.
pub proof fn law_nonlinear_header_is_codable(
    h: EfeNonlinearHeader,
    t: TileSolve,
    u: bool,
    v: bool,
    masks: Option<TriedMasks>,
)
    requires
        header_says(h, t, u, v, masks),
        solve_fits(t),
        masks matches Some(m) ==> masks_fit(m),
    ensures
        tools::nonlinear_error(h@) is None,
        tools::nonlinear_codable(h@),
{
}

} // verus!

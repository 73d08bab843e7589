//! Resource limits and the decoder's memory model.
//!
//! The model is calibrated on heap measurements of 560x888 pictures at each operating point and
//! of a 2096x1400 picture with 1024-sample synthesis tiles, all 8-bit 4:4:4 without post-filters.
//! It reproduces those points with 20-50 % headroom; other sizes are predictions of the model.

use vstd::prelude::*;

use crate::error::{Error, Result};
use crate::header::{OperatingPoint, PictureHeader, SynthesisTiling};

verus! {

/// Caller-set bounds on what a decode may consume. `None` means unlimited.
///
/// Every bound is checked against the picture header before any network runs or any
/// picture-sized buffer is allocated; a violation is [`Error::LimitExceeded`].
#[derive(Clone, Copy, Debug, PartialEq, Eq)]
#[non_exhaustive]
pub struct Limits {
    /// Most luma samples (coded width x height).
    pub max_pixels: Option<u64>,
    /// Largest coded width.
    pub max_width: Option<u32>,
    /// Largest coded height.
    pub max_height: Option<u32>,
    /// Most bytes of codestream accepted.
    pub max_input_bytes: Option<u64>,
    /// Most heap the decode may hold at once, by the estimate of [`estimate_memory`].
    pub max_memory_bytes: Option<u64>,
}

/// Default pixel bound: 120 megapixels.
pub const DEFAULT_MAX_PIXELS: u64 = 120_000_000;

/// Default memory bound: 4 GiB.
pub const DEFAULT_MAX_MEMORY: u64 = 0x1_0000_0000;

/// A number lies above a bound, if there is one.
pub open spec fn above(value: int, max: Option<u64>) -> bool {
    max matches Some(m) && value > m
}

/// A number lies above a bound, if there is one.
pub open spec fn above_u32(value: int, max: Option<u32>) -> bool {
    max matches Some(m) && value > m
}

/// The error that a picture of a size gives where its decode needs `live` bytes.
pub open spec fn header_violation(l: Limits, width: u32, height: u32, live: u64) -> Option<Error> {
    if above_u32(width as int, l.max_width) {
        Some(Error::LimitExceeded("picture wider than max_width"))
    } else if above_u32(height as int, l.max_height) {
        Some(Error::LimitExceeded("picture taller than max_height"))
    } else if above(width * height, l.max_pixels) {
        Some(Error::LimitExceeded("picture has more than max_pixels samples"))
    } else if above(live as int, l.max_memory_bytes) {
        Some(Error::LimitExceeded("estimated decode memory exceeds max_memory_bytes"))
    } else {
        None
    }
}

impl Limits {
    /// No bounds at all. Only for trusted input.
    pub fn none() -> (l: Self)
        ensures
            l == (Limits {
                max_pixels: None,
                max_width: None,
                max_height: None,
                max_input_bytes: None,
                max_memory_bytes: None,
            }),
    {
        Limits {
            max_pixels: None,
            max_width: None,
            max_height: None,
            max_input_bytes: None,
            max_memory_bytes: None,
        }
    }

    /// Bound the luma sample count.
    pub fn with_max_pixels(self, pixels: u64) -> (l: Self)
        ensures
            l == (Limits { max_pixels: Some(pixels), ..self }),
    {
        Limits { max_pixels: Some(pixels), ..self }
    }

    /// Bound width and height separately.
    pub fn with_max_dimensions(self, width: u32, height: u32) -> (l: Self)
        ensures
            l == (Limits { max_width: Some(width), max_height: Some(height), ..self }),
    {
        Limits { max_width: Some(width), max_height: Some(height), ..self }
    }

    /// Bound the codestream size.
    pub fn with_max_input_bytes(self, bytes: u64) -> (l: Self)
        ensures
            l == (Limits { max_input_bytes: Some(bytes), ..self }),
    {
        Limits { max_input_bytes: Some(bytes), ..self }
    }

    /// Bound the estimated peak heap use.
    pub fn with_max_memory(self, bytes: u64) -> (l: Self)
        ensures
            l == (Limits { max_memory_bytes: Some(bytes), ..self }),
    {
        Limits { max_memory_bytes: Some(bytes), ..self }
    }

    /// Check the codestream size.
    pub fn check_input(&self, len: usize) -> (r: Result<()>)
        ensures
            r == if above(len as int, self.max_input_bytes) {
                Err::<(), Error>(Error::LimitExceeded("codestream larger than max_input_bytes"))
            } else {
                Ok::<(), Error>(())
            },
    {
        match self.max_input_bytes {
            Some(max) => if len as u64 > max {
                Err(Error::LimitExceeded("codestream larger than max_input_bytes"))
            } else {
                Ok(())
            },
            None => Ok(()),
        }
    }

    /// Check a picture header against every bound; returns the memory estimate it was judged by.
    /// `pool_limit` is what the recycled-buffer pool may hold.
    pub fn check_header(&self, hdr: &PictureHeader, op: OperatingPoint, pool_limit: usize) -> (r:
        Result<MemoryEstimate>)
        ensures
            ({
                let live = spec_live_bytes(
                    hdr.width,
                    hdr.height,
                    hdr.components@[0].synthesis_tiling,
                    op,
                );
                match header_violation(*self, hdr.width, hdr.height, live) {
                    Some(e) => r == Err::<MemoryEstimate, Error>(e),
                    None => r == Ok::<MemoryEstimate, Error>(
                        MemoryEstimate { live_bytes: live, pool_bytes: pool_limit as u64 },
                    ),
                }
            }),
    {
        if let Some(m) = self.max_width {
            if hdr.width > m {
                return Err(Error::LimitExceeded("picture wider than max_width"));
            }
        }
        if let Some(m) = self.max_height {
            if hdr.height > m {
                return Err(Error::LimitExceeded("picture taller than max_height"));
            }
        }
        let pixels: u64 = area(hdr.width, hdr.height);
        if let Some(m) = self.max_pixels {
            if pixels > m {
                return Err(Error::LimitExceeded("picture has more than max_pixels samples"));
            }
        }
        let est = estimate_memory(hdr, op, pool_limit);
        if let Some(m) = self.max_memory_bytes {
            if est.live_bytes > m {
                return Err(
                    Error::LimitExceeded("estimated decode memory exceeds max_memory_bytes"),
                );
            }
        }
        Ok(est)
    }
}

impl Default for Limits {
    /// [`DEFAULT_MAX_PIXELS`] and [`DEFAULT_MAX_MEMORY`]; nothing else bounded.
    fn default() -> (l: Self)
        ensures
            l == (Limits {
                max_pixels: Some(120_000_000),
                max_width: None,
                max_height: None,
                max_input_bytes: None,
                max_memory_bytes: Some(0x1_0000_0000),
            }),
    {
        Limits::none().with_max_pixels(DEFAULT_MAX_PIXELS).with_max_memory(DEFAULT_MAX_MEMORY)
    }
}

/// Predicted heap use of one decode.
#[derive(Clone, Copy, Debug, PartialEq, Eq, Structural)]
#[non_exhaustive]
pub struct MemoryEstimate {
    /// Peak of the memory the decode itself holds: packed networks, entropy-stage tensors,
    /// latents, the feature maps of the largest synthesis tile, output planes and the result.
    pub live_bytes: u64,
    /// Upper bound of what the recycled-buffer pool may hold on top of that.
    pub pool_bytes: u64,
}

impl MemoryEstimate {
    /// `live_bytes + pool_bytes`: upper bound of the heap held while decoding.
    pub fn peak_bytes(&self) -> (n: u64)
        ensures
            n == saturated(self.live_bytes + self.pool_bytes),
    {
        self.live_bytes.saturating_add(self.pool_bytes)
    }
}

/// A number, or the largest that fits.
pub open spec fn saturated(n: int) -> u64 {
    if n > u64::MAX {
        u64::MAX
    } else {
        n as u64
    }
}

/// Bytes that a decode holds whatever the picture, by operating point.
pub open spec fn fixed_bytes(op: OperatingPoint) -> int {
    match op {
        OperatingPoint::Sop => 33_554_432,
        OperatingPoint::Bop => 33_554_432,
        OperatingPoint::Hop => 46_137_344,
    }
}

/// Bytes per sample of the largest synthesis tile, by operating point.
pub open spec fn tile_bytes(op: OperatingPoint) -> int {
    match op {
        OperatingPoint::Sop => 36,
        OperatingPoint::Bop => 92,
        OperatingPoint::Hop => 970,
    }
}

/// How far the largest synthesis tile reaches along a side of a picture.
pub open spec fn tile_extent(len: u32, tiling: Option<SynthesisTiling>) -> int {
    match tiling {
        Some(t) => if t.tile_size < len {
            t.tile_size as int
        } else {
            len as int
        },
        None => len as int,
    }
}

/// `fixed(op) + 20 B x picture samples + k(op) x samples of the largest synthesis tile`.
pub open spec fn spec_live_bytes(
    width: u32,
    height: u32,
    tiling: Option<SynthesisTiling>,
    op: OperatingPoint,
) -> u64 {
    saturated(
        fixed_bytes(op) + 20 * (width * height) + tile_bytes(op) * (tile_extent(width, tiling)
            * tile_extent(height, tiling)),
    )
}

/// Samples of a picture.
pub fn area(width: u32, height: u32) -> (n: u64)
    ensures
        n == width * height,
{
    proof {
        lemma_area(width as int, height as int);
    }
    width as u64 * height as u64
}

/// A product of two 32-bit numbers fits 64 bits.
pub proof fn lemma_area(a: int, b: int)
    requires
        0 <= a <= u32::MAX,
        0 <= b <= u32::MAX,
    ensures
        0 <= a * b <= 0xffff_fffe_0000_0001,
{
    assert(0 <= a * b <= 0xffff_fffe_0000_0001) by (nonlinear_arith)
        requires
            0 <= a <= 0xffff_ffff,
            0 <= b <= 0xffff_ffff,
    ;
}

/// How far the largest synthesis tile reaches along a side of a picture.
fn extent(len: u32, tiling: Option<SynthesisTiling>) -> (n: u32)
    ensures
        n == tile_extent(len, tiling),
{
    match tiling {
        Some(t) => if t.tile_size < len {
            t.tile_size
        } else {
            len
        },
        None => len,
    }
}

/// Estimate the heap one decode of a picture with header `hdr` needs when synthesised with `op`,
/// where the recycled-buffer pool may hold `pool_limit` bytes.
///
/// `live = fixed(op) + 20 B x picture samples + k(op) x samples of the largest synthesis tile`
/// with `k` = 36 (SOP), 92 (BOP), 970 (HOP) bytes per sample; an untiled picture is one tile.
/// `fixed` covers the packed networks and the transient checkpoint bytes of the first decode.
pub fn estimate_memory(hdr: &PictureHeader, op: OperatingPoint, pool_limit: usize) -> (e:
    MemoryEstimate)
    ensures
        e.live_bytes == spec_live_bytes(
            hdr.width,
            hdr.height,
            hdr.components@[0].synthesis_tiling,
            op,
        ),
        e.pool_bytes == pool_limit,
{
    let (fixed, per_tile_sample): (u64, u64) = match op {
        OperatingPoint::Sop => (33_554_432, 36),
        OperatingPoint::Bop => (33_554_432, 92),
        OperatingPoint::Hop => (46_137_344, 970),
    };
    let tiling = hdr.components[0].synthesis_tiling;
    let picture: u64 = area(hdr.width, hdr.height);
    let tile: u64 = area(extent(hdr.width, tiling), extent(hdr.height, tiling));
    proof {
        lemma_area(tile_extent(hdr.width, tiling), tile_extent(hdr.height, tiling));
        assert(0 <= per_tile_sample * tile <= 970 * 0xffff_ffff_ffff_ffff) by (nonlinear_arith)
            requires
                per_tile_sample <= 970,
                tile <= 0xffff_ffff_ffff_ffff,
        ;
    }
    let total: u128 = fixed as u128 + 20 * (picture as u128) + per_tile_sample as u128 * (
    tile as u128);
    let live_bytes: u64 = if total > u64::MAX as u128 {
        u64::MAX
    } else {
        total as u64
    };
    MemoryEstimate { live_bytes, pool_bytes: pool_limit as u64 }
}

/// At any size and tiling the three operating points never need less memory in the order SOP,
/// BOP, HOP.
pub proof fn law_operating_points_ordered(width: u32, height: u32, tiling: Option<SynthesisTiling>)
    ensures
        spec_live_bytes(width, height, tiling, OperatingPoint::Sop) <= spec_live_bytes(
            width,
            height,
            tiling,
            OperatingPoint::Bop,
        ),
        spec_live_bytes(width, height, tiling, OperatingPoint::Bop) <= spec_live_bytes(
            width,
            height,
            tiling,
            OperatingPoint::Hop,
        ),
{
    let t = tile_extent(width, tiling) * tile_extent(height, tiling);
    lemma_area(tile_extent(width, tiling), tile_extent(height, tiling));
    assert(36 * t <= 92 * t <= 970 * t);
}

/// Tiling the synthesis never needs more memory, and smaller tiles never more than larger ones.
pub proof fn law_tiling_saves_memory(
    width: u32,
    height: u32,
    a: SynthesisTiling,
    b: SynthesisTiling,
    op: OperatingPoint,
)
    requires
        a.tile_size <= b.tile_size,
    ensures
        spec_live_bytes(width, height, Some(a), op) <= spec_live_bytes(width, height, Some(b), op),
        spec_live_bytes(width, height, Some(b), op) <= spec_live_bytes(width, height, None, op),
{
    let (wa, ha) = (tile_extent(width, Some(a)), tile_extent(height, Some(a)));
    let (wb, hb) = (tile_extent(width, Some(b)), tile_extent(height, Some(b)));
    assert(wa * ha <= wb * hb <= width * height) by (nonlinear_arith)
        requires
            0 <= wa <= wb <= width,
            0 <= ha <= hb <= height,
    ;
    let k = tile_bytes(op);
    assert(k * (wa * ha) <= k * (wb * hb) <= k * (width * height)) by (nonlinear_arith)
        requires
            wa * ha <= wb * hb <= width * height,
            k >= 0,
    ;
}

} // verus!

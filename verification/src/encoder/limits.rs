//! Resource limits and the encoder's memory model.
//!
//! The model is calibrated on heap measurements of 560x888 and 2096x1400 RGB sources, for
//! fixed-model and rate-matched encodes. It reproduces those points with headroom; other sizes are
//! predictions of the model, not measurements.

use vstd::prelude::*;

use crate::decoder::limits;
use crate::decoder::limits::MemoryEstimate;
use crate::error::{Error, Result};
use crate::header::OperatingPoint;

verus! {

/// Caller-set bounds on what an encode may consume. `None` means unlimited.
///
/// Every bound is checked against the source's size before any network runs or any
/// picture-sized buffer is allocated; a violation is [`Error::LimitExceeded`].
#[derive(Clone, Copy, Debug, PartialEq, Eq)]
#[non_exhaustive]
pub struct EncodeLimits {
    /// Most luma samples (coded width x height).
    pub max_pixels: Option<u64>,
    /// Largest coded width.
    pub max_width: Option<u32>,
    /// Largest coded height.
    pub max_height: Option<u32>,
    /// Most heap the encode may hold at once, by the estimate of [`estimate_encode_memory`].
    pub max_memory_bytes: Option<u64>,
}

/// Default pixel bound: 120 megapixels, the same as the decoder's.
pub const DEFAULT_MAX_PIXELS: u64 = 120_000_000;

/// Default memory bound: 4 GiB, the same as the decoder's.
pub const DEFAULT_MAX_MEMORY: u64 = 0x1_0000_0000;

/// The source breaks a bound on one of its sides.
pub open spec fn too_long(l: EncodeLimits, width: int, height: int) -> bool {
    limits::above_u32(width, l.max_width) || limits::above_u32(height, l.max_height)
}

/// The error that a source of a size gives where its encode needs `live` bytes.
pub open spec fn source_violation(l: EncodeLimits, width: int, height: int, live: u64) -> Option<
    Error,
> {
    if limits::above_u32(width, l.max_width) {
        Some(Error::LimitExceeded("picture wider than max_width"))
    } else if limits::above_u32(height, l.max_height) {
        Some(Error::LimitExceeded("picture taller than max_height"))
    } else if limits::above(width * height, l.max_pixels) {
        Some(Error::LimitExceeded("picture has more than max_pixels samples"))
    } else if limits::above(live as int, l.max_memory_bytes) {
        Some(Error::LimitExceeded("estimated encode memory exceeds max_memory_bytes"))
    } else {
        None
    }
}

impl EncodeLimits {
    /// No bounds at all. Only for trusted input.
    pub fn none() -> (l: Self)
        ensures
            l == (EncodeLimits {
                max_pixels: None,
                max_width: None,
                max_height: None,
                max_memory_bytes: None,
            }),
    {
        EncodeLimits {
            max_pixels: None,
            max_width: None,
            max_height: None,
            max_memory_bytes: None,
        }
    }

    /// Bound the luma sample count.
    pub fn with_max_pixels(self, pixels: u64) -> (l: Self)
        ensures
            l == (EncodeLimits { max_pixels: Some(pixels), ..self }),
    {
        EncodeLimits { max_pixels: Some(pixels), ..self }
    }

    /// Bound width and height separately.
    pub fn with_max_dimensions(self, width: u32, height: u32) -> (l: Self)
        ensures
            l == (EncodeLimits { max_width: Some(width), max_height: Some(height), ..self }),
    {
        EncodeLimits { max_width: Some(width), max_height: Some(height), ..self }
    }

    /// Bound the estimated peak heap use.
    pub fn with_max_memory(self, bytes: u64) -> (l: Self)
        ensures
            l == (EncodeLimits { max_memory_bytes: Some(bytes), ..self }),
    {
        EncodeLimits { max_memory_bytes: Some(bytes), ..self }
    }

    /// Check a `width` x `height` source against every bound and return the memory estimate it
    /// was judged by. `rate_matched` selects the estimate for an encode to a target rate, which
    /// holds every model's weights and the best-so-far model's latents while it searches; `false`
    /// is a single fixed-model encode. `pool_limit` is what the recycled-buffer pool may hold.
    pub fn check(
        &self,
        width: usize,
        height: usize,
        op: OperatingPoint,
        rate_matched: bool,
        pool_limit: usize,
    ) -> (r: Result<MemoryEstimate>)
        requires
            too_long(*self, width as int, height as int) || samples(width as int, height as int)
                <= u64::MAX,
        ensures
            ({
                let live = spec_encode_bytes(width as int, height as int, op, rate_matched);
                match source_violation(*self, width as int, height as int, live) {
                    Some(e) => r == Err::<MemoryEstimate, Error>(e),
                    None => r == Ok::<MemoryEstimate, Error>(
                        MemoryEstimate { live_bytes: live, pool_bytes: pool_limit as u64 },
                    ),
                }
            }),
    {
        if let Some(m) = self.max_width {
            if width as u64 > m as u64 {
                return Err(Error::LimitExceeded("picture wider than max_width"));
            }
        }
        if let Some(m) = self.max_height {
            if height as u64 > m as u64 {
                return Err(Error::LimitExceeded("picture taller than max_height"));
            }
        }
        proof {
            lemma_samples(width as int, height as int);
        }
        let pixels: u64 = width as u64 * height as u64;
        if let Some(m) = self.max_pixels {
            if pixels > m {
                return Err(Error::LimitExceeded("picture has more than max_pixels samples"));
            }
        }
        let est = estimate_encode_memory(
            width as u64,
            height as u64,
            op,
            rate_matched,
            pool_limit,
        );
        if let Some(m) = self.max_memory_bytes {
            if est.live_bytes > m {
                return Err(
                    Error::LimitExceeded("estimated encode memory exceeds max_memory_bytes"),
                );
            }
        }
        Ok(est)
    }
}

impl Default for EncodeLimits {
    /// [`DEFAULT_MAX_PIXELS`] and [`DEFAULT_MAX_MEMORY`]; nothing else bounded.
    fn default() -> (l: Self)
        ensures
            l == (EncodeLimits {
                max_pixels: Some(120_000_000),
                max_width: None,
                max_height: None,
                max_memory_bytes: Some(0x1_0000_0000),
            }),
    {
        EncodeLimits::none().with_max_pixels(DEFAULT_MAX_PIXELS).with_max_memory(DEFAULT_MAX_MEMORY)
    }
}

/// A side of a picture, at least one sample long.
pub open spec fn side(len: int) -> int {
    if len < 1 {
        1
    } else {
        len
    }
}

/// Samples of a picture; an empty side counts as one.
pub open spec fn samples(width: int, height: int) -> int {
    side(width) * side(height)
}

/// A side of the largest analysis tile.
pub open spec fn tile_side(len: int) -> int {
    if len < 1024 {
        len
    } else {
        1024
    }
}

/// Samples of the largest analysis tile of a picture.
pub open spec fn tile_samples(width: int, height: int) -> int {
    if samples(width, height) <= 0x10_0000 {
        samples(width, height)
    } else {
        tile_side(side(width)) * tile_side(side(height))
    }
}

/// Bytes that an encode holds whatever the picture: the packed networks, the engine, the source's
/// own decode and the transient checkpoint bytes of the first load.
pub open spec fn fixed_bytes(op: OperatingPoint) -> int {
    match op {
        OperatingPoint::Sop => 178_257_920,
        OperatingPoint::Bop => 178_257_920,
        OperatingPoint::Hop => 272_629_760,
    }
}

/// Bytes per sample of the largest analysis tile, by operating point.
pub open spec fn tile_bytes(op: OperatingPoint) -> int {
    match op {
        OperatingPoint::Sop => 200,
        OperatingPoint::Bop => 200,
        OperatingPoint::Hop => 260,
    }
}

/// What a search for a rate holds on top: three more models and one more set of latents.
pub open spec fn search_bytes(width: int, height: int) -> int {
    88_080_384 + 4 * samples(width, height)
}

/// `fixed(op) + 160 B x picture samples + k(op) x samples of the largest analysis tile`, and what
/// a search for a rate holds on top.
pub open spec fn spec_encode_bytes(width: int, height: int, op: OperatingPoint, rate_matched: bool) -> u64 {
    limits::saturated(
        fixed_bytes(op) + 160 * samples(width, height) + tile_bytes(op) * tile_samples(
            width,
            height,
        ) + if rate_matched {
            search_bytes(width, height)
        } else {
            0
        },
    )
}

/// A picture has no more samples than it counts for.
proof fn lemma_samples(width: int, height: int)
    requires
        0 <= width,
        0 <= height,
    ensures
        0 <= width * height <= samples(width, height),
        1 <= samples(width, height),
{
    let (w, h) = (side(width), side(height));
    assert(0 <= width * height <= w * h && 1 <= w * h) by (nonlinear_arith)
        requires
            0 <= width <= w,
            0 <= height <= h,
            1 <= w,
            1 <= h,
    ;
}

/// A tile side times a tile side fits a tile.
proof fn lemma_tile(a: int, b: int)
    requires
        1 <= a <= 1024,
        1 <= b <= 1024,
    ensures
        1 <= a * b <= 0x10_0000,
{
    assert(1 <= a * b <= 0x10_0000) by (nonlinear_arith)
        requires
            1 <= a <= 1024,
            1 <= b <= 1024,
    ;
}

/// Estimate the heap one encode of a `width` x `height` picture needs at operating point `op`,
/// where the recycled-buffer pool may hold `pool_limit` bytes.
///
/// `live = fixed(op) + 160 B x picture samples + k(op) x samples of the largest analysis tile`
/// with `k` = 200 (SOP / BOP) or 260 (HOP) bytes per sample; an untiled picture is one tile.
/// `rate_matched` adds the other three models' packed networks plus one extra latent set (the
/// search keeps the best-so-far model's latents next to the one being measured).
pub fn estimate_encode_memory(
    width: u64,
    height: u64,
    op: OperatingPoint,
    rate_matched: bool,
    pool_limit: usize,
) -> (e: MemoryEstimate)
    requires
        samples(width as int, height as int) <= u64::MAX,
    ensures
        e.live_bytes == spec_encode_bytes(width as int, height as int, op, rate_matched),
        e.pool_bytes == pool_limit,
{
    let (fixed, per_tile_sample): (u128, u128) = match op {
        OperatingPoint::Sop => (178_257_920, 200),
        OperatingPoint::Bop => (178_257_920, 200),
        OperatingPoint::Hop => (272_629_760, 260),
    };
    let w: u64 = if width < 1 { 1 } else { width };
    let h: u64 = if height < 1 { 1 } else { height };
    proof {
        lemma_samples(width as int, height as int);
        lemma_tile(tile_side(w as int), tile_side(h as int));
    }
    let all: u64 = w * h;
    let tile: u64 = if all <= 0x10_0000 {
        all
    } else {
        let tw: u64 = if w < 1024 { w } else { 1024 };
        let th: u64 = if h < 1024 { h } else { 1024 };
        tw * th
    };
    let mut live: u128 = fixed + 160 * all as u128 + per_tile_sample * tile as u128;
    if rate_matched {
        live = live + 88_080_384 + 4 * all as u128;
    }
    let live_bytes: u64 = if live > u64::MAX as u128 { u64::MAX } else { live as u64 };
    MemoryEstimate { live_bytes, pool_bytes: pool_limit as u64 }
}

/// No operating point is estimated to need less than a smaller one, and a search for a rate never
/// less than a single encode.
pub proof fn law_encodes_ordered(width: int, height: int, rate_matched: bool)
    requires
        0 <= width,
        0 <= height,
    ensures
        spec_encode_bytes(width, height, OperatingPoint::Sop, rate_matched) == spec_encode_bytes(
            width,
            height,
            OperatingPoint::Bop,
            rate_matched,
        ),
        spec_encode_bytes(width, height, OperatingPoint::Bop, rate_matched) <= spec_encode_bytes(
            width,
            height,
            OperatingPoint::Hop,
            rate_matched,
        ),
        forall|op: OperatingPoint|
            #[trigger] spec_encode_bytes(width, height, op, false) <= spec_encode_bytes(
                width,
                height,
                op,
                true,
            ),
{
    lemma_samples(width, height);
    lemma_tile(tile_side(side(width)), tile_side(side(height)));
}

/// Tiling caps the per-tile term: a large picture costs what its samples cost, and at most one
/// full tile on top.
pub proof fn law_tile_term_capped(width: int, height: int, op: OperatingPoint)
    requires
        0 <= width,
        0 <= height,
    ensures
        spec_encode_bytes(width, height, op, false) <= fixed_bytes(op) + 160 * samples(
            width,
            height,
        ) + tile_bytes(op) * 0x10_0000,
{
    lemma_samples(width, height);
    lemma_tile(tile_side(side(width)), tile_side(side(height)));
    let (k, t) = (tile_bytes(op), tile_samples(width, height));
    assert(k * t <= k * 0x10_0000) by (nonlinear_arith)
        requires
            0 <= k,
            t <= 0x10_0000,
    ;
}

} // verus!

//! What a decode or an encode may take, and what it is judged by.

use vstd::prelude::*;

use crate::decoder::api;
use crate::decoder::limits;
use crate::decoder::limits::Limits;
use crate::encoder::limits as encode_limits;
use crate::encoder::limits::EncodeLimits;
use crate::error::Error;
use crate::header::{OperatingPoint, SynthesisTiling};

verus! {

/// A picture passes if and only if it is below every bound that is set.
pub proof fn law_pictures_within_bounds_pass(l: Limits, width: u32, height: u32, live: u64)
    ensures
        limits::header_violation(l, width, height, live) is None <==> {
            &&& l.max_width matches Some(m) ==> width <= m
            &&& l.max_height matches Some(m) ==> height <= m
            &&& l.max_pixels matches Some(m) ==> width * height <= m
            &&& l.max_memory_bytes matches Some(m) ==> live <= m
        },
{
}

/// A picture that breaks one bound alone is refused for that bound.
pub proof fn law_pictures_are_refused_for_their_bound(
    l: Limits,
    width: u32,
    height: u32,
    live: u64,
)
    ensures
        ({
            let e = limits::header_violation(l, width, height, live);
            &&& (l.max_width matches Some(m) && width > m) ==> e == Some(
                Error::LimitExceeded("picture wider than max_width"),
            )
            &&& l.max_width is None && (l.max_height matches Some(m) && height > m) ==> e == Some(
                Error::LimitExceeded("picture taller than max_height"),
            )
            &&& l.max_width is None && l.max_height is None && (l.max_pixels matches Some(m)
                && width * height > m) ==> e == Some(
                Error::LimitExceeded("picture has more than max_pixels samples"),
            )
            &&& l.max_width is None && l.max_height is None && l.max_pixels is None && (
            l.max_memory_bytes matches Some(m) && live > m) ==> e == Some(
                Error::LimitExceeded("estimated decode memory exceeds max_memory_bytes"),
            )
        }),
{
}

/// A source passes if and only if it is below every bound that is set.
pub proof fn law_sources_within_bounds_pass(l: EncodeLimits, width: int, height: int, live: u64)
    ensures
        encode_limits::source_violation(l, width, height, live) is None <==> {
            &&& l.max_width matches Some(m) ==> width <= m
            &&& l.max_height matches Some(m) ==> height <= m
            &&& l.max_pixels matches Some(m) ==> width * height <= m
            &&& l.max_memory_bytes matches Some(m) ==> live <= m
        },
        encode_limits::source_violation(l, width, height, live) matches Some(e)
            ==> e is LimitExceeded,
{
}

/// A source that breaks one bound alone is refused for that bound.
pub proof fn law_sources_are_refused_for_their_bound(
    l: EncodeLimits,
    width: int,
    height: int,
    live: u64,
)
    ensures
        ({
            let e = encode_limits::source_violation(l, width, height, live);
            &&& (l.max_width matches Some(m) && width > m) ==> e == Some(
                Error::LimitExceeded("picture wider than max_width"),
            )
            &&& l.max_width is None && (l.max_height matches Some(m) && height > m) ==> e == Some(
                Error::LimitExceeded("picture taller than max_height"),
            )
            &&& l.max_width is None && l.max_height is None && (l.max_pixels matches Some(m)
                && width * height > m) ==> e == Some(
                Error::LimitExceeded("picture has more than max_pixels samples"),
            )
            &&& l.max_width is None && l.max_height is None && l.max_pixels is None && (
            l.max_memory_bytes matches Some(m) && live > m) ==> e == Some(
                Error::LimitExceeded("estimated encode memory exceeds max_memory_bytes"),
            )
        }),
{
}

/// A byte count that fits is kept; any other counts as the largest.
pub proof fn law_byte_counts_saturate(n: int)
    requires
        0 <= n,
    ensures
        n <= u64::MAX ==> limits::saturated(n) == n,
        n > u64::MAX ==> limits::saturated(n) == u64::MAX,
{
}

/// Bytes that a decode holds whatever the picture.
pub open spec fn decode_base(op: OperatingPoint) -> int {
    if op == OperatingPoint::Hop {
        46_137_344
    } else {
        33_554_432
    }
}

/// Bytes that a decode holds for each sample of a synthesis tile.
pub open spec fn decode_rate(op: OperatingPoint) -> int {
    if op == OperatingPoint::Hop {
        970
    } else if op == OperatingPoint::Bop {
        92
    } else {
        36
    }
}

/// Each sample of a picture takes 20 bytes, each of a synthesis tile what the operating point
/// takes: of an untiled picture all samples are in the one tile, of a picture that is larger than
/// its tiles along both sides those of one square tile, and a tile that reaches past a side ends
/// with it.
pub proof fn law_decode_memory(width: u32, height: u32, tiling: SynthesisTiling, op: OperatingPoint)
    ensures
        ({
            let (w, h, t) = (width as int, height as int, tiling.tile_size as int);
            let k = decode_rate(op);
            let base = decode_base(op) + 20 * (w * h);
            let untiled = base + k * (w * h);
            let square = base + k * (t * t);
            let wide = base + k * (t * h);
            let tall = base + k * (w * t);
            let fits = |n: int, live: u64|
                if n > u64::MAX {
                    live == u64::MAX
                } else {
                    live == n
                };
            &&& fits(untiled, limits::spec_live_bytes(width, height, None, op))
            &&& t <= w && t <= h ==> fits(
                square,
                limits::spec_live_bytes(width, height, Some(tiling), op),
            )
            &&& t <= w && h <= t ==> fits(
                wide,
                limits::spec_live_bytes(width, height, Some(tiling), op),
            )
            &&& w <= t && t <= h ==> fits(
                tall,
                limits::spec_live_bytes(width, height, Some(tiling), op),
            )
            &&& w <= t && h <= t ==> fits(
                untiled,
                limits::spec_live_bytes(width, height, Some(tiling), op),
            )
        }),
{
    let (w, h, t) = (width as int, height as int, tiling.tile_size as int);
    let k = decode_rate(op);
    assert(k == limits::tile_bytes(op));
    assert(0 <= w * h && 0 <= k * (w * h) && 0 <= k * (t * t) && 0 <= k * (t * h) && 0 <= k * (w
        * t)) by (nonlinear_arith)
        requires
            0 <= w,
            0 <= h,
            0 <= t,
            0 <= k,
    ;
}

/// Bytes that an encode holds whatever the picture.
pub open spec fn encode_base(op: OperatingPoint) -> int {
    if op == OperatingPoint::Hop {
        272_629_760
    } else {
        178_257_920
    }
}

/// Bytes that an encode holds for each sample of an analysis tile.
pub open spec fn encode_rate(op: OperatingPoint) -> int {
    if op == OperatingPoint::Hop {
        260
    } else {
        200
    }
}

/// Each sample of a source takes 160 bytes, each of an analysis tile what the operating point
/// takes: a picture of at most a mebisample is one tile, any other has tiles of at most 1024 samples
/// along a side. A search for a rate takes 84 MiB and four bytes a sample on top.
pub proof fn law_encode_memory(width: int, height: int, op: OperatingPoint)
    requires
        1 <= width <= 0xffff_ffff,
        1 <= height <= 0xffff_ffff,
    ensures
        ({
            let n = width * height;
            let tile = if n <= 0x10_0000 {
                n
            } else if width >= 1024 && height >= 1024 {
                0x10_0000
            } else if width >= 1024 {
                1024 * height
            } else {
                width * 1024
            };
            let live = encode_base(op) + 160 * n + encode_rate(op) * tile;
            let fits = |n: int, live: u64|
                if n > u64::MAX {
                    live == u64::MAX
                } else {
                    live == n
                };
            &&& fits(live, encode_limits::spec_encode_bytes(width, height, op, false))
            &&& fits(
                live + 84 * 0x10_0000 + 4 * n,
                encode_limits::spec_encode_bytes(width, height, op, true),
            )
        }),
{
    let n = width * height;
    assert(n >= 1) by (nonlinear_arith)
        requires
            width >= 1,
            height >= 1,
            n == width * height,
    ;
    if width < 1024 && height < 1024 {
        assert(n <= 0x10_0000) by (nonlinear_arith)
            requires
                1 <= width < 1024,
                1 <= height < 1024,
                n == width * height,
        ;
    }
    let tile = encode_limits::tile_samples(width, height);
    assert(0 <= tile) by {
        if n > 0x10_0000 {
            assert(0 <= encode_limits::tile_side(width) * encode_limits::tile_side(height))
                by (nonlinear_arith)
                requires
                    0 <= encode_limits::tile_side(width),
                    0 <= encode_limits::tile_side(height),
            ;
        }
    }
    assert(1024 * 1024 == 0x10_0000);
    let k = encode_rate(op);
    assert(0 <= k * tile) by (nonlinear_arith)
        requires
            0 <= k,
            0 <= tile,
    ;
}

/// The synthesis transform of a decode is one that the stream lists: the one that was asked for, or
/// the stream's first. Nothing else is run, and a decode is refused only where the stream lists none
/// or not the one that was asked for.
pub proof fn law_listed_transforms_are_run(
    listed: Seq<OperatingPoint>,
    wanted: Option<OperatingPoint>,
    i: int,
)
    requires
        0 <= i < listed.len(),
    ensures
        ({
            let r = api::spec_operating_point(listed, wanted);
            &&& wanted is None ==> r == Ok::<OperatingPoint, Error>(listed[0])
            &&& wanted == Some(listed[i]) ==> r == Ok::<OperatingPoint, Error>(listed[i])
            &&& r matches Ok(op) ==> listed.contains(op) && (wanted matches Some(w) ==> op == w)
            &&& r is Err ==> wanted is Some && r->Err_0 is InvalidArgument
        }),
        api::spec_operating_point(seq![], wanted) is Err,
{
    assert(wanted == Some(listed[i]) ==> listed.contains(wanted->Some_0));
}

/// The pool holds as much as it may: all that it was given, or all that the memory bound leaves.
pub proof fn law_pool_takes_what_is_left(
    l: Limits,
    width: u32,
    height: u32,
    live: u64,
    pool_limit: usize,
)
    requires
        limits::header_violation(l, width, height, live) is None,
    ensures
        ({
            let pool = api::spec_pool(l, live, pool_limit);
            &&& 0 <= pool <= pool_limit
            &&& l.max_memory_bytes is None ==> pool == pool_limit
            &&& l.max_memory_bytes matches Some(max) ==> live + pool <= max && (pool == pool_limit
                || live + pool == max)
        }),
{
}

} // verus!

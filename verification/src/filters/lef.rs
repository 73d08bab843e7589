//! LEF ("luma edge filter"): adaptive luma sharpening steered by one channel of the entropy
//! stage's scale map. The sharpening itself is arithmetic on samples; here stand the tables and
//! rules that select it.

use vstd::prelude::*;

use crate::error::{Error, Result};
use crate::planes::PlaneSize;

verus! {

/// Sigma-index thresholds per `model_id`. Not signalled.
pub const THRESHOLDS: [[i32; 3]; 4] = [
    [600, 1200, 2000],
    [800, 1400, 2400],
    [1000, 1600, 2800],
    [1200, 2000, 3200],
];

/// Why a plane cannot be sharpened.
pub open spec fn sharpen_error(
    luma: PlaneSize,
    scale: PlaneSize,
    channel: int,
    model_id: int,
    bit_depth: u8,
) -> Option<Error> {
    if model_id >= 4 {
        Some(Error::InvalidData("LEF: model_id out of range"))
    } else if channel >= scale.c {
        Some(Error::InvalidData("LEF: channel index out of range"))
    } else if luma.c != 1 || luma.h == 0 || luma.w == 0 || scale.h == 0 || scale.w == 0 {
        Some(Error::InvalidArgument("LEF: empty picture or scale map"))
    } else if bit_depth < 1 || bit_depth > 16 {
        Some(Error::InvalidArgument("LEF: bit depth"))
    } else {
        None
    }
}

/// Check that a luma plane can be sharpened, steered by a channel of a scale map.
pub fn check_sharpen(
    luma: PlaneSize,
    scale: PlaneSize,
    channel: usize,
    model_id: usize,
    bit_depth: u8,
) -> (r: Result<()>)
    ensures
        r == match sharpen_error(luma, scale, channel as int, model_id as int, bit_depth) {
            Some(e) => Err::<(), Error>(e),
            None => Ok::<(), Error>(()),
        },
{
    if model_id >= 4 {
        return Err(Error::InvalidData("LEF: model_id out of range"));
    }
    if channel >= scale.c {
        return Err(Error::InvalidData("LEF: channel index out of range"));
    }
    if luma.c != 1 || luma.h == 0 || luma.w == 0 || scale.h == 0 || scale.w == 0 {
        return Err(Error::InvalidArgument("LEF: empty picture or scale map"));
    }
    if bit_depth < 1 || bit_depth > 16 {
        return Err(Error::InvalidArgument("LEF: bit depth"));
    }
    Ok(())
}

/// The band of a sigma index: how many of the model's thresholds it reaches.
pub open spec fn spec_band(model_id: int, sigma: i32) -> int {
    let t = THRESHOLDS@[model_id]@;
    if sigma >= t[2] {
        3
    } else if sigma >= t[1] {
        2
    } else if sigma >= t[0] {
        1
    } else {
        0
    }
}

/// The band of a sigma index: 0 is left as it is, 1 to 3 are sharpened with the model's gain of
/// that band.
pub fn band(model_id: usize, sigma: i32) -> (b: usize)
    requires
        model_id < 4,
    ensures
        b == spec_band(model_id as int, sigma),
        b <= 3,
{
    let t: [i32; 3] = THRESHOLDS[model_id];
    if sigma >= t[2] {
        3
    } else if sigma >= t[1] {
        2
    } else if sigma >= t[0] {
        1
    } else {
        0
    }
}

/// The sample lies on the border ring, which keeps its value: it is only clamped to the range.
pub open spec fn spec_on_border(y: int, x: int, h: int, w: int) -> bool {
    y == 0 || y + 1 == h || w < 3 || x == 0 || x + 1 == w
}

/// Whether a sample lies on the border ring, which keeps its value.
pub fn on_border(y: usize, x: usize, h: usize, w: usize) -> (b: bool)
    requires
        y < h,
        x < w,
    ensures
        b == spec_on_border(y as int, x as int, h as int, w as int),
{
    y == 0 || y + 1 == h || w < 3 || x == 0 || x + 1 == w
}

/// A larger sigma index never lies in a lower band.
pub proof fn law_bands_ordered(model_id: int, a: i32, b: i32)
    requires
        0 <= model_id < 4,
        a <= b,
    ensures
        0 <= spec_band(model_id, a) <= spec_band(model_id, b) <= 3,
{
    let t = THRESHOLDS@[model_id]@;
    assert(t[0] <= t[1] <= t[2]);
}

/// Why a scale map has no channel to signal.
pub open spec fn map_error(scale: PlaneSize) -> Option<Error> {
    if scale.c == 0 || scale.h == 0 || scale.w == 0 {
        Some(Error::InvalidData("LEF: empty luma scale map"))
    } else if scale.c > 256 {
        Some(Error::InvalidData("LEF: more channels than LEF_chIdx can signal"))
    } else {
        None
    }
}

/// Check that one of a scale map's channels can be signalled.
pub fn check_scale_map(scale: PlaneSize) -> (r: Result<()>)
    ensures
        r == match map_error(scale) {
            Some(e) => Err::<(), Error>(e),
            None => Ok::<(), Error>(()),
        },
{
    if scale.c == 0 || scale.h == 0 || scale.w == 0 {
        return Err(Error::InvalidData("LEF: empty luma scale map"));
    }
    if scale.c > 256 {
        return Err(Error::InvalidData("LEF: more channels than LEF_chIdx can signal"));
    }
    Ok(())
}

} // verus!

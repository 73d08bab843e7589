//! Source pictures: their chroma formats, planar YUV files, and the packing of the chroma planes
//! for the analysis transform.

use vstd::prelude::*;
use vstd::std_specs::convert::FromSpecImpl;

use crate::decoder::output::{RgbImage, YuvImage};
use crate::encoder::tiles;
use crate::error::{Error, Result};
use crate::header::ColourTransform;

verus! {

/// A picture the encoder can take.
#[derive(Clone, Debug)]
pub enum SourceImage {
    /// Interleaved RGB; coded as `colour_transform_idx` 1 (BT.709), `s_ver = s_hor = 1`.
    Rgb(RgbImage),
    /// Planar YUV in the source's subsampling; coded as `colour_transform_idx` 0.
    Yuv(YuvImage),
}

/// What the picture header carries about the source and the coded chroma format.
#[derive(Clone, Debug, PartialEq, Eq)]
pub struct SourceMeta {
    /// Bits per sample of the source (`bit_depth_idc`'s decoded value).
    pub bit_depth: u8,
    /// Source chroma subsampling factors (1 or 2), vertical and horizontal.
    pub s_ver: u8,
    /// See [`SourceMeta::s_ver`], horizontal factor.
    pub s_hor: u8,
    /// Coded chroma subsampling factors after the overrides.
    pub c_ver: u8,
    /// See [`SourceMeta::c_ver`], horizontal factor.
    pub c_hor: u8,
    /// `ColourTransform::Plain` for a YUV source, `Bt709` for RGB.
    pub colour_transform: ColourTransform,
}

/// 4:4:4, 4:2:2 or 4:2:0.
pub open spec fn is_format(c: (u8, u8)) -> bool {
    c == (1u8, 1u8) || c == (1u8, 2u8) || c == (2u8, 2u8)
}

/// The override where there is one, else the source's own factor.
pub open spec fn chosen(source: u8, given: Option<u8>) -> u8 {
    match given {
        Some(c) => c,
        None => source,
    }
}

/// Why a source with the factors `s` cannot be coded with the factors `c`.
pub open spec fn format_error(s: (u8, u8), c: (u8, u8)) -> Option<Error> {
    if c.0 < s.0 || c.1 < s.1 {
        Some(Error::InvalidArgument("coded chroma subsampling must not be finer than the source's"))
    } else if !is_format(c) {
        Some(Error::Unsupported("coded chroma format must be 4:4:4, 4:2:2 or 4:2:0"))
    } else if s == (1u8, 2u8) && c == (2u8, 2u8) {
        Some(Error::Unsupported("a 4:2:2 source cannot be coded as 4:2:0"))
    } else {
        None
    }
}

/// What a source resolves to, with overrides of the coded factors.
pub open spec fn spec_resolve(
    s: (u8, u8),
    bit_depth: u8,
    colour_transform: ColourTransform,
    given: (Option<u8>, Option<u8>),
) -> Result<SourceMeta> {
    let c = (chosen(s.0, given.0), chosen(s.1, given.1));
    match format_error(s, c) {
        Some(e) => Err(e),
        None => Ok(
            SourceMeta {
                bit_depth,
                s_ver: s.0,
                s_hor: s.1,
                c_ver: c.0,
                c_hor: c.1,
                colour_transform,
            },
        ),
    }
}

impl SourceMeta {
    /// The coded factors: the override when given, otherwise the source's own subsampling. A
    /// coded format finer than the source's is refused, and so is 4:2:0 from a 4:2:2 source.
    pub fn resolve(
        s_ver: u8,
        s_hor: u8,
        bit_depth: u8,
        colour_transform: ColourTransform,
        c_ver: Option<u8>,
        c_hor: Option<u8>,
    ) -> (r: Result<Self>)
        ensures
            r == spec_resolve((s_ver, s_hor), bit_depth, colour_transform, (c_ver, c_hor)),
    {
        let c_ver: u8 = match c_ver {
            Some(c) => c,
            None => s_ver,
        };
        let c_hor: u8 = match c_hor {
            Some(c) => c,
            None => s_hor,
        };
        if c_ver < s_ver || c_hor < s_hor {
            return Err(
                Error::InvalidArgument(
                    "coded chroma subsampling must not be finer than the source's",
                ),
            );
        }
        if !((c_ver == 1 && (c_hor == 1 || c_hor == 2)) || (c_ver == 2 && c_hor == 2)) {
            return Err(Error::Unsupported("coded chroma format must be 4:4:4, 4:2:2 or 4:2:0"));
        }
        if s_ver == 1 && s_hor == 2 && c_ver == 2 && c_hor == 2 {
            return Err(Error::Unsupported("a 4:2:2 source cannot be coded as 4:2:0"));
        }
        Ok(SourceMeta { bit_depth, s_ver, s_hor, c_ver, c_hor, colour_transform })
    }
}

/// The chroma factors that a chroma plane's size shows.
pub open spec fn spec_factors(w: int, h: int, cw: int, ch: int) -> Option<(u8, u8)> {
    if (cw, ch) == (w, h) {
        Some((1u8, 1u8))
    } else if (cw, ch) == (tiles::ceil(w, 2), h) {
        Some((1u8, 2u8))
    } else if (cw, ch) == (tiles::ceil(w, 2), tiles::ceil(h, 2)) {
        Some((2u8, 2u8))
    } else {
        None
    }
}

/// A source's chroma factors.
pub open spec fn spec_subsampling(src: SourceImage) -> Result<(u8, u8)> {
    match src {
        SourceImage::Rgb(_) => Ok((1u8, 1u8)),
        SourceImage::Yuv(i) => match spec_factors(
            i.width as int,
            i.height as int,
            i.chroma_width as int,
            i.chroma_height as int,
        ) {
            Some(s) => Ok(s),
            None => Err(
                Error::InvalidArgument(
                    "chroma plane size matches no 4:4:4 / 4:2:2 / 4:2:0 source format",
                ),
            ),
        },
    }
}

impl SourceImage {
    /// Luma width in samples.
    pub open spec fn spec_width(self) -> usize {
        match self {
            SourceImage::Rgb(i) => i.width,
            SourceImage::Yuv(i) => i.width,
        }
    }

    /// Luma height in samples.
    pub open spec fn spec_height(self) -> usize {
        match self {
            SourceImage::Rgb(i) => i.height,
            SourceImage::Yuv(i) => i.height,
        }
    }

    /// Bits per sample of the source.
    pub open spec fn spec_depth(self) -> u8 {
        match self {
            SourceImage::Rgb(i) => i.bit_depth,
            SourceImage::Yuv(i) => i.bit_depth,
        }
    }

    /// BT.709 for RGB, none for YUV.
    pub open spec fn spec_transform(self) -> ColourTransform {
        match self {
            SourceImage::Rgb(_) => ColourTransform::Bt709,
            SourceImage::Yuv(_) => ColourTransform::Plain,
        }
    }

    /// Luma width in samples.
    pub fn width(&self) -> (n: usize)
        ensures
            n == self.spec_width(),
    {
        match self {
            SourceImage::Rgb(i) => i.width,
            SourceImage::Yuv(i) => i.width,
        }
    }

    /// Luma height in samples.
    pub fn height(&self) -> (n: usize)
        ensures
            n == self.spec_height(),
    {
        match self {
            SourceImage::Rgb(i) => i.height,
            SourceImage::Yuv(i) => i.height,
        }
    }

    /// Bits per sample of the source.
    pub fn bit_depth(&self) -> (n: u8)
        ensures
            n == self.spec_depth(),
    {
        match self {
            SourceImage::Rgb(i) => i.bit_depth,
            SourceImage::Yuv(i) => i.bit_depth,
        }
    }

    /// The source's chroma subsampling `(s_ver, s_hor)`, derived from the chroma plane size.
    pub fn subsampling(&self) -> (r: Result<(u8, u8)>)
        ensures
            r == spec_subsampling(*self),
    {
        match self {
            SourceImage::Rgb(_) => Ok((1, 1)),
            SourceImage::Yuv(i) => {
                let (w, h, cw, ch): (usize, usize, usize, usize) = (
                    i.width,
                    i.height,
                    i.chroma_width,
                    i.chroma_height,
                );
                if cw == w && ch == h {
                    Ok((1, 1))
                } else if cw == tiles::div_up(w, 2) && ch == h {
                    Ok((1, 2))
                } else if cw == tiles::div_up(w, 2) && ch == tiles::div_up(h, 2) {
                    Ok((2, 2))
                } else {
                    Err(
                        Error::InvalidArgument(
                            "chroma plane size matches no 4:4:4 / 4:2:2 / 4:2:0 source format",
                        ),
                    )
                }
            },
        }
    }

    /// [`SourceMeta`] for this source with the `c_ver` / `c_hor` overrides applied.
    pub fn meta(&self, c_ver: Option<u8>, c_hor: Option<u8>) -> (r: Result<SourceMeta>)
        ensures
            r == match spec_subsampling(*self) {
                Err(e) => Err::<SourceMeta, Error>(e),
                Ok(s) => spec_resolve(s, self.spec_depth(), self.spec_transform(), (c_ver, c_hor)),
            },
    {
        let (s_ver, s_hor): (u8, u8) = self.subsampling()?;
        let transform = match self {
            SourceImage::Rgb(_) => ColourTransform::Bt709,
            SourceImage::Yuv(_) => ColourTransform::Plain,
        };
        SourceMeta::resolve(s_ver, s_hor, self.bit_depth(), transform, c_ver, c_hor)
    }
}

impl From<RgbImage> for SourceImage {
    fn from(rgb: RgbImage) -> (s: Self) {
        SourceImage::Rgb(rgb)
    }
}

impl FromSpecImpl<RgbImage> for SourceImage {
    open spec fn obeys_from_spec() -> bool {
        true
    }

    open spec fn from_spec(rgb: RgbImage) -> Self {
        SourceImage::Rgb(rgb)
    }
}

impl From<YuvImage> for SourceImage {
    fn from(yuv: YuvImage) -> (s: Self) {
        SourceImage::Yuv(yuv)
    }
}

impl FromSpecImpl<YuvImage> for SourceImage {
    open spec fn obeys_from_spec() -> bool {
        true
    }

    open spec fn from_spec(yuv: YuvImage) -> Self {
        SourceImage::Yuv(yuv)
    }
}

/// A source's own factors resolve, without overrides, to themselves.
pub proof fn law_own_format_is_codable(src: SourceImage)
    requires
        spec_subsampling(src) is Ok,
    ensures
        ({
            let s = spec_subsampling(src)->Ok_0;
            spec_resolve(s, src.spec_depth(), src.spec_transform(), (None, None)) matches Ok(m)
                && (m.c_ver, m.c_hor) == s && (m.s_ver, m.s_hor) == s
        }),
{
}

} // verus!

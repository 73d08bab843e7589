//! One-call decoding: what a decoder is set to, and what it settles from the headers before any
//! network runs.

use vstd::prelude::*;

use crate::bitio;
use crate::container;
use crate::container::Codestream;
use crate::decoder::headers;
use crate::decoder::headers::{read_headers, Headers, HeadersView};
use crate::decoder::limits;
use crate::decoder::limits::{estimate_memory, Limits, MemoryEstimate};
use crate::decoder::output::{Picture, RgbImage};
use crate::error::{Error, Result};
use crate::header::{OperatingPoint, PictureHeader};

verus! {

/// The settings of a decoder.
#[derive(Clone, Copy, Debug)]
pub struct Decoder {
    /// Decode with this synthesis transform instead of the stream's default.
    pub operating_point: Option<OperatingPoint>,
    /// Read only the first luma and chroma latent channels.
    pub max_channels: (Option<u16>, Option<u16>),
    /// Bounds on every decode.
    pub limits: Limits,
}

/// What a decode settles before any picture-sized allocation.
#[derive(Debug)]
pub struct DecodePlan {
    pub headers: Headers,
    /// The synthesis transform.
    pub op: OperatingPoint,
    /// Predicted heap use.
    pub estimate: MemoryEstimate,
    /// What the recycled-buffer pool may hold during this decode.
    pub pool_limit: usize,
}

/// The synthesis transform that a decode runs: the one asked for, which the stream must list, or
/// the first that it lists.
pub open spec fn spec_operating_point(listed: Seq<OperatingPoint>, wanted: Option<OperatingPoint>) -> core::result::Result<
    OperatingPoint,
    Error,
> {
    if listed.len() == 0 {
        Err(Error::InvalidData("no synthesis transform listed"))
    } else {
        match wanted {
            None => Ok(listed[0]),
            Some(op) => if listed.contains(op) {
                Ok(op)
            } else {
                Err(
                    Error::InvalidArgument(
                        "the stream does not allow the requested operating point",
                    ),
                )
            },
        }
    }
}

/// What the pool may hold where the decode itself holds `live` bytes.
pub open spec fn spec_pool(limits: Limits, live: u64, pool_limit: usize) -> int {
    match limits.max_memory_bytes {
        Some(max) => if pool_limit > max - live {
            max - live
        } else {
            pool_limit as int
        },
        None => pool_limit as int,
    }
}

/// The headers of a stream, or the first thing that is wrong with them.
pub open spec fn spec_stream_headers(stream: Seq<u8>) -> core::result::Result<HeadersView, Error> {
    match container::spec_parse(stream) {
        Err(e) => Err(e),
        Ok(subs) => headers::spec_headers(subs),
    }
}

/// The heap that a decode of a stream needs.
pub open spec fn live_bytes(h: HeadersView, op: OperatingPoint) -> u64 {
    limits::spec_live_bytes(
        h.picture.geometry.width,
        h.picture.geometry.height,
        h.picture.luma.synthesis_tiling,
        op,
    )
}

impl Decoder {
    /// A decoder with the default limits, which runs each stream's default transform.
    pub fn new() -> (d: Self)
        ensures
            d.operating_point is None,
            d.max_channels == (None::<u16>, None::<u16>),
            d.limits == (Limits {
                max_pixels: Some(120_000_000),
                max_width: None,
                max_height: None,
                max_input_bytes: None,
                max_memory_bytes: Some(0x1_0000_0000),
            }),
    {
        Decoder { operating_point: None, max_channels: (None, None), limits: Limits::default() }
    }

    /// Decode with this synthesis transform instead of the stream's default (its first listed
    /// one). Decoding fails if the stream does not list it.
    pub fn operating_point(self, op: Option<OperatingPoint>) -> (d: Self)
        ensures
            d == (Decoder { operating_point: op, ..self }),
    {
        Decoder { operating_point: op, ..self }
    }

    /// Progressive decode: read only the first `luma` / `chroma` latent channels. Channels are
    /// coded in order of importance, so a prefix gives a coarser picture for less
    /// entropy-decoding work. `None` decodes all of them.
    pub fn max_channels(self, luma: Option<u16>, chroma: Option<u16>) -> (d: Self)
        ensures
            d == (Decoder { max_channels: (luma, chroma), ..self }),
    {
        Decoder { max_channels: (luma, chroma), ..self }
    }

    /// Resource limits for every decode of this decoder.
    pub fn limits(self, limits: Limits) -> (d: Self)
        ensures
            d == (Decoder { limits, ..self }),
    {
        Decoder { limits, ..self }
    }

    /// The synthesis transform a decode of this stream would run.
    pub fn pick_operating_point(&self, hdr: &PictureHeader) -> (r: Result<OperatingPoint>)
        ensures
            r == spec_operating_point(hdr.synthesis_transforms@, self.operating_point),
    {
        if hdr.synthesis_transforms.len() == 0 {
            return Err(Error::InvalidData("no synthesis transform listed"));
        }
        match self.operating_point {
            None => Ok(hdr.synthesis_transforms[0]),
            Some(op) => {
                let mut i: usize = 0;
                while i < hdr.synthesis_transforms.len()
                    invariant
                        i <= hdr.synthesis_transforms@.len(),
                        self.operating_point == Some(op),
                        hdr.synthesis_transforms@.len() > 0,
                        forall|j: int| 0 <= j < i ==> #[trigger] hdr.synthesis_transforms@[j] != op,
                    decreases hdr.synthesis_transforms@.len() - i,
                {
                    if hdr.synthesis_transforms[i] == op {
                        proof {
                            assert(hdr.synthesis_transforms@.contains(op));
                        }
                        return Ok(op);
                    }
                    i = i + 1;
                }
                Err(
                    Error::InvalidArgument(
                        "the stream does not allow the requested operating point",
                    ),
                )
            },
        }
    }

    /// Parse the headers only.
    pub fn read_headers(&self, stream: &[u8]) -> (r: Result<Headers>)
        requires
            bitio::addressable(stream@.len()),
        ensures
            match spec_stream_headers(stream@) {
                Ok(v) => r matches Ok(h) && h@ == v,
                Err(e) => r == Err::<Headers, Error>(e),
            },
            r matches Ok(h) ==> h.picture.coded_size() && h.picture.displayable(),
    {
        let cs = Codestream::parse(stream)?;
        read_headers(&cs)
    }

    /// Predicted heap use of decoding `stream` with this decoder's operating point, from the
    /// headers alone, where the recycled-buffer pool may hold `pool_limit` bytes.
    pub fn estimate_memory(&self, stream: &[u8], pool_limit: usize) -> (r: Result<MemoryEstimate>)
        requires
            bitio::addressable(stream@.len()),
        ensures
            match spec_stream_headers(stream@) {
                Err(e) => r == Err::<MemoryEstimate, Error>(e),
                Ok(h) => match spec_operating_point(
                    h.picture.synthesis_transforms,
                    self.operating_point,
                ) {
                    Err(e) => r == Err::<MemoryEstimate, Error>(e),
                    Ok(op) => r == Ok::<MemoryEstimate, Error>(
                        MemoryEstimate {
                            live_bytes: live_bytes(h, op),
                            pool_bytes: pool_limit as u64,
                        },
                    ),
                },
            },
    {
        let h = self.read_headers(stream)?;
        let op: OperatingPoint = self.pick_operating_point(&h.picture)?;
        Ok(estimate_memory(&h.picture, op, pool_limit))
    }

    /// What a decode of `stream` settles first: the input is judged by its size, then by its
    /// headers alone, before any picture-sized allocation. The pool is shrunk so that its buffers
    /// fit under the memory bound together with what the decode itself holds.
    pub fn plan(&self, stream: &[u8], pool_limit: usize) -> (r: Result<DecodePlan>)
        requires
            bitio::addressable(stream@.len()),
        ensures
            if limits::above(stream@.len() as int, self.limits.max_input_bytes) {
                r == Err::<DecodePlan, Error>(
                    Error::LimitExceeded("codestream larger than max_input_bytes"),
                )
            } else {
                match spec_stream_headers(stream@) {
                    Err(e) => r == Err::<DecodePlan, Error>(e),
                    Ok(h) => match spec_operating_point(
                        h.picture.synthesis_transforms,
                        self.operating_point,
                    ) {
                        Err(e) => r == Err::<DecodePlan, Error>(e),
                        Ok(op) => match limits::header_violation(
                            self.limits,
                            h.picture.geometry.width,
                            h.picture.geometry.height,
                            live_bytes(h, op),
                        ) {
                            Some(e) => r == Err::<DecodePlan, Error>(e),
                            None => r matches Ok(p) && p.headers@ == h && p.op == op
                                && p.estimate.live_bytes == live_bytes(h, op)
                                && p.estimate.pool_bytes == pool_limit && p.pool_limit
                                == spec_pool(self.limits, live_bytes(h, op), pool_limit),
                        },
                    },
                }
            },
            r matches Ok(p) ==> p.headers.picture.coded_size() && p.headers.picture.displayable(),
    {
        self.limits.check_input(stream.len())?;
        let h = self.read_headers(stream)?;
        let op: OperatingPoint = self.pick_operating_point(&h.picture)?;
        let estimate: MemoryEstimate = self.limits.check_header(&h.picture, op, pool_limit)?;
        let pool: usize = match self.limits.max_memory_bytes {
            Some(max) => {
                let room: u64 = max - estimate.live_bytes;
                if pool_limit as u64 > room {
                    room as usize
                } else {
                    pool_limit
                }
            },
            None => pool_limit,
        };
        Ok(DecodePlan { headers: h, op, estimate, pool_limit: pool })
    }

    /// The RGB picture of a decode. Streams coded from a YUV source decode to YUV planes.
    pub fn rgb_only(&self, picture: Picture) -> (r: Result<RgbImage>)
        ensures
            match picture {
                Picture::Rgb(image) => r == Ok::<RgbImage, Error>(image),
                Picture::Yuv(_) => r == Err::<RgbImage, Error>(
                    Error::Unsupported("the stream decodes to YUV planes: use decode_picture"),
                ),
            },
    {
        match picture {
            Picture::Rgb(image) => Ok(image),
            Picture::Yuv(_) => Err(
                Error::Unsupported("the stream decodes to YUV planes: use decode_picture"),
            ),
        }
    }
}

/// What a decode holds and what the pool may hold never exceed the memory bound together.
pub proof fn law_pool_fits_under_bound(l: Limits, width: u32, height: u32, live: u64, pool_limit: usize)
    requires
        limits::header_violation(l, width, height, live) is None,
    ensures
        spec_pool(l, live, pool_limit) <= pool_limit,
        0 <= spec_pool(l, live, pool_limit),
        l.max_memory_bytes matches Some(max) ==> live + spec_pool(l, live, pool_limit) <= max,
{
}

} // verus!

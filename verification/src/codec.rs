//! The codec as a registry of image formats sees it: which bytes are its own, how its errors are
//! classed, and what its configuration settles.

use vstd::prelude::*;

use crate::bitio;
use crate::decoder::api;
use crate::decoder::api::Decoder;
use crate::decoder::headers::Headers;
use crate::decoder::limits;
use crate::decoder::limits::Limits;
use crate::error::{Error, Result};
use crate::header::{Cicp, OperatingPoint};
use crate::text;

verus! {

/// A bound of [`Limits`].
#[derive(Clone, Copy, Debug, PartialEq, Eq, Structural)]
pub enum LimitKind {
    Width,
    Height,
    Pixels,
    Memory,
    InputSize,
}

/// The coarse class of an error.
#[derive(Clone, Copy, Debug, PartialEq, Eq)]
pub enum ErrorCategory {
    /// The image ends too early.
    UnexpectedEof,
    /// The image's bytes are the problem.
    Malformed,
    /// The image uses a coding tool that is not supported.
    UnsupportedFeature,
    /// The request's parameters are the problem.
    InvalidParameters,
    /// A bound would be exceeded.
    Limits(LimitKind),
    /// A shared resource is busy; a retry may succeed.
    Busy,
    /// The caller asked to stop.
    Stopped(enough::StopReason),
}

/// The bound that a reason names; the sample count where it names none of the others.
pub open spec fn spec_limit_kind(reason: Seq<char>) -> LimitKind {
    if text::occurs(reason, "max_width"@) {
        LimitKind::Width
    } else if text::occurs(reason, "max_height"@) {
        LimitKind::Height
    } else if text::occurs(reason, "max_input_bytes"@) {
        LimitKind::InputSize
    } else if text::occurs(reason, "max_memory_bytes"@) {
        LimitKind::Memory
    } else {
        LimitKind::Pixels
    }
}

/// The bound that the reason of an [`Error::LimitExceeded`] names.
pub fn limit_kind_from_reason(reason: &str) -> (k: LimitKind)
    ensures
        k == spec_limit_kind(reason@),
{
    if text::contains(reason, "max_width") {
        LimitKind::Width
    } else if text::contains(reason, "max_height") {
        LimitKind::Height
    } else if text::contains(reason, "max_input_bytes") {
        LimitKind::InputSize
    } else if text::contains(reason, "max_memory_bytes") {
        LimitKind::Memory
    } else {
        LimitKind::Pixels
    }
}

/// The class of an error.
pub open spec fn spec_category(e: Error) -> ErrorCategory {
    match e {
        Error::UnexpectedEof => ErrorCategory::UnexpectedEof,
        Error::InvalidData(_) => ErrorCategory::Malformed,
        Error::NonConforming(_) => ErrorCategory::Malformed,
        Error::Unsupported(_) => ErrorCategory::UnsupportedFeature,
        Error::Model(_) => ErrorCategory::InvalidParameters,
        Error::InvalidArgument(_) => ErrorCategory::InvalidParameters,
        Error::LimitExceeded(reason) => ErrorCategory::Limits(spec_limit_kind(reason@)),
        Error::ResourceBusy(_) => ErrorCategory::Busy,
        Error::Cancelled(reason) => ErrorCategory::Stopped(reason),
    }
}

impl Error {
    /// The class of the error.
    pub fn category(&self) -> (c: ErrorCategory)
        ensures
            c == spec_category(*self),
    {
        match self {
            Error::UnexpectedEof => ErrorCategory::UnexpectedEof,
            Error::InvalidData(_) => ErrorCategory::Malformed,
            Error::NonConforming(_) => ErrorCategory::Malformed,
            Error::Unsupported(_) => ErrorCategory::UnsupportedFeature,
            Error::Model(_) => ErrorCategory::InvalidParameters,
            Error::InvalidArgument(_) => ErrorCategory::InvalidParameters,
            Error::LimitExceeded(reason) => ErrorCategory::Limits(limit_kind_from_reason(reason)),
            Error::ResourceBusy(_) => ErrorCategory::Busy,
            Error::Cancelled(reason) => ErrorCategory::Stopped(*reason),
        }
    }
}

/// SOC (`FF 80`) immediately followed by PIH (`FF 82`).
pub open spec fn spec_detect(data: Seq<u8>) -> bool {
    data.len() >= 4 && data[0] == 0xff && data[1] == 0x80 && data[2] == 0xff && data[3] == 0x82
}

/// Whether bytes begin as every codestream does: SOC (`FF 80`) immediately followed by PIH
/// (`FF 82`).
pub fn detect_jpegai(data: &[u8]) -> (b: bool)
    ensures
        b == spec_detect(data@),
{
    data.len() >= 4 && data[0] == 0xff && data[1] == 0x80 && data[2] == 0xff && data[3] == 0x82
}

/// Where a configuration has no checkpoints: every read is refused.
#[derive(Clone, Copy, Debug, Default)]
pub struct NoModelSource;

impl NoModelSource {
    /// The refusal of a read.
    pub fn read(&self, rel: &str) -> (e: Error)
        ensures
            e matches Error::Model(m) && m@
                == "no model source configured (this config was default-constructed; needed "@
                + rel@ + ")"@,
    {
        let mut m: String = text::copy(
            "no model source configured (this config was default-constructed; needed ",
        );
        m.append(rel);
        m.append(")");
        Error::Model(m)
    }
}

/// Decoder configuration: the operating point jobs synthesise with, and the limits.
#[derive(Clone, Copy, Debug)]
pub struct JpegAiDecoderConfig {
    pub operating_point: Option<OperatingPoint>,
    pub limits: Limits,
}

impl JpegAiDecoderConfig {
    /// A configuration with the default limits.
    pub fn new() -> (c: Self)
        ensures
            c.operating_point is None,
            c.limits.max_pixels == Some(120_000_000u64),
            c.limits.max_memory_bytes == Some(0x1_0000_0000u64),
            c.limits.max_width is None,
            c.limits.max_height is None,
            c.limits.max_input_bytes is None,
    {
        JpegAiDecoderConfig::with_limits(Limits::default())
    }

    /// A configuration with these limits.
    pub fn with_limits(limits: Limits) -> (c: Self)
        ensures
            c == (JpegAiDecoderConfig { operating_point: None, limits }),
    {
        JpegAiDecoderConfig { operating_point: None, limits }
    }

    /// Decode with this synthesis transform instead of the stream's default.
    pub fn operating_point(self, op: Option<OperatingPoint>) -> (c: Self)
        ensures
            c == (JpegAiDecoderConfig { operating_point: op, ..self }),
    {
        JpegAiDecoderConfig { operating_point: op, ..self }
    }

    /// The decoder that jobs run.
    pub fn decoder(&self) -> (d: Decoder)
        ensures
            d.operating_point == self.operating_point,
            d.limits == self.limits,
            d.max_channels == (None::<u16>, None::<u16>),
    {
        Decoder::new().operating_point(self.operating_point).limits(self.limits)
    }

    /// The heap that a decode of a `width x height` picture needs at most: that of an untiled
    /// picture, at the configured operating point or, without one, the base one.
    pub fn estimate_decode_bytes(&self, width: u32, height: u32) -> (n: u64)
        ensures
            n == limits::spec_live_bytes(
                width,
                height,
                None,
                match self.operating_point {
                    Some(op) => op,
                    None => OperatingPoint::Bop,
                },
            ),
    {
        let op: OperatingPoint = match self.operating_point {
            Some(op) => op,
            None => OperatingPoint::Bop,
        };
        let (fixed, per_sample): (u128, u128) = match op {
            OperatingPoint::Sop => (33_554_432, 56),
            OperatingPoint::Bop => (33_554_432, 112),
            OperatingPoint::Hop => (46_137_344, 990),
        };
        let pixels: u64 = limits::area(width, height);
        proof {
            limits::lemma_area(width as int, height as int);
        }
        let live: u128 = fixed + per_sample * pixels as u128;
        if live > u64::MAX as u128 {
            u64::MAX
        } else {
            live as u64
        }
    }
}

impl Default for JpegAiDecoderConfig {
    /// The default limits: a configuration that can probe, and decodes nothing without
    /// checkpoints.
    fn default() -> (c: Self)
        ensures
            c.operating_point is None,
            c.limits.max_pixels == Some(120_000_000u64),
            c.limits.max_memory_bytes == Some(0x1_0000_0000u64),
            c.limits.max_width is None,
            c.limits.max_height is None,
            c.limits.max_input_bytes is None,
    {
        JpegAiDecoderConfig::new()
    }
}

/// A decode through a configuration synthesises with its operating point where the stream lists
/// it, whatever the stream's default is, and is refused where the stream does not.
pub proof fn law_operating_point_is_used(
    c: JpegAiDecoderConfig,
    op: OperatingPoint,
    d: Decoder,
    transforms: Seq<OperatingPoint>,
)
    requires
        c.operating_point == Some(op),
        d.operating_point == c.operating_point,
        transforms.len() > 0,
    ensures
        api::spec_operating_point(transforms, d.operating_point) == if transforms.contains(op) {
            Ok::<OperatingPoint, Error>(op)
        } else {
            Err(
                Error::InvalidArgument("the stream does not allow the requested operating point"),
            )
        },
{
}

/// The limits that a job is judged against: its own where it has some, else the configuration's.
pub fn effective_limits(config: Limits, job: Option<Limits>) -> (l: Limits)
    ensures
        l == match job {
            Some(j) => j,
            None => config,
        },
{
    match job {
        Some(j) => j,
        None => config,
    }
}

/// Probe a stream under these limits: its size first, then its headers. No checkpoint is needed.
pub fn probe(limits: &Limits, data: &[u8]) -> (r: Result<Headers>)
    requires
        bitio::addressable(data@.len()),
    ensures
        if limits::above(data@.len() as int, limits.max_input_bytes) {
            r == Err::<Headers, Error>(
                Error::LimitExceeded("codestream larger than max_input_bytes"),
            )
        } else {
            match api::spec_stream_headers(data@) {
                Ok(v) => r matches Ok(h) && h@ == v,
                Err(e) => r == Err::<Headers, Error>(e),
            }
        },
{
    limits.check_input(data.len())?;
    Decoder::new().read_headers(data)
}

/// What a header says of an image. The colour description is that of the RGB output: its matrix
/// is the identity, whatever the coded one.
#[derive(Clone, Copy, Debug)]
pub struct ImageFacts {
    pub width: u32,
    pub height: u32,
    pub bit_depth: u8,
    pub cicp: Option<Cicp>,
}

/// What the headers say of an image.
pub fn image_facts(headers: &Headers) -> (f: ImageFacts)
    ensures
        f.width == headers.picture.width,
        f.height == headers.picture.height,
        f.bit_depth == headers.picture.bit_depth,
        match headers.rendering.cicp {
            Some(c) => f.cicp == Some(Cicp { matrix_coefficients: 0, ..c }),
            None => f.cicp is None,
        },
{
    ImageFacts {
        width: headers.picture.width,
        height: headers.picture.height,
        bit_depth: headers.picture.bit_depth,
        cicp: match headers.rendering.cicp {
            Some(c) => Some(Cicp { matrix_coefficients: 0, ..c }),
            None => None,
        },
    }
}

/// Whether the output samples take sixteen bits: above 8 bit they do.
pub fn wide_samples(bit_depth: u8) -> (b: bool)
    ensures
        b == (bit_depth > 8),
{
    bit_depth > 8
}

/// Samples of at most 8 bit as bytes; nothing is lost.
pub fn narrowed(data: &Vec<u16>) -> (out: Vec<u8>)
    requires
        forall|i: int| 0 <= i < data@.len() ==> #[trigger] data@[i] <= 255,
    ensures
        out@.len() == data@.len(),
        forall|i: int| 0 <= i < out@.len() ==> #[trigger] out@[i] == data@[i],
{
    let mut out: Vec<u8> = Vec::new();
    while out.len() < data.len()
        invariant
            out@.len() <= data@.len(),
            forall|i: int| 0 <= i < data@.len() ==> #[trigger] data@[i] <= 255,
            forall|i: int| 0 <= i < out@.len() ==> #[trigger] out@[i] == data@[i],
        decreases data@.len() - out@.len(),
    {
        let i: usize = out.len();
        out.push(data[i] as u8);
    }
    out
}

/// Every stream that parses begins as the format does.
pub proof fn law_streams_are_detected(data: Seq<u8>)
    requires
        crate::container::spec_parse(data) is Ok,
    ensures
        spec_detect(data),
{
}

} // verus!

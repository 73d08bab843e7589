//! PNG files: what an encode reads and what a decode writes.

use vstd::prelude::*;
use vstd::arithmetic::power2;

use crate::cli;
use crate::codec;
use crate::decoder::output;
use crate::decoder::output::{Picture, RgbImage};
use crate::error::{Error, Result};

verus! {

/// Width and height that `zenpng::probe` finds in a file; nothing where it finds no PNG.
pub uninterp spec fn png_dimensions(bytes: Seq<u8>) -> Option<(u32, u32)>;

/// Calls `zenpng::probe`, which reads the chunks of a PNG up to its end without decoding pixels.
/// Its result is a function of the bytes alone; the reason of a failure is dropped.
#[verifier::external_body]
fn probe_png(bytes: &[u8]) -> (size: Option<(u32, u32)>)
    ensures
        size == png_dimensions(bytes@),
{
    match zenpng::probe(bytes) {
        Ok(info) => Some((info.width, info.height)),
        Err(_) => None,
    }
}

/// What `zenpng::PngDecoderConfig::decode` makes of a file: the bytes that its pixel buffer holds,
/// the bytes from a row to the next, and the rows; nothing where it fails.
pub uninterp spec fn png_held(bytes: Seq<u8>) -> Option<(usize, usize, u32)>;

/// Calls `zenpng::PngDecoderConfig::decode` with its default configuration, which decodes a PNG in
/// its own format. Where the compressed data ends behind a whole row, some formats are handed out
/// with the rows that were found, so that the buffer holds less than its dimensions ask for. Its
/// result is a function of the bytes alone, given that the allocator hands out even addresses, as
/// malloc does: `zenpixels` aligns grey samples of sixteen bits with alpha. The reason of a failure
/// is dropped.
#[verifier::external_body]
fn hold_png(bytes: &[u8]) -> (held: Option<(usize, usize, u32)>)
    ensures
        held == png_held(bytes@),
{
    match zenpng::PngDecoderConfig::new().decode(bytes) {
        Ok(output) => {
            let buffer = output.into_buffer();
            let (stride, rows) = (buffer.stride(), buffer.height());
            Some((buffer.into_vec().len(), stride, rows))
        },
        Err(_) => None,
    }
}

/// A pixel buffer holds all of its rows.
pub open spec fn holds_rows(held: Option<(usize, usize, u32)>) -> bool {
    held matches Some((have, stride, rows)) ==> have >= stride * rows
}

/// Whether a pixel buffer holds all of its rows, or there is none.
pub fn rows_are_held(held: Option<(usize, usize, u32)>) -> (b: bool)
    ensures
        b == holds_rows(held),
{
    match held {
        None => true,
        Some((have, stride, rows)) => {
            proof {
                assert(0 <= stride * rows <= usize::MAX * u32::MAX) by (nonlinear_arith)
                    requires
                        0 <= stride <= usize::MAX,
                        0 <= rows <= u32::MAX,
                ;
            }
            have as u128 >= stride as u128 * rows as u128
        },
    }
}

/// The samples that `zenpng::PngDecoderConfig::decode_into_rgb8` leaves in a buffer of zeros for
/// `width x height` RGB pixels; nothing where it fails.
pub uninterp spec fn png_rgb8(bytes: Seq<u8>, width: int, height: int) -> Option<Seq<u8>>;

/// Calls `zenpng::PngDecoderConfig::decode_into_rgb8` with its default configuration: any PNG
/// reduced to 8-bit RGB, alpha dropped, row by row into the buffer. Its result is a function of
/// the bytes and of the buffer's dimensions, as that of `zenpng::PngDecoderConfig::decode` is of
/// the bytes, and the buffer keeps its length; the reason of a failure is dropped. A buffer without
/// columns would make `imgref` panic, and a file that decodes to fewer rows than it has would make
/// the conversion to RGB panic.
#[verifier::external_body]
fn decode_png(bytes: &[u8], zeros: Vec<u8>, width: usize, height: usize) -> (samples: Option<Vec<u8>>)
    requires
        1 <= width <= u32::MAX,
        1 <= height <= u32::MAX,
        zeros@.len() == 3 * width * height,
        forall|i: int| 0 <= i < zeros@.len() ==> #[trigger] zeros@[i] == 0,
        holds_rows(png_held(bytes@)),
    ensures
        match samples {
            Some(v) => png_rgb8(bytes@, width as int, height as int) == Some(v@) && v@.len() == 3
                * width * height,
            None => png_rgb8(bytes@, width as int, height as int) is None,
        },
{
    let mut samples = zeros;
    let pixels = rgb::FromSlice::as_rgb_mut(samples.as_mut_slice());
    let buffer = imgref::ImgRefMut::new(pixels, width, height);
    match zenpng::PngDecoderConfig::new().decode_into_rgb8(bytes, buffer) {
        Ok(_) => Some(samples),
        Err(_) => None,
    }
}

/// What a filtered picture may measure in bytes so that its compressed data, which may be slightly
/// longer, still fits the length field of a chunk.
pub const MAX_FILTERED: usize = 4_290_000_000;

/// The rows of a picture, each with its filter byte, fit a chunk.
pub open spec fn fits_chunk(width: int, height: int, bytes_per_sample: int) -> bool {
    height * (3 * bytes_per_sample * width + 1) <= MAX_FILTERED
}

/// Calls `zenpng::encode_rgb8` with fast compression, no metadata and nothing that stops it. The
/// file begins with the PNG signature and the header chunk. Encoding is lossless: where
/// `zenpng::probe` and `zenpng::PngDecoderConfig::decode_into_rgb8` read the file, they find these
/// dimensions and these samples. Which bytes the file has besides is not stated, since the filter
/// of a row is chosen by a floating point score whose precision depends on the platform; nor is
/// stated that encoding succeeds. The reason of a failure is dropped. An image without columns
/// would make `imgref` panic, and compressed data above `u32::MAX` bytes the chunk writer, which
/// `zenflate`'s bound of a byte per thousand excludes.
#[verifier::external_body]
fn encode_png8(samples: &Vec<u8>, width: usize, height: usize) -> (file: Option<Vec<u8>>)
    requires
        1 <= width <= u32::MAX,
        1 <= height <= u32::MAX,
        samples@.len() == 3 * width * height,
        fits_chunk(width as int, height as int, 1),
    ensures
        file matches Some(v) ==> begins_png(v@, width as int, height as int),
        file matches Some(v) ==> dimensions_read(v@, width as int, height as int),
        file matches Some(v) ==> samples_read(v@, width as int, height as int, samples@),
{
    let pixels = imgref::ImgRef::new(rgb::FromSlice::as_rgb(samples.as_slice()), width, height);
    let fast = zenpng::EncodeConfig::default().with_compression(zenpng::Compression::Fast);
    zenpng::encode_rgb8(pixels, None, &fast, &enough::Unstoppable, &enough::Unstoppable).ok()
}

/// What is read of samples of sixteen bits. A file keeps sixteen bits unless every low byte is
/// zero, and reading it gives the nearest of 256 even levels; else the file holds the high bytes.
pub open spec fn reduced(samples: Seq<u16>) -> Seq<u8> {
    if exists|i: int| 0 <= i < samples.len() && #[trigger] samples[i] % 256 != 0 {
        Seq::new(samples.len(), |i: int| ((2 * samples[i] + 257) / 514) as u8)
    } else {
        Seq::new(samples.len(), |i: int| (samples[i] / 256) as u8)
    }
}

/// Calls `zenpng::encode_rgb16`; all else is as for `zenpng::encode_rgb8`, but that reading such a
/// file reduces the samples to 8 bit: `zenpng` stores the high bytes alone where every low byte is
/// zero, and sixteen bits otherwise, which `zenpixels-convert` scales to 255 and rounds.
#[verifier::external_body]
fn encode_png16(samples: &Vec<u16>, width: usize, height: usize) -> (file: Option<Vec<u8>>)
    requires
        1 <= width <= u32::MAX,
        1 <= height <= u32::MAX,
        samples@.len() == 3 * width * height,
        fits_chunk(width as int, height as int, 2),
    ensures
        file matches Some(v) ==> begins_png(v@, width as int, height as int),
        file matches Some(v) ==> dimensions_read(v@, width as int, height as int),
        file matches Some(v) ==> samples_read(
            v@,
            width as int,
            height as int,
            reduced(samples@),
        ),
{
    let pixels = imgref::ImgRef::new(rgb::FromSlice::as_rgb(samples.as_slice()), width, height);
    let fast = zenpng::EncodeConfig::default().with_compression(zenpng::Compression::Fast);
    zenpng::encode_rgb16(pixels, None, &fast, &enough::Unstoppable, &enough::Unstoppable).ok()
}

/// A file that is found to be a PNG has these dimensions.
pub open spec fn dimensions_read(b: Seq<u8>, width: int, height: int) -> bool {
    png_dimensions(b) matches Some((w, h)) ==> w == width && h == height
}

/// A file that can be read has these samples.
pub open spec fn samples_read(b: Seq<u8>, width: int, height: int, samples: Seq<u8>) -> bool {
    png_rgb8(b, width, height) matches Some(v) ==> v == samples
}

/// A number in four bytes, the highest first.
pub open spec fn big_endian(b: Seq<u8>, at: int) -> int {
    b[at] * 0x100_0000 + b[at + 1] * 0x1_0000 + b[at + 2] * 0x100 + b[at + 3]
}

/// A file begins as a PNG of these dimensions does.
pub open spec fn begins_png(b: Seq<u8>, width: int, height: int) -> bool {
    &&& b.len() >= 24
    &&& b.take(8) == seq![0x89u8, 0x50, 0x4e, 0x47, 0x0d, 0x0a, 0x1a, 0x0a]
    &&& big_endian(b, 16) == width
    &&& big_endian(b, 20) == height
}

/// Samples of 8 bit in the library's picture.
pub open spec fn spread(samples: Seq<u8>) -> Seq<u16> {
    Seq::new(samples.len(), |i: int| samples[i] as u16)
}

/// The dimensions of a picture that can be read, given what was found in the file.
pub open spec fn spec_checked_size(size: Option<(u32, u32)>) -> core::result::Result<
    (int, int),
    Error,
> {
    match size {
        None => Err(Error::InvalidArgument("the input is not a readable PNG")),
        Some((w, h)) => if w == 0 || h == 0 {
            Err(Error::InvalidArgument("empty PNG"))
        } else {
            Ok((w as int, h as int))
        },
    }
}

/// The dimensions of a picture that can be read, given what was found in the file.
pub fn checked_size(size: Option<(u32, u32)>) -> (r: Result<(usize, usize)>)
    ensures
        match spec_checked_size(size) {
            Ok(v) => r matches Ok(x) && (x.0 as int, x.1 as int) == v,
            Err(e) => r == Err::<(usize, usize), Error>(e),
        },
{
    match size {
        None => Err(Error::InvalidArgument("the input is not a readable PNG")),
        Some((w, h)) => if w == 0 || h == 0 {
            Err(Error::InvalidArgument("empty PNG"))
        } else {
            Ok((w as usize, h as usize))
        },
    }
}

/// The picture of decoded samples, where there are any.
pub fn rgb8_picture(samples: Option<Vec<u8>>, width: usize, height: usize) -> (r: Result<RgbImage>)
    ensures
        match samples {
            None => r == Err::<RgbImage, Error>(
                Error::InvalidArgument("the input is not a readable PNG"),
            ),
            Some(v) => r matches Ok(image) && image.width == width && image.height == height
                && image.bit_depth == 8 && image.data@ == spread(v@),
        },
{
    let v: Vec<u8> = match samples {
        None => return Err(Error::InvalidArgument("the input is not a readable PNG")),
        Some(v) => v,
    };
    let mut data: Vec<u16> = Vec::new();
    while data.len() < v.len()
        invariant
            data@.len() <= v@.len(),
            forall|i: int| 0 <= i < data@.len() ==> #[trigger] data@[i] == v@[i],
        decreases v@.len() - data@.len(),
    {
        data.push(v[data.len()] as u16);
    }
    proof {
        assert(data@ =~= spread(v@));
    }
    Ok(RgbImage { width, height, bit_depth: 8, data })
}

/// What reading a PNG gives: nothing but an error of a file that cannot be decoded, or whose data
/// ends before its last row.
pub open spec fn is_read(bytes: Seq<u8>, r: Result<RgbImage>) -> bool {
    match spec_checked_size(png_dimensions(bytes)) {
        Err(e) => r == Err::<RgbImage, Error>(e),
        Ok((w, h)) => if !holds_rows(png_held(bytes)) {
            r == Err::<RgbImage, Error>(Error::InvalidArgument("the input is not a readable PNG"))
        } else {
            match png_rgb8(bytes, w, h) {
                None => r == Err::<RgbImage, Error>(
                    Error::InvalidArgument("the input is not a readable PNG"),
                ),
                Some(v) => r matches Ok(image) && image.width == w && image.height == h
                    && image.bit_depth == 8 && image.data@ == spread(v) && v.len() == 3 * w * h,
            }
        },
    }
}

/// The samples of a picture of this size can be held in memory.
pub open spec fn holdable(size: Option<(u32, u32)>) -> bool {
    size matches Some((w, h)) ==> 6 * w * h <= isize::MAX
}

/// Read a PNG into the 8-bit RGB picture that an encode takes. 16-bit and paletted pictures are
/// reduced to 8-bit RGB; alpha is dropped.
pub fn read_png_rgb8(bytes: &[u8]) -> (r: Result<RgbImage>)
    requires
        holdable(png_dimensions(bytes@)),
    ensures
        is_read(bytes@, r),
{
    let size: Option<(u32, u32)> = probe_png(bytes);
    let (w, h): (usize, usize) = checked_size(size)?;
    proof {
        lemma_len(w as int, h as int);
    }
    if !rows_are_held(hold_png(bytes)) {
        return Err(Error::InvalidArgument("the input is not a readable PNG"));
    }
    let zeros: Vec<u8> = vec![0u8; 3 * w * h];
    let samples: Option<Vec<u8>> = decode_png(bytes, zeros, w, h);
    rgb8_picture(samples, w, h)
}

/// Lengths that are computed on the way to the number of samples.
proof fn lemma_len(w: int, h: int)
    requires
        1 <= w,
        1 <= h,
        6 * w * h <= isize::MAX,
    ensures
        3 * w <= 3 * w * h <= usize::MAX,
{
    assert(3 * w <= 3 * w * h) by (nonlinear_arith)
        requires
            1 <= w,
            1 <= h,
    ;
    assert(6 * w * h == 2 * (3 * w * h)) by (nonlinear_arith);
}

/// Like [`read_png_rgb8`], for any file: a picture whose samples cannot be held in memory is not
/// read.
pub fn try_read_png_rgb8(bytes: &[u8]) -> (r: Option<Result<RgbImage>>)
    ensures
        match r {
            Some(read) => holdable(png_dimensions(bytes@)) && is_read(bytes@, read),
            None => !holdable(png_dimensions(bytes@)),
        },
{
    let size: Option<(u32, u32)> = probe_png(bytes);
    if let Some((w, h)) = size {
        proof {
            assert(w * h <= u32::MAX * u32::MAX) by (nonlinear_arith)
                requires
                    0 <= w <= u32::MAX,
                    0 <= h <= u32::MAX,
            ;
            assert(6 * w * h == 6 * (w * h)) by (nonlinear_arith);
        }
        if 6 * (w as u128 * h as u128) > isize::MAX as u128 {
            return None;
        }
    }
    Some(read_png_rgb8(bytes))
}

/// Why a decoded picture cannot be written.
#[derive(Clone, Copy, Debug, PartialEq, Eq, Structural)]
pub enum FileError {
    /// The PNG encoder failed.
    Png,
    /// A YUV picture is written only to a name that ends in `.yuv`.
    NeedsYuv,
}

/// A picture whose buffer holds its samples, each within the bit depth, and whose rows fit a PNG.
pub open spec fn printable(image: RgbImage) -> bool {
    &&& 1 <= image.width <= u32::MAX
    &&& 1 <= image.height <= u32::MAX
    &&& 8 <= image.bit_depth <= 16
    &&& fits_chunk(
        image.width as int,
        image.height as int,
        if image.bit_depth == 8 {
            1
        } else {
            2
        },
    )
    &&& image.data@.len() == 3 * image.width * image.height
    &&& forall|i: int|
        0 <= i < image.data@.len() ==> #[trigger] image.data@[i] < power2::pow2(
            image.bit_depth as nat,
        )
}

/// Samples above 8 bit at the top of sixteen bits, the low bits set.
pub open spec fn lifted(data: Seq<u16>, bit_depth: u8) -> Seq<u16> {
    let m = power2::pow2((16 - bit_depth) as nat);
    Seq::new(data.len(), |i: int| (data[i] * m + m - 1) as u16)
}

fn lift(data: &Vec<u16>, bit_depth: u8) -> (out: Vec<u16>)
    requires
        8 < bit_depth <= 16,
        forall|i: int|
            0 <= i < data@.len() ==> #[trigger] data@[i] < power2::pow2(bit_depth as nat),
    ensures
        out@ == lifted(data@, bit_depth),
{
    let mut out: Vec<u16> = Vec::new();
    let ghost want = lifted(data@, bit_depth);
    while out.len() < data.len()
        invariant
            out@.len() <= data@.len(),
            8 < bit_depth <= 16,
            want == lifted(data@, bit_depth),
            forall|i: int|
                0 <= i < data@.len() ==> #[trigger] data@[i] < power2::pow2(bit_depth as nat),
            forall|i: int| 0 <= i < out@.len() ==> #[trigger] out@[i] == want[i],
        decreases data@.len() - out@.len(),
    {
        let v: u16 = data[out.len()];
        out.push(output::widened(v, bit_depth));
    }
    proof {
        assert(out@ =~= want);
    }
    out
}

/// Samples as a PNG holds them.
#[derive(Clone, Debug, PartialEq, Eq)]
pub enum PngSamples {
    Eight(Vec<u8>),
    Sixteen(Vec<u16>),
}

/// What is handed to the PNG encoder.
#[derive(Clone, Debug, PartialEq, Eq)]
pub struct PngInput {
    pub width: usize,
    pub height: usize,
    pub samples: PngSamples,
}

/// Samples of an 8-bit picture in bytes.
pub open spec fn in_bytes(data: Seq<u16>) -> Seq<u8> {
    Seq::new(data.len(), |i: int| data[i] as u8)
}

/// What is handed over for a picture: 8-bit pictures in bytes, any other in sixteen bits with the
/// samples in the top bits.
pub open spec fn is_input(p: PngInput, image: RgbImage) -> bool {
    &&& p.width == image.width
    &&& p.height == image.height
    &&& match p.samples {
        PngSamples::Eight(v) => image.bit_depth == 8 && v@ == in_bytes(image.data@),
        PngSamples::Sixteen(v) => image.bit_depth != 8 && v@ == lifted(
            image.data@,
            image.bit_depth,
        ),
    }
}

/// What is handed to the PNG encoder for a picture.
pub fn png_input(image: &RgbImage) -> (p: PngInput)
    requires
        printable(*image),
    ensures
        is_input(p, *image),
{
    let samples = if image.bit_depth == 8 {
        proof {
            power2::lemma2_to64();
        }
        let v: Vec<u8> = codec::narrowed(&image.data);
        proof {
            assert(v@ =~= in_bytes(image.data@));
        }
        PngSamples::Eight(v)
    } else {
        PngSamples::Sixteen(lift(&image.data, image.bit_depth))
    };
    PngInput { width: image.width, height: image.height, samples }
}

/// What is said of a picture's file, given what the PNG encoder made of it.
pub fn written_file(file: Option<Vec<u8>>) -> (r: core::result::Result<Vec<u8>, FileError>)
    ensures
        r == match file {
            Some(v) => Ok::<Vec<u8>, FileError>(v),
            None => Err::<Vec<u8>, FileError>(FileError::Png),
        },
{
    match file {
        Some(v) => Ok(v),
        None => Err(FileError::Png),
    }
}

/// The samples of 8 bit that reading a PNG gives of those that were handed over.
pub open spec fn read_of(samples: PngSamples) -> Seq<u8> {
    match samples {
        PngSamples::Eight(v) => v@,
        PngSamples::Sixteen(v) => reduced(v@),
    }
}

/// A file is a PNG of what was handed over: it begins as one of its dimensions does, and whoever
/// reads it finds these and the samples.
pub open spec fn is_png_of(b: Seq<u8>, p: PngInput) -> bool {
    &&& begins_png(b, p.width as int, p.height as int)
    &&& dimensions_read(b, p.width as int, p.height as int)
    &&& samples_read(b, p.width as int, p.height as int, read_of(p.samples))
}

/// Whatever the PNG encoder gives for a picture, this holds of what is written.
pub open spec fn is_written(
    image: RgbImage,
    r: core::result::Result<Vec<u8>, FileError>,
) -> bool {
    match r {
        Ok(v) => exists|p: PngInput| #[trigger] is_input(p, image) && is_png_of(v@, p),
        Err(e) => e == FileError::Png,
    }
}

/// The PNG of a decoded picture: 8-bit pictures as 8-bit PNG, any other as 16-bit PNG with the
/// samples in the top bits.
pub fn write_png(image: &RgbImage) -> (r: core::result::Result<Vec<u8>, FileError>)
    requires
        printable(*image),
    ensures
        is_written(*image, r),
{
    let p: PngInput = png_input(image);
    let file: Option<Vec<u8>> = match &p.samples {
        PngSamples::Eight(v) => encode_png8(v, p.width, p.height),
        PngSamples::Sixteen(v) => encode_png16(v, p.width, p.height),
    };
    proof {
        assert(file matches Some(v) ==> is_input(p, *image) && is_png_of(v@, p));
    }
    written_file(file)
}

/// An 8-bit picture that was written to a PNG and can be read from it is the same picture.
pub proof fn law_png_reads_back(
    image: RgbImage,
    written: core::result::Result<Vec<u8>, FileError>,
    read: Result<RgbImage>,
)
    requires
        printable(image),
        image.bit_depth == 8,
        is_written(image, written),
        written matches Ok(v) && is_read(v@, read),
    ensures
        read matches Ok(back) ==> back.width == image.width && back.height == image.height
            && back.bit_depth == image.bit_depth && back.data@ == image.data@,
{
    let file = written->Ok_0@;
    let p = choose|p: PngInput| #[trigger] is_input(p, image) && is_png_of(file, p);
    assert(is_input(p, image) && is_png_of(file, p));
    power2::lemma2_to64();
    if let Ok(back) = read {
        let v = in_bytes(image.data@);
        assert(spread(v) =~= image.data@) by {
            assert forall|i: int| 0 <= i < v.len() implies #[trigger] spread(v)[i]
                == image.data@[i] by {
                assert(image.data@[i] < 256);
            }
        }
    }
}

/// A picture above 8 bit that was written to a PNG and can be read from it is the same picture
/// reduced to 8 bit.
pub proof fn law_deep_png_reads_back(
    image: RgbImage,
    written: core::result::Result<Vec<u8>, FileError>,
    read: Result<RgbImage>,
)
    requires
        printable(image),
        image.bit_depth != 8,
        is_written(image, written),
        written matches Ok(v) && is_read(v@, read),
    ensures
        read matches Ok(back) ==> back.width == image.width && back.height == image.height
            && back.bit_depth == 8 && back.data@ == spread(
            reduced(lifted(image.data@, image.bit_depth)),
        ),
{
    let file = written->Ok_0@;
    let p = choose|p: PngInput| #[trigger] is_input(p, image) && is_png_of(file, p);
    assert(is_input(p, image) && is_png_of(file, p));
}

/// From 9 to 15 bit a sample is lifted with its low bits set, so that what is read back is always
/// the nearest of 256 even levels.
pub proof fn law_lifted_samples_are_rounded(image: RgbImage)
    requires
        printable(image),
        9 <= image.bit_depth <= 15,
    ensures
        ({
            let deep = lifted(image.data@, image.bit_depth);
            reduced(deep) == Seq::new(
                deep.len(),
                |i: int| ((2 * deep[i] + 257) / 514) as u8,
            )
        }),
{
    let b = image.bit_depth;
    let m = power2::pow2((16 - b) as nat) as int;
    let deep = lifted(image.data@, b);
    power2::lemma2_to64();
    assert(m == 2 || m == 4 || m == 8 || m == 16 || m == 32 || m == 64 || m == 128);
    let (w, h) = (image.width as int, image.height as int);
    assert(3 * w * h >= 3) by (nonlinear_arith)
        requires
            w >= 1,
            h >= 1,
    ;
    let d = image.data@[0] as int;
    power2::lemma_pow2_adds(b as nat, (16 - b) as nat);
    assert(power2::pow2(16) == 65536);
    assert(d * m + m <= 65536) by (nonlinear_arith)
        requires
            0 <= d < power2::pow2(b as nat),
            m >= 1,
            power2::pow2(b as nat) * m == 65536,
    ;
    assert(d * m >= 0) by (nonlinear_arith)
        requires
            d >= 0,
            m >= 1,
    ;
    assert(deep[0] == d * m + m - 1);
    assert((d * m + m - 1) % 2 == 1) by {
        let half = m / 2;
        assert(d * m == 2 * (d * half)) by (nonlinear_arith)
            requires
                m == 2 * half,
        ;
    }
    assert(deep[0] % 256 != 0);
}

/// The file that a decoded picture is written to: RGB as a PNG, YUV as raw planes, if the name
/// asks for them.
pub fn picture_file(picture: &Picture, name: &str) -> (r: core::result::Result<Vec<u8>, FileError>)
    requires
        picture matches Picture::Rgb(image) ==> printable(*image),
    ensures
        match picture {
            Picture::Rgb(image) => is_written(*image, r),
            Picture::Yuv(image) => if cli::spec_names_yuv(name@) {
                r matches Ok(v) && v@ == output::spec_raw(*image)
            } else {
                r == Err::<Vec<u8>, FileError>(FileError::NeedsYuv)
            },
        },
{
    match picture {
        Picture::Rgb(image) => write_png(image),
        Picture::Yuv(image) => {
            if !cli::names_yuv(name) {
                return Err(FileError::NeedsYuv);
            }
            Ok(output::raw_yuv(image))
        },
    }
}

} // verus!

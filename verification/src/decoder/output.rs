//! Output stage: which pictures come out of a stream, and how their samples are laid out.

use vstd::prelude::*;
use vstd::arithmetic::power2;

use crate::error::{Error, Result};
use crate::header::{ColourTransform, PictureHeader};
use crate::tensor::Tensor;

verus! {

/// Final picture: interleaved RGB samples, one `u16` per sample (8- and 10-bit share it).
#[derive(Clone, Debug, PartialEq, Eq)]
pub struct RgbImage {
    pub width: usize,
    pub height: usize,
    pub bit_depth: u8,
    /// `[r, g, b, r, g, b, ...]`, row-major.
    pub data: Vec<u16>,
}

/// Decoded YUV picture (`colour_transform_idx = 0`: the source was YUV and stays YUV), chroma
/// in the source's subsampling, one `u16` per sample.
#[derive(Clone, Debug, PartialEq, Eq)]
pub struct YuvImage {
    pub width: usize,
    pub height: usize,
    pub chroma_width: usize,
    pub chroma_height: usize,
    pub bit_depth: u8,
    pub y: Vec<u16>,
    pub u: Vec<u16>,
    pub v: Vec<u16>,
}

/// What a stream decodes to.
#[derive(Clone, Debug, PartialEq, Eq)]
pub enum Picture {
    Rgb(RgbImage),
    Yuv(YuvImage),
}

/// What happens to the chroma planes between the coded format and the source's.
#[derive(Clone, Copy, Debug, PartialEq, Eq, Structural)]
pub enum ChromaStep {
    /// They are in the source's format already.
    Keep,
    /// They are up-sampled to the luma size.
    Upsample,
}

/// What becomes of chroma coded with the factors `c` of a source with the factors `s`.
pub open spec fn spec_chroma_step(c: (u8, u8), s: (u8, u8)) -> Result<ChromaStep> {
    if c == s {
        Ok(ChromaStep::Keep)
    } else if s == (1u8, 1u8) && (c == (2u8, 2u8) || c == (1u8, 2u8)) {
        Ok(ChromaStep::Upsample)
    } else {
        Err(Error::Unsupported("chroma format conversion other than 4:2:0 / 4:2:2 to 4:4:4"))
    }
}

/// How the chroma planes, which arrive in the coded subsampling (`c_ver`, `c_hor`), leave in the
/// source's (`s_ver`, `s_hor`).
pub fn to_source_format(hdr: &PictureHeader) -> (r: Result<ChromaStep>)
    ensures
        r == spec_chroma_step((hdr.c_ver, hdr.c_hor), (hdr.s_ver, hdr.s_hor)),
{
    if hdr.c_ver == hdr.s_ver && hdr.c_hor == hdr.s_hor {
        return Ok(ChromaStep::Keep);
    }
    if hdr.s_ver != 1 || hdr.s_hor != 1 || hdr.c_hor != 2 || (hdr.c_ver != 1 && hdr.c_ver != 2) {
        return Err(
            Error::Unsupported("chroma format conversion other than 4:2:0 / 4:2:2 to 4:4:4"),
        );
    }
    Ok(ChromaStep::Upsample)
}

/// The colours a stream comes out in.
#[derive(Clone, Copy, Debug, PartialEq, Eq, Structural)]
pub enum OutputKind {
    /// The planes are converted to RGB.
    Rgb,
    /// The planes stay as they are.
    Yuv,
}

/// The colours a stream comes out in, or why it cannot be shown.
pub open spec fn spec_output_kind(hdr: PictureHeader) -> Result<OutputKind> {
    if hdr.bit_depth != 8 && hdr.bit_depth != 10 {
        Err(Error::InvalidData("bit depth must be 8 or 10"))
    } else {
        match hdr.colour_transform {
            ColourTransform::Bt709 => if (hdr.s_ver, hdr.s_hor) != (1u8, 1u8) {
                Err(Error::Unsupported("RGB output from a chroma-subsampled source"))
            } else {
                Ok(OutputKind::Rgb)
            },
            ColourTransform::Plain => Ok(OutputKind::Yuv),
            ColourTransform::Custom { .. } => Err(
                Error::Unsupported("user-defined colour transform"),
            ),
        }
    }
}

/// The colours a stream comes out in, or why it cannot be shown.
pub fn output_kind(hdr: &PictureHeader) -> (r: Result<OutputKind>)
    ensures
        r == spec_output_kind(*hdr),
{
    if hdr.bit_depth != 8 && hdr.bit_depth != 10 {
        return Err(Error::InvalidData("bit depth must be 8 or 10"));
    }
    match &hdr.colour_transform {
        ColourTransform::Bt709 => if hdr.s_ver != 1 || hdr.s_hor != 1 {
            Err(Error::Unsupported("RGB output from a chroma-subsampled source"))
        } else {
            Ok(OutputKind::Rgb)
        },
        ColourTransform::Plain => Ok(OutputKind::Yuv),
        ColourTransform::Custom { .. } => Err(Error::Unsupported("user-defined colour transform")),
    }
}

/// Three planes, sample by sample.
pub open spec fn interleaved(r: Seq<u16>, g: Seq<u16>, b: Seq<u16>) -> Seq<u16> {
    Seq::new(
        3 * r.len(),
        |i: int|
            if i % 3 == 0 {
                r[i / 3]
            } else if i % 3 == 1 {
                g[i / 3]
            } else {
                b[i / 3]
            },
    )
}

/// Interleave three planes of one size.
pub fn interleave(r: &Vec<u16>, g: &Vec<u16>, b: &Vec<u16>) -> (data: Vec<u16>)
    requires
        g@.len() == r@.len(),
        b@.len() == r@.len(),
    ensures
        data@ == interleaved(r@, g@, b@),
{
    let mut data: Vec<u16> = Vec::new();
    let mut i: usize = 0;
    while i < r.len()
        invariant
            i <= r@.len(),
            g@.len() == r@.len(),
            b@.len() == r@.len(),
            data@.len() == 3 * i,
            forall|k: int| 0 <= k < 3 * i ==> #[trigger] data@[k] == interleaved(r@, g@, b@)[k],
        decreases r@.len() - i,
    {
        data.push(r[i]);
        data.push(g[i]);
        data.push(b[i]);
        i = i + 1;
    }
    proof {
        assert(data@ =~= interleaved(r@, g@, b@));
    }
    data
}

/// The three planes have one size.
pub open spec fn same_size(y: Tensor<u16>, u: Tensor<u16>, v: Tensor<u16>) -> bool {
    (u.h, u.w) == (y.h, y.w) && (v.h, v.w) == (y.h, y.w)
}

/// A picture holds these planes.
pub open spec fn holds(p: Picture, kind: OutputKind, depth: u8, y: Tensor<u16>, u: Tensor<u16>, v: Tensor<u16>) -> bool {
    match (kind, p) {
        (OutputKind::Rgb, Picture::Rgb(i)) => {
            &&& i.width == y.w
            &&& i.height == y.h
            &&& i.bit_depth == depth
            &&& i.data@ == interleaved(y.data@, u.data@, v.data@)
        },
        (OutputKind::Yuv, Picture::Yuv(i)) => {
            &&& i.width == y.w
            &&& i.height == y.h
            &&& i.chroma_width == u.w
            &&& i.chroma_height == u.h
            &&& i.bit_depth == depth
            &&& i.y@ == y.data@
            &&& i.u@ == u.data@
            &&& i.v@ == v.data@
        },
        _ => false,
    }
}

/// The picture of three quantised planes: red, green and blue where the stream comes out as RGB,
/// luma and the two chroma planes in the source's format where it does not.
pub fn finish(hdr: &PictureHeader, y: Tensor<u16>, u: Tensor<u16>, v: Tensor<u16>) -> (r: Result<
    Picture,
>)
    requires
        y.is_of(1, y.h as int, y.w as int),
        u.is_of(1, u.h as int, u.w as int),
        v.is_of(1, v.h as int, v.w as int),
    ensures
        match spec_output_kind(*hdr) {
            Err(e) => r == Err::<Picture, Error>(e),
            Ok(kind) => if kind == OutputKind::Rgb && !same_size(y, u, v) {
                r == Err::<Picture, Error>(
                    Error::InvalidArgument("4:4:4 planes must have equal sizes"),
                )
            } else {
                r matches Ok(p) && holds(p, kind, hdr.bit_depth, y, u, v)
            },
        },
{
    let kind: OutputKind = output_kind(hdr)?;
    match kind {
        OutputKind::Rgb => {
            if u.h != y.h || u.w != y.w || v.h != y.h || v.w != y.w {
                return Err(Error::InvalidArgument("4:4:4 planes must have equal sizes"));
            }
            let data = interleave(&y.data, &u.data, &v.data);
            Ok(
                Picture::Rgb(
                    RgbImage { width: y.w, height: y.h, bit_depth: hdr.bit_depth, data },
                ),
            )
        },
        OutputKind::Yuv => Ok(
            Picture::Yuv(
                YuvImage {
                    width: y.w,
                    height: y.h,
                    chroma_width: u.w,
                    chroma_height: u.h,
                    bit_depth: hdr.bit_depth,
                    y: y.data,
                    u: u.data,
                    v: v.data,
                },
            ),
        ),
    }
}

/// A plane of interleaved samples.
pub open spec fn colour_plane(data: Seq<u16>, c: int) -> Seq<u16> {
    Seq::new(data.len() / 3, |i: int| data[3 * i + c])
}

/// Interleaving loses nothing: the planes come out of the interleaved samples again.
pub proof fn law_interleaving_keeps_planes(r: Seq<u16>, g: Seq<u16>, b: Seq<u16>)
    requires
        g.len() == r.len(),
        b.len() == r.len(),
    ensures
        colour_plane(interleaved(r, g, b), 0) == r,
        colour_plane(interleaved(r, g, b), 1) == g,
        colour_plane(interleaved(r, g, b), 2) == b,
{
    let data = interleaved(r, g, b);
    assert(colour_plane(data, 0) =~= r);
    assert(colour_plane(data, 1) =~= g);
    assert(colour_plane(data, 2) =~= b);
}

/// A plane's samples as bytes: the low one each at 8 bit, else two with the low one first.
pub open spec fn plane_bytes(plane: Seq<u16>, bit_depth: u8) -> Seq<u8> {
    if bit_depth == 8 {
        Seq::new(plane.len(), |i: int| (plane[i] as int % 256) as u8)
    } else {
        Seq::new(
            2 * plane.len(),
            |i: int|
                if i % 2 == 0 {
                    (plane[i / 2] as int % 256) as u8
                } else {
                    (plane[i / 2] as int / 256) as u8
                },
        )
    }
}

/// A YUV picture's samples as bytes.
pub open spec fn spec_raw(image: YuvImage) -> Seq<u8> {
    plane_bytes(image.y@, image.bit_depth) + plane_bytes(image.u@, image.bit_depth) + plane_bytes(
        image.v@,
        image.bit_depth,
    )
}

/// Append a plane's samples as bytes.
fn append_plane(out: &mut Vec<u8>, plane: &Vec<u16>, bit_depth: u8)
    ensures
        final(out)@ == old(out)@ + plane_bytes(plane@, bit_depth),
{
    let ghost before = out@;
    let ghost want = plane_bytes(plane@, bit_depth);
    let mut i: usize = 0;
    proof {
        assert(before + want.take(0) =~= before);
    }
    while i < plane.len()
        invariant
            i <= plane@.len(),
            want == plane_bytes(plane@, bit_depth),
            out@ == before + want.take(
                if bit_depth == 8 {
                    i as int
                } else {
                    2 * i
                },
            ),
        decreases plane@.len() - i,
    {
        let v: u16 = plane[i];
        let (low, high): (u8, u8) = ((v % 256) as u8, (v / 256) as u8);
        proof {
            if bit_depth == 8 {
                assert(want.take(i + 1) =~= want.take(i as int).push(low));
                assert(before + want.take(i + 1) =~= (before + want.take(i as int)).push(low));
            } else {
                assert(want.take(2 * i + 2) =~= want.take(2 * i).push(low).push(high));
                assert(before + want.take(2 * i + 2) =~= (before + want.take(2 * i)).push(low).push(
                    high,
                ));
            }
        }
        out.push(low);
        if bit_depth != 8 {
            out.push(high);
        }
        i = i + 1;
    }
    proof {
        assert(want.take(want.len() as int) =~= want);
    }
}

/// A YUV picture as raw planar Y, U, V: one byte per sample at 8 bit, two little-endian bytes
/// above, chroma in the source's subsampling.
pub fn raw_yuv(image: &YuvImage) -> (out: Vec<u8>)
    ensures
        out@ == spec_raw(*image),
{
    let mut out: Vec<u8> = Vec::new();
    append_plane(&mut out, &image.y, image.bit_depth);
    append_plane(&mut out, &image.u, image.bit_depth);
    append_plane(&mut out, &image.v, image.bit_depth);
    proof {
        assert(out@ =~= spec_raw(*image));
    }
    out
}

/// A sample of a picture above 8 bit at the top of sixteen bits, the low bits set.
pub fn widened(v: u16, bit_depth: u8) -> (w: u16)
    requires
        8 < bit_depth <= 16,
        v < power2::pow2(bit_depth as nat),
    ensures
        w == v * power2::pow2((16 - bit_depth) as nat) + power2::pow2((16 - bit_depth) as nat) - 1,
{
    let shift: u8 = 16 - bit_depth;
    let mut m: u32 = 1;
    let mut i: u8 = 0;
    proof {
        power2::lemma2_to64();
    }
    while i < shift
        invariant
            i <= shift,
            shift <= 7,
            m == power2::pow2(i as nat),
            m <= 128,
            i == 7 || m <= 64,
        decreases shift - i,
    {
        proof {
            power2::lemma2_to64();
        }
        m = m * 2;
        i = i + 1;
    }
    proof {
        power2::lemma2_to64();
        power2::lemma_pow2_adds(bit_depth as nat, shift as nat);
        let (a, b) = (power2::pow2(bit_depth as nat) as int, m as int);
        assert(v * b + b <= a * b) by (nonlinear_arith)
            requires
                v + 1 <= a,
                b >= 1,
        ;
        assert(0 <= v * b) by (nonlinear_arith)
            requires
                b >= 1,
        ;
    }
    (v as u32 * m + (m - 1)) as u16
}

} // verus!

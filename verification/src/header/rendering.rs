//! Rendering information (RDI): how the decoded picture is meant to be shown.

use vstd::prelude::*;
use vstd::arithmetic::power2;

use crate::bitio;
use crate::bitio::{BitReader, BitWriter};
use crate::bits;
use crate::error::{Error, Result};

verus! {

/// CICP colour description (`cicp_info_present_flag`).
#[derive(Clone, Copy, Debug, PartialEq, Eq, Structural)]
pub struct Cicp {
    /// `colour_primaries` (ITU-T H.273 code point).
    pub colour_primaries: u8,
    /// `transfer_characteristics` (ITU-T H.273 code point).
    pub transfer_characteristics: u8,
    /// `matrix_coefficients` (ITU-T H.273 code point).
    pub matrix_coefficients: u8,
    /// Full-range (`true`) vs studio/limited-range (`false`) samples.
    pub full_range: bool,
    /// 4:2:0 chroma sample location type (ITU-T H.273).
    pub chroma420_sample_loc_type: u8,
}

/// Mastering display colour volume (`mdcv_info_present_flag`).
#[derive(Clone, Copy, Debug, PartialEq, Eq)]
pub struct Mdcv {
    /// `(x, y)` chromaticity of the three primaries.
    pub primaries: [(u16, u16); 3],
    /// `(x, y)` chromaticity of the white point.
    pub white_point: (u16, u16),
    /// Mastering display maximum luminance, in units of 0.0001 cd/m^2.
    pub max_luminance: u32,
    /// Mastering display minimum luminance, in units of 0.0001 cd/m^2.
    pub min_luminance: u32,
}

/// A mastering display colour volume as a value.
pub struct MdcvView {
    pub primaries: Seq<(u16, u16)>,
    pub white_point: (u16, u16),
    pub max_luminance: u32,
    pub min_luminance: u32,
}

impl View for Mdcv {
    type V = MdcvView;

    open spec fn view(&self) -> MdcvView {
        MdcvView {
            primaries: self.primaries@,
            white_point: self.white_point,
            max_luminance: self.max_luminance,
            min_luminance: self.min_luminance,
        }
    }
}

/// Content light level (`clli_info_present_flag`).
#[derive(Clone, Copy, Debug, PartialEq, Eq, Structural)]
pub struct Clli {
    /// Maximum content light level (CEA-861.3 MaxCLL), cd/m^2.
    pub max_content_light_level: u16,
    /// Maximum frame-average light level (CEA-861.3 MaxFALL), cd/m^2.
    pub max_frame_average_light_level: u16,
}

/// Rendering information substream. Absent substream == nothing present.
#[derive(Clone, Debug, PartialEq, Eq)]
pub struct RenderingInfo {
    /// CICP colour description, if present.
    pub cicp: Option<Cicp>,
    /// Mastering display colour volume, if present.
    pub mdcv: Option<Mdcv>,
    /// Content light level, if present.
    pub clli: Option<Clli>,
    /// `(dm_type, dm_data)`: opaque display-mapping payload.
    pub display_mapping: Option<(u8, Vec<u8>)>,
}

/// Rendering information as a value.
pub struct RenderingView {
    pub cicp: Option<Cicp>,
    pub mdcv: Option<MdcvView>,
    pub clli: Option<Clli>,
    pub display_mapping: Option<(u8, Seq<u8>)>,
}

impl View for RenderingInfo {
    type V = RenderingView;

    open spec fn view(&self) -> RenderingView {
        RenderingView {
            cicp: self.cicp,
            mdcv: match self.mdcv {
                Some(m) => Some(m@),
                None => None,
            },
            clli: self.clli,
            display_mapping: match self.display_mapping {
                Some(d) => Some((d.0, d.1@)),
                None => None,
            },
        }
    }
}

impl Default for RenderingInfo {
    fn default() -> (info: Self)
        ensures
            info@ == (RenderingView { cicp: None, mdcv: None, clli: None, display_mapping: None }),
    {
        RenderingInfo { cicp: None, mdcv: None, clli: None, display_mapping: None }
    }
}

/// The colour description at a position: three bytes, a flag, three bits, four reserved bits.
#[verifier::opaque]
pub open spec fn spec_cicp(s: Seq<bool>, pos: int) -> bitio::Parsed<Cicp> {
    if pos + 32 > s.len() {
        Err(Error::UnexpectedEof)
    } else if bitio::field(s, pos + 28, 4) != 0 {
        Err(Error::InvalidData("ri_reserved_zero_4bits is not zero"))
    } else {
        Ok(
            (
                Cicp {
                    colour_primaries: bitio::field(s, pos, 8) as u8,
                    transfer_characteristics: bitio::field(s, pos + 8, 8) as u8,
                    matrix_coefficients: bitio::field(s, pos + 16, 8) as u8,
                    full_range: s[pos + 24],
                    chroma420_sample_loc_type: bitio::field(s, pos + 25, 3) as u8,
                },
                pos + 32,
            ),
        )
    }
}

/// A pair of 16-bit numbers at a position.
pub open spec fn point(s: Seq<bool>, pos: int) -> (u16, u16) {
    (bitio::field(s, pos, 16) as u16, bitio::field(s, pos + 16, 16) as u16)
}

/// The mastering display colour volume at a position: four points and two luminances.
#[verifier::opaque]
pub open spec fn spec_mdcv(s: Seq<bool>, pos: int) -> bitio::Parsed<MdcvView> {
    if pos + 192 > s.len() {
        Err(Error::UnexpectedEof)
    } else {
        Ok(
            (
                MdcvView {
                    primaries: seq![point(s, pos), point(s, pos + 32), point(s, pos + 64)],
                    white_point: point(s, pos + 96),
                    max_luminance: bitio::field(s, pos + 128, 32),
                    min_luminance: bitio::field(s, pos + 160, 32),
                },
                pos + 192,
            ),
        )
    }
}

/// The content light level at a position.
#[verifier::opaque]
pub open spec fn spec_clli(s: Seq<bool>, pos: int) -> bitio::Parsed<Clli> {
    if pos + 32 > s.len() {
        Err(Error::UnexpectedEof)
    } else {
        Ok(
            (
                Clli {
                    max_content_light_level: bitio::field(s, pos, 16) as u16,
                    max_frame_average_light_level: bitio::field(s, pos + 16, 16) as u16,
                },
                pos + 32,
            ),
        )
    }
}

/// The display mapping at a position: a type, a length, and that many bytes.
#[verifier::opaque]
pub open spec fn spec_display_mapping(s: Seq<bool>, pos: int) -> bitio::Parsed<(u8, Seq<u8>)> {
    if pos + 24 > s.len() || pos + 24 + bitio::field(s, pos + 8, 16) * 8 > s.len() {
        Err(Error::UnexpectedEof)
    } else {
        let size = bitio::field(s, pos + 8, 16);
        Ok(
            (
                (
                    bitio::field(s, pos, 8) as u8,
                    Seq::new(size as nat, |i: int| bitio::field(s, pos + 24 + 8 * i, 8) as u8),
                ),
                pos + 24 + size * 8,
            ),
        )
    }
}

/// An element that is there only if a flag said so.
pub open spec fn optional<T>(present: bool, parsed: bitio::Parsed<T>, pos: int) -> bitio::Parsed<
    Option<T>,
> {
    if present {
        match parsed {
            Err(e) => Err(e),
            Ok((v, p)) => Ok((Some(v), p)),
        }
    } else {
        Ok((None, pos))
    }
}

/// What [`RenderingInfo::parse`] makes of a bit string: four presence flags, four reserved bits,
/// then what is present.
pub open spec fn spec_rendering(s: Seq<bool>) -> bitio::Parsed<RenderingView> {
    if s.len() < 8 {
        Err(Error::UnexpectedEof)
    } else if bitio::field(s, 4, 4) != 0 {
        Err(Error::InvalidData("ri_reserved_zero_4bits is not zero"))
    } else {
        match optional(s[0], spec_cicp(s, 8), 8) {
            Err(e) => Err(e),
            Ok((cicp, p1)) => match optional(s[1], spec_mdcv(s, p1), p1) {
                Err(e) => Err(e),
                Ok((mdcv, p2)) => match optional(s[2], spec_clli(s, p2), p2) {
                    Err(e) => Err(e),
                    Ok((clli, p3)) => match optional(s[3], spec_display_mapping(s, p3), p3) {
                        Err(e) => Err(e),
                        Ok((display_mapping, p4)) => Ok(
                            (RenderingView { cicp, mdcv, clli, display_mapping }, p4),
                        ),
                    },
                },
            },
        }
    }
}

fn read_cicp(r: &mut BitReader<'_>) -> (v: Result<Cicp>)
    requires
        old(r).wf(),
    ensures
        final(r).follows(old(r)),
        bitio::agrees(v, final(r).pos(), spec_cicp(old(r).bits(), old(r).pos())),
{
    proof {
        reveal(spec_cicp);
    }
    let cicp = Cicp {
        colour_primaries: r.read_bits(8)? as u8,
        transfer_characteristics: r.read_bits(8)? as u8,
        matrix_coefficients: r.read_bits(8)? as u8,
        full_range: r.read_bit()?,
        chroma420_sample_loc_type: r.read_bits(3)? as u8,
    };
    if r.read_bits(4)? != 0 {
        return Err(Error::InvalidData("ri_reserved_zero_4bits is not zero"));
    }
    Ok(cicp)
}

fn read_point(r: &mut BitReader<'_>) -> (v: Result<(u16, u16)>)
    requires
        old(r).wf(),
    ensures
        final(r).follows(old(r)),
        old(r).pos() + 32 > old(r).bits().len() ==> v == Err::<(u16, u16), Error>(
            Error::UnexpectedEof,
        ),
        old(r).pos() + 32 <= old(r).bits().len() ==> v == Ok::<(u16, u16), Error>(
            point(old(r).bits(), old(r).pos()),
        ) && final(r).pos() == old(r).pos() + 32,
{
    let x: u16 = r.read_bits(16)? as u16;
    let y: u16 = r.read_bits(16)? as u16;
    Ok((x, y))
}

fn read_mdcv(r: &mut BitReader<'_>) -> (v: Result<Mdcv>)
    requires
        old(r).wf(),
    ensures
        final(r).follows(old(r)),
        match spec_mdcv(old(r).bits(), old(r).pos()) {
            Ok((m, p)) => v matches Ok(x) && x@ == m && final(r).pos() == p,
            Err(e) => v == Err::<Mdcv, Error>(e),
        },
{
    proof {
        reveal(spec_mdcv);
    }
    let a: (u16, u16) = read_point(r)?;
    let b: (u16, u16) = read_point(r)?;
    let c: (u16, u16) = read_point(r)?;
    let white_point: (u16, u16) = read_point(r)?;
    let max_luminance: u32 = r.read_bits(32)?;
    let min_luminance: u32 = r.read_bits(32)?;
    let mdcv = Mdcv { primaries: [a, b, c], white_point, max_luminance, min_luminance };
    proof {
        assert(mdcv.primaries@ =~= seq![a, b, c]);
    }
    Ok(mdcv)
}

fn read_clli(r: &mut BitReader<'_>) -> (v: Result<Clli>)
    requires
        old(r).wf(),
    ensures
        final(r).follows(old(r)),
        bitio::agrees(v, final(r).pos(), spec_clli(old(r).bits(), old(r).pos())),
{
    proof {
        reveal(spec_clli);
    }
    Ok(
        Clli {
            max_content_light_level: r.read_bits(16)? as u16,
            max_frame_average_light_level: r.read_bits(16)? as u16,
        },
    )
}

fn read_display_mapping(r: &mut BitReader<'_>) -> (v: Result<(u8, Vec<u8>)>)
    requires
        old(r).wf(),
    ensures
        final(r).follows(old(r)),
        match spec_display_mapping(old(r).bits(), old(r).pos()) {
            Ok((d, p)) => v matches Ok(x) && (x.0, x.1@) == d && final(r).pos() == p,
            Err(e) => v == Err::<(u8, Vec<u8>), Error>(e),
        },
{
    proof {
        reveal(spec_display_mapping);
    }
    let ghost s = r.bits();
    let ghost pos = r.pos();
    let dm_type: u8 = r.read_bits(8)? as u8;
    let dm_size: u32 = r.read_bits(16)?;
    let mut data: Vec<u8> = Vec::new();
    let mut i: u32 = 0;
    while i < dm_size
        invariant
            i <= dm_size,
            r.follows(old(r)),
            s == old(r).bits(),
            s == r.bits(),
            pos == old(r).pos(),
            pos + 24 <= s.len(),
            dm_size == bitio::field(s, pos + 8, 16),
            r.pos() == pos + 24 + 8 * i,
            data@.len() == i,
            forall|j: int|
                0 <= j < i ==> #[trigger] data@[j] == bitio::field(s, pos + 24 + 8 * j, 8) as u8,
        decreases dm_size - i,
    {
        proof {
            reveal(spec_display_mapping);
        }
        data.push(r.read_bits(8)? as u8);
        i = i + 1;
    }
    proof {
        assert(data@ =~= Seq::new(
            dm_size as nat,
            |i: int| bitio::field(s, pos + 24 + 8 * i, 8) as u8,
        ));
    }
    Ok((dm_type, data))
}

impl RenderingInfo {
    /// Parse an `RDI` substream payload.
    pub fn parse(payload: &[u8]) -> (r: Result<Self>)
        requires
            bitio::addressable(payload@.len()),
        ensures
            match spec_rendering(bits::of_bytes(payload@)) {
                Ok((v, p)) => r matches Ok(info) && info@ == v,
                Err(e) => r == Err::<RenderingInfo, Error>(e),
            },
    {
        let mut r = BitReader::new(payload);
        let cicp_present: bool = r.read_bit()?;
        let mdcv_present: bool = r.read_bit()?;
        let clli_present: bool = r.read_bit()?;
        let dm_present: bool = r.read_bit()?;
        if r.read_bits(4)? != 0 {
            return Err(Error::InvalidData("ri_reserved_zero_4bits is not zero"));
        }
        let mut info = RenderingInfo::default();
        if cicp_present {
            info.cicp = Some(read_cicp(&mut r)?);
        }
        if mdcv_present {
            info.mdcv = Some(read_mdcv(&mut r)?);
        }
        if clli_present {
            info.clli = Some(read_clli(&mut r)?);
        }
        if dm_present {
            info.display_mapping = Some(read_display_mapping(&mut r)?);
        }
        Ok(info)
    }
}

/// The bits of a colour description.
#[verifier::opaque]
pub open spec fn cicp_code(c: Cicp) -> Seq<bool> {
    bits::low_bits(c.colour_primaries as nat, 8) + bits::low_bits(
        c.transfer_characteristics as nat,
        8,
    ) + bits::low_bits(c.matrix_coefficients as nat, 8) + seq![c.full_range] + bits::low_bits(
        c.chroma420_sample_loc_type as nat,
        3,
    ) + bits::low_bits(0, 4)
}

/// The bits of a pair of 16-bit numbers.
pub open spec fn point_code(p: (u16, u16)) -> Seq<bool> {
    bits::low_bits(p.0 as nat, 16) + bits::low_bits(p.1 as nat, 16)
}

/// The bits of a mastering display colour volume.
#[verifier::opaque]
pub open spec fn mdcv_code(m: MdcvView) -> Seq<bool> {
    point_code(m.primaries[0]) + point_code(m.primaries[1]) + point_code(m.primaries[2])
        + point_code(m.white_point) + bits::low_bits(m.max_luminance as nat, 32) + bits::low_bits(
        m.min_luminance as nat,
        32,
    )
}

/// The bits of a content light level.
#[verifier::opaque]
pub open spec fn clli_code(c: Clli) -> Seq<bool> {
    bits::low_bits(c.max_content_light_level as nat, 16) + bits::low_bits(
        c.max_frame_average_light_level as nat,
        16,
    )
}

/// The bits of a display mapping.
#[verifier::opaque]
pub open spec fn display_mapping_code(d: (u8, Seq<u8>)) -> Seq<bool> {
    bits::low_bits(d.0 as nat, 8) + bits::low_bits(d.1.len(), 16) + bits::of_bytes(d.1)
}

/// The four presence flags and four reserved bits.
#[verifier::opaque]
pub open spec fn flags_code(v: RenderingView) -> Seq<bool> {
    seq![v.cicp is Some, v.mdcv is Some, v.clli is Some, v.display_mapping is Some]
        + bits::low_bits(0, 4)
}

/// The bits of rendering information.
pub open spec fn rendering_code(v: RenderingView) -> Seq<bool> {
    flags_code(v) + (match v.cicp {
        Some(c) => cicp_code(c),
        None => Seq::empty(),
    }) + (match v.mdcv {
        Some(m) => mdcv_code(m),
        None => Seq::empty(),
    }) + (match v.clli {
        Some(c) => clli_code(c),
        None => Seq::empty(),
    }) + (match v.display_mapping {
        Some(d) => display_mapping_code(d),
        None => Seq::empty(),
    })
}

/// Why rendering information cannot be written, if it cannot.
pub open spec fn rendering_error(v: RenderingView) -> Option<Error> {
    if v.cicp matches Some(c) && c.chroma420_sample_loc_type > 7 {
        Some(Error::InvalidArgument("chroma420_sample_loc_type out of range"))
    } else if v.display_mapping matches Some(d) && d.1.len() > 0xffff {
        Some(Error::InvalidArgument("display mapping data too long"))
    } else {
        None
    }
}

impl RenderingInfo {
    /// Serialise back to an `RDI` substream payload (round-trips through [`Self::parse`]).
    pub fn write(&self) -> (r: Result<Vec<u8>>)
        ensures
            match rendering_error(self@) {
                Some(e) => r == Err::<Vec<u8>, Error>(e),
                None => r matches Ok(bytes) && bytes@ == bits::pack(rendering_code(self@)),
            },
    {
        let mut w = BitWriter::new();
        let ghost v = self@;
        w.write_bit(self.cicp.is_some());
        w.write_bit(self.mdcv.is_some());
        w.write_bit(self.clli.is_some());
        w.write_bit(self.display_mapping.is_some());
        w.write_bits(0, 4);
        proof {
            reveal(flags_code);
            assert(w.bits() =~= flags_code(v));
        }
        if let Some(c) = &self.cicp {
            if c.chroma420_sample_loc_type > 7 {
                return Err(Error::InvalidArgument("chroma420_sample_loc_type out of range"));
            }
            write_cicp(&mut w, c);
        } else {
            proof {
                assert(w.bits() =~= w.bits() + Seq::empty());
            }
        }
        if let Some(m) = &self.mdcv {
            write_mdcv(&mut w, m);
        } else {
            proof {
                assert(w.bits() =~= w.bits() + Seq::empty());
            }
        }
        if let Some(c) = &self.clli {
            write_clli(&mut w, c);
        } else {
            proof {
                assert(w.bits() =~= w.bits() + Seq::empty());
            }
        }
        if let Some((dm_type, data)) = &self.display_mapping {
            if data.len() > 0xffff {
                return Err(Error::InvalidArgument("display mapping data too long"));
            }
            write_display_mapping(&mut w, *dm_type, data);
        } else {
            proof {
                assert(w.bits() =~= w.bits() + Seq::empty());
            }
        }
        proof {
            assert(w.bits() == rendering_code(v));
        }
        Ok(w.finish())
    }
}

fn write_cicp(w: &mut BitWriter, c: &Cicp)
    requires
        old(w).wf(),
    ensures
        final(w).wf(),
        final(w).bits() == old(w).bits() + cicp_code(*c),
{
    w.write_bits(c.colour_primaries as u32, 8);
    w.write_bits(c.transfer_characteristics as u32, 8);
    w.write_bits(c.matrix_coefficients as u32, 8);
    w.write_bit(c.full_range);
    w.write_bits(c.chroma420_sample_loc_type as u32, 3);
    w.write_bits(0, 4);
    proof {
        reveal(cicp_code);
        assert(w.bits() =~= old(w).bits() + cicp_code(*c));
    }
}

fn write_mdcv(w: &mut BitWriter, m: &Mdcv)
    requires
        old(w).wf(),
    ensures
        final(w).wf(),
        final(w).bits() == old(w).bits() + mdcv_code(m@),
{
    write_point(w, m.primaries[0]);
    write_point(w, m.primaries[1]);
    write_point(w, m.primaries[2]);
    write_point(w, m.white_point);
    w.write_bits(m.max_luminance, 32);
    w.write_bits(m.min_luminance, 32);
    proof {
        reveal(mdcv_code);
        assert(w.bits() =~= old(w).bits() + mdcv_code(m@));
    }
}

fn write_clli(w: &mut BitWriter, c: &Clli)
    requires
        old(w).wf(),
    ensures
        final(w).wf(),
        final(w).bits() == old(w).bits() + clli_code(*c),
{
    w.write_bits(c.max_content_light_level as u32, 16);
    w.write_bits(c.max_frame_average_light_level as u32, 16);
    proof {
        reveal(clli_code);
        assert(w.bits() =~= old(w).bits() + clli_code(*c));
    }
}

fn write_display_mapping(w: &mut BitWriter, dm_type: u8, data: &Vec<u8>)
    requires
        old(w).wf(),
        data@.len() <= 0xffff,
    ensures
        final(w).wf(),
        final(w).bits() == old(w).bits() + display_mapping_code((dm_type, data@)),
{
    w.write_bits(dm_type as u32, 8);
    w.write_bits(data.len() as u32, 16);
    write_bytes(w, data);
    proof {
        reveal(display_mapping_code);
        assert(w.bits() =~= old(w).bits() + display_mapping_code((dm_type, data@)));
    }
}

fn write_point(w: &mut BitWriter, p: (u16, u16))
    requires
        old(w).wf(),
    ensures
        final(w).wf(),
        final(w).bits() == old(w).bits() + point_code(p),
{
    w.write_bits(p.0 as u32, 16);
    w.write_bits(p.1 as u32, 16);
    proof {
        assert(w.bits() =~= old(w).bits() + point_code(p));
    }
}

fn write_bytes(w: &mut BitWriter, data: &Vec<u8>)
    requires
        old(w).wf(),
    ensures
        final(w).wf(),
        final(w).bits() == old(w).bits() + bits::of_bytes(data@),
{
    let mut i: usize = 0;
    proof {
        assert(bits::of_bytes(data@.take(0)) =~= Seq::empty());
        assert(w.bits() =~= old(w).bits() + bits::of_bytes(data@.take(0)));
    }
    while i < data.len()
        invariant
            i <= data@.len(),
            w.wf(),
            w.bits() == old(w).bits() + bits::of_bytes(data@.take(i as int)),
        decreases data@.len() - i,
    {
        w.write_bits(data[i] as u32, 8);
        proof {
            bits::lemma_of_bytes_push(data@.take(i as int), data@[i as int]);
            assert(data@.take(i as int).push(data@[i as int]) =~= data@.take(i + 1));
            assert(w.bits() =~= old(w).bits() + bits::of_bytes(data@.take(i + 1)));
        }
        i = i + 1;
    }
    proof {
        assert(data@.take(i as int) =~= data@);
    }
}

proof fn lemma_read_cicp(s: Seq<bool>, pos: int, c: Cicp)
    requires
        c.chroma420_sample_loc_type <= 7,
        bits::has_at(s, pos, cicp_code(c)),
    ensures
        spec_cicp(s, pos) == Ok::<(Cicp, int), Error>((c, pos + cicp_code(c).len())),
{
    reveal(spec_cicp);
    reveal(cicp_code);
    power2::lemma2_to64();
    let a = bits::low_bits(c.colour_primaries as nat, 8);
    let b = bits::low_bits(c.transfer_characteristics as nat, 8);
    let m = bits::low_bits(c.matrix_coefficients as nat, 8);
    let f = seq![c.full_range];
    let l = bits::low_bits(c.chroma420_sample_loc_type as nat, 3);
    let z = bits::low_bits(0, 4);
    bits::lemma_has_at_concat(s, pos, a + b + m + f + l, z);
    bits::lemma_has_at_concat(s, pos, a + b + m + f, l);
    bits::lemma_has_at_concat(s, pos, a + b + m, f);
    bits::lemma_has_at_concat(s, pos, a + b, m);
    bits::lemma_has_at_concat(s, pos, a, b);
    bitio::lemma_field(s, pos, c.colour_primaries as nat, 8);
    bitio::lemma_field(s, pos + 8, c.transfer_characteristics as nat, 8);
    bitio::lemma_field(s, pos + 16, c.matrix_coefficients as nat, 8);
    bitio::law_bit_round_trip(s, pos + 24, c.full_range);
    bitio::lemma_field(s, pos + 25, c.chroma420_sample_loc_type as nat, 3);
    bitio::lemma_field(s, pos + 28, 0, 4);
}

proof fn lemma_read_point(s: Seq<bool>, pos: int, p: (u16, u16))
    requires
        bits::has_at(s, pos, point_code(p)),
    ensures
        point(s, pos) == p,
        point_code(p).len() == 32,
{
    power2::lemma2_to64();
    bits::lemma_has_at_concat(s, pos, bits::low_bits(p.0 as nat, 16), bits::low_bits(p.1 as nat, 16));
    bitio::lemma_field(s, pos, p.0 as nat, 16);
    bitio::lemma_field(s, pos + 16, p.1 as nat, 16);
}

proof fn lemma_read_mdcv(s: Seq<bool>, pos: int, m: MdcvView)
    requires
        m.primaries.len() == 3,
        bits::has_at(s, pos, mdcv_code(m)),
    ensures
        spec_mdcv(s, pos) == Ok::<(MdcvView, int), Error>((m, pos + mdcv_code(m).len())),
{
    reveal(spec_mdcv);
    reveal(mdcv_code);
    power2::lemma2_to64();
    let a = point_code(m.primaries[0]);
    let b = point_code(m.primaries[1]);
    let c = point_code(m.primaries[2]);
    let w = point_code(m.white_point);
    let hi = bits::low_bits(m.max_luminance as nat, 32);
    let lo = bits::low_bits(m.min_luminance as nat, 32);
    bits::lemma_has_at_concat(s, pos, a + b + c + w + hi, lo);
    bits::lemma_has_at_concat(s, pos, a + b + c + w, hi);
    bits::lemma_has_at_concat(s, pos, a + b + c, w);
    bits::lemma_has_at_concat(s, pos, a + b, c);
    bits::lemma_has_at_concat(s, pos, a, b);
    lemma_read_point(s, pos, m.primaries[0]);
    lemma_read_point(s, pos + 32, m.primaries[1]);
    lemma_read_point(s, pos + 64, m.primaries[2]);
    lemma_read_point(s, pos + 96, m.white_point);
    bitio::lemma_field(s, pos + 128, m.max_luminance as nat, 32);
    bitio::lemma_field(s, pos + 160, m.min_luminance as nat, 32);
    assert(seq![point(s, pos), point(s, pos + 32), point(s, pos + 64)] =~= m.primaries);
}

proof fn lemma_read_clli(s: Seq<bool>, pos: int, c: Clli)
    requires
        bits::has_at(s, pos, clli_code(c)),
    ensures
        spec_clli(s, pos) == Ok::<(Clli, int), Error>((c, pos + clli_code(c).len())),
{
    reveal(spec_clli);
    reveal(clli_code);
    power2::lemma2_to64();
    bits::lemma_has_at_concat(
        s,
        pos,
        bits::low_bits(c.max_content_light_level as nat, 16),
        bits::low_bits(c.max_frame_average_light_level as nat, 16),
    );
    bitio::lemma_field(s, pos, c.max_content_light_level as nat, 16);
    bitio::lemma_field(s, pos + 16, c.max_frame_average_light_level as nat, 16);
}

proof fn lemma_read_display_mapping(s: Seq<bool>, pos: int, d: (u8, Seq<u8>))
    requires
        d.1.len() <= 0xffff,
        bits::has_at(s, pos, display_mapping_code(d)),
    ensures
        spec_display_mapping(s, pos) == Ok::<((u8, Seq<u8>), int), Error>(
            (d, pos + display_mapping_code(d).len()),
        ),
{
    reveal(spec_display_mapping);
    reveal(display_mapping_code);
    power2::lemma2_to64();
    let t = bits::low_bits(d.0 as nat, 8);
    let n = bits::low_bits(d.1.len(), 16);
    let data = bits::of_bytes(d.1);
    bits::lemma_has_at_concat(s, pos, t + n, data);
    bits::lemma_has_at_concat(s, pos, t, n);
    bitio::lemma_field(s, pos, d.0 as nat, 8);
    bitio::lemma_field(s, pos + 8, d.1.len(), 16);
    let read = Seq::new(d.1.len(), |i: int| bitio::field(s, pos + 24 + 8 * i, 8) as u8);
    assert forall|i: int| 0 <= i < d.1.len() implies read[i] == d.1[i] by {
        bitio::lemma_byte_at(s, pos + 24, d.1, i);
    }
    assert(read =~= d.1);
}

proof fn lemma_read_flags(s: Seq<bool>, v: RenderingView)
    requires
        bits::has_at(s, 0, flags_code(v)),
    ensures
        s.len() >= 8,
        flags_code(v).len() == 8,
        bitio::field(s, 4, 4) == 0,
        s[0] == v.cicp is Some,
        s[1] == v.mdcv is Some,
        s[2] == v.clli is Some,
        s[3] == v.display_mapping is Some,
{
    reveal(flags_code);
    power2::lemma2_to64();
    let f = seq![v.cicp is Some, v.mdcv is Some, v.clli is Some, v.display_mapping is Some];
    bits::lemma_has_at_concat(s, 0, f, bits::low_bits(0, 4));
    bitio::lemma_field(s, 4, 0, 4);
    assert(s.subrange(0, 4)[0] == f[0]);
    assert(s.subrange(0, 4)[1] == f[1]);
    assert(s.subrange(0, 4)[2] == f[2]);
    assert(s.subrange(0, 4)[3] == f[3]);
}

/// Rendering information that was written parses to what was written.
pub proof fn law_rendering_round_trip(v: RenderingView)
    requires
        rendering_error(v) is None,
        v.mdcv matches Some(m) ==> m.primaries.len() == 3,
    ensures
        spec_rendering(bits::of_bytes(bits::pack(rendering_code(v)))) == Ok::<
            (RenderingView, int),
            Error,
        >((v, rendering_code(v).len() as int)),
{
    let code = rendering_code(v);
    bits::lemma_pack(code);
    let s = bits::of_bytes(bits::pack(code));
    let flags = flags_code(v);
    let c = match v.cicp {
        Some(c) => cicp_code(c),
        None => Seq::empty(),
    };
    let m = match v.mdcv {
        Some(m) => mdcv_code(m),
        None => Seq::empty(),
    };
    let l = match v.clli {
        Some(c) => clli_code(c),
        None => Seq::empty(),
    };
    let d = match v.display_mapping {
        Some(d) => display_mapping_code(d),
        None => Seq::empty(),
    };
    bits::lemma_has_at_concat(s, 0, flags + c + m + l, d);
    bits::lemma_has_at_concat(s, 0, flags + c + m, l);
    bits::lemma_has_at_concat(s, 0, flags + c, m);
    bits::lemma_has_at_concat(s, 0, flags, c);
    lemma_read_flags(s, v);
    let p1 = 8 + c.len() as int;
    let p2 = p1 + m.len();
    let p3 = p2 + l.len();
    if v.cicp is Some {
        lemma_read_cicp(s, 8, v.cicp->0);
    }
    if v.mdcv is Some {
        lemma_read_mdcv(s, p1, v.mdcv->0);
    }
    if v.clli is Some {
        lemma_read_clli(s, p2, v.clli->0);
    }
    if v.display_mapping is Some {
        lemma_read_display_mapping(s, p3, v.display_mapping->0);
    }
}

} // verus!

//! Marker-delimited codestream container.
//!
//! ```text
//! SOC | PIH | [TON] | [SOQ] | SOZ | SORP.. | SORS.. | [UDI] | [RDI] | EOC
//! ```
//!
//! Every substream is `marker (2 bytes, big-endian) | size ue(v), byte-aligned | payload`.
//! Entropy-coded substreams may be split into independently decodable *threads*, and the two
//! residual substreams may additionally be split into spatial *regions*. Those splits depend on
//! values signalled in the picture header, so parsing is two-phase: [`Codestream::parse`] splits
//! the file at markers without interpreting payloads, and [`split_regions`] / [`split_threads`]
//! are applied once the header is known.

use vstd::prelude::*;

use crate::bitio;
use crate::bitio::{BitReader, BitWriter};
use crate::bits;
use crate::error::{Error, Result};

verus! {

/// Substream markers.
#[derive(Clone, Copy, Debug, PartialEq, Eq, Hash, Structural)]
pub enum Marker {
    /// Start of codestream.
    Soc,
    /// End of codestream.
    Eoc,
    /// Picture header.
    Pih,
    /// Tool header.
    Ton,
    /// Rendering information.
    Rdi,
    /// Hyper-latent `z` substream.
    Soz,
    /// Residual substream, primary (luma) component.
    Sorp,
    /// Residual substream, secondary (chroma) component.
    Sors,
    /// Quality map.
    Soq,
    /// User-defined information.
    Udi,
}

impl Marker {
    /// The marker's two bytes, as a big-endian number.
    pub open spec fn code(self) -> u16 {
        match self {
            Marker::Soc => 0xFF80,
            Marker::Eoc => 0xFF81,
            Marker::Pih => 0xFF82,
            Marker::Ton => 0xFF83,
            Marker::Rdi => 0xFF84,
            Marker::Soz => 0xFF88,
            Marker::Sorp => 0xFF89,
            Marker::Sors => 0xFF8A,
            Marker::Soq => 0xFF8B,
            Marker::Udi => 0xFF8C,
        }
    }

    /// The marker that a code stands for.
    pub open spec fn of_code(v: u16) -> Option<Marker> {
        if v == 0xFF80 {
            Some(Marker::Soc)
        } else if v == 0xFF81 {
            Some(Marker::Eoc)
        } else if v == 0xFF82 {
            Some(Marker::Pih)
        } else if v == 0xFF83 {
            Some(Marker::Ton)
        } else if v == 0xFF84 {
            Some(Marker::Rdi)
        } else if v == 0xFF88 {
            Some(Marker::Soz)
        } else if v == 0xFF89 {
            Some(Marker::Sorp)
        } else if v == 0xFF8A {
            Some(Marker::Sors)
        } else if v == 0xFF8B {
            Some(Marker::Soq)
        } else if v == 0xFF8C {
            Some(Marker::Udi)
        } else {
            None
        }
    }

    /// The marker's code.
    pub fn to_u16(self) -> (v: u16)
        ensures
            v == self.code(),
    {
        match self {
            Marker::Soc => 0xFF80,
            Marker::Eoc => 0xFF81,
            Marker::Pih => 0xFF82,
            Marker::Ton => 0xFF83,
            Marker::Rdi => 0xFF84,
            Marker::Soz => 0xFF88,
            Marker::Sorp => 0xFF89,
            Marker::Sors => 0xFF8A,
            Marker::Soq => 0xFF8B,
            Marker::Udi => 0xFF8C,
        }
    }

    /// The marker with code `v`; `None` for a number that is no marker's code.
    pub fn from_u16(v: u16) -> (m: Option<Self>)
        ensures
            m == Marker::of_code(v),
            m matches Some(k) ==> k.code() == v,
            m is None ==> forall|k: Marker| #[trigger] k.code() != v,
    {
        match v {
            0xFF80 => Some(Marker::Soc),
            0xFF81 => Some(Marker::Eoc),
            0xFF82 => Some(Marker::Pih),
            0xFF83 => Some(Marker::Ton),
            0xFF84 => Some(Marker::Rdi),
            0xFF88 => Some(Marker::Soz),
            0xFF89 => Some(Marker::Sorp),
            0xFF8A => Some(Marker::Sors),
            0xFF8B => Some(Marker::Soq),
            0xFF8C => Some(Marker::Udi),
            _ => None,
        }
    }

    /// Whether the payload is entropy coded (as opposed to plain bit fields).
    pub fn is_entropy_coded(self) -> (b: bool)
        ensures
            b == (self is Soz || self is Sorp || self is Sors || self is Soq),
    {
        match self {
            Marker::Soz | Marker::Sorp | Marker::Sors | Marker::Soq => true,
            _ => false,
        }
    }

    /// Whether the payload may be split into spatial regions.
    pub fn has_regions(self) -> (b: bool)
        ensures
            b == (self is Sorp || self is Sors),
    {
        match self {
            Marker::Sorp | Marker::Sors => true,
            _ => false,
        }
    }

    /// Whether the marker introduces a sized substream: every one but SOC and EOC.
    pub open spec fn sized(self) -> bool {
        self !is Soc && self !is Eoc
    }

    /// Whether the marker introduces a sized substream (everything except SOC / EOC).
    pub fn has_payload(self) -> (b: bool)
        ensures
            b == self.sized(),
    {
        match self {
            Marker::Soc | Marker::Eoc => false,
            _ => true,
        }
    }
}

/// One substream as a value: its marker and its payload.
pub type Piece = (Marker, Seq<u8>);

/// One marker-delimited substream, borrowed from the input.
#[derive(Clone, Copy, Debug, PartialEq, Eq)]
pub struct Substream<'a> {
    pub marker: Marker,
    pub payload: &'a [u8],
}

impl<'a> View for Substream<'a> {
    type V = Piece;

    open spec fn view(&self) -> Piece {
        (self.marker, self.payload@)
    }
}

/// A codestream split at its markers. Payloads are not interpreted.
#[derive(Clone, Debug)]
pub struct Codestream<'a> {
    pub substreams: Vec<Substream<'a>>,
}

/// The substreams of a parsed codestream as values.
pub open spec fn pieces(subs: Seq<Substream<'_>>) -> Seq<Piece> {
    Seq::new(subs.len(), |i: int| subs[i]@)
}

impl<'a> View for Codestream<'a> {
    type V = Seq<Piece>;

    open spec fn view(&self) -> Seq<Piece> {
        pieces(self.substreams@)
    }
}

/// The big-endian 16-bit number at a byte position.
pub open spec fn u16_at(d: Seq<u8>, pos: int) -> u16 {
    (d[pos] as int * 256 + d[pos + 1] as int) as u16
}

/// What [`Codestream::parse`] makes of the bytes from `pos` on, where a marker is due, when
/// `acc` is what it has read before.
pub open spec fn spec_substreams(d: Seq<u8>, pos: int, acc: Seq<Piece>) -> core::result::Result<
    Seq<Piece>,
    Error,
>
    decreases d.len() - pos,
{
    if pos < 0 || pos + 2 > d.len() {
        Err(Error::UnexpectedEof)
    } else {
        match Marker::of_code(u16_at(d, pos)) {
            None => Err(Error::InvalidData("unknown marker")),
            Some(Marker::Eoc) => if acc.len() == 0 {
                Err(Error::InvalidData("codestream has no picture header"))
            } else {
                Ok(acc)
            },
            Some(Marker::Soc) => Err(Error::InvalidData("SOC inside codestream")),
            Some(m) => match bitio::spec_ue(
                bits::of_bytes(d.subrange(pos + 2, d.len() as int)),
                0,
            ) {
                Err(e) => Err(e),
                Ok((size, p)) => {
                    let start = pos + 2 + (p + 7) / 8;
                    let end = start + size;
                    if end > usize::MAX {
                        Err(Error::InvalidData("substream size overflow"))
                    } else if end > d.len() {
                        Err(Error::UnexpectedEof)
                    } else if acc.len() == 0 && m != Marker::Pih {
                        Err(Error::InvalidData("PIH must be the first substream"))
                    } else {
                        proof {
                            bitio::lemma_ue_advances(
                                bits::of_bytes(d.subrange(pos + 2, d.len() as int)),
                                0,
                            );
                        }
                        spec_substreams(d, end, acc.push((m, d.subrange(start, end))))
                    }
                },
            },
        }
    }
}

/// What [`Codestream::parse`] makes of a byte string: SOC, then sized substreams of which PIH
/// is the first, then EOC. What follows EOC is not looked at.
pub open spec fn spec_parse(d: Seq<u8>) -> core::result::Result<Seq<Piece>, Error> {
    if d.len() < 2 {
        Err(Error::UnexpectedEof)
    } else if u16_at(d, 0) != Marker::Soc.code() {
        Err(Error::InvalidData("codestream does not start with SOC"))
    } else {
        spec_substreams(d, 2, Seq::empty())
    }
}

impl<'a> Default for Codestream<'a> {
    /// No substreams.
    fn default() -> (cs: Self)
        ensures
            cs@ == Seq::<Piece>::empty(),
    {
        let cs = Codestream { substreams: Vec::new() };
        proof {
            assert(cs@ =~= Seq::<Piece>::empty());
        }
        cs
    }
}

impl<'a> Codestream<'a> {
    /// Split `data` at markers.
    ///
    /// The stream must start with SOC, contain only known markers, put PIH first, and end with
    /// EOC.
    pub fn parse(data: &'a [u8]) -> (r: Result<Self>)
        requires
            bitio::addressable(data@.len()),
        ensures
            match spec_parse(data@) {
                Ok(subs) => r matches Ok(cs) && cs@ == subs,
                Err(e) => r == Err::<Codestream<'a>, Error>(e),
            },
            r matches Ok(cs) ==> readable(cs@),
    {
        let len: usize = data.len();
        if len < 2 {
            return Err(Error::UnexpectedEof);
        }
        if read_u16(data, 0) != Marker::Soc.to_u16() {
            return Err(Error::InvalidData("codestream does not start with SOC"));
        }
        let mut substreams: Vec<Substream<'a>> = Vec::new();
        let mut pos: usize = 2;
        proof {
            assert(pieces(substreams@) =~= Seq::empty());
        }
        loop
            invariant
                bitio::addressable(data@.len()),
                len == data@.len(),
                2 <= pos <= len,
                spec_parse(data@) == spec_substreams(data@, pos as int, pieces(substreams@)),
                readable(pieces(substreams@)),
            decreases len - pos,
        {
            if len - pos < 2 {
                return Err(Error::UnexpectedEof);
            }
            let marker: Marker = match Marker::from_u16(read_u16(data, pos)) {
                Some(m) => m,
                None => return Err(Error::InvalidData("unknown marker")),
            };
            if marker == Marker::Eoc {
                if substreams.len() == 0 {
                    return Err(Error::InvalidData("codestream has no picture header"));
                }
                return Ok(Codestream { substreams });
            }
            if marker == Marker::Soc {
                return Err(Error::InvalidData("SOC inside codestream"));
            }
            let mut r = BitReader::new(vstd::slice::slice_subrange(data, pos + 2, len));
            let size: u64 = r.read_ue()?;
            let start: usize = pos + 2 + r.bytes_consumed();
            proof {
                bitio::lemma_ue_advances(bits::of_bytes(data@.subrange(pos + 2, len as int)), 0);
            }
            if size > usize::MAX as u64 {
                return Err(Error::InvalidData("substream size overflow"));
            }
            let end: usize = match start.checked_add(size as usize) {
                Some(end) => end,
                None => return Err(Error::InvalidData("substream size overflow")),
            };
            if end > len {
                return Err(Error::UnexpectedEof);
            }
            if substreams.len() == 0 && marker != Marker::Pih {
                return Err(Error::InvalidData("PIH must be the first substream"));
            }
            let payload: &'a [u8] = vstd::slice::slice_subrange(data, start, end);
            let sub = Substream { marker, payload };
            proof {
                assert(pieces(substreams@.push(sub)) =~= pieces(substreams@).push(sub@));
            }
            substreams.push(sub);
            pos = end;
        }
    }

    /// First substream with the given marker.
    pub fn find(&self, marker: Marker) -> (found: Option<&'a [u8]>)
        ensures
            match found {
                Some(p) => payloads_of(self@, marker).len() > 0 && p@ == payloads_of(self@, marker)[0],
                None => payloads_of(self@, marker).len() == 0,
            },
    {
        let mut i: usize = 0;
        while i < self.substreams.len()
            invariant
                i <= self.substreams@.len(),
                payloads_of(self@.take(i as int), marker).len() == 0,
            decreases self.substreams@.len() - i,
        {
            let sub: Substream<'a> = self.substreams[i];
            proof {
                lemma_payloads_step(self@, marker, i as int);
            }
            if sub.marker == marker {
                proof {
                    lemma_payloads_prefix(self@, marker, i + 1);
                    let head = payloads_of(self@.take(i + 1), marker);
                    assert(head[0] == sub.payload@);
                    assert(payloads_of(self@, marker)[0] == head[0]);
                }
                return Some(sub.payload);
            }
            i = i + 1;
        }
        proof {
            assert(self@.take(i as int) =~= self@);
        }
        None
    }

    /// All substreams with the given marker, in file order.
    pub fn find_all(&self, marker: Marker) -> (found: Vec<&'a [u8]>)
        ensures
            contents(found@) == payloads_of(self@, marker),
    {
        let mut found: Vec<&'a [u8]> = Vec::new();
        let mut i: usize = 0;
        proof {
            assert(contents(found@) =~= payloads_of(self@.take(0), marker));
        }
        while i < self.substreams.len()
            invariant
                i <= self.substreams@.len(),
                contents(found@) == payloads_of(self@.take(i as int), marker),
            decreases self.substreams@.len() - i,
        {
            let sub: Substream<'a> = self.substreams[i];
            proof {
                lemma_payloads_step(self@, marker, i as int);
            }
            if sub.marker == marker {
                proof {
                    assert(contents(found@.push(sub.payload)) =~= contents(found@).push(
                        sub.payload@,
                    ));
                }
                found.push(sub.payload);
            }
            i = i + 1;
        }
        proof {
            assert(self@.take(i as int) =~= self@);
        }
        found
    }
}

/// The byte strings behind a sequence of slices.
pub open spec fn contents(slices: Seq<&[u8]>) -> Seq<Seq<u8>> {
    Seq::new(slices.len(), |i: int| slices[i]@)
}

/// The bits of every payload can be counted.
pub open spec fn readable(subs: Seq<Piece>) -> bool {
    forall|i: int| 0 <= i < subs.len() ==> bitio::addressable((#[trigger] subs[i]).1.len())
}

/// The bits of every part that is present can be counted.
pub open spec fn readable_parts(parts: Seq<Option<&[u8]>>) -> bool {
    forall|i: int|
        0 <= i < parts.len() ==> ((#[trigger] parts[i]) matches Some(p) ==> bitio::addressable(
            p@.len(),
        ))
}

/// The bits of every payload with a marker can be counted.
pub proof fn lemma_readable(subs: Seq<Piece>, marker: Marker, i: int)
    requires
        readable(subs),
        0 <= i < payloads_of(subs, marker).len(),
    ensures
        bitio::addressable(payloads_of(subs, marker)[i].len()),
    decreases subs.len(),
{
    let front = subs.drop_last();
    assert forall|j: int| 0 <= j < front.len() implies bitio::addressable(
        (#[trigger] front[j]).1.len(),
    ) by {
        assert(front[j] == subs[j]);
    }
    assert(bitio::addressable(subs[subs.len() - 1].1.len()));
    if i < payloads_of(front, marker).len() {
        lemma_readable(front, marker, i);
    }
}

/// The payloads of the substreams with a marker, in order.
pub open spec fn payloads_of(subs: Seq<Piece>, marker: Marker) -> Seq<Seq<u8>>
    decreases subs.len(),
{
    if subs.len() == 0 {
        Seq::empty()
    } else if subs.last().0 == marker {
        payloads_of(subs.drop_last(), marker).push(subs.last().1)
    } else {
        payloads_of(subs.drop_last(), marker)
    }
}

proof fn lemma_payloads_step(subs: Seq<Piece>, marker: Marker, i: int)
    requires
        0 <= i < subs.len(),
    ensures
        payloads_of(subs.take(i + 1), marker) == if subs[i].0 == marker {
            payloads_of(subs.take(i), marker).push(subs[i].1)
        } else {
            payloads_of(subs.take(i), marker)
        },
{
    assert(subs.take(i + 1).drop_last() =~= subs.take(i));
    assert(subs.take(i + 1).last() == subs[i]);
}

proof fn lemma_payloads_prefix(subs: Seq<Piece>, marker: Marker, i: int)
    requires
        0 <= i <= subs.len(),
    ensures
        payloads_of(subs.take(i), marker).len() <= payloads_of(subs, marker).len(),
        forall|j: int|
            0 <= j < payloads_of(subs.take(i), marker).len() ==> payloads_of(subs, marker)[j]
                == #[trigger] payloads_of(subs.take(i), marker)[j],
    decreases subs.len() - i,
{
    if i == subs.len() {
        assert(subs.take(i) =~= subs);
    } else {
        lemma_payloads_step(subs, marker, i);
        lemma_payloads_prefix(subs, marker, i + 1);
        assert forall|j: int| 0 <= j < payloads_of(subs.take(i), marker).len() implies payloads_of(
            subs,
            marker,
        )[j] == #[trigger] payloads_of(subs.take(i), marker)[j] by {
            assert(payloads_of(subs.take(i + 1), marker)[j] == payloads_of(subs.take(i), marker)[j]);
        }
    }
}

/// The big-endian 16-bit number at a byte position.
fn read_u16(data: &[u8], pos: usize) -> (v: u16)
    requires
        pos + 2 <= data@.len(),
    ensures
        v == u16_at(data@, pos as int),
{
    data[pos] as u16 * 256 + data[pos + 1] as u16
}

/// A marker's two bytes.
pub open spec fn marker_bytes(m: Marker) -> Seq<u8> {
    seq![(m.code() / 256) as u8, (m.code() % 256) as u8]
}

/// The bytes of one substream.
pub open spec fn substream_bytes(piece: Piece) -> Seq<u8> {
    marker_bytes(piece.0) + bits::pack(bitio::ue_code(piece.1.len())) + piece.1
}

/// The bytes of a run of substreams.
pub open spec fn run_bytes(subs: Seq<Piece>) -> Seq<u8>
    decreases subs.len(),
{
    if subs.len() == 0 {
        Seq::empty()
    } else {
        run_bytes(subs.drop_last()) + substream_bytes(subs.last())
    }
}

/// The bytes of a codestream with these substreams.
pub open spec fn codestream_bytes(subs: Seq<Piece>) -> Seq<u8> {
    marker_bytes(Marker::Soc) + run_bytes(subs) + marker_bytes(Marker::Eoc)
}

/// Serialises substreams into a codestream.
#[derive(Debug)]
pub struct CodestreamWriter {
    out: Vec<u8>,
    wrote_any: bool,
}

impl CodestreamWriter {
    /// The bytes written so far.
    pub closed spec fn bytes(&self) -> Seq<u8> {
        self.out@
    }

    /// Whether a substream has been written.
    pub closed spec fn started(&self) -> bool {
        self.wrote_any
    }

    /// The writer has written SOC and these substreams.
    pub open spec fn holds(&self, subs: Seq<Piece>) -> bool {
        &&& self.bytes() == marker_bytes(Marker::Soc) + run_bytes(subs)
        &&& self.started() == (subs.len() > 0)
    }

    /// A writer that has written SOC.
    pub fn new() -> (w: Self)
        ensures
            w.holds(Seq::empty()),
    {
        let mut out: Vec<u8> = Vec::new();
        push_marker(&mut out, Marker::Soc);
        proof {
            assert(out@ =~= marker_bytes(Marker::Soc) + run_bytes(Seq::empty()));
        }
        CodestreamWriter { out, wrote_any: false }
    }

    /// Append one substream. The first one must be PIH.
    pub fn substream(&mut self, marker: Marker, payload: &[u8]) -> (r: Result<()>)
        requires
            payload@.len() < 0x1_ffff_ffff,
        ensures
            !marker.sized() ==> r == Err::<(), Error>(
                Error::InvalidArgument("SOC/EOC carry no payload"),
            ),
            marker.sized() && !old(self).started() && marker != Marker::Pih ==> r == Err::<(), Error>(
                Error::InvalidArgument("PIH must be the first substream"),
            ),
            marker.sized() && (old(self).started() || marker == Marker::Pih) ==> r is Ok,
            r is Err ==> *final(self) == *old(self),
            r is Ok ==> final(self).started() && final(self).bytes() == old(self).bytes()
                + substream_bytes((marker, payload@)),
            r is Ok ==> forall|subs: Seq<Piece>|
                old(self).holds(subs) ==> final(self).holds(#[trigger] subs.push((marker, payload@))),
    {
        if !marker.has_payload() {
            return Err(Error::InvalidArgument("SOC/EOC carry no payload"));
        }
        if !self.wrote_any && marker != Marker::Pih {
            return Err(Error::InvalidArgument("PIH must be the first substream"));
        }
        self.wrote_any = true;
        let ghost before = self.out@;
        push_marker(&mut self.out, marker);
        let mut w = BitWriter::new();
        w.write_ue(payload.len() as u64);
        let size = w.finish();
        proof {
            assert(Seq::<bool>::empty() + bitio::ue_code(payload@.len()) =~= bitio::ue_code(
                payload@.len(),
            ));
        }
        self.out.extend_from_slice(size.as_slice());
        self.out.extend_from_slice(payload);
        proof {
            let piece = (marker, payload@);
            assert(self.out@ =~= before + substream_bytes(piece));
            assert forall|subs: Seq<Piece>| old(self).holds(subs) implies self.holds(
                #[trigger] subs.push(piece),
            ) by {
                assert(subs.push(piece).drop_last() =~= subs);
                assert(self.out@ =~= marker_bytes(Marker::Soc) + run_bytes(subs.push(piece)));
            }
        }
        Ok(())
    }

    /// Append EOC and return the bytes.
    pub fn finish(self) -> (bytes: Vec<u8>)
        ensures
            bytes@ == self.bytes() + marker_bytes(Marker::Eoc),
            forall|subs: Seq<Piece>| #[trigger]
                self.holds(subs) ==> bytes@ == codestream_bytes(subs),
    {
        let mut out = self.out;
        push_marker(&mut out, Marker::Eoc);
        out
    }
}

/// Append a marker's two bytes.
fn push_marker(out: &mut Vec<u8>, marker: Marker)
    ensures
        final(out)@ == old(out)@ + marker_bytes(marker),
{
    let code: u16 = marker.to_u16();
    out.push((code / 256) as u8);
    out.push((code % 256) as u8);
    proof {
        assert(out@ =~= old(out)@ + marker_bytes(marker));
    }
}

/// The bytes of a run begin with those of its first substreams.
proof fn lemma_run_bytes_prefix(subs: Seq<Piece>, k: int)
    requires
        0 <= k <= subs.len(),
    ensures
        run_bytes(subs.take(k)).len() <= run_bytes(subs).len(),
        run_bytes(subs).subrange(0, run_bytes(subs.take(k)).len() as int) == run_bytes(
            subs.take(k),
        ),
    decreases subs.len() - k,
{
    if k == subs.len() {
        assert(subs.take(k) =~= subs);
        assert(run_bytes(subs).subrange(0, run_bytes(subs).len() as int) =~= run_bytes(subs));
    } else {
        lemma_run_bytes_prefix(subs, k + 1);
        assert(subs.take(k + 1).drop_last() =~= subs.take(k));
        let part = run_bytes(subs.take(k));
        let next = run_bytes(subs.take(k + 1));
        let whole = run_bytes(subs);
        assert(next == part + substream_bytes(subs[k]));
        assert forall|i: int| 0 <= i < part.len() implies whole[i] == part[i] by {
            assert(whole.subrange(0, next.len() as int)[i] == next[i]);
        }
        assert(whole.subrange(0, part.len() as int) =~= part);
    }
}

/// Reading over one substream of a byte string.
proof fn lemma_parse_step(d: Seq<u8>, pos: int, piece: Piece, acc: Seq<Piece>)
    requires
        0 <= pos,
        pos + substream_bytes(piece).len() <= d.len(),
        d.subrange(pos, pos + substream_bytes(piece).len()) == substream_bytes(piece),
        piece.0.sized(),
        piece.1.len() < 0x1_ffff_ffff,
        acc.len() > 0 || piece.0 == Marker::Pih,
        bitio::addressable(d.len()),
    ensures
        spec_substreams(d, pos, acc) == spec_substreams(
            d,
            pos + substream_bytes(piece).len(),
            acc.push(piece),
        ),
{
    let (m, payload) = piece;
    let code = bitio::ue_code(payload.len());
    let size = bits::pack(code);
    let sb = substream_bytes(piece);
    let at = d.subrange(pos, pos + sb.len());
    assert(sb.len() == 2 + size.len() + payload.len());
    assert(d[pos] == at[0] && at[0] == sb[0] && sb[0] == marker_bytes(m)[0]);
    assert(d[pos + 1] == at[1] && at[1] == sb[1] && sb[1] == marker_bytes(m)[1]);
    assert(u16_at(d, pos) == m.code());
    assert(Marker::of_code(m.code()) == Some(m));
    let rest = d.subrange(pos + 2, d.len() as int);
    let start = pos + 2 + size.len();
    let end = start + payload.len();
    let tail = d.subrange(start, d.len() as int);
    assert forall|i: int| 0 <= i < size.len() implies #[trigger] rest[i] == size[i] by {
        assert(rest[i] == at[2 + i]);
        assert(sb[2 + i] == size[i]);
    }
    assert(rest =~= size + tail);
    assert forall|i: int| 0 <= i < payload.len() implies d.subrange(start, end)[i] == payload[i] by {
        assert(d[start + i] == at[2 + size.len() + i]);
        assert(sb[2 + size.len() + i] == payload[i]);
    }
    assert(d.subrange(start, end) =~= payload);
    bits::lemma_of_bytes_concat(size, tail);
    bits::lemma_pack(code);
    let all = bits::of_bytes(rest);
    assert(all.subrange(0, code.len() as int) =~= bits::of_bytes(size).subrange(
        0,
        code.len() as int,
    ));
    bitio::law_ue_round_trip(all, 0, payload.len());
}

/// Reading on from the `k`-th substream of a written codestream.
proof fn lemma_parse_run(subs: Seq<Piece>, k: int)
    requires
        0 <= k <= subs.len(),
        subs.len() > 0,
        subs[0].0 == Marker::Pih,
        forall|i: int| 0 <= i < subs.len() ==> (#[trigger] subs[i]).0.sized(),
        bitio::addressable(codestream_bytes(subs).len()),
        forall|i: int| 0 <= i < subs.len() ==> (#[trigger] subs[i]).1.len() < 0x1_ffff_ffff,
    ensures
        spec_substreams(
            codestream_bytes(subs),
            2 + run_bytes(subs.take(k)).len() as int,
            subs.take(k),
        ) == Ok::<Seq<Piece>, Error>(subs),
    decreases subs.len() - k,
{
    let d = codestream_bytes(subs);
    let done = run_bytes(subs.take(k));
    let pos = 2 + done.len() as int;
    if k == subs.len() {
        assert(subs.take(k) =~= subs);
        assert(d[pos] == 0xFF && d[pos + 1] == 0x81);
    } else {
        assert(subs[k].0.sized());
        lemma_run_bytes_prefix(subs, k + 1);
        assert(subs.take(k + 1).drop_last() =~= subs.take(k));
        let sb = substream_bytes(subs[k]);
        let next = run_bytes(subs.take(k + 1));
        assert(next == done + sb);
        let whole = run_bytes(subs);
        assert forall|i: int| 0 <= i < sb.len() implies d.subrange(pos, pos + sb.len())[i] == sb[i] by {
            assert(whole.subrange(0, next.len() as int)[done.len() + i] == next[done.len() + i]);
        }
        assert(d.subrange(pos, pos + sb.len()) =~= sb);
        assert(subs.take(k).push(subs[k]) =~= subs.take(k + 1));
        lemma_parse_step(d, pos, subs[k], subs.take(k));
        lemma_parse_run(subs, k + 1);
    }
}

/// A codestream that was written parses to the substreams that were written into it.
pub proof fn law_codestream_round_trip(subs: Seq<Piece>)
    requires
        subs.len() > 0,
        subs[0].0 == Marker::Pih,
        forall|i: int| 0 <= i < subs.len() ==> (#[trigger] subs[i]).0.sized(),
        forall|i: int| 0 <= i < subs.len() ==> (#[trigger] subs[i]).1.len() < 0x1_ffff_ffff,
        bitio::addressable(codestream_bytes(subs).len()),
    ensures
        spec_parse(codestream_bytes(subs)) == Ok::<Seq<Piece>, Error>(subs),
{
    assert(subs.take(0) =~= Seq::empty());
    lemma_parse_run(subs, 0);
    let d = codestream_bytes(subs);
    assert(d[0] == 0xFF && d[1] == 0x80);
}

/// Reading over one substream of a byte string that is cut short within it.
proof fn lemma_parse_cut(d: Seq<u8>, k: int, pos: int, piece: Piece, acc: Seq<Piece>)
    requires
        0 <= pos <= k < pos + substream_bytes(piece).len() <= d.len(),
        d.subrange(pos, pos + substream_bytes(piece).len()) == substream_bytes(piece),
        piece.0.sized(),
        piece.1.len() < 0x1_ffff_ffff,
        bitio::addressable(d.len()),
    ensures
        spec_substreams(d.take(k), pos, acc) is Err,
{
    let (m, payload) = piece;
    let e = d.take(k);
    let code = bitio::ue_code(payload.len());
    let size = bits::pack(code);
    let sb = substream_bytes(piece);
    let at = d.subrange(pos, pos + sb.len());
    assert(sb.len() == 2 + size.len() + payload.len());
    if pos + 2 <= k {
        assert(d[pos] == at[0] && at[0] == sb[0] && sb[0] == marker_bytes(m)[0]);
        assert(d[pos + 1] == at[1] && at[1] == sb[1] && sb[1] == marker_bytes(m)[1]);
        assert(u16_at(e, pos) == m.code());
        assert(Marker::of_code(m.code()) == Some(m));
        let rest = d.subrange(pos + 2, d.len() as int);
        let tail = d.subrange(pos + 2 + size.len(), d.len() as int);
        assert forall|i: int| 0 <= i < size.len() implies #[trigger] rest[i] == size[i] by {
            assert(rest[i] == at[2 + i]);
            assert(sb[2 + i] == size[i]);
        }
        assert(rest =~= size + tail);
        bits::lemma_of_bytes_concat(size, tail);
        bits::lemma_pack(code);
        let all = bits::of_bytes(rest);
        assert(all.subrange(0, code.len() as int) =~= bits::of_bytes(size).subrange(
            0,
            code.len() as int,
        ));
        bitio::law_ue_round_trip(all, 0, payload.len());
        let cut = e.subrange(pos + 2, k);
        let n = 8 * (k - pos - 2);
        bits::lemma_of_bytes_concat(cut, rest.skip(k - pos - 2));
        assert(cut + rest.skip(k - pos - 2) =~= rest);
        assert(bits::of_bytes(cut) =~= all.take(n));
        bitio::lemma_ue_kept(all, n, 0);
    }
}

/// Reading on from the `i`-th substream of a written codestream that is cut short.
proof fn lemma_cut_run(subs: Seq<Piece>, k: int, i: int)
    requires
        0 <= i <= subs.len(),
        subs.len() > 0,
        subs[0].0 == Marker::Pih,
        forall|i: int| 0 <= i < subs.len() ==> (#[trigger] subs[i]).0.sized(),
        forall|i: int| 0 <= i < subs.len() ==> (#[trigger] subs[i]).1.len() < 0x1_ffff_ffff,
        bitio::addressable(codestream_bytes(subs).len()),
        2 + run_bytes(subs.take(i)).len() <= k < codestream_bytes(subs).len(),
    ensures
        spec_substreams(
            codestream_bytes(subs).take(k),
            2 + run_bytes(subs.take(i)).len() as int,
            subs.take(i),
        ) is Err,
    decreases subs.len() - i,
{
    let d = codestream_bytes(subs);
    let done = run_bytes(subs.take(i));
    let pos = 2 + done.len() as int;
    if i == subs.len() {
        assert(subs.take(i) =~= subs);
    } else {
        assert(subs[i].0.sized());
        lemma_run_bytes_prefix(subs, i + 1);
        assert(subs.take(i + 1).drop_last() =~= subs.take(i));
        let sb = substream_bytes(subs[i]);
        let next = run_bytes(subs.take(i + 1));
        assert(next == done + sb);
        let whole = run_bytes(subs);
        assert forall|j: int| 0 <= j < sb.len() implies d.subrange(pos, pos + sb.len())[j] == sb[j] by {
            assert(whole.subrange(0, next.len() as int)[done.len() + j] == next[done.len() + j]);
        }
        assert(d.subrange(pos, pos + sb.len()) =~= sb);
        if k < pos + sb.len() {
            lemma_parse_cut(d, k, pos, subs[i], subs.take(i));
        } else {
            let e = d.take(k);
            assert(e.subrange(pos, pos + sb.len()) =~= sb);
            assert(subs.take(i).push(subs[i]) =~= subs.take(i + 1));
            lemma_parse_step(e, pos, subs[i], subs.take(i));
            lemma_cut_run(subs, k, i + 1);
        }
    }
}

/// A codestream that was written and cut short is refused, wherever it is cut.
pub proof fn law_cut_codestream_is_refused(subs: Seq<Piece>, k: int)
    requires
        subs.len() > 0,
        subs[0].0 == Marker::Pih,
        forall|i: int| 0 <= i < subs.len() ==> (#[trigger] subs[i]).0.sized(),
        forall|i: int| 0 <= i < subs.len() ==> (#[trigger] subs[i]).1.len() < 0x1_ffff_ffff,
        bitio::addressable(codestream_bytes(subs).len()),
        0 <= k < codestream_bytes(subs).len(),
    ensures
        spec_parse(codestream_bytes(subs).take(k)) is Err,
{
    if k >= 2 {
        assert(subs.take(0) =~= Seq::empty());
        lemma_cut_run(subs, k, 0);
    }
}

/// How the residual of one component is laid out across regions.
#[derive(Clone, Copy, Debug, PartialEq, Eq, Structural)]
pub enum RegionLayout {
    /// One substream per region, each starting with a one-byte region index. Regions may be
    /// absent.
    Independent,
    /// One substream holding `num_regions - 1` ue(v) sizes (byte-aligned as a group) followed by
    /// the region payloads.
    Dependent,
}

/// The byte strings behind a sequence of optional slices.
pub open spec fn optional_contents(slices: Seq<Option<&[u8]>>) -> Seq<Option<Seq<u8>>> {
    Seq::new(
        slices.len(),
        |i: int|
            match slices[i] {
                Some(x) => Some(x@),
                None => None,
            },
    )
}

/// `n` absent regions.
pub open spec fn no_regions(n: nat) -> Seq<Option<Seq<u8>>> {
    Seq::new(n, |i: int| None)
}

/// Independent regions: from the `i`-th substream on, each goes to the slot that its first byte
/// names, in `out`.
pub open spec fn spec_place_regions(
    substreams: Seq<Seq<u8>>,
    i: int,
    out: Seq<Option<Seq<u8>>>,
) -> core::result::Result<Seq<Option<Seq<u8>>>, Error>
    decreases substreams.len() - i,
{
    if i >= substreams.len() {
        Ok(out)
    } else {
        let s = substreams[i];
        if s.len() == 0 {
            Err(Error::UnexpectedEof)
        } else if s[0] >= out.len() {
            Err(Error::InvalidData("region index out of range"))
        } else if out[s[0] as int] is Some {
            Err(Error::InvalidData("duplicate region substream"))
        } else {
            spec_place_regions(
                substreams,
                i + 1,
                out.update(s[0] as int, Some(s.subrange(1, s.len() as int))),
            )
        }
    }
}

/// Sum of a sequence of sizes.
pub open spec fn total(sizes: Seq<nat>) -> nat
    decreases sizes.len(),
{
    if sizes.len() == 0 {
        0
    } else {
        total(sizes.drop_last()) + sizes.last()
    }
}

/// `count` region sizes behind the `acc` that have been read; a size or a total that does not
/// fit in `usize` is an error.
pub open spec fn spec_region_sizes(s: Seq<bool>, pos: int, count: nat, acc: Seq<nat>) -> bitio::Parsed<
    Seq<nat>,
>
    decreases count,
{
    if count == 0 {
        Ok((acc, pos))
    } else {
        match bitio::spec_ue(s, pos) {
            Err(e) => Err(e),
            Ok((v, p)) => if total(acc) + v > usize::MAX {
                Err(Error::InvalidData("region size overflow"))
            } else {
                spec_region_sizes(s, p, (count - 1) as nat, acc.push(v as nat))
            },
        }
    }
}

/// `d` cut into pieces of the given sizes, from the start.
pub open spec fn cut(d: Seq<u8>, sizes: Seq<nat>) -> Seq<Seq<u8>> {
    Seq::new(
        sizes.len(),
        |i: int| d.subrange(total(sizes.take(i)) as int, total(sizes.take(i + 1)) as int),
    )
}

/// Dependent regions: the sizes of all regions but the last, then the payloads; the last region
/// takes what is left.
pub open spec fn spec_cut_regions(s: Seq<u8>, num_regions: nat) -> core::result::Result<
    Seq<Seq<u8>>,
    Error,
> {
    match spec_region_sizes(bits::of_bytes(s), 0, (num_regions - 1) as nat, Seq::empty()) {
        Err(e) => Err(e),
        Ok((sizes, p)) => {
            let rest = s.subrange((p + 7) / 8, s.len() as int);
            if total(sizes) > rest.len() {
                Err(Error::InvalidData("region sizes exceed substream"))
            } else {
                Ok(cut(rest, sizes.push((rest.len() - total(sizes)) as nat)))
            }
        },
    }
}

/// What [`split_regions`] gives.
pub open spec fn spec_split_regions(
    substreams: Seq<Seq<u8>>,
    layout: RegionLayout,
    num_regions: nat,
) -> core::result::Result<Seq<Option<Seq<u8>>>, Error> {
    if num_regions == 0 || num_regions > 128 * 128 {
        Err(Error::InvalidData("region count out of range"))
    } else {
        match layout {
            RegionLayout::Independent => spec_place_regions(substreams, 0, no_regions(num_regions)),
            RegionLayout::Dependent => if substreams.len() != 1 {
                Err(Error::InvalidData("dependent regions need exactly one residual substream"))
            } else {
                match spec_cut_regions(substreams[0], num_regions) {
                    Err(e) => Err(e),
                    Ok(parts) => Ok(Seq::new(parts.len(), |i: int| Some(parts[i]))),
                }
            },
        }
    }
}

/// Split the residual substream(s) of one component into per-region payloads.
///
/// `substreams` are the payloads of every SORP (or SORS) substream in file order. The result
/// has `num_regions` entries; `None` marks a region that is absent from the stream (only
/// possible with [`RegionLayout::Independent`]).
pub fn split_regions<'a>(
    substreams: &[&'a [u8]],
    layout: RegionLayout,
    num_regions: usize,
) -> (r: Result<Vec<Option<&'a [u8]>>>)
    requires
        forall|i: int|
            0 <= i < substreams@.len() ==> bitio::addressable((#[trigger] substreams@[i])@.len()),
    ensures
        match spec_split_regions(contents(substreams@), layout, num_regions as nat) {
            Ok(parts) => r matches Ok(v) && optional_contents(v@) == parts,
            Err(e) => r == Err::<Vec<Option<&'a [u8]>>, Error>(e),
        },
        r matches Ok(v) ==> readable_parts(v@),
{
    if num_regions == 0 || num_regions > 128 * 128 {
        return Err(Error::InvalidData("region count out of range"));
    }
    match layout {
        RegionLayout::Independent => place_regions(substreams, num_regions),
        RegionLayout::Dependent => {
            if substreams.len() != 1 {
                return Err(
                    Error::InvalidData("dependent regions need exactly one residual substream"),
                );
            }
            let parts = cut_regions(substreams[0], num_regions)?;
            let mut out: Vec<Option<&'a [u8]>> = Vec::new();
            let mut i: usize = 0;
            while i < parts.len()
                invariant
                    i <= parts@.len(),
                    out@.len() == i,
                    bitio::addressable(substreams@[0]@.len()),
                    forall|j: int|
                        0 <= j < parts@.len() ==> (#[trigger] parts@[j])@.len()
                            <= substreams@[0]@.len(),
                    readable_parts(out@),
                    forall|j: int| 0 <= j < i ==> out@[j] == Some(parts@[j]),
                decreases parts@.len() - i,
            {
                out.push(Some(parts[i]));
                i = i + 1;
            }
            proof {
                let want = Seq::new(parts@.len(), |i: int| Some(contents(parts@)[i]));
                assert(optional_contents(out@) =~= want);
            }
            Ok(out)
        },
    }
}

/// The independent half of [`split_regions`].
fn place_regions<'a>(substreams: &[&'a [u8]], num_regions: usize) -> (r: Result<
    Vec<Option<&'a [u8]>>,
>)
    requires
        forall|i: int|
            0 <= i < substreams@.len() ==> bitio::addressable((#[trigger] substreams@[i])@.len()),
    ensures
        r matches Ok(v) ==> readable_parts(v@),
        match spec_place_regions(contents(substreams@), 0, no_regions(num_regions as nat)) {
            Ok(parts) => r matches Ok(v) && optional_contents(v@) == parts,
            Err(e) => r == Err::<Vec<Option<&'a [u8]>>, Error>(e),
        },
{
    let mut out: Vec<Option<&'a [u8]>> = Vec::new();
    let mut n: usize = 0;
    while n < num_regions
        invariant
            n <= num_regions,
            out@.len() == n,
            forall|j: int| 0 <= j < n ==> out@[j] is None,
        decreases num_regions - n,
    {
        out.push(None);
        n = n + 1;
    }
    let ghost empty = no_regions(num_regions as nat);
    proof {
        assert(optional_contents(out@) =~= empty);
    }
    let mut i: usize = 0;
    while i < substreams.len()
        invariant
            i <= substreams@.len(),
            out@.len() == num_regions,
            forall|i: int|
                0 <= i < substreams@.len() ==> bitio::addressable(
                    (#[trigger] substreams@[i])@.len(),
                ),
            readable_parts(out@),
            empty == no_regions(num_regions as nat),
            spec_place_regions(contents(substreams@), 0, empty) == spec_place_regions(
                contents(substreams@),
                i as int,
                optional_contents(out@),
            ),
        decreases substreams@.len() - i,
    {
        let s: &'a [u8] = substreams[i];
        if s.len() == 0 {
            return Err(Error::UnexpectedEof);
        }
        let idx: usize = s[0] as usize;
        if idx >= num_regions {
            return Err(Error::InvalidData("region index out of range"));
        }
        if out[idx].is_some() {
            return Err(Error::InvalidData("duplicate region substream"));
        }
        let rest: &'a [u8] = vstd::slice::slice_subrange(s, 1, s.len());
        let ghost before = out@;
        out.set(idx, Some(rest));
        proof {
            assert(optional_contents(out@) =~= optional_contents(before).update(
                idx as int,
                Some(rest@),
            ));
        }
        i = i + 1;
    }
    Ok(out)
}

proof fn lemma_total_push(sizes: Seq<nat>, v: nat)
    ensures
        total(sizes.push(v)) == total(sizes) + v,
{
    assert(sizes.push(v).drop_last() =~= sizes);
}

/// A prefix of the sizes sums to no more than all of them.
proof fn lemma_total_take(sizes: Seq<nat>, i: int)
    requires
        0 <= i <= sizes.len(),
    ensures
        total(sizes.take(i)) <= total(sizes),
        i < sizes.len() ==> total(sizes.take(i + 1)) == total(sizes.take(i)) + sizes[i],
    decreases sizes.len() - i,
{
    if i < sizes.len() {
        lemma_total_take(sizes, i + 1);
        assert(sizes.take(i + 1) =~= sizes.take(i).push(sizes[i]));
        lemma_total_push(sizes.take(i), sizes[i]);
    } else {
        assert(sizes.take(i) =~= sizes);
    }
}

/// Sizes held in a vector, as natural numbers.
pub open spec fn nats(sizes: Seq<usize>) -> Seq<nat> {
    Seq::new(sizes.len(), |i: int| sizes[i] as nat)
}

/// Cut a byte string into pieces of the given sizes.
fn cut_slice<'a>(data: &'a [u8], sizes: &Vec<usize>) -> (parts: Vec<&'a [u8]>)
    requires
        total(nats(sizes@)) <= data@.len(),
    ensures
        contents(parts@) == cut(data@, nats(sizes@)),
        forall|i: int| 0 <= i < parts@.len() ==> (#[trigger] parts@[i])@.len() <= data@.len(),
{
    let mut parts: Vec<&'a [u8]> = Vec::new();
    let mut i: usize = 0;
    let mut at: usize = 0;
    let len: usize = data.len();
    let ghost ns = nats(sizes@);
    proof {
        assert(ns.take(0) =~= Seq::empty());
    }
    while i < sizes.len()
        invariant
            i <= sizes@.len(),
            ns == nats(sizes@),
            total(ns) <= len == data@.len(),
            at == total(ns.take(i as int)),
            parts@.len() == i,
            forall|j: int| 0 <= j < i ==> (#[trigger] parts@[j])@ == cut(data@, ns)[j],
            forall|j: int| 0 <= j < i ==> (#[trigger] parts@[j])@.len() <= data@.len(),
        decreases sizes@.len() - i,
    {
        proof {
            lemma_total_take(ns, i as int);
            lemma_total_take(ns, i + 1);
            assert(ns[i as int] == sizes@[i as int]);
        }
        let end: usize = at + sizes[i];
        parts.push(vstd::slice::slice_subrange(data, at, end));
        at = end;
        i = i + 1;
    }
    proof {
        assert(contents(parts@) =~= cut(data@, ns));
    }
    parts
}

/// The dependent half of [`split_regions`].
fn cut_regions<'a>(s: &'a [u8], num_regions: usize) -> (r: Result<Vec<&'a [u8]>>)
    requires
        bitio::addressable(s@.len()),
        num_regions > 0,
    ensures
        match spec_cut_regions(s@, num_regions as nat) {
            Ok(parts) => r matches Ok(v) && contents(v@) == parts,
            Err(e) => r == Err::<Vec<&'a [u8]>, Error>(e),
        },
        r matches Ok(v) ==> forall|i: int|
            0 <= i < v@.len() ==> (#[trigger] v@[i])@.len() <= s@.len(),
{
    let mut r = BitReader::new(s);
    let mut sizes: Vec<usize> = Vec::new();
    let mut sum: usize = 0;
    let mut i: usize = 0;
    let ghost all = r.bits();
    proof {
        assert(nats(sizes@) =~= Seq::empty());
    }
    while i < num_regions - 1
        invariant
            r.wf(),
            r.bytes() == s@,
            all == bits::of_bytes(s@),
            i <= num_regions - 1,
            sum == total(nats(sizes@)),
            spec_region_sizes(all, 0, (num_regions - 1) as nat, Seq::empty()) == spec_region_sizes(
                all,
                r.pos(),
                (num_regions - 1 - i) as nat,
                nats(sizes@),
            ),
        decreases num_regions - i,
    {
        let v: u64 = r.read_ue()?;
        if v > usize::MAX as u64 {
            return Err(Error::InvalidData("region size overflow"));
        }
        sum = match sum.checked_add(v as usize) {
            Some(t) => t,
            None => return Err(Error::InvalidData("region size overflow")),
        };
        proof {
            lemma_total_push(nats(sizes@), v as nat);
            assert(nats(sizes@.push(v as usize)) =~= nats(sizes@).push(v as nat));
        }
        sizes.push(v as usize);
        i = i + 1;
    }
    let rest: &'a [u8] = r.remaining_bytes();
    if sum > rest.len() {
        return Err(Error::InvalidData("region sizes exceed substream"));
    }
    let last: usize = rest.len() - sum;
    proof {
        lemma_total_push(nats(sizes@), last as nat);
        assert(nats(sizes@.push(last)) =~= nats(sizes@).push(last as nat));
    }
    sizes.push(last);
    Ok(cut_slice(rest, &sizes))
}

/// `count` signed deltas behind the `acc` that have been read.
pub open spec fn spec_deltas(s: Seq<bool>, pos: int, count: nat, acc: Seq<int>) -> bitio::Parsed<
    Seq<int>,
>
    decreases count,
{
    if count == 0 {
        Ok((acc, pos))
    } else {
        match bitio::spec_se(s, pos) {
            Err(e) => Err(e),
            Ok((v, p)) => spec_deltas(s, p, (count - 1) as nat, acc.push(v as int)),
        }
    }
}

/// From the `i`-th delta on, `rest` is cut into pieces of `mean - delta` bytes behind `out`; the
/// last piece is what is left.
pub open spec fn spec_cut_threads(
    rest: Seq<u8>,
    mean: int,
    deltas: Seq<int>,
    i: int,
    out: Seq<Seq<u8>>,
) -> core::result::Result<Seq<Seq<u8>>, Error>
    decreases deltas.len() - i,
{
    if i >= deltas.len() {
        Ok(out.push(rest))
    } else {
        let size = mean - deltas[i];
        if size < 0 || size > usize::MAX {
            Err(Error::InvalidData("negative thread size"))
        } else if size > rest.len() {
            Err(Error::InvalidData("thread sizes exceed substream"))
        } else {
            spec_cut_threads(
                rest.subrange(size, rest.len() as int),
                mean,
                deltas,
                i + 1,
                out.push(rest.subrange(0, size)),
            )
        }
    }
}

/// What [`split_threads`] gives.
pub open spec fn spec_split_threads(payload: Seq<u8>, num_threads: nat) -> core::result::Result<
    Seq<Seq<u8>>,
    Error,
> {
    if num_threads == 0 || num_threads > 16 {
        Err(Error::InvalidData("thread count out of range"))
    } else {
        match spec_deltas(bits::of_bytes(payload), 0, (num_threads - 1) as nat, Seq::empty()) {
            Err(e) => Err(e),
            Ok((deltas, p)) => {
                let rest = payload.subrange((p + 7) / 8, payload.len() as int);
                spec_cut_threads(
                    rest,
                    rest.len() as int / num_threads as int,
                    deltas,
                    0,
                    Seq::empty(),
                )
            },
        }
    }
}

/// Deltas held in a vector, as integers.
pub open spec fn ints(deltas: Seq<i64>) -> Seq<int> {
    Seq::new(deltas.len(), |i: int| deltas[i] as int)
}

/// Split an entropy-coded payload into its `num_threads` byte ranges.
///
/// Layout: `num_threads - 1` se(v) deltas (byte-aligned as a group), then the thread data.
/// `size_i = mean - delta_i` with `mean = floor(data_len / num_threads)`; the last thread takes
/// the remainder.
pub fn split_threads<'a>(payload: &'a [u8], num_threads: usize) -> (r: Result<Vec<&'a [u8]>>)
    requires
        bitio::addressable(payload@.len()),
    ensures
        match spec_split_threads(payload@, num_threads as nat) {
            Ok(parts) => r matches Ok(v) && contents(v@) == parts,
            Err(e) => r == Err::<Vec<&'a [u8]>, Error>(e),
        },
{
    if num_threads == 0 || num_threads > 16 {
        return Err(Error::InvalidData("thread count out of range"));
    }
    let mut r = BitReader::new(payload);
    let mut deltas: Vec<i64> = Vec::new();
    let mut i: usize = 0;
    let ghost all = r.bits();
    proof {
        assert(ints(deltas@) =~= Seq::empty());
    }
    while i < num_threads - 1
        invariant
            r.wf(),
            r.bytes() == payload@,
            all == bits::of_bytes(payload@),
            i <= num_threads - 1,
            num_threads <= 16,
            deltas@.len() == i,
            forall|j: int|
                0 <= j < i ==> -0x1_0000_0000 < #[trigger] deltas@[j] < 0x1_0000_0000,
            spec_deltas(all, 0, (num_threads - 1) as nat, Seq::empty()) == spec_deltas(
                all,
                r.pos(),
                (num_threads - 1 - i) as nat,
                ints(deltas@),
            ),
        decreases num_threads - i,
    {
        let d: i64 = r.read_se()?;
        proof {
            assert(ints(deltas@.push(d)) =~= ints(deltas@).push(d as int));
        }
        deltas.push(d);
        i = i + 1;
    }
    let mut rest: &'a [u8] = r.remaining_bytes();
    let mean: i64 = (rest.len() / num_threads) as i64;
    let ghost rest0 = rest@;
    let ghost ds = ints(deltas@);
    let mut out: Vec<&'a [u8]> = Vec::new();
    let mut k: usize = 0;
    proof {
        assert(contents(out@) =~= Seq::empty());
    }
    while k < deltas.len()
        invariant
            k <= deltas@.len(),
            ds == ints(deltas@),
            0 <= mean <= 0x1fff_ffff_ffff_ffff,
            spec_split_threads(payload@, num_threads as nat) == spec_cut_threads(
                rest0,
                mean as int,
                ds,
                0,
                Seq::empty(),
            ),
            forall|j: int|
                0 <= j < deltas@.len() ==> -0x1_0000_0000 < #[trigger] deltas@[j] < 0x1_0000_0000,
            spec_cut_threads(rest0, mean as int, ds, 0, Seq::empty()) == spec_cut_threads(
                rest@,
                mean as int,
                ds,
                k as int,
                contents(out@),
            ),
        decreases deltas@.len() - k,
    {
        let size: i64 = mean - deltas[k];
        if size < 0 || size as u64 > usize::MAX as u64 {
            return Err(Error::InvalidData("negative thread size"));
        }
        if size as usize > rest.len() {
            return Err(Error::InvalidData("thread sizes exceed substream"));
        }
        let head: &'a [u8] = vstd::slice::slice_subrange(rest, 0, size as usize);
        proof {
            assert(contents(out@.push(head)) =~= contents(out@).push(head@));
        }
        out.push(head);
        rest = vstd::slice::slice_subrange(rest, size as usize, rest.len());
        k = k + 1;
    }
    proof {
        assert(contents(out@.push(rest)) =~= contents(out@).push(rest@));
    }
    out.push(rest);
    Ok(out)
}

/// The byte strings one after the other.
pub open spec fn flat(parts: Seq<Seq<u8>>) -> Seq<u8>
    decreases parts.len(),
{
    if parts.len() == 0 {
        Seq::empty()
    } else {
        flat(parts.drop_last()) + parts.last()
    }
}

/// The lengths of byte strings.
pub open spec fn lengths(parts: Seq<Seq<u8>>) -> Seq<nat> {
    Seq::new(parts.len(), |i: int| parts[i].len())
}

/// Exp-Golomb codes of sizes, one after the other.
pub open spec fn size_codes(sizes: Seq<nat>) -> Seq<bool>
    decreases sizes.len(),
{
    if sizes.len() == 0 {
        Seq::empty()
    } else {
        size_codes(sizes.drop_last()) + bitio::ue_code(sizes.last())
    }
}

/// Signed Exp-Golomb codes of deltas, one after the other.
pub open spec fn delta_codes(deltas: Seq<int>) -> Seq<bool>
    decreases deltas.len(),
{
    if deltas.len() == 0 {
        Seq::empty()
    } else {
        delta_codes(deltas.drop_last()) + bitio::se_code(deltas.last())
    }
}

/// All parts but the last.
pub open spec fn all_but_last<T>(parts: Seq<T>) -> Seq<T> {
    if parts.len() == 0 {
        parts
    } else {
        parts.drop_last()
    }
}

/// What [`join_dependent_regions`] gives: the sizes of all regions but the last, then the
/// regions.
pub open spec fn joined_regions(regions: Seq<Seq<u8>>) -> Seq<u8> {
    bits::pack(size_codes(lengths(all_but_last(regions)))) + flat(regions)
}

/// How much shorter than the mean each thread but the last is.
pub open spec fn thread_deltas(threads: Seq<Seq<u8>>) -> Seq<int> {
    let mean = flat(threads).len() as int / if threads.len() == 0 {
        1
    } else {
        threads.len() as int
    };
    Seq::new(all_but_last(threads).len(), |i: int| mean - threads[i].len())
}

/// What [`join_threads`] gives: the deltas of all threads but the last, then the threads.
pub open spec fn joined_threads(threads: Seq<Seq<u8>>) -> Seq<u8> {
    bits::pack(delta_codes(thread_deltas(threads))) + flat(threads)
}

/// A prefix of the parts joined is a prefix of them all joined; its length is the sum of theirs.
pub proof fn lemma_flat(parts: Seq<Seq<u8>>, i: int)
    requires
        0 <= i <= parts.len(),
    ensures
        flat(parts.take(i)).len() == total(lengths(parts).take(i)),
        flat(parts.take(i)).len() <= flat(parts).len(),
        flat(parts).subrange(0, flat(parts.take(i)).len() as int) == flat(parts.take(i)),
        i < parts.len() ==> flat(parts.take(i + 1)) == flat(parts.take(i)) + parts[i],
        i < parts.len() ==> flat(parts.take(i + 1)).len() <= flat(parts).len(),
        i < parts.len() ==> flat(parts).subrange(
            flat(parts.take(i)).len() as int,
            flat(parts.take(i + 1)).len() as int,
        ) == parts[i],
    decreases parts.len() - i,
{
    lemma_flat_length(parts.take(i));
    assert(lengths(parts.take(i)) =~= lengths(parts).take(i));
    let whole = flat(parts);
    let here = flat(parts.take(i));
    if i == parts.len() {
        assert(parts.take(i) =~= parts);
        assert(whole.subrange(0, whole.len() as int) =~= whole);
    } else {
        lemma_flat(parts, i + 1);
        assert(parts.take(i + 1).drop_last() =~= parts.take(i));
        let next = flat(parts.take(i + 1));
        assert(next == here + parts[i]);
        assert forall|j: int| 0 <= j < next.len() implies whole[j] == next[j] by {
            assert(whole.subrange(0, next.len() as int)[j] == next[j]);
        }
        assert(whole.subrange(0, here.len() as int) =~= here);
        assert(whole.subrange(here.len() as int, next.len() as int) =~= parts[i]);
    }
}

proof fn lemma_flat_length(parts: Seq<Seq<u8>>)
    ensures
        flat(parts).len() == total(lengths(parts)),
    decreases parts.len(),
{
    if parts.len() > 0 {
        lemma_flat_length(parts.drop_last());
        assert(lengths(parts).drop_last() =~= lengths(parts.drop_last()));
    }
}

/// Append byte strings to a buffer.
fn push_all(out: &mut Vec<u8>, parts: &[&[u8]])
    ensures
        final(out)@ == old(out)@ + flat(contents(parts@)),
{
    let mut i: usize = 0;
    let ghost ps = contents(parts@);
    proof {
        assert(flat(ps.take(0)) =~= Seq::empty());
        assert(out@ =~= old(out)@ + flat(ps.take(0)));
    }
    while i < parts.len()
        invariant
            i <= parts@.len(),
            ps == contents(parts@),
            out@ == old(out)@ + flat(ps.take(i as int)),
        decreases parts@.len() - i,
    {
        out.extend_from_slice(parts[i]);
        proof {
            assert(ps.take(i + 1).drop_last() =~= ps.take(i as int));
            assert(out@ =~= old(out)@ + flat(ps.take(i + 1)));
        }
        i = i + 1;
    }
    proof {
        assert(ps.take(i as int) =~= ps);
    }
}

/// Join per-region payloads for [`RegionLayout::Dependent`] (inverse of [`split_regions`]).
pub fn join_dependent_regions(regions: &[&[u8]]) -> (out: Vec<u8>)
    requires
        forall|i: int|
            0 <= i < regions@.len() - 1 ==> (#[trigger] regions@[i])@.len() < 0x1_ffff_ffff,
    ensures
        out@ == joined_regions(contents(regions@)),
{
    let mut w = BitWriter::new();
    let ghost ps = contents(regions@);
    let ghost sizes = lengths(all_but_last(ps));
    let n: usize = if regions.len() == 0 { 0 } else { regions.len() - 1 };
    let mut i: usize = 0;
    proof {
        assert(size_codes(sizes.take(0)) =~= Seq::empty());
    }
    while i < n
        invariant
            i <= n,
            n == sizes.len(),
            n <= regions@.len(),
            regions@.len() > 0 ==> n == regions@.len() - 1,
            ps == contents(regions@),
            sizes == lengths(all_but_last(ps)),
            w.wf(),
            w.bits() == size_codes(sizes.take(i as int)),
            forall|i: int|
                0 <= i < regions@.len() - 1 ==> (#[trigger] regions@[i])@.len() < 0x1_ffff_ffff,
        decreases n - i,
    {
        w.write_ue(regions[i].len() as u64);
        proof {
            assert(sizes.take(i + 1).drop_last() =~= sizes.take(i as int));
            assert(sizes.take(i + 1).last() == sizes[i as int]);
        }
        i = i + 1;
    }
    proof {
        assert(sizes.take(i as int) =~= sizes);
    }
    let mut out = w.finish();
    push_all(&mut out, regions);
    out
}

/// Join per-thread data into one entropy-coded payload (inverse of [`split_threads`]).
pub fn join_threads(threads: &[&[u8]]) -> (out: Vec<u8>)
    requires
        forall|i: int| 0 <= i < threads@.len() ==> (#[trigger] threads@[i])@.len() < 0x1_0000_0000,
        flat(contents(threads@)).len() <= usize::MAX,
    ensures
        out@ == joined_threads(contents(threads@)),
{
    let ghost ps = contents(threads@);
    let mut sum: usize = 0;
    let mut t: usize = 0;
    proof {
        assert(ps.take(0) =~= Seq::empty());
    }
    while t < threads.len()
        invariant
            t <= threads@.len(),
            ps == contents(threads@),
            sum == flat(ps.take(t as int)).len(),
            flat(ps).len() <= usize::MAX,
            sum <= t * 0x1_0000_0000,
            forall|i: int|
                0 <= i < threads@.len() ==> (#[trigger] threads@[i])@.len() < 0x1_0000_0000,
        decreases threads@.len() - t,
    {
        proof {
            lemma_flat(ps, t as int);
            assert(ps[t as int] == threads@[t as int]@);
        }
        sum = sum + threads[t].len();
        t = t + 1;
    }
    proof {
        assert(ps.take(t as int) =~= ps);
    }
    let parts: usize = if threads.len() == 0 { 1 } else { threads.len() };
    proof {
        assert(sum / parts <= 0x1_0000_0000) by (nonlinear_arith)
            requires
                sum <= parts * 0x1_0000_0000,
                parts > 0,
        ;
        assert(threads@.len() > 0 ==> sum / parts < 0x1_0000_0000) by {
            if threads@.len() > 0 {
                lemma_mean_below(ps);
            }
        }
    }
    let mean: i64 = (sum / parts) as i64;
    let mut w = BitWriter::new();
    let ghost deltas = thread_deltas(ps);
    let n: usize = if threads.len() == 0 { 0 } else { threads.len() - 1 };
    let mut i: usize = 0;
    proof {
        assert(delta_codes(deltas.take(0)) =~= Seq::empty());
    }
    while i < n
        invariant
            i <= n,
            n == deltas.len(),
            threads@.len() > 0 ==> n == threads@.len() - 1,
            threads@.len() == 0 ==> n == 0,
            0 <= mean <= 0x1_0000_0000,
            threads@.len() > 0 ==> mean < 0x1_0000_0000,
            ps == contents(threads@),
            deltas == thread_deltas(ps),
            mean == flat(ps).len() as int / (if ps.len() == 0 { 1 } else { ps.len() as int }),
            w.wf(),
            w.bits() == delta_codes(deltas.take(i as int)),
            forall|i: int|
                0 <= i < threads@.len() ==> (#[trigger] threads@[i])@.len() < 0x1_0000_0000,
        decreases n - i,
    {
        let len: i64 = threads[i].len() as i64;
        w.write_se(mean - len);
        proof {
            assert(deltas.take(i + 1).drop_last() =~= deltas.take(i as int));
            assert(deltas.take(i + 1).last() == deltas[i as int]);
        }
        i = i + 1;
    }
    proof {
        assert(deltas.take(i as int) =~= deltas);
    }
    let mut out = w.finish();
    push_all(&mut out, threads);
    out
}

/// The mean length lies below any bound on the lengths.
proof fn lemma_mean_below(parts: Seq<Seq<u8>>)
    requires
        parts.len() > 0,
        forall|i: int| 0 <= i < parts.len() ==> (#[trigger] parts[i]).len() < 0x1_0000_0000,
    ensures
        0 <= flat(parts).len() as int / parts.len() as int,
        flat(parts).len() as int / parts.len() as int <= 0xffff_ffff,
{
    lemma_flat_bound(parts);
    let (t, n) = (flat(parts).len() as int, parts.len() as int);
    assert(0 <= t / n <= 0xffff_ffff) by (nonlinear_arith)
        requires
            0 <= t <= n * 0xffff_ffff,
            n > 0,
    ;
}

proof fn lemma_flat_bound(parts: Seq<Seq<u8>>)
    requires
        forall|i: int| 0 <= i < parts.len() ==> (#[trigger] parts[i]).len() < 0x1_0000_0000,
    ensures
        flat(parts).len() <= parts.len() * 0xffff_ffff,
    decreases parts.len(),
{
    if parts.len() > 0 {
        assert forall|i: int| 0 <= i < parts.drop_last().len() implies (
        #[trigger] parts.drop_last()[i]).len() < 0x1_0000_0000 by {
            assert(parts[i].len() < 0x1_0000_0000);
        }
        lemma_flat_bound(parts.drop_last());
        assert(parts[parts.len() - 1].len() < 0x1_0000_0000);
    }
}

/// The bytes behind packed bits, and the bits at their start.
proof fn lemma_behind_pack(code: Seq<bool>, data: Seq<u8>)
    ensures
        bits::has_at(bits::of_bytes(bits::pack(code) + data), 0, code),
        (bits::pack(code) + data).subrange(
            (code.len() as int + 7) / 8,
            (bits::pack(code) + data).len() as int,
        ) == data,
{
    let head = bits::pack(code);
    bits::lemma_of_bytes_concat(head, data);
    bits::lemma_pack(code);
    let all = bits::of_bytes(head + data);
    assert(all.subrange(0, code.len() as int) =~= bits::of_bytes(head).subrange(
        0,
        code.len() as int,
    ));
    assert((head + data).subrange(head.len() as int, (head + data).len() as int) =~= data);
}

/// The codes of the first sizes come first.
proof fn lemma_size_codes_at(s: Seq<bool>, sizes: Seq<nat>, i: int)
    requires
        0 <= i <= sizes.len(),
        bits::has_at(s, 0, size_codes(sizes)),
    ensures
        bits::has_at(s, 0, size_codes(sizes.take(i))),
        i < sizes.len() ==> size_codes(sizes.take(i + 1)) == size_codes(sizes.take(i))
            + bitio::ue_code(sizes[i]),
        i < sizes.len() ==> bits::has_at(
            s,
            size_codes(sizes.take(i)).len() as int,
            bitio::ue_code(sizes[i]),
        ),
    decreases sizes.len() - i,
{
    if i == sizes.len() {
        assert(sizes.take(i) =~= sizes);
    } else {
        lemma_size_codes_at(s, sizes, i + 1);
        assert(sizes.take(i + 1).drop_last() =~= sizes.take(i));
        assert(sizes.take(i + 1).last() == sizes[i]);
        bits::lemma_has_at_concat(s, 0, size_codes(sizes.take(i)), bitio::ue_code(sizes[i]));
    }
}

/// Written sizes read back.
proof fn lemma_read_sizes(s: Seq<bool>, sizes: Seq<nat>, i: int)
    requires
        0 <= i <= sizes.len(),
        bits::has_at(s, 0, size_codes(sizes)),
        forall|j: int| 0 <= j < sizes.len() ==> #[trigger] sizes[j] < 0x1_ffff_ffff,
        total(sizes) <= usize::MAX,
    ensures
        spec_region_sizes(
            s,
            size_codes(sizes.take(i)).len() as int,
            (sizes.len() - i) as nat,
            sizes.take(i),
        ) == Ok::<(Seq<nat>, int), Error>((sizes, size_codes(sizes).len() as int)),
    decreases sizes.len() - i,
{
    if i == sizes.len() {
        assert(sizes.take(i) =~= sizes);
    } else {
        lemma_size_codes_at(s, sizes, i);
        bitio::law_ue_round_trip(s, size_codes(sizes.take(i)).len() as int, sizes[i]);
        lemma_total_take(sizes, i);
        lemma_total_take(sizes, i + 1);
        assert(sizes.take(i).push(sizes[i]) =~= sizes.take(i + 1));
        lemma_read_sizes(s, sizes, i + 1);
    }
}

/// Regions that were joined are split back into the same regions.
pub proof fn law_dependent_regions_round_trip(regions: Seq<Seq<u8>>)
    requires
        0 < regions.len() <= 128 * 128,
        forall|i: int| 0 <= i < regions.len() - 1 ==> (#[trigger] regions[i]).len() < 0x1_ffff_ffff,
        bitio::addressable(joined_regions(regions).len()),
    ensures
        spec_split_regions(seq![joined_regions(regions)], RegionLayout::Dependent, regions.len())
            == Ok::<Seq<Option<Seq<u8>>>, Error>(
            Seq::new(regions.len(), |i: int| Some(regions[i])),
        ),
{
    let d = joined_regions(regions);
    let first = all_but_last(regions);
    let sizes = lengths(first);
    let code = size_codes(sizes);
    let data = flat(regions);
    lemma_behind_pack(code, data);
    let s = bits::of_bytes(d);
    lemma_flat_length(first);
    lemma_flat(regions, regions.len() - 1);
    assert(regions.take(regions.len() - 1) =~= first);
    assert forall|j: int| 0 <= j < sizes.len() implies #[trigger] sizes[j] < 0x1_ffff_ffff by {
        assert(regions[j].len() < 0x1_ffff_ffff);
    }
    assert(sizes.take(0) =~= Seq::empty());
    lemma_read_sizes(s, sizes, 0);
    assert(size_codes(sizes.take(0)).len() == 0);
    let last = (data.len() - total(sizes)) as nat;
    let all = lengths(regions);
    lemma_flat_length(regions);
    assert(all.drop_last() =~= sizes);
    assert(sizes.push(last) =~= all);
    let parts = cut(data, all);
    assert forall|i: int| 0 <= i < regions.len() implies parts[i] == regions[i] by {
        lemma_flat(regions, i);
        lemma_flat(regions, i + 1);
    }
    assert(parts =~= regions);
    assert(spec_cut_regions(d, regions.len()) == Ok::<Seq<Seq<u8>>, Error>(regions));
    assert(seq![d][0] == d);
}

/// The codes of the first deltas come first.
proof fn lemma_delta_codes_at(s: Seq<bool>, deltas: Seq<int>, i: int)
    requires
        0 <= i <= deltas.len(),
        bits::has_at(s, 0, delta_codes(deltas)),
    ensures
        bits::has_at(s, 0, delta_codes(deltas.take(i))),
        i < deltas.len() ==> delta_codes(deltas.take(i + 1)) == delta_codes(deltas.take(i))
            + bitio::se_code(deltas[i]),
        i < deltas.len() ==> bits::has_at(
            s,
            delta_codes(deltas.take(i)).len() as int,
            bitio::se_code(deltas[i]),
        ),
    decreases deltas.len() - i,
{
    if i == deltas.len() {
        assert(deltas.take(i) =~= deltas);
    } else {
        lemma_delta_codes_at(s, deltas, i + 1);
        assert(deltas.take(i + 1).drop_last() =~= deltas.take(i));
        assert(deltas.take(i + 1).last() == deltas[i]);
        bits::lemma_has_at_concat(s, 0, delta_codes(deltas.take(i)), bitio::se_code(deltas[i]));
    }
}

/// Written deltas read back.
proof fn lemma_read_deltas(s: Seq<bool>, deltas: Seq<int>, i: int)
    requires
        0 <= i <= deltas.len(),
        bits::has_at(s, 0, delta_codes(deltas)),
        forall|j: int|
            0 <= j < deltas.len() ==> -0x1_0000_0000 < #[trigger] deltas[j] < 0x1_0000_0000,
    ensures
        spec_deltas(
            s,
            delta_codes(deltas.take(i)).len() as int,
            (deltas.len() - i) as nat,
            deltas.take(i),
        ) == Ok::<(Seq<int>, int), Error>((deltas, delta_codes(deltas).len() as int)),
    decreases deltas.len() - i,
{
    if i == deltas.len() {
        assert(deltas.take(i) =~= deltas);
    } else {
        lemma_delta_codes_at(s, deltas, i);
        bitio::law_se_round_trip(s, delta_codes(deltas.take(i)).len() as int, deltas[i]);
        assert(deltas.take(i).push(deltas[i]) =~= deltas.take(i + 1));
        lemma_read_deltas(s, deltas, i + 1);
    }
}

/// Cutting on from the `i`-th thread of joined threads.
proof fn lemma_cut_threads(threads: Seq<Seq<u8>>, i: int)
    requires
        threads.len() > 0,
        0 <= i < threads.len(),
        flat(threads).len() <= usize::MAX,
    ensures
        spec_cut_threads(
            flat(threads).subrange(
                flat(threads.take(i)).len() as int,
                flat(threads).len() as int,
            ),
            flat(threads).len() as int / threads.len() as int,
            thread_deltas(threads),
            i,
            threads.take(i),
        ) == Ok::<Seq<Seq<u8>>, Error>(threads),
    decreases threads.len() - i,
{
    let data = flat(threads);
    let done = flat(threads.take(i)).len() as int;
    let rest = data.subrange(done, data.len() as int);
    lemma_flat(threads, i);
    assert(threads.take(i).push(threads[i]) =~= threads.take(i + 1));
    if i == threads.len() - 1 {
        assert(threads.take(i + 1) =~= threads);
        assert(rest == threads[i]);
    } else {
        lemma_flat(threads, i + 1);
        let size = threads[i].len() as int;
        let next = flat(threads.take(i + 1)).len() as int;
        assert(next == done + size);
        assert(rest.subrange(0, size) =~= data.subrange(done, next));
        assert(rest.subrange(size, rest.len() as int) =~= data.subrange(next, data.len() as int));
        lemma_cut_threads(threads, i + 1);
    }
}

/// Threads that were joined are split back into the same threads.
pub proof fn law_threads_round_trip(threads: Seq<Seq<u8>>)
    requires
        0 < threads.len() <= 16,
        forall|i: int| 0 <= i < threads.len() ==> (#[trigger] threads[i]).len() < 0x1_0000_0000,
        bitio::addressable(joined_threads(threads).len()),
    ensures
        spec_split_threads(joined_threads(threads), threads.len()) == Ok::<Seq<Seq<u8>>, Error>(
            threads,
        ),
{
    let d = joined_threads(threads);
    let deltas = thread_deltas(threads);
    let code = delta_codes(deltas);
    let data = flat(threads);
    lemma_behind_pack(code, data);
    lemma_mean_below(threads);
    assert forall|j: int| 0 <= j < deltas.len() implies -0x1_0000_0000 < #[trigger] deltas[j]
        < 0x1_0000_0000 by {
        assert(threads[j].len() < 0x1_0000_0000);
    }
    assert(deltas.take(0) =~= Seq::empty());
    lemma_read_deltas(bits::of_bytes(d), deltas, 0);
    assert(threads.take(0) =~= Seq::empty());
    assert(data.subrange(0, data.len() as int) =~= data);
    lemma_cut_threads(threads, 0);
}

} // verus!

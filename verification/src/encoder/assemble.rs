//! The codestream of an encode: headers, residual substreams, hyper-latents.

use vstd::prelude::*;

use crate::bitio;
use crate::bits;
use crate::container;
use crate::container::{CodestreamWriter, Marker, Piece, RegionLayout};
use crate::decoder::front;
use crate::decoder::headers;
use crate::error::{Error, Result};
use crate::header::picture;
use crate::header::rendering;
use crate::header::tools;

verus! {

/// The substreams of a component's residual: one per region, each introduced by its index, or one
/// for all.
pub open spec fn residual_pieces(marker: Marker, payloads: Seq<Seq<u8>>, independent: bool) -> Seq<
    Piece,
> {
    if independent {
        Seq::new(payloads.len(), |i: int| (marker, seq![i as u8] + payloads[i]))
    } else {
        seq![(marker, container::joined_regions(payloads))]
    }
}

/// What goes into a codestream.
pub struct Parts {
    pub pih: Seq<u8>,
    pub ton: Seq<u8>,
    pub rdi: Seq<u8>,
    /// Region payloads of luma.
    pub luma: Seq<Seq<u8>>,
    /// Region payloads of chroma.
    pub chroma: Seq<Seq<u8>>,
    pub independent: bool,
    pub soz: Seq<u8>,
}

/// The substreams of a codestream: the headers, the residual, then the hyper-latents.
pub open spec fn stream_pieces(p: Parts) -> Seq<Piece> {
    seq![(Marker::Pih, p.pih), (Marker::Ton, p.ton), (Marker::Rdi, p.rdi)] + residual_pieces(
        Marker::Sorp,
        p.luma,
        p.independent,
    ) + residual_pieces(Marker::Sors, p.chroma, p.independent) + seq![(Marker::Soz, p.soz)]
}

/// Byte strings held in vectors.
pub open spec fn byte_strings(v: Seq<Vec<u8>>) -> Seq<Seq<u8>> {
    Seq::new(v.len(), |i: int| v[i]@)
}

/// Payloads that a substream can carry.
pub open spec fn payloads_fit(payloads: Seq<Seq<u8>>, independent: bool) -> bool {
    &&& forall|i: int| 0 <= i < payloads.len() ==> (#[trigger] payloads[i]).len() < 0x1_0000_0000
    &&& independent ==> payloads.len() <= 256
    &&& !independent ==> container::joined_regions(payloads).len() < 0x1_ffff_ffff
}

/// Append the substreams of a component's residual.
fn push_residual(
    out: &mut CodestreamWriter,
    marker: Marker,
    regions: &Vec<Vec<u8>>,
    independent: bool,
    Ghost(subs): Ghost<Seq<Piece>>,
) -> (r: Result<()>)
    requires
        old(out).holds(subs),
        subs.len() > 0,
        marker.sized(),
        payloads_fit(byte_strings(regions@), independent),
    ensures
        r == Ok::<(), Error>(()),
        final(out).holds(
            subs + residual_pieces(marker, byte_strings(regions@), independent),
        ),
{
    let ghost payloads = byte_strings(regions@);
    let ghost want = residual_pieces(marker, payloads, independent);
    if independent {
        let mut i: usize = 0;
        proof {
            assert(subs + want.take(0) =~= subs);
        }
        while i < regions.len()
            invariant
                i <= regions@.len(),
                regions@.len() <= 256,
                payloads == byte_strings(regions@),
                want == residual_pieces(marker, payloads, true),
                payloads_fit(payloads, true),
                subs.len() > 0,
                marker.sized(),
                out.holds(subs + want.take(i as int)),
            decreases regions@.len() - i,
        {
            let mut body: Vec<u8> = Vec::new();
            body.push(i as u8);
            body.extend_from_slice(regions[i].as_slice());
            proof {
                assert(payloads[i as int].len() < 0x1_0000_0000);
                assert(body@ =~= seq![i as u8] + payloads[i as int]);
                assert((subs + want.take(i as int)).push(want[i as int]) =~= subs + want.take(
                    i + 1,
                ));
            }
            out.substream(marker, body.as_slice())?;
            i = i + 1;
        }
        proof {
            assert(want.take(regions@.len() as int) =~= want);
        }
    } else {
        let mut refs: Vec<&[u8]> = Vec::new();
        while refs.len() < regions.len()
            invariant
                refs@.len() <= regions@.len(),
                forall|j: int| 0 <= j < refs@.len() ==> (#[trigger] refs@[j])@ == regions@[j]@,
            decreases regions@.len() - refs@.len(),
        {
            refs.push(regions[refs.len()].as_slice());
        }
        proof {
            assert(container::contents(refs@) =~= payloads);
            assert forall|j: int| 0 <= j < refs@.len() - 1 implies (#[trigger] refs@[j])@.len()
                < 0x1_ffff_ffff by {
                assert(payloads[j].len() < 0x1_0000_0000);
            }
        }
        let body: Vec<u8> = container::join_dependent_regions(&refs);
        out.substream(marker, body.as_slice())?;
        proof {
            assert(subs.push((marker, container::joined_regions(payloads))) =~= subs + want);
        }
    }
    Ok(())
}

/// The codestream of written headers, region payloads of luma and chroma, and the hyper-latents'
/// substream.
pub fn assemble(
    pih: &[u8],
    ton: &[u8],
    rdi: &[u8],
    luma: &Vec<Vec<u8>>,
    chroma: &Vec<Vec<u8>>,
    independent: bool,
    soz: &[u8],
) -> (r: Result<Vec<u8>>)
    requires
        pih@.len() < 0x1_ffff_ffff,
        ton@.len() < 0x1_ffff_ffff,
        rdi@.len() < 0x1_ffff_ffff,
        soz@.len() < 0x1_ffff_ffff,
        payloads_fit(byte_strings(luma@), independent),
        payloads_fit(byte_strings(chroma@), independent),
    ensures
        r matches Ok(bytes) && bytes@ == container::codestream_bytes(
            stream_pieces(
                (Parts {
                    pih: pih@,
                    ton: ton@,
                    rdi: rdi@,
                    luma: byte_strings(luma@),
                    chroma: byte_strings(chroma@),
                    independent,
                    soz: soz@,
                }),
            ),
        ),
{
    let mut out = CodestreamWriter::new();
    out.substream(Marker::Pih, pih)?;
    out.substream(Marker::Ton, ton)?;
    out.substream(Marker::Rdi, rdi)?;
    let ghost heads = seq![(Marker::Pih, pih@), (Marker::Ton, ton@), (Marker::Rdi, rdi@)];
    proof {
        let none = Seq::<Piece>::empty();
        let one = none.push((Marker::Pih, pih@));
        let two = one.push((Marker::Ton, ton@));
        assert(out.holds(two.push((Marker::Rdi, rdi@))));
        assert(two.push((Marker::Rdi, rdi@)) =~= heads);
    }
    push_residual(&mut out, Marker::Sorp, luma, independent, Ghost(heads))?;
    let ghost with_luma = heads + residual_pieces(Marker::Sorp, byte_strings(luma@), independent);
    push_residual(&mut out, Marker::Sors, chroma, independent, Ghost(with_luma))?;
    let ghost with_both = with_luma + residual_pieces(
        Marker::Sors,
        byte_strings(chroma@),
        independent,
    );
    out.substream(Marker::Soz, soz)?;
    proof {
        assert(out.holds(with_both.push((Marker::Soz, soz@))));
        assert(with_both.push((Marker::Soz, soz@)) =~= with_both + seq![(Marker::Soz, soz@)]);
    }
    Ok(out.finish())
}

/// The payloads with a marker in a concatenation.
proof fn lemma_payloads_concat(a: Seq<Piece>, b: Seq<Piece>, marker: Marker)
    ensures
        container::payloads_of(a + b, marker) == container::payloads_of(a, marker)
            + container::payloads_of(b, marker),
    decreases b.len(),
{
    if b.len() == 0 {
        assert(a + b =~= a);
        assert(container::payloads_of(a, marker) + container::payloads_of(b, marker)
            =~= container::payloads_of(a, marker));
    } else {
        assert((a + b).drop_last() =~= a + b.drop_last());
        lemma_payloads_concat(a, b.drop_last(), marker);
        assert(container::payloads_of(a + b, marker) =~= container::payloads_of(a, marker)
            + container::payloads_of(b, marker));
    }
}

/// The payloads with a marker among pieces that all have one marker.
proof fn lemma_payloads_uniform(subs: Seq<Piece>, of: Marker, marker: Marker)
    requires
        forall|i: int| 0 <= i < subs.len() ==> (#[trigger] subs[i]).0 == of,
    ensures
        of != marker ==> container::payloads_of(subs, marker).len() == 0,
        of == marker ==> container::payloads_of(subs, marker) == Seq::new(
            subs.len(),
            |i: int| subs[i].1,
        ),
    decreases subs.len(),
{
    if subs.len() > 0 {
        let front = subs.drop_last();
        assert forall|i: int| 0 <= i < front.len() implies (#[trigger] front[i]).0 == of by {
            assert(front[i] == subs[i]);
        }
        lemma_payloads_uniform(front, of, marker);
        assert(subs[subs.len() - 1].0 == of);
        if of == marker {
            assert(container::payloads_of(subs, marker) =~= Seq::new(
                subs.len(),
                |i: int| subs[i].1,
            ));
        }
    } else if of == marker {
        assert(container::payloads_of(subs, marker) =~= Seq::new(
            subs.len(),
            |i: int| subs[i].1,
        ));
    }
}

/// The payloads of a component's residual substreams.
pub open spec fn residual_bodies(payloads: Seq<Seq<u8>>, independent: bool) -> Seq<Seq<u8>> {
    if independent {
        Seq::new(payloads.len(), |i: int| seq![i as u8] + payloads[i])
    } else {
        seq![container::joined_regions(payloads)]
    }
}

/// What a stream holds under each marker.
proof fn lemma_stream_payloads(p: Parts, marker: Marker)
    ensures
        container::payloads_of(stream_pieces(p), marker) == match marker {
            Marker::Pih => seq![p.pih],
            Marker::Ton => seq![p.ton],
            Marker::Rdi => seq![p.rdi],
            Marker::Sorp => residual_bodies(p.luma, p.independent),
            Marker::Sors => residual_bodies(p.chroma, p.independent),
            Marker::Soz => seq![p.soz],
            _ => Seq::empty(),
        },
{
    let a = seq![(Marker::Pih, p.pih)];
    let b = seq![(Marker::Ton, p.ton)];
    let c = seq![(Marker::Rdi, p.rdi)];
    let l = residual_pieces(Marker::Sorp, p.luma, p.independent);
    let m = residual_pieces(Marker::Sors, p.chroma, p.independent);
    let z = seq![(Marker::Soz, p.soz)];
    let heads = seq![(Marker::Pih, p.pih), (Marker::Ton, p.ton), (Marker::Rdi, p.rdi)];
    assert(heads =~= a + b + c);
    lemma_payloads_concat(a + b + c + l + m, z, marker);
    lemma_payloads_concat(a + b + c + l, m, marker);
    lemma_payloads_concat(a + b + c, l, marker);
    lemma_payloads_concat(a + b, c, marker);
    lemma_payloads_concat(a, b, marker);
    lemma_payloads_uniform(a, Marker::Pih, marker);
    lemma_payloads_uniform(b, Marker::Ton, marker);
    lemma_payloads_uniform(c, Marker::Rdi, marker);
    lemma_payloads_uniform(l, Marker::Sorp, marker);
    lemma_payloads_uniform(m, Marker::Sors, marker);
    lemma_payloads_uniform(z, Marker::Soz, marker);
    let all = container::payloads_of(stream_pieces(p), marker);
    match marker {
        Marker::Pih => {
            assert(all =~= seq![p.pih]);
        },
        Marker::Ton => {
            assert(all =~= seq![p.ton]);
        },
        Marker::Rdi => {
            assert(all =~= seq![p.rdi]);
        },
        Marker::Sorp => {
            assert(all =~= residual_bodies(p.luma, p.independent));
        },
        Marker::Sors => {
            assert(all =~= residual_bodies(p.chroma, p.independent));
        },
        Marker::Soz => {
            assert(all =~= seq![p.soz]);
        },
        _ => {
            assert(all =~= Seq::empty());
        },
    }
}

/// Independent regions, from the `i`-th on, all find their place.
proof fn lemma_place_all(payloads: Seq<Seq<u8>>, i: int, out: Seq<Option<Seq<u8>>>)
    requires
        payloads.len() <= 256,
        0 <= i <= payloads.len(),
        out.len() == payloads.len(),
        forall|j: int| 0 <= j < i ==> #[trigger] out[j] == Some(payloads[j]),
        forall|j: int| i <= j < out.len() ==> #[trigger] out[j] is None,
    ensures
        container::spec_place_regions(residual_bodies(payloads, true), i, out) == Ok::<
            Seq<Option<Seq<u8>>>,
            Error,
        >(Seq::new(payloads.len(), |j: int| Some(payloads[j]))),
    decreases payloads.len() - i,
{
    let bodies = residual_bodies(payloads, true);
    if i < payloads.len() {
        let s = bodies[i];
        assert(s[0] == i);
        assert(s.subrange(1, s.len() as int) =~= payloads[i]);
        lemma_place_all(payloads, i + 1, out.update(i, Some(payloads[i])));
    } else {
        assert(out =~= Seq::new(payloads.len(), |j: int| Some(payloads[j])));
    }
}

/// The regions of a component come back from its substreams.
pub proof fn law_regions_come_back(payloads: Seq<Seq<u8>>, independent: bool)
    requires
        payloads.len() >= 1,
        payloads_fit(payloads, independent),
        !independent ==> payloads.len() <= 128 * 128 && bitio::addressable(
            container::joined_regions(payloads).len(),
        ),
    ensures
        container::spec_split_regions(
            residual_bodies(payloads, independent),
            if independent {
                RegionLayout::Independent
            } else {
                RegionLayout::Dependent
            },
            payloads.len(),
        ) == Ok::<Seq<Option<Seq<u8>>>, Error>(
            Seq::new(payloads.len(), |j: int| Some(payloads[j])),
        ),
{
    if independent {
        lemma_place_all(payloads, 0, container::no_regions(payloads.len()));
    } else {
        assert forall|i: int| 0 <= i < payloads.len() - 1 implies (#[trigger] payloads[i]).len()
            < 0x1_ffff_ffff by {
            assert(payloads[i].len() < 0x1_0000_0000);
        }
        container::law_dependent_regions_round_trip(payloads);
    }
}

/// A codestream comes back: reading an assembled stream gives the headers that were written, the
/// region payloads of both components, and the hyper-latents' substream.
pub proof fn law_stream_round_trip(
    p: Parts,
    pic: picture::PictureView,
    ton: tools::ToolView,
    rdi: rendering::RenderingView,
)
    requires
        picture::picture_error(pic) is None,
        picture::picture_codable(pic),
        picture::conformance_error(pic) is None,
        tools::tools_error(ton, tools::context_of_view(pic)) is None,
        tools::tools_codable(ton),
        rendering::rendering_error(rdi) is None,
        rdi.mdcv matches Some(m) ==> m.primaries.len() == 3,
        p.pih == bits::pack(picture::picture_code(pic)),
        p.ton == bits::pack(tools::tools_code(ton, tools::context_of_view(pic))),
        p.rdi == bits::pack(rendering::rendering_code(rdi)),
        p.independent == (front::layout_of(pic.regions) == RegionLayout::Independent),
        p.luma.len() == front::region_count(pic.regions),
        p.chroma.len() == front::region_count(pic.regions),
        payloads_fit(p.luma, p.independent),
        payloads_fit(p.chroma, p.independent),
        p.pih.len() < 0x1_ffff_ffff,
        p.ton.len() < 0x1_ffff_ffff,
        p.rdi.len() < 0x1_ffff_ffff,
        p.soz.len() < 0x1_ffff_ffff,
        bitio::addressable(container::codestream_bytes(stream_pieces(p)).len()),
        !p.independent ==> bitio::addressable(container::joined_regions(p.luma).len())
            && bitio::addressable(container::joined_regions(p.chroma).len()),
    ensures
        container::spec_parse(container::codestream_bytes(stream_pieces(p))) == Ok::<
            Seq<Piece>,
            Error,
        >(stream_pieces(p)),
        headers::spec_headers(stream_pieces(p)) == Ok::<headers::HeadersView, Error>(
            headers::HeadersView { picture: pic, tools: ton, rendering: rdi, user_data: None },
        ),
        front::spec_payloads(stream_pieces(p), Marker::Sorp, pic.regions) == Ok::<
            Seq<Option<Seq<u8>>>,
            Error,
        >(Seq::new(p.luma.len(), |j: int| Some(p.luma[j]))),
        front::spec_payloads(stream_pieces(p), Marker::Sors, pic.regions) == Ok::<
            Seq<Option<Seq<u8>>>,
            Error,
        >(Seq::new(p.chroma.len(), |j: int| Some(p.chroma[j]))),
        headers::first_of(stream_pieces(p), Marker::Soz) == Some(p.soz),
{
    lemma_stream_parses(p);
    lemma_stream_payloads(p, Marker::Pih);
    lemma_stream_payloads(p, Marker::Ton);
    lemma_stream_payloads(p, Marker::Rdi);
    lemma_stream_payloads(p, Marker::Udi);
    lemma_stream_payloads(p, Marker::Sorp);
    lemma_stream_payloads(p, Marker::Sors);
    lemma_stream_payloads(p, Marker::Soz);
    picture::law_picture_round_trip(pic);
    tools::law_tools_round_trip(ton, tools::context_of_view(pic));
    rendering::law_rendering_round_trip(rdi);
    lemma_region_count(pic);
    law_regions_come_back(p.luma, p.independent);
    law_regions_come_back(p.chroma, p.independent);
}

/// A picture header that can be written has at least one region and not too many.
pub proof fn lemma_region_count(pic: picture::PictureView)
    requires
        picture::picture_codable(pic),
    ensures
        1 <= front::region_count(pic.regions) <= 128 * 128,
{
    if let Some(r) = pic.regions {
        assert(picture::regions_codable(
            r,
            pic.geometry.height as int,
            pic.geometry.width as int,
        ));
        let (v, h) = (r.num_ver as int, r.num_hor as int);
        assert(1 <= v * h <= 128 * 128) by (nonlinear_arith)
            requires
                1 <= v <= 128,
                1 <= h <= 128,
        ;
    }
}

/// An assembled stream parses into its pieces.
proof fn lemma_stream_parses(p: Parts)
    requires
        payloads_fit(p.luma, p.independent),
        payloads_fit(p.chroma, p.independent),
        p.pih.len() < 0x1_ffff_ffff,
        p.ton.len() < 0x1_ffff_ffff,
        p.rdi.len() < 0x1_ffff_ffff,
        p.soz.len() < 0x1_ffff_ffff,
        bitio::addressable(container::codestream_bytes(stream_pieces(p)).len()),
    ensures
        container::spec_parse(container::codestream_bytes(stream_pieces(p))) == Ok::<
            Seq<Piece>,
            Error,
        >(stream_pieces(p)),
{
    let subs = stream_pieces(p);
    let heads = seq![(Marker::Pih, p.pih), (Marker::Ton, p.ton), (Marker::Rdi, p.rdi)];
    let l = residual_pieces(Marker::Sorp, p.luma, p.independent);
    let m = residual_pieces(Marker::Sors, p.chroma, p.independent);
    assert forall|i: int| 0 <= i < subs.len() implies (#[trigger] subs[i]).0.sized()
        && subs[i].1.len() < 0x1_ffff_ffff by {
        let (a, b) = (3 + l.len(), 3 + l.len() + m.len());
        if i < 3 {
            assert(subs[i] == heads[i]);
        } else if i < a {
            assert(subs[i] == l[i - 3]);
            if p.independent {
                assert(p.luma[i - 3].len() < 0x1_0000_0000);
            }
        } else if i < b {
            assert(subs[i] == m[i - a]);
            if p.independent {
                assert(p.chroma[i - a].len() < 0x1_0000_0000);
            }
        } else {
            assert(subs[i] == (Marker::Soz, p.soz));
        }
    }
    assert(subs[0] == (Marker::Pih, p.pih));
    container::law_codestream_round_trip(subs);
}

} // verus!

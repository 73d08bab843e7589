//! What a codestream holds, and which part of it each step of a decode reads.

use vstd::prelude::*;

use crate::bitio;
use crate::bits;
use crate::container;
use crate::container::{Marker, Piece, RegionLayout};
use crate::decoder::entropy;
use crate::decoder::entropy::{Cut, GrfsFlags, Shared};
use crate::decoder::front;
use crate::decoder::headers;
use crate::error::Error;
use crate::header::{ComponentHeader, PictureHeader, Regions};
use crate::header::{picture, rendering, tools};
use crate::mans::decoder::Reader;
use crate::mans::tables::ResidualTables;
use crate::area::Area;
use crate::tensor::Tensor;

verus! {

/// A marker is a byte of ones and a byte of its own, which names it.
pub proof fn law_markers_have_their_code(m: Marker, other: Marker, v: u16)
    ensures
        m.code() == 0xff00 + match m {
            Marker::Soc => 0x80int,
            Marker::Eoc => 0x81,
            Marker::Pih => 0x82,
            Marker::Ton => 0x83,
            Marker::Rdi => 0x84,
            Marker::Soz => 0x88,
            Marker::Sorp => 0x89,
            Marker::Sors => 0x8a,
            Marker::Soq => 0x8b,
            Marker::Udi => 0x8c,
        },
        Marker::of_code(v) == Some(m) <==> m.code() == v,
        m.code() == other.code() ==> m == other,
        m.sized() <==> m != Marker::Soc && m != Marker::Eoc,
        container::marker_bytes(m).len() == 2,
        container::marker_bytes(m)[0] == 0xff,
        container::marker_bytes(m)[0] * 256 + container::marker_bytes(m)[1] == m.code(),
{
}

/// Numbers of two bytes have the high one first.
pub proof fn law_high_bytes_come_first(d: Seq<u8>, pos: int)
    ensures
        container::u16_at(d, pos) == 256 * d[pos] + d[pos + 1],
{
}

/// A codestream starts with its start marker and ends with its end marker; between them each
/// substream is its marker, its length and its payload, one after the other.
pub proof fn law_codestreams_are_framed(subs: Seq<Piece>, piece: Piece)
    ensures
        ({
            let d = container::codestream_bytes(subs);
            &&& d.len() >= 4
            &&& d[0] == 0xff && d[1] == 0x80
            &&& d[d.len() - 2] == 0xff && d[d.len() - 1] == 0x81
        }),
        container::run_bytes(seq![]) == Seq::<u8>::empty(),
        container::run_bytes(subs.push(piece)) == container::run_bytes(subs)
            + container::marker_bytes(piece.0) + bits::pack(bitio::ue_code(piece.1.len()))
            + piece.1,
{
    assert(subs.push(piece).drop_last() =~= subs);
    assert(container::run_bytes(subs.push(piece)) =~= container::run_bytes(subs)
        + container::marker_bytes(piece.0) + bits::pack(bitio::ue_code(piece.1.len())) + piece.1);
}

/// A stream that is read holds a picture header first, and nothing but sized substreams.
pub proof fn law_parsed_streams_start_with_the_picture(d: Seq<u8>)
    ensures
        container::spec_parse(d) matches Ok(subs) ==> {
            &&& subs.len() > 0 && subs[0].0 == Marker::Pih
            &&& forall|i: int| 0 <= i < subs.len() ==> (#[trigger] subs[i]).0.sized()
            &&& d[0] == 0xff && d[1] == 0x80
        },
{
    if d.len() >= 2 {
        lemma_parsed(d, 2, Seq::empty());
    }
}

proof fn lemma_parsed(d: Seq<u8>, pos: int, acc: Seq<Piece>)
    requires
        forall|i: int| 0 <= i < acc.len() ==> (#[trigger] acc[i]).0.sized(),
        acc.len() > 0 ==> acc[0].0 == Marker::Pih,
    ensures
        container::spec_substreams(d, pos, acc) matches Ok(subs) ==> {
            &&& subs.len() > 0 && subs[0].0 == Marker::Pih
            &&& forall|i: int| 0 <= i < subs.len() ==> (#[trigger] subs[i]).0.sized()
        },
    decreases d.len() - pos,
{
    if 0 <= pos && pos + 2 <= d.len() {
        match Marker::of_code(container::u16_at(d, pos)) {
            None => {},
            Some(m) => {
                let s = bits::of_bytes(d.subrange(pos + 2, d.len() as int));
                if m.sized() {
                    match bitio::spec_ue(s, 0) {
                        Err(_) => {},
                        Ok((size, p)) => {
                            bitio::lemma_ue_advances(s, 0);
                            let start = pos + 2 + (p + 7) / 8;
                            let end = start + size;
                            if end <= d.len() && (acc.len() > 0 || m == Marker::Pih) {
                                lemma_parsed(d, end, acc.push((m, d.subrange(start, end))));
                            }
                        },
                    }
                }
            },
        }
    }
}

/// The payload that a marker leads to is that of the first substream with it; the payloads with it
/// are all of them, in their order.
pub proof fn law_first_substream_counts(subs: Seq<Piece>, marker: Marker, piece: Piece)
    ensures
        headers::first_of(seq![], marker) is None,
        headers::first_of(subs, marker) matches Some(p) ==> headers::first_of(
            subs.push(piece),
            marker,
        ) == Some(p),
        headers::first_of(subs, marker) is None ==> headers::first_of(subs.push(piece), marker)
            == if piece.0 == marker {
            Some(piece.1)
        } else {
            None
        },
        container::payloads_of(subs.push(piece), marker) == if piece.0 == marker {
            container::payloads_of(subs, marker).push(piece.1)
        } else {
            container::payloads_of(subs, marker)
        },
{
    assert(subs.push(piece).drop_last() =~= subs);
}

/// The headers of a stream are those of its first picture, tool, rendering and user substreams; a
/// picture header must be there and conform, and what else is missing is empty.
pub proof fn law_headers_come_from_their_substreams(subs: Seq<Piece>)
    ensures
        headers::spec_headers(subs) matches Ok(h) ==> {
            &&& headers::first_of(subs, Marker::Pih) matches Some(pih)
            &&& picture::spec_picture(bits::of_bytes(pih)) matches Ok((v, _))
            &&& v == h.picture
            &&& picture::conformance_error(h.picture) is None
            &&& h.user_data == headers::first_of(subs, Marker::Udi)
            &&& headers::first_of(subs, Marker::Ton) is None ==> {
                &&& !h.tools.lsbs_enabled.0 && !h.tools.lsbs_enabled.1
                &&& h.tools.efe_linear is None && h.tools.icci is None
                    && h.tools.efe_nonlinear is None && h.tools.lef_channel is None
            }
            &&& headers::first_of(subs, Marker::Ton) matches Some(ton) ==> (tools::spec_tools(
                bits::of_bytes(ton),
                tools::context_of_view(h.picture),
            ) matches Ok((t, _)) && t == h.tools)
            &&& headers::first_of(subs, Marker::Rdi) is None ==> h.rendering.cicp is None
                && h.rendering.mdcv is None && h.rendering.clli is None
                && h.rendering.display_mapping is None
            &&& headers::first_of(subs, Marker::Rdi) matches Some(rdi) ==> (
            rendering::spec_rendering(bits::of_bytes(rdi)) matches Ok((r, _)) && r == h.rendering)
        },
{
}

/// A stream with a picture header that conforms and nothing else has headers.
pub proof fn law_a_picture_header_is_enough(subs: Seq<Piece>, pih: Seq<u8>)
    requires
        headers::first_of(subs, Marker::Pih) == Some(pih),
        headers::first_of(subs, Marker::Ton) is None,
        headers::first_of(subs, Marker::Rdi) is None,
        picture::spec_picture(bits::of_bytes(pih)) matches Ok((v, _))
            && picture::conformance_error(v) is None,
    ensures
        headers::spec_headers(subs) is Ok,
{
}

/// Regions have a substream each where they are independent, and share one where they are not or
/// there is one alone.
pub proof fn law_region_layouts(regions: Option<Regions>)
    ensures
        front::layout_of(regions) == RegionLayout::Independent <==> (regions matches Some(r)
            && r.independent),
        regions is None ==> front::region_count(regions) == 1,
        regions matches Some(r) ==> front::region_count(regions) == r.num_ver * r.num_hor,
{
    if let Some(r) = regions {
        assert(0 <= r.num_ver * r.num_hor) by (nonlinear_arith);
    }
}

/// Each independent region goes to the place that its first byte names, without that byte; no two go
/// to one place, and what was placed before stays.
pub proof fn law_regions_go_to_their_place(
    substreams: Seq<Seq<u8>>,
    i: int,
    out: Seq<Option<Seq<u8>>>,
    k: int,
)
    requires
        0 <= i,
    ensures
        container::spec_place_regions(substreams, i, out) matches Ok(all) ==> {
            &&& all.len() == out.len()
            &&& i <= k < substreams.len() ==> substreams[k].len() >= 1 && substreams[k][0]
                < all.len() && all[substreams[k][0] as int] == Some(
                substreams[k].subrange(1, substreams[k].len() as int),
            )
            &&& forall|j: int| 0 <= j < out.len() && out[j] is Some ==> #[trigger] all[j] == out[j]
        },
    decreases substreams.len() - i,
{
    if i < substreams.len() {
        let s = substreams[i];
        if s.len() > 0 && s[0] < out.len() && out[s[0] as int] is None {
            let next = out.update(s[0] as int, Some(s.subrange(1, s.len() as int)));
            law_regions_go_to_their_place(substreams, i + 1, next, k);
            if let Ok(all) = container::spec_place_regions(substreams, i, out) {
                assert(next[s[0] as int] is Some);
                assert(all[s[0] as int] == next[s[0] as int]);
                assert forall|j: int| 0 <= j < out.len() && out[j] is Some implies #[trigger] all[j]
                    == out[j] by {
                    assert(next[j] == out[j]);
                }
            }
        }
    }
}

/// A string is cut into pieces of the given sizes, each where the one before it ends.
pub proof fn law_pieces_follow_each_other(d: Seq<u8>, sizes: Seq<nat>, i: int)
    requires
        0 <= i < sizes.len(),
        container::total(sizes) <= d.len(),
    ensures
        container::cut(d, sizes).len() == sizes.len(),
        container::cut(d, sizes)[i] == d.subrange(
            container::total(sizes.take(i)) as int,
            (container::total(sizes.take(i)) + sizes[i]) as int,
        ),
        container::total(sizes.take(0)) == 0,
        container::total(sizes.take(i + 1)) == container::total(sizes.take(i)) + sizes[i],
        container::total(sizes.take(i + 1)) <= container::total(sizes),
{
    assert(sizes.take(i + 1).drop_last() =~= sizes.take(i));
    assert(sizes.take(0) =~= Seq::empty());
    lemma_total_grows(sizes, i + 1);
}

proof fn lemma_total_grows(sizes: Seq<nat>, i: int)
    requires
        0 <= i <= sizes.len(),
    ensures
        container::total(sizes.take(i)) <= container::total(sizes),
    decreases sizes.len(),
{
    if i == sizes.len() {
        assert(sizes.take(i) =~= sizes);
    } else {
        assert(sizes.drop_last().take(i) =~= sizes.take(i));
        lemma_total_grows(sizes.drop_last(), i);
    }
}

/// A thread is as much shorter than the mean as its delta says; the last takes what is left, and all
/// of the data is handed out.
pub proof fn law_threads_share_the_data(
    rest: Seq<u8>,
    mean: int,
    deltas: Seq<int>,
    i: int,
    out: Seq<Seq<u8>>,
    k: int,
)
    requires
        0 <= i <= deltas.len(),
        out.len() == i,
    ensures
        container::spec_cut_threads(rest, mean, deltas, i, out) matches Ok(all) ==> {
            &&& all.len() == deltas.len() + 1
            &&& container::flat(all) == container::flat(out) + rest
            &&& i <= k < deltas.len() ==> all[k].len() == mean - deltas[k]
            &&& forall|j: int| 0 <= j < i ==> #[trigger] all[j] == out[j]
        },
    decreases deltas.len() - i,
{
    if i >= deltas.len() {
        assert(out.push(rest).drop_last() =~= out);
    } else {
        let size = mean - deltas[i];
        if 0 <= size <= usize::MAX && size <= rest.len() {
            let head = rest.subrange(0, size);
            let tail = rest.subrange(size, rest.len() as int);
            let next = out.push(head);
            law_threads_share_the_data(tail, mean, deltas, i + 1, next, k);
            assert(next.drop_last() =~= out);
            assert(container::flat(next) == container::flat(out) + head);
            assert(container::flat(out) + head + tail =~= container::flat(out) + rest) by {
                assert(head + tail =~= rest);
            }
            if let Ok(all) = container::spec_cut_threads(rest, mean, deltas, i, out) {
                assert(all[i] == next[i]);
                assert forall|j: int| 0 <= j < i implies #[trigger] all[j] == out[j] by {
                    assert(next[j] == out[j]);
                }
            }
        }
    }
}

/// A substream of one thread is that thread, whole.
pub proof fn law_one_thread_takes_all(payload: Seq<u8>)
    ensures
        container::spec_split_threads(payload, 1) == Ok::<Seq<Seq<u8>>, Error>(seq![payload]),
        container::spec_split_threads(payload, 0) is Err,
        container::spec_split_threads(payload, 17) is Err,
{
    let empty = Seq::<Seq<u8>>::empty();
    assert(payload.subrange(0, payload.len() as int) =~= payload);
    assert(empty.push(payload) =~= seq![payload]);
}

/// A chunk ends a step behind its start, or with the last channel.
pub proof fn law_chunks_end_with_the_channels(cut: Cut, c0: int)
    requires
        0 <= c0 < cut.num_chs,
        1 <= cut.step,
    ensures
        c0 < cut.end(c0) <= cut.num_chs,
        c0 + cut.step <= cut.num_chs ==> cut.end(c0) == c0 + cut.step,
        c0 + cut.step > cut.num_chs ==> cut.end(c0) == cut.num_chs,
        cut.len(c0) == (cut.end(c0) - c0) * (cut.area.height * cut.area.width),
{
    let (n, h, w) = (cut.end(c0) - c0, cut.area.height as int, cut.area.width as int);
    assert(n * h * w == n * (h * w) && 0 <= n * (h * w)) by (nonlinear_arith)
        requires
            0 <= n,
            0 <= h,
            0 <= w,
    ;
}

/// A component is decoded with its own threads and its coded channels, at most those that the scale
/// map has; a progressive decode reads at most what it was told.
pub proof fn law_progressive_decodes_read_less(
    tables: ResidualTables,
    comp: ComponentHeader,
    size: (int, int),
    scale_log: Tensor<i32>,
    mask: Tensor<bool>,
    m: u16,
)
    ensures
        ({
            let all = entropy::shared_of(tables, comp, size, scale_log, mask, None);
            let some = entropy::shared_of(tables, comp, size, scale_log, mask, Some(m));
            &&& all.num_chs == some.num_chs
            &&& comp.num_chs <= scale_log.c ==> all.num_chs == comp.num_chs
            &&& comp.num_chs > scale_log.c ==> all.num_chs == scale_log.c
            &&& all.num_decode == all.num_chs
            &&& m <= some.num_chs ==> some.num_decode == m
            &&& m > some.num_chs ==> some.num_decode == some.num_chs
            &&& all.num_threads == comp.num_threads_r && some.num_threads == comp.num_threads_r
            &&& all.lh == size.0 && all.lw == size.1 && all.tables == tables
            &&& all.scale == scale_log.data@ && all.mask == mask.data@
        }),
{
}

/// Hyper-latent samples are their symbols less the offset, and each symbol has its sample back.
pub proof fn law_hyper_samples_are_offset(symbols: Seq<u8>, z_offset: i32, i: int)
    requires
        0 <= i < symbols.len(),
        -128 <= symbols[i] - z_offset <= 127,
    ensures
        entropy::z_samples(symbols, z_offset).len() == symbols.len(),
        entropy::z_samples(symbols, z_offset)[i] + z_offset == symbols[i],
{
}

/// Gain flags that a header carries are used as they are; an encode uses those of the scale map if
/// and only if the tool is on.
pub proof fn law_gain_flags_in_force(flags: Option<&[bool]>, derived: Seq<bool>)
    ensures
        flags matches Some(f) ==> GrfsFlags::Signalled(flags).spec_in_force(derived) == Some(f@),
        flags is None ==> GrfsFlags::Signalled(flags).spec_in_force(derived) is None,
        GrfsFlags::Derive(true).spec_in_force(derived) == Some(derived),
        GrfsFlags::Derive(false).spec_in_force(derived) is None,
{
}

/// Gains are below eight kibi on either side.
pub proof fn law_gains_are_bounded(add: i32)
    ensures
        entropy::gain_in_range(add) <==> -8 * 1024 <= add < 8 * 1024,
{
}

/// A region without a payload, off the planes, or where nothing is decoded leaves the planes as they
/// are; any other is decoded before those behind it.
pub proof fn law_regions_are_decoded_in_order(
    s: Shared,
    areas: Seq<Area>,
    payloads: Seq<Option<Seq<u8>>>,
    dst: Seq<i16>,
    r: int,
)
    requires
        0 <= r < areas.len(),
    ensures
        ({
            let area = areas[r].clipped(s.lh, s.lw);
            let skipped = payloads[r] is None || area.height == 0 || area.width == 0
                || s.num_decode == 0;
            &&& skipped ==> entropy::spec_regions(s, areas, payloads, dst, r)
                == entropy::spec_regions(s, areas, payloads, dst, r + 1)
            &&& !skipped ==> match entropy::spec_region(s, area, payloads[r]->Some_0, dst) {
                Err(e) => entropy::spec_regions(s, areas, payloads, dst, r) == Err::<
                    Seq<i16>,
                    Error,
                >(e),
                Ok(next) => entropy::spec_regions(s, areas, payloads, dst, r)
                    == entropy::spec_regions(s, areas, payloads, next, r + 1),
            }
        }),
        entropy::spec_regions(s, areas, payloads, dst, areas.len() as int) == Ok::<
            Seq<i16>,
            Error,
        >(dst),
{
}

/// A hyper-latent of nothing takes nothing from the threads.
pub proof fn law_empty_hyper_latents(
    cdfs: Seq<Seq<u8>>,
    z_offset: i32,
    readers: Seq<Reader>,
)
    ensures
        entropy::spec_z(cdfs, 0, z_offset, readers) matches Ok((behind, z)) && behind == readers
            && z.len() == 0,
{
    assert(cdfs.len() * 0 == 0) by (nonlinear_arith);
}

/// The front of the entropy stage succeeds if and only if both hyper-latents decode, the quality map
/// is there where the picture has one, and both components have the payloads of their regions.
pub proof fn law_front_needs_its_substreams(
    subs: Seq<Piece>,
    hdr: PictureHeader,
    cdfs: (Seq<Seq<u8>>, Seq<Seq<u8>>),
    z_offset: i32,
)
    ensures
        front::front_error(subs, hdr, cdfs, z_offset) is None <==> {
            let sizes = (
                front::z_size(hdr.height as int, hdr.width as int, 0),
                front::z_size(hdr.height as int, hdr.width as int, 1),
            );
            &&& front::spec_both_z(subs, hdr.num_threads_z as nat, cdfs, sizes, z_offset) is Ok
            &&& hdr.quality_map is Some ==> headers::first_of(subs, Marker::Soq) is Some
            &&& front::spec_payloads(subs, Marker::Sorp, hdr.regions) is Ok
            &&& front::spec_payloads(subs, Marker::Sors, hdr.regions) is Ok
        },
        headers::first_of(subs, Marker::Soz) is None ==> front::front_error(
            subs,
            hdr,
            cdfs,
            z_offset,
        ) == Some(Error::InvalidData("no z substream")),
{
}

/// A component's payloads are those of the substreams with its marker; regions that share a
/// substream need one.
pub proof fn law_payloads_are_split_by_layout(
    subs: Seq<Piece>,
    marker: Marker,
    regions: Option<Regions>,
)
    ensures
        ({
            let all = container::payloads_of(subs, marker);
            let independent = regions matches Some(r) && r.independent;
            let r = front::spec_payloads(subs, marker, regions);
            &&& independent ==> r == container::spec_split_regions(
                all,
                RegionLayout::Independent,
                front::region_count(regions),
            )
            &&& !independent && all.len() != 1 ==> r is Err
            &&& !independent && all.len() == 1 ==> r == container::spec_split_regions(
                all,
                RegionLayout::Dependent,
                front::region_count(regions),
            )
        }),
{
}

/// One region without others takes its substream whole.
pub proof fn law_one_region_takes_all(s: Seq<u8>)
    ensures
        container::spec_split_regions(seq![s], RegionLayout::Dependent, 1) == Ok::<
            Seq<Option<Seq<u8>>>,
            Error,
        >(seq![Some(s)]),
        container::spec_split_regions(seq![s], RegionLayout::Dependent, 0) is Err,
        container::spec_split_regions(seq![s], RegionLayout::Dependent, 128 * 128 + 1) is Err,
{
    let none = Seq::<nat>::empty();
    let sizes = none.push(s.len());
    assert(s.subrange(0, s.len() as int) =~= s);
    assert(sizes.drop_last() =~= none);
    assert(container::total(sizes) == s.len());
    law_pieces_follow_each_other(s, sizes, 0);
    let parts = container::cut(s, sizes);
    assert(parts[0] =~= s);
    assert(seq![s][0] == s);
    assert(Seq::new(parts.len(), |i: int| Some(parts[i])) =~= seq![Some(s)]);
}

} // verus!

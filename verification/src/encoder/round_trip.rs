//! Decoding a component gives back what was encoded.

use vstd::prelude::*;
use vstd::arithmetic::div_mod;

use crate::area::Area;
use crate::bitio;
use crate::container;
use crate::decoder::entropy;
use crate::decoder::entropy::{Cut, Shared};
use crate::encoder::residual as put;
use crate::error::Error;
use crate::mans::decoder;
use crate::mans::decoder::{Reader, ResidualCall};
use crate::mans::encoder;
use crate::mans::encoder::Writer;
use crate::mans::round_trip;
use crate::mans::stack;
use crate::mans::tables::PdfTables;
use crate::residual;

verus! {

/// Every residual sample that is coded at all can be.
pub open spec fn residual_codable(pdf: &PdfTables, s: Shared, values: Seq<i16>) -> bool {
    forall|p: int|
        0 <= p < values.len() && s.mask[p] ==> #[trigger] round_trip::value_codable(
            pdf,
            residual::spec_distribution(s.scale[p]) as int,
            values[p],
        )
}

/// The maps and the residual belong to `n` planes, and the region lies on them.
pub open spec fn region_fits(s: Shared, area: Area, values: Seq<i16>, n: int) -> bool {
    &&& values.len() == n * s.lh * s.lw
    &&& s.scale.len() == values.len()
    &&& s.mask.len() == values.len()
    &&& 0 <= s.num_chs <= n
    &&& s.num_decode == s.num_chs
    &&& 0 < area.height && area.y + area.height <= s.lh
    &&& 0 < area.width && area.x + area.width <= s.lw
}

/// Planes with the coded samples of the channels from `from` on in place in a region, and zeros
/// where none is coded.
pub open spec fn restored(
    s: Shared,
    area: Area,
    values: Seq<i16>,
    dst: Seq<i16>,
    from: int,
) -> Seq<i16> {
    Seq::new(
        dst.len(),
        |p: int|
            {
                let (c, y, x) = (p / s.lw / s.lh, p / s.lw % s.lh, p % s.lw);
                if from <= c < s.num_chs && area.holds(x, y) {
                    if s.mask[p] {
                        values[p]
                    } else {
                        0
                    }
                } else {
                    dst[p]
                }
            },
    )
}

/// The threads after encoding the chunks from the last one down to the `k`-th.
spec fn encoded_from(
    s: Shared,
    cut: Cut,
    values: Seq<i16>,
    writers: Seq<Writer>,
    k: int,
) -> Seq<Writer>
    decreases put::chunk_count(cut) - k,
{
    if k >= put::chunk_count(cut) {
        writers
    } else {
        chunk_written(s, cut, values, encoded_from(s, cut, values, writers, k + 1), k)
    }
}

/// The threads after encoding the `k`-th chunk.
spec fn chunk_written(
    s: Shared,
    cut: Cut,
    values: Seq<i16>,
    writers: Seq<Writer>,
    k: int,
) -> Seq<Writer> {
    let c0 = k * cut.step;
    encoder::spec_encode_residual(
        entropy::chunk_call(s.tables, writers.len() == 1, s.scale, s.mask, cut, c0),
        writers,
        residual::gathered(values, cut.lh, cut.lw, cut.area, c0, cut.end(c0)),
    )
}

/// Encoding can be cut at any chunk.
proof fn lemma_encoded_from(s: Shared, cut: Cut, values: Seq<i16>, writers: Seq<Writer>, k: int)
    requires
        0 <= k <= put::chunk_count(cut),
    ensures
        encoded_from(s, cut, values, writers, k).len() == writers.len(),
        put::spec_put_chunks(s, cut, values, writers, put::chunk_count(cut))
            == put::spec_put_chunks(
            s,
            cut,
            values,
            encoded_from(s, cut, values, writers, k),
            k,
        ),
    decreases put::chunk_count(cut) - k,
{
    if k < put::chunk_count(cut) {
        lemma_encoded_from(s, cut, values, writers, k + 1);
        assert((k + 1 - 1) * cut.step == k * cut.step);
    }
}

/// A chunk number is below the number of chunks where its first channel is one.
proof fn lemma_chunk_starts(num: int, step: int, k: int)
    requires
        0 <= num,
        1 <= step,
        0 <= k,
    ensures
        k * step < num <==> k < (num + step - 1) / step,
        0 <= k * step,
        (k + 1) * step == k * step + step,
{
    let a = num + step - 1;
    let c = a / step;
    div_mod::lemma_fundamental_div_mod(a, step);
    div_mod::lemma_mod_bound(a, step);
    let r = a % step;
    assert(0 <= k * step) by (nonlinear_arith)
        requires
            0 <= k,
            1 <= step,
    ;
    assert((k + 1) * step == k * step + step) by (nonlinear_arith);
    if k < c {
        assert(k * step < num) by (nonlinear_arith)
            requires
                k + 1 <= c,
                num + step - 1 == step * c + r,
                0 <= r,
                1 <= step,
        ;
    } else {
        assert(k * step >= num) by (nonlinear_arith)
            requires
                k >= c,
                num + step - 1 == step * c + r,
                r < step,
                1 <= step,
        ;
    }
}

/// What a chunk's maps say of its symbols is what the component's maps say of the samples.
proof fn lemma_chunk_codable(
    pdf: &PdfTables,
    s: Shared,
    cut: Cut,
    values: Seq<i16>,
    two: bool,
    c0: int,
    n: int,
)
    requires
        residual_codable(pdf, s, values),
        region_fits(s, cut.area, values, n),
        cut.lh == s.lh,
        cut.lw == s.lw,
        0 <= c0 <= cut.end(c0) <= n,
    ensures
        round_trip::values_codable(
            pdf,
            entropy::chunk_call(s.tables, two, s.scale, s.mask, cut, c0),
            residual::gathered(values, cut.lh, cut.lw, cut.area, c0, cut.end(c0)),
        ),
{
    let call = entropy::chunk_call(s.tables, two, s.scale, s.mask, cut, c0);
    let part = residual::gathered(values, cut.lh, cut.lw, cut.area, c0, cut.end(c0));
    assert forall|i: int| 0 <= i < part.len() && call.mask[i] implies #[trigger]
    round_trip::value_codable(pdf, call.dist(i), part[i]) by {
        let p = residual::source(cut.lh, cut.lw, cut.area, c0, i);
        residual::lemma_source(
            values.len(),
            n,
            cut.lh,
            cut.lw,
            cut.area,
            c0,
            cut.end(c0),
            i,
        );
        assert(round_trip::value_codable(
            pdf,
            residual::spec_distribution(s.scale[p]) as int,
            values[p],
        ));
        assert(call.dist(i) == residual::spec_distribution(s.scale[p]) as int);
    }
}

/// Putting the symbols of a chunk in place restores its channels.
proof fn lemma_scattered_chunk(
    s: Shared,
    cut: Cut,
    values: Seq<i16>,
    dst: Seq<i16>,
    symbols: Seq<i16>,
    c0: int,
    n: int,
)
    requires
        region_fits(s, cut.area, values, n),
        cut.lh == s.lh,
        cut.lw == s.lw,
        cut.num_chs == s.num_chs,
        0 <= c0 <= cut.end(c0) <= s.num_chs,
        dst.len() == values.len(),
        symbols.len() == residual::chunk_len(cut.area, c0, cut.end(c0)),
        forall|i: int|
            0 <= i < symbols.len() ==> #[trigger] symbols[i] == {
                let p = residual::source(cut.lh, cut.lw, cut.area, c0, i);
                if s.mask[p] {
                    values[p]
                } else {
                    0
                }
            },
    ensures
        restored(
            s,
            cut.area,
            values,
            residual::scattered(dst, symbols, cut.lh, cut.lw, cut.area, c0, cut.end(c0)),
            cut.end(c0),
        ) == restored(s, cut.area, values, dst, c0),
{
    let (lh, lw, a, c1) = (s.lh, s.lw, cut.area, cut.end(c0));
    let mid = residual::scattered(dst, symbols, lh, lw, a, c0, c1);
    let left = restored(s, a, values, mid, c1);
    let right = restored(s, a, values, dst, c0);
    assert forall|p: int| 0 <= p < dst.len() implies left[p] == right[p] by {
        let (c, y, x) = (p / lw / lh, p / lw % lh, p % lw);
        if c0 <= c < c1 && a.holds(x, y) {
            let k = residual::slot(lh, lw, a, c0, c1, p);
            crate::tensor::lemma_place(
                a.height as int,
                a.width as int,
                c1 - c0,
                c - c0,
                y - a.y,
                x - a.x,
            );
            residual::lemma_slot_unique(values.len(), n, lh, lw, a, c0, c1, p);
            assert(mid[p] == symbols[k]);
        }
    }
    assert(left =~= right);
}

/// The chunks from the `k`-th on come back.
proof fn lemma_chunks_back(
    pdf: &PdfTables,
    s: Shared,
    cut: Cut,
    values: Seq<i16>,
    writers: Seq<Writer>,
    readers: Seq<Reader>,
    bases: Seq<Seq<bool>>,
    dst: Seq<i16>,
    k: int,
    n: int,
)
    requires
        pdf.wf(),
        s.tables.of(pdf),
        residual_codable(pdf, s, values),
        region_fits(s, cut.area, values, n),
        cut == put::put_cut(s, cut.area),
        dst.len() == values.len(),
        0 <= k <= put::chunk_count(cut),
        readers.len() >= 1,
        writers.len() == readers.len(),
        bases.len() == readers.len(),
        forall|u: int|
            0 <= u < readers.len() ==> round_trip::agrees(
                #[trigger] readers[u],
                bases[u],
                encoded_from(s, cut, values, writers, k)[u],
                readers.len() == 1,
            ),
    ensures
        ({
            let m = entropy::spec_chunks(
                s.tables,
                s.scale,
                s.mask,
                cut,
                readers,
                dst,
                k * cut.step,
            );
            m.2 && m.1 == restored(s, cut.area, values, dst, k * cut.step)
        }),
    decreases put::chunk_count(cut) - k,
{
    let two = readers.len() == 1;
    let c0 = k * cut.step;
    residual::lemma_step_bounds(
        cut.area.height * cut.area.width,
        s.num_chs,
        s.num_threads as int * 4,
        1,
    );
    lemma_chunk_starts(s.num_chs, cut.step, k);
    if k < put::chunk_count(cut) {
        let c1 = cut.end(c0);
        let call = entropy::chunk_call(s.tables, two, s.scale, s.mask, cut, c0);
        let part = residual::gathered(values, cut.lh, cut.lw, cut.area, c0, c1);
        let zeros = Seq::new(cut.len(c0), |i: int| 0i16);
        residual::lemma_chunk_len(values.len(), n, s.lh, s.lw, cut.area, c0, c1);
        lemma_chunk_codable(pdf, s, cut, values, two, c0, n);
        lemma_encoded_from(s, cut, values, writers, k + 1);
        let behind = encoded_from(s, cut, values, writers, k + 1);
        assert(encoded_from(s, cut, values, writers, k) == chunk_written(
            s,
            cut,
            values,
            behind,
            k,
        ));
        assert(call.sigma.len() == zeros.len() && call.mask.len() == zeros.len());
        round_trip::law_residual_round_trip(pdf, call, readers, bases, behind, part, zeros);
        let m = decoder::spec_decode_residual(call, readers, zeros, 0);
        let next = residual::scattered(dst, m.1, cut.lh, cut.lw, cut.area, c0, c1);
        lemma_scattered_chunk(s, cut, values, dst, m.1, c0, n);
        lemma_chunks_back(pdf, s, cut, values, writers, m.0, bases, next, k + 1, n);
        lemma_restored_end(s, cut, values, next, c0, n);
    } else {
        let r = restored(s, cut.area, values, dst, c0);
        assert(r =~= dst);
    }
}

/// Behind the last chunk nothing is left to restore.
proof fn lemma_restored_end(
    s: Shared,
    cut: Cut,
    values: Seq<i16>,
    dst: Seq<i16>,
    c0: int,
    n: int,
)
    requires
        cut.num_chs == s.num_chs,
    ensures
        restored(s, cut.area, values, dst, c0 + cut.step) == restored(
            s,
            cut.area,
            values,
            dst,
            cut.end(c0),
        ),
{
    let a = restored(s, cut.area, values, dst, c0 + cut.step);
    let b = restored(s, cut.area, values, dst, cut.end(c0));
    assert(a =~= b);
}

/// The payload of a region comes back: every coded residual sample of the region in its place,
/// zeros where none is coded, and nothing else changed.
pub proof fn law_region_round_trip(
    pdf: &PdfTables,
    s: Shared,
    area: Area,
    values: Seq<i16>,
    dst: Seq<i16>,
    n: int,
)
    requires
        pdf.wf(),
        s.tables.of(pdf),
        1 <= s.num_threads <= 16,
        residual_codable(pdf, s, values),
        region_fits(s, area, values, n),
        dst.len() == values.len(),
        forall|t: int|
            0 <= t < s.num_threads ==> (#[trigger] put::finished(
                put::spec_put_region(s, area, values),
            )[t]).len() < 0x1_0000_0000,
        bitio::addressable(put::region_payload(s, area, values).len()),
    ensures
        entropy::spec_region(s, area, put::region_payload(s, area, values), dst) == Ok::<
            Seq<i16>,
            Error,
        >(restored(s, area, values, dst, 0)),
{
    let cut = put::put_cut(s, area);
    let fresh = put::fresh_threads(s.num_threads);
    let writers = put::spec_put_region(s, area, values);
    assert(area.clipped(s.lh, s.lw) == area);
    lemma_all_chunks(s, cut, values, fresh);
    lemma_payload_opens(writers);
    let threads = put::finished(writers);
    let readers = decoder::spec_decoder(threads)->Ok_0;
    let bases = Seq::new(threads.len(), |t: int| round_trip::base_of(threads, t));
    assert forall|u: int| 0 <= u < readers.len() implies round_trip::agrees(
        #[trigger] readers[u],
        bases[u],
        encoded_from(s, cut, values, fresh, 0)[u],
        readers.len() == 1,
    ) by {}
    lemma_chunks_back(pdf, s, cut, values, fresh, readers, bases, dst, 0, n);
    assert(0 * cut.step == 0);
}

/// A region's threads have written all chunks.
proof fn lemma_all_chunks(s: Shared, cut: Cut, values: Seq<i16>, fresh: Seq<Writer>)
    requires
        0 <= s.num_chs,
        cut == put::put_cut(s, cut.area),
        0 < cut.area.height,
        0 < cut.area.width,
        fresh == put::fresh_threads(s.num_threads),
    ensures
        put::spec_put_region(s, cut.area, values) == encoded_from(s, cut, values, fresh, 0),
        put::spec_put_region(s, cut.area, values).len() == s.num_threads,
        0 <= put::chunk_count(cut),
{
    residual::lemma_step_bounds(
        cut.area.height * cut.area.width,
        s.num_chs,
        s.num_threads as int * 4,
        1,
    );
    div_mod::lemma_div_pos_is_pos(s.num_chs + cut.step - 1, cut.step);
    lemma_encoded_from(s, cut, values, fresh, 0);
}

/// A payload of finished threads splits into them and opens.
pub proof fn lemma_payload_opens(writers: Seq<Writer>)
    requires
        1 <= writers.len() <= 16,
        forall|t: int|
            0 <= t < writers.len() ==> (#[trigger] put::finished(writers)[t]).len()
                < 0x1_0000_0000,
        bitio::addressable(container::joined_threads(put::finished(writers)).len()),
    ensures
        ({
            let threads = put::finished(writers);
            &&& container::spec_split_threads(
                container::joined_threads(threads),
                writers.len(),
            ) == Ok::<Seq<Seq<u8>>, Error>(threads)
            &&& decoder::spec_decoder(threads) matches Ok(readers)
            &&& readers.len() == writers.len()
            &&& forall|u: int|
                0 <= u < readers.len() ==> round_trip::agrees(
                    #[trigger] readers[u],
                    round_trip::base_of(threads, u),
                    writers[u],
                    readers.len() == 1,
                )
        }),
{
    let threads = put::finished(writers);
    assert forall|t: int| 0 <= t < threads.len() implies stack::of_bytes(#[trigger] threads[t])
        == writers[t].sealed(threads.len() == 1) by {
        lemma_finished_bits(writers, t);
    }
    assert(container::spec_split_threads(container::joined_threads(threads), writers.len()) == Ok::<
        Seq<Seq<u8>>,
        Error,
    >(threads)) by {
        container::law_threads_round_trip(threads);
    }
    round_trip::law_finished_opens(threads, writers);
}

/// A finished thread is whole bytes.
proof fn lemma_sealed_whole(w: Writer, two_states: bool)
    ensures
        w.sealed(two_states).len() % 8 == 0,
{
    let n = w.terminated(two_states).len();
    assert(w.sealed(two_states).len() == n + (8 - n % 8) % 8);
}

/// The bits of a finished thread.
proof fn lemma_finished_bits(writers: Seq<Writer>, t: int)
    requires
        0 <= t < writers.len(),
    ensures
        stack::of_bytes(put::finished(writers)[t]) == writers[t].sealed(writers.len() == 1),
{
    lemma_sealed_whole(writers[t], writers.len() == 1);
    stack::lemma_bits_of_bytes(writers[t].sealed(writers.len() == 1));
}

/// A hyper-latent sample that has a symbol comes back from it.
pub proof fn law_z_samples_round_trip(samples: Seq<i8>, z_offset: i32)
    requires
        0 <= z_offset <= 128,
        forall|i: int|
            0 <= i < samples.len() ==> 0 <= #[trigger] samples[i] + z_offset <= 255,
    ensures
        entropy::z_samples(put::z_symbols(samples, z_offset), z_offset) == samples,
{
    let back = entropy::z_samples(put::z_symbols(samples, z_offset), z_offset);
    assert forall|i: int| 0 <= i < samples.len() implies back[i] == samples[i] by {
        assert(0 <= samples[i] + z_offset <= 255);
    }
    assert(back =~= samples);
}

/// Some region from the `r`-th on holds a sample.
pub open spec fn held(areas: Seq<Area>, r: int, x: int, y: int) -> bool {
    exists|i: int| r <= i < areas.len() && (#[trigger] areas[i]).holds(x, y)
}

/// Planes with the coded samples of all regions from the `r`-th on in place.
pub open spec fn all_restored(
    s: Shared,
    areas: Seq<Area>,
    values: Seq<i16>,
    dst: Seq<i16>,
    r: int,
) -> Seq<i16> {
    Seq::new(
        dst.len(),
        |p: int|
            {
                let (c, y, x) = (p / s.lw / s.lh, p / s.lw % s.lh, p % s.lw);
                if c < s.num_chs && held(areas, r, x, y) {
                    if s.mask[p] {
                        values[p]
                    } else {
                        0
                    }
                } else {
                    dst[p]
                }
            },
    )
}

/// The payloads of all regions of a component.
pub open spec fn component_payloads(s: Shared, areas: Seq<Area>, values: Seq<i16>) -> Seq<
    Option<Seq<u8>>,
> {
    Seq::new(areas.len(), |i: int| Some(put::region_payload(s, areas[i], values)))
}

/// The payload of a region is not too long to be split and read.
pub open spec fn payload_fits(s: Shared, area: Area, values: Seq<i16>) -> bool {
    &&& bitio::addressable(put::region_payload(s, area, values).len())
    &&& forall|t: int|
        0 <= t < s.num_threads ==> (#[trigger] put::finished(
            put::spec_put_region(s, area.clipped(s.lh, s.lw), values),
        )[t]).len() < 0x1_0000_0000
}

proof fn lemma_regions_back(
    pdf: &PdfTables,
    s: Shared,
    areas: Seq<Area>,
    values: Seq<i16>,
    dst: Seq<i16>,
    n: int,
    r: int,
)
    requires
        pdf.wf(),
        s.tables.of(pdf),
        1 <= s.num_threads <= 16,
        residual_codable(pdf, s, values),
        values.len() == n * s.lh * s.lw,
        s.scale.len() == values.len(),
        s.mask.len() == values.len(),
        0 < s.lh <= usize::MAX,
        0 < s.lw <= usize::MAX,
        0 <= s.num_chs <= n,
        s.num_decode == s.num_chs,
        dst.len() == values.len(),
        0 <= r <= areas.len(),
        forall|i: int| 0 <= i < areas.len() ==> payload_fits(s, #[trigger] areas[i], values),
    ensures
        entropy::spec_regions(s, areas, component_payloads(s, areas, values), dst, r) == Ok::<
            Seq<i16>,
            Error,
        >(all_restored(s, areas, values, dst, r)),
    decreases areas.len() - r,
{
    if r >= areas.len() {
        assert(all_restored(s, areas, values, dst, r) =~= dst);
    } else {
        let area = areas[r].clipped(s.lh, s.lw);
        let payloads = component_payloads(s, areas, values);
        assert(payload_fits(s, areas[r], values));
        let payload = put::region_payload(s, areas[r], values);
        let next = if area.height != 0 && area.width != 0 && s.num_decode != 0 {
            assert(area.clipped(s.lh, s.lw) == area);
            assert(payload == put::region_payload(s, area, values));
            law_region_round_trip(pdf, s, area, values, dst, n);
            restored(s, area, values, dst, 0)
        } else {
            dst
        };
        lemma_regions_back(pdf, s, areas, values, next, n, r + 1);
        let a = all_restored(s, areas, values, next, r + 1);
        let b = all_restored(s, areas, values, dst, r);
        assert forall|p: int| 0 <= p < dst.len() implies a[p] == b[p] by {
            let (c, y, x) = (p / s.lw / s.lh, p / s.lw % s.lh, p % s.lw);
            crate::tensor::lemma_parts_place(s.lh, s.lw, n, p);
            assert(areas[r].holds(x, y) == area.holds(x, y));
            if held(areas, r + 1, x, y) {
                let i = choose|i: int|
                    r + 1 <= i < areas.len() && (#[trigger] areas[i]).holds(x, y);
                assert(areas[i].holds(x, y));
                assert(held(areas, r, x, y));
            } else if held(areas, r, x, y) {
                let i = choose|i: int| r <= i < areas.len() && (#[trigger] areas[i]).holds(x, y);
                assert(i == r);
            }
        }
        assert(a =~= b);
    }
}

/// A component comes back from the payloads of its regions: every coded residual sample that lies
/// in some region, and zeros elsewhere.
pub proof fn law_component_round_trip(
    pdf: &PdfTables,
    s: Shared,
    areas: Seq<Area>,
    values: Seq<i16>,
    n: int,
)
    requires
        pdf.wf(),
        s.tables.of(pdf),
        1 <= s.num_threads <= 16,
        residual_codable(pdf, s, values),
        values.len() == n * s.lh * s.lw,
        s.scale.len() == values.len(),
        s.mask.len() == values.len(),
        0 < s.lh <= usize::MAX,
        0 < s.lw <= usize::MAX,
        0 <= s.num_chs <= n,
        s.num_decode == s.num_chs,
        forall|i: int| 0 <= i < areas.len() ==> payload_fits(s, #[trigger] areas[i], values),
    ensures
        ({
            let zeros = Seq::new(values.len(), |i: int| 0i16);
            entropy::spec_regions(s, areas, component_payloads(s, areas, values), zeros, 0) == Ok::<
                Seq<i16>,
                Error,
            >(all_restored(s, areas, values, zeros, 0))
        }),
{
    let zeros = Seq::new(values.len(), |i: int| 0i16);
    lemma_regions_back(pdf, s, areas, values, zeros, n, 0);
}

} // verus!

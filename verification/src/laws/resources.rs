//! Memory that is held and granted, requests to stop, and pictures in files.

use vstd::prelude::*;
use vstd::arithmetic::div_mod;
use vstd::arithmetic::power2;

use crate::container;
use crate::container::Marker;
use crate::decoder::budget;
use crate::decoder::budget::BudgetView;
use crate::decoder::output::RgbImage;
use crate::decoder::stats;
use crate::decoder::stats::StopKind;
use crate::encoder::assemble;
use crate::encoder::assemble::Parts;
use crate::encoder::residual as put;
use crate::mem;
use crate::mem::LedgerView;
use crate::png;
use crate::png::{PngInput, PngSamples};

verus! {

/// Bytes that are charged are held until they are released; the high-water mark keeps the most that
/// was ever held.
pub proof fn law_charges_are_held(v: LedgerView, n: int)
    requires
        v.wf(),
        0 <= n,
    ensures
        ({
            let c = v.charged(n);
            &&& c.live == v.live + n && c.parked == v.parked
            &&& c.total() == v.total() + n
            &&& c.high >= v.high && c.high >= c.total()
            &&& c.high == v.high || c.high == c.total()
            &&& c.watches.len() == v.watches.len()
            &&& c.released(n).live == v.live && c.released(n).total() == v.total()
            &&& c.released(n).high == c.high && c.released(n).watches == c.watches
        }),
{
}

/// A watch sees the most that was held above what was held when it started.
pub proof fn law_watches_see_charges(v: LedgerView, n: int, i: int)
    requires
        v.wf(),
        0 <= n,
        0 <= i < v.watches.len(),
        v.watches[i] is Some,
    ensures
        ({
            let (before, after) = (v.watches[i]->0, v.charged(n).watches[i]);
            let grown = v.total() + n - before.base;
            &&& after is Some
            &&& after->0.base == before.base && after->0.pool == before.pool
            &&& after->0.peak >= before.peak && after->0.peak >= grown
            &&& after->0.peak == before.peak || after->0.peak == grown
        }),
{
    assert(mem::kept_up(v.watches[i], v.total()));
}

/// A watch starts from what is held and has seen nothing.
pub proof fn law_watches_start_at_the_total(v: LedgerView)
    ensures
        v.fresh_watch().base == v.live + v.parked,
        v.fresh_watch().pool == v.parked,
        v.fresh_watch().peak == 0,
{
}

/// What one number has more than another; the smaller and the larger of two.
pub proof fn law_larger_and_smaller(a: int, b: int)
    ensures
        a >= b ==> mem::excess(a, b) == a - b,
        a <= b ==> mem::excess(a, b) == 0,
        mem::larger(a, b) >= a && mem::larger(a, b) >= b,
        mem::larger(a, b) == a || mem::larger(a, b) == b,
        mem::lesser(a, b) <= a && mem::lesser(a, b) <= b,
        mem::lesser(a, b) == a || mem::lesser(a, b) == b,
{
}

/// A job is granted if and only if its ticket is the oldest and there is room: for its bytes and one
/// more job, or for it alone where it is larger than the budget.
pub proof fn law_jobs_are_granted_where_they_fit(b: BudgetView, ticket: u64, estimate: u64)
    requires
        b.queue.len() > 0,
    ensures
        b.queue[0] != ticket ==> !b.fits(ticket, estimate),
        b.queue[0] == ticket && estimate <= b.bytes ==> (b.fits(ticket, estimate) <==> b.used()
            + estimate <= b.bytes && b.grants.len() < b.max_jobs),
        b.queue[0] == ticket && estimate > b.bytes ==> (b.fits(ticket, estimate)
            <==> b.grants.len() == 0),
{
    assert(b.grants.len() == 0 ==> b.used() == 0);
}

/// A grant takes the oldest ticket from the queue and adds its bytes to those that are out.
pub proof fn law_grants_take_the_oldest(b: BudgetView, estimate: u64, i: int)
    requires
        b.queue.len() > 0,
    ensures
        ({
            let g = b.granting(estimate);
            &&& g.queue.len() == b.queue.len() - 1
            &&& 0 <= i < g.queue.len() ==> g.queue[i] == b.queue[i + 1]
            &&& g.grants.len() == b.grants.len() + 1 && g.grants.last() == estimate
            &&& g.used() == b.used() + estimate
            &&& g.bytes == b.bytes && g.max_jobs == b.max_jobs && g.next == b.next
        }),
{
    budget::law_release_undoes_grant(b, estimate);
}

/// A ticket that is given up leaves the queue, and every other stays.
pub proof fn law_tickets_are_given_up(b: BudgetView, ticket: u64, other: u64)
    ensures
        ({
            let w = b.without(ticket);
            &&& !w.queue.contains(ticket)
            &&& other != ticket && b.queue.contains(other) ==> w.queue.contains(other)
            &&& w.queue.contains(other) ==> b.queue.contains(other)
            &&& w.grants == b.grants && w.bytes == b.bytes && w.next == b.next
        }),
{
    lemma_dropped(b.queue, ticket, other);
}

proof fn lemma_dropped(queue: Seq<u64>, ticket: u64, other: u64)
    ensures
        ({
            let w = budget::drop_ticket(queue, ticket);
            &&& !w.contains(ticket)
            &&& other != ticket ==> (w.contains(other) <==> queue.contains(other))
        }),
    decreases queue.len(),
{
    reveal(Seq::filter);
    if queue.len() > 0 {
        let front = queue.drop_last();
        let kept = budget::drop_ticket(front, ticket);
        let w = budget::drop_ticket(queue, ticket);
        lemma_dropped(front, ticket, other);
        assert(queue =~= front.push(queue.last()));
        if queue.last() != ticket {
            assert(w == kept.push(queue.last()));
            assert(w.last() == queue.last());
            assert(forall|k: int| 0 <= k < kept.len() ==> #[trigger] w[k] == kept[k]);
            if kept.contains(other) {
                let k = kept.index_of(other);
                assert(w[k] == other);
            }
        } else {
            assert(w == kept);
        }
        if front.contains(other) {
            let k = front.index_of(other);
            assert(queue[k] == other);
        }
    }
}

/// A job that ran out of time is told so; any other stop is a cancellation.
pub proof fn law_stops_tell_time_apart(kind: StopKind)
    ensures
        stats::stored(kind) == StopKind::TimedOut <==> kind == StopKind::TimedOut,
        kind != StopKind::TimedOut ==> stats::stored(kind) == StopKind::Cancelled,
{
}

/// A sample above 8 bit stands in the top bits of sixteen; the bits below are all set, so that the
/// largest sample stays the largest.
pub proof fn law_samples_are_lifted(data: Seq<u16>, bit_depth: u8, i: int)
    requires
        8 <= bit_depth <= 16,
        0 <= i < data.len(),
        data[i] < power2::pow2(bit_depth as nat),
    ensures
        ({
            let m = power2::pow2((16 - bit_depth) as nat) as int;
            let v = png::lifted(data, bit_depth)[i] as int;
            &&& png::lifted(data, bit_depth).len() == data.len()
            &&& v / m == data[i]
            &&& v % m == m - 1
            &&& data[i] == power2::pow2(bit_depth as nat) - 1 ==> v == 0xffff
        }),
{
    let m = power2::pow2((16 - bit_depth) as nat) as int;
    let d = data[i] as int;
    power2::lemma_pow2_pos((16 - bit_depth) as nat);
    power2::lemma_pow2_adds(bit_depth as nat, (16 - bit_depth) as nat);
    power2::lemma2_to64();
    let p = power2::pow2(bit_depth as nat) as int;
    assert(p * m == 0x1_0000);
    assert(0 <= d * m && d * m + m <= p * m) by (nonlinear_arith)
        requires
            0 <= d <= p - 1,
            1 <= m,
    ;
    if d == p - 1 {
        assert(d * m + m == p * m) by (nonlinear_arith)
            requires
                d == p - 1,
        ;
    }
    div_mod::lemma_fundamental_div_mod_converse(d * m + m - 1, m, d, m - 1);
}

/// Samples of sixteen bits are read as the nearest of 256 even levels where one of them has low
/// bits, and else as their high bytes.
pub proof fn law_deep_samples_are_read_nearest(samples: Seq<u16>, i: int)
    requires
        0 <= i < samples.len(),
    ensures
        png::reduced(samples).len() == samples.len(),
        samples[i] % 256 != 0 ==> -257 <= 514 * png::reduced(samples)[i] - 2 * samples[i] <= 257,
        (forall|k: int| 0 <= k < samples.len() ==> #[trigger] samples[k] % 256 == 0) ==> 256
            * png::reduced(samples)[i] == samples[i],
{
}

/// Samples of 8 bit keep their value in either width.
pub proof fn law_bytes_keep_their_value(samples: Seq<u8>, data: Seq<u16>, i: int)
    requires
        0 <= i < samples.len(),
        0 <= i < data.len(),
        data[i] < 256,
    ensures
        png::spread(samples).len() == samples.len(),
        png::spread(samples)[i] == samples[i],
        png::in_bytes(data).len() == data.len(),
        png::in_bytes(data)[i] == data[i],
        png::in_bytes(png::spread(samples)) == samples,
{
    assert(png::in_bytes(png::spread(samples)) =~= samples);
}

/// A picture is handed over in bytes if and only if it has 8 bits a sample, with its own size.
pub proof fn law_pictures_are_handed_over(p: PngInput, image: RgbImage)
    requires
        png::is_input(p, image),
    ensures
        p.width == image.width && p.height == image.height,
        p.samples is Eight <==> image.bit_depth == 8,
        p.samples matches PngSamples::Eight(v) ==> v@ == png::in_bytes(image.data@),
        p.samples matches PngSamples::Sixteen(v) ==> v@ == png::lifted(
            image.data@,
            image.bit_depth,
        ),
{
}

/// A PNG can be read if and only if one was found and it has samples.
pub proof fn law_readable_pngs(size: Option<(u32, u32)>)
    ensures
        png::spec_checked_size(size) is Ok <==> (size matches Some((w, h)) && w != 0 && h != 0),
        png::spec_checked_size(size) matches Ok((w, h)) ==> size matches Some((a, b)) && w == a
            && h == b,
        png::spec_checked_size(size) matches Err(e) ==> e is InvalidArgument,
{
}

/// A PNG starts with its signature and has its width and its height in four bytes each, the highest
/// first, behind the length and the name of its first chunk.
pub proof fn law_png_headers(b: Seq<u8>, width: int, height: int)
    requires
        png::begins_png(b, width, height),
    ensures
        b[0] == 0x89 && b[1] == 'P' as u8 && b[2] == 'N' as u8 && b[3] == 'G' as u8,
        b[4] == 13 && b[5] == 10 && b[6] == 26 && b[7] == 10,
        width == ((b[16] * 256 + b[17]) * 256 + b[18]) * 256 + b[19],
        height == ((b[20] * 256 + b[21]) * 256 + b[22]) * 256 + b[23],
{
    let t = b.take(8);
    assert(t[0] == b[0] && t[1] == b[1] && t[2] == b[2] && t[3] == b[3]);
    assert(t[4] == b[4] && t[5] == b[5] && t[6] == b[6] && t[7] == b[7]);
}

/// A codestream holds the picture, tool and rendering headers, the residual of luma and of chroma
/// and the hyper-latents, in this order.
pub proof fn law_streams_are_put_together_in_order(p: Parts, i: int)
    ensures
        ({
            let v = assemble::stream_pieces(p);
            let (l, c) = if p.independent {
                (p.luma.len() as int, p.chroma.len() as int)
            } else {
                (1, 1)
            };
            &&& v.len() == 3 + l + c + 1
            &&& v[0].0 == Marker::Pih && v[0].1 == p.pih
            &&& v[1].0 == Marker::Ton && v[1].1 == p.ton
            &&& v[2].0 == Marker::Rdi && v[2].1 == p.rdi
            &&& 0 <= i < l ==> v[3 + i].0 == Marker::Sorp
            &&& 0 <= i < c ==> v[3 + l + i].0 == Marker::Sors
            &&& v[3 + l + c].0 == Marker::Soz && v[3 + l + c].1 == p.soz
            &&& p.independent && 0 <= i < l ==> v[3 + i].1 == seq![i as u8] + p.luma[i]
            &&& p.independent && 0 <= i < c ==> v[3 + l + i].1 == seq![i as u8] + p.chroma[i]
            &&& !p.independent ==> v[3].1 == container::joined_regions(p.luma) && v[4].1
                == container::joined_regions(p.chroma)
        }),
{
    let v = assemble::stream_pieces(p);
    let head = seq![(Marker::Pih, p.pih), (Marker::Ton, p.ton), (Marker::Rdi, p.rdi)];
    let luma = assemble::residual_pieces(Marker::Sorp, p.luma, p.independent);
    let chroma = assemble::residual_pieces(Marker::Sors, p.chroma, p.independent);
    let (l, c) = (luma.len() as int, chroma.len() as int);
    assert(v[0] == head[0] && v[1] == head[1] && v[2] == head[2]);
    if 0 <= i < l {
        assert(v[3 + i] == luma[i]);
    }
    if 0 <= i < c {
        assert(v[3 + l + i] == chroma[i]);
    }
    if !p.independent {
        assert(v[3] == luma[0] && v[4] == chroma[0]);
    }
}

/// Hyper-latent symbols are their samples with the offset added.
pub proof fn law_hyper_symbols_are_offset(samples: Seq<i8>, z_offset: i32, i: int)
    requires
        0 <= i < samples.len(),
        0 <= samples[i] + z_offset <= 255,
    ensures
        put::z_symbols(samples, z_offset).len() == samples.len(),
        put::z_symbols(samples, z_offset)[i] - z_offset == samples[i],
{
}

} // verus!

//! Entropy coding of the hyper-latents and of the residual.
//!
//! The encoder runs the decoder's call order backwards: the entropy coder is last-in-first-out.

use vstd::prelude::*;
use vstd::arithmetic::div_mod;

use crate::area::Area;
use crate::container;
use crate::decoder::entropy;
use crate::decoder::entropy::{Cut, Shared};
use crate::encoder::assemble;
use crate::error::{Error, Result};
use crate::header::picture;
use crate::header::PictureHeader;
use crate::mans::decoder;
use crate::mans::encoder;
use crate::mans::encoder::Writer;
use crate::mans::decoder::ResidualCall;
use crate::mans::order;
use crate::mans::order::Step;
use crate::mans::stack;
use crate::mans::tables;
use crate::mans::tables::MAX_Z;
use crate::mans::{AnsEncoder, AnsTables};
use crate::mem;
use crate::mem::{Charge, Ledger};
use crate::residual;
use crate::tensor::Tensor;

verus! {

/// The first `k` chunks of a region are encoded, the last of them first.
pub open spec fn spec_put_chunks(
    s: Shared,
    cut: Cut,
    values: Seq<i16>,
    writers: Seq<Writer>,
    k: int,
) -> Seq<Writer>
    decreases k,
{
    if k <= 0 {
        writers
    } else {
        let c0 = (k - 1) * cut.step;
        spec_put_chunks(
            s,
            cut,
            values,
            encoder::spec_encode_residual(
                entropy::chunk_call(s.tables, writers.len() == 1, s.scale, s.mask, cut, c0),
                writers,
                residual::gathered(values, cut.lh, cut.lw, cut.area, c0, cut.end(c0)),
            ),
            k - 1,
        )
    }
}

/// Number of chunks of a region.
pub open spec fn chunk_count(cut: Cut) -> int {
    (cut.num_chs + cut.step - 1) / cut.step
}

/// Threads that have written nothing.
pub open spec fn fresh_threads(n: nat) -> Seq<Writer> {
    Seq::new(n, |i: int| Writer::fresh())
}

/// The byte ranges of finished threads.
pub open spec fn finished(writers: Seq<Writer>) -> Seq<Seq<u8>> {
    Seq::new(
        writers.len(),
        |t: int| stack::to_bytes(writers[t].sealed(writers.len() == 1)),
    )
}

/// How a region is cut for encoding: all coded channels.
pub open spec fn put_cut(s: Shared, area: Area) -> Cut {
    Cut::of(s.lh, s.lw, area, s.num_chs, s.num_chs, s.num_threads as int)
}

/// What the threads of a region have written.
pub open spec fn spec_put_region(s: Shared, area: Area, values: Seq<i16>) -> Seq<Writer> {
    let fresh = fresh_threads(s.num_threads);
    if area.height == 0 || area.width == 0 {
        fresh
    } else {
        let cut = put_cut(s, area);
        spec_put_chunks(s, cut, values, fresh, chunk_count(cut))
    }
}

/// The payload of a region.
pub open spec fn region_payload(s: Shared, area: Area, values: Seq<i16>) -> Seq<u8> {
    container::joined_threads(
        finished(spec_put_region(s, area.clipped(s.lh, s.lw), values)),
    )
}

/// No payload's finished threads hold more than so many bytes.
pub const MAX_HELD: u64 = 4_257_600_000;

/// Bytes that finished threads hold.
pub open spec fn held(writers: Seq<Writer>) -> int {
    container::flat(finished(writers)).len() as int
}

/// Most that the finished threads of the first `n` regions hold, one region after the other.
pub open spec fn regions_held(s: Shared, areas: Seq<Area>, values: Seq<i16>, n: int) -> int
    decreases n,
{
    if n <= 0 {
        0
    } else {
        mem::larger(
            regions_held(s, areas, values, n - 1),
            held(spec_put_region(s, areas[n - 1].clipped(s.lh, s.lw), values)),
        )
    }
}

/// Join finished threads into a payload. They are charged to the ledger while they are held.
pub fn join_finished(ledger: &mut Ledger, parts: Vec<Vec<u8>>) -> (out: Vec<u8>)
    requires
        old(ledger).wf(),
        old(ledger)@.total() + container::flat(assemble::byte_strings(parts@)).len() <= usize::MAX,
        forall|i: int| 0 <= i < parts@.len() ==> (#[trigger] parts@[i])@.len() < 0x1_0000_0000,
    ensures
        final(ledger).wf(),
        final(ledger)@ == old(ledger)@.visited(
            container::flat(assemble::byte_strings(parts@)).len() as int,
        ),
        out@ == container::joined_threads(assemble::byte_strings(parts@)),
{
    let ghost all = assemble::byte_strings(parts@);
    let mut refs: Vec<&[u8]> = Vec::new();
    let mut bytes: usize = 0;
    proof {
        assert(all.take(0) =~= Seq::empty());
    }
    while refs.len() < parts.len()
        invariant
            refs@.len() <= parts@.len(),
            all == assemble::byte_strings(parts@),
            container::flat(all).len() <= usize::MAX,
            bytes == container::flat(all.take(refs@.len() as int)).len(),
            forall|i: int| 0 <= i < refs@.len() ==> (#[trigger] refs@[i])@ == parts@[i]@,
        decreases parts@.len() - refs@.len(),
    {
        let i: usize = refs.len();
        proof {
            container::lemma_flat(all, i as int);
        }
        bytes = bytes + parts[i].len();
        refs.push(parts[i].as_slice());
    }
    proof {
        assert(all.take(refs@.len() as int) =~= all);
        assert(container::contents(refs@) =~= all);
    }
    let charge = Charge::new(ledger, bytes);
    let out: Vec<u8> = container::join_threads(&refs);
    charge.discharge(ledger);
    out
}

/// Most that a step writes.
proof fn lemma_put_step_len(call: ResidualCall, w: Writer, values: Seq<i16>, step: Step)
    requires
        call.tables.wf(),
    ensures
        w.bits.len() <= call.put_step(w, values, step).bits.len() <= w.bits.len() + 112,
{
    reveal(ResidualCall::put_step);
    match step {
        Step::Group { at, by } => {
            let (i0, i1, i2, i3) = (at, at + by, at + 2 * by, at + 3 * by);
            let a = call.put_outbound(w, i3, values[i3]);
            let b = call.put_outbound(a, i2, values[i2]);
            let c = call.put_outbound(b, i1, values[i1]);
            let d = call.put_outbound(c, i0, values[i0]);
            let e = call.put_inbound(d, i3, values[i3]);
            let f = call.put_inbound(e, i2, values[i2]);
            let g = call.put_inbound(f, i1, values[i1]);
            lemma_outbound_len(call, w, i3, values[i3]);
            lemma_outbound_len(call, a, i2, values[i2]);
            lemma_outbound_len(call, b, i1, values[i1]);
            lemma_outbound_len(call, c, i0, values[i0]);
            lemma_inbound_len(call, d, i3, values[i3]);
            lemma_inbound_len(call, e, i2, values[i2]);
            lemma_inbound_len(call, f, i1, values[i1]);
            lemma_inbound_len(call, g, i0, values[i0]);
        },
        Step::One(i) => {
            let a = call.put_outbound(w, i, values[i]);
            lemma_outbound_len(call, w, i, values[i]);
            lemma_inbound_len(call, a, i, values[i]);
        },
        Step::Refill => {},
    }
}

proof fn lemma_outbound_len(call: ResidualCall, w: Writer, i: int, value: i16)
    ensures
        w.bits.len() <= call.put_outbound(w, i, value).bits.len() <= w.bits.len() + 17,
{
    reveal(ResidualCall::put_outbound);
}

proof fn lemma_inbound_len(call: ResidualCall, w: Writer, i: int, value: i16)
    requires
        call.tables.wf(),
    ensures
        w.bits.len() <= call.put_inbound(w, i, value).bits.len() <= w.bits.len() + 11,
{
    reveal(ResidualCall::put_inbound);
    let d = call.dist(i);
    let t = call.tables;
    assert(t.encode@[d]@.len() == 256);
    assert(1 <= t.bounds@[d] <= 128);
    assert(tables::row_small(t.decode@[d]@, t.encode@[d]@));
    let symbol = encoder::symbol_for(value, call.bound(i));
    assert(t.encode@[d]@[symbol + 128] / 0x1_0000 <= 2816);
}

/// Most that an order writes.
proof fn lemma_put_run_len(call: ResidualCall, w: Writer, values: Seq<i16>, steps: Seq<Step>)
    requires
        call.tables.wf(),
    ensures
        w.bits.len() <= call.put_run(w, values, steps).bits.len() <= w.bits.len() + 112
            * steps.len(),
    decreases steps.len(),
{
    if steps.len() > 0 {
        lemma_put_step_len(call, w, values, steps.last());
        lemma_put_run_len(
            call,
            call.put_step(w, values, steps.last()),
            values,
            steps.drop_last(),
        );
    }
}

/// Number of steps of an order.
proof fn lemma_order_len(len: nat, first: int, n: int)
    requires
        1 <= n,
        0 <= first < n,
    ensures
        order::residual_order(len as int, first, n).len() <= len as int / 4 + 8,
{
    order::lemma_groups_end(len as int, n, first);
    let q = len as int / (4 * n);
    if n == 1 {
        assert(4 * n == 4);
    } else {
        assert(q <= len as int / 4) by {
            div_mod::lemma_div_denominator(len as int, 4, n);
            div_mod::lemma_div_pos_is_pos(len as int, 4);
            div_mod::lemma_div_is_ordered_by_denominator(
                len as int / 4,
                1,
                n,
            );
            assert((len as int / 4) / 1 == len as int / 4);
        }
        let done = q * (4 * n) + first;
        if done < len {
            let c = order::count_from(len as int, done, n);
            order::lemma_count_from(len as int, done, n, 4);
            assert(c <= 4) by {
                assert(n * 4 == 4 * n);
            }
        }
    }
}

/// Most that a call writes on a thread.
proof fn lemma_encode_len(call: ResidualCall, writers: Seq<Writer>, values: Seq<i16>, t: int)
    requires
        call.tables.wf(),
        0 <= t < writers.len(),
    ensures
        encoder::spec_encode_residual(call, writers, values)[t].bits.len() <= writers[t].bits.len()
            + 28 * values.len() + 896,
{
    let n = writers.len() as int;
    let steps = order::residual_order(values.len() as int, t, n);
    lemma_order_len(values.len(), t, n);
    lemma_put_run_len(call, writers[t], values, steps);
}

/// The length of joined parts that are all small.
pub proof fn lemma_flat_small(parts: Seq<Seq<u8>>, each: nat)
    requires
        forall|i: int| 0 <= i < parts.len() ==> (#[trigger] parts[i]).len() <= each,
    ensures
        container::flat(parts).len() <= parts.len() * each,
    decreases parts.len(),
{
    if parts.len() > 0 {
        let front = parts.drop_last();
        assert forall|i: int| 0 <= i < front.len() implies (#[trigger] front[i]).len() <= each by {
            assert(parts[i].len() <= each);
        }
        lemma_flat_small(front, each);
        assert(parts[parts.len() - 1].len() <= each);
        assert((parts.len() - 1) * each + each == parts.len() * each) by (nonlinear_arith);
    } else {
        assert(0 * each == 0);
    }
}

/// A finished thread is little longer than what was written.
pub proof fn lemma_sealed_len(w: Writer, two_states: bool)
    ensures
        stack::to_bytes(w.sealed(two_states)).len() <= (w.bits.len() + 24) / 8,
{
}

/// Number of chunks, and where the last one starts.
proof fn lemma_chunk_count(num: int, step: int)
    requires
        0 <= num,
        1 <= step,
    ensures
        num > 0 ==> (num - 1) / step + 1 == (num + step - 1) / step,
        num == 0 ==> (num + step - 1) / step == 0,
        num > 0 ==> ((num - 1) / step) * step < num,
        num > 0 ==> 0 <= (num - 1) / step < num,
{
    if num > 0 {
        let q = (num - 1) / step;
        let r = (num - 1) % step;
        div_mod::lemma_fundamental_div_mod(num - 1, step);
        div_mod::lemma_mod_bound(num - 1, step);
        div_mod::lemma_div_pos_is_pos(num - 1, step);
        assert(num - 1 + step == (q + 1) * step + r) by (nonlinear_arith)
            requires
                num - 1 == step * q + r,
        ;
        div_mod::lemma_fundamental_div_mod_converse(num - 1 + step, step, q + 1, r);
        assert(q * step <= num - 1) by (nonlinear_arith)
            requires
                num - 1 == step * q + r,
                r >= 0,
        ;
        assert(q <= q * step) by (nonlinear_arith)
            requires
                q >= 0,
                step >= 1,
        ;
    } else {
        div_mod::lemma_basic_div(step - 1, step);
    }
}

/// Everything a region's residual encode needs that is shared with its siblings.
struct ResidualCtx<'a> {
    tables: &'a AnsTables,
    scale_log: &'a Tensor<i32>,
    mask: &'a Tensor<bool>,
    residual_q: &'a Tensor<i16>,
    lh: usize,
    lw: usize,
    num_chs: usize,
    num_threads: usize,
}

impl<'a> ResidualCtx<'a> {
    spec fn shared(&self) -> Shared {
        Shared {
            tables: self.tables.residual(),
            scale: self.scale_log.data@,
            mask: self.mask.data@,
            lh: self.lh as int,
            lw: self.lw as int,
            num_chs: self.num_chs as int,
            num_decode: self.num_chs as int,
            num_threads: self.num_threads as nat,
        }
    }

    /// The maps and the residual cover every coded channel, and are not too large.
    spec fn wf(&self) -> bool {
        &&& self.tables.wf()
        &&& self.residual_q.is_of(self.residual_q.c as int, self.lh as int, self.lw as int)
        &&& self.scale_log.is_of(self.residual_q.c as int, self.lh as int, self.lw as int)
        &&& self.mask.is_of(self.residual_q.c as int, self.lh as int, self.lw as int)
        &&& self.num_chs <= self.residual_q.c
        &&& 1 <= self.residual_q.c <= 256
        &&& self.residual_q.data@.len() <= 76_000_000
        &&& 1 <= self.num_threads <= 16
    }

    /// One chunk of channels of a region.
    fn encode_chunk(
        &self,
        enc: &mut AnsEncoder<'a>,
        area: Area,
        step: usize,
        c0: usize,
        Ghost(cut): Ghost<Cut>,
    ) -> (r: Result<()>)
        requires
            self.wf(),
            old(enc).wf(),
            old(enc).tables() == self.tables.residual(),
            0 < area.height,
            0 < area.width,
            area.y + area.height <= self.lh,
            area.x + area.width <= self.lw,
            c0 < self.num_chs,
            1 <= step,
            cut == (Cut {
                lh: self.lh as int,
                lw: self.lw as int,
                area,
                num_chs: self.num_chs as int,
                num_decode: self.num_chs as int,
                step: step as int,
            }),
        ensures
            r == Ok::<(), Error>(()),
            final(enc).wf(),
            final(enc).tables() == self.tables.residual(),
            final(enc).writers() == encoder::spec_encode_residual(
                entropy::chunk_call(
                    self.shared().tables,
                    old(enc).writers().len() == 1,
                    self.shared().scale,
                    self.shared().mask,
                    cut,
                    c0 as int,
                ),
                old(enc).writers(),
                residual::gathered(
                    self.residual_q.data@,
                    cut.lh,
                    cut.lw,
                    area,
                    c0 as int,
                    cut.end(c0 as int),
                ),
            ),
    {
        let c1: usize = if step < self.num_chs - c0 { c0 + step } else { self.num_chs };
        let ghost n = self.residual_q.c as int;
        let (lh, lw): (usize, usize) = (self.lh, self.lw);
        let scales = residual::gather(&self.scale_log.data, lh, lw, area, c0, c1, Ghost(n));
        let coded = residual::gather(&self.mask.data, lh, lw, area, c0, c1, Ghost(n));
        let values = residual::gather(&self.residual_q.data, lh, lw, area, c0, c1, Ghost(n));
        let mut sigma: Vec<u8> = Vec::new();
        while sigma.len() < scales.len()
            invariant
                sigma@.len() <= scales@.len(),
                forall|i: int|
                    0 <= i < sigma@.len() ==> #[trigger] sigma@[i] == residual::spec_distribution(
                        scales@[i],
                    ),
            decreases scales@.len() - sigma@.len(),
        {
            sigma.push(residual::distribution_index(scales[sigma.len()]));
        }
        proof {
            assert(c1 == cut.end(c0 as int));
            assert(sigma@ =~= entropy::distributions(scales@));
        }
        enc.encode_residual(&sigma, &coded, &values)
    }

    /// One region: its chunks, the last one first.
    fn encode_region(&self, ledger: &mut Ledger, area: Area) -> (r: Result<Vec<u8>>)
        requires
            self.wf(),
            old(ledger).wf(),
            old(ledger)@.total() + MAX_HELD <= usize::MAX,
            area.height > 0 ==> area.y + area.height <= self.lh,
            area.width > 0 ==> area.x + area.width <= self.lw,
        ensures
            final(ledger).wf(),
            final(ledger)@ == old(ledger)@.visited(
                held(spec_put_region(self.shared(), area, self.residual_q.data@)),
            ),
            r matches Ok(payload) && payload@ == container::joined_threads(
                finished(spec_put_region(self.shared(), area, self.residual_q.data@)),
            ),
    {
        let mut enc = self.tables.encoder(self.num_threads)?;
        let ghost s = self.shared();
        let ghost vals = self.residual_q.data@;
        proof {
            assert(enc.writers() =~= fresh_threads(s.num_threads));
        }
        if area.height != 0 && area.width != 0 {
            self.encode_chunks(&mut enc, area)?;
        }
        let ghost writers = enc.writers();
        proof {
            assert(writers == spec_put_region(s, area, vals));
            assert forall|t: int| 0 <= t < writers.len() implies (#[trigger] writers[t]).bits.len()
                <= 2_128_300_000 by {}
        }
        let parts: Vec<Vec<u8>> = enc.finish();
        proof {
            let all = assemble::byte_strings(parts@);
            assert forall|i: int| 0 <= i < all.len() implies all[i] == finished(writers)[i] by {
                stack::lemma_bytes_of_bits(parts@[i]@);
            }
            assert(all =~= finished(writers));
            assert forall|i: int| 0 <= i < all.len() implies (#[trigger] all[i]).len()
                <= 266_100_000 by {
                lemma_sealed_len(writers[i], writers.len() == 1);
            }
            lemma_flat_small(all, 266_100_000);
            assert(all.len() * 266_100_000 <= 16 * 266_100_000);
            assert forall|i: int| 0 <= i < parts@.len() implies (#[trigger] parts@[i])@.len()
                < 0x1_0000_0000 by {
                assert(all[i] == parts@[i]@);
            }
        }
        Ok(join_finished(ledger, parts))
    }

    /// The chunks of a region, the last one first.
    fn encode_chunks(&self, enc: &mut AnsEncoder<'a>, area: Area) -> (r: Result<()>)
        requires
            self.wf(),
            old(enc).wf(),
            old(enc).tables() == self.tables.residual(),
            old(enc).writers() == fresh_threads(self.num_threads as nat),
            0 < area.height,
            0 < area.width,
            area.y + area.height <= self.lh,
            area.x + area.width <= self.lw,
        ensures
            r == Ok::<(), Error>(()),
            final(enc).wf(),
            final(enc).writers() == spec_put_region(self.shared(), area, self.residual_q.data@),
            final(enc).writers().len() == self.num_threads,
            forall|t: int|
                0 <= t < final(enc).writers().len() ==> (
                #[trigger] final(enc).writers()[t]).bits.len() <= 2_128_300_000,
    {
        let ghost s = self.shared();
        let ghost vals = self.residual_q.data@;
        let ghost cut = put_cut(s, area);
        let ghost fresh = fresh_threads(s.num_threads);
        proof {
            entropy::lemma_region_area(
                vals.len(),
                self.residual_q.c as int,
                s.lh,
                s.lw,
                area,
                s.num_chs,
            );
        }
        let step: usize = residual::channel_step(
            area.height,
            area.width,
            self.num_chs,
            self.num_threads,
        );
        let mut k: usize = if self.num_chs == 0 { 0 } else { (self.num_chs - 1) / step + 1 };
        proof {
            lemma_chunk_count(s.num_chs, step as int);
            assert(cut.step == step);
        }
        let ghost count = k as int;
        let ghost unit = area.height * area.width;
        proof {
            assert(unit >= 1) by (nonlinear_arith)
                requires
                    unit == area.height * area.width,
                    area.height >= 1,
                    area.width >= 1,
            ;
        }
        let ghost mut coded: int = 0;
        while k > 0
            invariant
                self.wf(),
                enc.wf(),
                enc.tables() == self.tables.residual(),
                enc.writers().len() == self.num_threads,
                0 < area.height,
                0 < area.width,
                area.y + area.height <= self.lh,
                area.x + area.width <= self.lw,
                1 <= step,
                s == self.shared(),
                vals == self.residual_q.data@,
                cut == put_cut(s, area),
                cut.step == step,
                k <= count,
                count <= self.num_chs,
                count == chunk_count(cut),
                self.num_chs > 0 ==> (count - 1) * step < self.num_chs,
                unit == area.height * area.width,
                unit >= 1,
                unit * self.num_chs <= vals.len(),
                0 <= coded,
                coded <= unit * (self.num_chs - k * step) || coded <= 0,
                coded == 0 ==> k == count,
                forall|t: int|
                    0 <= t < enc.writers().len() ==> (#[trigger] enc.writers()[t]).bits.len() <= 28
                        * coded + 896 * (count - k),
                spec_put_chunks(s, cut, vals, fresh, count) == spec_put_chunks(
                    s,
                    cut,
                    vals,
                    enc.writers(),
                    k as int,
                ),
            decreases k,
        {
            k = k - 1;
            proof {
                assert(k * step < self.num_chs) by (nonlinear_arith)
                    requires
                        k <= count - 1,
                        (count - 1) * step < self.num_chs,
                        step >= 1,
                ;
            }
            let c0: usize = k * step;
            let ghost before = enc.writers();
            self.encode_chunk(enc, area, step, c0, Ghost(cut))?;
            proof {
                let call = entropy::chunk_call(
                    s.tables,
                    before.len() == 1,
                    s.scale,
                    s.mask,
                    cut,
                    c0 as int,
                );
                let part = residual::gathered(
                    vals,
                    cut.lh,
                    cut.lw,
                    area,
                    c0 as int,
                    cut.end(c0 as int),
                );
                let len = residual::chunk_len(area, c0 as int, cut.end(c0 as int));
                let width = cut.end(c0 as int) - c0;
                assert(len == unit * width) by (nonlinear_arith)
                    requires
                        len == width * area.height * area.width,
                        unit == area.height * area.width,
                ;
                assert(len >= 0) by (nonlinear_arith)
                    requires
                        len == unit * width,
                        unit >= 0,
                        width >= 0,
                ;
                assert(part.len() == len);
                assert forall|t: int| 0 <= t < enc.writers().len() implies (
                #[trigger] enc.writers()[t]).bits.len() <= 28 * (coded + len) + 896 * (count
                    - k) by {
                    lemma_encode_len(call, before, part, t);
                    assert(before[t].bits.len() <= 28 * coded + 896 * (count - (k + 1)));
                }
                let old_coded = coded;
                coded = coded + len;
                assert(coded <= unit * (self.num_chs - k * step)) by {
                    if old_coded == 0 {
                        assert(unit * width <= unit * (self.num_chs - k * step))
                            by (nonlinear_arith)
                            requires
                                width <= self.num_chs - k * step,
                                unit >= 0,
                        ;
                    } else {
                        assert((k + 1) * step == k * step + step) by (nonlinear_arith);
                        assert(unit * (self.num_chs - (k + 1) * step) + unit * width <= unit * (
                        self.num_chs - k * step)) by (nonlinear_arith)
                            requires
                                width <= step,
                                unit >= 0,
                                (k + 1) * step == k * step + step,
                        ;
                    }
                }
                assert(len > 0) by (nonlinear_arith)
                    requires
                        len == unit * width,
                        unit >= 1,
                        width >= 1,
                ;
            }
        }
        proof {
            assert(unit * (self.num_chs - 0 * step) == unit * self.num_chs) by (nonlinear_arith);
            assert(coded <= vals.len());
        }
        Ok(())
    }
}

/// What all regions of a component share when it is encoded.
pub open spec fn put_shared(
    tables: tables::ResidualTables,
    hdr: PictureHeader,
    ccs: int,
    scale_log: Tensor<i32>,
    mask: Tensor<bool>,
) -> Shared {
    entropy::shared_of(
        tables,
        hdr.components@[ccs],
        picture::spec_latent_size(hdr.height as int, hdr.width as int, ccs),
        scale_log,
        mask,
        None,
    )
}

/// The residual payloads of one component, one per region, each walking the decoder's
/// channel-chunk loop backwards.
///
/// A picture of at most 120 megapixels has at most some 75.7 million residual samples per
/// component. The finished threads of a region are charged to the ledger while they are held.
pub fn encode_residual(
    ledger: &mut Ledger,
    tables: &AnsTables,
    hdr: &PictureHeader,
    ccs: usize,
    scale_log: &Tensor<i32>,
    mask: &Tensor<bool>,
    residual_q: &Tensor<i16>,
    areas: &[Area],
) -> (r: Result<Vec<Vec<u8>>>)
    requires
        tables.wf(),
        ccs < 2,
        1 <= residual_q.c <= 256,
        residual_q.data@.len() <= 76_000_000,
        ({
            let size = picture::spec_latent_size(
                hdr.height as int,
                hdr.width as int,
                ccs as int,
            );
            &&& residual_q.is_of(residual_q.c as int, size.0, size.1)
            &&& scale_log.is_of(residual_q.c as int, size.0, size.1)
            &&& mask.is_of(residual_q.c as int, size.0, size.1)
        }),
        old(ledger).wf(),
        old(ledger)@.total() + MAX_HELD <= usize::MAX,
    ensures
        final(ledger).wf(),
        ({
            let s = put_shared(tables.residual(), *hdr, ccs as int, *scale_log, *mask);
            final(ledger)@ == if s.num_threads == 0 || s.num_threads > 16 {
                old(ledger)@
            } else {
                old(ledger)@.visited(
                    regions_held(s, areas@, residual_q.data@, areas@.len() as int),
                )
            }
        }),
        ({
            let s = put_shared(tables.residual(), *hdr, ccs as int, *scale_log, *mask);
            if areas@.len() > 0 && (s.num_threads == 0 || s.num_threads > 16) {
                r == Err::<Vec<Vec<u8>>, Error>(
                    Error::InvalidArgument("thread count out of range"),
                )
            } else {
                &&& r matches Ok(payloads)
                &&& payloads@.len() == areas@.len()
                &&& forall|i: int|
                    0 <= i < areas@.len() ==> (#[trigger] payloads@[i])@ == region_payload(
                        s,
                        areas@[i],
                        residual_q.data@,
                    )
            }
        }),
{
    let (lh, lw): (u32, u32) = hdr.latent_size(ccs);
    let coded: usize = hdr.components[ccs].num_chs as usize;
    let num_chs: usize = if coded < residual_q.c { coded } else { residual_q.c };
    let num_threads: usize = hdr.components[ccs].num_threads_r as usize;
    let mut out: Vec<Vec<u8>> = Vec::new();
    if areas.len() == 0 {
        return Ok(out);
    }
    if num_threads == 0 || num_threads > 16 {
        return Err(Error::InvalidArgument("thread count out of range"));
    }
    let ctx = ResidualCtx {
        tables,
        scale_log,
        mask,
        residual_q,
        lh: lh as usize,
        lw: lw as usize,
        num_chs,
        num_threads,
    };
    let ghost s = ctx.shared();
    while out.len() < areas.len()
        invariant
            out@.len() <= areas@.len(),
            ctx.wf(),
            s == ctx.shared(),
            s == put_shared(tables.residual(), *hdr, ccs as int, *scale_log, *mask),
            ctx.residual_q.data@ == residual_q.data@,
            ledger.wf(),
            old(ledger).wf(),
            old(ledger)@.total() + MAX_HELD <= usize::MAX,
            ledger@ == old(ledger)@.visited(
                regions_held(s, areas@, residual_q.data@, out@.len() as int),
            ),
            forall|i: int|
                0 <= i < out@.len() ==> (#[trigger] out@[i])@ == region_payload(
                    s,
                    areas@[i],
                    residual_q.data@,
                ),
        decreases areas@.len() - out@.len(),
    {
        let area: Area = areas[out.len()].clip(ctx.lh, ctx.lw);
        let payload: Vec<u8> = ctx.encode_region(ledger, area)?;
        out.push(payload);
    }
    Ok(out)
}

/// Hyper-latent samples as symbols.
pub open spec fn z_symbols(samples: Seq<i8>, z_offset: i32) -> Seq<u8> {
    Seq::new(samples.len(), |i: int| (samples[i] + z_offset) as u8)
}

/// Write the hyper-latent of one component: samples in `[-z_offset, 63 - z_offset]`, one CDF per
/// channel. The components are written in the reverse of the order in which they are read.
pub fn encode_z(
    enc: &mut AnsEncoder<'_>,
    cdfs: &[[u8; MAX_Z]],
    z_offset: i32,
    z_hat: &Tensor<i8>,
) -> (r: Result<()>)
    requires
        old(enc).wf(),
        z_hat.wf(),
        z_hat.c == cdfs@.len(),
        z_hat.h * z_hat.w <= usize::MAX,
        0 <= z_offset <= 128,
        forall|i: int|
            0 <= i < z_hat.data@.len() ==> 0 <= #[trigger] z_hat.data@[i] + z_offset <= 255,
    ensures
        final(enc).wf(),
        final(enc).tables() == old(enc).tables(),
        ({
            let symbols = z_symbols(z_hat.data@, z_offset);
            let size = (z_hat.h * z_hat.w) as nat;
            let unchanged = final(enc).writers() == old(enc).writers();
            if !encoder::symbols_in_range(symbols) {
                r == Err::<(), Error>(Error::InvalidArgument("encode_z: symbol out of range"))
                    && unchanged
            } else if size == 0 {
                r == Ok::<(), Error>(()) && unchanged
            } else {
                let m = encoder::spec_encode_z(
                    decoder::cdf_views(cdfs@),
                    size,
                    old(enc).writers(),
                    symbols,
                    cdfs@.len() as int,
                );
                &&& final(enc).writers() == m.0
                &&& r == if m.1 {
                    Ok::<(), Error>(())
                } else {
                    Err::<(), Error>(Error::InvalidArgument("z CDF is not monotonic"))
                }
            }
        }),
{
    let mut symbols: Vec<u8> = Vec::new();
    let count: usize = z_hat.data.len();
    while symbols.len() < count
        invariant
            symbols@.len() <= count,
            count == z_hat.data@.len(),
            0 <= z_offset <= 128,
            forall|i: int|
                0 <= i < z_hat.data@.len() ==> 0 <= #[trigger] z_hat.data@[i] + z_offset <= 255,
            forall|i: int|
                0 <= i < symbols@.len() ==> #[trigger] symbols@[i] == z_hat.data@[i] + z_offset,
        decreases count - symbols@.len(),
    {
        proof {
            assert(0 <= z_hat.data@[symbols@.len() as int] + z_offset <= 255);
        }
        let v: i32 = z_hat.data[symbols.len()] as i32 + z_offset;
        symbols.push(v as u8);
    }
    proof {
        assert forall|i: int| 0 <= i < symbols@.len() implies symbols@[i] == z_symbols(
            z_hat.data@,
            z_offset,
        )[i] by {
            assert(0 <= z_hat.data@[i] + z_offset <= 255);
        }
        assert(symbols@ =~= z_symbols(z_hat.data@, z_offset));
        assert(z_hat.c * (z_hat.h * z_hat.w) == z_hat.c * z_hat.h * z_hat.w) by (nonlinear_arith);
    }
    enc.encode_z(cdfs, z_hat.h * z_hat.w, &symbols)
}

} // verus!

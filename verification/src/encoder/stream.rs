//! An encode from quantised components to the bytes of its codestream.

use vstd::prelude::*;
use vstd::arithmetic::div_mod;

use crate::area::Area;
use crate::bitio;
use crate::bits;
use crate::container;
use crate::container::{Marker, Piece, RegionLayout};
use crate::decoder::entropy;
use crate::decoder::front;
use crate::decoder::headers;
use crate::encoder::assemble;
use crate::encoder::assemble::Parts;
use crate::encoder::residual as put;
use crate::encoder::round_trip as back;
use crate::error::{Error, Result};
use crate::header::picture;
use crate::header::rendering;
use crate::header::tools;
use crate::header::{PictureHeader, RenderingInfo, ToolHeader};
use crate::mans::decoder;
use crate::mans::decoder::Reader;
use crate::mans::encoder;
use crate::mans::encoder::{PutZCall, Writer};
use crate::mans::order;
use crate::mans::order::Step;
use crate::mans::round_trip;
use crate::mans::stack;
use crate::mans::tables;
use crate::mans::tables::{PdfTables, MAX_Z};
use crate::mans::{AnsEncoder, AnsTables};
use crate::mem;
use crate::mem::Ledger;
use crate::tensor::Tensor;

verus! {

/// What a component hands to the entropy coder.
pub struct Coded<'a> {
    /// The hyper-latent.
    pub z_hat: &'a Tensor<i8>,
    /// One CDF per channel of the hyper-latent.
    pub z_cdfs: &'a [[u8; MAX_Z]],
    pub scale_log: &'a Tensor<i32>,
    /// Which residual samples are coded.
    pub mask: &'a Tensor<bool>,
    pub residual_q: &'a Tensor<i16>,
    /// The regions on the latent planes.
    pub areas: &'a [Area],
}

impl<'a> Coded<'a> {
    /// The hyper-latent has a CDF for each channel and symbols that fit in a byte.
    pub open spec fn z_fits(self, z_offset: i32) -> bool {
        &&& self.z_hat.wf()
        &&& self.z_hat.c == self.z_cdfs@.len()
        &&& self.z_hat.c <= 256
        &&& self.z_hat.h * self.z_hat.w <= usize::MAX
        &&& self.z_hat.data@.len() <= 8_000_000
        &&& forall|i: int|
            0 <= i < self.z_hat.data@.len() ==> 0 <= #[trigger] self.z_hat.data@[i] + z_offset
                <= 255
    }

    /// The planes are the latent planes of a component of a picture of this size.
    pub open spec fn planes_of(self, height: int, width: int, ccs: int) -> bool {
        let size = picture::spec_latent_size(height, width, ccs);
        let c = self.residual_q.c;
        &&& 1 <= c <= 256
        &&& self.residual_q.data@.len() <= 76_000_000
        &&& self.residual_q.is_of(c as int, size.0, size.1)
        &&& self.scale_log.is_of(c as int, size.0, size.1)
        &&& self.mask.is_of(c as int, size.0, size.1)
    }

    /// The planes are the latent planes of a component of the picture.
    pub open spec fn planes_fit(self, hdr: PictureHeader, ccs: int) -> bool {
        self.planes_of(hdr.height as int, hdr.width as int, ccs)
    }

    /// The symbols of the hyper-latent.
    pub open spec fn symbols(self, z_offset: i32) -> Seq<u8> {
        put::z_symbols(self.z_hat.data@, z_offset)
    }

    /// The threads after the hyper-latent.
    pub open spec fn z_written(self, z_offset: i32, writers: Seq<Writer>) -> core::result::Result<
        Seq<Writer>,
        Error,
    > {
        let size = (self.z_hat.h * self.z_hat.w) as nat;
        if !encoder::symbols_in_range(self.symbols(z_offset)) {
            Err(Error::InvalidArgument("encode_z: symbol out of range"))
        } else if size == 0 {
            Ok(writers)
        } else {
            let m = encoder::spec_encode_z(
                decoder::cdf_views(self.z_cdfs@),
                size,
                writers,
                self.symbols(z_offset),
                self.z_cdfs@.len() as int,
            );
            if m.1 {
                Ok(m.0)
            } else {
                Err(Error::InvalidArgument("z CDF is not monotonic"))
            }
        }
    }

    /// The residual payloads, one per region.
    pub open spec fn payloads(
        self,
        tables: tables::ResidualTables,
        hdr: PictureHeader,
        ccs: int,
    ) -> core::result::Result<Seq<Seq<u8>>, Error> {
        let s = put::put_shared(tables, hdr, ccs, *self.scale_log, *self.mask);
        if self.areas@.len() > 0 && (s.num_threads == 0 || s.num_threads > 16) {
            Err(Error::InvalidArgument("thread count out of range"))
        } else {
            Ok(
                Seq::new(
                    self.areas@.len(),
                    |i: int| put::region_payload(s, self.areas@[i], self.residual_q.data@),
                ),
            )
        }
    }

    /// Most that the finished threads of the residual hold, if there are any.
    pub open spec fn residual_held(
        self,
        tables: tables::ResidualTables,
        hdr: PictureHeader,
        ccs: int,
    ) -> int {
        let s = put::put_shared(tables, hdr, ccs, *self.scale_log, *self.mask);
        if s.num_threads == 0 || s.num_threads > 16 {
            0
        } else {
            put::regions_held(s, self.areas@, self.residual_q.data@, self.areas@.len() as int)
        }
    }
}

/// Most that the finished threads of an encode hold, one payload after the other, up to the first
/// one that fails.
pub open spec fn stream_held(
    tables: tables::ResidualTables,
    hdr: PictureHeader,
    luma: Coded,
    chroma: Coded,
    z_offset: i32,
) -> int {
    if spec_hyper(luma, chroma, hdr.num_threads_z as nat, z_offset) is Err {
        0
    } else if luma.payloads(tables, hdr, 0) is Err {
        hyper_held(luma, chroma, hdr.num_threads_z as nat, z_offset)
    } else {
        mem::larger(
            mem::larger(
                hyper_held(luma, chroma, hdr.num_threads_z as nat, z_offset),
                luma.residual_held(tables, hdr, 0),
            ),
            chroma.residual_held(tables, hdr, 1),
        )
    }
}

/// The payload of the hyper-latents: chroma is written before luma, because luma is read first.
pub open spec fn spec_hyper(luma: Coded, chroma: Coded, num_threads: nat, z_offset: i32) -> core::result::Result<
    Seq<u8>,
    Error,
> {
    if num_threads == 0 || num_threads > 16 {
        Err(Error::InvalidArgument("thread count out of range"))
    } else {
        match chroma.z_written(z_offset, put::fresh_threads(num_threads)) {
            Err(e) => Err(e),
            Ok(mid) => match luma.z_written(z_offset, mid) {
                Err(e) => Err(e),
                Ok(all) => Ok(container::joined_threads(put::finished(all))),
            },
        }
    }
}

/// Most that the finished threads of the hyper-latents hold, if there are any.
pub open spec fn hyper_held(luma: Coded, chroma: Coded, num_threads: nat, z_offset: i32) -> int {
    if num_threads == 0 || num_threads > 16 {
        0
    } else {
        match chroma.z_written(z_offset, put::fresh_threads(num_threads)) {
            Err(_) => 0,
            Ok(mid) => match luma.z_written(z_offset, mid) {
                Err(_) => 0,
                Ok(all) => put::held(all),
            },
        }
    }
}

/// Most that a symbol adds to a thread.
proof fn lemma_symbol_len(call: PutZCall, w: Writer, i: int, value: u8)
    requires
        call.wf(),
        value <= 63,
    ensures
        call.put_outbound(w, value).bits.len() <= w.bits.len() + 6,
        call.put_inbound(w, i, value).bits.len() <= w.bits.len() + 8,
{
    reveal(PutZCall::put_outbound);
    reveal(PutZCall::put_inbound);
    let sym = if call.escapes(value) {
        63int
    } else {
        value as int
    };
    assert(call.transitions[sym] != 0);
    assert(tables::bits_out(w.state(call.second(i)), call.transitions[sym]) <= 8);
}

/// Most that a step adds to a thread.
proof fn lemma_step_len(call: PutZCall, w: Writer, row: Seq<u8>, step: Step)
    requires
        call.wf(),
        step matches Step::Group { at, by } ==> 0 <= at && 0 <= by && at + 3 * by < row.len(),
        step matches Step::One(i) ==> 0 <= i < row.len(),
        encoder::symbols_in_range(row),
    ensures
        call.put_step(w, row, step).bits.len() <= w.bits.len() + 56,
{
    reveal(PutZCall::put_step);
    match step {
        Step::Group { at, by } => {
            let (v0, v1, v2, v3) = (row[at], row[at + by], row[at + 2 * by], row[at + 3 * by]);
            let a = call.put_outbound(w, v3);
            let b = call.put_outbound(a, v2);
            let c = call.put_outbound(b, v1);
            let d = call.put_outbound(c, v0);
            let e = call.put_inbound(d, at + 3 * by, v3);
            let f = call.put_inbound(e, at + 2 * by, v2);
            let g = call.put_inbound(f, at + by, v1);
            lemma_symbol_len(call, w, at, v3);
            lemma_symbol_len(call, a, at, v2);
            lemma_symbol_len(call, b, at, v1);
            lemma_symbol_len(call, c, at, v0);
            lemma_symbol_len(call, d, at + 3 * by, v3);
            lemma_symbol_len(call, e, at + 2 * by, v2);
            lemma_symbol_len(call, f, at + by, v1);
            lemma_symbol_len(call, g, at, v0);
        },
        Step::One(i) => {
            lemma_symbol_len(call, w, i, row[i]);
            lemma_symbol_len(call, call.put_outbound(w, row[i]), i, row[i]);
        },
        Step::Refill => {},
    }
}

/// Every step lies on the row.
spec fn steps_within(steps: Seq<Step>, len: nat) -> bool {
    forall|k: int|
        0 <= k < steps.len() ==> match #[trigger] steps[k] {
            Step::Group { at, by } => 0 <= at && 0 <= by && at + 3 * by < len,
            Step::One(i) => 0 <= i < len,
            Step::Refill => true,
        }
}

/// Most that an order adds to a thread.
proof fn lemma_run_len(call: PutZCall, w: Writer, row: Seq<u8>, steps: Seq<Step>)
    requires
        call.wf(),
        encoder::symbols_in_range(row),
        steps_within(steps, row.len()),
    ensures
        call.put_run(w, row, steps).bits.len() <= w.bits.len() + 56 * steps.len(),
    decreases steps.len(),
{
    if steps.len() > 0 {
        let front = steps.drop_last();
        assert(steps[steps.len() - 1] == steps.last());
        lemma_step_len(call, w, row, steps.last());
        assert forall|k: int| 0 <= k < front.len() implies match #[trigger] front[k] {
            Step::Group { at, by } => 0 <= at && 0 <= by && at + 3 * by < row.len(),
            Step::One(i) => 0 <= i < row.len(),
            Step::Refill => true,
        } by {
            assert(front[k] == steps[k]);
        }
        lemma_run_len(call, call.put_step(w, row, steps.last()), row, front);
    }
}

/// The order of a row has few steps, all of them on the row.
proof fn lemma_order_len(len: nat, first: int, n: int)
    requires
        1 <= n,
        0 <= first < n,
    ensures
        order::z_order(len as int, first, n).len() <= len as int / 2 + 6,
        steps_within(order::z_order(len as int, first, n), len),
{
    let q = len as int / (4 * n);
    let done = q * (4 * n) + first;
    let c = order::count_from(len as int, done, n);
    let steps = order::z_order(len as int, first, n);
    div_mod::lemma_fundamental_div_mod(len as int, 4 * n);
    div_mod::lemma_mod_bound(len as int, 4 * n);
    div_mod::lemma_div_pos_is_pos(len as int, 4 * n);
    assert(q * (4 * n) == 4 * n * q) by (nonlinear_arith);
    assert(2 * q <= len as int / 2) by {
        assert(4 * q <= 4 * n * q) by (nonlinear_arith)
            requires
                n >= 1,
                q >= 0,
        ;
    }
    if done < len {
        order::lemma_count_from(len as int, done, n, 4);
        assert(n * 4 == 4 * n);
    }
    assert forall|k: int| 0 <= k < steps.len() implies match #[trigger] steps[k] {
        Step::Group { at, by } => 0 <= at && 0 <= by && at + 3 * by < len,
        Step::One(i) => 0 <= i < len,
        Step::Refill => true,
    } by {
        if k < 2 * q {
            if k % 2 == 0 {
                order::lemma_group_within(len as int, n, first, k / 2);
            }
        } else if k < 2 * q + c {
            order::lemma_count_from(len as int, done, n, k - 2 * q);
            assert(n * (k - 2 * q) >= 0) by (nonlinear_arith)
                requires
                    n >= 1,
                    k >= 2 * q,
            ;
        }
    }
}

/// Most that the first `ch` channels add to a thread.
proof fn lemma_channels_len(
    cdfs: Seq<Seq<u8>>,
    size: nat,
    writers: Seq<Writer>,
    symbols: Seq<u8>,
    ch: int,
    t: int,
)
    requires
        0 <= ch <= cdfs.len(),
        ch * size <= symbols.len(),
        forall|i: int| 0 <= i < cdfs.len() ==> (#[trigger] cdfs[i]).len() == 63,
        encoder::symbols_in_range(symbols),
        0 <= t < writers.len(),
    ensures
        encoder::spec_encode_z(cdfs, size, writers, symbols, ch).0.len() == writers.len(),
        encoder::spec_encode_z(cdfs, size, writers, symbols, ch).0[t].bits.len()
            <= writers[t].bits.len() + 28 * (ch * size) + 336 * ch,
    decreases ch,
{
    if ch > 0 {
        let from = (ch - 1) * size;
        assert(0 <= from && from + size == ch * size) by (nonlinear_arith)
            requires
                ch > 0,
                from == (ch - 1) * size,
        ;
        assert(cdfs[ch - 1].len() == 63);
        if tables::z_monotone(cdfs[ch - 1]) {
            let call = PutZCall {
                transitions: tables::z_encode_table(cdfs[ch - 1]),
                two_states: writers.len() == 1,
            };
            let row = symbols.subrange(from, from + size);
            let steps = order::z_order(row.len() as int, t, writers.len() as int);
            let next = encoder::spec_encode_row(call, writers, row);
            encoder::lemma_z_call(cdfs[ch - 1], writers.len() == 1);
            lemma_order_len(row.len(), t, writers.len() as int);
            lemma_run_len(call, writers[t], row, steps);
            lemma_channels_len(cdfs, size, next, symbols, ch - 1, t);
        }
    }
}

/// Most that a hyper-latent adds to a thread.
proof fn lemma_z_len(c: Coded, z_offset: i32, writers: Seq<Writer>, t: int)
    requires
        c.z_fits(z_offset),
        c.z_written(z_offset, writers) is Ok,
        0 <= t < writers.len(),
    ensures
        c.z_written(z_offset, writers)->Ok_0.len() == writers.len(),
        c.z_written(z_offset, writers)->Ok_0[t].bits.len() <= writers[t].bits.len() + 225_000_000,
{
    let size = (c.z_hat.h * c.z_hat.w) as nat;
    if size > 0 {
        let n = c.z_cdfs@.len() as int;
        assert(n * size == c.z_hat.c * c.z_hat.h * c.z_hat.w) by (nonlinear_arith)
            requires
                n == c.z_hat.c,
                size == c.z_hat.h * c.z_hat.w,
        ;
        lemma_channels_len(
            decoder::cdf_views(c.z_cdfs@),
            size,
            writers,
            c.symbols(z_offset),
            n,
            t,
        );
    }
}

/// Write the hyper-latents of both components into one payload. The finished threads are charged
/// to the ledger while they are held.
pub fn encode_hyper(
    ledger: &mut Ledger,
    tables: &AnsTables,
    luma: &Coded<'_>,
    chroma: &Coded<'_>,
    num_threads: usize,
    z_offset: i32,
) -> (r: Result<Vec<u8>>)
    requires
        tables.wf(),
        0 <= z_offset <= 128,
        luma.z_fits(z_offset),
        chroma.z_fits(z_offset),
        old(ledger).wf(),
        old(ledger)@.total() + put::MAX_HELD <= usize::MAX,
    ensures
        final(ledger).wf(),
        final(ledger)@ == old(ledger)@.visited(
            hyper_held(*luma, *chroma, num_threads as nat, z_offset),
        ),
        match spec_hyper(*luma, *chroma, num_threads as nat, z_offset) {
            Err(e) => r == Err::<Vec<u8>, Error>(e),
            Ok(bytes) => r matches Ok(v) && v@ == bytes,
        },
{
    let mut enc: AnsEncoder<'_> = tables.encoder(num_threads)?;
    let ghost fresh = put::fresh_threads(num_threads as nat);
    proof {
        assert(enc.writers() =~= fresh);
    }
    put::encode_z(&mut enc, chroma.z_cdfs, z_offset, chroma.z_hat)?;
    let ghost mid = enc.writers();
    put::encode_z(&mut enc, luma.z_cdfs, z_offset, luma.z_hat)?;
    let ghost writers = enc.writers();
    proof {
        assert(chroma.z_written(z_offset, fresh) == Ok::<Seq<Writer>, Error>(mid));
        assert(luma.z_written(z_offset, mid) == Ok::<Seq<Writer>, Error>(writers));
        lemma_z_len(*chroma, z_offset, fresh, 0);
        lemma_z_len(*luma, z_offset, mid, 0);
        assert forall|t: int| 0 <= t < writers.len() implies (#[trigger] writers[t]).bits.len()
            <= 450_000_000 by {
            lemma_z_len(*chroma, z_offset, fresh, t);
            lemma_z_len(*luma, z_offset, mid, t);
        }
    }
    let parts: Vec<Vec<u8>> = enc.finish();
    proof {
        let all = assemble::byte_strings(parts@);
        assert forall|i: int| 0 <= i < all.len() implies all[i] == put::finished(writers)[i] by {
            stack::lemma_bytes_of_bits(parts@[i]@);
        }
        assert(all =~= put::finished(writers));
        assert forall|i: int| 0 <= i < all.len() implies (#[trigger] all[i]).len() <= 57_000_000 by {
            assert(writers[i].bits.len() <= 450_000_000);
            put::lemma_sealed_len(writers[i], writers.len() == 1);
        }
        put::lemma_flat_small(all, 57_000_000);
        assert(all.len() * 57_000_000 <= 16 * 57_000_000);
        assert forall|i: int| 0 <= i < parts@.len() implies (#[trigger] parts@[i])@.len()
            < 0x1_0000_0000 by {
            assert(all[i] == parts@[i]@);
        }
    }
    Ok(put::join_finished(ledger, parts))
}

/// What goes into the codestream of an encode, or why nothing does.
pub open spec fn spec_stream(
    tables: tables::ResidualTables,
    hdr: PictureHeader,
    ton: ToolHeader,
    rdi: RenderingInfo,
    luma: Coded,
    chroma: Coded,
    z_offset: i32,
) -> core::result::Result<Parts, Error> {
    match spec_hyper(luma, chroma, hdr.num_threads_z as nat, z_offset) {
        Err(e) => Err(e),
        Ok(soz) => match luma.payloads(tables, hdr, 0) {
            Err(e) => Err(e),
            Ok(of_luma) => match chroma.payloads(tables, hdr, 1) {
                Err(e) => Err(e),
                Ok(of_chroma) => match spec_header_error(hdr, ton, rdi) {
                    Some(e) => Err(e),
                    None => Ok(
                        Parts {
                            pih: bits::pack(picture::picture_code(hdr@)),
                            ton: bits::pack(tools::tools_code(ton@, tools::context_of(&hdr))),
                            rdi: bits::pack(rendering::rendering_code(rdi@)),
                            luma: of_luma,
                            chroma: of_chroma,
                            independent: front::layout_of(hdr@.regions)
                                == RegionLayout::Independent,
                            soz,
                        },
                    ),
                },
            },
        },
    }
}

/// Why the headers cannot be written: the picture header, then the tools, then the rendering
/// information.
pub open spec fn spec_header_error(hdr: PictureHeader, ton: ToolHeader, rdi: RenderingInfo) -> Option<
    Error,
> {
    match picture::picture_error(hdr@) {
        Some(e) => Some(e),
        None => match tools::tools_error(ton@, tools::context_of(&hdr)) {
            Some(e) => Some(e),
            None => rendering::rendering_error(rdi@),
        },
    }
}

/// Sizes that the container can write: they fit in 32 bits, or nearly so.
pub open spec fn sizes_fit(p: Parts) -> bool {
    &&& p.pih.len() < 0x1_ffff_ffff
    &&& p.ton.len() < 0x1_ffff_ffff
    &&& p.rdi.len() < 0x1_ffff_ffff
    &&& p.soz.len() < 0x1_ffff_ffff
    &&& assemble::payloads_fit(p.luma, p.independent)
    &&& assemble::payloads_fit(p.chroma, p.independent)
}

/// The pieces of a codestream, written out.
struct Written {
    pih: Vec<u8>,
    ton: Vec<u8>,
    rdi: Vec<u8>,
    luma: Vec<Vec<u8>>,
    chroma: Vec<Vec<u8>>,
    independent: bool,
    soz: Vec<u8>,
}

impl Written {
    spec fn parts(&self) -> Parts {
        Parts {
            pih: self.pih@,
            ton: self.ton@,
            rdi: self.rdi@,
            luma: assemble::byte_strings(self.luma@),
            chroma: assemble::byte_strings(self.chroma@),
            independent: self.independent,
            soz: self.soz@,
        }
    }

    /// Whether the container can write the pieces.
    fn fits(&self) -> (b: bool)
        ensures
            b == sizes_fit(self.parts()),
    {
        let most: u64 = 0x1_ffff_ffff;
        (self.pih.len() as u64) < most && (self.ton.len() as u64) < most && (self.rdi.len() as u64)
            < most && (self.soz.len() as u64) < most && payloads_fit(&self.luma, self.independent)
            && payloads_fit(&self.chroma, self.independent)
    }

    fn assembled(&self) -> (r: Result<Vec<u8>>)
        requires
            sizes_fit(self.parts()),
        ensures
            r matches Ok(bytes) && bytes@ == container::codestream_bytes(
                assemble::stream_pieces(self.parts()),
            ),
    {
        assemble::assemble(
            self.pih.as_slice(),
            self.ton.as_slice(),
            self.rdi.as_slice(),
            &self.luma,
            &self.chroma,
            self.independent,
            self.soz.as_slice(),
        )
    }
}

/// Whether substreams can carry the payloads.
fn payloads_fit(payloads: &Vec<Vec<u8>>, independent: bool) -> (b: bool)
    ensures
        b == assemble::payloads_fit(assemble::byte_strings(payloads@), independent),
{
    let ghost all = assemble::byte_strings(payloads@);
    let mut refs: Vec<&[u8]> = Vec::new();
    while refs.len() < payloads.len()
        invariant
            refs@.len() <= payloads@.len(),
            all == assemble::byte_strings(payloads@),
            forall|j: int| 0 <= j < refs@.len() ==> (#[trigger] refs@[j])@ == all[j],
            forall|j: int| 0 <= j < refs@.len() ==> (#[trigger] all[j]).len() < 0x1_0000_0000,
        decreases payloads@.len() - refs@.len(),
    {
        let i: usize = refs.len();
        if payloads[i].len() as u64 >= 0x1_0000_0000 {
            proof {
                assert(all[i as int].len() >= 0x1_0000_0000);
            }
            return false;
        }
        refs.push(payloads[i].as_slice());
    }
    proof {
        assert(container::contents(refs@) =~= all);
    }
    if independent {
        payloads.len() <= 256
    } else {
        (container::join_dependent_regions(&refs).len() as u64) < 0x1_ffff_ffff
    }
}

/// The pieces of an encode.
fn written(
    ledger: &mut Ledger,
    tables: &AnsTables,
    hdr: &PictureHeader,
    ton: &ToolHeader,
    rdi: &RenderingInfo,
    luma: &Coded<'_>,
    chroma: &Coded<'_>,
    z_offset: i32,
) -> (r: Result<Written>)
    requires
        tables.wf(),
        0 <= z_offset <= 128,
        luma.z_fits(z_offset),
        chroma.z_fits(z_offset),
        luma.planes_fit(*hdr, 0),
        chroma.planes_fit(*hdr, 1),
        picture::counts_from_one(hdr@),
        hdr.height * hdr.width <= usize::MAX,
        old(ledger).wf(),
        old(ledger)@.total() + put::MAX_HELD <= usize::MAX,
    ensures
        final(ledger).wf(),
        final(ledger)@ == old(ledger)@.visited(
            stream_held(tables.residual(), *hdr, *luma, *chroma, z_offset),
        ),
        match spec_stream(tables.residual(), *hdr, *ton, *rdi, *luma, *chroma, z_offset) {
            Err(e) => r == Err::<Written, Error>(e),
            Ok(p) => r matches Ok(w) && w.parts() == p,
        },
{
    let soz: Vec<u8> = encode_hyper(ledger, tables, luma, chroma, hdr.num_threads_z as usize, z_offset)?;
    let of_luma: Vec<Vec<u8>> = put::encode_residual(
        ledger,
        tables,
        hdr,
        0,
        luma.scale_log,
        luma.mask,
        luma.residual_q,
        luma.areas,
    )?;
    let of_chroma: Vec<Vec<u8>> = put::encode_residual(
        ledger,
        tables,
        hdr,
        1,
        chroma.scale_log,
        chroma.mask,
        chroma.residual_q,
        chroma.areas,
    )?;
    proof {
        assert(assemble::byte_strings(of_luma@) =~= luma.payloads(
            tables.residual(),
            *hdr,
            0,
        )->Ok_0);
        assert(assemble::byte_strings(of_chroma@) =~= chroma.payloads(
            tables.residual(),
            *hdr,
            1,
        )->Ok_0);
    }
    let pih: Vec<u8> = hdr.write()?;
    let tools: Vec<u8> = ton.write(hdr)?;
    let rendering: Vec<u8> = rdi.write()?;
    let independent: bool = match hdr.regions {
        Some(r) => r.independent,
        None => false,
    };
    Ok(
        Written {
            pih,
            ton: tools,
            rdi: rendering,
            luma: of_luma,
            chroma: of_chroma,
            independent,
            soz,
        },
    )
}

/// Encode quantised components: the hyper-latents, the residual of luma and of chroma, then the
/// headers, assembled into a codestream.
pub fn encode_stream(
    ledger: &mut Ledger,
    tables: &AnsTables,
    hdr: &PictureHeader,
    ton: &ToolHeader,
    rdi: &RenderingInfo,
    luma: &Coded<'_>,
    chroma: &Coded<'_>,
    z_offset: i32,
) -> (r: Result<Vec<u8>>)
    requires
        tables.wf(),
        0 <= z_offset <= 128,
        luma.z_fits(z_offset),
        chroma.z_fits(z_offset),
        luma.planes_fit(*hdr, 0),
        chroma.planes_fit(*hdr, 1),
        picture::counts_from_one(hdr@),
        hdr.height * hdr.width <= usize::MAX,
        spec_stream(tables.residual(), *hdr, *ton, *rdi, *luma, *chroma, z_offset) matches Ok(p)
            ==> sizes_fit(p),
        old(ledger).wf(),
        old(ledger)@.total() + put::MAX_HELD <= usize::MAX,
    ensures
        final(ledger).wf(),
        final(ledger)@ == old(ledger)@.visited(
            stream_held(tables.residual(), *hdr, *luma, *chroma, z_offset),
        ),
        match spec_stream(tables.residual(), *hdr, *ton, *rdi, *luma, *chroma, z_offset) {
            Err(e) => r == Err::<Vec<u8>, Error>(e),
            Ok(p) => r matches Ok(bytes) && bytes@ == container::codestream_bytes(
                assemble::stream_pieces(p),
            ),
        },
{
    written(ledger, tables, hdr, ton, rdi, luma, chroma, z_offset)?.assembled()
}

/// What an encode gives of these pieces, or of what stands against them: the codestream, or nothing
/// where a piece is too large for the container.
pub open spec fn is_tried(
    parts: core::result::Result<Parts, Error>,
    r: Option<Result<Vec<u8>>>,
) -> bool {
    match parts {
        Err(e) => r == Some(Err::<Vec<u8>, Error>(e)),
        Ok(p) => if sizes_fit(p) {
            r matches Some(Ok(bytes)) && bytes@ == container::codestream_bytes(
                assemble::stream_pieces(p),
            )
        } else {
            r is None
        },
    }
}

/// As [`encode_stream`], for pieces of any size: `None` where one is too large for the container.
pub fn try_encode_stream(
    ledger: &mut Ledger,
    tables: &AnsTables,
    hdr: &PictureHeader,
    ton: &ToolHeader,
    rdi: &RenderingInfo,
    luma: &Coded<'_>,
    chroma: &Coded<'_>,
    z_offset: i32,
) -> (r: Option<Result<Vec<u8>>>)
    requires
        tables.wf(),
        0 <= z_offset <= 128,
        luma.z_fits(z_offset),
        chroma.z_fits(z_offset),
        luma.planes_fit(*hdr, 0),
        chroma.planes_fit(*hdr, 1),
        picture::counts_from_one(hdr@),
        hdr.height * hdr.width <= usize::MAX,
        old(ledger).wf(),
        old(ledger)@.total() + put::MAX_HELD <= usize::MAX,
    ensures
        final(ledger).wf(),
        final(ledger)@ == old(ledger)@.visited(
            stream_held(tables.residual(), *hdr, *luma, *chroma, z_offset),
        ),
        is_tried(spec_stream(tables.residual(), *hdr, *ton, *rdi, *luma, *chroma, z_offset), r),
{
    match written(ledger, tables, hdr, ton, rdi, luma, chroma, z_offset) {
        Err(e) => Some(Err(e)),
        Ok(w) => if w.fits() {
            Some(w.assembled())
        } else {
            None
        },
    }
}

/// Where the encoding of a hyper-latent went through, every CDF rises.
proof fn lemma_all_rise(
    cdfs: Seq<Seq<u8>>,
    size: nat,
    writers: Seq<Writer>,
    symbols: Seq<u8>,
    ch: int,
    c: int,
)
    requires
        encoder::spec_encode_z(cdfs, size, writers, symbols, ch).1,
        0 <= c < ch,
    ensures
        tables::z_monotone(cdfs[c]),
    decreases ch,
{
    if c < ch - 1 {
        let call = PutZCall {
            transitions: tables::z_encode_table(cdfs[ch - 1]),
            two_states: writers.len() == 1,
        };
        let from = (ch - 1) * size;
        let next = encoder::spec_encode_row(call, writers, symbols.subrange(from, from + size));
        lemma_all_rise(cdfs, size, next, symbols, ch - 1, c);
    }
}

/// A hyper-latent comes back from threads that stand behind it, and leaves them where its
/// encoding began.
proof fn lemma_z_back(
    c: Coded,
    z_offset: i32,
    writers: Seq<Writer>,
    readers: Seq<Reader>,
    bases: Seq<Seq<bool>>,
) -> (behind: Seq<Reader>)
    requires
        c.z_fits(z_offset),
        0 <= z_offset <= 128,
        c.z_written(z_offset, writers) is Ok,
        readers.len() >= 1,
        writers.len() == readers.len(),
        bases.len() == readers.len(),
        forall|u: int|
            0 <= u < readers.len() ==> round_trip::agrees(
                #[trigger] readers[u],
                bases[u],
                c.z_written(z_offset, writers)->Ok_0[u],
                readers.len() == 1,
            ),
    ensures
        entropy::spec_z(
            decoder::cdf_views(c.z_cdfs@),
            (c.z_hat.h * c.z_hat.w) as nat,
            z_offset,
            readers,
        ) == Ok::<(Seq<Reader>, Seq<i8>), Error>((behind, c.z_hat.data@)),
        behind.len() == readers.len(),
        forall|u: int|
            0 <= u < behind.len() ==> round_trip::agrees(
                #[trigger] behind[u],
                bases[u],
                writers[u],
                readers.len() == 1,
            ),
{
    let size = (c.z_hat.h * c.z_hat.w) as nat;
    let cdfs = decoder::cdf_views(c.z_cdfs@);
    let symbols = c.symbols(z_offset);
    let zeros = Seq::new(cdfs.len() * size, |i: int| 0u8);
    assert(cdfs.len() * size == c.z_hat.c * c.z_hat.h * c.z_hat.w) by (nonlinear_arith)
        requires
            cdfs.len() == c.z_hat.c,
            size == c.z_hat.h * c.z_hat.w,
    ;
    if size == 0 {
        assert(cdfs.len() * size == 0) by (nonlinear_arith)
            requires
                size == 0,
        ;
        assert(entropy::z_samples(zeros, z_offset) =~= c.z_hat.data@);
        readers
    } else {
        assert forall|i: int| 0 <= i < cdfs.len() implies tables::z_monotone(#[trigger] cdfs[i]) by {
            lemma_all_rise(cdfs, size, writers, symbols, cdfs.len() as int, i);
        }
        round_trip::law_z_round_trip(cdfs, size, readers, bases, writers, symbols, zeros);
        back::law_z_samples_round_trip(c.z_hat.data@, z_offset);
        decoder::spec_decode_z(cdfs, size, readers, zeros, 0).0
    }
}

/// The hyper-latents come back: reading the payload of both gives luma and then chroma, sample for
/// sample.
pub proof fn law_hyper_comes_back(
    luma: Coded,
    chroma: Coded,
    num_threads: nat,
    z_offset: i32,
    soz: Seq<u8>,
    subs: Seq<Piece>,
)
    requires
        0 <= z_offset <= 128,
        luma.z_fits(z_offset),
        chroma.z_fits(z_offset),
        spec_hyper(luma, chroma, num_threads, z_offset) == Ok::<Seq<u8>, Error>(soz),
        bitio::addressable(soz.len()),
        headers::first_of(subs, Marker::Soz) == Some(soz),
    ensures
        front::spec_both_z(
            subs,
            num_threads,
            (decoder::cdf_views(luma.z_cdfs@), decoder::cdf_views(chroma.z_cdfs@)),
            (
                (luma.z_hat.h * luma.z_hat.w) as nat,
                (chroma.z_hat.h * chroma.z_hat.w) as nat,
            ),
            z_offset,
        ) == Ok::<(Seq<i8>, Seq<i8>), Error>((luma.z_hat.data@, chroma.z_hat.data@)),
{
    let fresh = put::fresh_threads(num_threads);
    let mid = chroma.z_written(z_offset, fresh)->Ok_0;
    let all = luma.z_written(z_offset, mid)->Ok_0;
    lemma_z_len(chroma, z_offset, fresh, 0);
    lemma_z_len(luma, z_offset, mid, 0);
    assert forall|t: int| 0 <= t < all.len() implies (#[trigger] put::finished(all)[t]).len()
        < 0x1_0000_0000 by {
        lemma_z_len(chroma, z_offset, fresh, t);
        lemma_z_len(luma, z_offset, mid, t);
        put::lemma_sealed_len(all[t], all.len() == 1);
    }
    back::lemma_payload_opens(all);
    let threads = put::finished(all);
    let readers = decoder::spec_decoder(threads)->Ok_0;
    let bases = Seq::new(threads.len(), |t: int| round_trip::base_of(threads, t));
    assert forall|u: int| 0 <= u < readers.len() implies round_trip::agrees(
        #[trigger] readers[u],
        bases[u],
        all[u],
        readers.len() == 1,
    ) by {}
    let behind = lemma_z_back(luma, z_offset, mid, readers, bases);
    let end = lemma_z_back(chroma, z_offset, fresh, behind, bases);
}

/// A component whose residual can be coded, in payloads that are not too long to be read.
pub open spec fn residual_fits(
    pdf: &PdfTables,
    tables: tables::ResidualTables,
    hdr: PictureHeader,
    ccs: int,
    c: Coded,
) -> bool {
    let s = put::put_shared(tables, hdr, ccs, *c.scale_log, *c.mask);
    &&& c.planes_fit(hdr, ccs)
    &&& c.areas@.len() == front::region_count(hdr@.regions)
    &&& back::residual_codable(pdf, s, c.residual_q.data@)
    &&& forall|i: int|
        0 <= i < c.areas@.len() ==> back::payload_fits(
            s,
            #[trigger] c.areas@[i],
            c.residual_q.data@,
        )
}

/// What a decoder finds of a component's residual: every coded sample that lies in a region, and
/// zeros elsewhere.
pub open spec fn residual_back(
    tables: tables::ResidualTables,
    hdr: PictureHeader,
    ccs: int,
    c: Coded,
    found: core::result::Result<Seq<Option<Seq<u8>>>, Error>,
) -> bool {
    let s = put::put_shared(tables, hdr, ccs, *c.scale_log, *c.mask);
    let values = c.residual_q.data@;
    let zeros = Seq::new(values.len(), |i: int| 0i16);
    &&& found matches Ok(payloads)
    &&& entropy::spec_regions(s, c.areas@, payloads, zeros, 0) == Ok::<Seq<i16>, Error>(
        back::all_restored(s, c.areas@, values, zeros, 0),
    )
}

/// The residual of a component comes back.
proof fn lemma_residual_back(
    pdf: &PdfTables,
    tables: tables::ResidualTables,
    hdr: PictureHeader,
    ccs: int,
    c: Coded,
)
    requires
        pdf.wf(),
        tables.of(pdf),
        0 <= ccs < 2,
        0 < hdr.height <= 65599,
        0 < hdr.width <= 65599,
        residual_fits(pdf, tables, hdr, ccs, c),
        c.payloads(tables, hdr, ccs) is Ok,
        c.areas@.len() > 0,
    ensures
        ({
            let parts = c.payloads(tables, hdr, ccs)->Ok_0;
            residual_back(
                tables,
                hdr,
                ccs,
                c,
                Ok(Seq::new(parts.len(), |j: int| Some(parts[j]))),
            )
        }),
{
    let s = put::put_shared(tables, hdr, ccs, *c.scale_log, *c.mask);
    let parts = c.payloads(tables, hdr, ccs)->Ok_0;
    let values = c.residual_q.data@;
    assert(Seq::new(parts.len(), |j: int| Some(parts[j])) =~= back::component_payloads(
        s,
        c.areas@,
        values,
    ));
    back::law_component_round_trip(pdf, s, c.areas@, values, c.residual_q.c as int);
}

/// What a decoder finds in a codestream: the substreams, the headers, both hyper-latents sample for
/// sample, and of each component's residual every coded sample.
pub open spec fn comes_back(
    tables: tables::ResidualTables,
    hdr: PictureHeader,
    ton: ToolHeader,
    rdi: RenderingInfo,
    luma: Coded,
    chroma: Coded,
    z_offset: i32,
    p: Parts,
) -> bool {
    let subs = assemble::stream_pieces(p);
    &&& container::spec_parse(container::codestream_bytes(subs)) == Ok::<Seq<Piece>, Error>(
        subs,
    )
    &&& headers::spec_headers(subs) == Ok::<headers::HeadersView, Error>(
        headers::HeadersView {
            picture: hdr@,
            tools: ton@,
            rendering: rdi@,
            user_data: None,
        },
    )
    &&& front::spec_both_z(
        subs,
        hdr.num_threads_z as nat,
        (decoder::cdf_views(luma.z_cdfs@), decoder::cdf_views(chroma.z_cdfs@)),
        (
            (luma.z_hat.h * luma.z_hat.w) as nat,
            (chroma.z_hat.h * chroma.z_hat.w) as nat,
        ),
        z_offset,
    ) == Ok::<(Seq<i8>, Seq<i8>), Error>((luma.z_hat.data@, chroma.z_hat.data@))
    &&& residual_back(
        tables,
        hdr,
        0,
        luma,
        front::spec_payloads(subs, Marker::Sorp, hdr@.regions),
    )
    &&& residual_back(
        tables,
        hdr,
        1,
        chroma,
        front::spec_payloads(subs, Marker::Sors, hdr@.regions),
    )
}

/// An encode comes back: a decoder that reads the codestream finds the substreams, the headers,
/// both hyper-latents sample for sample, and of each component's residual every coded sample.
pub proof fn law_encode_comes_back(
    pdf: &PdfTables,
    tables: tables::ResidualTables,
    hdr: PictureHeader,
    ton: ToolHeader,
    rdi: RenderingInfo,
    luma: Coded,
    chroma: Coded,
    z_offset: i32,
    p: Parts,
)
    requires
        pdf.wf(),
        tables.of(pdf),
        0 <= z_offset <= 128,
        luma.z_fits(z_offset),
        chroma.z_fits(z_offset),
        spec_stream(tables, hdr, ton, rdi, luma, chroma, z_offset) == Ok::<Parts, Error>(p),
        sizes_fit(p),
        picture::picture_codable(hdr@),
        picture::conformance_error(hdr@) is None,
        tools::tools_codable(ton@),
        rdi@.mdcv matches Some(m) ==> m.primaries.len() == 3,
        residual_fits(pdf, tables, hdr, 0, luma),
        residual_fits(pdf, tables, hdr, 1, chroma),
        bitio::addressable(p.soz.len()),
        bitio::addressable(container::codestream_bytes(assemble::stream_pieces(p)).len()),
        !p.independent ==> bitio::addressable(container::joined_regions(p.luma).len())
            && bitio::addressable(container::joined_regions(p.chroma).len()),
    ensures
        comes_back(tables, hdr, ton, rdi, luma, chroma, z_offset, p),
{
    let subs = assemble::stream_pieces(p);
    assert(tools::context_of(&hdr) == tools::context_of_view(hdr@));
    assemble::law_stream_round_trip(p, hdr@, ton@, rdi@);
    law_hyper_comes_back(luma, chroma, hdr.num_threads_z as nat, z_offset, p.soz, subs);
    assemble::lemma_region_count(hdr@);
    lemma_residual_back(pdf, tables, hdr, 0, luma);
    lemma_residual_back(pdf, tables, hdr, 1, chroma);
}

} // verus!

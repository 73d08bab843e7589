//! Entropy stage of the decoder: substreams to hyper-latent and residual.
//!
//! Everything here is integer arithmetic. Order matters and is part of the format. Both
//! components' hyper-latents live in the one SOZ payload, luma first; each component's residual
//! is coded per region, and within a region in chunks of whole channels
//! (see [`crate::residual`]).

use vstd::prelude::*;

use crate::area::Area;
use crate::bitio;
use crate::container;
use crate::error::{Error, Result};
use crate::header::{ComponentHeader, PictureHeader};
use crate::mans::decoder;
use crate::mans::decoder::{Reader, ResidualCall};
use crate::mans::tables::{ResidualTables, MAX_Z};
use crate::mans::{AnsDecoder, AnsTables};
use crate::mem;
use crate::mem::{Charge, Ledger};
use crate::residual;
use crate::tensor::Tensor;

pub use crate::residual::{channel_step, distribution_index};

verus! {

/// The distributions of sigma indices.
pub open spec fn distributions(scale: Seq<i32>) -> Seq<u8> {
    Seq::new(scale.len(), |i: int| residual::spec_distribution(scale[i]))
}

/// What the maps of a component say of a chunk of channels of a region.
pub open spec fn chunk_call(
    tables: ResidualTables,
    two_states: bool,
    scale: Seq<i32>,
    mask: Seq<bool>,
    cut: Cut,
    c0: int,
) -> ResidualCall {
    ResidualCall {
        tables,
        two_states,
        sigma: distributions(
            residual::gathered(scale, cut.lh, cut.lw, cut.area, c0, cut.end(c0)),
        ),
        mask: residual::gathered(mask, cut.lh, cut.lw, cut.area, c0, cut.end(c0)),
    }
}

/// How a region is cut into chunks of channels.
pub struct Cut {
    /// Rows of the planes.
    pub lh: int,
    /// Columns of the planes.
    pub lw: int,
    /// The region.
    pub area: Area,
    /// Coded channels.
    pub num_chs: int,
    /// Channels to decode.
    pub num_decode: int,
    /// Channels per chunk.
    pub step: int,
}

impl Cut {
    /// The channel behind the chunk that starts with `c0`.
    pub open spec fn end(self, c0: int) -> int {
        if c0 + self.step < self.num_chs {
            c0 + self.step
        } else {
            self.num_chs
        }
    }

    /// Number of symbols of a chunk.
    pub open spec fn len(self, c0: int) -> nat {
        residual::chunk_len(self.area, c0, self.end(c0)) as nat
    }

    /// The cut of a region with so many threads.
    pub open spec fn of(
        lh: int,
        lw: int,
        area: Area,
        num_chs: int,
        num_decode: int,
        num_threads: int,
    ) -> Cut {
        Cut {
            lh,
            lw,
            area,
            num_chs,
            num_decode,
            step: residual::spec_step(area.height * area.width, num_decode, num_threads * 4, 1),
        }
    }
}

/// The chunks of a region from channel `c0` on: their symbols are decoded and put in place. The
/// last component says whether the data sufficed.
pub open spec fn spec_chunks(
    tables: ResidualTables,
    scale: Seq<i32>,
    mask: Seq<bool>,
    cut: Cut,
    readers: Seq<Reader>,
    dst: Seq<i16>,
    c0: int,
) -> (Seq<Reader>, Seq<i16>, bool)
    decreases cut.num_decode - c0 + cut.step,
{
    if c0 >= cut.num_decode || cut.step < 1 {
        (readers, dst, true)
    } else {
        let call = chunk_call(tables, readers.len() == 1, scale, mask, cut, c0);
        let m = decoder::spec_decode_residual(
            call,
            readers,
            Seq::new(cut.len(c0), |i: int| 0i16),
            0,
        );
        if decoder::any_failed(m.0) {
            (m.0, dst, false)
        } else {
            spec_chunks(
                tables,
                scale,
                mask,
                cut,
                m.0,
                residual::scattered(dst, m.1, cut.lh, cut.lw, cut.area, c0, cut.end(c0)),
                c0 + cut.step,
            )
        }
    }
}

/// What all regions of a component share.
pub struct Shared {
    pub tables: ResidualTables,
    pub scale: Seq<i32>,
    pub mask: Seq<bool>,
    pub lh: int,
    pub lw: int,
    pub num_chs: int,
    pub num_decode: int,
    pub num_threads: nat,
}

/// Decoding a region's payload into the planes.
pub open spec fn spec_region(s: Shared, area: Area, payload: Seq<u8>, dst: Seq<i16>) -> core::result::Result<
    Seq<i16>,
    Error,
> {
    match container::spec_split_threads(payload, s.num_threads) {
        Err(e) => Err(e),
        Ok(threads) => match decoder::spec_decoder(threads) {
            Err(e) => Err(e),
            Ok(readers) => {
                let cut = Cut::of(
                    s.lh,
                    s.lw,
                    area,
                    s.num_chs,
                    s.num_decode,
                    s.num_threads as int,
                );
                let m = spec_chunks(s.tables, s.scale, s.mask, cut, readers, dst, 0);
                if m.2 {
                    Ok(m.1)
                } else {
                    Err(Error::InvalidData("ANS stream exhausted"))
                }
            },
        },
    }
}

/// The regions from the `r`-th on: what of each lies on the planes is decoded, if there is
/// anything to decode.
pub open spec fn spec_regions(
    s: Shared,
    areas: Seq<Area>,
    payloads: Seq<Option<Seq<u8>>>,
    dst: Seq<i16>,
    r: int,
) -> core::result::Result<Seq<i16>, Error>
    decreases areas.len() - r,
{
    if r >= areas.len() {
        Ok(dst)
    } else {
        let area = areas[r].clipped(s.lh, s.lw);
        match payloads[r] {
            Some(payload) if area.height != 0 && area.width != 0 && s.num_decode != 0 => {
                match spec_region(s, area, payload, dst) {
                    Err(e) => Err(e),
                    Ok(next) => spec_regions(s, areas, payloads, next, r + 1),
                }
            },
            _ => spec_regions(s, areas, payloads, dst, r + 1),
        }
    }
}

/// Most that the buffers of a region's chunks hold: a sigma index, its distribution, a mask bit and
/// a symbol for each symbol of the first chunk, which no later one exceeds.
pub open spec fn region_scratch(s: Shared, area: Area, payload: Seq<u8>) -> int {
    match container::spec_split_threads(payload, s.num_threads) {
        Err(_) => 0,
        Ok(threads) => match decoder::spec_decoder(threads) {
            Err(_) => 0,
            Ok(_) => 8int * Cut::of(
                s.lh,
                s.lw,
                area,
                s.num_chs,
                s.num_decode,
                s.num_threads as int,
            ).len(0),
        },
    }
}

/// Most that the buffers of the regions from the `r`-th on hold, up to the first one that fails.
pub open spec fn scratch(
    s: Shared,
    areas: Seq<Area>,
    payloads: Seq<Option<Seq<u8>>>,
    dst: Seq<i16>,
    r: int,
) -> int
    decreases areas.len() - r,
{
    if r >= areas.len() {
        0
    } else {
        let area = areas[r].clipped(s.lh, s.lw);
        match payloads[r] {
            Some(payload) if area.height != 0 && area.width != 0 && s.num_decode != 0 => mem::larger(
                region_scratch(s, area, payload),
                match spec_region(s, area, payload, dst) {
                    Err(_) => 0,
                    Ok(next) => scratch(s, areas, payloads, next, r + 1),
                },
            ),
            _ => scratch(s, areas, payloads, dst, r + 1),
        }
    }
}

/// No chunk has more symbols than the first, and that no more than the planes.
proof fn lemma_first_chunk(cut: Cut, c0: int, n: int, len: nat)
    requires
        0 <= c0 < cut.num_decode <= cut.num_chs <= n,
        1 <= cut.step,
        len == n * cut.lh * cut.lw,
        0 < cut.area.height,
        0 < cut.area.width,
        cut.area.y + cut.area.height <= cut.lh,
        cut.area.x + cut.area.width <= cut.lw,
    ensures
        cut.len(c0) <= cut.len(0) <= len,
{
    let (h, w) = (cut.area.height as int, cut.area.width as int);
    let (a, b) = (cut.end(c0) - c0, cut.end(0));
    lemma_region_area(len, n, cut.lh, cut.lw, cut.area, b);
    assert(a * h * w == h * w * a && b * h * w == h * w * b) by (nonlinear_arith);
    assert(0 <= h * w * a <= h * w * b) by (nonlinear_arith)
        requires
            0 <= a <= b,
            0 < h,
            0 < w,
    ;
}

/// Everything a region's residual decode needs that is shared with its siblings.
struct ResidualCtx<'a> {
    tables: &'a AnsTables,
    scale_log: &'a Tensor<i32>,
    mask: &'a Tensor<bool>,
    lh: usize,
    lw: usize,
    num_chs: usize,
    num_decode: usize,
    num_threads: usize,
}

impl<'a> ResidualCtx<'a> {
    spec fn shared(&self) -> Shared {
        Shared {
            tables: self.tables.residual(),
            scale: self.scale_log.data@,
            mask: self.mask.data@,
            lh: self.lh as int,
            lw: self.lw as int,
            num_chs: self.num_chs as int,
            num_decode: self.num_decode as int,
            num_threads: self.num_threads as nat,
        }
    }

    /// The maps cover every channel that is decoded.
    spec fn wf(&self) -> bool {
        &&& self.tables.wf()
        &&& self.scale_log.is_of(self.scale_log.c as int, self.lh as int, self.lw as int)
        &&& self.mask.is_of(self.scale_log.c as int, self.lh as int, self.lw as int)
        &&& self.num_decode <= self.num_chs <= self.scale_log.c
    }

    /// One chunk of channels of a region.
    fn decode_chunk(
        &self,
        ledger: &mut Ledger,
        dec: &mut AnsDecoder<'a>,
        dst: &mut Vec<i16>,
        area: Area,
        step: usize,
        c0: usize,
        Ghost(cut): Ghost<Cut>,
    ) -> (r: Result<()>)
        requires
            self.wf(),
            old(dec).wf(),
            old(dec).tables() == self.tables.residual(),
            old(dst)@.len() == self.scale_log.c * self.lh * self.lw,
            0 < area.height,
            0 < area.width,
            area.y + area.height <= self.lh,
            area.x + area.width <= self.lw,
            c0 < self.num_decode,
            1 <= step,
            cut == (Cut {
                lh: self.lh as int,
                lw: self.lw as int,
                area,
                num_chs: self.num_chs as int,
                num_decode: self.num_decode as int,
                step: step as int,
            }),
            old(ledger).wf(),
            old(ledger)@.total() + 8 * cut.len(c0 as int) <= usize::MAX,
        ensures
            final(ledger).wf(),
            final(ledger)@ == old(ledger)@.visited(8int * cut.len(c0 as int)),
            final(dec).wf(),
            final(dec).tables() == self.tables.residual(),
            final(dec).readers().len() == old(dec).readers().len(),
            final(dst)@.len() == old(dst)@.len(),
            ({
                let s = self.shared();
                let call = chunk_call(
                    s.tables,
                    old(dec).readers().len() == 1,
                    s.scale,
                    s.mask,
                    cut,
                    c0 as int,
                );
                let m = decoder::spec_decode_residual(
                    call,
                    old(dec).readers(),
                    Seq::new(cut.len(c0 as int), |i: int| 0i16),
                    0,
                );
                if decoder::any_failed(m.0) {
                    r == Err::<(), Error>(Error::InvalidData("ANS stream exhausted"))
                } else {
                    &&& r == Ok::<(), Error>(())
                    &&& final(dec).readers() == m.0
                    &&& final(dst)@ == residual::scattered(
                        old(dst)@,
                        m.1,
                        s.lh,
                        s.lw,
                        area,
                        c0 as int,
                        cut.end(c0 as int),
                    )
                }
            }),
    {
        let c1: usize = if step < self.num_chs - c0 { c0 + step } else { self.num_chs };
        let ghost n = self.scale_log.c as int;
        let ghost (lh, lw) = (self.lh as int, self.lw as int);
        let scales: Vec<i32> = residual::gather(
            &self.scale_log.data,
            self.lh,
            self.lw,
            area,
            c0,
            c1,
            Ghost(n),
        );
        let coded: Vec<bool> = residual::gather(
            &self.mask.data,
            self.lh,
            self.lw,
            area,
            c0,
            c1,
            Ghost(n),
        );
        let mut sigma: Vec<u8> = Vec::new();
        let mut symbols: Vec<i16> = Vec::new();
        while sigma.len() < scales.len()
            invariant
                sigma@.len() <= scales@.len(),
                symbols@.len() == sigma@.len(),
                forall|i: int|
                    0 <= i < sigma@.len() ==> #[trigger] sigma@[i] == residual::spec_distribution(
                        scales@[i],
                    ),
                forall|i: int| 0 <= i < symbols@.len() ==> #[trigger] symbols@[i] == 0,
            decreases scales@.len() - sigma@.len(),
        {
            sigma.push(distribution_index(scales[sigma.len()]));
            symbols.push(0);
        }
        proof {
            residual::lemma_chunk_len(dst@.len(), n, lh, lw, area, c0 as int, c1 as int);
            assert(c1 == cut.end(c0 as int));
            assert(sigma@ =~= distributions(scales@));
            assert(symbols@ =~= Seq::new(cut.len(c0 as int), |i: int| 0i16));
        }
        let charge = Charge::new(ledger, 8 * scales.len());
        let done = dec.decode_residual(&sigma, &coded, &mut symbols);
        charge.discharge(ledger);
        done?;
        residual::scatter(dst, &symbols, self.lh, self.lw, area, c0, c1, Ghost(n));
        Ok(())
    }

    /// One region's residual: the sequential chunks of channels, each put in place.
    fn decode_region_into(
        &self,
        ledger: &mut Ledger,
        dst: &mut Vec<i16>,
        area: Area,
        payload: &[u8],
    ) -> (r: Result<()>)
        requires
            self.wf(),
            old(ledger).wf(),
            old(ledger)@.total() + 8 * self.scale_log.data@.len() <= usize::MAX,
            bitio::addressable(payload@.len()),
            old(dst)@.len() == self.scale_log.c * self.lh * self.lw,
            0 < area.height,
            0 < area.width,
            area.y + area.height <= self.lh,
            area.x + area.width <= self.lw,
            0 < self.num_decode,
        ensures
            final(ledger).wf(),
            final(ledger)@ == old(ledger)@.visited(region_scratch(self.shared(), area, payload@)),
            final(dst)@.len() == old(dst)@.len(),
            match spec_region(self.shared(), area, payload@, old(dst)@) {
                Ok(planes) => r == Ok::<(), Error>(()) && final(dst)@ == planes,
                Err(e) => r == Err::<(), Error>(e),
            },
    {
        let threads = container::split_threads(payload, self.num_threads)?;
        let mut dec = self.tables.decoder(&threads)?;
        let planes_len: usize = dst.len();
        proof {
            lemma_region_area(
                dst@.len(),
                self.scale_log.c as int,
                self.lh as int,
                self.lw as int,
                area,
                self.num_decode as int,
            );
        }
        let step: usize = channel_step(
            area.height,
            area.width,
            self.num_decode,
            self.num_threads,
        );
        let ghost s = self.shared();
        let ghost cut = Cut::of(
            s.lh,
            s.lw,
            area,
            s.num_chs,
            s.num_decode,
            s.num_threads as int,
        );
        let ghost readers0 = dec.readers();
        let ghost dst0 = dst@;
        let mut c0: usize = 0;
        while c0 < self.num_decode
            invariant
                self.wf(),
                dec.wf(),
                dec.tables() == self.tables.residual(),
                dst@.len() == self.scale_log.c * self.lh * self.lw,
                dst@.len() == old(dst)@.len(),
                dst0 == old(dst)@,
                0 < area.height,
                0 < area.width,
                area.y + area.height <= self.lh,
                area.x + area.width <= self.lw,
                1 <= step <= self.num_decode,
                s == self.shared(),
                ledger.wf(),
                old(ledger).wf(),
                old(ledger)@.total() + 8 * self.scale_log.data@.len() <= usize::MAX,
                ledger@ == old(ledger)@.visited(if c0 == 0 { 0 } else { 8 * cut.len(0) as int }),
                region_scratch(s, area, payload@) == 8 * cut.len(0),
                cut == (Cut {
                    lh: self.lh as int,
                    lw: self.lw as int,
                    area,
                    num_chs: self.num_chs as int,
                    num_decode: self.num_decode as int,
                    step: step as int,
                }),
                spec_region(s, area, payload@, dst0) == ({
                    let m = spec_chunks(s.tables, s.scale, s.mask, cut, readers0, dst0, 0);
                    if m.2 {
                        Ok(m.1)
                    } else {
                        Err(Error::InvalidData("ANS stream exhausted"))
                    }
                }),
                ({
                    let a = spec_chunks(s.tables, s.scale, s.mask, cut, readers0, dst0, 0);
                    let b = spec_chunks(
                        s.tables,
                        s.scale,
                        s.mask,
                        cut,
                        dec.readers(),
                        dst@,
                        c0 as int,
                    );
                    a.1 == b.1 && a.2 == b.2
                }),
            decreases self.num_decode - c0,
        {
            proof {
                lemma_first_chunk(cut, c0 as int, self.scale_log.c as int, dst@.len());
            }
            self.decode_chunk(ledger, &mut dec, dst, area, step, c0, Ghost(cut))?;
            if self.num_decode - c0 <= step {
                proof {
                    let done = spec_chunks(
                        s.tables,
                        s.scale,
                        s.mask,
                        cut,
                        dec.readers(),
                        dst@,
                        c0 + step,
                    );
                    assert(done == (dec.readers(), dst@, true));
                }
                return Ok(());
            }
            c0 = c0 + step;
        }
        Ok(())
    }
}

/// The samples of a region and channels on planes are no more than the planes have.
pub proof fn lemma_region_area(len: nat, n: int, lh: int, lw: int, area: Area, num: int)
    requires
        len == n * lh * lw,
        area.y + area.height <= lh,
        area.x + area.width <= lw,
        0 < area.height,
        0 < area.width,
        0 <= num <= n,
        1 <= n,
    ensures
        area.height * area.width * num <= len,
        area.height * area.width <= len,
{
    let a = area.height * area.width;
    assert(0 <= a <= lh * lw) by (nonlinear_arith)
        requires
            a == area.height * area.width,
            0 <= area.height <= lh,
            0 <= area.width <= lw,
    ;
    assert(n * lh * lw == n * (lh * lw)) by (nonlinear_arith);
    assert(a * num <= n * (lh * lw)) by (nonlinear_arith)
        requires
            0 <= a <= lh * lw,
            0 <= num <= n,
    ;
    assert(a <= n * (lh * lw)) by (nonlinear_arith)
        requires
            0 <= a <= lh * lw,
            1 <= n,
    ;
}

/// The smaller of two numbers.
pub open spec fn smaller(a: int, b: int) -> int {
    if a < b {
        a
    } else {
        b
    }
}

/// What all regions of a component share, by its header and maps.
pub open spec fn shared_of(
    tables: ResidualTables,
    comp: ComponentHeader,
    size: (int, int),
    scale_log: Tensor<i32>,
    mask: Tensor<bool>,
    max_channels: Option<u16>,
) -> Shared {
    let num_chs = smaller(comp.num_chs as int, scale_log.c as int);
    Shared {
        tables,
        scale: scale_log.data@,
        mask: mask.data@,
        lh: size.0,
        lw: size.1,
        num_chs,
        num_decode: match max_channels {
            Some(m) => smaller(m as int, num_chs),
            None => num_chs,
        },
        num_threads: comp.num_threads_r as nat,
    }
}

/// The quantised residual of a component from the payloads of its regions (the output of
/// [`crate::container::split_regions`] for SORP or SORS).
///
/// `scale_log` and `mask` are the maps that the hyper-latent gives: sigma indices, and where a
/// residual symbol is present in the stream. `areas` are the regions on the latent grid. With
/// `max_channels` the decode is progressive: it stops after the first channels. The chunking is
/// computed from the reduced count; a chunk may still end past it. The buffers of the chunks are
/// charged to the ledger while they are held.
pub fn decode_component_body(
    ledger: &mut Ledger,
    tables: &AnsTables,
    hdr: &PictureHeader,
    ccs: usize,
    scale_log: &Tensor<i32>,
    mask: &Tensor<bool>,
    areas: &[Area],
    region_payloads: &[Option<&[u8]>],
    max_channels: Option<u16>,
) -> (r: Result<Tensor<i16>>)
    requires
        tables.wf(),
        ccs < 2,
        ({
            let size = crate::header::picture::spec_latent_size(
                hdr.height as int,
                hdr.width as int,
                ccs as int,
            );
            &&& scale_log.is_of(scale_log.c as int, size.0, size.1)
            &&& mask.is_of(scale_log.c as int, size.0, size.1)
        }),
        container::readable_parts(region_payloads@),
        old(ledger).wf(),
        old(ledger)@.total() + 8 * scale_log.data@.len() <= usize::MAX,
    ensures
        final(ledger).wf(),
        ({
            let size = crate::header::picture::spec_latent_size(
                hdr.height as int,
                hdr.width as int,
                ccs as int,
            );
            let s = shared_of(
                tables.residual(),
                hdr.components@[ccs as int],
                size,
                *scale_log,
                *mask,
                max_channels,
            );
            let zeros = Seq::new(scale_log.data@.len(), |i: int| 0i16);
            final(ledger)@ == if region_payloads@.len() != areas@.len() {
                old(ledger)@
            } else {
                old(ledger)@.visited(
                    scratch(
                        s,
                        areas@,
                        container::optional_contents(region_payloads@),
                        zeros,
                        0,
                    ),
                )
            }
        }),
        ({
            let size = crate::header::picture::spec_latent_size(
                hdr.height as int,
                hdr.width as int,
                ccs as int,
            );
            let s = shared_of(
                tables.residual(),
                hdr.components@[ccs as int],
                size,
                *scale_log,
                *mask,
                max_channels,
            );
            let zeros = Seq::new(scale_log.data@.len(), |i: int| 0i16);
            if region_payloads@.len() != areas@.len() {
                r == Err::<Tensor<i16>, Error>(
                    Error::InvalidData("residual region count does not match the header"),
                )
            } else {
                match spec_regions(
                    s,
                    areas@,
                    container::optional_contents(region_payloads@),
                    zeros,
                    0,
                ) {
                    Ok(planes) => r matches Ok(t) && t.is_of(scale_log.c as int, size.0, size.1)
                        && t.data@ == planes,
                    Err(e) => r == Err::<Tensor<i16>, Error>(e),
                }
            }
        }),
{
    let (lh, lw): (u32, u32) = hdr.latent_size(ccs);
    let chs: usize = scale_log.c;
    let coded: usize = hdr.components[ccs].num_chs as usize;
    let num_chs: usize = if coded < chs { coded } else { chs };
    let num_decode: usize = match max_channels {
        Some(m) => if (m as usize) < num_chs {
            m as usize
        } else {
            num_chs
        },
        None => num_chs,
    };
    if region_payloads.len() != areas.len() {
        return Err(Error::InvalidData("residual region count does not match the header"));
    }
    let ctx = ResidualCtx {
        tables,
        scale_log,
        mask,
        lh: lh as usize,
        lw: lw as usize,
        num_chs,
        num_decode,
        num_threads: hdr.components[ccs].num_threads_r as usize,
    };
    let mut planes: Vec<i16> = Vec::new();
    while planes.len() < scale_log.data.len()
        invariant
            planes@.len() <= scale_log.data@.len(),
            forall|i: int| 0 <= i < planes@.len() ==> #[trigger] planes@[i] == 0,
        decreases scale_log.data@.len() - planes@.len(),
    {
        planes.push(0);
    }
    let ghost s = ctx.shared();
    let ghost ps = container::optional_contents(region_payloads@);
    let ghost zeros = Seq::new(scale_log.data@.len(), |i: int| 0i16);
    proof {
        assert(planes@ =~= zeros);
    }
    let mut k: usize = 0;
    while k < areas.len()
        invariant
            k <= areas@.len(),
            areas@.len() == region_payloads@.len(),
            ps == container::optional_contents(region_payloads@),
            s == ctx.shared(),
            s == shared_of(
                tables.residual(),
                hdr.components@[ccs as int],
                crate::header::picture::spec_latent_size(
                    hdr.height as int,
                    hdr.width as int,
                    ccs as int,
                ),
                *scale_log,
                *mask,
                max_channels,
            ),
            zeros == Seq::new(scale_log.data@.len(), |i: int| 0i16),
            s.num_decode == num_decode,
            ctx.num_decode == num_decode,
            ctx.wf(),
            planes@.len() == scale_log.c * ctx.lh * ctx.lw,
            ctx.scale_log.c == scale_log.c,
            container::readable_parts(region_payloads@),
            ctx.scale_log.data@ == scale_log.data@,
            ledger.wf(),
            old(ledger).wf(),
            ledger@.total() == old(ledger)@.total(),
            old(ledger)@.total() + 8 * scale_log.data@.len() <= usize::MAX,
            old(ledger)@.visited(scratch(s, areas@, ps, zeros, 0)) == ledger@.visited(
                scratch(s, areas@, ps, planes@, k as int),
            ),
            spec_regions(s, areas@, ps, zeros, 0) == spec_regions(s, areas@, ps, planes@, k as int),
        decreases areas@.len() - k,
    {
        let area: Area = areas[k].clip(ctx.lh, ctx.lw);
        proof {
            assert(ps[k as int] == match region_payloads@[k as int] {
                Some(p) => Some(p@),
                None => None,
            });
        }
        if let Some(payload) = region_payloads[k] {
            if area.height != 0 && area.width != 0 && num_decode != 0 {
                ctx.decode_region_into(ledger, &mut planes, area, payload)?;
            }
        }
        k = k + 1;
    }
    Ok(Tensor { c: chs, h: lh as usize, w: lw as usize, data: planes })
}

/// Hyper-latent symbols as samples.
pub open spec fn z_samples(symbols: Seq<u8>, z_offset: i32) -> Seq<i8> {
    Seq::new(symbols.len(), |i: int| (symbols[i] - z_offset) as i8)
}

/// Decoding a hyper-latent of `size` samples per channel: the threads behind it and the samples.
pub open spec fn spec_z(
    cdfs: Seq<Seq<u8>>,
    size: nat,
    z_offset: i32,
    readers: Seq<Reader>,
) -> core::result::Result<(Seq<Reader>, Seq<i8>), Error> {
    let zeros = Seq::new(cdfs.len() * size, |i: int| 0u8);
    if size == 0 {
        Ok((readers, z_samples(zeros, z_offset)))
    } else {
        let m = decoder::spec_decode_z(cdfs, size, readers, zeros, 0);
        if !m.2 {
            Err(Error::InvalidData("z CDF is not monotonic"))
        } else if decoder::any_failed(m.0) {
            Err(Error::InvalidData("ANS stream exhausted"))
        } else {
            Ok((m.0, z_samples(m.1, z_offset)))
        }
    }
}

/// Decode the hyper-latent of one component from the shared SOZ decoder: one CDF per channel,
/// `hz x wz` symbols each, which stand for samples from `-z_offset` to `63 - z_offset`. The symbols
/// are charged to the ledger while they are decoded.
pub fn decode_z(
    ledger: &mut Ledger,
    dec: &mut AnsDecoder<'_>,
    cdfs: &[[u8; MAX_Z]],
    z_offset: i32,
    hz: usize,
    wz: usize,
) -> (r: Result<Tensor<i8>>)
    requires
        old(dec).wf(),
        hz * wz <= usize::MAX,
        cdfs@.len() * (hz * wz) <= usize::MAX,
        0 <= z_offset <= 128,
        old(ledger).wf(),
        old(ledger)@.total() + cdfs@.len() * (hz * wz) <= usize::MAX,
    ensures
        final(ledger).wf(),
        final(ledger)@ == old(ledger)@.visited(cdfs@.len() * (hz * wz)),
        final(dec).wf(),
        final(dec).tables() == old(dec).tables(),
        match spec_z(
            decoder::cdf_views(cdfs@),
            (hz * wz) as nat,
            z_offset,
            old(dec).readers(),
        ) {
            Ok((readers, samples)) => r matches Ok(t) && t.is_of(
                cdfs@.len() as int,
                hz as int,
                wz as int,
            ) && t.data@ == samples && final(dec).readers() == readers,
            Err(e) => r == Err::<Tensor<i8>, Error>(e),
        },
        r matches Ok(t) ==> forall|i: int|
            0 <= i < t.data@.len() ==> -z_offset <= #[trigger] t.data@[i] <= 63 - z_offset,
{
    let chs: usize = cdfs.len();
    let size: usize = hz * wz;
    let total: usize = chs * size;
    let mut symbols: Vec<u8> = Vec::new();
    while symbols.len() < total
        invariant
            symbols@.len() <= total,
            forall|i: int| 0 <= i < symbols@.len() ==> #[trigger] symbols@[i] == 0,
        decreases total - symbols@.len(),
    {
        symbols.push(0);
    }
    proof {
        assert(symbols@ =~= Seq::new(decoder::cdf_views(cdfs@).len() * size as nat, |i: int| 0u8));
        assert(chs * (hz * wz) == chs * hz * wz) by (nonlinear_arith);
    }
    let charge = Charge::new(ledger, total);
    let done = dec.decode_z(cdfs, size, &mut symbols);
    charge.discharge(ledger);
    done?;
    let mut data: Vec<i8> = Vec::new();
    while data.len() < total
        invariant
            data@.len() <= total,
            total == symbols@.len(),
            0 <= z_offset <= 128,
            forall|i: int| 0 <= i < symbols@.len() ==> #[trigger] symbols@[i] <= 63,
            forall|i: int|
                0 <= i < data@.len() ==> #[trigger] data@[i] == symbols@[i] - z_offset,
        decreases total - data@.len(),
    {
        let v: i32 = symbols[data.len()] as i32 - z_offset;
        data.push(v as i8);
    }
    proof {
        assert(data@ =~= z_samples(symbols@, z_offset));
    }
    Ok(Tensor { c: chs, h: hz, w: wz, data })
}

/// Where the channel gain flags come from.
#[derive(Clone, Copy, Debug)]
pub enum GrfsFlags<'a> {
    /// Decoding: the flags the picture header carries.
    Signalled(Option<&'a [bool]>),
    /// Encoding: derived from the scale map when the tool is enabled.
    Derive(bool),
}

impl<'a> GrfsFlags<'a> {
    /// The flags in force, given those that the scale map (as it stands before residual variance
    /// scaling) would give.
    pub open spec fn spec_in_force(self, derived: Seq<bool>) -> Option<Seq<bool>> {
        match self {
            GrfsFlags::Signalled(Some(f)) => Some(f@),
            GrfsFlags::Signalled(None) => None,
            GrfsFlags::Derive(true) => Some(derived),
            GrfsFlags::Derive(false) => None,
        }
    }

    /// The flags in force, given those that the scale map (as it stands before residual variance
    /// scaling) would give.
    pub fn in_force(self, derived: &[bool]) -> (flags: Option<Vec<bool>>)
        ensures
            match flags {
                Some(v) => self.spec_in_force(derived@) == Some(v@),
                None => self.spec_in_force(derived@) is None,
            },
    {
        match self {
            GrfsFlags::Signalled(Some(f)) => Some(copied_flags(f)),
            GrfsFlags::Signalled(None) => None,
            GrfsFlags::Derive(true) => Some(copied_flags(derived)),
            GrfsFlags::Derive(false) => None,
        }
    }
}

fn copied_flags(flags: &[bool]) -> (v: Vec<bool>)
    ensures
        v@ == flags@,
{
    let mut v: Vec<bool> = Vec::new();
    v.extend_from_slice(flags);
    proof {
        assert(v@ =~= flags@);
    }
    v
}

/// A log-domain gain is within its range.
pub open spec fn gain_in_range(add: i32) -> bool {
    -8192 <= add < 8192
}

/// Every log-domain gain is within its range.
pub open spec fn gains_in_range(gains: Seq<i32>) -> bool {
    forall|i: int| 0 <= i < gains.len() ==> gain_in_range(#[trigger] gains[i])
}

/// Sigma indices with each channel's log-domain gain added: what drives skip mode, and, before
/// residual variance scaling, the entropy coder.
pub fn component_scales(scale_log: Tensor<i32>, scaler_log: &[i32]) -> (r: Result<Tensor<i32>>)
    requires
        scale_log.wf(),
        scale_log.h > 0,
        scale_log.w > 0,
        scaler_log@.len() >= scale_log.c,
        forall|i: int|
            0 <= i < scale_log.data@.len() ==> i32::MIN + 8192 <= #[trigger] scale_log.data@[i]
                <= i32::MAX - 8191,
    ensures
        if gains_in_range(scaler_log@) {
            &&& r matches Ok(t)
            &&& t.is_of(scale_log.c as int, scale_log.h as int, scale_log.w as int)
            &&& forall|i: int|
                0 <= i < t.data@.len() ==> #[trigger] t.data@[i] == scale_log.data@[i]
                    + scaler_log@[i / scale_log.w as int / scale_log.h as int]
        } else {
            r == Err::<Tensor<i32>, Error>(Error::InvalidData("log-domain scaler out of range"))
        },
{
    let mut i: usize = 0;
    while i < scaler_log.len()
        invariant
            i <= scaler_log@.len(),
            forall|j: int| 0 <= j < i ==> gain_in_range(#[trigger] scaler_log@[j]),
        decreases scaler_log@.len() - i,
    {
        if scaler_log[i] < -8192 || scaler_log[i] >= 8192 {
            proof {
                assert(!gain_in_range(scaler_log@[i as int]));
            }
            return Err(Error::InvalidData("log-domain scaler out of range"));
        }
        i = i + 1;
    }
    let mut data: Vec<i32> = Vec::new();
    let count: usize = scale_log.data.len();
    while data.len() < count
        invariant
            data@.len() <= count,
            count == scale_log.data@.len(),
            scale_log.wf(),
            scale_log.h > 0,
            scale_log.w > 0,
            scaler_log@.len() >= scale_log.c,
            gains_in_range(scaler_log@),
            forall|i: int|
                0 <= i < scale_log.data@.len() ==> i32::MIN + 8192 <= #[trigger] scale_log.data@[i]
                    <= i32::MAX - 8191,
            forall|i: int|
                0 <= i < data@.len() ==> #[trigger] data@[i] == scale_log.data@[i]
                    + scaler_log@[i / scale_log.w as int / scale_log.h as int],
        decreases count - data@.len(),
    {
        let k: usize = data.len();
        proof {
            crate::tensor::lemma_parts_place(
                scale_log.h as int,
                scale_log.w as int,
                scale_log.c as int,
                k as int,
            );
            assert(i32::MIN + 8192 <= scale_log.data@[k as int] <= i32::MAX - 8191);
        }
        let ch: usize = k / scale_log.w / scale_log.h;
        proof {
            assert(gain_in_range(scaler_log@[ch as int]));
        }
        data.push(scale_log.data[k] + scaler_log[ch]);
    }
    Ok(Tensor { c: scale_log.c, h: scale_log.h, w: scale_log.w, data })
}

} // verus!

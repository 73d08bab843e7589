//! An encode from quantised components: the headers that follow from the parameters and from what
//! the components committed, then the codestream.

use vstd::prelude::*;

use crate::area::Area;
use crate::bitio;
use crate::container;
use crate::container::Marker;
use crate::decoder::entropy;
use crate::decoder::front;
use crate::encoder::assemble;
use crate::encoder::assemble::Parts;
use crate::encoder::commit;
use crate::encoder::commit::Committed;
use crate::encoder::params;
use crate::encoder::params::{coded_header, tool_header, EncodeParams, SideInfo, SideView};
use crate::encoder::residual as put;
use crate::encoder::round_trip as back;
use crate::encoder::stream;
use crate::encoder::stream::{try_encode_stream, Coded};
use crate::error::{Error, Result};
use crate::header::rendering;
use crate::header::{PictureHeader, RenderingInfo, ToolHeader};
use crate::mans::tables::{PdfTables, ResidualTables, MAX_Z};
use crate::mans::AnsTables;
use crate::mem::Ledger;
use crate::regions;
use crate::tensor::Tensor;

verus! {

/// A quantised component.
pub struct Quantised<'a> {
    /// The hyper-latent.
    pub z_hat: &'a Tensor<i8>,
    /// One CDF per channel of the hyper-latent.
    pub z_cdfs: &'a [[u8; MAX_Z]],
    pub scale_log: &'a Tensor<i32>,
    pub committed: &'a Committed,
    /// The channels whose gain is raised, if channel gains are in use.
    pub grfs_channel_flags: &'a Option<Vec<bool>>,
    /// The regions on the latent planes.
    pub areas: &'a [Area],
}

impl<'a> Quantised<'a> {
    /// What goes to the entropy coder.
    pub open spec fn coded(self) -> Coded<'a> {
        Coded {
            z_hat: self.z_hat,
            z_cdfs: self.z_cdfs,
            scale_log: self.scale_log,
            mask: &self.committed.mask,
            residual_q: &self.committed.residual_q,
            areas: self.areas,
        }
    }

    /// What goes into the header.
    pub open spec fn side(self) -> SideView {
        SideView {
            cube_flags: regions::flags_view(self.committed.cube_flags),
            grfs_channel_flags: regions::flags_view(*self.grfs_channel_flags),
        }
    }

    fn to_coded(&self) -> (c: Coded<'a>)
        ensures
            c == self.coded(),
    {
        Coded {
            z_hat: self.z_hat,
            z_cdfs: self.z_cdfs,
            scale_log: self.scale_log,
            mask: &self.committed.mask,
            residual_q: &self.committed.residual_q,
            areas: self.areas,
        }
    }

    fn to_side(&self) -> (s: SideInfo)
        ensures
            s@ == self.side(),
    {
        SideInfo {
            cube_flags: copied(&self.committed.cube_flags),
            grfs_channel_flags: copied(self.grfs_channel_flags),
        }
    }
}

fn copied(flags: &Option<Vec<bool>>) -> (copy: Option<Vec<bool>>)
    ensures
        regions::flags_view(copy) == regions::flags_view(*flags),
{
    match flags {
        None => None,
        Some(f) => {
            let mut v: Vec<bool> = Vec::new();
            while v.len() < f.len()
                invariant
                    v@ == f@.take(v@.len() as int),
                    v@.len() <= f@.len(),
                decreases f@.len() - v@.len(),
            {
                let i: usize = v.len();
                v.push(f[i]);
                proof {
                    assert(v@ =~= f@.take(i + 1));
                }
            }
            proof {
                assert(v@ =~= f@);
            }
            Some(v)
        },
    }
}

/// The headers of an encode.
pub open spec fn headers_say(
    hdr: PictureHeader,
    ton: ToolHeader,
    rdi: RenderingInfo,
    width: usize,
    height: usize,
    params: EncodeParams,
    luma: SideView,
    chroma: SideView,
) -> bool {
    &&& hdr@ == params::spec_coded_header(width as u32, height as u32, params, luma, chroma)
    &&& ton@ == params::spec_tool_header(params)
    &&& rdi@ == (rendering::RenderingView {
        cicp: None,
        mdcv: None,
        clli: None,
        display_mapping: None,
    })
}

/// Encode quantised components of a `width x height` picture; nothing where a piece of the
/// codestream is too large for the container.
pub fn encode_quantised(
    ledger: &mut Ledger,
    tables: &AnsTables,
    width: usize,
    height: usize,
    params: &EncodeParams,
    luma: &Quantised<'_>,
    chroma: &Quantised<'_>,
    z_offset: i32,
) -> (r: Option<Result<Vec<u8>>>)
    requires
        tables.wf(),
        0 <= z_offset <= 128,
        luma.coded().z_fits(z_offset),
        chroma.coded().z_fits(z_offset),
        params::params_error(width as int, height as int, params.model_id) is None ==> {
            &&& luma.coded().planes_of(height as int, width as int, 0)
            &&& chroma.coded().planes_of(height as int, width as int, 1)
        },
        old(ledger).wf(),
        old(ledger)@.total() + put::MAX_HELD <= usize::MAX,
    ensures
        final(ledger).wf(),
        match params::params_error(width as int, height as int, params.model_id) {
            Some(e) => r == Some(Err::<Vec<u8>, Error>(e)) && final(ledger)@ == old(ledger)@,
            None => exists|hdr: PictureHeader, ton: ToolHeader, rdi: RenderingInfo|
                #[trigger] headers_say(
                    hdr,
                    ton,
                    rdi,
                    width,
                    height,
                    *params,
                    luma.side(),
                    chroma.side(),
                ) && final(ledger)@ == old(ledger)@.visited(
                    stream::stream_held(
                        tables.residual(),
                        hdr,
                        luma.coded(),
                        chroma.coded(),
                        z_offset,
                    ),
                ) && stream::is_tried(
                    stream::spec_stream(
                        tables.residual(),
                        hdr,
                        ton,
                        rdi,
                        luma.coded(),
                        chroma.coded(),
                        z_offset,
                    ),
                    r,
                ),
        },
{
    let hdr: PictureHeader = match coded_header(
        width,
        height,
        params,
        luma.to_side(),
        chroma.to_side(),
    ) {
        Ok(hdr) => hdr,
        Err(e) => return Some(Err(e)),
    };
    let ton: ToolHeader = tool_header(params);
    let rdi = RenderingInfo::default();
    let (of_luma, of_chroma): (Coded<'_>, Coded<'_>) = (luma.to_coded(), chroma.to_coded());
    proof {
        let v = params::spec_coded_header(
            width as u32,
            height as u32,
            *params,
            luma.side(),
            chroma.side(),
        );
        assert(hdr.width == v.geometry.width && hdr.height == v.geometry.height);
        assert(hdr.height * hdr.width == width * height) by (nonlinear_arith)
            requires
                hdr.height == height,
                hdr.width == width,
        ;
        params::lemma_counts_from_one(
            width as u32,
            height as u32,
            *params,
            luma.side(),
            chroma.side(),
        );
        assert(headers_say(hdr, ton, rdi, width, height, *params, luma.side(), chroma.side()));
    }
    try_encode_stream(ledger, tables, &hdr, &ton, &rdi, &of_luma, &of_chroma, z_offset)
}

/// The residual of a component goes in and comes out whole: every channel is coded, the regions
/// cover the planes, and nothing but zeros stands where no sample is coded.
pub open spec fn whole(tables: ResidualTables, hdr: PictureHeader, ccs: int, q: Quantised) -> bool {
    let s = put::put_shared(tables, hdr, ccs, *q.scale_log, q.committed.mask);
    let values = q.committed.residual_q.data@;
    &&& q.committed.residual_q.c <= hdr.components@[ccs].num_chs
    &&& values == regions::spec_coded_only(values, q.committed.mask.data@)
    &&& forall|x: int, y: int|
        0 <= x < s.lw && 0 <= y < s.lh ==> #[trigger] back::held(q.areas@, 0, x, y)
}

/// What a decoder finds of a component's residual is what was committed.
pub open spec fn residual_found(
    tables: ResidualTables,
    hdr: PictureHeader,
    ccs: int,
    q: Quantised,
    found: core::result::Result<Seq<Option<Seq<u8>>>, Error>,
) -> bool {
    let s = put::put_shared(tables, hdr, ccs, *q.scale_log, q.committed.mask);
    let values = q.committed.residual_q.data@;
    &&& found matches Ok(payloads)
    &&& entropy::spec_regions(
        s,
        q.areas@,
        payloads,
        Seq::new(values.len(), |i: int| 0i16),
        0,
    ) == Ok::<Seq<i16>, Error>(values)
}

/// A residual that comes back coded sample by coded sample comes back whole.
proof fn lemma_residual_found(
    tables: ResidualTables,
    hdr: PictureHeader,
    ccs: int,
    q: Quantised,
    found: core::result::Result<Seq<Option<Seq<u8>>>, Error>,
)
    requires
        0 <= ccs < 2,
        0 < hdr.height,
        0 < hdr.width,
        q.coded().planes_fit(hdr, ccs),
        whole(tables, hdr, ccs, q),
        stream::residual_back(tables, hdr, ccs, q.coded(), found),
    ensures
        residual_found(tables, hdr, ccs, q, found),
{
    let s = put::put_shared(tables, hdr, ccs, *q.scale_log, q.committed.mask);
    let values = q.committed.residual_q.data@;
    let n = q.committed.residual_q.c as int;
    commit::law_committed_residual_comes_back(s, q.areas@, values, n);
}

/// An encode comes back whole: a decoder that reads the codestream finds the headers that the
/// parameters and the components settle, both hyper-latents and both residuals, sample for sample.
pub proof fn law_quantised_comes_back(
    pdf: &PdfTables,
    tables: ResidualTables,
    hdr: PictureHeader,
    ton: ToolHeader,
    rdi: RenderingInfo,
    width: usize,
    height: usize,
    params: EncodeParams,
    luma: Quantised,
    chroma: Quantised,
    z_offset: i32,
    p: Parts,
)
    requires
        pdf.wf(),
        tables.of(pdf),
        0 <= z_offset <= 128,
        params::params_error(width as int, height as int, params.model_id) is None,
        headers_say(hdr, ton, rdi, width, height, params, luma.side(), chroma.side()),
        luma.coded().z_fits(z_offset),
        chroma.coded().z_fits(z_offset),
        stream::spec_stream(tables, hdr, ton, rdi, luma.coded(), chroma.coded(), z_offset) == Ok::<
            Parts,
            Error,
        >(p),
        stream::sizes_fit(p),
        stream::residual_fits(pdf, tables, hdr, 0, luma.coded()),
        stream::residual_fits(pdf, tables, hdr, 1, chroma.coded()),
        whole(tables, hdr, 0, luma),
        whole(tables, hdr, 1, chroma),
        bitio::addressable(p.soz.len()),
        bitio::addressable(container::codestream_bytes(assemble::stream_pieces(p)).len()),
        !p.independent ==> bitio::addressable(container::joined_regions(p.luma).len())
            && bitio::addressable(container::joined_regions(p.chroma).len()),
    ensures
        stream::comes_back(
            tables,
            hdr,
            ton,
            rdi,
            luma.coded(),
            chroma.coded(),
            z_offset,
            p,
        ),
        ({
            let subs = assemble::stream_pieces(p);
            let of_luma = front::spec_payloads(subs, Marker::Sorp, hdr@.regions);
            let of_chroma = front::spec_payloads(subs, Marker::Sors, hdr@.regions);
            &&& residual_found(tables, hdr, 0, luma, of_luma)
            &&& residual_found(tables, hdr, 1, chroma, of_chroma)
        }),
{
    let subs = assemble::stream_pieces(p);
    params::lemma_header_codable(
        width as u32,
        height as u32,
        params,
        luma.side(),
        chroma.side(),
    );
    stream::law_encode_comes_back(
        pdf,
        tables,
        hdr,
        ton,
        rdi,
        luma.coded(),
        chroma.coded(),
        z_offset,
        p,
    );
    lemma_residual_found(
        tables,
        hdr,
        0,
        luma,
        front::spec_payloads(subs, Marker::Sorp, hdr@.regions),
    );
    lemma_residual_found(
        tables,
        hdr,
        1,
        chroma,
        front::spec_payloads(subs, Marker::Sors, hdr@.regions),
    );
}

} // verus!

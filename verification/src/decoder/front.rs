//! The serial front of the entropy stage: both components' hyper-latents (one shared substream,
//! decoded in order), the quality map's substream, and each component's region payloads.

use vstd::prelude::*;

use crate::container;
use crate::container::{Codestream, Marker, Piece, RegionLayout};
use crate::decoder::entropy;
use crate::decoder::headers;
use crate::error::{Error, Result};
use crate::header::picture;
use crate::header::{PictureHeader, Regions};
use crate::mans::decoder;
use crate::mans::decoder::Reader;
use crate::mans::tables::MAX_Z;
use crate::mans::AnsTables;
use crate::mem;
use crate::mem::Ledger;
use crate::tensor::Tensor;

verus! {

/// Entropy-stage options beyond the headers.
#[derive(Clone, Copy, Debug)]
pub struct EntropyOptions {
    /// Channels to read per component (progressive decode); `None` reads every coded channel.
    pub max_channels: [Option<u16>; 2],
    /// Run independent units (the two components, residual regions, ANS threads) on a thread
    /// pool. Output is identical either way; this only picks where the work runs.
    pub parallel: bool,
}

impl Default for EntropyOptions {
    fn default() -> (o: Self)
        ensures
            o.max_channels@ == seq![None::<u16>, None::<u16>],
            !o.parallel,
    {
        let o = EntropyOptions { max_channels: [None, None], parallel: false };
        proof {
            assert(o.max_channels@ =~= seq![None::<u16>, None::<u16>]);
        }
        o
    }
}

/// What the front of the entropy stage gives.
pub struct EntropyFront<'a> {
    /// Hyper-latents of luma and chroma.
    pub z: [Tensor<i8>; 2],
    /// The quality map's payload, where the picture has one.
    pub quality_map: Option<&'a [u8]>,
    /// Region payloads of luma and chroma.
    pub regions: [Vec<Option<&'a [u8]>>; 2],
}

/// How regions reach the codestream.
pub open spec fn layout_of(regions: Option<Regions>) -> RegionLayout {
    match regions {
        Some(r) => if r.independent {
            RegionLayout::Independent
        } else {
            RegionLayout::Dependent
        },
        None => RegionLayout::Dependent,
    }
}

/// Number of regions.
pub open spec fn region_count(regions: Option<Regions>) -> nat {
    match regions {
        Some(r) => (r.num_ver as int * r.num_hor as int) as nat,
        None => 1,
    }
}

/// The threads of the SOZ substream.
pub open spec fn spec_soz(subs: Seq<Piece>, num_threads: nat) -> core::result::Result<
    Seq<Reader>,
    Error,
> {
    match headers::first_of(subs, Marker::Soz) {
        None => Err(Error::InvalidData("no z substream")),
        Some(soz) => match container::spec_split_threads(soz, num_threads) {
            Err(e) => Err(e),
            Ok(threads) => decoder::spec_decoder(threads),
        },
    }
}

/// Both hyper-latents, luma first.
pub open spec fn spec_both_z(
    subs: Seq<Piece>,
    num_threads: nat,
    cdfs: (Seq<Seq<u8>>, Seq<Seq<u8>>),
    sizes: (nat, nat),
    z_offset: i32,
) -> core::result::Result<(Seq<i8>, Seq<i8>), Error> {
    match spec_soz(subs, num_threads) {
        Err(e) => Err(e),
        Ok(readers) => match entropy::spec_z(cdfs.0, sizes.0, z_offset, readers) {
            Err(e) => Err(e),
            Ok((behind, luma)) => match entropy::spec_z(cdfs.1, sizes.1, z_offset, behind) {
                Err(e) => Err(e),
                Ok((end, chroma)) => Ok((luma, chroma)),
            },
        },
    }
}

/// Most that the symbols of the hyper-latents hold, one after the other, up to the first one that
/// fails.
pub open spec fn hyper_scratch(
    subs: Seq<Piece>,
    num_threads: nat,
    cdfs: (Seq<Seq<u8>>, Seq<Seq<u8>>),
    sizes: (nat, nat),
    z_offset: i32,
) -> int {
    match spec_soz(subs, num_threads) {
        Err(_) => 0,
        Ok(readers) => mem::larger(
            (cdfs.0.len() * sizes.0) as int,
            match entropy::spec_z(cdfs.0, sizes.0, z_offset, readers) {
                Err(_) => 0,
                Ok(_) => (cdfs.1.len() * sizes.1) as int,
            },
        ),
    }
}

/// The region payloads of a component.
pub open spec fn spec_payloads(subs: Seq<Piece>, marker: Marker, regions: Option<Regions>) -> core::result::Result<
    Seq<Option<Seq<u8>>>,
    Error,
> {
    let all = container::payloads_of(subs, marker);
    if all.len() == 0 && layout_of(regions) == RegionLayout::Dependent {
        Err(Error::InvalidData("missing residual substream"))
    } else {
        container::spec_split_regions(all, layout_of(regions), region_count(regions))
    }
}

/// Samples of a component's hyper-latent per channel.
pub open spec fn z_size(height: int, width: int, ccs: int) -> nat {
    let (h, w) = picture::spec_hyper_latent_size(height, width, ccs);
    (h * w) as nat
}

/// A hyper-latent of a coded picture is small.
proof fn lemma_z_size(height: int, width: int, ccs: int, chs: int)
    requires
        0 <= height <= 65599,
        0 <= width <= 65599,
        0 <= chs <= 160,
    ensures
        ({
            let (h, w) = picture::spec_hyper_latent_size(height, width, ccs);
            &&& 0 <= h * w <= 1_052_676
            &&& 0 <= chs * (h * w) <= 168_428_160
        }),
{
    let (h, w) = picture::spec_hyper_latent_size(height, width, ccs);
    assert(0 <= h <= 1026 && 0 <= w <= 1026);
    assert(0 <= h * w <= 1_052_676) by (nonlinear_arith)
        requires
            0 <= h <= 1026,
            0 <= w <= 1026,
    ;
    let n = h * w;
    assert(0 <= chs * n <= 168_428_160) by (nonlinear_arith)
        requires
            0 <= chs <= 160,
            0 <= n <= 1_052_676,
    ;
}

/// Region payloads of one component.
fn component_payloads<'a>(cs: &Codestream<'a>, marker: Marker, hdr: &PictureHeader) -> (r: Result<
    Vec<Option<&'a [u8]>>,
>)
    requires
        container::readable(cs@),
    ensures
        match spec_payloads(cs@, marker, hdr.regions) {
            Ok(parts) => r matches Ok(v) && container::optional_contents(v@) == parts,
            Err(e) => r == Err::<Vec<Option<&'a [u8]>>, Error>(e),
        },
        r matches Ok(v) ==> container::readable_parts(v@),
{
    let layout = match hdr.regions {
        Some(r) => if r.independent {
            RegionLayout::Independent
        } else {
            RegionLayout::Dependent
        },
        None => RegionLayout::Dependent,
    };
    let payloads: Vec<&'a [u8]> = cs.find_all(marker);
    proof {
        let all = container::payloads_of(cs@, marker);
        assert(container::contents(payloads@).len() == all.len());
        assert forall|i: int| 0 <= i < payloads@.len() implies crate::bitio::addressable(
            (#[trigger] payloads@[i])@.len(),
        ) by {
            container::lemma_readable(cs@, marker, i);
            assert(container::contents(payloads@)[i] == payloads@[i]@);
        }
    }
    if payloads.len() == 0 && layout == RegionLayout::Dependent {
        return Err(Error::InvalidData("missing residual substream"));
    }
    container::split_regions(&payloads, layout, hdr.num_regions())
}

/// A tensor has a component's number of channels and the size of its hyper-latent.
pub open spec fn is_hyper(z: Tensor<i8>, hdr: PictureHeader, ccs: int, chs: nat) -> bool {
    let (h, w) = picture::spec_hyper_latent_size(hdr.height as int, hdr.width as int, ccs);
    z.is_of(chs as int, h, w)
}

/// Both hyper-latents.
fn both_z(
    ledger: &mut Ledger,
    tables: &AnsTables,
    cs: &Codestream<'_>,
    hdr: &PictureHeader,
    cdfs: [&[[u8; MAX_Z]]; 2],
    z_offset: i32,
) -> (r: Result<[Tensor<i8>; 2]>)
    requires
        tables.wf(),
        container::readable(cs@),
        hdr.coded_size(),
        cdfs@[0]@.len() <= 160,
        cdfs@[1]@.len() <= 160,
        0 <= z_offset <= 128,
        old(ledger).wf(),
        old(ledger)@.total() + cdfs@[0]@.len() * z_size(hdr.height as int, hdr.width as int, 0)
            <= usize::MAX,
        old(ledger)@.total() + cdfs@[1]@.len() * z_size(hdr.height as int, hdr.width as int, 1)
            <= usize::MAX,
    ensures
        final(ledger).wf(),
        final(ledger)@ == old(ledger)@.visited(
            hyper_scratch(
                cs@,
                hdr.num_threads_z as nat,
                (decoder::cdf_views(cdfs@[0]@), decoder::cdf_views(cdfs@[1]@)),
                (
                    z_size(hdr.height as int, hdr.width as int, 0),
                    z_size(hdr.height as int, hdr.width as int, 1),
                ),
                z_offset,
            ),
        ),
        match spec_both_z(
            cs@,
            hdr.num_threads_z as nat,
            (decoder::cdf_views(cdfs@[0]@), decoder::cdf_views(cdfs@[1]@)),
            (
                z_size(hdr.height as int, hdr.width as int, 0),
                z_size(hdr.height as int, hdr.width as int, 1),
            ),
            z_offset,
        ) {
            Ok((luma, chroma)) => r matches Ok(z) && z@[0].data@ == luma && z@[1].data@ == chroma
                && is_hyper(z@[0], *hdr, 0, cdfs@[0]@.len()) && is_hyper(
                z@[1],
                *hdr,
                1,
                cdfs@[1]@.len(),
            ),
            Err(e) => r == Err::<[Tensor<i8>; 2], Error>(e),
        },
{
    let soz = match cs.find(Marker::Soz) {
        Some(s) => s,
        None => return Err(Error::InvalidData("no z substream")),
    };
    proof {
        container::lemma_readable(cs@, Marker::Soz, 0);
        lemma_z_size(hdr.height as int, hdr.width as int, 0, cdfs@[0]@.len() as int);
        lemma_z_size(hdr.height as int, hdr.width as int, 1, cdfs@[1]@.len() as int);
    }
    let threads = container::split_threads(soz, hdr.num_threads_z as usize)?;
    let mut dec = tables.decoder(&threads)?;
    let (h0, w0): (u32, u32) = hdr.hyper_latent_size(0);
    let (h1, w1): (u32, u32) = hdr.hyper_latent_size(1);
    let luma = entropy::decode_z(ledger, &mut dec, cdfs[0], z_offset, h0 as usize, w0 as usize)?;
    let chroma = entropy::decode_z(ledger, &mut dec, cdfs[1], z_offset, h1 as usize, w1 as usize)?;
    Ok([luma, chroma])
}

/// What the front of the entropy stage fails with, if it does: hyper-latents first, then the
/// quality map, then the regions of luma and of chroma.
pub open spec fn front_error(
    subs: Seq<Piece>,
    hdr: PictureHeader,
    cdfs: (Seq<Seq<u8>>, Seq<Seq<u8>>),
    z_offset: i32,
) -> Option<Error> {
    let sizes = (
        z_size(hdr.height as int, hdr.width as int, 0),
        z_size(hdr.height as int, hdr.width as int, 1),
    );
    match spec_both_z(subs, hdr.num_threads_z as nat, cdfs, sizes, z_offset) {
        Err(e) => Some(e),
        Ok(z) => if hdr.quality_map is Some && headers::first_of(subs, Marker::Soq) is None {
            Some(Error::InvalidData("no quality map substream"))
        } else {
            match spec_payloads(subs, Marker::Sorp, hdr.regions) {
                Err(e) => Some(e),
                Ok(luma) => match spec_payloads(subs, Marker::Sors, hdr.regions) {
                    Err(e) => Some(e),
                    Ok(chroma) => None,
                },
            }
        },
    }
}

/// Decode both hyper-latents and cut out the payloads of the quality map and of the regions.
/// `cdfs` are the hyper-latent CDFs of luma and chroma, one per channel. The symbols of each are
/// charged to the ledger while they are decoded.
pub fn entropy_front<'a>(
    ledger: &mut Ledger,
    tables: &AnsTables,
    cs: &Codestream<'a>,
    hdr: &PictureHeader,
    cdfs: [&[[u8; MAX_Z]]; 2],
    z_offset: i32,
) -> (r: Result<EntropyFront<'a>>)
    requires
        tables.wf(),
        container::readable(cs@),
        hdr.coded_size(),
        cdfs@[0]@.len() <= 160,
        cdfs@[1]@.len() <= 160,
        0 <= z_offset <= 128,
        old(ledger).wf(),
        old(ledger)@.total() + cdfs@[0]@.len() * z_size(hdr.height as int, hdr.width as int, 0)
            <= usize::MAX,
        old(ledger)@.total() + cdfs@[1]@.len() * z_size(hdr.height as int, hdr.width as int, 1)
            <= usize::MAX,
    ensures
        final(ledger).wf(),
        final(ledger)@ == old(ledger)@.visited(
            hyper_scratch(
                cs@,
                hdr.num_threads_z as nat,
                (decoder::cdf_views(cdfs@[0]@), decoder::cdf_views(cdfs@[1]@)),
                (
                    z_size(hdr.height as int, hdr.width as int, 0),
                    z_size(hdr.height as int, hdr.width as int, 1),
                ),
                z_offset,
            ),
        ),
        ({
            let views = (decoder::cdf_views(cdfs@[0]@), decoder::cdf_views(cdfs@[1]@));
            let sizes = (
                z_size(hdr.height as int, hdr.width as int, 0),
                z_size(hdr.height as int, hdr.width as int, 1),
            );
            match front_error(cs@, *hdr, views, z_offset) {
                Some(e) => r == Err::<EntropyFront<'a>, Error>(e),
                None => {
                    &&& r matches Ok(f)
                    &&& is_hyper(f.z@[0], *hdr, 0, cdfs@[0]@.len())
                    &&& is_hyper(f.z@[1], *hdr, 1, cdfs@[1]@.len())
                    &&& spec_both_z(cs@, hdr.num_threads_z as nat, views, sizes, z_offset) == Ok::<
                        (Seq<i8>, Seq<i8>),
                        Error,
                    >((f.z@[0].data@, f.z@[1].data@))
                    &&& match f.quality_map {
                        Some(q) => hdr.quality_map is Some && headers::first_of(cs@, Marker::Soq)
                            == Some(q@),
                        None => hdr.quality_map is None,
                    }
                    &&& spec_payloads(cs@, Marker::Sorp, hdr.regions) == Ok::<
                        Seq<Option<Seq<u8>>>,
                        Error,
                    >(container::optional_contents(f.regions@[0]@))
                    &&& spec_payloads(cs@, Marker::Sors, hdr.regions) == Ok::<
                        Seq<Option<Seq<u8>>>,
                        Error,
                    >(container::optional_contents(f.regions@[1]@))
                    &&& container::readable_parts(f.regions@[0]@)
                    &&& container::readable_parts(f.regions@[1]@)
                },
            }
        }),
{
    let z = both_z(ledger, tables, cs, hdr, cdfs, z_offset)?;
    let quality_map: Option<&'a [u8]> = match hdr.quality_map {
        Some(_) => match cs.find(Marker::Soq) {
            Some(q) => Some(q),
            None => return Err(Error::InvalidData("no quality map substream")),
        },
        None => None,
    };
    let luma = component_payloads(cs, Marker::Sorp, hdr)?;
    let chroma = component_payloads(cs, Marker::Sors, hdr)?;
    Ok(EntropyFront { z, quality_map, regions: [luma, chroma] })
}

} // verus!

//! What a quantised component commits to the codestream: the residual of its regions, the cubes
//! that must not be skipped, and the mask of coded samples, which a decoder derives again.

use vstd::prelude::*;

use crate::area::Area;
use crate::decoder::entropy::Shared;
use crate::encoder::round_trip as back;
use crate::error::{Error, Result};
use crate::header::PictureHeader;
use crate::planes;
use crate::regions;
use crate::tensor;
use crate::tensor::Tensor;

verus! {

/// What a component commits to the codestream.
#[derive(Debug)]
pub struct Committed {
    /// Zero where no sample is coded.
    pub residual_q: Tensor<i16>,
    /// Which samples are coded.
    pub mask: Tensor<bool>,
    /// The cube flags that the header carries.
    pub cube_flags: Option<Vec<bool>>,
}

/// The cube flags of `h x w` latent planes after those of the first `n` regions were taken over:
/// every cube may be skipped unless its region says otherwise.
pub open spec fn merged_flags(
    h: int,
    w: int,
    flags: Seq<Tensor<bool>>,
    latents: Seq<Area>,
    n: int,
) -> Seq<bool>
    decreases n,
{
    let (ch, cw) = (regions::cubes_along(h), regions::cubes_along(w));
    if n <= 0 {
        Seq::new((4 * ch * cw) as nat, |i: int| true)
    } else {
        planes::assigned_to(
            merged_flags(h, w, flags, latents, n - 1),
            ch,
            cw,
            regions::spec_cube_area(latents[n - 1]),
            flags[n - 1],
            (0, 0),
        )
    }
}

/// What is committed, given the merged residual and the merged cube flags.
pub open spec fn commits(
    c: Committed,
    threshold: Tensor<bool>,
    residual: Seq<i16>,
    flags: Seq<bool>,
) -> bool {
    let (ch, h, w) = (threshold.c as int, threshold.h as int, threshold.w as int);
    &&& regions::flags_view(c.cube_flags) == regions::spec_signalled(flags)
    &&& c.mask.is_of(ch, h, w)
    &&& c.mask.data@ == regions::spec_coded_mask(threshold, regions::flags_view(c.cube_flags))
    &&& c.residual_q.is_of(ch, h, w)
    &&& c.residual_q.data@ == regions::spec_coded_only(residual, c.mask.data@)
}

/// Take over the cube flags of every region.
fn merge_flags(h: usize, w: usize, flags: &[Tensor<bool>], latents: &[Area]) -> (all: Vec<bool>)
    requires
        flags@.len() == latents@.len(),
        forall|i: int| 0 <= i < flags@.len() ==> (#[trigger] flags@[i]).wf(),
        4 * regions::cubes_along(h as int) * regions::cubes_along(w as int) <= usize::MAX,
    ensures
        all@ == merged_flags(h as int, w as int, flags@, latents@, flags@.len() as int),
        all@.len() == 4 * regions::cubes_along(h as int) * regions::cubes_along(w as int),
{
    let (ch, cw): (usize, usize) = (regions::cube_count(h), regions::cube_count(w));
    let ghost n = 4 * ch * cw;
    let mut start: Vec<bool> = Vec::new();
    if cw > 0 {
        proof {
            assert(0 <= 4 * ch <= n) by (nonlinear_arith)
                requires
                    n == 4 * ch * cw,
                    ch >= 0,
                    cw >= 1,
            ;
        }
        start = vec![true; 4 * ch * cw];
    } else {
        proof {
            assert(n == 0) by (nonlinear_arith)
                requires
                    n == 4 * ch * cw,
                    cw == 0,
            ;
        }
    }
    proof {
        assert(start@ =~= merged_flags(h as int, w as int, flags@, latents@, 0));
    }
    let mut all = Tensor { c: 4, h: ch, w: cw, data: start };
    let mut i: usize = 0;
    while i < flags.len()
        invariant
            i <= flags@.len(),
            flags@.len() == latents@.len(),
            forall|i: int| 0 <= i < flags@.len() ==> (#[trigger] flags@[i]).wf(),
            ch == regions::cubes_along(h as int),
            cw == regions::cubes_along(w as int),
            all.is_of(4, ch as int, cw as int),
            all.data@ == merged_flags(h as int, w as int, flags@, latents@, i as int),
        decreases flags@.len() - i,
    {
        proof {
            assert(flags@[i as int].wf());
        }
        regions::merge_cube_flags(&mut all, latents[i], &flags[i]);
        i = i + 1;
    }
    all.data
}

/// Whether an encoder commits regions whole: where each is coded on its own, or there is one.
pub fn committed_whole(hdr: &PictureHeader) -> (whole: bool)
    ensures
        whole == (regions::spec_independent(*hdr) || match hdr.regions {
            Some(r) => r.num_ver as int * r.num_hor as int == 1,
            None => true,
        }),
{
    regions::decoded_whole(hdr) || hdr.num_regions() == 1
}

/// Commit a component: put the residuals of its regions together, then drop every sample that
/// neither the threshold mask nor a cube that must not be skipped lets through. `flags` are the
/// cube flags of each region.
pub fn commit(
    threshold: &Tensor<bool>,
    residuals: &[Tensor<i16>],
    flags: &[Tensor<bool>],
    latents: &[Area],
    images: &[Area],
    pic_h: usize,
    pic_w: usize,
    whole: bool,
) -> (r: Result<Committed>)
    requires
        threshold.wf(),
        residuals@.len() == latents@.len(),
        flags@.len() == latents@.len(),
        images@.len() == latents@.len(),
        forall|i: int| 0 <= i < residuals@.len() ==> (#[trigger] residuals@[i]).wf(),
        forall|i: int| 0 <= i < flags@.len() ==> (#[trigger] flags@[i]).wf(),
        forall|i: int|
            0 <= i < images@.len() ==> (#[trigger] images@[i]).x + images@[i].width <= usize::MAX
                && images@[i].y + images@[i].height <= usize::MAX,
        forall|i: int|
            0 <= i < latents@.len() ==> (#[trigger] latents@[i]).x < usize::MAX && latents@[i].y
                < usize::MAX,
        4 * regions::cubes_along(threshold.h as int) * regions::cubes_along(threshold.w as int)
            <= usize::MAX,
    ensures
        match regions::spec_merged(
            Seq::new(threshold.data@.len(), |i: int| 0i16),
            threshold.h as int,
            threshold.w as int,
            residuals@,
            latents@,
            images@,
            (pic_h as int, pic_w as int),
            whole,
            residuals@.len() as int,
        ) {
            Err(e) => r == Err::<Committed, Error>(e),
            Ok(residual) => r matches Ok(c) && commits(
                c,
                *threshold,
                residual,
                merged_flags(
                    threshold.h as int,
                    threshold.w as int,
                    flags@,
                    latents@,
                    flags@.len() as int,
                ),
            ),
        },
{
    let (c, h, w): (usize, usize, usize) = (threshold.c, threshold.h, threshold.w);
    let mut merged = Tensor { c, h, w, data: vec![0i16; threshold.data.len()] };
    proof {
        assert(merged.data@ =~= Seq::new(threshold.data@.len(), |i: int| 0i16));
    }
    regions::merge_regions(&mut merged, residuals, latents, images, pic_h, pic_w, whole)?;
    let all: Vec<bool> = merge_flags(h, w, flags, latents);
    let cube_flags: Option<Vec<bool>> = regions::signalled_flags(&all);
    let mask: Tensor<bool> = regions::coded_mask(threshold, &cube_flags);
    let residual_q: Tensor<i16> = regions::coded_only(&merged, &mask);
    Ok(Committed { residual_q, mask, cube_flags })
}

/// A committed residual comes back as it was committed: where the regions cover the planes, a
/// decoder that restores every coded sample has every sample.
pub proof fn law_committed_residual_comes_back(
    s: Shared,
    areas: Seq<Area>,
    residual: Seq<i16>,
    n: int,
)
    requires
        0 < s.lh,
        0 < s.lw,
        s.num_chs == n,
        residual.len() == n * s.lh * s.lw,
        s.mask.len() == residual.len(),
        forall|x: int, y: int|
            0 <= x < s.lw && 0 <= y < s.lh ==> #[trigger] back::held(areas, 0, x, y),
    ensures
        ({
            let committed = regions::spec_coded_only(residual, s.mask);
            let zeros = Seq::new(residual.len(), |i: int| 0i16);
            back::all_restored(s, areas, committed, zeros, 0) == committed
        }),
{
    let committed = regions::spec_coded_only(residual, s.mask);
    let zeros = Seq::new(residual.len(), |i: int| 0i16);
    let got = back::all_restored(s, areas, committed, zeros, 0);
    assert forall|p: int| 0 <= p < committed.len() implies #[trigger] got[p] == committed[p] by {
        tensor::lemma_parts_place(s.lh, s.lw, n, p);
        assert(back::held(areas, 0, p % s.lw, p / s.lw % s.lh));
    }
    assert(got =~= committed);
}

} // verus!

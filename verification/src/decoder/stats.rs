//! Per-stage decode timing, and what parallel work asks whether to stop.

use vstd::prelude::*;

verus! {

/// Wall-clock breakdown of one decode, in nanoseconds. Sections measured inside the parallel
/// component chains are task times: the two of a pair (luma, chroma) overlap each other when work
/// is pooled, so their sum can exceed the `chains` time. Stages a stream does not use stay at zero.
#[derive(Clone, Debug)]
pub struct DecodeStats {
    /// Marker scan, header parse and limits check.
    pub headers: u64,
    /// Checkpoint load and weight packing; nonzero only on the first decode of a model.
    pub models: u64,
    /// Hyper-latent symbols per component, in one shared substream.
    pub entropy_z: [u64; 2],
    /// Quality-map substream.
    pub entropy_quality_map: u64,
    /// Whole per-component entropy body (scales, mask, residual, dequantisation).
    pub entropy_body: [u64; 2],
    /// Per-component scale derivation.
    pub entropy_scales: [u64; 2],
    /// Per-component coded-channel mask.
    pub entropy_mask: [u64; 2],
    /// Per-component gather of scales and mask.
    pub entropy_gather: [u64; 2],
    /// Per-component residual symbols.
    pub entropy_residual: [u64; 2],
    /// Per-component residual dequantisation.
    pub entropy_dequantize: [u64; 2],
    /// Per-component latent reconstruction (hyper-decoder and context model).
    pub latent: [u64; 2],
    /// Per-component hyper-decoder.
    pub latent_hyper: [u64; 2],
    /// Per-component context model.
    pub latent_mcm: [u64; 2],
    /// Latent post-processing per component.
    pub post_process: [u64; 2],
    /// The joined per-component chains (about the longer of the two).
    pub chains: u64,
    /// Synthesis transform.
    pub synthesis: u64,
    /// Coded chroma format to source chroma format.
    pub chroma_convert: u64,
    /// Post-filters.
    pub filters: u64,
    /// Colour transform and quantisation to output samples.
    pub output: u64,
    /// Whole call.
    pub total: u64,
}

impl Default for DecodeStats {
    /// Nothing measured.
    fn default() -> (s: Self)
        ensures
            s.headers == 0,
            s.models == 0,
            s.entropy_z@ == seq![0u64, 0u64],
            s.entropy_quality_map == 0,
            s.entropy_body@ == seq![0u64, 0u64],
            s.entropy_scales@ == seq![0u64, 0u64],
            s.entropy_mask@ == seq![0u64, 0u64],
            s.entropy_gather@ == seq![0u64, 0u64],
            s.entropy_residual@ == seq![0u64, 0u64],
            s.entropy_dequantize@ == seq![0u64, 0u64],
            s.latent@ == seq![0u64, 0u64],
            s.latent_hyper@ == seq![0u64, 0u64],
            s.latent_mcm@ == seq![0u64, 0u64],
            s.post_process@ == seq![0u64, 0u64],
            s.chains == 0,
            s.synthesis == 0,
            s.chroma_convert == 0,
            s.filters == 0,
            s.output == 0,
            s.total == 0,
    {
        let s = DecodeStats {
            headers: 0,
            models: 0,
            entropy_z: [0, 0],
            entropy_quality_map: 0,
            entropy_body: [0, 0],
            entropy_scales: [0, 0],
            entropy_mask: [0, 0],
            entropy_gather: [0, 0],
            entropy_residual: [0, 0],
            entropy_dequantize: [0, 0],
            latent: [0, 0],
            latent_hyper: [0, 0],
            latent_mcm: [0, 0],
            post_process: [0, 0],
            chains: 0,
            synthesis: 0,
            chroma_convert: 0,
            filters: 0,
            output: 0,
            total: 0,
        };
        proof {
            assert(s.entropy_z@ =~= seq![0u64, 0u64]);
            assert(s.entropy_body@ =~= seq![0u64, 0u64]);
            assert(s.entropy_scales@ =~= seq![0u64, 0u64]);
            assert(s.entropy_mask@ =~= seq![0u64, 0u64]);
            assert(s.entropy_gather@ =~= seq![0u64, 0u64]);
            assert(s.entropy_residual@ =~= seq![0u64, 0u64]);
            assert(s.entropy_dequantize@ =~= seq![0u64, 0u64]);
            assert(s.latent@ =~= seq![0u64, 0u64]);
            assert(s.latent_hyper@ =~= seq![0u64, 0u64]);
            assert(s.latent_mcm@ =~= seq![0u64, 0u64]);
            assert(s.post_process@ =~= seq![0u64, 0u64]);
        }
        s
    }
}

/// Why work was told to stop.
#[derive(Clone, Copy, Debug, PartialEq, Eq, Structural)]
pub enum StopKind {
    Cancelled,
    TimedOut,
    Other,
}

/// A gate in front of a stop token. Until one check has tripped, every check asks the token; from
/// then on every check is answered with the stored reason, and the token is not asked again. So
/// the token sees what a serial decode would show it, while parallel work still stops as soon as
/// the trip lands. A reason that is neither a cancellation nor a timeout is stored as a
/// cancellation.
#[derive(Debug)]
pub struct Gate {
    tripped: Option<StopKind>,
}

/// The reason as it is stored.
pub open spec fn stored(kind: StopKind) -> StopKind {
    match kind {
        StopKind::TimedOut => StopKind::TimedOut,
        _ => StopKind::Cancelled,
    }
}

impl Gate {
    /// The stored reason.
    pub closed spec fn view(&self) -> Option<StopKind> {
        self.tripped
    }

    /// An open gate.
    pub fn new() -> (g: Self)
        ensures
            g.view() is None,
    {
        Gate { tripped: None }
    }

    /// The answer to a check where the token need not be asked.
    pub fn answer(&self) -> (r: Option<StopKind>)
        ensures
            r == self.view(),
    {
        self.tripped
    }

    /// Take what the token said. Once tripped, it stays as it is.
    pub fn settle(&mut self, said: Option<StopKind>)
        ensures
            final(self).view() == match old(self).view() {
                Some(k) => Some(k),
                None => match said {
                    Some(k) => Some(stored(k)),
                    None => None,
                },
            },
    {
        if self.tripped.is_none() {
            self.tripped = match said {
                Some(StopKind::TimedOut) => Some(StopKind::TimedOut),
                Some(_) => Some(StopKind::Cancelled),
                None => None,
            };
        }
    }
}

} // verus!

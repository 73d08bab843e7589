//! me-tANS: the multi-symbol, table-based ANS entropy coder of JPEG AI.

pub mod decoder;
pub mod encoder;
pub mod order;
pub mod round_trip;
pub mod stack;
pub mod symbols;
pub mod tables;

use vstd::prelude::*;

use crate::container;
use crate::error::{Error, Result};

pub use decoder::AnsDecoder;
pub use encoder::AnsEncoder;
pub use tables::{PdfTables, MAX_Z};

use tables::ResidualTables;

verus! {

/// The shared, immutable coder tables. Build once and reuse for every substream.
pub struct AnsTables {
    residual: ResidualTables,
}

impl AnsTables {
    /// The tables as a value.
    pub closed spec fn residual(&self) -> ResidualTables {
        self.residual
    }

    /// The tables are fit for use.
    pub open spec fn wf(&self) -> bool {
        self.residual().wf()
    }

    /// Build the coder tables of the residual distributions.
    pub fn new(pdf: &PdfTables) -> (t: Self)
        requires
            pdf.wf(),
        ensures
            t.wf(),
            t.residual().of(pdf),
    {
        AnsTables { residual: ResidualTables::build(pdf) }
    }

    /// Open a decoder over the thread byte ranges of one payload
    /// (see [`crate::container::split_threads`]).
    pub fn decoder<'t>(&'t self, threads: &[&[u8]]) -> (r: Result<AnsDecoder<'t>>)
        requires
            self.wf(),
        ensures
            match decoder::spec_decoder(container::contents(threads@)) {
                Ok(readers) => r matches Ok(d) && d.wf() && d.readers() == readers && d.tables()
                    == self.residual(),
                Err(e) => r == Err::<AnsDecoder<'t>, Error>(e),
            },
    {
        AnsDecoder::new(&self.residual, threads)
    }

    /// Start an encoder with `num_threads` ANS threads (1, 2, 4, 8 or 16 in conforming streams).
    pub fn encoder<'t>(&'t self, num_threads: usize) -> (r: Result<AnsEncoder<'t>>)
        requires
            self.wf(),
        ensures
            if num_threads == 0 || num_threads > 16 {
                r == Err::<AnsEncoder<'t>, Error>(
                    Error::InvalidArgument("thread count out of range"),
                )
            } else {
                r matches Ok(e) && e.wf() && e.tables() == self.residual() && e.writers()
                    == Seq::new(num_threads as nat, |i: int| encoder::Writer::fresh())
            },
    {
        AnsEncoder::new(&self.residual, num_threads)
    }

    /// Escape bound of distribution `sigma_idx` (values above 31 are clamped): symbols with
    /// `|v| >= bound` are escape-coded.
    pub fn bound(&self, sigma_idx: u8) -> (b: u8)
        requires
            self.wf(),
        ensures
            b == self.residual().bounds@[tables::spec_dist(sigma_idx)],
    {
        self.residual.bounds[tables::dist(sigma_idx)]
    }
}

} // verus!

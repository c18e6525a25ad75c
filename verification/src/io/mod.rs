//! Reading and writing formulas.

pub mod binary_format;
pub mod c2d_format;
pub mod d4_format;
pub mod d4_grammar;
pub mod model_writer;
pub mod smart_reader;

pub use binary_format::Reader as BinaryReader;
pub use binary_format::Writer as BinaryWriter;
pub use c2d_format::Writer as C2dWriter;
pub use d4_format::Reader as D4Reader;
pub use model_writer::ModelWriter;
pub use smart_reader::SmartReader;

use crate::error::Error;
use crate::error::ReadError;
use crate::formula::decision_dnnf::DecisionDNNF;
use crate::formula::decision_dnnf::Formula;
use vstd::prelude::*;

verus! {

/// What an object that writes a [`DecisionDNNF`] offers.
///
/// An object may say what it writes, by the relation below. One that says
/// nothing allows any result.
pub trait DecisionDNNFWriter {
    /// Whether `r` may be what the object gives for the formula `f`.
    open spec fn writes(&self, f: Formula, r: Result<Vec<u8>, Error>) -> bool {
        true
    }

    /// Returns the bytes that write the formula, or an error where the
    /// format cannot hold it.
    fn write(&self, ddnnf: &DecisionDNNF) -> (r: Result<Vec<u8>, Error>)
        ensures
            self.writes(ddnnf@, r),
    ;
}

/// What an object that reads a [`DecisionDNNF`] offers.
///
/// An object may say what it reads and what it keeps of what it is told, by
/// the relations below. One that says nothing allows anything.
pub trait DecisionDNNFReader {
    /// Whether the reader may be so after it was told to leave out its
    /// checks, or not to.
    open spec fn told(&self, do_not_check: bool) -> bool {
        true
    }

    /// Whether `r` may be what the reader gives for the bytes `input`.
    open spec fn reads(&self, input: Seq<u8>, r: Result<DecisionDNNF, ReadError>) -> bool {
        true
    }

    /// Sets whether the reader leaves out its checks. What the checks are
    /// depends on the reader.
    fn set_do_not_check(&mut self, do_not_check: bool)
        ensures
            final(self).told(do_not_check),
    ;

    /// Reads a formula from the bytes of `input`, or returns an error where
    /// they do not encode one.
    fn read(&self, input: &[u8]) -> (r: Result<DecisionDNNF, ReadError>)
        ensures
            self.reads(input@, r),
    ;
}

} // verus!

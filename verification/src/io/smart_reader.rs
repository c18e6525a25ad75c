//! A reader that tries each format in turn.

use crate::error::Error;
use crate::error::ReadError;
use crate::formula::decision_dnnf::DecisionDNNF;
use crate::formula::decision_dnnf::Formula;
use crate::io::binary_format::decode;
use crate::io::d4_grammar::parse;
use crate::io::binary_format::Reader as BinaryReader;
use crate::io::d4_format::Reader as D4Reader;
use crate::io::DecisionDNNFReader;
use vstd::prelude::*;

verus! {

/// The formula that an input writes in the first format that it follows:
/// the d4 format, with its checks, then the binary format.
pub open spec fn read_any(s: Seq<u8>) -> Option<Formula> {
    match parse(s, true) {
        Ok(f) => Some(f),
        Err(_) => match decode(s) {
            Ok(f) => Some(f),
            Err(_) => None,
        },
    }
}

/// A reader that loads a [`DecisionDNNF`] with the first reader that
/// understands the input: the reader of the d4 format, with its checks, then
/// the reader of the binary format.
pub struct SmartReader {
    do_not_check: bool,
}

impl Default for SmartReader {
    fn default() -> (r: Self)
        ensures
            !r.checks_disabled(),
    {
        SmartReader { do_not_check: false }
    }
}

impl SmartReader {
    /// What the reader was told of its checks. The readers that it tries
    /// make their checks whatever it was told.
    pub closed spec fn checks_disabled(&self) -> bool {
        self.do_not_check
    }

    /// Sets whether the reader leaves out its checks.
    pub fn set_do_not_check(&mut self, do_not_check: bool)
        ensures
            final(self).checks_disabled() == do_not_check,
    {
        self.do_not_check = do_not_check;
    }

    /// Reads a formula from the bytes of `input`: the formula that the d4
    /// format gives where the input follows it and passes its checks, else
    /// the formula that the binary format gives. An input that follows
    /// neither is an error.
    pub fn read(&self, input: &[u8]) -> (r: Result<DecisionDNNF, ReadError>)
        ensures
            read_any(input@) matches Some(f) ==> r matches Ok(ddnnf) && ddnnf@ == f,
            read_any(input@) is None ==> r == Err::<DecisionDNNF, ReadError>(
                ReadError { line_index: None, cause: Error::UnknownFormat },
            ),
    {
        match D4Reader::default().read(input) {
            Ok(formula) => Ok(formula),
            Err(_) => match BinaryReader::default().read(input) {
                Ok(formula) => Ok(formula),
                Err(_) => Err(ReadError { line_index: None, cause: Error::UnknownFormat }),
            },
        }
    }
}

impl DecisionDNNFReader for SmartReader {
    /// The reader keeps what it was told.
    open spec fn told(&self, do_not_check: bool) -> bool {
        self.checks_disabled() == do_not_check
    }

    /// The formula that the input writes in the first format that it
    /// follows, or the error that it follows none.
    open spec fn reads(&self, input: Seq<u8>, r: Result<DecisionDNNF, ReadError>) -> bool {
        match read_any(input) {
            Some(f) => r matches Ok(ddnnf) && ddnnf@ == f,
            None => r == Err::<DecisionDNNF, ReadError>(
                ReadError { line_index: None, cause: Error::UnknownFormat },
            ),
        }
    }

    fn set_do_not_check(&mut self, do_not_check: bool) {
        SmartReader::set_do_not_check(self, do_not_check)
    }

    fn read(&self, input: &[u8]) -> (r: Result<DecisionDNNF, ReadError>) {
        SmartReader::read(self, input)
    }
}

} // verus!

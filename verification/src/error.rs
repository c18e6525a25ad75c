//! The errors that reading, writing and checking a formula can give.

use vstd::prelude::*;
use vstd::string::StringExecFns;

verus! {

/// What went wrong while a formula was read, written or checked.
#[derive(Debug, Clone, PartialEq, Eq)]
pub enum Error {
    /// A line starts with a word that is neither a node kind nor a number.
    UnexpectedFirstWord(Vec<u8>),
    /// A node line has no index.
    MissingNodeIndex,
    /// A word that should be a number holds something else than digits.
    InvalidDigit,
    /// A number is too large for the machine.
    NumberTooLarge,
    /// The third word of a node line is not `0`.
    ExpectedZero,
    /// Something follows the final `0` of a line.
    ContentAfterZero,
    /// A node is declared with another index than the next free one.
    WrongNodeIndex { expected: usize, got: usize },
    /// An edge line has no target.
    MissingTargetIndex,
    /// A word that should be a literal is not one.
    ExpectedLiteral(Vec<u8>),
    /// An edge line does not end with `0`.
    MissingFinalZero,
    /// A variable occurs with both polarities among the literals of an edge.
    VariablePropagatedTwice,
    /// The source of an edge is not a declared node.
    WrongSourceIndex { max: usize, got: usize },
    /// The target of an edge is not a declared node.
    WrongTargetIndex { max: usize, got: usize },
    /// An edge leaves the node it enters.
    SourceEqualsTarget,
    /// An edge leaves a leaf.
    EdgeFromLeaf,
    /// The input declares no node.
    EmptyFormula,
    /// A node cannot be reached from the root (the index is 1-based).
    UnreachableNode(usize),
    /// The graph has a cycle.
    CycleDetected,
    /// The binary input ends in the middle of a number.
    TruncatedNumber,
    /// The binary input holds a node tag that stands for no node kind.
    UnknownNodeCode,
    /// A disjunction node has no variable that decides between its children.
    NotADecisionNode(usize),
    /// An order does not hold each variable exactly once.
    WrongOrder,
    /// No reader understands the input.
    UnknownFormat,
}

/// An error met while reading, with the index of the line that it was met
/// on, where the input has lines and the error belongs to one.
#[derive(Debug, Clone, PartialEq, Eq)]
pub struct ReadError {
    pub line_index: Option<usize>,
    pub cause: Error,
}

/// The character of a decimal digit.
pub open spec fn digit_char(d: nat) -> char {
    ((0x30 + d) as u8) as char
}

/// The decimal digits that write a number.
pub open spec fn digits(n: nat) -> Seq<char>
    decreases n,
{
    if n < 10 {
        seq![digit_char(n)]
    } else {
        digits(n / 10).push(digit_char(n % 10))
    }
}

/// The text that `String::from_utf8_lossy` makes of bytes.
pub uninterp spec fn lossy_text(bytes: Seq<u8>) -> Seq<char>;

/// `format!` on a text followed by a number: the text, then the decimal
/// digits of the number.
#[verifier::external_body]
pub(crate) fn text_then_number(text: &str, n: usize) -> (r: String)
    ensures
        r@ == text@ + digits(n as nat),
{
    format!("{text}{n}")
}

/// Returns two texts, one after the other.
pub(crate) fn text_then_text(a: &str, b: &str) -> (r: String)
    ensures
        r@ == a@ + b@,
{
    String::from_str(a).concat(b)
}

/// `String::from_utf8_lossy` on the bytes of a word: the text that the
/// bytes encode, where they encode one.
#[verifier::external_body]
fn word_text(word: &[u8]) -> (r: String)
    ensures
        r@ == lossy_text(word@),
{
    String::from_utf8_lossy(word).into_owned()
}

/// Whether two errors are the same error: of the same kind, with the same
/// numbers and the same word.
pub open spec fn alike(a: Error, b: Error) -> bool {
    match (a, b) {
        (Error::UnexpectedFirstWord(x), Error::UnexpectedFirstWord(y)) => x@ == y@,
        (Error::ExpectedLiteral(x), Error::ExpectedLiteral(y)) => x@ == y@,
        (Error::UnexpectedFirstWord(_), _) => false,
        (Error::ExpectedLiteral(_), _) => false,
        (_, Error::UnexpectedFirstWord(_)) => false,
        (_, Error::ExpectedLiteral(_)) => false,
        _ => a == b,
    }
}

/// The message that describes an error.
pub open spec fn message(e: Error) -> Seq<char> {
    match e {
        Error::UnexpectedFirstWord(w) => "unexpected first word \""@ + lossy_text(w@) + "\""@,
        Error::MissingNodeIndex => "missing node index"@,
        Error::InvalidDigit => "invalid digit found in string"@,
        Error::NumberTooLarge => "number too large to fit in target type"@,
        Error::ExpectedZero => "expected 0 as third word"@,
        Error::ContentAfterZero => "unexpected content after 0"@,
        Error::WrongNodeIndex { expected, got } => "wrong node index; expected "@ + digits(
            expected as nat,
        ) + ", got "@ + digits(got as nat),
        Error::MissingTargetIndex => "missing target index"@,
        Error::ExpectedLiteral(w) => "expected a literal, got \""@ + lossy_text(w@) + "\""@,
        Error::MissingFinalZero => "missing final 0"@,
        Error::VariablePropagatedTwice => "a variable is propagated multiple times"@,
        Error::WrongSourceIndex { max, got } => "wrong source index; max is "@ + digits(
            max as nat,
        ) + ", got "@ + digits(got as nat),
        Error::WrongTargetIndex { max, got } => "wrong target index; max is "@ + digits(
            max as nat,
        ) + ", got "@ + digits(got as nat),
        Error::SourceEqualsTarget => "source and target index must be different"@,
        Error::EdgeFromLeaf => "cannot add an edge from a leaf node"@,
        Error::EmptyFormula => "formula is empty"@,
        Error::UnreachableNode(index) => "no path to the node with index "@ + digits(
            index as nat,
        ),
        Error::CycleDetected => "cycle detected"@,
        Error::TruncatedNumber => "while reading a number"@,
        Error::UnknownNodeCode => "unknown node code"@,
        Error::NotADecisionNode(index) =>
            "no variable decides between the children of the OR node at index "@ + digits(
            index as nat,
        ),
        Error::WrongOrder => "order must involve all variables exactly once"@,
        Error::UnknownFormat => "cannot read with any input formats"@,
    }
}

impl Error {
    /// Returns the message that describes the error.
    pub fn to_string(&self) -> (r: String)
        ensures
            r@ == message(*self),
    {
        broadcast use vstd::string::to_string_from_display_ensures_for_str;

        match self {
            Error::UnexpectedFirstWord(w) => {
                let quoted = text_then_text(word_text(w.as_slice()).as_str(), "\"");
                let r = text_then_text("unexpected first word \"", quoted.as_str());
                proof {
                    assert(r@ =~= message(*self));
                }
                r
            },
            Error::MissingNodeIndex => "missing node index".to_string(),
            Error::InvalidDigit => "invalid digit found in string".to_string(),
            Error::NumberTooLarge => "number too large to fit in target type".to_string(),
            Error::ExpectedZero => "expected 0 as third word".to_string(),
            Error::ContentAfterZero => "unexpected content after 0".to_string(),
            Error::WrongNodeIndex { expected, got } => {
                let start = text_then_number("wrong node index; expected ", *expected);
                let middle = text_then_text(start.as_str(), ", got ");
                text_then_number(middle.as_str(), *got)
            },
            Error::MissingTargetIndex => "missing target index".to_string(),
            Error::ExpectedLiteral(w) => {
                let quoted = text_then_text(word_text(w.as_slice()).as_str(), "\"");
                let r = text_then_text("expected a literal, got \"", quoted.as_str());
                proof {
                    assert(r@ =~= message(*self));
                }
                r
            },
            Error::MissingFinalZero => "missing final 0".to_string(),
            Error::VariablePropagatedTwice => "a variable is propagated multiple times".to_string(),
            Error::WrongSourceIndex { max, got } => {
                let start = text_then_number("wrong source index; max is ", *max);
                let middle = text_then_text(start.as_str(), ", got ");
                text_then_number(middle.as_str(), *got)
            },
            Error::WrongTargetIndex { max, got } => {
                let start = text_then_number("wrong target index; max is ", *max);
                let middle = text_then_text(start.as_str(), ", got ");
                text_then_number(middle.as_str(), *got)
            },
            Error::SourceEqualsTarget => "source and target index must be different".to_string(),
            Error::EdgeFromLeaf => "cannot add an edge from a leaf node".to_string(),
            Error::EmptyFormula => "formula is empty".to_string(),
            Error::UnreachableNode(index) => text_then_number(
                "no path to the node with index ",
                *index,
            ),
            Error::CycleDetected => "cycle detected".to_string(),
            Error::TruncatedNumber => "while reading a number".to_string(),
            Error::UnknownNodeCode => "unknown node code".to_string(),
            Error::NotADecisionNode(index) => text_then_number(
                "no variable decides between the children of the OR node at index ",
                *index,
            ),
            Error::WrongOrder => "order must involve all variables exactly once".to_string(),
            Error::UnknownFormat => "cannot read with any input formats".to_string(),
        }
    }
}

impl ReadError {
    /// Returns the error that was met.
    pub fn root_cause(&self) -> (r: &Error)
        ensures
            *r == self.cause,
    {
        &self.cause
    }

    /// Returns the message that describes the error: that of its cause.
    pub fn to_string(&self) -> (r: String)
        ensures
            r@ == message(self.cause),
    {
        self.cause.to_string()
    }
}

} // verus!

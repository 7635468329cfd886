//! Errors of the line codecs.
use vstd::prelude::*;

verus! {

/// Why a line could not be parsed.
#[derive(Clone, Copy, Debug, PartialEq, Eq, Structural)]
pub enum ParseError {
    /// The line has no `{` opening its label list.
    NoLabels,
    /// The label list is not closed by `} ` before the value.
    NoEnd,
    /// A label has no `=` between its key and its value.
    NoKey,
    /// A Prometheus line has neither a `}` closing its labels nor a space
    /// after its class.
    BadClass,
    /// A Prometheus line has no value after its class.
    NoValue,
}

} // verus!

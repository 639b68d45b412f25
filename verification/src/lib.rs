//! A typed, streaming value-extraction library: the inverse of printf-style
//! formatting. A format string is parsed into pieces; an incremental byte
//! source is wrapped in a lookahead buffer; a scanner interprets one
//! argument's spec against the buffer to extract a typed value.

use vstd::prelude::*;

pub mod source;
pub mod buffer;
pub mod text;
pub mod laws;
pub mod parse;
pub mod num;
pub mod rt;

verus! {

/// The terminal condition a byte source reports from `fill`: either a clean
/// end of data or a failure. Either way, no further bytes are owed.
#[derive(Clone, Copy, PartialEq, Eq, Structural, Debug)]
pub enum SourceError {
    EndOfInput,
    Failed,
}

} // verus!

//! What can go wrong while a recording is taken apart.
use vstd::prelude::*;

verus! {

/// A recording that could not be demultiplexed.
#[derive(Debug, PartialEq, Eq)]
pub enum DecodeError {
    /// The input does not start with a DSS file header. Holds the name of the input.
    NotDss(String),
    /// The input ended inside the named part.
    Truncated(String),
}

} // verus!

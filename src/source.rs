//! What a row source reports when it fails.
use vstd::prelude::*;

verus! {

/// A failure of a row source, with its description.
#[derive(Clone, Debug, PartialEq)]
pub struct SourceError {
    pub description: String,
}

} // verus!

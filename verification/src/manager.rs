//! Errors that the log reports to its callers.

use vstd::prelude::*;

use crate::kv_encoder;
use crate::region;

verus! {

/// Failure of an operation of the log, with the failure of the layer below.
#[allow(inconsistent_fields)]
#[derive(Debug, Clone, PartialEq, Eq, Structural)]
pub enum Error {
    /// A record could not be encoded.
    Encoding { source: kv_encoder::Error },
    /// A record could not be decoded.
    Decoding { source: kv_encoder::Error },
    /// The log could not be read.
    Read { source: region::Error },
}

} // verus!

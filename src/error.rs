//! Errors reported by the parsers and by the transport around them.

use vstd::prelude::*;

verus! {

/// What can go wrong while fetching and reading a response.
#[derive(Debug, Clone, PartialEq, Eq)]
pub enum Error {
    /// The URL does not use the `http` scheme.
    UnsupportedScheme,
    /// The response has no line terminator or an incomplete status line.
    MalformedResponse,
    /// The received bytes are not UTF-8.
    Decoding(String),
    /// Connecting, sending or receiving failed.
    Network(String),
}

} // verus!

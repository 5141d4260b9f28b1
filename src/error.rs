//! The kinds of failure that the library reports.

use vstd::prelude::*;

verus! {

/// Why an operation was refused or could not complete.
#[derive(Debug, PartialEq, Eq)]
pub enum AsciiError {
    /// A width, height, gamma or charset value that cannot be used.
    InvalidConfiguration,
    /// A required resource, such as the font, could not be loaded.
    ResourceUnavailable,
    /// The source image or animation could not be decoded.
    DecodeFailure,
    /// The output could not be produced or written.
    EncodeFailure,
    /// The output path names an extension that no format handles.
    UnsupportedOutputExtension(String),
}

} // verus!

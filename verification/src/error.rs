//! The failures an extraction can surface.

use vstd::prelude::*;

verus! {

#[verifier::external_type_specification]
#[verifier::external_body]
pub struct ExParseError(url::ParseError);

/// Why an extraction failed before any tree work began.
#[derive(Debug)]
pub enum Error {
    /// The caller's source URL does not parse as an absolute URL.
    UrlParseError(url::ParseError),
    /// The input bytes cannot be placed into a parser buffer.
    InvalidTendrilBuffer,
}

} // verus!

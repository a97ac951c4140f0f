//! Verified codec for RFC 9111 / RFC 9110 cache-related header field values.
//!
//! The crate decodes and re-encodes the directive-list grammar of the
//! `Cache-Control` header and the delta-seconds grammar of headers such as
//! `Age`, together with the shared bounded-overflow integer parser they both
//! rest on.

use vstd::prelude::*;

pub mod age;
pub mod argument;
mod buf;
pub mod cache_control;
pub mod chars;
pub mod keywords;
pub mod roundtrip;
pub mod tokens;
pub mod util;

verus! {

/// Why a header value was rejected.
///
/// `InvalidSyntax` covers every byte sequence that does not match the grammar
/// at the current position; `Overflow` is raised only by the checked integer
/// policy, when the mathematical value exceeds the target width's maximum.
#[derive(Clone, Copy, Debug, PartialEq, Eq, Structural)]
pub enum ParseError {
    InvalidSyntax,
    Overflow,
}

} // verus!

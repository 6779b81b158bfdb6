//! Failures of the codec and of a service call.

use vstd::prelude::*;

verus! {

/// `std::io::Error`, carried through unchanged: nothing is known of what it
/// holds.
#[verifier::external_type_specification]
#[verifier::external_body]
pub struct ExIoError(std::io::Error);

/// Everything that can end an encoding, a decoding or a service call early.
///
/// A failure that the server itself reports is not among these: it is an
/// ordinary answer of the call.
#[derive(Debug)]
pub enum Error {
    /// The transport failed; the cause is handed on as it came.
    Io(std::io::Error),
    /// A value of a shape that the wire format has no layout for.
    UnsupportedData,
    /// Fewer bytes were available than a field needs.
    EndOfBuffer,
    /// The bytes of a string are not UTF-8.
    InvalidString,
    /// A header entry without `=`.
    MalformedHeader,
    /// The peer's header lacks the named field.
    HeaderMissingField(String),
    /// No connection to the service could be opened.
    ServiceConnectionFail { service: String, uri: String },
    /// The connection ended before the peer said whether the call succeeded.
    ServiceResponseInterruption,
    /// The worker that performed the call ended without an outcome.
    ServiceResponseUnknown,
}

} // verus!

use vstd::prelude::*;

verus! {

/// The failures that parsing or decoding a mail message can report.
///
/// `Generic` carries a human-readable description together with the
/// absolute byte offset in the input at which the problem was detected.
#[derive(Debug)]
pub enum MailParseError {
    /// The quoted-printable codec rejected the transfer-encoded bytes.
    QuotedPrintableDecodeError,
    /// The base64 codec rejected the transfer-encoded bytes.
    Base64DecodeError,
    /// A charset conversion failed.
    EncodingError,
    /// A structural failure, with a description and the byte offset where it was found.
    Generic(&'static str, usize),
}

} // verus!

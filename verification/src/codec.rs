use vstd::prelude::*;

use crate::text::latin1_seq;
use base64::Engine;
use encoding::Encoding;

verus! {

/// Whether the WHATWG encoding registry resolves a charset label.
pub uninterp spec fn charset_known(label: Seq<char>) -> bool;

/// What the charset named by `label` decodes `bytes` to, with invalid
/// sequences replaced by U+FFFD.
pub uninterp spec fn charset_decoded(label: Seq<char>, bytes: Seq<u8>) -> Seq<char>;

/// What standard-alphabet base64 decoding yields for `input`, or `None`
/// when `input` is not well-formed base64.
pub uninterp spec fn base64_decoded(input: Seq<u8>) -> Option<Seq<u8>>;

/// What tolerant quoted-printable decoding yields for `input`.
pub uninterp spec fn qp_decoded(input: Seq<u8>) -> Seq<u8>;

/// The Unicode lowercase form of a character sequence.
pub uninterp spec fn lower_of(s: Seq<char>) -> Seq<char>;

/// Relies on `encoding::all::ISO_8859_1` with `DecoderTrap::Strict`: its
/// forward index maps every byte to the character with the same code
/// point and rejects nothing, so the strict decode never fails.
#[verifier::external_body]
pub(crate) fn latin1_decode(bytes: &[u8]) -> (r: String)
    ensures
        r@ == latin1_seq(bytes@),
{
    match encoding::all::ISO_8859_1.decode(bytes, encoding::DecoderTrap::Strict) {
        Ok(s) => s,
        Err(_) => String::new(),
    }
}

/// Relies on `encoding::label::encoding_from_whatwg_label`, a lookup in a
/// fixed table, and on `Encoding::decode` with `DecoderTrap::Replace`,
/// which substitutes U+FFFD for invalid sequences and never fails.
#[verifier::external_body]
pub(crate) fn charset_decode(label: &str, bytes: &[u8]) -> (r: Option<String>)
    ensures
        (r is Some) == charset_known(label@),
        match r {
            Some(s) => s@ == charset_decoded(label@, bytes@),
            None => true,
        },
{
    match encoding::label::encoding_from_whatwg_label(label) {
        Some(enc) => match enc.decode(bytes, encoding::DecoderTrap::Replace) {
            Ok(s) => Some(s),
            Err(_) => Some(String::new()),
        },
        None => None,
    }
}

/// Relies on base64's `STANDARD` engine `decode`: a deterministic function
/// of the input bytes that fails exactly on input that is not well-formed
/// standard-alphabet base64.
#[verifier::external_body]
pub(crate) fn base64_decode_bytes(input: &[u8]) -> (r: Option<Vec<u8>>)
    ensures
        match r {
            Some(v) => base64_decoded(input@) == Some(v@),
            None => base64_decoded(input@) is None,
        },
{
    match base64::engine::general_purpose::STANDARD.decode(input) {
        Ok(v) => Some(v),
        Err(_) => None,
    }
}

/// Relies on `quoted_printable::decode` with `ParseMode::Robust`, which
/// never fails: every error return in its source is guarded by
/// `ParseMode::Strict`.
#[verifier::external_body]
pub(crate) fn qp_decode_robust(input: &[u8]) -> (r: Vec<u8>)
    ensures
        r@ == qp_decoded(input@),
{
    match quoted_printable::decode(input, quoted_printable::ParseMode::Robust) {
        Ok(v) => v,
        Err(_) => Vec::new(),
    }
}

/// Relies on `str::to_lowercase`: the result depends on the characters
/// alone, and lowercasing an empty string yields an empty string.
#[verifier::external_body]
pub(crate) fn lowercase(s: &str) -> (r: String)
    ensures
        r@ == lower_of(s@),
        s@.len() == 0 ==> r@.len() == 0,
{
    s.to_lowercase()
}

/// Relies on `String::push`: appends exactly the given character.
#[verifier::external_body]
pub(crate) fn push_char(s: &mut String, c: char)
    ensures
        final(s)@ == old(s)@.push(c),
{
    s.push(c);
}

} // verus!

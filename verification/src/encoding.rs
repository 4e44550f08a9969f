//! Base64, as the stored vectors are written: the calls into the `base64`
//! crate, whose results the library takes on trust.

use base64::Engine;
use vstd::prelude::*;

verus! {

/// The text that `Engine::encode` of the `base64` crate returns for `bytes`
/// on `base64::engine::general_purpose::STANDARD`: their base64 text in the
/// standard alphabet, with padding.
pub uninterp spec fn base64_text(bytes: Seq<u8>) -> Seq<char>;

/// The bytes that `Engine::decode` of the `base64` crate returns for `text`
/// on `base64::engine::general_purpose::STANDARD`, and nothing where it
/// returns an error: the bytes that `text` stands for in the standard
/// alphabet with padding, if it is such a text.
pub uninterp spec fn base64_bytes(text: Seq<char>) -> Option<Seq<u8>>;

/// The error of `Engine::decode`, `base64::DecodeError`; nothing is read
/// from it.
#[verifier::external_type_specification]
#[verifier::external_body]
pub struct ExDecodeError(base64::DecodeError);

/// Whether the base64 text of `len` bytes has a length that a machine word
/// can hold: four characters for every three bytes, and four more.
pub open spec fn encodable_len(len: nat) -> bool {
    len / 3 * 4 + 4 <= usize::MAX
}

/// Calls `Engine::encode` on `base64::engine::general_purpose::STANDARD`.
/// The contract claims that the result is the base64 text of `bytes`, and
/// that decoding that text gives `bytes` back. The call panics where the
/// length of the text overflows, which the precondition leaves out.
#[verifier::external_body]
pub(crate) fn encode_base64(bytes: &Vec<u8>) -> (text: String)
    requires
        encodable_len(bytes@.len()),
    ensures
        text@ == base64_text(bytes@),
        base64_bytes(text@) == Some(bytes@),
{
    base64::engine::general_purpose::STANDARD.encode(bytes)
}

/// Calls `Engine::decode` on `base64::engine::general_purpose::STANDARD`.
/// The contract claims that the call succeeds exactly on the texts that
/// stand for bytes, and then returns those bytes.
#[verifier::external_body]
pub(crate) fn decode_base64(text: &str) -> (r: Result<Vec<u8>, base64::DecodeError>)
    ensures
        r is Ok <==> base64_bytes(text@) is Some,
        r is Ok ==> r->Ok_0@ == base64_bytes(text@)->0,
{
    base64::engine::general_purpose::STANDARD.decode(text)
}

} // verus!

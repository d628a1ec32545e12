//! Base64 as an outside collaborator.
//!
//! The transfer protocol treats base64 itself as an opaque codec: the two
//! functions here call into the `base64` crate's standard padded engine, and
//! their contracts name the encoded text and the decoded bytes rather than
//! restate the RFC.  Everything the rest of the library proves about
//! encoding and reassembly rests on these two contracts.

use vstd::prelude::*;
use base64::Engine;

verus! {

/// The base64 text (RFC 4648 standard alphabet, padded) of a byte sequence.
pub uninterp spec fn base64_of(bytes: Seq<u8>) -> Seq<char>;

/// The bytes that a character sequence decodes to under the standard padded
/// base64 engine, or `None` where it is not valid base64.
pub uninterp spec fn base64_bytes_of(text: Seq<char>) -> Option<Seq<u8>>;

/// Whether `c` can occur in standard padded base64 text: the 64 characters
/// of the standard alphabet and the padding character `=`.
pub open spec fn is_base64_char(c: char) -> bool {
    let u = c as u32;
    (65 <= u <= 90) || (97 <= u <= 122) || (48 <= u <= 57) || u == 43 || u == 47 || u == 61
}

#[verifier::external_type_specification]
#[verifier::external_body]
pub struct ExDecodeError(base64::DecodeError);

/// Relies on `Engine::encode` with base64's `STANDARD` engine: RFC 4648
/// base64 with padding, a pure function of the input bytes.  The output
/// holds `4 * ceil(n / 3)` characters, all from the standard alphabet plus
/// `=`.
#[verifier::external_body]
pub(crate) fn to_base64(data: &[u8]) -> (r: String)
    ensures
        r@ == base64_of(data@),
        r@.len() == 4 * ((data@.len() + 2) / 3),
        forall|i: int| 0 <= i < r@.len() ==> is_base64_char(#[trigger] r@[i]),
{
    base64::engine::general_purpose::STANDARD.encode(data)
}

/// Relies on `Engine::decode` with base64's `STANDARD` engine: returns the
/// decoded bytes of valid standard padded base64 text, errs on any other
/// text, and inverts `Engine::encode`.  The engine requires canonical
/// padding and rejects nonzero trailing bits, so every text it accepts is
/// exactly the encoding of the bytes it returns.
#[verifier::external_body]
pub(crate) fn from_base64(text: &str) -> (r: Result<Vec<u8>, base64::DecodeError>)
    ensures
        r is Ok <==> base64_bytes_of(text@) is Some,
        match r {
            Ok(v) => Some(v@) == base64_bytes_of(text@) && text@ == base64_of(v@)
                && forall|b: Seq<u8>| text@ == base64_of(b) ==> v@ == b,
            Err(_) => forall|b: Seq<u8>| text@ != base64_of(b),
        },
{
    base64::engine::general_purpose::STANDARD.decode(text)
}

} // verus!

//! Text made of encoded bytes.
use vstd::prelude::*;
use vstd::utf8::*;

verus! {

/// `String::from_utf8` (std): `Some` exactly when `bytes` are valid UTF-8, holding the
/// string whose characters those bytes encode.
#[verifier::external_body]
fn string_from_utf8(bytes: Vec<u8>) -> (res: Option<String>)
    ensures
        res is Some <==> valid_utf8(bytes@),
        res matches Some(s) ==> s@ == decode_utf8(bytes@),
{
    String::from_utf8(bytes).ok()
}

/// The text whose UTF-8 encoding is `bytes`.
pub(crate) fn into_text(bytes: Vec<u8>) -> (res: String)
    requires
        valid_utf8(bytes@),
    ensures
        res@ == decode_utf8(bytes@),
        encode_utf8(res@) == bytes@,
{
    let ghost b = bytes@;
    proof {
        decode_utf8_encode_utf8(b);
    }
    match string_from_utf8(bytes) {
        Some(s) => s,
        None => String::new(),
    }
}

} // verus!

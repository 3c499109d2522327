use vstd::prelude::*;

verus! {

/// The ASCII bytes of the padded RFC 4648 Base64 encoding of `bytes`.
pub uninterp spec fn b64_of(bytes: Seq<u8>) -> Seq<u8>;

/// The characters of the unpadded, upper-case RFC 4648 Base32 encoding of
/// `bytes`.
pub uninterp spec fn b32_of(bytes: Seq<u8>) -> Seq<char>;

/// Relies on base64's STANDARD engine (RFC 4648 alphabet, padded): the
/// encoding is a pure function of the input bytes, and it is ASCII.
#[verifier::external_body]
pub(crate) fn base64_encode(data: &[u8]) -> (r: Vec<u8>)
    ensures
        r@ == b64_of(data@),
{
    base64::Engine::encode(&base64::engine::general_purpose::STANDARD, data).into_bytes()
}

/// Relies on base64's STANDARD engine: decoding inverts encoding, so an
/// input that is exactly the encoding of some byte sequence decodes
/// successfully to that sequence; and the engine is strict (padding
/// required, non-zero trailing bits rejected), so whatever it accepts is
/// exactly the canonical encoding of what it returns.
#[verifier::external_body]
pub(crate) fn base64_decode(data: &[u8]) -> (r: Option<Vec<u8>>)
    ensures
        forall|bs: Seq<u8>| data@ == #[trigger] b64_of(bs) ==> r is Some && r->Some_0@ == bs,
        r matches Some(v) ==> data@ == b64_of(v@),
{
    match base64::Engine::decode(&base64::engine::general_purpose::STANDARD, data) {
        Ok(v) => Some(v),
        Err(_) => None,
    }
}

/// Relies on base32::encode with Alphabet::Rfc4648 { padding: false }: the
/// unpadded Base32 encoding is a pure function of the input bytes.
#[verifier::external_body]
pub(crate) fn base32_encode(data: &[u8]) -> (r: String)
    ensures
        r@ == b32_of(data@),
{
    base32::encode(base32::Alphabet::Rfc4648 { padding: false }, data)
}

/// Relies on base32::decode with Alphabet::Rfc4648 { padding: false }:
/// decoding inverts encoding, so an input that is exactly the encoding of
/// some byte sequence decodes successfully to that sequence.
#[verifier::external_body]
pub(crate) fn base32_decode(data: &str) -> (r: Option<Vec<u8>>)
    ensures
        forall|bs: Seq<u8>| data@ == #[trigger] b32_of(bs) ==> r is Some && r->Some_0@ == bs,
{
    base32::decode(base32::Alphabet::Rfc4648 { padding: false }, data)
}

} // verus!

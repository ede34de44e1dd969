//! Base32 text (DNSSEC alphabet, RFC 4648 §7 with lower-case symbols, no
//! padding) for the carrier labels of the steganographic layer, through the
//! `data-encoding` crate.

use vstd::prelude::*;
use data_encoding::BASE32_DNSSEC;

verus! {

/// The DNSSEC base32 text, as octets, of a byte sequence.
pub uninterp spec fn base32_enc(data: Seq<u8>) -> Seq<u8>;

/// What DNSSEC base32 decoding yields: the decoded octets, or nothing when
/// the text is not a canonical encoding.
pub uninterp spec fn base32_dec(text: Seq<u8>) -> Option<Seq<u8>>;

/// Relies on data-encoding's `BASE32_DNSSEC.encode`: deterministic, the
/// output has ceil(8n/5) characters for n input octets (five bits per
/// character, no padding), and decoding the output gives the input back
/// (the crate documents: encoding followed by decoding gives the initial
/// data).
#[verifier::external_body]
pub(crate) fn b32_encode(data: &[u8]) -> (r: Vec<u8>)
    requires
        data@.len() <= 5,
    ensures
        r@ == base32_enc(data@),
        r@.len() == (data@.len() * 8 + 4) / 5,
        base32_dec(r@) == Some(data@),
{
    BASE32_DNSSEC.encode(data).into_bytes()
}

/// Relies on data-encoding's `BASE32_DNSSEC.decode`: deterministic, and it
/// inverts `encode` (the crate documents: encoding followed by decoding
/// gives the initial data).
#[verifier::external_body]
pub(crate) fn b32_decode(text: &[u8]) -> (r: Option<Vec<u8>>)
    requires
        text@.len() <= 63,
    ensures
        r matches Some(v) ==> base32_dec(text@) == Some(v@),
        r is None ==> base32_dec(text@) is None,
{
    match BASE32_DNSSEC.decode(text) {
        Ok(v) => Some(v),
        Err(_) => None,
    }
}

} // verus!

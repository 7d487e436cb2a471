//! SHA-1 digests and hexadecimal encoding, through the `sha1` and `hex`
//! crates.

use vstd::prelude::*;
use sha1::{Digest, Sha1};
use crate::text::spec_hex_lower;

verus! {

/// The SHA-1 digest of a byte string, as the `sha1` crate computes it.
pub uninterp spec fn spec_sha1(data: Seq<u8>) -> Seq<u8>;

/// `Sha1::digest` of the `sha1` crate. Claimed: the result is the SHA-1
/// digest of `data` (a function of `data` alone), and it is twenty bytes
/// long, the output size of the hash.
#[verifier::external_body]
pub fn sha1_digest(data: &[u8]) -> (d: Vec<u8>)
    ensures
        d@ == spec_sha1(data@),
        d@.len() == 20,
{
    Sha1::digest(data).to_vec()
}

/// `hex::encode` of the `hex` crate. Claimed: the result is the lowercase
/// hexadecimal rendering of `data`, two digits per byte, high nibble first.
#[verifier::external_body]
pub fn hex_encode(data: &[u8]) -> (s: String)
    ensures
        s@ == spec_hex_lower(data@),
{
    hex::encode(data)
}

/// The value of one hexadecimal digit, upper or lower case.
pub open spec fn spec_hex_value(c: u8) -> Option<u8> {
    if 48 <= c <= 57 {
        Some((c - 48) as u8)
    } else if 97 <= c <= 102 {
        Some((c - 97 + 10) as u8)
    } else if 65 <= c <= 70 {
        Some((c - 65 + 10) as u8)
    } else {
        None
    }
}

/// The bytes that a string of hexadecimal digits spells, two digits per
/// byte, or `None` when its length is odd or it holds another character.
pub open spec fn spec_hex_decode(s: Seq<u8>) -> Option<Seq<u8>>
    decreases s.len(),
{
    if s.len() == 0 {
        Some(Seq::empty())
    } else if s.len() == 1 {
        None
    } else {
        match (spec_hex_decode(s.subrange(0, s.len() - 2)), spec_hex_value(s[s.len() - 2]),
            spec_hex_value(s[s.len() - 1])) {
            (Some(init), Some(hi), Some(lo)) => Some(init.push((hi * 16 + lo) as u8)),
            _ => None,
        }
    }
}

#[verifier::external_type_specification]
#[verifier::external_body]
pub struct ExFromHexError(hex::FromHexError);

/// `hex::decode` of the `hex` crate. Claimed: it succeeds exactly when
/// `data` is an even number of hexadecimal digits (either case), and then
/// gives the bytes they spell. Which error it gives otherwise is not stated.
#[verifier::external_body]
pub fn hex_decode(data: &[u8]) -> (r: Result<Vec<u8>, hex::FromHexError>)
    ensures
        r is Ok <==> spec_hex_decode(data@) is Some,
        r matches Ok(v) ==> Some(v@) == spec_hex_decode(data@),
{
    hex::decode(data)
}

} // verus!

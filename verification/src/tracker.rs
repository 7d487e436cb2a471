//! The announce request to a tracker: the info hash, its URL encoding and
//! the request's URL.

use vstd::prelude::*;
use vstd::string::StringExecFns;
use vstd::string::StringSliceAdditionalSpecFns;
use crate::digest::{hex_decode, hex_encode, sha1_digest, spec_hex_decode, spec_hex_value, spec_sha1};
use crate::text::{hex_byte, hex_digit, hex_digit_char, lemma_hex_lower_shape, push_char, spec_hex_lower};
use vstd::utf8::{encode_utf8, is_ascii_chars_encode_utf8};
use crate::types::TorrentServerRequest;

verus! {

/// The peer id this client announces itself with.
pub const PEER_ID: &'static str = "lakshamana_torclient";

/// The port this client announces.
pub const PORT: u16 = 6881;

/// The SHA-1 digest of `val` in lowercase hexadecimal.
pub fn hash(val: &[u8]) -> (h: String)
    ensures
        h@ == spec_hex_lower(spec_sha1(val@)),
{
    let digest = sha1_digest(val);
    hex_encode(digest.as_slice())
}

/// The info hash of a torrent as bytes: the twenty-byte SHA-1 digest of
/// its bencoded info dictionary, the bytes that `hash` writes in hexadecimal.
pub fn info_hash_bytes(bencoded_info: &[u8]) -> (h: Vec<u8>)
    ensures
        h@ == spec_sha1(bencoded_info@),
        h@.len() == 20,
{
    sha1_digest(bencoded_info)
}

/// Whether a byte is an ASCII letter or digit.
pub open spec fn is_alnum(b: u8) -> bool {
    (48 <= b <= 57) || (65 <= b <= 90) || (97 <= b <= 122)
}

/// How one byte of the info hash is written in the URL: a letter or digit
/// as itself, any other byte as `%` and two lowercase hexadecimal digits.
pub open spec fn url_byte(b: u8) -> Seq<char> {
    if is_alnum(b) {
        seq![b as char]
    } else {
        seq!['%'] + hex_byte(b)
    }
}

/// The byte that two hexadecimal digits spell.
pub open spec fn pair_value(hi: u8, lo: u8) -> u8 {
    (spec_hex_value(hi).unwrap() * 16 + spec_hex_value(lo).unwrap()) as u8
}

/// Whether every complete pair of characters is two hexadecimal digits.
pub open spec fn pairs_are_hex(s: Seq<u8>) -> bool {
    forall|k: int|
        0 <= k < s.len() / 2 ==> spec_hex_value(#[trigger] s[2 * k]) is Some && spec_hex_value(
            s[2 * k + 1],
        ) is Some
}

/// The URL encoding of a hexadecimal string: each complete pair of digits
/// is decoded to a byte and written as `url_byte` says; a last odd digit is
/// dropped.
pub open spec fn spec_encode_url(s: Seq<u8>) -> Seq<char>
    decreases s.len(),
{
    if s.len() < 2 {
        Seq::empty()
    } else {
        let n = s.len() / 2;
        spec_encode_url(s.subrange(0, 2 * n - 2)) + url_byte(pair_value(s[2 * n - 2], s[2 * n - 1]))
    }
}

proof fn lemma_encode_url_prefix(s: Seq<u8>, k: int)
    requires
        0 <= k < s.len() / 2,
    ensures
        spec_encode_url(s.subrange(0, 2 * k + 2)) == spec_encode_url(s.subrange(0, 2 * k))
            + url_byte(pair_value(s[2 * k], s[2 * k + 1])),
{
    let t = s.subrange(0, 2 * k + 2);
    assert(t.len() / 2 == k + 1);
    assert(t.subrange(0, 2 * k) =~= s.subrange(0, 2 * k));
}

proof fn lemma_encode_url_even(s: Seq<u8>)
    ensures
        spec_encode_url(s) == spec_encode_url(s.subrange(0, 2 * (s.len() / 2) as int)),
{
    let n = (s.len() / 2) as int;
    let t = s.subrange(0, 2 * n);
    if s.len() >= 2 {
        assert(t.len() / 2 == n);
        assert(t.subrange(0, 2 * n - 2) =~= s.subrange(0, 2 * n - 2));
    } else {
        assert(t.len() == 0);
    }
}

/// Writes a byte as `url_byte` says.
fn push_url_byte(out: &mut String, num: u8)
    ensures
        final(out)@ == old(out)@ + url_byte(num),
{
    if (48 <= num && num <= 57) || (65 <= num && num <= 90) || (97 <= num && num <= 122) {
        push_char(out, num as char);
    } else {
        push_char(out, '%');
        push_char(out, hex_digit_char(num / 16));
        push_char(out, hex_digit_char(num % 16));
    }
    assert(out@ =~= old(out)@ + url_byte(num));
}

/// The URL encoding of a hexadecimal string.
pub fn encode_url(val: &str) -> (r: String)
    requires
        pairs_are_hex(val.spec_bytes()),
    ensures
        r@ == spec_encode_url(val.spec_bytes()),
{
    let bytes = val.as_bytes();
    let len = bytes.len();
    let n = len / 2;
    let mut out = String::new();
    let mut k: usize = 0;
    assert(bytes@.subrange(0, 0) =~= Seq::<u8>::empty());
    while k < n
        invariant
            bytes@ == val.spec_bytes(),
            len == bytes@.len(),
            n == bytes@.len() / 2,
            k <= n,
            pairs_are_hex(bytes@),
            out@ == spec_encode_url(bytes@.subrange(0, 2 * k as int)),
        decreases n - k,
    {
        assert(2 * k + 2 <= len) by (nonlinear_arith)
            requires
                k < n,
                n == len / 2,
        ;
        let pair = vstd::slice::slice_subrange(bytes, 2 * k, 2 * k + 2);
        assert(spec_hex_value(bytes@[2 * k as int]) is Some);
        proof {
            let p = pair@;
            assert(p[0] == bytes@[2 * k as int]);
            assert(p[1] == bytes@[2 * k + 1]);
            assert(p.subrange(0, 0) =~= Seq::<u8>::empty());
            reveal_with_fuel(spec_hex_decode, 2);
            assert(spec_hex_decode(p) == Some(Seq::<u8>::empty().push(pair_value(p[0], p[1]))));
        }
        let decoded = hex_decode(pair);
        let num = match decoded {
            Ok(v) => v[0],
            Err(_) => 0u8,
        };
        proof {
            lemma_encode_url_prefix(bytes@, k as int);
        }
        push_url_byte(&mut out, num);
        k = k + 1;
    }
    proof {
        lemma_encode_url_even(bytes@);
    }
    out
}

/// The announce request for a torrent whose info hash is `info_hash_hex`,
/// with `left` bytes still to download.
pub fn tracker_request(info_hash_hex: &str, left: u64) -> (r: TorrentServerRequest)
    requires
        pairs_are_hex(info_hash_hex.spec_bytes()),
    ensures
        r.info_hash@ == spec_encode_url(info_hash_hex.spec_bytes()),
        r.peer_id@ == PEER_ID@,
        r.port == PORT,
        r.uploaded == 0,
        r.downloaded == 0,
        r.left == left,
        r.compact == 1,
{
    let mut peer_id = String::new();
    peer_id.append(PEER_ID);
    TorrentServerRequest {
        info_hash: encode_url(info_hash_hex),
        peer_id,
        port: PORT,
        uploaded: 0,
        downloaded: 0,
        left,
        compact: 1,
    }
}

/// The URL of an announce request: the tracker's address followed by the
/// request's query string.
pub fn announce_url(announce: &str, request: TorrentServerRequest) -> (u: String)
    ensures
        u@ == announce@ + request.spec_query_string(),
{
    let mut u = String::new();
    u.append(announce);
    let q = request.query_string();
    u.append(q.as_str());
    assert(u@ =~= announce@ + request.spec_query_string());
    u
}

/// The URL encoding of a byte string, byte by byte as `url_byte` says.
pub open spec fn spec_url_encode_bytes(d: Seq<u8>) -> Seq<char>
    decreases d.len(),
{
    if d.len() == 0 {
        Seq::empty()
    } else {
        spec_url_encode_bytes(d.drop_last()) + url_byte(d.last())
    }
}

proof fn lemma_hex_digit_value(v: nat)
    requires
        v < 16,
    ensures
        spec_hex_value(hex_digit(v) as u8) == Some(v as u8),
{
}

/// Decoding the lowercase hexadecimal rendering of bytes, pair by pair, and
/// writing each byte into the URL gives the URL encoding of the bytes: the
/// tracker sees the info hash itself.
pub proof fn lemma_url_of_hex(d: Seq<u8>)
    ensures
        pairs_are_hex(encode_utf8(spec_hex_lower(d))),
        spec_encode_url(encode_utf8(spec_hex_lower(d))) == spec_url_encode_bytes(d),
{
    let h = spec_hex_lower(d);
    lemma_hex_lower_shape(d);
    is_ascii_chars_encode_utf8(h);
    let s = encode_utf8(h);
    assert(s.len() == 2 * d.len());
    assert forall|k: int| 0 <= k < d.len() implies s[2 * k] == hex_digit((d[k] / 16) as nat) as u8
        && s[2 * k + 1] == hex_digit((d[k] % 16) as nat) as u8 && spec_hex_value(#[trigger] s[2 * k])
        == Some((d[k] / 16) as u8) && spec_hex_value(s[2 * k + 1]) == Some((d[k] % 16) as u8) by {
        assert(h[2 * k] as u8 == s[2 * k]);
        assert(h[2 * k + 1] as u8 == s[2 * k + 1]);
        lemma_hex_digit_value((d[k] / 16) as nat);
        lemma_hex_digit_value((d[k] % 16) as nat);
    }
    assert(s.len() / 2 == d.len());
    lemma_url_prefix(s, d, d.len() as int);
    assert(s.subrange(0, 2 * d.len() as int) =~= s);
    assert(d.subrange(0, d.len() as int) =~= d);
}

proof fn lemma_url_prefix(s: Seq<u8>, d: Seq<u8>, k: int)
    requires
        0 <= k <= d.len(),
        s.len() == 2 * d.len(),
        forall|j: int|
            0 <= j < d.len() ==> spec_hex_value(#[trigger] s[2 * j]) == Some((d[j] / 16) as u8)
                && spec_hex_value(s[2 * j + 1]) == Some((d[j] % 16) as u8),
    ensures
        spec_encode_url(s.subrange(0, 2 * k)) == spec_url_encode_bytes(d.subrange(0, k)),
    decreases k,
{
    if k == 0 {
        assert(s.subrange(0, 0) =~= Seq::<u8>::empty());
        assert(d.subrange(0, 0) =~= Seq::<u8>::empty());
    } else {
        let j = k - 1;
        lemma_url_prefix(s, d, j);
        assert(s.len() / 2 == d.len());
        lemma_encode_url_prefix(s, j);
        assert(spec_hex_value(s[2 * j]) == Some((d[j] / 16) as u8));
        assert(pair_value(s[2 * j], s[2 * j + 1]) == d[j]);
        assert(d.subrange(0, k).drop_last() =~= d.subrange(0, j));
    }
}

/// The announce request for a torrent whose bencoded `info` dictionary is
/// `bencoded_info`, with `left` bytes still to download: its info hash is
/// the SHA-1 digest of the dictionary, URL encoded.
pub fn announce_request(bencoded_info: &[u8], left: u64) -> (r: TorrentServerRequest)
    ensures
        r.info_hash@ == spec_url_encode_bytes(spec_sha1(bencoded_info@)),
        r.peer_id@ == PEER_ID@,
        r.port == PORT,
        r.uploaded == 0,
        r.downloaded == 0,
        r.left == left,
        r.compact == 1,
{
    let h = hash(bencoded_info);
    proof {
        lemma_url_of_hex(spec_sha1(bencoded_info@));
    }
    tracker_request(h.as_str(), left)
}

} // verus!

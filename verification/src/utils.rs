//! The arithmetic of pieces: how many there are, where each starts, how
//! long each is, and whether downloaded data matches its hash.

use vstd::prelude::*;
use crate::digest::{hex_encode, sha1_digest, spec_sha1};
use crate::text::{spec_hex_lower, str_equal};
use crate::types::Torrent;

verus! {

/// The number of pieces of a file of `length` bytes cut in pieces of
/// `piece_length` bytes: the length divided by the piece length, rounded up.
pub open spec fn spec_total_pieces(length: u64, piece_length: u64) -> int {
    (length + piece_length - 1) / (piece_length as int)
}

/// Where piece `idx` starts in the file.
pub open spec fn spec_piece_offset(idx: int, piece_length: u64) -> int {
    idx * piece_length
}

/// The length of piece `idx`: the piece length, but for the last piece,
/// which holds what remains of the file.
pub open spec fn spec_piece_size(length: u64, piece_length: u64, idx: int) -> int {
    if idx == spec_total_pieces(length, piece_length) - 1 {
        if length % piece_length == 0 {
            piece_length as int
        } else {
            (length % piece_length) as int
        }
    } else {
        piece_length as int
    }
}

/// The inputs for which the piece count can be computed in 64 bits.
pub open spec fn piece_arith_ok(length: u64, piece_length: u64) -> bool {
    &&& piece_length > 0
    &&& length + piece_length <= u64::MAX
}

/// Where piece `piece_idx` starts in the file.
pub fn calc_piece_offset(piece_idx: usize, piece_length: u64) -> (r: u64)
    requires
        piece_idx * piece_length <= u64::MAX,
    ensures
        r == spec_piece_offset(piece_idx as int, piece_length),
{
    piece_idx as u64 * piece_length
}

/// The number of pieces of the torrent's file.
pub fn calc_total_pieces(torrent: &Torrent) -> (n: usize)
    requires
        piece_arith_ok(torrent.info.length, torrent.info.piece_length),
        spec_total_pieces(torrent.info.length, torrent.info.piece_length) <= usize::MAX,
    ensures
        n == spec_total_pieces(torrent.info.length, torrent.info.piece_length),
{
    let total = (torrent.info.length + torrent.info.piece_length - 1) / torrent.info.piece_length;
    total as usize
}

/// The length of piece `piece_idx` of the torrent's file.
pub fn get_piece_size(torrent: &Torrent, piece_idx: usize) -> (r: u64)
    requires
        piece_arith_ok(torrent.info.length, torrent.info.piece_length),
        piece_idx < spec_total_pieces(torrent.info.length, torrent.info.piece_length),
    ensures
        r == spec_piece_size(torrent.info.length, torrent.info.piece_length, piece_idx as int),
{
    let total_pieces = (torrent.info.length + torrent.info.piece_length - 1)
        / torrent.info.piece_length;
    if piece_idx as u64 == total_pieces - 1 {
        let remainder = torrent.info.length % torrent.info.piece_length;
        if remainder == 0 {
            torrent.info.piece_length
        } else {
            remainder
        }
    } else {
        torrent.info.piece_length
    }
}

/// Whether the SHA-1 digest of `data`, in lowercase hexadecimal, is
/// `expected_hash`.
pub fn verify_piece_hash(data: &[u8], expected_hash: &str) -> (b: bool)
    ensures
        b == (spec_hex_lower(spec_sha1(data@)) == expected_hash@),
{
    let digest = sha1_digest(data);
    let hex = hex_encode(digest.as_slice());
    str_equal(hex.as_str(), expected_hash)
}

/// The pieces tile the file: each is non-empty and no longer than the piece
/// length, each ends where the next starts, and the last ends at the end of
/// the file.
pub proof fn lemma_pieces_tile_file(length: u64, piece_length: u64)
    requires
        piece_arith_ok(length, piece_length),
    ensures
        forall|i: int|
            0 <= i < spec_total_pieces(length, piece_length) ==> 0 < #[trigger] spec_piece_size(
                length,
                piece_length,
                i,
            ) <= piece_length,
        forall|i: int|
            0 <= i < spec_total_pieces(length, piece_length) - 1 ==> spec_piece_offset(
                i,
                piece_length,
            ) + #[trigger] spec_piece_size(length, piece_length, i) == spec_piece_offset(
                i + 1,
                piece_length,
            ),
        spec_total_pieces(length, piece_length) > 0 ==> spec_piece_offset(
            spec_total_pieces(length, piece_length) - 1,
            piece_length,
        ) + spec_piece_size(length, piece_length, spec_total_pieces(length, piece_length) - 1)
            == length,
        spec_total_pieces(length, piece_length) == 0 <==> length == 0,
{
    let p = piece_length as int;
    let l = length as int;
    let t = spec_total_pieces(length, piece_length);
    assert(l == p * (l / p) + l % p) by (nonlinear_arith)
        requires
            p > 0,
    ;
    assert(0 <= l % p < p) by (nonlinear_arith)
        requires
            p > 0,
    ;
    if l % p == 0 {
        assert(t == l / p) by (nonlinear_arith)
            requires
                t == (l + p - 1) / p,
                l == p * (l / p),
                p > 0,
        ;
    } else {
        assert(t == l / p + 1) by (nonlinear_arith)
            requires
                t == (l + p - 1) / p,
                l == p * (l / p) + l % p,
                0 < l % p < p,
                p > 0,
        ;
    }
    assert forall|i: int| 0 <= i < t - 1 implies spec_piece_offset(i, piece_length)
        + #[trigger] spec_piece_size(length, piece_length, i) == spec_piece_offset(
        i + 1,
        piece_length,
    ) by {
        assert(i * p + p == (i + 1) * p) by (nonlinear_arith);
    }
    if t > 0 {
        assert((t - 1) * p == p * t - p) by (nonlinear_arith);
        assert(p * (l / p + 1) == p * (l / p) + p) by (nonlinear_arith);
    }
    if l == 0 {
        assert(t == 0) by (nonlinear_arith)
            requires
                t == (l + p - 1) / p,
                l == 0,
                p > 0,
        ;
    }
    if l > 0 {
        assert(t >= 1) by (nonlinear_arith)
            requires
                t == (l + p - 1) / p,
                l >= 1,
                p > 0,
        ;
    }
}

/// The total length of the first `k` pieces.
pub open spec fn sum_piece_sizes(length: u64, piece_length: u64, k: int) -> int
    decreases k,
{
    if k <= 0 {
        0
    } else {
        sum_piece_sizes(length, piece_length, k - 1) + spec_piece_size(length, piece_length, k - 1)
    }
}

proof fn lemma_prefix_sums_to_offset(length: u64, piece_length: u64, k: int)
    requires
        piece_arith_ok(length, piece_length),
        0 <= k < spec_total_pieces(length, piece_length),
    ensures
        sum_piece_sizes(length, piece_length, k) == spec_piece_offset(k, piece_length),
    decreases k,
{
    if k > 0 {
        lemma_prefix_sums_to_offset(length, piece_length, k - 1);
        lemma_pieces_tile_file(length, piece_length);
        assert(spec_piece_offset(k - 1, piece_length) + spec_piece_size(length, piece_length, k - 1)
            == spec_piece_offset(k, piece_length));
    }
}

/// The sizes of all pieces add up to the length of the file.
pub proof fn lemma_piece_sizes_sum_to_length(length: u64, piece_length: u64)
    requires
        piece_arith_ok(length, piece_length),
    ensures
        sum_piece_sizes(length, piece_length, spec_total_pieces(length, piece_length)) == length,
{
    let t = spec_total_pieces(length, piece_length);
    lemma_pieces_tile_file(length, piece_length);
    if t > 0 {
        lemma_prefix_sums_to_offset(length, piece_length, t - 1);
    }
}

} // verus!

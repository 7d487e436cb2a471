//! How rare each piece is among the peers, and the random priority of the
//! `Random` strategy.

use vstd::prelude::*;
use crate::peer::{spec_has_piece, Peer};

verus! {

/// The rarity of a piece that `frequency` of `n_peers` peers hold, on a
/// scale where 255 is held by none and 0 by all.
pub open spec fn spec_rarity_score(frequency: nat, n_peers: nat) -> int {
    255 - (frequency * 255) / n_peers
}

/// The rarity of a piece that `frequency` of `n_peers` peers hold.
pub fn rarity_score(frequency: usize, n_peers: usize) -> (r: u8)
    requires
        0 < n_peers,
        frequency <= n_peers,
        frequency * 255 <= usize::MAX,
    ensures
        r == spec_rarity_score(frequency as nat, n_peers as nat),
{
    let scaled = frequency * 255 / n_peers;
    proof {
        let f = frequency as int;
        let n = n_peers as int;
        assert((f * 255) / n <= 255) by (nonlinear_arith)
            requires
                0 <= f <= n,
                n > 0,
        ;
    }
    255 - (scaled as u8)
}

/// The number of peers among the first `k` that hold piece `piece_idx`.
pub open spec fn holders(peers: Seq<Peer>, piece_idx: int, k: int) -> nat
    decreases k,
{
    if k <= 0 {
        0
    } else {
        holders(peers, piece_idx, k - 1) + if spec_has_piece(peers[k - 1].bitfield, piece_idx) {
            1nat
        } else {
            0nat
        }
    }
}

proof fn lemma_holders_bound(peers: Seq<Peer>, piece_idx: int, k: int)
    requires
        k >= 0,
    ensures
        holders(peers, piece_idx, k) <= k,
    decreases k,
{
    if k > 0 {
        lemma_holders_bound(peers, piece_idx, k - 1);
    }
}

/// The number of peers that hold piece `piece_idx`.
pub fn piece_frequency(peers: &[Peer], piece_idx: usize) -> (n: usize)
    ensures
        n == holders(peers@, piece_idx as int, peers@.len() as int),
{
    let mut n: usize = 0;
    let mut i: usize = 0;
    while i < peers.len()
        invariant
            i <= peers@.len(),
            n == holders(peers@, piece_idx as int, i as int),
            n <= i,
        decreases peers@.len() - i,
    {
        if peers[i].has_piece(piece_idx) {
            n = n + 1;
        }
        i = i + 1;
    }
    n
}

/// The rarity of each of the first `total_pieces` pieces among the peers.
pub fn rarity_scores(total_pieces: usize, peers: &[Peer]) -> (r: Vec<u8>)
    requires
        total_pieces > 0 ==> peers@.len() > 0,
        peers@.len() * 255 <= usize::MAX,
    ensures
        r@.len() == total_pieces,
        forall|i: int|
            0 <= i < total_pieces ==> #[trigger] r@[i] == spec_rarity_score(
                holders(peers@, i, peers@.len() as int),
                peers@.len() as nat,
            ),
{
    let mut r: Vec<u8> = Vec::new();
    let mut i: usize = 0;
    while i < total_pieces
        invariant
            i <= total_pieces,
            total_pieces > 0 ==> peers@.len() > 0,
            peers@.len() * 255 <= usize::MAX,
            r@.len() == i,
            forall|j: int|
                0 <= j < i ==> #[trigger] r@[j] == spec_rarity_score(
                    holders(peers@, j, peers@.len() as int),
                    peers@.len() as nat,
                ),
        decreases total_pieces - i,
    {
        let frequency = piece_frequency(peers, i);
        proof {
            lemma_holders_bound(peers@, i as int, peers@.len() as int);
            assert(frequency * 255 <= peers@.len() * 255) by (nonlinear_arith)
                requires
                    frequency <= peers@.len(),
            ;
        }
        r.push(rarity_score(frequency, peers.len()));
        i = i + 1;
    }
    r
}

/// `rand::random_range(0..=255)`: a priority drawn at random. Nothing is
/// claimed of the value drawn.
#[verifier::external_body]
pub fn calc_priority_random() -> (p: u8) {
    rand::random_range(0..=255u8)
}

} // verus!

//! The outcome of connecting to the peers of a pool.

use vstd::prelude::*;
use crate::peer::opt_message_view;
use crate::pool::{applied, count_first_messages, count_ok, first_message_of, outcome_wf, HandshakeOutcome, PeerPool};

verus! {

/// How many peers a round of handshakes connected, and how many it did not.
pub struct ConnectionStats {
    pub connected: usize,
    pub failed: usize,
}

/// Applies the outcome of the handshake with each peer of the pool and
/// counts the peers that connected and those that did not.
pub fn validate_peers_connection(pool: &mut PeerPool, outcomes: &[HandshakeOutcome]) -> (s:
    ConnectionStats)
    requires
        outcomes@.len() == old(pool).members().len(),
        forall|i: int| 0 <= i < outcomes@.len() ==> outcome_wf(#[trigger] outcomes@[i]),
    ensures
        s.connected == count_ok(outcomes@, outcomes@.len() as int),
        s.connected == count_first_messages(outcomes@, outcomes@.len() as int),
        forall|i: int|
            0 <= i < outcomes@.len() ==> (first_message_of(#[trigger] outcomes@[i]) matches Some(m)
                ==> final(pool).members()[i].is_connected && opt_message_view(
                final(pool).members()[i].bitfield,
            ) == Some(m@)),
        s.connected + s.failed == old(pool).members().len(),
        final(pool).members().len() == old(pool).members().len(),
        forall|i: int|
            0 <= i < outcomes@.len() ==> applied(
                old(pool).members()[i],
                outcomes@[i],
                #[trigger] final(pool).members()[i],
            ),
        final(pool).max_per_peer() == old(pool).max_per_peer(),
        final(pool).total_active() == old(pool).total_active(),
        old(pool).wf() ==> final(pool).wf(),
{
    let n = pool.record_handshakes(outcomes);
    ConnectionStats { connected: n, failed: pool.len() - n }
}

} // verus!

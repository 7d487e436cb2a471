//! The pool of peers: which of them can take a piece, which one is least
//! loaded, and how the answers to our handshakes change them.

use vstd::prelude::*;
use crate::peer::{opt_message_view, spec_has_piece, wrap_dec, wrap_inc, Peer};
use crate::text::spec_hex_lower;
use crate::types::Message;

verus! {

/// The peers of a download, with a limit on the pieces each may serve at
/// once.
pub struct PeerPool {
    pub peers: Vec<Peer>,
    max_concurrent_per_peer: usize,
    total_active_downloads: usize,
}

/// Whether `id` is among `ids`.
pub open spec fn id_listed(ids: Seq<String>, id: Seq<char>) -> bool {
    exists|k: int| 0 <= k < ids.len() && (#[trigger] ids[k])@ == id
}

/// Whether a peer may be given piece `piece_idx`: it holds the piece, it is
/// connected with room for another download, and its id, if it has one, is
/// not excluded.
pub open spec fn eligible(p: Peer, piece_idx: int, max: usize, exclude: Seq<String>) -> bool {
    &&& spec_has_piece(p.bitfield, piece_idx)
    &&& p.is_connected
    &&& p.stats.active() < max
    &&& match p.id {
        Some(id) => !id_listed(exclude, id@),
        None => true,
    }
}

/// Whether `after` is `before` with one more download in progress.
pub open spec fn one_more_active(before: Peer, after: Peer) -> bool {
    &&& after.address == before.address
    &&& after.id == before.id
    &&& after.bitfield == before.bitfield
    &&& after.is_connected == before.is_connected
    &&& after.stats.active() == wrap_inc(before.stats.active())
    &&& after.stats.completed() == before.stats.completed()
    &&& after.stats.failed() == before.stats.failed()
    &&& after.stats.download_time_ms() == before.stats.download_time_ms()
    &&& after.stats.connection_failures() == before.stats.connection_failures()
}

/// Whether `after` is `before` with one download fewer in progress.
pub open spec fn one_fewer_active(before: Peer, after: Peer) -> bool {
    &&& after.address == before.address
    &&& after.id == before.id
    &&& after.bitfield == before.bitfield
    &&& after.is_connected == before.is_connected
    &&& after.stats.active() == wrap_dec(before.stats.active())
    &&& after.stats.completed() == before.stats.completed()
    &&& after.stats.failed() == before.stats.failed()
    &&& after.stats.download_time_ms() == before.stats.download_time_ms()
    &&& after.stats.connection_failures() == before.stats.connection_failures()
}

/// Whether `after` is `before` once peer `i` has finished a download: that
/// peer has one download fewer in progress and the others are unchanged;
/// with no peer `i`, nothing changes.
pub open spec fn released(before: Seq<Peer>, after: Seq<Peer>, i: int) -> bool {
    &&& after.len() == before.len()
    &&& (0 <= i < before.len() ==> one_fewer_active(before[i], after[i]))
    &&& forall|j: int| 0 <= j < before.len() && j != i ==> #[trigger] after[j] == before[j]
}

/// Whether `r` is the choice of peer for piece `piece_idx`: `None` when no
/// peer is eligible, and then no peer changes; otherwise the eligible peer
/// with the fewest downloads in progress, the first such one on a tie,
/// charged one more download, the other peers unchanged.
pub open spec fn picked_best(
    before: Seq<Peer>,
    after: Seq<Peer>,
    piece_idx: int,
    max: usize,
    exclude: Seq<String>,
    r: Option<usize>,
) -> bool {
    &&& after.len() == before.len()
    &&& (r is None <==> forall|j: int|
        0 <= j < before.len() ==> !eligible(#[trigger] before[j], piece_idx, max, exclude))
    &&& (r is None ==> after == before)
    &&& (r matches Some(i) ==> {
        &&& i < before.len()
        &&& eligible(before[i as int], piece_idx, max, exclude)
        &&& forall|j: int|
            0 <= j < before.len() && eligible(#[trigger] before[j], piece_idx, max, exclude)
                ==> before[i as int].stats.active() <= before[j].stats.active() && (j < i
                ==> before[i as int].stats.active() < before[j].stats.active())
        &&& one_more_active(before[i as int], after[i as int])
        &&& forall|j: int| 0 <= j < before.len() && j != i ==> #[trigger] after[j] == before[j]
    })
}

/// What came of the handshake with one peer.
pub enum HandshakeOutcome {
    /// The handshake did not finish in time; the peer is left as it was.
    TimedOut,
    /// The connection or the exchange of handshakes failed.
    Failed,
    /// The peer answered with its sixty-eight-byte handshake, and then with
    /// a first message or without one.
    Replied { reply: Vec<u8>, first_message: Option<Message> },
}

/// Whether an outcome is a successful handshake.
pub open spec fn handshake_ok(o: HandshakeOutcome) -> bool {
    o matches HandshakeOutcome::Replied { first_message: Some(_), .. }
}

/// The number of successful handshakes among the first `k` outcomes.
pub open spec fn count_ok(outcomes: Seq<HandshakeOutcome>, k: int) -> nat
    decreases k,
{
    if k <= 0 {
        0
    } else {
        count_ok(outcomes, k - 1) + if handshake_ok(outcomes[k - 1]) {
            1nat
        } else {
            0nat
        }
    }
}

/// The first message that came with a handshake's outcome, if any.
pub open spec fn first_message_of(o: HandshakeOutcome) -> Option<Message> {
    match o {
        HandshakeOutcome::Replied { first_message, .. } => first_message,
        _ => None,
    }
}

/// The number of outcomes among the first `k` that carry a first message.
pub open spec fn count_first_messages(outcomes: Seq<HandshakeOutcome>, k: int) -> nat
    decreases k,
{
    if k <= 0 {
        0
    } else {
        count_first_messages(outcomes, k - 1) + if first_message_of(outcomes[k - 1]) is Some {
            1nat
        } else {
            0nat
        }
    }
}

/// A handshake counts as connected exactly when the peer replied and sent
/// a first message, whatever kind of message that is: the connected count
/// is the number of outcomes that carry a first message.
pub proof fn lemma_count_ok_counts_first_messages(outcomes: Seq<HandshakeOutcome>, k: int)
    ensures
        count_ok(outcomes, k) == count_first_messages(outcomes, k),
    decreases k,
{
    if k > 0 {
        lemma_count_ok_counts_first_messages(outcomes, k - 1);
    }
}

/// A reply that carries a first message, of any kind, connects the peer
/// and leaves that message as its bitfield; its counters are unchanged.
pub proof fn lemma_reply_with_message_connects(before: Peer, reply: Vec<u8>, m: Message, after: Peer)
    requires
        applied(before, HandshakeOutcome::Replied { reply, first_message: Some(m) }, after),
    ensures
        handshake_ok(HandshakeOutcome::Replied { reply, first_message: Some(m) }),
        after.is_connected,
        opt_message_view(after.bitfield) == Some(m@),
        after.stats == before.stats,
        after.address == before.address,
{
}

/// Whether an outcome can be applied: a reply holds sixty-eight bytes.
pub open spec fn outcome_wf(o: HandshakeOutcome) -> bool {
    o matches HandshakeOutcome::Replied { reply, .. } ==> reply@.len() == 68
}

/// Whether `after` is `before` once a failed connection is counted.
pub open spec fn failed_connection(before: Peer, after: Peer) -> bool {
    &&& !after.is_connected
    &&& after.stats.connection_failures() == wrap_inc(before.stats.connection_failures())
    &&& after.stats.active() == before.stats.active()
    &&& after.stats.completed() == before.stats.completed()
    &&& after.stats.failed() == before.stats.failed()
    &&& after.stats.download_time_ms() == before.stats.download_time_ms()
}

/// What an outcome makes of a peer.
pub open spec fn applied(before: Peer, o: HandshakeOutcome, after: Peer) -> bool {
    &&& after.address == before.address
    &&& match o {
        HandshakeOutcome::TimedOut => after == before,
        HandshakeOutcome::Failed => {
            &&& failed_connection(before, after)
            &&& after.id == before.id
            &&& after.bitfield == before.bitfield
        },
        HandshakeOutcome::Replied { reply, first_message } => {
            &&& after.id matches Some(id) && id@ == spec_hex_lower(reply@.subrange(48, 68))
            &&& match first_message {
                Some(m) => {
                    &&& after.is_connected
                    &&& opt_message_view(after.bitfield) == Some(m@)
                    &&& after.stats == before.stats
                },
                None => {
                    &&& failed_connection(before, after)
                    &&& after.bitfield == before.bitfield
                },
            }
        },
    }
}

impl PeerPool {
    /// The peers, in order.
    pub closed spec fn members(&self) -> Seq<Peer> {
        self.peers@
    }

    /// The limit on the pieces one peer may serve at once.
    pub closed spec fn max_per_peer(&self) -> usize {
        self.max_concurrent_per_peer
    }

    /// The pool's counter of downloads in progress.
    pub closed spec fn total_active(&self) -> usize {
        self.total_active_downloads
    }

    /// The invariant of a pool: every peer's own invariant.
    pub open spec fn wf(&self) -> bool {
        forall|i: int| 0 <= i < self.members().len() ==> (#[trigger] self.members()[i]).wf()
    }

    /// A pool of `peers`, each allowed `max_concurrent_per_peer` pieces at
    /// once.
    pub fn new(peers: Vec<Peer>, max_concurrent_per_peer: usize) -> (p: PeerPool)
        ensures
            p.members() == peers@,
            p.max_per_peer() == max_concurrent_per_peer,
            p.total_active() == 0,
    {
        PeerPool { peers, max_concurrent_per_peer, total_active_downloads: 0 }
    }

    /// Whether peer `peer_idx` exists and can take another download.
    pub fn is_peer_available(&self, peer_idx: usize) -> (b: bool)
        ensures
            b == (peer_idx < self.members().len() && self.members()[peer_idx as int].is_connected
                && self.members()[peer_idx as int].stats.active() < self.max_per_peer()),
    {
        if peer_idx < self.peers.len() {
            self.peers[peer_idx].can_accept_download(self.max_concurrent_per_peer)
        } else {
            false
        }
    }

    /// A copy of peer `peer_idx`, if there is one.
    pub fn get_peer_by_index(&self, peer_idx: usize) -> (r: Option<Peer>)
        ensures
            r is Some <==> peer_idx < self.members().len(),
            r matches Some(p) ==> {
                let q = self.members()[peer_idx as int];
                &&& p.address == q.address
                &&& p.id == q.id
                &&& opt_message_view(p.bitfield) == opt_message_view(q.bitfield)
                &&& p.is_connected == q.is_connected
                &&& p.stats == q.stats
                &&& (q.wf() ==> p.wf())
            },
    {
        if peer_idx < self.peers.len() {
            Some(self.peers[peer_idx].duplicate())
        } else {
            None
        }
    }

    /// The eligible peer for piece `piece_idx` with the fewest downloads in
    /// progress, the first such one on a tie; that peer is charged one more
    /// download. `None`, and no change, when no peer is eligible.
    pub fn find_best_peer_for_piece(&mut self, piece_idx: usize, exclude_peer_ids: &[String]) -> (r:
        Option<usize>)
        ensures
            final(self).max_per_peer() == old(self).max_per_peer(),
            final(self).total_active() == old(self).total_active(),
            final(self).members().len() == old(self).members().len(),
            picked_best(
                old(self).members(),
                final(self).members(),
                piece_idx as int,
                old(self).max_per_peer(),
                exclude_peer_ids@,
                r,
            ),
            old(self).wf() ==> final(self).wf(),
            r matches Some(i) ==> {
                &&& old(self).members()[i as int].is_connected
                &&& spec_has_piece(old(self).members()[i as int].bitfield, piece_idx as int)
                &&& old(self).members()[i as int].stats.active() < old(self).max_per_peer()
                &&& final(self).members()[i as int].stats.active() == old(self).members()[i as int].stats.active() + 1
            },
    {
        let n = self.peers.len();
        let mut best: Option<usize> = None;
        let mut i: usize = 0;
        while i < n
            invariant
                n == self.members().len(),
                i <= n,
                self.members() == old(self).members(),
                self.max_concurrent_per_peer == old(self).max_concurrent_per_peer,
                self.total_active_downloads == old(self).total_active_downloads,
                best is None <==> forall|j: int|
                    0 <= j < i ==> !eligible(
                        #[trigger] self.members()[j],
                        piece_idx as int,
                        self.max_concurrent_per_peer,
                        exclude_peer_ids@,
                    ),
                best matches Some(b) ==> {
                    &&& b < i
                    &&& eligible(
                        self.members()[b as int],
                        piece_idx as int,
                        self.max_concurrent_per_peer,
                        exclude_peer_ids@,
                    )
                    &&& forall|j: int|
                        0 <= j < i && eligible(
                            #[trigger] self.members()[j],
                            piece_idx as int,
                            self.max_concurrent_per_peer,
                            exclude_peer_ids@,
                        ) ==> self.members()[b as int].stats.active() <= self.members()[j].stats.active()
                            && (j < b ==> self.members()[b as int].stats.active()
                            < self.members()[j].stats.active())
                },
            decreases n - i,
        {
            let ok = self.peer_eligible(i, piece_idx, exclude_peer_ids);
            if ok {
                let load = self.peers[i].stats.get_load_score();
                match best {
                    None => {
                        best = Some(i);
                    },
                    Some(b) => {
                        if load < self.peers[b].stats.get_load_score() {
                            best = Some(i);
                        }
                    },
                }
            }
            i = i + 1;
        }
        match best {
            None => None,
            Some(b) => {
                let mut p = self.peers.remove(b);
                p.stats.increment_active();
                self.peers.insert(b, p);
                Some(b)
            },
        }
    }

    /// Peer `peer_idx` has finished a download: one download fewer in
    /// progress. Nothing changes when there is no such peer.
    pub fn release_peer(&mut self, peer_idx: usize)
        ensures
            final(self).max_per_peer() == old(self).max_per_peer(),
            final(self).total_active() == old(self).total_active(),
            released(old(self).members(), final(self).members(), peer_idx as int),
            old(self).wf() ==> final(self).wf(),
    {
        if peer_idx < self.peers.len() {
            let mut p = self.peers.remove(peer_idx);
            p.stats.decrement_active();
            self.peers.insert(peer_idx, p);
        }
    }

    /// Whether peer `i` may be given piece `piece_idx`.
    fn peer_eligible(&self, i: usize, piece_idx: usize, exclude_peer_ids: &[String]) -> (b: bool)
        requires
            i < self.members().len(),
        ensures
            b == eligible(
                self.members()[i as int],
                piece_idx as int,
                self.max_concurrent_per_peer,
                exclude_peer_ids@,
            ),
    {
        let peer = &self.peers[i];
        if !peer.has_piece(piece_idx) || !peer.can_accept_download(self.max_concurrent_per_peer) {
            return false;
        }
        match &peer.id {
            None => true,
            Some(id) => !contains_id(exclude_peer_ids, id),
        }
    }

    /// The pool's counter of downloads in progress, its number of peers and
    /// its limit per peer.
    pub fn get_pool_stats(&self) -> (r: (usize, usize, usize))
        ensures
            r == (self.total_active(), self.members().len() as usize, self.max_per_peer()),
    {
        (self.total_active_downloads, self.peers.len(), self.max_concurrent_per_peer)
    }

    /// Applies the outcome of the handshake with each peer, and counts the
    /// successful ones.
    pub fn record_handshakes(&mut self, outcomes: &[HandshakeOutcome]) -> (n: usize)
        requires
            outcomes@.len() == old(self).members().len(),
            forall|i: int| 0 <= i < outcomes@.len() ==> outcome_wf(#[trigger] outcomes@[i]),
        ensures
            n == count_ok(outcomes@, outcomes@.len() as int),
            n <= outcomes@.len(),
            final(self).members().len() == old(self).members().len(),
            forall|i: int|
                0 <= i < outcomes@.len() ==> applied(
                    old(self).members()[i],
                    outcomes@[i],
                    #[trigger] final(self).members()[i],
                ),
            final(self).max_per_peer() == old(self).max_per_peer(),
            final(self).total_active() == old(self).total_active(),
            old(self).wf() ==> final(self).wf(),
            forall|i: int|
                0 <= i < outcomes@.len() ==> (first_message_of(#[trigger] outcomes@[i]) matches Some(m)
                    ==> final(self).members()[i].is_connected && opt_message_view(
                    final(self).members()[i].bitfield,
                ) == Some(m@)),
            n == count_first_messages(outcomes@, outcomes@.len() as int),
    {
        proof {
            lemma_count_ok_counts_first_messages(outcomes@, outcomes@.len() as int);
        }
        let mut n: usize = 0;
        let mut i: usize = 0;
        while i < outcomes.len()
            invariant
                outcomes@.len() == old(self).members().len(),
                forall|k: int| 0 <= k < outcomes@.len() ==> outcome_wf(#[trigger] outcomes@[k]),
                i <= outcomes@.len(),
                self.members().len() == old(self).members().len(),
                n == count_ok(outcomes@, i as int),
                n <= i,
                forall|k: int|
                    0 <= k < i ==> applied(
                        old(self).members()[k],
                        outcomes@[k],
                        #[trigger] self.members()[k],
                    ),
                forall|k: int|
                    i <= k < self.members().len() ==> #[trigger] self.members()[k] == old(self).members()[k],
                self.max_concurrent_per_peer == old(self).max_concurrent_per_peer,
                self.total_active_downloads == old(self).total_active_downloads,
                old(self).wf() ==> self.wf(),
            decreases outcomes@.len() - i,
        {
            let mut p = self.peers.remove(i);
            let ghost before = p;
            let ok = apply_outcome(&mut p, &outcomes[i]);
            self.peers.insert(i, p);
            if ok {
                n = n + 1;
            }
            i = i + 1;
        }
        n
    }

    /// The number of peers.
    pub fn len(&self) -> (n: usize)
        ensures
            n == self.members().len(),
    {
        self.peers.len()
    }
}

/// Whether `id` is among `ids`.
fn contains_id(ids: &[String], id: &String) -> (b: bool)
    ensures
        b == id_listed(ids@, id@),
{
    let mut i: usize = 0;
    while i < ids.len()
        invariant
            i <= ids@.len(),
            forall|k: int| 0 <= k < i ==> (#[trigger] ids@[k])@ != id@,
        decreases ids@.len() - i,
    {
        if ids[i] == *id {
            return true;
        }
        i = i + 1;
    }
    false
}

/// Applies one outcome to a peer; `true` for a successful handshake.
fn apply_outcome(p: &mut Peer, o: &HandshakeOutcome) -> (ok: bool)
    requires
        outcome_wf(*o),
    ensures
        ok == handshake_ok(*o),
        applied(*old(p), *o, *final(p)),
        old(p).wf() ==> final(p).wf(),
{
    match o {
        HandshakeOutcome::TimedOut => false,
        HandshakeOutcome::Failed => {
            let _ = p.finish_handshake(None);
            false
        },
        HandshakeOutcome::Replied { reply, first_message } => {
            p.set_remote_id(reply.as_slice());
            let first = match first_message {
                Some(m) => Some(m.clone()),
                None => None,
            };
            p.finish_handshake(first).is_ok()
        },
    }
}

/// Once the peer picked for a piece has finished it, Ok or not, its load
/// is back to what it was before the pick, and every other peer is as it
/// was.
pub proof fn lemma_release_undoes_pick(
    before: Seq<Peer>,
    picked: Seq<Peer>,
    after: Seq<Peer>,
    piece_idx: int,
    max: usize,
    exclude: Seq<String>,
    i: usize,
)
    requires
        picked_best(before, picked, piece_idx, max, exclude, Some(i)),
        released(picked, after, i as int),
    ensures
        after.len() == before.len(),
        after[i as int].stats.active() == before[i as int].stats.active(),
        after[i as int].address == before[i as int].address,
        after[i as int].id == before[i as int].id,
        after[i as int].bitfield == before[i as int].bitfield,
        after[i as int].is_connected == before[i as int].is_connected,
        after[i as int].stats.completed() == before[i as int].stats.completed(),
        after[i as int].stats.failed() == before[i as int].stats.failed(),
        forall|j: int| 0 <= j < before.len() && j != i ==> #[trigger] after[j] == before[j],
{
}

/// The peer picked for a piece is connected, holds the piece and had room
/// for another download; it is charged that one download.
pub proof fn lemma_picked_peer_can_take_it(
    before: Seq<Peer>,
    after: Seq<Peer>,
    piece_idx: int,
    max: usize,
    exclude: Seq<String>,
    i: usize,
)
    requires
        picked_best(before, after, piece_idx, max, exclude, Some(i)),
    ensures
        (i as int) < before.len(),
        before[i as int].is_connected,
        after[i as int].is_connected,
        spec_has_piece(before[i as int].bitfield, piece_idx),
        before[i as int].stats.active() < max,
        after[i as int].stats.active() == before[i as int].stats.active() + 1,
{
}

} // verus!

//! The queue of piece requests: each request carries a priority and a
//! rarity, and the queue hands out the highest-ranked request first.

use vstd::prelude::*;
use std::cmp::Ordering;
use std::time::{Duration, Instant};
use crate::clock::{duration_nanos, elapsed_since, instant_now};
use crate::peer::Peer;
use crate::priority::{calc_priority_random, holders, rarity_scores, spec_rarity_score};

verus! {

/// How the priority of a piece is chosen. The weights of the hybrid
/// strategy live with its floating-point computation, outside this library.
#[derive(Debug, Clone, Copy, PartialEq, Eq, Structural)]
pub enum PiecePriorityStrategy {
    RarestFirst,
    Sequential,
    Random,
    Hybrid,
}

/// A request for one piece, with what ranks it in the queue and the
/// history of its attempts.
pub struct PieceRequest {
    pub piece_idx: usize,
    pub priority: u8,
    pub retry_count: usize,
    pub rarity_score: u8,
    pub last_attempt: Option<Instant>,
    pub last_peer_id: Option<String>,
}

/// Whether request `a` ranks no higher than request `b`: by priority, then
/// by rarity, then by piece index.
pub open spec fn ranks_at_most(a: PieceRequest, b: PieceRequest) -> bool {
    ||| a.priority < b.priority
    ||| a.priority == b.priority && a.rarity_score < b.rarity_score
    ||| a.priority == b.priority && a.rarity_score == b.rarity_score && a.piece_idx <= b.piece_idx
}

/// Whether two requests rank the same.
pub open spec fn ranks_same(a: PieceRequest, b: PieceRequest) -> bool {
    a.priority == b.priority && a.rarity_score == b.rarity_score && a.piece_idx == b.piece_idx
}

/// The priority that a strategy gives a piece: its rarity for
/// `RarestFirst`, the caller's computed value for `Sequential` and `Hybrid`;
/// for `Random` the priority is drawn at random.
pub open spec fn strategy_priority(
    strategy: PiecePriorityStrategy,
    rarity_score: u8,
    scaled_priority: u8,
) -> Option<u8> {
    match strategy {
        PiecePriorityStrategy::RarestFirst => Some(rarity_score),
        PiecePriorityStrategy::Sequential => Some(scaled_priority),
        PiecePriorityStrategy::Hybrid => Some(scaled_priority),
        PiecePriorityStrategy::Random => None,
    }
}

/// Whether a retry is due: fewer attempts than allowed, and either no
/// attempt yet or at least the minimum delay since the last one.
pub open spec fn spec_retry_due(
    retry_count: usize,
    max_retries: usize,
    elapsed_nanos: Option<u128>,
    min_delay_nanos: u128,
) -> bool {
    retry_count < max_retries && match elapsed_nanos {
        None => true,
        Some(e) => e >= min_delay_nanos,
    }
}

/// Whether a retry is due, given the time since the last attempt (`None`
/// when there was none) and the minimum delay, in nanoseconds.
pub fn retry_due(
    retry_count: usize,
    max_retries: usize,
    elapsed_nanos: Option<u128>,
    min_delay_nanos: u128,
) -> (b: bool)
    ensures
        b == spec_retry_due(retry_count, max_retries, elapsed_nanos, min_delay_nanos),
{
    retry_count < max_retries && match elapsed_nanos {
        None => true,
        Some(e) => e >= min_delay_nanos,
    }
}

impl PieceRequest {
    /// A first request for piece `piece_idx` with the given rarity; its
    /// priority follows the strategy, `scaled_priority` being the value the
    /// caller computed for the `Sequential` and `Hybrid` strategies.
    pub fn new(
        piece_idx: usize,
        rarity_score: u8,
        strategy: &PiecePriorityStrategy,
        scaled_priority: u8,
    ) -> (r: PieceRequest)
        ensures
            r.piece_idx == piece_idx,
            r.rarity_score == rarity_score,
            strategy_priority(*strategy, rarity_score, scaled_priority) matches Some(p) ==> r.priority
                == p,
            r.retry_count == 0,
            r.last_attempt is None,
            r.last_peer_id is None,
    {
        let priority = match strategy {
            PiecePriorityStrategy::RarestFirst => rarity_score,
            PiecePriorityStrategy::Sequential => scaled_priority,
            PiecePriorityStrategy::Random => calc_priority_random(),
            PiecePriorityStrategy::Hybrid => scaled_priority,
        };
        PieceRequest {
            piece_idx,
            priority,
            retry_count: 0,
            rarity_score,
            last_attempt: None,
            last_peer_id: None,
        }
    }

    /// Counts one more attempt.
    pub fn increment_retry(&mut self)
        requires
            old(self).retry_count < usize::MAX,
        ensures
            final(self).retry_count == old(self).retry_count + 1,
            final(self).piece_idx == old(self).piece_idx,
            final(self).priority == old(self).priority,
            final(self).rarity_score == old(self).rarity_score,
            final(self).last_attempt == old(self).last_attempt,
            final(self).last_peer_id == old(self).last_peer_id,
    {
        self.retry_count = self.retry_count + 1;
    }

    /// Whether the request may be tried again: fewer attempts than
    /// `max_retries`, and no attempt yet or at least `min_retry_delay` since
    /// the last one.
    pub fn should_retry(&self, max_retries: usize, min_retry_delay: Duration) -> (b: bool)
        ensures
            b ==> self.retry_count < max_retries,
            self.retry_count < max_retries && self.last_attempt is None ==> b,
    {
        if self.retry_count >= max_retries {
            return false;
        }
        let elapsed = match &self.last_attempt {
            Some(t) => Some(duration_nanos(elapsed_since(t))),
            None => None,
        };
        retry_due(self.retry_count, max_retries, elapsed, duration_nanos(min_retry_delay))
    }

    /// How this request ranks against `other`: by priority, then by rarity,
    /// then by piece index.
    pub fn compare(&self, other: &PieceRequest) -> (o: Ordering)
        ensures
            o == Ordering::Less <==> ranks_at_most(*self, *other) && !ranks_same(*self, *other),
            o == Ordering::Equal <==> ranks_same(*self, *other),
            o == Ordering::Greater <==> !ranks_at_most(*self, *other),
    {
        if self.priority != other.priority {
            if self.priority < other.priority {
                return Ordering::Less;
            } else {
                return Ordering::Greater;
            }
        }
        if self.rarity_score != other.rarity_score {
            if self.rarity_score < other.rarity_score {
                return Ordering::Less;
            } else {
                return Ordering::Greater;
            }
        }
        if self.piece_idx < other.piece_idx {
            Ordering::Less
        } else if self.piece_idx == other.piece_idx {
            Ordering::Equal
        } else {
            Ordering::Greater
        }
    }
}

/// Whether request `a` ranks strictly below request `b`.
fn ranks_below(a: &PieceRequest, b: &PieceRequest) -> (r: bool)
    ensures
        r == (ranks_at_most(*a, *b) && !ranks_same(*a, *b)),
{
    a.priority < b.priority || (a.priority == b.priority && (a.rarity_score < b.rarity_score || (
    a.rarity_score == b.rarity_score && a.piece_idx < b.piece_idx)))
}

/// The request as handed out: the same request with a new time of attempt.
pub open spec fn handed_out(before: PieceRequest, after: PieceRequest) -> bool {
    &&& after.piece_idx == before.piece_idx
    &&& after.priority == before.priority
    &&& after.retry_count == before.retry_count
    &&& after.rarity_score == before.rarity_score
    &&& after.last_attempt is Some
    &&& after.last_peer_id == before.last_peer_id
}

/// Whether `after` is `before` without one of its highest-ranked requests,
/// which was handed out as `req`.
pub open spec fn popped(before: Seq<PieceRequest>, after: Seq<PieceRequest>, req: PieceRequest) -> bool {
    exists|k: int|
        0 <= k < before.len() && after == before.remove(k) && handed_out(before[k], req) && forall|
            j: int,
        |
            0 <= j < before.len() ==> ranks_at_most(#[trigger] before[j], before[k])
}

/// The piece indices of a sequence of requests.
pub open spec fn piece_indices(q: Seq<PieceRequest>) -> Seq<usize> {
    q.map_values(|r: PieceRequest| r.piece_idx)
}

/// Whether popping `queues[0]` until it is empty handed out `rs`:
/// `queues[k + 1]` is the queue after the pop that handed out `rs[k]`.
pub open spec fn drained(queues: Seq<Seq<PieceRequest>>, rs: Seq<PieceRequest>) -> bool {
    &&& queues.len() == rs.len() + 1
    &&& forall|k: int| 0 <= k < rs.len() ==> popped(queues[k], queues[k + 1], #[trigger] rs[k])
    &&& queues.last().len() == 0
}

proof fn lemma_popped_shrinks(before: Seq<PieceRequest>, after: Seq<PieceRequest>, req: PieceRequest)
    requires
        popped(before, after, req),
    ensures
        after.len() + 1 == before.len(),
        forall|x: PieceRequest| after.contains(x) ==> before.contains(x),
        forall|x: PieceRequest| #[trigger] after.contains(x) ==> ranks_at_most(x, req),
        piece_indices(before).to_multiset() =~= piece_indices(after).to_multiset().insert(req.piece_idx),
{
    broadcast use vstd::seq_lib::group_to_multiset_ensures;
    let k = choose|k: int|
        0 <= k < before.len() && after == before.remove(k) && handed_out(before[k], req) && forall|
            j: int,
        |
            0 <= j < before.len() ==> ranks_at_most(#[trigger] before[j], before[k]);
    assert forall|x: PieceRequest| after.contains(x) implies before.contains(x) && ranks_at_most(x, req) by {
        let i = choose|i: int| 0 <= i < after.len() && after[i] == x;
        if i < k {
            assert(before[i] == x);
            assert(ranks_at_most(before[i], before[k]));
        } else {
            assert(before[i + 1] == x);
            assert(ranks_at_most(before[i + 1], before[k]));
        }
    }
    assert(piece_indices(after) =~= piece_indices(before).remove(k));
    let ms = piece_indices(before).to_multiset();
    assert(piece_indices(before)[k] == req.piece_idx);
    assert(ms.count(req.piece_idx) > 0);
    assert(ms.remove(req.piece_idx).insert(req.piece_idx) =~= ms);
}

proof fn lemma_drain_prefix(queues: Seq<Seq<PieceRequest>>, rs: Seq<PieceRequest>, k: int)
    requires
        drained(queues, rs),
        0 <= k <= rs.len(),
    ensures
        piece_indices(queues[0]).to_multiset() =~= piece_indices(rs.take(k)).to_multiset().add(
            piece_indices(queues[k]).to_multiset(),
        ),
        forall|i: int, x: PieceRequest| 0 <= i < k && #[trigger] queues[k].contains(x) ==> ranks_at_most(x, #[trigger] rs[i]),
    decreases k,
{
    broadcast use vstd::seq_lib::group_to_multiset_ensures;
    if k == 0 {
        assert(piece_indices(rs.take(0)) =~= Seq::<usize>::empty());
    } else {
        lemma_drain_prefix(queues, rs, k - 1);
        lemma_popped_shrinks(queues[k - 1], queues[k], rs[k - 1]);
        assert(piece_indices(rs.take(k)) =~= piece_indices(rs.take(k - 1)).push(rs[k - 1].piece_idx));
        assert(forall|i: int, x: PieceRequest| 0 <= i < k && #[trigger] queues[k].contains(x) ==> ranks_at_most(x, #[trigger] rs[i])) by {
            assert forall|i: int, x: PieceRequest| 0 <= i < k && #[trigger] queues[k].contains(x) implies ranks_at_most(x, #[trigger] rs[i]) by {
                if i < k - 1 {
                    assert(queues[k - 1].contains(x));
                }
            }
        }
    }
}

/// Popping a queue until it is empty hands out its requests in ranking
/// order, the highest first, and each of its pieces exactly as often as the
/// queue held it: the piece indices handed out are a permutation of those
/// of the queue.
pub proof fn lemma_drain_order_and_permutation(queues: Seq<Seq<PieceRequest>>, rs: Seq<PieceRequest>)
    requires
        drained(queues, rs),
    ensures
        forall|i: int, j: int| 0 <= i < j < rs.len() ==> ranks_at_most(#[trigger] rs[j], #[trigger] rs[i]),
        piece_indices(rs).to_multiset() == piece_indices(queues[0]).to_multiset(),
        rs.len() == queues[0].len(),
{
    broadcast use vstd::seq_lib::group_to_multiset_ensures;
    assert forall|i: int, j: int| 0 <= i < j < rs.len() implies ranks_at_most(#[trigger] rs[j], #[trigger] rs[i]) by {
        lemma_drain_prefix(queues, rs, j);
        let kj = choose|kk: int|
            0 <= kk < queues[j].len() && queues[j + 1] == queues[j].remove(kk) && handed_out(queues[j][kk], rs[j]) && forall|
                m: int,
            |
                0 <= m < queues[j].len() ==> ranks_at_most(#[trigger] queues[j][m], queues[j][kk]);
        assert(queues[j].contains(queues[j][kj]));
    }
    lemma_drain_prefix(queues, rs, rs.len() as int);
    assert(rs.take(rs.len() as int) =~= rs);
    assert(piece_indices(queues.last()).to_multiset() =~= vstd::multiset::Multiset::empty());
    assert(piece_indices(rs).to_multiset().len() == piece_indices(rs).len());
    assert(piece_indices(queues[0]).to_multiset().len() == piece_indices(queues[0]).len());
}

/// The queue of pending piece requests.
pub struct PieceRequestQueue {
    pub queue: Vec<PieceRequest>,
    pub strategy: PiecePriorityStrategy,
}

impl PieceRequestQueue {
    /// The requests in the queue, in no particular order.
    pub open spec fn requests(&self) -> Seq<PieceRequest> {
        self.queue@
    }

    /// A queue with one first request for each of the `total_pieces`
    /// pieces, ranked by the strategy and by each piece's rarity among the
    /// peers; `scaled_priorities` holds the caller's priorities for the
    /// `Sequential` and `Hybrid` strategies, one per piece.
    pub fn new(
        strategy: PiecePriorityStrategy,
        total_pieces: usize,
        peers: &[Peer],
        scaled_priorities: &[u8],
    ) -> (q: PieceRequestQueue)
        requires
            total_pieces > 0 ==> peers@.len() > 0,
            peers@.len() * 255 <= usize::MAX,
            scaled_priorities@.len() == total_pieces,
        ensures
            q.strategy == strategy,
            q.requests().len() == total_pieces,
            forall|i: int|
                0 <= i < total_pieces ==> {
                    let r = #[trigger] q.requests()[i];
                    &&& r.piece_idx == i
                    &&& r.rarity_score == spec_rarity_score(
                        holders(peers@, i, peers@.len() as int),
                        peers@.len() as nat,
                    )
                    &&& (strategy_priority(strategy, r.rarity_score, scaled_priorities@[i]) matches Some(
                        p,
                    ) ==> r.priority == p)
                    &&& r.retry_count == 0
                    &&& r.last_attempt is None
                    &&& r.last_peer_id is None
                },
    {
        let rarity = rarity_scores(total_pieces, peers);
        let mut queue: Vec<PieceRequest> = Vec::new();
        let mut i: usize = 0;
        while i < total_pieces
            invariant
                i <= total_pieces,
                rarity@.len() == total_pieces,
                scaled_priorities@.len() == total_pieces,
                forall|j: int|
                    0 <= j < total_pieces ==> #[trigger] rarity@[j] == spec_rarity_score(
                        holders(peers@, j, peers@.len() as int),
                        peers@.len() as nat,
                    ),
                queue@.len() == i,
                forall|j: int|
                    0 <= j < i ==> {
                        let r = #[trigger] queue@[j];
                        &&& r.piece_idx == j
                        &&& r.rarity_score == rarity@[j]
                        &&& (strategy_priority(strategy, r.rarity_score, scaled_priorities@[j]) matches Some(
                            p,
                        ) ==> r.priority == p)
                        &&& r.retry_count == 0
                        &&& r.last_attempt is None
                        &&& r.last_peer_id is None
                    },
            decreases total_pieces - i,
        {
            queue.push(PieceRequest::new(i, rarity[i], &strategy, scaled_priorities[i]));
            i = i + 1;
        }
        PieceRequestQueue { queue, strategy }
    }

    /// Takes the highest-ranked request out of the queue and stamps it with
    /// the time of this attempt; `None` when the queue is empty.
    pub fn pop_next_piece(&mut self) -> (r: Option<PieceRequest>)
        ensures
            final(self).strategy == old(self).strategy,
            old(self).requests().len() == 0 <==> r is None,
            r is None ==> final(self).requests() == old(self).requests(),
            r matches Some(req) ==> popped(old(self).requests(), final(self).requests(), req),
    {
        if self.queue.len() == 0 {
            return None;
        }
        let mut best: usize = 0;
        let mut i: usize = 1;
        while i < self.queue.len()
            invariant
                self.queue@ == old(self).queue@,
                1 <= i <= self.queue@.len(),
                best < i,
                forall|j: int|
                    0 <= j < i ==> ranks_at_most(#[trigger] self.queue@[j], self.queue@[best as int]),
            decreases self.queue@.len() - i,
        {
            if ranks_below(&self.queue[best], &self.queue[i]) {
                best = i;
            }
            i = i + 1;
        }
        let ghost k = best as int;
        let ghost before = self.queue@;
        let mut req = self.queue.remove(best);
        req.last_attempt = Some(instant_now());
        assert(handed_out(old(self).queue@[k], req));
        assert(self.queue@ == before.remove(k));
        assert(forall|j: int|
            0 <= j < before.len() ==> ranks_at_most(#[trigger] before[j], before[k]));
        assert(0 <= k < old(self).requests().len() && self.requests() == old(self).requests().remove(k)
            && handed_out(old(self).requests()[k], req) && forall|j: int|
            0 <= j < old(self).requests().len() ==> ranks_at_most(
                #[trigger] old(self).requests()[j],
                old(self).requests()[k],
            ));
        Some(req)
    }

    /// Puts a failed request back with one more attempt counted.
    pub fn requeue_failed_piece(&mut self, piece_req: PieceRequest)
        requires
            piece_req.retry_count < usize::MAX,
        ensures
            final(self).strategy == old(self).strategy,
            final(self).requests().len() == old(self).requests().len() + 1,
            final(self).requests().drop_last() == old(self).requests(),
            ({
                let r = final(self).requests().last();
                &&& r.retry_count == piece_req.retry_count + 1
                &&& r.piece_idx == piece_req.piece_idx
                &&& r.priority == piece_req.priority
                &&& r.rarity_score == piece_req.rarity_score
                &&& r.last_attempt == piece_req.last_attempt
                &&& r.last_peer_id == piece_req.last_peer_id
            }),
    {
        let mut piece_req = piece_req;
        piece_req.increment_retry();
        self.queue.push(piece_req);
        assert(self.queue@.drop_last() =~= old(self).queue@);
    }

    /// Whether no request is waiting.
    pub fn is_empty(&self) -> (b: bool)
        ensures
            b == (self.requests().len() == 0),
    {
        self.queue.len() == 0
    }

    /// The number of requests waiting.
    pub fn remaining_pieces_len(&self) -> (n: usize)
        ensures
            n == self.requests().len(),
    {
        self.queue.len()
    }
}

} // verus!

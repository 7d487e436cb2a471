//! The decisions of a download: which errors come from the network, how a
//! worker picks its next piece and what it does with the result, how many
//! workers to run, and the progress bar.

use vstd::prelude::*;
use vstd::string::StringExecFns;
use vstd::string::StringSliceAdditionalSpecFns;
use std::time::Duration;
use crate::peer::{opt_message_view, wrap_inc, Peer};
use crate::pool::{picked_best, released, PeerPool};
use crate::queue::{popped, PieceRequest, PieceRequestQueue};
use crate::text::{decimal_string, push_char, spec_decimal};
use crate::types::{after_completed, after_failed, with_status, DownloadState, PieceStatus};

verus! {

/// The attempts a piece is given before it is dropped.
pub const MAX_RETRIES: usize = 5;

/// The most workers a download runs at once.
pub const MAX_CONCURRENCY: usize = 8;

/// Whether `needle` occurs in `hay`.
pub open spec fn spec_contains(hay: Seq<u8>, needle: Seq<u8>) -> bool {
    exists|i: int|
        0 <= i && i + needle.len() <= hay.len() && #[trigger] hay.subrange(i, i + needle.len())
            == needle
}

/// Whether an error's text names a failure of the network or of the peer.
pub open spec fn spec_network_related(text: Seq<u8>) -> bool {
    ||| spec_contains(text, "Connection reset by peer".spec_bytes())
    ||| spec_contains(text, "Connection timed out".spec_bytes())
    ||| spec_contains(text, "Connection refused".spec_bytes())
    ||| spec_contains(text, "Broken pipe".spec_bytes())
    ||| spec_contains(text, "No route to host".spec_bytes())
    ||| spec_contains(text, "Network is unreachable".spec_bytes())
    ||| spec_contains(text, "Peer did not unchoke".spec_bytes())
}

/// Whether `needle` occurs in `hay`.
pub fn bytes_contain(hay: &[u8], needle: &[u8]) -> (b: bool)
    ensures
        b == spec_contains(hay@, needle@),
{
    let n = hay.len();
    let m = needle.len();
    if m > n {
        assert forall|i: int| 0 <= i && i + needle@.len() <= hay@.len() implies #[trigger] hay@.subrange(
            i,
            i + needle@.len(),
        ) != needle@ by {}
        return false;
    }
    if m == 0 {
        assert(hay@.subrange(0, 0 + needle@.len() as int) =~= needle@);
        return true;
    }
    let mut i: usize = 0;
    while i <= n - m
        invariant
            n == hay@.len(),
            m == needle@.len(),
            1 <= m <= n,
            i <= n - m + 1,
            forall|j: int| 0 <= j < i ==> #[trigger] hay@.subrange(j, j + m) != needle@,
        decreases n - m + 1 - i,
    {
        let mut k: usize = 0;
        while k < m && hay[i + k] == needle[k]
            invariant
                n == hay@.len(),
                m == needle@.len(),
                i + m <= n,
                k <= m,
                hay@.subrange(i as int, i + k) == needle@.subrange(0, k as int),
            decreases m - k,
        {
            assert(hay@.subrange(i as int, i + k + 1) =~= hay@.subrange(i as int, i + k).push(
                hay@[i + k],
            ));
            assert(needle@.subrange(0, k + 1) =~= needle@.subrange(0, k as int).push(
                needle@[k as int],
            ));
            k = k + 1;
        }
        if k == m {
            assert(needle@.subrange(0, m as int) =~= needle@);
            return true;
        }
        assert(hay@.subrange(i as int, i + m)[k as int] != needle@[k as int]);
        i = i + 1;
    }
    false
}

/// Whether an error's text names a failure of the network or of the peer.
pub fn is_network_related_error(message: &str) -> (b: bool)
    ensures
        b == spec_network_related(message.spec_bytes()),
{
    let text = message.as_bytes();
    bytes_contain(text, "Connection reset by peer".as_bytes()) || bytes_contain(
        text,
        "Connection timed out".as_bytes(),
    ) || bytes_contain(text, "Connection refused".as_bytes()) || bytes_contain(
        text,
        "Broken pipe".as_bytes(),
    ) || bytes_contain(text, "No route to host".as_bytes()) || bytes_contain(
        text,
        "Network is unreachable".as_bytes(),
    ) || bytes_contain(text, "Peer did not unchoke".as_bytes())
}

/// `n` copies of a character.
pub open spec fn repeat_char(c: char, n: nat) -> Seq<char> {
    Seq::new(n, |i: int| c)
}

/// The widths of the segments of the bar: completed, in progress, failed
/// and pending pieces, each in proportion to the total.
pub open spec fn bar_widths(completed: usize, in_progress: usize, failed: usize, total: usize, width: usize) -> (int, int, int, int) {
    let c = (completed * width) / (total as int);
    let p = (in_progress * width) / (total as int);
    let f = (failed * width) / (total as int);
    (c, p, f, width - c - p - f)
}

/// The progress bar: between brackets, a full block for each completed
/// share, a medium shade for each share in progress, a light shade for each
/// failed share and a space for each pending share; only spaces when there
/// are no pieces.
pub open spec fn spec_progress_bar(
    completed: usize,
    in_progress: usize,
    failed: usize,
    total: usize,
    width: usize,
) -> Seq<char> {
    if total == 0 {
        seq!['['] + repeat_char(' ', width as nat) + seq![']']
    } else {
        let w = bar_widths(completed, in_progress, failed, total, width);
        seq!['['] + repeat_char('\u{2588}', w.0 as nat) + repeat_char('\u{2592}', w.1 as nat)
            + repeat_char('\u{2591}', w.2 as nat) + repeat_char(' ', w.3 as nat) + seq![']']
    }
}

/// The inputs on which the bar can be drawn: the products fit in `usize`
/// and the segments fit in the width.
pub open spec fn bar_drawable(
    completed: usize,
    in_progress: usize,
    failed: usize,
    total: usize,
    width: usize,
) -> bool {
    total != 0 ==> {
        &&& completed * width <= usize::MAX
        &&& in_progress * width <= usize::MAX
        &&& failed * width <= usize::MAX
        &&& width + 2 <= usize::MAX
        &&& {
            let w = bar_widths(completed, in_progress, failed, total, width);
            w.0 + w.1 + w.2 <= width
        }
    }
}

/// The number of times `c` occurs in `s`.
pub open spec fn count_char(s: Seq<char>, c: char) -> nat
    decreases s.len(),
{
    if s.len() == 0 {
        0
    } else {
        count_char(s.drop_last(), c) + if s.last() == c {
            1nat
        } else {
            0nat
        }
    }
}

proof fn lemma_count_char_concat(a: Seq<char>, b: Seq<char>, c: char)
    ensures
        count_char(a + b, c) == count_char(a, c) + count_char(b, c),
    decreases b.len(),
{
    if b.len() == 0 {
        assert(a + b =~= a);
    } else {
        lemma_count_char_concat(a, b.drop_last(), c);
        assert((a + b).drop_last() =~= a + b.drop_last());
    }
}

proof fn lemma_count_char_repeat(x: char, n: nat, c: char)
    ensures
        count_char(repeat_char(x, n), c) == if x == c {
            n
        } else {
            0
        },
    decreases n,
{
    if n > 0 {
        lemma_count_char_repeat(x, (n - 1) as nat, c);
        assert(repeat_char(x, n).drop_last() =~= repeat_char(x, (n - 1) as nat));
    }
}

proof fn lemma_count_char_single(x: char, c: char)
    ensures
        count_char(seq![x], c) == if x == c {
            1nat
        } else {
            0nat
        },
{
    assert(seq![x].drop_last() =~= Seq::<char>::empty());
    reveal_with_fuel(count_char, 2);
}

/// The bar is the width plus two brackets long; it holds one full block per
/// share of completed pieces, one medium shade per share in progress and one
/// light shade per failed share, each share being the count times the width
/// divided by the total (rounded down), and spaces for the rest; with no
/// pieces it holds only spaces.
pub proof fn lemma_progress_bar_shares(
    completed: usize,
    in_progress: usize,
    failed: usize,
    total: usize,
    width: usize,
)
    requires
        bar_drawable(completed, in_progress, failed, total, width),
    ensures
        ({
            let bar = spec_progress_bar(completed, in_progress, failed, total, width);
            &&& bar.len() == width + 2
            &&& bar[0] == '['
            &&& bar[width + 1] == ']'
            &&& total != 0 ==> {
                &&& count_char(bar, '\u{2588}') == (completed * width) / (total as int)
                &&& count_char(bar, '\u{2592}') == (in_progress * width) / (total as int)
                &&& count_char(bar, '\u{2591}') == (failed * width) / (total as int)
                &&& count_char(bar, ' ') == width - (completed * width) / (total as int) - (
                in_progress * width) / (total as int) - (failed * width) / (total as int)
            }
            &&& total == 0 ==> count_char(bar, ' ') == width
        }),
{
    let bar = spec_progress_bar(completed, in_progress, failed, total, width);
    if total == 0 {
        let mid = repeat_char(' ', width as nat);
        lemma_count_char_concat(seq!['['], mid, ' ');
        lemma_count_char_concat(seq!['['] + mid, seq![']'], ' ');
        lemma_count_char_repeat(' ', width as nat, ' ');
        lemma_count_char_single('[', ' ');
        lemma_count_char_single(']', ' ');
    } else {
        let w = bar_widths(completed, in_progress, failed, total, width);
        assert(w.0 >= 0 && w.1 >= 0 && w.2 >= 0) by (nonlinear_arith)
            requires
                w.0 == (completed * width) / (total as int),
                w.1 == (in_progress * width) / (total as int),
                w.2 == (failed * width) / (total as int),
                total > 0,
        ;
        let s0 = seq!['['];
        let s1 = repeat_char('\u{2588}', w.0 as nat);
        let s2 = repeat_char('\u{2592}', w.1 as nat);
        let s3 = repeat_char('\u{2591}', w.2 as nat);
        let s4 = repeat_char(' ', w.3 as nat);
        let s5 = seq![']'];
        assert forall|c: char| #[trigger] count_char(bar, c) == count_char(s0, c) + count_char(s1, c)
            + count_char(s2, c) + count_char(s3, c) + count_char(s4, c) + count_char(s5, c) by {
            lemma_count_char_concat(s0, s1, c);
            lemma_count_char_concat(s0 + s1, s2, c);
            lemma_count_char_concat(s0 + s1 + s2, s3, c);
            lemma_count_char_concat(s0 + s1 + s2 + s3, s4, c);
            lemma_count_char_concat(s0 + s1 + s2 + s3 + s4, s5, c);
        }
        assert forall|c: char| #[trigger] count_char(s1, c) == (if c == '\u{2588}' { w.0 } else { 0 })
            && count_char(s2, c) == (if c == '\u{2592}' { w.1 } else { 0 })
            && count_char(s3, c) == (if c == '\u{2591}' { w.2 } else { 0 })
            && count_char(s4, c) == (if c == ' ' { w.3 } else { 0 })
            && count_char(s0, c) == (if c == '[' { 1int } else { 0 })
            && count_char(s5, c) == (if c == ']' { 1int } else { 0 }) by {
            lemma_count_char_single('[', c);
            lemma_count_char_single(']', c);
            lemma_count_char_repeat('\u{2588}', w.0 as nat, c);
            lemma_count_char_repeat('\u{2592}', w.1 as nat, c);
            lemma_count_char_repeat('\u{2591}', w.2 as nat, c);
            lemma_count_char_repeat(' ', w.3 as nat, c);
        }
        assert(count_char(bar, '\u{2588}') == w.0);
        assert(count_char(bar, '\u{2592}') == w.1);
        assert(count_char(bar, '\u{2591}') == w.2);
        assert(count_char(bar, ' ') == w.3);
    }
}

/// Appends `n` copies of a character.
fn push_repeat(out: &mut String, c: char, n: usize)
    ensures
        final(out)@ == old(out)@ + repeat_char(c, n as nat),
{
    let mut i: usize = 0;
    while i < n
        invariant
            i <= n,
            out@ == old(out)@ + repeat_char(c, i as nat),
        decreases n - i,
    {
        push_char(out, c);
        i = i + 1;
        assert(out@ =~= old(out)@ + repeat_char(c, i as nat));
    }
}

/// Draws the progress bar.
pub fn create_visual_progress_bar(
    completed: usize,
    in_progress: usize,
    failed: usize,
    total: usize,
    bar_width: usize,
) -> (bar: String)
    requires
        bar_drawable(completed, in_progress, failed, total, bar_width),
    ensures
        bar@ == spec_progress_bar(completed, in_progress, failed, total, bar_width),
        bar@.len() == bar_width + 2,
        total != 0 ==> count_char(bar@, '\u{2588}') == (completed * bar_width) / (total as int),
        total != 0 ==> count_char(bar@, '\u{2592}') == (in_progress * bar_width) / (total as int),
        total != 0 ==> count_char(bar@, '\u{2591}') == (failed * bar_width) / (total as int),
{
    proof {
        lemma_progress_bar_shares(completed, in_progress, failed, total, bar_width);
    }
    let mut bar = String::new();
    if total == 0 {
        push_char(&mut bar, '[');
        push_repeat(&mut bar, ' ', bar_width);
        push_char(&mut bar, ']');
        assert(bar@ =~= spec_progress_bar(completed, in_progress, failed, total, bar_width));
        return bar;
    }
    let completed_width = (completed * bar_width) / total;
    let in_progress_width = (in_progress * bar_width) / total;
    let failed_width = (failed * bar_width) / total;
    let pending_width = bar_width - completed_width - in_progress_width - failed_width;
    push_char(&mut bar, '[');
    push_repeat(&mut bar, '\u{2588}', completed_width);
    push_repeat(&mut bar, '\u{2592}', in_progress_width);
    push_repeat(&mut bar, '\u{2591}', failed_width);
    push_repeat(&mut bar, ' ', pending_width);
    push_char(&mut bar, ']');
    assert(bar@ =~= spec_progress_bar(completed, in_progress, failed, total, bar_width));
    bar
}

/// The number of workers: the peers connected, but at least half the
/// concurrency limit, and at most `max_concurrent_workers`.
pub fn worker_count(max_concurrent_workers: usize, connected: usize) -> (n: usize)
    ensures
        n == if max_concurrent_workers <= (if connected >= MAX_CONCURRENCY / 2 {
            connected
        } else {
            MAX_CONCURRENCY / 2
        }) {
            max_concurrent_workers
        } else {
            if connected >= MAX_CONCURRENCY / 2 {
                connected
            } else {
                MAX_CONCURRENCY / 2
            }
        },
{
    let floor = if connected >= MAX_CONCURRENCY / 2 {
        connected
    } else {
        MAX_CONCURRENCY / 2
    };
    if max_concurrent_workers <= floor {
        max_concurrent_workers
    } else {
        floor
    }
}

/// The label of worker `worker_id`.
pub open spec fn worker_label(worker_id: usize) -> Seq<char> {
    "worker-"@ + spec_decimal(worker_id as nat)
}

/// What a worker does next.
pub enum WorkerStep {
    /// Every piece is complete: the worker stops.
    Finished,
    /// No request is waiting: the worker waits a little and looks again.
    Idle,
    /// No peer can serve the request: it goes back to the queue later.
    NoPeer(PieceRequest),
    /// Fetch the requested piece from the chosen peer, through this copy of
    /// it.
    Download { request: PieceRequest, peer_idx: usize, peer: Peer },
}

/// Whether every request in the queue names a piece of the download.
pub open spec fn requests_in_range(q: Seq<PieceRequest>, total: usize) -> bool {
    forall|i: int| 0 <= i < q.len() ==> (#[trigger] q[i]).piece_idx < total
}

/// The peers to avoid for a request: the one it last failed with.
pub open spec fn exclusions(req: PieceRequest) -> Seq<String> {
    match req.last_peer_id {
        Some(id) => seq![id],
        None => Seq::empty(),
    }
}

/// Decides a worker's next step: stop when the download is complete, wait
/// when no request is waiting, otherwise take the highest-ranked request
/// and the least-loaded peer that can serve it; with a peer, the piece is
/// marked in progress with that peer and this worker.
pub fn plan_next(
    state: &mut DownloadState,
    queue: &mut PieceRequestQueue,
    pool: &mut PeerPool,
    worker_id: usize,
) -> (step: WorkerStep)
    requires
        old(state).wf(),
        old(pool).wf(),
        requests_in_range(old(queue).requests(), old(state)@.total_pieces),
    ensures
        final(state).wf(),
        final(pool).wf(),
        requests_in_range(final(queue).requests(), final(state)@.total_pieces),
        final(state)@.total_pieces == old(state)@.total_pieces,
        final(queue).strategy == old(queue).strategy,
        (old(state)@.completed == old(state)@.total_pieces) <==> step is Finished,
        step is Finished || step is Idle ==> final(queue).requests() == old(queue).requests()
            && final(pool).members() == old(pool).members() && final(state)@ == old(state)@,
        step is Idle ==> old(queue).requests().len() == 0,
        step matches WorkerStep::NoPeer(req) ==> {
            &&& popped(old(queue).requests(), final(queue).requests(), req)
            &&& picked_best(
                old(pool).members(),
                final(pool).members(),
                req.piece_idx as int,
                old(pool).max_per_peer(),
                exclusions(req),
                None,
            )
            &&& final(state)@ == old(state)@
        },
        step matches WorkerStep::Download { request, peer_idx, peer } ==> {
            &&& popped(old(queue).requests(), final(queue).requests(), request)
            &&& picked_best(
                old(pool).members(),
                final(pool).members(),
                request.piece_idx as int,
                old(pool).max_per_peer(),
                exclusions(request),
                Some(peer_idx),
            )
            &&& peer.address == final(pool).members()[peer_idx as int].address
            &&& peer.id == final(pool).members()[peer_idx as int].id
            &&& peer.is_connected
            &&& peer.is_connected == final(pool).members()[peer_idx as int].is_connected
            &&& peer.stats == final(pool).members()[peer_idx as int].stats
            &&& opt_message_view(peer.bitfield) == opt_message_view(
                final(pool).members()[peer_idx as int].bitfield,
            )
            &&& peer.id matches Some(id) && final(state)@.statuses[request.piece_idx as int] matches PieceStatus::InProgress {
                peer_id: p,
                worker_id: w,
                ..
            } && p@ == id@ && w@ == worker_label(worker_id)
            &&& final(state)@ == with_status(
                old(state)@,
                request.piece_idx as int,
                final(state)@.statuses[request.piece_idx as int],
            )
        },
{
    if state.is_complete() {
        return WorkerStep::Finished;
    }
    let request = match queue.pop_next_piece() {
        Some(r) => r,
        None => {
            return WorkerStep::Idle;
        },
    };
    assert(requests_in_range(queue.requests(), state@.total_pieces));
    let mut except: Vec<String> = Vec::new();
    match &request.last_peer_id {
        Some(id) => except.push(id.clone()),
        None => {},
    }
    assert(except@ =~= exclusions(request));
    let found = pool.find_best_peer_for_piece(request.piece_idx, except.as_slice());
    let peer_idx = match found {
        Some(i) => i,
        None => {
            return WorkerStep::NoPeer(request);
        },
    };
    let peer = match pool.get_peer_by_index(peer_idx) {
        Some(p) => p,
        None => {
            return WorkerStep::NoPeer(request);
        },
    };
    let peer_id = match &peer.id {
        Some(id) => id.clone(),
        None => {
            return WorkerStep::NoPeer(request);
        },
    };
    let mut label = String::new();
    label.append("worker-");
    let digits = decimal_string(worker_id as u64);
    label.append(digits.as_str());
    assert(request.piece_idx < state@.total_pieces);
    state.mark_piece_in_progress(request.piece_idx, peer_id.as_str(), label);
    WorkerStep::Download { request, peer_idx, peer }
}

/// Records the result of fetching a piece from pooled peer `peer_idx`,
/// through the worker's copy `peer`: the pooled peer has one download fewer
/// in progress either way; a success marks the piece completed; a failure
/// marks it failed, marks the worker's copy of the peer disconnected when
/// the error comes from the network, and hands the request back when it may
/// be retried.
pub fn finish_piece(
    state: &mut DownloadState,
    pool: &mut PeerPool,
    peer_idx: usize,
    peer: &mut Peer,
    request: PieceRequest,
    outcome: Result<(), String>,
    min_retry_delay: Duration,
) -> (retry: Option<PieceRequest>)
    requires
        old(state).wf(),
        request.piece_idx < old(state)@.total_pieces,
        !(old(state)@.statuses[request.piece_idx as int] matches PieceStatus::Failed {
            retry_count,
            ..
        } && retry_count == usize::MAX),
    ensures
        final(state).wf(),
        released(old(pool).members(), final(pool).members(), peer_idx as int),
        final(pool).max_per_peer() == old(pool).max_per_peer(),
        final(pool).total_active() == old(pool).total_active(),
        old(pool).wf() ==> final(pool).wf(),
        outcome is Ok ==> final(state)@ == after_completed(old(state)@, request.piece_idx as int)
            && retry is None && *final(peer) == *old(peer),
        outcome matches Err(e) ==> {
            &&& final(state)@ == after_failed(old(state)@, request.piece_idx as int, e)
            &&& spec_network_related(vstd::utf8::encode_utf8(e@)) ==> !final(peer).is_connected
                && final(peer).stats.connection_failures() == wrap_inc(
                old(peer).stats.connection_failures(),
            ) && final(peer).id == old(peer).id
            &&& !spec_network_related(vstd::utf8::encode_utf8(e@)) ==> *final(peer) == *old(peer)
            &&& retry matches Some(r) ==> r == request && r.retry_count < MAX_RETRIES
            &&& request.retry_count < MAX_RETRIES && request.last_attempt is None ==> retry
                == Some(request)
        },
{
    pool.release_peer(peer_idx);
    match outcome {
        Ok(()) => {
            state.mark_piece_completed(request.piece_idx);
            None
        },
        Err(e) => {
            let network = is_network_related_error(e.as_str());
            if network {
                peer.mark_disconnected();
            }
            state.mark_piece_failed(request.piece_idx, e);
            if request.should_retry(MAX_RETRIES, min_retry_delay) {
                Some(request)
            } else {
                None
            }
        },
    }
}

} // verus!

use std::cmp::Ordering;
use std::time::Duration;
use torrentstream::download::{
    create_visual_progress_bar, finish_piece, is_network_related_error, plan_next, worker_count,
    WorkerStep,
};
use torrentstream::peer::Peer;
use torrentstream::pool::PeerPool;
use torrentstream::priority::{piece_frequency, rarity_score, rarity_scores};
use torrentstream::queue::{retry_due, PiecePriorityStrategy, PieceRequest, PieceRequestQueue};
use torrentstream::types::{DownloadState, Message, MessageTypes, PieceStatus};

fn connected_peer(id_byte: u8, field: &[u8]) -> Peer {
    let mut p = Peer::new(&[10, 0, 0, id_byte, 0x1a, 0xe1]);
    let mut reply = vec![0u8; 48];
    reply.extend(std::iter::repeat(id_byte).take(20));
    p.set_remote_id(&reply);
    p.finish_handshake(Some(Message::new(MessageTypes::Bitfield, field))).unwrap();
    p
}

#[test]
fn rarity_scale() {
    assert_eq!(rarity_score(0, 3), 255);
    assert_eq!(rarity_score(3, 3), 0);
    assert_eq!(rarity_score(1, 4), 192);
}

#[test]
fn rarity_among_peers() {
    let peers = vec![connected_peer(1, &[0x80, 0x40]), connected_peer(2, &[0x00, 0x40])];
    assert_eq!(piece_frequency(&peers, 0), 1);
    assert_eq!(piece_frequency(&peers, 9), 2);
    assert_eq!(piece_frequency(&peers, 8), 0);
    assert_eq!(piece_frequency(&peers, 16), 0);
    let r = rarity_scores(10, &peers);
    assert_eq!(r.len(), 10);
    assert_eq!(r[0], 128);
    assert_eq!(r[8], 255);
    assert_eq!(r[9], 0);
}

#[test]
fn queue_hands_out_highest_priority_first() {
    let peers = vec![connected_peer(1, &[0xff])];
    let mut q = PieceRequestQueue::new(PiecePriorityStrategy::Sequential, 3, &peers, &[10, 30, 20]);
    assert_eq!(q.remaining_pieces_len(), 3);
    let first = q.pop_next_piece().unwrap();
    assert_eq!(first.piece_idx, 1);
    assert!(first.last_attempt.is_some());
    assert_eq!(q.pop_next_piece().unwrap().piece_idx, 2);
    let last = q.pop_next_piece().unwrap();
    assert_eq!(last.piece_idx, 0);
    assert!(q.is_empty());
    assert!(q.pop_next_piece().is_none());
    q.requeue_failed_piece(last);
    assert_eq!(q.remaining_pieces_len(), 1);
    assert_eq!(q.pop_next_piece().unwrap().retry_count, 1);
}

#[test]
fn rarest_first_uses_rarity_as_priority() {
    let r = PieceRequest::new(4, 77, &PiecePriorityStrategy::RarestFirst, 3);
    assert_eq!(r.priority, 77);
    assert_eq!(r.rarity_score, 77);
    assert_eq!(r.retry_count, 0);
    let r = PieceRequest::new(4, 77, &PiecePriorityStrategy::Hybrid, 3);
    assert_eq!(r.priority, 3);
    let r = PieceRequest::new(4, 77, &PiecePriorityStrategy::Random, 3);
    assert_eq!(r.piece_idx, 4);
}

#[test]
fn requests_rank_by_priority_rarity_index() {
    let a = PieceRequest::new(1, 5, &PiecePriorityStrategy::Sequential, 9);
    let b = PieceRequest::new(2, 4, &PiecePriorityStrategy::Sequential, 9);
    let c = PieceRequest::new(0, 4, &PiecePriorityStrategy::Sequential, 10);
    assert_eq!(a.compare(&b), Ordering::Greater);
    assert_eq!(b.compare(&a), Ordering::Less);
    assert_eq!(a.compare(&c), Ordering::Less);
    assert_eq!(a.compare(&a), Ordering::Equal);
}

#[test]
fn retry_rules() {
    let mut r = PieceRequest::new(0, 0, &PiecePriorityStrategy::RarestFirst, 0);
    assert!(r.should_retry(5, Duration::from_secs(1)));
    for _ in 0..5 {
        r.increment_retry();
    }
    assert_eq!(r.retry_count, 5);
    assert!(!r.should_retry(5, Duration::from_secs(0)));
    assert!(retry_due(0, 1, None, 10));
    assert!(!retry_due(0, 1, Some(9), 10));
    assert!(retry_due(0, 1, Some(10), 10));
    assert!(!retry_due(1, 1, None, 0));
}

#[test]
fn network_errors_are_recognised() {
    assert!(is_network_related_error("io error: Connection refused (os error 111)"));
    assert!(is_network_related_error("Broken pipe"));
    assert!(is_network_related_error("Peer did not unchoke"));
    assert!(!is_network_related_error("Piece hash mismatch"));
    assert!(!is_network_related_error(""));
}

#[test]
fn progress_bar_shares() {
    let bar = create_visual_progress_bar(1, 1, 0, 4, 8);
    assert_eq!(bar, "[\u{2588}\u{2588}\u{2592}\u{2592}    ]");
    assert_eq!(create_visual_progress_bar(0, 0, 0, 0, 3), "[   ]");
    assert_eq!(
        create_visual_progress_bar(1, 1, 1, 3, 3),
        "[\u{2588}\u{2592}\u{2591}]"
    );
}

#[test]
fn number_of_workers() {
    assert_eq!(worker_count(10, 2), 4);
    assert_eq!(worker_count(10, 6), 6);
    assert_eq!(worker_count(3, 6), 3);
}

#[test]
fn worker_cycle() {
    let mut state = DownloadState::new(2, 8);
    let peers = vec![connected_peer(1, &[0xff])];
    let mut queue = PieceRequestQueue::new(PiecePriorityStrategy::Sequential, 2, &peers, &[1, 2]);
    let mut pool = PeerPool::new(peers, 1);
    let step = plan_next(&mut state, &mut queue, &mut pool, 3);
    let (request, peer_idx, mut peer) = match step {
        WorkerStep::Download { request, peer_idx, peer } => (request, peer_idx, peer),
        _ => panic!("expected a download"),
    };
    assert_eq!(request.piece_idx, 1);
    assert_eq!(peer_idx, 0);
    match state.get_piece_status(1) {
        PieceStatus::InProgress { peer_id, worker_id, .. } => {
            assert_eq!(peer_id, "01".repeat(20));
            assert_eq!(worker_id, "worker-3");
        }
        _ => panic!("piece should be in progress"),
    }
    assert_eq!(pool.peers[0].stats.get_load_score(), 1);
    let retry = finish_piece(&mut state, &mut pool, peer_idx, &mut peer, request, Ok(()), Duration::from_secs(1));
    assert!(retry.is_none());
    assert_eq!(pool.peers[0].stats.get_load_score(), 0);
    assert_eq!(state.get_progress_snapshot().completed_pieces, 1);
    assert!(!state.is_complete());

    // With one download allowed per peer, the released peer serves the next piece.
    let (request, peer_idx, mut peer) = match plan_next(&mut state, &mut queue, &mut pool, 3) {
        WorkerStep::Download { request, peer_idx, peer } => (request, peer_idx, peer),
        _ => panic!("expected a second download"),
    };
    assert_eq!(request.piece_idx, 0);
    assert_eq!(pool.peers[0].stats.get_load_score(), 1);
    let retry = finish_piece(&mut state, &mut pool, peer_idx, &mut peer, request, Ok(()), Duration::from_secs(1));
    assert!(retry.is_none());
    assert_eq!(pool.peers[0].stats.get_load_score(), 0);
    assert_eq!(state.get_progress_snapshot().completed_pieces, 2);
    assert!(state.is_complete());
    assert!(matches!(plan_next(&mut state, &mut queue, &mut pool, 3), WorkerStep::Finished));
}

#[test]
fn worker_without_peer_and_idle() {
    let mut state = DownloadState::new(4, 8);
    let peers = vec![connected_peer(1, &[0x00])];
    let mut queue = PieceRequestQueue::new(PiecePriorityStrategy::Sequential, 1, &peers, &[1]);
    let mut pool = PeerPool::new(peers, 2);
    let step = plan_next(&mut state, &mut queue, &mut pool, 0);
    let request = match step {
        WorkerStep::NoPeer(r) => r,
        _ => panic!("no peer holds the piece"),
    };
    assert_eq!(request.piece_idx, 0);
    assert_eq!(pool.peers[0].stats.get_load_score(), 0);
    assert!(matches!(plan_next(&mut state, &mut queue, &mut pool, 0), WorkerStep::Idle));
}

#[test]
fn worker_failure_releases_peer() {
    let mut state = DownloadState::new(2, 8);
    let peers = vec![connected_peer(1, &[0xff])];
    let mut queue = PieceRequestQueue::new(PiecePriorityStrategy::Sequential, 2, &peers, &[2, 1]);
    let mut pool = PeerPool::new(peers, 1);
    let (request, peer_idx, mut peer) = match plan_next(&mut state, &mut queue, &mut pool, 0) {
        WorkerStep::Download { request, peer_idx, peer } => (request, peer_idx, peer),
        _ => panic!("expected a download"),
    };
    assert_eq!(request.piece_idx, 0);
    let retry = finish_piece(
        &mut state,
        &mut pool,
        peer_idx,
        &mut peer,
        request,
        Err("Connection reset by peer".to_string()),
        Duration::from_secs(0),
    );
    assert!(!peer.is_connected());
    assert!(pool.peers[0].is_connected());
    assert_eq!(pool.peers[0].stats.get_load_score(), 0);
    assert_eq!(retry.unwrap().piece_idx, 0);
    assert_eq!(state.get_progress_snapshot().failed_pieces, 1);
    assert_eq!(state.get_progress_snapshot().in_progress_pieces, 0);

    let (request, peer_idx, mut peer) = match plan_next(&mut state, &mut queue, &mut pool, 0) {
        WorkerStep::Download { request, peer_idx, peer } => (request, peer_idx, peer),
        _ => panic!("the released peer should serve the next piece"),
    };
    assert_eq!(request.piece_idx, 1);
    let retry = finish_piece(&mut state, &mut pool, peer_idx, &mut peer, request, Err("hash".to_string()), Duration::from_secs(0));
    assert!(peer.is_connected());
    assert!(retry.is_some());
    assert_eq!(pool.peers[0].stats.get_load_score(), 0);
    assert_eq!(state.get_progress_snapshot().failed_pieces, 2);
}

#[test]
fn fresh_failed_request_is_retried() {
    let mut state = DownloadState::new(2, 8);
    let mut pool = PeerPool::new(vec![connected_peer(1, &[0xff])], 1);
    let mut peer = connected_peer(1, &[0xff]);
    let r = PieceRequest::new(1, 0, &PiecePriorityStrategy::RarestFirst, 0);
    let retry = finish_piece(&mut state, &mut pool, 7, &mut peer, r, Err("hash".to_string()), Duration::from_secs(3600));
    assert_eq!(retry.unwrap().piece_idx, 1);
    assert_eq!(pool.peers[0].stats.get_load_score(), 0);
    assert!(matches!(state.get_piece_status(1), PieceStatus::Failed { retry_count: 1, .. }));
}

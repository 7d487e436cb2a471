use torrentstream::peer::{PieceDownload, BLOCK_SIZE};
use torrentstream::types::{
    DownloadState, HashList, Info, Message, MessageTypes, PieceStatus, Torrent,
};
use torrentstream::utils::{calc_piece_offset, calc_total_pieces, get_piece_size, verify_piece_hash};

fn torrent(length: u64, piece_length: u64, pieces: Vec<[u8; 20]>) -> Torrent {
    Torrent {
        announce: "http://tracker/announce".to_string(),
        created_by: String::new(),
        info: Info { length, name: "file".to_string(), piece_length, pieces: HashList(pieces) },
    }
}

#[test]
fn piece_offsets() {
    assert_eq!(calc_piece_offset(0, 4), 0);
    assert_eq!(calc_piece_offset(3, 16384), 49152);
}

#[test]
fn pieces_of_an_uneven_file() {
    let t = torrent(10, 4, vec![]);
    assert_eq!(calc_total_pieces(&t), 3);
    assert_eq!(get_piece_size(&t, 0), 4);
    assert_eq!(get_piece_size(&t, 1), 4);
    assert_eq!(get_piece_size(&t, 2), 2);
}

#[test]
fn pieces_of_an_even_file() {
    let t = torrent(8, 4, vec![]);
    assert_eq!(calc_total_pieces(&t), 2);
    assert_eq!(get_piece_size(&t, 1), 4);
}

#[test]
fn pieces_cover_the_file() {
    let t = torrent(100_003, 16384, vec![]);
    let n = calc_total_pieces(&t);
    let mut end = 0u64;
    for i in 0..n {
        assert_eq!(calc_piece_offset(i, 16384), end);
        end += get_piece_size(&t, i);
    }
    assert_eq!(end, 100_003);
}

#[test]
fn sha1_hash_check() {
    assert!(verify_piece_hash(b"abc", "a9993e364706816aba3e25717850c26c9cd0d89d"));
    assert!(!verify_piece_hash(b"abd", "a9993e364706816aba3e25717850c26c9cd0d89d"));
    assert!(!verify_piece_hash(b"abc", "A9993E364706816ABA3E25717850C26C9CD0D89D"));
}

#[test]
fn new_download_state_is_all_pending() {
    let s = DownloadState::new(4, 100);
    let p = s.get_progress_snapshot();
    assert_eq!(p.completed_pieces, 0);
    assert_eq!(p.in_progress_pieces, 0);
    assert_eq!(p.failed_pieces, 0);
    assert_eq!(p.total_pieces, 4);
    assert_eq!(p.bytes_downloaded, 0);
    assert_eq!(p.total_bytes, 100);
    assert!(matches!(s.get_piece_status(3), PieceStatus::Pending));
    assert!(!s.is_complete());
}

#[test]
fn reset_undoes_start() {
    let mut s = DownloadState::new(2, 10);
    s.mark_piece_in_progress(0, "peer", "worker-1".to_string());
    assert_eq!(s.get_progress_snapshot().in_progress_pieces, 1);
    match s.get_piece_status(0) {
        PieceStatus::InProgress { peer_id, worker_id, .. } => {
            assert_eq!(peer_id, "peer");
            assert_eq!(worker_id, "worker-1");
        }
        _ => panic!("piece should be in progress"),
    }
    s.reset_piece_to_pending(0);
    assert_eq!(s.get_progress_snapshot().in_progress_pieces, 0);
    assert!(matches!(s.get_piece_status(0), PieceStatus::Pending));
}

#[test]
fn completion_is_counted_once() {
    let mut s = DownloadState::new(2, 10);
    s.mark_piece_in_progress(1, "peer", "w".to_string());
    s.mark_piece_completed(1);
    let p = s.get_progress_snapshot();
    assert_eq!(p.completed_pieces, 1);
    assert_eq!(p.in_progress_pieces, 0);
    assert_eq!(p.failed_pieces, 0);
    assert!(matches!(s.get_piece_status(1), PieceStatus::Completed { written_to_disk: true }));
    assert!(!s.is_complete());
    s.mark_piece_completed(0);
    assert_eq!(s.get_progress_snapshot().completed_pieces, 2);
    assert!(s.is_complete());
}

#[test]
fn odd_number_of_pieces_completes() {
    let mut s = DownloadState::new(3, 30);
    for i in 0..3 {
        assert!(!s.is_complete());
        s.mark_piece_in_progress(i, "peer", "w".to_string());
        s.mark_piece_completed(i);
    }
    assert_eq!(s.get_progress_snapshot().completed_pieces, 3);
    assert!(s.is_complete());
}

#[test]
fn each_completion_is_counted() {
    let mut s = DownloadState::new(2, 10);
    s.mark_piece_completed(0);
    s.mark_piece_completed(0);
    assert_eq!(s.get_progress_snapshot().completed_pieces, 2);
    assert!(s.is_complete());
}

#[test]
fn leaving_completed_keeps_the_count() {
    let mut s = DownloadState::new(1, 10);
    s.mark_piece_completed(0);
    assert!(s.is_complete());
    s.reset_piece_to_pending(0);
    assert_eq!(s.get_progress_snapshot().completed_pieces, 1);
    assert!(matches!(s.get_piece_status(0), PieceStatus::Pending));
    s.mark_piece_failed(0, "boom".to_string());
    let p = s.get_progress_snapshot();
    assert_eq!(p.completed_pieces, 1);
    assert_eq!(p.failed_pieces, 1);
    s.mark_piece_in_progress(0, "peer", "w".to_string());
    let p = s.get_progress_snapshot();
    assert_eq!(p.completed_pieces, 1);
    assert_eq!(p.failed_pieces, 1);
    assert_eq!(p.in_progress_pieces, 1);
}

#[test]
fn marking_every_piece_once_completes() {
    let mut s = DownloadState::new(4, 40);
    for i in [2, 0, 3] {
        s.mark_piece_completed(i);
        assert!(!s.is_complete());
    }
    s.mark_piece_completed(1);
    assert!(s.is_complete());
    for i in 0..4 {
        assert!(matches!(s.get_piece_status(i), PieceStatus::Completed { .. }));
    }
}

#[test]
fn failures_count_retries() {
    let mut s = DownloadState::new(3, 10);
    s.mark_piece_in_progress(2, "peer", "w".to_string());
    s.mark_piece_failed(2, "boom".to_string());
    match s.get_piece_status(2) {
        PieceStatus::Failed { retry_count, last_error } => {
            assert_eq!(retry_count, 1);
            assert_eq!(last_error, "boom");
        }
        _ => panic!("piece should have failed"),
    }
    assert_eq!(s.get_progress_snapshot().failed_pieces, 1);
    assert_eq!(s.get_progress_snapshot().in_progress_pieces, 0);
    s.mark_piece_failed(2, "again".to_string());
    match s.get_piece_status(2) {
        PieceStatus::Failed { retry_count, .. } => assert_eq!(retry_count, 2),
        _ => panic!("piece should have failed"),
    }
    let p = s.get_progress_snapshot();
    assert_eq!(p.failed_pieces, 2);
    assert_eq!(p.completed_pieces, 0);
    assert_eq!(p.total_pieces, 3);
    assert_eq!(p.total_bytes, 10);
}

fn piece_message(index: u32, begin: u32, data: &[u8]) -> Message {
    let mut payload = index.to_be_bytes().to_vec();
    payload.extend_from_slice(&begin.to_be_bytes());
    payload.extend_from_slice(data);
    Message::new(MessageTypes::Piece, &payload)
}

#[test]
fn piece_is_fetched_in_blocks() {
    let t = torrent(40_000, 32_768, vec![[0; 20], [0; 20]]);
    let mut d = PieceDownload::start(&t, 0);
    assert_eq!(d.piece_len(), 32_768);
    let b = d.next_block().unwrap();
    assert_eq!((b.index, b.begin, b.length), (0, 0, BLOCK_SIZE));
    let (offset, data) = d.accept_block(&piece_message(0, 0, &[1, 2, 3]));
    assert_eq!(offset, 0);
    assert_eq!(data, vec![1, 2, 3]);
    let b = d.next_block().unwrap();
    assert_eq!((b.begin, b.length), (16384, 16384));
    d.accept_block(&piece_message(0, 16384, &[4]));
    assert!(d.next_block().is_none());

    let mut d = PieceDownload::start(&t, 1);
    assert_eq!(d.piece_len(), 7232);
    let b = d.next_block().unwrap();
    assert_eq!((b.index, b.begin, b.length), (1, 0, 7232));
    let (offset, _) = d.accept_block(&piece_message(1, 0, &[]));
    assert_eq!(offset, 32_768);
    assert!(d.next_block().is_none());
}

#[test]
fn fetched_piece_is_checked_against_its_hash() {
    // SHA-1 of "abc".
    let digest: [u8; 20] = [
        0xa9, 0x99, 0x3e, 0x36, 0x47, 0x06, 0x81, 0x6a, 0xba, 0x3e, 0x25, 0x71, 0x78, 0x50, 0xc2,
        0x6c, 0x9c, 0xd0, 0xd8, 0x9d,
    ];
    let t = torrent(3, 4, vec![digest]);
    let mut d = PieceDownload::start(&t, 0);
    d.next_block().unwrap();
    d.accept_block(&piece_message(0, 0, b"abc"));
    assert!(d.finish(&t));
    let mut d = PieceDownload::start(&t, 0);
    d.accept_block(&piece_message(0, 0, b"abx"));
    assert!(!d.finish(&t));
}

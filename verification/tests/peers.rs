use torrentstream::connection::validate_peers_connection;
use torrentstream::peer::{peer_has_piece, Peer, PeerAddress, PeerError, PeerStats};
use torrentstream::pool::{HandshakeOutcome, PeerPool};
use torrentstream::types::{Message, MessageTypes};

fn bitfield(bytes: &[u8]) -> Message {
    Message::new(MessageTypes::Bitfield, bytes)
}

fn reply_with_id(id: u8) -> Vec<u8> {
    let mut r = vec![0u8; 48];
    r.extend(std::iter::repeat(id).take(20));
    r
}

fn connected_peer(id_byte: u8, field: &[u8]) -> Peer {
    let mut p = Peer::new(&[10, 0, 0, id_byte, 0x1a, 0xe1]);
    p.set_remote_id(&reply_with_id(id_byte));
    p.finish_handshake(Some(bitfield(field))).unwrap();
    p
}

#[test]
fn compact_peer_address() {
    let p = Peer::new(&[127, 0, 0, 1, 0x1a, 0xe1]);
    assert_eq!(p.address.ip, [127, 0, 0, 1]);
    assert_eq!(p.address.port, 6881);
    assert!(p.id.is_none());
    assert!(p.bitfield.is_none());
    assert!(!p.is_connected());
    assert_eq!(p.stats.get_load_score(), 0);
}

#[test]
fn compact_peer_list() {
    let bytes = [1, 2, 3, 4, 0, 80, 5, 6, 7, 8, 1, 0, 9];
    let peers = Peer::from_bytes(&bytes);
    assert_eq!(peers.len(), 2);
    assert_eq!(peers[0].address.ip, [1, 2, 3, 4]);
    assert_eq!(peers[0].address.port, 80);
    assert_eq!(peers[1].address.ip, [5, 6, 7, 8]);
    assert_eq!(peers[1].address.port, 256);
}

#[test]
fn peer_from_socket_is_fresh() {
    let p = Peer::from_socket(PeerAddress { ip: [9, 9, 9, 9], port: 1 });
    assert_eq!(p.address.port, 1);
    assert!(!p.is_connected);
}

#[test]
fn has_piece_reads_bits_most_significant_first() {
    let mut p = Peer::new(&[0, 0, 0, 0, 0, 0]);
    assert!(!p.has_piece(0));
    p.bitfield = Some(bitfield(&[0x40]));
    assert!(p.has_piece(1));
    assert!(!p.has_piece(0));
    assert!(!p.has_piece(8));
    p.bitfield = Some(bitfield(&[0b1000_0000, 0b0100_0001]));
    assert!(p.has_piece(0));
    assert!(!p.has_piece(1));
    assert!(p.has_piece(9));
    assert!(p.has_piece(15));
    assert!(!p.has_piece(8));
    assert!(!p.has_piece(16));
    p.bitfield = Some(bitfield(&[0b0111_1111]));
    assert!(p.has_piece(3));
    assert!(!p.has_piece(0));
}

#[test]
fn binary_bitfield_lookup() {
    let field = bitfield(&[0x40, 0x80]);
    assert!(peer_has_piece(field.clone(), 1));
    assert!(peer_has_piece(field.clone(), 8));
    assert!(!peer_has_piece(field.clone(), 0));
    assert!(!peer_has_piece(field.clone(), 9));
    assert!(!peer_has_piece(field.clone(), 16));
    let field = bitfield(&[5, 0]);
    assert!(peer_has_piece(field.clone(), 5));
    assert!(peer_has_piece(field.clone(), 7));
    assert!(!peer_has_piece(field.clone(), 0));
    assert!(!peer_has_piece(field.clone(), 2));
    assert!(!peer_has_piece(field, 15));
}

#[test]
fn both_bitfield_readings_agree() {
    let bytes = [0b1010_0110u8, 0b0001_1000, 0xff];
    let mut p = Peer::new(&[0, 0, 0, 0, 0, 0]);
    p.bitfield = Some(bitfield(&bytes));
    for i in 0..30 {
        assert_eq!(p.has_piece(i), peer_has_piece(bitfield(&bytes), i));
    }
}

#[test]
fn load_is_starts_minus_finishes() {
    let mut s = PeerStats::new();
    s.increment_active();
    s.increment_active();
    s.record_completion(5);
    s.decrement_active();
    s.record_failure();
    s.increment_active();
    assert_eq!(s.get_load_score(), 2);
    s.decrement_active();
    s.decrement_active();
    assert_eq!(s.get_load_score(), 0);
}

#[test]
fn handshake_success_connects() {
    let mut p = Peer::new(&[1, 1, 1, 1, 0, 1]);
    p.set_remote_id(&reply_with_id(0xab));
    assert_eq!(p.id.as_deref(), Some("ab".repeat(20).as_str()));
    assert_eq!(p.finish_handshake(Some(bitfield(&[0xff]))), Ok(()));
    assert!(p.is_connected());
    assert!(p.can_accept_download(1));
    assert!(!p.can_accept_download(0));
    assert_eq!(p.bitfield.as_ref().unwrap().payload, vec![0xff]);
}

#[test]
fn handshake_failure_disconnects() {
    let mut p = connected_peer(1, &[0xff]);
    assert_eq!(p.finish_handshake(None), Err(PeerError::HandshakeFailed));
    assert!(!p.is_connected());
    p.mark_disconnected();
    assert!(!p.can_accept_download(5));
}

#[test]
fn peer_stats_counters() {
    let mut s = PeerStats::new();
    assert_eq!(s.average_speed_parts(), None);
    s.increment_active();
    s.increment_active();
    s.decrement_active();
    assert_eq!(s.get_load_score(), 1);
    s.record_completion(250);
    s.record_failure();
    assert_eq!(s.average_speed_parts(), Some((1, 250)));
}

#[test]
fn least_loaded_eligible_peer_is_chosen() {
    let peers = vec![
        connected_peer(1, &[0xff]),
        connected_peer(2, &[0xff]),
        connected_peer(3, &[0x00]),
    ];
    let mut pool = PeerPool::new(peers, 2);
    assert_eq!(pool.find_best_peer_for_piece(0, &[]), Some(0));
    assert_eq!(pool.peers[0].stats.get_load_score(), 1);
    assert_eq!(pool.find_best_peer_for_piece(0, &[]), Some(1));
    assert_eq!(pool.find_best_peer_for_piece(0, &[]), Some(0));
    assert_eq!(pool.find_best_peer_for_piece(0, &[]), Some(1));
    assert_eq!(pool.find_best_peer_for_piece(0, &[]), None);
    assert!(!pool.is_peer_available(0));
    assert!(!pool.is_peer_available(7));
    assert_eq!(pool.get_pool_stats(), (0, 3, 2));
}

#[test]
fn excluded_peer_is_skipped() {
    let peers = vec![connected_peer(1, &[0xff]), connected_peer(2, &[0xff])];
    let mut pool = PeerPool::new(peers, 1);
    let excluded = vec!["01".repeat(20)];
    assert_eq!(pool.find_best_peer_for_piece(0, &excluded), Some(1));
    assert_eq!(pool.find_best_peer_for_piece(0, &excluded), None);
    let copy = pool.get_peer_by_index(1).unwrap();
    assert_eq!(copy.stats.get_load_score(), 1);
    assert!(pool.get_peer_by_index(2).is_none());
}

#[test]
fn handshake_round() {
    let peers = vec![
        Peer::new(&[1, 1, 1, 1, 0, 1]),
        Peer::new(&[2, 2, 2, 2, 0, 2]),
        Peer::new(&[3, 3, 3, 3, 0, 3]),
        Peer::new(&[4, 4, 4, 4, 0, 4]),
    ];
    let mut pool = PeerPool::new(peers, 1);
    let outcomes = vec![
        HandshakeOutcome::TimedOut,
        HandshakeOutcome::Failed,
        HandshakeOutcome::Replied { reply: reply_with_id(3), first_message: Some(bitfield(&[1])) },
        HandshakeOutcome::Replied { reply: reply_with_id(4), first_message: None },
    ];
    let stats = validate_peers_connection(&mut pool, &outcomes);
    assert_eq!(stats.connected, 1);
    assert_eq!(stats.failed, 3);
    assert!(!pool.peers[0].is_connected);
    assert!(pool.peers[0].id.is_none());
    assert!(!pool.peers[1].is_connected);
    assert!(pool.peers[2].is_connected);
    assert_eq!(pool.peers[2].id.as_deref(), Some("03".repeat(20).as_str()));
    assert!(!pool.peers[3].is_connected);
    assert_eq!(pool.peers[3].id.as_deref(), Some("04".repeat(20).as_str()));
    assert_eq!(pool.len(), 4);
}

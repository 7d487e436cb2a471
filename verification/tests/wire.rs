use torrentstream::types::{
    parse_frame, payload_len_of_header, FrameError, HashList, HashListError, Info, Message,
    MessageTypes,
};
use torrentstream::peer::{build_handshake, request_message};
use torrentstream::tracker::PEER_ID;

#[test]
fn message_kinds_have_their_wire_numbers() {
    assert_eq!(MessageTypes::Choke.as_byte(), 0);
    assert_eq!(MessageTypes::Unchoke.as_byte(), 1);
    assert_eq!(MessageTypes::Interested.as_byte(), 2);
    assert_eq!(MessageTypes::NotInterested.as_byte(), 3);
    assert_eq!(MessageTypes::Have.as_byte(), 4);
    assert_eq!(MessageTypes::Bitfield.as_byte(), 5);
    assert_eq!(MessageTypes::Request.as_byte(), 6);
    assert_eq!(MessageTypes::Piece.as_byte(), 7);
    assert_eq!(MessageTypes::Cancel.as_byte(), 8);
}

#[test]
fn message_kinds_read_back_from_bytes() {
    for b in 0u8..=8 {
        let t = MessageTypes::try_from_byte(b).unwrap();
        assert_eq!(t.as_byte(), b);
    }
    assert_eq!(MessageTypes::try_from(7u8), Ok(MessageTypes::Piece));
}

#[test]
fn unknown_message_kind_is_refused_with_its_number() {
    assert_eq!(MessageTypes::try_from_byte(9), Err("Unknown message type 9".to_string()));
    assert_eq!(MessageTypes::try_from(200u8), Err("Unknown message type 200".to_string()));
}

#[test]
fn new_message_counts_kind_and_payload() {
    let m = Message::new(MessageTypes::Have, &[0, 0, 0, 7]);
    assert_eq!(m.prefix, 5);
    assert_eq!(m.id, MessageTypes::Have);
    assert_eq!(m.payload, vec![0, 0, 0, 7]);
}

#[test]
fn message_bytes_are_prefix_kind_payload() {
    let m = Message::new(MessageTypes::Interested, &[]);
    assert_eq!(m.to_bytes(), vec![0, 0, 0, 1, 2]);
    let m = Message::new(MessageTypes::Have, &[1, 2, 3]);
    assert_eq!(m.to_bytes(), vec![0, 0, 0, 4, 4, 1, 2, 3]);
}

#[test]
fn request_message_carries_three_big_endian_words() {
    let m = request_message(1, 16384, 16384);
    assert_eq!(m.prefix, 13);
    assert_eq!(m.id, MessageTypes::Request);
    assert_eq!(m.payload, vec![0, 0, 0, 1, 0, 0, 64, 0, 0, 0, 64, 0]);
    assert_eq!(
        m.to_bytes(),
        vec![0, 0, 0, 13, 6, 0, 0, 0, 1, 0, 0, 64, 0, 0, 0, 64, 0]
    );
}

#[test]
fn frame_roundtrip_on_a_request() {
    let m = request_message(2, 0, 512);
    let parsed = parse_frame(&m.to_bytes()).unwrap().unwrap();
    assert_eq!(parsed.prefix, m.prefix);
    assert_eq!(parsed.id, m.id);
    assert_eq!(parsed.payload, m.payload);
}

#[test]
fn frame_errors() {
    assert_eq!(parse_frame(&[0, 0, 0]).err(), Some(FrameError::Truncated));
    assert_eq!(parse_frame(&[0, 0, 0, 5, 2]).err(), Some(FrameError::LengthMismatch));
    assert!(parse_frame(&[0, 0, 0, 1, 9]).unwrap().is_none());
}

#[test]
fn header_gives_payload_length() {
    assert_eq!(payload_len_of_header(&[0, 0, 0, 5, 7]), Some(4));
    assert_eq!(payload_len_of_header(&[0, 0, 1, 0, 5]), Some(255));
    assert_eq!(payload_len_of_header(&[0, 0, 0, 5, 42]), None);
}

#[test]
fn hash_list_splits_in_twenties() {
    let bytes: Vec<u8> = (0u8..40).collect();
    let h = HashList::from_bytes(&bytes).unwrap();
    assert_eq!(h.len(), 2);
    assert_eq!(h.0[0][0], 0);
    assert_eq!(h.0[1][0], 20);
    assert_eq!(h.0[1][19], 39);
    assert_eq!(h.to_bytes(), bytes);
}

#[test]
fn hash_list_of_bad_length_is_refused() {
    let bytes: Vec<u8> = (0u8..39).collect();
    assert_eq!(HashList::from_bytes(&bytes).err(), Some(HashListError::InvalidLength));
    assert!(HashList::from_bytes(&[]).unwrap().0.is_empty());
}

fn sample_info() -> Info {
    let mut a = [0u8; 20];
    for i in 0..20 {
        a[i] = i as u8;
    }
    Info {
        length: 10,
        name: "f".to_string(),
        piece_length: 4,
        pieces: HashList(vec![a, [0xab; 20]]),
    }
}

#[test]
fn hashes_in_lowercase_hex() {
    let info = sample_info();
    let hashes = info.get_hashes();
    assert_eq!(hashes.len(), 2);
    assert_eq!(hashes[0], "000102030405060708090a0b0c0d0e0f10111213");
    assert_eq!(info.hash_by_index(1), "ab".repeat(20));
}

#[test]
fn handshake_layout() {
    let info_hash = [7u8; 20];
    let hs = build_handshake(&info_hash, PEER_ID);
    assert_eq!(hs.len(), 68);
    assert_eq!(hs[0], 19);
    assert_eq!(&hs[1..20], b"BitTorrent protocol");
    assert_eq!(&hs[20..28], &[0u8; 8]);
    assert_eq!(&hs[28..48], &info_hash);
    assert_eq!(&hs[48..68], PEER_ID.as_bytes());
}

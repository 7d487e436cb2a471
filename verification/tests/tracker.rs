use torrentstream::tracker::{announce_request, announce_url, encode_url, hash, tracker_request, PEER_ID, PORT};
use torrentstream::types::TorrentServerRequest;

#[test]
fn info_hash_in_hex() {
    assert_eq!(hash(b"abc"), "a9993e364706816aba3e25717850c26c9cd0d89d");
}

#[test]
fn url_encoding_of_hex() {
    assert_eq!(encode_url("414243"), "ABC");
    assert_eq!(encode_url("41ff7a"), "A%ffz");
    assert_eq!(encode_url("4125F"), "A%25");
    assert_eq!(encode_url(""), "");
}

#[test]
fn query_string_in_key_order() {
    let r = TorrentServerRequest {
        info_hash: "ab%20".to_string(),
        peer_id: "p\"q".to_string(),
        port: 6881,
        uploaded: 1,
        downloaded: 2,
        left: 3,
        compact: 1,
    };
    assert_eq!(
        r.query_string(),
        "?compact=1&downloaded=2&info_hash=ab%20&left=3&peer_id=p\\q&port=6881&uploaded=1"
    );
}

#[test]
fn announce_request_fields() {
    let r = tracker_request("414243", 99);
    assert_eq!(r.info_hash, "ABC");
    assert_eq!(r.peer_id, PEER_ID);
    assert_eq!(r.port, PORT);
    assert_eq!(r.left, 99);
    assert_eq!(r.compact, 1);
    assert_eq!(
        announce_url("http://t/a", r),
        "http://t/a?compact=1&downloaded=0&info_hash=ABC&left=99&peer_id=lakshamana_torclient&port=6881&uploaded=0"
    );
}

#[test]
fn announce_request_from_info() {
    let r = announce_request(b"abc", 10);
    assert_eq!(r.info_hash, "%a9%99%3e6G%06%81j%ba%3e%25qxP%c2l%9c%d0%d8%9d");
    assert_eq!(r.uploaded, 0);
    assert_eq!(r.downloaded, 0);
}

use torrust_tracker::databases::{coalesce_saves, info_hash_from_row, key_from_row, rows_changed, valid_until_column, DbError, MemoryDatabase};
use torrust_tracker::auth::AuthKey;
use torrust_tracker::info_hash::{InfoHash, PeerId};
use torrust_tracker::jobs::ApiServerJobStarted;
use torrust_tracker::swarm::{AnnounceEvent, IpAddress, SocketAddress};
use torrust_tracker::udp::{
    decode_announce_request, decode_announce_response, decode_connect_request, encode_announce_request,
    encode_announce_response, encode_connect_response, encode_error_response, peers_wanted_limit, AnnounceRequest,
    AnnounceResponse, PROTOCOL_ID,
};
use torrust_tracker::connection_id::make_connection_id;
use torrust_tracker::swarm::{Peer, SwarmStats};
use torrust_tracker::tracker::{Tracker, TrackerConfig, TrackerError, TrackerMode};
use torrust_tracker::udp::{decode_scrape_request, encode_scrape_response, handle_scrape};
use torrust_tracker::udp::AnnounceWrapper;

fn sample_request() -> AnnounceRequest {
    AnnounceRequest {
        connection_id: 0x0102_0304_0506_0708,
        transaction_id: 0xdead_beef,
        info_hash: InfoHash([0xab; 20]),
        peer_id: PeerId([0x11; 20]),
        bytes_downloaded: 1,
        bytes_left: 2,
        bytes_uploaded: 3,
        event: AnnounceEvent::Completed,
        ip_address: 0x7f00_0001,
        key: 42,
        peers_wanted: -1,
        port: 6881,
    }
}

#[test]
fn announce_request_round_trip() {
    let r = sample_request();
    let b = encode_announce_request(&r);
    assert_eq!(b.len(), 98);
    assert_eq!(&b[0..8], &[1, 2, 3, 4, 5, 6, 7, 8]);
    assert_eq!(&b[8..12], &[0, 0, 0, 1]);
    assert_eq!(&b[80..84], &[0, 0, 0, 1]);
    assert_eq!(&b[92..96], &[0xff, 0xff, 0xff, 0xff]);
    assert_eq!(&b[96..98], &[0x1a, 0xe1]);
    let d = decode_announce_request(&b).unwrap();
    assert_eq!(d.connection_id, r.connection_id);
    assert_eq!(d.transaction_id, r.transaction_id);
    assert_eq!(d.info_hash.0, r.info_hash.0);
    assert_eq!(d.peer_id.0, r.peer_id.0);
    assert!(d.event == r.event);
    assert_eq!(d.peers_wanted, -1);
    assert_eq!(d.port, 6881);
    assert_eq!(encode_announce_request(&d), b);
}

#[test]
fn announce_request_rejects_bad_input() {
    let mut b = encode_announce_request(&sample_request());
    assert!(decode_announce_request(&b[..97]).is_none());
    b[83] = 9;
    assert!(decode_announce_request(&b).is_none());
    b[83] = 1;
    let (p0, p1) = (b[96], b[97]);
    b[96] = 0;
    b[97] = 0;
    assert!(decode_announce_request(&b).is_none());
    b[96] = p0;
    b[97] = p1;
    assert!(decode_announce_request(&b).is_some());
    b[11] = 2;
    assert!(decode_announce_request(&b).is_none());
}

#[test]
fn announce_response_round_trip_v4_and_v6() {
    let r = AnnounceResponse {
        transaction_id: 5,
        announce_interval: 120,
        leechers: 1,
        seeders: 2,
        peers: vec![
            SocketAddress { ip: IpAddress::V4(0x0102_0304), port: 6881 },
            SocketAddress { ip: IpAddress::V4(0x0506_0708), port: 1 },
        ],
    };
    let b = encode_announce_response(&r);
    assert_eq!(b.len(), 20 + 12);
    assert_eq!(&b[20..26], &[1, 2, 3, 4, 0x1a, 0xe1]);
    let d = decode_announce_response(&b, false).unwrap();
    assert_eq!((d.transaction_id, d.announce_interval, d.leechers, d.seeders), (5, 120, 1, 2));
    assert!(d.peers == r.peers);
    assert_eq!(encode_announce_response(&d), b);
    assert!(decode_announce_response(&b[..31], false).is_none());

    let r6 = AnnounceResponse {
        transaction_id: 6,
        announce_interval: 60,
        leechers: 0,
        seeders: 1,
        peers: vec![SocketAddress { ip: IpAddress::V6(1), port: 80 }],
    };
    let b6 = encode_announce_response(&r6);
    assert_eq!(b6.len(), 38);
    let d6 = decode_announce_response(&b6, true).unwrap();
    assert!(d6.peers == r6.peers);
}

#[test]
fn connect_and_error_messages() {
    let mut req = PROTOCOL_ID.to_be_bytes().to_vec();
    req.extend_from_slice(&0u32.to_be_bytes());
    req.extend_from_slice(&99u32.to_be_bytes());
    assert_eq!(decode_connect_request(&req), Some(99));
    req[0] = 1;
    assert_eq!(decode_connect_request(&req), None);
    let resp = encode_connect_response(99, 0x0a0b);
    assert_eq!(resp, vec![0, 0, 0, 0, 0, 0, 0, 99, 0, 0, 0, 0, 0, 0, 0x0a, 0x0b]);
    let err = encode_error_response(7, b"bad");
    assert_eq!(err, vec![0, 0, 0, 3, 0, 0, 0, 7, b'b', b'a', b'd']);
}

#[test]
fn peers_wanted_is_clamped() {
    assert_eq!(peers_wanted_limit(-1, 50, 74), 50);
    assert_eq!(peers_wanted_limit(-1, 100, 74), 74);
    assert_eq!(peers_wanted_limit(-5, 50, 74), 0);
    assert_eq!(peers_wanted_limit(10, 50, 74), 10);
    assert_eq!(peers_wanted_limit(1000, 50, 74), 74);
}

#[test]
fn info_hash_hex_codec() {
    let h = InfoHash([0x3b; 20]);
    let hex = h.to_hex();
    assert_eq!(String::from_utf8(hex.clone()).unwrap(), "3b".repeat(20));
    let upper = "3B".repeat(20);
    assert_eq!(InfoHash::from_hex(upper.as_bytes()).unwrap().0, h.0);
    assert_eq!(InfoHash::from_hex(&hex).unwrap().0, h.0);
    assert!(InfoHash::from_hex(b"3b").is_none());
    assert!(InfoHash::from_hex("zz".repeat(20).as_bytes()).is_none());
}

#[test]
fn persistence_rows() {
    assert_eq!(rows_changed(2), Ok(2));
    assert_eq!(rows_changed(0), Err(DbError::QueryReturnedNoRows));
    let k = key_from_row(b"abc".to_vec(), Some(-1_700_000_000));
    assert_eq!(k.valid_until, Some(1_700_000_000));
    assert_eq!(key_from_row(b"abc".to_vec(), Some(5)).valid_until, Some(5));
    assert_eq!(key_from_row(b"abc".to_vec(), Some(0)).valid_until, Some(0));
    assert_eq!(key_from_row(b"abc".to_vec(), None).valid_until, None);
    assert_eq!(valid_until_column(&AuthKey { key: vec![], valid_until: None }), None);
    assert_eq!(valid_until_column(&AuthKey { key: vec![], valid_until: Some(0) }), Some(0));
    assert_eq!(valid_until_column(&AuthKey { key: vec![], valid_until: Some(u64::MAX) }), Some(i64::MAX));
    let forever = AuthKey { key: b"abc".to_vec(), valid_until: None };
    assert_eq!(key_from_row(b"abc".to_vec(), valid_until_column(&forever)).valid_until, None);
    let at_zero = AuthKey { key: b"abc".to_vec(), valid_until: Some(0) };
    assert_eq!(key_from_row(b"abc".to_vec(), valid_until_column(&at_zero)).valid_until, Some(0));
    assert_eq!(info_hash_from_row(b"nothex").err(), Some(DbError::InvalidQuery));
    assert_eq!(info_hash_from_row("00".repeat(20).as_bytes()).unwrap().0, [0u8; 20]);
}

#[test]
fn save_persistent_torrent_overwrites() {
    let mut db = MemoryDatabase::new();
    let h = InfoHash([1; 20]);
    assert_eq!(db.save_persistent_torrent(&h, 5), Ok(()));
    assert_eq!(db.save_persistent_torrent(&h, 5), Ok(()));
    assert_eq!(db.load_persistent_torrents().len(), 1);
    db.save_persistent_torrent(&h, 3).unwrap();
    db.save_persistent_torrent(&InfoHash([2; 20]), 9).unwrap();
    let rows = db.load_persistent_torrents();
    assert_eq!(rows.len(), 2);
    assert_eq!(rows[0].1, 3);
    assert_eq!(rows[1].1, 9);
}

#[test]
fn job_started_notice() {
    let notice = ApiServerJobStarted();
    assert_eq!(format!("{:?}", notice), "ApiServerJobStarted");
}

#[test]
fn scrape_request_and_response() {

    let ip = IpAddress::V4(0x0a00_0001);
    let cid = make_connection_id(3, ip, 500);
    let mut b = cid.to_be_bytes().to_vec();
    b.extend_from_slice(&2u32.to_be_bytes());
    b.extend_from_slice(&11u32.to_be_bytes());
    b.extend_from_slice(&[7u8; 20]);
    b.extend_from_slice(&[8u8; 20]);
    let q = decode_scrape_request(&b).unwrap();
    assert_eq!((q.connection_id, q.transaction_id, q.info_hashes.len()), (cid, 11, 2));
    assert_eq!(q.info_hashes[1].0, [8u8; 20]);
    assert!(decode_scrape_request(&b[..16]).is_none());
    assert!(decode_scrape_request(&b[..50]).is_none());

    let mut t = Tracker::new(TrackerConfig {
        mode: TrackerMode::Public,
        announce_interval: 120,
        max_peer_timeout: 900,
        remove_peerless_torrents: false,
    });
    let p = Peer {
        peer_id: PeerId([1; 20]),
        address: SocketAddress { ip, port: 1 },
        uploaded: 0,
        downloaded: 0,
        left: 0,
        event: AnnounceEvent::Completed,
        updated_at: 0,
    };
    t.announce(&InfoHash([7; 20]), p, ip, None, 500, 10).unwrap();
    let s = handle_scrape(&t, 3, ip, &q, 500).unwrap();
    assert_eq!((s[0].seeders, s[0].completed, s[0].leechers), (1, 1, 0));
    assert_eq!((s[1].seeders, s[1].completed, s[1].leechers), (0, 0, 0));
    assert_eq!(handle_scrape(&t, 4, ip, &q, 500).err(), Some(TrackerError::ConnectionIdInvalid));
    let out = encode_scrape_response(11, &vec![SwarmStats { seeders: 1, completed: 2, leechers: 3 }]);
    assert_eq!(out, vec![0, 0, 0, 2, 0, 0, 0, 11, 0, 0, 0, 1, 0, 0, 0, 2, 0, 0, 0, 3]);
}

#[test]
fn announce_wrapper_keeps_request() {
    let r = sample_request();
    let w = AnnounceWrapper::new(&r);
    assert_eq!(w.info_hash.0, r.info_hash.0);
    assert_eq!(w.announce_request.transaction_id, r.transaction_id);
}

#[test]
fn memory_store_keys_and_whitelist() {
    let mut db = MemoryDatabase::new();
    assert_eq!(db.add_key_to_keys(AuthKey { key: b"k".to_vec(), valid_until: Some(9) }), Ok(1));
    assert_eq!(db.add_key_to_keys(AuthKey { key: b"k".to_vec(), valid_until: None }), Err(DbError::InvalidQuery));
    assert_eq!(db.get_key_from_keys(b"k").unwrap().valid_until, Some(9));
    let keys = db.load_keys();
    assert_eq!(keys.len(), 1);
    assert_eq!((keys[0].key.clone(), keys[0].valid_until), (b"k".to_vec(), Some(9)));
    assert_eq!(db.get_key_from_keys(b"x").err(), Some(DbError::QueryReturnedNoRows));
    assert_eq!(db.remove_key_from_keys(b"k"), Ok(1));
    assert_eq!(db.remove_key_from_keys(b"k"), Err(DbError::QueryReturnedNoRows));

    let h = InfoHash([0xcd; 20]);
    assert_eq!(db.add_info_hash_to_whitelist(h), Ok(1));
    assert_eq!(db.add_info_hash_to_whitelist(h), Err(DbError::InvalidQuery));
    let text = "cd".repeat(20);
    assert_eq!(db.get_info_hash_from_whitelist(text.as_bytes()).unwrap().0, h.0);
    assert_eq!(db.get_info_hash_from_whitelist("CD".repeat(20).as_bytes()).err(), Some(DbError::QueryReturnedNoRows));
    assert_eq!(db.load_whitelist().len(), 1);
    assert_eq!(db.load_whitelist()[0].0, h.0);
    assert_eq!(db.get_info_hash_from_whitelist(b"cd").err(), Some(DbError::QueryReturnedNoRows));
    assert_eq!(db.remove_info_hash_from_whitelist(&h), Ok(1));
    assert_eq!(db.get_info_hash_from_whitelist(text.as_bytes()).err(), Some(DbError::QueryReturnedNoRows));
    assert_eq!(db.remove_info_hash_from_whitelist(&h), Err(DbError::QueryReturnedNoRows));
}

#[test]
fn pending_saves_are_coalesced() {
    let a = InfoHash([1; 20]);
    let b = InfoHash([2; 20]);
    let out = coalesce_saves(&vec![(a, 1), (b, 5), (a, 2), (a, 3)]);
    assert_eq!(out.len(), 2);
    assert_eq!((out[0].0 .0, out[0].1), (a.0, 3));
    assert_eq!((out[1].0 .0, out[1].1), (b.0, 5));
    assert!(coalesce_saves(&vec![]).is_empty());
}

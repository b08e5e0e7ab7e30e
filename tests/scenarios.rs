use torrust_tracker::auth::{AuthKey, KeyStatus, KeyStore};
use torrust_tracker::connection_id::{make_connection_id, verify_connection_id};
use torrust_tracker::info_hash::{InfoHash, PeerId};
use torrust_tracker::swarm::{AnnounceEvent, IpAddress, Peer, SocketAddress, SwarmEntry};
use torrust_tracker::tracker::{Tracker, TrackerConfig, TrackerError, TrackerMode};
use torrust_tracker::udp::{handle_announce, AnnounceRequest};
use torrust_tracker::udp::{decode_announce_response, encode_announce_request, handle_datagram};

const SECRET: u64 = 0x5eed_1234_abcd_0001;

fn ip4(a: u8, b: u8, c: u8, d: u8) -> IpAddress {
    IpAddress::V4(u32::from_be_bytes([a, b, c, d]))
}

fn id(n: u8) -> PeerId {
    PeerId([n; 20])
}

fn hash(n: u8) -> InfoHash {
    InfoHash([n; 20])
}

fn config(mode: TrackerMode) -> TrackerConfig {
    TrackerConfig { mode, announce_interval: 120, max_peer_timeout: 900, remove_peerless_torrents: true }
}

fn request(cid: u64, h: InfoHash, p: PeerId, left: u64, event: AnnounceEvent) -> AnnounceRequest {
    AnnounceRequest {
        connection_id: cid,
        transaction_id: 77,
        info_hash: h,
        peer_id: p,
        bytes_downloaded: 0,
        bytes_left: left,
        bytes_uploaded: 0,
        event,
        ip_address: 0,
        key: 0,
        peers_wanted: -1,
        port: 6881,
    }
}

fn peer(p: PeerId, ip: IpAddress, left: u64, event: AnnounceEvent, at: u64) -> Peer {
    Peer {
        peer_id: p,
        address: SocketAddress { ip, port: 6881 },
        uploaded: 0,
        downloaded: 0,
        left,
        event,
        updated_at: at,
    }
}

fn src(ip: IpAddress) -> SocketAddress {
    SocketAddress { ip, port: 6881 }
}

#[test]
fn fresh_swarm_and_completion_counter() {
    let mut t = Tracker::new(config(TrackerMode::Public));
    let now = 1_000;
    let a = ip4(1, 2, 3, 4);
    let cid = make_connection_id(SECRET, a, now);
    let r = handle_announce(&mut t, SECRET, src(a), &request(cid, hash(1), id(1), 100, AnnounceEvent::Started), now, 74, 74)
        .unwrap();
    assert_eq!((r.seeders, r.leechers, r.peers.len()), (0, 1, 0));
    assert_eq!(r.transaction_id, 77);
    assert_eq!(r.announce_interval, 120);

    let r = handle_announce(&mut t, SECRET, src(a), &request(cid, hash(1), id(1), 0, AnnounceEvent::Completed), now, 74, 74)
        .unwrap();
    assert_eq!((r.seeders, r.leechers), (1, 0));
    assert_eq!(t.torrents.stats_of(&hash(1)).completed, 1);
    handle_announce(&mut t, SECRET, src(a), &request(cid, hash(1), id(1), 0, AnnounceEvent::Completed), now, 74, 74).unwrap();
    assert_eq!(t.torrents.stats_of(&hash(1)).completed, 1);

    // A second peer sees the first, with the substituted source address.
    let b = ip4(5, 6, 7, 8);
    let cid_b = make_connection_id(SECRET, b, now);
    let r = handle_announce(&mut t, SECRET, src(b), &request(cid_b, hash(1), id(2), 50, AnnounceEvent::Started), now, 74, 74)
        .unwrap();
    assert_eq!((r.seeders, r.leechers), (1, 1));
    assert_eq!(r.peers.len(), 1);
    assert!(r.peers[0] == SocketAddress { ip: a, port: 6881 });

    // Stopping removes the peer and keeps the counter.
    handle_announce(&mut t, SECRET, src(a), &request(cid, hash(1), id(1), 0, AnnounceEvent::Stopped), now, 74, 74).unwrap();
    let k = t.torrents.hashes.iter().position(|h| h.0 == hash(1).0).unwrap();
    assert_eq!(t.torrents.swarms[k].peers.len(), 1);
    assert_eq!(t.torrents.swarms[k].peers[0].peer_id.0, id(2).0);
    assert_eq!(t.torrents.stats_of(&hash(1)).completed, 1);
}

#[test]
fn whitelist_gate() {
    let mut t = Tracker::new(config(TrackerMode::Listed));
    let p = peer(id(1), ip4(1, 2, 3, 4), 10, AnnounceEvent::Started, 0);
    let r = t.announce(&hash(2), p, ip4(1, 2, 3, 4), None, 10, 50);
    assert_eq!(r.err(), Some(TrackerError::NotWhitelisted));
    assert_eq!(t.torrents.hashes.len(), 0);
    assert!(t.whitelist.add(hash(2)));
    assert!(t.announce(&hash(2), p, ip4(1, 2, 3, 4), None, 10, 50).is_ok());
    assert!(t.whitelist.remove(&hash(2)));
    assert!(!t.whitelist.is_whitelisted(&hash(2)));
}

#[test]
fn connection_id_replay_across_slots() {
    let a = ip4(1, 2, 3, 4);
    let cid = make_connection_id(SECRET, a, 0);
    assert!(verify_connection_id(SECRET, a, 0, cid));
    assert!(verify_connection_id(SECRET, a, 59, cid));
    assert!(verify_connection_id(SECRET, a, 115, cid));
    assert!(!verify_connection_id(SECRET, a, 130, cid));
    assert!(!verify_connection_id(SECRET, ip4(9, 9, 9, 9), 0, cid));
    // The identifier is not the bare address or slot.
    assert_ne!(cid, u32::from_be_bytes([1, 2, 3, 4]) as u64);

    let mut t = Tracker::new(config(TrackerMode::Public));
    let r = handle_announce(&mut t, SECRET, src(a), &request(cid, hash(1), id(1), 1, AnnounceEvent::Started), 130, 74, 74);
    assert_eq!(r.err(), Some(TrackerError::ConnectionIdInvalid));
    let r = handle_announce(&mut t, SECRET, src(ip4(9, 9, 9, 9)), &request(cid, hash(1), id(1), 1, AnnounceEvent::Started), 10, 74, 74);
    assert_eq!(r.err(), Some(TrackerError::ConnectionIdInvalid));
}

#[test]
fn private_mode_keys() {
    let mut t = Tracker::new(config(TrackerMode::Private));
    let text = b"abcdefghijklmnopqrstuvwxyz012345".to_vec();
    let key = t.keys.generate(text.clone(), 100, Some(50)).unwrap();
    assert_eq!(key.valid_until, Some(150));
    let p = peer(id(1), ip4(1, 2, 3, 4), 10, AnnounceEvent::Started, 0);
    assert_eq!(t.announce(&hash(3), p, ip4(1, 2, 3, 4), None, 100, 10).err(), Some(TrackerError::AuthInvalid));
    assert_eq!(
        t.announce(&hash(3), p, ip4(1, 2, 3, 4), Some(b"nope".as_slice()), 100, 10).err(),
        Some(TrackerError::AuthInvalid)
    );
    assert!(t.announce(&hash(3), p, ip4(1, 2, 3, 4), Some(text.as_slice()), 150, 10).is_ok());
    assert_eq!(
        t.announce(&hash(3), p, ip4(1, 2, 3, 4), Some(text.as_slice()), 151, 10).err(),
        Some(TrackerError::AuthExpired)
    );
}

#[test]
fn key_expiry_boundary() {
    let mut ks = KeyStore::new();
    assert!(ks.add(AuthKey { key: b"k1".to_vec(), valid_until: Some(100) }));
    assert!(ks.add(AuthKey { key: b"k2".to_vec(), valid_until: None }));
    assert!(!ks.add(AuthKey { key: b"k1".to_vec(), valid_until: None }));
    assert_eq!(ks.verify(b"k1", 99), KeyStatus::Valid);
    assert_eq!(ks.verify(b"k1", 100), KeyStatus::Valid);
    assert_eq!(ks.verify(b"k1", 101), KeyStatus::Expired);
    assert_eq!(ks.verify(b"k2", u64::MAX), KeyStatus::Valid);
    assert_eq!(ks.verify(b"k3", 0), KeyStatus::Unknown);
    assert!(ks.remove(b"k1"));
    assert!(!ks.remove(b"k1"));
    assert_eq!(ks.verify(b"k1", 0), KeyStatus::Unknown);
}

#[test]
fn key_generation_checks_text_and_conflicts() {
    let mut ks = KeyStore::new();
    let text = b"ABCDEFGHIJKLMNOPQRSTUVWXYZ012345".to_vec();
    assert!(ks.generate(b"short".to_vec(), 0, None).is_none());
    assert!(ks.generate(b"ABCDEFGHIJKLMNOPQRSTUVWXYZ01234!".to_vec(), 0, None).is_none());
    let k = ks.generate(text.clone(), 0, None).unwrap();
    assert_eq!(k.valid_until, None);
    assert!(ks.generate(text, 0, Some(1)).is_none());
    assert_eq!(ks.keys.len(), 1);
    let k2 = ks.generate(b"zzzzzzzzzzzzzzzzzzzzzzzzzzzzzzzz".to_vec(), u64::MAX - 1, Some(10)).unwrap();
    assert_eq!(k2.valid_until, Some(u64::MAX));
}

#[test]
fn seeders_and_leechers_add_up() {
    let mut e = SwarmEntry::new(0);
    e.update_peer(peer(id(1), ip4(1, 1, 1, 1), 0, AnnounceEvent::Started, 0));
    e.update_peer(peer(id(2), ip4(1, 1, 1, 2), 5, AnnounceEvent::Started, 0));
    e.update_peer(peer(id(3), ip4(1, 1, 1, 3), 0, AnnounceEvent::Empty, 0));
    let s = e.stats();
    assert_eq!((s.seeders, s.leechers), (2, 1));
    assert_eq!(s.seeders + s.leechers, e.peers.len() as u32);
}

#[test]
fn completions_count_once_per_peer() {
    let mut e = SwarmEntry::new(7);
    assert!(e.update_peer(peer(id(1), ip4(1, 1, 1, 1), 0, AnnounceEvent::Completed, 0)));
    assert!(!e.update_peer(peer(id(1), ip4(1, 1, 1, 1), 0, AnnounceEvent::Completed, 1)));
    assert!(!e.update_peer(peer(id(2), ip4(1, 1, 1, 2), 3, AnnounceEvent::Started, 1)));
    assert!(e.update_peer(peer(id(2), ip4(1, 1, 1, 2), 0, AnnounceEvent::Completed, 2)));
    assert!(!e.update_peer(peer(id(2), ip4(1, 1, 1, 2), 0, AnnounceEvent::Stopped, 3)));
    assert!(e.update_peer(peer(id(2), ip4(1, 1, 1, 2), 0, AnnounceEvent::Completed, 4)));
    assert_eq!(e.completed, 10);
    let mut full = SwarmEntry::new(u32::MAX);
    assert!(full.update_peer(peer(id(1), ip4(1, 1, 1, 1), 0, AnnounceEvent::Completed, 0)));
    assert_eq!(full.completed, u32::MAX);
}

#[test]
fn get_peers_excludes_and_limits() {
    let mut e = SwarmEntry::new(0);
    for n in 1..=5u8 {
        e.update_peer(peer(id(n), ip4(10, 0, 0, n), 1, AnnounceEvent::Started, 0));
    }
    let r = e.get_peers(Some(id(2)), 3, 0);
    assert_eq!(r.len(), 3);
    assert!(r.iter().all(|p| p.peer_id.0 != id(2).0));
    assert_eq!(r[0].peer_id.0, id(1).0);
    assert_eq!(r[1].peer_id.0, id(3).0);
    assert_eq!(e.get_peers(None, 0, 0).len(), 0);
    assert_eq!(e.get_peers(None, 100, 0).len(), 5);
    assert_eq!(e.get_peers(Some(id(9)), 100, 0).len(), 5);
}

#[test]
fn get_peers_rotates_so_late_peers_are_served() {
    let mut e = SwarmEntry::new(0);
    for n in 1..=5u8 {
        e.update_peer(peer(id(n), ip4(10, 0, 0, n), 1, AnnounceEvent::Started, 0));
    }
    // Eligible peers are 1, 3, 4, 5; starting at position 3 wraps round.
    let r = e.get_peers(Some(id(2)), 2, 3);
    assert_eq!(r.len(), 2);
    assert_eq!(r[0].peer_id.0, id(5).0);
    assert_eq!(r[1].peer_id.0, id(1).0);
    let r = e.get_peers(Some(id(2)), 2, 6);
    assert_eq!(r[0].peer_id.0, id(4).0);
    assert_eq!(r[1].peer_id.0, id(5).0);
    let mut seen = [false; 6];
    for start in 0..4 {
        for p in e.get_peers(None, 1, start) {
            seen[p.peer_id.0[0] as usize] = true;
        }
    }
    assert_eq!(seen.iter().filter(|s| **s).count(), 4);
    assert_eq!(SwarmEntry::new(0).get_peers(None, 3, 7).len(), 0);
}

#[test]
fn cleanup_evicts_idle_peers_and_empty_swarms() {
    let mut t = Tracker::new(config(TrackerMode::Public));
    let a = ip4(1, 1, 1, 1);
    t.announce(&hash(1), peer(id(1), a, 1, AnnounceEvent::Started, 0), a, None, 100, 10).unwrap();
    t.announce(&hash(1), peer(id(2), a, 1, AnnounceEvent::Started, 0), a, None, 1_000, 10).unwrap();
    t.announce(&hash(2), peer(id(3), a, 1, AnnounceEvent::Started, 0), a, None, 100, 10).unwrap();
    t.cleanup(1_050);
    assert_eq!(t.torrents.hashes.len(), 1);
    assert_eq!(t.torrents.hashes[0].0, hash(1).0);
    assert_eq!(t.torrents.swarms[0].peers.len(), 1);
    assert!(t.torrents.swarms[0].peers.iter().all(|p| p.updated_at >= 1_050 - 900));
    // A timeout larger than the clock evicts nothing.
    t.cleanup(10);
    assert_eq!(t.torrents.swarms[0].peers.len(), 1);
}

#[test]
fn cleanup_keeps_empty_swarms_when_configured() {
    let mut cfg = config(TrackerMode::Public);
    cfg.remove_peerless_torrents = false;
    let mut t = Tracker::new(cfg);
    let a = ip4(1, 1, 1, 1);
    t.announce(&hash(1), peer(id(1), a, 0, AnnounceEvent::Completed, 0), a, None, 0, 10).unwrap();
    t.cleanup(5_000);
    assert_eq!(t.torrents.hashes.len(), 1);
    assert_eq!(t.torrents.swarms[0].peers.len(), 0);
    assert_eq!(t.torrents.stats_of(&hash(1)).completed, 1);
}

#[test]
fn scrape_reports_zeros_for_unknown_and_refused() {
    let mut t = Tracker::new(config(TrackerMode::Listed));
    let a = ip4(1, 1, 1, 1);
    t.whitelist.add(hash(1));
    t.announce(&hash(1), peer(id(1), a, 0, AnnounceEvent::Completed, 0), a, None, 0, 10).unwrap();
    let r = t.scrape(&vec![hash(1), hash(2)], None, 0);
    assert_eq!((r[0].seeders, r[0].completed, r[0].leechers), (1, 1, 0));
    assert_eq!((r[1].seeders, r[1].completed, r[1].leechers), (0, 0, 0));
    let mut p = Tracker::new(config(TrackerMode::Private));
    p.announce(&hash(1), peer(id(1), a, 0, AnnounceEvent::Completed, 0), a, None, 0, 10).unwrap_err();
    assert_eq!(p.scrape(&vec![hash(1)], None, 0)[0].completed, 0);
}

#[test]
fn declared_address_replaces_source_unless_any() {
    let mut t = Tracker::new(config(TrackerMode::Public));
    let src_ip = ip4(8, 8, 8, 8);
    t.announce(&hash(1), peer(id(1), ip4(0, 0, 0, 0), 1, AnnounceEvent::Started, 0), src_ip, None, 0, 10).unwrap();
    t.announce(&hash(1), peer(id(2), ip4(4, 4, 4, 4), 1, AnnounceEvent::Started, 0), src_ip, None, 0, 10).unwrap();
    assert!(t.torrents.swarms[0].peers[0].address.ip == src_ip);
    assert!(t.torrents.swarms[0].peers[1].address.ip == ip4(4, 4, 4, 4));
}

#[test]
fn datagram_connect_then_announce() {
    let mut t = Tracker::new(config(TrackerMode::Public));
    let a = ip4(1, 2, 3, 4);
    let mut connect = 0x41727101980u64.to_be_bytes().to_vec();
    connect.extend_from_slice(&0u32.to_be_bytes());
    connect.extend_from_slice(&5u32.to_be_bytes());
    let answer = handle_datagram(&mut t, SECRET, src(a), 1_000, &connect, 74, 74).reply.unwrap();
    assert_eq!(answer.len(), 16);
    assert_eq!(&answer[0..8], &[0, 0, 0, 0, 0, 0, 0, 5]);
    let cid = u64::from_be_bytes(answer[8..16].try_into().unwrap());
    assert_eq!(cid, make_connection_id(SECRET, a, 1_000));

    let req = encode_announce_request(&request(cid, hash(1), id(1), 100, AnnounceEvent::Started));
    let outcome = handle_datagram(&mut t, SECRET, src(a), 1_010, &req, 74, 74);
    assert!(outcome.save.is_none());
    let resp = decode_announce_response(&outcome.reply.unwrap(), false).unwrap();
    assert_eq!((resp.transaction_id, resp.seeders, resp.leechers), (77, 0, 1));

    // A completion is reported for saving, with the new counter.
    let done = encode_announce_request(&request(cid, hash(1), id(1), 0, AnnounceEvent::Completed));
    let outcome = handle_datagram(&mut t, SECRET, src(a), 1_020, &done, 74, 74);
    let (h, completed) = outcome.save.unwrap();
    assert_eq!((h.0, completed), (hash(1).0, 1));
    assert!(handle_datagram(&mut t, SECRET, src(a), 1_030, &done, 74, 74).save.is_none());
    assert_eq!(resp.peers.len(), 0);
    let stop = encode_announce_request(&request(cid, hash(1), id(1), 0, AnnounceEvent::Stopped));
    let outcome = handle_datagram(&mut t, SECRET, src(a), 1_040, &stop, 74, 74);
    assert!(outcome.save.is_none());
    assert_eq!(t.torrents.stats_of(&hash(1)).completed, 1);
    assert_eq!(t.torrents.peer_count(&hash(1)), 0);

    // A forged connection id gets an error answer carrying the transaction id.
    let bad = encode_announce_request(&request(cid ^ 1, hash(1), id(1), 100, AnnounceEvent::Started));
    let answer = handle_datagram(&mut t, SECRET, src(a), 1_010, &bad, 74, 74).reply.unwrap();
    assert_eq!(&answer[0..8], &[0, 0, 0, 3, 0, 0, 0, 77]);
    // Too short to carry a transaction id, or too long: dropped.
    assert!(handle_datagram(&mut t, SECRET, src(a), 1_010, &connect[..15], 74, 74).reply.is_none());
    assert!(handle_datagram(&mut t, SECRET, src(a), 1_010, &vec![0u8; 1497], 74, 74).reply.is_none());
    // Unknown action: error answer.
    let mut junk = vec![0u8; 16];
    junk[11] = 9;
    junk[15] = 4;
    let answer = handle_datagram(&mut t, SECRET, src(a), 1_010, &junk, 74, 74).reply.unwrap();
    assert_eq!(&answer[0..8], &[0, 0, 0, 3, 0, 0, 0, 4]);
}

#[test]
fn pages_of_torrents_and_startup_reload() {
    let mut t = Tracker::new(config(TrackerMode::Public));
    let a = ip4(1, 1, 1, 1);
    for n in 1..=3u8 {
        t.announce(&hash(n), peer(id(n), a, 0, AnnounceEvent::Started, 0), a, None, 0, 10).unwrap();
    }
    t.torrents.load_completed(&hash(2), 40);
    t.torrents.load_completed(&hash(9), 7);
    let page = t.torrents.get_torrents(1, 2);
    assert_eq!(page.len(), 2);
    assert_eq!(page[0].0 .0, hash(2).0);
    assert_eq!((page[0].1.seeders, page[0].1.completed), (1, 40));
    assert_eq!(page[1].0 .0, hash(3).0);
    assert_eq!(t.torrents.get_torrents(3, 10).len(), 1);
    assert_eq!(t.torrents.get_torrents(3, 10)[0].1.completed, 7);
    assert_eq!(t.torrents.get_torrents(4, 10).len(), 0);
    assert_eq!(t.torrents.get_torrents(0, 0).len(), 0);

    t.whitelist.reload(&vec![hash(5), hash(6), hash(5)]);
    assert_eq!(t.whitelist.hashes.len(), 2);
    assert!(t.whitelist.is_whitelisted(&hash(6)));
    assert!(!t.whitelist.is_whitelisted(&hash(1)));

    t.keys.reload(vec![
        AuthKey { key: b"one".to_vec(), valid_until: Some(5) },
        AuthKey { key: b"one".to_vec(), valid_until: None },
        AuthKey { key: b"two".to_vec(), valid_until: None },
    ]);
    assert_eq!(t.keys.keys.len(), 2);
    assert_eq!(t.keys.verify(b"one", 6), KeyStatus::Expired);
    assert_eq!(t.keys.verify(b"two", 6), KeyStatus::Valid);
}

use vstd::prelude::*;

use crate::info_hash::{InfoHash, PeerId};
use crate::connection_id::{accepts, issued_id, make_connection_id, verify_connection_id};
use crate::swarm::{
    bumped, counts_completion, eligible, lemma_seeders_le_len, peers_after, rotated, rotation_start,
    seeders_of, AnnounceEvent, IpAddress, Peer, SocketAddress, SwarmStats,
};
use crate::tracker::{lemma_peers_of_bounded, scrape_entry, stored_peer, Tracker, TrackerError};
use crate::wire::{
    be128, be16, be32, be64, from_be128, from_be16, from_be32, from_be64, get_u128, get_u16, get_u32,
    get_u64, lemma_be_round_trip, put_u128, put_u16, put_u32, put_u64,
};

verus! {

/// Magic number that opens a connect request.
pub const PROTOCOL_ID: u64 = 0x41727101980;

pub const ACTION_CONNECT: u32 = 0;

pub const ACTION_ANNOUNCE: u32 = 1;

pub const ACTION_SCRAPE: u32 = 2;

pub const ACTION_ERROR: u32 = 3;

/// Length of an announce request on the wire.
pub const ANNOUNCE_REQUEST_LEN: usize = 98;

/// A decoded announce request.
#[derive(Clone, Copy, Debug)]
pub struct AnnounceRequest {
    pub connection_id: u64,
    pub transaction_id: u32,
    pub info_hash: InfoHash,
    pub peer_id: PeerId,
    pub bytes_downloaded: u64,
    pub bytes_left: u64,
    pub bytes_uploaded: u64,
    pub event: AnnounceEvent,
    /// Declared IPv4 address; zero asks the tracker to use the source address.
    pub ip_address: u32,
    pub key: u32,
    /// Peers wanted; -1 asks for the configured default.
    pub peers_wanted: i32,
    pub port: u16,
}

pub open spec fn event_code(e: AnnounceEvent) -> u32 {
    match e {
        AnnounceEvent::Empty => 0,
        AnnounceEvent::Completed => 1,
        AnnounceEvent::Started => 2,
        AnnounceEvent::Stopped => 3,
    }
}

pub open spec fn event_of_code(c: u32) -> Option<AnnounceEvent> {
    if c == 0 {
        Some(AnnounceEvent::Empty)
    } else if c == 1 {
        Some(AnnounceEvent::Completed)
    } else if c == 2 {
        Some(AnnounceEvent::Started)
    } else if c == 3 {
        Some(AnnounceEvent::Stopped)
    } else {
        None
    }
}

fn encode_event(e: AnnounceEvent) -> (r: u32)
    ensures
        r == event_code(e),
{
    match e {
        AnnounceEvent::Empty => 0,
        AnnounceEvent::Completed => 1,
        AnnounceEvent::Started => 2,
        AnnounceEvent::Stopped => 3,
    }
}

fn decode_event(c: u32) -> (r: Option<AnnounceEvent>)
    ensures
        r == event_of_code(c),
{
    if c == 0 {
        Some(AnnounceEvent::Empty)
    } else if c == 1 {
        Some(AnnounceEvent::Completed)
    } else if c == 2 {
        Some(AnnounceEvent::Started)
    } else if c == 3 {
        Some(AnnounceEvent::Stopped)
    } else {
        None
    }
}

/// An announce request together with the info-hash it names.
#[derive(Clone, Copy, Debug)]
pub struct AnnounceWrapper {
    pub announce_request: AnnounceRequest,
    pub info_hash: InfoHash,
}

impl AnnounceWrapper {
    pub fn new(announce_request: &AnnounceRequest) -> (r: Self)
        ensures
            r.announce_request == *announce_request,
            r.info_hash@ == announce_request.info_hash@,
    {
        AnnounceWrapper { announce_request: *announce_request, info_hash: InfoHash(announce_request.info_hash.0) }
    }
}

/// The 98 bytes of an announce request.
pub open spec fn request_bytes(r: AnnounceRequest) -> Seq<u8> {
    be64(r.connection_id) + be32(ACTION_ANNOUNCE) + be32(r.transaction_id) + r.info_hash@ + r.peer_id@
        + be64(r.bytes_downloaded) + be64(r.bytes_left) + be64(r.bytes_uploaded) + be32(
        event_code(r.event),
    ) + be32(r.ip_address) + be32(r.key) + be32(r.peers_wanted as u32) + be16(r.port)
}

/// `r` holds the fields that the first 98 bytes of `b` encode.
pub open spec fn request_fields(b: Seq<u8>, r: AnnounceRequest) -> bool {
    &&& r.connection_id == from_be64(b.subrange(0, 8))
    &&& r.transaction_id == from_be32(b.subrange(12, 16))
    &&& r.info_hash@ == b.subrange(16, 36)
    &&& r.peer_id@ == b.subrange(36, 56)
    &&& r.bytes_downloaded == from_be64(b.subrange(56, 64))
    &&& r.bytes_left == from_be64(b.subrange(64, 72))
    &&& r.bytes_uploaded == from_be64(b.subrange(72, 80))
    &&& event_of_code(from_be32(b.subrange(80, 84))) == Some(r.event)
    &&& r.ip_address == from_be32(b.subrange(84, 88))
    &&& r.key == from_be32(b.subrange(88, 92))
    &&& r.peers_wanted == from_be32(b.subrange(92, 96)) as i32
    &&& r.port == from_be16(b.subrange(96, 98))
}

/// The bytes are an announce request: long enough, with the announce action,
/// a known event and a port other than zero.
pub open spec fn is_announce_request(b: Seq<u8>) -> bool {
    &&& b.len() >= ANNOUNCE_REQUEST_LEN
    &&& from_be32(b.subrange(8, 12)) == ACTION_ANNOUNCE
    &&& event_of_code(from_be32(b.subrange(80, 84))).is_some()
    &&& from_be16(b.subrange(96, 98)) != 0
}

/// Two requests with the same fields.
pub open spec fn same_request(a: AnnounceRequest, b: AnnounceRequest) -> bool {
    &&& a.connection_id == b.connection_id
    &&& a.transaction_id == b.transaction_id
    &&& a.info_hash@ == b.info_hash@
    &&& a.peer_id@ == b.peer_id@
    &&& a.bytes_downloaded == b.bytes_downloaded
    &&& a.bytes_left == b.bytes_left
    &&& a.bytes_uploaded == b.bytes_uploaded
    &&& a.event == b.event
    &&& a.ip_address == b.ip_address
    &&& a.key == b.key
    &&& a.peers_wanted == b.peers_wanted
    &&& a.port == b.port
}

fn push_bytes20(out: &mut Vec<u8>, a: &[u8; 20])
    ensures
        final(out)@ == old(out)@ + a@,
{
    let ghost start = out@;
    let mut i: usize = 0;
    while i < 20
        invariant
            i <= 20,
            a@.len() == 20,
            out@ == start + a@.take(i as int),
        decreases 20 - i,
    {
        out.push(a[i]);
        i = i + 1;
        assert(out@ =~= start + a@.take(i as int));
    }
    assert(a@.take(20) =~= a@);
}

fn bytes20_at(b: &[u8], off: usize) -> (r: [u8; 20])
    requires
        off + 20 <= b@.len(),
    ensures
        r@ == b@.subrange(off as int, off + 20),
{
    let mut out: [u8; 20] = [0u8; 20];
    let len = b.len();
    let mut i: usize = 0;
    while i < 20
        invariant
            i <= 20,
            len == b@.len(),
            off + 20 <= b@.len(),
            out@.len() == 20,
            forall|j: int| 0 <= j < i ==> out@[j] == b@[off + j],
        decreases 20 - i,
    {
        out[i] = b[off + i];
        i = i + 1;
    }
    assert(out@ =~= b@.subrange(off as int, off + 20));
    out
}

/// Encodes an announce request.
pub fn encode_announce_request(r: &AnnounceRequest) -> (out: Vec<u8>)
    ensures
        out@ == request_bytes(*r),
{
    let mut out: Vec<u8> = Vec::new();
    put_u64(&mut out, r.connection_id);
    put_u32(&mut out, ACTION_ANNOUNCE);
    put_u32(&mut out, r.transaction_id);
    push_bytes20(&mut out, &r.info_hash.0);
    push_bytes20(&mut out, &r.peer_id.0);
    put_u64(&mut out, r.bytes_downloaded);
    put_u64(&mut out, r.bytes_left);
    put_u64(&mut out, r.bytes_uploaded);
    put_u32(&mut out, encode_event(r.event));
    put_u32(&mut out, r.ip_address);
    put_u32(&mut out, r.key);
    put_u32(&mut out, r.peers_wanted as u32);
    put_u16(&mut out, r.port);
    out
}

/// Decodes an announce request; `None` unless the bytes are one.
pub fn decode_announce_request(b: &[u8]) -> (r: Option<AnnounceRequest>)
    ensures
        r.is_some() == is_announce_request(b@),
        r.is_some() ==> request_fields(b@, r.unwrap()),
{
    if b.len() < ANNOUNCE_REQUEST_LEN {
        return None;
    }
    if get_u32(b, 8) != ACTION_ANNOUNCE {
        return None;
    }
    let event = match decode_event(get_u32(b, 80)) {
        Some(e) => e,
        None => return None,
    };
    let port = get_u16(b, 96);
    if port == 0 {
        return None;
    }
    Some(
        AnnounceRequest {
            connection_id: get_u64(b, 0),
            transaction_id: get_u32(b, 12),
            info_hash: InfoHash(bytes20_at(b, 16)),
            peer_id: PeerId(bytes20_at(b, 36)),
            bytes_downloaded: get_u64(b, 56),
            bytes_left: get_u64(b, 64),
            bytes_uploaded: get_u64(b, 72),
            event,
            ip_address: get_u32(b, 84),
            key: get_u32(b, 88),
            peers_wanted: get_u32(b, 92) as i32,
            port,
        },
    )
}

proof fn lemma_request_layout(r: AnnounceRequest)
    ensures
        request_bytes(r).len() == 98,
        request_bytes(r).subrange(0, 8) == be64(r.connection_id),
        request_bytes(r).subrange(8, 12) == be32(ACTION_ANNOUNCE),
        request_bytes(r).subrange(12, 16) == be32(r.transaction_id),
        request_bytes(r).subrange(16, 36) == r.info_hash@,
        request_bytes(r).subrange(36, 56) == r.peer_id@,
        request_bytes(r).subrange(56, 64) == be64(r.bytes_downloaded),
        request_bytes(r).subrange(64, 72) == be64(r.bytes_left),
        request_bytes(r).subrange(72, 80) == be64(r.bytes_uploaded),
        request_bytes(r).subrange(80, 84) == be32(event_code(r.event)),
        request_bytes(r).subrange(84, 88) == be32(r.ip_address),
        request_bytes(r).subrange(88, 92) == be32(r.key),
        request_bytes(r).subrange(92, 96) == be32(r.peers_wanted as u32),
        request_bytes(r).subrange(96, 98) == be16(r.port),
{
    lemma_be_round_trip();
    let b = request_bytes(r);
    assert(b.subrange(0, 8) =~= be64(r.connection_id));
    assert(b.subrange(8, 12) =~= be32(ACTION_ANNOUNCE));
    assert(b.subrange(12, 16) =~= be32(r.transaction_id));
    assert(b.subrange(16, 36) =~= r.info_hash@);
    assert(b.subrange(36, 56) =~= r.peer_id@);
    assert(b.subrange(56, 64) =~= be64(r.bytes_downloaded));
    assert(b.subrange(64, 72) =~= be64(r.bytes_left));
    assert(b.subrange(72, 80) =~= be64(r.bytes_uploaded));
    assert(b.subrange(80, 84) =~= be32(event_code(r.event)));
    assert(b.subrange(84, 88) =~= be32(r.ip_address));
    assert(b.subrange(88, 92) =~= be32(r.key));
    assert(b.subrange(92, 96) =~= be32(r.peers_wanted as u32));
    assert(b.subrange(96, 98) =~= be16(r.port));
}

/// Encoding a request (with a port other than zero) and decoding the bytes
/// gives back the same fields.
pub proof fn lemma_request_encode_decode(r: AnnounceRequest, d: AnnounceRequest)
    requires
        r.port != 0,
        request_fields(request_bytes(r), d),
    ensures
        is_announce_request(request_bytes(r)),
        same_request(r, d),
{
    lemma_request_layout(r);
    lemma_be_round_trip();
    let w = r.peers_wanted;
    assert((w as u32) as i32 == w) by (bit_vector);
}

/// Decoding 98 bytes of an announce request and encoding the result gives
/// back the same bytes.
pub proof fn lemma_request_decode_encode(b: Seq<u8>, d: AnnounceRequest)
    requires
        b.len() == ANNOUNCE_REQUEST_LEN,
        is_announce_request(b),
        request_fields(b, d),
    ensures
        request_bytes(d) == b,
{
    lemma_request_layout(d);
    lemma_be_round_trip();
    let x = from_be32(b.subrange(92, 96));
    assert((x as i32) as u32 == x) by (bit_vector);
    let c = from_be32(b.subrange(80, 84));
    assert(event_code(d.event) == c);
    let e = request_bytes(d);
    assert(e.subrange(0, 8) == b.subrange(0, 8));
    assert(e.subrange(8, 12) == b.subrange(8, 12));
    assert(e.subrange(12, 16) == b.subrange(12, 16));
    assert(e.subrange(16, 36) == b.subrange(16, 36));
    assert(e.subrange(36, 56) == b.subrange(36, 56));
    assert(e.subrange(56, 64) == b.subrange(56, 64));
    assert(e.subrange(64, 72) == b.subrange(64, 72));
    assert(e.subrange(72, 80) == b.subrange(72, 80));
    assert(e.subrange(80, 84) == b.subrange(80, 84));
    assert(e.subrange(84, 88) == b.subrange(84, 88));
    assert(e.subrange(88, 92) == b.subrange(88, 92));
    assert(e.subrange(92, 96) == b.subrange(92, 96));
    assert(e.subrange(96, 98) == b.subrange(96, 98));
    assert forall|i: int| 0 <= i < 98 implies e[i] == b[i] by {
        if i < 8 {
            assert(e[i] == e.subrange(0, 8)[i]);
            assert(b[i] == b.subrange(0, 8)[i]);
        } else if i < 12 {
            assert(e[i] == e.subrange(8, 12)[i - 8]);
            assert(b[i] == b.subrange(8, 12)[i - 8]);
        } else if i < 16 {
            assert(e[i] == e.subrange(12, 16)[i - 12]);
            assert(b[i] == b.subrange(12, 16)[i - 12]);
        } else if i < 36 {
            assert(e[i] == e.subrange(16, 36)[i - 16]);
            assert(b[i] == b.subrange(16, 36)[i - 16]);
        } else if i < 56 {
            assert(e[i] == e.subrange(36, 56)[i - 36]);
            assert(b[i] == b.subrange(36, 56)[i - 36]);
        } else if i < 64 {
            assert(e[i] == e.subrange(56, 64)[i - 56]);
            assert(b[i] == b.subrange(56, 64)[i - 56]);
        } else if i < 72 {
            assert(e[i] == e.subrange(64, 72)[i - 64]);
            assert(b[i] == b.subrange(64, 72)[i - 64]);
        } else if i < 80 {
            assert(e[i] == e.subrange(72, 80)[i - 72]);
            assert(b[i] == b.subrange(72, 80)[i - 72]);
        } else if i < 84 {
            assert(e[i] == e.subrange(80, 84)[i - 80]);
            assert(b[i] == b.subrange(80, 84)[i - 80]);
        } else if i < 88 {
            assert(e[i] == e.subrange(84, 88)[i - 84]);
            assert(b[i] == b.subrange(84, 88)[i - 84]);
        } else if i < 92 {
            assert(e[i] == e.subrange(88, 92)[i - 88]);
            assert(b[i] == b.subrange(88, 92)[i - 88]);
        } else if i < 96 {
            assert(e[i] == e.subrange(92, 96)[i - 92]);
            assert(b[i] == b.subrange(92, 96)[i - 92]);
        } else {
            assert(e[i] == e.subrange(96, 98)[i - 96]);
            assert(b[i] == b.subrange(96, 98)[i - 96]);
        }
    }
    assert(e =~= b);
}

/// A decoded announce response.
#[derive(Debug)]
pub struct AnnounceResponse {
    pub transaction_id: u32,
    pub announce_interval: u32,
    pub leechers: u32,
    pub seeders: u32,
    pub peers: Vec<SocketAddress>,
}

/// Bytes per peer entry: IPv4 address and port, or IPv6 address and port.
pub open spec fn entry_len(ipv6: bool) -> int {
    if ipv6 {
        18
    } else {
        6
    }
}

pub open spec fn in_family(a: SocketAddress, ipv6: bool) -> bool {
    match a.ip {
        IpAddress::V4(_) => !ipv6,
        IpAddress::V6(_) => ipv6,
    }
}

/// The compact form of one peer.
pub open spec fn peer_bytes(a: SocketAddress) -> Seq<u8> {
    match a.ip {
        IpAddress::V4(x) => be32(x) + be16(a.port),
        IpAddress::V6(x) => be128(x) + be16(a.port),
    }
}

pub open spec fn peers_bytes(ps: Seq<SocketAddress>) -> Seq<u8>
    decreases ps.len(),
{
    if ps.len() == 0 {
        Seq::empty()
    } else {
        peers_bytes(ps.drop_last()) + peer_bytes(ps.last())
    }
}

/// The peer that one compact entry holds.
pub open spec fn peer_from(s: Seq<u8>, ipv6: bool) -> SocketAddress {
    if ipv6 {
        SocketAddress { ip: IpAddress::V6(from_be128(s.subrange(0, 16))), port: from_be16(s.subrange(16, 18)) }
    } else {
        SocketAddress { ip: IpAddress::V4(from_be32(s.subrange(0, 4))), port: from_be16(s.subrange(4, 6)) }
    }
}

/// The bytes of an announce response.
pub open spec fn response_bytes(r: AnnounceResponse) -> Seq<u8> {
    reply_bytes(r.transaction_id, r.announce_interval, r.leechers, r.seeders, r.peers@)
}

/// The bytes of an announce response with the given fields.
pub open spec fn reply_bytes(
    transaction_id: u32,
    interval: u32,
    leechers: u32,
    seeders: u32,
    peers: Seq<SocketAddress>,
) -> Seq<u8> {
    be32(ACTION_ANNOUNCE) + be32(transaction_id) + be32(interval) + be32(leechers) + be32(seeders)
        + peers_bytes(peers)
}

/// The bytes are an announce response whose peers are of the given family.
pub open spec fn is_announce_response(b: Seq<u8>, ipv6: bool) -> bool {
    &&& b.len() >= 20
    &&& from_be32(b.subrange(0, 4)) == ACTION_ANNOUNCE
    &&& (b.len() - 20) % entry_len(ipv6) == 0
}

/// `r` holds the fields that the bytes encode.
pub open spec fn response_fields(b: Seq<u8>, ipv6: bool, r: AnnounceResponse) -> bool {
    &&& r.transaction_id == from_be32(b.subrange(4, 8))
    &&& r.announce_interval == from_be32(b.subrange(8, 12))
    &&& r.leechers == from_be32(b.subrange(12, 16))
    &&& r.seeders == from_be32(b.subrange(16, 20))
    &&& r.peers@.len() * entry_len(ipv6) == b.len() - 20
    &&& forall|i: int|
        0 <= i < r.peers@.len() ==> #[trigger] r.peers@[i] == peer_from(
            b.subrange(20 + entry_len(ipv6) * i, 20 + entry_len(ipv6) * i + entry_len(ipv6)),
            ipv6,
        )
}

proof fn lemma_peer_entry(a: SocketAddress, ipv6: bool)
    requires
        in_family(a, ipv6),
    ensures
        peer_bytes(a).len() == entry_len(ipv6),
        peer_from(peer_bytes(a), ipv6) == a,
{
    lemma_be_round_trip();
    let b = peer_bytes(a);
    match a.ip {
        IpAddress::V4(x) => {
            assert(b.subrange(0, 4) =~= be32(x));
            assert(b.subrange(4, 6) =~= be16(a.port));
        },
        IpAddress::V6(x) => {
            assert(b.subrange(0, 16) =~= be128(x));
            assert(b.subrange(16, 18) =~= be16(a.port));
        },
    }
}

proof fn lemma_entry_bytes(s: Seq<u8>, ipv6: bool)
    requires
        s.len() == entry_len(ipv6),
    ensures
        in_family(peer_from(s, ipv6), ipv6),
        peer_bytes(peer_from(s, ipv6)) == s,
{
    lemma_be_round_trip();
    if ipv6 {
        assert(s =~= s.subrange(0, 16) + s.subrange(16, 18));
    } else {
        assert(s =~= s.subrange(0, 4) + s.subrange(4, 6));
    }
}

/// The entries of a list of same-family peers lie one after the other.
proof fn lemma_peers_layout(ps: Seq<SocketAddress>, ipv6: bool)
    requires
        forall|i: int| 0 <= i < ps.len() ==> in_family(#[trigger] ps[i], ipv6),
    ensures
        peers_bytes(ps).len() == ps.len() * entry_len(ipv6),
        forall|i: int|
            0 <= i < ps.len() ==> #[trigger] peers_bytes(ps).subrange(
                entry_len(ipv6) * i,
                entry_len(ipv6) * i + entry_len(ipv6),
            ) == peer_bytes(ps[i]),
    decreases ps.len(),
{
    let w = entry_len(ipv6);
    if ps.len() > 0 {
        let d = ps.drop_last();
        lemma_peers_layout(d, ipv6);
        lemma_peer_entry(ps.last(), ipv6);
        let b = peers_bytes(ps);
        assert(b.len() == ps.len() * w) by (nonlinear_arith)
            requires
                b.len() == d.len() * w + w,
                d.len() + 1 == ps.len(),
        ;
        assert forall|i: int| 0 <= i < ps.len() implies #[trigger] b.subrange(w * i, w * i + w) == peer_bytes(
            ps[i],
        ) by {
            if i < d.len() {
                assert(w * i + w <= d.len() * w) by (nonlinear_arith)
                    requires
                        i < d.len(),
                        w > 0,
                ;
                assert(0 <= w * i) by (nonlinear_arith)
                    requires
                        0 <= i,
                        w > 0,
                ;
                assert(b.subrange(w * i, w * i + w) =~= peers_bytes(d).subrange(w * i, w * i + w));
                assert(ps[i] == d[i]);
            } else {
                assert(w * i == d.len() * w) by (nonlinear_arith)
                    requires
                        i == d.len(),
                ;
                assert(b.subrange(w * i, w * i + w) =~= peer_bytes(ps.last()));
            }
        }
    }
}

/// Bytes cut into entries, each the compact form of the matching peer, are
/// the compact form of the list.
proof fn lemma_peers_from_entries(ps: Seq<SocketAddress>, s: Seq<u8>, ipv6: bool)
    requires
        s.len() == ps.len() * entry_len(ipv6),
        forall|i: int|
            0 <= i < ps.len() ==> #[trigger] peer_bytes(ps[i]) == s.subrange(
                entry_len(ipv6) * i,
                entry_len(ipv6) * i + entry_len(ipv6),
            ),
    ensures
        peers_bytes(ps) == s,
    decreases ps.len(),
{
    let w = entry_len(ipv6);
    if ps.len() == 0 {
        assert(s =~= Seq::<u8>::empty());
    } else {
        let d = ps.drop_last();
        let n = d.len();
        assert(n * w + w == ps.len() * w) by (nonlinear_arith)
            requires
                n + 1 == ps.len(),
        ;
        let s1 = s.subrange(0, n * w);
        assert(0 <= n * w) by (nonlinear_arith)
            requires
                0 <= n,
                w > 0,
        ;
        assert forall|i: int| 0 <= i < d.len() implies #[trigger] peer_bytes(d[i]) == s1.subrange(
            w * i,
            w * i + w,
        ) by {
            assert(w * i + w <= n * w) by (nonlinear_arith)
                requires
                    i < n,
                    w > 0,
            ;
            assert(0 <= w * i) by (nonlinear_arith)
                requires
                    0 <= i,
                    w > 0,
            ;
            assert(ps[i] == d[i]);
            assert(peer_bytes(ps[i]) == s.subrange(w * i, w * i + w));
            assert(s1.subrange(w * i, w * i + w) =~= s.subrange(w * i, w * i + w));
        }
        lemma_peers_from_entries(d, s1, ipv6);
        assert(w * n == n * w) by (nonlinear_arith);
        assert(peer_bytes(ps[n as int]) == s.subrange(w * n, w * n + w));
        assert(s =~= s1 + s.subrange(n * w, n * w + w));
    }
}

proof fn lemma_response_header(r: AnnounceResponse)
    ensures
        response_bytes(r).len() == 20 + peers_bytes(r.peers@).len(),
        response_bytes(r).subrange(0, 4) == be32(ACTION_ANNOUNCE),
        response_bytes(r).subrange(4, 8) == be32(r.transaction_id),
        response_bytes(r).subrange(8, 12) == be32(r.announce_interval),
        response_bytes(r).subrange(12, 16) == be32(r.leechers),
        response_bytes(r).subrange(16, 20) == be32(r.seeders),
        response_bytes(r).subrange(20, response_bytes(r).len() as int) == peers_bytes(r.peers@),
{
    lemma_be_round_trip();
    let b = response_bytes(r);
    assert(b.subrange(0, 4) =~= be32(ACTION_ANNOUNCE));
    assert(b.subrange(4, 8) =~= be32(r.transaction_id));
    assert(b.subrange(8, 12) =~= be32(r.announce_interval));
    assert(b.subrange(12, 16) =~= be32(r.leechers));
    assert(b.subrange(16, 20) =~= be32(r.seeders));
    assert(b.subrange(20, b.len() as int) =~= peers_bytes(r.peers@));
}

/// Two responses with the same fields and the same peers.
pub open spec fn same_response(a: AnnounceResponse, b: AnnounceResponse) -> bool {
    &&& a.transaction_id == b.transaction_id
    &&& a.announce_interval == b.announce_interval
    &&& a.leechers == b.leechers
    &&& a.seeders == b.seeders
    &&& a.peers@ == b.peers@
}

/// The bytes of a response whose peers are all of one family decode as a
/// response for that family, and any decoding of them equals the response.
pub proof fn lemma_response_bytes_decodable(r: AnnounceResponse, ipv6: bool)
    requires
        forall|i: int| 0 <= i < r.peers@.len() ==> in_family(#[trigger] r.peers@[i], ipv6),
    ensures
        is_announce_response(response_bytes(r), ipv6),
        forall|d: AnnounceResponse|
            response_fields(response_bytes(r), ipv6, d) ==> #[trigger] same_response(r, d),
{
    let w = entry_len(ipv6);
    let b = response_bytes(r);
    lemma_be_round_trip();
    lemma_response_header(r);
    lemma_peers_layout(r.peers@, ipv6);
    let n = r.peers@.len();
    assert((b.len() - 20) % w == 0) by (nonlinear_arith)
        requires
            b.len() - 20 == n * w,
            w > 0,
    ;
    assert forall|d: AnnounceResponse|
        response_fields(response_bytes(r), ipv6, d) implies #[trigger] same_response(r, d) by {
        lemma_response_encode_decode(r, ipv6, d);
    }
}

/// Encoding a response whose peers are all of one family and decoding the
/// bytes for that family gives back an equal response.
pub proof fn lemma_response_encode_decode(r: AnnounceResponse, ipv6: bool, d: AnnounceResponse)
    requires
        forall|i: int| 0 <= i < r.peers@.len() ==> in_family(#[trigger] r.peers@[i], ipv6),
        response_fields(response_bytes(r), ipv6, d),
    ensures
        is_announce_response(response_bytes(r), ipv6),
        same_response(r, d),
{
    let w = entry_len(ipv6);
    let b = response_bytes(r);
    lemma_be_round_trip();
    lemma_response_header(r);
    lemma_peers_layout(r.peers@, ipv6);
    let n = r.peers@.len();
    assert((b.len() - 20) % w == 0) by (nonlinear_arith)
        requires
            b.len() - 20 == n * w,
            w > 0,
    ;
    assert(d.peers@.len() == n) by (nonlinear_arith)
        requires
            d.peers@.len() * w == n * w,
            w > 0,
    ;
    assert forall|i: int| 0 <= i < n implies d.peers@[i] == r.peers@[i] by {
        assert(0 <= w * i && w * i + w <= n * w) by (nonlinear_arith)
            requires
                0 <= i < n,
                w > 0,
        ;
        let pb = peers_bytes(r.peers@);
        assert(b.subrange(20 + w * i, 20 + w * i + w) =~= pb.subrange(w * i, w * i + w));
        assert(pb.subrange(w * i, w * i + w) == peer_bytes(r.peers@[i]));
        lemma_peer_entry(r.peers@[i], ipv6);
    }
    assert(d.peers@ =~= r.peers@);
}

/// Decoding the bytes of a response and encoding the result gives back the
/// same bytes.
pub proof fn lemma_response_decode_encode(b: Seq<u8>, ipv6: bool, d: AnnounceResponse)
    requires
        is_announce_response(b, ipv6),
        response_fields(b, ipv6, d),
    ensures
        response_bytes(d) == b,
{
    let w = entry_len(ipv6);
    lemma_be_round_trip();
    lemma_response_header(d);
    let s = b.subrange(20, b.len() as int);
    let n = d.peers@.len();
    assert forall|i: int| 0 <= i < n implies #[trigger] peer_bytes(d.peers@[i]) == s.subrange(w * i, w * i + w) by {
        assert(0 <= w * i && w * i + w <= n * w) by (nonlinear_arith)
            requires
                0 <= i < n,
                w > 0,
        ;
        assert(s.subrange(w * i, w * i + w) =~= b.subrange(20 + w * i, 20 + w * i + w));
        lemma_entry_bytes(s.subrange(w * i, w * i + w), ipv6);
    }
    lemma_peers_from_entries(d.peers@, s, ipv6);
    let e = response_bytes(d);
    assert(e.subrange(0, 4) == b.subrange(0, 4));
    assert(e.subrange(4, 8) == b.subrange(4, 8));
    assert(e.subrange(8, 12) == b.subrange(8, 12));
    assert(e.subrange(12, 16) == b.subrange(12, 16));
    assert(e.subrange(16, 20) == b.subrange(16, 20));
    assert(e =~= e.subrange(0, 4) + e.subrange(4, 8) + e.subrange(8, 12) + e.subrange(12, 16) + e.subrange(16, 20) + e.subrange(20, e.len() as int));
    assert(b =~= b.subrange(0, 4) + b.subrange(4, 8) + b.subrange(8, 12) + b.subrange(12, 16) + b.subrange(16, 20) + s);
}

fn put_peer(out: &mut Vec<u8>, a: SocketAddress)
    ensures
        final(out)@ == old(out)@ + peer_bytes(a),
{
    match a.ip {
        IpAddress::V4(x) => put_u32(out, x),
        IpAddress::V6(x) => put_u128(out, x),
    }
    put_u16(out, a.port);
}

/// Encodes an announce response; peers are written in their compact form.
pub fn encode_announce_response(r: &AnnounceResponse) -> (out: Vec<u8>)
    ensures
        out@ == response_bytes(*r),
{
    let mut out: Vec<u8> = Vec::new();
    put_u32(&mut out, ACTION_ANNOUNCE);
    put_u32(&mut out, r.transaction_id);
    put_u32(&mut out, r.announce_interval);
    put_u32(&mut out, r.leechers);
    put_u32(&mut out, r.seeders);
    let ghost head = out@;
    let mut i: usize = 0;
    while i < r.peers.len()
        invariant
            i <= r.peers@.len(),
            out@ == head + peers_bytes(r.peers@.take(i as int)),
            head + peers_bytes(r.peers@) == response_bytes(*r),
        decreases r.peers@.len() - i,
    {
        assert(r.peers@.take(i + 1).drop_last() =~= r.peers@.take(i as int));
        put_peer(&mut out, r.peers[i]);
        i = i + 1;
        assert(out@ =~= head + peers_bytes(r.peers@.take(i as int)));
    }
    assert(r.peers@.take(i as int) =~= r.peers@);
    out
}

/// Decodes an announce response whose peers are of the given family; `None`
/// unless the bytes are one.
pub fn decode_announce_response(b: &[u8], ipv6: bool) -> (r: Option<AnnounceResponse>)
    ensures
        r.is_some() == is_announce_response(b@, ipv6),
        r.is_some() ==> response_fields(b@, ipv6, r.unwrap()),
{
    let w: usize = if ipv6 {
        18
    } else {
        6
    };
    if b.len() < 20 || get_u32(b, 0) != ACTION_ANNOUNCE || (b.len() - 20) % w != 0 {
        return None;
    }
    let n = (b.len() - 20) / w;
    let len = b.len();
    let mut peers: Vec<SocketAddress> = Vec::new();
    let mut i: usize = 0;
    while i < n
        invariant
            i <= n,
            len == b@.len(),
            w == entry_len(ipv6),
            n * w == b@.len() - 20,
            peers@.len() == i,
            forall|j: int|
                0 <= j < i ==> #[trigger] peers@[j] == peer_from(
                    b@.subrange(20 + w * j, 20 + w * j + w),
                    ipv6,
                ),
        decreases n - i,
    {
        assert(20 + w * i + w <= b@.len()) by (nonlinear_arith)
            requires
                i < n,
                n * w == b@.len() - 20,
        ;
        let off = 20 + w * i;
        let ghost entry = b@.subrange(off as int, off + w);
        let p = if ipv6 {
            let ip = get_u128(b, off);
            let port = get_u16(b, off + 16);
            assert(b@.subrange(off as int, off + 16) =~= entry.subrange(0, 16));
            assert(b@.subrange(off + 16, off + 18) =~= entry.subrange(16, 18));
            SocketAddress { ip: IpAddress::V6(ip), port }
        } else {
            let ip = get_u32(b, off);
            let port = get_u16(b, off + 4);
            assert(b@.subrange(off as int, off + 4) =~= entry.subrange(0, 4));
            assert(b@.subrange(off + 4, off + 6) =~= entry.subrange(4, 6));
            SocketAddress { ip: IpAddress::V4(ip), port }
        };
        peers.push(p);
        i = i + 1;
    }
    Some(
        AnnounceResponse {
            transaction_id: get_u32(b, 4),
            announce_interval: get_u32(b, 8),
            leechers: get_u32(b, 12),
            seeders: get_u32(b, 16),
            peers,
        },
    )
}

pub open spec fn wanted_limit(num_want: i32, default: usize, max: usize) -> int {
    if num_want == -1 {
        if default < max {
            default as int
        } else {
            max as int
        }
    } else if num_want < 0 {
        0
    } else if (num_want as int) < max {
        num_want as int
    } else {
        max as int
    }
}

/// How many peers to hand out for a requested count: the default for -1,
/// otherwise the request clamped to `[0, max]`.
pub fn peers_wanted_limit(num_want: i32, default: usize, max: usize) -> (r: usize)
    ensures
        r == wanted_limit(num_want, default, max),
{
    if num_want == -1 {
        if default < max {
            default
        } else {
            max
        }
    } else if num_want < 0 {
        0
    } else if (num_want as u64) < (max as u64) {
        num_want as usize
    } else {
        max
    }
}

/// The bytes are a connect request: 16 bytes or more, opening with the
/// protocol magic and the connect action.
pub open spec fn is_connect_request(b: Seq<u8>) -> bool {
    &&& b.len() >= 16
    &&& from_be64(b.subrange(0, 8)) == PROTOCOL_ID
    &&& from_be32(b.subrange(8, 12)) == ACTION_CONNECT
}

/// Decodes a connect request into its transaction id.
pub fn decode_connect_request(b: &[u8]) -> (r: Option<u32>)
    ensures
        r.is_some() == is_connect_request(b@),
        r.is_some() ==> r.unwrap() == from_be32(b@.subrange(12, 16)),
{
    if b.len() < 16 || get_u64(b, 0) != PROTOCOL_ID || get_u32(b, 8) != ACTION_CONNECT {
        return None;
    }
    Some(get_u32(b, 12))
}

/// Encodes the answer to a connect request.
pub fn encode_connect_response(transaction_id: u32, connection_id: u64) -> (out: Vec<u8>)
    ensures
        out@ == be32(ACTION_CONNECT) + be32(transaction_id) + be64(connection_id),
{
    let mut out: Vec<u8> = Vec::new();
    put_u32(&mut out, ACTION_CONNECT);
    put_u32(&mut out, transaction_id);
    put_u64(&mut out, connection_id);
    out
}

/// Encodes an error answer with a short ASCII message.
pub fn encode_error_response(transaction_id: u32, message: &[u8]) -> (out: Vec<u8>)
    ensures
        out@ == be32(ACTION_ERROR) + be32(transaction_id) + message@,
{
    let mut out: Vec<u8> = Vec::new();
    put_u32(&mut out, ACTION_ERROR);
    put_u32(&mut out, transaction_id);
    let ghost head = out@;
    let mut i: usize = 0;
    while i < message.len()
        invariant
            i <= message@.len(),
            out@ == head + message@.take(i as int),
        decreases message@.len() - i,
    {
        out.push(message[i]);
        i = i + 1;
        assert(out@ =~= head + message@.take(i as int));
    }
    assert(message@.take(i as int) =~= message@);
    out
}

/// The short message sent back for a refused request.
pub fn error_message(e: TrackerError) -> (r: &'static str)
{
    match e {
        TrackerError::AuthInvalid => "invalid authentication key",
        TrackerError::AuthExpired => "authentication key expired",
        TrackerError::NotWhitelisted => "torrent not on whitelist",
        TrackerError::ConnectionIdInvalid => "connection id could not be verified",
        TrackerError::ProtocolError => "malformed request",
    }
}

/// The peers of the client's address family, in order.
pub open spec fn same_family(ps: Seq<Peer>, ipv6: bool) -> Seq<SocketAddress>
    decreases ps.len(),
{
    if ps.len() == 0 {
        Seq::empty()
    } else if in_family(ps.last().address, ipv6) {
        same_family(ps.drop_last(), ipv6).push(ps.last().address)
    } else {
        same_family(ps.drop_last(), ipv6)
    }
}

proof fn lemma_same_family(ps: Seq<Peer>, ipv6: bool)
    ensures
        same_family(ps, ipv6).len() <= ps.len(),
        forall|i: int| 0 <= i < same_family(ps, ipv6).len() ==> in_family(#[trigger] same_family(ps, ipv6)[i], ipv6),
    decreases ps.len(),
{
    if ps.len() > 0 {
        lemma_same_family(ps.drop_last(), ipv6);
    }
}

fn family_addresses(ps: &Vec<Peer>, ipv6: bool) -> (r: Vec<SocketAddress>)
    ensures
        r@ == same_family(ps@, ipv6),
{
    let mut out: Vec<SocketAddress> = Vec::new();
    let mut i: usize = 0;
    while i < ps.len()
        invariant
            i <= ps@.len(),
            out@ == same_family(ps@.take(i as int), ipv6),
        decreases ps@.len() - i,
    {
        assert(ps@.take(i + 1).drop_last() =~= ps@.take(i as int));
        let a = ps[i].address;
        let keep = match a.ip {
            IpAddress::V4(_) => !ipv6,
            IpAddress::V6(_) => ipv6,
        };
        if keep {
            out.push(a);
        }
        i = i + 1;
    }
    assert(ps@.take(i as int) =~= ps@);
    out
}

/// The peer that an announce request describes, as seen from `source`.
pub open spec fn request_peer(req: AnnounceRequest, source: SocketAddress) -> Peer {
    Peer {
        peer_id: req.peer_id,
        address: SocketAddress { ip: IpAddress::V4(req.ip_address), port: req.port },
        uploaded: req.bytes_uploaded,
        downloaded: req.bytes_downloaded,
        left: req.bytes_left,
        event: req.event,
        updated_at: 0,
    }
}

/// The record that an announce request from `source` at `now` stores.
pub open spec fn announced_peer(req: AnnounceRequest, source: SocketAddress, now: u64) -> Peer {
    stored_peer(request_peer(req, source), source.ip, now)
}

/// The peers of the swarm after an accepted announce.
pub open spec fn peers_after_announce(t: Tracker, req: AnnounceRequest, source: SocketAddress, now: u64) -> Seq<Peer> {
    peers_after(t.torrents.peers_of(req.info_hash@), announced_peer(req, source, now))
}

/// The completion counter of the swarm after an accepted announce.
pub open spec fn completed_after_announce(t: Tracker, req: AnnounceRequest, source: SocketAddress, now: u64) -> u32 {
    if counts_completion(t.torrents.peers_of(req.info_hash@), announced_peer(req, source, now)) {
        bumped(t.torrents.completed_of(req.info_hash@))
    } else {
        t.torrents.completed_of(req.info_hash@)
    }
}

/// The peers that an accepted announce is answered with: the tracker's
/// rotation of the other peers, cut to the wanted count, then those of the
/// client's address family.
pub open spec fn peers_served(
    t: Tracker,
    req: AnnounceRequest,
    source: SocketAddress,
    now: u64,
    default_peers: usize,
    max_peers: usize,
) -> Seq<SocketAddress> {
    let others = eligible(peers_after_announce(t, req, source, now), Some(req.peer_id@));
    let limit = wanted_limit(req.peers_wanted, default_peers, max_peers);
    let m = if limit < others.len() {
        limit
    } else {
        others.len() as int
    };
    same_family(rotated(others, rotation_start(now as usize, others.len())).take(m), source.ip is V6)
}

/// An announce is answered with at most the wanted number of peers, all of
/// the client's address family.
pub proof fn lemma_peers_served_bounds(
    t: Tracker,
    req: AnnounceRequest,
    source: SocketAddress,
    now: u64,
    default_peers: usize,
    max_peers: usize,
)
    ensures
        peers_served(t, req, source, now, default_peers, max_peers).len() <= wanted_limit(
            req.peers_wanted,
            default_peers,
            max_peers,
        ),
        forall|i: int|
            0 <= i < peers_served(t, req, source, now, default_peers, max_peers).len() ==> in_family(
                #[trigger] peers_served(t, req, source, now, default_peers, max_peers)[i],
                source.ip is V6,
            ),
{
    let others = eligible(peers_after_announce(t, req, source, now), Some(req.peer_id@));
    let limit = wanted_limit(req.peers_wanted, default_peers, max_peers);
    let m = if limit < others.len() {
        limit
    } else {
        others.len() as int
    };
    let cut = rotated(others, rotation_start(now as usize, others.len())).take(m);
    assert(limit >= 0);
    lemma_same_family(cut, source.ip is V6);
}

/// Handles a decoded announce from the client at `source`: checks the
/// connection id, hands the announce to the tracker, and answers with the
/// swarm's counters and the returned peers of the client's address family.
pub fn handle_announce(
    tracker: &mut Tracker,
    secret: u64,
    source: SocketAddress,
    req: &AnnounceRequest,
    now: u64,
    default_peers: usize,
    max_peers: usize,
) -> (r: Result<AnnounceResponse, TrackerError>)
    requires
        old(tracker).wf(),
        old(tracker).torrents.peers_of(req.info_hash@).len() < u32::MAX,
    ensures
        final(tracker).wf(),
        !accepts(secret, source.ip, now, req.connection_id) ==> r == Err::<AnnounceResponse, TrackerError>(
            TrackerError::ConnectionIdInvalid,
        ),
        accepts(secret, source.ip, now, req.connection_id) ==> (r is Err <==> old(tracker).refusal_of(
            req.info_hash@,
            None,
            now,
        ).is_some()),
        accepts(secret, source.ip, now, req.connection_id) && r is Err ==> Some(r->Err_0) == old(
            tracker,
        ).refusal_of(req.info_hash@, None, now),
        r is Err ==> *final(tracker) == *old(tracker),
        r is Ok ==> ({
            let resp = r->Ok_0;
            let after = final(tracker).torrents.peers_of(req.info_hash@);
            &&& resp.transaction_id == req.transaction_id
            &&& resp.seeders == seeders_of(after)
            &&& resp.leechers == after.len() - seeders_of(after)
            &&& resp.announce_interval == old(tracker).config.announce_interval
            &&& resp.peers@.len() <= wanted_limit(req.peers_wanted, default_peers, max_peers)
            &&& forall|i: int| 0 <= i < resp.peers@.len() ==> in_family(#[trigger] resp.peers@[i], source.ip is V6)
            &&& after == peers_after(
                old(tracker).torrents.peers_of(req.info_hash@),
                stored_peer(request_peer(*req, source), source.ip, now),
            )
            &&& resp.peers@ == peers_served(*old(tracker), *req, source, now, default_peers, max_peers)
            &&& final(tracker).torrents.completed_of(req.info_hash@) == completed_after_announce(
                *old(tracker),
                *req,
                source,
                now,
            )
        }),
{
    if !verify_connection_id(secret, source.ip, now, req.connection_id) {
        return Err(TrackerError::ConnectionIdInvalid);
    }
    let peer = Peer {
        peer_id: req.peer_id,
        address: SocketAddress { ip: IpAddress::V4(req.ip_address), port: req.port },
        uploaded: req.bytes_uploaded,
        downloaded: req.bytes_downloaded,
        left: req.bytes_left,
        event: req.event,
        updated_at: 0,
    };
    assert(peer == request_peer(*req, source));
    let limit = peers_wanted_limit(req.peers_wanted, default_peers, max_peers);
    let ipv6 = match source.ip {
        IpAddress::V4(_) => false,
        IpAddress::V6(_) => true,
    };
    let data = match tracker.announce(&req.info_hash, peer, source.ip, None, now, limit) {
        Ok(d) => d,
        Err(e) => return Err(e),
    };
    let peers = family_addresses(&data.peers, ipv6);
    proof {
        lemma_same_family(data.peers@, ipv6);
    }
    Ok(
        AnnounceResponse {
            transaction_id: req.transaction_id,
            announce_interval: data.interval,
            leechers: data.stats.leechers,
            seeders: data.stats.seeders,
            peers,
        },
    )
}

/// Most info-hashes that one scrape request may name.
pub const MAX_SCRAPE_TORRENTS: usize = 74;

/// A decoded scrape request.
#[derive(Debug)]
pub struct ScrapeRequest {
    pub connection_id: u64,
    pub transaction_id: u32,
    pub info_hashes: Vec<InfoHash>,
}

/// The bytes are a scrape request: the header, then one to 74 info-hashes.
pub open spec fn is_scrape_request(b: Seq<u8>) -> bool {
    &&& b.len() >= 36
    &&& from_be32(b.subrange(8, 12)) == ACTION_SCRAPE
    &&& (b.len() - 16) % 20 == 0
    &&& (b.len() - 16) / 20 <= MAX_SCRAPE_TORRENTS
}

/// Decodes a scrape request; `None` unless the bytes are one.
pub fn decode_scrape_request(b: &[u8]) -> (r: Option<ScrapeRequest>)
    ensures
        r.is_some() == is_scrape_request(b@),
        r.is_some() ==> {
            let q = r.unwrap();
            &&& q.connection_id == from_be64(b@.subrange(0, 8))
            &&& q.transaction_id == from_be32(b@.subrange(12, 16))
            &&& q.info_hashes@.len() * 20 == b@.len() - 16
            &&& forall|i: int|
                0 <= i < q.info_hashes@.len() ==> (#[trigger] q.info_hashes@[i])@ == b@.subrange(
                    16 + 20 * i,
                    36 + 20 * i,
                )
        },
{
    if b.len() < 36 || get_u32(b, 8) != ACTION_SCRAPE || (b.len() - 16) % 20 != 0 || (b.len() - 16) / 20
        > MAX_SCRAPE_TORRENTS {
        return None;
    }
    let n = (b.len() - 16) / 20;
    let len = b.len();
    let mut hashes: Vec<InfoHash> = Vec::new();
    let mut i: usize = 0;
    while i < n
        invariant
            i <= n,
            n <= MAX_SCRAPE_TORRENTS,
            len == b@.len(),
            n * 20 == b@.len() - 16,
            hashes@.len() == i,
            forall|j: int|
                0 <= j < i ==> (#[trigger] hashes@[j])@ == b@.subrange(16 + 20 * j, 36 + 20 * j),
        decreases n - i,
    {
        hashes.push(InfoHash(bytes20_at(b, 16 + 20 * i)));
        i = i + 1;
    }
    Some(ScrapeRequest { connection_id: get_u64(b, 0), transaction_id: get_u32(b, 12), info_hashes: hashes })
}

/// The three counters of each scraped swarm: seeders, completions, leechers.
pub open spec fn stats_bytes(s: Seq<SwarmStats>) -> Seq<u8>
    decreases s.len(),
{
    if s.len() == 0 {
        Seq::empty()
    } else {
        stats_bytes(s.drop_last()) + be32(s.last().seeders) + be32(s.last().completed) + be32(
            s.last().leechers,
        )
    }
}

/// Encodes the answer to a scrape request.
pub fn encode_scrape_response(transaction_id: u32, stats: &Vec<SwarmStats>) -> (out: Vec<u8>)
    ensures
        out@ == be32(ACTION_SCRAPE) + be32(transaction_id) + stats_bytes(stats@),
{
    let mut out: Vec<u8> = Vec::new();
    put_u32(&mut out, ACTION_SCRAPE);
    put_u32(&mut out, transaction_id);
    let ghost head = out@;
    let mut i: usize = 0;
    while i < stats.len()
        invariant
            i <= stats@.len(),
            out@ == head + stats_bytes(stats@.take(i as int)),
        decreases stats@.len() - i,
    {
        assert(stats@.take(i + 1).drop_last() =~= stats@.take(i as int));
        let s = stats[i];
        put_u32(&mut out, s.seeders);
        put_u32(&mut out, s.completed);
        put_u32(&mut out, s.leechers);
        i = i + 1;
        assert(out@ =~= head + stats_bytes(stats@.take(i as int)));
    }
    assert(stats@.take(i as int) =~= stats@);
    out
}

/// Handles a decoded scrape from `source_ip`: checks the connection id, then
/// reports the counters of each named swarm.
pub fn handle_scrape(tracker: &Tracker, secret: u64, source_ip: IpAddress, req: &ScrapeRequest, now: u64) -> (r:
    Result<Vec<SwarmStats>, TrackerError>)
    requires
        tracker.wf(),
    ensures
        r is Err <==> !accepts(secret, source_ip, now, req.connection_id),
        r is Err ==> r->Err_0 == TrackerError::ConnectionIdInvalid,
        r is Ok ==> r->Ok_0@ == scrape_reply(*tracker, hash_views(req.info_hashes@), now),
{
    if !verify_connection_id(secret, source_ip, now, req.connection_id) {
        return Err(TrackerError::ConnectionIdInvalid);
    }
    let s = tracker.scrape(&req.info_hashes, None, now);
    assert(s@ =~= scrape_reply(*tracker, hash_views(req.info_hashes@), now));
    Ok(s)
}

/// The views of a list of info-hashes.
pub open spec fn hash_views(hs: Seq<InfoHash>) -> Seq<Seq<u8>> {
    Seq::new(hs.len(), |i: int| hs[i]@)
}

/// What a scrape without a key reports for each of the hashes, in order.
pub open spec fn scrape_reply(t: Tracker, hs: Seq<Seq<u8>>, now: u64) -> Seq<SwarmStats> {
    Seq::new(hs.len(), |i: int| scrape_entry(t, hs[i], None, now))
}

/// The info-hashes that the bytes of a scrape request name.
pub open spec fn scrape_hashes(b: Seq<u8>) -> Seq<Seq<u8>> {
    Seq::new(((b.len() - 16) / 20) as nat, |i: int| b.subrange(16 + 20 * i, 36 + 20 * i))
}

/// Largest datagram that is read; longer ones are dropped.
pub const MAX_DATAGRAM_LEN: usize = 1496;

/// The answer opens with the error action and the transaction id.
pub open spec fn is_error_answer(out: Seq<u8>, transaction_id: u32) -> bool {
    out.len() >= 8 && out.subrange(0, 8) == be32(ACTION_ERROR) + be32(transaction_id)
}

fn error_answer(transaction_id: u32, e: TrackerError) -> (out: Vec<u8>)
    ensures
        is_error_answer(out@, transaction_id),
{
    let out = encode_error_response(transaction_id, error_message(e).as_bytes());
    proof {
        lemma_be_round_trip();
        assert(out@.subrange(0, 8) =~= be32(ACTION_ERROR) + be32(transaction_id));
    }
    out
}

/// What handling one datagram produced: the answer to send back, if any, and
/// the completion counter that is due to be saved when the datagram was an
/// announce that counted as a new completion.
#[derive(Debug)]
pub struct DatagramOutcome {
    pub reply: Option<Vec<u8>>,
    pub save: Option<(InfoHash, u32)>,
}

/// An error answer with the transaction id, and nothing changed or saved.
pub open spec fn refused(t0: Tracker, t1: Tracker, r: DatagramOutcome, transaction_id: u32) -> bool {
    &&& r.reply.is_some()
    &&& is_error_answer(r.reply.unwrap()@, transaction_id)
    &&& t1 == t0
    &&& r.save.is_none()
}

/// What handling the announce `req` does: refused when its connection id is
/// not accepted, when its swarm is full, or when the tracker refuses it;
/// otherwise the swarm is updated, the answer carries the counters and the
/// served peers, and a save is due exactly when the counter moved.
pub open spec fn announce_outcome(
    t0: Tracker,
    t1: Tracker,
    req: AnnounceRequest,
    source: SocketAddress,
    secret: u64,
    now: u64,
    default_peers: usize,
    max_peers: usize,
    r: DatagramOutcome,
) -> bool {
    let h = req.info_hash@;
    if !accepts(secret, source.ip, now, req.connection_id) || t0.torrents.peers_of(h).len() >= u32::MAX
        - 1 || t0.refusal_of(h, None, now).is_some() {
        refused(t0, t1, r, req.transaction_id)
    } else {
        let after = peers_after_announce(t0, req, source, now);
        let completed = completed_after_announce(t0, req, source, now);
        &&& t1.torrents.peers_of(h) == after
        &&& t1.torrents.completed_of(h) == completed
        &&& r.reply.is_some()
        &&& r.reply.unwrap()@ == reply_bytes(
            req.transaction_id,
            t0.config.announce_interval,
            (after.len() - seeders_of(after)) as u32,
            seeders_of(after) as u32,
            peers_served(t0, req, source, now, default_peers, max_peers),
        )
        &&& r.save.is_some() == (completed != t0.torrents.completed_of(h))
        &&& r.save.is_some() ==> r.save.unwrap().0@ == h && r.save.unwrap().1 == completed
    }
}

/// Answers one datagram from `source` at time `now`; no reply drops it. Too
/// long or too short to carry a transaction id: dropped. A connect request:
/// a fresh connection id. An announce or a scrape: the tracker's answer, or
/// an error answer. Anything else: an error answer.
pub fn handle_datagram(
    tracker: &mut Tracker,
    secret: u64,
    source: SocketAddress,
    now: u64,
    b: &[u8],
    default_peers: usize,
    max_peers: usize,
) -> (r: DatagramOutcome)
    requires
        old(tracker).wf(),
    ensures
        final(tracker).wf(),
        r.reply.is_none() <==> (b@.len() > MAX_DATAGRAM_LEN || b@.len() < 16),
        r.reply.is_some() && is_connect_request(b@) ==> r.reply.unwrap()@ == be32(ACTION_CONNECT) + be32(
            from_be32(b@.subrange(12, 16)),
        ) + be64(issued_id(secret, source.ip, now)),
        r.reply.is_some() && !is_connect_request(b@) && !is_announce_request(b@) && !is_scrape_request(b@)
            ==> is_error_answer(r.reply.unwrap()@, from_be32(b@.subrange(12, 16))),
        r.reply.is_some() && is_announce_request(b@) && !accepts(
            secret,
            source.ip,
            now,
            from_be64(b@.subrange(0, 8)),
        ) ==> is_error_answer(r.reply.unwrap()@, from_be32(b@.subrange(12, 16))),
        r.reply.is_some() && is_scrape_request(b@) && !accepts(
            secret,
            source.ip,
            now,
            from_be64(b@.subrange(0, 8)),
        ) ==> is_error_answer(r.reply.unwrap()@, from_be32(b@.subrange(12, 16))),
        r.save.is_some() ==> is_announce_request(b@) && final(tracker).torrents.completed_of(
            r.save.unwrap().0@,
        ) == r.save.unwrap().1,
        b@.len() <= MAX_DATAGRAM_LEN && is_announce_request(b@) ==> exists|req: AnnounceRequest|
            #[trigger] request_fields(b@, req) && announce_outcome(
                *old(tracker),
                *final(tracker),
                req,
                source,
                secret,
                now,
                default_peers,
                max_peers,
                r,
            ),
        b@.len() <= MAX_DATAGRAM_LEN && is_scrape_request(b@) ==> if accepts(
            secret,
            source.ip,
            now,
            from_be64(b@.subrange(0, 8)),
        ) {
            &&& r.reply.is_some()
            &&& r.reply.unwrap()@ == be32(ACTION_SCRAPE) + be32(from_be32(b@.subrange(12, 16)))
                + stats_bytes(scrape_reply(*old(tracker), scrape_hashes(b@), now))
            &&& *final(tracker) == *old(tracker)
            &&& r.save.is_none()
        } else {
            refused(*old(tracker), *final(tracker), r, from_be32(b@.subrange(12, 16)))
        },
{
    if b.len() > MAX_DATAGRAM_LEN || b.len() < 16 {
        return DatagramOutcome { reply: None, save: None };
    }
    let transaction_id = get_u32(b, 12);
    if let Some(tid) = decode_connect_request(b) {
        let cid = make_connection_id(secret, source.ip, now);
        return DatagramOutcome { reply: Some(encode_connect_response(tid, cid)), save: None };
    }
    if let Some(req) = decode_announce_request(b) {
        if tracker.torrents.peer_count(&req.info_hash) >= u32::MAX as usize - 1 {
            return DatagramOutcome {
                reply: Some(error_answer(transaction_id, TrackerError::ProtocolError)),
                save: None,
            };
        }
        let before = tracker.torrents.stats_of(&req.info_hash).completed;
        return match handle_announce(tracker, secret, source, &req, now, default_peers, max_peers) {
            Ok(resp) => {
                proof {
                    lemma_peers_of_bounded(tracker.torrents, req.info_hash@);
                    lemma_seeders_le_len(tracker.torrents.peers_of(req.info_hash@));
                }
                let after = tracker.torrents.stats_of(&req.info_hash).completed;
                let save = if after != before {
                    Some((req.info_hash, after))
                } else {
                    None
                };
                DatagramOutcome { reply: Some(encode_announce_response(&resp)), save }
            },
            Err(e) => DatagramOutcome { reply: Some(error_answer(transaction_id, e)), save: None },
        };
    }
    if let Some(req) = decode_scrape_request(b) {
        assert(hash_views(req.info_hashes@) =~= scrape_hashes(b@));
        let reply = match handle_scrape(tracker, secret, source.ip, &req, now) {
            Ok(stats) => encode_scrape_response(req.transaction_id, &stats),
            Err(e) => error_answer(transaction_id, e),
        };
        return DatagramOutcome { reply: Some(reply), save: None };
    }
    DatagramOutcome { reply: Some(error_answer(transaction_id, TrackerError::ProtocolError)), save: None }
}

} // verus!

use vstd::prelude::*;

use crate::auth::{status_of, KeyStatus, KeyStore};
use crate::info_hash::InfoHash;
use crate::repository::{find_hash, has_hash, hash_index, insert_hash, unique_hashes, TorrentRepository};
use crate::swarm::{
    active_since, bumped, counts_completion, eligible, lemma_active_since_facts, lemma_seeders_le_len,
    opt_id, peers_after, rotated, rotation_start, seeders_of, IpAddress, Peer, SocketAddress, SwarmStats,
};

verus! {

/// Access policy, fixed at startup.
#[derive(Clone, Copy, PartialEq, Eq, Structural, Debug)]
pub enum TrackerMode {
    Public,
    Listed,
    Private,
    PrivateListed,
}

/// Why an announce or a request was refused.
#[derive(Clone, Copy, PartialEq, Eq, Structural, Debug)]
pub enum TrackerError {
    AuthInvalid,
    AuthExpired,
    NotWhitelisted,
    ConnectionIdInvalid,
    ProtocolError,
}

pub open spec fn needs_key(mode: TrackerMode) -> bool {
    mode == TrackerMode::Private || mode == TrackerMode::PrivateListed
}

pub open spec fn needs_listing(mode: TrackerMode) -> bool {
    mode == TrackerMode::Listed || mode == TrackerMode::PrivateListed
}

/// The info-hashes that may be announced in the listed modes.
pub struct Whitelist {
    pub hashes: Vec<InfoHash>,
}

impl Whitelist {
    pub open spec fn wf(&self) -> bool {
        unique_hashes(self.hashes@)
    }

    pub fn new() -> (r: Whitelist)
        ensures
            r.wf(),
            r.hashes@.len() == 0,
    {
        Whitelist { hashes: Vec::new() }
    }

    pub fn is_whitelisted(&self, h: &InfoHash) -> (r: bool)
        requires
            self.wf(),
        ensures
            r == has_hash(self.hashes@, h@),
    {
        find_hash(&self.hashes, h).is_some()
    }

    /// Adds a hash; returns whether it was not listed before.
    pub fn add(&mut self, h: InfoHash) -> (added: bool)
        requires
            old(self).wf(),
        ensures
            final(self).wf(),
            added == !has_hash(old(self).hashes@, h@),
            has_hash(final(self).hashes@, h@),
            forall|g: Seq<u8>|
                g != h@ ==> #[trigger] has_hash(final(self).hashes@, g) == has_hash(old(self).hashes@, g),
    {
        let added = insert_hash(&mut self.hashes, h);
        if added {
            assert(self.hashes@[self.hashes@.len() - 1]@ == h@);
            assert forall|g: Seq<u8>| g != h@ implies #[trigger] has_hash(self.hashes@, g) == has_hash(
                old(self).hashes@,
                g,
            ) by {
                if has_hash(old(self).hashes@, g) {
                    let k = choose|k: int| 0 <= k < old(self).hashes@.len() && (#[trigger] old(self).hashes@[k])@ == g;
                    assert(self.hashes@[k] == old(self).hashes@[k]);
                }
                if has_hash(self.hashes@, g) {
                    let k = choose|k: int| 0 <= k < self.hashes@.len() && (#[trigger] self.hashes@[k])@ == g;
                    assert(self.hashes@[k] == old(self).hashes@[k]);
                }
            }
        }
        added
    }

    /// Removes a hash; returns whether it was listed.
    pub fn remove(&mut self, h: &InfoHash) -> (removed: bool)
        requires
            old(self).wf(),
        ensures
            final(self).wf(),
            removed == has_hash(old(self).hashes@, h@),
            !has_hash(final(self).hashes@, h@),
            forall|g: Seq<u8>|
                g != h@ ==> #[trigger] has_hash(final(self).hashes@, g) == has_hash(old(self).hashes@, g),
    {
        let ghost s = self.hashes@;
        match find_hash(&self.hashes, h) {
            None => false,
            Some(k) => {
                self.hashes.remove(k);
                assert forall|i: int, j: int|
                    0 <= i < self.hashes@.len() && 0 <= j < self.hashes@.len() && (
                    #[trigger] self.hashes@[i])@ == (#[trigger] self.hashes@[j])@ implies i == j by {
                    let i2 = if i < k { i } else { i + 1 };
                    let j2 = if j < k { j } else { j + 1 };
                    assert(s[i2]@ == s[j2]@);
                }
                assert(s[k as int]@ == h@);
                assert forall|g: Seq<u8>| #[trigger] has_hash(self.hashes@, g) == (has_hash(s, g) && g != h@) by {
                    if has_hash(s, g) && g != h@ {
                        let x = choose|x: int| 0 <= x < s.len() && (#[trigger] s[x])@ == g;
                        let y = if x < k { x } else { x - 1 };
                        assert(x != k);
                        assert(self.hashes@[y] == s[x]);
                    }
                    if has_hash(self.hashes@, g) {
                        let y = choose|y: int| 0 <= y < self.hashes@.len() && (#[trigger] self.hashes@[y])@ == g;
                        let x = if y < k { y } else { y + 1 };
                        assert(self.hashes@[y] == s[x]);
                        assert(x != k);
                    }
                }
                true
            },
        }
    }

    /// Replaces the list with the hashes loaded from storage.
    pub fn reload(&mut self, loaded: &Vec<InfoHash>)
        ensures
            final(self).wf(),
            forall|g: Seq<u8>| #[trigger] has_hash(final(self).hashes@, g) == has_hash(loaded@, g),
    {
        let mut fresh = Whitelist::new();
        let mut i: usize = 0;
        while i < loaded.len()
            invariant
                i <= loaded@.len(),
                fresh.wf(),
                forall|g: Seq<u8>| #[trigger] has_hash(fresh.hashes@, g) == has_hash(loaded@.take(i as int), g),
            decreases loaded@.len() - i,
        {
            fresh.add(loaded[i]);
            assert forall|g: Seq<u8>| #[trigger] has_hash(fresh.hashes@, g) == has_hash(loaded@.take(i + 1), g) by {
                let t = loaded@.take(i as int);
                let t1 = loaded@.take(i + 1);
                assert(t1[i as int] == loaded@[i as int]);
                if has_hash(t, g) {
                    let k = choose|k: int| 0 <= k < t.len() && (#[trigger] t[k])@ == g;
                    assert(t1[k] == t[k]);
                }
                if has_hash(t1, g) {
                    let k = choose|k: int| 0 <= k < t1.len() && (#[trigger] t1[k])@ == g;
                    if k < i {
                        assert(t1[k] == t[k]);
                    }
                }
            }
            i = i + 1;
        }
        assert(loaded@.take(i as int) =~= loaded@);
        self.hashes = fresh.hashes;
    }
}

/// The bytes of an optional key.
pub open spec fn key_view(key: Option<&[u8]>) -> Option<Seq<u8>> {
    match key {
        Some(k) => Some(k@),
        None => None,
    }
}

/// Settings of the tracker facade.
#[derive(Clone, Copy, Debug)]
pub struct TrackerConfig {
    pub mode: TrackerMode,
    /// Seconds advertised to peers between announces.
    pub announce_interval: u32,
    /// Idle time after which a peer is evicted.
    pub max_peer_timeout: u64,
    /// Whether swarms left without peers are dropped by the cleanup.
    pub remove_peerless_torrents: bool,
}

/// What an accepted announce returns.
#[derive(Debug)]
pub struct AnnounceData {
    pub peers: Vec<Peer>,
    pub stats: SwarmStats,
    pub interval: u32,
    /// The announce counted as a new completion: the counter is due to be saved.
    pub completed_now: bool,
}

/// Why a request is refused under `mode`, given the status of its key and
/// whether its info-hash is listed; `None` when it is admitted.
pub open spec fn refusal(mode: TrackerMode, key: Option<KeyStatus>, listed: bool) -> Option<TrackerError> {
    if needs_key(mode) && key != Some(KeyStatus::Valid) {
        if key == Some(KeyStatus::Expired) {
            Some(TrackerError::AuthExpired)
        } else {
            Some(TrackerError::AuthInvalid)
        }
    } else if needs_listing(mode) && !listed {
        Some(TrackerError::NotWhitelisted)
    } else {
        None
    }
}

/// The declared address, with the source IP in place of a missing or "any" IP.
pub open spec fn normalised(declared: Option<IpAddress>, port: u16, source_ip: IpAddress) -> SocketAddress {
    match declared {
        Some(ip) => if ip == IpAddress::V4(0) || ip == IpAddress::V6(0) {
            SocketAddress { ip: source_ip, port }
        } else {
            SocketAddress { ip, port }
        },
        None => SocketAddress { ip: source_ip, port },
    }
}

/// Applies the IP substitution rule to an announced address.
pub fn normalise_address(declared: Option<IpAddress>, port: u16, source_ip: IpAddress) -> (r: SocketAddress)
    ensures
        r == normalised(declared, port, source_ip),
{
    match declared {
        Some(ip) => {
            let any = match ip {
                IpAddress::V4(a) => a == 0,
                IpAddress::V6(a) => a == 0,
            };
            if any {
                SocketAddress { ip: source_ip, port }
            } else {
                SocketAddress { ip, port }
            }
        },
        None => SocketAddress { ip: source_ip, port },
    }
}

/// Decides admission from the mode, the key's status and the listing.
pub fn check_access(mode: TrackerMode, key: Option<KeyStatus>, listed: bool) -> (r: Result<(), TrackerError>)
    ensures
        r is Err <==> refusal(mode, key, listed).is_some(),
        r is Err ==> Some(r->Err_0) == refusal(mode, key, listed),
{
    let keyed = match mode {
        TrackerMode::Private | TrackerMode::PrivateListed => true,
        _ => false,
    };
    let listing = match mode {
        TrackerMode::Listed | TrackerMode::PrivateListed => true,
        _ => false,
    };
    if keyed {
        match key {
            Some(KeyStatus::Valid) => {},
            Some(KeyStatus::Expired) => return Err(TrackerError::AuthExpired),
            _ => return Err(TrackerError::AuthInvalid),
        }
    }
    if listing && !listed {
        return Err(TrackerError::NotWhitelisted);
    }
    Ok(())
}

/// The record stored for an announce of `peer` received from `source_ip` at `now`.
pub open spec fn stored_peer(peer: Peer, source_ip: IpAddress, now: u64) -> Peer {
    Peer {
        address: normalised(Some(peer.address.ip), peer.address.port, source_ip),
        updated_at: now,
        ..peer
    }
}

/// The first time that is not idle at `now` for a timeout of `timeout` seconds.
pub open spec fn idle_cutoff(now: u64, timeout: u64) -> u64 {
    if now >= timeout {
        (now - timeout) as u64
    } else {
        0
    }
}

/// What a scrape reports for `h`: zeros when the request is refused for it,
/// else the swarm's counters (zeros for an unknown swarm).
pub open spec fn scrape_entry(t: Tracker, h: Seq<u8>, key: Option<Seq<u8>>, now: u64) -> SwarmStats {
    if t.refusal_of(h, key, now).is_some() {
        SwarmStats { seeders: 0, completed: 0, leechers: 0 }
    } else {
        let p = t.torrents.peers_of(h);
        SwarmStats {
            seeders: seeders_of(p) as u32,
            completed: t.torrents.completed_of(h),
            leechers: (p.len() - seeders_of(p)) as u32,
        }
    }
}

/// The swarms of a well-formed repository hold at most `u32::MAX` peers.
pub proof fn lemma_peers_of_bounded(r: TorrentRepository, h: Seq<u8>)
    requires
        r.wf(),
    ensures
        r.peers_of(h).len() <= u32::MAX,
{
    if has_hash(r.hashes@, h) {
        let k = hash_index(r.hashes@, h);
        assert(r.hashes@[k]@ == h);
        assert(r.swarms@[k].wf());
    }
}

/// The tracker facade: access control in front of the torrent repository.
pub struct Tracker {
    pub config: TrackerConfig,
    pub keys: KeyStore,
    pub whitelist: Whitelist,
    pub torrents: TorrentRepository,
}

impl Tracker {
    pub open spec fn wf(&self) -> bool {
        self.keys.wf() && self.whitelist.wf() && self.torrents.wf()
    }

    /// The status of an optional key at time `now`.
    pub open spec fn key_status(&self, key: Option<Seq<u8>>, now: u64) -> Option<KeyStatus> {
        match key {
            Some(k) => Some(status_of(self.keys.keys@, k, now)),
            None => None,
        }
    }

    /// Why a request for `h` with `key` at `now` is refused, if it is.
    pub open spec fn refusal_of(&self, h: Seq<u8>, key: Option<Seq<u8>>, now: u64) -> Option<TrackerError> {
        refusal(self.config.mode, self.key_status(key, now), has_hash(self.whitelist.hashes@, h))
    }

    pub fn new(config: TrackerConfig) -> (r: Tracker)
        ensures
            r.wf(),
            r.config == config,
            r.torrents.hashes@.len() == 0,
            r.keys.keys@.len() == 0,
            r.whitelist.hashes@.len() == 0,
    {
        Tracker {
            config,
            keys: KeyStore::new(),
            whitelist: Whitelist::new(),
            torrents: TorrentRepository::new(),
        }
    }

    /// Checks the key (in the private modes) and the listing (in the listed modes).
    pub fn authorize(&self, h: &InfoHash, key: Option<&[u8]>, now: u64) -> (r: Result<(), TrackerError>)
        requires
            self.wf(),
        ensures
            r is Err <==> self.refusal_of(h@, key_view(key), now).is_some(),
            r is Err ==> Some(r->Err_0) == self.refusal_of(h@, key_view(key), now),
    {
        let status = match key {
            Some(k) => Some(self.keys.verify(k, now)),
            None => None,
        };
        let listed = self.whitelist.is_whitelisted(h);
        check_access(self.config.mode, status, listed)
    }

    /// Handles an announce: checks access, stores the peer (with the source IP
    /// in place of a missing declared IP, observed at `now`), and returns up to
    /// `limit` other peers of the swarm with its counters. A refused announce
    /// changes nothing.
    pub fn announce(
        &mut self,
        h: &InfoHash,
        peer: Peer,
        source_ip: IpAddress,
        key: Option<&[u8]>,
        now: u64,
        limit: usize,
    ) -> (r: Result<AnnounceData, TrackerError>)
        requires
            old(self).wf(),
            old(self).torrents.peers_of(h@).len() < u32::MAX,
        ensures
            final(self).wf(),
            final(self).config == old(self).config,
            r is Err <==> old(self).refusal_of(h@, key_view(key), now).is_some(),
            r is Err ==> Some(r->Err_0) == old(self).refusal_of(h@, key_view(key), now),
            r is Err ==> *final(self) == *old(self),
            r is Ok ==> ({
                let d = r->Ok_0;
                let before = old(self).torrents.peers_of(h@);
                let after = final(self).torrents.peers_of(h@);
                let stored = stored_peer(peer, source_ip, now);
                let others = eligible(after, Some(peer.peer_id@));
                &&& after == peers_after(before, stored)
                &&& d.completed_now == counts_completion(before, stored)
                &&& final(self).torrents.completed_of(h@) == if d.completed_now {
                    bumped(old(self).torrents.completed_of(h@))
                } else {
                    old(self).torrents.completed_of(h@)
                }
                &&& d.stats.seeders == seeders_of(after)
                &&& d.stats.leechers == after.len() - seeders_of(after)
                &&& d.stats.completed == final(self).torrents.completed_of(h@)
                &&& d.interval == old(self).config.announce_interval
                &&& d.peers@ == rotated(others, rotation_start(now as usize, others.len())).take(
                    d.peers@.len() as int,
                )
                &&& d.peers@.len() == if limit < others.len() {
                    limit as int
                } else {
                    others.len() as int
                }
            }),
    {
        match self.authorize(h, key, now) {
            Err(e) => return Err(e),
            Ok(()) => {},
        }
        let address = normalise_address(Some(peer.address.ip), peer.address.port, source_ip);
        let stored = Peer {
            peer_id: peer.peer_id,
            address,
            uploaded: peer.uploaded,
            downloaded: peer.downloaded,
            left: peer.left,
            event: peer.event,
            updated_at: now,
        };
        assert(stored == stored_peer(peer, source_ip, now));
        let (stats, completed_now) = self.torrents.update_peer(h, stored);
        let peers = self.torrents.get_peers(h, Some(peer.peer_id), limit, now as usize);
        Ok(AnnounceData { peers, stats, interval: self.config.announce_interval, completed_now })
    }

    /// Counters for each requested hash, in order. A hash for which the request
    /// is refused (bad key, or not listed) reports zeros, as an unknown one does.
    pub fn scrape(&self, hs: &Vec<InfoHash>, key: Option<&[u8]>, now: u64) -> (r: Vec<SwarmStats>)
        requires
            self.wf(),
        ensures
            r@.len() == hs@.len(),
            forall|i: int|
                0 <= i < hs@.len() ==> if self.refusal_of(hs@[i]@, key_view(key), now).is_some() {
                    #[trigger] r@[i] == SwarmStats { seeders: 0, completed: 0, leechers: 0 }
                } else {
                    &&& r@[i].seeders == seeders_of(self.torrents.peers_of(hs@[i]@))
                    &&& r@[i].leechers == self.torrents.peers_of(hs@[i]@).len() - seeders_of(
                        self.torrents.peers_of(hs@[i]@),
                    )
                    &&& r@[i].completed == self.torrents.completed_of(hs@[i]@)
                },
            forall|i: int| 0 <= i < hs@.len() ==> #[trigger] r@[i] == scrape_entry(*self, hs@[i]@, key_view(key), now),
    {
        let mut out: Vec<SwarmStats> = Vec::new();
        let mut i: usize = 0;
        while i < hs.len()
            invariant
                i <= hs@.len(),
                self.wf(),
                out@.len() == i,
                forall|j: int|
                    0 <= j < i ==> if self.refusal_of(hs@[j]@, key_view(key), now).is_some() {
                        #[trigger] out@[j] == SwarmStats { seeders: 0, completed: 0, leechers: 0 }
                    } else {
                        &&& out@[j].seeders == seeders_of(self.torrents.peers_of(hs@[j]@))
                        &&& out@[j].leechers == self.torrents.peers_of(hs@[j]@).len() - seeders_of(
                            self.torrents.peers_of(hs@[j]@),
                        )
                        &&& out@[j].completed == self.torrents.completed_of(hs@[j]@)
                    },
            decreases hs@.len() - i,
        {
            let st = match self.authorize(&hs[i], key, now) {
                Ok(()) => self.torrents.stats_of(&hs[i]),
                Err(_) => SwarmStats { seeders: 0, completed: 0, leechers: 0 },
            };
            out.push(st);
            i = i + 1;
        }
        assert forall|i: int| 0 <= i < hs@.len() implies #[trigger] out@[i] == scrape_entry(*self, hs@[i]@, key_view(key), now) by {
            lemma_peers_of_bounded(self.torrents, hs@[i]@);
            lemma_seeders_le_len(self.torrents.peers_of(hs@[i]@));
        }
        out
    }

    /// Evicts the peers idle for longer than the configured timeout and, if so
    /// configured, the swarms left without peers.
    pub fn cleanup(&mut self, now: u64)
        requires
            old(self).wf(),
        ensures
            final(self).wf(),
            final(self).config == old(self).config,
            forall|g: Seq<u8>|
                #[trigger] final(self).torrents.peers_of(g) == active_since(
                    old(self).torrents.peers_of(g),
                    idle_cutoff(now, old(self).config.max_peer_timeout),
                ),
            forall|g: Seq<u8>, i: int|
                0 <= i < final(self).torrents.peers_of(g).len()
                    ==> (#[trigger] final(self).torrents.peers_of(g)[i]).updated_at
                    >= now - old(self).config.max_peer_timeout,
    {
        let cutoff = now.saturating_sub(self.config.max_peer_timeout);
        self.torrents.cleanup(cutoff, self.config.remove_peerless_torrents);
        assert forall|g: Seq<u8>, i: int|
            0 <= i < self.torrents.peers_of(g).len() implies (
            #[trigger] self.torrents.peers_of(g)[i]).updated_at >= now - old(
                self,
            ).config.max_peer_timeout by {
            lemma_active_since_facts(old(self).torrents.peers_of(g), cutoff);
        }
    }
}

} // verus!

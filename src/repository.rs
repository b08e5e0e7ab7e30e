use vstd::prelude::*;

use crate::info_hash::{InfoHash, PeerId};
use crate::swarm::{
    active_since, bumped, counts_completion, eligible, opt_id, peers_after, rotated, rotation_start, seeders_of,
    Peer, SwarmEntry, SwarmStats,
};

verus! {

pub open spec fn has_hash(hs: Seq<InfoHash>, h: Seq<u8>) -> bool {
    exists|k: int| 0 <= k < hs.len() && (#[trigger] hs[k])@ == h
}

pub open spec fn hash_index(hs: Seq<InfoHash>, h: Seq<u8>) -> int {
    choose|k: int| 0 <= k < hs.len() && (#[trigger] hs[k])@ == h
}

pub open spec fn unique_hashes(hs: Seq<InfoHash>) -> bool {
    forall|i: int, j: int|
        0 <= i < hs.len() && 0 <= j < hs.len() && (#[trigger] hs[i])@ == (#[trigger] hs[j])@ ==> i
            == j
}

/// In a list of distinct hashes the hash at `k` is found at `k`.
pub proof fn lemma_index_of(hs: Seq<InfoHash>, k: int)
    requires
        unique_hashes(hs),
        0 <= k < hs.len(),
    ensures
        has_hash(hs, hs[k]@),
        hash_index(hs, hs[k]@) == k,
{
    assert(hs[k]@ == hs[k]@);
    let j = hash_index(hs, hs[k]@);
    assert(0 <= j < hs.len() && hs[j]@ == hs[k]@);
}

/// Position of an info-hash in a list of distinct hashes, if present.
pub fn find_hash(hs: &Vec<InfoHash>, h: &InfoHash) -> (r: Option<usize>)
    requires
        unique_hashes(hs@),
    ensures
        r.is_some() == has_hash(hs@, h@),
        r.is_some() ==> r.unwrap() == hash_index(hs@, h@),
{
    let mut i: usize = 0;
    while i < hs.len()
        invariant
            i <= hs@.len(),
            unique_hashes(hs@),
            forall|j: int| 0 <= j < i ==> (#[trigger] hs@[j])@ != h@,
        decreases hs@.len() - i,
    {
        if hs[i].equals(h) {
            assert(has_hash(hs@, h@));
            let ghost k = hash_index(hs@, h@);
            assert(0 <= k < hs@.len() && hs@[k]@ == h@);
            assert(hs@[k]@ == hs@[i as int]@);
            return Some(i);
        }
        i = i + 1;
    }
    None
}

/// Adds a hash to a list of distinct hashes unless present; returns whether it was added.
pub fn insert_hash(hs: &mut Vec<InfoHash>, h: InfoHash) -> (added: bool)
    requires
        unique_hashes(old(hs)@),
    ensures
        unique_hashes(final(hs)@),
        added == !has_hash(old(hs)@, h@),
        final(hs)@ == if added {
            old(hs)@.push(h)
        } else {
            old(hs)@
        },
{
    let ghost s = hs@;
    if find_hash(hs, &h).is_some() {
        return false;
    }
    hs.push(h);
    assert forall|i: int, j: int|
        0 <= i < hs@.len() && 0 <= j < hs@.len() && (#[trigger] hs@[i])@ == (#[trigger] hs@[j])@ implies i
        == j by {
        if i < s.len() && j == s.len() {
            assert(s[i]@ == h@);
        } else if j < s.len() && i == s.len() {
            assert(s[j]@ == h@);
        }
    }
    true
}

/// The live swarms, one entry per info-hash: `hashes[k]` names `swarms[k]`.
pub struct TorrentRepository {
    pub hashes: Vec<InfoHash>,
    pub swarms: Vec<SwarmEntry>,
}

impl TorrentRepository {
    pub open spec fn wf(&self) -> bool {
        &&& self.hashes@.len() == self.swarms@.len()
        &&& unique_hashes(self.hashes@)
        &&& forall|k: int| 0 <= k < self.swarms@.len() ==> (#[trigger] self.swarms@[k]).wf()
    }

    /// The peers of the swarm of `h`; empty when it is unknown.
    pub open spec fn peers_of(&self, h: Seq<u8>) -> Seq<Peer> {
        if has_hash(self.hashes@, h) {
            self.swarms@[hash_index(self.hashes@, h)].peers@
        } else {
            Seq::empty()
        }
    }

    /// The completion counter of the swarm of `h`; zero when it is unknown.
    pub open spec fn completed_of(&self, h: Seq<u8>) -> u32 {
        if has_hash(self.hashes@, h) {
            self.swarms@[hash_index(self.hashes@, h)].completed
        } else {
            0
        }
    }

    pub fn new() -> (r: TorrentRepository)
        ensures
            r.wf(),
            r.hashes@.len() == 0,
    {
        TorrentRepository { hashes: Vec::new(), swarms: Vec::new() }
    }

    /// One page of the swarms, in stored order: at most `limit` of them,
    /// starting at position `offset`, each with its counters.
    pub fn get_torrents(&self, offset: usize, limit: usize) -> (r: Vec<(InfoHash, SwarmStats)>)
        requires
            self.wf(),
        ensures
            r@.len() == if offset >= self.hashes@.len() {
                0
            } else if limit < self.hashes@.len() - offset {
                limit as int
            } else {
                self.hashes@.len() - offset
            },
            forall|i: int|
                0 <= i < r@.len() ==> {
                    &&& (#[trigger] r@[i]).0 == self.hashes@[offset + i]
                    &&& r@[i].1.seeders == seeders_of(self.swarms@[offset + i].peers@)
                    &&& r@[i].1.leechers == self.swarms@[offset + i].peers@.len() - seeders_of(
                        self.swarms@[offset + i].peers@,
                    )
                    &&& r@[i].1.completed == self.swarms@[offset + i].completed
                },
    {
        let mut out: Vec<(InfoHash, SwarmStats)> = Vec::new();
        let n = self.hashes.len();
        if offset >= n {
            return out;
        }
        let mut i: usize = 0;
        while i < limit && i < n - offset
            invariant
                self.wf(),
                n == self.hashes@.len(),
                offset < n,
                i <= limit,
                i <= n - offset,
                out@.len() == i,
                forall|j: int|
                    0 <= j < i ==> {
                        &&& (#[trigger] out@[j]).0 == self.hashes@[offset + j]
                        &&& out@[j].1.seeders == seeders_of(self.swarms@[offset + j].peers@)
                        &&& out@[j].1.leechers == self.swarms@[offset + j].peers@.len() - seeders_of(
                            self.swarms@[offset + j].peers@,
                        )
                        &&& out@[j].1.completed == self.swarms@[offset + j].completed
                    },
            decreases n - offset - i,
        {
            let k = offset + i;
            out.push((self.hashes[k], self.swarms[k].stats()));
            i = i + 1;
        }
        out
    }

    /// Number of peers in the swarm of `h`; zero when it is unknown.
    pub fn peer_count(&self, h: &InfoHash) -> (r: usize)
        requires
            self.wf(),
        ensures
            r == self.peers_of(h@).len(),
    {
        match find_hash(&self.hashes, h) {
            Some(k) => self.swarms[k].peers.len(),
            None => 0,
        }
    }

    /// Counters of the swarm of `h`; zeros when it is unknown.
    pub fn stats_of(&self, h: &InfoHash) -> (r: SwarmStats)
        requires
            self.wf(),
        ensures
            r.seeders == seeders_of(self.peers_of(h@)),
            r.leechers == self.peers_of(h@).len() - seeders_of(self.peers_of(h@)),
            r.completed == self.completed_of(h@),
    {
        match find_hash(&self.hashes, h) {
            Some(k) => self.swarms[k].stats(),
            None => SwarmStats { seeders: 0, completed: 0, leechers: 0 },
        }
    }

    /// Sets the completion counter of a swarm, as loaded from storage at startup;
    /// creates the swarm when it is unknown.
    pub fn load_completed(&mut self, h: &InfoHash, completed: u32)
        requires
            old(self).wf(),
        ensures
            final(self).wf(),
            has_hash(final(self).hashes@, h@),
            final(self).completed_of(h@) == completed,
            final(self).peers_of(h@) == old(self).peers_of(h@),
            forall|g: Seq<u8>| g != h@ ==> #[trigger] final(self).peers_of(g) == old(self).peers_of(g),
            forall|g: Seq<u8>|
                g != h@ ==> #[trigger] final(self).completed_of(g) == old(self).completed_of(g),
    {
        let ghost k0 = if has_hash(self.hashes@, h@) { hash_index(self.hashes@, h@) } else { self.hashes@.len() as int };
        match find_hash(&self.hashes, h) {
            Some(k) => {
                proof {
                    lemma_index_of(self.hashes@, k as int);
                }
                let mut e = self.swarms.remove(k);
                e.completed = completed;
                self.swarms.insert(k, e);
                assert(self.swarms@ =~= old(self).swarms@.update(k as int, e));
            },
            None => {
                let k = self.push_swarm(h, completed);
                proof {
                    lemma_index_of(self.hashes@, k as int);
                }
            },
        }
        proof {
            lemma_index_of(self.hashes@, k0);
            assert forall|g: Seq<u8>| g != h@ implies self.peers_of(g) == old(self).peers_of(g)
                && self.completed_of(g) == old(self).completed_of(g) by {
                if has_hash(old(self).hashes@, g) {
                    let j = hash_index(old(self).hashes@, g);
                    lemma_index_of(old(self).hashes@, j);
                    assert(self.hashes@[j] == old(self).hashes@[j]);
                    lemma_index_of(self.hashes@, j);
                    assert(j != k0);
                    assert(self.swarms@[j] == old(self).swarms@[j]);
                } else {
                    assert forall|j: int| 0 <= j < self.hashes@.len() implies (
                    #[trigger] self.hashes@[j])@ != g by {
                        if j < old(self).hashes@.len() {
                            assert(self.hashes@[j] == old(self).hashes@[j]);
                        }
                    }
                }
            }
            assert forall|g: Seq<u8>| g != h@ implies #[trigger] self.peers_of(g) == old(self).peers_of(g) by {}
            assert forall|g: Seq<u8>| g != h@ implies #[trigger] self.completed_of(g) == old(self).completed_of(g) by {}
        }
    }

    /// Records an announce of `peer` on the swarm of `h`, creating the swarm
    /// on its first announce. Returns the swarm's counters after the update
    /// and whether the announce counted as a new completion.
    pub fn update_peer(&mut self, h: &InfoHash, peer: Peer) -> (r: (SwarmStats, bool))
        requires
            old(self).wf(),
            old(self).peers_of(h@).len() < u32::MAX,
        ensures
            final(self).wf(),
            has_hash(final(self).hashes@, h@),
            final(self).peers_of(h@) == peers_after(old(self).peers_of(h@), peer),
            r.1 == counts_completion(old(self).peers_of(h@), peer),
            final(self).completed_of(h@) == if r.1 {
                bumped(old(self).completed_of(h@))
            } else {
                old(self).completed_of(h@)
            },
            r.0.seeders == seeders_of(final(self).peers_of(h@)),
            r.0.leechers == final(self).peers_of(h@).len() - seeders_of(final(self).peers_of(h@)),
            r.0.completed == final(self).completed_of(h@),
            forall|g: Seq<u8>| g != h@ ==> #[trigger] final(self).peers_of(g) == old(self).peers_of(g),
            forall|g: Seq<u8>|
                g != h@ ==> #[trigger] final(self).completed_of(g) == old(self).completed_of(g),
    {
        let k = match find_hash(&self.hashes, h) {
            Some(k) => k,
            None => self.push_swarm(h, 0),
        };
        let ghost mid = *self;
        proof {
            lemma_index_of(self.hashes@, k as int);
        }
        let mut e = self.swarms.remove(k);
        let d = e.update_peer(peer);
        let st = e.stats();
        self.swarms.insert(k, e);
        assert(self.swarms@ =~= mid.swarms@.update(k as int, e));
        proof {
            assert forall|g: Seq<u8>| g != h@ implies self.peers_of(g) == old(self).peers_of(g)
                && self.completed_of(g) == old(self).completed_of(g) by {
                if has_hash(old(self).hashes@, g) {
                    let j = hash_index(old(self).hashes@, g);
                    lemma_index_of(old(self).hashes@, j);
                    assert(self.hashes@[j] == old(self).hashes@[j]);
                    lemma_index_of(self.hashes@, j);
                    assert(j != k);
                    assert(j < mid.swarms@.len());
                    assert(mid.swarms@[j] == old(self).swarms@[j]);
                    assert(self.swarms@[j] == mid.swarms@[j]);
                } else {
                    assert forall|j: int| 0 <= j < self.hashes@.len() implies (
                    #[trigger] self.hashes@[j])@ != g by {
                        if j < old(self).hashes@.len() {
                            assert(self.hashes@[j] == old(self).hashes@[j]);
                        }
                    }
                }
            }
            assert forall|g: Seq<u8>| g != h@ implies #[trigger] self.peers_of(g) == old(self).peers_of(g) by {}
            assert forall|g: Seq<u8>| g != h@ implies #[trigger] self.completed_of(g) == old(self).completed_of(g) by {}
        }
        (st, d)
    }

    /// Up to `limit` peers of the swarm of `h`, leaving out `exclude`; empty
    /// when the swarm is unknown.
    pub fn get_peers(&self, h: &InfoHash, exclude: Option<PeerId>, limit: usize, start: usize) -> (r: Vec<Peer>)
        requires
            self.wf(),
        ensures
            r@ == rotated(
                eligible(self.peers_of(h@), opt_id(exclude)),
                rotation_start(start, eligible(self.peers_of(h@), opt_id(exclude)).len()),
            ).take(r@.len() as int),
            r@.len() == if limit < eligible(self.peers_of(h@), opt_id(exclude)).len() {
                limit as int
            } else {
                eligible(self.peers_of(h@), opt_id(exclude)).len() as int
            },
            r@.len() <= limit,
            forall|i: int| 0 <= i < r@.len() ==> opt_id(exclude) != Some((#[trigger] r@[i]).peer_id@),
    {
        match find_hash(&self.hashes, h) {
            Some(k) => self.swarms[k].get_peers(exclude, limit, start),
            None => Vec::new(),
        }
    }

    /// Counters for each of the given hashes, in order; zeros for unknown ones.
    pub fn scrape(&self, hs: &Vec<InfoHash>) -> (r: Vec<SwarmStats>)
        requires
            self.wf(),
        ensures
            r@.len() == hs@.len(),
            forall|i: int|
                0 <= i < hs@.len() ==> {
                    &&& (#[trigger] r@[i]).seeders == seeders_of(self.peers_of(hs@[i]@))
                    &&& r@[i].leechers == self.peers_of(hs@[i]@).len() - seeders_of(
                        self.peers_of(hs@[i]@),
                    )
                    &&& r@[i].completed == self.completed_of(hs@[i]@)
                },
    {
        let mut out: Vec<SwarmStats> = Vec::new();
        let mut i: usize = 0;
        while i < hs.len()
            invariant
                i <= hs@.len(),
                self.wf(),
                out@.len() == i,
                forall|j: int|
                    0 <= j < i ==> {
                        &&& (#[trigger] out@[j]).seeders == seeders_of(self.peers_of(hs@[j]@))
                        &&& out@[j].leechers == self.peers_of(hs@[j]@).len() - seeders_of(
                            self.peers_of(hs@[j]@),
                        )
                        &&& out@[j].completed == self.completed_of(hs@[j]@)
                    },
            decreases hs@.len() - i,
        {
            out.push(self.stats_of(&hs[i]));
            i = i + 1;
        }
        out
    }

    /// Evicts from every swarm the peers last observed before `cutoff`.
    pub fn remove_inactive_peers(&mut self, cutoff: u64)
        requires
            old(self).wf(),
        ensures
            final(self).wf(),
            final(self).hashes@ == old(self).hashes@,
            forall|g: Seq<u8>|
                #[trigger] final(self).peers_of(g) == active_since(old(self).peers_of(g), cutoff)
                    && final(self).completed_of(g) == old(self).completed_of(g),
    {
        let mut k: usize = 0;
        while k < self.swarms.len()
            invariant
                k <= self.swarms@.len(),
                self.wf(),
                self.hashes@ == old(self).hashes@,
                self.swarms@.len() == old(self).swarms@.len(),
                forall|j: int|
                    0 <= j < k ==> (#[trigger] self.swarms@[j]).peers@ == active_since(
                        old(self).swarms@[j].peers@,
                        cutoff,
                    ) && self.swarms@[j].completed == old(self).swarms@[j].completed,
                forall|j: int| k <= j < self.swarms@.len() ==> #[trigger] self.swarms@[j] == old(
                    self,
                ).swarms@[j],
            decreases self.swarms@.len() - k,
        {
            let ghost before = self.swarms@;
            let mut e = self.swarms.remove(k);
            e.remove_inactive(cutoff);
            self.swarms.insert(k, e);
            assert(self.swarms@ =~= before.update(k as int, e));
            k = k + 1;
        }
        assert forall|g: Seq<u8>|
            #[trigger] self.peers_of(g) == active_since(old(self).peers_of(g), cutoff)
                && self.completed_of(g) == old(self).completed_of(g) by {
            if !has_hash(self.hashes@, g) {
                assert(active_since(Seq::<Peer>::empty(), cutoff) == Seq::<Peer>::empty());
            }
        }
    }

    /// Drops the swarms that have no peers left.
    pub fn remove_peerless_torrents(&mut self)
        requires
            old(self).wf(),
        ensures
            final(self).wf(),
            forall|g: Seq<u8>|
                #[trigger] has_hash(final(self).hashes@, g) == (has_hash(old(self).hashes@, g)
                    && old(self).peers_of(g).len() > 0),
            forall|g: Seq<u8>| #[trigger] final(self).peers_of(g) == old(self).peers_of(g),
            forall|g: Seq<u8>|
                has_hash(final(self).hashes@, g) ==> #[trigger] final(self).completed_of(g) == old(
                    self,
                ).completed_of(g),
    {
        let ghost oh = self.hashes@;
        let ghost os = self.swarms@;
        let n = self.hashes.len();
        let mut hs: Vec<InfoHash> = Vec::new();
        let mut ss: Vec<SwarmEntry> = Vec::new();
        let mut i: usize = 0;
        while self.swarms.len() > 0
            invariant
                i <= oh.len(),
                oh.len() == n,
                oh.len() == os.len(),
                unique_hashes(oh),
                self.hashes@ == oh.skip(i as int),
                self.swarms@ == os.skip(i as int),
                kept_prefix(oh, os, hs@, ss@, i as int),
            decreases self.swarms@.len(),
        {
            assert(self.swarms@.len() == os.len() - i);
            let h = self.hashes.remove(0);
            let e = self.swarms.remove(0);
            assert(oh.skip(i as int).skip(1) =~= oh.skip(i + 1));
            assert(os.skip(i as int).skip(1) =~= os.skip(i + 1));
            let ghost hb = hs@;
            let ghost sb = ss@;
            if e.peers.len() > 0 {
                hs.push(h);
                ss.push(e);
            }
            proof {
                lemma_kept_step(oh, os, hb, sb, i as int);
            }
            i = i + 1;
        }
        assert(i == oh.len());
        self.hashes = hs;
        self.swarms = ss;
        proof {
            lemma_kept_all(oh, os, self.hashes@, self.swarms@, *old(self));
            assert forall|g: Seq<u8>| #[trigger] self.peers_of(g) == old(self).peers_of(g) by {
                if !has_hash(self.hashes@, g) && has_hash(oh, g) {
                    assert(old(self).peers_of(g) =~= Seq::<Peer>::empty());
                }
            }
        }
    }

    /// Evicts the peers last observed before `cutoff` and, when
    /// `remove_peerless` is set, the swarms left without peers.
    pub fn cleanup(&mut self, cutoff: u64, remove_peerless: bool)
        requires
            old(self).wf(),
        ensures
            final(self).wf(),
            forall|g: Seq<u8>|
                #[trigger] final(self).peers_of(g) == active_since(old(self).peers_of(g), cutoff),
            forall|g: Seq<u8>|
                #[trigger] has_hash(final(self).hashes@, g) == (has_hash(old(self).hashes@, g) && (
                !remove_peerless || active_since(old(self).peers_of(g), cutoff).len() > 0)),
            forall|g: Seq<u8>|
                has_hash(final(self).hashes@, g) ==> #[trigger] final(self).completed_of(g) == old(
                    self,
                ).completed_of(g),
    {
        self.remove_inactive_peers(cutoff);
        let ghost mid = *self;
        if remove_peerless {
            self.remove_peerless_torrents();
        }
        assert forall|g: Seq<u8>|
            #[trigger] self.peers_of(g) == active_since(old(self).peers_of(g), cutoff) && has_hash(
                self.hashes@,
                g,
            ) == (has_hash(old(self).hashes@, g) && (!remove_peerless || active_since(
                old(self).peers_of(g),
                cutoff,
            ).len() > 0)) && (has_hash(self.hashes@, g) ==> self.completed_of(g) == old(
                self,
            ).completed_of(g)) by {
            assert(mid.peers_of(g) == active_since(old(self).peers_of(g), cutoff));
            assert(has_hash(mid.hashes@, g) == has_hash(old(self).hashes@, g));
            if remove_peerless {
                assert(has_hash(self.hashes@, g) == (has_hash(mid.hashes@, g) && mid.peers_of(g).len() > 0));
                assert(self.peers_of(g) == mid.peers_of(g));
            }
        }
        assert forall|g: Seq<u8>|
            has_hash(self.hashes@, g) implies #[trigger] self.completed_of(g) == old(self).completed_of(g) by {
            assert(mid.peers_of(g) == active_since(old(self).peers_of(g), cutoff));
            assert(self.peers_of(g) == active_since(old(self).peers_of(g), cutoff));
        }
    }

    /// Appends an empty swarm for a hash that is not yet known; returns its position.
    fn push_swarm(&mut self, h: &InfoHash, completed: u32) -> (k: usize)
        requires
            old(self).wf(),
            !has_hash(old(self).hashes@, h@),
        ensures
            final(self).wf(),
            k == old(self).hashes@.len(),
            final(self).hashes@ == old(self).hashes@.push(*h),
            final(self).swarms@.len() == old(self).swarms@.len() + 1,
            forall|j: int| 0 <= j < k ==> #[trigger] final(self).swarms@[j] == old(self).swarms@[j],
            final(self).swarms@[k as int].peers@.len() == 0,
            final(self).swarms@[k as int].completed == completed,
    {
        let ghost s = self.hashes@;
        let k = self.hashes.len();
        self.hashes.push(*h);
        self.swarms.push(SwarmEntry::new(completed));
        assert forall|i: int, j: int|
            0 <= i < self.hashes@.len() && 0 <= j < self.hashes@.len() && (
            #[trigger] self.hashes@[i])@ == (#[trigger] self.hashes@[j])@ implies i == j by {
            if i < s.len() && j == s.len() {
                assert(s[i]@ == h@);
            } else if j < s.len() && i == s.len() {
                assert(s[j]@ == h@);
            }
        }
        k
    }
}

/// `h` and `e` stand at some position below `n` of `oh`/`os`, with peers.
pub open spec fn from_source(oh: Seq<InfoHash>, os: Seq<SwarmEntry>, h: InfoHash, e: SwarmEntry, n: int) -> bool {
    exists|x: int| 0 <= x < n && oh[x] == h && os[x] == e && os[x].peers@.len() > 0
}

/// `h` and `e` stand at one position of `hs`/`ss`.
pub open spec fn kept_at(hs: Seq<InfoHash>, ss: Seq<SwarmEntry>, h: InfoHash, e: SwarmEntry) -> bool {
    exists|j: int| 0 <= j < hs.len() && hs[j] == h && ss[j] == e
}

/// The swarms kept from the first `i` of `oh`/`os` are exactly those with peers.
pub open spec fn kept_prefix(
    oh: Seq<InfoHash>,
    os: Seq<SwarmEntry>,
    hs: Seq<InfoHash>,
    ss: Seq<SwarmEntry>,
    i: int,
) -> bool {
    &&& hs.len() == ss.len()
    &&& unique_hashes(hs)
    &&& forall|x: int| 0 <= x < os.len() ==> (#[trigger] os[x]).wf()
    &&& forall|j: int| 0 <= j < hs.len() ==> from_source(oh, os, #[trigger] hs[j], ss[j], i)
    &&& forall|x: int|
        0 <= x < i && os[x].peers@.len() > 0 ==> kept_at(hs, ss, #[trigger] oh[x], os[x])
}

proof fn lemma_kept_step(
    oh: Seq<InfoHash>,
    os: Seq<SwarmEntry>,
    hb: Seq<InfoHash>,
    sb: Seq<SwarmEntry>,
    i: int,
)
    requires
        0 <= i < oh.len(),
        oh.len() == os.len(),
        unique_hashes(oh),
        kept_prefix(oh, os, hb, sb, i),
    ensures
        os[i].peers@.len() > 0 ==> kept_prefix(oh, os, hb.push(oh[i]), sb.push(os[i]), i + 1),
        os[i].peers@.len() == 0 ==> kept_prefix(oh, os, hb, sb, i + 1),
{
    if os[i].peers@.len() > 0 {
        let hs = hb.push(oh[i]);
        let ss = sb.push(os[i]);
        assert forall|a: int, b: int|
            0 <= a < hs.len() && 0 <= b < hs.len() && (#[trigger] hs[a])@ == (#[trigger] hs[b])@ implies a
            == b by {
            if a < hb.len() && b == hb.len() {
                assert(from_source(oh, os, hb[a], sb[a], i));
                let x = choose|x: int| 0 <= x < i && oh[x] == hb[a] && os[x] == sb[a] && os[x].peers@.len() > 0;
                assert(oh[x]@ == oh[i]@);
            } else if b < hb.len() && a == hb.len() {
                assert(from_source(oh, os, hb[b], sb[b], i));
                let x = choose|x: int| 0 <= x < i && oh[x] == hb[b] && os[x] == sb[b] && os[x].peers@.len() > 0;
                assert(oh[x]@ == oh[i]@);
            }
        }
        assert forall|j: int| 0 <= j < hs.len() implies from_source(oh, os, #[trigger] hs[j], ss[j], i + 1) by {
            if j == hb.len() {
                assert(oh[i] == hs[j] && os[i] == ss[j]);
            } else {
                assert(hs[j] == hb[j] && ss[j] == sb[j]);
                assert(from_source(oh, os, hb[j], sb[j], i));
                let x = choose|x: int| 0 <= x < i && oh[x] == hb[j] && os[x] == sb[j] && os[x].peers@.len() > 0;
                assert(0 <= x < i + 1 && oh[x] == hs[j] && os[x] == ss[j]);
            }
        }
        assert forall|x: int| 0 <= x < i + 1 && os[x].peers@.len() > 0 implies kept_at(hs, ss, #[trigger] oh[x], os[x]) by {
            if x == i {
                assert(hs[hb.len() as int] == oh[x] && ss[hb.len() as int] == os[x]);
            } else {
                assert(kept_at(hb, sb, oh[x], os[x]));
                let j = choose|j: int| 0 <= j < hb.len() && hb[j] == oh[x] && sb[j] == os[x];
                assert(hs[j] == oh[x] && ss[j] == os[x]);
            }
        }
    } else {
        assert forall|j: int| 0 <= j < hb.len() implies from_source(oh, os, #[trigger] hb[j], sb[j], i + 1) by {
            assert(from_source(oh, os, hb[j], sb[j], i));
            let x = choose|x: int| 0 <= x < i && oh[x] == hb[j] && os[x] == sb[j] && os[x].peers@.len() > 0;
            assert(0 <= x < i + 1 && oh[x] == hb[j] && os[x] == sb[j]);
        }
        assert forall|x: int| 0 <= x < i + 1 && os[x].peers@.len() > 0 implies kept_at(hb, sb, #[trigger] oh[x], os[x]) by {
            assert(x < i);
        }
    }
}

proof fn lemma_kept_all(
    oh: Seq<InfoHash>,
    os: Seq<SwarmEntry>,
    hs: Seq<InfoHash>,
    ss: Seq<SwarmEntry>,
    r0: TorrentRepository,
)
    requires
        r0.wf(),
        r0.hashes@ == oh,
        r0.swarms@ == os,
        kept_prefix(oh, os, hs, ss, oh.len() as int),
    ensures
        forall|k: int| 0 <= k < ss.len() ==> (#[trigger] ss[k]).wf(),
        forall|g: Seq<u8>|
            #[trigger] has_hash(hs, g) == (has_hash(oh, g) && r0.peers_of(g).len() > 0),
        forall|g: Seq<u8>|
            has_hash(hs, g) ==> #[trigger] ss[hash_index(hs, g)] == os[hash_index(oh, g)],
{
    assert forall|k: int| 0 <= k < ss.len() implies (#[trigger] ss[k]).wf() by {
        assert(from_source(oh, os, hs[k], ss[k], oh.len() as int));
        let x = choose|x: int| 0 <= x < oh.len() && oh[x] == hs[k] && os[x] == ss[k] && os[x].peers@.len() > 0;
    }
    assert forall|g: Seq<u8>|
        #[trigger] has_hash(hs, g) == (has_hash(oh, g) && r0.peers_of(g).len() > 0) && (has_hash(hs, g)
            ==> ss[hash_index(hs, g)] == os[hash_index(oh, g)]) by {
        if has_hash(hs, g) {
            let j = hash_index(hs, g);
            assert(from_source(oh, os, hs[j], ss[j], oh.len() as int));
            let x = choose|x: int| 0 <= x < oh.len() && oh[x] == hs[j] && os[x] == ss[j] && os[x].peers@.len() > 0;
            lemma_index_of(oh, x);
        } else if has_hash(oh, g) {
            let x = hash_index(oh, g);
            lemma_index_of(oh, x);
            if os[x].peers@.len() > 0 {
                assert(kept_at(hs, ss, oh[x], os[x]));
                let j = choose|j: int| 0 <= j < hs.len() && hs[j] == oh[x] && ss[j] == os[x];
                assert(hs[j]@ == g);
            }
        }
    }
}

} // verus!

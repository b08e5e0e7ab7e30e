use vstd::prelude::*;

use crate::info_hash::PeerId;

verus! {

/// What a peer reports about its state in an announce.
#[derive(Clone, Copy, PartialEq, Eq, Structural, Debug)]
pub enum AnnounceEvent {
    Started,
    Stopped,
    Completed,
    Empty,
}

/// An IP address: IPv4 as a `u32`, IPv6 as a `u128`, both in network order.
#[derive(Clone, Copy, PartialEq, Eq, Structural, Debug)]
pub enum IpAddress {
    V4(u32),
    V6(u128),
}

#[derive(Clone, Copy, PartialEq, Eq, Structural, Debug)]
pub struct SocketAddress {
    pub ip: IpAddress,
    pub port: u16,
}

/// One peer of a swarm, as last observed.
#[derive(Clone, Copy, Debug)]
pub struct Peer {
    pub peer_id: PeerId,
    pub address: SocketAddress,
    pub uploaded: u64,
    pub downloaded: u64,
    pub left: u64,
    pub event: AnnounceEvent,
    pub updated_at: u64,
}

/// Counters of one swarm.
#[derive(Clone, Copy, PartialEq, Eq, Structural, Debug)]
pub struct SwarmStats {
    pub seeders: u32,
    pub completed: u32,
    pub leechers: u32,
}

/// The state of one swarm: its peers, keyed by peer id, and its completion counter.
#[derive(Debug)]
pub struct SwarmEntry {
    pub peers: Vec<Peer>,
    pub completed: u32,
}

pub open spec fn unique_ids(s: Seq<Peer>) -> bool {
    forall|i: int, j: int|
        0 <= i < s.len() && 0 <= j < s.len() && (#[trigger] s[i]).peer_id@ == (#[trigger] s[j]).peer_id@
            ==> i == j
}

/// The id to leave out, as bytes.
pub open spec fn opt_id(e: Option<PeerId>) -> Option<Seq<u8>> {
    match e {
        Some(x) => Some(x@),
        None => None,
    }
}

pub open spec fn has_peer(s: Seq<Peer>, id: Seq<u8>) -> bool {
    exists|k: int| 0 <= k < s.len() && (#[trigger] s[k]).peer_id@ == id
}

pub open spec fn peer_index(s: Seq<Peer>, id: Seq<u8>) -> int {
    choose|k: int| 0 <= k < s.len() && (#[trigger] s[k]).peer_id@ == id
}

/// The peers without the one of the given id.
pub open spec fn without_peer(s: Seq<Peer>, id: Seq<u8>) -> Seq<Peer> {
    if has_peer(s, id) {
        s.remove(peer_index(s, id))
    } else {
        s
    }
}

/// Whether announcing `p` to a swarm with peers `s` counts as a new completion:
/// the event is `Completed` and the peer was absent or not stored as completed.
pub open spec fn counts_completion(s: Seq<Peer>, p: Peer) -> bool {
    p.event == AnnounceEvent::Completed && !(has_peer(s, p.peer_id@) && s[peer_index(
        s,
        p.peer_id@,
    )].event == AnnounceEvent::Completed)
}

/// The peers after announcing `p`: a stopped peer leaves, any other is
/// stored in place of its earlier record or added at the end.
pub open spec fn peers_after(s: Seq<Peer>, p: Peer) -> Seq<Peer> {
    if p.event == AnnounceEvent::Stopped {
        without_peer(s, p.peer_id@)
    } else if has_peer(s, p.peer_id@) {
        s.update(peer_index(s, p.peer_id@), p)
    } else {
        s.push(p)
    }
}

/// The completion counter after a new completion: one more, held at `u32::MAX`.
pub open spec fn bumped(c: u32) -> u32 {
    if c < u32::MAX {
        (c + 1) as u32
    } else {
        c
    }
}

/// Number of seeders (peers with nothing left to download).
pub open spec fn seeders_of(s: Seq<Peer>) -> nat
    decreases s.len(),
{
    if s.len() == 0 {
        0
    } else {
        seeders_of(s.drop_last()) + if s.last().left == 0 {
            1nat
        } else {
            0nat
        }
    }
}

/// The peers that may be handed out: all but the excluded id, in order.
pub open spec fn eligible(s: Seq<Peer>, exclude: Option<Seq<u8>>) -> Seq<Peer>
    decreases s.len(),
{
    if s.len() == 0 {
        Seq::empty()
    } else {
        let rest = eligible(s.drop_last(), exclude);
        if exclude == Some(s.last().peer_id@) {
            rest
        } else {
            rest.push(s.last())
        }
    }
}

/// The peers observed at or after `cutoff`, in order.
pub open spec fn active_since(s: Seq<Peer>, cutoff: u64) -> Seq<Peer>
    decreases s.len(),
{
    if s.len() == 0 {
        Seq::empty()
    } else {
        let rest = active_since(s.drop_last(), cutoff);
        if s.last().updated_at >= cutoff {
            rest.push(s.last())
        } else {
            rest
        }
    }
}

pub proof fn lemma_seeders_le_len(s: Seq<Peer>)
    ensures
        seeders_of(s) <= s.len(),
    decreases s.len(),
{
    if s.len() > 0 {
        lemma_seeders_le_len(s.drop_last());
    }
}

/// The peers kept by `active_since` come from `s` and were all observed at or after `cutoff`.
pub proof fn lemma_active_since_facts(s: Seq<Peer>, cutoff: u64)
    ensures
        active_since(s, cutoff).len() <= s.len(),
        forall|i: int|
            0 <= i < active_since(s, cutoff).len() ==> (#[trigger] active_since(s, cutoff)[i]).updated_at
                >= cutoff,
        forall|i: int|
            0 <= i < active_since(s, cutoff).len() ==> exists|k: int|
                0 <= k < s.len() && s[k] == #[trigger] active_since(s, cutoff)[i],
    decreases s.len(),
{
    if s.len() > 0 {
        lemma_active_since_facts(s.drop_last(), cutoff);
        let rest = active_since(s.drop_last(), cutoff);
        assert forall|i: int| 0 <= i < active_since(s, cutoff).len() implies exists|k: int|
            0 <= k < s.len() && s[k] == #[trigger] active_since(s, cutoff)[i] by {
            if i < rest.len() {
                let k = choose|k: int| 0 <= k < s.drop_last().len() && s.drop_last()[k] == rest[i];
                assert(s[k] == active_since(s, cutoff)[i]);
            } else {
                assert(s[s.len() - 1] == active_since(s, cutoff)[i]);
            }
        }
    }
}

proof fn lemma_eligible_facts(s: Seq<Peer>, exclude: Option<Seq<u8>>)
    ensures
        eligible(s, exclude).len() <= s.len(),
        forall|i: int|
            0 <= i < eligible(s, exclude).len() ==> exclude != Some(
                (#[trigger] eligible(s, exclude)[i]).peer_id@,
            ),
    decreases s.len(),
{
    if s.len() > 0 {
        lemma_eligible_facts(s.drop_last(), exclude);
    }
}

proof fn lemma_unique_sub(s: Seq<Peer>, cutoff: u64)
    requires
        unique_ids(s),
    ensures
        unique_ids(active_since(s, cutoff)),
    decreases s.len(),
{
    if s.len() > 0 {
        let d = s.drop_last();
        assert(unique_ids(d));
        lemma_unique_sub(d, cutoff);
        lemma_active_since_facts(d, cutoff);
        let rest = active_since(d, cutoff);
        if s.last().updated_at >= cutoff {
            let t = rest.push(s.last());
            assert forall|i: int, j: int|
                0 <= i < t.len() && 0 <= j < t.len() && (#[trigger] t[i]).peer_id@
                    == (#[trigger] t[j]).peer_id@ implies i == j by {
                if i < rest.len() && j == rest.len() {
                    let k = choose|k: int| 0 <= k < d.len() && d[k] == #[trigger] rest[i];
                    assert(s[k].peer_id@ == s[s.len() - 1].peer_id@);
                } else if j < rest.len() && i == rest.len() {
                    let k = choose|k: int| 0 <= k < d.len() && d[k] == #[trigger] rest[j];
                    assert(s[k].peer_id@ == s[s.len() - 1].peer_id@);
                }
            }
        }
    }
}

impl SwarmEntry {
    pub open spec fn wf(&self) -> bool {
        unique_ids(self.peers@) && self.peers@.len() <= u32::MAX
    }

    /// An empty swarm with the given completion counter.
    pub fn new(completed: u32) -> (r: SwarmEntry)
        ensures
            r.wf(),
            r.peers@.len() == 0,
            r.completed == completed,
    {
        SwarmEntry { peers: Vec::new(), completed }
    }

    /// Position of the peer with the given id, if stored.
    pub fn find(&self, id: &PeerId) -> (r: Option<usize>)
        requires
            self.wf(),
        ensures
            r.is_some() == has_peer(self.peers@, id@),
            r.is_some() ==> r.unwrap() == peer_index(self.peers@, id@),
    {
        let mut i: usize = 0;
        while i < self.peers.len()
            invariant
                i <= self.peers@.len(),
                self.wf(),
                forall|j: int| 0 <= j < i ==> (#[trigger] self.peers@[j]).peer_id@ != id@,
            decreases self.peers@.len() - i,
        {
            if self.peers[i].peer_id.equals(id) {
                assert(has_peer(self.peers@, id@));
                let ghost k = peer_index(self.peers@, id@);
                assert(0 <= k < self.peers@.len() && self.peers@[k].peer_id@ == id@);
                assert(self.peers@[k].peer_id@ == self.peers@[i as int].peer_id@);
                assert(k == i);
                return Some(i);
            }
            i = i + 1;
        }
        None
    }

    /// The seeder, completion and leecher counts.
    pub fn stats(&self) -> (r: SwarmStats)
        requires
            self.wf(),
        ensures
            r.seeders == seeders_of(self.peers@),
            r.leechers == self.peers@.len() - seeders_of(self.peers@),
            r.completed == self.completed,
    {
        let mut seeders: u32 = 0;
        let mut i: usize = 0;
        while i < self.peers.len()
            invariant
                i <= self.peers@.len(),
                self.peers@.len() <= u32::MAX,
                seeders == seeders_of(self.peers@.take(i as int)),
                seeders <= i,
            decreases self.peers@.len() - i,
        {
            assert(self.peers@.take(i + 1).drop_last() =~= self.peers@.take(i as int));
            if self.peers[i].left == 0 {
                seeders = seeders + 1;
            }
            i = i + 1;
        }
        assert(self.peers@.take(i as int) =~= self.peers@);
        proof {
            lemma_seeders_le_len(self.peers@);
        }
        SwarmStats { seeders, completed: self.completed, leechers: (self.peers.len() - seeders as usize) as u32 }
    }

    /// Records an announce of `peer`; returns whether it counted as a new completion.
    pub fn update_peer(&mut self, peer: Peer) -> (completed_now: bool)
        requires
            old(self).wf(),
            old(self).peers@.len() < u32::MAX,
        ensures
            final(self).wf(),
            final(self).peers@ == peers_after(old(self).peers@, peer),
            completed_now == counts_completion(old(self).peers@, peer),
            final(self).completed == if completed_now {
                bumped(old(self).completed)
            } else {
                old(self).completed
            },
    {
        let ghost s = self.peers@;
        let pos = self.find(&peer.peer_id);
        let completed_now = match peer.event {
            AnnounceEvent::Completed => match pos {
                Some(k) => !matches!(self.peers[k].event, AnnounceEvent::Completed),
                None => true,
            },
            _ => false,
        };
        if completed_now && self.completed < u32::MAX {
            self.completed = self.completed + 1;
        }
        match peer.event {
            AnnounceEvent::Stopped => {
                if let Some(k) = pos {
                    self.peers.remove(k);
                    assert forall|i: int, j: int|
                        0 <= i < self.peers@.len() && 0 <= j < self.peers@.len() && (
                        #[trigger] self.peers@[i]).peer_id@ == (#[trigger] self.peers@[j]).peer_id@
                        implies i == j by {
                        let i2 = if i < k { i } else { i + 1 };
                        let j2 = if j < k { j } else { j + 1 };
                        assert(s[i2].peer_id@ == s[j2].peer_id@);
                    }
                }
            },
            _ => {
                match pos {
                    Some(k) => {
                        self.peers.set(k, peer);
                        assert forall|i: int, j: int|
                            0 <= i < self.peers@.len() && 0 <= j < self.peers@.len() && (
                            #[trigger] self.peers@[i]).peer_id@ == (
                            #[trigger] self.peers@[j]).peer_id@ implies i == j by {
                            assert(s[i].peer_id@ == s[j].peer_id@);
                        }
                    },
                    None => {
                        self.peers.push(peer);
                        assert forall|i: int, j: int|
                            0 <= i < self.peers@.len() && 0 <= j < self.peers@.len() && (
                            #[trigger] self.peers@[i]).peer_id@ == (
                            #[trigger] self.peers@[j]).peer_id@ implies i == j by {
                            if i < s.len() && j == s.len() {
                                assert(s[i].peer_id@ == peer.peer_id@);
                            } else if j < s.len() && i == s.len() {
                                assert(s[j].peer_id@ == peer.peer_id@);
                            }
                        }
                    },
                }
            },
        }
        completed_now
    }

    /// Up to `limit` peers, in stored order, leaving out the peer `exclude`.
    fn first_peers(&self, exclude: Option<PeerId>, limit: usize) -> (r: Vec<Peer>)
        ensures
            r@ == eligible(self.peers@, opt_id(exclude)).take(r@.len() as int),
            r@.len() == if limit < eligible(self.peers@, opt_id(exclude)).len() {
                limit as int
            } else {
                eligible(self.peers@, opt_id(exclude)).len() as int
            },
            r@.len() <= limit,
            forall|i: int|
                0 <= i < r@.len() ==> opt_id(exclude) != Some(
                    (#[trigger] r@[i]).peer_id@,
                ),
    {
        let ghost ex = opt_id(exclude);
        let mut out: Vec<Peer> = Vec::new();
        let mut i: usize = 0;
        while i < self.peers.len() && out.len() < limit
            invariant
                i <= self.peers@.len(),
                out@.len() <= limit,
                out@ == eligible(self.peers@.take(i as int), ex),
                ex == opt_id(exclude),
            decreases self.peers@.len() - i,
        {
            assert(self.peers@.take(i + 1).drop_last() =~= self.peers@.take(i as int));
            let p = self.peers[i];
            let skip = match exclude {
                Some(x) => p.peer_id.equals(&x),
                None => false,
            };
            if !skip {
                out.push(p);
            }
            i = i + 1;
        }
        proof {
            lemma_eligible_prefix(self.peers@, i as int, ex);
            lemma_eligible_facts(self.peers@, ex);
            if i < self.peers@.len() {
                assert(out@.len() == limit);
            } else {
                assert(self.peers@.take(i as int) =~= self.peers@);
            }
            assert(out@ =~= eligible(self.peers@, ex).take(out@.len() as int));
        }
        out
    }

    /// Up to `limit` peers, leaving out the peer `exclude`. The peers that may
    /// be handed out are taken in stored order starting at position
    /// `start % count` and wrapping round, so that moving `start` between calls
    /// lets every peer be handed out in turn.
    pub fn get_peers(&self, exclude: Option<PeerId>, limit: usize, start: usize) -> (r: Vec<Peer>)
        ensures
            r@ == rotated(
                eligible(self.peers@, opt_id(exclude)),
                rotation_start(start, eligible(self.peers@, opt_id(exclude)).len()),
            ).take(r@.len() as int),
            r@.len() == if limit < eligible(self.peers@, opt_id(exclude)).len() {
                limit as int
            } else {
                eligible(self.peers@, opt_id(exclude)).len() as int
            },
            r@.len() <= limit,
            forall|i: int| 0 <= i < r@.len() ==> opt_id(exclude) != Some((#[trigger] r@[i]).peer_id@),
    {
        let total = self.peers.len();
        let all = self.first_peers(exclude, usize::MAX);
        let ghost el = eligible(self.peers@, opt_id(exclude));
        proof {
            lemma_eligible_facts(self.peers@, opt_id(exclude));
            assert(el.len() <= total);
            assert(el.take(el.len() as int) =~= el);
            assert(all@ =~= el);
        }
        let n = all.len();
        let m = if limit < n {
            limit
        } else {
            n
        };
        let mut out: Vec<Peer> = Vec::new();
        if n == 0 {
            assert(rotated(el, 0).take(0) =~= out@);
            return out;
        }
        let k = start % n;
        let ghost rot = rotated(el, k as int);
        let mut j: usize = 0;
        while j < m
            invariant
                n == all@.len(),
                all@ == el,
                k < n,
                m <= n,
                j <= m,
                rot == rotated(el, k as int),
                out@ == rot.take(j as int),
            decreases m - j,
        {
            let idx = if j < n - k {
                k + j
            } else {
                j - (n - k)
            };
            out.push(all[idx]);
            j = j + 1;
            assert(out@ =~= rot.take(j as int));
        }
        proof {
            assert forall|i: int| 0 <= i < out@.len() implies opt_id(exclude) != Some(
                (#[trigger] out@[i]).peer_id@,
            ) by {
                let src = if i < n - k { k + i } else { i - (n - k) };
                assert(out@[i] == el[src]);
            }
        }
        out
    }

    /// Drops every peer last observed before `cutoff`.
    pub fn remove_inactive(&mut self, cutoff: u64)
        requires
            old(self).wf(),
        ensures
            final(self).wf(),
            final(self).peers@ == active_since(old(self).peers@, cutoff),
            final(self).completed == old(self).completed,
            forall|i: int|
                0 <= i < final(self).peers@.len() ==> (#[trigger] final(self).peers@[i]).updated_at
                    >= cutoff,
    {
        let mut kept: Vec<Peer> = Vec::new();
        let mut i: usize = 0;
        while i < self.peers.len()
            invariant
                i <= self.peers@.len(),
                kept@ == active_since(self.peers@.take(i as int), cutoff),
            decreases self.peers@.len() - i,
        {
            assert(self.peers@.take(i + 1).drop_last() =~= self.peers@.take(i as int));
            let p = self.peers[i];
            if p.updated_at >= cutoff {
                kept.push(p);
            }
            i = i + 1;
        }
        assert(self.peers@.take(i as int) =~= self.peers@);
        proof {
            lemma_active_since_facts(self.peers@, cutoff);
            lemma_unique_sub(self.peers@, cutoff);
        }
        self.peers = kept;
    }
}

/// The sequence read from position `k` on, wrapping round to the front.
pub open spec fn rotated(s: Seq<Peer>, k: int) -> Seq<Peer> {
    s.subrange(k, s.len() as int) + s.subrange(0, k)
}

/// Where a rotation by `start` begins in a sequence of `n` elements.
pub open spec fn rotation_start(start: usize, n: nat) -> int {
    if n == 0 {
        0
    } else {
        start as int % n as int
    }
}

/// `eligible` of a prefix is a prefix of `eligible`.
proof fn lemma_eligible_prefix(s: Seq<Peer>, i: int, ex: Option<Seq<u8>>)
    requires
        0 <= i <= s.len(),
    ensures
        eligible(s.take(i), ex).len() <= eligible(s, ex).len(),
        eligible(s.take(i), ex) =~= eligible(s, ex).take(eligible(s.take(i), ex).len() as int),
    decreases s.len() - i,
{
    if i < s.len() {
        lemma_eligible_prefix(s, i + 1, ex);
        assert(s.take(i + 1).drop_last() =~= s.take(i));
    } else {
        assert(s.take(i) =~= s);
    }
}

/// The peers and completion counter after a sequence of announces.
pub open spec fn replay(s: Seq<Peer>, c: u32, ps: Seq<Peer>) -> (Seq<Peer>, u32)
    decreases ps.len(),
{
    if ps.len() == 0 {
        (s, c)
    } else {
        let prev = replay(s, c, ps.drop_last());
        let p = ps.last();
        (
            peers_after(prev.0, p),
            if counts_completion(prev.0, p) {
                bumped(prev.1)
            } else {
                prev.1
            },
        )
    }
}

/// How many announces of the sequence count as new completions: those with
/// event `Completed` whose peer was absent or not stored as completed.
pub open spec fn completions(s: Seq<Peer>, ps: Seq<Peer>) -> nat
    decreases ps.len(),
{
    if ps.len() == 0 {
        0
    } else {
        completions(s, ps.drop_last()) + if counts_completion(
            replay(s, 0, ps.drop_last()).0,
            ps.last(),
        ) {
            1nat
        } else {
            0nat
        }
    }
}

/// After any sequence of announces, the completion counter is the initial
/// (persisted) value plus the number of announces that count as completions,
/// as long as that sum fits in a `u32`.
pub proof fn lemma_completed_counts(s: Seq<Peer>, c: u32, ps: Seq<Peer>)
    requires
        c + completions(s, ps) <= u32::MAX,
    ensures
        replay(s, c, ps).1 == c + completions(s, ps),
        replay(s, c, ps).0 == replay(s, 0, ps).0,
    decreases ps.len(),
{
    if ps.len() > 0 {
        lemma_completed_counts(s, c, ps.drop_last());
        lemma_completed_counts(s, 0, ps.drop_last());
    }
}

/// The seeders are exactly the peers with nothing left, and seeders plus
/// leechers make up all peers.
pub proof fn lemma_seeders_leechers(s: Seq<Peer>)
    ensures
        seeders_of(s) == s.filter(|p: Peer| p.left == 0).len(),
        seeders_of(s) + (s.len() - seeders_of(s)) == s.len(),
        seeders_of(s) <= s.len(),
    decreases s.len(),
{
    reveal(Seq::filter);
    lemma_seeders_le_len(s);
    if s.len() > 0 {
        lemma_seeders_leechers(s.drop_last());
    }
}

} // verus!

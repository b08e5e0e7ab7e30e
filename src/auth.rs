use vstd::prelude::*;

use crate::info_hash::InfoHash;

verus! {

/// Length of a generated authentication key.
pub const AUTH_KEY_LENGTH: usize = 32;

/// A key that admits announces in the private modes, until `valid_until`
/// (seconds since the Unix epoch) when that is set.
#[derive(Debug)]
pub struct AuthKey {
    pub key: Vec<u8>,
    pub valid_until: Option<u64>,
}

/// Outcome of looking up a key.
#[derive(Clone, Copy, PartialEq, Eq, Structural, Debug)]
pub enum KeyStatus {
    Valid,
    Expired,
    Unknown,
}

pub open spec fn is_alphanumeric(c: u8) -> bool {
    (48 <= c <= 57) || (65 <= c <= 90) || (97 <= c <= 122)
}

/// A well-formed key text: `AUTH_KEY_LENGTH` ASCII letters and digits.
pub open spec fn is_key_text(s: Seq<u8>) -> bool {
    s.len() == AUTH_KEY_LENGTH && forall|i: int| 0 <= i < s.len() ==> is_alphanumeric(#[trigger] s[i])
}

/// The key has an expiry and it lies before `now`.
pub open spec fn is_expired(valid_until: Option<u64>, now: u64) -> bool {
    match valid_until {
        Some(t) => t < now,
        None => false,
    }
}

pub open spec fn has_key(ks: Seq<AuthKey>, key: Seq<u8>) -> bool {
    exists|k: int| 0 <= k < ks.len() && (#[trigger] ks[k]).key@ == key
}

pub open spec fn key_index(ks: Seq<AuthKey>, key: Seq<u8>) -> int {
    choose|k: int| 0 <= k < ks.len() && (#[trigger] ks[k]).key@ == key
}

pub open spec fn unique_keys(ks: Seq<AuthKey>) -> bool {
    forall|i: int, j: int|
        0 <= i < ks.len() && 0 <= j < ks.len() && (#[trigger] ks[i]).key@ == (#[trigger] ks[j]).key@
            ==> i == j
}

/// The status that a lookup of `key` at time `now` gives.
pub open spec fn status_of(ks: Seq<AuthKey>, key: Seq<u8>, now: u64) -> KeyStatus {
    if !has_key(ks, key) {
        KeyStatus::Unknown
    } else if is_expired(ks[key_index(ks, key)].valid_until, now) {
        KeyStatus::Expired
    } else {
        KeyStatus::Valid
    }
}

/// Bytewise equality of two byte strings.
pub fn bytes_eq(a: &[u8], b: &[u8]) -> (r: bool)
    ensures
        r == (a@ == b@),
{
    if a.len() != b.len() {
        return false;
    }
    let mut i: usize = 0;
    while i < a.len()
        invariant
            i <= a@.len(),
            a@.len() == b@.len(),
            forall|j: int| 0 <= j < i ==> a@[j] == b@[j],
        decreases a@.len() - i,
    {
        if a[i] != b[i] {
            return false;
        }
        i = i + 1;
    }
    assert(a@ =~= b@);
    true
}

/// Whether the text is a well-formed key.
pub fn check_key_text(s: &[u8]) -> (r: bool)
    ensures
        r == is_key_text(s@),
{
    if s.len() != AUTH_KEY_LENGTH {
        return false;
    }
    let mut i: usize = 0;
    while i < s.len()
        invariant
            i <= s@.len(),
            forall|j: int| 0 <= j < i ==> is_alphanumeric(#[trigger] s@[j]),
        decreases s@.len() - i,
    {
        let c = s[i];
        if !((48 <= c && c <= 57) || (65 <= c && c <= 90) || (97 <= c && c <= 122)) {
            return false;
        }
        i = i + 1;
    }
    true
}

impl AuthKey {
    /// A copy of the key.
    pub fn duplicate(&self) -> (r: AuthKey)
        ensures
            r.key@ == self.key@,
            r.valid_until == self.valid_until,
    {
        AuthKey { key: self.key.clone(), valid_until: self.valid_until }
    }

    /// Whether the key has expired at time `now`.
    pub fn expired_at(&self, now: u64) -> (r: bool)
        ensures
            r == is_expired(self.valid_until, now),
    {
        match self.valid_until {
            Some(t) => t < now,
            None => false,
        }
    }
}

/// The authentication keys known in memory; no key text appears twice.
pub struct KeyStore {
    pub keys: Vec<AuthKey>,
}

impl KeyStore {
    pub open spec fn wf(&self) -> bool {
        unique_keys(self.keys@)
    }

    pub fn new() -> (r: KeyStore)
        ensures
            r.wf(),
            r.keys@.len() == 0,
    {
        KeyStore { keys: Vec::new() }
    }

    /// Position of the given key text, if known.
    pub fn find(&self, key: &[u8]) -> (r: Option<usize>)
        requires
            self.wf(),
        ensures
            r.is_some() == has_key(self.keys@, key@),
            r.is_some() ==> r.unwrap() == key_index(self.keys@, key@),
    {
        let mut i: usize = 0;
        while i < self.keys.len()
            invariant
                i <= self.keys@.len(),
                self.wf(),
                forall|j: int| 0 <= j < i ==> (#[trigger] self.keys@[j]).key@ != key@,
            decreases self.keys@.len() - i,
        {
            if bytes_eq(self.keys[i].key.as_slice(), key) {
                assert(has_key(self.keys@, key@));
                let ghost k = key_index(self.keys@, key@);
                assert(0 <= k < self.keys@.len() && self.keys@[k].key@ == key@);
                assert(self.keys@[k].key@ == self.keys@[i as int].key@);
                return Some(i);
            }
            i = i + 1;
        }
        None
    }

    /// Looks a key up: `Unknown` if absent, `Expired` if its expiry lies before `now`.
    pub fn verify(&self, key: &[u8], now: u64) -> (r: KeyStatus)
        requires
            self.wf(),
        ensures
            r == status_of(self.keys@, key@, now),
    {
        match self.find(key) {
            None => KeyStatus::Unknown,
            Some(k) => if self.keys[k].expired_at(now) {
                KeyStatus::Expired
            } else {
                KeyStatus::Valid
            },
        }
    }

    /// Adds a key unless its text is already known; returns whether it was added.
    pub fn add(&mut self, key: AuthKey) -> (added: bool)
        requires
            old(self).wf(),
        ensures
            final(self).wf(),
            added == !has_key(old(self).keys@, key.key@),
            final(self).keys@ == if added {
                old(self).keys@.push(key)
            } else {
                old(self).keys@
            },
    {
        let ghost s = self.keys@;
        if self.find(key.key.as_slice()).is_some() {
            return false;
        }
        self.keys.push(key);
        assert forall|i: int, j: int|
            0 <= i < self.keys@.len() && 0 <= j < self.keys@.len() && (#[trigger] self.keys@[i]).key@
                == (#[trigger] self.keys@[j]).key@ implies i == j by {
            if i < s.len() && j == s.len() {
                assert(s[i].key@ == self.keys@[j].key@);
            } else if j < s.len() && i == s.len() {
                assert(s[j].key@ == self.keys@[i].key@);
            }
        }
        true
    }

    /// Makes a key of the random text `candidate`, valid for `lifetime` seconds
    /// from `now` (for ever when `None`), and keeps it. `None` when the text is
    /// not a well-formed key or is already in use: the caller draws again.
    pub fn generate(&mut self, candidate: Vec<u8>, now: u64, lifetime: Option<u64>) -> (r: Option<
        AuthKey,
    >)
        requires
            old(self).wf(),
        ensures
            final(self).wf(),
            r.is_some() == (is_key_text(candidate@) && !has_key(old(self).keys@, candidate@)),
            r.is_some() ==> {
                &&& r.unwrap().key@ == candidate@
                &&& r.unwrap().valid_until == match lifetime {
                    Some(d) => Some(
                        if now + d <= u64::MAX {
                            (now + d) as u64
                        } else {
                            u64::MAX
                        },
                    ),
                    None => None,
                }
                &&& final(self).keys@.len() == old(self).keys@.len() + 1
                &&& final(self).keys@.drop_last() == old(self).keys@
                &&& final(self).keys@.last().key@ == candidate@
                &&& final(self).keys@.last().valid_until == r.unwrap().valid_until
            },
            r.is_none() ==> final(self).keys@ == old(self).keys@,
    {
        if !check_key_text(candidate.as_slice()) {
            return None;
        }
        let valid_until = match lifetime {
            Some(d) => Some(now.saturating_add(d)),
            None => None,
        };
        let key = AuthKey { key: candidate, valid_until };
        let kept = key.duplicate();
        if self.add(kept) {
            Some(key)
        } else {
            None
        }
    }

    /// Forgets a key; returns whether it was known.
    pub fn remove(&mut self, key: &[u8]) -> (removed: bool)
        requires
            old(self).wf(),
        ensures
            final(self).wf(),
            removed == has_key(old(self).keys@, key@),
            final(self).keys@ == if removed {
                old(self).keys@.remove(key_index(old(self).keys@, key@))
            } else {
                old(self).keys@
            },
            !has_key(final(self).keys@, key@),
    {
        let ghost s = self.keys@;
        match self.find(key) {
            None => false,
            Some(k) => {
                self.keys.remove(k);
                assert forall|i: int, j: int|
                    0 <= i < self.keys@.len() && 0 <= j < self.keys@.len() && (
                    #[trigger] self.keys@[i]).key@ == (#[trigger] self.keys@[j]).key@ implies i
                    == j by {
                    let i2 = if i < k { i } else { i + 1 };
                    let j2 = if j < k { j } else { j + 1 };
                    assert(s[i2].key@ == s[j2].key@);
                }
                assert forall|i: int| 0 <= i < self.keys@.len() implies (
                #[trigger] self.keys@[i]).key@ != key@ by {
                    let i2 = if i < k { i } else { i + 1 };
                    assert(s[i2].key@ != s[k as int].key@);
                }
                true
            },
        }
    }

    /// Replaces the keys with those loaded from storage, keeping the first of
    /// any repeated text, with its expiry.
    pub fn reload(&mut self, loaded: Vec<AuthKey>)
        ensures
            final(self).wf(),
            forall|i: int| 0 <= i < loaded@.len() ==> has_key(final(self).keys@, #[trigger] loaded@[i].key@),
            forall|k: int|
                0 <= k < final(self).keys@.len() ==> from_first_row(
                    loaded@,
                    loaded@.len() as int,
                    #[trigger] final(self).keys@[k],
                ),
    {
        let mut fresh = KeyStore::new();
        let mut i: usize = 0;
        while i < loaded.len()
            invariant
                i <= loaded@.len(),
                fresh.wf(),
                forall|j: int| 0 <= j < i ==> has_key(fresh.keys@, #[trigger] loaded@[j].key@),
                forall|k: int|
                    0 <= k < fresh.keys@.len() ==> from_first_row(loaded@, i as int, #[trigger] fresh.keys@[k]),
            decreases loaded@.len() - i,
        {
            let ghost before = fresh.keys@;
            let added = fresh.add(loaded[i].duplicate());
            if added {
                assert forall|j2: int| 0 <= j2 < i implies loaded@[j2].key@ != loaded@[i as int].key@ by {
                    assert(has_key(before, loaded@[j2].key@));
                }
                assert(first_with_key(loaded@, i as int));
            }
            assert forall|k: int| 0 <= k < fresh.keys@.len() implies from_first_row(
                loaded@,
                i + 1,
                #[trigger] fresh.keys@[k],
            ) by {
                if k < before.len() {
                    assert(fresh.keys@[k] == before[k]);
                    assert(from_first_row(loaded@, i as int, before[k]));
                    let j = choose|j: int|
                        0 <= j < i && first_with_key(loaded@, j) && loaded@[j].key@ == before[k].key@
                            && loaded@[j].valid_until == before[k].valid_until;
                    assert(0 <= j < i + 1);
                } else {
                    assert(loaded@[i as int].key@ == fresh.keys@[k].key@);
                    assert(loaded@[i as int].valid_until == fresh.keys@[k].valid_until);
                }
            }
            assert forall|j: int| 0 <= j <= i implies has_key(fresh.keys@, #[trigger] loaded@[j].key@) by {
                if j < i {
                    let k = key_index(before, loaded@[j].key@);
                    assert(fresh.keys@[k] == before[k]);
                } else if added {
                    assert(fresh.keys@[before.len() as int].key@ == loaded@[j].key@);
                }
            }
            i = i + 1;
        }
        self.keys = fresh.keys;
    }
}

/// No row before position `j` holds the text of row `j`.
pub open spec fn first_with_key(ks: Seq<AuthKey>, j: int) -> bool {
    forall|j2: int| 0 <= j2 < j ==> ks[j2].key@ != ks[j].key@
}

/// `k` has the text and expiry of a row below `n` that is the first with its text.
pub open spec fn from_first_row(ks: Seq<AuthKey>, n: int, k: AuthKey) -> bool {
    exists|j: int|
        0 <= j < n && first_with_key(ks, j) && ks[j].key@ == k.key@ && ks[j].valid_until == k.valid_until
}

/// A known key is reported expired exactly when it has an expiry that lies
/// before `now`; an unknown key is never reported expired.
pub proof fn lemma_expired_iff(ks: Seq<AuthKey>, key: Seq<u8>, now: u64)
    ensures
        (status_of(ks, key, now) == KeyStatus::Expired) <==> (has_key(ks, key) && ks[key_index(
            ks,
            key,
        )].valid_until.is_some() && ks[key_index(ks, key)].valid_until.unwrap() < now),
{
}

} // verus!

use vstd::prelude::*;

use crate::auth::{has_key, key_index, AuthKey, KeyStore};
use crate::auth::bytes_eq;
use crate::swarm::{completions, lemma_completed_counts, replay, Peer};
use crate::info_hash::{bytes_of_hex, hex_of, is_hex40, InfoHash};
use crate::repository::has_hash;
use crate::tracker::Whitelist;

verus! {

/// Failures of the persistence layer.
#[derive(Clone, Copy, PartialEq, Eq, Structural, Debug)]
pub enum DbError {
    /// No connection could be had.
    DatabaseError,
    /// A single-row read or a write touched no row.
    QueryReturnedNoRows,
    /// The statement failed.
    InvalidQuery,
}

/// The outcome of a write that reports how many rows it changed.
pub fn rows_changed(updated: usize) -> (r: Result<usize, DbError>)
    ensures
        updated > 0 ==> r == Ok::<usize, DbError>(updated),
        updated == 0 ==> r == Err::<usize, DbError>(DbError::QueryReturnedNoRows),
{
    if updated > 0 {
        Ok(updated)
    } else {
        Err(DbError::QueryReturnedNoRows)
    }
}

/// The magnitude of a stored signed number of seconds.
pub open spec fn magnitude(v: i64) -> u64 {
    if v < 0 {
        (-v) as u64
    } else {
        v as u64
    }
}

/// The expiry that a stored column stands for: NULL for a key that never
/// expires; a number of seconds is taken by its magnitude.
pub open spec fn expiry_of_column(v: Option<i64>) -> Option<u64> {
    match v {
        Some(s) => Some(magnitude(s)),
        None => None,
    }
}

/// The column that stores an expiry: NULL for a key that never expires, and
/// an expiry past the largest signed value held at that value.
pub open spec fn column_of_expiry(valid_until: Option<u64>) -> Option<i64> {
    match valid_until {
        Some(t) => Some(
            if t <= i64::MAX {
                t as i64
            } else {
                i64::MAX
            },
        ),
        None => None,
    }
}

/// A key read from storage; see `expiry_of_column` for the expiry column.
pub fn key_from_row(key: Vec<u8>, valid_until: Option<i64>) -> (r: AuthKey)
    ensures
        r.key@ == key@,
        r.valid_until == expiry_of_column(valid_until),
{
    match valid_until {
        Some(v) => {
            let secs: u64 = if v < 0 {
                (-(v as i128)) as u64
            } else {
                v as u64
            };
            AuthKey { key, valid_until: Some(secs) }
        },
        None => AuthKey { key, valid_until: None },
    }
}

/// The stored expiry column of a key; see `column_of_expiry`.
pub fn valid_until_column(key: &AuthKey) -> (r: Option<i64>)
    ensures
        r == column_of_expiry(key.valid_until),
{
    match key.valid_until {
        Some(t) => Some(
            if t <= i64::MAX as u64 {
                t as i64
            } else {
                i64::MAX
            },
        ),
        None => None,
    }
}

/// A key written with `valid_until_column` reads back with the same expiry,
/// for any expiry that fits the signed column.
pub proof fn lemma_expiry_round_trip(valid_until: Option<u64>)
    requires
        valid_until matches Some(t) ==> t <= i64::MAX,
    ensures
        expiry_of_column(column_of_expiry(valid_until)) == valid_until,
{
}

/// An info-hash read from storage as hex text; a row that holds anything
/// else is refused.
pub fn info_hash_from_row(text: &[u8]) -> (r: Result<InfoHash, DbError>)
    ensures
        r is Ok <==> is_hex40(text@),
        r is Ok ==> r->Ok_0@ == bytes_of_hex(text@),
        r is Err ==> r->Err_0 == DbError::InvalidQuery,
{
    match InfoHash::from_hex(text) {
        Some(h) => Ok(h),
        None => Err(DbError::InvalidQuery),
    }
}

/// Completion counters as stored: at most one row per info-hash.
pub open spec fn unique_rows(rows: Seq<(InfoHash, u32)>) -> bool {
    forall|i: int, j: int|
        0 <= i < rows.len() && 0 <= j < rows.len() && (#[trigger] rows[i]).0@ == (#[trigger] rows[j]).0@
            ==> i == j
}

pub open spec fn has_row(rows: Seq<(InfoHash, u32)>, h: Seq<u8>) -> bool {
    exists|k: int| 0 <= k < rows.len() && (#[trigger] rows[k]).0@ == h
}

pub open spec fn row_index(rows: Seq<(InfoHash, u32)>, h: Seq<u8>) -> int {
    choose|k: int| 0 <= k < rows.len() && (#[trigger] rows[k]).0@ == h
}

/// The rows after an upsert of `(h, c)`: the counter of `h` is overwritten,
/// or a row is added.
pub open spec fn upserted(rows: Seq<(InfoHash, u32)>, h: InfoHash, c: u32) -> Seq<(InfoHash, u32)> {
    if has_row(rows, h@) {
        rows.update(row_index(rows, h@), (rows[row_index(rows, h@)].0, c))
    } else {
        rows.push((h, c))
    }
}

/// A store held in memory that keeps the three relations of the persistence
/// port with their uniqueness rules.
pub struct MemoryDatabase {
    pub torrents: Vec<(InfoHash, u32)>,
    pub keys: KeyStore,
    pub whitelist: Whitelist,
}

impl MemoryDatabase {
    pub open spec fn wf(&self) -> bool {
        unique_rows(self.torrents@) && self.keys.wf() && self.whitelist.wf()
    }

    /// The stored counter of `h`, if any.
    pub open spec fn completed_of(&self, h: Seq<u8>) -> Option<u32> {
        if has_row(self.torrents@, h) {
            Some(self.torrents@[row_index(self.torrents@, h)].1)
        } else {
            None
        }
    }

    /// An empty store; the relations exist from the start.
    pub fn new() -> (r: MemoryDatabase)
        ensures
            r.wf(),
            r.torrents@.len() == 0,
            r.keys.keys@.len() == 0,
            r.whitelist.hashes@.len() == 0,
    {
        MemoryDatabase { torrents: Vec::new(), keys: KeyStore::new(), whitelist: Whitelist::new() }
    }

    fn find_row(&self, h: &InfoHash) -> (r: Option<usize>)
        requires
            self.wf(),
        ensures
            r.is_some() == has_row(self.torrents@, h@),
            r.is_some() ==> r.unwrap() == row_index(self.torrents@, h@),
    {
        let mut i: usize = 0;
        while i < self.torrents.len()
            invariant
                i <= self.torrents@.len(),
                self.wf(),
                forall|j: int| 0 <= j < i ==> (#[trigger] self.torrents@[j]).0@ != h@,
            decreases self.torrents@.len() - i,
        {
            if self.torrents[i].0.equals(h) {
                assert(has_row(self.torrents@, h@));
                let ghost k = row_index(self.torrents@, h@);
                assert(0 <= k < self.torrents@.len() && self.torrents@[k].0@ == h@);
                assert(self.torrents@[k].0@ == self.torrents@[i as int].0@);
                return Some(i);
            }
            i = i + 1;
        }
        None
    }

    /// Stores the completion counter of `h`, overwriting an earlier one.
    pub fn save_persistent_torrent(&mut self, h: &InfoHash, completed: u32) -> (r: Result<(), DbError>)
        requires
            old(self).wf(),
        ensures
            final(self).wf(),
            r is Ok,
            final(self).torrents@ == upserted(old(self).torrents@, *h, completed),
            final(self).completed_of(h@) == Some(completed),
            forall|g: Seq<u8>| g != h@ ==> #[trigger] final(self).completed_of(g) == old(self).completed_of(g),
            final(self).keys == old(self).keys,
            final(self).whitelist == old(self).whitelist,
    {
        let ghost s = self.torrents@;
        match self.find_row(h) {
            Some(k) => {
                let key = self.torrents[k].0;
                self.torrents.set(k, (key, completed));
                assert forall|i: int, j: int|
                    0 <= i < self.torrents@.len() && 0 <= j < self.torrents@.len() && (
                    #[trigger] self.torrents@[i]).0@ == (#[trigger] self.torrents@[j]).0@ implies i == j by {
                    assert(s[i].0@ == s[j].0@);
                }
                assert(self.torrents@[k as int].0@ == h@);
                proof {
                    lemma_row_index(self.torrents@, k as int);
                    lemma_rows_same_keys(s, self.torrents@);
                }
            },
            None => {
                self.torrents.push((*h, completed));
                assert forall|i: int, j: int|
                    0 <= i < self.torrents@.len() && 0 <= j < self.torrents@.len() && (
                    #[trigger] self.torrents@[i]).0@ == (#[trigger] self.torrents@[j]).0@ implies i == j by {
                    if i < s.len() && j == s.len() {
                        assert(s[i].0@ == h@);
                    } else if j < s.len() && i == s.len() {
                        assert(s[j].0@ == h@);
                    }
                }
                proof {
                    lemma_row_index(self.torrents@, s.len() as int);
                    assert forall|g: Seq<u8>| g != h@ implies #[trigger] self.completed_of(g) == old(self).completed_of(g) by {
                        if has_row(s, g) {
                            let k = row_index(s, g);
                            lemma_row_index(s, k);
                            assert(self.torrents@[k] == s[k]);
                            lemma_row_index(self.torrents@, k);
                        } else {
                            assert forall|j: int| 0 <= j < self.torrents@.len() implies (#[trigger] self.torrents@[j]).0@ != g by {
                                if j < s.len() {
                                    assert(self.torrents@[j] == s[j]);
                                }
                            }
                        }
                    }
                }
            },
        }
        Ok(())
    }

    /// Stores a key; a key text that is already stored breaks uniqueness.
    pub fn add_key_to_keys(&mut self, key: AuthKey) -> (r: Result<usize, DbError>)
        requires
            old(self).wf(),
        ensures
            final(self).wf(),
            !has_key(old(self).keys.keys@, key.key@) ==> r == Ok::<usize, DbError>(1)
                && final(self).keys.keys@ == old(self).keys.keys@.push(key),
            has_key(old(self).keys.keys@, key.key@) ==> r == Err::<usize, DbError>(DbError::InvalidQuery)
                && final(self).keys.keys@ == old(self).keys.keys@,
            final(self).torrents == old(self).torrents,
            final(self).whitelist == old(self).whitelist,
    {
        if self.keys.add(key) {
            Ok(1)
        } else {
            Err(DbError::InvalidQuery)
        }
    }

    /// The stored key of the given text.
    pub fn get_key_from_keys(&self, key: &[u8]) -> (r: Result<AuthKey, DbError>)
        requires
            self.wf(),
        ensures
            r is Err <==> !has_key(self.keys.keys@, key@),
            r is Err ==> r->Err_0 == DbError::QueryReturnedNoRows,
            r is Ok ==> r->Ok_0.key@ == key@ && r->Ok_0.valid_until == self.keys.keys@[key_index(
                self.keys.keys@,
                key@,
            )].valid_until,
    {
        match self.keys.find(key) {
            Some(k) => Ok(self.keys.keys[k].duplicate()),
            None => Err(DbError::QueryReturnedNoRows),
        }
    }

    /// Deletes the key of the given text.
    pub fn remove_key_from_keys(&mut self, key: &[u8]) -> (r: Result<usize, DbError>)
        requires
            old(self).wf(),
        ensures
            final(self).wf(),
            r is Ok <==> has_key(old(self).keys.keys@, key@),
            r is Ok ==> r->Ok_0 == 1,
            r is Err ==> r->Err_0 == DbError::QueryReturnedNoRows,
            !has_key(final(self).keys.keys@, key@),
            final(self).keys.keys@ == if r is Ok {
                old(self).keys.keys@.remove(key_index(old(self).keys.keys@, key@))
            } else {
                old(self).keys.keys@
            },
            final(self).torrents == old(self).torrents,
            final(self).whitelist == old(self).whitelist,
    {
        if self.keys.remove(key) {
            Ok(1)
        } else {
            Err(DbError::QueryReturnedNoRows)
        }
    }

    /// Stores a whitelisted hash; one already stored breaks uniqueness.
    pub fn add_info_hash_to_whitelist(&mut self, h: InfoHash) -> (r: Result<usize, DbError>)
        requires
            old(self).wf(),
        ensures
            final(self).wf(),
            r is Ok <==> !has_hash(old(self).whitelist.hashes@, h@),
            r is Ok ==> r->Ok_0 == 1,
            r is Err ==> r->Err_0 == DbError::InvalidQuery,
            has_hash(final(self).whitelist.hashes@, h@),
            forall|g: Seq<u8>|
                g != h@ ==> #[trigger] has_hash(final(self).whitelist.hashes@, g) == has_hash(
                    old(self).whitelist.hashes@,
                    g,
                ),
            final(self).torrents == old(self).torrents,
            final(self).keys == old(self).keys,
    {
        if self.whitelist.add(h) {
            Ok(1)
        } else {
            Err(DbError::InvalidQuery)
        }
    }

    /// Deletes a whitelisted hash.
    pub fn remove_info_hash_from_whitelist(&mut self, h: &InfoHash) -> (r: Result<usize, DbError>)
        requires
            old(self).wf(),
        ensures
            final(self).wf(),
            r is Ok <==> has_hash(old(self).whitelist.hashes@, h@),
            r is Ok ==> r->Ok_0 == 1,
            r is Err ==> r->Err_0 == DbError::QueryReturnedNoRows,
            !has_hash(final(self).whitelist.hashes@, h@),
            forall|g: Seq<u8>|
                g != h@ ==> #[trigger] has_hash(final(self).whitelist.hashes@, g) == has_hash(
                    old(self).whitelist.hashes@,
                    g,
                ),
            final(self).torrents == old(self).torrents,
            final(self).keys == old(self).keys,
    {
        if self.whitelist.remove(h) {
            Ok(1)
        } else {
            Err(DbError::QueryReturnedNoRows)
        }
    }

    /// The whitelisted hash whose stored text (40 lowercase hex digits) is
    /// exactly the given text; any other text finds no row.
    pub fn get_info_hash_from_whitelist(&self, text: &[u8]) -> (r: Result<InfoHash, DbError>)
        requires
            self.wf(),
        ensures
            r is Ok <==> (is_hex40(text@) && hex_of(bytes_of_hex(text@)) == text@ && has_hash(
                self.whitelist.hashes@,
                bytes_of_hex(text@),
            )),
            r is Err ==> r->Err_0 == DbError::QueryReturnedNoRows,
            r is Ok ==> r->Ok_0@ == bytes_of_hex(text@),
    {
        let h = match InfoHash::from_hex(text) {
            Some(h) => h,
            None => return Err(DbError::QueryReturnedNoRows),
        };
        let stored = h.to_hex();
        if !bytes_eq(stored.as_slice(), text) {
            return Err(DbError::QueryReturnedNoRows);
        }
        if self.whitelist.is_whitelisted(&h) {
            Ok(h)
        } else {
            Err(DbError::QueryReturnedNoRows)
        }
    }

    /// All stored keys.
    pub fn load_keys(&self) -> (r: Vec<AuthKey>)
        ensures
            r@.len() == self.keys.keys@.len(),
            forall|i: int|
                0 <= i < r@.len() ==> (#[trigger] r@[i]).key@ == self.keys.keys@[i].key@
                    && r@[i].valid_until == self.keys.keys@[i].valid_until,
    {
        let mut out: Vec<AuthKey> = Vec::new();
        let mut i: usize = 0;
        while i < self.keys.keys.len()
            invariant
                i <= self.keys.keys@.len(),
                out@.len() == i,
                forall|j: int|
                    0 <= j < i ==> (#[trigger] out@[j]).key@ == self.keys.keys@[j].key@
                        && out@[j].valid_until == self.keys.keys@[j].valid_until,
            decreases self.keys.keys@.len() - i,
        {
            out.push(self.keys.keys[i].duplicate());
            i = i + 1;
        }
        out
    }

    /// All whitelisted hashes.
    pub fn load_whitelist(&self) -> (r: Vec<InfoHash>)
        ensures
            r@ == self.whitelist.hashes@,
    {
        let mut out: Vec<InfoHash> = Vec::new();
        let mut i: usize = 0;
        while i < self.whitelist.hashes.len()
            invariant
                i <= self.whitelist.hashes@.len(),
                out@ == self.whitelist.hashes@.take(i as int),
            decreases self.whitelist.hashes@.len() - i,
        {
            out.push(self.whitelist.hashes[i]);
            i = i + 1;
            assert(out@ =~= self.whitelist.hashes@.take(i as int));
        }
        assert(self.whitelist.hashes@.take(i as int) =~= self.whitelist.hashes@);
        out
    }

    /// All stored completion counters.
    pub fn load_persistent_torrents(&self) -> (r: Vec<(InfoHash, u32)>)
        ensures
            r@ == self.torrents@,
    {
        let mut out: Vec<(InfoHash, u32)> = Vec::new();
        let mut i: usize = 0;
        while i < self.torrents.len()
            invariant
                i <= self.torrents@.len(),
                out@ == self.torrents@.take(i as int),
            decreases self.torrents@.len() - i,
        {
            out.push(self.torrents[i]);
            i = i + 1;
            assert(out@ =~= self.torrents@.take(i as int));
        }
        assert(self.torrents@.take(i as int) =~= self.torrents@);
        out
    }
}

proof fn lemma_row_index(rows: Seq<(InfoHash, u32)>, k: int)
    requires
        unique_rows(rows),
        0 <= k < rows.len(),
    ensures
        has_row(rows, rows[k].0@),
        row_index(rows, rows[k].0@) == k,
{
    assert(rows[k].0@ == rows[k].0@);
    let j = row_index(rows, rows[k].0@);
    assert(0 <= j < rows.len() && rows[j].0@ == rows[k].0@);
}

/// Two row lists with the same keys at the same positions find every key at
/// the same position.
proof fn lemma_rows_same_keys(a: Seq<(InfoHash, u32)>, b: Seq<(InfoHash, u32)>)
    requires
        unique_rows(a),
        unique_rows(b),
        a.len() == b.len(),
        forall|i: int| 0 <= i < a.len() ==> (#[trigger] a[i]).0@ == b[i].0@,
    ensures
        forall|g: Seq<u8>| #[trigger] has_row(a, g) == has_row(b, g),
        forall|g: Seq<u8>| has_row(a, g) ==> #[trigger] row_index(a, g) == row_index(b, g),
{
    assert forall|g: Seq<u8>| #[trigger] has_row(a, g) == has_row(b, g) && (has_row(a, g) ==> row_index(a, g) == row_index(b, g)) by {
        if has_row(a, g) {
            let k = row_index(a, g);
            lemma_row_index(a, k);
            assert(b[k].0@ == g);
            lemma_row_index(b, k);
        } else if has_row(b, g) {
            let k = row_index(b, g);
            assert(a[k].0@ == g);
        }
    }
}

/// Saving the same counter twice leaves the store as saving it once, and the
/// counter stored is the last one supplied.
pub proof fn lemma_save_idempotent(rows: Seq<(InfoHash, u32)>, h: InfoHash, c: u32, d: u32)
    requires
        unique_rows(rows),
    ensures
        upserted(upserted(rows, h, c), h, c) == upserted(rows, h, c),
        has_row(upserted(upserted(rows, h, d), h, c), h@),
        upserted(upserted(rows, h, d), h, c)[row_index(upserted(upserted(rows, h, d), h, c), h@)].1 == c,
{
    lemma_upserted(rows, h, c);
    let r1 = upserted(rows, h, c);
    let k1 = row_index(r1, h@);
    assert(upserted(r1, h, c) =~= r1);
    lemma_upserted(rows, h, d);
    lemma_upserted(upserted(rows, h, d), h, c);
}

/// Counters due to be saved, coalesced by info-hash: each hash once, with the
/// last counter given for it.
pub open spec fn coalesced(pending: Seq<(InfoHash, u32)>) -> Seq<(InfoHash, u32)>
    decreases pending.len(),
{
    if pending.len() == 0 {
        Seq::empty()
    } else {
        upserted(coalesced(pending.drop_last()), pending.last().0, pending.last().1)
    }
}

/// Coalesces counters that are due to be saved, keeping the last counter of
/// each info-hash in the order of first appearance.
pub fn coalesce_saves(pending: &Vec<(InfoHash, u32)>) -> (r: Vec<(InfoHash, u32)>)
    ensures
        unique_rows(r@),
        r@ == coalesced(pending@),
{
    let mut db = MemoryDatabase::new();
    let mut i: usize = 0;
    while i < pending.len()
        invariant
            i <= pending@.len(),
            db.wf(),
            db.torrents@ == coalesced(pending@.take(i as int)),
        decreases pending@.len() - i,
    {
        assert(pending@.take(i + 1).drop_last() =~= pending@.take(i as int));
        let (h, c) = pending[i];
        let _ = db.save_persistent_torrent(&h, c);
        i = i + 1;
    }
    assert(pending@.take(i as int) =~= pending@);
    db.torrents
}

/// The counter stored for `g`, if any.
pub open spec fn row_value(rows: Seq<(InfoHash, u32)>, g: Seq<u8>) -> Option<u32> {
    if has_row(rows, g) {
        Some(rows[row_index(rows, g)].1)
    } else {
        None
    }
}

/// The rows after saving the counters `cs` for `h`, one after the other.
pub open spec fn saved_all(rows: Seq<(InfoHash, u32)>, h: InfoHash, cs: Seq<u32>) -> Seq<(InfoHash, u32)>
    decreases cs.len(),
{
    if cs.len() == 0 {
        rows
    } else {
        upserted(saved_all(rows, h, cs.drop_last()), h, cs.last())
    }
}

proof fn lemma_upserted_other(rows: Seq<(InfoHash, u32)>, h: InfoHash, c: u32, g: Seq<u8>)
    requires
        unique_rows(rows),
        g != h@,
    ensures
        row_value(upserted(rows, h, c), g) == row_value(rows, g),
{
    let up = upserted(rows, h, c);
    lemma_upserted(rows, h, c);
    if has_row(rows, h@) {
        let k = row_index(rows, h@);
        lemma_row_index(rows, k);
        lemma_rows_same_keys(rows, up);
        if has_row(rows, g) {
            let j = row_index(rows, g);
            lemma_row_index(rows, j);
            assert(j != k);
        }
    } else {
        if has_row(rows, g) {
            let j = row_index(rows, g);
            lemma_row_index(rows, j);
            assert(up[j] == rows[j]);
            lemma_row_index(up, j);
        } else {
            assert forall|j: int| 0 <= j < up.len() implies (#[trigger] up[j]).0@ != g by {
                if j < rows.len() {
                    assert(up[j] == rows[j]);
                }
            }
        }
    }
}

/// After any number of saves for `h`, the stored counter of `h` is the last
/// one supplied (overwritten, not summed), and every other row is as before.
pub proof fn lemma_saves_keep_last(rows: Seq<(InfoHash, u32)>, h: InfoHash, cs: Seq<u32>)
    requires
        unique_rows(rows),
        cs.len() > 0,
    ensures
        unique_rows(saved_all(rows, h, cs)),
        row_value(saved_all(rows, h, cs), h@) == Some(cs.last()),
        forall|g: Seq<u8>| g != h@ ==> #[trigger] row_value(saved_all(rows, h, cs), g) == row_value(rows, g),
    decreases cs.len(),
{
    let prev = saved_all(rows, h, cs.drop_last());
    if cs.len() > 1 {
        lemma_saves_keep_last(rows, h, cs.drop_last());
    }
    lemma_upserted(prev, h, cs.last());
    assert forall|g: Seq<u8>| g != h@ implies #[trigger] row_value(saved_all(rows, h, cs), g) == row_value(rows, g) by {
        lemma_upserted_other(prev, h, cs.last(), g);
    }
}

/// A counter loaded at boot as `c0`, carried through a sequence of announces
/// and then saved, is stored as `c0` plus the number of announces that
/// counted as completions (while that sum fits in a `u32`).
pub proof fn lemma_persisted_completions(
    rows: Seq<(InfoHash, u32)>,
    h: InfoHash,
    s: Seq<Peer>,
    c0: u32,
    ps: Seq<Peer>,
)
    requires
        unique_rows(rows),
        c0 + completions(s, ps) <= u32::MAX,
    ensures
        row_value(upserted(rows, h, replay(s, c0, ps).1), h@) == Some((c0 + completions(s, ps)) as u32),
{
    lemma_completed_counts(s, c0, ps);
    lemma_upserted(rows, h, replay(s, c0, ps).1);
}

proof fn lemma_upserted(rows: Seq<(InfoHash, u32)>, h: InfoHash, c: u32)
    requires
        unique_rows(rows),
    ensures
        unique_rows(upserted(rows, h, c)),
        has_row(upserted(rows, h, c), h@),
        upserted(rows, h, c)[row_index(upserted(rows, h, c), h@)].1 == c,
        upserted(rows, h, c)[row_index(upserted(rows, h, c), h@)].0@ == h@,
{
    let up = upserted(rows, h, c);
    if has_row(rows, h@) {
        let k = row_index(rows, h@);
        lemma_row_index(rows, k);
        assert forall|i: int, j: int|
            0 <= i < up.len() && 0 <= j < up.len() && (#[trigger] up[i]).0@ == (#[trigger] up[j]).0@ implies i
            == j by {
            assert(rows[i].0@ == rows[j].0@);
        }
        lemma_rows_same_keys(rows, up);
    } else {
        assert forall|i: int, j: int|
            0 <= i < up.len() && 0 <= j < up.len() && (#[trigger] up[i]).0@ == (#[trigger] up[j]).0@ implies i
            == j by {
            if i < rows.len() && j == rows.len() {
                assert(rows[i].0@ == h@);
            } else if j < rows.len() && i == rows.len() {
                assert(rows[j].0@ == h@);
            }
        }
        lemma_row_index(up, rows.len() as int);
    }
}

} // verus!

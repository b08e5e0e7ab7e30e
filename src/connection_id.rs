use vstd::prelude::*;

use crate::swarm::IpAddress;

verus! {

/// Length of one time slot, in seconds. An identifier is accepted in the slot
/// it was issued in and in the one after.
pub const SLOT_SECONDS: u64 = 60;

/// The keyed digest of a client address (family tag and address bits) and a
/// time slot under the server secret.
pub uninterp spec fn connection_mac(secret: u64, family: u8, ip: u128, slot: u64) -> u64;

/// Relies on std's `BuildHasher::hash_one` with `DefaultHasher`: within one
/// build the digest depends on the hashed values alone.
#[verifier::external_body]
fn keyed_digest(secret: u64, family: u8, ip: u128, slot: u64) -> (r: u64)
    ensures
        r == connection_mac(secret, family, ip, slot),
{
    std::hash::BuildHasher::hash_one(
        &std::hash::BuildHasherDefault::<std::collections::hash_map::DefaultHasher>::default(),
        (secret, family, ip, slot),
    )
}

pub open spec fn family_of(ip: IpAddress) -> u8 {
    match ip {
        IpAddress::V4(_) => 4,
        IpAddress::V6(_) => 6,
    }
}

pub open spec fn bits_of(ip: IpAddress) -> u128 {
    match ip {
        IpAddress::V4(a) => a as u128,
        IpAddress::V6(a) => a,
    }
}

pub open spec fn slot_of(now: u64) -> u64 {
    now / SLOT_SECONDS
}

/// The identifier issued to `ip` at time `now`.
pub open spec fn issued_id(secret: u64, ip: IpAddress, now: u64) -> u64 {
    connection_mac(secret, family_of(ip), bits_of(ip), slot_of(now))
}

/// `cid` was issued to `ip` in the slot of `now` or in the one before.
pub open spec fn accepts(secret: u64, ip: IpAddress, now: u64, cid: u64) -> bool {
    cid == connection_mac(secret, family_of(ip), bits_of(ip), slot_of(now)) || (slot_of(now) > 0
        && cid == connection_mac(secret, family_of(ip), bits_of(ip), (slot_of(now) - 1) as u64))
}

fn ip_parts(ip: IpAddress) -> (r: (u8, u128))
    ensures
        r.0 == family_of(ip),
        r.1 == bits_of(ip),
{
    match ip {
        IpAddress::V4(a) => (4, a as u128),
        IpAddress::V6(a) => (6, a),
    }
}

/// Whether `cid` equals the digest of the current slot or that of the previous one.
pub fn matches_slot_digest(cid: u64, current: u64, previous: Option<u64>) -> (r: bool)
    ensures
        r == (cid == current || previous == Some(cid)),
{
    if cid == current {
        return true;
    }
    match previous {
        Some(p) => p == cid,
        None => false,
    }
}

/// A fresh connection identifier for a client at `ip`, at time `now`.
pub fn make_connection_id(secret: u64, ip: IpAddress, now: u64) -> (r: u64)
    ensures
        r == issued_id(secret, ip, now),
{
    let (family, bits) = ip_parts(ip);
    keyed_digest(secret, family, bits, now / SLOT_SECONDS)
}

/// Whether `cid` is a connection identifier that the server issued to `ip`
/// less than one to two minutes before `now`.
pub fn verify_connection_id(secret: u64, ip: IpAddress, now: u64, cid: u64) -> (r: bool)
    ensures
        r == accepts(secret, ip, now, cid),
{
    let (family, bits) = ip_parts(ip);
    let slot = now / SLOT_SECONDS;
    let current = keyed_digest(secret, family, bits, slot);
    let previous = if slot > 0 {
        Some(keyed_digest(secret, family, bits, slot - 1))
    } else {
        None
    };
    matches_slot_digest(cid, current, previous)
}

/// An identifier issued at `t` to `ip` is accepted from `ip` at any time in
/// `[t, t + 60)`.
pub proof fn lemma_accepted_within_slot(secret: u64, ip: IpAddress, t: u64, t2: u64)
    requires
        t <= t2 < t + SLOT_SECONDS,
    ensures
        accepts(secret, ip, t2, issued_id(secret, ip, t)),
{
    assert(slot_of(t2) == slot_of(t) || slot_of(t2) == slot_of(t) + 1) by (nonlinear_arith)
        requires
            t <= t2 < t + 60,
    ;
}

/// From `t + 120` on, the slots whose digests are accepted all lie after the
/// slot in which the identifier of time `t` was issued.
pub proof fn lemma_expired_after_two_slots(t: u64, t2: u64)
    requires
        t2 >= t + 2 * SLOT_SECONDS,
    ensures
        slot_of(t2) >= slot_of(t) + 2,
{
    assert(t2 / 60 >= t / 60 + 2) by (nonlinear_arith)
        requires
            t2 >= t + 120,
    ;
}

} // verus!

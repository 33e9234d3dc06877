//! Rate limits and how they combine.
use crate::table::{Key, Table};
use vstd::prelude::*;

verus! {

/// Limits in bytes per second, for each direction and version of the internet
/// protocol. Zero is no limit.
#[derive(Clone, Copy, Debug, PartialEq, Eq, Structural)]
pub struct RateLimitValue {
    pub down_v4_bps: u64,
    pub down_v6_bps: u64,
    pub up_v4_bps: u64,
    pub up_v6_bps: u64,
}

/// Rates in kilobits per second, as callers give and get them.
#[derive(Clone, Copy, Debug, PartialEq, Eq, Structural)]
pub struct RateKbps {
    pub down_v4_kbps: u64,
    pub down_v6_kbps: u64,
    pub up_v4_kbps: u64,
    pub up_v6_kbps: u64,
}

/// Kilobits per second in bytes per second. What does not fit counts as the
/// largest number of bits.
pub open spec fn bps_of(kbps: u64) -> u64 {
    ((if kbps * 1000 > u64::MAX {
        u64::MAX as int
    } else {
        kbps * 1000
    }) / 8) as u64
}

/// Bytes per second in kilobits per second, rounded down.
pub open spec fn kbps_of(bytes_per_sec: u64) -> u64 {
    ((if bytes_per_sec * 8 > u64::MAX {
        u64::MAX as int
    } else {
        bytes_per_sec * 8
    }) / 1000) as u64
}

/// Kilobits per second in bytes per second.
pub fn kbps_to_bps(kbps: u64) -> (r: u64)
    ensures
        r == bps_of(kbps),
{
    match kbps.checked_mul(1000) {
        Some(bits) => bits / 8,
        None => u64::MAX / 8,
    }
}

/// Bytes per second in kilobits per second.
pub fn bytes_to_kbps(bytes_per_sec: u64) -> (r: u64)
    ensures
        r == kbps_of(bytes_per_sec),
{
    match bytes_per_sec.checked_mul(8) {
        Some(bits) => bits / 1000,
        None => u64::MAX / 1000,
    }
}

/// A rate that fits comes back from its limit as it was.
pub proof fn law_rate_roundtrip(kbps: u64)
    requires
        kbps * 1000 <= u64::MAX,
    ensures
        kbps_of(bps_of(kbps)) == kbps,
{
    assert(kbps * 1000 / 8 == kbps * 125);
    assert(kbps * 125 * 8 / 1000 == kbps);
}

/// The limit that rates ask for.
pub open spec fn limit_of(k: RateKbps) -> RateLimitValue {
    RateLimitValue {
        down_v4_bps: bps_of(k.down_v4_kbps),
        down_v6_bps: bps_of(k.down_v6_kbps),
        up_v4_bps: bps_of(k.up_v4_kbps),
        up_v6_bps: bps_of(k.up_v6_kbps),
    }
}

/// One of the four rates of a limit.
#[derive(Clone, Copy, Debug, PartialEq, Eq, Structural)]
pub enum RateKind {
    DownV4,
    DownV6,
    UpV4,
    UpV6,
}

/// One rate of a limit, in bytes per second.
pub open spec fn limit_rate(l: RateLimitValue, kind: RateKind) -> u64 {
    match kind {
        RateKind::DownV4 => l.down_v4_bps,
        RateKind::DownV6 => l.down_v6_bps,
        RateKind::UpV4 => l.up_v4_bps,
        RateKind::UpV6 => l.up_v6_bps,
    }
}

/// One of the rates that are asked for, in kilobits per second.
pub open spec fn asked_rate(k: RateKbps, kind: RateKind) -> u64 {
    match kind {
        RateKind::DownV4 => k.down_v4_kbps,
        RateKind::DownV6 => k.down_v6_kbps,
        RateKind::UpV4 => k.up_v4_kbps,
        RateKind::UpV6 => k.up_v6_kbps,
    }
}

/// A limit lets through the bits that were asked for: eight bits to a byte, and a
/// thousand to a kilobit, each rate in its place. A rate that does not fit is the
/// largest one there is, and no limit that was asked for turns into none.
pub proof fn law_limit_lets_the_rate_through(k: RateKbps, kind: RateKind)
    ensures
        asked_rate(k, kind) * 1000 <= u64::MAX ==> limit_rate(limit_of(k), kind) * 8 == asked_rate(
            k,
            kind,
        ) * 1000,
        asked_rate(k, kind) * 1000 > u64::MAX ==> limit_rate(limit_of(k), kind)
            == 0x1fff_ffff_ffff_ffff,
        limit_rate(limit_of(k), kind) == 0 <==> asked_rate(k, kind) == 0,
{
}

/// What is shown of a limit are the kilobits that it lets through, rounded down.
pub proof fn law_shown_rate_is_let_through(l: RateLimitValue, kind: RateKind)
    requires
        limit_rate(l, kind) * 8 <= u64::MAX,
    ensures
        asked_rate(rates_of(l), kind) * 1000 <= limit_rate(l, kind) * 8 < (asked_rate(
            rates_of(l),
            kind,
        ) + 1) * 1000,
{
}

/// The rates that a limit is shown as.
pub open spec fn rates_of(l: RateLimitValue) -> RateKbps {
    RateKbps {
        down_v4_kbps: kbps_of(l.down_v4_bps),
        down_v6_kbps: kbps_of(l.down_v6_bps),
        up_v4_kbps: kbps_of(l.up_v4_bps),
        up_v6_kbps: kbps_of(l.up_v6_bps),
    }
}

pub(crate) fn to_limit(k: RateKbps) -> (r: RateLimitValue)
    ensures
        r == limit_of(k),
{
    RateLimitValue {
        down_v4_bps: kbps_to_bps(k.down_v4_kbps),
        down_v6_bps: kbps_to_bps(k.down_v6_kbps),
        up_v4_bps: kbps_to_bps(k.up_v4_kbps),
        up_v6_bps: kbps_to_bps(k.up_v6_kbps),
    }
}

pub(crate) fn to_rates(l: &RateLimitValue) -> (r: RateKbps)
    ensures
        r == rates_of(*l),
{
    RateKbps {
        down_v4_kbps: bytes_to_kbps(l.down_v4_bps),
        down_v6_kbps: bytes_to_kbps(l.down_v6_bps),
        up_v4_kbps: bytes_to_kbps(l.up_v4_bps),
        up_v6_kbps: bytes_to_kbps(l.up_v6_bps),
    }
}

/// The lower of two limits, where zero is no limit.
pub open spec fn stricter(a: u64, b: u64) -> u64 {
    if a == 0 {
        b
    } else if b == 0 || a <= b {
        a
    } else {
        b
    }
}

/// The lower of two limits, where zero is no limit.
pub fn stricter_limit(a: u64, b: u64) -> (r: u64)
    ensures
        r == stricter(a, b),
{
    if a == 0 {
        return b;
    }
    if b == 0 {
        return a;
    }
    if a < b {
        a
    } else {
        b
    }
}

/// Whether every rate that a limit lets through another one lets through too.
pub open spec fn within(a: u64, b: u64) -> bool {
    b == 0 || 0 < a <= b
}

/// The stricter of two limits lets through no more than either; the order of the
/// two, or of three, does not matter.
pub proof fn law_stricter_is_a_meet(a: u64, b: u64, c: u64)
    ensures
        within(stricter(a, b), a),
        within(stricter(a, b), b),
        within(c, a) && within(c, b) ==> within(c, stricter(a, b)),
        stricter(a, b) == stricter(b, a),
        stricter(a, stricter(b, c)) == stricter(stricter(a, b), c),
        stricter(a, a) == a,
{
}

/// The stricter of two limits, rate by rate.
pub open spec fn stricter_of(a: RateLimitValue, b: RateLimitValue) -> RateLimitValue {
    RateLimitValue {
        down_v4_bps: stricter(a.down_v4_bps, b.down_v4_bps),
        down_v6_bps: stricter(a.down_v6_bps, b.down_v6_bps),
        up_v4_bps: stricter(a.up_v4_bps, b.up_v4_bps),
        up_v6_bps: stricter(a.up_v6_bps, b.up_v6_bps),
    }
}

/// Whether a limit lets through no more than another one, rate by rate.
pub open spec fn limit_within(a: RateLimitValue, b: RateLimitValue) -> bool {
    &&& within(a.down_v4_bps, b.down_v4_bps)
    &&& within(a.down_v6_bps, b.down_v6_bps)
    &&& within(a.up_v4_bps, b.up_v4_bps)
    &&& within(a.up_v6_bps, b.up_v6_bps)
}

/// Limits with one more, which tightens what there is.
pub open spec fn merged<K>(m: Map<K, RateLimitValue>, key: K, incoming: RateLimitValue) -> Map<
    K,
    RateLimitValue,
> {
    m.insert(
        key,
        if m.dom().contains(key) {
            stricter_of(m[key], incoming)
        } else {
            incoming
        },
    )
}

/// Adds a limit; one that is there is tightened.
pub fn merge_limit<K: Key>(map: &mut Table<K, RateLimitValue>, key: K, incoming: RateLimitValue)
    requires
        old(map).wf(),
    ensures
        final(map).wf(),
        final(map)@ == merged(old(map)@, key@, incoming),
{
    let value = match map.get(&key) {
        Some(there) => RateLimitValue {
            down_v4_bps: stricter_limit(there.down_v4_bps, incoming.down_v4_bps),
            down_v6_bps: stricter_limit(there.down_v6_bps, incoming.down_v6_bps),
            up_v4_bps: stricter_limit(there.up_v4_bps, incoming.up_v4_bps),
            up_v6_bps: stricter_limit(there.up_v6_bps, incoming.up_v6_bps),
        },
        None => incoming,
    };
    map.insert(key, value);
}

/// The keys that a kernel table holds and that no wanted entry has.
pub open spec fn stale<K: Key>(existing: Seq<K>, wanted: Set<K::V>) -> Seq<K::V>
    decreases existing.len(),
{
    if existing.len() == 0 {
        Seq::empty()
    } else if wanted.contains(existing.last()@) {
        stale(existing.drop_last(), wanted)
    } else {
        stale(existing.drop_last(), wanted).push(existing.last()@)
    }
}

/// The keys over plain values.
pub open spec fn key_views<K: Key>(v: Seq<K>) -> Seq<K::V> {
    v.map_values(|k: K| k@)
}

/// The keys to take out of a kernel table, so that it holds the wanted entries
/// alone.
pub fn stale_keys<K: Key>(existing: &Vec<K>, desired: &Table<K, RateLimitValue>) -> (r: Vec<K>)
    requires
        desired.wf(),
    ensures
        key_views(r@) == stale(existing@, desired@.dom()),
{
    let mut r: Vec<K> = Vec::new();
    let ghost wanted = desired@.dom();
    let mut i: usize = 0;
    assert(existing@.take(0) =~= Seq::<K>::empty());
    assert(key_views(r@) =~= stale(existing@.take(0), wanted));
    while i < existing.len()
        invariant
            i <= existing@.len(),
            desired.wf(),
            wanted == desired@.dom(),
            key_views(r@) == stale(existing@.take(i as int), wanted),
        decreases existing@.len() - i,
    {
        assert(existing@.take(i + 1).drop_last() =~= existing@.take(i as int));
        if !desired.contains(&existing[i]) {
            let ghost before = key_views(r@);
            let k = existing[i].dup();
            let ghost kv = k@;
            r.push(k);
            assert(key_views(r@) =~= before.push(kv));
        }
        i += 1;
    }
    assert(existing@.take(i as int) =~= existing@);
    r
}

} // verus!

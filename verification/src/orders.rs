//! In which order lists are told.
use crate::conntrack::ConnectionDeviceStats;
use crate::dnsrec::{any_blocked, blocked, record_wanted, DnsQueriesQuery, RecordModel};
use crate::netlink::ConnectionFlow;
use crate::offload::flows_kept;
use crate::policy::{GuestWhitelistEntryApi, InterfaceRateLimitApi};
use crate::runtime::PersistedKnownDevice;
use crate::snapshot::{lemma_texts_less_total, texts_less, DeviceListItem};
use crate::sort::{ordered, Ranked};
use crate::text::{cut, lemma_find_char, lemma_text_less_total, lowered, text_less, trimmed};
use vstd::prelude::*;

verus! {

/// Whether two texts begin alike up to a place.
pub open spec fn alike(a: Seq<char>, b: Seq<char>, n: int) -> bool {
    n <= a.len() && n <= b.len() && forall|i: int| 0 <= i < n ==> a[i] == b[i]
}

/// Whether a text stands before another at a place: they are alike before it, and there the one has
/// ended or has the lesser character.
pub open spec fn less_at(a: Seq<char>, b: Seq<char>, n: int) -> bool {
    &&& 0 <= n
    &&& alike(a, b, n)
    &&& n < b.len()
    &&& n == a.len() || a[n] < b[n]
}

/// A text comes before another by the first character in which they differ; where there is none,
/// the shorter one does.
pub proof fn law_texts_are_ordered_by_their_characters(a: Seq<char>, b: Seq<char>)
    ensures
        text_less(a, b) <==> exists|n: int| less_at(a, b, n),
    decreases a.len(),
{
    if text_less(a, b) {
        if a.len() == 0 || a[0] != b[0] {
            assert(less_at(a, b, 0));
        } else {
            let x = a.drop_first();
            let y = b.drop_first();
            law_texts_are_ordered_by_their_characters(x, y);
            let n = choose|n: int| less_at(x, y, n);
            assert forall|i: int| 0 <= i < n + 1 implies a[i] == b[i] by {
                if i > 0 {
                    assert(x[i - 1] == y[i - 1]);
                }
            }
            assert(less_at(a, b, n + 1));
        }
    }
    if exists|n: int| less_at(a, b, n) {
        let n = choose|n: int| less_at(a, b, n);
        if n > 0 {
            let x = a.drop_first();
            let y = b.drop_first();
            assert(a[0] == b[0]);
            assert forall|i: int| 0 <= i < n - 1 implies x[i] == y[i] by {
                assert(a[i + 1] == b[i + 1]);
            }
            assert(less_at(x, y, n - 1));
            law_texts_are_ordered_by_their_characters(x, y);
        }
    }
}

/// Devices are listed by the names of their interfaces, and on one interface by their addresses.
pub proof fn law_devices_are_listed_by_interface(v: Seq<DeviceListItem>, i: int, j: int)
    requires
        ordered(v),
        0 <= i < j < v.len(),
    ensures
        !text_less(v[j].logical_iface@, v[i].logical_iface@),
        v[i].logical_iface@ == v[j].logical_iface@ ==> !texts_less(v[j]@.ipv4, v[i]@.ipv4),
        v[i].logical_iface@ == v[j].logical_iface@ && v[i]@.ipv4 == v[j]@.ipv4 ==> !texts_less(
            v[j]@.ipv6,
            v[i]@.ipv6,
        ),
{
    assert(!v[j].precedes(v[i]));
    lemma_text_less_total(v[j].logical_iface@, v[i].logical_iface@);
    lemma_texts_less_total(v[j]@.ipv4, v[i]@.ipv4);
}

/// Devices are listed by how many connections they have, the most first, and those with as many by
/// their hardware addresses.
pub proof fn law_busiest_devices_come_first(v: Seq<ConnectionDeviceStats>, i: int, j: int)
    requires
        ordered(v),
        0 <= i < j < v.len(),
    ensures
        v[i].total_connections >= v[j].total_connections,
        v[i].total_connections == v[j].total_connections ==> !text_less(
            v[j].mac@,
            v[i].mac@,
        ),
{
    assert(!v[j].precedes(v[i]));
}

/// Connections are listed by where they come from, then by where they go, first by the texts of
/// the addresses and then by the ports.
pub proof fn law_connections_are_listed_by_their_ends(v: Seq<ConnectionFlow>, i: int, j: int)
    requires
        ordered(v),
        0 <= i < j < v.len(),
    ensures
        !text_less(v[j].orig.src@, v[i].orig.src@),
        v[i].orig.src@ == v[j].orig.src@ ==> !text_less(v[j].orig.dst@, v[i].orig.dst@),
        v[i].orig.src@ == v[j].orig.src@ && v[i].orig.dst@ == v[j].orig.dst@ ==> {
            ||| v[i].orig.sport < v[j].orig.sport
            ||| v[i].orig.sport == v[j].orig.sport && v[i].orig.dport <= v[j].orig.dport
        },
{
    assert(!v[j].precedes(v[i]));
    lemma_text_less_total(v[j].orig.src@, v[i].orig.src@);
    lemma_text_less_total(v[j].orig.dst@, v[i].orig.dst@);
}

/// Limits are listed by the names of their interfaces.
pub proof fn law_limits_are_listed_by_interface(v: Seq<InterfaceRateLimitApi>, i: int, j: int)
    requires
        ordered(v),
        0 <= i < j < v.len(),
    ensures
        !text_less(v[j].iface@, v[i].iface@),
{
    assert(!v[j].precedes(v[i]));
}

/// Spared devices are listed by the names of their interfaces and by their hardware addresses.
pub proof fn law_spared_devices_are_listed_by_interface(
    v: Seq<GuestWhitelistEntryApi>,
    i: int,
    j: int,
)
    requires
        ordered(v),
        0 <= i < j < v.len(),
    ensures
        !text_less(v[j].iface@, v[i].iface@),
        v[i].iface@ == v[j].iface@ ==> !text_less(v[j].mac@, v[i].mac@),
{
    assert(!v[j].precedes(v[i]));
}

/// Known devices are stored by the names of their interfaces and by their hardware addresses.
pub proof fn law_known_devices_are_stored_by_interface(
    v: Seq<PersistedKnownDevice>,
    i: int,
    j: int,
)
    requires
        ordered(v),
        0 <= i < j < v.len(),
    ensures
        !text_less(v[j].logical_iface@, v[i].logical_iface@),
        v[i].logical_iface@ == v[j].logical_iface@ ==> !text_less(v[j].mac@, v[i].mac@),
{
    assert(!v[j].precedes(v[i]));
    lemma_text_less_total(v[j].logical_iface@, v[i].logical_iface@);
}

/// What is remembered of an offload counter is kept as long as the counter is there and in use.
pub proof fn law_counters_in_use_are_kept(
    m: Map<(Seq<u32>, u8, u8, Seq<u8>), u64>,
    there: Set<(Seq<u32>, u8, u8, Seq<u8>)>,
    idle: Seq<(Seq<u32>, u8, u8, Seq<u8>)>,
    k: (Seq<u32>, u8, u8, Seq<u8>),
)
    ensures
        !there.contains(k) || idle.contains(k) ==> !flows_kept(m, there, idle).dom().contains(k),
        there.contains(k) && !idle.contains(k) && m.dom().contains(k) ==> flows_kept(
            m,
            there,
            idle,
        ).dom().contains(k) && flows_kept(m, there, idle)[k] == m[k],
{
}

/// An answer is one of a blocking resolver if it is the zero address of a version, alone or behind
/// the kind of its record.
pub proof fn law_zero_addresses_are_blocking_answers(v: Seq<char>, kind: Seq<char>, data: Seq<char>)
    requires
        !kind.contains(':'),
    ensures
        trimmed(v) == "0.0.0.0"@ || trimmed(v) == "::"@ ==> blocked(v),
        trimmed(v) == kind + ":"@ + data && lowered(kind) == lowered("A"@) && trimmed(data)
            == "0.0.0.0"@ ==> blocked(v),
        trimmed(v) == kind + ":"@ + data && lowered(kind) == lowered("AAAA"@) && trimmed(data)
            == "::"@ ==> blocked(v),
        trimmed(v) == kind + ":"@ + data && trimmed(v) != "::"@ && lowered(kind) != lowered("A"@)
            && lowered(kind) != lowered("AAAA"@) && trimmed(v) != "0.0.0.0"@ ==> !blocked(v),
        trimmed(v) == kind + ":"@ + data && trimmed(v) != "::"@ && trimmed(v) != "0.0.0.0"@
            && trimmed(data) != "::"@ && trimmed(data) != "0.0.0.0"@ ==> !blocked(v),
        !trimmed(v).contains(':') && trimmed(v) != "0.0.0.0"@ ==> !blocked(v),
{
    reveal_strlit(":");
    reveal_strlit("::");
    let t = trimmed(v);
    let n = kind.len() as int;
    if t == kind + ":"@ + data {
        assert forall|j: int| 0 <= j < n implies t[j] != ':' by {
            assert(t[j] == kind[j]);
            assert(kind.contains(kind[j]));
        }
        assert(t[n] == ':');
        lemma_find_char(t, ':', n);
        assert(t.take(n) =~= kind);
        assert(t.skip(n + 1) =~= data);
        assert(cut(t, ':') == Some((kind, data)));
    }
    if !t.contains(':') {
        assert forall|j: int| 0 <= j < t.len() implies t[j] != ':' by {
            assert(t.contains(t[j]));
        }
        lemma_find_char(t, ':', t.len() as int);
        assert("::"@[0] == ':');
        if t == "::"@ {
            assert(t.contains(t[0]));
        }
    }
}

/// A request for what was blocked asks for the records with a blocking answer.
pub proof fn law_blocked_queries_are_found(x: RecordModel, q: DnsQueriesQuery)
    requires
        q.domain is None && q.device is None && q.dns_server is None && q.query_type is None
            && q.iface is None && q.protocol is None,
        q.result matches Some(t) && lowered(trimmed(t@)) == "blocked"@,
    ensures
        record_wanted(x, q) <==> (exists|i: int|
            0 <= i < x.response_ips.len() && blocked(#[trigger] x.response_ips[i])) || (exists|
            i: int,
        | 0 <= i < x.response_records.len() && blocked(#[trigger] x.response_records[i])),
{
    reveal_strlit("blocked");
    if let Some(t) = q.result {
        assert(lowered(trimmed(t@)).len() == trimmed(t@).len());
    }
    assert(any_blocked(x.response_ips) == exists|i: int|
        0 <= i < x.response_ips.len() && blocked(#[trigger] x.response_ips[i]));
}

} // verus!

//! What is told of connections, counted one by one.
use crate::conntrack::{
    event_step, flow_wanted, flows_wanted, fresh_stats, has_address, places_of, stats_noted,
    stats_of, unique_owner, with_connection, ConnectionGlobalStats, DeviceStatModel, FlowState,
    IdentityModel,
};
use crate::flowwire::two;
use crate::ip::parsed_ip;
use crate::netlink::{
    aligned, flow_in, message_list, message_step, num16, num32, ConnectionFlow, ConnectionModel,
    EndpointModel, FlowKey, MessageStep, NetlinkError, ParsedFlowModel,
};
use crate::text::lowered;
use vstd::prelude::*;

verus! {

/// One of the numbers that are told of connections.
#[derive(Clone, Copy, Debug, PartialEq, Eq, Structural)]
pub enum Tally {
    Total,
    Tcp,
    Udp,
    Established,
    Closing,
    CloseWait,
}

/// A number that is told.
pub open spec fn tally(g: ConnectionGlobalStats, t: Tally) -> u32 {
    match t {
        Tally::Total => g.total_connections,
        Tally::Tcp => g.tcp_connections,
        Tally::Udp => g.udp_connections,
        Tally::Established => g.established_tcp,
        Tally::Closing => g.time_wait_tcp,
        Tally::CloseWait => g.close_wait_tcp,
    }
}

/// Whether a connection is one of those that a number counts.
pub open spec fn counts_as(f: ConnectionModel, t: Tally) -> bool {
    let tcp = lowered(f.protocol) == "tcp"@;
    let udp = lowered(f.protocol) == "udp"@;
    match t {
        Tally::Total => tcp || udp,
        Tally::Tcp => tcp,
        Tally::Udp => udp,
        Tally::Established => tcp && f.state == Some("ESTABLISHED"@),
        Tally::Closing => tcp && (f.state == Some("TIME_WAIT"@) || f.state == Some("FIN_WAIT"@)
            || f.state == Some("FIN_WAIT2"@) || f.state == Some("CLOSING"@) || f.state == Some(
            "LAST_ACK"@,
        )),
        Tally::CloseWait => tcp && f.state == Some("CLOSE_WAIT"@),
    }
}

/// How many connections have a property.
pub open spec fn how_many(flows: Seq<ConnectionModel>, p: spec_fn(ConnectionModel) -> bool) -> nat
    decreases flows.len(),
{
    if flows.len() == 0 {
        0
    } else {
        how_many(flows.drop_last(), p) + if p(flows.last()) {
            1nat
        } else {
            0nat
        }
    }
}

/// A number of connections as it is told.
pub open spec fn told(n: nat) -> int {
    if n > u32::MAX {
        u32::MAX as int
    } else {
        n as int
    }
}

proof fn lemma_one_more(g: ConnectionGlobalStats, f: ConnectionModel, t: Tally)
    ensures
        tally(with_connection(g, f.protocol, f.state), t) == if counts_as(f, t) {
            if tally(g, t) == u32::MAX {
                u32::MAX as int
            } else {
                tally(g, t) + 1
            }
        } else {
            tally(g, t) as int
        },
        with_connection(g, f.protocol, f.state).last_updated == g.last_updated,
{
    reveal_strlit("tcp");
    reveal_strlit("udp");
    reveal_strlit("ESTABLISHED");
    reveal_strlit("TIME_WAIT");
    reveal_strlit("FIN_WAIT");
    reveal_strlit("FIN_WAIT2");
    reveal_strlit("CLOSING");
    reveal_strlit("LAST_ACK");
    reveal_strlit("CLOSE_WAIT");
    assert("tcp"@[0] == 't' && "udp"@[0] == 'u');
    assert("tcp"@ != "udp"@);
    assert("CLOSE_WAIT"@.len() == 10 && "ESTABLISHED"@.len() == 11);
}

/// Every number that is told of all connections is how many of them it counts: those of
/// TCP and of UDP, both together, and of TCP those in a state.
pub proof fn law_connections_are_counted(
    flows: Seq<ConnectionModel>,
    identities: Seq<IdentityModel>,
    now: u64,
    t: Tally,
)
    ensures
        tally(stats_of(flows, identities, now).0, t) == told(
            how_many(flows, |f: ConnectionModel| counts_as(f, t)),
        ),
        stats_of(flows, identities, now).0.last_updated == now,
    decreases flows.len(),
{
    if flows.len() > 0 {
        law_connections_are_counted(flows.drop_last(), identities, now, t);
        let g = stats_of(flows.drop_last(), identities, now).0;
        lemma_one_more(g, flows.last(), t);
    }
}

/// Whether a device has an address that no other device of the list has.
pub open spec fn sole_owner(identities: Seq<IdentityModel>, ip: Seq<u8>, i: int) -> bool {
    &&& identities[i].ipv4.contains(ip) || identities[i].ipv6.contains(ip)
    &&& forall|j: int|
        0 <= j < identities.len() && j != i ==> !(#[trigger] identities[j]).ipv4.contains(ip)
            && !identities[j].ipv6.contains(ip)
}

/// Whether a connection comes from a device: from an address that it alone has.
pub open spec fn comes_from(f: ConnectionModel, identities: Seq<IdentityModel>, i: int) -> bool {
    parsed_ip(f.orig.src) matches Some(ip) && sole_owner(identities, ip, i)
}

/// The place of a device in a list of numbers, by its address; the length where it is not
/// there.
spec fn place(s: Seq<DeviceStatModel>, mac: Seq<char>) -> int
    decreases s.len(),
{
    if s.len() == 0 || s[0].mac == mac {
        0
    } else {
        1 + place(s.drop_first(), mac)
    }
}

proof fn lemma_place(s: Seq<DeviceStatModel>, mac: Seq<char>)
    ensures
        0 <= place(s, mac) <= s.len(),
        place(s, mac) < s.len() ==> s[place(s, mac)].mac == mac,
        forall|k: int| 0 <= k < place(s, mac) ==> (#[trigger] s[k]).mac != mac,
    decreases s.len(),
{
    if s.len() > 0 && s[0].mac != mac {
        let t = s.drop_first();
        lemma_place(t, mac);
        assert forall|k: int| 0 <= k < place(s, mac) implies (#[trigger] s[k]).mac != mac by {
            if k > 0 {
                assert(t[k - 1] == s[k]);
            }
        }
    }
}

proof fn lemma_noted(
    s: Seq<DeviceStatModel>,
    d: IdentityModel,
    protocol: Seq<char>,
    state: Option<Seq<char>>,
    now: u64,
)
    ensures
        ({
            let r = stats_noted(s, d, protocol, state, now);
            let p = place(s, d.mac);
            let f = fresh_stats(d, now);
            if p < s.len() {
                r == s.update(
                    p,
                    DeviceStatModel {
                        counts: with_connection(s[p].counts, protocol, state),
                        ..s[p]
                    },
                )
            } else {
                r == s.push(
                    DeviceStatModel { counts: with_connection(f.counts, protocol, state), ..f },
                )
            }
        }),
    decreases s.len(),
{
    let r = stats_noted(s, d, protocol, state, now);
    let p = place(s, d.mac);
    let f = fresh_stats(d, now);
    lemma_place(s, d.mac);
    if s.len() == 0 {
        assert(r =~= s.push(
            DeviceStatModel { counts: with_connection(f.counts, protocol, state), ..f },
        ));
    } else if s[0].mac != d.mac {
        let t = s.drop_first();
        lemma_noted(t, d, protocol, state, now);
        lemma_place(t, d.mac);
        if p < s.len() {
            assert(r =~= s.update(
                p,
                DeviceStatModel { counts: with_connection(s[p].counts, protocol, state), ..s[p] },
            ));
        } else {
            assert(r =~= s.push(
                DeviceStatModel { counts: with_connection(f.counts, protocol, state), ..f },
            ));
        }
    }
}

/// Whether no two devices have one hardware address.
pub open spec fn distinct(identities: Seq<IdentityModel>) -> bool {
    forall|i: int, j: int|
        0 <= i < j < identities.len() ==> (#[trigger] identities[i]).mac != (
        #[trigger] identities[j]).mac
}

proof fn lemma_owner(identities: Seq<IdentityModel>, ip: Seq<u8>)
    ensures
        match unique_owner(identities, ip) {
            Some(d) => exists|i: int|
                0 <= i < identities.len() && #[trigger] sole_owner(identities, ip, i)
                    && identities[i] == d,
            None => forall|i: int|
                0 <= i < identities.len() ==> !#[trigger] sole_owner(identities, ip, i),
        },
{
    let p = places_of(identities, ip);
    if p.len() == 1 {
        let i = p[0];
        assert forall|j: int| 0 <= j < identities.len() && j != i implies !(
        #[trigger] identities[j]).ipv4.contains(ip) && !identities[j].ipv6.contains(ip) by {
            lemma_place_holds(identities, ip, j);
        }
        assert(p.contains(i));
        lemma_place_holds(identities, ip, i);
        assert(sole_owner(identities, ip, i));
    } else {
        assert forall|i: int| 0 <= i < identities.len() implies !#[trigger] sole_owner(
            identities,
            ip,
            i,
        ) by {
            if sole_owner(identities, ip, i) {
                lemma_place_holds(identities, ip, i);
                let a = choose|a: int| 0 <= a < p.len() && p[a] == i;
                let b = if a == 0 {
                    1int
                } else {
                    0int
                };
                if a == 0 {
                    lemma_places_rise(identities, ip, 0, 1);
                } else {
                    lemma_places_rise(identities, ip, 0, a);
                }
                assert(p.contains(p[b]));
                lemma_place_holds(identities, ip, p[b]);
                assert(has_address(identities[p[b]], ip));
            }
        }
    }
}

proof fn lemma_place_holds(s: Seq<IdentityModel>, ip: Seq<u8>, j: int)
    ensures
        places_of(s, ip).contains(j) <==> 0 <= j < s.len() && has_address(s[j], ip),
    decreases s.len(),
{
    let p = places_of(s, ip);
    if s.len() > 0 {
        let t = s.drop_last();
        let q = places_of(t, ip);
        lemma_place_holds(t, ip, j);
        if p.contains(j) {
            let a = choose|a: int| 0 <= a < p.len() && p[a] == j;
            if a < q.len() {
                assert(q[a] == j);
            }
        }
        if q.contains(j) {
            let a = choose|a: int| 0 <= a < q.len() && q[a] == j;
            assert(p[a] == j);
        }
        if j == s.len() - 1 && has_address(s[j], ip) {
            assert(p[q.len() as int] == j);
        }
    }
}

proof fn lemma_places_rise(s: Seq<IdentityModel>, ip: Seq<u8>, a: int, b: int)
    requires
        0 <= a < b < places_of(s, ip).len(),
    ensures
        places_of(s, ip)[a] < places_of(s, ip)[b],
    decreases s.len(),
{
    if s.len() > 0 {
        let t = s.drop_last();
        let q = places_of(t, ip);
        if b < q.len() {
            lemma_places_rise(t, ip, a, b);
        } else {
            assert(q.contains(q[a]));
            lemma_place_holds(t, ip, q[a]);
        }
    }
}

/// Every number that is told of a device is how many of the connections that come from it
/// the number counts; and a device is told, once, just if a connection comes from it.
/// A connection comes from the device that alone has its source address.
#[verifier::spinoff_prover]
#[verifier::rlimit(40)]
pub proof fn law_devices_count_their_connections(
    flows: Seq<ConnectionModel>,
    identities: Seq<IdentityModel>,
    now: u64,
    i: int,
)
    requires
        distinct(identities),
        0 <= i < identities.len(),
    ensures
        ({
            let s = stats_of(flows, identities, now).1;
            let d = identities[i];
            &&& (exists|k: int| 0 <= k < s.len() && (#[trigger] s[k]).mac == d.mac) <==> how_many(
                flows,
                |f: ConnectionModel| comes_from(f, identities, i),
            ) > 0
            &&& forall|k: int, t: Tally|
                0 <= k < s.len() && s[k].mac == d.mac ==> #[trigger] tally(s[k].counts, t) == told(
                    how_many(
                        flows,
                        |f: ConnectionModel| comes_from(f, identities, i) && counts_as(f, t),
                    ),
                )
            &&& forall|k: int|
                0 <= k < s.len() && (#[trigger] s[k]).mac == d.mac ==> s[k].hostname == d.hostname
                    && s[k].logical_iface == d.logical_iface
            &&& forall|a: int, b: int|
                0 <= a < b < s.len() ==> (#[trigger] s[a]).mac != (#[trigger] s[b]).mac
        }),
    decreases flows.len(),
{
    let s = stats_of(flows, identities, now).1;
    let d = identities[i];
    let from = |f: ConnectionModel| comes_from(f, identities, i);
    if flows.len() > 0 {
        let front = flows.drop_last();
        let f = flows.last();
        let r = stats_of(front, identities, now).1;
        law_devices_count_their_connections(front, identities, now, i);
        let n = how_many(front, from);
        let p = place(r, d.mac);
        lemma_place(r, d.mac);
        if let Some(ip) = parsed_ip(f.orig.src) {
            lemma_owner(identities, ip);
            if let Some(e) = unique_owner(identities, ip) {
                let j = choose|j: int|
                    0 <= j < identities.len() && #[trigger] sole_owner(identities, ip, j)
                        && identities[j] == e;
                lemma_noted(r, e, f.protocol, f.state, now);
                lemma_place(r, e.mac);
                let q = place(r, e.mac);
                if j != i {
                    assert(e.mac != d.mac) by {
                        if i < j {
                            assert(identities[i].mac != identities[j].mac);
                        } else {
                            assert(identities[j].mac != identities[i].mac);
                        }
                    }
                    assert(!comes_from(f, identities, i)) by {
                        assert(identities[j].ipv4.contains(ip) || identities[j].ipv6.contains(ip));
                    }
                    assert forall|k: int| 0 <= k < s.len() && (#[trigger] s[k]).mac == d.mac implies k
                        < r.len() && s[k] == r[k] by {}
                    if exists|k: int| 0 <= k < r.len() && (#[trigger] r[k]).mac == d.mac {
                        let k = choose|k: int| 0 <= k < r.len() && (#[trigger] r[k]).mac == d.mac;
                        assert(s[k].mac == d.mac);
                    }
                    assert forall|k: int, t: Tally|
                        0 <= k < s.len() && s[k].mac == d.mac implies #[trigger] tally(
                        s[k].counts,
                        t,
                    ) == told(
                        how_many(
                            flows,
                            |f: ConnectionModel| comes_from(f, identities, i) && counts_as(f, t),
                        ),
                    ) by {
                        assert(s[k] == r[k]);
                        assert(tally(r[k].counts, t) == told(
                            how_many(
                                front,
                                |f: ConnectionModel|
                                    comes_from(f, identities, i) && counts_as(f, t),
                            ),
                        ));
                    }
                } else {
                    assert(comes_from(f, identities, i));
                    assert(s[q].mac == d.mac);
                    assert forall|k: int, t: Tally|
                        0 <= k < s.len() && s[k].mac == d.mac implies #[trigger] tally(
                        s[k].counts,
                        t,
                    ) == told(
                        how_many(
                            flows,
                            |f: ConnectionModel| comes_from(f, identities, i) && counts_as(f, t),
                        ),
                    ) by {
                        let g = |f: ConnectionModel|
                            comes_from(f, identities, i) && counts_as(f, t);
                        if q < r.len() {
                            if k != q {
                                assert(r[k].mac == d.mac);
                            }
                            assert(tally(r[q].counts, t) == told(how_many(front, g)));
                            lemma_one_more(r[q].counts, f, t);
                        } else {
                            lemma_none(front, from, g);
                            lemma_one_more(
                                fresh_stats(e, now).counts,
                                f,
                                t,
                            );
                        }
                    }
                }
            } else {
                assert(!sole_owner(identities, ip, i));
            }
        }
        if s == r && !comes_from(f, identities, i) {
            assert forall|k: int, t: Tally|
                0 <= k < s.len() && s[k].mac == d.mac implies #[trigger] tally(s[k].counts, t)
                == told(
                how_many(
                    flows,
                    |f: ConnectionModel| comes_from(f, identities, i) && counts_as(f, t),
                ),
            ) by {
                assert(tally(r[k].counts, t) == told(
                    how_many(
                        front,
                        |f: ConnectionModel| comes_from(f, identities, i) && counts_as(f, t),
                    ),
                ));
            }
        }
    }
}

proof fn lemma_none(
    flows: Seq<ConnectionModel>,
    p: spec_fn(ConnectionModel) -> bool,
    q: spec_fn(ConnectionModel) -> bool,
)
    requires
        how_many(flows, p) == 0,
        forall|f: ConnectionModel| #[trigger] q(f) ==> p(f),
    ensures
        how_many(flows, q) == 0,
    decreases flows.len(),
{
    if flows.len() > 0 {
        lemma_none(flows.drop_last(), p, q);
    }
}

/// A message of the kernel's: its number, ten bytes that are of no account, and what it
/// says.
pub struct Framed {
    pub kind: u16,
    pub other: Seq<u8>,
    pub payload: Seq<u8>,
}

/// Four bytes of a number in a byte order.
pub open spec fn length_wire(n: int, big: bool) -> Seq<u8> {
    let a = (n % 256) as u8;
    let b = (n / 256 % 256) as u8;
    let c = (n / 65536 % 256) as u8;
    let d = (n / 0x100_0000) as u8;
    if big {
        seq![d, c, b, a]
    } else {
        seq![a, b, c, d]
    }
}

/// A message in bytes: its length with the sixteen bytes before what it says, its number,
/// and zeros up to a multiple of four bytes.
pub open spec fn framed_wire(m: Framed, big: bool) -> Seq<u8> {
    let n = 16 + m.payload.len();
    length_wire(n as int, big) + two(m.kind as int, big) + m.other + m.payload + Seq::new(
        ((4 - n % 4) % 4) as nat,
        |i: int| 0u8,
    )
}

/// Messages one after the other.
#[verifier::opaque]
pub open spec fn all_framed(s: Seq<Framed>, big: bool) -> Seq<u8>
    decreases s.len(),
{
    if s.len() == 0 {
        Seq::empty()
    } else {
        framed_wire(s[0], big) + all_framed(s.drop_first(), big)
    }
}

/// What messages say, with their numbers.
pub open spec fn said(s: Seq<Framed>) -> Seq<(u16, Seq<u8>)> {
    Seq::new(s.len(), |i: int| (s[i].kind, s[i].payload))
}

proof fn lemma_length(b: Seq<u8>, at: int, n: int, big: bool)
    requires
        0 <= n < 0x1_0000_0000,
        b[at] == length_wire(n, big)[0],
        b[at + 1] == length_wire(n, big)[1],
        b[at + 2] == length_wire(n, big)[2],
        b[at + 3] == length_wire(n, big)[3],
    ensures
        num32(b, at, big) == n,
{
}

proof fn lemma_kind(b: Seq<u8>, at: int, n: int, big: bool)
    requires
        0 <= n < 0x1_0000,
        b[at] == two(n, big)[0],
        b[at + 1] == two(n, big)[1],
    ensures
        num16(b, at, big) == n,
{
}

#[verifier::spinoff_prover]
#[verifier::rlimit(40)]
proof fn lemma_framed(b: Seq<u8>, at: int, m: Framed, rest: Seq<u8>, big: bool)
    requires
        0 <= at <= b.len(),
        b.skip(at) == framed_wire(m, big) + rest,
        m.other.len() == 10,
        m.payload.len() <= 0x7fff_ffff,
    ensures
        message_step(b, at, big) == (MessageStep::Item {
            kind: m.kind,
            payload: m.payload,
            next: at + framed_wire(m, big).len(),
        }),
        at + framed_wire(m, big).len() <= b.len(),
        b.skip(at + framed_wire(m, big).len()) == rest,
{
    let w = framed_wire(m, big);
    let n = 16 + m.payload.len();
    let pad = (4 - n % 4) % 4;
    let all = b.skip(at);
    assert(all.len() == b.len() - at);
    let k = two(m.kind as int, big);
    let h = length_wire(n as int, big);
    assert(k.len() == 2 && h.len() == 4);
    assert(w.len() == n + pad);
    assert forall|i: int| 0 <= i < w.len() implies #[trigger] b[at + i] == w[i] by {
        assert(all[i] == w[i]);
    }
    assert(b[at + 0] == w[0] && b[at + 1] == w[1] && b[at + 2] == w[2] && b[at + 3] == w[3]);
    assert(b[at + 4] == w[4] && b[at + 5] == w[5]);
    assert(w[4] == k[0] && w[5] == k[1]);
    assert(w[0] == h[0] && w[1] == h[1] && w[2] == h[2] && w[3] == h[3]);
    lemma_length(b, at, n as int, big);
    lemma_kind(b, at + 4, m.kind as int, big);
    assert(b.subrange(at + 16, at + n) =~= m.payload) by {
        assert forall|i: int| 0 <= i < m.payload.len() implies b.subrange(at + 16, at + n)[i]
            == m.payload[i] by {
            assert(b[at + (i + 16)] == w[i + 16]);
        }
    }
    assert(aligned(n as int) == n + pad);
    assert(b.skip(at + w.len()) =~= rest) by {
        assert(all.skip(w.len() as int) =~= rest);
        assert(b.skip(at + w.len()) =~= all.skip(w.len() as int));
    }
}

proof fn lemma_all_framed(b: Seq<u8>, at: int, s: Seq<Framed>, big: bool)
    requires
        0 <= at <= b.len(),
        b.skip(at) == all_framed(s, big),
        forall|i: int|
            0 <= i < s.len() ==> (#[trigger] s[i]).other.len() == 10 && s[i].payload.len()
                <= 0x7fff_ffff,
    ensures
        message_list(b, at, big) == (said(s), false),
    decreases s.len(),
{
    reveal_with_fuel(all_framed, 1);
    assert(b.skip(at).len() == b.len() - at);
    if s.len() == 0 {
        assert(said(s) =~= Seq::empty());
    } else {
        let later = s.drop_first();
        assert(s[0].other.len() == 10);
        lemma_framed(b, at, s[0], all_framed(later, big), big);
        assert forall|i: int| 0 <= i < later.len() implies (#[trigger] later[i]).other.len() == 10
            && later[i].payload.len() <= 0x7fff_ffff by {
            assert(later[i] == s[i + 1]);
        }
        lemma_all_framed(b, at + framed_wire(s[0], big).len(), later, big);
        assert(said(s) =~= seq![(s[0].kind, s[0].payload)] + said(later));
    }
}

/// Messages that the kernel wrote are read one by one, and none is broken.
pub proof fn law_kernel_messages_are_read(s: Seq<Framed>, big: bool)
    requires
        forall|i: int|
            0 <= i < s.len() ==> (#[trigger] s[i]).other.len() == 10 && s[i].payload.len()
                <= 0x7fff_ffff,
    ensures
        message_list(all_framed(s, big), 0, big) == (said(s), false),
{
    let b = all_framed(s, big);
    assert(b.skip(0) =~= b);
    lemma_all_framed(b, 0, s, big);
}

/// What a message about a connection does, by the low byte of its number: 0 puts the
/// connection in, as long as there are fewer than 100000, 2 takes it out, and any other
/// changes nothing. A connection that was known under the same number is the one that
/// goes.
pub proof fn law_event_moves_one_connection(
    s: FlowState,
    kind: u16,
    payload: Seq<u8>,
    big: bool,
    f: ParsedFlowModel,
    k: (u8, EndpointModel, EndpointModel),
)
    requires
        kind >= 256,
        flow_in(payload, big) == Ok::<Option<ParsedFlowModel>, NetlinkError>(Some(f)),
        s.flows.dom().finite(),
        s.flows.len() < 100000,
    ensures
        event_step(s, kind, payload, big) matches Ok(t) && {
            let known = f.flow.id matches Some(id) && s.ids.dom().contains(id);
            let old_key = s.ids[f.flow.id->0];
            &&& kind % 256 == 0 ==> {
                &&& t.flows.dom().contains(f.key) && t.flows[f.key] == f.flow
                &&& f.flow.id matches Some(id) ==> t.ids.dom().contains(id) && t.ids[id] == f.key
                &&& k != f.key && !(known && k == old_key) ==> t.flows.dom().contains(k)
                    == s.flows.dom().contains(k) && (s.flows.dom().contains(k) ==> t.flows[k]
                    == s.flows[k])
                &&& known && k == old_key && k != f.key ==> !t.flows.dom().contains(k)
            }
            &&& kind % 256 == 2 ==> {
                &&& known ==> !t.flows.dom().contains(old_key) && !t.ids.dom().contains(
                    f.flow.id->0,
                )
                &&& !known ==> !t.flows.dom().contains(f.key)
                &&& k != (if known {
                    old_key
                } else {
                    f.key
                }) ==> t.flows.dom().contains(k) == s.flows.dom().contains(k) && (
                s.flows.dom().contains(k) ==> t.flows[k] == s.flows[k])
            }
            &&& kind % 256 != 0 && kind % 256 != 2 ==> t == s
        },
{
    if let Some(id) = f.flow.id {
        if s.ids.dom().contains(id) {
            assert(s.flows.remove(s.ids[id]).len() <= s.flows.len());
        }
    }
}

/// Whether a connection is one that is asked for: of the protocol, in the state, and with
/// one of the addresses, as far as they are given, and whatever the case of their letters.
pub open spec fn is_asked(
    f: ConnectionModel,
    ips: Seq<Seq<char>>,
    protocol: Option<Seq<char>>,
    state: Option<Seq<char>>,
) -> bool {
    &&& protocol is Some ==> lowered(f.protocol) == lowered(protocol->0)
    &&& state is Some ==> f.state is Some && lowered(f.state->0) == lowered(state->0)
    &&& ips.len() > 0 ==> exists|i: int|
        0 <= i < ips.len() && (lowered(#[trigger] ips[i]) == lowered(f.orig.src) || lowered(ips[i])
            == lowered(f.reply.dst))
}

proof fn lemma_asked(
    f: ConnectionModel,
    ips: Seq<Seq<char>>,
    protocol: Option<Seq<char>>,
    state: Option<Seq<char>>,
)
    ensures
        flow_wanted(f, ips, protocol, state) == is_asked(f, ips, protocol, state),
{
}

/// The connections that are listed are those that are asked for, each as often as it is
/// followed and no other.
pub proof fn law_list_holds_what_is_asked(
    entries: Seq<(FlowKey, ConnectionFlow)>,
    ips: Seq<Seq<char>>,
    protocol: Option<Seq<char>>,
    state: Option<Seq<char>>,
    f: ConnectionModel,
)
    ensures
        flows_wanted(entries, ips, protocol, state).contains(f) <==> is_asked(
            f,
            ips,
            protocol,
            state,
        ) && exists|i: int| 0 <= i < entries.len() && (#[trigger] entries[i]).1@ == f,
        flows_wanted(entries, ips, protocol, state).len() == how_many(
            Seq::new(entries.len(), |i: int| entries[i].1@),
            |g: ConnectionModel| is_asked(g, ips, protocol, state),
        ),
    decreases entries.len(),
{
    let r = flows_wanted(entries, ips, protocol, state);
    let all = Seq::new(entries.len(), |i: int| entries[i].1@);
    if entries.len() == 0 {
        assert(r.len() == 0);
    } else {
        let front = entries.drop_last();
        let q = flows_wanted(front, ips, protocol, state);
        let last = entries.last().1@;
        law_list_holds_what_is_asked(front, ips, protocol, state, f);
        lemma_asked(last, ips, protocol, state);
        assert(all.drop_last() =~= Seq::new(front.len(), |i: int| front[i].1@));
        assert(all.last() == last);
        if q.contains(f) {
            let a = choose|a: int| 0 <= a < q.len() && q[a] == f;
            assert(r[a] == f);
            let i = choose|i: int| 0 <= i < front.len() && (#[trigger] front[i]).1@ == f;
            assert(entries[i].1@ == f);
        }
        if is_asked(last, ips, protocol, state) {
            assert(r[q.len() as int] == last);
        }
        if r.contains(f) {
            let a = choose|a: int| 0 <= a < r.len() && r[a] == f;
            if a < q.len() {
                assert(q[a] == f);
            } else {
                assert(entries[entries.len() - 1].1@ == f);
            }
        }
        if exists|i: int| 0 <= i < entries.len() && (#[trigger] entries[i]).1@ == f {
            let i = choose|i: int| 0 <= i < entries.len() && (#[trigger] entries[i]).1@ == f;
            if i < front.len() {
                assert(front[i].1@ == f);
            }
        }
    }
}

} // verus!

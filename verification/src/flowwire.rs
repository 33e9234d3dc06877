//! How the kernel writes a message about a connection, and that what is written is read.
use crate::ip::ip_text;
use crate::netlink::{
    aligned, attr_list, counters_in, counters_of, first_value, flags_of, flow_from, flow_in, num16,
    num32, num64, part_added, parts_in, tcp_state_in, tuple_in, tuple_of, with_addresses,
    with_protocol, EndpointModel, FlowParts, NetlinkError, ParsedFlowModel, TupleModel,
};
use vstd::prelude::*;

verus! {

/// Two bytes of a number in a byte order.
pub open spec fn two(n: int, big: bool) -> Seq<u8> {
    if big {
        seq![(n / 256) as u8, (n % 256) as u8]
    } else {
        seq![(n % 256) as u8, (n / 256) as u8]
    }
}

/// Four bytes of a number, the highest one first.
pub open spec fn four(n: int) -> Seq<u8> {
    seq![
        (n / 0x100_0000) as u8,
        (n / 0x1_0000 % 0x100) as u8,
        (n / 0x100 % 0x100) as u8,
        (n % 0x100) as u8,
    ]
}

/// Eight bytes of a number, the highest one first.
pub open spec fn eight(n: int) -> Seq<u8> {
    four(n / 0x1_0000_0000) + four(n % 0x1_0000_0000)
}

/// An attribute: its length with the four bytes before its value, its number, its value,
/// and zeros up to a multiple of four bytes.
pub open spec fn attr_wire(kind: u16, value: Seq<u8>, big: bool) -> Seq<u8> {
    two((value.len() + 4) as int, big) + two(kind as int, big) + value + Seq::new(
        ((4 - value.len() % 4) % 4) as nat,
        |i: int| 0u8,
    )
}

/// Attributes one after the other.
#[verifier::opaque]
pub open spec fn attrs_wire(l: Seq<(u16, Seq<u8>)>, big: bool) -> Seq<u8>
    decreases l.len(),
{
    if l.len() == 0 {
        Seq::empty()
    } else {
        attr_wire(l[0].0, l[0].1, big) + attrs_wire(l.drop_first(), big)
    }
}

/// The two ends of a connection in one direction, with its protocol.
pub struct Tuple {
    pub protocol: u8,
    pub ends: EndpointModel,
}

impl Tuple {
    /// The addresses are ones of IPv4 or of IPv6.
    pub open spec fn valid(self) -> bool {
        &&& self.ends.src.len() == 4 || self.ends.src.len() == 16
        &&& self.ends.dst.len() == 4 || self.ends.dst.len() == 16
    }

    pub open spec fn addresses(self) -> Seq<(u16, Seq<u8>)> {
        seq![
            (
                if self.ends.src.len() == 4 {
                    1u16
                } else {
                    3u16
                },
                self.ends.src,
            ),
            (
                if self.ends.dst.len() == 4 {
                    2u16
                } else {
                    4u16
                },
                self.ends.dst,
            ),
        ]
    }

    pub open spec fn ports(self) -> Seq<(u16, Seq<u8>)> {
        seq![
            (1u16, seq![self.protocol]),
            (2u16, two(self.ends.sport as int, true)),
            (3u16, two(self.ends.dport as int, true)),
        ]
    }

    /// The tuple as attributes in attributes.
    pub open spec fn wire(self, big: bool) -> Seq<u8> {
        attrs_wire(
            seq![
                (0x8001u16, attrs_wire(self.addresses(), big)),
                (0x8002u16, attrs_wire(self.ports(), big)),
            ],
            big,
        )
    }
}

/// A part of a message about a connection.
pub enum Part {
    Orig(Tuple),
    Reply(Tuple),
    Status(u32),
    State(u8),
    OrigCount(u64, u64),
    ReplyCount(u64, u64),
    Id(u32),
    Other(u16, Seq<u8>),
}

impl Part {
    /// The number of the attribute.
    pub open spec fn kind(self) -> u16 {
        match self {
            Part::Orig(_) => 1,
            Part::Reply(_) => 2,
            Part::Status(_) => 3,
            Part::State(_) => 4,
            Part::OrigCount(_, _) => 10,
            Part::ReplyCount(_, _) => 11,
            Part::Id(_) => 13,
            Part::Other(kind, _) => kind,
        }
    }

    pub open spec fn value(self, big: bool) -> Seq<u8> {
        match self {
            Part::Orig(t) => t.wire(big),
            Part::Reply(t) => t.wire(big),
            Part::Status(s) => four(s as int),
            Part::State(s) => attrs_wire(
                seq![(0x8001u16, attrs_wire(seq![(1u16, seq![s])], big))],
                big,
            ),
            Part::OrigCount(packets, bytes) => count_wire(packets, bytes, big),
            Part::ReplyCount(packets, bytes) => count_wire(packets, bytes, big),
            Part::Id(n) => four(n as int),
            Part::Other(_, value) => value,
        }
    }

    pub open spec fn valid(self) -> bool {
        match self {
            Part::Orig(t) => t.valid(),
            Part::Reply(t) => t.valid(),
            Part::Other(kind, value) => {
                &&& kind < 0x4000
                &&& kind != 1 && kind != 2 && kind != 3 && kind != 4 && kind != 10 && kind != 11
                    && kind != 13
                &&& value.len() <= 65531
            },
            _ => true,
        }
    }
}

pub open spec fn count_wire(packets: u64, bytes: u64, big: bool) -> Seq<u8> {
    attrs_wire(seq![(1u16, eight(packets as int)), (2u16, eight(bytes as int))], big)
}

/// The attributes of parts.
pub open spec fn parts_attrs(m: Seq<Part>, big: bool) -> Seq<(u16, Seq<u8>)> {
    Seq::new(m.len(), |i: int| (m[i].kind(), m[i].value(big)))
}

/// A message of parts behind four bytes of its own.
pub open spec fn message_wire(head: Seq<u8>, m: Seq<Part>, big: bool) -> Seq<u8> {
    head + attrs_wire(parts_attrs(m, big), big)
}

/// Parts that can be written, no part of a connection twice.
pub open spec fn can_be_message(m: Seq<Part>) -> bool {
    &&& forall|i: int| 0 <= i < m.len() ==> (#[trigger] m[i]).valid()
    &&& forall|i: int, j: int|
        0 <= i < j < m.len() && !(m[i] is Other) ==> (#[trigger] m[i]).kind() != (
        #[trigger] m[j]).kind()
}

/// The name of a state of a TCP connection.
pub open spec fn state_text(s: u8) -> Seq<char> {
    match s {
        1 => "SYN_SENT"@,
        2 => "SYN_RECV"@,
        3 => "ESTABLISHED"@,
        4 => "FIN_WAIT"@,
        5 => "CLOSE_WAIT"@,
        6 => "LAST_ACK"@,
        7 => "CLOSING"@,
        8 => "TIME_WAIT"@,
        9 => "CLOSE"@,
        10 => "LISTEN"@,
        11 => "SYN_SENT2"@,
        _ => "NONE"@,
    }
}

/// The names of the bits of a status.
pub open spec fn bit_names() -> Seq<(int, Seq<char>)> {
    seq![
        (2int, "SEEN_REPLY"@),
        (4int, "ASSURED"@),
        (8int, "CONFIRMED"@),
        (16int, "SRC_NAT"@),
        (32int, "DST_NAT"@),
        (512int, "DYING"@),
        (16384int, "OFFLOAD"@),
        (32768int, "HW_OFFLOAD"@),
    ]
}

/// The names of the bits that are set.
pub open spec fn names_set(names: Seq<(int, Seq<char>)>, status: u32) -> Seq<Seq<char>>
    decreases names.len(),
{
    if names.len() == 0 {
        Seq::empty()
    } else {
        let before = names_set(names.drop_last(), status);
        if status as int / names.last().0 % 2 == 1 {
            before.push(names.last().1)
        } else {
            before
        }
    }
}

proof fn lemma_two(s: Seq<u8>, at: int, n: int, big: bool)
    requires
        0 <= n < 65536,
        s[at] == two(n, big)[0],
        s[at + 1] == two(n, big)[1],
    ensures
        num16(s, at, big) == n,
{
}

proof fn lemma_four(s: Seq<u8>, at: int, n: int)
    requires
        0 <= n < 0x1_0000_0000,
        s[at] == four(n)[0],
        s[at + 1] == four(n)[1],
        s[at + 2] == four(n)[2],
        s[at + 3] == four(n)[3],
    ensures
        num32(s, at, true) == n,
{
}

proof fn lemma_eight(n: u64)
    ensures
        num64(eight(n as int)) == n,
        eight(n as int).len() == 8,
{
    let s = eight(n as int);
    lemma_four(s, 0, n as int / 0x1_0000_0000);
    lemma_four(s, 4, n as int % 0x1_0000_0000);
}

/// The attributes, with their numbers without the two highest bits.
spec fn plain(l: Seq<(u16, Seq<u8>)>) -> Seq<(u16, Seq<u8>)> {
    Seq::new(l.len(), |i: int| ((l[i].0 % 0x4000) as u16, l[i].1))
}

/// Attributes that are written are read.
#[verifier::spinoff_prover]
#[verifier::rlimit(40)]
proof fn lemma_attrs(b: Seq<u8>, at: int, l: Seq<(u16, Seq<u8>)>, big: bool)
    requires
        0 <= at <= b.len(),
        b.skip(at) == attrs_wire(l, big),
        forall|i: int| 0 <= i < l.len() ==> (#[trigger] l[i]).1.len() <= 65531,
    ensures
        attr_list(b, at, big) == (plain(l), false),
    decreases l.len(),
{
    reveal_with_fuel(attrs_wire, 1);
    let rest = b.skip(at);
    assert(rest.len() == b.len() - at);
    if l.len() == 0 {
        assert(at == b.len());
        assert(plain(l) =~= Seq::empty());
    } else {
        let (kind, value) = l[0];
        let w = attr_wire(kind, value, big);
        let later = l.drop_first();
        let n = value.len() + 4;
        assert(value.len() <= 65531) by {
            assert(l[0].1.len() <= 65531);
        }
        let pad = (4 - value.len() % 4) % 4;
        assert(two(n as int, big).len() == 2 && two(kind as int, big).len() == 2);
        assert(w.len() == n + pad);
        assert(rest == w + attrs_wire(later, big));
        assert forall|i: int| 0 <= i < w.len() implies #[trigger] b[at + i] == w[i] by {
            assert(rest[i] == w[i]);
        }
        assert(b[at + 0] == w[0] && b[at + 1] == w[1] && b[at + 2] == w[2] && b[at + 3] == w[3]);
        lemma_two(b, at, n as int, big);
        lemma_two(b, at + 2, kind as int, big);
        assert(b[at] != 0 || b[at + 1] != 0);
        assert(b.subrange(at + 4, at + n) =~= value) by {
            assert forall|i: int| 0 <= i < value.len() implies b.subrange(at + 4, at + n)[i]
                == value[i] by {
                assert(b[at + (i + 4)] == w[i + 4]);
            }
        }
        assert(aligned(n as int) == n + pad);
        assert(b.skip(at + w.len()) =~= attrs_wire(later, big)) by {
            assert(rest.skip(w.len() as int) =~= attrs_wire(later, big));
            assert(b.skip(at + w.len()) =~= rest.skip(w.len() as int));
        }
        assert forall|i: int| 0 <= i < later.len() implies (#[trigger] later[i]).1.len() <= 65531 by {
            assert(later[i] == l[i + 1]);
        }
        lemma_attrs(b, at + w.len(), later, big);
        assert(plain(l) =~= seq![((kind % 0x4000) as u16, value)] + plain(later));
    }
}

proof fn lemma_attrs_here(l: Seq<(u16, Seq<u8>)>, big: bool)
    requires
        forall|i: int| 0 <= i < l.len() ==> (#[trigger] l[i]).1.len() <= 65531,
    ensures
        attr_list(attrs_wire(l, big), 0, big) == (plain(l), false),
{
    let b = attrs_wire(l, big);
    assert(b.skip(0) =~= b);
    lemma_attrs(b, 0, l, big);
}

proof fn lemma_wire_len(l: Seq<(u16, Seq<u8>)>, big: bool)
    requires
        forall|i: int| 0 <= i < l.len() ==> (#[trigger] l[i]).1.len() <= 300,
    ensures
        attrs_wire(l, big).len() <= 308 * l.len(),
        (forall|i: int| 0 <= i < l.len() ==> (#[trigger] l[i]).1.len() <= 16) ==> attrs_wire(
            l,
            big,
        ).len() <= 24 * l.len(),
    decreases l.len(),
{
    reveal_with_fuel(attrs_wire, 1);
    if l.len() > 0 {
        let later = l.drop_first();
        assert forall|i: int| 0 <= i < later.len() implies #[trigger] later[i] == l[i + 1] by {}
        assert(l[0].1.len() <= 300);
        lemma_wire_len(later, big);
        let n = l[0].1.len();
        assert(two((n + 4) as int, big).len() == 2 && two(l[0].0 as int, big).len() == 2);
        assert(attr_wire(l[0].0, l[0].1, big).len() <= n + 8);
    }
}

proof fn lemma_addresses(t: TupleModel, u: Tuple)
    requires
        u.valid(),
    ensures
        with_addresses(t, plain(u.addresses())) == (TupleModel {
            src: Some(u.ends.src),
            dst: Some(u.ends.dst),
            ..t
        }),
{
    reveal_with_fuel(with_addresses, 3);
    let l = plain(u.addresses());
    let k = l.drop_last();
    assert(k.drop_last() =~= Seq::empty());
    assert(k.last() == l[0]);
    assert(u.ends.src.take(u.ends.src.len() as int) =~= u.ends.src);
    assert(u.ends.dst.take(u.ends.dst.len() as int) =~= u.ends.dst);
}

proof fn lemma_ports(t: TupleModel, u: Tuple)
    ensures
        with_protocol(t, plain(u.ports())) == (TupleModel {
            protocol: Some(u.protocol),
            sport: Some(u.ends.sport),
            dport: Some(u.ends.dport),
            ..t
        }),
{
    reveal_with_fuel(with_protocol, 4);
    let l = plain(u.ports());
    let k = l.drop_last();
    let j = k.drop_last();
    assert(j.drop_last() =~= Seq::empty());
    assert(j.last() == l[0]);
    assert(k.last() == l[1]);
    lemma_two(two(u.ends.sport as int, true), 0, u.ends.sport as int, true);
    lemma_two(two(u.ends.dport as int, true), 0, u.ends.dport as int, true);
}

#[verifier::spinoff_prover]
#[verifier::rlimit(40)]
proof fn lemma_tuple(u: Tuple, big: bool)
    requires
        u.valid(),
    ensures
        tuple_of(u.wire(big), big) == Ok::<Option<(u8, EndpointModel)>, NetlinkError>(
            Some((u.protocol, u.ends)),
        ),
        u.wire(big).len() <= 1000,
{
    let a = attrs_wire(u.addresses(), big);
    let p = attrs_wire(u.ports(), big);
    let l = seq![(0x8001u16, a), (0x8002u16, p)];
    lemma_wire_len(u.addresses(), big);
    lemma_wire_len(u.ports(), big);
    assert(u.addresses().len() == 2 && u.ports().len() == 3);
    assert(a.len() <= 48 && p.len() <= 72);
    assert(l.len() == 2 && l[0].1 == a && l[1].1 == p);
    lemma_wire_len(l, big);
    lemma_attrs_here(u.addresses(), big);
    lemma_attrs_here(u.ports(), big);
    lemma_attrs_here(l, big);
    let q = plain(l);
    assert(q[0] == (1u16, a));
    assert(q[1] == (2u16, p));
    let none = TupleModel { src: None, dst: None, protocol: None, sport: None, dport: None };
    lemma_addresses(none, u);
    lemma_ports(with_addresses(none, plain(u.addresses())), u);
    reveal_with_fuel(tuple_in, 3);
    let k = q.drop_last();
    assert(k.drop_last() =~= Seq::empty());
    assert(k.last() == q[0]);
}

proof fn lemma_two_counters(a: Seq<u8>, b: Seq<u8>)
    requires
        a.len() == 8,
        b.len() == 8,
    ensures
        counters_in(plain(seq![(1u16, a), (2u16, b)])) == (num64(a), num64(b)),
{
    reveal_with_fuel(counters_in, 3);
    let q = plain(seq![(1u16, a), (2u16, b)]);
    let k = q.drop_last();
    assert(q.last() == (2u16, b));
    assert(k.last() == (1u16, a));
    assert(k.drop_last() =~= Seq::empty());
}

proof fn lemma_counters(packets: u64, bytes: u64, big: bool)
    ensures
        counters_of(count_wire(packets, bytes, big), big) == Some((packets, bytes)),
        count_wire(packets, bytes, big).len() <= 1000,
{
    lemma_eight(packets);
    lemma_eight(bytes);
    let a = eight(packets as int);
    let b = eight(bytes as int);
    let l = seq![(1u16, a), (2u16, b)];
    assert(l.len() == 2 && l[0].1 == a && l[1].1 == b);
    lemma_wire_len(l, big);
    lemma_attrs_here(l, big);
    lemma_two_counters(a, b);
}

proof fn lemma_state(s: u8, big: bool)
    ensures
        tcp_state_in(attr_list(Part::State(s).value(big), 0, big).0, big) == Some(state_text(s)),
        Part::State(s).value(big).len() <= 1000,
{
    let inner = seq![(1u16, seq![s])];
    let w = attrs_wire(inner, big);
    let l = seq![(0x8001u16, w)];
    lemma_wire_len(inner, big);
    assert(inner.len() == 1 && w.len() <= 24);
    assert(l.len() == 1 && l[0].1 == w);
    lemma_wire_len(l, big);
    lemma_attrs_here(inner, big);
    lemma_attrs_here(l, big);
    assert(plain(l)[0] == (1u16, w));
    assert(plain(inner)[0] == (1u16, seq![s]));
    reveal_with_fuel(first_value, 2);
    reveal_with_fuel(tcp_state_in, 2);
}

proof fn lemma_flags(status: u32)
    ensures
        flags_of(status) == names_set(bit_names(), status),
{
    reveal_with_fuel(names_set, 9);
    let t = bit_names();
    let t7 = t.drop_last();
    let t6 = t7.drop_last();
    let t5 = t6.drop_last();
    let t4 = t5.drop_last();
    let t3 = t4.drop_last();
    let t2 = t3.drop_last();
    let t1 = t2.drop_last();
    assert(t1.drop_last() =~= Seq::empty());
    assert(t1.last() == t[0] && t2.last() == t[1] && t3.last() == t[2] && t4.last() == t[3]);
    assert(t5.last() == t[4] && t6.last() == t[5] && t7.last() == t[6]);
}

/// The parts so far with one more.
spec fn applied(p: FlowParts, part: Part) -> FlowParts {
    match part {
        Part::Orig(t) => FlowParts { orig: Some((t.protocol, t.ends)), ..p },
        Part::Reply(t) => FlowParts { reply: Some((t.protocol, t.ends)), ..p },
        Part::Status(s) => FlowParts { status: Some(s), ..p },
        Part::State(s) => FlowParts { state: Some(state_text(s)), ..p },
        Part::OrigCount(a, b) => FlowParts { orig_counters: (a, b), ..p },
        Part::ReplyCount(a, b) => FlowParts { reply_counters: (a, b), ..p },
        Part::Id(n) => FlowParts { id: Some(n), ..p },
        Part::Other(_, _) => p,
    }
}

spec fn all_applied(m: Seq<Part>) -> FlowParts
    decreases m.len(),
{
    if m.len() == 0 {
        FlowParts {
            orig: None,
            reply: None,
            status: None,
            state: None,
            orig_counters: (0, 0),
            reply_counters: (0, 0),
            id: None,
        }
    } else {
        applied(all_applied(m.drop_last()), m.last())
    }
}

proof fn lemma_part(p: FlowParts, part: Part, big: bool)
    requires
        part.valid(),
    ensures
        part_added(p, part.kind(), part.value(big), big) == Some(applied(p, part)),
        part.value(big).len() <= 65531,
        part.kind() < 0x4000,
{
    match part {
        Part::Orig(t) => lemma_tuple(t, big),
        Part::Reply(t) => lemma_tuple(t, big),
        Part::Status(s) => lemma_four(four(s as int), 0, s as int),
        Part::State(s) => lemma_state(s, big),
        Part::OrigCount(a, b) => lemma_counters(a, b, big),
        Part::ReplyCount(a, b) => lemma_counters(a, b, big),
        Part::Id(n) => lemma_four(four(n as int), 0, n as int),
        Part::Other(_, _) => {},
    }
}

proof fn lemma_parts(m: Seq<Part>, big: bool)
    requires
        forall|i: int| 0 <= i < m.len() ==> (#[trigger] m[i]).valid(),
    ensures
        parts_in(parts_attrs(m, big), big) == Some(all_applied(m)),
    decreases m.len(),
{
    if m.len() > 0 {
        let front = m.drop_last();
        assert forall|i: int| 0 <= i < front.len() implies (#[trigger] front[i]).valid() by {
            assert(front[i] == m[i]);
        }
        lemma_parts(front, big);
        assert(parts_attrs(m, big).drop_last() =~= parts_attrs(front, big));
        assert(m[m.len() - 1] == m.last());
        lemma_part(all_applied(front), m.last(), big);
    }
}

/// Whether the parts that were read have a part that was written.
spec fn has_part(p: FlowParts, part: Part) -> bool {
    match part {
        Part::Orig(t) => p.orig == Some((t.protocol, t.ends)),
        Part::Reply(t) => p.reply == Some((t.protocol, t.ends)),
        Part::Status(s) => p.status == Some(s),
        Part::State(s) => p.state == Some(state_text(s)),
        Part::OrigCount(a, b) => p.orig_counters == (a, b),
        Part::ReplyCount(a, b) => p.reply_counters == (a, b),
        Part::Id(n) => p.id == Some(n),
        Part::Other(_, _) => true,
    }
}

proof fn lemma_front_can_be(m: Seq<Part>)
    requires
        can_be_message(m),
        m.len() > 0,
    ensures
        can_be_message(m.drop_last()),
{
    let front = m.drop_last();
    assert forall|i: int| 0 <= i < front.len() implies (#[trigger] front[i]).valid() by {
        assert(front[i] == m[i]);
    }
    assert forall|i: int, j: int| 0 <= i < j < front.len() && !(front[i] is Other) implies (
    #[trigger] front[i]).kind() != (#[trigger] front[j]).kind() by {
        assert(front[i] == m[i] && front[j] == m[j]);
    }
}

proof fn lemma_has_part(m: Seq<Part>, i: int)
    requires
        can_be_message(m),
        0 <= i < m.len(),
    ensures
        has_part(all_applied(m), m[i]),
    decreases m.len(),
{
    if i < m.len() - 1 {
        lemma_front_can_be(m);
        lemma_has_part(m.drop_last(), i);
        assert(m.drop_last()[i] == m[i]);
        if !(m[i] is Other) {
            assert(m[i].kind() != m[m.len() - 1].kind());
        }
        assert(m.last().valid()) by {
            assert(m[m.len() - 1].valid());
        }
    }
}

proof fn lemma_absent(m: Seq<Part>)
    ensures
        (forall|i: int| 0 <= i < m.len() ==> !((#[trigger] m[i]) is Orig)) ==> all_applied(m).orig
            is None,
        (forall|i: int| 0 <= i < m.len() ==> !((#[trigger] m[i]) is Reply)) ==> all_applied(m).reply
            is None,
        (forall|i: int| 0 <= i < m.len() ==> !((#[trigger] m[i]) is Status)) ==> all_applied(
            m,
        ).status is None,
        (forall|i: int| 0 <= i < m.len() ==> !((#[trigger] m[i]) is Id)) ==> all_applied(m).id
            is None,
        (forall|i: int| 0 <= i < m.len() ==> !((#[trigger] m[i]) is State)) ==> all_applied(m).state
            is None,
    decreases m.len(),
{
    if m.len() > 0 {
        let front = m.drop_last();
        lemma_absent(front);
        assert(m[m.len() - 1] == m.last());
        assert(forall|i: int| 0 <= i < front.len() ==> #[trigger] front[i] == m[i]);
    }
}

proof fn lemma_parts_fit(m: Seq<Part>, big: bool)
    requires
        forall|i: int| 0 <= i < m.len() ==> (#[trigger] m[i]).valid(),
    ensures
        attr_list(attrs_wire(parts_attrs(m, big), big), 0, big) == (parts_attrs(m, big), false),
{
    let l = parts_attrs(m, big);
    assert forall|i: int| 0 <= i < l.len() implies (#[trigger] l[i]).1.len() <= 65531 && l[i].0
        < 0x4000 by {
        lemma_part(all_applied(Seq::empty()), m[i], big);
    }
    lemma_attrs_here(l, big);
    assert forall|i: int| 0 <= i < l.len() implies plain(l)[i] == l[i] by {
        assert(l[i].0 < 0x4000);
    }
    assert(plain(l) =~= l);
}

#[verifier::spinoff_prover]
#[verifier::rlimit(40)]
proof fn lemma_flow(head: Seq<u8>, m: Seq<Part>, big: bool)
    requires
        head.len() == 4,
        can_be_message(m),
    ensures
        flow_in(message_wire(head, m, big), big) == Ok::<Option<ParsedFlowModel>, NetlinkError>(
            flow_from(all_applied(m)),
        ),
{
    reveal(flow_in);
    let l = parts_attrs(m, big);
    let b = message_wire(head, m, big);
    assert(b.skip(4) =~= attrs_wire(l, big));
    lemma_parts_fit(m, big);
    lemma_parts(m, big);
}

/// A message that tells both directions of a connection of TCP, or of UDP, is read as that
/// connection, whatever the order of its parts and whatever other parts it has: its
/// protocol, its ends both ways, and where the message has them its number, its counters,
/// the names of the bits of its status, and the state of a TCP connection.
#[verifier::spinoff_prover]
#[verifier::rlimit(40)]
pub proof fn law_connection_message_is_read(
    head: Seq<u8>,
    m: Seq<Part>,
    big: bool,
    orig: Tuple,
    reply: Tuple,
)
    requires
        head.len() == 4,
        can_be_message(m),
        m.contains(Part::Orig(orig)),
        m.contains(Part::Reply(reply)),
        orig.protocol == reply.protocol,
        orig.protocol == 6 || orig.protocol == 17,
    ensures
        flow_in(message_wire(head, m, big), big) matches Ok(Some(f)) && {
            &&& f.key == (orig.protocol, orig.ends, reply.ends)
            &&& f.flow.protocol == if orig.protocol == 6 {
                "tcp"@
            } else {
                "udp"@
            }
            &&& f.flow.orig.src == ip_text(orig.ends.src)
            &&& f.flow.orig.dst == ip_text(orig.ends.dst)
            &&& f.flow.orig.sport == orig.ends.sport
            &&& f.flow.orig.dport == orig.ends.dport
            &&& f.flow.reply.src == ip_text(reply.ends.src)
            &&& f.flow.reply.dst == ip_text(reply.ends.dst)
            &&& f.flow.reply.sport == reply.ends.sport
            &&& f.flow.reply.dport == reply.ends.dport
            &&& forall|n: u32| #[trigger] m.contains(Part::Id(n)) ==> f.flow.id == Some(n)
            &&& (forall|n: u32| !(#[trigger] m.contains(Part::Id(n)))) ==> f.flow.id is None
            &&& forall|packets: u64, bytes: u64| #[trigger]
                m.contains(Part::OrigCount(packets, bytes)) ==> f.flow.orig_packets == packets
                    && f.flow.orig_bytes == bytes
            &&& forall|packets: u64, bytes: u64| #[trigger]
                m.contains(Part::ReplyCount(packets, bytes)) ==> f.flow.reply_packets == packets
                    && f.flow.reply_bytes == bytes
            &&& forall|s: u32| #[trigger]
                m.contains(Part::Status(s)) ==> f.flow.flags == names_set(bit_names(), s)
            &&& (forall|s: u32| !(#[trigger] m.contains(Part::Status(s)))) ==> f.flow.flags.len()
                == 0
            &&& forall|s: u8| #[trigger]
                m.contains(Part::State(s)) ==> f.flow.state == if orig.protocol == 6 {
                    Some(state_text(s))
                } else {
                    None
                }
        },
{
    lemma_flow(head, m, big);
    let p = all_applied(m);
    assert forall|part: Part| #[trigger] m.contains(part) implies has_part(p, part) by {
        let i = choose|i: int| 0 <= i < m.len() && m[i] == part;
        lemma_has_part(m, i);
    }
    assert(has_part(p, Part::Orig(orig)));
    assert(has_part(p, Part::Reply(reply)));
    lemma_absent(m);
    if forall|n: u32| !(#[trigger] m.contains(Part::Id(n))) {
        assert forall|i: int| 0 <= i < m.len() implies !((#[trigger] m[i]) is Id) by {
            if let Part::Id(n) = m[i] {
                assert(m.contains(Part::Id(n)));
            }
        }
    }
    if forall|s: u32| !(#[trigger] m.contains(Part::Status(s))) {
        assert forall|i: int| 0 <= i < m.len() implies !((#[trigger] m[i]) is Status) by {
            if let Part::Status(s) = m[i] {
                assert(m.contains(Part::Status(s)));
            }
        }
    }
    assert forall|s: u32| #[trigger] m.contains(Part::Status(s)) implies flags_of(s) == names_set(
        bit_names(),
        s,
    ) && p.status == Some(s) by {
        lemma_flags(s);
        assert(has_part(p, Part::Status(s)));
    }
    assert forall|n: u32| #[trigger] m.contains(Part::Id(n)) implies p.id == Some(n) by {
        assert(has_part(p, Part::Id(n)));
    }
    assert forall|a: u64, b: u64| #[trigger] m.contains(Part::OrigCount(a, b)) implies p.orig_counters
        == (a, b) by {
        assert(has_part(p, Part::OrigCount(a, b)));
    }
    assert forall|a: u64, b: u64| #[trigger] m.contains(Part::ReplyCount(a, b)) implies p.reply_counters
        == (a, b) by {
        assert(has_part(p, Part::ReplyCount(a, b)));
    }
    assert forall|s: u8| #[trigger] m.contains(Part::State(s)) implies p.state == Some(
        state_text(s),
    ) by {
        assert(has_part(p, Part::State(s)));
    }
}

/// A message that lacks one direction, or that tells of two protocols, or of one that is
/// neither TCP nor UDP, tells of no connection, and is no error.
pub proof fn law_other_messages_tell_of_none(head: Seq<u8>, m: Seq<Part>, big: bool)
    requires
        head.len() == 4,
        can_be_message(m),
        forall|t: Tuple, u: Tuple|
            m.contains(Part::Orig(t)) && m.contains(Part::Reply(u)) ==> #[trigger] t.protocol
                != #[trigger] u.protocol || (t.protocol != 6 && t.protocol != 17),
    ensures
        flow_in(message_wire(head, m, big), big) == Ok::<Option<ParsedFlowModel>, NetlinkError>(
            None,
        ),
{
    lemma_flow(head, m, big);
    lemma_absent(m);
    let p = all_applied(m);
    if p.orig is Some && p.reply is Some {
        let i = choose|i: int| 0 <= i < m.len() && (#[trigger] m[i]) is Orig;
        let j = choose|j: int| 0 <= j < m.len() && (#[trigger] m[j]) is Reply;
        lemma_has_part(m, i);
        lemma_has_part(m, j);
        let t = m[i]->Orig_0;
        let u = m[j]->Reply_0;
        assert(m[i] == Part::Orig(t) && m[j] == Part::Reply(u));
        assert(m.contains(Part::Orig(t)) && m.contains(Part::Reply(u)));
        assert(t.protocol != u.protocol || (t.protocol != 6 && t.protocol != 17));
    }
}

} // verus!

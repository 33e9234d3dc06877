//! The kernel's connection messages: framing, attributes, and the flows that they
//! tell of.
use crate::dnsrec::{copy_text_opt, copy_texts, text_opt};
use crate::ip::{ip_text, IpAddr};
use crate::table::Key;
use crate::text::{copy_text, views};
use vstd::prelude::*;
use vstd::slice::slice_subrange;

verus! {

pub const NLMSG_NOOP: u16 = 1;

pub const NLMSG_ERROR: u16 = 2;

pub const NLMSG_DONE: u16 = 3;

pub const NLMSG_OVERRUN: u16 = 4;

pub const IPCTNL_MSG_CT_NEW: u16 = 0;

pub const IPCTNL_MSG_CT_DELETE: u16 = 2;

pub const NLMSG_HDR_LEN: usize = 16;

pub const NFGENMSG_LEN: usize = 4;

pub const CTA_TUPLE_ORIG: u16 = 1;

pub const CTA_TUPLE_REPLY: u16 = 2;

pub const CTA_STATUS: u16 = 3;

pub const CTA_PROTOINFO: u16 = 4;

pub const CTA_COUNTERS_ORIG: u16 = 10;

pub const CTA_COUNTERS_REPLY: u16 = 11;

pub const CTA_ID: u16 = 13;

pub const IPS_ASSURED: u32 = 4;

pub const IPS_HW_OFFLOAD: u32 = 32768;

/// What is wrong with a message.
#[derive(Clone, Copy, Debug, PartialEq, Eq, Structural)]
pub enum NetlinkError {
    /// The frame of a message is broken.
    Message,
    /// The frame of an attribute is broken.
    Attribute,
    /// A message about a flow is too short.
    Short,
    /// The kernel lost messages.
    Overrun,
    /// An error message is too short.
    ErrorReply,
    /// The kernel reported an error.
    Code(i32),
}

/// `u16::from_ne_bytes`: the number that two bytes make in the machine's byte
/// order, which is one of the two there are.
#[verifier::external_body]
fn native_u16(a: u8, b: u8) -> (r: u16)
    ensures
        r == a + 256 * b || r == 256 * a + b,
{
    u16::from_ne_bytes([a, b])
}

/// Whether the machine puts the highest byte first. That differs between machines, so
/// nothing is said of the answer: what reads messages takes it as an argument, and is
/// proved for both.
pub fn native_is_big() -> (r: bool) {
    native_u16(0, 1) == 1
}

/// Two bytes as a number in a byte order.
pub open spec fn num16(s: Seq<u8>, at: int, big: bool) -> u16 {
    if big {
        (256 * s[at] + s[at + 1]) as u16
    } else {
        (s[at] + 256 * s[at + 1]) as u16
    }
}

/// Four bytes as a number in a byte order.
pub open spec fn num32(s: Seq<u8>, at: int, big: bool) -> u32 {
    if big {
        (0x100_0000 * s[at] + 0x1_0000 * s[at + 1] + 0x100 * s[at + 2] + s[at + 3]) as u32
    } else {
        (s[at] + 0x100 * s[at + 1] + 0x1_0000 * s[at + 2] + 0x100_0000 * s[at + 3]) as u32
    }
}

/// Eight bytes as a number, the highest one first.
pub open spec fn num64(s: Seq<u8>) -> u64 {
    (num32(s, 0, true) * 0x1_0000_0000 + num32(s, 4, true)) as u64
}

pub(crate) fn get16(s: &[u8], at: usize, big: bool) -> (r: u16)
    requires
        at + 2 <= s@.len(),
    ensures
        r == num16(s@, at as int, big),
{
    if big {
        256 * (s[at] as u16) + s[at + 1] as u16
    } else {
        s[at] as u16 + 256 * (s[at + 1] as u16)
    }
}

pub(crate) fn get32(s: &[u8], at: usize, big: bool) -> (r: u32)
    requires
        at + 4 <= s@.len(),
    ensures
        r == num32(s@, at as int, big),
{
    if big {
        0x100_0000 * (s[at] as u32) + 0x1_0000 * (s[at + 1] as u32) + 0x100 * (s[at + 2] as u32)
            + s[at + 3] as u32
    } else {
        s[at] as u32 + 0x100 * (s[at + 1] as u32) + 0x1_0000 * (s[at + 2] as u32) + 0x100_0000 * (
        s[at + 3] as u32)
    }
}

fn get64(s: &[u8]) -> (r: u64)
    requires
        8 <= s@.len(),
    ensures
        r == num64(s@),
{
    get32(s, 0, true) as u64 * 0x1_0000_0000 + get32(s, 4, true) as u64
}

/// A length rounded up to the next multiple of four.
pub open spec fn aligned(n: int) -> int {
    (n + 3) / 4 * 4
}

/// The next thing in a list of attributes.
pub enum AttrStep {
    End,
    Bad,
    Item { kind: u16, value: Seq<u8>, next: int },
}

/// What stands at an offset of a list of attributes. The list ends with the bytes,
/// with nothing but zeros, or with an attribute of length zero.
pub open spec fn attr_step(b: Seq<u8>, at: int, big: bool) -> AttrStep {
    let left = b.len() - at;
    if left <= 0 || (forall|i: int| at <= i < b.len() ==> b[i] == 0) {
        AttrStep::End
    } else if left < 4 {
        AttrStep::Bad
    } else {
        let length = num16(b, at, big) as int;
        if length == 0 {
            AttrStep::End
        } else if length < 4 || length > left {
            AttrStep::Bad
        } else {
            AttrStep::Item {
                kind: (num16(b, at + 2, big) % 0x4000) as u16,
                value: b.subrange(at + 4, at + length),
                next: at + aligned(length),
            }
        }
    }
}

/// A walk through a list of attributes.
#[derive(Debug)]
pub struct NetlinkAttributes<'a> {
    pub buffer: &'a [u8],
    pub offset: usize,
    pub big: bool,
}

impl<'a> NetlinkAttributes<'a> {
    /// A walk from the start, in the machine's byte order.
    pub fn new(buffer: &'a [u8]) -> (r: Self)
        ensures
            r.buffer@ == buffer@,
            r.offset == 0,
    {
        NetlinkAttributes { buffer, offset: 0, big: native_is_big() }
    }

    /// A walk from the start, in a byte order.
    pub fn in_order(buffer: &'a [u8], big: bool) -> (r: Self)
        ensures
            r.buffer@ == buffer@,
            r.offset == 0,
            r.big == big,
    {
        NetlinkAttributes { buffer, offset: 0, big }
    }

    /// The next attribute; none at the end. Behind a broken one there is none.
    pub fn next(&mut self) -> (r: Option<Result<(u16, &'a [u8]), NetlinkError>>)
        requires
            old(self).buffer@.len() <= usize::MAX - 3,
        ensures
            final(self).buffer@ == old(self).buffer@,
            final(self).big == old(self).big,
            match attr_step(old(self).buffer@, old(self).offset as int, old(self).big) {
                AttrStep::End => r is None && final(self).offset == old(self).buffer@.len(),
                AttrStep::Bad => r matches Some(Err(e)) && e == NetlinkError::Attribute
                    && final(self).offset == old(self).buffer@.len(),
                AttrStep::Item { kind, value, next } => r matches Some(Ok((k, v))) && k == kind
                    && v@ == value && final(self).offset == next,
            },
    {
        let n = self.buffer.len();
        let base = self.offset;
        if base >= n {
            self.offset = n;
            return None;
        }
        let mut i: usize = base;
        while i < n && self.buffer[i] == 0
            invariant
                base <= i <= n,
                n == self.buffer@.len(),
                forall|j: int| base <= j < i ==> self.buffer@[j] == 0,
            decreases n - i,
        {
            i += 1;
        }
        if i == n {
            self.offset = n;
            return None;
        }
        assert(self.buffer@[i as int] != 0);
        assert(!(forall|j: int| base <= j < n ==> self.buffer@[j] == 0));
        if n - base < 4 {
            self.offset = n;
            return Some(Err(NetlinkError::Attribute));
        }
        let length = get16(self.buffer, base, self.big) as usize;
        let kind: u16 = get16(self.buffer, base + 2, self.big) % 0x4000;
        if length == 0 {
            self.offset = n;
            return None;
        }
        if length < 4 || length > n - base {
            self.offset = n;
            return Some(Err(NetlinkError::Attribute));
        }
        let value = slice_subrange(self.buffer, base + 4, base + length);
        let tail: usize = (4 - length % 4) % 4;
        self.offset = base + length + tail;
        assert(length + tail == aligned(length as int)) by {
            assert((length + 3) / 4 * 4 == length + tail);
        }
        Some(Ok((kind, value)))
    }
}

/// The attributes from an offset on, and whether a broken one ends them.
pub open spec fn attr_list(b: Seq<u8>, at: int, big: bool) -> (Seq<(u16, Seq<u8>)>, bool)
    decreases
            (if at < b.len() {
                b.len() - at
            } else {
                0
            }),
{
    match attr_step(b, at, big) {
        AttrStep::End => (Seq::empty(), false),
        AttrStep::Bad => (Seq::empty(), true),
        AttrStep::Item { kind, value, next } => {
            let (rest, bad) = attr_list(b, next, big);
            (seq![(kind, value)] + rest, bad)
        },
    }
}

/// Attributes over plain values.
pub open spec fn attr_views(v: Seq<(u16, &[u8])>) -> Seq<(u16, Seq<u8>)> {
    Seq::new(v.len(), |i: int| (v[i].0, v[i].1@))
}

fn read_attributes(buffer: &[u8], big: bool) -> (r: (Vec<(u16, &[u8])>, bool))
    requires
        buffer@.len() <= usize::MAX - 3,
    ensures
        (attr_views(r.0@), r.1) == attr_list(buffer@, 0, big),
        forall|i: int| 0 <= i < r.0@.len() ==> (#[trigger] r.0@[i]).1@.len() <= usize::MAX - 3,
{
    let ghost all = attr_list(buffer@, 0, big);
    let mut walk = NetlinkAttributes::in_order(buffer, big);
    let mut list: Vec<(u16, &[u8])> = Vec::new();
    assert(attr_views(list@) + all.0 =~= all.0);
    loop
        invariant
            buffer@.len() <= usize::MAX - 3,
            walk.buffer@ == buffer@,
            walk.big == big,
            all.0 == attr_views(list@) + attr_list(buffer@, walk.offset as int, big).0,
            all.1 == attr_list(buffer@, walk.offset as int, big).1,
            all == attr_list(buffer@, 0, big),
            forall|i: int| 0 <= i < list@.len() ==> (#[trigger] list@[i]).1@.len() <= usize::MAX - 3,
        decreases
                (if walk.offset < buffer@.len() {
                    buffer@.len() - walk.offset
                } else {
                    0
                }),
    {
        let ghost before = attr_views(list@);
        let ghost at = walk.offset as int;
        match walk.next() {
            None => {
                assert(all.0 =~= before);
                return (list, false);
            },
            Some(Err(_)) => {
                assert(all.0 =~= before);
                return (list, true);
            },
            Some(Ok((kind, value))) => {
                let ghost rest = attr_list(buffer@, walk.offset as int, big).0;
                list.push((kind, value));
                assert(attr_views(list@) =~= before.push((kind, value@)));
                assert(all.0 =~= before.push((kind, value@)) + rest);
            },
        }
    }
}

/// The packets and bytes that attributes of a counter tell.
pub open spec fn counters_in(l: Seq<(u16, Seq<u8>)>) -> (u64, u64)
    decreases l.len(),
{
    if l.len() == 0 {
        (0, 0)
    } else {
        let (packets, bytes) = counters_in(l.drop_last());
        let (kind, value) = l.last();
        if kind == 1 && value.len() >= 8 {
            (num64(value), bytes)
        } else if kind == 2 && value.len() >= 8 {
            (packets, num64(value))
        } else {
            (packets, bytes)
        }
    }
}

/// The packets and bytes of a counter; none where an attribute is broken.
pub open spec fn counters_of(b: Seq<u8>, big: bool) -> Option<(u64, u64)> {
    if attr_list(b, 0, big).1 {
        None
    } else {
        Some(counters_in(attr_list(b, 0, big).0))
    }
}

fn parse_counters(value: &[u8], big: bool) -> (r: Result<(u64, u64), NetlinkError>)
    requires
        value@.len() <= usize::MAX - 3,
    ensures
        match r {
            Ok(c) => counters_of(value@, big) == Some(c),
            Err(e) => counters_of(value@, big) is None && e == NetlinkError::Attribute,
        },
{
    let (list, bad) = read_attributes(value, big);
    if bad {
        return Err(NetlinkError::Attribute);
    }
    let ghost l = attr_views(list@);
    let mut packets: u64 = 0;
    let mut bytes: u64 = 0;
    let mut i: usize = 0;
    assert(l.take(0) =~= Seq::empty());
    while i < list.len()
        invariant
            i <= list@.len(),
            l == attr_views(list@),
            (packets, bytes) == counters_in(l.take(i as int)),
        decreases list@.len() - i,
    {
        assert(l.take(i + 1).drop_last() =~= l.take(i as int));
        assert(l.take(i + 1).last() == l[i as int]);
        let (kind, data) = list[i];
        if data.len() >= 8 {
            if kind == 1 {
                packets = get64(data);
            } else if kind == 2 {
                bytes = get64(data);
            }
        }
        i += 1;
    }
    assert(l.take(i as int) =~= l);
    Ok((packets, bytes))
}

/// What attributes of a tuple tell so far.
pub struct TupleModel {
    pub src: Option<Seq<u8>>,
    pub dst: Option<Seq<u8>>,
    pub protocol: Option<u8>,
    pub sport: Option<u16>,
    pub dport: Option<u16>,
}

/// After attributes of addresses.
pub open spec fn with_addresses(t: TupleModel, l: Seq<(u16, Seq<u8>)>) -> TupleModel
    decreases l.len(),
{
    if l.len() == 0 {
        t
    } else {
        let u = with_addresses(t, l.drop_last());
        let (kind, value) = l.last();
        if kind == 1 && value.len() >= 4 {
            TupleModel { src: Some(value.take(4)), ..u }
        } else if kind == 2 && value.len() >= 4 {
            TupleModel { dst: Some(value.take(4)), ..u }
        } else if kind == 3 && value.len() >= 16 {
            TupleModel { src: Some(value.take(16)), ..u }
        } else if kind == 4 && value.len() >= 16 {
            TupleModel { dst: Some(value.take(16)), ..u }
        } else {
            u
        }
    }
}

/// After attributes of a protocol.
pub open spec fn with_protocol(t: TupleModel, l: Seq<(u16, Seq<u8>)>) -> TupleModel
    decreases l.len(),
{
    if l.len() == 0 {
        t
    } else {
        let u = with_protocol(t, l.drop_last());
        let (kind, value) = l.last();
        if kind == 1 {
            TupleModel {
                protocol: if value.len() > 0 {
                    Some(value[0])
                } else {
                    None
                },
                ..u
            }
        } else if kind == 2 && value.len() >= 2 {
            TupleModel { sport: Some(num16(value, 0, true)), ..u }
        } else if kind == 3 && value.len() >= 2 {
            TupleModel { dport: Some(num16(value, 0, true)), ..u }
        } else {
            u
        }
    }
}

/// After attributes of a tuple; none where one is broken.
pub open spec fn tuple_in(l: Seq<(u16, Seq<u8>)>, big: bool) -> Option<TupleModel>
    decreases l.len(),
{
    if l.len() == 0 {
        Some(TupleModel { src: None, dst: None, protocol: None, sport: None, dport: None })
    } else {
        match tuple_in(l.drop_last(), big) {
            Some(t) => {
                let (kind, value) = l.last();
                let (nested, bad) = attr_list(value, 0, big);
                if kind == 1 {
                    if bad {
                        None
                    } else {
                        Some(with_addresses(t, nested))
                    }
                } else if kind == 2 {
                    if bad {
                        None
                    } else {
                        Some(with_protocol(t, nested))
                    }
                } else {
                    Some(t)
                }
            },
            None => None,
        }
    }
}

/// The two ends of a connection in one direction, over plain values.
pub struct EndpointModel {
    pub src: Seq<u8>,
    pub dst: Seq<u8>,
    pub sport: u16,
    pub dport: u16,
}

/// The two ends of a connection in one direction.
#[derive(Clone, Copy, Debug, PartialEq, Eq, Hash)]
pub struct EndpointKey {
    pub src: IpAddr,
    pub dst: IpAddr,
    pub sport: u16,
    pub dport: u16,
}

impl View for EndpointKey {
    type V = EndpointModel;

    open spec fn view(&self) -> EndpointModel {
        EndpointModel { src: self.src@, dst: self.dst@, sport: self.sport, dport: self.dport }
    }
}

/// The protocol and the ends that a tuple tells, where it tells all of them; an
/// error where an attribute is broken.
pub open spec fn tuple_of(b: Seq<u8>, big: bool) -> Result<Option<(u8, EndpointModel)>, NetlinkError> {
    let (l, bad) = attr_list(b, 0, big);
    if bad {
        Err(NetlinkError::Attribute)
    } else {
        match tuple_in(l, big) {
            None => Err(NetlinkError::Attribute),
            Some(TupleModel {
                src: Some(src),
                dst: Some(dst),
                protocol: Some(p),
                sport: Some(sport),
                dport: Some(dport),
            }) => Ok(Some((p, EndpointModel { src, dst, sport, dport }))),
            Some(_) => Ok(None),
        }
    }
}

struct TupleParts {
    src: Option<IpAddr>,
    dst: Option<IpAddr>,
    protocol: Option<u8>,
    sport: Option<u16>,
    dport: Option<u16>,
}

/// An optional address over plain values.
pub open spec fn ip_opt(a: Option<IpAddr>) -> Option<Seq<u8>> {
    match a {
        Some(x) => Some(x@),
        None => None,
    }
}

impl View for TupleParts {
    type V = TupleModel;

    closed spec fn view(&self) -> TupleModel {
        TupleModel {
            src: ip_opt(self.src),
            dst: ip_opt(self.dst),
            protocol: self.protocol,
            sport: self.sport,
            dport: self.dport,
        }
    }
}

fn v4_of(s: &[u8]) -> (r: IpAddr)
    requires
        s@.len() >= 4,
    ensures
        r@ == s@.take(4),
{
    let a: [u8; 4] = [s[0], s[1], s[2], s[3]];
    assert(a@ =~= s@.take(4));
    IpAddr::V4(a)
}

fn v6_of(s: &[u8]) -> (r: IpAddr)
    requires
        s@.len() >= 16,
    ensures
        r@ == s@.take(16),
{
    let a: [u8; 16] = [
        s[0],
        s[1],
        s[2],
        s[3],
        s[4],
        s[5],
        s[6],
        s[7],
        s[8],
        s[9],
        s[10],
        s[11],
        s[12],
        s[13],
        s[14],
        s[15],
    ];
    assert(a@ =~= s@.take(16));
    IpAddr::V6(a)
}

impl TupleParts {
    fn add_addresses(&mut self, list: &Vec<(u16, &[u8])>)
        ensures
            final(self)@ == with_addresses(old(self)@, attr_views(list@)),
    {
        let ghost t = self@;
        let ghost l = attr_views(list@);
        let mut i: usize = 0;
        assert(l.take(0) =~= Seq::empty());
        while i < list.len()
            invariant
                i <= list@.len(),
                l == attr_views(list@),
                self@ == with_addresses(t, l.take(i as int)),
            decreases list@.len() - i,
        {
            assert(l.take(i + 1).drop_last() =~= l.take(i as int));
            assert(l.take(i + 1).last() == l[i as int]);
            let (kind, value) = list[i];
            if kind == 1 && value.len() >= 4 {
                self.src = Some(v4_of(value));
            } else if kind == 2 && value.len() >= 4 {
                self.dst = Some(v4_of(value));
            } else if kind == 3 && value.len() >= 16 {
                self.src = Some(v6_of(value));
            } else if kind == 4 && value.len() >= 16 {
                self.dst = Some(v6_of(value));
            }
            i += 1;
        }
        assert(l.take(i as int) =~= l);
    }

    fn add_protocol(&mut self, list: &Vec<(u16, &[u8])>)
        ensures
            final(self)@ == with_protocol(old(self)@, attr_views(list@)),
    {
        let ghost t = self@;
        let ghost l = attr_views(list@);
        let mut i: usize = 0;
        assert(l.take(0) =~= Seq::empty());
        while i < list.len()
            invariant
                i <= list@.len(),
                l == attr_views(list@),
                self@ == with_protocol(t, l.take(i as int)),
            decreases list@.len() - i,
        {
            assert(l.take(i + 1).drop_last() =~= l.take(i as int));
            assert(l.take(i + 1).last() == l[i as int]);
            let (kind, value) = list[i];
            if kind == 1 {
                self.protocol = if value.len() > 0 {
                    Some(value[0])
                } else {
                    None
                };
            } else if kind == 2 && value.len() >= 2 {
                self.sport = Some(get16(value, 0, true));
            } else if kind == 3 && value.len() >= 2 {
                self.dport = Some(get16(value, 0, true));
            }
            i += 1;
        }
        assert(l.take(i as int) =~= l);
    }
}

proof fn lemma_tuple_stays_bad(l: Seq<(u16, Seq<u8>)>, i: int, big: bool)
    requires
        0 <= i <= l.len(),
        tuple_in(l.take(i), big) is None,
    ensures
        tuple_in(l, big) is None,
    decreases l.len() - i,
{
    if i == l.len() {
        assert(l.take(i) =~= l);
    } else {
        assert(l.take(i + 1).drop_last() =~= l.take(i));
        lemma_tuple_stays_bad(l, i + 1, big);
    }
}

/// The ends of a connection over plain values.
pub open spec fn tuple_view(o: Option<(u8, EndpointKey)>) -> Option<(u8, EndpointModel)> {
    match o {
        Some((p, k)) => Some((p, k@)),
        None => None,
    }
}

fn parse_tuple(value: &[u8], big: bool) -> (r: Result<Option<(u8, EndpointKey)>, NetlinkError>)
    requires
        value@.len() <= usize::MAX - 3,
    ensures
        match r {
            Ok(o) => tuple_of(value@, big) == Ok::<Option<(u8, EndpointModel)>, NetlinkError>(
                tuple_view(o),
            ),
            Err(e) => tuple_of(value@, big) == Err::<Option<(u8, EndpointModel)>, NetlinkError>(e),
        },
{
    let (list, bad) = read_attributes(value, big);
    if bad {
        return Err(NetlinkError::Attribute);
    }
    let ghost l = attr_views(list@);
    let mut t = TupleParts { src: None, dst: None, protocol: None, sport: None, dport: None };
    let mut i: usize = 0;
    assert(l.take(0) =~= Seq::empty());
    while i < list.len()
        invariant
            i <= list@.len(),
            l == attr_views(list@),
            (l, false) == attr_list(value@, 0, big),
            forall|i: int| 0 <= i < list@.len() ==> (#[trigger] list@[i]).1@.len() <= usize::MAX - 3,
            tuple_in(l.take(i as int), big) == Some(t@),
        decreases list@.len() - i,
    {
        assert(l.take(i + 1).drop_last() =~= l.take(i as int));
        assert(l.take(i + 1).last() == l[i as int]);
        let (kind, nested) = list[i];
        if kind == 1 || kind == 2 {
            let (inner, broken) = read_attributes(nested, big);
            if broken {
                proof {
                    lemma_tuple_stays_bad(l, i + 1, big);
                }
                return Err(NetlinkError::Attribute);
            }
            if kind == 1 {
                t.add_addresses(&inner);
            } else {
                t.add_protocol(&inner);
            }
        }
        i += 1;
    }
    assert(l.take(i as int) =~= l);
    match (t.src, t.dst, t.protocol, t.sport, t.dport) {
        (Some(src), Some(dst), Some(p), Some(sport), Some(dport)) => Ok(
            Some((p, EndpointKey { src, dst, sport, dport })),
        ),
        _ => Ok(None),
    }
}

/// The names of the states of a TCP connection.
pub open spec fn state_name(state: u8) -> Seq<char> {
    if state == 1 {
        "SYN_SENT"@
    } else if state == 2 {
        "SYN_RECV"@
    } else if state == 3 {
        "ESTABLISHED"@
    } else if state == 4 {
        "FIN_WAIT"@
    } else if state == 5 {
        "CLOSE_WAIT"@
    } else if state == 6 {
        "LAST_ACK"@
    } else if state == 7 {
        "CLOSING"@
    } else if state == 8 {
        "TIME_WAIT"@
    } else if state == 9 {
        "CLOSE"@
    } else if state == 10 {
        "LISTEN"@
    } else if state == 11 {
        "SYN_SENT2"@
    } else {
        "NONE"@
    }
}

/// The name of a state of a TCP connection.
pub fn tcp_state_name(state: u8) -> (r: &'static str)
    ensures
        r@ == state_name(state),
{
    match state {
        1 => "SYN_SENT",
        2 => "SYN_RECV",
        3 => "ESTABLISHED",
        4 => "FIN_WAIT",
        5 => "CLOSE_WAIT",
        6 => "LAST_ACK",
        7 => "CLOSING",
        8 => "TIME_WAIT",
        9 => "CLOSE",
        10 => "LISTEN",
        11 => "SYN_SENT2",
        _ => "NONE",
    }
}

/// The value of the first attribute of a list with the number one.
pub open spec fn first_value(l: Seq<(u16, Seq<u8>)>) -> Option<Seq<u8>>
    decreases l.len(),
{
    if l.len() == 0 {
        None
    } else if l[0].0 == 1 {
        Some(l[0].1)
    } else {
        first_value(l.drop_first())
    }
}

/// The state that the first list with one tells: the name, or none where the
/// attribute is empty. Broken attributes are passed over.
pub open spec fn tcp_state_in(l: Seq<(u16, Seq<u8>)>, big: bool) -> Option<Seq<char>>
    decreases l.len(),
{
    if l.len() == 0 {
        None
    } else {
        let found = first_value(attr_list(l[0].1, 0, big).0);
        if l[0].0 == 1 && found is Some {
            if found->0.len() > 0 {
                Some(state_name(found->0[0]))
            } else {
                None
            }
        } else {
            tcp_state_in(l.drop_first(), big)
        }
    }
}

fn find_first<'a>(list: &Vec<(u16, &'a [u8])>) -> (r: Option<&'a [u8]>)
    ensures
        match r {
            Some(v) => first_value(attr_views(list@)) == Some(v@),
            None => first_value(attr_views(list@)) is None,
        },
{
    let ghost l = attr_views(list@);
    let mut i: usize = 0;
    assert(l.skip(0) =~= l);
    while i < list.len()
        invariant
            i <= list@.len(),
            l == attr_views(list@),
            first_value(l) == first_value(l.skip(i as int)),
        decreases list@.len() - i,
    {
        assert(l.skip(i as int)[0] == l[i as int]);
        let (kind, value) = list[i];
        if kind == 1 {
            return Some(value);
        }
        assert(l.skip(i as int).drop_first() =~= l.skip(i + 1));
        i += 1;
    }
    None
}

fn parse_tcp_state(value: &[u8], big: bool) -> (r: Option<String>)
    requires
        value@.len() <= usize::MAX - 3,
    ensures
        text_opt(r) == tcp_state_in(attr_list(value@, 0, big).0, big),
{
    let (list, _) = read_attributes(value, big);
    let ghost l = attr_views(list@);
    let mut i: usize = 0;
    assert(l.skip(0) =~= l);
    while i < list.len()
        invariant
            i <= list@.len(),
            l == attr_views(list@),
            l == attr_list(value@, 0, big).0,
            forall|i: int| 0 <= i < list@.len() ==> (#[trigger] list@[i]).1@.len() <= usize::MAX - 3,
            tcp_state_in(l, big) == tcp_state_in(l.skip(i as int), big),
        decreases list@.len() - i,
    {
        assert(l.skip(i as int)[0] == l[i as int]);
        let (kind, nested) = list[i];
        if kind == 1 {
            let (inner, _) = read_attributes(nested, big);
            if let Some(v) = find_first(&inner) {
                return if v.len() > 0 {
                    Some(copy_text(tcp_state_name(v[0])))
                } else {
                    None
                };
            }
        }
        assert(l.skip(i as int).drop_first() =~= l.skip(i + 1));
        i += 1;
    }
    None
}

/// Names with one more, if its bit is set.
pub open spec fn with_flag(s: Seq<Seq<char>>, status: u32, mask: u32, name: Seq<char>) -> Seq<
    Seq<char>,
> {
    if status / mask % 2 == 1 {
        s.push(name)
    } else {
        s
    }
}

/// The names of the bits that are set in a connection's status.
pub open spec fn flags_of(status: u32) -> Seq<Seq<char>> {
    let a = with_flag(Seq::empty(), status, 2, "SEEN_REPLY"@);
    let b = with_flag(a, status, 4, "ASSURED"@);
    let c = with_flag(b, status, 8, "CONFIRMED"@);
    let d = with_flag(c, status, 16, "SRC_NAT"@);
    let e = with_flag(d, status, 32, "DST_NAT"@);
    let f = with_flag(e, status, 512, "DYING"@);
    let g = with_flag(f, status, 16384, "OFFLOAD"@);
    with_flag(g, status, 32768, "HW_OFFLOAD"@)
}

fn push_flag(v: &mut Vec<String>, status: u32, mask: u32, name: &str)
    requires
        mask > 0,
    ensures
        views(final(v)@) == with_flag(views(old(v)@), status, mask, name@),
{
    let ghost before = views(v@);
    if status / mask % 2 == 1 {
        v.push(copy_text(name));
        assert(views(v@) =~= before.push(name@));
    }
}

/// The names of the bits that are set in a connection's status.
pub fn status_flags(status: u32) -> (r: Vec<String>)
    ensures
        views(r@) == flags_of(status),
{
    let mut v: Vec<String> = Vec::new();
    assert(views(v@) =~= Seq::empty());
    push_flag(&mut v, status, 2, "SEEN_REPLY");
    push_flag(&mut v, status, 4, "ASSURED");
    push_flag(&mut v, status, 8, "CONFIRMED");
    push_flag(&mut v, status, 16, "SRC_NAT");
    push_flag(&mut v, status, 32, "DST_NAT");
    push_flag(&mut v, status, 512, "DYING");
    push_flag(&mut v, status, 16384, "OFFLOAD");
    push_flag(&mut v, status, 32768, "HW_OFFLOAD");
    v
}

/// The two ends of a connection in one direction, as texts.
#[derive(Debug)]
pub struct ConnectionEndpoint {
    pub src: String,
    pub dst: String,
    pub sport: u16,
    pub dport: u16,
}

/// A connection.
#[derive(Debug)]
pub struct ConnectionFlow {
    pub id: Option<u32>,
    pub protocol: String,
    pub state: Option<String>,
    pub orig: ConnectionEndpoint,
    pub reply: ConnectionEndpoint,
    pub orig_packets: u64,
    pub orig_bytes: u64,
    pub reply_packets: u64,
    pub reply_bytes: u64,
    pub flags: Vec<String>,
}

/// Ends as texts, over plain values.
pub struct EndTexts {
    pub src: Seq<char>,
    pub dst: Seq<char>,
    pub sport: u16,
    pub dport: u16,
}

/// A connection over plain values.
pub struct ConnectionModel {
    pub id: Option<u32>,
    pub protocol: Seq<char>,
    pub state: Option<Seq<char>>,
    pub orig: EndTexts,
    pub reply: EndTexts,
    pub orig_packets: u64,
    pub orig_bytes: u64,
    pub reply_packets: u64,
    pub reply_bytes: u64,
    pub flags: Seq<Seq<char>>,
}

impl View for ConnectionEndpoint {
    type V = EndTexts;

    open spec fn view(&self) -> EndTexts {
        EndTexts { src: self.src@, dst: self.dst@, sport: self.sport, dport: self.dport }
    }
}

impl View for ConnectionFlow {
    type V = ConnectionModel;

    open spec fn view(&self) -> ConnectionModel {
        ConnectionModel {
            id: self.id,
            protocol: self.protocol@,
            state: text_opt(self.state),
            orig: self.orig@,
            reply: self.reply@,
            orig_packets: self.orig_packets,
            orig_bytes: self.orig_bytes,
            reply_packets: self.reply_packets,
            reply_bytes: self.reply_bytes,
            flags: views(self.flags@),
        }
    }
}

impl Clone for ConnectionEndpoint {
    fn clone(&self) -> (r: Self)
        ensures
            r@ == self@,
    {
        ConnectionEndpoint {
            src: self.src.clone(),
            dst: self.dst.clone(),
            sport: self.sport,
            dport: self.dport,
        }
    }
}

impl Clone for ConnectionFlow {
    fn clone(&self) -> (r: Self)
        ensures
            r@ == self@,
    {
        ConnectionFlow {
            id: self.id,
            protocol: self.protocol.clone(),
            state: copy_text_opt(&self.state),
            orig: self.orig.clone(),
            reply: self.reply.clone(),
            orig_packets: self.orig_packets,
            orig_bytes: self.orig_bytes,
            reply_packets: self.reply_packets,
            reply_bytes: self.reply_bytes,
            flags: copy_texts(&self.flags),
        }
    }
}

/// What tells connections apart.
#[derive(Clone, Copy, Debug, PartialEq, Eq, Hash)]
pub struct FlowKey {
    pub protocol: u8,
    pub orig: EndpointKey,
    pub reply: EndpointKey,
}

impl View for FlowKey {
    type V = (u8, EndpointModel, EndpointModel);

    open spec fn view(&self) -> (u8, EndpointModel, EndpointModel) {
        (self.protocol, self.orig@, self.reply@)
    }
}

fn same_ends(a: &EndpointKey, b: &EndpointKey) -> (r: bool)
    ensures
        r == (a@ == b@),
{
    a.src.same(&b.src) && a.dst.same(&b.dst) && a.sport == b.sport && a.dport == b.dport
}

impl Key for FlowKey {
    fn same(&self, other: &Self) -> (b: bool) {
        self.protocol == other.protocol && same_ends(&self.orig, &other.orig) && same_ends(
            &self.reply,
            &other.reply,
        )
    }

    fn dup(&self) -> (r: Self) {
        *self
    }
}

/// A connection with what tells it apart.
#[derive(Debug)]
pub struct ParsedFlow {
    pub key: FlowKey,
    pub flow: ConnectionFlow,
}

/// A parsed connection over plain values.
pub struct ParsedFlowModel {
    pub key: (u8, EndpointModel, EndpointModel),
    pub flow: ConnectionModel,
}

impl View for ParsedFlow {
    type V = ParsedFlowModel;

    open spec fn view(&self) -> ParsedFlowModel {
        ParsedFlowModel { key: self.key@, flow: self.flow@ }
    }
}

/// Ends as texts.
pub open spec fn end_texts(k: EndpointModel) -> EndTexts {
    EndTexts { src: ip_text(k.src), dst: ip_text(k.dst), sport: k.sport, dport: k.dport }
}

fn endpoint_from_key(key: &EndpointKey) -> (r: ConnectionEndpoint)
    ensures
        r@ == end_texts(key@),
{
    ConnectionEndpoint {
        src: key.src.to_text(),
        dst: key.dst.to_text(),
        sport: key.sport,
        dport: key.dport,
    }
}

/// What attributes of a connection tell so far.
pub struct FlowParts {
    pub orig: Option<(u8, EndpointModel)>,
    pub reply: Option<(u8, EndpointModel)>,
    pub status: Option<u32>,
    pub state: Option<Seq<char>>,
    pub orig_counters: (u64, u64),
    pub reply_counters: (u64, u64),
    pub id: Option<u32>,
}

/// The number that the first four bytes make, the highest one first.
pub open spec fn leading_u32(s: Seq<u8>) -> Option<u32> {
    if s.len() >= 4 {
        Some(num32(s, 0, true))
    } else {
        None
    }
}

fn read_u32_be(value: &[u8]) -> (r: Option<u32>)
    ensures
        r == leading_u32(value@),
{
    if value.len() >= 4 {
        Some(get32(value, 0, true))
    } else {
        None
    }
}

/// After one more attribute; none where it is broken.
pub open spec fn part_added(p: FlowParts, kind: u16, value: Seq<u8>, big: bool) -> Option<FlowParts> {
    if kind == CTA_TUPLE_ORIG {
        match tuple_of(value, big) {
            Ok(t) => Some(FlowParts { orig: t, ..p }),
            Err(_) => None,
        }
    } else if kind == CTA_TUPLE_REPLY {
        match tuple_of(value, big) {
            Ok(t) => Some(FlowParts { reply: t, ..p }),
            Err(_) => None,
        }
    } else if kind == CTA_STATUS {
        Some(FlowParts { status: leading_u32(value), ..p })
    } else if kind == CTA_PROTOINFO {
        Some(FlowParts { state: tcp_state_in(attr_list(value, 0, big).0, big), ..p })
    } else if kind == CTA_COUNTERS_ORIG {
        match counters_of(value, big) {
            Some(c) => Some(FlowParts { orig_counters: c, ..p }),
            None => None,
        }
    } else if kind == CTA_COUNTERS_REPLY {
        match counters_of(value, big) {
            Some(c) => Some(FlowParts { reply_counters: c, ..p }),
            None => None,
        }
    } else if kind == CTA_ID {
        Some(FlowParts { id: leading_u32(value), ..p })
    } else {
        Some(p)
    }
}

/// After attributes of a connection; none where one is broken.
pub open spec fn parts_in(l: Seq<(u16, Seq<u8>)>, big: bool) -> Option<FlowParts>
    decreases l.len(),
{
    if l.len() == 0 {
        Some(
            FlowParts {
                orig: None,
                reply: None,
                status: None,
                state: None,
                orig_counters: (0, 0),
                reply_counters: (0, 0),
                id: None,
            },
        )
    } else {
        match parts_in(l.drop_last(), big) {
            Some(p) => part_added(p, l.last().0, l.last().1, big),
            None => None,
        }
    }
}

/// The connection that parts make: of TCP or UDP, and the same in both directions.
pub open spec fn flow_from(p: FlowParts) -> Option<ParsedFlowModel> {
    match (p.orig, p.reply) {
        (Some((a, orig)), Some((b, reply))) => if a != b || (a != 6 && a != 17) {
            None
        } else {
            Some(
                ParsedFlowModel {
                    key: (a, orig, reply),
                    flow: ConnectionModel {
                        id: p.id,
                        protocol: if a == 6 {
                            "tcp"@
                        } else {
                            "udp"@
                        },
                        state: if a == 6 {
                            p.state
                        } else {
                            None
                        },
                        orig: end_texts(orig),
                        reply: end_texts(reply),
                        orig_packets: p.orig_counters.0,
                        orig_bytes: p.orig_counters.1,
                        reply_packets: p.reply_counters.0,
                        reply_bytes: p.reply_counters.1,
                        flags: match p.status {
                            Some(s) => flags_of(s),
                            None => Seq::empty(),
                        },
                    },
                },
            )
        },
        _ => None,
    }
}

/// The connection that a message tells of, if it tells of one.
#[verifier::opaque]
pub open spec fn flow_in(payload: Seq<u8>, big: bool) -> Result<Option<ParsedFlowModel>, NetlinkError> {
    if payload.len() < 4 {
        Err(NetlinkError::Short)
    } else {
        let (l, bad) = attr_list(payload.skip(4), 0, big);
        match parts_in(l, big) {
            Some(p) => if bad {
                Err(NetlinkError::Attribute)
            } else {
                Ok(flow_from(p))
            },
            None => Err(NetlinkError::Attribute),
        }
    }
}

proof fn lemma_parts_stay_bad(l: Seq<(u16, Seq<u8>)>, i: int, big: bool)
    requires
        0 <= i <= l.len(),
        parts_in(l.take(i), big) is None,
    ensures
        parts_in(l, big) is None,
    decreases l.len() - i,
{
    if i == l.len() {
        assert(l.take(i) =~= l);
    } else {
        assert(l.take(i + 1).drop_last() =~= l.take(i));
        lemma_parts_stay_bad(l, i + 1, big);
    }
}

/// A parsed connection, if there is one, over plain values.
pub open spec fn flow_opt(o: Option<ParsedFlow>) -> Option<ParsedFlowModel> {
    match o {
        Some(f) => Some(f@),
        None => None,
    }
}

struct PartsRead {
    orig: Option<(u8, EndpointKey)>,
    reply: Option<(u8, EndpointKey)>,
    status: Option<u32>,
    state: Option<String>,
    orig_counters: (u64, u64),
    reply_counters: (u64, u64),
    id: Option<u32>,
}

impl View for PartsRead {
    type V = FlowParts;

    closed spec fn view(&self) -> FlowParts {
        FlowParts {
            orig: tuple_view(self.orig),
            reply: tuple_view(self.reply),
            status: self.status,
            state: text_opt(self.state),
            orig_counters: self.orig_counters,
            reply_counters: self.reply_counters,
            id: self.id,
        }
    }
}

impl PartsRead {
    fn add_part(&mut self, kind: u16, value: &[u8], big: bool) -> (r: bool)
        requires
            value@.len() <= usize::MAX - 3,
        ensures
            match part_added(old(self)@, kind, value@, big) {
                Some(p) => r && final(self)@ == p,
                None => !r,
            },
    {
        if kind == CTA_TUPLE_ORIG {
            match parse_tuple(value, big) {
                Ok(t) => {
                    self.orig = t;
                },
                Err(_) => {
                    return false;
                },
            }
        } else if kind == CTA_TUPLE_REPLY {
            match parse_tuple(value, big) {
                Ok(t) => {
                    self.reply = t;
                },
                Err(_) => {
                    return false;
                },
            }
        } else if kind == CTA_STATUS {
            self.status = read_u32_be(value);
        } else if kind == CTA_PROTOINFO {
            self.state = parse_tcp_state(value, big);
        } else if kind == CTA_COUNTERS_ORIG {
            match parse_counters(value, big) {
                Ok(c) => {
                    self.orig_counters = c;
                },
                Err(_) => {
                    return false;
                },
            }
        } else if kind == CTA_COUNTERS_REPLY {
            match parse_counters(value, big) {
                Ok(c) => {
                    self.reply_counters = c;
                },
                Err(_) => {
                    return false;
                },
            }
        } else if kind == CTA_ID {
            self.id = read_u32_be(value);
        }
        true
    }

    fn into_flow(self) -> (r: Option<ParsedFlow>)
        ensures
            flow_opt(r) == flow_from(self@),
    {
        match (self.orig, self.reply) {
            (Some((a, orig)), Some((b, reply))) => {
                if a != b || (a != 6 && a != 17) {
                    return None;
                }
                let flags = match self.status {
                    Some(s) => status_flags(s),
                    None => {
                        let v: Vec<String> = Vec::new();
                        assert(views(v@) =~= Seq::empty());
                        v
                    },
                };
                Some(
                    ParsedFlow {
                        key: FlowKey { protocol: a, orig, reply },
                        flow: ConnectionFlow {
                            id: self.id,
                            protocol: if a == 6 {
                                copy_text("tcp")
                            } else {
                                copy_text("udp")
                            },
                            state: if a == 6 {
                                self.state
                            } else {
                                None
                            },
                            orig: endpoint_from_key(&orig),
                            reply: endpoint_from_key(&reply),
                            orig_packets: self.orig_counters.0,
                            orig_bytes: self.orig_counters.1,
                            reply_packets: self.reply_counters.0,
                            reply_bytes: self.reply_counters.1,
                            flags,
                        },
                    },
                )
            },
            _ => None,
        }
    }
}

/// The connection that a message tells of, if it tells of one.
pub fn parse_flow_message(payload: &[u8], big: bool) -> (r: Result<Option<ParsedFlow>, NetlinkError>)
    requires
        payload@.len() <= usize::MAX - 3,
    ensures
        match r {
            Ok(o) => flow_in(payload@, big) == Ok::<Option<ParsedFlowModel>, NetlinkError>(
                flow_opt(o),
            ),
            Err(e) => flow_in(payload@, big) == Err::<Option<ParsedFlowModel>, NetlinkError>(e),
        },
{
    proof {
        reveal(flow_in);
    }
    let n = payload.len();
    if n < NFGENMSG_LEN {
        return Err(NetlinkError::Short);
    }
    let body = slice_subrange(payload, NFGENMSG_LEN, n);
    assert(body@ =~= payload@.skip(4));
    let (list, bad) = read_attributes(body, big);
    let ghost l = attr_views(list@);
    let mut p = PartsRead {
        orig: None,
        reply: None,
        status: None,
        state: None,
        orig_counters: (0, 0),
        reply_counters: (0, 0),
        id: None,
    };
    let mut i: usize = 0;
    assert(l.take(0) =~= Seq::empty());
    while i < list.len()
        invariant
            i <= list@.len(),
            payload@.len() >= 4,
            l == attr_views(list@),
            (l, bad) == attr_list(payload@.skip(4), 0, big),
            forall|i: int| 0 <= i < list@.len() ==> (#[trigger] list@[i]).1@.len() <= usize::MAX - 3,
            parts_in(l.take(i as int), big) == Some(p@),
        decreases list@.len() - i,
    {
        proof {
            reveal(flow_in);
        }
        assert(l.take(i + 1).drop_last() =~= l.take(i as int));
        assert(l.take(i + 1).last() == l[i as int]);
        let (kind, value) = list[i];
        if !p.add_part(kind, value, big) {
            proof {
                lemma_parts_stay_bad(l, i + 1, big);
            }
            return Err(NetlinkError::Attribute);
        }
        i += 1;
    }
    assert(l.take(i as int) =~= l);
    if bad {
        return Err(NetlinkError::Attribute);
    }
    Ok(p.into_flow())
}

/// Zeros behind a list of attributes that is not broken change nothing.
pub proof fn law_padding_is_ignored(b: Seq<u8>, zeros: nat, at: int, big: bool)
    requires
        0 <= at,
        !attr_list(b, at, big).1,
    ensures
        attr_list(b + Seq::new(zeros, |i: int| 0u8), at, big) == attr_list(b, at, big),
    decreases
            (if at < b.len() {
                b.len() - at
            } else {
                0
            }),
{
    let c = b + Seq::new(zeros, |i: int| 0u8);
    if at >= b.len() || (forall|i: int| at <= i < b.len() ==> b[i] == 0) {
        assert(forall|i: int| at <= i < c.len() ==> c[i] == 0);
    } else {
        let x = choose|x: int| at <= x < b.len() && b[x] != 0;
        assert(c[x] != 0);
        assert(b.len() - at >= 4);
        assert(c[at] == b[at] && c[at + 1] == b[at + 1]);
        assert(c[at + 2] == b[at + 2] && c[at + 3] == b[at + 3]);
        let length = num16(b, at, big) as int;
        if length != 0 {
            assert(c.subrange(at + 4, at + length) =~= b.subrange(at + 4, at + length));
            law_padding_is_ignored(b, zeros, at + aligned(length), big);
        }
    }
}

/// The next thing in a list of messages.
pub enum MessageStep {
    End,
    Bad,
    Item { kind: u16, payload: Seq<u8>, next: int },
}

/// What stands at an offset of a list of messages.
pub open spec fn message_step(b: Seq<u8>, at: int, big: bool) -> MessageStep {
    let left = b.len() - at;
    if left == 0 {
        MessageStep::End
    } else if left < 16 {
        MessageStep::Bad
    } else {
        let length = num32(b, at, big) as int;
        if length < 16 || length > left {
            MessageStep::Bad
        } else {
            MessageStep::Item {
                kind: num16(b, at + 4, big),
                payload: b.subrange(at + 16, at + length),
                next: at + aligned(length),
            }
        }
    }
}

/// The messages from an offset on, and whether a broken one ends them.
pub open spec fn message_list(b: Seq<u8>, at: int, big: bool) -> (Seq<(u16, Seq<u8>)>, bool)
    decreases
            (if at < b.len() {
                b.len() - at
            } else {
                0
            }),
{
    match message_step(b, at, big) {
        MessageStep::End => (Seq::empty(), false),
        MessageStep::Bad => (Seq::empty(), true),
        MessageStep::Item { kind, payload, next } => {
            let (rest, bad) = message_list(b, next, big);
            (seq![(kind, payload)] + rest, bad)
        },
    }
}

fn message_at<'a>(buffer: &'a [u8], at: usize, big: bool) -> (r: Option<
    Option<(u16, &'a [u8], usize)>,
>)
    requires
        buffer@.len() <= usize::MAX - 3,
    ensures
        match message_step(buffer@, at as int, big) {
            MessageStep::End => r is None,
            MessageStep::Bad => r matches Some(None),
            MessageStep::Item { kind, payload, next } => r matches Some(Some((k, p, n))) && k == kind
                && p@ == payload && n == next,
        },
{
    let n = buffer.len();
    if at == n {
        return None;
    }
    if at > n || n - at < NLMSG_HDR_LEN {
        return Some(None);
    }
    let length = get32(buffer, at, big) as usize;
    if length < NLMSG_HDR_LEN || length > n - at {
        return Some(None);
    }
    let kind = get16(buffer, at + 4, big);
    let payload = slice_subrange(buffer, at + NLMSG_HDR_LEN, at + length);
    let tail: usize = (4 - length % 4) % 4;
    assert(length + tail == aligned(length as int)) by {
        assert((length + 3) / 4 * 4 == length + tail);
    }
    Some(Some((kind, payload, at + length + tail)))
}

/// The messages of a buffer, and whether a broken one ends them.
pub fn read_messages(buffer: &[u8], big: bool) -> (r: (Vec<(u16, &[u8])>, bool))
    requires
        buffer@.len() <= usize::MAX - 3,
    ensures
        (attr_views(r.0@), r.1) == message_list(buffer@, 0, big),
        forall|i: int| 0 <= i < r.0@.len() ==> (#[trigger] r.0@[i]).1@.len() <= usize::MAX - 3,
{
    let ghost all = message_list(buffer@, 0, big);
    let mut list: Vec<(u16, &[u8])> = Vec::new();
    let mut at: usize = 0;
    assert(attr_views(list@) + all.0 =~= all.0);
    loop
        invariant
            buffer@.len() <= usize::MAX - 3,
            all.0 == attr_views(list@) + message_list(buffer@, at as int, big).0,
            all.1 == message_list(buffer@, at as int, big).1,
            all == message_list(buffer@, 0, big),
            forall|i: int| 0 <= i < list@.len() ==> (#[trigger] list@[i]).1@.len() <= usize::MAX - 3,
        decreases
                (if at < buffer@.len() {
                    buffer@.len() - at
                } else {
                    0
                }),
    {
        let ghost before = attr_views(list@);
        match message_at(buffer, at, big) {
            None => {
                assert(all.0 =~= before);
                return (list, false);
            },
            Some(None) => {
                assert(all.0 =~= before);
                return (list, true);
            },
            Some(Some((kind, payload, next))) => {
                let ghost rest = message_list(buffer@, next as int, big).0;
                list.push((kind, payload));
                assert(attr_views(list@) =~= before.push((kind, payload@)));
                assert(all.0 =~= before.push((kind, payload@)) + rest);
                at = next;
            },
        }
    }
}

/// The number in an error message.
pub open spec fn error_code(payload: Seq<u8>, big: bool) -> i32 {
    num32(payload, 0, big) as i32
}

/// The number in an error message.
pub fn message_error_code(payload: &[u8], big: bool) -> (r: i32)
    requires
        payload@.len() >= 4,
    ensures
        r == error_code(payload@, big),
{
    get32(payload, 0, big) as i32
}

/// Two bytes of a number in a byte order.
pub open spec fn bytes16(v: u16, big: bool) -> Seq<u8> {
    let (low, high) = ((v % 256) as u8, (v / 256) as u8);
    if big {
        seq![high, low]
    } else {
        seq![low, high]
    }
}

/// Four bytes of a number in a byte order.
pub open spec fn bytes32(v: u32, big: bool) -> Seq<u8> {
    let a = (v % 256) as u8;
    let b = (v / 256 % 256) as u8;
    let c = (v / 65536 % 256) as u8;
    let d = (v / 0x100_0000) as u8;
    if big {
        seq![d, c, b, a]
    } else {
        seq![a, b, c, d]
    }
}

fn put16(out: &mut Vec<u8>, v: u16, big: bool)
    ensures
        final(out)@ == old(out)@ + bytes16(v, big),
{
    let ghost before = out@;
    let low = (v % 256) as u8;
    let high = (v / 256) as u8;
    if big {
        out.push(high);
        out.push(low);
    } else {
        out.push(low);
        out.push(high);
    }
    assert(out@ =~= before + bytes16(v, big));
}

fn put32(out: &mut Vec<u8>, v: u32, big: bool)
    ensures
        final(out)@ == old(out)@ + bytes32(v, big),
{
    let ghost before = out@;
    let a = (v % 256) as u8;
    let b = (v / 256 % 256) as u8;
    let c = (v / 65536 % 256) as u8;
    let d = (v / 0x100_0000) as u8;
    if big {
        out.push(d);
        out.push(c);
        out.push(b);
        out.push(a);
    } else {
        out.push(a);
        out.push(b);
        out.push(c);
        out.push(d);
    }
    assert(out@ =~= before + bytes32(v, big));
}

/// The request for all connections: a message of twenty bytes that asks the
/// connection subsystem for a dump, under a sequence number.
pub fn dump_request(sequence: u32, big: bool) -> (r: Vec<u8>)
    ensures
        r@ == bytes32(20, big) + bytes16(0x0101, big) + bytes16(0x0301, big) + bytes32(
            sequence,
            big,
        ) + bytes32(0, big) + seq![0u8, 0, 0, 0],
        r@.len() == 20,
{
    let mut out: Vec<u8> = Vec::new();
    put32(&mut out, 20, big);
    put16(&mut out, 0x0101, big);
    put16(&mut out, 0x0301, big);
    put32(&mut out, sequence, big);
    put32(&mut out, 0, big);
    let ghost before = out@;
    out.push(0);
    out.push(0);
    out.push(0);
    out.push(0);
    assert(out@ =~= before + seq![0u8, 0, 0, 0]);
    assert(out@ =~= bytes32(20, big) + bytes16(0x0101, big) + bytes16(0x0301, big) + bytes32(
        sequence,
        big,
    ) + bytes32(0, big) + seq![0u8, 0, 0, 0]);
    out
}

} // verus!

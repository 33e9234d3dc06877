//! DNS packets as the packet counters hand them on: a header in the machine's byte
//! order and behind it the captured bytes.
use crate::dns::{
    event_message, event_read, event_time, event_time_ms, ingest_step, DeviceIdentity, DnsMonitor,
    DnsState,
};
use crate::dnsmsg::MessageModel;
use crate::dnsstore::{identity, known_seq, resolve_device};
use crate::ip::ip_text;
use crate::keys::DnsPacketHeader;
use crate::netlink::{get16, get32, num16, num32};
use crate::runtime::{known_by, DeviceRegistry};
use crate::topology::{InterfaceModel, TopologySnapshot};
use vstd::prelude::*;
use vstd::slice::slice_subrange;

verus! {

/// The bytes that a header takes, with what fills it up behind its last field.
pub const DNS_HEADER_BYTES: usize = 32;

/// Eight bytes as a number in a byte order.
pub open spec fn long_at(s: Seq<u8>, at: int, big: bool) -> u64 {
    if big {
        (num32(s, at, big) * 0x1_0000_0000 + num32(s, at + 4, big)) as u64
    } else {
        (num32(s, at, big) + num32(s, at + 4, big) * 0x1_0000_0000) as u64
    }
}

/// Whether a header is what its bytes say.
pub open spec fn header_reads(h: DnsPacketHeader, b: Seq<u8>, big: bool) -> bool {
    &&& h.timestamp_ns == long_at(b, 0, big)
    &&& h.ifindex == num32(b, 8, big)
    &&& h.captured_len == num32(b, 12, big)
    &&& h.ip_offset == num16(b, 16, big)
    &&& h.ip_version == b[18]
    &&& h.direction == b[19]
    &&& h.mac@ == b.subrange(20, 26)
    &&& h.has_mac == b[26]
    &&& h._pad == b[27]
}

/// Reads the header of an event; there is none in fewer bytes than it takes.
pub fn read_header(item: &[u8], big: bool) -> (r: Option<DnsPacketHeader>)
    ensures
        match r {
            Some(h) => item@.len() >= DNS_HEADER_BYTES && header_reads(h, item@, big),
            None => item@.len() < DNS_HEADER_BYTES,
        },
{
    if item.len() < DNS_HEADER_BYTES {
        return None;
    }
    let first: u64 = get32(item, 0, big) as u64;
    let second: u64 = get32(item, 4, big) as u64;
    let timestamp_ns: u64 = if big {
        first * 0x1_0000_0000 + second
    } else {
        first + second * 0x1_0000_0000
    };
    let mac: [u8; 6] = [item[20], item[21], item[22], item[23], item[24], item[25]];
    assert(mac@ =~= item@.subrange(20, 26));
    Some(
        DnsPacketHeader {
            timestamp_ns,
            ifindex: get32(item, 8, big),
            captured_len: get32(item, 12, big),
            ip_offset: get16(item, 16, big),
            ip_version: item[18],
            direction: item[19],
            mac,
            has_mac: item[26],
            _pad: item[27],
        },
    )
}

/// The address of the client of a message.
pub open spec fn client_of(m: MessageModel) -> Seq<u8> {
    if m.is_query {
        m.source_ip
    } else {
        m.destination_ip
    }
}

/// Whether a state follows another by a message that was put down to its device.
pub open spec fn message_taken(
    before: DnsState,
    after: DnsState,
    h: DnsPacketHeader,
    m: MessageModel,
    registry: DeviceRegistry,
    topology: Seq<InterfaceModel>,
    time_ms: u64,
) -> bool {
    exists|d: DeviceIdentity|
        (d.mac@, d.name@, d.iface@) == identity(
            known_by(registry.entries@),
            known_seq(registry.entries.entries@),
            topology,
            h.ifindex,
            if h.has_mac != 0 {
                Some(h.mac@)
            } else {
                None
            },
            ip_text(client_of(m)),
        ) && #[trigger] ingest_step(before, after, m, h.timestamp_ns, time_ms, d)
}

/// Takes in an event. `now_ms` and `monotonic_ns` are the wall clock and the clock of
/// events at one moment. An event that holds no whole message is counted as an error.
pub fn take_event(
    monitor: &mut DnsMonitor,
    registry: &DeviceRegistry,
    topology: &TopologySnapshot,
    item: &[u8],
    now_ms: u64,
    monotonic_ns: u64,
    big: bool,
) -> (r: Option<DnsPacketHeader>)
    requires
        old(monitor).wf(),
        registry.entries.wf(),
    ensures
        final(monitor).wf(),
        match r {
            Some(h) => {
                &&& item@.len() >= DNS_HEADER_BYTES
                &&& header_reads(h, item@, big)
                &&& event_read(h, item@.skip(DNS_HEADER_BYTES as int)) matches Some(m)
                    && message_taken(
                    old(monitor)@,
                    final(monitor)@,
                    h,
                    m,
                    *registry,
                    topology@,
                    event_time(h.timestamp_ns, now_ms, monotonic_ns),
                )
            },
            None => {
                &&& final(monitor)@ == (DnsState {
                    parse_errors: if old(monitor)@.parse_errors < u64::MAX {
                        (old(monitor)@.parse_errors + 1) as u64
                    } else {
                        u64::MAX
                    },
                    ..old(monitor)@
                })
                &&& item@.len() >= DNS_HEADER_BYTES ==> forall|h: DnsPacketHeader| #[trigger]
                    header_reads(h, item@, big) ==> event_read(
                        h,
                        item@.skip(DNS_HEADER_BYTES as int),
                    ) is None
            },
        },
{
    let header = match read_header(item, big) {
        Some(h) => h,
        None => {
            monitor.note_parse_errors(1);
            return None;
        },
    };
    let body = slice_subrange(item, DNS_HEADER_BYTES, item.len());
    assert(body@ =~= item@.skip(DNS_HEADER_BYTES as int));
    let message = match event_message(&header, body) {
        Some(m) => m,
        None => {
            monitor.note_parse_errors(1);
            return None;
        },
    };
    let ghost m = message@;
    let device = if message.is_query {
        resolve_device(registry, topology, &header, &message.source_ip)
    } else {
        resolve_device(registry, topology, &header, &message.destination_ip)
    };
    let time_ms = event_time_ms(header.timestamp_ns, now_ms, monotonic_ns);
    let ghost d = device;
    monitor.ingest(message, header, time_ms, device);
    assert(ingest_step(old(monitor)@, monitor@, m, header.timestamp_ns, time_ms, d));
    Some(header)
}

} // verus!

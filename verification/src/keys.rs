//! Keys and values of the traffic counters that the packet path keeps.
use crate::table::Key;
use vstd::prelude::*;

verus! {

/// How many device counters the packet path keeps.
pub const DEVICE_TRAFFIC_MAX_ENTRIES: u32 = 8192;

/// The largest frame that is copied for a DNS event. Ordinary Ethernet frames
/// fit, with two VLAN headers and IPv6 headers too.
pub const DNS_PACKET_MAX_BYTES: usize = 1600;

/// What goes with the bytes of a frame that carries DNS.
#[derive(Clone, Copy, Debug, PartialEq, Eq, Hash)]
pub struct DnsPacketHeader {
    pub timestamp_ns: u64,
    pub ifindex: u32,
    pub captured_len: u32,
    pub ip_offset: u16,
    pub ip_version: u8,
    pub direction: u8,
    /// The client's hardware address as the direction selects it; all zero
    /// where there is none.
    pub mac: [u8; 6],
    pub has_mac: u8,
    pub _pad: u8,
}

impl Default for DnsPacketHeader {
    fn default() -> (r: Self)
        ensures
            r.timestamp_ns == 0,
            r.ifindex == 0,
            r.captured_len == 0,
            r.ip_offset == 0,
            r.ip_version == 0,
            r.direction == 0,
            r.mac@ == seq![0u8, 0u8, 0u8, 0u8, 0u8, 0u8],
            r.has_mac == 0,
            r._pad == 0,
    {
        let r = DnsPacketHeader {
            timestamp_ns: 0,
            ifindex: 0,
            captured_len: 0,
            ip_offset: 0,
            ip_version: 0,
            direction: 0,
            mac: [0, 0, 0, 0, 0, 0],
            has_mac: 0,
            _pad: 0,
        };
        assert(r.mac@ =~= seq![0u8, 0u8, 0u8, 0u8, 0u8, 0u8]);
        r
    }
}

#[derive(Clone, Copy, Debug, PartialEq, Eq, Structural)]
pub enum IpVersion {
    V4,
    V6,
}

impl IpVersion {
    /// The version number.
    pub open spec fn spec_number(self) -> u8 {
        match self {
            IpVersion::V4 => 4,
            IpVersion::V6 => 6,
        }
    }

    /// The version number.
    pub fn number(self) -> (r: u8)
        ensures
            r == self.spec_number(),
    {
        match self {
            IpVersion::V4 => 4,
            IpVersion::V6 => 6,
        }
    }
}

#[derive(Clone, Copy, Debug, PartialEq, Eq, Structural)]
pub enum TrafficDirection {
    Ingress,
    Egress,
}

impl TrafficDirection {
    /// The number by which counters name the direction.
    pub open spec fn spec_number(self) -> u8 {
        match self {
            TrafficDirection::Ingress => 1,
            TrafficDirection::Egress => 2,
        }
    }

    /// The number by which counters name the direction.
    pub fn number(self) -> (r: u8)
        ensures
            r == self.spec_number(),
    {
        match self {
            TrafficDirection::Ingress => 1,
            TrafficDirection::Egress => 2,
        }
    }
}

#[derive(Clone, Copy, Debug, PartialEq, Eq, Hash)]
pub struct InterfaceTrafficKey {
    pub ifindex: u32,
    pub ip_version: u8,
    pub direction: u8,
    pub _pad: [u8; 2],
}

#[derive(Clone, Copy, Debug, PartialEq, Eq, Hash)]
pub struct DeviceTrafficKey {
    pub ifindex: u32,
    pub mac: [u8; 6],
    pub ip_version: u8,
    pub direction: u8,
}

#[derive(Clone, Copy, Debug, PartialEq, Eq, Structural)]
pub struct TrafficValue {
    pub packets: u64,
    pub bytes: u64,
}

impl Default for TrafficValue {
    fn default() -> (r: Self)
        ensures
            r == (TrafficValue { packets: 0, bytes: 0 }),
    {
        TrafficValue { packets: 0, bytes: 0 }
    }
}

/// Counters of traffic that a hardware offload engine forwarded.
#[derive(Clone, Copy, Debug, PartialEq, Eq, Hash)]
pub struct EcmTrafficKey {
    pub ip: [u32; 4],
    pub ip_version: u8,
    pub direction: u8,
    pub pad: [u8; 2],
}

/// An address of the router itself.
#[derive(Clone, Copy, Debug, PartialEq, Eq, Hash)]
pub struct RouterIpKey {
    pub ip: [u32; 4],
    pub ip_version: u8,
    pub _pad: [u8; 3],
}

impl View for InterfaceTrafficKey {
    type V = (u32, u8, u8, Seq<u8>);

    open spec fn view(&self) -> (u32, u8, u8, Seq<u8>) {
        (self.ifindex, self.ip_version, self.direction, self._pad@)
    }
}

impl View for DeviceTrafficKey {
    type V = (u32, Seq<u8>, u8, u8);

    open spec fn view(&self) -> (u32, Seq<u8>, u8, u8) {
        (self.ifindex, self.mac@, self.ip_version, self.direction)
    }
}

impl View for EcmTrafficKey {
    type V = (Seq<u32>, u8, u8, Seq<u8>);

    open spec fn view(&self) -> (Seq<u32>, u8, u8, Seq<u8>) {
        (self.ip@, self.ip_version, self.direction, self.pad@)
    }
}

impl View for RouterIpKey {
    type V = (Seq<u32>, u8, Seq<u8>);

    open spec fn view(&self) -> (Seq<u32>, u8, Seq<u8>) {
        (self.ip@, self.ip_version, self._pad@)
    }
}

/// Whether two runs of bytes are the same.
pub fn bytes_eq(a: &[u8], b: &[u8]) -> (r: bool)
    ensures
        r == (a@ == b@),
{
    if a.len() != b.len() {
        return false;
    }
    let mut i: usize = 0;
    while i < a.len()
        invariant
            i <= a@.len(),
            a@.len() == b@.len(),
            forall|j: int| 0 <= j < i ==> a@[j] == b@[j],
        decreases a@.len() - i,
    {
        if a[i] != b[i] {
            return false;
        }
        i += 1;
    }
    assert(a@ =~= b@);
    true
}

/// Whether two addresses of four words are the same.
pub fn words_eq(a: &[u32; 4], b: &[u32; 4]) -> (r: bool)
    ensures
        r == (a@ == b@),
{
    let r = a[0] == b[0] && a[1] == b[1] && a[2] == b[2] && a[3] == b[3];
    assert(r ==> a@ =~= b@);
    r
}

/// Whether two hardware addresses are the same.
pub fn mac_eq(a: &[u8; 6], b: &[u8; 6]) -> (r: bool)
    ensures
        r == (a@ == b@),
{
    bytes_eq(a.as_slice(), b.as_slice())
}

impl Key for u16 {
    fn same(&self, other: &Self) -> (b: bool) {
        *self == *other
    }

    fn dup(&self) -> (r: Self) {
        *self
    }
}

impl Key for [u8; 6] {
    fn same(&self, other: &Self) -> (b: bool) {
        mac_eq(self, other)
    }

    fn dup(&self) -> (r: Self) {
        *self
    }
}

impl Key for (u32, [u8; 6]) {
    fn same(&self, other: &Self) -> (b: bool) {
        self.0 == other.0 && mac_eq(&self.1, &other.1)
    }

    fn dup(&self) -> (r: Self) {
        *self
    }
}

impl Key for InterfaceTrafficKey {
    fn same(&self, other: &Self) -> (b: bool) {
        self.ifindex == other.ifindex && self.ip_version == other.ip_version && self.direction
            == other.direction && bytes_eq(self._pad.as_slice(), other._pad.as_slice())
    }

    fn dup(&self) -> (r: Self) {
        *self
    }
}

impl Key for DeviceTrafficKey {
    fn same(&self, other: &Self) -> (b: bool) {
        self.ifindex == other.ifindex && mac_eq(&self.mac, &other.mac) && self.ip_version
            == other.ip_version && self.direction == other.direction
    }

    fn dup(&self) -> (r: Self) {
        *self
    }
}

impl Key for EcmTrafficKey {
    fn same(&self, other: &Self) -> (b: bool) {
        words_eq(&self.ip, &other.ip) && self.ip_version == other.ip_version && self.direction
            == other.direction && bytes_eq(self.pad.as_slice(), other.pad.as_slice())
    }

    fn dup(&self) -> (r: Self) {
        *self
    }
}

impl Key for RouterIpKey {
    fn same(&self, other: &Self) -> (b: bool) {
        words_eq(&self.ip, &other.ip) && self.ip_version == other.ip_version && bytes_eq(
            self._pad.as_slice(),
            other._pad.as_slice(),
        )
    }

    fn dup(&self) -> (r: Self) {
        *self
    }
}

impl Key for (String, [u8; 6]) {
    fn same(&self, other: &Self) -> (b: bool) {
        self.0 == other.0 && mac_eq(&self.1, &other.1)
    }

    fn dup(&self) -> (r: Self) {
        (self.0.clone(), self.1)
    }
}

impl Key for ([u32; 4], u8) {
    fn same(&self, other: &Self) -> (b: bool) {
        words_eq(&self.0, &other.0) && self.1 == other.1
    }

    fn dup(&self) -> (r: Self) {
        (self.0, self.1)
    }
}

} // verus!

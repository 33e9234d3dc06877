//! Snapshots: what a moment's traffic looks like by interface and by device.
use crate::bucket::{AggregatedBucket, CounterQuad};
use crate::dnsrec::{copy_text_opt, copy_texts, text_opt};
use crate::sort::Ranked;
use crate::table::Key;
use crate::text::{less, lemma_text_less_total, lemma_text_less_transitive, text_less, views};
use vstd::prelude::*;

verus! {

#[derive(Debug)]
pub struct InterfaceOverviewItem {
    pub ifindex: u32,
    pub ifname: String,
    pub zone: String,
    pub metrics: CounterQuad,
    pub cumulative: CounterQuad,
}

#[derive(Debug)]
pub struct DeviceListItem {
    pub ifindex: u32,
    pub logical_iface: String,
    pub subnet: String,
    pub ipv4: Vec<String>,
    pub ipv6: Vec<String>,
    pub mac: String,
    pub hostname: String,
    pub metrics: CounterQuad,
    pub cumulative: CounterQuad,
    pub online: bool,
    /// When the device was last in a snapshot; now for one that is online.
    pub last_seen_ms: u64,
    pub neighbor_state: Option<String>,
}

/// A device row over plain values.
pub struct DeviceModel {
    pub ifindex: u32,
    pub logical_iface: Seq<char>,
    pub subnet: Seq<char>,
    pub ipv4: Seq<Seq<char>>,
    pub ipv6: Seq<Seq<char>>,
    pub mac: Seq<char>,
    pub hostname: Seq<char>,
    pub metrics: CounterQuad,
    pub cumulative: CounterQuad,
    pub online: bool,
    pub last_seen_ms: u64,
    pub neighbor_state: Option<Seq<char>>,
}

/// An interface row over plain values.
pub struct OverviewModel {
    pub ifindex: u32,
    pub ifname: Seq<char>,
    pub zone: Seq<char>,
    pub metrics: CounterQuad,
    pub cumulative: CounterQuad,
}

impl View for DeviceListItem {
    type V = DeviceModel;

    open spec fn view(&self) -> DeviceModel {
        DeviceModel {
            ifindex: self.ifindex,
            logical_iface: self.logical_iface@,
            subnet: self.subnet@,
            ipv4: views(self.ipv4@),
            ipv6: views(self.ipv6@),
            mac: self.mac@,
            hostname: self.hostname@,
            metrics: self.metrics,
            cumulative: self.cumulative,
            online: self.online,
            last_seen_ms: self.last_seen_ms,
            neighbor_state: text_opt(self.neighbor_state),
        }
    }
}

impl View for InterfaceOverviewItem {
    type V = OverviewModel;

    open spec fn view(&self) -> OverviewModel {
        OverviewModel {
            ifindex: self.ifindex,
            ifname: self.ifname@,
            zone: self.zone@,
            metrics: self.metrics,
            cumulative: self.cumulative,
        }
    }
}

impl Clone for DeviceListItem {
    fn clone(&self) -> (r: Self)
        ensures
            r@ == self@,
    {
        DeviceListItem {
            ifindex: self.ifindex,
            logical_iface: self.logical_iface.clone(),
            subnet: self.subnet.clone(),
            ipv4: copy_texts(&self.ipv4),
            ipv6: copy_texts(&self.ipv6),
            mac: self.mac.clone(),
            hostname: self.hostname.clone(),
            metrics: self.metrics,
            cumulative: self.cumulative,
            online: self.online,
            last_seen_ms: self.last_seen_ms,
            neighbor_state: copy_text_opt(&self.neighbor_state),
        }
    }
}

impl Clone for InterfaceOverviewItem {
    fn clone(&self) -> (r: Self)
        ensures
            r@ == self@,
    {
        InterfaceOverviewItem {
            ifindex: self.ifindex,
            ifname: self.ifname.clone(),
            zone: self.zone.clone(),
            metrics: self.metrics,
            cumulative: self.cumulative,
        }
    }
}

#[derive(Debug)]
pub struct SnapshotData {
    pub timestamp_ms: u64,
    pub interfaces: Vec<InterfaceOverviewItem>,
    pub devices: Vec<DeviceListItem>,
}

impl Default for SnapshotData {
    fn default() -> (r: Self)
        ensures
            r.timestamp_ms == 0,
            r.interfaces@.len() == 0,
            r.devices@.len() == 0,
    {
        SnapshotData { timestamp_ms: 0, interfaces: Vec::new(), devices: Vec::new() }
    }
}

impl Clone for SnapshotData {
    fn clone(&self) -> (r: Self)
        ensures
            r.timestamp_ms == self.timestamp_ms,
            overview_views(r.interfaces@) == overview_views(self.interfaces@),
            device_views(r.devices@) == device_views(self.devices@),
    {
        let mut interfaces: Vec<InterfaceOverviewItem> = Vec::new();
        let mut i: usize = 0;
        while i < self.interfaces.len()
            invariant
                i <= self.interfaces@.len(),
                interfaces@.len() == i,
                forall|j: int| 0 <= j < i ==> (#[trigger] interfaces@[j])@ == self.interfaces@[j]@,
            decreases self.interfaces@.len() - i,
        {
            interfaces.push(self.interfaces[i].clone());
            i += 1;
        }
        let mut devices: Vec<DeviceListItem> = Vec::new();
        let mut i: usize = 0;
        while i < self.devices.len()
            invariant
                i <= self.devices@.len(),
                devices@.len() == i,
                forall|j: int| 0 <= j < i ==> (#[trigger] devices@[j])@ == self.devices@[j]@,
            decreases self.devices@.len() - i,
        {
            devices.push(self.devices[i].clone());
            i += 1;
        }
        assert(overview_views(interfaces@) =~= overview_views(self.interfaces@));
        assert(device_views(devices@) =~= device_views(self.devices@));
        SnapshotData { timestamp_ms: self.timestamp_ms, interfaces, devices }
    }
}

/// The device rows over plain values.
pub open spec fn device_views(v: Seq<DeviceListItem>) -> Seq<DeviceModel> {
    Seq::new(v.len(), |i: int| v[i]@)
}

/// The interface rows over plain values.
pub open spec fn overview_views(v: Seq<InterfaceOverviewItem>) -> Seq<OverviewModel> {
    Seq::new(v.len(), |i: int| v[i]@)
}

/// Names the series of a device on an interface.
#[derive(Debug, PartialEq, Eq, Hash)]
pub struct DeviceSeriesKey {
    pub ifindex: u32,
    pub mac: String,
}

impl View for DeviceSeriesKey {
    type V = (u32, Seq<char>);

    open spec fn view(&self) -> (u32, Seq<char>) {
        (self.ifindex, self.mac@)
    }
}

impl Key for DeviceSeriesKey {
    fn same(&self, other: &Self) -> (b: bool) {
        self.ifindex == other.ifindex && self.mac == other.mac
    }

    fn dup(&self) -> (r: Self) {
        DeviceSeriesKey { ifindex: self.ifindex, mac: self.mac.clone() }
    }
}

/// A bucket that is complete, with what it belongs to.
#[derive(Debug)]
pub enum CompletedAggregate {
    Iface { iface: String, bucket: AggregatedBucket },
    Device { iface: String, mac: String, bucket: AggregatedBucket },
}

/// Whether one list of texts comes before another, by their texts.
pub open spec fn texts_less(a: Seq<Seq<char>>, b: Seq<Seq<char>>) -> bool
    decreases a.len(),
{
    if b.len() == 0 {
        false
    } else if a.len() == 0 {
        true
    } else if a[0] != b[0] {
        text_less(a[0], b[0])
    } else {
        texts_less(a.drop_first(), b.drop_first())
    }
}

/// Of two different lists one comes before the other, and not both.
pub proof fn lemma_texts_less_total(a: Seq<Seq<char>>, b: Seq<Seq<char>>)
    ensures
        !(texts_less(a, b) && texts_less(b, a)),
        a == b ==> !texts_less(a, b),
        !texts_less(a, b) && !texts_less(b, a) ==> a == b,
    decreases a.len(),
{
    if a.len() > 0 && b.len() > 0 {
        lemma_text_less_total(a[0], b[0]);
        lemma_texts_less_total(a.drop_first(), b.drop_first());
        if a[0] == b[0] && a.drop_first() == b.drop_first() {
            assert(a =~= seq![a[0]] + a.drop_first());
            assert(b =~= seq![b[0]] + b.drop_first());
        }
    } else if a.len() == 0 && b.len() == 0 {
        assert(a =~= b);
    }
}

pub proof fn lemma_texts_less_transitive(a: Seq<Seq<char>>, b: Seq<Seq<char>>, c: Seq<Seq<char>>)
    requires
        texts_less(a, b),
        texts_less(b, c),
    ensures
        texts_less(a, c),
    decreases a.len(),
{
    if a.len() > 0 && b.len() > 0 && c.len() > 0 {
        if a[0] == b[0] && b[0] == c[0] {
            lemma_texts_less_transitive(a.drop_first(), b.drop_first(), c.drop_first());
        } else if a[0] != b[0] && b[0] != c[0] {
            lemma_text_less_transitive(a[0], b[0], c[0]);
            lemma_text_less_total(a[0], c[0]);
        }
    }
}

/// Whether one list of texts comes before another.
pub fn texts_before(a: &Vec<String>, b: &Vec<String>) -> (r: bool)
    ensures
        r == texts_less(views(a@), views(b@)),
{
    let ghost x = views(a@);
    let ghost y = views(b@);
    let mut i: usize = 0;
    assert(x.skip(0) =~= x);
    assert(y.skip(0) =~= y);
    while i < a.len() && i < b.len() && a[i] == b[i]
        invariant
            i <= a@.len(),
            i <= b@.len(),
            x == views(a@),
            y == views(b@),
            texts_less(x, y) == texts_less(x.skip(i as int), y.skip(i as int)),
        decreases a@.len() - i,
    {
        assert(x.skip(i as int).drop_first() =~= x.skip(i + 1));
        assert(y.skip(i as int).drop_first() =~= y.skip(i + 1));
        i += 1;
    }
    if i == b.len() {
        false
    } else if i == a.len() {
        true
    } else {
        assert(x.skip(i as int)[0] == a@[i as int]@);
        assert(y.skip(i as int)[0] == b@[i as int]@);
        less(a[i].as_str(), b[i].as_str())
    }
}

/// Whether a device row stands before another: by interface, then by IPv4
/// addresses, then by IPv6 addresses.
pub open spec fn row_before(a: DeviceModel, b: DeviceModel) -> bool {
    if a.logical_iface != b.logical_iface {
        text_less(a.logical_iface, b.logical_iface)
    } else if a.ipv4 != b.ipv4 {
        texts_less(a.ipv4, b.ipv4)
    } else {
        texts_less(a.ipv6, b.ipv6)
    }
}

proof fn lemma_row_order(a: DeviceModel, b: DeviceModel, c: DeviceModel)
    ensures
        row_before(a, b) ==> !row_before(b, a),
        row_before(a, c) ==> row_before(a, b) || row_before(b, c),
{
    lemma_text_less_total(a.logical_iface, b.logical_iface);
    lemma_text_less_total(b.logical_iface, c.logical_iface);
    lemma_text_less_total(a.logical_iface, c.logical_iface);
    lemma_texts_less_total(a.ipv4, b.ipv4);
    lemma_texts_less_total(b.ipv4, c.ipv4);
    lemma_texts_less_total(a.ipv4, c.ipv4);
    lemma_texts_less_total(a.ipv6, b.ipv6);
    lemma_texts_less_total(b.ipv6, c.ipv6);
    lemma_texts_less_total(a.ipv6, c.ipv6);
    if text_less(c.logical_iface, b.logical_iface) && text_less(b.logical_iface, a.logical_iface) {
        lemma_text_less_transitive(c.logical_iface, b.logical_iface, a.logical_iface);
    }
    if texts_less(c.ipv4, b.ipv4) && texts_less(b.ipv4, a.ipv4) {
        lemma_texts_less_transitive(c.ipv4, b.ipv4, a.ipv4);
    }
    if texts_less(c.ipv6, b.ipv6) && texts_less(b.ipv6, a.ipv6) {
        lemma_texts_less_transitive(c.ipv6, b.ipv6, a.ipv6);
    }
}

impl Ranked for DeviceListItem {
    open spec fn precedes(self, other: Self) -> bool {
        row_before(self@, other@)
    }

    proof fn asymmetric(a: Self, b: Self) {
        lemma_row_order(a@, b@, b@);
    }

    proof fn cotransitive(a: Self, b: Self, c: Self) {
        lemma_row_order(a@, b@, c@);
    }

    fn comes_before(&self, other: &Self) -> (r: bool) {
        if self.logical_iface != other.logical_iface {
            return less(self.logical_iface.as_str(), other.logical_iface.as_str());
        }
        let first = texts_before(&self.ipv4, &other.ipv4);
        let second = texts_before(&other.ipv4, &self.ipv4);
        proof {
            lemma_texts_less_total(views(self.ipv4@), views(other.ipv4@));
        }
        if first || second {
            first
        } else {
            texts_before(&self.ipv6, &other.ipv6)
        }
    }
}

} // verus!

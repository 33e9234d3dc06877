//! What is remembered between snapshots, how it is kept over a restart, and what is
//! shown before the first snapshot.
use crate::bucket::{zero_quad, CounterQuad};
use crate::deviceset::DeviceSet;
use crate::dnsrec::copy_texts;
use crate::history::quad_at;
use crate::keys::{mac_eq, DeviceTrafficKey, EcmTrafficKey, InterfaceTrafficKey};
use crate::mac::{from_str, law_mac_roundtrip, mac_text, parsed_mac, to_string};
use crate::snapshot::{
    device_views, overview_views, row_before, DeviceListItem, DeviceModel, InterfaceOverviewItem,
    OverviewModel, SnapshotData,
};
use crate::sort::{
    arrange, law_arranged_is_ordered, lemma_same_mapped, lemma_same_members, ordered, Ranked,
};
use crate::table::Table;
use crate::text::{less, lemma_text_less_total, lemma_text_less_transitive, text_less, views};
use crate::topology::{find_index, named_index, InterfaceModel, TopologySnapshot};
use vstd::prelude::*;

verus! {

/// A device that was seen on an interface.
#[derive(Debug)]
pub struct KnownDevice {
    pub ifindex: u32,
    pub mac: [u8; 6],
    pub ipv4: Vec<String>,
    pub ipv6: Vec<String>,
    pub hostname: String,
    pub logical_iface: String,
    pub subnet: String,
    pub last_seen_ms: u64,
}

/// A known device over plain values.
pub struct KnownModel {
    pub ifindex: u32,
    pub mac: Seq<u8>,
    pub ipv4: Seq<Seq<char>>,
    pub ipv6: Seq<Seq<char>>,
    pub hostname: Seq<char>,
    pub logical_iface: Seq<char>,
    pub subnet: Seq<char>,
    pub last_seen_ms: u64,
}

impl View for KnownDevice {
    type V = KnownModel;

    open spec fn view(&self) -> KnownModel {
        KnownModel {
            ifindex: self.ifindex,
            mac: self.mac@,
            ipv4: views(self.ipv4@),
            ipv6: views(self.ipv6@),
            hostname: self.hostname@,
            logical_iface: self.logical_iface@,
            subnet: self.subnet@,
            last_seen_ms: self.last_seen_ms,
        }
    }
}

impl Clone for KnownDevice {
    fn clone(&self) -> (r: Self)
        ensures
            r@ == self@,
    {
        KnownDevice {
            ifindex: self.ifindex,
            mac: self.mac,
            ipv4: copy_texts(&self.ipv4),
            ipv6: copy_texts(&self.ipv6),
            hostname: self.hostname.clone(),
            logical_iface: self.logical_iface.clone(),
            subnet: self.subnet.clone(),
            last_seen_ms: self.last_seen_ms,
        }
    }
}

/// The devices that were seen, by interface and address.
#[derive(Debug)]
pub struct DeviceRegistry {
    pub entries: Table<(u32, [u8; 6]), KnownDevice>,
}

/// Known devices by key, over plain values.
pub open spec fn known_by(m: Map<(u32, Seq<u8>), KnownDevice>) -> Map<(u32, Seq<u8>), KnownModel> {
    Map::new(|k: (u32, Seq<u8>)| m.dom().contains(k), |k: (u32, Seq<u8>)| m[k]@)
}

/// What is remembered from one snapshot to the next.
pub struct MonitorRuntime {
    pub prev_iface_bytes: Table<InterfaceTrafficKey, u64>,
    pub prev_device_bytes: Table<DeviceTrafficKey, u64>,
    pub prev_ecm_bytes: Table<EcmTrafficKey, u64>,
    pub ecm_active_devices: DeviceSet,
    pub cumulative_iface: Table<u32, CounterQuad>,
    pub cumulative_device: Table<(u32, [u8; 6]), CounterQuad>,
    pub smoothed_rates: Table<(u32, [u8; 6]), CounterQuad>,
    pub smoothed_iface_rates: Table<u32, CounterQuad>,
    pub smoothed_wan_ecm_rates: Option<CounterQuad>,
    pub smoothed_lan_ecm_rates: Table<u32, CounterQuad>,
    pub last_snapshot_ms: Option<u64>,
    pub last_sync_tracking_ms: u64,
    pub device_registry: DeviceRegistry,
    pub last_hostname_fetch_ms: u64,
    pub cached_hostnames: Table<[u8; 6], String>,
    pub ecm_last_active_ms: Table<EcmTrafficKey, u64>,
}

/// The counters of devices without those of one device.
pub open spec fn without_counters(
    m: Map<(u32, Seq<u8>, u8, u8), u64>,
    ifindex: u32,
    mac: Seq<u8>,
) -> Map<(u32, Seq<u8>, u8, u8), u64> {
    Map::new(
        |k: (u32, Seq<u8>, u8, u8)| m.dom().contains(k) && !(k.0 == ifindex && k.1 == mac),
        |k: (u32, Seq<u8>, u8, u8)| m[k],
    )
}

/// Whether there is a counter of a device.
pub open spec fn has_counter(
    m: Map<(u32, Seq<u8>, u8, u8), u64>,
    ifindex: u32,
    mac: Seq<u8>,
) -> bool {
    exists|k: (u32, Seq<u8>, u8, u8)| #[trigger] m.dom().contains(k) && k.0 == ifindex && k.1 == mac
}

fn drop_counters(t: &mut Table<DeviceTrafficKey, u64>, ifindex: u32, mac: &[u8; 6]) -> (r: bool)
    requires
        old(t).wf(),
    ensures
        final(t).wf(),
        final(t)@ == without_counters(old(t)@, ifindex, mac@),
        r == has_counter(old(t)@, ifindex, mac@),
{
    let ghost m = t@;
    let mut removed = false;
    let mut i: usize = 0;
    while i < t.len()
        invariant
            t.wf(),
            i <= t.entries@.len(),
            t@.submap_of(m),
            forall|j: int|
                0 <= j < i ==> !((#[trigger] t.entries@[j]).0.ifindex == ifindex
                    && t.entries@[j].0.mac@ == mac@),
            forall|k: (u32, Seq<u8>, u8, u8)| #[trigger]
                m.dom().contains(k) && !(k.0 == ifindex && k.1 == mac@) ==> t@.dom().contains(k),
            removed ==> has_counter(m, ifindex, mac@),
            !removed ==> t@ == m,
        decreases t.entries@.len() - i,
    {
        proof {
            t.lemma_entry(i as int);
        }
        if t.entries[i].0.ifindex == ifindex && mac_eq(&t.entries[i].0.mac, mac) {
            let ghost mid = *t;
            let ghost k = t.entries@[i as int].0@;
            assert(m.dom().contains(k) && k.0 == ifindex && k.1 == mac@);
            let _ = t.remove_at(i);
            removed = true;
            assert forall|j: int| 0 <= j < i implies !((#[trigger] t.entries@[j]).0.ifindex
                == ifindex && t.entries@[j].0.mac@ == mac@) by {
                assert(t.entries@[j] == mid.entries@[j]);
            }
        } else {
            i += 1;
        }
    }
    assert forall|k: (u32, Seq<u8>, u8, u8)| #[trigger] t@.dom().contains(k) implies !(k.0
        == ifindex && k.1 == mac@) by {
        let p = t.place(k);
        t.lemma_entry(p);
    }
    assert(t@ =~= without_counters(m, ifindex, mac@));
    removed
}

impl MonitorRuntime {
    pub open spec fn wf(self) -> bool {
        &&& self.prev_iface_bytes.wf()
        &&& self.prev_device_bytes.wf()
        &&& self.prev_ecm_bytes.wf()
        &&& self.cumulative_iface.wf()
        &&& self.cumulative_device.wf()
        &&& self.smoothed_rates.wf()
        &&& self.smoothed_iface_rates.wf()
        &&& self.smoothed_lan_ecm_rates.wf()
        &&& self.device_registry.entries.wf()
        &&& self.cached_hostnames.wf()
        &&& self.ecm_last_active_ms.wf()
    }

    /// Nothing is remembered yet.
    pub fn new() -> (r: Self)
        ensures
            r.wf(),
            r.prev_iface_bytes@ == Map::<(u32, u8, u8, Seq<u8>), u64>::empty(),
            r.prev_device_bytes@ == Map::<(u32, Seq<u8>, u8, u8), u64>::empty(),
            r.prev_ecm_bytes@ == Map::<(Seq<u32>, u8, u8, Seq<u8>), u64>::empty(),
            r.ecm_active_devices@ == Set::<(u32, Seq<u8>)>::empty(),
            r.cumulative_iface@ == Map::<u32, CounterQuad>::empty(),
            r.cumulative_device@ == Map::<(u32, Seq<u8>), CounterQuad>::empty(),
            r.smoothed_rates@ == Map::<(u32, Seq<u8>), CounterQuad>::empty(),
            r.smoothed_iface_rates@ == Map::<u32, CounterQuad>::empty(),
            r.smoothed_wan_ecm_rates is None,
            r.smoothed_lan_ecm_rates@ == Map::<u32, CounterQuad>::empty(),
            r.last_snapshot_ms is None,
            r.last_sync_tracking_ms == 0,
            r.device_registry.entries@ == Map::<(u32, Seq<u8>), KnownDevice>::empty(),
            r.last_hostname_fetch_ms == 0,
            r.cached_hostnames@ == Map::<Seq<u8>, String>::empty(),
            r.ecm_last_active_ms@ == Map::<(Seq<u32>, u8, u8, Seq<u8>), u64>::empty(),
    {
        MonitorRuntime {
            prev_iface_bytes: Table::new(),
            prev_device_bytes: Table::new(),
            prev_ecm_bytes: Table::new(),
            ecm_active_devices: DeviceSet::empty(),
            cumulative_iface: Table::new(),
            cumulative_device: Table::new(),
            smoothed_rates: Table::new(),
            smoothed_iface_rates: Table::new(),
            smoothed_wan_ecm_rates: None,
            smoothed_lan_ecm_rates: Table::new(),
            last_snapshot_ms: None,
            last_sync_tracking_ms: 0,
            device_registry: DeviceRegistry { entries: Table::new() },
            last_hostname_fetch_ms: 0,
            cached_hostnames: Table::new(),
            ecm_last_active_ms: Table::new(),
        }
    }

    /// Forgets all that is kept of a device on an interface. Tells whether it was known
    /// or anything was counted of it.
    pub fn remove_device(&mut self, ifindex: u32, mac: [u8; 6]) -> (r: bool)
        requires
            old(self).wf(),
        ensures
            final(self).wf(),
            ({
                let k = (ifindex, mac@);
                &&& final(self).device_registry.entries@ == old(
                    self,
                ).device_registry.entries@.remove(k)
                &&& final(self).cumulative_device@ == old(self).cumulative_device@.remove(k)
                &&& final(self).smoothed_rates@ == old(self).smoothed_rates@.remove(k)
                &&& final(self).prev_device_bytes@ == without_counters(
                    old(self).prev_device_bytes@,
                    ifindex,
                    mac@,
                )
                &&& final(self).ecm_active_devices@ == old(self).ecm_active_devices@.remove(k)
                &&& r == (old(self).device_registry.entries@.dom().contains(k) || old(
                    self,
                ).cumulative_device@.dom().contains(k) || old(
                    self,
                ).smoothed_rates@.dom().contains(k) || has_counter(
                    old(self).prev_device_bytes@,
                    ifindex,
                    mac@,
                ))
            }),
            *final(self) == (MonitorRuntime {
                device_registry: final(self).device_registry,
                cumulative_device: final(self).cumulative_device,
                smoothed_rates: final(self).smoothed_rates,
                prev_device_bytes: final(self).prev_device_bytes,
                ecm_active_devices: final(self).ecm_active_devices,
                ..*old(self)
            }),
    {
        let k = (ifindex, mac);
        let known = self.device_registry.entries.remove(&k).is_some();
        let counted = self.cumulative_device.remove(&k).is_some();
        let smoothed = self.smoothed_rates.remove(&k).is_some();
        let previous = drop_counters(&mut self.prev_device_bytes, ifindex, &mac);
        self.ecm_active_devices.remove(ifindex, mac);
        known || counted || smoothed || previous
    }
}

/// A known device as it is kept.
#[derive(Debug)]
pub struct PersistedKnownDevice {
    pub logical_iface: String,
    pub mac: String,
    pub ipv4: Vec<String>,
    pub ipv6: Vec<String>,
    pub hostname: String,
    pub subnet: String,
    pub last_seen_ms: u64,
}

/// A kept device over plain values.
pub struct PersistedModel {
    pub logical_iface: Seq<char>,
    pub mac: Seq<char>,
    pub ipv4: Seq<Seq<char>>,
    pub ipv6: Seq<Seq<char>>,
    pub hostname: Seq<char>,
    pub subnet: Seq<char>,
    pub last_seen_ms: u64,
}

impl View for PersistedKnownDevice {
    type V = PersistedModel;

    open spec fn view(&self) -> PersistedModel {
        PersistedModel {
            logical_iface: self.logical_iface@,
            mac: self.mac@,
            ipv4: views(self.ipv4@),
            ipv6: views(self.ipv6@),
            hostname: self.hostname@,
            subnet: self.subnet@,
            last_seen_ms: self.last_seen_ms,
        }
    }
}

/// What is kept of the runtime.
#[derive(Debug)]
pub struct MonitorRuntimeState {
    pub known_devices: Vec<PersistedKnownDevice>,
}

/// Kept devices over plain values.
pub open spec fn persisted_views(v: Seq<PersistedKnownDevice>) -> Seq<PersistedModel> {
    v.map_values(|d: PersistedKnownDevice| d@)
}

/// Whether a kept device stands before another: by interface, then by address.
pub open spec fn persisted_before(a: PersistedModel, b: PersistedModel) -> bool {
    if a.logical_iface != b.logical_iface {
        text_less(a.logical_iface, b.logical_iface)
    } else {
        text_less(a.mac, b.mac)
    }
}

proof fn lemma_two_texts(a1: Seq<char>, a2: Seq<char>, b1: Seq<char>, b2: Seq<char>, c1: Seq<char>, c2: Seq<char>)
    ensures
        ({
            let ab = if a1 != b1 { text_less(a1, b1) } else { text_less(a2, b2) };
            let ba = if a1 != b1 { text_less(b1, a1) } else { text_less(b2, a2) };
            let bc = if b1 != c1 { text_less(b1, c1) } else { text_less(b2, c2) };
            let ac = if a1 != c1 { text_less(a1, c1) } else { text_less(a2, c2) };
            &&& ab ==> !ba
            &&& ac ==> ab || bc
        }),
{
    lemma_text_less_total(a1, b1);
    lemma_text_less_total(b1, c1);
    lemma_text_less_total(a1, c1);
    lemma_text_less_total(a2, b2);
    lemma_text_less_total(b2, c2);
    lemma_text_less_total(a2, c2);
    if text_less(c1, b1) && text_less(b1, a1) {
        lemma_text_less_transitive(c1, b1, a1);
    }
    if text_less(c2, b2) && text_less(b2, a2) {
        lemma_text_less_transitive(c2, b2, a2);
    }
}

impl Ranked for PersistedKnownDevice {
    open spec fn precedes(self, other: Self) -> bool {
        persisted_before(self@, other@)
    }

    proof fn asymmetric(a: Self, b: Self) {
        lemma_two_texts(a@.logical_iface, a@.mac, b@.logical_iface, b@.mac, b@.logical_iface, b@.mac);
    }

    proof fn cotransitive(a: Self, b: Self, c: Self) {
        lemma_two_texts(a@.logical_iface, a@.mac, b@.logical_iface, b@.mac, c@.logical_iface, c@.mac);
    }

    fn comes_before(&self, other: &Self) -> (r: bool) {
        if self.logical_iface != other.logical_iface {
            less(self.logical_iface.as_str(), other.logical_iface.as_str())
        } else {
            less(self.mac.as_str(), other.mac.as_str())
        }
    }
}

/// A known device as it is kept, under the name that its interface has now.
pub open spec fn persisted(e: ((u32, [u8; 6]), KnownDevice), topology: Seq<InterfaceModel>) -> PersistedModel {
    let d = e.1@;
    PersistedModel {
        logical_iface: match find_index(topology, e.0.0) {
            Some(x) => x.name,
            None => d.logical_iface,
        },
        mac: mac_text(e.0.1@),
        ipv4: d.ipv4,
        ipv6: d.ipv6,
        hostname: d.hostname,
        subnet: d.subnet,
        last_seen_ms: d.last_seen_ms,
    }
}

/// All known devices as they are kept.
pub open spec fn all_persisted(
    entries: Seq<((u32, [u8; 6]), KnownDevice)>,
    topology: Seq<InterfaceModel>,
) -> Seq<PersistedModel> {
    entries.map_values(|e: ((u32, [u8; 6]), KnownDevice)| persisted(e, topology))
}

/// What is kept of the runtime: every known device, in the order of interfaces and
/// addresses.
pub fn export_runtime_state(runtime: &MonitorRuntime, topology: &TopologySnapshot) -> (r:
    MonitorRuntimeState)
    ensures
        ordered(r.known_devices@),
        persisted_views(r.known_devices@).to_multiset() == all_persisted(
            runtime.device_registry.entries.entries@,
            topology@,
        ).to_multiset(),
{
    let mut list: Vec<PersistedKnownDevice> = Vec::new();
    let es = &runtime.device_registry.entries.entries;
    let ghost all = all_persisted(es@, topology@);
    let mut i: usize = 0;
    assert(persisted_views(list@) =~= all.take(0));
    while i < es.len()
        invariant
            i <= es@.len(),
            all == all_persisted(es@, topology@),
            persisted_views(list@) == all.take(i as int),
        decreases es@.len() - i,
    {
        let key = &es[i].0;
        let dev = &es[i].1;
        let logical_iface = match topology.by_ifindex(key.0) {
            Some(x) => x.name.clone(),
            None => dev.logical_iface.clone(),
        };
        let ghost before = persisted_views(list@);
        let p = PersistedKnownDevice {
            logical_iface,
            mac: to_string(&key.1),
            ipv4: copy_texts(&dev.ipv4),
            ipv6: copy_texts(&dev.ipv6),
            hostname: dev.hostname.clone(),
            subnet: dev.subnet.clone(),
            last_seen_ms: dev.last_seen_ms,
        };
        let ghost pv = p@;
        list.push(p);
        assert(persisted_views(list@) =~= before.push(pv));
        assert(all.take(i + 1) =~= all.take(i as int).push(all[i as int]));
        i += 1;
    }
    assert(all.take(i as int) =~= all);
    let ghost whole = list@;
    let known_devices = arrange(list);
    proof {
        law_arranged_is_ordered(whole);
        lemma_same_mapped(known_devices@, whole, |d: PersistedKnownDevice| d@);
    }
    MonitorRuntimeState { known_devices }
}

/// The devices of a kept list whose interfaces exist and whose addresses can be
/// read.
pub open spec fn imported(s: Seq<PersistedModel>, topology: Seq<InterfaceModel>) -> Map<
    (u32, Seq<u8>),
    KnownModel,
>
    decreases s.len(),
{
    if s.len() == 0 {
        Map::empty()
    } else {
        let m = imported(s.drop_last(), topology);
        let d = s.last();
        match (named_index(topology, d.logical_iface), parsed_mac(d.mac)) {
            (Some(ifindex), Some(mac)) => m.insert(
                (ifindex, mac),
                KnownModel {
                    ifindex,
                    mac,
                    ipv4: d.ipv4,
                    ipv6: d.ipv6,
                    hostname: d.hostname,
                    logical_iface: d.logical_iface,
                    subnet: d.subnet,
                    last_seen_ms: d.last_seen_ms,
                },
            ),
            _ => m,
        }
    }
}

/// The key of a kept device whose interface exists and whose address can be read.
pub open spec fn resolved(d: PersistedModel, topology: Seq<InterfaceModel>) -> Option<
    (u32, Seq<u8>),
> {
    match (named_index(topology, d.logical_iface), parsed_mac(d.mac)) {
        (Some(ifindex), Some(mac)) => Some((ifindex, mac)),
        _ => None,
    }
}

/// A kept device as a known one.
pub open spec fn known_again(d: PersistedModel, k: (u32, Seq<u8>)) -> KnownModel {
    KnownModel {
        ifindex: k.0,
        mac: k.1,
        ipv4: d.ipv4,
        ipv6: d.ipv6,
        hostname: d.hostname,
        logical_iface: d.logical_iface,
        subnet: d.subnet,
        last_seen_ms: d.last_seen_ms,
    }
}

proof fn lemma_imported(s: Seq<PersistedModel>, topology: Seq<InterfaceModel>)
    ensures
        forall|i: int|
            0 <= i < s.len() && (#[trigger] resolved(s[i], topology)) is Some ==> imported(
                s,
                topology,
            ).dom().contains(resolved(s[i], topology)->0),
        forall|k: (u32, Seq<u8>)| #[trigger]
            imported(s, topology).dom().contains(k) ==> exists|i: int|
                0 <= i < s.len() && (#[trigger] resolved(s[i], topology)) == Some(k) && imported(
                    s,
                    topology,
                )[k] == known_again(s[i], k),
    decreases s.len(),
{
    if s.len() > 0 {
        let t = s.drop_last();
        lemma_imported(t, topology);
        assert forall|i: int| 0 <= i < s.len() && (#[trigger] resolved(s[i], topology)) is Some implies imported(
            s,
            topology,
        ).dom().contains(resolved(s[i], topology)->0) by {
            if i < t.len() {
                assert(t[i] == s[i]);
                assert(resolved(t[i], topology) is Some);
            }
        }
        assert forall|k: (u32, Seq<u8>)| #[trigger] imported(s, topology).dom().contains(k) implies exists|
            i: int,
        |
            0 <= i < s.len() && (#[trigger] resolved(s[i], topology)) == Some(k) && imported(
                s,
                topology,
            )[k] == known_again(s[i], k) by {
            if resolved(s.last(), topology) == Some(k) {
                assert(resolved(s[s.len() - 1], topology) == Some(k));
            } else {
                assert(imported(t, topology).dom().contains(k));
                let i = choose|i: int|
                    0 <= i < t.len() && (#[trigger] resolved(t[i], topology)) == Some(k)
                        && imported(t, topology)[k] == known_again(t[i], k);
                assert(t[i] == s[i]);
                assert(resolved(s[i], topology) == Some(k));
            }
        }
    }
}

/// What is kept of the known devices comes back with a restart: of devices on
/// interfaces that are found under their names, whatever the order of the kept list,
/// every one is known again, and no other.
pub proof fn law_restart_keeps_devices(
    entries: Seq<((u32, [u8; 6]), KnownDevice)>,
    topology: Seq<InterfaceModel>,
    kept: Seq<PersistedModel>,
)
    requires
        forall|i: int, j: int|
            0 <= i < j < entries.len() ==> (#[trigger] entries[i]).0@ != (#[trigger] entries[j]).0@,
        forall|i: int|
            0 <= i < entries.len() ==> (find_index(topology, (#[trigger] entries[i]).0.0) matches Some(
                x,
            ) && named_index(topology, x.name) == Some(entries[i].0.0)),
        kept.to_multiset() == all_persisted(entries, topology).to_multiset(),
    ensures
        forall|i: int|
            0 <= i < entries.len() ==> {
                let e = #[trigger] entries[i];
                &&& imported(kept, topology).dom().contains(e.0@)
                &&& imported(kept, topology)[e.0@] == (KnownModel {
                    ifindex: e.0.0,
                    mac: e.0.1@,
                    logical_iface: find_index(topology, e.0.0)->0.name,
                    ..e.1@
                })
            },
        forall|k: (u32, Seq<u8>)| #[trigger]
            imported(kept, topology).dom().contains(k) ==> exists|i: int|
                0 <= i < entries.len() && (#[trigger] entries[i]).0@ == k,
{
    let all = all_persisted(entries, topology);
    lemma_imported(kept, topology);
    assert forall|i: int| 0 <= i < all.len() implies #[trigger] resolved(all[i], topology) == Some(
        entries[i].0@,
    ) by {
        let e = entries[i];
        law_mac_roundtrip(e.0.1@);
        assert(all[i] == persisted(e, topology));
    }
    assert forall|i: int|
        0 <= i < kept.len() && (#[trigger] resolved(kept[i], topology)) is Some implies exists|j: int|
        0 <= j < entries.len() && (#[trigger] entries[j]).0@ == resolved(kept[i], topology)->0
            && kept[i] == all[j] by {
        lemma_same_members(kept, all, i);
        let j = choose|j: int| 0 <= j < all.len() && all[j] == kept[i];
        assert(resolved(all[j], topology) == Some(entries[j].0@));
        assert(entries[j].0@ == resolved(kept[i], topology)->0);
    }
    assert forall|i: int| 0 <= i < entries.len() implies {
        let e = #[trigger] entries[i];
        &&& imported(kept, topology).dom().contains(e.0@)
        &&& imported(kept, topology)[e.0@] == (KnownModel {
            ifindex: e.0.0,
            mac: e.0.1@,
            logical_iface: find_index(topology, e.0.0)->0.name,
            ..e.1@
        })
    } by {
        let e = entries[i];
        lemma_same_members(all, kept, i);
        let p = choose|p: int| 0 <= p < kept.len() && kept[p] == all[i];
        assert(resolved(all[i], topology) == Some(e.0@));
        assert(resolved(kept[p], topology) is Some);
        let q = choose|q: int|
            0 <= q < kept.len() && (#[trigger] resolved(kept[q], topology)) == Some(e.0@)
                && imported(kept, topology)[e.0@] == known_again(kept[q], e.0@);
        let j = choose|j: int|
            0 <= j < entries.len() && (#[trigger] entries[j]).0@ == e.0@ && kept[q] == all[j];
        assert(j == i);
        assert(all[i] == persisted(e, topology));
    }
    assert forall|k: (u32, Seq<u8>)| #[trigger] imported(kept, topology).dom().contains(k) implies exists|
        i: int,
    |
        0 <= i < entries.len() && (#[trigger] entries[i]).0@ == k by {
        let q = choose|q: int|
            0 <= q < kept.len() && (#[trigger] resolved(kept[q], topology)) == Some(k)
                && imported(kept, topology)[k] == known_again(kept[q], k);
        let j = choose|j: int|
            0 <= j < entries.len() && (#[trigger] entries[j]).0@ == k && kept[q] == all[j];
        assert(entries[j].0@ == k);
    }
}

/// Takes over what was kept: all other known devices are forgotten.
pub fn import_runtime_state(
    runtime: &mut MonitorRuntime,
    state: &MonitorRuntimeState,
    topology: &TopologySnapshot,
)
    requires
        old(runtime).wf(),
    ensures
        final(runtime).wf(),
        known_by(final(runtime).device_registry.entries@) == imported(
            persisted_views(state.known_devices@),
            topology@,
        ),
        *final(runtime) == (MonitorRuntime {
            device_registry: final(runtime).device_registry,
            ..*old(runtime)
        }),
{
    let mut entries: Table<(u32, [u8; 6]), KnownDevice> = Table::new();
    let v = &state.known_devices;
    let ghost s = persisted_views(v@);
    let mut i: usize = 0;
    assert(s.take(0) =~= Seq::empty());
    assert(known_by(entries@) =~= Map::empty());
    while i < v.len()
        invariant
            i <= v@.len(),
            s == persisted_views(v@),
            entries.wf(),
            known_by(entries@) == imported(s.take(i as int), topology@),
        decreases v@.len() - i,
    {
        assert(s.take(i + 1).drop_last() =~= s.take(i as int));
        assert(s.take(i + 1).last() == v@[i as int]@);
        let item = &v[i];
        if let Some(ifindex) = topology.ifindex_by_name(item.logical_iface.as_str()) {
            if let Ok(mac) = from_str(item.mac.as_str()) {
                let ghost before = entries@;
                let d = KnownDevice {
                    ifindex,
                    mac,
                    ipv4: copy_texts(&item.ipv4),
                    ipv6: copy_texts(&item.ipv6),
                    hostname: item.hostname.clone(),
                    logical_iface: item.logical_iface.clone(),
                    subnet: item.subnet.clone(),
                    last_seen_ms: item.last_seen_ms,
                };
                let ghost dv = d@;
                entries.insert((ifindex, mac), d);
                assert(known_by(entries@) =~= known_by(before).insert((ifindex, mac@), dv));
            }
        }
        i += 1;
    }
    assert(s.take(i as int) =~= s);
    runtime.device_registry = DeviceRegistry { entries };
}

impl Ranked for InterfaceOverviewItem {
    open spec fn precedes(self, other: Self) -> bool {
        self.ifindex < other.ifindex
    }

    proof fn asymmetric(a: Self, b: Self) {
    }

    proof fn cotransitive(a: Self, b: Self, c: Self) {
    }

    fn comes_before(&self, other: &Self) -> (r: bool) {
        self.ifindex < other.ifindex
    }
}

/// A device row that ranks by its address too.
struct AddressedRow {
    row: DeviceListItem,
}

/// Whether a device row stands before another: as rows do, then by address.
pub open spec fn addressed_before(a: DeviceModel, b: DeviceModel) -> bool {
    row_before(a, b) || (!row_before(b, a) && text_less(a.mac, b.mac))
}

impl Ranked for AddressedRow {
    closed spec fn precedes(self, other: Self) -> bool {
        addressed_before(self.row@, other.row@)
    }

    proof fn asymmetric(a: Self, b: Self) {
        lemma_text_less_total(a.row@.mac, b.row@.mac);
        if row_before(a.row@, b.row@) {
            DeviceListItem::asymmetric(a.row, b.row);
        }
    }

    proof fn cotransitive(a: Self, b: Self, c: Self) {
        lemma_text_less_total(a.row@.mac, b.row@.mac);
        lemma_text_less_total(b.row@.mac, c.row@.mac);
        lemma_text_less_total(a.row@.mac, c.row@.mac);
        if text_less(c.row@.mac, b.row@.mac) && text_less(b.row@.mac, a.row@.mac) {
            lemma_text_less_transitive(c.row@.mac, b.row@.mac, a.row@.mac);
        }
        if row_before(a.row@, c.row@) {
            DeviceListItem::cotransitive(a.row, b.row, c.row);
        } else if row_before(b.row@, a.row@) {
            DeviceListItem::cotransitive(b.row, c.row, a.row);
        } else if row_before(c.row@, b.row@) {
            DeviceListItem::cotransitive(c.row, a.row, b.row);
        }
    }

    fn comes_before(&self, other: &Self) -> (r: bool) {
        self.row.comes_before(&other.row) || (!other.row.comes_before(&self.row) && less(
            self.row.mac.as_str(),
            other.row.mac.as_str(),
        ))
    }
}

/// Whether device rows stand in order, by address too.
pub open spec fn rows_ordered(v: Seq<DeviceListItem>) -> bool {
    forall|i: int, j: int|
        0 <= i < j < v.len() ==> !addressed_before((#[trigger] v[j])@, (#[trigger] v[i])@)
}

fn arrange_rows(list: Vec<DeviceListItem>) -> (r: Vec<DeviceListItem>)
    ensures
        rows_ordered(r@),
        device_views(r@).to_multiset() == device_views(list@).to_multiset(),
{
    let ghost all = list@;
    let mut list = list;
    let mut back: Vec<AddressedRow> = Vec::new();
    while list.len() > 0
        invariant
            list@.len() <= all.len(),
            list@ == all.take(list@.len() as int),
            back@.len() == all.len() - list@.len(),
            forall|j: int|
                0 <= j < back@.len() ==> (#[trigger] back@[j]).row == all[all.len() - 1 - j],
        decreases list@.len(),
    {
        let ghost n = list@.len();
        if let Some(row) = list.pop() {
            assert(row == all[n - 1]);
            back.push(AddressedRow { row });
            assert(list@ =~= all.take(n - 1));
        }
    }
    let ghost wrapped = back@;
    let mut sorted = arrange(back);
    let ghost done = sorted@;
    proof {
        law_arranged_is_ordered(wrapped);
        lemma_same_mapped(done, wrapped, |x: AddressedRow| x.row@);
        broadcast use vstd::seq_lib::group_to_multiset_ensures;

        assert(wrapped.map_values(|x: AddressedRow| x.row@) =~= device_views(all).reverse());
        device_views(all).lemma_reverse_to_multiset();
    }
    let mut r: Vec<DeviceListItem> = Vec::new();
    let mut rev: Vec<DeviceListItem> = Vec::new();
    while sorted.len() > 0
        invariant
            sorted@.len() <= done.len(),
            sorted@ == done.take(sorted@.len() as int),
            rev@.len() == done.len() - sorted@.len(),
            forall|j: int|
                0 <= j < rev@.len() ==> #[trigger] rev@[j] == done[done.len() - 1 - j].row,
        decreases sorted@.len(),
    {
        let ghost n = sorted@.len();
        if let Some(x) = sorted.pop() {
            assert(x == done[n - 1]);
            rev.push(x.row);
            assert(sorted@ =~= done.take(n - 1));
        }
    }
    while rev.len() > 0
        invariant
            rev@.len() <= done.len(),
            r@.len() == done.len() - rev@.len(),
            forall|j: int|
                0 <= j < rev@.len() ==> #[trigger] rev@[j] == done[done.len() - 1 - j].row,
            forall|j: int| 0 <= j < r@.len() ==> #[trigger] r@[j] == done[j].row,
        decreases rev@.len(),
    {
        if let Some(x) = rev.pop() {
            r.push(x);
        }
    }
    proof {
        assert(device_views(r@) =~= done.map_values(|x: AddressedRow| x.row@));
        assert forall|i: int, j: int| 0 <= i < j < r@.len() implies !addressed_before(
            (#[trigger] r@[j])@,
            (#[trigger] r@[i])@,
        ) by {
            assert(!done[j].precedes(done[i]));
        }
    }
    r
}

/// A known device as a row before it is seen again.
pub open spec fn offline_row(k: KnownModel, mac: Seq<u8>, ifindex: u32, cumulative: CounterQuad) -> DeviceModel {
    DeviceModel {
        ifindex,
        logical_iface: k.logical_iface,
        subnet: k.subnet,
        ipv4: k.ipv4,
        ipv6: k.ipv6,
        mac: mac_text(mac),
        hostname: k.hostname,
        metrics: zero_quad(),
        cumulative,
        online: false,
        last_seen_ms: k.last_seen_ms,
        neighbor_state: None,
    }
}

/// A known device as a row that is not online.
pub(crate) fn make_offline_row(
    known: &KnownDevice,
    mac: &[u8; 6],
    ifindex: u32,
    cumulative: CounterQuad,
) -> (r: DeviceListItem)
    ensures
        r@ == offline_row(known@, mac@, ifindex, cumulative),
{
    DeviceListItem {
        ifindex,
        logical_iface: known.logical_iface.clone(),
        subnet: known.subnet.clone(),
        ipv4: copy_texts(&known.ipv4),
        ipv6: copy_texts(&known.ipv6),
        mac: to_string(mac),
        hostname: known.hostname.clone(),
        metrics: CounterQuad::default(),
        cumulative,
        online: false,
        last_seen_ms: known.last_seen_ms,
        neighbor_state: None,
    }
}

/// The total under a key, zero where there is none.
pub(crate) fn total_of(t: &Table<(u32, [u8; 6]), CounterQuad>, k: &(u32, [u8; 6])) -> (r: CounterQuad)
    requires
        t.wf(),
    ensures
        r == quad_at(t@, k@),
{
    match t.get(k) {
        Some(q) => *q,
        None => CounterQuad::default(),
    }
}

/// The interfaces that exist and have totals, without current traffic.
pub open spec fn recovered_ifaces(
    entries: Seq<(u32, CounterQuad)>,
    topology: Seq<InterfaceModel>,
) -> Seq<OverviewModel>
    decreases entries.len(),
{
    if entries.len() == 0 {
        Seq::empty()
    } else {
        let before = recovered_ifaces(entries.drop_last(), topology);
        match find_index(topology, entries.last().0) {
            Some(x) => before.push(
                OverviewModel {
                    ifindex: entries.last().0,
                    ifname: x.name,
                    zone: x.zone,
                    metrics: zero_quad(),
                    cumulative: entries.last().1,
                },
            ),
            None => before,
        }
    }
}

/// The known devices as rows.
pub open spec fn recovered_devices(
    entries: Seq<((u32, [u8; 6]), KnownDevice)>,
    totals: Map<(u32, Seq<u8>), CounterQuad>,
) -> Seq<DeviceModel> {
    entries.map_values(
        |e: ((u32, [u8; 6]), KnownDevice)|
            offline_row(e.1@, e.0.1@, e.0.0, quad_at(totals, (e.0.0, e.0.1@))),
    )
}

/// What is shown at a time before the first snapshot: the totals of the interfaces
/// and the known devices, all offline.
pub fn build_recovered_snapshot(runtime: &MonitorRuntime, topology: &TopologySnapshot, now_ms: u64) -> (r:
    SnapshotData)
    requires
        runtime.wf(),
    ensures
        r.timestamp_ms == now_ms,
        ordered(r.interfaces@),
        overview_views(r.interfaces@).to_multiset() == recovered_ifaces(
            runtime.cumulative_iface.entries@,
            topology@,
        ).to_multiset(),
        rows_ordered(r.devices@),
        device_views(r.devices@).to_multiset() == recovered_devices(
            runtime.device_registry.entries.entries@,
            runtime.cumulative_device@,
        ).to_multiset(),
{
    let mut interfaces: Vec<InterfaceOverviewItem> = Vec::new();
    let es = &runtime.cumulative_iface.entries;
    let mut i: usize = 0;
    assert(es@.take(0) =~= Seq::empty());
    assert(overview_views(interfaces@) =~= Seq::empty());
    while i < es.len()
        invariant
            i <= es@.len(),
            overview_views(interfaces@) == recovered_ifaces(es@.take(i as int), topology@),
        decreases es@.len() - i,
    {
        assert(es@.take(i + 1).drop_last() =~= es@.take(i as int));
        if let Some(x) = topology.by_ifindex(es[i].0) {
            let ghost before = overview_views(interfaces@);
            let row = InterfaceOverviewItem {
                ifindex: es[i].0,
                ifname: x.name.clone(),
                zone: x.zone.clone(),
                metrics: CounterQuad::default(),
                cumulative: es[i].1,
            };
            let ghost rv = row@;
            interfaces.push(row);
            assert(overview_views(interfaces@) =~= before.push(rv));
        }
        i += 1;
    }
    assert(es@.take(i as int) =~= es@);
    let ghost ifaces = interfaces@;
    let interfaces = arrange(interfaces);
    proof {
        law_arranged_is_ordered(ifaces);
        lemma_same_mapped(interfaces@, ifaces, |x: InterfaceOverviewItem| x@);
        assert(interfaces@.map_values(|x: InterfaceOverviewItem| x@) =~= overview_views(interfaces@));
        assert(ifaces.map_values(|x: InterfaceOverviewItem| x@) =~= overview_views(ifaces));
    }
    let mut devices: Vec<DeviceListItem> = Vec::new();
    let ds = &runtime.device_registry.entries.entries;
    let ghost all = recovered_devices(ds@, runtime.cumulative_device@);
    let mut i: usize = 0;
    assert(device_views(devices@) =~= all.take(0));
    while i < ds.len()
        invariant
            i <= ds@.len(),
            runtime.wf(),
            all == recovered_devices(ds@, runtime.cumulative_device@),
            device_views(devices@) == all.take(i as int),
        decreases ds@.len() - i,
    {
        let key = &ds[i].0;
        let total = total_of(&runtime.cumulative_device, key);
        let row = make_offline_row(&ds[i].1, &key.1, key.0, total);
        let ghost before = device_views(devices@);
        let ghost rv = row@;
        devices.push(row);
        assert(device_views(devices@) =~= before.push(rv));
        assert(all.take(i + 1) =~= all.take(i as int).push(all[i as int]));
        i += 1;
    }
    assert(all.take(i as int) =~= all);
    SnapshotData { timestamp_ms: now_ms, interfaces, devices: arrange_rows(devices) }
}

/// The milliseconds of a day.
pub const DAY_MS: u64 = 86_400_000;

/// Whether a device was not seen for so many days; for no days, no device counts as
/// gone.
pub open spec fn is_gone(d: KnownDevice, now_ms: u64, days: u32) -> bool {
    days > 0 && now_ms - d.last_seen_ms >= days * DAY_MS
}

/// The devices that were not seen for so many days.
pub open spec fn gone_keys(
    entries: Seq<((u32, [u8; 6]), KnownDevice)>,
    now_ms: u64,
    days: u32,
) -> Seq<(u32, [u8; 6])>
    decreases entries.len(),
{
    if entries.len() == 0 {
        Seq::empty()
    } else {
        let before = gone_keys(entries.drop_last(), now_ms, days);
        if is_gone(entries.last().1, now_ms, days) {
            before.push(entries.last().0)
        } else {
            before
        }
    }
}

/// Lists the devices that were not seen for so many days.
pub fn gone_devices(registry: &DeviceRegistry, now_ms: u64, days: u32) -> (r: Vec<(u32, [u8; 6])>)
    ensures
        r@ == gone_keys(registry.entries.entries@, now_ms, days),
{
    let ghost es = registry.entries.entries@;
    let mut r: Vec<(u32, [u8; 6])> = Vec::new();
    let limit: u64 = days as u64 * DAY_MS;
    let mut i: usize = 0;
    assert(es.take(0) =~= Seq::empty());
    while i < registry.entries.entries.len()
        invariant
            i <= registry.entries.entries@.len(),
            es == registry.entries.entries@,
            limit == days * DAY_MS,
            r@ == gone_keys(es.take(i as int), now_ms, days),
        decreases registry.entries.entries@.len() - i,
    {
        assert(es.take(i + 1).drop_last() =~= es.take(i as int));
        let e = &registry.entries.entries[i];
        if days > 0 && now_ms.saturating_sub(e.1.last_seen_ms) >= limit {
            r.push(e.0);
        }
        i += 1;
    }
    assert(es.take(i as int) =~= es);
    r
}

} // verus!

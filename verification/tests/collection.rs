use bandix_plus::bucket::CounterQuad;
use bandix_plus::collect::{
    device_tracking, interface_deltas, interface_rate_jobs, interface_rows, refresh_due,
    set_interface_rates, watched_interfaces, Rates,
};
use bandix_plus::deviceset::DeviceSet;
use bandix_plus::keys::{DeviceTrafficKey, EcmTrafficKey, InterfaceTrafficKey, TrafficValue};
use bandix_plus::monitor::{
    collect_snapshot, count_traffic, draft_snapshot, subnet_map, RawRates, Readings, SmoothRates,
};
use bandix_plus::offload::{
    attribute_flows, count_flows, fade_jobs, fade_rates, first_of_zone, inject_flows,
    lan_rate_jobs, set_lan_rates, set_wan_rates, sum_per_cpu, wan_rate_job, Amounts,
};
use bandix_plus::persistence::PersistError;
use bandix_plus::persistence::PersistenceManager;
use bandix_plus::rows::{
    add_device_totals, device_deltas, device_rate_jobs, fill_devices, group_neighbors,
    list_devices, online_devices, remember_devices, set_device_rates,
};
use bandix_plus::runtime::{
    gone_devices, DAY_MS,
    build_recovered_snapshot, export_runtime_state, import_runtime_state, KnownDevice,
    MonitorRuntime,
};
use bandix_plus::snapshot::DeviceListItem;
use bandix_plus::system::FilteredNeighborEntry;
use bandix_plus::table::Table;
use bandix_plus::topology::{Interface, InterfaceRole, TopologySnapshot};

const MAC: [u8; 6] = [2, 0, 0, 0, 0, 0x11];

fn interface(ifindex: u32, name: &str, zone: &str, cidr: &str) -> Interface {
    Interface {
        ifindex,
        name: name.into(),
        role: InterfaceRole::Bridge,
        zone: zone.into(),
        parent_ifindex: None,
        ipv4_cidrs: vec![cidr.into()],
        ipv6_cidrs: vec![],
    }
}

fn topology() -> TopologySnapshot {
    TopologySnapshot::from_interfaces(vec![
        interface(1, "br-lan", "lan", "10.0.0.1/24"),
        interface(2, "wan", "wan", "198.51.100.7/24"),
    ])
}

fn value(bytes: u64) -> TrafficValue {
    TrafficValue { packets: 1, bytes }
}

fn neighbor(ip: &str, state: &str) -> FilteredNeighborEntry {
    FilteredNeighborEntry {
        dev: "br-lan".into(),
        mac: MAC,
        ip: ip.into(),
        state: state.into(),
    }
}

fn online(names: &Table<[u8; 6], String>) -> Table<(u32, [u8; 6]), DeviceListItem> {
    let groups = group_neighbors(&vec![neighbor("10.0.0.5", "STALE"), neighbor("10.0.0.6", "REACHABLE")]);
    assert_eq!(groups.len(), 1);
    online_devices(&groups, &topology(), &vec!["br-lan".into()], &Table::new(), names, 1000)
}

#[test]
fn interfaces_are_counted_between_snapshots() {
    let topo = topology();
    let watched = watched_interfaces(&vec!["br-lan".into()], &topo);
    assert_eq!(watched.len(), 1);
    assert_eq!((watched[0].0, watched[0].1.as_str()), (1, "br-lan"));
    let key = InterfaceTrafficKey { ifindex: 1, ip_version: 4, direction: 1, _pad: [0, 0] };
    let mut stats = Table::new();
    stats.insert(key, value(100));
    let mut prev = Table::new();
    prev.insert(key, 40u64);
    let deltas = interface_deltas(&watched, &stats, &mut prev);
    assert_eq!(deltas.len(), 1);
    assert_eq!((deltas[0].direction, deltas[0].bytes), (1, 60));
    assert_eq!(prev.get(&key), Some(&100));
    let mut totals = Table::new();
    let mut rows = interface_rows(&watched, &deltas, &vec![480], &topo, &mut totals);
    assert_eq!((rows[0].ifname.as_str(), rows[0].zone.as_str()), ("br-lan", "lan"));
    let moved = rows[0].metrics.up_v4_bytes + rows[0].metrics.down_v4_bytes;
    assert_eq!(moved, 60);
    assert_eq!(totals.get(&1).unwrap().up_v4_bytes + totals.get(&1).unwrap().down_v4_bytes, 60);
    let mut smoothed = Table::new();
    let jobs = interface_rate_jobs(&rows, &smoothed);
    assert_eq!(jobs.len(), 1);
    let rates = Rates { up_v4: 1, down_v4: 2, up_v6: 3, down_v6: 4 };
    set_interface_rates(&mut rows, &mut smoothed, &vec![rates]);
    assert_eq!(rows[0].metrics.down_v6_bps, 4);
    assert_eq!(smoothed.get(&1).unwrap().up_v6_bps, 3);
}

#[test]
fn snapshots_know_the_time_between_them() {
    let mut runtime = MonitorRuntime::new();
    assert_eq!(runtime.start_snapshot(1000, true), None);
    assert_eq!(runtime.start_snapshot(3500, true), Some(2500));
    assert!(refresh_due(600_000_000, 0));
    assert!(!refresh_due(10, 9));
    let marks = device_tracking(&topology(), &vec!["br-lan".into()]);
    assert!(marks.contains(&(1, 1)));
}

#[test]
fn devices_are_shown_online_and_offline() {
    let mut names = Table::new();
    names.insert(MAC, "phone".to_string());
    let mut rows = online(&names);
    assert_eq!(rows.len(), 1);
    let row = rows.get(&(1, MAC)).unwrap();
    assert_eq!((row.hostname.as_str(), row.neighbor_state.as_deref()), ("phone", Some("REACHABLE")));
    assert_eq!(row.ipv4, vec!["10.0.0.5", "10.0.0.6"]);
    let key = DeviceTrafficKey { ifindex: 1, mac: MAC, ip_version: 6, direction: 2 };
    let mut stats = Table::new();
    stats.insert(key, value(70));
    let mut prev = Table::new();
    prev.insert(key, 50u64);
    let counted = device_deltas(&rows, &stats, &mut prev);
    assert_eq!((counted.len(), counted[0].1), (1, 20));
    fill_devices(&mut rows, &counted, &vec![160]);
    let mut totals = Table::new();
    add_device_totals(&mut rows, &mut totals);
    let shown = rows.get(&(1, MAC)).unwrap().cumulative;
    assert_eq!(shown.up_v6_bytes + shown.down_v6_bytes, 20);
    let mut smoothed = Table::new();
    let jobs = device_rate_jobs(&rows, &smoothed);
    assert_eq!(jobs.len(), 1);
    let shares = attribute_flows(rows, false, &vec![], &vec![], &topology(), &Table::new(), 1000);
    let mut rows = shares.rows;
    set_device_rates(&mut rows, &mut smoothed, &shares.devices, &vec![Rates { up_v4: 9, down_v4: 9, up_v6: 9, down_v6: 9 }]);
    assert_eq!(smoothed.len(), 1);
    let mut registry = Table::new();
    remember_devices(&rows, &mut registry, 1000);
    assert_eq!(registry.get(&(1, MAC)).unwrap().hostname, "phone");
    let listed = list_devices(&Table::new(), &registry, &topology(), &vec![], &totals);
    assert_eq!(listed.len(), 1);
    assert!(!listed[0].online);
    assert_eq!(list_devices(&rows, &registry, &topology(), &vec![], &totals).len(), 1);
}

fn flow_key(ip: u32, direction: u8) -> EcmTrafficKey {
    EcmTrafficKey { ip: [ip, 0, 0, 0], ip_version: 4, direction, pad: [0, 0] }
}

#[test]
fn offloaded_flows_count_from_their_second_sight() {
    let mut stats = Table::new();
    stats.insert(flow_key(0x0a000005, 1), value(500));
    let mut prev = Table::new();
    let mut active = Table::new();
    let first = count_flows(&stats, &mut prev, &mut active, 1000);
    assert!(first.counted.is_empty());
    stats.insert(flow_key(0x0a000005, 1), value(800));
    let second = count_flows(&stats, &mut prev, &mut active, 2000);
    assert_eq!(second.counted.len(), 1);
    assert_eq!(second.counted[0].1, 300);
    let later = count_flows(&stats, &mut prev, &mut active, 2000 + 3_600_000);
    assert_eq!(later.idle.len(), 1);
    assert_eq!(sum_per_cpu(&vec![value(3), value(4)]), TrafficValue { packets: 2, bytes: 7 });
}

#[test]
fn offloaded_flows_belong_to_their_devices() {
    let counted = vec![(flow_key(0x0a000005, 1), 300u64), (flow_key(0xcb007109, 1), 50u64)];
    let rows = online(&Table::new());
    let shares = attribute_flows(rows, true, &counted, &vec![2400, 400], &topology(), &Table::new(), 1000);
    let quad = shares.rows.get(&(1, MAC)).unwrap().metrics;
    assert_eq!(quad.up_v4_bytes + quad.down_v4_bytes, 300);
    let lan = shares.lan.get(&1).unwrap();
    assert_eq!(lan.up_v4_bytes + lan.down_v4_bytes, 300);
    assert_eq!(shares.wan.up_v4_bytes + shares.wan.down_v4_bytes, 50);
    assert_eq!(first_of_zone(&topology(), "wan"), Some((2, "wan".to_string())));
    assert_eq!(first_of_zone(&topology(), "dmz"), None);
}

#[test]
fn offloaded_rates_reach_the_interfaces() {
    let mut lan: Table<u32, CounterQuad> = Table::new();
    lan.insert(1, CounterQuad { up_v4_bytes: 10, up_v4_bps: 80, ..CounterQuad::default() });
    let mut smoothed: Table<u32, CounterQuad> = Table::new();
    smoothed.insert(3, CounterQuad { up_v4_bps: 1000, ..CounterQuad::default() });
    assert_eq!(fade_jobs(&smoothed).len(), 1);
    let faded = Rates { up_v4: 600, down_v4: 0, up_v6: 0, down_v6: 0 };
    let mut shown = fade_rates(&mut smoothed, &lan, &vec![faded]);
    let jobs = lan_rate_jobs(&lan, &smoothed);
    assert_eq!(jobs.len(), 1);
    let now = Rates { up_v4: 40, down_v4: 0, up_v6: 0, down_v6: 0 };
    set_lan_rates(&lan, &vec![now], &mut smoothed, &mut shown);
    assert_eq!(smoothed.get(&1).unwrap().up_v4_bps, 40);
    let wan = CounterQuad { down_v4_bytes: 5, down_v4_bps: 40, ..CounterQuad::default() };
    let mut smoothed_wan = None;
    assert_eq!(wan_rate_job(&smoothed_wan, &wan).before, Rates { up_v4: 0, down_v4: 0, up_v6: 0, down_v6: 0 });
    let wan_shown = set_wan_rates(&mut smoothed_wan, &wan, &Rates { up_v4: 0, down_v4: 20, up_v6: 0, down_v6: 0 });
    assert_eq!(wan_shown.down_v4_bps, 20);
    let amounts = Amounts {
        lan_shown: shown,
        lan,
        wan_shown,
        wan,
        unresolved: CounterQuad::default(),
    };
    let mut rows = vec![];
    let mut totals = Table::new();
    inject_flows(&mut rows, &mut totals, &topology(), &amounts, &Table::new());
    assert!(rows.iter().any(|r| r.ifname == "wan" && r.metrics.down_v4_bytes == 5));
}

fn known(last_seen_ms: u64) -> KnownDevice {
    KnownDevice {
        ifindex: 1,
        mac: MAC,
        ipv4: vec!["10.0.0.5".into()],
        ipv6: vec![],
        hostname: "phone".into(),
        logical_iface: "br-lan".into(),
        subnet: "10.0.0.1/24".into(),
        last_seen_ms,
    }
}

#[test]
fn known_devices_survive_a_restart() {
    let mut runtime = MonitorRuntime::new();
    runtime.device_registry.entries.insert((1, MAC), known(5));
    let state = export_runtime_state(&runtime, &topology());
    assert_eq!(state.known_devices[0].mac, "02:00:00:00:00:11");
    let mut again = MonitorRuntime::new();
    import_runtime_state(&mut again, &state, &topology());
    assert_eq!(again.device_registry.entries.get(&(1, MAC)).unwrap().hostname, "phone");
    let snapshot = build_recovered_snapshot(&again, &topology(), 99);
    assert_eq!((snapshot.timestamp_ms, snapshot.devices.len()), (99, 1));
    let manager = PersistenceManager::new("/data", 1).unwrap();
    let (version, kept) = manager.save_monitor_runtime(&runtime, &topology());
    let mut third = MonitorRuntime::new();
    assert_eq!(manager.load_monitor_runtime(version, &kept, &mut third, &topology()), Ok(()));
    assert_eq!(third.device_registry.entries.len(), 1);
    assert_eq!(
        manager.load_monitor_runtime(77, &kept, &mut third, &topology()),
        Err(PersistError::Schema(77))
    );
    assert!(third.remove_device(1, MAC));
    assert!(!third.remove_device(1, MAC));
}

const ARP: &str = "IP address HW type Flags HW address Mask Device\n\
                   10.0.0.5 0x1 0x2 02:00:00:00:00:11 * br-lan\n";

fn no_rates() -> Rates {
    Rates { up_v4: 0, down_v4: 0, up_v6: 0, down_v6: 0 }
}

fn snapshot_of(
    runtime: &mut MonitorRuntime,
    bytes: u64,
    enable_ecm: bool,
    now_ms: u64,
) -> bandix_plus::snapshot::SnapshotData {
    let topo = topology();
    let watched: Vec<String> = vec!["br-lan".into()];
    let mut readings = Readings {
        ifaces: Table::new(),
        devices: Table::new(),
        flows: Table::new(),
        arp: Some(ARP),
        neigh: None,
    };
    readings.ifaces.insert(
        InterfaceTrafficKey { ifindex: 1, ip_version: 4, direction: 2, _pad: [0, 0] },
        value(bytes),
    );
    readings.devices.insert(
        DeviceTrafficKey { ifindex: 1, mac: MAC, ip_version: 4, direction: 2 },
        value(bytes),
    );
    if enable_ecm {
        readings.flows.insert(flow_key(0xcb007109, 1), value(bytes));
        readings.flows.insert(flow_key(0x0a000005, 1), value(bytes));
    }
    runtime.start_snapshot(now_ms, enable_ecm);
    let counts = count_traffic(runtime, &topo, &watched, &readings, now_ms);
    let raw = RawRates {
        ifaces: counts.ifaces.iter().map(|d| d.bytes * 8).collect(),
        devices: counts.devices.iter().map(|d| d.1 * 8).collect(),
        flows: counts.flows.iter().map(|d| d.1 * 8).collect(),
    };
    let draft = draft_snapshot(runtime, &topo, counts, &raw, now_ms);
    let smooth = SmoothRates {
        ifaces: draft.jobs.ifaces.iter().map(|j| j.now.unwrap()).collect(),
        devices: draft.jobs.devices.iter().map(|j| j.now.unwrap()).collect(),
        fades: draft.jobs.fades.iter().map(|_| no_rates()).collect(),
        lan: draft.jobs.lan.iter().map(|j| j.now.unwrap()).collect(),
        wan: draft.jobs.wan.now.unwrap_or(no_rates()),
    };
    collect_snapshot(runtime, &topo, &watched, draft, &smooth, enable_ecm, now_ms)
}

#[test]
fn a_snapshot_tells_all_traffic() {
    let mut runtime = MonitorRuntime::new();
    let first = snapshot_of(&mut runtime, 1000, false, 5000);
    assert_eq!((first.timestamp_ms, first.interfaces.len(), first.devices.len()), (5000, 1, 1));
    let second = snapshot_of(&mut runtime, 1600, false, 6000);
    let iface = &second.interfaces[0];
    assert_eq!((iface.metrics.down_v4_bytes, iface.metrics.down_v4_bps), (600, 4800));
    assert_eq!(iface.cumulative.down_v4_bytes, 1600);
    let device = &second.devices[0];
    assert!(device.online);
    assert_eq!((device.metrics.down_v4_bytes, device.cumulative.down_v4_bytes), (600, 1600));
    let reset = snapshot_of(&mut runtime, 50, false, 7000);
    assert_eq!(reset.devices[0].metrics.down_v4_bytes, 50);
    assert_eq!(reset.devices[0].cumulative.down_v4_bytes, 1650);
}

#[test]
fn a_snapshot_tells_offloaded_traffic() {
    let mut runtime = MonitorRuntime::new();
    snapshot_of(&mut runtime, 1000, true, 5000);
    let second = snapshot_of(&mut runtime, 1600, true, 6000);
    let names: Vec<&str> = second.interfaces.iter().map(|i| i.ifname.as_str()).collect();
    assert_eq!(names, vec!["br-lan", "wan"]);
    let moved = |q: &CounterQuad| (q.up_v4_bytes + q.down_v4_bytes, q.up_v4_bps + q.down_v4_bps);
    assert_eq!(moved(&second.interfaces[0].metrics), (1200, 9600));
    assert_eq!(moved(&second.interfaces[1].metrics), (600, 4800));
    let of = |mac: &str| second.devices.iter().find(|d| d.mac == mac).unwrap();
    assert_eq!(moved(&of("02:00:00:00:00:11").metrics).0, 1200);
    let inert = snapshot_of(&mut runtime, 2000, false, 7000);
    assert_eq!(inert.interfaces.len(), 1);
    assert!(runtime.prev_ecm_bytes.is_empty());
    assert!(runtime.smoothed_wan_ecm_rates.is_none());
}

#[test]
fn subnets_are_listed_by_name() {
    let map = subnet_map(&topology());
    assert_eq!(map.get(&"wan".to_string()), Some(&vec!["198.51.100.7/24".to_string()]));
}

#[test]
fn a_set_of_devices_is_part_of_the_runtime() {
    let runtime = MonitorRuntime::new();
    let _: &DeviceSet = &runtime.ecm_active_devices;
    assert!(runtime.device_registry.entries.is_empty());
}

#[test]
fn devices_unseen_for_days_are_gone() {
    let mut runtime = MonitorRuntime::new();
    runtime.device_registry.entries.insert((1, MAC), known(1_000));
    let other = [2, 0, 0, 0, 0, 0x12];
    runtime.device_registry.entries.insert((1, other), known(2_000));
    let registry = &runtime.device_registry;
    assert_eq!(gone_devices(registry, 1_000 + 7 * DAY_MS, 7), vec![(1, MAC)]);
    assert_eq!(gone_devices(registry, 999 + 7 * DAY_MS, 7), vec![]);
    assert_eq!(gone_devices(registry, 2_000 + 7 * DAY_MS, 7), vec![(1, MAC), (1, other)]);
    assert_eq!(gone_devices(registry, u64::MAX, 0), vec![]);
    assert_eq!(gone_devices(registry, 0, 1), vec![]);
}

#[test]
fn a_removed_device_has_no_offloaded_traffic() {
    let mut runtime = MonitorRuntime::new();
    snapshot_of(&mut runtime, 1000, true, 5000);
    snapshot_of(&mut runtime, 1600, true, 6000);
    let rates = vec![Rates { up_v4: 9, down_v4: 9, up_v6: 9, down_v6: 9 }];
    let shown = |runtime: &MonitorRuntime| {
        let mut rows = online(&Table::new());
        set_device_rates(&mut rows, &mut Table::new(), &runtime.ecm_active_devices, &rates);
        rows.get(&(1, MAC)).unwrap().metrics.up_v4_bps
    };
    assert_eq!(shown(&runtime), 9);
    assert!(!runtime.remove_device(2, MAC));
    assert_eq!(shown(&runtime), 9);
    assert!(runtime.remove_device(1, MAC));
    assert_eq!(shown(&runtime), 0);
    assert!(!runtime.remove_device(1, MAC));
}

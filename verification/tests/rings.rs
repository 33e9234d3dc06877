use bandix_plus::bucket::AggregatedBucket;
use bandix_plus::history::HistogramHistory;
use bandix_plus::snapshot::DeviceSeriesKey;
use bandix_plus::persistence::{
    decode_component, encode_component, mac_hex_to_colon, normalize_mac_hex, quarantine_name,
    PersistError, PersistenceManager, PersistedCurrentHourIface, PersistedCurrentHourState,
    CURRENT_HOUR_SCHEMA_VERSION,
};
use bandix_plus::ring::{
    checksum32, decode_ring_record, default_ring_header, encode_ring_record, read_ring_header, write_ring_header, RingError, RingHeader,
    RING_HEADER_SIZE, RING_RECORD_SIZE, RING_V1_RECORD_SIZE, RING_VERSION,
};
use bandix_plus::ringfile::{open_or_create_ring, read_ring_records, ring_size_bounds, RingOpen};
use bandix_plus::store::{FileStep, RingUpdate, StoreError, StoredFile};
use bandix_plus::topology::{Interface, InterfaceRole, TopologySnapshot};

const RING_SLOT_COUNT: u32 = 30 * 24;

/// A file, and whether one was put aside before.
#[derive(Default)]
struct Disk {
    file: Option<Vec<u8>>,
    aside: Vec<Vec<u8>>,
}

impl Disk {
    fn open(&mut self, slots: u32) -> RingHeader {
        match open_or_create_ring(self.file.as_deref(), slots).unwrap() {
            RingOpen::Create(image) => self.file = Some(image),
            RingOpen::Replace(image) => {
                self.aside.push(self.file.take().unwrap());
                self.file = Some(image);
            }
            RingOpen::Migrate { quarantine, image } => {
                if quarantine {
                    self.aside.push(self.file.take().unwrap());
                }
                self.file = Some(image);
            }
            RingOpen::Ready(_) => {}
        }
        read_ring_header(self.file.as_deref().unwrap()).unwrap()
    }

    fn write(&mut self, offset: usize, bytes: &[u8]) {
        let file = self.file.as_mut().unwrap();
        if file.len() < offset + bytes.len() {
            file.resize(offset + bytes.len(), 0);
        }
        file[offset..offset + bytes.len()].copy_from_slice(bytes);
    }

    fn append(&mut self, bucket: &AggregatedBucket, slots: u32) {
        let header = self.open(slots);
        let append = bandix_plus::ringfile::append_ring_record(&header, bucket);
        self.write(append.offset as usize, &append.record);
        self.write(0, &append.header);
    }

    fn apply(&mut self, update: RingUpdate) {
        match update.open {
            RingOpen::Create(image) => self.file = Some(image),
            RingOpen::Ready(_) => {}
            _ => panic!("the file is a ring"),
        }
        self.write(update.append.offset as usize, &update.append.record);
        self.write(0, &update.append.header);
    }

    fn records(&mut self) -> Vec<AggregatedBucket> {
        match read_ring_records(self.file.as_deref().unwrap()) {
            Some(records) => records,
            None => {
                self.aside.push(self.file.take().unwrap());
                Vec::new()
            }
        }
    }

    fn starts(&mut self) -> Vec<u64> {
        self.records().iter().map(|b| b.start_ts_ms).collect()
    }

    fn len(&self) -> u64 {
        self.file.as_ref().unwrap().len() as u64
    }
}

// The v1 wire layout: timestamps, four byte totals, then avg/max/min/p95
// for each direction. Keep this fixture independent of the v2 encoder.
fn v1_ring(slots: u32, write_pos: u32, starts: &[u64], preallocate: bool) -> Vec<u8> {
    let header = RingHeader {
        version: 1,
        slot_count: slots,
        write_pos,
        valid_count: starts.len() as u32,
        record_size: RING_V1_RECORD_SIZE as u32,
    };
    let mut file = write_ring_header(&header);
    for start in starts {
        let mut bytes = Vec::new();
        for value in [
            *start,
            *start + 3_599_999,
            1,
            2,
            3,
            4,
            5,
            6,
            7,
            8,
            9,
            10,
            11,
            12,
            13,
            14,
            15,
            16,
            17,
            18,
            19,
            20,
        ] {
            bytes.extend_from_slice(&value.to_le_bytes());
        }
        bytes.extend_from_slice(&checksum32(&bytes).to_le_bytes());
        file.extend_from_slice(&bytes);
    }
    if preallocate {
        file.resize(ring_size_bounds(&RingHeader { valid_count: slots, write_pos: 0, ..header }).unwrap().1 as usize, 0);
    }
    file
}

fn sample_bucket(start: u64) -> AggregatedBucket {
    AggregatedBucket {
        start_ts_ms: start,
        end_ts_ms: start + 3_599_999,
        up_v4_bytes: 1,
        down_v4_bytes: 2,
        up_v6_bytes: 3,
        down_v6_bytes: 4,
        up_v4_bps_avg: 5,
        up_v4_bps_max: 6,
        up_v4_bps_min: 7,
        up_v4_bps_p95: 8,
        down_v4_bps_avg: 9,
        down_v4_bps_max: 10,
        down_v4_bps_min: 11,
        down_v4_bps_p95: 12,
        up_v6_bps_avg: 13,
        up_v6_bps_max: 14,
        up_v6_bps_min: 15,
        up_v6_bps_p95: 16,
        down_v6_bps_avg: 17,
        down_v6_bps_max: 18,
        down_v6_bps_min: 19,
        down_v6_bps_p95: 20,
        ..Default::default()
    }
}

#[test]
fn ring_resize_preserves_recent_records_and_grows_on_demand() {
    let mut disk = Disk::default();
    for start in 0..7 {
        disk.append(&sample_bucket(start), 4);
    }
    disk.open(2);
    assert_eq!(disk.starts(), vec![5, 6]);
    assert_eq!(disk.len(), (RING_HEADER_SIZE + 2 * RING_RECORD_SIZE) as u64);
    disk.open(8);
    assert_eq!(disk.starts(), vec![5, 6]);
    assert_eq!(disk.len(), (RING_HEADER_SIZE + 2 * RING_RECORD_SIZE) as u64);
    disk.append(&sample_bucket(7), 8);
    assert_eq!(disk.starts(), vec![5, 6, 7]);
    let manager = PersistenceManager::new("/data/manager", 2).unwrap();
    let mut iface = Disk::default();
    iface.apply(manager.append_iface_bucket("br-lan", &sample_bucket(0), None).unwrap());
    let mut device = Disk::default();
    device.apply(
        manager
            .append_device_bucket("br-lan", "02:00:00:00:00:01", &sample_bucket(0), None)
            .unwrap(),
    );
    for disk in [iface, device] {
        assert_eq!(read_ring_header(disk.file.as_deref().unwrap()).unwrap().slot_count, 48);
    }
    assert!(PersistenceManager::new("/data/invalid", 0).is_err());
}

#[test]
fn legacy_rings_read_and_migrate_without_losing_history() {
    for (starts, write_pos, preallocate, expected) in [
        (vec![10, 20], 2, false, vec![10, 20, 40]),
        (vec![10, 20], 2, true, vec![10, 20, 40]),
        (vec![30, 10, 20], 1, false, vec![20, 30, 40]),
        (vec![], 0, false, vec![40]),
    ] {
        let mut disk = Disk {
            file: Some(v1_ring(3, write_pos, &starts, preallocate)),
            aside: vec![],
        };
        let before = disk.records();
        for bucket in &before {
            assert_eq!(bucket.up_v4_bytes, 1);
            assert_eq!(bucket.down_v4_bytes, 2);
            assert_eq!(bucket.up_v6_bytes, 3);
            assert_eq!(bucket.down_v6_bytes, 4);
            assert_eq!(bucket.up_v4_bps_avg, 5);
            assert_eq!(bucket.down_v4_bps_avg, 9);
            assert_eq!(bucket.up_v6_bps_avg, 13);
            assert_eq!(bucket.down_v6_bps_avg, 17);
            assert_eq!(bucket.clone().finalize().up_v4_bps_avg, 5);
        }
        let mut histogram = HistogramHistory::with_capacity_hours(30 * 24);
        for bucket in &before {
            histogram.restore_iface_bucket(1, bucket.clone());
        }
        if !before.is_empty() {
            assert_eq!(
                histogram.cumulative_from_completed().0.get(&1).unwrap().down_v6_bytes,
                4 * before.len() as u64
            );
        }
        disk.append(&sample_bucket(40), 3);
        let after = disk.records();
        assert_eq!(after.iter().map(|b| b.start_ts_ms).collect::<Vec<_>>(), expected);
        for bucket in after.iter().filter(|b| b.start_ts_ms != 40) {
            let original = before.iter().find(|b| b.start_ts_ms == bucket.start_ts_ms).unwrap();
            assert_eq!(bucket, original);
        }
        assert_eq!(read_ring_header(disk.file.as_deref().unwrap()).unwrap().version, RING_VERSION);
        assert!(disk.aside.is_empty());
    }
}

#[test]
fn corrupt_legacy_record_is_still_quarantined() {
    let mut bytes = v1_ring(3, 1, &[10], false);
    bytes[RING_HEADER_SIZE] ^= 1;
    let mut disk = Disk {
        file: Some(bytes.clone()),
        aside: vec![],
    };
    assert!(disk.records().is_empty());
    assert!(disk.file.is_none());
    assert_eq!(disk.aside, vec![bytes]);
}

#[test]
fn ring_wrap_keeps_recent_records() {
    let mut disk = Disk::default();
    for i in 0..(RING_SLOT_COUNT as usize + 10) {
        disk.append(&sample_bucket(i as u64), RING_SLOT_COUNT);
    }

    let records = disk.records();
    assert_eq!(records.len(), RING_SLOT_COUNT as usize);
    assert_eq!(records.first().unwrap().start_ts_ms, 10);
    assert_eq!(
        records.last().unwrap().start_ts_ms,
        (RING_SLOT_COUNT as usize + 9) as u64
    );
}

#[test]
fn ring_grows_on_demand_instead_of_preallocating_full_size() {
    let mut disk = Disk::default();
    disk.append(&sample_bucket(1), RING_SLOT_COUNT);

    let size_after_one = disk.len();
    assert_eq!(size_after_one, (RING_HEADER_SIZE + RING_RECORD_SIZE) as u64);
    assert!(size_after_one < ring_size_bounds(&default_ring_header(RING_SLOT_COUNT)).unwrap().1);

    disk.append(&sample_bucket(2), RING_SLOT_COUNT);
    assert_eq!(disk.len(), (RING_HEADER_SIZE + 2 * RING_RECORD_SIZE) as u64);
}

#[test]
fn broken_headers_are_told_apart() {
    let good = write_ring_header(&default_ring_header(4));
    assert_eq!(read_ring_header(&good[..10]), Err(RingError::Short));
    let mut magic = good.clone();
    magic[0] ^= 1;
    assert_eq!(read_ring_header(&magic), Err(RingError::Magic));
    let mut version = good.clone();
    version[8] = 9;
    assert_eq!(read_ring_header(&version), Err(RingError::Version(9)));
    let mut sum = good.clone();
    sum[12] ^= 1;
    assert_eq!(read_ring_header(&sum), Err(RingError::HeaderChecksum));
    assert!(matches!(open_or_create_ring(Some(&magic), 4), Ok(RingOpen::Replace(_))));
    assert!(matches!(open_or_create_ring(None, 0), Err(RingError::Capacity)));
    let shape = RingHeader { valid_count: 1, write_pos: 2, ..default_ring_header(4) };
    assert!(matches!(ring_size_bounds(&shape), Err(RingError::Shape { write_pos: 2, valid_count: 1 })));
}

#[test]
fn names_of_files_are_read_back() {
    for name in ["br-lan", "wlan0.1", "\u{fc}ber"] {
        assert_eq!(decode_component(&encode_component(name)).as_deref(), Some(name));
    }
    assert_eq!(encode_component("br"), "6272");
    assert_eq!(decode_component("62zz"), None);
    assert_eq!(decode_component("ff"), None);
    assert_eq!(normalize_mac_hex("AA:bb:CC:dd:EE:ff").as_deref(), Some("aabbccddeeff"));
    assert_eq!(normalize_mac_hex("aa:bb"), None);
    assert_eq!(mac_hex_to_colon("aabbccddeeff").as_deref(), Some("aa:bb:cc:dd:ee:ff"));
    assert_eq!(quarantine_name("x.ring", 7), "x.ring.bad.7");
    let manager = PersistenceManager::new("/data", 1).unwrap();
    assert_eq!(manager.iface_ring_path("br"), "/data/traffic/iface/6272.ring");
    assert_eq!(
        manager.device_ring_path("br", "02:00:00:00:00:01").unwrap(),
        "/data/traffic/device/6272-020000000001.ring"
    );
    assert_eq!(manager.device_ring_path("br", "02"), Err(PersistError::Mac));
    assert_eq!(
        manager.append_device_bucket("br", "02", &sample_bucket(0), None).err(),
        Some(StoreError::Mac)
    );
}

fn topology() -> TopologySnapshot {
    TopologySnapshot::from_interfaces(vec![Interface {
        ifindex: 4,
        name: "br".into(),
        role: InterfaceRole::Bridge,
        zone: "lan".into(),
        parent_ifindex: None,
        ipv4_cidrs: vec![],
        ipv6_cidrs: vec![],
    }])
}

#[test]
fn stored_hours_are_taken_over() {
    let manager = PersistenceManager::new("/data", 1).unwrap();
    let mut disk = Disk::default();
    for start in 0..3 {
        disk.append(&sample_bucket(start), 24);
    }
    let image = disk.file.clone().unwrap();
    let mut small = Disk::default();
    small.append(&sample_bucket(9), 4);
    let file = |name: &str, bytes: &Vec<u8>| StoredFile { name: name.into(), bytes: bytes.clone() };
    let mut broken = image.clone();
    broken[RING_HEADER_SIZE] ^= 1;
    let ifaces = vec![
        file("6272.ring", &image),
        file("6272.txt", &image),
        file("zz.ring", &image),
        file("61.ring", &image),
    ];
    let devices = vec![
        file("6272-020000000001.ring", small.file.as_ref().unwrap()),
        file("6272-020000000002.ring", &broken),
        file("6272-020000000003.ring", &vec![1, 2, 3]),
    ];
    let mut histogram = HistogramHistory::with_capacity_hours(24);
    let (first, second) = manager.load_histogram(&topology(), &mut histogram, &ifaces, &devices);
    assert!(matches!(
        first.steps.as_slice(),
        [FileStep::Keep, FileStep::Skip, FileStep::Quarantine, FileStep::Skip]
    ));
    let second = second.unwrap();
    assert!(first.failed.is_none() && second.failed.is_none());
    assert!(matches!(second.steps[0], FileStep::Rewrite { quarantine: false, .. }));
    assert!(matches!(second.steps[1], FileStep::Quarantine));
    assert!(matches!(second.steps[2], FileStep::Rewrite { quarantine: true, .. }));
    let (iface, device) = histogram.cumulative_from_completed();
    assert_eq!(iface.get(&4).unwrap().down_v6_bytes, 12);
    assert_eq!(device.get(&(4, [2, 0, 0, 0, 0, 1])).unwrap().down_v6_bytes, 4);
    assert_eq!(device.len(), 1);
}

#[test]
fn the_current_hour_is_kept_over_a_restart() {
    let manager = PersistenceManager::new("/data", 1).unwrap();
    let now = 1_700_000_000_000;
    let (start, end) = bandix_plus::clock::hourly_bucket_local(now).unwrap();
    let hour = AggregatedBucket {
        start_ts_ms: start,
        end_ts_ms: end,
        ..sample_bucket(0)
    };
    let state = PersistedCurrentHourState {
        iface: vec![
            PersistedCurrentHourIface { logical_iface: "br".into(), bucket: hour },
            PersistedCurrentHourIface { logical_iface: "gone".into(), bucket: hour },
            PersistedCurrentHourIface { logical_iface: "br".into(), bucket: sample_bucket(0) },
        ],
        device: vec![],
    };
    let mut histogram = HistogramHistory::with_capacity_hours(24);
    assert!(manager.load_current_hour_histogram(CURRENT_HOUR_SCHEMA_VERSION, &state, &topology(), &mut histogram, now));
    let saved = manager.save_current_hour_histogram(&histogram, &topology());
    assert_eq!(saved.iface.len(), 1);
    assert_eq!((saved.iface[0].logical_iface.as_str(), saved.iface[0].bucket), ("br", hour));
    let mut other = HistogramHistory::with_capacity_hours(24);
    assert!(manager.load_current_hour_histogram(99, &state, &topology(), &mut other, now));
    assert!(manager.save_current_hour_histogram(&other, &topology()).iface.is_empty());
}

#[test]
fn a_damaged_record_is_refused() {
    let bucket = sample_bucket(1_700_000_000_000);
    let record = encode_ring_record(&bucket);
    assert_eq!(record.len(), RING_RECORD_SIZE);
    assert_eq!(decode_ring_record(&record, RING_VERSION), Ok(bucket));
    for i in 0..record.len() {
        for bit in [1u8, 0x80] {
            let mut bad = record.clone();
            bad[i] ^= bit;
            assert!(decode_ring_record(&bad, RING_VERSION).is_err());
        }
    }
    let mut long = record.clone();
    long.push(0);
    assert!(decode_ring_record(&long, RING_VERSION).is_err());
    assert!(decode_ring_record(&record[..RING_RECORD_SIZE - 1], RING_VERSION).is_err());
    assert!(decode_ring_record(&[], RING_VERSION).is_err());
}

#[test]
fn added_hours_are_read_back() {
    let manager = PersistenceManager::new("/data", 1).unwrap();
    let mut disk = Disk::default();
    for n in 1..=60u64 {
        let update = manager.append_iface_bucket("br", &sample_bucket(n), disk.file.as_deref()).unwrap();
        disk.apply(update);
        let kept = n.min(24);
        assert_eq!(disk.starts(), (n - kept + 1..=n).collect::<Vec<_>>());
        assert_eq!(disk.len(), 64 + 220 * kept);
    }
    assert!(disk.aside.is_empty());
}

#[test]
fn only_the_current_hour_comes_back() {
    let manager = PersistenceManager::new("/data", 1).unwrap();
    let now = 1_700_000_000_000;
    let (start, end) = bandix_plus::clock::hourly_bucket_local(now).unwrap();
    let hour = AggregatedBucket { start_ts_ms: start, end_ts_ms: end, ..sample_bucket(0) };
    let stale = AggregatedBucket { start_ts_ms: start - 3_600_000, ..hour };
    let named = |ifindex: u32, name: &str| Interface {
        ifindex,
        name: name.into(),
        role: InterfaceRole::Bridge,
        zone: "lan".into(),
        parent_ifindex: None,
        ipv4_cidrs: vec![],
        ipv6_cidrs: vec![],
    };
    let topology = TopologySnapshot::from_interfaces(vec![named(4, "br"), named(5, "wan")]);
    let mut histogram = HistogramHistory::with_capacity_hours(24);
    for (ifindex, bucket) in [(4, hour), (5, stale), (6, hour)] {
        histogram.current_hour_iface.insert(ifindex, bucket);
        histogram
            .current_hour_device
            .insert(DeviceSeriesKey { ifindex, mac: "02:00:00:00:00:01".into() }, bucket);
    }
    let saved = manager.save_current_hour_histogram(&histogram, &topology);
    assert_eq!((saved.iface.len(), saved.device.len()), (2, 2));
    let mut fresh = HistogramHistory::with_capacity_hours(24);
    assert!(manager.load_current_hour_histogram(CURRENT_HOUR_SCHEMA_VERSION, &saved, &topology, &mut fresh, now));
    let back = fresh.export_current_hour_state();
    assert_eq!((back.iface.len(), back.device.len()), (1, 1));
    assert_eq!((back.iface[0].ifindex, back.iface[0].bucket), (4, hour));
    assert_eq!((back.device[0].ifindex, back.device[0].bucket), (4, hour));
    assert_eq!(fresh.cumulative_from_completed().0.len(), 0);
}

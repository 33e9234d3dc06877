use bandix_plus::bucket::{
    delta_bytes, AggregatedBucket, CounterQuad, HistoryDirection, HistoryTrafficType,
};
use bandix_plus::clock::{
    bucket_bounds, daily_bucket_local, hourly_bucket_local, period_range, period_range_ms,
    period_start_of, span_of, LocalClock, PeriodScope, CALENDAR_END_MS, CALENDAR_START_MS,
};
use bandix_plus::history::{merge_hourly_to_daily, AggregateBucket, HistogramHistory};
use bandix_plus::recent::{history_points, TrafficHistory};
use bandix_plus::snapshot::{DeviceListItem, InterfaceOverviewItem, SnapshotData};
use chrono::{Local, TimeZone};

fn full_bucket() -> AggregatedBucket {
    AggregatedBucket {
        start_ts_ms: 0,
        end_ts_ms: 1,
        sample_count: 1,
        up_v4_bytes: 10,
        down_v4_bytes: 20,
        up_v6_bytes: 30,
        down_v6_bytes: 40,
        up_v4_bps_sum: 1,
        up_v4_bps_max: 2,
        up_v4_bps_min: 0,
        down_v4_bps_sum: 3,
        down_v4_bps_max: 4,
        down_v4_bps_min: 0,
        up_v6_bps_sum: 5,
        up_v6_bps_max: 6,
        up_v6_bps_min: 0,
        down_v6_bps_sum: 7,
        down_v6_bps_max: 8,
        down_v6_bps_min: 0,
        ..Default::default()
    }
}

#[test]
fn with_traffic_type_ipv4_clears_v6() {
    let b = full_bucket().with_traffic_type(HistoryTrafficType::Ipv4);
    assert_eq!(b.up_v4_bytes, 10);
    assert_eq!(b.up_v6_bytes, 0);
    assert_eq!(b.up_v6_bps_sum, 0);
}

#[test]
fn with_traffic_type_ipv6_clears_v4() {
    let b = full_bucket().with_traffic_type(HistoryTrafficType::Ipv6);
    assert_eq!(b.up_v6_bytes, 30);
    assert_eq!(b.up_v4_bytes, 0);
}

#[test]
fn both_versions_kept_in_turn_leave_nothing() {
    let b = full_bucket()
        .with_traffic_type(HistoryTrafficType::Ipv4)
        .with_traffic_type(HistoryTrafficType::Ipv6);
    assert_eq!((b.up_v4_bytes, b.down_v4_bytes, b.up_v6_bytes, b.down_v6_bytes), (0, 0, 0, 0));
    assert_eq!(full_bucket().with_traffic_type(HistoryTrafficType::All), full_bucket());
}

fn bucket(start: u64, end: u64) -> AggregatedBucket {
    AggregatedBucket {
        start_ts_ms: start,
        end_ts_ms: end,
        sample_count: 1,
        up_v4_bytes: 1,
        down_v4_bytes: 1,
        up_v6_bytes: 1,
        down_v6_bytes: 1,
        up_v4_bps_sum: 1,
        up_v4_bps_max: 1,
        up_v4_bps_min: 1,
        down_v4_bps_sum: 1,
        down_v4_bps_max: 1,
        down_v4_bps_min: 1,
        up_v6_bps_sum: 1,
        up_v6_bps_max: 1,
        up_v6_bps_min: 1,
        down_v6_bps_sum: 1,
        down_v6_bps_max: 1,
        down_v6_bps_min: 1,
        ..Default::default()
    }
}

#[test]
fn hourly_bucket_uses_closed_end_235959999() {
    let ts = Local.with_ymd_and_hms(2024, 1, 15, 10, 0, 0).unwrap().timestamp_millis() as u64;
    let (_, end) = hourly_bucket_local(ts).unwrap();
    let expected = Local.with_ymd_and_hms(2024, 1, 15, 10, 59, 59).unwrap().timestamp_millis() as u64 + 999;
    assert_eq!(end, expected);
}

#[test]
fn daily_bucket_uses_closed_end_235959999() {
    let ts = Local.with_ymd_and_hms(2024, 1, 15, 0, 0, 0).unwrap().timestamp_millis() as u64;
    let (_, end) = daily_bucket_local(ts).unwrap();
    let expected = Local.with_ymd_and_hms(2024, 1, 15, 23, 59, 59).unwrap().timestamp_millis() as u64 + 999;
    assert_eq!(end, expected);
}

#[test]
fn periods_start_at_midnight() {
    let at = |y, m, d, h| Local.with_ymd_and_hms(y, m, d, h, 0, 0).unwrap().timestamp_millis() as u64;
    let now = at(2024, 5, 16, 12);
    assert_eq!(period_range_ms(PeriodScope::Today, now), Some((at(2024, 5, 16, 0), now)));
    assert_eq!(period_range_ms(PeriodScope::Week, now), Some((at(2024, 5, 13, 0), now)));
    assert_eq!(period_range_ms(PeriodScope::Month, now), Some((at(2024, 5, 1, 0), now)));
    assert_eq!(period_range_ms(PeriodScope::Year, now), Some((at(2024, 1, 1, 0), now)));
    let c = LocalClock { year: 2024, month: 5, day: 16, hour: 12, minute: 30, weekday: 3 };
    assert_eq!(period_start_of(PeriodScope::Week, &c), (5, 16, 3));
    assert_eq!(span_of(&c, true), ((12, 0, 0, 0), (12, 59, 59, 999)));
    assert_eq!(bucket_bounds(false, None, None), Some((0, 0)));
    assert_eq!(bucket_bounds(true, Some(5), None), None);
}

#[test]
fn query_aggregate_matches_closed_boundary() {
    let mut h = HistogramHistory::new();
    let ts = Local.with_ymd_and_hms(2024, 1, 15, 10, 0, 0).unwrap().timestamp_millis() as u64;
    let (start, end) = hourly_bucket_local(ts).unwrap();
    h.restore_iface_bucket(1, bucket(start, end));

    let at_end = h.query_aggregate(1, None, end, end, AggregateBucket::Hourly).unwrap();
    assert_eq!(at_end.len(), 1);

    let after_end = h.query_aggregate(1, None, end + 1, end + 1, AggregateBucket::Hourly).unwrap();
    assert!(after_end.is_empty());
}

#[test]
fn cumulative_from_completed_prefers_ring_bytes_as_source() {
    let mut h = HistogramHistory::new();
    let ts = Local.with_ymd_and_hms(2024, 1, 15, 10, 0, 0).unwrap().timestamp_millis() as u64;
    let (start, end) = hourly_bucket_local(ts).unwrap();

    let mut iface_bucket = bucket(start, end);
    iface_bucket.up_v4_bytes = 100;
    iface_bucket.down_v4_bytes = 200;
    iface_bucket.up_v6_bytes = 300;
    iface_bucket.down_v6_bytes = 400;
    h.restore_iface_bucket(1, iface_bucket.clone());

    let mut device_bucket = bucket(start, end);
    device_bucket.up_v4_bytes = 11;
    device_bucket.down_v4_bytes = 22;
    device_bucket.up_v6_bytes = 33;
    device_bucket.down_v6_bytes = 44;
    h.restore_device_bucket(2, "aa:bb:cc:dd:ee:ff".to_string(), device_bucket.clone());

    let (iface, device) = h.cumulative_from_completed();
    let iface_cum = iface.get(&1).unwrap();
    assert_eq!(iface_cum.up_v4_bytes, 100);
    assert_eq!(iface_cum.down_v4_bytes, 200);
    assert_eq!(iface_cum.up_v6_bytes, 300);
    assert_eq!(iface_cum.down_v6_bytes, 400);

    let dev_cum = device.get(&(2, [0xaa, 0xbb, 0xcc, 0xdd, 0xee, 0xff])).unwrap();
    assert_eq!(dev_cum.up_v4_bytes, 11);
    assert_eq!(dev_cum.down_v4_bytes, 22);
    assert_eq!(dev_cum.up_v6_bytes, 33);
    assert_eq!(dev_cum.down_v6_bytes, 44);
}

#[test]
fn finalize_computes_avg_from_sum_count() {
    let b = AggregatedBucket {
        sample_count: 4,
        up_v4_bps_sum: 400,
        down_v4_bps_sum: 800,
        up_v6_bps_sum: 120,
        down_v6_bps_sum: 240,
        up_v4_bps_max: 200,
        down_v4_bps_max: 300,
        up_v6_bps_max: 60,
        down_v6_bps_max: 100,
        ..Default::default()
    }
    .finalize();
    assert_eq!(b.up_v4_bps_avg, 100);
    assert_eq!(b.down_v4_bps_avg, 200);
    assert_eq!(b.up_v6_bps_avg, 30);
    assert_eq!(b.down_v6_bps_avg, 60);
    // p95 == max
    assert_eq!(b.up_v4_bps_p95, 200);
    assert_eq!(b.down_v4_bps_p95, 300);
    assert_eq!(b.finalize(), b);
}

fn quad(up: u64, down: u64) -> CounterQuad {
    CounterQuad {
        up_v4_bytes: up,
        down_v4_bytes: down,
        up_v4_bps: up * 8,
        down_v4_bps: down * 8,
        ..CounterQuad::default()
    }
}

fn snapshot(timestamp_ms: u64, up: u64, down: u64) -> SnapshotData {
    SnapshotData {
        timestamp_ms,
        interfaces: vec![InterfaceOverviewItem {
            ifindex: 1,
            ifname: "br-lan".into(),
            zone: "lan".into(),
            metrics: quad(up, down),
            cumulative: quad(up, down),
        }],
        devices: vec![DeviceListItem {
            ifindex: 1,
            logical_iface: "br-lan".into(),
            subnet: String::new(),
            ipv4: vec![],
            ipv6: vec![],
            mac: "02:00:00:00:00:01".into(),
            hostname: String::new(),
            metrics: quad(up, down),
            cumulative: quad(up, down),
            online: true,
            last_seen_ms: timestamp_ms,
            neighbor_state: None,
        }],
    }
}

#[test]
fn a_new_hour_completes_the_old_one() {
    let hour = Local.with_ymd_and_hms(2024, 1, 15, 10, 0, 0).unwrap().timestamp_millis() as u64;
    let mut h = HistogramHistory::with_capacity_hours(2);
    assert!(h.ingest_snapshot_collect_completed(&snapshot(hour, 5, 7)).unwrap().is_empty());
    assert!(h.ingest_snapshot_collect_completed(&snapshot(hour + 1000, 5, 7)).unwrap().is_empty());
    let before = h.cumulative_from_all().0.get(&1).copied().unwrap();
    assert_eq!((before.up_v4_bytes, before.down_v4_bytes), (10, 14));
    let done = h.ingest_snapshot_collect_completed(&snapshot(hour + 3_600_000, 1, 1)).unwrap();
    assert_eq!(done.len(), 2);
    let after = h.cumulative_from_all().0.get(&1).copied().unwrap();
    assert_eq!((after.up_v4_bytes, after.down_v4_bytes), (11, 15));
    let hours = h
        .query_aggregate(1, Some("02:00:00:00:00:01"), hour, hour, AggregateBucket::Hourly)
        .unwrap();
    assert_eq!((hours.len(), hours[0].sample_count, hours[0].up_v4_bps_avg), (1, 2, 40));
    assert!(h.remove_device(1, "02:00:00:00:00:01"));
    assert!(!h.remove_device(1, "02:00:00:00:00:01"));
}

#[test]
fn hours_of_a_day_are_taken_together() {
    let hours = vec![bucket(0, 9), bucket(10, 19), bucket(20, 29)];
    let days = merge_hourly_to_daily(&hours, &vec![(0, 19), (0, 19), (20, 39)]);
    assert_eq!(days.len(), 2);
    assert_eq!((days[0].start_ts_ms, days[0].end_ts_ms, days[0].up_v4_bytes), (0, 19, 2));
    assert_eq!((days[1].start_ts_ms, days[1].sample_count), (20, 1));
}

#[test]
fn only_the_window_is_kept() {
    let mut recent = TrafficHistory::new(2);
    for t in 1..=3u64 {
        recent.ingest_snapshot(&snapshot(t, t, t));
    }
    let samples = recent.query_iface(1, HistoryTrafficType::All, HistoryDirection::Both);
    assert_eq!(samples.iter().map(|s| s.ts_ms).collect::<Vec<_>>(), vec![2, 3]);
    let samples = recent.query_device(None, "02:00:00:00:00:01", HistoryTrafficType::All, HistoryDirection::Up);
    assert_eq!(samples.iter().map(|s| s.up_v4_bytes).collect::<Vec<_>>(), vec![2, 3]);
    assert!(recent.remove_device(1, "02:00:00:00:00:01"));
}

#[test]
fn counters_that_fall_start_anew() {
    assert_eq!(delta_bytes(10, 4), 6);
    assert_eq!(delta_bytes(3, 4), 3);
}

#[test]
fn windows_hold_a_snapshot_each_second() {
    assert_eq!(history_points(0), 1);
    assert_eq!(history_points(1), 60);
    assert_eq!(history_points(10), 600);
}

#[test]
fn times_outside_the_calendar_have_no_hour() {
    for outside in [CALENDAR_END_MS + 1, CALENDAR_START_MS - 1, i64::MAX, i64::MIN] {
        let ts_ms = outside as u64;
        assert_eq!(hourly_bucket_local(ts_ms), Some((0, 0)));
        assert_eq!(daily_bucket_local(ts_ms), Some((0, 0)));
        assert_eq!(period_range_ms(PeriodScope::Week, ts_ms), Some((0, ts_ms)));
    }
    // A day inside, whatever the time zone.
    for inside in [CALENDAR_END_MS - 86_400_000, CALENDAR_START_MS + 2 * 86_400_000] {
        assert_ne!(hourly_bucket_local(inside as u64), Some((0, 0)));
    }
    assert_ne!(period_range_ms(PeriodScope::Today, CALENDAR_END_MS as u64), Some((0, CALENDAR_END_MS as u64)));
}

#[test]
fn days_tell_what_their_hours_tell() {
    let at = |d, h| Local.with_ymd_and_hms(2024, 1, d, h, 0, 0).unwrap().timestamp_millis() as u64;
    let mut histogram = HistogramHistory::new();
    for (n, (d, h)) in [(15, 9), (15, 23), (16, 0), (17, 5), (17, 6)].into_iter().enumerate() {
        let n = n as u64 + 1;
        let (start, end) = hourly_bucket_local(at(d, h)).unwrap();
        histogram.restore_iface_bucket(
            1,
            AggregatedBucket {
                up_v4_bytes: 10 * n,
                down_v6_bytes: n,
                up_v6_bps_sum: 7 * n,
                down_v4_bps_max: 100 - n,
                sample_count: n,
                ..bucket(start, end)
            },
        );
    }
    let told = |by| histogram.query_aggregate(1, None, at(15, 0), at(18, 0), by).unwrap();
    let hours = told(AggregateBucket::Hourly);
    let days = told(AggregateBucket::Daily);
    assert_eq!((hours.len(), days.len()), (5, 3));
    assert_eq!(
        days.iter().map(|b| b.start_ts_ms).collect::<Vec<_>>(),
        vec![at(15, 0), at(16, 0), at(17, 0)]
    );
    assert_eq!(days.iter().map(|b| b.up_v4_bytes).collect::<Vec<_>>(), vec![30, 30, 90]);
    let sums = |s: &[AggregatedBucket]| {
        let sum = |f: fn(&AggregatedBucket) -> u64| s.iter().map(f).sum::<u64>();
        (
            sum(|b| b.up_v4_bytes),
            sum(|b| b.down_v6_bytes),
            sum(|b| b.up_v6_bps_sum),
            sum(|b| b.sample_count),
            s.iter().map(|b| b.down_v4_bps_max).max(),
        )
    };
    assert_eq!(sums(&days), (150, 15, 105, 15, Some(99)));
    assert_eq!(sums(&days), sums(&hours));
    let none = |by| histogram.query_aggregate(2, None, 0, u64::MAX, by).unwrap();
    assert!(none(AggregateBucket::Hourly).is_empty() && none(AggregateBucket::Daily).is_empty());
}

#[test]
fn a_moment_lies_in_its_hour_and_its_day() {
    for ts_ms in [1_700_000_000_123u64, 0, 951_782_399_999, 1_709_164_800_000] {
        let (start, end) = hourly_bucket_local(ts_ms).unwrap();
        assert!(start as i64 <= ts_ms as i64 && ts_ms as i64 <= end as i64);
        let (day, day_end) = daily_bucket_local(ts_ms).unwrap();
        assert!(day as i64 <= start as i64 && end as i64 <= day_end as i64);
    }
    assert_eq!(period_range(false, None, None, 7), Some((0, 7)));
    assert_eq!(period_range(true, Some(4), Some(2), 7), Some((2, 7)));
    assert_eq!(period_range(true, None, Some(2), 7), None);
    assert_eq!(period_range(true, Some(4), None, 7), None);
}

//! Traffic over ranges of time: of all devices of an interface, and the devices in
//! the order of their traffic.
use crate::api::{
    asked, asked_text, bucket_asked, interface_asked, parse_bucket, parse_traffic_type,
    resolve_query_iface_to_ifindex, traffic_asked, AggregateQuery, InterfaceError,
    UsageRankingQuery,
};
use crate::bucket::{empty_bucket, AggregatedBucket, HistoryTrafficType};
use crate::days::lemma_last_hour;
use crate::dnsrec::copy_texts;
use crate::history::{
    all_finalized, day_map, lists_days, may_be_days, meets_calendar, str_view, tells,
    AggregateBucket, HistogramHistory,
};
use crate::mac;
use crate::mac::mac_text;
use crate::runtime::{DeviceRegistry, KnownDevice, KnownModel};
use crate::snapshot::{overview_views, InterfaceOverviewItem, OverviewModel};
use crate::sort::{
    arrange, law_arranged_is_ordered, lemma_same_distinct, lemma_same_mapped, lemma_same_members,
    ordered, Ranked,
};
use crate::table::{Key, Table};
use crate::counting::sat_add;
use crate::text::{
    lemma_text_less_total, lemma_text_less_transitive, less, text_eq, text_less, views,
};
use crate::topology::{InterfaceModel, TopologySnapshot};
use vstd::prelude::*;

verus! {

impl Key for (u64, u64) {
    fn same(&self, other: &Self) -> (b: bool) {
        self.0 == other.0 && self.1 == other.1
    }

    fn dup(&self) -> (r: Self) {
        *self
    }
}

/// The traffic of a bucket that is of a kind.
pub open spec fn of_type(b: AggregatedBucket, tt: HistoryTrafficType) -> AggregatedBucket {
    match tt {
        HistoryTrafficType::All => b,
        HistoryTrafficType::Ipv4 => b.only_v4(),
        HistoryTrafficType::Ipv6 => b.only_v6(),
    }
}

/// The traffic of buckets that is of a kind.
pub open spec fn all_of_type(s: Seq<AggregatedBucket>, tt: HistoryTrafficType) -> Seq<
    AggregatedBucket,
> {
    s.map_values(|b: AggregatedBucket| of_type(b, tt))
}

fn keep_type(v: &Vec<AggregatedBucket>, tt: HistoryTrafficType) -> (r: Vec<AggregatedBucket>)
    ensures
        r@ == all_of_type(v@, tt),
{
    let mut r: Vec<AggregatedBucket> = Vec::new();
    let ghost all = all_of_type(v@, tt);
    let mut i: usize = 0;
    while i < v.len()
        invariant
            i <= v@.len(),
            all == all_of_type(v@, tt),
            r@ == all.take(i as int),
        decreases v@.len() - i,
    {
        r.push(v[i].with_traffic_type(tt));
        assert(all.take(i + 1) =~= all.take(i as int).push(all[i as int]));
        i += 1;
    }
    assert(all.take(i as int) =~= all);
    r
}

/// A bucket of all devices with that of one more: bytes and rates are added up.
pub open spec fn together(a: AggregatedBucket, b: AggregatedBucket) -> AggregatedBucket {
    AggregatedBucket {
        up_v4_bytes: sat_add(a.up_v4_bytes, b.up_v4_bytes),
        down_v4_bytes: sat_add(a.down_v4_bytes, b.down_v4_bytes),
        up_v6_bytes: sat_add(a.up_v6_bytes, b.up_v6_bytes),
        down_v6_bytes: sat_add(a.down_v6_bytes, b.down_v6_bytes),
        up_v4_bps_avg: sat_add(a.up_v4_bps_avg, b.up_v4_bps_avg),
        up_v4_bps_max: sat_add(a.up_v4_bps_max, b.up_v4_bps_max),
        up_v4_bps_min: sat_add(a.up_v4_bps_min, b.up_v4_bps_min),
        up_v4_bps_p95: sat_add(a.up_v4_bps_p95, b.up_v4_bps_p95),
        down_v4_bps_avg: sat_add(a.down_v4_bps_avg, b.down_v4_bps_avg),
        down_v4_bps_max: sat_add(a.down_v4_bps_max, b.down_v4_bps_max),
        down_v4_bps_min: sat_add(a.down_v4_bps_min, b.down_v4_bps_min),
        down_v4_bps_p95: sat_add(a.down_v4_bps_p95, b.down_v4_bps_p95),
        up_v6_bps_avg: sat_add(a.up_v6_bps_avg, b.up_v6_bps_avg),
        up_v6_bps_max: sat_add(a.up_v6_bps_max, b.up_v6_bps_max),
        up_v6_bps_min: sat_add(a.up_v6_bps_min, b.up_v6_bps_min),
        up_v6_bps_p95: sat_add(a.up_v6_bps_p95, b.up_v6_bps_p95),
        down_v6_bps_avg: sat_add(a.down_v6_bps_avg, b.down_v6_bps_avg),
        down_v6_bps_max: sat_add(a.down_v6_bps_max, b.down_v6_bps_max),
        down_v6_bps_min: sat_add(a.down_v6_bps_min, b.down_v6_bps_min),
        down_v6_bps_p95: sat_add(a.down_v6_bps_p95, b.down_v6_bps_p95),
        ..a
    }
}

/// Adds the bucket of one more device.
pub fn accumulate_bucket(dst: &mut AggregatedBucket, src: &AggregatedBucket)
    ensures
        *final(dst) == together(*old(dst), *src),
{
    dst.up_v4_bytes = dst.up_v4_bytes.saturating_add(src.up_v4_bytes);
    dst.down_v4_bytes = dst.down_v4_bytes.saturating_add(src.down_v4_bytes);
    dst.up_v6_bytes = dst.up_v6_bytes.saturating_add(src.up_v6_bytes);
    dst.down_v6_bytes = dst.down_v6_bytes.saturating_add(src.down_v6_bytes);
    dst.up_v4_bps_avg = dst.up_v4_bps_avg.saturating_add(src.up_v4_bps_avg);
    dst.up_v4_bps_max = dst.up_v4_bps_max.saturating_add(src.up_v4_bps_max);
    dst.up_v4_bps_min = dst.up_v4_bps_min.saturating_add(src.up_v4_bps_min);
    dst.up_v4_bps_p95 = dst.up_v4_bps_p95.saturating_add(src.up_v4_bps_p95);
    dst.down_v4_bps_avg = dst.down_v4_bps_avg.saturating_add(src.down_v4_bps_avg);
    dst.down_v4_bps_max = dst.down_v4_bps_max.saturating_add(src.down_v4_bps_max);
    dst.down_v4_bps_min = dst.down_v4_bps_min.saturating_add(src.down_v4_bps_min);
    dst.down_v4_bps_p95 = dst.down_v4_bps_p95.saturating_add(src.down_v4_bps_p95);
    dst.up_v6_bps_avg = dst.up_v6_bps_avg.saturating_add(src.up_v6_bps_avg);
    dst.up_v6_bps_max = dst.up_v6_bps_max.saturating_add(src.up_v6_bps_max);
    dst.up_v6_bps_min = dst.up_v6_bps_min.saturating_add(src.up_v6_bps_min);
    dst.up_v6_bps_p95 = dst.up_v6_bps_p95.saturating_add(src.up_v6_bps_p95);
    dst.down_v6_bps_avg = dst.down_v6_bps_avg.saturating_add(src.down_v6_bps_avg);
    dst.down_v6_bps_max = dst.down_v6_bps_max.saturating_add(src.down_v6_bps_max);
    dst.down_v6_bps_min = dst.down_v6_bps_min.saturating_add(src.down_v6_bps_min);
    dst.down_v6_bps_p95 = dst.down_v6_bps_p95.saturating_add(src.down_v6_bps_p95);
}

/// The window of a bucket.
pub open spec fn window_of(b: AggregatedBucket) -> (u64, u64) {
    (b.start_ts_ms, b.end_ts_ms)
}

/// The buckets of windows with those of one more device.
pub open spec fn windows_with(
    m: Map<(u64, u64), AggregatedBucket>,
    s: Seq<AggregatedBucket>,
) -> Map<(u64, u64), AggregatedBucket>
    decreases s.len(),
{
    if s.len() == 0 {
        m
    } else {
        let before = windows_with(m, s.drop_last());
        let w = window_of(s.last());
        let acc = if before.dom().contains(w) {
            before[w]
        } else {
            empty_bucket(w.0, w.1)
        };
        before.insert(w, together(acc, s.last()))
    }
}

/// The buckets of windows, from the buckets of each device.
pub open spec fn windows(lists: Seq<Seq<AggregatedBucket>>) -> Map<(u64, u64), AggregatedBucket>
    decreases lists.len(),
{
    if lists.len() == 0 {
        Map::empty()
    } else {
        windows_with(windows(lists.drop_last()), lists.last())
    }
}

/// The list holds the buckets of the map, in the order of their windows.
pub open spec fn lists_windows(
    v: Seq<AggregatedBucket>,
    m: Map<(u64, u64), AggregatedBucket>,
) -> bool {
    &&& v.len() == m.len()
    &&& forall|i: int|
        0 <= i < v.len() ==> m.dom().contains(window_of(#[trigger] v[i])) && m[window_of(v[i])]
            == v[i]
    &&& forall|i: int, j: int|
        0 <= i < j < v.len() ==> window_before(
            window_of(#[trigger] v[i]),
            window_of(#[trigger] v[j]),
        )
}

/// Whether a window comes before another one: by its start, then by its end.
pub open spec fn window_before(a: (u64, u64), b: (u64, u64)) -> bool {
    a.0 < b.0 || (a.0 == b.0 && a.1 < b.1)
}

/// A bucket that is ranked by its window.
pub struct Windowed {
    pub bucket: AggregatedBucket,
}

impl Ranked for Windowed {
    open spec fn precedes(self, other: Self) -> bool {
        window_before(window_of(self.bucket), window_of(other.bucket))
    }

    proof fn asymmetric(a: Self, b: Self) {
    }

    proof fn cotransitive(a: Self, b: Self, c: Self) {
    }

    fn comes_before(&self, other: &Self) -> (r: bool) {
        let a = &self.bucket;
        let b = &other.bucket;
        a.start_ts_ms < b.start_ts_ms || (a.start_ts_ms == b.start_ts_ms && a.end_ts_ms
            < b.end_ts_ms)
    }
}

fn add_windows(t: &mut Table<(u64, u64), AggregatedBucket>, v: &Vec<AggregatedBucket>)
    requires
        old(t).wf(),
        forall|k: (u64, u64)| #[trigger]
            old(t)@.dom().contains(k) ==> window_of(old(t)@[k]) == k,
    ensures
        final(t).wf(),
        final(t)@ == windows_with(old(t)@, v@),
        forall|k: (u64, u64)| #[trigger]
            final(t)@.dom().contains(k) ==> window_of(final(t)@[k]) == k,
{
    let ghost m = t@;
    let mut i: usize = 0;
    assert(v@.take(0) =~= Seq::empty());
    while i < v.len()
        invariant
            i <= v@.len(),
            t.wf(),
            t@ == windows_with(m, v@.take(i as int)),
            forall|k: (u64, u64)| #[trigger] t@.dom().contains(k) ==> window_of(t@[k]) == k,
        decreases v@.len() - i,
    {
        assert(v@.take(i + 1).drop_last() =~= v@.take(i as int));
        let w = (v[i].start_ts_ms, v[i].end_ts_ms);
        assert(w@ == window_of(v@[i as int]));
        let mut acc = match t.get(&w) {
            Some(b) => *b,
            None => AggregatedBucket {
                start_ts_ms: w.0,
                end_ts_ms: w.1,
                ..AggregatedBucket::default()
            },
        };
        accumulate_bucket(&mut acc, &v[i]);
        t.insert(w, acc);
        i += 1;
    }
    assert(v@.take(i as int) =~= v@);
}

/// The buckets of each device over plain values.
pub open spec fn list_views(v: Seq<Vec<AggregatedBucket>>) -> Seq<Seq<AggregatedBucket>> {
    v.map_values(|x: Vec<AggregatedBucket>| x@)
}

/// The buckets of all devices, window by window, from the buckets of each.
pub fn merge_windows(lists: &Vec<Vec<AggregatedBucket>>) -> (r: Vec<AggregatedBucket>)
    ensures
        lists_windows(r@, windows(list_views(lists@))),
{
    let mut t: Table<(u64, u64), AggregatedBucket> = Table::new();
    let ghost ls = list_views(lists@);
    let mut i: usize = 0;
    assert(ls.take(0) =~= Seq::empty());
    while i < lists.len()
        invariant
            i <= lists@.len(),
            ls == list_views(lists@),
            t.wf(),
            t@ == windows(ls.take(i as int)),
            forall|k: (u64, u64)| #[trigger] t@.dom().contains(k) ==> window_of(t@[k]) == k,
        decreases lists@.len() - i,
    {
        assert(ls.take(i + 1).drop_last() =~= ls.take(i as int));
        assert(ls.take(i + 1).last() == lists@[i as int]@);
        add_windows(&mut t, &lists[i]);
        i += 1;
    }
    assert(ls.take(i as int) =~= ls);
    let mut list: Vec<Windowed> = Vec::new();
    let mut i: usize = 0;
    while i < t.entries.len()
        invariant
            i <= t.entries@.len(),
            t.wf(),
            list@.len() == i,
            forall|j: int| 0 <= j < i ==> (#[trigger] list@[j]).bucket == t.entries@[j].1,
        decreases t.entries@.len() - i,
    {
        list.push(Windowed { bucket: t.entries[i].1 });
        i += 1;
    }
    let ghost all = list@;
    let sorted = arrange(list);
    proof {
        t.lemma_len();
        law_arranged_is_ordered(all);
        assert forall|j: int| 0 <= j < all.len() implies t@.dom().contains(
            window_of((#[trigger] all[j]).bucket),
        ) && t@[window_of(all[j].bucket)] == all[j].bucket && window_of(all[j].bucket)
            == t.entries@[j].0@ by {
            t.lemma_entry(j);
        }
        assert(all.no_duplicates()) by {
            assert forall|a: int, b: int| 0 <= a < b < all.len() implies all[a] != all[b] by {
                assert(t.entries@[a].0@ != t.entries@[b].0@);
                assert(window_of(all[a].bucket) == t.entries@[a].0@);
                assert(window_of(all[b].bucket) == t.entries@[b].0@);
            }
        }
        lemma_same_distinct(sorted@, all);
        assert forall|j: int| 0 <= j < sorted@.len() implies t@.dom().contains(
            window_of((#[trigger] sorted@[j]).bucket),
        ) && t@[window_of(sorted@[j].bucket)] == sorted@[j].bucket by {
            lemma_same_members(sorted@, all, j);
        }
        assert forall|a: int, b: int| 0 <= a < b < sorted@.len() implies window_before(
            window_of((#[trigger] sorted@[a]).bucket),
            window_of((#[trigger] sorted@[b]).bucket),
        ) by {
            assert(!sorted@[b].precedes(sorted@[a]));
            if window_of(sorted@[a].bucket) == window_of(sorted@[b].bucket) {
                assert(sorted@[a] == sorted@[b]);
            }
        }
    }
    let mut r: Vec<AggregatedBucket> = Vec::new();
    let mut i: usize = 0;
    while i < sorted.len()
        invariant
            i <= sorted@.len(),
            r@.len() == i,
            forall|j: int| 0 <= j < i ==> #[trigger] r@[j] == sorted@[j].bucket,
        decreases sorted@.len() - i,
    {
        r.push(sorted[i].bucket);
        i += 1;
    }
    assert(lists_windows(r@, t@)) by {
        assert forall|a: int| 0 <= a < r@.len() implies t@.dom().contains(
            window_of(#[trigger] r@[a]),
        ) && t@[window_of(r@[a])] == r@[a] by {
            assert(r@[a] == sorted@[a].bucket);
        }
        assert forall|a: int, b: int| 0 <= a < b < r@.len() implies window_before(
            window_of(#[trigger] r@[a]),
            window_of(#[trigger] r@[b]),
        ) by {
            assert(r@[a] == sorted@[a].bucket);
            assert(r@[b] == sorted@[b].bucket);
        }
    }
    r
}

/// What a request for hours or days asks for.
#[derive(Debug)]
pub struct AggregateRequest {
    pub ifindex: u32,
    pub mac: Option<String>,
    pub start_ms: u64,
    pub end_ms: u64,
    pub bucket: AggregateBucket,
    pub traffic_type: HistoryTrafficType,
}

/// Reads a request for hours or days: of the last 24 hours unless it says
/// otherwise.
pub fn aggregate_request(
    q: &AggregateQuery,
    topology: &TopologySnapshot,
    rows: &Vec<InterfaceOverviewItem>,
    now_ms: u64,
) -> (r: Result<AggregateRequest, InterfaceError>)
    ensures
        match interface_asked(text_view(q.iface), topology@, overview_views(rows@)) {
            Err(e) => r == Err::<AggregateRequest, InterfaceError>(e),
            Ok(ifindex) => {
                &&& r matches Ok(a)
                &&& a.ifindex == ifindex
                &&& match a.mac {
                    Some(m) => asked_text(text_view(q.mac)) is Some && q.mac->0@ == m@,
                    None => asked_text(text_view(q.mac)) is None,
                }
                &&& a.start_ms == match q.start_ms {
                    Some(t) => t,
                    None => if now_ms > 86400000 {
                        (now_ms - 86400000) as u64
                    } else {
                        0
                    },
                }
                &&& a.end_ms == match q.end_ms {
                    Some(t) => t,
                    None => now_ms,
                }
                &&& a.bucket == bucket_asked(text_view(q.bucket))
                &&& a.traffic_type == traffic_asked(text_view(q.traffic_type))
            },
        },
{
    let ifindex = match resolve_query_iface_to_ifindex(opt_str(&q.iface), topology, rows) {
        Ok(i) => i,
        Err(e) => return Err(e),
    };
    let mac = match &q.mac {
        Some(m) => {
            if asked(Some(m.as_str())).is_some() {
                Some(m.clone())
            } else {
                None
            }
        },
        None => None,
    };
    Ok(
        AggregateRequest {
            ifindex,
            mac,
            start_ms: match q.start_ms {
                Some(t) => t,
                None => if now_ms > 86400000 {
                    now_ms - 86400000
                } else {
                    0
                },
            },
            end_ms: match q.end_ms {
                Some(t) => t,
                None => now_ms,
            },
            bucket: parse_bucket(opt_str(&q.bucket)),
            traffic_type: parse_traffic_type(opt_str(&q.traffic_type)),
        },
    )
}

/// What an optional text holds.
pub open spec fn text_view(s: Option<String>) -> Option<Seq<char>> {
    match s {
        Some(t) => Some(t@),
        None => None,
    }
}

fn opt_str(s: &Option<String>) -> (r: Option<&str>)
    ensures
        str_view(r) == text_view(*s),
{
    match s {
        Some(t) => Some(t.as_str()),
        None => None,
    }
}

/// A known device and its key.
pub type Entry = ((u32, [u8; 6]), KnownDevice);

/// The hours of each device that a request gets.
pub open spec fn hours_each(h: HistogramHistory, es: Seq<Entry>, start: u64, end: u64) -> Seq<
    Seq<AggregatedBucket>,
> {
    Seq::new(
        es.len(),
        |i: int| h.hours_asked(es[i].0.0, Some(mac_text(es[i].0.1@)), start, end),
    )
}

/// Whether the buckets of devices are what is told of their hours, for each device on an
/// interface, or on any where none is named.
pub open spec fn tells_each(
    es: Seq<Entry>,
    only: Option<u32>,
    hs: Seq<Seq<AggregatedBucket>>,
    bucket: AggregateBucket,
    bs: Seq<Seq<AggregatedBucket>>,
) -> bool {
    bs.len() == es.len() && forall|i: int|
        0 <= i < es.len() && is_on(#[trigger] es[i], only) ==> tells(hs[i], bucket, bs[i])
}

/// Whether the local calendar has a say in the days of a device on an interface, or on
/// any where none is named.
pub open spec fn calendar_met(
    es: Seq<Entry>,
    only: Option<u32>,
    hs: Seq<Seq<AggregatedBucket>>,
) -> bool {
    exists|i: int| 0 <= i < es.len() && is_on(#[trigger] es[i], only) && meets_calendar(hs[i])
}

/// Whether a device is on an interface, or on any where none is named.
pub open spec fn is_on(e: Entry, only: Option<u32>) -> bool {
    only is None || e.0.0 == only->0
}

/// The buckets of the devices on an interface.
pub open spec fn of_devices_on(
    es: Seq<Entry>,
    only: Option<u32>,
    bs: Seq<Seq<AggregatedBucket>>,
) -> Seq<Seq<AggregatedBucket>>
    decreases es.len(),
{
    if es.len() == 0 {
        Seq::empty()
    } else if is_on(es.last(), only) {
        of_devices_on(es.drop_last(), only, bs).push(bs[es.len() - 1])
    } else {
        of_devices_on(es.drop_last(), only, bs)
    }
}

proof fn lemma_of_devices_on(
    es: Seq<Entry>,
    only: Option<u32>,
    bs: Seq<Seq<AggregatedBucket>>,
    cs: Seq<Seq<AggregatedBucket>>,
)
    requires
        forall|i: int| 0 <= i < es.len() ==> bs[i] == #[trigger] cs[i],
    ensures
        of_devices_on(es, only, bs) == of_devices_on(es, only, cs),
    decreases es.len(),
{
    if es.len() > 0 {
        lemma_of_devices_on(es.drop_last(), only, bs, cs);
        assert(bs[es.len() - 1] == cs[es.len() - 1]);
    }
}

/// The hours or days that a request asks for: those of a device, or those of all
/// known devices of an interface taken together. Traffic that belongs to no device
/// is not in them. There is no answer by the day where the local calendar skips or
/// repeats the start or the end of one, which can be only where an hour that is asked
/// for starts in the calendar.
pub fn aggregate(
    histogram: &HistogramHistory,
    registry: &DeviceRegistry,
    req: &AggregateRequest,
) -> (r: Option<Vec<AggregatedBucket>>)
    requires
        histogram.wf(),
    ensures
        ({
            let es = registry.entries.entries@;
            let only = Some(req.ifindex);
            let hs = hours_each(*histogram, es, req.start_ms, req.end_ms);
            match req.mac {
                Some(m) => {
                    let hours = histogram.hours_asked(
                        req.ifindex,
                        Some(m@),
                        req.start_ms,
                        req.end_ms,
                    );
                    match r {
                        Some(v) => exists|b: Seq<AggregatedBucket>|
                            #[trigger] tells(hours, req.bucket, b) && v@ == all_of_type(
                                b,
                                req.traffic_type,
                            ),
                        None => req.bucket is Daily && meets_calendar(hours),
                    }
                },
                None => match r {
                    Some(v) => exists|bs: Seq<Seq<AggregatedBucket>>, b: Seq<AggregatedBucket>|
                        #[trigger] tells_each(es, only, hs, req.bucket, bs)
                            && #[trigger] lists_windows(b, windows(of_devices_on(es, only, bs)))
                            && v@ == all_of_type(b, req.traffic_type),
                    None => req.bucket is Daily && calendar_met(es, only, hs),
                },
            }
        }),
{
    if let Some(m) = &req.mac {
        return match histogram.query_aggregate(
            req.ifindex,
            Some(m.as_str()),
            req.start_ms,
            req.end_ms,
            req.bucket,
        ) {
            Some(v) => Some(keep_type(&v, req.traffic_type)),
            None => None,
        };
    }
    let entries = &registry.entries.entries;
    let ghost es = entries@;
    let ghost hs = hours_each(*histogram, es, req.start_ms, req.end_ms);
    let only: Option<u32> = Some(req.ifindex);
    let mut lists: Vec<Vec<AggregatedBucket>> = Vec::new();
    let ghost mut bs: Seq<Seq<AggregatedBucket>> = Seq::empty();
    let mut i: usize = 0;
    assert(es.take(0) =~= Seq::empty());
    assert(list_views(lists@) =~= of_devices_on(es.take(0), only, bs));
    while i < entries.len()
        invariant
            i <= entries@.len(),
            es == entries@,
            es == registry.entries.entries@,
            hs == hours_each(*histogram, es, req.start_ms, req.end_ms),
            only == Some(req.ifindex),
            req.mac is None,
            histogram.wf(),
            bs.len() == i,
            forall|j: int|
                0 <= j < i && is_on(#[trigger] es[j], only) ==> tells(hs[j], req.bucket, bs[j]),
            list_views(lists@) == of_devices_on(es.take(i as int), only, bs),
        decreases entries@.len() - i,
    {
        assert(es.take(i + 1).drop_last() =~= es.take(i as int));
        assert(es.take(i + 1).last() == es[i as int]);
        let ghost before = bs;
        let ghost mut found: Seq<AggregatedBucket> = Seq::empty();
        let key = &entries[i].0;
        if key.0 == req.ifindex {
            let text = mac::to_string(&key.1);
            match histogram.query_aggregate(
                req.ifindex,
                Some(text.as_str()),
                req.start_ms,
                req.end_ms,
                req.bucket,
            ) {
                Some(v) => {
                    proof {
                        found = v@;
                    }
                    let ghost l = list_views(lists@);
                    lists.push(v);
                    assert(list_views(lists@) =~= l.push(found));
                },
                None => {
                    assert(is_on(es[i as int], only) && meets_calendar(hs[i as int]));
                    return None;
                },
            }
        }
        proof {
            bs = before.push(found);
            lemma_of_devices_on(es.take(i as int), only, before, bs);
        }
        i += 1;
    }
    assert(es.take(i as int) =~= es);
    let b = merge_windows(&lists);
    let r = keep_type(&b, req.traffic_type);
    assert(tells_each(es, only, hs, req.bucket, bs));
    assert(lists_windows(b@, windows(of_devices_on(es, only, bs))));
    Some(r)
}

/// A device and its traffic in a range of time.
#[derive(Debug)]
pub struct UsageRankingItem {
    pub iface: String,
    pub mac: String,
    pub hostname: String,
    pub ipv4: Vec<String>,
    pub ipv6: Vec<String>,
    pub up_bytes: u64,
    pub down_bytes: u64,
    pub total_bytes: u64,
}

/// A device and its traffic over plain values.
#[verifier::ext_equal]
pub struct UsageModel {
    pub iface: Seq<char>,
    pub mac: Seq<char>,
    pub hostname: Seq<char>,
    pub ipv4: Seq<Seq<char>>,
    pub ipv6: Seq<Seq<char>>,
    pub up_bytes: u64,
    pub down_bytes: u64,
    pub total_bytes: u64,
}

impl View for UsageRankingItem {
    type V = UsageModel;

    open spec fn view(&self) -> UsageModel {
        UsageModel {
            iface: self.iface@,
            mac: self.mac@,
            hostname: self.hostname@,
            ipv4: views(self.ipv4@),
            ipv6: views(self.ipv6@),
            up_bytes: self.up_bytes,
            down_bytes: self.down_bytes,
            total_bytes: self.total_bytes,
        }
    }
}

impl Ranked for UsageRankingItem {
    /// More traffic comes first; of equal traffic, the lesser address.
    open spec fn precedes(self, other: Self) -> bool {
        self.total_bytes > other.total_bytes || (self.total_bytes == other.total_bytes && text_less(
            self.mac@,
            other.mac@,
        ))
    }

    proof fn asymmetric(a: Self, b: Self) {
        lemma_text_less_total(a.mac@, b.mac@);
    }

    proof fn cotransitive(a: Self, b: Self, c: Self) {
        lemma_text_less_total(a.mac@, b.mac@);
        lemma_text_less_total(b.mac@, c.mac@);
        if text_less(b.mac@, a.mac@) && text_less(a.mac@, c.mac@) {
            lemma_text_less_transitive(b.mac@, a.mac@, c.mac@);
        }
    }

    fn comes_before(&self, other: &Self) -> (r: bool) {
        self.total_bytes > other.total_bytes || (self.total_bytes == other.total_bytes && less(
            self.mac.as_str(),
            other.mac.as_str(),
        ))
    }
}

/// The devices and their traffic over plain values.
pub open spec fn usage_views(v: Seq<UsageRankingItem>) -> Seq<UsageModel> {
    v.map_values(|x: UsageRankingItem| x@)
}

/// The bytes that buckets count up, and down, of a kind of traffic.
pub open spec fn both_ways(s: Seq<AggregatedBucket>, tt: HistoryTrafficType) -> (u64, u64)
    decreases s.len(),
{
    if s.len() == 0 {
        (0, 0)
    } else {
        let before = both_ways(s.drop_last(), tt);
        let b = of_type(s.last(), tt);
        (
            sat_add(before.0, sat_add(b.up_v4_bytes, b.up_v6_bytes)),
            sat_add(before.1, sat_add(b.down_v4_bytes, b.down_v6_bytes)),
        )
    }
}

fn sum_both_ways(v: &Vec<AggregatedBucket>, tt: HistoryTrafficType) -> (r: (u64, u64))
    ensures
        r == both_ways(v@, tt),
{
    let mut up: u64 = 0;
    let mut down: u64 = 0;
    let mut i: usize = 0;
    assert(v@.take(0) =~= Seq::empty());
    while i < v.len()
        invariant
            i <= v@.len(),
            (up, down) == both_ways(v@.take(i as int), tt),
        decreases v@.len() - i,
    {
        assert(v@.take(i + 1).drop_last() =~= v@.take(i as int));
        let b = v[i].with_traffic_type(tt);
        up = up.saturating_add(b.up_v4_bytes.saturating_add(b.up_v6_bytes));
        down = down.saturating_add(b.down_v4_bytes.saturating_add(b.down_v6_bytes));
        i += 1;
    }
    assert(v@.take(i as int) =~= v@);
    (up, down)
}

/// The traffic of a device; a device without any is left out.
pub open spec fn usage_of(
    known: KnownModel,
    mac: Seq<char>,
    s: Seq<AggregatedBucket>,
    tt: HistoryTrafficType,
) -> Option<UsageModel> {
    let (up, down) = both_ways(s, tt);
    if sat_add(up, down) == 0 {
        None
    } else {
        Some(
            UsageModel {
                iface: known.logical_iface,
                mac,
                hostname: known.hostname,
                ipv4: known.ipv4,
                ipv6: known.ipv6,
                up_bytes: up,
                down_bytes: down,
                total_bytes: sat_add(up, down),
            },
        )
    }
}

/// The traffic of a device, from its buckets.
pub fn usage_item(
    known: &KnownDevice,
    mac: String,
    buckets: &Vec<AggregatedBucket>,
    tt: HistoryTrafficType,
) -> (r: Option<UsageRankingItem>)
    ensures
        match r {
            Some(x) => usage_of(known@, mac@, buckets@, tt) == Some(x@),
            None => usage_of(known@, mac@, buckets@, tt) is None,
        },
{
    let (up, down) = sum_both_ways(buckets, tt);
    let total = up.saturating_add(down);
    if total == 0 {
        return None;
    }
    let x = UsageRankingItem {
        iface: known.logical_iface.clone(),
        mac,
        hostname: known.hostname.clone(),
        ipv4: copy_texts(&known.ipv4),
        ipv6: copy_texts(&known.ipv6),
        up_bytes: up,
        down_bytes: down,
        total_bytes: total,
    };
    assert(x@ == usage_of(known@, mac@, buckets@, tt)->0);
    Some(x)
}

/// The traffic of the devices on an interface, or on any where none is named.
pub open spec fn usage_rows(
    es: Seq<Entry>,
    only: Option<u32>,
    bs: Seq<Seq<AggregatedBucket>>,
    tt: HistoryTrafficType,
) -> Seq<UsageModel>
    decreases es.len(),
{
    if es.len() == 0 {
        Seq::empty()
    } else {
        let front = usage_rows(es.drop_last(), only, bs, tt);
        let e = es.last();
        if is_on(e, only) {
            match usage_of(e.1@, mac_text(e.0.1@), bs[es.len() - 1], tt) {
                Some(x) => front.push(x),
                None => front,
            }
        } else {
            front
        }
    }
}

proof fn lemma_rows_by_bytes(
    es: Seq<Entry>,
    only: Option<u32>,
    bs: Seq<Seq<AggregatedBucket>>,
    cs: Seq<Seq<AggregatedBucket>>,
    tt: HistoryTrafficType,
)
    requires
        forall|i: int|
            0 <= i < es.len() && is_on(es[i], only) ==> both_ways(#[trigger] bs[i], tt)
                == both_ways(cs[i], tt),
    ensures
        usage_rows(es, only, bs, tt) == usage_rows(es, only, cs, tt),
    decreases es.len(),
{
    if es.len() > 0 {
        let front = es.drop_last();
        assert forall|i: int| 0 <= i < front.len() && is_on(front[i], only) implies both_ways(
            #[trigger] bs[i],
            tt,
        ) == both_ways(cs[i], tt) by {
            assert(front[i] == es[i]);
        }
        lemma_rows_by_bytes(front, only, bs, cs, tt);
        if is_on(es.last(), only) {
            assert(both_ways(bs[es.len() - 1], tt) == both_ways(cs[es.len() - 1], tt));
        }
    }
}

/// Why the order of devices is refused.
#[derive(Clone, Copy, Debug, PartialEq, Eq, Structural)]
pub struct BadRequest;

/// What a request for the devices by their traffic asks for.
#[derive(Clone, Copy, Debug, PartialEq, Eq, Structural)]
pub struct UsageRequest {
    /// The interface; all where there is none.
    pub only: Option<u32>,
    pub start_ms: u64,
    pub end_ms: u64,
    pub traffic_type: HistoryTrafficType,
    pub limit: Option<usize>,
}

/// The start of the range where a request gives none: 365 days before now.
pub open spec fn year_before(now: u64) -> u64 {
    if now >= 31536000000 {
        (now - 31536000000) as u64
    } else {
        (now - 31536000000 + 0x1_0000_0000_0000_0000) as u64
    }
}

/// What a request for the devices by their traffic asks for. It has to name an
/// interface, or all of them, and its range may not end before it starts.
pub open spec fn usage_asked(
    q: UsageRankingQuery,
    topology: Seq<InterfaceModel>,
    rows: Seq<OverviewModel>,
    now: u64,
) -> Result<UsageRequest, BadRequest> {
    let start = match q.start_ms {
        Some(t) => t,
        None => year_before(now),
    };
    let end = match q.end_ms {
        Some(t) => t,
        None => now,
    };
    let only = if text_view(q.iface) == Some("all"@) {
        Ok::<Option<u32>, BadRequest>(None)
    } else {
        match interface_asked(text_view(q.iface), topology, rows) {
            Ok(ifindex) => Ok(Some(ifindex)),
            Err(_) => Err(BadRequest),
        }
    };
    if end < start {
        Err(BadRequest)
    } else {
        match only {
            Ok(o) => Ok(
                UsageRequest {
                    only: o,
                    start_ms: start,
                    end_ms: end,
                    traffic_type: traffic_asked(text_view(q.traffic_type)),
                    limit: match q.limit {
                        Some(n) => if n > 0 {
                            Some(n)
                        } else {
                            None
                        },
                        None => None,
                    },
                },
            ),
            Err(e) => Err(e),
        }
    }
}

/// Reads a request for the devices by their traffic.
pub fn usage_request(
    q: &UsageRankingQuery,
    topology: &TopologySnapshot,
    rows: &Vec<InterfaceOverviewItem>,
    now_ms: u64,
) -> (r: Result<UsageRequest, BadRequest>)
    ensures
        r == usage_asked(*q, topology@, overview_views(rows@), now_ms),
{
    let start_ms = match q.start_ms {
        Some(t) => t,
        None => if now_ms >= 31536000000 {
            now_ms - 31536000000
        } else {
            0xffff_ffff_ffff_ffff - (31536000000 - now_ms) + 1
        },
    };
    let end_ms = match q.end_ms {
        Some(t) => t,
        None => now_ms,
    };
    let all = match &q.iface {
        Some(name) => text_eq(name.as_str(), "all"),
        None => false,
    };
    if end_ms < start_ms {
        return Err(BadRequest);
    }
    let only = if all {
        None
    } else {
        match resolve_query_iface_to_ifindex(opt_str(&q.iface), topology, rows) {
            Ok(i) => Some(i),
            Err(_) => return Err(BadRequest),
        }
    };
    let limit = match q.limit {
        Some(n) => if n > 0 {
            Some(n)
        } else {
            None
        },
        None => None,
    };
    Ok(
        UsageRequest {
            only,
            start_ms,
            end_ms,
            traffic_type: parse_traffic_type(opt_str(&q.traffic_type)),
            limit,
        },
    )
}

/// How many of so many are told.
pub open spec fn limited(n: nat, limit: Option<usize>) -> int {
    match limit {
        Some(l) => if l < n {
            l as int
        } else {
            n as int
        },
        None => n as int,
    }
}

/// The bytes of a bucket of a kind of traffic, one way.
spec fn amount(b: AggregatedBucket, tt: HistoryTrafficType, up: bool) -> int {
    let c = of_type(b, tt);
    if up {
        c.up_v4_bytes + c.up_v6_bytes
    } else {
        c.down_v4_bytes + c.down_v6_bytes
    }
}

/// The bytes of buckets of a kind of traffic, one way.
spec fn amounts(s: Seq<AggregatedBucket>, tt: HistoryTrafficType, up: bool) -> int
    decreases s.len(),
{
    if s.len() == 0 {
        0
    } else {
        amounts(s.drop_last(), tt, up) + amount(s.last(), tt, up)
    }
}

/// A number as a counter holds it, which stops at its largest value.
spec fn capped(n: int) -> u64 {
    if n > u64::MAX {
        u64::MAX
    } else {
        n as u64
    }
}

proof fn lemma_both_ways(s: Seq<AggregatedBucket>, tt: HistoryTrafficType)
    ensures
        both_ways(s, tt) == (capped(amounts(s, tt, true)), capped(amounts(s, tt, false))),
        amounts(s, tt, true) >= 0,
        amounts(s, tt, false) >= 0,
    decreases s.len(),
{
    if s.len() > 0 {
        lemma_both_ways(s.drop_last(), tt);
    }
}

proof fn lemma_amounts_remove(
    s: Seq<AggregatedBucket>,
    p: int,
    tt: HistoryTrafficType,
    up: bool,
)
    requires
        0 <= p < s.len(),
    ensures
        amounts(s.remove(p), tt, up) == amounts(s, tt, up) - amount(s[p], tt, up),
    decreases s.len(),
{
    let t = s.remove(p);
    if p == s.len() - 1 {
        assert(t =~= s.drop_last());
    } else {
        assert(t.drop_last() =~= s.drop_last().remove(p));
        assert(t.last() == s.last());
        lemma_amounts_remove(s.drop_last(), p, tt, up);
    }
}

proof fn lemma_finalized_amounts(s: Seq<AggregatedBucket>, tt: HistoryTrafficType, up: bool)
    ensures
        amounts(all_finalized(s), tt, up) == amounts(s, tt, up),
    decreases s.len(),
{
    if s.len() > 0 {
        assert(all_finalized(s).drop_last() =~= all_finalized(s.drop_last()));
        lemma_finalized_amounts(s.drop_last(), tt, up);
    }
}

/// Merging hours into days keeps their bytes.
proof fn lemma_days_keep_bytes(
    hours: Seq<AggregatedBucket>,
    days: Seq<(u64, u64)>,
    v: Seq<AggregatedBucket>,
    tt: HistoryTrafficType,
    up: bool,
)
    requires
        hours.len() == days.len(),
        lists_days(v, day_map(hours, days)),
    ensures
        capped(amounts(v, tt, up)) == capped(amounts(hours, tt, up)),
    decreases hours.len(),
{
    if hours.len() > 0 {
        let m = day_map(hours.drop_last(), days.drop_last());
        let day = days.last().0;
        let p = lemma_last_hour(hours, days, v);
        lemma_both_ways(v, tt);
        lemma_amounts_remove(v, p, tt, up);
        lemma_both_ways(v.remove(p), tt);
        if m.dom().contains(day) {
            let u = v.update(p, m[day]);
            lemma_days_keep_bytes(hours.drop_last(), days.drop_last(), u, tt, up);
            lemma_both_ways(u, tt);
            lemma_amounts_remove(u, p, tt, up);
            assert(u.remove(p) =~= v.remove(p));
        } else {
            lemma_days_keep_bytes(hours.drop_last(), days.drop_last(), v.remove(p), tt, up);
        }
        lemma_both_ways(hours.drop_last(), tt);
    }
}

/// What is told of hours by the day counts their bytes, whichever days they belong to.
proof fn lemma_days_count_hours(
    hours: Seq<AggregatedBucket>,
    v: Seq<AggregatedBucket>,
    tt: HistoryTrafficType,
)
    requires
        tells(hours, AggregateBucket::Daily, v),
    ensures
        both_ways(v, tt) == both_ways(hours, tt),
{
    let (days, by_day) = choose|days: Seq<(u64, u64)>, by_day: Seq<AggregatedBucket>|
        may_be_days(hours, days) && #[trigger] lists_days(by_day, day_map(hours, days)) && v
            == all_finalized(by_day);
    lemma_both_ways(v, tt);
    lemma_both_ways(hours, tt);
    lemma_finalized_amounts(by_day, tt, true);
    lemma_finalized_amounts(by_day, tt, false);
    lemma_days_keep_bytes(hours, days, by_day, tt, true);
    lemma_days_keep_bytes(hours, days, by_day, tt, false);
}

/// Whether a list tells devices in the order of their traffic, the first so many.
pub open spec fn ranks(v: Seq<UsageRankingItem>, rows: Seq<UsageModel>, limit: Option<usize>) -> bool {
    exists|all: Seq<UsageRankingItem>| #[trigger]
        ordered(all) && usage_views(all).to_multiset() == rows.to_multiset() && v == all.take(
            limited(all.len(), limit),
        )
}

/// The buckets that were found of each device.
pub open spec fn buckets_of(found: Seq<Option<Vec<AggregatedBucket>>>) -> Seq<Seq<AggregatedBucket>> {
    Seq::new(
        found.len(),
        |i: int|
            match found[i] {
                Some(v) => v@,
                None => Seq::empty(),
            },
    )
}

/// The devices by their traffic, the first so many, from the buckets that were found
/// of each device. There is no answer where none were found of a device that is asked
/// for.
pub fn rank_usage(
    registry: &DeviceRegistry,
    req: &UsageRequest,
    found: &Vec<Option<Vec<AggregatedBucket>>>,
) -> (r: Option<Vec<UsageRankingItem>>)
    requires
        found@.len() == registry.entries.entries@.len(),
    ensures
        r is None <==> exists|i: int|
            0 <= i < found@.len() && is_on(registry.entries.entries@[i], req.only) && (
            #[trigger] found@[i]) is None,
        r matches Some(v) ==> ranks(
            v@,
            usage_rows(
                registry.entries.entries@,
                req.only,
                buckets_of(found@),
                req.traffic_type,
            ),
            req.limit,
        ),
{
    let entries = &registry.entries.entries;
    let ghost es = entries@;
    let ghost bs = buckets_of(found@);
    let tt = req.traffic_type;
    let mut list: Vec<UsageRankingItem> = Vec::new();
    let mut i: usize = 0;
    assert(es.take(0) =~= Seq::empty());
    assert(usage_views(list@) =~= usage_rows(es.take(0), req.only, bs, tt));
    while i < entries.len()
        invariant
            i <= entries@.len(),
            es == entries@,
            es == registry.entries.entries@,
            bs == buckets_of(found@),
            found@.len() == es.len(),
            tt == req.traffic_type,
            forall|j: int|
                0 <= j < i && is_on(es[j], req.only) ==> (#[trigger] found@[j]) is Some,
            usage_views(list@) == usage_rows(es.take(i as int), req.only, bs, tt),
        decreases entries@.len() - i,
    {
        assert(es.take(i + 1).drop_last() =~= es.take(i as int));
        assert(es.take(i + 1).last() == es[i as int]);
        if is_wanted(&entries[i].0, req.only) {
            match &found[i] {
                Some(v) => {
                    let text = mac::to_string(&entries[i].0.1);
                    assert(bs[i as int] == v@);
                    if let Some(x) = usage_item(&entries[i].1, text, v, tt) {
                        let ghost l = usage_views(list@);
                        let ghost xv = x@;
                        list.push(x);
                        assert(usage_views(list@) =~= l.push(xv));
                    }
                },
                None => {
                    assert(found@[i as int] is None);
                    return None;
                },
            }
        }
        i += 1;
    }
    assert(es.take(i as int) =~= es);
    let ghost unsorted = list@;
    let mut r = arrange(list);
    let ghost all = r@;
    proof {
        law_arranged_is_ordered(unsorted);
        lemma_same_mapped(all, unsorted, |x: UsageRankingItem| x@);
    }
    assert(ordered(all));
    if let Some(l) = req.limit {
        r.truncate(l);
    }
    assert(r@ =~= all.take(limited(all.len(), req.limit)));
    Some(r)
}

fn is_wanted(key: &(u32, [u8; 6]), only: Option<u32>) -> (r: bool)
    ensures
        r == (only is None || key.0 == only->0),
{
    match only {
        Some(o) => key.0 == o,
        None => true,
    }
}

/// The devices by their traffic in a range of time, the first so many. Traffic is
/// taken by local days, which does not change how much it is: it is that of the hours
/// in the range. There is no answer where the local calendar skips or repeats the start
/// or the end of a day, which can be only where such an hour starts in the calendar.
pub fn usage_ranking(histogram: &HistogramHistory, registry: &DeviceRegistry, req: &UsageRequest) -> (r:
    Option<Vec<UsageRankingItem>>)
    requires
        histogram.wf(),
    ensures
        ({
            let es = registry.entries.entries@;
            let hs = hours_each(*histogram, es, req.start_ms, req.end_ms);
            match r {
                Some(v) => ranks(v@, usage_rows(es, req.only, hs, req.traffic_type), req.limit),
                None => calendar_met(es, req.only, hs),
            }
        }),
{
    let entries = &registry.entries.entries;
    let ghost es = entries@;
    let ghost hs = hours_each(*histogram, es, req.start_ms, req.end_ms);
    let tt = req.traffic_type;
    let mut found: Vec<Option<Vec<AggregatedBucket>>> = Vec::new();
    let mut i: usize = 0;
    while i < entries.len()
        invariant
            i <= entries@.len(),
            es == entries@,
            es == registry.entries.entries@,
            hs == hours_each(*histogram, es, req.start_ms, req.end_ms),
            tt == req.traffic_type,
            histogram.wf(),
            found@.len() == i,
            forall|j: int|
                0 <= j < i && is_on(es[j], req.only) ==> match #[trigger] found@[j] {
                    Some(v) => both_ways(v@, tt) == both_ways(hs[j], tt),
                    None => meets_calendar(hs[j]),
                },
        decreases entries@.len() - i,
    {
        let key = &entries[i].0;
        if is_wanted(key, req.only) {
            let text = mac::to_string(&key.1);
            let days = histogram.query_aggregate(
                key.0,
                Some(text.as_str()),
                req.start_ms,
                req.end_ms,
                AggregateBucket::Daily,
            );
            proof {
                if days is Some {
                    lemma_days_count_hours(hs[i as int], days->0@, tt);
                }
            }
            found.push(days);
        } else {
            found.push(None);
        }
        i += 1;
    }
    let r = rank_usage(registry, req, &found);
    proof {
        if r is None {
            let i = choose|i: int|
                0 <= i < found@.len() && is_on(es[i], req.only) && (#[trigger] found@[i]) is None;
            assert(is_on(es[i], req.only) && meets_calendar(hs[i]));
        } else {
            let bs = buckets_of(found@);
            assert forall|j: int| 0 <= j < es.len() && is_on(es[j], req.only) implies both_ways(
                #[trigger] bs[j],
                tt,
            ) == both_ways(hs[j], tt) by {
                assert(found@[j] is Some);
            }
            lemma_rows_by_bytes(es, req.only, bs, hs, tt);
        }
    }
    r
}

} // verus!

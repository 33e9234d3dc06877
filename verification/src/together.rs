//! What is told of the devices of an interface together, number by number.
use crate::bucket::{AggregatedBucket, HistoryTrafficType};
use crate::mac::mac_text;
use crate::runtime::KnownModel;
use crate::sort::{ordered, Ranked};
use crate::text::text_less;
use crate::usage::{
    both_ways, limited, lists_windows, of_devices_on, of_type, ranks, usage_of, usage_rows,
    usage_views, window_before, window_of, windows, windows_with, Entry, UsageModel,
    UsageRankingItem,
};
use vstd::prelude::*;

verus! {

/// A number of a bucket that is added up over devices.
#[derive(Clone, Copy, Debug, PartialEq, Eq, Structural)]
pub enum Column {
    UpV4Bytes,
    UpV6Bytes,
    DownV4Bytes,
    DownV6Bytes,
    UpV4BpsAvg,
    UpV6BpsAvg,
    DownV4BpsAvg,
    DownV6BpsAvg,
    UpV4BpsMax,
    UpV6BpsMax,
    DownV4BpsMax,
    DownV6BpsMax,
    UpV4BpsMin,
    UpV6BpsMin,
    DownV4BpsMin,
    DownV6BpsMin,
    UpV4BpsP95,
    UpV6BpsP95,
    DownV4BpsP95,
    DownV6BpsP95,
}

/// A number of a bucket.
pub open spec fn column(b: AggregatedBucket, c: Column) -> u64 {
    match c {
        Column::UpV4Bytes => b.up_v4_bytes,
        Column::UpV6Bytes => b.up_v6_bytes,
        Column::DownV4Bytes => b.down_v4_bytes,
        Column::DownV6Bytes => b.down_v6_bytes,
        Column::UpV4BpsAvg => b.up_v4_bps_avg,
        Column::UpV6BpsAvg => b.up_v6_bps_avg,
        Column::DownV4BpsAvg => b.down_v4_bps_avg,
        Column::DownV6BpsAvg => b.down_v6_bps_avg,
        Column::UpV4BpsMax => b.up_v4_bps_max,
        Column::UpV6BpsMax => b.up_v6_bps_max,
        Column::DownV4BpsMax => b.down_v4_bps_max,
        Column::DownV6BpsMax => b.down_v6_bps_max,
        Column::UpV4BpsMin => b.up_v4_bps_min,
        Column::UpV6BpsMin => b.up_v6_bps_min,
        Column::DownV4BpsMin => b.down_v4_bps_min,
        Column::DownV6BpsMin => b.down_v6_bps_min,
        Column::UpV4BpsP95 => b.up_v4_bps_p95,
        Column::UpV6BpsP95 => b.up_v6_bps_p95,
        Column::DownV4BpsP95 => b.down_v4_bps_p95,
        Column::DownV6BpsP95 => b.down_v6_bps_p95,
    }
}

/// What buckets have in a column, of those with a start and an end, added up.
pub open spec fn added(s: Seq<AggregatedBucket>, start: u64, end: u64, c: Column) -> int
    decreases s.len(),
{
    if s.len() == 0 {
        0
    } else {
        added(s.drop_last(), start, end, c) + if s.last().start_ts_ms == start && s.last().end_ts_ms
            == end {
            column(s.last(), c) as int
        } else {
            0
        }
    }
}

/// What the buckets of devices have in a column, of those with a start and an end, added
/// up over the devices of an interface.
pub open spec fn added_on(
    es: Seq<Entry>,
    ifindex: u32,
    bs: Seq<Seq<AggregatedBucket>>,
    start: u64,
    end: u64,
    c: Column,
) -> int
    decreases es.len(),
{
    if es.len() == 0 {
        0
    } else {
        added_on(es.drop_last(), ifindex, bs, start, end, c) + if es.last().0.0 == ifindex {
            added(bs[es.len() - 1], start, end, c)
        } else {
            0
        }
    }
}

/// Whether a device of an interface has a bucket with a start and an end.
pub open spec fn told_on(
    es: Seq<Entry>,
    ifindex: u32,
    bs: Seq<Seq<AggregatedBucket>>,
    start: u64,
    end: u64,
) -> bool {
    exists|i: int, j: int|
        0 <= i < es.len() && 0 <= j < bs[i].len() && es[i].0.0 == ifindex && (
        #[trigger] bs[i][j]).start_ts_ms == start && bs[i][j].end_ts_ms == end
}

/// What buckets have in a column, of a list of lists.
spec fn added_all(
    lists: Seq<Seq<AggregatedBucket>>,
    start: u64,
    end: u64,
    c: Column,
) -> int
    decreases lists.len(),
{
    if lists.len() == 0 {
        0
    } else {
        added_all(lists.drop_last(), start, end, c) + added(lists.last(), start, end, c)
    }
}

spec fn told_in(s: Seq<AggregatedBucket>, start: u64, end: u64) -> bool {
    exists|j: int|
        0 <= j < s.len() && (#[trigger] s[j]).start_ts_ms == start && s[j].end_ts_ms == end
}

spec fn told_all(lists: Seq<Seq<AggregatedBucket>>, start: u64, end: u64) -> bool {
    exists|i: int| 0 <= i < lists.len() && told_in(#[trigger] lists[i], start, end)
}

/// What a window stands at in a column, zero where it is not there.
spec fn stands(m: Map<(u64, u64), AggregatedBucket>, w: (u64, u64), c: Column) -> int {
    if m.dom().contains(w) {
        column(m[w], c) as int
    } else {
        0
    }
}

spec fn least_of(a: int, b: int) -> int {
    if a < b {
        a
    } else {
        b
    }
}

proof fn lemma_added_counts(s: Seq<AggregatedBucket>, start: u64, end: u64, c: Column)
    ensures
        added(s, start, end, c) >= 0,
    decreases s.len(),
{
    if s.len() > 0 {
        lemma_added_counts(s.drop_last(), start, end, c);
    }
}

proof fn lemma_told_last(s: Seq<AggregatedBucket>, start: u64, end: u64)
    requires
        s.len() > 0,
    ensures
        told_in(s, start, end) <==> told_in(s.drop_last(), start, end) || (s.last().start_ts_ms
            == start && s.last().end_ts_ms == end),
{
    let t = s.drop_last();
    if told_in(t, start, end) {
        let j = choose|j: int|
            0 <= j < t.len() && (#[trigger] t[j]).start_ts_ms == start && t[j].end_ts_ms == end;
        assert(s[j].start_ts_ms == start);
    }
    if told_in(s, start, end) {
        let j = choose|j: int|
            0 <= j < s.len() && (#[trigger] s[j]).start_ts_ms == start && s[j].end_ts_ms == end;
        if j < t.len() {
            assert(t[j].start_ts_ms == start);
        }
    }
    assert(s[s.len() - 1] == s.last());
}

proof fn lemma_windows_with(
    m: Map<(u64, u64), AggregatedBucket>,
    s: Seq<AggregatedBucket>,
    start: u64,
    end: u64,
    c: Column,
)
    ensures
        ({
            let r = windows_with(m, s);
            let w = (start, end);
            &&& stands(r, w, c) == least_of(
                stands(m, w, c) + added(s, start, end, c),
                u64::MAX as int,
            )
            &&& r.dom().contains(w) <==> m.dom().contains(w) || told_in(s, start, end)
        }),
    decreases s.len(),
{
    if s.len() > 0 {
        lemma_windows_with(m, s.drop_last(), start, end, c);
        lemma_added_counts(s.drop_last(), start, end, c);
        lemma_told_last(s, start, end);
    }
}

proof fn lemma_windows(
    lists: Seq<Seq<AggregatedBucket>>,
    start: u64,
    end: u64,
    c: Column,
)
    ensures
        ({
            let r = windows(lists);
            let w = (start, end);
            &&& stands(r, w, c) == least_of(
                added_all(lists, start, end, c),
                u64::MAX as int,
            )
            &&& r.dom().contains(w) <==> told_all(lists, start, end)
            &&& added_all(lists, start, end, c) >= 0
        }),
    decreases lists.len(),
{
    if lists.len() > 0 {
        let front = lists.drop_last();
        lemma_windows(front, start, end, c);
        lemma_windows_with(windows(front), lists.last(), start, end, c);
        lemma_added_counts(lists.last(), start, end, c);
        if told_all(front, start, end) {
            let i = choose|i: int| 0 <= i < front.len() && told_in(#[trigger] front[i], start, end);
            assert(told_in(lists[i], start, end));
        }
        if told_all(lists, start, end) {
            let i = choose|i: int| 0 <= i < lists.len() && told_in(#[trigger] lists[i], start, end);
            if i < front.len() {
                assert(told_in(front[i], start, end));
            }
        }
        assert(lists[lists.len() - 1] == lists.last());
    }
}

proof fn lemma_on(
    es: Seq<Entry>,
    ifindex: u32,
    bs: Seq<Seq<AggregatedBucket>>,
    start: u64,
    end: u64,
    c: Column,
)
    ensures
        added_all(of_devices_on(es, Some(ifindex), bs), start, end, c) == added_on(
            es,
            ifindex,
            bs,
            start,
            end,
            c,
        ),
        told_all(of_devices_on(es, Some(ifindex), bs), start, end) <==> told_on(
            es,
            ifindex,
            bs,
            start,
            end,
        ),
    decreases es.len(),
{
    let l = of_devices_on(es, Some(ifindex), bs);
    if es.len() > 0 {
        let front = es.drop_last();
        let n = es.len() - 1;
        lemma_on(front, ifindex, bs, start, end, c);
        let k = of_devices_on(front, Some(ifindex), bs);
        if told_on(front, ifindex, bs, start, end) {
            let (i, j) = choose|i: int, j: int|
                0 <= i < front.len() && 0 <= j < bs[i].len() && front[i].0.0 == ifindex && (
                #[trigger] bs[i][j]).start_ts_ms == start && bs[i][j].end_ts_ms == end;
            assert(es[i] == front[i]);
            assert(bs[i][j].start_ts_ms == start);
        }
        if told_on(es, ifindex, bs, start, end) {
            let (i, j) = choose|i: int, j: int|
                0 <= i < es.len() && 0 <= j < bs[i].len() && es[i].0.0 == ifindex && (
                #[trigger] bs[i][j]).start_ts_ms == start && bs[i][j].end_ts_ms == end;
            if i < n {
                assert(front[i] == es[i]);
            } else {
                assert(told_in(bs[n], start, end));
            }
        }
        assert(es[n] == es.last());
        if es.last().0.0 == ifindex {
            assert(l.drop_last() =~= k);
            assert(l.last() == bs[n]);
            if told_in(bs[n], start, end) {
                let j = choose|j: int|
                    0 <= j < bs[n].len() && (#[trigger] bs[n][j]).start_ts_ms == start
                        && bs[n][j].end_ts_ms == end;
                assert(es[n].0.0 == ifindex && bs[n][j].start_ts_ms == start);
                assert(told_in(l[l.len() - 1], start, end));
            }
            if told_all(k, start, end) {
                let i = choose|i: int| 0 <= i < k.len() && told_in(#[trigger] k[i], start, end);
                assert(l[i] == k[i]);
                assert(told_in(l[i], start, end));
            }
            if told_all(l, start, end) {
                let i = choose|i: int| 0 <= i < l.len() && told_in(#[trigger] l[i], start, end);
                if i < k.len() {
                    assert(told_in(k[i], start, end));
                }
            }
        }
    }
}

proof fn lemma_window_listed(
    v: Seq<AggregatedBucket>,
    m: Map<(u64, u64), AggregatedBucket>,
    w: (u64, u64),
) -> (p: int)
    requires
        lists_windows(v, m),
        m.dom().finite(),
        m.dom().contains(w),
    ensures
        0 <= p < v.len(),
        v[p].start_ts_ms == w.0,
        v[p].end_ts_ms == w.1,
{
    let keys = Seq::new(v.len(), |i: int| (v[i].start_ts_ms, v[i].end_ts_ms));
    assert(keys.no_duplicates()) by {
        assert forall|i: int, j: int| 0 <= i < j < keys.len() implies keys[i] != keys[j] by {
            assert(window_before(
                window_of(v[i]),
                window_of(v[j]),
            ));
        }
    }
    keys.unique_seq_to_set();
    assert(keys.to_set().subset_of(m.dom())) by {
        assert forall|k: (u64, u64)| keys.to_set().contains(k) implies m.dom().contains(k) by {
            let i = choose|i: int| 0 <= i < keys.len() && keys[i] == k;
            assert(m.dom().contains(window_of(v[i])));
        }
    }
    vstd::set_lib::lemma_subset_equality(keys.to_set(), m.dom());
    assert(keys.contains(w));
    choose|i: int| 0 <= i < keys.len() && keys[i] == w
}

proof fn lemma_windows_finite(lists: Seq<Seq<AggregatedBucket>>)
    ensures
        windows(lists).dom().finite(),
    decreases lists.len(),
{
    if lists.len() > 0 {
        lemma_windows_finite(lists.drop_last());
        lemma_with_finite(windows(lists.drop_last()), lists.last());
    }
}

proof fn lemma_with_finite(m: Map<(u64, u64), AggregatedBucket>, s: Seq<AggregatedBucket>)
    requires
        m.dom().finite(),
    ensures
        windows_with(m, s).dom().finite(),
    decreases s.len(),
{
    if s.len() > 0 {
        lemma_with_finite(m, s.drop_last());
    }
}

/// What is told of an interface's devices together: for every stretch of time that one of
/// its devices has a bucket of, one bucket, in their order, and no other. Every number of
/// it is the sum of that number over the buckets of the interface's devices with that
/// stretch, up to the largest one a counter holds.
pub proof fn law_devices_add_up(
    es: Seq<Entry>,
    ifindex: u32,
    bs: Seq<Seq<AggregatedBucket>>,
    v: Seq<AggregatedBucket>,
)
    requires
        lists_windows(v, windows(of_devices_on(es, Some(ifindex), bs))),
    ensures
        forall|i: int, c: Column|
            0 <= i < v.len() ==> #[trigger] column(v[i], c) == ({
                let sum = added_on(es, ifindex, bs, v[i].start_ts_ms, v[i].end_ts_ms, c);
                if sum > u64::MAX {
                    u64::MAX as int
                } else {
                    sum
                }
            }),
        forall|start: u64, end: u64| #[trigger]
            told_on(es, ifindex, bs, start, end) <==> exists|i: int|
                0 <= i < v.len() && (#[trigger] v[i]).start_ts_ms == start && v[i].end_ts_ms == end,
        forall|i: int, j: int|
            0 <= i < j < v.len() ==> (#[trigger] v[i]).start_ts_ms < (
            #[trigger] v[j]).start_ts_ms || (v[i].start_ts_ms == v[j].start_ts_ms
                && v[i].end_ts_ms < v[j].end_ts_ms),
{
    let l = of_devices_on(es, Some(ifindex), bs);
    let m = windows(l);
    lemma_windows_finite(l);
    assert forall|i: int, c: Column| 0 <= i < v.len() implies #[trigger] column(v[i], c) == ({
        let sum = added_on(es, ifindex, bs, v[i].start_ts_ms, v[i].end_ts_ms, c);
        if sum > u64::MAX {
            u64::MAX as int
        } else {
            sum
        }
    }) by {
        let (start, end) = (v[i].start_ts_ms, v[i].end_ts_ms);
        lemma_windows(l, start, end, c);
        lemma_on(es, ifindex, bs, start, end, c);
        assert(m.dom().contains(window_of(v[i])));
    }
    assert forall|start: u64, end: u64| #[trigger]
        told_on(es, ifindex, bs, start, end) <==> exists|i: int|
            0 <= i < v.len() && (#[trigger] v[i]).start_ts_ms == start && v[i].end_ts_ms == end by {
        lemma_windows(l, start, end, Column::UpV4Bytes);
        lemma_on(es, ifindex, bs, start, end, Column::UpV4Bytes);
        if told_on(es, ifindex, bs, start, end) {
            let p = lemma_window_listed(v, m, (start, end));
        }
        if exists|i: int|
            0 <= i < v.len() && (#[trigger] v[i]).start_ts_ms == start && v[i].end_ts_ms == end {
            let i = choose|i: int|
                0 <= i < v.len() && (#[trigger] v[i]).start_ts_ms == start && v[i].end_ts_ms == end;
            assert(m.dom().contains(window_of(v[i])));
        }
    }
    assert forall|i: int, j: int| 0 <= i < j < v.len() implies (#[trigger] v[i]).start_ts_ms < (
    #[trigger] v[j]).start_ts_ms || (v[i].start_ts_ms == v[j].start_ts_ms && v[i].end_ts_ms
        < v[j].end_ts_ms) by {
        assert(window_before(
            window_of(v[i]),
            window_of(v[j]),
        ));
    }
}

/// Whether a number counts traffic of IPv4.
pub open spec fn is_v4(c: Column) -> bool {
    match c {
        Column::UpV4Bytes => true,
        Column::DownV4Bytes => true,
        Column::UpV4BpsAvg => true,
        Column::DownV4BpsAvg => true,
        Column::UpV4BpsMax => true,
        Column::DownV4BpsMax => true,
        Column::UpV4BpsMin => true,
        Column::DownV4BpsMin => true,
        Column::UpV4BpsP95 => true,
        Column::DownV4BpsP95 => true,
        _ => false,
    }
}

/// Of a kind of traffic a bucket keeps just the numbers of its IP version, and of all
/// traffic it keeps everything.
pub proof fn law_kind_keeps_its_version(b: AggregatedBucket, c: Column)
    ensures
        of_type(b, HistoryTrafficType::All) == b,
        column(of_type(b, HistoryTrafficType::Ipv4), c) == if is_v4(c) {
            column(b, c)
        } else {
            0
        },
        column(of_type(b, HistoryTrafficType::Ipv6), c) == if is_v4(c) {
            0
        } else {
            column(b, c)
        },
        forall|tt: HistoryTrafficType| (#[trigger] of_type(b, tt)).start_ts_ms == b.start_ts_ms,
        forall|tt: HistoryTrafficType| (#[trigger] of_type(b, tt)).end_ts_ms == b.end_ts_ms,
{
}

/// The bytes of buckets one way, of a kind of traffic, added up.
pub open spec fn moved(s: Seq<AggregatedBucket>, tt: HistoryTrafficType, up: bool) -> int
    decreases s.len(),
{
    if s.len() == 0 {
        0
    } else {
        let b = s.last();
        let v4 = if up {
            b.up_v4_bytes
        } else {
            b.down_v4_bytes
        };
        let v6 = if up {
            b.up_v6_bytes
        } else {
            b.down_v6_bytes
        };
        moved(s.drop_last(), tt, up) + match tt {
            HistoryTrafficType::All => v4 + v6,
            HistoryTrafficType::Ipv4 => v4 as int,
            HistoryTrafficType::Ipv6 => v6 as int,
        }
    }
}

/// A number of bytes as a counter tells it.
pub open spec fn told(n: int) -> int {
    if n > u64::MAX {
        u64::MAX as int
    } else {
        n
    }
}

proof fn lemma_moved(s: Seq<AggregatedBucket>, tt: HistoryTrafficType)
    ensures
        moved(s, tt, true) >= 0,
        moved(s, tt, false) >= 0,
        both_ways(s, tt).0 == told(moved(s, tt, true)),
        both_ways(s, tt).1 == told(moved(s, tt, false)),
    decreases s.len(),
{
    if s.len() > 0 {
        lemma_moved(s.drop_last(), tt);
    }
}

/// What is told of a device's traffic is what its buckets hold, up and down, of the kind
/// that is asked for; a device without any is not told.
pub proof fn law_usage_is_what_was_moved(
    known: KnownModel,
    mac: Seq<char>,
    s: Seq<AggregatedBucket>,
    tt: HistoryTrafficType,
)
    ensures
        usage_of(known, mac, s, tt) is Some <==> moved(s, tt, true) + moved(s, tt, false) > 0,
        usage_of(known, mac, s, tt) matches Some(x) ==> {
            &&& x.mac == mac
            &&& x.iface == known.logical_iface
            &&& x.hostname == known.hostname
            &&& x.ipv4 == known.ipv4
            &&& x.ipv6 == known.ipv6
            &&& x.up_bytes == told(moved(s, tt, true))
            &&& x.down_bytes == told(moved(s, tt, false))
            &&& x.total_bytes == told(moved(s, tt, true) + moved(s, tt, false))
        },
{
    lemma_moved(s, tt);
}

/// Whether a device that is asked for moved anything.
pub open spec fn busy(
    es: Seq<Entry>,
    only: Option<u32>,
    hs: Seq<Seq<AggregatedBucket>>,
    tt: HistoryTrafficType,
    i: int,
) -> bool {
    &&& only matches Some(k) ==> es[i].0.0 == k
    &&& moved(hs[i], tt, true) + moved(hs[i], tt, false) > 0
}

/// Whether a row is that of a device.
pub open spec fn is_row_of(
    x: UsageModel,
    es: Seq<Entry>,
    hs: Seq<Seq<AggregatedBucket>>,
    tt: HistoryTrafficType,
    i: int,
) -> bool {
    &&& x.mac == mac_text(es[i].0.1@)
    &&& x.up_bytes == told(moved(hs[i], tt, true))
    &&& x.down_bytes == told(moved(hs[i], tt, false))
    &&& x.total_bytes == told(moved(hs[i], tt, true) + moved(hs[i], tt, false))
}

/// Whether a row is that of a device that is asked for and moved something.
pub open spec fn is_row_of_busy(
    x: UsageModel,
    es: Seq<Entry>,
    only: Option<u32>,
    hs: Seq<Seq<AggregatedBucket>>,
    tt: HistoryTrafficType,
) -> bool {
    exists|j: int|
        0 <= j < es.len() && #[trigger] busy(es, only, hs, tt, j) && is_row_of(x, es, hs, tt, j)
}

/// Whether rows tell a device.
pub open spec fn rows_tell(
    v: Seq<UsageRankingItem>,
    es: Seq<Entry>,
    hs: Seq<Seq<AggregatedBucket>>,
    tt: HistoryTrafficType,
    j: int,
) -> bool {
    exists|i: int| 0 <= i < v.len() && is_row_of((#[trigger] v[i])@, es, hs, tt, j)
}

/// Whether every row tells at least so many bytes.
pub open spec fn rows_reach(v: Seq<UsageRankingItem>, bytes: int) -> bool {
    forall|i: int| 0 <= i < v.len() ==> (#[trigger] v[i]).total_bytes >= bytes
}

proof fn lemma_row_is_of_device(
    es: Seq<Entry>,
    only: Option<u32>,
    hs: Seq<Seq<AggregatedBucket>>,
    tt: HistoryTrafficType,
    x: UsageModel,
) -> (i: int)
    requires
        usage_rows(es, only, hs, tt).contains(x),
    ensures
        0 <= i < es.len(),
        busy(es, only, hs, tt, i),
        is_row_of(x, es, hs, tt, i),
    decreases es.len(),
{
    let rows = usage_rows(es, only, hs, tt);
    if es.len() == 0 {
        assert(rows.len() == 0);
        0
    } else {
        let n = es.len() - 1;
        let front = usage_rows(es.drop_last(), only, hs, tt);
        let e = es.last();
        law_usage_is_what_was_moved(e.1@, mac_text(e.0.1@), hs[n], tt);
        if front.contains(x) {
            let i = lemma_row_is_of_device(es.drop_last(), only, hs, tt, x);
            assert(es.drop_last()[i] == es[i]);
            i
        } else {
            let k = choose|k: int| 0 <= k < rows.len() && rows[k] == x;
            if k < front.len() {
                assert(front[k] == x);
            }
            n
        }
    }
}

proof fn lemma_device_has_row(
    es: Seq<Entry>,
    only: Option<u32>,
    hs: Seq<Seq<AggregatedBucket>>,
    tt: HistoryTrafficType,
    i: int,
) -> (x: UsageModel)
    requires
        0 <= i < es.len(),
        busy(es, only, hs, tt, i),
    ensures
        usage_rows(es, only, hs, tt).contains(x),
        is_row_of(x, es, hs, tt, i),
    decreases es.len(),
{
    let rows = usage_rows(es, only, hs, tt);
    let n = es.len() - 1;
    let front = usage_rows(es.drop_last(), only, hs, tt);
    let e = es.last();
    law_usage_is_what_was_moved(e.1@, mac_text(e.0.1@), hs[n], tt);
    if i == n {
        let x = usage_of(e.1@, mac_text(e.0.1@), hs[n], tt)->0;
        assert(rows[front.len() as int] == x);
        x
    } else {
        assert(es.drop_last()[i] == es[i]);
        let x = lemma_device_has_row(es.drop_last(), only, hs, tt, i);
        let k = choose|k: int| 0 <= k < front.len() && front[k] == x;
        assert(rows[k] == x);
        x
    }
}

/// The devices by their traffic: more traffic comes first, and of equal traffic the lesser
/// address. Every row is that of a device that is asked for and moved something, with the
/// bytes it moved; and such a device is left out only where as many are told as are asked
/// for, all with at least its traffic.
#[verifier::spinoff_prover]
#[verifier::rlimit(40)]
pub proof fn law_ranking_tells_the_busiest(
    es: Seq<Entry>,
    only: Option<u32>,
    hs: Seq<Seq<AggregatedBucket>>,
    tt: HistoryTrafficType,
    limit: Option<usize>,
    v: Seq<UsageRankingItem>,
)
    requires
        ranks(v, usage_rows(es, only, hs, tt), limit),
    ensures
        forall|i: int, j: int|
            0 <= i < j < v.len() ==> (#[trigger] v[i]).total_bytes >= (
            #[trigger] v[j]).total_bytes,
        forall|i: int, j: int|
            0 <= i < j < v.len() && (#[trigger] v[i]).total_bytes == (
            #[trigger] v[j]).total_bytes ==> !text_less(v[j].mac@, v[i].mac@),
        limit matches Some(n) ==> v.len() <= n,
        forall|i: int|
            0 <= i < v.len() ==> is_row_of_busy((#[trigger] v[i])@, es, only, hs, tt),
        forall|j: int|
            0 <= j < es.len() && #[trigger] busy(es, only, hs, tt, j) ==> rows_tell(
                v,
                es,
                hs,
                tt,
                j,
            ) || (limit == Some(v.len() as usize) && rows_reach(
                v,
                told(moved(hs[j], tt, true) + moved(hs[j], tt, false)),
            )),
{
    broadcast use vstd::seq_lib::group_to_multiset_ensures;

    let rows = usage_rows(es, only, hs, tt);
    let all = choose|all: Seq<UsageRankingItem>| #[trigger]
        ordered(all) && usage_views(all).to_multiset() == rows.to_multiset() && v == all.take(
            limited(all.len(), limit),
        );
    let views = usage_views(all);
    assert forall|i: int, j: int| 0 <= i < j < v.len() implies (#[trigger] v[i]).total_bytes >= (
    #[trigger] v[j]).total_bytes by {
        assert(!all[j].precedes(all[i]));
    }
    assert forall|i: int, j: int|
        0 <= i < j < v.len() && (#[trigger] v[i]).total_bytes == (
        #[trigger] v[j]).total_bytes implies !text_less(v[j].mac@, v[i].mac@) by {
        assert(!all[j].precedes(all[i]));
    }
    assert forall|i: int| 0 <= i < v.len() implies is_row_of_busy(
        (#[trigger] v[i])@,
        es,
        only,
        hs,
        tt,
    ) by {
        assert(views[i] == v[i]@);
        assert(views.to_multiset().contains(views[i]));
        assert(rows.contains(v[i]@));
        let j = lemma_row_is_of_device(es, only, hs, tt, v[i]@);
        assert(busy(es, only, hs, tt, j));
    }
    assert forall|j: int| 0 <= j < es.len() && #[trigger] busy(es, only, hs, tt, j) implies rows_tell(
        v,
        es,
        hs,
        tt,
        j,
    ) || (limit == Some(v.len() as usize) && rows_reach(
        v,
        told(moved(hs[j], tt, true) + moved(hs[j], tt, false)),
    )) by {
        let x = lemma_device_has_row(es, only, hs, tt, j);
        assert(rows.to_multiset().contains(x));
        assert(views.contains(x));
        let k = choose|k: int| 0 <= k < views.len() && views[k] == x;
        assert(all[k]@ == x);
        if k < v.len() {
            assert(is_row_of(v[k]@, es, hs, tt, j));
        } else {
            assert forall|i: int| 0 <= i < v.len() implies (#[trigger] v[i]).total_bytes >= told(
                moved(hs[j], tt, true) + moved(hs[j], tt, false),
            ) by {
                assert(!all[k].precedes(all[i]));
            }
        }
    }
}

} // verus!

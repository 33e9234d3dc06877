//! What the rows of a snapshot tell, told by the counters behind them.
use crate::bucket::CounterQuad;
use crate::collect::{
    iface_counted, iface_metrics, ifaces_counted, rows_built, IfaceDelta,
};
use crate::history::quad_at;
use crate::hours::{
    capped, lane_of, law_traffic_goes_into_its_lane, sample_bytes, sample_rate, Lane,
};
use crate::keys::{DeviceTrafficKey, InterfaceTrafficKey, TrafficValue};
use crate::mac::mac_text;
use crate::offload::{flow_step, holding_ifaces, with_flow, FlowModel, ShareModel};
use crate::rows::{
    devices_counted, row_filled, rows_filled, rows_totalled, totals_with,
};
use crate::runtime::KnownModel;
use crate::snapshot::DeviceModel;
use crate::text::trimmed;
use crate::topology::{find_index, InterfaceModel};
use vstd::prelude::*;

verus! {

/// How far a counter went since it stood at a value, if it was seen before. One that fell
/// was reset and counts from zero.
pub open spec fn grown<KV>(now: u64, prev: Map<KV, u64>, k: KV) -> int {
    if prev.dom().contains(k) && prev[k] <= now {
        now - prev[k]
    } else {
        now as int
    }
}

/// The bytes that the counters of an interface grew by in a lane.
pub open spec fn iface_moved(
    stats: Seq<(InterfaceTrafficKey, TrafficValue)>,
    prev: Map<(u32, u8, u8, Seq<u8>), u64>,
    ifindex: u32,
    lane: Lane,
) -> int
    decreases stats.len(),
{
    if stats.len() == 0 {
        0
    } else {
        let (k, v) = stats.last();
        iface_moved(stats.drop_last(), prev, ifindex, lane) + (if k.ifindex == ifindex && lane_of(
            k.ip_version,
            k.direction,
        ) == Some(lane) {
            grown(v.bytes, prev, k@)
        } else {
            0
        })
    }
}

/// Whether each counter stands once in a list.
pub open spec fn each_once(stats: Seq<(InterfaceTrafficKey, TrafficValue)>) -> bool {
    forall|i: int, j: int|
        0 <= i < j < stats.len() ==> (#[trigger] stats[i]).0@ != (#[trigger] stats[j]).0@
}

spec fn delta_sum(d: Seq<IfaceDelta>, ifindex: u32, lane: Lane) -> int
    decreases d.len(),
{
    if d.len() == 0 {
        0
    } else {
        delta_sum(d.drop_last(), ifindex, lane) + (if d.last().ifindex == ifindex && lane_of(
            d.last().ip_version,
            d.last().direction,
        ) == Some(lane) {
            d.last().bytes as int
        } else {
            0
        })
    }
}

proof fn lemma_delta_sum_join(a: Seq<IfaceDelta>, b: Seq<IfaceDelta>, ifindex: u32, lane: Lane)
    ensures
        delta_sum(a + b, ifindex, lane) == delta_sum(a, ifindex, lane) + delta_sum(b, ifindex, lane),
    decreases b.len(),
{
    if b.len() == 0 {
        assert(a + b =~= a);
    } else {
        lemma_delta_sum_join(a, b.drop_last(), ifindex, lane);
        assert((a + b).drop_last() =~= a + b.drop_last());
        assert((a + b).last() == b.last());
    }
}

proof fn lemma_iface_counted(
    stats: Seq<(InterfaceTrafficKey, TrafficValue)>,
    prev: Map<(u32, u8, u8, Seq<u8>), u64>,
    ifindex: u32,
    other: u32,
    lane: Lane,
)
    requires
        each_once(stats),
    ensures
        delta_sum(iface_counted(stats, prev, ifindex).0, ifindex, lane) == iface_moved(
            stats,
            prev,
            ifindex,
            lane,
        ),
        other != ifindex ==> delta_sum(iface_counted(stats, prev, ifindex).0, other, lane) == 0,
        forall|k: (u32, u8, u8, Seq<u8>)|
            k.0 != ifindex ==> (prev.dom().contains(k) <==> #[trigger] iface_counted(
                stats,
                prev,
                ifindex,
            ).1.dom().contains(k)) && (prev.dom().contains(k) ==> iface_counted(
                stats,
                prev,
                ifindex,
            ).1[k] == prev[k]),
        forall|k: (u32, u8, u8, Seq<u8>)|
            (forall|i: int| 0 <= i < stats.len() ==> (#[trigger] stats[i]).0@ != k) ==> (
            prev.dom().contains(k) <==> #[trigger] iface_counted(
                stats,
                prev,
                ifindex,
            ).1.dom().contains(k)) && (prev.dom().contains(k) ==> iface_counted(
                stats,
                prev,
                ifindex,
            ).1[k] == prev[k]),
        forall|i: int|
            0 <= i < stats.len() && (#[trigger] stats[i]).0.ifindex == ifindex ==> iface_counted(
                stats,
                prev,
                ifindex,
            ).1.dom().contains(stats[i].0@) && iface_counted(stats, prev, ifindex).1[stats[i].0@]
                == stats[i].1.bytes,
    decreases stats.len(),
{
    if stats.len() > 0 {
        let front = stats.drop_last();
        assert(each_once(front)) by {
            assert forall|i: int, j: int| 0 <= i < j < front.len() implies (
            #[trigger] front[i]).0@ != (#[trigger] front[j]).0@ by {
                assert(front[i] == stats[i] && front[j] == stats[j]);
            }
        }
        lemma_iface_counted(front, prev, ifindex, other, lane);
        let (k, v) = stats.last();
        let (list, m) = iface_counted(front, prev, ifindex);
        let (all, n) = iface_counted(stats, prev, ifindex);
        assert forall|i: int| 0 <= i < front.len() implies (#[trigger] front[i]).0@ != k@ by {
            assert(front[i] == stats[i]);
            assert(stats[i].0@ != stats[stats.len() - 1].0@);
        }
        assert(prev.dom().contains(k@) <==> m.dom().contains(k@));
        if k.ifindex == ifindex {
            assert(all.drop_last() =~= list);
        }
        assert forall|x: (u32, u8, u8, Seq<u8>)|
            (forall|i: int| 0 <= i < stats.len() ==> (#[trigger] stats[i]).0@ != x) implies (
        prev.dom().contains(x) <==> #[trigger] n.dom().contains(x)) && (prev.dom().contains(x)
            ==> n[x] == prev[x]) by {
            assert(stats[stats.len() - 1].0@ != x);
            assert forall|i: int| 0 <= i < front.len() implies (#[trigger] front[i]).0@ != x by {
                assert(front[i] == stats[i]);
            }
            assert(prev.dom().contains(x) <==> m.dom().contains(x));
        }
        assert forall|i: int|
            0 <= i < stats.len() && (#[trigger] stats[i]).0.ifindex == ifindex implies n.dom().contains(
            stats[i].0@,
        ) && n[stats[i].0@] == stats[i].1.bytes by {
            if i < front.len() {
                assert(front[i] == stats[i]);
                assert(front[i].0@ != k@);
            }
        }
    }
}

proof fn lemma_moved_agrees(
    stats: Seq<(InterfaceTrafficKey, TrafficValue)>,
    a: Map<(u32, u8, u8, Seq<u8>), u64>,
    b: Map<(u32, u8, u8, Seq<u8>), u64>,
    ifindex: u32,
    lane: Lane,
)
    requires
        forall|k: (u32, u8, u8, Seq<u8>)|
            k.0 == ifindex ==> (a.dom().contains(k) <==> #[trigger] b.dom().contains(k)) && (
            a.dom().contains(k) ==> a[k] == b[k]),
    ensures
        iface_moved(stats, a, ifindex, lane) == iface_moved(stats, b, ifindex, lane),
    decreases stats.len(),
{
    if stats.len() > 0 {
        lemma_moved_agrees(stats.drop_last(), a, b, ifindex, lane);
        let k = stats.last().0;
        if k.ifindex == ifindex {
            assert(a.dom().contains(k@) <==> b.dom().contains(k@));
        }
    }
}

/// Whether each interface is watched once.
pub open spec fn watched_once(watched: Seq<(u32, Seq<char>)>) -> bool {
    forall|i: int, j: int|
        0 <= i < j < watched.len() ==> (#[trigger] watched[i]).0 != (#[trigger] watched[j]).0
}

proof fn lemma_watched_front(watched: Seq<(u32, Seq<char>)>)
    requires
        watched_once(watched),
        watched.len() > 0,
    ensures
        watched_once(watched.drop_last()),
        forall|i: int|
            0 <= i < watched.len() - 1 ==> (#[trigger] watched[i]).0 != watched.last().0,
{
    let front = watched.drop_last();
    assert forall|i: int, j: int| 0 <= i < j < front.len() implies (#[trigger] front[i]).0 != (
    #[trigger] front[j]).0 by {
        assert(front[i] == watched[i] && front[j] == watched[j]);
    }
    assert forall|i: int| 0 <= i < watched.len() - 1 implies (#[trigger] watched[i]).0
        != watched.last().0 by {
        assert(watched[i].0 != watched[watched.len() - 1].0);
    }
}

proof fn lemma_ifaces_counted(
    watched: Seq<(u32, Seq<char>)>,
    stats: Seq<(InterfaceTrafficKey, TrafficValue)>,
    prev: Map<(u32, u8, u8, Seq<u8>), u64>,
    lane: Lane,
)
    requires
        each_once(stats),
        watched_once(watched),
    ensures
        forall|i: int|
            0 <= i < watched.len() ==> delta_sum(
                ifaces_counted(watched, stats, prev).0,
                (#[trigger] watched[i]).0,
                lane,
            ) == iface_moved(stats, prev, watched[i].0, lane),
        forall|x: u32|
            (forall|i: int| 0 <= i < watched.len() ==> (#[trigger] watched[i]).0 != x)
                ==> #[trigger] delta_sum(ifaces_counted(watched, stats, prev).0, x, lane) == 0,
        forall|k: (u32, u8, u8, Seq<u8>)|
            (forall|i: int| 0 <= i < watched.len() ==> (#[trigger] watched[i]).0 != k.0) ==> (
            prev.dom().contains(k) <==> #[trigger] ifaces_counted(
                watched,
                stats,
                prev,
            ).1.dom().contains(k)) && (prev.dom().contains(k) ==> ifaces_counted(
                watched,
                stats,
                prev,
            ).1[k] == prev[k]),
        forall|i: int, j: int|
            0 <= i < watched.len() && 0 <= j < stats.len() && (#[trigger] stats[j]).0.ifindex == (
            #[trigger] watched[i]).0 ==> ifaces_counted(watched, stats, prev).1.dom().contains(
                stats[j].0@,
            ) && ifaces_counted(watched, stats, prev).1[stats[j].0@] == stats[j].1.bytes,
    decreases watched.len(),
{
    if watched.len() > 0 {
        let front = watched.drop_last();
        let w = watched.last().0;
        lemma_watched_front(watched);
        lemma_ifaces_counted(front, stats, prev, lane);
        let (list, m) = ifaces_counted(front, stats, prev);
        let (more, n) = iface_counted(stats, m, w);
        assert forall|i: int| 0 <= i < front.len() implies (#[trigger] front[i]).0 != w by {
            assert(front[i] == watched[i]);
        }
        lemma_iface_counted(stats, m, w, w, lane);
        lemma_moved_agrees(stats, prev, m, w, lane);
        assert(delta_sum(list, w, lane) == 0);
        assert forall|i: int| 0 <= i < watched.len() implies delta_sum(
            list + more,
            (#[trigger] watched[i]).0,
            lane,
        ) == iface_moved(stats, prev, watched[i].0, lane) by {
            lemma_delta_sum_join(list, more, watched[i].0, lane);
            if i < front.len() {
                assert(front[i] == watched[i]);
                lemma_iface_counted(stats, m, w, watched[i].0, lane);
            }
        }
        assert forall|x: u32|
            (forall|i: int| 0 <= i < watched.len() ==> (#[trigger] watched[i]).0 != x) implies
            #[trigger] delta_sum(list + more, x, lane) == 0 by {
            assert(watched[watched.len() - 1].0 != x);
            assert forall|i: int| 0 <= i < front.len() implies (#[trigger] front[i]).0 != x by {
                assert(front[i] == watched[i]);
            }
            lemma_delta_sum_join(list, more, x, lane);
            lemma_iface_counted(stats, m, w, x, lane);
            assert(delta_sum(list, x, lane) == 0);
        }
        assert forall|k: (u32, u8, u8, Seq<u8>)|
            (forall|i: int| 0 <= i < watched.len() ==> (#[trigger] watched[i]).0 != k.0) implies (
        prev.dom().contains(k) <==> #[trigger] n.dom().contains(k)) && (prev.dom().contains(k)
            ==> n[k] == prev[k]) by {
            assert(watched[watched.len() - 1].0 != k.0);
            assert forall|i: int| 0 <= i < front.len() implies (#[trigger] front[i]).0 != k.0 by {
                assert(front[i] == watched[i]);
            }
            assert(prev.dom().contains(k) <==> m.dom().contains(k));
        }
        assert forall|i: int, j: int|
            0 <= i < watched.len() && 0 <= j < stats.len() && (#[trigger] stats[j]).0.ifindex == (
            #[trigger] watched[i]).0 implies n.dom().contains(stats[j].0@) && n[stats[j].0@]
            == stats[j].1.bytes by {
            if i < front.len() {
                assert(front[i] == watched[i]);
                let k = stats[j].0@;
                assert(m.dom().contains(k));
                assert(k.0 != w);
            }
        }
    }
}

proof fn lemma_iface_metrics(deltas: Seq<IfaceDelta>, rates: Seq<u64>, ifindex: u32, lane: Lane)
    ensures
        delta_sum(deltas, ifindex, lane) >= 0,
        sample_bytes(iface_metrics(deltas, rates, ifindex), lane) == capped(
            delta_sum(deltas, ifindex, lane),
        ),
    decreases deltas.len(),
{
    if deltas.len() > 0 {
        lemma_iface_metrics(deltas.drop_last(), rates, ifindex, lane);
        let d = deltas.last();
        if d.ifindex == ifindex {
            law_traffic_goes_into_its_lane(
                iface_metrics(deltas.drop_last(), rates, ifindex),
                d.ip_version,
                d.direction,
                d.bytes,
                rates[deltas.len() - 1],
                lane,
            );
        }
    }
}

proof fn lemma_rows_built(
    watched: Seq<(u32, Seq<char>)>,
    deltas: Seq<IfaceDelta>,
    rates: Seq<u64>,
    topology: Seq<InterfaceModel>,
    totals: Map<u32, CounterQuad>,
    lane: Lane,
)
    requires
        watched_once(watched),
    ensures
        ({
            let (rows, m) = rows_built(watched, deltas, rates, topology, totals);
            &&& rows.len() == watched.len()
            &&& forall|i: int|
                0 <= i < rows.len() ==> {
                    let w = watched[i].0;
                    let now = capped(delta_sum(deltas, w, lane));
                    let all = capped(sample_bytes(quad_at(totals, w), lane) + now);
                    &&& (#[trigger] rows[i]).ifindex == w
                    &&& rows[i].ifname == watched[i].1
                    &&& (find_index(topology, w) matches Some(x) ==> rows[i].zone == x.zone)
                    &&& find_index(topology, w) is None ==> rows[i].zone == "unknown"@
                    &&& sample_bytes(rows[i].metrics, lane) == now
                    &&& sample_bytes(rows[i].cumulative, lane) == all
                    &&& m.dom().contains(w) && m[w] == rows[i].cumulative
                }
            &&& forall|k: u32|
                (forall|i: int| 0 <= i < watched.len() ==> (#[trigger] watched[i]).0 != k)
                    ==> #[trigger] quad_at(m, k) == quad_at(totals, k)
        }),
    decreases watched.len(),
{
    if watched.len() > 0 {
        let front = watched.drop_last();
        let w = watched.last().0;
        lemma_watched_front(watched);
        lemma_rows_built(front, deltas, rates, topology, totals, lane);
        lemma_iface_metrics(deltas, rates, w, lane);
        let (rows, m) = rows_built(watched, deltas, rates, topology, totals);
        let (some, n) = rows_built(front, deltas, rates, topology, totals);
        assert forall|i: int| 0 <= i < front.len() implies (#[trigger] front[i]).0 != w by {
            assert(front[i] == watched[i]);
        }
        assert(quad_at(n, w) == quad_at(totals, w));
        assert forall|i: int| 0 <= i < rows.len() implies ({
            let w = watched[i].0;
            let now = capped(delta_sum(deltas, w, lane));
            let all = capped(sample_bytes(quad_at(totals, w), lane) + now);
            &&& (#[trigger] rows[i]).ifindex == w
            &&& rows[i].ifname == watched[i].1
            &&& (find_index(topology, w) matches Some(x) ==> rows[i].zone == x.zone)
            &&& find_index(topology, w) is None ==> rows[i].zone == "unknown"@
            &&& sample_bytes(rows[i].metrics, lane) == now
            &&& sample_bytes(rows[i].cumulative, lane) == all
            &&& m.dom().contains(w) && m[w] == rows[i].cumulative
        }) by {
            if i < front.len() {
                assert(rows[i] == some[i]);
                assert(front[i] == watched[i]);
                assert(front[i].0 != w);
            }
        }
        assert forall|k: u32|
            (forall|i: int| 0 <= i < watched.len() ==> (#[trigger] watched[i]).0 != k) implies
            #[trigger] quad_at(m, k) == quad_at(totals, k) by {
            assert(watched[watched.len() - 1].0 != k);
            assert forall|i: int| 0 <= i < front.len() implies (#[trigger] front[i]).0 != k by {
                assert(front[i] == watched[i]);
            }
            assert(quad_at(n, k) == quad_at(totals, k));
        }
    }
}

/// The row of a watched interface tells, in each lane, the bytes that its counters of that
/// version and direction grew by, and the total is larger by as much. What the counters stand
/// at is kept for the next time.
pub proof fn law_interface_row_tells_what_was_counted(
    watched: Seq<(u32, Seq<char>)>,
    stats: Seq<(InterfaceTrafficKey, TrafficValue)>,
    prev: Map<(u32, u8, u8, Seq<u8>), u64>,
    rates: Seq<u64>,
    topology: Seq<InterfaceModel>,
    totals: Map<u32, CounterQuad>,
    i: int,
    lane: Lane,
)
    requires
        watched_once(watched),
        each_once(stats),
        0 <= i < watched.len(),
    ensures
        ({
            let (deltas, seen) = ifaces_counted(watched, stats, prev);
            let (rows, all) = rows_built(watched, deltas, rates, topology, totals);
            let w = watched[i].0;
            let bytes = capped(iface_moved(stats, prev, w, lane));
            &&& rows.len() == watched.len()
            &&& rows[i].ifindex == w
            &&& rows[i].ifname == watched[i].1
            &&& (find_index(topology, w) matches Some(x) ==> rows[i].zone == x.zone)
            &&& find_index(topology, w) is None ==> rows[i].zone == "unknown"@
            &&& sample_bytes(rows[i].metrics, lane) == bytes
            &&& sample_bytes(rows[i].cumulative, lane) == capped(
                sample_bytes(quad_at(totals, w), lane) + bytes,
            )
            &&& quad_at(all, w) == rows[i].cumulative
            &&& forall|j: int|
                0 <= j < stats.len() && (#[trigger] stats[j]).0.ifindex == w ==> seen.dom().contains(
                    stats[j].0@,
                ) && seen[stats[j].0@] == stats[j].1.bytes
        }),
{
    lemma_ifaces_counted(watched, stats, prev, lane);
    let (deltas, seen) = ifaces_counted(watched, stats, prev);
    lemma_rows_built(watched, deltas, rates, topology, totals, lane);
    assert(delta_sum(deltas, watched[i].0, lane) == iface_moved(stats, prev, watched[i].0, lane));
    let rows = rows_built(watched, deltas, rates, topology, totals).0;
    assert(rows[i].ifindex == watched[i].0);
}

/// The bytes that the counters of a device grew by in a lane.
pub open spec fn device_moved(
    stats: Seq<(DeviceTrafficKey, TrafficValue)>,
    prev: Map<(u32, Seq<u8>, u8, u8), u64>,
    d: (u32, Seq<u8>),
    lane: Lane,
) -> int
    decreases stats.len(),
{
    if stats.len() == 0 {
        0
    } else {
        let (k, v) = stats.last();
        device_moved(stats.drop_last(), prev, d, lane) + (if (k.ifindex, k.mac@) == d && lane_of(
            k.ip_version,
            k.direction,
        ) == Some(lane) {
            grown(v.bytes, prev, k@)
        } else {
            0
        })
    }
}

proof fn lemma_devices_counted(
    stats: Seq<(DeviceTrafficKey, TrafficValue)>,
    present: Set<(u32, Seq<u8>)>,
    prev: Map<(u32, Seq<u8>, u8, u8), u64>,
    rows: Map<(u32, Seq<u8>), DeviceModel>,
    rates: Seq<u64>,
    lane: Lane,
)
    requires
        forall|i: int, j: int|
            0 <= i < j < stats.len() ==> (#[trigger] stats[i]).0@ != (#[trigger] stats[j]).0@,
        present == rows.dom(),
    ensures
        ({
            let (list, m) = devices_counted(stats, present, prev);
            let r = rows_filled(rows, list, rates);
            &&& r.dom() == rows.dom()
            &&& forall|d: (u32, Seq<u8>)| #[trigger]
                rows.dom().contains(d) ==> {
                    &&& device_moved(stats, prev, d, lane) >= 0
                    &&& sample_bytes(r[d].metrics, lane) == capped(
                        sample_bytes(rows[d].metrics, lane) + device_moved(stats, prev, d, lane),
                    )
                    &&& r[d] == DeviceModel { metrics: r[d].metrics, ..rows[d] }
                }
            &&& forall|k: (u32, Seq<u8>, u8, u8)|
                (forall|i: int| 0 <= i < stats.len() ==> (#[trigger] stats[i]).0@ != k) ==> (
                prev.dom().contains(k) <==> #[trigger] m.dom().contains(k)) && (prev.dom().contains(
                    k,
                ) ==> m[k] == prev[k])
            &&& forall|j: int|
                0 <= j < stats.len() && rows.dom().contains(
                    ((#[trigger] stats[j]).0.ifindex, stats[j].0.mac@),
                ) ==> m.dom().contains(stats[j].0@) && m[stats[j].0@] == stats[j].1.bytes
        }),
    decreases stats.len(),
{
    if stats.len() == 0 {
        assert(rows_filled(rows, Seq::empty(), rates) =~= rows);
    } else {
        let front = stats.drop_last();
        assert forall|i: int, j: int| 0 <= i < j < front.len() implies (#[trigger] front[i]).0@ != (
        #[trigger] front[j]).0@ by {
            assert(front[i] == stats[i] && front[j] == stats[j]);
        }
        lemma_devices_counted(front, present, prev, rows, rates, lane);
        let (k, v) = stats.last();
        let (some, n) = devices_counted(front, present, prev);
        let (list, m) = devices_counted(stats, present, prev);
        let before = rows_filled(rows, some, rates);
        let r = rows_filled(rows, list, rates);
        assert forall|i: int| 0 <= i < front.len() implies (#[trigger] front[i]).0@ != k@ by {
            assert(front[i] == stats[i]);
            assert(stats[i].0@ != stats[stats.len() - 1].0@);
        }
        assert(prev.dom().contains(k@) <==> n.dom().contains(k@));
        let who = (k.ifindex, k.mac@);
        if present.contains(who) {
            let bytes = list.last().1;
            assert(list.drop_last() =~= some);
            assert(bytes == grown(v.bytes, prev, k@));
            law_traffic_goes_into_its_lane(
                before[who].metrics,
                k.ip_version,
                k.direction,
                bytes,
                rates[list.len() - 1],
                lane,
            );
            assert(r == before.insert(
                who,
                row_filled(before[who], k.ip_version, k.direction, bytes, rates[list.len() - 1]),
            ));
            assert(r.dom() =~= rows.dom());
        }
        assert forall|d: (u32, Seq<u8>)| #[trigger] rows.dom().contains(d) implies ({
            &&& device_moved(stats, prev, d, lane) >= 0
            &&& sample_bytes(r[d].metrics, lane) == capped(
                sample_bytes(rows[d].metrics, lane) + device_moved(stats, prev, d, lane),
            )
            &&& r[d] == DeviceModel { metrics: r[d].metrics, ..rows[d] }
        }) by {
            assert(before.dom().contains(d));
        }
        assert forall|x: (u32, Seq<u8>, u8, u8)|
            (forall|i: int| 0 <= i < stats.len() ==> (#[trigger] stats[i]).0@ != x) implies (
        prev.dom().contains(x) <==> #[trigger] m.dom().contains(x)) && (prev.dom().contains(x)
            ==> m[x] == prev[x]) by {
            assert(stats[stats.len() - 1].0@ != x);
            assert forall|i: int| 0 <= i < front.len() implies (#[trigger] front[i]).0@ != x by {
                assert(front[i] == stats[i]);
            }
            assert(prev.dom().contains(x) <==> n.dom().contains(x));
        }
        assert forall|j: int|
            0 <= j < stats.len() && rows.dom().contains(
                ((#[trigger] stats[j]).0.ifindex, stats[j].0.mac@),
            ) implies m.dom().contains(stats[j].0@) && m[stats[j].0@] == stats[j].1.bytes by {
            if j < front.len() {
                assert(front[j] == stats[j]);
                assert(front[j].0@ != k@);
            }
        }
    }
}

/// The row of a device that is there tells, in each lane, the bytes that its counters of that
/// version and direction grew by, and its total is larger by as much; nothing else of the row
/// changes. What the counters stand at is kept for the next time.
pub proof fn law_device_row_tells_what_was_counted(
    stats: Seq<(DeviceTrafficKey, TrafficValue)>,
    prev: Map<(u32, Seq<u8>, u8, u8), u64>,
    rows: Map<(u32, Seq<u8>), DeviceModel>,
    rates: Seq<u64>,
    totals: Map<(u32, Seq<u8>), CounterQuad>,
    d: (u32, Seq<u8>),
    lane: Lane,
)
    requires
        forall|i: int, j: int|
            0 <= i < j < stats.len() ==> (#[trigger] stats[i]).0@ != (#[trigger] stats[j]).0@,
        rows.dom().contains(d),
        sample_bytes(rows[d].metrics, lane) == 0,
    ensures
        ({
            let (list, seen) = devices_counted(stats, rows.dom(), prev);
            let filled_rows = rows_filled(rows, list, rates);
            let r = rows_totalled(filled_rows, totals);
            let bytes = capped(device_moved(stats, prev, d, lane));
            &&& r.dom() == rows.dom()
            &&& sample_bytes(r[d].metrics, lane) == bytes
            &&& sample_bytes(r[d].cumulative, lane) == capped(
                sample_bytes(quad_at(totals, d), lane) + bytes,
            )
            &&& quad_at(totals_with(filled_rows, totals), d) == r[d].cumulative
            &&& r[d] == DeviceModel { metrics: r[d].metrics, cumulative: r[d].cumulative, ..rows[d] }
            &&& forall|j: int|
                0 <= j < stats.len() && ((#[trigger] stats[j]).0.ifindex, stats[j].0.mac@) == d
                    ==> seen.dom().contains(stats[j].0@) && seen[stats[j].0@] == stats[j].1.bytes
        }),
{
    lemma_devices_counted(stats, rows.dom(), prev, rows, rates, lane);
    let list = devices_counted(stats, rows.dom(), prev).0;
    let f = rows_filled(rows, list, rates);
    assert(rows_totalled(f, totals).dom() =~= rows.dom());
}

/// Offloaded traffic counts by what its counter grew by since it was last seen. A counter that
/// stands still counts as nothing moved for half a minute, and is then given up.
pub proof fn law_offloaded_traffic_is_what_grew(
    f: FlowModel,
    k: (Seq<u32>, u8, u8, Seq<u8>),
    bytes: u64,
    now_ms: u64,
)
    ensures
        ({
            let g = flow_step(f, k, bytes, now_ms);
            let more = grown(bytes, f.prev, k);
            let rest = if f.active.dom().contains(k) {
                now_ms - f.active[k]
            } else {
                0
            };
            &&& g.prev == f.prev.insert(k, bytes)
            &&& f.prev.dom().contains(k) && more > 0 ==> g.counted == f.counted.push(
                (k, more as u64),
            ) && g.idle == f.idle && g.active == f.active.insert(k, now_ms)
            &&& f.prev.dom().contains(k) && more == 0 && rest < 30_000 ==> g.counted
                == f.counted.push((k, 0u64)) && g.idle == f.idle && g.active == f.active
            &&& f.prev.dom().contains(k) && more == 0 && rest >= 30_000 ==> g.counted == f.counted
                && g.idle == f.idle.push(k) && g.active == f.active
            &&& !f.prev.dom().contains(k) ==> g.counted == f.counted && g.idle == f.idle && g.active
                == f.active
        }),
{
}

/// Whether a network, as its interface, its address and its mask, holds an address.
pub open spec fn net_holds(n: (u32, u32, u32), ip: u32) -> bool {
    ip & n.2 == n.1 & n.2
}

/// Whether an address lies in networks of one interface only.
pub open spec fn only_on(nets: Seq<(u32, u32, u32)>, ip: u32, ifindex: u32) -> bool {
    &&& exists|i: int| 0 <= i < nets.len() && net_holds(#[trigger] nets[i], ip)
    &&& forall|i: int|
        0 <= i < nets.len() && net_holds(#[trigger] nets[i], ip) ==> nets[i].0 == ifindex
}

proof fn lemma_holding(nets: Seq<(u32, u32, u32)>, ip: u32)
    ensures
        forall|x: u32| #[trigger]
            holding_ifaces(nets, ip).contains(x) <==> exists|i: int|
                0 <= i < nets.len() && net_holds(#[trigger] nets[i], ip) && nets[i].0 == x,
        holding_ifaces(nets, ip).no_duplicates(),
    decreases nets.len(),
{
    let all = holding_ifaces(nets, ip);
    if nets.len() > 0 {
        let front = nets.drop_last();
        let before = holding_ifaces(front, ip);
        lemma_holding(front, ip);
        assert(nets[nets.len() - 1] == nets.last());
        assert forall|x: u32| #[trigger] all.contains(x) <==> exists|i: int|
            0 <= i < nets.len() && net_holds(#[trigger] nets[i], ip) && nets[i].0 == x by {
            if all.contains(x) {
                if before.contains(x) {
                    let i = choose|i: int|
                        0 <= i < front.len() && net_holds(#[trigger] front[i], ip) && front[i].0
                            == x;
                    assert(nets[i] == front[i]);
                } else {
                    let j = choose|j: int| 0 <= j < all.len() && all[j] == x;
                    if j < before.len() {
                        assert(before[j] == x);
                    }
                    assert(net_holds(nets[nets.len() - 1], ip) && nets.last().0 == x);
                }
            }
            if exists|i: int|
                0 <= i < nets.len() && net_holds(#[trigger] nets[i], ip) && nets[i].0 == x {
                let i = choose|i: int|
                    0 <= i < nets.len() && net_holds(#[trigger] nets[i], ip) && nets[i].0 == x;
                if i < front.len() {
                    assert(front[i] == nets[i]);
                    assert(before.contains(x));
                }
                if before.contains(x) {
                    let j = choose|j: int| 0 <= j < before.len() && before[j] == x;
                    assert(all[j] == x);
                } else {
                    assert(all[all.len() - 1] == x);
                }
            }
        }
    }
}

proof fn lemma_only_on(nets: Seq<(u32, u32, u32)>, ip: u32, ifindex: u32)
    ensures
        only_on(nets, ip, ifindex) <==> holding_ifaces(nets, ip) == seq![ifindex],
{
    lemma_holding(nets, ip);
    let h = holding_ifaces(nets, ip);
    if only_on(nets, ip, ifindex) {
        let i = choose|i: int| 0 <= i < nets.len() && net_holds(#[trigger] nets[i], ip);
        assert(h.contains(ifindex));
        assert forall|j: int| 0 <= j < h.len() implies h[j] == ifindex by {
            assert(h.contains(h[j]));
        }
        let j = choose|j: int| 0 <= j < h.len() && h[j] == ifindex;
        if h.len() > 1 {
            assert(h[0] == h[1]);
        }
        assert(h =~= seq![ifindex]);
    }
    if h == seq![ifindex] {
        assert(h[0] == ifindex);
        assert(h.contains(ifindex));
        assert forall|i: int|
            0 <= i < nets.len() && net_holds(#[trigger] nets[i], ip) implies nets[i].0
            == ifindex by {
            assert(h.contains(nets[i].0));
            let j = choose|j: int| 0 <= j < h.len() && h[j] == nets[i].0;
        }
    }
}

/// Whether a first word is that of a local IPv6 address: in fc00::/7 or in fe80::/10.
pub open spec fn starts_local(w: u32) -> bool {
    0xfc00_0000 <= w <= 0xfdff_ffff || 0xfe80_0000 <= w <= 0xfebf_ffff
}

/// Offloaded traffic goes to one place, in the lane of its version and direction. That of an
/// address which a device has goes to the device and to its interface; that of another IPv4
/// address in the networks of just one interface to that interface; that of another local IPv6
/// address is unresolved, and all else is the outside's.
pub proof fn law_offloaded_traffic_goes_to_its_owner(
    s: ShareModel,
    k: (Seq<u32>, u8, u8, Seq<u8>),
    bytes: u64,
    bps: u64,
    owners: Map<(Seq<u32>, u8), (u32, Seq<u8>)>,
    nets: Seq<(u32, u32, u32)>,
    known: Map<(u32, Seq<u8>), KnownModel>,
    now_ms: u64,
    lane: Lane,
    on: u32,
)
    requires
        lane_of(k.1, k.2) == Some(lane),
    ensures
        ({
            let t = with_flow(s, k, bytes, bps, owners, nets, known, now_ms);
            let owned = owners.dom().contains((k.0, k.1));
            let d = owners[(k.0, k.1)];
            let here = only_on(nets, k.0[0], on);
            let nowhere = forall|i: u32| !only_on(nets, k.0[0], i);
            &&& owned && s.rows.dom().contains(d) ==> {
                &&& t.devices.contains(d)
                &&& sample_bytes(t.rows[d].metrics, lane) == capped(
                    sample_bytes(s.rows[d].metrics, lane) + bytes,
                )
                &&& sample_rate(t.rows[d].metrics, lane) == capped(
                    sample_rate(s.rows[d].metrics, lane) + bps,
                )
                &&& sample_bytes(quad_at(t.lan, d.0), lane) == capped(
                    sample_bytes(quad_at(s.lan, d.0), lane) + bytes,
                )
                &&& t.wan == s.wan
                &&& t.unresolved == s.unresolved
                &&& t.rows.remove(d) =~= s.rows.remove(d)
            }
            &&& owned && !s.rows.dom().contains(d) && known.dom().contains(d) ==> {
                &&& t.rows.dom().contains(d)
                &&& t.rows[d].online
                &&& t.rows[d].last_seen_ms == now_ms
                &&& t.rows[d].ipv4 == known[d].ipv4
                &&& t.rows[d].ipv6 == known[d].ipv6
                &&& t.rows[d].logical_iface == known[d].logical_iface
                &&& t.rows[d].ifindex == known[d].ifindex
                &&& t.rows[d].mac == mac_text(known[d].mac)
                &&& t.rows[d].subnet == known[d].subnet
                &&& trimmed(known[d].hostname).len() > 0 ==> t.rows[d].hostname
                    == known[d].hostname
                &&& t.rows[d].neighbor_state is None
                &&& sample_bytes(t.rows[d].metrics, lane) == bytes
                &&& sample_bytes(quad_at(t.lan, d.0), lane) == capped(
                    sample_bytes(quad_at(s.lan, d.0), lane) + bytes,
                )
                &&& t.wan == s.wan
                &&& t.unresolved == s.unresolved
            }
            &&& owned && !s.rows.dom().contains(d) && !known.dom().contains(d) ==> t == s
            &&& !owned && k.1 == 4 && here ==> {
                &&& sample_bytes(quad_at(t.lan, on), lane) == capped(
                    sample_bytes(quad_at(s.lan, on), lane) + bytes,
                )
                &&& t.rows == s.rows
                &&& t.wan == s.wan
                &&& t.unresolved == s.unresolved
            }
            &&& !owned && k.1 == 6 && starts_local(k.0[0]) ==> {
                &&& sample_bytes(t.unresolved, lane) == capped(
                    sample_bytes(s.unresolved, lane) + bytes,
                )
                &&& t.rows == s.rows
                &&& t.lan == s.lan
                &&& t.wan == s.wan
            }
            &&& !owned && (k.1 == 4 ==> nowhere) && (k.1 == 6 ==> !starts_local(k.0[0])) ==> {
                &&& sample_bytes(t.wan, lane) == capped(sample_bytes(s.wan, lane) + bytes)
                &&& t.rows == s.rows
                &&& t.lan == s.lan
                &&& t.unresolved == s.unresolved
            }
        }),
{
    lemma_only_on(nets, k.0[0], on);
    let h = holding_ifaces(nets, k.0[0]);
    if h.len() == 1 {
        assert(h =~= seq![h[0]]);
        lemma_only_on(nets, k.0[0], h[0]);
    }
}

} // verus!

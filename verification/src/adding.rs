//! How offloaded traffic is added to what the interfaces show, and hours to totals.
use crate::bucket::{AggregatedBucket, CounterQuad};
use crate::history::{bytes_of, currents_added, device_totals, quad_at};
use crate::hours::{
    bytes_of_all, capped, hour_bytes, law_total_is_the_sum_of_hours, sample_bytes, Lane,
};
use crate::mac::{law_mac_roundtrip, mac_text, parsed_mac};
use crate::offload::{injected, unresolved_mac, AmountModel};
use crate::snapshot::{DeviceSeriesKey, OverviewModel};
use std::collections::VecDeque;
use vstd::prelude::*;

verus! {

/// Whether rows are of different interfaces.
pub open spec fn rows_differ(rows: Seq<OverviewModel>) -> bool {
    forall|i: int, j: int|
        0 <= i < j < rows.len() ==> (#[trigger] rows[i]).ifindex != (#[trigger] rows[j]).ifindex
}

/// Whether a row is the first one of the outside.
pub open spec fn is_first_outside(rows: Seq<OverviewModel>, i: int) -> bool {
    &&& rows[i].zone == "wan"@
    &&& forall|j: int| 0 <= j < i ==> (#[trigger] rows[j]).zone != "wan"@
}

/// Whether a row is the one that the unresolved traffic of the inside goes to.
pub open spec fn is_inside_row(rows: Seq<OverviewModel>, a: AmountModel, i: int) -> bool {
    rows[i].zone != "wan"@ && a.lan_ifindex == Some(rows[i].ifindex)
}

/// The bytes that are added to the traffic of a row in a lane.
pub open spec fn shown_more(rows: Seq<OverviewModel>, a: AmountModel, i: int, lane: Lane) -> int {
    let k = rows[i].ifindex;
    (if a.lan_shown.dom().contains(k) {
        sample_bytes(a.lan_shown[k], lane) as int
    } else {
        0
    }) + (if is_first_outside(rows, i) {
        sample_bytes(a.wan_shown, lane) as int
    } else {
        0
    }) + (if is_inside_row(rows, a, i) && a.device_rates.dom().contains(
        (k, unresolved_mac()),
    ) {
        sample_bytes(a.device_rates[(k, unresolved_mac())], lane) as int
    } else {
        0
    })
}

/// The bytes that are added to the total of a row in a lane.
pub open spec fn total_more(rows: Seq<OverviewModel>, a: AmountModel, i: int, lane: Lane) -> int {
    let k = rows[i].ifindex;
    (if a.lan_shown.dom().contains(k) && a.lan.dom().contains(k) {
        sample_bytes(a.lan[k], lane) as int
    } else {
        0
    }) + (if is_first_outside(rows, i) {
        sample_bytes(a.wan, lane) as int
    } else {
        0
    }) + (if is_inside_row(rows, a, i) {
        sample_bytes(a.unresolved, lane) as int
    } else {
        0
    })
}

proof fn lemma_injected(
    rows: Seq<OverviewModel>,
    totals: Map<u32, CounterQuad>,
    a: AmountModel,
    lane: Lane,
)
    requires
        rows_differ(rows),
    ensures
        ({
            let s = injected(rows, totals, a);
            &&& s.rows.len() == rows.len()
            &&& s.wan_done <==> exists|j: int| 0 <= j < rows.len() && (#[trigger] rows[j]).zone == "wan"@
            &&& s.unresolved_done <==> exists|j: int|
                0 <= j < rows.len() && is_inside_row(rows, a, j) && (#[trigger] rows[j]).ifindex
                    == rows[j].ifindex
            &&& forall|k: u32|
                (forall|j: int| 0 <= j < rows.len() ==> (#[trigger] rows[j]).ifindex != k)
                    ==> #[trigger] quad_at(s.totals, k) == quad_at(totals, k)
            &&& forall|i: int|
                0 <= i < rows.len() ==> {
                    let k = rows[i].ifindex;
                    &&& (#[trigger] s.rows[i]).ifindex == k
                    &&& s.rows[i].ifname == rows[i].ifname
                    &&& s.rows[i].zone == rows[i].zone
                    &&& sample_bytes(s.rows[i].metrics, lane) == capped(
                        sample_bytes(rows[i].metrics, lane) + shown_more(rows, a, i, lane),
                    )
                    &&& sample_bytes(quad_at(s.totals, k), lane) == capped(
                        sample_bytes(quad_at(totals, k), lane) + total_more(rows, a, i, lane),
                    )
                }
        }),
    decreases rows.len(),
{
    if rows.len() > 0 {
        let front = rows.drop_last();
        let n = rows.len() - 1;
        assert(rows[n] == rows.last());
        assert(rows_differ(front)) by {
            assert forall|i: int, j: int| 0 <= i < j < front.len() implies (
            #[trigger] front[i]).ifindex != (#[trigger] front[j]).ifindex by {
                assert(front[i] == rows[i] && front[j] == rows[j]);
            }
        }
        lemma_injected(front, totals, a, lane);
        let t = injected(front, totals, a);
        let s = injected(rows, totals, a);
        let k = rows[n].ifindex;
        assert forall|j: int| 0 <= j < front.len() implies (#[trigger] front[j]).ifindex != k by {
            assert(front[j] == rows[j]);
            assert(rows[j].ifindex != rows[n].ifindex);
        }
        assert(quad_at(t.totals, k) == quad_at(totals, k));
        // The marks of the rows before are those of all rows.
        assert forall|j: int| 0 <= j < front.len() implies (is_first_outside(front, j)
            <==> is_first_outside(rows, j)) && #[trigger] rows[j] == front[j] by {
            if is_first_outside(front, j) {
                assert forall|x: int| 0 <= x < j implies (#[trigger] rows[x]).zone != "wan"@ by {
                    assert(front[x] == rows[x]);
                }
            }
            if is_first_outside(rows, j) {
                assert forall|x: int| 0 <= x < j implies (#[trigger] front[x]).zone != "wan"@ by {
                    assert(front[x] == rows[x]);
                }
            }
        }
        assert(t.wan_done <==> exists|j: int| 0 <= j < n && (#[trigger] rows[j]).zone == "wan"@) by {
            if t.wan_done {
                let j = choose|j: int| 0 <= j < front.len() && (#[trigger] front[j]).zone == "wan"@;
                assert(rows[j] == front[j]);
            }
            if exists|j: int| 0 <= j < n && (#[trigger] rows[j]).zone == "wan"@ {
                let j = choose|j: int| 0 <= j < n && (#[trigger] rows[j]).zone == "wan"@;
                assert(front[j] == rows[j]);
            }
        }
        assert(rows[n].zone == "wan"@ ==> (is_first_outside(rows, n) <==> !t.wan_done));
        if t.unresolved_done && is_inside_row(rows, a, n) {
            let j = choose|j: int|
                0 <= j < front.len() && is_inside_row(front, a, j) && (#[trigger] front[j]).ifindex
                    == front[j].ifindex;
            assert(front[j].ifindex != k);
            assert(false);
        }
        if t.unresolved_done {
            let j = choose|j: int|
                0 <= j < front.len() && is_inside_row(front, a, j) && (#[trigger] front[j]).ifindex
                    == front[j].ifindex;
            assert(rows[j] == front[j]);
            assert(is_inside_row(rows, a, j));
        }
        if exists|j: int|
            0 <= j < rows.len() && is_inside_row(rows, a, j) && (#[trigger] rows[j]).ifindex
                == rows[j].ifindex {
            let j = choose|j: int|
                0 <= j < rows.len() && is_inside_row(rows, a, j) && (#[trigger] rows[j]).ifindex
                    == rows[j].ifindex;
            if j < n {
                assert(front[j] == rows[j]);
                assert(is_inside_row(front, a, j));
            }
        }
        assert forall|x: u32|
            (forall|j: int| 0 <= j < rows.len() ==> (#[trigger] rows[j]).ifindex != x) implies
            #[trigger] quad_at(s.totals, x) == quad_at(totals, x) by {
            assert(rows[n].ifindex != x);
            assert forall|j: int| 0 <= j < front.len() implies (#[trigger] front[j]).ifindex != x by {
                assert(front[j] == rows[j]);
            }
            assert(quad_at(t.totals, x) == quad_at(totals, x));
        }
        assert forall|i: int| 0 <= i < rows.len() implies ({
            let k = rows[i].ifindex;
            &&& (#[trigger] s.rows[i]).ifindex == k
            &&& s.rows[i].ifname == rows[i].ifname
            &&& s.rows[i].zone == rows[i].zone
            &&& sample_bytes(s.rows[i].metrics, lane) == capped(
                sample_bytes(rows[i].metrics, lane) + shown_more(rows, a, i, lane),
            )
            &&& sample_bytes(quad_at(s.totals, k), lane) == capped(
                sample_bytes(quad_at(totals, k), lane) + total_more(rows, a, i, lane),
            )
        }) by {
            if i < n {
                assert(s.rows[i] == t.rows[i]);
                assert(rows[i] == front[i]);
                assert(is_inside_row(front, a, i) <==> is_inside_row(rows, a, i));
                assert(front[i].ifindex != k);
                assert(quad_at(s.totals, front[i].ifindex) == quad_at(t.totals, front[i].ifindex));
            }
        }
    }
}

/// Offloaded traffic is added to the interfaces: that of the inside to the row of its interface,
/// that of the outside to the first row of the outside, and what cannot be told apart to the row of
/// the inside. Each total grows by what was moved there.
pub proof fn law_offloaded_traffic_is_added_to_its_row(
    rows: Seq<OverviewModel>,
    totals: Map<u32, CounterQuad>,
    a: AmountModel,
    i: int,
    lane: Lane,
)
    requires
        rows_differ(rows),
        0 <= i < rows.len(),
    ensures
        ({
            let s = injected(rows, totals, a);
            let k = rows[i].ifindex;
            &&& s.rows.len() == rows.len()
            &&& s.rows[i].ifindex == k
            &&& s.rows[i].ifname == rows[i].ifname
            &&& s.rows[i].zone == rows[i].zone
            &&& sample_bytes(s.rows[i].metrics, lane) == capped(
                sample_bytes(rows[i].metrics, lane) + shown_more(rows, a, i, lane),
            )
            &&& sample_bytes(quad_at(s.totals, k), lane) == capped(
                sample_bytes(quad_at(totals, k), lane) + total_more(rows, a, i, lane),
            )
        }),
{
    lemma_injected(rows, totals, a, lane);
    let s = injected(rows, totals, a);
    assert(s.rows[i].ifindex == rows[i].ifindex);
}

/// The total of a device is the sum of its complete hours and of the current one.
pub proof fn law_device_total_has_all_hours(
    done: Seq<(DeviceSeriesKey, VecDeque<AggregatedBucket>)>,
    now: Seq<(DeviceSeriesKey, AggregatedBucket)>,
    i: int,
    j: int,
    m: Seq<u8>,
    ifindex: u32,
    lane: Lane,
)
    requires
        m.len() == 6,
        0 <= i < done.len(),
        0 <= j < now.len(),
        done[i].0@ == (ifindex, mac_text(m)),
        now[j].0@ == (ifindex, mac_text(m)),
        forall|x: int| 0 <= x < done.len() && x != i ==> !same_device((#[trigger] done[x]).0@, ifindex, m),
        forall|x: int| 0 <= x < now.len() && x != j ==> !same_device((#[trigger] now[x]).0@, ifindex, m),
    ensures
        sample_bytes(quad_at(currents_added(device_totals(done), now), (ifindex, m)), lane) == capped(
            capped(bytes_of_all(done[i].1@, lane)) + hour_bytes(now[j].1, lane),
        ),
{
    law_mac_roundtrip(m);
    lemma_done(done, i, m, ifindex);
    law_total_is_the_sum_of_hours(done[i].1@, lane);
    lemma_now(device_totals(done), now, j, m, ifindex, lane);
}

/// Whether a key is that of a device.
pub open spec fn same_device(k: (u32, Seq<char>), ifindex: u32, m: Seq<u8>) -> bool {
    k.0 == ifindex && parsed_mac(k.1) == Some(m)
}

proof fn lemma_done(
    done: Seq<(DeviceSeriesKey, VecDeque<AggregatedBucket>)>,
    i: int,
    m: Seq<u8>,
    ifindex: u32,
)
    requires
        0 <= i < done.len(),
        same_device(done[i].0@, ifindex, m),
        forall|x: int| i < x < done.len() ==> !same_device((#[trigger] done[x]).0@, ifindex, m),
    ensures
        device_totals(done).dom().contains((ifindex, m)),
        device_totals(done)[(ifindex, m)] == bytes_of(done[i].1@),
    decreases done.len(),
{
    let front = done.drop_last();
    let n = done.len() - 1;
    assert(done[n] == done.last());
    if i < n {
        assert(front[i] == done[i]);
        assert forall|x: int| i < x < front.len() implies !same_device(
            (#[trigger] front[x]).0@,
            ifindex,
            m,
        ) by {
            assert(front[x] == done[x]);
        }
        lemma_done(front, i, m, ifindex);
        assert(!same_device(done[n].0@, ifindex, m));
    }
}

proof fn lemma_now(
    totals: Map<(u32, Seq<u8>), CounterQuad>,
    now: Seq<(DeviceSeriesKey, AggregatedBucket)>,
    j: int,
    m: Seq<u8>,
    ifindex: u32,
    lane: Lane,
)
    requires
        j < now.len(),
        j >= 0 ==> same_device(now[j].0@, ifindex, m),
        forall|x: int| 0 <= x < now.len() && x != j ==> !same_device((#[trigger] now[x]).0@, ifindex, m),
    ensures
        j >= 0 ==> sample_bytes(quad_at(currents_added(totals, now), (ifindex, m)), lane) == capped(
            sample_bytes(quad_at(totals, (ifindex, m)), lane) + hour_bytes(now[j].1, lane),
        ),
        j < 0 ==> quad_at(currents_added(totals, now), (ifindex, m)) == quad_at(totals, (ifindex, m)),
    decreases now.len(),
{
    if now.len() > 0 {
        let front = now.drop_last();
        let n = now.len() - 1;
        assert(now[n] == now.last());
        let at = if j == n {
            -1
        } else {
            j
        };
        assert forall|x: int| 0 <= x < front.len() && x != at implies !same_device(
            (#[trigger] front[x]).0@,
            ifindex,
            m,
        ) by {
            assert(front[x] == now[x]);
        }
        if at >= 0 {
            assert(front[at] == now[at]);
        }
        lemma_now(totals, front, at, m, ifindex, lane);
        if j != n {
            assert(!same_device(now[n].0@, ifindex, m));
        }
    }
}

} // verus!

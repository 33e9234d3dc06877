//! What settings choose, and what days tell of their hours.
use crate::api::{page_of, pages_of};
use crate::attach::{backend_for, point_for, AttachError, AttachPoint, ResolvedBackend};
use crate::bucket::AggregatedBucket;
use crate::cidr::{v4_key, v6_key};
use crate::history::day_map;
use crate::hours::{hour_max, hour_min, Lane};
use crate::netlink::{bytes16, bytes32};
use crate::offload::{owners_with, with_owners};
use crate::options::{LogLevel, TcBackend, TcOrder};
use crate::runtime::KnownDevice;
use crate::system::{number_in, role_of, KindFacts};
use crate::text::{holds_text, lowered};
use crate::topology::InterfaceRole;
use vstd::prelude::*;

verus! {

/// The page that is shown is the one that is asked for, or the last one where there are fewer.
pub proof fn law_page_is_the_one_asked_for(n: usize, total: int, size: int)
    requires
        total >= 0,
        size >= 1,
    ensures
        ({
            let pages = pages_of(total, size);
            &&& pages >= 1
            &&& (pages - 1) * size < total || total == 0
            &&& total <= pages * size
            &&& page_of(None, pages) == 1
            &&& 1 <= n <= pages ==> page_of(Some(n), pages) == n
            &&& n > pages ==> page_of(Some(n), pages) == pages
            &&& 1 <= page_of(Some(n), pages) <= pages
        }),
{
    if total > 0 {
        vstd::arithmetic::div_mod::lemma_fundamental_div_mod(total - 1, size);
        vstd::arithmetic::div_mod::lemma_mod_bound(total - 1, size);
        vstd::arithmetic::div_mod::lemma_div_pos_is_pos(total - 1, size);
        let q = (total - 1) / size;
        assert(size * q == q * size) by (nonlinear_arith);
        assert((q + 1) * size == q * size + size) by (nonlinear_arith);
    } else {
        assert(0 <= 1 * size) by (nonlinear_arith)
            requires
                size >= 1,
        ;
    }
}

/// The newer way of attaching is taken where it is asked for, or where none is and the kernel has
/// it; it takes no priority. The older way takes no order that is relative to another program.
pub proof fn law_way_of_attaching_is_chosen(
    asked: TcBackend,
    order: TcOrder,
    has_priority: bool,
    supported: bool,
)
    ensures
        ({
            let relative = order == TcOrder::Before || order == TcOrder::After;
            let newer = asked == TcBackend::Tcx || (asked == TcBackend::Auto && supported);
            match backend_for(asked, order, has_priority, supported) {
                Ok(ResolvedBackend::Tcx) => newer && supported && !has_priority,
                Ok(ResolvedBackend::Netlink) => !newer && !relative,
                Err(AttachError::KernelTooOld) => asked == TcBackend::Tcx && !supported,
                Err(AttachError::PriorityWithoutNetlink) => newer && supported && has_priority,
                Err(AttachError::OrderWithNetlink) => !newer && relative,
                Err(_) => false,
            }
        }),
{
}

/// A program is attached in the order that is asked for. By the older way an order is a priority:
/// the least for the first, the greatest for the last.
pub proof fn law_order_is_kept(order: TcOrder, priority: Option<u16>, anchor: Option<u32>, id: u32)
    ensures
        point_for(ResolvedBackend::Tcx, TcOrder::First, priority, anchor) == Ok::<
            AttachPoint,
            AttachError,
        >(AttachPoint::First),
        point_for(ResolvedBackend::Tcx, TcOrder::Last, priority, anchor) == Ok::<
            AttachPoint,
            AttachError,
        >(AttachPoint::Last),
        point_for(ResolvedBackend::Tcx, TcOrder::Before, priority, Some(id)) == Ok::<
            AttachPoint,
            AttachError,
        >(AttachPoint::Before(id)),
        point_for(ResolvedBackend::Tcx, TcOrder::After, priority, Some(id)) == Ok::<
            AttachPoint,
            AttachError,
        >(AttachPoint::After(id)),
        priority matches Some(p) ==> point_for(ResolvedBackend::Netlink, order, priority, anchor)
            == Ok::<AttachPoint, AttachError>(AttachPoint::Priority(p)),
        priority is None && point_for(ResolvedBackend::Netlink, order, priority, anchor) is Ok ==> {
            let p = point_for(ResolvedBackend::Netlink, order, priority, anchor)->Ok_0;
            &&& order == TcOrder::First ==> p == AttachPoint::Priority(1)
            &&& order == TcOrder::Last ==> p == AttachPoint::Priority(u16::MAX)
        },
{
}

/// The word for an order.
pub open spec fn order_word(o: TcOrder) -> Seq<char> {
    match o {
        TcOrder::First => "first"@,
        TcOrder::Default => "default"@,
        TcOrder::Last => "last"@,
        TcOrder::Before => "before"@,
        TcOrder::After => "after"@,
    }
}

/// The word for a way of attaching.
pub open spec fn backend_word(b: TcBackend) -> Seq<char> {
    match b {
        TcBackend::Auto => "auto"@,
        TcBackend::Tcx => "tcx"@,
        TcBackend::Netlink => "netlink"@,
    }
}

/// The word for a level of the log.
pub open spec fn level_word(l: LogLevel) -> Seq<char> {
    match l {
        LogLevel::Trace => "trace"@,
        LogLevel::Debug => "debug"@,
        LogLevel::Info => "info"@,
        LogLevel::Warn => "warn"@,
        LogLevel::Error => "error"@,
    }
}

/// Each order, each way of attaching and each level of the log is named by its own word.
pub proof fn law_setting_is_named_by_its_word(s: Seq<char>, o: TcOrder, b: TcBackend, l: LogLevel)
    ensures
        TcOrder::named(s) == Some(o) <==> s == order_word(o),
        TcBackend::named(s) == Some(b) <==> s == backend_word(b),
        LogLevel::named(s) == Some(l) <==> s == level_word(l),
{
    reveal_strlit("first");
    reveal_strlit("default");
    reveal_strlit("last");
    reveal_strlit("before");
    reveal_strlit("after");
    reveal_strlit("auto");
    reveal_strlit("tcx");
    reveal_strlit("netlink");
    reveal_strlit("trace");
    reveal_strlit("debug");
    reveal_strlit("info");
    reveal_strlit("warn");
    reveal_strlit("error");
    assert("first"@[0] == 'f' && "default"@[0] == 'd' && "last"@[0] == 'l' && "before"@[0] == 'b'
        && "after"@[0] == 'a');
    assert("auto"@[0] == 'a' && "tcx"@[0] == 't' && "netlink"@[0] == 'n');
    assert("trace"@[0] == 't' && "debug"@[0] == 'd' && "info"@[0] == 'i' && "warn"@[0] == 'w'
        && "error"@[0] == 'e');
}

/// The role of an interface is that of what the system says of it: a bridge where it has one, a
/// wireless one where it says so, and else by the number of its kind.
pub proof fn law_role_is_what_the_system_says(name: Seq<char>, f: KindFacts)
    ensures
        f.has_bridge ==> role_of(name, f) == InterfaceRole::Bridge,
        !f.has_bridge && holds_text(f.uevent@, "DEVTYPE=wlan"@) ==> role_of(name, f)
            == InterfaceRole::Wifi,
        !f.has_bridge && !holds_text(f.uevent@, "DEVTYPE=wlan"@) && holds_text(
            f.uevent@,
            "DEVTYPE=bridge"@,
        ) ==> role_of(name, f) == InterfaceRole::Bridge,
        !f.has_bridge && !holds_text(f.uevent@, "DEVTYPE=wlan"@) && !holds_text(
            f.uevent@,
            "DEVTYPE=bridge"@,
        ) ==> {
            let kind = number_in(f.type_text);
            let wireless = lowered(name).len() >= 4 && (lowered(name).take(4) == "wifi"@ || lowered(
                name,
            ).take(4) == "wlan"@);
            &&& kind == Some(772int) ==> role_of(name, f) == InterfaceRole::Loopback
            &&& kind == Some(1int) && wireless ==> role_of(name, f) == InterfaceRole::Wifi
            &&& kind == Some(1int) && !wireless ==> role_of(name, f) == InterfaceRole::Ethernet
            &&& kind == Some(512int) || kind == Some(65534int) ==> role_of(name, f)
                == InterfaceRole::Tun
            &&& kind is None ==> role_of(name, f) == (if f.has_tun_flags {
                InterfaceRole::Tun
            } else {
                InterfaceRole::Other
            })
        },
{
    reveal_strlit("wifi");
    reveal_strlit("wlan");
    let n = lowered(name);
    if n.len() >= 4 {
        assert(n.take(4) =~= n.subrange(0, 4));
    }
}

/// A number of a message to the kernel is written in the byte order of the machine.
pub proof fn law_numbers_are_written_in_order(v: u16, w: u32)
    ensures
        bytes16(v, false)[0] + 0x100 * bytes16(v, false)[1] == v,
        bytes16(v, true)[1] + 0x100 * bytes16(v, true)[0] == v,
        bytes32(w, false)[0] + 0x100 * bytes32(w, false)[1] + 0x1_0000 * bytes32(w, false)[2]
            + 0x100_0000 * bytes32(w, false)[3] == w,
        bytes32(w, true)[3] + 0x100 * bytes32(w, true)[2] + 0x1_0000 * bytes32(w, true)[1]
            + 0x100_0000 * bytes32(w, true)[0] == w,
        bytes16(v, false).len() == 2 && bytes16(v, true).len() == 2,
        bytes32(w, false).len() == 4 && bytes32(w, true).len() == 4,
{
}

/// Whether an hour is of a day.
pub open spec fn is_of_day(days: Seq<(u64, u64)>, i: int, day: u64) -> bool {
    days[i].0 == day
}

proof fn lemma_day_rates(
    hours: Seq<AggregatedBucket>,
    days: Seq<(u64, u64)>,
    day: u64,
    lane: Lane,
)
    requires
        hours.len() == days.len(),
    ensures
        forall|i: int|
            0 <= i < hours.len() && #[trigger] is_of_day(days, i, day) ==> day_map(
                hours,
                days,
            ).dom().contains(day) && hour_max(day_map(hours, days)[day], lane) >= hour_max(
                hours[i],
                lane,
            ) && (hour_min(hours[i], lane) > 0 ==> 0 < hour_min(day_map(hours, days)[day], lane)
                <= hour_min(hours[i], lane)),
        day_map(hours, days).dom().contains(day) && hour_min(day_map(hours, days)[day], lane) > 0
            ==> exists|i: int|
            0 <= i < hours.len() && #[trigger] is_of_day(days, i, day) && hour_min(hours[i], lane)
                == hour_min(day_map(hours, days)[day], lane),
        day_map(hours, days).dom().contains(day) && hour_max(day_map(hours, days)[day], lane) > 0
            ==> exists|i: int|
            0 <= i < hours.len() && #[trigger] is_of_day(days, i, day) && hour_max(hours[i], lane)
                == hour_max(day_map(hours, days)[day], lane),
    decreases hours.len(),
{
    if hours.len() > 0 {
        let hf = hours.drop_last();
        let df = days.drop_last();
        let n = hours.len() - 1;
        lemma_day_rates(hf, df, day, lane);
        let m = day_map(hf, df);
        let r = day_map(hours, days);
        assert(hours.last() == hours[n] && days.last() == days[n]);
        assert forall|i: int| 0 <= i < hours.len() && #[trigger] is_of_day(days, i, day) implies r.dom().contains(
            day,
        ) && hour_max(r[day], lane) >= hour_max(hours[i], lane) && (hour_min(hours[i], lane) > 0
            ==> 0 < hour_min(r[day], lane) <= hour_min(hours[i], lane)) by {
            if i < n {
                assert(hf[i] == hours[i] && df[i] == days[i]);
                assert(is_of_day(df, i, day));
            }
        }
        if m.dom().contains(day) && hour_min(m[day], lane) > 0 {
            let i = choose|i: int|
                0 <= i < hf.len() && #[trigger] is_of_day(df, i, day) && hour_min(hf[i], lane)
                    == hour_min(m[day], lane);
            assert(hf[i] == hours[i] && df[i] == days[i]);
            assert(is_of_day(days, i, day));
        }
        if m.dom().contains(day) && hour_max(m[day], lane) > 0 {
            let i = choose|i: int|
                0 <= i < hf.len() && #[trigger] is_of_day(df, i, day) && hour_max(hf[i], lane)
                    == hour_max(m[day], lane);
            assert(hf[i] == hours[i] && df[i] == days[i]);
            assert(is_of_day(days, i, day));
        }
        if days[n].0 == day {
            assert(is_of_day(days, n, day));
        }
    }
}

/// The greatest rate of a day is the greatest of its hours, and its least rate the least of those
/// of its hours that had one.
pub proof fn law_day_has_the_rates_of_its_hours(
    hours: Seq<AggregatedBucket>,
    days: Seq<(u64, u64)>,
    i: int,
    lane: Lane,
)
    requires
        hours.len() == days.len(),
        0 <= i < hours.len(),
    ensures
        ({
            let day = days[i].0;
            let d = day_map(hours, days)[day];
            &&& day_map(hours, days).dom().contains(day)
            &&& hour_max(d, lane) >= hour_max(hours[i], lane)
            &&& hour_min(hours[i], lane) > 0 ==> 0 < hour_min(d, lane) <= hour_min(hours[i], lane)
            &&& hour_min(d, lane) > 0 ==> exists|j: int|
                0 <= j < hours.len() && #[trigger] is_of_day(days, j, day) && hour_min(
                    hours[j],
                    lane,
                ) == hour_min(d, lane)
            &&& hour_max(d, lane) > 0 ==> exists|j: int|
                0 <= j < hours.len() && #[trigger] is_of_day(days, j, day) && hour_max(
                    hours[j],
                    lane,
                ) == hour_max(d, lane)
        }),
{
    lemma_day_rates(hours, days, days[i].0, lane);
    assert(is_of_day(days, i, days[i].0));
}

/// Whether a known device has an address.
pub open spec fn knows_key(d: KnownDevice, address: (Seq<u32>, u8)) -> bool {
    ||| exists|i: int| 0 <= i < d@.ipv4.len() && v4_key(#[trigger] d@.ipv4[i]) == Some(address)
    ||| exists|i: int| 0 <= i < d@.ipv6.len() && v6_key(#[trigger] d@.ipv6[i]) == Some(address)
}

proof fn lemma_known_owners(
    m: Map<(Seq<u32>, u8), (u32, Seq<u8>)>,
    texts: Seq<Seq<char>>,
    six: bool,
    owner: (u32, Seq<u8>),
    address: (Seq<u32>, u8),
)
    ensures
        ({
            let r = with_owners(m, texts, six, owner, false);
            let there = exists|i: int|
                0 <= i < texts.len() && (if six {
                    v6_key(#[trigger] texts[i])
                } else {
                    v4_key(texts[i])
                }) == Some(address);
            &&& m.dom().contains(address) ==> r.dom().contains(address) && r[address] == m[address]
            &&& !m.dom().contains(address) && there ==> r.dom().contains(address) && r[address]
                == owner
            &&& !m.dom().contains(address) && !there ==> !r.dom().contains(address)
        }),
    decreases texts.len(),
{
    if texts.len() > 0 {
        let front = texts.drop_last();
        let n = texts.len() - 1;
        lemma_known_owners(m, front, six, owner, address);
        assert(texts[n] == texts.last());
        if exists|i: int|
            0 <= i < front.len() && (if six {
                v6_key(#[trigger] front[i])
            } else {
                v4_key(front[i])
            }) == Some(address) {
            let i = choose|i: int|
                0 <= i < front.len() && (if six {
                    v6_key(#[trigger] front[i])
                } else {
                    v4_key(front[i])
                }) == Some(address);
            assert(texts[i] == front[i]);
        }
        if exists|i: int|
            0 <= i < texts.len() && (if six {
                v6_key(#[trigger] texts[i])
            } else {
                v4_key(texts[i])
            }) == Some(address) {
            let i = choose|i: int|
                0 <= i < texts.len() && (if six {
                    v6_key(#[trigger] texts[i])
                } else {
                    v4_key(texts[i])
                }) == Some(address);
            if i < n {
                assert(front[i] == texts[i]);
            }
        }
    }
}

/// An address that no device there has belongs to the first known device with it that was seen in
/// the last ten minutes; one that none of those has belongs to nobody.
pub proof fn law_address_stays_for_ten_minutes(
    m: Map<(Seq<u32>, u8), (u32, Seq<u8>)>,
    entries: Seq<((u32, [u8; 6]), KnownDevice)>,
    now_ms: u64,
    address: (Seq<u32>, u8),
    i: int,
)
    requires
        !m.dom().contains(address),
    ensures
        ({
            let r = owners_with(m, entries, now_ms);
            &&& 0 <= i < entries.len() && knows_key(entries[i].1, address) && now_ms
                - entries[i].1.last_seen_ms <= 10 * 60 * 1000 && (forall|j: int|
                0 <= j < i ==> !(#[trigger] known_lately(entries[j].1, address, now_ms)))
                ==> r.dom().contains(address) && r[address] == entries[i].0@
            &&& (forall|j: int|
                0 <= j < entries.len() ==> !(#[trigger] known_lately(
                    entries[j].1,
                    address,
                    now_ms,
                ))) ==> !r.dom().contains(address)
        }),
    decreases entries.len(),
{
    if entries.len() > 0 {
        let front = entries.drop_last();
        let n = entries.len() - 1;
        let (k, d) = entries[n];
        assert(entries.last() == entries[n]);
        law_address_stays_for_ten_minutes(m, front, now_ms, address, i);
        let before = owners_with(m, front, now_ms);
        lemma_known_owners(before, d@.ipv4, false, k@, address);
        lemma_known_owners(
            with_owners(before, d@.ipv4, false, k@, false),
            d@.ipv6,
            true,
            k@,
            address,
        );
        if 0 <= i < entries.len() && forall|j: int|
            0 <= j < i ==> !(#[trigger] known_lately(entries[j].1, address, now_ms)) {
            if i < n {
                assert(front[i] == entries[i]);
                assert forall|j: int| 0 <= j < i implies !(#[trigger] known_lately(
                    front[j].1,
                    address,
                    now_ms,
                )) by {
                    assert(front[j] == entries[j]);
                    assert(!known_lately(entries[j].1, address, now_ms));
                }
            } else {
                assert forall|j: int| 0 <= j < front.len() implies !(#[trigger] known_lately(
                    front[j].1,
                    address,
                    now_ms,
                )) by {
                    assert(front[j] == entries[j]);
                    assert(!known_lately(entries[j].1, address, now_ms));
                }
            }
        }
        if forall|j: int|
            0 <= j < entries.len() ==> !(#[trigger] known_lately(entries[j].1, address, now_ms)) {
            assert forall|j: int| 0 <= j < front.len() implies !(#[trigger] known_lately(
                front[j].1,
                address,
                now_ms,
            )) by {
                assert(front[j] == entries[j]);
                assert(!known_lately(entries[j].1, address, now_ms));
            }
            assert(!known_lately(entries[n].1, address, now_ms));
        }
    }
}

/// Whether a device with an address was seen in the last ten minutes.
pub open spec fn known_lately(d: KnownDevice, address: (Seq<u32>, u8), now_ms: u64) -> bool {
    knows_key(d, address) && now_ms - d.last_seen_ms <= 10 * 60 * 1000
}

} // verus!

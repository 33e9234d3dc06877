//! What requests and settings are taken to mean.
use crate::access::{authority_of, header_text, host_only, origin_fault, token_in};
use crate::api::{
    bucket_asked, direction_asked, interface_asked, known_from, last_row, on_interface,
    page_size_of, period_asked, renamed, row_named, traffic_asked,
};
use crate::attach::{before_char, kernel_version, not_older, version_mark, version_part};
use crate::bucket::{HistoryDirection, HistoryTrafficType};
use crate::clock::{
    days_before_month, epoch_day, is_leap, is_time_of, period_start, reads, LocalClock, PeriodScope,
};
use crate::history::AggregateBucket;
use crate::limits::{rates_of, RateLimitValue};
use crate::listing::all_differ;
use crate::mac::mac_text;
use crate::number::{dec, digit_value, law_parse_reads_notation, lemma_notation};
use crate::options::NumberOption;
use crate::policy::{iface_items, rule_items, rule_place, static_items, RuleModel};
use crate::snapshot::{DeviceModel, OverviewModel};
use crate::text::{lemma_find_char, lowered, trimmed};
use crate::topology::{find_name, InterfaceModel};
use vstd::prelude::*;

verus! {

/// The word for a period.
pub open spec fn period_word(p: Option<PeriodScope>) -> Seq<char> {
    match p {
        None => "all"@,
        Some(PeriodScope::Today) => "today"@,
        Some(PeriodScope::Week) => "week"@,
        Some(PeriodScope::Month) => "month"@,
        Some(PeriodScope::Year) => "year"@,
    }
}

proof fn lemma_period_words()
    ensures
        "all"@.len() == 3,
        "today"@.len() == 5,
        "week"@.len() == 4,
        "month"@.len() == 5,
        "year"@.len() == 4,
        "today"@ != "month"@,
        "week"@ != "year"@,
{
    reveal_strlit("all");
    reveal_strlit("today");
    reveal_strlit("week");
    reveal_strlit("month");
    reveal_strlit("year");
    assert("today"@[0] != "month"@[0]);
    assert("week"@[0] != "year"@[0]);
}

/// A period is asked for by its word, in small letters or capitals and with blanks around it;
/// by nothing, all is asked for, and by another word nothing that there is.
pub proof fn law_period_is_asked_by_its_word(t: Seq<char>, p: Option<PeriodScope>)
    ensures
        period_asked(None) == Ok::<Option<PeriodScope>, ()>(None),
        trimmed(t).len() == 0 ==> period_asked(Some(t)) == Ok::<Option<PeriodScope>, ()>(None),
        lowered(trimmed(t)) == period_word(p) ==> period_asked(Some(t)) == Ok::<
            Option<PeriodScope>,
            (),
        >(p),
        trimmed(t).len() > 0 && period_asked(Some(t)) == Ok::<Option<PeriodScope>, ()>(p)
            ==> lowered(trimmed(t)) == period_word(p),
{
    lemma_period_words();
}

/// A kind of traffic is asked for by the name of its version, a direction by its name and whole
/// days by theirs; whatever else is asked for is all of it, by the hour.
pub proof fn law_kind_is_asked_by_its_word(t: Seq<char>)
    ensures
        traffic_asked(Some(t)) == HistoryTrafficType::Ipv4 <==> lowered(t) == "ipv4"@,
        traffic_asked(Some(t)) == HistoryTrafficType::Ipv6 <==> lowered(t) == "ipv6"@,
        traffic_asked(None) == HistoryTrafficType::All,
        direction_asked(Some(t)) == HistoryDirection::Up <==> lowered(t) == "up"@,
        direction_asked(Some(t)) == HistoryDirection::Down <==> lowered(t) == "down"@,
        direction_asked(None) == HistoryDirection::Both,
        bucket_asked(Some(t)) == AggregateBucket::Daily <==> lowered(t) == "daily"@,
        bucket_asked(None) == AggregateBucket::Hourly,
{
    reveal_strlit("ipv4");
    reveal_strlit("ipv6");
    reveal_strlit("up");
    reveal_strlit("down");
    assert("ipv4"@[3] != "ipv6"@[3]);
    assert("up"@.len() != "down"@.len());
}

/// A page of connections has as many of them as are asked for, between one and five hundred,
/// and a hundred where no number is given.
pub proof fn law_page_has_the_size_asked_for(n: usize)
    ensures
        page_size_of(None) == 100,
        1 <= n <= 500 ==> page_size_of(Some(n)) == n,
        1 <= page_size_of(Some(n)) <= 500,
        n > 500 ==> page_size_of(Some(n)) == 500,
{
}

pub(crate) proof fn lemma_find_name(s: Seq<InterfaceModel>, i: int)
    requires
        all_differ(s),
        0 <= i < s.len(),
    ensures
        find_name(s, s[i].name) == Some(s[i]),
    decreases s.len(),
{
    let front = s.drop_last();
    assert(all_differ(front)) by {
        assert forall|a: int, b: int| 0 <= a < b < front.len() implies (
        #[trigger] front[a]).ifindex != (#[trigger] front[b]).ifindex && front[a].name
            != front[b].name by {
            assert(front[a] == s[a] && front[b] == s[b]);
        }
    }
    if i < front.len() {
        assert(front[i] == s[i]);
        lemma_find_name(front, i);
    } else {
        assert forall|j: int| 0 <= j < front.len() implies (#[trigger] front[j]).name
            != s[i].name by {
            assert(front[j] == s[j]);
            assert(s[j].name != s[i].name);
        }
        lemma_no_name(front, s[i].name);
    }
}

proof fn lemma_no_name(s: Seq<InterfaceModel>, name: Seq<char>)
    requires
        forall|j: int| 0 <= j < s.len() ==> (#[trigger] s[j]).name != name,
    ensures
        find_name(s, name) is None,
    decreases s.len(),
{
    if s.len() > 0 {
        let front = s.drop_last();
        assert forall|j: int| 0 <= j < front.len() implies (#[trigger] front[j]).name != name by {
            assert(front[j] == s[j]);
        }
        lemma_no_name(front, name);
        assert(s[s.len() - 1].name != name);
    }
}

/// An interface is asked for by its name, with blanks around it or not, and is then meant by its
/// number.
pub proof fn law_interface_is_asked_by_its_name(
    t: Seq<char>,
    topology: Seq<InterfaceModel>,
    rows: Seq<OverviewModel>,
    i: int,
)
    requires
        all_differ(topology),
        0 <= i < topology.len(),
        trimmed(t) == topology[i].name,
        trimmed(trimmed(t)) == trimmed(t),
        topology[i].name.len() > 0,
    ensures
        interface_asked(Some(t), topology, rows) is Ok,
        interface_asked(Some(t), topology, rows)->Ok_0 == topology[i].ifindex,
{
    lemma_find_name(topology, i);
}

/// An interface that the router does not have any more is meant by the number of its first row.
pub proof fn law_interface_is_asked_by_its_row(
    t: Seq<char>,
    topology: Seq<InterfaceModel>,
    rows: Seq<OverviewModel>,
    i: int,
)
    requires
        trimmed(t).len() > 0,
        trimmed(trimmed(t)) == trimmed(t),
        forall|j: int| 0 <= j < topology.len() ==> (#[trigger] topology[j]).name != trimmed(t),
    ensures
        0 <= i < rows.len() && rows[i].ifname == trimmed(t) && (forall|j: int|
            0 <= j < i ==> (#[trigger] rows[j]).ifname != trimmed(t)) ==> interface_asked(
            Some(t),
            topology,
            rows,
        ) is Ok && interface_asked(Some(t), topology, rows)->Ok_0 == rows[i].ifindex,
        (forall|j: int| 0 <= j < rows.len() ==> (#[trigger] rows[j]).ifname != trimmed(t))
            ==> interface_asked(Some(t), topology, rows) is Err,
{
    lemma_no_name(topology, trimmed(t));
    lemma_row_named(rows, trimmed(t), i);
}

proof fn lemma_row_named(rows: Seq<OverviewModel>, name: Seq<char>, i: int)
    ensures
        0 <= i < rows.len() && rows[i].ifname == name && (forall|j: int|
            0 <= j < i ==> (#[trigger] rows[j]).ifname != name) ==> row_named(rows, name) == Some(
            rows[i].ifindex,
        ),
        (forall|j: int| 0 <= j < rows.len() ==> (#[trigger] rows[j]).ifname != name) ==> row_named(
            rows,
            name,
        ) is None,
    decreases rows.len(),
{
    if rows.len() > 0 {
        let rest = rows.drop_first();
        lemma_row_named(rest, name, i - 1);
        assert forall|j: int| 0 <= j < rest.len() implies #[trigger] rest[j] == rows[j + 1] by {}
        if i > 0 && i < rows.len() && forall|j: int|
            0 <= j < i ==> (#[trigger] rows[j]).ifname != name {
            assert(rows[0].ifname != name);
            assert forall|j: int| 0 <= j < i - 1 implies (#[trigger] rest[j]).ifname != name by {
                assert(rows[j + 1].ifname != name);
            }
        }
        if forall|j: int| 0 <= j < rows.len() ==> (#[trigger] rows[j]).ifname != name {
            assert(rows[0].ifname != name);
            assert forall|j: int| 0 <= j < rest.len() implies (#[trigger] rest[j]).ifname != name by {
                assert(rows[j + 1].ifname != name);
            }
        }
    }
}

/// A device that was not known and is named is remembered by its last row, under the name.
pub proof fn law_named_device_is_remembered(
    s: Seq<DeviceModel>,
    ifindex: u32,
    m: Seq<u8>,
    name: Seq<char>,
    now_ms: u64,
    i: int,
)
    requires
        0 <= i < s.len(),
        s[i].ifindex == ifindex,
        lowered(s[i].mac) == lowered(mac_text(m)),
        forall|j: int|
            i < j < s.len() ==> !((#[trigger] s[j]).ifindex == ifindex && lowered(s[j].mac)
                == lowered(mac_text(m))),
    ensures
        last_row(s, ifindex, mac_text(m)) == Some(s[i]),
        ({
            let d = known_from(s[i], ifindex, m, name, now_ms);
            &&& d.ifindex == ifindex
            &&& d.mac == m
            &&& d.hostname == name
            &&& d.ipv4 == s[i].ipv4
            &&& d.ipv6 == s[i].ipv6
            &&& d.logical_iface == s[i].logical_iface
            &&& d.subnet == s[i].subnet
            &&& d.last_seen_ms == now_ms
        }),
    decreases s.len(),
{
    if i < s.len() - 1 {
        let front = s.drop_last();
        assert(front[i] == s[i]);
        assert forall|j: int| i < j < front.len() implies !((
        #[trigger] front[j]).ifindex == ifindex && lowered(front[j].mac) == lowered(mac_text(m))) by {
            assert(front[j] == s[j]);
        }
        let l = s[s.len() - 1];
        assert(!(l.ifindex == ifindex && lowered(l.mac) == lowered(mac_text(m))));
        law_named_device_is_remembered(front, ifindex, m, name, now_ms, i);
    }
}

/// The devices that are listed for an interface are those of that interface, and all of them;
/// without an interface they are all devices.
pub proof fn law_devices_of_an_interface(
    s: Seq<DeviceModel>,
    iface: Option<Seq<char>>,
    d: DeviceModel,
)
    ensures
        on_interface(s, iface).contains(d) <==> s.contains(d) && (match iface {
            Some(name) => name.len() == 0 || d.logical_iface == name,
            None => true,
        }),
    decreases s.len(),
{
    let r = on_interface(s, iface);
    if s.len() > 0 {
        let front = s.drop_last();
        let f = on_interface(front, iface);
        law_devices_of_an_interface(front, iface, d);
        if front.contains(d) {
            let i = choose|i: int| 0 <= i < front.len() && front[i] == d;
            assert(s[i] == d);
        }
        if f.contains(d) {
            let i = choose|i: int| 0 <= i < f.len() && f[i] == d;
            assert(r[i] == d);
        }
        if s.last() == d {
            assert(s[s.len() - 1] == d);
            if r.len() > f.len() {
                assert(r[r.len() - 1] == d);
            }
        }
        if s.contains(d) && !front.contains(d) {
            let i = choose|i: int| 0 <= i < s.len() && s[i] == d;
            if i < front.len() {
                assert(front[i] == d);
            }
            assert(s.last() == d);
        }
        if r.contains(d) && !f.contains(d) {
            let i = choose|i: int| 0 <= i < r.len() && r[i] == d;
            if i < f.len() {
                assert(f[i] == d);
            }
            assert(s.last() == d);
        }
    }
}

/// Naming a device changes the name in the rows with its interface and hardware address, in
/// whatever case it is written, and changes nothing else.
pub proof fn law_device_is_renamed(
    s: Seq<DeviceModel>,
    ifindex: u32,
    m: Seq<u8>,
    name: Seq<char>,
    i: int,
)
    requires
        0 <= i < s.len(),
    ensures
        ({
            let r = renamed(s, ifindex, mac_text(m), name);
            &&& r.len() == s.len()
            &&& s[i].ifindex == ifindex && lowered(s[i].mac) == lowered(mac_text(m)) ==> r[i]
                == (DeviceModel { hostname: name, ..s[i] })
            &&& !(s[i].ifindex == ifindex && lowered(s[i].mac) == lowered(mac_text(m))) ==> r[i]
                == s[i]
        }),
{
}

/// Every limit that is set is listed, with what it is on: the fixed ones and the scheduled ones
/// on a device, those of an interface on that one, and those for guests on theirs.
pub proof fn law_policy_lists_every_limit(
    fixed: Seq<([u8; 6], RateLimitValue)>,
    rules: Seq<RuleModel>,
    ifaces: Seq<(String, RateLimitValue)>,
    guests: Seq<(String, RateLimitValue)>,
    i: int,
)
    ensures
        ({
            let l = static_items(fixed) + rule_items(rules) + iface_items(ifaces, "iface"@)
                + iface_items(guests, "guest-default"@);
            let a = fixed.len() as int;
            let b = rules.len() as int;
            let c = ifaces.len() as int;
            &&& l.len() == fixed.len() + rules.len() + ifaces.len() + guests.len()
            &&& 0 <= i < fixed.len() ==> l[i].scope == "device"@ && l[i].mac == Some(
                mac_text(fixed[i].0@),
            ) && l[i].rates == rates_of(fixed[i].1)
            &&& 0 <= i < rules.len() ==> l[a + i].scope == "device"@ && l[a + i].mac == Some(
                mac_text(rules[i].mac),
            ) && l[a + i].rates == rates_of(rules[i].limit)
            &&& 0 <= i < ifaces.len() ==> l[a + b + i].scope == "iface"@ && l[a + b + i].iface
                == Some(ifaces[i].0@) && l[a + b + i].rates == rates_of(ifaces[i].1)
            &&& 0 <= i < guests.len() ==> l[a + b + c + i].scope == "guest-default"@ && l[a + b + c
                + i].iface == Some(guests[i].0@) && l[a + b + c + i].rates == rates_of(guests[i].1)
        }),
{
}

/// A rule is changed where it stands: the first one with its number.
pub proof fn law_rule_is_found_by_its_id(s: Seq<RuleModel>, id: Seq<char>)
    ensures
        0 <= rule_place(s, id) <= s.len(),
        rule_place(s, id) < s.len() ==> s[rule_place(s, id)].id == id,
        forall|i: int| 0 <= i < rule_place(s, id) ==> (#[trigger] s[i]).id != id,
    decreases s.len(),
{
    if s.len() > 0 && s[0].id != id {
        let rest = s.drop_first();
        law_rule_is_found_by_its_id(rest, id);
        assert forall|i: int| 0 <= i < rule_place(s, id) implies (#[trigger] s[i]).id != id by {
            if i > 0 {
                assert(rest[i - 1] == s[i]);
            }
        }
    }
}

/// A request is let in by the token behind the word `Bearer`; without the word it has none.
pub proof fn law_token_stands_behind_its_word(t: Seq<char>, h: Seq<char>)
    ensures
        token_in(Some("Bearer "@ + t)) == t,
        token_in(None).len() == 0,
        h.len() < 7 || h.take(7) != "Bearer "@ ==> token_in(Some(h)).len() == 0,
{
    reveal_strlit("Bearer ");
    let s = "Bearer "@ + t;
    assert(s.subrange(0, 7) =~= "Bearer "@);
    assert(s.skip(7) =~= t);
    if "Bearer "@.is_prefix_of(h) {
        assert(h.take(7) =~= h.subrange(0, 7));
    }
}

/// An origin is taken as it is written if it is a plain host of the web.
pub proof fn law_origin_is_a_host(host: Seq<char>, secure: bool)
    requires
        host.len() > 0,
    ensures
        ({
            let s = (if secure {
                "https://"@
            } else {
                "http://"@
            }) + host;
            let plain = forall|i: int|
                0 <= i < host.len() ==> #[trigger] host[i] != '/' && host[i] != '?' && host[i] != '#'
                    && host[i] != '@';
            (origin_fault(s) is None) == (plain && header_text(s))
        }),
{
    reveal_strlit("https://");
    reveal_strlit("http://");
    let start = if secure {
        "https://"@
    } else {
        "http://"@
    };
    let s = start + host;
    if secure {
        assert(s.subrange(0, 8) =~= "https://"@);
        assert(s.skip(8) =~= host);
        assert(!"http://"@.is_prefix_of(s)) by {
            if "http://"@.is_prefix_of(s) {
                assert(s.subrange(0, 7)[4] == s[4]);
                assert("http://"@[4] == ':');
                assert(s[4] == 's');
            }
        }
    } else {
        assert(s.subrange(0, 7) =~= "http://"@);
        assert(s.skip(7) =~= host);
    }
    assert(authority_of(s) == Some(host));
    let plain = forall|i: int|
        0 <= i < host.len() ==> #[trigger] host[i] != '/' && host[i] != '?' && host[i] != '#'
            && host[i] != '@';
    if plain {
        assert(host_only(host));
    } else {
        let i = choose|i: int|
            0 <= i < host.len() && !(#[trigger] host[i] != '/' && host[i] != '?' && host[i] != '#'
                && host[i] != '@');
        assert(host.contains(host[i]));
        assert(!host_only(host));
    }
}

/// The least and the greatest number that a setting takes.
pub open spec fn least_and_greatest(o: NumberOption) -> (int, int) {
    match o {
        NumberOption::DnsMaxRecords => (100, 50_000),
        NumberOption::DnsFlushInterval => (60, 24 * 60 * 60int),
        NumberOption::RingBuffer => (1, 90),
        NumberOption::NetlinkPriority => (0, u16::MAX as int),
        NumberOption::TcxAnchorIngressId => (0, u32::MAX as int),
        NumberOption::TcxAnchorEgressId => (0, u32::MAX as int),
        NumberOption::HistoryWindowMinutes => (1, 60),
        NumberOption::Port => (0, u16::MAX as int),
        NumberOption::DeviceTtlDays => (0, 10 * 365int),
    }
}

/// A setting is the number that is written, where it takes that number.
pub proof fn law_setting_is_its_number(o: NumberOption, n: nat)
    ensures
        least_and_greatest(o).0 <= n <= least_and_greatest(o).1 ==> o.value(dec(n)) == Some(n as u64),
        !(least_and_greatest(o).0 <= n <= least_and_greatest(o).1) ==> o.value(dec(n)) is None,
{
    lemma_notation(n, 10);
    law_parse_reads_notation(n, 10, n as int);
    if n <= least_and_greatest(o).1 {
        law_parse_reads_notation(n, 10, least_and_greatest(o).1);
    }
}

proof fn lemma_mark(s: Seq<char>, i: int)
    requires
        0 <= i <= s.len(),
        forall|j: int| 0 <= j < i ==> s[j] != '.' && s[j] != '-',
        i == s.len() || s[i] == '.' || s[i] == '-',
    ensures
        version_mark(s) == i,
    decreases s.len(),
{
    if i > 0 {
        let t = s.drop_first();
        assert(forall|j: int| 0 <= j < i - 1 ==> t[j] == s[j + 1]);
        lemma_mark(t, i - 1);
    }
}

proof fn lemma_no_marks(n: nat)
    ensures
        forall|j: int| 0 <= j < dec(n).len() ==> #[trigger] dec(n)[j] != '.' && dec(n)[j] != '-',
{
    lemma_notation(n, 10);
    assert forall|j: int| 0 <= j < dec(n).len() implies #[trigger] dec(n)[j] != '.' && dec(n)[j]
        != '-' by {
        assert(digit_value(dec(n)[j], 10) is Some);
    }
}

proof fn lemma_part(n: nat, rest: Seq<char>)
    requires
        rest.len() > 0,
        rest[0] == '.' || rest[0] == '-',
    ensures
        version_part(dec(n) + rest) == (dec(n), Some(rest.drop_first())),
{
    let s = dec(n) + rest;
    let k = dec(n).len() as int;
    lemma_no_marks(n);
    assert forall|j: int| 0 <= j < k implies s[j] != '.' && s[j] != '-' by {
        assert(s[j] == dec(n)[j]);
    }
    assert(s[k] == rest[0]);
    lemma_mark(s, k);
    assert(s.take(k) =~= dec(n));
    assert(s.skip(k + 1) =~= rest.drop_first());
}

/// A version of three parts as one number.
pub open spec fn version_number(a: int, b: int, c: int) -> int {
    (a * 0x1_0000_0000 + b) * 0x1_0000_0000 + c
}

/// The release of a kernel is read by its three numbers, whatever stands behind them, and one
/// that is not older than another is so by the first number that differs.
pub proof fn law_release_is_read_by_its_numbers(
    a: u32,
    b: u32,
    c: u32,
    tail: Seq<char>,
    x: u32,
    y: u32,
    z: u32,
)
    ensures
        ({
            let s = dec(a as nat) + "."@ + dec(b as nat) + "."@ + dec(c as nat) + "-"@ + tail;
            &&& kernel_version(s) == (a as int, b as int, c as int)
            &&& not_older(kernel_version(s), (x as int, y as int, z as int)) <==> version_number(
                a as int,
                b as int,
                c as int,
            ) >= version_number(x as int, y as int, z as int)
        }),
{
    reveal_strlit(".");
    reveal_strlit("-");
    let s = dec(a as nat) + "."@ + dec(b as nat) + "."@ + dec(c as nat) + "-"@ + tail;
    let r2 = "-"@ + tail;
    let r1 = "."@ + (dec(c as nat) + r2);
    let r0 = "."@ + (dec(b as nat) + r1);
    assert(s =~= dec(a as nat) + r0);
    lemma_part(a as nat, r0);
    assert(r0.drop_first() =~= dec(b as nat) + r1);
    lemma_part(b as nat, r1);
    let p = dec(c as nat) + r2;
    assert(r1.drop_first() =~= p);
    let k = dec(c as nat).len() as int;
    lemma_no_marks(c as nat);
    assert forall|j: int| 0 <= j < k implies p[j] != '-' by {
        assert(p[j] == dec(c as nat)[j]);
    }
    assert(p[k] == '-');
    lemma_find_char(p, '-', k);
    assert(p.take(k) =~= dec(c as nat));
    assert(before_char(p, '-') == dec(c as nat));
    law_parse_reads_notation(a as nat, 10, 0xffff_ffff);
    law_parse_reads_notation(b as nat, 10, 0xffff_ffff);
    law_parse_reads_notation(c as nat, 10, 0xffff_ffff);
}

/// The days of a year before each month.
pub open spec fn days_by_month(year: int, month: int) -> int {
    let leap: int = if is_leap(year) && month > 2 {
        1
    } else {
        0
    };
    leap + seq![0int, 31, 59, 90, 120, 151, 181, 212, 243, 273, 304, 334][month - 1]
}

proof fn lemma_days_by_month(year: int, month: int)
    requires
        1 <= month <= 12,
    ensures
        days_before_month(year, month) == days_by_month(year, month),
{
    reveal_with_fuel(days_before_month, 13);
}

/// Today begins at its midnight. The week, the month and the year begin as many days before as
/// have passed of each, the week on a Monday.
pub proof fn law_period_reaches_back(
    scope: PeriodScope,
    c: LocalClock,
    now_ms: i64,
    ahead: int,
    today: i64,
    start: i64,
)
    requires
        reads(c, now_ms, ahead),
        is_time_of(today, (c.year, c.month, c.day), 0, (0, 0, 0, 0), ahead),
        ({
            let (month, day, back) = period_start(scope, c);
            is_time_of(start, (c.year, month, day), back, (0, 0, 0, 0), ahead)
        }),
    ensures
        today - start == 86_400_000 * (match scope {
            PeriodScope::Today => 0,
            PeriodScope::Week => c.weekday as int,
            PeriodScope::Month => c.day - 1,
            PeriodScope::Year => days_by_month(c.year as int, c.month as int) + c.day - 1,
        }),
        epoch_day(1970, 1, 1) == 0,
        c.weekday == (epoch_day(c.year as int, c.month as int, c.day as int) + 3) % 7,
{
    lemma_days_by_month(c.year as int, c.month as int);
    lemma_days_by_month(c.year as int, 1);
    lemma_days_by_month(1970, 1);
}

} // verus!

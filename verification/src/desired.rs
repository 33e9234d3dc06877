//! The limits to apply at a time, out of the policy, the devices that were seen
//! and the interfaces that are there.
use crate::clock::{in_calendar, lemma_reading_is_valid, local_clock, may_read, LocalClock};
use crate::deviceset::DeviceSet;
use crate::keys::DeviceTrafficKey;
use crate::limits::{
    limit_rate, limit_within, merge_limit, merged, stricter_of, RateKbps, RateKind, RateLimitValue,
};
use crate::mac::{law_mac_roundtrip, mac_text};
use crate::number::{digit_value, digits_value, parsed};
use crate::policy::{rule_read, rule_views, PolicyRuntime, RuleModel, ScheduledRule};
use crate::schedule::{
    has_day, is_day, law_mask_holds_its_days, time_read, PolicyError, SlotModel,
};
use crate::table::Table;
use crate::text::lemma_find_char;
use crate::topology::{
    find_index, find_name, iface_views, lemma_find_name_first, InterfaceModel, TopologySnapshot,
};
use vstd::prelude::*;

verus! {

/// Whether a rule holds at a moment. One whose end comes before its start runs
/// into the next day.
pub open spec fn rule_active(rule: RuleModel, c: LocalClock) -> bool {
    let minute = c.hour * 60 + c.minute;
    let today = (c.weekday + 1) as u8;
    let yesterday = if today == 1 {
        7u8
    } else {
        (today - 1) as u8
    };
    if rule.start_minute <= rule.end_minute {
        has_day(rule.days_mask, today) && rule.start_minute <= minute <= rule.end_minute
    } else if minute >= rule.start_minute {
        has_day(rule.days_mask, today)
    } else {
        minute <= rule.end_minute && has_day(rule.days_mask, yesterday)
    }
}

/// Whether a rule holds at a moment.
pub fn is_rule_active(rule: &ScheduledRule, c: &LocalClock) -> (r: bool)
    requires
        c.valid(),
    ensures
        r == rule_active(rule@, *c),
{
    let minute: u16 = (c.hour * 60 + c.minute) as u16;
    let today: u8 = (c.weekday + 1) as u8;
    if rule.start_minute <= rule.end_minute {
        rule.days_mask & (1u8 << (today - 1)) != 0 && minute >= rule.start_minute && minute
            <= rule.end_minute
    } else if minute >= rule.start_minute {
        rule.days_mask & (1u8 << (today - 1)) != 0
    } else if minute <= rule.end_minute {
        let yesterday: u8 = if today == 1 {
            7
        } else {
            today - 1
        };
        rule.days_mask & (1u8 << (yesterday - 1)) != 0
    } else {
        false
    }
}

/// The limits of devices with those of the rules that hold at a moment. Where the
/// moment is unknown no rule holds.
pub open spec fn with_rules(
    m: Map<Seq<u8>, RateLimitValue>,
    rules: Seq<RuleModel>,
    clock: Option<LocalClock>,
) -> Map<Seq<u8>, RateLimitValue>
    decreases rules.len(),
{
    if rules.len() == 0 {
        m
    } else {
        let before = with_rules(m, rules.drop_last(), clock);
        match clock {
            Some(c) => if rule_active(rules.last(), c) {
                merged(before, rules.last().mac, rules.last().limit)
            } else {
                before
            },
            None => before,
        }
    }
}

/// The limits of interfaces by number, of those that are there.
pub open spec fn by_number(
    entries: Seq<(String, RateLimitValue)>,
    topology: Seq<InterfaceModel>,
) -> Map<u32, RateLimitValue>
    decreases entries.len(),
{
    if entries.len() == 0 {
        Map::empty()
    } else {
        let before = by_number(entries.drop_last(), topology);
        match find_name(topology, entries.last().0@) {
            Some(x) => merged(before, x.ifindex, entries.last().1),
            None => before,
        }
    }
}

/// The limit for a guest: that of its interface, unless the device is exempt.
pub open spec fn guest_limit(
    defaults: Map<Seq<char>, RateLimitValue>,
    exempt: Map<(Seq<char>, Seq<u8>), ()>,
    topology: Seq<InterfaceModel>,
    ifindex: u32,
    mac: Seq<u8>,
) -> Option<RateLimitValue> {
    match find_index(topology, ifindex) {
        Some(x) => if defaults.dom().contains(x.name) && !exempt.dom().contains((x.name, mac)) {
            Some(defaults[x.name])
        } else {
            None
        },
        None => None,
    }
}

/// Whether a device was seen on an interface.
pub open spec fn was_seen(seen: Seq<(u32, [u8; 6])>, k: (u32, Seq<u8>)) -> bool {
    exists|i: int| 0 <= i < seen.len() && k == ((#[trigger] seen[i]).0, seen[i].1@)
}

/// The limits of the guests that were seen.
pub open spec fn guest_limits(
    seen: Seq<(u32, [u8; 6])>,
    defaults: Map<Seq<char>, RateLimitValue>,
    exempt: Map<(Seq<char>, Seq<u8>), ()>,
    topology: Seq<InterfaceModel>,
) -> Map<(u32, Seq<u8>), RateLimitValue> {
    Map::new(
        |k: (u32, Seq<u8>)|
            was_seen(seen, k) && guest_limit(
                defaults,
                exempt,
                topology,
                k.0,
                k.1,
            ) is Some,
        |k: (u32, Seq<u8>)| guest_limit(defaults, exempt, topology, k.0, k.1)->0,
    )
}

fn device_limits(
    base: &Table<[u8; 6], RateLimitValue>,
    rules: &Vec<ScheduledRule>,
    clock: &Option<LocalClock>,
) -> (r: Table<[u8; 6], RateLimitValue>)
    requires
        base.wf(),
        clock matches Some(c) ==> c.valid(),
    ensures
        r.wf(),
        r@ == with_rules(base@, rule_views(rules@), *clock),
{
    let mut r: Table<[u8; 6], RateLimitValue> = Table::new();
    let mut i: usize = 0;
    while i < base.entries.len()
        invariant
            i <= base.entries@.len(),
            base.wf(),
            r.wf(),
            r.entries@ == base.entries@.take(i as int),
        decreases base.entries@.len() - i,
    {
        let ghost before = r;
        r.entries.push((base.entries[i].0, base.entries[i].1));
        assert(r.entries@ =~= base.entries@.take(i + 1));
        assert forall|a: int, b: int| 0 <= a < b < r.entries@.len() implies (
        #[trigger] r.entries@[a]).0@ != (#[trigger] r.entries@[b]).0@ by {
            assert(r.entries@[a] == base.entries@[a]);
            assert(r.entries@[b] == base.entries@[b]);
        }
        i += 1;
    }
    assert(r.entries@ =~= base.entries@);
    assert(r@ =~= base@) by {
        assert forall|k: Seq<u8>| r.has(k) <==> base.has(k) by {
            if base.has(k) {
                assert(r.entries@[base.place(k)].0@ == k);
            }
            if r.has(k) {
                assert(base.entries@[r.place(k)].0@ == k);
            }
        }
        assert forall|k: Seq<u8>| r.has(k) implies #[trigger] r@[k] == base@[k] by {
            let p = r.place(k);
            assert(base.entries@[p].0@ == k);
            base.lemma_entry(p);
        }
    }
    let ghost all = rule_views(rules@);
    let mut i: usize = 0;
    assert(all.take(0) =~= Seq::<RuleModel>::empty());
    while i < rules.len()
        invariant
            i <= rules@.len(),
            all == rule_views(rules@),
            r.wf(),
            r@ == with_rules(base@, all.take(i as int), *clock),
            clock matches Some(c) ==> c.valid(),
        decreases rules@.len() - i,
    {
        assert(all.take(i + 1).drop_last() =~= all.take(i as int));
        assert(all.take(i + 1).last() == rules@[i as int]@);
        if let Some(c) = clock {
            if is_rule_active(&rules[i], c) {
                merge_limit(&mut r, rules[i].mac, rules[i].limit);
            }
        }
        i += 1;
    }
    assert(all.take(i as int) =~= all);
    r
}

fn first_named(topology: &TopologySnapshot, name: &String) -> (r: Option<u32>)
    ensures
        r == match find_name(topology@, name@) {
            Some(x) => Some(x.ifindex),
            None => None,
        },
{
    let list = topology.interfaces();
    let ghost s = topology@;
    let mut i: usize = 0;
    assert(s.take(0) =~= Seq::<InterfaceModel>::empty());
    while i < list.len()
        invariant
            i <= list@.len(),
            s == iface_views(list@),
            s == topology@,
            find_name(s.take(i as int), name@) is None,
        decreases list@.len() - i,
    {
        assert(s.take(i + 1).drop_last() =~= s.take(i as int));
        assert(s.take(i + 1).last() == list@[i as int]@);
        if list[i].name == *name {
            proof {
                lemma_find_name_first(s, name@, i + 1);
            }
            return Some(list[i].ifindex);
        }
        i += 1;
    }
    assert(s.take(i as int) =~= s);
    None
}

fn interface_limits(limits: &Table<String, RateLimitValue>, topology: &TopologySnapshot) -> (r:
    Table<u32, RateLimitValue>)
    ensures
        r.wf(),
        r@ == by_number(limits.entries@, topology@),
{
    let mut r: Table<u32, RateLimitValue> = Table::new();
    let ghost es = limits.entries@;
    let mut i: usize = 0;
    assert(es.take(0) =~= Seq::empty());
    while i < limits.entries.len()
        invariant
            i <= limits.entries@.len(),
            es == limits.entries@,
            r.wf(),
            r@ == by_number(es.take(i as int), topology@),
        decreases limits.entries@.len() - i,
    {
        assert(es.take(i + 1).drop_last() =~= es.take(i as int));
        if let Some(ifindex) = first_named(topology, &limits.entries[i].0) {
            merge_limit(&mut r, ifindex, limits.entries[i].1);
        }
        i += 1;
    }
    assert(es.take(i as int) =~= es);
    r
}

fn seen_guest_limits(runtime: &PolicyRuntime, seen: &[(u32, [u8; 6])], topology: &TopologySnapshot) -> (r:
    Table<(u32, [u8; 6]), RateLimitValue>)
    requires
        runtime.wf(),
    ensures
        r.wf(),
        r@ == guest_limits(
            seen@,
            runtime.guest_default_limits@,
            runtime.guest_whitelist@,
            topology@,
        ),
{
    let mut r: Table<(u32, [u8; 6]), RateLimitValue> = Table::new();
    let ghost defaults = runtime.guest_default_limits@;
    let ghost exempt = runtime.guest_whitelist@;
    let mut i: usize = 0;
    assert(r@ =~= guest_limits(seen@.take(0), defaults, exempt, topology@));
    while i < seen.len()
        invariant
            i <= seen@.len(),
            runtime.wf(),
            defaults == runtime.guest_default_limits@,
            exempt == runtime.guest_whitelist@,
            r.wf(),
            r@ == guest_limits(seen@.take(i as int), defaults, exempt, topology@),
        decreases seen@.len() - i,
    {
        let ghost before = r@;
        let ghost now = seen@.take(i as int);
        let ghost next = seen@.take(i + 1);
        let (ifindex, mac) = seen[i];
        let ghost key: (u32, Seq<u8>) = (ifindex, mac@);
        let ghost want = guest_limit(defaults, exempt, topology@, ifindex, mac@);
        let mut limit: Option<RateLimitValue> = None;
        if let Some(x) = topology.by_ifindex(ifindex) {
            if let Some(l) = runtime.guest_default_limits.get(&x.name) {
                let who = (x.name.clone(), mac);
                assert(who@ == (x.name@, mac@));
                if !runtime.guest_whitelist.contains(&who) {
                    limit = Some(*l);
                }
            }
        }
        assert(limit == want);
        if let Some(l) = limit {
            let k = (ifindex, mac);
            assert(k@ == key);
            merge_limit(&mut r, k, l);
            assert(stricter_of(l, l) == l);
            assert(r@ =~= before.insert(key, l));
        }
        assert(r@ =~= guest_limits(next, defaults, exempt, topology@)) by {
            assert forall|k: (u32, Seq<u8>)| #[trigger] was_seen(next, k) <==> (k == key || was_seen(
                now,
                k,
            )) by {
                if was_seen(now, k) {
                    let j = choose|j: int|
                        0 <= j < now.len() && k == ((#[trigger] now[j]).0, now[j].1@);
                    assert(next[j] == now[j]);
                }
                assert(next[i as int] == (ifindex, mac));
                if was_seen(next, k) {
                    let j = choose|j: int|
                        0 <= j < next.len() && k == ((#[trigger] next[j]).0, next[j].1@);
                    if j < i {
                        assert(next[j] == now[j]);
                    }
                }
            }
        }
        i += 1;
    }
    assert(seen@.take(i as int) =~= seen@);
    r
}

/// The limits to apply at a moment on the local calendar: of devices anywhere, of
/// devices on an interface, and of interfaces.
pub fn desired_limits(
    runtime: &PolicyRuntime,
    observed_pairs: &[(u32, [u8; 6])],
    topology: &TopologySnapshot,
    clock: &Option<LocalClock>,
) -> (r: (
    Table<[u8; 6], RateLimitValue>,
    Table<(u32, [u8; 6]), RateLimitValue>,
    Table<u32, RateLimitValue>,
))
    requires
        runtime.wf(),
        clock matches Some(c) ==> c.valid(),
    ensures
        r.0.wf(),
        r.1.wf(),
        r.2.wf(),
        r.0@ == with_rules(
            runtime.base.device_static@,
            rule_views(runtime.scheduled_rules@),
            *clock,
        ),
        r.1@ == guest_limits(
            observed_pairs@,
            runtime.guest_default_limits@,
            runtime.guest_whitelist@,
            topology@,
        ),
        r.2@ == by_number(runtime.iface_limits.entries@, topology@),
{
    (
        device_limits(&runtime.base.device_static, &runtime.scheduled_rules, clock),
        seen_guest_limits(runtime, observed_pairs, topology),
        interface_limits(&runtime.iface_limits, topology),
    )
}

/// The limits to apply at a time: those of the moment that the local calendar reads
/// the time as. Which of the moments at an offset of less than a day from UTC it is
/// depends on the time zone of the machine.
pub fn compute_desired_limits(
    runtime: &PolicyRuntime,
    observed_pairs: &[(u32, [u8; 6])],
    topology: &TopologySnapshot,
    now_ms: u64,
) -> (r: (
    Table<[u8; 6], RateLimitValue>,
    Table<(u32, [u8; 6]), RateLimitValue>,
    Table<u32, RateLimitValue>,
))
    requires
        runtime.wf(),
    ensures
        r.0.wf(),
        r.1.wf(),
        r.2.wf(),
        exists|clock: Option<LocalClock>|
            (clock is Some <==> in_calendar(now_ms as i64)) && (clock matches Some(c) ==> may_read(
                c,
                now_ms as i64,
            )) && r.0@ == #[trigger] with_rules(
                runtime.base.device_static@,
                rule_views(runtime.scheduled_rules@),
                clock,
            ),
        r.1@ == guest_limits(
            observed_pairs@,
            runtime.guest_default_limits@,
            runtime.guest_whitelist@,
            topology@,
        ),
        r.2@ == by_number(runtime.iface_limits.entries@, topology@),
{
    let clock = local_clock(now_ms as i64);
    proof {
        if let Some(c) = clock {
            lemma_reading_is_valid(c, now_ms as i64);
        }
    }
    desired_limits(runtime, observed_pairs, topology, &clock)
}

/// The devices of counters, each once.
pub open spec fn pairs_of(keys: Seq<DeviceTrafficKey>) -> Seq<(u32, Seq<u8>)>
    decreases keys.len(),
{
    if keys.len() == 0 {
        Seq::empty()
    } else {
        let before = pairs_of(keys.drop_last());
        let k = (keys.last().ifindex, keys.last().mac@);
        if before.contains(k) {
            before
        } else {
            before.push(k)
        }
    }
}

/// The pairs over plain values.
pub open spec fn pair_views(v: Seq<(u32, [u8; 6])>) -> Seq<(u32, Seq<u8>)> {
    v.map_values(|p: (u32, [u8; 6])| (p.0, p.1@))
}

/// The devices that have counters, each once, with their interfaces.
pub fn observed_pairs(keys: &Vec<DeviceTrafficKey>) -> (r: Vec<(u32, [u8; 6])>)
    ensures
        pair_views(r@) == pairs_of(keys@),
{
    let mut r: Vec<(u32, [u8; 6])> = Vec::new();
    let mut seen = DeviceSet::empty();
    let mut i: usize = 0;
    assert(keys@.take(0) =~= Seq::empty());
    assert(pair_views(r@) =~= pairs_of(keys@.take(0)));
    while i < keys.len()
        invariant
            i <= keys@.len(),
            pair_views(r@) == pairs_of(keys@.take(i as int)),
            forall|k: (u32, Seq<u8>)| #[trigger]
                seen@.contains(k) <==> pair_views(r@).contains(k),
        decreases keys@.len() - i,
    {
        assert(keys@.take(i + 1).drop_last() =~= keys@.take(i as int));
        let ifindex = keys[i].ifindex;
        let mac = keys[i].mac;
        assert(keys@.take(i + 1).last() == keys@[i as int]);
        assert(seen@.contains((ifindex, mac@)) <==> pair_views(r@).contains((ifindex, mac@)));
        if !seen.contains(ifindex, mac) {
            let ghost before = pair_views(r@);
            let ghost had = seen@;
            seen.insert(ifindex, mac);
            r.push((ifindex, mac));
            assert(pair_views(r@) =~= before.push((ifindex, mac@)));
            assert forall|k: (u32, Seq<u8>)| #[trigger] seen@.contains(k) <==> pair_views(
                r@,
            ).contains(k) by {
                if before.contains(k) {
                    let j = choose|j: int| 0 <= j < before.len() && before[j] == k;
                    assert(pair_views(r@)[j] == k);
                }
                assert(pair_views(r@)[before.len() as int] == (ifindex, mac@));
                if pair_views(r@).contains(k) {
                    let j = choose|j: int| 0 <= j < pair_views(r@).len() && pair_views(r@)[j] == k;
                    if j < before.len() {
                        assert(before[j] == k);
                    }
                }
            }
        }
        i += 1;
    }
    assert(keys@.take(i as int) =~= keys@);
    r
}

/// A limit that holds from the start is never loosened by a schedule.
pub proof fn law_rules_only_tighten(
    m: Map<Seq<u8>, RateLimitValue>,
    rules: Seq<RuleModel>,
    clock: Option<LocalClock>,
    mac: Seq<u8>,
)
    requires
        m.dom().contains(mac),
    ensures
        with_rules(m, rules, clock).dom().contains(mac),
        limit_within(with_rules(m, rules, clock)[mac], m[mac]),
    decreases rules.len(),
{
    if rules.len() > 0 {
        law_rules_only_tighten(m, rules.drop_last(), clock, mac);
    }
}

/// Every rule that holds at a moment limits its device.
pub proof fn law_active_rule_limits(
    m: Map<Seq<u8>, RateLimitValue>,
    rules: Seq<RuleModel>,
    clock: LocalClock,
    i: int,
)
    requires
        0 <= i < rules.len(),
        rule_active(rules[i], clock),
    ensures
        with_rules(m, rules, Some(clock)).dom().contains(rules[i].mac),
        limit_within(with_rules(m, rules, Some(clock))[rules[i].mac], rules[i].limit),
    decreases rules.len(),
{
    if i < rules.len() - 1 {
        law_active_rule_limits(m, rules.drop_last(), clock, i);
        assert(rules.drop_last()[i] == rules[i]);
    }
}

/// A device whose rules all rest keeps the limit that it had, or has none.
pub proof fn law_resting_rules_limit_nothing(
    m: Map<Seq<u8>, RateLimitValue>,
    rules: Seq<RuleModel>,
    clock: Option<LocalClock>,
    mac: Seq<u8>,
)
    requires
        forall|i: int|
            0 <= i < rules.len() && (#[trigger] rules[i]).mac == mac ==> (clock matches Some(c)
                ==> !rule_active(rules[i], c)),
    ensures
        with_rules(m, rules, clock).dom().contains(mac) == m.dom().contains(mac),
        m.dom().contains(mac) ==> with_rules(m, rules, clock)[mac] == m[mac],
    decreases rules.len(),
{
    if rules.len() > 0 {
        let front = rules.drop_last();
        assert forall|i: int| 0 <= i < front.len() && (#[trigger] front[i]).mac == mac implies (
        clock matches Some(c) ==> !rule_active(front[i], c)) by {
            assert(front[i] == rules[i]);
        }
        law_resting_rules_limit_nothing(m, front, clock, mac);
        assert(rules[rules.len() - 1] == rules.last());
    }
}

/// No limit for guests falls on an exempt device.
pub proof fn law_exempt_is_spared(
    seen: Seq<(u32, [u8; 6])>,
    defaults: Map<Seq<char>, RateLimitValue>,
    exempt: Map<(Seq<char>, Seq<u8>), ()>,
    topology: Seq<InterfaceModel>,
    x: InterfaceModel,
    mac: Seq<u8>,
)
    requires
        find_index(topology, x.ifindex) == Some(x),
        exempt.dom().contains((x.name, mac)),
    ensures
        !guest_limits(seen, defaults, exempt, topology).dom().contains((x.ifindex, mac)),
{
}

/// A time of day in four digits, such as `09:30`.
pub open spec fn clock_text(hour: int, minute: int) -> Seq<char> {
    seq![
        (48 + hour / 10) as char,
        (48 + hour % 10) as char,
        ':',
        (48 + minute / 10) as char,
        (48 + minute % 10) as char,
    ]
}

/// The minutes from a minute of a day of the week, which count from 1, Monday, on, to a
/// moment: from the last one before the moment, so less than a week.
pub open spec fn minutes_since(day: u8, minute: int, c: LocalClock) -> int {
    ((c.weekday * 1440 + c.hour * 60 + c.minute) - ((day - 1) * 1440 + minute)) % 10080
}

proof fn lemma_clock_text(hour: int, minute: int)
    requires
        0 <= hour < 24,
        0 <= minute < 60,
    ensures
        time_read(clock_text(hour, minute)) == Ok::<u16, PolicyError>((hour * 60 + minute) as u16),
{
    let s = clock_text(hour, minute);
    lemma_find_char(s, ':', 2);
    lemma_digit_pair(s.take(2), hour);
    lemma_digit_pair(s.skip(3), minute);
}

proof fn lemma_digit_pair(s: Seq<char>, n: int)
    requires
        0 <= n < 100,
        s.len() == 2,
        s[0] == (48 + n / 10) as char,
        s[1] == (48 + n % 10) as char,
    ensures
        parsed(s, 10, 65535) == Some(n),
{
    reveal_with_fuel(digits_value, 4);
    let t = s.drop_last();
    assert(digit_value(s[0], 10) == Some(n / 10));
    assert(digit_value(s[1], 10) == Some(n % 10));
    assert(s[0] != '+');
    assert(t.last() == s[0]);
    assert(t.drop_last() =~= Seq::<char>::empty());
    assert(digits_value(t, 10) == Some(n / 10));
}

/// A rule that is asked for with times of day and days of the week holds at a moment
/// just if one of its days began it: the moment comes after the time of its start on
/// that day by no more than from the start to the end, which is on the next day where
/// the end is the earlier time.
#[verifier::spinoff_prover]
#[verifier::rlimit(40)]
pub proof fn law_rule_holds_from_its_days(
    id: Seq<char>,
    mac: Seq<u8>,
    days: Seq<u8>,
    start: (int, int),
    end: (int, int),
    rates: RateKbps,
    c: LocalClock,
)
    requires
        mac.len() == 6,
        days.len() > 0,
        forall|i: int| 0 <= i < days.len() ==> 1 <= #[trigger] days[i] <= 7,
        0 <= start.0 < 24,
        0 <= start.1 < 60,
        0 <= end.0 < 24,
        0 <= end.1 < 60,
        c.hour < 24,
        c.minute < 60,
        c.weekday < 7,
    ensures
        ({
            let from = start.0 * 60 + start.1;
            let to = end.0 * 60 + end.1;
            let slot = SlotModel {
                start: clock_text(start.0, start.1),
                end: clock_text(end.0, end.1),
                days,
            };
            &&& rule_read(id, mac_text(mac), slot, rates) matches Ok(rule)
            &&& rule.id == id
            &&& rule.mac == mac
            &&& rule_active(rule, c) <==> exists|d: u8| #[trigger]
                days.contains(d) && minutes_since(d, from, c) <= (to - from) % 1440
        }),
{
    let from = start.0 * 60 + start.1;
    let to = end.0 * 60 + end.1;
    let slot = SlotModel {
        start: clock_text(start.0, start.1),
        end: clock_text(end.0, end.1),
        days,
    };
    lemma_clock_text(start.0, start.1);
    lemma_clock_text(end.0, end.1);
    law_mac_roundtrip(mac);
    assert(forall|i: int| 0 <= i < days.len() ==> is_day(#[trigger] days[i]));
    let rule = rule_read(id, mac_text(mac), slot, rates)->Ok_0;
    let today = (c.weekday + 1) as u8;
    let yesterday = if today == 1 {
        7u8
    } else {
        (today - 1) as u8
    };
    law_mask_holds_its_days(days, today);
    law_mask_holds_its_days(days, yesterday);
    let now = c.hour * 60 + c.minute;
    assert forall|d: u8| 1 <= d <= 7 implies (#[trigger] minutes_since(d, from, c) <= (to - from)
        % 1440 <==> (if from <= to {
        d == today && from <= now <= to
    } else {
        (d == today && now >= from) || (d == yesterday && now <= to)
    })) by {
        assert((to - from) % 1440 == if from <= to {
            to - from
        } else {
            to - from + 1440
        });
        let diff = (c.weekday * 1440 + now) - ((d - 1) * 1440 + from);
        assert(minutes_since(d, from, c) == if diff >= 0 {
            diff
        } else {
            diff + 10080
        });
    }
    assert forall|d: u8| #[trigger] days.contains(d) implies 1 <= d <= 7 by {
        let i = choose|i: int| 0 <= i < days.len() && days[i] == d;
        assert(1 <= days[i] <= 7);
    }
    if rule_active(rule, c) {
        if days.contains(today) && minutes_since(today, from, c) <= (to - from) % 1440 {
        } else {
            assert(days.contains(yesterday));
            assert(minutes_since(yesterday, from, c) <= (to - from) % 1440);
        }
    }
}

/// A device has a limit just if one was set for it or one of its rules holds. Each rate
/// of it is the least of those that are set for the device and of those of its rules
/// that hold, where zero is no limit.
pub proof fn law_device_limit_is_the_least(
    m: Map<Seq<u8>, RateLimitValue>,
    rules: Seq<RuleModel>,
    c: LocalClock,
    mac: Seq<u8>,
    kind: RateKind,
)
    ensures
        ({
            let r = with_rules(m, rules, Some(c));
            let rate = limit_rate(r[mac], kind);
            &&& r.dom().contains(mac) <==> m.dom().contains(mac) || exists|i: int|
                0 <= i < rules.len() && (#[trigger] rules[i]).mac == mac && rule_active(rules[i], c)
            &&& r.dom().contains(mac) ==> {
                &&& m.dom().contains(mac) && limit_rate(m[mac], kind) > 0 ==> 0 < rate
                    <= limit_rate(m[mac], kind)
                &&& forall|i: int|
                    0 <= i < rules.len() && (#[trigger] rules[i]).mac == mac && rule_active(
                        rules[i],
                        c,
                    ) && limit_rate(rules[i].limit, kind) > 0 ==> 0 < rate <= limit_rate(
                        rules[i].limit,
                        kind,
                    )
                &&& rate == 0 || (m.dom().contains(mac) && rate == limit_rate(m[mac], kind))
                    || exists|i: int|
                    0 <= i < rules.len() && (#[trigger] rules[i]).mac == mac && rule_active(
                        rules[i],
                        c,
                    ) && rate == limit_rate(rules[i].limit, kind)
            }
        }),
    decreases rules.len(),
{
    if rules.len() > 0 {
        let front = rules.drop_last();
        let n = rules.len() - 1;
        law_device_limit_is_the_least(m, front, c, mac, kind);
        assert(rules[n] == rules.last());
        assert forall|i: int| 0 <= i < n implies #[trigger] rules[i] == front[i] by {}
        let before = with_rules(m, front, Some(c));
        let after = with_rules(m, rules, Some(c));
        if exists|i: int|
            0 <= i < front.len() && (#[trigger] front[i]).mac == mac && rule_active(front[i], c) {
            let i = choose|i: int|
                0 <= i < front.len() && (#[trigger] front[i]).mac == mac && rule_active(front[i], c);
            assert(rules[i].mac == mac);
        }
        if before.dom().contains(mac) {
            let old_rate = limit_rate(before[mac], kind);
            if exists|i: int|
                0 <= i < front.len() && (#[trigger] front[i]).mac == mac && rule_active(front[i], c)
                    && old_rate == limit_rate(front[i].limit, kind) {
                let i = choose|i: int|
                    0 <= i < front.len() && (#[trigger] front[i]).mac == mac && rule_active(
                        front[i],
                        c,
                    ) && old_rate == limit_rate(front[i].limit, kind);
                assert(rules[i].mac == mac);
            }
        }
    }
}

/// Whether no two interfaces have a name or a number in common.
pub open spec fn told_apart(topology: Seq<InterfaceModel>) -> bool {
    forall|i: int, j: int|
        0 <= i < j < topology.len() ==> (#[trigger] topology[i]).name != (
        #[trigger] topology[j]).name && topology[i].ifindex != topology[j].ifindex
}

proof fn lemma_name_found(topology: Seq<InterfaceModel>, name: Seq<char>)
    requires
        told_apart(topology),
    ensures
        match find_name(topology, name) {
            Some(x) => x.name == name && topology.contains(x),
            None => forall|i: int| 0 <= i < topology.len() ==> (#[trigger] topology[i]).name != name,
        },
    decreases topology.len(),
{
    if topology.len() > 0 {
        let front = topology.drop_last();
        assert forall|i: int, j: int| 0 <= i < j < front.len() implies (#[trigger] front[i]).name
            != (#[trigger] front[j]).name && front[i].ifindex != front[j].ifindex by {
            assert(topology[i].name != topology[j].name);
        }
        lemma_name_found(front, name);
        if let Some(x) = find_name(front, name) {
            let i = choose|i: int| 0 <= i < front.len() && front[i] == x;
            assert(topology[i] == x);
        } else {
            assert forall|i: int| 0 <= i < front.len() implies (#[trigger] topology[i]).name
                != name by {
                assert(front[i].name != name);
            }
        }
        assert(topology[topology.len() - 1] == topology.last());
    }
}

proof fn lemma_number_found(topology: Seq<InterfaceModel>, i: int)
    requires
        told_apart(topology),
        0 <= i < topology.len(),
    ensures
        find_index(topology, topology[i].ifindex) == Some(topology[i]),
    decreases topology.len(),
{
    let front = topology.drop_last();
    if i < front.len() {
        assert forall|a: int, b: int| 0 <= a < b < front.len() implies (#[trigger] front[a]).name
            != (#[trigger] front[b]).name && front[a].ifindex != front[b].ifindex by {
            assert(topology[a].name != topology[b].name);
        }
        lemma_number_found(front, i);
        assert(topology[i].ifindex != topology[topology.len() - 1].ifindex);
    }
}

/// An interface has a limit just if one was set under its name, and it is that one.
pub proof fn law_interface_has_its_limit(
    entries: Seq<(String, RateLimitValue)>,
    topology: Seq<InterfaceModel>,
    i: int,
)
    requires
        told_apart(topology),
        forall|a: int, b: int|
            0 <= a < b < entries.len() ==> (#[trigger] entries[a]).0@ != (#[trigger] entries[b]).0@,
        0 <= i < topology.len(),
    ensures
        ({
            let r = by_number(entries, topology);
            let k = topology[i].ifindex;
            &&& r.dom().contains(k) <==> exists|j: int|
                0 <= j < entries.len() && (#[trigger] entries[j]).0@ == topology[i].name
            &&& forall|j: int|
                0 <= j < entries.len() && (#[trigger] entries[j]).0@ == topology[i].name ==> r[k]
                    == entries[j].1
        }),
    decreases entries.len(),
{
    if entries.len() > 0 {
        let front = entries.drop_last();
        let n = entries.len() - 1;
        assert forall|a: int, b: int| 0 <= a < b < front.len() implies (#[trigger] front[a]).0@ != (
        #[trigger] front[b]).0@ by {
            assert(entries[a].0@ != entries[b].0@);
        }
        law_interface_has_its_limit(front, topology, i);
        let last = entries.last();
        lemma_name_found(topology, last.0@);
        assert(entries[n] == last);
        assert forall|j: int| 0 <= j < n implies #[trigger] entries[j] == front[j] by {}
        let k = topology[i].ifindex;
        if let Some(x) = find_name(topology, last.0@) {
            let p = choose|p: int| 0 <= p < topology.len() && topology[p] == x;
            if p != i {
                assert(topology[p].ifindex != topology[i].ifindex);
                assert(topology[p].name != topology[i].name);
            } else {
                assert forall|j: int| 0 <= j < front.len() implies (#[trigger] front[j]).0@
                    != topology[i].name by {
                    assert(entries[j].0@ != entries[n].0@);
                }
            }
        }
        if exists|j: int| 0 <= j < front.len() && (#[trigger] front[j]).0@ == topology[i].name {
            let j = choose|j: int|
                0 <= j < front.len() && (#[trigger] front[j]).0@ == topology[i].name;
            assert(entries[j].0@ == topology[i].name);
        }
    }
}

/// A device that was seen on an interface has the limit for guests of that interface,
/// where there is one and the device is not exempt there; and no other device has one.
pub proof fn law_guest_has_the_default(
    seen: Seq<(u32, [u8; 6])>,
    defaults: Map<Seq<char>, RateLimitValue>,
    exempt: Map<(Seq<char>, Seq<u8>), ()>,
    topology: Seq<InterfaceModel>,
    i: int,
    mac: Seq<u8>,
)
    requires
        told_apart(topology),
        0 <= i < topology.len(),
    ensures
        ({
            let r = guest_limits(seen, defaults, exempt, topology);
            let x = topology[i];
            &&& r.dom().contains((x.ifindex, mac)) <==> defaults.dom().contains(x.name)
                && !exempt.dom().contains((x.name, mac)) && exists|j: int|
                0 <= j < seen.len() && (#[trigger] seen[j]).0 == x.ifindex && seen[j].1@ == mac
            &&& r.dom().contains((x.ifindex, mac)) ==> r[(x.ifindex, mac)] == defaults[x.name]
        }),
{
    lemma_number_found(topology, i);
    let x = topology[i];
    if exists|j: int|
        0 <= j < seen.len() && (#[trigger] seen[j]).0 == x.ifindex && seen[j].1@ == mac {
        let j = choose|j: int|
            0 <= j < seen.len() && (#[trigger] seen[j]).0 == x.ifindex && seen[j].1@ == mac;
        assert((x.ifindex, mac) == (seen[j].0, seen[j].1@));
    }
}

} // verus!

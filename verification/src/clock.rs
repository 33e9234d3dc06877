//! The local calendar: hours, days and longer periods around a time.
use chrono::{Datelike, TimeZone, Timelike};
use vstd::prelude::*;

verus! {

/// A moment on the local calendar. Weekdays count from Monday, which is zero.
#[derive(Clone, Copy, Debug, PartialEq, Eq, Structural)]
pub struct LocalClock {
    pub year: i32,
    pub month: u32,
    pub day: u32,
    pub hour: u32,
    pub minute: u32,
    pub weekday: u32,
}

impl LocalClock {
    /// The values are ones that a calendar has.
    pub open spec fn valid(self) -> bool {
        &&& 1 <= self.month <= 12
        &&& 1 <= self.day <= 31
        &&& self.hour < 24
        &&& self.minute < 60
        &&& self.weekday < 7
    }
}

/// The first millisecond of the calendar, which begins in the year -262143.
pub const CALENDAR_START_MS: i64 = -8_334_601_228_800_000;

/// The last millisecond of the calendar, which ends in the year 262142.
pub const CALENDAR_END_MS: i64 = 8_210_266_876_799_999;

/// Whether a time in milliseconds since the epoch lies in the calendar.
pub open spec fn in_calendar(ts_ms: i64) -> bool {
    CALENDAR_START_MS <= ts_ms <= CALENDAR_END_MS
}

/// Whether a year has a 29th of February.
pub open spec fn is_leap(year: int) -> bool {
    year % 4 == 0 && (year % 100 != 0 || year % 400 == 0)
}

/// How many days a month has.
pub open spec fn days_in_month(year: int, month: int) -> int {
    if month == 2 {
        if is_leap(year) {
            29
        } else {
            28
        }
    } else if month == 4 || month == 6 || month == 9 || month == 11 {
        30
    } else {
        31
    }
}

/// Whether there is such a date.
pub open spec fn is_date(year: int, month: int, day: int) -> bool {
    1 <= month <= 12 && 1 <= day <= days_in_month(year, month)
}

/// How many days of a year come before a month.
pub open spec fn days_before_month(year: int, month: int) -> int
    decreases month,
{
    if month <= 1 {
        0
    } else {
        days_before_month(year, month - 1) + days_in_month(year, month - 1)
    }
}

/// The days from the first of January 1970 to a date.
pub open spec fn epoch_day(year: int, month: int, day: int) -> int {
    let before = year - 1;
    365 * before + before / 4 - before / 100 + before / 400 + days_before_month(year, month) + day
        - 719163
}

/// Whether a number of seconds can be what a local calendar is ahead of UTC: less than
/// a day either way.
pub open spec fn is_offset(seconds: int) -> bool {
    -86_400 < seconds < 86_400
}

/// Whether a moment is the reading of a time on a calendar that is ahead of UTC by so
/// many seconds.
pub open spec fn reads(c: LocalClock, ts_ms: i64, ahead: int) -> bool {
    let day = epoch_day(c.year as int, c.month as int, c.day as int);
    &&& is_date(c.year as int, c.month as int, c.day as int)
    &&& c.hour < 24
    &&& c.minute < 60
    &&& day * 1440 + c.hour * 60 + c.minute == (ts_ms as int / 1000 + ahead) / 60
    &&& c.weekday == (day + 3) % 7
}

/// Whether a moment is the reading of a time on some calendar.
pub open spec fn may_read(c: LocalClock, ts_ms: i64) -> bool {
    exists|ahead: int| is_offset(ahead) && #[trigger] reads(c, ts_ms, ahead)
}

/// The milliseconds of a day before a time of day.
pub open spec fn time_ms(time: (u32, u32, u32, u32)) -> int {
    ((time.0 * 60 + time.1) * 60 + time.2) * 1000 + time.3
}

/// Whether a time is that of a moment, some days before a date, on a calendar that is
/// ahead of UTC by so many seconds.
pub open spec fn is_time_of(
    t: i64,
    date: (i32, u32, u32),
    days_back: u64,
    time: (u32, u32, u32, u32),
    ahead: int,
) -> bool {
    &&& is_date(date.0 as int, date.1 as int, date.2 as int)
    &&& t == (epoch_day(date.0 as int, date.1 as int, date.2 as int) - days_back) * 86_400_000
        + time_ms(time) - ahead * 1000
}

/// Whether a time, where there is one, is that of a moment on some calendar.
pub open spec fn may_be_time_of(
    t: Option<i64>,
    date: (i32, u32, u32),
    days_back: u64,
    time: (u32, u32, u32, u32),
) -> bool {
    t matches Some(t) ==> exists|ahead: int|
        is_offset(ahead) && #[trigger] is_time_of(t, date, days_back, time, ahead)
}

/// `chrono::Local.timestamp_millis_opt`: the local calendar's reading of a time in
/// milliseconds since the epoch. There is one for every time from the first to the
/// last millisecond of `chrono`'s dates in UTC, and it is the date, the time of day and
/// the weekday of the Gregorian calendar at some offset from UTC of less than a day.
/// Which offset it is depends on the time zone of the machine and is left open.
#[verifier::external_body]
pub(crate) fn local_clock(ts_ms: i64) -> (r: Option<LocalClock>)
    ensures
        r is Some <==> in_calendar(ts_ms),
        r matches Some(c) ==> may_read(c, ts_ms),
{
    chrono::Local.timestamp_millis_opt(ts_ms).single().map(|t| LocalClock {
        year: t.year(),
        month: t.month(),
        day: t.day(),
        hour: t.hour(),
        minute: t.minute(),
        weekday: t.weekday().num_days_from_monday(),
    })
}

/// `chrono::Local.from_local_datetime`: the time in milliseconds since the epoch
/// of a moment on the local calendar, some days before a date. The date and the
/// moment come from `NaiveDate::from_ymd_opt`, `checked_sub_days` and
/// `and_hms_milli_opt`, which have none for parts that no calendar has. The time is that
/// of the moment at some offset from UTC of less than a day. Which offset it is, and
/// whether the local calendar skips or repeats the moment, so that it has no time,
/// depends on the time zone of the machine and is left open.
#[verifier::external_body]
pub(crate) fn local_instant(
    date: (i32, u32, u32),
    days_back: u64,
    time: (u32, u32, u32, u32),
) -> (r: Option<i64>)
    ensures
        may_be_time_of(r, date, days_back, time),
{
    let date = chrono::NaiveDate::from_ymd_opt(date.0, date.1, date.2)?
        .checked_sub_days(chrono::Days::new(days_back))?;
    let moment = date.and_hms_milli_opt(time.0, time.1, time.2, time.3)?;
    chrono::Local.from_local_datetime(&moment).single().map(|t| t.timestamp_millis())
}

/// The parts of a reading are ones that a calendar has.
pub(crate) proof fn lemma_reading_is_valid(c: LocalClock, ts_ms: i64)
    requires
        may_read(c, ts_ms),
    ensures
        c.valid(),
{
}

/// The bounds of a bucket from what the calendar said: the time outside the
/// calendar belongs to the bucket (0, 0), and a bucket whose start or end is
/// skipped or repeated has no bounds.
pub open spec fn bounds(known: bool, start: Option<i64>, end: Option<i64>) -> Option<(u64, u64)> {
    if !known {
        Some((0, 0))
    } else {
        match (start, end) {
            (Some(a), Some(b)) => Some((a as u64, b as u64)),
            _ => None,
        }
    }
}

/// The bounds of a bucket from what the calendar said.
pub fn bucket_bounds(known: bool, start: Option<i64>, end: Option<i64>) -> (r: Option<(u64, u64)>)
    ensures
        r == bounds(known, start, end),
{
    if !known {
        return Some((0, 0));
    }
    match (start, end) {
        (Some(a), Some(b)) => Some((a as u64, b as u64)),
        _ => None,
    }
}

/// The times of day (hour, minute, second, millisecond) at which a day starts and
/// ends.
pub open spec fn day_span() -> ((u32, u32, u32, u32), (u32, u32, u32, u32)) {
    ((0, 0, 0, 0), (23, 59, 59, 999))
}

/// The times of day at which the hour of a moment starts and ends.
pub open spec fn hour_span(c: LocalClock) -> ((u32, u32, u32, u32), (u32, u32, u32, u32)) {
    ((c.hour, 0, 0, 0), (c.hour, 59, 59, 999))
}

/// The times of day between which a bucket of a moment lies: its hour or its day.
pub fn span_of(c: &LocalClock, hourly: bool) -> (r: (
    (u32, u32, u32, u32),
    (u32, u32, u32, u32),
))
    ensures
        r == if hourly {
            hour_span(*c)
        } else {
            day_span()
        },
{
    if hourly {
        ((c.hour, 0, 0, 0), (c.hour, 59, 59, 999))
    } else {
        ((0, 0, 0, 0), (23, 59, 59, 999))
    }
}

/// Whether bounds are those of the hour or the day of a time. They lie on the date that
/// the local calendar reads the time as. A time outside the calendar has the bounds
/// (0, 0), and one whose hour or day starts or ends at a moment that the calendar skips
/// or repeats has none.
pub open spec fn is_bucket_of(r: Option<(u64, u64)>, ts_ms: u64, hourly: bool) -> bool {
    if in_calendar(ts_ms as i64) {
        exists|c: LocalClock, start: Option<i64>, end: Option<i64>|
            {
                let date = (c.year, c.month, c.day);
                let (from, to) = if hourly {
                    hour_span(c)
                } else {
                    day_span()
                };
                &&& may_read(c, ts_ms as i64)
                &&& may_be_time_of(start, date, 0, from)
                &&& may_be_time_of(end, date, 0, to)
                &&& r == #[trigger] bounds_on(c, start, end)
            }
    } else {
        r == Some((0u64, 0u64))
    }
}

/// The bounds of a bucket from what the calendar said of the start and the end of it on
/// the date of a moment.
pub open spec fn bounds_on(c: LocalClock, start: Option<i64>, end: Option<i64>) -> Option<(u64, u64)> {
    bounds(true, start, end)
}

fn bucket_local(ts_ms: u64, hourly: bool) -> (r: Option<(u64, u64)>)
    ensures
        is_bucket_of(r, ts_ms, hourly),
{
    match local_clock(ts_ms as i64) {
        Some(c) => {
            let (from, to) = span_of(&c, hourly);
            let date = (c.year, c.month, c.day);
            let start = local_instant(date, 0, from);
            let end = local_instant(date, 0, to);
            let r = bucket_bounds(true, start, end);
            assert(r == bounds_on(c, start, end));
            r
        },
        None => bucket_bounds(false, None, None),
    }
}

/// The first and the last millisecond of the local day of a time.
pub fn daily_bucket_local(ts_ms: u64) -> (r: Option<(u64, u64)>)
    ensures
        is_bucket_of(r, ts_ms, false),
{
    bucket_local(ts_ms, false)
}

/// The first and the last millisecond of the local hour of a time.
pub fn hourly_bucket_local(ts_ms: u64) -> (r: Option<(u64, u64)>)
    ensures
        is_bucket_of(r, ts_ms, true),
{
    bucket_local(ts_ms, true)
}

/// Where the local calendar keeps its distance from UTC, the hour of a time and the day
/// of it hold the time and end right before the next one.
pub proof fn law_bucket_holds_its_time(
    c: LocalClock,
    ts_ms: i64,
    ahead: int,
    hourly: bool,
    start: i64,
    end: i64,
)
    requires
        reads(c, ts_ms, ahead),
        ({
            let date = (c.year, c.month, c.day);
            let (from, to) = if hourly {
                hour_span(c)
            } else {
                day_span()
            };
            is_time_of(start, date, 0, from, ahead) && is_time_of(end, date, 0, to, ahead)
        }),
    ensures
        start <= ts_ms <= end,
        end - start == if hourly {
            3_599_999int
        } else {
            86_399_999
        },
{
    let day = epoch_day(c.year as int, c.month as int, c.day as int);
    let sec = ts_ms as int / 1000;
    let minute = (sec + ahead) / 60;
    assert(60 * minute <= sec + ahead < 60 * minute + 60);
    assert(1000 * sec <= ts_ms < 1000 * sec + 1000);
    assert(minute == day * 1440 + c.hour * 60 + c.minute);
}

/// A period up to now.
#[derive(Clone, Copy, Debug, PartialEq, Eq, Structural)]
pub enum PeriodScope {
    Today,
    Week,
    Month,
    Year,
}

/// Where a period starts on the calendar: (month, day, days before it).
pub open spec fn period_start(scope: PeriodScope, c: LocalClock) -> (u32, u32, u64) {
    match scope {
        PeriodScope::Today => (c.month, c.day, 0),
        PeriodScope::Week => (c.month, c.day, c.weekday as u64),
        PeriodScope::Month => (c.month, 1, 0),
        PeriodScope::Year => (1, 1, 0),
    }
}

/// Where a period starts on the calendar.
pub fn period_start_of(scope: PeriodScope, c: &LocalClock) -> (r: (u32, u32, u64))
    ensures
        r == period_start(scope, *c),
{
    match scope {
        PeriodScope::Today => (c.month, c.day, 0),
        PeriodScope::Week => (c.month, c.day, c.weekday as u64),
        PeriodScope::Month => (c.month, 1, 0),
        PeriodScope::Year => (1, 1, 0),
    }
}

/// The range of a period from what the calendar said of its start and of the
/// start of the day. Outside the calendar it starts at zero.
pub open spec fn range_from(known: bool, today: Option<i64>, start: Option<i64>, now_ms: u64) -> Option<
    (u64, u64),
> {
    if !known {
        Some((0, now_ms))
    } else {
        match (today, start) {
            (Some(_), Some(a)) => Some((a as u64, now_ms)),
            _ => None,
        }
    }
}

/// The range of a period from what the calendar said of its start and of the start of
/// the day.
pub fn period_range(known: bool, today: Option<i64>, start: Option<i64>, now_ms: u64) -> (r: Option<
    (u64, u64),
>)
    ensures
        r == range_from(known, today, start, now_ms),
{
    if !known {
        return Some((0, now_ms));
    }
    match (today, start) {
        (Some(_), Some(a)) => Some((a as u64, now_ms)),
        _ => None,
    }
}

/// The range of a period from what the calendar said of its start and of the start of
/// the day on the date of a moment.
pub open spec fn range_on(c: LocalClock, today: Option<i64>, start: Option<i64>, now_ms: u64) -> Option<
    (u64, u64),
> {
    range_from(true, today, start, now_ms)
}

/// Whether a range is that of a period: it starts at midnight of the day with which the
/// period starts on the date that the local calendar reads now as, and it ends now.
/// Outside the calendar it starts at zero, and there is none where the calendar skips
/// or repeats that midnight or the last one.
pub open spec fn is_range_of(r: Option<(u64, u64)>, scope: PeriodScope, now_ms: u64) -> bool {
    if in_calendar(now_ms as i64) {
        exists|c: LocalClock, today: Option<i64>, start: Option<i64>|
            {
                let (month, day, back) = period_start(scope, c);
                &&& may_read(c, now_ms as i64)
                &&& may_be_time_of(today, (c.year, c.month, c.day), 0, (0, 0, 0, 0))
                &&& may_be_time_of(start, (c.year, month, day), back, (0, 0, 0, 0))
                &&& r == #[trigger] range_on(c, today, start, now_ms)
            }
    } else {
        r == Some((0u64, now_ms))
    }
}

/// The first millisecond of a period, and now.
pub fn period_range_ms(scope: PeriodScope, now_ms: u64) -> (r: Option<(u64, u64)>)
    ensures
        is_range_of(r, scope, now_ms),
        r matches Some((_, end)) ==> end == now_ms,
{
    match local_clock(now_ms as i64) {
        Some(c) => {
            let today = local_instant((c.year, c.month, c.day), 0, (0, 0, 0, 0));
            let (month, day, back) = period_start_of(scope, &c);
            let start = local_instant((c.year, month, day), back, (0, 0, 0, 0));
            let r = period_range(true, today, start, now_ms);
            assert(r == range_on(c, today, start, now_ms));
            r
        },
        None => period_range(false, None, None, now_ms),
    }
}

proof fn lemma_months_add_up(year: int, month: int)
    requires
        1 <= month <= 12,
    ensures
        days_before_month(year, month) >= 0,
{
    reveal_with_fuel(days_before_month, 12);
}

/// Where the local calendar keeps its distance from UTC, a period starts by the start
/// of the day, which has come by now; and a week starts with a Monday.
pub proof fn law_period_starts_by_today(
    scope: PeriodScope,
    c: LocalClock,
    now_ms: i64,
    ahead: int,
    today: i64,
    start: i64,
)
    requires
        reads(c, now_ms, ahead),
        is_time_of(today, (c.year, c.month, c.day), 0, (0, 0, 0, 0), ahead),
        ({
            let (month, day, back) = period_start(scope, c);
            is_time_of(start, (c.year, month, day), back, (0, 0, 0, 0), ahead)
        }),
    ensures
        start <= today <= now_ms,
        scope is Today ==> start == today,
        scope is Week ==> (epoch_day(c.year as int, c.month as int, c.day as int) - period_start(
            scope,
            c,
        ).2 + 3) % 7 == 0,
{
    let day = epoch_day(c.year as int, c.month as int, c.day as int);
    let sec = now_ms as int / 1000;
    let minute = (sec + ahead) / 60;
    assert(60 * minute <= sec + ahead < 60 * minute + 60);
    assert(1000 * sec <= now_ms < 1000 * sec + 1000);
    assert(minute == day * 1440 + c.hour * 60 + c.minute);
    lemma_months_add_up(c.year as int, c.month as int);
    let (month, first, back) = period_start(scope, c);
    assert(epoch_day(c.year as int, month as int, first as int) - back <= day);
}

} // verus!

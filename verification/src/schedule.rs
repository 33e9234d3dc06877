//! The hours and days at which a limit holds, as requests give them.
use crate::mac::MacError;
use crate::number::{
    dec, decimal, digit_char, digit_value, digits, digits_value, lemma_parsed_in_range,
    parse_unsigned, parsed,
};
use crate::text::{cut, lemma_find_char, split_once};
use vstd::prelude::*;

verus! {

/// Why a request to change the policy is refused.
#[derive(Clone, Copy, Debug, PartialEq, Eq, Structural)]
pub enum PolicyError {
    /// The text is no hardware address.
    Mac(MacError),
    /// A time without a colon.
    TimeFormat,
    /// An hour or a minute that is no number.
    TimeNumber,
    /// An hour over 23 or a minute over 59.
    TimeRange,
    /// A day that is not one of 1 to 7.
    DayRange,
    /// No day at all.
    NoDays,
    /// No rule has the identifier.
    UnknownRule,
    /// No interface has the name.
    UnknownInterface,
    /// The interface has no limit of its own.
    UnknownInterfaceLimit,
    /// The interface has no limit for guests.
    UnknownGuestDefault,
    /// The device is not exempt on the interface.
    UnknownWhitelistEntry,
}

/// The hours of a schedule: two times of day, and days of the week from 1,
/// Monday, to 7.
#[derive(Debug)]
pub struct TimeSlotApi {
    pub start: String,
    pub end: String,
    pub days: Vec<u8>,
}

/// A schedule's hours over plain values.
#[verifier::ext_equal]
pub struct SlotModel {
    pub start: Seq<char>,
    pub end: Seq<char>,
    pub days: Seq<u8>,
}

impl View for TimeSlotApi {
    type V = SlotModel;

    open spec fn view(&self) -> SlotModel {
        SlotModel { start: self.start@, end: self.end@, days: self.days@ }
    }
}

/// The minute of the day that a time names, such as `09:30`.
pub open spec fn time_read(s: Seq<char>) -> Result<u16, PolicyError> {
    match cut(s, ':') {
        None => Err(PolicyError::TimeFormat),
        Some((h, m)) => match (parsed(h, 10, 65535), parsed(m, 10, 65535)) {
            (Some(h), Some(m)) => if h > 23 || m > 59 {
                Err(PolicyError::TimeRange)
            } else {
                Ok((h * 60 + m) as u16)
            },
            _ => Err(PolicyError::TimeNumber),
        },
    }
}

/// Reads a time of day.
pub fn parse_hhmm(s: &str) -> (r: Result<u16, PolicyError>)
    ensures
        r == time_read(s@),
{
    match split_once(s, ':') {
        None => Err(PolicyError::TimeFormat),
        Some((h, m)) => {
            match (parse_unsigned(h.as_str(), 10, 65535), parse_unsigned(m.as_str(), 10, 65535)) {
                (Some(h), Some(m)) => {
                    if h > 23 || m > 59 {
                        return Err(PolicyError::TimeRange);
                    }
                    Ok((h * 60 + m) as u16)
                },
                _ => Err(PolicyError::TimeNumber),
            }
        },
    }
}

/// A number with at least two digits.
pub open spec fn two_digits(n: nat) -> Seq<char> {
    if n < 10 {
        seq!['0'] + dec(n)
    } else {
        dec(n)
    }
}

/// A minute of the day as a time.
pub open spec fn time_text(minute: u16) -> Seq<char> {
    two_digits((minute / 60) as nat) + seq![':'] + two_digits((minute % 60) as nat)
}

fn push_two_digits(s: &mut String, n: u16)
    ensures
        final(s)@ == old(s)@ + two_digits(n as nat),
{
    let ghost before = s@;
    if n < 10 {
        s.push('0');
    }
    s.push_str(decimal(n as u64).as_str());
    assert(s@ =~= before + two_digits(n as nat));
}

/// Writes a minute of the day as a time.
pub fn minute_to_hhmm(minute: u16) -> (r: String)
    ensures
        r@ == time_text(minute),
{
    let mut r = String::new();
    push_two_digits(&mut r, minute / 60);
    r.push(':');
    push_two_digits(&mut r, minute % 60);
    assert(r@ =~= time_text(minute));
    r
}

/// The bit of a day of the week.
pub open spec fn day_bit(day: u8) -> u8 {
    1u8 << ((day - 1) as u8)
}

/// Whether a mask has a day.
pub open spec fn has_day(mask: u8, day: u8) -> bool {
    mask & day_bit(day) != 0
}

/// Whether a day is one of a week.
pub open spec fn is_day(day: u8) -> bool {
    1 <= day <= 7
}

/// The mask of days.
pub open spec fn mask_of(days: Seq<u8>) -> u8
    decreases days.len(),
{
    if days.len() == 0 {
        0
    } else {
        mask_of(days.drop_last()) | day_bit(days.last())
    }
}

/// A mask has the days that it was made of, and no others.
pub proof fn law_mask_holds_its_days(days: Seq<u8>, day: u8)
    requires
        forall|i: int| 0 <= i < days.len() ==> is_day(#[trigger] days[i]),
        is_day(day),
    ensures
        has_day(mask_of(days), day) <==> days.contains(day),
    decreases days.len(),
{
    let b: u8 = (day - 1) as u8;
    if days.len() == 0 {
        assert(0u8 & (1u8 << b) == 0u8) by (bit_vector);
    } else {
        let front = days.drop_last();
        let last = days.last();
        law_mask_holds_its_days(front, day);
        let m = mask_of(front);
        let a: u8 = (last - 1) as u8;
        assert(((m | (1u8 << a)) & (1u8 << b) != 0u8) <==> (a == b || (m & (1u8 << b)) != 0u8))
            by (bit_vector)
            requires
                a < 7,
                b < 7,
        ;
        if front.contains(day) {
            let i = choose|i: int| 0 <= i < front.len() && front[i] == day;
            assert(days[i] == day);
        }
        if days.contains(day) {
            let i = choose|i: int| 0 <= i < days.len() && days[i] == day;
            if i < front.len() {
                assert(front[i] == day);
            }
        }
        assert(days[days.len() - 1] == last);
    }
}

/// The days of a mask, in their order.
pub open spec fn days_to(mask: u8, last: u8) -> Seq<u8>
    decreases last,
{
    if last == 0 {
        Seq::empty()
    } else if has_day(mask, last) {
        days_to(mask, (last - 1) as u8).push(last)
    } else {
        days_to(mask, (last - 1) as u8)
    }
}

/// The days of a mask.
pub fn days_mask_to_vec(mask: u8) -> (r: Vec<u8>)
    ensures
        r@ == days_to(mask, 7),
{
    let mut r: Vec<u8> = Vec::new();
    let mut day: u8 = 0;
    while day < 7
        invariant
            day <= 7,
            r@ == days_to(mask, day),
        decreases 7 - day,
    {
        day += 1;
        if mask & (1u8 << (day - 1)) != 0 {
            r.push(day);
        }
    }
    r
}

/// The mask of days that a request gives.
pub open spec fn days_read(days: Seq<u8>) -> Result<u8, PolicyError> {
    if exists|i: int| 0 <= i < days.len() && !is_day(#[trigger] days[i]) {
        Err(PolicyError::DayRange)
    } else if days.len() == 0 {
        Err(PolicyError::NoDays)
    } else {
        Ok(mask_of(days))
    }
}

fn read_days(days: &Vec<u8>) -> (r: Result<u8, PolicyError>)
    ensures
        r == days_read(days@),
{
    let mut mask: u8 = 0;
    let mut i: usize = 0;
    assert(days@.take(0) =~= Seq::<u8>::empty());
    while i < days.len()
        invariant
            i <= days@.len(),
            forall|j: int| 0 <= j < i ==> is_day(#[trigger] days@[j]),
            mask == mask_of(days@.take(i as int)),
        decreases days@.len() - i,
    {
        let d = days[i];
        if d < 1 || d > 7 {
            assert(!is_day(days@[i as int]));
            return Err(PolicyError::DayRange);
        }
        assert(days@.take(i + 1).drop_last() =~= days@.take(i as int));
        mask = mask | (1u8 << (d - 1));
        i += 1;
    }
    assert(days@.take(i as int) =~= days@);
    if mask == 0 {
        proof {
            if days@.len() > 0 {
                law_mask_holds_its_days(days@, days@[0]);
                let b: u8 = (days@[0] - 1) as u8;
                assert(0u8 & (1u8 << b) == 0u8) by (bit_vector);
            }
        }
        return Err(PolicyError::NoDays);
    }
    Ok(mask)
}

/// The two minutes and the days that a request gives.
pub open spec fn slot_read(slot: SlotModel) -> Result<(u16, u16, u8), PolicyError> {
    match time_read(slot.start) {
        Err(e) => Err(e),
        Ok(start) => match time_read(slot.end) {
            Err(e) => Err(e),
            Ok(end) => match days_read(slot.days) {
                Err(e) => Err(e),
                Ok(mask) => Ok((start, end, mask)),
            },
        },
    }
}

/// Reads the hours of a schedule.
pub fn parse_time_slot(slot: &TimeSlotApi) -> (r: Result<(u16, u16, u8), PolicyError>)
    ensures
        r == slot_read(slot@),
{
    let start = match parse_hhmm(slot.start.as_str()) {
        Ok(m) => m,
        Err(e) => return Err(e),
    };
    let end = match parse_hhmm(slot.end.as_str()) {
        Ok(m) => m,
        Err(e) => return Err(e),
    };
    match read_days(&slot.days) {
        Ok(mask) => Ok((start, end, mask)),
        Err(e) => Err(e),
    }
}

/// The time that a minute of the day is written as is read as that minute.
pub proof fn law_time_roundtrip(minute: u16)
    requires
        minute < 1440,
    ensures
        time_read(time_text(minute)) == Ok::<u16, PolicyError>(minute),
{
    let h = (minute / 60) as nat;
    let m = (minute % 60) as nat;
    lemma_two_digits(h);
    lemma_two_digits(m);
    let s = time_text(minute);
    let a = two_digits(h);
    let b = two_digits(m);
    assert(a.len() == 2 && b.len() == 2);
    assert(s[0] == a[0] && s[1] == a[1] && s[2] == ':');
    lemma_find_char(s, ':', 2);
    assert(s.take(2) =~= a);
    assert(s.skip(3) =~= b);
}

proof fn lemma_two_digits(n: nat)
    requires
        n < 100,
    ensures
        two_digits(n).len() == 2,
        two_digits(n)[0] != ':',
        two_digits(n)[1] != ':',
        parsed(two_digits(n), 10, 65535) == Some(n as int),
{
    reveal_with_fuel(digits, 3);
    reveal_with_fuel(digits_value, 4);
    let s = two_digits(n);
    let hi = n as int / 10;
    let lo = n as int % 10;
    assert(s =~= seq![digit_char(hi), digit_char(lo)]);
    assert(digit_value(s[0], 10) == Some(hi));
    assert(digit_value(s[1], 10) == Some(lo));
    assert(s[0] != '+');
    let t = s.drop_last();
    assert(t.last() == s[0]);
    assert(t.drop_last() =~= Seq::<char>::empty());
    assert(digits_value(t, 10) == Some(hi));
    assert(digits_value(s, 10) == Some(hi * 10 + lo));
}

proof fn lemma_mask_fits(days: Seq<u8>)
    requires
        forall|i: int| 0 <= i < days.len() ==> is_day(#[trigger] days[i]),
    ensures
        mask_of(days) < 128,
    decreases days.len(),
{
    if days.len() > 0 {
        lemma_mask_fits(days.drop_last());
        let m = mask_of(days.drop_last());
        let a: u8 = (days.last() - 1) as u8;
        assert(m | (1u8 << a) < 128) by (bit_vector)
            requires
                m < 128,
                a < 7,
        ;
    }
}

proof fn lemma_days_to(mask: u8, last: u8)
    requires
        last <= 7,
    ensures
        forall|i: int| 0 <= i < days_to(mask, last).len() ==> is_day(#[trigger] days_to(mask, last)[i]),
        mask_of(days_to(mask, last)) == mask & ((1u8 << last) - 1) as u8,
    decreases last,
{
    if last == 0 {
        assert(mask & ((1u8 << 0u8) - 1) as u8 == 0) by (bit_vector);
    } else {
        let b: u8 = (last - 1) as u8;
        lemma_days_to(mask, b);
        let before = days_to(mask, b);
        if has_day(mask, last) {
            assert(before.push(last).drop_last() =~= before);
            assert((mask & ((1u8 << b) - 1) as u8) | (1u8 << b) == mask & ((1u8 << ((b + 1) as u8))
                - 1) as u8) by (bit_vector)
                requires
                    b < 7,
                    mask & (1u8 << b) != 0,
            ;
        } else {
            assert(mask & ((1u8 << b) - 1) as u8 == mask & ((1u8 << ((b + 1) as u8)) - 1) as u8)
                by (bit_vector)
                requires
                    b < 7,
                    mask & (1u8 << b) == 0,
            ;
        }
    }
}

/// The days that are listed of a mask make the same mask again.
pub proof fn law_days_roundtrip(days: Seq<u8>, mask: u8)
    requires
        days_read(days) == Ok::<u8, PolicyError>(mask),
    ensures
        days_read(days_to(mask, 7)) == Ok::<u8, PolicyError>(mask),
{
    assert forall|i: int| 0 <= i < days.len() implies is_day(#[trigger] days[i]) by {}
    lemma_mask_fits(days);
    lemma_days_to(mask, 7);
    assert(mask & ((1u8 << 7u8) - 1) as u8 == mask) by (bit_vector)
        requires
            mask < 128,
    ;
    law_mask_holds_its_days(days, days[0]);
    let b: u8 = (days[0] - 1) as u8;
    assert(0u8 & (1u8 << b) == 0u8) by (bit_vector);
    assert(mask_of(Seq::<u8>::empty()) == 0);
    if days_to(mask, 7).len() == 0 {
        assert(days_to(mask, 7) =~= Seq::<u8>::empty());
    }
}

proof fn lemma_read_time_fits(s: Seq<char>)
    ensures
        time_read(s) matches Ok(m) ==> m < 1440,
{
    match cut(s, ':') {
        Some((h, m)) => {
            lemma_parsed_in_range(h, 10, 65535);
            lemma_parsed_in_range(m, 10, 65535);
        },
        None => {},
    }
}

/// The hours that are shown of a schedule are read as the same hours again.
pub proof fn law_slot_roundtrip(slot: SlotModel, start: u16, end: u16, mask: u8)
    requires
        slot_read(slot) == Ok::<(u16, u16, u8), PolicyError>((start, end, mask)),
    ensures
        slot_read(
            SlotModel { start: time_text(start), end: time_text(end), days: days_to(mask, 7) },
        ) == Ok::<(u16, u16, u8), PolicyError>((start, end, mask)),
{
    lemma_read_time_fits(slot.start);
    lemma_read_time_fits(slot.end);
    law_time_roundtrip(start);
    law_time_roundtrip(end);
    law_days_roundtrip(slot.days, mask);
}

} // verus!

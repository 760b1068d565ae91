//! Timestamps of the dump format: the fixed pattern `YYYY-MM-DDTHH:MM:SS.fff`
//! (millisecond precision, no timezone suffix), interpreted as UTC.
//!
//! A timestamp is held as plain calendar fields so that parsing, printing and
//! the day-granularity comparison used by the vote tabulation are all verified.

use vstd::prelude::*;

use crate::numtext::all_digits;
use crate::numtext::dec_value;
use crate::numtext::pow10;

verus! {

#[derive(Clone, Copy, PartialEq, Eq, Structural, Debug)]
pub struct Timestamp {
    pub year: u32,
    pub month: u32,
    pub day: u32,
    pub hour: u32,
    pub minute: u32,
    pub second: u32,
    pub milli: u32,
}

pub open spec fn spec_is_leap_year(y: int) -> bool {
    y % 4 == 0 && (y % 100 != 0 || y % 400 == 0)
}

pub open spec fn spec_days_in_month(y: int, m: int) -> int {
    if m == 2 {
        if spec_is_leap_year(y) {
            29
        } else {
            28
        }
    } else if m == 4 || m == 6 || m == 9 || m == 11 {
        30
    } else {
        31
    }
}

pub fn is_leap_year(y: u32) -> (r: bool)
    ensures
        r == spec_is_leap_year(y as int),
{
    y % 4 == 0 && (y % 100 != 0 || y % 400 == 0)
}

pub fn days_in_month(y: u32, m: u32) -> (r: u32)
    ensures
        r == spec_days_in_month(y as int, m as int),
{
    if m == 2 {
        if is_leap_year(y) {
            29
        } else {
            28
        }
    } else if m == 4 || m == 6 || m == 9 || m == 11 {
        30
    } else {
        31
    }
}

impl Timestamp {
    /// A well-formed calendar instant with a four-digit year.
    pub open spec fn valid(self) -> bool {
        &&& self.year <= 9999
        &&& 1 <= self.month <= 12
        &&& 1 <= self.day <= spec_days_in_month(self.year as int, self.month as int)
        &&& self.hour <= 23
        &&& self.minute <= 59
        &&& self.second <= 59
        &&& self.milli <= 999
    }

    pub fn is_valid(&self) -> (r: bool)
        ensures
            r == self.valid(),
    {
        self.year <= 9999 && 1 <= self.month && self.month <= 12 && 1 <= self.day && self.day
            <= days_in_month(self.year, self.month) && self.hour <= 23 && self.minute <= 59
            && self.second <= 59 && self.milli <= 999
    }
}

/// `s` spells a timestamp in the fixed dump pattern.
pub open spec fn is_timestamp_text(s: Seq<u8>) -> bool {
    &&& s.len() == 23
    &&& all_digits(s.subrange(0, 4))
    &&& s[4] == 45u8
    &&& all_digits(s.subrange(5, 7))
    &&& s[7] == 45u8
    &&& all_digits(s.subrange(8, 10))
    &&& s[10] == 84u8
    &&& all_digits(s.subrange(11, 13))
    &&& s[13] == 58u8
    &&& all_digits(s.subrange(14, 16))
    &&& s[16] == 58u8
    &&& all_digits(s.subrange(17, 19))
    &&& s[19] == 46u8
    &&& all_digits(s.subrange(20, 23))
}

/// The fields spelled by a timestamp text.
pub open spec fn timestamp_of(s: Seq<u8>) -> Timestamp {
    Timestamp {
        year: dec_value(s.subrange(0, 4)) as u32,
        month: dec_value(s.subrange(5, 7)) as u32,
        day: dec_value(s.subrange(8, 10)) as u32,
        hour: dec_value(s.subrange(11, 13)) as u32,
        minute: dec_value(s.subrange(14, 16)) as u32,
        second: dec_value(s.subrange(17, 19)) as u32,
        milli: dec_value(s.subrange(20, 23)) as u32,
    }
}

/// Parses the digit run `s[a..b]`; the run is short enough not to overflow.
fn parse_digits(s: &[u8], a: usize, b: usize) -> (r: Option<u32>)
    requires
        a <= b <= s@.len(),
        b - a <= 4,
    ensures
        r is Some <==> all_digits(s@.subrange(a as int, b as int)),
        r matches Some(v) ==> v == dec_value(s@.subrange(a as int, b as int)),
{
    let ghost run = s@.subrange(a as int, b as int);
    let mut i = a;
    let mut acc: u32 = 0;
    while i < b
        invariant
            a <= i <= b <= s@.len(),
            b - a <= 4,
            run == s@.subrange(a as int, b as int),
            all_digits(run.take(i - a)),
            acc == dec_value(run.take(i - a)),
            acc < pow10((i - a) as nat),
        decreases b - i,
    {
        let c = s[i];
        if c < 48 || c > 57 {
            proof {
                assert(run[i - a] == c);
                assert(!all_digits(run));
            }
            return None;
        }
        proof {
            crate::numtext::lemma_dec_value_step(run, i - a);
            assert(pow10((i + 1 - a) as nat) == 10 * pow10((i - a) as nat));
            assert(run.take(i + 1 - a).drop_last() =~= run.take(i - a));
            assert(pow10(0) == 1);
            assert(pow10(1) == 10 * pow10(0));
            assert(pow10(2) == 10 * pow10(1));
            assert(pow10(3) == 10 * pow10(2));
            assert(i - a <= 3);
            assert(acc < 1000);
        }
        acc = acc * 10 + (c - 48) as u32;
        i = i + 1;
        proof {
            assert(all_digits(run.take(i - a)));
        }
    }
    proof {
        assert(run.take(b - a) =~= run);
    }
    Some(acc)
}

/// Parses the fixed pattern, accepting exactly the well-formed calendar instants.
pub fn parse_timestamp(s: &[u8]) -> (r: Option<Timestamp>)
    ensures
        r is Some <==> is_timestamp_text(s@) && timestamp_of(s@).valid(),
        r matches Some(t) ==> t == timestamp_of(s@) && t.valid(),
{
    if s.len() != 23 {
        return None;
    }
    if !(s[4] == 45 && s[7] == 45 && s[10] == 84 && s[13] == 58 && s[16] == 58 && s[19] == 46) {
        return None;
    }
    let year = match parse_digits(s, 0, 4) {
        None => {
            return None;
        }
        Some(v) => v,
    };
    let month = match parse_digits(s, 5, 7) {
        None => {
            return None;
        }
        Some(v) => v,
    };
    let day = match parse_digits(s, 8, 10) {
        None => {
            return None;
        }
        Some(v) => v,
    };
    let hour = match parse_digits(s, 11, 13) {
        None => {
            return None;
        }
        Some(v) => v,
    };
    let minute = match parse_digits(s, 14, 16) {
        None => {
            return None;
        }
        Some(v) => v,
    };
    let second = match parse_digits(s, 17, 19) {
        None => {
            return None;
        }
        Some(v) => v,
    };
    let milli = match parse_digits(s, 20, 23) {
        None => {
            return None;
        }
        Some(v) => v,
    };
    let t = Timestamp { year, month, day, hour, minute, second, milli };
    proof {
        assert(t == timestamp_of(s@));
    }
    if t.is_valid() {
        Some(t)
    } else {
        None
    }
}

/// Unfolds the value of a two-digit run.
proof fn lemma_dec_value2(s: Seq<u8>)
    requires
        s.len() == 2,
    ensures
        dec_value(s) == (s[0] - 48) * 10 + (s[1] - 48),
{
    let s0 = s.drop_last();
    assert(s0.drop_last() =~= Seq::<u8>::empty());
    assert(dec_value(Seq::<u8>::empty()) == 0);
    assert(dec_value(s0) == dec_value(s0.drop_last()) * 10 + (s0.last() - 48));
    assert(s0.last() == s[0]);
    assert(s.last() == s[1]);
}

/// Unfolds the value of a three-digit run.
proof fn lemma_dec_value3(s: Seq<u8>)
    requires
        s.len() == 3,
    ensures
        dec_value(s) == ((s[0] - 48) * 10 + (s[1] - 48)) * 10 + (s[2] - 48),
{
    lemma_dec_value2(s.drop_last());
    assert(s.drop_last()[0] == s[0]);
    assert(s.drop_last()[1] == s[1]);
    assert(s.last() == s[2]);
}

/// Unfolds the value of a four-digit run.
proof fn lemma_dec_value4(s: Seq<u8>)
    requires
        s.len() == 4,
    ensures
        dec_value(s) == (((s[0] - 48) * 10 + (s[1] - 48)) * 10 + (s[2] - 48)) * 10 + (s[3] - 48),
{
    lemma_dec_value3(s.drop_last());
    assert(s.drop_last()[0] == s[0]);
    assert(s.drop_last()[1] == s[1]);
    assert(s.drop_last()[2] == s[2]);
    assert(s.last() == s[3]);
}

/// The 23 bytes that spell `t` in the fixed pattern.
pub open spec fn timestamp_repr(t: Timestamp) -> Seq<u8> {
    seq![
        (48 + t.year / 1000) as u8,
        (48 + (t.year % 1000) / 100) as u8,
        (48 + (t.year % 1000) % 100 / 10) as u8,
        (48 + (t.year % 1000) % 100 % 10) as u8,
        45u8,
        (48 + t.month / 10) as u8,
        (48 + t.month % 10) as u8,
        45u8,
        (48 + t.day / 10) as u8,
        (48 + t.day % 10) as u8,
        84u8,
        (48 + t.hour / 10) as u8,
        (48 + t.hour % 10) as u8,
        58u8,
        (48 + t.minute / 10) as u8,
        (48 + t.minute % 10) as u8,
        58u8,
        (48 + t.second / 10) as u8,
        (48 + t.second % 10) as u8,
        46u8,
        (48 + t.milli / 100) as u8,
        (48 + (t.milli % 100) / 10) as u8,
        (48 + (t.milli % 100) % 10) as u8,
    ]
}

/// Prints `t` in the fixed pattern; the text reads back to `t`.
#[verifier::rlimit(100)]
#[verifier::spinoff_prover]
pub fn format_timestamp(t: &Timestamp) -> (r: Vec<u8>)
    requires
        t.valid(),
    ensures
        r@.len() == 23,
        r@ == timestamp_repr(*t),
        is_timestamp_text(r@),
        timestamp_of(r@) == *t,
{
    let y0: u8 = 48 + (t.year / 1000) as u8;
    let yr: u32 = t.year % 1000;
    let y1: u8 = 48 + (yr / 100) as u8;
    let yr2: u32 = yr % 100;
    let y2: u8 = 48 + (yr2 / 10) as u8;
    let y3: u8 = 48 + (yr2 % 10) as u8;
    let mo0: u8 = 48 + (t.month / 10) as u8;
    let mo1: u8 = 48 + (t.month % 10) as u8;
    let d0: u8 = 48 + (t.day / 10) as u8;
    let d1: u8 = 48 + (t.day % 10) as u8;
    let h0: u8 = 48 + (t.hour / 10) as u8;
    let h1: u8 = 48 + (t.hour % 10) as u8;
    let mi0: u8 = 48 + (t.minute / 10) as u8;
    let mi1: u8 = 48 + (t.minute % 10) as u8;
    let s0: u8 = 48 + (t.second / 10) as u8;
    let s1: u8 = 48 + (t.second % 10) as u8;
    let ms0: u8 = 48 + (t.milli / 100) as u8;
    let msr: u32 = t.milli % 100;
    let ms1: u8 = 48 + (msr / 10) as u8;
    let ms2: u8 = 48 + (msr % 10) as u8;
    let mut r: Vec<u8> = Vec::new();
    r.push(y0);
    r.push(y1);
    r.push(y2);
    r.push(y3);
    r.push(45);
    r.push(mo0);
    r.push(mo1);
    r.push(45);
    r.push(d0);
    r.push(d1);
    r.push(84);
    r.push(h0);
    r.push(h1);
    r.push(58);
    r.push(mi0);
    r.push(mi1);
    r.push(58);
    r.push(s0);
    r.push(s1);
    r.push(46);
    r.push(ms0);
    r.push(ms1);
    r.push(ms2);
    proof {
        let v = r@;
        assert(v.len() == 23);
        assert(v =~= timestamp_repr(*t));
        let ys = v.subrange(0, 4);
        assert(ys =~= seq![y0, y1, y2, y3]);
        lemma_dec_value4(ys);
        assert(t.year == 1000 * (t.year / 1000) + yr);
        assert(yr == 100 * (yr / 100) + yr2);
        assert(yr2 == 10 * (yr2 / 10) + yr2 % 10);
        assert(dec_value(ys) == t.year);
        assert(all_digits(ys));
        let mos = v.subrange(5, 7);
        assert(mos =~= seq![mo0, mo1]);
        lemma_dec_value2(mos);
        assert(dec_value(mos) == t.month);
        assert(all_digits(mos));
        let ds = v.subrange(8, 10);
        assert(ds =~= seq![d0, d1]);
        lemma_dec_value2(ds);
        assert(dec_value(ds) == t.day);
        assert(all_digits(ds));
        let hs = v.subrange(11, 13);
        assert(hs =~= seq![h0, h1]);
        lemma_dec_value2(hs);
        assert(dec_value(hs) == t.hour);
        assert(all_digits(hs));
        let mis = v.subrange(14, 16);
        assert(mis =~= seq![mi0, mi1]);
        lemma_dec_value2(mis);
        assert(dec_value(mis) == t.minute);
        assert(all_digits(mis));
        let ss = v.subrange(17, 19);
        assert(ss =~= seq![s0, s1]);
        lemma_dec_value2(ss);
        assert(dec_value(ss) == t.second);
        assert(all_digits(ss));
        let mss = v.subrange(20, 23);
        assert(mss =~= seq![ms0, ms1, ms2]);
        lemma_dec_value3(mss);
        assert(t.milli == 100 * (t.milli / 100) + msr);
        assert(msr == 10 * (msr / 10) + msr % 10);
        assert(dec_value(mss) == t.milli);
        assert(all_digits(mss));
        assert(is_timestamp_text(v));
        assert(timestamp_of(v) == *t);
    }
    r
}

/// The calendar-day part of `a` precedes that of `b`.
pub open spec fn day_lt(a: Timestamp, b: Timestamp) -> bool {
    ||| a.year < b.year
    ||| (a.year == b.year && a.month < b.month)
    ||| (a.year == b.year && a.month == b.month && a.day < b.day)
}

/// `a` and `b` fall on the same calendar day.
pub open spec fn day_eq(a: Timestamp, b: Timestamp) -> bool {
    a.year == b.year && a.month == b.month && a.day == b.day
}

pub enum DayOrder {
    Before,
    Same,
    After,
}

/// Compares two instants at day granularity, ignoring the time of day.
pub fn compare_day(a: &Timestamp, b: &Timestamp) -> (r: DayOrder)
    ensures
        r is Before <==> day_lt(*a, *b),
        r is Same <==> day_eq(*a, *b),
        r is After <==> day_lt(*b, *a),
{
    if a.year < b.year {
        DayOrder::Before
    } else if a.year > b.year {
        DayOrder::After
    } else if a.month < b.month {
        DayOrder::Before
    } else if a.month > b.month {
        DayOrder::After
    } else if a.day < b.day {
        DayOrder::Before
    } else if a.day > b.day {
        DayOrder::After
    } else {
        DayOrder::Same
    }
}

/// `a` is no later than `b`: lexicographic over all seven fields.
pub open spec fn ts_le(a: Timestamp, b: Timestamp) -> bool {
    if a.year != b.year {
        a.year < b.year
    } else if a.month != b.month {
        a.month < b.month
    } else if a.day != b.day {
        a.day < b.day
    } else if a.hour != b.hour {
        a.hour < b.hour
    } else if a.minute != b.minute {
        a.minute < b.minute
    } else if a.second != b.second {
        a.second < b.second
    } else {
        a.milli <= b.milli
    }
}

/// Compares two instants at full precision.
pub fn ts_before_or_equal(a: &Timestamp, b: &Timestamp) -> (r: bool)
    ensures
        r == ts_le(*a, *b),
{
    if a.year != b.year {
        a.year < b.year
    } else if a.month != b.month {
        a.month < b.month
    } else if a.day != b.day {
        a.day < b.day
    } else if a.hour != b.hour {
        a.hour < b.hour
    } else if a.minute != b.minute {
        a.minute < b.minute
    } else if a.second != b.second {
        a.second < b.second
    } else {
        a.milli <= b.milli
    }
}

} // verus!

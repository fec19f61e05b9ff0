use crate::numeric::{all_digits, digit_char, digit_value, digits_value, is_digit, only_digits};
use vstd::prelude::*;

verus! {

/// A UTC calendar date and time of day, to the second.
#[derive(Clone, Copy, Debug, PartialEq, Eq, Structural)]
pub struct ObsTime {
    pub year: u16,
    pub month: u8,
    pub day: u8,
    pub hour: u8,
    pub minute: u8,
    pub second: u8,
}

pub open spec fn is_leap_year(y: int) -> bool {
    (y % 4 == 0 && y % 100 != 0) || y % 400 == 0
}

pub open spec fn days_in_month(y: int, m: int) -> int {
    if m == 2 {
        if is_leap_year(y) {
            29
        } else {
            28
        }
    } else if m == 4 || m == 6 || m == 9 || m == 11 {
        30
    } else {
        31
    }
}

impl ObsTime {
    /// A date of the Gregorian calendar with a four-digit year, and a time of day.
    pub open spec fn valid(self) -> bool {
        &&& self.year <= 9999
        &&& 1 <= self.month <= 12
        &&& 1 <= self.day <= days_in_month(self.year as int, self.month as int)
        &&& self.hour <= 23
        &&& self.minute <= 59
        &&& self.second <= 59
    }

    /// Builds a time from its fields; `None` unless they name a valid instant.
    pub fn from_parts(year: u16, month: u8, day: u8, hour: u8, minute: u8, second: u8) -> (r:
        Option<ObsTime>)
        ensures
            r == (if (ObsTime { year, month, day, hour, minute, second }).valid() {
                Some(ObsTime { year, month, day, hour, minute, second })
            } else {
                None
            }),
    {
        let t = ObsTime { year, month, day, hour, minute, second };
        if year <= 9999 && 1 <= month && month <= 12 && 1 <= day && day <= month_length(
            year,
            month,
        ) && hour <= 23 && minute <= 59 && second <= 59 {
            Some(t)
        } else {
            None
        }
    }
}

fn month_length(y: u16, m: u8) -> (r: u8)
    ensures
        r == days_in_month(y as int, m as int),
{
    if m == 2 {
        if (y % 4 == 0 && y % 100 != 0) || y % 400 == 0 {
            29
        } else {
            28
        }
    } else if m == 4 || m == 6 || m == 9 || m == 11 {
        30
    } else {
        31
    }
}

/// The time written as `YYYYMMDDHHMMSS`, if the digits name a valid instant.
pub open spec fn time_of(s: Seq<char>) -> Option<ObsTime> {
    if s.len() == 14 && all_digits(s) {
        let t = ObsTime {
            year: digits_value(s.subrange(0, 4)) as u16,
            month: digits_value(s.subrange(4, 6)) as u8,
            day: digits_value(s.subrange(6, 8)) as u8,
            hour: digits_value(s.subrange(8, 10)) as u8,
            minute: digits_value(s.subrange(10, 12)) as u8,
            second: digits_value(s.subrange(12, 14)) as u8,
        };
        if t.valid() {
            Some(t)
        } else {
            None
        }
    } else {
        None
    }
}

pub open spec fn two_digits(n: int) -> Seq<char> {
    seq![digit_char(n / 10), digit_char(n % 10)]
}

pub open spec fn four_digits(n: int) -> Seq<char> {
    seq![digit_char(n / 1000), digit_char((n / 100) % 10), digit_char((n / 10) % 10), digit_char(n % 10)]
}

/// The `YYYYMMDDHHMMSS` text of a time.
pub open spec fn time_text(t: ObsTime) -> Seq<char> {
    four_digits(t.year as int) + two_digits(t.month as int) + two_digits(t.day as int)
        + two_digits(t.hour as int) + two_digits(t.minute as int) + two_digits(t.second as int)
}

proof fn lemma_two_digits(s: Seq<char>)
    requires
        s.len() == 2,
        all_digits(s),
    ensures
        digits_value(s) == digit_value(s[0]) * 10 + digit_value(s[1]),
        0 <= digits_value(s) <= 99,
{
    let d1 = s.drop_last();
    assert(d1.drop_last() =~= Seq::<char>::empty());
    assert(d1.last() == s[0]);
    assert(digits_value(d1.drop_last()) == 0);
    assert(digits_value(d1) == digit_value(s[0]));
    assert(is_digit(s[0]) && is_digit(s[1]));
    assert(0 <= digit_value(s[0]) <= 9 && 0 <= digit_value(s[1]) <= 9);
}

proof fn lemma_four_digits(s: Seq<char>)
    requires
        s.len() == 4,
        all_digits(s),
    ensures
        digits_value(s) == ((digit_value(s[0]) * 10 + digit_value(s[1])) * 10 + digit_value(s[2]))
            * 10 + digit_value(s[3]),
        0 <= digits_value(s) <= 9999,
{
    let d3 = s.drop_last();
    let d2 = d3.drop_last();
    let d1 = d2.drop_last();
    assert(d1.drop_last() =~= Seq::<char>::empty());
    assert(d1.last() == s[0] && d2.last() == s[1] && d3.last() == s[2]);
    assert(digits_value(d1.drop_last()) == 0);
    assert(digits_value(d1) == digit_value(s[0]));
    assert(digits_value(d2) == digit_value(s[0]) * 10 + digit_value(s[1]));
    assert(digits_value(d3) == digits_value(d2) * 10 + digit_value(s[2]));
    assert(is_digit(s[0]) && is_digit(s[1]) && is_digit(s[2]) && is_digit(s[3]));
    let (a, b, c, d) = (digit_value(s[0]), digit_value(s[1]), digit_value(s[2]), digit_value(s[3]));
    assert(0 <= a <= 9 && 0 <= b <= 9 && 0 <= c <= 9 && 0 <= d <= 9);
    assert(0 <= ((a * 10 + b) * 10 + c) * 10 + d <= 9999) by (nonlinear_arith)
        requires
            0 <= a <= 9 && 0 <= b <= 9 && 0 <= c <= 9 && 0 <= d <= 9,
    ;
}

proof fn lemma_digit_char(d: int)
    requires
        0 <= d <= 9,
    ensures
        is_digit(digit_char(d)),
        digit_value(digit_char(d)) == d,
{
}

/// Reading the text of a valid time gives the time back.
pub proof fn lemma_time_round_trip(t: ObsTime)
    requires
        t.valid(),
    ensures
        time_of(time_text(t)) == Some(t),
        time_text(t).len() == 14,
        all_digits(time_text(t)),
{
    let s = time_text(t);
    let y = t.year as int;
    assert(0 <= y / 1000 <= 9 && 0 <= (y / 100) % 10 <= 9 && 0 <= (y / 10) % 10 <= 9 && 0 <= y
        % 10 <= 9);
    lemma_digit_char(y / 1000);
    lemma_digit_char((y / 100) % 10);
    lemma_digit_char((y / 10) % 10);
    lemma_digit_char(y % 10);
    assert forall|n: int| 0 <= n <= 99 implies {
        &&& is_digit(#[trigger] two_digits(n)[0])
        &&& is_digit(two_digits(n)[1])
        &&& digit_value(two_digits(n)[0]) * 10 + digit_value(two_digits(n)[1]) == n
    } by {
        lemma_digit_char(n / 10);
        lemma_digit_char(n % 10);
    }
    assert(s.subrange(0, 4) =~= four_digits(y));
    assert(s.subrange(4, 6) =~= two_digits(t.month as int));
    assert(s.subrange(6, 8) =~= two_digits(t.day as int));
    assert(s.subrange(8, 10) =~= two_digits(t.hour as int));
    assert(s.subrange(10, 12) =~= two_digits(t.minute as int));
    assert(s.subrange(12, 14) =~= two_digits(t.second as int));
    assert(is_digit(two_digits(t.month as int)[0]));
    assert(is_digit(two_digits(t.day as int)[0]));
    assert(is_digit(two_digits(t.hour as int)[0]));
    assert(is_digit(two_digits(t.minute as int)[0]));
    assert(is_digit(two_digits(t.second as int)[0]));
    assert forall|i: int| 0 <= i < 14 implies is_digit(#[trigger] s[i]) by {
        if i < 4 {
            assert(s[i] == four_digits(y)[i]);
        } else if i < 6 {
            assert(s[i] == two_digits(t.month as int)[i - 4]);
        } else if i < 8 {
            assert(s[i] == two_digits(t.day as int)[i - 6]);
        } else if i < 10 {
            assert(s[i] == two_digits(t.hour as int)[i - 8]);
        } else if i < 12 {
            assert(s[i] == two_digits(t.minute as int)[i - 10]);
        } else {
            assert(s[i] == two_digits(t.second as int)[i - 12]);
        }
    }
    lemma_four_digits(s.subrange(0, 4));
    assert(((y / 1000 * 10 + (y / 100) % 10) * 10 + (y / 10) % 10) * 10 + y % 10 == y) by (
    nonlinear_arith)
        requires
            0 <= y <= 9999,
    ;
    lemma_two_digits(s.subrange(4, 6));
    lemma_two_digits(s.subrange(6, 8));
    lemma_two_digits(s.subrange(8, 10));
    lemma_two_digits(s.subrange(10, 12));
    lemma_two_digits(s.subrange(12, 14));
}

fn digit_at(s: &[char], i: usize) -> (r: u16)
    requires
        i < s@.len(),
        is_digit(s@[i as int]),
    ensures
        r == digit_value(s@[i as int]),
        r <= 9,
{
    (s[i] as u32 - 48) as u16
}

/// Reads a `YYYYMMDDHHMMSS` time.
pub fn parse_time(s: &[char]) -> (r: Option<ObsTime>)
    ensures
        r == time_of(s@),
{
    if s.len() != 14 || !only_digits(s) {
        return None;
    }
    let year = ((digit_at(s, 0) * 10 + digit_at(s, 1)) * 10 + digit_at(s, 2)) * 10 + digit_at(s, 3);
    let month = (digit_at(s, 4) * 10 + digit_at(s, 5)) as u8;
    let day = (digit_at(s, 6) * 10 + digit_at(s, 7)) as u8;
    let hour = (digit_at(s, 8) * 10 + digit_at(s, 9)) as u8;
    let minute = (digit_at(s, 10) * 10 + digit_at(s, 11)) as u8;
    let second = (digit_at(s, 12) * 10 + digit_at(s, 13)) as u8;
    proof {
        assert(all_digits(s@.subrange(0, 4)));
        lemma_four_digits(s@.subrange(0, 4));
        assert(all_digits(s@.subrange(4, 6)));
        assert(all_digits(s@.subrange(6, 8)));
        assert(all_digits(s@.subrange(8, 10)));
        assert(all_digits(s@.subrange(10, 12)));
        assert(all_digits(s@.subrange(12, 14)));
        lemma_two_digits(s@.subrange(4, 6));
        lemma_two_digits(s@.subrange(6, 8));
        lemma_two_digits(s@.subrange(8, 10));
        lemma_two_digits(s@.subrange(10, 12));
        lemma_two_digits(s@.subrange(12, 14));
    }
    ObsTime::from_parts(year, month, day, hour, minute, second)
}

fn push_digit(out: &mut Vec<char>, d: u16)
    requires
        d <= 9,
    ensures
        final(out)@ == old(out)@.push(digit_char(d as int)),
{
    out.push(((d as u8) + 48) as char);
}

/// Appends the `YYYYMMDDHHMMSS` text of a time.
pub fn push_time(out: &mut Vec<char>, t: ObsTime)
    requires
        t.valid(),
    ensures
        final(out)@ == old(out)@ + time_text(t),
{
    let y = t.year;
    push_digit(out, y / 1000);
    push_digit(out, (y / 100) % 10);
    push_digit(out, (y / 10) % 10);
    push_digit(out, y % 10);
    push_digit(out, (t.month / 10) as u16);
    push_digit(out, (t.month % 10) as u16);
    push_digit(out, (t.day / 10) as u16);
    push_digit(out, (t.day % 10) as u16);
    push_digit(out, (t.hour / 10) as u16);
    push_digit(out, (t.hour % 10) as u16);
    push_digit(out, (t.minute / 10) as u16);
    push_digit(out, (t.minute % 10) as u16);
    push_digit(out, (t.second / 10) as u16);
    push_digit(out, (t.second % 10) as u16);
    assert(final(out)@ =~= old(out)@ + time_text(t));
}

} // verus!

use rand::Rng;
use crate::query::{slot_count, Cadence, EPOCH_1950, INSTANT_BOUND};
use vstd::prelude::*;

verus! {

/// The instant `months` calendar months before `t` (both in seconds since
/// the Unix epoch, UTC), with the day clamped to the end of a shorter month.
pub uninterp spec fn months_before(t: i64, months: u32) -> Option<i64>;

/// Relies on chrono's `DateTime::<Utc>::from_timestamp` and
/// `checked_sub_months`: the same day and time `months` months earlier, or
/// `None` when out of chrono's range.
#[verifier::external_body]
fn sub_months(t: i64, months: u32) -> (r: Option<i64>)
    ensures
        r == months_before(t, months),
{
    let dt = chrono::DateTime::from_timestamp(t, 0)?;
    dt.checked_sub_months(chrono::Months::new(months)).map(|d| d.timestamp())
}

/// Relies on rand's `thread_rng().gen_range(lo..hi)`: a value of the
/// half-open range; the range must not be empty.
#[verifier::external_body]
fn random_in(lo: i32, hi: i32) -> (r: i32)
    requires
        lo < hi,
    ensures
        lo <= r < hi,
{
    rand::thread_rng().gen_range(lo..hi)
}

/// A synthetic series: where it starts and ends, and its cadence.
#[derive(Clone, Copy, Debug, PartialEq, Eq, Structural)]
pub struct SeriesWindow {
    pub start_time: i64,
    pub end_time: i64,
    pub period: Cadence,
}

/// `t` rounded down to a whole number of `unit` seconds.
pub open spec fn floor_to(t: int, unit: int) -> int {
    t - t % unit
}

/// The window of a synthetic series of `length` steps ending at `present`:
/// a daily series starts that many days before the day's midnight; an
/// hourly or minutely one starts that many steps before the hour or minute,
/// and both its ends are moved back by `skew_years` years. The start is
/// never before 1950.
pub open spec fn window_spec(present: i64, period: Cadence, length: i64, skew_years: u32) -> Option<
    SeriesWindow,
> {
    let step = period.spec_seconds() as int;
    let base = floor_to(present as int, step) - length * step;
    let months = (12 * skew_years) as u32;
    let bounds: Option<(i64, i64)> = match period {
        Cadence::Day => Some((base as i64, present)),
        _ => match (months_before(base as i64, months), months_before(present, months)) {
            (Some(s), Some(e)) => Some((s, e)),
            _ => None,
        },
    };
    match bounds {
        Some((s, e)) => Some(
            SeriesWindow {
                start_time: if s < EPOCH_1950 {
                    EPOCH_1950
                } else {
                    s
                },
                end_time: e,
                period,
            },
        ),
        None => None,
    }
}

/// The window of a synthetic series, or `None` when a calendar step leaves
/// the representable range.
pub fn series_window(present: i64, period: Cadence, length: i64, skew_years: u32) -> (r: Option<
    SeriesWindow,
>)
    requires
        0 <= present <= INSTANT_BOUND,
        0 <= length <= 1_000_000_000,
        skew_years <= 100_000,
    ensures
        r == window_spec(present, period, length, skew_years),
{
    let step = period.seconds();
    let base = present - present % step - length * step;
    let months = 12 * skew_years;
    let bounds = match period {
        Cadence::Day => Some((base, present)),
        _ => match (sub_months(base, months), sub_months(present, months)) {
            (Some(s), Some(e)) => Some((s, e)),
            _ => None,
        },
    };
    match bounds {
        Some((s, e)) => Some(
            SeriesWindow {
                start_time: if s < EPOCH_1950 {
                    EPOCH_1950
                } else {
                    s
                },
                end_time: e,
                period,
            },
        ),
        None => None,
    }
}

/// The cadence a draw from 0, 1 or 2 picks.
pub open spec fn cadence_of_draw(d: int) -> Cadence {
    if d == 0 {
        Cadence::Day
    } else if d == 1 {
        Cadence::Hour
    } else {
        Cadence::Minute
    }
}

/// The window of a synthetic series with a cadence drawn at random.
pub fn random_series_window(present: i64, length: i64, skew_years: u32) -> (r: Option<SeriesWindow>)
    requires
        0 <= present <= INSTANT_BOUND,
        0 <= length <= 1_000_000_000,
        skew_years <= 100_000,
    ensures
        exists|d: int|
            0 <= d < 3 && r == window_spec(present, cadence_of_draw(d), length, skew_years),
{
    let d = random_in(0, 3);
    let period = if d == 0 {
        Cadence::Day
    } else if d == 1 {
        Cadence::Hour
    } else {
        Cadence::Minute
    };
    let r = series_window(present, period, length, skew_years);
    assert(r == window_spec(present, cadence_of_draw(d as int), length, skew_years));
    r
}

/// Random station, parameter and type ids for a synthetic series' label,
/// each from 1000 up to 2000.
pub fn random_label_ids() -> (r: (i32, i32, i32))
    ensures
        1000 <= r.0 < 2000,
        1000 <= r.1 < 2000,
        1000 <= r.2 < 2000,
{
    (random_in(1000, 2000), random_in(1000, 2000), random_in(1000, 2000))
}

/// The instants of a series: from `start`, one step at a time, up to and
/// including `end`.
pub fn series_instants(start: i64, end: i64, step: i64) -> (r: Vec<i64>)
    requires
        0 < step <= 86400,
        -INSTANT_BOUND <= start <= INSTANT_BOUND,
        -INSTANT_BOUND <= end <= INSTANT_BOUND,
    ensures
        r@.len() == slot_count(start as int, end as int, step as int),
        forall|k: int| 0 <= k < r@.len() ==> #[trigger] r@[k] == start + k * step,
{
    let mut r: Vec<i64> = Vec::new();
    if start > end {
        return r;
    }
    let mut t: i64 = start;
    assert(r@.len() == 0);
    assert(r@.len() * step == 0);
    while t <= end
        invariant
            0 < step <= 86400,
            -INSTANT_BOUND <= start <= end <= INSTANT_BOUND,
            start <= t <= end + step,
            t == start + r@.len() * step,
            t <= end ==> r@.len() < (end - start) / (step as int) + 1,
            t > end ==> r@.len() == (end - start) / (step as int) + 1,
            forall|k: int| 0 <= k < r@.len() ==> #[trigger] r@[k] == start + k * step,
        decreases end + step - t,
    {
        r.push(t);
        proof {
            let n = r@.len() as int;
            let d = (end - start) as int;
            let s = step as int;
            assert(t == start + (n - 1) * s);
            assert(t + s == start + n * s) by (nonlinear_arith)
                requires
                    t == start + (n - 1) * s,
            ;
            assert((t + s <= end) == (n < d / s + 1)) by (nonlinear_arith)
                requires
                    t + s == start + n * s,
                    d == end - start,
                    s > 0,
                    d >= 0,
                    n >= 1,
            ;
        }
        t = t + step;
    }
    r
}

} // verus!

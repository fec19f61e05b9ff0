use crate::error::Error;
use vstd::prelude::*;

verus! {

/// Instants are seconds since 1970-01-01T00:00:00Z.
pub type Instant = i64;

/// The instant 1950-01-01T00:00:00Z, the start of a series with no known start.
pub const EPOCH_1950: i64 = -631152000;

/// How far back the latest-values query looks by default, in seconds.
pub const DEFAULT_LATEST_WINDOW: i64 = 10800;

/// Bound on instants, so that arithmetic on them cannot overflow.
pub const INSTANT_BOUND: i64 = 0x10_0000_0000_0000;

/// The cadences a regular series may be asked for.
#[derive(Clone, Copy, Debug, PartialEq, Eq, Structural)]
pub enum Cadence {
    Minute,
    Hour,
    Day,
}

impl Cadence {
    pub open spec fn spec_seconds(self) -> i64 {
        match self {
            Cadence::Minute => 60,
            Cadence::Hour => 3600,
            Cadence::Day => 86400,
        }
    }

    /// The length of one step, in seconds.
    pub fn seconds(&self) -> (r: i64)
        ensures
            r == self.spec_seconds(),
    {
        match self {
            Cadence::Minute => 60,
            Cadence::Hour => 3600,
            Cadence::Day => 86400,
        }
    }
}

/// The cadence an ISO-8601 duration token names: `PT1M`, `PT1H` or `P1D`.
pub open spec fn cadence_of(token: Seq<char>) -> Option<Cadence> {
    if token == seq!['P', 'T', '1', 'M'] {
        Some(Cadence::Minute)
    } else if token == seq!['P', 'T', '1', 'H'] {
        Some(Cadence::Hour)
    } else if token == seq!['P', '1', 'D'] {
        Some(Cadence::Day)
    } else {
        None
    }
}

/// Reads a `time_resolution` token; any token outside the whitelist is a
/// client error.
pub fn parse_time_resolution(token: &str) -> (r: Result<Cadence, Error>)
    ensures
        match cadence_of(token@) {
            Some(c) => r == Ok::<Cadence, Error>(c),
            None => r is Err && r->Err_0 is Parse,
        },
{
    let cs = crate::text::chars_of(token);
    let minute = ['P', 'T', '1', 'M'];
    let hour = ['P', 'T', '1', 'H'];
    let day = ['P', '1', 'D'];
    assert(minute@ =~= seq!['P', 'T', '1', 'M']);
    assert(hour@ =~= seq!['P', 'T', '1', 'H']);
    assert(day@ =~= seq!['P', '1', 'D']);
    if crate::text::same_chars(cs.as_slice(), &minute) {
        Ok(Cadence::Minute)
    } else if crate::text::same_chars(cs.as_slice(), &hour) {
        Ok(Cadence::Hour)
    } else if crate::text::same_chars(cs.as_slice(), &day) {
        Ok(Cadence::Day)
    } else {
        Err(Error::Parse("unknown time_resolution".to_owned()))
    }
}

/// The value observed at instant `t`: the first observation at `t`, if any.
pub open spec fn value_at<T>(obs: Seq<(i64, T)>, t: int) -> Option<T>
    decreases obs.len(),
{
    if obs.len() == 0 {
        None
    } else if obs[0].0 == t {
        Some(obs[0].1)
    } else {
        value_at(obs.skip(1), t)
    }
}

/// How many steps of `step` seconds fit from `start` to `end`, both included.
pub open spec fn slot_count(start: int, end: int, step: int) -> int {
    if start > end {
        0
    } else {
        (end - start) / step + 1
    }
}

proof fn lemma_value_at_scan<T>(obs: Seq<(i64, T)>, t: int, i: int)
    requires
        0 <= i <= obs.len(),
        forall|j: int| 0 <= j < i ==> (#[trigger] obs[j]).0 != t,
    ensures
        value_at(obs, t) == value_at(obs.skip(i), t),
    decreases i,
{
    if i == 0 {
        assert(obs.skip(0) =~= obs);
    } else {
        assert(obs[0].0 != t);
        assert(obs.skip(1).skip(i - 1) =~= obs.skip(i));
        assert forall|j: int| 0 <= j < i - 1 implies (#[trigger] obs.skip(1)[j]).0 != t by {
            assert(obs.skip(1)[j] == obs[j + 1]);
        }
        lemma_value_at_scan(obs.skip(1), t, i - 1);
    }
}

/// The value observed at instant `t`.
pub fn find_value_at<T: Copy>(obs: &Vec<(i64, T)>, t: i64) -> (r: Option<T>)
    ensures
        r == value_at(obs@, t as int),
{
    let mut i: usize = 0;
    while i < obs.len()
        invariant
            0 <= i <= obs@.len(),
            forall|j: int| 0 <= j < i ==> (#[trigger] obs@[j]).0 != t,
        decreases obs@.len() - i,
    {
        if obs[i].0 == t {
            proof {
                lemma_value_at_scan(obs@, t as int, i as int);
                assert(obs@.skip(i as int)[0] == obs@[i as int]);
            }
            return Some(obs[i].1);
        }
        i += 1;
    }
    proof {
        lemma_value_at_scan(obs@, t as int, i as int);
    }
    None
}

/// A regular series: one slot per step from `start` to `end`, each holding
/// the observation at that instant or nothing.
pub fn regular_series<T: Copy>(obs: &Vec<(i64, T)>, start: i64, end: i64, step: i64) -> (r: Vec<
    Option<T>,
>)
    requires
        0 < step <= 86400,
        -INSTANT_BOUND <= start <= INSTANT_BOUND,
        -INSTANT_BOUND <= end <= INSTANT_BOUND,
    ensures
        r@.len() == slot_count(start as int, end as int, step as int),
        forall|k: int|
            0 <= k < r@.len() ==> #[trigger] r@[k] == value_at(obs@, start + k * step),
{
    let mut r: Vec<Option<T>> = Vec::new();
    if start > end {
        return r;
    }
    let mut t: i64 = start;
    assert(r@.len() == 0);
    assert(r@.len() * step == 0);
    while t <= end
        invariant
            0 < step <= 86400,
            -INSTANT_BOUND <= start <= end <= INSTANT_BOUND,
            start <= t <= end + step,
            t == start + r@.len() * step,
            r@.len() <= (end - start) / (step as int) + 1,
            t <= end ==> r@.len() < (end - start) / (step as int) + 1,
            t > end ==> r@.len() == (end - start) / (step as int) + 1,
            forall|k: int|
                0 <= k < r@.len() ==> #[trigger] r@[k] == value_at(obs@, start + k * step),
        decreases end + step - t,
    {
        let v = find_value_at(obs, t);
        r.push(v);
        proof {
            let n = r@.len() as int;
            let d = (end - start) as int;
            let s = step as int;
            assert(t == start + (n - 1) * s);
            assert(t + s == start + n * s) by (nonlinear_arith)
                requires
                    t == start + (n - 1) * s,
            ;
            assert((t + s <= end) == (n < d / s + 1)) by (nonlinear_arith)
                requires
                    t + s == start + n * s,
                    d == end - start,
                    s > 0,
                    d >= 0,
                    n >= 1,
            ;
            assert(n <= d / s + 1) by (nonlinear_arith)
                requires
                    t == start + (n - 1) * s,
                    t <= end,
                    d == end - start,
                    s > 0,
                    d >= 0,
            ;
        }
        t = t + step;
    }
    r
}

/// The observations with `start <= t <= end`, in their order.
pub open spec fn in_window<T>(obs: Seq<(i64, T)>, start: int, end: int) -> Seq<(i64, T)>
    decreases obs.len(),
{
    if obs.len() == 0 {
        Seq::empty()
    } else {
        let prev = in_window(obs.drop_last(), start, end);
        if start <= obs.last().0 <= end {
            prev.push(obs.last())
        } else {
            prev
        }
    }
}

/// An irregular series: the observed values and their instants, for the
/// observations from `start` to `end`, both included.
pub fn irregular_series<T: Copy>(obs: &Vec<(i64, T)>, start: i64, end: i64) -> (r: (
    Vec<T>,
    Vec<i64>,
))
    ensures
        r.0@.len() == r.1@.len(),
        r.0@.len() == in_window(obs@, start as int, end as int).len(),
        forall|k: int|
            0 <= k < r.0@.len() ==> (r.1@[k], r.0@[k]) == #[trigger] in_window(
                obs@,
                start as int,
                end as int,
            )[k],
{
    let mut values: Vec<T> = Vec::new();
    let mut times: Vec<i64> = Vec::new();
    let mut i: usize = 0;
    assert(obs@.take(0) =~= Seq::<(i64, T)>::empty());
    while i < obs.len()
        invariant
            0 <= i <= obs@.len(),
            values@.len() == times@.len(),
            values@.len() == in_window(obs@.take(i as int), start as int, end as int).len(),
            forall|k: int|
                0 <= k < values@.len() ==> (times@[k], values@[k]) == #[trigger] in_window(
                    obs@.take(i as int),
                    start as int,
                    end as int,
                )[k],
        decreases obs@.len() - i,
    {
        assert(obs@.take(i as int + 1).drop_last() =~= obs@.take(i as int));
        assert(obs@.take(i as int + 1).last() == obs@[i as int]);
        let (t, v) = obs[i];
        if start <= t && t <= end {
            values.push(v);
            times.push(t);
        }
        i += 1;
    }
    assert(obs@.take(obs@.len() as int) =~= obs@);
    (values, times)
}

/// One stored observation as the latest-values query sees it: series id,
/// instant, and what is reported with it.
pub type LatestRow<T> = (i32, i64, T);

/// Whether row `i` is the most recent of its series (the first such where
/// several share the latest instant), and newer than `max_age`.
pub open spec fn is_latest<T>(rows: Seq<LatestRow<T>>, i: int, max_age: int) -> bool {
    &&& rows[i].1 > max_age
    &&& forall|j: int|
        0 <= j < rows.len() && #[trigger] rows[j].0 == rows[i].0 ==> rows[j].1 < rows[i].1 || (
        rows[j].1 == rows[i].1 && j >= i)
}

/// The rows among the first `n` that are the latest of their series.
pub open spec fn latest_rows<T>(rows: Seq<LatestRow<T>>, n: int, max_age: int) -> Seq<
    LatestRow<T>,
>
    decreases n,
{
    if n <= 0 {
        Seq::empty()
    } else {
        let prev = latest_rows(rows, n - 1, max_age);
        if is_latest(rows, n - 1, max_age) {
            prev.push(rows[n - 1])
        } else {
            prev
        }
    }
}

fn is_latest_exec<T: Copy>(rows: &Vec<LatestRow<T>>, i: usize, max_age: i64) -> (r: bool)
    requires
        i < rows@.len(),
    ensures
        r == is_latest(rows@, i as int, max_age as int),
{
    let (s, t, _) = rows[i];
    if t <= max_age {
        return false;
    }
    let mut j: usize = 0;
    while j < rows.len()
        invariant
            i < rows@.len(),
            0 <= j <= rows@.len(),
            s == rows@[i as int].0,
            t == rows@[i as int].1,
            forall|k: int|
                0 <= k < j && #[trigger] rows@[k].0 == s ==> rows@[k].1 < t || (rows@[k].1 == t
                    && k >= i),
        decreases rows@.len() - j,
    {
        let (other, t2, _) = rows[j];
        if other == s && (t2 > t || (t2 == t && j < i)) {
            return false;
        }
        j += 1;
    }
    true
}

/// For every series with an observation newer than `max_age`, its most
/// recent row; one row per series.
pub fn latest<T: Copy>(rows: &Vec<LatestRow<T>>, max_age: i64) -> (r: Vec<LatestRow<T>>)
    ensures
        r@ == latest_rows(rows@, rows@.len() as int, max_age as int),
{
    let mut r: Vec<LatestRow<T>> = Vec::new();
    let mut i: usize = 0;
    while i < rows.len()
        invariant
            0 <= i <= rows@.len(),
            r@ == latest_rows(rows@, i as int, max_age as int),
        decreases rows@.len() - i,
    {
        if is_latest_exec(rows, i, max_age) {
            r.push(rows[i]);
        }
        i += 1;
    }
    r
}

/// A larger `max_age` keeps fewer rows: every row reported for it is also
/// reported for any smaller one.
pub proof fn lemma_latest_monotone<T>(rows: Seq<LatestRow<T>>, age1: int, age2: int, n: int)
    requires
        age1 <= age2,
        n <= rows.len(),
    ensures
        forall|x: LatestRow<T>|
            latest_rows(rows, n, age2).contains(x) ==> latest_rows(rows, n, age1).contains(x),
    decreases n,
{
    if n > 0 {
        lemma_latest_monotone(rows, age1, age2, n - 1);
        let lo_prev = latest_rows(rows, n - 1, age1);
        let hi_prev = latest_rows(rows, n - 1, age2);
        assert forall|x: LatestRow<T>| latest_rows(rows, n, age2).contains(x) implies latest_rows(
            rows,
            n,
            age1,
        ).contains(x) by {
            let q2 = latest_rows(rows, n, age2);
            let q1 = latest_rows(rows, n, age1);
            let k = choose|k: int| 0 <= k < q2.len() && q2[k] == x;
            if is_latest(rows, n - 1, age2) {
                assert(is_latest(rows, n - 1, age1));
                if k < hi_prev.len() {
                    assert(hi_prev[k] == x);
                    assert(hi_prev.contains(x));
                    let k1 = choose|k1: int| 0 <= k1 < lo_prev.len() && lo_prev[k1] == x;
                    assert(q1[k1] == x);
                } else {
                    assert(q1[lo_prev.len() as int] == x);
                }
            } else {
                assert(hi_prev.contains(x));
                let k1 = choose|k1: int| 0 <= k1 < lo_prev.len() && lo_prev[k1] == x;
                if is_latest(rows, n - 1, age1) {
                    assert(q1[k1] == x);
                } else {
                    assert(q1[k1] == x);
                }
            }
        }
    }
}

/// A stored observation as the timeslice query sees it: instant, parameter
/// id, and what is reported with it.
pub type SliceRow<T> = (i64, i32, T);

/// What the rows at instant `t` for parameter `param_id` report, in order.
pub open spec fn slice_of<T>(rows: Seq<SliceRow<T>>, t: int, param_id: int) -> Seq<T>
    decreases rows.len(),
{
    if rows.len() == 0 {
        Seq::empty()
    } else {
        let prev = slice_of(rows.drop_last(), t, param_id);
        if rows.last().0 == t && rows.last().1 == param_id {
            prev.push(rows.last().2)
        } else {
            prev
        }
    }
}

/// Everything observed of one parameter at exactly one instant.
pub fn timeslice<T: Copy>(rows: &Vec<SliceRow<T>>, t: i64, param_id: i32) -> (r: Vec<T>)
    ensures
        r@ == slice_of(rows@, t as int, param_id as int),
{
    let mut r: Vec<T> = Vec::new();
    let mut i: usize = 0;
    assert(rows@.take(0) =~= Seq::<SliceRow<T>>::empty());
    while i < rows.len()
        invariant
            0 <= i <= rows@.len(),
            r@ == slice_of(rows@.take(i as int), t as int, param_id as int),
        decreases rows@.len() - i,
    {
        assert(rows@.take(i as int + 1).drop_last() =~= rows@.take(i as int));
        assert(rows@.take(i as int + 1).last() == rows@[i as int]);
        let (at, param, v) = rows[i];
        if at == t && param == param_id {
            r.push(v);
        }
        i += 1;
    }
    assert(rows@.take(rows@.len() as int) =~= rows@);
    r
}

/// The window of a series query: the requested bounds where given, else
/// the series' own, where a series with no start begins in 1950 and one
/// with no end runs until now.
pub fn query_window(
    start_time: Option<i64>,
    end_time: Option<i64>,
    fromtime: Option<i64>,
    totime: Option<i64>,
    now: i64,
) -> (r: (i64, i64))
    ensures
        r.0 == match start_time {
            Some(s) => s,
            None => match fromtime {
                Some(f) => f,
                None => EPOCH_1950,
            },
        },
        r.1 == match end_time {
            Some(e) => e,
            None => match totime {
                Some(t) => t,
                None => now,
            },
        },
{
    let start = match start_time {
        Some(s) => s,
        None => match fromtime {
            Some(f) => f,
            None => EPOCH_1950,
        },
    };
    let end = match end_time {
        Some(e) => e,
        None => match totime {
            Some(t) => t,
            None => now,
        },
    };
    (start, end)
}

/// The default `latest_max_age`: three hours before now.
pub fn default_max_age(now: i64) -> (r: i64)
    requires
        now >= i64::MIN + DEFAULT_LATEST_WINDOW,
    ensures
        r == now - DEFAULT_LATEST_WINDOW,
{
    now - DEFAULT_LATEST_WINDOW
}

} // verus!

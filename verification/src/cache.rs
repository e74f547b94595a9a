//! What the interval cache stores, and when a cached day can be reused.
use vstd::prelude::*;

use crate::text::{lex_lt, str_eq, str_lt};
use crate::types::{Interval, IntervalLabel};

verus! {

/// Cached intervals for one calendar date.
#[derive(Debug, Clone)]
pub struct CachedIntervals {
    pub provisional: bool,
    pub intervals: Vec<Interval>,
}

/// The name a label is stored under.
pub open spec fn label_name(label: IntervalLabel) -> Seq<char> {
    match label {
        IntervalLabel::Active => "active"@,
        IntervalLabel::Break => "break"@,
        IntervalLabel::Transit => "transit"@,
    }
}

/// The name a label is stored under.
pub fn label_to_name(label: IntervalLabel) -> (r: &'static str)
    ensures
        r@ == label_name(label),
{
    match label {
        IntervalLabel::Active => "active",
        IntervalLabel::Break => "break",
        IntervalLabel::Transit => "transit",
    }
}

/// The label stored under `name`, if any.
pub open spec fn label_of_name(name: Seq<char>) -> Option<IntervalLabel> {
    if name == "active"@ {
        Some(IntervalLabel::Active)
    } else if name == "break"@ {
        Some(IntervalLabel::Break)
    } else if name == "transit"@ {
        Some(IntervalLabel::Transit)
    } else {
        None
    }
}

/// The label stored under `name`, if any.
pub fn label_from_name(name: &str) -> (r: Option<IntervalLabel>)
    ensures
        r == label_of_name(name@),
{
    if str_eq(name, "active") {
        Some(IntervalLabel::Active)
    } else if str_eq(name, "break") {
        Some(IntervalLabel::Break)
    } else if str_eq(name, "transit") {
        Some(IntervalLabel::Transit)
    } else {
        None
    }
}

/// A stored label can be read back.
pub proof fn law_label_round_trip(label: IntervalLabel)
    ensures
        label_of_name(label_name(label)) == Some(label),
{
    reveal_strlit("active");
    reveal_strlit("break");
    reveal_strlit("transit");
    assert("active"@.len() == 6 && "break"@.len() == 5 && "transit"@.len() == 7);
    assert("active"@ != "break"@ && "active"@ != "transit"@ && "break"@ != "transit"@);
}

/// The intervals of stored rows (first, last, label name), rows with an
/// unknown label left out; stored intervals have no location.
pub open spec fn rows_intervals(rows: Seq<(i64, i64, String)>) -> Seq<Interval>
    decreases rows.len(),
{
    if rows.len() == 0 {
        Seq::empty()
    } else {
        let rest = rows_intervals(rows.drop_last());
        let (f, l, name) = rows.last();
        match label_of_name(name@) {
            Some(label) => rest.push(
                Interval { first_ms: f, last_ms: l, label, location: None },
            ),
            None => rest,
        }
    }
}

/// The intervals of stored rows.
pub fn intervals_from_rows(rows: &[(i64, i64, String)]) -> (r: Vec<Interval>)
    ensures
        r@ == rows_intervals(rows@),
{
    let mut out: Vec<Interval> = Vec::new();
    let mut i: usize = 0;
    proof {
        assert(rows@.subrange(0, 0) =~= Seq::<(i64, i64, String)>::empty());
    }
    while i < rows.len()
        invariant
            i <= rows@.len(),
            out@ == rows_intervals(rows@.subrange(0, i as int)),
        decreases rows@.len() - i,
    {
        proof {
            assert(rows@.subrange(0, i + 1).drop_last() =~= rows@.subrange(0, i as int));
            assert(rows@.subrange(0, i + 1).last() == rows@[i as int]);
        }
        let (f, l, ref name) = rows[i];
        match label_from_name(name.as_str()) {
            Some(label) => {
                out.push(Interval { first_ms: f, last_ms: l, label, location: None });
            },
            None => {},
        }
        i = i + 1;
    }
    proof {
        assert(rows@.subrange(0, rows@.len() as int) =~= rows@);
    }
    out
}

/// `row` stores `iv`.
pub open spec fn stores(row: (i64, i64, &str), iv: Interval) -> bool {
    row.0 == iv.first_ms && row.1 == iv.last_ms && row.2@ == label_name(iv.label)
}

/// The stored rows (first, last, label name) of intervals.
pub fn rows_of_intervals(intervals: &[Interval]) -> (r: Vec<(i64, i64, &'static str)>)
    ensures
        r@.len() == intervals@.len(),
        forall|k: int| 0 <= k < r@.len() ==> #[trigger] stores(r@[k], intervals@[k]),
{
    let mut out: Vec<(i64, i64, &'static str)> = Vec::new();
    let mut i: usize = 0;
    while i < intervals.len()
        invariant
            i <= intervals@.len(),
            out@.len() == i,
            forall|k: int| 0 <= k < i ==> #[trigger] stores(out@[k], intervals@[k]),
        decreases intervals@.len() - i,
    {
        let name = label_to_name(intervals[i].label);
        let row = (intervals[i].first_ms, intervals[i].last_ms, name);
        let ghost before = out@;
        out.push(row);
        proof {
            assert(stores(out@[i as int], intervals@[i as int]));
            assert forall|k: int| 0 <= k < i + 1 implies #[trigger] stores(out@[k], intervals@[k]) by {
                if k < i {
                    assert(out@[k] == before[k]);
                }
            }
        }
        i = i + 1;
    }
    out
}

/// An interval as the cache gives it back: without a location.
pub open spec fn without_location(iv: Interval) -> Interval {
    Interval { first_ms: iv.first_ms, last_ms: iv.last_ms, label: iv.label, location: None }
}

/// Reading back the rows stored for some intervals gives those intervals,
/// in order, without their locations (the cache stores none).
pub proof fn law_stored_intervals_read_back(ivs: Seq<Interval>, rows: Seq<(i64, i64, String)>)
    requires
        rows.len() == ivs.len(),
        forall|k: int|
            0 <= k < rows.len() ==> (#[trigger] rows[k]).0 == ivs[k].first_ms && rows[k].1
                == ivs[k].last_ms && rows[k].2@ == label_name(ivs[k].label),
    ensures
        rows_intervals(rows) == ivs.map_values(|iv: Interval| without_location(iv)),
    decreases rows.len(),
{
    if rows.len() > 0 {
        let n = rows.len() - 1;
        let r0 = rows.drop_last();
        let i0 = ivs.drop_last();
        assert forall|k: int| 0 <= k < r0.len() implies (#[trigger] r0[k]).0 == i0[k].first_ms
            && r0[k].1 == i0[k].last_ms && r0[k].2@ == label_name(i0[k].label) by {
            assert(r0[k] == rows[k]);
            assert(i0[k] == ivs[k]);
        }
        law_stored_intervals_read_back(i0, r0);
        law_label_round_trip(ivs[n].label);
        assert(rows[n].2@ == label_name(ivs[n].label));
        assert(ivs.map_values(|iv: Interval| without_location(iv)) =~= i0.map_values(
            |iv: Interval| without_location(iv),
        ).push(without_location(ivs[n])));
    } else {
        assert(ivs.map_values(|iv: Interval| without_location(iv)) =~= Seq::<Interval>::empty());
    }
}

/// The cached data for `date` can be reused when the current day (by the
/// 06:00 rule) is `effective_today`: only for a day before `today` that is
/// not the current day.
pub open spec fn reuse_rule(date: Seq<char>, today: Seq<char>, effective_today: Option<Seq<char>>) -> bool {
    lex_lt(date, today) && match effective_today {
        Some(e) => date != e,
        None => true,
    }
}

/// Whether the cached data for `date` can be used without recomputing, when
/// the current day (by the 06:00 rule) is `effective_today`: only for a day
/// before `today` that is not the current day.
pub fn reuse_decision(date: &str, today: &str, effective_today: Option<&str>) -> (r: bool)
    ensures
        r == reuse_rule(
            date@,
            today@,
            match effective_today {
                Some(e) => Some(e@),
                None => None,
            },
        ),
{
    if !str_lt(date, today) {
        return false;
    }
    match effective_today {
        Some(e) => !str_eq(date, e),
        None => true,
    }
}

/// The current time, in milliseconds since the Unix epoch.
///
/// Calls `chrono::Utc::now().timestamp_millis()`; the result depends on the
/// clock, so nothing is stated of it.
#[verifier::external_body]
fn now_ms() -> (r: i64) {
    chrono::Utc::now().timestamp_millis()
}

/// Returns `true` when the cached data for `date` can be used without
/// recomputing: never for `today` or later, nor for the day the current time
/// belongs to (before 06:00 that is the day before).
///
/// The current day depends on the clock and the time zone: the result is
/// the reuse rule for some current day, which is a date text when known.
pub fn should_reuse_cache(date: &str, today: &str) -> (r: bool)
    ensures
        exists|e: Option<Seq<char>>|
            {
                &&& (e matches Some(x) ==> exists|y: int, m: int, d: int|
                    crate::calendar::valid_ymd(y, m, d) && x == #[trigger] crate::calendar::ymd_text(
                        y,
                        m,
                        d,
                    ))
                &&& r == #[trigger] reuse_rule(date@, today@, e)
            },
{
    let now = now_ms();
    match crate::calendar::effective_day(now) {
        Some(e) => {
            let r = reuse_decision(date, today, Some(e.as_str()));
            proof {
                assert(r == reuse_rule(date@, today@, Some(e@)));
            }
            r
        },
        None => {
            let r = reuse_decision(date, today, None);
            proof {
                assert(r == reuse_rule(date@, today@, None));
            }
            r
        },
    }
}

} // verus!

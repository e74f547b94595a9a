//! Day and month reports built from labeled intervals.
use vstd::prelude::*;

use crate::intervals::{copy_interval, intervals_ok, prepare_intervals_for_render, spec_prepare_for_render};
use crate::text::{
    lemma_lex_lt_irreflexive, lemma_lex_lt_total, lemma_lex_lt_transitive, lex_lt, str_lt,
    to_owned_string,
};
use crate::types::{Interval, IntervalLabel};

verus! {

/// One display interval in a day report.
#[derive(Debug, Clone, PartialEq, Eq)]
pub struct ReportInterval {
    pub first_ms: i64,
    pub last_ms: i64,
    pub label: IntervalLabel,
    pub location: Option<String>,
}

/// The complete rendered data for one calendar day.
#[derive(Debug, Clone, PartialEq, Eq)]
pub struct DayReport {
    pub date: String,
    pub intervals: Vec<ReportInterval>,
    pub total_active_ms: i64,
    pub dominant_id: Option<String>,
    pub other_ids: Vec<String>,
}

/// A non-active interval (break or transit) inside a day's active window.
#[derive(Debug, Clone, PartialEq, Eq)]
pub struct MonthBreak {
    pub first_ms: i64,
    pub last_ms: i64,
    /// Always `Break` or `Transit`.
    pub label: IntervalLabel,
}

/// One row in a month report, corresponding to one calendar day.
#[derive(Debug, Clone, PartialEq, Eq)]
pub struct MonthReportRow {
    pub date: String,
    pub first_ms: i64,
    pub last_ms: i64,
    pub total_active_ms: i64,
    /// Dominant location first, then others sorted alphabetically.
    pub locations: Vec<String>,
    pub breaks: Vec<MonthBreak>,
}

/// The complete rendered data for one calendar month.
#[derive(Debug, Clone, PartialEq, Eq)]
pub struct MonthReport {
    pub yyyymm: String,
    pub rows: Vec<MonthReportRow>,
    pub dominant_id: Option<String>,
    pub other_ids: Vec<String>,
}

// ---------------------------------------------------------------------------
// Specification helpers
// ---------------------------------------------------------------------------

/// The intervals with a positive duration.
pub open spec fn nonzero_intervals(s: Seq<Interval>) -> Seq<Interval>
    decreases s.len(),
{
    if s.len() == 0 {
        s
    } else if s.last().last_ms > s.last().first_ms {
        nonzero_intervals(s.drop_last()).push(s.last())
    } else {
        nonzero_intervals(s.drop_last())
    }
}

/// The active intervals.
pub open spec fn active_intervals(s: Seq<Interval>) -> Seq<Interval>
    decreases s.len(),
{
    if s.len() == 0 {
        s
    } else if s.last().label == IntervalLabel::Active {
        active_intervals(s.drop_last()).push(s.last())
    } else {
        active_intervals(s.drop_last())
    }
}

/// The total duration of the active intervals.
pub open spec fn active_total(s: Seq<Interval>) -> int
    decreases s.len(),
{
    if s.len() == 0 {
        0
    } else {
        active_total(s.drop_last()) + if s.last().label == IntervalLabel::Active {
            s.last().last_ms - s.last().first_ms
        } else {
            0
        }
    }
}

/// Every partial sum of active durations fits in an `i64`.
pub open spec fn active_sums_fit(s: Seq<Interval>) -> bool {
    forall|k: int|
        0 <= k <= s.len() ==> i64::MIN <= #[trigger] active_total(s.subrange(0, k)) <= i64::MAX
}

pub open spec fn first_active_index(s: Seq<Interval>) -> Option<int>
    decreases s.len(),
{
    if s.len() == 0 {
        None
    } else if s[0].label == IntervalLabel::Active {
        Some(0)
    } else {
        match first_active_index(s.drop_first()) {
            Some(i) => Some(i + 1),
            None => None,
        }
    }
}

pub open spec fn last_active_index(s: Seq<Interval>) -> Option<int>
    decreases s.len(),
{
    if s.len() == 0 {
        None
    } else if s.last().label == IntervalLabel::Active {
        Some(s.len() - 1)
    } else {
        last_active_index(s.drop_last())
    }
}

pub open spec fn report_interval(iv: Interval) -> ReportInterval {
    ReportInterval {
        first_ms: iv.first_ms,
        last_ms: iv.last_ms,
        label: iv.label,
        location: iv.location,
    }
}

/// The displayed intervals of a day: the non-empty rendered intervals from
/// the first active one to the last active one.
pub open spec fn day_display(render: Seq<Interval>) -> Seq<ReportInterval> {
    let nz = nonzero_intervals(render);
    match (first_active_index(nz), last_active_index(nz)) {
        (Some(f), Some(l)) => nz.subrange(f, l + 1).map_values(|iv: Interval| report_interval(iv)),
        _ => Seq::empty(),
    }
}

pub open spec fn opt_str_view(o: Option<String>) -> Option<Seq<char>> {
    match o {
        Some(s) => Some(s@),
        None => None,
    }
}

pub open spec fn opt_ref_view(o: Option<&str>) -> Option<Seq<char>> {
    match o {
        Some(s) => Some(s@),
        None => None,
    }
}

/// The inputs a day report needs to be built without overflow.
pub open spec fn day_input_ok(intervals: Seq<Interval>) -> bool {
    intervals_ok(intervals) && active_sums_fit(spec_prepare_for_render(intervals))
}

// ---------------------------------------------------------------------------
// Helpers
// ---------------------------------------------------------------------------

fn copy_strings(v: &[String]) -> (r: Vec<String>)
    ensures
        r@ == v@,
{
    let mut r: Vec<String> = Vec::new();
    let mut i: usize = 0;
    while i < v.len()
        invariant
            i <= v@.len(),
            r@ =~= v@.subrange(0, i as int),
        decreases v@.len() - i,
    {
        r.push(v[i].clone());
        i = i + 1;
    }
    proof {
        assert(v@.subrange(0, v@.len() as int) =~= v@);
    }
    r
}

fn owned_opt(o: Option<&str>) -> (r: Option<String>)
    ensures
        opt_str_view(r) == opt_ref_view(o),
{
    match o {
        Some(s) => Some(to_owned_string(s)),
        None => None,
    }
}

fn copy_intervals(v: &[Interval]) -> (r: Vec<Interval>)
    ensures
        r@ == v@,
{
    let mut r: Vec<Interval> = Vec::new();
    let mut i: usize = 0;
    while i < v.len()
        invariant
            i <= v@.len(),
            r@ =~= v@.subrange(0, i as int),
        decreases v@.len() - i,
    {
        let iv = &v[i];
        r.push(
            Interval {
                first_ms: iv.first_ms,
                last_ms: iv.last_ms,
                label: iv.label,
                location: match &iv.location {
                    Some(l) => Some(l.clone()),
                    None => None,
                },
            },
        );
        i = i + 1;
    }
    proof {
        assert(v@.subrange(0, v@.len() as int) =~= v@);
    }
    r
}

fn sum_active(s: &Vec<Interval>) -> (r: i64)
    requires
        intervals_ok(s@),
        active_sums_fit(s@),
    ensures
        r == active_total(s@),
{
    let mut total: i64 = 0;
    let mut i: usize = 0;
    proof {
        assert(s@.subrange(0, 0) =~= Seq::<Interval>::empty());
    }
    while i < s.len()
        invariant
            i <= s@.len(),
            intervals_ok(s@),
            active_sums_fit(s@),
            total == active_total(s@.subrange(0, i as int)),
        decreases s@.len() - i,
    {
        proof {
            assert(s@.subrange(0, i + 1).drop_last() =~= s@.subrange(0, i as int));
            assert(i64::MIN <= active_total(s@.subrange(0, i + 1)) <= i64::MAX);
            assert(crate::types::time_ok(s@[i as int].first_ms as int));
        }
        if s[i].label == IntervalLabel::Active {
            total = total + (s[i].last_ms - s[i].first_ms);
        }
        i = i + 1;
    }
    proof {
        assert(s@.subrange(0, s@.len() as int) =~= s@);
    }
    total
}

fn nonzero_of(s: &Vec<Interval>) -> (r: Vec<Interval>)
    ensures
        r@ == nonzero_intervals(s@),
{
    let mut r: Vec<Interval> = Vec::new();
    let mut i: usize = 0;
    proof {
        assert(s@.subrange(0, 0) =~= Seq::<Interval>::empty());
    }
    while i < s.len()
        invariant
            i <= s@.len(),
            r@ == nonzero_intervals(s@.subrange(0, i as int)),
        decreases s@.len() - i,
    {
        proof {
            assert(s@.subrange(0, i + 1).drop_last() =~= s@.subrange(0, i as int));
        }
        if s[i].last_ms > s[i].first_ms {
            let iv = &s[i];
            r.push(
                Interval {
                    first_ms: iv.first_ms,
                    last_ms: iv.last_ms,
                    label: iv.label,
                    location: match &iv.location {
                        Some(l) => Some(l.clone()),
                        None => None,
                    },
                },
            );
        }
        i = i + 1;
    }
    proof {
        assert(s@.subrange(0, s@.len() as int) =~= s@);
    }
    r
}

fn first_active_of(s: &Vec<Interval>) -> (r: Option<usize>)
    ensures
        match first_active_index(s@) {
            Some(f) => r == Some(f as usize),
            None => r is None,
        },
{
    let mut i: usize = 0;
    proof {
        assert(s@.subrange(0, s@.len() as int) =~= s@);
    }
    while i < s.len()
        invariant
            i <= s@.len(),
            forall|j: int| 0 <= j < i ==> s@[j].label != IntervalLabel::Active,
            match first_active_index(s@.subrange(i as int, s@.len() as int)) {
                Some(f) => first_active_index(s@) == Some(f + i),
                None => first_active_index(s@) is None,
            },
        decreases s@.len() - i,
    {
        proof {
            assert(s@.subrange(i as int, s@.len() as int).drop_first() =~= s@.subrange(
                i + 1,
                s@.len() as int,
            ));
        }
        if s[i].label == IntervalLabel::Active {
            return Some(i);
        }
        i = i + 1;
    }
    None
}

fn last_active_of(s: &Vec<Interval>) -> (r: Option<usize>)
    ensures
        match last_active_index(s@) {
            Some(l) => r == Some(l as usize),
            None => r is None,
        },
{
    let mut n: usize = s.len();
    proof {
        assert(s@.subrange(0, s@.len() as int) =~= s@);
    }
    while n > 0
        invariant
            n <= s@.len(),
            last_active_index(s@.subrange(0, n as int)) == last_active_index(s@),
        decreases n,
    {
        proof {
            assert(s@.subrange(0, n as int).drop_last() =~= s@.subrange(0, n - 1));
        }
        if s[n - 1].label == IntervalLabel::Active {
            return Some(n - 1);
        }
        n = n - 1;
    }
    None
}

proof fn lemma_first_active(s: Seq<Interval>)
    ensures
        first_active_index(s) matches Some(f) ==> 0 <= f < s.len() && s[f].label
            == IntervalLabel::Active,
        first_active_index(s) matches Some(f) ==> forall|j: int|
            0 <= j < f ==> s[j].label != IntervalLabel::Active,
        first_active_index(s) is None ==> forall|j: int|
            0 <= j < s.len() ==> s[j].label != IntervalLabel::Active,
    decreases s.len(),
{
    if s.len() > 0 {
        lemma_first_active(s.drop_first());
        assert forall|j: int| 0 <= j < s.len() - 1 implies s.drop_first()[j] == s[j + 1] by {}
        if s[0].label != IntervalLabel::Active {
            assert forall|j: int| 0 <= j < s.len() && first_active_index(s) is None implies s[j].label
                != IntervalLabel::Active by {
                if j > 0 {
                    assert(s.drop_first()[j - 1] == s[j]);
                }
            }
            assert forall|j: int|
                first_active_index(s) is Some && 0 <= j < first_active_index(s).unwrap() implies s[j].label
                != IntervalLabel::Active by {
                if j > 0 {
                    assert(s.drop_first()[j - 1] == s[j]);
                }
            }
        }
    }
}

proof fn lemma_last_active(s: Seq<Interval>)
    ensures
        last_active_index(s) matches Some(l) ==> 0 <= l < s.len() && s[l].label
            == IntervalLabel::Active,
        last_active_index(s) matches Some(l) ==> forall|j: int|
            l < j < s.len() ==> s[j].label != IntervalLabel::Active,
        last_active_index(s) is None ==> forall|j: int|
            0 <= j < s.len() ==> s[j].label != IntervalLabel::Active,
    decreases s.len(),
{
    if s.len() > 0 {
        lemma_last_active(s.drop_last());
        assert forall|j: int| 0 <= j < s.len() - 1 implies s.drop_last()[j] == s[j] by {}
    }
}

proof fn lemma_first_last_active(s: Seq<Interval>)
    ensures
        first_active_index(s) is Some <==> last_active_index(s) is Some,
        first_active_index(s) matches Some(f) ==> 0 <= f < s.len() && s[f].label
            == IntervalLabel::Active,
        last_active_index(s) matches Some(l) ==> 0 <= l < s.len() && s[l].label
            == IntervalLabel::Active,
        first_active_index(s) is Some && last_active_index(s) is Some ==> first_active_index(
            s,
        ).unwrap() <= last_active_index(s).unwrap(),
{
    lemma_first_active(s);
    lemma_last_active(s);
    if first_active_index(s) is Some && last_active_index(s) is Some {
        let f = first_active_index(s).unwrap();
        let l = last_active_index(s).unwrap();
        assert(s[f].label == IntervalLabel::Active);
    }
    if first_active_index(s) is None && last_active_index(s) is Some {
        let l = last_active_index(s).unwrap();
        assert(s[l].label == IntervalLabel::Active);
    }
    if first_active_index(s) is Some && last_active_index(s) is None {
        let f = first_active_index(s).unwrap();
        assert(s[f].label == IntervalLabel::Active);
    }
}

/// Whether `intervals` can be given to `build_day_report`: their times are
/// in range, and every running sum of the active durations of the intervals
/// prepared for rendering fits in an `i64`.
pub fn day_input_checked(intervals: &[Interval]) -> (r: bool)
    ensures
        r == day_input_ok(intervals@),
{
    let mut i: usize = 0;
    while i < intervals.len()
        invariant
            i <= intervals@.len(),
            forall|j: int|
                0 <= j < i ==> crate::types::time_ok(#[trigger] intervals@[j].first_ms as int)
                    && crate::types::time_ok(intervals@[j].last_ms as int),
        decreases intervals@.len() - i,
    {
        let first = intervals[i].first_ms;
        let last = intervals[i].last_ms;
        let ok = -crate::types::TIME_LIMIT <= first && first <= crate::types::TIME_LIMIT
            && -crate::types::TIME_LIMIT <= last && last <= crate::types::TIME_LIMIT;
        if !ok {
            proof {
                assert(!(crate::types::time_ok(intervals@[i as int].first_ms as int)
                    && crate::types::time_ok(intervals@[i as int].last_ms as int)));
                assert(!intervals_ok(intervals@));
            }
            return false;
        }
        proof {
            assert forall|j: int| 0 <= j < i + 1 implies crate::types::time_ok(
                #[trigger] intervals@[j].first_ms as int,
            ) && crate::types::time_ok(intervals@[j].last_ms as int) by {
                if j == i {
                    assert(first == intervals@[j].first_ms);
                    assert(last == intervals@[j].last_ms);
                }
            }
        }
        i = i + 1;
    }
    proof {
        assert(intervals_ok(intervals@));
    }
    let prepared = prepare_intervals_for_render(copy_intervals(intervals));
    let ghost ps = prepared@;
    assert(ps == spec_prepare_for_render(intervals@));
    let mut sum: i128 = 0;
    let mut k: usize = 0;
    proof {
        assert(ps.subrange(0, 0) =~= Seq::<Interval>::empty());
    }
    while k < prepared.len()
        invariant
            k <= ps.len(),
            ps == prepared@,
            ps == spec_prepare_for_render(intervals@),
            intervals_ok(intervals@),
            sum == active_total(ps.subrange(0, k as int)),
            forall|j: int|
                0 <= j <= k ==> i64::MIN <= #[trigger] active_total(ps.subrange(0, j)) <= i64::MAX,
        decreases ps.len() - k,
    {
        proof {
            assert(ps.subrange(0, k + 1).drop_last() =~= ps.subrange(0, k as int));
        }
        let iv = &prepared[k];
        if iv.label == IntervalLabel::Active {
            sum = sum + (iv.last_ms as i128 - iv.first_ms as i128);
        }
        proof {
            assert(sum == active_total(ps.subrange(0, k + 1)));
        }
        if sum < i64::MIN as i128 || sum > i64::MAX as i128 {
            proof {
                assert(!(i64::MIN <= active_total(ps.subrange(0, k + 1)) <= i64::MAX));
                assert(!active_sums_fit(ps));
            }
            return false;
        }
        k = k + 1;
    }
    proof {
        assert(ps.subrange(0, ps.len() as int) =~= ps);
        assert(active_sums_fit(ps));
    }
    true
}

/// Builds the report of one day from its intervals.
pub fn build_day_report(
    date: &str,
    intervals: &[Interval],
    dominant_id: Option<&str>,
    other_ids: &[String],
) -> (r: DayReport)
    requires
        day_input_ok(intervals@),
    ensures
        r.date@ == date@,
        r.intervals@ == day_display(spec_prepare_for_render(intervals@)),
        r.total_active_ms == active_total(spec_prepare_for_render(intervals@)),
        opt_str_view(r.dominant_id) == opt_ref_view(dominant_id),
        r.other_ids@ == other_ids@,
{
    let render = prepare_intervals_for_render(copy_intervals(intervals));
    proof {
        crate::intervals::lemma_prepare_ok(intervals@);
    }
    let total_active_ms = sum_active(&render);
    let non_zero = nonzero_of(&render);
    let first = first_active_of(&non_zero);
    let last = last_active_of(&non_zero);
    proof {
        lemma_first_last_active(non_zero@);
    }
    let mut display: Vec<ReportInterval> = Vec::new();
    match (first, last) {
        (Some(f), Some(l)) => {
            assert(non_zero@.len() == non_zero.len());
            let mut i: usize = f;
            while i <= l
                invariant
                    f <= i <= l + 1,
                    l < non_zero@.len(),
                    non_zero@.len() <= usize::MAX,
                    display@ =~= non_zero@.subrange(f as int, i as int).map_values(
                        |iv: Interval| report_interval(iv),
                    ),
                decreases l + 1 - i,
            {
                let iv = &non_zero[i];
                display.push(
                    ReportInterval {
                        first_ms: iv.first_ms,
                        last_ms: iv.last_ms,
                        label: iv.label,
                        location: match &iv.location {
                            Some(s) => Some(s.clone()),
                            None => None,
                        },
                    },
                );
                i = i + 1;
            }
        },
        _ => {},
    }
    DayReport {
        date: to_owned_string(date),
        intervals: display,
        total_active_ms,
        dominant_id: owned_opt(dominant_id),
        other_ids: copy_strings(other_ids),
    }
}

// ---------------------------------------------------------------------------
// Month report
// ---------------------------------------------------------------------------

/// The intervals stored for `date`: those of the first entry with that date.
pub open spec fn lookup_day(entries: Seq<(String, Vec<Interval>)>, date: Seq<char>) -> Option<
    Seq<Interval>,
>
    decreases entries.len(),
{
    if entries.len() == 0 {
        None
    } else if entries[0].0@ == date {
        Some(entries[0].1@)
    } else {
        lookup_day(entries.drop_first(), date)
    }
}

/// The days of a month that get a row, with their rendered intervals: the
/// dates up to the first one after `today`, that have intervals with at least
/// one active interval among them once rendered.
pub open spec fn month_days(
    dates: Seq<String>,
    entries: Seq<(String, Vec<Interval>)>,
    today: Seq<char>,
) -> Seq<(Seq<char>, Seq<Interval>)>
    decreases dates.len(),
{
    if dates.len() == 0 || lex_lt(today, dates[0]@) {
        Seq::empty()
    } else {
        let rest = month_days(dates.drop_first(), entries, today);
        match lookup_day(entries, dates[0]@) {
            None => rest,
            Some(raw) => {
                let render = spec_prepare_for_render(raw);
                if active_intervals(render).len() == 0 {
                    rest
                } else {
                    seq![(dates[0]@, render)] + rest
                }
            },
        }
    }
}

/// The views of a sequence of strings.
pub open spec fn string_views(v: Seq<String>) -> Seq<Seq<char>> {
    v.map_values(|l: String| l@)
}

/// `a` is listed before `b`: the dominant location comes first, the others
/// in lexicographic order.
pub open spec fn loc_before(a: Seq<char>, b: Seq<char>, dominant: Option<Seq<char>>) -> bool {
    dominant == Some(a) || (dominant != Some(b) && lex_lt(a, b))
}

/// Some interval of `s` is at location `x`.
pub open spec fn has_location(s: Seq<Interval>, x: Seq<char>) -> bool {
    exists|k: int| 0 <= k < s.len() && #[trigger] opt_str_view(s[k].location) == Some(x)
}

/// `locs` lists each location of the intervals `active` once, dominant first,
/// then the others in lexicographic order.
pub open spec fn locations_ok(
    locs: Seq<Seq<char>>,
    active: Seq<Interval>,
    dominant: Option<Seq<char>>,
) -> bool {
    &&& forall|i: int, j: int|
        #![trigger locs[i], locs[j]]
        0 <= i < j < locs.len() ==> locs[i] != locs[j] && loc_before(locs[i], locs[j], dominant)
    &&& forall|i: int| 0 <= i < locs.len() ==> has_location(active, #[trigger] locs[i])
    &&& forall|k: int|
        0 <= k < active.len() && active[k].location is Some ==> locs.contains(
            #[trigger] opt_str_view(active[k].location).unwrap(),
        )
}

pub open spec fn month_break(iv: Interval) -> MonthBreak {
    MonthBreak { first_ms: iv.first_ms, last_ms: iv.last_ms, label: iv.label }
}

/// The non-active intervals of positive duration that lie within `[lo, hi]`.
pub open spec fn month_breaks(s: Seq<Interval>, lo: i64, hi: i64) -> Seq<MonthBreak>
    decreases s.len(),
{
    if s.len() == 0 {
        Seq::empty()
    } else {
        let iv = s.last();
        let rest = month_breaks(s.drop_last(), lo, hi);
        if iv.label != IntervalLabel::Active && iv.last_ms > iv.first_ms && iv.first_ms >= lo
            && iv.last_ms <= hi {
            rest.push(month_break(iv))
        } else {
            rest
        }
    }
}

/// `row` is the month-report row of `date`, whose rendered intervals are `render`.
pub open spec fn row_ok(
    row: MonthReportRow,
    date: Seq<char>,
    render: Seq<Interval>,
    dominant: Option<Seq<char>>,
) -> bool {
    let active = active_intervals(render);
    &&& row.date@ == date
    &&& row.first_ms == active[0].first_ms
    &&& row.last_ms == active.last().last_ms
    &&& row.total_active_ms == active_total(render)
    &&& locations_ok(string_views(row.locations@), active, dominant)
    &&& row.breaks@ == month_breaks(render, active[0].first_ms, active.last().last_ms)
}

/// The inputs a month report needs to be built without overflow.
pub open spec fn month_input_ok(entries: Seq<(String, Vec<Interval>)>) -> bool {
    forall|k: int| 0 <= k < entries.len() ==> day_input_ok(#[trigger] entries[k].1@)
}

proof fn lemma_lookup_ok(entries: Seq<(String, Vec<Interval>)>, date: Seq<char>)
    requires
        month_input_ok(entries),
    ensures
        lookup_day(entries, date) matches Some(raw) ==> day_input_ok(raw),
    decreases entries.len(),
{
    if entries.len() > 0 && entries[0].0@ != date {
        assert forall|k: int| 0 <= k < entries.len() - 1 implies day_input_ok(
            #[trigger] entries.drop_first()[k].1@,
        ) by {
            assert(entries.drop_first()[k] == entries[k + 1]);
        }
        lemma_lookup_ok(entries.drop_first(), date);
    }
}

fn lookup_day_exec<'a>(entries: &'a [(String, Vec<Interval>)], date: &String) -> (r: Option<
    &'a Vec<Interval>,
>)
    ensures
        match lookup_day(entries@, date@) {
            Some(raw) => r is Some && r.unwrap()@ == raw,
            None => r is None,
        },
{
    let mut i: usize = 0;
    proof {
        assert(entries@.subrange(0, entries@.len() as int) =~= entries@);
    }
    while i < entries.len()
        invariant
            i <= entries@.len(),
            lookup_day(entries@.subrange(i as int, entries@.len() as int), date@) == lookup_day(
                entries@,
                date@,
            ),
        decreases entries@.len() - i,
    {
        proof {
            assert(entries@.subrange(i as int, entries@.len() as int).drop_first()
                =~= entries@.subrange(i + 1, entries@.len() as int));
        }
        if entries[i].0 == *date {
            return Some(&entries[i].1);
        }
        i = i + 1;
    }
    None
}

fn active_of(s: &Vec<Interval>) -> (r: Vec<Interval>)
    ensures
        r@ == active_intervals(s@),
{
    let mut r: Vec<Interval> = Vec::new();
    let mut i: usize = 0;
    proof {
        assert(s@.subrange(0, 0) =~= Seq::<Interval>::empty());
    }
    while i < s.len()
        invariant
            i <= s@.len(),
            r@ == active_intervals(s@.subrange(0, i as int)),
        decreases s@.len() - i,
    {
        proof {
            assert(s@.subrange(0, i + 1).drop_last() =~= s@.subrange(0, i as int));
        }
        if s[i].label == IntervalLabel::Active {
            r.push(copy_interval(&s[i]));
        }
        i = i + 1;
    }
    proof {
        assert(s@.subrange(0, s@.len() as int) =~= s@);
    }
    r
}

fn breaks_of(s: &Vec<Interval>, lo: i64, hi: i64) -> (r: Vec<MonthBreak>)
    ensures
        r@ == month_breaks(s@, lo, hi),
{
    let mut r: Vec<MonthBreak> = Vec::new();
    let mut i: usize = 0;
    proof {
        assert(s@.subrange(0, 0) =~= Seq::<Interval>::empty());
    }
    while i < s.len()
        invariant
            i <= s@.len(),
            r@ == month_breaks(s@.subrange(0, i as int), lo, hi),
        decreases s@.len() - i,
    {
        proof {
            assert(s@.subrange(0, i + 1).drop_last() =~= s@.subrange(0, i as int));
        }
        let iv = &s[i];
        if iv.label != IntervalLabel::Active && iv.last_ms > iv.first_ms && iv.first_ms >= lo
            && iv.last_ms <= hi {
            r.push(MonthBreak { first_ms: iv.first_ms, last_ms: iv.last_ms, label: iv.label });
        }
        i = i + 1;
    }
    proof {
        assert(s@.subrange(0, s@.len() as int) =~= s@);
    }
    r
}

fn location_before(a: &String, b: &String, dominant: &Option<String>) -> (r: bool)
    ensures
        r == loc_before(a@, b@, opt_str_view(*dominant)),
{
    match dominant {
        Some(d) => {
            if *a == *d {
                return true;
            }
            if *b == *d {
                return false;
            }
        },
        None => {},
    }
    str_lt(a.as_str(), b.as_str())
}

proof fn lemma_loc_before_order(a: Seq<char>, b: Seq<char>, c: Seq<char>, d: Option<Seq<char>>)
    ensures
        a != b ==> (loc_before(a, b, d) || loc_before(b, a, d)),
        a != b && loc_before(a, b, d) ==> !loc_before(b, a, d),
        a != c && loc_before(a, b, d) && loc_before(b, c, d) ==> loc_before(a, c, d),
{
    lemma_lex_lt_total(a, b);
    lemma_lex_lt_irreflexive(a);
    if lex_lt(a, b) && lex_lt(b, c) {
        lemma_lex_lt_transitive(a, b, c);
    }
}

pub(crate) fn contains_string(v: &Vec<String>, x: &String) -> (r: bool)
    ensures
        r == string_views(v@).contains(x@),
{
    let mut i: usize = 0;
    while i < v.len()
        invariant
            i <= v@.len(),
            forall|j: int| 0 <= j < i ==> v@[j]@ != x@,
        decreases v@.len() - i,
    {
        if v[i] == *x {
            proof {
                assert(string_views(v@)[i as int] == x@);
            }
            return true;
        }
        i = i + 1;
    }
    proof {
        if string_views(v@).contains(x@) {
            let j = choose|j: int|
                0 <= j < v@.len() && #[trigger] string_views(v@)[j] == x@;
            assert(v@[j]@ == x@);
        }
    }
    false
}

/// The locations of `active`, each once, dominant first, then in
/// lexicographic order.
fn sorted_locations(active: &Vec<Interval>, dominant: &Option<String>) -> (r: Vec<String>)
    ensures
        locations_ok(string_views(r@), active@, opt_str_view(*dominant)),
{
    let ghost d = opt_str_view(*dominant);
    let mut out: Vec<String> = Vec::new();
    let mut k: usize = 0;
    while k < active.len()
        invariant
            k <= active@.len(),
            d == opt_str_view(*dominant),
            locations_ok(string_views(out@), active@.subrange(0, k as int), d),
        decreases active@.len() - k,
    {
        let ghost before = string_views(out@);
        let ghost prefix = active@.subrange(0, k as int);
        let ghost next = active@.subrange(0, k + 1);
        proof {
            assert forall|x: Seq<char>| has_location(prefix, x) implies has_location(next, x) by {
                let j = choose|j: int| 0 <= j < prefix.len() && #[trigger] opt_str_view(prefix[j].location) == Some(x);
                assert(next[j] == prefix[j]);
            }
        }
        match &active[k].location {
            None => {
                proof {
                    assert forall|j: int|
                        0 <= j < next.len() && next[j].location is Some implies before.contains(
                        #[trigger] opt_str_view(next[j].location).unwrap(),
                    ) by {
                        assert(next[j] == prefix[j]);
                    }
                }
            },
            Some(loc) => {
                let present = contains_string(&out, loc);
                if !present {
                    let mut p: usize = 0;
                    while p < out.len()
                        invariant
                            p <= out@.len(),
                            string_views(out@) == before,
                            d == opt_str_view(*dominant),
                            forall|j: int| 0 <= j < p ==> !loc_before(loc@, #[trigger] before[j], d),
                        ensures
                            p <= out@.len(),
                            string_views(out@) == before,
                            forall|j: int| 0 <= j < p ==> !loc_before(loc@, #[trigger] before[j], d),
                            p < out@.len() ==> loc_before(loc@, before[p as int], d),
                        decreases out@.len() - p,
                    {
                        if location_before(loc, &out[p], dominant) {
                            break;
                        }
                        p = p + 1;
                    }
                    out.insert(p, loc.clone());
                    proof {
                        let after = string_views(out@);
                        assert(after =~= before.insert(p as int, loc@));
                        assert forall|j: int| 0 <= j < p implies loc_before(before[j], loc@, d) by {
                            lemma_loc_before_order(before[j], loc@, loc@, d);
                        }
                        assert forall|j: int| 0 <= j < before.len() implies before[j] != loc@ by {
                            if before[j] == loc@ {
                                assert(before.contains(loc@));
                            }
                        }
                        assert forall|j: int| p <= j < before.len() implies loc_before(loc@, before[j], d) by {
                            if j > p {
                                lemma_loc_before_order(loc@, before[p as int], before[j], d);
                            }
                        }
                        assert forall|i: int, j: int| 0 <= i < j < after.len() implies after[i]
                            != after[j] && loc_before(after[i], after[j], d) by {
                            if i < p {
                                assert(after[i] == before[i]);
                            } else if i > p {
                                assert(after[i] == before[i - 1]);
                            }
                            if j < p {
                                assert(after[j] == before[j]);
                            } else if j > p {
                                assert(after[j] == before[j - 1]);
                            }
                            assert(after[p as int] == loc@);
                            assert(locations_ok(before, prefix, d));
                            if i != p && j != p {
                                let bi = if i < p { i } else { i - 1 };
                                let bj = if j < p { j } else { j - 1 };
                                assert(0 <= bi < bj < before.len());
                                assert(before[bi] != before[bj] && loc_before(before[bi], before[bj], d));
                            } else if i == p {
                                assert(loc_before(loc@, before[j - 1], d));
                                assert(before[j - 1] != loc@);
                            } else {
                                assert(loc_before(before[i], loc@, d));
                                assert(before[i] != loc@);
                            }
                        }
                        assert(has_location(next, loc@)) by {
                            assert(opt_str_view(next[k as int].location) == Some(loc@));
                        }
                        assert forall|i: int| 0 <= i < after.len() implies has_location(
                            next,
                            #[trigger] after[i],
                        ) by {
                            if i < p {
                                assert(after[i] == before[i]);
                            } else if i > p {
                                assert(after[i] == before[i - 1]);
                            }
                        }
                        assert forall|j: int|
                            0 <= j < next.len() && next[j].location is Some implies after.contains(
                            #[trigger] opt_str_view(next[j].location).unwrap(),
                        ) by {
                            if j < k {
                                assert(next[j] == prefix[j]);
                                let x = opt_str_view(next[j].location).unwrap();
                                let q = choose|q: int| 0 <= q < before.len() && before[q] == x;
                                if q < p {
                                    assert(after[q] == x);
                                } else {
                                    assert(after[q + 1] == x);
                                }
                            } else {
                                assert(after[p as int] == loc@);
                            }
                        }
                    }
                } else {
                    proof {
                        assert forall|j: int|
                            0 <= j < next.len() && next[j].location is Some implies before.contains(
                            #[trigger] opt_str_view(next[j].location).unwrap(),
                        ) by {
                            if j < k {
                                assert(next[j] == prefix[j]);
                            }
                        }
                    }
                }
            },
        }
        k = k + 1;
    }
    proof {
        assert(active@.subrange(0, active@.len() as int) =~= active@);
    }
    out
}

/// Builds the report of one month: one row per date up to `today` that has
/// active time.
pub fn build_month_report(
    yyyymm: &str,
    dates: &[String],
    intervals_by_date: &[(String, Vec<Interval>)],
    dominant_id: Option<&str>,
    other_ids: &[String],
    today: &str,
) -> (r: MonthReport)
    requires
        month_input_ok(intervals_by_date@),
    ensures
        r.yyyymm@ == yyyymm@,
        r.rows@.len() == month_days(dates@, intervals_by_date@, today@).len(),
        forall|k: int|
            0 <= k < r.rows@.len() ==> row_ok(
                #[trigger] r.rows@[k],
                month_days(dates@, intervals_by_date@, today@)[k].0,
                month_days(dates@, intervals_by_date@, today@)[k].1,
                opt_ref_view(dominant_id),
            ),
        opt_str_view(r.dominant_id) == opt_ref_view(dominant_id),
        r.other_ids@ == other_ids@,
{
    let dominant = owned_opt(dominant_id);
    let ghost days = month_days(dates@, intervals_by_date@, today@);
    let mut rows: Vec<MonthReportRow> = Vec::new();
    let mut i: usize = 0;
    proof {
        assert(dates@.subrange(0, dates@.len() as int) =~= dates@);
    }
    while i < dates.len()
        invariant_except_break
            i <= dates@.len(),
            days == month_days(dates@, intervals_by_date@, today@),
            month_input_ok(intervals_by_date@),
            opt_str_view(dominant) == opt_ref_view(dominant_id),
            rows@.len() <= days.len(),
            days =~= days.subrange(0, rows@.len() as int) + month_days(
                dates@.subrange(i as int, dates@.len() as int),
                intervals_by_date@,
                today@,
            ),
            forall|k: int|
                0 <= k < rows@.len() ==> row_ok(
                    #[trigger] rows@[k],
                    days[k].0,
                    days[k].1,
                    opt_ref_view(dominant_id),
                ),
        ensures
            days == month_days(dates@, intervals_by_date@, today@),
            rows@.len() == days.len(),
            forall|k: int|
                0 <= k < rows@.len() ==> row_ok(
                    #[trigger] rows@[k],
                    days[k].0,
                    days[k].1,
                    opt_ref_view(dominant_id),
                ),
        decreases dates@.len() - i,
    {
        let ghost tail = dates@.subrange(i as int, dates@.len() as int);
        proof {
            assert(tail.drop_first() =~= dates@.subrange(i + 1, dates@.len() as int));
            assert(tail[0] == dates@[i as int]);
        }
        let date = &dates[i];
        if str_lt(today, date.as_str()) {
            proof {
                assert(month_days(tail, intervals_by_date@, today@) =~= Seq::empty());
                assert(days =~= days.subrange(0, rows@.len() as int));
            }
            break;
        }
        match lookup_day_exec(intervals_by_date, date) {
            None => {},
            Some(raw) => {
                proof {
                    lemma_lookup_ok(intervals_by_date@, date@);
                    crate::intervals::lemma_prepare_ok(raw@);
                }
                let render = prepare_intervals_for_render(copy_intervals(raw.as_slice()));
                let active = active_of(&render);
                if active.len() > 0 {
                    let total_active_ms = sum_active(&render);
                    let first_ms = active[0].first_ms;
                    let last_ms = active[active.len() - 1].last_ms;
                    let locations = sorted_locations(&active, &dominant);
                    let breaks = breaks_of(&render, first_ms, last_ms);
                    let row = MonthReportRow {
                        date: date.clone(),
                        first_ms,
                        last_ms,
                        total_active_ms,
                        locations,
                        breaks,
                    };
                    proof {
                        let n = rows@.len() as int;
                        assert(month_days(tail, intervals_by_date@, today@) =~= seq![(date@, render@)]
                            + month_days(tail.drop_first(), intervals_by_date@, today@));
                        assert(days[n] == (date@, render@));
                        assert(days.subrange(0, n + 1) =~= days.subrange(0, n).push((date@, render@)));
                        assert(row_ok(row, date@, render@, opt_ref_view(dominant_id)));
                    }
                    rows.push(row);
                }
            },
        }
        i = i + 1;
    }
    MonthReport {
        yyyymm: to_owned_string(yyyymm),
        rows,
        dominant_id: dominant,
        other_ids: copy_strings(other_ids),
    }
}

// ---------------------------------------------------------------------------
// Properties of the reports
// ---------------------------------------------------------------------------

proof fn lemma_nonzero_positive(s: Seq<Interval>)
    ensures
        forall|i: int|
            0 <= i < nonzero_intervals(s).len() ==> #[trigger] nonzero_intervals(s)[i].first_ms
                < nonzero_intervals(s)[i].last_ms,
    decreases s.len(),
{
    if s.len() > 0 {
        lemma_nonzero_positive(s.drop_last());
    }
}

/// The intervals shown for a day start and end with an active interval, and
/// each of them has a positive duration.
pub proof fn law_day_display_framed_by_active(render: Seq<Interval>)
    ensures
        day_display(render).len() > 0 ==> day_display(render)[0].label == IntervalLabel::Active
            && day_display(render).last().label == IntervalLabel::Active,
        forall|i: int|
            0 <= i < day_display(render).len() ==> #[trigger] day_display(render)[i].first_ms
                < day_display(render)[i].last_ms,
{
    let nz = nonzero_intervals(render);
    lemma_nonzero_positive(render);
    lemma_first_last_active(nz);
    if first_active_index(nz) is Some && last_active_index(nz) is Some {
        let f = first_active_index(nz).unwrap();
        let l = last_active_index(nz).unwrap();
        let d = day_display(render);
        assert(d.len() == l + 1 - f);
        assert(d[0] == report_interval(nz[f]));
        assert(d.last() == report_interval(nz[l]));
        assert forall|i: int| 0 <= i < d.len() implies #[trigger] d[i].first_ms < d[i].last_ms by {
            assert(d[i] == report_interval(nz[f + i]));
        }
    }
}

/// Every row of a month report is for a date that is not after `today`, and
/// has some active time.
pub proof fn law_month_rows_until_today(
    dates: Seq<String>,
    entries: Seq<(String, Vec<Interval>)>,
    today: Seq<char>,
)
    ensures
        forall|k: int|
            0 <= k < month_days(dates, entries, today).len() ==> !lex_lt(
                today,
                #[trigger] month_days(dates, entries, today)[k].0,
            ) && active_intervals(month_days(dates, entries, today)[k].1).len() > 0,
    decreases dates.len(),
{
    if dates.len() > 0 && !lex_lt(today, dates[0]@) {
        law_month_rows_until_today(dates.drop_first(), entries, today);
        let rest = month_days(dates.drop_first(), entries, today);
        let r = month_days(dates, entries, today);
        assert forall|k: int| 0 <= k < r.len() implies !lex_lt(today, #[trigger] r[k].0)
            && active_intervals(r[k].1).len() > 0 by {
            if r.len() != rest.len() && k > 0 {
                assert(r[k] == rest[k - 1]);
            }
        }
    }
}


/// The breaks of a day list every non-active interval (a break or a transit)
/// of positive duration that lies within `[lo, hi]`, and nothing else: each
/// listed break is such an interval of the day.
pub proof fn law_month_breaks_list_every_gap(s: Seq<Interval>, lo: i64, hi: i64)
    ensures
        forall|k: int|
            0 <= k < s.len() && (#[trigger] s[k]).label != IntervalLabel::Active && s[k].first_ms
                < s[k].last_ms && lo <= s[k].first_ms && s[k].last_ms <= hi ==> month_breaks(
                s,
                lo,
                hi,
            ).contains(
                MonthBreak { first_ms: s[k].first_ms, last_ms: s[k].last_ms, label: s[k].label },
            ),
        forall|j: int|
            0 <= j < month_breaks(s, lo, hi).len() ==> {
                let b = #[trigger] month_breaks(s, lo, hi)[j];
                &&& b.label != IntervalLabel::Active
                &&& b.first_ms < b.last_ms
                &&& lo <= b.first_ms && b.last_ms <= hi
                &&& exists|k: int|
                    0 <= k < s.len() && s[k].first_ms == b.first_ms && s[k].last_ms == b.last_ms
                        && s[k].label == b.label
            },
    decreases s.len(),
{
    if s.len() > 0 {
        let d = s.drop_last();
        law_month_breaks_list_every_gap(d, lo, hi);
        let rest = month_breaks(d, lo, hi);
        let r = month_breaks(s, lo, hi);
        let n = s.len() - 1;
        assert forall|k: int|
            0 <= k < s.len() && (#[trigger] s[k]).label != IntervalLabel::Active && s[k].first_ms
                < s[k].last_ms && lo <= s[k].first_ms && s[k].last_ms <= hi implies r.contains(
            MonthBreak { first_ms: s[k].first_ms, last_ms: s[k].last_ms, label: s[k].label },
        ) by {
            let b = MonthBreak { first_ms: s[k].first_ms, last_ms: s[k].last_ms, label: s[k].label };
            if k < n {
                assert(d[k] == s[k]);
                assert(rest.contains(b));
                let j = choose|j: int| 0 <= j < rest.len() && rest[j] == b;
                if r == rest.push(month_break(s.last())) {
                    assert(r[j] == b);
                }
            } else {
                assert(r == rest.push(month_break(s.last())));
                assert(r[rest.len() as int] == b);
            }
        }
        assert forall|j: int| 0 <= j < r.len() implies {
            let b = #[trigger] r[j];
            &&& b.label != IntervalLabel::Active
            &&& b.first_ms < b.last_ms
            &&& lo <= b.first_ms && b.last_ms <= hi
            &&& exists|k: int|
                0 <= k < s.len() && s[k].first_ms == b.first_ms && s[k].last_ms == b.last_ms
                    && s[k].label == b.label
        } by {
            if j < rest.len() {
                assert(r[j] == rest[j]);
                let b = rest[j];
                let k = choose|k: int|
                    0 <= k < d.len() && d[k].first_ms == b.first_ms && d[k].last_ms == b.last_ms
                        && d[k].label == b.label;
                assert(d[k] == s[k]);
            } else {
                assert(s[n] == s.last());
            }
        }
    }
}

/// Each row of a month report lists among its breaks every non-active
/// interval (a break or a transit) of the day's rendered intervals that has a
/// positive duration and lies between the row's first and last active times.
pub proof fn law_row_breaks_list_every_gap(
    row: MonthReportRow,
    date: Seq<char>,
    render: Seq<Interval>,
    dominant: Option<Seq<char>>,
)
    requires
        row_ok(row, date, render, dominant),
    ensures
        forall|k: int|
            0 <= k < render.len() && (#[trigger] render[k]).label != IntervalLabel::Active
                && render[k].first_ms < render[k].last_ms && row.first_ms <= render[k].first_ms
                && render[k].last_ms <= row.last_ms ==> row.breaks@.contains(
                MonthBreak {
                    first_ms: render[k].first_ms,
                    last_ms: render[k].last_ms,
                    label: render[k].label,
                },
            ),
{
    law_month_breaks_list_every_gap(render, row.first_ms, row.last_ms);
}
} // verus!

//! The decisions taken while computing the intervals of a set of dates: the
//! device state at the start of a window, the fallback to the legacy
//! aggregate path, and what is written to the cache.
use vstd::prelude::*;

use crate::cache::CachedIntervals;
use crate::search::{last_before, sorted_by_time, spec_last_before_index};
use crate::text::{lex_lt, str_eq, str_lt};
use crate::timeline::{canonical_subnet, group_of};
use crate::types::{
    ActivePeriod, BlEvent, FrontmostEvent, HasTime, InitialState, InputEvent, InputKind, Interval,
    IntervalLabel, LocationGroups, RawEvent, RawEventKind, ScreenEvent, ScreenEventKind,
    WifiEvent,
};

verus! {

/// The index of the last wifi event before `t` that has a subnet.
pub open spec fn last_subnet_before(wifi: Seq<WifiEvent>, t: int) -> Option<int>
    decreases wifi.len(),
{
    if wifi.len() == 0 {
        None
    } else if wifi.last().time_ms < t && wifi.last().subnet@.len() > 0 {
        Some(wifi.len() - 1)
    } else {
        last_subnet_before(wifi.drop_last(), t)
    }
}

/// The time of the element `i` of `arr`, or 0 when there is none.
pub open spec fn time_or_zero<T: HasTime>(arr: Seq<T>, i: Option<int>) -> int {
    match i {
        Some(k) => arr[k].spec_time() as int,
        None => 0,
    }
}

/// The device state at `window_start`, from the event streams (each sorted
/// by time): the backlight and lock state set by their last events before
/// it, the canonical subnet of the last wifi event before it that has a
/// subnet, and the time of the last input or focus event before it (none
/// when that is 0).
pub open spec fn spec_initial_state(
    bl: Seq<BlEvent>,
    screen: Seq<ScreenEvent>,
    wifi: Seq<WifiEvent>,
    input: Seq<InputEvent>,
    frontmost: Seq<FrontmostEvent>,
    groups: Seq<(String, String)>,
    window_start: i64,
    init: InitialState,
) -> bool {
    let t = window_start as int;
    &&& init.bl_on == match spec_last_before_index(bl, t) {
        Some(i) => bl[i].active,
        None => false,
    }
    &&& init.screen_locked == match spec_last_before_index(screen, t) {
        Some(i) => screen[i].kind == ScreenEventKind::Lock,
        None => false,
    }
    &&& crate::timeline::opt_view(init.ip_canon) == match last_subnet_before(wifi, t) {
        Some(i) => Some(group_of(groups, wifi[i].subnet@)),
        None => None,
    }
    &&& ({
        let a = time_or_zero(input, spec_last_before_index(input, t));
        let b = time_or_zero(frontmost, spec_last_before_index(frontmost, t));
        let m = if a >= b {
            a
        } else {
            b
        };
        init.last_input_time == if m == 0 {
            None::<i64>
        } else {
            Some(m as i64)
        }
    })
}

proof fn lemma_last_before_index<T: HasTime>(arr: Seq<T>, t: int, k: int)
    requires
        sorted_by_time(arr),
        0 <= k < arr.len(),
        arr[k].spec_time() < t,
        forall|j: int| k < j < arr.len() ==> arr[j].spec_time() >= t,
    ensures
        spec_last_before_index(arr, t) == Some(k),
{
    let c = choose|i: int|
        0 <= i < arr.len() && arr[i].spec_time() < t && forall|j: int|
            i < j < arr.len() ==> arr[j].spec_time() >= t;
    assert(0 <= c < arr.len() && arr[c].spec_time() < t);
    if c < k {
        assert(arr[k].spec_time() >= t);
    } else if c > k {
        assert(arr[c].spec_time() >= t);
    }
}

fn find_last_before<T: HasTime>(arr: &[T], t: i64) -> (r: Option<&T>)
    requires
        sorted_by_time(arr@),
    ensures
        match spec_last_before_index(arr@, t as int) {
            Some(i) => r == Some(&arr@[i]),
            None => r is None,
        },
{
    let r = last_before(arr, t);
    proof {
        match r {
            Some(e) => {
                let k = choose|k: int|
                    0 <= k < arr@.len() && arr@[k] == *e && e.spec_time() < t && forall|j: int|
                        k < j < arr@.len() ==> arr@[j].spec_time() >= t;
                lemma_last_before_index(arr@, t as int, k);
            },
            None => {
                if exists|i: int| 0 <= i < arr@.len() && arr@[i].spec_time() < t {
                    let i = choose|i: int| 0 <= i < arr@.len() && arr@[i].spec_time() < t;
                    assert(arr@[i].spec_time() >= t);
                }
            },
        }
    }
    r
}

proof fn lemma_last_subnet_before(wifi: Seq<WifiEvent>, t: int)
    ensures
        last_subnet_before(wifi, t) matches Some(i) ==> 0 <= i < wifi.len(),
    decreases wifi.len(),
{
    if wifi.len() > 0 {
        lemma_last_subnet_before(wifi.drop_last(), t);
    }
}

fn subnet_before(wifi: &[WifiEvent], t: i64) -> (r: Option<usize>)
    ensures
        match last_subnet_before(wifi@, t as int) {
            Some(i) => r == Some(i as usize),
            None => r is None,
        },
        r matches Some(k) ==> k < wifi@.len() && last_subnet_before(wifi@, t as int) == Some(
            k as int,
        ),
{
    let mut n: usize = wifi.len();
    proof {
        assert(wifi@.subrange(0, n as int) =~= wifi@);
        lemma_last_subnet_before(wifi@, t as int);
    }
    while n > 0
        invariant
            n <= wifi@.len(),
            last_subnet_before(wifi@.subrange(0, n as int), t as int) == last_subnet_before(
                wifi@,
                t as int,
            ),
        decreases n,
    {
        proof {
            assert(wifi@.subrange(0, n as int).drop_last() =~= wifi@.subrange(0, n - 1));
            assert(wifi@.subrange(0, n as int).last() == wifi@[n - 1]);
        }
        if wifi[n - 1].time_ms < t && wifi[n - 1].subnet.unicode_len() > 0 {
            return Some(n - 1);
        }
        n = n - 1;
    }
    None
}

/// The device state at `window_start`, from the event streams, each sorted
/// by time.
pub fn initial_state_at(
    bl: &[BlEvent],
    screen: &[ScreenEvent],
    wifi: &[WifiEvent],
    input: &[InputEvent],
    frontmost: &[FrontmostEvent],
    groups: &LocationGroups,
    window_start: i64,
) -> (r: InitialState)
    requires
        sorted_by_time(bl@),
        sorted_by_time(screen@),
        sorted_by_time(input@),
        sorted_by_time(frontmost@),
    ensures
        spec_initial_state(bl@, screen@, wifi@, input@, frontmost@, groups.pairs@, window_start, r),
{
    let bl_on = match find_last_before(bl, window_start) {
        Some(e) => e.active,
        None => false,
    };
    let screen_locked = match find_last_before(screen, window_start) {
        Some(e) => e.kind == ScreenEventKind::Lock,
        None => false,
    };
    let ip_canon = match subnet_before(wifi, window_start) {
        Some(i) => Some(canonical_subnet(groups, &wifi[i].subnet)),
        None => None,
    };
    let a: i64 = match find_last_before(input, window_start) {
        Some(e) => e.time_ms,
        None => 0,
    };
    let b: i64 = match find_last_before(frontmost, window_start) {
        Some(e) => e.time_ms,
        None => 0,
    };
    let m: i64 = if a >= b {
        a
    } else {
        b
    };
    let last_input_time = if m == 0 {
        None
    } else {
        Some(m)
    };
    let r = InitialState { bl_on, screen_locked, ip_canon, last_input_time };
    proof {
        let t = window_start as int;
        assert(r.bl_on == match spec_last_before_index(bl@, t) {
            Some(i) => bl@[i].active,
            None => false,
        });
        assert(r.screen_locked == match spec_last_before_index(screen@, t) {
            Some(i) => screen@[i].kind == ScreenEventKind::Lock,
            None => false,
        });
        assert(a == time_or_zero(input@, spec_last_before_index(input@, t)));
        assert(b == time_or_zero(frontmost@, spec_last_before_index(frontmost@, t)));
    }
    r
}

// ---------------------------------------------------------------------------
// The legacy aggregate path
// ---------------------------------------------------------------------------

/// The intervals of a day made of legacy periods: each period is active,
/// and the gap to the next period is a break.
pub open spec fn periods_intervals(ps: Seq<ActivePeriod>) -> Seq<Interval>
    decreases ps.len(),
{
    if ps.len() == 0 {
        Seq::empty()
    } else {
        let p = ps[0];
        let active = Interval {
            first_ms: p.first_ms,
            last_ms: p.last_ms,
            label: IntervalLabel::Active,
            location: None,
        };
        if ps.len() == 1 {
            seq![active]
        } else {
            seq![
                active,
                Interval {
                    first_ms: p.last_ms,
                    last_ms: ps[1].first_ms,
                    label: IntervalLabel::Break,
                    location: None,
                },
            ] + periods_intervals(ps.drop_first())
        }
    }
}

/// The intervals of a day made of legacy periods.
pub fn intervals_of_periods(periods: &[ActivePeriod]) -> (r: Vec<Interval>)
    ensures
        r@ == periods_intervals(periods@),
{
    let mut out: Vec<Interval> = Vec::new();
    let mut i: usize = 0;
    proof {
        assert(periods@.subrange(0, periods@.len() as int) =~= periods@);
    }
    while i < periods.len()
        invariant
            i <= periods@.len(),
            periods_intervals(periods@) =~= out@ + periods_intervals(
                periods@.subrange(i as int, periods@.len() as int),
            ),
        decreases periods@.len() - i,
    {
        let ghost rest = periods@.subrange(i as int, periods@.len() as int);
        proof {
            assert(rest.drop_first() =~= periods@.subrange(i + 1, periods@.len() as int));
            assert(rest[0] == periods@[i as int]);
        }
        let p = periods[i];
        out.push(
            Interval {
                first_ms: p.first_ms,
                last_ms: p.last_ms,
                label: IntervalLabel::Active,
                location: None,
            },
        );
        if i + 1 < periods.len() {
            proof {
                assert(rest[1] == periods@[i + 1]);
            }
            out.push(
                Interval {
                    first_ms: p.last_ms,
                    last_ms: periods[i + 1].first_ms,
                    label: IntervalLabel::Break,
                    location: None,
                },
            );
        } else {
            proof {
                assert(periods@.subrange(i + 1, periods@.len() as int).len() == 0);
            }
        }
        i = i + 1;
    }
    out
}

/// The keyboard events among the input events, as legacy events.
pub open spec fn soft_events(input: Seq<InputEvent>) -> Seq<RawEvent>
    decreases input.len(),
{
    if input.len() == 0 {
        Seq::empty()
    } else {
        let rest = soft_events(input.drop_last());
        if input.last().kind == InputKind::Kbd {
            rest.push(RawEvent { time_ms: input.last().time_ms, kind: RawEventKind::Kbd })
        } else {
            rest
        }
    }
}

/// The keyboard events among the input events, as legacy events.
pub fn soft_events_of(input: &[InputEvent]) -> (r: Vec<RawEvent>)
    ensures
        r@ == soft_events(input@),
{
    let mut out: Vec<RawEvent> = Vec::new();
    let mut i: usize = 0;
    proof {
        assert(input@.subrange(0, 0) =~= Seq::<InputEvent>::empty());
    }
    while i < input.len()
        invariant
            i <= input@.len(),
            out@ == soft_events(input@.subrange(0, i as int)),
        decreases input@.len() - i,
    {
        proof {
            assert(input@.subrange(0, i + 1).drop_last() =~= input@.subrange(0, i as int));
        }
        if input[i].kind == InputKind::Kbd {
            out.push(RawEvent { time_ms: input[i].time_ms, kind: RawEventKind::Kbd });
        }
        i = i + 1;
    }
    proof {
        assert(input@.subrange(0, input@.len() as int) =~= input@);
    }
    out
}

/// The backlight events as legacy events: on opens, off closes.
pub open spec fn bl_raw(e: BlEvent) -> RawEvent {
    RawEvent {
        time_ms: e.time_ms,
        kind: if e.active {
            RawEventKind::HardOpen
        } else {
            RawEventKind::HardClose
        },
    }
}

/// The screen events as legacy events: a lock closes, an unlock opens.
pub open spec fn screen_raw(e: ScreenEvent) -> RawEvent {
    RawEvent {
        time_ms: e.time_ms,
        kind: if e.kind == ScreenEventKind::Lock {
            RawEventKind::HardClose
        } else {
            RawEventKind::HardOpen
        },
    }
}

/// All legacy events of a day: the backlight events, the events derived
/// from the hourly aggregates, the screen events and the keyboard events.
pub fn legacy_events(
    bl: &[BlEvent],
    aggregate: &[RawEvent],
    screen: &[ScreenEvent],
    soft: &[RawEvent],
) -> (r: Vec<RawEvent>)
    ensures
        r@ == bl@.map_values(|e: BlEvent| bl_raw(e)) + aggregate@ + screen@.map_values(
            |e: ScreenEvent| screen_raw(e),
        ) + soft@,
{
    let mut out: Vec<RawEvent> = Vec::new();
    let mut i: usize = 0;
    while i < bl.len()
        invariant
            i <= bl@.len(),
            out@ =~= bl@.subrange(0, i as int).map_values(|e: BlEvent| bl_raw(e)),
        decreases bl@.len() - i,
    {
        let e = bl[i];
        out.push(
            RawEvent {
                time_ms: e.time_ms,
                kind: if e.active {
                    RawEventKind::HardOpen
                } else {
                    RawEventKind::HardClose
                },
            },
        );
        i = i + 1;
    }
    let ghost part1 = out@;
    let mut j: usize = 0;
    while j < aggregate.len()
        invariant
            j <= aggregate@.len(),
            out@ =~= part1 + aggregate@.subrange(0, j as int),
        decreases aggregate@.len() - j,
    {
        out.push(aggregate[j]);
        j = j + 1;
    }
    let ghost part2 = out@;
    let mut k: usize = 0;
    while k < screen.len()
        invariant
            k <= screen@.len(),
            out@ =~= part2 + screen@.subrange(0, k as int).map_values(|e: ScreenEvent| screen_raw(e)),
        decreases screen@.len() - k,
    {
        let e = screen[k];
        out.push(
            RawEvent {
                time_ms: e.time_ms,
                kind: if e.kind == ScreenEventKind::Lock {
                    RawEventKind::HardClose
                } else {
                    RawEventKind::HardOpen
                },
            },
        );
        k = k + 1;
    }
    let ghost part3 = out@;
    let mut m: usize = 0;
    while m < soft.len()
        invariant
            m <= soft@.len(),
            out@ =~= part3 + soft@.subrange(0, m as int),
        decreases soft@.len() - m,
    {
        out.push(soft[m]);
        m = m + 1;
    }
    proof {
        assert(bl@.subrange(0, bl@.len() as int) =~= bl@);
        assert(aggregate@.subrange(0, aggregate@.len() as int) =~= aggregate@);
        assert(screen@.subrange(0, screen@.len() as int) =~= screen@);
        assert(soft@.subrange(0, soft@.len() as int) =~= soft@);
    }
    out
}

// ---------------------------------------------------------------------------
// The cache
// ---------------------------------------------------------------------------

/// How a computed day is written to the cache: `None` when it is not
/// written (a day after `today`, or `today` without intervals), else whether
/// it is provisional (from `today` on, the current day by the 06:00 rule, or
/// a day whose last interval is still open at `now_ms`).
pub open spec fn cache_write(
    date: Seq<char>,
    today: Seq<char>,
    effective_today: Option<Seq<char>>,
    last_end: Option<i64>,
    now_ms: i64,
) -> Option<bool> {
    let is_current = effective_today == Some(date);
    let has_open_period = is_current && match last_end {
        Some(e) => e >= now_ms - 5000,
        None => false,
    };
    let is_provisional = !lex_lt(date, today) || is_current;
    if !lex_lt(today, date) && (last_end is Some || lex_lt(date, today)) {
        Some(is_provisional || has_open_period)
    } else {
        None
    }
}

/// Whether and how a computed day is written to the cache; `last_end` is
/// the end of its last interval, if it has intervals.
pub fn cache_write_decision(
    date: &str,
    today: &str,
    effective_today: Option<&str>,
    last_end: Option<i64>,
    now_ms: i64,
) -> (r: Option<bool>)
    requires
        crate::types::time_ok(now_ms as int),
    ensures
        r == cache_write(
            date@,
            today@,
            match effective_today {
                Some(e) => Some(e@),
                None => None,
            },
            last_end,
            now_ms,
        ),
{
    let is_current = match effective_today {
        Some(e) => str_eq(date, e),
        None => false,
    };
    let has_open_period = is_current && match last_end {
        Some(e) => e >= now_ms - 5000,
        None => false,
    };
    let before_today = str_lt(date, today);
    let is_provisional = !before_today || is_current;
    if !str_lt(today, date) && (last_end.is_some() || before_today) {
        Some(is_provisional || has_open_period)
    } else {
        None
    }
}

// ---------------------------------------------------------------------------
// The days to compute
// ---------------------------------------------------------------------------

/// How the cached version of a day is used: `(reused, fallback)`. A final
/// version that may be reused is reused; otherwise the day is computed, and
/// a provisional version is the fallback for a day that comes out without
/// active time.
pub fn cached_use(cached: Option<CachedIntervals>, reusable: bool) -> (r: (
    Option<Vec<Interval>>,
    Option<Vec<Interval>>,
))
    ensures
        match cached {
            None => r.0 is None && r.1 is None,
            Some(c) => if !c.provisional && reusable {
                r.0 == Some(c.intervals) && r.1 is None
            } else if c.provisional {
                r.0 is None && r.1 == Some(c.intervals)
            } else {
                r.0 is None && r.1 is None
            },
        },
{
    match cached {
        None => (None, None),
        Some(c) => {
            if !c.provisional && reusable {
                (Some(c.intervals), None)
            } else if c.provisional {
                (None, Some(c.intervals))
            } else {
                (None, None)
            }
        },
    }
}

/// Some interval is active.
pub open spec fn has_active(ivs: Seq<Interval>) -> bool {
    exists|i: int| 0 <= i < ivs.len() && #[trigger] ivs[i].label == IntervalLabel::Active
}

fn any_active(ivs: &[Interval]) -> (r: bool)
    ensures
        r == has_active(ivs@),
{
    let mut i: usize = 0;
    while i < ivs.len()
        invariant
            i <= ivs@.len(),
            forall|j: int| 0 <= j < i ==> #[trigger] ivs@[j].label != IntervalLabel::Active,
        decreases ivs@.len() - i,
    {
        if ivs[i].label == IntervalLabel::Active {
            return true;
        }
        i = i + 1;
    }
    false
}

/// A day is rebuilt from the legacy streams (backlight, hourly screen-on
/// aggregates, screen lock and keyboard events) when its timeline has no
/// active interval and no backlight event of the powerlog falls on it.
pub fn needs_legacy(intervals: &[Interval], in_powerlog: bool) -> (r: bool)
    ensures
        r == (!has_active(intervals@) && !in_powerlog),
{
    !any_active(intervals) && !in_powerlog
}

/// The intervals of a day rebuilt from the legacy periods attributed to it,
/// when there are any.
pub fn legacy_intervals(periods: &[ActivePeriod]) -> (r: Option<Vec<Interval>>)
    ensures
        periods@.len() == 0 ==> r is None,
        periods@.len() > 0 ==> (r matches Some(v) && v@ == periods_intervals(periods@)),
{
    if periods.len() == 0 {
        None
    } else {
        Some(intervals_of_periods(periods))
    }
}

/// The intervals kept for a day: when they have no active interval and a
/// provisional version was cached, that version.
pub fn with_fallback(intervals: Vec<Interval>, fallback: Option<Vec<Interval>>) -> (r: Vec<Interval>)
    ensures
        r@ == (if !has_active(intervals@) && fallback is Some {
            fallback->0@
        } else {
            intervals@
        }),
{
    if !any_active(&intervals) {
        match fallback {
            Some(f) => f,
            None => intervals,
        }
    } else {
        intervals
    }
}

/// The first and the last of the dates in lexicographic order, or `None`
/// when there are none.
pub fn date_span(dates: &[String]) -> (r: Option<(String, String)>)
    ensures
        dates@.len() == 0 <==> r is None,
        r matches Some((lo, hi)) ==> {
            &&& exists|i: int| 0 <= i < dates@.len() && #[trigger] dates@[i]@ == lo@
            &&& exists|i: int| 0 <= i < dates@.len() && #[trigger] dates@[i]@ == hi@
            &&& forall|i: int| 0 <= i < dates@.len() ==> !lex_lt(#[trigger] dates@[i]@, lo@)
            &&& forall|i: int| 0 <= i < dates@.len() ==> !lex_lt(hi@, #[trigger] dates@[i]@)
        },
{
    if dates.len() == 0 {
        return None;
    }
    let mut lo: usize = 0;
    let mut hi: usize = 0;
    let mut i: usize = 1;
    proof {
        crate::text::lemma_lex_lt_irreflexive(dates@[0]@);
    }
    while i < dates.len()
        invariant
            1 <= i <= dates@.len(),
            lo < i,
            hi < i,
            forall|j: int| 0 <= j < i ==> !lex_lt(#[trigger] dates@[j]@, dates@[lo as int]@),
            forall|j: int| 0 <= j < i ==> !lex_lt(dates@[hi as int]@, #[trigger] dates@[j]@),
        decreases dates@.len() - i,
    {
        if str_lt(dates[i].as_str(), dates[lo as usize].as_str()) {
            proof {
                assert forall|j: int| 0 <= j < i + 1 implies !lex_lt(#[trigger] dates@[j]@, dates@[i as int]@) by {
                    crate::text::lemma_lex_lt_total(dates@[j]@, dates@[lo as int]@);
                    crate::text::lemma_lex_lt_irreflexive(dates@[i as int]@);
                    if j < i && lex_lt(dates@[j]@, dates@[i as int]@) {
                        crate::text::lemma_lex_lt_transitive(dates@[j]@, dates@[i as int]@, dates@[lo as int]@);
                    }
                }
            }
            lo = i;
        }
        if str_lt(dates[hi as usize].as_str(), dates[i].as_str()) {
            proof {
                assert forall|j: int| 0 <= j < i + 1 implies !lex_lt(dates@[i as int]@, #[trigger] dates@[j]@) by {
                    crate::text::lemma_lex_lt_irreflexive(dates@[i as int]@);
                    if j < i && lex_lt(dates@[i as int]@, dates@[j]@) {
                        crate::text::lemma_lex_lt_transitive(dates@[hi as int]@, dates@[i as int]@, dates@[j]@);
                    }
                }
            }
            hi = i;
        }
        proof {
            crate::text::lemma_lex_lt_total(dates@[i as int]@, dates@[lo as int]@);
            crate::text::lemma_lex_lt_total(dates@[hi as int]@, dates@[i as int]@);
        }
        i = i + 1;
    }
    let first = dates[lo].clone();
    let last = dates[hi].clone();
    proof {
        assert(dates@[lo as int]@ == first@);
        assert(dates@[hi as int]@ == last@);
    }
    Some((first, last))
}

/// The computed activity periods for a set of dates.
#[derive(Debug, Clone)]
pub struct PeriodsResult {
    /// The labelled intervals of each date (`YYYY-MM-DD`).
    pub intervals_by_date: Vec<(String, Vec<Interval>)>,
    /// The cluster representative of the most-seen location, if any.
    pub dominant_id: Option<String>,
    /// The other location cluster representatives, sorted.
    pub other_ids: Vec<String>,
}

/// Errors while computing activity periods.
#[derive(Debug, Clone)]
pub enum PeriodError {
    /// A data source could not be read; the message of its error.
    Source(String),
}

impl PeriodError {
    /// The message shown to the user.
    pub fn message(&self) -> (r: String)
        ensures
            r@ == match *self {
                PeriodError::Source(m) => m@,
            },
    {
        match self {
            PeriodError::Source(m) => m.clone(),
        }
    }
}

} // verus!

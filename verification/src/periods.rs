//! Active periods from raw hardware and keyboard events, for days that only
//! have hourly aggregate data.
use vstd::prelude::*;

use crate::sort::{lemma_stable_order_sorted, stable_order, stable_order_of};
use crate::types::{
    time_ok, ActivePeriod, RawEvent, RawEventKind, MERGE_GAP_MS, MIN_PERIOD_MS, SOFT_CLOSE_MS,
};

verus! {

/// `events` stably ordered by time.
pub open spec fn sorted_raw_events(events: Seq<RawEvent>) -> Seq<RawEvent> {
    stable_order(events.map_values(|e: RawEvent| e.time_ms)).map_values(
        |i: usize| events[i as int],
    )
}

/// State of the session scan between two events.
pub struct SessionScan {
    pub raw: Seq<ActivePeriod>,
    pub session_start: Option<i64>,
    pub session_hard: bool,
    pub last_hard_close: Option<i64>,
    pub last_kbd: Option<i64>,
}

pub open spec fn scan_start() -> SessionScan {
    SessionScan {
        raw: Seq::empty(),
        session_start: None,
        session_hard: false,
        last_hard_close: None,
        last_kbd: None,
    }
}

/// The scan's reaction to one event.
pub open spec fn scan_step(st: SessionScan, ev: RawEvent) -> SessionScan {
    let t = ev.time_ms;
    match ev.kind {
        RawEventKind::HardOpen => SessionScan {
            session_start: if st.session_start is None {
                Some(t)
            } else {
                st.session_start
            },
            session_hard: true,
            ..st
        },
        RawEventKind::HardClose => if st.session_start is Some {
            SessionScan {
                raw: st.raw.push(ActivePeriod { first_ms: st.session_start.unwrap(), last_ms: t }),
                session_start: None,
                session_hard: false,
                last_hard_close: Some(t),
                ..st
            }
        } else {
            SessionScan { last_hard_close: Some(t), ..st }
        },
        RawEventKind::Kbd => if st.session_start is None {
            // No previous hard close or keyboard event counts as an infinite gap.
            let opens = (st.last_hard_close is None || t - st.last_hard_close.unwrap() > 0) && (
            st.last_kbd is None || t - st.last_kbd.unwrap() >= SOFT_CLOSE_MS);
            if opens {
                SessionScan {
                    session_start: Some(t),
                    session_hard: false,
                    last_kbd: Some(t),
                    ..st
                }
            } else {
                SessionScan { last_kbd: Some(t), ..st }
            }
        } else if st.last_kbd is Some && t - st.last_kbd.unwrap() >= SOFT_CLOSE_MS {
            SessionScan {
                raw: st.raw.push(
                    ActivePeriod { first_ms: st.session_start.unwrap(), last_ms: st.last_kbd.unwrap() },
                ),
                session_start: Some(t),
                session_hard: false,
                last_kbd: Some(t),
                ..st
            }
        } else {
            SessionScan { last_kbd: Some(t), ..st }
        },
    }
}

pub open spec fn scan_events(events: Seq<RawEvent>) -> SessionScan
    decreases events.len(),
{
    if events.len() == 0 {
        scan_start()
    } else {
        scan_step(scan_events(events.drop_last()), events.last())
    }
}

/// The raw sessions, with a session still open at the end closed at `now_ms`
/// (or at the last keyboard event for a keyboard-opened session).
pub open spec fn raw_sessions(events: Seq<RawEvent>, now_ms: i64) -> Seq<ActivePeriod> {
    let st = scan_events(events);
    if st.session_start is Some {
        let start = st.session_start.unwrap();
        let end = if st.session_hard {
            now_ms
        } else if st.last_kbd is Some && st.last_kbd.unwrap() > start {
            st.last_kbd.unwrap()
        } else {
            now_ms
        };
        st.raw.push(ActivePeriod { first_ms: start, last_ms: end })
    } else {
        st.raw
    }
}

/// Drops periods shorter than `MIN_PERIOD_MS` and merges a period into the
/// previous one when the gap between them is at most `MERGE_GAP_MS`.
pub open spec fn merge_periods(ps: Seq<ActivePeriod>) -> Seq<ActivePeriod>
    decreases ps.len(),
{
    if ps.len() == 0 {
        Seq::empty()
    } else {
        let m = merge_periods(ps.drop_last());
        let p = ps.last();
        if p.last_ms - p.first_ms < MIN_PERIOD_MS {
            m
        } else if m.len() > 0 && p.first_ms - m.last().last_ms <= MERGE_GAP_MS {
            if p.last_ms > m.last().last_ms {
                m.update(
                    m.len() - 1,
                    ActivePeriod { first_ms: m.last().first_ms, last_ms: p.last_ms },
                )
            } else {
                m
            }
        } else {
            m.push(p)
        }
    }
}

/// The periods `build_periods` returns for `events` (in any order) at `now_ms`.
pub open spec fn spec_build_periods(events: Seq<RawEvent>, now_ms: i64) -> Seq<ActivePeriod> {
    merge_periods(raw_sessions(sorted_raw_events(events), now_ms))
}

pub open spec fn raw_events_ok(events: Seq<RawEvent>) -> bool {
    forall|i: int| 0 <= i < events.len() ==> time_ok(#[trigger] events[i].time_ms as int)
}

pub open spec fn periods_ok(ps: Seq<ActivePeriod>) -> bool {
    forall|i: int|
        0 <= i < ps.len() ==> time_ok(#[trigger] ps[i].first_ms as int) && time_ok(
            ps[i].last_ms as int,
        )
}

proof fn lemma_push_period_ok(ps: Seq<ActivePeriod>, p: ActivePeriod)
    requires
        periods_ok(ps),
        time_ok(p.first_ms as int),
        time_ok(p.last_ms as int),
    ensures
        periods_ok(ps.push(p)),
{
    assert forall|i: int| 0 <= i < ps.push(p).len() implies time_ok(
        #[trigger] ps.push(p)[i].first_ms as int,
    ) && time_ok(ps.push(p)[i].last_ms as int) by {
        if i < ps.len() {
            assert(ps.push(p)[i] == ps[i]);
        }
    }
}

proof fn lemma_sorted_events_ok(events: Seq<RawEvent>, order: Seq<usize>)
    requires
        raw_events_ok(events),
        order == stable_order(events.map_values(|e: RawEvent| e.time_ms)),
        forall|k: int| 0 <= k < order.len() ==> #[trigger] order[k] < events.len(),
    ensures
        raw_events_ok(sorted_raw_events(events)),
{
    assert forall|i: int| 0 <= i < sorted_raw_events(events).len() implies time_ok(
        #[trigger] sorted_raw_events(events)[i].time_ms as int,
    ) by {
        assert(order[i] < events.len());
    }
}

/// Sorts `events` stably by time.
pub fn sort_raw_events(events: &mut Vec<RawEvent>)
    ensures
        final(events)@ == sorted_raw_events(old(events)@),
        final(events)@.len() == old(events)@.len(),
        raw_events_ok(old(events)@) ==> raw_events_ok(final(events)@),
{
    let ghost orig = events@;
    let mut times: Vec<i64> = Vec::new();
    let mut i: usize = 0;
    while i < events.len()
        invariant
            i <= events@.len(),
            times@ =~= events@.subrange(0, i as int).map_values(|e: RawEvent| e.time_ms),
        decreases events@.len() - i,
    {
        times.push(events[i].time_ms);
        i = i + 1;
    }
    proof {
        assert(events@.subrange(0, events@.len() as int) =~= events@);
    }
    let order = stable_order_of(&times);
    let mut sorted: Vec<RawEvent> = Vec::new();
    let mut k: usize = 0;
    while k < order.len()
        invariant
            k <= order@.len(),
            events@ == orig,
            times@.len() == events@.len(),
            order@ == stable_order(orig.map_values(|e: RawEvent| e.time_ms)),
            forall|j: int| 0 <= j < order@.len() ==> order@[j] < times@.len(),
            sorted@ =~= order@.subrange(0, k as int).map_values(|j: usize| orig[j as int]),
        decreases order@.len() - k,
    {
        sorted.push(events[order[k]]);
        k = k + 1;
    }
    proof {
        assert(order@.subrange(0, order@.len() as int) =~= order@);
        assert(sorted@ =~= sorted_raw_events(orig));
        if raw_events_ok(orig) {
            lemma_sorted_events_ok(orig, order@);
        }
    }
    proof {
        crate::sort::lemma_stable_order_len(orig.map_values(|e: RawEvent| e.time_ms));
    }
    *events = sorted;
}

/// Builds active periods from raw events: hard opens and closes delimit
/// sessions, keyboard activity opens a soft session after a quiet time, and
/// a soft session closes after `SOFT_CLOSE_MS` without keyboard activity.
/// Sorts `events` in place by time.
pub fn build_periods(events: &mut Vec<RawEvent>, now_ms: i64) -> (r: Vec<ActivePeriod>)
    requires
        raw_events_ok(old(events)@),
        time_ok(now_ms as int),
    ensures
        final(events)@ == sorted_raw_events(old(events)@),
        r@ == spec_build_periods(old(events)@, now_ms),
{
    sort_raw_events(events);
    let mut raw: Vec<ActivePeriod> = Vec::new();
    let mut session_start: Option<i64> = None;
    let mut session_hard = false;
    let mut last_hard_close: Option<i64> = None;
    let mut last_kbd: Option<i64> = None;
    let mut k: usize = 0;
    proof {
        assert(events@.subrange(0, 0) =~= Seq::<RawEvent>::empty());
        assert(raw@ =~= Seq::<ActivePeriod>::empty());
    }
    while k < events.len()
        invariant
            k <= events@.len(),
            raw_events_ok(events@),
            session_start matches Some(s) ==> time_ok(s as int),
            last_hard_close matches Some(s) ==> time_ok(s as int),
            last_kbd matches Some(s) ==> time_ok(s as int),
            periods_ok(raw@),
            scan_events(events@.subrange(0, k as int)) =~= (SessionScan {
                raw: raw@,
                session_start,
                session_hard,
                last_hard_close,
                last_kbd,
            }),
        decreases events@.len() - k,
    {
        proof {
            assert(events@.subrange(0, k + 1).drop_last() =~= events@.subrange(0, k as int));
        }
        let ev = events[k];
        let t = ev.time_ms;
        assert(time_ok(t as int));
        match ev.kind {
            RawEventKind::HardOpen => {
                if session_start.is_none() {
                    session_start = Some(t);
                }
                session_hard = true;
            },
            RawEventKind::HardClose => {
                if let Some(start) = session_start {
                    proof {
                        lemma_push_period_ok(raw@, ActivePeriod { first_ms: start, last_ms: t });
                    }
                    raw.push(ActivePeriod { first_ms: start, last_ms: t });
                    session_start = None;
                    session_hard = false;
                }
                last_hard_close = Some(t);
            },
            RawEventKind::Kbd => {
                if session_start.is_none() {
                    let gap_ok = match last_hard_close {
                        Some(hc) => t - hc > 0,
                        None => true,
                    };
                    let quiet = match last_kbd {
                        Some(lk) => t - lk >= SOFT_CLOSE_MS,
                        None => true,
                    };
                    if gap_ok && quiet {
                        session_start = Some(t);
                        session_hard = false;
                    }
                } else if let Some(lk) = last_kbd {
                    if t - lk >= SOFT_CLOSE_MS {
                        let start = session_start.unwrap();
                        proof {
                            lemma_push_period_ok(raw@, ActivePeriod { first_ms: start, last_ms: lk });
                        }
                        raw.push(ActivePeriod { first_ms: start, last_ms: lk });
                        session_start = Some(t);
                        session_hard = false;
                    }
                }
                last_kbd = Some(t);
            },
        }
        k = k + 1;
    }
    proof {
        assert(events@.subrange(0, events@.len() as int) =~= events@);
    }
    if let Some(start) = session_start {
        let end = if session_hard {
            now_ms
        } else {
            match last_kbd {
                Some(lk) => if lk > start {
                    lk
                } else {
                    now_ms
                },
                None => now_ms,
            }
        };
        proof {
            lemma_push_period_ok(raw@, ActivePeriod { first_ms: start, last_ms: end });
        }
        raw.push(ActivePeriod { first_ms: start, last_ms: end });
    }
    let mut merged: Vec<ActivePeriod> = Vec::new();
    let mut i: usize = 0;
    proof {
        assert(raw@.subrange(0, 0) =~= Seq::<ActivePeriod>::empty());
    }
    while i < raw.len()
        invariant
            i <= raw@.len(),
            periods_ok(raw@),
            periods_ok(merged@),
            merged@ == merge_periods(raw@.subrange(0, i as int)),
        decreases raw@.len() - i,
    {
        proof {
            assert(raw@.subrange(0, i + 1).drop_last() =~= raw@.subrange(0, i as int));
        }
        let p = raw[i];
        assert(time_ok(raw@[i as int].first_ms as int) && time_ok(raw@[i as int].last_ms as int));
        if p.last_ms - p.first_ms >= MIN_PERIOD_MS {
            let m = merged.len();
            if m > 0 && p.first_ms - merged[m - 1].last_ms <= MERGE_GAP_MS {
                if p.last_ms > merged[m - 1].last_ms {
                    let first = merged[m - 1].first_ms;
                    assert(time_ok(merged@[m - 1].first_ms as int));
                    let ghost old_m = merged@;
                    merged.set(m - 1, ActivePeriod { first_ms: first, last_ms: p.last_ms });
                    assert forall|j: int| 0 <= j < merged@.len() implies time_ok(
                        #[trigger] merged@[j].first_ms as int,
                    ) && time_ok(merged@[j].last_ms as int) by {
                        if j < m - 1 {
                            assert(merged@[j] == old_m[j]);
                            assert(time_ok(old_m[j].first_ms as int));
                        }
                    }
                }
            } else {
                proof {
                    lemma_push_period_ok(merged@, p);
                }
                merged.push(p);
            }
        }
        i = i + 1;
    }
    proof {
        assert(raw@.subrange(0, raw@.len() as int) =~= raw@);
    }
    merged
}


/// Time of the first event of `soft` inside `[window_start, end)`.
pub open spec fn first_soft_in(soft: Seq<RawEvent>, window_start: i64, end: i64) -> Option<i64>
    decreases soft.len(),
{
    if soft.len() == 0 {
        None
    } else if window_start <= soft[0].time_ms && soft[0].time_ms < end {
        Some(soft[0].time_ms)
    } else {
        first_soft_in(soft.drop_first(), window_start, end)
    }
}

/// The part of period `p` attributed to the window, if any: its end is
/// clipped to `window_end`, and a period that began before the window starts
/// at the first soft event inside the window (and is dropped if there is none).
pub open spec fn attribute_one(
    p: ActivePeriod,
    window_start: i64,
    window_end: i64,
    soft: Seq<RawEvent>,
) -> Option<ActivePeriod> {
    let e = if p.last_ms <= window_end {
        p.last_ms
    } else {
        window_end
    };
    if e <= window_start {
        None
    } else {
        let s = if p.first_ms >= window_start {
            Some(p.first_ms)
        } else {
            first_soft_in(soft, window_start, e)
        };
        match s {
            Some(s) => if e > s {
                Some(ActivePeriod { first_ms: s, last_ms: e })
            } else {
                None
            },
            None => None,
        }
    }
}

pub open spec fn spec_attribute_periods(
    periods: Seq<ActivePeriod>,
    window_start: i64,
    window_end: i64,
    soft: Seq<RawEvent>,
) -> Seq<ActivePeriod>
    decreases periods.len(),
{
    if periods.len() == 0 {
        Seq::empty()
    } else {
        let m = spec_attribute_periods(periods.drop_last(), window_start, window_end, soft);
        match attribute_one(periods.last(), window_start, window_end, soft) {
            Some(q) => m.push(q),
            None => m,
        }
    }
}

fn first_soft_time(soft: &[RawEvent], window_start: i64, end: i64) -> (r: Option<i64>)
    ensures
        r == first_soft_in(soft@, window_start, end),
{
    let mut i: usize = 0;
    proof {
        assert(soft@.subrange(0, soft@.len() as int) =~= soft@);
    }
    while i < soft.len()
        invariant
            i <= soft@.len(),
            first_soft_in(soft@.subrange(i as int, soft@.len() as int), window_start, end)
                == first_soft_in(soft@, window_start, end),
        decreases soft@.len() - i,
    {
        proof {
            assert(soft@.subrange(i as int, soft@.len() as int).drop_first() =~= soft@.subrange(
                i + 1,
                soft@.len() as int,
            ));
        }
        let t = soft[i].time_ms;
        if window_start <= t && t < end {
            return Some(t);
        }
        i = i + 1;
    }
    None
}

/// Clips active periods to the window `[window_start, window_end]`.
pub fn attribute_periods_to_window(
    periods: &[ActivePeriod],
    window_start: i64,
    window_end: i64,
    soft_events: &[RawEvent],
) -> (r: Vec<ActivePeriod>)
    ensures
        r@ == spec_attribute_periods(periods@, window_start, window_end, soft_events@),
{
    let mut result: Vec<ActivePeriod> = Vec::new();
    let mut i: usize = 0;
    proof {
        assert(periods@.subrange(0, 0) =~= Seq::<ActivePeriod>::empty());
    }
    while i < periods.len()
        invariant
            i <= periods@.len(),
            result@ == spec_attribute_periods(
                periods@.subrange(0, i as int),
                window_start,
                window_end,
                soft_events@,
            ),
        decreases periods@.len() - i,
    {
        proof {
            assert(periods@.subrange(0, i + 1).drop_last() =~= periods@.subrange(0, i as int));
        }
        let p = periods[i];
        let e = if p.last_ms <= window_end {
            p.last_ms
        } else {
            window_end
        };
        if e > window_start {
            let s = if p.first_ms >= window_start {
                Some(p.first_ms)
            } else {
                first_soft_time(soft_events, window_start, e)
            };
            if let Some(s) = s {
                if e > s {
                    result.push(ActivePeriod { first_ms: s, last_ms: e });
                }
            }
        }
        i = i + 1;
    }
    proof {
        assert(periods@.subrange(0, periods@.len() as int) =~= periods@);
    }
    result
}

/// The day after `(y, m, d)` is a date `chrono` represents.
pub open spec fn next_date_valid(y: int, m: int, d: int) -> bool {
    let n = crate::calendar::next_date(y, m, d);
    crate::calendar::valid_ymd(n.0, n.1, n.2)
}

/// `ws` and `we` bound the 06:00–06:00 window of `date`: each lies less than a
/// day from the 06:00 wall-clock reading of its day, `date` as `chrono` reads
/// it and the `YYYY-MM-DD` text of the day after.
pub open spec fn six_am_window(date: Seq<char>, ws: int, we: int) -> bool {
    match crate::calendar::chrono_parsed_date(date) {
        Some((y, m, d)) => {
            let n = crate::calendar::next_date(y, m, d);
            &&& crate::calendar::within_a_day(ws, crate::calendar::wall_ms(y, m, d, 6, 0, 0))
            &&& crate::calendar::chrono_parsed_date(crate::calendar::ymd_text(n.0, n.1, n.2)) matches Some((
                y2,
                m2,
                d2,
            )) && crate::calendar::within_a_day(we, crate::calendar::wall_ms(y2, m2, d2, 6, 0, 0))
        },
        None => false,
    }
}

/// Clips active periods to the 06:00–06:00 window of `date` (local time),
/// or `None` when the window's bounds cannot be placed.
pub fn attribute_periods_to_date(
    periods: &[ActivePeriod],
    date: &str,
    soft_events: &[RawEvent],
) -> (r: Option<Vec<ActivePeriod>>)
    ensures
        crate::calendar::chrono_parsed_date(date@) is None ==> r is None,
        crate::calendar::chrono_parsed_date(date@) matches Some((y, m, d)) && !next_date_valid(y, m, d)
            ==> r is None,
        r matches Some(v) ==> exists|ws: i64, we: i64|
            v@ == #[trigger] spec_attribute_periods(periods@, ws, we, soft_events@)
                && six_am_window(date@, ws as int, we as int),
{
    let window_start = match crate::calendar::six_am_of(date) {
        Some(t) => t,
        None => return None,
    };
    let next = match crate::calendar::next_day(date) {
        Some(d) => d,
        None => return None,
    };
    let window_end = match crate::calendar::six_am_of(next.as_str()) {
        Some(t) => t,
        None => return None,
    };
    let v = attribute_periods_to_window(periods, window_start, window_end, soft_events);
    proof {
        assert(v@ == spec_attribute_periods(periods@, window_start, window_end, soft_events@));
        assert(six_am_window(date@, window_start as int, window_end as int));
    }
    Some(v)
}


// ---------------------------------------------------------------------------
// Idle keyboard gaps
// ---------------------------------------------------------------------------

/// The events' times never decrease.
pub open spec fn times_ordered(es: Seq<RawEvent>) -> bool {
    forall|x: int, y: int| 0 <= x <= y < es.len() ==> es[x].time_ms <= es[y].time_ms
}

/// `p` does not reach over the gap between `a` and `b`: it ends by `a` or
/// starts from `b`.
pub open spec fn clear_of_gap(p: ActivePeriod, a: i64, b: i64) -> bool {
    p.last_ms <= a || p.first_ms >= b
}

/// What holds of the scan after the first `n` events, when events `i` and
/// `i + 1` are keyboard events at `a` and `b`.
spec fn gap_scan_inv(st: SessionScan, n: int, i: int, a: i64, b: i64) -> bool {
    if n <= i + 1 {
        &&& forall|k: int| 0 <= k < st.raw.len() ==> (#[trigger] st.raw[k]).last_ms <= a
        &&& st.session_start matches Some(x) ==> x <= a
        &&& st.last_kbd matches Some(x) ==> x <= a
        &&& n == i + 1 ==> st.last_kbd == Some(a)
    } else {
        &&& forall|k: int| 0 <= k < st.raw.len() ==> clear_of_gap(#[trigger] st.raw[k], a, b)
        &&& st.session_start matches Some(x) ==> x >= b
    }
}

proof fn lemma_gap_scan(es: Seq<RawEvent>, i: int, n: int)
    requires
        times_ordered(es),
        0 <= i,
        i + 1 < es.len(),
        es[i].kind == RawEventKind::Kbd,
        es[i + 1].kind == RawEventKind::Kbd,
        es[i + 1].time_ms - es[i].time_ms >= SOFT_CLOSE_MS,
        0 <= n <= es.len(),
    ensures
        gap_scan_inv(scan_events(es.subrange(0, n)), n, i, es[i].time_ms, es[i + 1].time_ms),
    decreases n,
{
    let a = es[i].time_ms;
    let b = es[i + 1].time_ms;
    if n > 0 {
        lemma_gap_scan(es, i, n - 1);
        assert(es.subrange(0, n).drop_last() =~= es.subrange(0, n - 1));
        assert(es.subrange(0, n).last() == es[n - 1]);
        let st = scan_events(es.subrange(0, n - 1));
        let e = es[n - 1];
        let r = scan_step(st, e);
        assert(scan_events(es.subrange(0, n)) == r);
        if n <= i + 1 {
            assert(e.time_ms <= a);
            assert forall|k: int| 0 <= k < r.raw.len() implies (#[trigger] r.raw[k]).last_ms <= a by {
                if k < st.raw.len() {
                    assert(r.raw[k] == st.raw[k] || r.raw.len() == st.raw.len());
                }
            }
        } else if n == i + 2 {
            assert forall|k: int| 0 <= k < r.raw.len() implies clear_of_gap(#[trigger] r.raw[k], a, b) by {
                if k < st.raw.len() {
                    assert(st.raw[k].last_ms <= a);
                }
            }
        } else {
            assert(e.time_ms >= b);
            assert forall|k: int| 0 <= k < r.raw.len() implies clear_of_gap(#[trigger] r.raw[k], a, b) by {
                if k < st.raw.len() {
                    assert(clear_of_gap(st.raw[k], a, b));
                }
            }
        }
    } else {
        assert(es.subrange(0, 0) =~= Seq::<RawEvent>::empty());
    }
}

/// Over events in time order, two consecutive keyboard events at least
/// `SOFT_CLOSE_MS` apart (so no hard open or close lies between them) close
/// any session at the first of them: no raw session reaches over the idle
/// gap between them.
pub proof fn law_idle_gap_splits_raw_sessions(es: Seq<RawEvent>, now_ms: i64, i: int)
    requires
        times_ordered(es),
        0 <= i,
        i + 1 < es.len(),
        es[i].kind == RawEventKind::Kbd,
        es[i + 1].kind == RawEventKind::Kbd,
        es[i + 1].time_ms - es[i].time_ms >= SOFT_CLOSE_MS,
    ensures
        forall|k: int|
            0 <= k < raw_sessions(es, now_ms).len() ==> clear_of_gap(
                #[trigger] raw_sessions(es, now_ms)[k],
                es[i].time_ms,
                es[i + 1].time_ms,
            ),
{
    lemma_gap_scan(es, i, es.len() as int);
    assert(es.subrange(0, es.len() as int) =~= es);
    let st = scan_events(es);
    let r = raw_sessions(es, now_ms);
    assert forall|k: int| 0 <= k < r.len() implies clear_of_gap(
        #[trigger] r[k],
        es[i].time_ms,
        es[i + 1].time_ms,
    ) by {
        if k < st.raw.len() {
            assert(r[k] == st.raw[k]);
        }
    }
}

proof fn lemma_merge_keeps_gap(ps: Seq<ActivePeriod>, a: i64, b: i64)
    requires
        b - a > MERGE_GAP_MS,
        forall|k: int| 0 <= k < ps.len() ==> clear_of_gap(#[trigger] ps[k], a, b),
    ensures
        forall|k: int|
            0 <= k < merge_periods(ps).len() ==> clear_of_gap(#[trigger] merge_periods(ps)[k], a, b),
    decreases ps.len(),
{
    if ps.len() > 0 {
        let d = ps.drop_last();
        assert forall|k: int| 0 <= k < d.len() implies clear_of_gap(#[trigger] d[k], a, b) by {
            assert(d[k] == ps[k]);
        }
        lemma_merge_keeps_gap(d, a, b);
        let m = merge_periods(d);
        let p = ps.last();
        assert(clear_of_gap(ps[ps.len() - 1], a, b));
        let r = merge_periods(ps);
        if m.len() > 0 {
            assert(clear_of_gap(m[m.len() - 1], a, b));
        }
        assert forall|k: int| 0 <= k < r.len() implies clear_of_gap(#[trigger] r[k], a, b) by {
            if k < m.len() {
                assert(clear_of_gap(m[k], a, b));
            }
        }
    }
}

/// The periods `build_periods` returns never reach over an idle keyboard
/// gap: when, in time order, two consecutive events (so no hard open or
/// close between them) are keyboard events at least `SOFT_CLOSE_MS` apart,
/// every period ends by the first of them or starts from the second. The
/// session open before the gap is closed at the last keyboard event before
/// it, not at the one after.
pub proof fn law_idle_gap_splits_periods(events: Seq<RawEvent>, now_ms: i64, i: int)
    requires
        events.len() <= usize::MAX,
        0 <= i,
        i + 1 < sorted_raw_events(events).len(),
        sorted_raw_events(events)[i].kind == RawEventKind::Kbd,
        sorted_raw_events(events)[i + 1].kind == RawEventKind::Kbd,
        sorted_raw_events(events)[i + 1].time_ms - sorted_raw_events(events)[i].time_ms
            >= SOFT_CLOSE_MS,
    ensures
        forall|k: int|
            0 <= k < spec_build_periods(events, now_ms).len() ==> clear_of_gap(
                #[trigger] spec_build_periods(events, now_ms)[k],
                sorted_raw_events(events)[i].time_ms,
                sorted_raw_events(events)[i + 1].time_ms,
            ),
{
    let es = sorted_raw_events(events);
    let times = events.map_values(|e: RawEvent| e.time_ms);
    lemma_stable_order_sorted(times);
    let order = stable_order(times);
    assert(times_ordered(es)) by {
        assert forall|x: int, y: int| 0 <= x <= y < es.len() implies es[x].time_ms
            <= es[y].time_ms by {
            assert(es[x] == events[order[x] as int]);
            assert(es[y] == events[order[y] as int]);
            assert(times[order[x] as int] <= times[order[y] as int]);
        }
    }
    law_idle_gap_splits_raw_sessions(es, now_ms, i);
    lemma_merge_keeps_gap(raw_sessions(es, now_ms), es[i].time_ms, es[i + 1].time_ms);
}
} // verus!

//! Hard open and close events inferred from hourly screen-on aggregates.
use vstd::prelude::*;

use crate::search::sorted_by_time;
use crate::types::{time_ok, AggScreenOnBucket, HasTime, RawEvent, RawEventKind};

verus! {

pub const HOUR_MS: i64 = 3_600_000;

/// Largest magnitude of a screen-on count the library accepts.
pub const SCREEN_ON_LIMIT: i64 = 1_000_000_000_000_000;

/// Position of the first event at or after `t` (the number of events before
/// `t` when `kbd` is ordered by time).
pub open spec fn first_at_or_after(kbd: Seq<RawEvent>, t: i64) -> int
    decreases kbd.len(),
{
    if kbd.len() == 0 {
        0
    } else if kbd.last().time_ms < t {
        kbd.len() as int
    } else {
        first_at_or_after(kbd.drop_last(), t)
    }
}

/// Scanning forward from `j` while events are before `end`, the time of the
/// first keyboard event.
pub open spec fn first_kbd_before(kbd: Seq<RawEvent>, j: int, end: i64) -> Option<i64>
    decreases kbd.len() - j,
{
    if j < 0 || j >= kbd.len() || kbd[j].time_ms >= end {
        None
    } else if kbd[j].kind == RawEventKind::Kbd {
        Some(kbd[j].time_ms)
    } else {
        first_kbd_before(kbd, j + 1, end)
    }
}

/// The time of the last keyboard event of `kbd[..n]` inside `[start, end)`.
pub open spec fn last_kbd_in(kbd: Seq<RawEvent>, n: int, start: i64, end: i64) -> Option<i64>
    decreases n,
{
    if n <= 0 || n > kbd.len() {
        None
    } else if kbd[n - 1].kind == RawEventKind::Kbd && start <= kbd[n - 1].time_ms
        && kbd[n - 1].time_ms < end {
        Some(kbd[n - 1].time_ms)
    } else {
        last_kbd_in(kbd, n - 1, start, end)
    }
}

/// The events and the in-session flag after the first `n` buckets.
pub open spec fn aggregate_upto(
    buckets: Seq<AggScreenOnBucket>,
    kbd: Seq<RawEvent>,
    n: int,
) -> (Seq<RawEvent>, bool)
    decreases n,
{
    if n <= 0 {
        (Seq::empty(), false)
    } else {
        let (evs, in_session) = aggregate_upto(buckets, kbd, n - 1);
        let i = n - 1;
        let ts = buckets[i].time_ms;
        let on = buckets[i].screen_on_secs;
        if on == 0 {
            (evs, false)
        } else {
            let bucket_end = ts + HOUR_MS;
            let evs1 = if !in_session {
                let inferred = ts + (HOUR_MS - on * 1000);
                let start = match first_kbd_before(kbd, first_at_or_after(kbd, ts), bucket_end as i64) {
                    Some(k) => if k < inferred {
                        k as int
                    } else {
                        inferred
                    },
                    None => inferred,
                };
                evs.push(RawEvent { time_ms: start as i64, kind: RawEventKind::HardOpen })
            } else {
                evs
            };
            let last_in_run = on < 3600 && (i + 1 >= buckets.len() || buckets[i + 1].screen_on_secs
                == 0 || buckets[i + 1].time_ms > ts + HOUR_MS + 60_000);
            if last_in_run {
                let inferred_end = ts + on * 1000;
                let end = match last_kbd_in(kbd, kbd.len() as int, ts, bucket_end as i64) {
                    Some(k) => if k > inferred_end {
                        k as int
                    } else {
                        inferred_end
                    },
                    None => inferred_end,
                };
                (evs1.push(RawEvent { time_ms: end as i64, kind: RawEventKind::HardClose }), false)
            } else {
                (evs1, true)
            }
        }
    }
}

pub open spec fn buckets_ok(buckets: Seq<AggScreenOnBucket>) -> bool {
    forall|i: int|
        0 <= i < buckets.len() ==> time_ok(#[trigger] buckets[i].time_ms as int)
            && -SCREEN_ON_LIMIT <= buckets[i].screen_on_secs <= SCREEN_ON_LIMIT
}

fn lower_bound_kbd(kbd: &[RawEvent], t: i64) -> (r: usize)
    requires
        sorted_by_time(kbd@),
    ensures
        r == first_at_or_after(kbd@, t),
        r <= kbd@.len(),
{
    proof {
        lemma_first_at_or_after(kbd@, t);
    }
    if kbd.len() == 0 {
        return 0;
    }
    let mut lo: usize = 0;
    let mut hi: usize = kbd.len() - 1;
    loop
        invariant
            sorted_by_time(kbd@),
            kbd@.len() > 0,
            hi < kbd@.len(),
            lo <= kbd@.len(),
            lo <= hi + 1,
            forall|k: int| 0 <= k < lo ==> kbd@[k].time_ms < t,
            forall|k: int| hi < k < kbd@.len() ==> kbd@[k].time_ms >= t,
        ensures
            lo <= kbd@.len(),
            forall|k: int| 0 <= k < lo ==> kbd@[k].time_ms < t,
            forall|k: int| lo <= k < kbd@.len() ==> kbd@[k].time_ms >= t,
        decreases hi + 1 - lo,
    {
        if lo > hi {
            break;
        }
        let m = lo + (hi - lo) / 2;
        if kbd[m].time_ms < t {
            lo = m + 1;
        } else {
            if m == 0 {
                assert forall|k: int| lo <= k < kbd@.len() implies kbd@[k].time_ms >= t by {
                    assert(kbd@[0].spec_time() <= kbd@[k].spec_time());
                }
                break;
            }
            hi = m - 1;
        }
    }
    proof {
        let f = first_at_or_after(kbd@, t);
        if (lo as int) < f {
            assert(kbd@[lo as int].time_ms < t);
        } else if (lo as int) > f {
            assert(kbd@[f].time_ms < t);
        }
    }
    lo
}

/// For a time-ordered `kbd`, `first_at_or_after` splits it at `t`.
pub proof fn lemma_first_at_or_after(kbd: Seq<RawEvent>, t: i64)
    requires
        sorted_by_time(kbd),
    ensures
        0 <= first_at_or_after(kbd, t) <= kbd.len(),
        forall|k: int| 0 <= k < first_at_or_after(kbd, t) ==> kbd[k].time_ms < t,
        forall|k: int| first_at_or_after(kbd, t) <= k < kbd.len() ==> kbd[k].time_ms >= t,
    decreases kbd.len(),
{
    if kbd.len() > 0 {
        if kbd.last().time_ms < t {
            assert forall|k: int| 0 <= k < kbd.len() implies kbd[k].time_ms < t by {
                assert(kbd[k].spec_time() <= kbd.last().spec_time());
            }
        } else {
            let d = kbd.drop_last();
            assert forall|i: int, j: int| 0 <= i <= j < d.len() implies d[i].spec_time()
                <= d[j].spec_time() by {
                assert(kbd[i].spec_time() <= kbd[j].spec_time());
            }
            lemma_first_at_or_after(d, t);
            let f = first_at_or_after(kbd, t);
            assert(f == first_at_or_after(d, t));
            assert forall|k: int| 0 <= k < f implies kbd[k].time_ms < t by {
                assert(d[k] == kbd[k]);
            }
            assert forall|k: int| f <= k < kbd.len() implies kbd[k].time_ms >= t by {
                if k < kbd.len() - 1 {
                    assert(d[k] == kbd[k]);
                }
            }
        }
    }
}

fn first_kbd_from(kbd: &[RawEvent], j: usize, end: i64) -> (r: Option<i64>)
    requires
        j <= kbd@.len(),
    ensures
        r == first_kbd_before(kbd@, j as int, end),
{
    let mut k: usize = j;
    while k < kbd.len()
        invariant
            j <= k <= kbd@.len(),
            first_kbd_before(kbd@, k as int, end) == first_kbd_before(kbd@, j as int, end),
        decreases kbd@.len() - k,
    {
        if kbd[k].time_ms >= end {
            return None;
        }
        if kbd[k].kind == RawEventKind::Kbd {
            return Some(kbd[k].time_ms);
        }
        k = k + 1;
    }
    None
}

fn last_kbd_between(kbd: &[RawEvent], start: i64, end: i64) -> (r: Option<i64>)
    ensures
        r == last_kbd_in(kbd@, kbd@.len() as int, start, end),
{
    let mut n: usize = kbd.len();
    while n > 0
        invariant
            n <= kbd@.len(),
            last_kbd_in(kbd@, n as int, start, end) == last_kbd_in(
                kbd@,
                kbd@.len() as int,
                start,
                end,
            ),
        decreases n,
    {
        let e = kbd[n - 1];
        if e.kind == RawEventKind::Kbd && start <= e.time_ms && e.time_ms < end {
            return Some(e.time_ms);
        }
        n = n - 1;
    }
    None
}

/// Derives hard open and close events from hourly screen-on buckets,
/// sharpened by nearby keyboard events.
pub fn build_aggregate_events(buckets: &[AggScreenOnBucket], kbd_events: &[RawEvent]) -> (r: Vec<
    RawEvent,
>)
    requires
        buckets_ok(buckets@),
        sorted_by_time(kbd_events@),
    ensures
        r@ == aggregate_upto(buckets@, kbd_events@, buckets@.len() as int).0,
{
    let mut events: Vec<RawEvent> = Vec::new();
    let mut in_session = false;
    let mut i: usize = 0;
    while i < buckets.len()
        invariant
            i <= buckets@.len(),
            buckets_ok(buckets@),
            sorted_by_time(kbd_events@),
            aggregate_upto(buckets@, kbd_events@, i as int) == (events@, in_session),
        decreases buckets@.len() - i,
    {
        let ts = buckets[i].time_ms;
        let screen_on = buckets[i].screen_on_secs;
        assert(time_ok(buckets@[i as int].time_ms as int));
        if screen_on == 0 {
            in_session = false;
        } else {
            let bucket_end = ts + HOUR_MS;
            if !in_session {
                let mut inferred_start: i64 = ts + (HOUR_MS - screen_on * 1000);
                let lo2 = lower_bound_kbd(kbd_events, ts);
                if let Some(k) = first_kbd_from(kbd_events, lo2, bucket_end) {
                    if k < inferred_start {
                        inferred_start = k;
                    }
                }
                events.push(RawEvent { time_ms: inferred_start, kind: RawEventKind::HardOpen });
                in_session = true;
            }
            let last_in_run = screen_on < 3600 && (i + 1 >= buckets.len() || buckets[i
                + 1].screen_on_secs == 0 || buckets[i + 1].time_ms > ts + HOUR_MS + 60_000);
            if last_in_run {
                let mut inferred_end: i64 = ts + screen_on * 1000;
                if let Some(k) = last_kbd_between(kbd_events, ts, bucket_end) {
                    if k > inferred_end {
                        inferred_end = k;
                    }
                }
                events.push(RawEvent { time_ms: inferred_end, kind: RawEventKind::HardClose });
                in_session = false;
            }
        }
        i = i + 1;
    }
    events
}

} // verus!

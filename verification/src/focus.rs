//! Merging the focus periods of the knowledge store with point focus events.
use vstd::prelude::*;

use crate::sort::{lemma_stable_order_sorted, stable_order, stable_order_of};
use crate::types::{FocusPeriod, PointFocusEvent};

verus! {

/// The focus event at the start of a focus period.
pub open spec fn period_start_event(p: FocusPeriod) -> PointFocusEvent {
    PointFocusEvent { time_ms: p.first_ms, bundle_id: p.bundle_id }
}

/// The `(first, last)` bounds of the periods, stably ordered by start.
pub open spec fn period_bounds_by_start(periods: Seq<FocusPeriod>) -> Seq<(i64, i64)> {
    stable_order(periods.map_values(|p: FocusPeriod| p.first_ms)).map_values(
        |i: usize| (periods[i as int].first_ms, periods[i as int].last_ms),
    )
}

/// Position of the last bound that starts at or before `t`.
pub open spec fn last_started_by(bounds: Seq<(i64, i64)>, t: i64) -> Option<int>
    decreases bounds.len(),
{
    if bounds.len() == 0 {
        None
    } else if bounds.last().0 <= t {
        Some(bounds.len() - 1)
    } else {
        last_started_by(bounds.drop_last(), t)
    }
}

/// `t` falls inside the latest period that started at or before it.
pub open spec fn covered_by(bounds: Seq<(i64, i64)>, t: i64) -> bool {
    match last_started_by(bounds, t) {
        Some(i) => t < bounds[i].1,
        None => false,
    }
}

/// `events` stably ordered by time.
pub open spec fn points_by_time(events: Seq<PointFocusEvent>) -> Seq<PointFocusEvent> {
    stable_order(events.map_values(|e: PointFocusEvent| e.time_ms)).map_values(
        |i: usize| events[i as int],
    )
}

/// Keeps the first event of each timestamp.
pub open spec fn first_per_time(s: Seq<PointFocusEvent>) -> Seq<PointFocusEvent>
    decreases s.len(),
{
    if s.len() == 0 {
        s
    } else {
        let d = first_per_time(s.drop_last());
        if exists|j: int| 0 <= j < s.len() - 1 && s[j].time_ms == s.last().time_ms {
            d
        } else {
            d.push(s.last())
        }
    }
}

pub open spec fn uncovered_pred(bounds: Seq<(i64, i64)>) -> spec_fn(PointFocusEvent) -> bool {
    |e: PointFocusEvent| !covered_by(bounds, e.time_ms)
}

/// The events `merge_focus_streams` returns.
pub open spec fn spec_merge_focus_streams(
    periods: Seq<FocusPeriod>,
    points: Seq<PointFocusEvent>,
) -> Seq<PointFocusEvent> {
    first_per_time(
        points_by_time(
            periods.map_values(|p: FocusPeriod| period_start_event(p)) + points.filter(
                uncovered_pred(period_bounds_by_start(periods)),
            ),
        ),
    )
}

fn copy_point(e: &PointFocusEvent) -> (r: PointFocusEvent)
    ensures
        r == *e,
{
    PointFocusEvent { time_ms: e.time_ms, bundle_id: e.bundle_id.clone() }
}

pub open spec fn bounds_sorted(b: Seq<(i64, i64)>) -> bool {
    forall|i: int, j: int| 0 <= i <= j < b.len() ==> b[i].0 <= b[j].0
}

proof fn lemma_last_started_by(b: Seq<(i64, i64)>, t: i64)
    requires
        bounds_sorted(b),
    ensures
        match last_started_by(b, t) {
            Some(i) => 0 <= i < b.len() && b[i].0 <= t && forall|j: int|
                i < j < b.len() ==> b[j].0 > t,
            None => forall|j: int| 0 <= j < b.len() ==> b[j].0 > t,
        },
    decreases b.len(),
{
    if b.len() > 0 && b.last().0 > t {
        let d = b.drop_last();
        assert(bounds_sorted(d));
        lemma_last_started_by(d, t);
        assert forall|j: int| 0 <= j < b.len() - 1 implies b[j] == d[j] by {}
    }
}

fn is_covered(bounds: &Vec<(i64, i64)>, t: i64) -> (r: bool)
    requires
        bounds_sorted(bounds@),
    ensures
        r == covered_by(bounds@, t),
{
    proof {
        lemma_last_started_by(bounds@, t);
    }
    if bounds.len() == 0 {
        return false;
    }
    let mut lo: usize = 0;
    let mut hi: usize = bounds.len() - 1;
    let mut found: Option<usize> = None;
    loop
        invariant
            bounds_sorted(bounds@),
            bounds@.len() > 0,
            bounds@.len() <= usize::MAX,
            hi < bounds@.len(),
            lo <= bounds@.len(),
            lo <= hi + 1,
            forall|k: int| 0 <= k < lo ==> bounds@[k].0 <= t,
            forall|k: int| hi < k < bounds@.len() ==> bounds@[k].0 > t,
            found is None ==> lo == 0,
            found matches Some(f) ==> f + 1 == lo,
        ensures
            forall|k: int| 0 <= k < lo ==> bounds@[k].0 <= t,
            forall|k: int| lo <= k < bounds@.len() ==> bounds@[k].0 > t,
            found is None ==> lo == 0,
            found matches Some(f) ==> f + 1 == lo,
        decreases hi + 1 - lo,
    {
        if lo > hi {
            break;
        }
        let mid = lo + (hi - lo) / 2;
        if bounds[mid].0 <= t {
            found = Some(mid);
            lo = mid + 1;
        } else {
            if mid == 0 {
                assert forall|k: int| lo <= k < bounds@.len() implies bounds@[k].0 > t by {
                    assert(bounds@[0].0 <= bounds@[k].0);
                }
                break;
            }
            hi = mid - 1;
        }
    }
    match found {
        Some(i) => t < bounds[i].1,
        None => false,
    }
}

/// Merges focus periods with focus point events: every period contributes an
/// event at its start, point events inside a period are dropped, and of
/// several events at the same timestamp only the first is kept, the events
/// from periods coming first.
pub fn merge_focus_streams(periods: &[FocusPeriod], point_events: &[PointFocusEvent]) -> (r: Vec<
    PointFocusEvent,
>)
    ensures
        r@ == spec_merge_focus_streams(periods@, point_events@),
{
    // Events at the start of each period.
    let mut all: Vec<PointFocusEvent> = Vec::new();
    let mut firsts: Vec<i64> = Vec::new();
    let mut i: usize = 0;
    while i < periods.len()
        invariant
            i <= periods@.len(),
            all@ =~= periods@.subrange(0, i as int).map_values(
                |p: FocusPeriod| period_start_event(p),
            ),
            firsts@ =~= periods@.subrange(0, i as int).map_values(|p: FocusPeriod| p.first_ms),
        decreases periods@.len() - i,
    {
        all.push(
            PointFocusEvent { time_ms: periods[i].first_ms, bundle_id: periods[i].bundle_id.clone() },
        );
        firsts.push(periods[i].first_ms);
        i = i + 1;
    }
    proof {
        assert(periods@.subrange(0, periods@.len() as int) =~= periods@);
    }
    let ghost from_periods = all@;
    // Period bounds ordered by start.
    let order = stable_order_of(&firsts);
    proof {
        lemma_stable_order_sorted(firsts@);
    }
    let mut bounds: Vec<(i64, i64)> = Vec::new();
    let mut k: usize = 0;
    while k < order.len()
        invariant
            k <= order@.len(),
            firsts@ == periods@.map_values(|p: FocusPeriod| p.first_ms),
            order@ == stable_order(firsts@),
            forall|j: int| 0 <= j < order@.len() ==> order@[j] < firsts@.len(),
            bounds@ =~= order@.subrange(0, k as int).map_values(
                |j: usize| (periods@[j as int].first_ms, periods@[j as int].last_ms),
            ),
        decreases order@.len() - k,
    {
        let j = order[k];
        bounds.push((periods[j].first_ms, periods[j].last_ms));
        k = k + 1;
    }
    proof {
        assert(order@.subrange(0, order@.len() as int) =~= order@);
        assert(bounds@ =~= period_bounds_by_start(periods@));
        assert forall|a: int, b: int| 0 <= a <= b < bounds@.len() implies bounds@[a].0
            <= bounds@[b].0 by {
            assert(firsts@[order@[a] as int] <= firsts@[order@[b] as int]);
        }
    }
    // Point events not covered by a period.
    let ghost pred = uncovered_pred(bounds@);
    let mut i: usize = 0;
    proof {
        reveal_with_fuel(Seq::<PointFocusEvent>::filter, 1);
        assert(point_events@.subrange(0, 0) =~= Seq::<PointFocusEvent>::empty());
        assert(all@ =~= from_periods + point_events@.subrange(0, 0).filter(pred));
    }
    while i < point_events.len()
        invariant
            i <= point_events@.len(),
            bounds_sorted(bounds@),
            pred == uncovered_pred(bounds@),
            all@ == from_periods + point_events@.subrange(0, i as int).filter(pred),
        decreases point_events@.len() - i,
    {
        proof {
            reveal_with_fuel(Seq::<PointFocusEvent>::filter, 1);
            assert(point_events@.subrange(0, i + 1).drop_last() =~= point_events@.subrange(
                0,
                i as int,
            ));
        }
        let ghost before = point_events@.subrange(0, i as int).filter(pred);
        if !is_covered(&bounds, point_events[i].time_ms) {
            all.push(copy_point(&point_events[i]));
            proof {
                assert(all@ =~= from_periods + before.push(point_events@[i as int]));
            }
        }
        i = i + 1;
    }
    proof {
        assert(point_events@.subrange(0, point_events@.len() as int) =~= point_events@);
    }
    // Stable order by time.
    let mut times: Vec<i64> = Vec::new();
    let mut i: usize = 0;
    while i < all.len()
        invariant
            i <= all@.len(),
            times@ =~= all@.subrange(0, i as int).map_values(|e: PointFocusEvent| e.time_ms),
        decreases all@.len() - i,
    {
        times.push(all[i].time_ms);
        i = i + 1;
    }
    proof {
        assert(all@.subrange(0, all@.len() as int) =~= all@);
        lemma_stable_order_sorted(times@);
    }
    let order2 = stable_order_of(&times);
    let ghost sorted = points_by_time(all@);
    let mut out: Vec<PointFocusEvent> = Vec::new();
    let mut k: usize = 0;
    proof {
        assert(sorted.subrange(0, 0) =~= Seq::<PointFocusEvent>::empty());
    }
    while k < order2.len()
        invariant
            k <= order2@.len(),
            times@ == all@.map_values(|e: PointFocusEvent| e.time_ms),
            order2@ == stable_order(times@),
            sorted == order2@.map_values(|j: usize| all@[j as int]),
            forall|j: int| 0 <= j < order2@.len() ==> order2@[j] < times@.len(),
            forall|a: int, b: int|
                0 <= a <= b < order2@.len() ==> times@[order2@[a] as int]
                    <= times@[order2@[b] as int],
            out@ == first_per_time(sorted.subrange(0, k as int)),
        decreases order2@.len() - k,
    {
        let ghost sub = sorted.subrange(0, k + 1);
        proof {
            assert(sub.drop_last() =~= sorted.subrange(0, k as int));
        }
        let e = &all[order2[k]];
        let keep = if k == 0 {
            true
        } else {
            all[order2[k - 1]].time_ms != e.time_ms
        };
        proof {
            if keep {
                assert forall|j: int| 0 <= j < sub.len() - 1 implies sub[j].time_ms
                    != sub.last().time_ms by {
                    assert(times@[order2@[j] as int] <= times@[order2@[k - 1] as int]);
                }
            } else {
                assert(sub[k - 1].time_ms == sub.last().time_ms);
            }
        }
        if keep {
            out.push(copy_point(e));
        }
        k = k + 1;
    }
    proof {
        assert(sorted.subrange(0, order2@.len() as int) =~= sorted);
    }
    out
}

} // verus!

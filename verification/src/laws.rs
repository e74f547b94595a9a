//! Properties that hold of every result of the timeline, period and interval
//! builders.
use vstd::prelude::*;

use crate::intervals::{
    annotate_one, location_for, merge_same_label, spec_prepare_for_render, transit_count,
};
use crate::periods::{
    attribute_one, first_soft_in, merge_periods, spec_attribute_periods, spec_build_periods,
};
use crate::timeline::{merge_segments, spec_build_timeline, Seg};
use crate::types::{
    ActivePeriod, InitialState, Interval, IntervalLabel, RawEvent, RtoBlock, TimelineInputs,
    MERGE_GAP_MS, MIN_PERIOD_MS,
};

verus! {

proof fn lemma_merge_segments_nonempty(s: Seq<Seg>)
    ensures
        forall|i: int|
            0 <= i < merge_segments(s).len() ==> #[trigger] merge_segments(s)[i].first_ms
                < merge_segments(s)[i].last_ms && merge_segments(s)[i].location is None,
    decreases s.len(),
{
    if s.len() > 0 {
        lemma_merge_segments_nonempty(s.drop_last());
    }
}

/// Every interval of a timeline has a positive duration and no location yet
/// (locations are assigned later, from the location evidence).
pub proof fn law_timeline_intervals_nonempty(
    inputs: TimelineInputs,
    groups: Seq<(String, String)>,
    window_start: i64,
    window_end: i64,
    init: InitialState,
)
    ensures
        forall|i: int|
            0 <= i < spec_build_timeline(inputs, groups, window_start, window_end, init).len()
                ==> #[trigger] spec_build_timeline(
                inputs,
                groups,
                window_start,
                window_end,
                init,
            )[i].first_ms < spec_build_timeline(
                inputs,
                groups,
                window_start,
                window_end,
                init,
            )[i].last_ms && spec_build_timeline(
                inputs,
                groups,
                window_start,
                window_end,
                init,
            )[i].location is None,
{
    let r = spec_build_timeline(inputs, groups, window_start, window_end, init);
    assert(r == merge_segments(
        crate::timeline::drop_trailing_breaks(
            crate::timeline::close_active(
                crate::timeline::run_events(
                    crate::timeline::window_events(inputs, window_start, window_end),
                    groups,
                    crate::timeline::initial_machine(init, window_start),
                ).stack,
                crate::timeline::run_events(
                    crate::timeline::window_events(inputs, window_start, window_end),
                    groups,
                    crate::timeline::initial_machine(init, window_start),
                ).prev_time,
            ),
        ),
    ));
    lemma_merge_segments_nonempty(
        crate::timeline::drop_trailing_breaks(
            crate::timeline::close_active(
                crate::timeline::run_events(
                    crate::timeline::window_events(inputs, window_start, window_end),
                    groups,
                    crate::timeline::initial_machine(init, window_start),
                ).stack,
                crate::timeline::run_events(
                    crate::timeline::window_events(inputs, window_start, window_end),
                    groups,
                    crate::timeline::initial_machine(init, window_start),
                ).prev_time,
            ),
        ),
    );
}

/// Every merged period lasts at least `MIN_PERIOD_MS`, and consecutive
/// periods are more than `MERGE_GAP_MS` apart.
pub proof fn lemma_merge_periods_separated(ps: Seq<ActivePeriod>)
    ensures
        forall|i: int|
            0 <= i < merge_periods(ps).len() ==> #[trigger] merge_periods(ps)[i].last_ms
                - merge_periods(ps)[i].first_ms >= MIN_PERIOD_MS,
        forall|i: int|
            0 <= i < merge_periods(ps).len() - 1 ==> #[trigger] merge_periods(ps)[i
                + 1].first_ms - merge_periods(ps)[i].last_ms > MERGE_GAP_MS,
    decreases ps.len(),
{
    if ps.len() > 0 {
        lemma_merge_periods_separated(ps.drop_last());
        let m = merge_periods(ps.drop_last());
        let r = merge_periods(ps);
        assert forall|i: int| 0 <= i < r.len() - 1 implies #[trigger] r[i + 1].first_ms
            - r[i].last_ms > MERGE_GAP_MS by {
            assert(m[i + 1].first_ms - m[i].last_ms > MERGE_GAP_MS || i == m.len() - 1);
        }
    }
}

/// The periods `build_periods` returns each last at least `MIN_PERIOD_MS`,
/// and any two consecutive ones are more than `MERGE_GAP_MS` apart (shorter
/// gaps are merged, shorter periods are dropped).
pub proof fn law_build_periods_separated(events: Seq<RawEvent>, now_ms: i64)
    ensures
        forall|i: int|
            0 <= i < spec_build_periods(events, now_ms).len() ==> #[trigger] spec_build_periods(
                events,
                now_ms,
            )[i].last_ms - spec_build_periods(events, now_ms)[i].first_ms >= MIN_PERIOD_MS,
        forall|i: int|
            0 <= i < spec_build_periods(events, now_ms).len() - 1 ==> #[trigger] spec_build_periods(
                events,
                now_ms,
            )[i + 1].first_ms - spec_build_periods(events, now_ms)[i].last_ms > MERGE_GAP_MS,
{
    lemma_merge_periods_separated(
        crate::periods::raw_sessions(crate::periods::sorted_raw_events(events), now_ms),
    );
}

proof fn lemma_first_soft_in(soft: Seq<RawEvent>, window_start: i64, end: i64)
    ensures
        first_soft_in(soft, window_start, end) matches Some(t) ==> window_start <= t < end,
    decreases soft.len(),
{
    if soft.len() > 0 {
        lemma_first_soft_in(soft.drop_first(), window_start, end);
    }
}

/// A period attributed to a window lies inside the window and has a
/// positive duration.
pub proof fn law_attributed_periods_in_window(
    periods: Seq<ActivePeriod>,
    window_start: i64,
    window_end: i64,
    soft: Seq<RawEvent>,
)
    ensures
        forall|i: int|
            0 <= i < spec_attribute_periods(periods, window_start, window_end, soft).len()
                ==> window_start <= #[trigger] spec_attribute_periods(
                periods,
                window_start,
                window_end,
                soft,
            )[i].first_ms && spec_attribute_periods(periods, window_start, window_end, soft)[i].first_ms
                < spec_attribute_periods(periods, window_start, window_end, soft)[i].last_ms
                && spec_attribute_periods(periods, window_start, window_end, soft)[i].last_ms
                <= window_end,
    decreases periods.len(),
{
    if periods.len() > 0 {
        law_attributed_periods_in_window(periods.drop_last(), window_start, window_end, soft);
        let p = periods.last();
        let e = if p.last_ms <= window_end {
            p.last_ms
        } else {
            window_end
        };
        lemma_first_soft_in(soft, window_start, e);
        if let Some(q) = attribute_one(p, window_start, window_end, soft) {
            assert(window_start <= q.first_ms < q.last_ms <= window_end);
        }
        let m = spec_attribute_periods(periods.drop_last(), window_start, window_end, soft);
        let r = spec_attribute_periods(periods, window_start, window_end, soft);
        assert forall|i: int| 0 <= i < r.len() implies window_start <= #[trigger] r[i].first_ms
            && r[i].first_ms < r[i].last_ms && r[i].last_ms <= window_end by {
            if i < m.len() {
                assert(r[i] == m[i]);
            }
        }
    }
}

/// Annotation keeps each interval's bounds and label, and leaves transit
/// intervals exactly as they were.
pub proof fn law_annotation_keeps_intervals(
    intervals: Seq<Interval>,
    blocks: Seq<RtoBlock>,
    all_periods: Seq<RtoBlock>,
)
    ensures
        forall|i: int|
            0 <= i < intervals.len() ==> {
                let a = #[trigger] annotate_one(intervals[i], blocks, all_periods);
                &&& a.first_ms == intervals[i].first_ms
                &&& a.last_ms == intervals[i].last_ms
                &&& a.label == intervals[i].label
                &&& intervals[i].label == IntervalLabel::Transit ==> a == intervals[i]
            },
{
}

proof fn lemma_merge_same_label_alternates(s: Seq<Interval>)
    ensures
        forall|i: int|
            0 <= i < merge_same_label(s).len() - 1 ==> #[trigger] merge_same_label(s)[i].label
                != merge_same_label(s)[i + 1].label,
    decreases s.len(),
{
    if s.len() > 0 {
        lemma_merge_same_label_alternates(s.drop_last());
        let m = merge_same_label(s.drop_last());
        let r = merge_same_label(s);
        assert forall|i: int| 0 <= i < r.len() - 1 implies #[trigger] r[i].label != r[i
            + 1].label by {
            if i < m.len() - 1 {
                assert(m[i].label != m[i + 1].label);
            }
        }
    }
}

/// When a day has more than two transit intervals, the rendered intervals
/// never have two neighbours with the same label (the inner transits became
/// active and were merged with the active intervals around them).
pub proof fn law_render_merges_neighbours(s: Seq<Interval>)
    requires
        transit_count(s) > 2,
    ensures
        forall|i: int|
            0 <= i < spec_prepare_for_render(s).len() - 1 ==> #[trigger] spec_prepare_for_render(
                s,
            )[i].label != spec_prepare_for_render(s)[i + 1].label,
{
    lemma_merge_same_label_alternates(crate::intervals::relabel_inner_transits(s));
}

/// With at most two transit intervals, rendering leaves the intervals as
/// they are.
pub proof fn law_render_keeps_few_transits(s: Seq<Interval>)
    requires
        transit_count(s) <= 2,
    ensures
        spec_prepare_for_render(s) == s,
{
}


/// Merging an interval into the previous one of the same label: the merged
/// interval runs from the previous one's start to the new one's end. An
/// active interval's location fills a missing one, and replaces a different
/// one exactly when the new interval is strictly longer than the previous
/// interval was; otherwise the previous location stays.
pub proof fn law_merge_takes_longer_location(s: Seq<Interval>)
    requires
        s.len() > 0,
        merge_same_label(s.drop_last()).len() > 0,
        merge_same_label(s.drop_last()).last().label == s.last().label,
    ensures
        ({
            let prev = merge_same_label(s.drop_last()).last();
            let iv = s.last();
            let r = merge_same_label(s);
            &&& r.len() == merge_same_label(s.drop_last()).len()
            &&& r.last().first_ms == prev.first_ms
            &&& r.last().last_ms == iv.last_ms
            &&& r.last().label == iv.label
            &&& (iv.label == IntervalLabel::Active && iv.location is Some && prev.location is None)
                ==> r.last().location == iv.location
            &&& (iv.label == IntervalLabel::Active && iv.location is Some && prev.location is Some
                && prev.location.unwrap()@ != iv.location.unwrap()@ && iv.last_ms - iv.first_ms
                > prev.last_ms - prev.first_ms) ==> r.last().location == iv.location
            &&& (iv.label != IntervalLabel::Active || iv.location is None || (prev.location is Some
                && iv.last_ms - iv.first_ms <= prev.last_ms - prev.first_ms)) ==> r.last().location
                == prev.location
        }),
{
}

/// The location found for an interval `[first_ms, last_ms]` is that of the
/// first block, in the given order, that ends after the interval starts,
/// provided no earlier block starts after the interval ends; when there is
/// no such block there is none.
pub proof fn law_location_is_first_overlapping_block(
    blocks: Seq<RtoBlock>,
    first_ms: i64,
    last_ms: i64,
)
    ensures
        forall|k: int|
            0 <= k < blocks.len() && (#[trigger] blocks[k]).first_ms <= last_ms && blocks[k].last_ms
                > first_ms && (forall|j: int|
                0 <= j < k ==> blocks[j].first_ms <= last_ms && blocks[j].last_ms <= first_ms)
                ==> location_for(blocks, first_ms, last_ms) == Some(blocks[k].location),
        location_for(blocks, first_ms, last_ms) is Some ==> exists|k: int|
            0 <= k < blocks.len() && (#[trigger] blocks[k]).first_ms <= last_ms && blocks[k].last_ms
                > first_ms && (forall|j: int|
                0 <= j < k ==> blocks[j].first_ms <= last_ms && blocks[j].last_ms <= first_ms)
                && location_for(blocks, first_ms, last_ms) == Some(blocks[k].location),
    decreases blocks.len(),
{
    if blocks.len() > 0 {
        let d = blocks.drop_first();
        law_location_is_first_overlapping_block(d, first_ms, last_ms);
        assert forall|k: int|
            0 <= k < blocks.len() && (#[trigger] blocks[k]).first_ms <= last_ms && blocks[k].last_ms
                > first_ms && (forall|j: int|
                0 <= j < k ==> blocks[j].first_ms <= last_ms && blocks[j].last_ms <= first_ms)
                implies location_for(blocks, first_ms, last_ms) == Some(blocks[k].location) by {
            if k > 0 {
                assert(blocks[0].first_ms <= last_ms && blocks[0].last_ms <= first_ms);
                assert(d[k - 1] == blocks[k]);
                assert forall|j: int| 0 <= j < k - 1 implies d[j].first_ms <= last_ms
                    && d[j].last_ms <= first_ms by {
                    assert(d[j] == blocks[j + 1]);
                }
            }
        }
        if location_for(blocks, first_ms, last_ms) is Some {
            if blocks[0].last_ms > first_ms {
                assert(blocks[0].first_ms <= last_ms);
            } else {
                let k = choose|k: int|
                    0 <= k < d.len() && (#[trigger] d[k]).first_ms <= last_ms && d[k].last_ms
                        > first_ms && (forall|j: int|
                        0 <= j < k ==> d[j].first_ms <= last_ms && d[j].last_ms <= first_ms)
                        && location_for(d, first_ms, last_ms) == Some(d[k].location);
                assert(blocks[k + 1] == d[k]);
                assert forall|j: int| 0 <= j < k + 1 implies blocks[j].first_ms <= last_ms
                    && blocks[j].last_ms <= first_ms by {
                    if j > 0 {
                        assert(blocks[j] == d[j - 1]);
                    }
                }
            }
        }
    }
}

/// With blocks ordered by start, a non-transit interval that some block
/// overlaps gets a location from the blocks: that of the first block that
/// ends after the interval starts.
pub proof fn law_overlapping_block_gives_location(
    iv: Interval,
    blocks: Seq<RtoBlock>,
    all_periods: Seq<RtoBlock>,
    k: int,
)
    requires
        iv.label != IntervalLabel::Transit,
        forall|a: int, b: int| 0 <= a < b < blocks.len() ==> blocks[a].first_ms <= blocks[b].first_ms,
        0 <= k < blocks.len(),
        blocks[k].first_ms <= iv.last_ms,
        blocks[k].last_ms > iv.first_ms,
    ensures
        exists|m: int|
            0 <= m <= k && blocks[m].last_ms > iv.first_ms && (forall|j: int|
                0 <= j < m ==> blocks[j].last_ms <= iv.first_ms) && annotate_one(
                iv,
                blocks,
                all_periods,
            ).location == Some(#[trigger] blocks[m].location),
{
    law_location_is_first_overlapping_block(blocks, iv.first_ms, iv.last_ms);
    let m = first_ending_after(blocks, iv.first_ms, k, 0);
    assert(blocks[m].first_ms <= blocks[k].first_ms);
    assert(forall|j: int| 0 <= j < m ==> blocks[j].first_ms <= blocks[k].first_ms);
    assert(location_for(blocks, iv.first_ms, iv.last_ms) == Some(blocks[m].location));
}

/// The first block from `i` on, up to `k`, that ends after `t`.
proof fn first_ending_after(blocks: Seq<RtoBlock>, t: i64, k: int, i: int) -> (m: int)
    requires
        0 <= i <= k < blocks.len(),
        blocks[k].last_ms > t,
        forall|j: int| 0 <= j < i ==> blocks[j].last_ms <= t,
    ensures
        i <= m <= k,
        blocks[m].last_ms > t,
        forall|j: int| 0 <= j < m ==> blocks[j].last_ms <= t,
    decreases k - i,
{
    if blocks[i].last_ms > t {
        i
    } else {
        first_ending_after(blocks, t, k, i + 1)
    }
}
} // verus!

//! Location annotation of intervals and the relabeling done before rendering.
use vstd::prelude::*;

use crate::types::{time_ok, Interval, IntervalLabel, RtoBlock};

verus! {

/// The location of the first block (in the given order, stopping at the first
/// block that starts after `last_ms`) that ends after `first_ms`.
pub open spec fn location_for(blocks: Seq<RtoBlock>, first_ms: i64, last_ms: i64) -> Option<String>
    decreases blocks.len(),
{
    if blocks.len() == 0 || blocks[0].first_ms > last_ms {
        None
    } else if blocks[0].last_ms > first_ms {
        Some(blocks[0].location)
    } else {
        location_for(blocks.drop_first(), first_ms, last_ms)
    }
}

/// `iv` with the location found in `blocks`, else in `all_periods`; transit
/// intervals and intervals with no match are left as they are.
pub open spec fn annotate_one(iv: Interval, blocks: Seq<RtoBlock>, all_periods: Seq<RtoBlock>) -> Interval {
    if iv.label == IntervalLabel::Transit {
        iv
    } else {
        match location_for(blocks, iv.first_ms, iv.last_ms) {
            Some(l) => Interval { location: Some(l), ..iv },
            None => match location_for(all_periods, iv.first_ms, iv.last_ms) {
                Some(l) => Interval { location: Some(l), ..iv },
                None => iv,
            },
        }
    }
}

pub(crate) fn copy_interval(iv: &Interval) -> (r: Interval)
    ensures
        r == *iv,
{
    Interval {
        first_ms: iv.first_ms,
        last_ms: iv.last_ms,
        label: iv.label,
        location: match &iv.location {
            Some(l) => Some(l.clone()),
            None => None,
        },
    }
}

fn location_for_interval(blocks: &[RtoBlock], first_ms: i64, last_ms: i64) -> (r: Option<String>)
    ensures
        r == location_for(blocks@, first_ms, last_ms),
{
    let mut i: usize = 0;
    proof {
        assert(blocks@.subrange(0, blocks@.len() as int) =~= blocks@);
    }
    while i < blocks.len()
        invariant
            i <= blocks@.len(),
            location_for(blocks@.subrange(i as int, blocks@.len() as int), first_ms, last_ms)
                == location_for(blocks@, first_ms, last_ms),
        decreases blocks@.len() - i,
    {
        proof {
            assert(blocks@.subrange(i as int, blocks@.len() as int).drop_first()
                =~= blocks@.subrange(i + 1, blocks@.len() as int));
        }
        if blocks[i].first_ms > last_ms {
            return None;
        }
        if blocks[i].last_ms > first_ms {
            return Some(blocks[i].location.clone());
        }
        i = i + 1;
    }
    None
}

/// Assigns a location to each interval using location evidence blocks,
/// falling back to `all_periods`. Transit intervals are skipped.
pub fn annotate_intervals_with_location(
    intervals: Vec<Interval>,
    blocks: &[RtoBlock],
    all_periods: &[RtoBlock],
) -> (r: Vec<Interval>)
    ensures
        r@ == intervals@.map_values(|iv: Interval| annotate_one(iv, blocks@, all_periods@)),
{
    let mut out: Vec<Interval> = Vec::new();
    let mut i: usize = 0;
    while i < intervals.len()
        invariant
            i <= intervals@.len(),
            out@ =~= intervals@.subrange(0, i as int).map_values(
                |iv: Interval| annotate_one(iv, blocks@, all_periods@),
            ),
        decreases intervals@.len() - i,
    {
        let iv = &intervals[i];
        let mut new_iv = copy_interval(iv);
        if iv.label != IntervalLabel::Transit {
            let loc = match location_for_interval(blocks, iv.first_ms, iv.last_ms) {
                Some(l) => Some(l),
                None => location_for_interval(all_periods, iv.first_ms, iv.last_ms),
            };
            if loc.is_some() {
                new_iv.location = loc;
            }
        }
        out.push(new_iv);
        i = i + 1;
    }
    proof {
        assert(intervals@.subrange(0, intervals@.len() as int) =~= intervals@);
    }
    out
}

// ---------------------------------------------------------------------------
// Relabeling before render
// ---------------------------------------------------------------------------

pub open spec fn transit_count(s: Seq<Interval>) -> nat
    decreases s.len(),
{
    if s.len() == 0 {
        0
    } else {
        transit_count(s.drop_last()) + if s.last().label == IntervalLabel::Transit {
            1nat
        } else {
            0nat
        }
    }
}

/// A transit interval with another transit interval before and after it.
pub open spec fn is_inner_transit(s: Seq<Interval>, i: int) -> bool {
    &&& s[i].label == IntervalLabel::Transit
    &&& exists|j: int| 0 <= j < i && s[j].label == IntervalLabel::Transit
    &&& exists|k: int| i < k < s.len() && s[k].label == IntervalLabel::Transit
}

/// Inner transit intervals relabeled as active.
pub open spec fn relabel_inner_transits(s: Seq<Interval>) -> Seq<Interval> {
    Seq::new(
        s.len(),
        |i: int|
            if is_inner_transit(s, i) {
                Interval { label: IntervalLabel::Active, ..s[i] }
            } else {
                s[i]
            },
    )
}

/// The location of `prev` once `iv` is merged into it: an active interval's
/// location fills a missing one, and replaces a different one when `iv` is
/// longer than `prev` was.
pub open spec fn merged_location(prev: Interval, iv: Interval) -> Option<String> {
    if iv.label == IntervalLabel::Active && iv.location is Some {
        let l = iv.location.unwrap();
        match prev.location {
            None => Some(l),
            Some(pl) => if pl@ != l@ && iv.last_ms - iv.first_ms > prev.last_ms - prev.first_ms {
                Some(l)
            } else {
                prev.location
            },
        }
    } else {
        prev.location
    }
}

/// Merges each interval into the previous one when both have the same label.
pub open spec fn merge_same_label(s: Seq<Interval>) -> Seq<Interval>
    decreases s.len(),
{
    if s.len() == 0 {
        s
    } else {
        let m = merge_same_label(s.drop_last());
        let iv = s.last();
        if m.len() > 0 && m.last().label == iv.label {
            m.update(
                m.len() - 1,
                Interval {
                    first_ms: m.last().first_ms,
                    last_ms: iv.last_ms,
                    label: m.last().label,
                    location: merged_location(m.last(), iv),
                },
            )
        } else {
            m.push(iv)
        }
    }
}

pub open spec fn spec_prepare_for_render(s: Seq<Interval>) -> Seq<Interval> {
    if transit_count(s) <= 2 {
        s
    } else {
        merge_same_label(relabel_inner_transits(s))
    }
}

pub open spec fn intervals_ok(s: Seq<Interval>) -> bool {
    forall|i: int|
        0 <= i < s.len() ==> time_ok(#[trigger] s[i].first_ms as int) && time_ok(
            s[i].last_ms as int,
        )
}

proof fn lemma_push_interval_ok(s: Seq<Interval>, iv: Interval)
    requires
        intervals_ok(s),
        time_ok(iv.first_ms as int),
        time_ok(iv.last_ms as int),
    ensures
        intervals_ok(s.push(iv)),
{
    assert forall|i: int| 0 <= i < s.push(iv).len() implies time_ok(
        #[trigger] s.push(iv)[i].first_ms as int,
    ) && time_ok(s.push(iv)[i].last_ms as int) by {
        if i < s.len() {
            assert(s.push(iv)[i] == s[i]);
        }
    }
}

/// Rendering keeps interval boundaries among those of its input.
pub proof fn lemma_prepare_ok(s: Seq<Interval>)
    requires
        intervals_ok(s),
    ensures
        intervals_ok(spec_prepare_for_render(s)),
{
    if transit_count(s) > 2 {
        let r = relabel_inner_transits(s);
        assert(intervals_ok(r)) by {
            assert forall|i: int| 0 <= i < r.len() implies time_ok(#[trigger] r[i].first_ms as int)
                && time_ok(r[i].last_ms as int) by {
                assert(time_ok(s[i].first_ms as int));
            }
        }
        lemma_merge_ok(r);
    }
}

proof fn lemma_merge_ok(s: Seq<Interval>)
    requires
        intervals_ok(s),
    ensures
        intervals_ok(merge_same_label(s)),
    decreases s.len(),
{
    if s.len() > 0 {
        let d = s.drop_last();
        assert(intervals_ok(d)) by {
            assert forall|i: int| 0 <= i < d.len() implies time_ok(#[trigger] d[i].first_ms as int)
                && time_ok(d[i].last_ms as int) by {
                assert(d[i] == s[i]);
            }
        }
        lemma_merge_ok(d);
        let m = merge_same_label(d);
        let iv = s.last();
        assert(time_ok(s[s.len() - 1].first_ms as int));
        if m.len() > 0 && m.last().label == iv.label {
            let r = merge_same_label(s);
            assert forall|i: int| 0 <= i < r.len() implies time_ok(#[trigger] r[i].first_ms as int)
                && time_ok(r[i].last_ms as int) by {
                assert(time_ok(m[i].first_ms as int));
            }
        } else {
            lemma_push_interval_ok(m, iv);
        }
    }
}

/// When a day has more than two transit intervals, the inner ones are
/// relabeled as active and merged with adjacent intervals of the same label.
pub fn prepare_intervals_for_render(intervals: Vec<Interval>) -> (r: Vec<Interval>)
    requires
        intervals_ok(intervals@),
    ensures
        r@ == spec_prepare_for_render(intervals@),
{
    let n = intervals.len();
    // Count transits and find the first and last one.
    let mut count: usize = 0;
    let mut first_t: usize = n;
    let mut last_t: usize = n;
    let mut i: usize = 0;
    while i < n
        invariant
            n == intervals@.len(),
            i <= n,
            count <= i,
            count == transit_count(intervals@.subrange(0, i as int)),
            count == 0 <==> first_t == n,
            count == 0 ==> last_t == n,
            count > 0 ==> first_t < i && last_t < i,
            count > 0 ==> intervals@[first_t as int].label == IntervalLabel::Transit,
            count > 0 ==> intervals@[last_t as int].label == IntervalLabel::Transit,
            count > 0 ==> forall|j: int|
                0 <= j < first_t ==> intervals@[j].label != IntervalLabel::Transit,
            count > 0 ==> forall|j: int|
                last_t < j < i ==> intervals@[j].label != IntervalLabel::Transit,
            count == 0 ==> forall|j: int| 0 <= j < i ==> intervals@[j].label != IntervalLabel::Transit,
            count == 1 ==> first_t == last_t,
            count >= 2 ==> first_t < last_t,
        decreases n - i,
    {
        proof {
            assert(intervals@.subrange(0, i + 1).drop_last() =~= intervals@.subrange(0, i as int));
        }
        if intervals[i].label == IntervalLabel::Transit {
            if count == 0 {
                first_t = i;
            }
            last_t = i;
            count = count + 1;
        }
        i = i + 1;
    }
    proof {
        assert(intervals@.subrange(0, n as int) =~= intervals@);
    }
    if count <= 2 {
        return intervals;
    }
    let ghost relabeled = relabel_inner_transits(intervals@);
    proof {
        assert forall|j: int| 0 <= j < n implies is_inner_transit(intervals@, j) == (
        intervals@[j].label == IntervalLabel::Transit && first_t < j && j < last_t) by {
            if intervals@[j].label == IntervalLabel::Transit && first_t < j && j < last_t {
                assert(0 <= first_t < j && intervals@[first_t as int].label
                    == IntervalLabel::Transit);
                assert(j < last_t < n && intervals@[last_t as int].label == IntervalLabel::Transit);
            }
        }
    }
    let mut merged: Vec<Interval> = Vec::new();
    let mut k: usize = 0;
    proof {
        assert(relabeled.subrange(0, 0) =~= Seq::<Interval>::empty());
    }
    while k < n
        invariant
            n == intervals@.len(),
            k <= n,
            intervals_ok(intervals@),
            relabeled == relabel_inner_transits(intervals@),
            forall|j: int|
                0 <= j < n ==> is_inner_transit(intervals@, j) == (intervals@[j].label
                    == IntervalLabel::Transit && first_t < j && j < last_t),
            merged@ == merge_same_label(relabeled.subrange(0, k as int)),
            intervals_ok(merged@),
        decreases n - k,
    {
        proof {
            assert(relabeled.subrange(0, k + 1).drop_last() =~= relabeled.subrange(0, k as int));
        }
        let mut iv = copy_interval(&intervals[k]);
        if iv.label == IntervalLabel::Transit && first_t < k && k < last_t {
            iv.label = IntervalLabel::Active;
        }
        assert(iv == relabeled[k as int]);
        assert(time_ok(intervals@[k as int].first_ms as int) && time_ok(intervals@[k as int].last_ms as int));
        let m = merged.len();
        if m > 0 && merged[m - 1].label == iv.label {
            let ghost before = merged@;
            let mut prev = merged.pop().unwrap();
            assert(time_ok(before[m - 1].first_ms as int) && time_ok(before[m - 1].last_ms as int));
            let prev_dur = prev.last_ms - prev.first_ms;
            prev.last_ms = iv.last_ms;
            if iv.label == IntervalLabel::Active {
                if let Some(iv_loc) = &iv.location {
                    let replace = match &prev.location {
                        None => true,
                        Some(pl) => !(*pl == *iv_loc) && iv.last_ms - iv.first_ms > prev_dur,
                    };
                    if replace {
                        prev.location = Some(iv_loc.clone());
                    }
                }
            }
            proof {
                assert(merged@ =~= before.drop_last());
                assert forall|j: int| 0 <= j < merged@.len() implies time_ok(
                    #[trigger] merged@[j].first_ms as int,
                ) && time_ok(merged@[j].last_ms as int) by {
                    assert(merged@[j] == before[j]);
                }
                lemma_push_interval_ok(merged@, prev);
            }
            merged.push(prev);
            proof {
                assert(merged@ =~= before.update(
                    m - 1,
                    Interval {
                        first_ms: before.last().first_ms,
                        last_ms: iv.last_ms,
                        label: before.last().label,
                        location: merged_location(before.last(), iv),
                    },
                ));
            }
        } else {
            proof {
                lemma_push_interval_ok(merged@, iv);
            }
            merged.push(iv);
        }
        k = k + 1;
    }
    proof {
        assert(relabeled.subrange(0, n as int) =~= relabeled);
    }
    merged
}

} // verus!

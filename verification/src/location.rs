//! Location signals (Duet anchors and wifi subnets), the pairs of signals
//! seen together, and the clusters they are grouped into.
use vstd::prelude::*;

use crate::text::{chars_of, lex_lt, str_lt, to_owned_string};
use crate::timeline::group_of;
use crate::types::LocationGroups;

verus! {

/// A time interval during which a location signal was active. Signals are
/// namespaced: `duet:<uuid>` for Duet anchors and `subnet:<cidr>` for wifi
/// subnets.
#[derive(Debug, Clone)]
pub struct SignalPeriod {
    pub start_ms: i64,
    pub end_ms: i64,
    pub signal: String,
}

/// `s` starts with `prefix`.
pub open spec fn has_prefix(s: Seq<char>, prefix: Seq<char>) -> bool {
    prefix.len() <= s.len() && s.subrange(0, prefix.len() as int) == prefix
}

/// `s` names a Duet anchor.
pub open spec fn is_duet(s: Seq<char>) -> bool {
    has_prefix(s, "duet:"@)
}

/// Whether `s` starts with `prefix`.
pub fn starts_with(s: &str, prefix: &str) -> (r: bool)
    ensures
        r == has_prefix(s@, prefix@),
{
    let a = chars_of(s);
    let p = chars_of(prefix);
    if p.len() > a.len() {
        return false;
    }
    let mut i: usize = 0;
    while i < p.len()
        invariant
            a@ == s@,
            p@ == prefix@,
            p@.len() <= a@.len(),
            i <= p@.len(),
            forall|j: int| 0 <= j < i ==> a@[j] == p@[j],
        decreases p@.len() - i,
    {
        if a[i] != p[i] {
            proof {
                assert(s@.subrange(0, prefix@.len() as int)[i as int] != prefix@[i as int]);
            }
            return false;
        }
        i = i + 1;
    }
    proof {
        assert(s@.subrange(0, prefix@.len() as int) =~= prefix@);
    }
    true
}

/// The order of two signals in a pair: Duet anchors before subnets, and
/// lexicographic order between two of the same kind.
pub open spec fn signal_first(x: Seq<char>, y: Seq<char>) -> bool {
    if is_duet(x) != is_duet(y) {
        is_duet(x)
    } else {
        !lex_lt(y, x)
    }
}

/// Orders two signals so the primary key `(signal_a, signal_b)` is stable:
/// `duet:` sorts before `subnet:`; among the same prefix, lex-smaller wins.
pub fn order_signals(x: &str, y: &str) -> (r: [String; 2])
    ensures
        signal_first(x@, y@) ==> r[0]@ == x@ && r[1]@ == y@,
        !signal_first(x@, y@) ==> r[0]@ == y@ && r[1]@ == x@,
{
    proof {
        reveal_strlit("duet:");
    }
    let x_duet = starts_with(x, "duet:");
    let y_duet = starts_with(y, "duet:");
    if x_duet && !y_duet {
        return [to_owned_string(x), to_owned_string(y)];
    }
    if y_duet && !x_duet {
        return [to_owned_string(y), to_owned_string(x)];
    }
    if !str_lt(y, x) {
        [to_owned_string(x), to_owned_string(y)]
    } else {
        [to_owned_string(y), to_owned_string(x)]
    }
}

/// Returns the cluster representative for `signal`, or `signal` itself if
/// it is not in any cluster.
pub fn cluster_at<'a>(clusters: &'a LocationGroups, signal: &'a str) -> (r: &'a str)
    ensures
        r@ == group_of(clusters.pairs@, signal@),
{
    let mut i: usize = 0;
    proof {
        assert(clusters.pairs@.subrange(0, clusters.pairs@.len() as int) =~= clusters.pairs@);
    }
    while i < clusters.pairs.len()
        invariant
            i <= clusters.pairs@.len(),
            group_of(clusters.pairs@.subrange(i as int, clusters.pairs@.len() as int), signal@)
                == group_of(clusters.pairs@, signal@),
        decreases clusters.pairs@.len() - i,
    {
        let ghost rest = clusters.pairs@.subrange(i as int, clusters.pairs@.len() as int);
        proof {
            assert(rest.drop_first() =~= clusters.pairs@.subrange(
                i + 1,
                clusters.pairs@.len() as int,
            ));
        }
        if crate::text::str_eq(clusters.pairs[i].0.as_str(), signal) {
            return clusters.pairs[i].1.as_str();
        }
        i = i + 1;
    }
    signal
}

// ---------------------------------------------------------------------------
// Clipping Duet periods to office subnet windows
// ---------------------------------------------------------------------------

/// The pieces of the Duet period `dp` inside the office periods `sps`
/// (scanned in order, up to the first one that starts after `dp` ends).
pub open spec fn clip_one(dp: SignalPeriod, sps: Seq<SignalPeriod>) -> Seq<SignalPeriod>
    decreases sps.len(),
{
    if sps.len() == 0 || sps[0].start_ms >= dp.end_ms {
        Seq::empty()
    } else {
        let rest = clip_one(dp, sps.drop_first());
        let sp = sps[0];
        let start = if dp.start_ms >= sp.start_ms {
            dp.start_ms
        } else {
            sp.start_ms
        };
        let end = if dp.end_ms <= sp.end_ms {
            dp.end_ms
        } else {
            sp.end_ms
        };
        if sp.end_ms <= dp.start_ms || end <= start {
            rest
        } else {
            seq![SignalPeriod { start_ms: start, end_ms: end, signal: dp.signal }] + rest
        }
    }
}

/// The Duet periods clipped to the office subnet periods, in order.
pub open spec fn clip_all(dps: Seq<SignalPeriod>, sps: Seq<SignalPeriod>) -> Seq<SignalPeriod>
    decreases dps.len(),
{
    if dps.len() == 0 {
        Seq::empty()
    } else {
        clip_all(dps.drop_last(), sps) + clip_one(dps.last(), sps)
    }
}

/// Clips each Duet period to the office subnet periods (sorted by start)
/// that overlap it.
pub fn clip_duet_to_office_subnets(
    duet_periods: &[SignalPeriod],
    office_subnet_periods: &[SignalPeriod],
) -> (r: Vec<SignalPeriod>)
    ensures
        r@ == clip_all(duet_periods@, office_subnet_periods@),
{
    let mut clipped: Vec<SignalPeriod> = Vec::new();
    let mut i: usize = 0;
    proof {
        assert(duet_periods@.subrange(0, 0) =~= Seq::<SignalPeriod>::empty());
    }
    while i < duet_periods.len()
        invariant
            i <= duet_periods@.len(),
            clipped@ == clip_all(duet_periods@.subrange(0, i as int), office_subnet_periods@),
        decreases duet_periods@.len() - i,
    {
        let dp = &duet_periods[i];
        let ghost before = clipped@;
        let ghost sps = office_subnet_periods@;
        let mut j: usize = 0;
        proof {
            assert(sps.subrange(0, sps.len() as int) =~= sps);
            assert(before + clip_one(*dp, sps) =~= before + clip_one(*dp, sps.subrange(0, sps.len() as int)));
        }
        while j < office_subnet_periods.len()
            invariant
                j <= sps.len(),
                sps == office_subnet_periods@,
                before + clip_one(*dp, sps) == clipped@ + clip_one(
                    *dp,
                    sps.subrange(j as int, sps.len() as int),
                ),
            decreases sps.len() - j,
        {
            let sp = &office_subnet_periods[j];
            let ghost tail = sps.subrange(j as int, sps.len() as int);
            proof {
                assert(tail.drop_first() =~= sps.subrange(j + 1, sps.len() as int));
                assert(tail[0] == *sp);
            }
            if sp.start_ms >= dp.end_ms {
                proof {
                    assert(clip_one(*dp, tail) =~= Seq::<SignalPeriod>::empty());
                    assert(clip_one(*dp, sps.subrange(sps.len() as int, sps.len() as int))
                        =~= Seq::<SignalPeriod>::empty());
                }
                j = office_subnet_periods.len();
            } else {
                if sp.end_ms > dp.start_ms {
                    let start = if dp.start_ms >= sp.start_ms {
                        dp.start_ms
                    } else {
                        sp.start_ms
                    };
                    let end = if dp.end_ms <= sp.end_ms {
                        dp.end_ms
                    } else {
                        sp.end_ms
                    };
                    if end > start {
                        let piece = SignalPeriod {
                            start_ms: start,
                            end_ms: end,
                            signal: dp.signal.clone(),
                        };
                        proof {
                            assert(piece == SignalPeriod {
                                start_ms: start,
                                end_ms: end,
                                signal: dp.signal,
                            });
                            assert(clipped@.push(piece) + clip_one(*dp, tail.drop_first())
                                =~= clipped@ + clip_one(*dp, tail));
                        }
                        clipped.push(piece);
                    }
                }
                j = j + 1;
            }
        }
        proof {
            assert(sps.subrange(sps.len() as int, sps.len() as int) =~= Seq::<SignalPeriod>::empty());
            assert(clipped@ =~= before + clip_one(*dp, sps));
            assert(duet_periods@.subrange(0, i + 1).drop_last() =~= duet_periods@.subrange(
                0,
                i as int,
            ));
        }
        i = i + 1;
    }
    proof {
        assert(duet_periods@.subrange(0, duet_periods@.len() as int) =~= duet_periods@);
    }
    clipped
}

/// The pair `(x, y)` in the order `order_signals` gives it.
pub open spec fn ordered_pair(x: Seq<char>, y: Seq<char>) -> (Seq<char>, Seq<char>) {
    if signal_first(x, y) {
        (x, y)
    } else {
        (y, x)
    }
}

/// The order of a pair of signals does not depend on the order they come
/// in, so each pair has a single key.
pub proof fn law_order_signals_symmetric(x: Seq<char>, y: Seq<char>)
    ensures
        ordered_pair(x, y) == ordered_pair(y, x),
{
    crate::text::lemma_lex_lt_total(x, y);
    if x == y {
    } else if is_duet(x) == is_duet(y) {
        assert(lex_lt(x, y) || lex_lt(y, x));
    }
}

// ---------------------------------------------------------------------------
// Subnet periods
// ---------------------------------------------------------------------------

/// A signal period as plain values.
pub open spec fn period_view(p: SignalPeriod) -> (i64, i64, Seq<char>) {
    (p.start_ms, p.end_ms, p.signal@)
}

/// The subnet periods of the first `n` ip events of `rows` (time and subnet,
/// in time order): each event with a subnet lasts until the next event, the
/// last one until `now_ms`.
pub open spec fn subnet_periods_upto(rows: Seq<(i64, String)>, n: nat, now_ms: i64) -> Seq<
    (i64, i64, Seq<char>),
>
    decreases n,
{
    if n == 0 {
        Seq::empty()
    } else {
        let k = n - 1;
        let rest = subnet_periods_upto(rows, k as nat, now_ms);
        if rows[k].1@.len() == 0 {
            rest
        } else {
            let end = if k + 1 < rows.len() {
                rows[k + 1].0
            } else {
                now_ms
            };
            rest.push((rows[k].0, end, "subnet:"@ + rows[k].1@))
        }
    }
}

/// The subnet periods of the ip events `rows`, the last one open until
/// `now_ms`.
pub fn subnet_periods_from(rows: &[(i64, String)], now_ms: i64) -> (r: Vec<SignalPeriod>)
    ensures
        r@.map_values(|p: SignalPeriod| period_view(p)) == subnet_periods_upto(
            rows@,
            rows@.len(),
            now_ms,
        ),
{
    let mut periods: Vec<SignalPeriod> = Vec::new();
    let mut i: usize = 0;
    while i < rows.len()
        invariant
            i <= rows@.len(),
            periods@.map_values(|p: SignalPeriod| period_view(p)) == subnet_periods_upto(
                rows@,
                i as nat,
                now_ms,
            ),
        decreases rows@.len() - i,
    {
        if rows[i].1.unicode_len() > 0 {
            let end_ms: i64 = if i + 1 < rows.len() {
                rows[i + 1].0
            } else {
                now_ms
            };
            let mut signal = to_owned_string("subnet:");
            crate::render::append(&mut signal, rows[i].1.as_str());
            let p = SignalPeriod { start_ms: rows[i].0, end_ms, signal };
            proof {
                assert(periods@.push(p).map_values(|p: SignalPeriod| period_view(p)) =~= periods@.map_values(
                    |p: SignalPeriod| period_view(p),
                ).push(period_view(p)));
            }
            periods.push(p);
        }
        i = i + 1;
    }
    periods
}


/// The Duet periods of the first `n` anchors of `anchors` (time and anchor
/// location, in time order): each anchor lasts until the next one, the
/// last one until `now_ms`.
pub open spec fn duet_periods_upto(anchors: Seq<(i64, String)>, n: nat, now_ms: i64) -> Seq<
    (i64, i64, Seq<char>),
>
    decreases n,
{
    if n == 0 {
        Seq::empty()
    } else {
        let k = n - 1;
        let end = if k + 1 < anchors.len() {
            anchors[k + 1].0
        } else {
            now_ms
        };
        duet_periods_upto(anchors, k as nat, now_ms).push((anchors[k].0, end, "duet:"@ + anchors[k].1@))
    }
}

/// The Duet periods of the non-home anchors `anchors` (start time and
/// location, in time order), the last one open until `now_ms`.
pub fn duet_periods_from(anchors: &[(i64, String)], now_ms: i64) -> (r: Vec<SignalPeriod>)
    ensures
        r@.map_values(|p: SignalPeriod| period_view(p)) == duet_periods_upto(
            anchors@,
            anchors@.len(),
            now_ms,
        ),
{
    let mut periods: Vec<SignalPeriod> = Vec::new();
    let mut i: usize = 0;
    while i < anchors.len()
        invariant
            i <= anchors@.len(),
            periods@.map_values(|p: SignalPeriod| period_view(p)) == duet_periods_upto(
                anchors@,
                i as nat,
                now_ms,
            ),
        decreases anchors@.len() - i,
    {
        let end_ms: i64 = if i + 1 < anchors.len() {
            anchors[i + 1].0
        } else {
            now_ms
        };
        let mut signal = to_owned_string("duet:");
        crate::render::append(&mut signal, anchors[i].1.as_str());
        let p = SignalPeriod { start_ms: anchors[i].0, end_ms, signal };
        proof {
            assert(periods@.push(p).map_values(|p: SignalPeriod| period_view(p)) =~= periods@.map_values(
                |p: SignalPeriod| period_view(p),
            ).push(period_view(p)));
        }
        periods.push(p);
        i = i + 1;
    }
    periods
}

// ---------------------------------------------------------------------------
// Co-occurrences
// ---------------------------------------------------------------------------

/// Two signals seen together for `overlap_ms`, last at `last_seen_ms`.
#[derive(Debug, Clone)]
pub struct CoOccurrence {
    pub signal_a: String,
    pub signal_b: String,
    pub overlap_ms: i64,
    pub last_seen_ms: i64,
}

pub open spec fn co_view(c: CoOccurrence) -> (Seq<char>, Seq<char>, i64, i64) {
    (c.signal_a@, c.signal_b@, c.overlap_ms, c.last_seen_ms)
}

/// The Duet periods that end after `since_ms`, started no earlier than it.
pub open spec fn fresh_periods(dps: Seq<SignalPeriod>, since_ms: i64) -> Seq<SignalPeriod>
    decreases dps.len(),
{
    if dps.len() == 0 {
        Seq::empty()
    } else {
        let rest = fresh_periods(dps.drop_last(), since_ms);
        let p = dps.last();
        if p.end_ms > since_ms {
            rest.push(
                if since_ms > p.start_ms {
                    SignalPeriod { start_ms: since_ms, ..p }
                } else {
                    p
                },
            )
        } else {
            rest
        }
    }
}

/// The first subnet period from `si` on that ends after `start`.
pub open spec fn skip_ended(sps: Seq<SignalPeriod>, si: int, start: i64) -> int
    decreases sps.len() - si,
{
    if 0 <= si < sps.len() && sps[si].end_ms <= start {
        skip_ended(sps, si + 1, start)
    } else {
        si
    }
}

/// The overlaps of Duet period `dp` with the subnet periods from `j` on, up
/// to the first one that starts after `dp` ends; those of less than
/// `min_overlap_ms` (or none) are left out.
pub open spec fn overlaps_from(
    dp: SignalPeriod,
    sps: Seq<SignalPeriod>,
    j: int,
    min_overlap_ms: i64,
) -> Seq<(Seq<char>, Seq<char>, i64, i64)>
    decreases sps.len() - j,
{
    if j < 0 || j >= sps.len() || sps[j].start_ms >= dp.end_ms {
        Seq::empty()
    } else {
        let rest = overlaps_from(dp, sps, j + 1, min_overlap_ms);
        let sp = sps[j];
        let start = if dp.start_ms >= sp.start_ms {
            dp.start_ms
        } else {
            sp.start_ms
        };
        let end = if dp.end_ms <= sp.end_ms {
            dp.end_ms
        } else {
            sp.end_ms
        };
        let overlap = end - start;
        if overlap <= 0 || overlap < min_overlap_ms {
            rest
        } else {
            let (a, b) = ordered_pair(dp.signal@, sp.signal@);
            seq![(a, b, overlap as i64, end)] + rest
        }
    }
}

/// The co-occurrences of the Duet periods `dps[k..]` with the subnet periods,
/// scanning the subnet periods from `si` on.
pub open spec fn overlaps_all(
    dps: Seq<SignalPeriod>,
    k: int,
    sps: Seq<SignalPeriod>,
    si: int,
    min_overlap_ms: i64,
) -> Seq<(Seq<char>, Seq<char>, i64, i64)>
    decreases dps.len() - k,
{
    if k < 0 || k >= dps.len() {
        Seq::empty()
    } else {
        let si2 = skip_ended(sps, si, dps[k].start_ms);
        overlaps_from(dps[k], sps, si2, min_overlap_ms) + overlaps_all(
            dps,
            k + 1,
            sps,
            si2,
            min_overlap_ms,
        )
    }
}

/// The co-occurrences of the Duet periods with the subnet periods (sorted by
/// time) since `since_ms`.
pub open spec fn spec_co_occurrences(
    duet_periods: Seq<SignalPeriod>,
    subnet_periods: Seq<SignalPeriod>,
    since_ms: i64,
    min_overlap_ms: i64,
) -> Seq<(Seq<char>, Seq<char>, i64, i64)> {
    if duet_periods.len() == 0 || subnet_periods.len() == 0 {
        Seq::empty()
    } else {
        overlaps_all(fresh_periods(duet_periods, since_ms), 0, subnet_periods, 0, min_overlap_ms)
    }
}

/// Every time of the periods can be subtracted from another.
pub open spec fn periods_times_ok(ps: Seq<SignalPeriod>) -> bool {
    forall|i: int|
        0 <= i < ps.len() ==> crate::types::time_ok(#[trigger] ps[i].start_ms as int)
            && crate::types::time_ok(ps[i].end_ms as int)
}

fn fresh_of(dps: &[SignalPeriod], since_ms: i64) -> (r: Vec<SignalPeriod>)
    requires
        periods_times_ok(dps@),
        crate::types::time_ok(since_ms as int),
    ensures
        r@ == fresh_periods(dps@, since_ms),
        periods_times_ok(r@),
{
    let mut out: Vec<SignalPeriod> = Vec::new();
    let mut i: usize = 0;
    proof {
        assert(dps@.subrange(0, 0) =~= Seq::<SignalPeriod>::empty());
    }
    while i < dps.len()
        invariant
            i <= dps@.len(),
            periods_times_ok(dps@),
            crate::types::time_ok(since_ms as int),
            out@ == fresh_periods(dps@.subrange(0, i as int), since_ms),
            periods_times_ok(out@),
        decreases dps@.len() - i,
    {
        proof {
            assert(dps@.subrange(0, i + 1).drop_last() =~= dps@.subrange(0, i as int));
            assert(crate::types::time_ok(dps@[i as int].start_ms as int));
        }
        let p = &dps[i];
        if p.end_ms > since_ms {
            let q = if since_ms > p.start_ms {
                SignalPeriod { start_ms: since_ms, end_ms: p.end_ms, signal: p.signal.clone() }
            } else {
                SignalPeriod { start_ms: p.start_ms, end_ms: p.end_ms, signal: p.signal.clone() }
            };
            proof {
                assert(q == if since_ms > p.start_ms {
                    SignalPeriod { start_ms: since_ms, ..*p }
                } else {
                    *p
                });
                assert forall|k: int| 0 <= k < out@.push(q).len() implies crate::types::time_ok(
                    #[trigger] out@.push(q)[k].start_ms as int,
                ) && crate::types::time_ok(out@.push(q)[k].end_ms as int) by {
                    if k < out@.len() {
                        assert(out@.push(q)[k] == out@[k]);
                    }
                }
            }
            out.push(q);
        }
        i = i + 1;
    }
    proof {
        assert(dps@.subrange(0, dps@.len() as int) =~= dps@);
    }
    out
}

/// The pairs of signals seen together: each Duet period (since `since_ms`)
/// against the subnet periods (sorted by time) it overlaps, the overlap in
/// milliseconds and the time it ended. Overlaps shorter than
/// `min_overlap_ms` are left out.
pub fn co_occurrences(
    duet_periods: &[SignalPeriod],
    subnet_periods: &[SignalPeriod],
    since_ms: i64,
    min_overlap_ms: i64,
) -> (r: Vec<CoOccurrence>)
    requires
        periods_times_ok(duet_periods@),
        periods_times_ok(subnet_periods@),
        crate::types::time_ok(since_ms as int),
    ensures
        r@.map_values(|c: CoOccurrence| co_view(c)) == spec_co_occurrences(
            duet_periods@,
            subnet_periods@,
            since_ms,
            min_overlap_ms,
        ),
{
    let mut pairs: Vec<CoOccurrence> = Vec::new();
    if duet_periods.len() == 0 || subnet_periods.len() == 0 {
        proof {
            assert(pairs@.map_values(|c: CoOccurrence| co_view(c)) =~= Seq::<
                (Seq<char>, Seq<char>, i64, i64),
            >::empty());
        }
        return pairs;
    }
    let fresh = fresh_of(duet_periods, since_ms);
    let ghost sps = subnet_periods@;
    let ghost total = overlaps_all(fresh@, 0, sps, 0, min_overlap_ms);
    let mut si: usize = 0;
    let mut k: usize = 0;
    proof {
        assert(pairs@.map_values(|c: CoOccurrence| co_view(c)) =~= Seq::<
            (Seq<char>, Seq<char>, i64, i64),
        >::empty());
    }
    while k < fresh.len()
        invariant
            k <= fresh@.len(),
            si <= sps.len(),
            sps == subnet_periods@,
            periods_times_ok(fresh@),
            periods_times_ok(sps),
            total == overlaps_all(fresh@, 0, sps, 0, min_overlap_ms),
            total == pairs@.map_values(|c: CoOccurrence| co_view(c)) + overlaps_all(
                fresh@,
                k as int,
                sps,
                si as int,
                min_overlap_ms,
            ),
        decreases fresh@.len() - k,
    {
        let dp = &fresh[k];
        let ghost si0 = si as int;
        while si < subnet_periods.len() && subnet_periods[si].end_ms <= dp.start_ms
            invariant
                si0 <= si <= sps.len(),
                sps == subnet_periods@,
                skip_ended(sps, si as int, dp.start_ms) == skip_ended(sps, si0, dp.start_ms),
            decreases sps.len() - si,
        {
            si = si + 1;
        }
        let ghost before = pairs@.map_values(|c: CoOccurrence| co_view(c));
        let mut j: usize = si;
        proof {
            assert(crate::types::time_ok(fresh@[k as int].start_ms as int));
        }
        loop
            invariant
                si <= j <= sps.len(),
                sps == subnet_periods@,
                periods_times_ok(sps),
                crate::types::time_ok(dp.start_ms as int),
                crate::types::time_ok(dp.end_ms as int),
                before + overlaps_from(*dp, sps, si as int, min_overlap_ms) == pairs@.map_values(
                    |c: CoOccurrence| co_view(c),
                ) + overlaps_from(*dp, sps, j as int, min_overlap_ms),
            ensures
                before + overlaps_from(*dp, sps, si as int, min_overlap_ms) == pairs@.map_values(
                    |c: CoOccurrence| co_view(c),
                ),
            decreases sps.len() - j,
        {
            if j >= subnet_periods.len() {
                proof {
                    assert(overlaps_from(*dp, sps, j as int, min_overlap_ms) =~= Seq::<
                        (Seq<char>, Seq<char>, i64, i64),
                    >::empty());
                }
                break;
            }
            let sp = &subnet_periods[j];
            if sp.start_ms >= dp.end_ms {
                proof {
                    assert(overlaps_from(*dp, sps, j as int, min_overlap_ms) =~= Seq::<
                        (Seq<char>, Seq<char>, i64, i64),
                    >::empty());
                }
                break;
            }
            proof {
                assert(crate::types::time_ok(sps[j as int].start_ms as int));
            }
            let start = if dp.start_ms >= sp.start_ms {
                dp.start_ms
            } else {
                sp.start_ms
            };
            let end = if dp.end_ms <= sp.end_ms {
                dp.end_ms
            } else {
                sp.end_ms
            };
            let overlap: i64 = end - start;
            if !(overlap <= 0 || overlap < min_overlap_ms) {
                let pair = order_signals(dp.signal.as_str(), sp.signal.as_str());
                let a = pair[0].clone();
                let b = pair[1].clone();
                let c = CoOccurrence { signal_a: a, signal_b: b, overlap_ms: overlap, last_seen_ms: end };
                proof {
                    assert(pairs@.push(c).map_values(|c: CoOccurrence| co_view(c)) =~= pairs@.map_values(
                        |c: CoOccurrence| co_view(c),
                    ).push(co_view(c)));
                    assert(co_view(c) == (
                        ordered_pair(dp.signal@, sp.signal@).0,
                        ordered_pair(dp.signal@, sp.signal@).1,
                        overlap,
                        end,
                    ));
                }
                pairs.push(c);
            }
            j = j + 1;
        }
        proof {
            assert(overlaps_all(fresh@, k as int, sps, si0, min_overlap_ms) == overlaps_from(
                *dp,
                sps,
                si as int,
                min_overlap_ms,
            ) + overlaps_all(fresh@, k + 1, sps, si as int, min_overlap_ms));
        }
        k = k + 1;
    }
    proof {
        assert(overlaps_all(fresh@, k as int, sps, si as int, min_overlap_ms) =~= Seq::<
            (Seq<char>, Seq<char>, i64, i64),
        >::empty());
    }
    pairs
}

} // verus!

//! The location data of the requested days: the office subnet periods, the
//! location blocks named by their cluster representative, and the list of
//! the other office locations.
use vstd::prelude::*;

use crate::location::{cluster_at, has_prefix, is_duet, starts_with, SignalPeriod};
use crate::report::{contains_string, opt_str_view, string_views};
use crate::sort::{lemma_stable_order_len, lemma_stable_order_sorted, stable_order, stable_order_of};
use crate::text::{
    chars_of, lemma_lex_lt_total, lemma_lex_lt_transitive, lex_lt, push_char, str_lt, to_owned_string,
};
use crate::timeline::group_of;
use crate::types::{LocationGroups, RtoBlock, RtoData};

verus! {

// ---------------------------------------------------------------------------
// Office subnet periods
// ---------------------------------------------------------------------------

/// The subnet a `subnet:` signal names, or the empty name for another
/// signal.
pub open spec fn subnet_name(signal: Seq<char>) -> Seq<char> {
    if has_prefix(signal, "subnet:"@) {
        signal.subrange("subnet:"@.len() as int, signal.len() as int)
    } else {
        Seq::empty()
    }
}

/// The subnet a `subnet:` signal names, or the empty name for another
/// signal.
pub fn subnet_of(signal: &str) -> (r: String)
    ensures
        r@ == subnet_name(signal@),
{
    proof {
        reveal_strlit("subnet:");
    }
    let mut out = String::new();
    if !starts_with(signal, "subnet:") {
        return out;
    }
    let cs = chars_of(signal);
    let mut i: usize = 7;
    proof {
        assert(out@ =~= cs@.subrange(7, 7));
    }
    while i < cs.len()
        invariant
            7 <= i <= cs@.len(),
            cs@ == signal@,
            out@ =~= cs@.subrange(7, i as int),
        decreases cs@.len() - i,
    {
        push_char(&mut out, cs[i]);
        proof {
            assert(out@ =~= cs@.subrange(7, i + 1));
        }
        i = i + 1;
    }
    out
}

/// A period lies on an office subnet.
pub open spec fn on_office_subnet(office: Seq<Seq<char>>) -> spec_fn(SignalPeriod) -> bool {
    |p: SignalPeriod| office.contains(subnet_name(p.signal@))
}

/// The periods of `all` on one of the office subnets, in their order.
pub fn office_subnet_periods(all: &[SignalPeriod], office_subnets: &Vec<String>) -> (r: Vec<
    SignalPeriod,
>)
    ensures
        r@ == all@.filter(on_office_subnet(string_views(office_subnets@))),
{
    let ghost pred = on_office_subnet(string_views(office_subnets@));
    let mut out: Vec<SignalPeriod> = Vec::new();
    let mut i: usize = 0;
    proof {
        assert(all@.subrange(0, 0) =~= Seq::<SignalPeriod>::empty());
        reveal_with_fuel(Seq::<SignalPeriod>::filter, 1);
    }
    while i < all.len()
        invariant
            i <= all@.len(),
            pred == on_office_subnet(string_views(office_subnets@)),
            out@ == all@.subrange(0, i as int).filter(pred),
        decreases all@.len() - i,
    {
        proof {
            reveal_with_fuel(Seq::<SignalPeriod>::filter, 1);
            assert(all@.subrange(0, i + 1).drop_last() =~= all@.subrange(0, i as int));
        }
        let subnet = subnet_of(all[i].signal.as_str());
        if contains_string(office_subnets, &subnet) {
            out.push(
                SignalPeriod {
                    start_ms: all[i].start_ms,
                    end_ms: all[i].end_ms,
                    signal: all[i].signal.clone(),
                },
            );
        }
        i = i + 1;
    }
    proof {
        assert(all@.subrange(0, all@.len() as int) =~= all@);
    }
    out
}

// ---------------------------------------------------------------------------
// Location blocks
// ---------------------------------------------------------------------------

/// A block as plain values: start, end and location.
pub open spec fn block_view(b: RtoBlock) -> (i64, i64, Seq<char>) {
    (b.first_ms, b.last_ms, b.location@)
}

/// The block of a stored evidence row (first, last, location), located by
/// the representative of the location's cluster.
pub open spec fn evidence_block(row: (i64, i64, String), clusters: Seq<(String, String)>) -> (
    i64,
    i64,
    Seq<char>,
) {
    (row.0, row.1, group_of(clusters, row.2@))
}

/// The blocks of the stored evidence rows.
pub fn evidence_blocks(rows: &[(i64, i64, String)], clusters: &LocationGroups) -> (r: Vec<
    RtoBlock,
>)
    ensures
        r@.len() == rows@.len(),
        forall|i: int|
            0 <= i < rows@.len() ==> #[trigger] block_view(r@[i]) == evidence_block(
                rows@[i],
                clusters.pairs@,
            ),
{
    let mut out: Vec<RtoBlock> = Vec::new();
    let mut i: usize = 0;
    while i < rows.len()
        invariant
            i <= rows@.len(),
            out@.len() == i,
            forall|j: int|
                0 <= j < i ==> #[trigger] block_view(out@[j]) == evidence_block(
                    rows@[j],
                    clusters.pairs@,
                ),
        decreases rows@.len() - i,
    {
        let loc = cluster_at(clusters, rows[i].2.as_str());
        out.push(
            RtoBlock { first_ms: rows[i].0, last_ms: rows[i].1, location: to_owned_string(loc) },
        );
        i = i + 1;
    }
    out
}

/// The block of a signal period, located by the representative of the
/// signal's cluster.
pub open spec fn period_block(p: SignalPeriod, clusters: Seq<(String, String)>) -> (
    i64,
    i64,
    Seq<char>,
) {
    (p.start_ms, p.end_ms, group_of(clusters, p.signal@))
}

/// The start times of the periods.
pub open spec fn period_starts(ps: Seq<SignalPeriod>) -> Seq<i64> {
    Seq::new(ps.len(), |i: int| ps[i].start_ms)
}

/// The blocks of the Duet periods and of the office subnet periods, by
/// start time (periods that start together keep their order, Duet periods
/// first).
pub fn period_blocks(duet: &[SignalPeriod], office: &[SignalPeriod], clusters: &LocationGroups) -> (r:
    Vec<RtoBlock>)
    requires
        duet@.len() + office@.len() <= usize::MAX,
    ensures
        r@.len() == (duet@ + office@).len(),
        forall|k: int|
            0 <= k < r@.len() ==> #[trigger] block_view(r@[k]) == period_block(
                (duet@ + office@)[stable_order(period_starts(duet@ + office@))[k] as int],
                clusters.pairs@,
            ),
{
    let ghost cat = duet@ + office@;
    let mut times: Vec<i64> = Vec::new();
    let mut i: usize = 0;
    while i < duet.len()
        invariant
            i <= duet@.len(),
            cat == duet@ + office@,
            times@ =~= period_starts(cat).subrange(0, i as int),
        decreases duet@.len() - i,
    {
        times.push(duet[i].start_ms);
        i = i + 1;
    }
    let mut i: usize = 0;
    while i < office.len()
        invariant
            i <= office@.len(),
            cat == duet@ + office@,
            duet@.len() + office@.len() <= usize::MAX,
            times@ =~= period_starts(cat).subrange(0, duet@.len() + i),
        decreases office@.len() - i,
    {
        times.push(office[i].start_ms);
        i = i + 1;
    }
    proof {
        assert(times@ =~= period_starts(cat));
        lemma_stable_order_len(times@);
        lemma_stable_order_sorted(times@);
    }
    let order = stable_order_of(&times);
    let mut out: Vec<RtoBlock> = Vec::new();
    let mut k: usize = 0;
    while k < order.len()
        invariant
            k <= order@.len(),
            cat == duet@ + office@,
            order@ == stable_order(period_starts(cat)),
            order@.len() == cat.len(),
            forall|j: int| 0 <= j < order@.len() ==> order@[j] < cat.len(),
            out@.len() == k,
            forall|j: int|
                0 <= j < k ==> #[trigger] block_view(out@[j]) == period_block(
                    cat[order@[j] as int],
                    clusters.pairs@,
                ),
        decreases order@.len() - k,
    {
        let j = order[k];
        let p = if j < duet.len() {
            &duet[j]
        } else {
            &office[j - duet.len()]
        };
        assert(*p == cat[j as int]);
        let loc = cluster_at(clusters, p.signal.as_str());
        out.push(RtoBlock { first_ms: p.start_ms, last_ms: p.end_ms, location: to_owned_string(loc) });
        k = k + 1;
    }
    out
}

// ---------------------------------------------------------------------------
// The other office locations
// ---------------------------------------------------------------------------

/// Each string comes strictly before the next in lexicographic order (so
/// none is listed twice).
pub open spec fn strictly_sorted(s: Seq<Seq<char>>) -> bool {
    forall|i: int, j: int| 0 <= i < j < s.len() ==> lex_lt(#[trigger] s[i], #[trigger] s[j])
}

/// Adds `x` to the strictly sorted list `out` unless it is listed already.
fn insert_sorted(out: &mut Vec<String>, x: &String)
    requires
        strictly_sorted(string_views(old(out)@)),
    ensures
        strictly_sorted(string_views(final(out)@)),
        forall|y: Seq<char>|
            #[trigger] string_views(final(out)@).contains(y) == (string_views(old(out)@).contains(y)
                || y == x@),
{
    let ghost before = string_views(out@);
    let mut p: usize = 0;
    while p < out.len()
        invariant
            p <= out@.len(),
            string_views(out@) == before,
            forall|j: int| 0 <= j < p ==> lex_lt(#[trigger] before[j], x@),
        ensures
            p <= out@.len(),
            string_views(out@) == before,
            forall|j: int| 0 <= j < p ==> lex_lt(#[trigger] before[j], x@),
            p < out@.len() ==> !lex_lt(before[p as int], x@),
        decreases out@.len() - p,
    {
        if !str_lt(out[p].as_str(), x.as_str()) {
            break;
        }
        p = p + 1;
    }
    if p < out.len() && out[p] == *x {
        return;
    }
    out.insert(p, x.clone());
    proof {
        let after = string_views(out@);
        assert(after =~= before.insert(p as int, x@));
        if p < before.len() {
            lemma_lex_lt_total(before[p as int], x@);
        }
        assert forall|i: int, j: int| 0 <= i < j < after.len() implies lex_lt(
            #[trigger] after[i],
            #[trigger] after[j],
        ) by {
            if j < p {
            } else if j == p {
            } else if i < p {
                lemma_lex_lt_transitive(before[i], x@, before[p as int]);
                if j - 1 > p {
                    lemma_lex_lt_transitive(before[i], before[p as int], before[j - 1]);
                }
            } else if i == p {
                if j - 1 > p {
                    lemma_lex_lt_transitive(x@, before[p as int], before[j - 1]);
                }
            } else {
            }
        }
        assert forall|y: Seq<char>| #[trigger] after.contains(y) == (before.contains(y) || y == x@) by {
            if after.contains(y) {
                let i = choose|i: int| 0 <= i < after.len() && #[trigger] after[i] == y;
                if i < p {
                    assert(before[i] == y);
                } else if i > p {
                    assert(before[i - 1] == y);
                }
            }
            if before.contains(y) {
                let i = choose|i: int| 0 <= i < before.len() && #[trigger] before[i] == y;
                if i < p {
                    assert(after[i] == y);
                } else {
                    assert(after[i + 1] == y);
                }
            }
            if y == x@ {
                assert(after[p as int] == y);
            }
        }
    }
}

/// The locations of the blocks.
pub open spec fn block_locations(bs: Seq<RtoBlock>) -> Seq<Seq<char>> {
    Seq::new(bs.len(), |i: int| bs[i].location@)
}

/// `ids` lists, in lexicographic order and each once, the Duet locations of
/// `locs` other than the dominant one.
pub open spec fn other_ids_ok(
    ids: Seq<Seq<char>>,
    locs: Seq<Seq<char>>,
    dominant: Option<Seq<char>>,
) -> bool {
    &&& strictly_sorted(ids)
    &&& forall|y: Seq<char>|
        #[trigger] ids.contains(y) == (locs.contains(y) && is_duet(y) && dominant != Some(y))
}

/// The Duet locations of the blocks other than the dominant one, in
/// lexicographic order, each once.
pub fn other_location_ids(blocks: &Vec<RtoBlock>, dominant: &Option<String>) -> (r: Vec<String>)
    ensures
        other_ids_ok(string_views(r@), block_locations(blocks@), opt_str_view(*dominant)),
{
    let ghost locs = block_locations(blocks@);
    let ghost d = opt_str_view(*dominant);
    let mut out: Vec<String> = Vec::new();
    let mut i: usize = 0;
    proof {
        reveal_strlit("duet:");
    }
    while i < blocks.len()
        invariant
            i <= blocks@.len(),
            locs == block_locations(blocks@),
            d == opt_str_view(*dominant),
            other_ids_ok(string_views(out@), locs.subrange(0, i as int), d),
        decreases blocks@.len() - i,
    {
        let ghost before = string_views(out@);
        let loc = &blocks[i].location;
        proof {
            assert(locs[i as int] == loc@);
            assert forall|y: Seq<char>| #[trigger] locs.subrange(0, i + 1).contains(y) == (
            locs.subrange(0, i as int).contains(y) || y == loc@) by {
                if locs.subrange(0, i + 1).contains(y) {
                    let j = choose|j: int| 0 <= j < i + 1 && #[trigger] locs.subrange(0, i + 1)[j] == y;
                    if j < i {
                        assert(locs.subrange(0, i as int)[j] == y);
                    }
                }
                if locs.subrange(0, i as int).contains(y) {
                    let j = choose|j: int| 0 <= j < i && #[trigger] locs.subrange(0, i as int)[j] == y;
                    assert(locs.subrange(0, i + 1)[j] == y);
                }
                if y == loc@ {
                    assert(locs.subrange(0, i + 1)[i as int] == y);
                }
            }
        }
        let is_dominant = match dominant {
            Some(dm) => *loc == *dm,
            None => false,
        };
        if starts_with(loc.as_str(), "duet:") && !is_dominant {
            insert_sorted(&mut out, loc);
        }
        i = i + 1;
    }
    proof {
        assert(locs.subrange(0, blocks@.len() as int) =~= locs);
    }
    out
}

/// The blocks of `a`, then those of `b`.
fn concat_blocks(a: &Vec<RtoBlock>, b: &Vec<RtoBlock>) -> (r: Vec<RtoBlock>)
    ensures
        block_locations(r@) == block_locations(a@) + block_locations(b@),
{
    let mut out: Vec<RtoBlock> = Vec::new();
    let mut i: usize = 0;
    while i < a.len()
        invariant
            i <= a@.len(),
            block_locations(out@) =~= block_locations(a@).subrange(0, i as int),
        decreases a@.len() - i,
    {
        let ghost prev = out@;
        out.push(RtoBlock { first_ms: a[i].first_ms, last_ms: a[i].last_ms, location: a[i].location.clone() });
        proof {
            assert(block_locations(out@) =~= block_locations(prev).push(a@[i as int].location@));
            assert(block_locations(a@).subrange(0, i + 1) =~= block_locations(a@).subrange(0, i as int).push(a@[i as int].location@));
        }
        i = i + 1;
    }
    let mut j: usize = 0;
    while j < b.len()
        invariant
            j <= b@.len(),
            block_locations(out@) =~= block_locations(a@) + block_locations(b@).subrange(0, j as int),
        decreases b@.len() - j,
    {
        let ghost prev = out@;
        out.push(RtoBlock { first_ms: b[j].first_ms, last_ms: b[j].last_ms, location: b[j].location.clone() });
        proof {
            assert(block_locations(out@) =~= block_locations(prev).push(b@[j as int].location@));
            assert(block_locations(b@).subrange(0, j + 1) =~= block_locations(b@).subrange(0, j as int).push(b@[j as int].location@));
        }
        j = j + 1;
    }
    proof {
        assert(block_locations(b@).subrange(0, b@.len() as int) =~= block_locations(b@));
    }
    out
}

/// The location data of the requested days: the blocks of the stored
/// evidence rows and of the Duet and office subnet periods (by start time),
/// each located by its cluster representative; the dominant location; and
/// the other Duet locations seen in those blocks, sorted.
pub fn rto_data_of(
    evidence: &[(i64, i64, String)],
    duet: &[SignalPeriod],
    office: &[SignalPeriod],
    clusters: &LocationGroups,
    dominant: Option<String>,
) -> (r: RtoData)
    requires
        duet@.len() + office@.len() <= usize::MAX,
    ensures
        r.blocks@.len() == evidence@.len(),
        forall|i: int|
            0 <= i < evidence@.len() ==> #[trigger] block_view(r.blocks@[i]) == evidence_block(
                evidence@[i],
                clusters.pairs@,
            ),
        r.all_periods@.len() == (duet@ + office@).len(),
        forall|k: int|
            0 <= k < r.all_periods@.len() ==> #[trigger] block_view(r.all_periods@[k])
                == period_block(
                (duet@ + office@)[stable_order(period_starts(duet@ + office@))[k] as int],
                clusters.pairs@,
            ),
        opt_str_view(r.dominant_id) == opt_str_view(dominant),
        other_ids_ok(
            string_views(r.other_ids@),
            block_locations(r.blocks@) + block_locations(r.all_periods@),
            opt_str_view(dominant),
        ),
{
    let blocks = evidence_blocks(evidence, clusters);
    let all_periods = period_blocks(duet, office, clusters);
    let seen = concat_blocks(&blocks, &all_periods);
    let other_ids = other_location_ids(&seen, &dominant);
    RtoData { blocks, all_periods, dominant_id: dominant, other_ids }
}

} // verus!

//! Stable ordering of timestamped items: items are ordered by time, and items
//! with equal times keep their relative order.
use vstd::prelude::*;
use vstd::multiset::Multiset;
use vstd::relations::{sorted_by, total_ordering};
use vstd::seq_lib::lemma_multiset_commutative;
use vstd::seq_lib::lemma_sorted_unique;

verus! {

broadcast use vstd::seq_lib::group_to_multiset_ensures;

/// Order on `(time, position)` keys: by time, then by position in the input.
pub open spec fn time_key_le(a: (i64, usize), b: (i64, usize)) -> bool {
    a.0 < b.0 || (a.0 == b.0 && a.1 <= b.1)
}

pub open spec fn time_key_order() -> spec_fn((i64, usize), (i64, usize)) -> bool {
    |a: (i64, usize), b: (i64, usize)| time_key_le(a, b)
}

pub proof fn lemma_time_key_total()
    ensures
        total_ordering(time_key_order()),
{
}

/// The `(time, position)` key of every element of `times`.
pub open spec fn keys_of(times: Seq<i64>) -> Seq<(i64, usize)> {
    Seq::new(times.len(), |i: int| (times[i], i as usize))
}

/// The positions of `times`, listed in stable time order.
pub open spec fn stable_order(times: Seq<i64>) -> Seq<usize> {
    keys_of(times).sort_by(time_key_order()).map_values(|k: (i64, usize)| k.1)
}

proof fn lemma_push_ms(s: Seq<(i64, usize)>, x: (i64, usize))
    ensures
        s.push(x).to_multiset() == s.to_multiset().insert(x),
{
}

proof fn lemma_split_first(s: Seq<(i64, usize)>, i: int)
    requires
        0 <= i < s.len(),
    ensures
        s.subrange(i, s.len() as int).to_multiset() == s.subrange(
            i + 1,
            s.len() as int,
        ).to_multiset().insert(s[i]),
{
    let a = s.subrange(i, s.len() as int);
    let b = s.subrange(i + 1, s.len() as int);
    assert(a =~= seq![s[i]] + b);
    lemma_multiset_commutative(seq![s[i]], b);
    assert(seq![s[i]] =~= Seq::<(i64, usize)>::empty().push(s[i]));
    lemma_push_ms(Seq::<(i64, usize)>::empty(), s[i]);
    assert(Seq::<(i64, usize)>::empty().to_multiset() =~= Multiset::empty());
}

fn merge_keys(left: Vec<(i64, usize)>, right: Vec<(i64, usize)>) -> (out: Vec<(i64, usize)>)
    requires
        sorted_by(left@, time_key_order()),
        sorted_by(right@, time_key_order()),
    ensures
        sorted_by(out@, time_key_order()),
        out@.to_multiset() == (left@ + right@).to_multiset(),
{
    proof {
        lemma_time_key_total();
        lemma_multiset_commutative(left@, right@);
        assert(left@.subrange(0, left@.len() as int) =~= left@);
        assert(right@.subrange(0, right@.len() as int) =~= right@);
    }
    let mut out: Vec<(i64, usize)> = Vec::new();
    let mut i: usize = 0;
    let mut j: usize = 0;
    while i < left.len() || j < right.len()
        invariant
            i <= left@.len(),
            j <= right@.len(),
            sorted_by(left@, time_key_order()),
            sorted_by(right@, time_key_order()),
            sorted_by(out@, time_key_order()),
            out@.len() == i + j,
            out@.len() > 0 && i < left@.len() ==> time_key_le(out@.last(), left@[i as int]),
            out@.len() > 0 && j < right@.len() ==> time_key_le(out@.last(), right@[j as int]),
            out@.to_multiset().add(left@.subrange(i as int, left@.len() as int).to_multiset()).add(
                right@.subrange(j as int, right@.len() as int).to_multiset(),
            ) == (left@ + right@).to_multiset(),
        decreases left@.len() + right@.len() - i - j,
    {
        let take_left = if i < left.len() && j < right.len() {
            let a = left[i];
            let b = right[j];
            a.0 < b.0 || (a.0 == b.0 && a.1 <= b.1)
        } else {
            i < left.len()
        };
        let ghost old_out = out@;
        if take_left {
            let x = left[i];
            proof {
                lemma_split_first(left@, i as int);
                lemma_push_ms(old_out, x);
            }
            out.push(x);
            i = i + 1;
            proof {
                assert forall|p: int, q: int| 0 <= p < q < out@.len() implies #[trigger] time_key_le(
                    out@[p],
                    out@[q],
                ) by {
                    if q < out@.len() - 1 {
                        assert(time_key_order()(old_out[p], old_out[q]));
                    } else if p < old_out.len() {
                        assert(time_key_order()(old_out[p], old_out.last()));
                    }
                }
                if i < left@.len() {
                    assert(time_key_order()(left@[i - 1], left@[i as int]));
                }
            }
        } else {
            let x = right[j];
            proof {
                lemma_split_first(right@, j as int);
                lemma_push_ms(old_out, x);
            }
            out.push(x);
            j = j + 1;
            proof {
                assert forall|p: int, q: int| 0 <= p < q < out@.len() implies #[trigger] time_key_le(
                    out@[p],
                    out@[q],
                ) by {
                    if q < out@.len() - 1 {
                        assert(time_key_order()(old_out[p], old_out[q]));
                    } else if p < old_out.len() {
                        assert(time_key_order()(old_out[p], old_out.last()));
                    }
                }
                if j < right@.len() {
                    assert(time_key_order()(right@[j - 1], right@[j as int]));
                }
            }
        }
    }
    proof {
        assert(left@.subrange(i as int, left@.len() as int) =~= Seq::<(i64, usize)>::empty());
        assert(right@.subrange(j as int, right@.len() as int) =~= Seq::<(i64, usize)>::empty());
    }
    out
}

fn sort_key_range(v: &Vec<(i64, usize)>, lo: usize, hi: usize) -> (out: Vec<(i64, usize)>)
    requires
        lo <= hi <= v@.len(),
    ensures
        sorted_by(out@, time_key_order()),
        out@.to_multiset() == v@.subrange(lo as int, hi as int).to_multiset(),
    decreases hi - lo,
{
    if hi - lo <= 1 {
        let mut out: Vec<(i64, usize)> = Vec::new();
        if hi - lo == 1 {
            out.push(v[lo]);
        }
        proof {
            assert(v@.subrange(lo as int, hi as int) =~= out@);
        }
        return out;
    }
    let mid = lo + (hi - lo) / 2;
    let left = sort_key_range(v, lo, mid);
    let right = sort_key_range(v, mid, hi);
    let out = merge_keys(left, right);
    proof {
        let l = v@.subrange(lo as int, mid as int);
        let r = v@.subrange(mid as int, hi as int);
        assert(v@.subrange(lo as int, hi as int) =~= l + r);
        lemma_multiset_commutative(l, r);
        lemma_multiset_commutative(left@, right@);
    }
    out
}

/// Sorts `(time, position)` keys in the order `time_key_order`.
pub fn sort_time_keys(v: &Vec<(i64, usize)>) -> (out: Vec<(i64, usize)>)
    ensures
        out@ == v@.sort_by(time_key_order()),
{
    let out = sort_key_range(v, 0, v.len());
    proof {
        lemma_time_key_total();
        assert(v@.subrange(0, v@.len() as int) =~= v@);
        v@.lemma_sort_by_ensures(time_key_order());
        lemma_sorted_unique(out@, v@.sort_by(time_key_order()), time_key_order());
    }
    out
}

/// The stable order lists every position once.
pub proof fn lemma_stable_order_len(times: Seq<i64>)
    ensures
        stable_order(times).len() == times.len(),
{
    lemma_time_key_total();
    keys_of(times).lemma_sort_by_ensures(time_key_order());
    assert(keys_of(times).to_multiset().len() == keys_of(times).len());
    assert(keys_of(times).sort_by(time_key_order()).to_multiset().len() == keys_of(times).sort_by(
        time_key_order(),
    ).len());
}

/// Listing positions in stable order lists their times in non-decreasing order,
/// and every listed position is a position of `times`.
pub proof fn lemma_stable_order_sorted(times: Seq<i64>)
    requires
        times.len() <= usize::MAX,
    ensures
        forall|k: int|
            0 <= k < stable_order(times).len() ==> #[trigger] stable_order(times)[k] < times.len(),
        forall|i: int, j: int|
            0 <= i <= j < stable_order(times).len() ==> times[stable_order(times)[i] as int]
                <= times[stable_order(times)[j] as int],
{
    lemma_time_key_total();
    let ks = keys_of(times);
    let srt = ks.sort_by(time_key_order());
    ks.lemma_sort_by_ensures(time_key_order());
    assert forall|k: int| 0 <= k < srt.len() implies srt[k].1 < times.len() && srt[k].0
        == times[srt[k].1 as int] by {
        assert(srt.contains(srt[k]));
        assert(ks.contains(srt[k]));
        let i = choose|i: int| 0 <= i < ks.len() && ks[i] == srt[k];
        assert(ks[i] == (times[i], i as usize));
        assert((i as usize) as int == i);
    }
    assert forall|i: int, j: int| 0 <= i <= j < srt.len() implies srt[i].0 <= srt[j].0 by {
        if i < j {
            assert(time_key_order()(srt[i], srt[j]));
        }
    }
}

/// Lists the positions of `times` in stable time order: by time, and for
/// equal times by position.
pub fn stable_order_of(times: &Vec<i64>) -> (order: Vec<usize>)
    ensures
        order@ == stable_order(times@),
        forall|k: int| 0 <= k < order@.len() ==> order@[k] < times@.len(),
{
    let mut keys: Vec<(i64, usize)> = Vec::new();
    let mut i: usize = 0;
    while i < times.len()
        invariant
            i <= times@.len(),
            keys@ =~= keys_of(times@).subrange(0, i as int),
        decreases times@.len() - i,
    {
        keys.push((times[i], i));
        i = i + 1;
    }
    proof {
        assert(keys@ =~= keys_of(times@));
    }
    let sorted = sort_time_keys(&keys);
    let mut order: Vec<usize> = Vec::new();
    let mut k: usize = 0;
    while k < sorted.len()
        invariant
            k <= sorted@.len(),
            sorted@ == keys_of(times@).sort_by(time_key_order()),
            order@ =~= sorted@.subrange(0, k as int).map_values(|p: (i64, usize)| p.1),
        decreases sorted@.len() - k,
    {
        order.push(sorted[k].1);
        k = k + 1;
    }
    proof {
        assert(sorted@.subrange(0, sorted@.len() as int) =~= sorted@);
        lemma_time_key_total();
        keys_of(times@).lemma_sort_by_ensures(time_key_order());
        assert forall|k: int| 0 <= k < order@.len() implies order@[k] < times@.len() by {
            let x = sorted@[k];
            assert(sorted@.contains(x));
            assert(keys_of(times@).contains(x));
            let i = choose|i: int| 0 <= i < keys_of(times@).len() && keys_of(times@)[i] == x;
        }
    }
    order
}


/// The sorted keys of `times` list each key of `times` exactly once, in
/// strictly increasing order.
pub proof fn lemma_sorted_keys(times: Seq<i64>)
    requires
        times.len() <= usize::MAX,
    ensures
        sorted_by(keys_of(times).sort_by(time_key_order()), time_key_order()),
        keys_of(times).sort_by(time_key_order()).no_duplicates(),
        forall|x: (i64, usize)|
            #[trigger] keys_of(times).sort_by(time_key_order()).contains(x) <==> ((x.1 as int)
                < times.len() && x.0 == times[x.1 as int]),
{
    lemma_time_key_total();
    let ks = keys_of(times);
    let srt = ks.sort_by(time_key_order());
    ks.lemma_sort_by_ensures(time_key_order());
    assert(ks.no_duplicates()) by {
        assert forall|i: int, j: int| 0 <= i < ks.len() && 0 <= j < ks.len() && i != j implies ks[i]
            != ks[j] by {
            assert(ks[i].1 == i as usize && ks[j].1 == j as usize);
        }
    }
    ks.lemma_multiset_has_no_duplicates();
    assert forall|x: (i64, usize)| srt.to_multiset().contains(x) implies srt.to_multiset().count(x)
        == 1 by {
        assert(ks.to_multiset().contains(x));
    }
    srt.lemma_multiset_has_no_duplicates_conv();
    assert forall|x: (i64, usize)| #[trigger] srt.contains(x) <==> ((x.1 as int) < times.len()
        && x.0 == times[x.1 as int]) by {
        assert(srt.contains(x) <==> srt.to_multiset().count(x) > 0);
        assert(ks.contains(x) <==> ks.to_multiset().count(x) > 0);
        if (x.1 as int) < times.len() && x.0 == times[x.1 as int] {
            assert(ks[x.1 as int] == x);
        }
        if ks.contains(x) {
            let i = choose|i: int| 0 <= i < ks.len() && ks[i] == x;
            assert((i as usize) as int == i);
        }
    }
}

/// Keeping part of a sorted sequence without repeats keeps it sorted and
/// without repeats.
pub proof fn lemma_filter_sorted<A>(s: Seq<A>, le: spec_fn(A, A) -> bool, q: spec_fn(A) -> bool)
    requires
        sorted_by(s, le),
        s.no_duplicates(),
    ensures
        sorted_by(s.filter(q), le),
        s.filter(q).no_duplicates(),
    decreases s.len(),
{
    reveal(Seq::filter);
    if s.len() > 0 {
        let d = s.drop_last();
        assert(sorted_by(d, le)) by {
            assert forall|i: int, j: int| 0 <= i < j < d.len() implies #[trigger] le(d[i], d[j]) by {
                assert(d[i] == s[i] && d[j] == s[j]);
            }
        }
        assert(d.no_duplicates()) by {
            assert forall|i: int, j: int| 0 <= i < d.len() && 0 <= j < d.len() && i != j implies d[i]
                != d[j] by {
                assert(d[i] == s[i] && d[j] == s[j]);
            }
        }
        lemma_filter_sorted(d, le, q);
        let sub = d.filter(q);
        if q(s.last()) {
            let out = sub.push(s.last());
            assert(s.filter(q) == out);
            assert forall|i: int| 0 <= i < sub.len() implies le(#[trigger] sub[i], s.last()) && sub[i]
                != s.last() by {
                assert(sub.contains(sub[i]));
                d.lemma_filter_contains_rev(q, sub[i]);
                let k = choose|k: int| 0 <= k < d.len() && d[k] == sub[i];
                assert(d[k] == s[k]);
                assert(le(s[k], s[s.len() - 1]));
            }
            assert forall|i: int, j: int| 0 <= i < j < out.len() implies #[trigger] le(out[i], out[j]) by {
                if j < sub.len() {
                    assert(out[i] == sub[i] && out[j] == sub[j]);
                } else {
                    assert(out[i] == sub[i]);
                }
            }
            assert forall|i: int, j: int| 0 <= i < out.len() && 0 <= j < out.len() && i != j implies out[i]
                != out[j] by {
                if i < sub.len() && j < sub.len() {
                    assert(out[i] == sub[i] && out[j] == sub[j]);
                } else if i < sub.len() {
                    assert(out[i] == sub[i]);
                } else {
                    assert(out[j] == sub[j]);
                }
            }
        } else {
            assert(s.filter(q) == sub);
        }
    }
}

/// Two sorted sequences without repeats that hold the same elements are equal,
/// under a total order.
pub proof fn lemma_sorted_same_elements<A>(x: Seq<A>, y: Seq<A>, le: spec_fn(A, A) -> bool)
    requires
        total_ordering(le),
        sorted_by(x, le),
        sorted_by(y, le),
        x.no_duplicates(),
        y.no_duplicates(),
        forall|a: A| x.contains(a) <==> y.contains(a),
    ensures
        x == y,
{
    x.lemma_multiset_has_no_duplicates();
    y.lemma_multiset_has_no_duplicates();
    assert forall|a: A| x.to_multiset().count(a) == y.to_multiset().count(a) by {
        assert(x.contains(a) <==> x.to_multiset().count(a) > 0);
        assert(y.contains(a) <==> y.to_multiset().count(a) > 0);
        if x.contains(a) {
            assert(x.to_multiset().contains(a));
            assert(y.to_multiset().contains(a));
        }
    }
    assert(x.to_multiset() =~= y.to_multiset());
    lemma_sorted_unique(x, y, le);
}

/// Mapping then keeping is keeping by the mapped test, then mapping.
pub proof fn lemma_map_filter<A, B>(s: Seq<A>, g: spec_fn(A) -> B, p: spec_fn(B) -> bool)
    ensures
        s.map_values(g).filter(p) == s.filter(|a: A| p(g(a))).map_values(g),
    decreases s.len(),
{
    reveal(Seq::filter);
    if s.len() > 0 {
        let d = s.drop_last();
        lemma_map_filter(d, g, p);
        assert(s.map_values(g).drop_last() =~= d.map_values(g));
        assert(s.map_values(g).last() == g(s.last()));
        let pg = |a: A| p(g(a));
        if p(g(s.last())) {
            assert(s.filter(pg) == d.filter(pg).push(s.last()));
            assert(s.filter(pg).map_values(g) =~= d.filter(pg).map_values(g).push(g(s.last())));
        } else {
            assert(s.filter(pg) == d.filter(pg));
        }
    } else {
        assert(s.map_values(g) =~= Seq::<B>::empty());
    }
}
} // verus!

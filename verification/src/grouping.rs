//! Grouping of location signals that are seen together: every pair of
//! signals joins their two groups, and each group is named by its most
//! preferred member.
use vstd::prelude::*;

use crate::location::{signal_first, starts_with};
use crate::text::{
    pair_views, lemma_lex_lt_irreflexive, lemma_lex_lt_total, lemma_lex_lt_transitive, lex_lt, str_lt,
};
use crate::report::string_views;
use crate::timeline::group_of;
use crate::types::LocationGroups;

verus! {

// ---------------------------------------------------------------------------
// The groups, as a map from each member to its group's representative
// ---------------------------------------------------------------------------

/// `x` is at least as good a representative as `y`: with `duet_first`, Duet
/// anchors come before subnets and signals of one kind are in lexicographic
/// order; without it, plain lexicographic order.
pub open spec fn preferred(x: Seq<char>, y: Seq<char>, duet_first: bool) -> bool {
    if duet_first {
        signal_first(x, y)
    } else {
        !lex_lt(y, x)
    }
}

/// `m` with `x` as a group of its own when it is not a member yet.
pub open spec fn with_member(m: Map<Seq<char>, Seq<char>>, x: Seq<char>) -> Map<
    Seq<char>,
    Seq<char>,
> {
    if m.dom().contains(x) {
        m
    } else {
        m.insert(x, x)
    }
}

/// `m` with the groups named `ra` and `rb` made one group named `w`.
pub open spec fn merged(
    m: Map<Seq<char>, Seq<char>>,
    ra: Seq<char>,
    rb: Seq<char>,
    w: Seq<char>,
) -> Map<Seq<char>, Seq<char>> {
    Map::new(
        |k: Seq<char>| m.dom().contains(k),
        |k: Seq<char>|
            if m[k] == ra || m[k] == rb {
                w
            } else {
                m[k]
            },
    )
}

/// `m` after the pair `(a, b)` was seen: both are members, and their groups
/// are one, named by the preferred of the two representatives.
pub open spec fn joined(m: Map<Seq<char>, Seq<char>>, a: Seq<char>, b: Seq<char>, duet_first: bool) -> Map<
    Seq<char>,
    Seq<char>,
> {
    let m1 = with_member(with_member(m, a), b);
    let ra = m1[a];
    let rb = m1[b];
    if ra == rb {
        m1
    } else {
        merged(
            m1,
            ra,
            rb,
            if preferred(ra, rb, duet_first) {
                ra
            } else {
                rb
            },
        )
    }
}

/// The groups after the pairs `edges`, taken in order.
pub open spec fn groups_after(edges: Seq<(Seq<char>, Seq<char>)>, duet_first: bool) -> Map<
    Seq<char>,
    Seq<char>,
>
    decreases edges.len(),
{
    if edges.len() == 0 {
        Map::empty()
    } else {
        joined(groups_after(edges.drop_last(), duet_first), edges.last().0, edges.last().1, duet_first)
    }
}


// ---------------------------------------------------------------------------
// A list of (member, representative) pairs as a map
// ---------------------------------------------------------------------------

/// The member named in pair `i`.
pub open spec fn key_at(pairs: Seq<(String, String)>, i: int) -> Seq<char> {
    pairs[i].0@
}

/// Some pair names `k` as its member.
pub open spec fn has_key(pairs: Seq<(String, String)>, k: Seq<char>) -> bool {
    exists|i: int| 0 <= i < pairs.len() && #[trigger] key_at(pairs, i) == k
}

/// No member is named twice.
pub open spec fn keys_distinct(pairs: Seq<(String, String)>) -> bool {
    forall|i: int, j: int|
        0 <= i < j < pairs.len() ==> #[trigger] key_at(pairs, i) != #[trigger] key_at(pairs, j)
}

/// The map from each member to its representative.
pub open spec fn pairs_map(pairs: Seq<(String, String)>) -> Map<Seq<char>, Seq<char>> {
    Map::new(|k: Seq<char>| has_key(pairs, k), |k: Seq<char>| group_of(pairs, k))
}

proof fn lemma_group_of_at(pairs: Seq<(String, String)>, i: int)
    requires
        keys_distinct(pairs),
        0 <= i < pairs.len(),
    ensures
        group_of(pairs, key_at(pairs, i)) == pairs[i].1@,
    decreases pairs.len(),
{
    if i > 0 {
        let rest = pairs.drop_first();
        assert(key_at(pairs, 0) != key_at(pairs, i));
        assert(key_at(rest, i - 1) == key_at(pairs, i));
        assert forall|a: int, b: int| 0 <= a < b < rest.len() implies #[trigger] key_at(rest, a)
            != #[trigger] key_at(rest, b) by {
            assert(key_at(rest, a) == key_at(pairs, a + 1));
            assert(key_at(rest, b) == key_at(pairs, b + 1));
        }
        lemma_group_of_at(rest, i - 1);
    }
}

proof fn lemma_group_of_absent(pairs: Seq<(String, String)>, k: Seq<char>)
    requires
        !has_key(pairs, k),
    ensures
        group_of(pairs, k) == k,
    decreases pairs.len(),
{
    if pairs.len() > 0 {
        assert(key_at(pairs, 0) != k);
        let rest = pairs.drop_first();
        assert forall|i: int| 0 <= i < rest.len() implies #[trigger] key_at(rest, i) != k by {
            assert(key_at(rest, i) == key_at(pairs, i + 1));
        }
        lemma_group_of_absent(rest, k);
    }
}


/// The position of the pair that names `x` as its member, if any.
fn index_of_key(pairs: &Vec<(String, String)>, x: &String) -> (r: Option<usize>)
    ensures
        match r {
            Some(i) => i < pairs@.len() && key_at(pairs@, i as int) == x@,
            None => !has_key(pairs@, x@),
        },
{
    let mut i: usize = 0;
    while i < pairs.len()
        invariant
            i <= pairs@.len(),
            forall|j: int| 0 <= j < i ==> #[trigger] key_at(pairs@, j) != x@,
        decreases pairs@.len() - i,
    {
        if pairs[i].0 == *x {
            return Some(i);
        }
        i = i + 1;
    }
    None
}

/// Makes `x` a member, a group of its own, when it is not one yet.
fn add_member(pairs: &mut Vec<(String, String)>, x: &String)
    requires
        keys_distinct(old(pairs)@),
    ensures
        keys_distinct(final(pairs)@),
        pairs_map(final(pairs)@) == with_member(pairs_map(old(pairs)@), x@),
{
    let ghost before = pairs@;
    match index_of_key(pairs, x) {
        Some(i) => {
            proof {
                assert(pairs_map(before).dom().contains(x@));
            }
        },
        None => {
            pairs.push((x.clone(), x.clone()));
            proof {
                let after = pairs@;
                let n = before.len() as int;
                assert(key_at(after, n) == x@);
                assert forall|i: int, j: int| 0 <= i < j < after.len() implies #[trigger] key_at(
                    after,
                    i,
                ) != #[trigger] key_at(after, j) by {
                    if j == n {
                        assert(key_at(after, i) == key_at(before, i));
                    } else {
                        assert(key_at(after, i) == key_at(before, i));
                        assert(key_at(after, j) == key_at(before, j));
                    }
                }
                assert forall|k: Seq<char>| #[trigger] has_key(after, k) == (has_key(before, k) || k
                    == x@) by {
                    if has_key(before, k) {
                        let i = choose|i: int| 0 <= i < before.len() && #[trigger] key_at(before, i) == k;
                        assert(key_at(after, i) == k);
                    }
                    if has_key(after, k) {
                        let i = choose|i: int| 0 <= i < after.len() && #[trigger] key_at(after, i) == k;
                        if i < n {
                            assert(key_at(before, i) == k);
                        }
                    }
                }
                assert forall|k: Seq<char>| has_key(after, k) implies #[trigger] group_of(after, k)
                    == with_member(pairs_map(before), x@)[k] by {
                    let i = choose|i: int| 0 <= i < after.len() && #[trigger] key_at(after, i) == k;
                    lemma_group_of_at(after, i);
                    if i < n {
                        lemma_group_of_at(before, i);
                        assert(after[i] == before[i]);
                    }
                }
                assert(pairs_map(after) =~= with_member(pairs_map(before), x@));
            }
        },
    }
}


/// The pairs with every member of the groups named `ra` or `rb` moved to
/// the group named `w`.
fn relabel(pairs: &Vec<(String, String)>, ra: &String, rb: &String, w: &String) -> (r: Vec<
    (String, String),
>)
    requires
        keys_distinct(pairs@),
    ensures
        keys_distinct(r@),
        pairs_map(r@) == merged(pairs_map(pairs@), ra@, rb@, w@),
{
    let mut out: Vec<(String, String)> = Vec::new();
    let mut i: usize = 0;
    while i < pairs.len()
        invariant
            i <= pairs@.len(),
            out@.len() == i,
            forall|j: int| 0 <= j < i ==> #[trigger] key_at(out@, j) == key_at(pairs@, j),
            forall|j: int|
                0 <= j < i ==> #[trigger] out@[j].1@ == (if pairs@[j].1@ == ra@ || pairs@[j].1@
                    == rb@ {
                    w@
                } else {
                    pairs@[j].1@
                }),
        decreases pairs@.len() - i,
    {
        let rep = if pairs[i].1 == *ra || pairs[i].1 == *rb {
            w.clone()
        } else {
            pairs[i].1.clone()
        };
        let ghost prev = out@;
        out.push((pairs[i].0.clone(), rep));
        proof {
            assert(key_at(out@, i as int) == key_at(pairs@, i as int));
            assert forall|j: int| 0 <= j < i implies #[trigger] key_at(out@, j) == key_at(pairs@, j) by {
                assert(out@[j] == prev[j]);
                assert(key_at(prev, j) == key_at(pairs@, j));
            }
        }
        i = i + 1;
    }
    proof {
        let before = pairs@;
        let after = out@;
        assert forall|a: int, b: int| 0 <= a < b < after.len() implies #[trigger] key_at(after, a)
            != #[trigger] key_at(after, b) by {
            assert(key_at(before, a) != key_at(before, b));
        }
        assert forall|k: Seq<char>| #[trigger] has_key(after, k) == has_key(before, k) by {
            if has_key(before, k) {
                let i = choose|i: int| 0 <= i < before.len() && #[trigger] key_at(before, i) == k;
                assert(key_at(after, i) == k);
            }
            if has_key(after, k) {
                let i = choose|i: int| 0 <= i < after.len() && #[trigger] key_at(after, i) == k;
                assert(key_at(before, i) == k);
            }
        }
        assert forall|k: Seq<char>| has_key(after, k) implies #[trigger] group_of(after, k)
            == merged(pairs_map(before), ra@, rb@, w@)[k] by {
            let i = choose|i: int| 0 <= i < after.len() && #[trigger] key_at(after, i) == k;
            lemma_group_of_at(after, i);
            assert(key_at(before, i) == k);
            lemma_group_of_at(before, i);
            assert(pairs_map(before).dom().contains(k));
        }
        assert(pairs_map(after) =~= merged(pairs_map(before), ra@, rb@, w@));
    }
    out
}


/// Whether `x` is at least as good a representative as `y`.
fn is_preferred(x: &String, y: &String, duet_first: bool) -> (r: bool)
    ensures
        r == preferred(x@, y@, duet_first),
{
    if duet_first {
        proof {
            reveal_strlit("duet:");
        }
        let x_duet = starts_with(x.as_str(), "duet:");
        let y_duet = starts_with(y.as_str(), "duet:");
        if x_duet != y_duet {
            return x_duet;
        }
    }
    !str_lt(y.as_str(), x.as_str())
}

/// The representative of member `x` (which must be one).
fn rep_of(pairs: &Vec<(String, String)>, x: &String) -> (r: String)
    requires
        keys_distinct(pairs@),
        has_key(pairs@, x@),
    ensures
        r@ == pairs_map(pairs@)[x@],
{
    match index_of_key(pairs, x) {
        Some(i) => {
            proof {
                lemma_group_of_at(pairs@, i as int);
            }
            pairs[i].1.clone()
        },
        None => {
            proof {
                assert(false);
            }
            x.clone()
        },
    }
}

/// The groups after the pair `(a, b)` was seen.
fn join_pair(pairs: Vec<(String, String)>, a: &String, b: &String, duet_first: bool) -> (r: Vec<
    (String, String),
>)
    requires
        keys_distinct(pairs@),
    ensures
        keys_distinct(r@),
        pairs_map(r@) == joined(pairs_map(pairs@), a@, b@, duet_first),
{
    let mut p = pairs;
    add_member(&mut p, a);
    add_member(&mut p, b);
    let ghost m1 = pairs_map(p@);
    assert(m1.dom().contains(a@));
    assert(m1.dom().contains(b@));
    let ra = rep_of(&p, a);
    let rb = rep_of(&p, b);
    if ra == rb {
        p
    } else {
        let w = if is_preferred(&ra, &rb, duet_first) {
            ra.clone()
        } else {
            rb.clone()
        };
        relabel(&p, &ra, &rb, &w)
    }
}


/// The groups after the pairs `edges`, taken in order.
fn group_pairs(edges: &[(String, String)], duet_first: bool) -> (r: Vec<(String, String)>)
    ensures
        keys_distinct(r@),
        pairs_map(r@) == groups_after(pair_views(edges@), duet_first),
{
    let ghost ev = pair_views(edges@);
    let mut p: Vec<(String, String)> = Vec::new();
    proof {
        assert(pairs_map(p@) =~= Map::<Seq<char>, Seq<char>>::empty());
        assert(ev.subrange(0, 0).len() == 0);
    }
    let mut i: usize = 0;
    while i < edges.len()
        invariant
            i <= edges@.len(),
            ev == pair_views(edges@),
            keys_distinct(p@),
            pairs_map(p@) == groups_after(ev.subrange(0, i as int), duet_first),
        decreases edges@.len() - i,
    {
        proof {
            let next = ev.subrange(0, i + 1);
            assert(next.drop_last() =~= ev.subrange(0, i as int));
            assert(next.last() == (edges@[i as int].0@, edges@[i as int].1@));
        }
        p = join_pair(p, &edges[i].0, &edges[i].1, duet_first);
        i = i + 1;
    }
    proof {
        assert(ev.subrange(0, edges@.len() as int) =~= ev);
    }
    p
}

/// Resolves the clusters of location signals from the pairs seen together
/// long enough to count, strongest first: each signal named in a pair maps
/// to the representative of its cluster, the preferred member (Duet anchors
/// before subnets, then lexicographic order).
pub fn resolve_location_clusters(edges: &[(String, String)]) -> (r: LocationGroups)
    ensures
        keys_distinct(r.pairs@),
        pairs_map(r.pairs@) == groups_after(pair_views(edges@), true),
{
    LocationGroups { pairs: group_pairs(edges, true) }
}

/// The group of each subnet of `subnets`: the representative of its group
/// in `m`, or the subnet itself when it is in no group.
pub open spec fn subnet_groups(m: Map<Seq<char>, Seq<char>>, subnets: Seq<Seq<char>>) -> Map<
    Seq<char>,
    Seq<char>,
> {
    Map::new(
        |k: Seq<char>| subnets.contains(k),
        |k: Seq<char>|
            if m.dom().contains(k) {
                m[k]
            } else {
                k
            },
    )
}

/// Groups the wifi subnets seen together (the pairs `cooccurring`) and
/// maps every known subnet to the lexicographically smallest subnet of its
/// group.
pub fn build_location_groups(cooccurring: &[(String, String)], subnets: &[String]) -> (r:
    LocationGroups)
    ensures
        keys_distinct(r.pairs@),
        pairs_map(r.pairs@) == subnet_groups(
            groups_after(pair_views(cooccurring@), false),
            string_views(subnets@),
        ),
{
    let groups = group_pairs(cooccurring, false);
    let ghost m = pairs_map(groups@);
    let ghost sv = string_views(subnets@);
    let mut out: Vec<(String, String)> = Vec::new();
    let mut i: usize = 0;
    while i < subnets.len()
        invariant
            i <= subnets@.len(),
            sv == string_views(subnets@),
            keys_distinct(groups@),
            m == pairs_map(groups@),
            keys_distinct(out@),
            pairs_map(out@) == subnet_groups(m, sv.subrange(0, i as int)),
        decreases subnets@.len() - i,
    {
        let ghost before = out@;
        let s = &subnets[i];
        proof {
            assert(sv[i as int] == s@);
        }
        let rep = match index_of_key(&groups, s) {
            Some(j) => {
                proof {
                    lemma_group_of_at(groups@, j as int);
                }
                groups[j].1.clone()
            },
            None => s.clone(),
        };
        assert(rep@ == (if m.dom().contains(s@) { m[s@] } else { s@ }));
        match index_of_key(&out, s) {
            Some(_) => {
                proof {
                    assert(subnet_groups(m, sv.subrange(0, i + 1)) =~= subnet_groups(
                        m,
                        sv.subrange(0, i as int),
                    ));
                }
            },
            None => {
                out.push((s.clone(), rep));
                proof {
                    let after = out@;
                    let n = before.len() as int;
                    assert(key_at(after, n) == s@);
                    assert forall|a: int, b: int| 0 <= a < b < after.len() implies #[trigger] key_at(
                        after,
                        a,
                    ) != #[trigger] key_at(after, b) by {
                        assert(key_at(after, a) == key_at(before, a));
                        if b < n {
                            assert(key_at(after, b) == key_at(before, b));
                        }
                    }
                    assert forall|k: Seq<char>| #[trigger] has_key(after, k) == (has_key(before, k)
                        || k == s@) by {
                        if has_key(before, k) {
                            let j = choose|j: int| 0 <= j < before.len() && #[trigger] key_at(before, j) == k;
                            assert(key_at(after, j) == k);
                        }
                        if has_key(after, k) {
                            let j = choose|j: int| 0 <= j < after.len() && #[trigger] key_at(after, j) == k;
                            if j < n {
                                assert(key_at(before, j) == k);
                            }
                        }
                    }
                    let target = subnet_groups(m, sv.subrange(0, i + 1));
                    assert forall|k: Seq<char>| #[trigger] sv.subrange(0, i + 1).contains(k) == (
                    sv.subrange(0, i as int).contains(k) || k == s@) by {
                        if sv.subrange(0, i + 1).contains(k) {
                            let j = choose|j: int| 0 <= j < i + 1 && #[trigger] sv.subrange(0, i + 1)[j] == k;
                            if j < i {
                                assert(sv.subrange(0, i as int)[j] == k);
                            }
                        }
                        if sv.subrange(0, i as int).contains(k) {
                            let j = choose|j: int| 0 <= j < i && #[trigger] sv.subrange(0, i as int)[j] == k;
                            assert(sv.subrange(0, i + 1)[j] == k);
                        }
                        if k == s@ {
                            assert(sv.subrange(0, i + 1)[i as int] == k);
                        }
                    }
                    assert forall|k: Seq<char>| has_key(after, k) implies #[trigger] group_of(after, k)
                        == target[k] by {
                        let j = choose|j: int| 0 <= j < after.len() && #[trigger] key_at(after, j) == k;
                        lemma_group_of_at(after, j);
                        if j < n {
                            lemma_group_of_at(before, j);
                            assert(after[j] == before[j]);
                            assert(key_at(before, j) == k);
                            assert(has_key(before, k));
                            assert(pairs_map(before).dom().contains(k));
                            assert(subnet_groups(m, sv.subrange(0, i as int)).dom().contains(k));
                            assert(sv.subrange(0, i as int).contains(k));
                            assert(sv.subrange(0, i + 1).contains(k));
                            assert(pairs_map(before)[k] == subnet_groups(m, sv.subrange(0, i as int))[k]);
                        }
                    }
                    assert forall|k: Seq<char>| #[trigger] target.dom().contains(k) == has_key(after, k) by {
                        assert(target.dom().contains(k) == sv.subrange(0, i + 1).contains(k));
                        assert(has_key(after, k) == (has_key(before, k) || k == s@));
                        assert(has_key(before, k) == pairs_map(before).dom().contains(k));
                        if sv.subrange(0, i as int).contains(k) {
                            assert(subnet_groups(m, sv.subrange(0, i as int)).dom().contains(k));
                            assert(pairs_map(before).dom().contains(k));
                        }
                    }
                    assert(pairs_map(after) =~= target);
                }
            },
        }
        i = i + 1;
    }
    proof {
        assert(sv.subrange(0, subnets@.len() as int) =~= sv);
    }
    LocationGroups { pairs: out }
}


// ---------------------------------------------------------------------------
// Laws of the grouping
// ---------------------------------------------------------------------------

proof fn lemma_preferred_refl(x: Seq<char>, duet_first: bool)
    ensures
        preferred(x, x, duet_first),
{
    lemma_lex_lt_irreflexive(x);
}

proof fn lemma_preferred_total(x: Seq<char>, y: Seq<char>, duet_first: bool)
    ensures
        preferred(x, y, duet_first) || preferred(y, x, duet_first),
{
    lemma_lex_lt_irreflexive(x);
    lemma_lex_lt_total(x, y);
}

proof fn lemma_preferred_trans(x: Seq<char>, y: Seq<char>, z: Seq<char>, duet_first: bool)
    requires
        preferred(x, y, duet_first),
        preferred(y, z, duet_first),
    ensures
        preferred(x, z, duet_first),
{
    lemma_lex_lt_total(x, y);
    if lex_lt(z, x) && lex_lt(x, y) {
        lemma_lex_lt_transitive(z, x, y);
    }
}

/// Every member's representative is a member that represents itself and
/// is preferred to the member.
pub open spec fn groups_ok(m: Map<Seq<char>, Seq<char>>, duet_first: bool) -> bool {
    forall|k: Seq<char>|
        #[trigger] m.dom().contains(k) ==> m.dom().contains(m[k]) && m[m[k]] == m[k] && preferred(
            m[k],
            k,
            duet_first,
        )
}

proof fn lemma_with_member_ok(m: Map<Seq<char>, Seq<char>>, x: Seq<char>, duet_first: bool)
    requires
        groups_ok(m, duet_first),
    ensures
        groups_ok(with_member(m, x), duet_first),
        forall|k: Seq<char>| #[trigger] m.dom().contains(k) ==> with_member(m, x)[k] == m[k],
        forall|k: Seq<char>|
            #[trigger] with_member(m, x).dom().contains(k) == (m.dom().contains(k) || k == x),
{
    lemma_preferred_refl(x, duet_first);
}

proof fn lemma_merged_ok(
    m: Map<Seq<char>, Seq<char>>,
    ra: Seq<char>,
    rb: Seq<char>,
    w: Seq<char>,
    duet_first: bool,
)
    requires
        groups_ok(m, duet_first),
        m.dom().contains(ra),
        m.dom().contains(rb),
        m[ra] == ra,
        m[rb] == rb,
        w == ra || w == rb,
        preferred(w, ra, duet_first),
        preferred(w, rb, duet_first),
    ensures
        groups_ok(merged(m, ra, rb, w), duet_first),
{
    let m2 = merged(m, ra, rb, w);
    assert forall|k: Seq<char>| #[trigger] m2.dom().contains(k) implies m2.dom().contains(m2[k])
        && m2[m2[k]] == m2[k] && preferred(m2[k], k, duet_first) by {
        assert(m.dom().contains(k));
        let r = m[k];
        assert(m.dom().contains(r));
        if r == ra || r == rb {
            assert(m2.dom().contains(w));
            lemma_preferred_trans(w, r, k, duet_first);
        }
    }
}

proof fn lemma_joined_ok(m: Map<Seq<char>, Seq<char>>, a: Seq<char>, b: Seq<char>, duet_first: bool)
    requires
        groups_ok(m, duet_first),
    ensures
        groups_ok(joined(m, a, b, duet_first), duet_first),
        joined(m, a, b, duet_first).dom().contains(a),
        joined(m, a, b, duet_first).dom().contains(b),
        joined(m, a, b, duet_first)[a] == joined(m, a, b, duet_first)[b],
        forall|k: Seq<char>|
            #[trigger] joined(m, a, b, duet_first).dom().contains(k) == (m.dom().contains(k) || k == a
                || k == b),
        forall|x: Seq<char>, y: Seq<char>|
            m.dom().contains(x) && m.dom().contains(y) && m[x] == m[y] ==> #[trigger] joined(
                m,
                a,
                b,
                duet_first,
            )[x] == #[trigger] joined(m, a, b, duet_first)[y],
{
    let m0 = with_member(m, a);
    lemma_with_member_ok(m, a, duet_first);
    let m1 = with_member(m0, b);
    lemma_with_member_ok(m0, b, duet_first);
    let ra = m1[a];
    let rb = m1[b];
    if ra != rb {
        let w = if preferred(ra, rb, duet_first) {
            ra
        } else {
            rb
        };
        lemma_preferred_refl(ra, duet_first);
        lemma_preferred_refl(rb, duet_first);
        lemma_preferred_total(ra, rb, duet_first);
        lemma_merged_ok(m1, ra, rb, w, duet_first);
    }
}

proof fn lemma_groups_after(edges: Seq<(Seq<char>, Seq<char>)>, duet_first: bool)
    ensures
        groups_ok(groups_after(edges, duet_first), duet_first),
        forall|i: int|
            0 <= i < edges.len() ==> groups_after(edges, duet_first).dom().contains(
                #[trigger] edges[i].0,
            ) && groups_after(edges, duet_first).dom().contains(edges[i].1) && groups_after(
                edges,
                duet_first,
            )[edges[i].0] == groups_after(edges, duet_first)[edges[i].1],
        forall|k: Seq<char>|
            #[trigger] groups_after(edges, duet_first).dom().contains(k) == (exists|i: int|
                0 <= i < edges.len() && (#[trigger] edges[i].0 == k || edges[i].1 == k)),
    decreases edges.len(),
{
    if edges.len() > 0 {
        let prev = edges.drop_last();
        lemma_groups_after(prev, duet_first);
        let m = groups_after(prev, duet_first);
        let (a, b) = edges.last();
        lemma_joined_ok(m, a, b, duet_first);
        let m2 = groups_after(edges, duet_first);
        assert(m2 == joined(m, a, b, duet_first));
        let j = joined(m, a, b, duet_first);
        assert forall|i: int| 0 <= i < edges.len() implies m2.dom().contains(#[trigger] edges[i].0)
            && m2.dom().contains(edges[i].1) && m2[edges[i].0] == m2[edges[i].1] by {
            if i < edges.len() - 1 {
                assert(prev[i] == edges[i]);
                let x = prev[i].0;
                let y = prev[i].1;
                assert(m.dom().contains(x) && m.dom().contains(y) && m[x] == m[y]);
                assert(j.dom().contains(x));
                assert(j.dom().contains(y));
                assert(j[x] == j[y]);
            }
        }
        assert forall|k: Seq<char>| #[trigger] m2.dom().contains(k) == (exists|i: int|
            0 <= i < edges.len() && (#[trigger] edges[i].0 == k || edges[i].1 == k)) by {
            assert(j.dom().contains(k) == (m.dom().contains(k) || k == a || k == b));
            if m.dom().contains(k) {
                assert(groups_after(prev, duet_first).dom().contains(k));
                let i = choose|i: int| 0 <= i < prev.len() && (#[trigger] prev[i].0 == k || prev[i].1 == k);
                assert(edges[i] == prev[i]);
            }
            if k == a || k == b {
                assert(edges[edges.len() - 1] == (a, b));
            }
            if exists|i: int| 0 <= i < edges.len() && (#[trigger] edges[i].0 == k || edges[i].1 == k) {
                let i = choose|i: int| 0 <= i < edges.len() && (#[trigger] edges[i].0 == k || edges[i].1 == k);
                if i < edges.len() - 1 {
                    assert(prev[i] == edges[i]);
                }
            }
        }
    }
}

/// Every representative is itself a member of its group and represents
/// itself, and it is the preferred member: preferred to every signal of
/// its group.
pub proof fn law_group_representative_is_least_member(
    edges: Seq<(Seq<char>, Seq<char>)>,
    duet_first: bool,
    k: Seq<char>,
)
    requires
        groups_after(edges, duet_first).dom().contains(k),
    ensures
        groups_after(edges, duet_first).dom().contains(groups_after(edges, duet_first)[k]),
        groups_after(edges, duet_first)[groups_after(edges, duet_first)[k]] == groups_after(
            edges,
            duet_first,
        )[k],
        preferred(groups_after(edges, duet_first)[k], k, duet_first),
{
    lemma_groups_after(edges, duet_first);
}

/// Two signals seen together end in one group.
pub proof fn law_pair_ends_in_one_group(
    edges: Seq<(Seq<char>, Seq<char>)>,
    duet_first: bool,
    i: int,
)
    requires
        0 <= i < edges.len(),
    ensures
        groups_after(edges, duet_first).dom().contains(edges[i].0),
        groups_after(edges, duet_first).dom().contains(edges[i].1),
        groups_after(edges, duet_first)[edges[i].0] == groups_after(edges, duet_first)[edges[i].1],
{
    lemma_groups_after(edges, duet_first);
}

/// The members of the groups are exactly the signals named in the pairs.
pub proof fn law_group_members_are_named(
    edges: Seq<(Seq<char>, Seq<char>)>,
    duet_first: bool,
    k: Seq<char>,
)
    ensures
        groups_after(edges, duet_first).dom().contains(k) <==> exists|i: int|
            0 <= i < edges.len() && (#[trigger] edges[i].0 == k || edges[i].1 == k),
{
    lemma_groups_after(edges, duet_first);
}

} // verus!

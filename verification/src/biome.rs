//! Wifi connection sessions from the Biome stream, and what the subnets
//! seen during them tell: which network (SSID) a subnet belongs to, and
//! which subnets belong to one network.
use vstd::prelude::*;

use crate::sort::{lemma_stable_order_len, lemma_stable_order_sorted, stable_order, stable_order_of};
use crate::text::{lemma_lex_lt_total, lex_lt, pair_views, str_lt};

verus! {

/// A wifi connection session: when it started and ended, and the network.
#[derive(Debug, Clone)]
pub struct WifiSession {
    pub first_ms: i64,
    pub last_ms: i64,
    pub ssid: String,
}

/// The end of a session for matching: its end, and at least one minute
/// after its start.
pub open spec fn session_end(s: WifiSession) -> int {
    if s.last_ms >= s.first_ms + 60_000 {
        s.last_ms as int
    } else {
        s.first_ms + 60_000
    }
}

/// The start times of the sessions.
pub open spec fn session_firsts(ss: Seq<WifiSession>) -> Seq<i64> {
    Seq::new(ss.len(), |i: int| ss[i].first_ms)
}

/// The start times of the sessions, in order of start (`order` lists the
/// sessions by start).
pub open spec fn sorted_firsts(ss: Seq<WifiSession>, order: Seq<usize>) -> Seq<i64> {
    Seq::new(order.len(), |k: int| ss[order[k] as int].first_ms)
}

/// The last position before `n` whose start is at or before `ts`, or -1.
pub open spec fn last_started(firsts: Seq<i64>, ts: i64, n: int) -> int
    decreases n,
{
    if n <= 0 {
        -1
    } else if firsts[n - 1] <= ts {
        n - 1
    } else {
        last_started(firsts, ts, n - 1)
    }
}

/// The session (its index in `ss`) during which `ts` falls: of the
/// sessions listed by start, the last one that started at or before `ts`,
/// if `ts` is not after its end.
pub open spec fn session_at(ss: Seq<WifiSession>, ts: i64) -> Option<int> {
    let order = stable_order(session_firsts(ss));
    let k = last_started(sorted_firsts(ss, order), ts, order.len() as int);
    if k >= 0 && ts <= session_end(ss[order[k] as int]) {
        Some(order[k] as int)
    } else {
        None
    }
}

/// The sessions are few enough to index, and each starts well before the
/// end of time.
pub open spec fn sessions_ok(ss: Seq<WifiSession>) -> bool {
    &&& ss.len() <= usize::MAX
    &&& forall|i: int| 0 <= i < ss.len() ==> #[trigger] ss[i].first_ms <= i64::MAX - 60_000
}

proof fn lemma_last_started(firsts: Seq<i64>, ts: i64, n: int, lo: int)
    requires
        0 <= lo <= n <= firsts.len(),
        forall|k: int| lo <= k < n ==> #[trigger] firsts[k] > ts,
        lo > 0 ==> firsts[lo - 1] <= ts,
    ensures
        last_started(firsts, ts, n) == lo - 1,
    decreases n,
{
    if n > lo {
        lemma_last_started(firsts, ts, n - 1, lo);
    }
}

/// The number of sessions, listed by start, that started at or before
/// `ts`.
fn count_started(sessions: &[WifiSession], order: &Vec<usize>, ts: i64) -> (lo: usize)
    requires
        order@ == stable_order(session_firsts(sessions@)),
        order@.len() == sessions@.len(),
        forall|k: int| 0 <= k < order@.len() ==> order@[k] < sessions@.len(),
        forall|i: int, j: int|
            0 <= i <= j < order@.len() ==> sessions@[order@[i] as int].first_ms
                <= sessions@[order@[j] as int].first_ms,
    ensures
        lo <= order@.len(),
        forall|k: int| 0 <= k < lo ==> sessions@[order@[k] as int].first_ms <= ts,
        forall|k: int| lo <= k < order@.len() ==> sessions@[order@[k] as int].first_ms > ts,
{
    let mut lo: usize = 0;
    let mut hi: usize = order.len();
    while lo < hi
        invariant
            lo <= hi <= order@.len(),
            order@.len() == sessions@.len(),
            forall|k: int| 0 <= k < order@.len() ==> order@[k] < sessions@.len(),
            forall|i: int, j: int|
                0 <= i <= j < order@.len() ==> sessions@[order@[i] as int].first_ms
                    <= sessions@[order@[j] as int].first_ms,
            forall|k: int| 0 <= k < lo ==> sessions@[order@[k] as int].first_ms <= ts,
            forall|k: int| hi <= k < order@.len() ==> sessions@[order@[k] as int].first_ms > ts,
        decreases hi - lo,
    {
        let mid = lo + (hi - lo) / 2;
        if sessions[order[mid]].first_ms <= ts {
            lo = mid + 1;
        } else {
            hi = mid;
        }
    }
    lo
}

/// The session (its index in `sessions`) during which `ts` falls.
fn find_session(sessions: &[WifiSession], order: &Vec<usize>, ts: i64) -> (r: Option<usize>)
    requires
        sessions_ok(sessions@),
        order@ == stable_order(session_firsts(sessions@)),
        order@.len() == sessions@.len(),
        forall|k: int| 0 <= k < order@.len() ==> order@[k] < sessions@.len(),
        forall|i: int, j: int|
            0 <= i <= j < order@.len() ==> sessions@[order@[i] as int].first_ms
                <= sessions@[order@[j] as int].first_ms,
    ensures
        match session_at(sessions@, ts) {
            Some(i) => r == Some(i as usize),
            None => r is None,
        },
        r matches Some(i) ==> i < sessions@.len(),
{
    let lo = count_started(sessions, order, ts);
    let ghost sf = sorted_firsts(sessions@, order@);
    proof {
        lemma_last_started(sf, ts, order@.len() as int, lo as int);
    }
    if lo == 0 {
        return None;
    }
    let s = &sessions[order[lo - 1]];
    let end: i64 = if s.last_ms >= s.first_ms + 60_000 {
        s.last_ms
    } else {
        s.first_ms + 60_000
    };
    if ts <= end {
        Some(order[lo - 1])
    } else {
        None
    }
}

/// A subnet seen during a session: when, which subnet, and the session's
/// network and bounds.
#[derive(Debug, Clone)]
pub struct Sighting {
    pub time_ms: i64,
    pub subnet: String,
    pub ssid: String,
    pub session_first_ms: i64,
    pub session_last_ms: i64,
}

/// A sighting as plain values.
pub open spec fn sighting_view(s: Sighting) -> (i64, Seq<char>, Seq<char>, i64, i64) {
    (s.time_ms, s.subnet@, s.ssid@, s.session_first_ms, s.session_last_ms)
}

/// The sightings as plain values.
pub open spec fn sighting_views(v: Seq<Sighting>) -> Seq<(i64, Seq<char>, Seq<char>, i64, i64)> {
    Seq::new(v.len(), |i: int| sighting_view(v[i]))
}

/// The rows `(time, subnet)` that fall in a session, as sightings, in
/// order.
pub open spec fn sightings(ss: Seq<WifiSession>, rows: Seq<(i64, String)>) -> Seq<
    (i64, Seq<char>, Seq<char>, i64, i64),
>
    decreases rows.len(),
{
    if rows.len() == 0 {
        Seq::empty()
    } else {
        let prev = sightings(ss, rows.drop_last());
        let ts = rows.last().0;
        match session_at(ss, ts) {
            Some(k) => prev.push((ts, rows.last().1@, ss[k].ssid@, ss[k].first_ms, ss[k].last_ms)),
            None => prev,
        }
    }
}

/// The rows `(time, subnet)` that fall in a session, as sightings.
pub fn sightings_of(sessions: &[WifiSession], rows: &[(i64, String)]) -> (r: Vec<Sighting>)
    requires
        sessions_ok(sessions@),
    ensures
        sighting_views(r@) == sightings(sessions@, rows@),
{
    let mut firsts: Vec<i64> = Vec::new();
    let mut i: usize = 0;
    while i < sessions.len()
        invariant
            i <= sessions@.len(),
            firsts@ =~= session_firsts(sessions@).subrange(0, i as int),
        decreases sessions@.len() - i,
    {
        firsts.push(sessions[i].first_ms);
        i = i + 1;
    }
    proof {
        assert(firsts@ =~= session_firsts(sessions@));
        lemma_stable_order_len(firsts@);
        lemma_stable_order_sorted(firsts@);
    }
    let order = stable_order_of(&firsts);
    let mut out: Vec<Sighting> = Vec::new();
    let mut j: usize = 0;
    proof {
        assert(sighting_views(out@) =~= sightings(sessions@, rows@.subrange(0, 0)));
    }
    while j < rows.len()
        invariant
            j <= rows@.len(),
            sessions_ok(sessions@),
            order@ == stable_order(session_firsts(sessions@)),
            order@.len() == sessions@.len(),
            forall|k: int| 0 <= k < order@.len() ==> order@[k] < sessions@.len(),
            forall|a: int, b: int|
                0 <= a <= b < order@.len() ==> sessions@[order@[a] as int].first_ms
                    <= sessions@[order@[b] as int].first_ms,
            sighting_views(out@) == sightings(sessions@, rows@.subrange(0, j as int)),
        decreases rows@.len() - j,
    {
        proof {
            assert(rows@.subrange(0, j + 1).drop_last() =~= rows@.subrange(0, j as int));
        }
        let ts = rows[j].0;
        let ghost prev = out@;
        match find_session(sessions, &order, ts) {
            Some(k) => {
                let s = &sessions[k];
                out.push(
                    Sighting {
                        time_ms: ts,
                        subnet: rows[j].1.clone(),
                        ssid: s.ssid.clone(),
                        session_first_ms: s.first_ms,
                        session_last_ms: s.last_ms,
                    },
                );
                proof {
                    assert(sighting_views(out@) =~= sighting_views(prev).push(
                        sighting_view(out@[prev.len() as int]),
                    ));
                }
            },
            None => {},
        }
        j = j + 1;
    }
    proof {
        assert(rows@.subrange(0, rows@.len() as int) =~= rows@);
    }
    out
}

// ---------------------------------------------------------------------------
// Networks and subnets seen together
// ---------------------------------------------------------------------------

/// Two sightings were made in sessions with the same bounds.
pub open spec fn same_session(a: (i64, Seq<char>, Seq<char>, i64, i64), b: (i64, Seq<char>, Seq<char>, i64, i64)) -> bool {
    a.3 == b.3 && a.4 == b.4
}

/// Some sighting of `f` is of the subnet of `x`, in the session of `x`.
pub open spec fn has_subnet_in_session(
    f: Seq<(i64, Seq<char>, Seq<char>, i64, i64)>,
    x: (i64, Seq<char>, Seq<char>, i64, i64),
) -> bool {
    exists|j: int| 0 <= j < f.len() && same_session(#[trigger] f[j], x) && f[j].1 == x.1
}

/// The first sighting of each subnet in each session, in order.
pub open spec fn first_sightings(m: Seq<(i64, Seq<char>, Seq<char>, i64, i64)>) -> Seq<
    (i64, Seq<char>, Seq<char>, i64, i64),
>
    decreases m.len(),
{
    if m.len() == 0 {
        Seq::empty()
    } else {
        let p = first_sightings(m.drop_last());
        if has_subnet_in_session(p, m.last()) {
            p
        } else {
            p.push(m.last())
        }
    }
}

fn same_subnet_in_session(f: &Vec<Sighting>, x: &Sighting) -> (r: bool)
    ensures
        r == has_subnet_in_session(sighting_views(f@), sighting_view(*x)),
{
    let ghost fv = sighting_views(f@);
    let mut j: usize = 0;
    while j < f.len()
        invariant
            j <= f@.len(),
            fv == sighting_views(f@),
            forall|k: int|
                0 <= k < j ==> !(same_session(#[trigger] fv[k], sighting_view(*x)) && fv[k].1
                    == x.subnet@),
        decreases f@.len() - j,
    {
        if f[j].session_first_ms == x.session_first_ms && f[j].session_last_ms == x.session_last_ms
            && f[j].subnet == x.subnet {
            proof {
                assert(same_session(fv[j as int], sighting_view(*x)) && fv[j as int].1 == x.subnet@);
            }
            return true;
        }
        j = j + 1;
    }
    false
}

fn copy_sighting(x: &Sighting) -> (r: Sighting)
    ensures
        sighting_view(r) == sighting_view(*x),
{
    Sighting {
        time_ms: x.time_ms,
        subnet: x.subnet.clone(),
        ssid: x.ssid.clone(),
        session_first_ms: x.session_first_ms,
        session_last_ms: x.session_last_ms,
    }
}

/// The first sighting of each subnet in each session.
fn first_sightings_of(m: &Vec<Sighting>) -> (r: Vec<Sighting>)
    ensures
        sighting_views(r@) == first_sightings(sighting_views(m@)),
{
    let ghost mv = sighting_views(m@);
    let mut out: Vec<Sighting> = Vec::new();
    let mut i: usize = 0;
    proof {
        assert(mv.subrange(0, 0) =~= Seq::<(i64, Seq<char>, Seq<char>, i64, i64)>::empty());
        assert(sighting_views(out@) =~= first_sightings(mv.subrange(0, 0)));
    }
    while i < m.len()
        invariant
            i <= m@.len(),
            mv == sighting_views(m@),
            sighting_views(out@) == first_sightings(mv.subrange(0, i as int)),
        decreases m@.len() - i,
    {
        proof {
            assert(mv.subrange(0, i + 1).drop_last() =~= mv.subrange(0, i as int));
            assert(mv.subrange(0, i + 1).last() == sighting_view(m@[i as int]));
        }
        if !same_subnet_in_session(&out, &m[i]) {
            let ghost prev = out@;
            out.push(copy_sighting(&m[i]));
            proof {
                assert(sighting_views(out@) =~= sighting_views(prev).push(sighting_view(m@[i as int])));
            }
        }
        i = i + 1;
    }
    proof {
        assert(mv.subrange(0, m@.len() as int) =~= mv);
    }
    out
}

/// The network of the first sighting in `f` of the session with bounds
/// `(first, last)`.
pub open spec fn network_of(f: Seq<(i64, Seq<char>, Seq<char>, i64, i64)>, first: i64, last: i64) -> Seq<
    char,
>
    decreases f.len(),
{
    if f.len() == 0 {
        Seq::empty()
    } else if f[0].3 == first && f[0].4 == last {
        f[0].2
    } else {
        network_of(f.drop_first(), first, last)
    }
}

/// The observations `(network, subnet)` to record: one for each subnet of
/// each session, with the network of the session's first sighting.
pub open spec fn identities(m: Seq<(i64, Seq<char>, Seq<char>, i64, i64)>) -> Seq<(Seq<char>, Seq<char>)> {
    let f = first_sightings(m);
    Seq::new(f.len(), |i: int| (network_of(f, f[i].3, f[i].4), f[i].1))
}


fn network_in(f: &Vec<Sighting>, first: i64, last: i64) -> (r: String)
    ensures
        r@ == network_of(sighting_views(f@), first, last),
{
    let ghost fv = sighting_views(f@);
    let mut j: usize = 0;
    proof {
        assert(fv.subrange(0, fv.len() as int) =~= fv);
    }
    while j < f.len()
        invariant
            j <= f@.len(),
            fv == sighting_views(f@),
            network_of(fv.subrange(j as int, fv.len() as int), first, last) == network_of(fv, first, last),
        decreases f@.len() - j,
    {
        proof {
            assert(fv.subrange(j as int, fv.len() as int).drop_first() =~= fv.subrange(j + 1, fv.len() as int));
        }
        if f[j].session_first_ms == first && f[j].session_last_ms == last {
            return f[j].ssid.clone();
        }
        j = j + 1;
    }
    String::new()
}

fn identities_of(f: &Vec<Sighting>) -> (r: Vec<(String, String)>)
    ensures
        pair_views(r@) == Seq::new(
            f@.len(),
            |i: int|
                (
                    network_of(sighting_views(f@), f@[i].session_first_ms, f@[i].session_last_ms),
                    f@[i].subnet@,
                ),
        ),
{
    let mut out: Vec<(String, String)> = Vec::new();
    let mut i: usize = 0;
    while i < f.len()
        invariant
            i <= f@.len(),
            out@.len() == i,
            forall|k: int|
                0 <= k < i ==> (#[trigger] out@[k]).0@ == network_of(
                    sighting_views(f@),
                    f@[k].session_first_ms,
                    f@[k].session_last_ms,
                ) && out@[k].1@ == f@[k].subnet@,
        decreases f@.len() - i,
    {
        let net = network_in(f, f[i].session_first_ms, f[i].session_last_ms);
        out.push((net, f[i].subnet.clone()));
        i = i + 1;
    }
    proof {
        assert(pair_views(out@) =~= Seq::new(
            f@.len(),
            |i: int|
                (
                    network_of(sighting_views(f@), f@[i].session_first_ms, f@[i].session_last_ms),
                    f@[i].subnet@,
                ),
        ));
    }
    out
}

/// Two subnets in the order they are stored: lexicographic.
pub open spec fn subnet_pair(x: Seq<char>, y: Seq<char>) -> (Seq<char>, Seq<char>) {
    if lex_lt(y, x) {
        (y, x)
    } else {
        (x, y)
    }
}

fn subnet_pair_of(x: &String, y: &String) -> (r: (String, String))
    ensures
        (r.0@, r.1@) == subnet_pair(x@, y@),
{
    if str_lt(y.as_str(), x.as_str()) {
        (y.clone(), x.clone())
    } else {
        (x.clone(), y.clone())
    }
}

/// The pairs of the subnet of first sighting `b` with the subnets of the
/// first sightings before position `n` of the same session.
pub open spec fn pairs_with(f: Seq<(i64, Seq<char>, Seq<char>, i64, i64)>, b: int, n: int) -> Seq<
    (Seq<char>, Seq<char>),
>
    decreases n,
{
    if n <= 0 {
        Seq::empty()
    } else {
        let p = pairs_with(f, b, n - 1);
        if same_session(f[n - 1], f[b]) {
            p.push(subnet_pair(f[n - 1].1, f[b].1))
        } else {
            p
        }
    }
}

/// The pairs of subnets seen in one session, among the first `n` first
/// sightings.
pub open spec fn session_pairs(f: Seq<(i64, Seq<char>, Seq<char>, i64, i64)>, n: int) -> Seq<
    (Seq<char>, Seq<char>),
>
    decreases n,
{
    if n <= 0 {
        Seq::empty()
    } else {
        session_pairs(f, n - 1) + pairs_with(f, n - 1, n - 1)
    }
}

/// How close two sightings of one network must be to pair their subnets.
pub open spec fn pairing_window_ms() -> int {
    600_000
}

/// The pairs of the subnet of sighting `a` with the subnets of the later
/// sightings from `b` on, up to the first one more than ten minutes after
/// it, that are of the same network and of another subnet.
pub open spec fn window_pairs_from(m: Seq<(i64, Seq<char>, Seq<char>, i64, i64)>, a: int, b: int) -> Seq<
    (Seq<char>, Seq<char>),
>
    decreases m.len() - b,
{
    if b < 0 || b >= m.len() || m[b].0 - m[a].0 > pairing_window_ms() {
        Seq::empty()
    } else {
        let rest = window_pairs_from(m, a, b + 1);
        if m[a].2 == m[b].2 && m[a].1 != m[b].1 {
            seq![subnet_pair(m[a].1, m[b].1)] + rest
        } else {
            rest
        }
    }
}

/// The pairs of subnets of one network seen within ten minutes of each
/// other, for the sightings before position `n`.
pub open spec fn window_pairs(m: Seq<(i64, Seq<char>, Seq<char>, i64, i64)>, n: int) -> Seq<
    (Seq<char>, Seq<char>),
>
    decreases n,
{
    if n <= 0 {
        Seq::empty()
    } else {
        window_pairs(m, n - 1) + window_pairs_from(m, n - 1, n)
    }
}

fn session_pairs_of(f: &Vec<Sighting>) -> (r: Vec<(String, String)>)
    ensures
        pair_views(r@) == session_pairs(sighting_views(f@), f@.len() as int),
{
    let ghost fv = sighting_views(f@);
    let mut out: Vec<(String, String)> = Vec::new();
    let mut b: usize = 0;
    proof {
        assert(pair_views(out@) =~= session_pairs(fv, 0));
    }
    while b < f.len()
        invariant
            b <= f@.len(),
            fv == sighting_views(f@),
            pair_views(out@) == session_pairs(fv, b as int),
        decreases f@.len() - b,
    {
        let ghost base = pair_views(out@);
        let mut a: usize = 0;
        proof {
            assert(base + pairs_with(fv, b as int, 0) =~= base);
        }
        while a < b
            invariant
                a <= b < f@.len(),
                fv == sighting_views(f@),
                pair_views(out@) == base + pairs_with(fv, b as int, a as int),
            decreases b - a,
        {
            let ghost prev = out@;
            if f[a].session_first_ms == f[b].session_first_ms && f[a].session_last_ms
                == f[b].session_last_ms {
                let p = subnet_pair_of(&f[a].subnet, &f[b].subnet);
                out.push(p);
                proof {
                    assert(pair_views(out@) =~= pair_views(prev).push(subnet_pair(fv[a as int].1, fv[b as int].1)));
                }
            }
            a = a + 1;
        }
        proof {
            assert(session_pairs(fv, b + 1) == session_pairs(fv, b as int) + pairs_with(fv, b as int, b as int));
        }
        b = b + 1;
    }
    out
}

fn window_pairs_of(m: &Vec<Sighting>) -> (r: Vec<(String, String)>)
    ensures
        pair_views(r@) == window_pairs(sighting_views(m@), m@.len() as int),
{
    let ghost mv = sighting_views(m@);
    let mut out: Vec<(String, String)> = Vec::new();
    let mut a: usize = 0;
    proof {
        assert(pair_views(out@) =~= window_pairs(mv, 0));
    }
    while a < m.len()
        invariant
            a <= m@.len(),
            mv == sighting_views(m@),
            pair_views(out@) == window_pairs(mv, a as int),
        decreases m@.len() - a,
    {
        let ghost base = pair_views(out@);
        let mut b: usize = a + 1;
        while b < m.len()
            invariant
                a < b <= m@.len(),
                mv == sighting_views(m@),
                base + window_pairs_from(mv, a as int, a + 1) == pair_views(out@) + window_pairs_from(
                    mv,
                    a as int,
                    b as int,
                ),
            ensures
                base + window_pairs_from(mv, a as int, a + 1) == pair_views(out@),
            decreases m@.len() - b,
        {
            let gap: i128 = m[b].time_ms as i128 - m[a].time_ms as i128;
            if gap > 600_000 {
                break;
            }
            let ghost prev = out@;
            if m[a].ssid == m[b].ssid && m[a].subnet != m[b].subnet {
                let p = subnet_pair_of(&m[a].subnet, &m[b].subnet);
                out.push(p);
                proof {
                    assert(pair_views(out@) =~= pair_views(prev).push(subnet_pair(mv[a as int].1, mv[b as int].1)));
                    assert(window_pairs_from(mv, a as int, b as int) =~= seq![subnet_pair(mv[a as int].1, mv[b as int].1)] + window_pairs_from(mv, a as int, b + 1));
                    assert(pair_views(out@) + window_pairs_from(mv, a as int, b + 1) =~= pair_views(prev) + window_pairs_from(mv, a as int, b as int));
                }
            }
            b = b + 1;
        }
        proof {
            assert(window_pairs(mv, a + 1) == window_pairs(mv, a as int) + window_pairs_from(mv, a as int, a + 1));
        }
        a = a + 1;
    }
    out
}

/// What the subnets seen during wifi sessions tell.
#[derive(Debug, Clone)]
pub struct Correlation {
    /// The observations `(network, subnet)`: one for each subnet of each
    /// session, with the network of the session.
    pub identities: Vec<(String, String)>,
    /// The pairs of subnets of one network: two subnets of one session, or
    /// two subnets of one network seen within ten minutes of each other;
    /// each pair in lexicographic order (a pair may be listed more than
    /// once).
    pub cooccurring: Vec<(String, String)>,
}

/// Matches the rows `(time, subnet)` of the wifi log (sorted by time, each
/// with a subnet) to the Biome wifi sessions, and gives the observations
/// `(network, subnet)` and the pairs of subnets of one network to record.
pub fn correlate_with_biome(sessions: &[WifiSession], ip_rows: &[(i64, String)]) -> (r: Correlation)
    requires
        sessions_ok(sessions@),
    ensures
        pair_views(r.identities@) == identities(sightings(sessions@, ip_rows@)),
        pair_views(r.cooccurring@) == session_pairs(
            first_sightings(sightings(sessions@, ip_rows@)),
            first_sightings(sightings(sessions@, ip_rows@)).len() as int,
        ) + window_pairs(sightings(sessions@, ip_rows@), sightings(sessions@, ip_rows@).len() as int),
{
    let m = sightings_of(sessions, ip_rows);
    let f = first_sightings_of(&m);
    let ids = identities_of(&f);
    proof {
        assert(pair_views(ids@) =~= identities(sighting_views(m@)));
    }
    let mut cooccurring = session_pairs_of(&f);
    let mut window = window_pairs_of(&m);
    let ghost a = pair_views(cooccurring@);
    let ghost b = pair_views(window@);
    cooccurring.append(&mut window);
    proof {
        assert(pair_views(cooccurring@) =~= a + b);
        assert(sighting_views(f@).len() == f@.len());
        assert(sighting_views(m@).len() == m@.len());
    }
    Correlation { identities: ids, cooccurring }
}

/// A subnet is counted at most once per session: no two first sightings are
/// of the same subnet in the same session.
pub proof fn law_subnet_counted_once_per_session(
    m: Seq<(i64, Seq<char>, Seq<char>, i64, i64)>,
    i: int,
    j: int,
)
    requires
        0 <= i < j < first_sightings(m).len(),
    ensures
        !(same_session(first_sightings(m)[i], first_sightings(m)[j]) && first_sightings(m)[i].1
            == first_sightings(m)[j].1),
    decreases m.len(),
{
    if m.len() > 0 {
        let p = first_sightings(m.drop_last());
        if has_subnet_in_session(p, m.last()) {
            law_subnet_counted_once_per_session(m.drop_last(), i, j);
        } else {
            if j < p.len() {
                law_subnet_counted_once_per_session(m.drop_last(), i, j);
            } else {
                assert(first_sightings(m)[j] == m.last());
                assert(first_sightings(m)[i] == p[i]);
                if same_session(p[i], m.last()) && p[i].1 == m.last().1 {
                    assert(has_subnet_in_session(p, m.last()));
                }
            }
        }
    }
}

/// Pairs whose two subnets are in strict lexicographic order.
pub open spec fn pairs_ordered(ps: Seq<(Seq<char>, Seq<char>)>) -> bool {
    forall|k: int| 0 <= k < ps.len() ==> lex_lt(#[trigger] ps[k].0, ps[k].1)
}

proof fn lemma_subnet_pair_ordered(x: Seq<char>, y: Seq<char>)
    requires
        x != y,
    ensures
        lex_lt(subnet_pair(x, y).0, subnet_pair(x, y).1),
{
    lemma_lex_lt_total(x, y);
}

proof fn lemma_pairs_with_ordered(m: Seq<(i64, Seq<char>, Seq<char>, i64, i64)>, b: int, n: int)
    requires
        0 <= n <= b < first_sightings(m).len(),
    ensures
        pairs_ordered(pairs_with(first_sightings(m), b, n)),
    decreases n,
{
    let f = first_sightings(m);
    if n > 0 {
        lemma_pairs_with_ordered(m, b, n - 1);
        if same_session(f[n - 1], f[b]) {
            law_subnet_counted_once_per_session(m, n - 1, b);
            lemma_subnet_pair_ordered(f[n - 1].1, f[b].1);
            let p = pairs_with(f, b, n - 1);
            assert(pairs_with(f, b, n) == p.push(subnet_pair(f[n - 1].1, f[b].1)));
            assert forall|k: int| 0 <= k < p.len() + 1 implies lex_lt(
                #[trigger] pairs_with(f, b, n)[k].0,
                pairs_with(f, b, n)[k].1,
            ) by {
                if k < p.len() {
                    assert(pairs_with(f, b, n)[k] == p[k]);
                }
            }
        }
    }
}

proof fn lemma_session_pairs_ordered(m: Seq<(i64, Seq<char>, Seq<char>, i64, i64)>, n: int)
    requires
        0 <= n <= first_sightings(m).len(),
    ensures
        pairs_ordered(session_pairs(first_sightings(m), n)),
    decreases n,
{
    let f = first_sightings(m);
    if n > 0 {
        lemma_session_pairs_ordered(m, n - 1);
        lemma_pairs_with_ordered(m, n - 1, n - 1);
        let a = session_pairs(f, n - 1);
        let b = pairs_with(f, n - 1, n - 1);
        assert forall|k: int| 0 <= k < (a + b).len() implies lex_lt(#[trigger] (a + b)[k].0, (a + b)[k].1) by {
            if k < a.len() {
                assert((a + b)[k] == a[k]);
            } else {
                assert((a + b)[k] == b[k - a.len()]);
            }
        }
    }
}

proof fn lemma_window_pairs_from_ordered(m: Seq<(i64, Seq<char>, Seq<char>, i64, i64)>, a: int, b: int)
    requires
        0 <= a < m.len(),
    ensures
        pairs_ordered(window_pairs_from(m, a, b)),
    decreases m.len() - b,
{
    if !(b < 0 || b >= m.len() || m[b].0 - m[a].0 > pairing_window_ms()) {
        lemma_window_pairs_from_ordered(m, a, b + 1);
        let rest = window_pairs_from(m, a, b + 1);
        if m[a].2 == m[b].2 && m[a].1 != m[b].1 {
            lemma_subnet_pair_ordered(m[a].1, m[b].1);
            let all = seq![subnet_pair(m[a].1, m[b].1)] + rest;
            assert forall|k: int| 0 <= k < all.len() implies lex_lt(#[trigger] all[k].0, all[k].1) by {
                if k > 0 {
                    assert(all[k] == rest[k - 1]);
                }
            }
        }
    }
}

proof fn lemma_window_pairs_ordered(m: Seq<(i64, Seq<char>, Seq<char>, i64, i64)>, n: int)
    requires
        0 <= n <= m.len(),
    ensures
        pairs_ordered(window_pairs(m, n)),
    decreases n,
{
    if n > 0 {
        lemma_window_pairs_ordered(m, n - 1);
        lemma_window_pairs_from_ordered(m, n - 1, n);
        let a = window_pairs(m, n - 1);
        let b = window_pairs_from(m, n - 1, n);
        assert forall|k: int| 0 <= k < (a + b).len() implies lex_lt(#[trigger] (a + b)[k].0, (a + b)[k].1) by {
            if k < a.len() {
                assert((a + b)[k] == a[k]);
            } else {
                assert((a + b)[k] == b[k - a.len()]);
            }
        }
    }
}

/// Every pair of subnets recorded as seen together names two different
/// subnets, in lexicographic order, so each pair has a single key.
pub proof fn law_pairs_are_ordered(m: Seq<(i64, Seq<char>, Seq<char>, i64, i64)>)
    ensures
        pairs_ordered(
            session_pairs(first_sightings(m), first_sightings(m).len() as int) + window_pairs(
                m,
                m.len() as int,
            ),
        ),
{
    let f = first_sightings(m);
    lemma_session_pairs_ordered(m, f.len() as int);
    lemma_window_pairs_ordered(m, m.len() as int);
    let a = session_pairs(f, f.len() as int);
    let b = window_pairs(m, m.len() as int);
    assert forall|k: int| 0 <= k < (a + b).len() implies lex_lt(#[trigger] (a + b)[k].0, (a + b)[k].1) by {
        if k < a.len() {
            assert((a + b)[k] == a[k]);
        } else {
            assert((a + b)[k] == b[k - a.len()]);
        }
    }
}

} // verus!

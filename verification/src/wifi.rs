//! Lines of the macOS wifi log: their timestamps, the IP address and subnet
//! mask they report, and the subnets computed from them.
use vstd::prelude::*;

use crate::calendar::{parse_u32, parse_u32_at};
use crate::numfmt::{decimal, push_decimal};
use crate::render::append;
use crate::location::has_prefix;
use chrono::TimeZone;
use chrono::Local;
use crate::text::{chars_of, push_char, ranges_view, split_on, split_ranges};

verus! {

// ---------------------------------------------------------------------------
// Subnets
// ---------------------------------------------------------------------------

/// The value of dotted octets, each at most 255, most significant first.
pub open spec fn octets_value(parts: Seq<Seq<char>>) -> Option<nat>
    decreases parts.len(),
{
    if parts.len() == 0 {
        Some(0)
    } else {
        match octets_value(parts.drop_last()) {
            None => None,
            Some(v) => match parse_u32(parts.last()) {
                Some(o) => if o <= 255 {
                    Some(v * 256 + o)
                } else {
                    None
                },
                None => None,
            },
        }
    }
}

/// What `ip_to_u32` returns: at most four dot-separated octets of at most
/// 255, as one number.
pub open spec fn ip_value(s: Seq<char>) -> Option<nat> {
    let parts = split_on(s, '.');
    if parts.len() > 4 {
        None
    } else {
        octets_value(parts)
    }
}

/// The number of one bits of `n`.
pub open spec fn popcount(n: nat) -> nat
    decreases n,
{
    if n == 0 {
        0
    } else {
        (n % 2) + popcount(n / 2)
    }
}

/// The number of one bits of the pieces of `parts` that parse as `u32`.
pub open spec fn mask_bits(parts: Seq<Seq<char>>) -> nat
    decreases parts.len(),
{
    if parts.len() == 0 {
        0
    } else {
        mask_bits(parts.drop_last()) + match parse_u32(parts.last()) {
            Some(o) => popcount(o),
            None => 0,
        }
    }
}

proof fn lemma_octets_value_bound(parts: Seq<Seq<char>>)
    ensures
        octets_value(parts) matches Some(v) ==> v < pow256(parts.len()),
    decreases parts.len(),
{
    if parts.len() > 0 {
        lemma_octets_value_bound(parts.drop_last());
        if let Some(v) = octets_value(parts.drop_last()) {
            if let Some(o) = parse_u32(parts.last()) {
                if o <= 255 {
                    assert(v * 256 + o < pow256(parts.len())) by (nonlinear_arith)
                        requires
                            v < pow256((parts.len() - 1) as nat),
                            o <= 255,
                            pow256(parts.len()) == pow256((parts.len() - 1) as nat) * 256,
                    ;
                }
            }
        }
    }
}

pub open spec fn pow256(n: nat) -> nat
    decreases n,
{
    if n == 0 {
        1
    } else {
        pow256((n - 1) as nat) * 256
    }
}

/// Reads a dotted IPv4 address (or mask) as a number.
pub fn ip_to_u32(ip: &str) -> (r: Option<u32>)
    ensures
        match ip_value(ip@) {
            Some(v) => r == Some(v as u32) && v <= u32::MAX,
            None => r is None,
        },
{
    let s = chars_of(ip);
    let parts = split_ranges(&s, '.');
    let ghost pv = ranges_view(s@, parts@);
    if parts.len() > 4 {
        return None;
    }
    let mut result: u64 = 0;
    let mut i: usize = 0;
    proof {
        assert(pv.subrange(0, 0) =~= Seq::<Seq<char>>::empty());
        reveal_with_fuel(pow256, 5);
        assert(pow256(4) == 4294967296);
    }
    while i < parts.len()
        invariant
            i <= parts@.len() <= 4,
            pv == ranges_view(s@, parts@),
            pv == split_on(ip@, '.'),
            s@ == ip@,
            forall|k: int| 0 <= k < parts@.len() ==> #[trigger] parts@[k].0 <= parts@[k].1 <= s@.len(),
            octets_value(pv.subrange(0, i as int)) == Some(result as nat),
            result < pow256(i as nat),
            pow256(4) == 4294967296,
        decreases parts@.len() - i,
    {
        let (a, b) = parts[i];
        proof {
            assert(pv.subrange(0, i + 1).drop_last() =~= pv.subrange(0, i as int));
            assert(pv.subrange(0, i + 1).last() == s@.subrange(a as int, b as int));
        }
        let o: u32 = match parse_u32_at(&s, a, b) {
            Some(o) => o,
            None => {
                proof {
                    lemma_octets_none_extends(pv, (i + 1) as nat);
                }
                return None;
            },
        };
        if o > 255 {
            proof {
                lemma_octets_none_extends(pv, (i + 1) as nat);
            }
            return None;
        }
        proof {
            assert(result * 256 + o < pow256((i + 1) as nat)) by (nonlinear_arith)
                requires
                    result < pow256(i as nat),
                    o <= 255,
                    pow256((i + 1) as nat) == pow256(i as nat) * 256,
            ;
            lemma_pow256_mono(i as nat + 1, 4);
        }
        result = result * 256 + (o as u64);
        i = i + 1;
    }
    proof {
        assert(pv.subrange(0, pv.len() as int) =~= pv);
        lemma_pow256_mono(i as nat, 4);
    }
    Some(result as u32)
}

proof fn lemma_pow256_mono(a: nat, b: nat)
    requires
        a <= b,
    ensures
        pow256(a) <= pow256(b),
    decreases b,
{
    if a < b {
        lemma_pow256_mono(a, (b - 1) as nat);
    }
}

proof fn lemma_octets_none_extends(parts: Seq<Seq<char>>, k: nat)
    requires
        k <= parts.len(),
        octets_value(parts.subrange(0, k as int)) is None,
    ensures
        octets_value(parts) is None,
    decreases parts.len() - k,
{
    if k < parts.len() {
        assert(parts.subrange(0, k + 1 as int).drop_last() =~= parts.subrange(0, k as int));
        lemma_octets_none_extends(parts, k + 1);
    } else {
        assert(parts.subrange(0, k as int) =~= parts);
    }
}

/// The number of one bits of `n`.
fn count_ones(n: u32) -> (r: u32)
    ensures
        r == popcount(n as nat),
        r <= 32,
{
    let mut m: u32 = n;
    let mut c: u32 = 0;
    let mut k: u32 = 0;
    proof {
        reveal_with_fuel(pow2_32_minus, 33);
        assert(pow2_32_minus(0) == 4294967296);
    }
    while m > 0
        invariant
            c + popcount(m as nat) == popcount(n as nat),
            k <= 32,
            m < pow2_32_minus(k),
            c <= k,
        decreases m,
    {
        c = c + m % 2;
        m = m / 2;
        k = k + 1;
    }
    c
}

pub open spec fn pow2_32_minus(k: u32) -> nat
    decreases 32 - k,
{
    if k >= 32 {
        1
    } else {
        pow2_32_minus((k + 1) as u32) * 2
    }
}

proof fn lemma_popcount_below(m: nat, k: u32)
    requires
        k <= 32,
        m < pow2_32_minus(k),
    ensures
        popcount(m) <= 32 - k,
    decreases 32 - k,
{
    if m > 0 {
        lemma_popcount_below(m / 2, (k + 1) as u32);
    }
}

/// Each piece adds at most 32 one bits.
proof fn lemma_mask_bits_le(parts: Seq<Seq<char>>)
    ensures
        mask_bits(parts) <= 32 * parts.len(),
    decreases parts.len(),
{
    if parts.len() > 0 {
        lemma_mask_bits_le(parts.drop_last());
        match parse_u32(parts.last()) {
            Some(o) => {
                reveal_with_fuel(pow2_32_minus, 33);
                lemma_popcount_below(o, 0);
            },
            None => {},
        }
    }
}

/// The one bits of the first pieces are at most those of all of them.
proof fn lemma_mask_bits_prefix(parts: Seq<Seq<char>>, i: int)
    requires
        0 <= i <= parts.len(),
    ensures
        mask_bits(parts.subrange(0, i)) <= mask_bits(parts),
    decreases parts.len() - i,
{
    if i < parts.len() {
        lemma_mask_bits_prefix(parts, i + 1);
        assert(parts.subrange(0, i + 1).drop_last() =~= parts.subrange(0, i));
    } else {
        assert(parts.subrange(0, i) =~= parts);
    }
}

/// The prefix length of a dotted subnet mask: its one bits. The sum stays
/// within a `u32`, as `Iterator::sum` requires.
pub fn mask_to_prefix_len(mask: &str) -> (r: u32)
    requires
        mask_bits(split_on(mask@, '.')) <= u32::MAX,
    ensures
        r == mask_bits(split_on(mask@, '.')),
{
    let s = chars_of(mask);
    let parts = split_ranges(&s, '.');
    let ghost pv = ranges_view(s@, parts@);
    let mut total: u32 = 0;
    let mut i: usize = 0;
    proof {
        assert(pv.subrange(0, 0) =~= Seq::<Seq<char>>::empty());
    }
    while i < parts.len()
        invariant
            i <= parts@.len(),
            pv == ranges_view(s@, parts@),
            pv == split_on(mask@, '.'),
            mask_bits(pv) <= u32::MAX,
            forall|k: int| 0 <= k < parts@.len() ==> #[trigger] parts@[k].0 <= parts@[k].1 <= s@.len(),
            total == mask_bits(pv.subrange(0, i as int)),
        decreases parts@.len() - i,
    {
        let (a, b) = parts[i];
        proof {
            assert(pv.subrange(0, i + 1).drop_last() =~= pv.subrange(0, i as int));
            assert(pv.subrange(0, i + 1).last() == s@.subrange(a as int, b as int));
            lemma_mask_bits_prefix(pv, i + 1);
        }
        match parse_u32_at(&s, a, b) {
            Some(o) => {
                total = total + count_ones(o);
            },
            None => {},
        }
        i = i + 1;
    }
    proof {
        assert(pv.subrange(0, pv.len() as int) =~= pv);
    }
    total
}

/// The subnet of `ip` under `mask`, as `a.b.c.d/prefix`.
pub open spec fn subnet_text(ip: Seq<char>, mask: Seq<char>) -> Option<Seq<char>> {
    match (ip_value(ip), ip_value(mask)) {
        (Some(a), Some(m)) => {
            let net = (a as u32) & (m as u32);
            Some(
                decimal(((net >> 24u32) & 0xffu32) as nat) + "."@ + decimal(
                    ((net >> 16u32) & 0xffu32) as nat,
                ) + "."@ + decimal(((net >> 8u32) & 0xffu32) as nat) + "."@ + decimal(
                    (net & 0xffu32) as nat,
                ) + "/"@ + decimal(mask_bits(split_on(mask, '.'))),
            )
        },
        _ => None,
    }
}

pub open spec fn opt_view(o: Option<String>) -> Option<Seq<char>> {
    match o {
        Some(s) => Some(s@),
        None => None,
    }
}

/// The subnet of `ip` under `mask` in CIDR notation (`192.168.1.0/24`), or
/// `None` when either is not a dotted address.
pub fn compute_subnet(ip: &str, mask: &str) -> (r: Option<String>)
    ensures
        opt_view(r) == subnet_text(ip@, mask@),
{
    let ip_int: u32 = match ip_to_u32(ip) {
        Some(v) => v,
        None => return None,
    };
    let mask_int: u32 = match ip_to_u32(mask) {
        Some(v) => v,
        None => return None,
    };
    let net: u32 = ip_int & mask_int;
    proof {
        assert(split_on(mask@, '.').len() <= 4);
        lemma_mask_bits_le(split_on(mask@, '.'));
    }
    let prefix: u32 = mask_to_prefix_len(mask);
    let mut out = String::new();
    push_decimal(&mut out, ((net >> 24u32) & 0xffu32) as u128);
    append(&mut out, ".");
    push_decimal(&mut out, ((net >> 16u32) & 0xffu32) as u128);
    append(&mut out, ".");
    push_decimal(&mut out, ((net >> 8u32) & 0xffu32) as u128);
    append(&mut out, ".");
    push_decimal(&mut out, (net & 0xffu32) as u128);
    append(&mut out, "/");
    push_decimal(&mut out, prefix as u128);
    proof {
        assert(out@ =~= subnet_text(ip@, mask@).unwrap());
    }
    Some(out)
}

// ---------------------------------------------------------------------------
// Log lines
// ---------------------------------------------------------------------------

/// The position of the first occurrence of `p` in `s`.
pub open spec fn find_sub(s: Seq<char>, p: Seq<char>) -> Option<int>
    decreases s.len(),
{
    if has_prefix(s, p) {
        Some(0)
    } else if s.len() == 0 {
        None
    } else {
        match find_sub(s.drop_first(), p) {
            Some(i) => Some(i + 1),
            None => None,
        }
    }
}

/// `c` is ASCII whitespace (space, tab, line feed, form feed, carriage
/// return).
pub open spec fn is_ascii_ws(c: char) -> bool {
    c == ' ' || c == '\t' || c == '\n' || c == '\x0C' || c == '\r'
}

/// The position of the first ASCII whitespace of `s`, or its length.
pub open spec fn first_ascii_ws(s: Seq<char>) -> int
    decreases s.len(),
{
    if s.len() == 0 {
        0
    } else if is_ascii_ws(s[0]) {
        0
    } else {
        first_ascii_ws(s.drop_first()) + 1
    }
}

/// The word right after the first occurrence of `prefix` in `line`.
pub open spec fn field_after(line: Seq<char>, prefix: Seq<char>) -> Option<Seq<char>> {
    match find_sub(line, prefix) {
        None => None,
        Some(i) => {
            let rest = line.subrange(i + prefix.len(), line.len() as int);
            Some(rest.subrange(0, first_ascii_ws(rest)))
        },
    }
}

proof fn lemma_find_sub(s: Seq<char>, p: Seq<char>)
    ensures
        find_sub(s, p) matches Some(i) ==> 0 <= i && i + p.len() <= s.len() && s.subrange(
            i,
            i + p.len(),
        ) == p,
        find_sub(s, p) matches Some(i) ==> forall|j: int|
            0 <= j < i ==> !has_prefix(#[trigger] s.subrange(j, s.len() as int), p),
        find_sub(s, p) is None ==> forall|j: int|
            0 <= j <= s.len() ==> !has_prefix(#[trigger] s.subrange(j, s.len() as int), p),
    decreases s.len(),
{
    assert(s.subrange(0, s.len() as int) =~= s);
    if !has_prefix(s, p) && s.len() > 0 {
        lemma_find_sub(s.drop_first(), p);
        assert forall|j: int| 1 <= j <= s.len() implies s.subrange(j, s.len() as int)
            =~= s.drop_first().subrange(j - 1, s.drop_first().len() as int) by {}
        if let Some(i) = find_sub(s.drop_first(), p) {
            assert(s.drop_first().subrange(i, i + p.len()) =~= s.subrange(i + 1, i + 1 + p.len()));
        }
    }
    if has_prefix(s, p) {
        assert(s.subrange(0, p.len() as int) == p);
    }
}

fn prefix_at(s: &Vec<char>, p: &Vec<char>, i: usize) -> (r: bool)
    requires
        i <= s@.len(),
    ensures
        r == has_prefix(s@.subrange(i as int, s@.len() as int), p@),
{
    if p.len() > s.len() - i {
        return false;
    }
    assert(s@.len() <= usize::MAX);
    let mut k: usize = 0;
    while k < p.len()
        invariant
            k <= p@.len(),
            i + p@.len() <= s@.len(),
            s@.len() <= usize::MAX,
            forall|j: int| 0 <= j < k ==> s@[i + j] == p@[j],
        decreases p@.len() - k,
    {
        if s[i + k] != p[k] {
            proof {
                assert(s@.subrange(i as int, s@.len() as int).subrange(0, p@.len() as int)[k as int]
                    != p@[k as int]);
            }
            return false;
        }
        k = k + 1;
    }
    proof {
        assert(s@.subrange(i as int, s@.len() as int).subrange(0, p@.len() as int) =~= p@);
    }
    true
}

/// The first position of `p` in `s`.
fn find_chars(s: &Vec<char>, p: &Vec<char>) -> (r: Option<usize>)
    ensures
        match find_sub(s@, p@) {
            Some(i) => r == Some(i as usize),
            None => r is None,
        },
{
    let mut i: usize = 0;
    proof {
        assert(s@.subrange(0, s@.len() as int) =~= s@);
    }
    while i < s.len()
        invariant
            i <= s@.len(),
            match find_sub(s@.subrange(i as int, s@.len() as int), p@) {
                Some(k) => find_sub(s@, p@) == Some(k + i),
                None => find_sub(s@, p@) is None,
            },
        decreases s@.len() - i,
    {
        if prefix_at(s, p, i) {
            return Some(i);
        }
        proof {
            assert(s@.subrange(i as int, s@.len() as int).drop_first() =~= s@.subrange(
                i + 1,
                s@.len() as int,
            ));
        }
        i = i + 1;
    }
    if prefix_at(s, p, i) {
        return Some(i);
    }
    proof {
        assert(s@.subrange(i as int, s@.len() as int).len() == 0);
    }
    None
}

/// Whether `line` contains `p`.
fn contains_str(line: &Vec<char>, p: &str) -> (r: bool)
    ensures
        r == find_sub(line@, p@) is Some,
{
    let pc = chars_of(p);
    match find_chars(line, &pc) {
        Some(_) => true,
        None => false,
    }
}

/// The word right after the first occurrence of `prefix` in `line`, up to
/// the next ASCII whitespace.
pub fn extract_field(line: &str, prefix: &str) -> (r: Option<String>)
    ensures
        opt_view(r) == field_after(line@, prefix@),
{
    let s = chars_of(line);
    let p = chars_of(prefix);
    let idx: usize = match find_chars(&s, &p) {
        Some(i) => i,
        None => return None,
    };
    proof {
        lemma_find_sub(s@, p@);
        assert(s@.len() == s.len());
        assert(idx + p@.len() <= s@.len());
    }
    let start: usize = idx + p.len();
    let mut end: usize = start;
    let ghost rest = s@.subrange(start as int, s@.len() as int);
    proof {
        assert(s@.subrange(start as int, s@.len() as int) =~= rest);
    }
    while end < s.len()
        invariant
            start <= end <= s@.len(),
            rest == s@.subrange(start as int, s@.len() as int),
            first_ascii_ws(rest) == first_ascii_ws(s@.subrange(end as int, s@.len() as int)) + (
            end - start),
        ensures
            start <= end <= s@.len(),
            first_ascii_ws(rest) == end - start,
        decreases s@.len() - end,
    {
        let c = s[end];
        if c == ' ' || c == '\t' || c == '\n' || c == '\x0C' || c == '\r' {
            proof {
                assert(s@.subrange(end as int, s@.len() as int)[0] == c);
            }
            break;
        }
        proof {
            assert(s@.subrange(end as int, s@.len() as int).drop_first() =~= s@.subrange(
                end + 1,
                s@.len() as int,
            ));
        }
        end = end + 1;
    }
    let mut out = String::new();
    let mut k: usize = start;
    while k < end
        invariant
            start <= k <= end <= s@.len(),
            out@ == s@.subrange(start as int, k as int),
        decreases end - k,
    {
        push_char(&mut out, s[k]);
        proof {
            assert(s@.subrange(start as int, k + 1) =~= s@.subrange(start as int, k as int).push(
                s@[k as int],
            ));
        }
        k = k + 1;
    }
    proof {
        assert(rest.subrange(0, first_ascii_ws(rest)) =~= s@.subrange(start as int, end as int));
    }
    Some(out)
}

/// The number of a month from its English three-letter abbreviation.
pub open spec fn month_number(abbr: Seq<char>) -> Option<u32> {
    if abbr == "Jan"@ {
        Some(1)
    } else if abbr == "Feb"@ {
        Some(2)
    } else if abbr == "Mar"@ {
        Some(3)
    } else if abbr == "Apr"@ {
        Some(4)
    } else if abbr == "May"@ {
        Some(5)
    } else if abbr == "Jun"@ {
        Some(6)
    } else if abbr == "Jul"@ {
        Some(7)
    } else if abbr == "Aug"@ {
        Some(8)
    } else if abbr == "Sep"@ {
        Some(9)
    } else if abbr == "Oct"@ {
        Some(10)
    } else if abbr == "Nov"@ {
        Some(11)
    } else if abbr == "Dec"@ {
        Some(12)
    } else {
        None
    }
}

/// The number of a month from its English three-letter abbreviation.
pub fn month_abbr_to_num(abbr: &str) -> (r: Option<u32>)
    ensures
        r == month_number(abbr@),
{
    if crate::text::str_eq(abbr, "Jan") {
        Some(1)
    } else if crate::text::str_eq(abbr, "Feb") {
        Some(2)
    } else if crate::text::str_eq(abbr, "Mar") {
        Some(3)
    } else if crate::text::str_eq(abbr, "Apr") {
        Some(4)
    } else if crate::text::str_eq(abbr, "May") {
        Some(5)
    } else if crate::text::str_eq(abbr, "Jun") {
        Some(6)
    } else if crate::text::str_eq(abbr, "Jul") {
        Some(7)
    } else if crate::text::str_eq(abbr, "Aug") {
        Some(8)
    } else if crate::text::str_eq(abbr, "Sep") {
        Some(9)
    } else if crate::text::str_eq(abbr, "Oct") {
        Some(10)
    } else if crate::text::str_eq(abbr, "Nov") {
        Some(11)
    } else if crate::text::str_eq(abbr, "Dec") {
        Some(12)
    } else {
        None
    }
}

// ---------------------------------------------------------------------------
// Timestamps
// ---------------------------------------------------------------------------

/// `c` is white space as `char::is_whitespace` says (the Unicode
/// `White_Space` property).
pub open spec fn is_white_space(c: char) -> bool {
    ||| c == ' '
    ||| ('\t' <= c && c <= '\r')
    ||| c == '\u{85}'
    ||| c == '\u{A0}'
    ||| c == '\u{1680}'
    ||| ('\u{2000}' <= c && c <= '\u{200A}')
    ||| c == '\u{2028}'
    ||| c == '\u{2029}'
    ||| c == '\u{202F}'
    ||| c == '\u{205F}'
    ||| c == '\u{3000}'
}

fn white_space(c: char) -> (r: bool)
    ensures
        r == is_white_space(c),
{
    c == ' ' || ('\t' <= c && c <= '\r') || c == '\u{85}' || c == '\u{A0}' || c == '\u{1680}' || (
    '\u{2000}' <= c && c <= '\u{200A}') || c == '\u{2028}' || c == '\u{2029}' || c == '\u{202F}'
        || c == '\u{205F}' || c == '\u{3000}'
}

pub open spec fn trim_start_ws(s: Seq<char>) -> Seq<char>
    decreases s.len(),
{
    if s.len() > 0 && is_white_space(s[0]) {
        trim_start_ws(s.drop_first())
    } else {
        s
    }
}

pub open spec fn trim_end_ws(s: Seq<char>) -> Seq<char>
    decreases s.len(),
{
    if s.len() > 0 && is_white_space(s.last()) {
        trim_end_ws(s.drop_last())
    } else {
        s
    }
}

/// `s` without leading and trailing white space, as `str::trim` gives it.
pub open spec fn trim_ws(s: Seq<char>) -> Seq<char> {
    trim_end_ws(trim_start_ws(s))
}

fn trim_range(s: &Vec<char>, from: usize, to: usize) -> (r: (usize, usize))
    requires
        from <= to <= s@.len(),
    ensures
        from <= r.0 <= r.1 <= to,
        s@.subrange(r.0 as int, r.1 as int) == trim_ws(s@.subrange(from as int, to as int)),
{
    let mut a: usize = from;
    while a < to && white_space(s[a])
        invariant
            from <= a <= to <= s@.len(),
            trim_start_ws(s@.subrange(from as int, to as int)) == trim_start_ws(
                s@.subrange(a as int, to as int),
            ),
        decreases to - a,
    {
        proof {
            assert(s@.subrange(a as int, to as int).drop_first() =~= s@.subrange(a + 1, to as int));
        }
        a = a + 1;
    }
    proof {
        assert(trim_start_ws(s@.subrange(a as int, to as int)) == s@.subrange(a as int, to as int));
    }
    let mut b: usize = to;
    while b > a && white_space(s[b - 1])
        invariant
            from <= a <= b <= to <= s@.len(),
            trim_end_ws(s@.subrange(a as int, to as int)) == trim_end_ws(
                s@.subrange(a as int, b as int),
            ),
        decreases b - a,
    {
        proof {
            assert(s@.subrange(a as int, b as int).drop_last() =~= s@.subrange(a as int, b - 1));
        }
        b = b - 1;
    }
    (a, b)
}

/// The month, day, hour, minute and second at the start of a wifi log line
/// such as `"Tue May 19 11:45:33.009 ..."` (the day may be space-padded).
pub open spec fn timestamp_fields(line: Seq<char>) -> Option<(u32, u32, u32, u32, u32)> {
    if line.len() < 20 || line[3] != ' ' || line[7] != ' ' || line[10] != ' ' {
        None
    } else {
        let t = line.subrange(11, line.len() as int);
        match (
            month_number(line.subrange(4, 7)),
            parse_u32(trim_ws(line.subrange(8, 10))),
            parse_u32(t.subrange(0, 2)),
            parse_u32(t.subrange(3, 5)),
            parse_u32(t.subrange(6, 8)),
        ) {
            (Some(mo), Some(d), Some(h), Some(mi), Some(sec)) => if t[2] == ':' && t[5] == ':' {
                Some((mo, d as u32, h as u32, mi as u32, sec as u32))
            } else {
                None
            },
            _ => None,
        }
    }
}

fn parse_part(s: &Vec<char>, from: usize, to: usize) -> (r: Option<u32>)
    requires
        from <= to <= s@.len(),
    ensures
        match parse_u32(s@.subrange(from as int, to as int)) {
            Some(v) => r == Some(v as u32),
            None => r is None,
        },
{
    parse_u32_at(s, from, to)
}

/// Reads the month, day and time at the start of a wifi log line.
pub fn wifi_log_time_fields(line: &str) -> (r: Option<(u32, u32, u32, u32, u32)>)
    ensures
        r == timestamp_fields(line@),
{
    let s = chars_of(line);
    if s.len() < 20 || s[3] != ' ' || s[7] != ' ' || s[10] != ' ' {
        return None;
    }
    let mut abbr = String::new();
    push_char(&mut abbr, s[4]);
    push_char(&mut abbr, s[5]);
    push_char(&mut abbr, s[6]);
    proof {
        assert(abbr@ =~= s@.subrange(4, 7));
    }
    let month = month_abbr_to_num(abbr.as_str());
    let (da, db) = trim_range(&s, 8, 10);
    let day = parse_part(&s, da, db);
    let hour = parse_part(&s, 11, 13);
    let minute = parse_part(&s, 14, 16);
    let second = parse_part(&s, 17, 19);
    let ghost t = s@.subrange(11, s@.len() as int);
    proof {
        assert(t.subrange(0, 2) =~= s@.subrange(11, 13));
        assert(t.subrange(3, 5) =~= s@.subrange(14, 16));
        assert(t.subrange(6, 8) =~= s@.subrange(17, 19));
        assert(t[2] == s@[13]);
        assert(t[5] == s@[16]);
    }
    match (month, day, hour, minute, second) {
        (Some(mo), Some(d), Some(h), Some(mi), Some(sec)) => {
            if s[13] == ':' && s[16] == ':' {
                Some((mo, d, h, mi, sec))
            } else {
                None
            }
        },
        _ => None,
    }
}

/// The instant of a local date and time, in milliseconds since the Unix
/// epoch, when it exists as a single instant in the machine's time zone.
///
/// Calls `Local.with_ymd_and_hms`, `LocalResult::single` and
/// `DateTime::timestamp_millis`. `with_ymd_and_hms` gives nothing when the
/// date does not exist or the time is not within a day, and otherwise takes
/// the wall-clock reading back by `Local`'s `FixedOffset`, which is less than
/// a day; so an instant it gives lies less than a day from the reading.
/// Whether a valid local time is a single instant, and which, depends on the
/// machine's time zone and is not stated.
#[verifier::external_body]
pub(crate) fn local_instant_ms(y: i32, mo: u32, d: u32, h: u32, mi: u32, sec: u32) -> (r: Option<
    i64,
>)
    ensures
        r matches Some(t) ==> crate::calendar::valid_ymd(y as int, mo as int, d as int) && h < 24
            && mi < 60 && sec < 60 && crate::calendar::within_a_day(
            t as int,
            crate::calendar::wall_ms(y as int, mo as int, d as int, h as int, mi as int, sec as int),
        ),
{
    Local.with_ymd_and_hms(y, mo, d, h, mi, sec).single().map(|dt| dt.timestamp_millis())
}

/// `ts` can be what `parse_wifi_log_timestamp` gives for `line` in `year`:
/// nothing when the line has no timestamp, and an instant only for a valid
/// date and time, less than a day from that date and time read as UTC.
pub open spec fn log_instant_of(line: Seq<char>, year: int, ts: Option<i64>) -> bool {
    &&& timestamp_fields(line) is None ==> ts is None
    &&& ts matches Some(t) ==> (timestamp_fields(line) matches Some((mo, d, h, mi, sec))
        && crate::calendar::valid_ymd(year, mo as int, d as int) && h < 24 && mi < 60 && sec < 60
        && crate::calendar::within_a_day(
        t as int,
        crate::calendar::wall_ms(year, mo as int, d as int, h as int, mi as int, sec as int),
    ))
}

/// Parses the timestamp at the start of a wifi log line
/// (`"Tue May 19 11:45:33.009"`) in the given year, as local time, in
/// milliseconds since the Unix epoch.
pub fn parse_wifi_log_timestamp(line: &str, year: i32) -> (r: Option<i64>)
    ensures
        log_instant_of(line@, year as int, r),
{
    match wifi_log_time_fields(line) {
        None => None,
        Some((mo, d, h, mi, sec)) => local_instant_ms(year, mo, d, h, mi, sec),
    }
}

// ---------------------------------------------------------------------------
// Reading a log
// ---------------------------------------------------------------------------

/// An IP address acquired (or lost, with an empty address and subnet) at a
/// time.
#[derive(Debug, Clone)]
pub struct IpEvent {
    pub time_ms: i64,
    pub ip: String,
    pub subnet: String,
}

pub open spec fn ip_event_view(e: IpEvent) -> (i64, Seq<char>, Seq<char>) {
    (e.time_ms, e.ip@, e.subnet@)
}

/// The state of a log reader between two lines.
pub struct ParserState {
    pub current_ts: Option<i64>,
    pub ip: Option<Seq<char>>,
    pub mask: Option<Seq<char>>,
    pub events: Seq<(i64, Seq<char>, Seq<char>)>,
}

/// Ends the block of the current timestamp: an address with a mask becomes
/// an event (`0.0.0.0` means the address was lost); either way the address
/// and mask are forgotten.
pub open spec fn flush_state(st: ParserState) -> ParserState {
    match st.current_ts {
        None => st,
        Some(ts) => {
            let events = match (st.ip, st.mask) {
                (Some(ip), Some(mask)) => if ip == "0.0.0.0"@ {
                    st.events.push((ts, Seq::empty(), Seq::empty()))
                } else {
                    match subnet_text(ip, mask) {
                        Some(subnet) => st.events.push((ts, ip, subnet)),
                        None => st.events,
                    }
                },
                _ => st.events,
            };
            ParserState { ip: None, mask: None, events, ..st }
        },
    }
}

/// Reads one line whose timestamp (if it has one) is `ts`: a new timestamp
/// starts a new block; an `IP Address:` (not of a router, gateway or
/// default route) and an `IP subnet mask:` are remembered.
pub open spec fn feed_state(st: ParserState, line: Seq<char>, ts: Option<i64>) -> ParserState {
    let st1 = match ts {
        Some(t) => if Some(t) != st.current_ts {
            ParserState { current_ts: Some(t), ip: None, mask: None, ..flush_state(st) }
        } else {
            st
        },
        None => st,
    };
    let plain = find_sub(line, "Router"@) is None && find_sub(line, "Gateway"@) is None
        && find_sub(line, "Default"@) is None;
    let st2 = if plain && field_after(line, "IP Address: "@) is Some {
        ParserState { ip: field_after(line, "IP Address: "@), ..st1 }
    } else {
        st1
    };
    match field_after(line, "IP subnet mask: "@) {
        Some(m) => ParserState { mask: Some(m), ..st2 },
        None => st2,
    }
}

/// Reads the lines of one wifi log, block by block.
pub struct LineParser {
    current_ts: Option<i64>,
    ip: Option<String>,
    mask: Option<String>,
    events: Vec<IpEvent>,
    year: i32,
}

impl LineParser {
    pub closed spec fn state(&self) -> ParserState {
        ParserState {
            current_ts: self.current_ts,
            ip: opt_view(self.ip),
            mask: opt_view(self.mask),
            events: self.events@.map_values(|e: IpEvent| ip_event_view(e)),
        }
    }

    pub closed spec fn year_of(&self) -> i32 {
        self.year
    }

    /// A reader of a log whose lines are in `year`.
    pub fn new(year: i32) -> (r: LineParser)
        ensures
            r.state() == (ParserState {
                current_ts: None,
                ip: None,
                mask: None,
                events: Seq::empty(),
            }),
            r.year_of() == year,
    {
        let r = LineParser { current_ts: None, ip: None, mask: None, events: Vec::new(), year };
        proof {
            assert(r.events@.map_values(|e: IpEvent| ip_event_view(e)) =~= Seq::<
                (i64, Seq<char>, Seq<char>),
            >::empty());
        }
        r
    }

    /// Ends the block of the current timestamp.
    pub fn flush(&mut self)
        ensures
            final(self).state() == flush_state(old(self).state()),
            final(self).year_of() == old(self).year_of(),
    {
        let ts = match self.current_ts {
            Some(t) => t,
            None => return,
        };
        let ip = self.ip.take();
        let mask = self.mask.take();
        match (ip, mask) {
            (Some(ip), Some(mask)) => {
                if crate::text::str_eq(ip.as_str(), "0.0.0.0") {
                    let e = IpEvent { time_ms: ts, ip: String::new(), subnet: String::new() };
                    proof {
                        assert(self.events@.push(e).map_values(|e: IpEvent| ip_event_view(e))
                            =~= self.events@.map_values(|e: IpEvent| ip_event_view(e)).push(
                            ip_event_view(e),
                        ));
                    }
                    self.events.push(e);
                } else {
                    match compute_subnet(ip.as_str(), mask.as_str()) {
                        Some(subnet) => {
                            let e = IpEvent { time_ms: ts, ip, subnet };
                            proof {
                                assert(self.events@.push(e).map_values(
                                    |e: IpEvent| ip_event_view(e),
                                ) =~= self.events@.map_values(|e: IpEvent| ip_event_view(e)).push(
                                    ip_event_view(e),
                                ));
                            }
                            self.events.push(e);
                        },
                        None => {},
                    }
                }
            },
            _ => {},
        }
    }

    /// Reads one line whose timestamp, if it has one, is `ts`.
    pub fn feed_line_at(&mut self, line: &str, ts: Option<i64>)
        ensures
            final(self).state() == feed_state(old(self).state(), line@, ts),
            final(self).year_of() == old(self).year_of(),
    {
        match ts {
            Some(t) => {
                let same = match self.current_ts {
                    Some(c) => c == t,
                    None => false,
                };
                if !same {
                    self.flush();
                    self.current_ts = Some(t);
                    self.ip = None;
                    self.mask = None;
                }
            },
            None => {},
        }
        let ghost st1 = self.state();
        let s = chars_of(line);
        let plain = !contains_str(&s, "Router") && !contains_str(&s, "Gateway") && !contains_str(
            &s,
            "Default",
        );
        if plain {
            match extract_field(line, "IP Address: ") {
                Some(ip) => {
                    self.ip = Some(ip);
                },
                None => {},
            }
        }
        match extract_field(line, "IP subnet mask: ") {
            Some(mask) => {
                self.mask = Some(mask);
            },
            None => {},
        }
    }

    /// Reads one line of the log.
    pub fn feed_line(&mut self, line: &str)
        ensures
            exists|ts: Option<i64>|
                {
                    &&& log_instant_of(line@, old(self).year_of() as int, ts)
                    &&& final(self).state() == #[trigger] feed_state(old(self).state(), line@, ts)
                },
            final(self).year_of() == old(self).year_of(),
    {
        let ts = parse_wifi_log_timestamp(line, self.year);
        self.feed_line_at(line, ts);
    }

    /// The events of the whole log, once its last block is ended.
    pub fn finish(self) -> (r: Vec<IpEvent>)
        ensures
            r@.map_values(|e: IpEvent| ip_event_view(e)) == flush_state(self.state()).events,
    {
        let mut p = self;
        p.flush();
        p.events
    }
}

} // verus!

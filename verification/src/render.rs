//! Colored, padded text for the terminal: the day and month tables.
use vstd::prelude::*;

use crate::calendar::{
    date_weekday_name, has_date_parts, local_midnight_of, midnight_of_date, parse_u32, parse_u32_or_zero,
    weekday_prefix,
};
use crate::numfmt::{decimal, duration_text, format_duration, div_rem_toward_zero, pad2, push_decimal, push_pad2, tdiv, trem};
use crate::text::{chars_of, push_char, str_eq};
use crate::report::{DayReport, MonthBreak, MonthReport, MonthReportRow, ReportInterval};
use crate::types::IntervalLabel;

verus! {

// ---------------------------------------------------------------------------
// Text building
// ---------------------------------------------------------------------------

/// Appends the characters of `t` to `out`.
pub fn append(out: &mut String, t: &str)
    ensures
        final(out)@ == old(out)@ + t@,
{
    let cs = chars_of(t);
    let ghost start = out@;
    let mut i: usize = 0;
    while i < cs.len()
        invariant
            i <= cs@.len(),
            cs@ == t@,
            out@ == start + cs@.subrange(0, i as int),
        decreases cs@.len() - i,
    {
        push_char(out, cs[i]);
        proof {
            assert(cs@.subrange(0, i + 1) =~= cs@.subrange(0, i as int).push(cs@[i as int]));
        }
        i = i + 1;
    }
    proof {
        assert(cs@.subrange(0, cs@.len() as int) =~= cs@);
    }
}

/// `n` copies of `c`.
pub open spec fn repeat_char(c: char, n: nat) -> Seq<char> {
    Seq::new(n, |i: int| c)
}

/// Appends `n` copies of `c`.
pub fn push_repeat(out: &mut String, c: char, n: usize)
    ensures
        final(out)@ == old(out)@ + repeat_char(c, n as nat),
{
    let ghost start = out@;
    let mut i: usize = 0;
    while i < n
        invariant
            i <= n,
            out@ == start + repeat_char(c, i as nat),
        decreases n - i,
    {
        push_char(out, c);
        proof {
            assert(repeat_char(c, (i + 1) as nat) =~= repeat_char(c, i as nat).push(c));
        }
        i = i + 1;
    }
}

/// `s` followed by spaces up to `width` characters.
pub open spec fn pad_end(s: Seq<char>, width: nat) -> Seq<char> {
    if s.len() >= width {
        s
    } else {
        s + repeat_char(' ', (width - s.len()) as nat)
    }
}

/// `s` preceded by spaces up to `width` characters.
pub open spec fn pad_start(s: Seq<char>, width: nat) -> Seq<char> {
    if s.len() >= width {
        s
    } else {
        repeat_char(' ', (width - s.len()) as nat) + s
    }
}

/// Appends `s` padded at the end to `width` characters.
pub fn push_pad_end(out: &mut String, s: &str, width: usize)
    ensures
        final(out)@ == old(out)@ + pad_end(s@, width as nat),
{
    let n: usize = s.unicode_len();
    append(out, s);
    if n < width {
        push_repeat(out, ' ', width - n);
    }
    proof {
        assert(final(out)@ =~= old(out)@ + pad_end(s@, width as nat)) by {
        }
    }
}

/// Appends `s` padded at the start to `width` characters.
pub fn push_pad_start(out: &mut String, s: &str, width: usize)
    ensures
        final(out)@ == old(out)@ + pad_start(s@, width as nat),
{
    let n: usize = s.unicode_len();
    let ghost start = out@;
    if n < width {
        push_repeat(out, ' ', width - n);
    }
    append(out, s);
    proof {
        assert(out@ =~= start + pad_start(s@, width as nat));
    }
}

// ---------------------------------------------------------------------------
// Colors
// ---------------------------------------------------------------------------

/// The roles text plays in the tables, each with its own color.
#[derive(Debug, Clone, Copy, PartialEq, Eq, Structural)]
pub enum Paint {
    Date,
    Work,
    Time,
    BreakDuration,
    Chrome,
}

pub open spec fn paint_bold(p: Paint) -> bool {
    p == Paint::Date || p == Paint::Work
}

pub open spec fn paint_rgb(p: Paint) -> (u8, u8, u8) {
    match p {
        Paint::Date => (0x83, 0xA5, 0x98),
        Paint::Work => (0xB8, 0xBB, 0x26),
        Paint::Time => (0xEB, 0xDB, 0xB2),
        Paint::BreakDuration => (0xFE, 0x80, 0x19),
        Paint::Chrome => (0x7C, 0x6F, 0x64),
    }
}

/// `s` wrapped in the ANSI escapes of `p` (24-bit color, bold for dates and
/// work), or `s` itself without color.
pub open spec fn painted(s: Seq<char>, p: Paint, color: bool) -> Seq<char> {
    if !color {
        s
    } else {
        let (r, g, b) = paint_rgb(p);
        (if paint_bold(p) {
            "\x1b[1m"@
        } else {
            Seq::empty()
        }) + "\x1b[38;2;"@ + decimal(r as nat) + ";"@ + decimal(g as nat) + ";"@ + decimal(
            b as nat,
        ) + "m"@ + s + "\x1b[0m"@
    }
}

fn rgb_of(p: Paint) -> (r: (u8, u8, u8))
    ensures
        r == paint_rgb(p),
{
    match p {
        Paint::Date => (0x83, 0xA5, 0x98),
        Paint::Work => (0xB8, 0xBB, 0x26),
        Paint::Time => (0xEB, 0xDB, 0xB2),
        Paint::BreakDuration => (0xFE, 0x80, 0x19),
        Paint::Chrome => (0x7C, 0x6F, 0x64),
    }
}

/// Appends `s` painted with `p`.
pub fn push_painted(out: &mut String, s: &str, p: Paint, color: bool)
    ensures
        final(out)@ == old(out)@ + painted(s@, p, color),
{
    let ghost start = out@;
    if !color {
        append(out, s);
        return;
    }
    let (r, g, b) = rgb_of(p);
    let bold = match p {
        Paint::Date => true,
        Paint::Work => true,
        _ => false,
    };
    if bold {
        append(out, "\x1b[1m");
    }
    let ghost after_bold = out@;
    append(out, "\x1b[38;2;");
    push_decimal(out, r as u128);
    append(out, ";");
    push_decimal(out, g as u128);
    append(out, ";");
    push_decimal(out, b as u128);
    append(out, "m");
    append(out, s);
    append(out, "\x1b[0m");
    proof {
        if bold {
            assert(after_bold == start + "\x1b[1m"@);
        } else {
            assert(after_bold =~= start + Seq::<char>::empty());
        }
        assert(out@ =~= start + painted(s@, p, color));
    }
}

/// `s` painted with `p`, as a new string.
pub fn paint(s: &str, p: Paint, color: bool) -> (r: String)
    ensures
        r@ == painted(s@, p, color),
{
    let mut out = String::new();
    push_painted(&mut out, s, p, color);
    proof {
        assert(out@ =~= painted(s@, p, color));
    }
    out
}

// ---------------------------------------------------------------------------
// Times of day
// ---------------------------------------------------------------------------

/// `"HH:MM"` for the time `ts_ms`, counted from `midnight_ms`; hours go past
/// 24 for times of the next day. With `round_up`, `(ms + 59999) / 60000`
/// minutes, else `ms / 60000` (both rounded toward zero).
pub open spec fn clock_text(midnight_ms: int, ts_ms: int, round_up: bool) -> Seq<char> {
    let ms = ts_ms - midnight_ms;
    let total = if round_up {
        tdiv(ms + 59_999, 60_000)
    } else {
        tdiv(ms, 60_000)
    };
    pad2(tdiv(total, 60)) + ":"@ + pad2(trem(total, 60))
}

/// The time `ts_ms` as `"HH:MM"` counted from `midnight_ms`.
pub fn format_time_since(midnight_ms: i64, ts_ms: i64, round_up: bool) -> (r: String)
    requires
        -5_000_000_000_000_000_000 < ts_ms - midnight_ms < 5_000_000_000_000_000_000,
    ensures
        r@ == clock_text(midnight_ms as int, ts_ms as int, round_up),
{
    let ms: i64 = ts_ms - midnight_ms;
    let (total, _) = if round_up {
        div_rem_toward_zero(ms + 59_999, 60_000)
    } else {
        div_rem_toward_zero(ms, 60_000)
    };
    let (hours, minutes) = div_rem_toward_zero(total, 60);
    let mut out = String::new();
    push_pad2(&mut out, hours);
    append(&mut out, ":");
    push_pad2(&mut out, minutes);
    proof {
        assert(out@ =~= clock_text(midnight_ms as int, ts_ms as int, round_up));
    }
    out
}

/// Timestamps the tables can take differences of.
pub open spec fn ts_ok(t: int) -> bool {
    -4_000_000_000_000_000_000 <= t <= 4_000_000_000_000_000_000
}

/// Returns `"HH:MM"` where `HH` can exceed 24 for next-day times, counted
/// from local midnight of `base_date`. `round_up` rounds the minutes up.
///
/// Local midnight depends on the machine's time zone; the text counts from
/// a midnight that `midnight_of_date` allows for `base_date`.
pub fn format_extended_time(base_date: &str, ts_ms: i64, round_up: bool) -> (r: String)
    requires
        has_date_parts(base_date@),
        ts_ok(ts_ms as int),
    ensures
        exists|m: int|
            midnight_of_date(base_date@, m) && r@ == #[trigger] clock_text(m, ts_ms as int, round_up),
{
    let midnight: i64 = local_midnight_of(base_date);
    let r = format_time_since(midnight, ts_ms, round_up);
    proof {
        assert(midnight_of_date(base_date@, midnight as int) && r@ == clock_text(
            midnight as int,
            ts_ms as int,
            round_up,
        ));
    }
    r
}

// ---------------------------------------------------------------------------
// Office symbols
// ---------------------------------------------------------------------------

/// The check mark shown for the main office (U+2713, text presentation).
pub open spec fn check_mark() -> Seq<char> {
    seq!['\u{2713}', '\u{FE0E}']
}

/// The superscript digit `i + 2` (`i < 8`).
pub open spec fn superscript(i: int) -> char {
    if i == 0 {
        '\u{B2}'
    } else if i == 1 {
        '\u{B3}'
    } else {
        ((0x2074 + i - 2) as char)
    }
}

/// The position of the first `x` in `s`.
pub open spec fn index_in(s: Seq<Seq<char>>, x: Seq<char>) -> Option<int>
    decreases s.len(),
{
    if s.len() == 0 {
        None
    } else if s[0] == x {
        Some(0)
    } else {
        match index_in(s.drop_first(), x) {
            Some(i) => Some(i + 1),
            None => None,
        }
    }
}

/// The symbol of another office: `*` when there is only one other office,
/// else the superscript of its rank (from `²`), or the rank as a number past
/// `⁹`. An office not in the list gets the first symbol.
pub open spec fn other_symbol(id: Seq<char>, other_ids: Seq<Seq<char>>) -> Seq<char> {
    if other_ids.len() == 1 {
        "*"@
    } else {
        let i = match index_in(other_ids, id) {
            Some(i) => i,
            None => 0,
        };
        if i < 8 {
            seq![superscript(i)]
        } else {
            decimal((i + 2) as nat)
        }
    }
}

/// The views of a sequence of strings.
pub open spec fn views(v: Seq<String>) -> Seq<Seq<char>> {
    v.map_values(|s: String| s@)
}

proof fn lemma_index_in(s: Seq<Seq<char>>, x: Seq<char>)
    ensures
        index_in(s, x) matches Some(i) ==> 0 <= i < s.len() && s[i] == x,
    decreases s.len(),
{
    if s.len() > 0 {
        lemma_index_in(s.drop_first(), x);
    }
}

fn index_of_id(other_ids: &[String], id: &str) -> (r: Option<usize>)
    ensures
        index_in(views(other_ids@), id@) matches Some(k) ==> 0 <= k < other_ids@.len(),
        match index_in(views(other_ids@), id@) {
            Some(i) => r == Some(i as usize),
            None => r is None,
        },
        r matches Some(k) ==> k < other_ids@.len(),
{
    let ghost v = views(other_ids@);
    let mut i: usize = 0;
    proof {
        assert(v.subrange(0, v.len() as int) =~= v);
        lemma_index_in(v, id@);
    }
    while i < other_ids.len()
        invariant
            i <= other_ids@.len(),
            v == views(other_ids@),
            match index_in(v.subrange(i as int, v.len() as int), id@) {
                Some(k) => index_in(v, id@) == Some(k + i),
                None => index_in(v, id@) is None,
            },
        decreases other_ids@.len() - i,
    {
        proof {
            assert(v.subrange(i as int, v.len() as int).drop_first() =~= v.subrange(
                i + 1,
                v.len() as int,
            ));
            assert(v.subrange(i as int, v.len() as int)[0] == other_ids@[i as int]@);
        }
        if str_eq(other_ids[i].as_str(), id) {
            return Some(i);
        }
        i = i + 1;
    }
    None
}

fn superscript_char(i: usize) -> (c: char)
    requires
        i < 8,
    ensures
        c == superscript(i as int),
{
    if i == 0 {
        '\u{B2}'
    } else if i == 1 {
        '\u{B3}'
    } else if i == 2 {
        '\u{2074}'
    } else if i == 3 {
        '\u{2075}'
    } else if i == 4 {
        '\u{2076}'
    } else if i == 5 {
        '\u{2077}'
    } else if i == 6 {
        '\u{2078}'
    } else {
        '\u{2079}'
    }
}

/// The symbol of another office in the RTO column.
pub fn rto_other_symbol(other_id: &str, other_ids: &[String]) -> (r: String)
    ensures
        r@ == other_symbol(other_id@, views(other_ids@)),
{
    let mut out = String::new();
    if other_ids.len() == 1 {
        append(&mut out, "*");
        proof {
            assert(out@ =~= "*"@);
        }
        return out;
    }
    let i: usize = match index_of_id(other_ids, other_id) {
        Some(i) => i,
        None => 0,
    };
    let ghost si: int = match index_in(views(other_ids@), other_id@) {
        Some(k) => k,
        None => 0,
    };
    assert(si == i);
    if i < 8 {
        push_char(&mut out, superscript_char(i));
        proof {
            assert(out@ =~= seq![superscript(i as int)]);
        }
    } else {
        push_decimal(&mut out, (i as u128) + 2);
        proof {
            assert(out@ =~= decimal((i + 2) as nat));
        }
    }
    assert(views(other_ids@).len() == other_ids@.len());
    out
}

/// The RTO symbol of a location: the check mark for the main office, the
/// office's symbol for another one, nothing without a location.
pub open spec fn rto_symbol_text(
    location: Option<Seq<char>>,
    dominant: Option<Seq<char>>,
    other_ids: Seq<Seq<char>>,
    color: bool,
) -> Seq<char> {
    match location {
        None => Seq::empty(),
        Some(l) => if dominant == Some(l) {
            painted(check_mark(), Paint::Work, color)
        } else {
            painted(other_symbol(l, other_ids), Paint::BreakDuration, color)
        },
    }
}

pub open spec fn opt_view(o: Option<String>) -> Option<Seq<char>> {
    match o {
        Some(s) => Some(s@),
        None => None,
    }
}

fn same_opt(a: &Option<String>, b: &str) -> (r: bool)
    ensures
        r == (opt_view(*a) == Some(b@)),
{
    match a {
        Some(x) => str_eq(x.as_str(), b),
        None => false,
    }
}

fn check_mark_string() -> (r: String)
    ensures
        r@ == check_mark(),
{
    let mut out = String::new();
    push_char(&mut out, '\u{2713}');
    push_char(&mut out, '\u{FE0E}');
    proof {
        assert(out@ =~= check_mark());
    }
    out
}

/// Appends the RTO symbol of `location`.
fn push_rto_symbol(
    out: &mut String,
    location: &str,
    dominant: &Option<String>,
    other_ids: &[String],
    color: bool,
)
    ensures
        final(out)@ == old(out)@ + rto_symbol_text(
            Some(location@),
            opt_view(*dominant),
            views(other_ids@),
            color,
        ),
{
    if same_opt(dominant, location) {
        let mark = check_mark_string();
        push_painted(out, mark.as_str(), Paint::Work, color);
    } else {
        let sym = rto_other_symbol(location, other_ids);
        push_painted(out, sym.as_str(), Paint::BreakDuration, color);
    }
}

/// `parts` joined with `sep` between them.
pub open spec fn join_with(parts: Seq<Seq<char>>, sep: Seq<char>) -> Seq<char>
    decreases parts.len(),
{
    if parts.len() == 0 {
        Seq::empty()
    } else if parts.len() == 1 {
        parts[0]
    } else {
        join_with(parts.drop_last(), sep) + sep + parts.last()
    }
}

/// The other offices that appear in `used`, in the order of `other_ids`.
pub open spec fn used_others(other_ids: Seq<Seq<char>>, used: Seq<Seq<char>>) -> Seq<Seq<char>>
    decreases other_ids.len(),
{
    if other_ids.len() == 0 {
        Seq::empty()
    } else {
        let rest = used_others(other_ids.drop_last(), used);
        if used.contains(other_ids.last()) {
            rest.push(other_ids.last())
        } else {
            rest
        }
    }
}

/// The legend under a table: a line for the main office if it was used, and
/// a line with the symbols of the other offices that were used.
pub open spec fn legend_lines(
    dominant: Option<Seq<char>>,
    other_ids: Seq<Seq<char>>,
    used: Seq<Seq<char>>,
    color: bool,
) -> Seq<Seq<char>> {
    let main = match dominant {
        Some(d) => if used.contains(d) {
            seq![painted(check_mark(), Paint::Work, color) + painted("  Main office"@, Paint::Chrome, color)]
        } else {
            Seq::empty()
        },
        None => Seq::empty(),
    };
    let others = used_others(other_ids, used);
    if others.len() > 0 {
        main.push(
            join_with(
                others.map_values(
                    |id: Seq<char>| painted(other_symbol(id, other_ids), Paint::BreakDuration, color),
                ),
                " "@,
            ) + painted("  Other office"@, Paint::Chrome, color),
        )
    } else {
        main
    }
}

fn contains_str(v: &Vec<String>, x: &str) -> (r: bool)
    ensures
        r == views(v@).contains(x@),
{
    let mut i: usize = 0;
    while i < v.len()
        invariant
            i <= v@.len(),
            forall|j: int| 0 <= j < i ==> v@[j]@ != x@,
        decreases v@.len() - i,
    {
        if str_eq(v[i].as_str(), x) {
            proof {
                assert(views(v@)[i as int] == x@);
            }
            return true;
        }
        i = i + 1;
    }
    proof {
        if views(v@).contains(x@) {
            let j = choose|j: int| 0 <= j < views(v@).len() && #[trigger] views(v@)[j] == x@;
            assert(v@[j]@ == x@);
        }
    }
    false
}

fn legend(dominant: &Option<String>, other_ids: &[String], used: &Vec<String>, color: bool) -> (r:
    Vec<String>)
    ensures
        views(r@) == legend_lines(opt_view(*dominant), views(other_ids@), views(used@), color),
{
    let mut lines: Vec<String> = Vec::new();
    match dominant {
        Some(d) => {
            if contains_str(used, d.as_str()) {
                let mut line = String::new();
                let mark = check_mark_string();
                push_painted(&mut line, mark.as_str(), Paint::Work, color);
                push_painted(&mut line, "  Main office", Paint::Chrome, color);
                lines.push(line);
            }
        },
        None => {},
    }
    let ghost main = views(lines@);
    let ghost ov = views(other_ids@);
    let ghost uv = views(used@);
    let mut line = String::new();
    let mut count: usize = 0;
    let mut i: usize = 0;
    proof {
        assert(ov.subrange(0, 0) =~= Seq::<Seq<char>>::empty());
        assert(line@ =~= join_with(
            used_others(ov.subrange(0, 0), uv).map_values(
                |id: Seq<char>| painted(other_symbol(id, ov), Paint::BreakDuration, color),
            ),
            " "@,
        ));
    }
    while i < other_ids.len()
        invariant
            i <= other_ids@.len(),
            ov == views(other_ids@),
            uv == views(used@),
            main == views(lines@),
            count == used_others(ov.subrange(0, i as int), uv).len(),
            count <= i,
            line@ == join_with(
                used_others(ov.subrange(0, i as int), uv).map_values(
                    |id: Seq<char>| painted(other_symbol(id, ov), Paint::BreakDuration, color),
                ),
                " "@,
            ),
        decreases other_ids@.len() - i,
    {
        let ghost before = used_others(ov.subrange(0, i as int), uv);
        proof {
            assert(ov.subrange(0, i + 1).drop_last() =~= ov.subrange(0, i as int));
            assert(ov.subrange(0, i + 1).last() == other_ids@[i as int]@);
        }
        if contains_str(used, other_ids[i].as_str()) {
            let ghost len_before = line@;
            if count > 0 {
                append(&mut line, " ");
            }
            let sym = rto_other_symbol(other_ids[i].as_str(), other_ids);
            push_painted(&mut line, sym.as_str(), Paint::BreakDuration, color);
            proof {
                let after = used_others(ov.subrange(0, i + 1), uv);
                assert(after == before.push(other_ids@[i as int]@));
                let f = |id: Seq<char>| painted(other_symbol(id, ov), Paint::BreakDuration, color);
                assert(after.map_values(f) =~= before.map_values(f).push(f(other_ids@[i as int]@)));
                assert(after.map_values(f).drop_last() =~= before.map_values(f));
                if count > 0 {
                    assert(line@ =~= join_with(after.map_values(f), " "@));
                } else {
                    assert(before.len() == 0);
                    assert(len_before =~= Seq::<char>::empty());
                    assert(line@ =~= join_with(after.map_values(f), " "@));
                }
            }
            count = count + 1;
        }
        i = i + 1;
    }
    proof {
        assert(ov.subrange(0, ov.len() as int) =~= ov);
    }
    if count > 0 {
        push_painted(&mut line, "  Other office", Paint::Chrome, color);
        lines.push(line);
        proof {
            assert(views(lines@) =~= main.push(views(lines@).last()));
        }
    }
    proof {
        assert(views(lines@) =~= legend_lines(opt_view(*dominant), ov, uv, color));
    }
    lines
}

/// `lines` joined with newlines.
pub fn join_lines(lines: &Vec<String>) -> (r: String)
    ensures
        r@ == join_with(views(lines@), "\n"@),
{
    let mut out = String::new();
    let ghost v = views(lines@);
    let mut i: usize = 0;
    proof {
        assert(v.subrange(0, 0) =~= Seq::<Seq<char>>::empty());
    }
    while i < lines.len()
        invariant
            i <= lines@.len(),
            v == views(lines@),
            out@ == join_with(v.subrange(0, i as int), "\n"@),
        decreases lines@.len() - i,
    {
        proof {
            assert(v.subrange(0, i + 1).drop_last() =~= v.subrange(0, i as int));
            assert(v.subrange(0, i + 1).last() == lines@[i as int]@);
        }
        if i > 0 {
            append(&mut out, "\n");
        }
        append(&mut out, lines[i].as_str());
        proof {
            if i == 0 {
                assert(out@ =~= join_with(v.subrange(0, i + 1), "\n"@));
            }
        }
        i = i + 1;
    }
    proof {
        assert(v.subrange(0, v.len() as int) =~= v);
    }
    out
}

// ---------------------------------------------------------------------------
// Day table
// ---------------------------------------------------------------------------

/// Renders reports as text for a terminal, with or without ANSI colors.
pub struct TerminalRenderer {
    pub color: bool,
}

/// The intervals of a day report that get a row: those of positive duration.
pub open spec fn shown_rows(ivs: Seq<ReportInterval>) -> Seq<ReportInterval>
    decreases ivs.len(),
{
    if ivs.len() == 0 {
        ivs
    } else if ivs.last().last_ms > ivs.last().first_ms {
        shown_rows(ivs.drop_last()).push(ivs.last())
    } else {
        shown_rows(ivs.drop_last())
    }
}

/// The word for a label in the Type column.
pub open spec fn kind_word(label: IntervalLabel) -> Seq<char> {
    match label {
        IntervalLabel::Active => "active"@,
        IntervalLabel::Break => "break"@,
        IntervalLabel::Transit => "transit"@,
    }
}

/// The location shown for an interval: none for transit.
pub open spec fn shown_location(iv: ReportInterval) -> Option<Seq<char>> {
    if iv.label != IntervalLabel::Transit {
        opt_view(iv.location)
    } else {
        None
    }
}

/// The widest of `ss`, and at least `min`.
pub open spec fn max_len(ss: Seq<Seq<char>>, min: nat) -> nat
    decreases ss.len(),
{
    if ss.len() == 0 {
        min
    } else {
        let m = max_len(ss.drop_last(), min);
        if ss.last().len() > m {
            ss.last().len()
        } else {
            m
        }
    }
}

/// The locations among `locs`.
pub open spec fn somes(locs: Seq<Option<Seq<char>>>) -> Seq<Seq<char>>
    decreases locs.len(),
{
    if locs.len() == 0 {
        Seq::empty()
    } else {
        match locs.last() {
            Some(l) => somes(locs.drop_last()).push(l),
            None => somes(locs.drop_last()),
        }
    }
}

/// The columns of the rows of a day table, for local midnight `mid`.
pub struct DayColumns {
    pub starts: Seq<Seq<char>>,
    pub ends: Seq<Seq<char>>,
    pub durations: Seq<Seq<char>>,
    pub kinds: Seq<Seq<char>>,
    pub locations: Seq<Option<Seq<char>>>,
    pub labels: Seq<IntervalLabel>,
}

pub open spec fn day_columns(rows: Seq<ReportInterval>, mid: int) -> DayColumns {
    DayColumns {
        starts: rows.map_values(|iv: ReportInterval| clock_text(mid, iv.first_ms as int, false)),
        ends: rows.map_values(|iv: ReportInterval| clock_text(mid, iv.last_ms as int, false)),
        durations: rows.map_values(
            |iv: ReportInterval| duration_text(iv.last_ms as int - iv.first_ms as int),
        ),
        kinds: rows.map_values(|iv: ReportInterval| kind_word(iv.label)),
        locations: rows.map_values(|iv: ReportInterval| shown_location(iv)),
        labels: rows.map_values(|iv: ReportInterval| iv.label),
    }
}

pub open spec fn day_sep() -> Seq<char> {
    "   "@
}

/// One row of the day table.
pub open spec fn day_row_line(
    c: DayColumns,
    i: int,
    widths: (nat, nat, nat, nat),
    has_rto: bool,
    dominant: Option<Seq<char>>,
    other_ids: Seq<Seq<char>>,
    color: bool,
) -> Seq<char> {
    let (sw, ew, dw, tw) = widths;
    let dur_paint = if c.labels[i] == IntervalLabel::Active {
        Paint::Work
    } else {
        Paint::BreakDuration
    };
    let sym = rto_symbol_text(c.locations[i], dominant, other_ids, color);
    let rto_cell = if has_rto {
        if sym.len() > 0 {
            day_sep() + sym + repeat_char(' ', 2)
        } else {
            day_sep() + repeat_char(' ', 3)
        }
    } else {
        Seq::empty()
    };
    painted(pad_end(c.starts[i], sw), Paint::Time, color) + day_sep() + painted(
        pad_start(c.ends[i], ew),
        Paint::Time,
        color,
    ) + day_sep() + painted(pad_start(c.durations[i], dw), dur_paint, color) + day_sep()
        + painted(pad_end(c.kinds[i], tw), Paint::Chrome, color) + rto_cell
}

/// The first `n` rows of the day table.
pub open spec fn day_row_lines(
    c: DayColumns,
    n: nat,
    widths: (nat, nat, nat, nat),
    has_rto: bool,
    dominant: Option<Seq<char>>,
    other_ids: Seq<Seq<char>>,
    color: bool,
) -> Seq<Seq<char>> {
    Seq::new(n, |i: int| day_row_line(c, i, widths, has_rto, dominant, other_ids, color))
}

/// The unstyled header of the day table.
pub open spec fn day_header_text(widths: (nat, nat, nat, nat), has_rto: bool) -> Seq<char> {
    let (sw, ew, dw, tw) = widths;
    pad_end("Start"@, sw) + day_sep() + pad_start("End"@, ew) + day_sep() + pad_start(
        "Duration"@,
        dw,
    ) + day_sep() + pad_end("Type"@, tw) + if has_rto {
        day_sep() + "RTO"@
    } else {
        Seq::empty()
    }
}

/// The lines of the day table of `report`, for weekday name `weekday` and
/// local midnight `mid`.
pub open spec fn day_table_lines(report: DayReport, weekday: Seq<char>, mid: int, color: bool) -> Seq<
    Seq<char>,
> {
    let title = painted(weekday + " "@ + report.date@, Paint::Work, color);
    let rows = shown_rows(report.intervals@);
    let c = day_columns(rows, mid);
    let widths = (
        max_len(c.starts, 5),
        max_len(c.ends, 3),
        max_len(c.durations, 8),
        max_len(c.kinds, 4),
    );
    let used = somes(c.locations);
    let has_rto = used.len() > 0;
    let header_text = day_header_text(widths, has_rto);
    let divider = painted(repeat_char('\u{2500}', header_text.len()), Paint::Chrome, color);
    let dominant = opt_view(report.dominant_id);
    let others = views(report.other_ids@);
    let row_lines = day_row_lines(c, rows.len(), widths, has_rto, dominant, others, color);
    let total_line = repeat_char(' ', widths.0) + day_sep() + painted(
        pad_start("Total"@, widths.1),
        Paint::Chrome,
        color,
    ) + day_sep() + painted(
        pad_start(duration_text(report.total_active_ms as int), widths.2),
        Paint::Work,
        color,
    );
    let legend = legend_lines(dominant, others, used, color);
    seq![title, Seq::empty(), painted(header_text, Paint::Chrome, color), divider] + row_lines
        + seq![divider, total_line] + if legend.len() > 0 {
        seq![Seq::<char>::empty()] + legend
    } else {
        Seq::empty()
    }
}

/// Some interval of `ivs` is active.
pub open spec fn has_active(ivs: Seq<ReportInterval>) -> bool {
    exists|i: int| 0 <= i < ivs.len() && #[trigger] ivs[i].label == IntervalLabel::Active
}

/// The text of the day report `report`, for weekday name `weekday` and local
/// midnight `mid`.
pub open spec fn day_text(report: DayReport, weekday: Seq<char>, mid: int, color: bool) -> Seq<
    char,
> {
    if !has_active(report.intervals@) {
        painted(weekday + " "@ + report.date@, Paint::Work, color)
            + "\n\nNo user-initiated activity found."@
    } else {
        join_with(day_table_lines(report, weekday, mid, color), "\n"@)
    }
}

/// Every time of the report can be shown.
pub open spec fn day_report_ok(report: DayReport) -> bool {
    &&& has_date_parts(report.date@)
    &&& forall|i: int|
        0 <= i < report.intervals@.len() ==> ts_ok(#[trigger] report.intervals@[i].first_ms as int)
            && ts_ok(report.intervals@[i].last_ms as int)
}

fn max_len_of(v: &Vec<String>, min: usize) -> (r: usize)
    ensures
        r == max_len(views(v@), min as nat),
{
    let ghost vv = views(v@);
    let mut m: usize = min;
    let mut i: usize = 0;
    proof {
        assert(vv.subrange(0, 0) =~= Seq::<Seq<char>>::empty());
    }
    while i < v.len()
        invariant
            i <= v@.len(),
            vv == views(v@),
            m == max_len(vv.subrange(0, i as int), min as nat),
        decreases v@.len() - i,
    {
        proof {
            assert(vv.subrange(0, i + 1).drop_last() =~= vv.subrange(0, i as int));
            assert(vv.subrange(0, i + 1).last() == v@[i as int]@);
        }
        let n: usize = v[i].unicode_len();
        if n > m {
            m = n;
        }
        i = i + 1;
    }
    proof {
        assert(vv.subrange(0, vv.len() as int) =~= vv);
    }
    m
}

fn copy_report_interval(iv: &ReportInterval) -> (r: ReportInterval)
    ensures
        r == *iv,
{
    ReportInterval {
        first_ms: iv.first_ms,
        last_ms: iv.last_ms,
        label: iv.label,
        location: match &iv.location {
            Some(l) => Some(l.clone()),
            None => None,
        },
    }
}

fn shown_rows_of(ivs: &Vec<ReportInterval>) -> (r: Vec<ReportInterval>)
    ensures
        r@ == shown_rows(ivs@),
{
    let mut r: Vec<ReportInterval> = Vec::new();
    let mut i: usize = 0;
    proof {
        assert(ivs@.subrange(0, 0) =~= Seq::<ReportInterval>::empty());
    }
    while i < ivs.len()
        invariant
            i <= ivs@.len(),
            r@ == shown_rows(ivs@.subrange(0, i as int)),
        decreases ivs@.len() - i,
    {
        proof {
            assert(ivs@.subrange(0, i + 1).drop_last() =~= ivs@.subrange(0, i as int));
        }
        if ivs[i].last_ms > ivs[i].first_ms {
            r.push(copy_report_interval(&ivs[i]));
        }
        i = i + 1;
    }
    proof {
        assert(ivs@.subrange(0, ivs@.len() as int) =~= ivs@);
    }
    r
}

proof fn lemma_shown_rows_sub(ivs: Seq<ReportInterval>)
    ensures
        forall|i: int|
            0 <= i < shown_rows(ivs).len() ==> exists|j: int|
                0 <= j < ivs.len() && #[trigger] shown_rows(ivs)[i] == ivs[j],
    decreases ivs.len(),
{
    if ivs.len() > 0 {
        lemma_shown_rows_sub(ivs.drop_last());
        let m = shown_rows(ivs.drop_last());
        assert forall|i: int| 0 <= i < shown_rows(ivs).len() implies exists|j: int|
            0 <= j < ivs.len() && #[trigger] shown_rows(ivs)[i] == ivs[j] by {
            if i < m.len() {
                let j = choose|j: int| 0 <= j < ivs.drop_last().len() && m[i] == ivs.drop_last()[j];
                assert(shown_rows(ivs)[i] == ivs[j]);
            } else {
                assert(shown_rows(ivs)[i] == ivs[ivs.len() - 1]);
            }
        }
    }
}

fn kind_string(label: IntervalLabel) -> (r: String)
    ensures
        r@ == kind_word(label),
{
    match label {
        IntervalLabel::Active => String::from_str("active"),
        IntervalLabel::Break => String::from_str("break"),
        IntervalLabel::Transit => String::from_str("transit"),
    }
}

fn shown_location_of(iv: &ReportInterval) -> (r: Option<String>)
    ensures
        opt_view(r) == shown_location(*iv),
{
    if iv.label != IntervalLabel::Transit {
        match &iv.location {
            Some(l) => Some(l.clone()),
            None => None,
        }
    } else {
        None
    }
}

/// Every time of `rows` can be shown.
pub open spec fn rows_times_ok(rows: Seq<ReportInterval>) -> bool {
    forall|i: int|
        0 <= i < rows.len() ==> ts_ok(#[trigger] rows[i].first_ms as int) && ts_ok(
            rows[i].last_ms as int,
        )
}

pub open spec fn opt_views(v: Seq<Option<String>>) -> Seq<Option<Seq<char>>> {
    v.map_values(|o: Option<String>| opt_view(o))
}

/// The columns of the day table, computed.
struct DayCells {
    starts: Vec<String>,
    ends: Vec<String>,
    durations: Vec<String>,
    kinds: Vec<String>,
    locations: Vec<Option<String>>,
    labels: Vec<IntervalLabel>,
}

fn day_cells(rows: &Vec<ReportInterval>, mid: i64) -> (r: DayCells)
    requires
        -10_000_000_000_000_000 < mid < 10_000_000_000_000_000,
        rows_times_ok(rows@),
    ensures
        views(r.starts@) == day_columns(rows@, mid as int).starts,
        views(r.ends@) == day_columns(rows@, mid as int).ends,
        views(r.durations@) == day_columns(rows@, mid as int).durations,
        views(r.kinds@) == day_columns(rows@, mid as int).kinds,
        opt_views(r.locations@) == day_columns(rows@, mid as int).locations,
        r.labels@ == day_columns(rows@, mid as int).labels,
{
    let ghost c = day_columns(rows@, mid as int);
    let mut starts: Vec<String> = Vec::new();
    let mut ends: Vec<String> = Vec::new();
    let mut durations: Vec<String> = Vec::new();
    let mut kinds: Vec<String> = Vec::new();
    let mut locations: Vec<Option<String>> = Vec::new();
    let mut labels: Vec<IntervalLabel> = Vec::new();
    let mut i: usize = 0;
    while i < rows.len()
        invariant
            i <= rows@.len(),
            -10_000_000_000_000_000 < mid < 10_000_000_000_000_000,
            rows_times_ok(rows@),
            c == day_columns(rows@, mid as int),
            views(starts@) =~= c.starts.subrange(0, i as int),
            views(ends@) =~= c.ends.subrange(0, i as int),
            views(durations@) =~= c.durations.subrange(0, i as int),
            views(kinds@) =~= c.kinds.subrange(0, i as int),
            opt_views(locations@) =~= c.locations.subrange(0, i as int),
            labels@ =~= c.labels.subrange(0, i as int),
        decreases rows@.len() - i,
    {
        let iv = &rows[i];
        assert(ts_ok(iv.first_ms as int) && ts_ok(iv.last_ms as int));
        let st = format_time_since(mid, iv.first_ms, false);
        let en = format_time_since(mid, iv.last_ms, false);
        proof {
            assert(c.starts[i as int] == st@);
            assert(c.ends[i as int] == en@);
            assert(views(starts@.push(st)) =~= views(starts@).push(st@));
            assert(views(ends@.push(en)) =~= views(ends@).push(en@));
            assert(c.starts.subrange(0, i + 1) =~= c.starts.subrange(0, i as int).push(st@));
            assert(c.ends.subrange(0, i + 1) =~= c.ends.subrange(0, i as int).push(en@));
        }
        starts.push(st);
        ends.push(en);
        let du = format_duration(iv.last_ms - iv.first_ms);
        let ki = kind_string(iv.label);
        let lo = shown_location_of(iv);
        proof {
            assert(c.durations[i as int] == du@);
            assert(c.kinds[i as int] == ki@);
            assert(c.locations[i as int] == opt_view(lo));
            assert(views(durations@.push(du)) =~= views(durations@).push(du@));
            assert(views(kinds@.push(ki)) =~= views(kinds@).push(ki@));
            assert(opt_views(locations@.push(lo)) =~= opt_views(locations@).push(opt_view(lo)));
            assert(c.durations.subrange(0, i + 1) =~= c.durations.subrange(0, i as int).push(du@));
            assert(c.kinds.subrange(0, i + 1) =~= c.kinds.subrange(0, i as int).push(ki@));
            assert(c.locations.subrange(0, i + 1) =~= c.locations.subrange(0, i as int).push(
                opt_view(lo),
            ));
        }
        durations.push(du);
        kinds.push(ki);
        locations.push(lo);
        labels.push(iv.label);
        i = i + 1;
    }
    DayCells { starts, ends, durations, kinds, locations, labels }
}

fn somes_of(v: &Vec<Option<String>>) -> (r: Vec<String>)
    ensures
        views(r@) == somes(opt_views(v@)),
{
    let ghost ov = opt_views(v@);
    let mut r: Vec<String> = Vec::new();
    let mut i: usize = 0;
    proof {
        assert(ov.subrange(0, 0) =~= Seq::<Option<Seq<char>>>::empty());
    }
    while i < v.len()
        invariant
            i <= v@.len(),
            ov == opt_views(v@),
            views(r@) == somes(ov.subrange(0, i as int)),
        decreases v@.len() - i,
    {
        proof {
            assert(ov.subrange(0, i + 1).drop_last() =~= ov.subrange(0, i as int));
            assert(ov.subrange(0, i + 1).last() == opt_view(v@[i as int]));
        }
        match &v[i] {
            Some(l) => {
                r.push(l.clone());
                proof {
                    assert(views(r@) =~= somes(ov.subrange(0, i as int)).push(l@));
                }
            },
            None => {},
        }
        i = i + 1;
    }
    proof {
        assert(ov.subrange(0, ov.len() as int) =~= ov);
    }
    r
}

fn day_row(
    start: &str,
    end: &str,
    duration: &str,
    kind: &str,
    location: &Option<String>,
    label: IntervalLabel,
    widths: (usize, usize, usize, usize),
    has_rto: bool,
    dominant: &Option<String>,
    other_ids: &[String],
    color: bool,
) -> (r: String)
    ensures
        r@ == ({
            let c = DayColumns {
                starts: seq![start@],
                ends: seq![end@],
                durations: seq![duration@],
                kinds: seq![kind@],
                locations: seq![opt_view(*location)],
                labels: seq![label],
            };
            day_row_line(
                c,
                0,
                (widths.0 as nat, widths.1 as nat, widths.2 as nat, widths.3 as nat),
                has_rto,
                opt_view(*dominant),
                views(other_ids@),
                color,
            )
        }),
{
    let (sw, ew, dw, tw) = widths;
    let mut out = String::new();
    let mut cell = String::new();
    push_pad_end(&mut cell, start, sw);
    push_painted(&mut out, cell.as_str(), Paint::Time, color);
    append(&mut out, "   ");
    let mut cell = String::new();
    push_pad_start(&mut cell, end, ew);
    push_painted(&mut out, cell.as_str(), Paint::Time, color);
    append(&mut out, "   ");
    let mut cell = String::new();
    push_pad_start(&mut cell, duration, dw);
    let dur_paint = if label == IntervalLabel::Active {
        Paint::Work
    } else {
        Paint::BreakDuration
    };
    push_painted(&mut out, cell.as_str(), dur_paint, color);
    append(&mut out, "   ");
    let mut cell = String::new();
    push_pad_end(&mut cell, kind, tw);
    push_painted(&mut out, cell.as_str(), Paint::Chrome, color);
    let ghost before_rto = out@;
    if has_rto {
        let mut sym = String::new();
        match location {
            Some(l) => push_rto_symbol(&mut sym, l.as_str(), dominant, other_ids, color),
            None => {},
        }
        append(&mut out, "   ");
        if sym.unicode_len() > 0 {
            append(&mut out, sym.as_str());
            push_repeat(&mut out, ' ', 2);
        } else {
            push_repeat(&mut out, ' ', 3);
        }
    }
    proof {
        reveal_strlit("   ");
    }
    out
}

fn any_active(ivs: &Vec<ReportInterval>) -> (r: bool)
    ensures
        r == has_active(ivs@),
{
    let mut i: usize = 0;
    while i < ivs.len()
        invariant
            i <= ivs@.len(),
            forall|j: int| 0 <= j < i ==> ivs@[j].label != IntervalLabel::Active,
        decreases ivs@.len() - i,
    {
        if ivs[i].label == IntervalLabel::Active {
            return true;
        }
        i = i + 1;
    }
    false
}

fn opt_clone(o: &Option<String>) -> (r: Option<String>)
    ensures
        opt_view(r) == opt_view(*o),
{
    match o {
        Some(s) => Some(s.clone()),
        None => None,
    }
}

/// Appends the lines `more` to `lines`.
fn extend_lines(lines: &mut Vec<String>, more: Vec<String>)
    ensures
        views(final(lines)@) == views(old(lines)@) + views(more@),
{
    let ghost start = views(lines@);
    let mut k: usize = 0;
    while k < more.len()
        invariant
            k <= more@.len(),
            views(lines@) =~= start + views(more@).subrange(0, k as int),
        decreases more@.len() - k,
    {
        let item = more[k].clone();
        proof {
            assert(views(lines@.push(item)) =~= views(lines@).push(item@));
            assert(views(more@).subrange(0, k + 1) =~= views(more@).subrange(0, k as int).push(
                item@,
            ));
        }
        lines.push(item);
        k = k + 1;
    }
    proof {
        assert(views(more@).subrange(0, more@.len() as int) =~= views(more@));
    }
}

fn day_header(sw: usize, ew: usize, dw: usize, tw: usize, has_rto: bool) -> (r: String)
    ensures
        r@ == day_header_text((sw as nat, ew as nat, dw as nat, tw as nat), has_rto),
{
    let mut header_text = String::new();
    push_pad_end(&mut header_text, "Start", sw);
    append(&mut header_text, "   ");
    push_pad_start(&mut header_text, "End", ew);
    append(&mut header_text, "   ");
    push_pad_start(&mut header_text, "Duration", dw);
    append(&mut header_text, "   ");
    push_pad_end(&mut header_text, "Type", tw);
    if has_rto {
        append(&mut header_text, "   ");
        append(&mut header_text, "RTO");
    }
    proof {
        assert(header_text@ =~= day_header_text(
            (sw as nat, ew as nat, dw as nat, tw as nat),
            has_rto,
        ));
    }
    header_text
}

fn day_total_line(sw: usize, ew: usize, dw: usize, total_ms: i64, color: bool) -> (r: String)
    ensures
        r@ == repeat_char(' ', sw as nat) + day_sep() + painted(
            pad_start("Total"@, ew as nat),
            Paint::Chrome,
            color,
        ) + day_sep() + painted(
            pad_start(duration_text(total_ms as int), dw as nat),
            Paint::Work,
            color,
        ),
{
    let mut total_line = String::new();
    push_repeat(&mut total_line, ' ', sw);
    append(&mut total_line, "   ");
    let mut cell = String::new();
    push_pad_start(&mut cell, "Total", ew);
    push_painted(&mut total_line, cell.as_str(), Paint::Chrome, color);
    append(&mut total_line, "   ");
    let total = format_duration(total_ms);
    let mut cell2 = String::new();
    push_pad_start(&mut cell2, total.as_str(), dw);
    push_painted(&mut total_line, cell2.as_str(), Paint::Work, color);
    proof {
        assert(total_line@ =~= repeat_char(' ', sw as nat) + day_sep() + painted(
            pad_start("Total"@, ew as nat),
            Paint::Chrome,
            color,
        ) + day_sep() + painted(
            pad_start(duration_text(total_ms as int), dw as nat),
            Paint::Work,
            color,
        ));
    }
    total_line
}

#[verifier::rlimit(30)]
fn day_rows_text(
    cells: &DayCells,
    n: usize,
    widths: (usize, usize, usize, usize),
    has_rto: bool,
    dominant: &Option<String>,
    other_ids: &[String],
    color: bool,
    c: Ghost<DayColumns>,
) -> (r: Vec<String>)
    requires
        views(cells.starts@) == c@.starts,
        views(cells.ends@) == c@.ends,
        views(cells.durations@) == c@.durations,
        views(cells.kinds@) == c@.kinds,
        opt_views(cells.locations@) == c@.locations,
        cells.labels@ == c@.labels,
        cells.starts@.len() == n,
        cells.ends@.len() == n,
        cells.durations@.len() == n,
        cells.kinds@.len() == n,
        cells.locations@.len() == n,
        cells.labels@.len() == n,
    ensures
        views(r@) == day_row_lines(
            c@,
            n as nat,
            (widths.0 as nat, widths.1 as nat, widths.2 as nat, widths.3 as nat),
            has_rto,
            opt_view(*dominant),
            views(other_ids@),
            color,
        ),
{
    let ghost w = (widths.0 as nat, widths.1 as nat, widths.2 as nat, widths.3 as nat);
    let mut lines: Vec<String> = Vec::new();
    let mut i: usize = 0;
    while i < n
        invariant
            i <= n,
            views(cells.starts@) == c@.starts,
            views(cells.ends@) == c@.ends,
            views(cells.durations@) == c@.durations,
            views(cells.kinds@) == c@.kinds,
            opt_views(cells.locations@) == c@.locations,
            cells.labels@ == c@.labels,
            cells.starts@.len() == n,
            cells.ends@.len() == n,
            cells.durations@.len() == n,
            cells.kinds@.len() == n,
            cells.locations@.len() == n,
            cells.labels@.len() == n,
            w == (widths.0 as nat, widths.1 as nat, widths.2 as nat, widths.3 as nat),
            views(lines@) =~= day_row_lines(
                c@,
                i as nat,
                w,
                has_rto,
                opt_view(*dominant),
                views(other_ids@),
                color,
            ),
        decreases n - i,
    {
        let line = day_row(
            cells.starts[i].as_str(),
            cells.ends[i].as_str(),
            cells.durations[i].as_str(),
            cells.kinds[i].as_str(),
            &cells.locations[i],
            cells.labels[i],
            widths,
            has_rto,
            dominant,
            other_ids,
            color,
        );
        proof {
            assert(c@.starts[i as int] == cells.starts@[i as int]@);
            assert(c@.ends[i as int] == cells.ends@[i as int]@);
            assert(c@.durations[i as int] == cells.durations@[i as int]@);
            assert(c@.kinds[i as int] == cells.kinds@[i as int]@);
            assert(c@.locations[i as int] == opt_view(cells.locations@[i as int]));
            assert(line@ == day_row_line(
                c@,
                i as int,
                w,
                has_rto,
                opt_view(*dominant),
                views(other_ids@),
                color,
            ));
            assert(views(lines@.push(line)) =~= views(lines@).push(line@));
            assert(day_row_lines(
                c@,
                (i + 1) as nat,
                w,
                has_rto,
                opt_view(*dominant),
                views(other_ids@),
                color,
            ) =~= day_row_lines(
                c@,
                i as nat,
                w,
                has_rto,
                opt_view(*dominant),
                views(other_ids@),
                color,
            ).push(line@));
        }
        lines.push(line);
        i = i + 1;
    }
    lines
}

impl TerminalRenderer {
    /// The day table of `report`, with times counted from `midnight_ms`, the
    /// local midnight of the report's date.
    pub fn render_day_at(&self, report: &DayReport, midnight_ms: i64) -> (r: String)
        requires
            day_report_ok(*report),
            -10_000_000_000_000_000 < midnight_ms < 10_000_000_000_000_000,
        ensures
            r@ == day_text(*report, date_weekday_name(report.date@), midnight_ms as int, self.color),
    {
        let color = self.color;
        let weekday = weekday_prefix(report.date.as_str());
        let mut label = String::new();
        append(&mut label, weekday.as_str());
        append(&mut label, " ");
        append(&mut label, report.date.as_str());
        if !any_active(&report.intervals) {
            let mut out = paint(label.as_str(), Paint::Work, color);
            append(&mut out, "\n\nNo user-initiated activity found.");
            return out;
        }
        let rows = shown_rows_of(&report.intervals);
        proof {
            lemma_shown_rows_sub(report.intervals@);
            assert forall|i: int| 0 <= i < rows@.len() implies ts_ok(#[trigger] rows@[i].first_ms as int)
                && ts_ok(rows@[i].last_ms as int) by {
                let j = choose|j: int|
                    0 <= j < report.intervals@.len() && rows@[i] == report.intervals@[j];
                assert(ts_ok(report.intervals@[j].first_ms as int));
            }
        }
        let cells = day_cells(&rows, midnight_ms);
        let ghost c = day_columns(rows@, midnight_ms as int);
        let sw = max_len_of(&cells.starts, 5);
        let ew = max_len_of(&cells.ends, 3);
        let dw = max_len_of(&cells.durations, 8);
        let tw = max_len_of(&cells.kinds, 4);
        let used = somes_of(&cells.locations);
        let has_rto = used.len() > 0;
        let header_text = day_header(sw, ew, dw, tw, has_rto);
        let header = paint(header_text.as_str(), Paint::Chrome, color);
        let mut rule = String::new();
        push_repeat(&mut rule, '\u{2500}', header_text.unicode_len());
        let divider = paint(rule.as_str(), Paint::Chrome, color);
        let dominant = opt_clone(&report.dominant_id);
        proof {
            assert(views(cells.starts@).len() == cells.starts@.len());
            assert(views(cells.ends@).len() == cells.ends@.len());
            assert(views(cells.durations@).len() == cells.durations@.len());
            assert(views(cells.kinds@).len() == cells.kinds@.len());
            assert(opt_views(cells.locations@).len() == cells.locations@.len());
        }
        let ghost used_len = used@.len();
        let row_lines = day_rows_text(
            &cells,
            rows.len(),
            (sw, ew, dw, tw),
            has_rto,
            &dominant,
            report.other_ids.as_slice(),
            color,
            Ghost(c),
        );
        let mut lines: Vec<String> = Vec::new();
        lines.push(paint(label.as_str(), Paint::Work, color));
        lines.push(String::new());
        lines.push(header);
        lines.push(divider.clone());
        let ghost l1 = views(lines@);
        let ghost rl = views(row_lines@);
        extend_lines(&mut lines, row_lines);
        let ghost l2 = views(lines@);
        let total_line = day_total_line(sw, ew, dw, report.total_active_ms, color);
        let ghost total_v = total_line@;
        let ghost divider_v2 = divider@;
        lines.push(divider);
        lines.push(total_line);
        let ghost l3 = views(lines@);
        proof {
            assert(l3 =~= l2 + seq![divider_v2, total_v]);
        }
        let legend_text = legend(&dominant, report.other_ids.as_slice(), &used, color);
        let ghost lg = views(legend_text@);
        if legend_text.len() > 0 {
            lines.push(String::new());
            proof {
                assert(views(lines@) =~= l3 + seq![Seq::<char>::empty()]);
            }
            extend_lines(&mut lines, legend_text);
        }
        proof {
            assert(views(lines@) =~= l1 + rl + seq![divider_v2, total_v] + if lg.len() > 0 {
                seq![Seq::<char>::empty()] + lg
            } else {
                Seq::empty()
            });
        }
        proof {
            let weekday_v = date_weekday_name(report.date@);
            let title = painted(weekday_v + " "@ + report.date@, Paint::Work, color);
            assert(label@ == weekday_v + " "@ + report.date@);
            let widths = (
                max_len(c.starts, 5),
                max_len(c.ends, 3),
                max_len(c.durations, 8),
                max_len(c.kinds, 4),
            );
            assert(widths == (sw as nat, ew as nat, dw as nat, tw as nat));
            assert(somes(c.locations) == views(used@));
            assert(views(used@).len() == used@.len());
            let header_v = day_header_text(widths, has_rto);
            assert(header_text@ == header_v);
            let divider_v = painted(repeat_char('\u{2500}', header_v.len()), Paint::Chrome, color);
            assert(divider@ == divider_v);
            let legend_v = legend_lines(opt_view(report.dominant_id), views(report.other_ids@), somes(c.locations), color);
            assert(views(legend_text@) == legend_v);
            assert(opt_view(dominant) == opt_view(report.dominant_id));
            assert(views(row_lines@) == day_row_lines(c, rows@.len(), widths, has_rto, opt_view(report.dominant_id), views(report.other_ids@), color));
            assert(views(lines@) =~= day_table_lines(
                *report,
                date_weekday_name(report.date@),
                midnight_ms as int,
                color,
            ));
        }
        join_lines(&lines)
    }

    /// The day table of `report`, with times counted from the local midnight
    /// of the report's date (which depends on the machine's time zone).
    pub fn render_day(&self, report: &DayReport) -> (r: String)
        requires
            day_report_ok(*report),
        ensures
            exists|m: int|
                midnight_of_date(report.date@, m) && r@ == #[trigger] day_text(
                    *report,
                    date_weekday_name(report.date@),
                    m,
                    self.color,
                ),
    {
        let midnight = local_midnight_of(report.date.as_str());
        let r = self.render_day_at(report, midnight);
        proof {
            assert(midnight_of_date(report.date@, midnight as int) && r@ == day_text(
                *report,
                date_weekday_name(report.date@),
                midnight as int,
                self.color,
            ));
        }
        r
    }
}

// ---------------------------------------------------------------------------
// Month table
// ---------------------------------------------------------------------------

/// The English name of month `m`, "Unknown" outside 1 to 12.
pub open spec fn month_name(m: nat) -> Seq<char> {
    if m == 1 {
        "January"@
    } else if m == 2 {
        "February"@
    } else if m == 3 {
        "March"@
    } else if m == 4 {
        "April"@
    } else if m == 5 {
        "May"@
    } else if m == 6 {
        "June"@
    } else if m == 7 {
        "July"@
    } else if m == 8 {
        "August"@
    } else if m == 9 {
        "September"@
    } else if m == 10 {
        "October"@
    } else if m == 11 {
        "November"@
    } else if m == 12 {
        "December"@
    } else {
        "Unknown"@
    }
}

/// The title of a month table: the month's name and the year, each read
/// from `YYYYMM` as a `u32` (0 where that fails).
pub open spec fn month_title(yyyymm: Seq<char>) -> Seq<char> {
    month_name(parse_u32(yyyymm.subrange(4, 6)).unwrap_or(0)) + " "@ + decimal(
        parse_u32(yyyymm.subrange(0, 4)).unwrap_or(0),
    )
}

/// One break of a month row: `start→end (duration)`, tagged when transit.
pub open spec fn break_text(b: MonthBreak, mid: int, color: bool) -> Seq<char> {
    painted(clock_text(mid, b.first_ms as int, false), Paint::Time, color) + painted(
        "\u{2192}"@,
        Paint::Chrome,
        color,
    ) + painted(clock_text(mid, b.last_ms as int, false), Paint::Time, color) + " "@ + painted(
        "("@,
        Paint::Chrome,
        color,
    ) + painted(duration_text(b.last_ms as int - b.first_ms as int), Paint::BreakDuration, color)
        + (if b.label == IntervalLabel::Transit {
        painted(" transit"@, Paint::Chrome, color)
    } else {
        Seq::empty()
    }) + painted(")"@, Paint::Chrome, color)
}

pub open spec fn breaks_text(bs: Seq<MonthBreak>, mid: int, color: bool) -> Seq<char> {
    join_with(
        bs.map_values(|b: MonthBreak| break_text(b, mid, color)),
        painted(", "@, Paint::Chrome, color),
    )
}

/// The RTO symbols of the locations of a row, side by side.
pub open spec fn rto_symbols_text(
    locs: Seq<Seq<char>>,
    dominant: Option<Seq<char>>,
    other_ids: Seq<Seq<char>>,
    color: bool,
) -> Seq<char>
    decreases locs.len(),
{
    if locs.len() == 0 {
        Seq::empty()
    } else {
        rto_symbols_text(locs.drop_last(), dominant, other_ids, color) + rto_symbol_text(
            Some(locs.last()),
            dominant,
            other_ids,
            color,
        )
    }
}

/// The cells of one month row, before padding.
pub struct MonthCells {
    pub date_str: Seq<char>,
    pub start: Seq<char>,
    pub end: Seq<char>,
    pub total: Seq<char>,
    pub rto: Seq<char>,
    pub breaks: Seq<char>,
    pub nlocs: nat,
}

pub open spec fn month_cells(
    row: MonthReportRow,
    mid: int,
    dominant: Option<Seq<char>>,
    other_ids: Seq<Seq<char>>,
    color: bool,
) -> MonthCells {
    MonthCells {
        date_str: date_weekday_name(row.date@) + " "@ + row.date@ + ":"@,
        start: clock_text(mid, row.first_ms as int, false),
        end: clock_text(mid, row.last_ms as int, false),
        total: duration_text(row.total_active_ms as int),
        rto: rto_symbols_text(views(row.locations@), dominant, other_ids, color),
        breaks: breaks_text(row.breaks@, mid, color),
        nlocs: row.locations@.len(),
    }
}

/// The largest `nlocs` of `cells`, at least `min`.
pub open spec fn max_nlocs(cells: Seq<MonthCells>, min: nat) -> nat
    decreases cells.len(),
{
    if cells.len() == 0 {
        min
    } else {
        let m = max_nlocs(cells.drop_last(), min);
        if cells.last().nlocs > m {
            cells.last().nlocs
        } else {
            m
        }
    }
}

pub open spec fn month_sep() -> Seq<char> {
    "  "@
}

/// One data row of the month table.
pub open spec fn month_row_line(
    c: MonthCells,
    widths: (nat, nat, nat, nat),
    rto_col: nat,
    has_rto: bool,
    color: bool,
) -> Seq<char> {
    let (dw, sw, ew, tw) = widths;
    let rto_cell = if has_rto {
        if c.rto.len() > 0 {
            month_sep() + c.rto + repeat_char(' ', (rto_col - c.nlocs) as nat)
        } else {
            month_sep() + repeat_char(' ', rto_col)
        }
    } else {
        Seq::empty()
    };
    let breaks_part = if c.breaks.len() > 0 {
        month_sep() + c.breaks
    } else {
        Seq::empty()
    };
    painted(pad_end(c.date_str, dw), Paint::Date, color) + month_sep() + painted(
        pad_start(c.start, sw),
        Paint::Time,
        color,
    ) + month_sep() + painted(pad_start(c.end, ew), Paint::Time, color) + month_sep() + painted(
        pad_start(c.total, tw),
        Paint::Work,
        color,
    ) + rto_cell + breaks_part
}

/// The unstyled header of the month table.
pub open spec fn month_header_text(
    widths: (nat, nat, nat, nat),
    rto_col: nat,
    has_rto: bool,
) -> Seq<char> {
    let (dw, sw, ew, tw) = widths;
    pad_end("Date"@, dw) + month_sep() + pad_start("Start"@, sw) + month_sep() + pad_start(
        "End"@,
        ew,
    ) + month_sep() + pad_start("Total"@, tw) + (if has_rto {
        month_sep() + pad_end("RTO"@, rto_col)
    } else {
        Seq::empty()
    }) + month_sep() + "Breaks"@
}

/// Every location of every row.
pub open spec fn all_locations(rows: Seq<MonthReportRow>) -> Seq<Seq<char>>
    decreases rows.len(),
{
    if rows.len() == 0 {
        Seq::empty()
    } else {
        all_locations(rows.drop_last()) + views(rows.last().locations@)
    }
}

/// Some row has RTO symbols.
pub open spec fn any_rto(cells: Seq<MonthCells>) -> bool {
    exists|k: int| 0 <= k < cells.len() && #[trigger] cells[k].rto.len() > 0
}

/// The cells of every row of `report`, row `k` read with midnight `mids[k]`.
pub open spec fn month_cells_seq(report: MonthReport, mids: Seq<i64>, color: bool) -> Seq<
    MonthCells,
> {
    Seq::new(
        report.rows@.len(),
        |k: int|
            month_cells(
                report.rows@[k],
                mids[k] as int,
                opt_view(report.dominant_id),
                views(report.other_ids@),
                color,
            ),
    )
}

/// The lines of the month table of `report`, whose `k`-th row is read with
/// local midnight `mids[k]`.
pub open spec fn month_table_lines(report: MonthReport, mids: Seq<i64>, color: bool) -> Seq<
    Seq<char>,
> {
    let dominant = opt_view(report.dominant_id);
    let others = views(report.other_ids@);
    let rows = report.rows@;
    let cells = month_cells_seq(report, mids, color);
    let has_rto = any_rto(cells);
    let rto_col = max_nlocs(cells, 3);
    let widths = (
        max_len(cells.map_values(|c: MonthCells| c.date_str), 4),
        max_len(cells.map_values(|c: MonthCells| c.start), 5),
        max_len(cells.map_values(|c: MonthCells| c.end), 3),
        max_len(cells.map_values(|c: MonthCells| c.total), 5),
    );
    let header_text = month_header_text(widths, rto_col, has_rto);
    let legend = legend_lines(dominant, others, all_locations(rows), color);
    seq![
        painted(month_title(report.yyyymm@), Paint::Work, color),
        Seq::empty(),
        painted(header_text, Paint::Chrome, color),
        painted(repeat_char('\u{2500}', header_text.len()), Paint::Chrome, color),
    ] + cells.map_values(|c: MonthCells| month_row_line(c, widths, rto_col, has_rto, color)) + if legend.len() > 0 {
        seq![Seq::<char>::empty()] + legend
    } else {
        Seq::empty()
    }
}

/// The text of the month report `report`.
pub open spec fn month_text(report: MonthReport, mids: Seq<i64>, color: bool) -> Seq<char> {
    if report.rows@.len() == 0 {
        painted(month_title(report.yyyymm@), Paint::Work, color) + "\n\nNo activity found."@
    } else {
        join_with(month_table_lines(report, mids, color), "\n"@)
    }
}

/// The report can be shown: `YYYYMM` starts with six ASCII characters,
/// every date has its three parts and every time can be shown.
pub open spec fn month_report_ok(report: MonthReport) -> bool {
    &&& report.yyyymm@.len() >= 6
    &&& forall|i: int| 0 <= i < 6 ==> (#[trigger] report.yyyymm@[i] as u32) < 128
    &&& forall|k: int|
        0 <= k < report.rows@.len() ==> {
            let row = #[trigger] report.rows@[k];
            &&& has_date_parts(row.date@)
            &&& ts_ok(row.first_ms as int)
            &&& ts_ok(row.last_ms as int)
            &&& forall|j: int|
                0 <= j < row.breaks@.len() ==> ts_ok(#[trigger] row.breaks@[j].first_ms as int)
                    && ts_ok(row.breaks@[j].last_ms as int)
        }
}

fn month_name_text(m: u32) -> (r: String)
    ensures
        r@ == month_name(m as nat),
{
    let name = if m == 1 {
        "January"
    } else if m == 2 {
        "February"
    } else if m == 3 {
        "March"
    } else if m == 4 {
        "April"
    } else if m == 5 {
        "May"
    } else if m == 6 {
        "June"
    } else if m == 7 {
        "July"
    } else if m == 8 {
        "August"
    } else if m == 9 {
        "September"
    } else if m == 10 {
        "October"
    } else if m == 11 {
        "November"
    } else if m == 12 {
        "December"
    } else {
        "Unknown"
    };
    String::from_str(name)
}

fn month_title_of(yyyymm: &str) -> (r: String)
    requires
        yyyymm@.len() >= 6,
    ensures
        r@ == month_title(yyyymm@),
{
    let cs = chars_of(yyyymm);
    let month: u32 = parse_u32_or_zero(&cs, 4, 6);
    let year: u32 = parse_u32_or_zero(&cs, 0, 4);
    let mut out = month_name_text(month);
    append(&mut out, " ");
    push_decimal(&mut out, year as u128);
    out
}

fn break_line(b: &MonthBreak, mid: i64, color: bool) -> (r: String)
    requires
        -10_000_000_000_000_000 < mid < 10_000_000_000_000_000,
        ts_ok(b.first_ms as int),
        ts_ok(b.last_ms as int),
    ensures
        r@ == break_text(*b, mid as int, color),
{
    let mut out = String::new();
    let t1 = format_time_since(mid, b.first_ms, false);
    push_painted(&mut out, t1.as_str(), Paint::Time, color);
    push_painted(&mut out, "\u{2192}", Paint::Chrome, color);
    let t2 = format_time_since(mid, b.last_ms, false);
    push_painted(&mut out, t2.as_str(), Paint::Time, color);
    append(&mut out, " ");
    push_painted(&mut out, "(", Paint::Chrome, color);
    let d = format_duration(b.last_ms - b.first_ms);
    push_painted(&mut out, d.as_str(), Paint::BreakDuration, color);
    let ghost before_tag = out@;
    if b.label == IntervalLabel::Transit {
        push_painted(&mut out, " transit", Paint::Chrome, color);
    }
    let ghost after_tag = out@;
    push_painted(&mut out, ")", Paint::Chrome, color);
    proof {
        if b.label == IntervalLabel::Transit {
            assert(after_tag == before_tag + painted(" transit"@, Paint::Chrome, color));
        } else {
            assert(after_tag =~= before_tag + Seq::<char>::empty());
        }
        assert(out@ =~= break_text(*b, mid as int, color));
    }
    out
}

/// The breaks of `bs` can be shown.
pub open spec fn breaks_times_ok(bs: Seq<MonthBreak>) -> bool {
    forall|j: int|
        0 <= j < bs.len() ==> ts_ok(#[trigger] bs[j].first_ms as int) && ts_ok(bs[j].last_ms as int)
}

/// Joining one part more adds the separator and that part, after a first part.
proof fn lemma_join_push(parts: Seq<Seq<char>>, x: Seq<char>, sep: Seq<char>)
    ensures
        join_with(parts.push(x), sep) == if parts.len() == 0 {
            x
        } else {
            join_with(parts, sep) + sep + x
        },
{
    assert(parts.push(x).drop_last() =~= parts);
    assert(parts.push(x).last() == x);
    if parts.len() == 0 {
        assert(parts.push(x)[0] == x);
    }
}

#[verifier::spinoff_prover]
fn breaks_line(bs: &Vec<MonthBreak>, mid: i64, color: bool) -> (r: String)
    requires
        -10_000_000_000_000_000 < mid < 10_000_000_000_000_000,
        breaks_times_ok(bs@),
    ensures
        r@ == breaks_text(bs@, mid as int, color),
{
    let ghost f = |b: MonthBreak| break_text(b, mid as int, color);
    let ghost sep = painted(", "@, Paint::Chrome, color);
    let mut out = String::new();
    let mut i: usize = 0;
    proof {
        assert(bs@.subrange(0, 0).map_values(f) =~= Seq::<Seq<char>>::empty());
    }
    while i < bs.len()
        invariant
            i <= bs@.len(),
            -10_000_000_000_000_000 < mid < 10_000_000_000_000_000,
            breaks_times_ok(bs@),
            f == (|b: MonthBreak| break_text(b, mid as int, color)),
            sep == painted(", "@, Paint::Chrome, color),
            out@ == join_with(bs@.subrange(0, i as int).map_values(f), sep),
        decreases bs@.len() - i,
    {
        let ghost before = out@;
        if i > 0 {
            push_painted(&mut out, ", ", Paint::Chrome, color);
        }
        let ghost with_sep = out@;
        assert(ts_ok(bs@[i as int].first_ms as int) && ts_ok(bs@[i as int].last_ms as int));
        let line = break_line(&bs[i], mid, color);
        append(&mut out, line.as_str());
        proof {
            let prev = bs@.subrange(0, i as int).map_values(f);
            let next = bs@.subrange(0, i + 1).map_values(f);
            assert(line@ == f(bs@[i as int]));
            assert(next =~= prev.push(line@));
            lemma_join_push(prev, line@, sep);
            if i == 0 {
                assert(with_sep == before);
                assert(before =~= Seq::<char>::empty());
                assert(out@ =~= join_with(next, sep));
            } else {
                assert(with_sep == before + sep);
                assert(out@ =~= join_with(next, sep));
            }
        }
        i = i + 1;
    }
    proof {
        assert(bs@.subrange(0, bs@.len() as int) =~= bs@);
    }
    out
}

fn rto_symbols_of(
    locs: &Vec<String>,
    dominant: &Option<String>,
    other_ids: &[String],
    color: bool,
) -> (r: String)
    ensures
        r@ == rto_symbols_text(views(locs@), opt_view(*dominant), views(other_ids@), color),
{
    let ghost lv = views(locs@);
    let mut out = String::new();
    let mut i: usize = 0;
    proof {
        assert(lv.subrange(0, 0) =~= Seq::<Seq<char>>::empty());
    }
    while i < locs.len()
        invariant
            i <= locs@.len(),
            lv == views(locs@),
            out@ == rto_symbols_text(
                lv.subrange(0, i as int),
                opt_view(*dominant),
                views(other_ids@),
                color,
            ),
        decreases locs@.len() - i,
    {
        proof {
            assert(lv.subrange(0, i + 1).drop_last() =~= lv.subrange(0, i as int));
            assert(lv.subrange(0, i + 1).last() == locs@[i as int]@);
        }
        push_rto_symbol(&mut out, locs[i].as_str(), dominant, other_ids, color);
        i = i + 1;
    }
    proof {
        assert(lv.subrange(0, lv.len() as int) =~= lv);
    }
    out
}

/// The cells of one month row, computed.
struct MonthCellsText {
    date_str: String,
    start: String,
    end: String,
    total: String,
    rto: String,
    breaks: String,
    nlocs: usize,
}

spec fn cells_view(c: MonthCellsText) -> MonthCells {
    MonthCells {
        date_str: c.date_str@,
        start: c.start@,
        end: c.end@,
        total: c.total@,
        rto: c.rto@,
        breaks: c.breaks@,
        nlocs: c.nlocs as nat,
    }
}

/// The row can be shown.
pub open spec fn row_show_ok(row: MonthReportRow) -> bool {
    &&& has_date_parts(row.date@)
    &&& ts_ok(row.first_ms as int)
    &&& ts_ok(row.last_ms as int)
    &&& breaks_times_ok(row.breaks@)
}

fn month_cells_of(
    row: &MonthReportRow,
    mid: i64,
    dominant: &Option<String>,
    other_ids: &[String],
    color: bool,
) -> (r: MonthCellsText)
    requires
        -10_000_000_000_000_000 < mid < 10_000_000_000_000_000,
        row_show_ok(*row),
    ensures
        cells_view(r) == month_cells(*row, mid as int, opt_view(*dominant), views(other_ids@), color),
{
    let weekday = weekday_prefix(row.date.as_str());
    let mut date_str = String::new();
    append(&mut date_str, weekday.as_str());
    append(&mut date_str, " ");
    append(&mut date_str, row.date.as_str());
    append(&mut date_str, ":");
    MonthCellsText {
        date_str,
        start: format_time_since(mid, row.first_ms, false),
        end: format_time_since(mid, row.last_ms, false),
        total: format_duration(row.total_active_ms),
        rto: rto_symbols_of(&row.locations, dominant, other_ids, color),
        breaks: breaks_line(&row.breaks, mid, color),
        nlocs: row.locations.len(),
    }
}

spec fn cells_views(v: Seq<MonthCellsText>) -> Seq<MonthCells> {
    v.map_values(|c: MonthCellsText| cells_view(c))
}

/// Each of `mids` is a local midnight that `midnight_of_date` allows for the
/// date of its row of `report`.
pub open spec fn midnights_of_dates(report: MonthReport, mids: Seq<i64>) -> bool {
    &&& mids.len() == report.rows@.len()
    &&& forall|k: int|
        0 <= k < mids.len() ==> midnight_of_date(report.rows@[k].date@, #[trigger] mids[k] as int)
}

/// The local midnights can be used for the rows of `report`.
pub open spec fn midnights_ok(report: MonthReport, mids: Seq<i64>) -> bool {
    &&& mids.len() == report.rows@.len()
    &&& forall|k: int|
        0 <= k < mids.len() ==> -10_000_000_000_000_000 < #[trigger] mids[k]
            < 10_000_000_000_000_000
}

proof fn lemma_row_show_ok(report: MonthReport, k: int)
    requires
        month_report_ok(report),
        0 <= k < report.rows@.len(),
    ensures
        row_show_ok(report.rows@[k]),
{
    let row = report.rows@[k];
    assert(has_date_parts(row.date@));
}

fn month_cells_all(report: &MonthReport, mids: &[i64], color: bool) -> (r: Vec<MonthCellsText>)
    requires
        month_report_ok(*report),
        midnights_ok(*report, mids@),
    ensures
        cells_views(r@) == month_cells_seq(*report, mids@, color),
{
    let ghost all = month_cells_seq(*report, mids@, color);
    let mut out: Vec<MonthCellsText> = Vec::new();
    let mut i: usize = 0;
    while i < report.rows.len()
        invariant
            i <= report.rows@.len(),
            month_report_ok(*report),
            midnights_ok(*report, mids@),
            all == month_cells_seq(*report, mids@, color),
            cells_views(out@) =~= all.subrange(0, i as int),
        decreases report.rows@.len() - i,
    {
        proof {
            lemma_row_show_ok(*report, i as int);
        }
        let c = month_cells_of(&report.rows[i], mids[i], &report.dominant_id, report.other_ids.as_slice(), color);
        proof {
            assert(cells_views(out@.push(c)) =~= cells_views(out@).push(cells_view(c)));
            assert(all.subrange(0, i + 1) =~= all.subrange(0, i as int).push(cells_view(c)));
        }
        out.push(c);
        i = i + 1;
    }
    proof {
        assert(all.subrange(0, all.len() as int) =~= all);
    }
    out
}

struct MonthWidths {
    date: usize,
    start: usize,
    end: usize,
    total: usize,
}

fn month_widths(cells: &Vec<MonthCellsText>) -> (r: MonthWidths)
    ensures
        r.date == max_len(cells_views(cells@).map_values(|c: MonthCells| c.date_str), 4),
        r.start == max_len(cells_views(cells@).map_values(|c: MonthCells| c.start), 5),
        r.end == max_len(cells_views(cells@).map_values(|c: MonthCells| c.end), 3),
        r.total == max_len(cells_views(cells@).map_values(|c: MonthCells| c.total), 5),
{
    let mut dates: Vec<String> = Vec::new();
    let mut starts: Vec<String> = Vec::new();
    let mut ends: Vec<String> = Vec::new();
    let mut totals: Vec<String> = Vec::new();
    let ghost cv = cells_views(cells@);
    let mut i: usize = 0;
    while i < cells.len()
        invariant
            i <= cells@.len(),
            cv == cells_views(cells@),
            views(dates@) =~= cv.map_values(|c: MonthCells| c.date_str).subrange(0, i as int),
            views(starts@) =~= cv.map_values(|c: MonthCells| c.start).subrange(0, i as int),
            views(ends@) =~= cv.map_values(|c: MonthCells| c.end).subrange(0, i as int),
            views(totals@) =~= cv.map_values(|c: MonthCells| c.total).subrange(0, i as int),
        decreases cells@.len() - i,
    {
        let d = cells[i].date_str.clone();
        let s = cells[i].start.clone();
        let e = cells[i].end.clone();
        let t = cells[i].total.clone();
        proof {
            assert(views(dates@.push(d)) =~= views(dates@).push(d@));
            assert(views(starts@.push(s)) =~= views(starts@).push(s@));
            assert(views(ends@.push(e)) =~= views(ends@).push(e@));
            assert(views(totals@.push(t)) =~= views(totals@).push(t@));
        }
        dates.push(d);
        starts.push(s);
        ends.push(e);
        totals.push(t);
        i = i + 1;
    }
    proof {
        assert(views(dates@) =~= cv.map_values(|c: MonthCells| c.date_str));
        assert(views(starts@) =~= cv.map_values(|c: MonthCells| c.start));
        assert(views(ends@) =~= cv.map_values(|c: MonthCells| c.end));
        assert(views(totals@) =~= cv.map_values(|c: MonthCells| c.total));
    }
    MonthWidths {
        date: max_len_of(&dates, 4),
        start: max_len_of(&starts, 5),
        end: max_len_of(&ends, 3),
        total: max_len_of(&totals, 5),
    }
}

proof fn lemma_max_nlocs(cells: Seq<MonthCells>, min: nat)
    ensures
        max_nlocs(cells, min) >= min,
        forall|k: int| 0 <= k < cells.len() ==> #[trigger] cells[k].nlocs <= max_nlocs(cells, min),
    decreases cells.len(),
{
    if cells.len() > 0 {
        lemma_max_nlocs(cells.drop_last(), min);
        assert forall|k: int| 0 <= k < cells.len() implies #[trigger] cells[k].nlocs <= max_nlocs(
            cells,
            min,
        ) by {
            if k < cells.len() - 1 {
                assert(cells[k] == cells.drop_last()[k]);
            }
        }
    }
}

fn rto_layout(cells: &Vec<MonthCellsText>) -> (r: (bool, usize))
    ensures
        r.0 == any_rto(cells_views(cells@)),
        r.1 == max_nlocs(cells_views(cells@), 3),
{
    let ghost cv = cells_views(cells@);
    let mut has_rto = false;
    let mut col: usize = 3;
    let mut i: usize = 0;
    proof {
        assert(cv.subrange(0, 0) =~= Seq::<MonthCells>::empty());
    }
    while i < cells.len()
        invariant
            i <= cells@.len(),
            cv == cells_views(cells@),
            has_rto == exists|k: int| 0 <= k < i && #[trigger] cv[k].rto.len() > 0,
            col == max_nlocs(cv.subrange(0, i as int), 3),
        decreases cells@.len() - i,
    {
        proof {
            assert(cv.subrange(0, i + 1).drop_last() =~= cv.subrange(0, i as int));
            assert(cv[i as int] == cells_view(cells@[i as int]));
        }
        if cells[i].rto.unicode_len() > 0 {
            has_rto = true;
            proof {
                assert(cv[i as int].rto.len() > 0);
            }
        }
        proof {
            assert(cv[i as int].rto.len() == cells@[i as int].rto@.len());
        }
        if cells[i].nlocs > col {
            col = cells[i].nlocs;
        }
        i = i + 1;
    }
    proof {
        assert(cv.subrange(0, cv.len() as int) =~= cv);
    }
    (has_rto, col)
}

fn month_row(c: &MonthCellsText, w: &MonthWidths, rto_col: usize, has_rto: bool, color: bool) -> (r:
    String)
    requires
        c.nlocs <= rto_col,
    ensures
        r@ == month_row_line(
            cells_view(*c),
            (w.date as nat, w.start as nat, w.end as nat, w.total as nat),
            rto_col as nat,
            has_rto,
            color,
        ),
{
    let mut out = String::new();
    let mut cell = String::new();
    push_pad_end(&mut cell, c.date_str.as_str(), w.date);
    push_painted(&mut out, cell.as_str(), Paint::Date, color);
    append(&mut out, "  ");
    let mut cell = String::new();
    push_pad_start(&mut cell, c.start.as_str(), w.start);
    push_painted(&mut out, cell.as_str(), Paint::Time, color);
    append(&mut out, "  ");
    let mut cell = String::new();
    push_pad_start(&mut cell, c.end.as_str(), w.end);
    push_painted(&mut out, cell.as_str(), Paint::Time, color);
    append(&mut out, "  ");
    let mut cell = String::new();
    push_pad_start(&mut cell, c.total.as_str(), w.total);
    push_painted(&mut out, cell.as_str(), Paint::Work, color);
    let ghost before_rto = out@;
    if has_rto {
        append(&mut out, "  ");
        if c.rto.unicode_len() > 0 {
            append(&mut out, c.rto.as_str());
            push_repeat(&mut out, ' ', rto_col - c.nlocs);
        } else {
            push_repeat(&mut out, ' ', rto_col);
        }
    }
    let ghost after_rto = out@;
    if c.breaks.unicode_len() > 0 {
        append(&mut out, "  ");
        append(&mut out, c.breaks.as_str());
    }
    proof {
        if !has_rto {
            assert(after_rto =~= before_rto + Seq::<char>::empty());
        }
        if c.breaks@.len() == 0 {
            assert(out@ =~= after_rto + Seq::<char>::empty());
        }
        assert(out@ =~= month_row_line(
            cells_view(*c),
            (w.date as nat, w.start as nat, w.end as nat, w.total as nat),
            rto_col as nat,
            has_rto,
            color,
        ));
    }
    out
}

fn month_header(w: &MonthWidths, rto_col: usize, has_rto: bool) -> (r: String)
    ensures
        r@ == month_header_text(
            (w.date as nat, w.start as nat, w.end as nat, w.total as nat),
            rto_col as nat,
            has_rto,
        ),
{
    let mut h = String::new();
    push_pad_end(&mut h, "Date", w.date);
    append(&mut h, "  ");
    push_pad_start(&mut h, "Start", w.start);
    append(&mut h, "  ");
    push_pad_start(&mut h, "End", w.end);
    append(&mut h, "  ");
    push_pad_start(&mut h, "Total", w.total);
    let ghost before_rto = h@;
    if has_rto {
        append(&mut h, "  ");
        push_pad_end(&mut h, "RTO", rto_col);
    }
    let ghost after_rto = h@;
    append(&mut h, "  ");
    append(&mut h, "Breaks");
    proof {
        if !has_rto {
            assert(after_rto =~= before_rto + Seq::<char>::empty());
        }
        assert(h@ =~= month_header_text(
            (w.date as nat, w.start as nat, w.end as nat, w.total as nat),
            rto_col as nat,
            has_rto,
        ));
    }
    h
}

fn all_locations_of(rows: &Vec<MonthReportRow>) -> (r: Vec<String>)
    ensures
        views(r@) == all_locations(rows@),
{
    let mut out: Vec<String> = Vec::new();
    let mut i: usize = 0;
    proof {
        assert(rows@.subrange(0, 0) =~= Seq::<MonthReportRow>::empty());
    }
    while i < rows.len()
        invariant
            i <= rows@.len(),
            views(out@) == all_locations(rows@.subrange(0, i as int)),
        decreases rows@.len() - i,
    {
        proof {
            assert(rows@.subrange(0, i + 1).drop_last() =~= rows@.subrange(0, i as int));
            assert(rows@.subrange(0, i + 1).last() == rows@[i as int]);
        }
        let more: Vec<String> = rows[i].locations.clone();
        proof {
            assert(more@ == rows@[i as int].locations@);
        }
        extend_lines(&mut out, more);
        i = i + 1;
    }
    proof {
        assert(rows@.subrange(0, rows@.len() as int) =~= rows@);
    }
    out
}

fn month_rows_text(
    cells: &Vec<MonthCellsText>,
    w: &MonthWidths,
    rto_col: usize,
    has_rto: bool,
    color: bool,
) -> (r: Vec<String>)
    requires
        rto_col == max_nlocs(cells_views(cells@), 3),
    ensures
        views(r@) == cells_views(cells@).map_values(
            |c: MonthCells|
                month_row_line(
                    c,
                    (w.date as nat, w.start as nat, w.end as nat, w.total as nat),
                    rto_col as nat,
                    has_rto,
                    color,
                ),
        ),
{
    let ghost cv = cells_views(cells@);
    let ghost f = |c: MonthCells|
        month_row_line(
            c,
            (w.date as nat, w.start as nat, w.end as nat, w.total as nat),
            rto_col as nat,
            has_rto,
            color,
        );
    proof {
        lemma_max_nlocs(cv, 3);
    }
    let mut out: Vec<String> = Vec::new();
    let mut i: usize = 0;
    while i < cells.len()
        invariant
            i <= cells@.len(),
            cv == cells_views(cells@),
            forall|k: int| 0 <= k < cv.len() ==> #[trigger] cv[k].nlocs <= rto_col,
            f == (|c: MonthCells|
                month_row_line(
                    c,
                    (w.date as nat, w.start as nat, w.end as nat, w.total as nat),
                    rto_col as nat,
                    has_rto,
                    color,
                )),
            views(out@) =~= cv.map_values(f).subrange(0, i as int),
        decreases cells@.len() - i,
    {
        assert(cv[i as int].nlocs <= rto_col);
        let line = month_row(&cells[i], w, rto_col, has_rto, color);
        proof {
            assert(views(out@.push(line)) =~= views(out@).push(line@));
            assert(cv.map_values(f).subrange(0, i + 1) =~= cv.map_values(f).subrange(0, i as int).push(
                line@,
            ));
        }
        out.push(line);
        i = i + 1;
    }
    proof {
        assert(cv.map_values(f).subrange(0, cv.len() as int) =~= cv.map_values(f));
    }
    out
}

impl TerminalRenderer {
    /// The month table of `report`, whose `k`-th row has its times counted
    /// from `midnights[k]`, the local midnight of that row's date.
    #[verifier::rlimit(60)]
    #[verifier::spinoff_prover]
    pub fn render_month_at(&self, report: &MonthReport, midnights: &[i64]) -> (r: String)
        requires
            month_report_ok(*report),
            midnights_ok(*report, midnights@),
        ensures
            r@ == month_text(*report, midnights@, self.color),
    {
        let color = self.color;
        let title = month_title_of(report.yyyymm.as_str());
        if report.rows.len() == 0 {
            let mut out = paint(title.as_str(), Paint::Work, color);
            append(&mut out, "\n\nNo activity found.");
            return out;
        }
        let cells = month_cells_all(report, midnights, color);
        let w = month_widths(&cells);
        let (has_rto, rto_col) = rto_layout(&cells);
        let header_text = month_header(&w, rto_col, has_rto);
        let mut rule = String::new();
        push_repeat(&mut rule, '\u{2500}', header_text.unicode_len());
        let used = all_locations_of(&report.rows);
        let legend_text = legend(&report.dominant_id, report.other_ids.as_slice(), &used, color);
        let rows_text = month_rows_text(&cells, &w, rto_col, has_rto, color);
        let mut lines: Vec<String> = Vec::new();
        lines.push(paint(title.as_str(), Paint::Work, color));
        lines.push(String::new());
        lines.push(paint(header_text.as_str(), Paint::Chrome, color));
        lines.push(paint(rule.as_str(), Paint::Chrome, color));
        let ghost l1 = views(lines@);
        let ghost rl = views(rows_text@);
        let ghost lg = views(legend_text@);
        extend_lines(&mut lines, rows_text);
        let ghost l2 = views(lines@);
        if legend_text.len() > 0 {
            lines.push(String::new());
            proof {
                assert(views(lines@) =~= l2 + seq![Seq::<char>::empty()]);
            }
            extend_lines(&mut lines, legend_text);
        }
        proof {
            assert(views(lines@) =~= l1 + rl + if lg.len() > 0 {
                seq![Seq::<char>::empty()] + lg
            } else {
                Seq::empty()
            });
            let cv = month_cells_seq(*report, midnights@, color);
            assert(cells_views(cells@) == cv);
            let widths = (
                max_len(cv.map_values(|c: MonthCells| c.date_str), 4),
                max_len(cv.map_values(|c: MonthCells| c.start), 5),
                max_len(cv.map_values(|c: MonthCells| c.end), 3),
                max_len(cv.map_values(|c: MonthCells| c.total), 5),
            );
            assert(widths == (w.date as nat, w.start as nat, w.end as nat, w.total as nat));
            let ht = month_header_text(widths, rto_col as nat, has_rto);
            assert(header_text@ == ht);
            assert(l1 == seq![
                painted(month_title(report.yyyymm@), Paint::Work, color),
                Seq::<char>::empty(),
                painted(ht, Paint::Chrome, color),
                painted(repeat_char('\u{2500}', ht.len()), Paint::Chrome, color),
            ]);
            assert(lg == legend_lines(
                opt_view(report.dominant_id),
                views(report.other_ids@),
                all_locations(report.rows@),
                color,
            ));
            assert(rl == cv.map_values(
                |c: MonthCells| month_row_line(c, widths, rto_col as nat, has_rto, color),
            ));
            assert(views(lines@) =~= month_table_lines(*report, midnights@, color));
        }
        join_lines(&lines)
    }

    /// The month table of `report`, each row's times counted from the local
    /// midnight of its date (which depends on the machine's time zone).
    pub fn render_month(&self, report: &MonthReport) -> (r: String)
        requires
            month_report_ok(*report),
        ensures
            exists|mids: Seq<i64>|
                midnights_of_dates(*report, mids) && r@ == #[trigger] month_text(
                    *report,
                    mids,
                    self.color,
                ),
    {
        let mut mids: Vec<i64> = Vec::new();
        let mut i: usize = 0;
        while i < report.rows.len()
            invariant
                i <= report.rows@.len(),
                month_report_ok(*report),
                mids@.len() == i,
                forall|k: int|
                    0 <= k < i ==> midnight_of_date(report.rows@[k].date@, #[trigger] mids@[k] as int),
            decreases report.rows@.len() - i,
        {
            proof {
                lemma_row_show_ok(*report, i as int);
            }
            let m = local_midnight_of(report.rows[i].date.as_str());
            mids.push(m);
            i = i + 1;
        }
        let r = self.render_month_at(report, mids.as_slice());
        proof {
            assert(midnights_of_dates(*report, mids@) && r@ == month_text(*report, mids@, self.color));
        }
        r
    }
}

} // verus!

//! Gregorian calendar facts, the `YYYY-MM-DD` date strings of the reports,
//! and the calls into `chrono` that the reports make.
use vstd::prelude::*;

use crate::numfmt::is_digit_char;
use crate::text::chars_of;
use chrono::{Datelike, TimeZone, Timelike};

verus! {

/// The first year `chrono::NaiveDate` represents.
pub open spec fn min_year() -> int {
    -262143
}

/// The last year `chrono::NaiveDate` represents.
pub open spec fn max_year() -> int {
    262142
}

/// `y` is a leap year of the proleptic Gregorian calendar.
pub open spec fn is_leap(y: int) -> bool {
    y % 4 == 0 && (y % 100 != 0 || y % 400 == 0)
}

/// The number of days of month `m` (1 to 12) of year `y`.
pub open spec fn month_len(y: int, m: int) -> int {
    if m == 2 {
        if is_leap(y) {
            29
        } else {
            28
        }
    } else if m == 4 || m == 6 || m == 9 || m == 11 {
        30
    } else {
        31
    }
}

/// `(y, m, d)` is a date that `chrono::NaiveDate` can represent.
pub open spec fn valid_ymd(y: int, m: int, d: int) -> bool {
    &&& min_year() <= y <= max_year()
    &&& 1 <= m <= 12
    &&& 1 <= d <= month_len(y, m)
}

/// The days of the months of year `y` before month `m`.
pub open spec fn days_before_month(y: int, m: int) -> int
    decreases m,
{
    if m <= 1 {
        0
    } else {
        days_before_month(y, m - 1) + month_len(y, m - 1)
    }
}

/// Days from 0001-01-01 to `(y, m, d)` in the proleptic Gregorian calendar.
pub open spec fn days_from_epoch(y: int, m: int, d: int) -> int {
    let p = y - 1;
    365 * p + p / 4 - p / 100 + p / 400 + days_before_month(y, m) + d - 1
}

/// A date and time of day read as UTC, in milliseconds since the Unix
/// epoch: the wall-clock reading that a time zone's offset then shifts.
pub open spec fn wall_ms(y: int, m: int, d: int, h: int, mi: int, s: int) -> int {
    (days_from_epoch(y, m, d) - days_from_epoch(1970, 1, 1)) * 86_400_000 + h * 3_600_000 + mi
        * 60_000 + s * 1000
}

/// The instant `t` lies less than a day from the wall-clock reading `wall`,
/// as it does for every offset from UTC that `chrono` represents.
pub open spec fn within_a_day(t: int, wall: int) -> bool {
    wall - 86_400_000 < t < wall + 86_400_000
}

/// Hour `h` of the date `(y, m, d)` can be the local hour of the instant
/// `ts` under an offset from UTC of less than a day: the hour starts less
/// than a day and an hour before `ts` and less than a day after it.
pub open spec fn local_hour_of(ts: int, y: int, m: int, d: int, h: int) -> bool {
    &&& valid_ymd(y, m, d)
    &&& 0 <= h < 24
    &&& ts - 90_000_000 < wall_ms(y, m, d, h, 0, 0) < ts + 86_400_000
}

/// Instants, in milliseconds since the Unix epoch, that lie well inside the
/// years `chrono` represents (about 253,000 years either side of 1970).
pub open spec fn placeable_ms(ts: int) -> bool {
    -8_000_000_000_000_000 <= ts <= 8_000_000_000_000_000
}

proof fn lemma_days_before_month_bounds(y: int, m: int)
    requires
        1 <= m <= 12,
    ensures
        0 <= days_before_month(y, m) <= 31 * (m - 1),
    decreases m,
{
    if m > 1 {
        lemma_days_before_month_bounds(y, m - 1);
    }
}

/// The wall-clock reading of a valid date and time stays below 9 * 10^15
/// milliseconds either side of the epoch.
pub proof fn lemma_wall_ms_bounds(y: int, m: int, d: int, h: int, mi: int, s: int)
    requires
        valid_ymd(y, m, d),
        0 <= h < 24,
        0 <= mi < 60,
        0 <= s < 60,
    ensures
        -9_000_000_000_000_000 < wall_ms(y, m, d, h, mi, s) < 9_000_000_000_000_000,
{
    lemma_days_before_month_bounds(y, m);
    assert(days_before_month(1970, 1) == 0);
    let p = y - 1;
    assert(-96_000_000 < 365 * p + p / 4 - p / 100 + p / 400 < 96_000_000);
}

/// The day of the week of `(y, m, d)`, counted from Monday as 0
/// (0001-01-01 was a Monday).
pub open spec fn weekday_index(y: int, m: int, d: int) -> int {
    days_from_epoch(y, m, d) % 7
}

/// The three-letter English name of weekday `w` (Monday is 0).
pub open spec fn weekday_name(w: int) -> Seq<char> {
    if w == 0 {
        seq!['M', 'o', 'n']
    } else if w == 1 {
        seq!['T', 'u', 'e']
    } else if w == 2 {
        seq!['W', 'e', 'd']
    } else if w == 3 {
        seq!['T', 'h', 'u']
    } else if w == 4 {
        seq!['F', 'r', 'i']
    } else if w == 5 {
        seq!['S', 'a', 't']
    } else {
        seq!['S', 'u', 'n']
    }
}

/// The weekday of a valid date, from `chrono`, counted from Monday as 0.
///
/// Calls `NaiveDate::from_ymd_opt` and then `Datelike::weekday` and
/// `Weekday::num_days_from_monday`. `from_ymd_opt` returns `None` exactly when
/// the year is outside `NaiveDate`'s range, the month is not 1 to 12, or the
/// day does not exist in that month; the weekday is that of the proleptic
/// Gregorian calendar.
#[verifier::external_body]
fn chrono_weekday(y: i32, m: u32, d: u32) -> (r: Option<u32>)
    ensures
        r is Some <==> valid_ymd(y as int, m as int, d as int),
        r matches Some(w) ==> w == weekday_index(y as int, m as int, d as int),
{
    chrono::NaiveDate::from_ymd_opt(y, m, d).map(|dt| dt.weekday().num_days_from_monday())
}

/// Midnight UTC of a valid date, in milliseconds since the Unix epoch.
///
/// Calls `NaiveDate::from_ymd_opt`, `NaiveDate::and_hms_opt(0, 0, 0)`,
/// `NaiveDateTime::and_utc` and `DateTime::timestamp_millis`, which counts
/// the milliseconds since 1970-01-01T00:00:00Z: for midnight of a date, its
/// days since 1970-01-01 times the milliseconds of a day.
#[verifier::external_body]
pub(crate) fn chrono_utc_midnight_ms(y: i32, m: u32, d: u32) -> (r: i64)
    requires
        valid_ymd(y as int, m as int, d as int),
    ensures
        r == (days_from_epoch(y as int, m as int, d as int) - days_from_epoch(1970, 1, 1))
            * 86_400_000,
{
    chrono::NaiveDate::from_ymd_opt(y, m, d).and_then(|dt| dt.and_hms_opt(0, 0, 0)).map(
        |dt| dt.and_utc().timestamp_millis(),
    ).unwrap_or(0)
}

// ---------------------------------------------------------------------------
// Date strings
// ---------------------------------------------------------------------------

/// The value of a run of ASCII digits.
pub open spec fn digits_value(s: Seq<char>) -> nat
    decreases s.len(),
{
    if s.len() == 0 {
        0
    } else {
        digits_value(s.drop_last()) * 10 + ((s.last() as int - 48) as nat)
    }
}

/// `s` without a leading `+`.
pub open spec fn unsigned_body(s: Seq<char>) -> Seq<char> {
    if s.len() > 0 && s[0] == '+' {
        s.drop_first()
    } else {
        s
    }
}

/// What `str::parse::<u32>` returns for `s`: an optional `+` followed by at
/// least one ASCII digit, with a value that fits in a `u32`.
pub open spec fn parse_u32(s: Seq<char>) -> Option<nat> {
    let body = unsigned_body(s);
    if body.len() > 0 && (forall|i: int| 0 <= i < body.len() ==> is_digit_char(#[trigger] body[i]))
        && digits_value(body) <= u32::MAX {
        Some(digits_value(body))
    } else {
        None
    }
}

/// The position of the first `-` in `s`, if any.
pub open spec fn first_dash(s: Seq<char>) -> Option<int>
    decreases s.len(),
{
    if s.len() == 0 {
        None
    } else if s[0] == '-' {
        Some(0)
    } else {
        match first_dash(s.drop_first()) {
            Some(i) => Some(i + 1),
            None => None,
        }
    }
}

/// The pieces of `s` between dashes, as `str::split('-')` yields them.
pub open spec fn dash_parts(s: Seq<char>) -> Seq<Seq<char>>
    decreases s.len(),
{
    match first_dash(s) {
        None => seq![s],
        Some(i) => {
            proof {
                lemma_first_dash(s);
            }
            seq![s.subrange(0, i)] + dash_parts(s.subrange(i + 1, s.len() as int))
        },
    }
}

/// The `(year, month, day)` numbers of a date string: each of its first three
/// dash-separated pieces parsed as a `u32`, 0 where that fails.
pub open spec fn date_numbers(s: Seq<char>) -> (nat, nat, nat) {
    let parts = dash_parts(s);
    (
        parse_u32(parts[0]).unwrap_or(0),
        parse_u32(parts[1]).unwrap_or(0),
        parse_u32(parts[2]).unwrap_or(0),
    )
}

/// `s` has at least three dash-separated pieces.
pub open spec fn has_date_parts(s: Seq<char>) -> bool {
    dash_parts(s).len() >= 3
}

pub proof fn lemma_first_dash(s: Seq<char>)
    ensures
        first_dash(s) matches Some(i) ==> 0 <= i < s.len() && s[i] == '-' && forall|j: int|
            0 <= j < i ==> s[j] != '-',
        first_dash(s) is None ==> forall|j: int| 0 <= j < s.len() ==> s[j] != '-',
    decreases s.len(),
{
    if s.len() > 0 {
        lemma_first_dash(s.drop_first());
        if s[0] != '-' {
            assert forall|j: int| 0 < j < s.len() implies s[j] == s.drop_first()[j - 1] by {}
        }
    }
}

proof fn lemma_dash_parts_nonempty(s: Seq<char>)
    ensures
        dash_parts(s).len() >= 1,
    decreases s.len(),
{
    lemma_first_dash(s);
    if let Some(i) = first_dash(s) {
        lemma_dash_parts_nonempty(s.subrange(i + 1, s.len() as int));
    }
}

/// Parses `s[from..to]` as `str::parse::<u32>` does.
pub fn parse_u32_at(s: &Vec<char>, from: usize, to: usize) -> (r: Option<u32>)
    requires
        from <= to <= s@.len(),
    ensures
        match parse_u32(s@.subrange(from as int, to as int)) {
            Some(v) => r == Some(v as u32) && v <= u32::MAX,
            None => r is None,
        },
{
    let ghost full = s@.subrange(from as int, to as int);
    let mut start: usize = from;
    if from < to && s[from] == '+' {
        start = from + 1;
    }
    let ghost body = s@.subrange(start as int, to as int);
    proof {
        if from < to {
            assert(full[0] == s@[from as int]);
        }
        if from < to && s@[from as int] == '+' {
            assert(body =~= full.drop_first());
        } else {
            assert(body =~= full);
        }
        assert(body == unsigned_body(full));
    }
    if start == to {
        return None;
    }
    let mut value: u64 = 0;
    let mut i: usize = start;
    proof {
        assert(s@.subrange(start as int, start as int) =~= Seq::<char>::empty());
    }
    while i < to
        invariant
            start <= i <= to <= s@.len(),
            body == s@.subrange(start as int, to as int),
            full == s@.subrange(from as int, to as int),
            body == unsigned_body(full),
            forall|j: int| start <= j < i ==> is_digit_char(#[trigger] s@[j]),
            value == digits_value(s@.subrange(start as int, i as int)),
            value <= u32::MAX,
        decreases to - i,
    {
        let c = s[i];
        if !('0' <= c && c <= '9') {
            proof {
                assert(!is_digit_char(body[i - start]));
                assert(parse_u32(full) is None);
            }
            return None;
        }
        proof {
            assert(s@.subrange(start as int, i + 1).drop_last() =~= s@.subrange(start as int, i as int));
            assert(s@.subrange(start as int, i + 1).last() == c);
            assert((c as int) == (c as u32));
        }
        let d: u64 = (c as u32 - 48) as u64;
        let next: u64 = value * 10 + d;
        if next > 4_294_967_295 {
            proof {
                assert(digits_value(s@.subrange(start as int, i + 1)) == next);
                if forall|j: int| 0 <= j < body.len() ==> is_digit_char(#[trigger] body[j]) {
                    assert(body.subrange(0, i + 1 - start) =~= s@.subrange(start as int, i + 1));
                    lemma_digits_value_prefix(body, i + 1 - start);
                }
                assert(parse_u32(full) is None);
            }
            return None;
        }
        value = next;
        i = i + 1;
    }
    proof {
        assert(s@.subrange(start as int, to as int) =~= body);
        assert forall|j: int| 0 <= j < body.len() implies is_digit_char(#[trigger] body[j]) by {
            assert(body[j] == s@[start + j]);
        }
    }
    Some(value as u32)
}

/// Parses `s[from..to]` as `str::parse::<u32>` does, 0 when that fails.
pub fn parse_u32_or_zero(s: &Vec<char>, from: usize, to: usize) -> (r: u32)
    requires
        from <= to <= s@.len(),
    ensures
        r == parse_u32(s@.subrange(from as int, to as int)).unwrap_or(0),
{
    match parse_u32_at(s, from, to) {
        Some(v) => v,
        None => 0,
    }
}

proof fn lemma_digits_value_prefix(s: Seq<char>, k: int)
    requires
        0 <= k <= s.len(),
        forall|j: int| 0 <= j < s.len() ==> is_digit_char(#[trigger] s[j]),
    ensures
        digits_value(s) >= digits_value(s.subrange(0, k)),
    decreases s.len(),
{
    if s.len() > k {
        assert(s.drop_last().subrange(0, k) =~= s.subrange(0, k));
        assert(is_digit_char(s[s.len() - 1]));
        lemma_digits_value_prefix(s.drop_last(), k);
    } else {
        assert(s.subrange(0, k) =~= s);
    }
}

/// Position of the first `-` in `s[from..]`, or `s.len()`.
fn find_dash(s: &Vec<char>, from: usize) -> (r: usize)
    requires
        from <= s@.len(),
    ensures
        from <= r <= s@.len(),
        r < s@.len() ==> s@[r as int] == '-',
        forall|j: int| from <= j < r ==> s@[j] != '-',
{
    let mut i: usize = from;
    while i < s.len()
        invariant
            from <= i <= s@.len(),
            forall|j: int| from <= j < i ==> s@[j] != '-',
        decreases s@.len() - i,
    {
        if s[i] == '-' {
            return i;
        }
        i = i + 1;
    }
    i
}

proof fn lemma_dash_parts_split(s: Seq<char>, i: int)
    requires
        0 <= i < s.len(),
        s[i] == '-',
        forall|j: int| 0 <= j < i ==> s[j] != '-',
    ensures
        dash_parts(s) == seq![s.subrange(0, i)] + dash_parts(s.subrange(i + 1, s.len() as int)),
{
    lemma_first_dash(s);
    assert(first_dash(s) == Some(i));
}

proof fn lemma_dash_parts_whole(s: Seq<char>)
    requires
        forall|j: int| 0 <= j < s.len() ==> s[j] != '-',
    ensures
        dash_parts(s) == seq![s],
{
    lemma_first_dash(s);
}

/// The year, month and day numbers of a date string, as the reports read
/// them: the first three dash-separated pieces, each parsed as a `u32` and 0
/// where that fails.
pub fn parse_date_numbers(date: &str) -> (r: (u32, u32, u32))
    requires
        has_date_parts(date@),
    ensures
        r.0 == date_numbers(date@).0,
        r.1 == date_numbers(date@).1,
        r.2 == date_numbers(date@).2,
{
    let s = chars_of(date);
    let n: usize = s.len();
    let d1: usize = find_dash(&s, 0);
    proof {
        if d1 == n {
            lemma_dash_parts_whole(s@);
        } else {
            lemma_dash_parts_split(s@, d1 as int);
        }
    }
    let ghost rest1 = s@.subrange(d1 + 1, n as int);
    let d2: usize = find_dash(&s, d1 + 1);
    proof {
        assert(d1 < n);
        if d2 == n {
            lemma_dash_parts_whole(rest1);
        } else {
            assert forall|j: int| 0 <= j < d2 - d1 - 1 implies rest1[j] != '-' by {
                assert(rest1[j] == s@[d1 + 1 + j]);
            }
            lemma_dash_parts_split(rest1, d2 - d1 - 1);
            assert(rest1.subrange(0, d2 - d1 - 1) =~= s@.subrange(d1 + 1, d2 as int));
            assert(rest1.subrange(d2 - d1, rest1.len() as int) =~= s@.subrange(d2 + 1, n as int));
        }
        lemma_dash_parts_nonempty(s@.subrange(d2 + 1, n as int));
    }
    let ghost rest2 = s@.subrange(d2 + 1, n as int);
    let d3: usize = find_dash(&s, d2 + 1);
    proof {
        assert(d2 < n);
        if d3 == n {
            lemma_dash_parts_whole(rest2);
            assert(rest2 =~= s@.subrange(d2 + 1, d3 as int));
        } else {
            assert forall|j: int| 0 <= j < d3 - d2 - 1 implies rest2[j] != '-' by {
                assert(rest2[j] == s@[d2 + 1 + j]);
            }
            lemma_dash_parts_split(rest2, d3 - d2 - 1);
            assert(rest2.subrange(0, d3 - d2 - 1) =~= s@.subrange(d2 + 1, d3 as int));
        }
        assert(dash_parts(s@)[0] == s@.subrange(0, d1 as int));
        assert(dash_parts(s@)[1] == s@.subrange(d1 + 1, d2 as int));
        assert(dash_parts(s@)[2] == s@.subrange(d2 + 1, d3 as int));
    }
    let y: u32 = parse_u32_or_zero(&s, 0, d1);
    let m: u32 = parse_u32_or_zero(&s, d1 + 1, d2);
    let d: u32 = parse_u32_or_zero(&s, d2 + 1, d3);
    (y, m, d)
}

/// The weekday name of the date `date@`, or of 1970-01-01 when it is not a
/// valid date.
pub open spec fn date_weekday_name(date: Seq<char>) -> Seq<char> {
    let (y, m, d) = date_numbers(date);
    let y32 = y as i32;
    if valid_ymd(y32 as int, m as int, d as int) {
        weekday_name(weekday_index(y32 as int, m as int, d as int))
    } else {
        weekday_name(weekday_index(1970, 1, 1))
    }
}

fn weekday_text(w: u32) -> (r: String)
    ensures
        r@ == weekday_name(w as int),
{
    let name = if w == 0 {
        "Mon"
    } else if w == 1 {
        "Tue"
    } else if w == 2 {
        "Wed"
    } else if w == 3 {
        "Thu"
    } else if w == 4 {
        "Fri"
    } else if w == 5 {
        "Sat"
    } else {
        "Sun"
    };
    proof {
        reveal_strlit("Mon");
        reveal_strlit("Tue");
        reveal_strlit("Wed");
        reveal_strlit("Thu");
        reveal_strlit("Fri");
        reveal_strlit("Sat");
        reveal_strlit("Sun");
    }
    String::from_str(name)
}

/// The three-letter weekday name of a `YYYY-MM-DD` date (that of 1970-01-01
/// when the date does not exist).
pub fn weekday_prefix(date: &str) -> (r: String)
    requires
        has_date_parts(date@),
    ensures
        r@ == date_weekday_name(date@),
{
    let (y, m, d) = parse_date_numbers(date);
    match chrono_weekday(y as i32, m, d) {
        Some(w) => weekday_text(w),
        None => match chrono_weekday(1970, 1, 1) {
            Some(w) => weekday_text(w),
            None => {
                proof {
                    assert(valid_ymd(1970, 1, 1));
                }
                String::new()
            },
        },
    }
}

/// The year of a date string as the reports read it: its first piece parsed
/// as a `u32`, then taken as an `i32`.
pub open spec fn date_year(date: Seq<char>) -> int {
    (date_numbers(date).0 as u32) as i32 as int
}

/// `m` can be the local midnight of the date string `date` as
/// `local_midnight_of` gives it: 0 when the date does not exist, and
/// otherwise 0 or an instant less than a day from the date's midnight UTC.
pub open spec fn midnight_of_date(date: Seq<char>, m: int) -> bool {
    let y = date_year(date);
    let mo = date_numbers(date).1 as int;
    let d = date_numbers(date).2 as int;
    &&& !valid_ymd(y, mo, d) ==> m == 0
    &&& m == 0 || within_a_day(m, wall_ms(y, mo, d, 0, 0, 0))
    &&& -10_000_000_000_000_000 < m < 10_000_000_000_000_000
}

/// Midnight, local time, of the date `date@`, in milliseconds since the Unix
/// epoch; 0 when the date does not exist or its local midnight is not a
/// single instant.
pub fn local_midnight_of(date: &str) -> (r: i64)
    requires
        has_date_parts(date@),
    ensures
        midnight_of_date(date@, r as int),
{
    let (y, m, d) = parse_date_numbers(date);
    match crate::wifi::local_instant_ms(y as i32, m, d, 0, 0, 0) {
        Some(t) => {
            proof {
                lemma_wall_ms_bounds((y as i32) as int, m as int, d as int, 0, 0, 0);
            }
            t
        },
        None => 0,
    }
}

// ---------------------------------------------------------------------------
// Days and months
// ---------------------------------------------------------------------------

/// What `str::parse::<i32>` returns for `s`: an optional sign followed by at
/// least one ASCII digit, with a value that fits in an `i32`.
pub open spec fn parse_i32(s: Seq<char>) -> Option<int> {
    if s.len() > 0 && s[0] == '-' {
        let body = s.drop_first();
        if body.len() > 0 && (forall|i: int| 0 <= i < body.len() ==> is_digit_char(#[trigger] body[i]))
            && digits_value(body) <= 2147483648 {
            Some(-(digits_value(body) as int))
        } else {
            None
        }
    } else {
        match parse_u32(s) {
            Some(v) => if v <= 2147483647 {
                Some(v as int)
            } else {
                None
            },
            None => None,
        }
    }
}

/// Parses `s[from..to]` as `str::parse::<i32>` does.
pub fn parse_i32_at(s: &Vec<char>, from: usize, to: usize) -> (r: Option<i32>)
    requires
        from <= to <= s@.len(),
    ensures
        match parse_i32(s@.subrange(from as int, to as int)) {
            Some(v) => r == Some(v as i32) && i32::MIN <= v <= i32::MAX,
            None => r is None,
        },
{
    let ghost full = s@.subrange(from as int, to as int);
    if from < to && s[from] == '-' {
        proof {
            assert(full[0] == s@[from as int]);
            assert(full.drop_first() =~= s@.subrange(from + 1, to as int));
        }
        if from + 1 < to && s[from + 1] == '+' {
            proof {
                assert(!is_digit_char(full.drop_first()[0]));
            }
            return None;
        }
        match parse_u32_at(s, from + 1, to) {
            Some(v) => {
                if v <= 2147483648 {
                    proof {
                        assert(crate::calendar::unsigned_body(s@.subrange(from + 1, to as int))
                            =~= s@.subrange(from + 1, to as int));
                    }
                    if v == 2147483648 {
                        return Some(i32::MIN);
                    }
                    return Some(-(v as i32));
                } else {
                    return None;
                }
            },
            None => {
                proof {
                    assert(crate::calendar::unsigned_body(s@.subrange(from + 1, to as int))
                        =~= s@.subrange(from + 1, to as int));
                }
                return None;
            },
        }
    }
    proof {
        if from < to {
            assert(full[0] == s@[from as int]);
        }
    }
    match parse_u32_at(s, from, to) {
        Some(v) => {
            if v <= 2147483647 {
                Some(v as i32)
            } else {
                None
            }
        },
        None => None,
    }
}

/// `YYYYMM` can be read: its first six characters are ASCII, the first four
/// parse as an `i32` and the last two as a month number up to 12.
pub open spec fn yyyymm_ok(yyyymm: Seq<char>) -> bool {
    &&& yyyymm.len() >= 6
    &&& forall|i: int| 0 <= i < 6 ==> (#[trigger] yyyymm[i] as u32) < 128
    &&& parse_i32(yyyymm.subrange(0, 4)) is Some
    &&& parse_u32(yyyymm.subrange(4, 6)) matches Some(m) && m <= 12
}

/// The number of days of month `m` of year `y`; month 0 counts as the
/// December before.
pub open spec fn days_of_month(y: int, m: int) -> int {
    if m == 0 {
        31
    } else {
        month_len(y, m)
    }
}

pub open spec fn yyyymm_days(yyyymm: Seq<char>) -> int {
    days_of_month(
        parse_i32(yyyymm.subrange(0, 4)).unwrap(),
        parse_u32(yyyymm.subrange(4, 6)).unwrap() as int,
    )
}

#[verifier::spinoff_prover]
fn month_length(y: i32, m: u32) -> (r: u32)
    requires
        m <= 12,
    ensures
        r == days_of_month(y as int, m as int),
{
    if m == 0 {
        31
    } else if m == 2 {
        if y % 4 == 0 && (y % 100 != 0 || y % 400 == 0) {
            29
        } else {
            28
        }
    } else if m == 4 || m == 6 || m == 9 || m == 11 {
        30
    } else {
        31
    }
}

/// The number of days of the month `YYYYMM`.
pub fn days_in_month(yyyymm: &str) -> (r: u32)
    requires
        yyyymm_ok(yyyymm@),
    ensures
        r == yyyymm_days(yyyymm@),
{
    let s = chars_of(yyyymm);
    let year: i32 = match parse_i32_at(&s, 0, 4) {
        Some(y) => y,
        None => 0,
    };
    let month: u32 = match parse_u32_at(&s, 4, 6) {
        Some(m) => m,
        None => 0,
    };
    month_length(year, month)
}

/// The dates of the month `YYYYMM`, as `YYYY-MM-DD`.
pub open spec fn month_dates(yyyymm: Seq<char>) -> Seq<Seq<char>> {
    Seq::new(
        yyyymm_days(yyyymm) as nat,
        |i: int|
            yyyymm.subrange(0, 4) + seq!['-'] + yyyymm.subrange(4, 6) + seq!['-'] + crate::numfmt::pad2(
                i + 1,
            ),
    )
}

/// All `YYYY-MM-DD` dates of the month `YYYYMM`.
pub fn build_month_dates(yyyymm: &str) -> (r: Vec<String>)
    requires
        yyyymm_ok(yyyymm@),
    ensures
        r@.map_values(|d: String| d@) == month_dates(yyyymm@),
{
    let s = chars_of(yyyymm);
    let count: u32 = days_in_month(yyyymm);
    let ghost all = month_dates(yyyymm@);
    let mut out: Vec<String> = Vec::new();
    let mut day: u32 = 1;
    while day <= count
        invariant
            1 <= day <= count + 1,
            count <= 31,
            s@ == yyyymm@,
            s@.len() >= 6,
            all == month_dates(yyyymm@),
            all.len() == count,
            out@.map_values(|d: String| d@) =~= all.subrange(0, day - 1),
        decreases count + 1 - day,
    {
        let mut d = String::new();
        let mut k: usize = 0;
        while k < 4
            invariant
                k <= 4,
                s@.len() >= 6,
                d@ =~= s@.subrange(0, k as int),
            decreases 4 - k,
        {
            crate::text::push_char(&mut d, s[k]);
            k = k + 1;
        }
        crate::text::push_char(&mut d, '-');
        crate::text::push_char(&mut d, s[4]);
        crate::text::push_char(&mut d, s[5]);
        crate::text::push_char(&mut d, '-');
        crate::numfmt::push_pad2(&mut d, day as i64);
        proof {
            assert(d@ =~= all[day - 1]);
            assert(out@.push(d).map_values(|d: String| d@) =~= out@.map_values(|d: String| d@).push(
                d@,
            ));
        }
        out.push(d);
        day = day + 1;
    }
    out
}

// ---------------------------------------------------------------------------
// Date strings and local time
// ---------------------------------------------------------------------------

/// What `NaiveDate::parse_from_str(s, "%Y-%m-%d")` returns, as year, month
/// and day.
pub uninterp spec fn chrono_parsed_date(s: Seq<char>) -> Option<(int, int, int)>;

/// Parses a `YYYY-MM-DD` date with `chrono`.
///
/// Calls `NaiveDate::parse_from_str(s, "%Y-%m-%d")`; the result is named
/// `chrono_parsed_date`. A parsed `NaiveDate` is always a valid date.
#[verifier::external_body]
pub(crate) fn chrono_parse_ymd(s: &str) -> (r: Option<(i32, u32, u32)>)
    ensures
        match chrono_parsed_date(s@) {
            Some((y, m, d)) => r == Some((y as i32, m as u32, d as u32)) && valid_ymd(y, m, d),
            None => r is None,
        },
{
    chrono::NaiveDate::parse_from_str(s, "%Y-%m-%d").ok().map(|d| (d.year(), d.month(), d.day()))
}

/// The local year, month, day and hour of an instant, in milliseconds since
/// the Unix epoch.
///
/// Calls `Local.timestamp_millis_opt(ts_ms).single()` and reads `year`,
/// `month`, `day` and `hour`. `timestamp_millis_opt` gives a single
/// date-time for every instant within the years `chrono` represents, which
/// `placeable_ms` stays well inside, and `Local` shifts it by a `FixedOffset`,
/// which is less than a day; so the hour read starts less than a day and an
/// hour before the instant and less than a day after it. Which date and hour
/// within that depends on the machine's time zone and is not stated.
#[verifier::external_body]
fn chrono_local_fields(ts_ms: i64) -> (r: Option<(i32, u32, u32, u32)>)
    ensures
        placeable_ms(ts_ms as int) ==> r is Some,
        r matches Some((y, m, d, h)) ==> local_hour_of(
            ts_ms as int,
            y as int,
            m as int,
            d as int,
            h as int,
        ),
{
    chrono::Local.timestamp_millis_opt(ts_ms).single().map(
        |dt| (dt.year(), dt.month(), dt.day(), dt.hour()),
    )
}

/// The day after `(y, m, d)`.
pub open spec fn next_date(y: int, m: int, d: int) -> (int, int, int) {
    if d < month_len(y, m) {
        (y, m, d + 1)
    } else if m < 12 {
        (y, m + 1, 1)
    } else {
        (y + 1, 1, 1)
    }
}

/// `(y, m, d)` as `format!("{:04}-{:02}-{:02}", y, m, d)` writes it.
pub open spec fn ymd_text(y: int, m: int, d: int) -> Seq<char> {
    crate::numfmt::pad4(y) + seq!['-'] + crate::numfmt::pad2(m) + seq!['-'] + crate::numfmt::pad2(d)
}

fn format_ymd(y: i32, m: u32, d: u32) -> (r: String)
    ensures
        r@ == ymd_text(y as int, m as int, d as int),
{
    let mut out = String::new();
    crate::numfmt::push_pad4(&mut out, y as i64);
    crate::text::push_char(&mut out, '-');
    crate::numfmt::push_pad2(&mut out, m as i64);
    crate::text::push_char(&mut out, '-');
    crate::numfmt::push_pad2(&mut out, d as i64);
    proof {
        assert(out@ =~= ymd_text(y as int, m as int, d as int));
    }
    out
}

/// The `YYYY-MM-DD` date after the date `date`, or `None` when `date` is
/// not a date `chrono` reads or is its last representable date.
pub fn next_day(date: &str) -> (r: Option<String>)
    ensures
        match chrono_parsed_date(date@) {
            None => r is None,
            Some((y, m, d)) => {
                let n = next_date(y, m, d);
                if valid_ymd(n.0, n.1, n.2) {
                    r matches Some(t) && t@ == ymd_text(n.0, n.1, n.2)
                } else {
                    r is None
                }
            },
        },
{
    let (y, m, d) = match chrono_parse_ymd(date) {
        Some(v) => v,
        None => return None,
    };
    let len: u32 = month_length(y, m);
    if d < len {
        Some(format_ymd(y, m, d + 1))
    } else if m < 12 {
        Some(format_ymd(y, m + 1, 1))
    } else if y < 262142 {
        Some(format_ymd(y + 1, 1, 1))
    } else {
        None
    }
}

/// 06:00 local time on `date`, in milliseconds since the Unix epoch, or
/// `None` when `date` is not a date `chrono` reads or 06:00 is not a single
/// instant there.
pub fn six_am_of(date: &str) -> (r: Option<i64>)
    ensures
        chrono_parsed_date(date@) is None ==> r is None,
        r matches Some(t) ==> chrono_parsed_date(date@) matches Some((y, m, d)) && within_a_day(
            t as int,
            wall_ms(y, m, d, 6, 0, 0),
        ),
{
    let (y, m, d) = match chrono_parse_ymd(date) {
        Some(v) => v,
        None => return None,
    };
    crate::wifi::local_instant_ms(y, m, d, 6, 0, 0)
}

/// The local `YYYY-MM-DD` date of an instant, or `None` when `chrono`
/// cannot place it.
pub fn format_local_date(ts_ms: i64) -> (r: Option<String>)
    ensures
        placeable_ms(ts_ms as int) ==> r is Some,
        r matches Some(s) ==> exists|y: int, m: int, d: int, h: int|
            #![trigger local_hour_of(ts_ms as int, y, m, d, h)]
            local_hour_of(ts_ms as int, y, m, d, h) && s@ == ymd_text(y, m, d),
{
    match chrono_local_fields(ts_ms) {
        Some((y, m, d, h)) => {
            let s = format_ymd(y, m, d);
            proof {
                assert(local_hour_of(ts_ms as int, y as int, m as int, d as int, h as int));
            }
            Some(s)
        },
        None => None,
    }
}

/// The date a time belongs to: times before 06:00 local belong to the day
/// before, the local date of six hours earlier.
pub fn effective_day(ts_ms: i64) -> (r: Option<String>)
    ensures
        placeable_ms(ts_ms as int) && placeable_ms(ts_ms - 21_600_000) ==> r is Some,
        r matches Some(s) ==> exists|y: int, m: int, d: int, h: int|
            #![trigger ymd_text(y, m, d), wall_ms(y, m, d, h, 0, 0)]
            s@ == ymd_text(y, m, d) && ((h >= 6 && local_hour_of(ts_ms as int, y, m, d, h))
                || local_hour_of(ts_ms - 21_600_000, y, m, d, h)),
{
    match chrono_local_fields(ts_ms) {
        Some((y, m, d, h)) => {
            if h < 6 {
                match ts_ms.checked_sub(6 * 60 * 60 * 1000) {
                    Some(t) => {
                        format_local_date(t)
                    },
                    None => None,
                }
            } else {
                let s = format_ymd(y, m, d);
                Some(s)
            }
        },
        None => None,
    }
}

} // verus!

//! Lines of the unified log (`log show --style compact`) and the names of
//! powerlog archives.
use vstd::prelude::*;

use crate::calendar::{parse_i32, parse_i32_at, parse_u32, parse_u32_at};
use crate::text::{chars_of, push_char, str_eq};
use crate::types::{InputKind, ScreenEventKind};
use crate::wifi::{find_sub, local_instant_ms};

verus! {

/// The event kind of a line of the given event class.
pub open spec fn line_kind(class_name: Seq<char>, line: Seq<char>) -> Option<Seq<char>> {
    if class_name == "keyboard"@ {
        Some("kbd"@)
    } else if class_name == "screen_lock"@ {
        if find_sub(line, "screenIsLocked"@) is Some {
            Some("screen_lock"@)
        } else if find_sub(line, "screenIsUnlocked"@) is Some {
            Some("screen_unlock"@)
        } else {
            None
        }
    } else if class_name == "app_launch"@ {
        Some("app_launch"@)
    } else {
        None
    }
}

fn contains(line: &str, p: &str) -> (r: bool)
    ensures
        r == find_sub(line@, p@) is Some,
{
    crate::wifi::extract_field(line, p).is_some()
}

/// The event kind of a line of the given event class: key presses are
/// `kbd`, lock notifications `screen_lock` or `screen_unlock`, launches
/// `app_launch`.
pub fn kind_of(class_name: &str, line: &str) -> (r: Option<&'static str>)
    ensures
        match line_kind(class_name@, line@) {
            Some(k) => r matches Some(s) && s@ == k,
            None => r is None,
        },
{
    if str_eq(class_name, "keyboard") {
        Some("kbd")
    } else if str_eq(class_name, "screen_lock") {
        if contains(line, "screenIsLocked") {
            Some("screen_lock")
        } else if contains(line, "screenIsUnlocked") {
            Some("screen_unlock")
        } else {
            None
        }
    } else if str_eq(class_name, "app_launch") {
        Some("app_launch")
    } else {
        None
    }
}

/// The date and time at the start of a compact log line
/// (`YYYY-MM-DD HH:MM:SS...`).
pub open spec fn log_line_fields(line: Seq<char>) -> Option<(i32, u32, u32, u32, u32, u32)> {
    if line.len() < 19 {
        None
    } else {
        match (
            parse_i32(line.subrange(0, 4)),
            parse_u32(line.subrange(5, 7)),
            parse_u32(line.subrange(8, 10)),
            parse_u32(line.subrange(11, 13)),
            parse_u32(line.subrange(14, 16)),
            parse_u32(line.subrange(17, 19)),
        ) {
            (Some(y), Some(mo), Some(d), Some(h), Some(mi), Some(s)) => if line[4] == '-' && line[7]
                == '-' && line[10] == ' ' && line[13] == ':' && line[16] == ':' {
                Some((y as i32, mo as u32, d as u32, h as u32, mi as u32, s as u32))
            } else {
                None
            },
            _ => None,
        }
    }
}

/// Reads the date and time at the start of a compact log line.
pub fn log_line_time_fields(line: &str) -> (r: Option<(i32, u32, u32, u32, u32, u32)>)
    ensures
        r == log_line_fields(line@),
{
    let s = chars_of(line);
    if s.len() < 19 {
        return None;
    }
    let y = parse_i32_at(&s, 0, 4);
    let mo = parse_u32_at(&s, 5, 7);
    let d = parse_u32_at(&s, 8, 10);
    let h = parse_u32_at(&s, 11, 13);
    let mi = parse_u32_at(&s, 14, 16);
    let sec = parse_u32_at(&s, 17, 19);
    match (y, mo, d, h, mi, sec) {
        (Some(y), Some(mo), Some(d), Some(h), Some(mi), Some(sec)) => {
            if s[4] == '-' && s[7] == '-' && s[10] == ' ' && s[13] == ':' && s[16] == ':' {
                Some((y, mo, d, h, mi, sec))
            } else {
                None
            }
        },
        _ => None,
    }
}

/// Parses a compact log line of an event class into its local time, in
/// milliseconds since the Unix epoch, and its event kind.
pub fn parse_line(class_name: &str, line: &str) -> (r: Option<(i64, &'static str)>)
    ensures
        log_line_fields(line@) is None ==> r is None,
        line_kind(class_name@, line@) is None ==> r is None,
        r matches Some((t, k)) ==> line_kind(class_name@, line@) == Some(k@) && (log_line_fields(
            line@,
        ) matches Some((y, mo, d, h, mi, sec)) && crate::calendar::within_a_day(
            t as int,
            crate::calendar::wall_ms(y as int, mo as int, d as int, h as int, mi as int, sec as int),
        )),
{
    let (y, mo, d, h, mi, sec) = match log_line_time_fields(line) {
        Some(f) => f,
        None => return None,
    };
    let ts = match local_instant_ms(y, mo, d, h, mi, sec) {
        Some(t) => t,
        None => return None,
    };
    match kind_of(class_name, line) {
        Some(k) => Some((ts, k)),
        None => None,
    }
}

// ---------------------------------------------------------------------------
// Powerlog archives
// ---------------------------------------------------------------------------

/// The number of UTF-8 bytes of `c`.
pub open spec fn utf8_len_char(c: char) -> nat {
    if (c as u32) < 0x80 {
        1
    } else if (c as u32) < 0x800 {
        2
    } else if (c as u32) < 0x10000 {
        3
    } else {
        4
    }
}

/// The number of UTF-8 bytes of `s`, which `str::len` gives.
pub open spec fn utf8_len(s: Seq<char>) -> nat
    decreases s.len(),
{
    if s.len() == 0 {
        0
    } else {
        utf8_len(s.drop_last()) + utf8_len_char(s.last())
    }
}

/// `YYYY-MM-DD_XXXXXXXX` from `powerlog_YYYY-MM-DD_XXXXXXXX.PLSQL.gz`: the
/// name without that prefix and suffix, when at least 10 bytes remain.
pub open spec fn archive_key_of(filename: Seq<char>) -> Option<Seq<char>> {
    let suffix = ".PLSQL.gz"@;
    let prefix = "powerlog_"@;
    if filename.len() >= suffix.len() && filename.subrange(
        filename.len() - suffix.len(),
        filename.len() as int,
    ) == suffix {
        let stem = filename.subrange(0, filename.len() - suffix.len());
        if stem.len() >= prefix.len() && stem.subrange(0, prefix.len() as int) == prefix {
            let key = stem.subrange(prefix.len() as int, stem.len() as int);
            if utf8_len(key) >= 10 {
                Some(key)
            } else {
                None
            }
        } else {
            None
        }
    } else {
        None
    }
}

fn utf8_len_of(s: &Vec<char>, from: usize, to: usize) -> (r: u128)
    requires
        from <= to <= s@.len(),
    ensures
        r == utf8_len(s@.subrange(from as int, to as int)),
{
    let mut n: u128 = 0;
    let mut i: usize = from;
    proof {
        assert(s@.subrange(from as int, from as int) =~= Seq::<char>::empty());
    }
    while i < to
        invariant
            from <= i <= to <= s@.len(),
            n == utf8_len(s@.subrange(from as int, i as int)),
            n <= 4 * (i - from),
            to <= usize::MAX,
        decreases to - i,
    {
        proof {
            assert(s@.subrange(from as int, i + 1).drop_last() =~= s@.subrange(from as int, i as int));
        }
        let c: u32 = s[i] as u32;
        let k: u128 = if c < 0x80 {
            1
        } else if c < 0x800 {
            2
        } else if c < 0x10000 {
            3
        } else {
            4
        };
        n = n + k;
        i = i + 1;
    }
    n
}

fn matches_at(s: &Vec<char>, at: usize, p: &str) -> (r: bool)
    requires
        at <= s@.len(),
    ensures
        r == (at + p@.len() <= s@.len() && s@.subrange(at as int, at + p@.len()) == p@),
{
    let pc = chars_of(p);
    if pc.len() > s.len() - at {
        return false;
    }
    let mut k: usize = 0;
    while k < pc.len()
        invariant
            k <= pc@.len(),
            pc@ == p@,
            at + pc@.len() <= s@.len(),
            s@.len() <= usize::MAX,
            forall|j: int| 0 <= j < k ==> s@[at + j] == pc@[j],
        decreases pc@.len() - k,
    {
        if s[at + k] != pc[k] {
            proof {
                assert(s@.subrange(at as int, at + p@.len())[k as int] != p@[k as int]);
            }
            return false;
        }
        k = k + 1;
    }
    proof {
        assert(s@.subrange(at as int, at + p@.len()) =~= p@);
    }
    true
}

/// The key of a powerlog archive file name.
pub fn archive_key(filename: &str) -> (r: Option<String>)
    ensures
        match archive_key_of(filename@) {
            Some(k) => r matches Some(s) && s@ == k,
            None => r is None,
        },
{
    proof {
        reveal_strlit(".PLSQL.gz");
        reveal_strlit("powerlog_");
    }
    let s = chars_of(filename);
    let n: usize = s.len();
    if n < 9 || !matches_at(&s, n - 9, ".PLSQL.gz") {
        return None;
    }
    let stem_len: usize = n - 9;
    if stem_len < 9 || !matches_at(&s, 0, "powerlog_") {
        proof {
            if stem_len >= 9 {
                assert(s@.subrange(0, stem_len as int).subrange(0, 9) =~= s@.subrange(0, 9));
            }
        }
        return None;
    }
    proof {
        assert(s@.subrange(0, stem_len as int).subrange(0, 9) =~= s@.subrange(0, 9));
    }
    let len: u128 = utf8_len_of(&s, 9, stem_len);
    proof {
        assert(s@.subrange(0, stem_len as int).subrange(9, stem_len as int) =~= s@.subrange(
            9,
            stem_len as int,
        ));
    }
    if len < 10 {
        return None;
    }
    let mut key = String::new();
    let mut i: usize = 9;
    while i < stem_len
        invariant
            9 <= i <= stem_len <= s@.len(),
            key@ == s@.subrange(9, i as int),
        decreases stem_len - i,
    {
        push_char(&mut key, s[i]);
        proof {
            assert(s@.subrange(9, i + 1) =~= s@.subrange(9, i as int).push(s@[i as int]));
        }
        i = i + 1;
    }
    Some(key)
}

// ---------------------------------------------------------------------------
// Stored event kinds
// ---------------------------------------------------------------------------

/// The screen event a stored kind names.
pub open spec fn screen_kind(kind: Seq<char>) -> Option<ScreenEventKind> {
    if kind == "screen_lock"@ {
        Some(ScreenEventKind::Lock)
    } else if kind == "screen_unlock"@ {
        Some(ScreenEventKind::Unlock)
    } else {
        None
    }
}

/// The screen event a stored kind names, if any.
pub fn screen_kind_of(kind: &str) -> (r: Option<ScreenEventKind>)
    ensures
        r == screen_kind(kind@),
{
    if str_eq(kind, "screen_lock") {
        Some(ScreenEventKind::Lock)
    } else if str_eq(kind, "screen_unlock") {
        Some(ScreenEventKind::Unlock)
    } else {
        None
    }
}

/// The input event a stored kind names.
pub open spec fn input_kind(kind: Seq<char>) -> Option<InputKind> {
    if kind == "kbd"@ {
        Some(InputKind::Kbd)
    } else if kind == "app_launch"@ {
        Some(InputKind::AppLaunch)
    } else {
        None
    }
}

/// The input event a stored kind names, if any.
pub fn input_kind_of(kind: &str) -> (r: Option<InputKind>)
    ensures
        r == input_kind(kind@),
{
    if str_eq(kind, "kbd") {
        Some(InputKind::Kbd)
    } else if str_eq(kind, "app_launch") {
        Some(InputKind::AppLaunch)
    } else {
        None
    }
}

// ---------------------------------------------------------------------------
// What to read from the log
// ---------------------------------------------------------------------------

/// How far behind the current time the cache of a class may be.
pub open spec fn coverage_tolerance_ms() -> int {
    300_000
}

/// The time windows to read from the log for an event class, given the
/// span the cache covers (`(earliest, latest)`, if any).
pub open spec fn windows_to_fetch(coverage: Option<(i64, i64)>, needed_since_ms: i64, now_ms: i64) -> Seq<
    (i64, i64),
> {
    match coverage {
        None => seq![(needed_since_ms, now_ms)],
        Some((earliest, latest)) => (if latest < now_ms - coverage_tolerance_ms() {
            seq![(latest, now_ms)]
        } else {
            Seq::empty()
        }) + (if earliest > needed_since_ms {
            seq![(needed_since_ms, earliest)]
        } else {
            Seq::empty()
        }),
    }
}

/// The time windows to read from the log for an event class: everything
/// from `needed_since_ms` to `now_ms` when nothing is cached; otherwise the
/// time after the cached span when it ends more than five minutes before
/// `now_ms`, and the time before it when it starts after `needed_since_ms`.
pub fn fetch_windows(coverage: Option<(i64, i64)>, needed_since_ms: i64, now_ms: i64) -> (r: Vec<
    (i64, i64),
>)
    ensures
        r@ == windows_to_fetch(coverage, needed_since_ms, now_ms),
{
    let mut out: Vec<(i64, i64)> = Vec::new();
    match coverage {
        None => {
            out.push((needed_since_ms, now_ms));
            proof {
                assert(out@ =~= seq![(needed_since_ms, now_ms)]);
            }
        },
        Some((earliest, latest)) => {
            if (latest as i128) < (now_ms as i128) - 300_000 {
                out.push((latest, now_ms));
            }
            let ghost first = out@;
            if earliest > needed_since_ms {
                out.push((needed_since_ms, earliest));
            }
            proof {
                assert(out@ =~= windows_to_fetch(coverage, needed_since_ms, now_ms));
            }
        },
    }
    out
}

} // verus!

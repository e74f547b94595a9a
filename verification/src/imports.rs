//! What the readers of the macOS data sources import into their caches:
//! which powerlog archives, when a live source is read again, and which
//! focus records are new.
use vstd::prelude::*;

use crate::calendar::{
    chrono_parse_ymd, chrono_parsed_date, chrono_utc_midnight_ms, days_from_epoch,
};
use crate::text::{chars_of, push_char};
use crate::types::{FocusPeriod, PointFocusEvent};
use crate::unified::{archive_key, archive_key_of};

verus! {

// ---------------------------------------------------------------------------
// Powerlog archives
// ---------------------------------------------------------------------------

/// The first ten characters of `k` are ASCII.
pub open spec fn ascii_prefix10(k: Seq<char>) -> bool {
    k.len() >= 10 && forall|i: int| 0 <= i < 10 ==> (#[trigger] k[i] as u32) < 128
}

/// Midnight UTC of a date, in milliseconds since the Unix epoch.
pub open spec fn utc_midnight_ms(y: int, m: int, d: int) -> int {
    (days_from_epoch(y, m, d) - days_from_epoch(1970, 1, 1)) * 86_400_000
}

/// The key of the powerlog archive file `name` when it is to be imported:
/// the file is a `powerlog_<key>.PLSQL.gz` archive, its key starts with a
/// `YYYY-MM-DD` date, and midnight UTC of that date is not before
/// `cutoff_ms`.
pub open spec fn archive_wanted(name: Seq<char>, cutoff_ms: int) -> Option<Seq<char>> {
    match archive_key_of(name) {
        None => None,
        Some(k) => if !ascii_prefix10(k) {
            None
        } else {
            match chrono_parsed_date(k.subrange(0, 10)) {
                None => None,
                Some((y, m, d)) => if utc_midnight_ms(y, m, d) >= cutoff_ms {
                    Some(k)
                } else {
                    None
                },
            }
        },
    }
}

/// The key of the powerlog archive file `name` when it is to be imported
/// (archives dated before `cutoff_ms` are not).
pub fn archive_to_import(name: &str, cutoff_ms: i64) -> (r: Option<String>)
    ensures
        match archive_wanted(name@, cutoff_ms as int) {
            Some(k) => r matches Some(s) && s@ == k,
            None => r is None,
        },
{
    let key = match archive_key(name) {
        Some(k) => k,
        None => return None,
    };
    let cs = chars_of(key.as_str());
    if cs.len() < 10 {
        return None;
    }
    let mut date = String::new();
    let mut i: usize = 0;
    while i < 10
        invariant
            i <= 10 <= cs@.len(),
            cs@ == key@,
            archive_key_of(name@) == Some(key@),
            date@ =~= cs@.subrange(0, i as int),
            forall|j: int| 0 <= j < i ==> (#[trigger] cs@[j] as u32) < 128,
        decreases 10 - i,
    {
        if (cs[i] as u32) >= 128 {
            proof {
                assert((key@[i as int] as u32) >= 128);
                assert(!ascii_prefix10(key@));
            }
            return None;
        }
        push_char(&mut date, cs[i]);
        i = i + 1;
    }
    match chrono_parse_ymd(date.as_str()) {
        None => None,
        Some((y, m, d)) => {
            let ms = chrono_utc_midnight_ms(y, m, d);
            if ms >= cutoff_ms {
                Some(key)
            } else {
                None
            }
        },
    }
}

/// A live source is read again when it never was, or when `ttl_ms` have
/// passed since it was last read at `last_ms`.
pub fn refresh_due(last_ms: Option<i64>, now_ms: i64, ttl_ms: i64) -> (r: bool)
    ensures
        r == match last_ms {
            None => true,
            Some(t) => now_ms - t >= ttl_ms,
        },
{
    match last_ms {
        None => true,
        Some(t) => (now_ms as i128) - (t as i128) >= ttl_ms as i128,
    }
}

// ---------------------------------------------------------------------------
// Focus records
// ---------------------------------------------------------------------------

/// The events after `since_ms`, in order.
pub open spec fn events_after(es: Seq<PointFocusEvent>, since_ms: i64) -> Seq<PointFocusEvent> {
    es.filter(|e: PointFocusEvent| e.time_ms > since_ms)
}

/// The latest time among `since_ms` and the times of the events.
pub open spec fn latest_time(es: Seq<PointFocusEvent>, since_ms: i64) -> i64
    decreases es.len(),
{
    if es.len() == 0 {
        since_ms
    } else {
        let p = latest_time(es.drop_last(), since_ms);
        if es.last().time_ms > p {
            es.last().time_ms
        } else {
            p
        }
    }
}

/// The App.InFocus events to import, those after the import watermark
/// `since_ms`, and the new watermark: the time of the latest of them, if
/// there is one.
pub fn new_infocus_events(events: &[PointFocusEvent], since_ms: i64) -> (r: (
    Vec<PointFocusEvent>,
    Option<i64>,
))
    ensures
        r.0@ == events_after(events@, since_ms),
        r.1 == (if latest_time(events@, since_ms) > since_ms {
            Some(latest_time(events@, since_ms))
        } else {
            None
        }),
{
    let ghost pred = |e: PointFocusEvent| e.time_ms > since_ms;
    let mut out: Vec<PointFocusEvent> = Vec::new();
    let mut latest: i64 = since_ms;
    let mut i: usize = 0;
    proof {
        assert(events@.subrange(0, 0) =~= Seq::<PointFocusEvent>::empty());
        reveal_with_fuel(Seq::<PointFocusEvent>::filter, 1);
    }
    while i < events.len()
        invariant
            i <= events@.len(),
            pred == (|e: PointFocusEvent| e.time_ms > since_ms),
            out@ == events@.subrange(0, i as int).filter(pred),
            latest == latest_time(events@.subrange(0, i as int), since_ms),
        decreases events@.len() - i,
    {
        proof {
            reveal_with_fuel(Seq::<PointFocusEvent>::filter, 1);
            assert(events@.subrange(0, i + 1).drop_last() =~= events@.subrange(0, i as int));
        }
        let t = events[i].time_ms;
        if t > since_ms {
            out.push(PointFocusEvent { time_ms: t, bundle_id: events[i].bundle_id.clone() });
        }
        if t > latest {
            latest = t;
        }
        i = i + 1;
    }
    proof {
        assert(events@.subrange(0, events@.len() as int) =~= events@);
    }
    if latest > since_ms {
        (out, Some(latest))
    } else {
        (out, None)
    }
}

/// A usage row `(bundle, first, last)` is a focus period when it ends after
/// it starts.
pub open spec fn usage_period(row: (String, i64, i64)) -> bool {
    row.2 > row.1
}

/// The usage rows that are focus periods, in order.
pub open spec fn usage_rows(rows: Seq<(String, i64, i64)>) -> Seq<(String, i64, i64)> {
    rows.filter(|row: (String, i64, i64)| usage_period(row))
}

/// The focus periods to import from the `/app/usage` rows `(bundle, first,
/// last)` of the Knowledge store, and the new import watermark: the start
/// of the last row, if there are rows.
pub fn knowledge_periods(rows: &[(String, i64, i64)]) -> (r: (Vec<FocusPeriod>, Option<i64>))
    ensures
        r.0@.len() == usage_rows(rows@).len(),
        forall|k: int|
            0 <= k < r.0@.len() ==> {
                let row = #[trigger] usage_rows(rows@)[k];
                r.0@[k].first_ms == row.1 && r.0@[k].last_ms == row.2 && r.0@[k].bundle_id@
                    == row.0@
            },
        r.1 == (if rows@.len() == 0 {
            None
        } else {
            Some(rows@.last().1)
        }),
{
    let ghost pred = |row: (String, i64, i64)| usage_period(row);
    let mut out: Vec<FocusPeriod> = Vec::new();
    let mut i: usize = 0;
    proof {
        assert(rows@.subrange(0, 0) =~= Seq::<(String, i64, i64)>::empty());
        reveal_with_fuel(Seq::<(String, i64, i64)>::filter, 1);
    }
    while i < rows.len()
        invariant
            i <= rows@.len(),
            pred == (|row: (String, i64, i64)| usage_period(row)),
            out@.len() == rows@.subrange(0, i as int).filter(pred).len(),
            forall|k: int|
                0 <= k < out@.len() ==> {
                    let row = #[trigger] rows@.subrange(0, i as int).filter(pred)[k];
                    out@[k].first_ms == row.1 && out@[k].last_ms == row.2 && out@[k].bundle_id@
                        == row.0@
                },
        decreases rows@.len() - i,
    {
        proof {
            reveal_with_fuel(Seq::<(String, i64, i64)>::filter, 1);
            assert(rows@.subrange(0, i + 1).drop_last() =~= rows@.subrange(0, i as int));
        }
        if rows[i].2 > rows[i].1 {
            out.push(
                FocusPeriod {
                    first_ms: rows[i].1,
                    last_ms: rows[i].2,
                    bundle_id: rows[i].0.clone(),
                },
            );
        }
        i = i + 1;
    }
    proof {
        assert(rows@.subrange(0, rows@.len() as int) =~= rows@);
    }
    if rows.len() == 0 {
        (out, None)
    } else {
        (out, Some(rows[rows.len() - 1].1))
    }
}

/// The seconds the screen was on during the hour that starts at `time_ms`,
/// from the powerlog's hourly aggregates.
#[derive(Debug, Clone, Copy)]
pub struct AggScreenOn {
    pub time_ms: i64,
    pub screen_on_secs: i64,
}

} // verus!

//! The activity state machine: turns the merged event streams of a window
//! into a list of labeled intervals.
use vstd::prelude::*;

use crate::sort::{
    keys_of, lemma_filter_sorted, lemma_map_filter, lemma_sorted_keys, lemma_sorted_same_elements,
    lemma_time_key_total, stable_order, stable_order_of, time_key_order,
};
use vstd::relations::sorted_by;
use crate::types::{
    BlEvent, FrontmostEvent, InitialState, InputEvent, Interval, IntervalLabel, LocationGroups,
    ScreenEvent, ScreenEventKind, TimelineInputs, WifiEvent, MIN_PERIOD_MS, SOFT_CLOSE_MS,
    time_ok,
};

verus! {

/// One event of any of the five input streams, tagged with its stream.
#[derive(Debug)]
pub enum TimelineEvent {
    Backlight { time: i64, active: bool },
    Screen { time: i64, unlock: bool },
    Input { time: i64 },
    Focus { time: i64, bundle_id: String },
    Wifi { time: i64, subnet: String },
}

impl TimelineEvent {
    pub open spec fn spec_time(self) -> i64 {
        match self {
            TimelineEvent::Backlight { time, .. } => time,
            TimelineEvent::Screen { time, .. } => time,
            TimelineEvent::Input { time } => time,
            TimelineEvent::Focus { time, .. } => time,
            TimelineEvent::Wifi { time, .. } => time,
        }
    }

    pub fn time(&self) -> (t: i64)
        ensures
            t == self.spec_time(),
    {
        match self {
            TimelineEvent::Backlight { time, .. } => *time,
            TimelineEvent::Screen { time, .. } => *time,
            TimelineEvent::Input { time } => *time,
            TimelineEvent::Focus { time, .. } => *time,
            TimelineEvent::Wifi { time, .. } => *time,
        }
    }

    pub fn duplicate(&self) -> (r: TimelineEvent)
        ensures
            r == *self,
    {
        match self {
            TimelineEvent::Backlight { time, active } => TimelineEvent::Backlight {
                time: *time,
                active: *active,
            },
            TimelineEvent::Screen { time, unlock } => TimelineEvent::Screen {
                time: *time,
                unlock: *unlock,
            },
            TimelineEvent::Input { time } => TimelineEvent::Input { time: *time },
            TimelineEvent::Focus { time, bundle_id } => TimelineEvent::Focus {
                time: *time,
                bundle_id: bundle_id.clone(),
            },
            TimelineEvent::Wifi { time, subnet } => TimelineEvent::Wifi {
                time: *time,
                subnet: subnet.clone(),
            },
        }
    }
}

/// A segment of the working stack of the state machine.
#[derive(Debug, Clone, Copy, PartialEq, Eq, Structural)]
pub struct Seg {
    pub start: i64,
    pub end: i64,
    pub label: IntervalLabel,
}

// ---------------------------------------------------------------------------
// The merged, ordered, windowed event list
// ---------------------------------------------------------------------------

pub open spec fn bl_as_event(e: BlEvent) -> TimelineEvent {
    TimelineEvent::Backlight { time: e.time_ms, active: e.active }
}

pub open spec fn screen_as_event(e: ScreenEvent) -> TimelineEvent {
    TimelineEvent::Screen { time: e.time_ms, unlock: e.kind == ScreenEventKind::Unlock }
}

pub open spec fn input_as_event(e: InputEvent) -> TimelineEvent {
    TimelineEvent::Input { time: e.time_ms }
}

pub open spec fn focus_as_event(e: FrontmostEvent) -> TimelineEvent {
    TimelineEvent::Focus { time: e.time_ms, bundle_id: e.bundle_id }
}

pub open spec fn wifi_as_event(e: WifiEvent) -> TimelineEvent {
    TimelineEvent::Wifi { time: e.time_ms, subnet: e.subnet }
}

/// The five streams one after the other, in the order backlight, screen,
/// input, focus, wifi.
pub open spec fn all_events(inputs: TimelineInputs) -> Seq<TimelineEvent> {
    inputs.bl_events@.map_values(|e: BlEvent| bl_as_event(e)) + inputs.screen_events@.map_values(
        |e: ScreenEvent| screen_as_event(e),
    ) + inputs.input_events@.map_values(|e: InputEvent| input_as_event(e))
        + inputs.frontmost_events@.map_values(|e: FrontmostEvent| focus_as_event(e))
        + inputs.wifi_events@.map_values(|e: WifiEvent| wifi_as_event(e))
}

/// `all` stably ordered by time: events with equal times keep their order in
/// `all`, so the backlight stream comes first, then screen, input, focus, wifi.
pub open spec fn ordered_events(all: Seq<TimelineEvent>) -> Seq<TimelineEvent> {
    stable_order(all.map_values(|e: TimelineEvent| e.spec_time())).map_values(
        |i: usize| all[i as int],
    )
}

pub open spec fn window_pred(ws: i64, we: i64) -> spec_fn(TimelineEvent) -> bool {
    |e: TimelineEvent| ws <= e.spec_time() && e.spec_time() <= we
}

/// The events of all streams inside `[ws, we]`, in stable time order.
pub open spec fn window_events(inputs: TimelineInputs, ws: i64, we: i64) -> Seq<TimelineEvent> {
    ordered_events(all_events(inputs)).filter(window_pred(ws, we))
}

// ---------------------------------------------------------------------------
// Location groups
// ---------------------------------------------------------------------------

/// The canonical subnet of `key`: the value of the first entry for `key`, or
/// `key` itself when there is none.
pub open spec fn group_of(pairs: Seq<(String, String)>, key: Seq<char>) -> Seq<char>
    decreases pairs.len(),
{
    if pairs.len() == 0 {
        key
    } else if pairs[0].0@ == key {
        pairs[0].1@
    } else {
        group_of(pairs.drop_first(), key)
    }
}

/// Looks up the canonical subnet of `key`.
pub fn canonical_subnet(groups: &LocationGroups, key: &String) -> (r: String)
    ensures
        r@ == group_of(groups.pairs@, key@),
{
    let mut i: usize = 0;
    proof {
        assert(groups.pairs@.subrange(0, groups.pairs@.len() as int) =~= groups.pairs@);
    }
    while i < groups.pairs.len()
        invariant
            i <= groups.pairs@.len(),
            group_of(groups.pairs@.subrange(i as int, groups.pairs@.len() as int), key@)
                == group_of(groups.pairs@, key@),
        decreases groups.pairs@.len() - i,
    {
        let ghost rest = groups.pairs@.subrange(i as int, groups.pairs@.len() as int);
        proof {
            assert(rest.drop_first() =~= groups.pairs@.subrange(
                i + 1,
                groups.pairs@.len() as int,
            ));
        }
        if groups.pairs[i].0 == *key {
            return groups.pairs[i].1.clone();
        }
        i = i + 1;
    }
    proof {
        assert(groups.pairs@.subrange(i as int, groups.pairs@.len() as int).len() == 0);
    }
    key.clone()
}

// ---------------------------------------------------------------------------
// The state machine
// ---------------------------------------------------------------------------

/// The state of the machine between two events.
#[verifier::ext_equal]
pub struct MachineState {
    pub stack: Seq<Seg>,
    pub bl_on: bool,
    pub screen_locked: bool,
    pub canon: Option<Seq<char>>,
    pub prev_time: i64,
    pub last_input: Option<i64>,
}

pub open spec fn login_window_id() -> Seq<char> {
    "com.apple.loginwindow"@
}

pub open spec fn set_last_end(s: Seq<Seg>, t: i64) -> Seq<Seg> {
    if s.len() == 0 {
        s
    } else {
        s.update(s.len() - 1, Seg { start: s.last().start, end: t, label: s.last().label })
    }
}

/// Closes the top segment at `t` and opens a new one labeled `label`.
pub open spec fn transition(s: Seq<Seg>, t: i64, label: IntervalLabel) -> Seq<Seg> {
    set_last_end(s, t).push(Seg { start: t, end: t, label })
}

/// Pops non-active segments shorter than the minimum period off the top,
/// extending the segment below to `t` each time.
pub open spec fn absorb_short(s: Seq<Seg>, t: i64) -> Seq<Seg>
    decreases s.len(),
{
    if s.len() >= 2 && s.last().label != IntervalLabel::Active && t - s.last().start
        < MIN_PERIOD_MS {
        absorb_short(set_last_end(s.drop_last(), t), t)
    } else {
        s
    }
}

/// Makes the top segment an active one at `t`.
pub open spec fn start_active(s: Seq<Seg>, t: i64) -> Seq<Seg> {
    if s.len() > 0 && s.last().label == IntervalLabel::Active {
        s
    } else {
        let p = absorb_short(s, t);
        if p.len() == 0 {
            p.push(Seg { start: t, end: t, label: IntervalLabel::Active })
        } else if p.last().label == IntervalLabel::Active {
            p
        } else if t - p.last().start < MIN_PERIOD_MS {
            p.update(
                p.len() - 1,
                Seg { start: p.last().start, end: t, label: IntervalLabel::Active },
            )
        } else {
            set_last_end(p, t).push(Seg { start: t, end: t, label: IntervalLabel::Active })
        }
    }
}

/// Ends an active top segment at the last input when input has been idle for
/// the soft-close delay, and records the idle time as a break.
pub open spec fn soft_close(s: Seq<Seg>, last_input: Option<i64>, t: i64) -> Seq<Seg> {
    if s.len() > 0 && s.last().label == IntervalLabel::Active && last_input is Some && t
        - last_input.unwrap() >= SOFT_CLOSE_MS {
        let lit = last_input.unwrap();
        set_last_end(s, lit).push(Seg { start: lit, end: t, label: IntervalLabel::Break })
    } else {
        s
    }
}

/// Marks the time since the previous event as transit when the location changed at `t`.
pub open spec fn location_change(s: Seq<Seg>, prev: i64, t: i64) -> Seq<Seg> {
    if s.len() == 0 {
        s.push(Seg { start: t, end: t, label: IntervalLabel::Break })
    } else {
        let top = s.last();
        let s2 = if prev > top.start && prev < t {
            let s1 = set_last_end(s, prev);
            let s1b = if prev - top.start < MIN_PERIOD_MS && s1.len() >= 2 {
                set_last_end(s1.drop_last(), prev)
            } else {
                s1
            };
            s1b.push(Seg { start: prev, end: t, label: IntervalLabel::Transit })
        } else {
            let s1 = s.update(
                s.len() - 1,
                Seg { start: top.start, end: t, label: IntervalLabel::Transit },
            );
            if s1.len() >= 2 && top.start - s1[s1.len() - 2].start < MIN_PERIOD_MS {
                s1.drop_last().drop_last().push(
                    Seg { start: s1[s1.len() - 2].start, end: t, label: IntervalLabel::Transit },
                )
            } else {
                s1
            }
        };
        s2.push(Seg { start: t, end: t, label: IntervalLabel::Break })
    }
}

pub open spec fn canon_of(groups: Seq<(String, String)>, subnet: Seq<char>) -> Option<Seq<char>> {
    if subnet.len() == 0 {
        None
    } else {
        Some(group_of(groups, subnet))
    }
}

/// The machine's reaction to one event.
pub open spec fn step(st: MachineState, e: TimelineEvent, groups: Seq<(String, String)>) -> MachineState {
    match e {
        TimelineEvent::Backlight { time, active } => MachineState {
            stack: if !active {
                transition(st.stack, time, IntervalLabel::Break)
            } else {
                st.stack
            },
            bl_on: active,
            prev_time: time,
            ..st
        },
        TimelineEvent::Screen { time, unlock } => MachineState {
            stack: if !unlock {
                transition(st.stack, time, IntervalLabel::Break)
            } else {
                st.stack
            },
            screen_locked: !unlock,
            prev_time: time,
            ..st
        },
        TimelineEvent::Focus { time, bundle_id } => if bundle_id@ != login_window_id() {
            MachineState {
                stack: start_active(soft_close(st.stack, st.last_input, time), time),
                screen_locked: false,
                last_input: Some(time),
                prev_time: time,
                ..st
            }
        } else {
            MachineState { prev_time: time, ..st }
        },
        TimelineEvent::Input { time } => {
            let s1 = soft_close(st.stack, st.last_input, time);
            MachineState {
                stack: if st.bl_on && !st.screen_locked {
                    start_active(s1, time)
                } else {
                    s1
                },
                last_input: Some(time),
                prev_time: time,
                ..st
            }
        },
        TimelineEvent::Wifi { time, subnet } => {
            let new_canon = canon_of(groups, subnet@);
            MachineState {
                stack: if new_canon is Some && st.canon is Some && new_canon != st.canon {
                    location_change(st.stack, st.prev_time, time)
                } else {
                    st.stack
                },
                canon: new_canon,
                prev_time: time,
                ..st
            }
        },
    }
}

/// The state after running the machine over `events` from `st0`.
pub open spec fn run_events(
    events: Seq<TimelineEvent>,
    groups: Seq<(String, String)>,
    st0: MachineState,
) -> MachineState
    decreases events.len(),
{
    if events.len() == 0 {
        st0
    } else {
        step(run_events(events.drop_last(), groups, st0), events.last(), groups)
    }
}

pub open spec fn opt_view(o: Option<String>) -> Option<Seq<char>> {
    match o {
        Some(s) => Some(s@),
        None => None,
    }
}

pub open spec fn initial_machine(init: InitialState, ws: i64) -> MachineState {
    MachineState {
        stack: Seq::empty(),
        bl_on: init.bl_on,
        screen_locked: init.screen_locked,
        canon: opt_view(init.ip_canon),
        prev_time: ws,
        last_input: init.last_input_time,
    }
}

pub open spec fn max_i64(a: i64, b: i64) -> i64 {
    if a >= b {
        a
    } else {
        b
    }
}

/// Extends an active top segment to the last event seen.
pub open spec fn close_active(s: Seq<Seg>, prev: i64) -> Seq<Seg> {
    if s.len() > 0 && s.last().label == IntervalLabel::Active {
        s.update(
            s.len() - 1,
            Seg {
                start: s.last().start,
                end: max_i64(max_i64(s.last().end, prev), s.last().start),
                label: IntervalLabel::Active,
            },
        )
    } else {
        s
    }
}

pub open spec fn drop_trailing_breaks(s: Seq<Seg>) -> Seq<Seg>
    decreases s.len(),
{
    if s.len() > 0 && s.last().label == IntervalLabel::Break {
        drop_trailing_breaks(s.drop_last())
    } else {
        s
    }
}

/// Drops empty segments and merges each segment into the previous interval
/// when they have the same label and overlap or touch.
pub open spec fn merge_segments(s: Seq<Seg>) -> Seq<Interval>
    decreases s.len(),
{
    if s.len() == 0 {
        Seq::empty()
    } else {
        let m = merge_segments(s.drop_last());
        let g = s.last();
        if g.end <= g.start {
            m
        } else if m.len() > 0 && m.last().label == g.label && g.start <= m.last().last_ms {
            if g.end > m.last().last_ms {
                m.update(m.len() - 1, Interval { last_ms: g.end, ..m.last() })
            } else {
                m
            }
        } else {
            m.push(Interval { first_ms: g.start, last_ms: g.end, label: g.label, location: None })
        }
    }
}

pub open spec fn finish_machine(st: MachineState) -> Seq<Interval> {
    merge_segments(drop_trailing_breaks(close_active(st.stack, st.prev_time)))
}

/// The timeline of the ordered events `events` of a window starting at `ws`.
pub open spec fn spec_timeline_of_events(
    events: Seq<TimelineEvent>,
    groups: Seq<(String, String)>,
    ws: i64,
    init: InitialState,
) -> Seq<Interval> {
    finish_machine(run_events(events, groups, initial_machine(init, ws)))
}

/// The timeline `build_timeline` computes.
pub open spec fn spec_build_timeline(
    inputs: TimelineInputs,
    groups: Seq<(String, String)>,
    ws: i64,
    we: i64,
    init: InitialState,
) -> Seq<Interval> {
    spec_timeline_of_events(window_events(inputs, ws, we), groups, ws, init)
}


// ---------------------------------------------------------------------------
// Executable machine
// ---------------------------------------------------------------------------

/// Every segment boundary is a timestamp the library can take differences of.
pub open spec fn segs_ok(s: Seq<Seg>) -> bool {
    forall|i: int| 0 <= i < s.len() ==> time_ok(s[i].start as int) && time_ok(s[i].end as int)
}

fn exec_set_last_end(s: &mut Vec<Seg>, t: i64)
    requires
        segs_ok(old(s)@),
        time_ok(t as int),
    ensures
        final(s)@ == set_last_end(old(s)@, t),
        segs_ok(final(s)@),
{
    let n = s.len();
    if n > 0 {
        let top = s[n - 1];
        s.set(n - 1, Seg { start: top.start, end: t, label: top.label });
    }
}

fn exec_transition(s: &mut Vec<Seg>, t: i64, label: IntervalLabel)
    requires
        segs_ok(old(s)@),
        time_ok(t as int),
    ensures
        final(s)@ == transition(old(s)@, t, label),
        segs_ok(final(s)@),
{
    exec_set_last_end(s, t);
    s.push(Seg { start: t, end: t, label });
}

fn exec_absorb_short(s: &mut Vec<Seg>, t: i64)
    requires
        segs_ok(old(s)@),
        time_ok(t as int),
    ensures
        final(s)@ == absorb_short(old(s)@, t),
        segs_ok(final(s)@),
{
    loop
        invariant
            segs_ok(s@),
            time_ok(t as int),
            absorb_short(s@, t) == absorb_short(old(s)@, t),
        ensures
            segs_ok(s@),
            absorb_short(s@, t) == absorb_short(old(s)@, t),
            absorb_short(s@, t) == s@,
        decreases s@.len(),
    {
        let n = s.len();
        if n >= 2 && s[n - 1].label != IntervalLabel::Active && t - s[n - 1].start < MIN_PERIOD_MS {
            s.pop();
            exec_set_last_end(s, t);
        } else {
            break;
        }
    }
}

fn exec_start_active(s: &mut Vec<Seg>, t: i64)
    requires
        segs_ok(old(s)@),
        time_ok(t as int),
    ensures
        final(s)@ == start_active(old(s)@, t),
        segs_ok(final(s)@),
{
    let n = s.len();
    if n > 0 && s[n - 1].label == IntervalLabel::Active {
        return ;
    }
    exec_absorb_short(s, t);
    let m = s.len();
    if m == 0 {
        s.push(Seg { start: t, end: t, label: IntervalLabel::Active });
    } else if s[m - 1].label == IntervalLabel::Active {
    } else if t - s[m - 1].start < MIN_PERIOD_MS {
        let top = s[m - 1];
        s.set(m - 1, Seg { start: top.start, end: t, label: IntervalLabel::Active });
    } else {
        exec_set_last_end(s, t);
        s.push(Seg { start: t, end: t, label: IntervalLabel::Active });
    }
}

fn exec_soft_close(s: &mut Vec<Seg>, last_input: Option<i64>, t: i64)
    requires
        segs_ok(old(s)@),
        time_ok(t as int),
        last_input matches Some(l) ==> time_ok(l as int),
    ensures
        final(s)@ == soft_close(old(s)@, last_input, t),
        segs_ok(final(s)@),
{
    let n = s.len();
    if n > 0 && s[n - 1].label == IntervalLabel::Active {
        if let Some(lit) = last_input {
            if t - lit >= SOFT_CLOSE_MS {
                exec_set_last_end(s, lit);
                s.push(Seg { start: lit, end: t, label: IntervalLabel::Break });
            }
        }
    }
}

fn exec_location_change(s: &mut Vec<Seg>, prev: i64, t: i64)
    requires
        segs_ok(old(s)@),
        time_ok(t as int),
        time_ok(prev as int),
    ensures
        final(s)@ == location_change(old(s)@, prev, t),
        segs_ok(final(s)@),
{
    let ghost s0 = s@;
    let n = s.len();
    if n > 0 {
        let top = s[n - 1];
        if prev > top.start && prev < t {
            exec_set_last_end(s, prev);
            if prev - top.start < MIN_PERIOD_MS && s.len() >= 2 {
                s.pop();
                exec_set_last_end(s, prev);
            }
            s.push(Seg { start: prev, end: t, label: IntervalLabel::Transit });
        } else {
            s.set(n - 1, Seg { start: top.start, end: t, label: IntervalLabel::Transit });
            if n >= 2 && top.start - s[n - 2].start < MIN_PERIOD_MS {
                let below_start = s[n - 2].start;
                s.pop();
                s.pop();
                s.push(Seg { start: below_start, end: t, label: IntervalLabel::Transit });
            }
        }
    }
    s.push(Seg { start: t, end: t, label: IntervalLabel::Break });
    proof {
        assert(s@ =~= location_change(s0, prev, t));
    }
}

/// Runs the state machine over the ordered events of a window starting at
/// `window_start` and returns the labeled intervals.
pub fn timeline_of_events(
    events: &Vec<TimelineEvent>,
    location_groups: &LocationGroups,
    window_start: i64,
    initial_state: InitialState,
) -> (r: Vec<Interval>)
    requires
        time_ok(window_start as int),
        forall|i: int| 0 <= i < events@.len() ==> time_ok(#[trigger] events@[i].spec_time() as int),
        initial_state.last_input_time matches Some(l) ==> time_ok(l as int),
    ensures
        r@ == spec_timeline_of_events(events@, location_groups.pairs@, window_start, initial_state),
{
    let ghost st0 = initial_machine(initial_state, window_start);
    let ghost groups = location_groups.pairs@;
    let lw = String::from_str("com.apple.loginwindow");
    let mut stack: Vec<Seg> = Vec::new();
    let mut bl_on = initial_state.bl_on;
    let mut locked = initial_state.screen_locked;
    let mut canon: Option<String> = initial_state.ip_canon;
    let mut prev: i64 = window_start;
    let mut last_input: Option<i64> = initial_state.last_input_time;
    let mut k: usize = 0;
    proof {
        assert(events@.subrange(0, 0) =~= Seq::<TimelineEvent>::empty());
        assert(stack@ =~= Seq::<Seg>::empty());
    }
    while k < events.len()
        invariant
            k <= events@.len(),
            groups == location_groups.pairs@,
            lw@ == login_window_id(),
            forall|i: int| 0 <= i < events@.len() ==> time_ok(#[trigger] events@[i].spec_time() as int),
            segs_ok(stack@),
            time_ok(prev as int),
            last_input matches Some(l) ==> time_ok(l as int),
            run_events(events@.subrange(0, k as int), groups, st0) =~= (MachineState {
                stack: stack@,
                bl_on,
                screen_locked: locked,
                canon: opt_view(canon),
                prev_time: prev,
                last_input,
            }),
        decreases events@.len() - k,
    {
        let ghost before = run_events(events@.subrange(0, k as int), groups, st0);
        proof {
            assert(events@.subrange(0, k + 1).drop_last() =~= events@.subrange(0, k as int));
            assert(time_ok(events@[k as int].spec_time() as int));
            assert(run_events(events@.subrange(0, k + 1), groups, st0) == step(
                before,
                events@[k as int],
                groups,
            ));
        }
        let ghost ev = events@[k as int];
        match &events[k] {
            TimelineEvent::Backlight { time, active } => {
                bl_on = *active;
                if !*active {
                    exec_transition(&mut stack, *time, IntervalLabel::Break);
                }
                prev = *time;
            },
            TimelineEvent::Screen { time, unlock } => {
                if !*unlock {
                    locked = true;
                    exec_transition(&mut stack, *time, IntervalLabel::Break);
                } else {
                    locked = false;
                }
                prev = *time;
            },
            TimelineEvent::Focus { time, bundle_id } => {
                if *bundle_id != lw {
                    locked = false;
                    exec_soft_close(&mut stack, last_input, *time);
                    exec_start_active(&mut stack, *time);
                    last_input = Some(*time);
                }
                prev = *time;
            },
            TimelineEvent::Input { time } => {
                exec_soft_close(&mut stack, last_input, *time);
                if bl_on && !locked {
                    exec_start_active(&mut stack, *time);
                }
                last_input = Some(*time);
                prev = *time;
            },
            TimelineEvent::Wifi { time, subnet } => {
                let new_canon: Option<String> = if subnet.as_str().is_empty() {
                    None
                } else {
                    Some(canonical_subnet(location_groups, subnet))
                };
                let changed = match (&new_canon, &canon) {
                    (Some(a), Some(b)) => *a != *b,
                    _ => false,
                };
                if changed {
                    exec_location_change(&mut stack, prev, *time);
                }
                canon = new_canon;
                prev = *time;
            },
        }
        proof {
            assert(step(before, ev, groups) =~= (MachineState {
                stack: stack@,
                bl_on,
                screen_locked: locked,
                canon: opt_view(canon),
                prev_time: prev,
                last_input,
            }));
        }
        k = k + 1;
    }
    proof {
        assert(events@.subrange(0, events@.len() as int) =~= events@);
    }
    // Extend an active top segment to the last event seen.
    let n = stack.len();
    if n > 0 && stack[n - 1].label == IntervalLabel::Active {
        let top = stack[n - 1];
        let mut end: i64 = if top.end >= prev {
            top.end
        } else {
            prev
        };
        if end < top.start {
            end = top.start;
        }
        stack.set(n - 1, Seg { start: top.start, end, label: IntervalLabel::Active });
    }
    let ghost closed = stack@;
    // Drop trailing breaks.
    loop
        invariant
            drop_trailing_breaks(stack@) == drop_trailing_breaks(closed),
        ensures
            drop_trailing_breaks(stack@) == drop_trailing_breaks(closed),
            drop_trailing_breaks(stack@) == stack@,
        decreases stack@.len(),
    {
        let m = stack.len();
        if m > 0 && stack[m - 1].label == IntervalLabel::Break {
            stack.pop();
        } else {
            break;
        }
    }
    // Drop empty segments and merge touching segments with the same label.
    let mut merged: Vec<Interval> = Vec::new();
    let mut i: usize = 0;
    proof {
        assert(stack@.subrange(0, 0) =~= Seq::<Seg>::empty());
    }
    while i < stack.len()
        invariant
            i <= stack@.len(),
            merged@ == merge_segments(stack@.subrange(0, i as int)),
        decreases stack@.len() - i,
    {
        proof {
            assert(stack@.subrange(0, i + 1).drop_last() =~= stack@.subrange(0, i as int));
        }
        let g = stack[i];
        if g.end > g.start {
            let m = merged.len();
            if m > 0 && merged[m - 1].label == g.label && g.start <= merged[m - 1].last_ms {
                if g.end > merged[m - 1].last_ms {
                    let ghost before = merged@;
                    let mut last = merged.pop().unwrap();
                    last.last_ms = g.end;
                    merged.push(last);
                    proof {
                        assert(merged@ =~= before.update(
                            before.len() - 1,
                            Interval { last_ms: g.end, ..before.last() },
                        ));
                    }
                }
            } else {
                merged.push(
                    Interval { first_ms: g.start, last_ms: g.end, label: g.label, location: None },
                );
            }
        }
        i = i + 1;
    }
    proof {
        assert(stack@.subrange(0, stack@.len() as int) =~= stack@);
    }
    merged
}


/// Merges the five streams into one list, stably ordered by time (for equal
/// times: backlight, screen, input, focus, wifi, each in its own order), and
/// keeps the events inside `[window_start, window_end]`.
pub fn timeline_events(inputs: TimelineInputs, window_start: i64, window_end: i64) -> (r: Vec<
    TimelineEvent,
>)
    ensures
        r@ == window_events(inputs, window_start, window_end),
{
    let mut all: Vec<TimelineEvent> = Vec::new();
    let mut i: usize = 0;
    while i < inputs.bl_events.len()
        invariant
            i <= inputs.bl_events@.len(),
            all@ =~= inputs.bl_events@.subrange(0, i as int).map_values(|e: BlEvent| bl_as_event(e)),
        decreases inputs.bl_events@.len() - i,
    {
        let e = inputs.bl_events[i];
        all.push(TimelineEvent::Backlight { time: e.time_ms, active: e.active });
        i = i + 1;
    }
    let ghost a0 = all@;
    let mut i: usize = 0;
    while i < inputs.screen_events.len()
        invariant
            i <= inputs.screen_events@.len(),
            all@ =~= a0 + inputs.screen_events@.subrange(0, i as int).map_values(
                |e: ScreenEvent| screen_as_event(e),
            ),
        decreases inputs.screen_events@.len() - i,
    {
        let e = inputs.screen_events[i];
        all.push(
            TimelineEvent::Screen { time: e.time_ms, unlock: e.kind == ScreenEventKind::Unlock },
        );
        i = i + 1;
    }
    let ghost a1 = all@;
    let mut i: usize = 0;
    while i < inputs.input_events.len()
        invariant
            i <= inputs.input_events@.len(),
            all@ =~= a1 + inputs.input_events@.subrange(0, i as int).map_values(
                |e: InputEvent| input_as_event(e),
            ),
        decreases inputs.input_events@.len() - i,
    {
        let e = inputs.input_events[i];
        all.push(TimelineEvent::Input { time: e.time_ms });
        i = i + 1;
    }
    let ghost a2 = all@;
    let mut i: usize = 0;
    while i < inputs.frontmost_events.len()
        invariant
            i <= inputs.frontmost_events@.len(),
            all@ =~= a2 + inputs.frontmost_events@.subrange(0, i as int).map_values(
                |e: FrontmostEvent| focus_as_event(e),
            ),
        decreases inputs.frontmost_events@.len() - i,
    {
        let e = &inputs.frontmost_events[i];
        all.push(TimelineEvent::Focus { time: e.time_ms, bundle_id: e.bundle_id.clone() });
        i = i + 1;
    }
    let ghost a3 = all@;
    let mut i: usize = 0;
    while i < inputs.wifi_events.len()
        invariant
            i <= inputs.wifi_events@.len(),
            all@ =~= a3 + inputs.wifi_events@.subrange(0, i as int).map_values(
                |e: WifiEvent| wifi_as_event(e),
            ),
        decreases inputs.wifi_events@.len() - i,
    {
        let e = &inputs.wifi_events[i];
        all.push(TimelineEvent::Wifi { time: e.time_ms, subnet: e.subnet.clone() });
        i = i + 1;
    }
    proof {
        assert(inputs.bl_events@.subrange(0, inputs.bl_events@.len() as int)
            =~= inputs.bl_events@);
        assert(inputs.screen_events@.subrange(0, inputs.screen_events@.len() as int)
            =~= inputs.screen_events@);
        assert(inputs.input_events@.subrange(0, inputs.input_events@.len() as int)
            =~= inputs.input_events@);
        assert(inputs.frontmost_events@.subrange(0, inputs.frontmost_events@.len() as int)
            =~= inputs.frontmost_events@);
        assert(inputs.wifi_events@.subrange(0, inputs.wifi_events@.len() as int)
            =~= inputs.wifi_events@);
        assert(all@ =~= all_events(inputs));
    }
    let mut times: Vec<i64> = Vec::new();
    let mut i: usize = 0;
    while i < all.len()
        invariant
            i <= all@.len(),
            times@ =~= all@.subrange(0, i as int).map_values(|e: TimelineEvent| e.spec_time()),
        decreases all@.len() - i,
    {
        times.push(all[i].time());
        i = i + 1;
    }
    proof {
        assert(all@.subrange(0, all@.len() as int) =~= all@);
    }
    let order = stable_order_of(&times);
    let ghost ordered = order@.map_values(|j: usize| all@[j as int]);
    let mut out: Vec<TimelineEvent> = Vec::new();
    let mut k: usize = 0;
    proof {
        assert(ordered.subrange(0, 0) =~= Seq::<TimelineEvent>::empty());
        reveal_with_fuel(Seq::<TimelineEvent>::filter, 1);
    }
    while k < order.len()
        invariant
            k <= order@.len(),
            times@.len() == all@.len(),
            forall|j: int| 0 <= j < order@.len() ==> order@[j] < times@.len(),
            ordered == order@.map_values(|j: usize| all@[j as int]),
            out@ == ordered.subrange(0, k as int).filter(window_pred(window_start, window_end)),
        decreases order@.len() - k,
    {
        let e = &all[order[k]];
        let t = e.time();
        proof {
            reveal_with_fuel(Seq::<TimelineEvent>::filter, 1);
            assert(ordered.subrange(0, k + 1).drop_last() =~= ordered.subrange(0, k as int));
            assert(ordered.subrange(0, k + 1).last() == *e);
        }
        if window_start <= t && t <= window_end {
            out.push(e.duplicate());
        }
        k = k + 1;
    }
    proof {
        assert(ordered.subrange(0, order@.len() as int) =~= ordered);
    }
    out
}

/// Builds a labeled interval timeline from the five event streams for the
/// window `[window_start, window_end]`.
pub fn build_timeline(
    inputs: TimelineInputs,
    location_groups: &LocationGroups,
    window_start: i64,
    window_end: i64,
    initial_state: InitialState,
) -> (r: Vec<Interval>)
    requires
        time_ok(window_start as int),
        time_ok(window_end as int),
        initial_state.last_input_time matches Some(l) ==> time_ok(l as int),
    ensures
        r@ == spec_build_timeline(
            inputs,
            location_groups.pairs@,
            window_start,
            window_end,
            initial_state,
        ),
{
    let events = timeline_events(inputs, window_start, window_end);
    proof {
        assert forall|i: int| 0 <= i < events@.len() implies time_ok(
            #[trigger] events@[i].spec_time() as int,
        ) by {
            let all = ordered_events(all_events(inputs));
            all.lemma_filter_pred(window_pred(window_start, window_end), i);
        }
    }
    timeline_of_events(&events, location_groups, window_start, initial_state)
}


// ---------------------------------------------------------------------------
// Events outside the window
// ---------------------------------------------------------------------------

/// The positions of the events of `s` that pass `p`, in order.
pub open spec fn kept_positions(s: Seq<TimelineEvent>, p: spec_fn(TimelineEvent) -> bool) -> Seq<
    usize,
>
    decreases s.len(),
{
    if s.len() == 0 {
        Seq::empty()
    } else if p(s.last()) {
        kept_positions(s.drop_last(), p).push((s.len() - 1) as usize)
    } else {
        kept_positions(s.drop_last(), p)
    }
}

proof fn lemma_kept_positions(s: Seq<TimelineEvent>, p: spec_fn(TimelineEvent) -> bool)
    requires
        s.len() <= usize::MAX,
    ensures
        kept_positions(s, p).len() == s.filter(p).len(),
        forall|j: int|
            0 <= j < kept_positions(s, p).len() ==> (#[trigger] kept_positions(s, p)[j] as int)
                < s.len() && s.filter(p)[j] == s[kept_positions(s, p)[j] as int],
        forall|a: int, b: int|
            0 <= a < b < kept_positions(s, p).len() ==> #[trigger] kept_positions(s, p)[a]
                < #[trigger] kept_positions(s, p)[b],
        forall|i: int|
            0 <= i < s.len() && p(#[trigger] s[i]) ==> exists|j: int|
                0 <= j < kept_positions(s, p).len() && kept_positions(s, p)[j] as int == i,
    decreases s.len(),
{
    reveal(Seq::filter);
    if s.len() > 0 {
        let d = s.drop_last();
        lemma_kept_positions(d, p);
        let kd = kept_positions(d, p);
        let k = kept_positions(s, p);
        let n = s.len() - 1;
        assert forall|j: int| 0 <= j < kd.len() implies (#[trigger] kd[j] as int) < n && d.filter(p)[j]
            == s[kd[j] as int] by {
            assert(d[kd[j] as int] == s[kd[j] as int]);
        }
        if p(s.last()) {
            assert(s.filter(p) == d.filter(p).push(s.last()));
            assert(k == kd.push(n as usize));
            assert forall|j: int| 0 <= j < k.len() implies (#[trigger] k[j] as int) < s.len()
                && s.filter(p)[j] == s[k[j] as int] by {
                if j < kd.len() {
                    assert(k[j] == kd[j]);
                }
            }
            assert forall|a: int, b: int| 0 <= a < b < k.len() implies #[trigger] k[a] < #[trigger] k[b] by {
                assert(k[a] == kd[a]);
                if b < kd.len() {
                    assert(k[b] == kd[b]);
                }
            }
            assert forall|i: int| 0 <= i < s.len() && p(#[trigger] s[i]) implies exists|j: int|
                0 <= j < k.len() && k[j] as int == i by {
                if i < n {
                    assert(d[i] == s[i]);
                    let j = choose|j: int| 0 <= j < kd.len() && kd[j] as int == i;
                    assert(k[j] == kd[j]);
                } else {
                    assert(k[kd.len() as int] as int == i);
                }
            }
        } else {
            assert(s.filter(p) == d.filter(p));
            assert forall|i: int| 0 <= i < s.len() && p(#[trigger] s[i]) implies exists|j: int|
                0 <= j < k.len() && k[j] as int == i by {
                assert(i < n);
                assert(d[i] == s[i]);
            }
        }
    }
}

/// Ordering the events and then keeping those that pass `p` is keeping them
/// first and then ordering: stable ordering keeps the relative order of the
/// kept events.
pub proof fn lemma_ordered_filter(all: Seq<TimelineEvent>, p: spec_fn(TimelineEvent) -> bool)
    requires
        all.len() <= usize::MAX,
    ensures
        ordered_events(all).filter(p) == ordered_events(all.filter(p)),
{
    let f = all.filter(p);
    let kp = kept_positions(all, p);
    lemma_kept_positions(all, p);
    let tm = |e: TimelineEvent| e.spec_time();
    let t = all.map_values(tm);
    let tf = f.map_values(tm);
    let le = time_key_order();
    lemma_time_key_total();
    let srt = keys_of(t).sort_by(le);
    let srtf = keys_of(tf).sort_by(le);
    lemma_sorted_keys(t);
    lemma_sorted_keys(tf);
    let g = |k: (i64, usize)| all[k.1 as int];
    let qk = |k: (i64, usize)| p(all[k.1 as int]);
    let a = srt.filter(qk);
    let b = srtf.map_values(|k: (i64, usize)| (k.0, kp[k.1 as int]));
    lemma_filter_sorted(srt, le, qk);
    // The keys kept from the whole list.
    assert forall|x: (i64, usize)| a.contains(x) <==> ((x.1 as int) < all.len() && x.0
        == t[x.1 as int] && p(all[x.1 as int])) by {
        if a.contains(x) {
            srt.lemma_filter_contains_rev(qk, x);
            let m = choose|m: int| 0 <= m < a.len() && a[m] == x;
            srt.lemma_filter_pred(qk, m);
        }
        if (x.1 as int) < all.len() && x.0 == t[x.1 as int] && p(all[x.1 as int]) {
            assert(srt.contains(x));
            let m = choose|m: int| 0 <= m < srt.len() && srt[m] == x;
            srt.lemma_filter_contains(qk, m);
        }
    }
    // The keys of the kept list, carried back to positions in the whole list.
    assert forall|m: int| 0 <= m < srtf.len() implies (#[trigger] srtf[m].1 as int) < f.len()
        && srtf[m].0 == tf[srtf[m].1 as int] by {
        assert(srtf.contains(srtf[m]));
    }
    assert forall|x: (i64, usize)| b.contains(x) <==> ((x.1 as int) < all.len() && x.0
        == t[x.1 as int] && p(all[x.1 as int])) by {
        if b.contains(x) {
            let m = choose|m: int| 0 <= m < b.len() && b[m] == x;
            let j = srtf[m].1 as int;
            assert((kp[j] as int) < all.len());
            assert(f[j] == all[kp[j] as int]);
            all.lemma_filter_pred(p, j);
        }
        if (x.1 as int) < all.len() && x.0 == t[x.1 as int] && p(all[x.1 as int]) {
            let i = x.1 as int;
            assert(p(all[i]));
            let j = choose|j: int| 0 <= j < kp.len() && kp[j] as int == i;
            assert(f[j] == all[i]);
            let key = (tf[j], j as usize);
            assert(srtf.contains(key));
            let m = choose|m: int| 0 <= m < srtf.len() && srtf[m] == key;
            assert(b[m] == (key.0, kp[j]));
            assert(kp[j] == x.1);
        }
    }
    assert(sorted_by(b, le)) by {
        assert forall|i: int, j: int| 0 <= i < j < b.len() implies #[trigger] le(b[i], b[j]) by {
            assert(le(srtf[i], srtf[j]));
            assert(srtf[i] != srtf[j]);
            if srtf[i].0 == srtf[j].0 {
                let (ji, jj) = (srtf[i].1 as int, srtf[j].1 as int);
                assert(ji < jj);
                assert(kp[ji] < kp[jj]);
            }
        }
    }
    assert(b.no_duplicates()) by {
        assert forall|i: int, j: int| 0 <= i < b.len() && 0 <= j < b.len() && i != j implies b[i]
            != b[j] by {
            assert(srtf[i] != srtf[j]);
            let (ji, jj) = (srtf[i].1 as int, srtf[j].1 as int);
            if ji < jj {
                assert(kp[ji] < kp[jj]);
            } else if jj < ji {
                assert(kp[jj] < kp[ji]);
            }
        }
    }
    lemma_sorted_same_elements(a, b, le);
    // Back to events.
    assert(ordered_events(all) =~= srt.map_values(g));
    lemma_map_filter(srt, g, p);
    let pg = |k: (i64, usize)| p(g(k));
    assert(pg =~= qk);
    assert(srt.filter(pg) == a);
    assert(ordered_events(f) =~= b.map_values(g)) by {
        assert forall|m: int| 0 <= m < srtf.len() implies ordered_events(f)[m] == b.map_values(g)[m] by {
            let j = srtf[m].1 as int;
            assert(f[j] == all[kp[j] as int]);
        }
    }
}

/// Which events of each stream lie in the window is all that the timeline
/// depends on: inputs whose streams hold the same events inside
/// `[ws, we]`, in the same order, give the same timeline, whatever else they
/// hold outside it (for streams that together fit in memory).
pub proof fn law_events_outside_window_ignored(
    inputs: TimelineInputs,
    inputs2: TimelineInputs,
    groups: Seq<(String, String)>,
    ws: i64,
    we: i64,
    init: InitialState,
)
    requires
        all_events(inputs).len() <= usize::MAX,
        all_events(inputs2).len() <= usize::MAX,
        inputs2.bl_events@.map_values(|e: BlEvent| bl_as_event(e)).filter(window_pred(ws, we))
            == inputs.bl_events@.map_values(|e: BlEvent| bl_as_event(e)).filter(window_pred(ws, we)),
        inputs2.screen_events@.map_values(|e: ScreenEvent| screen_as_event(e)).filter(
            window_pred(ws, we),
        ) == inputs.screen_events@.map_values(|e: ScreenEvent| screen_as_event(e)).filter(
            window_pred(ws, we),
        ),
        inputs2.input_events@.map_values(|e: InputEvent| input_as_event(e)).filter(
            window_pred(ws, we),
        ) == inputs.input_events@.map_values(|e: InputEvent| input_as_event(e)).filter(
            window_pred(ws, we),
        ),
        inputs2.frontmost_events@.map_values(|e: FrontmostEvent| focus_as_event(e)).filter(
            window_pred(ws, we),
        ) == inputs.frontmost_events@.map_values(|e: FrontmostEvent| focus_as_event(e)).filter(
            window_pred(ws, we),
        ),
        inputs2.wifi_events@.map_values(|e: WifiEvent| wifi_as_event(e)).filter(window_pred(ws, we))
            == inputs.wifi_events@.map_values(|e: WifiEvent| wifi_as_event(e)).filter(
            window_pred(ws, we),
        ),
    ensures
        window_events(inputs2, ws, we) == window_events(inputs, ws, we),
        spec_build_timeline(inputs2, groups, ws, we, init) == spec_build_timeline(
            inputs,
            groups,
            ws,
            we,
            init,
        ),
{
    broadcast use Seq::filter_distributes_over_add;

    let p = window_pred(ws, we);
    lemma_ordered_filter(all_events(inputs), p);
    lemma_ordered_filter(all_events(inputs2), p);
    assert(all_events(inputs).filter(p) == all_events(inputs2).filter(p));
}

// ---------------------------------------------------------------------------
// Location changes
// ---------------------------------------------------------------------------

/// A wifi event whose canonical subnet is known and differs from the known
/// current one marks a location change: the machine's stack then ends with a
/// transit segment up to the event's time, starting at the previous event's
/// time when that lies inside the top segment, followed by an empty break at
/// the event. Any other wifi event leaves the stack as it was.
pub proof fn law_location_change_opens_transit(
    events: Seq<TimelineEvent>,
    groups: Seq<(String, String)>,
    st0: MachineState,
    time: i64,
    subnet: String,
)
    requires
        events.len() > 0,
        events.last() == (TimelineEvent::Wifi { time, subnet }),
    ensures
        ({
            let st = run_events(events.drop_last(), groups, st0);
            let s = run_events(events, groups, st0).stack;
            let new_canon = canon_of(groups, subnet@);
            if new_canon is Some && st.canon is Some && new_canon != st.canon && st.stack.len() > 0 {
                &&& s.len() >= 2
                &&& s[s.len() - 2].label == IntervalLabel::Transit
                &&& s[s.len() - 2].end == time
                &&& s.last() == Seg { start: time, end: time, label: IntervalLabel::Break }
                &&& st.prev_time > st.stack.last().start && st.prev_time < time ==> s[s.len()
                    - 2].start == st.prev_time
            } else if new_canon is Some && st.canon is Some && new_canon != st.canon {
                s == seq![Seg { start: time, end: time, label: IntervalLabel::Break }]
            } else {
                s == st.stack
            }
        }),
{
    let st = run_events(events.drop_last(), groups, st0);
    let new_canon = canon_of(groups, subnet@);
    if new_canon is Some && st.canon is Some && new_canon != st.canon && st.stack.len() > 0 {
        let s = location_change(st.stack, st.prev_time, time);
        let top = st.stack.last();
        if st.prev_time > top.start && st.prev_time < time {
            let s1 = set_last_end(st.stack, st.prev_time);
            let s1b = if st.prev_time - top.start < MIN_PERIOD_MS && s1.len() >= 2 {
                set_last_end(s1.drop_last(), st.prev_time)
            } else {
                s1
            };
            let s2 = s1b.push(Seg { start: st.prev_time, end: time, label: IntervalLabel::Transit });
            assert(s == s2.push(Seg { start: time, end: time, label: IntervalLabel::Break }));
            assert(s[s.len() - 2] == s2.last());
        } else {
            let s1 = st.stack.update(
                st.stack.len() - 1,
                Seg { start: top.start, end: time, label: IntervalLabel::Transit },
            );
            let s2 = if s1.len() >= 2 && top.start - s1[s1.len() - 2].start < MIN_PERIOD_MS {
                s1.drop_last().drop_last().push(
                    Seg { start: s1[s1.len() - 2].start, end: time, label: IntervalLabel::Transit },
                )
            } else {
                s1
            };
            assert(s == s2.push(Seg { start: time, end: time, label: IntervalLabel::Break }));
            assert(s[s.len() - 2] == s2.last());
        }
    } else if new_canon is Some && st.canon is Some && new_canon != st.canon {
        assert(st.stack.push(Seg { start: time, end: time, label: IntervalLabel::Break }) =~= seq![
            Seg { start: time, end: time, label: IntervalLabel::Break },
        ]);
    }
}

/// A timeline whose last event is such a location change, coming after the
/// start of the current segment, ends with a transit interval that reaches
/// at least the wifi event's time.
pub proof fn law_timeline_ends_in_transit_after_location_change(
    events: Seq<TimelineEvent>,
    groups: Seq<(String, String)>,
    ws: i64,
    init: InitialState,
    time: i64,
    subnet: String,
)
    requires
        events.len() > 0,
        events.last() == (TimelineEvent::Wifi { time, subnet }),
        ({
            let st = run_events(events.drop_last(), groups, initial_machine(init, ws));
            &&& canon_of(groups, subnet@) is Some
            &&& st.canon is Some
            &&& canon_of(groups, subnet@) != st.canon
            &&& st.stack.len() > 0
            &&& st.prev_time > st.stack.last().start
            &&& st.prev_time < time
        }),
    ensures
        spec_timeline_of_events(events, groups, ws, init).len() > 0,
        spec_timeline_of_events(events, groups, ws, init).last().label == IntervalLabel::Transit,
        spec_timeline_of_events(events, groups, ws, init).last().last_ms >= time,
{
    let st0 = initial_machine(init, ws);
    law_location_change_opens_transit(events, groups, st0, time, subnet);
    let fin = run_events(events, groups, st0);
    let s = fin.stack;
    assert(fin.prev_time == time);
    let c = close_active(s, fin.prev_time);
    assert(c == s);
    let d = drop_trailing_breaks(c);
    assert(d == drop_trailing_breaks(s.drop_last()));
    assert(s.drop_last().last() == s[s.len() - 2]);
    assert(d == s.drop_last());
    assert(d.last().start < d.last().end);
}
} // verus!

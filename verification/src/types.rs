use vstd::prelude::*;

verus! {

/// Gaps between active periods shorter than this are merged.
pub const MERGE_GAP_MS: i64 = 300_000;

/// Periods shorter than this are dropped as noise.
pub const MIN_PERIOD_MS: i64 = 600_000;

/// A soft-opened session closes after this long without keyboard activity.
pub const SOFT_CLOSE_MS: i64 = 1_800_000;

/// Largest magnitude of a timestamp the library accepts; differences of two
/// such timestamps always fit in an `i64`.
pub const TIME_LIMIT: i64 = 4_000_000_000_000_000_000;

/// `t` is a timestamp the library can take differences of.
pub open spec fn time_ok(t: int) -> bool {
    -TIME_LIMIT <= t <= TIME_LIMIT
}

/// Classification of a time interval in the activity timeline.
#[derive(Debug, Clone, Copy, PartialEq, Eq, Structural)]
pub enum IntervalLabel {
    /// The user was actively using the computer.
    Active,
    /// The screen was off or locked, or the session was soft-closed.
    Break,
    /// The user changed networks (implies a location change).
    Transit,
}

/// A contiguous time interval with an activity label and optional location.
#[derive(Debug, Clone, PartialEq, Eq)]
pub struct Interval {
    pub first_ms: i64,
    pub last_ms: i64,
    pub label: IntervalLabel,
    /// Cluster representative, assigned before render.
    pub location: Option<String>,
}

/// Raw event kinds used by the aggregate timeline path.
#[derive(Debug, Clone, Copy, PartialEq, Eq, Structural)]
pub enum RawEventKind {
    /// Screen turned on (inferred from hourly aggregate bucket).
    HardOpen,
    /// Screen turned off (inferred from hourly aggregate bucket).
    HardClose,
    /// Keyboard or mouse activity observed.
    Kbd,
}

/// A raw hardware or input event used by the aggregate timeline path.
#[derive(Debug, Clone, Copy, PartialEq, Eq, Structural)]
pub struct RawEvent {
    pub time_ms: i64,
    pub kind: RawEventKind,
}

/// A contiguous active session as produced by `build_periods`.
#[derive(Debug, Clone, Copy, PartialEq, Eq, Structural)]
pub struct ActivePeriod {
    pub first_ms: i64,
    pub last_ms: i64,
}

/// Backlight on/off event from the powerlog.
#[derive(Debug, Clone, Copy, PartialEq, Eq, Structural)]
pub struct BlEvent {
    pub time_ms: i64,
    /// `true` = screen turned on; `false` = screen turned off.
    pub active: bool,
}

/// Whether the screen lock changed state.
#[derive(Debug, Clone, Copy, PartialEq, Eq, Structural)]
pub enum ScreenEventKind {
    Lock,
    Unlock,
}

/// A screen-lock or screen-unlock event from the unified log.
#[derive(Debug, Clone, Copy, PartialEq, Eq, Structural)]
pub struct ScreenEvent {
    pub time_ms: i64,
    pub kind: ScreenEventKind,
}

/// The kind of user input observed.
#[derive(Debug, Clone, Copy, PartialEq, Eq, Structural)]
pub enum InputKind {
    /// Physical keyboard or mouse activity.
    Kbd,
    /// An app came to the foreground (treated as implicit input).
    AppLaunch,
}

/// A keyboard, mouse, or app-launch event from the unified log.
#[derive(Debug, Clone, Copy, PartialEq, Eq, Structural)]
pub struct InputEvent {
    pub time_ms: i64,
    pub kind: InputKind,
}

/// A frontmost-app change event, used to track active application focus.
#[derive(Debug, Clone, PartialEq, Eq)]
pub struct FrontmostEvent {
    pub time_ms: i64,
    pub bundle_id: String,
}

/// A wifi IP-acquisition event, used to detect location changes.
#[derive(Debug, Clone, PartialEq, Eq)]
pub struct WifiEvent {
    pub time_ms: i64,
    pub ip: String,
    pub subnet: String,
}

/// The known device state at the start of a timeline window.
#[derive(Debug, Clone, PartialEq, Eq)]
pub struct InitialState {
    /// Whether the backlight was on at the window start.
    pub bl_on: bool,
    /// Whether the screen was locked at the window start.
    pub screen_locked: bool,
    /// The canonical location (subnet cluster) active at the window start.
    pub ip_canon: Option<String>,
    /// The timestamp of the last input event before the window start.
    pub last_input_time: Option<i64>,
}

/// One hourly powerlog bucket recording how many seconds the screen was on.
#[derive(Debug, Clone, Copy, PartialEq, Eq, Structural)]
pub struct AggScreenOnBucket {
    pub time_ms: i64,
    pub screen_on_secs: i64,
}

/// A contiguous period during which one application held focus.
#[derive(Debug, Clone, PartialEq, Eq)]
pub struct FocusPeriod {
    pub first_ms: i64,
    pub last_ms: i64,
    pub bundle_id: String,
}

/// A point-in-time focus event: the app that became frontmost at `time_ms`.
#[derive(Debug, Clone, PartialEq, Eq)]
pub struct PointFocusEvent {
    pub time_ms: i64,
    pub bundle_id: String,
}

/// A resolved location block: a time interval with its cluster-representative location ID.
#[derive(Debug, Clone, PartialEq, Eq)]
pub struct RtoBlock {
    pub first_ms: i64,
    pub last_ms: i64,
    pub location: String,
}

/// All location data needed to annotate intervals and render the RTO column.
#[derive(Debug, Clone)]
pub struct RtoData {
    pub blocks: Vec<RtoBlock>,
    pub all_periods: Vec<RtoBlock>,
    pub dominant_id: Option<String>,
    pub other_ids: Vec<String>,
}

/// Maps each known subnet to the canonical subnet of its location group.
/// A subnet that has no entry is its own canonical subnet.
#[derive(Debug, Clone)]
pub struct LocationGroups {
    pub pairs: Vec<(String, String)>,
}

/// All event-stream inputs required by `build_timeline`.
#[derive(Clone, Copy)]
pub struct TimelineInputs<'a> {
    pub bl_events: &'a [BlEvent],
    pub screen_events: &'a [ScreenEvent],
    pub input_events: &'a [InputEvent],
    pub frontmost_events: &'a [FrontmostEvent],
    pub wifi_events: &'a [WifiEvent],
}

/// Anything that carries a millisecond timestamp.
pub trait HasTime {
    spec fn spec_time(&self) -> int;

    fn time_ms(&self) -> (t: i64)
        ensures
            t == self.spec_time(),
    ;
}

impl HasTime for RawEvent {
    open spec fn spec_time(&self) -> int {
        self.time_ms as int
    }

    fn time_ms(&self) -> (t: i64) {
        self.time_ms
    }
}

impl HasTime for PointFocusEvent {
    open spec fn spec_time(&self) -> int {
        self.time_ms as int
    }

    fn time_ms(&self) -> (t: i64) {
        self.time_ms
    }
}

impl HasTime for BlEvent {
    open spec fn spec_time(&self) -> int {
        self.time_ms as int
    }

    fn time_ms(&self) -> (t: i64) {
        self.time_ms
    }
}

impl HasTime for ScreenEvent {
    open spec fn spec_time(&self) -> int {
        self.time_ms as int
    }

    fn time_ms(&self) -> (t: i64) {
        self.time_ms
    }
}

impl HasTime for InputEvent {
    open spec fn spec_time(&self) -> int {
        self.time_ms as int
    }

    fn time_ms(&self) -> (t: i64) {
        self.time_ms
    }
}

impl HasTime for FrontmostEvent {
    open spec fn spec_time(&self) -> int {
        self.time_ms as int
    }

    fn time_ms(&self) -> (t: i64) {
        self.time_ms
    }
}

impl HasTime for WifiEvent {
    open spec fn spec_time(&self) -> int {
        self.time_ms as int
    }

    fn time_ms(&self) -> (t: i64) {
        self.time_ms
    }
}

} // verus!

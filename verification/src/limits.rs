//! Rate-limit settings: global and per-torrent limits, and the alternative
//! speed mode ("turtle mode") with its weekly schedule.
//!
//! A rate in bytes per second is `None` (unlimited) or a positive value.
use vstd::prelude::*;

verus! {

/// A rate setting: unlimited, or a positive number of bytes per second.
pub open spec fn rate_valid(r: Option<u32>) -> bool {
    match r {
        Some(v) => v > 0,
        None => true,
    }
}

/// A stored rate, 0 standing for unlimited, as a setting.
pub open spec fn rate_of(v: u32) -> Option<u32> {
    if v == 0 {
        None
    } else {
        Some(v)
    }
}

/// A setting as a stored rate: unlimited is 0.
pub open spec fn stored_rate(r: Option<u32>) -> u32 {
    match r {
        Some(v) => v,
        None => 0,
    }
}

/// The session-wide limits.
#[derive(Default, Clone, Copy, Debug, PartialEq, Eq)]
pub struct LimitsConfig {
    pub upload_bps: Option<u32>,
    pub download_bps: Option<u32>,
    pub peer_limit: Option<usize>,
    pub concurrent_init_limit: Option<usize>,
}

/// Per-torrent rate limit configuration.
/// Values of 0 or None mean "no per-torrent limit" (fall back to global).
#[derive(Default, Clone, Copy, Debug, PartialEq, Eq)]
pub struct TorrentLimitsConfig {
    /// Download rate limit in bytes per second. 0 or null = unlimited (use global).
    pub download_rate: Option<u32>,
    /// Upload rate limit in bytes per second. 0 or null = unlimited (use global).
    pub upload_rate: Option<u32>,
}

/// A configured rate as a rate setting: 0 means unlimited.
pub open spec fn nonzero_rate(r: Option<u32>) -> Option<u32> {
    match r {
        Some(v) => rate_of(v),
        None => None,
    }
}

impl TorrentLimitsConfig {
    pub fn download_bps(&self) -> (r: Option<u32>)
        ensures
            r == nonzero_rate(self.download_rate),
            rate_valid(r),
    {
        match self.download_rate {
            Some(v) => if v == 0 { None } else { Some(v) },
            None => None,
        }
    }

    pub fn upload_bps(&self) -> (r: Option<u32>)
        ensures
            r == nonzero_rate(self.upload_rate),
            rate_valid(r),
    {
        match self.upload_rate {
            Some(v) => if v == 0 { None } else { Some(v) },
            None => None,
        }
    }
}

/// Alternative speed limits configuration ("turtle mode").
#[derive(Default, Clone, Copy, Debug, PartialEq, Eq)]
pub struct AltSpeedConfig {
    /// Alternative download speed limit in bytes per second.
    pub alt_speed_down: Option<u32>,
    /// Alternative upload speed limit in bytes per second.
    pub alt_speed_up: Option<u32>,
}

pub open spec fn alt_config_valid(c: AltSpeedConfig) -> bool {
    rate_valid(c.alt_speed_down) && rate_valid(c.alt_speed_up)
}

/// Alternative speed schedule configuration.
#[derive(Clone, Copy, Debug, PartialEq, Eq)]
pub struct AltSpeedSchedule {
    /// Whether the schedule is enabled.
    pub enabled: bool,
    /// Start time in minutes from midnight (e.g. 480 = 8:00 AM).
    pub start_minutes: u32,
    /// End time in minutes from midnight (e.g. 1020 = 5:00 PM).
    pub end_minutes: u32,
    /// Bitmask for days of week: 1=Mon, 2=Tue, 4=Wed, 8=Thu, 16=Fri, 32=Sat, 64=Sun, 127=all.
    pub days: u8,
}

impl Default for AltSpeedSchedule {
    fn default() -> (s: Self)
        ensures
            s == (AltSpeedSchedule { enabled: false, start_minutes: 480, end_minutes: 1020, days: 127 }),
    {
        AltSpeedSchedule {
            enabled: false,
            start_minutes: 480,  // 8:00 AM
            end_minutes: 1020,  // 5:00 PM
            days: 127,  // all days
        }
    }
}

/// Local times at which the day of the week is computed without a negative
/// remainder (which would make the day's bit an overflowing shift): days from
/// the Monday before the epoch on, and earlier days that are Mondays.
pub open spec fn local_time_in_range(local_secs: int) -> bool {
    local_secs / 86400 + 3 >= 0 || (local_secs / 86400 + 3) % 7 == 0
}

/// Minutes since local midnight.
pub open spec fn minutes_of_day(local_secs: int) -> int {
    (local_secs % 86400) / 60
}

/// Day of the week, 0 = Monday (1970-01-01 was a Thursday).
pub open spec fn day_of_week(local_secs: int) -> int {
    (local_secs / 86400 + 3) % 7
}

/// Whether the schedule puts alternative speeds in force at this local time.
pub open spec fn schedule_active_at(s: AltSpeedSchedule, local_secs: int) -> bool {
    let m = minutes_of_day(local_secs);
    &&& s.enabled
    &&& s.days & (1u8 << (day_of_week(local_secs) as u8)) != 0
    &&& if s.start_minutes <= s.end_minutes {
        s.start_minutes <= m && m < s.end_minutes
    } else {
        m >= s.start_minutes || m < s.end_minutes
    }
}

/// The schedule's window, by the second of the local day: a disabled schedule
/// is never in force; a window with its start at or before its end is in force
/// from the start minute up to, not including, the end minute, and never
/// before the start or from the end on; a window that wraps past midnight is
/// in force from the start minute to midnight and from midnight up to the end
/// minute, and never in between. On a schedule for every day of the week
/// (`days` 127) the day does not matter; on one for no day it is never in force.
pub proof fn lemma_schedule_window(s: AltSpeedSchedule, local_secs: int)
    ensures
        ({
            let sec = local_secs % 86400;
            let start = s.start_minutes * 60;
            let end = s.end_minutes * 60;
            let active = schedule_active_at(s, local_secs);
            &&& !s.enabled ==> !active
            &&& s.days == 0 ==> !active
            &&& (s.start_minutes <= s.end_minutes && sec < start) ==> !active
            &&& (s.start_minutes <= s.end_minutes && sec >= end) ==> !active
            &&& (s.start_minutes > s.end_minutes && end <= sec && sec < start) ==> !active
            &&& (s.enabled && s.days == 127 && s.start_minutes <= s.end_minutes && start <= sec && sec < end) ==> active
            &&& (s.enabled && s.days == 127 && s.start_minutes > s.end_minutes && (sec >= start || sec < end)) ==> active
        }),
{
    let sec = local_secs % 86400;
    let m = minutes_of_day(local_secs);
    let d = day_of_week(local_secs);
    assert(0 <= sec < 86400);
    assert(0 <= d < 7);
    let b: u8 = d as u8;
    assert(b < 7);
    assert(127u8 & (1u8 << b) != 0) by (bit_vector)
        requires
            b < 7;
    assert(0u8 & (1u8 << b) == 0) by (bit_vector);
    assert(m * 60 <= sec < m * 60 + 60) by {
        vstd::arithmetic::div_mod::lemma_fundamental_div_mod(sec, 60);
    }
    assert(m < s.start_minutes <==> sec < s.start_minutes * 60) by (nonlinear_arith)
        requires
            m * 60 <= sec < m * 60 + 60;
    assert(m < s.end_minutes <==> sec < s.end_minutes * 60) by (nonlinear_arith)
        requires
            m * 60 <= sec < m * 60 + 60;
}

/// The schedule's days: the epoch's day, 1970-01-01, was a Thursday. On an
/// enabled schedule whose window is the whole day, a schedule for Thursdays
/// only (`days` 8) is in force exactly on the days since the epoch that are a
/// multiple of seven, and one for Mondays only (`days` 1) exactly four days
/// after those.
pub proof fn lemma_schedule_days(s: AltSpeedSchedule, local_secs: int)
    requires
        s.enabled,
        s.start_minutes == 0,
        s.end_minutes == 1440,
    ensures
        s.days == 8 ==> (schedule_active_at(s, local_secs) <==> (local_secs / 86400) % 7 == 0),
        s.days == 1 ==> (schedule_active_at(s, local_secs) <==> (local_secs / 86400) % 7 == 4),
{
    let d = day_of_week(local_secs);
    assert(0 <= d < 7);
    let b: u8 = d as u8;
    assert(8u8 & (1u8 << b) != 0 <==> b == 3) by (bit_vector)
        requires
            b < 7;
    assert(1u8 & (1u8 << b) != 0 <==> b == 0) by (bit_vector)
        requires
            b < 7;
    assert(0 <= minutes_of_day(local_secs) < 1440);
    let x = local_secs / 86400;
    assert((x + 3) % 7 == 3 <==> x % 7 == 0);
    assert((x + 3) % 7 == 0 <==> x % 7 == 4);
}

impl AltSpeedSchedule {
    /// Whether the schedule is in force at `local_secs`, the local time in
    /// seconds since the epoch.
    pub fn is_active_at(&self, local_secs: i64) -> (r: bool)
        requires
            local_time_in_range(local_secs as int),
        ensures
            r == schedule_active_at(*self, local_secs as int),
    {
        if !self.enabled {
            return false;
        }
        // The day since the epoch (rounded down) and the second within it.
        let (day, day_secs): (i64, u32) = if local_secs >= 0 {
            let t = local_secs as u64;
            proof {
                vstd::arithmetic::div_mod::lemma_fundamental_div_mod(t as int, 86400);
                vstd::arithmetic::div_mod::lemma_fundamental_div_mod_converse(
                    local_secs as int, 86400, (t / 86400) as int, (t % 86400) as int);
            }
            ((t / 86400) as i64, (t % 86400) as u32)
        } else {
            let a = (0i128 - local_secs as i128) as u64;
            let qa = a / 86400;
            let ra = a % 86400;
            proof {
                vstd::arithmetic::div_mod::lemma_fundamental_div_mod(a as int, 86400);
            }
            if ra == 0 {
                proof {
                    vstd::arithmetic::div_mod::lemma_fundamental_div_mod_converse(
                        local_secs as int, 86400, -(qa as int), 0);
                }
                (0i64 - qa as i64, 0u32)
            } else {
                proof {
                    vstd::arithmetic::div_mod::lemma_fundamental_div_mod_converse(
                        local_secs as int, 86400, -(qa as int) - 1, 86400 - ra as int);
                }
                (0i64 - qa as i64 - 1, (86400 - ra) as u32)
            }
        };
        assert(day as int == local_secs as int / 86400);
        assert(day_secs as int == local_secs as int % 86400);
        let minutes_from_midnight = day_secs / 60;
        // Day of week: 0=Thu (epoch was Thursday), so adjust to 0=Mon
        let day_of_week: u8 = if day + 3 >= 0 { ((day + 3) % 7) as u8 } else { 0 };
        let day_bit = 1u8 << day_of_week;
        if self.days & day_bit == 0 {
            return false;
        }
        if self.start_minutes <= self.end_minutes {
            minutes_from_midnight >= self.start_minutes && minutes_from_midnight < self.end_minutes
        } else {
            minutes_from_midnight >= self.start_minutes || minutes_from_midnight < self.end_minutes
        }
    }
}

} // verus!

verus! {

// ----- the clock -----

/// Seconds since the Unix epoch by the system clock (`SystemTime::now`),
/// 0 when the clock reads before the epoch. Nothing is promised of the value:
/// it is the time.
#[verifier::external_body]
fn unix_time_secs() -> u64 {
    std::time::SystemTime::now().duration_since(std::time::UNIX_EPOCH).unwrap_or_default().as_secs()
}

/// The local UTC offset in seconds, by `chrono::Local`. chrono builds every
/// `FixedOffset` through `east_opt`/`west_opt`, which admit only offsets
/// strictly within one day; nothing more is promised of the value.
#[verifier::external_body]
fn local_utc_offset_secs() -> (r: i64)
    ensures
        -86400 < r < 86400,
{
    chrono::Local::now().offset().local_minus_utc() as i64
}

impl AltSpeedSchedule {
    /// Whether the schedule is in force at the local time of a clock reading
    /// of `secs` seconds since the epoch with a local offset of `offset`
    /// seconds from UTC. The schedule repeats every week, so the reading is
    /// taken modulo a week first, which keeps any reading in range.
    pub fn is_active_at_clock(&self, secs: u64, offset: i64) -> (r: bool)
        requires
            -86400 < offset < 86400,
        ensures
            r == schedule_active_at(*self, secs as int + offset as int),
    {
        let week: u64 = 7 * 86400;
        let reduced = secs % week;
        let local_secs = reduced as i64 + offset;
        proof {
            let q = (secs / week) as int;
            let t = secs as int + offset as int;
            let u = local_secs as int;
            assert(secs as int == q * 604800 + reduced as int) by (nonlinear_arith)
                requires
                    week == 604800,
                    reduced == secs % week,
                    q == secs / week,
            ;
            assert(t == u + q * 604800);
            lemma_week_periodic(u, q);
            if local_secs >= 0 {
                assert(local_secs as int / 86400 >= 0);
            } else {
                assert(local_secs as int / 86400 == -1) by (nonlinear_arith)
                    requires -86400 < local_secs < 0;
            }
        }
        self.is_active_at(local_secs)
    }

    /// Check if the current local time falls within the schedule: the
    /// decision is that of `is_active_at_clock` for the clock reading and
    /// local offset of the moment, which are not stated.
    pub fn is_active_now(&self) -> (r: bool)
        ensures
            exists|secs: u64, offset: i64| -86400 < offset < 86400 && r == #[trigger] clock_decision(*self, secs, offset),
            !self.enabled ==> !r,
    {
        let secs = unix_time_secs();
        let offset = local_utc_offset_secs();
        let r = self.is_active_at_clock(secs, offset);
        assert(-86400 < offset < 86400 && r == clock_decision(*self, secs, offset));
        r
    }
}

/// The schedule's decision for a clock reading and a local offset.
pub open spec fn clock_decision(s: AltSpeedSchedule, secs: u64, offset: i64) -> bool {
    schedule_active_at(s, secs as int + offset as int)
}

/// The schedule repeats every week.
proof fn lemma_week_periodic(u: int, q: int)
    requires
        q >= 0,
    ensures
        minutes_of_day(u + q * 604800) == minutes_of_day(u),
        day_of_week(u + q * 604800) == day_of_week(u),
{
    let t = u + q * 604800;
    assert(t % 86400 == u % 86400 && t / 86400 == u / 86400 + q * 7) by {
        vstd::arithmetic::div_mod::lemma_fundamental_div_mod(u, 86400);
        vstd::arithmetic::div_mod::lemma_fundamental_div_mod_converse(t, 86400, u / 86400 + q * 7, u % 86400);
    }
    assert((u / 86400 + q * 7 + 3) % 7 == (u / 86400 + 3) % 7) by {
        vstd::arithmetic::div_mod::lemma_fundamental_div_mod(u / 86400 + 3, 7);
        vstd::arithmetic::div_mod::lemma_fundamental_div_mod_converse(u / 86400 + q * 7 + 3, 7, (u / 86400 + 3) / 7 + q, (u / 86400 + 3) % 7);
    }
}

// ----- current limits -----

/// The rates in force: each unlimited or positive.
pub struct LimitsView {
    pub upload: Option<u32>,
    pub download: Option<u32>,
}

/// The rate limits in force (the values the rate limiters are built from).
pub struct Limits {
    down: u32,
    up: u32,
}

impl View for Limits {
    type V = LimitsView;

    closed spec fn view(&self) -> LimitsView {
        LimitsView { upload: rate_of(self.up), download: rate_of(self.down) }
    }
}

pub proof fn lemma_rate_roundtrip(r: Option<u32>)
    requires
        rate_valid(r),
    ensures
        rate_of(stored_rate(r)) == r,
{
}

impl Limits {
    pub fn new(config: LimitsConfig) -> (l: Limits)
        requires
            rate_valid(config.upload_bps),
            rate_valid(config.download_bps),
        ensures
            l@ == (LimitsView { upload: config.upload_bps, download: config.download_bps }),
    {
        Limits {
            down: match config.download_bps { Some(v) => v, None => 0 },
            up: match config.upload_bps { Some(v) => v, None => 0 },
        }
    }

    pub fn set_upload_bps(&mut self, bps: Option<u32>)
        requires
            rate_valid(bps),
        ensures
            final(self)@ == (LimitsView { upload: bps, download: old(self)@.download }),
    {
        self.up = match bps { Some(v) => v, None => 0 };
    }

    pub fn set_download_bps(&mut self, bps: Option<u32>)
        requires
            rate_valid(bps),
        ensures
            final(self)@ == (LimitsView { upload: old(self)@.upload, download: bps }),
    {
        self.down = match bps { Some(v) => v, None => 0 };
    }

    pub fn get_upload_bps(&self) -> (r: Option<u32>)
        ensures
            r == self@.upload,
            rate_valid(r),
    {
        if self.up == 0 { None } else { Some(self.up) }
    }

    pub fn get_download_bps(&self) -> (r: Option<u32>)
        ensures
            r == self@.download,
            rate_valid(r),
    {
        if self.down == 0 { None } else { Some(self.down) }
    }

    pub fn get_config(&self) -> (c: LimitsConfig)
        ensures
            c == (LimitsConfig { upload_bps: self@.upload, download_bps: self@.download, peer_limit: None, concurrent_init_limit: None }),
    {
        LimitsConfig {
            upload_bps: self.get_upload_bps(),
            download_bps: self.get_download_bps(),
            peer_limit: None,
            concurrent_init_limit: None,
        }
    }
}

// ----- alternative speed mode -----

/// Response for alt speed status.
#[derive(Clone, Copy, Debug)]
pub struct AltSpeedStatus {
    /// Whether alt speed mode is currently active.
    pub enabled: bool,
    /// The current alt speed config.
    pub config: AltSpeedConfig,
}

/// Request to toggle alt speed mode.
#[derive(Clone, Copy, Debug)]
pub struct AltSpeedToggle {
    pub enabled: bool,
}

/// The abstract alternative-speed state.
pub struct AltSpeedView {
    pub enabled: bool,
    pub config: AltSpeedConfig,
    pub schedule: AltSpeedSchedule,
    /// The normal limits saved when alt mode activated (0 = unlimited).
    pub saved_normal_upload: u32,
    pub saved_normal_download: u32,
}

/// What enabling does to the mode and to the limits in force: when not
/// already enabled, the limits in force are saved and the alternative ones applied.
pub open spec fn enable_spec(a: AltSpeedView, l: LimitsView) -> (AltSpeedView, LimitsView) {
    if a.enabled {
        (a, l)
    } else {
        (AltSpeedView {
            enabled: true,
            saved_normal_upload: stored_rate(l.upload),
            saved_normal_download: stored_rate(l.download),
            ..a
        }, LimitsView { upload: a.config.alt_speed_up, download: a.config.alt_speed_down })
    }
}

/// What disabling does: when enabled, the saved limits are restored.
pub open spec fn disable_spec(a: AltSpeedView, l: LimitsView) -> (AltSpeedView, LimitsView) {
    if !a.enabled {
        (a, l)
    } else {
        (AltSpeedView { enabled: false, ..a },
         LimitsView { upload: rate_of(a.saved_normal_upload), download: rate_of(a.saved_normal_download) })
    }
}

/// Manages alternative speed limits state at the session level.
pub struct AltSpeedState {
    enabled: bool,
    config: AltSpeedConfig,
    schedule: AltSpeedSchedule,
    saved_normal_upload: u32,
    saved_normal_download: u32,
}

impl View for AltSpeedState {
    type V = AltSpeedView;

    closed spec fn view(&self) -> AltSpeedView {
        AltSpeedView {
            enabled: self.enabled,
            config: self.config,
            schedule: self.schedule,
            saved_normal_upload: self.saved_normal_upload,
            saved_normal_download: self.saved_normal_download,
        }
    }
}

impl AltSpeedState {
    pub fn new(config: AltSpeedConfig, schedule: AltSpeedSchedule) -> (s: AltSpeedState)
        ensures
            s@ == (AltSpeedView { enabled: false, config, schedule, saved_normal_upload: 0, saved_normal_download: 0 }),
    {
        AltSpeedState { enabled: false, config, schedule, saved_normal_upload: 0, saved_normal_download: 0 }
    }

    pub fn is_enabled(&self) -> (r: bool)
        ensures
            r == self@.enabled,
    {
        self.enabled
    }

    pub fn config(&self) -> (c: AltSpeedConfig)
        ensures
            c == self@.config,
    {
        self.config
    }

    pub fn schedule(&self) -> (s: AltSpeedSchedule)
        ensures
            s == self@.schedule,
    {
        self.schedule
    }

    pub fn set_schedule(&mut self, schedule: AltSpeedSchedule)
        ensures
            final(self)@ == (AltSpeedView { schedule, ..old(self)@ }),
    {
        self.schedule = schedule;
    }

    pub fn set_config(&mut self, config: AltSpeedConfig)
        ensures
            final(self)@ == (AltSpeedView { config, ..old(self)@ }),
    {
        self.config = config;
    }

    /// Enable alt speed mode, saving the current global limits and applying alt limits.
    pub fn enable(&mut self, global_limits: &mut Limits)
        requires
            alt_config_valid(old(self)@.config),
        ensures
            (final(self)@, final(global_limits)@) == enable_spec(old(self)@, old(global_limits)@),
    {
        if self.enabled {
            return;  // already enabled
        }
        self.enabled = true;
        // Save current normal limits
        let cur_up = match global_limits.get_upload_bps() { Some(v) => v, None => 0 };
        let cur_down = match global_limits.get_download_bps() { Some(v) => v, None => 0 };
        self.saved_normal_upload = cur_up;
        self.saved_normal_download = cur_down;
        // Apply alt limits
        global_limits.set_upload_bps(self.config.alt_speed_up);
        global_limits.set_download_bps(self.config.alt_speed_down);
    }

    /// Disable alt speed mode, restoring the previously saved global limits.
    pub fn disable(&mut self, global_limits: &mut Limits)
        ensures
            (final(self)@, final(global_limits)@) == disable_spec(old(self)@, old(global_limits)@),
    {
        if !self.enabled {
            return;  // already disabled
        }
        self.enabled = false;
        let up = if self.saved_normal_upload == 0 { None } else { Some(self.saved_normal_upload) };
        let down = if self.saved_normal_download == 0 { None } else { Some(self.saved_normal_download) };
        global_limits.set_upload_bps(up);
        global_limits.set_download_bps(down);
    }

    /// Toggle alt speed mode to match whether the schedule should be in
    /// force. Returns true if the state changed.
    pub fn apply_schedule(&mut self, should_be_active: bool, global_limits: &mut Limits) -> (changed: bool)
        requires
            alt_config_valid(old(self)@.config),
        ensures
            changed == (should_be_active != old(self)@.enabled),
            (final(self)@, final(global_limits)@) == if should_be_active && !old(self)@.enabled {
                enable_spec(old(self)@, old(global_limits)@)
            } else if !should_be_active && old(self)@.enabled {
                disable_spec(old(self)@, old(global_limits)@)
            } else {
                (old(self)@, old(global_limits)@)
            },
    {
        let is_active = self.is_enabled();
        if should_be_active && !is_active {
            self.enable(global_limits);
            true
        } else if !should_be_active && is_active {
            self.disable(global_limits);
            true
        } else {
            false
        }
    }

    /// Check the schedule and toggle alt speed mode if needed.
    /// Returns true if the state changed. Whether the schedule is in force
    /// depends on the clock; whatever it reads, the change is the one
    /// `apply_schedule` makes, and the mode is not turned on while the
    /// schedule is disabled.
    pub fn check_schedule(&mut self, global_limits: &mut Limits) -> (changed: bool)
        requires
            alt_config_valid(old(self)@.config),
        ensures
            changed == (final(self)@.enabled != old(self)@.enabled),
            (final(self)@, final(global_limits)@) == if changed && final(self)@.enabled {
                enable_spec(old(self)@, old(global_limits)@)
            } else if changed {
                disable_spec(old(self)@, old(global_limits)@)
            } else {
                (old(self)@, old(global_limits)@)
            },
            !old(self)@.schedule.enabled ==> !final(self)@.enabled,
    {
        let should_be_active = self.schedule.is_active_now();
        self.apply_schedule(should_be_active, global_limits)
    }
}

/// Turning alternative speeds on and then off again restores the limits that
/// were in force before.
pub proof fn lemma_enable_disable_restores(a: AltSpeedView, l: LimitsView)
    requires
        !a.enabled,
        rate_valid(l.upload),
        rate_valid(l.download),
    ensures
        ({
            let (a1, l1) = enable_spec(a, l);
            let (a2, l2) = disable_spec(a1, l1);
            l2 == l && !a2.enabled
        }),
{
}

// ----- the API's limit settings -----

/// New session limits from the API: both rates take effect at once; the
/// peer limit and the limit of torrents initializing at once, when given,
/// are handed back for the session to apply.
pub fn update_session_ratelimits(limits: &mut Limits, config: LimitsConfig) -> (r: (Option<usize>, Option<usize>))
    requires
        rate_valid(config.upload_bps),
        rate_valid(config.download_bps),
    ensures
        final(limits)@ == (LimitsView { upload: config.upload_bps, download: config.download_bps }),
        r == (config.peer_limit, config.concurrent_init_limit),
{
    limits.set_upload_bps(config.upload_bps);
    limits.set_download_bps(config.download_bps);
    (config.peer_limit, config.concurrent_init_limit)
}

/// The session limits as the API shows them: the rates in force with the
/// session's peer limit and limit of torrents initializing at once.
pub fn session_ratelimits(limits: &Limits, peer_limit: usize, concurrent_init_limit: usize) -> (c: LimitsConfig)
    ensures
        c == (LimitsConfig {
            upload_bps: limits@.upload,
            download_bps: limits@.download,
            peer_limit: Some(peer_limit),
            concurrent_init_limit: Some(concurrent_init_limit),
        }),
{
    let mut config = limits.get_config();
    config.peer_limit = Some(peer_limit);
    config.concurrent_init_limit = Some(concurrent_init_limit);
    config
}

/// Turns the alternative speed mode on or off from the API.
pub fn set_alt_speed(alt: &mut AltSpeedState, limits: &mut Limits, toggle: AltSpeedToggle)
    requires
        alt_config_valid(old(alt)@.config),
    ensures
        (final(alt)@, final(limits)@) == if toggle.enabled {
            enable_spec(old(alt)@, old(limits)@)
        } else {
            disable_spec(old(alt)@, old(limits)@)
        },
{
    if toggle.enabled {
        alt.enable(limits);
    } else {
        alt.disable(limits);
    }
}

/// New alternative limits from the API: they are kept, and while the mode
/// is on they take effect at once.
pub fn set_alt_speed_config(alt: &mut AltSpeedState, limits: &mut Limits, config: AltSpeedConfig)
    requires
        alt_config_valid(config),
    ensures
        final(alt)@ == (AltSpeedView { config, ..old(alt)@ }),
        final(limits)@ == if old(alt)@.enabled {
            LimitsView { upload: config.alt_speed_up, download: config.alt_speed_down }
        } else {
            old(limits)@
        },
{
    alt.set_config(config);
    if alt.is_enabled() {
        let cfg = alt.config();
        limits.set_upload_bps(cfg.alt_speed_up);
        limits.set_download_bps(cfg.alt_speed_down);
    }
}

} // verus!

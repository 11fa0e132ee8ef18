use rtbit::limits::{
    session_ratelimits, set_alt_speed, set_alt_speed_config, update_session_ratelimits, AltSpeedConfig, AltSpeedSchedule,
    AltSpeedState, AltSpeedToggle, Limits, LimitsConfig, TorrentLimitsConfig,
};

#[test]
fn torrent_limits_zero_means_unlimited() {
    let c = TorrentLimitsConfig { download_rate: Some(0), upload_rate: Some(500) };
    assert_eq!(c.download_bps(), None);
    assert_eq!(c.upload_bps(), Some(500));
    let c = TorrentLimitsConfig { download_rate: None, upload_rate: None };
    assert_eq!(c.download_bps(), None);
    assert_eq!(c.upload_bps(), None);
}

#[test]
fn schedule_default_is_office_hours_every_day() {
    let s = AltSpeedSchedule::default();
    assert!(!s.enabled);
    assert_eq!((s.start_minutes, s.end_minutes, s.days), (480, 1020, 127));
    assert!(!s.is_active_now());
}

#[test]
fn schedule_checks_day_and_minutes() {
    // 1970-01-05 was a Monday.
    let monday_9am: i64 = 4 * 86400 + 9 * 3600;
    let s = AltSpeedSchedule { enabled: true, start_minutes: 480, end_minutes: 1020, days: 1 };
    assert!(s.is_active_at(monday_9am));
    assert!(!s.is_active_at(monday_9am + 9 * 3600)); // 18:00
    assert!(!s.is_active_at(monday_9am + 86400)); // Tuesday
    // A range that wraps around midnight.
    let night = AltSpeedSchedule { enabled: true, start_minutes: 1320, end_minutes: 360, days: 127 };
    assert!(night.is_active_at(23 * 3600));
    assert!(night.is_active_at(2 * 3600));
    assert!(!night.is_active_at(12 * 3600));
    // Thursday 1970-01-01 is day bit 8.
    let thursday = AltSpeedSchedule { enabled: true, start_minutes: 0, end_minutes: 1440, days: 8 };
    assert!(thursday.is_active_at(100));
    let disabled = AltSpeedSchedule { enabled: false, ..thursday };
    assert!(!disabled.is_active_at(100));
}

#[test]
fn enabling_then_disabling_restores_the_limits() {
    let mut limits = Limits::new(LimitsConfig { upload_bps: Some(1000), download_bps: None, peer_limit: None, concurrent_init_limit: None });
    let cfg = AltSpeedConfig { alt_speed_down: Some(50), alt_speed_up: Some(10) };
    let mut alt = AltSpeedState::new(cfg, AltSpeedSchedule::default());
    assert!(!alt.is_enabled());
    alt.enable(&mut limits);
    assert!(alt.is_enabled());
    assert_eq!(limits.get_upload_bps(), Some(10));
    assert_eq!(limits.get_download_bps(), Some(50));
    alt.enable(&mut limits);
    assert_eq!(limits.get_upload_bps(), Some(10));
    alt.disable(&mut limits);
    assert!(!alt.is_enabled());
    assert_eq!(limits.get_upload_bps(), Some(1000));
    assert_eq!(limits.get_download_bps(), None);
    assert_eq!(limits.get_config().upload_bps, Some(1000));
}

#[test]
fn applying_a_schedule_reports_changes() {
    let mut limits = Limits::new(LimitsConfig::default());
    let mut alt = AltSpeedState::new(AltSpeedConfig::default(), AltSpeedSchedule::default());
    assert!(!alt.apply_schedule(false, &mut limits));
    assert!(alt.apply_schedule(true, &mut limits));
    assert!(!alt.apply_schedule(true, &mut limits));
    assert!(alt.apply_schedule(false, &mut limits));
    // The default schedule is disabled: checking it turns nothing on.
    assert!(!alt.check_schedule(&mut limits));
    assert!(!alt.is_enabled());
    alt.set_config(AltSpeedConfig { alt_speed_down: Some(5), alt_speed_up: None });
    assert_eq!(alt.config().alt_speed_down, Some(5));
    let sched = AltSpeedSchedule { enabled: true, start_minutes: 1, end_minutes: 2, days: 3 };
    alt.set_schedule(sched);
    assert_eq!(alt.schedule(), sched);
}

#[test]
fn limits_setters() {
    let mut limits = Limits::new(LimitsConfig::default());
    assert_eq!(limits.get_upload_bps(), None);
    limits.set_upload_bps(Some(7));
    limits.set_download_bps(Some(8));
    assert_eq!(limits.get_upload_bps(), Some(7));
    assert_eq!(limits.get_download_bps(), Some(8));
    limits.set_upload_bps(None);
    assert_eq!(limits.get_upload_bps(), None);
}

#[test]
fn api_session_limits() {
    let mut limits = Limits::new(LimitsConfig::default());
    let applied = update_session_ratelimits(
        &mut limits,
        LimitsConfig { upload_bps: Some(100), download_bps: None, peer_limit: Some(50), concurrent_init_limit: None },
    );
    assert_eq!(applied, (Some(50), None));
    assert_eq!(limits.get_upload_bps(), Some(100));
    assert_eq!(limits.get_download_bps(), None);
    let shown = session_ratelimits(&limits, 128, 3);
    assert_eq!(shown.upload_bps, Some(100));
    assert_eq!(shown.download_bps, None);
    assert_eq!(shown.peer_limit, Some(128));
    assert_eq!(shown.concurrent_init_limit, Some(3));
}

#[test]
fn api_alt_speed_settings() {
    let mut limits = Limits::new(LimitsConfig { upload_bps: Some(1000), download_bps: Some(2000), peer_limit: None, concurrent_init_limit: None });
    let mut alt = AltSpeedState::new(AltSpeedConfig { alt_speed_down: Some(10), alt_speed_up: Some(5) }, AltSpeedSchedule::default());
    // While the mode is off a new configuration is only kept.
    set_alt_speed_config(&mut alt, &mut limits, AltSpeedConfig { alt_speed_down: Some(20), alt_speed_up: None });
    assert_eq!((limits.get_upload_bps(), limits.get_download_bps()), (Some(1000), Some(2000)));
    set_alt_speed(&mut alt, &mut limits, AltSpeedToggle { enabled: true });
    assert!(alt.is_enabled());
    assert_eq!((limits.get_upload_bps(), limits.get_download_bps()), (None, Some(20)));
    // While it is on, a new configuration takes effect at once.
    set_alt_speed_config(&mut alt, &mut limits, AltSpeedConfig { alt_speed_down: Some(30), alt_speed_up: Some(7) });
    assert_eq!((limits.get_upload_bps(), limits.get_download_bps()), (Some(7), Some(30)));
    set_alt_speed(&mut alt, &mut limits, AltSpeedToggle { enabled: false });
    assert!(!alt.is_enabled());
    assert_eq!((limits.get_upload_bps(), limits.get_download_bps()), (Some(1000), Some(2000)));
}

#[test]
fn schedule_at_a_clock_reading() {
    let s = AltSpeedSchedule { enabled: true, start_minutes: 480, end_minutes: 1020, days: 1 };
    // Monday 1970-01-05 09:00 UTC, read in UTC and from two hours east.
    let monday_9am: u64 = 4 * 86400 + 9 * 3600;
    assert!(s.is_active_at_clock(monday_9am, 0));
    assert!(!s.is_active_at_clock(monday_9am, 9 * 3600));
    assert!(!s.is_active_at_clock(monday_9am - 8 * 3600, -2 * 3600));
    // A week later, and a thousand weeks later, it is Monday 09:00 again.
    assert!(s.is_active_at_clock(monday_9am + 7 * 86400, 0));
    assert!(s.is_active_at_clock(monday_9am + 1000 * 7 * 86400, 0));
    // A reading far beyond what an i64 holds after the offset still decides.
    let far = u64::MAX - (u64::MAX % (7 * 86400)) - 7 * 86400 + 4 * 86400 + 9 * 3600;
    assert!(s.is_active_at_clock(far, 0));
    assert!(!s.is_active_at_clock(far, 86399));
}

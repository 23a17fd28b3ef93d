use info_radiator::device::{
    after_ping, after_tick, lipc_path, parse_battery_level, TickAction, next_tick_timeout, screensaver_command, wifi_command, NetworkWait,
    ScreensaverGuard,
};
use info_radiator::taxi::TaxiPickup;

#[test]
fn lipc_path_only_when_present() {
    assert_eq!(lipc_path(true), Some("/usr/bin/lipc-set-prop"));
    assert_eq!(lipc_path(false), None);
}

#[test]
fn lipc_commands() {
    let on = wifi_command(true);
    assert_eq!((on.service, on.property, on.value), ("com.lab126.cmd", "wirelessEnable", "1"));
    assert_eq!(wifi_command(false).value, "0");
    let s = screensaver_command(true);
    assert_eq!((s.service, s.property, s.value), ("com.lab126.powerd", "preventScreenSaver", "1"));
}

#[test]
fn screensaver_guard_engages_and_releases() {
    let g = ScreensaverGuard::engage();
    assert_eq!(g.command().value, "1");
    let r = g.release();
    assert_eq!(r.command().value, "0");
    assert_eq!(r.command().property, "preventScreenSaver");
}

#[test]
fn network_wait_decisions() {
    assert_eq!(after_ping(0, true), NetworkWait::Online);
    assert_eq!(after_ping(0, false), NetworkWait::SleepAndRetry);
    assert_eq!(after_ping(13, false), NetworkWait::SleepAndRetry);
    assert_eq!(after_ping(14, false), NetworkWait::SleepAndGiveUp);
    assert_eq!(after_ping(14, true), NetworkWait::Online);
}

#[test]
fn tick_timeouts() {
    assert_eq!(next_tick_timeout(None, 3599), 1);
    assert_eq!(next_tick_timeout(None, 3600), 3600);
    assert_eq!(next_tick_timeout(None, 7000), 200);
    assert_eq!(next_tick_timeout(None, -1), 1);
    assert_eq!(next_tick_timeout(None, -3600), 3600);
    let now = 1_000_125;
    let far = TaxiPickup { scheduled_ts: now + 600 + 3600 };
    assert_eq!(next_tick_timeout(Some(&far), now), 3600 - 1_000_125 % 3600);
    let near = TaxiPickup { scheduled_ts: now + 600 + 3599 };
    assert_eq!(next_tick_timeout(Some(&near), now), 15);
    let past = TaxiPickup { scheduled_ts: now - 100 };
    assert_eq!(next_tick_timeout(Some(&past), now), 15);
}

#[test]
fn battery_level_between_white_space() {
    assert_eq!(parse_battery_level("87\n"), Some(87));
    assert_eq!(parse_battery_level("  100 \r\n"), Some(100));
    assert_eq!(parse_battery_level("\u{a0}42\u{3000}"), Some(42));
    assert_eq!(parse_battery_level("+5"), Some(5));
    assert_eq!(parse_battery_level("007"), Some(7));
}

#[test]
fn battery_level_edges_of_u32() {
    assert_eq!(parse_battery_level("4294967295"), Some(u32::MAX));
    assert_eq!(parse_battery_level("4294967296"), None);
    assert_eq!(parse_battery_level("99999999999999999999999"), None);
}

#[test]
fn battery_level_not_a_number() {
    assert_eq!(parse_battery_level(""), None);
    assert_eq!(parse_battery_level(" \n"), None);
    assert_eq!(parse_battery_level("+"), None);
    assert_eq!(parse_battery_level("-1"), None);
    assert_eq!(parse_battery_level("1 2"), None);
    assert_eq!(parse_battery_level("87%"), None);
    assert_eq!(parse_battery_level("abc"), None);
}

#[test]
fn printed_levels_read_back() {
    for n in [0u32, 7, 42, 100, 65535, u32::MAX] {
        assert_eq!(parse_battery_level(&n.to_string()), Some(n));
    }
}

#[test]
fn tick_exits_on_input_and_refetches_after_two_hours() {
    assert_eq!(after_tick(true, 0), TickAction::Exit);
    assert_eq!(after_tick(true, 10_000), TickAction::Exit);
    assert_eq!(after_tick(false, 7199), TickAction::Draw);
    assert_eq!(after_tick(false, 7200), TickAction::RefetchAndDraw);
    assert_eq!(after_tick(false, 0), TickAction::Draw);
}

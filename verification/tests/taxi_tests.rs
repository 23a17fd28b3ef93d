use chrono::TimeZone;
use chrono_tz::Europe::Helsinki;
use info_radiator::civil::CivilDate;
use info_radiator::taxi::{
    collect_morning_types, next_pickup, parse_pvm, reservation_filters, routepoints_url, schedule_url,
    today_in_helsinki, MorningTypes, WeekSchedule,
};

fn date(year: i32, month: u32, day: u32) -> CivilDate {
    CivilDate { year, month, day }
}

fn week(days: [(&str, &str); 5]) -> WeekSchedule {
    let s = |x: &str| x.to_string();
    WeekSchedule {
        ma_pvm: s(days[0].0),
        ma_ap: s(days[0].1),
        ti_pvm: s(days[1].0),
        ti_ap: s(days[1].1),
        ke_pvm: s(days[2].0),
        ke_ap: s(days[2].1),
        to_pvm: s(days[3].0),
        to_ap: s(days[3].1),
        pe_pvm: s(days[4].0),
        pe_ap: s(days[4].1),
    }
}

#[test]
fn schedule_dates_parse() {
    assert_eq!(parse_pvm("2026-04-27T00:00:00+03:00"), Some(date(2026, 4, 27)));
    assert_eq!(parse_pvm("2026-04-27"), Some(date(2026, 4, 27)));
    assert_eq!(parse_pvm(""), None);
    assert_eq!(parse_pvm("27.4.2026T00"), None);
}

#[test]
fn morning_types_insert_and_get() {
    let mut m = MorningTypes::new();
    assert!(m.get(&date(2026, 4, 27)).is_none());
    m.insert(date(2026, 4, 27), "Vapaa".to_string());
    m.insert(date(2026, 4, 28), "Lukujärjestys".to_string());
    m.insert(date(2026, 4, 27), "Retki".to_string());
    assert_eq!(m.get(&date(2026, 4, 27)).map(|s| s.as_str()), Some("Retki"));
    assert_eq!(m.get(&date(2026, 4, 28)).map(|s| s.as_str()), Some("Lukujärjestys"));
    assert!(m.get(&date(2026, 4, 29)).is_none());
}

#[test]
fn collected_weeks_later_entries_win_and_bad_dates_are_skipped() {
    let weeks = vec![
        week([
            ("2026-04-27T00:00:00+03:00", "A"),
            ("2026-04-28T00:00:00+03:00", "Vapaa"),
            ("", "ignored"),
            ("2026-04-30T00:00:00+03:00", ""),
            ("2026-05-01T00:00:00+03:00", "Vappu"),
        ]),
        week([
            ("2026-04-27T00:00:00+03:00", "Lukujärjestys"),
            ("x", "x"),
            ("x", "x"),
            ("x", "x"),
            ("x", "x"),
        ]),
    ];
    let m = collect_morning_types(&weeks);
    assert_eq!(m.get(&date(2026, 4, 27)).map(|s| s.as_str()), Some("Lukujärjestys"));
    assert_eq!(m.get(&date(2026, 4, 28)).map(|s| s.as_str()), Some("Vapaa"));
    assert_eq!(m.get(&date(2026, 4, 30)).map(|s| s.as_str()), Some(""));
    assert!(m.get(&date(2026, 4, 29)).is_none());
}

#[test]
fn filters_skip_weekends_and_taxi_free_mornings_within_two_weeks() {
    let mut m = MorningTypes::new();
    m.insert(date(2026, 4, 28), "Vapaa".to_string());
    m.insert(date(2026, 4, 29), "Lukujärjestys".to_string());
    m.insert(date(2026, 4, 30), "".to_string());
    let f = reservation_filters(&date(2026, 4, 27), &m, &[1, 2, 3, 4, 5]).unwrap();
    assert_eq!(
        f,
        vec![
            "kouvola_2026-04-27%201",
            "kouvola_2026-04-29%203",
            "kouvola_2026-04-30%204",
            "kouvola_2026-05-01%205",
            "kouvola_2026-05-04%201",
            "kouvola_2026-05-05%202",
            "kouvola_2026-05-06%203",
            "kouvola_2026-05-07%204",
            "kouvola_2026-05-08%205",
        ]
    );
}

#[test]
fn filters_starting_on_a_saturday() {
    let m = MorningTypes::new();
    let f = reservation_filters(&date(2026, 5, 2), &m, &[11, 22, 33, 44, 55]).unwrap();
    assert_eq!(f.len(), 10);
    assert_eq!(f[0], "kouvola_2026-05-04%2011");
    assert_eq!(f[9], "kouvola_2026-05-15%2055");
}

#[test]
fn endpoint_addresses() {
    assert_eq!(
        schedule_url(7),
        "https://intra.kuntalogistiikka.fi/api/MunAppAPI/v1/model/MunAppSchedule/7"
    );
    let f = vec!["a".to_string(), "b".to_string()];
    assert_eq!(
        routepoints_url(&f, 42),
        "https://intra.kuntalogistiikka.fi/api/MunAppAPI/v1/model/VehicleReservationsRoutepoints\
         ?ReservationsExportSystemIdIn=a,b&RoutepointsCustomerRiviIdIn=42"
    );
}

#[test]
fn next_pickup_is_the_earliest_later_route_point() {
    let now = Helsinki.with_ymd_and_hms(2026, 4, 29, 12, 0, 0).single().unwrap().timestamp();
    let times: Vec<String> = vec!["2026-04-30T07:30:00", "bad", "2026-04-30T06:45:00", "2026-04-29T07:00:00"]
        .into_iter()
        .map(String::from)
        .collect();
    let p = next_pickup(&times, now).unwrap();
    let expected = Helsinki.with_ymd_and_hms(2026, 4, 30, 6, 45, 0).single().unwrap().timestamp();
    assert_eq!(p.scheduled_ts, expected);
    assert!(next_pickup(&vec!["2026-04-29T07:00:00".to_string()], now).is_none());
    assert!(next_pickup(&vec![], now).is_none());
}

#[test]
fn today_in_helsinki_crosses_midnight_before_utc() {
    // 2026-04-29 21:30 UTC is 00:30 on the 30th in Helsinki.
    assert_eq!(today_in_helsinki(1777498200), Some(date(2026, 4, 30)));
}

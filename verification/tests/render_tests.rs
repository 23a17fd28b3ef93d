use chrono::TimeZone;
use chrono_tz::Europe::Helsinki;
use info_radiator::render::{
    curve_neighbours, day_bucket, format_event_time, hour_label, icon_kind, svg_inner, svg_inner_bounds,
    svg_layout, taxi_countdown, xml_escape, TaxiMood, WeatherIcon,
};

fn ts(y: i32, mo: u32, d: u32, h: u32, mi: u32) -> i64 {
    Helsinki.with_ymd_and_hms(y, mo, d, h, mi, 0).single().unwrap().timestamp()
}

#[test]
fn weather_codes_map_to_icons() {
    assert_eq!(icon_kind(0), WeatherIcon::Clear);
    assert_eq!(icon_kind(1), WeatherIcon::PartlyCloudy);
    assert_eq!(icon_kind(3), WeatherIcon::PartlyCloudy);
    assert_eq!(icon_kind(45), WeatherIcon::Cloudy);
    assert_eq!(icon_kind(48), WeatherIcon::Cloudy);
    assert_eq!(icon_kind(61), WeatherIcon::Rain);
    assert_eq!(icon_kind(67), WeatherIcon::Rain);
    assert_eq!(icon_kind(71), WeatherIcon::Snow);
    assert_eq!(icon_kind(77), WeatherIcon::Snow);
    assert_eq!(icon_kind(80), WeatherIcon::Rain);
    assert_eq!(icon_kind(82), WeatherIcon::Rain);
    assert_eq!(icon_kind(85), WeatherIcon::Thunder);
    assert_eq!(icon_kind(95), WeatherIcon::Thunder);
}

#[test]
fn hour_labels() {
    assert_eq!(hour_label("2026-04-30T14:00"), "14");
    assert_eq!(hour_label("2026-04-30"), "");
    assert_eq!(hour_label("2026T12:30T5"), "12");
    assert_eq!(hour_label("xT"), "");
}

#[test]
fn xml_escape_cases() {
    assert_eq!(xml_escape("a<b>&c"), "a&lt;b&gt;&amp;c");
    assert_eq!(xml_escape("Tänään"), "Tänään");
    assert_eq!(xml_escape("&lt;"), "&amp;lt;");
}

#[test]
fn svg_inner_markup() {
    assert_eq!(svg_inner("<?xml?><svg a='1'><g/></svg>").as_deref(), Some("<g/>"));
    assert_eq!(svg_inner("plain").as_deref(), Some("plain"));
    assert_eq!(svg_inner("<svg x>a</svg>b</svg>").as_deref(), Some("a</svg>b"));
    assert_eq!(svg_inner_bounds("</svg><svg>"), (11, 0));
    assert_eq!(svg_inner("</svg><svg>"), None);
}

#[test]
fn day_buckets_are_helsinki_midnights() {
    assert_eq!(day_bucket(ts(2026, 4, 30, 17, 40)), Some(ts(2026, 4, 30, 0, 0)));
    assert_eq!(day_bucket(ts(2026, 4, 30, 0, 0)), Some(ts(2026, 4, 30, 0, 0)));
    assert_eq!(day_bucket(ts(2026, 3, 29, 12, 0)), Some(ts(2026, 3, 29, 0, 0)));
}

#[test]
fn event_time_texts() {
    let now = ts(2026, 4, 30, 12, 0);
    assert_eq!(format_event_time(ts(2026, 4, 30, 17, 40), false, now).as_deref(), Some("Tänään 17:40"));
    assert_eq!(format_event_time(ts(2026, 5, 1, 0, 0), true, now).as_deref(), Some("Huomenna"));
    assert_eq!(format_event_time(ts(2026, 5, 6, 9, 5), false, now).as_deref(), Some("ke 6.5. 09:05"));
    assert_eq!(format_event_time(ts(2026, 4, 26, 9, 5), true, now).as_deref(), Some("su 26.4."));
}

#[test]
fn taxi_countdown_texts_and_moods() {
    let now = 1_000_000;
    let c = taxi_countdown(now + 600 + 2 * 3600 + 30, now);
    assert_eq!((c.mood, c.text.as_str()), (TaxiMood::Grin, "2h"));
    let c = taxi_countdown(now + 600 + 45 * 60, now);
    assert_eq!((c.mood, c.text.as_str()), (TaxiMood::Smile, "45min"));
    let c = taxi_countdown(now + 600 + 20 * 60, now);
    assert_eq!((c.mood, c.text.as_str()), (TaxiMood::Flushed, "20min"));
    let c = taxi_countdown(now + 600 + 12 * 60, now);
    assert_eq!((c.mood, c.text.as_str()), (TaxiMood::Coat, "12min"));
    let c = taxi_countdown(now + 600 + 7 * 60, now);
    assert_eq!((c.mood, c.text.as_str()), (TaxiMood::Fear, "7min"));
    let c = taxi_countdown(now + 600 + 4 * 60 + 59, now);
    assert_eq!((c.mood, c.text.as_str()), (TaxiMood::Scream, "4min"));
    let c = taxi_countdown(now + 599, now);
    assert_eq!((c.mood, c.text.as_str()), (TaxiMood::Scream, "-1min"));
    let c = taxi_countdown(now, now);
    assert_eq!(c.text, "-10min");
}

#[test]
fn layout_of_the_kindle_screen() {
    let l = svg_layout(758, 1024, true);
    assert_eq!((l.weather_h, l.bottom_y, l.bottom_h, l.cal_w), (512, 513, 511, 379));
    let l = svg_layout(758, 1023, false);
    assert_eq!((l.weather_h, l.bottom_y, l.bottom_h, l.cal_w), (511, 512, 511, 758));
    assert_eq!(svg_layout(10, 0, false).bottom_h, -1);
}

#[test]
fn curve_neighbours_clamp_at_the_ends() {
    assert_eq!(curve_neighbours(0, 5), (0, 0, 1, 2));
    assert_eq!(curve_neighbours(2, 5), (1, 2, 3, 4));
    assert_eq!(curve_neighbours(3, 5), (2, 3, 4, 4));
    assert_eq!(curve_neighbours(0, 2), (0, 0, 1, 1));
}

#[test]
fn escaped_text_turns_back() {
    for s in ["a<&>b", "&amp;", "&lt;&gt;", "plain", "", "<<>>&&"] {
        let e = xml_escape(s);
        let back = e.replace("&lt;", "<").replace("&gt;", ">").replace("&amp;", "&");
        assert_eq!(back, s);
    }
    assert_eq!(xml_escape("a<&>b"), "a&lt;&amp;&gt;b");
    assert_ne!(xml_escape("&lt;"), xml_escape("<"));
}

#[test]
fn a_bucket_is_its_own_bucket() {
    for t in [ts(2026, 4, 30, 17, 40), ts(2026, 3, 29, 12, 0), ts(2026, 10, 25, 12, 0), 0] {
        let b = day_bucket(t).unwrap();
        assert_eq!(day_bucket(b), Some(b));
    }
}

#[test]
fn an_empty_icon_has_empty_markup() {
    assert_eq!(svg_inner("").as_deref(), Some(""));
}

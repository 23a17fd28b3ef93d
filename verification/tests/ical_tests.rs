use chrono::{Datelike, TimeZone};
use chrono_tz::Europe::Helsinki;
use info_radiator::agenda::next_event;
use info_radiator::civil::{CivilDate, CivilDateTime};
use info_radiator::ical::{dt_from_parsed, parse_dt, parse_ics, unescape_text, unfold};

fn ts(y: i32, mo: u32, d: u32, h: u32, mi: u32) -> i64 {
    Helsinki
        .with_ymd_and_hms(y, mo, d, h, mi, 0)
        .single()
        .unwrap()
        .timestamp()
}

#[test]
fn parses_dtstart_summary_and_rrule_input() {
    let body = "BEGIN:VEVENT\r\n\
                DTSTART;TZID=Europe/Helsinki:20250630T174000\r\n\
                DTEND;TZID=Europe/Helsinki:20250630T183000\r\n\
                RRULE:FREQ=DAILY;COUNT=5\r\n\
                DTSTAMP:20260430T092227Z\r\n\
                SUMMARY:Anonymized swim class\r\n\
                END:VEVENT\r\n";
    let raw = parse_ics(body);
    assert_eq!(raw.len(), 1);
    assert_eq!(raw[0].summary, "Anonymized swim class");
    assert_eq!(raw[0].start_ts, ts(2025, 6, 30, 17, 40));
    assert!(raw[0]
        .rrule_input
        .as_deref()
        .unwrap()
        .contains("RRULE:FREQ=DAILY;COUNT=5"));
}

#[test]
fn finite_count_recurrence_returns_none_after_series_ends() {
    let body = "BEGIN:VEVENT\r\n\
                DTSTART;TZID=Europe/Helsinki:20250630T174000\r\n\
                RRULE:FREQ=DAILY;COUNT=5\r\n\
                SUMMARY:swim\r\n\
                END:VEVENT\r\n";
    let raw = parse_ics(body);
    let now = ts(2026, 4, 30, 12, 0);
    assert!(next_event(raw[0].clone(), now).is_none());
}

#[test]
fn finite_count_recurrence_returns_correct_occurrence_during_series() {
    let body = "BEGIN:VEVENT\r\n\
                DTSTART;TZID=Europe/Helsinki:20250630T174000\r\n\
                RRULE:FREQ=DAILY;COUNT=5\r\n\
                SUMMARY:x\r\n\
                END:VEVENT\r\n";
    let raw = parse_ics(body);
    let now = ts(2025, 7, 2, 9, 0);
    let ev = next_event(raw[0].clone(), now).unwrap();
    assert_eq!(ev.start_ts, ts(2025, 7, 2, 17, 40));
}

#[test]
fn weekly_unbounded_advances_to_future_keeping_weekday() {
    let body = "BEGIN:VEVENT\r\n\
                DTSTART;TZID=Europe/Helsinki:20250101T100000\r\n\
                RRULE:FREQ=WEEKLY\r\n\
                SUMMARY:x\r\n\
                END:VEVENT\r\n";
    let raw = parse_ics(body);
    let now = ts(2026, 4, 30, 12, 0);
    let ev = next_event(raw[0].clone(), now).unwrap();
    let dt = Helsinki.timestamp_opt(ev.start_ts, 0).single().unwrap();
    assert_eq!(dt.weekday(), chrono::Weekday::Wed);
    assert!(ev.start_ts >= now);
}

#[test]
fn until_in_past_drops_event() {
    let body = "BEGIN:VEVENT\r\n\
                DTSTART;TZID=Europe/Helsinki:20240101T100000\r\n\
                RRULE:FREQ=WEEKLY;UNTIL=20240601T000000Z\r\n\
                SUMMARY:x\r\n\
                END:VEVENT\r\n";
    let raw = parse_ics(body);
    let now = ts(2026, 4, 30, 12, 0);
    assert!(next_event(raw[0].clone(), now).is_none());
}

#[test]
fn exdate_skips_excluded_occurrence() {
    let body = "BEGIN:VEVENT\r\n\
                DTSTART;TZID=Europe/Helsinki:20260423T170000\r\n\
                RRULE:FREQ=WEEKLY\r\n\
                EXDATE;TZID=Europe/Helsinki:20260430T170000\r\n\
                SUMMARY:x\r\n\
                END:VEVENT\r\n";
    let raw = parse_ics(body);
    let now = ts(2026, 4, 24, 12, 0);
    let ev = next_event(raw[0].clone(), now).unwrap();
    assert_eq!(ev.start_ts, ts(2026, 5, 7, 17, 0));
}

#[test]
fn exdate_with_multiple_dates_on_one_line() {
    let body = "BEGIN:VEVENT\r\n\
                DTSTART;TZID=Europe/Helsinki:20260423T170000\r\n\
                RRULE:FREQ=WEEKLY\r\n\
                EXDATE;TZID=Europe/Helsinki:20260430T170000,20260507T170000\r\n\
                SUMMARY:x\r\n\
                END:VEVENT\r\n";
    let raw = parse_ics(body);
    let now = ts(2026, 4, 24, 12, 0);
    let ev = next_event(raw[0].clone(), now).unwrap();
    assert_eq!(ev.start_ts, ts(2026, 5, 14, 17, 0));
}

#[test]
fn non_recurring_past_event_kept_for_filter_to_drop() {
    let body = "BEGIN:VEVENT\r\n\
                DTSTART;TZID=Europe/Helsinki:20250101T100000\r\n\
                SUMMARY:x\r\n\
                END:VEVENT\r\n";
    let raw = parse_ics(body);
    let now = ts(2026, 4, 30, 12, 0);
    let ev = next_event(raw[0].clone(), now).unwrap();
    assert_eq!(ev.start_ts, ts(2025, 1, 1, 10, 0));
    assert!(ev.start_ts < now);
}

#[test]
fn byday_weekly_with_specific_days() {
    // DTSTART is a Monday but BYDAY names only Tuesday and Thursday.
    let body = "BEGIN:VEVENT\r\n\
                DTSTART;TZID=Europe/Helsinki:20260420T170000\r\n\
                RRULE:FREQ=WEEKLY;BYDAY=TU,TH\r\n\
                SUMMARY:x\r\n\
                END:VEVENT\r\n";
    let raw = parse_ics(body);
    let now = ts(2026, 4, 20, 18, 0);
    let ev = next_event(raw[0].clone(), now).unwrap();
    assert_eq!(ev.start_ts, ts(2026, 4, 21, 17, 0));
}

// ---------------------------------------------------------------------------
// Further cases
// ---------------------------------------------------------------------------

#[test]
fn unfold_joins_continuation_lines() {
    assert_eq!(unfold("SUMMARY:long\r\n  text\r\n\tmore\nA\n B\n\tC"), "SUMMARY:long textmore\nABC");
    assert_eq!(unfold("no breaks here"), "no breaks here");
    assert_eq!(unfold("a\r\nb"), "a\r\nb");
}

#[test]
fn unescape_undoes_escapes() {
    assert_eq!(unescape_text("a\\, b\\; c\\nd\\Ne"), "a, b; c d e");
    assert_eq!(unescape_text("plain"), "plain");
    assert_eq!(unescape_text("back\\\\slash"), "back\\\\slash");
}

#[test]
fn parse_dt_utc_local_and_date_forms() {
    assert_eq!(parse_dt("20250630T174000Z", ""), Some((1751305200, false)));
    assert_eq!(parse_dt("20250630T174000", "TZID=Europe/Helsinki"), Some((ts(2025, 6, 30, 17, 40), false)));
    assert_eq!(parse_dt("20250630", "VALUE=DATE"), Some((ts(2025, 6, 30, 0, 0), true)));
    assert_eq!(parse_dt("20250630", "VALUE=DATE-TIME"), Some((ts(2025, 6, 30, 0, 0), false)));
    assert_eq!(parse_dt("20250630", ""), Some((ts(2025, 6, 30, 0, 0), false)));
    assert_eq!(parse_dt("garbage", ""), None);
    // 03:30 on the spring-forward night does not occur in Helsinki.
    assert_eq!(parse_dt("20250330T033000", ""), None);
}

#[test]
fn dt_from_parsed_prefers_the_date_and_time() {
    let dt = CivilDateTime { date: CivilDate { year: 2025, month: 6, day: 30 }, hour: 17, minute: 40, second: 0 };
    let params: Vec<char> = "VALUE=DATE".chars().collect();
    assert_eq!(dt_from_parsed(&params, Some(dt), Some(100), true, Some(7)), Some((100, false)));
    assert_eq!(dt_from_parsed(&params, Some(dt), None, true, Some(7)), None);
    assert_eq!(dt_from_parsed(&params, None, None, true, Some(7)), Some((7, true)));
    assert_eq!(dt_from_parsed(&vec![], None, None, true, Some(7)), Some((7, false)));
    assert_eq!(dt_from_parsed(&params, None, None, true, None), None);
    assert_eq!(dt_from_parsed(&params, None, None, false, Some(7)), None);
}

#[test]
fn incomplete_or_unclosed_blocks_give_no_event() {
    let no_summary = "BEGIN:VEVENT\nDTSTART:20250101T100000Z\nEND:VEVENT\n";
    assert!(parse_ics(no_summary).is_empty());
    let unclosed = "BEGIN:VEVENT\nDTSTART:20250101T100000Z\nSUMMARY:x\n";
    assert!(parse_ics(unclosed).is_empty());
    let outside = "SUMMARY:x\nDTSTART:20250101T100000Z\n";
    assert!(parse_ics(outside).is_empty());
    assert!(parse_ics("").is_empty());
}

#[test]
fn folded_and_escaped_summary_and_all_day_event() {
    let body = "BEGIN:VEVENT\nDTSTART;VALUE=DATE:20260501\nSUMMARY:Vappu\\, picnic\n  in the park\nEND:VEVENT\n\
                BEGIN:VEVENT\nSUMMARY:second\nDTSTART:20260502T080000Z\nEND:VEVENT";
    let raw = parse_ics(body);
    assert_eq!(raw.len(), 2);
    assert_eq!(raw[0].summary, "Vappu, picnic in the park");
    assert!(raw[0].all_day);
    assert_eq!(raw[0].start_ts, ts(2026, 5, 1, 0, 0));
    assert!(raw[0].rrule_input.is_none());
    assert_eq!(raw[1].summary, "second");
    assert!(!raw[1].all_day);
    assert_eq!(raw[1].start_ts, 1777708800);
}

#[test]
fn recurrence_input_carries_dtstart_rrule_and_exdates() {
    let body = "BEGIN:VEVENT\r\nDTSTART;TZID=Europe/Helsinki:20260423T170000\r\nEXDATE:20260430T140000Z\r\n\
                RRULE:FREQ=WEEKLY\r\nEXDATE:20260507T140000Z\r\nSUMMARY:x\r\nEND:VEVENT\r\n";
    let raw = parse_ics(body);
    assert_eq!(
        raw[0].rrule_input.as_deref(),
        Some("DTSTART;TZID=Europe/Helsinki:20260423T170000\nRRULE:FREQ=WEEKLY\nEXDATE:20260430T140000Z\nEXDATE:20260507T140000Z")
    );
}

#[test]
fn unreadable_recurrence_drops_event() {
    let body = "BEGIN:VEVENT\nDTSTART:20260423T170000Z\nRRULE:FREQ=SOMETIMES\nSUMMARY:x\nEND:VEVENT\n";
    let raw = parse_ics(body);
    assert_eq!(raw.len(), 1);
    assert!(next_event(raw[0].clone(), 0).is_none());
}

#[test]
fn one_event_per_complete_block_in_order() {
    let body = "X-OUTSIDE:1\nBEGIN:VEVENT\nSUMMARY:first\nDTSTART:20260101T100000Z\nEND:VEVENT\n\
                SUMMARY:stray\nBEGIN:VEVENT\nSUMMARY:no start\nEND:VEVENT\n\
                BEGIN:VEVENT\nDTSTART:20260102T100000Z\nSUMMARY:second\nEND:VEVENT\nTRAILER:x\n";
    let raws = parse_ics(body);
    let names: Vec<&str> = raws.iter().map(|e| e.summary.as_str()).collect();
    assert_eq!(names, vec!["first", "second"]);
    assert_eq!(raws[0].start_ts, 1767261600);
}

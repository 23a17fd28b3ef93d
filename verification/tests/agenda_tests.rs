use info_radiator::agenda::{event_from_occurrences, first_upcoming, upcoming_events, Event};
use info_radiator::ical::{parse_ics, EventRaw};

fn ev(summary: &str, start_ts: i64) -> Event {
    Event { summary: summary.to_string(), start_ts, all_day: false }
}

fn raw(summary: &str, start_ts: i64, recurring: bool) -> EventRaw {
    EventRaw {
        summary: summary.to_string(),
        start_ts,
        all_day: true,
        rrule_input: if recurring { Some("DTSTART:20260101T000000Z\nRRULE:FREQ=DAILY".to_string()) } else { None },
    }
}

#[test]
fn upcoming_keeps_future_sorted_stable_and_truncated() {
    let cands = vec![ev("late", 500), ev("past", 50), ev("a", 200), ev("b", 200), ev("early", 100), ev("now", 100)];
    let out = first_upcoming(cands, 100, 4);
    let names: Vec<&str> = out.iter().map(|e| e.summary.as_str()).collect();
    assert_eq!(names, vec!["early", "now", "a", "b"]);
}

#[test]
fn upcoming_with_count_zero_or_no_future_is_empty() {
    assert!(first_upcoming(vec![ev("a", 10)], 0, 0).is_empty());
    assert!(first_upcoming(vec![ev("a", 10)], 11, 3).is_empty());
    assert!(first_upcoming(vec![], 0, 3).is_empty());
}

#[test]
fn occurrences_pick_first_at_or_after_now() {
    let r = raw("x", 0, true);
    let occ = vec![10, 20, 30];
    assert_eq!(event_from_occurrences(r.clone(), Some(&occ), 20).unwrap().start_ts, 20);
    assert_eq!(event_from_occurrences(r.clone(), Some(&occ), 21).unwrap().start_ts, 30);
    assert!(event_from_occurrences(r.clone(), Some(&occ), 31).is_none());
    assert!(event_from_occurrences(r.clone(), None, 0).is_none());
    let single = raw("y", 7, false);
    let e = event_from_occurrences(single, None, 100).unwrap();
    assert_eq!((e.summary.as_str(), e.start_ts, e.all_day), ("y", 7, true));
}

#[test]
fn agenda_from_calendar_text() {
    let body = "BEGIN:VEVENT\nDTSTART:20260501T100000Z\nSUMMARY:later\nEND:VEVENT\n\
                BEGIN:VEVENT\nDTSTART:20200101T100000Z\nSUMMARY:past\nEND:VEVENT\n\
                BEGIN:VEVENT\nDTSTART:20260101T080000Z\nRRULE:FREQ=DAILY\nSUMMARY:daily\nEND:VEVENT\n";
    let raws = parse_ics(body);
    // 2026-04-30 12:00 UTC
    let now = 1777550400;
    let out = upcoming_events(raws, now, 3);
    let got: Vec<(&str, i64)> = out.iter().map(|e| (e.summary.as_str(), e.start_ts)).collect();
    // daily at 08:00 UTC: next is 2026-05-01 08:00 UTC
    assert_eq!(got, vec![("daily", 1777622400), ("later", 1777629600)]);
}

#[test]
fn agenda_holds_the_earliest_events() {
    let cands = vec![ev("e", 900), ev("b", 300), ev("d", 700), ev("a", 100), ev("c", 500)];
    let out = first_upcoming(cands, 0, 3);
    let starts: Vec<i64> = out.iter().map(|e| e.start_ts).collect();
    assert_eq!(starts, vec![100, 300, 500]);
    // every event left out starts no earlier than any event kept
    assert!(starts.iter().all(|&s| s <= 700));
}

#[test]
fn later_now_never_gives_an_earlier_start() {
    let r = raw("x", 0, true);
    let occ = vec![10, 20, 30, 40];
    let mut last = i64::MIN;
    for now in 0..=40 {
        let e = event_from_occurrences(r.clone(), Some(&occ), now).unwrap();
        assert!(e.start_ts >= now && e.start_ts >= last);
        last = e.start_ts;
    }
}

// The expansion is not stated to come out in time order: at the spring
// gap, local times that do not exist are moved an hour on.
#[test]
fn rrule_expansion_leaves_time_order_at_the_spring_gap() {
    let set: rrule::RRuleSet =
        "DTSTART;TZID=Europe/Helsinki:20260329T000000\nRRULE:FREQ=DAILY;COUNT=4;BYHOUR=3,4;BYMINUTE=0,30"
            .parse()
            .unwrap();
    let ts: Vec<i64> = set.all(10).dates.iter().map(|d| d.timestamp()).collect();
    assert_eq!(ts.len(), 4);
    assert!(ts.windows(2).any(|w| w[0] > w[1]));
}

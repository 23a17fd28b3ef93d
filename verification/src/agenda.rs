//! From raw calendar events to the agenda: the next occurrence of each event
//! (recurrences are expanded by the `rrule` crate) and the choice of the
//! first upcoming events in time order.
use vstd::prelude::*;

use crate::ical::{text_lines, EventRaw, EventRawModel};
use crate::text::has_char;

verus! {

/// An event to show: its summary, its (next) start, and whether it lasts
/// all day.
#[derive(Clone, Debug)]
pub struct Event {
    pub summary: String,
    pub start_ts: i64,
    pub all_day: bool,
}

pub struct EventModel {
    pub summary: Seq<char>,
    pub start_ts: i64,
    pub all_day: bool,
}

impl View for Event {
    type V = EventModel;

    open spec fn view(&self) -> EventModel {
        EventModel { summary: self.summary@, start_ts: self.start_ts, all_day: self.all_day }
    }
}

pub open spec fn event_views(v: Seq<Event>) -> Seq<EventModel> {
    v.map_values(|e: Event| e@)
}

/// How many occurrences of a recurring event are expanded at most.
pub const OCCURRENCE_LIMIT: u16 = 5000;

// ---------------------------------------------------------------------------
// The next occurrence
// ---------------------------------------------------------------------------

/// The first of `occ[i..]` that is at or after `now`.
pub open spec fn first_at_or_after_from(occ: Seq<i64>, now: i64, i: int) -> Option<i64>
    decreases occ.len() - i,
{
    if i < 0 || i >= occ.len() {
        None
    } else if occ[i] >= now {
        Some(occ[i])
    } else {
        first_at_or_after_from(occ, now, i + 1)
    }
}

/// The first occurrence, in the order given, that is at or after `now`.
pub open spec fn first_at_or_after(occ: Seq<i64>, now: i64) -> Option<i64> {
    first_at_or_after_from(occ, now, 0)
}

/// The event that `raw` gives at time `now`, given the expansion of its
/// recurrence (`None` when the recurrence could not be read). A single event
/// keeps its start, whether past or not; a recurring one starts at its first
/// occurrence at or after `now`, and is dropped when there is none.
pub open spec fn spec_event_from_occurrences(
    raw: EventRawModel,
    occurrences: Option<Seq<i64>>,
    now: i64,
) -> Option<EventModel> {
    match raw.rrule_input {
        None => Some(EventModel { summary: raw.summary, start_ts: raw.start_ts, all_day: raw.all_day }),
        Some(_) => match occurrences {
            None => None,
            Some(occ) => match first_at_or_after(occ, now) {
                Some(ts) => Some(EventModel { summary: raw.summary, start_ts: ts, all_day: raw.all_day }),
                None => None,
            },
        },
    }
}

/// `s` begins with `p`.
pub open spec fn starts_with(s: Seq<char>, p: Seq<char>) -> bool {
    p.len() <= s.len() && s.take(p.len() as int) == p
}

/// A recurrence line whose times do not depend on the machine's time zone:
/// an `RRULE` line, a `DTSTART` or `EXDATE` line whose first parameter names
/// a zone, or a `DTSTART` or `EXDATE` line holding one UTC time (ending in
/// `Z`).
pub open spec fn zoned_line(l: Seq<char>) -> bool {
    ||| starts_with(l, "RRULE:"@)
    ||| starts_with(l, "DTSTART;TZID="@)
    ||| starts_with(l, "EXDATE;TZID="@)
    ||| (starts_with(l, "DTSTART:"@) || starts_with(l, "EXDATE:"@)) && l.len() > 0 && l.last()
        == 'Z' && !has_char(l, ',')
}

/// Every line of a recurrence text is zoned, so that `rrule` never reads a
/// time in the machine's local zone and the expansion depends on the text
/// alone.
pub open spec fn zoned(input: Seq<char>) -> bool {
    forall|i: int| 0 <= i < text_lines(input).len() ==> #[trigger] zoned_line(text_lines(input)[i])
}

/// The timestamps, in the order `rrule` yields them, of the first `limit`
/// occurrences of a recurrence text (`DTSTART`, `RRULE` and `EXDATE` lines),
/// or `None` when `rrule` refuses the text.
pub uninterp spec fn rrule_occurrences_of(input: Seq<char>, limit: u16) -> Option<Seq<i64>>;

pub open spec fn opt_vec_view(o: Option<Vec<i64>>) -> Option<Seq<i64>> {
    match o {
        Some(v) => Some(v@),
        None => None,
    }
}

/// `outcome` is what `raw` gives at `now` for some expansion of its
/// recurrence into at most `OCCURRENCE_LIMIT` occurrences; when the
/// recurrence text is zoned, it is what the expansion by `rrule` gives.
pub open spec fn next_event_outcome(
    raw: EventRawModel,
    outcome: Option<EventModel>,
    now: i64,
) -> bool {
    &&& exists|occ: Option<Seq<i64>>|
        (occ matches Some(o) ==> o.len() <= OCCURRENCE_LIMIT) && #[trigger] spec_event_from_occurrences(
            raw,
            occ,
            now,
        ) == outcome
    &&& (zoned_recurrence(raw) ==> outcome == spec_event_from_occurrences(
        raw,
        rrule_expansion(raw),
        now,
    ))
}

/// The event recurs, and its recurrence text is zoned.
pub open spec fn zoned_recurrence(raw: EventRawModel) -> bool {
    match raw.rrule_input {
        Some(s) => zoned(pinned_recurrence(s)),
        None => false,
    }
}

/// The expansion by `rrule` of the event's recurrence text, with its local
/// times pinned to Helsinki, if it recurs.
pub open spec fn rrule_expansion(raw: EventRawModel) -> Option<Seq<i64>> {
    match raw.rrule_input {
        Some(s) => rrule_occurrences_of(pinned_recurrence(s), OCCURRENCE_LIMIT),
        None => None,
    }
}

/// The zone parameter that pins a local time to the display's zone.
pub open spec fn helsinki_tzid() -> Seq<char> {
    ";TZID=Europe/Helsinki"@
}

/// A `DTSTART` or `EXDATE` line whose times are local: it names no zone and
/// is not a line with one UTC time.
pub open spec fn floating_line(l: Seq<char>) -> bool {
    &&& ((starts_with(l, "DTSTART"@) && l.len() > 7 && (l[7] == ';' || l[7] == ':')) || (
    starts_with(l, "EXDATE"@) && l.len() > 6 && (l[6] == ';' || l[6] == ':')))
    &&& !crate::text::contains(l, "TZID"@)
    &&& !zoned_line(l)
}

/// A recurrence line with its local times pinned to Helsinki: a floating
/// `DTSTART` or `EXDATE` line gets `;TZID=Europe/Helsinki` after its name;
/// any other line stays.
pub open spec fn pinned_line(l: Seq<char>) -> Seq<char> {
    if !floating_line(l) {
        l
    } else if starts_with(l, "DTSTART"@) {
        "DTSTART"@ + helsinki_tzid() + l.skip(7)
    } else {
        "EXDATE"@ + helsinki_tzid() + l.skip(6)
    }
}

pub open spec fn is_ascii_text(s: Seq<char>) -> bool {
    forall|i: int| 0 <= i < s.len() ==> (#[trigger] s[i]) as u32 <= 127
}

/// `c` is the ASCII letter `upper` in either case.
pub open spec fn either_case(c: char, upper: char) -> bool {
    c == upper || c as u32 == upper as u32 + 32
}

pub open spec fn until_at(s: Seq<char>, i: int) -> bool {
    &&& 0 <= i && i + 5 <= s.len()
    &&& either_case(s[i], 'U') && either_case(s[i + 1], 'N') && either_case(s[i + 2], 'T')
    &&& either_case(s[i + 3], 'I') && either_case(s[i + 4], 'L')
}

/// The text holds `UNTIL` in some mix of cases.
pub open spec fn names_until(s: Seq<char>) -> bool {
    exists|i: int| #[trigger] until_at(s, i)
}

/// The recurrence text that is handed to `rrule`. The display reads local
/// times as Helsinki time (the program runs with `TZ=Europe/Helsinki`, and
/// `rrule` reads a time without a zone in the local zone), so when the
/// text, all ASCII and without an `UNTIL` (whose local form `rrule` accepts
/// only with a local start), has a floating `DTSTART` or `EXDATE` line,
/// those lines name Helsinki; any other text is handed on as it is.
pub open spec fn pinned_recurrence(s: Seq<char>) -> Seq<char> {
    let lines = text_lines(s);
    if is_ascii_text(s) && !names_until(s) && exists|i: int|
        0 <= i < lines.len() && floating_line(#[trigger] lines[i]) {
        crate::text::join(lines.map_values(|l: Seq<char>| pinned_line(l)), "\n"@)
    } else {
        s
    }
}

/// A zoned text is handed to `rrule` unchanged.
pub proof fn lemma_zoned_text_not_pinned(s: Seq<char>)
    requires
        zoned(s),
    ensures
        pinned_recurrence(s) == s,
{
    let lines = text_lines(s);
    assert forall|i: int| 0 <= i < lines.len() implies !floating_line(#[trigger] lines[i]) by {
        assert(zoned_line(text_lines(s)[i]));
    }
}

fn starts_with_exec(l: &Vec<char>, p: &str) -> (b: bool)
    ensures
        b == starts_with(l@, p@),
{
    let pv = crate::text::chars_of(p);
    let b = crate::text::occurs_at_exec(l, 0, &pv);
    proof {
        if pv@.len() <= l@.len() {
            assert(l@.take(pv@.len() as int) =~= l@.subrange(0, pv@.len() as int));
        }
    }
    b
}

fn zoned_line_exec(l: &Vec<char>) -> (b: bool)
    ensures
        b == zoned_line(l@),
{
    let c = crate::text::find_char_from(l, ',', 0);
    proof {
        crate::text::lemma_find_from_char(l@, ',', 0);
        if has_char(l@, ',') {
            let j = choose|j: int| 0 <= j < l@.len() && l@[j] == ',';
            assert(c <= j);
        }
    }
    let utc_one = l.len() > 0 && l[l.len() - 1] == 'Z' && c == l.len();
    starts_with_exec(l, "RRULE:") || starts_with_exec(l, "DTSTART;TZID=") || starts_with_exec(
        l,
        "EXDATE;TZID=",
    ) || ((starts_with_exec(l, "DTSTART:") || starts_with_exec(l, "EXDATE:")) && utc_one)
}

fn floating_line_exec(l: &Vec<char>) -> (b: bool)
    ensures
        b == floating_line(l@),
{
    let dt = starts_with_exec(l, "DTSTART") && l.len() > 7 && (l[7] == ';' || l[7] == ':');
    let ex = starts_with_exec(l, "EXDATE") && l.len() > 6 && (l[6] == ';' || l[6] == ':');
    (dt || ex) && !crate::text::contains_chars(l, &crate::text::chars_of("TZID"))
        && !zoned_line_exec(l)
}

fn pinned_line_exec(l: &Vec<char>) -> (r: Vec<char>)
    ensures
        r@ == pinned_line(l@),
{
    let n = l.len();
    if !floating_line_exec(l) {
        let r = crate::text::sub_chars(l, 0, n);
        assert(r@ =~= l@);
        return r;
    }
    if starts_with_exec(l, "DTSTART") {
        let mut r = crate::text::chars_of("DTSTART");
        crate::text::append_chars(&mut r, &crate::text::chars_of(";TZID=Europe/Helsinki"));
        crate::text::append_chars(&mut r, &crate::text::sub_chars(l, 7, n));
        assert(l@.subrange(7, n as int) =~= l@.skip(7));
        r
    } else {
        let mut r = crate::text::chars_of("EXDATE");
        crate::text::append_chars(&mut r, &crate::text::chars_of(";TZID=Europe/Helsinki"));
        crate::text::append_chars(&mut r, &crate::text::sub_chars(l, 6, n));
        assert(l@.subrange(6, n as int) =~= l@.skip(6));
        r
    }
}

fn either_case_exec(c: char, upper: char) -> (b: bool)
    ensures
        b == either_case(c, upper),
{
    c == upper || (c as u32) == (upper as u32) + 32
}

/// The recurrence text of an event with its local times pinned to Helsinki
/// (see `pinned_recurrence`).
pub fn pin_recurrence(input: &str) -> (r: String)
    ensures
        r@ == pinned_recurrence(input@),
{
    let s = crate::text::chars_of(input);
    let n = s.len();
    let mut i: usize = 0;
    while i < n
        invariant
            n == s@.len(),
            s@ == input@,
            i <= n,
            forall|k: int| 0 <= k < i ==> (#[trigger] s@[k]) as u32 <= 127,
        decreases n - i,
    {
        if (s[i] as u32) > 127 {
            assert(!is_ascii_text(s@)) by {
                assert((s@[i as int]) as u32 > 127);
            }
            return crate::text::string_of(&s);
        }
        i = i + 1;
    }
    assert(is_ascii_text(s@));
    let mut j: usize = 0;
    while n >= 5 && j <= n - 5
        invariant
            n == s@.len(),
            s@ == input@,
            forall|k: int| 0 <= k < j ==> !#[trigger] until_at(s@, k),
        decreases n - j,
    {
        if either_case_exec(s[j], 'U') && either_case_exec(s[j + 1], 'N') && either_case_exec(
            s[j + 2],
            'T',
        ) && either_case_exec(s[j + 3], 'I') && either_case_exec(s[j + 4], 'L') {
            assert(until_at(s@, j as int));
            return crate::text::string_of(&s);
        }
        j = j + 1;
    }
    assert(!names_until(s@)) by {
        assert forall|k: int| !#[trigger] until_at(s@, k) by {
            if until_at(s@, k) {
                assert(k < j);
            }
        }
    }
    let lines = split_lines_of(&s);
    let ghost lv = text_lines(s@);
    let m = lines.len();
    let mut any = false;
    let mut mapped: Vec<Vec<char>> = Vec::new();
    let mut k: usize = 0;
    while k < m
        invariant
            m == lines@.len(),
            lv == crate::ical::char_views(lines@),
            k <= m,
            mapped@.len() == k,
            forall|q: int| 0 <= q < k ==> #[trigger] mapped@[q]@ == pinned_line(lv[q]),
            any == exists|q: int| 0 <= q < k && floating_line(#[trigger] lv[q]),
        decreases m - k,
    {
        assert(lv[k as int] == lines@[k as int]@);
        let f = floating_line_exec(&lines[k]);
        let pl = pinned_line_exec(&lines[k]);
        mapped.push(pl);
        proof {
            if f {
                assert(floating_line(lv[k as int]));
            }
            if any {
                let q = choose|q: int| 0 <= q < k && floating_line(#[trigger] lv[q]);
                assert(0 <= q < k + 1 && floating_line(lv[q]));
            }
            if exists|q: int| 0 <= q < k + 1 && floating_line(#[trigger] lv[q]) {
                let q = choose|q: int| 0 <= q < k + 1 && floating_line(#[trigger] lv[q]);
                if q < k {
                    assert(any);
                } else {
                    assert(f);
                }
            }
        }
        any = any || f;
        k = k + 1;
    }
    if !any {
        return crate::text::string_of(&s);
    }
    let joined = crate::text::join_chars(&mapped, &crate::text::chars_of("\n"));
    assert(mapped@.map_values(|p: Vec<char>| p@) =~= lv.map_values(|l: Seq<char>| pinned_line(l)));
    crate::text::string_of(&joined)
}

fn split_lines_of(s: &Vec<char>) -> (lines: Vec<Vec<char>>)
    ensures
        crate::ical::char_views(lines@) == text_lines(s@),
{
    crate::ical::split_lines(s)
}

pub open spec fn opt_event_view(o: Option<Event>) -> Option<EventModel> {
    match o {
        Some(e) => Some(e@),
        None => None,
    }
}

/// Calls `RRuleSet::from_str` on a recurrence text and `RRuleSet::all` with
/// the given limit, and takes the Unix timestamp of each date; a text that
/// does not parse gives `None`. What is trusted: at most `limit` dates come
/// back (`all` stops collecting at the limit), and for a zoned text the
/// result is a function of the text and the limit. A time without a zone is
/// read in the machine's local zone, so nothing more is stated of other
/// texts.
#[verifier::external_body]
fn rrule_occurrences(input: &str, limit: u16) -> (r: Option<Vec<i64>>)
    ensures
        r matches Some(v) ==> v@.len() <= limit,
        zoned(input@) ==> opt_vec_view(r) == rrule_occurrences_of(input@, limit),
{
    match input.parse::<rrule::RRuleSet>() {
        Ok(set) => Some(set.all(limit).dates.iter().map(|d| d.timestamp()).collect()),
        Err(_) => None,
    }
}

/// The first of the occurrences, in the order given, at or after `now`.
pub fn first_occurrence_at_or_after(occ: &Vec<i64>, now: i64) -> (r: Option<i64>)
    ensures
        r == first_at_or_after(occ@, now),
{
    let mut i: usize = 0;
    while i < occ.len()
        invariant
            i <= occ.len(),
            first_at_or_after_from(occ@, now, i as int) == first_at_or_after(occ@, now),
        decreases occ.len() - i,
    {
        if occ[i] >= now {
            return Some(occ[i]);
        }
        i = i + 1;
    }
    None
}

/// The event that `raw` gives at time `now`, given the expansion of its
/// recurrence (`None` when the recurrence could not be read).
pub fn event_from_occurrences(raw: EventRaw, occurrences: Option<&Vec<i64>>, now: i64) -> (r:
    Option<Event>)
    ensures
        opt_event_view(r) == spec_event_from_occurrences(
            raw@,
            match occurrences {
                Some(v) => Some(v@),
                None => None,
            },
            now,
        ),
{
    match raw.rrule_input {
        None => Some(Event { summary: raw.summary, start_ts: raw.start_ts, all_day: raw.all_day }),
        Some(_) => match occurrences {
            None => None,
            Some(occ) => match first_occurrence_at_or_after(occ, now) {
                Some(ts) => Some(Event { summary: raw.summary, start_ts: ts, all_day: raw.all_day }),
                None => None,
            },
        },
    }
}

/// The event that `raw` gives at time `now`: a single event as it is; a
/// recurring one at its first occurrence (of the first 5000) at or after
/// `now`, or `None` when there is none or the recurrence cannot be read. The
/// recurrence text goes to `rrule` with its local times pinned to Helsinki
/// (see `pinned_recurrence`).
pub fn next_event(raw: EventRaw, now: i64) -> (r: Option<Event>)
    ensures
        next_event_outcome(raw@, opt_event_view(r), now),
        raw.rrule_input is None ==> opt_event_view(r) == Some(
            EventModel { summary: raw@.summary, start_ts: raw.start_ts, all_day: raw.all_day },
        ),
        r matches Some(e) ==> e.summary@ == raw.summary@ && e.all_day == raw.all_day,
        raw.rrule_input is Some ==> (r matches Some(e) ==> e.start_ts >= now),
        zoned_recurrence(raw@) ==> opt_event_view(r) == spec_event_from_occurrences(
            raw@,
            rrule_expansion(raw@),
            now,
        ),
{
    let ghost rv = raw@;
    let occ = match &raw.rrule_input {
        Some(input) => {
            let pinned = pin_recurrence(input.as_str());
            rrule_occurrences(pinned.as_str(), OCCURRENCE_LIMIT)
        },
        None => None,
    };
    let ghost occ_view = match &occ {
        Some(v) => Some(v@),
        None => None::<Seq<i64>>,
    };
    let r = match &occ {
        Some(v) => event_from_occurrences(raw, Some(v), now),
        None => event_from_occurrences(raw, None, now),
    };
    proof {
        assert(spec_event_from_occurrences(rv, occ_view, now) == opt_event_view(r));
        if let Some(o) = occ_view {
            lemma_first_at_or_after(o, now, 0);
        }
    }
    r
}

/// The occurrence found from index `i` on is at or after `now`, and is one of
/// the occurrences from `i` on.
pub proof fn lemma_first_at_or_after(occ: Seq<i64>, now: i64, i: int)
    requires
        0 <= i,
    ensures
        first_at_or_after_from(occ, now, i) matches Some(t) ==> t >= now && exists|j: int|
            i <= j < occ.len() && occ[j] == t,
    decreases occ.len() - i,
{
    if i < occ.len() && occ[i] < now {
        lemma_first_at_or_after(occ, now, i + 1);
    }
}

/// The occurrences are in time order.
pub open spec fn in_time_order(o: Seq<i64>) -> bool {
    forall|a: int, b: int| 0 <= a <= b < o.len() ==> o[a] <= o[b]
}

proof fn lemma_first_at_or_after_monotone(o: Seq<i64>, now1: i64, now2: i64, i: int)
    requires
        0 <= i,
        now1 <= now2,
        in_time_order(o),
    ensures
        first_at_or_after_from(o, now2, i) matches Some(t2) ==> (first_at_or_after_from(o, now1, i)
            matches Some(t1) && t1 <= t2),
    decreases o.len() - i,
{
    if i < o.len() {
        if o[i] < now1 {
            lemma_first_at_or_after_monotone(o, now1, now2, i + 1);
        } else if o[i] < now2 {
            lemma_first_at_or_after(o, now2, i + 1);
        }
    }
}

/// On one expansion in time order, a later `now` never gives an earlier
/// event: when the event still has an occurrence at `now2`, it has one at
/// any earlier `now1`, no later than that one, with the same summary and
/// all-day flag.
pub proof fn lemma_event_from_occurrences_monotone(
    raw: EventRawModel,
    occ: Option<Seq<i64>>,
    now1: i64,
    now2: i64,
)
    requires
        now1 <= now2,
        occ matches Some(o) ==> in_time_order(o),
    ensures
        spec_event_from_occurrences(raw, occ, now2) matches Some(e2) ==> (spec_event_from_occurrences(
            raw,
            occ,
            now1,
        ) matches Some(e1) && e1.start_ts <= e2.start_ts && e1.summary == e2.summary && e1.all_day
            == e2.all_day && (raw.rrule_input is Some ==> now1 <= e1.start_ts)),
{
    if let Some(o) = occ {
        lemma_first_at_or_after_monotone(o, now1, now2, 0);
        lemma_first_at_or_after(o, now1, 0);
    }
}

/// What `next_event` gives at a later `now` is never earlier, for a zoned
/// recurrence whose expansion comes out in time order: when the event still
/// has an occurrence at `now2`, it has one at any earlier `now1`, at or after
/// `now1` and no later than the one at `now2`, with the event's summary and
/// all-day flag.
pub proof fn lemma_next_event_monotone(
    raw: EventRawModel,
    o1: Option<EventModel>,
    o2: Option<EventModel>,
    now1: i64,
    now2: i64,
)
    requires
        now1 <= now2,
        zoned_recurrence(raw),
        rrule_expansion(raw) matches Some(o) ==> in_time_order(o),
        next_event_outcome(raw, o1, now1),
        next_event_outcome(raw, o2, now2),
    ensures
        o2 matches Some(e2) ==> (o1 matches Some(e1) && now1 <= e1.start_ts <= e2.start_ts
            && e1.summary == raw.summary && e2.summary == raw.summary && e1.all_day == raw.all_day
            && e2.all_day == raw.all_day),
{
    lemma_event_from_occurrences_monotone(raw, rrule_expansion(raw), now1, now2);
}

/// An all-day recurring event (a `DTSTART;VALUE=DATE:` line with an
/// eight-digit date, then an `RRULE:` line, and no `UNTIL`) has its start
/// pinned to Helsinki, so `rrule` expands it the same on every machine and
/// its next event is the first occurrence at or after `now` (see
/// `lemma_next_event_is_first_occurrence`).
pub proof fn lemma_all_day_recurrence_pinned(d: Seq<char>, r: Seq<char>)
    requires
        d.len() == 8,
        forall|k: int| 0 <= k < 8 ==> '0' <= #[trigger] d[k] <= '9',
        forall|k: int| 0 <= k < r.len() ==> (#[trigger] r[k]) as u32 <= 127 && r[k] != '\n',
        !names_until("DTSTART;VALUE=DATE:"@ + d + "\n"@ + "RRULE:"@ + r),
    ensures
        pinned_recurrence("DTSTART;VALUE=DATE:"@ + d + "\n"@ + "RRULE:"@ + r) == "DTSTART;TZID=Europe/Helsinki;VALUE=DATE:"@
            + d + "\n"@ + "RRULE:"@ + r,
        zoned(pinned_recurrence("DTSTART;VALUE=DATE:"@ + d + "\n"@ + "RRULE:"@ + r)),
{
    reveal_strlit("DTSTART;VALUE=DATE:");
    reveal_strlit("DTSTART;TZID=Europe/Helsinki;VALUE=DATE:");
    reveal_strlit(";TZID=Europe/Helsinki");
    reveal_strlit("\n");
    reveal_strlit("RRULE:");
    reveal_strlit("DTSTART");
    reveal_strlit("EXDATE");
    reveal_strlit("TZID");
    reveal_strlit("DTSTART;TZID=");
    reveal_strlit("EXDATE;TZID=");
    reveal_strlit("DTSTART:");
    reveal_strlit("EXDATE:");
    let pre = "DTSTART;VALUE=DATE:"@;
    let a = pre + d;
    let b = "RRULE:"@ + r;
    let text = pre + d + "\n"@ + "RRULE:"@ + r;
    assert("\n"@ =~= seq!['\n']);
    assert(text =~= a + seq!['\n'] + b);
    assert(pre.len() == 19);
    assert(a.len() == 27);
    assert forall|k: int| 0 <= k < a.len() implies #[trigger] a[k] != '\n' && a[k] != 'Z' && (
    a[k] as u32) <= 127 by {
        if k < 19 {
            assert(a[k] == pre[k]);
        } else {
            assert(a[k] == d[k - 19]);
        }
    }
    assert forall|k: int| 0 <= k < b.len() implies #[trigger] b[k] != '\n' && (b[k] as u32) <= 127 by {
        if k >= 6 {
            assert(b[k] == r[k - 6]);
        }
    }
    assert(a.last() == d[7]);
    crate::ical::lemma_two_lines(a, b);
    let lines = text_lines(text);
    assert(lines == seq![a, b]);
    // the start line is floating, the rule line is not
    assert(a.take(7) =~= "DTSTART"@);
    assert(a[7] == ';');
    assert(a[8] == 'V');
    assert(!crate::text::contains(a, "TZID"@)) by {
        if crate::text::contains(a, "TZID"@) {
            let i = choose|i: int| crate::text::occurs_at(a, i, "TZID"@);
            assert(a.subrange(i, i + 4)[1] == a[i + 1]);
            assert("TZID"@[1] == 'Z');
        }
    }
    assert(!starts_with(a, "RRULE:"@)) by {
        assert(a.take(6)[0] == a[0]);
    }
    assert(!starts_with(a, "DTSTART;TZID="@)) by {
        assert(a.take(13)[8] == a[8]);
    }
    assert(!starts_with(a, "EXDATE;TZID="@)) by {
        assert(a.take(12)[0] == a[0]);
    }
    assert(!starts_with(a, "DTSTART:"@)) by {
        assert(a.take(8)[7] == a[7]);
    }
    assert(!starts_with(a, "EXDATE:"@)) by {
        assert(a.take(7)[0] == a[0]);
    }
    assert(floating_line(a));
    assert(!starts_with(b, "DTSTART"@)) by {
        if b.len() >= 7 {
            assert(b.take(7)[0] == b[0]);
        }
    }
    assert(!starts_with(b, "EXDATE"@)) by {
        assert(b.take(6)[0] == b[0]);
    }
    assert(!floating_line(b));
    assert(b.take(6) =~= "RRULE:"@);
    assert(zoned_line(b));
    let pa = "DTSTART"@ + helsinki_tzid() + a.skip(7);
    assert(pinned_line(a) == pa);
    assert(pinned_line(b) == b);
    assert(is_ascii_text(text)) by {
        assert forall|k: int| 0 <= k < text.len() implies (#[trigger] text[k]) as u32 <= 127 by {
            if k < 27 {
                assert(text[k] == a[k]);
            } else if k > 27 {
                assert(text[k] == b[k - 28]);
            }
        }
    }
    assert(floating_line(lines[0]));
    let mapped = lines.map_values(|l: Seq<char>| pinned_line(l));
    assert(mapped =~= seq![pa, b]);
    assert(crate::text::join(seq![pa, b], "\n"@) == crate::text::join(seq![pa], "\n"@) + "\n"@ + b)
        by {
        assert(seq![pa, b].drop_last() =~= seq![pa]);
    }
    assert(pa =~= "DTSTART;TZID=Europe/Helsinki;VALUE=DATE:"@ + d);
    let pinned = pa + seq!['\n'] + b;
    assert(pinned_recurrence(text) =~= pinned);
    // the pinned text is zoned
    assert(pa.len() == 48);
    assert forall|k: int| 0 <= k < pa.len() implies #[trigger] pa[k] != '\n' by {
        if k >= 40 {
            assert(pa[k] == d[k - 40]);
        } else {
            assert(pa[k] == "DTSTART;TZID=Europe/Helsinki;VALUE=DATE:"@[k]);
        }
    }
    assert(pa.last() == d[7]);
    crate::ical::lemma_two_lines(pa, b);
    assert(pa.take(13) =~= "DTSTART;TZID="@);
    assert(zoned_line(pa));
    assert(text_lines(pinned) == seq![pa, b]);
}

proof fn lemma_first_at_or_after_index(occ: Seq<i64>, now: i64, i: int)
    requires
        0 <= i,
    ensures
        first_at_or_after_from(occ, now, i) is None <==> forall|k: int|
            i <= k < occ.len() ==> #[trigger] occ[k] < now,
        first_at_or_after_from(occ, now, i) matches Some(t) ==> exists|j: int|
            i <= j < occ.len() && occ[j] == t && t >= now && forall|k: int|
                i <= k < j ==> #[trigger] occ[k] < now,
    decreases occ.len() - i,
{
    if i < occ.len() {
        lemma_first_at_or_after_index(occ, now, i + 1);
        if occ[i] >= now {
            assert(forall|k: int| i <= k < i ==> #[trigger] occ[k] < now);
        } else {
            if let Some(t) = first_at_or_after_from(occ, now, i + 1) {
                let j = choose|j: int|
                    i + 1 <= j < occ.len() && occ[j] == t && t >= now && forall|k: int|
                        i + 1 <= k < j ==> #[trigger] occ[k] < now;
                assert(forall|k: int| i <= k < j ==> #[trigger] occ[k] < now);
            }
        }
    }
}

/// For a recurrence that `rrule` expands the same on every machine (its
/// text zoned once local times are pinned to Helsinki, all-day starts
/// included), the next event is the first occurrence of `rrule`'s expansion,
/// in the order `rrule` gives, that is at or after `now`; there is none
/// exactly when `rrule` refuses the text or every occurrence is before
/// `now`. The event keeps its summary and all-day flag.
pub proof fn lemma_next_event_is_first_occurrence(
    raw: EventRawModel,
    o: Option<EventModel>,
    now: i64,
)
    requires
        zoned_recurrence(raw),
        next_event_outcome(raw, o, now),
    ensures
        o is None <==> match rrule_expansion(raw) {
            None => true,
            Some(occ) => forall|k: int| 0 <= k < occ.len() ==> #[trigger] occ[k] < now,
        },
        o matches Some(e) ==> (rrule_expansion(raw) matches Some(occ) && exists|j: int|
            0 <= j < occ.len() && occ[j] == e.start_ts && e.start_ts >= now && forall|k: int|
                0 <= k < j ==> #[trigger] occ[k] < now),
        o matches Some(e) ==> e.summary == raw.summary && e.all_day == raw.all_day,
{
    if let Some(occ) = rrule_expansion(raw) {
        lemma_first_at_or_after_index(occ, now, 0);
    }
}

// ---------------------------------------------------------------------------
// The first upcoming events in time order
// ---------------------------------------------------------------------------

/// The events that start at or after `now`, in their order.
pub open spec fn keep_upcoming(s: Seq<EventModel>, now: i64) -> Seq<EventModel> {
    s.filter(starts_at_or_after(now))
}

/// The event starts at or after `now`.
pub open spec fn starts_at_or_after(now: i64) -> spec_fn(EventModel) -> bool {
    |e: EventModel| e.start_ts >= now
}

/// `e` inserted into `s` after every event that starts no later than it.
pub open spec fn insert_by_start(s: Seq<EventModel>, e: EventModel) -> Seq<EventModel>
    decreases s.len(),
{
    if s.len() == 0 {
        seq![e]
    } else if s.last().start_ts <= e.start_ts {
        s.push(e)
    } else {
        insert_by_start(s.drop_last(), e).push(s.last())
    }
}

/// `s` sorted by start time; events that start together keep their order
/// (a stable sort, as `sort_by_key` is).
pub open spec fn sort_by_start(s: Seq<EventModel>) -> Seq<EventModel>
    decreases s.len(),
{
    if s.len() == 0 {
        Seq::empty()
    } else {
        insert_by_start(sort_by_start(s.drop_last()), s.last())
    }
}

/// At most `count` of the events that start at or after `now`, earliest
/// first.
pub open spec fn spec_upcoming(s: Seq<EventModel>, now: i64, count: nat) -> Seq<EventModel> {
    let sorted = sort_by_start(keep_upcoming(s, now));
    if sorted.len() <= count {
        sorted
    } else {
        sorted.take(count as int)
    }
}

pub open spec fn sorted_by_start(s: Seq<EventModel>) -> bool {
    forall|i: int, j: int| 0 <= i < j < s.len() ==> s[i].start_ts <= s[j].start_ts
}

proof fn lemma_insert_by_start_at(s: Seq<EventModel>, e: EventModel, k: int)
    requires
        0 <= k <= s.len(),
        forall|j: int| k <= j < s.len() ==> s[j].start_ts > e.start_ts,
        k == 0 || s[k - 1].start_ts <= e.start_ts,
    ensures
        insert_by_start(s, e) == s.insert(k, e),
    decreases s.len(),
{
    if s.len() == 0 {
        assert(s.insert(k, e) =~= seq![e]);
    } else if k == s.len() {
        assert(s.insert(k, e) =~= s.push(e));
    } else {
        lemma_insert_by_start_at(s.drop_last(), e, k);
        assert(s.insert(k, e) =~= s.drop_last().insert(k, e).push(s.last()));
    }
}

proof fn lemma_insert_by_start_props(s: Seq<EventModel>, e: EventModel)
    requires
        sorted_by_start(s),
    ensures
        sorted_by_start(insert_by_start(s, e)),
        insert_by_start(s, e).to_multiset() == s.to_multiset().insert(e),
        insert_by_start(s, e).len() == s.len() + 1,
    decreases s.len(),
{
    broadcast use vstd::seq_lib::group_to_multiset_ensures;
    if s.len() == 0 {
        assert(seq![e] =~= Seq::<EventModel>::empty().push(e));
    } else if s.last().start_ts <= e.start_ts {
    } else {
        let t = s.drop_last();
        assert(sorted_by_start(t));
        lemma_insert_by_start_props(t, e);
        let u = insert_by_start(t, e);
        assert(s =~= t.push(s.last()));
        assert forall|j: int| 0 <= j < u.len() implies u[j].start_ts <= s.last().start_ts by {
            lemma_insert_by_start_members(t, e, j);
        }
    }
}

proof fn lemma_insert_by_start_len(s: Seq<EventModel>, e: EventModel)
    ensures
        insert_by_start(s, e).len() == s.len() + 1,
    decreases s.len(),
{
    if s.len() > 0 && s.last().start_ts > e.start_ts {
        lemma_insert_by_start_len(s.drop_last(), e);
    }
}

proof fn lemma_insert_by_start_members(s: Seq<EventModel>, e: EventModel, j: int)
    requires
        0 <= j < s.len() + 1,
    ensures
        insert_by_start(s, e)[j] == e || exists|k: int|
            0 <= k < s.len() && insert_by_start(s, e)[j] == s[k],
    decreases s.len(),
{
    lemma_insert_by_start_len(s, e);
    if s.len() > 0 && s.last().start_ts > e.start_ts {
        let t = s.drop_last();
        lemma_insert_by_start_len(t, e);
        if j < s.len() {
            lemma_insert_by_start_members(t, e, j);
            assert(insert_by_start(s, e)[j] == insert_by_start(t, e)[j]);
            if insert_by_start(t, e)[j] != e {
                let k = choose|k: int| 0 <= k < t.len() && insert_by_start(t, e)[j] == t[k];
                assert(s[k] == t[k]);
            }
        } else {
            assert(insert_by_start(s, e)[j] == s[s.len() - 1]);
        }
    } else if s.len() > 0 {
        if j < s.len() {
            assert(insert_by_start(s, e)[j] == s[j]);
        }
    }
}

/// Sorting by start time orders the events and keeps each of them.
pub proof fn lemma_sort_by_start(s: Seq<EventModel>)
    ensures
        sorted_by_start(sort_by_start(s)),
        sort_by_start(s).to_multiset() == s.to_multiset(),
        sort_by_start(s).len() == s.len(),
    decreases s.len(),
{
    broadcast use vstd::seq_lib::group_to_multiset_ensures;
    if s.len() > 0 {
        lemma_sort_by_start(s.drop_last());
        lemma_insert_by_start_props(sort_by_start(s.drop_last()), s.last());
        assert(s =~= s.drop_last().push(s.last()));
    }
}

/// Keeps the events that start at or after `now`, sorts them by start time
/// (events that start together keep their order) and returns the first
/// `count` of them.
pub fn first_upcoming(candidates: Vec<Event>, now: i64, count: usize) -> (r: Vec<Event>)
    ensures
        event_views(r@) == spec_upcoming(event_views(candidates@), now, count as nat),
{
    let ghost cand = event_views(candidates@);
    let ghost pred = starts_at_or_after(now);
    let mut rest = candidates;
    let mut sorted: Vec<Event> = Vec::new();
    let ghost mut i: int = 0;
    assert(keep_upcoming(cand.take(0), now) =~= Seq::<EventModel>::empty()) by {
        reveal(Seq::filter);
    }
    while rest.len() > 0
        invariant
            0 <= i <= cand.len(),
            rest.len() == cand.len() - i,
            event_views(rest@) == cand.skip(i),
            event_views(sorted@) == sort_by_start(keep_upcoming(cand.take(i), now)),
            pred == starts_at_or_after(now),
        decreases rest.len(),
    {
        let ghost rest_before = rest@;
        let e = rest.remove(0);
        proof {
            assert(event_views(rest_before)[0] == rest_before[0]@);
            assert(cand.skip(i)[0] == cand[i]);
            assert(e@ == cand[i]);
            assert forall|j: int| 0 <= j < rest@.len() implies event_views(rest@)[j] == cand.skip(
                i + 1,
            )[j] by {
                assert(rest@[j] == rest_before[j + 1]);
                assert(event_views(rest_before)[j + 1] == cand.skip(i)[j + 1]);
            }
            assert(cand.take(i + 1) =~= cand.take(i).push(e@));
            cand.take(i).lemma_filter_push(e@, pred);
            let kept = keep_upcoming(cand.take(i), now);
            assert(kept.push(e@).drop_last() =~= kept);
            assert(event_views(rest@) =~= cand.skip(i + 1));
        }
        if e.start_ts >= now {
            let ghost sv = event_views(sorted@);
            let mut k = sorted.len();
            while k > 0 && sorted[k - 1].start_ts > e.start_ts
                invariant
                    k <= sorted.len(),
                    sv == event_views(sorted@),
                    forall|j: int| k <= j < sorted.len() ==> sv[j].start_ts > e.start_ts,
                decreases k,
            {
                k = k - 1;
            }
            proof {
                lemma_insert_by_start_at(sv, e@, k as int);
            }
            let ghost ev = e@;
            sorted.insert(k, e);
            assert(event_views(sorted@) =~= sv.insert(k as int, ev));
        }
        proof {
            i = i + 1;
        }
    }
    proof {
        assert(cand.take(i) =~= cand);
    }
    let ghost before_trunc = event_views(sorted@);
    sorted.truncate(count);
    assert(event_views(sorted@) =~= if before_trunc.len() <= count {
        before_trunc
    } else {
        before_trunc.take(count as int)
    });
    sorted
}

/// `cands` are the events that `raws` give at `now`, in order, for some
/// expansion of each recurrence: a raw event either gives nothing or gives
/// the next candidate.
pub open spec fn gathered(raws: Seq<EventRawModel>, cands: Seq<EventModel>, now: i64) -> bool
    decreases raws.len(),
{
    if raws.len() == 0 {
        cands.len() == 0
    } else {
        ||| next_event_outcome(raws.last(), None, now) && gathered(raws.drop_last(), cands, now)
        ||| cands.len() > 0 && next_event_outcome(raws.last(), Some(cands.last()), now)
            && gathered(raws.drop_last(), cands.drop_last(), now)
    }
}

/// The agenda: the next occurrence of each raw event (see `next_event`),
/// then at most `count` of those that start at or after `now`, earliest
/// first.
pub fn upcoming_events(raws: Vec<EventRaw>, now: i64, count: usize) -> (r: Vec<Event>)
    ensures
        exists|cands: Seq<EventModel>|
            gathered(crate::ical::raw_views(raws@), cands, now) && event_views(r@)
                == spec_upcoming(cands, now, count as nat),
{
    let ghost all = crate::ical::raw_views(raws@);
    let mut rest = raws;
    let mut cands: Vec<Event> = Vec::new();
    let ghost mut i: int = 0;
    while rest.len() > 0
        invariant
            0 <= i <= all.len(),
            rest.len() == all.len() - i,
            crate::ical::raw_views(rest@) == all.skip(i),
            gathered(all.take(i), event_views(cands@), now),
        decreases rest.len(),
    {
        let ghost rest_before = rest@;
        let raw = rest.remove(0);
        proof {
            assert(crate::ical::raw_views(rest_before)[0] == rest_before[0]@);
            assert(all.skip(i)[0] == all[i]);
            assert forall|j: int| 0 <= j < rest@.len() implies crate::ical::raw_views(rest@)[j]
                == all.skip(i + 1)[j] by {
                assert(rest@[j] == rest_before[j + 1]);
                assert(crate::ical::raw_views(rest_before)[j + 1] == all.skip(i)[j + 1]);
            }
            assert(crate::ical::raw_views(rest@) =~= all.skip(i + 1));
            assert(all.take(i + 1).drop_last() =~= all.take(i));
            assert(all.take(i + 1).last() == raw@);
        }
        let ghost before = event_views(cands@);
        match next_event(raw, now) {
            Some(e) => {
                let ghost ev = e@;
                cands.push(e);
                assert(event_views(cands@) =~= before.push(ev));
                assert(event_views(cands@).drop_last() =~= before);
            },
            None => {},
        }
        proof {
            i = i + 1;
        }
    }
    proof {
        assert(all.take(i) =~= all);
    }
    let ghost cv = event_views(cands@);
    let r = first_upcoming(cands, now, count);
    assert(gathered(all, cv, now) && event_views(r@) == spec_upcoming(cv, now, count as nat));
    r
}

/// The agenda is in time order, holds no event that starts before `now`,
/// and holds at most `count` events, each of them one of the candidates.
pub proof fn lemma_upcoming(s: Seq<EventModel>, now: i64, count: nat)
    ensures
        sorted_by_start(spec_upcoming(s, now, count)),
        spec_upcoming(s, now, count).len() <= count,
        spec_upcoming(s, now, count).len() <= s.len(),
        forall|i: int|
            0 <= i < spec_upcoming(s, now, count).len() ==> #[trigger] spec_upcoming(
                s,
                now,
                count,
            )[i].start_ts >= now && s.contains(spec_upcoming(s, now, count)[i]),
{
    broadcast use vstd::seq_lib::group_to_multiset_ensures;
    let kept = keep_upcoming(s, now);
    lemma_sort_by_start(kept);
    s.lemma_filter_len(starts_at_or_after(now));
    let sorted = sort_by_start(kept);
    let up = spec_upcoming(s, now, count);
    assert forall|i: int| 0 <= i < up.len() implies #[trigger] up[i].start_ts >= now && s.contains(
        up[i],
    ) by {
        assert(up[i] == sorted[i]);
        assert(sorted.to_multiset().count(sorted[i]) > 0);
        assert(kept.to_multiset().count(sorted[i]) > 0);
        assert(kept.contains(sorted[i]));
        let k = choose|k: int| 0 <= k < kept.len() && kept[k] == sorted[i];
        s.lemma_filter_pred(starts_at_or_after(now), k);
        s.lemma_filter_contains_rev(starts_at_or_after(now), sorted[i]);
    }
}

/// Only the earliest events make the agenda: an upcoming event is left out
/// only when the agenda already holds `count` events, none of which starts
/// later than it.
pub proof fn lemma_upcoming_earliest(s: Seq<EventModel>, now: i64, count: nat, c: EventModel)
    requires
        s.contains(c),
        c.start_ts >= now,
        !spec_upcoming(s, now, count).contains(c),
    ensures
        spec_upcoming(s, now, count).len() == count,
        forall|i: int|
            0 <= i < spec_upcoming(s, now, count).len() ==> #[trigger] spec_upcoming(
                s,
                now,
                count,
            )[i].start_ts <= c.start_ts,
{
    broadcast use vstd::seq_lib::group_to_multiset_ensures;
    let kept = keep_upcoming(s, now);
    let j = choose|j: int| 0 <= j < s.len() && s[j] == c;
    s.lemma_filter_contains(starts_at_or_after(now), j);
    assert(kept.contains(c));
    lemma_sort_by_start(kept);
    let sorted = sort_by_start(kept);
    assert(sorted.to_multiset().count(c) > 0);
    assert(sorted.contains(c));
    let k = choose|k: int| 0 <= k < sorted.len() && sorted[k] == c;
    let up = spec_upcoming(s, now, count);
    if sorted.len() <= count {
        assert(up[k] == c);
    } else {
        if k < count {
            assert(up[k] == c);
        }
        assert forall|i: int| 0 <= i < up.len() implies #[trigger] up[i].start_ts <= c.start_ts by {
            assert(up[i] == sorted[i]);
        }
    }
}

} // verus!

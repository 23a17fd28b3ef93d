//! The iCalendar reader: unfolding of continuation lines, unescaping of
//! text values, the `DTSTART` time forms, and the line-by-line assembly of
//! `VEVENT` blocks into raw events.
use vstd::prelude::*;

use crate::civil::{
    helsinki_timestamp, helsinki_timestamp_of, midnight, naive_date_parsed,
    naive_datetime_parsed, parse_naive_date, parse_naive_datetime, utc_timestamp,
    utc_timestamp_of, CivilDateTime,
};
use crate::text::{
    append_chars, chars_eq, chars_of, contains, contains_chars, find_char_from, find_from,
    lemma_find_from_char, replace_all, replace_chars, string_of, sub_chars, trim_end_char,
    trim_end_chars,
};

verus! {

// ---------------------------------------------------------------------------
// Unfolding and unescaping
// ---------------------------------------------------------------------------

/// The text with every folded line joined back to the line before it: the
/// line breaks (`\r\n` or `\n`) followed by a space or a tab are removed.
pub open spec fn spec_unfold(text: Seq<char>) -> Seq<char> {
    let a = replace_all(text, "\r\n "@, Seq::empty());
    let b = replace_all(a, "\r\n\t"@, Seq::empty());
    let c = replace_all(b, "\n "@, Seq::empty());
    replace_all(c, "\n\t"@, Seq::empty())
}

/// A text value with the escapes `\,` `\;` undone and the escaped line
/// breaks `\n` `\N` turned into spaces.
pub open spec fn spec_unescape_text(s: Seq<char>) -> Seq<char> {
    let a = replace_all(s, "\\,"@, ","@);
    let b = replace_all(a, "\\;"@, ";"@);
    let c = replace_all(b, "\\n"@, " "@);
    replace_all(c, "\\N"@, " "@)
}

fn replace_lit(v: &Vec<char>, pat: &str, rep: &str) -> (r: Vec<char>)
    requires
        pat@.len() > 0,
    ensures
        r@ == replace_all(v@, pat@, rep@),
{
    let p = chars_of(pat);
    let q = chars_of(rep);
    replace_chars(v, &p, &q)
}

/// Unfolds continuation lines, on characters.
pub fn unfold_chars(text: &Vec<char>) -> (r: Vec<char>)
    ensures
        r@ == spec_unfold(text@),
{
    proof {
        reveal_strlit("\r\n ");
        reveal_strlit("\r\n\t");
        reveal_strlit("\n ");
        reveal_strlit("\n\t");
    }
    let a = replace_lit(text, "\r\n ", "");
    let b = replace_lit(&a, "\r\n\t", "");
    let c = replace_lit(&b, "\n ", "");
    let d = replace_lit(&c, "\n\t", "");
    proof {
        assert(""@ =~= Seq::<char>::empty()) by {
            reveal_strlit("");
        }
    }
    d
}

/// Joins every folded line of an iCalendar text back to the line before it.
pub fn unfold(text: &str) -> (r: String)
    ensures
        r@ == spec_unfold(text@),
{
    let v = chars_of(text);
    let u = unfold_chars(&v);
    string_of(&u)
}

/// Undoes the escapes of a text value, on characters.
pub fn unescape_chars(s: &Vec<char>) -> (r: Vec<char>)
    ensures
        r@ == spec_unescape_text(s@),
{
    proof {
        reveal_strlit("\\,");
        reveal_strlit("\\;");
        reveal_strlit("\\n");
        reveal_strlit("\\N");
    }
    let a = replace_lit(s, "\\,", ",");
    let b = replace_lit(&a, "\\;", ";");
    let c = replace_lit(&b, "\\n", " ");
    replace_lit(&c, "\\N", " ")
}

/// Undoes the escapes of an iCalendar text value.
pub fn unescape_text(s: &str) -> (r: String)
    ensures
        r@ == spec_unescape_text(s@),
{
    let v = chars_of(s);
    let u = unescape_chars(&v);
    string_of(&u)
}

// ---------------------------------------------------------------------------
// Lines
// ---------------------------------------------------------------------------

/// The line of `s` that starts at index `i`: up to the next `\n`, without
/// the `\r` of a `\r\n` ending.
pub open spec fn line_at(s: Seq<char>, i: int) -> Seq<char> {
    let j = find_from(s, '\n', i);
    let raw = s.subrange(i, j);
    if j < s.len() && raw.len() > 0 && raw.last() == '\r' {
        raw.drop_last()
    } else {
        raw
    }
}

/// The lines of `s` from index `i` on, as `str::lines` yields them: split at
/// `\n` or `\r\n`, with no empty line after a final line ending.
pub open spec fn lines_from(s: Seq<char>, i: int) -> Seq<Seq<char>>
    decreases s.len() + 1 - i,
    via lines_from_decreases
{
    if i < 0 || i >= s.len() {
        Seq::empty()
    } else {
        seq![line_at(s, i)] + lines_from(s, find_from(s, '\n', i) + 1)
    }
}

#[via_fn]
proof fn lines_from_decreases(s: Seq<char>, i: int) {
    if 0 <= i < s.len() {
        lemma_find_from_char(s, '\n', i);
    }
}

/// The lines of `s`, as `str::lines` yields them.
pub open spec fn text_lines(s: Seq<char>) -> Seq<Seq<char>> {
    lines_from(s, 0)
}

pub open spec fn char_views(v: Seq<Vec<char>>) -> Seq<Seq<char>> {
    v.map_values(|x: Vec<char>| x@)
}

/// Splits a text into its lines, as `str::lines` does.
pub fn split_lines(s: &Vec<char>) -> (lines: Vec<Vec<char>>)
    ensures
        char_views(lines@) == text_lines(s@),
{
    let mut lines: Vec<Vec<char>> = Vec::new();
    let mut i: usize = 0;
    while i < s.len()
        invariant
            i <= s.len(),
            text_lines(s@) == char_views(lines@) + lines_from(s@, i as int),
        decreases s.len() - i,
    {
        let j = find_char_from(s, '\n', i);
        let mut end = j;
        if j < s.len() && j > i && s[j - 1] == '\r' {
            end = j - 1;
        }
        let line = sub_chars(s, i, end);
        proof {
            let raw = s@.subrange(i as int, j as int);
            if j < s.len() && j > i && s@[j - 1] == '\r' {
                assert(raw.drop_last() =~= s@.subrange(i as int, end as int));
            }
            assert(line@ == line_at(s@, i as int));
        }
        let ghost before = lines@;
        lines.push(line);
        assert(char_views(lines@) =~= char_views(before).push(line@));
        assert(lines_from(s@, i as int) == seq![line_at(s@, i as int)] + lines_from(
            s@,
            j + 1,
        ));
        assert(char_views(lines@) + lines_from(s@, j + 1) =~= char_views(before) + lines_from(
            s@,
            i as int,
        ));
        if j < s.len() {
            i = j + 1;
        } else {
            i = j;
        }
    }
    assert(char_views(lines@) + lines_from(s@, i as int) =~= char_views(lines@));
    lines
}

// ---------------------------------------------------------------------------
// DTSTART values
// ---------------------------------------------------------------------------

/// `DTSTART` parameters mark an all-day event when they name `VALUE=DATE`
/// and not `DATE-TIME`.
pub open spec fn spec_all_day_params(params: Seq<char>) -> bool {
    contains(params, "VALUE=DATE"@) && !contains(params, "DATE-TIME"@)
}

/// The start of an event, given what chrono made of its `DTSTART` value: a
/// value that parsed as a date and time gives its timestamp (and nothing when
/// that time has none); otherwise a value that parsed as a date gives the
/// timestamp of its midnight, all-day when the parameters say so. The result
/// is the start timestamp and the all-day flag.
pub open spec fn spec_dt_from_parsed(
    params: Seq<char>,
    date_time: Option<CivilDateTime>,
    date_time_ts: Option<i64>,
    date_only: bool,
    midnight_ts: Option<i64>,
) -> Option<(i64, bool)> {
    if date_time is Some {
        match date_time_ts {
            Some(ts) => Some((ts, false)),
            None => None,
        }
    } else if date_only {
        match midnight_ts {
            Some(ts) => Some((ts, spec_all_day_params(params))),
            None => None,
        }
    } else {
        None
    }
}

/// The start timestamp and all-day flag of a `DTSTART` property with the
/// given value and parameters: trailing `Z`s dropped, the value is read as a
/// date and time (`%Y%m%dT%H%M%S`), in UTC when it ended with `Z` and in
/// Helsinki time otherwise, or else as a date (`%Y%m%d`) starting at Helsinki
/// midnight.
pub open spec fn spec_parse_dt(value: Seq<char>, params: Seq<char>) -> Option<(i64, bool)> {
    let utc = value.len() > 0 && value.last() == 'Z';
    let trimmed = trim_end_char(value, 'Z');
    let dt = naive_datetime_parsed(trimmed, "%Y%m%dT%H%M%S"@);
    let dt_ts = match dt {
        Some(d) => if utc {
            utc_timestamp_of(d)
        } else {
            helsinki_timestamp_of(d)
        },
        None => None,
    };
    let date = naive_date_parsed(trimmed, "%Y%m%d"@);
    let mid_ts = match date {
        Some(d) => helsinki_timestamp_of(midnight(d)),
        None => None,
    };
    spec_dt_from_parsed(params, dt, dt_ts, date is Some, mid_ts)
}

/// Whether `DTSTART` parameters mark an all-day event.
pub fn all_day_params(params: &Vec<char>) -> (b: bool)
    ensures
        b == spec_all_day_params(params@),
{
    let value_date = chars_of("VALUE=DATE");
    let date_time = chars_of("DATE-TIME");
    contains_chars(params, &value_date) && !contains_chars(params, &date_time)
}

/// Chooses the start of an event from what chrono made of its `DTSTART`
/// value: a parsed date and time wins, with its timestamp; a date alone
/// gives its midnight, all-day when the parameters say so.
pub fn dt_from_parsed(
    params: &Vec<char>,
    date_time: Option<CivilDateTime>,
    date_time_ts: Option<i64>,
    date_only: bool,
    midnight_ts: Option<i64>,
) -> (r: Option<(i64, bool)>)
    ensures
        r == spec_dt_from_parsed(params@, date_time, date_time_ts, date_only, midnight_ts),
{
    if date_time.is_some() {
        match date_time_ts {
            Some(ts) => Some((ts, false)),
            None => None,
        }
    } else if date_only {
        match midnight_ts {
            Some(ts) => Some((ts, all_day_params(params))),
            None => None,
        }
    } else {
        None
    }
}

/// Reads a `DTSTART` value on characters.
pub fn parse_dt_chars(value: &Vec<char>, params: &Vec<char>) -> (r: Option<(i64, bool)>)
    ensures
        r == spec_parse_dt(value@, params@),
{
    let utc = value.len() > 0 && value[value.len() - 1] == 'Z';
    let trimmed_chars = trim_end_chars(value, 'Z');
    let trimmed = string_of(&trimmed_chars);
    let dt = parse_naive_datetime(trimmed.as_str(), "%Y%m%dT%H%M%S");
    let dt_ts = match &dt {
        Some(d) => if utc {
            utc_timestamp(d)
        } else {
            helsinki_timestamp(d)
        },
        None => None,
    };
    if dt.is_some() {
        return dt_from_parsed(params, dt, dt_ts, false, None);
    }
    let date = parse_naive_date(trimmed.as_str(), "%Y%m%d");
    let mid_ts = match &date {
        Some(d) => {
            let m = CivilDateTime { date: *d, hour: 0, minute: 0, second: 0 };
            helsinki_timestamp(&m)
        },
        None => None,
    };
    dt_from_parsed(params, dt, dt_ts, date.is_some(), mid_ts)
}

/// The start timestamp and all-day flag of a `DTSTART` property with the
/// given value and parameters, or `None` when the value is neither a date
/// and time nor a date, or names a Helsinki time that does not occur exactly
/// once.
pub fn parse_dt(value: &str, params: &str) -> (r: Option<(i64, bool)>)
    ensures
        r == spec_parse_dt(value@, params@),
{
    let v = chars_of(value);
    let p = chars_of(params);
    parse_dt_chars(&v, &p)
}

// ---------------------------------------------------------------------------
// Events and their assembly
// ---------------------------------------------------------------------------

/// An event as read from the calendar, before its recurrence is expanded.
#[derive(Clone, Debug)]
pub struct EventRaw {
    pub summary: String,
    pub start_ts: i64,
    pub all_day: bool,
    /// The `DTSTART`, `RRULE` and `EXDATE` lines, one per line, when the
    /// event recurs.
    pub rrule_input: Option<String>,
}

pub struct EventRawModel {
    pub summary: Seq<char>,
    pub start_ts: i64,
    pub all_day: bool,
    pub rrule_input: Option<Seq<char>>,
}

impl View for EventRaw {
    type V = EventRawModel;

    open spec fn view(&self) -> EventRawModel {
        EventRawModel {
            summary: self.summary@,
            start_ts: self.start_ts,
            all_day: self.all_day,
            rrule_input: match self.rrule_input {
                Some(s) => Some(s@),
                None => None,
            },
        }
    }
}

pub open spec fn raw_views(v: Seq<EventRaw>) -> Seq<EventRawModel> {
    v.map_values(|e: EventRaw| e@)
}

/// The properties gathered so far inside a `VEVENT` block.
pub struct BuilderModel {
    pub summary: Option<Seq<char>>,
    pub dtstart_line: Option<Seq<char>>,
    pub rrule_line: Option<Seq<char>>,
    pub exdate_lines: Seq<Seq<char>>,
    pub parsed_start_ts: Option<i64>,
    pub all_day: bool,
}

/// The reader's state between two lines: the events completed so far, and
/// the block being read, if any.
pub struct IcsState {
    pub events: Seq<EventRawModel>,
    pub current: Option<BuilderModel>,
}

pub open spec fn empty_builder() -> BuilderModel {
    BuilderModel {
        summary: None,
        dtstart_line: None,
        rrule_line: None,
        exdate_lines: Seq::empty(),
        parsed_start_ts: None,
        all_day: false,
    }
}

/// The `EXDATE` lines, each preceded by a line break.
pub open spec fn exdate_suffix(exdates: Seq<Seq<char>>) -> Seq<char>
    decreases exdates.len(),
{
    if exdates.len() == 0 {
        Seq::empty()
    } else {
        exdate_suffix(exdates.drop_last()) + seq!['\n'] + exdates.last()
    }
}

/// The event that a complete block describes: it needs a summary, a
/// `DTSTART` line and a start that could be read from it. A recurring event
/// carries its `DTSTART`, `RRULE` and `EXDATE` lines for the expansion.
pub open spec fn finish_block(b: BuilderModel) -> Option<EventRawModel> {
    match (b.summary, b.parsed_start_ts, b.dtstart_line) {
        (Some(summary), Some(start_ts), Some(dtstart)) => Some(
            EventRawModel {
                summary,
                start_ts,
                all_day: b.all_day,
                rrule_input: match b.rrule_line {
                    Some(r) => Some(dtstart + seq!['\n'] + r + exdate_suffix(b.exdate_lines)),
                    None => None,
                },
            },
        ),
        _ => None,
    }
}

/// The name of a property line: what comes before the first `;` of the
/// part before the first `:`.
pub open spec fn property_key(line: Seq<char>) -> Seq<char> {
    let prop = line.take(find_char_prop(line));
    prop.take(find_from(prop, ';', 0))
}

pub open spec fn find_char_prop(line: Seq<char>) -> int {
    find_from(line, ':', 0)
}

/// The parameters of a property line: what follows the first `;` of the
/// part before the first `:`, or nothing.
pub open spec fn property_params(line: Seq<char>) -> Seq<char> {
    let prop = line.take(find_char_prop(line));
    let s = find_from(prop, ';', 0);
    if s < prop.len() {
        prop.skip(s + 1)
    } else {
        Seq::empty()
    }
}

/// The value of a property line: what follows the first `:`.
pub open spec fn property_value(line: Seq<char>) -> Seq<char> {
    line.skip(find_char_prop(line) + 1)
}

/// What one line inside a `VEVENT` block adds to it. Lines without a `:`
/// and properties other than `SUMMARY`, `DTSTART`, `RRULE` and `EXDATE`
/// change nothing; a later property of the first three kinds replaces an
/// earlier one.
pub open spec fn apply_property(b: BuilderModel, line: Seq<char>) -> BuilderModel {
    if find_char_prop(line) >= line.len() {
        b
    } else {
        let key = property_key(line);
        let value = property_value(line);
        if key == "SUMMARY"@ {
            BuilderModel { summary: Some(spec_unescape_text(value)), ..b }
        } else if key == "DTSTART"@ {
            let b2 = BuilderModel { dtstart_line: Some(line), ..b };
            match spec_parse_dt(value, property_params(line)) {
                Some((ts, all_day)) => BuilderModel {
                    parsed_start_ts: Some(ts),
                    all_day,
                    ..b2
                },
                None => b2,
            }
        } else if key == "RRULE"@ {
            BuilderModel { rrule_line: Some(line), ..b }
        } else if key == "EXDATE"@ {
            BuilderModel { exdate_lines: b.exdate_lines.push(line), ..b }
        } else {
            b
        }
    }
}

/// What one line does to the reader: `BEGIN:VEVENT` opens a fresh block,
/// `END:VEVENT` closes the open block and keeps its event if complete, and
/// any other line inside a block adds a property to it.
pub open spec fn ics_step(st: IcsState, line: Seq<char>) -> IcsState {
    if line == "BEGIN:VEVENT"@ {
        IcsState { events: st.events, current: Some(empty_builder()) }
    } else if line == "END:VEVENT"@ {
        match st.current {
            Some(b) => IcsState {
                events: match finish_block(b) {
                    Some(e) => st.events.push(e),
                    None => st.events,
                },
                current: None,
            },
            None => st,
        }
    } else {
        match st.current {
            Some(b) => IcsState { events: st.events, current: Some(apply_property(b, line)) },
            None => st,
        }
    }
}

/// The reader's state after the given lines.
pub open spec fn ics_fold(lines: Seq<Seq<char>>) -> IcsState
    decreases lines.len(),
{
    if lines.len() == 0 {
        IcsState { events: Seq::empty(), current: None }
    } else {
        ics_step(ics_fold(lines.drop_last()), lines.last())
    }
}

/// The raw events of an iCalendar text: its `VEVENT` blocks, read line by
/// line after unfolding, that have a summary and a readable start.
pub open spec fn spec_parse_ics(text: Seq<char>) -> Seq<EventRawModel> {
    ics_fold(text_lines(spec_unfold(text))).events
}

struct Builder {
    summary: Option<Vec<char>>,
    dtstart_line: Option<Vec<char>>,
    rrule_line: Option<Vec<char>>,
    exdate_lines: Vec<Vec<char>>,
    parsed_start_ts: Option<i64>,
    all_day: bool,
}

spec fn opt_view(o: Option<Vec<char>>) -> Option<Seq<char>> {
    match o {
        Some(v) => Some(v@),
        None => None,
    }
}

impl View for Builder {
    type V = BuilderModel;

    closed spec fn view(&self) -> BuilderModel {
        BuilderModel {
            summary: opt_view(self.summary),
            dtstart_line: opt_view(self.dtstart_line),
            rrule_line: opt_view(self.rrule_line),
            exdate_lines: char_views(self.exdate_lines@),
            parsed_start_ts: self.parsed_start_ts,
            all_day: self.all_day,
        }
    }
}

fn new_builder() -> (b: Builder)
    ensures
        b@ == empty_builder(),
{
    let b = Builder {
        summary: None,
        dtstart_line: None,
        rrule_line: None,
        exdate_lines: Vec::new(),
        parsed_start_ts: None,
        all_day: false,
    };
    assert(char_views(b.exdate_lines@) =~= Seq::<Seq<char>>::empty());
    b
}

fn recurrence_input(dtstart: &Vec<char>, rrule: &Vec<char>, exdates: &Vec<Vec<char>>) -> (r: Vec<
    char,
>)
    ensures
        r@ == dtstart@ + seq!['\n'] + rrule@ + exdate_suffix(char_views(exdates@)),
{
    let mut r = sub_chars(dtstart, 0, dtstart.len());
    assert(dtstart@.subrange(0, dtstart@.len() as int) =~= dtstart@);
    r.push('\n');
    append_chars(&mut r, rrule);
    let ghost head = r@;
    let ghost views = char_views(exdates@);
    let mut i: usize = 0;
    while i < exdates.len()
        invariant
            i <= exdates.len(),
            views == char_views(exdates@),
            r@ == head + exdate_suffix(views.take(i as int)),
        decreases exdates.len() - i,
    {
        assert(views.take(i + 1).drop_last() =~= views.take(i as int));
        r.push('\n');
        append_chars(&mut r, &exdates[i]);
        assert(r@ =~= head + exdate_suffix(views.take(i + 1)));
        i = i + 1;
    }
    assert(views.take(exdates.len() as int) =~= views);
    assert(head + exdate_suffix(views) =~= dtstart@ + seq!['\n'] + rrule@ + exdate_suffix(views));
    r
}

fn finish_builder(b: Builder) -> (r: Option<EventRaw>)
    ensures
        match r {
            Some(e) => finish_block(b@) == Some(e@),
            None => finish_block(b@) is None,
        },
{
    match (b.summary, b.parsed_start_ts, b.dtstart_line) {
        (Some(summary), Some(start_ts), Some(dtstart)) => {
            let rrule_input = match &b.rrule_line {
                Some(rr) => {
                    let input = recurrence_input(&dtstart, rr, &b.exdate_lines);
                    Some(string_of(&input))
                },
                None => None,
            };
            Some(EventRaw { summary: string_of(&summary), start_ts, all_day: b.all_day, rrule_input })
        },
        _ => None,
    }
}

fn apply_property_exec(b: Builder, line: &Vec<char>) -> (r: Builder)
    ensures
        r@ == apply_property(b@, line@),
{
    let colon = find_char_from(line, ':', 0);
    if colon >= line.len() {
        return b;
    }
    let prop = sub_chars(line, 0, colon);
    assert(prop@ =~= line@.take(colon as int));
    let value = sub_chars(line, colon + 1, line.len());
    assert(value@ =~= property_value(line@));
    let semi = find_char_from(&prop, ';', 0);
    let key = sub_chars(&prop, 0, semi);
    assert(key@ =~= property_key(line@));
    let params = if semi < prop.len() {
        sub_chars(&prop, semi + 1, prop.len())
    } else {
        Vec::new()
    };
    assert(params@ =~= property_params(line@));
    let summary_key = chars_of("SUMMARY");
    let dtstart_key = chars_of("DTSTART");
    let rrule_key = chars_of("RRULE");
    let exdate_key = chars_of("EXDATE");
    let mut b = b;
    if chars_eq(&key, &summary_key) {
        b.summary = Some(unescape_chars(&value));
    } else if chars_eq(&key, &dtstart_key) {
        b.dtstart_line = Some(sub_chars(line, 0, line.len()));
        assert(line@.subrange(0, line@.len() as int) =~= line@);
        match parse_dt_chars(&value, &params) {
            Some((ts, all_day)) => {
                b.parsed_start_ts = Some(ts);
                b.all_day = all_day;
            },
            None => {},
        }
    } else if chars_eq(&key, &rrule_key) {
        b.rrule_line = Some(sub_chars(line, 0, line.len()));
        assert(line@.subrange(0, line@.len() as int) =~= line@);
    } else if chars_eq(&key, &exdate_key) {
        let ghost before = b.exdate_lines@;
        b.exdate_lines.push(sub_chars(line, 0, line.len()));
        assert(line@.subrange(0, line@.len() as int) =~= line@);
        assert(char_views(b.exdate_lines@) =~= char_views(before).push(line@));
    }
    b
}

/// Reads the raw events of an iCalendar text: its `VEVENT` blocks, line by
/// line after unfolding, keeping those with a summary and a readable start.
pub fn parse_ics(text: &str) -> (events: Vec<EventRaw>)
    ensures
        raw_views(events@) == spec_parse_ics(text@),
{
    let chars = chars_of(text);
    let unfolded = unfold_chars(&chars);
    let lines = split_lines(&unfolded);
    let ghost line_views = char_views(lines@);
    let begin = chars_of("BEGIN:VEVENT");
    let end = chars_of("END:VEVENT");
    let mut events: Vec<EventRaw> = Vec::new();
    let mut current: Option<Builder> = None;
    let mut i: usize = 0;
    while i < lines.len()
        invariant
            i <= lines.len(),
            line_views == char_views(lines@),
            line_views == text_lines(spec_unfold(text@)),
            begin@ == "BEGIN:VEVENT"@,
            end@ == "END:VEVENT"@,
            ics_fold(line_views.take(i as int)).events == raw_views(events@),
            ics_fold(line_views.take(i as int)).current == match current {
                Some(b) => Some(b@),
                None => None::<BuilderModel>,
            },
        decreases lines.len() - i,
    {
        let line = &lines[i];
        assert(line_views.take(i + 1).drop_last() =~= line_views.take(i as int));
        assert(line_views.take(i + 1).last() == line@);
        if chars_eq(line, &begin) {
            current = Some(new_builder());
        } else if chars_eq(line, &end) {
            match current {
                Some(b) => {
                    let ghost bm = b@;
                    let ghost before = events@;
                    match finish_builder(b) {
                        Some(e) => {
                            events.push(e);
                            assert(raw_views(events@) =~= raw_views(before).push(e@));
                        },
                        None => {},
                    }
                    current = None;
                },
                None => {},
            }
        } else {
            match current {
                Some(b) => {
                    current = Some(apply_property_exec(b, line));
                },
                None => {},
            }
        }
        i = i + 1;
    }
    assert(line_views.take(lines.len() as int) =~= line_views);
    events
}

// ---------------------------------------------------------------------------
// Laws
// ---------------------------------------------------------------------------

proof fn lemma_pattern_absent(s: Seq<char>, p: Seq<char>, c: char, k: int)
    requires
        !crate::text::has_char(s, c),
        0 <= k < p.len(),
        p[k] == c,
    ensures
        replace_all(s, p, Seq::empty()) == s,
{
    assert forall|j: int| 0 <= j < s.len() implies !crate::text::occurs_at(s, j, p) by {
        if crate::text::occurs_at(s, j, p) {
            assert(s.subrange(j, j + p.len())[k] == s[j + k]);
        }
    }
    crate::text::lemma_replace_from_absent(s, p, Seq::empty(), 0);
    assert(s.subrange(0, s.len() as int) =~= s);
}

/// A text without line breaks has nothing to unfold.
pub proof fn lemma_unfold_without_line_breaks(text: Seq<char>)
    requires
        !crate::text::has_char(text, '\n'),
    ensures
        spec_unfold(text) == text,
{
    reveal_strlit("\r\n ");
    reveal_strlit("\r\n\t");
    reveal_strlit("\n ");
    reveal_strlit("\n\t");
    lemma_pattern_absent(text, "\r\n "@, '\n', 1);
    lemma_pattern_absent(text, "\r\n\t"@, '\n', 1);
    lemma_pattern_absent(text, "\n "@, '\n', 0);
    lemma_pattern_absent(text, "\n\t"@, '\n', 0);
}

proof fn lemma_pattern_absent_rep(s: Seq<char>, p: Seq<char>, r: Seq<char>, c: char, k: int)
    requires
        !crate::text::has_char(s, c),
        0 <= k < p.len(),
        p[k] == c,
    ensures
        replace_all(s, p, r) == s,
{
    assert forall|j: int| 0 <= j < s.len() implies !crate::text::occurs_at(s, j, p) by {
        if crate::text::occurs_at(s, j, p) {
            assert(s.subrange(j, j + p.len())[k] == s[j + k]);
        }
    }
    crate::text::lemma_replace_from_absent(s, p, r, 0);
    assert(s.subrange(0, s.len() as int) =~= s);
}

/// A text value without backslashes has no escapes to undo.
pub proof fn lemma_unescape_without_backslash(s: Seq<char>)
    requires
        !crate::text::has_char(s, '\\'),
    ensures
        spec_unescape_text(s) == s,
{
    reveal_strlit("\\,");
    reveal_strlit("\\;");
    reveal_strlit("\\n");
    reveal_strlit("\\N");
    lemma_pattern_absent_rep(s, "\\,"@, ","@, '\\', 0);
    lemma_pattern_absent_rep(s, "\\;"@, ";"@, '\\', 0);
    lemma_pattern_absent_rep(s, "\\n"@, " "@, '\\', 0);
    lemma_pattern_absent_rep(s, "\\N"@, " "@, '\\', 0);
}

/// Lines that never open a `VEVENT` block give no events and leave no block
/// open.
pub proof fn lemma_no_block_no_events(lines: Seq<Seq<char>>)
    requires
        forall|i: int| 0 <= i < lines.len() ==> lines[i] != "BEGIN:VEVENT"@,
    ensures
        ics_fold(lines).events.len() == 0,
        ics_fold(lines).current is None,
    decreases lines.len(),
{
    if lines.len() > 0 {
        lemma_no_block_no_events(lines.drop_last());
    }
}

/// Every event read comes from a closed block: there are no more events than
/// `END:VEVENT` lines.
pub proof fn lemma_events_at_most_block_ends(lines: Seq<Seq<char>>)
    ensures
        ics_fold(lines).events.len() <= count_lines(lines, "END:VEVENT"@),
    decreases lines.len(),
{
    if lines.len() > 0 {
        lemma_events_at_most_block_ends(lines.drop_last());
    }
}

/// How many of the lines equal `l`.
pub open spec fn count_lines(lines: Seq<Seq<char>>, l: Seq<char>) -> nat
    decreases lines.len(),
{
    if lines.len() == 0 {
        0
    } else {
        count_lines(lines.drop_last(), l) + if lines.last() == l {
            1nat
        } else {
            0nat
        }
    }
}

/// A recurring event carries its own `DTSTART` line first, so that the
/// expansion starts where the event does.
pub proof fn lemma_recurrence_starts_with_dtstart(b: BuilderModel)
    ensures
        finish_block(b) matches Some(e) ==> (e.rrule_input matches Some(input) ==> b.dtstart_line
            matches Some(d) && input.take(d.len() as int) == d),
{
    if let Some(e) = finish_block(b) {
        if let Some(input) = e.rrule_input {
            let d = b.dtstart_line->0;
            let r = b.rrule_line->0;
            assert((d + seq!['\n'] + r + exdate_suffix(b.exdate_lines)).take(d.len() as int) =~= d);
        }
    }
}

/// The reader's state after the given lines, starting from `st`.
pub open spec fn ics_fold_from(st: IcsState, lines: Seq<Seq<char>>) -> IcsState
    decreases lines.len(),
{
    if lines.len() == 0 {
        st
    } else {
        ics_step(ics_fold_from(st, lines.drop_last()), lines.last())
    }
}

/// The block that the given property lines build, from an empty one.
pub open spec fn block_builder(props: Seq<Seq<char>>) -> BuilderModel
    decreases props.len(),
{
    if props.len() == 0 {
        empty_builder()
    } else {
        apply_property(block_builder(props.drop_last()), props.last())
    }
}

/// The events that a block with the given property lines adds: its event
/// when it is complete, else none.
pub open spec fn block_events(props: Seq<Seq<char>>) -> Seq<EventRawModel> {
    match finish_block(block_builder(props)) {
        Some(e) => seq![e],
        None => Seq::empty(),
    }
}

/// Reading `a` and then `b` is reading `b` from where `a` left the reader.
pub proof fn lemma_ics_fold_append(a: Seq<Seq<char>>, b: Seq<Seq<char>>)
    ensures
        ics_fold(a + b) == ics_fold_from(ics_fold(a), b),
    decreases b.len(),
{
    if b.len() == 0 {
        assert(a + b =~= a);
    } else {
        lemma_ics_fold_append(a, b.drop_last());
        assert((a + b).drop_last() =~= a + b.drop_last());
    }
}

proof fn lemma_ics_block_props(events: Seq<EventRawModel>, props: Seq<Seq<char>>)
    requires
        forall|i: int|
            0 <= i < props.len() ==> #[trigger] props[i] != "BEGIN:VEVENT"@ && props[i]
                != "END:VEVENT"@,
    ensures
        ics_fold_from((IcsState { events, current: Some(empty_builder()) }), props) == (IcsState {
            events,
            current: Some(block_builder(props)),
        }),
    decreases props.len(),
{
    if props.len() > 0 {
        let last = props.last();
        assert(last == props[props.len() - 1]);
        lemma_ics_block_props(events, props.drop_last());
    }
}

/// A `VEVENT` block read after any lines adds exactly its own event, if it
/// is complete, and leaves no block open, whatever came before: the
/// `BEGIN:VEVENT` line starts afresh, each property line inside updates the
/// block, and `END:VEVENT` closes it.
pub proof fn lemma_ics_block(before: Seq<Seq<char>>, props: Seq<Seq<char>>)
    requires
        forall|i: int|
            0 <= i < props.len() ==> #[trigger] props[i] != "BEGIN:VEVENT"@ && props[i]
                != "END:VEVENT"@,
    ensures
        ics_fold(before + seq!["BEGIN:VEVENT"@] + props + seq!["END:VEVENT"@]) == (IcsState {
            events: ics_fold(before).events + block_events(props),
            current: None,
        }),
{
    let begin = seq!["BEGIN:VEVENT"@];
    let end = seq!["END:VEVENT"@];
    let st0 = ics_fold(before);
    lemma_ics_fold_append(before, begin + props + end);
    assert(before + begin + props + end =~= before + (begin + props + end));
    lemma_ics_fold_from_append(st0, begin, props + end);
    assert(begin + props + end =~= begin + (props + end));
    assert(begin.drop_last() =~= Seq::<Seq<char>>::empty());
    let st1 = IcsState { events: st0.events, current: Some(empty_builder()) };
    assert(ics_fold_from(st0, begin.drop_last()) == st0);
    assert(begin.last() == "BEGIN:VEVENT"@);
    assert(ics_fold_from(st0, begin) == st1);
    lemma_ics_fold_from_append(st1, props, end);
    lemma_ics_block_props(st0.events, props);
    assert(end.drop_last() =~= Seq::<Seq<char>>::empty());
    reveal_strlit("BEGIN:VEVENT");
    reveal_strlit("END:VEVENT");
    assert("END:VEVENT"@ != "BEGIN:VEVENT"@) by {
        assert("END:VEVENT"@[0] != "BEGIN:VEVENT"@[0]);
    }
    let st2 = IcsState { events: st0.events, current: Some(block_builder(props)) };
    assert(ics_fold_from(st2, end.drop_last()) == st2);
    assert(end.last() == "END:VEVENT"@);
    assert(ics_fold_from(st2, end) == ics_step(st2, "END:VEVENT"@));
    match finish_block(block_builder(props)) {
        Some(e) => {
            assert(st0.events.push(e) =~= st0.events + seq![e]);
        },
        None => {
            assert(st0.events =~= st0.events + Seq::<EventRawModel>::empty());
        },
    }
}

proof fn lemma_ics_fold_from_append(st: IcsState, a: Seq<Seq<char>>, b: Seq<Seq<char>>)
    ensures
        ics_fold_from(st, a + b) == ics_fold_from(ics_fold_from(st, a), b),
    decreases b.len(),
{
    if b.len() == 0 {
        assert(a + b =~= a);
    } else {
        lemma_ics_fold_from_append(st, a, b.drop_last());
        assert((a + b).drop_last() =~= a + b.drop_last());
    }
}

/// Lines outside any block that open none change nothing: no event is
/// added and no block is opened.
pub proof fn lemma_ics_outside_blocks(before: Seq<Seq<char>>, filler: Seq<Seq<char>>)
    requires
        ics_fold(before).current is None,
        forall|i: int| 0 <= i < filler.len() ==> #[trigger] filler[i] != "BEGIN:VEVENT"@,
    ensures
        ics_fold(before + filler) == ics_fold(before),
    decreases filler.len(),
{
    if filler.len() > 0 {
        let f = filler.drop_last();
        assert(filler.last() == filler[filler.len() - 1]);
        lemma_ics_outside_blocks(before, f);
        assert((before + filler).drop_last() =~= before + f);
    } else {
        assert(before + filler =~= before);
    }
}

/// Lines that lay out `VEVENT` blocks: before block `i` stand the lines
/// `fillers[i]`, then `BEGIN:VEVENT`, the property lines `blocks[i]` and
/// `END:VEVENT`.
pub open spec fn block_document(fillers: Seq<Seq<Seq<char>>>, blocks: Seq<Seq<Seq<char>>>) -> Seq<
    Seq<char>,
>
    decreases blocks.len(),
{
    if blocks.len() == 0 || fillers.len() == 0 {
        Seq::empty()
    } else {
        block_document(fillers.drop_last(), blocks.drop_last()) + fillers.last() + seq![
            "BEGIN:VEVENT"@,
        ] + blocks.last() + seq!["END:VEVENT"@]
    }
}

/// The events of the blocks, in order: one for each complete block.
pub open spec fn blocks_events(blocks: Seq<Seq<Seq<char>>>) -> Seq<EventRawModel>
    decreases blocks.len(),
{
    if blocks.len() == 0 {
        Seq::empty()
    } else {
        blocks_events(blocks.drop_last()) + block_events(blocks.last())
    }
}

/// The lines hold no `BEGIN:VEVENT` and, with `no_end`, no `END:VEVENT`.
pub open spec fn plain_lines(lines: Seq<Seq<char>>, no_end: bool) -> bool {
    forall|i: int|
        0 <= i < lines.len() ==> #[trigger] lines[i] != "BEGIN:VEVENT"@ && (no_end ==> lines[i]
            != "END:VEVENT"@)
}

/// No `END:VEVENT` line comes after a `BEGIN:VEVENT` line: the lines close
/// no block (a block they open is dropped, or left open).
pub open spec fn closes_no_block(lines: Seq<Seq<char>>) -> bool {
    forall|i: int, j: int|
        #![trigger lines[i], lines[j]]
        0 <= i < j < lines.len() ==> !(lines[i] == "BEGIN:VEVENT"@ && lines[j] == "END:VEVENT"@)
}

/// Lines that close no block, read where no block is open, add no event;
/// without a `BEGIN:VEVENT` they also leave no block open.
pub proof fn lemma_ics_filler(before: Seq<Seq<char>>, f: Seq<Seq<char>>)
    requires
        ics_fold(before).current is None,
        closes_no_block(f),
    ensures
        ics_fold(before + f).events == ics_fold(before).events,
        plain_lines(f, false) ==> ics_fold(before + f).current is None,
    decreases f.len(),
{
    if f.len() == 0 {
        assert(before + f =~= before);
    } else {
        let g = f.drop_last();
        let x = f.last();
        assert(closes_no_block(g)) by {
            assert forall|i: int, j: int|
                #![trigger g[i], g[j]]
                0 <= i < j < g.len() implies !(g[i] == "BEGIN:VEVENT"@ && g[j] == "END:VEVENT"@) by {
                assert(g[i] == f[i] && g[j] == f[j]);
            }
        }
        lemma_ics_filler(before, g);
        assert((before + f).drop_last() =~= before + g);
        assert((before + f).last() == x);
        assert(x == f[f.len() - 1]);
        if x == "END:VEVENT"@ {
            assert(plain_lines(g, false)) by {
                assert forall|i: int| 0 <= i < g.len() implies #[trigger] g[i] != "BEGIN:VEVENT"@ by {
                    assert(g[i] == f[i]);
                    assert(!(f[i] == "BEGIN:VEVENT"@ && f[f.len() - 1] == "END:VEVENT"@));
                }
            }
        }
        if plain_lines(f, false) {
            assert(plain_lines(g, false)) by {
                assert forall|i: int| 0 <= i < g.len() implies #[trigger] g[i] != "BEGIN:VEVENT"@ by {
                    assert(g[i] == f[i]);
                }
            }
        }
    }
}

/// The reader keeps one event per complete `VEVENT` block, in document
/// order, and nothing from lines outside the blocks: for a text whose lines
/// (after unfolding) are blocks with lines that close no block between and
/// after them, the events are those of the blocks.
pub proof fn lemma_parse_ics_blocks(
    text: Seq<char>,
    fillers: Seq<Seq<Seq<char>>>,
    blocks: Seq<Seq<Seq<char>>>,
    tail: Seq<Seq<char>>,
)
    requires
        fillers.len() == blocks.len(),
        forall|i: int| 0 <= i < fillers.len() ==> closes_no_block(#[trigger] fillers[i]),
        forall|i: int| 0 <= i < blocks.len() ==> plain_lines(#[trigger] blocks[i], true),
        closes_no_block(tail),
        text_lines(spec_unfold(text)) == block_document(fillers, blocks) + tail,
    ensures
        spec_parse_ics(text) == blocks_events(blocks),
{
    lemma_block_document(fillers, blocks);
    lemma_ics_filler(block_document(fillers, blocks), tail);
}

proof fn lemma_block_document(fillers: Seq<Seq<Seq<char>>>, blocks: Seq<Seq<Seq<char>>>)
    requires
        fillers.len() == blocks.len(),
        forall|i: int| 0 <= i < fillers.len() ==> closes_no_block(#[trigger] fillers[i]),
        forall|i: int| 0 <= i < blocks.len() ==> plain_lines(#[trigger] blocks[i], true),
    ensures
        ics_fold(block_document(fillers, blocks)) == (IcsState {
            events: blocks_events(blocks),
            current: None,
        }),
    decreases blocks.len(),
{
    if blocks.len() > 0 {
        let fs = fillers.drop_last();
        let bs = blocks.drop_last();
        assert forall|i: int| 0 <= i < fs.len() implies closes_no_block(#[trigger] fs[i]) by {
            assert(fs[i] == fillers[i]);
        }
        assert forall|i: int| 0 <= i < bs.len() implies plain_lines(#[trigger] bs[i], true) by {
            assert(bs[i] == blocks[i]);
        }
        lemma_block_document(fs, bs);
        let prev = block_document(fs, bs);
        let f = fillers.last();
        let b = blocks.last();
        assert(closes_no_block(fillers[fillers.len() - 1]));
        assert(plain_lines(blocks[blocks.len() - 1], true));
        lemma_ics_filler(prev, f);
        assert forall|i: int| 0 <= i < b.len() implies #[trigger] b[i] != "BEGIN:VEVENT"@ && b[i]
            != "END:VEVENT"@ by {}
        lemma_ics_block(prev + f, b);
    } else {
        assert(ics_fold(block_document(fillers, blocks)) == ics_fold(Seq::empty()));
    }
}

/// Index of the last `BEGIN:VEVENT` line, or -1 when there is none.
pub open spec fn last_begin(lines: Seq<Seq<char>>) -> int
    decreases lines.len(),
{
    if lines.len() == 0 {
        -1
    } else if lines.last() == "BEGIN:VEVENT"@ {
        lines.len() - 1
    } else {
        last_begin(lines.drop_last())
    }
}

proof fn lemma_last_begin(lines: Seq<Seq<char>>)
    ensures
        -1 <= last_begin(lines) < lines.len(),
        last_begin(lines) >= 0 ==> lines[last_begin(lines)] == "BEGIN:VEVENT"@,
        forall|j: int| last_begin(lines) < j < lines.len() ==> #[trigger] lines[j] != "BEGIN:VEVENT"@,
    decreases lines.len(),
{
    if lines.len() > 0 && lines.last() != "BEGIN:VEVENT"@ {
        let g = lines.drop_last();
        lemma_last_begin(g);
        assert forall|j: int| last_begin(lines) < j < lines.len() implies #[trigger] lines[j]
            != "BEGIN:VEVENT"@ by {
            if j < g.len() {
                assert(lines[j] == g[j]);
            }
        }
    }
}

/// The properties of a split of lines into blocks, lines between them, and
/// lines after the last one.
pub open spec fn is_block_split(
    lines: Seq<Seq<char>>,
    fillers: Seq<Seq<Seq<char>>>,
    blocks: Seq<Seq<Seq<char>>>,
    tail: Seq<Seq<char>>,
) -> bool {
    &&& fillers.len() == blocks.len()
    &&& forall|i: int| 0 <= i < fillers.len() ==> closes_no_block(#[trigger] fillers[i])
    &&& forall|i: int| 0 <= i < blocks.len() ==> plain_lines(#[trigger] blocks[i], true)
    &&& closes_no_block(tail)
    &&& lines == block_document(fillers, blocks) + tail
}

/// Every list of lines splits into `VEVENT` blocks (each a `BEGIN:VEVENT`
/// line, property lines, and the `END:VEVENT` line that closes it), lines
/// before each block that close no block, and lines after the last block
/// that close none either.
pub proof fn lemma_ics_block_split(lines: Seq<Seq<char>>) -> (r: (
    Seq<Seq<Seq<char>>>,
    Seq<Seq<Seq<char>>>,
    Seq<Seq<char>>,
))
    ensures
        is_block_split(lines, r.0, r.1, r.2),
    decreases lines.len(),
{
    if lines.len() == 0 {
        let r = (Seq::empty(), Seq::empty(), Seq::empty());
        assert(lines =~= block_document(r.0, r.1) + r.2);
        r
    } else {
        let (fs, bs, t) = lemma_ics_block_split(lines.drop_last());
        let x = lines.last();
        let doc = block_document(fs, bs);
        assert(lines =~= doc + t + seq![x]);
        lemma_last_begin(t);
        let k = last_begin(t);
        if x == "END:VEVENT"@ && k >= 0 {
            let f = t.take(k);
            let b = t.skip(k + 1);
            let fs2 = fs.push(f);
            let bs2 = bs.push(b);
            assert(fs2.drop_last() =~= fs);
            assert(bs2.drop_last() =~= bs);
            assert(block_document(fs2, bs2) == doc + f + seq!["BEGIN:VEVENT"@] + b + seq![
                "END:VEVENT"@,
            ]);
            assert(t =~= f + seq!["BEGIN:VEVENT"@] + b);
            assert(lines =~= block_document(fs2, bs2) + Seq::<Seq<char>>::empty());
            assert(closes_no_block(f)) by {
                assert forall|i: int, j: int|
                    #![trigger f[i], f[j]]
                    0 <= i < j < f.len() implies !(f[i] == "BEGIN:VEVENT"@ && f[j]
                        == "END:VEVENT"@) by {
                    assert(f[i] == t[i] && f[j] == t[j]);
                }
            }
            assert(plain_lines(b, true)) by {
                assert forall|i: int| 0 <= i < b.len() implies #[trigger] b[i] != "BEGIN:VEVENT"@
                    && b[i] != "END:VEVENT"@ by {
                    assert(b[i] == t[k + 1 + i]);
                    assert(!(t[k] == "BEGIN:VEVENT"@ && t[k + 1 + i] == "END:VEVENT"@));
                }
            }
            assert forall|i: int| 0 <= i < fs2.len() implies closes_no_block(#[trigger] fs2[i]) by {
                if i < fs.len() {
                    assert(fs2[i] == fs[i]);
                }
            }
            assert forall|i: int| 0 <= i < bs2.len() implies plain_lines(#[trigger] bs2[i], true) by {
                if i < bs.len() {
                    assert(bs2[i] == bs[i]);
                }
            }
            assert(closes_no_block(Seq::<Seq<char>>::empty()));
            (fs2, bs2, Seq::empty())
        } else {
            let t2 = t.push(x);
            assert(lines =~= doc + t2);
            assert(closes_no_block(t2)) by {
                assert forall|i: int, j: int|
                    #![trigger t2[i], t2[j]]
                    0 <= i < j < t2.len() implies !(t2[i] == "BEGIN:VEVENT"@ && t2[j]
                        == "END:VEVENT"@) by {
                    assert(t2[i] == t[i]);
                    if j < t.len() {
                        assert(t2[j] == t[j]);
                    } else {
                        assert(t2[j] == x);
                        if x == "END:VEVENT"@ {
                            assert(t[i] != "BEGIN:VEVENT"@);
                        }
                    }
                }
            }
            (fs, bs, t2)
        }
    }
}

/// For every text: its lines, after unfolding, split into `VEVENT` blocks
/// with lines that close no block before, between and after them, and the
/// events read are one per complete block, in document order (a block whose
/// summary or readable start is missing gives none).
pub proof fn lemma_parse_ics_every_text(text: Seq<char>) -> (r: (
    Seq<Seq<Seq<char>>>,
    Seq<Seq<Seq<char>>>,
    Seq<Seq<char>>,
))
    ensures
        is_block_split(text_lines(spec_unfold(text)), r.0, r.1, r.2),
        spec_parse_ics(text) == blocks_events(r.1),
{
    let r = lemma_ics_block_split(text_lines(spec_unfold(text)));
    lemma_parse_ics_blocks(text, r.0, r.1, r.2);
    r
}

/// The value of a property line is all the text after its first `:`, so a
/// `SUMMARY:` line sets the summary to the rest of the line, unescaped,
/// whatever `:` characters the rest holds (a rest without backslashes is kept
/// as it is), and changes nothing else.
pub proof fn lemma_summary_is_rest_of_line(b: BuilderModel, v: Seq<char>)
    ensures
        apply_property(b, "SUMMARY:"@ + v) == (BuilderModel {
            summary: Some(spec_unescape_text(v)),
            ..b
        }),
        !crate::text::has_char(v, '\\') ==> apply_property(b, "SUMMARY:"@ + v).summary == Some(v),
{
    reveal_strlit("SUMMARY:");
    reveal_strlit("SUMMARY");
    let line = "SUMMARY:"@ + v;
    assert(line[7] == ':');
    assert forall|j: int| 0 <= j < 7 implies line[j] != ':' by {
        assert(line[j] == "SUMMARY:"@[j]);
    }
    lemma_find_from_char(line, ':', 0);
    let k = find_char_prop(line);
    assert(k == 7) by {
        if k < 7 {
            assert(line[k] == ':');
        }
        if k > 7 {
            assert(line[7] != ':');
        }
    }
    let prop = line.take(7);
    assert(prop =~= "SUMMARY"@);
    lemma_find_from_char(prop, ';', 0);
    assert forall|j: int| 0 <= j < 7 implies prop[j] != ';' by {
        assert(prop[j] == "SUMMARY"@[j]);
    }
    assert(find_from(prop, ';', 0) == 7);
    assert(prop.take(7) =~= prop);
    assert(property_key(line) == "SUMMARY"@);
    assert(property_value(line) =~= v);
    if !crate::text::has_char(v, '\\') {
        lemma_unescape_without_backslash(v);
    }
}

/// Two lines joined by a line break read back as those two lines.
pub proof fn lemma_two_lines(a: Seq<char>, b: Seq<char>)
    requires
        !crate::text::has_char(a, '\n'),
        !crate::text::has_char(b, '\n'),
        b.len() > 0,
        a.len() == 0 || a.last() != '\r',
    ensures
        text_lines(a + seq!['\n'] + b) == seq![a, b],
{
    let s = a + seq!['\n'] + b;
    let n = a.len() as int;
    assert(s[n] == '\n');
    assert forall|k: int| 0 <= k < n implies s[k] != '\n' by {
        assert(s[k] == a[k]);
        if s[k] == '\n' {
            assert(crate::text::has_char(a, '\n'));
        }
    }
    assert forall|k: int| n + 1 <= k < s.len() implies s[k] != '\n' by {
        assert(s[k] == b[k - n - 1]);
        if s[k] == '\n' {
            assert(crate::text::has_char(b, '\n'));
        }
    }
    lemma_find_from_char(s, '\n', 0);
    let j0 = find_from(s, '\n', 0);
    assert(j0 == n) by {
        if j0 < n {
            assert(s[j0] == '\n');
        }
        if j0 > n {
            assert(s[n] != '\n');
        }
    }
    lemma_find_from_char(s, '\n', n + 1);
    let j1 = find_from(s, '\n', n + 1);
    assert(j1 == s.len()) by {
        if j1 < s.len() {
            assert(s[j1] == '\n');
        }
    }
    assert(s.subrange(0, n) =~= a);
    assert(line_at(s, 0) == a);
    assert(s.subrange(n + 1, s.len() as int) =~= b);
    assert(line_at(s, n + 1) == b);
    assert(lines_from(s, s.len() as int + 1) == Seq::<Seq<char>>::empty());
    assert(lines_from(s, n + 1) == seq![b] + lines_from(s, s.len() as int + 1));
    assert(lines_from(s, n + 1) =~= seq![b]);
    assert(lines_from(s, 0) == seq![a] + lines_from(s, n + 1));
    assert(text_lines(s) =~= seq![a, b]);
}

} // verus!

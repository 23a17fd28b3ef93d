//! The school taxi: which days to ask the reservation service about, the
//! addresses of its endpoints, and the next pickup among the route points it
//! returns.
use vstd::prelude::*;

use crate::civil::{
    add_days, date_plus_days, format_date, iso_date_text, helsinki_civil, helsinki_civil_of,
    helsinki_timestamp, helsinki_timestamp_of, naive_date_parsed, naive_datetime_parsed,
    parse_naive_date, parse_naive_datetime, weekday_from_sunday, weekday_from_sunday_of, CivilDate,
};
use crate::ical::char_views;
use crate::text::{
    append_chars, chars_eq, chars_of, decimal, decimal_u64, find_char_from, find_from, join,
    join_chars, string_of, sub_chars,
};

verus! {

/// The next taxi pickup.
pub struct TaxiPickup {
    /// Scheduled pickup time as a Unix timestamp (the service gives Helsinki
    /// local times). The real pickup tends to be about five minutes earlier.
    pub scheduled_ts: i64,
}

// ---------------------------------------------------------------------------
// Morning types of the weekly schedule
// ---------------------------------------------------------------------------

/// One week of the schedule: for each weekday the date (an ISO date-time
/// text) and the kind of morning.
pub struct WeekSchedule {
    pub ma_pvm: String,
    pub ma_ap: String,
    pub ti_pvm: String,
    pub ti_ap: String,
    pub ke_pvm: String,
    pub ke_ap: String,
    pub to_pvm: String,
    pub to_ap: String,
    pub pe_pvm: String,
    pub pe_ap: String,
}

/// The date of a schedule day: the part before the first `T`, read as
/// `%Y-%m-%d`.
pub open spec fn spec_parse_pvm(s: Seq<char>) -> Option<CivilDate> {
    naive_date_parsed(s.take(find_from(s, 'T', 0)), "%Y-%m-%d"@)
}

/// The date of a schedule day such as `2026-04-27T00:00:00+03:00`.
pub fn parse_pvm(s: &str) -> (r: Option<CivilDate>)
    ensures
        r == spec_parse_pvm(s@),
{
    let v = chars_of(s);
    let t = find_char_from(&v, 'T', 0);
    let head = sub_chars(&v, 0, t);
    assert(head@ =~= s@.take(t as int));
    let head_str = string_of(&head);
    parse_naive_date(head_str.as_str(), "%Y-%m-%d")
}

/// The morning kind of each date, as a map.
pub open spec fn entries_map(s: Seq<(CivilDate, Seq<char>)>) -> Map<CivilDate, Seq<char>>
    decreases s.len(),
{
    if s.len() == 0 {
        Map::empty()
    } else {
        entries_map(s.drop_last()).insert(s.last().0, s.last().1)
    }
}

pub open spec fn keys_unique(s: Seq<(CivilDate, Seq<char>)>) -> bool {
    forall|i: int, j: int| 0 <= i < j < s.len() ==> s[i].0 != s[j].0
}

/// The kind of morning of each date that the schedule names.
pub struct MorningTypes {
    entries: Vec<(CivilDate, String)>,
}

pub open spec fn entry_views(v: Seq<(CivilDate, String)>) -> Seq<(CivilDate, Seq<char>)> {
    v.map_values(|e: (CivilDate, String)| (e.0, e.1@))
}

proof fn lemma_entries_map_lookup(s: Seq<(CivilDate, Seq<char>)>, i: int)
    requires
        keys_unique(s),
        0 <= i < s.len(),
    ensures
        entries_map(s).contains_key(s[i].0),
        entries_map(s)[s[i].0] == s[i].1,
    decreases s.len(),
{
    if i < s.len() - 1 {
        lemma_entries_map_lookup(s.drop_last(), i);
    }
}

proof fn lemma_entries_map_absent(s: Seq<(CivilDate, Seq<char>)>, k: CivilDate)
    requires
        forall|i: int| 0 <= i < s.len() ==> s[i].0 != k,
    ensures
        !entries_map(s).contains_key(k),
    decreases s.len(),
{
    if s.len() > 0 {
        lemma_entries_map_absent(s.drop_last(), k);
    }
}

proof fn lemma_entries_map_update(s: Seq<(CivilDate, Seq<char>)>, i: int, v: Seq<char>)
    requires
        keys_unique(s),
        0 <= i < s.len(),
    ensures
        entries_map(s.update(i, (s[i].0, v))) == entries_map(s).insert(s[i].0, v),
    decreases s.len(),
{
    let t = s.update(i, (s[i].0, v));
    assert(t.drop_last() =~= if i == s.len() - 1 {
        s.drop_last()
    } else {
        s.drop_last().update(i, (s[i].0, v))
    });
    if i < s.len() - 1 {
        lemma_entries_map_update(s.drop_last(), i, v);
        assert(entries_map(t) =~= entries_map(s).insert(s[i].0, v));
    } else {
        assert(entries_map(t) =~= entries_map(s).insert(s[i].0, v));
    }
}

impl MorningTypes {
    /// No date is recorded twice.
    #[verifier::type_invariant]
    closed spec fn wf(&self) -> bool {
        keys_unique(entry_views(self.entries@))
    }

    pub closed spec fn view(&self) -> Map<CivilDate, Seq<char>> {
        entries_map(entry_views(self.entries@))
    }

    /// A map that knows no date.
    pub fn new() -> (r: Self)
        ensures
            r.view() == Map::<CivilDate, Seq<char>>::empty(),
    {
        let r = MorningTypes { entries: Vec::new() };
        assert(entry_views(r.entries@) =~= Seq::<(CivilDate, Seq<char>)>::empty());
        r
    }

    /// Records the morning kind of a date, replacing an earlier one.
    pub fn insert(&mut self, date: CivilDate, kind: String)
        ensures
            final(self).view() == old(self).view().insert(date, kind@),
    {
        proof {
            use_type_invariant(&*self);
        }
        let mut entries: Vec<(CivilDate, String)> = Vec::new();
        std::mem::swap(&mut entries, &mut self.entries);
        let ghost before = entry_views(entries@);
        assert(before == entry_views(old(self).entries@));
        let mut i: usize = 0;
        while i < entries.len()
            invariant
                i <= entries.len(),
                before == entry_views(entries@),
                before == entry_views(old(self).entries@),
                keys_unique(before),
                forall|j: int| 0 <= j < i ==> before[j].0 != date,
            decreases entries.len() - i,
        {
            if entries[i].0 == date {
                let ghost kv = kind@;
                assert(before[i as int].0 == entries@[i as int].0);
                assert(before[i as int].0 == date);
                proof {
                    lemma_entries_map_update(before, i as int, kv);
                }
                entries.set(i, (date, kind));
                assert(entry_views(entries@) =~= before.update(i as int, (before[i as int].0, kv)));
                assert(keys_unique(entry_views(entries@)));
                self.entries = entries;
                return;
            }
            i = i + 1;
        }
        let ghost kv = kind@;
        entries.push((date, kind));
        assert(entry_views(entries@) =~= before.push((date, kv)));
        assert(keys_unique(entry_views(entries@)));
        assert(entry_views(entries@).drop_last() =~= before);
        self.entries = entries;
    }

    /// The morning kind recorded for a date.
    pub fn get(&self, date: &CivilDate) -> (r: Option<&String>)
        ensures
            match r {
                Some(k) => self.view().contains_key(*date) && self.view()[*date] == k@,
                None => !self.view().contains_key(*date),
            },
    {
        proof {
            use_type_invariant(self);
        }
        let ghost views = entry_views(self.entries@);
        let mut i: usize = 0;
        while i < self.entries.len()
            invariant
                i <= self.entries.len(),
                views == entry_views(self.entries@),
                keys_unique(views),
                forall|j: int| 0 <= j < i ==> views[j].0 != *date,
            decreases self.entries.len() - i,
        {
            if self.entries[i].0 == *date {
                proof {
                    lemma_entries_map_lookup(views, i as int);
                }
                return Some(&self.entries[i].1);
            }
            i = i + 1;
        }
        proof {
            lemma_entries_map_absent(views, *date);
        }
        None
    }
}

/// A recorded morning kind can be read back, and recording one date leaves
/// the others as they were.
pub proof fn lemma_morning_types_insert_get(
    m: Map<CivilDate, Seq<char>>,
    date: CivilDate,
    kind: Seq<char>,
    other: CivilDate,
)
    requires
        other != date,
    ensures
        m.insert(date, kind)[date] == kind,
        m.insert(date, kind).contains_key(other) == m.contains_key(other),
        m.insert(date, kind)[other] == m[other],
{
}

/// One schedule day added to the map: recorded when its date can be read.
pub open spec fn spec_add_day(m: Map<CivilDate, Seq<char>>, pvm: Seq<char>, ap: Seq<char>) -> Map<
    CivilDate,
    Seq<char>,
> {
    match spec_parse_pvm(pvm) {
        Some(d) => m.insert(d, ap),
        None => m,
    }
}

/// A week added to the map, Monday to Friday.
pub open spec fn spec_add_week(m: Map<CivilDate, Seq<char>>, w: WeekSchedule) -> Map<
    CivilDate,
    Seq<char>,
> {
    let a = spec_add_day(m, w.ma_pvm@, w.ma_ap@);
    let b = spec_add_day(a, w.ti_pvm@, w.ti_ap@);
    let c = spec_add_day(b, w.ke_pvm@, w.ke_ap@);
    let d = spec_add_day(c, w.to_pvm@, w.to_ap@);
    spec_add_day(d, w.pe_pvm@, w.pe_ap@)
}

/// The morning kinds of the weeks of a schedule, later entries winning.
pub open spec fn spec_morning_types(weeks: Seq<WeekSchedule>) -> Map<CivilDate, Seq<char>>
    decreases weeks.len(),
{
    if weeks.len() == 0 {
        Map::empty()
    } else {
        spec_add_week(spec_morning_types(weeks.drop_last()), weeks.last())
    }
}

/// The date text of day `i` (0 for Monday to 4 for Friday) of a week.
pub open spec fn day_pvm(w: WeekSchedule, i: int) -> Seq<char> {
    if i == 0 {
        w.ma_pvm@
    } else if i == 1 {
        w.ti_pvm@
    } else if i == 2 {
        w.ke_pvm@
    } else if i == 3 {
        w.to_pvm@
    } else {
        w.pe_pvm@
    }
}

/// The morning kind of day `i` (0 for Monday to 4 for Friday) of a week.
pub open spec fn day_ap(w: WeekSchedule, i: int) -> Seq<char> {
    if i == 0 {
        w.ma_ap@
    } else if i == 1 {
        w.ti_ap@
    } else if i == 2 {
        w.ke_ap@
    } else if i == 3 {
        w.to_ap@
    } else {
        w.pe_ap@
    }
}

/// Some day of the week, Monday to Friday, reads as date `d`.
pub open spec fn week_names(w: WeekSchedule, d: CivilDate) -> bool {
    exists|i: int| 0 <= i < 5 && spec_parse_pvm(#[trigger] day_pvm(w, i)) == Some(d)
}

proof fn lemma_add_week(m: Map<CivilDate, Seq<char>>, w: WeekSchedule, d: CivilDate)
    ensures
        spec_add_week(m, w).contains_key(d) == (m.contains_key(d) || week_names(w, d)),
        !week_names(w, d) ==> spec_add_week(m, w)[d] == m[d],
        forall|i: int|
            0 <= i < 5 && spec_parse_pvm(#[trigger] day_pvm(w, i)) == Some(d) && (forall|i2: int|
                i < i2 < 5 ==> spec_parse_pvm(day_pvm(w, i2)) != Some(d)) ==> spec_add_week(m, w)[d]
                == day_ap(w, i),
{
    assert(day_pvm(w, 0) == w.ma_pvm@);
    assert(day_pvm(w, 1) == w.ti_pvm@);
    assert(day_pvm(w, 2) == w.ke_pvm@);
    assert(day_pvm(w, 3) == w.to_pvm@);
    assert(day_pvm(w, 4) == w.pe_pvm@);
    if week_names(w, d) {
        let i = choose|i: int| 0 <= i < 5 && spec_parse_pvm(#[trigger] day_pvm(w, i)) == Some(d);
        assert(i == 0 || i == 1 || i == 2 || i == 3 || i == 4);
    } else {
        assert(spec_parse_pvm(day_pvm(w, 0)) != Some(d));
        assert(spec_parse_pvm(day_pvm(w, 1)) != Some(d));
        assert(spec_parse_pvm(day_pvm(w, 2)) != Some(d));
        assert(spec_parse_pvm(day_pvm(w, 3)) != Some(d));
        assert(spec_parse_pvm(day_pvm(w, 4)) != Some(d));
    }
    assert forall|i: int|
        0 <= i < 5 && spec_parse_pvm(#[trigger] day_pvm(w, i)) == Some(d) && (forall|i2: int|
            i < i2 < 5 ==> spec_parse_pvm(day_pvm(w, i2)) != Some(d)) implies spec_add_week(m, w)[d]
        == day_ap(w, i) by {
        assert(i == 0 || i == 1 || i == 2 || i == 3 || i == 4);
        if i < 1 {
            assert(spec_parse_pvm(day_pvm(w, 1)) != Some(d));
        }
        if i < 2 {
            assert(spec_parse_pvm(day_pvm(w, 2)) != Some(d));
        }
        if i < 3 {
            assert(spec_parse_pvm(day_pvm(w, 3)) != Some(d));
        }
        if i < 4 {
            assert(spec_parse_pvm(day_pvm(w, 4)) != Some(d));
        }
    }
}

/// The morning kinds of a schedule hold exactly the dates that some day of
/// some week reads as, Monday to Friday alike.
pub proof fn lemma_morning_types_dates(weeks: Seq<WeekSchedule>, d: CivilDate)
    ensures
        spec_morning_types(weeks).contains_key(d) <==> exists|k: int|
            0 <= k < weeks.len() && week_names(#[trigger] weeks[k], d),
    decreases weeks.len(),
{
    if weeks.len() > 0 {
        let ws = weeks.drop_last();
        lemma_morning_types_dates(ws, d);
        lemma_add_week(spec_morning_types(ws), weeks.last(), d);
        if exists|k: int| 0 <= k < weeks.len() && week_names(#[trigger] weeks[k], d) {
            let k = choose|k: int| 0 <= k < weeks.len() && week_names(#[trigger] weeks[k], d);
            if k < ws.len() {
                assert(ws[k] == weeks[k]);
            }
        }
        if exists|k: int| 0 <= k < ws.len() && week_names(#[trigger] ws[k], d) {
            let k = choose|k: int| 0 <= k < ws.len() && week_names(#[trigger] ws[k], d);
            assert(weeks[k] == ws[k]);
        }
        assert(weeks[weeks.len() - 1] == weeks.last());
    }
}

/// Each readable day of the schedule, Friday included, records its morning
/// kind for its date, unless a later day of that week or a later week
/// reads as the same date.
pub proof fn lemma_morning_types_record_each_day(
    weeks: Seq<WeekSchedule>,
    k: int,
    i: int,
    d: CivilDate,
)
    requires
        0 <= k < weeks.len(),
        0 <= i < 5,
        spec_parse_pvm(day_pvm(weeks[k], i)) == Some(d),
        forall|i2: int| i < i2 < 5 ==> spec_parse_pvm(#[trigger] day_pvm(weeks[k], i2)) != Some(d),
        forall|j: int| k < j < weeks.len() ==> !week_names(#[trigger] weeks[j], d),
    ensures
        spec_morning_types(weeks).contains_key(d),
        spec_morning_types(weeks)[d] == day_ap(weeks[k], i),
    decreases weeks.len(),
{
    let ws = weeks.drop_last();
    let last = weeks.last();
    assert(last == weeks[weeks.len() - 1]);
    lemma_add_week(spec_morning_types(ws), last, d);
    if k == weeks.len() - 1 {
        assert(spec_parse_pvm(day_pvm(last, i)) == Some(d));
    } else {
        assert(!week_names(weeks[weeks.len() - 1], d));
        assert forall|j: int| k < j < ws.len() implies !week_names(#[trigger] ws[j], d) by {
            assert(ws[j] == weeks[j]);
        }
        assert(ws[k] == weeks[k]);
        lemma_morning_types_record_each_day(ws, k, i, d);
    }
}

fn add_day(m: &mut MorningTypes, pvm: &String, ap: &String)
    ensures
        final(m).view() == spec_add_day(old(m).view(), pvm@, ap@),
{
    match parse_pvm(pvm.as_str()) {
        Some(d) => m.insert(d, ap.clone()),
        None => {},
    }
}

/// The morning kind of each date named by the schedule's weeks.
pub fn collect_morning_types(weeks: &Vec<WeekSchedule>) -> (r: MorningTypes)
    ensures
        r.view() == spec_morning_types(weeks@),
{
    let mut m = MorningTypes::new();
    let mut i: usize = 0;
    while i < weeks.len()
        invariant
            i <= weeks.len(),
            m.view() == spec_morning_types(weeks@.take(i as int)),
        decreases weeks.len() - i,
    {
        let w = &weeks[i];
        assert(weeks@.take(i + 1).drop_last() =~= weeks@.take(i as int));
        add_day(&mut m, &w.ma_pvm, &w.ma_ap);
        add_day(&mut m, &w.ti_pvm, &w.ti_ap);
        add_day(&mut m, &w.ke_pvm, &w.ke_ap);
        add_day(&mut m, &w.to_pvm, &w.to_ap);
        add_day(&mut m, &w.pe_pvm, &w.pe_ap);
        i = i + 1;
    }
    assert(weeks@.take(weeks.len() as int) =~= weeks@);
    m
}

// ---------------------------------------------------------------------------
// Which days to ask about
// ---------------------------------------------------------------------------

/// How many days ahead are looked at.
pub const LOOKAHEAD_DAYS: i64 = 14;

/// How many days are asked about at most.
pub const MAX_FILTERS: usize = 10;

/// The morning kind of an ordinary school day, which keeps the taxi.
pub open spec fn ordinary_morning() -> Seq<char> {
    "Lukujärjestys"@
}

/// A morning without the taxi: the schedule names a kind other than the
/// ordinary one.
pub open spec fn taxi_skipped(m: Map<CivilDate, Seq<char>>, date: CivilDate) -> bool {
    m.contains_key(date) && m[date].len() > 0 && m[date] != ordinary_morning()
}

/// The reservation filter of a day: `kouvola_<date>%20<weekday id>`.
pub open spec fn filter_text(date_text: Seq<char>, id: u64) -> Seq<char> {
    "kouvola_"@ + date_text + "%20"@ + decimal(id as int)
}

/// What the day `offset` days after `today` adds to the filters: nothing
/// once there are ten, nor on a weekend, nor on a morning without the taxi;
/// else the day's filter with the id of its weekday (`ids` is Monday to
/// Friday). `None` when chrono cannot place or format the day.
pub open spec fn filters_step(
    st: Option<Seq<Seq<char>>>,
    today: CivilDate,
    m: Map<CivilDate, Seq<char>>,
    ids: Seq<u64>,
    offset: int,
) -> Option<Seq<Seq<char>>> {
    match st {
        None => None,
        Some(f) => if f.len() >= 10 {
            Some(f)
        } else {
            match date_plus_days(today, offset as i64) {
                None => None,
                Some(date) => match weekday_from_sunday_of(date) {
                    None => None,
                    Some(w) => if w == 0 || w >= 6 {
                        Some(f)
                    } else if taxi_skipped(m, date) {
                        Some(f)
                    } else {
                        match iso_date_text(date) {
                            None => None,
                            Some(ds) => Some(f.push(filter_text(ds, ids[w - 1]))),
                        }
                    },
                },
            }
        },
    }
}

/// The filters after looking at the first `k` days from `today`.
pub open spec fn spec_filters(
    today: CivilDate,
    m: Map<CivilDate, Seq<char>>,
    ids: Seq<u64>,
    k: int,
) -> Option<Seq<Seq<char>>>
    decreases k,
{
    if k <= 0 {
        Some(Seq::empty())
    } else {
        filters_step(spec_filters(today, m, ids, k - 1), today, m, ids, k - 1)
    }
}

pub open spec fn string_views(v: Seq<String>) -> Seq<Seq<char>> {
    v.map_values(|s: String| s@)
}

/// The reservation filters for the school days of the next two weeks,
/// starting today, that keep the taxi: at most ten, in date order.
pub fn reservation_filters(today: &CivilDate, morning_types: &MorningTypes, weekday_ids: &[u64; 5]) -> (r:
    Option<Vec<String>>)
    ensures
        match r {
            Some(v) => spec_filters(*today, morning_types.view(), weekday_ids@, LOOKAHEAD_DAYS as int)
                == Some(string_views(v@)),
            None => spec_filters(*today, morning_types.view(), weekday_ids@, LOOKAHEAD_DAYS as int)
                is None,
        },
{
    let ordinary = chars_of("Lukujärjestys");
    let mut filters: Vec<String> = Vec::new();
    let mut offset: i64 = 0;
    while offset < LOOKAHEAD_DAYS
        invariant
            0 <= offset <= LOOKAHEAD_DAYS,
            ordinary@ == ordinary_morning(),
            spec_filters(*today, morning_types.view(), weekday_ids@, offset as int) == Some(
                string_views(filters@),
            ),
        decreases LOOKAHEAD_DAYS - offset,
    {
        let ghost before = string_views(filters@);
        if filters.len() >= MAX_FILTERS {
            proof {
                lemma_filters_saturated(*today, morning_types.view(), weekday_ids@, offset as int, before);
            }
            return Some(filters);
        }
        let date = match add_days(today, offset) {
            Some(d) => d,
            None => {
                proof {
                    lemma_filters_none(*today, morning_types.view(), weekday_ids@, offset as int + 1);
                }
                return None;
            },
        };
        let w = match weekday_from_sunday(&date) {
            Some(w) => w,
            None => {
                proof {
                    lemma_filters_none(*today, morning_types.view(), weekday_ids@, offset as int + 1);
                }
                return None;
            },
        };
        if w == 0 || w >= 6 {
            offset = offset + 1;
            continue;
        }
        let skipped = match morning_types.get(&date) {
            Some(kind) => {
                let kv = chars_of(kind.as_str());
                kv.len() > 0 && !chars_eq(&kv, &ordinary)
            },
            None => false,
        };
        if skipped {
            offset = offset + 1;
            continue;
        }
        let ds = match format_date(&date, "%Y-%m-%d") {
            Some(ds) => ds,
            None => {
                proof {
                    lemma_filters_none(*today, morning_types.view(), weekday_ids@, offset as int + 1);
                }
                return None;
            },
        };
        let mut text = chars_of("kouvola_");
        append_chars(&mut text, &chars_of(ds.as_str()));
        append_chars(&mut text, &chars_of("%20"));
        append_chars(&mut text, &decimal_u64(weekday_ids[(w - 1) as usize]));
        let s = string_of(&text);
        filters.push(s);
        assert(string_views(filters@) =~= before.push(filter_text(ds@, weekday_ids@[w - 1])));
        offset = offset + 1;
    }
    Some(filters)
}

proof fn lemma_filters_none(today: CivilDate, m: Map<CivilDate, Seq<char>>, ids: Seq<u64>, k: int)
    requires
        1 <= k <= LOOKAHEAD_DAYS,
        spec_filters(today, m, ids, k) is None,
    ensures
        spec_filters(today, m, ids, LOOKAHEAD_DAYS as int) is None,
    decreases LOOKAHEAD_DAYS - k,
{
    if k < LOOKAHEAD_DAYS {
        assert(spec_filters(today, m, ids, k + 1) is None);
        lemma_filters_none(today, m, ids, k + 1);
    }
}

proof fn lemma_filters_saturated(
    today: CivilDate,
    m: Map<CivilDate, Seq<char>>,
    ids: Seq<u64>,
    k: int,
    f: Seq<Seq<char>>,
)
    requires
        0 <= k <= LOOKAHEAD_DAYS,
        f.len() >= 10,
        spec_filters(today, m, ids, k) == Some(f),
    ensures
        spec_filters(today, m, ids, LOOKAHEAD_DAYS as int) == Some(f),
    decreases LOOKAHEAD_DAYS - k,
{
    if k < LOOKAHEAD_DAYS {
        assert(spec_filters(today, m, ids, k + 1) == Some(f));
        lemma_filters_saturated(today, m, ids, k + 1, f);
    }
}

/// The filters never number more than ten.
pub proof fn lemma_filters_at_most_ten(
    today: CivilDate,
    m: Map<CivilDate, Seq<char>>,
    ids: Seq<u64>,
    k: int,
)
    ensures
        spec_filters(today, m, ids, k) matches Some(f) ==> f.len() <= 10,
    decreases k,
{
    if k > 0 {
        lemma_filters_at_most_ten(today, m, ids, k - 1);
    }
}

/// Today's date in Helsinki at Unix time `now`.
pub fn today_in_helsinki(now: i64) -> (r: Option<CivilDate>)
    ensures
        r == match helsinki_civil_of(now) {
            Some(dt) => Some(dt.date),
            None => None,
        },
{
    match helsinki_civil(now) {
        Some(dt) => Some(dt.date),
        None => None,
    }
}

// ---------------------------------------------------------------------------
// Endpoints
// ---------------------------------------------------------------------------

pub open spec fn schedule_url_prefix() -> Seq<char> {
    "https://intra.kuntalogistiikka.fi/api/MunAppAPI/v1/model/MunAppSchedule/"@
}

pub open spec fn routepoints_url_prefix() -> Seq<char> {
    "https://intra.kuntalogistiikka.fi/api/MunAppAPI/v1/model/VehicleReservationsRoutepoints?ReservationsExportSystemIdIn="@
}

pub open spec fn routepoints_url_customer() -> Seq<char> {
    "&RoutepointsCustomerRiviIdIn="@
}

/// The address of the weekly schedule of a customer.
pub fn schedule_url(customer_rivi_id: u64) -> (r: String)
    ensures
        r@ == schedule_url_prefix() + decimal(customer_rivi_id as int),
{
    let mut v = chars_of("https://intra.kuntalogistiikka.fi/api/MunAppAPI/v1/model/MunAppSchedule/");
    append_chars(&mut v, &decimal_u64(customer_rivi_id));
    string_of(&v)
}

/// The address of the route points of the given reservations of a
/// customer: the filters joined with commas.
pub fn routepoints_url(filters: &Vec<String>, customer_rivi_id: u64) -> (r: String)
    ensures
        r@ == routepoints_url_prefix() + join(string_views(filters@), ","@) + routepoints_url_customer()
            + decimal(customer_rivi_id as int),
{
    let mut parts: Vec<Vec<char>> = Vec::new();
    let mut i: usize = 0;
    while i < filters.len()
        invariant
            i <= filters.len(),
            parts@.len() == i,
            char_views(parts@) == string_views(filters@).take(i as int),
        decreases filters.len() - i,
    {
        let ghost before = parts@;
        let c = chars_of(filters[i].as_str());
        parts.push(c);
        assert forall|j: int| 0 <= j < i + 1 implies #[trigger] char_views(parts@)[j]
            == string_views(filters@).take(i + 1)[j] by {
            if j < i {
                assert(parts@[j] == before[j]);
                assert(char_views(before)[j] == string_views(filters@).take(i as int)[j]);
            }
        }
        assert(char_views(parts@) =~= string_views(filters@).take(i + 1));
        i = i + 1;
    }
    assert(string_views(filters@).take(filters.len() as int) =~= string_views(filters@));
    let joined = join_chars(&parts, &chars_of(","));
    let mut v = chars_of(
        "https://intra.kuntalogistiikka.fi/api/MunAppAPI/v1/model/VehicleReservationsRoutepoints?ReservationsExportSystemIdIn=",
    );
    append_chars(&mut v, &joined);
    append_chars(&mut v, &chars_of("&RoutepointsCustomerRiviIdIn="));
    append_chars(&mut v, &decimal_u64(customer_rivi_id));
    string_of(&v)
}

// ---------------------------------------------------------------------------
// The next pickup
// ---------------------------------------------------------------------------

/// The timestamp of a route point time (`%Y-%m-%dT%H:%M:%S`, Helsinki
/// time), when it reads and occurs exactly once.
pub open spec fn route_point_ts(time: Seq<char>) -> Option<i64> {
    match naive_datetime_parsed(time, "%Y-%m-%dT%H:%M:%S"@) {
        Some(n) => helsinki_timestamp_of(n),
        None => None,
    }
}

/// The earliest route point after `now` among the first `k` times.
pub open spec fn spec_next_pickup(times: Seq<Seq<char>>, now: i64, k: int) -> Option<i64>
    decreases k,
{
    if k <= 0 {
        None
    } else {
        let best = spec_next_pickup(times, now, k - 1);
        match route_point_ts(times[k - 1]) {
            Some(ts) => if ts > now && (best is None || ts < best->0) {
                Some(ts)
            } else {
                best
            },
            None => best,
        }
    }
}

/// The earliest route point after `now`, or `None` when no time reads as a
/// later Helsinki time.
pub fn next_pickup(times: &Vec<String>, now: i64) -> (r: Option<TaxiPickup>)
    ensures
        match r {
            Some(p) => spec_next_pickup(string_views(times@), now, times@.len() as int) == Some(
                p.scheduled_ts,
            ),
            None => spec_next_pickup(string_views(times@), now, times@.len() as int) is None,
        },
{
    let ghost tv = string_views(times@);
    let mut best: Option<i64> = None;
    let mut i: usize = 0;
    while i < times.len()
        invariant
            i <= times.len(),
            tv == string_views(times@),
            best == spec_next_pickup(tv, now, i as int),
        decreases times.len() - i,
    {
        assert(tv[i as int] == times@[i as int]@);
        match parse_naive_datetime(times[i].as_str(), "%Y-%m-%dT%H:%M:%S") {
            Some(n) => match helsinki_timestamp(&n) {
                Some(ts) => {
                    let better = match best {
                        Some(b) => ts < b,
                        None => true,
                    };
                    if ts > now && better {
                        best = Some(ts);
                    }
                },
                None => {},
            },
            None => {},
        }
        i = i + 1;
    }
    match best {
        Some(ts) => Some(TaxiPickup { scheduled_ts: ts }),
        None => None,
    }
}

/// The next pickup is later than `now`, is one of the route points, and no
/// route point after `now` comes before it.
pub proof fn lemma_next_pickup_earliest(times: Seq<Seq<char>>, now: i64, k: int)
    requires
        0 <= k <= times.len(),
    ensures
        spec_next_pickup(times, now, k) matches Some(t) ==> t > now && exists|j: int|
            0 <= j < k && route_point_ts(times[j]) == Some(t),
        forall|j: int|
            0 <= j < k && #[trigger] route_point_ts(times[j]) is Some && route_point_ts(
                times[j],
            )->0 > now ==> (spec_next_pickup(times, now, k) is Some && spec_next_pickup(
                times,
                now,
                k,
            )->0 <= route_point_ts(times[j])->0),
    decreases k,
{
    if k > 0 {
        lemma_next_pickup_earliest(times, now, k - 1);
    }
}

} // verus!

//! The decisions behind the SVG screen: which weather icon a code shows,
//! the hour labels, the texts of the calendar and of the taxi countdown,
//! XML escaping, the inner markup of an embedded icon and the integer part
//! of the screen layout. Drawing coordinates are floating point and are
//! computed by the program around the library.
use vstd::prelude::*;

use crate::civil::{
    format_datetime, hour_minute_text, helsinki_civil, helsinki_civil_of, helsinki_timestamp,
    helsinki_timestamp_of, midnight, weekday_from_sunday, weekday_from_sunday_of, CivilDateTime,
};
use crate::text::{
    append_chars, chars_of, decimal, decimal_i64, decimal_u64, find_char_from, find_from,
    has_char, lemma_chunks_single, lemma_replace_char_shift, lemma_replace_chunks,
    no_start_inside, lemma_replace_from_absent, occurs_at, occurs_at_exec,
    replace_all, replace_chars, string_of, sub_chars,
};

verus! {

// ---------------------------------------------------------------------------
// Weather icons
// ---------------------------------------------------------------------------

/// The pictures that the weather codes of Open-Meteo are drawn as.
#[derive(Clone, Copy, Debug, PartialEq, Eq, Structural)]
pub enum WeatherIcon {
    /// Code 0: a sun.
    Clear,
    /// Codes 1 to 3: a sun behind a cloud.
    PartlyCloudy,
    /// Codes 4 to 48: a cloud (fog included).
    Cloudy,
    /// Codes 49 to 67 and 80 to 82: a cloud with rain.
    Rain,
    /// Codes 68 to 77: a snow flake.
    Snow,
    /// Codes from 78 on, but for 80 to 82: a cloud with lightning.
    Thunder,
}

pub open spec fn spec_icon_kind(code: u32) -> WeatherIcon {
    if code == 0 {
        WeatherIcon::Clear
    } else if code <= 3 {
        WeatherIcon::PartlyCloudy
    } else if code <= 48 {
        WeatherIcon::Cloudy
    } else if code <= 67 || (code >= 80 && code <= 82) {
        WeatherIcon::Rain
    } else if code <= 77 {
        WeatherIcon::Snow
    } else {
        WeatherIcon::Thunder
    }
}

/// The icon that a weather code is drawn as.
pub fn icon_kind(code: u32) -> (r: WeatherIcon)
    ensures
        r == spec_icon_kind(code),
{
    if code == 0 {
        WeatherIcon::Clear
    } else if code <= 3 {
        WeatherIcon::PartlyCloudy
    } else if code <= 48 {
        WeatherIcon::Cloudy
    } else if code <= 67 || (code >= 80 && code <= 82) {
        WeatherIcon::Rain
    } else if code <= 77 {
        WeatherIcon::Snow
    } else {
        WeatherIcon::Thunder
    }
}

/// The icons by weather code, as Open-Meteo groups the codes: clear sky for
/// 0, partly cloudy for 1 to 3, fog and overcast up to 48 drawn as a cloud,
/// every code from 49 to 67 (drizzle, freezing drizzle, rain, freezing rain)
/// and the showers 80 to 82 drawn as rain, only 68 to 77 drawn as snow, and
/// every other code drawn as a thunder cloud.
pub proof fn lemma_icon_by_code(code: u32)
    ensures
        spec_icon_kind(code) == WeatherIcon::Clear <==> code == 0,
        spec_icon_kind(code) == WeatherIcon::PartlyCloudy <==> 1 <= code <= 3,
        spec_icon_kind(code) == WeatherIcon::Cloudy <==> 4 <= code <= 48,
        spec_icon_kind(code) == WeatherIcon::Rain <==> (49 <= code <= 67 || 80 <= code <= 82),
        spec_icon_kind(code) == WeatherIcon::Snow <==> 68 <= code <= 77,
        spec_icon_kind(code) == WeatherIcon::Thunder <==> (code == 78 || code == 79 || code >= 83),
{
}

// ---------------------------------------------------------------------------
// Hour labels
// ---------------------------------------------------------------------------

/// The hour of an ISO time such as `2026-04-30T14:00`: the text after the
/// first `T` up to the next `T` or `:`; nothing when there is no `T`.
pub open spec fn spec_hour_label(time: Seq<char>) -> Seq<char> {
    let t = find_from(time, 'T', 0);
    if t >= time.len() {
        Seq::empty()
    } else {
        let rest = time.skip(t + 1);
        let piece = rest.take(find_from(rest, 'T', 0));
        piece.take(find_from(piece, ':', 0))
    }
}

/// The hour label under the temperature graph for an ISO time.
pub fn hour_label(time: &str) -> (r: String)
    ensures
        r@ == spec_hour_label(time@),
{
    let s = chars_of(time);
    let t = find_char_from(&s, 'T', 0);
    if t >= s.len() {
        return string_of(&Vec::new());
    }
    let rest = sub_chars(&s, t + 1, s.len());
    assert(rest@ =~= s@.skip(t + 1));
    let t2 = find_char_from(&rest, 'T', 0);
    let piece = sub_chars(&rest, 0, t2);
    assert(piece@ =~= rest@.take(t2 as int));
    let c = find_char_from(&piece, ':', 0);
    let label = sub_chars(&piece, 0, c);
    assert(label@ =~= piece@.take(c as int));
    string_of(&label)
}

// ---------------------------------------------------------------------------
// XML escaping
// ---------------------------------------------------------------------------

/// Text made safe inside XML: `&`, `<` and `>` become entities.
pub open spec fn spec_xml_escape(s: Seq<char>) -> Seq<char> {
    let a = replace_all(s, "&"@, "&amp;"@);
    let b = replace_all(a, "<"@, "&lt;"@);
    replace_all(b, ">"@, "&gt;"@)
}

/// Escapes `&`, `<` and `>` for use in XML text.
pub fn xml_escape(s: &str) -> (r: String)
    ensures
        r@ == spec_xml_escape(s@),
{
    proof {
        reveal_strlit("&");
        reveal_strlit("<");
        reveal_strlit(">");
    }
    let v = chars_of(s);
    let amp = chars_of("&");
    let lt = chars_of("<");
    let gt = chars_of(">");
    let a = replace_chars(&v, &amp, &chars_of("&amp;"));
    let b = replace_chars(&a, &lt, &chars_of("&lt;"));
    let c = replace_chars(&b, &gt, &chars_of("&gt;"));
    string_of(&c)
}

/// After replacing the character `c` by `r`, a character `d` occurs exactly
/// when it occurred before and is not `c`, or `c` occurred and `r` holds `d`.
pub proof fn lemma_has_char_replace(s: Seq<char>, c: char, r: Seq<char>, d: char)
    ensures
        has_char(replace_all(s, seq![c], r), d) <==> (has_char(s, d) && d != c) || (has_char(s, c)
            && has_char(r, d)),
    decreases s.len(),
{
    if s.len() == 0 {
        assert(replace_all(s, seq![c], r) =~= Seq::<char>::empty());
    } else {
        lemma_replace_char_shift(s, c, r, 0);
        let t = s.skip(1);
        lemma_has_char_replace(t, c, r, d);
        let head = if s[0] == c {
            r
        } else {
            seq![s[0]]
        };
        let whole = replace_all(s, seq![c], r);
        let tail = replace_all(t, seq![c], r);
        assert(whole == head + tail);
        lemma_has_char_concat(head, tail, d);
        assert(has_char(s, d) <==> s[0] == d || has_char(t, d)) by {
            if has_char(s, d) {
                let i = choose|i: int| 0 <= i < s.len() && s[i] == d;
                if i > 0 {
                    assert(t[i - 1] == d);
                }
            }
            if has_char(t, d) {
                let i = choose|i: int| 0 <= i < t.len() && t[i] == d;
                assert(s[i + 1] == d);
            }
        }
        assert(has_char(s, c) <==> s[0] == c || has_char(t, c)) by {
            if has_char(s, c) {
                let i = choose|i: int| 0 <= i < s.len() && s[i] == c;
                if i > 0 {
                    assert(t[i - 1] == c);
                }
            }
            if has_char(t, c) {
                let i = choose|i: int| 0 <= i < t.len() && t[i] == c;
                assert(s[i + 1] == c);
            }
        }
        if s[0] != c {
            assert(has_char(head, d) <==> s[0] == d) by {
                if has_char(head, d) {
                    let i = choose|i: int| 0 <= i < head.len() && head[i] == d;
                    assert(i == 0);
                }
                if s[0] == d {
                    assert(head[0] == d);
                }
            }
        }
    }
}

proof fn lemma_has_char_concat(a: Seq<char>, b: Seq<char>, d: char)
    ensures
        has_char(a + b, d) <==> has_char(a, d) || has_char(b, d),
{
    let w = a + b;
    if has_char(w, d) {
        let i = choose|i: int| 0 <= i < w.len() && w[i] == d;
        if i >= a.len() {
            assert(b[i - a.len()] == d);
        } else {
            assert(a[i] == d);
        }
    }
    if has_char(a, d) {
        let i = choose|i: int| 0 <= i < a.len() && a[i] == d;
        assert(w[i] == d);
    }
    if has_char(b, d) {
        let i = choose|i: int| 0 <= i < b.len() && b[i] == d;
        assert(w[a.len() + i] == d);
    }
}

/// Escaped text holds no `<` and no `>`.
pub proof fn lemma_xml_escape_no_angle_brackets(s: Seq<char>)
    ensures
        !has_char(spec_xml_escape(s), '<'),
        !has_char(spec_xml_escape(s), '>'),
{
    reveal_strlit("&");
    reveal_strlit("<");
    reveal_strlit(">");
    reveal_strlit("&amp;");
    reveal_strlit("&lt;");
    reveal_strlit("&gt;");
    assert("&"@ =~= seq!['&']);
    assert("<"@ =~= seq!['<']);
    assert(">"@ =~= seq!['>']);
    let a = replace_all(s, "&"@, "&amp;"@);
    let b = replace_all(a, "<"@, "&lt;"@);
    lemma_has_char_replace(s, '&', "&amp;"@, '<');
    lemma_has_char_replace(a, '<', "&lt;"@, '<');
    lemma_has_char_replace(b, '>', "&gt;"@, '<');
    lemma_has_char_replace(s, '&', "&amp;"@, '>');
    lemma_has_char_replace(a, '<', "&lt;"@, '>');
    lemma_has_char_replace(b, '>', "&gt;"@, '>');
    assert(!has_char("&lt;"@, '<'));
    assert(!has_char("&lt;"@, '>'));
    assert(!has_char("&gt;"@, '<'));
    assert(!has_char("&gt;"@, '>'));
    assert(!has_char("&amp;"@, '<'));
    assert(!has_char("&amp;"@, '>'));
}

/// Text without `&`, `<` and `>` is left as it is.
pub proof fn lemma_xml_escape_plain(s: Seq<char>)
    requires
        !has_char(s, '&'),
        !has_char(s, '<'),
        !has_char(s, '>'),
    ensures
        spec_xml_escape(s) == s,
{
    reveal_strlit("&");
    reveal_strlit("<");
    reveal_strlit(">");
    lemma_replace_absent_char(s, '&', "&amp;"@);
    lemma_replace_absent_char(s, '<', "&lt;"@);
    lemma_replace_absent_char(s, '>', "&gt;"@);
    assert("&"@ =~= seq!['&']);
    assert("<"@ =~= seq!['<']);
    assert(">"@ =~= seq!['>']);
}

/// Text with the entities `&lt;`, `&gt;` and `&amp;` turned back into `<`,
/// `>` and `&`, in that order.
pub open spec fn spec_xml_unescape(t: Seq<char>) -> Seq<char> {
    let a = replace_all(t, "&lt;"@, "<"@);
    let b = replace_all(a, "&gt;"@, ">"@);
    replace_all(b, "&amp;"@, "&"@)
}

/// Turning the entities back gives the text that was escaped, so escaping
/// never maps two texts to the same one.
pub proof fn lemma_xml_escape_round_trip(s: Seq<char>)
    ensures
        spec_xml_unescape(spec_xml_escape(s)) == s,
{
    reveal_strlit("&");
    reveal_strlit("<");
    reveal_strlit(">");
    reveal_strlit("&amp;");
    reveal_strlit("&lt;");
    reveal_strlit("&gt;");
    let amp = seq!['&', 'a', 'm', 'p', ';'];
    let lt = seq!['&', 'l', 't', ';'];
    let gt = seq!['&', 'g', 't', ';'];
    assert("&"@ =~= seq!['&']);
    assert("<"@ =~= seq!['<']);
    assert(">"@ =~= seq!['>']);
    assert("&amp;"@ =~= amp);
    assert("&lt;"@ =~= lt);
    assert("&gt;"@ =~= gt);
    assert(no_start_inside(amp, seq!['<'])) by {
        assert forall|j: int| 0 <= j < amp.len() implies #[trigger] amp[j] != '<' by {}
    }
    assert(no_start_inside(amp, seq!['>'])) by {
        assert forall|j: int| 0 <= j < amp.len() implies #[trigger] amp[j] != '>' by {}
    }
    assert(no_start_inside(lt, seq!['>'])) by {
        assert forall|j: int| 0 <= j < lt.len() implies #[trigger] lt[j] != '>' by {}
    }
    assert(no_start_inside(amp, lt)) by {
        assert forall|j: int| 0 <= j < amp.len() implies #[trigger] amp[j] != lt[0] || (j + 1
            < amp.len() && lt.len() > 1 && amp[j + 1] != lt[1]) by {}
    }
    assert(no_start_inside(gt, lt)) by {
        assert forall|j: int| 0 <= j < gt.len() implies #[trigger] gt[j] != lt[0] || (j + 1
            < gt.len() && lt.len() > 1 && gt[j + 1] != lt[1]) by {}
    }
    assert(no_start_inside(amp, gt)) by {
        assert forall|j: int| 0 <= j < amp.len() implies #[trigger] amp[j] != gt[0] || (j + 1
            < amp.len() && gt.len() > 1 && amp[j + 1] != gt[1]) by {}
    }
    let one = |c: char| seq![c];
    let e1 = |c: char|
        if c == '&' {
            amp
        } else {
            seq![c]
        };
    let e2 = |c: char|
        if c == '&' {
            amp
        } else if c == '<' {
            lt
        } else {
            seq![c]
        };
    let e3 = |c: char|
        if c == '&' {
            amp
        } else if c == '<' {
            lt
        } else if c == '>' {
            gt
        } else {
            seq![c]
        };
    let u1 = |c: char|
        if c == '&' {
            amp
        } else if c == '>' {
            gt
        } else {
            seq![c]
        };
    lemma_chunks_single(one, s);
    lemma_replace_chunks(one, e1, s, seq!['&'], amp);
    lemma_replace_chunks(e1, e2, s, seq!['<'], lt);
    lemma_replace_chunks(e2, e3, s, seq!['>'], gt);
    lemma_replace_chunks(e3, u1, s, lt, seq!['<']);
    lemma_replace_chunks(u1, e1, s, gt, seq!['>']);
    lemma_replace_chunks(e1, one, s, amp, seq!['&']);
}

/// Escaping never maps two different texts to the same one.
pub proof fn lemma_xml_escape_injective(a: Seq<char>, b: Seq<char>)
    requires
        spec_xml_escape(a) == spec_xml_escape(b),
    ensures
        a == b,
{
    lemma_xml_escape_round_trip(a);
    lemma_xml_escape_round_trip(b);
}

proof fn lemma_replace_absent_char(s: Seq<char>, c: char, r: Seq<char>)
    requires
        !has_char(s, c),
    ensures
        replace_all(s, seq![c], r) == s,
{
    assert forall|j: int| 0 <= j < s.len() implies !occurs_at(s, j, seq![c]) by {
        if occurs_at(s, j, seq![c]) {
            assert(s.subrange(j, j + 1)[0] == s[j]);
            assert(s[j] == c);
        }
    }
    assert forall|j: int| 0 <= j < s.len() implies !occurs_at(s, j, seq![c]) by {}
    lemma_replace_from_absent(s, seq![c], r, 0);
    assert(s.subrange(0, s.len() as int) =~= s);
}

// ---------------------------------------------------------------------------
// The inner markup of an embedded icon
// ---------------------------------------------------------------------------

/// Index of the first occurrence of `p` in `s` at or after `i`.
pub open spec fn first_occurrence_from(s: Seq<char>, p: Seq<char>, i: int) -> Option<int>
    decreases s.len() + 1 - i,
{
    if i < 0 || i + p.len() > s.len() {
        None
    } else if occurs_at(s, i, p) {
        Some(i)
    } else {
        first_occurrence_from(s, p, i + 1)
    }
}

/// Index of the last occurrence of `p` in `s` that starts at or before `i`.
pub open spec fn last_occurrence_upto(s: Seq<char>, p: Seq<char>, i: int) -> Option<int>
    decreases i + 1,
{
    if i < 0 {
        None
    } else if occurs_at(s, i, p) {
        Some(i)
    } else {
        last_occurrence_upto(s, p, i - 1)
    }
}

/// Where the inner markup of an SVG document starts: after the `>` that
/// closes the first `<svg` tag, or at 0.
pub open spec fn svg_inner_start(svg: Seq<char>) -> int {
    match first_occurrence_from(svg, "<svg"@, 0) {
        Some(i) => {
            let rest = svg.skip(i);
            let j = find_from(rest, '>', 0);
            if j < rest.len() {
                i + j + 1
            } else {
                0
            }
        },
        None => 0,
    }
}

/// Where the inner markup of an SVG document ends: at the last `</svg>`, or
/// at the end.
pub open spec fn svg_inner_end(svg: Seq<char>) -> int {
    match last_occurrence_upto(svg, "</svg>"@, svg.len() as int) {
        Some(i) => i,
        None => svg.len() as int,
    }
}

fn first_occurrence(s: &Vec<char>, p: &Vec<char>) -> (r: Option<usize>)
    ensures
        match r {
            Some(i) => first_occurrence_from(s@, p@, 0) == Some(i as int),
            None => first_occurrence_from(s@, p@, 0) is None,
        },
{
    if p.len() > s.len() {
        return None;
    }
    let last = s.len() - p.len();
    let mut i: usize = 0;
    while i <= last
        invariant
            last == s.len() - p.len(),
            i <= last + 1,
            first_occurrence_from(s@, p@, i as int) == first_occurrence_from(s@, p@, 0),
        decreases last + 1 - i,
    {
        if occurs_at_exec(s, i, p) {
            return Some(i);
        }
        if i == last {
            assert(first_occurrence_from(s@, p@, i + 1) is None);
            return None;
        }
        i = i + 1;
    }
    None
}

fn last_occurrence(s: &Vec<char>, p: &Vec<char>) -> (r: Option<usize>)
    ensures
        match r {
            Some(i) => last_occurrence_upto(s@, p@, s@.len() as int) == Some(i as int),
            None => last_occurrence_upto(s@, p@, s@.len() as int) is None,
        },
{
    let mut i: usize = s.len();
    loop
        invariant
            i <= s.len(),
            last_occurrence_upto(s@, p@, i as int) == last_occurrence_upto(s@, p@, s@.len() as int),
        decreases i,
    {
        if occurs_at_exec(s, i, p) {
            return Some(i);
        }
        if i == 0 {
            assert(last_occurrence_upto(s@, p@, -1) is None);
            return None;
        }
        i = i - 1;
    }
}

/// The bounds of the inner markup of an SVG document, in characters.
pub fn svg_inner_bounds(svg: &str) -> (r: (usize, usize))
    ensures
        r.0 == svg_inner_start(svg@),
        r.1 == svg_inner_end(svg@),
{
    proof {
        reveal_strlit("<svg");
        reveal_strlit("</svg>");
    }
    let s = chars_of(svg);
    let open = chars_of("<svg");
    let close = chars_of("</svg>");
    let start = match first_occurrence(&s, &open) {
        Some(i) => {
            proof {
                lemma_first_occurrence_bound(s@, open@, 0);
            }
            let rest = sub_chars(&s, i, s.len());
            assert(rest@ =~= s@.skip(i as int));
            let j = find_char_from(&rest, '>', 0);
            if j < rest.len() {
                i + j + 1
            } else {
                0
            }
        },
        None => 0,
    };
    let end = match last_occurrence(&s, &close) {
        Some(i) => {
            proof {
                lemma_last_occurrence_bound(s@, close@, s@.len() as int);
            }
            i
        },
        None => s.len(),
    };
    (start, end)
}

proof fn lemma_last_occurrence_bound(s: Seq<char>, p: Seq<char>, i: int)
    ensures
        last_occurrence_upto(s, p, i) matches Some(k) ==> 0 <= k <= i && occurs_at(s, k, p),
    decreases i + 1,
{
    if i >= 0 && !occurs_at(s, i, p) {
        lemma_last_occurrence_bound(s, p, i - 1);
    }
}

/// The markup inside the outer `<svg>` element of an icon, or `None` when
/// the closing tag comes before the end of the opening one.
pub fn svg_inner(svg: &str) -> (r: Option<String>)
    ensures
        match r {
            Some(inner) => svg_inner_start(svg@) <= svg_inner_end(svg@) && inner@ == svg@.subrange(
                svg_inner_start(svg@),
                svg_inner_end(svg@),
            ),
            None => svg_inner_start(svg@) > svg_inner_end(svg@),
        },
{
    let (start, end) = svg_inner_bounds(svg);
    if start > end {
        return None;
    }
    let s = chars_of(svg);
    proof {
        let open = "<svg"@;
        match first_occurrence_from(svg@, open, 0) {
            Some(i) => {
                lemma_first_occurrence_bound(svg@, open, 0);
                lemma_skip_find(svg@, i);
            },
            None => {},
        }
        lemma_last_occurrence_bound(svg@, "</svg>"@, svg@.len() as int);
    }
    let inner = sub_chars(&s, start, end);
    Some(string_of(&inner))
}

proof fn lemma_first_occurrence_bound(s: Seq<char>, p: Seq<char>, i: int)
    ensures
        first_occurrence_from(s, p, i) matches Some(k) ==> i <= k && k + p.len() <= s.len(),
    decreases s.len() + 1 - i,
{
    if i >= 0 && i + p.len() <= s.len() && !occurs_at(s, i, p) {
        lemma_first_occurrence_bound(s, p, i + 1);
    }
}

proof fn lemma_skip_find(s: Seq<char>, i: int)
    requires
        0 <= i <= s.len(),
    ensures
        find_from(s.skip(i), '>', 0) <= s.len() - i,
{
    crate::text::lemma_find_from_char(s.skip(i), '>', 0);
}

// ---------------------------------------------------------------------------
// Calendar texts
// ---------------------------------------------------------------------------

/// The timestamp of the Helsinki midnight that starts the day of `ts`.
pub open spec fn spec_day_bucket(ts: i64) -> Option<i64> {
    match helsinki_civil_of(ts) {
        Some(dt) => helsinki_timestamp_of(midnight(dt.date)),
        None => None,
    }
}

/// The Helsinki midnight that starts the day of `ts`, or `None` when chrono
/// cannot place `ts` or that midnight in Helsinki time. The bucket shows
/// midnight of `ts`'s Helsinki date on a Helsinki clock, so it is its own
/// bucket.
pub fn day_bucket(ts: i64) -> (r: Option<i64>)
    ensures
        r == spec_day_bucket(ts),
        r matches Some(b) ==> (helsinki_civil_of(ts) matches Some(d) && helsinki_civil_of(b)
            == Some(midnight(d.date))),
        r matches Some(b) ==> spec_day_bucket(b) == Some(b),
{
    match helsinki_civil(ts) {
        Some(dt) => {
            let m = CivilDateTime { date: dt.date, hour: 0, minute: 0, second: 0 };
            helsinki_timestamp(&m)
        },
        None => None,
    }
}

/// The Finnish abbreviation of a weekday counted from Sunday.
pub open spec fn fi_weekday(w: int) -> Seq<char> {
    if w == 0 {
        "su"@
    } else if w == 1 {
        "ma"@
    } else if w == 2 {
        "ti"@
    } else if w == 3 {
        "ke"@
    } else if w == 4 {
        "to"@
    } else if w == 5 {
        "pe"@
    } else {
        "la"@
    }
}

/// `a / b` rounded toward zero, as Rust's integer division does.
pub open spec fn trunc_div(a: int, b: int) -> int {
    if a >= 0 {
        a / b
    } else {
        -((-a) / b)
    }
}

/// How an event's day is named: "Tänään" (today) and "Huomenna" (tomorrow)
/// by whole days between the Helsinki midnights, else weekday and date as
/// `ke 6.5.`.
pub open spec fn spec_day_prefix(bucket: i64, today: i64, dt: CivilDateTime) -> Option<Seq<char>> {
    let diff = trunc_div(bucket - today, 86400);
    if diff == 0 {
        Some("Tänään"@)
    } else if diff == 1 {
        Some("Huomenna"@)
    } else {
        match weekday_from_sunday_of(dt.date) {
            Some(w) => Some(
                fi_weekday(w as int) + " "@ + decimal(dt.date.day as int) + "."@ + decimal(
                    dt.date.month as int,
                ) + "."@,
            ),
            None => None,
        }
    }
}

/// The day's name follows the whole days between the event's Helsinki
/// midnight and today's: "Tänään" exactly when they are the same day,
/// "Huomenna" exactly when the event's is the next one, and for any other
/// difference (two days or more ahead, or in the past) the Finnish weekday,
/// a space and the date as `day.month.`.
pub proof fn lemma_day_prefix_names(bucket: i64, today: i64, dt: CivilDateTime)
    ensures
        spec_day_prefix(bucket, today, dt) == Some("Tänään"@) <==> -86400 < bucket - today < 86400,
        spec_day_prefix(bucket, today, dt) == Some("Huomenna"@) <==> 86400 <= bucket - today
            < 172800,
        (bucket - today >= 172800 || bucket - today <= -86400) ==> spec_day_prefix(bucket, today, dt)
            == match weekday_from_sunday_of(dt.date) {
            Some(w) => Some(
                fi_weekday(w as int) + " "@ + decimal(dt.date.day as int) + "."@ + decimal(
                    dt.date.month as int,
                ) + "."@,
            ),
            None => None,
        },
{
    reveal_strlit("Tänään");
    reveal_strlit("Huomenna");
    reveal_strlit(" ");
    reveal_strlit("su");
    reveal_strlit("ma");
    reveal_strlit("ti");
    reveal_strlit("ke");
    reveal_strlit("to");
    reveal_strlit("pe");
    reveal_strlit("la");
    let x = bucket - today;
    assert(trunc_div(x, 86400) == 0 <==> -86400 < x < 86400);
    assert(trunc_div(x, 86400) == 1 <==> 86400 <= x < 172800);
    assert("Tänään"@ != "Huomenna"@) by {
        assert("Tänään"@[1] != "Huomenna"@[1]);
    }
    match weekday_from_sunday_of(dt.date) {
        Some(w) => {
            let p = fi_weekday(w as int) + " "@ + decimal(dt.date.day as int) + "."@ + decimal(
                dt.date.month as int,
            ) + "."@;
            assert(fi_weekday(w as int).len() == 2);
            assert(p[2] == ' ');
            assert(p != "Tänään"@) by {
                assert("Tänään"@[2] != ' ');
            }
            assert(p != "Huomenna"@) by {
                assert("Huomenna"@[2] != ' ');
            }
        },
        None => {},
    }
}

/// The time text of a calendar row: the day's name, and for an event that
/// does not last all day the Helsinki time as `HH:MM`.
pub open spec fn spec_format_event_time(ts: i64, all_day: bool, now: i64) -> Option<Seq<char>> {
    match (spec_day_bucket(ts), spec_day_bucket(now), helsinki_civil_of(ts)) {
        (Some(b), Some(n), Some(dt)) => match spec_day_prefix(b, n, dt) {
            Some(prefix) => if all_day {
                Some(prefix)
            } else {
                match hour_minute_text(dt) {
                    Some(t) => Some(prefix + " "@ + t),
                    None => None,
                }
            },
            None => None,
        },
        _ => None,
    }
}

fn fi_weekday_exec(w: u32) -> (r: Vec<char>)
    ensures
        r@ == fi_weekday(w as int),
{
    if w == 0 {
        chars_of("su")
    } else if w == 1 {
        chars_of("ma")
    } else if w == 2 {
        chars_of("ti")
    } else if w == 3 {
        chars_of("ke")
    } else if w == 4 {
        chars_of("to")
    } else if w == 5 {
        chars_of("pe")
    } else {
        chars_of("la")
    }
}

/// Names the day of an event from its Helsinki midnight, today's, and its
/// local date.
pub fn day_prefix(bucket: i64, today: i64, dt: &CivilDateTime) -> (r: Option<Vec<char>>)
    ensures
        match r {
            Some(v) => spec_day_prefix(bucket, today, *dt) == Some(v@),
            None => spec_day_prefix(bucket, today, *dt) is None,
        },
{
    let d: i128 = bucket as i128 - today as i128;
    if -86400 < d && d < 86400 {
        assert(trunc_div(bucket - today, 86400) == 0);
        return Some(chars_of("Tänään"));
    }
    if 86400 <= d && d < 172800 {
        assert(trunc_div(bucket - today, 86400) == 1);
        return Some(chars_of("Huomenna"));
    }
    assert(trunc_div(bucket - today, 86400) != 0 && trunc_div(bucket - today, 86400) != 1);
    match weekday_from_sunday(&dt.date) {
        Some(w) => {
            let mut r = fi_weekday_exec(w);
            append_chars(&mut r, &chars_of(" "));
            append_chars(&mut r, &decimal_u64(dt.date.day as u64));
            append_chars(&mut r, &chars_of("."));
            append_chars(&mut r, &decimal_u64(dt.date.month as u64));
            append_chars(&mut r, &chars_of("."));
            Some(r)
        },
        None => None,
    }
}

/// The time text of a calendar row for an event starting at `ts`, seen at
/// time `now`: "Tänään", "Huomenna" or weekday and date, followed by the
/// Helsinki time unless the event lasts all day. `None` when chrono cannot
/// place one of the times in Helsinki.
pub fn format_event_time(ts: i64, all_day: bool, now: i64) -> (r: Option<String>)
    ensures
        match r {
            Some(s) => spec_format_event_time(ts, all_day, now) == Some(s@),
            None => spec_format_event_time(ts, all_day, now) is None,
        },
{
    let b = day_bucket(ts);
    let n = day_bucket(now);
    let dt = helsinki_civil(ts);
    match (b, n, dt) {
        (Some(b), Some(n), Some(dt)) => match day_prefix(b, n, &dt) {
            Some(prefix) => {
                if all_day {
                    Some(string_of(&prefix))
                } else {
                    match format_datetime(&dt, "%H:%M") {
                        Some(t) => {
                            let mut r = prefix;
                            append_chars(&mut r, &chars_of(" "));
                            append_chars(&mut r, &chars_of(t.as_str()));
                            Some(string_of(&r))
                        },
                        None => None,
                    }
                }
            },
            None => None,
        },
        _ => None,
    }
}

// ---------------------------------------------------------------------------
// The taxi countdown
// ---------------------------------------------------------------------------

/// How urgent the taxi is, from relaxed to late.
#[derive(Clone, Copy, Debug, PartialEq, Eq, Structural)]
pub enum TaxiMood {
    /// An hour or more to go.
    Grin,
    /// 30 to 59 minutes.
    Smile,
    /// 15 to 29 minutes.
    Flushed,
    /// 10 to 14 minutes: time to put the coat on.
    Coat,
    /// 5 to 9 minutes.
    Fear,
    /// Less than 5 minutes, or late.
    Scream,
}

/// The countdown to being outside for the taxi.
pub struct TaxiCountdown {
    pub mood: TaxiMood,
    /// Whole hours as `2h` from an hour on, else minutes as `45min`.
    pub text: String,
}

/// Whole minutes, rounded down, until ten minutes before the scheduled
/// pickup.
pub open spec fn remaining_minutes(scheduled_ts: i64, now: i64) -> int {
    (scheduled_ts - 600 - now) / 60
}

pub open spec fn spec_taxi_mood(minutes: int) -> TaxiMood {
    if minutes >= 60 {
        TaxiMood::Grin
    } else if minutes >= 30 {
        TaxiMood::Smile
    } else if minutes >= 15 {
        TaxiMood::Flushed
    } else if minutes >= 10 {
        TaxiMood::Coat
    } else if minutes >= 5 {
        TaxiMood::Fear
    } else {
        TaxiMood::Scream
    }
}

pub open spec fn spec_countdown_text(minutes: int) -> Seq<char> {
    if minutes >= 60 {
        decimal(minutes / 60) + "h"@
    } else {
        decimal(minutes) + "min"@
    }
}

/// `a` divided by 60, rounded down.
fn floor_div_60(a: i64) -> (q: i64)
    ensures
        q == a / 60,
{
    if a >= 0 {
        a / 60
    } else {
        let m: i64 = -(a + 1);
        let q = m / 60;
        assert(q == m / 60);
        assert(a / 60 == -q - 1) by {
            assert(m == 60 * q + m % 60);
            assert(0 <= m % 60 < 60);
            assert(a == 60 * (-q - 1) + (59 - m % 60));
        }
        -q - 1
    }
}

/// The taxi countdown at time `now` for a pickup scheduled at
/// `scheduled_ts`: the deadline is ten minutes earlier.
pub fn taxi_countdown(scheduled_ts: i64, now: i64) -> (r: TaxiCountdown)
    requires
        i64::MIN <= scheduled_ts - 600 - now <= i64::MAX,
    ensures
        r.mood == spec_taxi_mood(remaining_minutes(scheduled_ts, now)),
        r.text@ == spec_countdown_text(remaining_minutes(scheduled_ts, now)),
{
    let remaining = (scheduled_ts as i128 - 600 - now as i128) as i64;
    let minutes = floor_div_60(remaining);
    let mood = if minutes >= 60 {
        TaxiMood::Grin
    } else if minutes >= 30 {
        TaxiMood::Smile
    } else if minutes >= 15 {
        TaxiMood::Flushed
    } else if minutes >= 10 {
        TaxiMood::Coat
    } else if minutes >= 5 {
        TaxiMood::Fear
    } else {
        TaxiMood::Scream
    };
    let text = if minutes >= 60 {
        let mut t = decimal_i64(minutes / 60);
        append_chars(&mut t, &chars_of("h"));
        t
    } else {
        let mut t = decimal_i64(minutes);
        append_chars(&mut t, &chars_of("min"));
        t
    };
    TaxiCountdown { mood, text: string_of(&text) }
}

/// The mood only gets more urgent as fewer whole minutes remain.
pub proof fn lemma_taxi_mood_monotone(a: int, b: int)
    requires
        a <= b,
    ensures
        mood_rank(spec_taxi_mood(a)) <= mood_rank(spec_taxi_mood(b)),
{
}

/// The calmness of a mood: 5 for `Grin` down to 0 for `Scream`.
pub open spec fn mood_rank(m: TaxiMood) -> int {
    match m {
        TaxiMood::Grin => 5,
        TaxiMood::Smile => 4,
        TaxiMood::Flushed => 3,
        TaxiMood::Coat => 2,
        TaxiMood::Fear => 1,
        TaxiMood::Scream => 0,
    }
}

// ---------------------------------------------------------------------------
// Layout
// ---------------------------------------------------------------------------

/// The integer part of the screen layout, in pixels.
#[derive(Clone, Copy, Debug, PartialEq, Eq, Structural)]
pub struct SvgLayout {
    /// Height of the weather area at the top: half the screen, rounded down.
    pub weather_h: u32,
    /// Top of the lower area, one pixel below the weather area.
    pub bottom_y: u32,
    /// Height of the lower area (negative on a screen one pixel high or less).
    pub bottom_h: i64,
    /// Width of the calendar: half the screen, rounded down, when a taxi is
    /// shown beside it, else the full width.
    pub cal_w: u32,
}

/// The layout of a `w` by `h` screen.
pub fn svg_layout(w: u32, h: u32, has_pickup: bool) -> (r: SvgLayout)
    ensures
        r.weather_h == h / 2,
        r.bottom_y == h / 2 + 1,
        r.bottom_h == h - (h / 2 + 1),
        r.cal_w == if has_pickup {
            w / 2
        } else {
            w
        },
{
    let weather_h = h / 2;
    let bottom_y = weather_h + 1;
    let bottom_h = h as i64 - bottom_y as i64;
    let cal_w = if has_pickup {
        w / 2
    } else {
        w
    };
    SvgLayout { weather_h, bottom_y, bottom_h, cal_w }
}

/// The four points that shape the curve segment from point `i` to `i + 1`
/// of the temperature graph: the neighbours, clamped to the ends.
pub fn curve_neighbours(i: usize, len: usize) -> (r: (usize, usize, usize, usize))
    requires
        i + 1 < len,
    ensures
        r.0 == if i == 0 {
            0
        } else {
            i - 1
        },
        r.1 == i,
        r.2 == i + 1,
        r.3 == if i + 2 < len {
            i + 2
        } else {
            len - 1
        },
        r.3 < len,
{
    let p0 = if i == 0 {
        0
    } else {
        i - 1
    };
    let p3 = if i + 2 < len {
        i + 2
    } else {
        len - 1
    };
    (p0, i, i + 1, p3)
}

} // verus!

//! The Kindle around the display: the `lipc` property commands that switch
//! the wireless and the screensaver, the wait for the network, and when the
//! screen is drawn again.
use vstd::prelude::*;

use crate::taxi::TaxiPickup;
use crate::text::{decimal, decimal_digits, digit_char};

verus! {

// ---------------------------------------------------------------------------
// lipc commands
// ---------------------------------------------------------------------------

/// Where the Kindle's property setter lives.
pub open spec fn lipc_set_prop_path() -> Seq<char> {
    "/usr/bin/lipc-set-prop"@
}

/// The property setter, when it exists on this machine.
pub fn lipc_path(set_prop_exists: bool) -> (r: Option<&'static str>)
    ensures
        r is Some <==> set_prop_exists,
        r matches Some(p) ==> p@ == lipc_set_prop_path(),
{
    if set_prop_exists {
        Some("/usr/bin/lipc-set-prop")
    } else {
        None
    }
}

/// One `lipc-set-prop <service> <property> <value>` call.
pub struct LipcCommand {
    pub service: &'static str,
    pub property: &'static str,
    pub value: &'static str,
}

/// `"1"` for on, `"0"` for off.
pub open spec fn flag_text(on: bool) -> Seq<char> {
    if on {
        "1"@
    } else {
        "0"@
    }
}

fn flag(on: bool) -> (r: &'static str)
    ensures
        r@ == flag_text(on),
{
    if on {
        "1"
    } else {
        "0"
    }
}

/// The command that switches the wireless on or off.
pub fn wifi_command(enabled: bool) -> (c: LipcCommand)
    ensures
        c.service@ == "com.lab126.cmd"@,
        c.property@ == "wirelessEnable"@,
        c.value@ == flag_text(enabled),
{
    LipcCommand { service: "com.lab126.cmd", property: "wirelessEnable", value: flag(enabled) }
}

/// The command that keeps the screensaver away, or lets it come again.
pub fn screensaver_command(prevent: bool) -> (c: LipcCommand)
    ensures
        c.service@ == "com.lab126.powerd"@,
        c.property@ == "preventScreenSaver"@,
        c.value@ == flag_text(prevent),
{
    LipcCommand {
        service: "com.lab126.powerd",
        property: "preventScreenSaver",
        value: flag(prevent),
    }
}

/// Keeps the screensaver away while the display shows: engaged when made,
/// released when the display is left.
pub struct ScreensaverGuard {
    engaged: bool,
}

impl ScreensaverGuard {
    pub closed spec fn is_engaged(&self) -> bool {
        self.engaged
    }

    /// A guard that holds the screensaver off.
    pub fn engage() -> (g: Self)
        ensures
            g.is_engaged(),
    {
        ScreensaverGuard { engaged: true }
    }

    /// Lets the screensaver come again.
    pub fn release(self) -> (g: Self)
        ensures
            !g.is_engaged(),
    {
        ScreensaverGuard { engaged: false }
    }

    /// The command that puts the screensaver in the state the guard holds.
    pub fn command(&self) -> (c: LipcCommand)
        ensures
            c.service@ == "com.lab126.powerd"@,
            c.property@ == "preventScreenSaver"@,
            c.value@ == flag_text(self.is_engaged()),
    {
        screensaver_command(self.engaged)
    }
}

/// Engaging holds the screensaver off and releasing lets it come again.
pub proof fn lemma_guard_round_trip(g: ScreensaverGuard, released: ScreensaverGuard)
    requires
        g.is_engaged(),
        !released.is_engaged(),
    ensures
        flag_text(g.is_engaged()) == "1"@,
        flag_text(released.is_engaged()) == "0"@,
{
}

// ---------------------------------------------------------------------------
// Waiting for the network
// ---------------------------------------------------------------------------

/// How many times the network is pinged at most.
pub const MAX_PINGS: u32 = 15;

/// What to do after a ping.
#[derive(Clone, Copy, Debug, PartialEq, Eq, Structural)]
pub enum NetworkWait {
    /// The network answered.
    Online,
    /// Wait a second and ping again.
    SleepAndRetry,
    /// Wait a second and give up.
    SleepAndGiveUp,
}

/// The decision after ping number `attempt` (counted from 0).
pub fn after_ping(attempt: u32, answered: bool) -> (r: NetworkWait)
    ensures
        answered ==> r == NetworkWait::Online,
        !answered && attempt + 1 < MAX_PINGS ==> r == NetworkWait::SleepAndRetry,
        !answered && attempt + 1 >= MAX_PINGS ==> r == NetworkWait::SleepAndGiveUp,
{
    if answered {
        NetworkWait::Online
    } else if attempt < MAX_PINGS - 1 {
        NetworkWait::SleepAndRetry
    } else {
        NetworkWait::SleepAndGiveUp
    }
}

// ---------------------------------------------------------------------------
// The battery level
// ---------------------------------------------------------------------------

/// Unicode's White_Space characters, the ones `str::trim` removes.
pub open spec fn is_white_space(c: char) -> bool {
    let u = c as u32;
    ||| 0x9 <= u <= 0xd
    ||| u == 0x20
    ||| u == 0x85
    ||| u == 0xa0
    ||| u == 0x1680
    ||| 0x2000 <= u <= 0x200a
    ||| u == 0x2028
    ||| u == 0x2029
    ||| u == 0x202f
    ||| u == 0x205f
    ||| u == 0x3000
}

fn white_space(c: char) -> (b: bool)
    ensures
        b == is_white_space(c),
{
    let u = c as u32;
    (0x9 <= u && u <= 0xd) || u == 0x20 || u == 0x85 || u == 0xa0 || u == 0x1680 || (0x2000 <= u
        && u <= 0x200a) || u == 0x2028 || u == 0x2029 || u == 0x202f || u == 0x205f || u == 0x3000
}

/// `s` without its leading white space.
pub open spec fn trim_start_ws(s: Seq<char>) -> Seq<char>
    decreases s.len(),
{
    if s.len() > 0 && is_white_space(s[0]) {
        trim_start_ws(s.drop_first())
    } else {
        s
    }
}

/// `s` without its trailing white space.
pub open spec fn trim_end_ws(s: Seq<char>) -> Seq<char>
    decreases s.len(),
{
    if s.len() > 0 && is_white_space(s.last()) {
        trim_end_ws(s.drop_last())
    } else {
        s
    }
}

/// `s` without white space at either end, as `str::trim` gives it.
pub open spec fn trim_ws(s: Seq<char>) -> Seq<char> {
    trim_end_ws(trim_start_ws(s))
}

pub open spec fn is_ascii_digit(c: char) -> bool {
    '0' as u32 <= c as u32 <= '9' as u32
}

/// Every character of `s` is an ASCII digit.
pub open spec fn all_digits(s: Seq<char>) -> bool {
    forall|k: int| 0 <= k < s.len() ==> is_ascii_digit(#[trigger] s[k])
}

/// The number that the decimal digits `s` write.
pub open spec fn digits_value(s: Seq<char>) -> int
    decreases s.len(),
{
    if s.len() == 0 {
        0
    } else {
        10 * digits_value(s.drop_last()) + (s.last() as u32 - '0' as u32)
    }
}

/// One or more decimal digits, for a number that fits in a `u32`.
pub open spec fn parse_digits(body: Seq<char>) -> Option<u32> {
    if body.len() > 0 && all_digits(body) && digits_value(body) <= u32::MAX {
        Some(digits_value(body) as u32)
    } else {
        None
    }
}

/// What `u32::from_str` accepts: an optional `+`, then one or more decimal
/// digits, for a number that fits in a `u32`.
pub open spec fn spec_parse_u32(s: Seq<char>) -> Option<u32> {
    if s.len() > 0 && s[0] == '+' {
        parse_digits(s.drop_first())
    } else {
        parse_digits(s)
    }
}

/// The battery level in the text that `lipc-get-prop com.lab126.powerd
/// battLevel` prints: the number it holds between white space, if any.
pub open spec fn spec_battery_level(text: Seq<char>) -> Option<u32> {
    spec_parse_u32(trim_ws(text))
}

proof fn lemma_trim_start_step(v: Seq<char>, i: int)
    requires
        0 <= i < v.len(),
        is_white_space(v[i]),
    ensures
        trim_start_ws(v.subrange(i, v.len() as int)) == trim_start_ws(
            v.subrange(i + 1, v.len() as int),
        ),
{
    assert(v.subrange(i, v.len() as int).drop_first() =~= v.subrange(i + 1, v.len() as int));
}

proof fn lemma_trim_end_step(v: Seq<char>, i: int, j: int)
    requires
        0 <= i < j <= v.len(),
        is_white_space(v[j - 1]),
    ensures
        trim_end_ws(v.subrange(i, j)) == trim_end_ws(v.subrange(i, j - 1)),
{
    assert(v.subrange(i, j).drop_last() =~= v.subrange(i, j - 1));
}

/// For digits, a longer prefix never writes a smaller number.
proof fn lemma_digits_value_prefix(s: Seq<char>, i: int)
    requires
        0 <= i <= s.len(),
        all_digits(s),
    ensures
        0 <= digits_value(s.take(i)) <= digits_value(s),
    decreases s.len(),
{
    if s.len() == 0 {
        assert(s.take(i) =~= s);
    } else if i == s.len() {
        assert(s.take(i) =~= s);
        lemma_digits_value_prefix(s.drop_last(), 0);
    } else {
        let t = s.drop_last();
        assert(all_digits(t)) by {
            assert forall|k: int| 0 <= k < t.len() implies is_ascii_digit(#[trigger] t[k]) by {
                assert(t[k] == s[k]);
            }
        }
        lemma_digits_value_prefix(t, i);
        assert(t.take(i) =~= s.take(i));
        assert(is_ascii_digit(s[s.len() - 1]));
    }
}

proof fn lemma_digit_char(d: int)
    requires
        0 <= d < 10,
    ensures
        digit_char(d) as u32 == d + 48,
{
}

proof fn lemma_decimal_digits_read(n: nat)
    ensures
        decimal_digits(n).len() > 0,
        all_digits(decimal_digits(n)),
        digits_value(decimal_digits(n)) == n,
    decreases n,
{
    if n < 10 {
        lemma_digit_char(n as int);
        let s = decimal_digits(n);
        assert(s.drop_last() =~= Seq::<char>::empty());
        assert(digits_value(s.drop_last()) == 0);
        assert(digits_value(s) == 10 * digits_value(s.drop_last()) + (s.last() as u32 - '0' as u32));
    } else {
        lemma_decimal_digits_read(n / 10);
        let d = (n % 10) as int;
        lemma_digit_char(d);
        let s = decimal_digits(n);
        assert(s.drop_last() =~= decimal_digits(n / 10));
        assert(s.last() == digit_char(d));
        assert forall|k: int| 0 <= k < s.len() implies is_ascii_digit(#[trigger] s[k]) by {
            if k < s.len() - 1 {
                assert(s[k] == decimal_digits(n / 10)[k]);
            }
        }
    }
}

/// A level printed in decimal, as the property getter prints it, reads back
/// as the same level.
pub proof fn lemma_battery_level_reads_decimal(n: u32)
    ensures
        spec_battery_level(decimal(n as int)) == Some(n),
{
    let s = decimal(n as int);
    lemma_decimal_digits_read(n as nat);
    assert(is_ascii_digit(s[0]));
    assert(is_ascii_digit(s[s.len() - 1]));
    assert(trim_start_ws(s) == s);
    assert(trim_end_ws(s) == s);
}

/// The battery level in the output of the property getter: the text between
/// white space, read as a `u32`; `None` when that is not a number or does
/// not fit.
pub fn parse_battery_level(text: &str) -> (r: Option<u32>)
    ensures
        r == spec_battery_level(text@),
{
    let v = crate::text::chars_of(text);
    let n = v.len();
    let mut start: usize = 0;
    assert(v@.subrange(0, n as int) =~= v@);
    while start < n && white_space(v[start])
        invariant
            n == v@.len(),
            start <= n,
            trim_start_ws(v@) == trim_start_ws(v@.subrange(start as int, n as int)),
        decreases n - start,
    {
        proof {
            lemma_trim_start_step(v@, start as int);
        }
        start = start + 1;
    }
    let ghost from_start = v@.subrange(start as int, n as int);
    assert(trim_start_ws(v@) == from_start);
    let mut end: usize = n;
    while end > start && white_space(v[end - 1])
        invariant
            n == v@.len(),
            start <= end <= n,
            from_start == v@.subrange(start as int, n as int),
            trim_end_ws(from_start) == trim_end_ws(v@.subrange(start as int, end as int)),
        decreases end - start,
    {
        proof {
            lemma_trim_end_step(v@, start as int, end as int);
        }
        end = end - 1;
    }
    let ghost trimmed = v@.subrange(start as int, end as int);
    assert(trim_ws(text@) == trimmed) by {
        assert(v@ == text@);
        if end > start {
            assert(trimmed.last() == v@[end - 1]);
        }
    }
    let mut first = start;
    if first < end && v[first] == '+' {
        first = first + 1;
    }
    let ghost body = v@.subrange(first as int, end as int);
    assert(spec_battery_level(text@) == parse_digits(body)) by {
        if trimmed.len() > 0 && trimmed[0] == '+' {
            assert(trimmed.drop_first() =~= body);
        } else {
            assert(trimmed =~= body);
        }
    }
    if first == end {
        return None;
    }
    let mut k = first;
    let mut acc: u64 = 0;
    while k < end
        invariant
            n == v@.len(),
            first < end <= n,
            first <= k <= end,
            body == v@.subrange(first as int, end as int),
            spec_battery_level(text@) == parse_digits(body),
            all_digits(body.take(k - first)),
            acc == digits_value(body.take(k - first)),
            acc <= u32::MAX,
        decreases end - k,
    {
        let c = v[k];
        let u = c as u32;
        if u < '0' as u32 || u > '9' as u32 {
            assert(body[k - first] == c);
            assert(!all_digits(body));
            return None;
        }
        let next = acc * 10 + (u - '0' as u32) as u64;
        let ghost pre = body.take(k - first);
        let ghost ext = body.take(k - first + 1);
        assert(ext.drop_last() =~= pre);
        assert(ext.last() == c);
        assert(all_digits(ext)) by {
            assert forall|j: int| 0 <= j < ext.len() implies is_ascii_digit(#[trigger] ext[j]) by {
                if j < pre.len() {
                    assert(ext[j] == pre[j]);
                }
            }
        }
        if next > u32::MAX as u64 {
            proof {
                if all_digits(body) {
                    lemma_digits_value_prefix(body, k - first + 1);
                }
            }
            return None;
        }
        acc = next;
        k = k + 1;
    }
    assert(body.take(end - first) =~= body);
    Some(acc as u32)
}

// ---------------------------------------------------------------------------
// When to draw again
// ---------------------------------------------------------------------------

/// How long fetched data is shown before it is fetched again, in seconds.
pub const REFETCH_INTERVAL_SECS: u64 = 7200;

/// What the display does once the wait for the next tick is over.
#[derive(Clone, Copy, Debug, PartialEq, Eq, Structural)]
pub enum TickAction {
    /// The user touched the screen or pressed a key: give the screen back to
    /// the Kindle.
    Exit,
    /// The data is old: fetch it again, then draw.
    RefetchAndDraw,
    /// Draw again with the data at hand.
    Draw,
}

/// The decision after a wait that the user ended (`user_input`) or that
/// timed out, `secs_since_fetch` whole seconds after the last fetch.
pub fn after_tick(user_input: bool, secs_since_fetch: u64) -> (r: TickAction)
    ensures
        user_input ==> r == TickAction::Exit,
        !user_input && secs_since_fetch >= REFETCH_INTERVAL_SECS ==> r
            == TickAction::RefetchAndDraw,
        !user_input && secs_since_fetch < REFETCH_INTERVAL_SECS ==> r == TickAction::Draw,
{
    if user_input {
        TickAction::Exit
    } else if secs_since_fetch >= REFETCH_INTERVAL_SECS {
        TickAction::RefetchAndDraw
    } else {
        TickAction::Draw
    }
}

/// `a` modulo `m`, in `0..m`.
fn rem_euclid(a: i64, m: i64) -> (r: i64)
    requires
        m > 0,
    ensures
        r == a % m,
        0 <= r < m,
{
    if a >= 0 {
        a % m
    } else {
        let b: i64 = -(a + 1);
        let q = b / m;
        let s = b % m;
        proof {
            vstd::arithmetic::div_mod::lemma_fundamental_div_mod(b as int, m as int);
            vstd::arithmetic::div_mod::lemma_mod_bound(b as int, m as int);
        }
        assert(b == m * q + s && 0 <= s < m);
        assert(a == m * (-q - 1) + (m - 1 - s)) by (nonlinear_arith)
            requires
                b == m * q + s,
                b == -(a + 1),
        ;
        assert(a % m == m - 1 - s) by {
            vstd::arithmetic::div_mod::lemma_fundamental_div_mod_converse(
                a as int,
                m as int,
                -q - 1,
                m - 1 - s,
            );
        }
        m - 1 - s
    }
}

/// The countdown shows whole hours: the pickup is an hour or more past the
/// deadline ten minutes before it. Without a pickup there is no countdown.
pub open spec fn hourly_ticks(pickup: Option<i64>, now: i64) -> bool {
    match pickup {
        Some(ts) => ts - 600 - now >= 3600,
        None => true,
    }
}

/// Seconds to the next full hour (hourly ticks) or full minute.
pub open spec fn spec_tick_seconds(hourly: bool, now: i64) -> int {
    if hourly {
        3600 - now % 3600
    } else {
        60 - now % 60
    }
}

pub open spec fn pickup_ts(pickup: Option<&TaxiPickup>) -> Option<i64> {
    match pickup {
        Some(p) => Some(p.scheduled_ts),
        None => None,
    }
}

/// Seconds to wait before drawing again at Unix time `now_secs`: until the
/// next full hour while the taxi countdown shows hours, else until the next
/// full minute.
pub fn next_tick_timeout(pickup: Option<&TaxiPickup>, now_secs: i64) -> (secs: u64)
    requires
        pickup matches Some(p) ==> i64::MIN <= p.scheduled_ts - 600 - now_secs <= i64::MAX
            && p.scheduled_ts - 600 >= i64::MIN,
    ensures
        secs == spec_tick_seconds(hourly_ticks(pickup_ts(pickup), now_secs), now_secs),
{
    let hourly = match pickup {
        Some(p) => p.scheduled_ts - 10 * 60 - now_secs >= 60 * 60,
        None => true,
    };
    if hourly {
        (3600 - rem_euclid(now_secs, 3600)) as u64
    } else {
        (60 - rem_euclid(now_secs, 60)) as u64
    }
}

/// The wait is between one second and an hour, and ends on a full minute,
/// or on a full hour while the countdown shows hours.
pub proof fn lemma_tick_lands_on_boundary(hourly: bool, now: i64)
    ensures
        1 <= spec_tick_seconds(hourly, now) <= 3600,
        (now + spec_tick_seconds(hourly, now)) % 60 == 0,
        hourly ==> (now + spec_tick_seconds(hourly, now)) % 3600 == 0,
{
    let n = now as int;
    if hourly {
        let r = n % 3600;
        vstd::arithmetic::div_mod::lemma_fundamental_div_mod(n, 3600);
        let q = n / 3600;
        assert(n + (3600 - r) == 3600 * (q + 1));
        vstd::arithmetic::div_mod::lemma_mod_multiples_basic(q + 1, 3600);
        assert((n + (3600 - r)) % 60 == 0) by {
            assert(n + (3600 - r) == 60 * (60 * (q + 1)));
            vstd::arithmetic::div_mod::lemma_mod_multiples_basic(60 * (q + 1), 60);
        }
    } else {
        let r = n % 60;
        vstd::arithmetic::div_mod::lemma_fundamental_div_mod(n, 60);
        let q = n / 60;
        assert(n + (60 - r) == 60 * (q + 1));
        vstd::arithmetic::div_mod::lemma_mod_multiples_basic(q + 1, 60);
    }
}

} // verus!

verus! {

/// The screen is redrawn hourly exactly while the taxi countdown shows whole
/// hours (its text ends in `h`), and every minute while it shows minutes.
pub proof fn lemma_ticks_follow_countdown(scheduled_ts: i64, now: i64)
    ensures
        hourly_ticks(Some(scheduled_ts), now) <==> crate::render::remaining_minutes(
            scheduled_ts,
            now,
        ) >= 60,
        crate::render::remaining_minutes(scheduled_ts, now) >= 60 <==> crate::render::spec_countdown_text(
            crate::render::remaining_minutes(scheduled_ts, now),
        ).last() == 'h',
{
    let r = scheduled_ts - 600 - now;
    vstd::arithmetic::div_mod::lemma_fundamental_div_mod(r as int, 60);
    vstd::arithmetic::div_mod::lemma_mod_bound(r as int, 60);
    reveal_strlit("h");
    reveal_strlit("min");
}

} // verus!

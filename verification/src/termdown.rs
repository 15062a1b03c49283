use vstd::prelude::*;

use crate::text::{
    chars_of, contains_char, string_views, parse_i64, parse_u32, spec_parse_i64, spec_parse_u32,
    split_chars, split_on, views,
};

verus! {

broadcast use vstd::string::group_string_axioms;

/// Nanoseconds in a second.
pub const NANOS_PER_SEC: u32 = 1_000_000_000u32;

/// The largest whole number of seconds that a `chrono::TimeDelta` holds
/// (`i64::MAX` milliseconds, rounded down to a second); its negation is the
/// smallest.
pub const SPAN_LIMIT: i64 = 9_223_372_036_854_775i64;

/// The Unix timestamp of `DateTime::<Utc>::MIN_UTC`, midnight at the start
/// of January 1, 262144 BCE: the earliest instant chrono holds.
pub const MIN_TIMESTAMP: i64 = -8_334_601_228_800i64;

/// The Unix timestamp of the last second of `DateTime::<Utc>::MAX_UTC`,
/// December 31, 262142 CE, 23:59:59: the latest whole second chrono holds.
pub const MAX_TIMESTAMP: i64 = 8_210_266_876_799i64;

/// A whole second that chrono's dates can hold.
pub open spec fn in_chrono_range(secs: int) -> bool {
    MIN_TIMESTAMP <= secs <= MAX_TIMESTAMP
}

// ---------------------------------------------------------------------------
// Instants and spans
// ---------------------------------------------------------------------------

/// An instant: whole seconds since the Unix epoch and the nanoseconds past
/// that second (what `DateTime::timestamp` and `timestamp_subsec_nanos` read).
#[derive(Debug, Clone, Copy, PartialEq, Eq, Structural)]
pub struct Moment {
    pub secs: i64,
    pub nanos: u32,
}

impl Moment {
    /// Not inside a leap second: the nanoseconds stay below one second.
    pub open spec fn wf(self) -> bool {
        self.nanos < NANOS_PER_SEC
    }

    /// `self` comes strictly before `other`.
    pub open spec fn before(self, other: Moment) -> bool {
        self.secs < other.secs || (self.secs == other.secs && self.nanos < other.nanos)
    }

    /// The instant `d` seconds later (earlier, for a negative `d`).
    pub open spec fn shifted(self, d: int) -> Moment {
        Moment { secs: (self.secs + d) as i64, nanos: self.nanos }
    }
}

/// A signed length of time in whole seconds (the library's `TimeDelta`).
#[derive(Debug, Clone, Copy, PartialEq, Eq, Structural)]
pub struct Span {
    pub secs: i64,
}

/// Whether `a` comes strictly before `b`.
pub fn moment_before(a: Moment, b: Moment) -> (res: bool)
    ensures
        res == a.before(b),
{
    a.secs < b.secs || (a.secs == b.secs && a.nanos < b.nanos)
}

// ---------------------------------------------------------------------------
// Local wall-clock time (depends on the machine's time zone)
// ---------------------------------------------------------------------------

/// A reading of the local clock (a `DateTime<Local>`): the instant, and the
/// offset east of UTC, in seconds, that the clock shows it with.
#[derive(Debug, Clone, Copy, PartialEq, Eq, Structural)]
pub struct LocalMoment {
    pub at: Moment,
    pub offset: i32,
}

impl LocalMoment {
    /// What the local clock shows, counted in seconds as a Unix timestamp
    /// counts them (so `% 86400` is the time of day).
    pub open spec fn local_secs(self) -> int {
        self.at.secs + self.offset
    }
}

/// `Timelike::with_hour` on the local date and time `l` shows (read with its
/// own offset): the same day, minute, second and sub-second part at hour
/// `hour`, as the local time zone places it; chrono returns `None` for an
/// hour above 23 and where the zone has no single such time. Which offset
/// the zone gives is left unsaid.
#[verifier::external_body]
fn local_with_hour(l: LocalMoment, hour: u32) -> (res: Option<LocalMoment>)
    ensures
        hour >= 24 ==> res is None,
        res matches Some(r) ==> r.at.nanos == l.at.nanos && -86400 < r.offset < 86400,
        res matches Some(r) ==> r.local_secs() == l.local_secs() - (l.local_secs() % 86400) / 3600 * 3600 + hour * 3600,
{
    let offset = chrono::FixedOffset::east_opt(l.offset)?;
    let utc = chrono::DateTime::from_timestamp(l.at.secs, l.at.nanos)?.naive_utc();
    let dt = chrono::DateTime::<chrono::Local>::from_naive_utc_and_offset(utc, offset);
    let r = chrono::Timelike::with_hour(&dt, hour)?;
    let at = Moment { secs: r.timestamp(), nanos: r.timestamp_subsec_nanos() };
    Some(LocalMoment { at, offset: r.offset().local_minus_utc() })
}

/// `Timelike::with_minute` on the local date and time `l` shows: the same
/// day, hour and second at minute `minute`; `None` for a minute above 59
/// and where the zone has no single such time.
#[verifier::external_body]
fn local_with_minute(l: LocalMoment, minute: u32) -> (res: Option<LocalMoment>)
    ensures
        minute >= 60 ==> res is None,
        res matches Some(r) ==> r.at.nanos == l.at.nanos && -86400 < r.offset < 86400,
        res matches Some(r) ==> r.local_secs() == l.local_secs() - (l.local_secs() % 3600) / 60 * 60 + minute * 60,
{
    let offset = chrono::FixedOffset::east_opt(l.offset)?;
    let utc = chrono::DateTime::from_timestamp(l.at.secs, l.at.nanos)?.naive_utc();
    let dt = chrono::DateTime::<chrono::Local>::from_naive_utc_and_offset(utc, offset);
    let r = chrono::Timelike::with_minute(&dt, minute)?;
    let at = Moment { secs: r.timestamp(), nanos: r.timestamp_subsec_nanos() };
    Some(LocalMoment { at, offset: r.offset().local_minus_utc() })
}

/// `Timelike::with_second` on the local date and time `l` shows: the same
/// day, hour and minute at second `second`; `None` for a second above 59
/// and where the zone has no single such time.
#[verifier::external_body]
fn local_with_second(l: LocalMoment, second: u32) -> (res: Option<LocalMoment>)
    ensures
        second >= 60 ==> res is None,
        res matches Some(r) ==> r.at.nanos == l.at.nanos && -86400 < r.offset < 86400,
        res matches Some(r) ==> r.local_secs() == l.local_secs() - l.local_secs() % 60 + second,
{
    let offset = chrono::FixedOffset::east_opt(l.offset)?;
    let utc = chrono::DateTime::from_timestamp(l.at.secs, l.at.nanos)?.naive_utc();
    let dt = chrono::DateTime::<chrono::Local>::from_naive_utc_and_offset(utc, offset);
    let r = chrono::Timelike::with_second(&dt, second)?;
    let at = Moment { secs: r.timestamp(), nanos: r.timestamp_subsec_nanos() };
    Some(LocalMoment { at, offset: r.offset().local_minus_utc() })
}

/// `DateTime::checked_add_days` on the local date `l` shows: the same
/// wall-clock time `days` calendar days later, as the local time zone places
/// it; `None` where the zone has no single such time or the date leaves
/// chrono's range.
#[verifier::external_body]
fn local_add_days(l: LocalMoment, days: u64) -> (res: Option<LocalMoment>)
    ensures
        res matches Some(r) ==> r.at.nanos == l.at.nanos && -86400 < r.offset < 86400,
        res matches Some(r) ==> r.local_secs() == l.local_secs() + days * 86400,
{
    let offset = chrono::FixedOffset::east_opt(l.offset)?;
    let utc = chrono::DateTime::from_timestamp(l.at.secs, l.at.nanos)?.naive_utc();
    let dt = chrono::DateTime::<chrono::Local>::from_naive_utc_and_offset(utc, offset);
    let r = dt.checked_add_days(chrono::Days::new(days))?;
    let at = Moment { secs: r.timestamp(), nanos: r.timestamp_subsec_nanos() };
    Some(LocalMoment { at, offset: r.offset().local_minus_utc() })
}

/// What `moment_plus` gives for an instant and a number of seconds. chrono
/// works it out in UTC, so it rests on its arguments alone.
pub uninterp spec fn chrono_plus(m: Moment, secs: i64) -> Option<Moment>;

/// What `moment_minus` gives for an instant and a number of seconds.
pub uninterp spec fn chrono_minus(m: Moment, secs: i64) -> Option<Moment>;

/// `DateTime::from_timestamp`, then `DateTime::checked_add_signed` with a
/// span of whole seconds. The first gives `None` exactly for a second outside
/// chrono's range, the second exactly for a result outside it; otherwise the
/// result is the instant `d` seconds later, with the sub-second part kept.
/// For an instant inside a leap second the result is only named
/// (`chrono_plus`).
#[verifier::external_body]
fn moment_plus(m: Moment, d: Span) -> (res: Option<Moment>)
    requires
        -SPAN_LIMIT <= d.secs <= SPAN_LIMIT,
    ensures
        res == chrono_plus(m, d.secs),
        m.wf() ==> (res matches Some(r) ==> r == m.shifted(d.secs as int)),
        m.wf() ==> (res is Some <==> (in_chrono_range(m.secs as int) && in_chrono_range(m.secs + d.secs))),
{
    let dt = chrono::DateTime::from_timestamp(m.secs, m.nanos)?.with_timezone(&chrono::Local);
    let r = dt.checked_add_signed(chrono::TimeDelta::seconds(d.secs))?;
    Some(Moment { secs: r.timestamp(), nanos: r.timestamp_subsec_nanos() })
}

/// `DateTime::from_timestamp`, then `DateTime::checked_sub_signed` with a
/// span of whole seconds: as for `moment_plus`, `None` exactly outside
/// chrono's range, and otherwise the instant `d` seconds earlier. For an
/// instant inside a leap second the result is only named (`chrono_minus`).
#[verifier::external_body]
fn moment_minus(m: Moment, d: Span) -> (res: Option<Moment>)
    requires
        -SPAN_LIMIT <= d.secs <= SPAN_LIMIT,
    ensures
        res == chrono_minus(m, d.secs),
        m.wf() ==> (res matches Some(r) ==> r == m.shifted(-(d.secs as int))),
        m.wf() ==> (res is Some <==> (in_chrono_range(m.secs as int) && in_chrono_range(m.secs - d.secs))),
{
    let dt = chrono::DateTime::from_timestamp(m.secs, m.nanos)?.with_timezone(&chrono::Local);
    let r = dt.checked_sub_signed(chrono::TimeDelta::seconds(d.secs))?;
    Some(Moment { secs: r.timestamp(), nanos: r.timestamp_subsec_nanos() })
}

// ---------------------------------------------------------------------------
// Durations such as `1h20m30s`
// ---------------------------------------------------------------------------

/// What has been read of a duration so far: the digits filed under hours,
/// minutes and seconds, and those still waiting for their unit.
pub struct DurationScan {
    pub hours: Seq<char>,
    pub minutes: Seq<char>,
    pub seconds: Seq<char>,
    pub pending: Seq<char>,
}

/// Reads a duration left to right: `h`, `m` and `s` file the characters
/// waiting since the last unit under hours, minutes or seconds; every other
/// character waits.
pub open spec fn scan_duration(s: Seq<char>) -> DurationScan
    decreases s.len(),
{
    if s.len() == 0 {
        DurationScan {
            hours: Seq::empty(),
            minutes: Seq::empty(),
            seconds: Seq::empty(),
            pending: Seq::empty(),
        }
    } else {
        let f = scan_duration(s.drop_last());
        let c = s.last();
        if c == 'h' {
            DurationScan { hours: f.hours + f.pending, pending: Seq::empty(), ..f }
        } else if c == 'm' {
            DurationScan { minutes: f.minutes + f.pending, pending: Seq::empty(), ..f }
        } else if c == 's' {
            DurationScan { seconds: f.seconds + f.pending, pending: Seq::empty(), ..f }
        } else {
            DurationScan { pending: f.pending.push(c), ..f }
        }
    }
}

/// The characters filed under hours, minutes and seconds; what waits at the
/// end counts as seconds.
pub open spec fn duration_hours_text(s: Seq<char>) -> Seq<char> {
    scan_duration(s).hours
}

pub open spec fn duration_minutes_text(s: Seq<char>) -> Seq<char> {
    scan_duration(s).minutes
}

pub open spec fn duration_seconds_text(s: Seq<char>) -> Seq<char> {
    scan_duration(s).seconds + scan_duration(s).pending
}

/// A field reads as a whole number, or is empty.
pub open spec fn field_ok(p: Seq<char>) -> bool {
    p.len() == 0 || spec_parse_i64(p) is Some
}

/// The number a field holds; an empty field holds zero.
pub open spec fn field_value(p: Seq<char>) -> int {
    if p.len() == 0 {
        0
    } else {
        match spec_parse_i64(p) {
            Some(v) => v as int,
            None => 0,
        }
    }
}

pub open spec fn within_span(x: int) -> bool {
    -SPAN_LIMIT <= x <= SPAN_LIMIT
}

pub open spec fn duration_h(s: Seq<char>) -> int {
    field_value(duration_hours_text(s))
}

pub open spec fn duration_m(s: Seq<char>) -> int {
    field_value(duration_minutes_text(s))
}

pub open spec fn duration_s(s: Seq<char>) -> int {
    field_value(duration_seconds_text(s))
}

/// The inputs that `parse_duration` reads without failing: every field is a
/// whole number, and each of the spans built from them, and their sums, fit
/// in a `TimeDelta`.
pub open spec fn duration_ok(s: Seq<char>) -> bool {
    &&& field_ok(duration_hours_text(s))
    &&& field_ok(duration_minutes_text(s))
    &&& field_ok(duration_seconds_text(s))
    &&& within_span(3600 * duration_h(s))
    &&& within_span(60 * duration_m(s))
    &&& within_span(duration_s(s))
    &&& within_span(3600 * duration_h(s) + 60 * duration_m(s))
    &&& within_span(3600 * duration_h(s) + 60 * duration_m(s) + duration_s(s))
}

/// The length of a duration in seconds.
pub open spec fn duration_secs(s: Seq<char>) -> int {
    3600 * duration_h(s) + 60 * duration_m(s) + duration_s(s)
}

fn field_number(p: &[char]) -> (v: i64)
    requires
        field_ok(p@),
    ensures
        v == field_value(p@),
{
    if p.len() == 0 {
        0
    } else {
        match parse_i64(p) {
            Some(v) => v,
            None => 0,
        }
    }
}

/// Reads a duration such as `1h20m30s`, `1h20m30` or `1h30` (trailing digits
/// are seconds) into a span of seconds.
pub fn parse_duration(duration: &str) -> (res: Span)
    requires
        duration_ok(duration@),
    ensures
        res.secs == duration_secs(duration@),
{
    let cs = chars_of(duration);
    parse_duration_chars(cs.as_slice())
}

/// The characters filed under hours, minutes and seconds.
fn duration_fields(cs: &[char]) -> (res: (Vec<char>, Vec<char>, Vec<char>))
    ensures
        res.0@ == duration_hours_text(cs@),
        res.1@ == duration_minutes_text(cs@),
        res.2@ == duration_seconds_text(cs@),
{
    let mut hours: Vec<char> = Vec::new();
    let mut minutes: Vec<char> = Vec::new();
    let mut seconds: Vec<char> = Vec::new();
    let mut pending: Vec<char> = Vec::new();
    let mut i: usize = 0;
    assert(cs@.take(0) =~= Seq::<char>::empty());
    while i < cs.len()
        invariant
            i <= cs@.len(),
            scan_duration(cs@.take(i as int)) == (DurationScan {
                hours: hours@,
                minutes: minutes@,
                seconds: seconds@,
                pending: pending@,
            }),
        decreases cs@.len() - i,
    {
        assert(cs@.take(i as int + 1).drop_last() =~= cs@.take(i as int));
        let c = cs[i];
        if c == 'h' {
            hours.append(&mut pending);
        } else if c == 'm' {
            minutes.append(&mut pending);
        } else if c == 's' {
            seconds.append(&mut pending);
        } else {
            pending.push(c);
        }
        i = i + 1;
        assert(scan_duration(cs@.take(i as int)).hours =~= hours@);
        assert(scan_duration(cs@.take(i as int)).minutes =~= minutes@);
        assert(scan_duration(cs@.take(i as int)).seconds =~= seconds@);
        assert(scan_duration(cs@.take(i as int)).pending =~= pending@);
    }
    assert(cs@.take(cs@.len() as int) =~= cs@);
    seconds.append(&mut pending);
    (hours, minutes, seconds)
}

fn parse_duration_chars(cs: &[char]) -> (res: Span)
    requires
        duration_ok(cs@),
    ensures
        res.secs == duration_secs(cs@),
{
    let (hours, minutes, seconds) = duration_fields(cs);
    let h = field_number(hours.as_slice());
    let m = field_number(minutes.as_slice());
    let s = field_number(seconds.as_slice());
    Span { secs: h * 3600 + m * 60 + s }
}

fn field_readable(p: &[char]) -> (res: Option<i64>)
    ensures
        res is Some <==> field_ok(p@),
        res matches Some(v) ==> v == field_value(p@),
{
    if p.len() == 0 {
        Some(0)
    } else {
        parse_i64(p)
    }
}

/// Whether `parse_duration` reads a duration without failing.
pub fn duration_readable(cs: &[char]) -> (res: bool)
    ensures
        res == duration_ok(cs@),
{
    let (hours, minutes, seconds) = duration_fields(cs);
    let h = match field_readable(hours.as_slice()) {
        Some(v) => v as i128,
        None => {
            return false;
        },
    };
    let m = match field_readable(minutes.as_slice()) {
        Some(v) => v as i128,
        None => {
            return false;
        },
    };
    let s = match field_readable(seconds.as_slice()) {
        Some(v) => v as i128,
        None => {
            return false;
        },
    };
    let lim = SPAN_LIMIT as i128;
    let within = |x: i128| -> (b: bool)
        ensures
            b == within_span(x as int),
        { -lim <= x && x <= lim };
    within(3600 * h) && within(60 * m) && within(s) && within(3600 * h + 60 * m) && within(
        3600 * h + 60 * m + s,
    )
}

// ---------------------------------------------------------------------------
// Wall-clock times such as `12:00`
// ---------------------------------------------------------------------------

/// The text without one trailing `!`.
pub open spec fn strip_bang(s: Seq<char>) -> Seq<char> {
    if s.len() > 0 && s.last() == '!' {
        s.drop_last()
    } else {
        s
    }
}

pub open spec fn colon_pieces(s: Seq<char>) -> Seq<Seq<char>> {
    split_on(strip_bang(s), ':')
}

/// `HH:MM` (with anything after a second colon, and a `!` at the end,
/// ignored) whose two numbers read as `u32`.
pub open spec fn colon_ok(s: Seq<char>) -> bool {
    &&& colon_pieces(s).len() >= 2
    &&& spec_parse_u32(colon_pieces(s)[0]) is Some
    &&& spec_parse_u32(colon_pieces(s)[1]) is Some
}

pub open spec fn colon_hour(s: Seq<char>) -> u32 {
    spec_parse_u32(colon_pieces(s)[0]).unwrap()
}

pub open spec fn colon_minute(s: Seq<char>) -> u32 {
    spec_parse_u32(colon_pieces(s)[1]).unwrap()
}

fn strip_bang_chars(cs: &[char]) -> (res: &[char])
    ensures
        res@ == strip_bang(cs@),
{
    if cs.len() > 0 && cs[cs.len() - 1] == '!' {
        vstd::slice::slice_subrange(cs, 0, cs.len() - 1)
    } else {
        cs
    }
}

/// The hour and the minute that an `HH:MM` argument names.
pub fn colon_fields(colon_separated: &str) -> (res: (u32, u32))
    requires
        colon_ok(colon_separated@),
    ensures
        res == (colon_hour(colon_separated@), colon_minute(colon_separated@)),
{
    let cs = chars_of(colon_separated);
    let clean = strip_bang_chars(cs.as_slice());
    let pieces = split_chars(clean, ':');
    assert(views(pieces@)[0] == pieces@[0]@);
    assert(views(pieces@)[1] == pieces@[1]@);
    let hour = parse_u32(pieces[0].as_slice()).unwrap();
    let minute = parse_u32(pieces[1].as_slice()).unwrap();
    (hour, minute)
}

/// Picks the occurrence of a wall-clock time that `resolve_colon` answers
/// with: `today`'s, unless it comes before `now`, in which case the one a
/// day later (`next_day`, where the local clock has one).
pub fn pick_occurrence(today: LocalMoment, now: LocalMoment, next_day: Option<LocalMoment>) -> (res:
    Option<LocalMoment>)
    ensures
        res == if today.at.before(now.at) {
            next_day
        } else {
            Some(today)
        },
{
    if moment_before(today.at, now.at) {
        next_day
    } else {
        Some(today)
    }
}

/// What the local clock shows at `hour:minute:00` on the day that `now`
/// shows.
pub open spec fn wall_clock_today(now: LocalMoment, hour: int, minute: int) -> int {
    now.local_secs() - now.local_secs() % 86400 + hour * 3600 + minute * 60
}

/// An answer of `resolve_colon` for `hour:minute` at `now`: it keeps the
/// sub-second part of `now` and shows `hour:minute:00`, either on the day
/// `now` shows and not before `now`, or on the day after.
pub open spec fn wall_clock_answer(now: LocalMoment, hour: int, minute: int, r: LocalMoment) -> bool {
    &&& r.at.nanos == now.at.nanos
    &&& {
        ||| r.local_secs() == wall_clock_today(now, hour, minute) && !r.at.before(now.at)
        ||| r.local_secs() == wall_clock_today(now, hour, minute) + 86400
    }
}

/// Setting the hour, then the minute, then the second to zero lands on
/// `hour:minute:00` of the same local day.
proof fn lemma_set_clock(l0: int, l1: int, l2: int, l3: int, hour: int, minute: int)
    requires
        0 <= hour < 24,
        0 <= minute < 60,
        l1 == l0 - (l0 % 86400) / 3600 * 3600 + hour * 3600,
        l2 == l1 - (l1 % 3600) / 60 * 60 + minute * 60,
        l3 == l2 - l2 % 60,
    ensures
        l3 == l0 - l0 % 86400 + hour * 3600 + minute * 60,
{
    let d = l0 / 86400;
    let x = l0 % 86400;
    vstd::arithmetic::div_mod::lemma_fundamental_div_mod(l0, 86400);
    vstd::arithmetic::div_mod::lemma_fundamental_div_mod(x, 3600);
    let y = x % 3600;
    assert(l1 == (24 * d + hour) * 3600 + y);
    vstd::arithmetic::div_mod::lemma_fundamental_div_mod_converse(l1, 3600, 24 * d + hour, y);
    vstd::arithmetic::div_mod::lemma_fundamental_div_mod(y, 60);
    let b = y % 60;
    assert(l2 == (1440 * d + 60 * hour + minute) * 60 + b);
    vstd::arithmetic::div_mod::lemma_fundamental_div_mod_converse(
        l2,
        60,
        1440 * d + 60 * hour + minute,
        b,
    );
}

/// The next time the local clock shows `HH:MM:00`: today, unless that has
/// already passed, else tomorrow (see `pick_occurrence`). `None` where the
/// local time zone has no such time (or the hour or minute is out of range).
/// The answer shows `HH:MM:00` on the day `now` shows, and is then not
/// before `now`, or on the day after. Which of the two, and at which
/// instant, rests on the offsets the local time zone gives, which are left
/// unsaid.
pub fn resolve_colon(colon_separated: &str, now: LocalMoment) -> (res: Option<LocalMoment>)
    requires
        colon_ok(colon_separated@),
    ensures
        colon_hour(colon_separated@) >= 24 ==> res is None,
        colon_minute(colon_separated@) >= 60 ==> res is None,
        res matches Some(r) ==> wall_clock_answer(
            now,
            colon_hour(colon_separated@) as int,
            colon_minute(colon_separated@) as int,
            r,
        ),
{
    let (hour, minute) = colon_fields(colon_separated);
    let first = local_with_hour(now, hour)?;
    let second = local_with_minute(first, minute)?;
    let today = local_with_second(second, 0)?;
    proof {
        lemma_set_clock(
            now.local_secs(),
            first.local_secs(),
            second.local_secs(),
            today.local_secs(),
            hour as int,
            minute as int,
        );
    }
    let next_day = if moment_before(today.at, now.at) {
        local_add_days(today, 1)
    } else {
        None
    };
    pick_occurrence(today, now, next_day)
}

// ---------------------------------------------------------------------------
// Resolving a list of times
// ---------------------------------------------------------------------------

/// A time and the text it was read from.
#[derive(Debug, PartialEq)]
pub struct Container(pub String, pub Moment);

/// A time that is known, or that is relative to the others (`+10m`, `-1h`).
#[derive(Debug, PartialEq)]
pub enum Resolution {
    Later(String),
    Resolved(Container),
}

/// One argument: a time that can be worked out, or text that names none.
#[derive(Debug, PartialEq)]
pub enum Timestamp {
    Resolvable(Resolution),
    Unresolvable(String),
}

pub enum StampView {
    Later(Seq<char>),
    Resolved(Seq<char>, Moment),
    Unresolvable(Seq<char>),
}

impl View for Timestamp {
    type V = StampView;

    open spec fn view(&self) -> StampView {
        match self {
            Timestamp::Resolvable(Resolution::Later(a)) => StampView::Later(a@),
            Timestamp::Resolvable(Resolution::Resolved(Container(a, t))) => StampView::Resolved(
                a@,
                *t,
            ),
            Timestamp::Unresolvable(a) => StampView::Unresolvable(a@),
        }
    }
}

pub open spec fn stamps_view(v: Seq<Timestamp>) -> Seq<StampView> {
    Seq::new(v.len(), |i: int| v[i]@)
}

/// An argument that starts with `+` or `-` is relative to the other times.
pub open spec fn is_relative(a: Seq<char>) -> bool {
    a.len() > 0 && (a[0] == '+' || a[0] == '-')
}

/// The duration in a relative argument: after the sign, before a final `!`.
pub open spec fn relative_body(a: Seq<char>) -> Seq<char> {
    strip_bang(a).drop_first()
}

/// The relative arguments that can be resolved without failing.
pub open spec fn relative_ok(a: Seq<char>) -> bool {
    is_relative(a) && duration_ok(relative_body(a))
}

/// The arguments that `resolve` reads without failing.
pub open spec fn argument_ok(a: Seq<char>) -> bool {
    if is_relative(a) {
        duration_ok(relative_body(a))
    } else if a.contains(':') {
        colon_ok(a)
    } else {
        true
    }
}

/// The time of the first resolved entry, or `now` where there is none.
pub open spec fn first_resolved(out: Seq<StampView>, now: Moment) -> Moment
    decreases out.len(),
{
    if out.len() == 0 {
        now
    } else {
        match out[0] {
            StampView::Resolved(_, t) => t,
            _ => first_resolved(out.drop_first(), now),
        }
    }
}

/// The time of the last resolved entry, or `now` where there is none.
pub open spec fn last_resolved(out: Seq<StampView>, now: Moment) -> Moment
    decreases out.len(),
{
    if out.len() == 0 {
        now
    } else {
        match out.last() {
            StampView::Resolved(_, t) => t,
            _ => last_resolved(out.drop_last(), now),
        }
    }
}

/// The second pass over the arguments, in order: `+D` resolves to `D` after
/// the last time resolved so far and goes at the end; `-D` resolves to `D`
/// before the first time resolved so far and goes at the front; `now` stands
/// in where nothing is resolved yet. Every other entry keeps its place.
pub open spec fn spec_settle(fp: Seq<StampView>, now: Moment) -> Seq<StampView>
    decreases fp.len(),
{
    if fp.len() == 0 {
        Seq::empty()
    } else {
        let out = spec_settle(fp.drop_last(), now);
        match fp.last() {
            StampView::Later(a) => {
                if a[0] == '-' {
                    seq![
                        StampView::Resolved(
                            a,
                            first_resolved(out, now).shifted(-duration_secs(relative_body(a))),
                        ),
                    ] + out
                } else {
                    out.push(
                        StampView::Resolved(
                            a,
                            last_resolved(out, now).shifted(duration_secs(relative_body(a))),
                        ),
                    )
                }
            },
            other => out.push(other),
        }
    }
}

/// The second pass as `settle` runs it, for every instant: like
/// `spec_settle`, with each relative time what chrono gives (`chrono_plus`,
/// `chrono_minus`), and `None` as soon as chrono gives none.
pub open spec fn spec_settle_opt(fp: Seq<StampView>, now: Moment) -> Option<Seq<StampView>>
    decreases fp.len(),
{
    if fp.len() == 0 {
        Some(Seq::empty())
    } else {
        match spec_settle_opt(fp.drop_last(), now) {
            None => None,
            Some(out) => match fp.last() {
                StampView::Later(a) => {
                    let d = duration_secs(relative_body(a)) as i64;
                    if a[0] == '-' {
                        match chrono_minus(first_resolved(out, now), d) {
                            Some(t) => Some(seq![StampView::Resolved(a, t)] + out),
                            None => None,
                        }
                    } else {
                        match chrono_plus(last_resolved(out, now), d) {
                            Some(t) => Some(out.push(StampView::Resolved(a, t))),
                            None => None,
                        }
                    }
                },
                other => Some(out.push(other)),
            },
        }
    }
}

/// The result of the second pass: its entries, or `OutOfRange`.
pub open spec fn settled(o: Option<Seq<StampView>>) -> Result<Seq<StampView>, ResolveError> {
    match o {
        Some(out) => Ok(out),
        None => Err(ResolveError::OutOfRange),
    }
}

proof fn lemma_settle_opt_prefix_none(fp: Seq<StampView>, now: Moment, i: int)
    requires
        0 <= i <= fp.len(),
        spec_settle_opt(fp.take(i), now) is None,
    ensures
        spec_settle_opt(fp, now) is None,
    decreases fp.len(),
{
    if i == fp.len() {
        assert(fp.take(i) =~= fp);
    } else {
        assert(fp.drop_last().take(i) =~= fp.take(i));
        lemma_settle_opt_prefix_none(fp.drop_last(), now, i);
    }
}

/// Every relative entry of the second pass starts from, and lands on, a
/// second that chrono's dates hold.
pub open spec fn settle_fits(fp: Seq<StampView>, now: Moment) -> bool
    decreases fp.len(),
{
    if fp.len() == 0 {
        true
    } else {
        let out = spec_settle(fp.drop_last(), now);
        &&& settle_fits(fp.drop_last(), now)
        &&& match fp.last() {
            StampView::Later(a) => {
                if a[0] == '-' {
                    let base = first_resolved(out, now);
                    in_chrono_range(base.secs as int) && in_chrono_range(
                        base.secs - duration_secs(relative_body(a)),
                    )
                } else {
                    let base = last_resolved(out, now);
                    in_chrono_range(base.secs as int) && in_chrono_range(
                        base.secs + duration_secs(relative_body(a)),
                    )
                }
            },
            _ => true,
        }
    }
}

proof fn lemma_settle_fits_prefix(fp: Seq<StampView>, now: Moment, i: int)
    requires
        settle_fits(fp, now),
        0 <= i <= fp.len(),
    ensures
        settle_fits(fp.take(i), now),
    decreases fp.len(),
{
    if i == fp.len() {
        assert(fp.take(i) =~= fp);
    } else {
        lemma_settle_fits_prefix(fp.drop_last(), now, i);
        assert(fp.drop_last().take(i) =~= fp.take(i));
    }
}

/// An entry of the first pass that `settle` can work with.
pub open spec fn settle_ready(e: StampView) -> bool {
    match e {
        StampView::Later(a) => relative_ok(a),
        _ => true,
    }
}

/// The resolved times in `out` are all proper instants.
pub open spec fn resolved_wf(out: Seq<StampView>) -> bool {
    forall|k: int|
        0 <= k < out.len() ==> match #[trigger] out[k] {
            StampView::Resolved(_, t) => t.wf(),
            _ => true,
        }
}

fn first_resolved_in(out: &Vec<Timestamp>, now: Moment) -> (m: Moment)
    ensures
        m == first_resolved(stamps_view(out@), now),
{
    let mut i: usize = 0;
    assert(stamps_view(out@).skip(0) =~= stamps_view(out@));
    while i < out.len()
        invariant
            i <= out@.len(),
            first_resolved(stamps_view(out@), now) == first_resolved(
                stamps_view(out@).skip(i as int),
                now,
            ),
        decreases out@.len() - i,
    {
        assert(stamps_view(out@).skip(i as int).drop_first() =~= stamps_view(out@).skip(
            i as int + 1,
        ));
        assert(stamps_view(out@).skip(i as int)[0] == out@[i as int]@);
        if let Timestamp::Resolvable(Resolution::Resolved(Container(_, t))) = &out[i] {
            return *t;
        }
        i = i + 1;
    }
    assert(stamps_view(out@).skip(i as int) =~= Seq::<StampView>::empty());
    now
}

fn last_resolved_in(out: &Vec<Timestamp>, now: Moment) -> (m: Moment)
    ensures
        m == last_resolved(stamps_view(out@), now),
{
    let mut j: usize = out.len();
    assert(stamps_view(out@).take(j as int) =~= stamps_view(out@));
    while j > 0
        invariant
            j <= out@.len(),
            last_resolved(stamps_view(out@), now) == last_resolved(
                stamps_view(out@).take(j as int),
                now,
            ),
        decreases j,
    {
        assert(stamps_view(out@).take(j as int).drop_last() =~= stamps_view(out@).take(
            j as int - 1,
        ));
        assert(stamps_view(out@).take(j as int).last() == out@[j - 1]@);
        if let Timestamp::Resolvable(Resolution::Resolved(Container(_, t))) = &out[j - 1] {
            return *t;
        }
        j = j - 1;
    }
    assert(stamps_view(out@).take(0) =~= Seq::<StampView>::empty());
    now
}

/// Why a list of times could not be resolved.
#[derive(Debug, Clone, Copy, PartialEq, Eq, Structural)]
pub enum ResolveError {
    /// The local clock never shows the wall-clock time asked for that day.
    NoSuchLocalTime,
    /// A resolved time falls outside the range of dates that chrono holds.
    OutOfRange,
}

/// The second pass: resolves every relative entry against the times resolved
/// before it, as `spec_settle` describes (for instants outside leap seconds).
/// It fails, with `OutOfRange`, exactly where a time falls outside chrono's
/// range of dates.
#[verifier::spinoff_prover]
#[verifier::rlimit(40)]
pub fn settle(first_pass: &Vec<Timestamp>, now: Moment) -> (res: Result<
    Vec<Timestamp>,
    ResolveError,
>)
    requires
        forall|i: int| 0 <= i < first_pass@.len() ==> settle_ready(#[trigger] first_pass@[i]@),
    ensures
        result_view(res) == settled(spec_settle_opt(stamps_view(first_pass@), now)),
        now.wf() && resolved_wf(stamps_view(first_pass@)) ==> (res matches Ok(out)
            ==> stamps_view(out@) == spec_settle(stamps_view(first_pass@), now)),
        now.wf() && resolved_wf(stamps_view(first_pass@)) ==> (res is Ok <==> settle_fits(
            stamps_view(first_pass@),
            now,
        )),
        res is Err ==> res == Err::<Vec<Timestamp>, ResolveError>(ResolveError::OutOfRange),
        res is Err ==> exists|i: int|
            0 <= i < first_pass@.len() && (#[trigger] first_pass@[i]@) is Later,
{
    let ghost fp = stamps_view(first_pass@);
    let ghost exact = now.wf() && resolved_wf(fp);
    let ghost fits = exact && settle_fits(fp, now);
    let mut out: Vec<Timestamp> = Vec::new();
    let mut i: usize = 0;
    assert(fp.take(0) =~= Seq::<StampView>::empty());
    while i < first_pass.len()
        invariant
            i <= first_pass@.len(),
            fp == stamps_view(first_pass@),
            exact == (now.wf() && resolved_wf(fp)),
            fits == (exact && settle_fits(fp, now)),
            forall|k: int| 0 <= k < first_pass@.len() ==> settle_ready(#[trigger] first_pass@[k]@),
            exact ==> stamps_view(out@) == spec_settle(fp.take(i as int), now),
            exact ==> resolved_wf(stamps_view(out@)),
            exact ==> settle_fits(fp.take(i as int), now),
            spec_settle_opt(fp.take(i as int), now) == Some(stamps_view(out@)),
        decreases first_pass@.len() - i,
    {
        assert(fp.take(i as int + 1).drop_last() =~= fp.take(i as int));
        assert(fp.take(i as int + 1).last() == first_pass@[i as int]@);
        assert(settle_ready(first_pass@[i as int]@));
        proof {
            if fits {
                lemma_settle_fits_prefix(fp, now, i as int + 1);
            }
        }
        let ghost before = out@;
        match &first_pass[i] {
            Timestamp::Resolvable(Resolution::Later(arg)) => {
                let cs = chars_of(arg.as_str());
                let clean = strip_bang_chars(cs.as_slice());
                let body = vstd::slice::slice_subrange(clean, 1, clean.len());
                assert(body@ =~= relative_body(arg@));
                let span = parse_duration_chars(body);
                if cs[0] == '-' {
                    let base = first_resolved_in(&out, now);
                    proof {
                        if exact {
                            lemma_first_resolved_wf(stamps_view(out@), now);
                        }
                    }
                    let t = match moment_minus(base, span) {
                        Some(t) => t,
                        None => {
                            assert((first_pass@[i as int]@) is Later);
                            assert(!fits);
                            proof {
                                lemma_settle_opt_prefix_none(fp, now, i as int + 1);
                            }
                            return Err(ResolveError::OutOfRange);
                        },
                    };
                    out.insert(
                        0,
                        Timestamp::Resolvable(Resolution::Resolved(Container(arg.clone(), t))),
                    );
                    assert(stamps_view(out@) =~= seq![StampView::Resolved(arg@, t)] + stamps_view(before));
                } else {
                    let base = last_resolved_in(&out, now);
                    proof {
                        if exact {
                            lemma_last_resolved_wf(stamps_view(out@), now);
                        }
                    }
                    let t = match moment_plus(base, span) {
                        Some(t) => t,
                        None => {
                            assert((first_pass@[i as int]@) is Later);
                            assert(!fits);
                            proof {
                                lemma_settle_opt_prefix_none(fp, now, i as int + 1);
                            }
                            return Err(ResolveError::OutOfRange);
                        },
                    };
                    out.push(Timestamp::Resolvable(Resolution::Resolved(Container(arg.clone(), t))));
                    assert(stamps_view(out@) =~= stamps_view(before).push(StampView::Resolved(arg@, t)));
                }
            },
            Timestamp::Resolvable(Resolution::Resolved(Container(arg, t))) => {
                out.push(Timestamp::Resolvable(Resolution::Resolved(Container(arg.clone(), *t))));
                assert(stamps_view(out@) =~= stamps_view(before).push(first_pass@[i as int]@));
                assert(fp[i as int] == first_pass@[i as int]@);
            },
            Timestamp::Unresolvable(arg) => {
                out.push(Timestamp::Unresolvable(arg.clone()));
                assert(stamps_view(out@) =~= stamps_view(before).push(first_pass@[i as int]@));
            },
        }
        proof {
            if exact {
                assert(fp.take(i as int + 1).drop_last() =~= fp.take(i as int));
                assert(spec_settle(fp.take(i as int), now) == stamps_view(before));
            }
        }
        i = i + 1;
    }
    assert(fp.take(first_pass@.len() as int) =~= fp);
    Ok(out)
}

proof fn lemma_first_resolved_wf(out: Seq<StampView>, now: Moment)
    requires
        resolved_wf(out),
        now.wf(),
    ensures
        first_resolved(out, now).wf(),
    decreases out.len(),
{
    if out.len() > 0 {
        assert(out[0] == out[0]);
        assert(resolved_wf(out.drop_first())) by {
            assert forall|k: int| 0 <= k < out.drop_first().len() implies match #[trigger] out.drop_first()[k] {
                StampView::Resolved(_, t) => t.wf(),
                _ => true,
            } by {
                assert(out.drop_first()[k] == out[k + 1]);
            }
        }
        lemma_first_resolved_wf(out.drop_first(), now);
    }
}

proof fn lemma_last_resolved_wf(out: Seq<StampView>, now: Moment)
    requires
        resolved_wf(out),
        now.wf(),
    ensures
        last_resolved(out, now).wf(),
    decreases out.len(),
{
    if out.len() > 0 {
        assert(out.last() == out[out.len() - 1]);
        assert(resolved_wf(out.drop_last())) by {
            assert forall|k: int| 0 <= k < out.drop_last().len() implies match #[trigger] out.drop_last()[k] {
                StampView::Resolved(_, t) => t.wf(),
                _ => true,
            } by {
                assert(out.drop_last()[k] == out[k]);
            }
        }
        lemma_last_resolved_wf(out.drop_last(), now);
    }
}

/// An argument that names a wall-clock time: it is not relative and holds a
/// colon.
pub open spec fn is_colon_arg(a: Seq<char>) -> bool {
    !is_relative(a) && a.contains(':')
}

/// What the first pass makes of one argument, given the time that
/// `resolve_colon` found for it: relative arguments wait, `HH:MM` arguments
/// take that time, and the rest cannot be resolved.
pub open spec fn first_pass_entry(a: Seq<char>, t: Option<Moment>) -> StampView {
    if is_relative(a) {
        StampView::Later(a)
    } else if a.contains(':') {
        StampView::Resolved(a, t.unwrap())
    } else {
        StampView::Unresolvable(a)
    }
}

/// The first pass over all the arguments, each with its wall-clock time.
pub open spec fn spec_first_pass(args: Seq<Seq<char>>, times: Seq<Option<Moment>>) -> Seq<
    StampView,
> {
    Seq::new(args.len(), |i: int| first_pass_entry(args[i], times[i]))
}

/// Some `HH:MM` argument has no time on the local clock.
pub open spec fn colon_time_missing(args: Seq<Seq<char>>, times: Seq<Option<Moment>>) -> bool {
    exists|i: int| 0 <= i < args.len() && is_colon_arg(args[i]) && (#[trigger] times[i]) is None
}

/// The result of `resolve` seen through the views of its entries.
pub open spec fn result_view(res: Result<Vec<Timestamp>, ResolveError>) -> Result<
    Seq<StampView>,
    ResolveError,
> {
    match res {
        Ok(out) => Ok(stamps_view(out@)),
        Err(e) => Err(e),
    }
}

/// What resolving `args` at `now` gives, where `times` holds the time that
/// `resolve_colon` found for each `HH:MM` argument: `NoSuchLocalTime` if one
/// has none; else the second pass over the first as chrono runs it
/// (`spec_settle_opt`). For instants outside leap seconds that is
/// `spec_settle`, given exactly where every time lies in chrono's range
/// (`settle_fits`), and `OutOfRange` otherwise.
pub open spec fn resolves_as(
    args: Seq<Seq<char>>,
    times: Seq<Option<Moment>>,
    now: Moment,
    res: Result<Seq<StampView>, ResolveError>,
) -> bool {
    if colon_time_missing(args, times) {
        res == Err::<Seq<StampView>, ResolveError>(ResolveError::NoSuchLocalTime)
    } else {
        let fp = spec_first_pass(args, times);
        &&& res == settled(spec_settle_opt(fp, now))
        &&& now.wf() && resolved_wf(fp) ==> (res matches Ok(out) ==> out == spec_settle(fp, now))
        &&& now.wf() && resolved_wf(fp) ==> (res is Ok <==> settle_fits(fp, now))
        &&& res is Err ==> res == Err::<Seq<StampView>, ResolveError>(ResolveError::OutOfRange)
            && exists|i: int| 0 <= i < args.len() && is_relative(#[trigger] args[i])
    }
}

/// A time that `resolve_colon` can give for the argument `a` at `now`: none
/// for an argument that names no wall-clock time or an hour or minute out of
/// range, and otherwise the instant of one of its answers.
pub open spec fn colon_answer(a: Seq<char>, t: Option<Moment>, now: LocalMoment) -> bool {
    if is_colon_arg(a) {
        &&& colon_hour(a) >= 24 ==> t is None
        &&& colon_minute(a) >= 60 ==> t is None
        &&& t matches Some(r) ==> exists|c: LocalMoment|
            c.at == r && #[trigger] wall_clock_answer(
                now,
                colon_hour(a) as int,
                colon_minute(a) as int,
                c,
            )
    } else {
        t is None
    }
}

/// Resolves the arguments as `resolve` does, with the time of each `HH:MM`
/// argument given in `colon_times` (at the same index) in place of asking the
/// local clock; the entries of `colon_times` for other arguments are not
/// read.
pub fn resolve_with(arguments: &Vec<String>, now: Moment, colon_times: &Vec<Option<Moment>>) -> (res:
    Result<Vec<Timestamp>, ResolveError>)
    requires
        colon_times@.len() == arguments@.len(),
        forall|i: int| 0 <= i < arguments@.len() ==> argument_ok(#[trigger] arguments@[i]@),
    ensures
        resolves_as(string_views(arguments@), colon_times@, now, result_view(res)),
{
    let ghost args = string_views(arguments@);
    let mut first: Vec<Timestamp> = Vec::new();
    let mut i: usize = 0;
    while i < arguments.len()
        invariant
            i <= arguments@.len(),
            args == string_views(arguments@),
            colon_times@.len() == arguments@.len(),
            forall|k: int| 0 <= k < arguments@.len() ==> argument_ok(#[trigger] arguments@[k]@),
            first@.len() == i,
            forall|k: int|
                0 <= k < i ==> (#[trigger] first@[k]@) == first_pass_entry(
                    args[k],
                    colon_times@[k],
                ),
            forall|k: int| 0 <= k < i ==> settle_ready(#[trigger] first@[k]@),
            forall|k: int| 0 <= k < i && is_colon_arg(args[k]) ==> (#[trigger] colon_times@[k]) is Some,
        decreases arguments@.len() - i,
    {
        let arg = &arguments[i];
        assert(args[i as int] == arguments@[i as int]@);
        assert(argument_ok(arguments@[i as int]@));
        let cs = chars_of(arg.as_str());
        if cs.len() > 0 && (cs[0] == '+' || cs[0] == '-') {
            first.push(Timestamp::Resolvable(Resolution::Later(arg.clone())));
        } else if contains_char(cs.as_slice(), ':') {
            let t = match colon_times[i] {
                Some(t) => t,
                None => {
                    assert(colon_time_missing(args, colon_times@)) by {
                        assert(is_colon_arg(args[i as int]));
                    }
                    return Err(ResolveError::NoSuchLocalTime);
                },
            };
            first.push(Timestamp::Resolvable(Resolution::Resolved(Container(arg.clone(), t))));
        } else {
            first.push(Timestamp::Unresolvable(arg.clone()));
        }
        i = i + 1;
    }
    let ghost fp = spec_first_pass(args, colon_times@);
    assert(stamps_view(first@) =~= fp);
    assert(!colon_time_missing(args, colon_times@));
    let res = settle(&first, now);
    proof {
        if res is Err {
            let k = choose|k: int| 0 <= k < first@.len() && (#[trigger] first@[k]@) is Later;
            assert(first@[k]@ == first_pass_entry(args[k], colon_times@[k]));
            assert(is_relative(args[k]));
        }
    }
    res
}

/// Works out the time that each argument names: `HH:MM` is the next time the
/// local clock shows it (`resolve_colon`), `+D` and `-D` are relative to the
/// times before them (see `spec_settle`), and anything else is left
/// unresolved. The clock's answers rest on the machine's time zone, so the
/// result is stated over them: it is what `resolve_with` gives for some
/// answers that `resolve_colon` can give.
pub fn resolve(arguments: Vec<String>, now: LocalMoment) -> (res: Result<Vec<Timestamp>, ResolveError>)
    requires
        forall|i: int| 0 <= i < arguments@.len() ==> argument_ok(#[trigger] arguments@[i]@),
    ensures
        exists|times: Seq<Option<Moment>>|
            {
                &&& times.len() == arguments@.len()
                &&& forall|k: int|
                    0 <= k < times.len() ==> colon_answer(arguments@[k]@, #[trigger] times[k], now)
                &&& #[trigger] resolves_as(string_views(arguments@), times, now.at, result_view(res))
            },
        (forall|i: int| 0 <= i < arguments@.len() ==> !is_colon_arg(#[trigger] arguments@[i]@))
            && now.at.wf() && settle_fits(
            spec_first_pass(
                string_views(arguments@),
                Seq::new(arguments@.len(), |i: int| None::<Moment>),
            ),
            now.at,
        ) ==> res is Ok,
        res == Err::<Vec<Timestamp>, ResolveError>(ResolveError::NoSuchLocalTime) ==> exists|i: int|
            0 <= i < arguments@.len() && is_colon_arg(#[trigger] arguments@[i]@),
        res == Err::<Vec<Timestamp>, ResolveError>(ResolveError::OutOfRange) ==> exists|i: int|
            0 <= i < arguments@.len() && is_relative(#[trigger] arguments@[i]@),
{
    let ghost args = string_views(arguments@);
    let mut times: Vec<Option<Moment>> = Vec::new();
    let mut i: usize = 0;
    while i < arguments.len()
        invariant
            i <= arguments@.len(),
            args == string_views(arguments@),
            forall|k: int| 0 <= k < arguments@.len() ==> argument_ok(#[trigger] arguments@[k]@),
            times@.len() == i,
            forall|k: int| 0 <= k < i ==> colon_answer(arguments@[k]@, #[trigger] times@[k], now),
        decreases arguments@.len() - i,
    {
        let arg = &arguments[i];
        assert(argument_ok(arguments@[i as int]@));
        let cs = chars_of(arg.as_str());
        if cs.len() > 0 && (cs[0] == '+' || cs[0] == '-') {
            times.push(None);
        } else if contains_char(cs.as_slice(), ':') {
            let t = match resolve_colon(arg.as_str(), now) {
                Some(l) => {
                    assert(wall_clock_answer(
                        now,
                        colon_hour(arguments@[i as int]@) as int,
                        colon_minute(arguments@[i as int]@) as int,
                        l,
                    ));
                    Some(l.at)
                },
                None => None,
            };
            times.push(t);
        } else {
            times.push(None);
        }
        i = i + 1;
    }
    let res = resolve_with(&arguments, now.at, &times);
    proof {
        assert(resolves_as(args, times@, now.at, result_view(res)));
        let nones = Seq::new(arguments@.len(), |i: int| None::<Moment>);
        if forall|i: int| 0 <= i < arguments@.len() ==> !is_colon_arg(#[trigger] arguments@[i]@) {
            assert(!colon_time_missing(args, times@)) by {
                if colon_time_missing(args, times@) {
                    let k = choose|k: int|
                        0 <= k < args.len() && is_colon_arg(args[k]) && (#[trigger] times@[k]) is None;
                    assert(args[k] == arguments@[k]@);
                    assert(!is_colon_arg(arguments@[k]@));
                }
            }
            let fp = spec_first_pass(args, times@);
            assert(fp =~= spec_first_pass(args, nones)) by {
                assert forall|k: int| 0 <= k < fp.len() implies fp[k] == spec_first_pass(
                    args,
                    nones,
                )[k] by {
                    assert(args[k] == arguments@[k]@);
                    assert(!is_colon_arg(arguments@[k]@));
                }
            }
            assert(resolved_wf(fp)) by {
                assert forall|k: int| 0 <= k < fp.len() implies match #[trigger] fp[k] {
                    StampView::Resolved(_, t) => t.wf(),
                    _ => true,
                } by {
                    assert(args[k] == arguments@[k]@);
                    assert(!is_colon_arg(arguments@[k]@));
                }
            }
        }
        if res == Err::<Vec<Timestamp>, ResolveError>(ResolveError::NoSuchLocalTime) {
            let k = choose|k: int|
                0 <= k < args.len() && is_colon_arg(args[k]) && (#[trigger] times@[k]) is None;
            assert(args[k] == arguments@[k]@);
        }
        if res == Err::<Vec<Timestamp>, ResolveError>(ResolveError::OutOfRange) {
            assert(!colon_time_missing(args, times@));
            let k = choose|k: int| 0 <= k < args.len() && is_relative(#[trigger] args[k]);
            assert(args[k] == arguments@[k]@);
        }
    }
    res
}

/// Whether an `HH:MM` argument reads without failing.
fn colon_readable(cs: &[char]) -> (res: bool)
    ensures
        res == colon_ok(cs@),
{
    let clean = strip_bang_chars(cs);
    let pieces = split_chars(clean, ':');
    if pieces.len() < 2 {
        return false;
    }
    assert(views(pieces@)[0] == pieces@[0]@);
    assert(views(pieces@)[1] == pieces@[1]@);
    parse_u32(pieces[0].as_slice()).is_some() && parse_u32(pieces[1].as_slice()).is_some()
}

/// Whether `resolve` reads an argument without failing.
pub fn argument_readable(a: &str) -> (res: bool)
    ensures
        res == argument_ok(a@),
{
    let cs = chars_of(a);
    if cs.len() > 0 && (cs[0] == '+' || cs[0] == '-') {
        let clean = strip_bang_chars(cs.as_slice());
        let body = vstd::slice::slice_subrange(clean, 1, clean.len());
        assert(body@ =~= relative_body(a@));
        duration_readable(body)
    } else if contains_char(cs.as_slice(), ':') {
        colon_readable(cs.as_slice())
    } else {
        true
    }
}

/// Whether `resolve` reads all its arguments without failing.
pub fn arguments_readable(arguments: &Vec<String>) -> (res: bool)
    ensures
        res == (forall|i: int| 0 <= i < arguments@.len() ==> argument_ok(#[trigger] arguments@[i]@)),
{
    let mut i: usize = 0;
    while i < arguments.len()
        invariant
            i <= arguments@.len(),
            forall|k: int| 0 <= k < i ==> argument_ok(#[trigger] arguments@[k]@),
        decreases arguments@.len() - i,
    {
        if !argument_readable(arguments[i].as_str()) {
            return false;
        }
        i = i + 1;
    }
    true
}

// ---------------------------------------------------------------------------
// Laws
// ---------------------------------------------------------------------------

/// Digits left at the end of a duration are seconds: adding the `s` does
/// not change what the duration reads as, or whether it reads at all.
pub proof fn lemma_trailing_digits_are_seconds(d: Seq<char>)
    ensures
        duration_ok(d.push('s')) == duration_ok(d),
        duration_secs(d.push('s')) == duration_secs(d),
{
    assert(d.push('s').drop_last() =~= d);
    let f = scan_duration(d);
    assert(scan_duration(d.push('s')).pending =~= Seq::<char>::empty());
    assert(duration_seconds_text(d.push('s')) =~= duration_seconds_text(d));
}

/// Reading `a` then `b`, where nothing of `a` waits for a unit, files each
/// field of `a` before the same field of `b`.
proof fn lemma_scan_concat(a: Seq<char>, b: Seq<char>)
    requires
        scan_duration(a).pending.len() == 0,
    ensures
        scan_duration(a + b).hours == scan_duration(a).hours + scan_duration(b).hours,
        scan_duration(a + b).minutes == scan_duration(a).minutes + scan_duration(b).minutes,
        scan_duration(a + b).seconds == scan_duration(a).seconds + scan_duration(b).seconds,
        scan_duration(a + b).pending == scan_duration(b).pending,
    decreases b.len(),
{
    if b.len() == 0 {
        assert(a + b =~= a);
        assert(scan_duration(a).hours + scan_duration(b).hours =~= scan_duration(a).hours);
        assert(scan_duration(a).minutes + scan_duration(b).minutes =~= scan_duration(a).minutes);
        assert(scan_duration(a).seconds + scan_duration(b).seconds =~= scan_duration(a).seconds);
        assert(scan_duration(a).pending =~= scan_duration(b).pending);
    } else {
        lemma_scan_concat(a, b.drop_last());
        assert((a + b).drop_last() =~= a + b.drop_last());
        assert((a + b).last() == b.last());
        let f = scan_duration(a);
        let g = scan_duration(b.drop_last());
        assert(f.hours + (g.hours + g.pending) =~= (f.hours + g.hours) + g.pending);
        assert(f.minutes + (g.minutes + g.pending) =~= (f.minutes + g.minutes) + g.pending);
        assert(f.seconds + (g.seconds + g.pending) =~= (f.seconds + g.seconds) + g.pending);
    }
}

/// Durations add up: where the first ends on a unit and the two name
/// different units, the duration written as the one followed by the other is
/// as long as both together.
pub proof fn lemma_duration_additive(a: Seq<char>, b: Seq<char>)
    requires
        scan_duration(a).pending.len() == 0,
        duration_hours_text(a).len() == 0 || duration_hours_text(b).len() == 0,
        duration_minutes_text(a).len() == 0 || duration_minutes_text(b).len() == 0,
        duration_seconds_text(a).len() == 0 || duration_seconds_text(b).len() == 0,
    ensures
        duration_secs(a + b) == duration_secs(a) + duration_secs(b),
{
    lemma_scan_concat(a, b);
    let f = scan_duration(a);
    let g = scan_duration(b);
    assert(duration_hours_text(a + b) == f.hours + g.hours);
    assert(duration_minutes_text(a + b) == f.minutes + g.minutes);
    assert(duration_seconds_text(a) =~= f.seconds);
    assert(duration_seconds_text(a + b) =~= f.seconds + (g.seconds + g.pending));
    lemma_field_value_either(f.hours, g.hours);
    lemma_field_value_either(f.minutes, g.minutes);
    lemma_field_value_either(f.seconds, g.seconds + g.pending);
}

/// A field written in one of two places only reads as what is written there.
proof fn lemma_field_value_either(p: Seq<char>, q: Seq<char>)
    requires
        p.len() == 0 || q.len() == 0,
    ensures
        field_value(p + q) == field_value(p) + field_value(q),
{
    if p.len() == 0 {
        assert(p + q =~= q);
    } else {
        assert(p + q =~= p);
    }
}

/// The order of unit-terminated groups of different units does not change
/// how long a duration is: `20m1h` lasts as long as `1h20m`.
pub proof fn lemma_duration_order_free(a: Seq<char>, b: Seq<char>)
    requires
        scan_duration(a).pending.len() == 0,
        scan_duration(b).pending.len() == 0,
        duration_hours_text(a).len() == 0 || duration_hours_text(b).len() == 0,
        duration_minutes_text(a).len() == 0 || duration_minutes_text(b).len() == 0,
        duration_seconds_text(a).len() == 0 || duration_seconds_text(b).len() == 0,
    ensures
        duration_secs(a + b) == duration_secs(b + a),
{
    lemma_duration_additive(a, b);
    lemma_duration_additive(b, a);
}

/// The text an entry was read from.
pub open spec fn label(e: StampView) -> Seq<char> {
    match e {
        StampView::Later(a) => a,
        StampView::Resolved(a, _) => a,
        StampView::Unresolvable(a) => a,
    }
}

/// An entry that waits to be resolved before the first time (`-D`).
pub open spec fn is_minus(e: StampView) -> bool {
    e matches StampView::Later(a) && a[0] == '-'
}

/// The labels of the `-D` entries, the latest first.
pub open spec fn minus_labels(fp: Seq<StampView>) -> Seq<Seq<char>>
    decreases fp.len(),
{
    if fp.len() == 0 {
        Seq::empty()
    } else if is_minus(fp.last()) {
        seq![label(fp.last())] + minus_labels(fp.drop_last())
    } else {
        minus_labels(fp.drop_last())
    }
}

/// The labels of all other entries, in order.
pub open spec fn plain_labels(fp: Seq<StampView>) -> Seq<Seq<char>>
    decreases fp.len(),
{
    if fp.len() == 0 {
        Seq::empty()
    } else if is_minus(fp.last()) {
        plain_labels(fp.drop_last())
    } else {
        plain_labels(fp.drop_last()).push(label(fp.last()))
    }
}

/// The second pass only moves entries: its labels are those of the `-D`
/// entries, the latest first, followed by those of all the others in their
/// order.
pub proof fn lemma_settle_labels(fp: Seq<StampView>, now: Moment)
    ensures
        spec_settle(fp, now).map_values(|e: StampView| label(e)) == minus_labels(fp)
            + plain_labels(fp),
    decreases fp.len(),
{
    if fp.len() == 0 {
        assert(spec_settle(fp, now).map_values(|e: StampView| label(e)) =~= Seq::<
            Seq<char>,
        >::empty());
        assert(minus_labels(fp) + plain_labels(fp) =~= Seq::<Seq<char>>::empty());
    } else {
        lemma_settle_labels(fp.drop_last(), now);
        let out = spec_settle(fp.drop_last(), now);
        let m = minus_labels(fp.drop_last());
        let p = plain_labels(fp.drop_last());
        assert(out.map_values(|e: StampView| label(e)) == m + p);
        let x = fp.last();
        if is_minus(x) {
            let r = spec_settle(fp, now)[0];
            assert(spec_settle(fp, now) =~= seq![r] + out);
            assert(label(r) == label(x));
            assert(spec_settle(fp, now).map_values(|e: StampView| label(e)) =~= seq![label(x)]
                + out.map_values(|e: StampView| label(e)));
            assert(minus_labels(fp) + plain_labels(fp) =~= seq![label(x)] + (m + p));
        } else {
            let r = spec_settle(fp, now).last();
            assert(spec_settle(fp, now) =~= out.push(r));
            assert(label(r) == label(x));
            assert(spec_settle(fp, now).map_values(|e: StampView| label(e)) =~= out.map_values(
                |e: StampView| label(e),
            ).push(label(x)));
            assert(minus_labels(fp) + plain_labels(fp) =~= (m + p).push(label(x)));
        }
    }
}

/// The first pass keeps each argument as the label of its entry, and the
/// entries that wait to go before the first time are exactly the arguments
/// that start with `-`.
pub proof fn lemma_first_pass_labels(args: Seq<Seq<char>>, times: Seq<Option<Moment>>)
    ensures
        spec_first_pass(args, times).len() == args.len(),
        forall|i: int|
            0 <= i < args.len() ==> label(#[trigger] spec_first_pass(args, times)[i]) == args[i],
        forall|i: int|
            0 <= i < args.len() ==> (is_minus(#[trigger] spec_first_pass(args, times)[i]) <==> (
            args[i].len() > 0 && args[i][0] == '-')),
{
}

proof fn lemma_label_counts(fp: Seq<StampView>, p: int)
    requires
        0 <= p <= fp.len(),
    ensures
        minus_labels(fp).len() + plain_labels(fp).len() == fp.len(),
        plain_labels(fp.take(p)).len() <= plain_labels(fp).len(),
    decreases fp.len(),
{
    if fp.len() > 0 {
        if p == fp.len() {
            assert(fp.take(p) =~= fp);
            lemma_label_counts(fp.drop_last(), 0);
        } else {
            lemma_label_counts(fp.drop_last(), p);
            assert(fp.drop_last().take(p) =~= fp.take(p));
        }
    }
}

proof fn lemma_first_resolved_insert(s: Seq<StampView>, j: int, u: Seq<char>, now: Moment)
    requires
        0 <= j <= s.len(),
    ensures
        first_resolved(s.insert(j, StampView::Unresolvable(u)), now) == first_resolved(s, now),
    decreases s.len(),
{
    let t = s.insert(j, StampView::Unresolvable(u));
    if j == 0 {
        assert(t.drop_first() =~= s);
    } else {
        assert(t[0] == s[0]);
        assert(t.drop_first() =~= s.drop_first().insert(j - 1, StampView::Unresolvable(u)));
        lemma_first_resolved_insert(s.drop_first(), j - 1, u, now);
    }
}

proof fn lemma_last_resolved_insert(s: Seq<StampView>, j: int, u: Seq<char>, now: Moment)
    requires
        0 <= j <= s.len(),
    ensures
        last_resolved(s.insert(j, StampView::Unresolvable(u)), now) == last_resolved(s, now),
    decreases s.len(),
{
    let t = s.insert(j, StampView::Unresolvable(u));
    if j == s.len() {
        assert(t.drop_last() =~= s);
        assert(t.last() == StampView::Unresolvable(u));
    } else {
        assert(t.last() == s.last());
        assert(t.drop_last() =~= s.drop_last().insert(j, StampView::Unresolvable(u)));
        lemma_last_resolved_insert(s.drop_last(), j, u, now);
    }
}

/// An argument that names no time shifts no other: inserting one anywhere
/// among the entries of the first pass leaves every other entry of the
/// second pass, its label and its time, as it was, and puts the new one after
/// all the `-D` entries and after the other entries that came before it.
#[verifier::spinoff_prover]
#[verifier::rlimit(40)]
pub proof fn lemma_settle_ignores_unresolvable(
    fp: Seq<StampView>,
    p: int,
    u: Seq<char>,
    now: Moment,
)
    requires
        0 <= p <= fp.len(),
    ensures
        spec_settle(fp.insert(p, StampView::Unresolvable(u)), now) == spec_settle(fp, now).insert(
            (minus_labels(fp).len() + plain_labels(fp.take(p)).len()) as int,
            StampView::Unresolvable(u),
        ),
    decreases fp.len(),
{
    let x = StampView::Unresolvable(u);
    let fq = fp.insert(p, x);
    lemma_settle_keeps_count(fp, now);
    lemma_label_counts(fp, p);
    if p == fp.len() {
        assert(fq.drop_last() =~= fp);
        assert(fq.last() == x);
        assert(fp.take(p) =~= fp);
        assert(spec_settle(fq, now) =~= spec_settle(fp, now).push(x));
        assert(spec_settle(fp, now).push(x) =~= spec_settle(fp, now).insert(fp.len() as int, x));
    } else {
        let q = fp.drop_last();
        assert(fq.drop_last() =~= q.insert(p, x));
        assert(fq.last() == fp.last());
        assert(q.take(p) =~= fp.take(p));
        lemma_settle_ignores_unresolvable(q, p, u, now);
        lemma_settle_keeps_count(q, now);
        lemma_label_counts(q, p);
        let sq = spec_settle(q, now);
        let j: int = (minus_labels(q).len() + plain_labels(q.take(p)).len()) as int;
        assert(spec_settle(fq.drop_last(), now) == sq.insert(j, x));
        lemma_first_resolved_insert(sq, j, u, now);
        lemma_last_resolved_insert(sq, j, u, now);
        match fp.last() {
            StampView::Later(a) => {
                if a[0] == '-' {
                    let r = StampView::Resolved(
                        a,
                        first_resolved(sq, now).shifted(-duration_secs(relative_body(a))),
                    );
                    assert(spec_settle(fq, now) == seq![r] + sq.insert(j, x));
                    assert(spec_settle(fp, now) == seq![r] + sq);
                    assert(seq![r] + sq.insert(j, x) =~= (seq![r] + sq).insert(j + 1, x));
                } else {
                    let r = StampView::Resolved(
                        a,
                        last_resolved(sq, now).shifted(duration_secs(relative_body(a))),
                    );
                    assert(spec_settle(fq, now) == sq.insert(j, x).push(r));
                    assert(spec_settle(fp, now) == sq.push(r));
                    assert(sq.insert(j, x).push(r) =~= sq.push(r).insert(j, x));
                }
            },
            other => {
                assert(spec_settle(fq, now) == sq.insert(j, x).push(other));
                assert(spec_settle(fp, now) == sq.push(other));
                assert(sq.insert(j, x).push(other) =~= sq.push(other).insert(j, x));
            },
        }
    }
}

/// An argument that names no time shifts no other in the result of
/// resolving: inserting it anywhere among the arguments (with any time
/// beside it) gives the same failure, or the same entries, labels and times,
/// with the new one put after all the `-D` entries and after the other
/// entries that came before it.
pub proof fn lemma_resolve_ignores_unresolvable(
    args: Seq<Seq<char>>,
    times: Seq<Option<Moment>>,
    now: Moment,
    p: int,
    u: Seq<char>,
    t: Option<Moment>,
    before: Result<Seq<StampView>, ResolveError>,
    after: Result<Seq<StampView>, ResolveError>,
)
    requires
        times.len() == args.len(),
        0 <= p <= args.len(),
        !is_relative(u),
        !u.contains(':'),
        resolves_as(args, times, now, before),
        resolves_as(args.insert(p, u), times.insert(p, t), now, after),
    ensures
        before is Err ==> after == before,
        before matches Ok(out) ==> after == Ok::<Seq<StampView>, ResolveError>(
            out.insert(
                (minus_labels(spec_first_pass(args, times)).len() + plain_labels(
                    spec_first_pass(args, times).take(p),
                ).len()) as int,
                StampView::Unresolvable(u),
            ),
        ),
{
    let args2 = args.insert(p, u);
    let times2 = times.insert(p, t);
    let fp = spec_first_pass(args, times);
    let fq = spec_first_pass(args2, times2);
    assert(fq =~= fp.insert(p, StampView::Unresolvable(u))) by {
        assert forall|k: int| 0 <= k < fq.len() implies fq[k] == fp.insert(
            p,
            StampView::Unresolvable(u),
        )[k] by {
            if k < p {
                assert(args2[k] == args[k] && times2[k] == times[k]);
            } else if k > p {
                assert(args2[k] == args[k - 1] && times2[k] == times[k - 1]);
            } else {
                assert(args2[k] == u);
            }
        }
    }
    assert(colon_time_missing(args2, times2) == colon_time_missing(args, times)) by {
        if colon_time_missing(args, times) {
            let k = choose|k: int|
                0 <= k < args.len() && is_colon_arg(args[k]) && (#[trigger] times[k]) is None;
            if k < p {
                assert(args2[k] == args[k] && times2[k] == times[k]);
            } else {
                assert(args2[k + 1] == args[k] && times2[k + 1] == times[k]);
            }
        }
        if colon_time_missing(args2, times2) {
            let k = choose|k: int|
                0 <= k < args2.len() && is_colon_arg(args2[k]) && (#[trigger] times2[k]) is None;
            if k < p {
                assert(args2[k] == args[k] && times2[k] == times[k]);
            } else if k > p {
                assert(args2[k] == args[k - 1] && times2[k] == times[k - 1]);
            } else {
                assert(args2[k] == u);
            }
        }
    }
    if !colon_time_missing(args, times) {
        lemma_settle_opt_insert(fp, p, u, now);
    }
}

proof fn lemma_settle_opt_len(fp: Seq<StampView>, now: Moment)
    ensures
        spec_settle_opt(fp, now) matches Some(out) ==> out.len() == fp.len(),
    decreases fp.len(),
{
    if fp.len() > 0 {
        lemma_settle_opt_len(fp.drop_last(), now);
    }
}

/// `lemma_settle_ignores_unresolvable` for the second pass as chrono runs
/// it, at every instant.
proof fn lemma_settle_opt_insert(fp: Seq<StampView>, p: int, u: Seq<char>, now: Moment)
    requires
        0 <= p <= fp.len(),
    ensures
        spec_settle_opt(fp.insert(p, StampView::Unresolvable(u)), now) == match spec_settle_opt(
            fp,
            now,
        ) {
            Some(out) => Some(
                out.insert(
                    (minus_labels(fp).len() + plain_labels(fp.take(p)).len()) as int,
                    StampView::Unresolvable(u),
                ),
            ),
            None => None,
        },
    decreases fp.len(),
{
    let x = StampView::Unresolvable(u);
    let fq = fp.insert(p, x);
    lemma_settle_opt_len(fp, now);
    lemma_label_counts(fp, p);
    if p == fp.len() {
        assert(fq.drop_last() =~= fp);
        assert(fq.last() == x);
        assert(fp.take(p) =~= fp);
        if let Some(out) = spec_settle_opt(fp, now) {
            assert(out.push(x) =~= out.insert(fp.len() as int, x));
        }
    } else {
        let q = fp.drop_last();
        assert(fq.drop_last() =~= q.insert(p, x));
        assert(fq.last() == fp.last());
        assert(q.take(p) =~= fp.take(p));
        lemma_settle_opt_insert(q, p, u, now);
        lemma_settle_opt_len(q, now);
        lemma_label_counts(q, p);
        let j: int = (minus_labels(q).len() + plain_labels(q.take(p)).len()) as int;
        if let Some(sq) = spec_settle_opt(q, now) {
            assert(spec_settle_opt(fq.drop_last(), now) == Some(sq.insert(j, x)));
            lemma_first_resolved_insert(sq, j, u, now);
            lemma_last_resolved_insert(sq, j, u, now);
            match fp.last() {
                StampView::Later(a) => {
                    if a[0] == '-' {
                        if let Some(t) = chrono_minus(
                            first_resolved(sq, now),
                            duration_secs(relative_body(a)) as i64,
                        ) {
                            let r = StampView::Resolved(a, t);
                            assert(seq![r] + sq.insert(j, x) =~= (seq![r] + sq).insert(j + 1, x));
                        }
                    } else {
                        if let Some(t) = chrono_plus(
                            last_resolved(sq, now),
                            duration_secs(relative_body(a)) as i64,
                        ) {
                            let r = StampView::Resolved(a, t);
                            assert(sq.insert(j, x).push(r) =~= sq.push(r).insert(j, x));
                        }
                    }
                },
                other => {
                    assert(sq.insert(j, x).push(other) =~= sq.push(other).insert(j, x));
                },
            }
        }
    }
}

/// Every argument gives exactly one entry: the second pass neither drops
/// nor adds any.
pub proof fn lemma_settle_keeps_count(fp: Seq<StampView>, now: Moment)
    ensures
        spec_settle(fp, now).len() == fp.len(),
    decreases fp.len(),
{
    if fp.len() > 0 {
        lemma_settle_keeps_count(fp.drop_last(), now);
    }
}

/// A list of times without relative arguments comes out as the first pass
/// made it, in order.
pub proof fn lemma_settle_without_relatives(fp: Seq<StampView>, now: Moment)
    requires
        forall|i: int| 0 <= i < fp.len() ==> !(#[trigger] fp[i] is Later),
    ensures
        spec_settle(fp, now) == fp,
    decreases fp.len(),
{
    if fp.len() > 0 {
        assert(forall|i: int| 0 <= i < fp.drop_last().len() ==> fp.drop_last()[i] == fp[i]);
        lemma_settle_without_relatives(fp.drop_last(), now);
        assert(!(fp[fp.len() - 1] is Later));
        assert(fp.drop_last().push(fp.last()) =~= fp);
    } else {
        assert(fp =~= Seq::<StampView>::empty());
    }
}

} // verus!

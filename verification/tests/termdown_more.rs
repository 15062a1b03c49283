use chrono::{DateTime, Local, TimeZone};
use wks::termdown::{
    colon_fields, parse_duration, pick_occurrence, resolve, resolve_colon, resolve_with, settle,
    Container, LocalMoment, Moment, ResolveError, Resolution, Timestamp, MAX_TIMESTAMP,
    MIN_TIMESTAMP,
};

fn moment(dt: DateTime<Local>) -> Moment {
    Moment { secs: dt.timestamp(), nanos: dt.timestamp_subsec_nanos() }
}

fn at(h: u32, m: u32, s: u32) -> Moment {
    local_at(h, m, s).at
}

fn local_at(h: u32, m: u32, s: u32) -> LocalMoment {
    let dt = Local.with_ymd_and_hms(2025, 6, 15, h, m, s).single().unwrap();
    LocalMoment { at: moment(dt), offset: dt.offset().local_minus_utc() }
}

/// A reading of a clock that runs on UTC.
fn utc(s: i64) -> LocalMoment {
    LocalMoment { at: Moment { secs: s, nanos: 0 }, offset: 0 }
}

#[test]
fn trailing_digits_are_seconds() {
    assert_eq!(parse_duration("1h30").secs, parse_duration("1h30s").secs);
    assert_eq!(parse_duration("90").secs, 90);
    assert_eq!(parse_duration("").secs, 0);
    assert_eq!(parse_duration("1h2h").secs, 12 * 3600);
    assert_eq!(parse_duration("-5m").secs, -300);
}

#[test]
fn wall_clock_out_of_range_gives_none() {
    assert_eq!(resolve_colon("24:00", local_at(10, 0, 0)), None);
    assert_eq!(resolve_colon("10:60", local_at(10, 0, 0)), None);
}

#[test]
fn wall_clock_later_today() {
    assert_eq!(resolve_colon("12:30!", local_at(10, 0, 0)), Some(local_at(12, 30, 0)));
    assert_eq!(resolve_colon("10:00", local_at(10, 0, 0)), Some(local_at(10, 0, 0)));
}

#[test]
fn relative_times_without_base_use_now() {
    let now = local_at(10, 0, 0);
    let out = resolve(vec!["-1h".into(), "note".into()], now).unwrap();
    assert_eq!(
        out,
        vec![
            Timestamp::Resolvable(Resolution::Resolved(Container("-1h".into(), at(9, 0, 0)))),
            Timestamp::Unresolvable("note".into()),
        ]
    );
}

#[test]
fn settle_keeps_every_entry() {
    let now = at(10, 0, 0);
    let first = vec![
        Timestamp::Unresolvable("x".into()),
        Timestamp::Resolvable(Resolution::Later("+10m!".into())),
        Timestamp::Resolvable(Resolution::Resolved(Container("11:00".into(), at(11, 0, 0)))),
        Timestamp::Resolvable(Resolution::Later("+5m".into())),
    ];
    let out = settle(&first, now).unwrap();
    assert_eq!(out.len(), first.len());
    assert_eq!(
        out,
        vec![
            Timestamp::Unresolvable("x".into()),
            Timestamp::Resolvable(Resolution::Resolved(Container("+10m!".into(), at(10, 10, 0)))),
            Timestamp::Resolvable(Resolution::Resolved(Container("11:00".into(), at(11, 0, 0)))),
            Timestamp::Resolvable(Resolution::Resolved(Container("+5m".into(), at(11, 5, 0)))),
        ]
    );
}

fn secs(s: i64) -> Moment {
    Moment { secs: s, nanos: 0 }
}

fn resolved(a: &str, t: Moment) -> Timestamp {
    Timestamp::Resolvable(Resolution::Resolved(Container(a.into(), t)))
}

#[test]
fn colon_fields_reads_hour_and_minute() {
    assert_eq!(colon_fields("12:30!"), (12, 30));
    assert_eq!(colon_fields("7:05:99"), (7, 5));
    assert_eq!(colon_fields("25:61"), (25, 61));
}

#[test]
fn pick_occurrence_keeps_today_unless_passed() {
    let now = utc(1000);
    assert_eq!(pick_occurrence(utc(2000), now, Some(utc(88400))), Some(utc(2000)));
    assert_eq!(pick_occurrence(utc(1000), now, Some(utc(87400))), Some(utc(1000)));
    assert_eq!(pick_occurrence(utc(999), now, Some(utc(87399))), Some(utc(87399)));
    assert_eq!(pick_occurrence(utc(999), now, None), None);
    let just_before = LocalMoment { at: Moment { secs: 1000, nanos: 1 }, offset: 0 };
    assert_eq!(pick_occurrence(utc(1000), just_before, None), None);
}

#[test]
fn resolve_with_given_wall_clock_times() {
    // 10:00:59 on some day, and noon on the same day.
    let now = secs(36059);
    let noon = secs(43200);
    let args: Vec<String> =
        vec!["12:00".into(), "-10m".into(), "-1h30m".into(), "-1h".into()];
    let times = vec![Some(noon), None, None, None];
    assert_eq!(
        resolve_with(&args, now, &times).unwrap(),
        vec![
            resolved("-1h", secs(33600)),
            resolved("-1h30m", secs(37200)),
            resolved("-10m", secs(42600)),
            resolved("12:00", noon),
        ]
    );
    let args: Vec<String> = vec!["12:00".into(), "+1h20m".into(), "+10m".into()];
    let times = vec![Some(noon), None, None];
    assert_eq!(
        resolve_with(&args, now, &times).unwrap(),
        vec![resolved("12:00", noon), resolved("+1h20m", secs(48000)), resolved("+10m", secs(48600))]
    );
}

#[test]
fn resolve_with_chains_from_now() {
    let now = secs(36059);
    let args: Vec<String> = vec!["+1h20m".into(), "+10m".into()];
    assert_eq!(
        resolve_with(&args, now, &vec![None, None]).unwrap(),
        vec![resolved("+1h20m", secs(40859)), resolved("+10m", secs(41459))]
    );
}

#[test]
fn resolve_with_missing_wall_clock_time() {
    let args: Vec<String> = vec!["+1h".into(), "note".into(), "02:30".into()];
    assert_eq!(
        resolve_with(&args, secs(0), &vec![None, None, None]),
        Err(ResolveError::NoSuchLocalTime)
    );
}

#[test]
fn resolve_at_the_edges_of_chrono_range() {
    let last = secs(MAX_TIMESTAMP);
    let first = secs(MIN_TIMESTAMP);
    assert_eq!(resolve(vec!["+0s".into()], utc(MAX_TIMESTAMP)).unwrap(), vec![resolved("+0s", last)]);
    assert_eq!(resolve(vec!["+1s".into()], utc(MAX_TIMESTAMP)), Err(ResolveError::OutOfRange));
    assert_eq!(resolve(vec!["-1s".into()], utc(MIN_TIMESTAMP)), Err(ResolveError::OutOfRange));
    assert_eq!(
        resolve(vec!["-1s".into()], utc(MIN_TIMESTAMP + 1)).unwrap(),
        vec![resolved("-1s", first)]
    );
    assert_eq!(
        settle(&vec![Timestamp::Resolvable(Resolution::Later("+1s".into()))], last),
        Err(ResolveError::OutOfRange)
    );
}

#[test]
fn durations_add_up() {
    let whole = parse_duration("1h20m").secs;
    assert_eq!(whole, parse_duration("1h").secs + parse_duration("20m").secs);
    assert_eq!(whole, parse_duration("20m1h").secs);
    assert_eq!(parse_duration("5s2h").secs, parse_duration("2h5s").secs);
    assert_eq!(parse_duration("5s2h").secs, 7205);
}

#[test]
fn minus_entries_go_first_latest_first() {
    let now = secs(10_000);
    let args: Vec<String> =
        vec!["-1m".into(), "a".into(), "+1m".into(), "-2m".into(), "b".into()];
    let out = resolve_with(&args, now, &vec![None, None, None, None, None]).unwrap();
    assert_eq!(
        out,
        vec![
            resolved("-2m", secs(9_820)),
            resolved("-1m", secs(9_940)),
            Timestamp::Unresolvable("a".into()),
            resolved("+1m", secs(10_000)),
            Timestamp::Unresolvable("b".into()),
        ]
    );
}

#[test]
fn unresolvable_argument_shifts_nothing() {
    let now = secs(36_059);
    let noon = secs(43_200);
    let args: Vec<String> = vec!["12:00".into(), "-10m".into(), "+5m".into()];
    let without = resolve_with(&args, now, &vec![Some(noon), None, None]).unwrap();
    assert_eq!(
        without,
        vec![resolved("-10m", secs(42_600)), resolved("12:00", noon), resolved("+5m", secs(43_500))]
    );
    let args: Vec<String> = vec!["12:00".into(), "memo".into(), "-10m".into(), "+5m".into()];
    let with = resolve_with(&args, now, &vec![Some(noon), None, None, None]).unwrap();
    let mut expected = without;
    expected.insert(2, Timestamp::Unresolvable("memo".into()));
    assert_eq!(with, expected);
}

#[test]
fn wall_clock_today_or_tomorrow() {
    let now = local_at(10, 0, 59);
    let tomorrow = |h: u32, m: u32| {
        let dt = Local.with_ymd_and_hms(2025, 6, 16, h, m, 0).single().unwrap();
        LocalMoment { at: moment(dt), offset: dt.offset().local_minus_utc() }
    };
    assert_eq!(resolve_colon("12:00", now), Some(local_at(12, 0, 0)));
    assert_eq!(resolve_colon("10:00", now), Some(tomorrow(10, 0)));
    assert_eq!(resolve_colon("10:01!", now), Some(local_at(10, 1, 0)));
    let out = resolve(vec!["09:00".into(), "+1h".into()], now).unwrap();
    assert_eq!(
        out,
        vec![resolved("09:00", tomorrow(9, 0).at), resolved("+1h", tomorrow(10, 0).at)]
    );
}

#[test]
fn wall_clock_on_a_clock_east_of_utc() {
    // The clock shows 01:30 at 23:30 UTC the day before: two hours east.
    let day = 1000 * 86_400;
    let now = LocalMoment { at: Moment { secs: day - 1800, nanos: 7 }, offset: 7200 };
    let out = resolve_colon("00:45", now);
    // Whatever the machine's zone, the answer keeps the nanoseconds and
    // shows 00:45 on the local day after.
    let r = out.unwrap();
    assert_eq!(r.at.nanos, 7);
    assert_eq!((r.at.secs + r.offset as i64).rem_euclid(86_400), 45 * 60);
}

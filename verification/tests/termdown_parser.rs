use chrono::{DateTime, Local, TimeDelta, TimeZone};
use wks::termdown::{
    parse_duration, resolve, resolve_colon, Container, LocalMoment, Moment, Resolution, Timestamp,
};

fn moment(dt: DateTime<Local>) -> Moment {
    Moment { secs: dt.timestamp(), nanos: dt.timestamp_subsec_nanos() }
}

fn local(dt: DateTime<Local>) -> LocalMoment {
    LocalMoment { at: moment(dt), offset: dt.offset().local_minus_utc() }
}

#[test]
fn christianity() {
    let input = vec!["1h20m".into(), "10m".into()];
    let now = local(Local
        .with_ymd_and_hms(2025, 12, 31, 23, 59, 59)
        .single()
        .unwrap());
    let output = resolve(input, now).unwrap();
    assert_eq!(
        output[..],
        vec![
            Timestamp::Unresolvable("1h20m".into()),
            Timestamp::Unresolvable("10m".into())
        ]
    )
}

#[test]
fn fairy() {
    let input = vec!["+1h20m".into(), "+10m".into()];
    let now = local(Local
        .with_ymd_and_hms(2025, 12, 31, 10, 00, 59)
        .single()
        .unwrap());
    let output = resolve(input, now).unwrap();
    assert_eq!(
        output[..],
        vec![
            Timestamp::Resolvable(Resolution::Resolved(Container(
                "+1h20m".into(),
                moment(Local
                    .with_ymd_and_hms(2025, 12, 31, 11, 20, 59)
                    .single()
                    .unwrap())
            ))),
            Timestamp::Resolvable(Resolution::Resolved(Container(
                "+10m".into(),
                moment(Local
                    .with_ymd_and_hms(2025, 12, 31, 11, 30, 59)
                    .single()
                    .unwrap())
            )))
        ]
    )
}

#[test]
fn condos() {
    let input = vec!["12:00".into(), "+1h20m".into(), "+10m".into()];
    let now = local(Local
        .with_ymd_and_hms(2025, 12, 31, 10, 00, 59)
        .single()
        .unwrap());
    let output = resolve(input, now).unwrap();
    assert_eq!(
        output[..],
        vec![
            Timestamp::Resolvable(Resolution::Resolved(Container(
                "12:00".into(),
                moment(Local
                    .with_ymd_and_hms(2025, 12, 31, 12, 00, 00)
                    .single()
                    .unwrap())
            ))),
            Timestamp::Resolvable(Resolution::Resolved(Container(
                "+1h20m".into(),
                moment(Local
                    .with_ymd_and_hms(2025, 12, 31, 13, 20, 00)
                    .single()
                    .unwrap())
            ))),
            Timestamp::Resolvable(Resolution::Resolved(Container(
                "+10m".into(),
                moment(Local
                    .with_ymd_and_hms(2025, 12, 31, 13, 30, 00)
                    .single()
                    .unwrap())
            )))
        ]
    )
}

#[test]
fn attraction() {
    let input = vec!["12:00".into(), "-10m".into(), "-1h30m".into(), "-1h".into()];
    let now = local(Local
        .with_ymd_and_hms(2025, 12, 31, 10, 00, 59)
        .single()
        .unwrap());
    let output = resolve(input, now).unwrap();
    assert_eq!(
        output[..],
        vec![
            Timestamp::Resolvable(Resolution::Resolved(Container(
                "-1h".into(),
                moment(Local
                    .with_ymd_and_hms(2025, 12, 31, 9, 20, 00)
                    .single()
                    .unwrap())
            ))),
            Timestamp::Resolvable(Resolution::Resolved(Container(
                "-1h30m".into(),
                moment(Local
                    .with_ymd_and_hms(2025, 12, 31, 10, 20, 00)
                    .single()
                    .unwrap())
            ))),
            Timestamp::Resolvable(Resolution::Resolved(Container(
                "-10m".into(),
                moment(Local
                    .with_ymd_and_hms(2025, 12, 31, 11, 50, 00)
                    .single()
                    .unwrap())
            ))),
            Timestamp::Resolvable(Resolution::Resolved(Container(
                "12:00".into(),
                moment(Local
                    .with_ymd_and_hms(2025, 12, 31, 12, 00, 00)
                    .single()
                    .unwrap())
            ))),
        ]
    )
}

#[test]
fn visible() {
    let input = "23:00";
    let now = local(Local
        .with_ymd_and_hms(2025, 12, 31, 22, 59, 59)
        .single()
        .unwrap());
    let output = resolve_colon(input, now).unwrap();
    assert_eq!(
        output.at,
        moment(Local
            .with_ymd_and_hms(2025, 12, 31, 23, 00, 00)
            .single()
            .unwrap())
    )
}

#[test]
fn cheese() {
    let input = "01:00";
    let now = local(Local
        .with_ymd_and_hms(2025, 12, 31, 23, 59, 59)
        .single()
        .unwrap());
    let output = resolve_colon(input, now).unwrap();
    assert_eq!(
        output.at,
        moment(Local
            .with_ymd_and_hms(2026, 1, 1, 01, 00, 00)
            .single()
            .unwrap())
    )
}

#[test]
fn votes() {
    let input = "1h20m30s";
    let output = TimeDelta::seconds(parse_duration(input).secs);
    assert_eq!(
        output,
        TimeDelta::hours(1) + TimeDelta::minutes(20) + TimeDelta::seconds(30)
    )
}

#[test]
fn institutions() {
    let input = "1h20m30";
    let output = TimeDelta::seconds(parse_duration(input).secs);
    assert_eq!(
        output,
        TimeDelta::hours(1) + TimeDelta::minutes(20) + TimeDelta::seconds(30)
    )
}

#[test]
fn soccer() {
    let input = "1h30";
    let output = TimeDelta::seconds(parse_duration(input).secs);
    assert_eq!(output, TimeDelta::hours(1) + TimeDelta::seconds(30))
}

use chrono::{FixedOffset, TimeZone, Timelike};
use ecnu_power_usage::degree::{parse_degree, write_degree, Degree};
use ecnu_power_usage::error::Error;
use ecnu_power_usage::log::{format_samples, parse_log, Sample};
use ecnu_power_usage::recorder::{RecordLog, Records};
use ecnu_power_usage::span::TimeSpan;
use ecnu_power_usage::time::{parse_timestamp, timestamp_text, Timestamp, MAX_SECS, MIN_SECS};

fn deg(v: f32) -> Degree {
    parse_degree(&format!("{}", v).into_bytes()).unwrap()
}

fn ts<Tz: TimeZone>(dt: chrono::DateTime<Tz>) -> Timestamp {
    let fixed = dt.fixed_offset();
    Timestamp {
        secs: fixed.timestamp(),
        nanos: fixed.timestamp_subsec_nanos(),
        offset: fixed.offset().local_minus_utc(),
    }
}

fn instant(t: &Timestamp) -> (i64, u32) {
    (t.secs, t.nanos)
}

const ARCHIVE_CSV: &str = "\
2026-01-24T15:39:32.132936+08:00,33.63
2026-01-24T17:06:32.132936+08:00,33.96
2026-01-24T18:33:32.132936+08:00,34.45
2026-01-24T20:09:32.132936+08:00,34.99
2026-01-24T20:30:32.132936+08:00,35.15
2026-01-24T20:48:32.132936+08:00,35.20
2026-01-24T22:23:32.132936+08:00,35.57
2026-01-24T23:25:32.132936+08:00,35.76
2026-01-25T01:22:32.132936+08:00,36.67
2026-01-25T03:13:32.132936+08:00,36.87
2026-01-25T04:49:32.132936+08:00,37.56
2026-01-25T05:10:32.132936+08:00,37.69
2026-01-25T06:45:32.132936+08:00,38.36
2026-01-25T07:59:32.132936+08:00,38.96
2026-01-25T09:48:32.132936+08:00,39.66
2026-01-25T11:31:32.132936+08:00,40.36
2026-01-25T12:02:32.132936+08:00,40.47
2026-01-25T13:56:32.132936+08:00,40.97
2026-01-25T15:54:32.132936+08:00,41.32
2026-01-25T16:09:32.132936+08:00,41.43";

#[test]
fn load_records() {
    let recs = Records::from_csv(
        &"\
2026-01-24T14:35:32+08:00,33.43
2026-01-25T00:00:00+08:00,10.00
"
        .as_bytes()
        .to_vec(),
    )
    .unwrap();
    let got: Vec<((i64, u32), Degree)> =
        recs.0.iter().map(|s| (instant(&s.time), s.degree)).collect();
    assert_eq!(
        got,
        vec![
            (
                instant(&ts(chrono::DateTime::from_timestamp_secs(1769236532).unwrap().fixed_offset())),
                deg(33.43f32)
            ),
            (
                // python3.14: int(datetime.datetime(year=2026, month=1, day=25).timestamp())
                instant(&ts(chrono::DateTime::from_timestamp_secs(1769270400).unwrap().fixed_offset())),
                deg(10.00f32)
            )
        ]
    );
}

fn archive_scenario() -> (Vec<Sample>, Vec<Sample>) {
    let records = Records::from_csv(&ARCHIVE_CSV.as_bytes().to_vec()).unwrap();
    let offset = FixedOffset::east_opt(8 * 3600).unwrap();
    let span = TimeSpan::new_before(ts(offset.with_ymd_and_hms(2026, 1, 25, 11, 30, 0).unwrap()));
    let mut recorder = RecordLog::open(Vec::new()).unwrap();
    for rec in records.0.iter() {
        recorder.record_batch(&vec![*rec]);
    }
    let split = recorder.begin_archive(&span).unwrap();
    (split.archived.0, split.retained.0)
}

fn expected_archived() -> Vec<Sample> {
    let offset = FixedOffset::east_opt(8 * 3600).unwrap();
    let at = |d: u32, h: u32, m: u32, s: u32, v: f32| Sample {
        time: ts(offset
            .with_ymd_and_hms(2026, 1, d, h, m, s)
            .unwrap()
            .with_nanosecond(132936000)
            .unwrap()),
        degree: deg(v),
    };
    vec![
        at(24, 15, 39, 32, 33.63f32),
        at(24, 17, 6, 32, 33.96f32),
        at(24, 18, 33, 32, 34.45f32),
        at(24, 20, 9, 32, 34.99f32),
        at(24, 20, 30, 32, 35.15f32),
        at(24, 20, 48, 32, 35.20f32),
        at(24, 22, 23, 32, 35.57f32),
        at(24, 23, 25, 32, 35.76f32),
        at(25, 1, 22, 32, 36.67f32),
        at(25, 3, 13, 32, 36.87f32),
        at(25, 4, 49, 32, 37.56f32),
        at(25, 5, 10, 32, 37.69f32),
        at(25, 6, 45, 32, 38.36f32),
        at(25, 7, 59, 32, 38.96f32),
        at(25, 9, 48, 32, 39.66f32),
    ]
}

#[test]
fn mod_archive() {
    let (archived, _) = archive_scenario();
    assert_eq!(archived, expected_archived());
}

#[test]
fn server_archive() {
    let (archived, retained) = archive_scenario();
    assert_eq!(archived, expected_archived());
    assert_eq!(retained.len(), 5);
}

#[test]
fn archive_partition_counts_and_order() {
    let (archived, retained) = archive_scenario();
    let all = parse_log(&ARCHIVE_CSV.as_bytes().to_vec()).unwrap();
    assert_eq!(archived.len() + retained.len(), all.len());
    assert_eq!(&all[..15], &archived[..]);
    assert_eq!(&all[15..], &retained[..]);
}

#[test]
fn span_bounds_are_inclusive() {
    let t = Timestamp { secs: 100, nanos: 0, offset: 0 };
    assert!(TimeSpan::new_before(t).contains(&t));
    assert!(TimeSpan::new_after(t).contains(&t));
    assert!(!TimeSpan::new_after(Timestamp { secs: 101, nanos: 0, offset: 0 }).contains(&t));
    assert!(TimeSpan::all().contains(&t));
    // Offsets do not change the instant.
    let east = Timestamp { secs: 100, nanos: 0, offset: 3600 };
    assert!(TimeSpan::new(Some(east), Some(east)).contains(&t));
}

fn now() -> Timestamp {
    Timestamp { secs: 1_769_236_532, nanos: 987, offset: 8 * 3600 }
}

#[test]
fn record_same_value_twice_writes_one_line() {
    let mut log = RecordLog::open(Vec::new()).unwrap();
    let first = log.record(deg(33.63), now());
    assert!(first.is_some());
    let second = log.record(deg(33.63), now());
    assert!(second.is_none());
    assert_eq!(log.read_all().unwrap().len(), 1);
    assert_eq!(
        String::from_utf8(log.text_bytes().clone()).unwrap(),
        "2026-01-24T14:35:32+08:00,33.63\n"
    );
}

#[test]
fn record_at_the_epsilon_boundary() {
    let mut log = RecordLog::open(Vec::new()).unwrap();
    assert!(log.record(deg(33.63), now()).is_some());
    assert!(log.record(deg(33.64), now()).is_some());
    assert_eq!(log.read_all().unwrap().len(), 2);
    assert!(log.record(Degree { micros: 33_645_000 }, now()).is_none());
    assert!(log.record(Degree { micros: 33_630_000 }, now()).is_some());
    assert_eq!(log.read_all().unwrap().len(), 3);
}

#[test]
fn record_batch_round_trip() {
    let samples = vec![
        Sample { time: now(), degree: deg(1.5) },
        Sample { time: Timestamp { secs: 5, nanos: 120_000_000, offset: -3600 }, degree: Degree { micros: -250_000 } },
        Sample { time: now(), degree: Degree { micros: 0 } },
    ];
    let mut log = RecordLog::open(Vec::new()).unwrap();
    let delta = log.record_batch(&samples);
    assert_eq!(&delta, log.text_bytes());
    assert_eq!(log.read_all().unwrap(), samples);
    assert_eq!(log.last_degree(), Some(Degree { micros: 0 }));
    let empty: Vec<Sample> = Vec::new();
    assert!(log.record_batch(&empty).is_empty());
    assert_eq!(log.last_degree(), Some(Degree { micros: 0 }));
}

#[test]
fn open_recovers_last_value() {
    let text = b"2026-01-24T14:35:32+08:00,33.43\n\n2026-01-25T00:00:00+08:00,10.00\n\n".to_vec();
    let log = RecordLog::open(text).unwrap();
    assert_eq!(log.last_degree(), Some(Degree { micros: 10_000_000 }));
    let empty = RecordLog::open(Vec::new()).unwrap();
    assert_eq!(empty.last_degree(), None);
}

#[test]
fn open_rejects_malformed_last_line() {
    let text = b"2026-01-24T14:35:32+08:00,33.43\nnot a sample\n".to_vec();
    assert_eq!(RecordLog::open(text).err(), Some(Error::InvalidRecordsFormat));
}

#[test]
fn read_all_rejects_malformed_middle_line() {
    let text = b"garbage\n2026-01-24T14:35:32+08:00,33.43\n".to_vec();
    let log = RecordLog::open(text).unwrap();
    assert_eq!(log.read_all().err(), Some(Error::InvalidRecordsFormat));
}

#[test]
fn record_completes_an_unterminated_line() {
    let text = b"2026-01-24T14:35:32+08:00,33.43".to_vec();
    let mut log = RecordLog::open(text).unwrap();
    let delta = log.record(deg(20.0), now()).unwrap();
    assert_eq!(delta[0], b'\n');
    assert_eq!(log.read_all().unwrap().len(), 2);
}

#[test]
fn degree_text() {
    let text = |d: i64| {
        let mut out = Vec::new();
        write_degree(Degree { micros: d }, &mut out);
        String::from_utf8(out).unwrap()
    };
    assert_eq!(text(33_630_000), "33.63");
    assert_eq!(text(10_000_000), "10");
    assert_eq!(text(-500_000), "-0.5");
    assert_eq!(text(1), "0.000001");
    assert_eq!(text(0), "0");
}

#[test]
fn degree_parse() {
    let p = |s: &str| parse_degree(&s.as_bytes().to_vec()).map(|d| d.micros);
    assert_eq!(p("33.43"), Some(33_430_000));
    assert_eq!(p("10"), Some(10_000_000));
    assert_eq!(p("-0.25"), Some(-250_000));
    assert_eq!(p("1.2345678"), None);
    assert_eq!(p("1."), None);
    assert_eq!(p(".5"), None);
    assert_eq!(p("1e3"), None);
    assert_eq!(p(""), None);
    assert_eq!(p("1234567890123"), None);
    assert_eq!(p("999999999999.999999"), Some(999_999_999_999_999_999));
}

#[test]
fn timestamp_text_and_parse() {
    let t = Timestamp { secs: 1_769_240_372, nanos: 132_936_000, offset: 8 * 3600 };
    let text = timestamp_text(t);
    assert_eq!(String::from_utf8(text.clone()).unwrap(), "2026-01-24T15:39:32.132936+08:00");
    assert_eq!(parse_timestamp(&text), Some(t));
    assert_eq!(parse_timestamp(b"yesterday"), None);
    // The first day of year 0 is outside the range the log carries.
    assert_eq!(parse_timestamp(b"0000-01-01T00:00:00+00:00"), None);
    let utc = parse_timestamp(b"2026-01-24T07:39:32.132936Z").unwrap();
    assert_eq!((utc.secs, utc.nanos, utc.offset), (t.secs, t.nanos, 0));
}

#[test]
fn format_samples_writes_lines() {
    let s = Sample { time: Timestamp { secs: 0, nanos: 0, offset: 0 }, degree: Degree { micros: 1_000_000 } };
    let text = format_samples(&vec![s, s]);
    assert_eq!(String::from_utf8(text).unwrap(), "1970-01-01T00:00:00+00:00,1\n1970-01-01T00:00:00+00:00,1\n");
}

#[test]
fn records_sort_span_and_csv() {
    let a = Sample { time: Timestamp { secs: 300, nanos: 0, offset: 0 }, degree: Degree { micros: 3 } };
    let b = Sample { time: Timestamp { secs: 100, nanos: 5, offset: 0 }, degree: Degree { micros: 1 } };
    let c = Sample { time: Timestamp { secs: 100, nanos: 0, offset: 0 }, degree: Degree { micros: 2 } };
    let mut recs = Records(vec![a, b, c]);
    assert_eq!(recs.time_span(), Some((c.time, a.time)));
    recs.sort();
    assert_eq!(recs.0, vec![c, b, a]);
    let text = recs.to_csv();
    assert_eq!(Records::from_csv(&text).unwrap(), recs);
    assert_eq!(Records::from_csv(&b"x\n".to_vec()).err(), Some(Error::InvalidRecordsFormat));
}

#[test]
fn timestamp_text_round_trips_at_range_ends() {
    for secs in [MIN_SECS, MAX_SECS, 0, -1] {
        for offset in [-86_340, -3600, 0, 19_800, 86_340] {
            for nanos in [0, 1, 1_000, 1_000_000, 999_999_999] {
                let t = Timestamp { secs, nanos, offset };
                let text = timestamp_text(t);
                assert!(!text.contains(&b',') && !text.contains(&b'\n'));
                assert_eq!(parse_timestamp(&text), Some(t), "{}", String::from_utf8_lossy(&text));
            }
        }
    }
}

#[test]
fn lines_may_end_with_carriage_return() {
    let text = b"2026-01-24T14:35:32+08:00,33.43\r\n2026-01-25T00:00:00+08:00,10\r\n".to_vec();
    let recs = Records::from_csv(&text).unwrap();
    assert_eq!(recs.0.len(), 2);
    assert_eq!(recs.0[1].degree, Degree { micros: 10_000_000 });
    let log = RecordLog::open(text).unwrap();
    assert_eq!(log.last_degree(), Some(Degree { micros: 10_000_000 }));
}

use service_intervals::db::{count_digits, service_due, Component, ComponentEntry, DB};
use service_intervals::duration_text::{clamped_seconds, decode_duration, encode_duration, hours};
use service_intervals::errors::{
    ActivityFault, Column, EntryFault, Error, RegistryFault, RowError, RowFault,
};
use service_intervals::garmin::activities::{
    activity_from_fields, find_column, parse_activity_log, parse_activity_table, text_eq, total_after_in, Activities,
    Activity,
};
use service_intervals::garmin::activity_csv::Record;
use service_intervals::instant::Instant;

const NEW_YEAR_2024: i64 = 1_704_067_200;
const HOUR: u64 = 3600;

fn at(secs: i64) -> Instant {
    Instant { secs, nanos: 0 }
}

fn entry(name: &str, interval: &str, serviced: &[&str]) -> ComponentEntry {
    ComponentEntry {
        name: name.to_string(),
        interval: interval.to_string(),
        serviced: serviced.iter().map(|s| s.to_string()).collect(),
    }
}

fn brake_fluid_db() -> DB {
    DB::from_entries(&vec![entry("Brake Fluid", "200h", &["2024-01-01T00:00:00Z"])]).unwrap()
}

fn log_of(csv: &str) -> Activities {
    Activities::from_csv(csv.as_bytes()).unwrap()
}

#[test]
fn brake_fluid_due_after_service() {
    let db = brake_fluid_db();
    let acts = log_of(
        "Date,Time\n2023-12-31 23:59:59,05:00:00\n2024-06-01 00:00:00,210:00:00\n",
    );
    let results = db.duration_since_last_serviced(&acts);
    assert_eq!(results.len(), 1);
    let (component, accrued) = results[0];
    assert_eq!(component.name(), "Brake Fluid");
    assert_eq!(accrued, 210 * HOUR);
    assert_eq!(hours(accrued), 210);
    assert_eq!(component.interval(), 200 * HOUR);
    assert!(service_due(accrued, component.interval()));
}

#[test]
fn activity_at_service_instant_excluded() {
    let db = brake_fluid_db();
    let acts = log_of("Date,Time\n2024-01-01 00:00:00,50:00:00\n");
    let results = db.duration_since_last_serviced(&acts);
    assert_eq!(results[0].1, 0);
    assert!(!service_due(results[0].1, results[0].0.interval()));
}

#[test]
fn activity_one_second_after_service_included() {
    let db = brake_fluid_db();
    let acts = log_of("Date,Time\n2024-01-01 00:00:01,50:00:00\n");
    assert_eq!(db.duration_since_last_serviced(&acts)[0].1, 50 * HOUR);
}

#[test]
fn malformed_row_skipped_and_reported() {
    let csv = "Date,Time,Distance\n\
               2024-01-01 10:00:00,01:00:00,10\n\
               2024-01-02 10:00:00,02:00:00,20\n\
               2024/01/03 10:00:00,03:00:00,30\n\
               2024-01-04 10:00:00,04:00:00,40\n\
               2024-01-05 10:00:00,05:00:00,50\n";
    let log = parse_activity_log(csv.as_bytes()).unwrap();
    assert_eq!(log.activities.iter().len(), 4);
    assert_eq!(log.row_errors, vec![RowError { row: 2, fault: RowFault::BadDate }]);
    assert_eq!(log.activities.total_duration(), 12 * HOUR);
}

#[test]
fn fail_fast_reports_first_malformed_row() {
    let csv = "Date,Time\n2024-01-01 10:00:00,1:00\n2024-01-02 10:00:00,xx\n";
    assert_eq!(
        Activities::from_csv(csv.as_bytes()).unwrap_err(),
        Error::ActivityFormatError(ActivityFault::Row(RowError {
            row: 0,
            fault: RowFault::BadDuration
        }))
    );
}

#[test]
fn columns_matched_by_name() {
    let acts = log_of("Activity Type,Time,Title,Date\nMTB,01:30:00,Ride,2024-02-01 08:00:00\n");
    assert_eq!(
        acts.iter(),
        &[Activity { date: at(NEW_YEAR_2024 + 31 * 86400 + 8 * 3600), duration: 5400 }]
    );
}

#[test]
fn missing_columns_reject_whole_log() {
    assert_eq!(
        parse_activity_log(b"Time\n01:00:00\n").unwrap_err(),
        Error::ActivityFormatError(ActivityFault::MissingColumn(Column::Date))
    );
    assert_eq!(
        parse_activity_log(b"Date\n2024-01-01 00:00:00\n").unwrap_err(),
        Error::ActivityFormatError(ActivityFault::MissingColumn(Column::Time))
    );
    assert_eq!(
        parse_activity_log(b"").unwrap_err(),
        Error::ActivityFormatError(ActivityFault::MissingColumn(Column::Date))
    );
}

#[test]
fn header_only_log_is_empty() {
    let log = parse_activity_log(b"Date,Time\n").unwrap();
    assert_eq!(log.activities.iter().len(), 0);
    assert!(log.row_errors.is_empty());
    assert_eq!(log.activities.total_duration(), 0);
}

#[test]
fn unreadable_and_short_rows() {
    let table = vec![
        Some(vec!["Date".to_string(), "Time".to_string()]),
        None,
        Some(vec!["2024-01-01 00:00:00".to_string()]),
        Some(vec!["2024-01-01 00:00:00".to_string(), "00:00:07".to_string()]),
    ];
    let log = parse_activity_table(&table).unwrap();
    assert_eq!(
        log.row_errors,
        vec![
            RowError { row: 0, fault: RowFault::Unreadable },
            RowError { row: 1, fault: RowFault::MissingField },
        ]
    );
    assert_eq!(log.activities.iter(), &[Activity { date: at(NEW_YEAR_2024), duration: 7 }]);
    assert_eq!(
        parse_activity_table(&vec![None]).unwrap_err(),
        Error::ActivityFormatError(ActivityFault::UnreadableHeader)
    );
}

#[test]
fn unequal_row_is_unreadable() {
    let log = parse_activity_log(b"Date,Time\n2024-01-01 00:00:00,00:00:07,extra\n").unwrap();
    assert_eq!(log.row_errors, vec![RowError { row: 0, fault: RowFault::Unreadable }]);
}

#[test]
fn duration_decoding() {
    assert_eq!(decode_duration("01:02:03"), Some(3723));
    assert_eq!(decode_duration("120:00:00"), Some(120 * HOUR));
    assert_eq!(decode_duration("+1:00:00"), Some(HOUR));
    assert_eq!(decode_duration("0:0:0"), Some(0));
    assert_eq!(decode_duration("1:2"), None);
    assert_eq!(decode_duration("1:2:3:4"), None);
    assert_eq!(decode_duration("a:00:00"), None);
    assert_eq!(decode_duration("-1:00:00"), None);
    assert_eq!(decode_duration("1::00"), None);
    assert_eq!(decode_duration(""), None);
    assert_eq!(decode_duration("18446744073709551616:00:00"), None);
}

#[test]
fn duration_decoding_saturates() {
    assert_eq!(decode_duration("18446744073709551615:00:00"), Some(u64::MAX));
    assert_eq!(decode_duration("0:0:18446744073709551615"), Some(u64::MAX));
    assert_eq!(clamped_seconds(u64::MAX / 3600, 59, 59), u64::MAX);
    assert_eq!(clamped_seconds(2, 3, 4), 7384);
}

#[test]
fn duration_canonical_text() {
    assert_eq!(encode_duration(3723), "01:02:03");
    assert_eq!(encode_duration(120 * HOUR), "120:00:00");
    assert_eq!(encode_duration(0), "00:00:00");
    assert_eq!(encode_duration(u64::MAX), "5124095576030431:00:15");
}

#[test]
fn duration_round_trip() {
    for s in ["01:02:03", "120:00:00", "+7:70:70", "0:0:18446744073709551615", "25:59:59"] {
        let d = decode_duration(s).unwrap();
        assert_eq!(decode_duration(&encode_duration(d)), Some(d));
    }
}

#[test]
fn hours_round_down() {
    assert_eq!(hours(7200), 2);
    assert_eq!(hours(7199), 1);
    assert_eq!(hours(0), 0);
}

#[test]
fn service_due_is_strict() {
    assert!(!service_due(200 * HOUR, 200 * HOUR));
    assert!(service_due(200 * HOUR + 1, 200 * HOUR));
    assert!(!service_due(0, 0));
}

#[test]
fn total_is_sum_in_any_order() {
    let a = Activity { date: at(10), duration: 100 };
    let b = Activity { date: at(20), duration: 250 };
    let c = Activity { date: at(5), duration: 7 };
    let one = Activities { activities: vec![a, b, c] };
    let two = Activities { activities: vec![c, a, b] };
    assert_eq!(one.total_duration(), 357);
    assert_eq!(two.total_duration(), 357);
    assert_eq!(one.total_duration_since(at(10)), 250);
    assert_eq!(one.total_duration_since(at(4)), 357);
}

#[test]
fn total_saturates() {
    let big = Activity { date: at(10), duration: u64::MAX - 1 };
    let acts = Activities { activities: vec![big, big] };
    assert_eq!(acts.total_duration(), u64::MAX);
    assert_eq!(acts.total_duration_since(at(0)), u64::MAX);
    assert_eq!(total_after_in(&[big, big, big], at(0)), u64::MAX);
}

#[test]
fn never_serviced_counts_everything() {
    let db = DB::from_entries(&vec![entry("Fork", "50h", &[])]).unwrap();
    let acts = log_of("Date,Time\n2020-05-01 10:00:00,02:00:00\n2024-05-01 10:00:00,03:00:00\n");
    assert_eq!(db.components()[0].last_serviced(), None);
    assert_eq!(db.duration_since_last_serviced(&acts)[0].1, acts.total_duration());
    assert_eq!(acts.total_duration(), 5 * HOUR);
}

#[test]
fn last_serviced_is_latest_and_duplicates_collapse() {
    let e = entry(
        "Shock",
        "30d",
        &["2024-01-01T00:00:00Z", "2024-03-01T00:00:00Z", "2023-01-01T00:00:00Z", "2024-03-01T00:00:00Z"],
    );
    let c = Component::from_entry(&e).unwrap();
    assert_eq!(c.last_serviced(), Some(at(NEW_YEAR_2024 + 60 * 86400)));
    assert_eq!(c.interval(), 30 * 86400);
    assert_eq!(c.name(), "Shock");
}

#[test]
fn service_dates_normalised_to_utc() {
    let c = Component::from_entry(&entry("Chain", "500h", &["2024-01-01T02:00:00+02:00"])).unwrap();
    assert_eq!(c.last_serviced(), Some(at(NEW_YEAR_2024)));
    let frac = Component::from_entry(&entry("Chain", "1h", &["2024-01-01T00:00:00.5Z"])).unwrap();
    assert_eq!(frac.last_serviced(), Some(Instant { secs: NEW_YEAR_2024, nanos: 500_000_000 }));
}

#[test]
fn registry_errors() {
    assert_eq!(
        Component::from_entry(&entry("X", "soon", &[])).unwrap_err(),
        EntryFault::Interval
    );
    assert_eq!(
        Component::from_entry(&entry("X", "1h", &["2024-01-01T00:00:00Z", "yesterday"])).unwrap_err(),
        EntryFault::ServiceDate(1)
    );
    let entries = vec![
        entry("A", "1h", &[]),
        entry("B", "1h", &["nope"]),
        entry("C", "bad", &[]),
    ];
    assert_eq!(
        DB::from_entries(&entries).unwrap_err(),
        Error::DBFormatError(RegistryFault::ServiceDate { component: 1, entry: 0 })
    );
    assert_eq!(
        DB::from_entries(&vec![entry("A", "1h", &[]), entry("C", "bad", &[])]).unwrap_err(),
        Error::DBFormatError(RegistryFault::Interval { component: 1 })
    );
}

#[test]
fn registry_keeps_document_order() {
    let db = DB::from_entries(&vec![
        entry("Fork", "50h", &[]),
        entry("Brake Fluid", "200h", &["2024-01-01T00:00:00Z"]),
    ])
    .unwrap();
    let names: Vec<&str> = db.components().iter().map(|c| c.name()).collect();
    assert_eq!(names, vec!["Fork", "Brake Fluid"]);
    let acts = log_of("Date,Time\n2023-06-01 00:00:00,10:00:00\n2024-06-01 00:00:00,01:00:00\n");
    let out: Vec<u64> = db.duration_since_last_serviced(&acts).iter().map(|p| p.1).collect();
    assert_eq!(out, vec![11 * HOUR, HOUR]);
}

#[test]
fn record_from_time_text() {
    assert_eq!(Record::from_time_text("00:01:05"), Some(Record { time: 65 }));
    assert_eq!(Record::from_time_text("00:01"), None);
}

#[test]
fn instant_ordering() {
    assert!(at(2).is_after(&at(1)));
    assert!(!at(1).is_after(&at(1)));
    assert!(Instant { secs: 1, nanos: 1 }.is_after(&at(1)));
    assert_eq!(Instant::unix_epoch(), at(0));
}

#[test]
fn header_lookup() {
    let h = vec!["Time".to_string(), "Date".to_string(), "Date".to_string()];
    assert_eq!(find_column(&h, "Date"), Some(1));
    assert_eq!(find_column(&h, "Distance"), None);
    assert!(text_eq("Date", "Date"));
    assert!(!text_eq("Date", "date"));
}

#[test]
fn activity_from_read_fields() {
    assert_eq!(
        activity_from_fields(Some((5, 0)), "00:00:09"),
        Ok(Activity { date: at(5), duration: 9 })
    );
    assert_eq!(activity_from_fields(None, "00:00:09"), Err(RowFault::BadDate));
    assert_eq!(activity_from_fields(Some((5, 0)), "9"), Err(RowFault::BadDuration));
}

#[test]
fn component_from_parts() {
    let c = Component::from_parts(
        "Pads".to_string(),
        Some((3600, 5)),
        &vec![Some((7, 0)), Some((3, 0)), Some((7, 0))],
    )
    .unwrap();
    assert_eq!(c.interval(), 3600);
    assert_eq!(c.last_serviced(), Some(at(7)));
    assert_eq!(
        Component::from_parts("Pads".to_string(), Some((1, 0)), &vec![Some((7, 0)), None, None])
            .unwrap_err(),
        EntryFault::ServiceDate(1)
    );
    assert_eq!(
        Component::from_parts("Pads".to_string(), None, &vec![None]).unwrap_err(),
        EntryFault::Interval
    );
    let acts = [Activity { date: at(7), duration: 4 }, Activity { date: at(8), duration: 6 }];
    assert_eq!(c.duration_since_last_serviced(&acts), 6);
}

#[test]
fn interval_texts_near_overflow_rejected() {
    for text in ["18446744073709551615s 1000000000ns", "18446744073709551615s 500ms 500ms", "100000000000h"] {
        assert_eq!(
            Component::from_entry(&entry("X", text, &[])).unwrap_err(),
            EntryFault::Interval
        );
    }
    let c = Component::from_entry(&entry("X", "99999999999h", &[])).unwrap();
    assert_eq!(c.interval(), 99_999_999_999 * HOUR);
    let multi = Component::from_entry(&entry("X", "1year 6months 2weeks", &[])).unwrap();
    assert_eq!(multi.interval(), 31_557_600 + 6 * 2_630_016 + 2 * 7 * 86400);
}

#[test]
fn digits_counted() {
    assert_eq!(count_digits("1year 6months"), 2);
    assert_eq!(count_digits("18446744073709551615s"), 20);
    assert_eq!(count_digits("µs"), 0);
}

#[test]
fn single_malformed_row_keeps_others_in_order() {
    let csv = "Date,Time\n\
               2024-01-01 10:00:00,00:00:01\n\
               2024-01-02 10:00:00,00:00:02\n\
               2024-01-03 10:00:00,00:00:03\n\
               2024-01-04 10:00:00,00:00:04\n\
               2024/01/01 00:00:00,00:00:05\n";
    let log = parse_activity_log(csv.as_bytes()).unwrap();
    let durations: Vec<u64> = log.activities.iter().iter().map(|a| a.duration).collect();
    assert_eq!(durations, vec![1, 2, 3, 4]);
    assert_eq!(log.row_errors, vec![RowError { row: 4, fault: RowFault::BadDate }]);
}

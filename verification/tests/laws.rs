use micd::date::{Date, Timestamp};
use micd::proto::Datum;
use micd::store::Store;

fn day(year: u16, month: u8, d: u8) -> Date {
    Date { year, month, day: d }
}

fn at(date: Date, hour: u8, minute: u8, second: u8) -> Timestamp {
    Timestamp { date, hour, minute, second }
}

fn reading(mac: [u8; 6], temp: u16, ppm: u16, hum: u16) -> Datum {
    Datum { mac, ppm, humidity: hum, temp }
}

const MAC: [u8; 6] = [0x20, 0xF8, 0x5E, 0xBE, 0x29, 0xD8];

#[test]
fn test_event_replace_semantics() {
    let mut db = Store::new();
    let ts = at(day(2020, 4, 5), 13, 2, 19);
    db.add_datum(reading(MAC, 111, 400, 500), ts);
    db.add_datum(reading(MAC, 222, 600, 700), ts);
    let rows = db.query_range(&MAC, day(2020, 4, 5), day(2020, 4, 6));
    // exactly one row for the (sensor, timestamp) key, with the
    // second insert's values
    assert_eq!(rows.len(), 1);
    assert_eq!(rows[0].temp, 222);
    assert_eq!(rows[0].ppm, 600);
    assert_eq!(rows[0].hum, 700);
}

#[test]
fn test_purge_monotone_and_idempotent() {
    let mut db = Store::new();
    db.add_datum(reading(MAC, 1, 1, 1), at(day(2020, 4, 5), 8, 0, 0));
    db.add_datum(reading(MAC, 2, 2, 2), at(day(2020, 4, 6), 8, 0, 0));
    db.add_datum(reading(MAC, 3, 3, 3), at(day(2020, 4, 7), 8, 0, 0));
    let removed = db.purge_events_before(day(2020, 4, 6));
    assert_eq!(removed, 1);
    let rest = db.query_range(&MAC, day(2020, 4, 1), day(2020, 5, 1));
    assert_eq!(rest.len(), 2);
    for row in rest.iter() {
        assert!(day(2020, 4, 6).key_u64() <= row.ts.date.key_u64());
    }
    // purging again at the same cutoff changes nothing
    let removed_again = db.purge_events_before(day(2020, 4, 6));
    assert_eq!(removed_again, 0);
    assert_eq!(db.query_range(&MAC, day(2020, 4, 1), day(2020, 5, 1)).len(), 2);
}

#[test]
fn test_rollup_aggregates_exact() {
    let mut db = Store::new();
    db.add_datum(reading(MAC, 10, 100, 31), at(day(2020, 4, 5), 8, 0, 0));
    db.add_datum(reading(MAC, 15, 300, 30), at(day(2020, 4, 5), 9, 0, 0));
    let boundary = db.extract_report(&MAC, day(2020, 4, 6)).unwrap();
    assert_eq!(boundary, day(2020, 4, 6));
    let row = db.get_rollup(&MAC, day(2020, 4, 5)).expect("rollup row missing");
    assert_eq!(row.temp_min, 10);
    assert_eq!(row.temp_max, 15);
    // integer-truncated mean: (10 + 15) / 2 == 12, remainder dropped
    assert_eq!(row.temp_avg, 12);
    assert_eq!(row.ppm_min, 100);
    assert_eq!(row.ppm_max, 300);
    assert_eq!(row.ppm_avg, 200);
    assert_eq!(row.hum_min, 30);
    assert_eq!(row.hum_max, 31);
    assert_eq!(row.hum_avg, 30);
}

#[test]
fn test_rollup_idempotent_rerun() {
    let mut db = Store::new();
    db.add_datum(reading(MAC, 10, 100, 30), at(day(2020, 4, 5), 8, 0, 0));
    db.add_datum(reading(MAC, 20, 200, 40), at(day(2020, 4, 6), 8, 0, 0));
    let b1 = db.extract_report(&MAC, day(2020, 4, 7)).unwrap();
    assert_eq!(b1, day(2020, 4, 7));
    let first_05 = db.get_rollup(&MAC, day(2020, 4, 5)).unwrap();
    let first_06 = db.get_rollup(&MAC, day(2020, 4, 6)).unwrap();
    // run again with no new events: same boundary, no change
    let b2 = db.extract_report(&MAC, day(2020, 4, 7)).unwrap();
    assert_eq!(b2, day(2020, 4, 7));
    let second_05 = db.get_rollup(&MAC, day(2020, 4, 5)).unwrap();
    let second_06 = db.get_rollup(&MAC, day(2020, 4, 6)).unwrap();
    assert_eq!(first_05, second_05);
    assert_eq!(first_06, second_06);
    assert_eq!(db.latest_rollup_day(&MAC), Some(day(2020, 4, 6)));
}

#[test]
fn test_rollup_halts_on_empty_day() {
    let mut db = Store::new();
    db.add_datum(reading(MAC, 10, 100, 30), at(day(2020, 4, 5), 8, 0, 0));
    db.add_datum(reading(MAC, 20, 200, 40), at(day(2020, 4, 7), 8, 0, 0));
    // 2020-04-06 has no data: the engine stops there and reports the
    // partial boundary
    let r = db.extract_report(&MAC, day(2020, 4, 8));
    assert_eq!(r, Err(day(2020, 4, 6)));
    assert!(db.get_rollup(&MAC, day(2020, 4, 5)).is_some());
    assert!(db.get_rollup(&MAC, day(2020, 4, 6)).is_none());
    assert!(db.get_rollup(&MAC, day(2020, 4, 7)).is_none());
}

#[test]
fn test_report_without_data() {
    let mut db = Store::new();
    let r = db.extract_report(&MAC, day(2020, 4, 8));
    assert_eq!(r, Err(day(1970, 1, 1)));
    assert!(db.list_sensors().is_empty());
}

#[test]
fn test_report_zero_days_to_process() {
    let mut db = Store::new();
    db.add_datum(reading(MAC, 10, 100, 30), at(day(2020, 4, 5), 8, 0, 0));
    // "today" is the earliest event's own day: nothing complete yet
    let r = db.extract_report(&MAC, day(2020, 4, 5)).unwrap();
    assert_eq!(r, day(2020, 4, 5));
    assert!(db.get_rollup(&MAC, day(2020, 4, 5)).is_none());
}

#[test]
fn test_retention_scenario() {
    let mut db = Store::new();
    for d in 5..9u8 {
        db.add_datum(reading(MAC, 100, 400, 300), at(day(2020, 4, d), 13, 2, 19));
        db.add_datum(reading(MAC, 100, 400, 300), at(day(2020, 4, d), 14, 2, 19));
    }
    // rollup boundary becomes 2020-04-07; a 1-day retention window
    // purges events before 2020-04-06
    db.run_maintenance(day(2020, 4, 7), 1);
    assert_eq!(db.latest_rollup_day(&MAC), Some(day(2020, 4, 6)));
    assert_eq!(db.query_range(&MAC, day(2020, 4, 5), day(2020, 4, 6)).len(), 0);
    assert_eq!(db.query_range(&MAC, day(2020, 4, 6), day(2020, 4, 9)).len(), 6);
}

#[test]
fn test_maintenance_isolates_sensors() {
    let other: [u8; 6] = [1, 2, 3, 4, 5, 6];
    let mut db = Store::new();
    db.add_datum(reading(MAC, 10, 100, 30), at(day(2020, 4, 5), 8, 0, 0));
    // `other` has a gap on 2020-04-06 and halts; MAC still rolls up
    db.add_datum(reading(other, 20, 200, 40), at(day(2020, 4, 5), 8, 0, 0));
    db.add_datum(reading(other, 20, 200, 40), at(day(2020, 4, 7), 8, 0, 0));
    db.add_datum(reading(MAC, 10, 100, 30), at(day(2020, 4, 6), 8, 0, 0));
    db.add_datum(reading(MAC, 10, 100, 30), at(day(2020, 4, 7), 8, 0, 0));
    db.run_maintenance(day(2020, 4, 8), 4);
    assert_eq!(db.latest_rollup_day(&MAC), Some(day(2020, 4, 7)));
    assert_eq!(db.latest_rollup_day(&other), Some(day(2020, 4, 5)));
}

#[test]
fn test_query_range_sorted_by_timestamp() {
    let mut db = Store::new();
    db.add_datum(reading(MAC, 3, 3, 3), at(day(2020, 4, 5), 23, 59, 59));
    db.add_datum(reading(MAC, 1, 1, 1), at(day(2020, 4, 5), 0, 0, 1));
    db.add_datum(reading(MAC, 2, 2, 2), at(day(2020, 4, 5), 12, 30, 0));
    let rows = db.query_range(&MAC, day(2020, 4, 5), day(2020, 4, 6));
    assert_eq!(rows.len(), 3);
    assert_eq!(rows[0].temp, 1);
    assert_eq!(rows[1].temp, 2);
    assert_eq!(rows[2].temp, 3);
}

#[test]
fn test_day_stepping() {
    assert_eq!(day(2020, 2, 28).next_day(), day(2020, 2, 29));
    assert_eq!(day(2021, 2, 28).next_day(), day(2021, 3, 1));
    assert_eq!(day(2020, 12, 31).next_day(), day(2021, 1, 1));
    assert_eq!(day(2021, 3, 1).prev_day(), day(2021, 2, 28));
    assert_eq!(day(2020, 3, 1).sub_days(2), Some(day(2020, 2, 28)));
    assert_eq!(day(2020, 1, 2).sub_days(2), Some(day(2019, 12, 31)));
    assert_eq!(day(1, 1, 1).sub_days(1), None);
}

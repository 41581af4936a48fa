use micd::date::{Date, Timestamp};
use micd::proto::{mac_string, Datum};
use micd::store::{EventRow, Store};

/// Parse `YYYY-MM-DD HH:MM:SS+ZZZZ`; the zone suffix is constant in
/// these fixtures and the store works in local wall-clock time.
fn parse_ts(s: &str) -> Timestamp {
    let num = |from: usize, to: usize| -> u32 { s[from..to].parse::<u32>().unwrap() };
    Timestamp {
        date: Date { year: num(0, 4) as u16, month: num(5, 7) as u8, day: num(8, 10) as u8 },
        hour: num(11, 13) as u8,
        minute: num(14, 16) as u8,
        second: num(17, 19) as u8,
    }
}

fn parse_mac(s: &str) -> [u8; 6] {
    let mut out = [0u8; 6];
    for (i, part) in s.split(':').enumerate() {
        out[i] = u8::from_str_radix(part, 16).unwrap();
    }
    out
}

fn add_sample_data(db: &mut Store, mac: [u8; 6], temp: u16, ppm: u16, hum: u16, ts: &str) {
    let datum = Datum { mac, ppm, humidity: hum, temp };
    db.add_datum(datum, parse_ts(ts));
}

fn get_event_range(db: &Store, src: &str, min: &str, max: &str) -> Vec<EventRow> {
    db.query_range(&parse_mac(src), parse_ts(min).date, parse_ts(max).date)
}

fn purge(db: &mut Store, max: &str) {
    db.purge_events_before(parse_ts(max).date);
}

fn assert_latest_report_date(db: &Store, src: &str, expect: &str) {
    let latest = db.get_latest_report_date(&parse_mac(src)).expect("Unable to get reportdate");
    let expect_d = parse_ts(expect).date;
    println!("{:?} == {:?}", latest, expect_d);
    assert!(latest == expect_d);
}

fn generate_report(db: &mut Store, src: &str, upto: &str) {
    db.extract_report(&parse_mac(src), parse_ts(upto).date).expect("report gen failed.");
}

#[test]
fn test_db_append_cleanup() {
    // Setup a db.
    let mut db = Store::new();
    // Append data
    add_sample_data(&mut db, [0; 6], 123, 415, 123, "2020-04-05 13:02:19+1000");
    add_sample_data(&mut db, [0; 6], 123, 415, 123, "2020-04-05 14:02:19+1000");
    add_sample_data(&mut db, [0; 6], 123, 415, 123, "2020-04-06 13:02:19+1000");
    add_sample_data(&mut db, [0; 6], 123, 415, 123, "2020-04-06 14:02:19+1000");
    add_sample_data(&mut db, [0; 6], 123, 415, 123, "2020-04-07 13:02:19+1000");
    add_sample_data(&mut db, [0; 6], 123, 415, 123, "2020-04-07 14:02:19+1000");
    // Can we select a range?
    let data1 = get_event_range(
        &db,
        "00:00:00:00:00:00",
        "2020-04-06 00:00:00+1000",
        "2020-04-07 00:00:00+1000",
    );
    assert!(data1.len() == 2);
    // purge older than X
    purge(&mut db, "2020-04-06 00:00:00+1000");
    // Any data left?
    let data2 = get_event_range(
        &db,
        "00:00:00:00:00:00",
        "2020-04-06 00:00:00+1000",
        "2021-04-07 00:00:00+1000",
    );
    assert!(data2.len() == 4);
}

#[test]
fn test_db_report_generation() {
    let mut db = Store::new();

    // No report min, no data!
    assert!(Err(()) == db.get_latest_report_date(&parse_mac("00:00:00:00:00:00")));

    // Add data
    add_sample_data(&mut db, [0; 6], 123, 415, 123, "2020-04-05 13:02:19+1000");
    add_sample_data(&mut db, [0; 6], 123, 415, 123, "2020-04-05 14:02:19+1000");
    add_sample_data(&mut db, [0; 6], 123, 415, 123, "2020-04-06 13:02:19+1000");
    add_sample_data(&mut db, [0; 6], 123, 415, 123, "2020-04-06 14:02:19+1000");
    add_sample_data(&mut db, [0; 6], 123, 415, 123, "2020-04-07 13:02:19+1000");
    add_sample_data(&mut db, [0; 6], 123, 415, 123, "2020-04-07 14:02:19+1000");
    add_sample_data(&mut db, [0; 6], 123, 415, 123, "2020-04-08 13:02:19+1000");
    add_sample_data(&mut db, [0; 6], 123, 415, 123, "2020-04-08 14:02:19+1000");

    // List meters, there should only be one.
    let meters: Vec<String> = db.list_sensors().iter().map(|m| mac_string(m)).collect();
    assert!(vec!["00:00:00:00:00:00".to_string()] == meters);

    // Latest report date should be the day before as there is no reports.
    assert_latest_report_date(&db, "00:00:00:00:00:00", "2020-04-04 00:00:00+1000");

    // Generate a report. for 05 (because it's now 06)
    generate_report(&mut db, "00:00:00:00:00:00", "2020-04-06 00:00:00+1000");

    // The latest report date is now 5
    assert_latest_report_date(&db, "00:00:00:00:00:00", "2020-04-05 00:00:00+1000");

    // Show that from 08 it generates the 06 and 07 reports.
    generate_report(&mut db, "00:00:00:00:00:00", "2020-04-08 00:00:00+1000");

    // The latest report date is now 7
    assert_latest_report_date(&db, "00:00:00:00:00:00", "2020-04-07 00:00:00+1000");
}

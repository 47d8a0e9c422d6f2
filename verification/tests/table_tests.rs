use vbus_log_sync::bounded::{convert_bounded_day, Sample};
use vbus_log_sync::error::Error;
use vbus_log_sync::rolling::{
    convert_rolling, copy_packet, copy_texts, evict, merge_packet, merge_record, project,
    seed_state, Packet, Record, DEFAULT_RETENTION,
};
use vbus_log_sync::table::{data_line, header_line, FieldLabel};
use vbus_log_sync::text::{append_bytes, has_at};

fn label(name: &str, unit: &str) -> FieldLabel {
    FieldLabel { name: name.as_bytes().to_vec(), unit: unit.as_bytes().to_vec() }
}

fn sample(timestamp: i64, values: &[&str]) -> Sample {
    Sample { timestamp, values: values.iter().map(|v| v.as_bytes().to_vec()).collect() }
}

fn packet(id: u64, timestamp: i64, live: bool, values: &[&str]) -> Packet {
    Packet { id, timestamp, live, values: values.iter().map(|v| v.as_bytes().to_vec()).collect() }
}

fn lives(state: &Vec<Packet>) -> Vec<(u64, i64, bool)> {
    state.iter().map(|p| (p.id, p.timestamp, p.live)).collect()
}

#[test]
fn header_names_units_in_brackets() {
    let labels = vec![label("Temperatur 1", "\u{b0}C"), label("Status", ""), label("Pumpe", "%")];
    let expected = "Datum\tTemperatur 1 [\u{b0}C]\tStatus\tPumpe [%]\n";
    assert_eq!(header_line(&labels), expected.as_bytes().to_vec());
    assert_eq!(header_line(&Vec::new()), b"Datum\n".to_vec());
}

#[test]
fn data_row_is_tab_separated() {
    let values = vec![b"21.5".to_vec(), b"".to_vec(), b"100".to_vec()];
    assert_eq!(
        data_line(b"01.06.2021 02:00:00", &values),
        b"01.06.2021 02:00:00\t21.5\t\t100\n".to_vec()
    );
    assert_eq!(data_line(b"t", &Vec::new()), b"t\n".to_vec());
}

#[test]
fn text_helpers_match_and_append() {
    assert!(has_at(b"hello", 1, b"ell"));
    assert!(!has_at(b"hello", 3, b"lox"));
    assert!(!has_at(b"hello", 9, b"h"));
    assert!(has_at(b"hello", 5, b""));
    let mut out = b"ab".to_vec();
    append_bytes(&mut out, b"cd");
    assert_eq!(out, b"abcd".to_vec());
}

#[test]
fn bounded_day_writes_rows_within_the_bound() {
    let labels = vec![label("T", "C")];
    let samples = vec![
        sample(1622498399, &["1"]),
        sample(1622498400, &["2"]),
        sample(1622505600, &["3"]),
        sample(1622584799, &["4"]),
        sample(1622584800, &["5"]),
    ];
    let table = convert_bounded_day(&labels, &samples, 1622498400, 1622584799).unwrap().unwrap();
    let expected =
        "Datum\tT [C]\n01.06.2021 00:00:00\t2\n01.06.2021 02:00:00\t3\n01.06.2021 23:59:59\t4\n";
    assert_eq!(table, expected.as_bytes().to_vec());
}

#[test]
fn bounded_day_withholds_a_table_without_rows() {
    let labels = vec![label("T", "C")];
    assert_eq!(convert_bounded_day(&labels, &Vec::new(), 0, 100), Ok(None));
    let outside = vec![sample(200, &["1"]), sample(-1, &["2"])];
    assert_eq!(convert_bounded_day(&labels, &outside, 0, 100), Ok(None));
}

#[test]
fn bounded_day_fails_on_a_time_out_of_reach() {
    let labels = vec![label("T", "C")];
    let samples = vec![sample(0, &["1"]), sample(i64::MAX, &["2"])];
    assert_eq!(convert_bounded_day(&labels, &samples, i64::MIN, i64::MAX), Err(Error::Protocol));
    assert!(matches!(convert_bounded_day(&labels, &samples, 0, 10), Ok(Some(_))));
}

#[test]
fn bound_to_one_capture_gives_that_capture_alone() {
    let labels = vec![label("T", "C")];
    let own = vec![sample(1622505600, &["a"]), sample(1622591999, &["b"])];
    let both = vec![
        sample(1622505600, &["a"]),
        sample(1622591999, &["b"]),
        sample(1622592000, &["c"]),
        sample(1622678399, &["d"]),
    ];
    let alone = convert_bounded_day(&labels, &own, i64::MIN, i64::MAX).unwrap();
    let bounded = convert_bounded_day(&labels, &both, 1622505600, 1622591999).unwrap();
    assert_eq!(alone, bounded);
    assert!(alone.is_some());
}

#[test]
fn rolling_window_always_writes() {
    let labels = vec![label("T", "C")];
    let topology = vec![packet(1, 0, true, &["x"])];
    assert_eq!(
        convert_rolling(&labels, &topology, &Vec::new(), DEFAULT_RETENTION),
        Ok(b"Datum\tT [C]\n".to_vec())
    );
}

#[test]
fn rolling_window_shows_retained_packets_until_they_are_old() {
    let labels = vec![label("A", ""), label("B", "")];
    let topology = vec![packet(1, 0, true, &["?"]), packet(2, 0, true, &["?"])];
    let records = vec![
        Record { timestamp: 1000, packets: vec![packet(1, 1000, true, &["a1"])] },
        Record { timestamp: 1600, packets: vec![packet(2, 1600, true, &["b1"])] },
        Record { timestamp: 1900, packets: vec![packet(2, 1900, true, &["b2"])] },
        Record { timestamp: 1901, packets: vec![] },
        Record { timestamp: 2801, packets: vec![] },
    ];
    let table = convert_rolling(&labels, &topology, &records, 900).unwrap();
    let expected = "Datum\tA\tB\n\
        1970-01-01T00:16:40+00:00\ta1\n\
        1970-01-01T00:26:40+00:00\ta1\tb1\n\
        1970-01-01T00:31:40+00:00\ta1\tb2\n\
        1970-01-01T00:31:41+00:00\tb2\n\
        1970-01-01T00:46:41+00:00\n";
    assert_eq!(String::from_utf8(table).unwrap(), expected);
}

#[test]
fn rolling_window_fails_on_a_time_out_of_reach() {
    let records = vec![Record { timestamp: i64::MIN, packets: vec![] }];
    assert_eq!(convert_rolling(&Vec::new(), &Vec::new(), &records, 900), Err(Error::Protocol));
}

#[test]
fn eviction_clears_packets_older_than_the_window() {
    let mut state = vec![
        packet(1, 100, true, &["a"]),
        packet(2, 1000, true, &["b"]),
        packet(3, 99, true, &["c"]),
        packet(4, 50, false, &["d"]),
    ];
    evict(&mut state, 1000, 900);
    assert_eq!(
        lives(&state),
        vec![(1, 100, true), (2, 1000, true), (3, 99, false), (4, 50, false)]
    );
    assert_eq!(project(&state), vec![b"a".to_vec(), b"b".to_vec()]);
    evict(&mut state, i64::MAX, u64::MAX);
    assert_eq!(lives(&state)[0], (1, 100, true));
    evict(&mut state, 2000, 0);
    assert_eq!(project(&state), Vec::<Vec<u8>>::new());
}

#[test]
fn merging_replaces_or_appends() {
    let mut state = seed_state(&vec![packet(1, 5, true, &["a"]), packet(2, 5, true, &["b"])]);
    assert_eq!(lives(&state), vec![(1, 5, false), (2, 5, false)]);
    merge_packet(&mut state, packet(2, 10, true, &["b2", "b3"]));
    merge_packet(&mut state, packet(9, 11, true, &["z"]));
    assert_eq!(lives(&state), vec![(1, 5, false), (2, 10, true), (9, 11, true)]);
    assert_eq!(project(&state), vec![b"b2".to_vec(), b"b3".to_vec(), b"z".to_vec()]);
    merge_record(&mut state, &vec![packet(1, 12, true, &["a2"]), packet(9, 12, true, &[])]);
    assert_eq!(project(&state), vec![b"a2".to_vec(), b"b2".to_vec(), b"b3".to_vec()]);
    let copy = copy_packet(&state[1]);
    assert_eq!((copy.id, copy.timestamp, copy.live), (2, 10, true));
    assert_eq!(copy_texts(&copy.values), vec![b"b2".to_vec(), b"b3".to_vec()]);
}

#[test]
fn bounded_day_merges_each_record_into_a_fresh_copy() {
    let labels = vec![label("A", ""), label("B", "")];
    let topology = vec![packet(1, 0, true, &[""]), packet(2, 0, true, &[""])];
    let records = vec![
        Record { timestamp: 1622498399, packets: vec![packet(1, 1622498399, true, &["early"])] },
        Record { timestamp: 1622505600, packets: vec![packet(1, 1622505600, true, &["a1"])] },
        Record { timestamp: 1622505660, packets: vec![packet(2, 1622505660, true, &["b1"])] },
        Record { timestamp: 1622505720, packets: vec![packet(3, 1622505720, true, &["c1"])] },
    ];
    let samples = vbus_log_sync::bounded::merge_samples(&topology, &records);
    assert_eq!(samples.len(), 4);
    assert_eq!(samples[2].timestamp, 1622505660);
    assert_eq!(samples[2].values, vec![b"".to_vec(), b"b1".to_vec()]);
    let table = vbus_log_sync::bounded::convert_bounded_records(
        &labels,
        &topology,
        &records,
        1622498400,
        1622584799,
    )
    .unwrap()
    .unwrap();
    let expected = "Datum\tA\tB\n\
        01.06.2021 02:00:00\ta1\t\n\
        01.06.2021 02:01:00\t\tb1\n\
        01.06.2021 02:02:00\t\t\tc1\n";
    assert_eq!(String::from_utf8(table).unwrap(), expected);
    assert_eq!(
        vbus_log_sync::bounded::convert_bounded_records(&labels, &topology, &records, 0, 10),
        Ok(None)
    );
    assert_eq!(vbus_log_sync::rolling::copy_packets(&topology).len(), 2);
}

#[test]
fn packet_keys_keep_the_four_parts_apart() {
    assert_eq!(vbus_log_sync::rolling::packet_key(0, 0, 0, 0), 0);
    assert_eq!(vbus_log_sync::rolling::packet_key(1, 0x0010, 0x7E11, 0x0100), 0x0001_0010_7E11_0100);
    assert_eq!(
        vbus_log_sync::rolling::packet_key(255, 0xFFFF, 0xFFFF, 0xFFFF),
        0x00FF_FFFF_FFFF_FFFF
    );
    assert_ne!(
        vbus_log_sync::rolling::packet_key(0, 1, 0, 0),
        vbus_log_sync::rolling::packet_key(0, 0, 1, 0)
    );
}

#[test]
fn packet_without_frames_counts_under_the_bounded_day_only() {
    let bounded = vbus_log_sync::plan::Strategy::BoundedDay;
    let rolling = vbus_log_sync::plan::Strategy::RollingWindow { retention: 900 };
    assert!(vbus_log_sync::rolling::packet_is_live(bounded, 0));
    assert!(vbus_log_sync::rolling::packet_is_live(bounded, 3));
    assert!(!vbus_log_sync::rolling::packet_is_live(rolling, 0));
    assert!(vbus_log_sync::rolling::packet_is_live(rolling, 1));
}

#[test]
fn packet_stays_cleared_through_a_run_of_records() {
    let topology = vec![packet(1, 0, true, &["?"]), packet(2, 0, true, &["?"])];
    let records = vec![
        Record { timestamp: 1000, packets: vec![packet(1, 1000, true, &["a1"])] },
        Record { timestamp: 1500, packets: vec![packet(2, 1500, true, &["b1"])] },
        Record { timestamp: 1901, packets: vec![packet(2, 1901, true, &["b2"])] },
        Record { timestamp: 1400, packets: vec![packet(2, 1400, true, &["b3"])] },
        Record { timestamp: 5000, packets: vec![] },
    ];
    let table = convert_rolling(&Vec::new(), &topology, &records, 900).unwrap();
    let expected = "Datum\n\
        1970-01-01T00:16:40+00:00\ta1\n\
        1970-01-01T00:25:00+00:00\ta1\tb1\n\
        1970-01-01T00:31:41+00:00\tb2\n\
        1970-01-01T00:23:20+00:00\tb3\n\
        1970-01-01T01:23:20+00:00\n";
    assert_eq!(String::from_utf8(table).unwrap(), expected);
}

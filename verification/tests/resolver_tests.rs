use vbus_log_sync::error::Error;
use vbus_log_sync::inventory::{days_of, take_inventory, DirEntry};
use vbus_log_sync::plan::{
    bucket_needs_regeneration, find_modified, mirror_buckets, needs_regeneration,
    plan_bounded_day, plan_regeneration, plan_rolling, plan_tables, Strategy,
};
use vbus_log_sync::resolver::{
    classify_filename, contribution, copy_codes, group_contributions, register_capture,
    resolve_buckets, Bucket, Contribution, FileKind, Stamped,
};

fn entry(name: &str, modified: u128) -> DirEntry {
    DirEntry { name: name.as_bytes().to_vec(), modified }
}

fn shape(buckets: &Vec<Bucket>) -> Vec<(u32, Vec<u32>)> {
    buckets.iter().map(|b| (b.local, b.sources.clone())).collect()
}

#[test]
fn file_names_are_told_apart() {
    assert_eq!(classify_filename(b"20210601.vbus"), FileKind::Capture);
    assert_eq!(classify_filename(b"20210601.csv"), FileKind::Output);
    assert_eq!(classify_filename(b"20210601.txt"), FileKind::Other);
    assert_eq!(classify_filename(b"2021060a.vbus"), FileKind::Other);
    assert_eq!(classify_filename(b"20210601.vbus2"), FileKind::Other);
    assert_eq!(classify_filename(b"20210601.vbu"), FileKind::Other);
    assert_eq!(classify_filename(b"short"), FileKind::Other);
    assert_eq!(classify_filename(b""), FileKind::Other);
    assert_eq!(classify_filename(b"20210601"), FileKind::Other);
}

#[test]
fn capture_contributes_to_two_local_days() {
    assert_eq!(
        contribution(20210601),
        Ok(Contribution { source: 20210601, first_local: 20210601, last_local: 20210602 })
    );
    assert_eq!(contribution(20211301), Err(Error::Parse));
    assert_eq!(contribution(99991231), Err(Error::Parse));
}

#[test]
fn adjacent_captures_share_a_local_day() {
    let buckets = resolve_buckets(&vec![20210601, 20210602]).unwrap();
    assert_eq!(
        shape(&buckets),
        vec![
            (20210601, vec![20210601]),
            (20210602, vec![20210601, 20210602]),
            (20210603, vec![20210602]),
        ]
    );
}

#[test]
fn sources_ascend_whatever_the_order_of_arrival() {
    let buckets = resolve_buckets(&vec![20210602, 20210601]).unwrap();
    assert_eq!(
        shape(&buckets),
        vec![
            (20210602, vec![20210601, 20210602]),
            (20210603, vec![20210602]),
            (20210601, vec![20210601]),
        ]
    );
}

#[test]
fn resolution_fails_on_a_code_that_is_no_date() {
    assert!(matches!(resolve_buckets(&vec![20210601, 20210230]), Err(Error::Parse)));
    assert_eq!(shape(&resolve_buckets(&Vec::new()).unwrap()), Vec::new());
}

#[test]
fn grouping_registers_under_both_days() {
    let list = vec![
        Contribution { source: 5, first_local: 5, last_local: 6 },
        Contribution { source: 4, first_local: 4, last_local: 5 },
        Contribution { source: 7, first_local: 7, last_local: 7 },
    ];
    assert_eq!(
        shape(&group_contributions(&list)),
        vec![(5, vec![4, 5]), (6, vec![5]), (4, vec![4]), (7, vec![7])]
    );
}

#[test]
fn registering_keeps_a_bucket_ascending() {
    let mut buckets = vec![Bucket { local: 1, sources: vec![2, 4, 9] }];
    register_capture(&mut buckets, 1, 4);
    register_capture(&mut buckets, 1, 1);
    register_capture(&mut buckets, 1, 10);
    register_capture(&mut buckets, 1, 5);
    register_capture(&mut buckets, 1, 1);
    register_capture(&mut buckets, 1, 10);
    register_capture(&mut buckets, 2, 3);
    register_capture(&mut buckets, 2, 3);
    assert_eq!(shape(&buckets), vec![(1, vec![1, 2, 4, 5, 9, 10]), (2, vec![3])]);
    assert_eq!(copy_codes(&buckets[0].sources), vec![1, 2, 4, 5, 9, 10]);
}

#[test]
fn table_is_stale_when_missing_or_older_than_a_capture() {
    assert!(needs_regeneration(None, &vec![]));
    assert!(needs_regeneration(None, &vec![1, 2]));
    assert!(needs_regeneration(Some(10), &vec![5, 11]));
    assert!(!needs_regeneration(Some(10), &vec![5, 10]));
    assert!(!needs_regeneration(Some(10), &vec![]));
}

#[test]
fn two_older_captures_cause_no_write() {
    let captures = vec![
        Stamped { day: 20210601, modified: 100 },
        Stamped { day: 20210602, modified: 200 },
    ];
    let outputs = vec![Stamped { day: 20210602, modified: 300 }];
    let bucket = Bucket { local: 20210602, sources: vec![20210601, 20210602] };
    assert!(!bucket_needs_regeneration(&bucket, &captures, &outputs));
    let plan = plan_regeneration(&vec![bucket], &captures, &outputs);
    assert_eq!(plan.len(), 0);
    let again = plan_regeneration(
        &vec![Bucket { local: 20210602, sources: vec![20210601, 20210602] }],
        &captures,
        &outputs,
    );
    assert_eq!(again.len(), 0);
}

#[test]
fn newer_capture_causes_the_table_to_be_made_again() {
    let captures = vec![
        Stamped { day: 20210601, modified: 100 },
        Stamped { day: 20210602, modified: 301 },
    ];
    let outputs = vec![Stamped { day: 20210602, modified: 300 }];
    let bucket = Bucket { local: 20210602, sources: vec![20210601, 20210602] };
    assert!(bucket_needs_regeneration(&bucket, &captures, &outputs));
    assert_eq!(find_modified(&captures, 20210602), Some(301));
    assert_eq!(find_modified(&captures, 20210603), None);
}

#[test]
fn directory_is_sorted_into_captures_and_tables() {
    let entries = vec![
        entry("20210601.vbus", 100),
        entry("notes.txt", 5),
        entry("20210601.csv", 150),
        entry("20210602.vbus", 200),
        entry("x", 1),
    ];
    let inventory = take_inventory(&entries);
    assert_eq!(
        inventory.captures,
        vec![Stamped { day: 20210601, modified: 100 }, Stamped { day: 20210602, modified: 200 }]
    );
    assert_eq!(inventory.outputs, vec![Stamped { day: 20210601, modified: 150 }]);
    assert_eq!(days_of(&inventory.captures), vec![20210601, 20210602]);
}

#[test]
fn day_without_captures_gets_no_table() {
    let entries = vec![entry("20210601.vbus", 100), entry("20210610.csv", 1)];
    let plan = plan_bounded_day(&entries).unwrap();
    assert_eq!(shape(&plan), vec![(20210601, vec![20210601]), (20210602, vec![20210601])]);
    assert!(plan.iter().all(|b| b.local != 20210610 && !b.sources.is_empty()));
    assert_eq!(shape(&plan_bounded_day(&Vec::new()).unwrap()), Vec::new());
}

#[test]
fn bounded_plan_skips_fresh_tables() {
    let entries = vec![
        entry("20210601.vbus", 100),
        entry("20210602.vbus", 200),
        entry("20210601.csv", 150),
        entry("20210602.csv", 150),
        entry("20210603.csv", 250),
    ];
    let plan = plan_bounded_day(&entries).unwrap();
    assert_eq!(shape(&plan), vec![(20210602, vec![20210601, 20210602])]);
}

#[test]
fn bounded_plan_fails_on_a_capture_that_is_no_date() {
    let entries = vec![entry("20219999.vbus", 100)];
    assert!(matches!(plan_bounded_day(&entries), Err(Error::Parse)));
}

#[test]
fn rolling_plan_maps_each_capture_to_its_own_day() {
    assert_eq!(shape(&mirror_buckets(&vec![3, 1])), vec![(3, vec![3]), (1, vec![1])]);
    let entries = vec![
        entry("20210601.vbus", 100),
        entry("20210602.vbus", 200),
        entry("20210603.vbus", 300),
        entry("20210601.csv", 150),
        entry("20210602.csv", 150),
    ];
    let plan = plan_rolling(&entries);
    assert_eq!(shape(&plan), vec![(20210602, vec![20210602]), (20210603, vec![20210603])]);
}

#[test]
fn strategy_selects_the_plan() {
    let entries = vec![entry("20210601.vbus", 100), entry("20210601.csv", 50)];
    let bounded = plan_tables(Strategy::BoundedDay, &entries).unwrap();
    assert_eq!(shape(&bounded), vec![(20210601, vec![20210601]), (20210602, vec![20210601])]);
    let rolling = plan_tables(Strategy::RollingWindow { retention: 900 }, &entries).unwrap();
    assert_eq!(shape(&rolling), vec![(20210601, vec![20210601])]);
    let broken = vec![entry("20210001.vbus", 100)];
    assert!(matches!(plan_tables(Strategy::BoundedDay, &broken), Err(Error::Parse)));
    assert_eq!(
        shape(&plan_tables(Strategy::RollingWindow { retention: 0 }, &broken).unwrap()),
        vec![(20210001, vec![20210001])]
    );
}

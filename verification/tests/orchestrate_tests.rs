use peer_stats::merge;
use peer_stats::orchestrate::build_output_path;
use peer_stats::orchestrate::output_paths;
use peer_stats::orchestrate::pad2;
use peer_stats::orchestrate::prev_day;
use peer_stats::orchestrate::project_of_collector;
use peer_stats::orchestrate::should_process;
use peer_stats::orchestrate::SnapshotDescriptor;
use peer_stats::strutil;

#[test]
fn test_build_output_path() {
    let p = build_output_path("out", "as2rel", "rrc16", 2022, 2, 1, 1643673600);
    assert_eq!(p, "out/as2rel/rrc16/2022/02/as2rel_rrc16_2022-02-01_1643673600.bz2");
}

#[test]
fn test_output_path_round_trips_date() {
    // the date written into the name is the date read back from it
    let p = build_output_path("out", "peer-stats", "rrc16", 2022, 12, 31, 1672444800);
    assert_eq!(merge::get_ymd_from_file(&p), (2022, 12, 31));
}

#[test]
fn test_output_paths_per_data_type() {
    let desc = SnapshotDescriptor {
        collector_id: "rrc16".to_string(),
        url: "http://example.org/rib.20220201.0000.bz2".to_string(),
        year: 2022,
        month: 2,
        day: 1,
        epoch: 1643673600,
    };
    let v = output_paths("out", &desc);
    assert_eq!(v.len(), 3);
    assert!(v[0].contains("/peer-stats/"));
    assert!(v[1].contains("/pfx2as/"));
    assert!(v[2].contains("/as2rel/"));
    assert_eq!(v[2], "out/as2rel/rrc16/2022/02/as2rel_rrc16_2022-02-01_1643673600.bz2");
}

#[test]
fn test_second_run_is_skipped() {
    // after a first run wrote all three outputs, a second run without
    // the force flag schedules nothing
    assert!(!should_process(false, &vec![true, true, true]));
    // the force flag reprocesses
    assert!(should_process(true, &vec![true, true, true]));
    // a missing output is reprocessed
    assert!(should_process(false, &vec![true, false, true]));
    // nothing written yet
    assert!(should_process(false, &vec![false, false, false]));
}

#[test]
fn test_pad2() {
    assert_eq!(pad2(0), "00");
    assert_eq!(pad2(9), "09");
    assert_eq!(pad2(10), "10");
    assert_eq!(pad2(2022), "2022");
}

#[test]
fn test_prev_day() {
    assert_eq!(prev_day(2022, 2, 5), (2022, 2, 4));
    assert_eq!(prev_day(2022, 3, 1), (2022, 2, 28));
    assert_eq!(prev_day(2020, 3, 1), (2020, 2, 29));
    assert_eq!(prev_day(2100, 3, 1), (2100, 2, 28));
    assert_eq!(prev_day(2000, 3, 1), (2000, 2, 29));
    assert_eq!(prev_day(2022, 1, 1), (2021, 12, 31));
    assert_eq!(prev_day(2022, 5, 1), (2022, 4, 30));
}

#[test]
fn test_project_of_collector() {
    assert_eq!(project_of_collector("rrc16"), "riperis");
    assert_eq!(project_of_collector("route-views.sg"), "route-views");
}

#[test]
fn test_number_text() {
    assert_eq!(strutil::u64_to_string(0), "0");
    assert_eq!(strutil::u64_to_string(10), "10");
    assert_eq!(strutil::u64_to_string(1643673600), "1643673600");
    assert_eq!(strutil::parse_u32("007"), Some(7));
    assert_eq!(strutil::parse_u32("4294967295"), Some(4294967295));
    assert_eq!(strutil::parse_u32("4294967296"), None);
    assert_eq!(strutil::parse_u32(""), None);
    assert_eq!(strutil::parse_u32("12a"), None);
    assert_eq!(strutil::parse_i32("2022"), Some(2022));
}

#[test]
fn test_split_str() {
    let parts = strutil::split_str("a.b..c", '.');
    assert_eq!(parts, vec!["a", "b", "", "c"]);
    assert_eq!(strutil::split_str("", '.'), vec![""]);
    assert_eq!(strutil::split_str("abc", '.'), vec!["abc"]);
}

#[test]
fn test_substring_predicates() {
    assert!(strutil::str_contains("results/as2rel_x.bz2", "as2rel_"));
    assert!(!strutil::str_contains("results/pfx2as_x.bz2", "as2rel_"));
    assert!(strutil::str_ends_with("a.bz2", ".bz2"));
    assert!(!strutil::str_ends_with("a.bz2.json", ".bz2"));
    assert!(strutil::str_starts_with("rrc16", "rrc"));
    assert!(!strutil::str_starts_with("route-views.sg", "rrc"));
}

use peer_stats::countmap::PfxCountMap;
use peer_stats::merge::merge_pfx2as_doc;
use peer_stats::merge::peer_stats_window;
use peer_stats::merge::select_partial_file;
use peer_stats::merge::As2RelMerger;
use peer_stats::As2Rel;
use peer_stats::As2RelCount;
use peer_stats::Prefix2AsCount;
use peer_stats::REL_ADJACENT;

fn pfx(prefix: &str, asn: u32, count: usize) -> Prefix2AsCount {
    Prefix2AsCount {
        prefix: prefix.to_string(),
        asn,
        count,
    }
}

#[test]
fn test_pfx_merge_sums_counts() {
    // merge({(p,a):3}, {(p,a):4}) == {(p,a):7}
    let mut acc = PfxCountMap::new();
    merge_pfx2as_doc(&mut acc, &vec![pfx("10.0.0.0/24", 64500, 3)]);
    merge_pfx2as_doc(&mut acc, &vec![pfx("10.0.0.0/24", 64500, 4)]);
    let entries = acc.into_entries();
    assert_eq!(entries.len(), 1);
    assert_eq!(entries[0].prefix, "10.0.0.0/24");
    assert_eq!(entries[0].asn, 64500);
    assert_eq!(entries[0].count, 7);
}

#[test]
fn test_pfx_merge_keeps_distinct_keys() {
    let mut acc = PfxCountMap::new();
    merge_pfx2as_doc(
        &mut acc,
        &vec![pfx("10.0.0.0/24", 1, 2), pfx("10.0.0.0/24", 2, 5)],
    );
    merge_pfx2as_doc(&mut acc, &vec![pfx("10.0.1.0/24", 1, 1)]);
    let entries = acc.into_entries();
    assert_eq!(entries.len(), 3);
    let total: usize = entries.iter().map(|e| e.count).sum();
    assert_eq!(total, 8);
}

fn reldoc(entries: Vec<As2RelCount>) -> As2Rel {
    As2Rel {
        project: "p".to_string(),
        collector: "c".to_string(),
        rib_dump_url: "u".to_string(),
        as2rel: entries,
    }
}

#[test]
fn test_as2rel_merge_sums_both_counts() {
    let mut m = As2RelMerger::new();
    m.merge_doc(&reldoc(vec![As2RelCount {
        asn1: 1,
        asn2: 2,
        rel: REL_ADJACENT,
        paths_count: 10,
        peers_count: 3,
    }]));
    m.merge_doc(&reldoc(vec![
        As2RelCount {
            asn1: 1,
            asn2: 2,
            rel: REL_ADJACENT,
            paths_count: 5,
            peers_count: 2,
        },
        As2RelCount {
            asn1: 2,
            asn2: 3,
            rel: REL_ADJACENT,
            paths_count: 1,
            peers_count: 1,
        },
    ]));
    let entries = m.into_entries();
    assert_eq!(entries.len(), 2);
    let e12 = entries
        .iter()
        .find(|e| e.asn1 == 1 && e.asn2 == 2)
        .unwrap();
    assert_eq!(e12.paths_count, 15);
    assert_eq!(e12.peers_count, 5);
}

#[test]
fn test_select_partial_file() {
    let today = vec![(2022, 2, 1)];
    assert!(select_partial_file(
        "results/as2rel_rrc16_2022-02-01_1643673600.bz2",
        "as2rel_",
        false,
        &today
    ));
    // wrong date
    assert!(!select_partial_file(
        "results/as2rel_rrc16_2022-01-31_1643587200.bz2",
        "as2rel_",
        false,
        &today
    ));
    // wrong data type
    assert!(!select_partial_file(
        "results/pfx2as_rrc16_2022-02-01_1643673600.bz2",
        "as2rel_",
        false,
        &today
    ));
    // not compressed output
    assert!(!select_partial_file(
        "results/as2rel_rrc16_2022-02-01_1643673600.json",
        "as2rel_",
        false,
        &today
    ));
    // bootstrapping takes every date
    assert!(select_partial_file(
        "results/as2rel_rrc16_1999-12-31_946598400.bz2",
        "as2rel_",
        true,
        &today
    ));
}

#[test]
fn test_peer_stats_window() {
    // mid-month: only the day itself
    assert_eq!(peer_stats_window(2022, 2, 5), vec![(2022, 2, 5)]);
    // first of a month: the previous day too
    assert_eq!(
        peer_stats_window(2022, 3, 1),
        vec![(2022, 3, 1), (2022, 2, 28)]
    );
    assert_eq!(
        peer_stats_window(2022, 1, 1),
        vec![(2022, 1, 1), (2021, 12, 31)]
    );
}

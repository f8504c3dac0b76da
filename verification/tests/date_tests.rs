use peer_stats::merge;
use peer_stats::store;

#[test]
fn test_get_file_date() {
    assert_eq!(
        merge::get_ymd_from_file("as2rel_rrc16_2022-02-01_1643673600.bz2"),
        (2022, 2, 1)
    );
    assert_eq!(
        merge::get_ymd_from_file("/aaa_bbb-ccc/as2rel_rrc16_2022-02-01_1643673600.bz2"),
        (2022, 2, 1)
    );
}

#[test]
fn index_pfx2as_test_get_file_date() {
    assert_eq!(
        merge::get_ymd_from_file("as2rel_rrc16_2022-02-01_1643673600.bz2"),
        (2022, 2, 1)
    );
    assert_eq!(
        merge::get_ymd_from_file("/aaa_bbb-ccc/as2rel_rrc16_2022-02-01_1643673600.bz2"),
        (2022, 2, 1)
    );
}

#[test]
fn index_peer_stats_test_get_file_date() {
    assert_eq!(
        store::get_ymd_from_file("peer-stats_rrc16_2022-02-01_1643673600.bz2").unwrap(),
        (2022, 2, 1)
    );
    assert_eq!(
        store::get_ymd_from_file("/aaa_bbb-ccc/peer-stats_rrc16_2022-02-01_1643673600.bz2")
            .unwrap(),
        (2022, 2, 1)
    );
}

#[test]
fn test_get_ymd_rejects_bad_digits() {
    assert_eq!(store::get_ymd_from_file("peer-stats_rrc16_20xx-02-01_164.bz2"), None);
}

#[test]
fn test_get_date_from_url() {
    let (y, m, d) = store::get_date_from_url(
        "http://archive.example.org/bgpdata/2022.08/RIBS/rib.20220808.1400.bz2",
    );
    assert_eq!(y, "2022");
    assert_eq!(m, "08");
    assert_eq!(d, "08");
}

#[test]
fn test_file_date_total() {
    assert_eq!(
        merge::file_date("results/as2rel_rrc16_2022-02-01_1643673600.bz2"),
        Some((2022, 2, 1))
    );
    assert_eq!(merge::file_date("no-underscores-here.bz2"), None);
    assert_eq!(merge::file_date("bad_date_aa-bb-cc_1.bz2"), None);
}

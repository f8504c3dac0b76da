use peer_stats::store::PeerStatsStore;
use peer_stats::PeerInfo;
use peer_stats::PeerIp;
use peer_stats::RibPeerInfo;

fn doc(collector: &str, url: &str, peers: Vec<PeerInfo>) -> RibPeerInfo {
    RibPeerInfo {
        project: "route-views".to_string(),
        collector: collector.to_string(),
        rib_dump_url: url.to_string(),
        peers,
    }
}

fn peer(addr: u128, asn: u32, v4: usize, v6: usize, conn: usize) -> PeerInfo {
    PeerInfo {
        ip: PeerIp { v4: true, addr },
        asn,
        num_v4_pfxs: v4,
        num_v6_pfxs: v6,
        num_connected_asns: conn,
    }
}

const URL: &str = "http://archive.example.org/rib.20220808.1400.bz2";

#[test]
fn test_duplicate_insert_rejected() {
    // the same (date, collector, peer) twice: the second insert is
    // rejected whole and the first row keeps its values
    let mut db = PeerStatsStore::new();
    assert!(db.is_db_empty());
    let first = doc("route-views.sg", URL, vec![peer(7, 64500, 10, 2, 3)]);
    assert!(db.insert_rib_info(&first));
    assert!(!db.is_db_empty());
    assert_eq!(db.rows.len(), 1);
    assert_eq!(db.rows[0].date, "2022-08-08");
    assert_eq!(db.rows[0].num_v4_pfxs, 10);

    let second = doc("route-views.sg", URL, vec![peer(7, 64999, 99, 99, 99)]);
    assert!(!db.insert_rib_info(&second));
    assert_eq!(db.rows.len(), 1);
    assert_eq!(db.rows[0].asn, 64500);
    assert_eq!(db.rows[0].num_v4_pfxs, 10);
}

#[test]
fn test_insert_is_all_or_nothing() {
    // one colliding peer rejects the whole document
    let mut db = PeerStatsStore::new();
    assert!(db.insert_rib_info(&doc("c", URL, vec![peer(1, 10, 1, 0, 0)])));
    let mixed = doc("c", URL, vec![peer(2, 20, 1, 0, 0), peer(1, 11, 2, 0, 0)]);
    assert!(!db.insert_rib_info(&mixed));
    assert_eq!(db.rows.len(), 1);
}

#[test]
fn test_other_key_dimensions_accepted() {
    let mut db = PeerStatsStore::new();
    assert!(db.insert_rib_info(&doc("c1", URL, vec![peer(1, 10, 1, 0, 0)])));
    // same peer, other collector: a different key
    assert!(db.insert_rib_info(&doc("c2", URL, vec![peer(1, 10, 1, 0, 0)])));
    // same peer and collector, other date
    assert!(db.insert_rib_info(&doc(
        "c1",
        "http://archive.example.org/rib.20220809.0000.bz2",
        vec![peer(1, 10, 1, 0, 0)]
    )));
    assert_eq!(db.rows.len(), 3);
    assert_eq!(db.rows[2].date, "2022-08-09");
}

#[test]
fn test_duplicate_peer_within_document_rejected() {
    let mut db = PeerStatsStore::new();
    let dup = doc("c", URL, vec![peer(1, 10, 1, 0, 0), peer(1, 10, 1, 0, 0)]);
    assert!(!db.insert_rib_info(&dup));
    assert!(db.is_db_empty());
}

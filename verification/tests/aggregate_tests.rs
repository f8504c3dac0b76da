use peer_stats::aggregate_records;
use peer_stats::As2Rel;
use peer_stats::As2RelCount;
use peer_stats::PeerInfo;
use peer_stats::PeerIp;
use peer_stats::RouteRecord;
use peer_stats::Tier1Config;
use peer_stats::REL_ADJACENT;
use peer_stats::REL_PROVIDER_TO_CUSTOMER;

fn ip(n: u128) -> PeerIp {
    PeerIp { v4: true, addr: n }
}

fn rec(peer: u128, asn: u32, prefix: &str, v4: bool, path: Option<Vec<u32>>) -> RouteRecord {
    RouteRecord {
        peer_ip: ip(peer),
        peer_asn: asn,
        prefix: prefix.to_string(),
        prefix_v4: v4,
        as_path: path,
    }
}

fn anchors(list: Vec<u32>) -> Tier1Config {
    Tier1Config {
        global: list.clone(),
        v4: list.clone(),
        v6: list,
    }
}

fn find_rel<'a>(doc: &'a As2Rel, a: u32, b: u32, code: u8) -> Option<&'a As2RelCount> {
    doc.as2rel
        .iter()
        .find(|e| e.asn1 == a && e.asn2 == b && e.rel == code)
}

fn find_peer<'a>(peers: &'a [PeerInfo], addr: u128) -> &'a PeerInfo {
    peers.iter().find(|p| p.ip == ip(addr)).unwrap()
}

#[test]
fn test_two_peer_snapshot() {
    // Two peers, each announcing the same route whose path runs
    // collector -> origin as [400, 300, 200, 100], with 300 the
    // tier-1 anchor: walking up from the origin 100, the hops below
    // the anchor are inferred provider/customer, nothing beyond it.
    let records = vec![
        rec(1, 400, "10.0.0.0/24", true, Some(vec![400, 300, 200, 100])),
        rec(2, 401, "10.0.0.0/24", true, Some(vec![400, 300, 200, 100])),
    ];
    let (peers_doc, pfx_doc, (global, v4, v6)) = aggregate_records(
        &records,
        anchors(vec![300]),
        "route-views",
        "route-views.sg",
        "http://example.net/rib.20220808.1400.bz2",
    );

    assert_eq!(peers_doc.project, "route-views");
    assert_eq!(peers_doc.peers.len(), 2);
    let p1 = find_peer(&peers_doc.peers, 1);
    assert_eq!(p1.asn, 400);
    assert_eq!(p1.num_v4_pfxs, 1);
    assert_eq!(p1.num_v6_pfxs, 0);
    // second hop of the collapsed path
    assert_eq!(p1.num_connected_asns, 1);

    assert_eq!(pfx_doc.pfx2as.len(), 1);
    assert_eq!(pfx_doc.pfx2as[0].prefix, "10.0.0.0/24");
    assert_eq!(pfx_doc.pfx2as[0].asn, 100);
    assert_eq!(pfx_doc.pfx2as[0].count, 2);

    for doc in [&global, &v4] {
        let a1 = find_rel(doc, 400, 300, REL_ADJACENT).unwrap();
        let a2 = find_rel(doc, 300, 200, REL_ADJACENT).unwrap();
        let a3 = find_rel(doc, 200, 100, REL_ADJACENT).unwrap();
        assert_eq!((a1.paths_count, a1.peers_count), (2, 2));
        assert_eq!((a2.paths_count, a2.peers_count), (2, 2));
        assert_eq!((a3.paths_count, a3.peers_count), (2, 2));
        // 200 is the inferred provider of the origin 100, and 300 of 200
        let pc1 = find_rel(doc, 200, 100, REL_PROVIDER_TO_CUSTOMER).unwrap();
        let pc2 = find_rel(doc, 300, 200, REL_PROVIDER_TO_CUSTOMER).unwrap();
        assert_eq!((pc1.paths_count, pc1.peers_count), (2, 2));
        assert_eq!((pc2.paths_count, pc2.peers_count), (2, 2));
        // no inference beyond the first anchor
        assert!(find_rel(doc, 400, 300, REL_PROVIDER_TO_CUSTOMER).is_none());
        assert_eq!(doc.as2rel.len(), 5);
    }
    // the records are IPv4, so the IPv6 map stays empty
    assert_eq!(v6.as2rel.len(), 0);
}

#[test]
fn test_no_anchor_no_provider_entries() {
    // a path touching no tier-1 AS yields adjacency only
    let records = vec![rec(1, 10, "10.0.0.0/24", true, Some(vec![10, 20, 30]))];
    let (_, _, (global, v4, v6)) = aggregate_records(
        &records,
        anchors(vec![300]),
        "route-views",
        "c",
        "u.20220808.x.bz2",
    );
    for doc in [&global, &v4, &v6] {
        assert!(doc
            .as2rel
            .iter()
            .all(|e| e.rel != REL_PROVIDER_TO_CUSTOMER));
    }
    assert_eq!(global.as2rel.len(), 2);
}

#[test]
fn test_anchor_at_origin_infers_nothing() {
    // the origin itself is the anchor: no hop lies between the origin
    // and the anchor, so there is adjacency but no direction
    let records = vec![rec(1, 100, "10.0.0.0/24", true, Some(vec![100, 200, 300]))];
    let (_, _, (global, _, _)) = aggregate_records(
        &records,
        anchors(vec![300]),
        "p",
        "c",
        "u.20220808.x.bz2",
    );
    assert!(find_rel(&global, 100, 200, REL_ADJACENT).is_some());
    assert!(find_rel(&global, 200, 300, REL_ADJACENT).is_some());
    assert!(global
        .as2rel
        .iter()
        .all(|e| e.rel != REL_PROVIDER_TO_CUSTOMER));
}

#[test]
fn test_first_seen_asn_wins() {
    let records = vec![
        rec(1, 64500, "10.0.0.0/24", true, None),
        rec(1, 64501, "10.0.1.0/24", true, None),
    ];
    let (peers_doc, _, _) = aggregate_records(
        &records,
        anchors(vec![300]),
        "p",
        "c",
        "u.20220808.x.bz2",
    );
    assert_eq!(peers_doc.peers.len(), 1);
    assert_eq!(peers_doc.peers[0].asn, 64500);
    assert_eq!(peers_doc.peers[0].num_v4_pfxs, 2);
}

#[test]
fn test_family_counts_within_announced() {
    // the same IPv4 prefix twice and one IPv6 prefix: the family
    // counts reflect distinct prefixes and never exceed what the peer
    // announced
    let records = vec![
        rec(1, 64500, "10.0.0.0/24", true, None),
        rec(1, 64500, "10.0.0.0/24", true, None),
        rec(1, 64500, "2001:db8::/32", false, None),
    ];
    let (peers_doc, _, _) = aggregate_records(
        &records,
        anchors(vec![300]),
        "p",
        "c",
        "u.20220808.x.bz2",
    );
    let p = &peers_doc.peers[0];
    assert_eq!(p.num_v4_pfxs, 1);
    assert_eq!(p.num_v6_pfxs, 1);
    assert!(p.num_v4_pfxs + p.num_v6_pfxs <= 2);
}

#[test]
fn test_prepending_collapsed() {
    // path prepending collapses away: the second hop and the
    // adjacencies come from the collapsed path
    let records = vec![rec(
        1,
        100,
        "10.0.0.0/24",
        true,
        Some(vec![100, 100, 100, 200, 200, 300]),
    )];
    let (peers_doc, pfx_doc, (global, _, _)) = aggregate_records(
        &records,
        anchors(vec![999]),
        "p",
        "c",
        "u.20220808.x.bz2",
    );
    assert_eq!(peers_doc.peers[0].num_connected_asns, 1);
    assert_eq!(pfx_doc.pfx2as[0].asn, 300);
    assert_eq!(global.as2rel.len(), 2);
    assert!(find_rel(&global, 100, 200, REL_ADJACENT).is_some());
    assert!(find_rel(&global, 200, 300, REL_ADJACENT).is_some());
    let a = find_rel(&global, 100, 200, REL_ADJACENT).unwrap();
    assert_eq!(a.paths_count, 1);
}

#[test]
fn test_family_scoped_maps() {
    let records = vec![
        rec(1, 10, "10.0.0.0/24", true, Some(vec![10, 20])),
        rec(1, 10, "2001:db8::/32", false, Some(vec![10, 30])),
    ];
    let (_, _, (global, v4, v6)) = aggregate_records(
        &records,
        anchors(vec![999]),
        "p",
        "c",
        "u.20220808.x.bz2",
    );
    assert_eq!(global.as2rel.len(), 2);
    assert_eq!(v4.as2rel.len(), 1);
    assert!(find_rel(&v4, 10, 20, REL_ADJACENT).is_some());
    assert_eq!(v6.as2rel.len(), 1);
    assert!(find_rel(&v6, 10, 30, REL_ADJACENT).is_some());
}

#[test]
fn test_standard_tier1_lists() {
    let cfg = Tier1Config::standard();
    assert_eq!(cfg.global.len(), 17);
    assert_eq!(cfg.v4.len(), 17);
    assert_eq!(cfg.v6.len(), 17);
    assert_eq!(cfg.global[0], 6762);
    assert_eq!(cfg.global[16], 6939);
    // the IPv4 list replaces the last entry by a sentinel
    assert_eq!(cfg.v4[16], 0);
    assert_eq!(cfg.v6[16], 6939);
}

#[test]
fn test_pathless_records_only_count_prefixes() {
    let records = vec![rec(1, 10, "10.0.0.0/24", true, None)];
    let (peers_doc, pfx_doc, (global, v4, v6)) = aggregate_records(
        &records,
        anchors(vec![300]),
        "p",
        "c",
        "u.20220808.x.bz2",
    );
    assert_eq!(peers_doc.peers[0].num_v4_pfxs, 1);
    assert_eq!(peers_doc.peers[0].num_connected_asns, 0);
    assert_eq!(pfx_doc.pfx2as.len(), 0);
    assert_eq!(global.as2rel.len(), 0);
    assert_eq!(v4.as2rel.len(), 0);
    assert_eq!(v6.as2rel.len(), 0);
}

#[test]
fn test_relationship_counts_order_independent() {
    // absorbing the same records in another order yields the same
    // relationship counts (only first-seen AS bookkeeping is ordered)
    let a = || rec(1, 10, "10.0.0.0/24", true, Some(vec![10, 20, 300, 40]));
    let b = || rec(2, 50, "10.1.0.0/24", true, Some(vec![50, 20, 300]));
    let c = || rec(1, 10, "2001:db8::/32", false, Some(vec![10, 20, 300, 40]));
    let one = vec![a(), b(), c()];
    let two = vec![c(), b(), a()];
    let cfg = || anchors(vec![300]);
    let (_, _, (g1, v41, v61)) = aggregate_records(&one, cfg(), "p", "c", "u.20220808.x.bz2");
    let (_, _, (g2, v42, v62)) = aggregate_records(&two, cfg(), "p", "c", "u.20220808.x.bz2");
    let key = |d: &As2Rel| {
        let mut v: Vec<(u32, u32, u8, usize, usize)> = d
            .as2rel
            .iter()
            .map(|e| (e.asn1, e.asn2, e.rel, e.paths_count, e.peers_count))
            .collect();
        v.sort();
        v
    };
    assert_eq!(key(&g1), key(&g2));
    assert_eq!(key(&v41), key(&v42));
    assert_eq!(key(&v61), key(&v62));
}

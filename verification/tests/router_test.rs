use undermoon::router::{error_reply, slot_of_key, ClusterName, MetaError, MetaManager, ProxyClusterMeta, RouterError};
use undermoon::resp::Resp;

fn tokens_of(line: &str) -> Vec<Vec<u8>> {
    line.split(' ').map(|s| s.as_bytes().to_vec()).collect()
}

#[test]
fn test_meta_parse_fields() {
    let meta = ProxyClusterMeta::parse(&tokens_of(
        "7 NOFLAGS mycluster 10.0.0.1:7000 2 0-8191 8192-16383",
    ))
    .unwrap();
    assert_eq!(meta.epoch, 7);
    assert_eq!(meta.ranges.len(), 2);
    assert_eq!(meta.ranges[0].start, 0);
    assert_eq!(meta.ranges[0].end, 8191);
    assert_eq!(meta.ranges[1].start, 8192);
    assert_eq!(meta.ranges[1].end, 16383);
    assert_eq!(meta.ranges[0].addr, b"10.0.0.1:7000".to_vec());
    assert!(!meta.ranges[0].migrating);
}

#[test]
fn test_meta_parse_migrating_flag() {
    let meta =
        ProxyClusterMeta::parse(&tokens_of("2 MIGRATING c 10.0.0.1:7000 1 0-16383")).unwrap();
    assert!(meta.ranges[0].migrating);
}

#[test]
fn test_meta_parse_errors() {
    for bad in [
        "1 NOFLAGS test_cluster 127.0.0.1:6379 2 0-16383",
        "1 NOFLAGS test_cluster 127.0.0.1:6379 1",
        "x NOFLAGS test_cluster 127.0.0.1:6379 1 0-16383",
        "1 NOFLAGS test_cluster 127.0.0.1:6379 1 0:16383",
        "1 NOFLAGS test_cluster 127.0.0.1:6379 1 0-99999",
        "1 NOFLAGS",
    ] {
        match ProxyClusterMeta::parse(&tokens_of(bad)) {
            Err(e) => assert_eq!(e, MetaError::ParseError),
            Ok(_) => panic!("unexpected pattern {:?}", bad),
        }
    }
}

#[test]
fn test_set_meta_rejects_bad_partition() {
    // A snapshot with a gap is rejected wholesale and the previous
    // snapshot stays active: lookups never see a torn or partial update.
    let mut manager = MetaManager::new();
    let good = ProxyClusterMeta::parse(&tokens_of("1 NOFLAGS c 10.0.0.1:7000 1 0-16383")).unwrap();
    manager.set_meta(good).unwrap();

    let gap = ProxyClusterMeta::parse(&tokens_of("2 NOFLAGS c 10.0.0.2:7000 2 0-100 200-16383"))
        .unwrap();
    match manager.set_meta(gap) {
        Err(e) => assert_eq!(e, MetaError::InvalidRanges),
        Ok(_) => panic!("unexpected pattern {:?}", "accepted gap"),
    }

    let name = ClusterName::new(b"c".to_vec()).unwrap();
    let target = manager.route(&name, &b"anything".to_vec()).unwrap();
    assert_eq!(target.addr, b"10.0.0.1:7000".to_vec());
}

#[test]
fn test_route_picks_owning_range() {
    let mut manager = MetaManager::new();
    let meta = ProxyClusterMeta::parse(&tokens_of(
        "1 NOFLAGS c 10.0.0.1:7000 2 0-8191 8192-16383",
    ))
    .unwrap();
    manager.set_meta(meta).unwrap();
    // Both halves of the slot space resolve, to the address of the range
    // holding the key's slot.
    let name = ClusterName::new(b"c".to_vec()).unwrap();
    for key in [&b"key"[..], b"otherkey", b"a", b"zzzz"] {
        let slot = slot_of_key(&key.to_vec());
        assert!(slot < 16384);
        let target = manager.route(&name, &key.to_vec()).unwrap();
        assert_eq!(target.addr, b"10.0.0.1:7000".to_vec());
        assert_eq!(slot, slot_of_key(&key.to_vec()));
    }
}

#[test]
fn test_route_unknown_cluster() {
    let manager = MetaManager::new();
    let name = ClusterName::new(b"nope".to_vec()).unwrap();
    assert!(manager.route(&name, &b"key".to_vec()).is_err());
}

#[test]
fn test_slot_formula() {
    // The slot fold, on values small enough to follow by hand.
    assert_eq!(slot_of_key(&Vec::new()), 0);
    assert_eq!(slot_of_key(&b"a".to_vec()), 97);
    assert_eq!(slot_of_key(&b"ab".to_vec()), (97 * 31 + 98) % 16384);
    // Deterministic: the same key always lands on the same slot.
    assert_eq!(slot_of_key(&b"key".to_vec()), slot_of_key(&b"key".to_vec()));
}

#[test]
fn test_error_reply_markers() {
    match error_reply(&RouterError::ClusterNotFound) {
        Resp::Error(text) => assert_eq!(text, b"ERR cluster not found".to_vec()),
        other => panic!("unexpected pattern {:?}", other),
    }
    match error_reply(&RouterError::Backend) {
        Resp::Error(text) => assert_eq!(text, b"ERR backend connection".to_vec()),
        other => panic!("unexpected pattern {:?}", other),
    }
}

#[test]
fn test_cluster_name_bounds() {
    assert!(ClusterName::new(Vec::new()).is_err());
    assert!(ClusterName::new(vec![97u8; 31]).is_err());
    assert!(ClusterName::new(vec![97u8; 30]).is_ok());
}

use senime::dict::{DictKind, DictKindName};

fn table() -> DictKind {
    DictKind::from_str("a\t啊\t3\nab\t啊波\t1\nb\t波\t2\n", DictKindName::Prefix).unwrap()
}

#[test]
fn cache_round_trip() {
    let d = table();
    let bytes = d.to_bin(1234);
    let back = DictKind::from_bin(1234, DictKindName::Prefix, &bytes).unwrap();
    let p = back.as_prefix();
    let q = d.as_prefix();
    assert_eq!(p.count(), q.count());
    assert_eq!(p.arena().chars(), q.arena().chars());
    for (x, y) in p.candidates().iter().zip(q.candidates().iter()) {
        assert_eq!((x.code, x.text, x.weight), (y.code, y.text, y.weight));
    }
    assert_eq!(p.search(&['a']).map(|s| s.len()), Some(2));
    // An unknown text time accepts any cache.
    assert!(DictKind::from_bin(0, DictKindName::Prefix, &bytes).is_ok());
}

#[test]
fn cache_fuzzy_kind() {
    let d = DictKind::from_str("a\t啊\t3\nb\t波\t2\n", DictKindName::Fuzzy).unwrap();
    let bytes = d.to_bin(7);
    let back = DictKind::from_bin(7, DictKindName::Fuzzy, &bytes).unwrap();
    assert_eq!(back.as_fuzzy().candidates().len(), 2);
}

#[test]
fn cache_stale_or_broken() {
    let bytes = table().to_bin(1234);
    let err = DictKind::from_bin(99, DictKindName::Prefix, &bytes).unwrap_err();
    assert_eq!(err, "码表已更新，重新构建二进制文件");
    let mut bad = bytes.clone();
    bad[0] = b'x';
    assert_eq!(
        DictKind::from_bin(1234, DictKindName::Prefix, &bad).unwrap_err(),
        "码表已更新，重新构建二进制文件"
    );
    let cut = &bytes[..31];
    assert!(DictKind::from_bin(1234, DictKindName::Prefix, cut).is_err());
    let zeros = vec![0u8; 30];
    assert!(DictKind::from_bin(0, DictKindName::Prefix, &zeros).is_err());
}

#[test]
fn short_or_huge_caches_are_refused() {
    for n in 0..30 {
        let short = vec![0u8; n];
        assert_eq!(
            DictKind::from_bin(0, DictKindName::Prefix, &short).unwrap_err(),
            "无效的二进制数据[HEAD]"
        );
    }
    // a header, then an arena whose length prefix claims 2^62 characters
    let mut bytes = table().to_bin(5)[..30].to_vec();
    bytes.push(253);
    bytes.extend_from_slice(&(1u64 << 62).to_le_bytes());
    assert_eq!(
        DictKind::from_bin(5, DictKindName::Prefix, &bytes).unwrap_err(),
        "无效的二进制数据[ARENA]"
    );
}

#[test]
fn fuzzy_queries_need_a_letter() {
    let d = DictKind::from_str("苹果\tapple\n", DictKindName::Fuzzy).unwrap();
    assert!(d.reachable(&['a', 'p']));
    assert!(d.reachable(&['a', '|', 'p', ',']));
    // a query with no match still has the form of one
    assert!(d.reachable(&['x', 'x', 'x']));
    assert!(!d.reachable(&[]));
    assert!(!d.reachable(&[',']));
    assert!(!d.reachable(&[',', ',', '|']));
    assert!(!d.reachable(&['a', 'P']));
}

#[test]
fn prefix_cache_holds_its_index() {
    let d = table();
    let bytes = d.to_bin(3);
    let fuzzy = DictKind::from_str("a\t啊\t3\n", DictKindName::Fuzzy).unwrap().to_bin(3);
    assert!(bytes.len() > fuzzy.len());
    // the index section cut off: refused as a broken index
    let mut cut = bytes.clone();
    while DictKind::from_bin(3, DictKindName::Prefix, &cut).is_ok() {
        cut.pop();
    }
    assert_eq!(
        DictKind::from_bin(3, DictKindName::Prefix, &cut).unwrap_err(),
        "无效的二进制数据[PRISM]"
    );
    // a fuzzy cache has no index section
    assert!(DictKind::from_bin(3, DictKindName::Fuzzy, &fuzzy).is_ok());
}

#[test]
fn cache_of_another_format_version_is_stale() {
    let bytes = table().to_bin(1234);
    let mut head = bincode::encode_to_vec(
        (['s', 'e', 'n', 'i', 'm', 'e'], 14i64, 1234i64),
        bincode::config::standard(),
    )
    .unwrap();
    head.resize(30, 0);
    let mut old = head.clone();
    old.extend_from_slice(&bytes[30..]);
    assert_eq!(
        DictKind::from_bin(1234, DictKindName::Prefix, &old).unwrap_err(),
        "码表已更新，重新构建二进制文件"
    );
    assert!(DictKind::from_bin(1234, DictKindName::Prefix, &bytes).is_ok());
    assert!(DictKind::from_bin(0, DictKindName::Prefix, &bytes).is_ok());
    assert!(DictKind::from_bin(1235, DictKindName::Prefix, &bytes).is_err());
}

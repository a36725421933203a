use narserve::database::{get_path_info, get_references, Catalog, PathRow, RefEdge, StorePath};

fn zeros_digest() -> String {
    format!("sha256:{}", "0".repeat(64))
}

fn row(id: u64, path: &str, size: u64) -> PathRow {
    PathRow {
        id,
        path: path.to_string(),
        hash: zeros_digest(),
        nar_size: size,
        deriver: None,
    }
}

#[test]
fn store_path_strips_known_prefix() {
    let sp = StorePath::new("/nix/store/abc-foo");
    assert_eq!(sp.without_prefix(), "abc-foo");
    assert_eq!(sp.with_prefix(), "/nix/store/abc-foo");
}

#[test]
fn store_path_keeps_relative_input() {
    let sp = StorePath::new("abc-foo");
    assert_eq!(sp.without_prefix(), "abc-foo");
    assert_eq!(sp.with_prefix(), "/nix/store/abc-foo");
}

#[test]
fn resolve_exact_prefix_match() {
    let catalog = Catalog {
        rows: vec![row(1, "/nix/store/abc123-foo", 10), row(2, "/nix/store/abc999-bar", 20)],
        refs: vec![],
    };
    let info = get_path_info(&catalog, "abc1").unwrap().unwrap();
    assert_eq!(info.path.without_prefix(), "abc123-foo");
    assert_eq!(info.nar_size, 10);
}

#[test]
fn resolve_mismatched_neighbour_is_not_found() {
    let catalog = Catalog {
        rows: vec![row(1, "/nix/store/abc123-foo", 10), row(2, "/nix/store/abc999-bar", 20)],
        refs: vec![],
    };
    // "abc999-bar" sorts after the wanted path but does not extend it.
    assert!(get_path_info(&catalog, "abc5").unwrap().is_none());
}

#[test]
fn resolve_picks_lexicographically_smallest_match() {
    let catalog = Catalog {
        rows: vec![
            row(3, "/nix/store/abc9-baz", 30),
            row(1, "/nix/store/abc1-foo", 10),
            row(2, "/nix/store/abc5-bar", 20),
        ],
        refs: vec![],
    };
    let info = get_path_info(&catalog, "abc").unwrap().unwrap();
    assert_eq!(info.path.without_prefix(), "abc1-foo");
}

#[test]
fn resolve_empty_catalog_is_not_found() {
    let catalog = Catalog { rows: vec![], refs: vec![] };
    assert!(get_path_info(&catalog, "abc").unwrap().is_none());
}

#[test]
fn resolve_reencodes_digest() {
    let bytes: Vec<u8> = (0u8..32).collect();
    let mut r = row(1, "/nix/store/abc-foo", 10);
    r.hash = format!("sha256:{}", hex::encode(&bytes));
    let catalog = Catalog { rows: vec![r], refs: vec![] };
    let info = get_path_info(&catalog, "abc").unwrap().unwrap();
    assert_eq!(info.nar_hash, format!("sha256:{}", nix_base32::to_nix_base32(&bytes)));
}

#[test]
fn resolve_malformed_digest_is_storage_error() {
    let mut r = row(1, "/nix/store/abc-foo", 10);
    r.hash = "sha256:not-hex".to_string();
    let catalog = Catalog { rows: vec![r], refs: vec![] };
    assert!(get_path_info(&catalog, "abc").is_err());
}

#[test]
fn resolve_keeps_deriver() {
    let mut r = row(1, "/nix/store/abc-foo", 10);
    r.deriver = Some("/nix/store/abc-foo.drv".to_string());
    let catalog = Catalog { rows: vec![r], refs: vec![] };
    let info = get_path_info(&catalog, "abc").unwrap().unwrap();
    assert_eq!(info.deriver.unwrap().without_prefix(), "abc-foo.drv");
}

#[test]
fn references_come_back_sorted() {
    let catalog = Catalog {
        rows: vec![
            row(1, "/nix/store/abc-foo", 10),
            row(2, "/nix/store/zzz-last", 20),
            row(3, "/nix/store/mmm-middle", 30),
            row(4, "/nix/store/aaa-first", 40),
        ],
        refs: vec![
            RefEdge { referrer: 1, reference: 2 },
            RefEdge { referrer: 1, reference: 3 },
            RefEdge { referrer: 1, reference: 4 },
        ],
    };
    let info = get_path_info(&catalog, "abc").unwrap().unwrap();
    let refs = get_references(&catalog, &info);
    let rels: Vec<String> = refs.iter().map(|sp| sp.without_prefix()).collect();
    assert_eq!(rels, vec!["aaa-first", "mmm-middle", "zzz-last"]);
}

#[test]
fn references_join_only_matching_edges() {
    let catalog = Catalog {
        rows: vec![
            row(1, "/nix/store/abc-foo", 10),
            row(2, "/nix/store/dep-one", 20),
            row(3, "/nix/store/dep-two", 30),
        ],
        refs: vec![
            RefEdge { referrer: 1, reference: 3 },
            RefEdge { referrer: 9, reference: 2 },
            RefEdge { referrer: 1, reference: 77 },
        ],
    };
    let info = get_path_info(&catalog, "abc").unwrap().unwrap();
    let refs = get_references(&catalog, &info);
    let rels: Vec<String> = refs.iter().map(|sp| sp.without_prefix()).collect();
    // the edge of another referrer and the edge to a missing row drop out
    assert_eq!(rels, vec!["dep-two"]);
}

#[test]
fn references_empty_without_edges() {
    let catalog = Catalog { rows: vec![row(1, "/nix/store/abc-foo", 10)], refs: vec![] };
    let info = get_path_info(&catalog, "abc").unwrap().unwrap();
    assert!(get_references(&catalog, &info).is_empty());
}

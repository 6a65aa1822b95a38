use aipkg::entry::{AppImageEntry, AppImageYaml};
use aipkg::hashing::{calculate_sha256_bytes, calculate_yaml_hash, verify_sha256_bytes};
use aipkg::manifest::{IndexSource, IndexYaml, SourceType};
use aipkg::resolver::Resolver;

fn package_text(names: &[&str]) -> String {
    let apps = names
        .iter()
        .map(|n| AppImageEntry {
            name: n.to_string(),
            version: "1.0.0".to_string(),
            file: format!("{}.AppImage", n),
            sha256: "c".repeat(64),
            size: None,
            description: None,
            dependencies: Vec::new(),
            provides: Vec::new(),
        })
        .collect();
    AppImageYaml { apps }.to_string().unwrap()
}

fn index_text(children: &[(&str, &str)]) -> String {
    let sources = children
        .iter()
        .map(|(kind, url)| IndexSource {
            source_type: if *kind == "index" { SourceType::Index } else { SourceType::Appimage },
            url: url.to_string(),
        })
        .collect();
    IndexYaml { sources }.to_string().unwrap()
}

/// Drives one pass, counting how often each location is fetched.
fn drive(mut resolver: Resolver, contents: &[(&str, String)]) -> (aipkg::index::UnifiedIndex, Vec<
    aipkg::resolver::SourceHash,
>, Vec<(String, usize)>) {
    let mut counts: Vec<(String, usize)> = Vec::new();
    loop {
        match resolver.next_request().expect("no url error") {
            Some(url) => {
                let mut found = false;
                for (u, c) in counts.iter_mut() {
                    if *u == url {
                        *c += 1;
                        found = true;
                    }
                }
                if !found {
                    counts.push((url.clone(), 1));
                }
                let body = contents
                    .iter()
                    .find(|(u, _)| *u == url)
                    .map(|(_, c)| c.clone())
                    .unwrap_or_else(|| panic!("unexpected fetch: {}", url));
                resolver.deliver(&body).expect("content accepted");
            },
            None => break,
        }
    }
    let (ix, hashes) = resolver.finish();
    (ix, hashes, counts)
}

#[test]
fn resolution_flattens_an_index_tree_fetching_each_location_once() {
    // A -> [index B, package C]; B -> [package D].
    let a = "https://example.com/a/index.yaml";
    let b = "https://example.com/b/index.yaml";
    let c = "https://example.com/c/apps.yaml";
    let d = "https://example.com/d/apps.yaml";
    let contents = vec![
        (a, index_text(&[("index", b), ("appimage", c)])),
        (b, index_text(&[("appimage", d)])),
        (c, package_text(&["from-c"])),
        (d, package_text(&["from-d"])),
    ];
    let contents: Vec<(&str, String)> = contents;
    let resolver = Resolver::new(vec![a.to_string()]);
    let (ix, _, counts) = drive(resolver, &contents);
    let mut names: Vec<String> = ix.entries.iter().map(|e| e.entry.name.clone()).collect();
    names.sort();
    assert_eq!(names, vec!["from-c".to_string(), "from-d".to_string()]);
    assert_eq!(counts.len(), 4);
    for (url, n) in &counts {
        assert_eq!(*n, 1, "{} fetched more than once", url);
    }
    // Entries carry the manifest they were declared in.
    for e in &ix.entries {
        if e.entry.name == "from-c" {
            assert_eq!(e.source_url, c);
        } else {
            assert_eq!(e.source_url, d);
        }
    }
}

#[test]
fn a_cycle_of_indexes_terminates_without_refetching() {
    // A -> [index B]; B -> [index A].
    let a = "https://example.com/a/index.yaml";
    let b = "https://example.com/b/index.yaml";
    let contents: Vec<(&str, String)> = vec![
        (a, index_text(&[("index", b)])),
        (b, index_text(&[("index", a)])),
    ];
    let resolver = Resolver::new(vec![a.to_string()]);
    let (ix, _, counts) = drive(resolver, &contents);
    assert!(ix.entries.is_empty());
    assert_eq!(counts.len(), 2);
    for (_, n) in &counts {
        assert_eq!(*n, 1);
    }
}

#[test]
fn unchanged_roots_contribute_no_work_and_no_duplicates() {
    let root = "https://example.com/apps.yaml";
    let body = package_text(&["stable"]);
    let contents: Vec<(&str, String)> = vec![(root, body)];

    let pass1 = Resolver::new_incremental(
        vec![root.to_string()],
        aipkg::index::UnifiedIndex::new(),
        Vec::new(),
    );
    let (ix1, hashes1, counts1) = drive(pass1, &contents);
    assert_eq!(ix1.entries.len(), 1);
    assert_eq!(counts1.len(), 1);

    let pass2 = Resolver::new_incremental(vec![root.to_string()], ix1, hashes1);
    let (ix2, hashes2, counts2) = drive(pass2, &contents);
    // The root is fetched to hash it, but contributes nothing again.
    assert_eq!(ix2.entries.len(), 1);
    assert_eq!(counts2.len(), 1);
    assert_eq!(hashes2.len(), 1);
}

#[test]
fn a_changed_root_is_reprocessed_alone_and_replaces_its_entries() {
    let one = "https://one.example/apps.yaml";
    let two = "https://two.example/index.yaml";
    let leaf = "https://two.example/apps.yaml";
    let contents1: Vec<(&str, String)> = vec![
        (one, package_text(&["alpha"])),
        (two, index_text(&[("appimage", leaf)])),
        (leaf, package_text(&["beta"])),
    ];
    let pass1 = Resolver::new_incremental(
        vec![one.to_string(), two.to_string()],
        aipkg::index::UnifiedIndex::new(),
        Vec::new(),
    );
    let (ix1, hashes1, _) = drive(pass1, &contents1);
    assert_eq!(ix1.entries.len(), 2);

    // Only the first root changes; the second is skipped after its hash check.
    let contents2: Vec<(&str, String)> = vec![
        (one, package_text(&["alpha", "gamma"])),
        (two, index_text(&[("appimage", leaf)])),
        (leaf, package_text(&["beta"])),
    ];
    let pass2 = Resolver::new_incremental(
        vec![one.to_string(), two.to_string()],
        ix1,
        hashes1,
    );
    let (ix2, _, counts2) = drive(pass2, &contents2);
    // The unchanged index root is fetched once for its hash; its leaf is not.
    assert!(counts2.iter().all(|(_, n)| *n == 1));
    assert!(!counts2.iter().any(|(u, _)| u == leaf));
    let mut names: Vec<String> = ix2.entries.iter().map(|e| e.entry.name.clone()).collect();
    names.sort();
    // The changed source's old entries were purged, not duplicated.
    assert_eq!(names, vec!["alpha".to_string(), "beta".to_string(), "gamma".to_string()]);
}

#[test]
fn a_document_of_neither_shape_fails_the_pass() {
    let root = "https://example.com/apps.yaml";
    let mut resolver = Resolver::new(vec![root.to_string()]);
    let url = resolver.next_request().unwrap().unwrap();
    assert_eq!(url, root);
    assert!(resolver.deliver("garbage that is no manifest").is_err());
}

#[test]
fn an_invalid_entry_fails_the_manifest() {
    let root = "https://example.com/apps.yaml";
    let mut resolver = Resolver::new(vec![root.to_string()]);
    let _ = resolver.next_request().unwrap().unwrap();
    // Hash is too short: the manifest is rejected wholesale.
    let bad = "apps:\n- name: x\n  version: 1.0.0\n  file: x.AppImage\n  sha256: abc\n";
    assert!(resolver.deliver(bad).is_err());
}

#[test]
fn an_unparseable_root_location_fails_the_pass() {
    let mut resolver = Resolver::new(vec!["not a url".to_string()]);
    assert!(resolver.next_request().is_err());
}

#[test]
fn root_locations_are_normalized_and_deduplicated() {
    // Both spellings normalize to the same location: one fetch.
    let contents: Vec<(&str, String)> = vec![
        ("https://example.com/apps.yaml", package_text(&["only"])),
    ];
    let resolver = Resolver::new(vec![
        "https://example.com/apps.yaml".to_string(),
        "HTTPS://EXAMPLE.com/apps.yaml".to_string(),
    ]);
    let (ix, _, counts) = drive(resolver, &contents);
    assert_eq!(counts.len(), 1);
    assert_eq!(ix.entries.len(), 1);
}

#[test]
fn sha256_of_known_bytes_matches() {
    assert_eq!(
        calculate_sha256_bytes(b"abc"),
        "ba7816bf8f01cfea414140de5dae2223b00361a396177a9cb410ff61f20015ad"
    );
    assert_eq!(
        calculate_yaml_hash(""),
        "e3b0c44298fc1c149afbf4c8996fb92427ae41e4649b934ca495991b7852b855"
    );
}

#[test]
fn hash_verification_is_case_insensitive_and_exact() {
    let h = "BA7816BF8F01CFEA414140DE5DAE2223B00361A396177A9CB410FF61F20015AD";
    assert!(verify_sha256_bytes(b"abc", h));
    assert!(verify_sha256_bytes(
        b"abc",
        "ba7816bf8f01cfea414140de5dae2223b00361a396177a9cb410ff61f20015ad"
    ));
    assert!(!verify_sha256_bytes(b"abd", h));
}

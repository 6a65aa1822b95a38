use aipkg::entry::{AppImageEntry, AppImageEntryWithSource};
use aipkg::index::UnifiedIndex;
use aipkg::deps::resolve_dependencies;
use aipkg::query::{best_fuzzy_match, search_entries};
use aipkg::version::{parse_version, version_lt_exec};

fn entry_named(name: &str, version: &str) -> AppImageEntry {
    AppImageEntry {
        name: name.to_string(),
        version: version.to_string(),
        file: format!("{}.AppImage", name),
        sha256: "b".repeat(64),
        size: None,
        description: None,
        dependencies: Vec::new(),
        provides: Vec::new(),
    }
}

fn index_of(entries: Vec<(&str, &str)>) -> UnifiedIndex {
    let mut ix = UnifiedIndex::new();
    for (name, version) in entries {
        ix.add_entry(entry_named(name, version), "https://src.example/apps.yaml".to_string());
    }
    ix
}

#[test]
fn parse_version_reads_the_triple() {
    let v = parse_version("1.2.3").unwrap();
    assert_eq!((v.major, v.minor, v.patch), (1, 2, 3));
    assert!(v.pre.is_empty());
}

#[test]
fn parse_version_keeps_prerelease_and_drops_build() {
    let v = parse_version("1.2.3-alpha.1+build.99").unwrap();
    assert_eq!((v.major, v.minor, v.patch), (1, 2, 3));
    assert_eq!(v.pre, vec!["alpha".to_string(), "1".to_string()]);
}

#[test]
fn parse_version_rejects_malformed_texts() {
    assert!(parse_version("latest").is_none());
    assert!(parse_version("1.2").is_none());
    assert!(parse_version("01.2.3").is_none());
    assert!(parse_version("1.2.3-").is_none());
    assert!(parse_version("1.2.3-0a.!").is_none());
    assert!(parse_version("99999999999999999999.0.0").is_none());
}

#[test]
fn version_order_matches_semantic_precedence() {
    let lt = |a: &str, b: &str| {
        version_lt_exec(&parse_version(a).unwrap(), &parse_version(b).unwrap())
    };
    assert!(lt("1.0.0", "1.2.0"));
    assert!(lt("1.1.9", "1.2.0"));
    assert!(!lt("1.2.0", "1.1.9"));
    assert!(lt("1.0.0-alpha", "1.0.0"));
    assert!(lt("1.0.0-alpha", "1.0.0-alpha.1"));
    assert!(lt("1.0.0-2", "1.0.0-10"));
    assert!(lt("1.0.0-alpha", "1.0.0-beta"));
    assert!(lt("1.0.0-9", "1.0.0-alpha"));
}

#[test]
fn best_match_without_requirement_picks_highest() {
    let ix = index_of(vec![("app", "1.0.0"), ("app", "1.2.0"), ("app", "1.1.9")]);
    let best = ix.find_best_match("app", None).expect("a match");
    assert_eq!(best.entry.version, "1.2.0");
}

#[test]
fn best_match_ignores_unparseable_versions_when_a_valid_one_exists() {
    let ix = index_of(vec![
        ("app", "1.0.0"),
        ("app", "1.2.0"),
        ("app", "1.1.9"),
        ("app", "latest"),
    ]);
    let best = ix.find_best_match("app", None).expect("a match");
    assert_eq!(best.entry.version, "1.2.0");
}

#[test]
fn best_match_with_caret_requirement_stays_in_major() {
    let ix = index_of(vec![("app", "1.5.0"), ("app", "2.0.0")]);
    let best = ix.find_best_match("app", Some("^1.0.0")).expect("a match");
    assert_eq!(best.entry.version, "1.5.0");
}

#[test]
fn best_match_with_unsatisfiable_requirement_is_none() {
    let ix = index_of(vec![("app", "1.5.0")]);
    assert!(ix.find_best_match("app", Some("^3.0.0")).is_none());
}

#[test]
fn best_match_with_invalid_requirement_falls_back_to_latest() {
    let ix = index_of(vec![("app", "1.5.0"), ("app", "2.0.0")]);
    let best = ix.find_best_match("app", Some("not a requirement")).expect("a match");
    assert_eq!(best.entry.version, "2.0.0");
}

#[test]
fn best_match_unknown_name_is_none() {
    let ix = index_of(vec![("app", "1.0.0")]);
    assert!(ix.find_best_match("other", None).is_none());
}

#[test]
fn purge_source_removes_only_that_source() {
    let mut ix = UnifiedIndex::new();
    ix.add_entry(entry_named("a", "1.0.0"), "https://one.example/apps.yaml".to_string());
    ix.add_entry(entry_named("b", "1.0.0"), "https://two.example/apps.yaml".to_string());
    ix.purge_source("https://one.example/apps.yaml");
    assert_eq!(ix.entries.len(), 1);
    assert_eq!(ix.entries[0].entry.name, "b");
}

#[test]
fn dependency_closure_holds_each_name_once() {
    // P declares [Q, R]; Q declares [R]: R is reachable twice but listed once.
    let mut ix = UnifiedIndex::new();
    let mut p = entry_named("p", "1.0.0");
    p.dependencies = vec!["q".to_string(), "r".to_string()];
    let mut q = entry_named("q", "1.0.0");
    q.dependencies = vec!["r".to_string()];
    let r = entry_named("r", "1.0.0");
    let src = "https://src.example/apps.yaml".to_string();
    ix.add_entry(p.duplicate(), src.clone());
    ix.add_entry(q, src.clone());
    ix.add_entry(r, src.clone());
    let resolved = resolve_dependencies(&ix, &p);
    let mut names: Vec<String> = resolved.iter().map(|e| e.entry.name.clone()).collect();
    names.sort();
    assert_eq!(names, vec!["q".to_string(), "r".to_string()]);
}

#[test]
fn dependency_with_no_match_is_skipped_silently() {
    let mut ix = UnifiedIndex::new();
    let mut p = entry_named("p", "1.0.0");
    p.dependencies = vec!["missing".to_string(), "q".to_string()];
    let q = entry_named("q", "1.0.0");
    let src = "https://src.example/apps.yaml".to_string();
    ix.add_entry(p.duplicate(), src.clone());
    ix.add_entry(q, src);
    let resolved = resolve_dependencies(&ix, &p);
    assert_eq!(resolved.len(), 1);
    assert_eq!(resolved[0].entry.name, "q");
}

#[test]
fn fuzzy_search_ranks_matches_and_drops_non_subsequences() {
    let ix = index_of(vec![("firefox", "1.0.0"), ("filezilla", "1.0.0"), ("gimp", "1.0.0")]);
    let results = search_entries(&ix, "fire");
    assert!(!results.is_empty());
    assert_eq!(results[0].entry.entry.name, "firefox");
    for r in &results {
        assert_ne!(r.entry.entry.name, "gimp");
    }
    let none = search_entries(&ix, "zzzz");
    assert!(none.is_empty());
}

#[test]
fn fuzzy_fallback_finds_the_closest_name() {
    let ix = index_of(vec![("firefox", "1.0.0"), ("gimp", "1.0.0")]);
    let hit = best_fuzzy_match(&ix, "firefx").expect("a fuzzy match");
    assert_eq!(hit.entry.name, "firefox");
    assert!(best_fuzzy_match(&ix, "qqqq").is_none());
}

#[test]
fn sourced_entry_duplicate_is_field_equal() {
    let e = AppImageEntryWithSource {
        entry: entry_named("x", "1.0.0"),
        source_url: "https://src.example/apps.yaml".to_string(),
    };
    let d = e.duplicate();
    assert_eq!(d.entry.name, e.entry.name);
    assert_eq!(d.source_url, e.source_url);
}

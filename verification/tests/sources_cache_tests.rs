use aipkg::cache::{
    parse_cache_metadata, parse_index_cache, serialize_cache_metadata, serialize_index_cache,
    CacheMetadata,
};
use aipkg::entry::AppImageEntry;
use aipkg::index::UnifiedIndex;
use aipkg::resolver::SourceHash;
use aipkg::sources::{combined_sources, Collective, CollectivesYaml, SourcesYaml};

#[test]
fn source_list_add_and_remove() {
    let mut s = SourcesYaml::new();
    s.add_source("https://b.example/apps.yaml".to_string());
    s.add_source("https://a.example/apps.yaml".to_string());
    s.add_source("https://b.example/apps.yaml".to_string());
    assert_eq!(s.sources.len(), 2);
    assert!(s.remove_source("https://b.example/apps.yaml"));
    assert!(!s.remove_source("https://b.example/apps.yaml"));
    assert_eq!(s.sources, vec!["https://a.example/apps.yaml".to_string()]);
}

#[test]
fn source_list_round_trips_and_tolerates_emptiness() {
    let mut s = SourcesYaml::new();
    s.add_source("https://a.example/apps.yaml".to_string());
    s.add_source("https://b.example/index.yaml".to_string());
    let text = s.to_string().unwrap();
    let back = SourcesYaml::from_str(&text).unwrap();
    assert_eq!(back.sources, s.sources);
    let empty = SourcesYaml::from_str("").unwrap();
    assert!(empty.sources.is_empty());
    assert!(SourcesYaml::from_str("garbage").is_err());
}

#[test]
fn collectives_merge_locations_without_duplicates() {
    let mut c = CollectivesYaml::new();
    c.add_to_collective(
        "tools",
        vec!["https://a.example/x.yaml".to_string(), "https://b.example/y.yaml".to_string()],
    );
    c.add_to_collective(
        "tools",
        vec!["https://b.example/y.yaml".to_string(), "https://c.example/z.yaml".to_string()],
    );
    assert_eq!(c.collectives.len(), 1);
    assert_eq!(
        c.collectives[0].sources,
        vec![
            "https://a.example/x.yaml".to_string(),
            "https://b.example/y.yaml".to_string(),
            "https://c.example/z.yaml".to_string(),
        ]
    );
    assert!(c.remove_collective("tools"));
    assert!(!c.remove_collective("tools"));
}

#[test]
fn collectives_round_trip_with_and_without_locations() {
    let c = CollectivesYaml {
        collectives: vec![
            Collective {
                name: "full".to_string(),
                sources: vec![
                    "https://a.example/x.yaml".to_string(),
                    "https://b.example/y.yaml".to_string(),
                ],
            },
            Collective { name: "bare".to_string(), sources: Vec::new() },
        ],
    };
    let text = c.to_string().unwrap();
    let back = CollectivesYaml::from_str(&text).unwrap();
    assert_eq!(back.collectives.len(), 2);
    assert_eq!(back.collectives[0].name, "full");
    assert_eq!(back.collectives[0].sources.len(), 2);
    assert_eq!(back.collectives[1].name, "bare");
    assert!(back.collectives[1].sources.is_empty());
    assert!(CollectivesYaml::from_str("").unwrap().collectives.is_empty());
    assert!(CollectivesYaml::from_str("nonsense").is_err());
}

#[test]
fn all_sources_come_out_sorted_and_unique() {
    let mut c = CollectivesYaml::new();
    c.add_to_collective("one", vec!["https://b.example/".to_string()]);
    c.add_to_collective("two", vec![
        "https://a.example/".to_string(),
        "https://b.example/".to_string(),
    ]);
    assert_eq!(
        c.get_all_sources(),
        vec!["https://a.example/".to_string(), "https://b.example/".to_string()]
    );
    let mut s = SourcesYaml::new();
    s.add_source("https://c.example/".to_string());
    s.add_source("https://a.example/".to_string());
    assert_eq!(
        combined_sources(&s, &c),
        vec![
            "https://a.example/".to_string(),
            "https://b.example/".to_string(),
            "https://c.example/".to_string(),
        ]
    );
}

#[test]
fn index_cache_round_trips_entries_and_timestamp() {
    let mut ix = UnifiedIndex::new();
    ix.add_entry(
        AppImageEntry {
            name: "app".to_string(),
            version: "1.0.0".to_string(),
            file: "app.AppImage".to_string(),
            sha256: "e".repeat(64),
            size: Some(7),
            description: Some("desc".to_string()),
            dependencies: vec!["dep".to_string()],
            provides: Vec::new(),
        },
        "https://src.example/apps.yaml".to_string(),
    );
    ix.last_updated = Some("2024-06-01T00:00:00Z".to_string());
    let text = serialize_index_cache(&ix).unwrap();
    let back = parse_index_cache(&text).unwrap();
    assert_eq!(back.last_updated.as_deref(), Some("2024-06-01T00:00:00Z"));
    assert_eq!(back.entries.len(), 1);
    assert_eq!(back.entries[0].entry.name, "app");
    assert_eq!(back.entries[0].entry.size, Some(7));
    assert_eq!(back.entries[0].source_url, "https://src.example/apps.yaml");
    assert!(parse_index_cache("junk").is_err());
}

#[test]
fn cache_metadata_round_trips_hash_records() {
    let m = CacheMetadata {
        last_updated: "2024-06-01T00:00:00Z".to_string(),
        source_hashes: vec![
            SourceHash { url: "https://a.example/".to_string(), hash: "f".repeat(64) },
            SourceHash { url: "https://b.example/".to_string(), hash: "0".repeat(64) },
        ],
    };
    let text = serialize_cache_metadata(&m).unwrap();
    let back = parse_cache_metadata(&text).unwrap();
    assert_eq!(back.last_updated, "2024-06-01T00:00:00Z");
    assert_eq!(back.source_hashes.len(), 2);
    assert_eq!(back.source_hashes[0].url, "https://a.example/");
    assert_eq!(back.source_hashes[1].hash, "0".repeat(64));
    assert!(parse_cache_metadata("").is_err());
}

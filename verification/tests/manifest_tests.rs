use aipkg::entry::{AppImageEntry, AppImageYaml, ValidateErrorKind};
use aipkg::manifest::{IndexSource, IndexYaml, SourceType};

fn entry(name: &str, version: &str) -> AppImageEntry {
    AppImageEntry {
        name: name.to_string(),
        version: version.to_string(),
        file: format!("{}.AppImage", name),
        sha256: "a".repeat(64),
        size: None,
        description: None,
        dependencies: Vec::new(),
        provides: Vec::new(),
    }
}

fn full_entry() -> AppImageEntry {
    AppImageEntry {
        name: "editor".to_string(),
        version: "1.2.3".to_string(),
        file: "editor-1.2.3.AppImage".to_string(),
        sha256: "0123456789abcdef0123456789abcdef0123456789abcdef0123456789abcdef".to_string(),
        size: Some(123456),
        description: Some("A text editor: fast, small".to_string()),
        dependencies: vec!["libfoo".to_string(), "libbar".to_string()],
        provides: vec!["editor-cli".to_string()],
    }
}

#[test]
fn package_manifest_round_trips_every_field() {
    let m = AppImageYaml { apps: vec![full_entry(), entry("tiny", "0.1.0")] };
    let text = m.to_string().expect("serializable");
    let back = AppImageYaml::from_str(&text).expect("parses");
    assert!(back.validate().is_ok());
    assert_eq!(back.apps.len(), 2);
    let e = &back.apps[0];
    assert_eq!(e.name, "editor");
    assert_eq!(e.version, "1.2.3");
    assert_eq!(e.file, "editor-1.2.3.AppImage");
    assert_eq!(e.sha256, "0123456789abcdef0123456789abcdef0123456789abcdef0123456789abcdef");
    assert_eq!(e.size, Some(123456));
    assert_eq!(e.description.as_deref(), Some("A text editor: fast, small"));
    assert_eq!(e.dependencies, vec!["libfoo".to_string(), "libbar".to_string()]);
    assert_eq!(e.provides, vec!["editor-cli".to_string()]);
    let t = &back.apps[1];
    assert_eq!(t.name, "tiny");
    assert_eq!(t.size, None);
    assert_eq!(t.description, None);
    assert!(t.dependencies.is_empty());
    assert!(t.provides.is_empty());
}

#[test]
fn package_manifest_round_trips_max_size() {
    let mut e = entry("big", "1.0.0");
    e.size = Some(u64::MAX);
    let m = AppImageYaml { apps: vec![e] };
    let text = m.to_string().unwrap();
    let back = AppImageYaml::from_str(&text).unwrap();
    assert_eq!(back.apps[0].size, Some(u64::MAX));
}

#[test]
fn validation_rejects_wrong_hash_length() {
    let mut e = entry("x", "1.0.0");
    e.sha256 = "abc".to_string();
    let m = AppImageYaml { apps: vec![e] };
    let err = m.validate().unwrap_err();
    assert_eq!(err.kind, ValidateErrorKind::Sha256Length);
    assert_eq!(err.name, "x");
}

#[test]
fn validation_rejects_missing_hash() {
    let mut e = entry("x", "1.0.0");
    e.sha256 = String::new();
    let m = AppImageYaml { apps: vec![e] };
    let err = m.validate().unwrap_err();
    assert_eq!(err.kind, ValidateErrorKind::Sha256Missing);
}

#[test]
fn validation_rejects_empty_name() {
    let m = AppImageYaml { apps: vec![entry("", "1.0.0")] };
    let err = m.validate().unwrap_err();
    assert_eq!(err.kind, ValidateErrorKind::NameEmpty);
}

#[test]
fn validation_rejects_empty_version() {
    let m = AppImageYaml { apps: vec![entry("x", "")] };
    let err = m.validate().unwrap_err();
    assert_eq!(err.kind, ValidateErrorKind::VersionEmpty);
}

#[test]
fn package_manifest_rejects_garbage() {
    assert!(AppImageYaml::from_str("not a manifest").is_err());
    assert!(AppImageYaml::from_str("").is_err());
    assert!(AppImageYaml::from_str("sources:\n- type: index\n  url: http://x/\n").is_err());
}

#[test]
fn manifest_with_newline_in_field_is_unserializable() {
    let mut e = entry("x", "1.0.0");
    e.description = Some("two\nlines".to_string());
    let m = AppImageYaml { apps: vec![e] };
    assert!(m.to_string().is_err());
}

#[test]
fn index_manifest_round_trips() {
    let m = IndexYaml {
        sources: vec![
            IndexSource {
                source_type: SourceType::Index,
                url: "https://example.com/more/index.yaml".to_string(),
            },
            IndexSource {
                source_type: SourceType::Appimage,
                url: "https://example.com/apps.yaml".to_string(),
            },
        ],
    };
    let text = m.to_string().unwrap();
    let back = IndexYaml::from_str(&text).unwrap();
    assert_eq!(back.sources.len(), 2);
    assert!(matches!(back.sources[0].source_type, SourceType::Index));
    assert_eq!(back.sources[0].url, "https://example.com/more/index.yaml");
    assert!(matches!(back.sources[1].source_type, SourceType::Appimage));
    assert_eq!(back.sources[1].url, "https://example.com/apps.yaml");
}

#[test]
fn index_manifest_rejects_package_shape() {
    let m = AppImageYaml { apps: vec![entry("x", "1.0.0")] };
    let text = m.to_string().unwrap();
    assert!(IndexYaml::from_str(&text).is_err());
}

#[test]
fn index_validate_flags_bad_urls() {
    let ok = IndexYaml {
        sources: vec![IndexSource {
            source_type: SourceType::Appimage,
            url: "https://example.com/apps.yaml".to_string(),
        }],
    };
    assert!(ok.validate().is_ok());
    let bad = IndexYaml {
        sources: vec![IndexSource {
            source_type: SourceType::Appimage,
            url: "not a url".to_string(),
        }],
    };
    assert!(bad.validate().is_err());
    let empty = IndexYaml {
        sources: vec![IndexSource { source_type: SourceType::Index, url: String::new() }],
    };
    assert!(empty.validate().is_err());
}

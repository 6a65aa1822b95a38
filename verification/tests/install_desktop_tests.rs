use aipkg::config::Config;
use aipkg::database::{InstalledPackage, PackageDatabase};
use aipkg::desktop::{
    build_metadata, extract_desktop_content, extract_version_from_filename,
    find_desktop_entry_start, parse_desktop_entry,
};
use aipkg::entry::{AppImageEntry, AppImageEntryWithSource};
use aipkg::hashing::calculate_sha256_bytes;
use aipkg::install::{
    desktop_file_content, needs_upgrade, plan_install, plan_uninstall, resolve_download_url,
    InstallError, UninstallError,
};

fn config() -> Config {
    Config::from_dirs("/home/u/.config", "/home/u/.cache", "/home/u/.local/share", "/home/u")
}

fn sourced(name: &str, version: &str, sha256: String) -> AppImageEntryWithSource {
    AppImageEntryWithSource {
        entry: AppImageEntry {
            name: name.to_string(),
            version: version.to_string(),
            file: format!("{}.AppImage", name),
            sha256,
            size: None,
            description: None,
            dependencies: Vec::new(),
            provides: Vec::new(),
        },
        source_url: "https://example.com/repo/apps.yaml".to_string(),
    }
}

#[test]
fn config_layout_is_derived_from_the_base_directories() {
    let c = config();
    assert_eq!(c.config_dir, "/home/u/.config/aipkg");
    assert_eq!(c.cache_dir, "/home/u/.cache/aipkg");
    assert_eq!(c.appimages_dir, "/home/u/.local/share/aipkg/appimages");
    assert_eq!(c.desktop_files_dir, "/home/u/.local/share/applications");
    assert_eq!(c.bin_dir, "/home/u/.local/bin");
    assert_eq!(c.sources_file, "/home/u/.config/aipkg/sources.yaml");
    assert_eq!(c.collectives_file, "/home/u/.config/aipkg/collectives.yaml");
    assert_eq!(c.unified_index_cache, "/home/u/.cache/aipkg/unified_index.yaml");
    assert_eq!(c.database_file, "/home/u/.config/aipkg/database.yaml");
}

#[test]
fn download_url_resolves_against_the_source_manifest() {
    let e = sourced("app", "1.0.0", "d".repeat(64));
    let url = resolve_download_url(&e).unwrap();
    assert_eq!(url, "https://example.com/repo/app.AppImage");
}

#[test]
fn download_url_fails_when_the_base_cannot_carry_a_relative_path() {
    let mut e = sourced("app", "1.0.0", "d".repeat(64));
    e.source_url = "mailto:user@example.com".to_string();
    assert!(resolve_download_url(&e).is_none());
}

#[test]
fn hash_mismatch_yields_no_plan() {
    let c = config();
    let e = sourced("app", "1.0.0", "0".repeat(64));
    let r = plan_install(&c, &e, b"downloaded bytes", "2024-01-01T00:00:00Z".to_string());
    match r {
        Err(InstallError::HashMismatch { name }) => assert_eq!(name, "app"),
        _ => panic!("expected a hash mismatch"),
    }
}

#[test]
fn a_matching_hash_yields_the_full_plan() {
    let c = config();
    let data = b"downloaded bytes";
    let e = sourced("app", "1.0.0", calculate_sha256_bytes(data));
    let plan = plan_install(&c, &e, data, "2024-01-01T00:00:00Z".to_string()).unwrap();
    assert_eq!(plan.install_dir, "/home/u/.local/share/aipkg/appimages/app/1.0.0");
    assert_eq!(plan.artifact_path, "/home/u/.local/share/aipkg/appimages/app/1.0.0/app.AppImage");
    assert_eq!(plan.desktop_file, "/home/u/.local/share/applications/app.desktop");
    assert_eq!(plan.symlink, "/home/u/.local/bin/app");
    assert_eq!(plan.record.name, "app");
    assert_eq!(plan.record.version, "1.0.0");
    assert_eq!(plan.record.path, plan.artifact_path);
    assert_eq!(plan.record.installed_at, "2024-01-01T00:00:00Z");
}

#[test]
fn uppercase_declared_hash_still_verifies() {
    let c = config();
    let data = b"payload";
    let e = sourced("app", "1.0.0", calculate_sha256_bytes(data).to_uppercase());
    assert!(plan_install(&c, &e, data, "t".to_string()).is_ok());
}

fn installed(name: &str) -> InstalledPackage {
    InstalledPackage {
        name: name.to_string(),
        version: "1.0.0".to_string(),
        path: format!("/data/aipkg/appimages/{}/1.0.0/{}.AppImage", name, name),
        desktop_file: format!("/data/applications/{}.desktop", name),
        symlink: format!("/home/u/.local/bin/{}", name),
        installed_at: "2024-01-01T00:00:00Z".to_string(),
    }
}

#[test]
fn uninstall_plan_names_every_piece_and_clears_the_record() {
    let mut db = PackageDatabase::new();
    db.add_package(installed("app"));
    let plan = plan_uninstall(&mut db, "app").unwrap();
    assert_eq!(plan.remove_dir, "/data/aipkg/appimages/app/1.0.0");
    assert_eq!(plan.desktop_file, "/data/applications/app.desktop");
    assert_eq!(plan.symlink, "/home/u/.local/bin/app");
    assert_eq!(plan.record.name, "app");
    assert!(db.get_package("app").is_none());
}

#[test]
fn uninstalling_an_unknown_name_is_refused() {
    let mut db = PackageDatabase::new();
    db.add_package(installed("other"));
    match plan_uninstall(&mut db, "app") {
        Err(UninstallError::NotFound { name }) => assert_eq!(name, "app"),
        _ => panic!("expected not-found"),
    }
    assert!(db.get_package("other").is_some());
}

#[test]
fn upgrade_requires_a_strictly_newer_parsed_version() {
    assert!(needs_upgrade("1.0.0", "1.2.0"));
    assert!(!needs_upgrade("1.2.0", "1.2.0"));
    assert!(!needs_upgrade("1.2.0", "1.0.0"));
    assert!(!needs_upgrade("latest", "1.0.0"));
    assert!(!needs_upgrade("1.0.0", "latest"));
}

#[test]
fn database_records_replace_by_name_and_round_trip() {
    let mut db = PackageDatabase::new();
    db.add_package(installed("a"));
    db.add_package(installed("b"));
    let mut newer = installed("a");
    newer.version = "2.0.0".to_string();
    db.add_package(newer);
    assert_eq!(db.list_packages().len(), 2);
    assert_eq!(db.get_package("a").unwrap().version, "2.0.0");
    let text = db.to_string().unwrap();
    let back = PackageDatabase::from_str(&text).unwrap();
    assert_eq!(back.list_packages().len(), 2);
    assert_eq!(back.get_package("a").unwrap().version, "2.0.0");
    assert_eq!(back.get_package("b").unwrap().symlink, "/home/u/.local/bin/b");
}

#[test]
fn empty_database_text_parses_to_an_empty_database() {
    let db = PackageDatabase::from_str("").unwrap();
    assert!(db.list_packages().is_empty());
}

#[test]
fn desktop_file_content_lists_every_field() {
    let cats = vec!["Utility".to_string(), "Development".to_string()];
    let text = desktop_file_content(
        "App",
        "/opt/app.AppImage",
        "/opt/icon.png",
        &cats,
        "Does things",
    );
    assert_eq!(
        text,
        "[Desktop Entry]\nType=Application\nName=App\nExec=/opt/app.AppImage\n\
         Icon=/opt/icon.png\nCategories=Utility;Development\nComment=Does things\n\
         Terminal=false\nStartupNotify=true\n"
    );
}

#[test]
fn desktop_entry_marker_is_found_in_binary_data() {
    let mut data = vec![0u8, 1, 2, 3];
    data.extend_from_slice(b"[Desktop Entry]\nName=Foo\n");
    assert_eq!(find_desktop_entry_start(&data), Some(4));
    let fallback = b"zzzX-AppImage-Version".to_vec();
    assert_eq!(find_desktop_entry_start(&fallback), Some(3));
    assert_eq!(find_desktop_entry_start(b"nothing here"), None);
}

#[test]
fn desktop_section_ends_at_the_next_group() {
    let data = b"junk[Desktop Entry]\nName=Foo\nExec=foo\n[Other]\nX=1".to_vec();
    let section = extract_desktop_content(&data).unwrap();
    assert_eq!(section, "[Desktop Entry]\nName=Foo\nExec=foo");
    assert_eq!(extract_desktop_content(b"no section"), None);
}

#[test]
fn desktop_entry_lines_are_parsed_with_trimming_and_comments() {
    let content = "[Desktop Entry]\n# a comment\nName = My App \nVersion=2.1\n\
                   Comment=Nice\nExec=/bin/app\nIcon=appicon\n\
                   Categories= Utility ; ;Development;\nUnknown=skipped\n";
    let e = parse_desktop_entry(content);
    assert_eq!(e.name.as_deref(), Some("My App"));
    assert_eq!(e.version.as_deref(), Some("2.1"));
    assert_eq!(e.comment.as_deref(), Some("Nice"));
    assert_eq!(e.exec_cmd.as_deref(), Some("/bin/app"));
    assert_eq!(e.icon.as_deref(), Some("appicon"));
    assert_eq!(
        e.categories.as_ref().unwrap(),
        &vec!["Utility".to_string(), "Development".to_string()]
    );
}

#[test]
fn metadata_falls_back_to_the_file_name() {
    let e = parse_desktop_entry("no keys here");
    let m = build_metadata(e, "fallback".to_string(), 42);
    assert_eq!(m.name, "fallback");
    assert_eq!(m.size, 42);
    assert!(m.categories.is_empty());
}

#[test]
fn filename_version_prefers_the_dotted_triple() {
    assert_eq!(extract_version_from_filename("app-1.2.3.AppImage"), "1.2.3");
    assert_eq!(extract_version_from_filename("app-v1.22.3-x86_64.AppImage"), "1.22.3");
    assert_eq!(extract_version_from_filename("app-2.5.AppImage"), "2.5");
    assert_eq!(extract_version_from_filename("plain.AppImage"), "unknown");
}

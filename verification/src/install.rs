//! Install and uninstall planning: the decisions of the install
//! transaction, made before any filesystem effect.
//!
//! The one all-or-nothing boundary of the pipeline sits here: a download
//! whose hash does not match the manifest's declared hash yields no plan,
//! so the caller — which only ever writes what a plan names — creates no
//! directory, no desktop file, no symlink and no database record for it.

use vstd::prelude::*;
use vstd::string::StrSliceExecFns;
use vstd::string::StringExecFns;
use crate::config::{join_path, joined, Config};
use crate::database::{db_lookup, InstalledPackage, PackageDatabase};
use crate::entry::AppImageEntryWithSource;
use crate::hashing::{ascii_lower, sha256_of, spec_hex_lower, verify_sha256_bytes};
use crate::text::spec_join_lines;
use crate::urlutil::{resolve_relative_url, url_join_of, url_join_ok};
use crate::version::{spec_parse_version, version_lt, parse_version, version_lt_exec};

verus! {

/// Why an install is refused before anything is written.
#[derive(Debug)]
pub enum InstallError {
    /// The downloaded bytes do not hash to the declared content hash.
    HashMismatch { name: String },
}

/// Everything the install transaction will write, and where.
pub struct InstallPlan {
    pub install_dir: String,
    pub artifact_path: String,
    pub desktop_file: String,
    pub symlink: String,
    pub record: InstalledPackage,
}

/// The absolute location of an entry's artifact: the artifact reference
/// resolved against the source manifest's location.
pub fn resolve_download_url(entry: &AppImageEntryWithSource) -> (r: Option<String>)
    ensures
        r is Some <==> url_join_ok(entry@.source_url, entry@.entry.file),
        match r {
            Some(u) => u@ == url_join_of(entry@.source_url, entry@.entry.file),
            None => true,
        },
{
    resolve_relative_url(entry.source_url.as_str(), entry.entry.file.as_str())
}

/// The versioned directory an entry installs into.
pub open spec fn spec_install_dir(c: crate::config::ConfigV, name: Seq<char>, version: Seq<char>)
    -> Seq<char> {
    joined(joined(c.appimages_dir, name), version)
}

/// The artifact file inside the install directory.
pub open spec fn spec_artifact_path(c: crate::config::ConfigV, name: Seq<char>, version: Seq<char>)
    -> Seq<char> {
    joined(spec_install_dir(c, name, version), name + ".AppImage"@)
}

pub open spec fn spec_desktop_path(c: crate::config::ConfigV, name: Seq<char>) -> Seq<char> {
    joined(c.desktop_files_dir, name + ".desktop"@)
}

pub open spec fn spec_symlink_path(c: crate::config::ConfigV, name: Seq<char>) -> Seq<char> {
    joined(c.bin_dir, name)
}

/// True when the downloaded bytes carry the declared hash, compared in
/// lowercase hexadecimal, case-insensitively in the declared text.
pub open spec fn data_matches_hash(data: Seq<u8>, declared: Seq<char>) -> bool {
    spec_hex_lower(sha256_of(data)) == ascii_lower(declared)
}

/// Verifies the download and lays out the install: the plan exists exactly
/// when the bytes hash to the entry's declared hash, and nothing is
/// written before a plan exists.
pub fn plan_install(
    config: &Config,
    entry: &AppImageEntryWithSource,
    data: &[u8],
    installed_at: String,
) -> (r: Result<InstallPlan, InstallError>)
    ensures
        r is Ok <==> data_matches_hash(data@, entry@.entry.sha256),
        match r {
            Ok(plan) => {
                &&& plan.install_dir@ == spec_install_dir(
                    config@,
                    entry@.entry.name,
                    entry@.entry.version,
                )
                &&& plan.artifact_path@ == spec_artifact_path(
                    config@,
                    entry@.entry.name,
                    entry@.entry.version,
                )
                &&& plan.desktop_file@ == spec_desktop_path(config@, entry@.entry.name)
                &&& plan.symlink@ == spec_symlink_path(config@, entry@.entry.name)
                &&& plan.record@.name == entry@.entry.name
                &&& plan.record@.version == entry@.entry.version
                &&& plan.record@.path == plan.artifact_path@
                &&& plan.record@.desktop_file == plan.desktop_file@
                &&& plan.record@.symlink == plan.symlink@
                &&& plan.record@.installed_at == installed_at@
            },
            Err(e) => e matches InstallError::HashMismatch { name } && name@
                == entry@.entry.name,
        },
{
    if !verify_sha256_bytes(data, entry.entry.sha256.as_str()) {
        return Err(InstallError::HashMismatch { name: entry.entry.name.clone() });
    }
    let install_dir = {
        let d = join_path(config.appimages_dir.as_str(), entry.entry.name.as_str());
        join_path(d.as_str(), entry.entry.version.as_str())
    };
    let mut artifact_name = entry.entry.name.clone();
    artifact_name.append(".AppImage");
    proof {
        reveal_strlit(".AppImage");
    }
    let artifact_path = join_path(install_dir.as_str(), artifact_name.as_str());
    let mut desktop_name = entry.entry.name.clone();
    desktop_name.append(".desktop");
    proof {
        reveal_strlit(".desktop");
    }
    let desktop_file = join_path(config.desktop_files_dir.as_str(), desktop_name.as_str());
    let symlink = join_path(config.bin_dir.as_str(), entry.entry.name.as_str());
    let record = InstalledPackage {
        name: entry.entry.name.clone(),
        version: entry.entry.version.clone(),
        path: artifact_path.clone(),
        desktop_file: desktop_file.clone(),
        symlink: symlink.clone(),
        installed_at,
    };
    Ok(InstallPlan { install_dir, artifact_path, desktop_file, symlink, record })
}

/// The desktop-integration file written for an installed artifact.
pub open spec fn spec_desktop_lines(
    name: Seq<char>,
    exec: Seq<char>,
    icon: Seq<char>,
    categories: Seq<char>,
    comment: Seq<char>,
) -> Seq<Seq<char>> {
    seq![
        "[Desktop Entry]"@,
        "Type=Application"@,
        "Name="@ + name,
        "Exec="@ + exec,
        "Icon="@ + icon,
        "Categories="@ + categories,
        "Comment="@ + comment,
        "Terminal=false"@,
        "StartupNotify=true"@,
    ]
}

/// The semicolon-separated form of a category list.
pub open spec fn spec_join_semi(items: Seq<Seq<char>>) -> Seq<char>
    decreases items.len(),
{
    if items.len() == 0 {
        Seq::empty()
    } else if items.len() == 1 {
        items[0]
    } else {
        items[0] + seq![';'] + spec_join_semi(items.skip(1))
    }
}

proof fn lemma_join_semi_snoc(iv: Seq<Seq<char>>, k: int)
    requires
        1 <= k < iv.len(),
    ensures
        spec_join_semi(iv.take(k + 1)) == spec_join_semi(iv.take(k)) + seq![';'] + iv[k],
    decreases k,
{
    if k == 1 {
        assert(iv.take(2)[0] == iv[0]);
        assert(iv.take(2).skip(1) =~= seq![iv[1]]);
        assert(spec_join_semi(seq![iv[1]]) == iv[1]);
        assert(iv.take(1) =~= seq![iv[0]]);
        assert(spec_join_semi(iv.take(2)) =~= spec_join_semi(iv.take(1)) + seq![';'] + iv[1]);
    } else {
        lemma_join_semi_snoc(iv.skip(1), k - 1);
        assert(iv.take(k + 1)[0] == iv[0]);
        assert(iv.take(k)[0] == iv[0]);
        assert(iv.take(k + 1).skip(1) =~= iv.skip(1).take(k));
        assert(iv.take(k).skip(1) =~= iv.skip(1).take(k - 1));
        assert(iv.skip(1)[k - 1] == iv[k]);
        assert(spec_join_semi(iv.take(k + 1)) == iv[0] + seq![';'] + spec_join_semi(
            iv.skip(1).take(k),
        ));
        assert(spec_join_semi(iv.take(k)) == iv[0] + seq![';'] + spec_join_semi(
            iv.skip(1).take(k - 1),
        ));
        assert(iv[0] + seq![';'] + (spec_join_semi(iv.skip(1).take(k - 1)) + seq![';'] + iv[k])
            =~= (iv[0] + seq![';'] + spec_join_semi(iv.skip(1).take(k - 1))) + seq![';'] + iv[k]);
    }
}

/// Joins category names with semicolons.
pub fn join_semi(items: &Vec<String>) -> (r: String)
    ensures
        r@ == spec_join_semi(items.deep_view()),
{
    let ghost iv = items.deep_view();
    let mut out = String::new();
    let mut i: usize = 0;
    while i < items.len()
        invariant
            i <= items.len(),
            iv == items.deep_view(),
            iv.len() == items.len(),
            i == 0 ==> out@ == Seq::<char>::empty(),
            i > 0 ==> out@ == spec_join_semi(iv.take(i as int)),
        decreases items.len() - i,
    {
        if i > 0 {
            out.append(";");
        }
        out.append(items[i].as_str());
        proof {
            reveal_strlit(";");
            assert(";"@ =~= seq![';']);
            if i == 0 {
                assert(iv.take(1) =~= seq![iv[0]]);
                assert(spec_join_semi(seq![iv[0]]) == iv[0]);
                assert(out@ =~= spec_join_semi(iv.take(1)));
            } else {
                lemma_join_semi_snoc(iv, i as int);
                assert(out@ =~= spec_join_semi(iv.take(i as int)) + seq![';'] + iv[i as int]);
            }
        }
        i = i + 1;
    }
    proof {
        if iv.len() == 0 {
            assert(out@ =~= spec_join_semi(iv));
        } else {
            assert(iv.take(iv.len() as int) =~= iv);
        }
    }
    out
}

/// The full text of the desktop-integration file.
pub fn desktop_file_content(
    name: &str,
    exec: &str,
    icon: &str,
    categories: &Vec<String>,
    comment: &str,
) -> (r: String)
    ensures
        r@ == spec_join_lines(
            spec_desktop_lines(
                name@,
                exec@,
                icon@,
                spec_join_semi(categories.deep_view()),
                comment@,
            ),
        ),
{
    let cats = join_semi(categories);
    let mut lines: Vec<String> = Vec::new();
    lines.push(lit_line("[Desktop Entry]"));
    lines.push(lit_line("Type=Application"));
    lines.push(field_line("Name=", name));
    lines.push(field_line("Exec=", exec));
    lines.push(field_line("Icon=", icon));
    lines.push(field_line("Categories=", cats.as_str()));
    lines.push(field_line("Comment=", comment));
    lines.push(lit_line("Terminal=false"));
    lines.push(lit_line("StartupNotify=true"));
    proof {
        reveal_strlit("[Desktop Entry]");
        reveal_strlit("Type=Application");
        reveal_strlit("Name=");
        reveal_strlit("Exec=");
        reveal_strlit("Icon=");
        reveal_strlit("Categories=");
        reveal_strlit("Comment=");
        reveal_strlit("Terminal=false");
        reveal_strlit("StartupNotify=true");
        assert(lines.deep_view() =~= spec_desktop_lines(
            name@,
            exec@,
            icon@,
            spec_join_semi(categories.deep_view()),
            comment@,
        ));
    }
    crate::text::join_lines(&lines)
}

fn lit_line(l: &str) -> (r: String)
    ensures
        r@ == l@,
{
    let mut s = String::new();
    s.append(l);
    proof {
        assert(s@ =~= l@);
    }
    s
}

fn field_line(pfx: &str, v: &str) -> (r: String)
    ensures
        r@ == pfx@ + v@,
{
    let mut s = String::new();
    s.append(pfx);
    s.append(v);
    proof {
        assert(s@ =~= pfx@ + v@);
    }
    s
}

// --- Uninstall -------------------------------------------------------------

/// Why an uninstall is refused.
#[derive(Debug)]
pub enum UninstallError {
    /// No record of the name exists: nothing is removed.
    NotFound { name: String },
    /// The recorded artifact path names no parent directory.
    InvalidPath { path: String },
}

/// Everything an uninstall removes.
pub struct UninstallPlan {
    pub remove_dir: String,
    pub desktop_file: String,
    pub symlink: String,
    pub record: InstalledPackage,
}

/// The position after the last path separator, or nothing when the path
/// has none.
pub open spec fn last_slash(s: Seq<char>) -> Option<int>
    decreases s.len(),
{
    if s.len() == 0 {
        None
    } else if s.last() == '/' {
        Some(s.len() - 1)
    } else {
        last_slash(s.drop_last())
    }
}

/// The directory part of a path with a separator.
pub open spec fn spec_parent_dir(s: Seq<char>) -> Seq<char> {
    s.take(last_slash(s).unwrap())
}

/// The directory part of a path, or nothing when it has no separator.
pub fn parent_dir(path: &str) -> (r: Option<String>)
    ensures
        r is Some <==> last_slash(path@) is Some,
        match r {
            Some(p) => p@ == spec_parent_dir(path@),
            None => true,
        },
{
    let len = path.unicode_len();
    let mut i: usize = len;
    proof {
        assert(path@.take(len as int) =~= path@);
    }
    while i > 0
        invariant
            i <= len,
            len == path@.len(),
            last_slash(path@) == last_slash(path@.take(i as int)),
            forall|j: int| i <= j < len ==> path@[j] != '/',
        decreases i,
    {
        proof {
            let t = path@.take(i as int);
            assert(t.last() == path@[i - 1]);
            assert(t.drop_last() =~= path@.take(i as int - 1));
        }
        if path.get_char(i - 1) == '/' {
            proof {
                assert(last_slash(path@) == Some(i - 1));
            }
            let p = path.substring_char(0, i - 1).to_owned();
            proof {
                assert(p@ =~= path@.take(i as int - 1));
            }
            return Some(p);
        }
        i = i - 1;
    }
    proof {
        assert(path@.take(0).len() == 0);
        assert(last_slash(path@) is None);
    }
    None
}

/// Removes a package's record and lays out what to delete: its install
/// directory (the artifact's parent), its desktop file, and its symlink.
/// A name with no record is refused, with the database untouched.
pub fn plan_uninstall(db: &mut PackageDatabase, name: &str) -> (r: Result<
    UninstallPlan,
    UninstallError,
>)
    ensures
        match r {
            Ok(plan) => {
                &&& db_lookup(old(db)@, name@) == Some(plan.record@)
                &&& final(db)@ == old(db)@.filter(|p: crate::database::InstalledPackageV| p.name
                    != name@)
                &&& plan.remove_dir@ == spec_parent_dir(plan.record@.path)
                &&& plan.desktop_file@ == plan.record@.desktop_file
                &&& plan.symlink@ == plan.record@.symlink
            },
            Err(UninstallError::NotFound { name: n }) => {
                &&& db_lookup(old(db)@, name@) is None
                &&& final(db)@ == old(db)@
                &&& n@ == name@
            },
            Err(UninstallError::InvalidPath { path }) => {
                &&& db_lookup(old(db)@, name@) matches Some(p) && p.path == path@ && last_slash(
                    p.path,
                ) is None
                &&& final(db)@ == old(db)@
            },
        },
{
    let (record_path, found) = match db.get_package(name) {
        Some(p) => (p.path.clone(), true),
        None => (String::new(), false),
    };
    if !found {
        let mut n = String::new();
        n.append(name);
        proof {
            assert(n@ =~= name@);
        }
        return Err(UninstallError::NotFound { name: n });
    }
    let remove_dir = match parent_dir(record_path.as_str()) {
        Some(d) => d,
        None => {
            return Err(UninstallError::InvalidPath { path: record_path });
        },
    };
    let record = match db.remove_package(name) {
        Some(p) => p,
        None => {
            proof {
                assert(false);
            }
            unreached()
        },
    };
    let desktop_file = record.desktop_file.clone();
    let symlink = record.symlink.clone();
    Ok(UninstallPlan { remove_dir, desktop_file, symlink, record })
}

/// True when the installed version and the candidate both parse and the
/// candidate ranks strictly higher: the upgrade test.
pub fn needs_upgrade(installed: &str, candidate: &str) -> (r: bool)
    ensures
        r == match (spec_parse_version(installed@), spec_parse_version(candidate@)) {
            (Some(a), Some(b)) => version_lt(a, b),
            _ => false,
        },
{
    let a = parse_version(installed);
    let b = parse_version(candidate);
    match (a, b) {
        (Some(x), Some(y)) => version_lt_exec(&x, &y),
        _ => false,
    }
}

} // verus!

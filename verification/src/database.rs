//! The installed-package database: the sole record of what is installed,
//! loaded whole, mutated, and rewritten whole.

use vstd::prelude::*;
use vstd::string::StrSliceExecFns;
use crate::manifest::{p_name, p_version, starts, val_of, ParseError, UnserializableError};
use crate::text::{
    join_lines, no_newline, spec_join_lines, spec_split_lines, split_lines, str_eq,
    str_has_prefix, str_no_newline, str_suffix,
};

verus! {

/// One installed package: where its pieces live and when it arrived.
pub struct InstalledPackage {
    pub name: String,
    pub version: String,
    pub path: String,
    pub desktop_file: String,
    pub symlink: String,
    pub installed_at: String,
}

/// The mathematical value of an installed-package record.
#[verifier::ext_equal]
pub ghost struct InstalledPackageV {
    pub name: Seq<char>,
    pub version: Seq<char>,
    pub path: Seq<char>,
    pub desktop_file: Seq<char>,
    pub symlink: Seq<char>,
    pub installed_at: Seq<char>,
}

impl View for InstalledPackage {
    type V = InstalledPackageV;

    open spec fn view(&self) -> InstalledPackageV {
        InstalledPackageV {
            name: self.name@,
            version: self.version@,
            path: self.path@,
            desktop_file: self.desktop_file@,
            symlink: self.symlink@,
            installed_at: self.installed_at@,
        }
    }
}

impl DeepView for InstalledPackage {
    type V = InstalledPackageV;

    open spec fn deep_view(&self) -> InstalledPackageV {
        self.view()
    }
}

impl InstalledPackage {
    /// A structurally equal copy of the record.
    pub fn duplicate(&self) -> (r: Self)
        ensures
            r@ == self@,
    {
        let r = InstalledPackage {
            name: self.name.clone(),
            version: self.version.clone(),
            path: self.path.clone(),
            desktop_file: self.desktop_file.clone(),
            symlink: self.symlink.clone(),
            installed_at: self.installed_at.clone(),
        };
        proof {
            assert(r@ =~= self@);
        }
        r
    }
}

/// The database: one record per installed package name.
pub struct PackageDatabase {
    pub packages: Vec<InstalledPackage>,
}

impl View for PackageDatabase {
    type V = Seq<InstalledPackageV>;

    open spec fn view(&self) -> Seq<InstalledPackageV> {
        self.packages.deep_view()
    }
}

/// The first record under this name.
pub open spec fn db_lookup(pkgs: Seq<InstalledPackageV>, name: Seq<char>) -> Option<
    InstalledPackageV,
>
    decreases pkgs.len(),
{
    if pkgs.len() == 0 {
        None
    } else if pkgs[0].name == name {
        Some(pkgs[0])
    } else {
        db_lookup(pkgs.skip(1), name)
    }
}

/// The records with this package set: its first record replaced, or a new
/// record appended.
pub open spec fn db_upsert(pkgs: Seq<InstalledPackageV>, pkg: InstalledPackageV) -> Seq<
    InstalledPackageV,
>
    decreases pkgs.len(),
{
    if pkgs.len() == 0 {
        seq![pkg]
    } else if pkgs[0].name == pkg.name {
        seq![pkg] + pkgs.skip(1)
    } else {
        seq![pkgs[0]] + db_upsert(pkgs.skip(1), pkg)
    }
}

impl PackageDatabase {
    /// An empty database.
    pub fn new() -> (r: Self)
        ensures
            r@.len() == 0,
    {
        PackageDatabase { packages: Vec::new() }
    }

    /// Records a package, replacing any record under the same name.
    pub fn add_package(&mut self, pkg: InstalledPackage)
        ensures
            final(self)@ == db_upsert(old(self)@, pkg@),
    {
        let ghost orig = self@;
        let mut i: usize = 0;
        while i < self.packages.len()
            invariant
                i <= self.packages.len(),
                orig == self@,
                orig == old(self)@,
                orig.len() == self.packages.len(),
                forall|j: int| 0 <= j < i ==> (#[trigger] orig[j]).name != pkg@.name,
            decreases self.packages.len() - i,
        {
            if str_eq(self.packages[i].name.as_str(), pkg.name.as_str()) {
                let ghost va = self@;
                let _ = self.packages.remove(i);
                let ghost vb = self@;
                self.packages.insert(i, pkg);
                proof {
                    assert(vb =~= va.remove(i as int));
                    assert(self@ =~= vb.insert(i as int, self@[i as int]));
                    assert(forall|j: int| 0 <= j < i ==> self@[j] == #[trigger] orig[j]);
                    assert(forall|j: int|
                        i < j < self@.len() ==> self@[j] == vb[j - 1] && vb[j - 1]
                            == #[trigger] orig[j]);
                    lemma_db_upsert_at(orig, self@[i as int], i as int);
                    assert(self@ =~= orig.update(i as int, self@[i as int]));
                }
                return ;
            }
            i = i + 1;
        }
        let ghost pre = self@;
        self.packages.push(pkg);
        proof {
            lemma_db_upsert_missing(orig, self@.last());
            assert(self@ =~= pre.push(self@.last()));
        }
    }

    /// Removes the records under this name; yields the first removed
    /// record, or nothing when the name is not installed.
    pub fn remove_package(&mut self, name: &str) -> (r: Option<InstalledPackage>)
        ensures
            final(self)@ == old(self)@.filter(|p: InstalledPackageV| p.name != name@),
            match r {
                Some(p) => db_lookup(old(self)@, name@) == Some(p@),
                None => db_lookup(old(self)@, name@) is None,
            },
    {
        let ghost orig = self@;
        let mut kept: Vec<InstalledPackage> = Vec::new();
        let mut removed: Option<InstalledPackage> = None;
        let mut i: usize = 0;
        proof {
            assert(orig.take(0) =~= Seq::<InstalledPackageV>::empty());
            assert(kept.deep_view() =~= orig.take(0).filter(
                |p: InstalledPackageV| p.name != name@,
            ));
            assert(orig.skip(0) =~= orig);
        }
        while i < self.packages.len()
            invariant
                i <= self.packages.len(),
                orig == self@,
                orig == old(self)@,
                orig.len() == self.packages.len(),
                kept.deep_view() == orig.take(i as int).filter(
                    |p: InstalledPackageV| p.name != name@,
                ),
                match removed {
                    Some(p) => db_lookup(orig, name@) == Some(p@),
                    None => db_lookup(orig, name@) == db_lookup(orig.skip(i as int), name@),
                },
            decreases self.packages.len() - i,
        {
            let ghost prevkept = kept.deep_view();
            proof {
                assert(orig.skip(i as int)[0] == orig[i as int]);
                assert(orig.skip(i as int).skip(1) =~= orig.skip(i as int + 1));
            }
            let hit = str_eq(self.packages[i].name.as_str(), name);
            if hit {
                if removed.is_none() {
                    removed = Some(self.packages[i].duplicate());
                }
            } else {
                kept.push(self.packages[i].duplicate());
            }
            proof {
                let p = |p: InstalledPackageV| p.name != name@;
                reveal(Seq::filter);
                let t = orig.take(i as int + 1);
                assert(t.drop_last() =~= orig.take(i as int));
                assert(t.last() == orig[i as int]);
                if !hit {
                    assert(kept.deep_view() =~= prevkept.push(orig[i as int]));
                }
                assert(kept.deep_view() =~= orig.take(i as int + 1).filter(p));
            }
            i = i + 1;
        }
        proof {
            assert(orig.take(orig.len() as int) =~= orig);
            if removed is None {
                assert(orig.skip(i as int).len() == 0);
            }
        }
        self.packages = kept;
        removed
    }

    /// The record under this name, if the package is installed.
    pub fn get_package(&self, name: &str) -> (r: Option<&InstalledPackage>)
        ensures
            match r {
                Some(p) => db_lookup(self@, name@) == Some(p@),
                None => db_lookup(self@, name@) is None,
            },
    {
        let ghost orig = self@;
        let mut i: usize = 0;
        proof {
            assert(orig.skip(0) =~= orig);
        }
        while i < self.packages.len()
            invariant
                i <= self.packages.len(),
                orig == self@,
                orig.len() == self.packages.len(),
                db_lookup(orig, name@) == db_lookup(orig.skip(i as int), name@),
            decreases self.packages.len() - i,
        {
            proof {
                assert(orig.skip(i as int)[0] == orig[i as int]);
                assert(orig.skip(i as int).skip(1) =~= orig.skip(i as int + 1));
            }
            if str_eq(self.packages[i].name.as_str(), name) {
                return Some(&self.packages[i]);
            }
            i = i + 1;
        }
        proof {
            assert(orig.skip(i as int).len() == 0);
        }
        None
    }

    /// Every record, in insertion order.
    pub fn list_packages(&self) -> (r: Vec<InstalledPackage>)
        ensures
            r.deep_view() == self@,
    {
        let mut out: Vec<InstalledPackage> = Vec::new();
        let mut i: usize = 0;
        while i < self.packages.len()
            invariant
                i <= self.packages.len(),
                out@.len() == i,
                forall|j: int| 0 <= j < i ==> out.deep_view()[j] == self@[j],
            decreases self.packages.len() - i,
        {
            out.push(self.packages[i].duplicate());
            i = i + 1;
        }
        proof {
            assert(out.deep_view() =~= self@);
        }
        out
    }
}

proof fn lemma_db_upsert_at(pkgs: Seq<InstalledPackageV>, pkg: InstalledPackageV, i: int)
    requires
        0 <= i < pkgs.len(),
        pkgs[i].name == pkg.name,
        forall|j: int| 0 <= j < i ==> (#[trigger] pkgs[j]).name != pkg.name,
    ensures
        db_upsert(pkgs, pkg) == pkgs.update(i, pkg),
    decreases i,
{
    if i == 0 {
        assert(db_upsert(pkgs, pkg) =~= pkgs.update(0, pkg));
    } else {
        assert(pkgs[0].name != pkg.name);
        assert(forall|j: int| 0 <= j < i - 1 ==> (#[trigger] pkgs.skip(1)[j]).name != pkg.name);
        lemma_db_upsert_at(pkgs.skip(1), pkg, i - 1);
        assert(db_upsert(pkgs, pkg) =~= pkgs.update(i, pkg));
    }
}

proof fn lemma_db_upsert_missing(pkgs: Seq<InstalledPackageV>, pkg: InstalledPackageV)
    requires
        forall|j: int| 0 <= j < pkgs.len() ==> (#[trigger] pkgs[j]).name != pkg.name,
    ensures
        db_upsert(pkgs, pkg) == pkgs.push(pkg),
    decreases pkgs.len(),
{
    if pkgs.len() == 0 {
        assert(db_upsert(pkgs, pkg) =~= pkgs.push(pkg));
    } else {
        assert(forall|j: int|
            0 <= j < pkgs.len() - 1 ==> (#[trigger] pkgs.skip(1)[j]).name != pkg.name);
        lemma_db_upsert_missing(pkgs.skip(1), pkg);
        assert(db_upsert(pkgs, pkg) =~= pkgs.push(pkg));
    }
}

// --- Persisted form --------------------------------------------------------

pub open spec fn h_packages() -> Seq<char> {
    seq!['p', 'a', 'c', 'k', 'a', 'g', 'e', 's', ':']
}

pub open spec fn p_path() -> Seq<char> {
    seq![' ', ' ', 'p', 'a', 't', 'h', ':', ' ']
}

pub open spec fn p_desktop() -> Seq<char> {
    seq![' ', ' ', 'd', 'e', 's', 'k', 't', 'o', 'p', '_', 'f', 'i', 'l', 'e', ':', ' ']
}

pub open spec fn p_symlink() -> Seq<char> {
    seq![' ', ' ', 's', 'y', 'm', 'l', 'i', 'n', 'k', ':', ' ']
}

pub open spec fn p_installed() -> Seq<char> {
    seq![' ', ' ', 'i', 'n', 's', 't', 'a', 'l', 'l', 'e', 'd', '_', 'a', 't', ':', ' ']
}

/// The six lines of one serialized record.
pub open spec fn package_record_lines(p: InstalledPackageV) -> Seq<Seq<char>> {
    seq![
        p_name() + p.name,
        p_version() + p.version,
        p_path() + p.path,
        p_desktop() + p.desktop_file,
        p_symlink() + p.symlink,
        p_installed() + p.installed_at,
    ]
}

pub open spec fn package_records_lines(pkgs: Seq<InstalledPackageV>) -> Seq<Seq<char>>
    decreases pkgs.len(),
{
    if pkgs.len() == 0 {
        Seq::empty()
    } else {
        package_record_lines(pkgs[0]) + package_records_lines(pkgs.skip(1))
    }
}

pub open spec fn spec_serialize_db(pkgs: Seq<InstalledPackageV>) -> Seq<char> {
    spec_join_lines(seq![h_packages()] + package_records_lines(pkgs))
}

/// Reads one record: its six lines in order.
pub open spec fn parse_package_record(ls: Seq<Seq<char>>, i: int) -> Option<
    (InstalledPackageV, int),
> {
    if 0 <= i && i + 6 <= ls.len() && starts(ls[i], p_name()) && starts(ls[i + 1], p_version())
        && starts(ls[i + 2], p_path()) && starts(ls[i + 3], p_desktop()) && starts(
        ls[i + 4],
        p_symlink(),
    ) && starts(ls[i + 5], p_installed()) {
        Some(
            (
                InstalledPackageV {
                    name: val_of(ls[i], p_name()),
                    version: val_of(ls[i + 1], p_version()),
                    path: val_of(ls[i + 2], p_path()),
                    desktop_file: val_of(ls[i + 3], p_desktop()),
                    symlink: val_of(ls[i + 4], p_symlink()),
                    installed_at: val_of(ls[i + 5], p_installed()),
                },
                i + 6,
            ),
        )
    } else {
        None
    }
}

pub open spec fn parse_package_records(ls: Seq<Seq<char>>, i: int) -> Option<
    Seq<InstalledPackageV>,
>
    decreases ls.len() - i,
{
    if i >= ls.len() {
        Some(Seq::empty())
    } else {
        match parse_package_record(ls, i) {
            None => None,
            Some((p, j)) => if i < j <= ls.len() {
                match parse_package_records(ls, j) {
                    Some(rest) => Some(seq![p] + rest),
                    None => None,
                }
            } else {
                None
            },
        }
    }
}

/// What parsing the database yields.  An empty document is an empty
/// database.
pub open spec fn spec_parse_db(text: Seq<char>) -> Option<Seq<InstalledPackageV>> {
    let ls = spec_split_lines(text);
    if ls.len() == 0 {
        Some(Seq::empty())
    } else if ls[0] == h_packages() {
        parse_package_records(ls, 1)
    } else {
        None
    }
}

fn s_h_packages() -> (r: &'static str)
    ensures
        r@ == h_packages(),
{
    let s = "packages:";
    proof {
        reveal_strlit("packages:");
        assert(s@ =~= h_packages());
    }
    s
}

fn s_p_path() -> (r: &'static str)
    ensures
        r@ == p_path(),
{
    let s = "  path: ";
    proof {
        reveal_strlit("  path: ");
        assert(s@ =~= p_path());
    }
    s
}

fn s_p_desktop() -> (r: &'static str)
    ensures
        r@ == p_desktop(),
{
    let s = "  desktop_file: ";
    proof {
        reveal_strlit("  desktop_file: ");
        assert(s@ =~= p_desktop());
    }
    s
}

fn s_p_symlink() -> (r: &'static str)
    ensures
        r@ == p_symlink(),
{
    let s = "  symlink: ";
    proof {
        reveal_strlit("  symlink: ");
        assert(s@ =~= p_symlink());
    }
    s
}

fn s_p_installed() -> (r: &'static str)
    ensures
        r@ == p_installed(),
{
    let s = "  installed_at: ";
    proof {
        reveal_strlit("  installed_at: ");
        assert(s@ =~= p_installed());
    }
    s
}

fn s_p_name_db() -> (r: &'static str)
    ensures
        r@ == p_name(),
{
    let s = "- name: ";
    proof {
        reveal_strlit("- name: ");
        assert(s@ =~= p_name());
    }
    s
}

fn s_p_version_db() -> (r: &'static str)
    ensures
        r@ == p_version(),
{
    let s = "  version: ";
    proof {
        reveal_strlit("  version: ");
        assert(s@ =~= p_version());
    }
    s
}

/// The value of `line` under the prefix `pfx`, when the prefix matches.
fn field_of(line: &str, pfx: &str) -> (r: Option<String>)
    ensures
        match r {
            Some(v) => starts(line@, pfx@) && v@ == val_of(line@, pfx@),
            None => !starts(line@, pfx@),
        },
{
    if str_has_prefix(line, pfx) {
        proof {
            assert(pfx@.len() <= line@.len());
        }
        Some(str_suffix(line, pfx.unicode_len()))
    } else {
        None
    }
}

/// True when every field of the record fits on one line.
pub open spec fn record_one_line(p: InstalledPackageV) -> bool {
    no_newline(p.name) && no_newline(p.version) && no_newline(p.path) && no_newline(
        p.desktop_file,
    ) && no_newline(p.symlink) && no_newline(p.installed_at)
}

pub open spec fn db_one_line(pkgs: Seq<InstalledPackageV>) -> bool {
    forall|i: int| 0 <= i < pkgs.len() ==> record_one_line(#[trigger] pkgs[i])
}

impl PackageDatabase {
    /// Parses the persisted database; an empty document is an empty
    /// database.
    pub fn from_str(content: &str) -> (r: Result<PackageDatabase, ParseError>)
        ensures
            match r {
                Ok(db) => spec_parse_db(content@) == Some(db@),
                Err(_) => spec_parse_db(content@) is None,
            },
    {
        let lines = split_lines(content);
        let ghost ls = spec_split_lines(content@);
        if lines.len() == 0 {
            return Ok(PackageDatabase { packages: Vec::new() });
        }
        if !str_eq(lines[0].as_str(), s_h_packages()) {
            return Err(ParseError {});
        }
        let mut pkgs: Vec<InstalledPackage> = Vec::new();
        let mut i: usize = 1;
        proof {
            assert(pkgs.deep_view() =~= Seq::<InstalledPackageV>::empty());
            assert(Seq::<InstalledPackageV>::empty() + parse_package_records(ls, 1).unwrap_or(
                Seq::empty(),
            ) =~= parse_package_records(ls, 1).unwrap_or(Seq::empty()));
        }
        while i < lines.len()
            invariant
                1 <= i <= lines.len(),
                ls == lines.deep_view(),
                ls == spec_split_lines(content@),
                ls.len() == lines.len(),
                ls.len() > 0 && ls[0] == h_packages(),
                parse_package_records(ls, 1) == (match parse_package_records(ls, i as int) {
                    Some(rest) => Some(pkgs.deep_view() + rest),
                    None => None::<Seq<InstalledPackageV>>,
                }),
            decreases lines.len() - i,
        {
            if lines.len() - i < 6 {
                proof {
                    assert(parse_package_record(ls, i as int) is None);
                }
                return Err(ParseError {});
            }
            let name = match field_of(lines[i].as_str(), s_p_name_db()) {
                Some(v) => v,
                None => {
                    proof {
                        assert(ls[i as int] == lines@[i as int]@);
                    }
                    return Err(ParseError {});
                },
            };
            let version = match field_of(lines[i + 1].as_str(), s_p_version_db()) {
                Some(v) => v,
                None => {
                    proof {
                        assert(ls[i as int + 1] == lines@[i as int + 1]@);
                    }
                    return Err(ParseError {});
                },
            };
            let path = match field_of(lines[i + 2].as_str(), s_p_path()) {
                Some(v) => v,
                None => {
                    proof {
                        assert(ls[i as int + 2] == lines@[i as int + 2]@);
                    }
                    return Err(ParseError {});
                },
            };
            let desktop_file = match field_of(lines[i + 3].as_str(), s_p_desktop()) {
                Some(v) => v,
                None => {
                    proof {
                        assert(ls[i as int + 3] == lines@[i as int + 3]@);
                    }
                    return Err(ParseError {});
                },
            };
            let symlink = match field_of(lines[i + 4].as_str(), s_p_symlink()) {
                Some(v) => v,
                None => {
                    proof {
                        assert(ls[i as int + 4] == lines@[i as int + 4]@);
                    }
                    return Err(ParseError {});
                },
            };
            let installed_at = match field_of(lines[i + 5].as_str(), s_p_installed()) {
                Some(v) => v,
                None => {
                    proof {
                        assert(ls[i as int + 5] == lines@[i as int + 5]@);
                    }
                    return Err(ParseError {});
                },
            };
            let pkg = InstalledPackage { name, version, path, desktop_file, symlink, installed_at };
            let ghost pv = parse_package_record(ls, i as int).unwrap().0;
            proof {
                assert(pkg@ =~= pv);
            }
            pkgs.push(pkg);
            proof {
                assert(pkgs.deep_view() =~= pkgs.deep_view().take(pkgs.deep_view().len() - 1).push(
                    pv,
                ));
                assert(forall|rest: Seq<InstalledPackageV>|
                    pkgs.deep_view().take(pkgs.deep_view().len() - 1) + (seq![pv] + rest)
                        =~= pkgs.deep_view() + rest);
            }
            i = i + 6;
        }
        proof {
            assert(parse_package_records(ls, i as int) == Some(Seq::<InstalledPackageV>::empty()));
            assert(pkgs.deep_view() + Seq::<InstalledPackageV>::empty() =~= pkgs.deep_view());
        }
        Ok(PackageDatabase { packages: pkgs })
    }

    /// Serializes the database; fails exactly when a field spans a line.
    pub fn to_string(&self) -> (r: Result<String, UnserializableError>)
        ensures
            match r {
                Ok(t) => db_one_line(self@) && t@ == spec_serialize_db(self@),
                Err(_) => !db_one_line(self@),
            },
    {
        let mut i: usize = 0;
        while i < self.packages.len()
            invariant
                i <= self.packages.len(),
                forall|j: int| 0 <= j < i ==> record_one_line(#[trigger] self@[j]),
            decreases self.packages.len() - i,
        {
            let p = &self.packages[i];
            let ok = str_no_newline(p.name.as_str()) && str_no_newline(p.version.as_str())
                && str_no_newline(p.path.as_str()) && str_no_newline(p.desktop_file.as_str())
                && str_no_newline(p.symlink.as_str()) && str_no_newline(p.installed_at.as_str());
            if !ok {
                proof {
                    assert(!record_one_line(self@[i as int]));
                }
                return Err(UnserializableError {});
            }
            i = i + 1;
        }
        let mut lines: Vec<String> = Vec::new();
        lines.push(s_h_packages().to_owned());
        proof {
            assert(lines.deep_view() =~= seq![h_packages()] + package_records_lines(
                self@.take(0),
            ));
        }
        let mut k: usize = 0;
        while k < self.packages.len()
            invariant
                k <= self.packages.len(),
                lines.deep_view() == seq![h_packages()] + package_records_lines(
                    self@.take(k as int),
                ),
            decreases self.packages.len() - k,
        {
            let ghost base = lines.deep_view();
            let p = &self.packages[k];
            lines.push(mk_line(s_p_name_db(), p.name.as_str()));
            lines.push(mk_line(s_p_version_db(), p.version.as_str()));
            lines.push(mk_line(s_p_path(), p.path.as_str()));
            lines.push(mk_line(s_p_desktop(), p.desktop_file.as_str()));
            lines.push(mk_line(s_p_symlink(), p.symlink.as_str()));
            lines.push(mk_line(s_p_installed(), p.installed_at.as_str()));
            proof {
                assert(lines.deep_view() =~= base + package_record_lines(self@[k as int]));
                lemma_package_records_snoc(self@, k as int);
                assert(lines.deep_view() =~= seq![h_packages()] + package_records_lines(
                    self@.take(k as int + 1),
                ));
            }
            k = k + 1;
        }
        proof {
            assert(self@.take(self.packages.len() as int) =~= self@);
        }
        Ok(join_lines(&lines))
    }
}

/// One line made of a prefix and a value.
fn mk_line(pfx: &str, v: &str) -> (r: String)
    ensures
        r@ == pfx@ + v@,
{
    let mut l = String::new();
    l.append(pfx);
    l.append(v);
    proof {
        assert(l@ =~= pfx@ + v@);
    }
    l
}

proof fn lemma_package_records_snoc(pkgs: Seq<InstalledPackageV>, k: int)
    requires
        0 <= k < pkgs.len(),
    ensures
        package_records_lines(pkgs.take(k + 1)) == package_records_lines(pkgs.take(k))
            + package_record_lines(pkgs[k]),
    decreases k,
{
    if k == 0 {
        assert(pkgs.take(1)[0] == pkgs[0]);
        assert(pkgs.take(1).skip(1) =~= Seq::<InstalledPackageV>::empty());
        assert(pkgs.take(0) =~= Seq::<InstalledPackageV>::empty());
        assert(package_records_lines(pkgs.take(1)) =~= package_record_lines(pkgs[0])
            + package_records_lines(Seq::<InstalledPackageV>::empty()));
        assert(package_records_lines(pkgs.take(0)) + package_record_lines(pkgs[0])
            =~= package_records_lines(pkgs.take(1)));
    } else {
        lemma_package_records_snoc(pkgs.skip(1), k - 1);
        assert(pkgs.take(k + 1)[0] == pkgs[0]);
        assert(pkgs.take(k)[0] == pkgs[0]);
        assert(pkgs.take(k + 1).skip(1) =~= pkgs.skip(1).take(k));
        assert(pkgs.take(k).skip(1) =~= pkgs.skip(1).take(k - 1));
        assert(pkgs.skip(1)[k - 1] == pkgs[k]);
        assert(package_records_lines(pkgs.take(k + 1)) == package_record_lines(pkgs[0])
            + package_records_lines(pkgs.skip(1).take(k)));
        assert(package_records_lines(pkgs.take(k)) == package_record_lines(pkgs[0])
            + package_records_lines(pkgs.skip(1).take(k - 1)));
        assert(package_record_lines(pkgs[0]) + (package_records_lines(pkgs.skip(1).take(k - 1))
            + package_record_lines(pkgs[k])) =~= (package_record_lines(pkgs[0])
            + package_records_lines(pkgs.skip(1).take(k - 1))) + package_record_lines(pkgs[k]));
    }
}

} // verus!

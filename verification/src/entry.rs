//! The package-entry data model: entries, package manifests, and their
//! validation rules.

use vstd::prelude::*;

verus! {

/// One installable package entry as declared in a package manifest.
pub struct AppImageEntry {
    pub name: String,
    pub version: String,
    pub file: String,
    pub sha256: String,
    pub size: Option<u64>,
    pub description: Option<String>,
    pub dependencies: Vec<String>,
    pub provides: Vec<String>,
}

/// The mathematical value of an entry.
#[verifier::ext_equal]
pub ghost struct EntryV {
    pub name: Seq<char>,
    pub version: Seq<char>,
    pub file: Seq<char>,
    pub sha256: Seq<char>,
    pub size: Option<u64>,
    pub description: Option<Seq<char>>,
    pub dependencies: Seq<Seq<char>>,
    pub provides: Seq<Seq<char>>,
}

impl View for AppImageEntry {
    type V = EntryV;

    open spec fn view(&self) -> EntryV {
        EntryV {
            name: self.name@,
            version: self.version@,
            file: self.file@,
            sha256: self.sha256@,
            size: self.size,
            description: match self.description {
                Some(d) => Some(d@),
                None => None,
            },
            dependencies: self.dependencies.deep_view(),
            provides: self.provides.deep_view(),
        }
    }
}

impl DeepView for AppImageEntry {
    type V = EntryV;

    open spec fn deep_view(&self) -> EntryV {
        self.view()
    }
}

impl AppImageEntry {
    /// A structurally equal copy of the entry.
    pub fn duplicate(&self) -> (r: Self)
        ensures
            r@ == self@,
    {
        let r = AppImageEntry {
            name: self.name.clone(),
            version: self.version.clone(),
            file: self.file.clone(),
            sha256: self.sha256.clone(),
            size: match self.size {
                Some(n) => Some(n),
                None => None,
            },
            description: match &self.description {
                Some(d) => Some(d.clone()),
                None => None,
            },
            dependencies: clone_string_vec(&self.dependencies),
            provides: clone_string_vec(&self.provides),
        };
        proof {
            assert(r@ =~= self@);
        }
        r
    }
}

/// A structurally equal copy of a vector of strings.
pub fn clone_string_vec(v: &Vec<String>) -> (r: Vec<String>)
    ensures
        r.deep_view() == v.deep_view(),
        r@.len() == v@.len(),
{
    let mut r: Vec<String> = Vec::new();
    let mut i: usize = 0;
    while i < v.len()
        invariant
            i <= v.len(),
            r@.len() == i,
            forall|j: int| 0 <= j < i ==> r.deep_view()[j] == v.deep_view()[j],
        decreases v.len() - i,
    {
        r.push(v[i].clone());
        i = i + 1;
    }
    proof {
        assert(r.deep_view() =~= v.deep_view());
    }
    r
}

/// A package manifest: the list of entries it declares.
pub struct AppImageYaml {
    pub apps: Vec<AppImageEntry>,
}

impl View for AppImageYaml {
    type V = Seq<EntryV>;

    open spec fn view(&self) -> Seq<EntryV> {
        self.apps.deep_view()
    }
}

/// True when an entry meets the manifest invariants: a content hash of
/// exactly 64 characters and a non-empty name and version.
pub open spec fn entry_valid(e: EntryV) -> bool {
    e.sha256.len() == 64 && e.name.len() > 0 && e.version.len() > 0
}

/// Why a single entry is rejected.
#[derive(Clone, Copy, Debug, PartialEq, Eq, Structural)]
pub enum ValidateErrorKind {
    Sha256Missing,
    Sha256Length,
    NameEmpty,
    VersionEmpty,
}

/// A validation failure: the reason and the name of the offending entry.
#[derive(Debug)]
pub struct ValidateError {
    pub kind: ValidateErrorKind,
    pub name: String,
}

/// The rejection reason for one entry, checked in order: missing hash,
/// wrong hash length, empty name, empty version.
pub open spec fn entry_error(e: EntryV) -> Option<(ValidateErrorKind, Seq<char>)> {
    if e.sha256.len() == 0 {
        Some((ValidateErrorKind::Sha256Missing, e.name))
    } else if e.sha256.len() != 64 {
        Some((ValidateErrorKind::Sha256Length, e.name))
    } else if e.name.len() == 0 {
        Some((ValidateErrorKind::NameEmpty, e.name))
    } else if e.version.len() == 0 {
        Some((ValidateErrorKind::VersionEmpty, e.name))
    } else {
        None
    }
}

/// The first rejection among `apps`, if any.
pub open spec fn first_entry_error(apps: Seq<EntryV>) -> Option<(ValidateErrorKind, Seq<char>)>
    decreases apps.len(),
{
    if apps.len() == 0 {
        None
    } else if entry_error(apps[0]) is Some {
        entry_error(apps[0])
    } else {
        first_entry_error(apps.skip(1))
    }
}

pub proof fn lemma_no_entry_error_valid(apps: Seq<EntryV>)
    ensures
        first_entry_error(apps) is None <==> forall|i: int|
            0 <= i < apps.len() ==> entry_valid(#[trigger] apps[i]),
    decreases apps.len(),
{
    if apps.len() > 0 {
        lemma_no_entry_error_valid(apps.skip(1));
        if entry_error(apps[0]) is None {
            assert(forall|i: int|
                1 <= i < apps.len() ==> apps.skip(1)[i - 1] == #[trigger] apps[i]);
        }
    }
}

impl AppImageYaml {
    /// Checks every entry against the manifest invariants; rejects the whole
    /// manifest at the first invalid entry, naming it and the reason.
    pub fn validate(&self) -> (r: Result<(), ValidateError>)
        ensures
            match r {
                Ok(()) => first_entry_error(self@) is None,
                Err(e) => first_entry_error(self@) == Some((e.kind, e.name@)),
            },
            r is Ok <==> forall|i: int| 0 <= i < self@.len() ==> entry_valid(#[trigger] self@[i]),
    {
        proof {
            lemma_no_entry_error_valid(self@);
            assert(self@.skip(0) =~= self@);
        }
        let mut i: usize = 0;
        while i < self.apps.len()
            invariant
                i <= self.apps.len(),
                forall|j: int| 0 <= j < i ==> entry_error(#[trigger] self@[j]) is None,
                first_entry_error(self@) == first_entry_error(self@.skip(i as int)),
            decreases self.apps.len() - i,
        {
            let app = &self.apps[i];
            proof {
                assert(self@.skip(i as int)[0] == self@[i as int]);
                assert(self@.skip(i as int).skip(1) =~= self@.skip(i as int + 1));
            }
            let kind = if app.sha256.as_str().unicode_len() == 0 {
                Some(ValidateErrorKind::Sha256Missing)
            } else if app.sha256.as_str().unicode_len() != 64 {
                Some(ValidateErrorKind::Sha256Length)
            } else if app.name.as_str().unicode_len() == 0 {
                Some(ValidateErrorKind::NameEmpty)
            } else if app.version.as_str().unicode_len() == 0 {
                Some(ValidateErrorKind::VersionEmpty)
            } else {
                None
            };
            match kind {
                Some(k) => {
                    proof {
                        lemma_no_entry_error_valid(self@);
                    }
                    return Err(ValidateError { kind: k, name: app.name.clone() });
                },
                None => {},
            }
            i = i + 1;
        }
        proof {
            assert(self@.skip(i as int).len() == 0);
        }
        Ok(())
    }
}

/// An entry together with the source manifest it was declared in.
pub struct AppImageEntryWithSource {
    pub entry: AppImageEntry,
    pub source_url: String,
}

/// The mathematical value of a sourced entry.
#[verifier::ext_equal]
pub ghost struct EntryWithSourceV {
    pub entry: EntryV,
    pub source_url: Seq<char>,
}

impl View for AppImageEntryWithSource {
    type V = EntryWithSourceV;

    open spec fn view(&self) -> EntryWithSourceV {
        EntryWithSourceV { entry: self.entry@, source_url: self.source_url@ }
    }
}

impl DeepView for AppImageEntryWithSource {
    type V = EntryWithSourceV;

    open spec fn deep_view(&self) -> EntryWithSourceV {
        self.view()
    }
}

impl AppImageEntryWithSource {
    /// A structurally equal copy.
    pub fn duplicate(&self) -> (r: Self)
        ensures
            r@ == self@,
    {
        let r = AppImageEntryWithSource {
            entry: self.entry.duplicate(),
            source_url: self.source_url.clone(),
        };
        proof {
            assert(r@ =~= self@);
        }
        r
    }
}

} // verus!

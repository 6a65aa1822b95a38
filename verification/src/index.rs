//! The unified index: the flattened, queryable union of every package
//! entry discovered from every registered source, with best-match
//! selection.

use vstd::prelude::*;
use vstd::string::StrSliceExecFns;
use crate::entry::{AppImageEntry, AppImageEntryWithSource, EntryWithSourceV};
use crate::reqs::{req_allows, req_is_valid, req_matches, req_well_formed};
use crate::text::str_eq;
use crate::version::{
    lemma_version_lt_trans, parse_version, spec_parse_version, version_lt, version_lt_exec,
    Version, VersionV,
};

verus! {

/// The queryable union of all discovered entries, with the moment of the
/// last refresh.
pub struct UnifiedIndex {
    pub entries: Vec<AppImageEntryWithSource>,
    pub last_updated: Option<String>,
}

/// The mathematical value of the index.
#[verifier::ext_equal]
pub ghost struct IndexV {
    pub entries: Seq<EntryWithSourceV>,
    pub last_updated: Option<Seq<char>>,
}

impl View for UnifiedIndex {
    type V = IndexV;

    open spec fn view(&self) -> IndexV {
        IndexV {
            entries: self.entries.deep_view(),
            last_updated: match self.last_updated {
                Some(t) => Some(t@),
                None => None,
            },
        }
    }
}

/// The parsed version of an entry, if its version text is well-formed.
pub open spec fn version_of(e: EntryWithSourceV) -> Option<VersionV> {
    spec_parse_version(e.entry.version)
}

/// Order on optional versions: an unparseable version ranks below every
/// parseable one.
pub open spec fn opt_version_lt(a: Option<VersionV>, b: Option<VersionV>) -> bool {
    match (a, b) {
        (None, None) => false,
        (None, Some(_)) => true,
        (Some(_), None) => false,
        (Some(x), Some(y)) => version_lt(x, y),
    }
}

pub proof fn lemma_opt_version_lt_irrefl(a: Option<VersionV>)
    ensures
        !opt_version_lt(a, a),
{
    match a {
        Some(x) => crate::version::lemma_version_lt_irrefl(x),
        None => {},
    }
}

pub proof fn lemma_opt_version_lt_trans(a: Option<VersionV>, b: Option<VersionV>, c: Option<
    VersionV,
>)
    requires
        opt_version_lt(a, b),
        opt_version_lt(b, c),
    ensures
        opt_version_lt(a, c),
{
    match (a, b, c) {
        (Some(x), Some(y), Some(z)) => lemma_version_lt_trans(x, y, z),
        _ => {},
    }
}

/// Whether an entry is a candidate for `name` under an (already validated)
/// optional requirement: with a requirement, only entries whose version
/// parses and satisfies it count.
pub open spec fn sel_ok(e: EntryWithSourceV, name: Seq<char>, req: Option<Seq<char>>) -> bool {
    e.entry.name == name && match req {
        None => true,
        Some(r) => version_of(e) is Some && req_allows(r, e.entry.version),
    }
}

/// The index of the best match among the first `i` entries: the candidate
/// with the highest version, the earliest of equals.
pub open spec fn best_idx(
    entries: Seq<EntryWithSourceV>,
    name: Seq<char>,
    req: Option<Seq<char>>,
    i: int,
) -> Option<int>
    decreases i,
{
    if i <= 0 {
        None
    } else {
        let prev = best_idx(entries, name, req, i - 1);
        if sel_ok(entries[i - 1], name, req) {
            match prev {
                None => Some(i - 1),
                Some(b) => if opt_version_lt(version_of(entries[b]), version_of(entries[i - 1])) {
                    Some(i - 1)
                } else {
                    Some(b)
                },
            }
        } else {
            prev
        }
    }
}

/// What `find_best_match` selects among the whole index.
pub open spec fn spec_best_match(
    entries: Seq<EntryWithSourceV>,
    name: Seq<char>,
    req: Option<Seq<char>>,
) -> Option<int> {
    best_idx(entries, name, req, entries.len() as int)
}

/// The requirement actually applied: an unparseable requirement text falls
/// back to no requirement at all.
pub open spec fn effective_req(req: Option<Seq<char>>) -> Option<Seq<char>> {
    match req {
        Some(r) => if req_well_formed(r) {
            Some(r)
        } else {
            None
        },
        None => None,
    }
}

/// The selection is sound and maximal: it returns a candidate that no other
/// candidate outranks, and nothing only when there is no candidate.
pub proof fn lemma_best_match_is_max(
    entries: Seq<EntryWithSourceV>,
    name: Seq<char>,
    req: Option<Seq<char>>,
    i: int,
)
    requires
        0 <= i <= entries.len(),
    ensures
        match best_idx(entries, name, req, i) {
            Some(b) => 0 <= b < i && sel_ok(entries[b], name, req) && forall|j: int|
                0 <= j < i && sel_ok(#[trigger] entries[j], name, req) ==> !opt_version_lt(
                    version_of(entries[b]),
                    version_of(entries[j]),
                ),
            None => forall|j: int| 0 <= j < i ==> !sel_ok(#[trigger] entries[j], name, req),
        },
    decreases i,
{
    if i > 0 {
        lemma_best_match_is_max(entries, name, req, i - 1);
        match best_idx(entries, name, req, i) {
            Some(b) => {
                assert forall|j: int|
                    0 <= j < i && sel_ok(#[trigger] entries[j], name, req) implies !opt_version_lt(
                    version_of(entries[b]),
                    version_of(entries[j]),
                ) by {
                    if j == b {
                        lemma_opt_version_lt_irrefl(version_of(entries[b]));
                    } else {
                        match best_idx(entries, name, req, i - 1) {
                            Some(p) => {
                                if opt_version_lt(version_of(entries[b]), version_of(entries[j]))
                                    && b == i - 1 {
                                    lemma_opt_version_lt_trans(
                                        version_of(entries[p]),
                                        version_of(entries[b]),
                                        version_of(entries[j]),
                                    );
                                }
                            },
                            None => {},
                        }
                    }
                }
            },
            None => {},
        }
    }
}

impl UnifiedIndex {
    /// An empty index with no refresh recorded.
    pub fn new() -> (r: Self)
        ensures
            r@.entries.len() == 0,
            r@.last_updated is None,
    {
        UnifiedIndex { entries: Vec::new(), last_updated: None }
    }

    /// Records one discovered entry under the source it came from.
    pub fn add_entry(&mut self, entry: AppImageEntry, source_url: String)
        ensures
            final(self)@.entries == old(self)@.entries.push(
                EntryWithSourceV { entry: entry@, source_url: source_url@ },
            ),
            final(self)@.last_updated == old(self)@.last_updated,
    {
        self.entries.push(AppImageEntryWithSource { entry, source_url });
        proof {
            assert(self@.entries =~= old(self)@.entries.push(
                self@.entries[self@.entries.len() - 1],
            ));
        }
    }

    /// Removes every entry attributed to `source_url`, so that a changed
    /// source can be re-resolved without leaving stale entries behind.
    pub fn purge_source(&mut self, source_url: &str)
        ensures
            final(self)@.entries == old(self)@.entries.filter(
                |e: EntryWithSourceV| e.source_url != source_url@,
            ),
            final(self)@.last_updated == old(self)@.last_updated,
    {
        let ghost pred = |e: EntryWithSourceV| e.source_url != source_url@;
        let ghost orig = self@.entries;
        let mut kept: Vec<AppImageEntryWithSource> = Vec::new();
        let mut i: usize = 0;
        proof {
            assert(orig.take(0) =~= Seq::<EntryWithSourceV>::empty());
            assert(kept.deep_view() =~= orig.take(0).filter(pred));
        }
        while i < self.entries.len()
            invariant
                i <= self.entries.len(),
                orig == self@.entries,
                orig.len() == self.entries.len(),
                kept.deep_view() == orig.take(i as int).filter(
                    |e: EntryWithSourceV| e.source_url != source_url@,
                ),
            decreases self.entries.len() - i,
        {
            let ghost prevkept = kept.deep_view();
            if !str_eq(self.entries[i].source_url.as_str(), source_url) {
                let copy = self.entries[i].duplicate();
                kept.push(copy);
            }
            proof {
                let p = |e: EntryWithSourceV| e.source_url != source_url@;
                reveal(Seq::filter);
                let t = orig.take(i as int + 1);
                assert(t.drop_last() =~= orig.take(i as int));
                assert(t.last() == orig[i as int]);
                if p(orig[i as int]) {
                    assert(t.filter(p) == orig.take(i as int).filter(p).push(orig[i as int]));
                    assert(kept.deep_view() =~= prevkept.push(orig[i as int]));
                } else {
                    assert(t.filter(p) == orig.take(i as int).filter(p));
                }
                assert(kept.deep_view() =~= orig.take(i as int + 1).filter(p));
            }
            i = i + 1;
        }
        proof {
            assert(orig.take(orig.len() as int) =~= orig);
        }
        self.entries = kept;
    }

    /// The entry selected for `name`: among entries of that name — filtered
    /// by the version requirement when one is given and well-formed — the
    /// one with the highest version, the earliest of equals.  An
    /// ill-formed requirement falls back to no requirement.
    pub fn find_best_match<'a>(&'a self, name: &str, version_req: Option<&str>) -> (r: Option<
        &'a AppImageEntryWithSource,
    >)
        ensures
            ({
                let eff = effective_req(
                    match version_req {
                        Some(q) => Some(q@),
                        None => None,
                    },
                );
                let best = spec_best_match(self@.entries, name@, eff);
                match r {
                    Some(e) => best is Some && e@ == self@.entries[best.unwrap()],
                    None => best is None,
                }
            }),
    {
        let req: Option<&str> = match version_req {
            Some(q) => if req_is_valid(q) {
                Some(q)
            } else {
                None
            },
            None => None,
        };
        let ghost eff = effective_req(
            match version_req {
                Some(q) => Some(q@),
                None => None,
            },
        );
        proof {
            assert(match req {
                Some(q) => eff == Some(q@),
                None => eff is None,
            });
        }
        let mut best: Option<usize> = None;
        let mut best_version: Option<Version> = None;
        let mut i: usize = 0;
        while i < self.entries.len()
            invariant
                i <= self.entries.len(),
                match req {
                    Some(q) => eff == Some(q@) && req_well_formed(q@),
                    None => eff is None,
                },
                best_idx(self@.entries, name@, eff, i as int) == (match best {
                    Some(b) => Some(b as int),
                    None => None::<int>,
                }),
                match best {
                    Some(b) => b < i && (match best_version {
                        Some(v) => version_of(self@.entries[b as int]) == Some(v@),
                        None => version_of(self@.entries[b as int]) is None,
                    }),
                    None => best_version is None,
                },
            decreases self.entries.len() - i,
        {
            let e = &self.entries[i];
            let name_ok = str_eq(e.entry.name.as_str(), name);
            let ver = parse_version(e.entry.version.as_str());
            let selected = if !name_ok {
                false
            } else {
                match req {
                    Some(q) => {
                        if ver.is_some() {
                            req_matches(q, e.entry.version.as_str())
                        } else {
                            false
                        }
                    },
                    None => true,
                }
            };
            proof {
                let ev = self@.entries[i as int];
                assert(ev == self.entries@[i as int]@);
                assert(name_ok == (ev.entry.name == name@));
                match &ver {
                    Some(v) => assert(version_of(ev) == Some(v@)),
                    None => assert(version_of(ev) is None),
                }
                assert(selected == sel_ok(ev, name@, eff));
            }
            if selected {
                let replace = match (&best_version, &ver) {
                    (None, Some(_)) => true,
                    (Some(bv), Some(nv)) => version_lt_exec(bv, nv),
                    _ => best.is_none(),
                };
                proof {
                    let ev = self@.entries[i as int];
                    match best {
                        Some(b) => {
                            assert(replace == opt_version_lt(
                                version_of(self@.entries[b as int]),
                                version_of(ev),
                            ));
                        },
                        None => {},
                    }
                }
                if replace {
                    best = Some(i);
                    best_version = ver;
                }
            }
            i = i + 1;
        }
        match best {
            Some(b) => Some(&self.entries[b]),
            None => None,
        }
    }
}

} // verus!

//! The source resolver: expands a set of root source locations — each
//! pointing at a package manifest or at a further index of sources — into
//! the unified index, visiting every location at most once per pass.
//!
//! Fetching is the caller's job.  The resolver is a state machine: it
//! names the next location to fetch, the caller hands the raw text back,
//! and the resolver parses, validates and folds it into the index.  Index
//! manifests found under a root are drained through an explicit
//! last-in-first-out work queue before the package manifests they listed
//! are fetched, so arbitrarily deep trees never grow the call stack.  In
//! an incremental pass a root whose text hashes to its last recorded hash
//! contributes nothing and is not re-parsed.

use vstd::prelude::*;
use vstd::string::StrSliceExecFns;
use vstd::string::StringSliceAdditionalSpecFns;
use crate::entry::{AppImageYaml, EntryV, EntryWithSourceV, first_entry_error};
use crate::hashing::{calculate_yaml_hash, sha256_of, spec_hex_lower};
use crate::index::{IndexV, UnifiedIndex};
use crate::manifest::{spec_parse_index, spec_parse_package, IndexYaml, SourceV};
use crate::text::str_eq;
use crate::urlutil::{
    normalize_url, resolve_relative_url, url_join_of, url_join_ok, url_normal_of, url_well_formed,
};

verus! {

/// What the pending fetch is for: a root source, an index manifest from
/// the work queue, or a package manifest.
#[derive(Clone, Copy, Debug, PartialEq, Eq, Structural)]
pub enum FetchKind {
    Root,
    Index,
    Package,
}

/// The fetch the resolver is waiting on.
pub struct Pending {
    pub kind: FetchKind,
    pub url: String,
}

#[verifier::ext_equal]
pub ghost struct PendingV {
    pub kind: FetchKind,
    pub url: Seq<char>,
}

impl View for Pending {
    type V = PendingV;

    open spec fn view(&self) -> PendingV {
        PendingV { kind: self.kind, url: self.url@ }
    }
}

/// The last recorded content hash of one root source.
pub struct SourceHash {
    pub url: String,
    pub hash: String,
}

#[verifier::ext_equal]
pub ghost struct SourceHashV {
    pub url: Seq<char>,
    pub hash: Seq<char>,
}

impl View for SourceHash {
    type V = SourceHashV;

    open spec fn view(&self) -> SourceHashV {
        SourceHashV { url: self.url@, hash: self.hash@ }
    }
}

impl DeepView for SourceHash {
    type V = SourceHashV;

    open spec fn deep_view(&self) -> SourceHashV {
        self.view()
    }
}

/// The recorded hash for a location, first record wins.
pub open spec fn hash_lookup(hs: Seq<SourceHashV>, url: Seq<char>) -> Option<Seq<char>>
    decreases hs.len(),
{
    if hs.len() == 0 {
        None
    } else if hs[0].url == url {
        Some(hs[0].hash)
    } else {
        hash_lookup(hs.skip(1), url)
    }
}

/// The records with the hash for `url` set to `h`: the first record for
/// `url` is replaced, or a new record appended.
pub open spec fn hash_upsert(hs: Seq<SourceHashV>, url: Seq<char>, h: Seq<char>) -> Seq<
    SourceHashV,
>
    decreases hs.len(),
{
    if hs.len() == 0 {
        seq![SourceHashV { url: url, hash: h }]
    } else if hs[0].url == url {
        seq![SourceHashV { url: url, hash: h }] + hs.skip(1)
    } else {
        seq![hs[0]] + hash_upsert(hs.skip(1), url, h)
    }
}

/// The content hash the resolver records for a text.
pub open spec fn content_hash(content: &str) -> Seq<char> {
    spec_hex_lower(sha256_of(content.spec_bytes()))
}

/// Why a resolution pass fails.
#[derive(Debug)]
pub enum ResolveError {
    /// A location did not parse as a URL, or a child could not be resolved
    /// against its manifest's location.
    InvalidUrl { url: String },
    /// A document parsed as neither manifest shape.
    ManifestParse { url: String },
    /// A manifest carried an invalid entry or an empty child location.
    ManifestValidation { url: String },
}

/// The entries of a parsed package manifest, each tagged with the manifest
/// location it came from.
pub open spec fn with_source(apps: Seq<EntryV>, url: Seq<char>) -> Seq<EntryWithSourceV> {
    apps.map_values(|e: EntryV| EntryWithSourceV { entry: e, source_url: url })
}

/// True when every child of an index manifest can be taken up: a non-empty
/// location that resolves against the manifest's own location.
pub open spec fn children_ok(srcs: Seq<SourceV>, base: Seq<char>) -> bool {
    forall|i: int|
        0 <= i < srcs.len() ==> (#[trigger] srcs[i]).url.len() > 0 && url_join_ok(
            base,
            srcs[i].url,
        )
}

/// The resolved locations of the children of one tag, in declaration
/// order.
pub open spec fn joined_children(srcs: Seq<SourceV>, base: Seq<char>, want_index: bool) -> Seq<
    Seq<char>,
>
    decreases srcs.len(),
{
    if srcs.len() == 0 {
        Seq::empty()
    } else {
        let rest = joined_children(srcs.skip(1), base, want_index);
        if srcs[0].is_index == want_index {
            seq![url_join_of(base, srcs[0].url)] + rest
        } else {
            rest
        }
    }
}

/// One resolution pass in progress.
pub struct Resolver {
    /// Locations already taken up this pass; none is fetched twice.
    pub visited: Vec<String>,
    /// The root locations of the pass.
    pub roots: Vec<String>,
    /// How many roots have been taken up.
    pub root_pos: usize,
    /// Index manifests waiting to be fetched, drained last-in-first-out.
    pub index_queue: Vec<String>,
    /// Package manifests waiting to be fetched.
    pub appimage_queue: Vec<String>,
    /// The fetch the resolver is waiting on, if any.
    pub pending: Option<Pending>,
    /// The index grown so far.
    pub index: UnifiedIndex,
    /// The recorded content hash per root location.
    pub hashes: Vec<SourceHash>,
    /// Whether unchanged roots are skipped against `hashes`.
    pub incremental: bool,
    /// Set once a step has failed; no further step is taken.
    pub failed: bool,
}

#[verifier::ext_equal]
pub ghost struct ResolverV {
    pub visited: Seq<Seq<char>>,
    pub roots: Seq<Seq<char>>,
    pub root_pos: int,
    pub index_queue: Seq<Seq<char>>,
    pub appimage_queue: Seq<Seq<char>>,
    pub pending: Option<PendingV>,
    pub index: IndexV,
    pub hashes: Seq<SourceHashV>,
    pub incremental: bool,
    pub failed: bool,
}

impl View for Resolver {
    type V = ResolverV;

    open spec fn view(&self) -> ResolverV {
        ResolverV {
            visited: self.visited.deep_view(),
            roots: self.roots.deep_view(),
            root_pos: self.root_pos as int,
            index_queue: self.index_queue.deep_view(),
            appimage_queue: self.appimage_queue.deep_view(),
            pending: match self.pending {
                Some(p) => Some(p@),
                None => None,
            },
            index: self.index@,
            hashes: self.hashes.deep_view(),
            incremental: self.incremental,
            failed: self.failed,
        }
    }
}

/// What the resolver would take up next from a work queue: the last
/// location not yet visited, and the queue below it.
pub open spec fn next_from(q: Seq<Seq<char>>, visited: Seq<Seq<char>>) -> Option<
    (Seq<char>, Seq<Seq<char>>),
>
    decreases q.len(),
{
    if q.len() == 0 {
        None
    } else if visited.contains(q.last()) {
        next_from(q.drop_last(), visited)
    } else {
        Some((q.last(), q.drop_last()))
    }
}

/// What the resolver would take up next among the remaining roots.
pub ghost enum RootPick {
    /// No root is left.
    Done,
    /// The root at this position does not parse as a URL.
    Bad(int),
    /// This normalized location, advancing past this position.
    Pick(Seq<char>, int),
}

pub open spec fn next_root(roots: Seq<Seq<char>>, pos: int, visited: Seq<Seq<char>>) -> RootPick
    decreases roots.len() - pos,
{
    if pos < 0 || pos >= roots.len() {
        RootPick::Done
    } else if !url_well_formed(roots[pos]) {
        RootPick::Bad(pos)
    } else if visited.contains(url_normal_of(roots[pos])) {
        next_root(roots, pos + 1, visited)
    } else {
        RootPick::Pick(url_normal_of(roots[pos]), pos + 1)
    }
}

impl Resolver {
    /// A fresh pass over `sources`, building the index from nothing.
    pub fn new(sources: Vec<String>) -> (r: Self)
        ensures
            r@.visited.len() == 0,
            r@.roots == sources.deep_view(),
            r@.root_pos == 0,
            r@.index_queue.len() == 0,
            r@.appimage_queue.len() == 0,
            r@.pending is None,
            r@.index.entries.len() == 0,
            r@.hashes.len() == 0,
            !r@.incremental,
            !r@.failed,
    {
        Resolver {
            visited: Vec::new(),
            roots: sources,
            root_pos: 0,
            index_queue: Vec::new(),
            appimage_queue: Vec::new(),
            pending: None,
            index: UnifiedIndex::new(),
            hashes: Vec::new(),
            incremental: false,
            failed: false,
        }
    }

    /// An incremental pass over `sources`: the prior index persists, and a
    /// root whose content hash matches its record contributes nothing new.
    pub fn new_incremental(
        sources: Vec<String>,
        existing_index: UnifiedIndex,
        hashes: Vec<SourceHash>,
    ) -> (r: Self)
        ensures
            r@.visited.len() == 0,
            r@.roots == sources.deep_view(),
            r@.root_pos == 0,
            r@.index_queue.len() == 0,
            r@.appimage_queue.len() == 0,
            r@.pending is None,
            r@.index == existing_index@,
            r@.hashes == hashes.deep_view(),
            r@.incremental,
            !r@.failed,
    {
        Resolver {
            visited: Vec::new(),
            roots: sources,
            root_pos: 0,
            index_queue: Vec::new(),
            appimage_queue: Vec::new(),
            pending: None,
            index: existing_index,
            hashes,
            incremental: true,
            failed: false,
        }
    }

    /// Ends the pass, yielding the index and the recorded hashes.
    pub fn finish(self) -> (r: (UnifiedIndex, Vec<SourceHash>))
        ensures
            r.0@ == self@.index,
            r.1.deep_view() == self@.hashes,
    {
        (self.index, self.hashes)
    }

    /// The next location to fetch, or nothing when the pass is complete.
    ///
    /// A location is handed out at most once per pass: the result is never
    /// an already visited location, and is recorded as visited at once —
    /// this is the cycle-breaker and the deduplication in one.  Index
    /// manifests queue ahead of package manifests; roots come last, each
    /// normalized, an unparseable root failing the pass.
    pub fn next_request(&mut self) -> (r: Result<Option<String>, ResolveError>)
        requires
            old(self)@.pending is None,
            !old(self)@.failed,
        ensures
            final(self)@.index == old(self)@.index,
            final(self)@.hashes == old(self)@.hashes,
            final(self)@.roots == old(self)@.roots,
            final(self)@.incremental == old(self)@.incremental,
            match r {
                Ok(Some(url)) => {
                    &&& !old(self)@.visited.contains(url@)
                    &&& final(self)@.visited == old(self)@.visited.push(url@)
                    &&& final(self)@.pending matches Some(p) && p.url == url@
                    &&& !final(self)@.failed
                    &&& match next_from(old(self)@.index_queue, old(self)@.visited) {
                        Some((u, q)) => {
                            &&& url@ == u
                            &&& final(self)@.index_queue == q
                            &&& final(self)@.appimage_queue == old(self)@.appimage_queue
                            &&& final(self)@.root_pos == old(self)@.root_pos
                            &&& final(self)@.pending == Some(
                                PendingV { kind: FetchKind::Index, url: u },
                            )
                        },
                        None => {
                            match next_from(old(self)@.appimage_queue, old(self)@.visited) {
                                Some((u, q)) => {
                                    &&& url@ == u
                                    &&& final(self)@.index_queue.len() == 0
                                    &&& final(self)@.appimage_queue == q
                                    &&& final(self)@.root_pos == old(self)@.root_pos
                                    &&& final(self)@.pending == Some(
                                        PendingV { kind: FetchKind::Package, url: u },
                                    )
                                },
                                None => {
                                    match next_root(
                                        old(self)@.roots,
                                        old(self)@.root_pos,
                                        old(self)@.visited,
                                    ) {
                                        RootPick::Pick(u, p2) => {
                                            &&& url@ == u
                                            &&& final(self)@.index_queue.len() == 0
                                            &&& final(self)@.appimage_queue.len() == 0
                                            &&& final(self)@.root_pos == p2
                                            &&& final(self)@.pending == Some(
                                                PendingV { kind: FetchKind::Root, url: u },
                                            )
                                        },
                                        _ => false,
                                    }
                                },
                            }
                        },
                    }
                },
                Ok(None) => {
                    &&& final(self)@.visited == old(self)@.visited
                    &&& final(self)@.pending is None
                    &&& !final(self)@.failed
                    &&& next_from(old(self)@.index_queue, old(self)@.visited) is None
                    &&& next_from(old(self)@.appimage_queue, old(self)@.visited) is None
                    &&& next_root(old(self)@.roots, old(self)@.root_pos, old(self)@.visited)
                        is Done
                },
                Err(e) => {
                    &&& final(self)@.failed
                    &&& next_from(old(self)@.index_queue, old(self)@.visited) is None
                    &&& next_from(old(self)@.appimage_queue, old(self)@.visited) is None
                    &&& next_root(old(self)@.roots, old(self)@.root_pos, old(self)@.visited)
                        matches RootPick::Bad(b) && (e matches ResolveError::InvalidUrl {
                        url,
                    } && url@ == old(self)@.roots[b])
                },
            },
    {
        let ghost v0 = self@.visited;
        // Index work queue, last in first out.
        loop
            invariant
                self@.visited == v0,
                self@.pending is None,
                !self@.failed,
                self@.index == old(self)@.index,
                self@.hashes == old(self)@.hashes,
                self@.roots == old(self)@.roots,
                self@.incremental == old(self)@.incremental,
                self@.appimage_queue == old(self)@.appimage_queue,
                self@.root_pos == old(self)@.root_pos,
                v0 == old(self)@.visited,
                next_from(old(self)@.index_queue, v0) == next_from(self@.index_queue, v0),
            ensures
                self@.visited == v0,
                self@.pending is None,
                !self@.failed,
                self@.index == old(self)@.index,
                self@.hashes == old(self)@.hashes,
                self@.roots == old(self)@.roots,
                self@.incremental == old(self)@.incremental,
                self@.appimage_queue == old(self)@.appimage_queue,
                self@.root_pos == old(self)@.root_pos,
                next_from(old(self)@.index_queue, v0) == next_from(self@.index_queue, v0),
                self@.index_queue.len() == 0 || !v0.contains(self@.index_queue.last()),
            decreases self.index_queue.len(),
        {
            if self.index_queue.len() == 0 {
                break ;
            }
            let ghost q0 = self@.index_queue;
            let last_ref_visited = {
                let candidate = &self.index_queue[self.index_queue.len() - 1];
                crate::deps::vec_contains_str(&self.visited, candidate.as_str())
            };
            if !last_ref_visited {
                break ;
            }
            self.index_queue.pop();
            proof {
                assert(self@.index_queue =~= q0.drop_last());
            }
        }
        if self.index_queue.len() > 0 {
            let url = match self.index_queue.pop() {
                Some(u) => u,
                None => {
                    proof {
                        assert(false);
                    }
                    unreached()
                },
            };
            let ghost vpre = self@.visited;
            self.visited.push(url.clone());
            self.pending = Some(Pending { kind: FetchKind::Index, url: url.clone() });
            proof {
                assert(self@.visited =~= vpre.push(url@));
            }
            return Ok(Some(url));
        }
        // Package manifests listed by the drained index tree.
        loop
            invariant
                self@.visited == v0,
                self@.pending is None,
                !self@.failed,
                self@.index == old(self)@.index,
                self@.hashes == old(self)@.hashes,
                self@.roots == old(self)@.roots,
                self@.incremental == old(self)@.incremental,
                self@.index_queue.len() == 0,
                self@.root_pos == old(self)@.root_pos,
                v0 == old(self)@.visited,
                next_from(old(self)@.index_queue, v0) is None,
                next_from(old(self)@.appimage_queue, v0) == next_from(self@.appimage_queue, v0),
            ensures
                self@.visited == v0,
                self@.pending is None,
                !self@.failed,
                self@.index == old(self)@.index,
                self@.hashes == old(self)@.hashes,
                self@.roots == old(self)@.roots,
                self@.incremental == old(self)@.incremental,
                self@.index_queue.len() == 0,
                self@.root_pos == old(self)@.root_pos,
                next_from(old(self)@.index_queue, v0) is None,
                next_from(old(self)@.appimage_queue, v0) == next_from(self@.appimage_queue, v0),
                self@.appimage_queue.len() == 0 || !v0.contains(self@.appimage_queue.last()),
            decreases self.appimage_queue.len(),
        {
            if self.appimage_queue.len() == 0 {
                break ;
            }
            let ghost q0 = self@.appimage_queue;
            let last_ref_visited = {
                let candidate = &self.appimage_queue[self.appimage_queue.len() - 1];
                crate::deps::vec_contains_str(&self.visited, candidate.as_str())
            };
            if !last_ref_visited {
                break ;
            }
            self.appimage_queue.pop();
            proof {
                assert(self@.appimage_queue =~= q0.drop_last());
            }
        }
        if self.appimage_queue.len() > 0 {
            let url = match self.appimage_queue.pop() {
                Some(u) => u,
                None => {
                    proof {
                        assert(false);
                    }
                    unreached()
                },
            };
            let ghost vpre = self@.visited;
            self.visited.push(url.clone());
            self.pending = Some(Pending { kind: FetchKind::Package, url: url.clone() });
            proof {
                assert(self@.visited =~= vpre.push(url@));
            }
            return Ok(Some(url));
        }
        // Remaining roots, each normalized before the visited check.
        loop
            invariant
                self@.visited == v0,
                self@.pending is None,
                !self@.failed,
                self@.index == old(self)@.index,
                self@.hashes == old(self)@.hashes,
                self@.roots == old(self)@.roots,
                self@.incremental == old(self)@.incremental,
                self@.index_queue.len() == 0,
                self@.appimage_queue.len() == 0,
                v0 == old(self)@.visited,
                next_from(old(self)@.index_queue, v0) is None,
                next_from(old(self)@.appimage_queue, v0) is None,
                next_root(self@.roots, old(self)@.root_pos, v0) == next_root(
                    self@.roots,
                    self@.root_pos,
                    v0,
                ),
            decreases self.roots.len() - self.root_pos,
        {
            if self.root_pos >= self.roots.len() {
                proof {
                    assert(next_root(self@.roots, self@.root_pos, v0) is Done);
                }
                return Ok(None);
            }
            let raw = self.roots[self.root_pos].clone();
            match normalize_url(raw.as_str()) {
                Some(normal) => {
                    if crate::deps::vec_contains_str(&self.visited, normal.as_str()) {
                        self.root_pos = self.root_pos + 1;
                    } else {
                        let ghost vpre = self@.visited;
                        self.root_pos = self.root_pos + 1;
                        self.visited.push(normal.clone());
                        self.pending = Some(
                            Pending { kind: FetchKind::Root, url: normal.clone() },
                        );
                        proof {
                            assert(self@.visited =~= vpre.push(normal@));
                        }
                        return Ok(Some(normal));
                    }
                },
                None => {
                    self.failed = true;
                    return Err(ResolveError::InvalidUrl { url: raw });
                },
            }
        }
    }
}

/// A recorded hash replaced in place keeps every other record.
proof fn lemma_hash_upsert_at(hs: Seq<SourceHashV>, url: Seq<char>, h: Seq<char>, i: int)
    requires
        0 <= i < hs.len(),
        hs[i].url == url,
        forall|j: int| 0 <= j < i ==> (#[trigger] hs[j]).url != url,
    ensures
        hash_upsert(hs, url, h) == hs.update(i, SourceHashV { url: url, hash: h }),
    decreases i,
{
    if i == 0 {
        assert(hash_upsert(hs, url, h) =~= hs.update(0, SourceHashV { url: url, hash: h }));
    } else {
        assert(hs[0].url != url);
        assert(forall|j: int| 0 <= j < i - 1 ==> (#[trigger] hs.skip(1)[j]).url != url);
        lemma_hash_upsert_at(hs.skip(1), url, h, i - 1);
        assert(hash_upsert(hs, url, h) =~= hs.update(i, SourceHashV { url: url, hash: h }));
    }
}

/// Recording a hash for an unrecorded location appends a record.
proof fn lemma_hash_upsert_missing(hs: Seq<SourceHashV>, url: Seq<char>, h: Seq<char>)
    requires
        forall|j: int| 0 <= j < hs.len() ==> (#[trigger] hs[j]).url != url,
    ensures
        hash_upsert(hs, url, h) == hs.push(SourceHashV { url: url, hash: h }),
    decreases hs.len(),
{
    if hs.len() == 0 {
        assert(hash_upsert(hs, url, h) =~= hs.push(SourceHashV { url: url, hash: h }));
    } else {
        assert(forall|j: int| 0 <= j < hs.len() - 1 ==> (#[trigger] hs.skip(1)[j]).url != url);
        lemma_hash_upsert_missing(hs.skip(1), url, h);
        assert(hash_upsert(hs, url, h) =~= hs.push(SourceHashV { url: url, hash: h }));
    }
}

/// The recorded hash for a location, if any.
fn hash_lookup_exec(hs: &Vec<SourceHash>, url: &str) -> (r: Option<String>)
    ensures
        match r {
            Some(h) => hash_lookup(hs.deep_view(), url@) == Some(h@),
            None => hash_lookup(hs.deep_view(), url@) is None,
        },
{
    let ghost full = hs.deep_view();
    let mut i: usize = 0;
    proof {
        assert(full.skip(0) =~= full);
    }
    while i < hs.len()
        invariant
            i <= hs.len(),
            full == hs.deep_view(),
            full.len() == hs.len(),
            hash_lookup(full, url@) == hash_lookup(full.skip(i as int), url@),
        decreases hs.len() - i,
    {
        proof {
            assert(full.skip(i as int)[0] == full[i as int]);
            assert(full.skip(i as int).skip(1) =~= full.skip(i as int + 1));
        }
        if str_eq(hs[i].url.as_str(), url) {
            return Some(hs[i].hash.clone());
        }
        i = i + 1;
    }
    proof {
        assert(full.skip(i as int).len() == 0);
    }
    None
}

/// Sets the recorded hash for a location, replacing its first record or
/// appending a new one.
fn hash_record(hs: &mut Vec<SourceHash>, url: String, h: String)
    ensures
        final(hs).deep_view() == hash_upsert(old(hs).deep_view(), url@, h@),
{
    let ghost full = hs.deep_view();
    let mut i: usize = 0;
    while i < hs.len()
        invariant
            i <= hs.len(),
            full == hs.deep_view(),
            full == old(hs).deep_view(),
            full.len() == hs.len(),
            forall|j: int| 0 <= j < i ==> (#[trigger] full[j]).url != url@,
        decreases hs.len() - i,
    {
        if str_eq(hs[i].url.as_str(), url.as_str()) {
            let ghost va = hs@;
            let _ = hs.remove(i);
            let ghost vb = hs@;
            hs.insert(i, SourceHash { url, hash: h });
            proof {
                assert(vb =~= va.remove(i as int));
                assert(hs@ =~= vb.insert(i as int, hs@[i as int]));
                assert(hs@[i as int]@ =~= (SourceHashV { url: url@, hash: h@ }));
                assert(forall|j: int| 0 <= j < i ==> hs@[j] == #[trigger] va[j]);
                assert(forall|j: int|
                    i < j < hs@.len() ==> hs@[j] == vb[j - 1] && vb[j - 1] == #[trigger] va[j]);
                lemma_hash_upsert_at(full, url@, h@, i as int);
                assert(hs.deep_view() =~= full.update(
                    i as int,
                    SourceHashV { url: url@, hash: h@ },
                ));
            }
            return ;
        }
        i = i + 1;
    }
    hs.push(SourceHash { url, hash: h });
    proof {
        lemma_hash_upsert_missing(full, url@, h@);
        assert(hs.deep_view() =~= full.push(SourceHashV { url: url@, hash: h@ }));
    }
}

/// Splitting the children of an index manifest one position later extends
/// the resolved locations of the matching tag by one.
proof fn lemma_joined_children_snoc(srcs: Seq<SourceV>, base: Seq<char>, want: bool, k: int)
    requires
        0 <= k < srcs.len(),
    ensures
        joined_children(srcs.take(k + 1), base, want) == if srcs[k].is_index == want {
            joined_children(srcs.take(k), base, want).push(url_join_of(base, srcs[k].url))
        } else {
            joined_children(srcs.take(k), base, want)
        },
    decreases k,
{
    if k == 0 {
        assert(srcs.take(1)[0] == srcs[0]);
        assert(srcs.take(1).skip(1) =~= Seq::<SourceV>::empty());
        assert(srcs.take(0) =~= Seq::<SourceV>::empty());
        if srcs[0].is_index == want {
            assert(joined_children(srcs.take(1), base, want) =~= joined_children(
                srcs.take(0),
                base,
                want,
            ).push(url_join_of(base, srcs[0].url)));
        } else {
            assert(joined_children(srcs.take(1), base, want) =~= joined_children(
                srcs.take(0),
                base,
                want,
            ));
        }
    } else {
        lemma_joined_children_snoc(srcs.skip(1), base, want, k - 1);
        assert(srcs.take(k + 1)[0] == srcs[0]);
        assert(srcs.take(k)[0] == srcs[0]);
        assert(srcs.take(k + 1).skip(1) =~= srcs.skip(1).take(k));
        assert(srcs.take(k).skip(1) =~= srcs.skip(1).take(k - 1));
        assert(srcs.skip(1)[k - 1] == srcs[k]);
        if srcs[k].is_index == want {
            assert(joined_children(srcs.take(k + 1), base, want) =~= joined_children(
                srcs.take(k),
                base,
                want,
            ).push(url_join_of(base, srcs[k].url)));
        } else {
            assert(joined_children(srcs.take(k + 1), base, want) =~= joined_children(
                srcs.take(k),
                base,
                want,
            ));
        }
    }
}

impl Resolver {
    /// Folds the fetched text for the pending location into the pass.
    ///
    /// An incremental root whose text hashes to its recorded hash
    /// contributes nothing: the index, the queues and the records are left
    /// exactly as they were, and the text is not parsed further.  Otherwise
    /// the text is read as an index manifest when the location allows it —
    /// queueing its children, resolved against this location — or else as a
    /// package manifest, whose validated entries replace whatever this
    /// location contributed before.  A text of neither shape, an invalid
    /// entry, or an unresolvable child fails the pass.
    pub fn deliver(&mut self, content: &str) -> (r: Result<(), ResolveError>)
        requires
            old(self)@.pending is Some,
            !old(self)@.failed,
        ensures
            final(self)@.visited == old(self)@.visited,
            final(self)@.roots == old(self)@.roots,
            final(self)@.root_pos == old(self)@.root_pos,
            final(self)@.incremental == old(self)@.incremental,
            r is Ok ==> final(self)@.pending is None && !final(self)@.failed,
            r is Err ==> final(self)@.failed,
            ({
                let p = old(self)@.pending.unwrap();
                let url = p.url;
                let h = content_hash(content);
                let skip = old(self)@.incremental && p.kind == FetchKind::Root && hash_lookup(
                    old(self)@.hashes,
                    url,
                ) == Some(h);
                let hs2 = if old(self)@.incremental && p.kind == FetchKind::Root {
                    hash_upsert(old(self)@.hashes, url, h)
                } else {
                    old(self)@.hashes
                };
                if skip {
                    &&& r is Ok
                    &&& final(self)@.index == old(self)@.index
                    &&& final(self)@.index_queue == old(self)@.index_queue
                    &&& final(self)@.appimage_queue == old(self)@.appimage_queue
                    &&& final(self)@.hashes == old(self)@.hashes
                } else if spec_parse_index(content@) is Some && p.kind != FetchKind::Package {
                    let srcs = spec_parse_index(content@).unwrap();
                    if children_ok(srcs, url) {
                        &&& r is Ok
                        &&& final(self)@.index == old(self)@.index
                        &&& final(self)@.index_queue == old(self)@.index_queue + joined_children(
                            srcs,
                            url,
                            true,
                        )
                        &&& final(self)@.appimage_queue == old(self)@.appimage_queue
                            + joined_children(srcs, url, false)
                        &&& final(self)@.hashes == hs2
                    } else {
                        r is Err && (r matches Err(e) ==> (e matches ResolveError::InvalidUrl {
                            ..
                        } || e matches ResolveError::ManifestValidation { .. }))
                    }
                } else if spec_parse_package(content@) is Some {
                    let apps = spec_parse_package(content@).unwrap();
                    if first_entry_error(apps) is None {
                        &&& r is Ok
                        &&& final(self)@.index.entries == old(self)@.index.entries.filter(
                            |e: EntryWithSourceV| e.source_url != url,
                        ) + with_source(apps, url)
                        &&& final(self)@.index.last_updated == old(self)@.index.last_updated
                        &&& final(self)@.index_queue == old(self)@.index_queue
                        &&& final(self)@.appimage_queue == old(self)@.appimage_queue
                        &&& final(self)@.hashes == hs2
                    } else {
                        r matches Err(ResolveError::ManifestValidation { url: u }) && u@ == url
                    }
                } else {
                    r matches Err(ResolveError::ManifestParse { url: u }) && u@ == url
                }
            }),
    {
        let (kind, url) = match &self.pending {
            Some(p) => (p.kind, p.url.clone()),
            None => {
                proof {
                    assert(false);
                }
                unreached()
            },
        };
        self.pending = None;
        if self.incremental && matches!(kind, FetchKind::Root) {
            let h = calculate_yaml_hash(content);
            let cached = hash_lookup_exec(&self.hashes, url.as_str());
            match cached {
                Some(c) => {
                    if str_eq(c.as_str(), h.as_str()) {
                        return Ok(());
                    }
                },
                None => {},
            }
            hash_record(&mut self.hashes, url.clone(), h);
        }
        let is_package_kind = matches!(kind, FetchKind::Package);
        if !is_package_kind {
            match IndexYaml::from_str(content) {
                Ok(iy) => {
                    return self.take_up_children(&iy, &url);
                },
                Err(_) => {},
            }
        }
        match AppImageYaml::from_str(content) {
            Ok(ay) => {
                match ay.validate() {
                    Ok(()) => {
                        self.ingest_package(&ay, &url);
                        Ok(())
                    },
                    Err(_) => {
                        self.failed = true;
                        Err(ResolveError::ManifestValidation { url })
                    },
                }
            },
            Err(_) => {
                self.failed = true;
                Err(ResolveError::ManifestParse { url })
            },
        }
    }

    /// Queues every child of a parsed index manifest, resolved against the
    /// manifest's own location.
    fn take_up_children(&mut self, iy: &IndexYaml, base: &String) -> (r: Result<
        (),
        ResolveError,
    >)
        requires
            !old(self)@.failed,
        ensures
            final(self)@.visited == old(self)@.visited,
            final(self)@.roots == old(self)@.roots,
            final(self)@.root_pos == old(self)@.root_pos,
            final(self)@.incremental == old(self)@.incremental,
            final(self)@.index == old(self)@.index,
            final(self)@.hashes == old(self)@.hashes,
            final(self)@.pending == old(self)@.pending,
            if children_ok(iy@, base@) {
                &&& r is Ok
                &&& !final(self)@.failed
                &&& final(self)@.failed == old(self)@.failed
                &&& final(self)@.index_queue == old(self)@.index_queue + joined_children(
                    iy@,
                    base@,
                    true,
                )
                &&& final(self)@.appimage_queue == old(self)@.appimage_queue + joined_children(
                    iy@,
                    base@,
                    false,
                )
            } else {
                &&& r is Err
                &&& final(self)@.failed
                &&& (r matches Err(e) ==> (e matches ResolveError::InvalidUrl { .. }
                    || e matches ResolveError::ManifestValidation { .. }))
            },
    {
        let ghost srcs = iy@;
        let ghost base_v = base@;
        let ghost iq0 = self@.index_queue;
        let ghost aq0 = self@.appimage_queue;
        let mut k: usize = 0;
        proof {
            assert(srcs.take(0) =~= Seq::<SourceV>::empty());
            assert(self@.index_queue =~= iq0 + joined_children(srcs.take(0), base_v, true));
            assert(self@.appimage_queue =~= aq0 + joined_children(srcs.take(0), base_v, false));
        }
        while k < iy.sources.len()
            invariant
                k <= iy.sources.len(),
                srcs == iy@,
                base_v == base@,
                srcs.len() == iy.sources.len(),
                !self@.failed,
                self@.visited == old(self)@.visited,
                self@.roots == old(self)@.roots,
                self@.root_pos == old(self)@.root_pos,
                self@.incremental == old(self)@.incremental,
                self@.index == old(self)@.index,
                self@.hashes == old(self)@.hashes,
                self@.pending == old(self)@.pending,
                self@.failed == old(self)@.failed,
                iq0 == old(self)@.index_queue,
                aq0 == old(self)@.appimage_queue,
                self@.index_queue == iq0 + joined_children(srcs.take(k as int), base_v, true),
                self@.appimage_queue == aq0 + joined_children(srcs.take(k as int), base_v, false),
                forall|j: int|
                    0 <= j < k ==> (#[trigger] srcs[j]).url.len() > 0 && url_join_ok(
                        base_v,
                        srcs[j].url,
                    ),
            decreases iy.sources.len() - k,
        {
            let child = &iy.sources[k];
            proof {
                assert(srcs[k as int] == iy.sources@[k as int]@);
            }
            if child.url.as_str().unicode_len() == 0 {
                self.failed = true;
                return Err(ResolveError::ManifestValidation { url: base.clone() });
            }
            match resolve_relative_url(base.as_str(), child.url.as_str()) {
                Some(resolved) => {
                    let ghost iq_pre = self@.index_queue;
                    let ghost aq_pre = self@.appimage_queue;
                    let is_index = matches!(child.source_type, crate::manifest::SourceType::Index);
                    if is_index {
                        self.index_queue.push(resolved);
                        proof {
                            assert(self@.index_queue =~= iq_pre.push(
                                url_join_of(base_v, srcs[k as int].url),
                            ));
                        }
                    } else {
                        self.appimage_queue.push(resolved);
                        proof {
                            assert(self@.appimage_queue =~= aq_pre.push(
                                url_join_of(base_v, srcs[k as int].url),
                            ));
                        }
                    }
                    proof {
                        lemma_joined_children_snoc(srcs, base_v, true, k as int);
                        lemma_joined_children_snoc(srcs, base_v, false, k as int);
                        assert(srcs[k as int].is_index == is_index);
                        if is_index {
                            assert(self@.index_queue =~= iq0 + joined_children(
                                srcs.take(k as int + 1),
                                base_v,
                                true,
                            ));
                            assert(self@.appimage_queue =~= aq0 + joined_children(
                                srcs.take(k as int + 1),
                                base_v,
                                false,
                            ));
                        } else {
                            assert(self@.index_queue =~= iq0 + joined_children(
                                srcs.take(k as int + 1),
                                base_v,
                                true,
                            ));
                            assert(self@.appimage_queue =~= aq0 + joined_children(
                                srcs.take(k as int + 1),
                                base_v,
                                false,
                            ));
                        }
                    }
                },
                None => {
                    self.failed = true;
                    return Err(ResolveError::InvalidUrl { url: child.url.clone() });
                },
            }
            k = k + 1;
        }
        proof {
            assert(srcs.take(srcs.len() as int) =~= srcs);
        }
        Ok(())
    }

    /// Replaces this location's contribution to the index with the entries
    /// of a validated package manifest.
    fn ingest_package(&mut self, ay: &AppImageYaml, url: &String)
        ensures
            final(self)@.visited == old(self)@.visited,
            final(self)@.roots == old(self)@.roots,
            final(self)@.root_pos == old(self)@.root_pos,
            final(self)@.incremental == old(self)@.incremental,
            final(self)@.hashes == old(self)@.hashes,
            final(self)@.pending == old(self)@.pending,
            final(self)@.failed == old(self)@.failed,
            final(self)@.index_queue == old(self)@.index_queue,
            final(self)@.appimage_queue == old(self)@.appimage_queue,
            final(self)@.index.entries == old(self)@.index.entries.filter(
                |e: EntryWithSourceV| e.source_url != url@,
            ) + with_source(ay@, url@),
            final(self)@.index.last_updated == old(self)@.index.last_updated,
    {
        self.index.purge_source(url.as_str());
        let ghost purged = self@.index.entries;
        let ghost apps = ay@;
        let mut k: usize = 0;
        proof {
            assert(with_source(apps.take(0), url@) =~= Seq::<EntryWithSourceV>::empty());
            assert(self@.index.entries =~= purged + with_source(apps.take(0), url@));
        }
        while k < ay.apps.len()
            invariant
                k <= ay.apps.len(),
                apps == ay@,
                apps.len() == ay.apps.len(),
                self@.visited == old(self)@.visited,
                self@.roots == old(self)@.roots,
                self@.root_pos == old(self)@.root_pos,
                self@.incremental == old(self)@.incremental,
                self@.hashes == old(self)@.hashes,
                self@.pending == old(self)@.pending,
                self@.failed == old(self)@.failed,
                self@.index_queue == old(self)@.index_queue,
                self@.appimage_queue == old(self)@.appimage_queue,
                purged == old(self)@.index.entries.filter(
                    |e: EntryWithSourceV| e.source_url != url@,
                ),
                self@.index.entries == purged + with_source(apps.take(k as int), url@),
                self@.index.last_updated == old(self)@.index.last_updated,
            decreases ay.apps.len() - k,
        {
            let copy = ay.apps[k].duplicate();
            let ghost pre = self@.index.entries;
            self.index.add_entry(copy, url.clone());
            proof {
                assert(apps[k as int] == ay.apps@[k as int]@);
                assert(with_source(apps.take(k as int + 1), url@) =~= with_source(
                    apps.take(k as int),
                    url@,
                ).push(EntryWithSourceV { entry: apps[k as int], source_url: url@ }));
                assert(self@.index.entries =~= purged + with_source(
                    apps.take(k as int + 1),
                    url@,
                ));
            }
            k = k + 1;
        }
        proof {
            assert(apps.take(apps.len() as int) =~= apps);
        }
    }
}

/// Why an index manifest is rejected on its own.
#[derive(Debug)]
pub enum IndexValidateError {
    /// A listed location is empty.
    EmptyUrl,
    /// A listed location does not parse as an absolute URL.
    BadUrl { url: String },
}

/// The first rejection among an index manifest's sources: an empty
/// location, or one that does not parse as an absolute URL.
pub open spec fn first_source_error(srcs: Seq<SourceV>) -> Option<(bool, Seq<char>)>
    decreases srcs.len(),
{
    if srcs.len() == 0 {
        None
    } else if srcs[0].url.len() == 0 {
        Some((true, srcs[0].url))
    } else if !url_well_formed(srcs[0].url) {
        Some((false, srcs[0].url))
    } else {
        first_source_error(srcs.skip(1))
    }
}

impl IndexYaml {
    /// Checks that every listed location is non-empty and parses as an
    /// absolute URL; rejects the whole manifest at the first that is not.
    pub fn validate(&self) -> (r: Result<(), IndexValidateError>)
        ensures
            match r {
                Ok(()) => first_source_error(self@) is None,
                Err(IndexValidateError::EmptyUrl) => first_source_error(self@) matches Some(
                    (empty, _),
                ) && empty,
                Err(IndexValidateError::BadUrl { url }) => first_source_error(self@) matches Some(
                    (empty, u),
                ) && !empty && u == url@,
            },
    {
        let ghost srcs = self@;
        let mut i: usize = 0;
        proof {
            assert(srcs.skip(0) =~= srcs);
        }
        while i < self.sources.len()
            invariant
                i <= self.sources.len(),
                srcs == self@,
                srcs.len() == self.sources.len(),
                first_source_error(srcs) == first_source_error(srcs.skip(i as int)),
            decreases self.sources.len() - i,
        {
            proof {
                assert(srcs.skip(i as int)[0] == srcs[i as int]);
                assert(srcs.skip(i as int).skip(1) =~= srcs.skip(i as int + 1));
                assert(srcs[i as int] == self.sources@[i as int]@);
            }
            let u = &self.sources[i].url;
            if u.as_str().unicode_len() == 0 {
                return Err(IndexValidateError::EmptyUrl);
            }
            if !crate::urlutil::url_is_valid(u.as_str()) {
                return Err(IndexValidateError::BadUrl { url: u.clone() });
            }
            i = i + 1;
        }
        proof {
            assert(srcs.skip(i as int).len() == 0);
        }
        Ok(())
    }
}

} // verus!

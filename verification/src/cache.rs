//! The persisted cache artifacts: the unified index as one whole-file
//! replacement, and the per-source content-hash records with the refresh
//! moment beside them.

use vstd::prelude::*;
use vstd::string::StrSliceExecFns;
use vstd::string::StringExecFns;
use crate::entry::{AppImageEntryWithSource, EntryWithSourceV};
use crate::index::{IndexV, UnifiedIndex};
use crate::manifest::{
    entry_lines, entry_serializable, parse_entry, parse_entry_exec, push_entry_lines, starts,
    val_of, ParseError, UnserializableError,
};
use crate::resolver::{SourceHash, SourceHashV};
use crate::text::{
    join_lines, no_newline, spec_join_lines, spec_split_lines, split_lines, str_eq,
    str_has_prefix, str_no_newline, str_suffix,
};

verus! {

pub open spec fn h_index() -> Seq<char> {
    seq!['i', 'n', 'd', 'e', 'x', ':']
}

pub open spec fn p_updated() -> Seq<char> {
    seq!['u', 'p', 'd', 'a', 't', 'e', 'd', ':', ' ']
}

pub open spec fn p_source() -> Seq<char> {
    seq![' ', ' ', 's', 'o', 'u', 'r', 'c', 'e', ':', ' ']
}

pub open spec fn h_cache() -> Seq<char> {
    seq!['c', 'a', 'c', 'h', 'e', ':']
}

pub open spec fn p_url_rec() -> Seq<char> {
    seq!['-', ' ', 'u', 'r', 'l', ':', ' ']
}

pub open spec fn p_hash_rec() -> Seq<char> {
    seq![' ', ' ', 'h', 'a', 's', 'h', ':', ' ']
}

// --- The cached unified index ----------------------------------------------

/// The lines of one cached entry: its manifest block, then the source it
/// was discovered from.
pub open spec fn cached_entry_lines(e: EntryWithSourceV) -> Seq<Seq<char>> {
    entry_lines(e.entry).push(p_source() + e.source_url)
}

pub open spec fn cached_entries_lines(es: Seq<EntryWithSourceV>) -> Seq<Seq<char>>
    decreases es.len(),
{
    if es.len() == 0 {
        Seq::empty()
    } else {
        cached_entry_lines(es[0]) + cached_entries_lines(es.skip(1))
    }
}

/// The lines of the cached index: a header, the refresh moment when one
/// is recorded, then the entries.
pub open spec fn index_cache_lines(ix: IndexV) -> Seq<Seq<char>> {
    seq![h_index()] + (match ix.last_updated {
        Some(t) => seq![p_updated() + t],
        None => Seq::<Seq<char>>::empty(),
    }) + cached_entries_lines(ix.entries)
}

pub open spec fn spec_serialize_index_cache(ix: IndexV) -> Seq<char> {
    spec_join_lines(index_cache_lines(ix))
}

/// Reads one cached entry: a manifest block and its source line.
pub open spec fn parse_cached_entry(ls: Seq<Seq<char>>, i: int) -> Option<
    (EntryWithSourceV, int),
> {
    match parse_entry(ls, i) {
        Some((e, j)) => if j < ls.len() && starts(ls[j], p_source()) {
            Some((EntryWithSourceV { entry: e, source_url: val_of(ls[j], p_source()) }, j + 1))
        } else {
            None
        },
        None => None,
    }
}

pub open spec fn parse_cached_entries(ls: Seq<Seq<char>>, i: int) -> Option<Seq<EntryWithSourceV>>
    decreases ls.len() - i,
{
    if i >= ls.len() {
        Some(Seq::empty())
    } else {
        match parse_cached_entry(ls, i) {
            None => None,
            Some((e, j)) => if i < j <= ls.len() {
                match parse_cached_entries(ls, j) {
                    Some(rest) => Some(seq![e] + rest),
                    None => None,
                }
            } else {
                None
            },
        }
    }
}

/// What parsing the cached index yields.
pub open spec fn spec_parse_index_cache(text: Seq<char>) -> Option<IndexV> {
    let ls = spec_split_lines(text);
    if ls.len() > 0 && ls[0] == h_index() {
        let (upd, start) = if ls.len() > 1 && starts(ls[1], p_updated()) {
            (Some(val_of(ls[1], p_updated())), 2int)
        } else {
            (None, 1int)
        };
        match parse_cached_entries(ls, start) {
            Some(es) => Some(IndexV { entries: es, last_updated: upd }),
            None => None,
        }
    } else {
        None
    }
}

/// True when every text field of the cached index fits on one line.
pub open spec fn index_cache_serializable(ix: IndexV) -> bool {
    &&& (match ix.last_updated {
        Some(t) => no_newline(t),
        None => true,
    })
    &&& forall|i: int|
        0 <= i < ix.entries.len() ==> entry_serializable((#[trigger] ix.entries[i]).entry)
            && no_newline(ix.entries[i].source_url)
}

fn s_h_index() -> (r: &'static str)
    ensures
        r@ == h_index(),
{
    let s = "index:";
    proof {
        reveal_strlit("index:");
        assert(s@ =~= h_index());
    }
    s
}

fn s_p_updated() -> (r: &'static str)
    ensures
        r@ == p_updated(),
{
    let s = "updated: ";
    proof {
        reveal_strlit("updated: ");
        assert(s@ =~= p_updated());
    }
    s
}

fn s_p_source() -> (r: &'static str)
    ensures
        r@ == p_source(),
{
    let s = "  source: ";
    proof {
        reveal_strlit("  source: ");
        assert(s@ =~= p_source());
    }
    s
}

fn line_of(pfx: &str, v: &str) -> (r: String)
    ensures
        r@ == pfx@ + v@,
{
    let mut l = String::new();
    l.append(pfx);
    l.append(v);
    proof {
        assert(l@ =~= pfx@ + v@);
    }
    l
}

/// Serializes the unified index for its cache file; fails exactly when
/// some field spans a line.
pub fn serialize_index_cache(ix: &UnifiedIndex) -> (r: Result<String, UnserializableError>)
    ensures
        match r {
            Ok(t) => index_cache_serializable(ix@) && t@ == spec_serialize_index_cache(ix@),
            Err(_) => !index_cache_serializable(ix@),
        },
{
    match &ix.last_updated {
        Some(t) => {
            if !str_no_newline(t.as_str()) {
                return Err(UnserializableError {});
            }
        },
        None => {},
    }
    let mut i: usize = 0;
    while i < ix.entries.len()
        invariant
            i <= ix.entries.len(),
            forall|j: int|
                0 <= j < i ==> entry_serializable((#[trigger] ix@.entries[j]).entry)
                    && no_newline(ix@.entries[j].source_url),
        decreases ix.entries.len() - i,
    {
        let e = &ix.entries[i];
        proof {
            assert(ix@.entries[i as int] == ix.entries@[i as int]@);
        }
        if !crate::manifest::entry_fits(&e.entry) || !str_no_newline(e.source_url.as_str()) {
            proof {
                assert(!(entry_serializable(ix@.entries[i as int].entry) && no_newline(
                    ix@.entries[i as int].source_url,
                )));
            }
            return Err(UnserializableError {});
        }
        i = i + 1;
    }
    let mut lines: Vec<String> = Vec::new();
    lines.push(s_h_index().to_owned());
    match &ix.last_updated {
        Some(t) => {
            lines.push(line_of(s_p_updated(), t.as_str()));
        },
        None => {},
    }
    let ghost hdrpart = seq![h_index()] + (match ix@.last_updated {
        Some(t) => seq![p_updated() + t],
        None => Seq::<Seq<char>>::empty(),
    });
    proof {
        assert(lines.deep_view() =~= hdrpart);
        assert(cached_entries_lines(ix@.entries.take(0)) =~= Seq::<Seq<char>>::empty());
        assert(lines.deep_view() =~= hdrpart + cached_entries_lines(ix@.entries.take(0)));
    }
    let mut k: usize = 0;
    while k < ix.entries.len()
        invariant
            k <= ix.entries.len(),
            hdrpart == seq![h_index()] + (match ix@.last_updated {
                Some(t) => seq![p_updated() + t],
                None => Seq::<Seq<char>>::empty(),
            }),
            lines.deep_view() == hdrpart + cached_entries_lines(ix@.entries.take(k as int)),
        decreases ix.entries.len() - k,
    {
        let e = &ix.entries[k];
        proof {
            assert(ix@.entries[k as int] == ix.entries@[k as int]@);
        }
        let ghost base = lines.deep_view();
        push_entry_lines(&mut lines, &e.entry);
        let ghost withblock = lines.deep_view();
        lines.push(line_of(s_p_source(), e.source_url.as_str()));
        proof {
            assert(lines.deep_view() =~= withblock.push(
                p_source() + ix@.entries[k as int].source_url,
            ));
            assert(lines.deep_view() =~= base + cached_entry_lines(ix@.entries[k as int]));
            lemma_cached_entries_snoc(ix@.entries, k as int);
            assert(lines.deep_view() =~= hdrpart + cached_entries_lines(
                ix@.entries.take(k as int + 1),
            ));
        }
        k = k + 1;
    }
    proof {
        assert(ix@.entries.take(ix.entries.len() as int) =~= ix@.entries);
        assert(lines.deep_view() =~= index_cache_lines(ix@));
    }
    Ok(join_lines(&lines))
}

proof fn lemma_cached_entries_snoc(es: Seq<EntryWithSourceV>, k: int)
    requires
        0 <= k < es.len(),
    ensures
        cached_entries_lines(es.take(k + 1)) == cached_entries_lines(es.take(k))
            + cached_entry_lines(es[k]),
    decreases k,
{
    if k == 0 {
        assert(es.take(1)[0] == es[0]);
        assert(es.take(1).skip(1) =~= Seq::<EntryWithSourceV>::empty());
        assert(es.take(0) =~= Seq::<EntryWithSourceV>::empty());
        assert(cached_entries_lines(es.take(1)) =~= cached_entry_lines(es[0])
            + cached_entries_lines(Seq::<EntryWithSourceV>::empty()));
        assert(cached_entries_lines(es.take(0)) + cached_entry_lines(es[0])
            =~= cached_entries_lines(es.take(1)));
    } else {
        lemma_cached_entries_snoc(es.skip(1), k - 1);
        assert(es.take(k + 1)[0] == es[0]);
        assert(es.take(k)[0] == es[0]);
        assert(es.take(k + 1).skip(1) =~= es.skip(1).take(k));
        assert(es.take(k).skip(1) =~= es.skip(1).take(k - 1));
        assert(es.skip(1)[k - 1] == es[k]);
        assert(cached_entries_lines(es.take(k + 1)) == cached_entry_lines(es[0])
            + cached_entries_lines(es.skip(1).take(k)));
        assert(cached_entries_lines(es.take(k)) == cached_entry_lines(es[0])
            + cached_entries_lines(es.skip(1).take(k - 1)));
        assert(cached_entry_lines(es[0]) + (cached_entries_lines(es.skip(1).take(k - 1))
            + cached_entry_lines(es[k])) =~= (cached_entry_lines(es[0]) + cached_entries_lines(
            es.skip(1).take(k - 1),
        )) + cached_entry_lines(es[k]));
    }
}

/// Parses the cached unified index.
pub fn parse_index_cache(content: &str) -> (r: Result<UnifiedIndex, ParseError>)
    ensures
        match r {
            Ok(ix) => spec_parse_index_cache(content@) == Some(ix@),
            Err(_) => spec_parse_index_cache(content@) is None,
        },
{
    let lines = split_lines(content);
    let ghost ls = spec_split_lines(content@);
    if lines.len() == 0 {
        return Err(ParseError {});
    }
    if !str_eq(lines[0].as_str(), s_h_index()) {
        return Err(ParseError {});
    }
    let mut start: usize = 1;
    let mut updated: Option<String> = None;
    if lines.len() > 1 {
        proof {
            assert(ls[1] == lines@[1]@);
        }
        if str_has_prefix(lines[1].as_str(), s_p_updated()) {
            proof {
                assert(p_updated().len() == 9);
            }
            updated = Some(str_suffix(lines[1].as_str(), 9));
            start = 2;
        }
    }
    let ghost upd = match updated {
        Some(ref t) => Some(t@),
        None => None::<Seq<char>>,
    };
    proof {
        assert(upd == (if ls.len() > 1 && starts(ls[1], p_updated()) {
            Some(val_of(ls[1], p_updated()))
        } else {
            None::<Seq<char>>
        }));
    }
    let mut entries: Vec<AppImageEntryWithSource> = Vec::new();
    let mut i: usize = start;
    proof {
        assert(entries.deep_view() =~= Seq::<EntryWithSourceV>::empty());
        assert(Seq::<EntryWithSourceV>::empty() + parse_cached_entries(
            ls,
            start as int,
        ).unwrap_or(Seq::empty()) =~= parse_cached_entries(ls, start as int).unwrap_or(
            Seq::empty(),
        ));
    }
    while i < lines.len()
        invariant
            start <= i <= lines.len(),
            ls == lines.deep_view(),
            ls == spec_split_lines(content@),
            ls.len() == lines.len(),
            spec_parse_index_cache(content@) == (match parse_cached_entries(ls, start as int) {
                Some(es) => Some(IndexV { entries: es, last_updated: upd }),
                None => None::<IndexV>,
            }),
            parse_cached_entries(ls, start as int) == (match parse_cached_entries(ls, i as int) {
                Some(rest) => Some(entries.deep_view() + rest),
                None => None::<Seq<EntryWithSourceV>>,
            }),
        decreases lines.len() - i,
    {
        let (e, j) = match parse_entry_exec(&lines, i) {
            Some(p) => p,
            None => {
                proof {
                    assert(parse_cached_entry(ls, i as int) is None);
                }
                return Err(ParseError {});
            },
        };
        if j >= lines.len() {
            proof {
                assert(parse_cached_entry(ls, i as int) is None);
            }
            return Err(ParseError {});
        }
        proof {
            assert(ls[j as int] == lines@[j as int]@);
        }
        if !str_has_prefix(lines[j].as_str(), s_p_source()) {
            proof {
                assert(parse_cached_entry(ls, i as int) is None);
            }
            return Err(ParseError {});
        }
        proof {
            assert(p_source().len() == 10);
        }
        let source_url = str_suffix(lines[j].as_str(), 10);
        let ghost ev = parse_cached_entry(ls, i as int).unwrap().0;
        let rec = AppImageEntryWithSource { entry: e, source_url };
        proof {
            assert(rec@ =~= ev);
        }
        entries.push(rec);
        proof {
            assert(entries.deep_view() =~= entries.deep_view().take(
                entries.deep_view().len() - 1,
            ).push(ev));
            assert(forall|rest: Seq<EntryWithSourceV>|
                entries.deep_view().take(entries.deep_view().len() - 1) + (seq![ev] + rest)
                    =~= entries.deep_view() + rest);
        }
        i = j + 1;
    }
    proof {
        assert(parse_cached_entries(ls, i as int) == Some(Seq::<EntryWithSourceV>::empty()));
        assert(entries.deep_view() + Seq::<EntryWithSourceV>::empty() =~= entries.deep_view());
    }
    let ix = UnifiedIndex { entries, last_updated: updated };
    proof {
        assert(ix@ =~= spec_parse_index_cache(content@).unwrap());
    }
    Ok(ix)
}

// --- The cache metadata ------------------------------------------------------

/// The refresh moment and the per-source content hashes, as persisted.
pub struct CacheMetadata {
    pub last_updated: String,
    pub source_hashes: Vec<SourceHash>,
}

#[verifier::ext_equal]
pub ghost struct CacheMetadataV {
    pub last_updated: Seq<char>,
    pub source_hashes: Seq<SourceHashV>,
}

impl View for CacheMetadata {
    type V = CacheMetadataV;

    open spec fn view(&self) -> CacheMetadataV {
        CacheMetadataV {
            last_updated: self.last_updated@,
            source_hashes: self.source_hashes.deep_view(),
        }
    }
}

pub open spec fn hash_record_lines(h: SourceHashV) -> Seq<Seq<char>> {
    seq![p_url_rec() + h.url, p_hash_rec() + h.hash]
}

pub open spec fn hash_records_lines(hs: Seq<SourceHashV>) -> Seq<Seq<char>>
    decreases hs.len(),
{
    if hs.len() == 0 {
        Seq::empty()
    } else {
        hash_record_lines(hs[0]) + hash_records_lines(hs.skip(1))
    }
}

pub open spec fn cache_metadata_lines(m: CacheMetadataV) -> Seq<Seq<char>> {
    seq![h_cache(), p_updated() + m.last_updated] + hash_records_lines(m.source_hashes)
}

pub open spec fn spec_serialize_cache_metadata(m: CacheMetadataV) -> Seq<char> {
    spec_join_lines(cache_metadata_lines(m))
}

pub open spec fn parse_hash_records(ls: Seq<Seq<char>>, i: int) -> Option<Seq<SourceHashV>>
    decreases ls.len() - i,
{
    if i >= ls.len() {
        Some(Seq::empty())
    } else if i + 2 <= ls.len() && starts(ls[i], p_url_rec()) && starts(ls[i + 1], p_hash_rec()) {
        match parse_hash_records(ls, i + 2) {
            Some(rest) => Some(
                seq![
                    SourceHashV {
                        url: val_of(ls[i], p_url_rec()),
                        hash: val_of(ls[i + 1], p_hash_rec()),
                    },
                ] + rest,
            ),
            None => None,
        }
    } else {
        None
    }
}

/// What parsing the cache metadata yields.
pub open spec fn spec_parse_cache_metadata(text: Seq<char>) -> Option<CacheMetadataV> {
    let ls = spec_split_lines(text);
    if ls.len() >= 2 && ls[0] == h_cache() && starts(ls[1], p_updated()) {
        match parse_hash_records(ls, 2) {
            Some(hs) => Some(
                CacheMetadataV { last_updated: val_of(ls[1], p_updated()), source_hashes: hs },
            ),
            None => None,
        }
    } else {
        None
    }
}

pub open spec fn cache_metadata_serializable(m: CacheMetadataV) -> bool {
    no_newline(m.last_updated) && forall|i: int|
        0 <= i < m.source_hashes.len() ==> no_newline((#[trigger] m.source_hashes[i]).url)
            && no_newline(m.source_hashes[i].hash)
}

fn s_h_cache() -> (r: &'static str)
    ensures
        r@ == h_cache(),
{
    let s = "cache:";
    proof {
        reveal_strlit("cache:");
        assert(s@ =~= h_cache());
    }
    s
}

fn s_p_url_rec() -> (r: &'static str)
    ensures
        r@ == p_url_rec(),
{
    let s = "- url: ";
    proof {
        reveal_strlit("- url: ");
        assert(s@ =~= p_url_rec());
    }
    s
}

fn s_p_hash_rec() -> (r: &'static str)
    ensures
        r@ == p_hash_rec(),
{
    let s = "  hash: ";
    proof {
        reveal_strlit("  hash: ");
        assert(s@ =~= p_hash_rec());
    }
    s
}

/// Serializes the cache metadata; fails exactly when some field spans a
/// line.
pub fn serialize_cache_metadata(m: &CacheMetadata) -> (r: Result<String, UnserializableError>)
    ensures
        match r {
            Ok(t) => cache_metadata_serializable(m@) && t@ == spec_serialize_cache_metadata(m@),
            Err(_) => !cache_metadata_serializable(m@),
        },
{
    if !str_no_newline(m.last_updated.as_str()) {
        return Err(UnserializableError {});
    }
    let mut i: usize = 0;
    while i < m.source_hashes.len()
        invariant
            i <= m.source_hashes.len(),
            forall|j: int|
                0 <= j < i ==> no_newline((#[trigger] m@.source_hashes[j]).url) && no_newline(
                    m@.source_hashes[j].hash,
                ),
        decreases m.source_hashes.len() - i,
    {
        proof {
            assert(m@.source_hashes[i as int] == m.source_hashes@[i as int]@);
        }
        if !str_no_newline(m.source_hashes[i].url.as_str()) || !str_no_newline(
            m.source_hashes[i].hash.as_str(),
        ) {
            proof {
                assert(!(no_newline(m@.source_hashes[i as int].url) && no_newline(
                    m@.source_hashes[i as int].hash,
                )));
            }
            return Err(UnserializableError {});
        }
        i = i + 1;
    }
    let mut lines: Vec<String> = Vec::new();
    lines.push(s_h_cache().to_owned());
    lines.push(line_of(s_p_updated(), m.last_updated.as_str()));
    let ghost hdrpart = seq![h_cache(), p_updated() + m@.last_updated];
    proof {
        assert(lines.deep_view() =~= hdrpart);
        assert(hash_records_lines(m@.source_hashes.take(0)) =~= Seq::<Seq<char>>::empty());
        assert(lines.deep_view() =~= hdrpart + hash_records_lines(m@.source_hashes.take(0)));
    }
    let mut k: usize = 0;
    while k < m.source_hashes.len()
        invariant
            k <= m.source_hashes.len(),
            hdrpart == seq![h_cache(), p_updated() + m@.last_updated],
            lines.deep_view() == hdrpart + hash_records_lines(m@.source_hashes.take(k as int)),
        decreases m.source_hashes.len() - k,
    {
        let h = &m.source_hashes[k];
        proof {
            assert(m@.source_hashes[k as int] == m.source_hashes@[k as int]@);
        }
        let ghost base = lines.deep_view();
        lines.push(line_of(s_p_url_rec(), h.url.as_str()));
        lines.push(line_of(s_p_hash_rec(), h.hash.as_str()));
        proof {
            assert(lines.deep_view() =~= base + hash_record_lines(m@.source_hashes[k as int]));
            lemma_hash_records_snoc(m@.source_hashes, k as int);
            assert(lines.deep_view() =~= hdrpart + hash_records_lines(
                m@.source_hashes.take(k as int + 1),
            ));
        }
        k = k + 1;
    }
    proof {
        assert(m@.source_hashes.take(m.source_hashes.len() as int) =~= m@.source_hashes);
        assert(lines.deep_view() =~= cache_metadata_lines(m@));
    }
    Ok(join_lines(&lines))
}

proof fn lemma_hash_records_snoc(hs: Seq<SourceHashV>, k: int)
    requires
        0 <= k < hs.len(),
    ensures
        hash_records_lines(hs.take(k + 1)) == hash_records_lines(hs.take(k)) + hash_record_lines(
            hs[k],
        ),
    decreases k,
{
    if k == 0 {
        assert(hs.take(1)[0] == hs[0]);
        assert(hs.take(1).skip(1) =~= Seq::<SourceHashV>::empty());
        assert(hs.take(0) =~= Seq::<SourceHashV>::empty());
        assert(hash_records_lines(hs.take(1)) =~= hash_record_lines(hs[0]) + hash_records_lines(
            Seq::<SourceHashV>::empty(),
        ));
        assert(hash_records_lines(hs.take(0)) + hash_record_lines(hs[0]) =~= hash_records_lines(
            hs.take(1),
        ));
    } else {
        lemma_hash_records_snoc(hs.skip(1), k - 1);
        assert(hs.take(k + 1)[0] == hs[0]);
        assert(hs.take(k)[0] == hs[0]);
        assert(hs.take(k + 1).skip(1) =~= hs.skip(1).take(k));
        assert(hs.take(k).skip(1) =~= hs.skip(1).take(k - 1));
        assert(hs.skip(1)[k - 1] == hs[k]);
        assert(hash_records_lines(hs.take(k + 1)) == hash_record_lines(hs[0])
            + hash_records_lines(hs.skip(1).take(k)));
        assert(hash_records_lines(hs.take(k)) == hash_record_lines(hs[0]) + hash_records_lines(
            hs.skip(1).take(k - 1),
        ));
        assert(hash_record_lines(hs[0]) + (hash_records_lines(hs.skip(1).take(k - 1))
            + hash_record_lines(hs[k])) =~= (hash_record_lines(hs[0]) + hash_records_lines(
            hs.skip(1).take(k - 1),
        )) + hash_record_lines(hs[k]));
    }
}

/// Parses the persisted cache metadata.
pub fn parse_cache_metadata(content: &str) -> (r: Result<CacheMetadata, ParseError>)
    ensures
        match r {
            Ok(m) => spec_parse_cache_metadata(content@) == Some(m@),
            Err(_) => spec_parse_cache_metadata(content@) is None,
        },
{
    let lines = split_lines(content);
    let ghost ls = spec_split_lines(content@);
    if lines.len() < 2 {
        return Err(ParseError {});
    }
    if !str_eq(lines[0].as_str(), s_h_cache()) {
        return Err(ParseError {});
    }
    proof {
        assert(ls[1] == lines@[1]@);
    }
    if !str_has_prefix(lines[1].as_str(), s_p_updated()) {
        return Err(ParseError {});
    }
    proof {
        assert(p_updated().len() == 9);
    }
    let last_updated = str_suffix(lines[1].as_str(), 9);
    let mut hs: Vec<SourceHash> = Vec::new();
    let mut i: usize = 2;
    proof {
        assert(hs.deep_view() =~= Seq::<SourceHashV>::empty());
        assert(Seq::<SourceHashV>::empty() + parse_hash_records(ls, 2).unwrap_or(Seq::empty())
            =~= parse_hash_records(ls, 2).unwrap_or(Seq::empty()));
    }
    while i < lines.len()
        invariant
            2 <= i <= lines.len(),
            ls == lines.deep_view(),
            ls == spec_split_lines(content@),
            ls.len() == lines.len(),
            parse_hash_records(ls, 2) == (match parse_hash_records(ls, i as int) {
                Some(rest) => Some(hs.deep_view() + rest),
                None => None::<Seq<SourceHashV>>,
            }),
        decreases lines.len() - i,
    {
        if lines.len() - i < 2 {
            proof {
                assert(parse_hash_records(ls, i as int) is None);
            }
            return Err(ParseError {});
        }
        proof {
            assert(ls[i as int] == lines@[i as int]@);
            assert(ls[i as int + 1] == lines@[i as int + 1]@);
        }
        if !str_has_prefix(lines[i].as_str(), s_p_url_rec()) {
            proof {
                assert(parse_hash_records(ls, i as int) is None);
            }
            return Err(ParseError {});
        }
        if !str_has_prefix(lines[i + 1].as_str(), s_p_hash_rec()) {
            proof {
                assert(parse_hash_records(ls, i as int) is None);
            }
            return Err(ParseError {});
        }
        proof {
            assert(p_url_rec().len() == 7);
            assert(p_hash_rec().len() == 8);
        }
        let url = str_suffix(lines[i].as_str(), 7);
        let hash = str_suffix(lines[i + 1].as_str(), 8);
        let rec = SourceHash { url, hash };
        let ghost hv = SourceHashV {
            url: val_of(ls[i as int], p_url_rec()),
            hash: val_of(ls[i as int + 1], p_hash_rec()),
        };
        proof {
            assert(rec@ =~= hv);
        }
        hs.push(rec);
        proof {
            assert(hs.deep_view() =~= hs.deep_view().take(hs.deep_view().len() - 1).push(hv));
            assert(forall|rest: Seq<SourceHashV>|
                hs.deep_view().take(hs.deep_view().len() - 1) + (seq![hv] + rest)
                    =~= hs.deep_view() + rest);
        }
        i = i + 2;
    }
    proof {
        assert(parse_hash_records(ls, i as int) == Some(Seq::<SourceHashV>::empty()));
        assert(hs.deep_view() + Seq::<SourceHashV>::empty() =~= hs.deep_view());
    }
    let m = CacheMetadata { last_updated, source_hashes: hs };
    proof {
        assert(m@ =~= spec_parse_cache_metadata(content@).unwrap());
    }
    Ok(m)
}

} // verus!

//! The manifest wire format.
//!
//! Two document shapes share one line-oriented syntax.  A package manifest
//! starts with `apps:` and lists entries; an index manifest starts with
//! `sources:` and lists further source locations.  A document is read as
//! one shape by attempting the other first and falling back, so no
//! explicit discriminator is needed.  Every entry field sits on its own
//! line under a fixed prefix; list fields hold one item per line.
//! Serialization is canonical, and parsing a serialized manifest yields
//! the manifest back.

use vstd::prelude::*;
use vstd::string::StrSliceExecFns;
use vstd::string::StringExecFns;
use crate::entry::{AppImageEntry, AppImageYaml, EntryV};
use crate::text::{
    no_newline, spec_join_lines, spec_parse_u64, spec_render_u64, spec_split_lines, wf_lines,
    lemma_split_join_lines, lemma_parse_render_u64, lemma_render_digits, join_lines, parse_u64_str,
    render_u64, split_lines, str_eq, str_has_prefix, str_no_newline, str_suffix,
};

verus! {

// --- Line prefixes and headers -------------------------------------------

pub open spec fn h_apps() -> Seq<char> {
    seq!['a', 'p', 'p', 's', ':']
}

pub open spec fn p_name() -> Seq<char> {
    seq!['-', ' ', 'n', 'a', 'm', 'e', ':', ' ']
}

pub open spec fn p_version() -> Seq<char> {
    seq![' ', ' ', 'v', 'e', 'r', 's', 'i', 'o', 'n', ':', ' ']
}

pub open spec fn p_file() -> Seq<char> {
    seq![' ', ' ', 'f', 'i', 'l', 'e', ':', ' ']
}

pub open spec fn p_sha() -> Seq<char> {
    seq![' ', ' ', 's', 'h', 'a', '2', '5', '6', ':', ' ']
}

pub open spec fn p_size() -> Seq<char> {
    seq![' ', ' ', 's', 'i', 'z', 'e', ':', ' ']
}

pub open spec fn p_desc() -> Seq<char> {
    seq![' ', ' ', 'd', 'e', 's', 'c', 'r', 'i', 'p', 't', 'i', 'o', 'n', ':', ' ']
}

pub open spec fn h_deps() -> Seq<char> {
    seq![' ', ' ', 'd', 'e', 'p', 'e', 'n', 'd', 'e', 'n', 'c', 'i', 'e', 's', ':']
}

pub open spec fn h_prov() -> Seq<char> {
    seq![' ', ' ', 'p', 'r', 'o', 'v', 'i', 'd', 'e', 's', ':']
}

pub open spec fn p_item() -> Seq<char> {
    seq![' ', ' ', '-', ' ']
}

/// True when `l` begins with the prefix `p`.
pub open spec fn starts(l: Seq<char>, p: Seq<char>) -> bool {
    p.is_prefix_of(l)
}

/// The remainder of `l` after the prefix `p`.
pub open spec fn val_of(l: Seq<char>, p: Seq<char>) -> Seq<char> {
    l.skip(p.len() as int)
}

/// A line made of a prefix and a value begins with that prefix, and the
/// value is recovered exactly.
pub proof fn lemma_prefix_val(p: Seq<char>, v: Seq<char>)
    ensures
        starts(p + v, p),
        val_of(p + v, p) == v,
{
    assert((p + v).subrange(0, p.len() as int) =~= p);
    assert((p + v).skip(p.len() as int) =~= v);
}

/// A line cannot begin with a prefix it contradicts at one position.
pub proof fn lemma_not_prefix(l: Seq<char>, p: Seq<char>, k: int)
    requires
        0 <= k < p.len(),
        k < l.len() ==> l[k] != p[k],
    ensures
        !starts(l, p),
{
    if starts(l, p) {
        assert(l.subrange(0, p.len() as int)[k] == l[k]);
    }
}

// --- Serialization (lines level) -----------------------------------------

/// The item lines of a list field.
pub open spec fn item_lines(items: Seq<Seq<char>>) -> Seq<Seq<char>> {
    items.map_values(|d: Seq<char>| p_item() + d)
}

/// The lines of one serialized entry: the four required fields, then the
/// optional size, description, dependency and provides blocks.
pub open spec fn entry_lines(e: EntryV) -> Seq<Seq<char>> {
    seq![p_name() + e.name, p_version() + e.version, p_file() + e.file, p_sha() + e.sha256]
        + (match e.size {
        Some(n) => seq![p_size() + spec_render_u64(n as int)],
        None => Seq::empty(),
    }) + (match e.description {
        Some(d) => seq![p_desc() + d],
        None => Seq::empty(),
    }) + (if e.dependencies.len() > 0 {
        seq![h_deps()] + item_lines(e.dependencies)
    } else {
        Seq::empty()
    }) + (if e.provides.len() > 0 {
        seq![h_prov()] + item_lines(e.provides)
    } else {
        Seq::empty()
    })
}

pub open spec fn entries_lines(apps: Seq<EntryV>) -> Seq<Seq<char>>
    decreases apps.len(),
{
    if apps.len() == 0 {
        Seq::empty()
    } else {
        entry_lines(apps[0]) + entries_lines(apps.skip(1))
    }
}

pub open spec fn package_lines(apps: Seq<EntryV>) -> Seq<Seq<char>> {
    seq![h_apps()] + entries_lines(apps)
}

/// The canonical text of a package manifest.
pub open spec fn spec_serialize_package(apps: Seq<EntryV>) -> Seq<char> {
    spec_join_lines(package_lines(apps))
}

/// True when no list item spans a line.
pub open spec fn items_one_line(items: Seq<Seq<char>>) -> bool {
    forall|i: int| 0 <= i < items.len() ==> no_newline(#[trigger] items[i])
}

/// True when every text field of the entry fits on one line.
pub open spec fn entry_serializable(e: EntryV) -> bool {
    no_newline(e.name) && no_newline(e.version) && no_newline(e.file) && no_newline(e.sha256)
        && (match e.description {
        Some(d) => no_newline(d),
        None => true,
    }) && items_one_line(e.dependencies) && items_one_line(e.provides)
}

pub open spec fn manifest_serializable(apps: Seq<EntryV>) -> bool {
    forall|i: int| 0 <= i < apps.len() ==> entry_serializable(#[trigger] apps[i])
}

// --- Parsing (lines level) -----------------------------------------------

/// Reads the optional size line.  A malformed number is a parse error.
pub open spec fn parse_size(ls: Seq<Seq<char>>, j: int) -> Option<(Option<u64>, int)> {
    if j < ls.len() && starts(ls[j], p_size()) {
        match spec_parse_u64(val_of(ls[j], p_size())) {
            Some(n) => Some((Some(n), j + 1)),
            None => None,
        }
    } else {
        Some((None, j))
    }
}

/// Reads the optional description line.
pub open spec fn parse_desc(ls: Seq<Seq<char>>, j: int) -> (Option<Seq<char>>, int) {
    if j < ls.len() && starts(ls[j], p_desc()) {
        (Some(val_of(ls[j], p_desc())), j + 1)
    } else {
        (None, j)
    }
}

/// Reads consecutive list-item lines.
pub open spec fn parse_items(ls: Seq<Seq<char>>, j: int) -> (Seq<Seq<char>>, int)
    decreases ls.len() - j,
{
    if j < ls.len() && starts(ls[j], p_item()) {
        let (rest, j2) = parse_items(ls, j + 1);
        (seq![val_of(ls[j], p_item())] + rest, j2)
    } else {
        (Seq::empty(), j)
    }
}

/// Reads an optional list block: a header line followed by its items.
pub open spec fn parse_list(ls: Seq<Seq<char>>, j: int, hdr: Seq<char>) -> (Seq<Seq<char>>, int) {
    if j < ls.len() && ls[j] == hdr {
        parse_items(ls, j + 1)
    } else {
        (Seq::empty(), j)
    }
}

/// Reads one entry starting at line `i`: the four required fields in
/// order, then the optional blocks.
pub open spec fn parse_entry(ls: Seq<Seq<char>>, i: int) -> Option<(EntryV, int)> {
    if 0 <= i && i + 4 <= ls.len() && starts(ls[i], p_name()) && starts(ls[i + 1], p_version())
        && starts(ls[i + 2], p_file()) && starts(ls[i + 3], p_sha()) {
        match parse_size(ls, i + 4) {
            Some((size, j1)) => {
                let (desc, j2) = parse_desc(ls, j1);
                let (deps, j3) = parse_list(ls, j2, h_deps());
                let (provides, j4) = parse_list(ls, j3, h_prov());
                Some(
                    (
                        EntryV {
                            name: val_of(ls[i], p_name()),
                            version: val_of(ls[i + 1], p_version()),
                            file: val_of(ls[i + 2], p_file()),
                            sha256: val_of(ls[i + 3], p_sha()),
                            size: size,
                            description: desc,
                            dependencies: deps,
                            provides: provides,
                        },
                        j4,
                    ),
                )
            },
            None => None,
        }
    } else {
        None
    }
}

/// Reads entries from line `i` to the end; any leftover line that does not
/// begin an entry fails the whole document.
pub open spec fn parse_entries(ls: Seq<Seq<char>>, i: int) -> Option<Seq<EntryV>>
    decreases ls.len() - i,
{
    if i >= ls.len() {
        Some(Seq::empty())
    } else {
        match parse_entry(ls, i) {
            None => None,
            Some((e, j)) => if i < j <= ls.len() {
                match parse_entries(ls, j) {
                    Some(rest) => Some(seq![e] + rest),
                    None => None,
                }
            } else {
                None
            },
        }
    }
}

/// What parsing a package manifest yields: its entries, when the text is a
/// well-formed package manifest.
pub open spec fn spec_parse_package(text: Seq<char>) -> Option<Seq<EntryV>> {
    let ls = spec_split_lines(text);
    if ls.len() > 0 && ls[0] == h_apps() {
        parse_entries(ls, 1)
    } else {
        None
    }
}

// --- Range facts ----------------------------------------------------------

pub proof fn lemma_parse_items_range(ls: Seq<Seq<char>>, j: int)
    requires
        0 <= j <= ls.len(),
    ensures
        j <= parse_items(ls, j).1 <= ls.len(),
    decreases ls.len() - j,
{
    if j < ls.len() && starts(ls[j], p_item()) {
        lemma_parse_items_range(ls, j + 1);
    }
}

pub proof fn lemma_parse_entry_range(ls: Seq<Seq<char>>, i: int)
    requires
        parse_entry(ls, i) is Some,
    ensures
        i + 4 <= parse_entry(ls, i).unwrap().1 <= ls.len(),
{
    let j0 = i + 4;
    match parse_size(ls, j0) {
        Some((size, j1)) => {
            assert(j0 <= j1 <= ls.len());
            let (desc, j2) = parse_desc(ls, j1);
            assert(j1 <= j2 <= ls.len());
            let (deps, j3) = parse_list(ls, j2, h_deps());
            if j2 < ls.len() && ls[j2] == h_deps() {
                lemma_parse_items_range(ls, j2 + 1);
            }
            assert(j2 <= j3 <= ls.len());
            let (provides, j4) = parse_list(ls, j3, h_prov());
            if j3 < ls.len() && ls[j3] == h_prov() {
                lemma_parse_items_range(ls, j3 + 1);
            }
            assert(j3 <= j4 <= ls.len());
        },
        None => {},
    }
}

// --- Round trip ------------------------------------------------------------

/// No continuation line (size, description, list header or item) begins a
/// new entry, and no entry line begins a continuation.
proof fn lemma_line_shapes()
    ensures
        forall|v: Seq<char>| !starts(#[trigger] (p_name() + v), p_size()),
        forall|v: Seq<char>| !starts(#[trigger] (p_name() + v), p_desc()),
        forall|v: Seq<char>| !starts(#[trigger] (p_name() + v), p_item()),
        forall|v: Seq<char>| (p_name() + v) != h_deps(),
        forall|v: Seq<char>| (p_name() + v) != h_prov(),
        forall|v: Seq<char>| !starts(#[trigger] (p_desc() + v), p_size()),
        forall|v: Seq<char>| !starts(#[trigger] (p_desc() + v), p_item()),
        forall|v: Seq<char>| (p_desc() + v) != h_deps(),
        forall|v: Seq<char>| (p_desc() + v) != h_prov(),
        !starts(h_deps(), p_size()),
        !starts(h_deps(), p_desc()),
        !starts(h_deps(), p_item()),
        h_deps() != h_prov(),
        !starts(h_prov(), p_size()),
        !starts(h_prov(), p_desc()),
        !starts(h_prov(), p_item()),
        h_prov() != h_deps(),
        forall|v: Seq<char>| !starts(#[trigger] (p_item() + v), p_size()),
        forall|v: Seq<char>| !starts(#[trigger] (p_item() + v), p_desc()),
        forall|v: Seq<char>| (p_item() + v) != h_deps(),
        forall|v: Seq<char>| (p_item() + v) != h_prov(),
        forall|v: Seq<char>| !starts(#[trigger] (p_size() + v), p_desc()),
{
    assert forall|v: Seq<char>| !starts(#[trigger] (p_name() + v), p_size()) by {
        lemma_not_prefix(p_name() + v, p_size(), 0);
    }
    assert forall|v: Seq<char>| !starts(#[trigger] (p_name() + v), p_desc()) by {
        lemma_not_prefix(p_name() + v, p_desc(), 0);
    }
    assert forall|v: Seq<char>| !starts(#[trigger] (p_name() + v), p_item()) by {
        lemma_not_prefix(p_name() + v, p_item(), 0);
    }
    assert forall|v: Seq<char>| (p_name() + v) != h_deps() by {
        assert((p_name() + v)[0] == '-' && h_deps()[0] == ' ');
    }
    assert forall|v: Seq<char>| (p_name() + v) != h_prov() by {
        assert((p_name() + v)[0] == '-' && h_prov()[0] == ' ');
    }
    assert forall|v: Seq<char>| !starts(#[trigger] (p_desc() + v), p_size()) by {
        lemma_not_prefix(p_desc() + v, p_size(), 2);
    }
    assert forall|v: Seq<char>| !starts(#[trigger] (p_desc() + v), p_item()) by {
        lemma_not_prefix(p_desc() + v, p_item(), 2);
    }
    assert forall|v: Seq<char>| (p_desc() + v) != h_deps() by {
        assert((p_desc() + v)[4] == 's' && h_deps()[4] == 'p');
    }
    assert forall|v: Seq<char>| (p_desc() + v) != h_prov() by {
        assert((p_desc() + v)[2] == 'd' && h_prov()[2] == 'p');
    }
    lemma_not_prefix(h_deps(), p_size(), 2);
    lemma_not_prefix(h_deps(), p_desc(), 4);
    lemma_not_prefix(h_deps(), p_item(), 2);
    assert(h_deps()[2] == 'd' && h_prov()[2] == 'p');
    lemma_not_prefix(h_prov(), p_size(), 2);
    lemma_not_prefix(h_prov(), p_desc(), 2);
    lemma_not_prefix(h_prov(), p_item(), 2);
    assert forall|v: Seq<char>| !starts(#[trigger] (p_item() + v), p_size()) by {
        lemma_not_prefix(p_item() + v, p_size(), 2);
    }
    assert forall|v: Seq<char>| !starts(#[trigger] (p_item() + v), p_desc()) by {
        lemma_not_prefix(p_item() + v, p_desc(), 2);
    }
    assert forall|v: Seq<char>| (p_item() + v) != h_deps() by {
        assert((p_item() + v)[2] == '-' && h_deps()[2] == 'd');
    }
    assert forall|v: Seq<char>| (p_item() + v) != h_prov() by {
        assert((p_item() + v)[2] == '-' && h_prov()[2] == 'p');
    }
    assert forall|v: Seq<char>| !starts(#[trigger] (p_size() + v), p_desc()) by {
        lemma_not_prefix(p_size() + v, p_desc(), 4);
    }
}

/// Parsing items at the start of serialized item lines recovers the items.
proof fn lemma_parse_items_round(ls: Seq<Seq<char>>, j: int, items: Seq<Seq<char>>)
    requires
        0 <= j,
        j + items.len() <= ls.len(),
        forall|k: int| 0 <= k < items.len() ==> ls[j + k] == #[trigger] item_lines(items)[k],
        j + items.len() == ls.len() || !starts(ls[j + items.len()], p_item()),
    ensures
        parse_items(ls, j) == (items, j + items.len()),
    decreases items.len(),
{
    if items.len() == 0 {
    } else {
        assert(ls[j] == item_lines(items)[0]);
        assert(item_lines(items)[0] == p_item() + items[0]);
        lemma_prefix_val(p_item(), items[0]);
        let rest = items.skip(1);
        assert forall|k: int| 0 <= k < rest.len() implies ls[j + 1 + k] == #[trigger] item_lines(
            rest,
        )[k] by {
            assert(ls[j + (1 + k)] == item_lines(items)[1 + k]);
            assert(item_lines(items)[1 + k] == p_item() + items[1 + k]);
            assert(rest[k] == items[1 + k]);
            assert(item_lines(rest)[k] == p_item() + rest[k]);
        }
        lemma_parse_items_round(ls, j + 1, rest);
        assert(seq![items[0]] + rest =~= items);
    }
}

/// Parsing one entry at the start of its serialized lines recovers the
/// entry, provided the next line (if any) begins a new entry.
#[verifier::rlimit(100)]
#[verifier::spinoff_prover]
proof fn lemma_parse_entry_round(ls: Seq<Seq<char>>, i: int, e: EntryV)
    requires
        entry_serializable(e),
        0 <= i,
        i + entry_lines(e).len() <= ls.len(),
        forall|k: int| 0 <= k < entry_lines(e).len() ==> ls[i + k] == #[trigger] entry_lines(e)[k],
        i + entry_lines(e).len() == ls.len() || starts(ls[i + entry_lines(e).len()], p_name()),
    ensures
        parse_entry(ls, i) == Some((e, i + entry_lines(e).len())),
{
    lemma_line_shapes();
    let b = entry_lines(e);
    let nsize: int = match e.size {
        Some(_) => 1,
        None => 0,
    };
    let ndesc: int = match e.description {
        Some(_) => 1,
        None => 0,
    };
    let ndeps: int = if e.dependencies.len() > 0 {
        1 + e.dependencies.len() as int
    } else {
        0
    };
    let nprov: int = if e.provides.len() > 0 {
        1 + e.provides.len() as int
    } else {
        0
    };
    assert(b.len() == 4 + nsize + ndesc + ndeps + nprov);
    let end = i + b.len();
    // The line at any position before `end` is the corresponding block line;
    // the line at `end`, if any, begins a new entry.
    assert(forall|k: int| 0 <= k < b.len() ==> ls[i + k] == #[trigger] b[k]);
    assert(b[0] == p_name() + e.name);
    assert(b[1] == p_version() + e.version);
    assert(b[2] == p_file() + e.file);
    assert(b[3] == p_sha() + e.sha256);
    assert(ls[i] == p_name() + e.name && ls[i + 1] == p_version() + e.version && ls[i + 2]
        == p_file() + e.file && ls[i + 3] == p_sha() + e.sha256);
    lemma_prefix_val(p_name(), e.name);
    lemma_prefix_val(p_version(), e.version);
    lemma_prefix_val(p_file(), e.file);
    lemma_prefix_val(p_sha(), e.sha256);
    // A fact usable at every "no more continuation here" step.
    assert(end == ls.len() || starts(ls[end], p_name()));

    // size step
    let j0 = i + 4;
    let size_res = parse_size(ls, j0);
    let j1 = j0 + nsize;
    assert(size_res == Some((e.size, j1))) by {
        match e.size {
            Some(n) => {
                assert(b[4] == p_size() + spec_render_u64(n as int));
                lemma_prefix_val(p_size(), spec_render_u64(n as int));
                lemma_parse_render_u64(n);
            },
            None => {
                if j0 < ls.len() {
                    assert(!starts(ls[j0], p_size())) by {
                        if j0 < end {
                            assert(ls[j0] == b[4]);
                            line_at_not_size(e, b, 4, ndesc, ndeps, nprov);
                        } else {
                            assert(starts(ls[j0], p_name()));
                            assert(ls[j0] == p_name() + val_of(ls[j0], p_name()));
                        }
                    }
                }
            },
        }
    }

    // description step
    let desc_res = parse_desc(ls, j1);
    let j2 = j1 + ndesc;
    assert(desc_res == (e.description, j2)) by {
        match e.description {
            Some(d) => {
                assert(b[4 + nsize] == p_desc() + d);
                lemma_prefix_val(p_desc(), d);
            },
            None => {
                if j1 < ls.len() {
                    assert(!starts(ls[j1], p_desc())) by {
                        if j1 < end {
                            assert(ls[j1] == b[4 + nsize]);
                            line_at_not_desc(e, b, 4 + nsize, ndeps, nprov);
                        } else {
                            assert(starts(ls[j1], p_name()));
                            assert(ls[j1] == p_name() + val_of(ls[j1], p_name()));
                        }
                    }
                }
            },
        }
    }

    // dependencies step
    let deps_res = parse_list(ls, j2, h_deps());
    let j3 = j2 + ndeps;
    assert(deps_res == (e.dependencies, j3)) by {
        if e.dependencies.len() > 0 {
            assert(b[4 + nsize + ndesc] == h_deps());
            assert(forall|k: int|
                0 <= k < e.dependencies.len() ==> ls[j2 + 1 + k] == #[trigger] item_lines(
                    e.dependencies,
                )[k]) by {
                assert(forall|k: int|
                    0 <= k < e.dependencies.len() ==> b[4 + nsize + ndesc + 1 + k]
                        == #[trigger] item_lines(e.dependencies)[k]);
            }
            assert(j2 + 1 + e.dependencies.len() == ls.len() || !starts(
                ls[j2 + 1 + e.dependencies.len()],
                p_item(),
            )) by {
                let after = j2 + 1 + e.dependencies.len() as int;
                if after < end {
                    assert(after == i + (4 + nsize + ndesc + ndeps));
                    assert(nprov > 0);
                    assert(ls[after] == b[4 + nsize + ndesc + ndeps]);
                    assert(b[4 + nsize + ndesc + ndeps] == h_prov());
                } else if after < ls.len() {
                    assert(starts(ls[after], p_name()));
                    assert(ls[after] == p_name() + val_of(ls[after], p_name()));
                }
            }
            lemma_parse_items_round(ls, j2 + 1, e.dependencies);
        } else {
            if j2 < ls.len() {
                assert(ls[j2] != h_deps()) by {
                    if j2 < end {
                        assert(ls[j2] == b[4 + nsize + ndesc]);
                        line_at_not_deps_hdr(e, b, 4 + nsize + ndesc, nprov);
                    } else {
                        assert(starts(ls[j2], p_name()));
                        assert(ls[j2] == p_name() + val_of(ls[j2], p_name()));
                    }
                }
            }
        }
    }

    // provides step
    let prov_res = parse_list(ls, j3, h_prov());
    let j4 = j3 + nprov;
    assert(prov_res == (e.provides, j4)) by {
        if e.provides.len() > 0 {
            assert(b[4 + nsize + ndesc + ndeps] == h_prov());
            assert(forall|k: int|
                0 <= k < e.provides.len() ==> ls[j3 + 1 + k] == #[trigger] item_lines(
                    e.provides,
                )[k]) by {
                assert(forall|k: int|
                    0 <= k < e.provides.len() ==> b[4 + nsize + ndesc + ndeps + 1 + k]
                        == #[trigger] item_lines(e.provides)[k]);
            }
            assert(j3 + 1 + e.provides.len() == end);
            assert(end == ls.len() || !starts(ls[end], p_item())) by {
                if end < ls.len() {
                    assert(starts(ls[end], p_name()));
                    assert(ls[end] == p_name() + val_of(ls[end], p_name()));
                }
            }
            lemma_parse_items_round(ls, j3 + 1, e.provides);
        } else {
            if j3 < ls.len() {
                assert(ls[j3] != h_prov()) by {
                    if j3 < end {
                        assert(false);
                    } else {
                        assert(starts(ls[j3], p_name()));
                        assert(ls[j3] == p_name() + val_of(ls[j3], p_name()));
                    }
                }
            }
        }
    }

    assert(j4 == end);
    let parsed = parse_entry(ls, i).unwrap().0;
    assert(parsed =~= e);
}

/// The line of an entry block at offset `k >= 4` when the size field is
/// absent never carries the size prefix.
proof fn line_at_not_size(e: EntryV, b: Seq<Seq<char>>, k: int, ndesc: int, ndeps: int, nprov: int)
    requires
        b == entry_lines(e),
        e.size is None,
        k == 4,
        4 < b.len(),
        ndesc == (match e.description {
            Some(_) => 1int,
            None => 0int,
        }),
        ndeps == if e.dependencies.len() > 0 {
            1 + e.dependencies.len() as int
        } else {
            0int
        },
        nprov == if e.provides.len() > 0 {
            1 + e.provides.len() as int
        } else {
            0int
        },
    ensures
        !starts(b[4], p_size()),
{
    lemma_line_shapes();
    if ndesc == 1 {
        assert(b[4] == p_desc() + e.description.unwrap());
    } else if ndeps > 0 {
        assert(b[4] == h_deps());
    } else {
        assert(nprov > 0);
        assert(b[4] == h_prov());
    }
}

/// The entry-block line where a description would sit never carries the
/// description prefix when the field is absent.
proof fn line_at_not_desc(e: EntryV, b: Seq<Seq<char>>, k: int, ndeps: int, nprov: int)
    requires
        b == entry_lines(e),
        e.description is None,
        k == 4 + (match e.size {
            Some(_) => 1int,
            None => 0int,
        }),
        k < b.len(),
        ndeps == if e.dependencies.len() > 0 {
            1 + e.dependencies.len() as int
        } else {
            0int
        },
        nprov == if e.provides.len() > 0 {
            1 + e.provides.len() as int
        } else {
            0int
        },
    ensures
        !starts(b[k], p_desc()),
{
    lemma_line_shapes();
    if ndeps > 0 {
        assert(b[k] == h_deps());
    } else {
        assert(nprov > 0);
        assert(b[k] == h_prov());
    }
}

/// The entry-block line where the dependency header would sit is never that
/// header when the list is empty.
proof fn line_at_not_deps_hdr(e: EntryV, b: Seq<Seq<char>>, k: int, nprov: int)
    requires
        b == entry_lines(e),
        e.dependencies.len() == 0,
        k == 4 + (match e.size {
            Some(_) => 1int,
            None => 0int,
        }) + (match e.description {
            Some(_) => 1int,
            None => 0int,
        }),
        k < b.len(),
        nprov == if e.provides.len() > 0 {
            1 + e.provides.len() as int
        } else {
            0int
        },
    ensures
        b[k] != h_deps(),
{
    lemma_line_shapes();
    assert(nprov > 0);
    assert(b[k] == h_prov());
}

/// Parsing the serialized lines of a sequence of entries recovers the
/// sequence.
proof fn lemma_parse_entries_round(ls: Seq<Seq<char>>, i: int, apps: Seq<EntryV>)
    requires
        manifest_serializable(apps),
        0 <= i <= ls.len(),
        i + entries_lines(apps).len() == ls.len(),
        forall|k: int|
            0 <= k < entries_lines(apps).len() ==> ls[i + k] == #[trigger] entries_lines(apps)[k],
    ensures
        parse_entries(ls, i) == Some(apps),
    decreases apps.len(),
{
    if apps.len() == 0 {
        assert(i >= ls.len());
        assert(apps =~= Seq::<EntryV>::empty());
    } else {
        let e = apps[0];
        let b = entry_lines(e);
        let rest = apps.skip(1);
        assert(entries_lines(apps) == b + entries_lines(rest));
        assert(b.len() >= 4);
        assert forall|k: int| 0 <= k < b.len() implies ls[i + k] == #[trigger] b[k] by {
            assert(entries_lines(apps)[k] == b[k]);
            assert(ls[i + k] == entries_lines(apps)[k]);
        }
        assert forall|k: int| 0 <= k < entries_lines(rest).len() implies ls[i + b.len() + k]
            == #[trigger] entries_lines(rest)[k] by {
            assert(entries_lines(apps)[b.len() + k] == entries_lines(rest)[k]);
            assert(ls[i + (b.len() + k)] == entries_lines(apps)[b.len() + k]);
        }
        let end = i + b.len();
        assert(end == ls.len() || starts(ls[end], p_name())) by {
            if end < ls.len() {
                assert(entries_lines(rest).len() > 0);
                assert(rest.len() > 0);
                assert(entries_lines(rest)[0] == entry_lines(rest[0])[0]);
                assert(entry_lines(rest[0])[0] == p_name() + rest[0].name);
                assert(ls[end] == p_name() + rest[0].name);
                lemma_prefix_val(p_name(), rest[0].name);
            }
        }
        assert(entry_serializable(e));
        lemma_parse_entry_round(ls, i, e);
        assert(forall|k: int| 0 <= k < rest.len() ==> rest[k] == #[trigger] apps[k + 1]);
        lemma_parse_entries_round(ls, end, rest);
        assert(seq![e] + rest =~= apps);
    }
}

/// Serializing a package manifest and parsing the text recovers every
/// entry, field for field.
pub proof fn lemma_package_round_trip(apps: Seq<EntryV>)
    requires
        manifest_serializable(apps),
    ensures
        spec_parse_package(spec_serialize_package(apps)) == Some(apps),
{
    let pls = package_lines(apps);
    lemma_package_lines_wf(apps);
    lemma_split_join_lines(pls);
    assert(pls[0] == h_apps());
    assert(forall|k: int|
        0 <= k < entries_lines(apps).len() ==> pls[1 + k] == #[trigger] entries_lines(apps)[k]);
    lemma_parse_entries_round(pls, 1, apps);
}

/// Every serialized line is non-empty and free of separators.
proof fn lemma_entry_lines_wf(e: EntryV)
    requires
        entry_serializable(e),
    ensures
        forall|k: int|
            0 <= k < entry_lines(e).len() ==> (#[trigger] entry_lines(e)[k]).len() > 0
                && no_newline(entry_lines(e)[k]),
{
    let b = entry_lines(e);
    assert forall|k: int| 0 <= k < b.len() implies (#[trigger] b[k]).len() > 0 && no_newline(
        b[k],
    ) by {
        let nsize: int = match e.size {
            Some(_) => 1,
            None => 0,
        };
        let ndesc: int = match e.description {
            Some(_) => 1,
            None => 0,
        };
        let ndeps: int = if e.dependencies.len() > 0 {
            1 + e.dependencies.len() as int
        } else {
            0
        };
        if k == 0 {
            assert(b[k] == p_name() + e.name);
        } else if k == 1 {
            assert(b[k] == p_version() + e.version);
        } else if k == 2 {
            assert(b[k] == p_file() + e.file);
        } else if k == 3 {
            assert(b[k] == p_sha() + e.sha256);
        } else if k < 4 + nsize {
            let n = match e.size {
                Some(n) => n,
                None => 0u64,
            };
            assert(b[k] == p_size() + spec_render_u64(n as int));
            lemma_render_digits(n as int);
        } else if k < 4 + nsize + ndesc {
            let d = match e.description {
                Some(d) => d,
                None => Seq::empty(),
            };
            assert(b[k] == p_desc() + d);
        } else if k < 4 + nsize + ndesc + 1 && e.dependencies.len() > 0 {
            assert(b[k] == h_deps());
        } else if k < 4 + nsize + ndesc + ndeps {
            let idx = k - (4 + nsize + ndesc + 1);
            assert(b[k] == item_lines(e.dependencies)[idx]);
            assert(b[k] == p_item() + e.dependencies[idx]);
        } else if k == 4 + nsize + ndesc + ndeps && e.provides.len() > 0 {
            assert(b[k] == h_prov());
        } else {
            let idx = k - (4 + nsize + ndesc + ndeps + 1);
            assert(b[k] == item_lines(e.provides)[idx]);
            assert(b[k] == p_item() + e.provides[idx]);
        }
    }
}

proof fn lemma_package_lines_wf(apps: Seq<EntryV>)
    requires
        manifest_serializable(apps),
    ensures
        wf_lines(package_lines(apps)),
{
    lemma_entries_lines_wf(apps);
    let pls = package_lines(apps);
    assert forall|k: int| 0 <= k < pls.len() implies (#[trigger] pls[k]).len() > 0 && no_newline(
        pls[k],
    ) by {
        if k == 0 {
            assert(pls[0] == h_apps());
        } else {
            assert(pls[k] == entries_lines(apps)[k - 1]);
        }
    }
}

proof fn lemma_entries_lines_wf(apps: Seq<EntryV>)
    requires
        manifest_serializable(apps),
    ensures
        forall|k: int|
            0 <= k < entries_lines(apps).len() ==> (#[trigger] entries_lines(apps)[k]).len() > 0
                && no_newline(entries_lines(apps)[k]),
    decreases apps.len(),
{
    if apps.len() > 0 {
        let e = apps[0];
        let rest = apps.skip(1);
        assert(entry_serializable(e));
        lemma_entry_lines_wf(e);
        lemma_entries_lines_wf(rest);
        let el = entries_lines(apps);
        let b = entry_lines(e);
        assert forall|k: int| 0 <= k < el.len() implies (#[trigger] el[k]).len() > 0
            && no_newline(el[k]) by {
            if k < b.len() {
                assert(el[k] == b[k]);
            } else {
                assert(el[k] == entries_lines(rest)[k - b.len()]);
            }
        }
    }
}

// --- Index manifests -------------------------------------------------------

/// Where a listed source points: at another index manifest, or at a
/// package manifest.
#[derive(Clone, Copy, Debug, PartialEq, Eq, Structural)]
pub enum SourceType {
    Appimage,
    Index,
}

/// One source listed by an index manifest.
pub struct IndexSource {
    pub source_type: SourceType,
    pub url: String,
}

/// The mathematical value of a listed source.
#[verifier::ext_equal]
pub ghost struct SourceV {
    pub is_index: bool,
    pub url: Seq<char>,
}

impl View for IndexSource {
    type V = SourceV;

    open spec fn view(&self) -> SourceV {
        SourceV { is_index: self.source_type is Index, url: self.url@ }
    }
}

impl DeepView for IndexSource {
    type V = SourceV;

    open spec fn deep_view(&self) -> SourceV {
        self.view()
    }
}

/// An index manifest: the list of sources it declares.
pub struct IndexYaml {
    pub sources: Vec<IndexSource>,
}

impl View for IndexYaml {
    type V = Seq<SourceV>;

    open spec fn view(&self) -> Seq<SourceV> {
        self.sources.deep_view()
    }
}

pub open spec fn h_sources() -> Seq<char> {
    seq!['s', 'o', 'u', 'r', 'c', 'e', 's', ':']
}

pub open spec fn t_index() -> Seq<char> {
    seq!['-', ' ', 't', 'y', 'p', 'e', ':', ' ', 'i', 'n', 'd', 'e', 'x']
}

pub open spec fn t_appimage() -> Seq<char> {
    seq!['-', ' ', 't', 'y', 'p', 'e', ':', ' ', 'a', 'p', 'p', 'i', 'm', 'a', 'g', 'e']
}

pub open spec fn p_url() -> Seq<char> {
    seq![' ', ' ', 'u', 'r', 'l', ':', ' ']
}

/// The two lines of one serialized source.
pub open spec fn source_lines(s: SourceV) -> Seq<Seq<char>> {
    seq![if s.is_index { t_index() } else { t_appimage() }, p_url() + s.url]
}

pub open spec fn sources_lines(srcs: Seq<SourceV>) -> Seq<Seq<char>>
    decreases srcs.len(),
{
    if srcs.len() == 0 {
        Seq::empty()
    } else {
        source_lines(srcs[0]) + sources_lines(srcs.skip(1))
    }
}

pub open spec fn index_lines(srcs: Seq<SourceV>) -> Seq<Seq<char>> {
    seq![h_sources()] + sources_lines(srcs)
}

/// The canonical text of an index manifest.
pub open spec fn spec_serialize_index(srcs: Seq<SourceV>) -> Seq<char> {
    spec_join_lines(index_lines(srcs))
}

pub open spec fn index_serializable(srcs: Seq<SourceV>) -> bool {
    forall|i: int| 0 <= i < srcs.len() ==> no_newline((#[trigger] srcs[i]).url)
}

/// Reads one source: a type line followed by a location line.
pub open spec fn parse_source(ls: Seq<Seq<char>>, i: int) -> Option<(SourceV, int)> {
    if 0 <= i && i + 2 <= ls.len() && (ls[i] == t_index() || ls[i] == t_appimage()) && starts(
        ls[i + 1],
        p_url(),
    ) {
        Some((SourceV { is_index: ls[i] == t_index(), url: val_of(ls[i + 1], p_url()) }, i + 2))
    } else {
        None
    }
}

pub open spec fn parse_sources(ls: Seq<Seq<char>>, i: int) -> Option<Seq<SourceV>>
    decreases ls.len() - i,
{
    if i >= ls.len() {
        Some(Seq::empty())
    } else {
        match parse_source(ls, i) {
            None => None,
            Some((sv, j)) => if i < j <= ls.len() {
                match parse_sources(ls, j) {
                    Some(rest) => Some(seq![sv] + rest),
                    None => None,
                }
            } else {
                None
            },
        }
    }
}

/// What parsing an index manifest yields: its sources, when the text is a
/// well-formed index manifest.
pub open spec fn spec_parse_index(text: Seq<char>) -> Option<Seq<SourceV>> {
    let ls = spec_split_lines(text);
    if ls.len() > 0 && ls[0] == h_sources() {
        parse_sources(ls, 1)
    } else {
        None
    }
}

proof fn lemma_parse_sources_round(ls: Seq<Seq<char>>, i: int, srcs: Seq<SourceV>)
    requires
        0 <= i <= ls.len(),
        i + sources_lines(srcs).len() == ls.len(),
        forall|k: int|
            0 <= k < sources_lines(srcs).len() ==> ls[i + k] == #[trigger] sources_lines(srcs)[k],
    ensures
        parse_sources(ls, i) == Some(srcs),
    decreases srcs.len(),
{
    if srcs.len() == 0 {
        assert(srcs =~= Seq::<SourceV>::empty());
    } else {
        let sv = srcs[0];
        let rest = srcs.skip(1);
        assert(sources_lines(srcs) == source_lines(sv) + sources_lines(rest));
        assert forall|k: int| 0 <= k < 2 implies ls[i + k] == #[trigger] source_lines(sv)[k] by {
            assert(sources_lines(srcs)[k] == source_lines(sv)[k]);
        }
        assert(ls[i] == if sv.is_index {
            t_index()
        } else {
            t_appimage()
        });
        assert(t_index() != t_appimage()) by {
            assert(t_index().len() != t_appimage().len());
        }
        assert(ls[i + 1] == p_url() + sv.url);
        lemma_prefix_val(p_url(), sv.url);
        assert(parse_source(ls, i) == Some((sv, i + 2))) by {
            assert(parse_source(ls, i).unwrap().0 =~= sv);
        }
        assert forall|k: int| 0 <= k < sources_lines(rest).len() implies ls[i + 2 + k]
            == #[trigger] sources_lines(rest)[k] by {
            assert(sources_lines(srcs)[2 + k] == sources_lines(rest)[k]);
            assert(ls[i + (2 + k)] == sources_lines(srcs)[2 + k]);
        }
        lemma_parse_sources_round(ls, i + 2, rest);
        assert(seq![sv] + rest =~= srcs);
    }
}

proof fn lemma_index_lines_wf(srcs: Seq<SourceV>)
    requires
        index_serializable(srcs),
    ensures
        wf_lines(index_lines(srcs)),
{
    lemma_sources_lines_wf(srcs);
    let ils = index_lines(srcs);
    assert forall|k: int| 0 <= k < ils.len() implies (#[trigger] ils[k]).len() > 0 && no_newline(
        ils[k],
    ) by {
        if k == 0 {
            assert(ils[0] == h_sources());
        } else {
            assert(ils[k] == sources_lines(srcs)[k - 1]);
        }
    }
}

proof fn lemma_sources_lines_wf(srcs: Seq<SourceV>)
    requires
        index_serializable(srcs),
    ensures
        forall|k: int|
            0 <= k < sources_lines(srcs).len() ==> (#[trigger] sources_lines(srcs)[k]).len() > 0
                && no_newline(sources_lines(srcs)[k]),
    decreases srcs.len(),
{
    if srcs.len() > 0 {
        let sv = srcs[0];
        let rest = srcs.skip(1);
        lemma_sources_lines_wf(rest);
        let sl = sources_lines(srcs);
        assert forall|k: int| 0 <= k < sl.len() implies (#[trigger] sl[k]).len() > 0
            && no_newline(sl[k]) by {
            if k == 0 {
                assert(sl[0] == source_lines(sv)[0]);
            } else if k == 1 {
                assert(sl[1] == source_lines(sv)[1]);
                assert(sl[1] == p_url() + sv.url);
                assert(no_newline(sv.url));
            } else {
                assert(sl[k] == sources_lines(rest)[k - 2]);
            }
        }
    }
}

/// Serializing an index manifest and parsing the text recovers every
/// source.
pub proof fn lemma_index_round_trip(srcs: Seq<SourceV>)
    requires
        index_serializable(srcs),
    ensures
        spec_parse_index(spec_serialize_index(srcs)) == Some(srcs),
{
    let ils = index_lines(srcs);
    lemma_index_lines_wf(srcs);
    lemma_split_join_lines(ils);
    assert(ils[0] == h_sources());
    assert(forall|k: int|
        0 <= k < sources_lines(srcs).len() ==> ils[1 + k] == #[trigger] sources_lines(srcs)[k]);
    lemma_parse_sources_round(ils, 1, srcs);
}

// --- Executable text helpers -----------------------------------------------

/// One line made of a prefix and a value.
fn make_line(pfx: &str, v: &str) -> (r: String)
    ensures
        r@ == pfx@ + v@,
{
    let mut l = String::new();
    l.append(pfx);
    l.append(v);
    proof {
        assert(l@ =~= pfx@ + v@);
    }
    l
}

fn s_h_apps() -> (r: &'static str)
    ensures
        r@ == h_apps(),
{
    let s = "apps:";
    proof {
        reveal_strlit("apps:");
        assert(s@ =~= h_apps());
    }
    s
}

fn s_p_name() -> (r: &'static str)
    ensures
        r@ == p_name(),
{
    let s = "- name: ";
    proof {
        reveal_strlit("- name: ");
        assert(s@ =~= p_name());
    }
    s
}

fn s_p_version() -> (r: &'static str)
    ensures
        r@ == p_version(),
{
    let s = "  version: ";
    proof {
        reveal_strlit("  version: ");
        assert(s@ =~= p_version());
    }
    s
}

fn s_p_file() -> (r: &'static str)
    ensures
        r@ == p_file(),
{
    let s = "  file: ";
    proof {
        reveal_strlit("  file: ");
        assert(s@ =~= p_file());
    }
    s
}

fn s_p_sha() -> (r: &'static str)
    ensures
        r@ == p_sha(),
{
    let s = "  sha256: ";
    proof {
        reveal_strlit("  sha256: ");
        assert(s@ =~= p_sha());
    }
    s
}

fn s_p_size() -> (r: &'static str)
    ensures
        r@ == p_size(),
{
    let s = "  size: ";
    proof {
        reveal_strlit("  size: ");
        assert(s@ =~= p_size());
    }
    s
}

fn s_p_desc() -> (r: &'static str)
    ensures
        r@ == p_desc(),
{
    let s = "  description: ";
    proof {
        reveal_strlit("  description: ");
        assert(s@ =~= p_desc());
    }
    s
}

fn s_h_deps() -> (r: &'static str)
    ensures
        r@ == h_deps(),
{
    let s = "  dependencies:";
    proof {
        reveal_strlit("  dependencies:");
        assert(s@ =~= h_deps());
    }
    s
}

fn s_h_prov() -> (r: &'static str)
    ensures
        r@ == h_prov(),
{
    let s = "  provides:";
    proof {
        reveal_strlit("  provides:");
        assert(s@ =~= h_prov());
    }
    s
}

fn s_p_item() -> (r: &'static str)
    ensures
        r@ == p_item(),
{
    let s = "  - ";
    proof {
        reveal_strlit("  - ");
        assert(s@ =~= p_item());
    }
    s
}

fn s_h_sources() -> (r: &'static str)
    ensures
        r@ == h_sources(),
{
    let s = "sources:";
    proof {
        reveal_strlit("sources:");
        assert(s@ =~= h_sources());
    }
    s
}

fn s_t_index() -> (r: &'static str)
    ensures
        r@ == t_index(),
{
    let s = "- type: index";
    proof {
        reveal_strlit("- type: index");
        assert(s@ =~= t_index());
    }
    s
}

fn s_t_appimage() -> (r: &'static str)
    ensures
        r@ == t_appimage(),
{
    let s = "- type: appimage";
    proof {
        reveal_strlit("- type: appimage");
        assert(s@ =~= t_appimage());
    }
    s
}

fn s_p_url() -> (r: &'static str)
    ensures
        r@ == p_url(),
{
    let s = "  url: ";
    proof {
        reveal_strlit("  url: ");
        assert(s@ =~= p_url());
    }
    s
}

/// The value of `line` under the prefix `pfx`, when the prefix matches.
fn try_field(line: &str, pfx: &str) -> (r: Option<String>)
    ensures
        match r {
            Some(v) => starts(line@, pfx@) && v@ == val_of(line@, pfx@),
            None => !starts(line@, pfx@),
        },
{
    if str_has_prefix(line, pfx) {
        proof {
            assert(pfx@.len() <= line@.len());
        }
        Some(str_suffix(line, pfx.unicode_len()))
    } else {
        None
    }
}

// --- Executable serialization ---------------------------------------------

/// Appends the serialized lines of one entry.
#[verifier::rlimit(100)]
#[verifier::spinoff_prover]
pub(crate) fn push_entry_lines(lines: &mut Vec<String>, e: &AppImageEntry)
    ensures
        final(lines).deep_view() == old(lines).deep_view() + entry_lines(e@),
{
    let ghost base = lines.deep_view();
    lines.push(make_line(s_p_name(), e.name.as_str()));
    lines.push(make_line(s_p_version(), e.version.as_str()));
    lines.push(make_line(s_p_file(), e.file.as_str()));
    lines.push(make_line(s_p_sha(), e.sha256.as_str()));
    let ghost req4 = seq![
        p_name() + e@.name,
        p_version() + e@.version,
        p_file() + e@.file,
        p_sha() + e@.sha256,
    ];
    proof {
        assert(lines.deep_view() =~= base + req4);
    }
    let ghost b1 = lines.deep_view();
    match &e.size {
        Some(n) => {
            let rendered = render_u64(*n);
            lines.push(make_line(s_p_size(), rendered.as_str()));
        },
        None => {},
    }
    let ghost sizepart = match e@.size {
        Some(n) => seq![p_size() + spec_render_u64(n as int)],
        None => Seq::<Seq<char>>::empty(),
    };
    proof {
        assert(lines.deep_view() =~= b1 + sizepart);
    }
    let ghost b2 = lines.deep_view();
    match &e.description {
        Some(d) => {
            lines.push(make_line(s_p_desc(), d.as_str()));
        },
        None => {},
    }
    let ghost descpart = match e@.description {
        Some(d) => seq![p_desc() + d],
        None => Seq::<Seq<char>>::empty(),
    };
    proof {
        assert(lines.deep_view() =~= b2 + descpart);
    }
    let ghost b3 = lines.deep_view();
    if e.dependencies.len() > 0 {
        lines.push(make_line(s_h_deps(), ""));
        proof {
            reveal_strlit("");
            assert(h_deps() + ""@ =~= h_deps());
        }
        push_item_lines(lines, &e.dependencies);
    }
    let ghost depspart = if e@.dependencies.len() > 0 {
        seq![h_deps()] + item_lines(e@.dependencies)
    } else {
        Seq::<Seq<char>>::empty()
    };
    proof {
        assert(lines.deep_view() =~= b3 + depspart);
    }
    let ghost b4 = lines.deep_view();
    if e.provides.len() > 0 {
        lines.push(make_line(s_h_prov(), ""));
        proof {
            reveal_strlit("");
            assert(h_prov() + ""@ =~= h_prov());
        }
        push_item_lines(lines, &e.provides);
    }
    let ghost provpart = if e@.provides.len() > 0 {
        seq![h_prov()] + item_lines(e@.provides)
    } else {
        Seq::<Seq<char>>::empty()
    };
    proof {
        assert(lines.deep_view() =~= b4 + provpart);
        assert(entry_lines(e@) == req4 + sizepart + descpart + depspart + provpart);
        assert(lines.deep_view() =~= base + entry_lines(e@));
    }
}

/// Appends one line per list item.
fn push_item_lines(lines: &mut Vec<String>, items: &Vec<String>)
    ensures
        final(lines).deep_view() == old(lines).deep_view() + item_lines(items.deep_view()),
{
    let ghost base = lines.deep_view();
    let ghost iv = items.deep_view();
    let mut i: usize = 0;
    proof {
        assert(lines.deep_view() =~= base + item_lines(iv.take(0)));
    }
    while i < items.len()
        invariant
            i <= items.len(),
            iv == items.deep_view(),
            lines.deep_view() == base + item_lines(iv.take(i as int)),
        decreases items.len() - i,
    {
        let ghost prev = lines.deep_view();
        lines.push(make_line(s_p_item(), items[i].as_str()));
        proof {
            assert(lines.deep_view() =~= prev.push(p_item() + iv[i as int]));
            assert(item_lines(iv.take(i as int + 1)) =~~= item_lines(iv.take(i as int)).push(
                p_item() + iv[i as int],
            ));
            assert(lines.deep_view() =~= base + item_lines(iv.take(i as int + 1)));
        }
        i = i + 1;
    }
    proof {
        assert(iv.take(items.len() as int) =~= iv);
    }
}

/// A manifest whose fields span a line cannot be serialized.
#[derive(Clone, Copy, Debug, PartialEq, Eq, Structural)]
pub struct UnserializableError {}

/// A text that is not a well-formed manifest of the attempted shape.
#[derive(Clone, Copy, Debug, PartialEq, Eq, Structural)]
pub struct ParseError {}

/// True when every text field of the entry fits on one line.
pub(crate) fn entry_fits(e: &AppImageEntry) -> (r: bool)
    ensures
        r == entry_serializable(e@),
{
    if !str_no_newline(e.name.as_str()) {
        return false;
    }
    if !str_no_newline(e.version.as_str()) {
        return false;
    }
    if !str_no_newline(e.file.as_str()) {
        return false;
    }
    if !str_no_newline(e.sha256.as_str()) {
        return false;
    }
    match &e.description {
        Some(d) => {
            if !str_no_newline(d.as_str()) {
                return false;
            }
        },
        None => {},
    }
    if !items_no_newline(&e.dependencies) {
        return false;
    }
    if !items_no_newline(&e.provides) {
        return false;
    }
    true
}

fn items_no_newline(items: &Vec<String>) -> (r: bool)
    ensures
        r == items_one_line(items.deep_view()),
{
    let mut i: usize = 0;
    while i < items.len()
        invariant
            i <= items.len(),
            forall|j: int| 0 <= j < i ==> no_newline(#[trigger] items.deep_view()[j]),
        decreases items.len() - i,
    {
        if !str_no_newline(items[i].as_str()) {
            proof {
                assert(!no_newline(items.deep_view()[i as int]));
            }
            return false;
        }
        i = i + 1;
    }
    true
}

impl AppImageYaml {
    /// Serializes the manifest into its canonical text; fails exactly when
    /// some field spans a line.
    pub fn to_string(&self) -> (r: Result<String, UnserializableError>)
        ensures
            match r {
                Ok(t) => manifest_serializable(self@) && t@ == spec_serialize_package(self@),
                Err(_) => !manifest_serializable(self@),
            },
    {
        let mut i: usize = 0;
        while i < self.apps.len()
            invariant
                i <= self.apps.len(),
                forall|j: int| 0 <= j < i ==> entry_serializable(#[trigger] self@[j]),
            decreases self.apps.len() - i,
        {
            if !entry_fits(&self.apps[i]) {
                proof {
                    assert(!entry_serializable(self@[i as int]));
                }
                return Err(UnserializableError {});
            }
            i = i + 1;
        }
        let mut lines: Vec<String> = Vec::new();
        lines.push(s_h_apps().to_owned());
        proof {
            assert(lines.deep_view() =~= seq![h_apps()] + entries_lines(self@.take(0)));
        }
        let mut k: usize = 0;
        while k < self.apps.len()
            invariant
                k <= self.apps.len(),
                lines.deep_view() == seq![h_apps()] + entries_lines(self@.take(k as int)),
            decreases self.apps.len() - k,
        {
            push_entry_lines(&mut lines, &self.apps[k]);
            proof {
                lemma_entries_lines_snoc(self@, k as int);
            }
            k = k + 1;
        }
        proof {
            assert(self@.take(self.apps.len() as int) =~= self@);
        }
        Ok(join_lines(&lines))
    }

    /// Parses the text as a package manifest; fails exactly when the text
    /// is not one.
    pub fn from_str(content: &str) -> (r: Result<AppImageYaml, ParseError>)
        ensures
            match r {
                Ok(m) => spec_parse_package(content@) == Some(m@),
                Err(_) => spec_parse_package(content@) is None,
            },
    {
        let lines = split_lines(content);
        let ghost ls = spec_split_lines(content@);
        if lines.len() == 0 {
            return Err(ParseError {});
        }
        if !str_eq(lines[0].as_str(), s_h_apps()) {
            return Err(ParseError {});
        }
        let mut apps: Vec<AppImageEntry> = Vec::new();
        let mut i: usize = 1;
        proof {
            assert(apps.deep_view() =~= Seq::<EntryV>::empty());
            assert(Seq::<EntryV>::empty() + parse_entries(ls, 1).unwrap_or(Seq::empty())
                =~= parse_entries(ls, 1).unwrap_or(Seq::empty()));
        }
        while i < lines.len()
            invariant
                1 <= i <= lines.len(),
                ls == lines.deep_view(),
                ls == spec_split_lines(content@),
                ls.len() == lines.len(),
                ls.len() > 0 && ls[0] == h_apps(),
                parse_entries(ls, 1) == (match parse_entries(ls, i as int) {
                    Some(rest) => Some(apps.deep_view() + rest),
                    None => None::<Seq<EntryV>>,
                }),
            decreases lines.len() - i,
        {
            match parse_entry_exec(&lines, i) {
                Some((e, j)) => {
                    proof {
                        lemma_parse_entry_range(ls, i as int);
                    }
                    apps.push(e);
                    proof {
                        let (ev, jj) = parse_entry(ls, i as int).unwrap();
                        assert(apps.deep_view() =~= apps.deep_view().take(
                            apps.deep_view().len() - 1,
                        ).push(ev));
                        assert(forall|rest: Seq<EntryV>|
                            apps.deep_view().take(apps.deep_view().len() - 1) + (seq![ev] + rest)
                                =~= apps.deep_view() + rest);
                    }
                    i = j;
                },
                None => {
                    proof {
                        assert(i < ls.len());
                        assert(parse_entries(ls, i as int) is None);
                    }
                    return Err(ParseError {});
                },
            }
        }
        proof {
            assert(parse_entries(ls, i as int) == Some(Seq::<EntryV>::empty()));
            assert(apps.deep_view() + Seq::<EntryV>::empty() =~= apps.deep_view());
        }
        Ok(AppImageYaml { apps })
    }
}

/// Splitting entries off a sequence one position later extends the
/// serialized lines by that entry's block.
proof fn lemma_entries_lines_snoc(apps: Seq<EntryV>, k: int)
    requires
        0 <= k < apps.len(),
    ensures
        entries_lines(apps.take(k + 1)) == entries_lines(apps.take(k)) + entry_lines(apps[k]),
    decreases k,
{
    if k == 0 {
        assert(apps.take(1)[0] == apps[0]);
        assert(apps.take(1).skip(1) =~= Seq::<EntryV>::empty());
        assert(entries_lines(apps.take(1)) =~= entry_lines(apps[0]) + entries_lines(
            Seq::<EntryV>::empty(),
        ));
        assert(entries_lines(apps.take(0)) =~= Seq::<Seq<char>>::empty());
        assert(entries_lines(apps.take(0)) + entry_lines(apps[0]) =~= entries_lines(apps.take(1)));
    } else {
        lemma_entries_lines_snoc(apps.skip(1), k - 1);
        assert(apps.take(k + 1)[0] == apps[0]);
        assert(apps.take(k)[0] == apps[0]);
        assert(apps.take(k + 1).skip(1) =~= apps.skip(1).take(k));
        assert(apps.take(k).skip(1) =~= apps.skip(1).take(k - 1));
        assert(apps.skip(1)[k - 1] == apps[k]);
        assert(entries_lines(apps.take(k + 1)) == entry_lines(apps[0]) + entries_lines(
            apps.skip(1).take(k),
        ));
        assert(entries_lines(apps.take(k)) == entry_lines(apps[0]) + entries_lines(
            apps.skip(1).take(k - 1),
        ));
        assert(entry_lines(apps[0]) + (entries_lines(apps.skip(1).take(k - 1)) + entry_lines(
            apps[k],
        )) =~= (entry_lines(apps[0]) + entries_lines(apps.skip(1).take(k - 1))) + entry_lines(
            apps[k],
        ));
    }
}

// --- Executable parsing ----------------------------------------------------

/// Reads the optional size line.
fn parse_size_exec(lines: &Vec<String>, j: usize) -> (r: Option<(Option<u64>, usize)>)
    requires
        j <= lines.len(),
    ensures
        match r {
            Some((sz, j2)) => parse_size(lines.deep_view(), j as int) == Some((sz, j2 as int))
                && j2 <= lines.len() && j <= j2,
            None => parse_size(lines.deep_view(), j as int) is None,
        },
{
    if j < lines.len() {
        match try_field(lines[j].as_str(), s_p_size()) {
            Some(v) => {
                match parse_u64_str(v.as_str()) {
                    Some(n) => Some((Some(n), j + 1)),
                    None => None,
                }
            },
            None => Some((None, j)),
        }
    } else {
        Some((None, j))
    }
}

/// Reads the optional description line.
fn parse_desc_exec(lines: &Vec<String>, j: usize) -> (r: (Option<String>, usize))
    requires
        j <= lines.len(),
    ensures
        ({
            let (d, j2) = parse_desc(lines.deep_view(), j as int);
            (match r.0 {
                Some(v) => d == Some(v@),
                None => d is None,
            }) && r.1 == j2 && j <= r.1 <= lines.len()
        }),
{
    if j < lines.len() {
        match try_field(lines[j].as_str(), s_p_desc()) {
            Some(v) => (Some(v), j + 1),
            None => (None, j),
        }
    } else {
        (None, j)
    }
}

/// Reads consecutive list-item lines.
pub(crate) fn parse_items_exec(lines: &Vec<String>, j: usize) -> (r: (Vec<String>, usize))
    requires
        j <= lines.len(),
    ensures
        ({
            let (items, j2) = parse_items(lines.deep_view(), j as int);
            r.0.deep_view() == items && r.1 == j2 && j <= r.1 <= lines.len()
        }),
{
    let ghost ls = lines.deep_view();
    let mut acc: Vec<String> = Vec::new();
    let mut j2: usize = j;
    proof {
        lemma_parse_items_range(ls, j as int);
        assert(acc.deep_view() =~= Seq::<Seq<char>>::empty());
        assert(acc.deep_view() + parse_items(ls, j as int).0 =~= parse_items(ls, j as int).0);
    }
    loop
        invariant
            j <= j2 <= lines.len(),
            ls == lines.deep_view(),
            ls.len() == lines.len(),
            parse_items(ls, j as int).0 == acc.deep_view() + parse_items(ls, j2 as int).0,
            parse_items(ls, j as int).1 == parse_items(ls, j2 as int).1,
        ensures
            j <= j2 <= lines.len(),
            parse_items(ls, j as int).0 == acc.deep_view() + parse_items(ls, j2 as int).0,
            parse_items(ls, j as int).1 == parse_items(ls, j2 as int).1,
            parse_items(ls, j2 as int) == (Seq::<Seq<char>>::empty(), j2 as int),
        decreases lines.len() - j2,
    {
        if j2 >= lines.len() {
            break ;
        }
        match try_field(lines[j2].as_str(), s_p_item()) {
            Some(v) => {
                proof {
                    lemma_parse_items_range(ls, j2 as int + 1);
                }
                acc.push(v);
                proof {
                    let val = val_of(ls[j2 as int], p_item());
                    assert(acc.deep_view() =~= acc.deep_view().take(acc.deep_view().len() - 1).push(
                        val,
                    ));
                    assert(acc.deep_view().take(acc.deep_view().len() - 1) + (seq![val]
                        + parse_items(ls, j2 as int + 1).0) =~= acc.deep_view() + parse_items(
                        ls,
                        j2 as int + 1,
                    ).0);
                }
                j2 = j2 + 1;
            },
            None => {
                break ;
            },
        }
    }
    proof {
        assert(parse_items(ls, j2 as int).0 =~= Seq::<Seq<char>>::empty());
        assert(acc.deep_view() + Seq::<Seq<char>>::empty() =~= acc.deep_view());
    }
    (acc, j2)
}

/// Reads an optional list block.
fn parse_list_exec(lines: &Vec<String>, j: usize, hdr: &str) -> (r: (Vec<String>, usize))
    requires
        j <= lines.len(),
    ensures
        ({
            let (items, j2) = parse_list(lines.deep_view(), j as int, hdr@);
            r.0.deep_view() == items && r.1 == j2 && j <= r.1 <= lines.len()
        }),
{
    if j < lines.len() && str_eq(lines[j].as_str(), hdr) {
        parse_items_exec(lines, j + 1)
    } else {
        (Vec::new(), j)
    }
}

/// Reads one entry starting at line `i`.
pub(crate) fn parse_entry_exec(lines: &Vec<String>, i: usize) -> (r: Option<(AppImageEntry, usize)>)
    requires
        i <= lines.len(),
    ensures
        match r {
            Some((e, j)) => parse_entry(lines.deep_view(), i as int) == Some((e@, j as int)) && i
                < j <= lines.len(),
            None => parse_entry(lines.deep_view(), i as int) is None,
        },
{
    let ghost ls = lines.deep_view();
    if i >= lines.len() || lines.len() - i < 4 {
        return None;
    }
    let name = match try_field(lines[i].as_str(), s_p_name()) {
        Some(v) => v,
        None => {
            return None;
        },
    };
    let version = match try_field(lines[i + 1].as_str(), s_p_version()) {
        Some(v) => v,
        None => {
            return None;
        },
    };
    let file = match try_field(lines[i + 2].as_str(), s_p_file()) {
        Some(v) => v,
        None => {
            return None;
        },
    };
    let sha256 = match try_field(lines[i + 3].as_str(), s_p_sha()) {
        Some(v) => v,
        None => {
            return None;
        },
    };
    let (size, j1) = match parse_size_exec(lines, i + 4) {
        Some(p) => p,
        None => {
            return None;
        },
    };
    let (description, j2) = parse_desc_exec(lines, j1);
    let (dependencies, j3) = parse_list_exec(lines, j2, s_h_deps());
    let (provides, j4) = parse_list_exec(lines, j3, s_h_prov());
    let e = AppImageEntry { name, version, file, sha256, size, description, dependencies, provides };
    proof {
        let (ev, jv) = parse_entry(ls, i as int).unwrap();
        assert(e@ =~= ev);
    }
    Some((e, j4))
}

// --- Executable index manifests --------------------------------------------

impl IndexYaml {
    /// Serializes the index manifest; fails exactly when some location
    /// spans a line.
    pub fn to_string(&self) -> (r: Result<String, UnserializableError>)
        ensures
            match r {
                Ok(t) => index_serializable(self@) && t@ == spec_serialize_index(self@),
                Err(_) => !index_serializable(self@),
            },
    {
        let mut i: usize = 0;
        while i < self.sources.len()
            invariant
                i <= self.sources.len(),
                forall|j: int| 0 <= j < i ==> no_newline((#[trigger] self@[j]).url),
            decreases self.sources.len() - i,
        {
            if !str_no_newline(self.sources[i].url.as_str()) {
                proof {
                    assert(!no_newline(self@[i as int].url));
                }
                return Err(UnserializableError {});
            }
            i = i + 1;
        }
        let mut lines: Vec<String> = Vec::new();
        lines.push(s_h_sources().to_owned());
        proof {
            assert(lines.deep_view() =~= seq![h_sources()] + sources_lines(self@.take(0)));
        }
        let mut k: usize = 0;
        while k < self.sources.len()
            invariant
                k <= self.sources.len(),
                lines.deep_view() == seq![h_sources()] + sources_lines(self@.take(k as int)),
            decreases self.sources.len() - k,
        {
            let ghost base = lines.deep_view();
            let src = &self.sources[k];
            match src.source_type {
                SourceType::Index => lines.push(s_t_index().to_owned()),
                SourceType::Appimage => lines.push(s_t_appimage().to_owned()),
            }
            lines.push(make_line(s_p_url(), src.url.as_str()));
            proof {
                assert(lines.deep_view() =~= base + source_lines(self@[k as int]));
                lemma_sources_lines_snoc(self@, k as int);
                assert(lines.deep_view() =~= seq![h_sources()] + sources_lines(
                    self@.take(k as int + 1),
                ));
            }
            k = k + 1;
        }
        proof {
            assert(self@.take(self.sources.len() as int) =~= self@);
        }
        Ok(join_lines(&lines))
    }

    /// Parses the text as an index manifest; fails exactly when the text
    /// is not one.
    pub fn from_str(content: &str) -> (r: Result<IndexYaml, ParseError>)
        ensures
            match r {
                Ok(m) => spec_parse_index(content@) == Some(m@),
                Err(_) => spec_parse_index(content@) is None,
            },
    {
        let lines = split_lines(content);
        let ghost ls = spec_split_lines(content@);
        if lines.len() == 0 {
            return Err(ParseError {});
        }
        if !str_eq(lines[0].as_str(), s_h_sources()) {
            return Err(ParseError {});
        }
        let mut sources: Vec<IndexSource> = Vec::new();
        let mut i: usize = 1;
        proof {
            assert(sources.deep_view() =~= Seq::<SourceV>::empty());
            assert(Seq::<SourceV>::empty() + parse_sources(ls, 1).unwrap_or(Seq::empty())
                =~= parse_sources(ls, 1).unwrap_or(Seq::empty()));
        }
        while i < lines.len()
            invariant
                1 <= i <= lines.len(),
                ls == lines.deep_view(),
                ls == spec_split_lines(content@),
                ls.len() == lines.len(),
                ls.len() > 0 && ls[0] == h_sources(),
                parse_sources(ls, 1) == (match parse_sources(ls, i as int) {
                    Some(rest) => Some(sources.deep_view() + rest),
                    None => None::<Seq<SourceV>>,
                }),
            decreases lines.len() - i,
        {
            if lines.len() - i < 2 {
                proof {
                    assert(parse_source(ls, i as int) is None);
                    assert(parse_sources(ls, i as int) is None);
                }
                return Err(ParseError {});
            }
            let is_index = if str_eq(lines[i].as_str(), s_t_index()) {
                true
            } else if str_eq(lines[i].as_str(), s_t_appimage()) {
                false
            } else {
                proof {
                    assert(ls[i as int] == lines@[i as int]@);
                    assert(parse_source(ls, i as int) is None);
                    assert(parse_sources(ls, i as int) is None);
                }
                return Err(ParseError {});
            };
            let url = match try_field(lines[i + 1].as_str(), s_p_url()) {
                Some(v) => v,
                None => {
                    proof {
                        assert(ls[i as int + 1] == lines@[i as int + 1]@);
                        assert(parse_source(ls, i as int) is None);
                        assert(parse_sources(ls, i as int) is None);
                    }
                    return Err(ParseError {});
                },
            };
            proof {
                assert(t_index() != t_appimage()) by {
                    assert(t_index().len() != t_appimage().len());
                }
            }
            let src = IndexSource {
                source_type: if is_index {
                    SourceType::Index
                } else {
                    SourceType::Appimage
                },
                url,
            };
            sources.push(src);
            proof {
                let (sv, jj) = parse_source(ls, i as int).unwrap();
                assert(sources.deep_view().last() =~= sv);
                assert(sources.deep_view() =~= sources.deep_view().take(
                    sources.deep_view().len() - 1,
                ).push(sv));
                assert(forall|rest: Seq<SourceV>|
                    sources.deep_view().take(sources.deep_view().len() - 1) + (seq![sv] + rest)
                        =~= sources.deep_view() + rest);
            }
            i = i + 2;
        }
        proof {
            assert(parse_sources(ls, i as int) == Some(Seq::<SourceV>::empty()));
            assert(sources.deep_view() + Seq::<SourceV>::empty() =~= sources.deep_view());
        }
        Ok(IndexYaml { sources })
    }
}

proof fn lemma_sources_lines_snoc(srcs: Seq<SourceV>, k: int)
    requires
        0 <= k < srcs.len(),
    ensures
        sources_lines(srcs.take(k + 1)) == sources_lines(srcs.take(k)) + source_lines(srcs[k]),
    decreases k,
{
    if k == 0 {
        assert(srcs.take(1)[0] == srcs[0]);
        assert(srcs.take(1).skip(1) =~= Seq::<SourceV>::empty());
        assert(sources_lines(srcs.take(1)) =~= source_lines(srcs[0]) + sources_lines(
            Seq::<SourceV>::empty(),
        ));
        assert(sources_lines(srcs.take(0)) =~= Seq::<Seq<char>>::empty());
        assert(sources_lines(srcs.take(0)) + source_lines(srcs[0]) =~= sources_lines(
            srcs.take(1),
        ));
    } else {
        lemma_sources_lines_snoc(srcs.skip(1), k - 1);
        assert(srcs.take(k + 1)[0] == srcs[0]);
        assert(srcs.take(k)[0] == srcs[0]);
        assert(srcs.take(k + 1).skip(1) =~= srcs.skip(1).take(k));
        assert(srcs.take(k).skip(1) =~= srcs.skip(1).take(k - 1));
        assert(srcs.skip(1)[k - 1] == srcs[k]);
        assert(sources_lines(srcs.take(k + 1)) == source_lines(srcs[0]) + sources_lines(
            srcs.skip(1).take(k),
        ));
        assert(sources_lines(srcs.take(k)) == source_lines(srcs[0]) + sources_lines(
            srcs.skip(1).take(k - 1),
        ));
        assert(source_lines(srcs[0]) + (sources_lines(srcs.skip(1).take(k - 1)) + source_lines(
            srcs[k],
        )) =~= (source_lines(srcs[0]) + sources_lines(srcs.skip(1).take(k - 1))) + source_lines(
            srcs[k],
        ));
    }
}

} // verus!

//! The user-maintained source set: a plain list of root locations, and
//! named collectives that group further locations.  Both lists are
//! persisted in the shared line format, and both are merged — deduplicated
//! and ordered — before a resolution pass.

use vstd::prelude::*;
use vstd::string::StrSliceExecFns;
use crate::entry::clone_string_vec;
use crate::deps::vec_contains_str;
use crate::manifest::{h_sources, p_name, p_item, starts, val_of, ParseError,
    UnserializableError};
use crate::text::{
    join_lines, lemma_lex_lt_connex, lemma_lex_lt_irrefl, lemma_lex_lt_trans, lex_lt, no_newline,
    spec_join_lines, spec_split_lines, split_lines, str_eq, str_has_prefix, str_lex_lt,
    str_no_newline, str_suffix,
};

verus! {

/// The plain list of root source locations.
pub struct SourcesYaml {
    pub sources: Vec<String>,
}

impl View for SourcesYaml {
    type V = Seq<Seq<char>>;

    open spec fn view(&self) -> Seq<Seq<char>> {
        self.sources.deep_view()
    }
}

/// A named group of source locations.
pub struct Collective {
    pub name: String,
    pub sources: Vec<String>,
}

#[verifier::ext_equal]
pub ghost struct CollectiveV {
    pub name: Seq<char>,
    pub sources: Seq<Seq<char>>,
}

impl View for Collective {
    type V = CollectiveV;

    open spec fn view(&self) -> CollectiveV {
        CollectiveV { name: self.name@, sources: self.sources.deep_view() }
    }
}

impl DeepView for Collective {
    type V = CollectiveV;

    open spec fn deep_view(&self) -> CollectiveV {
        self.view()
    }
}

/// The user's named groups of sources.
pub struct CollectivesYaml {
    pub collectives: Vec<Collective>,
}

impl View for CollectivesYaml {
    type V = Seq<CollectiveV>;

    open spec fn view(&self) -> Seq<CollectiveV> {
        self.collectives.deep_view()
    }
}

impl SourcesYaml {
    /// An empty source list.
    pub fn new() -> (r: Self)
        ensures
            r@.len() == 0,
    {
        SourcesYaml { sources: Vec::new() }
    }

    /// Registers a location unless it is already present.
    pub fn add_source(&mut self, url: String)
        ensures
            final(self)@ == if old(self)@.contains(url@) {
                old(self)@
            } else {
                old(self)@.push(url@)
            },
    {
        if !vec_contains_str(&self.sources, url.as_str()) {
            let ghost pre = self@;
            self.sources.push(url);
            proof {
                assert(self@ =~= pre.push(self@.last()));
            }
        }
    }

    /// Drops every record of a location; reports whether any was present.
    pub fn remove_source(&mut self, url: &str) -> (r: bool)
        ensures
            final(self)@ == old(self)@.filter(|s: Seq<char>| s != url@),
            r == old(self)@.contains(url@),
    {
        let ghost orig = self@;
        let mut kept: Vec<String> = Vec::new();
        let mut found = false;
        let mut i: usize = 0;
        proof {
            assert(orig.take(0) =~= Seq::<Seq<char>>::empty());
            assert(kept.deep_view() =~= orig.take(0).filter(|s: Seq<char>| s != url@));
        }
        while i < self.sources.len()
            invariant
                i <= self.sources.len(),
                orig == self@,
                orig.len() == self.sources.len(),
                kept.deep_view() == orig.take(i as int).filter(|s: Seq<char>| s != url@),
                found == exists|j: int| 0 <= j < i && orig[j] == url@,
            decreases self.sources.len() - i,
        {
            let ghost prevkept = kept.deep_view();
            let hit = str_eq(self.sources[i].as_str(), url);
            if hit {
                found = true;
            } else {
                kept.push(self.sources[i].clone());
            }
            proof {
                let p = |s: Seq<char>| s != url@;
                reveal(Seq::filter);
                let t = orig.take(i as int + 1);
                assert(t.drop_last() =~= orig.take(i as int));
                assert(t.last() == orig[i as int]);
                if !hit {
                    assert(kept.deep_view() =~= prevkept.push(orig[i as int]));
                }
                assert(kept.deep_view() =~= orig.take(i as int + 1).filter(p));
            }
            i = i + 1;
        }
        proof {
            assert(orig.take(orig.len() as int) =~= orig);
            if found {
                assert(orig.contains(url@));
            }
            if orig.contains(url@) {
                let j = choose|j: int| 0 <= j < orig.len() && orig[j] == url@;
                assert(found);
            }
        }
        self.sources = kept;
        found
    }
}

// --- Persisted form of the plain source list -------------------------------

/// The serialized lines of the plain source list: a header, then one
/// location per line.
pub open spec fn p_dash() -> Seq<char> {
    seq!['-', ' ']
}

pub open spec fn source_list_lines(urls: Seq<Seq<char>>) -> Seq<Seq<char>> {
    seq![h_sources()] + urls.map_values(|u: Seq<char>| p_dash() + u)
}

pub open spec fn spec_serialize_sources(urls: Seq<Seq<char>>) -> Seq<char> {
    spec_join_lines(source_list_lines(urls))
}

/// Reads location lines until the lines run out; any other line fails.
pub open spec fn parse_source_items(ls: Seq<Seq<char>>, i: int) -> Option<Seq<Seq<char>>>
    decreases ls.len() - i,
{
    if i >= ls.len() {
        Some(Seq::empty())
    } else if starts(ls[i], p_dash()) {
        match parse_source_items(ls, i + 1) {
            Some(rest) => Some(seq![val_of(ls[i], p_dash())] + rest),
            None => None,
        }
    } else {
        None
    }
}

/// What parsing the plain source list yields.  An empty document is an
/// empty list.
pub open spec fn spec_parse_sources(text: Seq<char>) -> Option<Seq<Seq<char>>> {
    let ls = spec_split_lines(text);
    if ls.len() == 0 {
        Some(Seq::empty())
    } else if ls[0] == h_sources() {
        parse_source_items(ls, 1)
    } else {
        None
    }
}

impl SourcesYaml {
    /// Parses the persisted source list; an empty document is an empty
    /// list, anything else must carry the header and one location per
    /// line.
    pub fn from_str(content: &str) -> (r: Result<SourcesYaml, ParseError>)
        ensures
            match r {
                Ok(s) => spec_parse_sources(content@) == Some(s@),
                Err(_) => spec_parse_sources(content@) is None,
            },
    {
        let lines = split_lines(content);
        let ghost ls = spec_split_lines(content@);
        if lines.len() == 0 {
            return Ok(SourcesYaml { sources: Vec::new() });
        }
        let hdr = {
            let h = "sources:";
            proof {
                reveal_strlit("sources:");
                assert(h@ =~= h_sources());
            }
            h
        };
        if !str_eq(lines[0].as_str(), hdr) {
            return Err(ParseError {});
        }
        let pfx = {
            let d = "- ";
            proof {
                reveal_strlit("- ");
                assert(d@ =~= p_dash());
            }
            d
        };
        let mut urls: Vec<String> = Vec::new();
        let mut i: usize = 1;
        proof {
            assert(urls.deep_view() =~= Seq::<Seq<char>>::empty());
            assert(Seq::<Seq<char>>::empty() + parse_source_items(ls, 1).unwrap_or(Seq::empty())
                =~= parse_source_items(ls, 1).unwrap_or(Seq::empty()));
        }
        while i < lines.len()
            invariant
                1 <= i <= lines.len(),
                ls == lines.deep_view(),
                ls == spec_split_lines(content@),
                ls.len() == lines.len(),
                ls.len() > 0 && ls[0] == h_sources(),
                pfx@ == p_dash(),
                parse_source_items(ls, 1) == (match parse_source_items(ls, i as int) {
                    Some(rest) => Some(urls.deep_view() + rest),
                    None => None::<Seq<Seq<char>>>,
                }),
            decreases lines.len() - i,
        {
            proof {
                assert(ls[i as int] == lines@[i as int]@);
            }
            if !str_has_prefix(lines[i].as_str(), pfx) {
                proof {
                    assert(parse_source_items(ls, i as int) is None);
                }
                return Err(ParseError {});
            }
            proof {
                assert(p_dash().len() == 2);
            }
            let url = str_suffix(lines[i].as_str(), 2);
            proof {
                assert(url@ == val_of(ls[i as int], p_dash()));
            }
            urls.push(url);
            proof {
                let v = val_of(ls[i as int], p_dash());
                assert(urls.deep_view() =~= urls.deep_view().take(urls.deep_view().len() - 1).push(
                    v,
                ));
                assert(forall|rest: Seq<Seq<char>>|
                    urls.deep_view().take(urls.deep_view().len() - 1) + (seq![v] + rest)
                        =~= urls.deep_view() + rest);
            }
            i = i + 1;
        }
        proof {
            assert(parse_source_items(ls, i as int) == Some(Seq::<Seq<char>>::empty()));
            assert(urls.deep_view() + Seq::<Seq<char>>::empty() =~= urls.deep_view());
        }
        Ok(SourcesYaml { sources: urls })
    }

    /// Serializes the source list; fails exactly when a location spans a
    /// line.
    pub fn to_string(&self) -> (r: Result<String, UnserializableError>)
        ensures
            match r {
                Ok(t) => (forall|i: int|
                    0 <= i < self@.len() ==> no_newline(#[trigger] self@[i])) && t@
                    == spec_serialize_sources(self@),
                Err(_) => !(forall|i: int|
                    0 <= i < self@.len() ==> no_newline(#[trigger] self@[i])),
            },
    {
        let mut i: usize = 0;
        while i < self.sources.len()
            invariant
                i <= self.sources.len(),
                forall|j: int| 0 <= j < i ==> no_newline(#[trigger] self@[j]),
            decreases self.sources.len() - i,
        {
            if !str_no_newline(self.sources[i].as_str()) {
                proof {
                    assert(!no_newline(self@[i as int]));
                }
                return Err(UnserializableError {});
            }
            i = i + 1;
        }
        let hdr = {
            let h = "sources:";
            proof {
                reveal_strlit("sources:");
                assert(h@ =~= h_sources());
            }
            h
        };
        let pfx = {
            let d = "- ";
            proof {
                reveal_strlit("- ");
                assert(d@ =~= p_dash());
            }
            d
        };
        let mut lines: Vec<String> = Vec::new();
        lines.push(hdr.to_owned());
        proof {
            assert(lines.deep_view() =~= seq![h_sources()] + self@.take(0).map_values(
                |u: Seq<char>| p_dash() + u,
            ));
        }
        let mut k: usize = 0;
        while k < self.sources.len()
            invariant
                k <= self.sources.len(),
                pfx@ == p_dash(),
                lines.deep_view() == seq![h_sources()] + self@.take(k as int).map_values(
                    |u: Seq<char>| p_dash() + u,
                ),
            decreases self.sources.len() - k,
        {
            let mut l = String::new();
            l.append(pfx);
            l.append(self.sources[k].as_str());
            let ghost pre = lines.deep_view();
            lines.push(l);
            proof {
                assert(lines.deep_view() =~= pre.push(p_dash() + self@[k as int]));
                assert(self@.take(k as int + 1).map_values(|u: Seq<char>| p_dash() + u)
                    =~~= self@.take(k as int).map_values(|u: Seq<char>| p_dash() + u).push(
                    p_dash() + self@[k as int],
                ));
                assert(lines.deep_view() =~= seq![h_sources()] + self@.take(k as int
                    + 1).map_values(|u: Seq<char>| p_dash() + u));
            }
            k = k + 1;
        }
        proof {
            assert(self@.take(self.sources.len() as int) =~= self@);
        }
        Ok(join_lines(&lines))
    }
}

// --- Collectives -----------------------------------------------------------

pub open spec fn h_collectives() -> Seq<char> {
    seq!['c', 'o', 'l', 'l', 'e', 'c', 't', 'i', 'v', 'e', 's', ':']
}

pub open spec fn h_src_list() -> Seq<char> {
    seq![' ', ' ', 's', 'o', 'u', 'r', 'c', 'e', 's', ':']
}

/// The serialized lines of one collective: its name, then its locations
/// when it has any.
pub open spec fn collective_lines(c: CollectiveV) -> Seq<Seq<char>> {
    seq![p_name() + c.name] + (if c.sources.len() > 0 {
        seq![h_src_list()] + c.sources.map_values(|u: Seq<char>| p_item() + u)
    } else {
        Seq::empty()
    })
}

pub open spec fn collectives_lines(cs: Seq<CollectiveV>) -> Seq<Seq<char>>
    decreases cs.len(),
{
    if cs.len() == 0 {
        Seq::empty()
    } else {
        collective_lines(cs[0]) + collectives_lines(cs.skip(1))
    }
}

pub open spec fn spec_serialize_collectives(cs: Seq<CollectiveV>) -> Seq<char> {
    spec_join_lines(seq![h_collectives()] + collectives_lines(cs))
}

/// Reads one collective: its name line, then an optional location block.
pub open spec fn parse_collective(ls: Seq<Seq<char>>, i: int) -> Option<(CollectiveV, int)> {
    if 0 <= i && i < ls.len() && starts(ls[i], p_name()) {
        let name = val_of(ls[i], p_name());
        if i + 1 < ls.len() && ls[i + 1] == h_src_list() {
            let (items, j) = crate::manifest::parse_items(ls, i + 2);
            Some((CollectiveV { name: name, sources: items }, j))
        } else {
            Some((CollectiveV { name: name, sources: Seq::empty() }, i + 1))
        }
    } else {
        None
    }
}

pub open spec fn parse_collectives(ls: Seq<Seq<char>>, i: int) -> Option<Seq<CollectiveV>>
    decreases ls.len() - i,
{
    if i >= ls.len() {
        Some(Seq::empty())
    } else {
        match parse_collective(ls, i) {
            None => None,
            Some((c, j)) => if i < j <= ls.len() {
                match parse_collectives(ls, j) {
                    Some(rest) => Some(seq![c] + rest),
                    None => None,
                }
            } else {
                None
            },
        }
    }
}

/// What parsing the collectives list yields.  An empty document is an
/// empty list.
pub open spec fn spec_parse_collectives(text: Seq<char>) -> Option<Seq<CollectiveV>> {
    let ls = spec_split_lines(text);
    if ls.len() == 0 {
        Some(Seq::empty())
    } else if ls[0] == h_collectives() {
        parse_collectives(ls, 1)
    } else {
        None
    }
}

/// Locations added one at a time, skipping those already present.
pub open spec fn add_urls(ss: Seq<Seq<char>>, urls: Seq<Seq<char>>) -> Seq<Seq<char>>
    decreases urls.len(),
{
    if urls.len() == 0 {
        ss
    } else {
        add_urls(
            if ss.contains(urls[0]) {
                ss
            } else {
                ss.push(urls[0])
            },
            urls.skip(1),
        )
    }
}

/// The position of the first collective with this name.
pub open spec fn find_collective(cs: Seq<CollectiveV>, name: Seq<char>) -> Option<int>
    decreases cs.len(),
{
    if cs.len() == 0 {
        None
    } else if cs[0].name == name {
        Some(0)
    } else {
        match find_collective(cs.skip(1), name) {
            Some(i) => Some(i + 1),
            None => None,
        }
    }
}

impl CollectivesYaml {
    /// An empty set of collectives.
    pub fn new() -> (r: Self)
        ensures
            r@.len() == 0,
    {
        CollectivesYaml { collectives: Vec::new() }
    }

    /// Adds locations to the named collective — skipping those it already
    /// holds — or creates it with exactly these locations.
    pub fn add_to_collective(&mut self, name: &str, urls: Vec<String>)
        ensures
            final(self)@ == match find_collective(old(self)@, name@) {
                Some(ci) => old(self)@.update(
                    ci,
                    CollectiveV {
                        name: old(self)@[ci].name,
                        sources: add_urls(old(self)@[ci].sources, urls.deep_view()),
                    },
                ),
                None => old(self)@.push(
                    CollectiveV { name: name@, sources: urls.deep_view() },
                ),
            },
    {
        let ghost orig = self@;
        let mut ci: usize = 0;
        proof {
            assert(orig.skip(0) =~= orig);
        }
        while ci < self.collectives.len()
            invariant
                ci <= self.collectives.len(),
                orig == self@,
                orig == old(self)@,
                orig.len() == self.collectives.len(),
                forall|j: int| 0 <= j < ci ==> (#[trigger] orig[j]).name != name@,
                find_collective(orig, name@) == match find_collective(
                    orig.skip(ci as int),
                    name@,
                ) {
                    Some(k) => Some(k + ci),
                    None => None::<int>,
                },
            decreases self.collectives.len() - ci,
        {
            proof {
                assert(orig.skip(ci as int)[0] == orig[ci as int]);
                assert(orig.skip(ci as int).skip(1) =~= orig.skip(ci as int + 1));
            }
            if str_eq(self.collectives[ci].name.as_str(), name) {
                let ghost target = orig[ci as int];
                let mut c = self.collectives.remove(ci);
                let ghost removed = self@;
                let ghost src0 = c.sources.deep_view();
                let ghost uv = urls.deep_view();
                let mut t: usize = 0;
                proof {
                    assert(uv.skip(0) =~= uv);
                    assert(removed =~= orig.remove(ci as int));
                    assert(c@ =~= orig[ci as int]);
                    assert(src0 == orig[ci as int].sources);
                    assert(c@.name == orig[ci as int].name);
                }
                while t < urls.len()
                    invariant
                        t <= urls.len(),
                        uv == urls.deep_view(),
                        uv.len() == urls.len(),
                        c@.name == orig[ci as int].name,
                        add_urls(src0, uv) == add_urls(
                            c.sources.deep_view(),
                            uv.skip(t as int),
                        ),
                    decreases urls.len() - t,
                {
                    proof {
                        assert(uv.skip(t as int)[0] == uv[t as int]);
                        assert(uv.skip(t as int).skip(1) =~= uv.skip(t as int + 1));
                    }
                    if !vec_contains_str(&c.sources, urls[t].as_str()) {
                        let ghost pre = c.sources.deep_view();
                        c.sources.push(urls[t].clone());
                        proof {
                            assert(c.sources.deep_view() =~= pre.push(uv[t as int]));
                        }
                    }
                    t = t + 1;
                }
                proof {
                    assert(uv.skip(urls.len() as int).len() == 0);
                    assert(add_urls(c.sources.deep_view(), uv.skip(t as int))
                        == c.sources.deep_view());
                }
                let ghost cafter = c@;
                self.collectives.insert(ci, c);
                proof {
                    assert(find_collective(orig, name@) == Some(ci as int));
                    assert(cafter.name == target.name);
                    assert(cafter.sources == add_urls(src0, uv));
                    assert(self@ =~= removed.insert(ci as int, cafter));
                    assert(forall|j: int| 0 <= j < ci ==> self@[j] == #[trigger] orig[j]);
                    assert(forall|j: int|
                        ci < j < self@.len() ==> self@[j] == removed[j - 1] && removed[j - 1]
                            == #[trigger] orig[j]);
                    assert(self@ =~= orig.update(
                        ci as int,
                        CollectiveV { name: target.name, sources: add_urls(src0, uv) },
                    ));
                }
                return ;
            }
            ci = ci + 1;
        }
        proof {
            assert(orig.skip(ci as int).len() == 0);
            assert(find_collective(orig, name@) is None);
        }
        let mut nm = String::new();
        nm.append(name);
        let ghost pre = self@;
        self.collectives.push(Collective { name: nm, sources: urls });
        proof {
            assert(self@.last() =~= (CollectiveV { name: name@, sources: urls.deep_view() }));
            assert(self@ =~= pre.push(CollectiveV { name: name@, sources: urls.deep_view() }));
        }
    }

    /// Drops every collective with this name; reports whether any existed.
    pub fn remove_collective(&mut self, name: &str) -> (r: bool)
        ensures
            final(self)@ == old(self)@.filter(|c: CollectiveV| c.name != name@),
            r == exists|j: int|
                0 <= j < old(self)@.len() && (#[trigger] old(self)@[j]).name == name@,
    {
        let ghost orig = self@;
        let mut kept: Vec<Collective> = Vec::new();
        let mut found = false;
        let mut i: usize = 0;
        proof {
            assert(orig.take(0) =~= Seq::<CollectiveV>::empty());
            assert(kept.deep_view() =~= orig.take(0).filter(|c: CollectiveV| c.name != name@));
        }
        while i < self.collectives.len()
            invariant
                i <= self.collectives.len(),
                orig == self@,
                orig.len() == self.collectives.len(),
                kept.deep_view() == orig.take(i as int).filter(|c: CollectiveV| c.name != name@),
                found == exists|j: int| 0 <= j < i && (#[trigger] orig[j]).name == name@,
            decreases self.collectives.len() - i,
        {
            let ghost prevkept = kept.deep_view();
            let hit = str_eq(self.collectives[i].name.as_str(), name);
            if hit {
                found = true;
            } else {
                let c = Collective {
                    name: self.collectives[i].name.clone(),
                    sources: clone_string_vec(&self.collectives[i].sources),
                };
                proof {
                    assert(c@ =~= orig[i as int]);
                }
                kept.push(c);
            }
            proof {
                let p = |c: CollectiveV| c.name != name@;
                reveal(Seq::filter);
                let t = orig.take(i as int + 1);
                assert(t.drop_last() =~= orig.take(i as int));
                assert(t.last() == orig[i as int]);
                if !hit {
                    assert(kept.deep_view() =~= prevkept.push(orig[i as int]));
                }
                assert(kept.deep_view() =~= orig.take(i as int + 1).filter(p));
            }
            i = i + 1;
        }
        proof {
            assert(orig.take(orig.len() as int) =~= orig);
        }
        self.collectives = kept;
        found
    }
}

// --- Deduplicated, ordered merging ----------------------------------------

/// Strictly ascending by the lexicographic order, hence duplicate-free.
pub open spec fn strictly_sorted(ss: Seq<Seq<char>>) -> bool {
    forall|i: int, j: int| 0 <= i < j < ss.len() ==> lex_lt(#[trigger] ss[i], #[trigger] ss[j])
}

/// Inserts a location into a strictly sorted list, keeping it sorted and
/// duplicate-free.
pub fn insert_unique_sorted(v: &mut Vec<String>, s: &str)
    requires
        strictly_sorted(old(v).deep_view()),
    ensures
        strictly_sorted(final(v).deep_view()),
        forall|x: Seq<char>|
            final(v).deep_view().contains(x) <==> (old(v).deep_view().contains(x) || x == s@),
{
    let ghost orig = v.deep_view();
    let mut i: usize = 0;
    while i < v.len() && str_lex_lt(v[i].as_str(), s)
        invariant
            i <= v.len(),
            orig == v.deep_view(),
            orig.len() == v.len(),
            strictly_sorted(orig),
            forall|j: int| 0 <= j < i ==> lex_lt(#[trigger] orig[j], s@),
        decreases v.len() - i,
    {
        i = i + 1;
    }
    proof {
        assert(i == orig.len() || !lex_lt(orig[i as int], s@));
    }
    if i < v.len() && str_eq(v[i].as_str(), s) {
        proof {
            assert(orig.contains(s@)) by {
                assert(orig[i as int] == s@);
            }
        }
        return ;
    }
    let mut owned = String::new();
    owned.append(s);
    let ghost pre = v.deep_view();
    v.insert(i, owned);
    proof {
        assert(v.deep_view() =~= pre.insert(i as int, s@));
        let now = v.deep_view();
        assert(i < now.len());
        assert(now[i as int] == s@);
        assert(forall|j: int| 0 <= j < i ==> now[j] == #[trigger] pre[j]);
        assert(forall|j: int| i < j < now.len() ==> now[j] == #[trigger] pre[j - 1]);
        assert forall|a: int, b: int| 0 <= a < b < now.len() implies lex_lt(
            #[trigger] now[a],
            #[trigger] now[b],
        ) by {
            if a == i {
                // everything at and after the insertion point ranks above s
                assert(!lex_lt(pre[b - 1], s@)) by {
                    if b - 1 > i {
                        if lex_lt(pre[b - 1], s@) {
                            if i < orig.len() {
                                assert(lex_lt(pre[i as int], pre[b - 1]));
                                lemma_lex_lt_trans(pre[i as int], pre[b - 1], s@);
                            }
                        }
                    }
                }
                assert(pre[b - 1] != s@) by {
                    if pre[b - 1] == s@ {
                        if b - 1 == i {
                        } else {
                            assert(lex_lt(pre[i as int], pre[b - 1]));
                        }
                    }
                }
                lemma_lex_lt_connex(pre[b - 1], s@);
            } else if b == i {
                assert(lex_lt(pre[a], s@));
            } else if a < i && b > i {
                assert(lex_lt(pre[a], pre[b - 1])) by {
                    if a == b - 1 {
                        assert(lex_lt(pre[a], s@));
                        assert(!lex_lt(pre[a], pre[a])) by {
                            lemma_lex_lt_irrefl(pre[a]);
                        }
                        assert(false) by {
                            assert(a < i <= b - 1);
                        }
                    }
                }
            }
        }
        assert forall|x: Seq<char>| now.contains(x) implies (pre.contains(x) || x == s@) by {
            let j = choose|j: int| 0 <= j < now.len() && now[j] == x;
            if j < i {
                assert(pre[j] == x);
            } else if j > i {
                assert(pre[j - 1] == x);
            }
        }
        assert forall|x: Seq<char>| pre.contains(x) implies now.contains(x) by {
            let j = choose|j: int| 0 <= j < pre.len() && pre[j] == x;
            if j < i {
                assert(now[j] == x);
            } else {
                assert(now[j + 1] == x);
            }
        }
        assert(now.contains(s@)) by {
            assert(now[i as int] == s@);
        }
    }
}

impl CollectivesYaml {
    /// Every location any collective holds, in ascending order with
    /// duplicates merged.
    pub fn get_all_sources(&self) -> (r: Vec<String>)
        ensures
            strictly_sorted(r.deep_view()),
            forall|x: Seq<char>|
                r.deep_view().contains(x) <==> exists|k: int|
                    0 <= k < self@.len() && (#[trigger] self@[k]).sources.contains(x),
    {
        let mut out: Vec<String> = Vec::new();
        let mut k: usize = 0;
        while k < self.collectives.len()
            invariant
                k <= self.collectives.len(),
                strictly_sorted(out.deep_view()),
                forall|x: Seq<char>|
                    out.deep_view().contains(x) <==> exists|k2: int|
                        0 <= k2 < k && (#[trigger] self@[k2]).sources.contains(x),
            decreases self.collectives.len() - k,
        {
            let ghost outer_pre = out.deep_view();
            let mut j: usize = 0;
            while j < self.collectives[k].sources.len()
                invariant
                    k < self.collectives.len(),
                    j <= self.collectives[k as int].sources.len(),
                    strictly_sorted(out.deep_view()),
                    forall|x: Seq<char>|
                        out.deep_view().contains(x) <==> (outer_pre.contains(x) || exists|
                            j2: int,
                        |
                            0 <= j2 < j && (#[trigger] self@[k as int].sources[j2]) == x),
                    forall|x: Seq<char>|
                        outer_pre.contains(x) <==> exists|k2: int|
                            0 <= k2 < k && (#[trigger] self@[k2]).sources.contains(x),
                decreases self.collectives[k as int].sources.len() - j,
            {
                let ghost before = out.deep_view();
                insert_unique_sorted(&mut out, self.collectives[k].sources[j].as_str());
                proof {
                    let sv = self@[k as int].sources[j as int];
                    assert(sv == self.collectives@[k as int].sources@[j as int]@);
                    assert forall|x: Seq<char>| out.deep_view().contains(x) implies (
                    outer_pre.contains(x) || exists|j2: int|
                        0 <= j2 < j + 1 && (#[trigger] self@[k as int].sources[j2]) == x) by {
                        if !outer_pre.contains(x) {
                            if x == sv {
                                assert(0 <= j < j + 1 && (#[trigger] self@[k as int].sources[
                                    j as int]) == x);
                            } else {
                                assert(before.contains(x));
                                let j2 = choose|j2: int|
                                    0 <= j2 < j && (#[trigger] self@[k as int].sources[j2]) == x;
                                assert(0 <= j2 < j + 1 && (#[trigger] self@[k as int].sources[
                                    j2]) == x);
                            }
                        }
                    }
                    assert forall|x: Seq<char>|
                        (outer_pre.contains(x) || exists|j2: int|
                            0 <= j2 < j + 1 && (#[trigger] self@[k as int].sources[j2])
                                == x) implies out.deep_view().contains(x) by {
                        if outer_pre.contains(x) {
                            assert(before.contains(x));
                        } else {
                            let j2 = choose|j2: int|
                                0 <= j2 < j + 1 && (#[trigger] self@[k as int].sources[j2]) == x;
                            if j2 < j {
                                assert(before.contains(x));
                            } else {
                                assert(x == sv);
                            }
                        }
                    }
                }
                j = j + 1;
            }
            proof {
                assert forall|x: Seq<char>| out.deep_view().contains(x) implies exists|k2: int|
                    0 <= k2 < k + 1 && (#[trigger] self@[k2]).sources.contains(x) by {
                    if outer_pre.contains(x) {
                        let k2 = choose|k2: int|
                            0 <= k2 < k && (#[trigger] self@[k2]).sources.contains(x);
                        assert(self@[k2].sources.contains(x));
                    } else {
                        let j2 = choose|j2: int|
                            0 <= j2 < j && (#[trigger] self@[k as int].sources[j2]) == x;
                        assert(self@[k as int].sources.contains(x));
                    }
                }
                assert forall|x: Seq<char>|
                    exists|k2: int|
                        0 <= k2 < k + 1 && (#[trigger] self@[k2]).sources.contains(x) implies
                    out.deep_view().contains(x) by {
                    let k2 = choose|k2: int|
                        0 <= k2 < k + 1 && (#[trigger] self@[k2]).sources.contains(x);
                    if k2 < k {
                        assert(outer_pre.contains(x));
                    } else {
                        let j2 = choose|j2: int|
                            0 <= j2 < self@[k as int].sources.len() && self@[k as int].sources[j2]
                                == x;
                        assert(0 <= j2 < j && (#[trigger] self@[k as int].sources[j2]) == x);
                    }
                }
            }
            k = k + 1;
        }
        out
    }
}

/// True when `x` stands among the first `i` locations of `ss`.
pub open spec fn in_prefix(ss: Seq<Seq<char>>, i: int, x: Seq<char>) -> bool {
    exists|j: int| 0 <= j < i && #[trigger] ss[j] == x
}

/// True when some collective holds `x`.
pub open spec fn in_any_collective(cs: Seq<CollectiveV>, x: Seq<char>) -> bool {
    exists|k: int| 0 <= k < cs.len() && (#[trigger] cs[k]).sources.contains(x)
}

/// The union of the plain list and every collective's locations, in
/// ascending order with duplicates merged: the roots of a resolution pass.
pub fn combined_sources(sources: &SourcesYaml, collectives: &CollectivesYaml) -> (r: Vec<String>)
    ensures
        strictly_sorted(r.deep_view()),
        forall|x: Seq<char>|
            #[trigger] r.deep_view().contains(x) <==> (sources@.contains(x) || in_any_collective(
                collectives@,
                x,
            )),
{
    let mut out = collectives.get_all_sources();
    let mut i: usize = 0;
    let ghost base = out.deep_view();
    proof {
        assert forall|x: Seq<char>| #[trigger] base.contains(x) implies in_any_collective(
            collectives@,
            x,
        ) by {
            let k = choose|k: int|
                0 <= k < collectives@.len() && (#[trigger] collectives@[k]).sources.contains(x);
            assert(0 <= k < collectives@.len() && (#[trigger] collectives@[k]).sources.contains(
                x,
            ));
        }
        assert forall|x: Seq<char>| in_any_collective(collectives@, x) implies
            #[trigger] base.contains(x) by {
            let k = choose|k: int|
                0 <= k < collectives@.len() && (#[trigger] collectives@[k]).sources.contains(x);
            assert(collectives@[k].sources.contains(x));
        }
    }
    while i < sources.sources.len()
        invariant
            i <= sources.sources.len(),
            strictly_sorted(out.deep_view()),
            forall|x: Seq<char>|
                #[trigger] base.contains(x) <==> in_any_collective(collectives@, x),
            forall|x: Seq<char>|
                #[trigger] out.deep_view().contains(x) <==> (base.contains(x) || in_prefix(
                    sources@,
                    i as int,
                    x,
                )),
        decreases sources.sources.len() - i,
    {
        let ghost before = out.deep_view();
        insert_unique_sorted(&mut out, sources.sources[i].as_str());
        proof {
            let sv = sources@[i as int];
            assert(sv == sources.sources@[i as int]@);
            assert forall|x: Seq<char>| #[trigger] out.deep_view().contains(x) implies (
            base.contains(x) || in_prefix(sources@, i as int + 1, x)) by {
                if !base.contains(x) {
                    if x == sv {
                        assert(0 <= i < i + 1 && #[trigger] sources@[i as int] == x);
                    } else {
                        assert(before.contains(x));
                        assert(in_prefix(sources@, i as int, x));
                        let j = choose|j: int| 0 <= j < i && #[trigger] sources@[j] == x;
                        assert(0 <= j < i + 1 && #[trigger] sources@[j] == x);
                    }
                }
            }
            assert forall|x: Seq<char>|
                (base.contains(x) || in_prefix(sources@, i as int + 1, x)) implies
                #[trigger] out.deep_view().contains(x) by {
                if base.contains(x) {
                    assert(before.contains(x));
                    assert(out.deep_view().contains(x));
                } else {
                    let j = choose|j: int| 0 <= j < i + 1 && #[trigger] sources@[j] == x;
                    if j < i {
                        assert(in_prefix(sources@, i as int, x));
                        assert(before.contains(x));
                    } else {
                        assert(x == sv);
                    }
                }
            }
        }
        i = i + 1;
    }
    proof {
        assert(i == sources.sources.len());
        assert forall|x: Seq<char>| #[trigger] out.deep_view().contains(x) implies (
        sources@.contains(x) || in_any_collective(collectives@, x)) by {
            if !base.contains(x) {
                assert(in_prefix(sources@, i as int, x));
                let j = choose|j: int| 0 <= j < i && #[trigger] sources@[j] == x;
                assert(sources@.contains(x));
            }
        }
        assert forall|x: Seq<char>|
            (sources@.contains(x) || in_any_collective(collectives@, x)) implies
            #[trigger] out.deep_view().contains(x) by {
            if sources@.contains(x) {
                let j = choose|j: int| 0 <= j < sources@.len() && sources@[j] == x;
                assert(sources@.len() == sources.sources.len());
                assert(0 <= j < i && #[trigger] sources@[j] == x);
                assert(in_prefix(sources@, i as int, x));
                assert(out.deep_view().contains(x));
            } else {
                assert(base.contains(x));
                assert(out.deep_view().contains(x));
            }
        }
    }
    out
}

proof fn lemma_collectives_lines_snoc(cs: Seq<CollectiveV>, k: int)
    requires
        0 <= k < cs.len(),
    ensures
        collectives_lines(cs.take(k + 1)) == collectives_lines(cs.take(k)) + collective_lines(
            cs[k],
        ),
    decreases k,
{
    if k == 0 {
        assert(cs.take(1)[0] == cs[0]);
        assert(cs.take(1).skip(1) =~= Seq::<CollectiveV>::empty());
        assert(cs.take(0) =~= Seq::<CollectiveV>::empty());
        assert(collectives_lines(cs.take(1)) =~= collective_lines(cs[0]) + collectives_lines(
            Seq::<CollectiveV>::empty(),
        ));
        assert(collectives_lines(cs.take(0)) + collective_lines(cs[0]) =~= collectives_lines(
            cs.take(1),
        ));
    } else {
        lemma_collectives_lines_snoc(cs.skip(1), k - 1);
        assert(cs.take(k + 1)[0] == cs[0]);
        assert(cs.take(k)[0] == cs[0]);
        assert(cs.take(k + 1).skip(1) =~= cs.skip(1).take(k));
        assert(cs.take(k).skip(1) =~= cs.skip(1).take(k - 1));
        assert(cs.skip(1)[k - 1] == cs[k]);
        assert(collectives_lines(cs.take(k + 1)) == collective_lines(cs[0]) + collectives_lines(
            cs.skip(1).take(k),
        ));
        assert(collectives_lines(cs.take(k)) == collective_lines(cs[0]) + collectives_lines(
            cs.skip(1).take(k - 1),
        ));
        assert(collective_lines(cs[0]) + (collectives_lines(cs.skip(1).take(k - 1))
            + collective_lines(cs[k])) =~= (collective_lines(cs[0]) + collectives_lines(
            cs.skip(1).take(k - 1),
        )) + collective_lines(cs[k]));
    }
}

impl CollectivesYaml {
    /// Parses the persisted collectives; an empty document is an empty
    /// set.
    pub fn from_str(content: &str) -> (r: Result<CollectivesYaml, ParseError>)
        ensures
            match r {
                Ok(c) => spec_parse_collectives(content@) == Some(c@),
                Err(_) => spec_parse_collectives(content@) is None,
            },
    {
        let lines = split_lines(content);
        let ghost ls = spec_split_lines(content@);
        if lines.len() == 0 {
            return Ok(CollectivesYaml { collectives: Vec::new() });
        }
        let hdr = {
            let h = "collectives:";
            proof {
                reveal_strlit("collectives:");
                assert(h@ =~= h_collectives());
            }
            h
        };
        if !str_eq(lines[0].as_str(), hdr) {
            return Err(ParseError {});
        }
        let namepfx = {
            let d = "- name: ";
            proof {
                reveal_strlit("- name: ");
                assert(d@ =~= p_name());
            }
            d
        };
        let srchdr = {
            let d = "  sources:";
            proof {
                reveal_strlit("  sources:");
                assert(d@ =~= h_src_list());
            }
            d
        };
        let mut cs: Vec<Collective> = Vec::new();
        let mut i: usize = 1;
        proof {
            assert(cs.deep_view() =~= Seq::<CollectiveV>::empty());
            assert(Seq::<CollectiveV>::empty() + parse_collectives(ls, 1).unwrap_or(Seq::empty())
                =~= parse_collectives(ls, 1).unwrap_or(Seq::empty()));
        }
        while i < lines.len()
            invariant
                1 <= i <= lines.len(),
                ls == lines.deep_view(),
                ls == spec_split_lines(content@),
                ls.len() == lines.len(),
                ls.len() > 0 && ls[0] == h_collectives(),
                namepfx@ == p_name(),
                srchdr@ == h_src_list(),
                parse_collectives(ls, 1) == (match parse_collectives(ls, i as int) {
                    Some(rest) => Some(cs.deep_view() + rest),
                    None => None::<Seq<CollectiveV>>,
                }),
            decreases lines.len() - i,
        {
            proof {
                assert(ls[i as int] == lines@[i as int]@);
            }
            if !str_has_prefix(lines[i].as_str(), namepfx) {
                proof {
                    assert(parse_collective(ls, i as int) is None);
                }
                return Err(ParseError {});
            }
            proof {
                assert(p_name().len() == 8);
            }
            let cname = str_suffix(lines[i].as_str(), 8);
            proof {
                assert(cname@ == val_of(ls[i as int], p_name()));
            }
            let mut srcs: Vec<String> = Vec::new();
            let mut j: usize = i + 1;
            let mut has_block = false;
            if j < lines.len() {
                proof {
                    assert(ls[j as int] == lines@[j as int]@);
                }
                if str_eq(lines[j].as_str(), srchdr) {
                    has_block = true;
                    let (items, j2) = crate::manifest::parse_items_exec(&lines, j + 1);
                    srcs = items;
                    j = j2;
                }
            }
            let ghost cv = parse_collective(ls, i as int).unwrap().0;
            proof {
                if has_block {
                    assert(parse_collective(ls, i as int) == Some(
                        (CollectiveV { name: cname@, sources: srcs.deep_view() }, j as int),
                    ));
                } else {
                    assert(parse_collective(ls, i as int) == Some(
                        (CollectiveV { name: cname@, sources: Seq::<Seq<char>>::empty() },
                        i as int + 1),
                    )) by {
                        assert(parse_collective(ls, i as int).unwrap().0
                            =~= (CollectiveV { name: cname@, sources: Seq::empty() }));
                    }
                    assert(srcs.deep_view() =~= Seq::<Seq<char>>::empty());
                }
            }
            let c = Collective { name: cname, sources: srcs };
            cs.push(c);
            proof {
                assert(cs.deep_view().last() =~= cv);
                assert(cs.deep_view() =~= cs.deep_view().take(cs.deep_view().len() - 1).push(cv));
                assert(forall|rest: Seq<CollectiveV>|
                    cs.deep_view().take(cs.deep_view().len() - 1) + (seq![cv] + rest)
                        =~= cs.deep_view() + rest);
            }
            i = j;
        }
        proof {
            assert(parse_collectives(ls, i as int) == Some(Seq::<CollectiveV>::empty()));
            assert(cs.deep_view() + Seq::<CollectiveV>::empty() =~= cs.deep_view());
        }
        Ok(CollectivesYaml { collectives: cs })
    }

    /// Serializes the collectives; fails exactly when a name or location
    /// spans a line.
    pub fn to_string(&self) -> (r: Result<String, UnserializableError>)
        ensures
            match r {
                Ok(t) => collectives_one_line(self@) && t@ == spec_serialize_collectives(self@),
                Err(_) => !collectives_one_line(self@),
            },
    {
        let mut i: usize = 0;
        while i < self.collectives.len()
            invariant
                i <= self.collectives.len(),
                forall|j: int| 0 <= j < i ==> collective_one_line(#[trigger] self@[j]),
            decreases self.collectives.len() - i,
        {
            let ok = str_no_newline(self.collectives[i].name.as_str()) && items_all_one_line(
                &self.collectives[i].sources,
            );
            if !ok {
                proof {
                    assert(!collective_one_line(self@[i as int]));
                }
                return Err(UnserializableError {});
            }
            i = i + 1;
        }
        let hdr = {
            let h = "collectives:";
            proof {
                reveal_strlit("collectives:");
                assert(h@ =~= h_collectives());
            }
            h
        };
        let namepfx = {
            let d = "- name: ";
            proof {
                reveal_strlit("- name: ");
                assert(d@ =~= p_name());
            }
            d
        };
        let srchdr = {
            let d = "  sources:";
            proof {
                reveal_strlit("  sources:");
                assert(d@ =~= h_src_list());
            }
            d
        };
        let itempfx = {
            let d = "  - ";
            proof {
                reveal_strlit("  - ");
                assert(d@ =~= p_item());
            }
            d
        };
        let mut lines: Vec<String> = Vec::new();
        lines.push(hdr.to_owned());
        proof {
            assert(lines.deep_view() =~= seq![h_collectives()] + collectives_lines(
                self@.take(0),
            ));
        }
        let mut k: usize = 0;
        while k < self.collectives.len()
            invariant
                k <= self.collectives.len(),
                namepfx@ == p_name(),
                srchdr@ == h_src_list(),
                itempfx@ == p_item(),
                lines.deep_view() == seq![h_collectives()] + collectives_lines(
                    self@.take(k as int),
                ),
            decreases self.collectives.len() - k,
        {
            let ghost base = lines.deep_view();
            let c = &self.collectives[k];
            let mut nameline = String::new();
            nameline.append(namepfx);
            nameline.append(c.name.as_str());
            let ghost pre0 = lines.deep_view();
            lines.push(nameline);
            proof {
                assert(lines.deep_view() =~= pre0.push(p_name() + self@[k as int].name));
            }
            if c.sources.len() > 0 {
                let ghost pre1 = lines.deep_view();
                lines.push(srchdr.to_owned());
                proof {
                    assert(lines.deep_view() =~= pre1.push(h_src_list()));
                }
                let ghost mid = lines.deep_view();
                let mut t: usize = 0;
                proof {
                    let m = self@[k as int].sources.take(0).map_values(
                        |u: Seq<char>| p_item() + u,
                    );
                    assert(m =~= Seq::<Seq<char>>::empty());
                    assert(lines.deep_view() =~= mid + m);
                }
                while t < c.sources.len()
                    invariant
                        t <= c.sources.len(),
                        k < self.collectives.len(),
                        c == &self.collectives[k as int],
                        itempfx@ == p_item(),
                        lines.deep_view() == mid + self@[k as int].sources.take(
                            t as int,
                        ).map_values(|u: Seq<char>| p_item() + u),
                    decreases c.sources.len() - t,
                {
                    let mut l = String::new();
                    l.append(itempfx);
                    l.append(c.sources[t].as_str());
                    let ghost pre2 = lines.deep_view();
                    lines.push(l);
                    proof {
                        let ss = self@[k as int].sources;
                        assert(lines.deep_view() =~= pre2.push(p_item() + ss[t as int]));
                        assert(ss.take(t as int + 1).map_values(|u: Seq<char>| p_item() + u)
                            =~~= ss.take(t as int).map_values(|u: Seq<char>| p_item() + u).push(
                            p_item() + ss[t as int],
                        ));
                        assert(lines.deep_view() =~= mid + ss.take(t as int + 1).map_values(
                            |u: Seq<char>| p_item() + u,
                        ));
                    }
                    t = t + 1;
                }
                proof {
                    let ss = self@[k as int].sources;
                    assert(ss.take(ss.len() as int) =~= ss);
                    assert(lines.deep_view() =~= base + collective_lines(self@[k as int]));
                }
            } else {
                proof {
                    assert(lines.deep_view() =~= base + collective_lines(self@[k as int]));
                }
            }
            proof {
                lemma_collectives_lines_snoc(self@, k as int);
                assert(lines.deep_view() =~= seq![h_collectives()] + collectives_lines(
                    self@.take(k as int + 1),
                ));
            }
            k = k + 1;
        }
        proof {
            assert(self@.take(self.collectives.len() as int) =~= self@);
        }
        Ok(join_lines(&lines))
    }
}

/// True when a collective's name and every location fit on one line.
pub open spec fn collective_one_line(c: CollectiveV) -> bool {
    no_newline(c.name) && crate::manifest::items_one_line(c.sources)
}

pub open spec fn collectives_one_line(cs: Seq<CollectiveV>) -> bool {
    forall|i: int| 0 <= i < cs.len() ==> collective_one_line(#[trigger] cs[i])
}

/// True when every item fits on one line.
fn items_all_one_line(items: &Vec<String>) -> (r: bool)
    ensures
        r == crate::manifest::items_one_line(items.deep_view()),
{
    let mut i: usize = 0;
    while i < items.len()
        invariant
            i <= items.len(),
            forall|j: int| 0 <= j < i ==> no_newline(#[trigger] items.deep_view()[j]),
        decreases items.len() - i,
    {
        if !str_no_newline(items[i].as_str()) {
            proof {
                assert(!no_newline(items.deep_view()[i as int]));
            }
            return false;
        }
        i = i + 1;
    }
    true
}

} // verus!

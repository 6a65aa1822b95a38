//! Display-metadata extraction from an artifact's bytes: locating an
//! embedded desktop-entry section, reading its key-value lines, and the
//! filename fallback for a missing version.

use vstd::prelude::*;
use vstd::string::StrSliceExecFns;
use crate::text::{
    first_occ, is_digit, lemma_first_occ_bounds, spec_split_lines, spec_split_sep, split_lines,
    split_sep, str_eq,
};

verus! {

// --- Locating the desktop-entry section ------------------------------------

/// True when `pat` occurs in `c` starting at `i`.
pub open spec fn match_at(c: Seq<u8>, pat: Seq<u8>, i: int) -> bool {
    &&& 0 <= i
    &&& i + pat.len() <= c.len()
    &&& forall|k: int| 0 <= k < pat.len() ==> c[i + k] == pat[k]
}

/// The first occurrence of `pat` in `c` at or after `i`.
pub open spec fn first_match_from(c: Seq<u8>, pat: Seq<u8>, i: int) -> Option<int>
    decreases c.len() - i,
{
    if i + pat.len() > c.len() {
        None
    } else if match_at(c, pat, i) {
        Some(i)
    } else {
        first_match_from(c, pat, i + 1)
    }
}

/// The position of the first occurrence of `pat` in `content`, if any.
pub fn find_bytes(content: &[u8], pat: &[u8]) -> (r: Option<usize>)
    requires
        pat@.len() > 0,
    ensures
        match r {
            Some(p) => first_match_from(content@, pat@, 0) == Some(p as int),
            None => first_match_from(content@, pat@, 0) is None,
        },
{
    let n = content.len();
    let m = pat.len();
    if m > n {
        proof {
            lemma_no_match_beyond(content@, pat@, 0);
        }
        return None;
    }
    let mut i: usize = 0;
    while i <= n - m
        invariant
            content@.len() == n,
            pat@.len() == m,
            0 < m <= n,
            i <= n - m + 1,
            first_match_from(content@, pat@, 0) == first_match_from(content@, pat@, i as int),
        decreases n - i,
    {
        let mut k: usize = 0;
        let mut hit = true;
        while k < m
            invariant
                k <= m,
                i + m <= n,
                content@.len() == n,
                pat@.len() == m,
                hit == forall|j: int| 0 <= j < k ==> content@[i + j] == pat@[j],
            decreases m - k,
        {
            if content[i + k] != pat[k] {
                proof {
                    assert(content@[i + k as int] != pat@[k as int]);
                }
                hit = false;
                k = m;
            } else {
                k = k + 1;
            }
        }
        if hit {
            proof {
                assert(match_at(content@, pat@, i as int));
            }
            return Some(i);
        }
        proof {
            assert(!match_at(content@, pat@, i as int));
        }
        i = i + 1;
    }
    proof {
        lemma_no_match_beyond(content@, pat@, i as int);
    }
    None
}

proof fn lemma_no_match_beyond(c: Seq<u8>, pat: Seq<u8>, i: int)
    requires
        i + pat.len() > c.len(),
        0 <= i,
    ensures
        first_match_from(c, pat, i) is None,
{
}

/// The markers a desktop-entry section may begin with, in the order they
/// are tried.
pub open spec fn marker_desktop() -> Seq<u8> {
    seq![91u8, 68u8, 101u8, 115u8, 107u8, 116u8, 111u8, 112u8, 32u8, 69u8, 110u8, 116u8, 114u8,
        121u8, 93u8]
}

pub open spec fn marker_appimage() -> Seq<u8> {
    seq![88u8, 45u8, 65u8, 112u8, 112u8, 73u8, 109u8, 97u8, 103u8, 101u8]
}

/// The section terminator: a line beginning a new bracketed group.
pub open spec fn marker_section_end() -> Seq<u8> {
    seq![10u8, 91u8]
}

fn bytes_marker_desktop() -> (r: Vec<u8>)
    ensures
        r@ == marker_desktop(),
{
    let mut v: Vec<u8> = Vec::new();
    v.push(91);
    v.push(68);
    v.push(101);
    v.push(115);
    v.push(107);
    v.push(116);
    v.push(111);
    v.push(112);
    v.push(32);
    v.push(69);
    v.push(110);
    v.push(116);
    v.push(114);
    v.push(121);
    v.push(93);
    proof {
        assert(v@ =~= marker_desktop());
    }
    v
}

fn bytes_marker_appimage() -> (r: Vec<u8>)
    ensures
        r@ == marker_appimage(),
{
    let mut v: Vec<u8> = Vec::new();
    v.push(88);
    v.push(45);
    v.push(65);
    v.push(112);
    v.push(112);
    v.push(73);
    v.push(109);
    v.push(97);
    v.push(103);
    v.push(101);
    proof {
        assert(v@ =~= marker_appimage());
    }
    v
}

fn bytes_marker_section_end() -> (r: Vec<u8>)
    ensures
        r@ == marker_section_end(),
{
    let mut v: Vec<u8> = Vec::new();
    v.push(10);
    v.push(91);
    proof {
        assert(v@ =~= marker_section_end());
    }
    v
}

/// Where an embedded desktop-entry section may begin: the first desktop
/// marker, or failing that the first artifact marker.
pub fn find_desktop_entry_start(content: &[u8]) -> (r: Option<usize>)
    ensures
        match first_match_from(content@, marker_desktop(), 0) {
            Some(p) => r == Some(p as usize),
            None => (match first_match_from(content@, marker_appimage(), 0) {
                Some(p) => r == Some(p as usize),
                None => r is None,
            }),
        },
{
    let m1 = bytes_marker_desktop();
    match find_bytes(content, m1.as_slice()) {
        Some(p) => Some(p),
        None => {
            let m2 = bytes_marker_appimage();
            find_bytes(content, m2.as_slice())
        },
    }
}

/// What `utf8_lossy` returns: the text decoded from the bytes, replacement
/// characters standing in for invalid sequences.  Named, not defined: the
/// decoding lives in an outside implementation and depends on the bytes
/// alone.
pub uninterp spec fn lossy_of(bytes: Seq<u8>) -> Seq<char>;

/// Relies on String::from_utf8_lossy: decoding depends on the bytes alone,
/// and bytes below 128 decode to themselves.
#[verifier::external_body]
fn utf8_lossy(bytes: &[u8]) -> (r: String)
    ensures
        r@ == lossy_of(bytes@),
        (forall|i: int| 0 <= i < bytes@.len() ==> bytes@[i] < 128) ==> (r@.len() == bytes@.len()
            && forall|i: int| 0 <= i < bytes@.len() ==> r@[i] == bytes@[i] as char),
{
    String::from_utf8_lossy(bytes).into_owned()
}

/// The text of the desktop-entry section: from its marker up to the next
/// bracketed group, decoded leniently.
pub fn extract_desktop_content(content: &[u8]) -> (r: Option<String>)
    ensures
        match first_match_from(content@, marker_desktop(), 0) {
            Some(s) => {
                let tail = content@.skip(s);
                let seg = match first_match_from(tail, marker_section_end(), 0) {
                    Some(e) => tail.take(e),
                    None => tail,
                };
                r matches Some(t) && t@ == lossy_of(seg)
            },
            None => r is None,
        },
{
    let m1 = bytes_marker_desktop();
    let start = match find_bytes(content, m1.as_slice()) {
        Some(s) => s,
        None => {
            return None;
        },
    };
    proof {
        lemma_first_match_in_range(content@, marker_desktop(), 0);
    }
    let tail = slice_from(content, start);
    let me = bytes_marker_section_end();
    let seg = match find_bytes(tail, me.as_slice()) {
        Some(e) => {
            proof {
                lemma_first_match_in_range(tail@, marker_section_end(), 0);
            }
            let s = slice_range(tail, 0, e);
            proof {
                assert(s@ =~= tail@.take(e as int));
            }
            s
        },
        None => {
            let s = slice_range(tail, 0, tail.len());
            proof {
                assert(s@ =~= tail@);
            }
            s
        },
    };
    Some(utf8_lossy(seg))
}

proof fn lemma_first_match_in_range(c: Seq<u8>, pat: Seq<u8>, i: int)
    requires
        0 <= i,
    ensures
        match first_match_from(c, pat, i) {
            Some(p) => i <= p && p + pat.len() <= c.len(),
            None => true,
        },
    decreases c.len() - i,
{
    if i + pat.len() > c.len() {
    } else if match_at(c, pat, i) {
    } else {
        lemma_first_match_in_range(c, pat, i + 1);
    }
}

/// The bytes of `s` from `from` onward.
fn slice_from(s: &[u8], from: usize) -> (r: &[u8])
    requires
        from <= s@.len(),
    ensures
        r@ == s@.skip(from as int),
{
    let r = slice_range(s, from, s.len());
    proof {
        assert(s@.subrange(from as int, s@.len() as int) =~= s@.skip(from as int));
    }
    r
}

/// The bytes of `s` between `from` and `to`.
fn slice_range(s: &[u8], from: usize, to: usize) -> (r: &[u8])
    requires
        from <= to <= s@.len(),
    ensures
        r@ == s@.subrange(from as int, to as int),
{
    let r = vstd::slice::slice_subrange(s, from, to);
    r
}

// --- Reading the section's key-value lines ---------------------------------

/// The fields a desktop-entry section can contribute.
pub struct DesktopEntry {
    pub name: Option<String>,
    pub version: Option<String>,
    pub comment: Option<String>,
    pub exec_cmd: Option<String>,
    pub icon: Option<String>,
    pub categories: Option<Vec<String>>,
}

/// The mathematical value of a read section.
#[verifier::ext_equal]
pub ghost struct DesktopEntryV {
    pub name: Option<Seq<char>>,
    pub version: Option<Seq<char>>,
    pub comment: Option<Seq<char>>,
    pub exec_cmd: Option<Seq<char>>,
    pub icon: Option<Seq<char>>,
    pub categories: Option<Seq<Seq<char>>>,
}

impl View for DesktopEntry {
    type V = DesktopEntryV;

    open spec fn view(&self) -> DesktopEntryV {
        DesktopEntryV {
            name: match self.name {
                Some(ref s) => Some(s@),
                None => None,
            },
            version: match self.version {
                Some(ref s) => Some(s@),
                None => None,
            },
            comment: match self.comment {
                Some(ref s) => Some(s@),
                None => None,
            },
            exec_cmd: match self.exec_cmd {
                Some(ref s) => Some(s@),
                None => None,
            },
            icon: match self.icon {
                Some(ref s) => Some(s@),
                None => None,
            },
            categories: match self.categories {
                Some(ref v) => Some(v.deep_view()),
                None => None,
            },
        }
    }
}

/// An empty section.
pub open spec fn empty_desktop_entry() -> DesktopEntryV {
    DesktopEntryV {
        name: None,
        version: None,
        comment: None,
        exec_cmd: None,
        icon: None,
        categories: None,
    }
}

/// True when `c` is horizontal or vertical whitespace.
pub open spec fn is_ws(c: char) -> bool {
    c == ' ' || c == '\t' || c == '\r' || c == '\n'
}

/// Leading whitespace length.
pub open spec fn ws_prefix(s: Seq<char>) -> nat
    decreases s.len(),
{
    if s.len() == 0 {
        0
    } else if is_ws(s[0]) {
        (1 + ws_prefix(s.skip(1))) as nat
    } else {
        0
    }
}

/// The text with surrounding whitespace dropped.
pub open spec fn spec_trim(s: Seq<char>) -> Seq<char>
    decreases s.len(),
{
    if s.len() == 0 {
        s
    } else if is_ws(s[0]) {
        spec_trim(s.skip(1))
    } else if is_ws(s.last()) {
        spec_trim(s.drop_last())
    } else {
        s
    }
}

/// Drops surrounding whitespace.
pub fn trim(s: &str) -> (r: String)
    ensures
        r@ == spec_trim(s@),
{
    let len = s.unicode_len();
    let mut a: usize = 0;
    proof {
        assert(s@.skip(0) =~= s@);
    }
    while a < len && is_ws_exec(s.get_char(a))
        invariant
            a <= len,
            len == s@.len(),
            forall|j: int| 0 <= j < a ==> is_ws(s@[j]),
            spec_trim(s@) == spec_trim(s@.skip(a as int)),
        decreases len - a,
    {
        proof {
            assert(s@.skip(a as int)[0] == s@[a as int]);
            assert(s@.skip(a as int).skip(1) =~= s@.skip(a as int + 1));
        }
        a = a + 1;
    }
    let mut b: usize = len;
    while b > a && is_ws_exec(s.get_char(b - 1))
        invariant
            a <= b <= len,
            len == s@.len(),
            a < len ==> !is_ws(s@[a as int]),
            a == len ==> b == a,
            spec_trim(s@) == spec_trim(s@.subrange(a as int, b as int)),
        decreases b,
    {
        proof {
            let t = s@.subrange(a as int, b as int);
            assert(t.len() > 0);
            assert(t.last() == s@[b - 1]);
            assert(t[0] == s@[a as int]);
            assert(t.drop_last() =~= s@.subrange(a as int, b as int - 1));
        }
        b = b - 1;
    }
    let r = s.substring_char(a, b).to_owned();
    proof {
        let t = s@.subrange(a as int, b as int);
        if t.len() > 0 {
            assert(t[0] == s@[a as int]);
            assert(t.last() == s@[b - 1]);
            assert(spec_trim(t) == t);
        } else {
            assert(spec_trim(t) == t);
        }
        assert(r@ =~= spec_trim(s@));
    }
    r
}

fn is_ws_exec(c: char) -> (r: bool)
    ensures
        r == is_ws(c),
{
    c == ' ' || c == '\t' || c == '\r' || c == '\n'
}

/// The category names of a `Categories` value: split at semicolons,
/// trimmed, empties dropped.
pub open spec fn spec_categories(value: Seq<char>) -> Seq<Seq<char>> {
    spec_split_sep(value, ';').map_values(|p: Seq<char>| spec_trim(p)).filter(
        |p: Seq<char>| p.len() > 0,
    )
}

fn categories_of(value: &str) -> (r: Vec<String>)
    ensures
        r.deep_view() == spec_categories(value@),
{
    let parts = split_sep(value, ';');
    let ghost mapped = spec_split_sep(value@, ';').map_values(|p: Seq<char>| spec_trim(p));
    let mut out: Vec<String> = Vec::new();
    let mut i: usize = 0;
    proof {
        reveal(Seq::filter);
        assert(mapped.take(0) =~= Seq::<Seq<char>>::empty());
        assert(out.deep_view() =~= mapped.take(0).filter(|p: Seq<char>| p.len() > 0));
    }
    while i < parts.len()
        invariant
            i <= parts.len(),
            parts.deep_view() == spec_split_sep(value@, ';'),
            mapped == spec_split_sep(value@, ';').map_values(|p: Seq<char>| spec_trim(p)),
            mapped.len() == parts.len(),
            out.deep_view() == mapped.take(i as int).filter(|p: Seq<char>| p.len() > 0),
        decreases parts.len() - i,
    {
        let t = trim(parts[i].as_str());
        let ghost prev = out.deep_view();
        if t.as_str().unicode_len() > 0 {
            out.push(t);
        }
        proof {
            reveal(Seq::filter);
            let f = |p: Seq<char>| p.len() > 0;
            let tt = mapped.take(i as int + 1);
            assert(tt.drop_last() =~= mapped.take(i as int));
            assert(tt.last() == mapped[i as int]);
            assert(mapped[i as int] == spec_trim(parts.deep_view()[i as int]));
            if f(mapped[i as int]) {
                assert(out.deep_view() =~= prev.push(mapped[i as int]));
            }
            assert(out.deep_view() =~= tt.filter(f));
        }
        i = i + 1;
    }
    proof {
        assert(mapped.take(mapped.len() as int) =~= mapped);
    }
    out
}

/// One line folded into the accumulated fields: comments, group headers
/// and lines without `=` are skipped; known keys replace their field.
pub open spec fn fold_line(acc: DesktopEntryV, line: Seq<char>) -> DesktopEntryV {
    let t = spec_trim(line);
    if t.len() == 0 || t[0] == '#' || t[0] == '[' {
        acc
    } else {
        let eq = first_occ(t, '=') as int;
        if eq >= t.len() {
            acc
        } else {
            let key = spec_trim(t.take(eq));
            let value = spec_trim(t.skip(eq + 1));
            if key == "Name"@ {
                DesktopEntryV { name: Some(value), ..acc }
            } else if key == "Version"@ {
                DesktopEntryV { version: Some(value), ..acc }
            } else if key == "Comment"@ {
                DesktopEntryV { comment: Some(value), ..acc }
            } else if key == "Exec"@ {
                DesktopEntryV { exec_cmd: Some(value), ..acc }
            } else if key == "Icon"@ {
                DesktopEntryV { icon: Some(value), ..acc }
            } else if key == "Categories"@ {
                DesktopEntryV { categories: Some(spec_categories(value)), ..acc }
            } else {
                acc
            }
        }
    }
}

/// The lines folded left to right.
pub open spec fn fold_lines(ls: Seq<Seq<char>>, i: int, acc: DesktopEntryV) -> DesktopEntryV
    decreases ls.len() - i,
{
    if i < 0 || i >= ls.len() {
        acc
    } else {
        fold_lines(ls, i + 1, fold_line(acc, ls[i]))
    }
}

/// Reads the key-value lines of a desktop-entry section: last value per
/// key wins, unknown keys are ignored.
pub fn parse_desktop_entry(content: &str) -> (r: DesktopEntry)
    ensures
        r@ == fold_lines(spec_split_lines(content@), 0, empty_desktop_entry()),
{
    let lines = split_lines(content);
    let ghost ls = spec_split_lines(content@);
    let mut entry = DesktopEntry {
        name: None,
        version: None,
        comment: None,
        exec_cmd: None,
        icon: None,
        categories: None,
    };
    proof {
        assert(entry@ =~= empty_desktop_entry());
    }
    let mut i: usize = 0;
    while i < lines.len()
        invariant
            i <= lines.len(),
            ls == lines.deep_view(),
            ls == spec_split_lines(content@),
            ls.len() == lines.len(),
            fold_lines(ls, 0, empty_desktop_entry()) == fold_lines(ls, i as int, entry@),
        decreases lines.len() - i,
    {
        let ghost accv = entry@;
        let t = trim(lines[i].as_str());
        let tlen = t.as_str().unicode_len();
        proof {
            assert(ls[i as int] == lines@[i as int]@);
            assert(t@ == spec_trim(ls[i as int]));
        }
        if tlen == 0 || t.as_str().get_char(0) == '#' || t.as_str().get_char(0) == '[' {
            proof {
                assert(fold_line(accv, ls[i as int]) =~= accv);
            }
        } else {
            let eq = crate::text::find_char(t.as_str(), '=');
            proof {
                lemma_first_occ_bounds(t@, '=');
            }
            if eq >= tlen {
                proof {
                    assert(fold_line(accv, ls[i as int]) =~= accv);
                }
            } else {
                let rawkey = t.as_str().substring_char(0, eq);
                proof {
                    assert(rawkey@ =~= t@.take(eq as int));
                }
                let key = trim(rawkey);
                let rawvalue = t.as_str().substring_char(eq + 1, tlen);
                proof {
                    assert(rawvalue@ =~= t@.skip(eq as int + 1));
                }
                let value = trim(rawvalue);
                let k_name = lit_name();
                let k_version = lit_version();
                let k_comment = lit_comment();
                let k_exec = lit_exec();
                let k_icon = lit_icon();
                let k_categories = lit_categories();
                if str_eq(key.as_str(), k_name) {
                    entry.name = Some(value);
                } else if str_eq(key.as_str(), k_version) {
                    entry.version = Some(value);
                } else if str_eq(key.as_str(), k_comment) {
                    entry.comment = Some(value);
                } else if str_eq(key.as_str(), k_exec) {
                    entry.exec_cmd = Some(value);
                } else if str_eq(key.as_str(), k_icon) {
                    entry.icon = Some(value);
                } else if str_eq(key.as_str(), k_categories) {
                    entry.categories = Some(categories_of(value.as_str()));
                }
                proof {
                    assert(entry@ =~= fold_line(accv, ls[i as int]));
                }
            }
        }
        i = i + 1;
    }
    entry
}

fn lit_name() -> (r: &'static str)
    ensures
        r@ == "Name"@,
{
    "Name"
}

fn lit_version() -> (r: &'static str)
    ensures
        r@ == "Version"@,
{
    "Version"
}

fn lit_comment() -> (r: &'static str)
    ensures
        r@ == "Comment"@,
{
    "Comment"
}

fn lit_exec() -> (r: &'static str)
    ensures
        r@ == "Exec"@,
{
    "Exec"
}

fn lit_icon() -> (r: &'static str)
    ensures
        r@ == "Icon"@,
{
    "Icon"
}

fn lit_categories() -> (r: &'static str)
    ensures
        r@ == "Categories"@,
{
    "Categories"
}

// --- Metadata assembly ------------------------------------------------------

/// Display metadata for an artifact, as the install transaction uses it.
pub struct AppImageMetadata {
    pub name: String,
    pub version: Option<String>,
    pub description: Option<String>,
    pub exec_cmd: Option<String>,
    pub icon: Option<String>,
    pub categories: Vec<String>,
    pub size: u64,
}

/// Combines a read desktop-entry section with the filename fallback: the
/// section's name when it has one, the file's own name otherwise; absent
/// categories become none at all.
pub fn build_metadata(desktop: DesktopEntry, fallback_name: String, size: u64) -> (r:
    AppImageMetadata)
    ensures
        r.name@ == (match desktop@.name {
            Some(n) => n,
            None => fallback_name@,
        }),
        (match (r.version, desktop@.version) {
            (Some(ref a), Some(b)) => a@ == b,
            (None, None) => true,
            _ => false,
        }),
        (match (r.description, desktop@.comment) {
            (Some(ref a), Some(b)) => a@ == b,
            (None, None) => true,
            _ => false,
        }),
        (match (r.icon, desktop@.icon) {
            (Some(ref a), Some(b)) => a@ == b,
            (None, None) => true,
            _ => false,
        }),
        r.categories.deep_view() == (match desktop@.categories {
            Some(c) => c,
            None => Seq::<Seq<char>>::empty(),
        }),
        r.size == size,
{
    let name = match desktop.name {
        Some(n) => n,
        None => fallback_name,
    };
    let categories = match desktop.categories {
        Some(c) => c,
        None => Vec::new(),
    };
    proof {
        assert(categories.deep_view() =~= (match desktop@.categories {
            Some(c) => c,
            None => Seq::<Seq<char>>::empty(),
        }));
    }
    AppImageMetadata {
        name,
        version: desktop.version,
        description: desktop.comment,
        exec_cmd: desktop.exec_cmd,
        icon: desktop.icon,
        categories,
        size,
    }
}

// --- Version extraction from filenames --------------------------------------

/// The end of the maximal digit run starting at `i`.
pub open spec fn run_end(s: Seq<char>, i: int) -> int
    decreases s.len() - i,
{
    if 0 <= i < s.len() && is_digit(s[i]) {
        run_end(s, i + 1)
    } else {
        i
    }
}

/// The end of a dotted triple of digit runs starting at `i`, when the
/// shape `digits '.' digits '.' digits` stands there.
pub open spec fn triple_end(s: Seq<char>, i: int) -> Option<int> {
    if 0 <= i < s.len() && is_digit(s[i]) {
        let a = run_end(s, i);
        if a < s.len() && s[a] == '.' && a + 1 < s.len() && is_digit(s[a + 1]) {
            let b = run_end(s, a + 1);
            if b < s.len() && s[b] == '.' && b + 1 < s.len() && is_digit(s[b + 1]) {
                Some(run_end(s, b + 1))
            } else {
                None
            }
        } else {
            None
        }
    } else {
        None
    }
}

/// The end of a dotted pair of digit runs starting at `i`.
pub open spec fn double_end(s: Seq<char>, i: int) -> Option<int> {
    if 0 <= i < s.len() && is_digit(s[i]) {
        let a = run_end(s, i);
        if a < s.len() && s[a] == '.' && a + 1 < s.len() && is_digit(s[a + 1]) {
            Some(run_end(s, a + 1))
        } else {
            None
        }
    } else {
        None
    }
}

/// The first position at or after `i` where a dotted triple begins, with
/// its end.
pub open spec fn first_triple(s: Seq<char>, i: int) -> Option<(int, int)>
    decreases s.len() - i,
{
    if i >= s.len() {
        None
    } else {
        match triple_end(s, i) {
            Some(e) => Some((i, e)),
            None => first_triple(s, i + 1),
        }
    }
}

/// The first position at or after `i` where a dotted pair begins, with
/// its end.
pub open spec fn first_double(s: Seq<char>, i: int) -> Option<(int, int)>
    decreases s.len() - i,
{
    if i >= s.len() {
        None
    } else {
        match double_end(s, i) {
            Some(e) => Some((i, e)),
            None => first_double(s, i + 1),
        }
    }
}

proof fn lemma_run_end_range(s: Seq<char>, i: int)
    requires
        0 <= i <= s.len(),
    ensures
        i <= run_end(s, i) <= s.len(),
    decreases s.len() - i,
{
    if i < s.len() && is_digit(s[i]) {
        lemma_run_end_range(s, i + 1);
    }
}

/// The end of the maximal digit run starting at `i`.
fn run_end_exec(s: &str, i: usize) -> (r: usize)
    requires
        i <= s@.len(),
    ensures
        r == run_end(s@, i as int),
        i <= r <= s@.len(),
{
    let len = s.unicode_len();
    let mut j: usize = i;
    while j < len && is_digit_exec(s.get_char(j))
        invariant
            i <= j <= len,
            len == s@.len(),
            run_end(s@, i as int) == run_end(s@, j as int),
        decreases len - j,
    {
        j = j + 1;
    }
    j
}

fn is_digit_exec(c: char) -> (r: bool)
    ensures
        r == is_digit(c),
{
    let u = c as u32;
    u >= 48 && u <= 57
}

/// The end of a dotted triple at `i`, when one stands there.
fn triple_end_exec(s: &str, i: usize) -> (r: Option<usize>)
    requires
        i <= s@.len(),
    ensures
        match r {
            Some(e) => triple_end(s@, i as int) == Some(e as int) && i < e <= s@.len(),
            None => triple_end(s@, i as int) is None,
        },
{
    let len = s.unicode_len();
    if i >= len {
        return None;
    }
    let u0 = s.get_char(i) as u32;
    if u0 < 48 || u0 > 57 {
        return None;
    }
    let a = run_end_exec(s, i);
    if a >= len || s.get_char(a) != '.' || a + 1 >= len {
        return None;
    }
    let u1 = s.get_char(a + 1) as u32;
    if u1 < 48 || u1 > 57 {
        return None;
    }
    let b = run_end_exec(s, a + 1);
    if b >= len || s.get_char(b) != '.' || b + 1 >= len {
        return None;
    }
    let u2 = s.get_char(b + 1) as u32;
    if u2 < 48 || u2 > 57 {
        return None;
    }
    let e = run_end_exec(s, b + 1);
    Some(e)
}

/// The end of a dotted pair at `i`, when one stands there.
fn double_end_exec(s: &str, i: usize) -> (r: Option<usize>)
    requires
        i <= s@.len(),
    ensures
        match r {
            Some(e) => double_end(s@, i as int) == Some(e as int) && i < e <= s@.len(),
            None => double_end(s@, i as int) is None,
        },
{
    let len = s.unicode_len();
    if i >= len {
        return None;
    }
    let u0 = s.get_char(i) as u32;
    if u0 < 48 || u0 > 57 {
        return None;
    }
    let a = run_end_exec(s, i);
    if a >= len || s.get_char(a) != '.' || a + 1 >= len {
        return None;
    }
    let u1 = s.get_char(a + 1) as u32;
    if u1 < 48 || u1 > 57 {
        return None;
    }
    let e = run_end_exec(s, a + 1);
    Some(e)
}

/// The version a filename suggests: the first `digits.digits.digits` run,
/// else the first `digits.digits` run, else the word for an unknown
/// version.  Digit runs are maximal, so `app-1.22.3-x86.AppImage` yields
/// `1.22.3`.
pub fn extract_version_from_filename(filename: &str) -> (r: String)
    ensures
        match first_triple(filename@, 0) {
            Some((b, e)) => r@ == filename@.subrange(b, e),
            None => (match first_double(filename@, 0) {
                Some((b, e)) => r@ == filename@.subrange(b, e),
                None => r@ == "unknown"@,
            }),
        },
{
    let len = filename.unicode_len();
    let mut i: usize = 0;
    while i < len
        invariant
            i <= len,
            len == filename@.len(),
            first_triple(filename@, 0) == first_triple(filename@, i as int),
        decreases len - i,
    {
        match triple_end_exec(filename, i) {
            Some(e) => {
                let r = filename.substring_char(i, e).to_owned();
                proof {
                    assert(r@ =~= filename@.subrange(i as int, e as int));
                }
                return r;
            },
            None => {},
        }
        i = i + 1;
    }
    let mut j: usize = 0;
    while j < len
        invariant
            j <= len,
            len == filename@.len(),
            first_triple(filename@, 0) is None,
            first_double(filename@, 0) == first_double(filename@, j as int),
        decreases len - j,
    {
        match double_end_exec(filename, j) {
            Some(e) => {
                let r = filename.substring_char(j, e).to_owned();
                proof {
                    assert(r@ =~= filename@.subrange(j as int, e as int));
                }
                return r;
            },
            None => {},
        }
        j = j + 1;
    }
    let unknown = "unknown";
    let mut r = String::new();
    r.append(unknown);
    proof {
        assert(r@ =~= "unknown"@);
    }
    r
}

} // verus!

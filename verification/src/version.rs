//! Semantic versions: parsing, validity, and precedence ordering.
//!
//! A version is `MAJOR.MINOR.PATCH`, optionally followed by `-` and a
//! dot-separated prerelease, optionally followed by `+` and build metadata.
//! Precedence compares the numeric triple, then the prerelease: a release
//! outranks any prerelease of the same triple, numeric identifiers compare
//! numerically and rank below alphanumeric ones, and a longer identifier
//! list outranks its own prefix.  Build metadata never affects precedence.

use vstd::prelude::*;
use vstd::string::StrSliceExecFns;
use crate::text::{
    all_digits, digits_val, find_char, first_occ, is_digit, lemma_first_occ_bounds,
    lemma_lex_lt_irrefl, lemma_lex_lt_trans, lex_lt, parse_u64_str, spec_parse_u64,
    spec_split_sep, split_sep, str_all_digits, str_eq, str_lex_lt,
};

verus! {

/// A parsed semantic version.  `pre` holds the prerelease identifiers,
/// empty for a release.
pub struct Version {
    pub major: u64,
    pub minor: u64,
    pub patch: u64,
    pub pre: Vec<String>,
}

/// The mathematical value of a version.
#[verifier::ext_equal]
pub ghost struct VersionV {
    pub major: int,
    pub minor: int,
    pub patch: int,
    pub pre: Seq<Seq<char>>,
}

impl View for Version {
    type V = VersionV;

    open spec fn view(&self) -> VersionV {
        VersionV {
            major: self.major as int,
            minor: self.minor as int,
            patch: self.patch as int,
            pre: self.pre.deep_view(),
        }
    }
}

/// True when `c` may appear in a prerelease or build identifier.
pub open spec fn ident_char(c: char) -> bool {
    is_digit(c) || ('a' <= c && c <= 'z') || ('A' <= c && c <= 'Z') || c == '-'
}

/// A valid identifier: non-empty, identifier characters only; under `strict`
/// a fully numeric identifier must carry no leading zero.
pub open spec fn valid_ident(s: Seq<char>, strict: bool) -> bool {
    s.len() > 0 && (forall|i: int| 0 <= i < s.len() ==> ident_char(s[i])) && (strict && all_digits(
        s,
    ) && s.len() > 1 ==> s[0] != '0')
}

pub open spec fn valid_ident_list(ids: Seq<Seq<char>>, strict: bool) -> bool {
    forall|i: int| 0 <= i < ids.len() ==> valid_ident(#[trigger] ids[i], strict)
}

/// A valid numeric component: a digit string without leading zero whose
/// value fits in a `u64`.
pub open spec fn valid_num(s: Seq<char>) -> bool {
    spec_parse_u64(s) is Some && (s.len() > 1 ==> s[0] != '0')
}

/// What `parse_version` returns on `s`: the version denoted by `s`, when
/// `s` is a well-formed semantic version.  Build metadata is validated and
/// then discarded.
pub open spec fn spec_parse_version(s: Seq<char>) -> Option<VersionV> {
    let p = first_occ(s, '+') as int;
    let core = s.take(p);
    let build_ok = if p < s.len() {
        valid_ident_list(spec_split_sep(s.skip(p + 1), '.'), false)
    } else {
        true
    };
    let d = first_occ(core, '-') as int;
    let trip = core.take(d);
    let pre = if d < core.len() {
        spec_split_sep(core.skip(d + 1), '.')
    } else {
        Seq::empty()
    };
    let segs = spec_split_sep(trip, '.');
    if segs.len() == 3 && valid_num(segs[0]) && valid_num(segs[1]) && valid_num(segs[2])
        && valid_ident_list(pre, true) && build_ok {
        Some(
            VersionV {
                major: digits_val(segs[0]),
                minor: digits_val(segs[1]),
                patch: digits_val(segs[2]),
                pre: pre,
            },
        )
    } else {
        None
    }
}

/// Strict precedence order on prerelease identifiers.
pub open spec fn ident_lt(a: Seq<char>, b: Seq<char>) -> bool {
    if all_digits(a) && all_digits(b) {
        a.len() < b.len() || (a.len() == b.len() && lex_lt(a, b))
    } else if all_digits(a) {
        true
    } else if all_digits(b) {
        false
    } else {
        lex_lt(a, b)
    }
}

/// Strict precedence order on prerelease identifier lists.
pub open spec fn pre_lt(a: Seq<Seq<char>>, b: Seq<Seq<char>>) -> bool
    decreases a.len(),
{
    if a.len() == 0 {
        b.len() > 0
    } else if b.len() == 0 {
        false
    } else if a[0] == b[0] {
        pre_lt(a.skip(1), b.skip(1))
    } else {
        ident_lt(a[0], b[0])
    }
}

/// Strict precedence order on versions.
pub open spec fn version_lt(a: VersionV, b: VersionV) -> bool {
    a.major < b.major || (a.major == b.major && (a.minor < b.minor || (a.minor == b.minor && (
    a.patch < b.patch || (a.patch == b.patch && ((a.pre.len() > 0 && b.pre.len() == 0) || (
    a.pre.len() > 0 && b.pre.len() > 0 && pre_lt(a.pre, b.pre))))))))
}

pub proof fn lemma_ident_lt_irrefl(a: Seq<char>)
    ensures
        !ident_lt(a, a),
{
    lemma_lex_lt_irrefl(a);
}

pub proof fn lemma_ident_lt_trans(a: Seq<char>, b: Seq<char>, c: Seq<char>)
    requires
        ident_lt(a, b),
        ident_lt(b, c),
    ensures
        ident_lt(a, c),
{
    if all_digits(a) && all_digits(b) && all_digits(c) {
        if a.len() == b.len() && b.len() == c.len() {
            lemma_lex_lt_trans(a, b, c);
        }
    } else if !all_digits(a) && !all_digits(b) && !all_digits(c) {
        lemma_lex_lt_trans(a, b, c);
    }
}

pub proof fn lemma_pre_lt_trans(a: Seq<Seq<char>>, b: Seq<Seq<char>>, c: Seq<Seq<char>>)
    requires
        pre_lt(a, b),
        pre_lt(b, c),
    ensures
        pre_lt(a, c),
    decreases a.len(),
{
    if a.len() == 0 {
        assert(b.len() > 0);
        assert(c.len() > 0);
    } else {
        assert(b.len() > 0 && c.len() > 0);
        if a[0] == b[0] {
            if b[0] == c[0] {
                lemma_pre_lt_trans(a.skip(1), b.skip(1), c.skip(1));
            } else {
                assert(ident_lt(b[0], c[0]));
                assert(a[0] != c[0]) by {
                    if a[0] == c[0] {
                        lemma_ident_lt_irrefl(c[0]);
                    }
                }
            }
        } else {
            assert(ident_lt(a[0], b[0]));
            if b[0] == c[0] {
                assert(a[0] != c[0]) by {
                    if a[0] == c[0] {
                        lemma_ident_lt_irrefl(a[0]);
                    }
                }
            } else {
                lemma_ident_lt_trans(a[0], b[0], c[0]);
                assert(a[0] != c[0]) by {
                    if a[0] == c[0] {
                        lemma_ident_lt_irrefl(a[0]);
                    }
                }
            }
        }
    }
}

/// Version precedence is transitive.
pub proof fn lemma_version_lt_trans(a: VersionV, b: VersionV, c: VersionV)
    requires
        version_lt(a, b),
        version_lt(b, c),
    ensures
        version_lt(a, c),
{
    if a.major == b.major && b.major == c.major && a.minor == b.minor && b.minor == c.minor
        && a.patch == b.patch && b.patch == c.patch {
        if a.pre.len() > 0 && b.pre.len() > 0 && c.pre.len() > 0 {
            lemma_pre_lt_trans(a.pre, b.pre, c.pre);
        }
    }
}

/// Version precedence is irreflexive.
pub proof fn lemma_version_lt_irrefl(a: VersionV)
    ensures
        !version_lt(a, a),
    decreases a.pre.len(),
{
    if a.pre.len() > 0 && pre_lt(a.pre, a.pre) {
        lemma_pre_lt_not_refl(a.pre);
    }
}

pub proof fn lemma_pre_lt_not_refl(a: Seq<Seq<char>>)
    ensures
        !pre_lt(a, a),
    decreases a.len(),
{
    if a.len() > 0 {
        lemma_pre_lt_not_refl(a.skip(1));
    }
}

/// True when `s` is a valid identifier.
fn check_ident(s: &str, strict: bool) -> (r: bool)
    ensures
        r == valid_ident(s@, strict),
{
    let len = s.unicode_len();
    if len == 0 {
        return false;
    }
    let mut i: usize = 0;
    while i < len
        invariant
            i <= len,
            len == s@.len(),
            forall|j: int| 0 <= j < i ==> ident_char(s@[j]),
        decreases len - i,
    {
        let c = s.get_char(i);
        let ok = (c >= '0' && c <= '9') || (c >= 'a' && c <= 'z') || (c >= 'A' && c <= 'Z') || c
            == '-';
        if !ok {
            proof {
                assert(!ident_char(s@[i as int]));
            }
            return false;
        }
        i = i + 1;
    }
    if strict && len > 1 && s.get_char(0) == '0' && str_all_digits(s) {
        return false;
    }
    true
}

fn check_ident_list(ids: &Vec<String>, strict: bool) -> (r: bool)
    ensures
        r == valid_ident_list(ids.deep_view(), strict),
{
    let mut i: usize = 0;
    while i < ids.len()
        invariant
            i <= ids.len(),
            forall|j: int| 0 <= j < i ==> valid_ident(#[trigger] ids.deep_view()[j], strict),
        decreases ids.len() - i,
    {
        if !check_ident(ids[i].as_str(), strict) {
            proof {
                assert(!valid_ident(ids.deep_view()[i as int], strict));
            }
            return false;
        }
        i = i + 1;
    }
    true
}

/// Reads a numeric component: digits only, no leading zero, fits in `u64`.
fn parse_num(s: &str) -> (r: Option<u64>)
    ensures
        valid_num(s@) ==> r == Some((digits_val(s@) as u64)),
        !valid_num(s@) ==> r is None,
{
    let len = s.unicode_len();
    if len > 1 && s.get_char(0) == '0' {
        return None;
    }
    parse_u64_str(s)
}

/// Parses a semantic version; yields its value exactly when `s` is
/// well-formed per `spec_parse_version`.
pub fn parse_version(s: &str) -> (r: Option<Version>)
    ensures
        match r {
            Some(v) => spec_parse_version(s@) == Some(v@),
            None => spec_parse_version(s@) is None,
        },
{
    let ghost sp = first_occ(s@, '+') as int;
    let ghost score = s@.take(sp);
    let ghost sd = first_occ(score, '-') as int;
    let ghost strip = score.take(sd);
    let ghost spre = if sd < score.len() {
        spec_split_sep(score.skip(sd + 1), '.')
    } else {
        Seq::<Seq<char>>::empty()
    };
    let ghost ssegs = spec_split_sep(strip, '.');
    let len = s.unicode_len();
    let p = find_char(s, '+');
    proof {
        lemma_first_occ_bounds(s@, '+');
    }
    let core = s.substring_char(0, p);
    proof {
        assert(core@ =~= score);
    }
    if p < len {
        let build = s.substring_char(p + 1, len);
        proof {
            assert(build@ =~= s@.skip(p as int + 1));
        }
        let bsegs = split_sep(build, '.');
        if !check_ident_list(&bsegs, false) {
            return None;
        }
    }
    let cl = core.unicode_len();
    let d = find_char(core, '-');
    proof {
        lemma_first_occ_bounds(core@, '-');
        assert(d == sd);
    }
    let trip = core.substring_char(0, d);
    proof {
        assert(trip@ =~= strip);
    }
    let mut pre: Vec<String> = Vec::new();
    proof {
        assert(pre.deep_view() =~= Seq::<Seq<char>>::empty());
    }
    if d < cl {
        let prestr = core.substring_char(d + 1, cl);
        proof {
            assert(prestr@ =~= score.skip(sd + 1));
        }
        pre = split_sep(prestr, '.');
        if !check_ident_list(&pre, true) {
            assert(!valid_ident_list(spre, true));
            return None;
        }
    }
    let ghost prev = pre.deep_view();
    assert(prev == spre);
    assert(valid_ident_list(spre, true));
    let segs = split_sep(trip, '.');
    proof {
        assert(segs.deep_view() == ssegs);
    }
    if segs.len() != 3 {
        return None;
    }
    let major = match parse_num(segs[0].as_str()) {
        Some(v) => v,
        None => {
            assert(!valid_num(ssegs[0]));
            return None;
        },
    };
    let minor = match parse_num(segs[1].as_str()) {
        Some(v) => v,
        None => {
            assert(!valid_num(ssegs[1]));
            return None;
        },
    };
    let patch = match parse_num(segs[2].as_str()) {
        Some(v) => v,
        None => {
            assert(!valid_num(ssegs[2]));
            return None;
        },
    };
    proof {
        assert(valid_num(ssegs[0]) && valid_num(ssegs[1]) && valid_num(ssegs[2]));
        crate::text::lemma_digits_val_nonneg(ssegs[0]);
        crate::text::lemma_digits_val_nonneg(ssegs[1]);
        crate::text::lemma_digits_val_nonneg(ssegs[2]);
    }
    let v = Version { major, minor, patch, pre };
    proof {
        let specv = spec_parse_version(s@);
        assert(specv is Some);
        assert(v@ =~= specv.unwrap());
    }
    Some(v)
}

/// Strict precedence comparison of two prerelease identifier lists.
fn pre_lt_exec(a: &Vec<String>, b: &Vec<String>) -> (r: bool)
    ensures
        r == pre_lt(a.deep_view(), b.deep_view()),
{
    let ghost av = a.deep_view();
    let ghost bv = b.deep_view();
    let mut i: usize = 0;
    proof {
        assert(av.skip(0) =~= av);
        assert(bv.skip(0) =~= bv);
    }
    while i < a.len() && i < b.len()
        invariant
            i <= a.len() && i <= b.len(),
            av == a.deep_view() && bv == b.deep_view(),
            av.len() == a.len() && bv.len() == b.len(),
            pre_lt(av, bv) == pre_lt(av.skip(i as int), bv.skip(i as int)),
        decreases a.len() - i,
    {
        if str_eq(a[i].as_str(), b[i].as_str()) {
            proof {
                assert(av.skip(i as int)[0] == av[i as int]);
                assert(bv.skip(i as int)[0] == bv[i as int]);
                assert(av.skip(i as int).skip(1) =~= av.skip(i as int + 1));
                assert(bv.skip(i as int).skip(1) =~= bv.skip(i as int + 1));
            }
            i = i + 1;
        } else {
            let adig = str_all_digits(a[i].as_str());
            let bdig = str_all_digits(b[i].as_str());
            let r = if adig && bdig {
                let al = a[i].as_str().unicode_len();
                let bl = b[i].as_str().unicode_len();
                if al != bl {
                    al < bl
                } else {
                    str_lex_lt(a[i].as_str(), b[i].as_str())
                }
            } else if adig {
                true
            } else if bdig {
                false
            } else {
                str_lex_lt(a[i].as_str(), b[i].as_str())
            };
            proof {
                assert(av.skip(i as int)[0] == av[i as int]);
                assert(bv.skip(i as int)[0] == bv[i as int]);
            }
            return r;
        }
    }
    proof {
        if i >= a.len() {
            assert(av.skip(i as int).len() == 0);
        } else {
            assert(bv.skip(i as int).len() == 0);
        }
    }
    a.len() < b.len()
}

/// Strict precedence comparison of two versions.
pub fn version_lt_exec(a: &Version, b: &Version) -> (r: bool)
    ensures
        r == version_lt(a@, b@),
{
    if a.major != b.major {
        return a.major < b.major;
    }
    if a.minor != b.minor {
        return a.minor < b.minor;
    }
    if a.patch != b.patch {
        return a.patch < b.patch;
    }
    if a.pre.len() > 0 && b.pre.len() == 0 {
        return true;
    }
    if a.pre.len() == 0 {
        return false;
    }
    pre_lt_exec(&a.pre, &b.pre)
}

} // verus!

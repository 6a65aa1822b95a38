//! Character-level text utilities shared by the manifest formats: line
//! splitting and joining, decimal rendering and parsing, and prefix tests.

use vstd::prelude::*;
use vstd::string::StrSliceExecFns;
use vstd::string::StringExecFns;

verus! {

/// True when `s` contains no line separator.
pub open spec fn no_newline(s: Seq<char>) -> bool {
    forall|i: int| 0 <= i < s.len() ==> s[i] != '\n'
}

/// Position of the first line separator in `s`, or `s.len()` if none occurs.
pub open spec fn first_nl(s: Seq<char>) -> nat
    decreases s.len(),
{
    if s.len() == 0 {
        0
    } else if s[0] == '\n' {
        0
    } else {
        (1 + first_nl(s.skip(1))) as nat
    }
}

pub proof fn lemma_first_nl_bounds(s: Seq<char>)
    ensures
        first_nl(s) <= s.len(),
        forall|j: int| 0 <= j < first_nl(s) ==> s[j] != '\n',
        first_nl(s) < s.len() ==> s[first_nl(s) as int] == '\n',
    decreases s.len(),
{
    if s.len() == 0 {
    } else if s[0] == '\n' {
    } else {
        lemma_first_nl_bounds(s.skip(1));
        assert(forall|j: int| 0 <= j < first_nl(s.skip(1)) ==> s.skip(1)[j] != '\n');
        assert(forall|j: int| 1 <= j < first_nl(s) ==> s[j] == s.skip(1)[j - 1]);
    }
}

pub proof fn lemma_first_nl_is(s: Seq<char>, k: int)
    requires
        0 <= k <= s.len(),
        forall|j: int| 0 <= j < k ==> s[j] != '\n',
        k < s.len() ==> s[k] == '\n',
    ensures
        first_nl(s) == k,
    decreases k,
{
    if k == 0 {
    } else {
        assert(s[0] != '\n');
        assert(forall|j: int| 0 <= j < k - 1 ==> s.skip(1)[j] == s[j + 1] && s[j + 1] != '\n');
        lemma_first_nl_is(s.skip(1), k - 1);
    }
}

/// The non-empty lines of `s`: maximal runs of characters between line
/// separators, with empty runs dropped.
pub open spec fn spec_split_lines(s: Seq<char>) -> Seq<Seq<char>>
    decreases s.len(),
{
    if s.len() == 0 {
        Seq::empty()
    } else {
        let i = first_nl(s) as int;
        let head = s.take(i);
        let rest = if i < s.len() {
            spec_split_lines(s.skip(i + 1))
        } else {
            Seq::empty()
        };
        if head.len() == 0 {
            rest
        } else {
            seq![head] + rest
        }
    }
}

/// Splitting a text that begins with a separator-free segment followed by a
/// separator yields that segment (if non-empty) and then the lines of the rest.
pub proof fn lemma_split_lines_step(seg: Seq<char>, rest: Seq<char>)
    requires
        no_newline(seg),
    ensures
        spec_split_lines(seg + seq!['\n'] + rest) == if seg.len() == 0 {
            spec_split_lines(rest)
        } else {
            seq![seg] + spec_split_lines(rest)
        },
{
    let s = seg + seq!['\n'] + rest;
    assert(s.len() == seg.len() + 1 + rest.len());
    assert(forall|j: int| 0 <= j < seg.len() ==> s[j] == seg[j] && s[j] != '\n');
    assert(s[seg.len() as int] == '\n');
    lemma_first_nl_is(s, seg.len() as int);
    assert(s.take(seg.len() as int) =~= seg);
    assert(s.skip(seg.len() as int + 1) =~= rest);
}

/// Splitting a separator-free text yields that text as its only line (or no
/// line at all when it is empty).
pub proof fn lemma_split_lines_whole(seg: Seq<char>)
    requires
        no_newline(seg),
    ensures
        spec_split_lines(seg) == if seg.len() == 0 {
            Seq::<Seq<char>>::empty()
        } else {
            seq![seg]
        },
{
    if seg.len() == 0 {
    } else {
        lemma_first_nl_is(seg, seg.len() as int);
        assert(seg.take(seg.len() as int) =~= seg);
        assert(spec_split_lines(seg) =~= seq![seg]);
    }
}

/// The text whose lines are `ls`: each line followed by one separator.
pub open spec fn spec_join_lines(ls: Seq<Seq<char>>) -> Seq<char>
    decreases ls.len(),
{
    if ls.len() == 0 {
        Seq::empty()
    } else {
        ls[0] + seq!['\n'] + spec_join_lines(ls.skip(1))
    }
}

/// Well-formed lines: non-empty and free of separators.
pub open spec fn wf_lines(ls: Seq<Seq<char>>) -> bool {
    forall|i: int| 0 <= i < ls.len() ==> (#[trigger] ls[i]).len() > 0 && no_newline(ls[i])
}

/// Splitting undoes joining, for well-formed lines.
pub proof fn lemma_split_join_lines(ls: Seq<Seq<char>>)
    requires
        wf_lines(ls),
    ensures
        spec_split_lines(spec_join_lines(ls)) == ls,
    decreases ls.len(),
{
    if ls.len() == 0 {
    } else {
        assert(ls[0].len() > 0 && no_newline(ls[0]));
        lemma_split_lines_step(ls[0], spec_join_lines(ls.skip(1)));
        lemma_split_join_lines(ls.skip(1));
        assert(spec_split_lines(spec_join_lines(ls)) =~= ls);
    }
}

/// Splits `s` at line separators, dropping empty segments.
pub fn split_lines(s: &str) -> (r: Vec<String>)
    ensures
        r.deep_view() == spec_split_lines(s@),
{
    let len = s.unicode_len();
    let mut out: Vec<String> = Vec::new();
    let mut start: usize = 0;
    let mut i: usize = 0;
    proof {
        assert(s@.skip(0) =~= s@);
        assert(out.deep_view() =~= Seq::<Seq<char>>::empty());
        assert(out.deep_view() + spec_split_lines(s@) =~= spec_split_lines(s@));
    }
    while i < len
        invariant
            start <= i <= len,
            len == s@.len(),
            no_newline(s@.subrange(start as int, i as int)),
            spec_split_lines(s@) == out.deep_view() + spec_split_lines(s@.skip(start as int)),
        decreases len - i,
    {
        if s.get_char(i) == '\n' {
            proof {
                let seg = s@.subrange(start as int, i as int);
                let rest = s@.skip(i + 1);
                assert(s@.skip(start as int) =~= seg + seq!['\n'] + rest);
                lemma_split_lines_step(seg, rest);
                if seg.len() > 0 {
                    let line = s@.subrange(start as int, i as int);
                    assert(out.deep_view().push(line) + spec_split_lines(rest)
                        =~= out.deep_view() + (seq![line] + spec_split_lines(rest)));
                }
            }
            if start < i {
                let line = s.substring_char(start, i).to_owned();
                out.push(line);
                proof {
                    assert(out.deep_view() =~= out.deep_view().take(out.len() - 1).push(
                        out.deep_view().last(),
                    ));
                }
            }
            start = i + 1;
        }
        i = i + 1;
        proof {
            assert(s@.subrange(start as int, i as int) =~= if start < i {
                s@.subrange(start as int, (i - 1) as int).push(s@[i - 1])
            } else {
                Seq::<char>::empty()
            });
        }
    }
    proof {
        let seg = s@.subrange(start as int, len as int);
        assert(s@.skip(start as int) =~= seg);
        lemma_split_lines_whole(seg);
    }
    if start < len {
        let line = s.substring_char(start, len).to_owned();
        out.push(line);
    }
    proof {
        assert(out.deep_view() =~= spec_split_lines(s@));
    }
    out
}

/// Joins `lines` into one text, terminating every line with a separator.
pub fn join_lines(lines: &Vec<String>) -> (r: String)
    ensures
        r@ == spec_join_lines(lines.deep_view()),
{
    let ghost ls = lines.deep_view();
    let mut out = String::new();
    let mut i: usize = 0;
    proof {
        assert(ls.skip(0) =~= ls);
        assert(out@ + spec_join_lines(ls) =~= spec_join_lines(ls));
    }
    while i < lines.len()
        invariant
            i <= lines.len(),
            ls == lines.deep_view(),
            spec_join_lines(ls) == out@ + spec_join_lines(ls.skip(i as int)),
        decreases lines.len() - i,
    {
        out.append(lines[i].as_str());
        out.append("\n");
        proof {
            reveal_strlit("\n");
            assert("\n"@ =~= seq!['\n']);
            assert(ls.skip(i as int).skip(1) =~= ls.skip(i + 1));
            assert(ls.skip(i as int)[0] == ls[i as int]);
            assert(out@ + spec_join_lines(ls.skip(i + 1)) =~= spec_join_lines(ls));
        }
        i = i + 1;
    }
    proof {
        assert(ls.skip(i as int) =~= Seq::<Seq<char>>::empty());
        assert(out@ =~= spec_join_lines(ls));
    }
    out
}

/// Position of the first occurrence of `sep` in `s`, or `s.len()` if none.
pub open spec fn first_occ(s: Seq<char>, sep: char) -> nat
    decreases s.len(),
{
    if s.len() == 0 {
        0
    } else if s[0] == sep {
        0
    } else {
        (1 + first_occ(s.skip(1), sep)) as nat
    }
}

pub proof fn lemma_first_occ_bounds(s: Seq<char>, sep: char)
    ensures
        first_occ(s, sep) <= s.len(),
        forall|j: int| 0 <= j < first_occ(s, sep) ==> s[j] != sep,
        first_occ(s, sep) < s.len() ==> s[first_occ(s, sep) as int] == sep,
    decreases s.len(),
{
    if s.len() == 0 {
    } else if s[0] == sep {
    } else {
        lemma_first_occ_bounds(s.skip(1), sep);
        assert(forall|j: int| 0 <= j < first_occ(s.skip(1), sep) ==> s.skip(1)[j] != sep);
        assert(forall|j: int| 1 <= j < first_occ(s, sep) ==> s[j] == s.skip(1)[j - 1]);
    }
}

pub proof fn lemma_first_occ_is(s: Seq<char>, sep: char, k: int)
    requires
        0 <= k <= s.len(),
        forall|j: int| 0 <= j < k ==> s[j] != sep,
        k < s.len() ==> s[k] == sep,
    ensures
        first_occ(s, sep) == k,
    decreases k,
{
    if k == 0 {
    } else {
        assert(s[0] != sep);
        assert(forall|j: int| 0 <= j < k - 1 ==> s.skip(1)[j] == s[j + 1] && s[j + 1] != sep);
        lemma_first_occ_is(s.skip(1), sep, k - 1);
    }
}

/// The segments of `s` between occurrences of `sep`, empty segments kept.
/// The result always holds at least one segment.
pub open spec fn spec_split_sep(s: Seq<char>, sep: char) -> Seq<Seq<char>>
    decreases s.len(),
{
    let i = first_occ(s, sep) as int;
    if i >= s.len() {
        seq![s]
    } else {
        seq![s.take(i)] + spec_split_sep(s.skip(i + 1), sep)
    }
}

/// Position of the first occurrence of `sep` in `s`, or the length if none.
pub fn find_char(s: &str, sep: char) -> (r: usize)
    ensures
        r == first_occ(s@, sep),
{
    let len = s.unicode_len();
    let mut i: usize = 0;
    while i < len
        invariant
            i <= len,
            len == s@.len(),
            forall|j: int| 0 <= j < i ==> s@[j] != sep,
        decreases len - i,
    {
        if s.get_char(i) == sep {
            proof {
                lemma_first_occ_is(s@, sep, i as int);
            }
            return i;
        }
        i = i + 1;
    }
    proof {
        lemma_first_occ_is(s@, sep, len as int);
    }
    len
}

/// Splits `s` at every occurrence of `sep`, keeping empty segments.
pub fn split_sep(s: &str, sep: char) -> (r: Vec<String>)
    ensures
        r.deep_view() == spec_split_sep(s@, sep),
{
    let len = s.unicode_len();
    let mut out: Vec<String> = Vec::new();
    let mut start: usize = 0;
    let mut i: usize = 0;
    proof {
        assert(s@.skip(0) =~= s@);
        assert(out.deep_view() =~= Seq::<Seq<char>>::empty());
        assert(out.deep_view() + spec_split_sep(s@, sep) =~= spec_split_sep(s@, sep));
    }
    while i < len
        invariant
            start <= i <= len,
            len == s@.len(),
            forall|j: int| start <= j < i ==> s@[j] != sep,
            spec_split_sep(s@, sep) == out.deep_view() + spec_split_sep(
                s@.skip(start as int),
                sep,
            ),
        decreases len - i,
    {
        if s.get_char(i) == sep {
            proof {
                let tail = s@.skip(start as int);
                assert(forall|j: int| 0 <= j < i - start ==> tail[j] == s@[j + start]);
                lemma_first_occ_is(tail, sep, i - start);
                assert(tail.take(i - start) =~= s@.subrange(start as int, i as int));
                assert(tail.skip(i - start + 1) =~= s@.skip(i + 1));
            }
            let seg = s.substring_char(start, i).to_owned();
            out.push(seg);
            proof {
                let segv = s@.subrange(start as int, i as int);
                assert(out.deep_view() =~= out.deep_view().take(out.len() - 1).push(segv));
                assert(out.deep_view().take(out.len() - 1) + (seq![segv] + spec_split_sep(
                    s@.skip(i + 1),
                    sep,
                )) =~= out.deep_view() + spec_split_sep(s@.skip(i + 1), sep));
            }
            start = i + 1;
        }
        i = i + 1;
    }
    proof {
        let tail = s@.skip(start as int);
        assert(forall|j: int| 0 <= j < tail.len() ==> tail[j] == s@[j + start]);
        lemma_first_occ_is(tail, sep, tail.len() as int);
        assert(spec_split_sep(tail, sep) =~= seq![tail]);
    }
    let seg = s.substring_char(start, len).to_owned();
    out.push(seg);
    proof {
        assert(s@.subrange(start as int, len as int) =~= s@.skip(start as int));
        assert(out.deep_view() =~= out.deep_view().take(out.len() - 1).push(
            out.deep_view().last(),
        ));
        assert(out.deep_view() =~= spec_split_sep(s@, sep));
    }
    out
}

/// Strict lexicographic order on character sequences, by code point.
pub open spec fn lex_lt(a: Seq<char>, b: Seq<char>) -> bool
    decreases a.len(),
{
    if a.len() == 0 {
        b.len() > 0
    } else if b.len() == 0 {
        false
    } else if a[0] < b[0] {
        true
    } else if a[0] == b[0] {
        lex_lt(a.skip(1), b.skip(1))
    } else {
        false
    }
}

pub proof fn lemma_lex_lt_trans(a: Seq<char>, b: Seq<char>, c: Seq<char>)
    requires
        lex_lt(a, b),
        lex_lt(b, c),
    ensures
        lex_lt(a, c),
    decreases a.len(),
{
    if a.len() == 0 {
    } else if a[0] < b[0] {
        assert(b[0] <= c[0]);
    } else {
        assert(a[0] == b[0]);
        if b[0] == c[0] {
            lemma_lex_lt_trans(a.skip(1), b.skip(1), c.skip(1));
        }
    }
}

pub proof fn lemma_lex_lt_connex(a: Seq<char>, b: Seq<char>)
    requires
        a != b,
    ensures
        lex_lt(a, b) || lex_lt(b, a),
    decreases a.len(),
{
    if a.len() == 0 {
        if b.len() == 0 {
            assert(a =~= b);
        }
        assert(b.len() > 0);
    } else if b.len() == 0 {
    } else if a[0] == b[0] {
        assert(a.skip(1) != b.skip(1)) by {
            if a.skip(1) == b.skip(1) {
                assert(a =~= seq![a[0]] + a.skip(1));
                assert(b =~= seq![b[0]] + b.skip(1));
            }
        }
        lemma_lex_lt_connex(a.skip(1), b.skip(1));
    } else {
        assert(a[0] < b[0] || b[0] < a[0]);
    }
}

pub proof fn lemma_lex_lt_irrefl(a: Seq<char>)
    ensures
        !lex_lt(a, a),
    decreases a.len(),
{
    if a.len() > 0 {
        lemma_lex_lt_irrefl(a.skip(1));
    }
}

/// Strict lexicographic comparison of two strings.
pub fn str_lex_lt(a: &str, b: &str) -> (r: bool)
    ensures
        r == lex_lt(a@, b@),
{
    let al = a.unicode_len();
    let bl = b.unicode_len();
    let mut i: usize = 0;
    proof {
        assert(a@.skip(0) =~= a@);
        assert(b@.skip(0) =~= b@);
    }
    while i < al && i < bl
        invariant
            i <= al && i <= bl,
            al == a@.len() && bl == b@.len(),
            forall|j: int| 0 <= j < i ==> a@[j] == b@[j],
            lex_lt(a@, b@) == lex_lt(a@.skip(i as int), b@.skip(i as int)),
        decreases al - i,
    {
        let ca = a.get_char(i);
        let cb = b.get_char(i);
        if ca < cb {
            return true;
        }
        if cb < ca {
            return false;
        }
        proof {
            assert(a@.skip(i as int).skip(1) =~= a@.skip(i as int + 1));
            assert(b@.skip(i as int).skip(1) =~= b@.skip(i as int + 1));
        }
        i = i + 1;
    }
    proof {
        if i >= al {
            assert(a@.skip(i as int).len() == 0);
        } else {
            assert(b@.skip(i as int).len() == 0);
        }
    }
    al < bl
}

/// True when every character of `s` is a decimal digit.
pub fn str_all_digits(s: &str) -> (r: bool)
    ensures
        r == all_digits(s@),
{
    let len = s.unicode_len();
    let mut i: usize = 0;
    while i < len
        invariant
            i <= len,
            len == s@.len(),
            forall|j: int| 0 <= j < i ==> is_digit(s@[j]),
        decreases len - i,
    {
        let u = s.get_char(i) as u32;
        if u < 48 || u > 57 {
            return false;
        }
        i = i + 1;
    }
    true
}

/// True when `c` is a decimal digit.
pub open spec fn is_digit(c: char) -> bool {
    48 <= (c as u32) <= 57
}

/// The value of a decimal digit.
pub open spec fn digit_val(c: char) -> int {
    (c as u32) - 48
}

/// The digit character for a value below ten.
pub open spec fn digit_char(d: int) -> char {
    ((48 + d) as u8) as char
}

/// True when every character of `s` is a decimal digit.
pub open spec fn all_digits(s: Seq<char>) -> bool {
    forall|i: int| 0 <= i < s.len() ==> is_digit(s[i])
}

/// The number denoted by a digit string, most significant digit first.
pub open spec fn digits_val(s: Seq<char>) -> int
    decreases s.len(),
{
    if s.len() == 0 {
        0
    } else {
        digits_val(s.drop_last()) * 10 + digit_val(s.last())
    }
}

/// The decimal rendering of a non-negative number, without leading zeros.
pub open spec fn spec_render_u64(n: int) -> Seq<char>
    decreases n,
{
    if n < 10 {
        seq![digit_char(n)]
    } else {
        spec_render_u64(n / 10).push(digit_char(n % 10))
    }
}

/// What `parse_u64_str` returns: the denoted number, if the string is a
/// non-empty digit string whose value fits in a `u64`.
pub open spec fn spec_parse_u64(s: Seq<char>) -> Option<u64> {
    if s.len() > 0 && all_digits(s) && digits_val(s) <= u64::MAX {
        Some(digits_val(s) as u64)
    } else {
        None
    }
}

pub proof fn lemma_digits_val_nonneg(s: Seq<char>)
    requires
        all_digits(s),
    ensures
        digits_val(s) >= 0,
    decreases s.len(),
{
    if s.len() > 0 {
        assert(all_digits(s.drop_last()));
        lemma_digits_val_nonneg(s.drop_last());
        assert(digits_val(s.drop_last()) * 10 >= 0) by (nonlinear_arith)
            requires digits_val(s.drop_last()) >= 0;
    }
}

pub proof fn lemma_digits_val_prefix_le(s: Seq<char>, i: int)
    requires
        all_digits(s),
        0 <= i <= s.len(),
    ensures
        digits_val(s.take(i)) <= digits_val(s),
    decreases s.len() - i,
{
    if i < s.len() {
        lemma_digits_val_prefix_le(s, i + 1);
        let t = s.take(i + 1);
        assert(t.drop_last() =~= s.take(i));
        assert(all_digits(s.take(i)));
        lemma_digits_val_nonneg(s.take(i));
        let v = digits_val(s.take(i));
        assert(digits_val(t) == v * 10 + digit_val(t.last()));
        assert(v * 10 >= v) by (nonlinear_arith)
            requires v >= 0;
    } else {
        assert(s.take(i) =~= s);
    }
}

/// Rendering a number and reading it back yields the same number.
pub proof fn lemma_parse_render_u64(n: u64)
    ensures
        spec_parse_u64(spec_render_u64(n as int)) == Some(n),
{
    lemma_render_digits(n as int);
    let s = spec_render_u64(n as int);
    assert(digits_val(s) == n);
    assert(spec_parse_u64(s) == Some(digits_val(s) as u64));
}

pub proof fn lemma_render_digits(n: int)
    requires
        n >= 0,
    ensures
        spec_render_u64(n).len() > 0,
        all_digits(spec_render_u64(n)),
        digits_val(spec_render_u64(n)) == n,
        no_newline(spec_render_u64(n)),
    decreases n,
{
    if n < 10 {
        let c = digit_char(n);
        assert((c as u32) == 48 + n);
        assert(spec_render_u64(n) =~= seq![c]);
        assert(seq![c].drop_last() =~= Seq::<char>::empty());
        assert(seq![c].last() == c);
        reveal_with_fuel(digits_val, 2);
        assert(digits_val(seq![c]) == digit_val(c));
    } else {
        lemma_render_digits(n / 10);
        let s = spec_render_u64(n);
        let q = spec_render_u64(n / 10);
        assert(s =~= q.push(digit_char(n % 10)));
        assert(s.drop_last() =~= q);
        assert(s.last() == digit_char(n % 10));
        assert((digit_char(n % 10) as u32) == 48 + (n % 10));
        assert(digits_val(s) == (n / 10) * 10 + (n % 10));
        assert((n / 10) * 10 + (n % 10) == n) by (nonlinear_arith)
            requires n >= 0;
    }
}

/// Renders `n` in decimal.
pub fn render_u64(n: u64) -> (r: String)
    ensures
        r@ == spec_render_u64(n as int),
{
    let mut digs: Vec<u64> = Vec::new();
    let mut m: u64 = n;
    if m == 0 {
        digs.push(0);
        proof {
            assert(digs@.last() == 0 && digs@.drop_last() =~= Seq::<u64>::empty());
            reveal_with_fuel(digchars_rev, 2);
            assert(digchars_rev(digs@) =~= seq![digit_char(0)]);
        }
    } else {
        while m > 0
            invariant
                forall|j: int| 0 <= j < digs@.len() ==> digs@[j] < 10,
                spec_render_u64(n as int) == if m == 0 {
                    digchars_rev(digs@)
                } else {
                    spec_render_u64(m as int) + digchars_rev(digs@)
                },
            decreases m,
        {
            let d = m % 10;
            proof {
                let pushed = digs@.push(d);
                assert(pushed.drop_last() =~= digs@);
                if m >= 10 {
                    assert(spec_render_u64(m as int) == spec_render_u64(m as int / 10).push(
                        digit_char(m as int % 10),
                    ));
                    assert(spec_render_u64(m as int / 10) + digchars_rev(pushed)
                        =~= spec_render_u64(m as int) + digchars_rev(digs@));
                } else {
                    assert(spec_render_u64(m as int) =~= seq![digit_char(m as int)]);
                    assert(digchars_rev(pushed) =~= spec_render_u64(m as int) + digchars_rev(
                        digs@,
                    ));
                }
            }
            digs.push(d);
            m = m / 10;
        }
    }
    let mut out = String::new();
    let mut i: usize = digs.len();
    proof {
        assert(digs@.take(i as int) =~= digs@);
        assert(out@ + digchars_rev(digs@) =~= digchars_rev(digs@));
    }
    while i > 0
        invariant
            i <= digs.len(),
            forall|j: int| 0 <= j < digs@.len() ==> digs@[j] < 10,
            digchars_rev(digs@) == out@ + digchars_rev(digs@.take(i as int)),
        decreases i,
    {
        i = i - 1;
        let piece = digit_str(digs[i]);
        out.append(piece);
        proof {
            let t = digs@.take(i as int + 1);
            assert(t.drop_last() =~= digs@.take(i as int));
            assert(t.last() == digs@[i as int]);
        }
    }
    proof {
        assert(digchars_rev(digs@.take(0)) =~= Seq::<char>::empty());
        assert(out@ =~= digchars_rev(digs@));
    }
    out
}

/// The digit characters of `digs` (least significant first), rendered most
/// significant first.
pub open spec fn digchars_rev(digs: Seq<u64>) -> Seq<char>
    decreases digs.len(),
{
    if digs.len() == 0 {
        Seq::empty()
    } else {
        seq![digit_char(digs.last() as int)] + digchars_rev(digs.drop_last())
    }
}

/// One digit as a string slice.
pub fn digit_str(d: u64) -> (r: &'static str)
    requires
        d < 10,
    ensures
        r@ == seq![digit_char(d as int)],
{
    let digits = "0123456789";
    proof {
        reveal_strlit("0123456789");
        assert(digits@ =~= seq!['0', '1', '2', '3', '4', '5', '6', '7', '8', '9']);
        assert(forall|k: int| 0 <= k < 10 ==> #[trigger] digits@[k] == digit_char(k)) by {
            assert(digits@[0] == digit_char(0));
            assert(digits@[1] == digit_char(1));
            assert(digits@[2] == digit_char(2));
            assert(digits@[3] == digit_char(3));
            assert(digits@[4] == digit_char(4));
            assert(digits@[5] == digit_char(5));
            assert(digits@[6] == digit_char(6));
            assert(digits@[7] == digit_char(7));
            assert(digits@[8] == digit_char(8));
            assert(digits@[9] == digit_char(9));
        }
    }
    let r = digits.substring_char(d as usize, d as usize + 1);
    proof {
        assert(r@ =~= seq![digit_char(d as int)]);
    }
    r
}

/// Reads a decimal number, rejecting non-digits, emptiness and overflow.
pub fn parse_u64_str(s: &str) -> (r: Option<u64>)
    ensures
        r == spec_parse_u64(s@),
{
    let len = s.unicode_len();
    if len == 0 {
        return None;
    }
    let mut acc: u64 = 0;
    let mut i: usize = 0;
    proof {
        assert(s@.take(0) =~= Seq::<char>::empty());
    }
    while i < len
        invariant
            i <= len,
            len == s@.len(),
            all_digits(s@.take(i as int)),
            acc == digits_val(s@.take(i as int)),
        decreases len - i,
    {
        let c = s.get_char(i);
        let u = c as u32;
        if u < 48 || u > 57 {
            proof {
                assert(!is_digit(s@[i as int]));
                assert(!all_digits(s@));
            }
            return None;
        }
        let d = (u - 48) as u64;
        proof {
            let t = s@.take(i as int + 1);
            assert(t.drop_last() =~= s@.take(i as int));
            assert(t.last() == s@[i as int]);
            lemma_digits_val_nonneg(s@.take(i as int));
        }
        if acc > (u64::MAX - d) / 10 {
            proof {
                let q = (u64::MAX - d) as int / 10;
                assert(q * 10 + 10 > u64::MAX - d) by (nonlinear_arith)
                    requires q == (u64::MAX - d) as int / 10, 0 <= d <= 9;
                assert(acc * 10 >= q * 10 + 10) by (nonlinear_arith)
                    requires acc >= q + 1;
                assert(digits_val(s@.take(i as int + 1)) > u64::MAX);
                assert(all_digits(s@) ==> digits_val(s@) > u64::MAX) by {
                    if all_digits(s@) {
                        lemma_digits_val_prefix_le(s@, i as int + 1);
                    }
                }
            }
            return None;
        }
        proof {
            let q = (u64::MAX - d) as int / 10;
            assert(q * 10 <= u64::MAX - d) by (nonlinear_arith)
                requires q == (u64::MAX - d) as int / 10;
            assert(acc * 10 <= q * 10) by (nonlinear_arith)
                requires 0 <= acc <= q;
        }
        acc = acc * 10 + d;
        i = i + 1;
    }
    proof {
        assert(s@.take(len as int) =~= s@);
    }
    Some(acc)
}

/// True when `p` is a prefix of `s`.
pub fn str_has_prefix(s: &str, p: &str) -> (r: bool)
    ensures
        r == p@.is_prefix_of(s@),
{
    let sl = s.unicode_len();
    let pl = p.unicode_len();
    if pl > sl {
        return false;
    }
    let mut i: usize = 0;
    while i < pl
        invariant
            i <= pl,
            pl == p@.len(),
            pl <= sl == s@.len(),
            forall|j: int| 0 <= j < i ==> s@[j] == p@[j],
        decreases pl - i,
    {
        if s.get_char(i) != p.get_char(i) {
            return false;
        }
        i = i + 1;
    }
    proof {
        assert(p@ =~= s@.subrange(0, p@.len() as int));
    }
    true
}

/// True when `s` and `t` hold the same characters.
pub fn str_eq(s: &str, t: &str) -> (r: bool)
    ensures
        r == (s@ == t@),
{
    let sl = s.unicode_len();
    let tl = t.unicode_len();
    if sl != tl {
        return false;
    }
    let mut i: usize = 0;
    while i < sl
        invariant
            i <= sl,
            sl == s@.len() == t@.len(),
            forall|j: int| 0 <= j < i ==> s@[j] == t@[j],
        decreases sl - i,
    {
        if s.get_char(i) != t.get_char(i) {
            return false;
        }
        i = i + 1;
    }
    proof {
        assert(s@ =~= t@);
    }
    true
}

/// The characters of `s` from `from` onward, as an owned string.
pub fn str_suffix(s: &str, from: usize) -> (r: String)
    requires
        from <= s@.len(),
    ensures
        r@ == s@.skip(from as int),
{
    let len = s.unicode_len();
    let r = s.substring_char(from, len).to_owned();
    proof {
        assert(r@ =~= s@.skip(from as int));
    }
    r
}

/// True when `s` contains no line separator.
pub fn str_no_newline(s: &str) -> (r: bool)
    ensures
        r == no_newline(s@),
{
    let len = s.unicode_len();
    let mut i: usize = 0;
    while i < len
        invariant
            i <= len,
            len == s@.len(),
            forall|j: int| 0 <= j < i ==> s@[j] != '\n',
        decreases len - i,
    {
        if s.get_char(i) == '\n' {
            return false;
        }
        i = i + 1;
    }
    true
}

} // verus!

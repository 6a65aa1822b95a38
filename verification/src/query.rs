//! Remote-package queries: fuzzy search ranking and the fuzzy fallback
//! used when no exact name matches.

use vstd::prelude::*;
use crate::entry::{AppImageEntryWithSource, EntryWithSourceV};
use crate::matching::{fuzzy_score, fuzzy_score_of};
use crate::index::UnifiedIndex;

verus! {

/// An entry with its fuzzy-match score for one query.
pub struct ScoredEntry {
    pub entry: AppImageEntryWithSource,
    pub score: i64,
}

/// The mathematical value of a scored entry.
#[verifier::ext_equal]
pub ghost struct ScoredV {
    pub entry: EntryWithSourceV,
    pub score: int,
}

impl View for ScoredEntry {
    type V = ScoredV;

    open spec fn view(&self) -> ScoredV {
        ScoredV { entry: self.entry@, score: self.score as int }
    }
}

impl DeepView for ScoredEntry {
    type V = ScoredV;

    open spec fn deep_view(&self) -> ScoredV {
        self.view()
    }
}

/// The entries the scorer accepts for `q`, each with its score, in index
/// order.
pub open spec fn scored_list(entries: Seq<EntryWithSourceV>, q: Seq<char>) -> Seq<ScoredV>
    decreases entries.len(),
{
    if entries.len() == 0 {
        Seq::empty()
    } else {
        let rest = scored_list(entries.skip(1), q);
        match fuzzy_score_of(entries[0].entry.name, q) {
            Some(s) => seq![ScoredV { entry: entries[0], score: s as int }] + rest,
            None => rest,
        }
    }
}

/// An element placed into a descending list, after every element that
/// scores at least as high — so earlier entries stay ahead of later
/// equals.
pub open spec fn insert_desc(sorted: Seq<ScoredV>, x: ScoredV) -> Seq<ScoredV>
    decreases sorted.len(),
{
    if sorted.len() == 0 {
        seq![x]
    } else if sorted[0].score >= x.score {
        seq![sorted[0]] + insert_desc(sorted.skip(1), x)
    } else {
        seq![x] + sorted
    }
}

/// The list sorted by descending score, stably.
pub open spec fn sort_desc(items: Seq<ScoredV>) -> Seq<ScoredV>
    decreases items.len(),
{
    if items.len() == 0 {
        Seq::empty()
    } else {
        insert_desc(sort_desc(items.drop_last()), items.last())
    }
}

proof fn lemma_insert_desc_at(sorted: Seq<ScoredV>, x: ScoredV, i: int)
    requires
        0 <= i <= sorted.len(),
        forall|j: int| 0 <= j < i ==> (#[trigger] sorted[j]).score >= x.score,
        i < sorted.len() ==> sorted[i].score < x.score,
    ensures
        insert_desc(sorted, x) == sorted.insert(i, x),
    decreases i,
{
    if i == 0 {
        if sorted.len() == 0 {
            assert(insert_desc(sorted, x) =~= sorted.insert(0, x));
        } else {
            assert(sorted[0].score < x.score);
            assert(insert_desc(sorted, x) =~= sorted.insert(0, x));
        }
    } else {
        assert(sorted[0].score >= x.score);
        assert(forall|j: int| 0 <= j < i - 1 ==> (#[trigger] sorted.skip(1)[j]).score >= x.score);
        lemma_insert_desc_at(sorted.skip(1), x, i - 1);
        assert(insert_desc(sorted, x) =~= sorted.insert(i, x));
    }
}

/// Scores every entry of the index against the query and ranks the
/// accepted ones by descending score, earlier entries ahead of equals.
pub fn search_entries(index: &UnifiedIndex, query: &str) -> (r: Vec<ScoredEntry>)
    ensures
        r.deep_view() == sort_desc(scored_list(index@.entries, query@)),
{
    let ghost ee = index@.entries;
    let mut scored: Vec<ScoredEntry> = Vec::new();
    let mut i: usize = 0;
    proof {
        assert(ee.take(0) =~= Seq::<EntryWithSourceV>::empty());
        assert(scored.deep_view() =~= scored_list(ee.take(0), query@));
    }
    while i < index.entries.len()
        invariant
            i <= index.entries.len(),
            ee == index@.entries,
            ee.len() == index.entries.len(),
            scored.deep_view() == scored_list(ee.take(i as int), query@),
        decreases index.entries.len() - i,
    {
        let e = &index.entries[i];
        proof {
            assert(ee[i as int] == index.entries@[i as int]@);
        }
        let ghost prev = scored.deep_view();
        match fuzzy_score(e.entry.name.as_str(), query) {
            Some(s) => {
                scored.push(ScoredEntry { entry: e.duplicate(), score: s });
                proof {
                    assert(scored.deep_view() =~= prev.push(
                        ScoredV { entry: ee[i as int], score: s as int },
                    ));
                }
            },
            None => {},
        }
        proof {
            lemma_scored_list_snoc(ee, query@, i as int);
            assert(scored.deep_view() =~= scored_list(ee.take(i as int + 1), query@));
        }
        i = i + 1;
    }
    proof {
        assert(ee.take(ee.len() as int) =~= ee);
    }
    let ghost items = scored_list(ee, query@);
    let mut out: Vec<ScoredEntry> = Vec::new();
    let mut k: usize = 0;
    proof {
        assert(items.take(0) =~= Seq::<ScoredV>::empty());
        assert(out.deep_view() =~= sort_desc(items.take(0)));
    }
    while k < scored.len()
        invariant
            k <= scored.len(),
            items == scored.deep_view(),
            items.len() == scored.len(),
            out.deep_view() == sort_desc(items.take(k as int)),
        decreases scored.len() - k,
    {
        let x = &scored[k];
        proof {
            assert(items[k as int] == scored@[k as int]@);
        }
        let mut pos: usize = 0;
        while pos < out.len() && out[pos].score >= x.score
            invariant
                pos <= out.len(),
                k < scored.len(),
                x == &scored@[k as int],
                forall|j: int| 0 <= j < pos ==> (#[trigger] out.deep_view()[j]).score
                    >= x@.score,
            decreases out.len() - pos,
        {
            proof {
                assert(out.deep_view()[pos as int].score >= x@.score);
            }
            pos = pos + 1;
        }
        let ghost pre = out.deep_view();
        out.insert(pos, x.duplicate_scored());
        proof {
            assert(out.deep_view() =~= pre.insert(pos as int, items[k as int]));
            lemma_insert_desc_at(pre, items[k as int], pos as int);
            assert(items.take(k as int + 1).drop_last() =~= items.take(k as int));
            assert(items.take(k as int + 1).last() == items[k as int]);
            assert(out.deep_view() =~= sort_desc(items.take(k as int + 1)));
        }
        k = k + 1;
    }
    proof {
        assert(items.take(items.len() as int) =~= items);
    }
    out
}

impl ScoredEntry {
    /// A structurally equal copy.
    pub fn duplicate_scored(&self) -> (r: Self)
        ensures
            r@ == self@,
    {
        let r = ScoredEntry { entry: self.entry.duplicate(), score: self.score };
        proof {
            assert(r@ =~= self@);
        }
        r
    }
}

proof fn lemma_scored_list_snoc(ee: Seq<EntryWithSourceV>, q: Seq<char>, k: int)
    requires
        0 <= k < ee.len(),
    ensures
        scored_list(ee.take(k + 1), q) == (match fuzzy_score_of(ee[k].entry.name, q) {
            Some(s) => scored_list(ee.take(k), q).push(ScoredV { entry: ee[k], score: s as int }),
            None => scored_list(ee.take(k), q),
        }),
    decreases k,
{
    if k == 0 {
        assert(ee.take(1)[0] == ee[0]);
        assert(ee.take(1).skip(1) =~= Seq::<EntryWithSourceV>::empty());
        assert(ee.take(0) =~= Seq::<EntryWithSourceV>::empty());
        match fuzzy_score_of(ee[0].entry.name, q) {
            Some(s) => {
                assert(scored_list(ee.take(1), q) =~= scored_list(ee.take(0), q).push(
                    ScoredV { entry: ee[0], score: s as int },
                ));
            },
            None => {
                assert(scored_list(ee.take(1), q) =~= scored_list(ee.take(0), q));
            },
        }
    } else {
        lemma_scored_list_snoc(ee.skip(1), q, k - 1);
        assert(ee.take(k + 1)[0] == ee[0]);
        assert(ee.take(k)[0] == ee[0]);
        assert(ee.take(k + 1).skip(1) =~= ee.skip(1).take(k));
        assert(ee.take(k).skip(1) =~= ee.skip(1).take(k - 1));
        assert(ee.skip(1)[k - 1] == ee[k]);
        match fuzzy_score_of(ee[k].entry.name, q) {
            Some(s) => {
                assert(scored_list(ee.take(k + 1), q) =~= scored_list(ee.take(k), q).push(
                    ScoredV { entry: ee[k], score: s as int },
                ));
            },
            None => {
                assert(scored_list(ee.take(k + 1), q) =~= scored_list(ee.take(k), q));
            },
        }
    }
}

/// The position of the best fuzzy match among the first `i` entries: the
/// accepted entry with the highest score, the earliest of equals.
pub open spec fn best_fuzzy_idx(entries: Seq<EntryWithSourceV>, q: Seq<char>, i: int) -> Option<
    int,
>
    decreases i,
{
    if i <= 0 {
        None
    } else {
        let prev = best_fuzzy_idx(entries, q, i - 1);
        match fuzzy_score_of(entries[i - 1].entry.name, q) {
            Some(s) => {
                match prev {
                    None => Some(i - 1),
                    Some(b) => if fuzzy_score_of(entries[b].entry.name, q).unwrap() < s {
                        Some(i - 1)
                    } else {
                        Some(b)
                    },
                }
            },
            None => prev,
        }
    }
}

/// The single best fuzzy match for a query, used when no exact name
/// exists: the accepted entry with the highest score, the earliest of
/// equals, or nothing when the scorer accepts no entry.
pub fn best_fuzzy_match(index: &UnifiedIndex, query: &str) -> (r: Option<AppImageEntryWithSource>)
    ensures
        ({
            let best = best_fuzzy_idx(index@.entries, query@, index@.entries.len() as int);
            match r {
                Some(e) => best is Some && e@ == index@.entries[best.unwrap()],
                None => best is None,
            }
        }),
{
    let ghost ee = index@.entries;
    let mut best: Option<usize> = None;
    let mut best_score: i64 = 0;
    let mut i: usize = 0;
    while i < index.entries.len()
        invariant
            i <= index.entries.len(),
            ee == index@.entries,
            ee.len() == index.entries.len(),
            best_fuzzy_idx(ee, query@, i as int) == (match best {
                Some(b) => Some(b as int),
                None => None::<int>,
            }),
            match best {
                Some(b) => b < i && fuzzy_score_of(ee[b as int].entry.name, query@) == Some(
                    best_score,
                ),
                None => true,
            },
        decreases index.entries.len() - i,
    {
        let e = &index.entries[i];
        proof {
            assert(ee[i as int] == index.entries@[i as int]@);
        }
        match fuzzy_score(e.entry.name.as_str(), query) {
            Some(s) => {
                let replace = match best {
                    None => true,
                    Some(_) => best_score < s,
                };
                if replace {
                    best = Some(i);
                    best_score = s;
                }
            },
            None => {},
        }
        i = i + 1;
    }
    match best {
        Some(b) => Some(index.entries[b].duplicate()),
        None => None,
    }
}

} // verus!

//! The dependency-closure resolver: expands one requested entry into the
//! set of entries its declared dependency names (transitively) require.
//!
//! A dependency name is looked up by exact name only; a name with no match
//! in the index is skipped silently.  Each name is resolved at most once,
//! so the result holds no name twice however many paths reach it.

use vstd::prelude::*;
use crate::entry::{clone_string_vec, AppImageEntry, AppImageEntryWithSource, EntryV,
    EntryWithSourceV};
use crate::index::{lemma_best_match_is_max, sel_ok, spec_best_match, UnifiedIndex};
use crate::text::str_eq;

verus! {

broadcast use vstd::set::group_set_axioms, vstd::seq_lib::seq_to_set_is_finite;

/// The set of names under which the index holds entries.
pub open spec fn index_names(entries: Seq<EntryWithSourceV>) -> Set<Seq<char>> {
    entries.map_values(|e: EntryWithSourceV| e.entry.name).to_set()
}

/// True when `n` is a declared dependency of the root entry or of some
/// collected entry.
pub open spec fn declared_by(root: EntryV, resolved: Seq<EntryWithSourceV>, n: Seq<char>) -> bool {
    root.dependencies.contains(n) || exists|k: int|
        0 <= k < resolved.len() && (#[trigger] resolved[k]).entry.dependencies.contains(n)
}

/// True when the vector holds a string with the given characters.
pub fn vec_contains_str(v: &Vec<String>, s: &str) -> (r: bool)
    ensures
        r == v.deep_view().contains(s@),
{
    let mut i: usize = 0;
    while i < v.len()
        invariant
            i <= v.len(),
            forall|j: int| 0 <= j < i ==> v.deep_view()[j] != s@,
        decreases v.len() - i,
    {
        if str_eq(v[i].as_str(), s) {
            proof {
                assert(v.deep_view()[i as int] == s@);
            }
            return true;
        }
        i = i + 1;
    }
    proof {
        if v.deep_view().contains(s@) {
            let j = choose|j: int| 0 <= j < v.deep_view().len() && v.deep_view()[j] == s@;
            assert(v.deep_view()[j] != s@);
        }
    }
    false
}

proof fn lemma_drop_last_contains<A>(s: Seq<A>, n: A)
    requires
        s.len() > 0,
        s.contains(n),
    ensures
        s.drop_last().contains(n) || n == s.last(),
{
    let j = choose|j: int| 0 <= j < s.len() && s[j] == n;
    if j < s.len() - 1 {
        assert(s.drop_last()[j] == n);
    }
}

/// Expands the requested entry's declared dependencies into the full
/// required set, depth-first over declared names.
///
/// The result holds, exactly once per name, the selected best match of
/// every dependency name reachable from the request through entries that
/// the index can satisfy; names with no match are dropped.
#[verifier::rlimit(100)]
#[verifier::spinoff_prover]
pub fn resolve_dependencies(index: &UnifiedIndex, entry: &AppImageEntry) -> (r: Vec<
    AppImageEntryWithSource,
>)
    ensures
        forall|k1: int, k2: int|
            0 <= k1 < k2 < r.deep_view().len() ==> (#[trigger] r.deep_view()[k1]).entry.name
                != (#[trigger] r.deep_view()[k2]).entry.name,
        forall|k: int|
            0 <= k < r.deep_view().len() ==> {
                let best = spec_best_match(
                    index@.entries,
                    (#[trigger] r.deep_view()[k]).entry.name,
                    None,
                );
                best is Some && r.deep_view()[k] == index@.entries[best.unwrap()]
            },
        forall|k: int|
            0 <= k < r.deep_view().len() ==> declared_by(
                entry@,
                r.deep_view(),
                (#[trigger] r.deep_view()[k]).entry.name,
            ),
        forall|n: Seq<char>|
            declared_by(entry@, r.deep_view(), n) && #[trigger] spec_best_match(
                index@.entries,
                n,
                None,
            ) is Some ==> exists|m: int|
                0 <= m < r.deep_view().len() && (#[trigger] r.deep_view()[m]).entry.name == n,
{
    let ghost ee = index@.entries;
    let ghost root = entry@;
    let mut resolved: Vec<AppImageEntryWithSource> = Vec::new();
    let mut visited: Vec<String> = Vec::new();
    let mut stack: Vec<String> = clone_string_vec(&entry.dependencies);
    while stack.len() > 0
        invariant
            ee == index@.entries,
            root == entry@,
            forall|k1: int, k2: int|
                0 <= k1 < k2 < resolved.deep_view().len() ==> (
                #[trigger] resolved.deep_view()[k1]).entry.name != (
                #[trigger] resolved.deep_view()[k2]).entry.name,
            forall|k: int|
                0 <= k < resolved.deep_view().len() ==> {
                    let best = spec_best_match(
                        ee,
                        (#[trigger] resolved.deep_view()[k]).entry.name,
                        None,
                    );
                    best is Some && resolved.deep_view()[k] == ee[best.unwrap()]
                },
            forall|k: int|
                0 <= k < resolved.deep_view().len() ==> visited.deep_view().contains(
                    (#[trigger] resolved.deep_view()[k]).entry.name,
                ),
            forall|n: Seq<char>|
                #[trigger] visited.deep_view().contains(n) ==> (spec_best_match(ee, n, None)
                    is Some ==> exists|m: int|
                    0 <= m < resolved.deep_view().len() && (
                    #[trigger] resolved.deep_view()[m]).entry.name == n),
            forall|n: Seq<char>|
                #[trigger] declared_by(root, resolved.deep_view(), n) ==> visited.deep_view(
                ).contains(n) || stack.deep_view().contains(n),
            forall|n: Seq<char>|
                visited.deep_view().contains(n) || stack.deep_view().contains(n)
                    ==> #[trigger] declared_by(root, resolved.deep_view(), n),
        decreases index_names(ee).difference(visited.deep_view().to_set()).len(), stack.len(),
    {
        let ghost s_old = stack.deep_view();
        let ghost v_old = visited.deep_view();
        let ghost r_old = resolved.deep_view();
        let dep_name = match stack.pop() {
            Some(n) => n,
            None => {
                proof {
                    assert(false);
                }
                unreached()
            },
        };
        proof {
            assert(stack.deep_view() =~= s_old.drop_last());
            assert(dep_name@ == s_old.last());
            assert(s_old.contains(dep_name@));
        }
        if !vec_contains_str(&visited, dep_name.as_str()) {
            visited.push(dep_name.clone());
            proof {
                assert(visited.deep_view() =~= v_old.push(dep_name@));
            }
            match index.find_best_match(dep_name.as_str(), None) {
                Some(found) => {
                    let copy = found.duplicate();
                    let deps_copy = clone_string_vec(&copy.entry.dependencies);
                    resolved.push(copy);
                    proof {
                        assert(resolved.deep_view() =~= r_old.push(found@));
                        let b = spec_best_match(ee, dep_name@, None).unwrap();
                        lemma_best_match_is_max(ee, dep_name@, None, ee.len() as int);
                        assert(sel_ok(ee[b], dep_name@, None));
                        assert(found@.entry.name == dep_name@);
                    }
                    let ghost s_mid = stack.deep_view();
                    let mut t: usize = 0;
                    proof {
                        assert(stack.deep_view() =~= s_mid + deps_copy.deep_view().take(0));
                    }
                    while t < deps_copy.len()
                        invariant
                            t <= deps_copy.len(),
                            stack.deep_view() == s_mid + deps_copy.deep_view().take(t as int),
                        decreases deps_copy.len() - t,
                    {
                        let ghost prev = stack.deep_view();
                        stack.push(deps_copy[t].clone());
                        proof {
                            assert(stack.deep_view() =~= prev.push(deps_copy.deep_view()[
                                t as int]));
                            assert(deps_copy.deep_view().take(t as int + 1)
                                =~= deps_copy.deep_view().take(t as int).push(
                                deps_copy.deep_view()[t as int]));
                            assert(stack.deep_view() =~= s_mid + deps_copy.deep_view().take(
                                t as int + 1,
                            ));
                        }
                        t = t + 1;
                    }
                    proof {
                        assert(deps_copy.deep_view().take(deps_copy.len() as int)
                            =~= deps_copy.deep_view());
                        assert(stack.deep_view() =~= s_mid + found@.entry.dependencies);
                        lemma_step_found(ee, root, r_old, v_old, s_old, dep_name@, found@);
                        let vd = visited.deep_view();
                        let rd = resolved.deep_view();
                        assert(rd == r_old.push(found@));
                        assert(vd == v_old.push(dep_name@));
                        assert(forall|k: int| 0 <= k < r_old.len() ==> rd[k] == #[trigger] r_old[
                            k]);
                        assert(rd[r_old.len() as int] == found@);
                        // names of collected entries stay visited
                        assert forall|k: int| 0 <= k < rd.len() implies vd.contains(
                            (#[trigger] rd[k]).entry.name) by {
                            if k < r_old.len() {
                                assert(v_old.contains(r_old[k].entry.name));
                                let j = choose|j: int|
                                    0 <= j < v_old.len() && v_old[j] == r_old[k].entry.name;
                                assert(vd[j] == r_old[k].entry.name);
                            } else {
                                assert(vd.last() == dep_name@);
                            }
                        }
                        // distinctness: the new name was never visited
                        assert forall|k1: int, k2: int| 0 <= k1 < k2 < rd.len() implies (
                        #[trigger] rd[k1]).entry.name != (#[trigger] rd[k2]).entry.name by {
                            if k2 == r_old.len() {
                                assert(v_old.contains(r_old[k1].entry.name));
                                assert(!v_old.contains(dep_name@));
                            }
                        }
                        // every visited name with a match is collected
                        assert forall|n2: Seq<char>| #[trigger] vd.contains(n2) && spec_best_match(
                            ee, n2, None) is Some implies exists|m: int|
                            0 <= m < rd.len() && (#[trigger] rd[m]).entry.name == n2 by {
                            lemma_drop_last_contains(vd, n2);
                            assert(vd.drop_last() =~= v_old);
                            if v_old.contains(n2) {
                                let m = choose|m: int|
                                    0 <= m < r_old.len() && (#[trigger] r_old[m]).entry.name
                                        == n2;
                                assert((#[trigger] rd[m]).entry.name == n2);
                            } else {
                                assert(n2 == dep_name@);
                                assert((#[trigger] rd[r_old.len() as int]).entry.name == n2);
                            }
                        }
                    }
                },
                None => {
                    proof {
                        lemma_best_match_is_max(ee, dep_name@, None, ee.len() as int);
                        lemma_step_unmatched(ee, root, r_old, v_old, s_old, dep_name@);
                        let vd = visited.deep_view();
                        let rd = resolved.deep_view();
                        assert(rd == r_old);
                        assert(vd == v_old.push(dep_name@));
                        assert forall|k: int| 0 <= k < rd.len() implies vd.contains(
                            (#[trigger] rd[k]).entry.name) by {
                            assert(v_old.contains(r_old[k].entry.name));
                            let j = choose|j: int|
                                0 <= j < v_old.len() && v_old[j] == r_old[k].entry.name;
                            assert(vd[j] == r_old[k].entry.name);
                        }
                        assert forall|n2: Seq<char>| #[trigger] vd.contains(n2)
                            && spec_best_match(ee, n2, None) is Some implies exists|m: int|
                            0 <= m < rd.len() && (#[trigger] rd[m]).entry.name == n2 by {
                            lemma_drop_last_contains(vd, n2);
                            assert(vd.drop_last() =~= v_old);
                            assert(v_old.contains(n2));
                        }
                    }
                },
            }
        } else {
            proof {
                lemma_step_seen(ee, root, r_old, v_old, s_old, dep_name@);
            }
        }
    }
    proof {
        assert(stack.deep_view().len() == 0);
        assert forall|n: Seq<char>|
            declared_by(entry@, resolved.deep_view(), n) && #[trigger] spec_best_match(
                index@.entries,
                n,
                None,
            ) is Some implies exists|m: int|
            0 <= m < resolved.deep_view().len() && (#[trigger] resolved.deep_view()[m]).entry.name
                == n by {
            assert(visited.deep_view().contains(n) || stack.deep_view().contains(n));
        }
        assert forall|k: int| 0 <= k < resolved.deep_view().len() implies declared_by(
            entry@,
            resolved.deep_view(),
            (#[trigger] resolved.deep_view()[k]).entry.name,
        ) by {
            assert(visited.deep_view().contains(resolved.deep_view()[k].entry.name));
        }
    }
    resolved
}

/// Invariant step: the popped name was already visited.
proof fn lemma_step_seen(
    ee: Seq<EntryWithSourceV>,
    root: EntryV,
    r_old: Seq<EntryWithSourceV>,
    v_old: Seq<Seq<char>>,
    s_old: Seq<Seq<char>>,
    n: Seq<char>,
)
    requires
        s_old.len() > 0,
        s_old.last() == n,
        v_old.contains(n),
    ensures
        forall|m: Seq<char>|
            v_old.contains(m) || s_old.contains(m) ==> v_old.contains(m) || s_old.drop_last(
            ).contains(m),
        index_names(ee).difference(v_old.to_set()).len() == index_names(ee).difference(
            v_old.to_set(),
        ).len(),
{
    assert forall|m: Seq<char>| v_old.contains(m) || s_old.contains(m) implies v_old.contains(m)
        || s_old.drop_last().contains(m) by {
        if !v_old.contains(m) && s_old.contains(m) {
            lemma_drop_last_contains(s_old, m);
            if m == s_old.last() {
                assert(v_old.contains(m));
            }
        }
    }
}

/// Invariant step: a new name was visited and matched.
proof fn lemma_step_found(
    ee: Seq<EntryWithSourceV>,
    root: EntryV,
    r_old: Seq<EntryWithSourceV>,
    v_old: Seq<Seq<char>>,
    s_old: Seq<Seq<char>>,
    n: Seq<char>,
    found: EntryWithSourceV,
)
    requires
        s_old.len() > 0,
        s_old.last() == n,
        !v_old.contains(n),
        found.entry.name == n,
        spec_best_match(ee, n, None) is Some,
        found == ee[spec_best_match(ee, n, None).unwrap()],
        forall|m: Seq<char>|
            #[trigger] declared_by(root, r_old, m) ==> v_old.contains(m) || s_old.contains(m),
        forall|m: Seq<char>|
            v_old.contains(m) || s_old.contains(m) ==> #[trigger] declared_by(root, r_old, m),
    ensures
        forall|m: Seq<char>|
            #[trigger] declared_by(root, r_old.push(found), m) ==> v_old.push(n).contains(m) || (
            s_old.drop_last() + found.entry.dependencies).contains(m),
        forall|m: Seq<char>|
            v_old.push(n).contains(m) || (s_old.drop_last() + found.entry.dependencies).contains(
                m,
            ) ==> #[trigger] declared_by(root, r_old.push(found), m),
        index_names(ee).difference(v_old.push(n).to_set()).len() < index_names(ee).difference(
            v_old.to_set(),
        ).len(),
{
    let v_new = v_old.push(n);
    let s_new = s_old.drop_last() + found.entry.dependencies;
    let r_new = r_old.push(found);
    assert forall|m: Seq<char>| #[trigger] declared_by(root, r_new, m) implies v_new.contains(m)
        || s_new.contains(m) by {
        if declared_by(root, r_old, m) {
            if v_old.contains(m) {
                let j = choose|j: int| 0 <= j < v_old.len() && v_old[j] == m;
                assert(v_new[j] == m);
            } else {
                assert(s_old.contains(m));
                lemma_drop_last_contains(s_old, m);
                if m == n {
                    assert(v_new.last() == n);
                } else {
                    let j = choose|j: int|
                        0 <= j < s_old.drop_last().len() && s_old.drop_last()[j] == m;
                    assert(s_new[j] == m);
                }
            }
        } else {
            let k = choose|k: int|
                0 <= k < r_new.len() && (#[trigger] r_new[k]).entry.dependencies.contains(m);
            assert(k == r_old.len());
            assert(found.entry.dependencies.contains(m));
            let j = choose|j: int|
                0 <= j < found.entry.dependencies.len() && found.entry.dependencies[j] == m;
            assert(s_new[s_old.drop_last().len() + j] == m);
        }
    }
    assert forall|m: Seq<char>| v_new.contains(m) || s_new.contains(m) implies
        #[trigger] declared_by(root, r_new, m) by {
        let widen = forall|k: int|
            0 <= k < r_old.len() ==> r_new[k] == #[trigger] r_old[k];
        assert(widen);
        if v_new.contains(m) {
            let j = choose|j: int| 0 <= j < v_new.len() && v_new[j] == m;
            if j < v_old.len() {
                assert(v_old[j] == m);
                assert(declared_by(root, r_old, m));
                lemma_declared_widen(root, r_old, found, m);
            } else {
                assert(m == n);
                assert(s_old.contains(n));
                assert(declared_by(root, r_old, n));
                lemma_declared_widen(root, r_old, found, m);
            }
        } else {
            let j = choose|j: int| 0 <= j < s_new.len() && s_new[j] == m;
            if j < s_old.drop_last().len() {
                assert(s_old[j] == m);
                assert(s_old.contains(m));
                assert(declared_by(root, r_old, m));
                lemma_declared_widen(root, r_old, found, m);
            } else {
                assert(found.entry.dependencies[j - s_old.drop_last().len()] == m);
                assert(found.entry.dependencies.contains(m));
                assert((#[trigger] r_new[r_old.len() as int]).entry.dependencies.contains(m));
            }
        }
    }
    // The visited set swallows one more index name.
    let names = index_names(ee);
    let b = spec_best_match(ee, n, None).unwrap();
    lemma_best_match_is_max(ee, n, None, ee.len() as int);
    assert(0 <= b < ee.len());
    assert(ee.map_values(|e: EntryWithSourceV| e.entry.name)[b] == n);
    assert(ee.map_values(|e: EntryWithSourceV| e.entry.name).contains(n));
    assert(names.contains(n));
    assert(!v_old.to_set().contains(n));
    let d_old = names.difference(v_old.to_set());
    let d_new = names.difference(v_new.to_set());
    assert(v_new.to_set() =~= v_old.to_set().insert(n)) by {
        assert forall|m: Seq<char>| v_new.contains(m) implies v_old.contains(m) || m == n by {
            lemma_drop_last_contains(v_new, m);
            assert(v_new.drop_last() =~= v_old);
        }
        assert(v_new.contains(n)) by {
            assert(v_new.last() == n);
        }
        assert(forall|m: Seq<char>| v_old.contains(m) ==> #[trigger] v_new.contains(m)) by {
            assert forall|m: Seq<char>| v_old.contains(m) implies #[trigger] v_new.contains(m) by {
                let j = choose|j: int| 0 <= j < v_old.len() && v_old[j] == m;
                assert(v_new[j] == m);
            }
        }
    }
    assert(d_new =~= d_old.remove(n));
    assert(d_old.finite());
    assert(d_old.contains(n));
    assert(d_new.len() == d_old.len() - 1);
}

/// A dependency declared against a shorter collection stays declared when
/// the collection grows.
proof fn lemma_declared_widen(
    root: EntryV,
    r_old: Seq<EntryWithSourceV>,
    found: EntryWithSourceV,
    m: Seq<char>,
)
    requires
        declared_by(root, r_old, m),
    ensures
        declared_by(root, r_old.push(found), m),
{
    if !root.dependencies.contains(m) {
        let k = choose|k: int|
            0 <= k < r_old.len() && (#[trigger] r_old[k]).entry.dependencies.contains(m);
        assert((#[trigger] r_old.push(found)[k]).entry.dependencies.contains(m));
    }
}

/// Invariant step: a new name was visited and found no match.
proof fn lemma_step_unmatched(
    ee: Seq<EntryWithSourceV>,
    root: EntryV,
    r_old: Seq<EntryWithSourceV>,
    v_old: Seq<Seq<char>>,
    s_old: Seq<Seq<char>>,
    n: Seq<char>,
)
    requires
        s_old.len() > 0,
        s_old.last() == n,
        !v_old.contains(n),
        spec_best_match(ee, n, None) is None,
        forall|j: int| 0 <= j < ee.len() ==> !sel_ok(#[trigger] ee[j], n, None),
    ensures
        forall|m: Seq<char>|
            v_old.contains(m) || s_old.contains(m) ==> v_old.push(n).contains(m)
                || s_old.drop_last().contains(m),
        forall|m: Seq<char>|
            v_old.push(n).contains(m) || s_old.drop_last().contains(m) ==> v_old.contains(m)
                || s_old.contains(m),
        index_names(ee).difference(v_old.push(n).to_set()).len() == index_names(ee).difference(
            v_old.to_set(),
        ).len(),
{
    let v_new = v_old.push(n);
    assert forall|m: Seq<char>| v_old.contains(m) || s_old.contains(m) implies v_new.contains(m)
        || s_old.drop_last().contains(m) by {
        if v_old.contains(m) {
            let j = choose|j: int| 0 <= j < v_old.len() && v_old[j] == m;
            assert(v_new[j] == m);
        } else {
            lemma_drop_last_contains(s_old, m);
            if m == n {
                assert(v_new.last() == n);
            }
        }
    }
    assert forall|m: Seq<char>| v_new.contains(m) || s_old.drop_last().contains(m) implies
        v_old.contains(m) || s_old.contains(m) by {
        if v_new.contains(m) && !v_old.contains(m) {
            lemma_drop_last_contains(v_new, m);
            assert(v_new.drop_last() =~= v_old);
            assert(m == n);
            assert(s_old.contains(n));
        }
        if s_old.drop_last().contains(m) {
            let j = choose|j: int|
                0 <= j < s_old.drop_last().len() && s_old.drop_last()[j] == m;
            assert(s_old[j] == m);
        }
    }
    // The new name is no index name, so the measure is unchanged.
    let names = index_names(ee);
    assert(!names.contains(n)) by {
        if names.contains(n) {
            let mapped = ee.map_values(|e: EntryWithSourceV| e.entry.name);
            assert(mapped.contains(n));
            let j = choose|j: int| 0 <= j < mapped.len() && mapped[j] == n;
            assert(ee[j].entry.name == n);
            assert(sel_ok(ee[j], n, None));
        }
    }
    assert(names.difference(v_new.to_set()) =~= names.difference(v_old.to_set())) by {
        assert forall|m: Seq<char>| v_new.contains(m) implies v_old.contains(m) || m == n by {
            lemma_drop_last_contains(v_new, m);
            assert(v_new.drop_last() =~= v_old);
        }
        assert forall|m: Seq<char>| v_old.contains(m) implies #[trigger] v_new.contains(m) by {
            let j = choose|j: int| 0 <= j < v_old.len() && v_old[j] == m;
            assert(v_new[j] == m);
        }
    }
}

} // verus!

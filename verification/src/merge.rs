use vstd::prelude::*;

use crate::error::GitError;
use crate::index::{lemma_pairs_map_dom, lemma_sorted_value, Index};
use crate::order::{strictly_sorted, texts, same_str, compare_chars, lemma_text_lt_irreflexive, lemma_text_lt_transitive, text_lt, TextOrder};
use crate::text::{chars_of, string_of};

verus! {

/// The value of `k` in `m`, if any.
pub open spec fn lookup(m: Map<Seq<char>, Seq<char>>, k: Seq<char>) -> Option<Seq<char>> {
    if m.contains_key(k) {
        Some(m[k])
    } else {
        None
    }
}

/// The three-way merge of one path: what the two sides agree on; else the
/// side that changed it, when the other left it as in the base; else a
/// conflict (`None`).  `Some(None)` means the path is left out.
pub open spec fn merge_value(
    base: Option<Seq<char>>,
    ours: Option<Seq<char>>,
    theirs: Option<Seq<char>>,
) -> Option<Option<Seq<char>>> {
    if ours == theirs {
        Some(ours)
    } else if ours == base {
        Some(theirs)
    } else if theirs == base {
        Some(ours)
    } else {
        None
    }
}

/// `merge_value` for the path `k` of three maps.
pub open spec fn merge_at(
    base: Map<Seq<char>, Seq<char>>,
    ours: Map<Seq<char>, Seq<char>>,
    theirs: Map<Seq<char>, Seq<char>>,
    k: Seq<char>,
) -> Option<Option<Seq<char>>> {
    merge_value(lookup(base, k), lookup(ours, k), lookup(theirs, k))
}

/// Some path is changed by both sides in different ways.
pub open spec fn has_conflict(
    base: Map<Seq<char>, Seq<char>>,
    ours: Map<Seq<char>, Seq<char>>,
    theirs: Map<Seq<char>, Seq<char>>,
) -> bool {
    exists|k: Seq<char>| #[trigger] merge_at(base, ours, theirs, k) is None
}

/// The merged tree: each path with the value `merge_value` keeps.
pub open spec fn merged(
    base: Map<Seq<char>, Seq<char>>,
    ours: Map<Seq<char>, Seq<char>>,
    theirs: Map<Seq<char>, Seq<char>>,
) -> Map<Seq<char>, Seq<char>> {
    Map::new(
        |k: Seq<char>| merge_at(base, ours, theirs, k) matches Some(Some(_)),
        |k: Seq<char>| merge_at(base, ours, theirs, k)->0->0,
    )
}

/// The outcome of a three-way merge: the merged tree, or `None` on a
/// conflict.
pub open spec fn merge_result(
    base: Map<Seq<char>, Seq<char>>,
    ours: Map<Seq<char>, Seq<char>>,
    theirs: Map<Seq<char>, Seq<char>>,
) -> Option<Map<Seq<char>, Seq<char>>> {
    if has_conflict(base, ours, theirs) {
        None
    } else {
        Some(merged(base, ours, theirs))
    }
}

/// The paths of an index, in order.
pub fn index_keys(idx: &Index) -> (r: Vec<String>)
    requires
        idx.wf(),
    ensures
        strictly_sorted(texts(r@)),
        forall|k: Seq<char>| #[trigger] texts(r@).contains(k) <==> idx@.contains_key(k),
{
    let es = idx.entries();
    let ghost s = idx.pairs();
    let mut r: Vec<String> = Vec::new();
    let mut i: usize = 0;
    while i < es.len()
        invariant
            i <= es.len(),
            s == es@.map_values(|e: (String, String)| (e.0@, e.1@)),
            s.len() == es.len(),
            crate::index::keys_sorted(s),
            texts(r@).len() == i,
            forall|j: int| 0 <= j < i ==> #[trigger] texts(r@)[j] == s[j].0,
        decreases es.len() - i,
    {
        let ghost before = texts(r@);
        r.push(es[i].0.clone());
        assert(texts(r@) =~= before.push(s[i as int].0));
        i = i + 1;
    }
    proof {
        let t = texts(r@);
        assert forall|a: int, b: int| 0 <= a < b < t.len() implies text_lt(#[trigger] t[a], #[trigger] t[b]) by {
            assert(t[a] == s[a].0 && t[b] == s[b].0);
        }
        assert forall|k: Seq<char>| #[trigger] t.contains(k) <==> idx@.contains_key(k) by {
            lemma_pairs_map_dom(s, k);
            if t.contains(k) {
                let j = choose|j: int| 0 <= j < t.len() && t[j] == k;
                assert(s[j].0 == k);
            }
            if idx@.contains_key(k) {
                let j = choose|j: int| 0 <= j < s.len() && #[trigger] s[j].0 == k;
                assert(t[j] == k);
            }
        }
    }
    r
}

/// The union of two strictly sorted lists of texts, strictly sorted.
pub fn union_sorted(a: &Vec<String>, b: &Vec<String>) -> (r: Vec<String>)
    requires
        strictly_sorted(texts(a@)),
        strictly_sorted(texts(b@)),
    ensures
        strictly_sorted(texts(r@)),
        forall|k: Seq<char>| #[trigger] texts(r@).contains(k) <==> (texts(a@).contains(k) || texts(
            b@,
        ).contains(k)),
{
    let ghost ta = texts(a@);
    let ghost tb = texts(b@);
    let mut r: Vec<String> = Vec::new();
    let mut i: usize = 0;
    let mut j: usize = 0;
    while i < a.len() || j < b.len()
        invariant
            i <= a.len(),
            j <= b.len(),
            ta == texts(a@),
            tb == texts(b@),
            strictly_sorted(ta),
            strictly_sorted(tb),
            strictly_sorted(texts(r@)),
            forall|k: Seq<char>| #[trigger] texts(r@).contains(k) <==> (ta.take(i as int).contains(k)
                || tb.take(j as int).contains(k)),
            forall|x: int|
                0 <= x < texts(r@).len() ==> (i < ta.len() ==> text_lt(
                    #[trigger] texts(r@)[x],
                    ta[i as int],
                )) && (j < tb.len() ==> text_lt(texts(r@)[x], tb[j as int])),
        decreases a.len() + b.len() - i - j,
    {
        let ghost before = texts(r@);
        let take_a: bool;
        let take_b: bool;
        if i == a.len() {
            take_a = false;
            take_b = true;
        } else if j == b.len() {
            take_a = true;
            take_b = false;
        } else {
            let ca = chars_of(a[i].as_str());
            let cb = chars_of(b[j].as_str());
            match compare_chars(&ca, &cb) {
                TextOrder::Less => {
                    take_a = true;
                    take_b = false;
                },
                TextOrder::Equal => {
                    take_a = true;
                    take_b = true;
                },
                TextOrder::Greater => {
                    take_a = false;
                    take_b = true;
                },
            }
        }
        let ghost x: Seq<char> = if take_a {
            ta[i as int]
        } else {
            tb[j as int]
        };
        if take_a {
            r.push(a[i].clone());
        } else {
            r.push(b[j].clone());
        }
        proof {
            let after = texts(r@);
            assert(after =~= before.push(x));
            if take_a {
                assert(ta.take(i + 1) =~= ta.take(i as int).push(ta[i as int]));
            }
            if take_b {
                assert(tb.take(j + 1) =~= tb.take(j as int).push(tb[j as int]));
            }
            let ni: int = if take_a { i + 1 } else { i as int };
            let nj: int = if take_b { j + 1 } else { j as int };
            assert forall|y: int| 0 <= y < after.len() implies (ni < ta.len() ==> text_lt(
                #[trigger] after[y],
                ta[ni],
            )) && (nj < tb.len() ==> text_lt(after[y], tb[nj])) by {
                if ni < ta.len() {
                    if take_a {
                        assert(text_lt(ta[i as int], ta[ni]));
                    } else {
                        assert(text_lt(tb[j as int], ta[ni]) || tb[j as int] == ta[ni]);
                    }
                    if y < before.len() {
                        assert(after[y] == before[y]);
                        if take_a {
                            lemma_text_lt_transitive(before[y], ta[i as int], ta[ni]);
                        }
                    }
                }
                if nj < tb.len() {
                    if take_b {
                        assert(text_lt(tb[j as int], tb[nj]));
                        if take_a {
                            assert(x == tb[j as int]);
                        }
                    }
                    if y < before.len() {
                        assert(after[y] == before[y]);
                        if take_b {
                            lemma_text_lt_transitive(before[y], tb[j as int], tb[nj]);
                        }
                    }
                }
            }
            assert forall|p: int, q: int| 0 <= p < q < after.len() implies text_lt(
                #[trigger] after[p],
                #[trigger] after[q],
            ) by {
                if q < before.len() {
                    assert(after[p] == before[p] && after[q] == before[q]);
                } else {
                    assert(after[p] == before[p]);
                }
            }
            assert forall|k: Seq<char>| #[trigger] after.contains(k) <==> (ta.take(ni).contains(k)
                || tb.take(nj).contains(k)) by {
                if after.contains(k) {
                    let y = choose|y: int| 0 <= y < after.len() && after[y] == k;
                    if y < before.len() {
                        assert(before[y] == k);
                        assert(before.contains(k));
                        if ta.take(i as int).contains(k) {
                            let z = choose|z: int| 0 <= z < i && ta.take(i as int)[z] == k;
                            assert(ta.take(ni)[z] == k);
                        } else {
                            let z = choose|z: int| 0 <= z < j && tb.take(j as int)[z] == k;
                            assert(tb.take(nj)[z] == k);
                        }
                    } else if take_a {
                        assert(ta.take(ni)[i as int] == k);
                    } else {
                        assert(tb.take(nj)[j as int] == k);
                    }
                }
                if ta.take(ni).contains(k) {
                    let z = choose|z: int| 0 <= z < ni && ta.take(ni)[z] == k;
                    if z < i {
                        assert(ta.take(i as int)[z] == k);
                        assert(before.contains(k));
                        let y = choose|y: int| 0 <= y < before.len() && before[y] == k;
                        assert(after[y] == k);
                    } else {
                        assert(after[before.len() as int] == k);
                    }
                }
                if tb.take(nj).contains(k) {
                    let z = choose|z: int| 0 <= z < nj && tb.take(nj)[z] == k;
                    if z < j {
                        assert(tb.take(j as int)[z] == k);
                        assert(before.contains(k));
                        let y = choose|y: int| 0 <= y < before.len() && before[y] == k;
                        assert(after[y] == k);
                    } else {
                        assert(after[before.len() as int] == k);
                    }
                }
            }
        }
        if take_a {
            i = i + 1;
        }
        if take_b {
            j = j + 1;
        }
    }
    assert(ta.take(i as int) =~= ta);
    assert(tb.take(j as int) =~= tb);
    r
}

/// A text is in a sequence with one more text pushed exactly when it is in
/// the sequence or is that text.
pub proof fn lemma_push_contains(s: Seq<Seq<char>>, x: Seq<char>)
    ensures
        forall|k: Seq<char>| #[trigger] s.push(x).contains(k) <==> (s.contains(k) || k == x),
{
    assert forall|k: Seq<char>| #[trigger] s.push(x).contains(k) <==> (s.contains(k) || k == x) by {
        if s.push(x).contains(k) {
            let y = choose|y: int| 0 <= y < s.push(x).len() && s.push(x)[y] == k;
            if y < s.len() {
                assert(s[y] == k);
            }
        }
        if s.contains(k) {
            let y = choose|y: int| 0 <= y < s.len() && s[y] == k;
            assert(s.push(x)[y] == k);
        }
        if k == x {
            assert(s.push(x)[s.len() as int] == k);
        }
    }
}

/// The text of an optional string.
pub open spec fn opt_text(o: Option<String>) -> Option<Seq<char>> {
    match o {
        Some(s) => Some(s@),
        None => None,
    }
}

fn same_text(a: &Option<String>, b: &Option<String>) -> (r: bool)
    ensures
        r == (opt_text(*a) == opt_text(*b)),
{
    match (a, b) {
        (Some(x), Some(y)) => *x == *y,
        (None, None) => true,
        _ => false,
    }
}

/// `merge_value` on optional strings: `None` on a conflict, else what the
/// path becomes.
pub fn merge_choice(base: Option<String>, ours: Option<String>, theirs: Option<String>) -> (r: Option<
    Option<String>,
>)
    ensures
        r is None ==> merge_value(opt_text(base), opt_text(ours), opt_text(theirs)) is None,
        r matches Some(x) ==> merge_value(opt_text(base), opt_text(ours), opt_text(theirs)) == Some(
            opt_text(x),
        ),
{
    if same_text(&ours, &theirs) {
        Some(ours)
    } else if same_text(&ours, &base) {
        Some(theirs)
    } else if same_text(&theirs, &base) {
        Some(ours)
    } else {
        None
    }
}

/// Merges the trees `ours` and `theirs` against their common ancestor
/// `base`, path by path as `merge_value` says.  Refused with the first
/// conflicting path, in path order, when some path conflicts.
pub fn three_way_merge(base: &Index, ours: &Index, theirs: &Index) -> (r: Result<Index, GitError>)
    requires
        base.wf(),
        ours.wf(),
        theirs.wf(),
    ensures
        r is Ok <==> !has_conflict(base@, ours@, theirs@),
        r matches Ok(m) ==> m.wf() && m@ == merged(base@, ours@, theirs@),
        r matches Err(e) ==> (e matches GitError::MergeConflict(k) && merge_at(
            base@,
            ours@,
            theirs@,
            k@,
        ) is None && forall|j: Seq<char>| text_lt(j, k@) ==> #[trigger] merge_at(
            base@,
            ours@,
            theirs@,
            j,
        ) is Some),
{
    let kb = index_keys(base);
    let ko = index_keys(ours);
    let kt = index_keys(theirs);
    let k1 = union_sorted(&kb, &ko);
    let keys = union_sorted(&k1, &kt);
    let ghost ks = texts(keys@);
    proof {
        assert forall|k: Seq<char>| #[trigger] merge_at(base@, ours@, theirs@, k) != Some(None::<Seq<char>>) implies ks.contains(k) by {
            if !base@.contains_key(k) && !ours@.contains_key(k) && !theirs@.contains_key(k) {
                assert(merge_at(base@, ours@, theirs@, k) == Some(None::<Seq<char>>));
            }
            assert(texts(kb@).contains(k) || texts(ko@).contains(k) || texts(kt@).contains(k));
            assert(texts(k1@).contains(k) || texts(kt@).contains(k));
        }
    }
    let mut out = Index::new();
    let mut i: usize = 0;
    while i < keys.len()
        invariant
            i <= keys.len(),
            ks == texts(keys@),
            strictly_sorted(ks),
            forall|k: Seq<char>| #[trigger] merge_at(base@, ours@, theirs@, k) != Some(None::<Seq<char>>) ==> ks.contains(k),
            base.wf(),
            ours.wf(),
            theirs.wf(),
            out.wf(),
            forall|x: int| 0 <= x < i ==> #[trigger] merge_at(base@, ours@, theirs@, ks[x]) is Some,
            out@ == Map::new(
                |k: Seq<char>| ks.take(i as int).contains(k) && merge_at(base@, ours@, theirs@, k) matches Some(Some(_)),
                |k: Seq<char>| merge_at(base@, ours@, theirs@, k)->0->0,
            ),
        decreases keys.len() - i,
    {
        let k = &keys[i];
        let ghost kv = ks[i as int];
        assert(k@ == kv);
        let b = base.get(k.as_str());
        let o = ours.get(k.as_str());
        let t = theirs.get(k.as_str());
        assert(opt_text(b) == lookup(base@, kv));
        assert(opt_text(o) == lookup(ours@, kv));
        assert(opt_text(t) == lookup(theirs@, kv));
        let ghost before = out@;
        assert(ks.take(i + 1) =~= ks.take(i as int).push(kv));
        proof {
            lemma_push_contains(ks.take(i as int), kv);
        }
        match merge_choice(b, o, t) {
            None => {
                proof {
                    assert forall|j: Seq<char>| text_lt(j, kv) implies #[trigger] merge_at(base@, ours@, theirs@, j) is Some by {
                        if merge_at(base@, ours@, theirs@, j) is None {
                            let y = choose|y: int| 0 <= y < ks.len() && ks[y] == j;
                            if y >= i {
                                lemma_text_lt_irreflexive(j);
                                if y > i {
                                    assert(text_lt(ks[i as int], ks[y]));
                                    crate::order::lemma_text_lt_total(j, kv);
                                }
                            }
                        }
                    }
                }
                return Err(GitError::MergeConflict(k.clone()));
            },
            Some(Some(v)) => {
                out.insert(k.clone(), v);
                assert(out@ =~= Map::new(
                    |k: Seq<char>| ks.take(i + 1).contains(k) && merge_at(base@, ours@, theirs@, k) matches Some(Some(_)),
                    |k: Seq<char>| merge_at(base@, ours@, theirs@, k)->0->0,
                ));
            },
            Some(None) => {
                assert(out@ =~= Map::new(
                    |k: Seq<char>| ks.take(i + 1).contains(k) && merge_at(base@, ours@, theirs@, k) matches Some(Some(_)),
                    |k: Seq<char>| merge_at(base@, ours@, theirs@, k)->0->0,
                ));
            },
        }
        i = i + 1;
    }
    proof {
        assert(ks.take(i as int) =~= ks);
        if has_conflict(base@, ours@, theirs@) {
            let k = choose|k: Seq<char>| #[trigger] merge_at(base@, ours@, theirs@, k) is None;
            assert(ks.contains(k));
            let x = choose|x: int| 0 <= x < ks.len() && ks[x] == k;
            assert(merge_at(base@, ours@, theirs@, ks[x]) is Some);
        }
        assert(out@ =~= merged(base@, ours@, theirs@));
    }
    Ok(out)
}

/// When both sides hold the same tree, the merge is that tree, whatever the
/// base.
pub proof fn law_merge_agreeing_sides(
    base: Map<Seq<char>, Seq<char>>,
    side: Map<Seq<char>, Seq<char>>,
)
    ensures
        merge_result(base, side, side) == Some(side),
{
    assert(!has_conflict(base, side, side));
    assert(merged(base, side, side) =~= side);
}

/// When our side is still the base, the merge is their tree.
pub proof fn law_merge_ours_unchanged(
    base: Map<Seq<char>, Seq<char>>,
    theirs: Map<Seq<char>, Seq<char>>,
)
    ensures
        merge_result(base, base, theirs) == Some(theirs),
{
    assert(!has_conflict(base, base, theirs));
    assert(merged(base, base, theirs) =~= theirs);
}

/// When their side is still the base, the merge is our tree.
pub proof fn law_merge_theirs_unchanged(
    base: Map<Seq<char>, Seq<char>>,
    ours: Map<Seq<char>, Seq<char>>,
)
    ensures
        merge_result(base, ours, base) == Some(ours),
{
    assert(!has_conflict(base, ours, base));
    assert(merged(base, ours, base) =~= ours);
}

/// The merge does not depend on which side is ours: swapping the sides
/// gives the same tree, and a conflict either way.
pub proof fn law_merge_symmetric(
    base: Map<Seq<char>, Seq<char>>,
    ours: Map<Seq<char>, Seq<char>>,
    theirs: Map<Seq<char>, Seq<char>>,
)
    ensures
        merge_result(base, ours, theirs) == merge_result(base, theirs, ours),
{
    assert forall|k: Seq<char>| #[trigger] merge_at(base, ours, theirs, k) == merge_at(base, theirs, ours, k) by {
    }
    if has_conflict(base, ours, theirs) {
        let k = choose|k: Seq<char>| #[trigger] merge_at(base, ours, theirs, k) is None;
        assert(merge_at(base, theirs, ours, k) is None);
    }
    if has_conflict(base, theirs, ours) {
        let k = choose|k: Seq<char>| #[trigger] merge_at(base, theirs, ours, k) is None;
        assert(merge_at(base, ours, theirs, k) is None);
    }
    assert(merged(base, ours, theirs) =~= merged(base, theirs, ours));
}

/// A path that only one side changed takes that side's value, and a path
/// that neither changed keeps the base's; so there is a conflict only where
/// both sides changed a path, and differently.
pub proof fn law_merge_conflict_needs_both_sides(
    base: Map<Seq<char>, Seq<char>>,
    ours: Map<Seq<char>, Seq<char>>,
    theirs: Map<Seq<char>, Seq<char>>,
    k: Seq<char>,
)
    ensures
        merge_at(base, ours, theirs, k) is None <==> (lookup(ours, k) != lookup(base, k) && lookup(
            theirs,
            k,
        ) != lookup(base, k) && lookup(ours, k) != lookup(theirs, k)),
        lookup(ours, k) == lookup(base, k) ==> merge_at(base, ours, theirs, k) == Some(
            lookup(theirs, k),
        ),
        lookup(theirs, k) == lookup(base, k) ==> merge_at(base, ours, theirs, k) == Some(
            lookup(ours, k),
        ),
{
}

/// Every path of a merged tree comes from one of the two sides, with that
/// side's object: the merge never revives what both sides dropped nor
/// makes up content.
pub proof fn law_merge_takes_from_sides(
    base: Map<Seq<char>, Seq<char>>,
    ours: Map<Seq<char>, Seq<char>>,
    theirs: Map<Seq<char>, Seq<char>>,
    k: Seq<char>,
)
    ensures
        merged(base, ours, theirs).contains_key(k) ==> Some(merged(base, ours, theirs)[k]) == lookup(
            ours,
            k,
        ) || Some(merged(base, ours, theirs)[k]) == lookup(theirs, k),
        !ours.contains_key(k) && !theirs.contains_key(k) ==> !merged(
            base,
            ours,
            theirs,
        ).contains_key(k),
{
}

/// How a merge proceeds once the merge base is known.
#[derive(PartialEq, Eq, Structural, Clone, Copy, Debug)]
pub enum MergeKind {
    /// Our branch is the base: it moves to their commit.
    FastForward,
    /// Their commit is the base: there is nothing to merge.
    UpToDate,
    /// Both sides moved on: their trees are merged against the base's.
    ThreeWay,
}

/// Decides how to merge `theirs` into `ours` given their merge base; there
/// is no merge without a common ancestor.
pub fn merge_kind(base: &Option<String>, ours: &str, theirs: &str) -> (r: Result<MergeKind, GitError>)
    ensures
        base is None ==> r == Err::<MergeKind, GitError>(GitError::NoCommonAncestor),
        base matches Some(b) ==> r == Ok::<MergeKind, GitError>(
            if b@ == ours@ {
                MergeKind::FastForward
            } else if b@ == theirs@ {
                MergeKind::UpToDate
            } else {
                MergeKind::ThreeWay
            },
        ),
{
    match base {
        None => Err(GitError::NoCommonAncestor),
        Some(b) => {
            if same_str(b.as_str(), ours) {
                Ok(MergeKind::FastForward)
            } else if same_str(b.as_str(), theirs) {
                Ok(MergeKind::UpToDate)
            } else {
                Ok(MergeKind::ThreeWay)
            }
        },
    }
}

/// One step of the search for the merge base along the first parents of
/// their commit.
#[derive(PartialEq, Eq, Debug)]
pub enum BaseStep {
    /// The candidate is one of our ancestors: it is the merge base.
    Found(String),
    /// The candidate is not: read it, and go on with its first parent.
    Read(String),
    /// Their history ends without meeting ours.
    Exhausted,
}

/// Whether `id` is among `ids`.
pub fn contains_text(ids: &Vec<String>, id: &str) -> (b: bool)
    ensures
        b == texts(ids@).contains(id@),
{
    let mut i: usize = 0;
    while i < ids.len()
        invariant
            i <= ids.len(),
            forall|j: int| 0 <= j < i ==> #[trigger] texts(ids@)[j] != id@,
        decreases ids.len() - i,
    {
        if same_str(ids[i].as_str(), id) {
            assert(texts(ids@)[i as int] == id@);
            return true;
        }
        i = i + 1;
    }
    false
}

/// Decides the next step of the merge-base search: `ancestors` are our
/// commit and its first parents, `candidate` the next commit on their side
/// (their commit first, then each first parent in turn).
pub fn base_step(ancestors: &Vec<String>, candidate: Option<String>) -> (r: BaseStep)
    ensures
        candidate is None ==> r == BaseStep::Exhausted,
        candidate matches Some(c) ==> (texts(ancestors@).contains(c@) ==> r == BaseStep::Found(c)),
        candidate matches Some(c) ==> (!texts(ancestors@).contains(c@) ==> r == BaseStep::Read(c)),
{
    match candidate {
        None => BaseStep::Exhausted,
        Some(c) => {
            if contains_text(ancestors, c.as_str()) {
                BaseStep::Found(c)
            } else {
                BaseStep::Read(c)
            }
        },
    }
}

} // verus!

use vstd::prelude::*;

use crate::index::{law_index_listing_determined, Index};
use crate::refs::{branch_head_text_of, checkout_target_of};
use crate::text::trim;
use crate::index_text::{index_of_text, is_word, law_index_text_roundtrip, render};
use crate::merge::{index_keys, lookup, opt_text, union_sorted};
use crate::order::{same_str, strictly_sorted, text_lt, texts};

verus! {

/// How a path differs between two states.
#[derive(PartialEq, Eq, Structural, Clone, Copy, Debug)]
pub enum ChangeKind {
    NewFile,
    Deleted,
    Modified,
}

/// A path and how it changed.
#[derive(Debug)]
pub struct Change {
    pub kind: ChangeKind,
    pub path: String,
}

/// How a path changed from the HEAD tree (`head`) to the index (`staged`):
/// not at all, added, taken out, or given another object.
pub open spec fn change_of(head: Option<Seq<char>>, staged: Option<Seq<char>>) -> Option<ChangeKind> {
    if head == staged {
        None
    } else if head is None {
        Some(ChangeKind::NewFile)
    } else if staged is None {
        Some(ChangeKind::Deleted)
    } else {
        Some(ChangeKind::Modified)
    }
}

/// The paths of a list of changes.
pub open spec fn change_paths(r: Seq<Change>) -> Seq<Seq<char>> {
    r.map_values(|c: Change| c.path@)
}

fn change_for(h: Option<String>, s: Option<String>) -> (r: Option<ChangeKind>)
    ensures
        r == change_of(opt_text(h), opt_text(s)),
{
    match (&h, &s) {
        (Some(a), Some(b)) => {
            if same_str(a.as_str(), b.as_str()) {
                None
            } else {
                Some(ChangeKind::Modified)
            }
        },
        (None, Some(_)) => Some(ChangeKind::NewFile),
        (Some(_), None) => Some(ChangeKind::Deleted),
        (None, None) => None,
    }
}

/// The changes to be committed: every path whose entry differs between the
/// HEAD tree and the index, once, in path order, with how it changed.
pub fn staged_changes(head: &Index, index: &Index) -> (r: Vec<Change>)
    requires
        head.wf(),
        index.wf(),
    ensures
        strictly_sorted(change_paths(r@)),
        forall|i: int|
            0 <= i < r@.len() ==> Some(#[trigger] r@[i].kind) == change_of(
                lookup(head@, r@[i].path@),
                lookup(index@, r@[i].path@),
            ),
        forall|k: Seq<char>|
            #[trigger] change_of(lookup(head@, k), lookup(index@, k)) is Some ==> change_paths(
                r@,
            ).contains(k),
{
    let kh = index_keys(head);
    let ki = index_keys(index);
    let keys = union_sorted(&kh, &ki);
    let ghost ks = texts(keys@);
    let mut out: Vec<Change> = Vec::new();
    let mut i: usize = 0;
    while i < keys.len()
        invariant
            i <= keys.len(),
            ks == texts(keys@),
            strictly_sorted(ks),
            head.wf(),
            index.wf(),
            strictly_sorted(change_paths(out@)),
            forall|a: int, j: int|
                0 <= a < out@.len() && i <= j < ks.len() ==> text_lt(
                    #[trigger] change_paths(out@)[a],
                    #[trigger] ks[j],
                ),
            forall|a: int|
                0 <= a < out@.len() ==> Some(#[trigger] out@[a].kind) == change_of(
                    lookup(head@, out@[a].path@),
                    lookup(index@, out@[a].path@),
                ),
            forall|x: int|
                0 <= x < i ==> (#[trigger] change_of(lookup(head@, ks[x]), lookup(index@, ks[x]))
                    is Some ==> change_paths(out@).contains(ks[x])),
        decreases keys.len() - i,
    {
        let k = &keys[i];
        let h = head.get(k.as_str());
        let s = index.get(k.as_str());
        let ghost before = out@;
        match change_for(h, s) {
            Some(kind) => {
                out.push(Change { kind, path: k.clone() });
                proof {
                    let ps = change_paths(out@);
                    let pb = change_paths(before);
                    assert(ps =~= pb.push(ks[i as int]));
                    assert forall|a: int, b: int| 0 <= a < b < ps.len() implies text_lt(
                        #[trigger] ps[a],
                        #[trigger] ps[b],
                    ) by {
                        if b < pb.len() {
                            assert(ps[a] == pb[a] && ps[b] == pb[b]);
                        } else {
                            assert(ps[a] == pb[a]);
                            assert(text_lt(pb[a], ks[i as int]));
                        }
                    }
                    assert forall|a: int, j: int| 0 <= a < out@.len() && i + 1 <= j < ks.len() implies text_lt(
                        #[trigger] ps[a],
                        #[trigger] ks[j],
                    ) by {
                        if a < pb.len() {
                            assert(ps[a] == pb[a]);
                            assert(text_lt(pb[a], ks[j]));
                        } else {
                            assert(text_lt(ks[i as int], ks[j]));
                        }
                    }
                    assert forall|x: int| 0 <= x < i + 1 && #[trigger] change_of(
                        lookup(head@, ks[x]),
                        lookup(index@, ks[x]),
                    ) is Some implies ps.contains(ks[x]) by {
                        if x < i {
                            let y = choose|y: int| 0 <= y < pb.len() && pb[y] == ks[x];
                            assert(ps[y] == ks[x]);
                        } else {
                            assert(ps[pb.len() as int] == ks[x]);
                        }
                    }
                    assert forall|a: int| 0 <= a < out@.len() implies Some(#[trigger] out@[a].kind)
                        == change_of(lookup(head@, out@[a].path@), lookup(index@, out@[a].path@)) by {
                        if a < before.len() {
                            assert(out@[a] == before[a]);
                        }
                    }
                }
            },
            None => {
                proof {
                    assert forall|a: int, j: int| 0 <= a < out@.len() && i + 1 <= j < ks.len() implies text_lt(
                        #[trigger] change_paths(out@)[a],
                        #[trigger] ks[j],
                    ) by {
                        assert(text_lt(change_paths(out@)[a], ks[j]));
                    }
                }
            },
        }
        i = i + 1;
    }
    proof {
        assert forall|k: Seq<char>| #[trigger] change_of(lookup(head@, k), lookup(index@, k)) is Some implies change_paths(
            out@,
        ).contains(k) by {
            assert(head@.contains_key(k) || index@.contains_key(k));
            assert(texts(kh@).contains(k) || texts(ki@).contains(k));
            assert(ks.contains(k));
            let x = choose|x: int| 0 <= x < ks.len() && ks[x] == k;
            assert(change_of(lookup(head@, ks[x]), lookup(index@, ks[x])) is Some);
        }
    }
    out
}

/// There is nothing to commit exactly when the index holds the HEAD tree.
pub proof fn law_clean_iff_same(head: Map<Seq<char>, Seq<char>>, staged: Map<Seq<char>, Seq<char>>)
    ensures
        (forall|k: Seq<char>| #[trigger] change_of(lookup(head, k), lookup(staged, k)) is None)
            <==> head == staged,
{
    if forall|k: Seq<char>| #[trigger] change_of(lookup(head, k), lookup(staged, k)) is None {
        assert forall|k: Seq<char>| #[trigger] head.contains_key(k) == staged.contains_key(k) by {
            assert(change_of(lookup(head, k), lookup(staged, k)) is None);
        }
        assert forall|k: Seq<char>| #[trigger] head.contains_key(k) implies head[k] == staged[k] by {
            assert(change_of(lookup(head, k), lookup(staged, k)) is None);
        }
        assert(head =~= staged);
    }
}

/// How a staged file differs in the working tree, given the id of its
/// content there (`None` when there is no such file): taken out, given
/// other content, or not at all.
pub open spec fn worktree_change_of(staged: Seq<char>, worktree: Option<Seq<char>>) -> Option<
    ChangeKind,
> {
    match worktree {
        None => Some(ChangeKind::Deleted),
        Some(w) => if w == staged {
            None
        } else {
            Some(ChangeKind::Modified)
        },
    }
}

/// The change not staged for one staged path, as `worktree_change_of`
/// says.
pub fn worktree_change(staged: &str, worktree: &Option<String>) -> (r: Option<ChangeKind>)
    ensures
        r == worktree_change_of(staged@, opt_text(*worktree)),
{
    match worktree {
        None => Some(ChangeKind::Deleted),
        Some(w) => if same_str(w.as_str(), staged) {
            None
        } else {
            Some(ChangeKind::Modified)
        },
    }
}

/// The paths that checking out `tree` takes out of the working tree: the
/// staged ones it does not hold, in path order.
pub fn stale_paths(index: &Index, tree: &Index) -> (r: Vec<String>)
    requires
        index.wf(),
        tree.wf(),
    ensures
        strictly_sorted(texts(r@)),
        forall|k: Seq<char>| #[trigger] texts(r@).contains(k) <==> (index@.contains_key(k)
            && !tree@.contains_key(k)),
{
    let keys = index_keys(index);
    let ghost ks = texts(keys@);
    let mut out: Vec<String> = Vec::new();
    let mut i: usize = 0;
    while i < keys.len()
        invariant
            i <= keys.len(),
            ks == texts(keys@),
            strictly_sorted(ks),
            tree.wf(),
            forall|k: Seq<char>| #[trigger] ks.contains(k) <==> index@.contains_key(k),
            strictly_sorted(texts(out@)),
            forall|a: int, j: int|
                0 <= a < out@.len() && i <= j < ks.len() ==> text_lt(
                    #[trigger] texts(out@)[a],
                    #[trigger] ks[j],
                ),
            forall|k: Seq<char>| #[trigger] texts(out@).contains(k) <==> (ks.take(i as int).contains(k)
                && !tree@.contains_key(k)),
        decreases keys.len() - i,
    {
        let ghost before = texts(out@);
        assert(ks.take(i + 1) =~= ks.take(i as int).push(ks[i as int]));
        proof {
            crate::merge::lemma_push_contains(ks.take(i as int), ks[i as int]);
        }
        if !tree.contains_key(keys[i].as_str()) {
            out.push(keys[i].clone());
            proof {
                let after = texts(out@);
                assert(after =~= before.push(ks[i as int]));
                crate::merge::lemma_push_contains(before, ks[i as int]);
                assert forall|a: int, b: int| 0 <= a < b < after.len() implies text_lt(
                    #[trigger] after[a],
                    #[trigger] after[b],
                ) by {
                    if b < before.len() {
                        assert(after[a] == before[a] && after[b] == before[b]);
                    } else {
                        assert(after[a] == before[a]);
                        assert(text_lt(before[a], ks[i as int]));
                    }
                }
                assert forall|a: int, j: int| 0 <= a < after.len() && i + 1 <= j < ks.len() implies text_lt(
                    #[trigger] after[a],
                    #[trigger] ks[j],
                ) by {
                    if a < before.len() {
                        assert(after[a] == before[a]);
                        assert(text_lt(before[a], ks[j]));
                    } else {
                        assert(text_lt(ks[i as int], ks[j]));
                    }
                }
            }
        } else {
            proof {
                assert forall|a: int, j: int| 0 <= a < before.len() && i + 1 <= j < ks.len() implies text_lt(
                    #[trigger] before[a],
                    #[trigger] ks[j],
                ) by {
                    assert(text_lt(before[a], ks[j]));
                }
            }
        }
        i = i + 1;
    }
    assert(ks.take(i as int) =~= ks);
    out
}

/// Right after a commit, the tree it wrote, read back, is the index, so
/// there is nothing left to commit; provided every path and object id is a
/// non-empty text without white space.
pub proof fn law_nothing_staged_after_commit(idx: &Index)
    requires
        idx.wf(),
        forall|k: Seq<char>| #[trigger] idx@.contains_key(k) ==> is_word(k) && is_word(idx@[k]),
    ensures
        index_of_text(render(idx.pairs())) matches Some(head) && forall|k: Seq<char>|
            #[trigger] change_of(lookup(head, k), lookup(idx@, k)) is None,
{
    law_index_text_roundtrip(idx);
}

/// Checking out a branch `x` again after another branch `y`, with the branch
/// files and objects unchanged, ends as it began when HEAD named `x` and the
/// index held `x`'s tree: the checkout goes to the commit `x`'s file names,
/// writes the same HEAD text, reads the same tree, writes the same index
/// text, and takes out of the working tree exactly the paths of `y`'s tree
/// that `x`'s lacks.
pub proof fn law_checkout_round_trip(
    x: Seq<char>,
    x_branch_text: Seq<char>,
    x_tree_text: Seq<char>,
    head_before: Seq<char>,
    index_before: &Index,
    y_tree: &Index,
    x_tree_again: &Index,
)
    requires
        index_before.wf(),
        y_tree.wf(),
        x_tree_again.wf(),
        head_before == branch_head_text_of(x),
        index_of_text(x_tree_text) == Some(index_before@),
        index_of_text(x_tree_text) == Some(x_tree_again@),
    ensures
        checkout_target_of(x, true, x_branch_text) == (trim(x_branch_text), head_before),
        x_tree_again@ == index_before@,
        render(x_tree_again.pairs()) == render(index_before.pairs()),
        forall|k: Seq<char>|
            (#[trigger] y_tree@.contains_key(k) && !x_tree_again@.contains_key(k)) <==> (
            y_tree@.contains_key(k) && !index_before@.contains_key(k)),
{
    law_index_listing_determined(x_tree_again, index_before);
}

/// How a path changed is decided by where it is: held only by the index,
/// it is a new file; held only by the HEAD tree, it was deleted; held by
/// both with different objects, it was modified; held alike by both, or by
/// neither, it did not change.
pub proof fn law_change_kinds(head: Option<Seq<char>>, staged: Option<Seq<char>>)
    ensures
        head is None && staged is Some ==> change_of(head, staged) == Some(ChangeKind::NewFile),
        head is Some && staged is None ==> change_of(head, staged) == Some(ChangeKind::Deleted),
        head is Some && staged is Some && head != staged ==> change_of(head, staged) == Some(
            ChangeKind::Modified,
        ),
        change_of(head, staged) is None <==> head == staged,
{
}

/// A staged file whose working copy has content of another id is modified,
/// whichever id is the greater; one whose working copy has the staged id is
/// unchanged; a missing one is deleted.
pub proof fn law_worktree_change_kinds(staged: Seq<char>, worktree: Option<Seq<char>>)
    ensures
        worktree is None ==> worktree_change_of(staged, worktree) == Some(ChangeKind::Deleted),
        worktree matches Some(w) ==> (w != staged ==> worktree_change_of(staged, worktree) == Some(
            ChangeKind::Modified,
        )),
        worktree_change_of(staged, worktree) is None <==> worktree == Some(staged),
{
}

} // verus!

use vstd::prelude::*;

use crate::index::{without_prefix, Index};
use crate::index_text::is_word;
use crate::objects::{object_id, object_id_of};
use crate::text::{chars_of, starts_with};

verus! {

/// Stages a file: its path now maps to the id of its content.
pub fn add_file(index: &mut Index, path: String, content: &[u8])
    requires
        old(index).wf(),
    ensures
        final(index).wf(),
        final(index)@ == old(index)@.insert(path@, object_id_of(content@)),
        is_word(object_id_of(content@)),
        object_id_of(content@).len() == 40,
{
    let id = object_id(content);
    index.insert(path, id);
}

/// The prefix of the paths under the directory `p`: `p` ended by the path
/// separator `sep`.
pub open spec fn dir_prefix(p: Seq<char>, sep: char) -> Seq<char> {
    if p.len() > 0 && p.last() == sep {
        p
    } else {
        p.push(sep)
    }
}

/// Whether unstaging `p` (a file or not) keeps the entry for `k`: it keeps
/// every other path, and for a directory none under it.
pub open spec fn kept_by(p: Seq<char>, is_file: bool, sep: char, k: Seq<char>) -> bool {
    k != p && (is_file || !starts_with(k, dir_prefix(p, sep)))
}

/// The index once `p` is unstaged: its own entry goes, and unless it is a
/// file, so does every entry under it as a directory.
pub open spec fn unstaged(m: Map<Seq<char>, Seq<char>>, p: Seq<char>, is_file: bool, sep: char) -> Map<
    Seq<char>,
    Seq<char>,
> {
    if is_file {
        m.remove(p)
    } else {
        without_prefix(m.remove(p), dir_prefix(p, sep))
    }
}

/// The index once each target is unstaged in turn.
pub open spec fn unstaged_all(
    m: Map<Seq<char>, Seq<char>>,
    targets: Seq<(Seq<char>, bool)>,
    sep: char,
) -> Map<Seq<char>, Seq<char>>
    decreases targets.len(),
{
    if targets.len() == 0 {
        m
    } else {
        let t = targets.last();
        unstaged(unstaged_all(m, targets.drop_last(), sep), t.0, t.1, sep)
    }
}

/// Unstages `path`; `is_file` tells whether it names an existing file, and
/// `sep` is the platform's path separator (`std::path::MAIN_SEPARATOR`).
pub fn unstage_path(index: &mut Index, path: &str, is_file: bool, sep: char)
    requires
        old(index).wf(),
    ensures
        final(index).wf(),
        final(index)@ == unstaged(old(index)@, path@, is_file, sep),
{
    index.remove(path);
    if !is_file {
        let mut prefix = chars_of(path);
        if prefix.len() == 0 || prefix[prefix.len() - 1] != sep {
            prefix.push(sep);
        }
        index.remove_prefixed(&prefix);
    }
}

/// Unstages each target in turn: a path, and whether it names an existing
/// file; `sep` is the platform's path separator.
pub fn rm_cache(index: &mut Index, targets: &Vec<(String, bool)>, sep: char)
    requires
        old(index).wf(),
    ensures
        final(index).wf(),
        final(index)@ == unstaged_all(
            old(index)@,
            targets@.map_values(|t: (String, bool)| (t.0@, t.1)),
            sep,
        ),
{
    let ghost ts = targets@.map_values(|t: (String, bool)| (t.0@, t.1));
    let mut i: usize = 0;
    assert(ts.take(0) =~= Seq::<(Seq<char>, bool)>::empty());
    while i < targets.len()
        invariant
            i <= targets.len(),
            ts == targets@.map_values(|t: (String, bool)| (t.0@, t.1)),
            index.wf(),
            index@ == unstaged_all(old(index)@, ts.take(i as int), sep),
        decreases targets.len() - i,
    {
        unstage_path(index, targets[i].0.as_str(), targets[i].1, sep);
        assert(ts.take(i + 1).drop_last() =~= ts.take(i as int));
        assert(ts.take(i + 1).last() == ts[i as int]);
        i = i + 1;
    }
    assert(ts.take(i as int) =~= ts);
}

/// Unstaging takes out the path, and for a directory everything under it,
/// and leaves every other entry as it was.
pub proof fn law_unstage_removes(m: Map<Seq<char>, Seq<char>>, p: Seq<char>, is_file: bool, sep: char)
    ensures
        !unstaged(m, p, is_file, sep).contains_key(p),
        !is_file ==> forall|k: Seq<char>|
            #[trigger] unstaged(m, p, is_file, sep).contains_key(k) ==> !starts_with(
                k,
                dir_prefix(p, sep),
            ),
        forall|k: Seq<char>|
            #[trigger] m.contains_key(k) && k != p && (is_file || !starts_with(k, dir_prefix(p, sep)))
                ==> unstaged(m, p, is_file, sep).contains_key(k) && unstaged(m, p, is_file, sep)[k]
                == m[k],
        forall|k: Seq<char>| #[trigger]
            unstaged(m, p, is_file, sep).contains_key(k) ==> m.contains_key(k) && unstaged(
                m,
                p,
                is_file,
                sep,
            )[k] == m[k],
{
}

/// Staging a file and then unstaging it leaves it unstaged.
pub proof fn law_add_then_unstage(
    m: Map<Seq<char>, Seq<char>>,
    p: Seq<char>,
    content: Seq<u8>,
    sep: char,
)
    ensures
        !unstaged(m.insert(p, object_id_of(content)), p, true, sep).contains_key(p),
        unstaged(m.insert(p, object_id_of(content)), p, true, sep) == m.remove(p),
{
    assert(m.insert(p, object_id_of(content)).remove(p) =~= m.remove(p));
}

/// Whether every target keeps the entry for `k`.
pub open spec fn kept_by_all(targets: Seq<(Seq<char>, bool)>, sep: char, k: Seq<char>) -> bool {
    forall|i: int| 0 <= i < targets.len() ==> kept_by(#[trigger] targets[i].0, targets[i].1, sep, k)
}

/// Unstaging a list of targets keeps exactly the entries that every target
/// keeps, each with its value.
pub proof fn lemma_unstaged_all_keeps(
    m: Map<Seq<char>, Seq<char>>,
    targets: Seq<(Seq<char>, bool)>,
    sep: char,
)
    ensures
        unstaged_all(m, targets, sep) == Map::new(
            |k: Seq<char>| m.contains_key(k) && kept_by_all(targets, sep, k),
            |k: Seq<char>| m[k],
        ),
    decreases targets.len(),
{
    let r = Map::new(
        |k: Seq<char>| m.contains_key(k) && kept_by_all(targets, sep, k),
        |k: Seq<char>| m[k],
    );
    if targets.len() == 0 {
        assert(unstaged_all(m, targets, sep) =~= r);
    } else {
        let d = targets.drop_last();
        let t = targets.last();
        lemma_unstaged_all_keeps(m, d, sep);
        assert forall|k: Seq<char>| kept_by_all(targets, sep, k) == (kept_by_all(d, sep, k)
            && kept_by(t.0, t.1, sep, k)) by {
            if kept_by_all(d, sep, k) && kept_by(t.0, t.1, sep, k) {
                assert forall|i: int| 0 <= i < targets.len() implies kept_by(
                    #[trigger] targets[i].0,
                    targets[i].1,
                    sep,
                    k,
                ) by {
                    if i < d.len() {
                        assert(targets[i] == d[i]);
                    }
                }
            }
            if kept_by_all(targets, sep, k) {
                assert(kept_by(targets[targets.len() - 1].0, targets[targets.len() - 1].1, sep, k));
                assert forall|i: int| 0 <= i < d.len() implies kept_by(#[trigger] d[i].0, d[i].1, sep, k) by {
                    assert(targets[i] == d[i]);
                }
            }
        }
        assert(unstaged_all(m, targets, sep) =~= r);
    }
}

/// Unstaging the same targets twice leaves the index as unstaging them
/// once.
pub proof fn law_unstage_idempotent(
    m: Map<Seq<char>, Seq<char>>,
    targets: Seq<(Seq<char>, bool)>,
    sep: char,
)
    ensures
        unstaged_all(unstaged_all(m, targets, sep), targets, sep) == unstaged_all(m, targets, sep),
{
    lemma_unstaged_all_keeps(m, targets, sep);
    lemma_unstaged_all_keeps(unstaged_all(m, targets, sep), targets, sep);
    assert(unstaged_all(unstaged_all(m, targets, sep), targets, sep) =~= unstaged_all(
        m,
        targets,
        sep,
    ));
}

/// Unstaging a joined list of targets is unstaging the first part, then the
/// second.
pub proof fn law_unstage_concat(
    m: Map<Seq<char>, Seq<char>>,
    a: Seq<(Seq<char>, bool)>,
    b: Seq<(Seq<char>, bool)>,
    sep: char,
)
    ensures
        unstaged_all(m, a + b, sep) == unstaged_all(unstaged_all(m, a, sep), b, sep),
    decreases b.len(),
{
    if b.len() == 0 {
        assert(a + b =~= a);
    } else {
        assert((a + b).drop_last() =~= a + b.drop_last());
        assert((a + b).last() == b.last());
        law_unstage_concat(m, a, b.drop_last(), sep);
    }
}

/// The prefix cleared when unstaging a directory is the directory's path
/// ended by the separator: the path itself when it already ends so, else
/// the path with one separator added; it begins with the path and ends with
/// the separator.  So unstaging `/w/src/foo/`
/// keeps `/w/src/foo.rs`, and every entry outside the directory stays.
pub proof fn law_dir_prefix(
    m: Map<Seq<char>, Seq<char>>,
    p: Seq<char>,
    sep: char,
)
    ensures
        p.len() > 0 && p.last() == sep ==> dir_prefix(p, sep) == p,
        p.len() == 0 || p.last() != sep ==> dir_prefix(p, sep) == p + seq![sep],
        starts_with(dir_prefix(p, sep), p),
        dir_prefix(p, sep).len() > 0 && dir_prefix(p, sep).last() == sep,
        p.len() <= dir_prefix(p, sep).len() <= p.len() + 1,
        forall|k: Seq<char>|
            #[trigger] m.contains_key(k) && k != p && !starts_with(k, dir_prefix(p, sep))
                ==> unstaged(m, p, false, sep).contains_key(k) && unstaged(m, p, false, sep)[k]
                == m[k],
        forall|k: Seq<char>|
            #[trigger] unstaged(m, p, false, sep).contains_key(k) ==> !starts_with(
                k,
                dir_prefix(p, sep),
            ) && k != p,
{
    let d = dir_prefix(p, sep);
    assert(d.take(p.len() as int) =~= p);
}

} // verus!

use vstd::prelude::*;

use crate::error::GitError;
use crate::index_text::is_word;
use crate::text::{
    chars_of, has_prefix, is_space, push_str, starts_with, string_of, sub_chars, trim, trim_chars,
    trim_end, trim_start, trim_str,
};

verus! {

/// `ref: `, the tag of a HEAD that names a branch.
pub open spec fn ref_tag() -> Seq<char> {
    seq!['r', 'e', 'f', ':', ' ']
}

/// `refs/heads/`, the directory of the branches, relative to the
/// repository.
pub open spec fn heads_prefix() -> Seq<char> {
    seq!['r', 'e', 'f', 's', '/', 'h', 'e', 'a', 'd', 's', '/']
}

/// What HEAD holds.
#[derive(PartialEq, Eq, Debug)]
pub enum Head {
    /// HEAD names a branch by the path of its file, relative to the
    /// repository (`refs/heads/<name>`).
    Branch(String),
    /// HEAD holds a commit id directly (or nothing); the text is HEAD
    /// trimmed.
    Detached(String),
}

/// Whether a HEAD text names a branch.
pub open spec fn names_branch(text: Seq<char>) -> bool {
    starts_with(trim(text), ref_tag())
}

/// The branch path that a HEAD text names.
pub open spec fn branch_path_of(text: Seq<char>) -> Seq<char> {
    trim(text).skip(5)
}

/// Reads HEAD: trimmed, it either begins with `ref: ` and names a branch
/// by the rest, or it holds a commit id (or nothing) by itself.
pub fn parse_head(text: &str) -> (h: Head)
    ensures
        h matches Head::Branch(p) ==> names_branch(text@) && p@ == branch_path_of(text@),
        h matches Head::Detached(t) ==> !names_branch(text@) && t@ == trim(text@),
{
    let cs = chars_of(text);
    let t = trim_chars(&cs);
    let tag: Vec<char> = vec!['r', 'e', 'f', ':', ' '];
    assert(tag@ =~= ref_tag());
    if has_prefix(&t, &tag) {
        let rest = sub_chars(&t, 5, t.len());
        assert(rest@ =~= t@.skip(5));
        Head::Branch(string_of(rest.as_slice()))
    } else {
        Head::Detached(string_of(t.as_slice()))
    }
}

/// Reads a reference file: the commit id it holds, trimmed, or `None` when
/// it holds only white space.
pub fn ref_target(text: &str) -> (r: Option<String>)
    ensures
        r is None <==> trim(text@).len() == 0,
        r matches Some(id) ==> id@ == trim(text@),
{
    let cs = chars_of(text);
    let t = trim_chars(&cs);
    if t.len() == 0 {
        None
    } else {
        Some(string_of(t.as_slice()))
    }
}

/// The text of a reference file that points at a commit: the id and a line
/// feed.
pub open spec fn ref_text_of(id: Seq<char>) -> Seq<char> {
    id + seq!['\n']
}

/// Writes a reference file that points at `id`.
pub fn ref_text(id: &str) -> (r: String)
    ensures
        r@ == ref_text_of(id@),
{
    let mut out = chars_of(id);
    out.push('\n');
    string_of(out.as_slice())
}

/// The text of a HEAD that names the branch `name`.
pub open spec fn branch_head_text_of(name: Seq<char>) -> Seq<char> {
    ref_tag() + heads_prefix() + name + seq!['\n']
}

/// Writes a HEAD that names the branch `name`.
pub fn branch_head_text(name: &str) -> (r: String)
    ensures
        r@ == branch_head_text_of(name@),
{
    let mut out: Vec<char> = vec!['r', 'e', 'f', ':', ' ', 'r', 'e', 'f', 's', '/', 'h', 'e', 'a', 'd', 's', '/'];
    assert(out@ =~= ref_tag() + heads_prefix());
    push_str(&mut out, name);
    out.push('\n');
    string_of(out.as_slice())
}

/// Position just after the last `/` of `p`, or 0 when there is none.
pub open spec fn last_segment_start(p: Seq<char>) -> nat
    decreases p.len(),
{
    if p.len() == 0 {
        0
    } else if p.last() == '/' {
        p.len()
    } else {
        last_segment_start(p.drop_last())
    }
}

/// `last_segment_start` is within the path, follows a `/` when it is not 0,
/// and no `/` comes after it.
pub proof fn lemma_last_segment_start(p: Seq<char>)
    ensures
        last_segment_start(p) <= p.len(),
        last_segment_start(p) > 0 ==> p[last_segment_start(p) - 1] == '/',
        forall|i: int| last_segment_start(p) <= i < p.len() ==> #[trigger] p[i] != '/',
    decreases p.len(),
{
    if p.len() > 0 && p.last() != '/' {
        lemma_last_segment_start(p.drop_last());
        assert forall|i: int| last_segment_start(p) <= i < p.len() implies #[trigger] p[i] != '/' by {
            if i < p.len() - 1 {
                assert(p[i] == p.drop_last()[i]);
            }
        }
    }
}

/// The final component of a `/`-separated path, as `Path::file_name` gives
/// it on Unix: empty and `.` components are skipped, and there is none when
/// the path is empty, is only a root, or ends in `..`.
pub open spec fn file_name_of(p: Seq<char>) -> Option<Seq<char>>
    decreases p.len(),
{
    let k = last_segment_start(p);
    let seg = p.skip(k as int);
    if p.len() == 0 {
        None
    } else if seg.len() == 0 || seg == seq!['.'] {
        if k == 0 {
            None
        } else {
            proof {
                lemma_last_segment_start(p);
            }
            file_name_of(p.take(k - 1))
        }
    } else if seg == seq!['.', '.'] {
        None
    } else {
        Some(seg)
    }
}

/// The final component of a path, as `file_name_of` describes it.
pub fn file_name(path: &str) -> (r: Option<String>)
    ensures
        r matches Some(n) ==> file_name_of(path@) == Some(n@),
        r is None ==> file_name_of(path@) is None,
{
    let p = chars_of(path);
    let mut end: usize = p.len();
    assert(p@.take(end as int) =~= p@);
    while end > 0
        invariant
            end <= p.len(),
            p@ == path@,
            file_name_of(p@) == file_name_of(p@.take(end as int)),
        decreases end,
    {
        let ghost q = p@.take(end as int);
        let mut k: usize = end;
        assert(q.take(k as int) =~= q);
        while k > 0 && p[k - 1] != '/'
            invariant
                k <= end <= p.len(),
                q == p@.take(end as int),
                last_segment_start(q) == last_segment_start(q.take(k as int)),
            decreases k,
        {
            assert(q.take(k as int).drop_last() =~= q.take(k - 1));
            k = k - 1;
        }
        assert(q.len() == end && end > 0);
        if k > 0 {
            assert(q.take(k as int).last() == '/');
        }
        assert(last_segment_start(q) == k) by {
            if k == 0 {
                assert(q.take(0).len() == 0);
            }
        }
        let seg = sub_chars(&p, k, end);
        assert(seg@ =~= q.skip(k as int));
        let is_dot = seg.len() == 1 && seg[0] == '.';
        let is_dotdot = seg.len() == 2 && seg[0] == '.' && seg[1] == '.';
        if seg.len() == 0 || is_dot {
            if is_dot {
                assert(seg@ =~= seq!['.']);
            }
            if k == 0 {
                if !is_dot {
                    assert(q.len() == 0);
                }
                return None;
            }
            assert(p@.take(k - 1) =~= q.take(k - 1));
            end = k - 1;
        } else if is_dotdot {
            assert(seg@ =~= seq!['.', '.']);
            return None;
        } else {
            assert(seg@ != seq!['.']);
            assert(seg@ != seq!['.', '.']);
            return Some(string_of(seg.as_slice()));
        }
    }
    assert(p@.take(0).len() == 0);
    None
}

/// The name of the branch that a HEAD text names, if it names one and the
/// branch path has a final component.
pub open spec fn current_branch_of(text: Seq<char>) -> Option<Seq<char>> {
    if names_branch(text) {
        file_name_of(branch_path_of(text))
    } else {
        None
    }
}

/// The name of the branch checked out, as `current_branch_of` describes it.
pub fn current_branch(head_text: &str) -> (r: Option<String>)
    ensures
        r matches Some(n) ==> current_branch_of(head_text@) == Some(n@),
        r is None ==> current_branch_of(head_text@) is None,
{
    match parse_head(head_text) {
        Head::Branch(p) => file_name(p.as_str()),
        Head::Detached(_) => None,
    }
}

/// The branch that a command working on the current branch works on: the
/// final component of the branch path that HEAD names, or, when that path
/// has none, the whole trimmed HEAD text.  A detached HEAD is refused.
pub fn branch_to_update(head_text: &str) -> (r: Result<String, GitError>)
    ensures
        r matches Ok(n) ==> names_branch(head_text@) && match file_name_of(
            branch_path_of(head_text@),
        ) {
            Some(f) => n@ == f,
            None => n@ == trim(head_text@),
        },
        r matches Err(e) ==> !names_branch(head_text@) && (e matches GitError::Detached(t) && t@
            == trim(head_text@)),
{
    match parse_head(head_text) {
        Head::Branch(p) => match file_name(p.as_str()) {
            Some(n) => Ok(n),
            None => Ok(trim_str(head_text)),
        },
        Head::Detached(t) => Err(GitError::Detached(t)),
    }
}

/// Decides whether a new branch may be made: not when one of its name
/// exists, nor before the first commit.  Otherwise the branch file gets the
/// commit that HEAD names.
pub fn branch_create(name: &str, exists: bool, head_commit: Option<String>) -> (r: Result<
    String,
    GitError,
>)
    ensures
        exists ==> (r matches Err(GitError::BranchExists(n)) && n@ == name@),
        !exists && head_commit is None ==> r == Err::<String, GitError>(GitError::NoCommit),
        !exists && head_commit is Some ==> r == Ok::<String, GitError>(head_commit->0),
{
    if exists {
        return Err(GitError::BranchExists(string_of(chars_of(name).as_slice())));
    }
    match head_commit {
        Some(h) => Ok(h),
        None => Err(GitError::NoCommit),
    }
}

/// Decides whether a branch may be deleted: it must exist and must not be
/// the branch checked out.
pub fn branch_delete(name: &str, exists: bool, head_text: &str) -> (r: Result<(), GitError>)
    ensures
        !exists ==> (r matches Err(GitError::NoSuchBranch(n)) && n@ == name@),
        exists && current_branch_of(head_text@) == Some(name@) ==> r == Err::<(), GitError>(
            GitError::CurrentBranch,
        ),
        exists && current_branch_of(head_text@) != Some(name@) ==> r is Ok,
{
    if !exists {
        return Err(GitError::NoSuchBranch(string_of(chars_of(name).as_slice())));
    }
    match current_branch(head_text) {
        Some(cur) => {
            let a = chars_of(cur.as_str());
            let b = chars_of(name);
            if crate::order::compare_chars(&a, &b) == crate::order::TextOrder::Equal {
                Err(GitError::CurrentBranch)
            } else {
                Ok(())
            }
        },
        None => Ok(()),
    }
}

/// What checking out `name` does to HEAD: when a branch of that name
/// exists, HEAD names it and the commit is the one its file holds
/// (trimmed); otherwise `name` is taken for a commit id and HEAD holds it
/// directly.  The commit id and the new HEAD text.
pub open spec fn checkout_target_of(name: Seq<char>, branch_exists: bool, branch_text: Seq<char>) -> (
    Seq<char>,
    Seq<char>,
) {
    if branch_exists {
        (trim(branch_text), branch_head_text_of(name))
    } else {
        (name, ref_text_of(name))
    }
}

/// Gives the commit to check out and the new HEAD text, as
/// `checkout_target_of` describes them.
pub fn checkout_target(name: &str, branch_exists: bool, branch_text: &str) -> (r: (String, String))
    ensures
        (r.0@, r.1@) == checkout_target_of(name@, branch_exists, branch_text@),
{
    if branch_exists {
        (trim_str(branch_text), branch_head_text(name))
    } else {
        (string_of(chars_of(name).as_slice()), ref_text(name))
    }
}

proof fn lemma_trim_word_line(w: Seq<char>)
    requires
        w.len() > 0,
        !is_space(w[0]),
        !is_space(w[w.len() - 1]),
    ensures
        trim(w + seq!['\n']) == w,
{
    let t = w + seq!['\n'];
    assert(!is_space(w[0]));
    assert(t[0] == w[0]);
    assert(trim_start(t) == t);
    assert(t.drop_last() =~= w);
    assert(is_space(t.last()));
    assert(!is_space(w[w.len() - 1]));
    assert(trim_end(w) == w);
}

proof fn lemma_last_segment_of_name(dir: Seq<char>, name: Seq<char>)
    requires
        dir.len() > 0,
        dir.last() == '/',
        forall|i: int| 0 <= i < name.len() ==> #[trigger] name[i] != '/',
    ensures
        last_segment_start(dir + name) == dir.len(),
    decreases name.len(),
{
    if name.len() == 0 {
        assert(dir + name =~= dir);
    } else {
        assert((dir + name).drop_last() =~= dir + name.drop_last());
        assert((dir + name).last() == name.last());
        assert(name[name.len() - 1] != '/');
        lemma_last_segment_of_name(dir, name.drop_last());
    }
}

/// A reference file written by `ref_text` reads back as the id it points
/// at, and as a HEAD it is detached at that id, provided the id is a
/// non-empty text without white space.
pub proof fn law_ref_text_roundtrip(id: Seq<char>)
    requires
        is_word(id),
    ensures
        trim(ref_text_of(id)) == id,
        trim(ref_text_of(id)).len() > 0,
        !names_branch(ref_text_of(id)),
{
    assert(!is_space(id[0]));
    assert(!is_space(id[id.len() - 1]));
    lemma_trim_word_line(id);
    if id.len() >= 5 {
        assert(!is_space(id[4]));
        assert(id.take(5)[4] != ref_tag()[4]);
    }
}

/// A HEAD written by `branch_head_text` reads back as naming that branch,
/// and the branch checked out is `name`, provided the name is a non-empty
/// text without white space or `/` and is neither `.` nor `..`.
pub proof fn law_branch_head_roundtrip(name: Seq<char>)
    requires
        is_word(name),
        forall|i: int| 0 <= i < name.len() ==> #[trigger] name[i] != '/',
        name != seq!['.'],
        name != seq!['.', '.'],
    ensures
        names_branch(branch_head_text_of(name)),
        branch_path_of(branch_head_text_of(name)) == heads_prefix() + name,
        current_branch_of(branch_head_text_of(name)) == Some(name),
{
    let pre = ref_tag() + heads_prefix();
    let body = pre + name;
    let lit = seq!['r', 'e', 'f', ':', ' ', 'r', 'e', 'f', 's', '/', 'h', 'e', 'a', 'd', 's', '/'];
    assert(pre =~= lit);
    assert(body[0] == 'r');
    assert(body[body.len() - 1] == name[name.len() - 1]);
    assert(branch_head_text_of(name) =~= body + seq!['\n']);
    lemma_trim_word_line(body);
    assert(body.take(5) =~= ref_tag());
    let path = heads_prefix() + name;
    assert(body.skip(5) =~= path);
    lemma_last_segment_of_name(heads_prefix(), name);
    assert(path.skip(11) =~= name);
}

/// Checking out a name that is no branch detaches HEAD at exactly that
/// name, written out in full and ended by a newline, and the name becomes
/// the commit; checking out a branch points HEAD at it
/// (`ref: refs/heads/<name>`), so that HEAD then names that branch, at the
/// commit its file holds.
pub proof fn law_checkout_target(name: Seq<char>, branch_text: Seq<char>)
    ensures
        checkout_target_of(name, false, branch_text).0 == name,
        checkout_target_of(name, false, branch_text).1 == name + seq!['\n'],
        checkout_target_of(name, true, branch_text).0 == trim(branch_text),
        checkout_target_of(name, true, branch_text).1 == seq![
            'r', 'e', 'f', ':', ' ', 'r', 'e', 'f', 's', '/', 'h', 'e', 'a', 'd', 's', '/',
        ] + name + seq!['\n'],
        is_word(name) ==> {
            let (c, h) = checkout_target_of(name, false, branch_text);
            &&& c == name
            &&& !names_branch(h)
            &&& trim(h) == name
        },
        (is_word(name) && (forall|i: int| 0 <= i < name.len() ==> #[trigger] name[i] != '/')
            && name != seq!['.'] && name != seq!['.', '.']) ==> {
            let (c, h) = checkout_target_of(name, true, branch_text);
            &&& c == trim(branch_text)
            &&& names_branch(h)
            &&& current_branch_of(h) == Some(name)
        },
{
    assert(ref_tag() + heads_prefix() =~= seq![
        'r', 'e', 'f', ':', ' ', 'r', 'e', 'f', 's', '/', 'h', 'e', 'a', 'd', 's', '/',
    ]);
    if is_word(name) {
        law_ref_text_roundtrip(name);
    }
    if is_word(name) && (forall|i: int| 0 <= i < name.len() ==> #[trigger] name[i] != '/') && name
        != seq!['.'] && name != seq!['.', '.'] {
        law_branch_head_roundtrip(name);
    }
}

} // verus!

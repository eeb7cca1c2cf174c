use vstd::prelude::*;

use crate::error::GitError;
use crate::index::Index;
use crate::index_text::{is_word, render, render_index};
use crate::objects::{object_id_of, text_id};
use crate::text::{
    chars_of, has_prefix, is_space, lemma_find_newline, lines, push_chars, push_str, split_lines,
    starts_with, string_of, strip_cr, sub_chars, trim, trim_chars, trim_end, trim_start,
};

verus! {

/// `tree `, the tag of the line that names a commit's tree.
pub open spec fn tree_tag() -> Seq<char> {
    seq!['t', 'r', 'e', 'e', ' ']
}

/// `parent `, the tag of the line that names a commit's first parent.
pub open spec fn parent_tag() -> Seq<char> {
    seq!['p', 'a', 'r', 'e', 'n', 't', ' ']
}

/// `parent1 `, the tag of the line that names a merge commit's second parent.
pub open spec fn second_parent_tag() -> Seq<char> {
    seq!['p', 'a', 'r', 'e', 'n', 't', '1', ' ']
}

/// `message `, the tag of the line that holds a commit's message.
pub open spec fn message_tag() -> Seq<char> {
    seq!['m', 'e', 's', 's', 'a', 'g', 'e', ' ']
}

/// A tagged line of a commit: the tag, the value, a line feed.
pub open spec fn tagged_line(tag: Seq<char>, value: Seq<char>) -> Seq<char> {
    tag + value + seq!['\n']
}

/// The text of a commit: its tree, then its parent and its message when it
/// has them, each on a line of its own.
pub open spec fn commit_text_of(
    tree: Seq<char>,
    parent: Option<Seq<char>>,
    message: Option<Seq<char>>,
) -> Seq<char> {
    tagged_line(tree_tag(), tree) + match parent {
        Some(p) => tagged_line(parent_tag(), p),
        None => Seq::empty(),
    } + match message {
        Some(m) => tagged_line(message_tag(), m),
        None => Seq::empty(),
    }
}

/// The text of a merge commit: its tree, the commit merged into, the commit
/// merged, and the message `merge <into> <from>` followed by an empty line.
pub open spec fn merge_commit_text_of(
    tree: Seq<char>,
    ours: Seq<char>,
    theirs: Seq<char>,
    into_branch: Seq<char>,
    from_branch: Seq<char>,
) -> Seq<char> {
    tagged_line(tree_tag(), tree) + tagged_line(parent_tag(), ours) + tagged_line(
        second_parent_tag(),
        theirs,
    ) + tagged_line(
        message_tag(),
        seq!['m', 'e', 'r', 'g', 'e', ' '] + into_branch + seq![' '] + from_branch + seq!['\n'],
    )
}

fn tag_of(which: u8) -> (t: Vec<char>)
    requires
        which < 4,
    ensures
        which == 0 ==> t@ == tree_tag(),
        which == 1 ==> t@ == parent_tag(),
        which == 2 ==> t@ == second_parent_tag(),
        which == 3 ==> t@ == message_tag(),
{
    let t: Vec<char> = if which == 0 {
        vec!['t', 'r', 'e', 'e', ' ']
    } else if which == 1 {
        vec!['p', 'a', 'r', 'e', 'n', 't', ' ']
    } else if which == 2 {
        vec!['p', 'a', 'r', 'e', 'n', 't', '1', ' ']
    } else {
        vec!['m', 'e', 's', 's', 'a', 'g', 'e', ' ']
    };
    assert(which == 0 ==> t@ =~= tree_tag());
    assert(which == 1 ==> t@ =~= parent_tag());
    assert(which == 2 ==> t@ =~= second_parent_tag());
    assert(which == 3 ==> t@ =~= message_tag());
    t
}

fn push_tagged(out: &mut Vec<char>, which: u8, value: &Vec<char>)
    requires
        which < 4,
    ensures
        which == 0 ==> final(out)@ == old(out)@ + tagged_line(tree_tag(), value@),
        which == 1 ==> final(out)@ == old(out)@ + tagged_line(parent_tag(), value@),
        which == 2 ==> final(out)@ == old(out)@ + tagged_line(second_parent_tag(), value@),
        which == 3 ==> final(out)@ == old(out)@ + tagged_line(message_tag(), value@),
{
    let ghost before = out@;
    let t = tag_of(which);
    push_chars(out, &t);
    push_chars(out, value);
    out.push('\n');
    assert(out@ =~= before + (t@ + value@ + seq!['\n']));
}

/// Writes the text of a commit.
pub fn commit_text(tree: &str, parent: &Option<String>, message: &Option<String>) -> (r: String)
    ensures
        r@ == commit_text_of(
            tree@,
            match parent {
                Some(p) => Some(p@),
                None => None,
            },
            match message {
                Some(m) => Some(m@),
                None => None,
            },
        ),
{
    let mut out: Vec<char> = Vec::new();
    push_tagged(&mut out, 0, &chars_of(tree));
    let ghost a = out@;
    match parent {
        Some(p) => {
            push_tagged(&mut out, 1, &chars_of(p.as_str()));
        },
        None => {},
    }
    let ghost b = out@;
    match message {
        Some(m) => {
            push_tagged(&mut out, 3, &chars_of(m.as_str()));
        },
        None => {},
    }
    assert(out@ =~= a + (b.skip(a.len() as int)) + out@.skip(b.len() as int));
    string_of(out.as_slice())
}

/// Writes the text of a merge commit.
pub fn merge_commit_text(
    tree: &str,
    ours: &str,
    theirs: &str,
    into_branch: &str,
    from_branch: &str,
) -> (r: String)
    ensures
        r@ == merge_commit_text_of(tree@, ours@, theirs@, into_branch@, from_branch@),
{
    let mut out: Vec<char> = Vec::new();
    push_tagged(&mut out, 0, &chars_of(tree));
    push_tagged(&mut out, 1, &chars_of(ours));
    push_tagged(&mut out, 2, &chars_of(theirs));
    let mut msg: Vec<char> = vec!['m', 'e', 'r', 'g', 'e', ' '];
    push_str(&mut msg, into_branch);
    msg.push(' ');
    push_str(&mut msg, from_branch);
    msg.push('\n');
    push_tagged(&mut out, 3, &msg);
    assert(msg@ =~= seq!['m', 'e', 'r', 'g', 'e', ' '] + into_branch@ + seq![' '] + from_branch@
        + seq!['\n']);
    let ghost e = merge_commit_text_of(tree@, ours@, theirs@, into_branch@, from_branch@);
    assert(out@ =~= e);
    string_of(out.as_slice())
}

/// The tree that a commit's lines name: the trimmed rest of the last line
/// that begins with `tree `, or the empty text when none does.
pub open spec fn tree_of_lines(ls: Seq<Seq<char>>) -> Seq<char>
    decreases ls.len(),
{
    if ls.len() == 0 {
        Seq::empty()
    } else if starts_with(ls.last(), tree_tag()) {
        trim(ls.last().skip(5))
    } else {
        tree_of_lines(ls.drop_last())
    }
}

/// The first parent that a commit's lines name: the trimmed rest of the
/// first line that begins with `parent `, if any.
pub open spec fn parent_of_lines(ls: Seq<Seq<char>>) -> Option<Seq<char>>
    decreases ls.len(),
{
    if ls.len() == 0 {
        None
    } else if starts_with(ls[0], parent_tag()) {
        Some(trim(ls[0].skip(7)))
    } else {
        parent_of_lines(ls.drop_first())
    }
}

/// The tree a commit text names.
pub open spec fn commit_tree_of(text: Seq<char>) -> Seq<char> {
    tree_of_lines(lines(text))
}

/// The first parent a commit text names.
pub open spec fn commit_parent_of(text: Seq<char>) -> Option<Seq<char>> {
    parent_of_lines(lines(text))
}

/// Reads the tree that a commit names.
pub fn commit_tree(text: &str) -> (r: String)
    ensures
        r@ == commit_tree_of(text@),
{
    let cs = chars_of(text);
    let ls = split_lines(&cs);
    let ghost lv = ls@.map_values(|l: Vec<char>| l@);
    let tag = tag_of(0);
    let mut tree: Vec<char> = Vec::new();
    let mut i: usize = 0;
    assert(lv.take(0) =~= Seq::<Seq<char>>::empty());
    while i < ls.len()
        invariant
            i <= ls.len(),
            lv == ls@.map_values(|l: Vec<char>| l@),
            tag@ == tree_tag(),
            tree@ == tree_of_lines(lv.take(i as int)),
        decreases ls.len() - i,
    {
        assert(lv.take(i + 1).drop_last() =~= lv.take(i as int));
        assert(lv.take(i + 1).last() == ls@[i as int]@);
        if has_prefix(&ls[i], &tag) {
            let rest = sub_chars(&ls[i], 5, ls[i].len());
            assert(rest@ =~= ls@[i as int]@.skip(5));
            tree = trim_chars(&rest);
        }
        i = i + 1;
    }
    assert(lv.take(i as int) =~= lv);
    string_of(tree.as_slice())
}

/// Reads the first parent that a commit names, if any.
pub fn commit_parent(text: &str) -> (r: Option<String>)
    ensures
        r matches Some(p) ==> commit_parent_of(text@) == Some(p@),
        r is None ==> commit_parent_of(text@) is None,
{
    let cs = chars_of(text);
    let ls = split_lines(&cs);
    let ghost lv = ls@.map_values(|l: Vec<char>| l@);
    let tag = tag_of(1);
    let mut i: usize = 0;
    assert(lv.skip(0) =~= lv);
    while i < ls.len()
        invariant
            i <= ls.len(),
            lv == ls@.map_values(|l: Vec<char>| l@),
            lv == lines(text@),
            tag@ == parent_tag(),
            parent_of_lines(lv) == parent_of_lines(lv.skip(i as int)),
        decreases ls.len() - i,
    {
        assert(lv.skip(i as int)[0] == ls@[i as int]@);
        if has_prefix(&ls[i], &tag) {
            let rest = sub_chars(&ls[i], 7, ls[i].len());
            assert(rest@ =~= ls@[i as int]@.skip(7));
            let p = trim_chars(&rest);
            assert(lv.skip(i as int).len() > 0);
            assert(starts_with(lv.skip(i as int)[0], parent_tag()));
            assert(parent_of_lines(lv.skip(i as int)) == Some(trim(lv.skip(i as int)[0].skip(7))));
            return Some(string_of(p.as_slice()));
        }
        assert(lv.skip(i as int).drop_first() =~= lv.skip(i + 1));
        i = i + 1;
    }
    assert(lv.skip(i as int) =~= Seq::<Seq<char>>::empty());
    None
}

/// A text without line feeds.
pub open spec fn single_line(t: Seq<char>) -> bool {
    forall|i: int| 0 <= i < t.len() ==> #[trigger] t[i] != '\n'
}

proof fn lemma_lines_cons(l: Seq<char>, rest: Seq<char>)
    requires
        single_line(l),
    ensures
        lines(l + seq!['\n'] + rest) == seq![strip_cr(l)] + lines(rest),
{
    let whole = l + seq!['\n'] + rest;
    assert forall|k: int| 0 <= k < l.len() implies #[trigger] whole[k] != '\n' by {
        assert(whole[k] == l[k]);
    }
    assert(whole[l.len() as int] == '\n');
    lemma_find_newline(whole, l.len() as int);
    assert(whole.take(l.len() as int) =~= l);
    assert(whole.skip(l.len() as int + 1) =~= rest);
}

proof fn lemma_trim_word(w: Seq<char>)
    requires
        is_word(w),
    ensures
        trim(w) == w,
{
    assert(!is_space(w[0]));
    assert(trim_start(w) == w);
    assert(!is_space(w[w.len() - 1]));
    assert(trim_end(w) == w);
}

proof fn lemma_tagged_single(tag: Seq<char>, v: Seq<char>)
    requires
        single_line(tag),
        single_line(v),
    ensures
        single_line(tag + v),
{
    assert forall|i: int| 0 <= i < (tag + v).len() implies #[trigger] (tag + v)[i] != '\n' by {
        if i < tag.len() {
            assert((tag + v)[i] == tag[i]);
        } else {
            assert((tag + v)[i] == v[i - tag.len()]);
        }
    }
}

proof fn lemma_word_single(w: Seq<char>)
    requires
        is_word(w),
    ensures
        single_line(w),
        w.last() != '\r',
{
    assert forall|i: int| 0 <= i < w.len() implies #[trigger] w[i] != '\n' by {
        assert(!is_space(w[i]));
    }
    assert(!is_space(w[w.len() - 1]));
}

/// The line of a tag and a word, read back: it begins with the tag and the
/// rest, trimmed, is the word.
proof fn lemma_tagged_word(tag: Seq<char>, w: Seq<char>)
    requires
        single_line(tag),
        is_word(w),
    ensures
        single_line(tag + w),
        strip_cr(tag + w) == tag + w,
        starts_with(tag + w, tag),
        trim((tag + w).skip(tag.len() as int)) == w,
{
    lemma_word_single(w);
    lemma_tagged_single(tag, w);
    assert((tag + w).last() == w.last());
    assert((tag + w).take(tag.len() as int) =~= tag);
    assert((tag + w).skip(tag.len() as int) =~= w);
    lemma_trim_word(w);
}

/// A commit written by `commit_text` reads back with the tree and the first
/// parent it was written with, provided the tree and the parent are
/// non-empty texts without white space and the message is a single line.
#[verifier::spinoff_prover]
#[verifier::rlimit(40)]
pub proof fn law_commit_text_roundtrip(
    tree: Seq<char>,
    parent: Option<Seq<char>>,
    message: Option<Seq<char>>,
)
    requires
        is_word(tree),
        parent matches Some(p) ==> is_word(p),
        message matches Some(m) ==> single_line(m),
    ensures
        commit_tree_of(commit_text_of(tree, parent, message)) == tree,
        commit_parent_of(commit_text_of(tree, parent, message)) == parent,
{
    assert(single_line(tree_tag()));
    assert(single_line(parent_tag()));
    assert(single_line(message_tag()));
    lemma_tagged_word(tree_tag(), tree);
    let tl = tree_tag() + tree;
    let pl: Seq<Seq<char>> = match parent {
        Some(p) => {
            lemma_tagged_word(parent_tag(), p);
            seq![parent_tag() + p]
        },
        None => seq![],
    };
    let ml: Seq<Seq<char>> = match message {
        Some(m) => {
            lemma_tagged_single(message_tag(), m);
            seq![strip_cr(message_tag() + m)]
        },
        None => seq![],
    };
    let ptext: Seq<char> = match parent {
        Some(p) => tagged_line(parent_tag(), p),
        None => Seq::empty(),
    };
    let mtext: Seq<char> = match message {
        Some(m) => tagged_line(message_tag(), m),
        None => Seq::empty(),
    };
    let text = commit_text_of(tree, parent, message);
    assert(lines(mtext) == ml) by {
        if let Some(m) = message {
            lemma_lines_cons(message_tag() + m, Seq::empty());
            assert(message_tag() + m + seq!['\n'] + Seq::<char>::empty() =~= mtext);
        }
    }
    assert(lines(ptext + mtext) == pl + ml) by {
        if let Some(p) = parent {
            lemma_lines_cons(parent_tag() + p, mtext);
            assert(parent_tag() + p + seq!['\n'] + mtext =~= ptext + mtext);
        } else {
            assert(ptext + mtext =~= mtext);
            assert(pl + ml =~= ml);
        }
    }
    lemma_lines_cons(tl, ptext + mtext);
    assert(tl + seq!['\n'] + (ptext + mtext) =~= text);
    let ls = seq![tl] + (pl + ml);
    assert(lines(text) == ls);
    let tl_last: Seq<Seq<char>> = seq![tl];
    assert(tree_of_lines(tl_last) == tree) by {
        assert(tl_last.last() == tl);
        assert(tl.skip(5) =~= (tree_tag() + tree).skip(tree_tag().len() as int));
    }
    assert(!starts_with(tl, parent_tag())) by {
        lemma_first_differs(tl, parent_tag());
    }
    if let Some(m) = message {
        let l = strip_cr(message_tag() + m);
        assert(l[0] == 'm');
        lemma_first_differs(l, tree_tag());
        lemma_first_differs(l, parent_tag());
    }
    if let Some(p) = parent {
        assert(!starts_with(parent_tag() + p, tree_tag())) by {
            lemma_first_differs(parent_tag() + p, tree_tag());
        }
    }
    match (parent, message) {
        (Some(p), Some(m)) => {
            let pl2 = seq![tl, parent_tag() + p];
            assert(ls =~= pl2.push(strip_cr(message_tag() + m)));
            assert(ls.drop_last() =~= pl2);
            assert(pl2.drop_last() =~= tl_last);
            assert(tree_of_lines(pl2) == tree_of_lines(tl_last));
            assert(ls.drop_first() =~= seq![parent_tag() + p, strip_cr(message_tag() + m)]);
            assert(parent_of_lines(ls) == parent_of_lines(ls.drop_first()));
        },
        (Some(p), None) => {
            assert(ls =~= seq![tl, parent_tag() + p]);
            assert(ls.drop_last() =~= tl_last);
            assert(ls.drop_first() =~= seq![parent_tag() + p]);
            assert(parent_of_lines(ls) == parent_of_lines(ls.drop_first()));
        },
        (None, Some(m)) => {
            let ml2 = seq![strip_cr(message_tag() + m)];
            assert(ls =~= seq![tl, strip_cr(message_tag() + m)]);
            assert(ls.drop_last() =~= tl_last);
            assert(ls.drop_first() =~= ml2);
            assert(ml2.drop_first() =~= Seq::<Seq<char>>::empty());
            assert(parent_of_lines(ml2) == parent_of_lines(ml2.drop_first()));
            assert(parent_of_lines(ls) == parent_of_lines(ls.drop_first()));
        },
        (None, None) => {
            assert(ls =~= tl_last);
            assert(ls.drop_first() =~= Seq::<Seq<char>>::empty());
            assert(parent_of_lines(ls) == parent_of_lines(ls.drop_first()));
        },
    }
}

proof fn lemma_first_differs(l: Seq<char>, tag: Seq<char>)
    requires
        l.len() > 0,
        tag.len() > 0,
        l[0] != tag[0],
    ensures
        !starts_with(l, tag),
{
    if tag.len() <= l.len() {
        assert(l.take(tag.len() as int)[0] == l[0]);
    }
}

/// A merge commit written by `merge_commit_text` reads back with its tree,
/// and with the commit merged into as its first parent, provided the ids
/// are non-empty texts without white space and the branch names are single
/// lines.
pub proof fn law_merge_commit_text_roundtrip(
    tree: Seq<char>,
    ours: Seq<char>,
    theirs: Seq<char>,
    into_branch: Seq<char>,
    from_branch: Seq<char>,
)
    requires
        is_word(tree),
        is_word(ours),
        is_word(theirs),
        single_line(into_branch),
        single_line(from_branch),
    ensures
        commit_tree_of(merge_commit_text_of(tree, ours, theirs, into_branch, from_branch)) == tree,
        commit_parent_of(merge_commit_text_of(tree, ours, theirs, into_branch, from_branch))
            == Some(ours),
{
    assert(single_line(tree_tag()));
    assert(single_line(parent_tag()));
    assert(single_line(second_parent_tag()));
    assert(single_line(message_tag()));
    lemma_tagged_word(tree_tag(), tree);
    lemma_tagged_word(parent_tag(), ours);
    lemma_tagged_word(second_parent_tag(), theirs);
    let word = seq!['m', 'e', 'r', 'g', 'e', ' '];
    assert(single_line(word));
    lemma_tagged_single(word, into_branch);
    assert(single_line(seq![' ']));
    lemma_tagged_single(word + into_branch, seq![' ']);
    lemma_tagged_single(word + into_branch + seq![' '], from_branch);
    let body = word + into_branch + seq![' '] + from_branch;
    lemma_tagged_single(message_tag(), body);
    let tl = tree_tag() + tree;
    let pl = parent_tag() + ours;
    let ql = second_parent_tag() + theirs;
    let ml = message_tag() + body;
    let text = merge_commit_text_of(tree, ours, theirs, into_branch, from_branch);
    let nl: Seq<char> = seq!['\n'];
    lemma_lines_cons(Seq::empty(), Seq::empty());
    assert(Seq::<char>::empty() + nl + Seq::<char>::empty() =~= nl);
    assert(lines(nl) == seq![strip_cr(Seq::<char>::empty())]);
    assert(strip_cr(Seq::<char>::empty()) == Seq::<char>::empty());
    lemma_lines_cons(ml, nl);
    lemma_lines_cons(ql, ml + nl + nl);
    lemma_lines_cons(pl, ql + nl + (ml + nl + nl));
    lemma_lines_cons(tl, pl + nl + (ql + nl + (ml + nl + nl)));
    assert(text =~= tl + nl + (pl + nl + (ql + nl + (ml + nl + nl))));
    let m2 = strip_cr(ml);
    let e: Seq<char> = Seq::empty();
    let ls = seq![tl, pl, ql, m2, e];
    assert(lines(text) =~= ls);
    assert(m2[0] == 'm');
    lemma_first_differs(m2, tree_tag());
    lemma_first_differs(pl, tree_tag());
    lemma_first_differs(ql, tree_tag());
    lemma_first_differs(tl, parent_tag());
    assert(!starts_with(e, tree_tag()));
    let tl_last: Seq<Seq<char>> = seq![tl];
    assert(tree_of_lines(tl_last) == tree) by {
        assert(tl.skip(5) =~= (tree_tag() + tree).skip(tree_tag().len() as int));
    }
    assert(ls.drop_last() =~= seq![tl, pl, ql, m2]);
    assert(seq![tl, pl, ql, m2].drop_last() =~= seq![tl, pl, ql]);
    assert(seq![tl, pl, ql].drop_last() =~= seq![tl, pl]);
    assert(seq![tl, pl].drop_last() =~= tl_last);
    assert(tree_of_lines(seq![tl, pl]) == tree);
    assert(tree_of_lines(seq![tl, pl, ql]) == tree);
    assert(tree_of_lines(seq![tl, pl, ql, m2]) == tree);
    assert(ls.drop_first() =~= seq![pl, ql, m2, e]);
    assert(parent_of_lines(ls) == parent_of_lines(ls.drop_first()));
}

/// The objects a commit writes: the tree file and the commit file, each with
/// its id.
pub struct NewCommit {
    pub tree_text: String,
    pub tree_id: String,
    pub commit_text: String,
    pub commit_id: String,
}

/// What a new commit writes: the tree of the index and its id, the commit
/// text over that tree with the given parent and message, and its id.
/// Refused when the index is empty.
pub fn prepare_commit(index: &Index, parent: &Option<String>, message: &Option<String>) -> (r: Result<
    NewCommit,
    GitError,
>)
    requires
        index.wf(),
    ensures
        r is Err <==> index@ == Map::<Seq<char>, Seq<char>>::empty(),
        r matches Err(e) ==> e == GitError::NothingToCommit,
        r matches Ok(c) ==> {
            &&& c.tree_text@ == render(index.pairs())
            &&& c.tree_id@ == object_id_of(vstd::utf8::encode_utf8(c.tree_text@))
            &&& c.commit_text@ == commit_text_of(
                c.tree_id@,
                match parent {
                    Some(p) => Some(p@),
                    None => None,
                },
                match message {
                    Some(m) => Some(m@),
                    None => None,
                },
            )
            &&& c.commit_id@ == object_id_of(vstd::utf8::encode_utf8(c.commit_text@))
            &&& is_word(c.tree_id@) && c.tree_id@.len() == 40
            &&& is_word(c.commit_id@) && c.commit_id@.len() == 40
        },
{
    if index.is_empty() {
        return Err(GitError::NothingToCommit);
    }
    let tree_text = render_index(index);
    let tree_id = text_id(tree_text.as_str());
    let commit_text = commit_text(tree_id.as_str(), parent, message);
    let commit_id = text_id(commit_text.as_str());
    Ok(NewCommit { tree_text, tree_id, commit_text, commit_id })
}

/// What a merge commit writes: the merged tree and its id, the merge
/// commit text over it, and its id.
pub fn prepare_merge_commit(
    tree: &Index,
    ours: &str,
    theirs: &str,
    into_branch: &str,
    from_branch: &str,
) -> (c: NewCommit)
    requires
        tree.wf(),
    ensures
        c.tree_text@ == render(tree.pairs()),
        c.tree_id@ == object_id_of(vstd::utf8::encode_utf8(c.tree_text@)),
        c.commit_text@ == merge_commit_text_of(
            c.tree_id@,
            ours@,
            theirs@,
            into_branch@,
            from_branch@,
        ),
        c.commit_id@ == object_id_of(vstd::utf8::encode_utf8(c.commit_text@)),
        is_word(c.tree_id@) && c.tree_id@.len() == 40,
        is_word(c.commit_id@) && c.commit_id@.len() == 40,
{
    let tree_text = render_index(tree);
    let tree_id = text_id(tree_text.as_str());
    let commit_text = merge_commit_text(tree_id.as_str(), ours, theirs, into_branch, from_branch);
    let commit_id = text_id(commit_text.as_str());
    NewCommit { tree_text, tree_id, commit_text, commit_id }
}

} // verus!

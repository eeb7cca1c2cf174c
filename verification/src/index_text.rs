use vstd::prelude::*;

use crate::error::GitError;
use crate::index::{pairs_map, Index, Listing};
use crate::text::{
    chars_of, find_newline, find_space, is_space, lemma_find_newline, lemma_find_space, lines,
    push_str, split_lines, split_words, string_of, strip_cr, words,
};

verus! {

/// The line that records one entry: the path, a space, the object id.
pub open spec fn entry_line(e: (Seq<char>, Seq<char>)) -> Seq<char> {
    e.0 + seq![' '] + e.1
}

/// The text of a listing: one line per entry, each ended by a line feed.
pub open spec fn render(s: Listing) -> Seq<char>
    decreases s.len(),
{
    if s.len() == 0 {
        Seq::empty()
    } else {
        entry_line(s[0]) + seq!['\n'] + render(s.drop_first())
    }
}

/// The entry that a line records, when it holds exactly two words.
pub open spec fn line_entry(l: Seq<char>) -> Option<(Seq<char>, Seq<char>)> {
    let w = words(l);
    if w.len() == 2 {
        Some((w[0], w[1]))
    } else {
        None
    }
}

/// The listing that the lines record, or `None` when some line does not hold
/// exactly two words.
pub open spec fn lines_listing(ls: Seq<Seq<char>>) -> Option<Listing>
    decreases ls.len(),
{
    if ls.len() == 0 {
        Some(Listing::empty())
    } else {
        match (lines_listing(ls.drop_last()), line_entry(ls.last())) {
            (Some(s), Some(e)) => Some(s.push(e)),
            _ => None,
        }
    }
}

/// What an index or tree file holds: the map its lines record, a later line
/// for a path replacing an earlier one; `None` when the file is corrupt.
pub open spec fn index_of_text(t: Seq<char>) -> Option<Map<Seq<char>, Seq<char>>> {
    match lines_listing(lines(t)) {
        Some(s) => Some(pairs_map(s)),
        None => None,
    }
}

/// A non-empty text without white space.
pub open spec fn is_word(w: Seq<char>) -> bool {
    w.len() > 0 && forall|i: int| 0 <= i < w.len() ==> !is_space(#[trigger] w[i])
}

proof fn lemma_render_push(s: Listing, e: (Seq<char>, Seq<char>))
    ensures
        render(s.push(e)) == render(s) + entry_line(e) + seq!['\n'],
    decreases s.len(),
{
    if s.len() == 0 {
        assert(s.push(e).drop_first() =~= Listing::empty());
        assert(render(Listing::empty()) == Seq::<char>::empty());
        assert(s.push(e)[0] == e);
        assert(render(s.push(e)) =~= render(s) + entry_line(e) + seq!['\n']);
    } else {
        assert(s.push(e).drop_first() =~= s.drop_first().push(e));
        lemma_render_push(s.drop_first(), e);
        assert(s.push(e)[0] == s[0]);
        assert(render(s.push(e)) =~= render(s) + entry_line(e) + seq!['\n']);
    }
}

proof fn lemma_lines_listing_none(ls: Seq<Seq<char>>, i: int)
    requires
        0 <= i <= ls.len(),
        lines_listing(ls.take(i)) is None,
    ensures
        lines_listing(ls) is None,
    decreases ls.len() - i,
{
    if i < ls.len() {
        assert(ls.take(i + 1).drop_last() =~= ls.take(i));
        lemma_lines_listing_none(ls, i + 1);
    } else {
        assert(ls.take(i) =~= ls);
    }
}

/// Reads an index or tree file.  A line must hold exactly a path and an
/// object id, separated by white space; a later line for a path replaces an
/// earlier one.
pub fn parse_index(text: &str) -> (r: Result<Index, GitError>)
    ensures
        r matches Ok(idx) ==> idx.wf() && index_of_text(text@) == Some(idx@),
        r matches Err(e) ==> index_of_text(text@) is None && e == GitError::CorruptIndex,
        r is Ok <==> index_of_text(text@) is Some,
{
    let cs = chars_of(text);
    let ls = split_lines(&cs);
    let ghost lv = ls@.map_values(|l: Vec<char>| l@);
    let mut idx = Index::new();
    let ghost mut acc = Listing::empty();
    let mut i: usize = 0;
    assert(lv.take(0) =~= Seq::<Seq<char>>::empty());
    while i < ls.len()
        invariant
            i <= ls.len(),
            lv == ls@.map_values(|l: Vec<char>| l@),
            lv == lines(text@),
            idx.wf(),
            lines_listing(lv.take(i as int)) == Some(acc),
            idx@ == pairs_map(acc),
        decreases ls.len() - i,
    {
        let ws = split_words(&ls[i]);
        assert(lv.take(i + 1).drop_last() =~= lv.take(i as int));
        assert(lv.take(i + 1).last() == ls@[i as int]@);
        if ws.len() != 2 {
            proof {
                lemma_lines_listing_none(lv, i + 1);
            }
            return Err(GitError::CorruptIndex);
        }
        let k = string_of(ws[0].as_slice());
        let v = string_of(ws[1].as_slice());
        let ghost e = (k@, v@);
        idx.insert(k, v);
        proof {
            assert(acc.push(e).drop_last() =~= acc);
            acc = acc.push(e);
        }
        i = i + 1;
    }
    assert(lv.take(i as int) =~= lv);
    Ok(idx)
}

/// Writes an index or tree file: one line per entry in path order, the path,
/// a space and the object id, each line ended by a line feed.
pub fn render_index(idx: &Index) -> (r: String)
    requires
        idx.wf(),
    ensures
        r@ == render(idx.pairs()),
{
    let es = idx.entries();
    let ghost s = idx.pairs();
    let mut out: Vec<char> = Vec::new();
    let mut i: usize = 0;
    assert(s.take(0) =~= Listing::empty());
    while i < es.len()
        invariant
            i <= es.len(),
            s.len() == es.len(),
            s == es@.map_values(|e: (String, String)| (e.0@, e.1@)),
            out@ == render(s.take(i as int)),
        decreases es.len() - i,
    {
        let ghost before = out@;
        push_str(&mut out, es[i].0.as_str());
        out.push(' ');
        push_str(&mut out, es[i].1.as_str());
        out.push('\n');
        proof {
            assert(s.take(i + 1) =~= s.take(i as int).push(s[i as int]));
            lemma_render_push(s.take(i as int), s[i as int]);
            assert(out@ =~= before + entry_line(s[i as int]) + seq!['\n']);
        }
        i = i + 1;
    }
    assert(s.take(i as int) =~= s);
    string_of(out.as_slice())
}

proof fn lemma_words_of_word(w: Seq<char>)
    requires
        is_word(w),
    ensures
        words(w) == seq![w],
{
    assert(!is_space(w[0]));
    lemma_find_space(w, w.len() as int);
    assert(words(Seq::<char>::empty()) == Seq::<Seq<char>>::empty());
    assert(w.take(w.len() as int) =~= w);
    assert(w.skip(w.len() as int) =~= Seq::<char>::empty());
    assert(words(w) =~= seq![w]);
}

proof fn lemma_words_of_entry(e: (Seq<char>, Seq<char>))
    requires
        is_word(e.0),
        is_word(e.1),
    ensures
        words(entry_line(e)) == seq![e.0, e.1],
{
    let l = entry_line(e);
    let k = e.0;
    assert forall|i: int| 0 <= i < k.len() implies !is_space(#[trigger] l[i]) by {
        assert(l[i] == k[i]);
        assert(!is_space(k[i]));
    }
    assert(l[k.len() as int] == ' ');
    lemma_find_space(l, k.len() as int);
    assert(l.take(k.len() as int) =~= k);
    let rest = l.skip(k.len() as int);
    assert(rest.drop_first() =~= e.1);
    lemma_words_of_word(e.1);
    assert(words(rest) == words(e.1));
    assert(words(l) =~= seq![k] + seq![e.1]);
}

proof fn lemma_lines_of_render(s: Listing)
    requires
        forall|i: int| 0 <= i < s.len() ==> is_word(#[trigger] s[i].0) && is_word(s[i].1),
    ensures
        lines(render(s)) == s.map_values(|e: (Seq<char>, Seq<char>)| entry_line(e)),
    decreases s.len(),
{
    if s.len() == 0 {
        assert(s.map_values(|e: (Seq<char>, Seq<char>)| entry_line(e)) =~= Seq::<Seq<char>>::empty());
    } else {
        let t = s.drop_first();
        assert forall|i: int| 0 <= i < t.len() implies is_word(#[trigger] t[i].0) && is_word(t[i].1) by {
            assert(t[i] == s[i + 1]);
            assert(is_word(s[i + 1].0) && is_word(s[i + 1].1));
        }
        lemma_lines_of_render(t);
        let e = s[0];
        let l = entry_line(e);
        let whole = render(s);
        assert(is_word(s[0].0) && is_word(s[0].1));
        assert forall|i: int| 0 <= i < l.len() implies #[trigger] whole[i] != '\n' by {
            assert(whole[i] == l[i]);
            if i < e.0.len() {
                assert(l[i] == e.0[i]);
                assert(!is_space(e.0[i]));
            } else if i > e.0.len() {
                assert(l[i] == e.1[i - e.0.len() - 1]);
                assert(!is_space(e.1[i - e.0.len() - 1]));
            }
        }
        assert(whole[l.len() as int] == '\n');
        lemma_find_newline(whole, l.len() as int);
        assert(whole.take(l.len() as int) =~= l);
        assert(whole.skip(l.len() as int + 1) =~= render(t));
        assert(l.last() == e.1.last());
        assert(!is_space(e.1[e.1.len() - 1]));
        assert(strip_cr(l) == l);
        assert(s.map_values(|e: (Seq<char>, Seq<char>)| entry_line(e)) =~= seq![l]
            + t.map_values(|e: (Seq<char>, Seq<char>)| entry_line(e)));
    }
}

proof fn lemma_listing_of_lines(s: Listing)
    requires
        forall|i: int| 0 <= i < s.len() ==> is_word(#[trigger] s[i].0) && is_word(s[i].1),
    ensures
        lines_listing(s.map_values(|e: (Seq<char>, Seq<char>)| entry_line(e))) == Some(s),
    decreases s.len(),
{
    let ls = s.map_values(|e: (Seq<char>, Seq<char>)| entry_line(e));
    if s.len() == 0 {
        assert(s =~= Listing::empty());
    } else {
        let t = s.drop_last();
        assert forall|i: int| 0 <= i < t.len() implies is_word(#[trigger] t[i].0) && is_word(t[i].1) by {
            assert(t[i] == s[i]);
        }
        lemma_listing_of_lines(t);
        assert(ls.drop_last() =~= t.map_values(|e: (Seq<char>, Seq<char>)| entry_line(e)));
        let e = s.last();
        assert(is_word(s[s.len() - 1].0) && is_word(s[s.len() - 1].1));
        lemma_words_of_entry(e);
        assert(ls.last() == entry_line(e));
        assert(t.push(e) =~= s);
    }
}

/// Reading back what `render_index` writes gives the same index, provided
/// every path and object id is a non-empty text without white space.
pub proof fn law_index_text_roundtrip(idx: &Index)
    requires
        idx.wf(),
        forall|k: Seq<char>| #[trigger] idx@.contains_key(k) ==> is_word(k) && is_word(idx@[k]),
    ensures
        index_of_text(render(idx.pairs())) == Some(idx@),
{
    let s = idx.pairs();
    assert forall|i: int| 0 <= i < s.len() implies is_word(#[trigger] s[i].0) && is_word(s[i].1) by {
        crate::index::lemma_sorted_value(s, i);
        assert(idx@.contains_key(s[i].0));
        assert(idx@[s[i].0] == s[i].1);
    }
    lemma_lines_of_render(s);
    lemma_listing_of_lines(s);
}

} // verus!

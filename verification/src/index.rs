use vstd::prelude::*;

use crate::order::{compare_chars, lemma_text_lt_irreflexive, lemma_text_lt_transitive, text_lt, TextOrder};
use crate::text::{chars_of, has_prefix, starts_with};

verus! {

/// A listing of (path, object id) pairs, as plain text.
pub type Listing = Seq<(Seq<char>, Seq<char>)>;

/// The text of a vector of string pairs.
pub open spec fn listing_of(v: Seq<(String, String)>) -> Listing {
    v.map_values(|e: (String, String)| (e.0@, e.1@))
}

/// The keys of the listing strictly increase in `text_lt` order.
pub open spec fn keys_sorted(s: Listing) -> bool {
    forall|i: int, j: int| 0 <= i < j < s.len() ==> text_lt(#[trigger] s[i].0, #[trigger] s[j].0)
}

/// The map that a listing describes: each pair in turn is inserted, so a
/// later pair for the same key replaces an earlier one.
pub open spec fn pairs_map(s: Listing) -> Map<Seq<char>, Seq<char>>
    decreases s.len(),
{
    if s.len() == 0 {
        Map::empty()
    } else {
        pairs_map(s.drop_last()).insert(s.last().0, s.last().1)
    }
}

/// A key is in `pairs_map(s)` exactly when some pair of `s` has it.
pub proof fn lemma_pairs_map_dom(s: Listing, x: Seq<char>)
    ensures
        pairs_map(s).contains_key(x) <==> exists|i: int| 0 <= i < s.len() && #[trigger] s[i].0 == x,
    decreases s.len(),
{
    if s.len() > 0 {
        lemma_pairs_map_dom(s.drop_last(), x);
        if pairs_map(s.drop_last()).contains_key(x) {
            let i = choose|i: int| 0 <= i < s.drop_last().len() && #[trigger] s.drop_last()[i].0 == x;
            assert(s[i].0 == x);
        }
        if exists|i: int| 0 <= i < s.len() && #[trigger] s[i].0 == x {
            let i = choose|i: int| 0 <= i < s.len() && #[trigger] s[i].0 == x;
            if i < s.len() - 1 {
                assert(s.drop_last()[i].0 == x);
            }
        }
    }
}

/// The value of a key is that of its last pair in the listing.
pub proof fn lemma_pairs_map_value(s: Listing, i: int)
    requires
        0 <= i < s.len(),
        forall|j: int| i < j < s.len() ==> #[trigger] s[j].0 != s[i].0,
    ensures
        pairs_map(s).contains_key(s[i].0),
        pairs_map(s)[s[i].0] == s[i].1,
    decreases s.len(),
{
    if i < s.len() - 1 {
        let t = s.drop_last();
        assert forall|j: int| i < j < t.len() implies #[trigger] t[j].0 != t[i].0 by {
            assert(t[j] == s[j]);
        }
        lemma_pairs_map_value(t, i);
        assert(s.last() == s[s.len() - 1]);
    }
}

/// Keys of a sorted listing are distinct.
pub proof fn lemma_sorted_distinct(s: Listing, i: int, j: int)
    requires
        keys_sorted(s),
        0 <= i < s.len(),
        0 <= j < s.len(),
        i != j,
    ensures
        s[i].0 != s[j].0,
{
    if i < j {
        assert(text_lt(s[i].0, s[j].0));
        lemma_text_lt_irreflexive(s[i].0);
    } else {
        assert(text_lt(s[j].0, s[i].0));
        lemma_text_lt_irreflexive(s[j].0);
    }
}

/// In a sorted listing every pair gives its key's value.
pub proof fn lemma_sorted_value(s: Listing, i: int)
    requires
        keys_sorted(s),
        0 <= i < s.len(),
    ensures
        pairs_map(s).contains_key(s[i].0),
        pairs_map(s)[s[i].0] == s[i].1,
{
    assert forall|j: int| i < j < s.len() implies #[trigger] s[j].0 != s[i].0 by {
        lemma_sorted_distinct(s, i, j);
    }
    lemma_pairs_map_value(s, i);
}

/// The map without the keys that begin with `prefix`.
pub open spec fn without_prefix(m: Map<Seq<char>, Seq<char>>, prefix: Seq<char>) -> Map<
    Seq<char>,
    Seq<char>,
> {
    Map::new(|k: Seq<char>| m.contains_key(k) && !starts_with(k, prefix), |k: Seq<char>| m[k])
}

/// The staging area: a map from paths to object ids, held as a listing
/// sorted by path, which is also the order in which it is written out.
pub struct Index {
    entries: Vec<(String, String)>,
}

impl View for Index {
    type V = Map<Seq<char>, Seq<char>>;

    open spec fn view(&self) -> Map<Seq<char>, Seq<char>> {
        pairs_map(self.pairs())
    }
}

impl Index {
    /// The entries as text, in order.
    pub closed spec fn pairs(&self) -> Listing {
        listing_of(self.entries@)
    }

    /// The entries are sorted by path, so no path occurs twice.
    pub open spec fn wf(&self) -> bool {
        keys_sorted(self.pairs())
    }

    /// An empty index.
    pub fn new() -> (r: Index)
        ensures
            r.wf(),
            r@ == Map::<Seq<char>, Seq<char>>::empty(),
            r.pairs() == Listing::empty(),
    {
        let r = Index { entries: Vec::new() };
        assert(r.pairs() =~= Listing::empty());
        r
    }

    /// The entries, sorted by path.
    pub fn entries(&self) -> (r: &Vec<(String, String)>)
        ensures
            listing_of(r@) == self.pairs(),
    {
        &self.entries
    }

    /// The number of entries.
    pub fn len(&self) -> (n: usize)
        requires
            self.wf(),
        ensures
            n == self.pairs().len(),
            n == self@.len(),
    {
        proof {
            lemma_listing_len(self.pairs());
        }
        self.entries.len()
    }

    /// Whether the index has no entry.
    pub fn is_empty(&self) -> (b: bool)
        requires
            self.wf(),
        ensures
            b <==> self@ == Map::<Seq<char>, Seq<char>>::empty(),
    {
        proof {
            if self.pairs().len() > 0 {
                lemma_pairs_map_dom(self.pairs(), self.pairs()[0].0);
                assert(self@.contains_key(self.pairs()[0].0));
            } else {
                assert(self.pairs() =~= Listing::empty());
            }
        }
        self.entries.len() == 0
    }

    /// The position of the first entry whose path is not before `key`, and
    /// whether that entry's path is `key`.
    fn locate(&self, key: &Vec<char>) -> (r: (usize, bool))
        requires
            self.wf(),
        ensures
            r.0 <= self.pairs().len(),
            forall|i: int| 0 <= i < r.0 ==> text_lt(#[trigger] self.pairs()[i].0, key@),
            r.1 <==> (r.0 < self.pairs().len() && self.pairs()[r.0 as int].0 == key@),
            !r.1 ==> forall|j: int|
                r.0 <= j < self.pairs().len() ==> text_lt(key@, #[trigger] self.pairs()[j].0),
    {
        let mut i: usize = 0;
        while i < self.entries.len()
            invariant
                self.wf(),
                i <= self.entries.len(),
                self.pairs().len() == self.entries.len(),
                forall|k: int| 0 <= k < i ==> text_lt(#[trigger] self.pairs()[k].0, key@),
            decreases self.entries.len() - i,
        {
            let k = chars_of(self.entries[i].0.as_str());
            assert(k@ == self.pairs()[i as int].0);
            match compare_chars(&k, key) {
                TextOrder::Less => {
                    i = i + 1;
                },
                TextOrder::Equal => {
                    return (i, true);
                },
                TextOrder::Greater => {
                    proof {
                        assert forall|j: int| i <= j < self.pairs().len() implies text_lt(
                            key@,
                            #[trigger] self.pairs()[j].0,
                        ) by {
                            if j > i {
                                lemma_text_lt_transitive(key@, self.pairs()[i as int].0, self.pairs()[j].0);
                            }
                        }
                        lemma_text_lt_irreflexive(key@);
                    }
                    return (i, false);
                },
            }
        }
        (i, false)
    }

    /// Whether `key` has an entry.
    pub fn contains_key(&self, key: &str) -> (b: bool)
        requires
            self.wf(),
        ensures
            b == self@.contains_key(key@),
    {
        let k = chars_of(key);
        let (pos, found) = self.locate(&k);
        proof {
            lemma_pairs_map_dom(self.pairs(), key@);
            if self@.contains_key(key@) {
                let i = choose|i: int| 0 <= i < self.pairs().len() && #[trigger] self.pairs()[i].0 == key@;
                if i < pos {
                    lemma_text_lt_irreflexive(key@);
                } else if !found {
                    lemma_text_lt_irreflexive(key@);
                }
            }
        }
        found
    }

    /// The object id staged for `key`, if any.
    pub fn get(&self, key: &str) -> (r: Option<String>)
        requires
            self.wf(),
        ensures
            r is Some == self@.contains_key(key@),
            r matches Some(v) ==> v@ == self@[key@],
    {
        let k = chars_of(key);
        let (pos, found) = self.locate(&k);
        proof {
            lemma_pairs_map_dom(self.pairs(), key@);
            if self@.contains_key(key@) {
                let i = choose|i: int| 0 <= i < self.pairs().len() && #[trigger] self.pairs()[i].0 == key@;
                if i < pos {
                    lemma_text_lt_irreflexive(key@);
                } else if !found {
                    lemma_text_lt_irreflexive(key@);
                }
            }
        }
        if found {
            proof {
                lemma_sorted_value(self.pairs(), pos as int);
            }
            Some(self.entries[pos].1.clone())
        } else {
            None
        }
    }

    /// Stages `value` for `key`, replacing what was there.
    pub fn insert(&mut self, key: String, value: String)
        requires
            old(self).wf(),
        ensures
            final(self).wf(),
            final(self)@ == old(self)@.insert(key@, value@),
    {
        let k = chars_of(key.as_str());
        let (pos, found) = self.locate(&k);
        let ghost s = self.pairs();
        let ghost p = (key@, value@);
        if found {
            self.entries.set(pos, (key, value));
            proof {
                let t = self.pairs();
                assert(t =~= s.update(pos as int, p));
                assert(keys_sorted(t)) by {
                    assert forall|i: int, j: int| 0 <= i < j < t.len() implies text_lt(
                        #[trigger] t[i].0,
                        #[trigger] t[j].0,
                    ) by {
                        assert(t[i].0 == s[i].0 && t[j].0 == s[j].0);
                    }
                }
                lemma_listing_update(s, pos as int, p);
            }
        } else {
            self.entries.insert(pos, (key, value));
            proof {
                let t = self.pairs();
                assert(t =~= s.insert(pos as int, p));
                lemma_listing_insert(s, pos as int, p);
            }
        }
    }

    /// Drops the entry of `key`, if there is one.
    pub fn remove(&mut self, key: &str)
        requires
            old(self).wf(),
        ensures
            final(self).wf(),
            final(self)@ == old(self)@.remove(key@),
    {
        let k = chars_of(key);
        let (pos, found) = self.locate(&k);
        let ghost s = self.pairs();
        proof {
            lemma_pairs_map_dom(s, key@);
        }
        if found {
            self.entries.remove(pos);
            proof {
                let t = self.pairs();
                assert(t =~= s.remove(pos as int));
                lemma_listing_remove(s, pos as int);
            }
        } else {
            proof {
                if self@.contains_key(key@) {
                    let i = choose|i: int| 0 <= i < s.len() && #[trigger] s[i].0 == key@;
                    lemma_text_lt_irreflexive(key@);
                    if i < pos {
                        assert(text_lt(s[i].0, key@));
                    } else {
                        assert(text_lt(key@, s[i].0));
                    }
                }
                assert(self@ =~= old(self)@.remove(key@));
            }
        }
    }

    /// Drops every entry whose path begins with `prefix`.
    pub fn remove_prefixed(&mut self, prefix: &Vec<char>)
        requires
            old(self).wf(),
        ensures
            final(self).wf(),
            final(self)@ == without_prefix(old(self)@, prefix@),
    {
        let ghost s = self.pairs();
        let ghost keep = |e: (Seq<char>, Seq<char>)| !starts_with(e.0, prefix@);
        let mut out: Vec<(String, String)> = Vec::new();
        let mut i: usize = 0;
        assert(s.take(0) =~= Listing::empty());
        while i < self.entries.len()
            invariant
                i <= self.entries.len(),
                s == self.pairs(),
                s.len() == self.entries.len(),
                keys_sorted(s),
                keys_sorted(listing_of(out@)),
                forall|a: int, j: int|
                    0 <= a < out@.len() && i <= j < s.len() ==> text_lt(
                        #[trigger] listing_of(out@)[a].0,
                        #[trigger] s[j].0,
                    ),
                pairs_map(listing_of(out@)) == without_prefix(
                    pairs_map(s.take(i as int)),
                    prefix@,
                ),
            decreases self.entries.len() - i,
        {
            let ghost o = listing_of(out@);
            let k = chars_of(self.entries[i].0.as_str());
            assert(s.take(i + 1) =~= s.take(i as int).push(s[i as int]));
            assert(s.take(i + 1).drop_last() =~= s.take(i as int));
            if !has_prefix(&k, prefix) {
                let e = (self.entries[i].0.clone(), self.entries[i].1.clone());
                out.push(e);
                proof {
                    let o2 = listing_of(out@);
                    assert(o2 =~= o.push(s[i as int]));
                    assert(o2.drop_last() =~= o);
                    assert(pairs_map(o2) =~= without_prefix(pairs_map(s.take(i + 1)), prefix@));
                    assert forall|a: int, j: int| 0 <= a < o2.len() && i + 1 <= j < s.len() implies text_lt(
                        #[trigger] o2[a].0,
                        #[trigger] s[j].0,
                    ) by {
                        if a < o.len() {
                            assert(o2[a] == o[a]);
                            assert(text_lt(o[a].0, s[j].0));
                        } else {
                            assert(text_lt(s[i as int].0, s[j].0));
                        }
                    }
                    assert forall|a: int, b: int| 0 <= a < b < o2.len() implies text_lt(
                        #[trigger] o2[a].0,
                        #[trigger] o2[b].0,
                    ) by {
                        if b < o.len() {
                            assert(o2[a] == o[a] && o2[b] == o[b]);
                        } else {
                            assert(o2[a] == o[a]);
                            assert(text_lt(o[a].0, s[i as int].0));
                        }
                    }
                }
            } else {
                proof {
                    assert(pairs_map(o) =~= without_prefix(pairs_map(s.take(i + 1)), prefix@));
                }
            }
            i = i + 1;
        }
        assert(s.take(i as int) =~= s);
        self.entries = out;
    }
}

/// A sorted listing has as many pairs as its map has keys.
pub proof fn lemma_listing_len(s: Listing)
    requires
        keys_sorted(s),
    ensures
        pairs_map(s).len() == s.len(),
        pairs_map(s).dom().finite(),
    decreases s.len(),
{
    if s.len() > 0 {
        let t = s.drop_last();
        assert(keys_sorted(t)) by {
            assert forall|i: int, j: int| 0 <= i < j < t.len() implies text_lt(
                #[trigger] t[i].0,
                #[trigger] t[j].0,
            ) by {
                assert(t[i] == s[i] && t[j] == s[j]);
            }
        }
        lemma_listing_len(t);
        lemma_pairs_map_dom(t, s.last().0);
        if pairs_map(t).contains_key(s.last().0) {
            let i = choose|i: int| 0 <= i < t.len() && #[trigger] t[i].0 == s.last().0;
            lemma_sorted_distinct(s, i, s.len() - 1);
        }
    }
}

/// Replacing the value of an existing key.
proof fn lemma_listing_update(s: Listing, pos: int, p: (Seq<char>, Seq<char>))
    requires
        keys_sorted(s),
        0 <= pos < s.len(),
        s[pos].0 == p.0,
    ensures
        keys_sorted(s.update(pos, p)),
        pairs_map(s.update(pos, p)) == pairs_map(s).insert(p.0, p.1),
{
    let t = s.update(pos, p);
    assert(keys_sorted(t)) by {
        assert forall|i: int, j: int| 0 <= i < j < t.len() implies text_lt(
            #[trigger] t[i].0,
            #[trigger] t[j].0,
        ) by {
            assert(t[i].0 == s[i].0 && t[j].0 == s[j].0);
        }
    }
    assert forall|x: Seq<char>| #[trigger] pairs_map(t).contains_key(x) == pairs_map(s).insert(
        p.0,
        p.1,
    ).contains_key(x) by {
        lemma_pairs_map_dom(t, x);
        lemma_pairs_map_dom(s, x);
        if exists|i: int| 0 <= i < s.len() && #[trigger] s[i].0 == x {
            let i = choose|i: int| 0 <= i < s.len() && #[trigger] s[i].0 == x;
            assert(t[i].0 == x);
        }
        if exists|i: int| 0 <= i < t.len() && #[trigger] t[i].0 == x {
            let i = choose|i: int| 0 <= i < t.len() && #[trigger] t[i].0 == x;
            assert(s[i].0 == x);
        }
        assert(s[pos].0 == p.0);
    }
    assert forall|x: Seq<char>| #[trigger] pairs_map(t).contains_key(x) implies pairs_map(t)[x]
        == pairs_map(s).insert(p.0, p.1)[x] by {
        lemma_pairs_map_dom(t, x);
        let i = choose|i: int| 0 <= i < t.len() && #[trigger] t[i].0 == x;
        lemma_sorted_value(t, i);
        if i != pos {
            assert(s[i] == t[i]);
            lemma_sorted_value(s, i);
            lemma_sorted_distinct(s, i, pos);
        }
    }
    assert(pairs_map(t) =~= pairs_map(s).insert(p.0, p.1));
}

/// Inserting a new key at its place.
proof fn lemma_listing_insert(s: Listing, pos: int, p: (Seq<char>, Seq<char>))
    requires
        keys_sorted(s),
        0 <= pos <= s.len(),
        forall|i: int| 0 <= i < pos ==> text_lt(#[trigger] s[i].0, p.0),
        forall|j: int| pos <= j < s.len() ==> text_lt(p.0, #[trigger] s[j].0),
    ensures
        keys_sorted(s.insert(pos, p)),
        pairs_map(s.insert(pos, p)) == pairs_map(s).insert(p.0, p.1),
{
    let t = s.insert(pos, p);
    assert(keys_sorted(t)) by {
        assert forall|i: int, j: int| 0 <= i < j < t.len() implies text_lt(
            #[trigger] t[i].0,
            #[trigger] t[j].0,
        ) by {
            if j < pos {
                assert(t[i] == s[i] && t[j] == s[j]);
            } else if j == pos {
                assert(t[i] == s[i]);
            } else if i < pos {
                assert(t[i] == s[i] && t[j] == s[j - 1]);
                lemma_text_lt_transitive(s[i].0, p.0, s[j - 1].0);
            } else if i == pos {
                assert(t[j] == s[j - 1]);
            } else {
                assert(t[i] == s[i - 1] && t[j] == s[j - 1]);
            }
        }
    }
    assert forall|x: Seq<char>| #[trigger] pairs_map(t).contains_key(x) == pairs_map(s).insert(
        p.0,
        p.1,
    ).contains_key(x) by {
        lemma_pairs_map_dom(t, x);
        lemma_pairs_map_dom(s, x);
        if exists|i: int| 0 <= i < s.len() && #[trigger] s[i].0 == x {
            let i = choose|i: int| 0 <= i < s.len() && #[trigger] s[i].0 == x;
            if i < pos {
                assert(t[i].0 == x);
            } else {
                assert(t[i + 1].0 == x);
            }
        }
        if exists|i: int| 0 <= i < t.len() && #[trigger] t[i].0 == x {
            let i = choose|i: int| 0 <= i < t.len() && #[trigger] t[i].0 == x;
            if i < pos {
                assert(s[i].0 == x);
            } else if i > pos {
                assert(s[i - 1].0 == x);
            }
        }
        assert(t[pos].0 == p.0);
    }
    assert forall|x: Seq<char>| #[trigger] pairs_map(t).contains_key(x) implies pairs_map(t)[x]
        == pairs_map(s).insert(p.0, p.1)[x] by {
        lemma_pairs_map_dom(t, x);
        let i = choose|i: int| 0 <= i < t.len() && #[trigger] t[i].0 == x;
        lemma_sorted_value(t, i);
        if i < pos {
            assert(s[i] == t[i]);
            lemma_sorted_value(s, i);
            lemma_text_lt_irreflexive(p.0);
            assert(text_lt(s[i].0, p.0));
            assert(x != p.0);
            assert(pairs_map(t)[x] == s[i].1);
            assert(pairs_map(s)[x] == s[i].1);
            assert(pairs_map(t)[x] == pairs_map(s).insert(p.0, p.1)[x]);
        } else if i > pos {
            assert(s[i - 1] == t[i]);
            lemma_sorted_value(s, i - 1);
            lemma_text_lt_irreflexive(p.0);
            assert(text_lt(p.0, s[i - 1].0));
            assert(x != p.0);
            assert(pairs_map(t)[x] == pairs_map(s).insert(p.0, p.1)[x]);
        } else {
            assert(t[i] == p);
            assert(pairs_map(t)[x] == p.1);
            assert(pairs_map(t)[x] == pairs_map(s).insert(p.0, p.1)[x]);
        }
    }
    assert(pairs_map(t) =~= pairs_map(s).insert(p.0, p.1));
}

/// Removing the pair at `pos`.
proof fn lemma_listing_remove(s: Listing, pos: int)
    requires
        keys_sorted(s),
        0 <= pos < s.len(),
    ensures
        keys_sorted(s.remove(pos)),
        pairs_map(s.remove(pos)) == pairs_map(s).remove(s[pos].0),
{
    let t = s.remove(pos);
    assert(keys_sorted(t)) by {
        assert forall|i: int, j: int| 0 <= i < j < t.len() implies text_lt(
            #[trigger] t[i].0,
            #[trigger] t[j].0,
        ) by {
            if j < pos {
                assert(t[i] == s[i] && t[j] == s[j]);
            } else if i < pos {
                assert(t[i] == s[i] && t[j] == s[j + 1]);
            } else {
                assert(t[i] == s[i + 1] && t[j] == s[j + 1]);
            }
        }
    }
    assert forall|x: Seq<char>| #[trigger] pairs_map(t).contains_key(x) == pairs_map(s).remove(
        s[pos].0,
    ).contains_key(x) by {
        lemma_pairs_map_dom(t, x);
        lemma_pairs_map_dom(s, x);
        if exists|i: int| 0 <= i < s.len() && #[trigger] s[i].0 == x {
            let i = choose|i: int| 0 <= i < s.len() && #[trigger] s[i].0 == x;
            if i < pos {
                assert(t[i].0 == x);
            } else if i > pos {
                assert(t[i - 1].0 == x);
            }
        }
        if exists|i: int| 0 <= i < t.len() && #[trigger] t[i].0 == x {
            let i = choose|i: int| 0 <= i < t.len() && #[trigger] t[i].0 == x;
            if i < pos {
                assert(s[i].0 == x);
                lemma_sorted_distinct(s, i, pos);
            } else {
                assert(s[i + 1].0 == x);
                lemma_sorted_distinct(s, i + 1, pos);
            }
        }
    }
    assert forall|x: Seq<char>| #[trigger] pairs_map(t).contains_key(x) implies pairs_map(t)[x]
        == pairs_map(s).remove(s[pos].0)[x] by {
        lemma_pairs_map_dom(t, x);
        let i = choose|i: int| 0 <= i < t.len() && #[trigger] t[i].0 == x;
        lemma_sorted_value(t, i);
        if i < pos {
            assert(s[i] == t[i]);
            lemma_sorted_value(s, i);
        } else {
            assert(s[i + 1] == t[i]);
            lemma_sorted_value(s, i + 1);
        }
    }
    assert(pairs_map(t) =~= pairs_map(s).remove(s[pos].0));
}

/// Two sorted listings of the same map are the same listing.
pub proof fn lemma_sorted_listing_unique(s1: Listing, s2: Listing)
    requires
        keys_sorted(s1),
        keys_sorted(s2),
        pairs_map(s1) == pairs_map(s2),
    ensures
        s1 == s2,
    decreases s1.len(),
{
    if s1.len() == 0 || s2.len() == 0 {
        if s1.len() > 0 {
            lemma_pairs_map_dom(s1, s1[0].0);
            lemma_pairs_map_dom(s2, s1[0].0);
        }
        if s2.len() > 0 {
            lemma_pairs_map_dom(s2, s2[0].0);
            lemma_pairs_map_dom(s1, s2[0].0);
        }
        assert(s1 =~= s2);
    } else {
        let a = s1[0].0;
        let b = s2[0].0;
        lemma_pairs_map_dom(s1, b);
        lemma_pairs_map_dom(s2, a);
        lemma_sorted_value(s1, 0);
        lemma_sorted_value(s2, 0);
        if a != b {
            let j = choose|j: int| 0 <= j < s2.len() && #[trigger] s2[j].0 == a;
            let i = choose|i: int| 0 <= i < s1.len() && #[trigger] s1[i].0 == b;
            assert(text_lt(s2[0].0, s2[j].0));
            assert(text_lt(s1[0].0, s1[i].0));
            crate::order::lemma_text_lt_total(a, b);
        }
        lemma_listing_remove(s1, 0);
        lemma_listing_remove(s2, 0);
        assert(s1.remove(0) =~= s1.drop_first());
        assert(s2.remove(0) =~= s2.drop_first());
        lemma_sorted_listing_unique(s1.drop_first(), s2.drop_first());
        assert(s1 =~= seq![s1[0]] + s1.drop_first());
        assert(s2 =~= seq![s2[0]] + s2.drop_first());
    }
}

/// Two indexes with the same content hold the same entries in the same
/// order, so they are written out alike, whatever their history.
pub proof fn law_index_listing_determined(a: &Index, b: &Index)
    requires
        a.wf(),
        b.wf(),
        a@ == b@,
    ensures
        a.pairs() == b.pairs(),
{
    lemma_sorted_listing_unique(a.pairs(), b.pairs());
}

} // verus!

use vstd::prelude::*;

verus! {

/// Strict lexicographic order on texts, character by character by code
/// point; a proper prefix comes before the longer text.  This is the order
/// in which Rust orders strings.
pub open spec fn text_lt(a: Seq<char>, b: Seq<char>) -> bool
    decreases a.len(),
{
    if a.len() == 0 {
        b.len() > 0
    } else if b.len() == 0 {
        false
    } else if a[0] != b[0] {
        a[0] < b[0]
    } else {
        text_lt(a.drop_first(), b.drop_first())
    }
}

/// No text comes before itself.
pub proof fn lemma_text_lt_irreflexive(a: Seq<char>)
    ensures
        !text_lt(a, a),
    decreases a.len(),
{
    if a.len() > 0 {
        lemma_text_lt_irreflexive(a.drop_first());
    }
}

/// The order is transitive.
pub proof fn lemma_text_lt_transitive(a: Seq<char>, b: Seq<char>, c: Seq<char>)
    requires
        text_lt(a, b),
        text_lt(b, c),
    ensures
        text_lt(a, c),
    decreases a.len(),
{
    if a.len() > 0 && b.len() > 0 && c.len() > 0 && a[0] == b[0] && b[0] == c[0] {
        lemma_text_lt_transitive(a.drop_first(), b.drop_first(), c.drop_first());
    }
}

/// Of two different texts, exactly one comes first.
pub proof fn lemma_text_lt_total(a: Seq<char>, b: Seq<char>)
    ensures
        a != b ==> (text_lt(a, b) || text_lt(b, a)),
        !(text_lt(a, b) && text_lt(b, a)),
    decreases a.len(),
{
    if a.len() > 0 && b.len() > 0 {
        lemma_text_lt_total(a.drop_first(), b.drop_first());
        if a[0] == b[0] && a.drop_first() == b.drop_first() {
            assert(a =~= seq![a[0]] + a.drop_first());
            assert(b =~= seq![b[0]] + b.drop_first());
        }
    } else if a.len() == 0 && b.len() == 0 {
        assert(a =~= b);
    }
}

/// The outcome of comparing two texts.
#[derive(PartialEq, Eq, Structural, Clone, Copy, Debug)]
pub enum TextOrder {
    Less,
    Equal,
    Greater,
}

/// Compares two texts in the order of `text_lt`.
pub fn compare_chars(a: &Vec<char>, b: &Vec<char>) -> (r: TextOrder)
    ensures
        r == TextOrder::Less <==> text_lt(a@, b@),
        r == TextOrder::Equal <==> a@ == b@,
        r == TextOrder::Greater <==> text_lt(b@, a@),
{
    proof {
        lemma_text_lt_total(a@, b@);
        lemma_text_lt_irreflexive(a@);
    }
    assert(a@.skip(0) =~= a@);
    assert(b@.skip(0) =~= b@);
    let mut i: usize = 0;
    while i < a.len() && i < b.len()
        invariant
            i <= a.len(),
            i <= b.len(),
            a@.take(i as int) == b@.take(i as int),
            text_lt(a@, b@) == text_lt(a@.skip(i as int), b@.skip(i as int)),
            text_lt(b@, a@) == text_lt(b@.skip(i as int), a@.skip(i as int)),
        decreases a.len() - i,
    {
        if a[i] != b[i] {
            assert(a@.skip(i as int)[0] == a@[i as int]);
            assert(b@.skip(i as int)[0] == b@[i as int]);
            if a[i] < b[i] {
                return TextOrder::Less;
            } else {
                return TextOrder::Greater;
            }
        }
        assert(a@.skip(i as int).drop_first() =~= a@.skip(i + 1));
        assert(b@.skip(i as int).drop_first() =~= b@.skip(i + 1));
        assert(a@.take(i + 1) =~= a@.take(i as int).push(a@[i as int]));
        assert(b@.take(i + 1) =~= b@.take(i as int).push(b@[i as int]));
        i = i + 1;
    }
    if i == a.len() && i == b.len() {
        assert(a@ =~= a@.take(i as int));
        assert(b@ =~= b@.take(i as int));
        TextOrder::Equal
    } else if i == a.len() {
        TextOrder::Less
    } else {
        TextOrder::Greater
    }
}

/// Whether two strings hold the same text.
pub fn same_str(a: &str, b: &str) -> (r: bool)
    ensures
        r == (a@ == b@),
{
    let ca = crate::text::chars_of(a);
    let cb = crate::text::chars_of(b);
    compare_chars(&ca, &cb) == TextOrder::Equal
}

/// The texts of a vector of strings.
pub open spec fn texts(v: Seq<String>) -> Seq<Seq<char>> {
    v.map_values(|s: String| s@)
}

/// The texts strictly increase.
pub open spec fn strictly_sorted(ks: Seq<Seq<char>>) -> bool {
    forall|i: int, j: int| 0 <= i < j < ks.len() ==> text_lt(#[trigger] ks[i], #[trigger] ks[j])
}

/// No text comes after a later one.
pub open spec fn sorted_texts(ks: Seq<Seq<char>>) -> bool {
    forall|i: int, j: int| 0 <= i < j < ks.len() ==> !text_lt(#[trigger] ks[j], #[trigger] ks[i])
}

/// Sorts strings by `text_lt`, as `sort` orders `String`s; equal strings
/// keep their order.
pub fn sort_texts(v: &Vec<String>) -> (r: Vec<String>)
    ensures
        sorted_texts(texts(r@)),
        texts(r@).to_multiset() == texts(v@).to_multiset(),
{
    let ghost tv = texts(v@);
    let mut out: Vec<String> = Vec::new();
    let mut i: usize = 0;
    assert(tv.take(0) =~= Seq::<Seq<char>>::empty());
    assert(texts(out@) =~= Seq::<Seq<char>>::empty());
    while i < v.len()
        invariant
            i <= v.len(),
            tv == texts(v@),
            sorted_texts(texts(out@)),
            texts(out@).to_multiset() == tv.take(i as int).to_multiset(),
        decreases v.len() - i,
    {
        let x = crate::text::chars_of(v[i].as_str());
        let ghost xs = x@;
        let ghost before = texts(out@);
        let mut pos: usize = 0;
        while pos < out.len()
            invariant
                pos <= out.len(),
                before == texts(out@),
                x@ == xs,
                forall|k: int| 0 <= k < pos ==> !text_lt(xs, #[trigger] before[k]),
            ensures
                pos <= out.len(),
                forall|k: int| 0 <= k < pos ==> !text_lt(xs, #[trigger] before[k]),
                pos < out.len() ==> text_lt(xs, before[pos as int]),
            decreases out.len() - pos,
        {
            let y = crate::text::chars_of(out[pos].as_str());
            if compare_chars(&x, &y) == TextOrder::Less {
                break;
            }
            pos = pos + 1;
        }
        let ghost stop = pos < out.len();
        assert(stop ==> text_lt(xs, before[pos as int]));
        out.insert(pos, v[i].clone());
        proof {
            let after = texts(out@);
            assert(after =~= before.insert(pos as int, xs));
            assert forall|a: int, b: int| 0 <= a < b < after.len() implies !text_lt(
                #[trigger] after[b],
                #[trigger] after[a],
            ) by {
                lemma_text_lt_total(after[a], after[b]);
                if b < pos {
                    assert(after[a] == before[a] && after[b] == before[b]);
                } else if b == pos {
                    assert(after[a] == before[a]);
                } else if a < pos {
                    assert(after[a] == before[a] && after[b] == before[b - 1]);
                    if text_lt(after[b], after[a]) {
                        assert(text_lt(xs, before[pos as int]));
                        lemma_text_lt_total(before[pos as int], before[b - 1]);
                        if b - 1 > pos {
                            assert(!text_lt(before[b - 1], before[pos as int]));
                        }
                        if before[b - 1] != before[pos as int] {
                            lemma_text_lt_transitive(xs, before[pos as int], before[b - 1]);
                        }
                        lemma_text_lt_transitive(before[a], xs, before[b - 1]);
                        lemma_text_lt_transitive(before[b - 1], before[a], xs);
                        lemma_text_lt_irreflexive(xs);
                    }
                } else if a == pos {
                    assert(after[b] == before[b - 1]);
                    if text_lt(after[b], after[a]) {
                        lemma_text_lt_total(before[pos as int], before[b - 1]);
                        if b - 1 > pos {
                            assert(!text_lt(before[b - 1], before[pos as int]));
                        }
                        if before[b - 1] != before[pos as int] {
                            lemma_text_lt_transitive(xs, before[pos as int], before[b - 1]);
                        }
                        lemma_text_lt_total(xs, before[b - 1]);
                    }
                } else {
                    assert(after[a] == before[a - 1] && after[b] == before[b - 1]);
                }
            }
            assert(after.remove(pos as int) =~= before);
            assert(after[pos as int] == xs);
            assert(tv.take(i + 1) =~= tv.take(i as int).push(xs));
            tv.take(i as int).to_multiset_ensures();
            after.to_multiset_ensures();
            before.to_multiset_ensures();
            assert(after.remove(pos as int).to_multiset() =~= after.to_multiset().remove(after[pos as int]));
            assert(after.contains(xs));
            assert(after.to_multiset().count(xs) > 0);
            assert(after.to_multiset() =~= before.to_multiset().insert(xs));
        }
        i = i + 1;
    }
    assert(tv.take(i as int) =~= tv);
    out
}

} // verus!

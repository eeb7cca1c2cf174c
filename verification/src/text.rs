use vstd::prelude::*;

verus! {

/// The characters of a string, in order.
pub fn chars_of(s: &str) -> (v: Vec<char>)
    ensures
        v@ == s@,
{
    let mut v: Vec<char> = Vec::new();
    for c in it: s.chars()
        invariant
            v@ == it.seq().take(it.index() as int),
    {
        v.push(c);
    }
    v
}

/// `String::from_iter` over characters: the string made of `chars`, in
/// order, as std documents `FromIterator<&char>` for `String`.
#[verifier::external_body]
pub(crate) fn string_of(chars: &[char]) -> (s: String)
    ensures
        s@ == chars@,
{
    String::from_iter(chars.iter())
}

/// The characters `from..to` of `s`.
pub fn sub_chars(s: &Vec<char>, from: usize, to: usize) -> (r: Vec<char>)
    requires
        from <= to <= s.len(),
    ensures
        r@ == s@.subrange(from as int, to as int),
{
    let mut r: Vec<char> = Vec::new();
    let mut i: usize = from;
    while i < to
        invariant
            from <= i <= to <= s.len(),
            r@ == s@.subrange(from as int, i as int),
        decreases to - i,
    {
        r.push(s[i]);
        assert(s@.subrange(from as int, i + 1) =~= s@.subrange(from as int, i as int).push(
            s@[i as int],
        ));
        i = i + 1;
    }
    r
}

/// Appends the characters of `more` to `out`.
pub fn push_chars(out: &mut Vec<char>, more: &Vec<char>)
    ensures
        final(out)@ == old(out)@ + more@,
{
    let mut i: usize = 0;
    while i < more.len()
        invariant
            i <= more.len(),
            out@ == old(out)@ + more@.take(i as int),
        decreases more.len() - i,
    {
        out.push(more[i]);
        assert(more@.take(i + 1) =~= more@.take(i as int).push(more@[i as int]));
        i = i + 1;
    }
    assert(more@.take(i as int) =~= more@);
}

/// Appends the characters of the string `more` to `out`.
pub fn push_str(out: &mut Vec<char>, more: &str)
    ensures
        final(out)@ == old(out)@ + more@,
{
    let cs = chars_of(more);
    push_chars(out, &cs);
}

/// White space as Unicode's `White_Space` property defines it, the set that
/// `char::is_whitespace` tests.
pub open spec fn is_space(c: char) -> bool {
    ||| '\u{9}' <= c <= '\u{d}'
    ||| c == ' '
    ||| c == '\u{85}'
    ||| c == '\u{a0}'
    ||| c == '\u{1680}'
    ||| '\u{2000}' <= c <= '\u{200a}'
    ||| c == '\u{2028}'
    ||| c == '\u{2029}'
    ||| c == '\u{202f}'
    ||| c == '\u{205f}'
    ||| c == '\u{3000}'
}

/// Tests `is_space`.
pub fn space(c: char) -> (b: bool)
    ensures
        b == is_space(c),
{
    ('\u{9}' <= c && c <= '\u{d}') || c == ' ' || c == '\u{85}' || c == '\u{a0}' || c
        == '\u{1680}' || ('\u{2000}' <= c && c <= '\u{200a}') || c == '\u{2028}' || c
        == '\u{2029}' || c == '\u{202f}' || c == '\u{205f}' || c == '\u{3000}'
}

/// `s` without its leading white space.
pub open spec fn trim_start(s: Seq<char>) -> Seq<char>
    decreases s.len(),
{
    if s.len() > 0 && is_space(s[0]) {
        trim_start(s.drop_first())
    } else {
        s
    }
}

/// `s` without its trailing white space.
pub open spec fn trim_end(s: Seq<char>) -> Seq<char>
    decreases s.len(),
{
    if s.len() > 0 && is_space(s.last()) {
        trim_end(s.drop_last())
    } else {
        s
    }
}

/// `s` without leading and trailing white space, as `str::trim` gives it.
pub open spec fn trim(s: Seq<char>) -> Seq<char> {
    trim_end(trim_start(s))
}

/// `trim`, on a vector of characters.
pub fn trim_chars(s: &Vec<char>) -> (r: Vec<char>)
    ensures
        r@ == trim(s@),
{
    let mut i: usize = 0;
    assert(s@.skip(0) =~= s@);
    while i < s.len() && space(s[i])
        invariant
            i <= s.len(),
            trim_start(s@) == trim_start(s@.skip(i as int)),
        decreases s.len() - i,
    {
        assert(s@.skip(i as int).drop_first() =~= s@.skip(i + 1));
        i = i + 1;
    }
    let ghost start = s@.skip(i as int);
    assert(trim_start(s@) == start);
    let mut j: usize = s.len();
    assert(start =~= s@.subrange(i as int, j as int));
    while j > i && space(s[j - 1])
        invariant
            i <= j <= s.len(),
            start == s@.skip(i as int),
            trim_end(start) == trim_end(s@.subrange(i as int, j as int)),
        decreases j,
    {
        assert(s@.subrange(i as int, j as int).drop_last() =~= s@.subrange(i as int, j - 1));
        j = j - 1;
    }
    sub_chars(s, i, j)
}

/// `str::trim`: the string without leading and trailing white space.
pub fn trim_str(s: &str) -> (r: String)
    ensures
        r@ == trim(s@),
{
    let cs = chars_of(s);
    let t = trim_chars(&cs);
    string_of(t.as_slice())
}

/// Whether `s` begins with `p`.
pub open spec fn starts_with(s: Seq<char>, p: Seq<char>) -> bool {
    p.len() <= s.len() && s.take(p.len() as int) == p
}

/// Tests `starts_with`.
pub fn has_prefix(s: &Vec<char>, p: &Vec<char>) -> (b: bool)
    ensures
        b == starts_with(s@, p@),
{
    if p.len() > s.len() {
        return false;
    }
    let mut i: usize = 0;
    while i < p.len()
        invariant
            i <= p.len() <= s.len(),
            s@.take(i as int) == p@.take(i as int),
        decreases p.len() - i,
    {
        if s[i] != p[i] {
            assert(s@.take(p.len() as int)[i as int] != p@[i as int]);
            return false;
        }
        assert(s@.take(i + 1) =~= s@.take(i as int).push(s@[i as int]));
        assert(p@.take(i + 1) =~= p@.take(i as int).push(p@[i as int]));
        i = i + 1;
    }
    assert(p@.take(i as int) =~= p@);
    true
}

/// Position of the first line feed in `s`, or its length when there is none.
pub open spec fn find_newline(s: Seq<char>) -> nat
    decreases s.len(),
{
    if s.len() == 0 || s[0] == '\n' {
        0
    } else {
        1 + find_newline(s.drop_first())
    }
}

/// The characterisation of `find_newline`.
pub proof fn lemma_find_newline(s: Seq<char>, n: int)
    requires
        0 <= n <= s.len(),
        forall|k: int| 0 <= k < n ==> s[k] != '\n',
        n == s.len() || s[n] == '\n',
    ensures
        find_newline(s) == n,
    decreases s.len(),
{
    if s.len() > 0 && s[0] != '\n' {
        lemma_find_newline(s.drop_first(), n - 1);
    }
}

/// A line without a final carriage return.
pub open spec fn strip_cr(l: Seq<char>) -> Seq<char> {
    if l.len() > 0 && l.last() == '\r' {
        l.drop_last()
    } else {
        l
    }
}

/// The lines of `s` as `str::lines` yields them: split at each line feed, a
/// carriage return before a line feed dropped, and no empty line after a
/// final line feed.
pub open spec fn lines(s: Seq<char>) -> Seq<Seq<char>>
    decreases s.len(),
{
    if s.len() == 0 {
        seq![]
    } else {
        let i = find_newline(s);
        if i >= s.len() {
            seq![s]
        } else {
            seq![strip_cr(s.take(i as int))] + lines(s.skip(i as int + 1))
        }
    }
}

/// `lines`, on a vector of characters.
pub fn split_lines(s: &Vec<char>) -> (r: Vec<Vec<char>>)
    ensures
        r@.map_values(|l: Vec<char>| l@) == lines(s@),
{
    let mut out: Vec<Vec<char>> = Vec::new();
    let mut start: usize = 0;
    assert(s@.skip(0) =~= s@);
    while start < s.len()
        invariant
            start <= s.len(),
            lines(s@) == out@.map_values(|l: Vec<char>| l@) + lines(s@.skip(start as int)),
        decreases s.len() - start,
    {
        let ghost rest = s@.skip(start as int);
        let mut j: usize = start;
        while j < s.len() && s[j] != '\n'
            invariant
                start <= j <= s.len(),
                forall|k: int| start <= k < j ==> s@[k] != '\n',
            decreases s.len() - j,
        {
            j = j + 1;
        }
        proof {
            lemma_find_newline(rest, j - start);
            assert(rest.take(j - start) =~= s@.subrange(start as int, j as int));
        }
        let mut line = sub_chars(s, start, j);
        let ghost out_before = out@.map_values(|l: Vec<char>| l@);
        if j < s.len() {
            if line.len() > 0 && line[line.len() - 1] == '\r' {
                line.pop();
            }
            assert(rest.skip(j - start + 1) =~= s@.skip(j + 1));
            start = j + 1;
        } else {
            assert(rest =~= s@.subrange(start as int, j as int));
            start = j;
            assert(s@.skip(start as int) =~= Seq::<char>::empty());
        }
        out.push(line);
        assert(out@.map_values(|l: Vec<char>| l@) =~= out_before.push(line@));
    }
    assert(s@.skip(start as int) =~= Seq::<char>::empty());
    assert(out@.map_values(|l: Vec<char>| l@) + Seq::<Seq<char>>::empty() =~= out@.map_values(
        |l: Vec<char>| l@,
    ));
    out
}

/// Position of the first white space in `s`, or its length when there is
/// none.
pub open spec fn find_space(s: Seq<char>) -> nat
    decreases s.len(),
{
    if s.len() == 0 || is_space(s[0]) {
        0
    } else {
        1 + find_space(s.drop_first())
    }
}

/// The characterisation of `find_space`.
pub proof fn lemma_find_space(s: Seq<char>, n: int)
    requires
        0 <= n <= s.len(),
        forall|k: int| 0 <= k < n ==> !is_space(s[k]),
        n == s.len() || is_space(s[n]),
    ensures
        find_space(s) == n,
    decreases s.len(),
{
    if s.len() > 0 && !is_space(s[0]) {
        lemma_find_space(s.drop_first(), n - 1);
    }
}

/// `find_space` is at most the length, and before it there is no white
/// space.
pub proof fn lemma_find_space_bounds(s: Seq<char>)
    ensures
        find_space(s) <= s.len(),
        find_space(s) < s.len() ==> is_space(s[find_space(s) as int]),
        forall|k: int| 0 <= k < find_space(s) ==> !is_space(s[k]),
    decreases s.len(),
{
    if s.len() > 0 && !is_space(s[0]) {
        lemma_find_space_bounds(s.drop_first());
        assert forall|k: int| 0 <= k < find_space(s) implies !is_space(s[k]) by {
            if k > 0 {
                assert(s[k] == s.drop_first()[k - 1]);
            }
        }
    }
}

/// The words of `s` as `str::split_whitespace` yields them: the maximal
/// runs of characters that are not white space.
pub open spec fn words(s: Seq<char>) -> Seq<Seq<char>>
    decreases s.len(),
{
    if s.len() == 0 {
        seq![]
    } else if is_space(s[0]) {
        words(s.drop_first())
    } else {
        let j = find_space(s);
        proof {
            lemma_find_space_bounds(s);
        }
        seq![s.take(j as int)] + words(s.skip(j as int))
    }
}

/// `words`, on a vector of characters.
pub fn split_words(s: &Vec<char>) -> (r: Vec<Vec<char>>)
    ensures
        r@.map_values(|w: Vec<char>| w@) == words(s@),
{
    let mut out: Vec<Vec<char>> = Vec::new();
    let mut i: usize = 0;
    assert(s@.skip(0) =~= s@);
    while i < s.len()
        invariant
            i <= s.len(),
            words(s@) == out@.map_values(|w: Vec<char>| w@) + words(s@.skip(i as int)),
        decreases s.len() - i,
    {
        let ghost rest = s@.skip(i as int);
        let ghost out_before = out@.map_values(|w: Vec<char>| w@);
        if space(s[i]) {
            assert(rest.drop_first() =~= s@.skip(i + 1));
            i = i + 1;
        } else {
            let mut j: usize = i;
            while j < s.len() && !space(s[j])
                invariant
                    i <= j <= s.len(),
                    forall|k: int| i <= k < j ==> !is_space(s@[k]),
                decreases s.len() - j,
            {
                j = j + 1;
            }
            proof {
                lemma_find_space(rest, j - i);
                assert(rest.take(j - i) =~= s@.subrange(i as int, j as int));
                assert(rest.skip(j - i) =~= s@.skip(j as int));
            }
            let w = sub_chars(s, i, j);
            out.push(w);
            assert(out@.map_values(|w: Vec<char>| w@) =~= out_before.push(w@));
            i = j;
        }
    }
    assert(s@.skip(i as int) =~= Seq::<char>::empty());
    assert(out@.map_values(|w: Vec<char>| w@) + Seq::<Seq<char>>::empty() =~= out@.map_values(
        |w: Vec<char>| w@,
    ));
    out
}

} // verus!

//! Splitting a text into pieces at its delimiters, and pieces into words at
//! their capital letters.

use vstd::prelude::*;

verus! {

/// Whether `c` separates words: an underscore, a hyphen or a space.
pub open spec fn is_delimiter(c: char) -> bool {
    c == '_' || c == '-' || c == ' '
}

/// The number of characters of `s` that stand before its first delimiter.
pub open spec fn run_len(s: Seq<char>) -> nat
    decreases s.len(),
{
    if s.len() == 0 || is_delimiter(s[0]) {
        0
    } else {
        1 + run_len(s.skip(1))
    }
}

/// The leading run is never longer than the text.
pub proof fn lemma_run_len_bound(s: Seq<char>)
    ensures
        run_len(s) <= s.len(),
    decreases s.len(),
{
    if !(s.len() == 0 || is_delimiter(s[0])) {
        lemma_run_len_bound(s.skip(1));
    }
}

/// The maximal delimiter-free stretches of `s`, in order; none of them is empty.
pub open spec fn fragments(s: Seq<char>) -> Seq<Seq<char>>
    decreases s.len(),
    via fragments_decreases
{
    if s.len() == 0 {
        Seq::empty()
    } else if is_delimiter(s[0]) {
        fragments(s.skip(1))
    } else {
        seq![s.take(run_len(s) as int)] + fragments(s.skip(run_len(s) as int))
    }
}

#[via_fn]
proof fn fragments_decreases(s: Seq<char>) {
    lemma_run_len_bound(s);
}

/// A stretch of `k` characters without a delimiter, ended by a delimiter or
/// by the end of the text, is the whole leading run.
pub proof fn lemma_run_len(s: Seq<char>, k: nat)
    requires
        k <= s.len(),
        forall|j: int| 0 <= j < k ==> !is_delimiter(#[trigger] s[j]),
        k == s.len() || is_delimiter(s[k as int]),
    ensures
        run_len(s) == k,
    decreases k,
{
    if k > 0 {
        let t = s.skip(1);
        assert forall|j: int| 0 <= j < k - 1 implies !is_delimiter(#[trigger] t[j]) by {
            assert(t[j] == s[j + 1]);
        }
        lemma_run_len(t, (k - 1) as nat);
    }
}

/// Tells whether `c` separates words.
pub fn delimiter(c: char) -> (r: bool)
    ensures
        r == is_delimiter(c),
{
    c == '_' || c == '-' || c == ' '
}

/// The characters of `s`, one by one.
pub fn chars_of(s: &str) -> (r: Vec<char>)
    ensures
        r@ == s@,
{
    let mut out: Vec<char> = Vec::new();
    for c in it: s.chars()
        invariant
            out@ == it.seq().take(it.index() as int),
            it.seq() == s@,
    {
        out.push(c);
        assert(it.seq().take(it.index() + 1) =~= it.seq().take(it.index() as int).push(c));
    }
    assert(out@ =~= s@);
    out
}

/// Splits `s` at every run of delimiters and drops the empty pieces.
pub fn clean_delimiters<'a>(s: &'a str) -> (r: Vec<&'a str>)
    ensures
        r.deep_view() == fragments(s@),
{
    let chars = chars_of(s);
    let n = chars.len();
    let mut out: Vec<&'a str> = Vec::new();
    let mut i: usize = 0;
    assert(s@.skip(0) =~= s@);
    assert(out.deep_view() =~= Seq::<Seq<char>>::empty());
    while i < n
        invariant
            i <= n,
            n == s@.len(),
            chars@ == s@,
            out.deep_view() + fragments(s@.skip(i as int)) == fragments(s@),
        decreases n - i,
    {
        let ghost rest = s@.skip(i as int);
        if delimiter(chars[i]) {
            assert(rest.skip(1) =~= s@.skip(i + 1));
            i += 1;
        } else {
            let start = i;
            let ghost before = out.deep_view();
            while i < n && !delimiter(chars[i])
                invariant
                    start <= i <= n,
                    n == s@.len(),
                    chars@ == s@,
                    forall|k: int| start <= k < i ==> !is_delimiter(#[trigger] s@[k]),
                decreases n - i,
            {
                i += 1;
            }
            let piece = s.substring_char(start, i);
            out.push(piece);
            proof {
                lemma_run_len(rest, (i - start) as nat);
                assert(rest.take(i - start) =~= s@.subrange(start as int, i as int));
                assert(rest.skip(i - start) =~= s@.skip(i as int));
                assert(out.deep_view() =~= before.push(piece@));
                assert(before.push(piece@) + fragments(s@.skip(i as int)) =~= before + (seq![
                    piece@,
                ] + fragments(s@.skip(i as int))));
            }
        }
    }
    assert(s@.skip(n as int) =~= Seq::<char>::empty());
    assert(out.deep_view() + Seq::<Seq<char>>::empty() =~= out.deep_view());
    out
}

/// Whether `c` is one of the letters `a` to `z`.
pub open spec fn is_lower(c: char) -> bool {
    'a' <= c <= 'z'
}

/// Whether `c` is one of the letters `A` to `Z`.
pub open spec fn is_upper(c: char) -> bool {
    'A' <= c <= 'Z'
}

/// Whether a new word begins at position `i` of `w`: a small letter is
/// followed by a capital, or a run of capitals by a capital and a small letter.
pub open spec fn is_boundary(w: Seq<char>, i: int) -> bool {
    &&& 0 < i < w.len()
    &&& is_upper(w[i])
    &&& (is_lower(w[i - 1]) || (is_upper(w[i - 1]) && i + 1 < w.len() && is_lower(w[i + 1])))
}

/// The first word boundary of `w` at or after `from`; the length of `w` when
/// there is none.
pub open spec fn next_cut(w: Seq<char>, from: int) -> int
    decreases w.len() - from,
{
    if from >= w.len() {
        w.len() as int
    } else if is_boundary(w, from) {
        from
    } else {
        next_cut(w, from + 1)
    }
}

/// The next cut lies between the place the search started from and the end.
pub proof fn lemma_next_cut_bounds(w: Seq<char>, from: int)
    requires
        from <= w.len(),
    ensures
        from <= next_cut(w, from) <= w.len(),
    decreases w.len() - from,
{
    if from < w.len() && !is_boundary(w, from) {
        lemma_next_cut_bounds(w, from + 1);
    }
}

/// With no boundary in `from..to`, and `to` a boundary or the end, the next cut
/// after `from` is `to`.
pub proof fn lemma_next_cut_is(w: Seq<char>, from: int, to: int)
    requires
        from <= to <= w.len(),
        forall|k: int| from <= k < to ==> !is_boundary(w, k),
        to == w.len() || is_boundary(w, to),
    ensures
        next_cut(w, from) == to,
    decreases to - from,
{
    if from < to {
        lemma_next_cut_is(w, from + 1, to);
    }
}

/// The words of `w` from position `start` on: `w` cut at each boundary.
pub open spec fn split_from(w: Seq<char>, start: int) -> Seq<Seq<char>>
    decreases w.len() - start,
    via split_from_decreases
{
    if start < 0 || start >= w.len() {
        Seq::empty()
    } else {
        seq![w.subrange(start, next_cut(w, start + 1))] + split_from(w, next_cut(w, start + 1))
    }
}

#[via_fn]
proof fn split_from_decreases(w: Seq<char>, start: int) {
    if 0 <= start < w.len() {
        lemma_next_cut_bounds(w, start + 1);
    }
}

/// The words of one delimiter-free piece. An empty piece is kept as it is.
pub open spec fn split_word(w: Seq<char>) -> Seq<Seq<char>> {
    if w.len() == 0 {
        seq![w]
    } else {
        split_from(w, 0)
    }
}

/// The words of each piece in turn, as one sequence.
pub open spec fn split_words(pieces: Seq<Seq<char>>) -> Seq<Seq<char>> {
    pieces.map_values(|w: Seq<char>| split_word(w)).flatten()
}

/// Splitting one more piece appends its words.
pub proof fn lemma_split_words_push(pieces: Seq<Seq<char>>, w: Seq<char>)
    ensures
        split_words(pieces.push(w)) == split_words(pieces) + split_word(w),
{
    let f = |w: Seq<char>| split_word(w);
    assert(pieces.push(w).map_values(f) =~= pieces.map_values(f).push(split_word(w)));
    pieces.map_values(f).lemma_flatten_push(split_word(w));
}

/// Tells whether `c` is a small letter.
pub fn lower(c: char) -> (r: bool)
    ensures
        r == is_lower(c),
{
    'a' <= c && c <= 'z'
}

/// Tells whether `c` is a capital letter.
pub fn upper(c: char) -> (r: bool)
    ensures
        r == is_upper(c),
{
    'A' <= c && c <= 'Z'
}

/// Tells whether a word begins at position `i` of `w`.
pub fn boundary(w: &Vec<char>, i: usize) -> (r: bool)
    ensures
        r == is_boundary(w@, i as int),
{
    if i == 0 || i >= w.len() {
        return false;
    }
    if !upper(w[i]) {
        return false;
    }
    lower(w[i - 1]) || (upper(w[i - 1]) && i + 1 < w.len() && lower(w[i + 1]))
}

/// Cuts each of `words` where a capital letter begins a new word: `getJSON`
/// gives `get` and `JSON`, `XMLHttp` gives `XML` and `Http`.
pub fn split_capitalized_words<'a>(words: Vec<&'a str>) -> (r: Vec<&'a str>)
    ensures
        r.deep_view() == split_words(words.deep_view()),
{
    let mut out: Vec<&'a str> = Vec::new();
    let ghost all = words.deep_view();
    assert(out.deep_view() =~= Seq::<Seq<char>>::empty());
    assert(all.take(0).map_values(|w: Seq<char>| split_word(w)) =~= Seq::<Seq<Seq<char>>>::empty());
    for j in 0..words.len()
        invariant
            all == words.deep_view(),
            out.deep_view() == split_words(all.take(j as int)),
    {
        let word: &'a str = words[j];
        let chars = chars_of(word);
        let n = chars.len();
        let ghost base = out.deep_view();
        proof {
            assert(all.take(j + 1) =~= all.take(j as int).push(word@));
            lemma_split_words_push(all.take(j as int), word@);
        }
        if n == 0 {
            out.push(word);
            assert(out.deep_view() =~= base + split_word(word@));
        } else {
            let mut start: usize = 0;
            let mut i: usize = 1;
            while i < n
                invariant
                    start < i <= n,
                    n == word@.len(),
                    chars@ == word@,
                    forall|k: int| start < k < i ==> !is_boundary(word@, k),
                    out.deep_view() + split_from(word@, start as int) == base + split_word(word@),
                decreases n - i,
            {
                if boundary(&chars, i) {
                    let piece = word.substring_char(start, i);
                    let ghost before = out.deep_view();
                    out.push(piece);
                    proof {
                        lemma_next_cut_is(word@, start + 1, i as int);
                        assert(out.deep_view() =~= before.push(piece@));
                        assert(before.push(piece@) + split_from(word@, i as int) =~= before + (seq![
                            piece@,
                        ] + split_from(word@, i as int)));
                    }
                    start = i;
                }
                i += 1;
            }
            let piece = word.substring_char(start, n);
            let ghost before = out.deep_view();
            out.push(piece);
            proof {
                lemma_next_cut_is(word@, start + 1, n as int);
                assert(split_from(word@, n as int) =~= Seq::<Seq<char>>::empty());
                assert(out.deep_view() =~= before.push(piece@));
                assert(before.push(piece@) =~= before + (seq![piece@] + split_from(
                    word@,
                    n as int,
                )));
            }
        }
    }
    assert(all.take(words.len() as int) =~= all);
    out
}

} // verus!

//! What holds of case conversion: what the words of a text are, when a
//! second conversion changes nothing, and when a conversion keeps the words.

use crate::strings::{
    capitalized, cased, converted, joined, lemma_cased_push, lowered, next_part, to_lower, to_upper,
    words_of, StringMode,
};
use crate::strings_helpers::{
    fragments, is_boundary, is_delimiter, is_lower, is_upper, lemma_next_cut_bounds,
    lemma_next_cut_is, lemma_run_len, lemma_split_words_push, next_cut, run_len, split_from,
    split_word, split_words,
};
use vstd::prelude::*;
use vstd::seq_lib::lemma_flatten_concat;

verus! {

/// Whether `t` holds no delimiter.
pub open spec fn no_delimiter(t: Seq<char>) -> bool {
    forall|i: int| 0 <= i < t.len() ==> !is_delimiter(#[trigger] t[i])
}

/// Whether `t` holds no capital letter.
pub open spec fn no_capital(t: Seq<char>) -> bool {
    forall|i: int| 0 <= i < t.len() ==> !is_upper(#[trigger] t[i])
}

/// Whether `w` can be a word: not empty, and without a delimiter.
pub open spec fn plain_word(w: Seq<char>) -> bool {
    w.len() > 0 && no_delimiter(w)
}

/// Whether each of `words` can be a word.
pub open spec fn plain_words(words: Seq<Seq<char>>) -> bool {
    forall|i: int| 0 <= i < words.len() ==> plain_word(#[trigger] words[i])
}

/// The leading run ends within the text, holds no delimiter, and is ended by
/// a delimiter or by the end of the text.
pub proof fn lemma_run_len_props(s: Seq<char>)
    ensures
        run_len(s) <= s.len(),
        forall|j: int| 0 <= j < run_len(s) ==> !is_delimiter(#[trigger] s[j]),
        run_len(s) == s.len() || is_delimiter(s[run_len(s) as int]),
    decreases s.len(),
{
    if !(s.len() == 0 || is_delimiter(s[0])) {
        let t = s.skip(1);
        lemma_run_len_props(t);
        assert forall|j: int| 0 <= j < run_len(s) implies !is_delimiter(#[trigger] s[j]) by {
            if j > 0 {
                assert(s[j] == t[j - 1]);
            }
        }
        if run_len(s) < s.len() {
            assert(s[run_len(s) as int] == t[run_len(t) as int]);
        }
    }
}

/// The pieces that the delimiters divide a text into can each be a word.
pub proof fn lemma_fragments_plain(s: Seq<char>)
    ensures
        plain_words(fragments(s)),
    decreases s.len(),
{
    if s.len() == 0 {
    } else if is_delimiter(s[0]) {
        lemma_fragments_plain(s.skip(1));
    } else {
        let n = run_len(s) as int;
        lemma_run_len_props(s);
        lemma_fragments_plain(s.skip(n));
        let head = s.take(n);
        let tail = fragments(s.skip(n));
        assert(plain_word(head));
        assert forall|i: int| 0 <= i < fragments(s).len() implies plain_word(
            #[trigger] fragments(s)[i],
        ) by {
            if i > 0 {
                assert(fragments(s)[i] == tail[i - 1]);
            }
        }
    }
}

/// Cutting a delimiter-free text at its word boundaries leaves pieces that
/// can each be a word.
pub proof fn lemma_split_from_plain(w: Seq<char>, start: int)
    requires
        no_delimiter(w),
        0 <= start <= w.len(),
    ensures
        plain_words(split_from(w, start)),
    decreases w.len() - start,
{
    if start < w.len() {
        let e = next_cut(w, start + 1);
        lemma_next_cut_bounds(w, start + 1);
        lemma_split_from_plain(w, e);
        let head = w.subrange(start, e);
        let tail = split_from(w, e);
        assert(plain_word(head));
        assert forall|i: int| 0 <= i < split_from(w, start).len() implies plain_word(
            #[trigger] split_from(w, start)[i],
        ) by {
            if i > 0 {
                assert(split_from(w, start)[i] == tail[i - 1]);
            }
        }
    }
}

/// Cutting pieces that can be words leaves pieces that can be words.
pub proof fn lemma_split_words_plain(pieces: Seq<Seq<char>>)
    requires
        plain_words(pieces),
    ensures
        plain_words(split_words(pieces)),
    decreases pieces.len(),
{
    if pieces.len() == 0 {
        assert(pieces.map_values(|w: Seq<char>| split_word(w)) =~= Seq::<Seq<Seq<char>>>::empty());
    } else {
        let front = pieces.drop_last();
        let last = pieces.last();
        assert(front.push(last) =~= pieces);
        assert forall|i: int| 0 <= i < front.len() implies plain_word(#[trigger] front[i]) by {
            assert(front[i] == pieces[i]);
        }
        lemma_split_words_plain(front);
        lemma_split_words_push(front, last);
        assert(plain_word(last));
        lemma_split_from_plain(last, 0);
    }
}

/// Every word of a text is non-empty and holds no delimiter.
pub proof fn lemma_words_plain(s: Seq<char>)
    ensures
        plain_words(words_of(s)),
{
    lemma_fragments_plain(s);
    lemma_split_words_plain(fragments(s));
}

/// Making a word small keeps its length, brings in no delimiter, leaves no
/// capital, and changes nothing when done again.
pub proof fn lemma_lowered(w: Seq<char>)
    ensures
        lowered(w).len() == w.len(),
        no_delimiter(w) ==> no_delimiter(lowered(w)),
        no_capital(lowered(w)),
        lowered(lowered(w)) == lowered(w),
{
    assert(lowered(lowered(w)) =~= lowered(w));
}

/// A text that can be a word is its own single piece.
pub proof fn lemma_fragments_single(w: Seq<char>)
    requires
        plain_word(w),
    ensures
        fragments(w) == seq![w],
{
    lemma_run_len(w, w.len());
    assert(w.take(w.len() as int) =~= w);
    assert(fragments(w.skip(w.len() as int)) =~= Seq::<Seq<char>>::empty());
    assert(fragments(w) =~= seq![w]);
}

/// A delimiter between two texts keeps their pieces apart.
pub proof fn lemma_fragments_after_delimiter(x: Seq<char>, d: char, y: Seq<char>)
    requires
        is_delimiter(d),
    ensures
        fragments(x.push(d) + y) == fragments(x) + fragments(y),
    decreases x.len(),
{
    let z = x.push(d) + y;
    if x.len() == 0 {
        assert(z.skip(1) =~= y);
        assert(fragments(x) + fragments(y) =~= fragments(y));
    } else if is_delimiter(x[0]) {
        assert(z.skip(1) =~= x.skip(1).push(d) + y);
        lemma_fragments_after_delimiter(x.skip(1), d, y);
    } else {
        let n = run_len(x);
        lemma_run_len_props(x);
        assert forall|j: int| 0 <= j < n implies !is_delimiter(#[trigger] z[j]) by {
            assert(z[j] == x[j]);
        }
        lemma_run_len(z, n);
        assert(z.take(n as int) =~= x.take(n as int));
        assert(z.skip(n as int) =~= x.skip(n as int).push(d) + y);
        lemma_fragments_after_delimiter(x.skip(n as int), d, y);
        assert(fragments(z) =~= fragments(x) + fragments(y));
    }
}

/// Words joined by a delimiter come apart again into the same words.
pub proof fn lemma_fragments_joined(parts: Seq<Seq<char>>, sep: char)
    requires
        plain_words(parts),
        is_delimiter(sep),
    ensures
        fragments(joined(parts, sep)) == parts,
    decreases parts.len(),
{
    if parts.len() == 0 {
        assert(fragments(joined(parts, sep)) =~= parts);
    } else if parts.len() == 1 {
        lemma_fragments_single(parts[0]);
        assert(seq![parts[0]] =~= parts);
    } else {
        let front = parts.drop_last();
        assert forall|i: int| 0 <= i < front.len() implies plain_word(#[trigger] front[i]) by {
            assert(front[i] == parts[i]);
        }
        lemma_fragments_joined(front, sep);
        lemma_fragments_after_delimiter(joined(front, sep), sep, parts.last());
        lemma_fragments_single(parts.last());
        assert(front + seq![parts.last()] =~= parts);
    }
}

/// A piece without a capital letter is one word.
pub proof fn lemma_split_word_small(w: Seq<char>)
    requires
        w.len() > 0,
        no_capital(w),
    ensures
        split_word(w) == seq![w],
{
    lemma_next_cut_is(w, 1, w.len() as int);
    assert(w.subrange(0, w.len() as int) =~= w);
    assert(split_from(w, w.len() as int) =~= Seq::<Seq<char>>::empty());
    assert(split_word(w) =~= seq![w]);
}

/// Pieces without a capital letter are words as they stand.
pub proof fn lemma_split_words_small(pieces: Seq<Seq<char>>)
    requires
        forall|i: int| 0 <= i < pieces.len() ==> (#[trigger] pieces[i]).len() > 0,
        forall|i: int| 0 <= i < pieces.len() ==> no_capital(#[trigger] pieces[i]),
    ensures
        split_words(pieces) == pieces,
    decreases pieces.len(),
{
    if pieces.len() == 0 {
        assert(pieces.map_values(|w: Seq<char>| split_word(w)) =~= Seq::<Seq<Seq<char>>>::empty());
        assert(split_words(pieces) =~= pieces);
    } else {
        let front = pieces.drop_last();
        let last = pieces.last();
        assert(front.push(last) =~= pieces);
        assert forall|i: int| 0 <= i < front.len() implies (#[trigger] front[i]).len() > 0
            && no_capital(front[i]) by {
            assert(front[i] == pieces[i]);
        }
        lemma_split_words_small(front);
        lemma_split_words_push(front, last);
        lemma_split_word_small(last);
        assert(front + seq![last] =~= pieces);
    }
}

/// Text in snake or kebab case has for its words the words it was written
/// from, made small.
pub proof fn lemma_words_of_joined(words: Seq<Seq<char>>, sep: char)
    requires
        plain_words(words),
        is_delimiter(sep),
    ensures
        words_of(joined(words.map_values(|w: Seq<char>| lowered(w)), sep)) == words.map_values(
            |w: Seq<char>| lowered(w),
        ),
{
    let small = words.map_values(|w: Seq<char>| lowered(w));
    assert forall|i: int| 0 <= i < small.len() implies plain_word(#[trigger] small[i])
        && no_capital(small[i]) by {
        assert(plain_word(words[i]));
        lemma_lowered(words[i]);
    }
    lemma_fragments_joined(small, sep);
    lemma_split_words_small(small);
}

/// Converting to snake case or to kebab case a second time changes nothing.
pub proof fn lemma_joined_case_idempotent(s: Seq<char>, mode: StringMode)
    requires
        mode == StringMode::SnakeCase || mode == StringMode::KebabCase,
    ensures
        converted(converted(s, mode), mode) == converted(s, mode),
{
    let sep = if mode == StringMode::SnakeCase {
        '_'
    } else {
        '-'
    };
    let words = words_of(s);
    let small = words.map_values(|w: Seq<char>| lowered(w));
    lemma_words_plain(s);
    lemma_words_of_joined(words, sep);
    assert(converted(s, mode) == joined(small, sep));
    assert(small.map_values(|w: Seq<char>| lowered(w)) =~= small) by {
        assert forall|i: int| 0 <= i < small.len() implies lowered(#[trigger] small[i])
            == small[i] by {
            lemma_lowered(words[i]);
        }
    }
}

/// `t` with a capital at the head of each of its words and small letters
/// elsewhere; with `first_capital` unset, the first word is all small.
pub open spec fn recased(t: Seq<char>, first_capital: bool) -> Seq<char> {
    Seq::new(
        t.len(),
        |k: int|
            if (k == 0 && first_capital) || is_boundary(t, k) {
                to_upper(t[k])
            } else {
                to_lower(t[k])
            },
    )
}

/// The part of `recased` from the word that begins at `start` on.
pub open spec fn recased_from(t: Seq<char>, start: int) -> Seq<char> {
    Seq::new(
        (t.len() - start) as nat,
        |j: int|
            if j == 0 || is_boundary(t, start + j) {
                to_upper(t[start + j])
            } else {
                to_lower(t[start + j])
            },
    )
}

/// No boundary lies before the next cut, and the next cut is a boundary or
/// the end.
pub proof fn lemma_next_cut_props(w: Seq<char>, from: int)
    requires
        0 <= from <= w.len(),
    ensures
        from <= next_cut(w, from) <= w.len(),
        forall|k: int| from <= k < next_cut(w, from) ==> !is_boundary(w, k),
        next_cut(w, from) == w.len() || is_boundary(w, next_cut(w, from)),
    decreases w.len() - from,
{
    if from < w.len() && !is_boundary(w, from) {
        lemma_next_cut_props(w, from + 1);
    }
}

/// In Pascal case a first word is written before the others.
pub proof fn lemma_pascal_front(p: Seq<char>, rest: Seq<Seq<char>>)
    ensures
        cased(seq![p] + rest, StringMode::PascalCase) == capitalized(p) + cased(
            rest,
            StringMode::PascalCase,
        ),
{
    let f = |w: Seq<char>| capitalized(w);
    let all = (seq![p] + rest).map_values(f);
    assert(all.drop_first() =~= rest.map_values(f));
}

/// In camel case a first word is written small, and the others follow as in
/// Pascal case.
pub proof fn lemma_camel_front(p: Seq<char>, rest: Seq<Seq<char>>)
    ensures
        cased(seq![p] + rest, StringMode::CamelCase) == lowered(p) + cased(
            rest,
            StringMode::PascalCase,
        ),
{
    let f = |i: int, w: Seq<char>|
        if i == 0 {
            lowered(w)
        } else {
            capitalized(w)
        };
    let g = |w: Seq<char>| capitalized(w);
    let all = (seq![p] + rest).map(f);
    assert(all.drop_first() =~= rest.map_values(g));
}

/// The words of `t` from `start` on, written in Pascal case, are `t` from
/// there on with a capital at each word's head and small letters elsewhere.
pub proof fn lemma_pascal_of_split(t: Seq<char>, start: int)
    requires
        0 <= start <= t.len(),
    ensures
        cased(split_from(t, start), StringMode::PascalCase) == recased_from(t, start),
    decreases t.len() - start,
{
    if start >= t.len() {
        let none = Seq::<Seq<char>>::empty();
        assert(split_from(t, start) =~= none);
        assert(none.map_values(|w: Seq<char>| capitalized(w)) =~= Seq::<Seq<char>>::empty());
        assert(cased(none, StringMode::PascalCase) =~= recased_from(t, start));
    } else {
        let e = next_cut(t, start + 1);
        lemma_next_cut_props(t, start + 1);
        let p = t.subrange(start, e);
        lemma_pascal_of_split(t, e);
        lemma_pascal_front(p, split_from(t, e));
        assert(capitalized(p) + recased_from(t, e) =~= recased_from(t, start));
    }
}

/// The words of a non-empty `t`, written in camel case or in Pascal case,
/// are `t` with a capital at each word's head and small letters elsewhere.
pub proof fn lemma_cased_of_split(t: Seq<char>, first_capital: bool)
    requires
        t.len() > 0,
    ensures
        cased(
            split_from(t, 0),
            if first_capital {
                StringMode::PascalCase
            } else {
                StringMode::CamelCase
            },
        ) == recased(t, first_capital),
{
    if first_capital {
        lemma_pascal_of_split(t, 0);
        assert(recased_from(t, 0) =~= recased(t, true));
    } else {
        let e = next_cut(t, 1);
        lemma_next_cut_props(t, 1);
        let p = t.subrange(0, e);
        lemma_pascal_of_split(t, e);
        lemma_camel_front(p, split_from(t, e));
        assert(lowered(p) + recased_from(t, e) =~= recased(t, false));
    }
}

/// A text without delimiters, converted to camel case or to Pascal case, is
/// the text with a capital at each word's head and small letters elsewhere.
pub proof fn lemma_converted_plain(t: Seq<char>, first_capital: bool)
    requires
        no_delimiter(t),
    ensures
        converted(
            t,
            if first_capital {
                StringMode::PascalCase
            } else {
                StringMode::CamelCase
            },
        ) == recased(t, first_capital),
{
    let mode = if first_capital {
        StringMode::PascalCase
    } else {
        StringMode::CamelCase
    };
    let f = |w: Seq<char>| split_word(w);
    if t.len() == 0 {
        let none = Seq::<Seq<char>>::empty();
        assert(fragments(t) =~= none);
        assert(none.map_values(f) =~= Seq::<Seq<Seq<char>>>::empty());
        assert(words_of(t) =~= none);
        assert(none.map_values(|w: Seq<char>| capitalized(w)) =~= none);
        assert(none.map(
            |i: int, w: Seq<char>|
                if i == 0 {
                    lowered(w)
                } else {
                    capitalized(w)
                },
        ) =~= none);
        assert(cased(none, mode) =~= recased(t, first_capital));
    } else {
        lemma_fragments_single(t);
        assert(seq![t].map_values(f) =~= seq![split_word(t)]);
        seq![split_word(t)].lemma_flatten_one_element();
        assert(words_of(t) == split_from(t, 0));
        lemma_cased_of_split(t, first_capital);
    }
}

/// Words without delimiters, written in camel case or in Pascal case, give a
/// text without delimiters.
pub proof fn lemma_cased_plain(words: Seq<Seq<char>>, mode: StringMode)
    requires
        plain_words(words),
        mode == StringMode::CamelCase || mode == StringMode::PascalCase,
    ensures
        no_delimiter(cased(words, mode)),
    decreases words.len(),
{
    if words.len() == 0 {
        assert(words.map_values(|w: Seq<char>| capitalized(w)) =~= Seq::<Seq<char>>::empty());
        assert(words.map(
            |i: int, w: Seq<char>|
                if i == 0 {
                    lowered(w)
                } else {
                    capitalized(w)
                },
        ) =~= Seq::<Seq<char>>::empty());
        assert(cased(words, mode) =~= Seq::<char>::empty());
    } else {
        let front = words.drop_last();
        let last = words.last();
        assert(front.push(last) =~= words);
        assert forall|i: int| 0 <= i < front.len() implies plain_word(#[trigger] front[i]) by {
            assert(front[i] == words[i]);
        }
        lemma_cased_plain(front, mode);
        lemma_cased_push(front, last, mode);
        assert(plain_word(last));
        let part = next_part(front.len() as int, last, mode);
        assert(no_delimiter(part)) by {
            assert forall|i: int| 0 <= i < part.len() implies !is_delimiter(#[trigger] part[i]) by {
                assert(!is_delimiter(last[i]));
            }
        }
    }
}

/// Whether every capital letter of `t` begins one of its words. In Pascal
/// case the first character is left out of the question.
pub open spec fn capitals_begin_words(t: Seq<char>, mode: StringMode) -> bool {
    match mode {
        StringMode::CamelCase => forall|k: int|
            0 <= k < t.len() && is_upper(#[trigger] t[k]) ==> is_boundary(t, k),
        StringMode::PascalCase => forall|k: int|
            0 < k < t.len() && is_upper(#[trigger] t[k]) ==> is_boundary(t, k),
        _ => true,
    }
}

/// A text in Pascal case does not begin with a small letter.
pub proof fn lemma_pascal_head(words: Seq<Seq<char>>)
    requires
        plain_words(words),
        words.len() > 0,
    ensures
        cased(words, StringMode::PascalCase).len() > 0,
        !is_lower(cased(words, StringMode::PascalCase)[0]),
{
    let p = words[0];
    assert(plain_word(p));
    assert(seq![p] + words.skip(1) =~= words);
    lemma_pascal_front(p, words.skip(1));
}

/// Converting a second time to the same case changes nothing exactly when
/// every capital letter of the converted text begins one of its words; in
/// snake case and in kebab case it never changes anything.
pub proof fn lemma_conversion_idempotent(s: Seq<char>, mode: StringMode)
    ensures
        converted(converted(s, mode), mode) == converted(s, mode) <==> capitals_begin_words(
            converted(s, mode),
            mode,
        ),
{
    match mode {
        StringMode::SnakeCase => {
            lemma_joined_case_idempotent(s, mode);
        },
        StringMode::KebabCase => {
            lemma_joined_case_idempotent(s, mode);
        },
        StringMode::CamelCase => {
            let t = converted(s, mode);
            lemma_words_plain(s);
            lemma_cased_plain(words_of(s), mode);
            lemma_converted_plain(t, false);
            let r = recased(t, false);
            if capitals_begin_words(t, mode) {
                assert(r =~= t);
            }
            if r == t {
                assert forall|k: int| 0 <= k < t.len() && is_upper(#[trigger] t[k]) implies is_boundary(
                    t,
                    k,
                ) by {
                    assert(r[k] == t[k]);
                }
            }
        },
        StringMode::PascalCase => {
            let t = converted(s, mode);
            lemma_words_plain(s);
            lemma_cased_plain(words_of(s), mode);
            lemma_converted_plain(t, true);
            let r = recased(t, true);
            if words_of(s).len() > 0 {
                lemma_pascal_head(words_of(s));
            } else {
                assert(words_of(s).map_values(|w: Seq<char>| capitalized(w)) =~= Seq::<
                    Seq<char>,
                >::empty());
                assert(t.len() == 0);
            }
            if capitals_begin_words(t, mode) {
                assert(r =~= t);
            }
            if r == t {
                assert forall|k: int| 0 < k < t.len() && is_upper(#[trigger] t[k]) implies is_boundary(
                    t,
                    k,
                ) by {
                    assert(r[k] == t[k]);
                }
            }
        },
    }
}

/// What camel case writes for each of the words: the first made small, the
/// others with a capital at their head.
pub open spec fn camel_parts(words: Seq<Seq<char>>) -> Seq<Seq<char>> {
    words.map(
        |i: int, w: Seq<char>|
            if i == 0 {
                lowered(w)
            } else {
                capitalized(w)
            },
    )
}

/// Whether a word boundary falls where `after` is set right behind `before`:
/// `after` begins with a capital, and either `before` ends in a small letter,
/// or it ends in a capital and `after` goes on with a small letter.
pub open spec fn joint(before: Seq<char>, after: Seq<char>) -> bool {
    is_boundary(before + after, before.len() as int)
}

/// Whether a word boundary falls between each two neighbours among `parts`.
pub open spec fn clean_joints(parts: Seq<Seq<char>>) -> bool {
    forall|i: int| 0 < i < parts.len() ==> joint(parts[i - 1], #[trigger] parts[i])
}

/// Whether `part` is not empty and holds no capital after its first character.
pub open spec fn one_word(part: Seq<char>) -> bool {
    &&& part.len() > 0
    &&& forall|j: int| 0 < j < part.len() ==> !is_upper(#[trigger] part[j])
}

/// The length of the first `i` parts together.
pub open spec fn offset(parts: Seq<Seq<char>>, i: int) -> int {
    parts.take(i).flatten().len() as int
}

/// The first `i` parts, run together, are the beginning of all the parts
/// run together, and the next part follows them there.
pub proof fn lemma_flatten_layout(parts: Seq<Seq<char>>, i: int)
    requires
        0 <= i <= parts.len(),
    ensures
        0 <= offset(parts, i) <= parts.flatten().len(),
        parts.take(i).flatten() == parts.flatten().take(offset(parts, i)),
        i < parts.len() ==> offset(parts, i + 1) == offset(parts, i) + parts[i].len()
            && parts[i] == parts.flatten().subrange(offset(parts, i), offset(parts, i + 1)),
        i == parts.len() ==> offset(parts, i) == parts.flatten().len(),
        i == 0 ==> offset(parts, i) == 0,
    decreases parts.len() - i,
{
    let all = parts.flatten();
    if i == parts.len() {
        assert(parts.take(i) =~= parts);
        assert(all.take(all.len() as int) =~= all);
    } else {
        lemma_flatten_layout(parts, i + 1);
        assert(parts.take(i + 1) =~= parts.take(i).push(parts[i]));
        parts.take(i).lemma_flatten_push(parts[i]);
        let head = parts.take(i).flatten();
        let more = parts.take(i + 1).flatten();
        assert(more =~= head + parts[i]);
        assert(head =~= more.take(head.len() as int));
        assert(all.take(offset(parts, i + 1)).take(head.len() as int) =~= all.take(
            head.len() as int,
        ));
        assert(parts[i] =~= more.subrange(head.len() as int, more.len() as int));
        assert(parts[i] =~= all.subrange(offset(parts, i), offset(parts, i + 1)));
    }
    if i == 0 {
        assert(parts.take(0) =~= Seq::<Seq<char>>::empty());
    }
}

/// Parts that are one word each, with a word boundary between each two
/// neighbours, are the words of the text that they make when run together.
pub proof fn lemma_split_of_parts(parts: Seq<Seq<char>>, i: int)
    requires
        0 <= i <= parts.len(),
        forall|k: int| 0 <= k < parts.len() ==> one_word(#[trigger] parts[k]),
        clean_joints(parts),
    ensures
        split_from(parts.flatten(), offset(parts, i)) == parts.skip(i),
    decreases parts.len() - i,
{
    let all = parts.flatten();
    lemma_flatten_layout(parts, i);
    if i == parts.len() {
        assert(split_from(all, offset(parts, i)) =~= parts.skip(i));
    } else {
        let start = offset(parts, i);
        let end = offset(parts, i + 1);
        lemma_flatten_layout(parts, i + 1);
        lemma_split_of_parts(parts, i + 1);
        assert(one_word(parts[i]));
        assert forall|k: int| start + 1 <= k < end implies !is_boundary(all, k) by {
            assert(all[k] == parts[i][k - start]);
        }
        if i + 1 < parts.len() {
            let next = parts[i + 1];
            lemma_flatten_layout(parts, i + 2);
            assert(one_word(next));
            assert(joint(parts[i], next));
            let pair = parts[i] + next;
            assert(pair[parts[i].len() - 1] == all[end - 1]);
            assert(pair[parts[i].len() as int] == all[end]) by {
                assert(next[0] == all.subrange(end, offset(parts, i + 2))[0]);
            }
            if next.len() > 1 {
                assert(pair[parts[i].len() as int + 1] == all[end + 1]) by {
                    assert(next[1] == all.subrange(end, offset(parts, i + 2))[1]);
                }
            }
            assert(is_boundary(all, end));
        }
        lemma_next_cut_is(all, start + 1, end);
        assert(parts.skip(i) =~= seq![parts[i]] + parts.skip(i + 1));
    }
}

/// Words written in camel case and read again are the parts that camel case
/// wrote, if a word boundary falls between each two neighbouring parts.
pub proof fn lemma_camel_keeps_words(words: Seq<Seq<char>>)
    requires
        plain_words(words),
        clean_joints(camel_parts(words)),
    ensures
        words_of(cased(words, StringMode::CamelCase)) == camel_parts(words),
{
    let parts = camel_parts(words);
    let text = cased(words, StringMode::CamelCase);
    assert(text == parts.flatten());
    lemma_cased_plain(words, StringMode::CamelCase);
    assert forall|k: int| 0 <= k < parts.len() implies one_word(#[trigger] parts[k]) by {
        assert(plain_word(words[k]));
    }
    if words.len() == 0 {
        assert(parts =~= Seq::<Seq<char>>::empty());
        assert(text =~= Seq::<char>::empty());
        assert(fragments(text) =~= Seq::<Seq<char>>::empty());
        assert(fragments(text).map_values(|w: Seq<char>| split_word(w)) =~= Seq::<
            Seq<Seq<char>>,
        >::empty());
        assert(words_of(text) =~= parts);
    } else {
        lemma_flatten_layout(parts, 0);
        lemma_flatten_layout(parts, 1);
        assert(text.len() > 0);
        lemma_fragments_single(text);
        let f = |w: Seq<char>| split_word(w);
        assert(seq![text].map_values(f) =~= seq![split_word(text)]);
        seq![split_word(text)].lemma_flatten_one_element();
        lemma_split_of_parts(parts, 0);
        assert(parts.skip(0) =~= parts);
    }
}

/// Two lists of words that are alike but for the case of their letters are
/// written out alike.
pub proof fn lemma_cased_ignores_case(a: Seq<Seq<char>>, b: Seq<Seq<char>>, mode: StringMode)
    requires
        a.len() == b.len(),
        forall|i: int| 0 <= i < a.len() ==> lowered(#[trigger] a[i]) == lowered(b[i]),
    ensures
        cased(a, mode) == cased(b, mode),
{
    assert forall|i: int| 0 <= i < a.len() implies capitalized(#[trigger] a[i]) == capitalized(
        b[i],
    ) by {
        let x = a[i];
        let y = b[i];
        assert(lowered(x) == lowered(y));
        assert(x.len() == lowered(x).len());
        assert(y.len() == lowered(y).len());
        if x.len() > 0 {
            assert(lowered(x)[0] == to_lower(x[0]));
            assert(lowered(y)[0] == to_lower(y[0]));
            assert(lowered(x.skip(1)) =~= lowered(x).skip(1));
            assert(lowered(y.skip(1)) =~= lowered(y).skip(1));
        } else {
            assert(x =~= y);
        }
    }
    let low = |w: Seq<char>| lowered(w);
    let cap = |w: Seq<char>| capitalized(w);
    let mix = |i: int, w: Seq<char>|
        if i == 0 {
            lowered(w)
        } else {
            capitalized(w)
        };
    assert(a.map_values(low) =~= b.map_values(low));
    assert(a.map_values(cap) =~= b.map_values(cap));
    assert(a.map(mix) =~= b.map(mix));
}

/// Converting to camel case first does not change what a text converts to,
/// in any case, if a word boundary falls between each two neighbouring parts
/// of its camel case: the words are kept, but for the case of their letters.
pub proof fn lemma_through_camel(s: Seq<char>, mode: StringMode)
    requires
        clean_joints(camel_parts(words_of(s))),
    ensures
        converted(converted(s, StringMode::CamelCase), mode) == converted(s, mode),
{
    let words = words_of(s);
    let parts = camel_parts(words);
    lemma_words_plain(s);
    lemma_camel_keeps_words(words);
    assert forall|i: int| 0 <= i < parts.len() implies lowered(#[trigger] parts[i]) == lowered(
        words[i],
    ) by {
        let w = words[i];
        assert(plain_word(w));
        if i == 0 {
            assert(lowered(lowered(w)) =~= lowered(w));
        } else {
            assert(lowered(capitalized(w)) =~= lowered(w));
        }
    }
    lemma_cased_ignores_case(parts, words, mode);
}

/// Filtering a text of which every character passes leaves it as it is.
pub proof fn lemma_filter_all(t: Seq<char>, pred: spec_fn(char) -> bool)
    requires
        forall|i: int| 0 <= i < t.len() ==> pred(#[trigger] t[i]),
    ensures
        t.filter(pred) == t,
    decreases t.len(),
{
    reveal(Seq::filter);
    if t.len() > 0 {
        let front = t.drop_last();
        assert forall|i: int| 0 <= i < front.len() implies pred(#[trigger] front[i]) by {
            assert(front[i] == t[i]);
        }
        lemma_filter_all(front, pred);
        assert(pred(t[t.len() - 1]));
        assert(front.push(t.last()) =~= t);
    }
}

/// The pieces of a text, run together, are the text without its delimiters.
pub proof fn lemma_fragments_keep_text(s: Seq<char>)
    ensures
        fragments(s).flatten() == s.filter(|c: char| !is_delimiter(c)),
    decreases s.len(),
{
    let pred = |c: char| !is_delimiter(c);
    reveal(Seq::filter);
    if s.len() == 0 {
        assert(fragments(s).flatten() =~= s.filter(pred));
    } else if is_delimiter(s[0]) {
        lemma_fragments_keep_text(s.skip(1));
        assert(seq![s[0]] + s.skip(1) =~= s);
        s.skip(1).lemma_filter_prepend(s[0], pred);
    } else {
        let n = run_len(s) as int;
        lemma_run_len_props(s);
        lemma_fragments_keep_text(s.skip(n));
        let head = s.take(n);
        assert(head + s.skip(n) =~= s);
        Seq::filter_distributes_over_add(head, s.skip(n), pred);
        lemma_filter_all(head, pred);
        lemma_flatten_concat(seq![head], fragments(s.skip(n)));
        seq![head].lemma_flatten_one_element();
    }
}

/// The words of a piece from `start` on, run together, are the piece from
/// `start` on.
pub proof fn lemma_split_keeps_text(w: Seq<char>, start: int)
    requires
        0 <= start <= w.len(),
    ensures
        split_from(w, start).flatten() == w.skip(start),
    decreases w.len() - start,
{
    if start >= w.len() {
        assert(split_from(w, start).flatten() =~= w.skip(start));
    } else {
        let e = next_cut(w, start + 1);
        lemma_next_cut_bounds(w, start + 1);
        lemma_split_keeps_text(w, e);
        let head = w.subrange(start, e);
        lemma_flatten_concat(seq![head], split_from(w, e));
        seq![head].lemma_flatten_one_element();
        assert(head + w.skip(e) =~= w.skip(start));
    }
}

/// Cutting pieces into words changes nothing of the text that they make
/// when run together.
pub proof fn lemma_split_words_keep_text(pieces: Seq<Seq<char>>)
    ensures
        split_words(pieces).flatten() == pieces.flatten(),
    decreases pieces.len(),
{
    if pieces.len() == 0 {
        assert(pieces.map_values(|w: Seq<char>| split_word(w)) =~= Seq::<Seq<Seq<char>>>::empty());
        assert(split_words(pieces).flatten() =~= pieces.flatten());
    } else {
        let front = pieces.drop_last();
        let last = pieces.last();
        assert(front.push(last) =~= pieces);
        lemma_split_words_keep_text(front);
        lemma_split_words_push(front, last);
        lemma_flatten_concat(split_words(front), split_word(last));
        front.lemma_flatten_push(last);
        if last.len() == 0 {
            seq![last].lemma_flatten_one_element();
        } else {
            lemma_split_keeps_text(last, 0);
            assert(last.skip(0) =~= last);
        }
    }
}

/// The words of a text, run together, are the text without its delimiters:
/// splitting loses no character, adds none, and keeps the order.
pub proof fn lemma_words_keep_text(s: Seq<char>)
    ensures
        words_of(s).flatten() == s.filter(|c: char| !is_delimiter(c)),
{
    lemma_split_words_keep_text(fragments(s));
    lemma_fragments_keep_text(s);
}

} // verus!

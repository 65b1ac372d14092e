//! Case conversion: the words of a text, written out again in camel, Pascal,
//! snake or kebab case; and the plain functions on text.

use crate::strings_helpers::{
    chars_of, clean_delimiters, fragments, is_lower, is_upper, split_capitalized_words,
    split_words,
};
use vstd::prelude::*;

verus! {

/// The target convention of a case conversion.
#[derive(Clone, Copy, Debug, PartialEq, Eq)]
pub enum StringMode {
    CamelCase,
    SnakeCase,
    KebabCase,
    PascalCase,
}

/// `String::push` appends the character to the end of the string.
pub assume_specification[ std::string::String::push ](s: &mut std::string::String, ch: char)
    ensures
        final(s)@ == old(s)@.push(ch),
;

/// The small letter that belongs to a capital `A` to `Z`; any other character
/// is left as it is.
pub open spec fn to_lower(c: char) -> char {
    if is_upper(c) {
        ((c as int) + 32) as char
    } else {
        c
    }
}

/// The capital that belongs to a small letter `a` to `z`; any other character
/// is left as it is.
pub open spec fn to_upper(c: char) -> char {
    if is_lower(c) {
        ((c as int) - 32) as char
    } else {
        c
    }
}

/// `w` with every capital letter made small.
pub open spec fn lowered(w: Seq<char>) -> Seq<char> {
    w.map_values(|c: char| to_lower(c))
}

/// `w` with its first character made a capital and the rest made small.
pub open spec fn capitalized(w: Seq<char>) -> Seq<char> {
    if w.len() == 0 {
        w
    } else {
        seq![to_upper(w[0])] + lowered(w.skip(1))
    }
}

/// The parts in order, with `sep` between each two neighbours.
pub open spec fn joined(parts: Seq<Seq<char>>, sep: char) -> Seq<char>
    decreases parts.len(),
{
    if parts.len() == 0 {
        Seq::empty()
    } else if parts.len() == 1 {
        parts[0]
    } else {
        joined(parts.drop_last(), sep).push(sep) + parts.last()
    }
}

/// The words of `s`: its delimiter-free pieces, each cut at its capital-letter
/// boundaries.
pub open spec fn words_of(s: Seq<char>) -> Seq<Seq<char>> {
    split_words(fragments(s))
}

/// The words written out in the convention `mode`.
pub open spec fn cased(words: Seq<Seq<char>>, mode: StringMode) -> Seq<char> {
    match mode {
        StringMode::CamelCase => words.map(
            |i: int, w: Seq<char>|
                if i == 0 {
                    lowered(w)
                } else {
                    capitalized(w)
                },
        ).flatten(),
        StringMode::PascalCase => words.map_values(|w: Seq<char>| capitalized(w)).flatten(),
        StringMode::SnakeCase => joined(words.map_values(|w: Seq<char>| lowered(w)), '_'),
        StringMode::KebabCase => joined(words.map_values(|w: Seq<char>| lowered(w)), '-'),
    }
}

/// `s` rewritten in the convention `mode`.
pub open spec fn converted(s: Seq<char>, mode: StringMode) -> Seq<char> {
    cased(words_of(s), mode)
}

/// What one more word adds to the text written so far.
pub open spec fn next_part(count: int, w: Seq<char>, mode: StringMode) -> Seq<char> {
    match mode {
        StringMode::CamelCase => if count == 0 {
            lowered(w)
        } else {
            capitalized(w)
        },
        StringMode::PascalCase => capitalized(w),
        StringMode::SnakeCase => if count == 0 {
            lowered(w)
        } else {
            seq!['_'] + lowered(w)
        },
        StringMode::KebabCase => if count == 0 {
            lowered(w)
        } else {
            seq!['-'] + lowered(w)
        },
    }
}

/// Writing out one more word appends its part to the text of the others.
pub proof fn lemma_cased_push(words: Seq<Seq<char>>, w: Seq<char>, mode: StringMode)
    ensures
        cased(words.push(w), mode) == cased(words, mode) + next_part(words.len() as int, w, mode),
{
    match mode {
        StringMode::CamelCase => {
            let f = |i: int, w: Seq<char>|
                if i == 0 {
                    lowered(w)
                } else {
                    capitalized(w)
                };
            assert(words.push(w).map(f) =~= words.map(f).push(f(words.len() as int, w)));
            words.map(f).lemma_flatten_push(f(words.len() as int, w));
        },
        StringMode::PascalCase => {
            let f = |w: Seq<char>| capitalized(w);
            assert(words.push(w).map_values(f) =~= words.map_values(f).push(capitalized(w)));
            words.map_values(f).lemma_flatten_push(capitalized(w));
        },
        StringMode::SnakeCase => {
            let f = |w: Seq<char>| lowered(w);
            assert(words.push(w).map_values(f) =~= words.map_values(f).push(lowered(w)));
            assert(words.map_values(f).push(lowered(w)).drop_last() =~= words.map_values(f));
            assert(cased(words.push(w), mode) =~= cased(words, mode) + next_part(
                words.len() as int,
                w,
                mode,
            ));
        },
        StringMode::KebabCase => {
            let f = |w: Seq<char>| lowered(w);
            assert(words.push(w).map_values(f) =~= words.map_values(f).push(lowered(w)));
            assert(words.map_values(f).push(lowered(w)).drop_last() =~= words.map_values(f));
            assert(cased(words.push(w), mode) =~= cased(words, mode) + next_part(
                words.len() as int,
                w,
                mode,
            ));
        },
    }
}

/// The small letter for a capital; any other character as it is.
pub fn lower_char(c: char) -> (r: char)
    ensures
        r == to_lower(c),
{
    if 'A' <= c && c <= 'Z' {
        ((c as u8) + 32) as char
    } else {
        c
    }
}

/// The capital for a small letter; any other character as it is.
pub fn upper_char(c: char) -> (r: char)
    ensures
        r == to_upper(c),
{
    if 'a' <= c && c <= 'z' {
        ((c as u8) - 32) as char
    } else {
        c
    }
}

/// Appends the characters of `word` to `out`, capitals made small; with
/// `capital` set, the first character is made a capital instead.
fn push_word(out: &mut String, word: &str, capital: bool)
    ensures
        final(out)@ == old(out)@ + (if capital {
            capitalized(word@)
        } else {
            lowered(word@)
        }),
{
    let ghost start = out@;
    let mut first = capital;
    for c in it: word.chars()
        invariant
            it.seq() == word@,
            first == (capital && it.index() == 0),
            out@ == start + (if capital {
                capitalized(word@.take(it.index() as int))
            } else {
                lowered(word@.take(it.index() as int))
            }),
    {
        let ghost k = it.index() as int;
        if first {
            out.push(upper_char(c));
            first = false;
        } else {
            out.push(lower_char(c));
        }
        proof {
            let p = word@.take(k);
            let q = word@.take(k + 1);
            assert(q =~= p.push(c));
            assert(lowered(q) =~= lowered(p).push(to_lower(c)));
            if capital {
                if k == 0 {
                    assert(capitalized(q) =~= seq![to_upper(c)]);
                    assert(capitalized(p) =~= Seq::<char>::empty());
                } else {
                    assert(q.skip(1) =~= p.skip(1).push(c));
                    assert(lowered(q.skip(1)) =~= lowered(p.skip(1)).push(to_lower(c)));
                    assert(capitalized(q) =~= capitalized(p).push(to_lower(c)));
                }
            }
        }
    }
    assert(word@.take(word@.len() as int) =~= word@);
}

/// Writes the words out in the convention `mode`: camel and Pascal case run
/// the words together with a capital at the head of each (but the first, in
/// camel case); snake and kebab case make them small and join them with `_`
/// or `-`.
pub fn emit(words: &Vec<&str>, mode: StringMode) -> (r: String)
    ensures
        r@ == cased(words.deep_view(), mode),
{
    let mut out = String::new();
    let ghost all = words.deep_view();
    assert(cased(all.take(0), mode) =~= Seq::<char>::empty()) by {
        assert(all.take(0) =~= Seq::<Seq<char>>::empty());
        assert(all.take(0).map_values(|w: Seq<char>| lowered(w)) =~= Seq::<Seq<char>>::empty());
    }
    for j in 0..words.len()
        invariant
            all == words.deep_view(),
            out@ == cased(all.take(j as int), mode),
    {
        let word = words[j];
        proof {
            assert(all.take(j + 1) =~= all.take(j as int).push(word@));
            lemma_cased_push(all.take(j as int), word@, mode);
        }
        match mode {
            StringMode::CamelCase => {
                push_word(&mut out, word, j != 0);
            },
            StringMode::PascalCase => {
                push_word(&mut out, word, true);
            },
            StringMode::SnakeCase => {
                if j != 0 {
                    out.push('_');
                }
                push_word(&mut out, word, false);
                assert(out@ =~= cased(all.take(j as int), mode) + next_part(j as int, word@, mode));
            },
            StringMode::KebabCase => {
                if j != 0 {
                    out.push('-');
                }
                push_word(&mut out, word, false);
                assert(out@ =~= cased(all.take(j as int), mode) + next_part(j as int, word@, mode));
            },
        }
    }
    assert(all.take(words.len() as int) =~= all);
    out
}

/// Splits `s` into its words: first at every run of `_`, `-` and spaces, then
/// at every capital-letter boundary inside a piece.
pub fn tokenize<'a>(s: &'a str) -> (r: Vec<&'a str>)
    ensures
        r.deep_view() == words_of(s@),
{
    split_capitalized_words(clean_delimiters(s))
}

/// Rewrites `s` in the convention `string_mode`.
pub fn to_parse_single(s: &str, string_mode: &StringMode) -> (r: String)
    ensures
        r@ == converted(s@, *string_mode),
{
    let words = tokenize(s);
    emit(&words, *string_mode)
}

/// Rewrites every string of `input` in the convention `string_mode`, each on
/// its own.
pub fn to_parse(input: Vec<String>, string_mode: StringMode) -> (r: Vec<String>)
    ensures
        r.len() == input.len(),
        forall|i: int| 0 <= i < input.len() ==> r[i]@ == converted(#[trigger] input[i]@, string_mode),
{
    let mut out: Vec<String> = Vec::new();
    for j in 0..input.len()
        invariant
            out.len() == j,
            forall|i: int| 0 <= i < j ==> out[i]@ == converted(#[trigger] input[i]@, string_mode),
    {
        out.push(to_parse_single(input[j].as_str(), &string_mode));
    }
    out
}

/// `s` with its first character made a capital and the rest made small.
pub fn _capitalize(s: &str) -> (r: String)
    ensures
        r@ == capitalized(s@),
{
    let mut out = String::new();
    push_word(&mut out, s, true);
    assert(out@ =~= capitalized(s@));
    out
}

/// `s` with every small letter made a capital.
pub open spec fn raised(w: Seq<char>) -> Seq<char> {
    w.map_values(|c: char| to_upper(c))
}

/// `s` with every small letter made a capital.
pub fn _upper_case(s: &str) -> (r: String)
    ensures
        r@ == raised(s@),
{
    let mut out = String::new();
    for c in it: s.chars()
        invariant
            it.seq() == s@,
            out@ == raised(s@.take(it.index() as int)),
    {
        out.push(upper_char(c));
        assert(raised(s@.take(it.index() + 1)) =~= raised(s@.take(it.index() as int)).push(
            to_upper(c),
        ));
    }
    assert(s@.take(s@.len() as int) =~= s@);
    out
}

/// `s` with every capital letter made small.
pub fn _lower_case(s: &str) -> (r: String)
    ensures
        r@ == lowered(s@),
{
    let mut out = String::new();
    push_word(&mut out, s, false);
    assert(out@ =~= lowered(s@));
    out
}

/// Whether `c` is white space: a space, a tab, a line or page break, or one
/// of the other characters that Unicode counts as white space.
pub open spec fn is_space(c: char) -> bool {
    let n = c as u32;
    ||| 0x09 <= n <= 0x0d
    ||| n == 0x20
    ||| n == 0x85
    ||| n == 0xa0
    ||| n == 0x1680
    ||| 0x2000 <= n <= 0x200a
    ||| n == 0x2028
    ||| n == 0x2029
    ||| n == 0x202f
    ||| n == 0x205f
    ||| n == 0x3000
}

/// Tells whether `c` is white space.
pub fn space(c: char) -> (r: bool)
    ensures
        r == is_space(c),
{
    let n = c as u32;
    (0x09 <= n && n <= 0x0d) || n == 0x20 || n == 0x85 || n == 0xa0 || n == 0x1680 || (0x2000 <= n
        && n <= 0x200a) || n == 0x2028 || n == 0x2029 || n == 0x202f || n == 0x205f || n == 0x3000
}

/// The number of white-space characters that `s` begins with.
pub open spec fn leading_spaces(s: Seq<char>) -> nat
    decreases s.len(),
{
    if s.len() == 0 || !is_space(s[0]) {
        0
    } else {
        1 + leading_spaces(s.skip(1))
    }
}

/// The number of white-space characters that `s` ends with.
pub open spec fn trailing_spaces(s: Seq<char>) -> nat
    decreases s.len(),
{
    if s.len() == 0 || !is_space(s.last()) {
        0
    } else {
        1 + trailing_spaces(s.drop_last())
    }
}

/// The white space that a text begins with is white space, lies within the
/// text, and ends at a character that is none, or at the end.
pub proof fn lemma_leading_spaces_props(s: Seq<char>)
    ensures
        leading_spaces(s) <= s.len(),
        forall|j: int| 0 <= j < leading_spaces(s) ==> is_space(#[trigger] s[j]),
        leading_spaces(s) == s.len() || !is_space(s[leading_spaces(s) as int]),
    decreases s.len(),
{
    if !(s.len() == 0 || !is_space(s[0])) {
        let t = s.skip(1);
        lemma_leading_spaces_props(t);
        assert forall|j: int| 0 <= j < leading_spaces(s) implies is_space(#[trigger] s[j]) by {
            if j > 0 {
                assert(s[j] == t[j - 1]);
            }
        }
        if leading_spaces(s) < s.len() {
            assert(s[leading_spaces(s) as int] == t[leading_spaces(t) as int]);
        }
    }
}

/// The white space that a text ends with is white space, lies within the
/// text, and begins behind a character that is none, or at the beginning.
pub proof fn lemma_trailing_spaces_props(s: Seq<char>)
    ensures
        trailing_spaces(s) <= s.len(),
        forall|j: int| s.len() - trailing_spaces(s) <= j < s.len() ==> is_space(#[trigger] s[j]),
        trailing_spaces(s) == s.len() || !is_space(s[s.len() - trailing_spaces(s) - 1]),
    decreases s.len(),
{
    if !(s.len() == 0 || !is_space(s.last())) {
        let t = s.drop_last();
        lemma_trailing_spaces_props(t);
        assert forall|j: int| s.len() - trailing_spaces(s) <= j < s.len() implies is_space(
            #[trigger] s[j],
        ) by {
            if j < s.len() - 1 {
                assert(s[j] == t[j]);
            }
        }
        if trailing_spaces(s) < s.len() {
            assert(s[s.len() - trailing_spaces(s) - 1] == t[t.len() - trailing_spaces(t) - 1]);
        }
    }
}

/// `s` without the white space that it begins with.
pub open spec fn trimmed_start(s: Seq<char>) -> Seq<char> {
    s.skip(leading_spaces(s) as int)
}

/// `s` without the white space that it ends with.
pub open spec fn trimmed_end(s: Seq<char>) -> Seq<char> {
    s.take(s.len() - trailing_spaces(s))
}

/// `s` without the white space at either end.
pub open spec fn trimmed(s: Seq<char>) -> Seq<char> {
    trimmed_end(trimmed_start(s))
}

/// A trimmed text is a stretch of the text with nothing but white space
/// before it and behind it, and it neither begins nor ends with white space.
pub proof fn lemma_trimmed(s: Seq<char>)
    ensures
        leading_spaces(s) + trimmed(s).len() <= s.len(),
        trimmed(s) == s.subrange(
            leading_spaces(s) as int,
            leading_spaces(s) as int + trimmed(s).len(),
        ),
        forall|j: int|
            0 <= j < leading_spaces(s) || leading_spaces(s) + trimmed(s).len() <= j < s.len()
                ==> is_space(#[trigger] s[j]),
        trimmed(s).len() > 0 ==> !is_space(trimmed(s).first()) && !is_space(trimmed(s).last()),
{
    let a = leading_spaces(s) as int;
    let rest = trimmed_start(s);
    lemma_leading_spaces_props(s);
    lemma_trailing_spaces_props(rest);
    let t = trimmed(s);
    assert(t =~= s.subrange(a, a + t.len()));
    assert forall|j: int| 0 <= j < a || a + t.len() <= j < s.len() implies is_space(
        #[trigger] s[j],
    ) by {
        if j >= a {
            assert(s[j] == rest[j - a]);
        }
    }
    if t.len() > 0 {
        assert(t.first() == s[a]);
        assert(t.last() == rest[rest.len() - trailing_spaces(rest) - 1]);
    }
}

/// White space that runs up to a character which is none, or up to the end,
/// is all the white space that the text begins with.
pub proof fn lemma_leading_spaces(s: Seq<char>, k: nat)
    requires
        k <= s.len(),
        forall|j: int| 0 <= j < k ==> is_space(#[trigger] s[j]),
        k == s.len() || !is_space(s[k as int]),
    ensures
        leading_spaces(s) == k,
    decreases k,
{
    if k > 0 {
        let t = s.skip(1);
        assert forall|j: int| 0 <= j < k - 1 implies is_space(#[trigger] t[j]) by {
            assert(t[j] == s[j + 1]);
        }
        lemma_leading_spaces(t, (k - 1) as nat);
    }
}

/// White space that runs back from the end to a character which is none, or
/// to the beginning, is all the white space that the text ends with.
pub proof fn lemma_trailing_spaces(s: Seq<char>, k: nat)
    requires
        k <= s.len(),
        forall|j: int| s.len() - k <= j < s.len() ==> is_space(#[trigger] s[j]),
        k == s.len() || !is_space(s[s.len() - k - 1]),
    ensures
        trailing_spaces(s) == k,
    decreases k,
{
    if k > 0 {
        let t = s.drop_last();
        assert forall|j: int| t.len() - (k - 1) <= j < t.len() implies is_space(#[trigger] t[j]) by {
            assert(t[j] == s[j]);
        }
        lemma_trailing_spaces(t, (k - 1) as nat);
    }
}

/// The place of the first character from `from` on that is no white space;
/// `to` where there is none before it.
fn skip_spaces(chars: &Vec<char>, from: usize, to: usize) -> (r: usize)
    requires
        from <= to <= chars.len(),
    ensures
        from <= r <= to,
        r - from == leading_spaces(chars@.subrange(from as int, to as int)),
{
    let mut i = from;
    while i < to && space(chars[i])
        invariant
            from <= i <= to <= chars.len(),
            forall|k: int| from <= k < i ==> is_space(chars@[k]),
        decreases to - i,
    {
        i += 1;
    }
    proof {
        lemma_leading_spaces(chars@.subrange(from as int, to as int), (i - from) as nat);
    }
    i
}

/// The place behind the last character before `to` that is no white space;
/// `from` where there is none from there on.
fn skip_spaces_back(chars: &Vec<char>, from: usize, to: usize) -> (r: usize)
    requires
        from <= to <= chars.len(),
    ensures
        from <= r <= to,
        to - r == trailing_spaces(chars@.subrange(from as int, to as int)),
{
    let mut i = to;
    while i > from && space(chars[i - 1])
        invariant
            from <= i <= to <= chars.len(),
            forall|k: int| i <= k < to ==> is_space(chars@[k]),
        decreases i,
    {
        i -= 1;
    }
    proof {
        lemma_trailing_spaces(chars@.subrange(from as int, to as int), (to - i) as nat);
    }
    i
}

/// `s` without the white space at either end.
pub fn _trim(s: &str) -> (r: String)
    ensures
        r@ == trimmed(s@),
{
    let chars = chars_of(s);
    let n = chars.len();
    assert(chars@.subrange(0, n as int) =~= s@);
    let from = skip_spaces(&chars, 0, n);
    assert(chars@.subrange(from as int, n as int) =~= trimmed_start(s@));
    let to = skip_spaces_back(&chars, from, n);
    assert(s@.subrange(from as int, to as int) =~= trimmed(s@));
    String::from_str(s.substring_char(from, to))
}

/// `s` without the white space that it begins with.
pub fn _trim_start(s: &str) -> (r: String)
    ensures
        r@ == trimmed_start(s@),
{
    let chars = chars_of(s);
    let n = chars.len();
    assert(chars@.subrange(0, n as int) =~= s@);
    let from = skip_spaces(&chars, 0, n);
    assert(s@.subrange(from as int, n as int) =~= trimmed_start(s@));
    String::from_str(s.substring_char(from, n))
}

/// `s` without the white space that it ends with.
pub fn _trim_end(s: &str) -> (r: String)
    ensures
        r@ == trimmed_end(s@),
{
    let chars = chars_of(s);
    let n = chars.len();
    assert(chars@.subrange(0, n as int) =~= s@);
    let to = skip_spaces_back(&chars, 0, n);
    assert(s@.subrange(0, to as int) =~= trimmed_end(s@));
    String::from_str(s.substring_char(0, to))
}

/// The number of characters of `s` that stand before its first white space.
pub open spec fn leading_text(s: Seq<char>) -> nat
    decreases s.len(),
{
    if s.len() == 0 || is_space(s[0]) {
        0
    } else {
        1 + leading_text(s.skip(1))
    }
}

/// The leading text is never longer than the whole.
pub proof fn lemma_leading_text_bound(s: Seq<char>)
    ensures
        leading_text(s) <= s.len(),
    decreases s.len(),
{
    if !(s.len() == 0 || is_space(s[0])) {
        lemma_leading_text_bound(s.skip(1));
    }
}

/// Text that runs up to white space, or up to the end, is all the text
/// before the first white space.
pub proof fn lemma_leading_text(s: Seq<char>, k: nat)
    requires
        k <= s.len(),
        forall|j: int| 0 <= j < k ==> !is_space(#[trigger] s[j]),
        k == s.len() || is_space(s[k as int]),
    ensures
        leading_text(s) == k,
    decreases k,
{
    if k > 0 {
        let t = s.skip(1);
        assert forall|j: int| 0 <= j < k - 1 implies !is_space(#[trigger] t[j]) by {
            assert(t[j] == s[j + 1]);
        }
        lemma_leading_text(t, (k - 1) as nat);
    }
}

/// The maximal stretches of `s` without white space, in order; none of them
/// is empty.
pub open spec fn spaced_words(s: Seq<char>) -> Seq<Seq<char>>
    decreases s.len(),
    via spaced_words_decreases
{
    if s.len() == 0 {
        Seq::empty()
    } else if is_space(s[0]) {
        spaced_words(s.skip(1))
    } else {
        seq![s.take(leading_text(s) as int)] + spaced_words(s.skip(leading_text(s) as int))
    }
}

#[via_fn]
proof fn spaced_words_decreases(s: Seq<char>) {
    lemma_leading_text_bound(s);
}

/// Splits `s` at every run of white space and drops the empty pieces.
pub fn _words<'a>(s: &'a str) -> (r: Vec<&'a str>)
    ensures
        r.deep_view() == spaced_words(s@),
{
    let chars = chars_of(s);
    let n = chars.len();
    let mut out: Vec<&'a str> = Vec::new();
    let mut i: usize = 0;
    assert(s@.skip(0) =~= s@);
    assert(out.deep_view() =~= Seq::<Seq<char>>::empty());
    while i < n
        invariant
            i <= n,
            n == s@.len(),
            chars@ == s@,
            out.deep_view() + spaced_words(s@.skip(i as int)) == spaced_words(s@),
        decreases n - i,
    {
        let ghost rest = s@.skip(i as int);
        if space(chars[i]) {
            assert(rest.skip(1) =~= s@.skip(i + 1));
            i += 1;
        } else {
            let start = i;
            let ghost before = out.deep_view();
            while i < n && !space(chars[i])
                invariant
                    start <= i <= n,
                    n == s@.len(),
                    chars@ == s@,
                    forall|k: int| start <= k < i ==> !is_space(#[trigger] s@[k]),
                decreases n - i,
            {
                i += 1;
            }
            let piece = s.substring_char(start, i);
            out.push(piece);
            proof {
                lemma_leading_text(rest, (i - start) as nat);
                assert(rest.take(i - start) =~= s@.subrange(start as int, i as int));
                assert(rest.skip(i - start) =~= s@.skip(i as int));
                assert(out.deep_view() =~= before.push(piece@));
                assert(before.push(piece@) + spaced_words(s@.skip(i as int)) =~= before + (seq![
                    piece@,
                ] + spaced_words(s@.skip(i as int))));
            }
        }
    }
    assert(s@.skip(n as int) =~= Seq::<char>::empty());
    assert(out.deep_view() + Seq::<Seq<char>>::empty() =~= out.deep_view());
    out
}

} // verus!

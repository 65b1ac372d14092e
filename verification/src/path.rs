//! Paths such as `users[0].name`, read into tokens.

use crate::strings_helpers::chars_of;
use vstd::prelude::*;

verus! {

/// One step of a path: a field of an object, a position in an array, or
/// every element of an array.
#[derive(Debug, PartialEq, Eq)]
pub enum Token {
    Key(String),
    Index(usize),
    Wildcard,
}

/// What a `Token` stands for.
pub enum PathToken {
    Key(Seq<char>),
    Index(nat),
    Wildcard,
}

impl View for Token {
    type V = PathToken;

    open spec fn view(&self) -> PathToken {
        match self {
            Token::Key(name) => PathToken::Key(name@),
            Token::Index(i) => PathToken::Index(*i as nat),
            Token::Wildcard => PathToken::Wildcard,
        }
    }
}

/// What a list of tokens stands for.
pub open spec fn path_of(tokens: Seq<Token>) -> Seq<PathToken> {
    tokens.map_values(|t: Token| t@)
}

/// The place of the first `c` in `s`; the length of `s` when it holds none.
pub open spec fn position(s: Seq<char>, c: char) -> nat
    decreases s.len(),
{
    if s.len() == 0 || s[0] == c {
        0
    } else {
        1 + position(s.skip(1), c)
    }
}

/// The first `c` is never sought beyond the end.
pub proof fn lemma_position_bound(s: Seq<char>, c: char)
    ensures
        position(s, c) <= s.len(),
    decreases s.len(),
{
    if !(s.len() == 0 || s[0] == c) {
        lemma_position_bound(s.skip(1), c);
    }
}

/// With no `c` among the first `k` characters, and a `c` or the end right
/// after them, the first `c` stands at `k`.
pub proof fn lemma_position_is(s: Seq<char>, c: char, k: nat)
    requires
        k <= s.len(),
        forall|j: int| 0 <= j < k ==> #[trigger] s[j] != c,
        k == s.len() || s[k as int] == c,
    ensures
        position(s, c) == k,
    decreases k,
{
    if k > 0 {
        let t = s.skip(1);
        assert forall|j: int| 0 <= j < k - 1 implies #[trigger] t[j] != c by {
            assert(t[j] == s[j + 1]);
        }
        lemma_position_is(t, c, (k - 1) as nat);
    }
}

/// Whether `c` is one of the digits `0` to `9`.
pub open spec fn is_digit(c: char) -> bool {
    '0' <= c <= '9'
}

/// The number that a run of digits writes in base ten.
pub open spec fn decimal_value(digits: Seq<char>) -> nat
    decreases digits.len(),
{
    if digits.len() == 0 {
        0
    } else {
        decimal_value(digits.drop_last()) * 10 + (digits.last() as int - '0' as int) as nat
    }
}

/// The digits of a bracket's content: the content without one leading `+`.
pub open spec fn index_digits(inner: Seq<char>) -> Seq<char> {
    if inner.len() > 0 && inner[0] == '+' {
        inner.skip(1)
    } else {
        inner
    }
}

/// The position that a bracket's content names: one or more digits, after an
/// optional `+`, whose value fits the machine word. Anything else names none.
pub open spec fn parsed_index(inner: Seq<char>) -> Option<nat> {
    let digits = index_digits(inner);
    if digits.len() > 0 && (forall|i: int| 0 <= i < digits.len() ==> is_digit(#[trigger] digits[i]))
        && decimal_value(digits) <= usize::MAX {
        Some(decimal_value(digits))
    } else {
        None
    }
}

/// The token of one bracket group, by its content: `*` gives a wildcard, a
/// number gives an index, and anything else gives nothing.
pub open spec fn bracket_tokens(inner: Seq<char>) -> Seq<PathToken> {
    if inner == seq!['*'] {
        seq![PathToken::Wildcard]
    } else {
        match parsed_index(inner) {
            Some(i) => seq![PathToken::Index(i)],
            None => Seq::empty(),
        }
    }
}

/// The tokens of the bracket groups that `rest` begins with. Reading stops
/// at the first character that opens no group, and at a group left open.
pub open spec fn brackets(rest: Seq<char>) -> Seq<PathToken>
    decreases rest.len(),
    via brackets_decreases
{
    if rest.len() == 0 || rest[0] != '[' || position(rest, ']') >= rest.len() {
        Seq::empty()
    } else {
        bracket_tokens(rest.subrange(1, position(rest, ']') as int)) + brackets(
            rest.skip(position(rest, ']') as int + 1),
        )
    }
}

#[via_fn]
proof fn brackets_decreases(rest: Seq<char>) {
}

/// The tokens of one dot-free segment: its text as a key where it has no
/// bracket; else the text before the first bracket, if any, as a key, and
/// then the tokens of the bracket groups.
pub open spec fn segment_tokens(segment: Seq<char>) -> Seq<PathToken> {
    let open = position(segment, '[') as int;
    if open >= segment.len() {
        seq![PathToken::Key(segment)]
    } else if open == 0 {
        brackets(segment)
    } else {
        seq![PathToken::Key(segment.take(open))] + brackets(segment.skip(open))
    }
}

/// The tokens of the segments that the dots of `s` divide it into.
pub open spec fn segments_tokens(s: Seq<char>) -> Seq<PathToken>
    decreases s.len(),
    via segments_tokens_decreases
{
    if position(s, '.') >= s.len() {
        segment_tokens(s)
    } else {
        segment_tokens(s.take(position(s, '.') as int)) + segments_tokens(
            s.skip(position(s, '.') as int + 1),
        )
    }
}

#[via_fn]
proof fn segments_tokens_decreases(s: Seq<char>) {
}

/// The tokens of a path. The empty path has none.
pub open spec fn parse(path: Seq<char>) -> Seq<PathToken> {
    if path.len() == 0 {
        Seq::empty()
    } else {
        segments_tokens(path)
    }
}

/// A path without an opening bracket is read as keys only, one for each
/// of the segments that its dots divide it into: at least one.
pub proof fn lemma_keys_only(s: Seq<char>)
    requires
        forall|i: int| 0 <= i < s.len() ==> #[trigger] s[i] != '[',
    ensures
        segments_tokens(s).len() > 0,
        forall|k: int| 0 <= k < segments_tokens(s).len() ==> #[trigger] segments_tokens(s)[k] is Key,
    decreases s.len(),
{
    let dot = position(s, '.') as int;
    lemma_position_bound(s, '.');
    if dot >= s.len() {
        lemma_position_is(s, '[', s.len());
    } else {
        let head = s.take(dot);
        let tail = s.skip(dot + 1);
        lemma_position_is(head, '[', head.len());
        assert forall|i: int| 0 <= i < tail.len() implies #[trigger] tail[i] != '[' by {
            assert(tail[i] == s[dot + 1 + i]);
        }
        lemma_keys_only(tail);
        assert(segment_tokens(head) == seq![PathToken::Key(head)]);
        assert forall|k: int| 0 <= k < segments_tokens(s).len() implies #[trigger] segments_tokens(
            s,
        )[k] is Key by {
            if k > 0 {
                assert(segments_tokens(s)[k] == segments_tokens(tail)[k - 1]);
            }
        }
    }
}

/// A longer run of digits writes no smaller a number than its beginning.
pub proof fn lemma_decimal_value_grows(digits: Seq<char>, k: int)
    requires
        0 <= k <= digits.len(),
        forall|i: int| 0 <= i < digits.len() ==> is_digit(#[trigger] digits[i]),
    ensures
        decimal_value(digits.take(k)) <= decimal_value(digits),
    decreases digits.len() - k,
{
    if k == digits.len() {
        assert(digits.take(k) =~= digits);
    } else {
        lemma_decimal_value_grows(digits, k + 1);
        assert(digits.take(k + 1).drop_last() =~= digits.take(k));
        assert(is_digit(digits[k]));
    }
}

/// The place of the first `c` among the characters from `from` up to `to`;
/// `to` where there is none.
fn find(chars: &Vec<char>, from: usize, to: usize, c: char) -> (r: usize)
    requires
        from <= to <= chars.len(),
    ensures
        from <= r <= to,
        r - from == position(chars@.subrange(from as int, to as int), c),
{
    let mut i = from;
    while i < to && chars[i] != c
        invariant
            from <= i <= to <= chars.len(),
            forall|k: int| from <= k < i ==> chars@[k] != c,
        decreases to - i,
    {
        i += 1;
    }
    proof {
        lemma_position_is(chars@.subrange(from as int, to as int), c, (i - from) as nat);
    }
    i
}

/// The characters from `from` up to `to`, as a string.
fn text(chars: &Vec<char>, from: usize, to: usize) -> (r: String)
    requires
        from <= to <= chars.len(),
    ensures
        r@ == chars@.subrange(from as int, to as int),
{
    let mut out = String::new();
    for i in from..to
        invariant
            from <= to <= chars.len(),
            out@ == chars@.subrange(from as int, i as int),
    {
        out.push(chars[i]);
        assert(chars@.subrange(from as int, i + 1) =~= chars@.subrange(from as int, i as int).push(
            chars@[i as int],
        ));
    }
    out
}

/// Reads the characters from `from` up to `to` as an array position.
fn parse_index(chars: &Vec<char>, from: usize, to: usize) -> (r: Option<usize>)
    requires
        from <= to <= chars.len(),
    ensures
        match r {
            Some(i) => parsed_index(chars@.subrange(from as int, to as int)) == Some(i as nat),
            None => parsed_index(chars@.subrange(from as int, to as int)) is None,
        },
{
    let ghost inner = chars@.subrange(from as int, to as int);
    let mut i = from;
    if i < to && chars[i] == '+' {
        i += 1;
    }
    let start = i;
    let ghost digits = chars@.subrange(start as int, to as int);
    assert(digits =~= index_digits(inner));
    if i == to {
        return None;
    }
    let mut acc: usize = 0;
    while i < to
        invariant
            from <= start <= i <= to <= chars.len(),
            digits == chars@.subrange(start as int, to as int),
            digits == index_digits(chars@.subrange(from as int, to as int)),
            forall|k: int| 0 <= k < i - start ==> is_digit(#[trigger] digits[k]),
            acc == decimal_value(digits.take(i - start)),
        decreases to - i,
    {
        let c = chars[i];
        if !('0' <= c && c <= '9') {
            assert(!is_digit(digits[i - start]));
            return None;
        }
        let d = (c as u8 - '0' as u8) as usize;
        proof {
            assert(digits.take(i - start + 1).drop_last() =~= digits.take(i - start));
            assert(digits.take(i - start + 1).last() == c);
            if forall|k: int| 0 <= k < digits.len() ==> is_digit(#[trigger] digits[k]) {
                lemma_decimal_value_grows(digits, i - start + 1);
            }
        }
        match acc.checked_mul(10) {
            None => {
                return None;
            },
            Some(tens) => {
                match tens.checked_add(d) {
                    None => {
                        return None;
                    },
                    Some(next) => {
                        acc = next;
                    },
                }
            },
        }
        i += 1;
    }
    assert(digits.take(to - start) =~= digits);
    Some(acc)
}

/// Appends the tokens of the bracket groups that begin at `from`.
fn parse_brackets(tokens: &mut Vec<Token>, chars: &Vec<char>, from: usize, to: usize)
    requires
        from <= to <= chars.len(),
    ensures
        path_of(final(tokens)@) == path_of(old(tokens)@) + brackets(
            chars@.subrange(from as int, to as int),
        ),
{
    let ghost goal = path_of(tokens@) + brackets(chars@.subrange(from as int, to as int));
    let mut i = from;
    while i < to && chars[i] == '['
        invariant
            from <= i <= to <= chars.len(),
            path_of(tokens@) + brackets(chars@.subrange(i as int, to as int)) == goal,
        decreases to - i,
    {
        let ghost rest = chars@.subrange(i as int, to as int);
        let ghost before = path_of(tokens@);
        let close = find(chars, i, to, ']');
        if close == to {
            assert(brackets(rest) =~= Seq::<PathToken>::empty());
            assert(brackets(chars@.subrange(to as int, to as int)) =~= Seq::<PathToken>::empty());
            i = to;
        } else {
            let ghost inner = chars@.subrange(i + 1, close as int);
            assert(rest.subrange(1, close - i) =~= inner);
            assert(rest.skip(close - i + 1) =~= chars@.subrange(close + 1, to as int));
            if close == i + 2 && chars[i + 1] == '*' {
                tokens.push(Token::Wildcard);
                proof {
                    assert(inner =~= seq!['*']);
                    assert(path_of(tokens@) =~= before + bracket_tokens(inner));
                }
            } else {
                assert(inner != seq!['*']) by {
                    if inner == seq!['*'] {
                        assert(inner.len() == 1);
                        assert(inner[0] == '*');
                    }
                }
                match parse_index(chars, i + 1, close) {
                    Some(index) => {
                        tokens.push(Token::Index(index));
                        assert(path_of(tokens@) =~= before + bracket_tokens(inner));
                    },
                    None => {
                        assert(path_of(tokens@) =~= before + bracket_tokens(inner));
                    },
                }
            }
            assert(before + bracket_tokens(inner) + brackets(chars@.subrange(close + 1, to as int))
                =~= before + brackets(rest));
            i = close + 1;
        }
    }
    proof {
        assert(brackets(chars@.subrange(i as int, to as int)) =~= Seq::<PathToken>::empty());
        assert(path_of(tokens@) + Seq::<PathToken>::empty() =~= path_of(tokens@));
    }
}

/// Appends the tokens of the segment that runs from `from` up to `to`.
fn parse_segment(tokens: &mut Vec<Token>, chars: &Vec<char>, from: usize, to: usize)
    requires
        from <= to <= chars.len(),
    ensures
        path_of(final(tokens)@) == path_of(old(tokens)@) + segment_tokens(
            chars@.subrange(from as int, to as int),
        ),
{
    let ghost segment = chars@.subrange(from as int, to as int);
    let ghost before = path_of(tokens@);
    let open = find(chars, from, to, '[');
    if open == to {
        tokens.push(Token::Key(text(chars, from, to)));
        assert(path_of(tokens@) =~= before + segment_tokens(segment));
    } else {
        if open > from {
            tokens.push(Token::Key(text(chars, from, open)));
            assert(segment.take(open - from) =~= chars@.subrange(from as int, open as int));
            assert(path_of(tokens@) =~= before + seq![PathToken::Key(segment.take(open - from))]);
        }
        assert(segment.skip(open - from) =~= chars@.subrange(open as int, to as int));
        parse_brackets(tokens, chars, open, to);
        assert(path_of(tokens@) =~= before + segment_tokens(segment));
    }
}

/// Reads a path such as `users[0].name` or `matrix[*][1]` into its tokens.
/// Segments are divided by dots; a segment is a key, then any number of
/// bracket groups. A group that holds neither a number nor `*` gives no
/// token, and what follows an unclosed or misplaced bracket in a segment is
/// passed over.
pub fn parse_path(path: &str) -> (r: Vec<Token>)
    ensures
        path_of(r@) == parse(path@),
{
    let chars = chars_of(path);
    let n = chars.len();
    let mut tokens: Vec<Token> = Vec::new();
    assert(path_of(tokens@) =~= Seq::<PathToken>::empty());
    if n == 0 {
        return tokens;
    }
    let mut i: usize = 0;
    let mut more = true;
    assert(chars@.subrange(0, n as int) =~= path@);
    while more
        invariant
            i <= n,
            n == chars.len(),
            chars@ == path@,
            more ==> path_of(tokens@) + segments_tokens(chars@.subrange(i as int, n as int))
                == segments_tokens(path@),
            !more ==> path_of(tokens@) == segments_tokens(path@),
        decreases n - i + (if more { 1int } else { 0int }),
    {
        let ghost rest = chars@.subrange(i as int, n as int);
        let ghost before = path_of(tokens@);
        let dot = find(&chars, i, n, '.');
        parse_segment(&mut tokens, &chars, i, dot);
        if dot == n {
            assert(chars@.subrange(i as int, dot as int) =~= rest);
            more = false;
        } else {
            proof {
                assert(rest.take(dot - i) =~= chars@.subrange(i as int, dot as int));
                assert(rest.skip(dot - i + 1) =~= chars@.subrange(dot + 1, n as int));
                assert(before + segment_tokens(rest.take(dot - i)) + segments_tokens(
                    rest.skip(dot - i + 1),
                ) =~= before + segments_tokens(rest));
            }
            i = dot + 1;
        }
    }
    tokens
}

} // verus!

//! Following a path into a value, and the functions on objects.

use crate::path::{parse, parse_path, path_of, PathToken, Token};
use crate::value::{
    canonical, items_view, key_lt, lemma_items_view, lemma_object_map_sorted, object_map, put,
    sorted_keys, Json, Value,
};
use vstd::prelude::*;
use vstd::slice::slice_subrange;

verus! {

/// Where one key or index token leads from `v`: into the field of an object,
/// or to the item of an array at that position. Nowhere, if `v` has no such
/// field or item, and nowhere for a wildcard.
pub open spec fn step(v: Json, token: PathToken) -> Option<Json> {
    match (token, v) {
        (PathToken::Key(name), Json::Object(fields)) => if fields.contains_key(name) {
            Some(fields[name])
        } else {
            None
        },
        (PathToken::Index(i), Json::Array(items)) => if i < items.len() {
            Some(items[i as int])
        } else {
            None
        },
        _ => None,
    }
}

/// The one value that the tokens lead to from `root`, followed strictly from
/// left to right; none if a step fails or a wildcard stands in the way.
pub open spec fn get_single(root: Json, tokens: Seq<PathToken>) -> Option<Json>
    decreases tokens.len(),
{
    if tokens.len() == 0 {
        Some(root)
    } else {
        match step(root, tokens[0]) {
            Some(next) => get_single(next, tokens.skip(1)),
            None => None,
        }
    }
}

/// Every value that the tokens lead to from `root`, in order. A wildcard
/// follows the rest of the path from each item of an array in turn; a key
/// or index that is absent ends its branch with nothing.
pub open spec fn collect_all(root: Json, tokens: Seq<PathToken>) -> Seq<Json>
    decreases tokens.len(), 0nat,
{
    if tokens.len() == 0 {
        seq![root]
    } else {
        match tokens[0] {
            PathToken::Wildcard => match root {
                Json::Array(items) => collect_each(items, tokens.skip(1)),
                _ => Seq::empty(),
            },
            token => match step(root, token) {
                Some(next) => collect_all(next, tokens.skip(1)),
                None => Seq::empty(),
            },
        }
    }
}

/// What the tokens lead to from the first of `items`, then what they lead to
/// from the second, and so on.
pub open spec fn collect_each(items: Seq<Json>, tokens: Seq<PathToken>) -> Seq<Json>
    decreases tokens.len(), items.len() + 1,
{
    if items.len() == 0 {
        Seq::empty()
    } else {
        collect_each(items.drop_last(), tokens) + collect_all(items.last(), tokens)
    }
}

/// Whether the tokens lead somewhere from `root` along every branch: a
/// wildcard asks for an array that is not empty and for the rest of the path
/// from each of its items.
pub open spec fn all_present(root: Json, tokens: Seq<PathToken>) -> bool
    decreases tokens.len(),
{
    if tokens.len() == 0 {
        true
    } else {
        match tokens[0] {
            PathToken::Wildcard => match root {
                Json::Array(items) => items.len() > 0 && forall|i: int|
                    0 <= i < items.len() ==> all_present(#[trigger] items[i], tokens.skip(1)),
                _ => false,
            },
            token => match step(root, token) {
                Some(next) => all_present(next, tokens.skip(1)),
                None => false,
            },
        }
    }
}

/// A key that no entry has is not in the mapping.
pub proof fn lemma_object_map_absent(entries: Seq<(String, Value)>, key: Seq<char>)
    requires
        forall|k: int| 0 <= k < entries.len() ==> (#[trigger] entries[k]).0@ != key,
    ensures
        !object_map(entries).contains_key(key),
    decreases entries.len(),
{
    if entries.len() > 0 {
        let front = entries.drop_last();
        assert forall|k: int| 0 <= k < front.len() implies (#[trigger] front[k]).0@ != key by {
            assert(front[k] == entries[k]);
        }
        lemma_object_map_absent(front, key);
        assert(entries.last() == entries[entries.len() - 1]);
    }
}

/// The mapping gives a key the value of the last entry that has it.
pub proof fn lemma_object_map_last(entries: Seq<(String, Value)>, key: Seq<char>, i: int)
    requires
        0 <= i < entries.len(),
        entries[i].0@ == key,
        forall|k: int| i < k < entries.len() ==> (#[trigger] entries[k]).0@ != key,
    ensures
        object_map(entries).contains_key(key),
        object_map(entries)[key] == entries[i].1@,
    decreases entries.len(),
{
    if i < entries.len() - 1 {
        let front = entries.drop_last();
        assert forall|k: int| i < k < front.len() implies (#[trigger] front[k]).0@ != key by {
            assert(front[k] == entries[k]);
        }
        assert(front[i] == entries[i]);
        lemma_object_map_last(front, key, i);
        assert(entries.last() == entries[entries.len() - 1]);
    }
}

/// The place of the entry that gives `key` its value.
pub fn entry_at(entries: &Vec<(String, Value)>, key: &String) -> (r: Option<usize>)
    ensures
        match r {
            Some(i) => i < entries.len() && entries[i as int].0@ == key@ && object_map(
                entries@,
            ).contains_key(key@) && object_map(entries@)[key@] == entries[i as int].1@,
            None => !object_map(entries@).contains_key(key@),
        },
{
    let mut i = entries.len();
    while i > 0
        invariant
            i <= entries.len(),
            forall|k: int| i <= k < entries.len() ==> (#[trigger] entries@[k]).0@ != key@,
        decreases i,
    {
        i -= 1;
        if entries[i].0 == *key {
            proof {
                lemma_object_map_last(entries@, key@, i as int);
            }
            return Some(i);
        }
    }
    proof {
        lemma_object_map_absent(entries@, key@);
    }
    None
}

/// The value that the entries give to `key`.
pub fn entry<'a>(entries: &'a Vec<(String, Value)>, key: &String) -> (r: Option<&'a Value>)
    ensures
        match r {
            Some(v) => object_map(entries@).contains_key(key@) && object_map(entries@)[key@] == v@,
            None => !object_map(entries@).contains_key(key@),
        },
{
    match entry_at(entries, key) {
        Some(at) => Some(&entries[at].1),
        None => None,
    }
}

/// Where one token leads from `current`, if anywhere.
pub fn advance<'a>(current: &'a Value, token: &Token) -> (r: Option<&'a Value>)
    ensures
        match r {
            Some(v) => step(current@, token@) == Some(v@),
            None => step(current@, token@) is None,
        },
{
    match token {
        Token::Key(name) => match current {
            Value::Object(entries) => entry(entries, name),
            _ => None,
        },
        Token::Index(i) => match current {
            Value::Array(items) => {
                proof {
                    lemma_items_view(items@);
                }
                if *i < items.len() {
                    Some(&items[*i])
                } else {
                    None
                }
            },
            _ => None,
        },
        Token::Wildcard => None,
    }
}

/// Follows the tokens from `obj`, one value at a time.
pub fn walk<'a>(obj: &'a Value, tokens: &[Token]) -> (r: Option<&'a Value>)
    ensures
        match r {
            Some(v) => get_single(obj@, path_of(tokens@)) == Some(v@),
            None => get_single(obj@, path_of(tokens@)) is None,
        },
{
    let mut current = obj;
    let ghost path = path_of(tokens@);
    assert(path.skip(0) =~= path);
    for i in 0..tokens.len()
        invariant
            path == path_of(tokens@),
            get_single(current@, path.skip(i as int)) == get_single(obj@, path),
    {
        assert(path.skip(i as int).skip(1) =~= path.skip(i + 1));
        match advance(current, &tokens[i]) {
            Some(next) => {
                current = next;
            },
            None => {
                return None;
            },
        }
    }
    Some(current)
}

/// The view of two lists of values, one after the other.
pub proof fn lemma_items_view_concat(a: Seq<Value>, b: Seq<Value>)
    ensures
        items_view(a + b) == items_view(a) + items_view(b),
{
    lemma_items_view(a);
    lemma_items_view(b);
    lemma_items_view(a + b);
    assert(items_view(a + b) =~= items_view(a) + items_view(b));
}

/// Collects every value that the tokens lead to from `current`.
pub fn resolve_path(current: &Value, tokens: &[Token]) -> (r: Vec<Value>)
    ensures
        items_view(r@) == collect_all(current@, path_of(tokens@)),
    decreases tokens.len(),
{
    let ghost path = path_of(tokens@);
    if tokens.len() == 0 {
        let mut found: Vec<Value> = Vec::new();
        found.push(current.clone());
        proof {
            lemma_items_view(found@);
            assert(items_view(found@) =~= seq![current@]);
        }
        return found;
    }
    let rest = slice_subrange(tokens, 1, tokens.len());
    assert(path_of(rest@) =~= path.skip(1));
    match &tokens[0] {
        Token::Wildcard => {
            let mut found: Vec<Value> = Vec::new();
            match current {
                Value::Array(items) => {
                    proof {
                        lemma_items_view(items@);
                    }
                    for i in 0..items.len()
                        invariant
                            path == path_of(tokens@),
                            path_of(rest@) == path.skip(1),
                            rest@.len() < tokens@.len(),
                            items_view(found@) == collect_each(
                                items_view(items@).take(i as int),
                                path.skip(1),
                            ),
                    {
                        let mut part = resolve_path(&items[i], rest);
                        let ghost before = found@;
                        let ghost added = part@;
                        found.append(&mut part);
                        proof {
                            lemma_items_view(items@);
                            lemma_items_view_concat(before, added);
                            assert(items_view(items@).take(i + 1).drop_last() =~= items_view(
                                items@,
                            ).take(i as int));
                        }
                    }
                    proof {
                        assert(items_view(items@).take(items.len() as int) =~= items_view(items@));
                    }
                },
                _ => {},
            }
            found
        },
        token => match advance(current, token) {
            Some(next) => resolve_path(next, rest),
            None => Vec::new(),
        },
    }
}

/// Tells whether the tokens lead somewhere from `current` along every
/// branch that a wildcard opens.
pub fn has_all_paths(current: &Value, tokens: &[Token]) -> (r: bool)
    ensures
        r == all_present(current@, path_of(tokens@)),
    decreases tokens.len(),
{
    let ghost path = path_of(tokens@);
    if tokens.len() == 0 {
        return true;
    }
    let rest = slice_subrange(tokens, 1, tokens.len());
    assert(path_of(rest@) =~= path.skip(1));
    match &tokens[0] {
        Token::Wildcard => match current {
            Value::Array(items) => {
                proof {
                    lemma_items_view(items@);
                }
                if items.len() == 0 {
                    return false;
                }
                for i in 0..items.len()
                    invariant
                        path == path_of(tokens@),
                        path_of(rest@) == path.skip(1),
                        rest@.len() < tokens@.len(),
                        items_view(items@).len() == items.len(),
                        forall|k: int|
                            0 <= k < items.len() ==> #[trigger] items_view(items@)[k] == items@[k]@,
                        current@ == Json::Array(items_view(items@)),
                        path.len() > 0,
                        path[0] == PathToken::Wildcard,
                        forall|k: int|
                            0 <= k < i ==> all_present(
                                #[trigger] items_view(items@)[k],
                                path.skip(1),
                            ),
                {
                    if !has_all_paths(&items[i], rest) {
                        assert(!all_present(items_view(items@)[i as int], path.skip(1)));
                        return false;
                    }
                }
                true
            },
            _ => false,
        },
        token => match advance(current, token) {
            Some(next) => has_all_paths(next, rest),
            None => false,
        },
    }
}

/// The value at `path` inside `obj`, or `default` where the path leads
/// nowhere. A wildcard in the path leads nowhere.
pub fn get(obj: &Value, path: &str, default: Value) -> (r: Value)
    ensures
        r@ == match get_single(obj@, parse(path@)) {
            Some(v) => v,
            None => default@,
        },
{
    let tokens = parse_path(path);
    match walk(obj, tokens.as_slice()) {
        Some(found) => found.clone(),
        None => default,
    }
}

/// Tells whether `path` leads to a value inside `obj`; a null counts as one.
pub fn has(obj: &Value, path: &str) -> (r: bool)
    ensures
        r == get_single(obj@, parse(path@)).is_some(),
{
    let tokens = parse_path(path);
    walk(obj, tokens.as_slice()).is_some()
}

/// Every value that `pattern` leads to inside `obj`, in order; `[*]` in the
/// pattern stands for each item of an array.
pub fn get_all(obj: &Value, pattern: &str) -> (r: Vec<Value>)
    ensures
        items_view(r@) == collect_all(obj@, parse(pattern@)),
{
    let tokens = parse_path(pattern);
    resolve_path(obj, tokens.as_slice())
}

/// Tells whether `pattern` leads to a value inside `obj` for every item that
/// a `[*]` in it stands for; never so over an empty array.
pub fn has_all(obj: &Value, pattern: &str) -> (r: bool)
    ensures
        r == all_present(obj@, parse(pattern@)),
{
    let tokens = parse_path(pattern);
    has_all_paths(obj, tokens.as_slice())
}

/// The number of values that the tokens lead to from all of `items`
/// together: the sum, over the items, of the number for each.
pub open spec fn branch_total(items: Seq<Json>, tokens: Seq<PathToken>) -> nat
    decreases items.len(),
{
    if items.len() == 0 {
        0
    } else {
        branch_total(items.drop_last(), tokens) + collect_all(items.last(), tokens).len()
    }
}

/// A wildcard gathers, item by item and in order, what the rest of the path
/// leads to from each item of the array.
pub proof fn lemma_wildcard_fans_out(items: Seq<Json>, rest: Seq<PathToken>)
    ensures
        collect_all(Json::Array(items), seq![PathToken::Wildcard] + rest) == items.map_values(
            |item: Json| collect_all(item, rest),
        ).flatten(),
    decreases items.len(),
{
    let each = |item: Json| collect_all(item, rest);
    let path = seq![PathToken::Wildcard] + rest;
    assert(path.skip(1) =~= rest);
    assert(collect_all(Json::Array(items), path) == collect_each(items, rest));
    if items.len() == 0 {
        assert(items.map_values(each) =~= Seq::<Seq<Json>>::empty());
    } else {
        let front = items.drop_last();
        lemma_wildcard_fans_out(front, rest);
        assert(collect_all(Json::Array(front), path) == collect_each(front, rest));
        assert(items.map_values(each) =~= front.map_values(each).push(each(items.last())));
        front.map_values(each).lemma_flatten_push(each(items.last()));
    }
}

/// At a wildcard the number of results is the sum of the numbers of results
/// of the branches, one branch for each item of the array.
pub proof fn lemma_wildcard_cardinality(items: Seq<Json>, rest: Seq<PathToken>)
    ensures
        collect_all(Json::Array(items), seq![PathToken::Wildcard] + rest).len() == branch_total(
            items,
            rest,
        ),
    decreases items.len(),
{
    let path = seq![PathToken::Wildcard] + rest;
    assert(path.skip(1) =~= rest);
    assert(collect_all(Json::Array(items), path) == collect_each(items, rest));
    if items.len() > 0 {
        let front = items.drop_last();
        lemma_wildcard_cardinality(front, rest);
        assert(collect_all(Json::Array(front), path) == collect_each(front, rest));
    }
}

/// A path that ends in a wildcard right after reaching an array yields the
/// items of that array, each once and in order; so it yields as many values
/// as the array has items.
pub proof fn lemma_wildcard_yields_items(root: Json, tokens: Seq<PathToken>, items: Seq<Json>)
    requires
        get_single(root, tokens) == Some(Json::Array(items)),
    ensures
        collect_all(root, tokens.push(PathToken::Wildcard)) == items,
        collect_all(root, tokens.push(PathToken::Wildcard)).len() == items.len(),
    decreases tokens.len(),
{
    let path = tokens.push(PathToken::Wildcard);
    if tokens.len() == 0 {
        assert(path.skip(1) =~= Seq::<PathToken>::empty());
        lemma_collect_each_single(items);
    } else {
        assert(path.skip(1) =~= tokens.skip(1).push(PathToken::Wildcard));
        assert(path[0] == tokens[0]);
        match step(root, tokens[0]) {
            Some(next) => {
                lemma_wildcard_yields_items(next, tokens.skip(1), items);
            },
            None => {},
        }
    }
}

/// With no token left to follow, each item is its own result.
pub proof fn lemma_collect_each_single(items: Seq<Json>)
    ensures
        collect_each(items, Seq::empty()) == items,
    decreases items.len(),
{
    let none = Seq::<PathToken>::empty();
    if items.len() > 0 {
        lemma_collect_each_single(items.drop_last());
        assert(collect_all(items.last(), none) == seq![items.last()]);
        assert(items.drop_last() + seq![items.last()] =~= items);
    }
    assert(collect_each(items, none) =~= items);
}

/// Over an array a wildcard holds exactly if the array is not empty and the
/// rest of the path holds from every one of its items.
pub proof fn lemma_wildcard_asks_every_item(items: Seq<Json>, rest: Seq<PathToken>)
    ensures
        all_present(Json::Array(items), seq![PathToken::Wildcard] + rest) <==> (items.len() > 0
            && forall|i: int| 0 <= i < items.len() ==> all_present(#[trigger] items[i], rest)),
{
    let path = seq![PathToken::Wildcard] + rest;
    assert(path.skip(1) =~= rest);
}

/// One item from which the rest of the path leads nowhere makes the whole
/// check fail, however many items there are.
pub proof fn lemma_one_missing_fails(items: Seq<Json>, rest: Seq<PathToken>, i: int)
    requires
        0 <= i < items.len(),
        !all_present(items[i], rest),
    ensures
        !all_present(Json::Array(items), seq![PathToken::Wildcard] + rest),
{
    lemma_wildcard_asks_every_item(items, rest);
}

/// Over an empty array a wildcard never holds, whatever follows it.
pub proof fn lemma_empty_array_fails(rest: Seq<PathToken>)
    ensures
        !all_present(Json::Array(Seq::empty()), seq![PathToken::Wildcard] + rest),
{
    lemma_wildcard_asks_every_item(Seq::empty(), rest);
}

/// Where a path holds along every branch, it yields at least one value; and
/// where it leads to one value without a wildcard, that value is all it yields.
pub proof fn lemma_single_agrees(root: Json, tokens: Seq<PathToken>)
    ensures
        get_single(root, tokens) matches Some(v) ==> collect_all(root, tokens) == seq![v]
            && all_present(root, tokens),
    decreases tokens.len(),
{
    if tokens.len() > 0 {
        match step(root, tokens[0]) {
            Some(next) => {
                lemma_single_agrees(next, tokens.skip(1));
            },
            None => {},
        }
    }
}

/// Along a path that holds no wildcard, looking for one value, for all
/// values and for a value on every branch come to the same.
pub proof fn lemma_without_wildcard(root: Json, tokens: Seq<PathToken>)
    requires
        forall|i: int| 0 <= i < tokens.len() ==> !(#[trigger] tokens[i] is Wildcard),
    ensures
        all_present(root, tokens) <==> get_single(root, tokens) is Some,
        collect_all(root, tokens) == match get_single(root, tokens) {
            Some(v) => seq![v],
            None => Seq::empty(),
        },
    decreases tokens.len(),
{
    if tokens.len() > 0 {
        let rest = tokens.skip(1);
        assert(!(tokens[0] is Wildcard));
        assert forall|i: int| 0 <= i < rest.len() implies !(#[trigger] rest[i] is Wildcard) by {
            assert(rest[i] == tokens[i + 1]);
        }
        match step(root, tokens[0]) {
            Some(next) => {
                lemma_without_wildcard(next, rest);
            },
            None => {},
        }
    }
}

/// A path that holds along every branch leads to at least one value.
pub proof fn lemma_all_present_finds(root: Json, tokens: Seq<PathToken>)
    requires
        all_present(root, tokens),
    ensures
        collect_all(root, tokens).len() > 0,
    decreases tokens.len(),
{
    if tokens.len() > 0 {
        let rest = tokens.skip(1);
        match tokens[0] {
            PathToken::Wildcard => {
                let items = root->Array_0;
                assert(all_present(items[items.len() - 1], rest));
                lemma_all_present_finds(items.last(), rest);
                assert(collect_each(items, rest) == collect_each(items.drop_last(), rest)
                    + collect_all(items.last(), rest));
            },
            token => {
                lemma_all_present_finds(step(root, token)->Some_0, rest);
            },
        }
    }
}

/// The fields of an object; none for any other value.
pub open spec fn fields_of(v: Json) -> Map<Seq<char>, Json> {
    match v {
        Json::Object(fields) => fields,
        _ => Map::empty(),
    }
}

/// The set of the given names.
pub open spec fn names(keys: Seq<Seq<char>>) -> Set<Seq<char>> {
    Set::new(|name: Seq<char>| keys.contains(name))
}

/// What the strings hold.
pub open spec fn texts(keys: Seq<&str>) -> Seq<Seq<char>> {
    keys.map_values(|k: &str| k@)
}

/// What the strings hold.
pub open spec fn owned_texts(keys: Seq<String>) -> Seq<Seq<char>> {
    keys.map_values(|k: String| k@)
}

/// The strings as owned keys.
fn owned(keys: &[&str]) -> (r: Vec<String>)
    ensures
        owned_texts(r@) == texts(keys@),
{
    let mut out: Vec<String> = Vec::new();
    for i in 0..keys.len()
        invariant
            owned_texts(out@) == texts(keys@).take(i as int),
    {
        let ghost before = owned_texts(out@);
        out.push(String::from_str(keys[i]));
        assert(owned_texts(out@) =~= before.push(keys@[i as int]@));
        assert(texts(keys@).take(i + 1) =~= before.push(keys@[i as int]@));
    }
    assert(texts(keys@).take(keys.len() as int) =~= texts(keys@));
    out
}

/// Tells whether `key` is one of `keys`.
fn listed(keys: &Vec<String>, key: &String) -> (r: bool)
    ensures
        r == names(owned_texts(keys@)).contains(key@),
{
    for i in 0..keys.len()
        invariant
            forall|k: int| 0 <= k < i ==> (#[trigger] owned_texts(keys@)[k]) != key@,
    {
        if keys[i] == *key {
            assert(owned_texts(keys@)[i as int] == key@);
            return true;
        }
    }
    false
}

/// The entries whose key is not among `dropped`, in normal form.
fn without(entries: &Vec<(String, Value)>, dropped: &Vec<String>) -> (r: Vec<(String, Value)>)
    ensures
        sorted_keys(r@),
        object_map(r@) == object_map(entries@).remove_keys(names(owned_texts(dropped@))),
        (forall|i: int| 0 <= i < entries@.len() ==> canonical((#[trigger] entries@[i]).1))
            ==> forall|i: int| 0 <= i < r@.len() ==> canonical((#[trigger] r@[i]).1),
{
    let mut out: Vec<(String, Value)> = Vec::new();
    let ghost gone = names(owned_texts(dropped@));
    let ghost fine = forall|i: int|
        0 <= i < entries@.len() ==> canonical((#[trigger] entries@[i]).1);
    assert(object_map(out@) =~= object_map(entries@.take(0)).remove_keys(gone));
    for i in 0..entries.len()
        invariant
            gone == names(owned_texts(dropped@)),
            fine == (forall|i: int|
                0 <= i < entries@.len() ==> canonical((#[trigger] entries@[i]).1)),
            sorted_keys(out@),
            object_map(out@) == object_map(entries@.take(i as int)).remove_keys(gone),
            fine ==> forall|k: int| 0 <= k < out@.len() ==> canonical((#[trigger] out@[k]).1),
    {
        let ghost before = object_map(entries@.take(i as int));
        assert(entries@.take(i + 1).drop_last() =~= entries@.take(i as int));
        assert(fine ==> canonical(entries@[i as int].1));
        let ghost k = entries@[i as int].0@;
        let ghost v = entries@[i as int].1@;
        if !listed(dropped, &entries[i].0) {
            put(&mut out, entries[i].0.clone(), entries[i].1.clone());
            assert(before.remove_keys(gone).insert(k, v) =~= before.insert(k, v).remove_keys(gone));
        } else {
            assert(before.remove_keys(gone) =~= before.insert(k, v).remove_keys(gone));
        }
    }
    assert(entries@.take(entries.len() as int) =~= entries@);
    out
}

/// An object with those fields of `obj` whose key is one of `keys`; an
/// empty object where `obj` is no object. The result is in normal form
/// if `obj` is.
pub fn pick(obj: &Value, keys: &[&str]) -> (r: Value)
    ensures
        r@ == Json::Object(fields_of(obj@).restrict(names(texts(keys@)))),
        r matches Value::Object(sorted) && sorted_keys(sorted@),
        canonical(*obj) ==> canonical(r),
{
    let mut out: Vec<(String, Value)> = Vec::new();
    let ghost fields = fields_of(obj@);
    match obj {
        Value::Object(entries) => {
            assert(object_map(out@) =~= fields.restrict(names(texts(keys@).take(0))));
            for i in 0..keys.len()
                invariant
                    fields == object_map(entries@),
                    *obj == Value::Object(*entries),
                    sorted_keys(out@),
                    object_map(out@) == fields.restrict(names(texts(keys@).take(i as int))),
                    canonical(*obj) ==> forall|k: int|
                        0 <= k < out@.len() ==> canonical((#[trigger] out@[k]).1),
            {
                let key = String::from_str(keys[i]);
                let ghost k = key@;
                let ghost old_names = names(texts(keys@).take(i as int));
                let ghost new_names = names(texts(keys@).take(i + 1));
                proof {
                    assert(texts(keys@).take(i + 1) =~= texts(keys@).take(i as int).push(k));
                    assert(new_names =~= old_names.insert(k)) by {
                        assert forall|q: Seq<char>| new_names.contains(q) <==> old_names.insert(
                            k,
                        ).contains(q) by {
                            let a = texts(keys@).take(i as int);
                            let b = a.push(k);
                            if a.contains(q) {
                                let j = choose|j: int| 0 <= j < a.len() && a[j] == q;
                                assert(b[j] == q);
                            }
                            if q == k {
                                assert(b[a.len() as int] == k);
                            }
                            if b.contains(q) && q != k {
                                let j = choose|j: int| 0 <= j < b.len() && b[j] == q;
                                assert(a[j] == q);
                            }
                        }
                    }
                }
                match entry_at(entries, &key) {
                    Some(at) => {
                        put(&mut out, key, entries[at].1.clone());
                        assert(object_map(out@) =~= fields.restrict(new_names));
                    },
                    None => {
                        assert(object_map(out@) =~= fields.restrict(new_names));
                    },
                }
            }
            assert(texts(keys@).take(keys.len() as int) =~= texts(keys@));
        },
        _ => {
            assert(object_map(out@) =~= fields.restrict(names(texts(keys@))));
        },
    }
    Value::Object(out)
}

/// An object with the fields of `obj` but those whose key is one of `keys`;
/// an empty object where `obj` is no object. The result is in normal form
/// if `obj` is.
pub fn omit(obj: &Value, keys: &[&str]) -> (r: Value)
    ensures
        r@ == Json::Object(fields_of(obj@).remove_keys(names(texts(keys@)))),
        r matches Value::Object(sorted) && sorted_keys(sorted@),
        canonical(*obj) ==> canonical(r),
{
    match obj {
        Value::Object(entries) => {
            let dropped = owned(keys);
            Value::Object(without(entries, &dropped))
        },
        _ => {
            let out: Vec<(String, Value)> = Vec::new();
            assert(object_map(out@) =~= fields_of(obj@).remove_keys(names(texts(keys@))));
            Value::Object(out)
        },
    }
}

/// The fields of all the objects among `values` together; where a key comes
/// more than once, its last value counts.
pub open spec fn merged(values: Seq<Json>) -> Map<Seq<char>, Json>
    decreases values.len(),
{
    if values.len() == 0 {
        Map::empty()
    } else {
        merged(values.drop_last()).union_prefer_right(fields_of(values.last()))
    }
}

/// One object with the fields of all of `objects`; a later object overrides
/// an earlier one, field by field, and what is no object counts for nothing.
/// The result is in normal form if the objects are.
pub fn merge(objects: &[Value]) -> (r: Value)
    ensures
        r@ == Json::Object(merged(items_view(objects@))),
        r matches Value::Object(sorted) && sorted_keys(sorted@),
        (forall|i: int| 0 <= i < objects@.len() ==> canonical(#[trigger] objects@[i])) ==> canonical(
            r,
        ),
{
    let mut out: Vec<(String, Value)> = Vec::new();
    let ghost all = items_view(objects@);
    let ghost fine = forall|i: int| 0 <= i < objects@.len() ==> canonical(#[trigger] objects@[i]);
    proof {
        lemma_items_view(objects@);
        assert(object_map(out@) =~= merged(all.take(0)));
    }
    for i in 0..objects.len()
        invariant
            all == items_view(objects@),
            all.len() == objects@.len(),
            forall|k: int| 0 <= k < objects@.len() ==> all[k] == (#[trigger] objects@[k])@,
            fine == (forall|i: int| 0 <= i < objects@.len() ==> canonical(#[trigger] objects@[i])),
            sorted_keys(out@),
            object_map(out@) == merged(all.take(i as int)),
            fine ==> forall|k: int| 0 <= k < out@.len() ==> canonical((#[trigger] out@[k]).1),
    {
        let ghost so_far = merged(all.take(i as int));
        assert(all.take(i + 1).drop_last() =~= all.take(i as int));
        assert(all.take(i + 1).last() == objects@[i as int]@);
        assert(fine ==> canonical(objects@[i as int]));
        match &objects[i] {
            Value::Object(entries) => {
                assert(so_far.union_prefer_right(object_map(entries@.take(0))) =~= so_far);
                for j in 0..entries.len()
                    invariant
                        fine ==> forall|k: int|
                            0 <= k < entries@.len() ==> canonical((#[trigger] entries@[k]).1),
                        sorted_keys(out@),
                        object_map(out@) == so_far.union_prefer_right(
                            object_map(entries@.take(j as int)),
                        ),
                        fine ==> forall|k: int|
                            0 <= k < out@.len() ==> canonical((#[trigger] out@[k]).1),
                {
                    let ghost part = object_map(entries@.take(j as int));
                    assert(entries@.take(j + 1).drop_last() =~= entries@.take(j as int));
                    assert(fine ==> canonical(entries@[j as int].1));
                    put(&mut out, entries[j].0.clone(), entries[j].1.clone());
                    assert(so_far.union_prefer_right(part).insert(
                        entries@[j as int].0@,
                        entries@[j as int].1@,
                    ) =~= so_far.union_prefer_right(
                        part.insert(entries@[j as int].0@, entries@[j as int].1@),
                    ));
                }
                assert(entries@.take(entries.len() as int) =~= entries@);
            },
            _ => {
                assert(so_far.union_prefer_right(fields_of(objects@[i as int]@)) =~= so_far);
            },
        }
    }
    assert(all.take(objects.len() as int) =~= all);
    Value::Object(out)
}

/// Whether `keys` lists the keys of `fields`, each once, in their order.
pub open spec fn lists_keys(keys: Seq<Seq<char>>, fields: Map<Seq<char>, Json>) -> bool {
    &&& forall|i: int, j: int| 0 <= i < j < keys.len() ==> key_lt(#[trigger] keys[i], #[trigger] keys[j])
    &&& forall|i: int| 0 <= i < keys.len() ==> fields.contains_key(#[trigger] keys[i])
    &&& forall|name: Seq<char>| #[trigger] fields.contains_key(name) ==> keys.contains(name)
}

/// The entries of `obj` in normal form; none where `obj` is no object.
fn sorted_entries(obj: &Value) -> (r: Vec<(String, Value)>)
    ensures
        sorted_keys(r@),
        object_map(r@) == fields_of(obj@),
        lists_keys(r@.map_values(|e: (String, Value)| e.0@), fields_of(obj@)),
{
    let none: Vec<String> = Vec::new();
    let out = match obj {
        Value::Object(entries) => {
            let kept = without(entries, &none);
            assert(object_map(entries@).remove_keys(names(owned_texts(none@))) =~= object_map(
                entries@,
            ));
            kept
        },
        _ => {
            let empty: Vec<(String, Value)> = Vec::new();
            assert(object_map(empty@) =~= fields_of(obj@));
            empty
        },
    };
    proof {
        lemma_object_map_sorted(out@);
        let ks = out@.map_values(|e: (String, Value)| e.0@);
        assert forall|name: Seq<char>| #[trigger]
            fields_of(obj@).contains_key(name) implies ks.contains(name) by {
            let i = choose|i: int| 0 <= i < out@.len() && (#[trigger] out@[i]).0@ == name;
            assert(ks[i] == name);
        }
    }
    out
}

/// The keys of the fields of `obj`, in their order; none where `obj` is no
/// object.
pub fn keys(obj: &Value) -> (r: Vec<String>)
    ensures
        lists_keys(owned_texts(r@), fields_of(obj@)),
{
    let entries = sorted_entries(obj);
    let ghost ks = entries@.map_values(|e: (String, Value)| e.0@);
    let mut out: Vec<String> = Vec::new();
    for i in 0..entries.len()
        invariant
            ks == entries@.map_values(|e: (String, Value)| e.0@),
            owned_texts(out@) == ks.take(i as int),
    {
        let ghost before = owned_texts(out@);
        out.push(entries[i].0.clone());
        assert(owned_texts(out@) =~= before.push(ks[i as int]));
        assert(ks.take(i + 1) =~= before.push(ks[i as int]));
    }
    assert(ks.take(entries.len() as int) =~= ks);
    out
}

/// The values of the fields of `obj`, in the order of their keys; none
/// where `obj` is no object.
pub fn values(obj: &Value) -> (r: Vec<Value>)
    ensures
        exists|keys: Seq<Seq<char>>|
            #![auto]
            lists_keys(keys, fields_of(obj@)) && r.len() == keys.len() && forall|i: int|
                0 <= i < keys.len() ==> (#[trigger] r[i])@ == fields_of(obj@)[keys[i]],
{
    let entries = sorted_entries(obj);
    let ghost ks = entries@.map_values(|e: (String, Value)| e.0@);
    let mut out: Vec<Value> = Vec::new();
    proof {
        lemma_object_map_sorted(entries@);
    }
    for i in 0..entries.len()
        invariant
            out.len() == i,
            forall|k: int| 0 <= k < i ==> (#[trigger] out[k])@ == entries@[k].1@,
    {
        out.push(entries[i].1.clone());
    }
    proof {
        assert forall|i: int| 0 <= i < ks.len() implies (#[trigger] out[i])@ == fields_of(obj@)[ks[i]] by {
            assert(ks[i] == entries@[i].0@);
        }
    }
    out
}

} // verus!

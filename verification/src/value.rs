//! Values of the JSON kinds, what they stand for, and their normal form.

use crate::strings_helpers::chars_of;
use vstd::prelude::*;

verus! {

/// A JSON number: a non-negative integer, a negative integer, or a double
/// held as its bit pattern.
#[derive(Clone, Copy, Debug, PartialEq, Eq, Hash)]
pub enum Number {
    PosInt(u64),
    NegInt(i64),
    Float(u64),
}

/// A value of the six JSON kinds. The entries of an object are held as a
/// list; where two entries have the same key, the later one counts.
#[derive(Debug, PartialEq, Eq, Hash)]
pub enum Value {
    Null,
    Bool(bool),
    Number(Number),
    String(String),
    Array(Vec<Value>),
    Object(Vec<(String, Value)>),
}

/// What a `Value` stands for.
pub enum Json {
    Null,
    Bool(bool),
    Number(Number),
    String(Seq<char>),
    Array(Seq<Json>),
    Object(Map<Seq<char>, Json>),
}

/// What `v` stands for.
pub open spec fn json_of(v: Value) -> Json
    decreases v,
{
    match v {
        Value::Null => Json::Null,
        Value::Bool(b) => Json::Bool(b),
        Value::Number(n) => Json::Number(n),
        Value::String(s) => Json::String(s@),
        Value::Array(items) => Json::Array(items_view(items@)),
        Value::Object(entries) => Json::Object(object_map(entries@)),
    }
}

/// What the items of an array stand for, one by one.
pub open spec fn items_view(items: Seq<Value>) -> Seq<Json>
    decreases items,
{
    if items.len() == 0 {
        Seq::empty()
    } else {
        items_view(items.drop_last()).push(json_of(items.last()))
    }
}

/// The mapping that the entries of an object stand for: a later entry
/// replaces an earlier one with the same key.
pub open spec fn object_map(entries: Seq<(String, Value)>) -> Map<Seq<char>, Json>
    decreases entries,
{
    if entries.len() == 0 {
        Map::empty()
    } else {
        object_map(entries.drop_last()).insert(entries.last().0@, json_of(entries.last().1))
    }
}

impl View for Value {
    type V = Json;

    open spec fn view(&self) -> Json {
        json_of(*self)
    }
}

/// The view of an array is as long as the array and holds the views of its
/// items.
pub proof fn lemma_items_view(items: Seq<Value>)
    ensures
        items_view(items).len() == items.len(),
        forall|i: int| 0 <= i < items.len() ==> #[trigger] items_view(items)[i] == items[i]@,
    decreases items.len(),
{
    if items.len() > 0 {
        lemma_items_view(items.drop_last());
    }
}

impl Value {
    /// A copy of the value, equal to it in everything.
    pub fn duplicate(&self) -> (r: Value)
        ensures
            r@ == self@,
            canonical(*self) ==> canonical(r),
        decreases self,
    {
        match self {
            Value::Null => Value::Null,
            Value::Bool(b) => Value::Bool(*b),
            Value::Number(n) => Value::Number(*n),
            Value::String(s) => Value::String(s.clone()),
            Value::Array(items) => {
                let mut out: Vec<Value> = Vec::new();
                for i in 0..items.len()
                    invariant
                        *self == Value::Array(*items),
                        out.len() == i,
                        items_view(out@) == items_view(items@.take(i as int)),
                        canonical(*self) ==> forall|k: int|
                            0 <= k < i ==> canonical(#[trigger] out@[k]),
                {
                    proof {
                        assert(decreases_to!(self => self->Array_0));
                        assert(decreases_to!(self->Array_0 => self->Array_0@));
                        assert(decreases_to!(self->Array_0@ => self->Array_0@[i as int]));
                    }
                    let ghost before = out@;
                    out.push(items[i].duplicate());
                    proof {
                        assert(out@.drop_last() =~= before);
                        assert(items@.take(i + 1).drop_last() =~= items@.take(i as int));
                    }
                }
                assert(items@.take(items.len() as int) =~= items@);
                Value::Array(out)
            },
            Value::Object(entries) => {
                let mut out: Vec<(String, Value)> = Vec::new();
                for i in 0..entries.len()
                    invariant
                        *self == Value::Object(*entries),
                        out.len() == i,
                        object_map(out@) == object_map(entries@.take(i as int)),
                        forall|k: int| 0 <= k < i ==> (#[trigger] out@[k]).0@ == entries@[k].0@,
                        canonical(*self) ==> forall|k: int|
                            0 <= k < i ==> canonical((#[trigger] out@[k]).1),
                {
                    proof {
                        assert(decreases_to!(self => self->Object_0));
                        assert(decreases_to!(self->Object_0 => self->Object_0@));
                        assert(decreases_to!(self->Object_0@ => self->Object_0@[i as int]));
                        assert(decreases_to!(self->Object_0@[i as int] => self->Object_0@[i as int].1));
                    }
                    let ghost before = out@;
                    out.push((entries[i].0.clone(), entries[i].1.duplicate()));
                    proof {
                        assert(out@.drop_last() =~= before);
                        assert(entries@.take(i + 1).drop_last() =~= entries@.take(i as int));
                    }
                }
                assert(entries@.take(entries.len() as int) =~= entries@);
                Value::Object(out)
            },
        }
    }
}

impl Clone for Value {
    fn clone(&self) -> (r: Value)
        ensures
            r@ == self@,
            canonical(*self) ==> canonical(r),
    {
        self.duplicate()
    }
}

/// Whether `a` comes before `b` in the order of keys: character by
/// character, a shorter key before its continuations.
pub open spec fn key_lt(a: Seq<char>, b: Seq<char>) -> bool
    decreases a.len(),
{
    if b.len() == 0 {
        false
    } else if a.len() == 0 {
        true
    } else if a[0] != b[0] {
        a[0] < b[0]
    } else {
        key_lt(a.skip(1), b.skip(1))
    }
}

/// No key comes before itself.
pub proof fn lemma_key_lt_irreflexive(a: Seq<char>)
    ensures
        !key_lt(a, a),
    decreases a.len(),
{
    if a.len() > 0 {
        lemma_key_lt_irreflexive(a.skip(1));
    }
}

/// A key that comes before a second, which comes before a third, comes
/// before the third.
pub proof fn lemma_key_lt_transitive(a: Seq<char>, b: Seq<char>, c: Seq<char>)
    requires
        key_lt(a, b),
        key_lt(b, c),
    ensures
        key_lt(a, c),
    decreases a.len(),
{
    if a.len() > 0 && a[0] == b[0] && b[0] == c[0] {
        lemma_key_lt_transitive(a.skip(1), b.skip(1), c.skip(1));
    }
}

/// Of two different keys one comes before the other.
pub proof fn lemma_key_lt_total(a: Seq<char>, b: Seq<char>)
    ensures
        key_lt(a, b) || key_lt(b, a) || a == b,
    decreases a.len(),
{
    if a.len() == 0 || b.len() == 0 {
        if a.len() == 0 && b.len() == 0 {
            assert(a =~= b);
        }
    } else if a[0] == b[0] {
        lemma_key_lt_total(a.skip(1), b.skip(1));
        if a.skip(1) == b.skip(1) {
            assert(a =~= seq![a[0]] + a.skip(1));
            assert(b =~= seq![b[0]] + b.skip(1));
        }
    }
}

/// Tells whether the key `a` comes before the key `b`.
pub fn key_less(a: &String, b: &String) -> (r: bool)
    ensures
        r == key_lt(a@, b@),
{
    let x = chars_of(a.as_str());
    let y = chars_of(b.as_str());
    let mut i: usize = 0;
    assert(x@.skip(0) =~= x@);
    assert(y@.skip(0) =~= y@);
    while i < x.len() && i < y.len() && x[i] == y[i]
        invariant
            i <= x.len(),
            i <= y.len(),
            key_lt(x@, y@) == key_lt(x@.skip(i as int), y@.skip(i as int)),
        decreases x.len() - i,
    {
        assert(x@.skip(i as int).skip(1) =~= x@.skip(i + 1));
        assert(y@.skip(i as int).skip(1) =~= y@.skip(i + 1));
        i += 1;
    }
    if i == y.len() {
        false
    } else if i == x.len() {
        true
    } else {
        x[i] < y[i]
    }
}

/// Whether the entries stand in the order of their keys, no key twice.
pub open spec fn sorted_keys(entries: Seq<(String, Value)>) -> bool {
    forall|i: int, j: int|
        0 <= i < j < entries.len() ==> key_lt((#[trigger] entries[i]).0@, (#[trigger] entries[j]).0@)
}

/// Whether `v` is in normal form: the entries of every object in it stand
/// in the order of their keys, no key twice.
pub open spec fn canonical(v: Value) -> bool
    decreases v,
{
    match v {
        Value::Array(items) => forall|i: int|
            0 <= i < items@.len() ==> canonical(#[trigger] items@[i]),
        Value::Object(entries) => sorted_keys(entries@) && forall|i: int|
            0 <= i < entries@.len() ==> canonical((#[trigger] entries@[i]).1),
        _ => true,
    }
}

/// Where no key stands twice, the mapping holds each entry, and nothing else.
pub proof fn lemma_object_map_sorted(entries: Seq<(String, Value)>)
    requires
        sorted_keys(entries),
    ensures
        forall|i: int|
            0 <= i < entries.len() ==> object_map(entries).contains_key((#[trigger] entries[i]).0@)
                && object_map(entries)[entries[i].0@] == entries[i].1@,
        forall|key: Seq<char>| #[trigger]
            object_map(entries).contains_key(key) ==> exists|i: int|
                0 <= i < entries.len() && (#[trigger] entries[i]).0@ == key,
    decreases entries.len(),
{
    if entries.len() > 0 {
        let front = entries.drop_last();
        let last = entries.last();
        assert forall|i: int, j: int| 0 <= i < j < front.len() implies key_lt(
            (#[trigger] front[i]).0@,
            (#[trigger] front[j]).0@,
        ) by {
            assert(front[i] == entries[i]);
            assert(front[j] == entries[j]);
        }
        lemma_object_map_sorted(front);
        assert forall|i: int| 0 <= i < entries.len() implies object_map(entries).contains_key(
            (#[trigger] entries[i]).0@,
        ) && object_map(entries)[entries[i].0@] == entries[i].1@ by {
            if i < front.len() {
                assert(front[i] == entries[i]);
                assert(key_lt(entries[i].0@, entries[entries.len() - 1].0@));
                lemma_key_lt_irreflexive(last.0@);
            }
        }
        assert forall|key: Seq<char>| #[trigger]
            object_map(entries).contains_key(key) implies exists|i: int|
            0 <= i < entries.len() && (#[trigger] entries[i]).0@ == key by {
            if key == last.0@ {
                assert(entries[entries.len() - 1].0@ == key);
            } else {
                assert(object_map(front).contains_key(key));
                let i = choose|i: int| 0 <= i < front.len() && (#[trigger] front[i]).0@ == key;
                assert(entries[i] == front[i]);
            }
        }
    }
}

/// Whether two values are built alike: of the same kind, with the same
/// text, the same number, or the same items and entries in the same order.
pub open spec fn alike(a: Value, b: Value) -> bool
    decreases a,
{
    match (a, b) {
        (Value::Null, Value::Null) => true,
        (Value::Bool(x), Value::Bool(y)) => x == y,
        (Value::Number(x), Value::Number(y)) => x == y,
        (Value::String(x), Value::String(y)) => x@ == y@,
        (Value::Array(x), Value::Array(y)) => x@.len() == y@.len() && forall|i: int|
            0 <= i < x@.len() ==> alike(#[trigger] x@[i], y@[i]),
        (Value::Object(x), Value::Object(y)) => x@.len() == y@.len() && forall|i: int|
            0 <= i < x@.len() ==> (#[trigger] x@[i]).0@ == y@[i].0@ && alike(x@[i].1, y@[i].1),
        _ => false,
    }
}

/// Entries in the order of their keys, without the last of them, stand for
/// the mapping without the last key.
pub proof fn lemma_object_map_front(entries: Seq<(String, Value)>)
    requires
        entries.len() > 0,
        sorted_keys(entries),
    ensures
        sorted_keys(entries.drop_last()),
        object_map(entries.drop_last()) == object_map(entries).remove(entries.last().0@),
{
    let front = entries.drop_last();
    assert forall|i: int, j: int| 0 <= i < j < front.len() implies key_lt(
        (#[trigger] front[i]).0@,
        (#[trigger] front[j]).0@,
    ) by {
        assert(front[i] == entries[i]);
        assert(front[j] == entries[j]);
    }
    lemma_object_map_sorted(front);
    if object_map(front).contains_key(entries.last().0@) {
        let i = choose|i: int| 0 <= i < front.len() && (#[trigger] front[i]).0@ == entries.last().0@;
        assert(front[i] == entries[i]);
        assert(key_lt(entries[i].0@, entries[entries.len() - 1].0@));
        lemma_key_lt_irreflexive(entries.last().0@);
    }
    assert(object_map(front) =~= object_map(entries).remove(entries.last().0@));
}

/// Entries in the order of their keys that stand for the same mapping have
/// the same keys at the same places, with values that stand for the same.
pub proof fn lemma_sorted_entries_agree(a: Seq<(String, Value)>, b: Seq<(String, Value)>)
    requires
        sorted_keys(a),
        sorted_keys(b),
        object_map(a) == object_map(b),
    ensures
        a.len() == b.len(),
        forall|i: int| 0 <= i < a.len() ==> (#[trigger] a[i]).0@ == b[i].0@ && a[i].1@ == b[i].1@,
    decreases a.len(),
{
    lemma_object_map_sorted(a);
    lemma_object_map_sorted(b);
    if a.len() == 0 {
        if b.len() > 0 {
            assert(object_map(b).contains_key(b[0].0@));
        }
    } else if b.len() == 0 {
        assert(object_map(a).contains_key(a[0].0@));
    } else {
        let ka = a.last().0@;
        let kb = b.last().0@;
        assert(object_map(b).contains_key(a[a.len() - 1].0@));
        assert(object_map(a).contains_key(b[b.len() - 1].0@));
        let j = choose|j: int| 0 <= j < b.len() && (#[trigger] b[j]).0@ == ka;
        let i = choose|i: int| 0 <= i < a.len() && (#[trigger] a[i]).0@ == kb;
        if j < b.len() - 1 {
            assert(key_lt(b[j].0@, b[b.len() - 1].0@));
            if i < a.len() - 1 {
                assert(key_lt(a[i].0@, a[a.len() - 1].0@));
                lemma_key_lt_transitive(ka, kb, ka);
            }
            lemma_key_lt_irreflexive(ka);
        }
        assert(ka == kb);
        lemma_object_map_front(a);
        lemma_object_map_front(b);
        lemma_sorted_entries_agree(a.drop_last(), b.drop_last());
        assert forall|i: int| 0 <= i < a.len() implies (#[trigger] a[i]).0@ == b[i].0@ && a[i].1@
            == b[i].1@ by {
            if i < a.len() - 1 {
                assert(a.drop_last()[i] == a[i]);
                assert(b.drop_last()[i] == b[i]);
            } else {
                assert(object_map(a)[ka] == a[i].1@);
                assert(object_map(b)[kb] == b[i].1@);
            }
        }
    }
}

/// Two values in normal form that stand for the same thing are built alike:
/// the normal form of a value is the only one.
pub proof fn lemma_normal_form_is_unique(a: Value, b: Value)
    requires
        canonical(a),
        canonical(b),
        a@ == b@,
    ensures
        alike(a, b),
    decreases a,
{
    match (a, b) {
        (Value::Array(x), Value::Array(y)) => {
            lemma_items_view(x@);
            lemma_items_view(y@);
            assert forall|i: int| 0 <= i < x@.len() implies alike(#[trigger] x@[i], y@[i]) by {
                assert(items_view(x@)[i] == items_view(y@)[i]);
                assert(decreases_to!(a => a->Array_0));
                assert(decreases_to!(a->Array_0 => a->Array_0@));
                assert(decreases_to!(a->Array_0@ => a->Array_0@[i]));
                lemma_normal_form_is_unique(x@[i], y@[i]);
            }
        },
        (Value::Object(x), Value::Object(y)) => {
            lemma_sorted_entries_agree(x@, y@);
            assert forall|i: int| 0 <= i < x@.len() implies (#[trigger] x@[i]).0@ == y@[i].0@
                && alike(x@[i].1, y@[i].1) by {
                assert(decreases_to!(a => a->Object_0));
                assert(decreases_to!(a->Object_0 => a->Object_0@));
                assert(decreases_to!(a->Object_0@ => a->Object_0@[i]));
                assert(decreases_to!(a->Object_0@[i] => a->Object_0@[i].1));
                assert(canonical(x@[i].1));
                assert(canonical(y@[i].1));
                lemma_normal_form_is_unique(x@[i].1, y@[i].1);
            }
        },
        _ => {},
    }
}

/// Sets `key` to `value` among entries that stand in the order of their
/// keys, and keeps them so.
pub fn put(entries: &mut Vec<(String, Value)>, key: String, value: Value)
    requires
        sorted_keys(old(entries)@),
    ensures
        sorted_keys(final(entries)@),
        object_map(final(entries)@) == object_map(old(entries)@).insert(key@, value@),
        canonical(value) && (forall|i: int|
            0 <= i < old(entries)@.len() ==> canonical((#[trigger] old(entries)@[i]).1))
            ==> forall|i: int|
            0 <= i < final(entries)@.len() ==> canonical((#[trigger] final(entries)@[i]).1),
{
    let ghost before = entries@;
    let mut at: usize = 0;
    while at < entries.len() && key_less(&entries[at].0, &key)
        invariant
            entries@ == before,
            at <= entries.len(),
            forall|k: int| 0 <= k < at ==> key_lt((#[trigger] entries@[k]).0@, key@),
        decreases entries.len() - at,
    {
        at += 1;
    }
    let same = at < entries.len() && entries[at].0 == key;
    let ghost k = key@;
    let ghost v = value@;
    let ghost fresh = (key, value);
    if same {
        entries.set(at, (key, value));
    } else {
        entries.insert(at, (key, value));
    }
    proof {
        let after = entries@;
        let shift = if same {
            0int
        } else {
            1int
        };
        assert(after[at as int] == fresh);
        assert forall|i: int| 0 <= i < at implies after[i] == before[i] by {}
        assert forall|i: int| at < i < after.len() implies after[i] == before[i - shift] by {}
        if at < before.len() && !same {
            lemma_key_lt_total(before[at as int].0@, k);
            assert(key_lt(k, before[at as int].0@));
        }
        assert forall|i: int| at + 1 - shift <= i < before.len() implies key_lt(
            k,
            (#[trigger] before[i]).0@,
        ) by {
            if same {
                assert(key_lt(before[at as int].0@, before[i].0@));
            } else if i > at {
                assert(key_lt(before[at as int].0@, before[i].0@));
                lemma_key_lt_transitive(k, before[at as int].0@, before[i].0@);
            }
        }
        assert forall|i: int, j: int| 0 <= i < j < after.len() implies key_lt(
            (#[trigger] after[i]).0@,
            (#[trigger] after[j]).0@,
        ) by {
            if i < at && j > at {
                assert(key_lt(before[i].0@, k));
                assert(key_lt(k, before[j - shift].0@));
                lemma_key_lt_transitive(before[i].0@, k, before[j - shift].0@);
            } else if i < at && j < at {
                assert(key_lt(before[i].0@, before[j].0@));
            } else if i > at {
                assert(key_lt(before[i - shift].0@, before[j - shift].0@));
            }
        }
        lemma_object_map_sorted(before);
        lemma_object_map_sorted(after);
        let target = object_map(before).insert(k, v);
        assert forall|q: Seq<char>| object_map(after).contains_key(q) implies #[trigger]
            target.contains_key(q) && target[q] == object_map(after)[q] by {
            let i = choose|i: int| 0 <= i < after.len() && (#[trigger] after[i]).0@ == q;
            if i < at {
                assert(after[i] == before[i]);
                lemma_key_lt_irreflexive(k);
            } else if i > at {
                assert(after[i] == before[i - shift]);
                lemma_key_lt_irreflexive(k);
            }
        }
        assert forall|q: Seq<char>| #[trigger] target.contains_key(q) implies object_map(
            after,
        ).contains_key(q) by {
            if q == k {
                assert(after[at as int].0@ == k);
            } else {
                let i = choose|i: int| 0 <= i < before.len() && (#[trigger] before[i]).0@ == q;
                if i < at {
                    assert(after[i] == before[i]);
                } else {
                    assert(after[i + shift] == before[i]);
                }
            }
        }
        assert(object_map(after) =~= target);
        if canonical(fresh.1) && (forall|i: int|
            0 <= i < before.len() ==> canonical((#[trigger] before[i]).1)) {
            assert forall|i: int| 0 <= i < after.len() implies canonical((#[trigger] after[i]).1) by {
                if i < at {
                    assert(after[i] == before[i]);
                } else if i > at {
                    assert(after[i] == before[i - shift]);
                }
            }
        }
    }
}

impl Number {
    /// The number that stands for the integer `n`.
    pub fn from_i64(n: i64) -> (r: Number)
        ensures
            n >= 0 ==> r == Number::PosInt(n as u64),
            n < 0 ==> r == Number::NegInt(n),
    {
        if n >= 0 {
            Number::PosInt(n as u64)
        } else {
            Number::NegInt(n)
        }
    }
}

impl Value {
    /// The value that stands for the integer `n`.
    pub fn integer(n: i64) -> (r: Value)
        ensures
            r@ == Json::Number(
                if n >= 0 {
                    Number::PosInt(n as u64)
                } else {
                    Number::NegInt(n)
                },
            ),
            canonical(r),
    {
        Value::Number(Number::from_i64(n))
    }

    /// The value that stands for the text `s`.
    pub fn text(s: &str) -> (r: Value)
        ensures
            r@ == Json::String(s@),
            canonical(r),
    {
        Value::String(String::from_str(s))
    }

    /// The array of the given items.
    pub fn array(items: Vec<Value>) -> (r: Value)
        ensures
            r@ == Json::Array(items_view(items@)),
            (forall|i: int| 0 <= i < items@.len() ==> canonical(#[trigger] items@[i])) ==> canonical(
                r,
            ),
    {
        Value::Array(items)
    }

    /// The object of the given entries, in normal form. Where two entries
    /// have the same key, the later one counts.
    pub fn object(entries: Vec<(String, Value)>) -> (r: Value)
        ensures
            r@ == Json::Object(object_map(entries@)),
            r matches Value::Object(sorted) && sorted_keys(sorted@),
            (forall|i: int| 0 <= i < entries@.len() ==> canonical((#[trigger] entries@[i]).1))
                ==> canonical(r),
    {
        let mut sorted: Vec<(String, Value)> = Vec::new();
        let ghost fine = forall|i: int|
            0 <= i < entries@.len() ==> canonical((#[trigger] entries@[i]).1);
        for i in 0..entries.len()
            invariant
                fine == (forall|i: int|
                    0 <= i < entries@.len() ==> canonical((#[trigger] entries@[i]).1)),
                sorted_keys(sorted@),
                object_map(sorted@) == object_map(entries@.take(i as int)),
                fine ==> forall|k: int|
                    0 <= k < sorted@.len() ==> canonical((#[trigger] sorted@[k]).1),
        {
            assert(entries@.take(i + 1).drop_last() =~= entries@.take(i as int));
            assert(fine ==> canonical(entries@[i as int].1));
            put(&mut sorted, entries[i].0.clone(), entries[i].1.clone());
        }
        assert(entries@.take(entries.len() as int) =~= entries@);
        Value::Object(sorted)
    }
}

} // verus!

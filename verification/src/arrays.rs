//! The functions on lists.

use crate::numbers::{greater, ordered, orders_weakly};
use std::collections::HashMap;
use std::hash::Hash;
use vstd::prelude::*;
use vstd::std_specs::hash::obeys_key_model;
use vstd::std_specs::cmp::PartialEqSpec;

verus! {

/// Whether `copy` holds, item for item, clones of the items of `items`.
pub open spec fn clones_of<T: Clone>(items: Seq<T>, copy: Seq<T>) -> bool {
    &&& copy.len() == items.len()
    &&& forall|i: int| 0 <= i < items.len() ==> cloned(#[trigger] items[i], copy[i])
}

/// `items` cut into runs of `size` items; the last run holds what is left.
pub open spec fn chunks_of<T>(items: Seq<T>, size: int) -> Seq<Seq<T>>
    decreases items.len(),
{
    if items.len() == 0 || size <= 0 {
        Seq::empty()
    } else if items.len() <= size {
        seq![items]
    } else {
        seq![items.take(size)] + chunks_of(items.skip(size), size)
    }
}

/// Cuts `input` into runs of `size` items; the last run holds what is left.
pub fn chunk<T: Clone>(input: &[T], size: usize) -> (r: Vec<Vec<T>>)
    requires
        size > 0,
    ensures
        r.len() == chunks_of(input@, size as int).len(),
        forall|j: int|
            0 <= j < r.len() ==> clones_of(chunks_of(input@, size as int)[j], (#[trigger] r[j])@),
{
    let n = input.len();
    let mut out: Vec<Vec<T>> = Vec::new();
    let mut start: usize = 0;
    let ghost mut done: Seq<Seq<T>> = Seq::empty();
    assert(input@.skip(0) =~= input@);
    while start < n
        invariant
            size > 0,
            n == input.len(),
            start <= n,
            done + chunks_of(input@.skip(start as int), size as int) == chunks_of(
                input@,
                size as int,
            ),
            out.len() == done.len(),
            forall|j: int| 0 <= j < out.len() ==> clones_of(done[j], (#[trigger] out[j])@),
        decreases n - start,
    {
        let end = if n - start <= size {
            n
        } else {
            start + size
        };
        let mut run: Vec<T> = Vec::new();
        for i in start..end
            invariant
                start <= end <= n,
                n == input.len(),
                run.len() == i - start,
                forall|k: int| 0 <= k < run.len() ==> cloned(input[start + k], #[trigger] run[k]),
        {
            run.push(input[i].clone());
        }
        proof {
            let rest = input@.skip(start as int);
            let piece = input@.subrange(start as int, end as int);
            if end == n {
                assert(rest =~= piece);
                assert(chunks_of(input@.skip(end as int), size as int) =~= Seq::<Seq<T>>::empty());
            } else {
                assert(rest.take(size as int) =~= piece);
                assert(rest.skip(size as int) =~= input@.skip(end as int));
            }
            assert(done.push(piece) + chunks_of(input@.skip(end as int), size as int) =~= done
                + chunks_of(rest, size as int));
            assert(clones_of(piece, run@));
            done = done.push(piece);
        }
        out.push(run);
        start = end;
    }
    proof {
        assert(chunks_of(input@.skip(n as int), size as int) =~= Seq::<Seq<T>>::empty());
        assert(done + Seq::<Seq<T>>::empty() =~= done);
    }
    out
}

/// The values of the options that hold one, in order.
pub open spec fn present<T>(items: Seq<Option<T>>) -> Seq<T>
    decreases items.len(),
{
    if items.len() == 0 {
        Seq::empty()
    } else {
        match items.last() {
            Some(v) => present(items.drop_last()).push(v),
            None => present(items.drop_last()),
        }
    }
}

/// Keeps what the options hold and drops the empty ones.
pub fn compact<T: Clone>(input: &[Option<T>]) -> (r: Vec<T>)
    ensures
        clones_of(present(input@), r@),
{
    let mut out: Vec<T> = Vec::new();
    for i in 0..input.len()
        invariant
            clones_of(present(input@.take(i as int)), out@),
    {
        assert(input@.take(i + 1).drop_last() =~= input@.take(i as int));
        match &input[i] {
            Some(v) => {
                out.push(v.clone());
            },
            None => {},
        }
    }
    assert(input@.take(input.len() as int) =~= input@);
    out
}

/// The items of all the lists, one list after the other.
pub open spec fn flattened<T>(lists: Seq<Vec<T>>) -> Seq<T>
    decreases lists.len(),
{
    if lists.len() == 0 {
        Seq::empty()
    } else {
        flattened(lists.drop_last()) + lists.last()@
    }
}

/// Runs the lists of `input` together into one list.
pub fn flatten_deep<T: Clone>(input: &Vec<Vec<T>>) -> (r: Vec<T>)
    ensures
        clones_of(flattened(input@), r@),
{
    let mut out: Vec<T> = Vec::new();
    for i in 0..input.len()
        invariant
            clones_of(flattened(input@.take(i as int)), out@),
    {
        assert(input@.take(i + 1).drop_last() =~= input@.take(i as int));
        let inner = &input[i];
        let ghost before = out@;
        let ghost base = flattened(input@.take(i as int));
        for k in 0..inner.len()
            invariant
                clones_of(base, before),
                clones_of(base + inner@.take(k as int), out@),
        {
            let ghost so_far = out@;
            out.push(inner[k].clone());
            proof {
                let target = base + inner@.take(k + 1);
                assert(target =~= (base + inner@.take(k as int)).push(inner@[k as int]));
                assert forall|i: int| 0 <= i < target.len() implies cloned(
                    #[trigger] target[i],
                    out@[i],
                ) by {
                    if i < so_far.len() {
                        assert(target[i] == (base + inner@.take(k as int))[i]);
                        assert(out@[i] == so_far[i]);
                    }
                }
            }
        }
        assert(inner@.take(inner.len() as int) =~= inner@);
    }
    assert(input@.take(input.len() as int) =~= input@);
    out
}

/// Applies `f` to each item.
pub fn map<T, U>(input: &[T], f: impl Fn(&T) -> U) -> (r: Vec<U>)
    requires
        forall|i: int| 0 <= i < input.len() ==> call_requires(f, (&#[trigger] input[i],)),
    ensures
        r.len() == input.len(),
        forall|i: int| 0 <= i < input.len() ==> call_ensures(f, (&input[i],), #[trigger] r[i]),
{
    let mut out: Vec<U> = Vec::new();
    for i in 0..input.len()
        invariant
            forall|i: int| 0 <= i < input.len() ==> call_requires(f, (&#[trigger] input[i],)),
            out.len() == i,
            forall|k: int| 0 <= k < i ==> call_ensures(f, (&input[k],), #[trigger] out[k]),
    {
        out.push(f(&input[i]));
    }
    out
}

/// Whether `results` holds, for each item, a result that `f` can give for it.
pub open spec fn results_of<T, U, F: Fn(&T) -> U>(f: F, items: Seq<T>, results: Seq<U>) -> bool {
    &&& results.len() == items.len()
    &&& forall|i: int| 0 <= i < items.len() ==> call_ensures(f, (&#[trigger] items[i],), results[i])
}

/// The items whose answer is yes, in order.
pub open spec fn kept<T>(items: Seq<T>, answers: Seq<bool>) -> Seq<T>
    decreases items.len(),
{
    if items.len() == 0 || answers.len() != items.len() {
        Seq::empty()
    } else if answers.last() {
        kept(items.drop_last(), answers.drop_last()).push(items.last())
    } else {
        kept(items.drop_last(), answers.drop_last())
    }
}

/// Keeps the items for which `f` says yes. `f` is asked once for each item,
/// in order.
pub fn filter<T>(input: &[T], f: impl Fn(&T) -> bool) -> (r: Vec<&T>)
    requires
        forall|i: int| 0 <= i < input.len() ==> call_requires(f, (&#[trigger] input[i],)),
    ensures
        exists|answers: Seq<bool>|
            #![auto]
            results_of(f, input@, answers) && r@.map_values(|x: &T| *x) == kept(input@, answers),
{
    let mut out: Vec<&T> = Vec::new();
    let ghost mut answers: Seq<bool> = Seq::empty();
    assert(out@.map_values(|x: &T| *x) =~= Seq::<T>::empty());
    for i in 0..input.len()
        invariant
            forall|i: int| 0 <= i < input.len() ==> call_requires(f, (&#[trigger] input[i],)),
            results_of(f, input@.take(i as int), answers),
            out@.map_values(|x: &T| *x) == kept(input@.take(i as int), answers),
    {
        let yes = f(&input[i]);
        let ghost before = out@.map_values(|x: &T| *x);
        if yes {
            out.push(&input[i]);
            assert(out@.map_values(|x: &T| *x) =~= before.push(input@[i as int]));
        }
        proof {
            let next = answers.push(yes);
            assert(input@.take(i + 1).drop_last() =~= input@.take(i as int));
            assert(next.drop_last() =~= answers);
            answers = next;
        }
    }
    assert(input@.take(input.len() as int) =~= input@);
    out
}

/// The first item for which `f` says yes. `f` is asked for the items in
/// order, and for none after that one.
pub fn find<T>(input: &[T], f: impl Fn(&T) -> bool) -> (r: Option<&T>)
    requires
        forall|i: int| 0 <= i < input.len() ==> call_requires(f, (&#[trigger] input[i],)),
    ensures
        match r {
            Some(x) => exists|i: int|
                #![auto]
                0 <= i < input.len() && *x == input[i] && call_ensures(f, (&input[i],), true)
                    && forall|k: int| 0 <= k < i ==> call_ensures(f, (&#[trigger] input[k],), false),
            None => forall|k: int|
                0 <= k < input.len() ==> call_ensures(f, (&#[trigger] input[k],), false),
        },
{
    for i in 0..input.len()
        invariant
            forall|i: int| 0 <= i < input.len() ==> call_requires(f, (&#[trigger] input[i],)),
            forall|k: int| 0 <= k < i ==> call_ensures(f, (&#[trigger] input[k],), false),
    {
        if f(&input[i]) {
            return Some(&input[i]);
        }
    }
    None
}

/// Whether `states` can be the values that folding `items` with `f` passes
/// through, the starting value first and the result last.
pub open spec fn fold_steps<T, U, F: Fn(U, &T) -> U>(f: F, items: Seq<T>, states: Seq<U>) -> bool {
    &&& states.len() == items.len() + 1
    &&& forall|k: int|
        0 <= k < items.len() ==> call_ensures(f, (states[k], &#[trigger] items[k]), states[k + 1])
}

/// Whether `f` can be called at each step of folding `items` into `initial`.
pub open spec fn foldable<T, U, F: Fn(U, &T) -> U>(f: F, items: Seq<T>, initial: U) -> bool {
    forall|k: int, states: Seq<U>|
        0 <= k < items.len() && #[trigger] fold_steps(f, items.take(k), states) && states[0]
            == initial ==> call_requires(f, (states[k], &items[k]))
}

/// Folds the items into `initial` with `f`, from the left.
pub fn reduce<T, U>(input: &[T], f: impl Fn(U, &T) -> U, initial: U) -> (r: U)
    requires
        foldable(f, input@, initial),
    ensures
        exists|states: Seq<U>|
            #![auto]
            fold_steps(f, input@, states) && states[0] == initial && states.last() == r,
{
    let ghost mut states: Seq<U> = seq![initial];
    let mut acc = initial;
    assert(input@.take(0) =~= Seq::<T>::empty());
    for i in 0..input.len()
        invariant
            foldable(f, input@, initial),
            fold_steps(f, input@.take(i as int), states),
            states[0] == initial,
            states.last() == acc,
    {
        let ghost before = states;
        acc = f(acc, &input[i]);
        proof {
            states = before.push(acc);
            let now = input@.take(i + 1);
            assert forall|k: int| 0 <= k < now.len() implies call_ensures(
                f,
                (states[k], &#[trigger] now[k]),
                states[k + 1],
            ) by {
                if k < i {
                    assert(input@.take(i as int)[k] == now[k]);
                }
            }
        }
    }
    assert(input@.take(input.len() as int) =~= input@);
    acc
}

/// Pairs the items of `a` and `b` by position, as far as the shorter goes.
pub fn zip<T, U>(a: &[T], b: &[U]) -> (r: Vec<(T, U)>) where T: Clone, U: Clone
    ensures
        r.len() == if a.len() <= b.len() {
            a.len()
        } else {
            b.len()
        },
        forall|i: int|
            0 <= i < r.len() ==> cloned(a[i], (#[trigger] r[i]).0) && cloned(b[i], r[i].1),
{
    let n = if a.len() <= b.len() {
        a.len()
    } else {
        b.len()
    };
    let mut out: Vec<(T, U)> = Vec::new();
    for i in 0..n
        invariant
            n <= a.len(),
            n <= b.len(),
            out.len() == i,
            forall|k: int| 0 <= k < i ==> cloned(a[k], (#[trigger] out[k]).0) && cloned(b[k], out[k].1),
    {
        out.push((a[i].clone(), b[i].clone()));
    }
    out
}

/// Whether `x` equals one of `items`.
pub open spec fn occurs<T: PartialEq>(items: Seq<T>, x: T) -> bool {
    exists|j: int| 0 <= j < items.len() && (#[trigger] items[j]).eq_spec(&x)
}

/// Whether `x` is a clone of one of `items`.
pub open spec fn cloned_from<T: Clone>(items: Seq<T>, x: T) -> bool {
    exists|k: int| 0 <= k < items.len() && cloned(#[trigger] items[k], x)
}

/// Whether `copy` is no longer than `items` and each item of it is a clone
/// of one of `items`.
pub open spec fn clones_of_some<T: Clone>(items: Seq<T>, copy: Seq<T>) -> bool {
    &&& copy.len() <= items.len()
    &&& forall|j: int| 0 <= j < copy.len() ==> cloned_from(items, #[trigger] copy[j])
}

/// The items that equal none before them, in order.
pub open spec fn firsts<T: PartialEq>(items: Seq<T>) -> Seq<T>
    decreases items.len(),
{
    if items.len() == 0 {
        Seq::empty()
    } else if occurs(items.drop_last(), items.last()) {
        firsts(items.drop_last())
    } else {
        firsts(items.drop_last()).push(items.last())
    }
}

/// The items of `a` that equal some item of `b`, in order.
pub open spec fn shared<T: PartialEq>(a: Seq<T>, b: Seq<T>) -> Seq<T>
    decreases a.len(),
{
    if a.len() == 0 {
        Seq::empty()
    } else if occurs(b, a.last()) {
        shared(a.drop_last(), b).push(a.last())
    } else {
        shared(a.drop_last(), b)
    }
}

/// What the references point to.
pub open spec fn targets<T>(refs: Seq<&T>) -> Seq<T> {
    refs.map_values(|x: &T| *x)
}

/// Tells whether `x` equals one of the first `n` of `items`.
fn among<T: PartialEq>(items: &Vec<&T>, n: usize, x: &T) -> (r: bool)
    requires
        n <= items.len(),
    ensures
        T::obeys_eq_spec() ==> r == occurs(targets(items@).take(n as int), *x),
{
    for j in 0..n
        invariant
            n <= items.len(),
            T::obeys_eq_spec() ==> forall|k: int|
                0 <= k < j ==> !(#[trigger] targets(items@)[k]).eq_spec(x),
    {
        if *items[j] == *x {
            assert(targets(items@).take(n as int)[j as int].eq_spec(x) || !T::obeys_eq_spec());
            return true;
        }
    }
    proof {
        if T::obeys_eq_spec() {
            assert forall|k: int| 0 <= k < n implies !(#[trigger] targets(items@).take(n as int)[k]).eq_spec(
                x,
            ) by {
                assert(targets(items@).take(n as int)[k] == targets(items@)[k]);
            }
        }
    }
    false
}

/// Clones of the items that equal none before them.
fn distinct<T: Clone + PartialEq>(items: &Vec<&T>) -> (r: Vec<T>)
    ensures
        T::obeys_eq_spec() ==> clones_of(firsts(targets(items@)), r@),
        clones_of_some(targets(items@), r@),
{
    let mut out: Vec<T> = Vec::new();
    for i in 0..items.len()
        invariant
            T::obeys_eq_spec() ==> clones_of(firsts(targets(items@).take(i as int)), out@),
            out.len() <= i,
            forall|j: int| 0 <= j < out.len() ==> cloned_from(targets(items@), #[trigger] out@[j]),
    {
        let seen = among(items, i, items[i]);
        proof {
            let now = targets(items@).take(i + 1);
            assert(now.drop_last() =~= targets(items@).take(i as int));
            assert(now.last() == *items@[i as int]);
        }
        if !seen {
            let ghost so_far = out@;
            out.push(items[i].clone());
            proof {
                assert(cloned(targets(items@)[i as int], out@[out.len() - 1]));
                assert forall|j: int| 0 <= j < out.len() implies cloned_from(
                    targets(items@),
                    #[trigger] out@[j],
                ) by {
                    if j < so_far.len() {
                        assert(out@[j] == so_far[j]);
                    }
                }
            }
        }
    }
    assert(targets(items@).take(items.len() as int) =~= targets(items@));
    out
}

/// Keeps the first of each run of equal items, in the order in which they
/// first come.
pub fn unique<T: Clone + Eq + Hash>(input: &[T]) -> (r: Vec<T>)
    ensures
        T::obeys_eq_spec() ==> clones_of(firsts(input@), r@),
        clones_of_some(input@, r@),
{
    let mut refs: Vec<&T> = Vec::new();
    for i in 0..input.len()
        invariant
            targets(refs@) == input@.take(i as int),
    {
        let ghost before = targets(refs@);
        refs.push(&input[i]);
        assert(targets(refs@) =~= before.push(input@[i as int]));
        assert(input@.take(i + 1) =~= before.push(input@[i as int]));
    }
    assert(input@.take(input.len() as int) =~= input@);
    distinct(&refs)
}

/// The items of `a` that also occur in `b`, each once, in the order in which
/// they first come in `a`.
pub fn intersection<T: Eq>(a: &[T], b: &[T]) -> (r: Vec<T>) where T: Clone
    ensures
        T::obeys_eq_spec() ==> clones_of(firsts(shared(a@, b@)), r@),
        clones_of_some(a@, r@),
{
    let mut others: Vec<&T> = Vec::new();
    for i in 0..b.len()
        invariant
            targets(others@) == b@.take(i as int),
    {
        let ghost before = targets(others@);
        others.push(&b[i]);
        assert(targets(others@) =~= before.push(b@[i as int]));
        assert(b@.take(i + 1) =~= before.push(b@[i as int]));
    }
    assert(b@.take(b.len() as int) =~= b@);
    let mut both: Vec<&T> = Vec::new();
    for i in 0..a.len()
        invariant
            targets(others@) == b@,
            T::obeys_eq_spec() ==> targets(both@) == shared(a@.take(i as int), b@),
            both.len() <= i,
            forall|j: int| 0 <= j < both.len() ==> a@.contains(#[trigger] targets(both@)[j]),
    {
        let ghost before = targets(both@);
        assert(a@.take(i + 1).drop_last() =~= a@.take(i as int));
        assert(targets(others@).take(others.len() as int) =~= targets(others@));
        if among(&others, others.len(), &a[i]) {
            both.push(&a[i]);
            assert(targets(both@) =~= before.push(a@[i as int]));
            assert forall|j: int| 0 <= j < both.len() implies a@.contains(
                #[trigger] targets(both@)[j],
            ) by {
                if j < before.len() {
                    assert(targets(both@)[j] == before[j]);
                } else {
                    assert(a@[i as int] == targets(both@)[j]);
                }
            }
        }
    }
    assert(a@.take(a.len() as int) =~= a@);
    let out = distinct(&both);
    proof {
        assert forall|j: int| 0 <= j < out.len() implies cloned_from(a@, #[trigger] out@[j]) by {
            assert(cloned_from(targets(both@), out@[j]));
            let m = choose|m: int|
                0 <= m < both.len() && cloned(#[trigger] targets(both@)[m], out@[j]);
            assert(a@.contains(targets(both@)[m]));
            let k = choose|k: int| 0 <= k < a.len() && a@[k] == targets(both@)[m];
            assert(cloned(a@[k], out@[j]));
        }
    }
    out
}

/// The items whose key is `key`, in order.
pub open spec fn members<T, K>(items: Seq<T>, keys: Seq<K>, key: K) -> Seq<T>
    decreases items.len(),
{
    if items.len() == 0 || keys.len() != items.len() {
        Seq::empty()
    } else if keys.last() == key {
        members(items.drop_last(), keys.drop_last(), key).push(items.last())
    } else {
        members(items.drop_last(), keys.drop_last(), key)
    }
}

/// Whether `groups` holds, under each of `keys` and under nothing else, the
/// items with that key, in order.
pub open spec fn grouped<T, K>(groups: Map<K, Vec<&T>>, items: Seq<T>, keys: Seq<K>) -> bool {
    &&& forall|key: K| #[trigger] groups.contains_key(key) <==> keys.contains(key)
    &&& forall|key: K| #[trigger]
        groups.contains_key(key) ==> targets(groups[key]@) == members(items, keys, key)
}

/// Gathers the items under the key that `f` gives for each; within a group
/// the items keep their order. `f` is asked once for each item, in order.
pub fn group_by<T, K>(input: &[T], f: impl Fn(&T) -> K) -> (r: HashMap<K, Vec<&T>>) where
    K: Eq + Hash,

    requires
        forall|i: int| 0 <= i < input.len() ==> call_requires(f, (&#[trigger] input[i],)),
    ensures
        obeys_key_model::<K>() ==> exists|keys: Seq<K>|
            #![auto]
            results_of(f, input@, keys) && grouped(r@, input@, keys),
{
    let mut groups: HashMap<K, Vec<&T>> = HashMap::new();
    let ghost mut keys: Seq<K> = Seq::empty();
    for i in 0..input.len()
        invariant
            forall|i: int| 0 <= i < input.len() ==> call_requires(f, (&#[trigger] input[i],)),
            results_of(f, input@.take(i as int), keys),
            obeys_key_model::<K>() ==> grouped(groups@, input@.take(i as int), keys),
    {
        let key = f(&input[i]);
        let ghost k = key;
        let ghost before = groups@;
        let ghost old_keys = keys;
        let mut group: Vec<&T> = match groups.remove(&key) {
            Some(found) => found,
            None => Vec::new(),
        };
        let ghost was = targets(group@);
        group.push(&input[i]);
        assert(targets(group@) =~= was.push(input@[i as int]));
        groups.insert(key, group);
        proof {
            let now = input@.take(i + 1);
            let past = input@.take(i as int);
            keys = old_keys.push(k);
            assert(now.drop_last() =~= past);
            assert(keys.drop_last() =~= old_keys);
            assert forall|j: int| 0 <= j < now.len() implies call_ensures(
                f,
                (&#[trigger] now[j],),
                keys[j],
            ) by {
                if j < i {
                    assert(past[j] == now[j]);
                }
            }
            if obeys_key_model::<K>() {
                assert(was =~= members(past, old_keys, k)) by {
                    if !before.contains_key(k) {
                        lemma_members_absent(past, old_keys, k);
                    }
                }
                assert forall|key: K| #[trigger] groups@.contains_key(key) <==> keys.contains(
                    key,
                ) by {
                    if key == k {
                        assert(keys[old_keys.len() as int] == k);
                    } else {
                        if old_keys.contains(key) {
                            let j = choose|j: int| 0 <= j < old_keys.len() && old_keys[j] == key;
                            assert(keys[j] == key);
                        }
                        if keys.contains(key) {
                            let j = choose|j: int| 0 <= j < keys.len() && keys[j] == key;
                            assert(old_keys[j] == key);
                        }
                    }
                }
            }
        }
    }
    assert(input@.take(input.len() as int) =~= input@);
    groups
}

/// A key that no item has gathers nothing.
pub proof fn lemma_members_absent<T, K>(items: Seq<T>, keys: Seq<K>, key: K)
    requires
        !keys.contains(key),
    ensures
        members(items, keys, key) == Seq::<T>::empty(),
    decreases items.len(),
{
    if items.len() > 0 && keys.len() == items.len() {
        assert(keys[keys.len() - 1] != key);
        assert forall|j: int| 0 <= j < keys.drop_last().len() implies keys.drop_last()[j] != key by {
            assert(keys[j] != key);
        }
        lemma_members_absent(items.drop_last(), keys.drop_last(), key);
    }
}

/// Whether `order` names each place below `n` once.
pub open spec fn rearranges(order: Seq<int>, n: int) -> bool {
    &&& order.len() == n
    &&& forall|i: int| 0 <= i < order.len() ==> 0 <= #[trigger] order[i] < n
    &&& forall|i: int, j: int| 0 <= i < j < order.len() ==> #[trigger] order[i] != #[trigger] order[j]
}

/// Whether the places in `order` go up by key, and by place where the keys
/// are level.
pub open spec fn sorted_stably<U: PartialOrd>(order: Seq<int>, keys: Seq<U>) -> bool {
    forall|i: int, j: int|
        0 <= i < j < order.len() ==> {
            &&& !greater(keys[#[trigger] order[i]], keys[#[trigger] order[j]])
            &&& !greater(keys[order[j]], keys[order[i]]) ==> order[i] < order[j]
        }
}

/// Whether `sorted` holds the items in the order `order`, which goes up by
/// key, and by place where the keys are level, if the keys are ordered as
/// numbers are.
pub open spec fn sorts<T, U: PartialOrd>(
    items: Seq<T>,
    sorted: Seq<T>,
    keys: Seq<U>,
    order: Seq<int>,
) -> bool {
    &&& rearranges(order, items.len() as int)
    &&& sorted.len() == items.len()
    &&& forall|i: int| 0 <= i < sorted.len() ==> #[trigger] sorted[i] == items[order[i]]
    &&& ordered::<U>() && orders_weakly(keys) ==> sorted_stably(order, keys)
}

/// What `f` gives for each item, asked once for each, in order.
fn keys_for<T, U>(input: &[T], f: impl Fn(&T) -> U) -> (r: Vec<U>)
    requires
        forall|i: int| 0 <= i < input.len() ==> call_requires(f, (&#[trigger] input[i],)),
    ensures
        results_of(f, input@, r@),
{
    map(input, f)
}

/// The items in the order of the keys that `f` gives for them; items with
/// level keys keep their order. `f` is asked once for each item, in order.
pub fn sort_by<T, U>(input: &[T], f: impl Fn(&T) -> U) -> (r: Vec<&T>) where U: Ord
    requires
        forall|i: int| 0 <= i < input.len() ==> call_requires(f, (&#[trigger] input[i],)),
    ensures
        exists|keys: Seq<U>, order: Seq<int>|
            results_of(f, input@, keys) && #[trigger] sorts(input@, targets(r@), keys, order),
{
    let keys = keys_for(input, f);
    let n = input.len();
    let mut order: Vec<usize> = Vec::new();
    let ghost law = ordered::<U>() && orders_weakly(keys@);
    for i in 0..n
        invariant
            n == input.len(),
            keys.len() == n,
            law == (ordered::<U>() && orders_weakly(keys@)),
            order.len() == i,
            forall|a: int| 0 <= a < order.len() ==> 0 <= #[trigger] order[a] < i,
            forall|a: int, b: int|
                0 <= a < b < order.len() ==> #[trigger] order[a] != #[trigger] order[b],
            law ==> forall|a: int, b: int|
                0 <= a < b < order.len() ==> {
                    &&& !greater(keys@[#[trigger] order[a] as int], keys@[#[trigger] order[b] as int])
                    &&& !greater(keys@[order[b] as int], keys@[order[a] as int]) ==> order[a]
                        < order[b]
                },
    {
        let mut at = order.len();
        while at > 0 && keys[order[at - 1]] > keys[i]
            invariant
                at <= order.len(),
                order.len() == i,
                i < n,
                keys.len() == n,
                forall|a: int| 0 <= a < order.len() ==> 0 <= #[trigger] order[a] < i,
                ordered::<U>() ==> forall|b: int|
                    at <= b < order.len() ==> greater(keys@[#[trigger] order[b] as int], keys@[i as int]),
            decreases at,
        {
            at -= 1;
        }
        let ghost before = order@;
        let ghost stopped = at > 0 && !greater(keys@[order[at - 1] as int], keys@[i as int]);
        assert(ordered::<U>() && at > 0 ==> stopped);
        order.insert(at, i);
        proof {
            let after = order@;
            assert forall|a: int| 0 <= a < after.len() implies 0 <= #[trigger] after[a] < i + 1 by {
                if a < at {
                    assert(after[a] == before[a]);
                } else if a > at {
                    assert(after[a] == before[a - 1]);
                }
            }
            assert forall|a: int, b: int| 0 <= a < b < after.len() implies #[trigger] after[a]
                != #[trigger] after[b] by {
                let x = if a < at {
                    a
                } else {
                    a - 1
                };
                let y = if b < at {
                    b
                } else {
                    b - 1
                };
                if a != at {
                    assert(after[a] == before[x]);
                }
                if b != at {
                    assert(after[b] == before[y]);
                }
            }
            if law {
                assert forall|a: int, b: int| 0 <= a < b < after.len() implies {
                    &&& !greater(keys@[#[trigger] after[a] as int], keys@[#[trigger] after[b] as int])
                    &&& !greater(keys@[after[b] as int], keys@[after[a] as int]) ==> after[a]
                        < after[b]
                } by {
                    let x = if a < at {
                        a
                    } else {
                        a - 1
                    };
                    let y = if b < at {
                        b
                    } else {
                        b - 1
                    };
                    if a != at {
                        assert(after[a] == before[x]);
                    }
                    if b != at {
                        assert(after[b] == before[y]);
                    }
                    if b == at {
                        // an earlier item against the one just placed
                        if a < at - 1 {
                            assert(!greater(
                                keys@[before[a] as int],
                                keys@[before[at - 1] as int],
                            ));
                        }
                        assert(!greater(keys@[before[a] as int], keys@[i as int]));
                    } else if a == at {
                        // the one just placed against a later item
                        assert(greater(keys@[before[y] as int], keys@[i as int]));
                    }
                }
            }
        }
    }
    let mut out: Vec<&T> = Vec::new();
    for i in 0..n
        invariant
            n == input.len(),
            order.len() == n,
            forall|a: int| 0 <= a < order.len() ==> 0 <= #[trigger] order[a] < n,
            out.len() == i,
            forall|a: int| 0 <= a < i ==> *out[a] == input[order[a] as int],
    {
        out.push(&input[order[i]]);
    }
    proof {
        let places = order@.map_values(|p: usize| p as int);
        assert(rearranges(places, n as int));
        assert(ordered::<U>() && orders_weakly(keys@) ==> sorted_stably(places, keys@));
        assert(forall|i: int| 0 <= i < out.len() ==> *out[i] == input[places[i]]);
        assert(sorts(input@, targets(out@), keys@, places));
    }
    out
}

} // verus!

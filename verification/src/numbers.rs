//! Sums, and the greatest and the least of a list.

use crate::arrays::results_of;
use std::cmp::Ordering;
use vstd::prelude::*;
use vstd::std_specs::cmp::PartialOrdSpec;

verus! {

/// A number that sums can be made of: an integer of one of the machine's
/// widths.
pub trait Summable: Copy {
    /// The integer that the number stands for.
    spec fn amount(self) -> int;

    /// Whether the type can hold `total`.
    spec fn fits(total: int) -> bool;

    /// The number that stands for zero.
    fn nothing() -> (r: Self)
        ensures
            r.amount() == 0,
    ;

    /// The sum of two numbers.
    fn plus(self, other: Self) -> (r: Self)
        requires
            Self::fits(self.amount() + other.amount()),
        ensures
            r.amount() == self.amount() + other.amount(),
    ;
}

impl Summable for i32 {
    open spec fn amount(self) -> int {
        self as int
    }

    open spec fn fits(total: int) -> bool {
        i32::MIN <= total <= i32::MAX
    }

    fn nothing() -> (r: Self) {
        0
    }

    fn plus(self, other: Self) -> (r: Self) {
        self + other
    }
}

impl Summable for i64 {
    open spec fn amount(self) -> int {
        self as int
    }

    open spec fn fits(total: int) -> bool {
        i64::MIN <= total <= i64::MAX
    }

    fn nothing() -> (r: Self) {
        0
    }

    fn plus(self, other: Self) -> (r: Self) {
        self + other
    }
}

impl Summable for u32 {
    open spec fn amount(self) -> int {
        self as int
    }

    open spec fn fits(total: int) -> bool {
        0 <= total <= u32::MAX
    }

    fn nothing() -> (r: Self) {
        0
    }

    fn plus(self, other: Self) -> (r: Self) {
        self + other
    }
}

impl Summable for u64 {
    open spec fn amount(self) -> int {
        self as int
    }

    open spec fn fits(total: int) -> bool {
        0 <= total <= u64::MAX
    }

    fn nothing() -> (r: Self) {
        0
    }

    fn plus(self, other: Self) -> (r: Self) {
        self + other
    }
}

impl Summable for usize {
    open spec fn amount(self) -> int {
        self as int
    }

    open spec fn fits(total: int) -> bool {
        0 <= total <= usize::MAX
    }

    fn nothing() -> (r: Self) {
        0
    }

    fn plus(self, other: Self) -> (r: Self) {
        self + other
    }
}

/// The sum of the numbers.
pub open spec fn total<T: Summable>(items: Seq<T>) -> int
    decreases items.len(),
{
    if items.len() == 0 {
        0
    } else {
        total(items.drop_last()) + items.last().amount()
    }
}

/// Whether the type can hold the sum of the first item, of the first two,
/// and so on up to the sum of all.
pub open spec fn sums_fit<T: Summable>(items: Seq<T>) -> bool {
    forall|k: int| 0 <= k <= items.len() ==> T::fits(#[trigger] total(items.take(k)))
}

/// Adds the numbers up.
pub fn sum_<T: Summable>(iter: &[T]) -> (r: T)
    requires
        sums_fit(iter@),
    ensures
        r.amount() == total(iter@),
{
    let mut acc = T::nothing();
    assert(iter@.take(0) =~= Seq::<T>::empty());
    for i in 0..iter.len()
        invariant
            sums_fit(iter@),
            acc.amount() == total(iter@.take(i as int)),
    {
        proof {
            assert(iter@.take(i + 1).drop_last() =~= iter@.take(i as int));
            assert(T::fits(total(iter@.take(i + 1))));
        }
        acc = acc.plus(iter[i]);
    }
    assert(iter@.take(iter.len() as int) =~= iter@);
    acc
}

/// Adds up what `f` gives for each item. `f` is asked once for each item, in
/// order.
pub fn sum_by_<T, U: Summable>(iter: &[T], f: impl Fn(&T) -> U) -> (r: U)
    requires
        forall|i: int| 0 <= i < iter.len() ==> call_requires(f, (&#[trigger] iter[i],)),
        forall|k: int, values: Seq<U>|
            0 <= k <= iter.len() && #[trigger] results_of(f, iter@.take(k), values) ==> U::fits(
                total(values),
            ),
    ensures
        exists|values: Seq<U>| #[trigger] results_of(f, iter@, values) && r.amount() == total(values),
{
    let mut acc = U::nothing();
    let ghost mut values: Seq<U> = Seq::empty();
    for i in 0..iter.len()
        invariant
            forall|i: int| 0 <= i < iter.len() ==> call_requires(f, (&#[trigger] iter[i],)),
            forall|k: int, values: Seq<U>|
                0 <= k <= iter.len() && #[trigger] results_of(f, iter@.take(k), values) ==> U::fits(
                    total(values),
                ),
            results_of(f, iter@.take(i as int), values),
            acc.amount() == total(values),
    {
        let v = f(&iter[i]);
        proof {
            let next = values.push(v);
            let now = iter@.take(i + 1);
            assert(next.drop_last() =~= values);
            assert forall|k: int| 0 <= k < now.len() implies call_ensures(
                f,
                (&#[trigger] now[k],),
                next[k],
            ) by {
                if k < i {
                    assert(iter@.take(i as int)[k] == now[k]);
                }
            }
            assert(results_of(f, now, next));
            values = next;
        }
        acc = acc.plus(v);
    }
    assert(iter@.take(iter.len() as int) =~= iter@);
    acc
}

/// Whether comparisons of `T` go by its order.
pub open spec fn ordered<T: PartialOrd>() -> bool {
    T::obeys_partial_cmp_spec()
}

/// Whether `a` comes after `b` in the order.
pub open spec fn greater<T: PartialOrd>(a: T, b: T) -> bool {
    a.partial_cmp_spec(&b) == Some(Ordering::Greater)
}

/// Whether the keys are ordered as numbers are: of two keys not both come
/// after the other, and a key that comes after neither of two others does
/// not part them.
pub open spec fn orders_weakly<U: PartialOrd>(keys: Seq<U>) -> bool {
    &&& forall|a: int, b: int|
        0 <= a < keys.len() && 0 <= b < keys.len() && #[trigger] greater(keys[a], keys[b])
            ==> !greater(keys[b], keys[a])
    &&& forall|a: int, b: int, c: int|
        0 <= a < keys.len() && 0 <= b < keys.len() && 0 <= c < keys.len() && !#[trigger] greater(
            keys[a],
            keys[b],
        ) && !#[trigger] greater(keys[b], keys[c]) ==> !greater(keys[a], keys[c])
}

/// The place of the greatest item; of the last one, where several are
/// greatest. Two items that the order does not compare count as equal.
pub open spec fn greatest_at<T: PartialOrd>(items: Seq<T>) -> int
    decreases items.len(),
{
    if items.len() <= 1 {
        0
    } else if greater(items[greatest_at(items.drop_last())], items.last()) {
        greatest_at(items.drop_last())
    } else {
        items.len() - 1
    }
}

/// The place of the least item; of the first one, where several are least.
/// Two items that the order does not compare count as equal.
pub open spec fn least_at<T: PartialOrd>(items: Seq<T>) -> int
    decreases items.len(),
{
    if items.len() <= 1 {
        0
    } else if greater(items[least_at(items.drop_last())], items.last()) {
        items.len() - 1
    } else {
        least_at(items.drop_last())
    }
}

/// The places of the greatest and of the least item lie within the items.
pub proof fn lemma_places_in_range<T: PartialOrd>(items: Seq<T>)
    requires
        items.len() > 0,
    ensures
        0 <= greatest_at(items) < items.len(),
        0 <= least_at(items) < items.len(),
    decreases items.len(),
{
    if items.len() > 1 {
        lemma_places_in_range(items.drop_last());
    }
}

/// The place that `max_` and `max_by_` choose among `keys`.
fn greatest_place<U: Copy + PartialOrd>(keys: &Vec<U>) -> (r: usize)
    requires
        keys.len() > 0,
    ensures
        r < keys.len(),
        ordered::<U>() ==> r == greatest_at(keys@),
{
    let mut best: usize = 0;
    assert(keys@.take(1).len() == 1);
    for i in 1..keys.len()
        invariant
            best < i,
            ordered::<U>() ==> best == greatest_at(keys@.take(i as int)),
    {
        proof {
            let now = keys@.take(i + 1);
            assert(now.drop_last() =~= keys@.take(i as int));
            assert(now[best as int] == keys@[best as int]);
            assert(keys@.take(i as int)[best as int] == keys@[best as int]);
        }
        if !(keys[best] > keys[i]) {
            best = i;
        }
    }
    assert(keys@.take(keys.len() as int) =~= keys@);
    best
}

/// The place that `min_` and `min_by_` choose among `keys`.
fn least_place<U: Copy + PartialOrd>(keys: &Vec<U>) -> (r: usize)
    requires
        keys.len() > 0,
    ensures
        r < keys.len(),
        ordered::<U>() ==> r == least_at(keys@),
{
    let mut best: usize = 0;
    assert(keys@.take(1).len() == 1);
    for i in 1..keys.len()
        invariant
            best < i,
            ordered::<U>() ==> best == least_at(keys@.take(i as int)),
    {
        proof {
            let now = keys@.take(i + 1);
            assert(now.drop_last() =~= keys@.take(i as int));
            assert(now[best as int] == keys@[best as int]);
            assert(keys@.take(i as int)[best as int] == keys@[best as int]);
        }
        if keys[best] > keys[i] {
            best = i;
        }
    }
    assert(keys@.take(keys.len() as int) =~= keys@);
    best
}

/// The items of a slice, copied.
fn copies<T: Copy>(slice: &[T]) -> (r: Vec<T>)
    ensures
        r@ == slice@,
{
    let mut out: Vec<T> = Vec::new();
    for i in 0..slice.len()
        invariant
            out@ == slice@.take(i as int),
    {
        out.push(slice[i]);
        assert(slice@.take(i + 1) =~= slice@.take(i as int).push(slice@[i as int]));
    }
    assert(slice@.take(slice.len() as int) =~= slice@);
    out
}

/// What `f` gives for each item, asked once for each, in order.
fn keys_of<T, U>(slice: &[T], f: impl Fn(&T) -> U) -> (r: Vec<U>)
    requires
        forall|i: int| 0 <= i < slice.len() ==> call_requires(f, (&#[trigger] slice[i],)),
    ensures
        results_of(f, slice@, r@),
{
    let mut out: Vec<U> = Vec::new();
    for i in 0..slice.len()
        invariant
            forall|i: int| 0 <= i < slice.len() ==> call_requires(f, (&#[trigger] slice[i],)),
            out.len() == i,
            forall|k: int| 0 <= k < i ==> call_ensures(f, (&#[trigger] slice[k],), out[k]),
    {
        out.push(f(&slice[i]));
    }
    out
}

/// The greatest of the items, and the last of them where several are
/// greatest; nothing for an empty slice.
pub fn max_<T>(slice: &[T]) -> (r: Option<T>) where T: PartialOrd + Copy
    ensures
        r is Some <==> slice.len() > 0,
        r matches Some(x) ==> slice@.contains(x),
        ordered::<T>() && slice.len() > 0 ==> r == Some(slice[greatest_at(slice@)]),
{
    if slice.len() == 0 {
        return None;
    }
    let items = copies(slice);
    let at = greatest_place(&items);
    assert(slice@[at as int] == slice[at as int]);
    Some(slice[at])
}

/// The least of the items, and the first of them where several are least;
/// nothing for an empty slice.
pub fn min_<T>(slice: &[T]) -> (r: Option<T>) where T: PartialOrd + Copy
    ensures
        r is Some <==> slice.len() > 0,
        r matches Some(x) ==> slice@.contains(x),
        ordered::<T>() && slice.len() > 0 ==> r == Some(slice[least_at(slice@)]),
{
    if slice.len() == 0 {
        return None;
    }
    let items = copies(slice);
    let at = least_place(&items);
    assert(slice@[at as int] == slice[at as int]);
    Some(slice[at])
}

/// The item for which `f` gives the greatest key, and the last such item
/// where several do; nothing for an empty slice. `f` is asked once for each
/// item, in order.
pub fn max_by_<T, U>(slice: &[T], f: impl Fn(&T) -> U) -> (r: Option<&T>) where U: Copy + PartialOrd
    requires
        forall|i: int| 0 <= i < slice.len() ==> call_requires(f, (&#[trigger] slice[i],)),
    ensures
        r is Some <==> slice.len() > 0,
        r matches Some(x) ==> slice@.contains(*x),
        ordered::<U>() && slice.len() > 0 ==> exists|keys: Seq<U>|
            #[trigger] results_of(f, slice@, keys) && *r.unwrap() == slice[greatest_at(keys)],
{
    if slice.len() == 0 {
        return None;
    }
    let keys = keys_of(slice, f);
    let at = greatest_place(&keys);
    assert(slice@[at as int] == slice[at as int]);
    Some(&slice[at])
}

/// The item for which `f` gives the least key, and the first such item where
/// several do; nothing for an empty slice. `f` is asked once for each item,
/// in order.
pub fn min_by_<T, U>(slice: &[T], f: impl Fn(&T) -> U) -> (r: Option<&T>) where U: Copy + PartialOrd
    requires
        forall|i: int| 0 <= i < slice.len() ==> call_requires(f, (&#[trigger] slice[i],)),
    ensures
        r is Some <==> slice.len() > 0,
        r matches Some(x) ==> slice@.contains(*x),
        ordered::<U>() && slice.len() > 0 ==> exists|keys: Seq<U>|
            #[trigger] results_of(f, slice@, keys) && *r.unwrap() == slice[least_at(keys)],
{
    if slice.len() == 0 {
        return None;
    }
    let keys = keys_of(slice, f);
    let at = least_place(&keys);
    assert(slice@[at as int] == slice[at as int]);
    Some(&slice[at])
}

/// What is ordered as numbers are stays so without its last item.
pub proof fn lemma_orders_weakly_front<U: PartialOrd>(keys: Seq<U>)
    requires
        keys.len() > 0,
        orders_weakly(keys),
    ensures
        orders_weakly(keys.drop_last()),
{
    let front = keys.drop_last();
    assert forall|a: int, b: int|
        0 <= a < front.len() && 0 <= b < front.len() && #[trigger] greater(
            front[a],
            front[b],
        ) implies !greater(front[b], front[a]) by {
        assert(greater(keys[a], keys[b]));
    }
    assert forall|a: int, b: int, c: int|
        0 <= a < front.len() && 0 <= b < front.len() && 0 <= c < front.len() && !#[trigger] greater(
            front[a],
            front[b],
        ) && !#[trigger] greater(front[b], front[c]) implies !greater(front[a], front[c]) by {
        assert(!greater(keys[a], keys[b]));
        assert(!greater(keys[b], keys[c]));
    }
}

/// Among items ordered as numbers are, none comes after the one that
/// `greatest_at` names, and that one comes after every item behind it.
pub proof fn lemma_greatest<T: PartialOrd>(items: Seq<T>)
    requires
        items.len() > 0,
        orders_weakly(items),
    ensures
        0 <= greatest_at(items) < items.len(),
        forall|i: int|
            0 <= i < items.len() ==> !greater(#[trigger] items[i], items[greatest_at(items)]),
        forall|i: int|
            greatest_at(items) < i < items.len() ==> greater(
                items[greatest_at(items)],
                #[trigger] items[i],
            ),
    decreases items.len(),
{
    if items.len() > 1 {
        let front = items.drop_last();
        let last = items.len() - 1;
        lemma_orders_weakly_front(items);
        lemma_greatest(front);
        let best = greatest_at(front);
        assert(front[best] == items[best]);
        assert forall|i: int| 0 <= i < items.len() implies !greater(
            #[trigger] items[i],
            items[greatest_at(items)],
        ) by {
            if i < last {
                assert(front[i] == items[i]);
                assert(!greater(items[i], items[best]));
                if !greater(items[best], items[last]) {
                    assert(!greater(items[i], items[last]));
                }
            } else {
                if greater(items[best], items[last]) {
                    assert(!greater(items[last], items[best]));
                } else {
                    assert(!greater(items[last], items[last])) by {
                        if greater(items[last], items[last]) {
                            assert(!greater(items[last], items[last]));
                        }
                    }
                }
            }
        }
        assert forall|i: int| greatest_at(items) < i < items.len() implies greater(
            items[greatest_at(items)],
            #[trigger] items[i],
        ) by {
            if i < last {
                assert(front[i] == items[i]);
            }
        }
    } else {
        assert(!greater(items[0], items[0])) by {
            if greater(items[0], items[0]) {
                assert(!greater(items[0], items[0]));
            }
        }
    }
}

/// Among items ordered as numbers are, the one that `least_at` names comes
/// after none, and every item before it comes after it.
pub proof fn lemma_least<T: PartialOrd>(items: Seq<T>)
    requires
        items.len() > 0,
        orders_weakly(items),
    ensures
        0 <= least_at(items) < items.len(),
        forall|i: int| 0 <= i < items.len() ==> !greater(items[least_at(items)], #[trigger] items[i]),
        forall|i: int|
            0 <= i < least_at(items) ==> greater(#[trigger] items[i], items[least_at(items)]),
    decreases items.len(),
{
    if items.len() > 1 {
        let front = items.drop_last();
        let last = items.len() - 1;
        lemma_orders_weakly_front(items);
        lemma_least(front);
        let best = least_at(front);
        assert(front[best] == items[best]);
        assert forall|i: int| 0 <= i < items.len() implies !greater(
            items[least_at(items)],
            #[trigger] items[i],
        ) by {
            if i < last {
                assert(front[i] == items[i]);
                assert(!greater(items[best], items[i]));
                if greater(items[best], items[last]) {
                    assert(!greater(items[last], items[best]));
                    assert(!greater(items[last], items[i]));
                }
            } else {
                assert(!greater(items[last], items[last])) by {
                    if greater(items[last], items[last]) {
                        assert(!greater(items[last], items[last]));
                    }
                }
            }
        }
        assert forall|i: int| 0 <= i < least_at(items) implies greater(
            #[trigger] items[i],
            items[least_at(items)],
        ) by {
            assert(front[i] == items[i]);
            if greater(items[best], items[last]) && !greater(items[i], items[last]) {
                if i < best {
                    assert(!greater(items[last], items[best]));
                } else {
                    assert(!greater(items[best], items[i]));
                }
            }
        }
    } else {
        assert(!greater(items[0], items[0])) by {
            if greater(items[0], items[0]) {
                assert(!greater(items[0], items[0]));
            }
        }
    }
}

} // verus!

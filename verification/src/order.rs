//! Stable ordering by pairs of texts.

use vstd::prelude::*;
use crate::text;

verus! {

/// The first pair comes before the second.
pub open spec fn pair_less(a: (Seq<char>, Seq<char>), b: (Seq<char>, Seq<char>)) -> bool {
    text::text_less(a.0, b.0) || (a.0 == b.0 && text::text_less(a.1, b.1))
}

/// Where an item with this key goes among items that are in order: behind all
/// that do not come after it.
pub open spec fn slot(
    order: Seq<int>,
    keys: Seq<(Seq<char>, Seq<char>)>,
    key: (Seq<char>, Seq<char>),
) -> int
    decreases order.len(),
{
    if order.len() == 0 {
        0
    } else if pair_less(key, keys[order.last()]) {
        slot(order.drop_last(), keys, key)
    } else {
        order.len() as int
    }
}

/// The indices of the keys, in the order of the keys. Equal keys keep the order
/// that they have.
pub open spec fn stable_order(keys: Seq<(Seq<char>, Seq<char>)>) -> Seq<int>
    decreases keys.len(),
{
    if keys.len() == 0 {
        Seq::empty()
    } else {
        let rest = stable_order(keys.drop_last());
        rest.insert(slot(rest, keys, keys.last()), keys.len() - 1)
    }
}

/// The items at some indices.
pub open spec fn arranged<T>(items: Seq<T>, order: Seq<int>) -> Seq<T> {
    Seq::new(order.len(), |i: int| items[order[i]])
}

/// The order of pairs is a strict total order.
pub proof fn pair_order_is_total(
    a: (Seq<char>, Seq<char>),
    b: (Seq<char>, Seq<char>),
    c: (Seq<char>, Seq<char>),
)
    ensures
        !pair_less(a, a),
        pair_less(a, b) && pair_less(b, c) ==> pair_less(a, c),
        pair_less(a, b) || a == b || pair_less(b, a),
{
    text::text_order_is_total(a.0, b.0, c.0);
    text::text_order_is_total(a.1, b.1, c.1);
    text::text_order_is_total(a.0, b.0, a.0);
    text::text_order_is_total(a.1, b.1, a.1);
    text::text_order_is_total(b.0, c.0, a.0);
}

/// Indices stand in the order of their keys, and in their own order where the
/// keys are equal.
pub open spec fn in_order(order: Seq<int>, keys: Seq<(Seq<char>, Seq<char>)>) -> bool {
    forall|i: int, j: int|
        0 <= i < j < order.len() ==> pair_less(keys[#[trigger] order[i]], keys[#[trigger] order[j]])
            || (keys[order[i]] == keys[order[j]] && order[i] < order[j])
}

/// `slot` parts the items that come after the key from the others.
proof fn lemma_slot(
    order: Seq<int>,
    keys: Seq<(Seq<char>, Seq<char>)>,
    key: (Seq<char>, Seq<char>),
)
    requires
        in_order(order, keys),
    ensures
        0 <= slot(order, keys, key) <= order.len(),
        forall|i: int|
            0 <= i < slot(order, keys, key) ==> !pair_less(key, keys[#[trigger] order[i]]),
        forall|i: int|
            slot(order, keys, key) <= i < order.len() ==> pair_less(key, keys[#[trigger] order[i]]),
    decreases order.len(),
{
    if order.len() > 0 {
        let last = order.last();
        if pair_less(key, keys[last]) {
            let front = order.drop_last();
            assert(in_order(front, keys)) by {
                assert forall|i: int, j: int| 0 <= i < j < front.len() implies pair_less(
                    keys[#[trigger] front[i]],
                    keys[#[trigger] front[j]],
                ) || (keys[front[i]] == keys[front[j]] && front[i] < front[j]) by {
                    assert(front[i] == order[i] && front[j] == order[j]);
                }
            }
            lemma_slot(front, keys, key);
            assert forall|i: int| 0 <= i < slot(order, keys, key) implies !pair_less(
                key,
                keys[#[trigger] order[i]],
            ) by {
                assert(front[i] == order[i]);
            }
            assert forall|i: int| slot(order, keys, key) <= i < order.len() implies pair_less(
                key,
                keys[#[trigger] order[i]],
            ) by {
                if i < front.len() {
                    assert(front[i] == order[i]);
                }
            }
        } else {
            assert forall|i: int| 0 <= i < order.len() implies !pair_less(
                key,
                keys[#[trigger] order[i]],
            ) by {
                if i < order.len() - 1 {
                    assert(order[order.len() - 1] == last);
                    pair_order_is_total(key, keys[order[i]], keys[last]);
                }
            }
        }
    }
}

/// A stable order holds every index once.
pub proof fn order_is_a_permutation(keys: Seq<(Seq<char>, Seq<char>)>)
    ensures
        stable_order(keys).len() == keys.len(),
        forall|i: int|
            0 <= i < keys.len() ==> 0 <= #[trigger] stable_order(keys)[i] < keys.len(),
        stable_order(keys).no_duplicates(),
        forall|k: int| 0 <= k < keys.len() ==> #[trigger] stable_order(keys).contains(k),
    decreases keys.len(),
{
    if keys.len() > 0 {
        let front = keys.drop_last();
        order_is_a_permutation(front);
        order_is_sorted(front);
        let rest = stable_order(front);
        lemma_same_keys(rest, front, keys);
        lemma_slot(rest, keys, keys.last());
        let at = slot(rest, keys, keys.last());
        let whole = rest.insert(at, keys.len() - 1);
        assert(stable_order(keys) == whole);
        assert forall|i: int| 0 <= i < keys.len() implies 0 <= #[trigger] whole[i] < keys.len() by {
            if i < at {
                assert(whole[i] == rest[i]);
            } else if i > at {
                assert(whole[i] == rest[i - 1]);
            }
        }
        assert forall|i: int, j: int| 0 <= i < j < whole.len() implies whole[i] != whole[j] by {
            let a = if i < at {
                i
            } else {
                i - 1
            };
            let b = if j < at {
                j
            } else {
                j - 1
            };
            if i != at {
                assert(whole[i] == rest[a]);
            }
            if j != at {
                assert(whole[j] == rest[b]);
            }
        }
        assert forall|k: int| 0 <= k < keys.len() implies #[trigger] whole.contains(k) by {
            if k == keys.len() - 1 {
                assert(whole[at] == k);
            } else {
                assert(rest.contains(k));
                let i = choose|i: int| 0 <= i < rest.len() && rest[i] == k;
                if i < at {
                    assert(whole[i] == k);
                } else {
                    assert(whole[i + 1] == k);
                }
            }
        }
    }
}

/// An order by some keys is one by more keys.
proof fn lemma_same_keys(
    order: Seq<int>,
    front: Seq<(Seq<char>, Seq<char>)>,
    keys: Seq<(Seq<char>, Seq<char>)>,
)
    requires
        in_order(order, front),
        front == keys.take(front.len() as int),
        front.len() <= keys.len(),
        forall|i: int| 0 <= i < order.len() ==> 0 <= #[trigger] order[i] < front.len(),
    ensures
        in_order(order, keys),
{
    assert forall|i: int, j: int| 0 <= i < j < order.len() implies pair_less(
        keys[#[trigger] order[i]],
        keys[#[trigger] order[j]],
    ) || (keys[order[i]] == keys[order[j]] && order[i] < order[j]) by {
        assert(front[order[i]] == keys[order[i]]);
        assert(front[order[j]] == keys[order[j]]);
    }
}

/// A stable order is an order, and a stable one.
pub proof fn order_is_sorted(keys: Seq<(Seq<char>, Seq<char>)>)
    ensures
        in_order(stable_order(keys), keys),
    decreases keys.len(),
{
    if keys.len() > 0 {
        let front = keys.drop_last();
        order_is_a_permutation(front);
        order_is_sorted(front);
        let rest = stable_order(front);
        lemma_same_keys(rest, front, keys);
        lemma_slot(rest, keys, keys.last());
        let at = slot(rest, keys, keys.last());
        let whole = rest.insert(at, keys.len() - 1);
        assert(stable_order(keys) == whole);
        assert forall|i: int, j: int| 0 <= i < j < whole.len() implies pair_less(
            keys[#[trigger] whole[i]],
            keys[#[trigger] whole[j]],
        ) || (keys[whole[i]] == keys[whole[j]] && whole[i] < whole[j]) by {
            if i == at {
                assert(whole[j] == rest[j - 1]);
            } else if j == at {
                assert(whole[i] == rest[i]);
                pair_order_is_total(keys[rest[i]], keys.last(), keys.last());
            } else {
                let a = if i < at {
                    i
                } else {
                    i - 1
                };
                let b = if j < at {
                    j
                } else {
                    j - 1
                };
                assert(whole[i] == rest[a]);
                assert(whole[j] == rest[b]);
            }
        }
    }
}

/// Whether the first pair comes before the second.
fn pair_before(a: &(Vec<char>, Vec<char>), b: &(Vec<char>, Vec<char>)) -> (r: bool)
    ensures
        r == pair_less(a.deep_view(), b.deep_view()),
{
    assert(a.deep_view().0 =~= a.0@ && a.deep_view().1 =~= a.1@);
    assert(b.deep_view().0 =~= b.0@ && b.deep_view().1 =~= b.1@);
    text::comes_before(a.0.as_slice(), b.0.as_slice()) || (text::same_chars(
        a.0.as_slice(),
        b.0.as_slice(),
    ) && text::comes_before(a.1.as_slice(), b.1.as_slice()))
}

/// Some indices as numbers.
pub open spec fn indices(order: Seq<usize>) -> Seq<int> {
    Seq::new(order.len(), |i: int| order[i] as int)
}

/// Finds where the key at an index goes.
fn find_slot(order: &Vec<usize>, keys: &Vec<(Vec<char>, Vec<char>)>, key: usize) -> (r: usize)
    requires
        key < keys@.len(),
        in_order(indices(order@), keys.deep_view()),
        forall|i: int| 0 <= i < order@.len() ==> #[trigger] order@[i] < keys@.len(),
    ensures
        r == slot(indices(order@), keys.deep_view(), keys.deep_view()[key as int]),
        r <= order@.len(),
{
    let ghost ints = indices(order@);
    let ghost all = keys.deep_view();
    let ghost at = slot(ints, all, all[key as int]);
    proof {
        lemma_slot(ints, all, all[key as int]);
    }
    let mut low: usize = 0;
    let mut high: usize = order.len();
    while low < high
        invariant
            low <= high <= order@.len(),
            key < keys@.len(),
            ints == indices(order@),
            all == keys.deep_view(),
            at == slot(ints, all, all[key as int]),
            low <= at <= high,
            forall|i: int| 0 <= i < order@.len() ==> #[trigger] order@[i] < keys@.len(),
            forall|i: int| 0 <= i < at ==> !pair_less(all[key as int], all[#[trigger] ints[i]]),
            forall|i: int|
                at <= i < ints.len() ==> pair_less(all[key as int], all[#[trigger] ints[i]]),
        decreases high - low,
    {
        let middle: usize = low + (high - low) / 2;
        let other: usize = order[middle];
        assert(ints[middle as int] == other);
        assert(all[other as int] == keys@[other as int].deep_view());
        assert(all[key as int] == keys@[key as int].deep_view());
        if pair_before(&keys[key], &keys[other]) {
            high = middle;
        } else {
            low = middle + 1;
        }
    }
    low
}

/// The indices of the keys, in the order of the keys.
pub fn sort_order(keys: &Vec<(Vec<char>, Vec<char>)>) -> (r: Vec<usize>)
    ensures
        indices(r@) == stable_order(keys.deep_view()),
        forall|i: int| 0 <= i < r@.len() ==> #[trigger] r@[i] < keys@.len(),
{
    let ghost all = keys.deep_view();
    let mut order: Vec<usize> = Vec::new();
    let mut i: usize = 0;
    assert(all.take(0) =~= Seq::<(Seq<char>, Seq<char>)>::empty());
    assert(indices(order@) =~= Seq::<int>::empty());
    while i < keys.len()
        invariant
            i <= keys@.len(),
            all == keys.deep_view(),
            indices(order@) == stable_order(all.take(i as int)),
            forall|k: int| 0 <= k < order@.len() ==> #[trigger] order@[k] < i,
        decreases keys@.len() - i,
    {
        let ghost front = all.take(i as int);
        let ghost more = all.take(i + 1);
        let ghost before = order@;
        proof {
            assert(more.drop_last() =~= front);
            assert(front =~= more.take(front.len() as int));
            order_is_sorted(front);
            order_is_a_permutation(front);
            lemma_same_keys(indices(before), front, all);
            lemma_same_keys(indices(before), front, more);
            lemma_slot_front(indices(before), more, all, all[i as int]);
        }
        let at: usize = find_slot(&order, keys, i);
        order.insert(at, i);
        assert(indices(order@) =~= indices(before).insert(at as int, i as int));
        i += 1;
    }
    assert(all.take(i as int) =~= all);
    order
}

/// `slot` looks only at the keys of the items that are there.
proof fn lemma_slot_front(
    order: Seq<int>,
    front: Seq<(Seq<char>, Seq<char>)>,
    keys: Seq<(Seq<char>, Seq<char>)>,
    key: (Seq<char>, Seq<char>),
)
    requires
        front.len() <= keys.len(),
        front == keys.take(front.len() as int),
        forall|i: int| 0 <= i < order.len() ==> 0 <= #[trigger] order[i] < front.len(),
    ensures
        slot(order, front, key) == slot(order, keys, key),
    decreases order.len(),
{
    if order.len() > 0 {
        assert(front[order.last()] == keys[order.last()]);
        lemma_slot_front(order.drop_last(), front, keys, key);
    }
}

/// Items that are put in order stay the same items.
pub proof fn arranging_keeps_the_items<T>(items: Seq<T>, keys: Seq<(Seq<char>, Seq<char>)>, x: T)
    requires
        keys.len() == items.len(),
    ensures
        arranged(items, stable_order(keys)).len() == items.len(),
        arranged(items, stable_order(keys)).contains(x) <==> items.contains(x),
{
    let order = stable_order(keys);
    let after = arranged(items, order);
    order_is_a_permutation(keys);
    if items.contains(x) {
        let k = choose|k: int| 0 <= k < items.len() && items[k] == x;
        assert(order.contains(k));
        let i = choose|i: int| 0 <= i < order.len() && order[i] == k;
        assert(after[i] == x);
    }
    if after.contains(x) {
        let i = choose|i: int| 0 <= i < after.len() && after[i] == x;
        assert(items[order[i]] == x);
    }
}

/// Items that differ still do when they are put in order.
pub proof fn arranging_repeats_nothing<T>(items: Seq<T>, keys: Seq<(Seq<char>, Seq<char>)>)
    requires
        keys.len() == items.len(),
        items.no_duplicates(),
    ensures
        arranged(items, stable_order(keys)).no_duplicates(),
{
    let order = stable_order(keys);
    let after = arranged(items, order);
    order_is_a_permutation(keys);
    assert forall|i: int, j: int| 0 <= i < j < after.len() implies after[i] != after[j] by {
        assert(order[i] != order[j]);
        assert(items[order[i]] != items[order[j]]);
    }
}

} // verus!

//! Sorting by an order that need not be total.

use std::cmp::Ordering;
use vstd::prelude::*;
use vstd::seq_lib::*;

verus! {

/// What has an order to be sorted by.
pub trait Ordered: Sized {
    /// How an item stands to another.
    spec fn order(self, other: Self) -> Ordering;

    /// How this item stands to another.
    fn compare(&self, other: &Self) -> (order: Ordering)
        ensures
            order == self.order(*other),
    ;
}

/// Whether the order sorts these items without contradiction: to exchange two of them
/// reverses it, and of three items the first does not come behind the third if it does
/// not come behind the second, nor the second behind the third.
pub open spec fn orderly<T: Ordered>(items: Seq<T>) -> bool {
    &&& forall|a: T, b: T|
        #![trigger a.order(b)]
        items.contains(a) && items.contains(b) ==> (a.order(b) == Ordering::Greater <==> b.order(a)
            == Ordering::Less)
    &&& forall|a: T, b: T, c: T|
        #![trigger a.order(b), b.order(c)]
        items.contains(a) && items.contains(b) && items.contains(c) && a.order(b)
            != Ordering::Greater && b.order(c) != Ordering::Greater ==> a.order(c)
            != Ordering::Greater
}

/// Whether no item comes behind a later one.
pub open spec fn in_order<T: Ordered>(items: Seq<T>) -> bool {
    forall|i: int, j: int|
        0 <= i < j < items.len() ==> (#[trigger] items[i]).order(#[trigger] items[j])
            != Ordering::Greater
}

/// Whether the items that are equal to any one of them are the same in both lists, and
/// stand there in the same order.
pub open spec fn same_among_equals<T: Ordered>(items: Seq<T>, others: Seq<T>) -> bool {
    forall|x: T| #[trigger] items.contains(x) ==> equals(items, x) == equals(others, x)
}

/// Whether a list is what another has become by sorting: it holds the same items, and
/// where the order sorts them without contradiction they are in order, with equal items in
/// the order that they had.
pub open spec fn sorted_from<T: Ordered>(before: Seq<T>, after: Seq<T>) -> bool {
    &&& after.to_multiset() == before.to_multiset()
    &&& orderly(before) ==> in_order(after) && same_among_equals(before, after)
}

/// The items that are equal to a given one, in their order.
pub open spec fn equals<T: Ordered>(items: Seq<T>, x: T) -> Seq<T> {
    items.filter(|y: T| x.order(y) == Ordering::Equal)
}

fn reverse<T>(items: Vec<T>) -> (reversed: Vec<T>)
    ensures
        reversed@ == items@.reverse(),
{
    let mut rest = items;
    let mut reversed: Vec<T> = Vec::new();
    while rest.len() > 0
        invariant
            reversed@ + rest@.reverse() == items@.reverse(),
        decreases rest.len(),
    {
        let ghost before = rest@;
        if let Some(item) = rest.pop() {
            assert(before.reverse() =~= seq![item] + rest@.reverse());
            reversed.push(item);
            assert(reversed@ + rest@.reverse() =~= reversed@.drop_last() + before.reverse());
        }
    }
    assert(reversed@ + rest@.reverse() =~= reversed@);
    reversed
}

/// What is left of a list behind its beginning.
spec fn behind<T>(items: Seq<T>, beginning: Seq<T>) -> Seq<T> {
    items.skip(beginning.len() as int)
}

proof fn lemma_behind<T>(items: Seq<T>, beginning: Seq<T>)
    requires
        beginning.is_prefix_of(items),
        beginning.len() > 0,
    ensures
        beginning.drop_last().is_prefix_of(items),
        behind(items, beginning.drop_last()) == seq![beginning.last()] + behind(items, beginning),
        behind(items, beginning.drop_last()).to_multiset() == behind(
            items,
            beginning,
        ).to_multiset().insert(beginning.last()),
        items.contains(beginning.last()),
{
    let rest = behind(items, beginning);
    assert(behind(items, beginning.drop_last()) =~= seq![beginning.last()] + rest);
    lemma_multiset_front(beginning.last(), rest);
    assert(items[beginning.len() - 1] == beginning.last());
}

proof fn lemma_multiset_front<T>(item: T, items: Seq<T>)
    ensures
        (seq![item] + items).to_multiset() == items.to_multiset().insert(item),
{
    broadcast use group_to_multiset_ensures;

    assert((seq![item] + items) =~= items.insert(0, item));
}

/// What merging the ends of two sorted lists keeps true, with `done` taken so far from
/// what was behind `left` and `right`.
spec fn half_way<T: Ordered>(
    left0: Seq<T>,
    right0: Seq<T>,
    left: Seq<T>,
    right: Seq<T>,
    done: Seq<T>,
) -> bool {
    &&& left.is_prefix_of(left0)
    &&& right.is_prefix_of(right0)
    &&& done.to_multiset() == behind(left0, left).to_multiset().add(
        behind(right0, right).to_multiset(),
    )
    &&& orderly(left0 + right0) && in_order(left0) && in_order(right0) ==> {
        &&& in_order(done)
        &&& forall|i: int, j: int|
            0 <= i < left.len() && 0 <= j < done.len() ==> (#[trigger] left[i]).order(
                #[trigger] done[j],
            ) != Ordering::Greater
        &&& forall|i: int, j: int|
            0 <= i < right.len() && 0 <= j < done.len() ==> (#[trigger] right[i]).order(
                #[trigger] done[j],
            ) != Ordering::Greater
        &&& forall|i: int, j: int|
            0 <= i < right.len() && left.len() <= j < left0.len() ==> (
            #[trigger] right[i]).order(#[trigger] left0[j]) == Ordering::Less
        &&& forall|x: T|
            #![trigger equals(done, x)]
            orderly((left0 + right0).push(x)) ==> equals(done, x) == equals(
                behind(left0, left),
                x,
            ) + equals(behind(right0, right), x)
    }
}

#[verifier::rlimit(30)]
proof fn lemma_take_left<T: Ordered>(
    left0: Seq<T>,
    right0: Seq<T>,
    left: Seq<T>,
    right: Seq<T>,
    done: Seq<T>,
)
    requires
        half_way(left0, right0, left, right, done),
        left.len() > 0,
        right.len() > 0 ==> left.last().order(right.last()) == Ordering::Greater,
    ensures
        half_way(left0, right0, left.drop_last(), right, seq![left.last()] + done),
{
    let y = left.last();
    let all = left0 + right0;
    let next = seq![y] + done;
    lemma_behind(left0, left);
    lemma_multiset_front(y, done);
    assert(next.to_multiset() =~= behind(left0, left.drop_last()).to_multiset().add(
        behind(right0, right).to_multiset(),
    ));
    if orderly(all) && in_order(left0) && in_order(right0) {
        assert(forall|i: int| 0 <= i < left0.len() ==> all.contains(#[trigger] left0[i])) by {
            assert(forall|i: int| 0 <= i < left0.len() ==> all[i] == #[trigger] left0[i]);
        }
        assert(forall|i: int| 0 <= i < right0.len() ==> all.contains(#[trigger] right0[i])) by {
            assert(forall|i: int|
                0 <= i < right0.len() ==> all[left0.len() + i] == #[trigger] right0[i]);
        }
        assert(forall|i: int| 0 <= i < left.len() ==> left[i] == left0[i]);
        assert(forall|i: int| 0 <= i < right.len() ==> right[i] == right0[i]);
        assert forall|i: int, j: int| 0 <= i < j < next.len() implies (#[trigger] next[i]).order(
            #[trigger] next[j],
        ) != Ordering::Greater by {
            assert(next[j] == done[j - 1]);
            if i > 0 {
                assert(next[i] == done[i - 1]);
            } else {
                assert(left[left.len() - 1].order(done[j - 1]) != Ordering::Greater);
            }
        }
        assert forall|i: int, j: int| 0 <= i < left.len() - 1 && 0 <= j < next.len() implies (
        #[trigger] left.drop_last()[i]).order(#[trigger] next[j]) != Ordering::Greater by {
            if j == 0 {
                assert(left0[i].order(left0[left.len() - 1]) != Ordering::Greater);
            } else {
                assert(left[i].order(done[j - 1]) != Ordering::Greater);
            }
        }
        assert forall|i: int| 0 <= i < right.len() implies (#[trigger] right[i]).order(y)
            == Ordering::Less by {
            let z = right.last();
            assert(y.order(z) == Ordering::Greater);
            assert(z.order(y) == Ordering::Less);
            if i < right.len() - 1 {
                assert(right0[i].order(right0[right.len() - 1]) != Ordering::Greater);
                assert(right[i].order(z) != Ordering::Greater);
                assert(right[i].order(y) != Ordering::Greater);
                if right[i].order(y) == Ordering::Equal {
                    assert(y.order(right[i]) != Ordering::Greater);
                    assert(y.order(z) != Ordering::Greater);
                }
            }
        }
        assert forall|i: int, j: int| 0 <= i < right.len() && 0 <= j < next.len() implies (
        #[trigger] right[i]).order(#[trigger] next[j]) != Ordering::Greater by {
            if j > 0 {
                assert(right[i].order(done[j - 1]) != Ordering::Greater);
            }
        }
        assert forall|i: int, j: int|
            0 <= i < right.len() && left.len() - 1 <= j < left0.len() implies (
        #[trigger] right[i]).order(#[trigger] left0[j]) == Ordering::Less by {
            if j == left.len() - 1 {
                assert(left0[j] == y);
            }
        }
        assert forall|x: T|
            #![trigger equals(next, x)]
            orderly(all.push(x)) implies equals(next, x) == equals(
            behind(left0, left.drop_last()),
            x,
        ) + equals(behind(right0, right), x) by {
            let alike = |w: T| x.order(w) == Ordering::Equal;
            assert(equals(done, x) == equals(behind(left0, left), x) + equals(
                behind(right0, right),
                x,
            ));
            Seq::filter_distributes_over_add(seq![y], done, alike);
            Seq::filter_distributes_over_add(seq![y], behind(left0, left), alike);
            assert(equals(next, x) =~= equals(behind(left0, left.drop_last()), x) + equals(
                behind(right0, right),
                x,
            ));
        }
    }
}

proof fn lemma_push_contains<T>(items: Seq<T>, x: T, y: T)
    ensures
        items.push(x).contains(y) <==> items.contains(y) || x == y,
{
    if items.contains(y) {
        let i = choose|i: int| 0 <= i < items.len() && items[i] == y;
        assert(items.push(x)[i] == y);
    }
    assert(items.push(x).last() == x);
}

proof fn lemma_none_alike<T: Ordered>(items: Seq<T>, x: T)
    requires
        forall|i: int| 0 <= i < items.len() ==> x.order(#[trigger] items[i]) != Ordering::Equal,
    ensures
        equals(items, x) == Seq::<T>::empty(),
    decreases items.len(),
{
    reveal(Seq::filter);
    if items.len() > 0 {
        lemma_none_alike(items.drop_last(), x);
        assert(items.last() == items[items.len() - 1]);
    }
}

proof fn lemma_behind_all<T: Ordered>(items: Seq<T>, rest: Seq<T>, x: T, z: T)
    requires
        orderly(items),
        items.contains(x),
        items.contains(z),
        x.order(z) == Ordering::Equal,
        forall|i: int|
            0 <= i < rest.len() ==> items.contains(#[trigger] rest[i]) && z.order(rest[i])
                == Ordering::Less,
    ensures
        equals(rest, x) == Seq::<T>::empty(),
{
    assert forall|i: int| 0 <= i < rest.len() implies x.order(#[trigger] rest[i])
        != Ordering::Equal by {
        let w = rest[i];
        assert(z.order(w) == Ordering::Less);
        if x.order(w) == Ordering::Equal {
            assert(w.order(x) != Ordering::Greater);
            assert(w.order(z) != Ordering::Greater);
        }
    }
    lemma_none_alike(rest, x);
}

proof fn lemma_alike_front<T: Ordered>(
    all: Seq<T>,
    rest: Seq<T>,
    other: Seq<T>,
    done: Seq<T>,
    x: T,
    z: T,
)
    requires
        orderly(all.push(x)),
        all.contains(z),
        forall|i: int|
            0 <= i < rest.len() ==> all.contains(#[trigger] rest[i]) && z.order(rest[i])
                == Ordering::Less,
        equals(done, x) == equals(rest, x) + equals(other, x),
    ensures
        equals(seq![z] + done, x) == equals(rest, x) + equals(seq![z] + other, x),
{
    let alike = |w: T| x.order(w) == Ordering::Equal;
    Seq::filter_distributes_over_add(seq![z], done, alike);
    Seq::filter_distributes_over_add(seq![z], other, alike);
    if x.order(z) == Ordering::Equal {
        let wide = all.push(x);
        assert forall|i: int| 0 <= i < rest.len() implies wide.contains(#[trigger] rest[i])
            && z.order(rest[i]) == Ordering::Less by {
            lemma_push_contains(all, x, rest[i]);
        }
        lemma_push_contains(all, x, x);
        lemma_push_contains(all, x, z);
        lemma_behind_all(wide, rest, x, z);
    } else {
        assert(seq![z].filter(alike) =~= seq![]) by {
            reveal_with_fuel(Seq::filter, 2);
        }
    }
    assert(equals(seq![z] + done, x) =~= equals(rest, x) + equals(seq![z] + other, x));
}

#[verifier::rlimit(30)]
proof fn lemma_take_right<T: Ordered>(
    left0: Seq<T>,
    right0: Seq<T>,
    left: Seq<T>,
    right: Seq<T>,
    done: Seq<T>,
)
    requires
        half_way(left0, right0, left, right, done),
        right.len() > 0,
        left.len() > 0 ==> left.last().order(right.last()) != Ordering::Greater,
    ensures
        half_way(left0, right0, left, right.drop_last(), seq![right.last()] + done),
{
    let z = right.last();
    let all = left0 + right0;
    let next = seq![z] + done;
    lemma_behind(right0, right);
    lemma_multiset_front(z, done);
    assert(next.to_multiset() =~= behind(left0, left).to_multiset().add(
        behind(right0, right.drop_last()).to_multiset(),
    ));
    if orderly(all) && in_order(left0) && in_order(right0) {
        assert(forall|i: int| 0 <= i < left0.len() ==> all.contains(#[trigger] left0[i])) by {
            assert(forall|i: int| 0 <= i < left0.len() ==> all[i] == #[trigger] left0[i]);
        }
        assert(forall|i: int| 0 <= i < right0.len() ==> all.contains(#[trigger] right0[i])) by {
            assert(forall|i: int|
                0 <= i < right0.len() ==> all[left0.len() + i] == #[trigger] right0[i]);
        }
        assert(forall|i: int| 0 <= i < left.len() ==> left[i] == left0[i]);
        assert(forall|i: int| 0 <= i < right.len() ==> right[i] == right0[i]);
        assert(z == right[right.len() - 1]);
        assert forall|i: int, j: int| 0 <= i < j < next.len() implies (#[trigger] next[i]).order(
            #[trigger] next[j],
        ) != Ordering::Greater by {
            assert(next[j] == done[j - 1]);
            if i > 0 {
                assert(next[i] == done[i - 1]);
            } else {
                assert(right[right.len() - 1].order(done[j - 1]) != Ordering::Greater);
            }
        }
        assert forall|i: int, j: int| 0 <= i < left.len() && 0 <= j < next.len() implies (
        #[trigger] left[i]).order(#[trigger] next[j]) != Ordering::Greater by {
            if j == 0 {
                let y = left.last();
                if i < left.len() - 1 {
                    assert(left0[i].order(left0[left.len() - 1]) != Ordering::Greater);
                    assert(left[i].order(y) != Ordering::Greater);
                    assert(y.order(z) != Ordering::Greater);
                }
            } else {
                assert(left[i].order(done[j - 1]) != Ordering::Greater);
            }
        }
        assert forall|i: int, j: int| 0 <= i < right.len() - 1 && 0 <= j < next.len() implies (
        #[trigger] right.drop_last()[i]).order(#[trigger] next[j]) != Ordering::Greater by {
            if j == 0 {
                assert(right0[i].order(right0[right.len() - 1]) != Ordering::Greater);
            } else {
                assert(right[i].order(done[j - 1]) != Ordering::Greater);
            }
        }
        assert forall|i: int, j: int|
            0 <= i < right.len() - 1 && left.len() <= j < left0.len() implies (
        #[trigger] right.drop_last()[i]).order(#[trigger] left0[j]) == Ordering::Less by {
            assert(right[i].order(left0[j]) == Ordering::Less);
        }
        assert forall|x: T|
            #![trigger equals(next, x)]
            orderly(all.push(x)) implies equals(next, x) == equals(behind(left0, left), x) + equals(
            behind(right0, right.drop_last()),
            x,
        ) by {
            assert forall|i: int| 0 <= i < behind(left0, left).len() implies all.contains(
                #[trigger] behind(left0, left)[i],
            ) && z.order(behind(left0, left)[i]) == Ordering::Less by {
                let j = left.len() + i;
                assert(behind(left0, left)[i] == left0[j]);
                assert(right[right.len() - 1].order(left0[j]) == Ordering::Less);
            }
            lemma_alike_front(all, behind(left0, left), behind(right0, right), done, x, z);
        }
    }
}

/// Merges two lists. Where both are in order, so is the result, and of equal items those
/// of the first list come first.
fn merge_lists<T: Ordered>(first: Vec<T>, second: Vec<T>) -> (merged: Vec<T>)
    ensures
        merged@.to_multiset() == first@.to_multiset().add(second@.to_multiset()),
        orderly(first@ + second@) && in_order(first@) && in_order(second@) ==> {
            &&& in_order(merged@)
            &&& forall|x: T|
                #![trigger equals(merged@, x)]
                orderly((first@ + second@).push(x)) ==> equals(merged@, x) == equals(first@, x)
                    + equals(second@, x)
        },
{
    let mut left = first;
    let mut right = second;
    let mut taken: Vec<T> = Vec::new();
    let ghost mut done: Seq<T> = seq![];
    proof {
        assert(behind(first@, first@) =~= seq![]);
        assert(behind(second@, second@) =~= seq![]);
        assert(Seq::<T>::empty().to_multiset() =~= vstd::multiset::Multiset::empty()) by {
            Seq::<T>::empty().to_multiset_ensures();
            vstd::multiset::lemma_multiset_empty_len(Seq::<T>::empty().to_multiset());
        }
        assert(done.to_multiset() =~= behind(first@, first@).to_multiset().add(
            behind(second@, second@).to_multiset(),
        ));
        assert forall|x: T|
            #![trigger equals(done, x)]
            orderly((first@ + second@).push(x)) implies equals(done, x) == equals(
            behind(first@, first@),
            x,
        ) + equals(behind(second@, second@), x) by {
            lemma_none_alike(done, x);
        }
    }
    while left.len() > 0 || right.len() > 0
        invariant
            half_way(first@, second@, left@, right@, done),
            taken@ == done.reverse(),
        decreases left.len() + right.len(),
    {
        let from_left = if left.len() == 0 {
            false
        } else if right.len() == 0 {
            true
        } else {
            match left[left.len() - 1].compare(&right[right.len() - 1]) {
                Ordering::Greater => true,
                _ => false,
            }
        };
        proof {
            if from_left {
                lemma_take_left(first@, second@, left@, right@, done);
                done = seq![left@.last()] + done;
            } else {
                lemma_take_right(first@, second@, left@, right@, done);
                done = seq![right@.last()] + done;
            }
        }
        let item = if from_left {
            left.pop()
        } else {
            right.pop()
        };
        if let Some(item) = item {
            taken.push(item);
        }
        assert(taken@ =~= done.reverse());
    }
    let merged = reverse(taken);
    assert(merged@ =~= done);
    assert(behind(first@, left@) =~= first@);
    assert(behind(second@, right@) =~= second@);
    merged
}

proof fn lemma_orderly_part<T: Ordered>(items: Seq<T>, part: Seq<T>)
    requires
        orderly(items),
        forall|x: T| #[trigger] part.contains(x) ==> items.contains(x),
    ensures
        orderly(part),
{
}

proof fn lemma_orderly_push<T: Ordered>(items: Seq<T>, x: T, part: Seq<T>, y: T)
    requires
        orderly(items.push(x)),
        forall|z: T| #[trigger] part.contains(z) ==> items.contains(z),
        items.contains(y) || x == y,
    ensures
        orderly(part.push(y)),
{
    assert forall|z: T| #[trigger] part.push(y).contains(z) implies items.push(x).contains(z) by {
        lemma_push_contains(items, x, z);
        lemma_push_contains(part, y, z);
    }
    lemma_orderly_part(items.push(x), part.push(y));
}

fn sorted<T: Ordered>(items: Vec<T>) -> (result: Vec<T>)
    ensures
        result@.to_multiset() == items@.to_multiset(),
        orderly(items@) ==> {
            &&& in_order(result@)
            &&& forall|x: T|
                #![trigger equals(result@, x)]
                orderly(items@.push(x)) ==> equals(items@, x) == equals(result@, x)
        },
    decreases items.len(),
{
    if items.len() < 2 {
        return items;
    }
    let ghost all = items@;
    let mut first = items;
    let middle: usize = first.len() / 2;
    let second = first.split_off(middle);
    let ghost front = first@;
    let ghost back = second@;
    assert(all =~= front + back);
    let first = sorted(first);
    let second = sorted(second);
    let result = merge_lists(first, second);
    proof {
        lemma_multiset_commutative(front, back);
        lemma_multiset_commutative(first@, second@);
        assert(forall|x: T| #[trigger] all.contains(x) <==> front.contains(x) || back.contains(x))
            by {
            assert(forall|i: int| 0 <= i < front.len() ==> all[i] == #[trigger] front[i]);
            assert(forall|i: int|
                0 <= i < back.len() ==> all[front.len() + i] == #[trigger] back[i]);
        }
        if orderly(all) {
            let both = first@ + second@;
            lemma_orderly_part(all, front);
            lemma_orderly_part(all, back);
            assert forall|x: T| #[trigger] both.contains(x) implies all.contains(x) by {
                broadcast use group_to_multiset_ensures;

                assert(both.to_multiset().count(x) == all.to_multiset().count(x));
            }
            lemma_orderly_part(all, both);
            assert forall|x: T|
                #![trigger equals(result@, x)]
                orderly(all.push(x)) implies equals(all, x) == equals(result@, x) by {
                lemma_orderly_push(all, x, front, x);
                lemma_orderly_push(all, x, back, x);
                lemma_orderly_push(all, x, both, x);
                Seq::filter_distributes_over_add(front, back, |w: T| x.order(w) == Ordering::Equal);
                assert(equals(first@, x) == equals(front, x));
                assert(equals(second@, x) == equals(back, x));
            }
        }
    }
    result
}

/// Sorts a list.
pub fn sort<T: Ordered>(items: &mut Vec<T>)
    ensures
        sorted_from(old(items)@, final(items)@),
{
    let mut list: Vec<T> = Vec::new();
    std::mem::swap(&mut list, items);
    let ghost before = list@;
    *items = sorted(list);
    proof {
        if orderly(before) {
            assert forall|x: T| #[trigger] before.contains(x) implies equals(before, x) == equals(
                items@,
                x,
            ) by {
                assert forall|y: T| #[trigger] before.push(x).contains(y) implies before.contains(
                    y,
                ) by {
                    lemma_push_contains(before, x, y);
                }
                lemma_orderly_part(before, before.push(x));
            }
        }
    }
}

/// Sorting loses nothing, adds nothing and, by an order without contradiction, puts no item in
/// front of one that comes before it and keeps the order of items that are equal.
pub proof fn lemma_sorting_keeps_items_and_ties<T: Ordered>(before: Seq<T>, after: Seq<T>, x: T)
    requires
        sorted_from(before, after),
    ensures
        after.len() == before.len(),
        after.contains(x) <==> before.contains(x),
        orderly(before) ==> forall|i: int, j: int|
            0 <= i < j < after.len() ==> (#[trigger] after[i]).order(#[trigger] after[j])
                != Ordering::Greater,
        orderly(before) && before.contains(x) ==> after.filter(
            |y: T| x.order(y) == Ordering::Equal,
        ) == before.filter(|y: T| x.order(y) == Ordering::Equal),
{
    before.to_multiset_ensures();
    after.to_multiset_ensures();
    assert(after.contains(x) <==> after.to_multiset().count(x) > 0);
    assert(before.contains(x) <==> before.to_multiset().count(x) > 0);
    if orderly(before) && before.contains(x) {
        assert(equals(before, x) == equals(after, x));
    }
}

} // verus!

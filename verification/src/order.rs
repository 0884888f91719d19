//! The order of names and of what carries them, sorting by such an order, and the walk
//! through two sorted lists side by side.

use crate::namespace::{Name, Namespace};
use crate::sort;
use crate::sort::Ordered;
use std::cmp::Ordering;
use vstd::prelude::*;

verus! {

/// The order of two strings of bytes: the first byte that differs decides, and a string
/// comes before what it is the beginning of.
pub open spec fn bytes_order(a: Seq<u8>, b: Seq<u8>) -> Ordering
    decreases a.len(),
{
    if a.len() == 0 {
        if b.len() == 0 {
            Ordering::Equal
        } else {
            Ordering::Less
        }
    } else if b.len() == 0 {
        Ordering::Greater
    } else if a[0] < b[0] {
        Ordering::Less
    } else if a[0] > b[0] {
        Ordering::Greater
    } else {
        bytes_order(a.skip(1), b.skip(1))
    }
}

/// The order of two names: a missing name comes first, others are ordered by their bytes.
pub open spec fn name_order(a: Name, b: Name) -> Ordering {
    match (a, b) {
        (None, None) => Ordering::Equal,
        (None, Some(_)) => Ordering::Less,
        (Some(_), None) => Ordering::Greater,
        (Some(a), Some(b)) => bytes_order(a@, b@),
    }
}

/// The order of two paths. They are laid side by side so that their ends meet, and of the
/// names that face each other the first pair that differs decides.
pub open spec fn path_order(a: Seq<Name>, b: Seq<Name>) -> Ordering
    decreases a.len(),
{
    if a.len() == 0 || b.len() == 0 {
        Ordering::Equal
    } else {
        match path_order(a.drop_last(), b.drop_last()) {
            Ordering::Equal => name_order(a.last(), b.last()),
            order => order,
        }
    }
}

/// The order of two names inside namespaces: the namespaces decide, and between equal
/// namespaces the names do.
pub open spec fn qualified_order(
    path1: Seq<Name>,
    name1: Name,
    path2: Seq<Name>,
    name2: Name,
) -> Ordering {
    match path_order(path1, path2) {
        Ordering::Equal => name_order(name1, name2),
        order => order,
    }
}

fn cmp_bytes(a: &[u8], b: &[u8]) -> (order: Ordering)
    ensures
        order == bytes_order(a@, b@),
{
    let mut i: usize = 0;
    let ghost mut at: int = 0;
    assert(a@.skip(0) =~= a@ && b@.skip(0) =~= b@);
    while i < a.len() && i < b.len()
        invariant
            at == i,
            i <= a@.len(),
            i <= b@.len(),
            bytes_order(a@, b@) == bytes_order(a@.skip(at), b@.skip(at)),
        decreases a@.len() - i,
    {
        if a[i] < b[i] {
            return Ordering::Less;
        }
        if a[i] > b[i] {
            return Ordering::Greater;
        }
        assert(a@.skip(at).skip(1) =~= a@.skip(at + 1));
        assert(b@.skip(at).skip(1) =~= b@.skip(at + 1));
        i = i + 1;
        proof {
            at = at + 1;
        }
    }
    if i < b.len() {
        Ordering::Less
    } else if i < a.len() {
        Ordering::Greater
    } else {
        Ordering::Equal
    }
}

/// Compares two names.
pub fn cmp_name(a: Name, b: Name) -> (order: Ordering)
    ensures
        order == name_order(a, b),
{
    match (a, b) {
        (None, None) => Ordering::Equal,
        (None, Some(_)) => Ordering::Less,
        (Some(_), None) => Ordering::Greater,
        (Some(a), Some(b)) => cmp_bytes(a, b),
    }
}

/// Compares two namespaces.
pub fn cmp_namespace(a: &Namespace, b: &Namespace) -> (order: Ordering)
    ensures
        order == path_order(a.path(), b.path()),
    decreases a,
{
    match (&a.parent, &b.parent) {
        (Some(p1), Some(p2)) => {
            assert(a.path().drop_last() =~= p1.path());
            assert(b.path().drop_last() =~= p2.path());
            match cmp_namespace(p1, p2) {
                Ordering::Equal => cmp_name(a.name, b.name),
                order => order,
            }
        },
        _ => Ordering::Equal,
    }
}

/// Compares two names inside namespaces.
pub fn cmp_ns_and_name(ns1: &Namespace, name1: Name, ns2: &Namespace, name2: Name) -> (order:
    Ordering)
    ensures
        order == qualified_order(ns1.path(), name1, ns2.path(), name2),
{
    match cmp_namespace(ns1, ns2) {
        Ordering::Equal => cmp_name(name1, name2),
        order => order,
    }
}

/// The order that is meant when the two sides are exchanged.
pub open spec fn reversed(order: Ordering) -> Ordering {
    match order {
        Ordering::Less => Ordering::Greater,
        Ordering::Equal => Ordering::Equal,
        Ordering::Greater => Ordering::Less,
    }
}

proof fn lemma_bytes_order(a: Seq<u8>, b: Seq<u8>)
    ensures
        bytes_order(b, a) == reversed(bytes_order(a, b)),
        bytes_order(a, b) == Ordering::Equal <==> a == b,
    decreases a.len(),
{
    if a.len() > 0 && b.len() > 0 {
        lemma_bytes_order(a.skip(1), b.skip(1));
        if a[0] == b[0] && a.skip(1) == b.skip(1) {
            assert(a =~= seq![a[0]] + a.skip(1));
            assert(b =~= seq![b[0]] + b.skip(1));
        }
    } else if a.len() == 0 && b.len() == 0 {
        assert(a =~= b);
    }
}

proof fn lemma_bytes_order_transitive(a: Seq<u8>, b: Seq<u8>, c: Seq<u8>)
    ensures
        bytes_order(a, b) == Ordering::Less && bytes_order(b, c) == Ordering::Less
            ==> bytes_order(a, c) == Ordering::Less,
    decreases a.len(),
{
    if a.len() > 0 && b.len() > 0 && c.len() > 0 {
        lemma_bytes_order_transitive(a.skip(1), b.skip(1), c.skip(1));
    }
}

/// The order of names is total: to exchange the sides reverses it, names are equal in it
/// only where they are missing both or have the same bytes, and it is transitive.
pub proof fn lemma_name_order_is_total(a: Name, b: Name, c: Name)
    ensures
        name_order(b, a) == reversed(name_order(a, b)),
        name_order(a, b) == Ordering::Equal <==> match (a, b) {
            (None, None) => true,
            (Some(a), Some(b)) => a@ == b@,
            _ => false,
        },
        name_order(a, b) == Ordering::Less && name_order(b, c) == Ordering::Less
            ==> name_order(a, c) == Ordering::Less,
        name_order(a, b) == Ordering::Equal ==> name_order(a, c) == name_order(b, c),
{
    if let (Some(a), Some(b)) = (a, b) {
        lemma_bytes_order(a@, b@);
        if let Some(c) = c {
            lemma_bytes_order_transitive(a@, b@, c@);
        }
    }
}

/// To exchange two paths reverses their order, and a path is equal to itself in it.
pub proof fn lemma_path_order_is_reversible(a: Seq<Name>, b: Seq<Name>)
    ensures
        path_order(b, a) == reversed(path_order(a, b)),
        path_order(a, a) == Ordering::Equal,
    decreases a.len(),
{
    if a.len() > 0 {
        lemma_path_order_is_reversible(a.drop_last(), b.drop_last());
        lemma_name_order_is_total(a.last(), a.last(), None);
        if b.len() > 0 {
            lemma_name_order_is_total(a.last(), b.last(), None);
        }
    }
}

/// Between paths of one length the order is transitive, and paths that are equal in it
/// stand alike to every third.
pub proof fn lemma_path_order_is_transitive(a: Seq<Name>, b: Seq<Name>, c: Seq<Name>)
    requires
        a.len() == b.len() == c.len(),
    ensures
        path_order(a, b) == Ordering::Less && path_order(b, c) == Ordering::Less
            ==> path_order(a, c) == Ordering::Less,
        path_order(a, b) == Ordering::Equal ==> path_order(a, c) == path_order(b, c),
    decreases a.len(),
{
    if a.len() > 0 {
        let (a1, b1, c1) = (a.drop_last(), b.drop_last(), c.drop_last());
        lemma_path_order_is_transitive(a1, b1, c1);
        lemma_path_order_is_transitive(c1, b1, a1);
        lemma_path_order_is_transitive(b1, c1, a1);
        lemma_path_order_is_reversible(a1, b1);
        lemma_path_order_is_reversible(b1, c1);
        lemma_path_order_is_reversible(a1, c1);
        lemma_name_order_is_total(a.last(), b.last(), c.last());
        lemma_name_order_is_total(b.last(), c.last(), a.last());
        lemma_name_order_is_total(c.last(), b.last(), a.last());
    }
}

/// The order of names inside namespaces is reversed when the sides are exchanged, and a
/// name is equal to itself in it.
pub proof fn lemma_qualified_order_is_reversible(
    path1: Seq<Name>,
    name1: Name,
    path2: Seq<Name>,
    name2: Name,
)
    ensures
        qualified_order(path2, name2, path1, name1) == reversed(
            qualified_order(path1, name1, path2, name2),
        ),
        qualified_order(path1, name1, path1, name1) == Ordering::Equal,
{
    lemma_path_order_is_reversible(path1, path2);
    lemma_name_order_is_total(name1, name2, None);
    lemma_name_order_is_total(name1, name1, None);
}

/// One step of the walk through two lists.
#[derive(Debug, PartialEq, Eq)]
pub enum Step<T> {
    /// Items of both lists that are equal in the order.
    Both(T, T),
    /// An item of the first list only.
    First(T),
    /// An item of the second list only.
    Second(T),
}

/// The steps through two lists, by the answers of a comparison. The heads of the lists are
/// compared: equal heads are taken together, otherwise the lesser head is taken, and what
/// is left of one list once the other has run out is taken item by item.
pub open spec fn merged<T, F: Fn(T, T) -> Ordering>(
    first: Seq<T>,
    second: Seq<T>,
    cmp: F,
    steps: Seq<Step<T>>,
) -> bool
    decreases steps.len(),
{
    if steps.len() == 0 {
        first.len() == 0 && second.len() == 0
    } else {
        match steps[0] {
            Step::Both(a, b) => {
                &&& first.len() > 0 && a == first[0]
                &&& second.len() > 0 && b == second[0]
                &&& cmp.ensures((a, b), Ordering::Equal)
                &&& merged(first.skip(1), second.skip(1), cmp, steps.skip(1))
            },
            Step::First(a) => {
                &&& first.len() > 0 && a == first[0]
                &&& second.len() > 0 ==> cmp.ensures((a, second[0]), Ordering::Less)
                &&& merged(first.skip(1), second, cmp, steps.skip(1))
            },
            Step::Second(b) => {
                &&& second.len() > 0 && b == second[0]
                &&& first.len() > 0 ==> cmp.ensures((first[0], b), Ordering::Greater)
                &&& merged(first, second.skip(1), cmp, steps.skip(1))
            },
        }
    }
}

proof fn lemma_merged_push<T, F: Fn(T, T) -> Ordering>(
    first: Seq<T>,
    second: Seq<T>,
    cmp: F,
    steps: Seq<Step<T>>,
    i: int,
    j: int,
    step: Step<T>,
)
    requires
        0 <= i <= first.len(),
        0 <= j <= second.len(),
        merged_to(first, second, cmp, steps, i, j),
        match step {
            Step::Both(a, b) => i < first.len() && j < second.len() && a == first[i] && b
                == second[j] && cmp.ensures((a, b), Ordering::Equal),
            Step::First(a) => i < first.len() && a == first[i] && (j < second.len()
                ==> cmp.ensures((a, second[j]), Ordering::Less)),
            Step::Second(b) => j < second.len() && b == second[j] && (i < first.len()
                ==> cmp.ensures((first[i], b), Ordering::Greater)),
        },
    ensures
        match step {
            Step::Both(..) => merged_to(first, second, cmp, steps.push(step), i + 1, j + 1),
            Step::First(_) => merged_to(first, second, cmp, steps.push(step), i + 1, j),
            Step::Second(_) => merged_to(first, second, cmp, steps.push(step), i, j + 1),
        },
{
    let (i1, j1) = match step {
        Step::Both(..) => (i + 1, j + 1),
        Step::First(_) => (i + 1, j),
        Step::Second(_) => (i, j + 1),
    };
    assert forall|rest: Seq<Step<T>>|
        #[trigger] merged(first.skip(i1), second.skip(j1), cmp, rest) implies merged(
        first,
        second,
        cmp,
        steps.push(step) + rest,
    ) by {
        let longer = seq![step] + rest;
        assert(longer.skip(1) =~= rest);
        if i < first.len() {
            assert(first.skip(i).skip(1) =~= first.skip(i + 1));
        }
        if j < second.len() {
            assert(second.skip(j).skip(1) =~= second.skip(j + 1));
        }
        assert(merged(first.skip(i), second.skip(j), cmp, longer));
        assert(steps + longer =~= steps.push(step) + rest);
    }
}

/// Whether the steps lead to the given places in the two lists: whatever steps go on from
/// there, put behind these, go through the whole lists.
spec fn merged_to<T, F: Fn(T, T) -> Ordering>(
    first: Seq<T>,
    second: Seq<T>,
    cmp: F,
    steps: Seq<Step<T>>,
    i: int,
    j: int,
) -> bool {
    forall|rest: Seq<Step<T>>| #[trigger]
        merged(first.skip(i), second.skip(j), cmp, rest) ==> merged(
            first,
            second,
            cmp,
            steps + rest,
        )
}

/// Goes through two lists side by side, by a comparison, and says at each step whether an
/// item stands in both lists or in which of them it stands alone.
pub fn merge<T: Copy, F: Fn(T, T) -> Ordering>(first: &[T], second: &[T], cmp: F) -> (steps: Vec<
    Step<T>,
>)
    requires
        forall|a: T, b: T| #[trigger]
            first@.contains(a) && #[trigger] second@.contains(b) ==> cmp.requires((a, b)),
    ensures
        merged(first@, second@, cmp, steps@),
{
    let mut steps: Vec<Step<T>> = Vec::new();
    let mut i: usize = 0;
    let mut j: usize = 0;
    let ghost mut at1: int = 0;
    let ghost mut at2: int = 0;
    assert(merged_to(first@, second@, cmp, steps@, 0, 0)) by {
        assert(first@.skip(0) =~= first@);
        assert(second@.skip(0) =~= second@);
        assert forall|rest: Seq<Step<T>>| #[trigger]
            merged(first@.skip(0), second@.skip(0), cmp, rest) implies merged(
            first@,
            second@,
            cmp,
            steps@ + rest,
        ) by {
            assert(steps@ + rest =~= rest);
        }
    }
    while i < first.len() || j < second.len()
        invariant
            at1 == i,
            at2 == j,
            i <= first@.len(),
            j <= second@.len(),
            forall|a: T, b: T| #[trigger]
                first@.contains(a) && #[trigger] second@.contains(b) ==> cmp.requires((a, b)),
            merged_to(first@, second@, cmp, steps@, at1, at2),
        decreases first@.len() - i + second@.len() - j,
    {
        let step = if i < first.len() && j < second.len() {
            let a = first[i];
            let b = second[j];
            assert(first@.contains(a) && second@.contains(b));
            match cmp(a, b) {
                Ordering::Equal => Step::Both(a, b),
                Ordering::Less => Step::First(a),
                Ordering::Greater => Step::Second(b),
            }
        } else if i < first.len() {
            Step::First(first[i])
        } else {
            Step::Second(second[j])
        };
        proof {
            lemma_merged_push(first@, second@, cmp, steps@, at1, at2, step);
        }
        match step {
            Step::Both(..) => {
                i = i + 1;
                j = j + 1;
                proof {
                    at1 = at1 + 1;
                    at2 = at2 + 1;
                }
            },
            Step::First(_) => {
                i = i + 1;
                proof {
                    at1 = at1 + 1;
                }
            },
            Step::Second(_) => {
                j = j + 1;
                proof {
                    at2 = at2 + 1;
                }
            },
        }
        steps.push(step);
    }
    assert(steps@ + Seq::<Step<T>>::empty() =~= steps@);
    assert(merged(first@.skip(at1), second@.skip(at2), cmp, Seq::<Step<T>>::empty()));
    steps
}

/// The items that the steps take from the first list, in their order.
pub open spec fn taken_first<T>(steps: Seq<Step<T>>) -> Seq<T>
    decreases steps.len(),
{
    if steps.len() == 0 {
        seq![]
    } else {
        match steps[0] {
            Step::Both(a, _) => seq![a] + taken_first(steps.skip(1)),
            Step::First(a) => seq![a] + taken_first(steps.skip(1)),
            Step::Second(_) => taken_first(steps.skip(1)),
        }
    }
}

/// The items that the steps take from the second list, in their order.
pub open spec fn taken_second<T>(steps: Seq<Step<T>>) -> Seq<T>
    decreases steps.len(),
{
    if steps.len() == 0 {
        seq![]
    } else {
        match steps[0] {
            Step::Both(_, b) => seq![b] + taken_second(steps.skip(1)),
            Step::First(_) => taken_second(steps.skip(1)),
            Step::Second(b) => seq![b] + taken_second(steps.skip(1)),
        }
    }
}

/// The walk through two lists takes every item of both, once, in the order of the lists.
pub proof fn lemma_merge_keeps_both_lists<T, F: Fn(T, T) -> Ordering>(
    first: Seq<T>,
    second: Seq<T>,
    cmp: F,
    steps: Seq<Step<T>>,
)
    requires
        merged(first, second, cmp, steps),
    ensures
        taken_first(steps) == first,
        taken_second(steps) == second,
    decreases steps.len(),
{
    if steps.len() > 0 {
        match steps[0] {
            Step::Both(..) => lemma_merge_keeps_both_lists(
                first.skip(1),
                second.skip(1),
                cmp,
                steps.skip(1),
            ),
            Step::First(_) => lemma_merge_keeps_both_lists(
                first.skip(1),
                second,
                cmp,
                steps.skip(1),
            ),
            Step::Second(_) => lemma_merge_keeps_both_lists(
                first,
                second.skip(1),
                cmp,
                steps.skip(1),
            ),
        }
        if first.len() > 0 {
            assert(seq![first[0]] + first.skip(1) =~= first);
        }
        if second.len() > 0 {
            assert(seq![second[0]] + second.skip(1) =~= second);
        }
    } else {
        assert(first =~= seq![]);
        assert(second =~= seq![]);
    }
}

/// Whether each item comes before all later ones.
pub open spec fn strictly_in_order<T: Ordered>(items: Seq<T>) -> bool {
    forall|i: int, j: int|
        0 <= i < j < items.len() ==> (#[trigger] items[i]).order(#[trigger] items[j])
            == Ordering::Less
}

proof fn lemma_behind_head<T: Ordered>(all: Seq<T>, head: T, items: Seq<T>)
    requires
        sort::orderly(all),
        all.contains(head),
        forall|i: int| 0 <= i < items.len() ==> all.contains(#[trigger] items[i]),
        strictly_in_order(items),
        items.len() > 0 ==> head.order(items[0]) == Ordering::Less,
    ensures
        forall|i: int|
            0 <= i < items.len() ==> head.order(#[trigger] items[i]) == Ordering::Less
                && items[i].order(head) == Ordering::Greater,
{
    assert forall|i: int| 0 <= i < items.len() implies head.order(#[trigger] items[i])
        == Ordering::Less && items[i].order(head) == Ordering::Greater by {
        let item = items[i];
        if i > 0 {
            assert(items[0].order(items[i]) == Ordering::Less);
            assert(head.order(item) != Ordering::Greater);
            assert(items[0].order(head) == Ordering::Greater);
            if head.order(item) == Ordering::Equal {
                assert(item.order(head) != Ordering::Greater);
                assert(items[0].order(head) != Ordering::Greater);
            }
        }
    }
}

/// A list without its first item.
spec fn rest_of<T>(items: Seq<T>) -> Seq<T> {
    items.skip(1)
}

proof fn lemma_steps_are_items<T, F: Fn(T, T) -> Ordering>(
    first: Seq<T>,
    second: Seq<T>,
    cmp: F,
    steps: Seq<Step<T>>,
    k: int,
)
    requires
        merged(first, second, cmp, steps),
        0 <= k < steps.len(),
    ensures
        match steps[k] {
            Step::Both(a, b) => first.contains(a) && second.contains(b),
            Step::First(a) => first.contains(a),
            Step::Second(b) => second.contains(b),
        },
    decreases steps.len(),
{
    let (rest1, rest2) = match steps[0] {
        Step::Both(..) => (first.skip(1), second.skip(1)),
        Step::First(_) => (first.skip(1), second),
        Step::Second(_) => (first, second.skip(1)),
    };
    if k > 0 {
        assert(steps[k] == steps.skip(1)[k - 1]);
        lemma_steps_are_items(rest1, rest2, cmp, steps.skip(1), k - 1);
        assert forall|item: T| #[trigger] rest1.contains(item) implies first.contains(item) by {
            if rest1 != first {
                let i = choose|i: int| 0 <= i < rest1.len() && rest1[i] == item;
                assert(first[i + 1] == item);
            }
        }
        assert forall|item: T| #[trigger] rest2.contains(item) implies second.contains(item) by {
            if rest2 != second {
                let i = choose|i: int| 0 <= i < rest2.len() && rest2[i] == item;
                assert(second[i + 1] == item);
            }
        }
    } else {
        match steps[0] {
            Step::Both(a, b) => {
                assert(first[0] == a && second[0] == b);
            },
            Step::First(a) => {
                assert(first[0] == a);
            },
            Step::Second(b) => {
                assert(second[0] == b);
            },
        }
    }
}

proof fn lemma_alone<T: Ordered>(
    all: Seq<T>,
    first: Seq<T>,
    second: Seq<T>,
    rest1: Seq<T>,
    rest2: Seq<T>,
    head: Step<T>,
    a: T,
    j: int,
)
    requires
        sort::orderly(all),
        forall|i: int| 0 <= i < first.len() ==> all.contains(#[trigger] first[i]),
        forall|i: int| 0 <= i < second.len() ==> all.contains(#[trigger] second[i]),
        rest1.contains(a),
        0 <= j < second.len(),
        forall|i: int| 0 <= i < rest2.len() ==> a.order(#[trigger] rest2[i]) != Ordering::Equal,
        match head {
            Step::Both(x, y) => {
                &&& first.len() > 0 && x == first[0] && y == second[0]
                &&& rest1 == rest_of(first) && rest2 == rest_of(second)
                &&& x.order(y) == Ordering::Equal
                &&& forall|i: int|
                    0 <= i < rest1.len() ==> (#[trigger] rest1[i]).order(x) == Ordering::Greater
            },
            Step::First(_) => rest2 == second,
            Step::Second(y) => {
                &&& y == second[0] && rest1 == first && rest2 == rest_of(second)
                &&& forall|i: int|
                    0 <= i < first.len() ==> (#[trigger] first[i]).order(y) == Ordering::Greater
            },
        },
    ensures
        a.order(second[j]) != Ordering::Equal,
{
    let k = choose|k: int| 0 <= k < rest1.len() && rest1[k] == a;
    match head {
        Step::Both(x, y) => {
            if j > 0 {
                assert(second[j] == rest2[j - 1]);
            } else {
                assert(rest1[k].order(x) == Ordering::Greater);
                assert(a == first[k + 1]);
                if a.order(y) == Ordering::Equal {
                    assert(y.order(x) != Ordering::Greater);
                    assert(a.order(x) != Ordering::Greater);
                }
            }
        },
        Step::First(_) => {},
        Step::Second(y) => {
            if j > 0 {
                assert(second[j] == rest2[j - 1]);
            } else {
                assert(first[k].order(y) == Ordering::Greater);
            }
        },
    }
}

proof fn lemma_alone_second<T: Ordered>(
    all: Seq<T>,
    first: Seq<T>,
    second: Seq<T>,
    rest1: Seq<T>,
    rest2: Seq<T>,
    head: Step<T>,
    b: T,
    i: int,
)
    requires
        sort::orderly(all),
        forall|i: int| 0 <= i < first.len() ==> all.contains(#[trigger] first[i]),
        forall|i: int| 0 <= i < second.len() ==> all.contains(#[trigger] second[i]),
        rest2.contains(b),
        0 <= i < first.len(),
        forall|i: int| 0 <= i < rest1.len() ==> (#[trigger] rest1[i]).order(b) != Ordering::Equal,
        match head {
            Step::Both(x, y) => {
                &&& second.len() > 0 && x == first[0] && y == second[0]
                &&& rest1 == rest_of(first) && rest2 == rest_of(second)
                &&& x.order(y) == Ordering::Equal
                &&& forall|i: int|
                    0 <= i < rest2.len() ==> y.order(#[trigger] rest2[i]) == Ordering::Less
            },
            Step::Second(_) => rest1 == first,
            Step::First(x) => {
                &&& x == first[0] && rest1 == rest_of(first) && rest2 == second
                &&& forall|i: int|
                    0 <= i < second.len() ==> x.order(#[trigger] second[i]) == Ordering::Less
            },
        },
    ensures
        first[i].order(b) != Ordering::Equal,
{
    let k = choose|k: int| 0 <= k < rest2.len() && rest2[k] == b;
    match head {
        Step::Both(x, y) => {
            if i > 0 {
                assert(first[i] == rest1[i - 1]);
            } else {
                assert(y.order(rest2[k]) == Ordering::Less);
                assert(b == second[k + 1]);
                if x.order(b) == Ordering::Equal {
                    assert(b.order(x) != Ordering::Greater);
                    assert(b.order(y) != Ordering::Greater);
                    assert(b.order(y) == Ordering::Greater);
                }
            }
        },
        Step::Second(_) => {},
        Step::First(x) => {
            if i > 0 {
                assert(first[i] == rest1[i - 1]);
            } else {
                assert(x.order(second[k]) == Ordering::Less);
            }
        },
    }
}

/// What a step takes together is equal, and what it takes alone has no equal in the other
/// list.
pub open spec fn paired<T: Ordered>(first: Seq<T>, second: Seq<T>, step: Step<T>) -> bool {
    match step {
        Step::Both(a, b) => a.order(b) == Ordering::Equal,
        Step::First(a) => forall|j: int|
            0 <= j < second.len() ==> a.order(#[trigger] second[j]) != Ordering::Equal,
        Step::Second(b) => forall|i: int|
            0 <= i < first.len() ==> (#[trigger] first[i]).order(b) != Ordering::Equal,
    }
}

/// Whether two lists are sorted strictly, by an order that sorts them without contradiction.
spec fn both_sorted<T: Ordered>(all: Seq<T>, first: Seq<T>, second: Seq<T>) -> bool {
    &&& sort::orderly(all)
    &&& forall|i: int| 0 <= i < first.len() ==> all.contains(#[trigger] first[i])
    &&& forall|i: int| 0 <= i < second.len() ==> all.contains(#[trigger] second[i])
    &&& strictly_in_order(first)
    &&& strictly_in_order(second)
}

/// Whether a step is the first through two lists.
spec fn is_first_step<T: Ordered>(first: Seq<T>, second: Seq<T>, step: Step<T>) -> bool {
    match step {
        Step::Both(a, b) => first.len() > 0 && a == first[0] && second.len() > 0 && b == second[0]
            && a.order(b) == Ordering::Equal,
        Step::First(a) => first.len() > 0 && a == first[0] && (second.len() > 0 ==> a.order(
            second[0],
        ) == Ordering::Less),
        Step::Second(b) => second.len() > 0 && b == second[0] && (first.len() > 0
            ==> first[0].order(b) == Ordering::Greater),
    }
}

spec fn after_first<T>(items: Seq<T>, other: Seq<T>, step: Step<T>) -> (Seq<T>, Seq<T>) {
    match step {
        Step::Both(..) => (rest_of(items), rest_of(other)),
        Step::First(_) => (rest_of(items), other),
        Step::Second(_) => (items, rest_of(other)),
    }
}

proof fn lemma_first_step_paired<T: Ordered>(
    all: Seq<T>,
    first: Seq<T>,
    second: Seq<T>,
    step: Step<T>,
)
    requires
        both_sorted(all, first, second),
        is_first_step(first, second, step),
    ensures
        paired(first, second, step),
{
    match step {
        Step::Both(..) => {},
        Step::First(a) => lemma_behind_head(all, a, second),
        Step::Second(b) => lemma_behind_head(all, b, first),
    }
}

proof fn lemma_still_paired<T: Ordered>(
    all: Seq<T>,
    first: Seq<T>,
    second: Seq<T>,
    head: Step<T>,
    step: Step<T>,
)
    requires
        both_sorted(all, first, second),
        is_first_step(first, second, head),
        paired(after_first(first, second, head).0, after_first(first, second, head).1, step),
        match step {
            Step::First(a) => after_first(first, second, head).0.contains(a),
            Step::Second(b) => after_first(first, second, head).1.contains(b),
            Step::Both(..) => true,
        },
    ensures
        paired(first, second, step),
{
    let (rest1, rest2) = after_first(first, second, head);
    match head {
        Step::Both(a, b) => {
            lemma_behind_head(all, a, rest1);
            lemma_behind_head(all, b, rest2);
        },
        Step::First(a) => lemma_behind_head(all, a, second),
        Step::Second(b) => lemma_behind_head(all, b, first),
    }
    match step {
        Step::First(a) => {
            assert forall|j: int| 0 <= j < second.len() implies a.order(#[trigger] second[j])
                != Ordering::Equal by {
                lemma_alone(all, first, second, rest1, rest2, head, a, j);
            }
        },
        Step::Second(b) => {
            assert forall|i: int| 0 <= i < first.len() implies (#[trigger] first[i]).order(b)
                != Ordering::Equal by {
                lemma_alone_second(all, first, second, rest1, rest2, head, b, i);
            }
        },
        Step::Both(..) => {},
    }
}

proof fn lemma_rest_sorted<T: Ordered>(all: Seq<T>, first: Seq<T>, second: Seq<T>, head: Step<T>)
    requires
        both_sorted(all, first, second),
        is_first_step(first, second, head),
    ensures
        both_sorted(
            all,
            after_first(first, second, head).0,
            after_first(first, second, head).1,
        ),
{
}

/// Through two lists whose items come strictly one behind the other, in an order without
/// contradiction, the walk pairs exactly the equal items: what it takes together is equal,
/// and what it takes alone has no equal in the other list.
pub proof fn lemma_merge_pairs_equals<T: Ordered, F: Fn(T, T) -> Ordering>(
    all: Seq<T>,
    first: Seq<T>,
    second: Seq<T>,
    cmp: F,
    steps: Seq<Step<T>>,
)
    requires
        merged(first, second, cmp, steps),
        forall|a: T, b: T, result: Ordering|
            cmp.ensures((a, b), result) ==> result == a.order(b),
        sort::orderly(all),
        forall|i: int| 0 <= i < first.len() ==> all.contains(#[trigger] first[i]),
        forall|i: int| 0 <= i < second.len() ==> all.contains(#[trigger] second[i]),
        strictly_in_order(first),
        strictly_in_order(second),
    ensures
        forall|k: int| 0 <= k < steps.len() ==> paired(first, second, #[trigger] steps[k]),
    decreases steps.len(),
{
    if steps.len() > 0 {
        let (rest1, rest2) = after_first(first, second, steps[0]);
        let rest = steps.skip(1);
        assert(is_first_step(first, second, steps[0]));
        lemma_rest_sorted(all, first, second, steps[0]);
        lemma_merge_pairs_equals(all, rest1, rest2, cmp, rest);
        lemma_first_step_paired(all, first, second, steps[0]);
        assert forall|k: int| 0 <= k < steps.len() implies paired(
            first,
            second,
            #[trigger] steps[k],
        ) by {
            if k > 0 {
                assert(steps[k] == rest[k - 1]);
                lemma_steps_are_items(rest1, rest2, cmp, rest, k - 1);
                lemma_still_paired(all, first, second, steps[0], steps[k]);
            }
        }
    }
}

/// How many of the items are equal to a given one.
pub open spec fn copies<T: Ordered>(items: Seq<T>, x: T) -> nat
    decreases items.len(),
{
    if items.len() == 0 {
        0
    } else {
        let own: nat = if x.order(items[0]) == Ordering::Equal {
            1
        } else {
            0
        };
        own + copies(items.skip(1), x)
    }
}

/// How many pairs are taken of items that are equal to a given one, how many such items are
/// taken from the first list alone, and how many from the second alone.
pub open spec fn taken<T: Ordered>(steps: Seq<Step<T>>, x: T) -> (nat, nat, nat)
    decreases steps.len(),
{
    if steps.len() == 0 {
        (0, 0, 0)
    } else {
        let (both, first, second) = taken(steps.skip(1), x);
        match steps[0] {
            Step::Both(a, _) if x.order(a) == Ordering::Equal => (both + 1, first, second),
            Step::First(a) if x.order(a) == Ordering::Equal => (both, first + 1, second),
            Step::Second(b) if x.order(b) == Ordering::Equal => (both, first, second + 1),
            _ => (both, first, second),
        }
    }
}

proof fn lemma_no_copies<T: Ordered>(all: Seq<T>, head: T, items: Seq<T>, x: T)
    requires
        sort::orderly(all),
        all.contains(head),
        all.contains(x),
        forall|i: int| 0 <= i < items.len() ==> all.contains(#[trigger] items[i]),
        sort::in_order(items),
        items.len() > 0 ==> head.order(items[0]) == Ordering::Less,
        x.order(head) == Ordering::Equal,
    ensures
        copies(items, x) == 0,
    decreases items.len(),
{
    if items.len() > 0 {
        assert(items[0].order(head) == Ordering::Greater);
        if x.order(items[0]) == Ordering::Equal {
            assert(items[0].order(x) != Ordering::Greater);
            assert(items[0].order(head) != Ordering::Greater);
        }
        let rest = items.skip(1);
        if rest.len() > 0 {
            let next = rest[0];
            assert(next == items[1]);
            assert(items[0].order(next) != Ordering::Greater);
            assert(head.order(items[0]) != Ordering::Greater);
            assert(head.order(next) != Ordering::Greater);
            if head.order(next) == Ordering::Equal {
                assert(next.order(head) != Ordering::Greater);
                assert(items[0].order(head) != Ordering::Greater);
            }
        }
        assert forall|i: int| 0 <= i < rest.len() implies all.contains(#[trigger] rest[i]) by {
            assert(rest[i] == items[i + 1]);
        }
        assert(sort::in_order(rest));
        lemma_no_copies(all, head, rest, x);
    }
}

proof fn lemma_equal_alike<T: Ordered>(all: Seq<T>, x: T, a: T, b: T)
    requires
        sort::orderly(all),
        all.contains(x),
        all.contains(a),
        all.contains(b),
        a.order(b) == Ordering::Equal,
    ensures
        x.order(a) == Ordering::Equal <==> x.order(b) == Ordering::Equal,
{
    assert(b.order(a) != Ordering::Greater);
    if x.order(a) == Ordering::Equal {
        assert(a.order(x) != Ordering::Greater);
        assert(x.order(b) != Ordering::Greater);
        assert(b.order(x) != Ordering::Greater);
    }
    if x.order(b) == Ordering::Equal {
        assert(b.order(x) != Ordering::Greater);
        assert(x.order(a) != Ordering::Greater);
        assert(a.order(x) != Ordering::Greater);
    }
}

/// Through two lists that are sorted, by an order without contradiction, the walk pairs equal
/// items as long as both lists have one: of an item that stands `m` times in the first list
/// and `n` times in the second it takes as many pairs as the lesser of the two numbers says,
/// and the rest alone.
pub proof fn lemma_merge_pairs_copies<T: Ordered, F: Fn(T, T) -> Ordering>(
    all: Seq<T>,
    first: Seq<T>,
    second: Seq<T>,
    cmp: F,
    steps: Seq<Step<T>>,
    x: T,
)
    requires
        merged(first, second, cmp, steps),
        forall|a: T, b: T, result: Ordering|
            cmp.ensures((a, b), result) ==> result == a.order(b),
        sort::orderly(all),
        all.contains(x),
        forall|i: int| 0 <= i < first.len() ==> all.contains(#[trigger] first[i]),
        forall|i: int| 0 <= i < second.len() ==> all.contains(#[trigger] second[i]),
        sort::in_order(first),
        sort::in_order(second),
    ensures
        ({
            let (m, n) = (copies(first, x), copies(second, x));
            let (pairs, alone1, alone2) = taken(steps, x);
            &&& pairs == if m < n {
                m
            } else {
                n
            }
            &&& pairs + alone1 == m
            &&& pairs + alone2 == n
        }),
    decreases steps.len(),
{
    if steps.len() > 0 {
        let (rest1, rest2) = after_first(first, second, steps[0]);
        assert(is_first_step(first, second, steps[0]));
        lemma_merge_pairs_copies(all, rest1, rest2, cmp, steps.skip(1), x);
        match steps[0] {
            Step::Both(a, b) => lemma_equal_alike(all, x, a, b),
            Step::First(a) => {
                if x.order(a) == Ordering::Equal {
                    lemma_no_copies(all, a, second, x);
                }
            },
            Step::Second(b) => {
                if x.order(b) == Ordering::Equal {
                    lemma_no_copies(all, b, first, x);
                }
            },
        }
    }
}

/// Bytes are ordered like words in a dictionary: the first place where they differ decides, and
/// where one is the beginning of the other the shorter comes first.
pub proof fn lemma_first_difference_decides(a: Seq<u8>, b: Seq<u8>, k: int)
    requires
        0 <= k <= a.len(),
        k <= b.len(),
        forall|i: int| 0 <= i < k ==> a[i] == b[i],
    ensures
        k < a.len() && k < b.len() && a[k] < b[k] ==> bytes_order(a, b) == Ordering::Less,
        k < a.len() && k < b.len() && a[k] > b[k] ==> bytes_order(a, b) == Ordering::Greater,
        k == a.len() && k < b.len() ==> bytes_order(a, b) == Ordering::Less,
        k == b.len() && k < a.len() ==> bytes_order(a, b) == Ordering::Greater,
        k == a.len() && k == b.len() ==> bytes_order(a, b) == Ordering::Equal,
    decreases k,
{
    if k > 0 {
        lemma_first_difference_decides(a.skip(1), b.skip(1), k - 1);
    }
}

/// A missing name comes before every other, and names that are there are ordered by their
/// bytes.
pub proof fn lemma_missing_name_comes_first(a: Name, b: Name)
    ensures
        a is None && b is Some ==> name_order(a, b) == Ordering::Less,
        a is Some && b is None ==> name_order(a, b) == Ordering::Greater,
        a is None && b is None ==> name_order(a, b) == Ordering::Equal,
        a is Some && b is Some ==> name_order(a, b) == bytes_order(a->0@, b->0@),
{
}

/// Of two paths of one length the outermost names that differ decide, and paths without such
/// names are equal.
pub proof fn lemma_outermost_difference_decides(a: Seq<Name>, b: Seq<Name>, k: int)
    requires
        a.len() == b.len(),
        0 <= k <= a.len(),
        forall|i: int| 0 <= i < k ==> name_order(#[trigger] a[i], b[i]) == Ordering::Equal,
    ensures
        k < a.len() && name_order(a[k], b[k]) != Ordering::Equal ==> path_order(a, b) == name_order(
            a[k],
            b[k],
        ),
        k == a.len() ==> path_order(a, b) == Ordering::Equal,
    decreases a.len(),
{
    if a.len() > 0 {
        let (front1, front2) = (a.drop_last(), b.drop_last());
        assert(forall|i: int| 0 <= i < front1.len() ==> front1[i] == a[i] && front2[i] == b[i]);
        if k < a.len() {
            lemma_outermost_difference_decides(front1, front2, k);
        } else {
            lemma_outermost_difference_decides(front1, front2, k - 1);
            assert(name_order(a[k - 1], b[k - 1]) == Ordering::Equal);
        }
    }
}

/// Between names the namespaces decide, and in one namespace the names do.
pub proof fn lemma_namespaces_decide_first(
    path1: Seq<Name>,
    name1: Name,
    path2: Seq<Name>,
    name2: Name,
)
    ensures
        path_order(path1, path2) != Ordering::Equal ==> qualified_order(path1, name1, path2, name2)
            == path_order(path1, path2),
        path1 == path2 ==> qualified_order(path1, name1, path2, name2) == name_order(name1, name2),
{
    lemma_path_order_is_reversible(path1, path1);
}

} // verus!

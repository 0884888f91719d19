//! The order of units, types, subprograms and variables.

use crate::namespace::{Name, Namespace};
use crate::order;
use crate::order::{cmp_name, cmp_ns_and_name};
use crate::sort;
use crate::sort::Ordered;
use crate::subprogram::{Subprogram, Variable};
use crate::types::{Type, TypeKind};
use crate::unit::Unit;
use std::cmp::Ordering;
use std::rc::Rc;
use vstd::prelude::*;

verus! {

/// The order of two numbers.
pub open spec fn number_order(a: u8, b: u8) -> Ordering {
    if a < b {
        Ordering::Less
    } else if a > b {
        Ordering::Greater
    } else {
        Ordering::Equal
    }
}

impl<'input> Ordered for Type<'input> {
    /// Types of different kinds stand in the order of the kinds. Two type definitions, two
    /// structures, two unions and two enumerations are ordered by their names and
    /// namespaces; two types of any other one kind are equal.
    open spec fn order(self, other: Self) -> Ordering {
        match (self.kind, other.kind) {
            (TypeKind::TypeDef(a), TypeKind::TypeDef(b)) => order::qualified_order(
                a.namespace.path(),
                a.name,
                b.namespace.path(),
                b.name,
            ),
            (TypeKind::Struct(a), TypeKind::Struct(b)) => order::qualified_order(
                a.namespace.path(),
                a.name,
                b.namespace.path(),
                b.name,
            ),
            (TypeKind::Union(a), TypeKind::Union(b)) => order::qualified_order(
                a.namespace.path(),
                a.name,
                b.namespace.path(),
                b.name,
            ),
            (TypeKind::Enumeration(a), TypeKind::Enumeration(b)) => order::qualified_order(
                a.namespace.path(),
                a.name,
                b.namespace.path(),
                b.name,
            ),
            _ => number_order(self.kind.rank(), other.kind.rank()),
        }
    }

    fn compare(&self, other: &Self) -> (order: Ordering) {
        cmp_type(self, other)
    }
}

/// Compares two types.
pub fn cmp_type(a: &Type, b: &Type) -> (order: Ordering)
    ensures
        order == a.order(*b),
{
    match (&a.kind, &b.kind) {
        (TypeKind::TypeDef(a), TypeKind::TypeDef(b)) => {
            cmp_ns_and_name(&a.namespace, a.name, &b.namespace, b.name)
        },
        (TypeKind::Struct(a), TypeKind::Struct(b)) => {
            cmp_ns_and_name(&a.namespace, a.name, &b.namespace, b.name)
        },
        (TypeKind::Union(a), TypeKind::Union(b)) => {
            cmp_ns_and_name(&a.namespace, a.name, &b.namespace, b.name)
        },
        (TypeKind::Enumeration(a), TypeKind::Enumeration(b)) => {
            cmp_ns_and_name(&a.namespace, a.name, &b.namespace, b.name)
        },
        _ => {
            let first: u8 = a.kind.discriminant_value();
            let second: u8 = b.kind.discriminant_value();
            if first < second {
                Ordering::Less
            } else if first > second {
                Ordering::Greater
            } else {
                Ordering::Equal
            }
        },
    }
}

impl<'input> Ordered for Subprogram<'input> {
    /// Subprograms are ordered by their names and namespaces.
    open spec fn order(self, other: Self) -> Ordering {
        order::qualified_order(
            self.namespace.path(),
            self.name,
            other.namespace.path(),
            other.name,
        )
    }

    fn compare(&self, other: &Self) -> (order: Ordering) {
        cmp_subprogram(self, other)
    }
}

/// Compares two subprograms.
pub fn cmp_subprogram(a: &Subprogram, b: &Subprogram) -> (order: Ordering)
    ensures
        order == a.order(*b),
{
    cmp_ns_and_name(&a.namespace, a.name, &b.namespace, b.name)
}

impl<'input> Ordered for Variable<'input> {
    /// Variables are ordered by their names and namespaces.
    open spec fn order(self, other: Self) -> Ordering {
        order::qualified_order(
            self.namespace.path(),
            self.name,
            other.namespace.path(),
            other.name,
        )
    }

    fn compare(&self, other: &Self) -> (order: Ordering) {
        cmp_variable(self, other)
    }
}

/// Compares two variables.
pub fn cmp_variable(a: &Variable, b: &Variable) -> (order: Ordering)
    ensures
        order == a.order(*b),
{
    cmp_ns_and_name(&a.namespace, a.name, &b.namespace, b.name)
}

impl<'input> Ordered for Unit<'input> {
    /// Units are ordered by their names.
    open spec fn order(self, other: Self) -> Ordering {
        order::name_order(self.name, other.name)
    }

    fn compare(&self, other: &Self) -> (order: Ordering) {
        cmp_unit(self, other)
    }
}

/// Compares two units.
pub fn cmp_unit(a: &Unit, b: &Unit) -> (order: Ordering)
    ensures
        order == a.order(*b),
{
    cmp_name(a.name, b.name)
}

/// The order of units sorts any of them without contradiction.
pub proof fn lemma_units_are_orderly(units: Seq<Unit>)
    ensures
        sort::orderly(units),
{
    assert forall|a: Unit, b: Unit|
        #![trigger a.order(b)]
        a.order(b) == Ordering::Greater <==> b.order(a) == Ordering::Less by {
        order::lemma_name_order_is_total(a.name, b.name, None);
    }
    assert forall|a: Unit, b: Unit, c: Unit|
        #![trigger a.order(b), b.order(c)]
        a.order(b) != Ordering::Greater && b.order(c) != Ordering::Greater implies a.order(c)
        != Ordering::Greater by {
        order::lemma_name_order_is_total(a.name, b.name, c.name);
        order::lemma_name_order_is_total(c.name, b.name, a.name);
        order::lemma_name_order_is_total(b.name, c.name, a.name);
        order::lemma_name_order_is_total(a.name, c.name, b.name);
    }
}

/// Whether all of these types that have a name stand at one depth of namespaces, each kind
/// at its own.
pub open spec fn level<'input>(types: Seq<Type<'input>>) -> bool {
    forall|i: int, j: int|
        0 <= i < types.len() && 0 <= j < types.len() ==> match (
            (#[trigger] types[i]).kind,
            (#[trigger] types[j]).kind,
        ) {
            (TypeKind::TypeDef(a), TypeKind::TypeDef(b)) => a.namespace.path().len()
                == b.namespace.path().len(),
            (TypeKind::Struct(a), TypeKind::Struct(b)) => a.namespace.path().len()
                == b.namespace.path().len(),
            (TypeKind::Union(a), TypeKind::Union(b)) => a.namespace.path().len()
                == b.namespace.path().len(),
            (TypeKind::Enumeration(a), TypeKind::Enumeration(b)) => a.namespace.path().len()
                == b.namespace.path().len(),
            _ => true,
        }
}

proof fn lemma_qualified_transitive<'input>(
    p1: Seq<Name<'input>>,
    n1: Name<'input>,
    p2: Seq<Name<'input>>,
    n2: Name<'input>,
    p3: Seq<Name<'input>>,
    n3: Name<'input>,
)
    requires
        p1.len() == p2.len() == p3.len(),
        order::qualified_order(p1, n1, p2, n2) != Ordering::Greater,
        order::qualified_order(p2, n2, p3, n3) != Ordering::Greater,
    ensures
        order::qualified_order(p1, n1, p3, n3) != Ordering::Greater,
{
    order::lemma_path_order_is_reversible(p1, p2);
    order::lemma_path_order_is_reversible(p2, p3);
    order::lemma_path_order_is_reversible(p1, p3);
    order::lemma_path_order_is_transitive(p1, p2, p3);
    order::lemma_path_order_is_transitive(p2, p3, p1);
    order::lemma_path_order_is_transitive(p3, p2, p1);
    order::lemma_name_order_is_total(n1, n2, n3);
    order::lemma_name_order_is_total(n2, n3, n1);
    order::lemma_name_order_is_total(n3, n2, n1);
    order::lemma_name_order_is_total(n1, n3, n2);
}

/// The order of types sorts without contradiction any types that stand at one depth of
/// namespaces, each kind at its own.
pub proof fn lemma_level_types_are_orderly(types: Seq<Type>)
    requires
        level(types),
    ensures
        sort::orderly(types),
{
    assert forall|a: Type, b: Type|
        #![trigger a.order(b)]
        a.order(b) == Ordering::Greater <==> b.order(a) == Ordering::Less by {
        match (a.kind, b.kind) {
            (TypeKind::TypeDef(a), TypeKind::TypeDef(b)) => {
                order::lemma_qualified_order_is_reversible(
                    a.namespace.path(),
                    a.name,
                    b.namespace.path(),
                    b.name,
                );
            },
            (TypeKind::Struct(a), TypeKind::Struct(b)) => {
                order::lemma_qualified_order_is_reversible(
                    a.namespace.path(),
                    a.name,
                    b.namespace.path(),
                    b.name,
                );
            },
            (TypeKind::Union(a), TypeKind::Union(b)) => {
                order::lemma_qualified_order_is_reversible(
                    a.namespace.path(),
                    a.name,
                    b.namespace.path(),
                    b.name,
                );
            },
            (TypeKind::Enumeration(a), TypeKind::Enumeration(b)) => {
                order::lemma_qualified_order_is_reversible(
                    a.namespace.path(),
                    a.name,
                    b.namespace.path(),
                    b.name,
                );
            },
            _ => {},
        }
    }
    assert forall|a: Type, b: Type, c: Type|
        #![trigger a.order(b), b.order(c)]
        types.contains(a) && types.contains(b) && types.contains(c) && a.order(b)
            != Ordering::Greater && b.order(c) != Ordering::Greater implies a.order(c)
        != Ordering::Greater by {
        let i = choose|i: int| 0 <= i < types.len() && types[i] == a;
        let j = choose|j: int| 0 <= j < types.len() && types[j] == b;
        let k = choose|k: int| 0 <= k < types.len() && types[k] == c;
        assert(types[i] == a && types[j] == b && types[k] == c);
        match (a.kind, b.kind, c.kind) {
            (TypeKind::TypeDef(x), TypeKind::TypeDef(y), TypeKind::TypeDef(z)) => {
                lemma_qualified_transitive(
                    x.namespace.path(),
                    x.name,
                    y.namespace.path(),
                    y.name,
                    z.namespace.path(),
                    z.name,
                );
            },
            (TypeKind::Struct(x), TypeKind::Struct(y), TypeKind::Struct(z)) => {
                lemma_qualified_transitive(
                    x.namespace.path(),
                    x.name,
                    y.namespace.path(),
                    y.name,
                    z.namespace.path(),
                    z.name,
                );
            },
            (TypeKind::Union(x), TypeKind::Union(y), TypeKind::Union(z)) => {
                lemma_qualified_transitive(
                    x.namespace.path(),
                    x.name,
                    y.namespace.path(),
                    y.name,
                    z.namespace.path(),
                    z.name,
                );
            },
            (
                TypeKind::Enumeration(x),
                TypeKind::Enumeration(y),
                TypeKind::Enumeration(z),
            ) => {
                lemma_qualified_transitive(
                    x.namespace.path(),
                    x.name,
                    y.namespace.path(),
                    y.name,
                    z.namespace.path(),
                    z.name,
                );
            },
            _ => {},
        }
    }
}

proof fn lemma_one_depth_is_orderly<'input, T: Ordered>(
    items: Seq<T>,
    path: spec_fn(T) -> Seq<Name<'input>>,
    name: spec_fn(T) -> Name<'input>,
    depth: nat,
)
    requires
        forall|a: T, b: T| #[trigger]
            a.order(b) == order::qualified_order(path(a), name(a), path(b), name(b)),
        forall|i: int| 0 <= i < items.len() ==> path(#[trigger] items[i]).len() == depth,
    ensures
        sort::orderly(items),
{
    assert forall|a: T, b: T|
        #![trigger a.order(b)]
        a.order(b) == Ordering::Greater <==> b.order(a) == Ordering::Less by {
        order::lemma_qualified_order_is_reversible(path(a), name(a), path(b), name(b));
    }
    assert forall|a: T, b: T, c: T|
        #![trigger a.order(b), b.order(c)]
        items.contains(a) && items.contains(b) && items.contains(c) && a.order(b)
            != Ordering::Greater && b.order(c) != Ordering::Greater implies a.order(c)
        != Ordering::Greater by {
        lemma_qualified_transitive(path(a), name(a), path(b), name(b), path(c), name(c));
    }
}

/// The order of subprograms sorts without contradiction any that stand at one depth of
/// namespaces.
pub proof fn lemma_level_subprograms_are_orderly(subprograms: Seq<Subprogram>, depth: nat)
    requires
        forall|i: int|
            0 <= i < subprograms.len() ==> (#[trigger] subprograms[i]).namespace.path().len()
                == depth,
    ensures
        sort::orderly(subprograms),
{
    lemma_one_depth_is_orderly(
        subprograms,
        |subprogram: Subprogram| subprogram.namespace.path(),
        |subprogram: Subprogram| subprogram.name,
        depth,
    );
}

/// The order of variables sorts without contradiction any that stand at one depth of
/// namespaces.
pub proof fn lemma_level_variables_are_orderly(variables: Seq<Variable>, depth: nat)
    requires
        forall|i: int|
            0 <= i < variables.len() ==> (#[trigger] variables[i]).namespace.path().len() == depth,
    ensures
        sort::orderly(variables),
{
    lemma_one_depth_is_orderly(
        variables,
        |variable: Variable| variable.namespace.path(),
        |variable: Variable| variable.name,
        depth,
    );
}

spec fn decided_by_names(
    namespace1: Rc<Namespace>,
    name1: Name,
    namespace2: Rc<Namespace>,
    name2: Name,
) -> bool {
    let (path1, path2) = (namespace1.path(), namespace2.path());
    let order = order::qualified_order(path1, name1, path2, name2);
    &&& order::path_order(path1, path2) != Ordering::Equal ==> order == order::path_order(
        path1,
        path2,
    )
    &&& path1 == path2 ==> order == order::name_order(name1, name2)
}

proof fn lemma_all_decided_by_names()
    ensures
        forall|
            namespace1: Rc<Namespace>,
            name1: Name,
            namespace2: Rc<Namespace>,
            name2: Name,
        | #[trigger]
            decided_by_names(namespace1, name1, namespace2, name2),
{
    assert forall|
        namespace1: Rc<Namespace>,
        name1: Name,
        namespace2: Rc<Namespace>,
        name2: Name,
    | #[trigger]
        decided_by_names(namespace1, name1, namespace2, name2) by {
        let (path1, path2) = (namespace1.path(), namespace2.path());
        order::lemma_namespaces_decide_first(path1, name1, path2, name2);
    }
}

/// The path and the name of a type of a kind that is sorted by name.
pub open spec fn sorting_name<'input>(ty: Type<'input>) -> Option<(Seq<Name<'input>>, Name<'input>)> {
    match ty.kind {
        TypeKind::TypeDef(val) => Some((val.namespace.path(), val.name)),
        TypeKind::Struct(val) => Some((val.namespace.path(), val.name)),
        TypeKind::Union(val) => Some((val.namespace.path(), val.name)),
        TypeKind::Enumeration(val) => Some((val.namespace.path(), val.name)),
        _ => None,
    }
}

/// Whether two types are of one kind.
pub open spec fn alike(a: Type, b: Type) -> bool {
    match (a.kind, b.kind) {
        (TypeKind::Base(_), TypeKind::Base(_)) => true,
        (TypeKind::TypeDef(_), TypeKind::TypeDef(_)) => true,
        (TypeKind::Struct(_), TypeKind::Struct(_)) => true,
        (TypeKind::Union(_), TypeKind::Union(_)) => true,
        (TypeKind::Enumeration(_), TypeKind::Enumeration(_)) => true,
        (TypeKind::Array(_), TypeKind::Array(_)) => true,
        (TypeKind::Subroutine(_), TypeKind::Subroutine(_)) => true,
        (TypeKind::Modifier(_), TypeKind::Modifier(_)) => true,
        (TypeKind::Unimplemented(_), TypeKind::Unimplemented(_)) => true,
        _ => false,
    }
}

/// Two type definitions, two structures, two unions and two enumerations are ordered by their
/// names where they stand in one namespace, and by their namespaces where these differ in the
/// order. In one namespace they count as equal only where their names are the same.
pub proof fn lemma_types_of_one_kind_by_name(a: Type, b: Type)
    requires
        alike(a, b),
        sorting_name(a) is Some,
    ensures
        ({
            let (path1, name1) = sorting_name(a)->0;
            let (path2, name2) = sorting_name(b)->0;
            &&& path1 == path2 ==> a.order(b) == order::name_order(name1, name2)
            &&& path1 == path2 && a.order(b) == Ordering::Equal ==> match (name1, name2) {
                (None, None) => true,
                (Some(bytes1), Some(bytes2)) => bytes1@ == bytes2@,
                _ => false,
            }
            &&& order::path_order(path1, path2) != Ordering::Equal ==> a.order(b)
                == order::path_order(path1, path2)
        }),
{
    let (path1, name1) = sorting_name(a)->0;
    let (path2, name2) = sorting_name(b)->0;
    order::lemma_namespaces_decide_first(path1, name1, path2, name2);
    order::lemma_name_order_is_total(name1, name2, None);
}

/// Types of different kinds never count as equal, whatever they are called: base types come
/// first, and then type definitions, structures, unions, enumerations, arrays, the types of
/// subroutines, modified types and all others. Two types of a kind without a place for names
/// count as equal.
pub proof fn lemma_kinds_decide_first(a: Type, b: Type)
    ensures
        !alike(a, b) ==> a.order(b) != Ordering::Equal,
        alike(a, b) && sorting_name(a) is None ==> a.order(b) == Ordering::Equal,
        !alike(a, b) && a.kind is Base ==> a.order(b) == Ordering::Less,
        b.kind is TypeDef && (a.kind is Struct || a.kind is Union || a.kind is Enumeration)
            ==> a.order(b) == Ordering::Greater,
        a.kind is Struct && (b.kind is Union || b.kind is Enumeration) ==> a.order(b)
            == Ordering::Less,
        a.kind is Union && b.kind is Enumeration ==> a.order(b) == Ordering::Less,
        sorting_name(a) is Some && (b.kind is Array || b.kind is Subroutine || b.kind is Modifier)
            ==> a.order(b) == Ordering::Less,
        a.kind is Array && (b.kind is Subroutine || b.kind is Modifier) ==> a.order(b)
            == Ordering::Less,
        a.kind is Subroutine && b.kind is Modifier ==> a.order(b) == Ordering::Less,
        !alike(a, b) && b.kind is Unimplemented ==> a.order(b) == Ordering::Less,
{
}

/// Subprograms and variables are ordered by their names where they stand in one namespace, and
/// by their namespaces where these differ in the order. Units are ordered by their names.
pub proof fn lemma_others_by_name(
    a: Subprogram,
    b: Subprogram,
    x: Variable,
    y: Variable,
    first: Unit,
    second: Unit,
)
    ensures
        a.namespace.path() == b.namespace.path() ==> a.order(b) == order::name_order(
            a.name,
            b.name,
        ),
        order::path_order(a.namespace.path(), b.namespace.path()) != Ordering::Equal ==> a.order(b)
            == order::path_order(a.namespace.path(), b.namespace.path()),
        x.namespace.path() == y.namespace.path() ==> x.order(y) == order::name_order(
            x.name,
            y.name,
        ),
        order::path_order(x.namespace.path(), y.namespace.path()) != Ordering::Equal ==> x.order(y)
            == order::path_order(x.namespace.path(), y.namespace.path()),
        first.order(second) == order::name_order(first.name, second.name),
{
    assert(decided_by_names(a.namespace, a.name, b.namespace, b.name)) by {
        lemma_all_decided_by_names();
    }
    assert(decided_by_names(x.namespace, x.name, y.namespace, y.name)) by {
        lemma_all_decided_by_names();
    }
}

/// After sorting, types of one kind in one namespace stand in ascending order of their names,
/// and no base type stands behind a type of another kind.
pub proof fn lemma_sorted_types_ascend<'input>(
    before: Seq<Type<'input>>,
    after: Seq<Type<'input>>,
    i: int,
    j: int,
)
    requires
        level(before),
        sort::sorted_from(before, after),
        0 <= i < j < after.len(),
    ensures
        alike(after[i], after[j]) && sorting_name(after[i]) is Some ==> {
            let (path1, name1) = sorting_name(after[i])->0;
            let (path2, name2) = sorting_name(after[j])->0;
            path1 == path2 ==> order::name_order(name1, name2) != Ordering::Greater
        },
        !alike(after[i], after[j]) ==> after[i].order(after[j]) == Ordering::Less,
        after[j].kind is Base ==> after[i].kind is Base,
        after[i].kind is Unimplemented ==> after[j].kind is Unimplemented,
{
    let (a, b) = (after[i], after[j]);
    lemma_level_types_are_orderly(before);
    assert(a.order(b) != Ordering::Greater);
    if alike(a, b) && sorting_name(a) is Some {
        lemma_types_of_one_kind_by_name(a, b);
    }
    lemma_kinds_decide_first(a, b);
    lemma_kinds_decide_first(b, a);
}

/// After sorting, subprograms in one namespace stand in ascending order of their names.
pub proof fn lemma_sorted_subprograms_ascend<'input>(
    before: Seq<Subprogram<'input>>,
    after: Seq<Subprogram<'input>>,
    depth: nat,
    i: int,
    j: int,
)
    requires
        forall|k: int|
            0 <= k < before.len() ==> (#[trigger] before[k]).namespace.path().len() == depth,
        sort::sorted_from(before, after),
        0 <= i < j < after.len(),
        after[i].namespace.path() == after[j].namespace.path(),
    ensures
        order::name_order(after[i].name, after[j].name) != Ordering::Greater,
{
    lemma_level_subprograms_are_orderly(before, depth);
    assert(after[i].order(after[j]) != Ordering::Greater);
    assert(decided_by_names(after[i].namespace, after[i].name, after[j].namespace, after[j].name)) by {
        lemma_all_decided_by_names();
    }
}

/// After sorting, variables in one namespace stand in ascending order of their names.
pub proof fn lemma_sorted_variables_ascend<'input>(
    before: Seq<Variable<'input>>,
    after: Seq<Variable<'input>>,
    depth: nat,
    i: int,
    j: int,
)
    requires
        forall|k: int|
            0 <= k < before.len() ==> (#[trigger] before[k]).namespace.path().len() == depth,
        sort::sorted_from(before, after),
        0 <= i < j < after.len(),
        after[i].namespace.path() == after[j].namespace.path(),
    ensures
        order::name_order(after[i].name, after[j].name) != Ordering::Greater,
{
    lemma_level_variables_are_orderly(before, depth);
    assert(after[i].order(after[j]) != Ordering::Greater);
    assert(decided_by_names(after[i].namespace, after[i].name, after[j].namespace, after[j].name)) by {
        lemma_all_decided_by_names();
    }
}

/// After sorting, units stand in ascending order of their names.
pub proof fn lemma_sorted_units_ascend<'input>(
    before: Seq<Unit<'input>>,
    after: Seq<Unit<'input>>,
    i: int,
    j: int,
)
    requires
        sort::sorted_from(before, after),
        0 <= i < j < after.len(),
    ensures
        order::name_order(after[i].name, after[j].name) != Ordering::Greater,
{
    lemma_units_are_orderly(before);
    assert(after[i].order(after[j]) != Ordering::Greater);
}

} // verus!

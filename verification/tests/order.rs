use ddbug::compare::{cmp_subprogram, cmp_type, cmp_unit, cmp_variable};
use ddbug::namespace::{filter_name, write_lossy, write_name, Name, Namespace};
use ddbug::order::{cmp_name, cmp_namespace, cmp_ns_and_name, merge, Step};
use ddbug::sort::sort;
use ddbug::subprogram::{Subprogram, Variable};
use ddbug::types::{BaseType, StructType, Type, TypeDef, TypeKind, UnionType};
use ddbug::unit::Unit;
use std::cmp::Ordering;
use std::rc::Rc;

fn path(names: &[Option<&'static str>]) -> Rc<Namespace<'static>> {
    let mut namespace = Namespace::root();
    for name in names {
        namespace = Namespace::new(&namespace, name.map(|n| n.as_bytes()));
    }
    namespace
}

fn subprogram(namespace: &Rc<Namespace<'static>>, name: Name<'static>, offset: usize) -> Subprogram<'static> {
    Subprogram {
        offset,
        namespace: namespace.clone(),
        name,
        linkage_name: None,
        low_pc: None,
        high_pc: None,
        size: None,
        inline: false,
        declaration: false,
        parameters: vec![],
        return_type: None,
        inlined_subroutines: vec![],
        variables: vec![],
        calls: vec![],
    }
}

fn variable(namespace: &Rc<Namespace<'static>>, name: Name<'static>) -> Variable<'static> {
    Variable {
        namespace: namespace.clone(),
        name,
        linkage_name: None,
        ty: None,
        declaration: false,
    }
}

fn structure(namespace: &Rc<Namespace<'static>>, name: Name<'static>, offset: usize) -> Type<'static> {
    Type {
        offset,
        kind: TypeKind::Struct(StructType {
            namespace: namespace.clone(),
            name,
            byte_size: None,
            declaration: false,
            members: vec![],
            subprograms: vec![],
        }),
    }
}

fn unit(name: Name<'static>) -> Unit<'static> {
    Unit {
        dir: None,
        name,
        language: None,
        address_size: None,
        low_pc: None,
        high_pc: None,
        size: None,
        types: vec![],
        subprograms: vec![],
        variables: vec![],
    }
}

#[test]
fn names_in_order() {
    let names: [Name; 6] = [None, Some(b""), Some(b"a"), Some(b"a\0"), Some(b"ab"), Some(b"b")];
    for i in 0..names.len() {
        for j in 0..names.len() {
            assert_eq!(cmp_name(names[i], names[j]), i.cmp(&j));
        }
    }
}

#[test]
fn name_filter() {
    assert!(filter_name(Some(b"main"), "main"));
    assert!(!filter_name(Some(b"main2"), "main"));
    assert!(!filter_name(Some(b"maim"), "main"));
    assert!(!filter_name(None, ""));
    assert!(filter_name(Some(b""), ""));
}

#[test]
fn namespace_filter() {
    let inner = path(&[Some("a"), None, Some("c")]);
    assert!(inner.filter(&[]));
    assert!(inner.filter(&["a"]));
    assert!(!inner.filter(&["b"]));
    assert!(!inner.filter(&["a", "b"]));
    assert!(!inner.filter(&["a", ""]));
    let other = path(&[Some("a"), Some("b"), Some("c")]);
    assert!(other.filter(&["a", "b"]));
    assert!(other.filter(&["a", "b", "c"]));
    assert!(!other.filter(&["a", "b", "c", "d"]));
    assert!(Namespace::root().filter(&[]));
    assert!(!Namespace::root().filter(&["a"]));
}

#[test]
fn namespace_text() {
    let mut w = String::new();
    path(&[Some("std"), None, Some("vec")]).print(&mut w);
    assert_eq!(w, "std::<anon>::vec::");
    let mut w = String::new();
    Namespace::root().print(&mut w);
    assert_eq!(w, "");
}

#[test]
fn names_as_text() {
    let mut w = String::new();
    write_lossy(&mut w, "caf\u{e9}".as_bytes());
    write_lossy(&mut w, b" \xff\xfe!");
    write_name(&mut w, None, "<nobody>");
    write_name(&mut w, Some(b"x"), "<nobody>");
    assert_eq!(w, "caf\u{e9} \u{fffd}\u{fffd}!<nobody>x");
}

#[test]
fn namespaces_in_order() {
    let root = Namespace::root();
    let a = path(&[Some("a")]);
    let b = path(&[Some("b")]);
    let ab = path(&[Some("a"), Some("b")]);
    let ba = path(&[Some("b"), Some("a")]);
    assert_eq!(cmp_namespace(&a, &b), Ordering::Less);
    assert_eq!(cmp_namespace(&b, &a), Ordering::Greater);
    assert_eq!(cmp_namespace(&a, &a), Ordering::Equal);
    assert_eq!(cmp_namespace(&ab, &ba), Ordering::Less);
    assert_eq!(cmp_namespace(&ba, &ab), Ordering::Greater);
    // The ends of paths of different lengths are compared.
    assert_eq!(cmp_namespace(&root, &b), Ordering::Equal);
    assert_eq!(cmp_namespace(&a, &ba), Ordering::Equal);
    assert_eq!(cmp_namespace(&a, &ab), Ordering::Less);
    assert_eq!(cmp_ns_and_name(&a, Some(b"z"), &b, Some(b"a")), Ordering::Less);
    assert_eq!(cmp_ns_and_name(&a, Some(b"z"), &a, Some(b"a")), Ordering::Greater);
    assert_eq!(cmp_ns_and_name(&a, None, &a, Some(b"a")), Ordering::Less);
}

#[test]
fn declarations_in_order() {
    let a = path(&[Some("a")]);
    let b = path(&[Some("b")]);
    assert_eq!(
        cmp_subprogram(&subprogram(&a, Some(b"z"), 0), &subprogram(&b, Some(b"y"), 0)),
        Ordering::Less
    );
    assert_eq!(cmp_variable(&variable(&a, Some(b"z")), &variable(&a, Some(b"y"))), Ordering::Greater);
    assert_eq!(cmp_unit(&unit(Some(b"a.c")), &unit(Some(b"b.c"))), Ordering::Less);
    assert_eq!(cmp_unit(&unit(None), &unit(None)), Ordering::Equal);
    let base = |offset| Type {
        offset,
        kind: TypeKind::Base(BaseType { name: Some(b"int"), byte_size: Some(4) }),
    };
    let typedef = Type {
        offset: 3,
        kind: TypeKind::TypeDef(TypeDef { namespace: a.clone(), name: Some(b"t"), ty: None }),
    };
    let union_type = Type {
        offset: 4,
        kind: TypeKind::Union(UnionType {
            namespace: a.clone(),
            name: Some(b"a"),
            byte_size: None,
            declaration: false,
            members: vec![],
            subprograms: vec![],
        }),
    };
    assert_eq!(cmp_type(&base(1), &base(2)), Ordering::Equal);
    assert_eq!(cmp_type(&base(1), &typedef), Ordering::Less);
    assert_eq!(cmp_type(&typedef, &typedef), Ordering::Equal);
    assert_eq!(cmp_type(&union_type, &structure(&a, Some(b"z"), 0)), Ordering::Greater);
    assert_eq!(
        cmp_type(&structure(&a, Some(b"y"), 0), &structure(&a, Some(b"z"), 0)),
        Ordering::Less
    );
    assert_eq!(cmp_type(&Type { offset: 0, kind: TypeKind::Unimplemented(1) }, &union_type), Ordering::Greater);
}

#[test]
fn sorting_keeps_equals_in_order() {
    let root = Namespace::root();
    let mut list: Vec<Subprogram> = vec![];
    for i in 0..50 {
        let names: [Name; 4] = [Some(b"c"), Some(b"a"), None, Some(b"b")];
        list.push(subprogram(&root, names[(i * 7) % 4], i));
    }
    let mut expected: Vec<(Name, usize)> = list.iter().map(|s| (s.name, s.offset)).collect();
    expected.sort();
    sort(&mut list);
    let sorted: Vec<(Name, usize)> = list.iter().map(|s| (s.name, s.offset)).collect();
    assert_eq!(sorted, expected);
}

#[test]
fn sorting_keeps_the_items_of_a_contradictory_order() {
    // Each of these comes before the next, and the last is equal to the first.
    let mut list = vec![
        structure(&path(&[Some("b")]), Some(b"x"), 0),
        structure(&path(&[Some("a"), Some("b")]), Some(b"y"), 1),
        structure(&Namespace::root(), Some(b"x"), 2),
        structure(&path(&[Some("a")]), Some(b"z"), 3),
    ];
    sort(&mut list);
    let mut offsets: Vec<usize> = list.iter().map(|t| t.offset).collect();
    offsets.sort();
    assert_eq!(offsets, vec![0, 1, 2, 3]);
    let mut empty: Vec<Type> = vec![];
    sort(&mut empty);
    assert!(empty.is_empty());
}

#[test]
fn merge_pairs_equal_items() {
    let steps = merge(&[1, 3, 5, 7], &[2, 3, 3, 7, 9], |a: i32, b: i32| a.cmp(&b));
    assert_eq!(
        steps,
        vec![
            Step::First(1),
            Step::Second(2),
            Step::Both(3, 3),
            Step::Second(3),
            Step::First(5),
            Step::Both(7, 7),
            Step::Second(9),
        ]
    );
    assert_eq!(merge(&[], &[], |a: u8, b: u8| a.cmp(&b)), vec![]);
    assert_eq!(merge(&[1u8], &[], |a, b| a.cmp(&b)), vec![Step::First(1)]);
    assert_eq!(merge(&[], &[1u8], |a, b| a.cmp(&b)), vec![Step::Second(1)]);
}

#[test]
fn merge_pairs_as_many_as_both_have() {
    let steps = merge(&[1, 2, 2, 2, 4, 4], &[2, 2, 3, 4, 4, 4, 4], |a: i32, b: i32| a.cmp(&b));
    assert_eq!(
        steps,
        vec![
            Step::First(1),
            Step::Both(2, 2),
            Step::Both(2, 2),
            Step::First(2),
            Step::Second(3),
            Step::Both(4, 4),
            Step::Both(4, 4),
            Step::Second(4),
            Step::Second(4),
        ]
    );
}

#[test]
fn merge_keeps_both_lists() {
    // Even where the comparison makes no sense.
    let first = [5, 1, 4];
    let second = [2, 2, 0, 9];
    let steps = merge(&first, &second, |a: i32, b: i32| {
        if (a + b) % 3 == 0 {
            Ordering::Equal
        } else if (a + b) % 3 == 1 {
            Ordering::Less
        } else {
            Ordering::Greater
        }
    });
    let mut taken1 = vec![];
    let mut taken2 = vec![];
    for step in steps {
        match step {
            Step::Both(a, b) => {
                taken1.push(a);
                taken2.push(b);
            }
            Step::First(a) => taken1.push(a),
            Step::Second(b) => taken2.push(b),
        }
    }
    assert_eq!(taken1, first);
    assert_eq!(taken2, second);
}

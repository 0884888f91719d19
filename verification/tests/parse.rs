use ddbug::constants::{
    DW_AT_abstract_origin, DW_AT_bit_offset, DW_AT_bit_size, DW_AT_byte_size, DW_AT_const_value,
    DW_AT_count, DW_AT_data_bit_offset, DW_AT_data_member_location, DW_AT_declaration,
    DW_AT_high_pc, DW_AT_inline, DW_AT_linkage_name, DW_AT_low_pc, DW_AT_name, DW_AT_ranges,
    DW_AT_type, DW_AT_upper_bound, DW_TAG_array_type, DW_TAG_base_type, DW_TAG_const_type,
    DW_TAG_enumeration_type, DW_TAG_enumerator, DW_TAG_formal_parameter, DW_TAG_inlined_subroutine,
    DW_TAG_lexical_block, DW_TAG_member, DW_TAG_namespace, DW_TAG_pointer_type,
    DW_TAG_restrict_type, DW_TAG_structure_type, DW_TAG_subprogram, DW_TAG_subrange_type,
    DW_TAG_subroutine_type, DW_TAG_typedef, DW_TAG_union_type, DW_TAG_variable,
};
use ddbug::entry::{Attribute, Entry, Range, UnitEntries, Value};
use ddbug::expression::Location;
use ddbug::namespace::Namespace;
use ddbug::subprogram::{InlinedSubroutine, Subprogram};
use ddbug::types::{
    ArrayType, Enumerator, Member, Parameter, Type, TypeKind, TypeModifierKind,
};
use ddbug::unit::Unit;

fn attr(name: u64, value: Value<'static>) -> Attribute<'static> {
    Attribute { name, value, string: None, udata: None, sdata: None, address: None }
}

fn named(name: u64, text: &'static str) -> Attribute<'static> {
    Attribute { string: Some(text.as_bytes()), ..attr(name, Value::Other) }
}

fn number(name: u64, value: u64) -> Attribute<'static> {
    Attribute { udata: Some(value), ..attr(name, Value::Udata(value)) }
}

fn entry(
    offset: usize,
    tag: u64,
    attrs: Vec<Attribute<'static>>,
    children: Vec<Entry<'static>>,
) -> Entry<'static> {
    Entry { offset, tag, attrs, ranges: vec![], children }
}

fn bytes(text: &'static str) -> Option<&'static [u8]> {
    Some(text.as_bytes())
}

#[test]
fn the_last_attribute_counts() {
    let parameter = Parameter::parse_dwarf(&entry(
        1,
        DW_TAG_formal_parameter,
        vec![
            named(DW_AT_name, "a"),
            attr(DW_AT_type, Value::UnitRef(5)),
            named(DW_AT_name, "b"),
            // Not a reference to an entry of the unit.
            attr(DW_AT_type, Value::Other),
        ],
        vec![],
    ));
    assert_eq!((parameter.name, parameter.ty), (bytes("b"), Some(5)));
    // A name that cannot be read takes away the one before it.
    let parameter = Parameter::parse_dwarf(&entry(
        1,
        DW_TAG_formal_parameter,
        vec![named(DW_AT_name, "a"), attr(DW_AT_name, Value::Other)],
        vec![],
    ));
    assert_eq!((parameter.name, parameter.ty), (None, None));
}

fn member(attrs: Vec<Attribute<'static>>, big_endian: bool) -> Member<'static> {
    Member::parse_dwarf(&entry(1, DW_TAG_member, attrs, vec![]), big_endian)
}

#[test]
fn places_of_members() {
    assert_eq!(member(vec![], false).bit_offset, 0);
    assert_eq!(member(vec![number(DW_AT_data_member_location, 3)], false).bit_offset, 24);
    assert_eq!(member(vec![number(DW_AT_data_bit_offset, 3)], true).bit_offset, 3);
    let both = vec![number(DW_AT_data_bit_offset, 3), number(DW_AT_data_member_location, 3)];
    assert_eq!(member(both, false).bit_offset, 24);
    let huge = vec![number(DW_AT_data_member_location, 1 << 61)];
    assert_eq!(member(huge, false).bit_offset, 0);
    let mut located = attr(DW_AT_data_member_location, Value::Exprloc(b"?"));
    assert_eq!(member(vec![located], false).bit_offset, 0);
    located.locate(&Ok(Location::Address(5)));
    assert_eq!(member(vec![located], false).bit_offset, 40);
    located.locate(&Ok(Location::Other));
    assert_eq!(member(vec![number(DW_AT_data_bit_offset, 3), located], false).bit_offset, 3);
}

#[test]
fn bit_fields() {
    let attrs = || {
        vec![
            number(DW_AT_data_member_location, 4),
            number(DW_AT_byte_size, 4),
            number(DW_AT_bit_offset, 20),
            number(DW_AT_bit_size, 7),
        ]
    };
    let little = member(attrs(), false);
    assert_eq!((little.bit_offset, little.bit_size), (32 + 32 - 20 - 7, Some(7)));
    let big = member(attrs(), true);
    assert_eq!((big.bit_offset, big.bit_size), (32 + 20, Some(7)));
    // Without the size of the storage unit the place of the unit is kept.
    let mut unsized_attrs = attrs();
    unsized_attrs.remove(1);
    assert_eq!(member(unsized_attrs.clone(), false).bit_offset, 32);
    assert_eq!(member(unsized_attrs, true).bit_offset, 52);
    // Without the size of the field there is no field.
    let mut plain = attrs();
    plain.remove(3);
    assert_eq!(member(plain, false).bit_offset, 32);
    // Further from the most significant bit than the unit is long.
    let odd = vec![
        number(DW_AT_byte_size, 1),
        number(DW_AT_bit_offset, 20),
        number(DW_AT_bit_size, 7),
    ];
    assert_eq!(member(odd, false).bit_offset, 8u64.wrapping_sub(27));
}

#[test]
fn counts_of_arrays() {
    let bound = |attrs| entry(2, DW_TAG_subrange_type, attrs, vec![]);
    let count = |children| {
        ArrayType::parse_dwarf(&entry(
            1,
            DW_TAG_array_type,
            vec![attr(DW_AT_type, Value::UnitRef(9))],
            children,
        ))
    };
    assert_eq!(count(vec![]).count, None);
    assert_eq!(count(vec![]).ty, Some(9));
    assert_eq!(count(vec![bound(vec![number(DW_AT_count, 3)])]).count, Some(3));
    assert_eq!(count(vec![bound(vec![number(DW_AT_upper_bound, 3)])]).count, Some(3));
    assert_eq!(
        count(vec![
            bound(vec![number(DW_AT_upper_bound, 3), number(DW_AT_count, 4)]),
            bound(vec![number(DW_AT_byte_size, 5)]),
            entry(3, DW_TAG_member, vec![number(DW_AT_count, 6)], vec![]),
        ])
        .count,
        Some(4)
    );
    assert_eq!(
        count(vec![
            bound(vec![number(DW_AT_count, 4)]),
            bound(vec![attr(DW_AT_upper_bound, Value::Other)]),
        ])
        .count,
        None
    );
}

#[test]
fn values_of_enumerators() {
    let value = |attrs| Enumerator::parse_dwarf(&entry(1, DW_TAG_enumerator, attrs, vec![])).value;
    let signed = Attribute { sdata: Some(-3), ..attr(DW_AT_const_value, Value::Other) };
    assert_eq!(value(vec![signed]), Some(-3));
    assert_eq!(value(vec![signed, attr(DW_AT_const_value, Value::Other)]), Some(-3));
    assert_eq!(value(vec![number(DW_AT_const_value, 3)]), None);
}

fn subprogram(attrs: Vec<Attribute<'static>>) -> Subprogram<'static> {
    let namespace = Namespace::root();
    Subprogram::parse_dwarf(&entry(7, DW_TAG_subprogram, attrs, vec![]), &namespace)
}

#[test]
fn addresses_of_subprograms() {
    let place = |attrs| {
        let s = subprogram(attrs);
        (s.low_pc, s.high_pc, s.size)
    };
    let low = |a| attr(DW_AT_low_pc, Value::Addr(a));
    let high = |a| attr(DW_AT_high_pc, Value::Addr(a));
    let length = |a| attr(DW_AT_high_pc, Value::Udata(a));
    assert_eq!(place(vec![]), (None, None, None));
    assert_eq!(place(vec![low(16), high(20)]), (Some(16), Some(20), Some(4)));
    assert_eq!(place(vec![low(16), high(10)]), (Some(16), Some(10), None));
    assert_eq!(place(vec![low(16), length(4)]), (Some(16), Some(20), Some(4)));
    assert_eq!(
        place(vec![low(16), length(u64::max_value())]),
        (Some(16), None, Some(u64::max_value()))
    );
    // An address counts more than a length.
    assert_eq!(place(vec![low(16), length(9), high(20)]), (Some(16), Some(20), Some(4)));
    assert_eq!(place(vec![high(20)]), (None, Some(20), None));
    assert_eq!(place(vec![length(4)]), (None, None, Some(4)));
}

#[test]
fn attributes_of_subprograms() {
    let inline = |value| subprogram(vec![attr(DW_AT_inline, Value::Inline(value))]).inline;
    assert_eq!((inline(0), inline(1), inline(2), inline(3)), (false, true, false, true));
    let s = subprogram(vec![
        named(DW_AT_name, "f"),
        named(DW_AT_linkage_name, "_f"),
        attr(DW_AT_declaration, Value::Flag(true)),
        attr(DW_AT_type, Value::UnitRef(3)),
    ]);
    assert_eq!((s.offset, s.name, s.linkage_name), (7, bytes("f"), bytes("_f")));
    assert_eq!((s.declaration, s.inline, s.return_type), (true, false, Some(3)));
    assert!(s.calls.is_empty());
}

#[test]
fn sizes_of_inlined_subroutines() {
    let namespace = Namespace::root();
    let size = |attrs, ranges: Vec<Range>| {
        let mut e = entry(1, DW_TAG_inlined_subroutine, attrs, vec![]);
        e.ranges = ranges;
        InlinedSubroutine::parse_dwarf(&e, &namespace).size
    };
    let low = attr(DW_AT_low_pc, Value::Addr(16));
    let high = attr(DW_AT_high_pc, Value::Addr(20));
    let length = attr(DW_AT_high_pc, Value::Udata(9));
    let list = attr(DW_AT_ranges, Value::DebugRangesRef(0));
    let ranges = || vec![Range { begin: 5, end: 7 }, Range { begin: 1, end: 2 }];
    assert_eq!(size(vec![], vec![]), None);
    assert_eq!(size(vec![low], vec![]), None);
    assert_eq!(size(vec![low, high], vec![]), Some(4));
    assert_eq!(size(vec![low, high, length], vec![]), Some(9));
    assert_eq!(size(vec![low, high, length, list], ranges()), Some(3));
    assert_eq!(size(vec![list], vec![]), Some(0));
    assert_eq!(size(vec![low, high], ranges()), Some(4));
}

#[test]
fn blocks_are_looked_through() {
    let variable = |name| entry(0, DW_TAG_variable, vec![named(DW_AT_name, name)], vec![]);
    let inlined = |origin, children| {
        entry(
            0,
            DW_TAG_inlined_subroutine,
            vec![attr(DW_AT_abstract_origin, Value::UnitRef(origin))],
            children,
        )
    };
    let block = |children| entry(0, DW_TAG_lexical_block, vec![], children);
    let namespace = Namespace::new(&Namespace::root(), bytes("ns"));
    let s = Subprogram::parse_dwarf(
        &entry(
            1,
            DW_TAG_subprogram,
            vec![],
            vec![
                variable("a"),
                block(vec![
                    inlined(1, vec![variable("x"), block(vec![variable("y")]), inlined(2, vec![])]),
                    variable("b"),
                    block(vec![variable("c"), inlined(3, vec![])]),
                ]),
                entry(0, DW_TAG_formal_parameter, vec![], vec![]),
                variable("d"),
                inlined(4, vec![block(vec![inlined(5, vec![])])]),
            ],
        ),
        &namespace,
    );
    let names: Vec<_> = s.variables.iter().map(|v| v.name.unwrap()).collect();
    assert_eq!(names, vec![b"a", b"b", b"c", b"d"]);
    assert!(s.variables.iter().all(|v| v.namespace.name == bytes("ns")));
    let origins: Vec<_> = s.inlined_subroutines.iter().map(|i| i.abstract_origin.unwrap()).collect();
    assert_eq!(origins, vec![1, 3, 4]);
    assert_eq!(s.parameters.len(), 1);
    let first = &s.inlined_subroutines[0];
    assert_eq!(first.variables.len(), 1);
    assert_eq!(first.variables[0].name, bytes("y"));
    assert_eq!(first.inlined_subroutines[0].abstract_origin, Some(2));
    assert_eq!(s.inlined_subroutines[2].inlined_subroutines[0].abstract_origin, Some(5));
}

#[test]
fn kinds_of_types() {
    let namespace = Namespace::root();
    let kind = |tag| {
        let ty = Type::parse_dwarf(&entry(3, tag, vec![named(DW_AT_name, "n")], vec![]), &namespace, false);
        assert_eq!(ty.offset, 3);
        ty.kind.discriminant_value()
    };
    assert_eq!(kind(DW_TAG_base_type), 0);
    assert_eq!(kind(DW_TAG_typedef), 1);
    assert_eq!(kind(DW_TAG_structure_type), 2);
    assert_eq!(kind(DW_TAG_union_type), 3);
    assert_eq!(kind(DW_TAG_enumeration_type), 4);
    assert_eq!(kind(DW_TAG_array_type), 5);
    assert_eq!(kind(DW_TAG_subroutine_type), 6);
    assert_eq!(kind(DW_TAG_const_type), 7);
    assert_eq!(kind(DW_TAG_pointer_type), 7);
    assert_eq!(kind(DW_TAG_restrict_type), 7);
    assert_eq!(kind(0x1234), 8);
    for &(tag, expected) in
        &[(DW_TAG_const_type, 0), (DW_TAG_pointer_type, 1), (DW_TAG_restrict_type, 2)]
    {
        let attrs = vec![attr(DW_AT_type, Value::UnitRef(8)), number(DW_AT_byte_size, 2)];
        match Type::parse_dwarf(&entry(3, tag, attrs, vec![]), &namespace, false).kind {
            TypeKind::Modifier(ref modifier) => {
                let kind = match modifier.kind {
                    TypeModifierKind::Const => 0,
                    TypeModifierKind::Pointer => 1,
                    TypeModifierKind::Restrict => 2,
                };
                assert_eq!((kind, modifier.ty, modifier.byte_size), (expected, Some(8), Some(2)));
            }
            _ => panic!(),
        }
    }
}

#[test]
fn structures_hold_members_and_subprograms() {
    let namespace = Namespace::new(&Namespace::root(), bytes("ns"));
    let children = || {
        vec![
            entry(4, DW_TAG_member, vec![named(DW_AT_name, "a")], vec![]),
            entry(5, DW_TAG_subprogram, vec![named(DW_AT_name, "m")], vec![]),
            entry(6, DW_TAG_variable, vec![], vec![]),
            entry(7, DW_TAG_enumerator, vec![named(DW_AT_name, "A")], vec![]),
            entry(8, DW_TAG_member, vec![named(DW_AT_name, "b")], vec![]),
        ]
    };
    let attrs = || {
        vec![
            named(DW_AT_name, "s"),
            number(DW_AT_byte_size, 8),
            attr(DW_AT_declaration, Value::Flag(true)),
        ]
    };
    let parse = |tag| Type::parse_dwarf(&entry(3, tag, attrs(), children()), &namespace, false);
    for &tag in &[DW_TAG_structure_type, DW_TAG_union_type, DW_TAG_enumeration_type] {
        let ty = parse(tag);
        let subprograms = ty.get_subprograms().unwrap();
        assert_eq!(subprograms.len(), 1);
        let mut w = String::new();
        subprograms[0].print_name(&mut w);
        assert_eq!(w, "ns::s::m");
        let members = ty.visit_members();
        if tag == DW_TAG_enumeration_type {
            assert!(members.is_none());
        } else {
            let names: Vec<_> = members.unwrap().iter().map(|m| m.name.unwrap()).collect();
            assert_eq!(names, vec![b"a", b"b"]);
        }
        assert!(!ty.is_anon());
    }
    match parse(DW_TAG_structure_type).kind {
        TypeKind::Struct(ref ty) => assert_eq!((ty.byte_size, ty.declaration), (Some(8), true)),
        _ => panic!(),
    }
    match parse(DW_TAG_enumeration_type).kind {
        TypeKind::Enumeration(ref ty) => assert_eq!(ty.enumerators.len(), 1),
        _ => panic!(),
    }
}

#[test]
fn namespaces_of_declarations() {
    let variable = |name| entry(0, DW_TAG_variable, vec![named(DW_AT_name, name)], vec![]);
    let inner = entry(
        2,
        DW_TAG_namespace,
        vec![],
        vec![variable("b"), entry(5, DW_TAG_base_type, vec![], vec![])],
    );
    let outer = entry(
        1,
        DW_TAG_namespace,
        vec![named(DW_AT_name, "ns")],
        vec![variable("a"), inner, variable("c")],
    );
    let unit = Unit::parse_dwarf(
        &UnitEntries {
            address_size: 4,
            dwarf64: false,
            root: entry(
                0,
                0x11,
                vec![named(DW_AT_name, "u")],
                vec![outer, variable("d"), entry(9, 0x4321, vec![], vec![variable("e")])],
            ),
        },
        false,
    );
    assert_eq!((unit.name, unit.address_size), (bytes("u"), Some(4)));
    let names: Vec<String> = unit
        .variables
        .iter()
        .map(|v| {
            let mut w = String::new();
            v.print_name(&mut w);
            w
        })
        .collect();
    assert_eq!(names, vec!["ns::a", "ns::<anon>::b", "ns::c", "d"]);
    assert_eq!(unit.types.len(), 1);
    assert_eq!(unit.types[0].offset, 5);
}

#[test]
fn expressions_of_members() {
    let place = |bytes: &'static [u8]| attr(DW_AT_data_member_location, Value::Exprloc(bytes));
    let below = entry(3, DW_TAG_member, vec![place(b"c")], vec![]);
    let member = entry(
        2,
        DW_TAG_member,
        vec![
            place(b"a"),
            named(DW_AT_name, "m"),
            // Not a place.
            attr(DW_AT_byte_size, Value::Exprloc(b"?")),
            place(b"b"),
        ],
        vec![below],
    );
    // Not a member.
    let variable = entry(4, DW_TAG_variable, vec![place(b"?")], vec![]);
    let last = entry(5, DW_TAG_member, vec![place(b"d")], vec![]);
    let structure = entry(1, DW_TAG_structure_type, vec![], vec![member, variable, last]);
    let mut unit = UnitEntries {
        address_size: 8,
        dwarf64: true,
        root: entry(0, 0x11, vec![place(b"?")], vec![structure]),
    };
    let listed: Vec<&[u8]> = vec![b"a", b"b", b"c", b"d"];
    assert_eq!(unit.expressions(), listed);
    unit.locate(&vec![
        Ok(Location::Address(1)),
        Ok(Location::Other),
        Ok(Location::Address(3)),
    ]);
    // They are listed as before.
    assert_eq!(unit.expressions(), listed);
    assert_eq!((unit.address_size, unit.dwarf64), (8, true));
    assert_eq!(unit.root.attrs[0].address, None);
    let entries = &unit.root.children[0].children;
    let addresses = |e: &Entry| e.attrs.iter().map(|a| a.address).collect::<Vec<_>>();
    assert_eq!(addresses(&entries[0]), vec![Some(1), None, None, None]);
    assert_eq!(addresses(&entries[0].children[0]), vec![Some(3)]);
    assert_eq!(addresses(&entries[1]), vec![None]);
    // The last result is missing.
    assert_eq!(addresses(&entries[2]), vec![None]);
}

use ddbug::constants::{
    DW_AT_abstract_origin, DW_AT_bit_offset, DW_AT_bit_size, DW_AT_byte_size, DW_AT_comp_dir,
    DW_AT_const_value, DW_AT_count, DW_AT_data_bit_offset, DW_AT_data_member_location,
    DW_AT_declaration, DW_AT_high_pc, DW_AT_inline, DW_AT_language, DW_AT_linkage_name,
    DW_AT_low_pc, DW_AT_name, DW_AT_ranges, DW_AT_sibling, DW_AT_type, DW_AT_upper_bound,
    DW_INL_declared_inlined, DW_INL_inlined, DW_TAG_array_type, DW_TAG_base_type,
    DW_TAG_compile_unit, DW_TAG_const_type, DW_TAG_enumeration_type, DW_TAG_enumerator,
    DW_TAG_formal_parameter, DW_TAG_inlined_subroutine, DW_TAG_lexical_block, DW_TAG_member,
    DW_TAG_namespace, DW_TAG_pointer_type, DW_TAG_restrict_type,
    DW_TAG_structure_type, DW_TAG_subprogram, DW_TAG_subrange_type, DW_TAG_subroutine_type,
    DW_TAG_typedef, DW_TAG_union_type, DW_TAG_variable,
};
use ddbug::dwarf::Sections;
use ddbug::entry::{UnitEntries, Value};
use ddbug::error::Result;
use ddbug::expression::Location;
use ddbug::file::print_file;
use ddbug::machine::Machine;
use ddbug::read::read;
use ddbug::state::{File, Flags};
use ddbug::types::TypeKind;
use ddbug::unit::{parse_units, Unit};

const ADDR: u64 = 0x01;
const DATA2: u64 = 0x05;
const DATA4: u64 = 0x06;
const DATA8: u64 = 0x07;
const STRING: u64 = 0x08;
const DATA1: u64 = 0x0b;
const FLAG: u64 = 0x0c;
const SDATA: u64 = 0x0d;
const STRP: u64 = 0x0e;
const UDATA: u64 = 0x0f;
const REF4: u64 = 0x13;
const SEC_OFFSET: u64 = 0x17;
const EXPRLOC: u64 = 0x18;

/// Bytes in either order.
struct Bytes {
    big: bool,
    bytes: Vec<u8>,
}

impl Bytes {
    fn new(big: bool) -> Bytes {
        Bytes { big, bytes: vec![] }
    }

    fn number(&mut self, value: u64, size: usize) -> &mut Bytes {
        for i in 0..size {
            let place = if self.big { size - 1 - i } else { i };
            self.bytes.push((value >> (8 * place)) as u8);
        }
        self
    }

    fn uleb(&mut self, mut value: u64) -> &mut Bytes {
        loop {
            let byte = (value & 0x7f) as u8;
            value >>= 7;
            if value == 0 {
                self.bytes.push(byte);
                return self;
            }
            self.bytes.push(byte | 0x80);
        }
    }

    fn string(&mut self, text: &[u8]) -> &mut Bytes {
        self.bytes.extend_from_slice(text);
        self.bytes.push(0);
        self
    }

    /// Where the next entry starts.
    fn here(&self) -> usize {
        self.bytes.len()
    }

    fn set(&mut self, at: usize, value: u32) {
        let mut number = Bytes::new(self.big);
        number.number(value as u64, 4);
        self.bytes[at..at + 4].copy_from_slice(&number.bytes);
    }
}

/// The abbreviations with the codes one, two and so on.
fn abbreviations(list: &[(u64, bool, &[(u64, u64)])]) -> Vec<u8> {
    let mut table = Bytes::new(false);
    for (i, &(tag, children, attributes)) in list.iter().enumerate() {
        table.uleb(i as u64 + 1).uleb(tag).number(children as u64, 1);
        for &(name, form) in attributes {
            table.uleb(name).uleb(form);
        }
        table.uleb(0).uleb(0);
    }
    table.uleb(0);
    table.bytes
}

/// Starts a unit at the beginning of the section; its length is filled in by `end_unit`.
fn start_unit(big: bool) -> Bytes {
    let mut info = Bytes::new(big);
    info.number(0, 4).number(4, 2).number(0, 4).number(8, 1);
    info
}

fn end_unit(info: &mut Bytes) {
    let length = info.here() - 4;
    info.set(0, length as u32);
}

fn sections<'a>(abbrev: &'a [u8], info: &'a [u8], strings: &'a [u8], ranges: &'a [u8]) -> Sections<'a> {
    Sections { abbrev, info, strings, ranges }
}

fn failure(big: bool, abbrev: &[u8], info: &[u8]) -> String {
    let result: Result<Vec<UnitEntries>> = read(&sections(abbrev, info, &[], &[]), big, 1000);
    match result {
        Ok(units) => panic!("read {} units", units.len()),
        Err(error) => String::from(error.description()),
    }
}

const ABBREVIATIONS: &'static [(u64, bool, &'static [(u64, u64)])] = &[
    // 1: the unit
    (
        DW_TAG_compile_unit,
        true,
        &[
            (DW_AT_name, STRING),
            (DW_AT_comp_dir, STRP),
            (DW_AT_language, DATA1),
            (DW_AT_low_pc, ADDR),
            (DW_AT_high_pc, DATA8),
        ],
    ),
    // 2: a base type
    (DW_TAG_base_type, false, &[(DW_AT_byte_size, DATA1), (DW_AT_name, STRP)]),
    // 3: a structure
    (DW_TAG_structure_type, true, &[(DW_AT_name, STRING), (DW_AT_byte_size, UDATA)]),
    // 4: a member with an offset
    (
        DW_TAG_member,
        false,
        &[(DW_AT_name, STRING), (DW_AT_type, REF4), (DW_AT_data_member_location, DATA1)],
    ),
    // 5: a member with an expression
    (
        DW_TAG_member,
        false,
        &[(DW_AT_name, STRING), (DW_AT_type, REF4), (DW_AT_data_member_location, EXPRLOC)],
    ),
    // 6: a bit field
    (
        DW_TAG_member,
        false,
        &[
            (DW_AT_name, STRING),
            (DW_AT_type, REF4),
            (DW_AT_byte_size, DATA1),
            (DW_AT_bit_size, DATA1),
            (DW_AT_bit_offset, DATA1),
            (DW_AT_data_member_location, DATA1),
        ],
    ),
    // 7: a namespace
    (DW_TAG_namespace, true, &[(DW_AT_name, STRING)]),
    // 8: a subprogram
    (
        DW_TAG_subprogram,
        true,
        &[
            (DW_AT_name, STRING),
            (DW_AT_linkage_name, STRING),
            (DW_AT_low_pc, ADDR),
            (DW_AT_high_pc, DATA4),
            (DW_AT_type, REF4),
            (DW_AT_inline, DATA1),
            (DW_AT_declaration, FLAG),
        ],
    ),
    // 9: a parameter
    (DW_TAG_formal_parameter, false, &[(DW_AT_name, STRING), (DW_AT_type, REF4)]),
    // 10: a lexical block
    (DW_TAG_lexical_block, true, &[]),
    // 11: an inlined subroutine with ranges
    (
        DW_TAG_inlined_subroutine,
        true,
        &[(DW_AT_abstract_origin, REF4), (DW_AT_low_pc, ADDR), (DW_AT_ranges, SEC_OFFSET)],
    ),
    // 12: a variable
    (DW_TAG_variable, false, &[(DW_AT_name, STRING), (DW_AT_type, REF4)]),
    // 13: an enumeration
    (DW_TAG_enumeration_type, true, &[(DW_AT_name, STRING), (DW_AT_byte_size, DATA1)]),
    // 14: a value
    (DW_TAG_enumerator, false, &[(DW_AT_name, STRING), (DW_AT_const_value, SDATA)]),
    // 15: an array
    (DW_TAG_array_type, true, &[(DW_AT_type, REF4)]),
    // 16: a bound
    (DW_TAG_subrange_type, true, &[(DW_AT_upper_bound, DATA2)]),
    // 17: something that is not looked at
    (0x1234, true, &[(DW_AT_name, STRING)]),
    // 18: an inlined subroutine with addresses
    (DW_TAG_inlined_subroutine, false, &[(DW_AT_low_pc, ADDR), (DW_AT_high_pc, ADDR)]),
    // 19: a pointer
    (DW_TAG_pointer_type, false, &[(DW_AT_type, REF4)]),
];

const STRINGS: &'static [u8] = b"/home\0int\0";

/// A unit with a little of everything.
fn sample(big: bool) -> (Vec<u8>, Vec<u8>, Vec<u8>) {
    let mut info = start_unit(big);
    info.uleb(1).string(b"main.c").number(0, 4).number(0x0c, 1).number(0x1000, 8).number(0x20, 8);
    let int = info.here();
    info.uleb(2).number(4, 1).number(6, 4);

    info.uleb(3).string(b"s").uleb(16);
    info.uleb(4).string(b"a").number(int as u64, 4).number(0, 1);
    info.uleb(5).string(b"b").number(int as u64, 4).uleb(2).number(0x23, 1).uleb(4);
    info.uleb(6).string(b"c").number(int as u64, 4).number(4, 1).number(3, 1).number(5, 1).number(8, 1);
    info.uleb(0);

    // Passed over, with an entry below it.
    info.uleb(17).string(b"?");
    info.uleb(2).number(1, 1).number(6, 4);
    info.uleb(0);

    info.uleb(7).string(b"ns");
    let f = info.here();
    info.uleb(8).string(b"f").string(b"_f").number(0x1000, 8).number(0x10, 4);
    info.number(int as u64, 4).number(3, 1).number(0, 1);
    info.uleb(9).string(b"x").number(int as u64, 4);
    info.uleb(10);
    info.uleb(12).string(b"local").number(int as u64, 4);
    info.uleb(11).number(f as u64, 4).number(0x1000, 8).number(16, 4);
    info.uleb(12).string(b"not taken").number(int as u64, 4);
    info.uleb(10);
    info.uleb(12).string(b"taken").number(int as u64, 4);
    info.uleb(18).number(5, 8).number(9, 8);
    info.uleb(0);
    info.uleb(0);
    info.uleb(0);
    info.uleb(0);
    info.uleb(12).string(b"v").number(int as u64, 4);
    info.uleb(0);

    info.uleb(13).string(b"e").number(1, 1);
    info.uleb(14).string(b"A").uleb(0x7f);
    info.uleb(0);

    info.uleb(15).number(int as u64, 4);
    info.uleb(16).number(7, 2);
    info.uleb(2).number(1, 1).number(6, 4);
    info.uleb(0);
    info.uleb(0);
    info.uleb(0);
    end_unit(&mut info);

    let mut ranges = Bytes::new(big);
    ranges.number(0, 8).number(0, 8);
    ranges.number(0x10, 8).number(0x14, 8).number(0x20, 8).number(0x21, 8);
    ranges.number(0, 8).number(0, 8);
    (abbreviations(ABBREVIATIONS), info.bytes, ranges.bytes)
}

fn check_sample(big: bool) {
    let (abbrev, info, ranges) = sample(big);
    let mut entries = read(&sections(&abbrev, &info, STRINGS, &ranges), big, 1000).unwrap();
    assert_eq!(entries.len(), 1);
    assert_eq!(entries[0].address_size, 8);
    assert!(!entries[0].dwarf64);
    assert_eq!(entries[0].root.tag, DW_TAG_compile_unit);
    assert_eq!(entries[0].root.offset, 11);
    assert_eq!(entries[0].root.children.len(), 5);
    assert_eq!(entries[0].expressions(), vec![&[0x23, 0x04][..]]);
    entries[0].locate(&vec![Ok(Location::Address(4))]);
    let units: Vec<Unit> = parse_units(&entries, big);
    let unit = &units[0];
    assert_eq!(unit.name, Some(&b"main.c"[..]));
    assert_eq!(unit.dir, Some(&b"/home"[..]));
    assert_eq!(unit.language, Some(0x0c));
    assert_eq!(unit.address_size, Some(8));
    assert_eq!(unit.low_pc, Some(0x1000));
    assert_eq!(unit.high_pc, None);
    assert_eq!(unit.size, Some(0x20));

    assert_eq!(unit.types.len(), 4);
    let int = unit.types[0].offset;
    match unit.types[0].kind {
        TypeKind::Base(ref ty) => {
            assert_eq!((ty.name, ty.byte_size), (Some(&b"int"[..]), Some(4)));
        }
        _ => panic!(),
    }
    match unit.types[1].kind {
        TypeKind::Struct(ref ty) => {
            let places: Vec<u64> = ty.members.iter().map(|m| m.bit_offset).collect();
            // The bit field is three bits long, and five bits from the most significant bit
            // of four bytes at the eighth byte.
            let field = if big { 8 * 8 + 5 } else { 8 * 8 + 32 - 5 - 3 };
            assert_eq!(places, vec![0, 32, field]);
            assert_eq!(ty.members[2].bit_size, Some(3));
            assert_eq!(ty.members[2].ty, Some(int));
        }
        _ => panic!(),
    }
    match unit.types[2].kind {
        TypeKind::Enumeration(ref ty) => {
            assert_eq!(ty.enumerators.len(), 1);
            assert_eq!(ty.enumerators[0].value, Some(-1));
        }
        _ => panic!(),
    }
    match unit.types[3].kind {
        TypeKind::Array(ref ty) => assert_eq!((ty.ty, ty.count), (Some(int), Some(7))),
        _ => panic!(),
    }

    assert_eq!(unit.subprograms.len(), 1);
    let f = &unit.subprograms[0];
    assert_eq!(f.name, Some(&b"f"[..]));
    assert_eq!(f.namespace.name, Some(&b"ns"[..]));
    assert_eq!(f.linkage_name, Some(&b"_f"[..]));
    assert_eq!((f.low_pc, f.high_pc, f.size), (Some(0x1000), Some(0x1010), Some(0x10)));
    assert_eq!((f.inline, f.declaration), (true, false));
    assert_eq!(f.return_type, Some(int));
    assert_eq!(f.parameters.len(), 1);
    let names: Vec<_> = f.variables.iter().map(|v| v.name.unwrap()).collect();
    assert_eq!(names, vec![b"local"]);
    assert_eq!(f.inlined_subroutines.len(), 1);
    let inlined = &f.inlined_subroutines[0];
    assert_eq!(inlined.abstract_origin, Some(f.offset));
    assert_eq!(inlined.size, Some(5));
    let names: Vec<_> = inlined.variables.iter().map(|v| v.name.unwrap()).collect();
    assert_eq!(names, vec![b"taken"]);
    assert_eq!(inlined.inlined_subroutines.len(), 1);
    assert_eq!(inlined.inlined_subroutines[0].size, Some(4));
    assert_eq!(unit.variables.len(), 1);
    assert_eq!(unit.variables[0].namespace.name, Some(&b"ns"[..]));

    let flags = Flags {
        calls: false,
        diff: false,
        sort: false,
        inline_depth: 1,
        name: None,
        namespace: vec![],
    };
    let mut file = File { machine: Machine::X86_64, units };
    let mut w = String::new();
    print_file(&mut file, &flags, &mut w);
    let field = if big {
        "\t\t8[0.5]\t<padding>\n\t\t8.5[0.3]\tc: int\n\t\t9[7]\t<padding>\n"
    } else {
        "\t\t8[3]\t<padding>\n\t\t11[0.3]\tc: int\n\t\t11.3[4.5]\t<padding>\n"
    };
    assert_eq!(
        w,
        format!(
            "struct s\n\tsize: 16\n\tmembers:\n\t\t0[4]\ta: int\n\t\t4[4]\tb: int\n{}\n\
             enum e\n\tsize: 1\n\tenumerators:\n\t\tA(-1)\n\n\
             fn ns::f\n\tlinkage name: _f\n\taddress: 0x1000-0x100f\n\tsize: 16\n\tinline: yes\n\
             \treturn type:\n\t\t[4]\tint\n\tparameters:\n\t\t[4]\tx: int\n\
             \tinlined subroutines:\n\t\t[5]\tns::f\n\n\
             var ns::v: int\n\tsize: 4\n\n",
            field
        )
    );
}

#[test]
fn little_endian_unit() {
    check_sample(false);
}

#[test]
fn big_endian_unit() {
    check_sample(true);
}

#[test]
fn the_wrong_order_of_bytes() {
    let (abbrev, info, _) = sample(false);
    assert_eq!(failure(true, &abbrev, &info), "DWARF error: UnexpectedEof");
    let (abbrev, info, _) = sample(true);
    assert_eq!(failure(false, &abbrev, &info), "DWARF error: UnexpectedEof");
}

#[test]
fn no_units() {
    assert!(read(&sections(&[], &[], &[], &[]), false, 0).unwrap().is_empty());
    assert!(read(&sections(&[], &[], &[], &[]), true, 0).unwrap().is_empty());
}

#[test]
fn several_units() {
    let abbrev = abbreviations(&[(DW_TAG_compile_unit, false, &[(DW_AT_name, STRING)])]);
    let mut info = vec![];
    for name in &[&b"a.c"[..], &b"b.c"[..], &b"c.c"[..]] {
        let mut unit = start_unit(true);
        unit.uleb(1).string(name);
        end_unit(&mut unit);
        info.extend_from_slice(&unit.bytes);
    }
    let entries = read(&sections(&abbrev, &info, &[], &[]), true, 1).unwrap();
    let units = parse_units(&entries, true);
    let names: Vec<_> = units.iter().map(|u| u.name.unwrap()).collect();
    assert_eq!(names, vec![b"a.c", b"b.c", b"c.c"]);
}

#[test]
fn a_broken_unit_behind_a_good_one() {
    let abbrev = abbreviations(&[(DW_TAG_compile_unit, false, &[])]);
    for &big in &[false, true] {
        let mut unit = start_unit(big);
        unit.uleb(1);
        end_unit(&mut unit);
        let mut info = unit.bytes.clone();
        info.extend_from_slice(&[1, 2]);
        assert_eq!(failure(big, &abbrev, &info), "DWARF error: UnexpectedEof");
    }
}

#[test]
fn a_unit_without_entries() {
    let abbrev = abbreviations(&[]);
    for &big in &[false, true] {
        let mut info = start_unit(big);
        end_unit(&mut info);
        assert_eq!(failure(big, &abbrev, &info.bytes), "DWARF error: UnexpectedEof");
        assert_eq!(
            gimli::Error::UnexpectedEof.to_string(),
            "UnexpectedEof"
        );
    }
}

#[test]
fn a_unit_that_starts_with_a_null() {
    let abbrev = abbreviations(&[]);
    let mut info = start_unit(false);
    info.uleb(0);
    end_unit(&mut info);
    assert_eq!(failure(false, &abbrev, &info.bytes), "DWARF error: UnexpectedNull");
    assert_eq!(gimli::Error::UnexpectedNull.to_string(), "UnexpectedNull");
}

#[test]
fn a_unit_with_another_tag() {
    let abbrev = abbreviations(&[(0x3c, false, &[]), (0x7777, false, &[])]);
    let mut info = start_unit(false);
    info.uleb(1);
    end_unit(&mut info);
    assert_eq!(failure(false, &abbrev, &info.bytes), "unknown CU tag: DW_TAG_partial_unit");
    let mut info = start_unit(true);
    info.uleb(2);
    end_unit(&mut info);
    assert_eq!(failure(true, &abbrev, &info.bytes), "unknown CU tag: Unknown DwTag: 30583");
}

#[test]
fn a_tag_counts_before_broken_attributes() {
    // The form of the attribute is unknown.
    let abbrev =
        abbreviations(&[(0x3c, false, &[(DW_AT_name, 0x7f)]), (DW_TAG_compile_unit, false, &[(DW_AT_name, 0x7f)])]);
    let mut info = start_unit(false);
    info.uleb(1);
    end_unit(&mut info);
    assert_eq!(failure(false, &abbrev, &info.bytes), "unknown CU tag: DW_TAG_partial_unit");
    let mut info = start_unit(false);
    info.uleb(2);
    end_unit(&mut info);
    assert_eq!(failure(false, &abbrev, &info.bytes), "DWARF error: UnknownForm");
}

#[test]
fn abbreviations_out_of_range() {
    for &big in &[false, true] {
        let mut info = start_unit(big);
        info.uleb(1);
        end_unit(&mut info);
        info.set(6, 1000);
        assert_eq!(failure(big, &[0], &info.bytes), "abbreviation offset out of range");
        // Just behind the section nothing can be read.
        info.set(6, 1);
        assert_eq!(failure(big, &[0], &info.bytes), "DWARF error: UnexpectedEof");
    }
}

#[test]
fn an_unknown_abbreviation() {
    let abbrev = abbreviations(&[(DW_TAG_compile_unit, true, &[])]);
    for &big in &[false, true] {
        let mut info = start_unit(big);
        info.uleb(1).uleb(9);
        end_unit(&mut info);
        assert_eq!(failure(big, &abbrev, &info.bytes), "DWARF error: UnknownAbbreviation");
    }
}

#[test]
fn broken_ranges() {
    let abbrev = abbreviations(&[
        (DW_TAG_compile_unit, true, &[]),
        (DW_TAG_subprogram, true, &[]),
        (DW_TAG_inlined_subroutine, false, &[(DW_AT_ranges, SEC_OFFSET)]),
    ]);
    for &big in &[false, true] {
        let mut info = start_unit(big);
        info.uleb(1).uleb(2).uleb(3).number(0, 4).uleb(0).uleb(0);
        end_unit(&mut info);
        // Behind the section.
        info.set(info.here() - 6, 3);
        assert_eq!(failure(big, &abbrev, &info.bytes), "DWARF error: UnexpectedEof");
        // A range that ends in the middle.
        let result = read(&sections(&abbrev, &info.bytes, &[], &[0, 0, 0, 0, 0, 0]), big, 1000);
        assert_eq!(result.unwrap_err().description(), "DWARF error: UnexpectedEof");
        // No range at all.
        info.set(info.here() - 6, 0);
        let entries = read(&sections(&abbrev, &info.bytes, &[], &[]), big, 1000).unwrap();
        let units = parse_units(&entries, big);
        assert_eq!(units[0].subprograms[0].inlined_subroutines[0].size, Some(0));
    }
}

#[test]
fn entries_end_with_the_unit() {
    // The nulls at the end are missing.
    let abbrev = abbreviations(&[(DW_TAG_compile_unit, true, &[]), (DW_TAG_variable, true, &[])]);
    let mut info = start_unit(false);
    info.uleb(1).uleb(2).uleb(2);
    end_unit(&mut info);
    let entries = read(&sections(&abbrev, &info.bytes, &[], &[]), false, 1000).unwrap();
    assert_eq!(entries[0].root.children.len(), 1);
    assert_eq!(entries[0].root.children[0].children.len(), 0);
}

const SIBLINGS: &'static [(u64, bool, &'static [(u64, u64)])] = &[
    (DW_TAG_compile_unit, true, &[]),
    // Not looked at.
    (0x1234, true, &[(DW_AT_sibling, REF4)]),
    (DW_TAG_variable, false, &[(DW_AT_name, STRING)]),
];

#[test]
fn siblings_are_jumped_to() {
    for &big in &[false, true] {
        let abbrev = abbreviations(SIBLINGS);
        let mut info = start_unit(big);
        info.uleb(1).uleb(2);
        let reference = info.here();
        // What lies between could not be read.
        info.number(0, 4).uleb(77).uleb(78);
        let variable = info.here();
        info.uleb(3).string(b"v").uleb(0);
        end_unit(&mut info);
        info.set(reference, variable as u32);
        let entries = read(&sections(&abbrev, &info.bytes, &[], &[]), big, 1000).unwrap();
        assert_eq!(entries[0].root.children.len(), 1);
        assert_eq!(entries[0].root.children[0].offset, variable);
        // A reference out of the unit is not followed.
        info.set(reference, 1000);
        assert_eq!(failure(big, &abbrev, &info.bytes), "DWARF error: UnknownAbbreviation");
    }
}

#[test]
fn a_sibling_that_points_back() {
    for &big in &[false, true] {
        let abbrev = abbreviations(SIBLINGS);
        let mut info = start_unit(big);
        info.uleb(1);
        let first = info.here();
        info.uleb(2).number(first as u64, 4).uleb(0).uleb(0);
        end_unit(&mut info);
        assert_eq!(failure(big, &abbrev, &info.bytes), "too many entries");
    }
}

#[test]
fn the_limit_only_cuts_off() {
    let (abbrev, info, ranges) = sample(false);
    let sections = sections(&abbrev, &info, STRINGS, &ranges);
    let whole = format!("{:?}", read(&sections, false, 1000).unwrap());
    let mut enough = 0;
    for limit in 0..100 {
        match read(&sections, false, limit) {
            Ok(entries) => {
                assert_eq!(format!("{:?}", entries), whole);
                enough += 1;
            }
            Err(error) => {
                assert_eq!(error.description(), "too many entries");
                assert_eq!(enough, 0);
            }
        }
    }
    assert!(enough > 0);
}

#[test]
fn strings_of_attributes() {
    let abbrev = abbreviations(&[(
        DW_TAG_compile_unit,
        false,
        &[(DW_AT_name, STRP), (DW_AT_comp_dir, DATA1)],
    )]);
    let strings = b"ab\0cd";
    let name = |offset: u64| {
        let mut info = start_unit(false);
        info.uleb(1).number(offset, 4).number(7, 1);
        end_unit(&mut info);
        let entries = read(&sections(&abbrev, &info.bytes, strings, &[]), false, 1).unwrap();
        assert_eq!(entries[0].root.attrs[1].string, None);
        assert_eq!(entries[0].root.attrs[1].udata, Some(7));
        entries[0].root.attrs[0].string.map(|s| s.to_vec())
    };
    assert_eq!(name(0), Some(b"ab".to_vec()));
    assert_eq!(name(1), Some(b"b".to_vec()));
    assert_eq!(name(2), Some(vec![]));
    // No null behind it.
    assert_eq!(name(3), None);
    assert_eq!(name(6), None);
}

#[test]
fn values_of_attributes() {
    let abbrev = abbreviations(&[(
        DW_TAG_compile_unit,
        false,
        &[
            (DW_AT_low_pc, ADDR),
            (DW_AT_high_pc, DATA4),
            (DW_AT_language, DATA2),
            (DW_AT_inline, DATA1),
            (DW_AT_declaration, FLAG),
            (DW_AT_type, REF4),
            (DW_AT_ranges, SEC_OFFSET),
            (DW_AT_data_member_location, EXPRLOC),
            (DW_AT_const_value, DATA2),
            (DW_AT_const_value, SDATA),
            (DW_AT_name, STRING),
        ],
    )]);
    for &big in &[false, true] {
        let mut info = start_unit(big);
        info.uleb(1).number(0x0102030405060708, 8).number(0x01020304, 4).number(0x0102, 2);
        info.number(3, 1).number(1, 1).number(0x0a0b, 4).number(0x0c0d, 4);
        info.uleb(1).number(0x9c, 1).number(0xfffe, 2).uleb(0x7e).string(b"n");
        end_unit(&mut info);
        let entries = read(&sections(&abbrev, &info.bytes, &[], &[]), big, 1).unwrap();
        let attrs = &entries[0].root.attrs;
        assert_eq!(attrs.len(), 11);
        assert!(matches!(attrs[0].value, Value::Addr(0x0102030405060708)));
        assert!(matches!(attrs[1].value, Value::Udata(0x01020304)));
        assert!(matches!(attrs[2].value, Value::Language(0x0102)));
        assert!(matches!(attrs[3].value, Value::Inline(3)));
        assert!(matches!(attrs[4].value, Value::Flag(true)));
        assert!(matches!(attrs[5].value, Value::UnitRef(0x0a0b)));
        assert!(matches!(attrs[6].value, Value::DebugRangesRef(0x0c0d)));
        assert!(matches!(attrs[7].value, Value::Exprloc(&[0x9c])));
        assert_eq!((attrs[8].udata, attrs[8].sdata), (Some(0xfffe), Some(-2)));
        assert_eq!((attrs[9].udata, attrs[9].sdata), (None, Some(-2)));
        assert!(matches!(attrs[10].value, Value::Other));
        assert_eq!(attrs[10].name, DW_AT_name);
        assert_eq!(attrs[10].string, Some(&b"n"[..]));
        assert!(attrs.iter().all(|attr| attr.address.is_none()));
    }
}

#[test]
fn offsets_of_64_bits() {
    for &big in &[false, true] {
        let abbrev = abbreviations(&[(DW_TAG_compile_unit, false, &[(DW_AT_name, STRP)])]);
        let mut unit = Bytes::new(big);
        unit.number(4, 2).number(0, 8).number(4, 1).uleb(1).number(2, 8);
        let mut info = Bytes::new(big);
        info.number(0xffff_ffff, 4).number(unit.here() as u64, 8);
        info.bytes.extend_from_slice(&unit.bytes);
        let entries = read(&sections(&abbrev, &info.bytes, b"x\0y\0", &[]), big, 1).unwrap();
        assert!(entries[0].dwarf64);
        assert_eq!(entries[0].address_size, 4);
        assert_eq!(entries[0].root.offset, 23);
        assert_eq!(entries[0].root.attrs[0].string, Some(&b"y"[..]));
    }
}

#[test]
fn codes_are_those_of_the_format() {
    assert_eq!(DW_TAG_array_type, gimli::DW_TAG_array_type.0);
    assert_eq!(DW_TAG_enumeration_type, gimli::DW_TAG_enumeration_type.0);
    assert_eq!(DW_TAG_formal_parameter, gimli::DW_TAG_formal_parameter.0);
    assert_eq!(DW_TAG_lexical_block, gimli::DW_TAG_lexical_block.0);
    assert_eq!(DW_TAG_member, gimli::DW_TAG_member.0);
    assert_eq!(DW_TAG_pointer_type, gimli::DW_TAG_pointer_type.0);
    assert_eq!(DW_TAG_compile_unit, gimli::DW_TAG_compile_unit.0);
    assert_eq!(DW_TAG_structure_type, gimli::DW_TAG_structure_type.0);
    assert_eq!(DW_TAG_subroutine_type, gimli::DW_TAG_subroutine_type.0);
    assert_eq!(DW_TAG_typedef, gimli::DW_TAG_typedef.0);
    assert_eq!(DW_TAG_union_type, gimli::DW_TAG_union_type.0);
    assert_eq!(DW_TAG_inlined_subroutine, gimli::DW_TAG_inlined_subroutine.0);
    assert_eq!(DW_TAG_subrange_type, gimli::DW_TAG_subrange_type.0);
    assert_eq!(DW_TAG_base_type, gimli::DW_TAG_base_type.0);
    assert_eq!(DW_TAG_const_type, gimli::DW_TAG_const_type.0);
    assert_eq!(DW_TAG_enumerator, gimli::DW_TAG_enumerator.0);
    assert_eq!(DW_TAG_subprogram, gimli::DW_TAG_subprogram.0);
    assert_eq!(DW_TAG_variable, gimli::DW_TAG_variable.0);
    assert_eq!(DW_TAG_restrict_type, gimli::DW_TAG_restrict_type.0);
    assert_eq!(DW_TAG_namespace, gimli::DW_TAG_namespace.0);
    assert_eq!(DW_AT_sibling, gimli::DW_AT_sibling.0);
    assert_eq!(DW_AT_name, gimli::DW_AT_name.0);
    assert_eq!(DW_AT_byte_size, gimli::DW_AT_byte_size.0);
    assert_eq!(DW_AT_bit_offset, gimli::DW_AT_bit_offset.0);
    assert_eq!(DW_AT_bit_size, gimli::DW_AT_bit_size.0);
    assert_eq!(DW_AT_low_pc, gimli::DW_AT_low_pc.0);
    assert_eq!(DW_AT_high_pc, gimli::DW_AT_high_pc.0);
    assert_eq!(DW_AT_language, gimli::DW_AT_language.0);
    assert_eq!(DW_AT_comp_dir, gimli::DW_AT_comp_dir.0);
    assert_eq!(DW_AT_const_value, gimli::DW_AT_const_value.0);
    assert_eq!(DW_AT_inline, gimli::DW_AT_inline.0);
    assert_eq!(DW_AT_upper_bound, gimli::DW_AT_upper_bound.0);
    assert_eq!(DW_AT_abstract_origin, gimli::DW_AT_abstract_origin.0);
    assert_eq!(DW_AT_count, gimli::DW_AT_count.0);
    assert_eq!(DW_AT_data_member_location, gimli::DW_AT_data_member_location.0);
    assert_eq!(DW_AT_declaration, gimli::DW_AT_declaration.0);
    assert_eq!(DW_AT_type, gimli::DW_AT_type.0);
    assert_eq!(DW_AT_ranges, gimli::DW_AT_ranges.0);
    assert_eq!(DW_AT_data_bit_offset, gimli::DW_AT_data_bit_offset.0);
    assert_eq!(DW_AT_linkage_name, gimli::DW_AT_linkage_name.0);
    assert_eq!(DW_INL_inlined, gimli::DW_INL_inlined.0);
    assert_eq!(DW_INL_declared_inlined, gimli::DW_INL_declared_inlined.0);
}

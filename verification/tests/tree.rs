//! Holds the walk through the entries against the parser's own view of them as a tree.

use ddbug::constants::{
    DW_AT_abstract_origin, DW_AT_name, DW_AT_ranges, DW_AT_sibling, DW_AT_type,
    DW_TAG_compile_unit, DW_TAG_inlined_subroutine, DW_TAG_lexical_block, DW_TAG_member,
    DW_TAG_namespace, DW_TAG_structure_type, DW_TAG_subprogram, DW_TAG_variable,
};
use ddbug::dwarf::Sections;
use ddbug::entry::Entry;
use ddbug::read::read;
use ddbug::walk::Level;
use gimli::{
    CompilationUnitHeader, DebugAbbrev, DebugInfo, DebugRanges, DebugRangesOffset, Endianity,
    EntriesTreeIter,
};

const ABBREVIATIONS: &'static [(u64, bool, &'static [(u64, u64)])] = &[
    (DW_TAG_compile_unit, true, &[(DW_AT_name, 0x08)]),
    (DW_TAG_namespace, true, &[(DW_AT_name, 0x08)]),
    (DW_TAG_structure_type, true, &[]),
    (DW_TAG_member, true, &[(DW_AT_type, 0x13)]),
    (DW_TAG_subprogram, true, &[(DW_AT_name, 0x08)]),
    (DW_TAG_lexical_block, true, &[]),
    (DW_TAG_inlined_subroutine, true, &[(DW_AT_abstract_origin, 0x13), (DW_AT_ranges, 0x17)]),
    (DW_TAG_variable, false, &[(DW_AT_type, 0x0f)]),
    (0x2345, true, &[(DW_AT_name, 0x08)]),
    (0x2346, false, &[]),
    // With a sibling.
    (DW_TAG_structure_type, true, &[(DW_AT_sibling, 0x11)]),
    (0x2347, true, &[(DW_AT_sibling, 0x11)]),
];

fn abbreviations() -> Vec<u8> {
    let mut table = vec![];
    for (i, &(tag, children, attributes)) in ABBREVIATIONS.iter().enumerate() {
        table.push(i as u8 + 1);
        table.push((tag & 0x7f) as u8 | 0x80);
        table.push((tag >> 7) as u8);
        table.push(children as u8);
        for &(name, form) in attributes {
            table.push(name as u8);
            table.push(form as u8);
        }
        table.extend_from_slice(&[0, 0]);
    }
    table.push(0);
    table
}

fn describe(entry: &Entry, w: &mut String) {
    w.push_str(&format!("({} {} {}", entry.offset, entry.tag, entry.attrs.len()));
    for range in &entry.ranges {
        w.push_str(&format!(" {}-{}", range.begin, range.end));
    }
    for child in &entry.children {
        describe(child, w);
    }
    w.push(')');
}

fn walk<E: Endianity>(
    mut iter: EntriesTreeIter<E>,
    unit: &CompilationUnitHeader<E>,
    ranges: &DebugRanges<E>,
    level: Level,
    w: &mut String,
) -> gimli::Result<()> {
    {
        let entry = iter.entry().unwrap();
        let mut count = 0;
        let mut attrs = entry.attrs();
        let mut list = None;
        while let Some(attr) = attrs.next()? {
            count += 1;
            if let gimli::AttributeValue::DebugRangesRef(offset) = attr.value() {
                list = Some(offset);
            }
        }
        w.push_str(&format!("({} {} {}", entry.offset().0, entry.tag().0, count));
        if let (Level::Inlined, Some(DebugRangesOffset(offset))) = (level, list) {
            let mut list = ranges.ranges(DebugRangesOffset(offset), unit.address_size(), 0)?;
            while let Some(range) = list.next()? {
                w.push_str(&format!(" {}-{}", range.begin, range.end));
            }
        }
    }
    while let Some(child) = iter.next()? {
        let tag = child.entry().unwrap().tag().0;
        if let Some(below) = level.get_below(tag) {
            walk(child, unit, ranges, below, w)?;
        }
    }
    w.push(')');
    Ok(())
}

fn by_tree<E: Endianity>(abbrev: &[u8], info: &[u8], ranges: &[u8]) -> Result<String, String> {
    let ranges = DebugRanges::<E>::new(ranges);
    let mut w = String::new();
    let mut step = || -> gimli::Result<Option<String>> {
        let mut units = DebugInfo::<E>::new(info).units();
        while let Some(unit) = units.next()? {
            let table = unit.abbreviations(DebugAbbrev::new(abbrev))?;
            let mut tree = unit.entries_tree(&table, None)?;
            let iter = tree.iter();
            let tag = iter.entry().unwrap().tag();
            if tag.0 != DW_TAG_compile_unit {
                return Ok(Some(format!("unknown CU tag: {}", tag)));
            }
            walk(iter, &unit, &ranges, Level::Scope, &mut w)?;
        }
        Ok(None)
    };
    match step() {
        Ok(None) => Ok(w),
        Ok(Some(text)) => Err(text),
        Err(error) => Err(format!("DWARF error: {}", error)),
    }
}

fn by_walk(abbrev: &[u8], info: &[u8], ranges: &[u8], big: bool) -> Result<String, String> {
    match read(&Sections { abbrev, info, strings: &[], ranges }, big, u64::max_value()) {
        Ok(units) => {
            let mut w = String::new();
            for unit in &units {
                describe(&unit.root, &mut w);
            }
            Ok(w)
        }
        Err(error) => Err(String::from(error.description())),
    }
}

struct Numbers(u64);

impl Numbers {
    fn below(&mut self, limit: u64) -> u64 {
        self.0 = self.0.wrapping_mul(6364136223846793005).wrapping_add(1442695040888963407);
        (self.0 >> 33) % limit
    }
}

/// Entries at random, most of them in a sensible order.
fn entries(numbers: &mut Numbers, depth: u64, w: &mut Vec<u8>) {
    while numbers.below(4) != 0 {
        let code = 1 + numbers.below(10) as u8;
        w.push(code);
        match code {
            1 | 2 | 5 | 9 => w.extend_from_slice(b"n\0"),
            4 => w.extend_from_slice(&[1, 1, 1, 1]),
            7 => w.extend_from_slice(&[1, 1, 1, 1, 0, 0, 0, 0]),
            8 => w.push(3),
            _ => {}
        }
        if code != 8 && code != 10 {
            if depth > 0 {
                entries(numbers, depth - 1, w);
            }
            w.push(0);
        }
    }
}

fn unit(body: &[u8], big: bool) -> Vec<u8> {
    let length = body.len() as u32 + 7;
    let mut info = vec![];
    let number = if big { length.to_be_bytes() } else { length.to_le_bytes() };
    info.extend_from_slice(&number);
    info.extend_from_slice(if big { &[0, 4] } else { &[4, 0] });
    info.extend_from_slice(&[0, 0, 0, 0, 4]);
    info.extend_from_slice(body);
    info
}

fn compare(info: &[u8], big: bool) -> bool {
    let abbrev = abbreviations();
    let ranges = [1, 0, 0, 0, 2, 0, 0, 0, 0, 0, 0, 0, 0, 0, 0, 0];
    let walked = by_walk(&abbrev, info, &ranges, big);
    let expected = if big {
        by_tree::<gimli::BigEndian>(&abbrev, info, &ranges)
    } else {
        by_tree::<gimli::LittleEndian>(&abbrev, info, &ranges)
    };
    assert_eq!(walked, expected);
    walked.is_ok()
}

#[test]
fn sensible_and_broken_entries() {
    let mut numbers = Numbers(7);
    let mut good = 0;
    let mut bad = 0;
    for round in 0..4000 {
        let big = round % 2 == 0;
        let mut body = vec![1, b'u', 0];
        entries(&mut numbers, 6, &mut body);
        body.push(0);
        let mut info = unit(&body, big);
        for _ in 0..numbers.below(4) {
            // The codes of the entries with siblings are left out.
            let at = 11 + numbers.below(body.len() as u64) as usize;
            info[at] = numbers.below(11) as u8;
        }
        if compare(&info, big) {
            good += 1;
        } else {
            bad += 1;
        }
    }
    assert!(good > 500 && bad > 500, "{} {}", good, bad);
}

#[test]
fn siblings() {
    // References to every place behind the entry that holds them.
    for &code in &[11, 12] {
        let body = [
            1, b'u', 0, code, 0, 8, 3, 9, b'n', 0, 0, 0, 8, 4, code, 30, 0, 10, 8, 5, 2, b'm', 0, 8, 6, 0,
            0, 0, 0,
        ];
        for reference in 16..50 {
            let mut body = body.to_vec();
            body[4] = reference;
            compare(&unit(&body, false), false);
            compare(&unit(&body, true), true);
        }
    }
}

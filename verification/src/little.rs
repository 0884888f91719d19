//! The outside parser for files whose least significant byte comes first.

use crate::dwarf;
use crate::dwarf::{AttributeView, CursorView, Head, Sections, Stream, UnitHeader};
use crate::entry::{Attribute, Entry, Range, UnitEntries, Value};
use crate::error::Result as ReadResult;
use crate::outside;
use crate::parser::{
    all_attributes, all_ranges, AttributeList, RangeList, UnitList, UnitSource,
};
use crate::read;
use crate::walk::{read_unit, Entries, Spot};
use gimli::AttributeValue as Outside;
use vstd::prelude::*;

verus! {

/// The headers of units, `gimli::CompilationUnitHeadersIter`.
#[verifier::external_body]
pub struct Headers<'input> {
    iter: gimli::CompilationUnitHeadersIter<'input, gimli::LittleEndian>,
}

/// The header of a unit, `gimli::CompilationUnitHeader`.
#[verifier::external_body]
pub struct Header<'input> {
    unit: gimli::CompilationUnitHeader<'input, gimli::LittleEndian>,
}

/// A cursor in a unit, `gimli::EntriesCursor`.
#[verifier::external_body]
pub struct Cursor<'input, 'unit> {
    cursor: gimli::EntriesCursor<'input, 'unit, 'unit, gimli::LittleEndian>,
}

/// The attributes of an entry, `gimli::AttrsIter`.
#[verifier::external_body]
pub struct Attributes<'input, 'unit, 'die> {
    iter: gimli::AttrsIter<'input, 'unit, 'die, 'unit, gimli::LittleEndian>,
}

/// An attribute, `gimli::Attribute`.
#[verifier::external_body]
pub struct RawAttribute<'input> {
    attr: gimli::Attribute<'input, gimli::LittleEndian>,
}

/// A section of address ranges, `gimli::DebugRanges`.
#[verifier::external_body]
pub struct RangeSection<'input> {
    section: gimli::DebugRanges<'input, gimli::LittleEndian>,
}

/// Address ranges, `gimli::RangesIter`.
#[verifier::external_body]
pub struct Ranges<'section> {
    iter: gimli::RangesIter<'section, gimli::LittleEndian>,
}

/// The headers that are still to come.
pub uninterp spec fn headers(iter: Headers) -> Stream<UnitHeader>;

/// What a header says.
pub uninterp spec fn header(unit: Header) -> UnitHeader;

/// Where a cursor stands.
pub uninterp spec fn place(cursor: Cursor) -> CursorView;

/// The attributes that are still to come.
pub uninterp spec fn attributes(iter: Attributes) -> Stream<AttributeView>;

/// What an attribute holds.
pub uninterp spec fn attribute(attr: RawAttribute) -> AttributeView;

/// The bytes of a section of address ranges.
pub uninterp spec fn range_bytes(section: RangeSection) -> Seq<u8>;

/// The address ranges that are still to come.
pub uninterp spec fn ranges(iter: Ranges) -> Stream<Range>;

/// Calls `gimli::DebugInfo::units`, which goes through the headers of the units of a
/// section. They depend on the bytes of the section alone.
#[verifier::external_body]
fn units<'input>(info: &'input [u8]) -> (iter: Headers<'input>)
    ensures
        headers(iter) == dwarf::unit_headers(false, info@),
{
    Headers { iter: gimli::DebugInfo::new(info).units() }
}

/// Calls `gimli::CompilationUnitHeadersIter::next`, which takes the next header, fails where
/// the next header is broken, and comes to an end behind the last.
#[verifier::external_body]
fn next_unit<'input>(iter: &mut Headers<'input>) -> (unit: Result<Option<Header<'input>>, String>)
    ensures
        match unit {
            Ok(Some(unit)) => {
                &&& headers(*old(iter)).items.len() > 0
                &&& header(unit) == headers(*old(iter)).items[0]
                &&& headers(*final(iter)) == headers(*old(iter)).rest()
            },
            Ok(None) => headers(*old(iter)).items.len() == 0 && headers(*old(iter)).fault is None,
            Err(error) => headers(*old(iter)).items.len() == 0 && headers(*old(iter)).fault == Some(
                error@,
            ),
        },
{
    match iter.iter.next() {
        Ok(Some(unit)) => Ok(Some(Header { unit })),
        Ok(None) => Ok(None),
        Err(error) => Err(error.to_string()),
    }
}

/// Calls `gimli::CompilationUnitHeader::address_size`.
#[verifier::external_body]
fn address_size(unit: &Header) -> (size: u8)
    ensures
        size == header(*unit).address_size,
{
    unit.unit.address_size()
}

/// Calls `gimli::CompilationUnitHeader::format`.
#[verifier::external_body]
fn is_dwarf64(unit: &Header) -> (dwarf64: bool)
    ensures
        dwarf64 == header(*unit).dwarf64,
{
    match unit.unit.format() {
        gimli::Format::Dwarf32 => false,
        gimli::Format::Dwarf64 => true,
    }
}

/// Calls `gimli::CompilationUnitHeader::debug_abbrev_offset`.
#[verifier::external_body]
fn abbrev_offset(unit: &Header) -> (offset: usize)
    ensures
        offset == header(*unit).abbrev_offset,
{
    unit.unit.debug_abbrev_offset().0
}

/// Calls `gimli::CompilationUnitHeader::abbreviations`, which reads the abbreviations at the
/// header's offset of the section. They depend on the bytes of the section and on the offset
/// alone. The offset may not lie behind the section.
#[verifier::external_body]
fn read_abbreviations(unit: &Header, abbrev: &[u8]) -> (table: Result<
    gimli::Abbreviations,
    String,
>)
    requires
        header(*unit).abbrev_offset <= abbrev@.len(),
    ensures
        match table {
            Ok(table) => dwarf::abbreviations_at(abbrev@, header(*unit).abbrev_offset) == Ok::<
                Map<u64, dwarf::Abbreviation>,
                Seq<char>,
            >(outside::abbreviations(table)),
            Err(error) => dwarf::abbreviations_at(abbrev@, header(*unit).abbrev_offset) == Err::<
                Map<u64, dwarf::Abbreviation>,
                Seq<char>,
            >(error@),
        },
{
    unit.unit.abbreviations(gimli::DebugAbbrev::new(abbrev)).map_err(|error| error.to_string())
}

/// Calls `gimli::CompilationUnitHeader::entries`: a cursor in front of the first entry. What
/// it will meet depends on the header and the abbreviations alone.
#[verifier::external_body]
fn entries<'input, 'unit>(
    unit: &'unit Header<'input>,
    table: &'unit gimli::Abbreviations,
) -> (cursor: Cursor<'input, 'unit>)
    ensures
        place(cursor) == (CursorView {
            current: None,
            ahead: dwarf::entries_from(
                false,
                header(*unit),
                outside::abbreviations(*table),
                header(*unit).header_size(),
            ),
        }),
{
    Cursor { cursor: unit.unit.entries(table) }
}

/// Calls `gimli::CompilationUnitHeader::entries_at_offset`: a cursor in front of the entry
/// at an offset; none where the offset does not lie in the unit's entries.
#[verifier::external_body]
fn entries_at_offset<'input, 'unit>(
    unit: &'unit Header<'input>,
    table: &'unit gimli::Abbreviations,
    offset: usize,
) -> (cursor: Option<Cursor<'input, 'unit>>)
    ensures
        match cursor {
            Some(cursor) => header(*unit).contains(offset) && place(cursor) == (CursorView {
                current: None,
                ahead: dwarf::entries_from(
                    false,
                    header(*unit),
                    outside::abbreviations(*table),
                    offset as int,
                ),
            }),
            None => !header(*unit).contains(offset),
        },
{
    match unit.unit.entries_at_offset(table, gimli::UnitOffset(offset)) {
        Ok(cursor) => Some(Cursor { cursor }),
        Err(_) => None,
    }
}

/// Calls `gimli::EntriesCursor::next_entry`, which goes to the next entry or null, fails
/// where what follows is broken, and comes to an end behind the last.
#[verifier::external_body]
fn next_entry(cursor: &mut Cursor) -> (result: Result<bool, String>)
    ensures
        match result {
            Ok(true) => {
                &&& place(*old(cursor)).ahead.items.len() > 0
                &&& place(*final(cursor)) == (CursorView {
                    current: place(*old(cursor)).ahead.items[0],
                    ahead: place(*old(cursor)).ahead.rest(),
                })
            },
            Ok(false) => {
                &&& place(*old(cursor)).ahead.items.len() == 0
                &&& place(*old(cursor)).ahead.fault is None
                &&& place(*final(cursor)) == (CursorView {
                    current: None,
                    ahead: place(*old(cursor)).ahead,
                })
            },
            Err(error) => {
                &&& place(*old(cursor)).ahead.items.len() == 0
                &&& place(*old(cursor)).ahead.fault == Some(error@)
            },
        },
{
    match cursor.cursor.next_entry() {
        Ok(Some(_)) => Ok(true),
        Ok(None) => Ok(false),
        Err(error) => Err(error.to_string()),
    }
}

/// Calls `gimli::EntriesCursor::current`, and `offset`, `tag` and `has_children` of the entry
/// that the cursor stands at.
#[verifier::external_body]
fn head(cursor: &Cursor) -> (head: Option<Head>)
    ensures
        match head {
            Some(head) => place(*cursor).current matches Some(current) && head.offset
                == current.offset && head.tag == current.tag && head.has_children
                == current.has_children,
            None => place(*cursor).current is None,
        },
{
    match cursor.cursor.current() {
        Some(entry) => Some(
            Head {
                offset: entry.offset().0,
                tag: entry.tag().0,
                has_children: entry.has_children(),
            },
        ),
        None => None,
    }
}

/// Calls `gimli::EntriesCursor::current`, and `attrs` of the entry that the cursor stands at,
/// which goes through its attributes.
#[verifier::external_body]
fn attrs<'input, 'unit, 'die>(cursor: &'die Cursor<'input, 'unit>) -> (iter: Option<
    Attributes<'input, 'unit, 'die>,
>)
    ensures
        match iter {
            Some(iter) => place(*cursor).current matches Some(current) && attributes(iter)
                == current.attributes,
            None => place(*cursor).current is None,
        },
{
    match cursor.cursor.current() {
        Some(entry) => Some(Attributes { iter: entry.attrs() }),
        None => None,
    }
}

/// Calls `gimli::AttrsIter::next`, which takes the next attribute, fails where the next
/// attribute is broken, and comes to an end behind the last.
#[verifier::external_body]
fn next_attribute<'input, 'unit, 'die>(iter: &mut Attributes<'input, 'unit, 'die>) -> (attr: Result<
    Option<RawAttribute<'input>>,
    String,
>)
    ensures
        match attr {
            Ok(Some(attr)) => {
                &&& attributes(*old(iter)).items.len() > 0
                &&& attribute(attr) == attributes(*old(iter)).items[0]
                &&& attributes(*final(iter)) == attributes(*old(iter)).rest()
            },
            Ok(None) => attributes(*old(iter)).items.len() == 0 && attributes(
                *old(iter),
            ).fault is None,
            Err(error) => attributes(*old(iter)).items.len() == 0 && attributes(*old(iter)).fault
                == Some(error@),
        },
{
    match iter.iter.next() {
        Ok(Some(attr)) => Ok(Some(RawAttribute { attr })),
        Ok(None) => Ok(None),
        Err(error) => Err(error.to_string()),
    }
}

/// Calls `gimli::Attribute::name`.
#[verifier::external_body]
fn name(attr: &RawAttribute) -> (name: u64)
    ensures
        name == attribute(*attr).name,
{
    attr.attr.name().0
}

/// Calls `gimli::Attribute::value`.
#[verifier::external_body]
fn value<'input>(attr: &RawAttribute<'input>) -> (value: Value<'input>)
    ensures
        value@ == attribute(*attr).value,
{
    match attr.attr.value() {
        Outside::Addr(address) => Value::Addr(address),
        Outside::Udata(number) => Value::Udata(number),
        Outside::Exprloc(expression) => Value::Exprloc(expression.0),
        Outside::Flag(flag) => Value::Flag(flag),
        Outside::UnitRef(offset) => Value::UnitRef(offset.0),
        Outside::DebugRangesRef(offset) => Value::DebugRangesRef(offset.0),
        Outside::Language(language) => Value::Language(language.0),
        Outside::Inline(inlining) => Value::Inline(inlining.0),
        _ => Value::Other,
    }
}

/// Calls `gimli::Attribute::string_value`: the string that the attribute itself holds, or
/// the one that starts at its offset in the section of strings and ends before a null.
#[verifier::external_body]
fn string<'input>(attr: &RawAttribute<'input>, strings: &'input [u8]) -> (string: Option<
    &'input [u8],
>)
    ensures
        match string {
            Some(bytes) => dwarf::string_of(attribute(*attr).string, strings@) == Some(bytes@),
            None => dwarf::string_of(attribute(*attr).string, strings@) is None,
        },
{
    attr.attr.string_value(&gimli::DebugStr::new(strings)).map(|string| string.to_bytes())
}

/// Calls `gimli::Attribute::udata_value`.
#[verifier::external_body]
fn udata(attr: &RawAttribute) -> (number: Option<u64>)
    ensures
        number == attribute(*attr).udata,
{
    attr.attr.udata_value()
}

/// Calls `gimli::Attribute::sdata_value`.
#[verifier::external_body]
fn sdata(attr: &RawAttribute) -> (number: Option<i64>)
    ensures
        number == attribute(*attr).sdata,
{
    attr.attr.sdata_value()
}

/// Calls `gimli::DebugRanges::new`.
#[verifier::external_body]
fn range_section<'input>(bytes: &'input [u8]) -> (section: RangeSection<'input>)
    ensures
        range_bytes(section) == bytes@,
{
    RangeSection { section: gimli::DebugRanges::new(bytes) }
}

/// Calls `gimli::DebugRanges::ranges`, which goes through the address ranges that start at
/// an offset, and fails where the offset lies behind the section. The ranges depend on the
/// bytes of the section and the other arguments alone.
#[verifier::external_body]
fn read_ranges<'section>(
    section: &'section RangeSection,
    offset: usize,
    address_size: u8,
    base: u64,
) -> (iter: Result<Ranges<'section>, String>)
    ensures
        match iter {
            Ok(iter) => dwarf::ranges_at(
                false,
                range_bytes(*section),
                offset,
                address_size,
                base,
            ) == Ok::<Stream<Range>, Seq<char>>(ranges(iter)),
            Err(error) => dwarf::ranges_at(
                false,
                range_bytes(*section),
                offset,
                address_size,
                base,
            ) == Err::<Stream<Range>, Seq<char>>(error@),
        },
{
    match section.section.ranges(gimli::DebugRangesOffset(offset), address_size, base) {
        Ok(iter) => Ok(Ranges { iter }),
        Err(error) => Err(error.to_string()),
    }
}

/// Calls `gimli::RangesIter::next`, which takes the next range, fails where the next range
/// is broken, and comes to an end behind the last.
#[verifier::external_body]
fn next_range(iter: &mut Ranges) -> (range: Result<Option<Range>, String>)
    ensures
        match range {
            Ok(Some(range)) => {
                &&& ranges(*old(iter)).items.len() > 0
                &&& range == ranges(*old(iter)).items[0]
                &&& ranges(*final(iter)) == ranges(*old(iter)).rest()
            },
            Ok(None) => ranges(*old(iter)).items.len() == 0 && ranges(*old(iter)).fault is None,
            Err(error) => ranges(*old(iter)).items.len() == 0 && ranges(*old(iter)).fault == Some(
                error@,
            ),
        },
{
    match iter.iter.next() {
        Ok(Some(range)) => Ok(Some(Range { begin: range.begin, end: range.end })),
        Ok(None) => Ok(None),
        Err(error) => Err(error.to_string()),
    }
}

impl<'input> UnitList<'input> for Headers<'input> {
    type Unit = Header<'input>;

    closed spec fn left(&self) -> Stream<UnitHeader> {
        headers(*self)
    }

    fn take(&mut self) -> (unit: Result<Option<Header<'input>>, String>) {
        next_unit(self)
    }
}

impl<'input> UnitSource<'input> for Header<'input> {
    closed spec fn big_endian() -> bool {
        false
    }

    closed spec fn header(&self) -> UnitHeader {
        header(*self)
    }

    fn address_size(&self) -> (size: u8) {
        address_size(self)
    }

    fn is_dwarf64(&self) -> (dwarf64: bool) {
        is_dwarf64(self)
    }

    fn abbrev_offset(&self) -> (offset: usize) {
        abbrev_offset(self)
    }

    fn abbreviations(&self, abbrev: &[u8]) -> (table: Result<gimli::Abbreviations, String>) {
        read_abbreviations(self, abbrev)
    }

    fn root(&self, table: &gimli::Abbreviations, sections: &Sections<'input>, limit: u64) -> (root:
        ReadResult<Entry<'input>>) {
        let ranges = range_section(sections.ranges);
        let mut cursor = UnitCursor {
            unit: self,
            table,
            cursor: entries(self, table),
            strings: sections.strings,
            ranges: &ranges,
        };
        read_unit(&mut cursor, limit)
    }
}

impl<'input, 'unit, 'die> AttributeList<'input> for Attributes<'input, 'unit, 'die> {
    closed spec fn left(&self) -> Stream<AttributeView> {
        attributes(*self)
    }

    fn take(&mut self, strings: &'input [u8]) -> (attr: Result<
        Option<Attribute<'input>>,
        String,
    >) {
        match next_attribute(self) {
            Ok(Some(attr)) => Ok(
                Some(
                    Attribute {
                        name: name(&attr),
                        value: value(&attr),
                        string: string(&attr, strings),
                        udata: udata(&attr),
                        sdata: sdata(&attr),
                        address: None,
                    },
                ),
            ),
            Ok(None) => Ok(None),
            Err(error) => Err(error),
        }
    }
}

impl<'section> RangeList for Ranges<'section> {
    closed spec fn left(&self) -> Stream<Range> {
        ranges(*self)
    }

    fn take(&mut self) -> (range: Result<Option<Range>, String>) {
        next_range(self)
    }
}

/// The entries of a unit.
struct UnitCursor<'input, 'unit> {
    unit: &'unit Header<'input>,
    table: &'unit gimli::Abbreviations,
    cursor: Cursor<'input, 'unit>,
    strings: &'input [u8],
    ranges: &'unit RangeSection<'input>,
}

impl<'input, 'unit> Entries<'input> for UnitCursor<'input, 'unit> {
    closed spec fn spot(&self) -> Spot {
        Spot {
            big_endian: false,
            unit: header(*self.unit),
            abbreviations: outside::abbreviations(*self.table),
            strings: self.strings@,
            ranges: range_bytes(*self.ranges),
            current: place(self.cursor).current,
            ahead: place(self.cursor).ahead,
        }
    }

    fn step(&mut self) -> (result: Result<bool, String>) {
        next_entry(&mut self.cursor)
    }

    fn jump(&mut self, offset: usize) -> (result: bool) {
        match entries_at_offset(self.unit, self.table, offset) {
            Some(cursor) => {
                self.cursor = cursor;
                true
            },
            None => false,
        }
    }

    fn head(&self) -> (result: Option<Head>) {
        head(&self.cursor)
    }

    fn attributes(&self) -> (result: (Vec<Attribute<'input>>, Option<String>)) {
        match attrs(&self.cursor) {
            Some(iter) => {
                let mut iter = iter;
                all_attributes(&mut iter, self.strings)
            },
            None => (Vec::new(), None),
        }
    }

    fn ranges(&self, offset: usize, base: u64) -> (result: Result<Vec<Range>, String>) {
        match read_ranges(self.ranges, offset, address_size(self.unit), base) {
            Ok(iter) => {
                let mut iter = iter;
                all_ranges(&mut iter)
            },
            Err(error) => Err(error),
        }
    }
}

/// Reads the entries of all units of a file.
pub fn read<'input>(sections: &Sections<'input>, limit: u64) -> (result: ReadResult<
    Vec<UnitEntries<'input>>,
>)
    ensures
        read::result_matches(result, false, *sections, limit),
{
    let mut list = units(sections.info);
    read::read_units(&mut list, sections, limit)
}

} // verus!

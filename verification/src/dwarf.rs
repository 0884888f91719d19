//! What the DWARF sections of a file hold, as far as the outside parser tells.
//!
//! The parser is called in [`crate::little`] and [`crate::big`], once for each order of
//! bytes. This module says what its results are in terms of plain values.

use crate::entry::{Attribute, Range, Value};
use vstd::prelude::*;

verus! {

/// The sections that are read.
#[derive(Clone, Copy, Debug)]
pub struct Sections<'input> {
    /// The section `.debug_abbrev`.
    pub abbrev: &'input [u8],
    /// The section `.debug_info`.
    pub info: &'input [u8],
    /// The section `.debug_str`.
    pub strings: &'input [u8],
    /// The section `.debug_ranges`.
    pub ranges: &'input [u8],
}

/// The header of a unit, and the bytes of its entries.
pub struct UnitHeader {
    pub version: u16,
    pub address_size: u8,
    pub dwarf64: bool,
    pub abbrev_offset: usize,
    pub entries: Seq<u8>,
}

impl UnitHeader {
    /// The size of the header in bytes.
    pub open spec fn header_size(self) -> int {
        if self.dwarf64 {
            23
        } else {
            11
        }
    }

    /// Whether an offset from the start of the unit lies in its entries.
    pub open spec fn contains(self, offset: usize) -> bool {
        self.header_size() <= offset < self.header_size() + self.entries.len()
    }
}

/// An abbreviation: what the entries that refer to it look like.
pub struct Abbreviation {
    pub tag: u64,
    pub has_children: bool,
    /// The codes and the forms of the attributes.
    pub attributes: Seq<(u64, u64)>,
}

/// A value of an attribute, with bytes as a sequence.
pub enum ValueView {
    Addr(u64),
    Udata(u64),
    Exprloc(Seq<u8>),
    Flag(bool),
    UnitRef(usize),
    DebugRangesRef(usize),
    Language(u16),
    Inline(u8),
    Other,
}

impl<'input> View for Value<'input> {
    type V = ValueView;

    open spec fn view(&self) -> ValueView {
        match *self {
            Value::Addr(address) => ValueView::Addr(address),
            Value::Udata(number) => ValueView::Udata(number),
            Value::Exprloc(bytes) => ValueView::Exprloc(bytes@),
            Value::Flag(flag) => ValueView::Flag(flag),
            Value::UnitRef(offset) => ValueView::UnitRef(offset),
            Value::DebugRangesRef(offset) => ValueView::DebugRangesRef(offset),
            Value::Language(language) => ValueView::Language(language),
            Value::Inline(inlining) => ValueView::Inline(inlining),
            Value::Other => ValueView::Other,
        }
    }
}

/// Where the string of an attribute is.
pub enum StringPlace {
    /// In the attribute itself.
    Here(Seq<u8>),
    /// At an offset in the section of strings.
    At(usize),
    /// The attribute has no string.
    Nowhere,
}

/// An attribute as the parser reads it.
pub struct AttributeView {
    pub name: u64,
    pub value: ValueView,
    pub string: StringPlace,
    pub udata: Option<u64>,
    pub sdata: Option<i64>,
}

/// The bytes from an offset to the next null; none where the offset lies behind the bytes
/// or no null follows.
pub open spec fn null_terminated(bytes: Seq<u8>, offset: int) -> Option<Seq<u8>> {
    if exists|end: int| ends_string(bytes, offset, end) {
        let end = choose|end: int| ends_string(bytes, offset, end);
        Some(bytes.subrange(offset, end))
    } else {
        None
    }
}

/// Whether the first null at or behind an offset is at this place.
pub open spec fn ends_string(bytes: Seq<u8>, offset: int, end: int) -> bool {
    &&& 0 <= offset <= end < bytes.len()
    &&& bytes[end] == 0
    &&& forall|i: int| offset <= i < end ==> #[trigger] bytes[i] != 0
}

/// The string of an attribute.
pub open spec fn string_of(place: StringPlace, strings: Seq<u8>) -> Option<Seq<u8>> {
    match place {
        StringPlace::Here(bytes) => Some(bytes),
        StringPlace::At(offset) => null_terminated(strings, offset as int),
        StringPlace::Nowhere => None,
    }
}

impl<'input> Attribute<'input> {
    /// Whether this is what an attribute comes to with the given section of strings.
    pub open spec fn reads(self, attribute: AttributeView, strings: Seq<u8>) -> bool {
        &&& self.name == attribute.name
        &&& self.value@ == attribute.value
        &&& match self.string {
            Some(bytes) => string_of(attribute.string, strings) == Some(bytes@),
            None => string_of(attribute.string, strings) is None,
        }
        &&& self.udata == attribute.udata
        &&& self.sdata == attribute.sdata
        &&& self.address is None
    }
}

/// Items one after the other, and what goes wrong behind the last of them.
pub struct Stream<T> {
    pub items: Seq<T>,
    pub fault: Option<Seq<char>>,
}

impl<T> Stream<T> {
    /// What is left behind the first item.
    pub open spec fn rest(self) -> Stream<T> {
        Stream { items: self.items.skip(1), fault: self.fault }
    }
}

/// An entry without the entries below it.
pub struct EntryView {
    pub offset: usize,
    pub tag: u64,
    pub has_children: bool,
    pub attributes: Stream<AttributeView>,
}

/// The place of a cursor: the entry that it stands at, if it stands at one, and what
/// follows. A null, which ends a list of entries, is none.
pub struct CursorView {
    pub current: Option<EntryView>,
    pub ahead: Stream<Option<EntryView>>,
}

/// The headers of the units of a section `.debug_info`.
pub uninterp spec fn unit_headers(big_endian: bool, info: Seq<u8>) -> Stream<UnitHeader>;

/// The abbreviations that start at an offset of a section `.debug_abbrev`, by their codes.
pub uninterp spec fn abbreviations_at(abbrev: Seq<u8>, offset: usize) -> Result<
    Map<u64, Abbreviation>,
    Seq<char>,
>;

/// The entries of a unit and the nulls between them, one after the other, from an offset
/// on.
pub uninterp spec fn entries_from(
    big_endian: bool,
    unit: UnitHeader,
    abbreviations: Map<u64, Abbreviation>,
    offset: int,
) -> Stream<Option<EntryView>>;

/// The address ranges that start at an offset of a section `.debug_ranges`, for addresses
/// of the given size in bytes and a base address.
pub uninterp spec fn ranges_at(
    big_endian: bool,
    ranges: Seq<u8>,
    offset: usize,
    address_size: u8,
    base: u64,
) -> Result<Stream<Range>, Seq<char>>;

/// What a cursor stands at, as far as it does not depend on the attributes.
#[derive(Clone, Copy, Debug)]
pub struct Head {
    pub offset: usize,
    pub tag: u64,
    pub has_children: bool,
}

/// A string in the section of strings goes from its offset up to the next null, and there is
/// none where no null follows.
pub proof fn lemma_string_ends_at_first_null(bytes: Seq<u8>, offset: int, end: int)
    ensures
        0 <= offset <= end < bytes.len() && bytes[end] == 0 && (forall|i: int|
            offset <= i < end ==> #[trigger] bytes[i] != 0) ==> null_terminated(bytes, offset)
            == Some(bytes.subrange(offset, end)),
        (forall|i: int| offset <= i < bytes.len() ==> #[trigger] bytes[i] != 0)
            ==> null_terminated(bytes, offset) is None,
{
    if ends_string(bytes, offset, end) {
        let other = choose|other: int| ends_string(bytes, offset, other);
        assert(other == end) by {
            if other < end {
                assert(bytes[other] != 0);
            }
            if end < other {
                assert(bytes[end] != 0);
            }
        }
    }
}

/// A string comes from the attribute itself, or from the section of strings at the offset that
/// the attribute gives, or from nowhere.
pub proof fn lemma_strings_come_from_their_place(bytes: Seq<u8>, offset: usize, strings: Seq<u8>)
    ensures
        string_of(StringPlace::Here(bytes), strings) == Some(bytes),
        string_of(StringPlace::At(offset), strings) == null_terminated(strings, offset as int),
        string_of(StringPlace::Nowhere, strings) is None,
{
}

/// The entries of a unit begin right behind its header, and an offset lies in the unit where it
/// lies in the bytes of the entries.
pub proof fn lemma_entries_follow_the_header(unit: UnitHeader, offset: usize)
    ensures
        unit.dwarf64 ==> (unit.contains(offset) <==> 23 <= offset && offset - 23
            < unit.entries.len()),
        !unit.dwarf64 ==> (unit.contains(offset) <==> 11 <= offset && offset - 11
            < unit.entries.len()),
{
}

} // verus!

//! What the outside parsers for both orders of bytes have in common.

use crate::dwarf;
use crate::dwarf::{Abbreviation, AttributeView, Sections, Stream, UnitHeader};
use crate::entry::{Attribute, Entry, Range};
use crate::error;
use crate::outside;
use crate::read;
use crate::walk;
use crate::walk::Tree;
use vstd::prelude::*;

verus! {

/// The attributes of an entry, as something that they are taken from one by one.
pub trait AttributeList<'input> {
    /// The attributes that are still to come.
    spec fn left(&self) -> Stream<AttributeView>;

    /// Takes the next attribute, whose string may stand in the section of strings.
    fn take(&mut self, strings: &'input [u8]) -> (attr: Result<Option<Attribute<'input>>, String>)
        ensures
            match attr {
                Ok(Some(attr)) => {
                    &&& old(self).left().items.len() > 0
                    &&& attr.reads(old(self).left().items[0], strings@)
                    &&& final(self).left() == old(self).left().rest()
                },
                Ok(None) => old(self).left().items.len() == 0 && old(self).left().fault is None,
                Err(error) => old(self).left().items.len() == 0 && old(self).left().fault == Some(
                    error@,
                ),
            },
    ;
}

/// Address ranges, as something that they are taken from one by one.
pub trait RangeList {
    /// The ranges that are still to come.
    spec fn left(&self) -> Stream<Range>;

    /// Takes the next range.
    fn take(&mut self) -> (range: Result<Option<Range>, String>)
        ensures
            match range {
                Ok(Some(range)) => {
                    &&& old(self).left().items.len() > 0
                    &&& range == old(self).left().items[0]
                    &&& final(self).left() == old(self).left().rest()
                },
                Ok(None) => old(self).left().items.len() == 0 && old(self).left().fault is None,
                Err(error) => old(self).left().items.len() == 0 && old(self).left().fault == Some(
                    error@,
                ),
            },
    ;
}

/// A unit whose entries can be read.
pub trait UnitSource<'input> {
    /// Whether the most significant byte comes first.
    spec fn big_endian() -> bool;

    /// The header of the unit.
    spec fn header(&self) -> UnitHeader;

    /// The size of an address in bytes.
    fn address_size(&self) -> (size: u8)
        ensures
            size == self.header().address_size,
    ;

    /// Whether offsets have 64 bits.
    fn is_dwarf64(&self) -> (dwarf64: bool)
        ensures
            dwarf64 == self.header().dwarf64,
    ;

    /// Where the unit's abbreviations start in their section.
    fn abbrev_offset(&self) -> (offset: usize)
        ensures
            offset == self.header().abbrev_offset,
    ;

    /// The unit's abbreviations.
    fn abbreviations(&self, abbrev: &[u8]) -> (table: Result<gimli::Abbreviations, String>)
        requires
            self.header().abbrev_offset <= abbrev@.len(),
        ensures
            match table {
                Ok(table) => dwarf::abbreviations_at(abbrev@, self.header().abbrev_offset)
                    == Ok::<Map<u64, crate::dwarf::Abbreviation>, Seq<char>>(
                    outside::abbreviations(table),
                ),
                Err(error) => dwarf::abbreviations_at(abbrev@, self.header().abbrev_offset)
                    == Err::<Map<u64, crate::dwarf::Abbreviation>, Seq<char>>(error@),
            },
    ;

    /// The entry for the unit itself, with those below it.
    fn root(&self, table: &gimli::Abbreviations, sections: &Sections<'input>, limit: u64) -> (root:
        error::Result<Entry<'input>>)
        ensures
            ({
                let start = read::start(
                    Self::big_endian(),
                    self.header(),
                    outside::abbreviations(*table),
                    *sections,
                );
                match root {
                    Ok(root) => walk::unit_tree(start, limit as nat) matches Ok(tree) && root.reads(
                        tree,
                        sections.strings@,
                    ),
                    Err(error) => walk::unit_tree(start, limit as nat) == Err::<Tree, Seq<char>>(
                        error.text(),
                    ),
                }
            }),
    ;
}

/// Units, as something that they are taken from one by one.
pub trait UnitList<'input> {
    /// What is taken.
    type Unit: UnitSource<'input>;

    /// The headers of the units that are still to come.
    spec fn left(&self) -> Stream<UnitHeader>;

    /// Takes the next unit.
    fn take(&mut self) -> (unit: Result<Option<Self::Unit>, String>)
        ensures
            match unit {
                Ok(Some(unit)) => {
                    &&& old(self).left().items.len() > 0
                    &&& unit.header() == old(self).left().items[0]
                    &&& final(self).left() == old(self).left().rest()
                },
                Ok(None) => old(self).left().items.len() == 0 && old(self).left().fault is None,
                Err(error) => old(self).left().items.len() == 0 && old(self).left().fault == Some(
                    error@,
                ),
            },
    ;
}

/// Takes all attributes, up to one that is broken.
pub fn all_attributes<'input, L: AttributeList<'input>>(
    from: &mut L,
    strings: &'input [u8],
) -> (result: (Vec<Attribute<'input>>, Option<String>))
    ensures
        walk::attributes_read(result.0@, old(from).left().items, strings@),
        match result.1 {
            Some(error) => old(from).left().fault == Some(error@),
            None => old(from).left().fault is None,
        },
{
    let mut list: Vec<Attribute<'input>> = Vec::new();
    let ghost stream = from.left();
    assert(stream.items.skip(0) =~= stream.items);
    loop
        invariant
            stream == old(from).left(),
            list@.len() <= stream.items.len(),
            from.left().items == stream.items.skip(list@.len() as int),
            from.left().fault == stream.fault,
            forall|i: int|
                0 <= i < list@.len() ==> (#[trigger] list@[i]).reads(stream.items[i], strings@),
        decreases stream.items.len() - list@.len(),
    {
        let ghost before = from.left();
        match from.take(strings) {
            Ok(Some(attr)) => {
                assert(before.items[0] == stream.items[list@.len() as int]);
                assert(before.rest().items =~= stream.items.skip((list@.len() + 1) as int));
                list.push(attr);
            },
            Ok(None) => {
                assert(stream.items.skip(list@.len() as int).len() == 0);
                return (list, None);
            },
            Err(error) => {
                assert(stream.items.skip(list@.len() as int).len() == 0);
                return (list, Some(error));
            },
        }
    }
}

/// Takes all ranges. Fails where one is broken.
pub fn all_ranges<L: RangeList>(from: &mut L) -> (result: Result<Vec<Range>, String>)
    ensures
        match result {
            Ok(list) => old(from).left() == (Stream { items: list@, fault: None }),
            Err(error) => old(from).left().fault == Some(error@),
        },
{
    let mut list: Vec<Range> = Vec::new();
    let ghost stream = from.left();
    assert(stream.items.skip(0) =~= stream.items);
    loop
        invariant
            stream == old(from).left(),
            list@.len() <= stream.items.len(),
            list@ == stream.items.take(list@.len() as int),
            from.left().items == stream.items.skip(list@.len() as int),
            from.left().fault == stream.fault,
        decreases stream.items.len() - list@.len(),
    {
        let ghost before = from.left();
        match from.take() {
            Ok(Some(range)) => {
                assert(before.items[0] == stream.items[list@.len() as int]);
                assert(before.rest().items =~= stream.items.skip((list@.len() + 1) as int));
                list.push(range);
                assert(list@ =~= stream.items.take(list@.len() as int));
            },
            Ok(None) => {
                assert(stream.items.skip(list@.len() as int).len() == 0);
                assert(list@ =~= stream.items);
                return Ok(list);
            },
            Err(error) => {
                return Err(error);
            },
        }
    }
}

} // verus!

//! The entries of all units of a file, read from its DWARF sections.

use crate::big;
use crate::dwarf;
use crate::dwarf::{Abbreviation, Sections, Stream, UnitHeader};
use crate::entry::UnitEntries;
use crate::error;
use crate::error::{dwarf_error, Error};
use crate::little;
use crate::parser::{UnitList, UnitSource};
use crate::walk;
use crate::walk::{Outcome, Spot, Tree};
use vstd::prelude::*;

verus! {

/// A unit as it is read.
pub struct UnitRead {
    pub header: UnitHeader,
    pub root: Tree,
}

/// Whether this is a unit as it is read.
pub open spec fn reads(entries: UnitEntries, unit: UnitRead, strings: Seq<u8>) -> bool {
    &&& entries.address_size == unit.header.address_size
    &&& entries.dwarf64 == unit.header.dwarf64
    &&& entries.root.reads(unit.root, strings)
}

/// Whether these are units as they are read.
pub open spec fn all_read(
    entries: Seq<UnitEntries>,
    units: Seq<UnitRead>,
    strings: Seq<u8>,
) -> bool {
    &&& entries.len() == units.len()
    &&& forall|i: int|
        0 <= i < entries.len() ==> reads(#[trigger] entries[i], units[i], strings)
}

/// In front of the first entry of a unit.
pub open spec fn start(
    big_endian: bool,
    unit: UnitHeader,
    abbreviations: Map<u64, Abbreviation>,
    sections: Sections,
) -> Spot {
    Spot {
        big_endian,
        unit,
        abbreviations,
        strings: sections.strings@,
        ranges: sections.ranges@,
        current: None,
        ahead: dwarf::entries_from(big_endian, unit, abbreviations, unit.header_size()),
    }
}

/// The unit with the given header.
pub open spec fn unit_read(
    big_endian: bool,
    unit: UnitHeader,
    sections: Sections,
    limit: nat,
) -> Outcome<UnitRead> {
    if unit.abbrev_offset > sections.abbrev@.len() {
        Err("abbreviation offset out of range"@)
    } else {
        match dwarf::abbreviations_at(sections.abbrev@, unit.abbrev_offset) {
            Err(error) => Err(error::dwarf_text(error)),
            Ok(abbreviations) => match walk::unit_tree(
                start(big_endian, unit, abbreviations, sections),
                limit,
            ) {
                Err(error) => Err(error),
                Ok(root) => Ok(UnitRead { header: unit, root }),
            },
        }
    }
}

/// The units with the given headers, or what is said of the first that is broken.
pub open spec fn units_read(
    big_endian: bool,
    headers: Stream<UnitHeader>,
    sections: Sections,
    limit: nat,
) -> Outcome<Seq<UnitRead>>
    decreases headers.items.len(),
{
    if headers.items.len() == 0 {
        match headers.fault {
            Some(error) => Err(error::dwarf_text(error)),
            None => Ok(seq![]),
        }
    } else {
        match unit_read(big_endian, headers.items[0], sections, limit) {
            Err(error) => Err(error),
            Ok(unit) => behind(
                seq![unit],
                units_read(big_endian, headers.rest(), sections, limit),
            ),
        }
    }
}

/// The outcome of a list whose first units are already there.
pub open spec fn behind(done: Seq<UnitRead>, outcome: Outcome<Seq<UnitRead>>) -> Outcome<
    Seq<UnitRead>,
> {
    match outcome {
        Ok(rest) => Ok(done + rest),
        Err(error) => Err(error),
    }
}

/// A unit at the end of those that are already there may as well be the first of those that
/// come.
proof fn lemma_behind_twice(
    done: Seq<UnitRead>,
    unit: UnitRead,
    outcome: Outcome<Seq<UnitRead>>,
)
    ensures
        behind(done, behind(seq![unit], outcome)) == behind(done.push(unit), outcome),
{
    if let Ok(rest) = outcome {
        assert(done + (seq![unit] + rest) =~= done.push(unit) + rest);
    }
}

/// Whether this is a result with the given outcome.
pub open spec fn outcome_matches(
    result: error::Result<Vec<UnitEntries>>,
    outcome: Outcome<Seq<UnitRead>>,
    strings: Seq<u8>,
) -> bool {
    match result {
        Ok(entries) => outcome matches Ok(units) && all_read(entries@, units, strings),
        Err(error) => outcome == Err::<Seq<UnitRead>, Seq<char>>(error.text()),
    }
}

/// Whether this is the result of reading the sections.
pub open spec fn result_matches(
    result: error::Result<Vec<UnitEntries>>,
    big_endian: bool,
    sections: Sections,
    limit: u64,
) -> bool {
    outcome_matches(
        result,
        units_read(
            big_endian,
            dwarf::unit_headers(big_endian, sections.info@),
            sections,
            limit as nat,
        ),
        sections.strings@,
    )
}

/// Reads the entries of a unit.
fn read_entries<'input, U: UnitSource<'input>>(
    unit: &U,
    sections: &Sections<'input>,
    limit: u64,
) -> (result: error::Result<UnitEntries<'input>>)
    ensures
        match result {
            Ok(entries) => unit_read(U::big_endian(), unit.header(), *sections, limit as nat)
                matches Ok(read) && reads(entries, read, sections.strings@),
            Err(error) => unit_read(U::big_endian(), unit.header(), *sections, limit as nat)
                == Err::<UnitRead, Seq<char>>(error.text()),
        },
{
    if unit.abbrev_offset() > sections.abbrev.len() {
        return Err(Error::from("abbreviation offset out of range"));
    }
    let table = match unit.abbreviations(sections.abbrev) {
        Ok(table) => table,
        Err(error) => {
            return Err(dwarf_error(error.as_str()));
        },
    };
    match unit.root(&table, sections, limit) {
        Ok(root) => Ok(
            UnitEntries { address_size: unit.address_size(), dwarf64: unit.is_dwarf64(), root },
        ),
        Err(error) => Err(error),
    }
}

/// Reads the entries of all units that are still to come.
pub fn read_units<'input, L: UnitList<'input>>(
    from: &mut L,
    sections: &Sections<'input>,
    limit: u64,
) -> (result: error::Result<Vec<UnitEntries<'input>>>)
    ensures
        outcome_matches(
            result,
            units_read(L::Unit::big_endian(), old(from).left(), *sections, limit as nat),
            sections.strings@,
        ),
{
    let ghost whole = units_read(L::Unit::big_endian(), from.left(), *sections, limit as nat);
    let ghost mut done: Seq<UnitRead> = seq![];
    let mut list: Vec<UnitEntries<'input>> = Vec::new();
    proof {
        if let Ok(rest) = whole {
            assert(done + rest =~= rest);
        }
    }
    loop
        invariant
            whole == units_read(
                L::Unit::big_endian(),
                old(from).left(),
                *sections,
                limit as nat,
            ),
            whole == behind(
                done,
                units_read(L::Unit::big_endian(), from.left(), *sections, limit as nat),
            ),
            all_read(list@, done, sections.strings@),
        decreases from.left().items.len(),
    {
        let ghost before = from.left();
        match from.take() {
            Ok(Some(unit)) => {
                match read_entries(&unit, sections, limit) {
                    Ok(entries) => {
                        proof {
                            let unit = unit_read(
                                L::Unit::big_endian(),
                                before.items[0],
                                *sections,
                                limit as nat,
                            )->Ok_0;
                            lemma_behind_twice(
                                done,
                                unit,
                                units_read(
                                    L::Unit::big_endian(),
                                    from.left(),
                                    *sections,
                                    limit as nat,
                                ),
                            );
                            done = done.push(unit);
                        }
                        list.push(entries);
                    },
                    Err(error) => {
                        return Err(error);
                    },
                }
            },
            Ok(None) => {
                assert(done + Seq::<UnitRead>::empty() =~= done);
                return Ok(list);
            },
            Err(error) => {
                return Err(dwarf_error(error.as_str()));
            },
        }
    }
}

/// Reads the entries of all units of a file. The limit is on the steps through the entries
/// of one unit.
pub fn read<'input>(
    sections: &Sections<'input>,
    big_endian: bool,
    limit: u64,
) -> (result: error::Result<Vec<UnitEntries<'input>>>)
    ensures
        result_matches(result, big_endian, *sections, limit),
{
    if big_endian {
        big::read(sections, limit)
    } else {
        little::read(sections, limit)
    }
}

/// Every unit is read: where reading succeeds there is a unit for each header, in their order,
/// with what is read for that header, and nothing is broken behind the last. Where it fails,
/// some unit or the headers behind them are broken.
pub proof fn lemma_every_unit_is_read(
    big_endian: bool,
    headers: Stream<UnitHeader>,
    sections: Sections,
    limit: nat,
    i: int,
)
    ensures
        match units_read(big_endian, headers, sections, limit) {
            Ok(units) => {
                &&& headers.fault is None
                &&& units.len() == headers.items.len()
                &&& 0 <= i < units.len() ==> unit_read(
                    big_endian,
                    headers.items[i],
                    sections,
                    limit,
                ) == Ok::<UnitRead, Seq<char>>(units[i]) && units[i].header == headers.items[i]
            },
            Err(_) => headers.fault is Some || exists|j: int|
                0 <= j < headers.items.len() && unit_read(
                    big_endian,
                    #[trigger] headers.items[j],
                    sections,
                    limit,
                ) is Err,
        },
    decreases headers.items.len(),
{
    if headers.items.len() > 0 {
        let rest = headers.rest();
        lemma_every_unit_is_read(big_endian, rest, sections, limit, i - 1);
        let first = unit_read(big_endian, headers.items[0], sections, limit);
        if first is Ok {
            match units_read(big_endian, rest, sections, limit) {
                Ok(units) => {
                    let all = seq![first->Ok_0] + units;
                    if 0 < i < all.len() {
                        assert(rest.items[i - 1] == headers.items[i]);
                        assert(all[i] == units[i - 1]);
                    }
                },
                Err(_) => {
                    if exists|j: int|
                        0 <= j < rest.items.len() && unit_read(
                            big_endian,
                            #[trigger] rest.items[j],
                            sections,
                            limit,
                        ) is Err {
                        let j = choose|j: int|
                            0 <= j < rest.items.len() && unit_read(
                                big_endian,
                                #[trigger] rest.items[j],
                                sections,
                                limit,
                            ) is Err;
                        assert(headers.items[j + 1] == rest.items[j]);
                    }
                },
            }
        }
    }
}

/// The first unit that is broken is the one that is reported, and where none is, what goes wrong
/// behind the last of them.
pub proof fn lemma_first_broken_unit_is_reported(
    big_endian: bool,
    headers: Stream<UnitHeader>,
    sections: Sections,
    limit: nat,
    count: int,
)
    requires
        0 <= count <= headers.items.len(),
        forall|i: int|
            0 <= i < count ==> unit_read(big_endian, #[trigger] headers.items[i], sections, limit)
                is Ok,
    ensures
        count < headers.items.len() ==> (unit_read(
            big_endian,
            headers.items[count],
            sections,
            limit,
        ) matches Err(error) ==> units_read(big_endian, headers, sections, limit) == Err::<
            Seq<UnitRead>,
            Seq<char>,
        >(error)),
        count == headers.items.len() && headers.fault is Some ==> units_read(
            big_endian,
            headers,
            sections,
            limit,
        ) == Err::<Seq<UnitRead>, Seq<char>>("DWARF error: "@ + headers.fault->0),
        count == headers.items.len() && headers.fault is None ==> units_read(
            big_endian,
            headers,
            sections,
            limit,
        ) is Ok,
    decreases headers.items.len(),
{
    if count > 0 {
        let rest = headers.rest();
        assert forall|i: int| 0 <= i < count - 1 implies unit_read(
            big_endian,
            #[trigger] rest.items[i],
            sections,
            limit,
        ) is Ok by {
            assert(rest.items[i] == headers.items[i + 1]);
        }
        if count < headers.items.len() {
            assert(rest.items[count - 1] == headers.items[count]);
        }
        assert(unit_read(big_endian, headers.items[0], sections, limit) is Ok);
        lemma_first_broken_unit_is_reported(big_endian, rest, sections, limit, count - 1);
    }
}

/// A unit is read only where its abbreviations can be read and its first entry is that of a
/// unit, which is then the root of its entries; otherwise it is said what is wrong.
pub proof fn lemma_unit_starts_with_its_entry(
    big_endian: bool,
    unit: UnitHeader,
    sections: Sections,
    limit: nat,
)
    requires
        limit > 0,
    ensures
        ({
            let result = unit_read(big_endian, unit, sections, limit);
            let said = |words: Seq<char>| result == Err::<UnitRead, Seq<char>>(words);
            if unit.abbrev_offset > sections.abbrev@.len() {
                said("abbreviation offset out of range"@)
            } else {
                match dwarf::abbreviations_at(sections.abbrev@, unit.abbrev_offset) {
                    Err(words) => said("DWARF error: "@ + words),
                    Ok(abbreviations) => {
                        let ahead = dwarf::entries_from(
                            big_endian,
                            unit,
                            abbreviations,
                            if unit.dwarf64 {
                                23
                            } else {
                                11
                            },
                        );
                        if ahead.items.len() == 0 {
                            match ahead.fault {
                                Some(words) => said("DWARF error: "@ + words),
                                None => said("DWARF error: "@ + "UnexpectedEof"@),
                            }
                        } else {
                            match ahead.items[0] {
                                None => said("DWARF error: "@ + "UnexpectedNull"@),
                                Some(entry) => if entry.tag != crate::constants::DW_TAG_compile_unit {
                                    said("unknown CU tag: "@ + crate::names::tag_name(entry.tag))
                                } else {
                                    result matches Ok(read) ==> read.header == unit
                                        && read.root.offset == entry.offset && read.root.tag
                                        == entry.tag && read.root.attributes
                                        == entry.attributes.items && entry.attributes.fault is None
                                },
                            }
                        }
                    },
                }
            }
        }),
{
}

} // verus!

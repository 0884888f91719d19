//! The walk through the entries of a unit.
//!
//! The entries of a unit stand one behind the other, each in front of the entries below it,
//! and a null ends the entries below one. An entry may say where its next sibling is, and
//! then the entries below it need not be read to pass over it. Such a reference can point
//! backwards and make the walk go round in a circle, so the number of steps is limited.

use crate::constants::{
    DW_AT_low_pc, DW_AT_ranges, DW_AT_sibling, DW_TAG_array_type, DW_TAG_base_type,
    DW_TAG_compile_unit, DW_TAG_const_type, DW_TAG_enumeration_type, DW_TAG_enumerator,
    DW_TAG_formal_parameter, DW_TAG_inlined_subroutine, DW_TAG_lexical_block, DW_TAG_member,
    DW_TAG_namespace, DW_TAG_pointer_type, DW_TAG_restrict_type, DW_TAG_structure_type,
    DW_TAG_subprogram, DW_TAG_subrange_type, DW_TAG_subroutine_type, DW_TAG_typedef,
    DW_TAG_union_type, DW_TAG_variable,
};
use crate::dwarf;
use crate::dwarf::{
    Abbreviation, AttributeView, EntryView, Head, Stream, UnitHeader, ValueView,
};
use crate::entry;
use crate::entry::{Attribute, Entry, Form, Range, Value};
use crate::error;
use crate::error::{dwarf_error, Error, Result};
use crate::names;
use crate::names::write_tag;
use vstd::prelude::*;

verus! {

/// Where a walk stands in a unit.
pub struct Spot {
    pub big_endian: bool,
    pub unit: UnitHeader,
    pub abbreviations: Map<u64, Abbreviation>,
    /// The section of strings.
    pub strings: Seq<u8>,
    /// The section of address ranges.
    pub ranges: Seq<u8>,
    /// The entry that the walk stands at, if it stands at one.
    pub current: Option<EntryView>,
    /// What follows.
    pub ahead: Stream<Option<EntryView>>,
}

/// The entries of a unit, as something that goes through them step by step.
pub trait Entries<'input> {
    /// Where it stands.
    spec fn spot(&self) -> Spot;

    /// Goes to what follows. Says whether anything followed.
    fn step(&mut self) -> (result: std::result::Result<bool, String>)
        ensures
            match result {
                Ok(more) => old(self).spot().stepped() == Some((final(self).spot(), more)),
                Err(error) => old(self).spot().stepped() is None
                    && old(self).spot().ahead.fault == Some(error@),
            },
    ;

    /// Goes in front of the entry at an offset, if the offset lies in the unit. Says whether
    /// it does.
    fn jump(&mut self, offset: usize) -> (result: bool)
        ensures
            result == old(self).spot().unit.contains(offset),
            final(self).spot() == (if result {
                old(self).spot().jumped(offset)
            } else {
                old(self).spot()
            }),
    ;

    /// What it stands at.
    fn head(&self) -> (head: Option<Head>)
        ensures
            match head {
                Some(head) => self.spot().current matches Some(current) && head.offset
                    == current.offset && head.tag == current.tag && head.has_children
                    == current.has_children,
                None => self.spot().current is None,
            },
    ;

    /// The attributes of the entry that it stands at, up to one that is broken.
    fn attributes(&self) -> (result: (Vec<Attribute<'input>>, Option<String>))
        requires
            self.spot().current is Some,
        ensures
            attributes_read(
                result.0@,
                self.spot().current->0.attributes.items,
                self.spot().strings,
            ),
            match result.1 {
                Some(error) => self.spot().current->0.attributes.fault == Some(error@),
                None => self.spot().current->0.attributes.fault is None,
            },
    ;

    /// The address ranges at an offset of their section.
    fn ranges(&self, offset: usize, base: u64) -> (result: std::result::Result<Vec<Range>, String>)
        ensures
            match result {
                Ok(list) => self.spot().ranges_at(offset, base) == Ok::<Seq<Range>, Seq<char>>(
                    list@,
                ),
                Err(error) => self.spot().ranges_at(offset, base) == Err::<Seq<Range>, Seq<char>>(
                    error@,
                ),
            },
    ;
}

/// Whether these are attributes as they are read.
pub open spec fn attributes_read(
    attributes: Seq<Attribute>,
    views: Seq<AttributeView>,
    strings: Seq<u8>,
) -> bool {
    &&& attributes.len() == views.len()
    &&& forall|i: int|
        0 <= i < attributes.len() ==> (#[trigger] attributes[i]).reads(views[i], strings)
}

impl Spot {
    /// One step on, and whether anything followed; none where what follows is broken.
    pub open spec fn stepped(self) -> Option<(Spot, bool)> {
        if self.ahead.items.len() > 0 {
            Some((Spot { current: self.ahead.items[0], ahead: self.ahead.rest(), ..self }, true))
        } else if self.ahead.fault is Some {
            None
        } else {
            Some((Spot { current: None, ..self }, false))
        }
    }

    /// In front of the entry at an offset.
    pub open spec fn jumped(self, offset: usize) -> Spot {
        Spot {
            current: None,
            ahead: dwarf::entries_from(
                self.big_endian,
                self.unit,
                self.abbreviations,
                offset as int,
            ),
            ..self
        }
    }

    /// All address ranges at an offset of their section, unless one of them is broken.
    pub open spec fn ranges_at(self, offset: usize, base: u64) -> std::result::Result<
        Seq<Range>,
        Seq<char>,
    > {
        match dwarf::ranges_at(
            self.big_endian,
            self.ranges,
            offset,
            self.unit.address_size,
            base,
        ) {
            Ok(stream) => match stream.fault {
                Some(error) => Err(error),
                None => Ok(stream.items),
            },
            Err(error) => Err(error),
        }
    }
}

/// What the entries below an entry are looked at for.
#[derive(Clone, Copy, Debug)]
pub enum Level {
    /// Everything that can be declared in a unit or a namespace.
    Scope,
    /// Members and subprograms.
    Structure,
    /// The values of an enumeration, and subprograms.
    Enumeration,
    /// The bounds of an array.
    Array,
    /// Parameters.
    Subroutine,
    /// Parameters, variables, blocks and inlined subroutines.
    Subprogram,
    /// Variables, blocks and inlined subroutines.
    Block,
    /// Blocks and inlined subroutines.
    Inlined,
    /// Nothing.
    Plain,
    /// The entries below are not even passed through.
    Bound,
}

impl Level {
    /// How an entry with the given tag is looked at below this one; none where it is passed
    /// over.
    pub open spec fn below(self, tag: u64) -> Option<Level> {
        match self {
            Level::Scope => if tag == DW_TAG_namespace {
                Some(Level::Scope)
            } else if tag == DW_TAG_subprogram {
                Some(Level::Subprogram)
            } else if tag == DW_TAG_structure_type || tag == DW_TAG_union_type {
                Some(Level::Structure)
            } else if tag == DW_TAG_enumeration_type {
                Some(Level::Enumeration)
            } else if tag == DW_TAG_array_type {
                Some(Level::Array)
            } else if tag == DW_TAG_subroutine_type {
                Some(Level::Subroutine)
            } else if tag == DW_TAG_variable || tag == DW_TAG_base_type || tag == DW_TAG_typedef
                || tag == DW_TAG_const_type || tag == DW_TAG_pointer_type || tag
                == DW_TAG_restrict_type {
                Some(Level::Plain)
            } else {
                None
            },
            Level::Structure => if tag == DW_TAG_subprogram {
                Some(Level::Subprogram)
            } else if tag == DW_TAG_member {
                Some(Level::Plain)
            } else {
                None
            },
            Level::Enumeration => if tag == DW_TAG_subprogram {
                Some(Level::Subprogram)
            } else if tag == DW_TAG_enumerator {
                Some(Level::Plain)
            } else {
                None
            },
            Level::Array => if tag == DW_TAG_subrange_type {
                Some(Level::Bound)
            } else {
                None
            },
            Level::Subroutine => if tag == DW_TAG_formal_parameter {
                Some(Level::Plain)
            } else {
                None
            },
            Level::Subprogram => if tag == DW_TAG_formal_parameter || tag == DW_TAG_variable {
                Some(Level::Plain)
            } else if tag == DW_TAG_inlined_subroutine {
                Some(Level::Inlined)
            } else if tag == DW_TAG_lexical_block {
                Some(Level::Block)
            } else {
                None
            },
            Level::Block => if tag == DW_TAG_variable {
                Some(Level::Plain)
            } else if tag == DW_TAG_inlined_subroutine {
                Some(Level::Inlined)
            } else if tag == DW_TAG_lexical_block {
                Some(Level::Block)
            } else {
                None
            },
            Level::Inlined => if tag == DW_TAG_inlined_subroutine {
                Some(Level::Inlined)
            } else if tag == DW_TAG_lexical_block {
                Some(Level::Block)
            } else {
                None
            },
            Level::Plain => None,
            Level::Bound => None,
        }
    }

    /// How an entry with the given tag is looked at below this one.
    pub fn get_below(&self, tag: u64) -> (level: Option<Level>)
        ensures
            level == self.below(tag),
    {
        match self {
            Level::Scope => match tag {
                DW_TAG_namespace => Some(Level::Scope),
                DW_TAG_subprogram => Some(Level::Subprogram),
                DW_TAG_structure_type | DW_TAG_union_type => Some(Level::Structure),
                DW_TAG_enumeration_type => Some(Level::Enumeration),
                DW_TAG_array_type => Some(Level::Array),
                DW_TAG_subroutine_type => Some(Level::Subroutine),
                DW_TAG_variable | DW_TAG_base_type | DW_TAG_typedef | DW_TAG_const_type
                | DW_TAG_pointer_type | DW_TAG_restrict_type => Some(Level::Plain),
                _ => None,
            },
            Level::Structure => match tag {
                DW_TAG_subprogram => Some(Level::Subprogram),
                DW_TAG_member => Some(Level::Plain),
                _ => None,
            },
            Level::Enumeration => match tag {
                DW_TAG_subprogram => Some(Level::Subprogram),
                DW_TAG_enumerator => Some(Level::Plain),
                _ => None,
            },
            Level::Array => match tag {
                DW_TAG_subrange_type => Some(Level::Bound),
                _ => None,
            },
            Level::Subroutine => match tag {
                DW_TAG_formal_parameter => Some(Level::Plain),
                _ => None,
            },
            Level::Subprogram => match tag {
                DW_TAG_formal_parameter | DW_TAG_variable => Some(Level::Plain),
                DW_TAG_inlined_subroutine => Some(Level::Inlined),
                DW_TAG_lexical_block => Some(Level::Block),
                _ => None,
            },
            Level::Block => match tag {
                DW_TAG_variable => Some(Level::Plain),
                DW_TAG_inlined_subroutine => Some(Level::Inlined),
                DW_TAG_lexical_block => Some(Level::Block),
                _ => None,
            },
            Level::Inlined => match tag {
                DW_TAG_inlined_subroutine => Some(Level::Inlined),
                DW_TAG_lexical_block => Some(Level::Block),
                _ => None,
            },
            Level::Plain | Level::Bound => None,
        }
    }
}

/// An entry with those below it that are looked at.
pub struct Tree {
    pub offset: usize,
    pub tag: u64,
    pub attributes: Seq<AttributeView>,
    pub ranges: Seq<Range>,
    pub children: Seq<Tree>,
}

impl<'input> Entry<'input> {
    /// Whether this is an entry as it is read.
    pub open spec fn reads(self, tree: Tree, strings: Seq<u8>) -> bool
        decreases self,
    {
        &&& self.offset == tree.offset
        &&& self.tag == tree.tag
        &&& attributes_read(self.attrs@, tree.attributes, strings)
        &&& self.ranges@ == tree.ranges
        &&& self.children@.len() == tree.children.len()
        &&& forall|i: int|
            0 <= i < tree.children.len() ==> (#[trigger] self.children@[i]).reads(
                tree.children[i],
                strings,
            )
    }
}

/// Whether these are entries as they are read.
pub open spec fn entries_read(entries: Seq<Entry>, trees: Seq<Tree>, strings: Seq<u8>) -> bool {
    &&& entries.len() == trees.len()
    &&& forall|i: int|
        0 <= i < entries.len() ==> (#[trigger] entries[i]).reads(trees[i], strings)
}

/// A walk under way: where it stands, and how many steps it may still take.
pub struct Walk {
    pub spot: Spot,
    pub left: nat,
}

/// What is said where the steps that may be taken do not suffice.
pub open spec fn too_many() -> Seq<char> {
    "too many entries"@
}

/// A result, or what is said in place of one.
pub type Outcome<T> = std::result::Result<T, Seq<char>>;

impl Walk {
    /// One step on, and whether anything followed.
    pub open spec fn step(self) -> Outcome<(Walk, bool)> {
        if self.left == 0 {
            Err(too_many())
        } else {
            match self.spot.stepped() {
                Some((spot, more)) => Ok((Walk { spot, left: (self.left - 1) as nat }, more)),
                None => Err(error::dwarf_text(self.spot.ahead.fault->0)),
            }
        }
    }

    /// Goes past the entry that the walk stands at to its next sibling, or to the null that
    /// ends the siblings. `depth` counts how far below the siblings the walk is. An entry
    /// that says where its sibling is need not be gone through.
    pub open spec fn skip(self, depth: nat) -> Outcome<Walk>
        decreases self.left,
    {
        match self.over(depth) {
            Err(error) => Err(error),
            Ok((walk, depth)) => match walk.step() {
                Err(error) => Err(error),
                Ok((walk, more)) => if !more || depth == 0 {
                    Ok(walk)
                } else {
                    walk.skip(
                        if walk.spot.current is None {
                            (depth - 1) as nat
                        } else {
                            depth
                        },
                    )
                },
            },
        }
    }

    /// What lies between an entry and what follows it: nothing where no entries stand below
    /// it, or where it says where its sibling is; else the entries below it, one deeper.
    pub open spec fn over(self, depth: nat) -> Outcome<(Walk, nat)> {
        match self.spot.current {
            Some(entry) => if entry.has_children {
                match sibling(entry.attributes) {
                    Err(error) => Err(error::dwarf_text(error)),
                    Ok(Some(offset)) => if self.spot.unit.contains(offset) {
                        Ok((Walk { spot: self.spot.jumped(offset), ..self }, depth))
                    } else {
                        Ok((self, depth + 1))
                    },
                    Ok(None) => Ok((self, depth + 1)),
                }
            } else {
                Ok((self, depth))
            },
            None => Ok((self, depth)),
        }
    }

    /// The entry that the walk stands at, with those below it, and where the walk stands
    /// behind them.
    pub open spec fn tree(self, level: Level) -> Outcome<(Tree, Walk)>
        decreases self.left, 2nat,
    {
        let entry = self.spot.current->0;
        match entry.attributes.fault {
            Some(error) => Err(error::dwarf_text(error)),
            None => match self.own_ranges(level) {
                Err(error) => Err(error::dwarf_text(error)),
                Ok(ranges) => match (if level is Bound {
                    Ok((seq![], self))
                } else {
                    self.children(level)
                }) {
                    Err(error) => Err(error),
                    Ok((children, walk)) => Ok(
                        (
                            Tree {
                                offset: entry.offset,
                                tag: entry.tag,
                                attributes: entry.attributes.items,
                                ranges,
                                children,
                            },
                            walk,
                        ),
                    ),
                },
            },
        }
    }

    /// The address ranges of an inlined subroutine that names a range list.
    pub open spec fn own_ranges(self, level: Level) -> Outcome<Seq<Range>> {
        let attributes = self.spot.current->0.attributes.items;
        match last_range_list(attributes) {
            Some(offset) => if level is Inlined {
                self.spot.ranges_at(
                    offset,
                    match last_low_pc(attributes) {
                        Some(low_pc) => low_pc,
                        None => 0,
                    },
                )
            } else {
                Ok(seq![])
            },
            None => Ok(seq![]),
        }
    }

    /// The entries below the one that the walk stands at.
    pub open spec fn children(self, level: Level) -> Outcome<(Seq<Tree>, Walk)>
        decreases self.left, 1nat,
    {
        if !self.spot.current->0.has_children {
            Ok((seq![], self))
        } else {
            match self.step() {
                Err(error) => Err(error),
                Ok((walk, _)) => if walk.spot.current is None {
                    Ok((seq![], walk))
                } else {
                    walk.siblings(level)
                },
            }
        }
    }

    /// The entry that the walk stands at, if it is looked at, and where the walk stands
    /// behind it.
    pub open spec fn first(self, level: Level) -> Outcome<(Seq<Tree>, Walk)>
        decreases self.left, 3nat,
    {
        match level.below(self.spot.current->0.tag) {
            Some(below) => match self.tree(below) {
                Err(error) => Err(error),
                Ok((tree, walk)) => Ok((seq![tree], walk)),
            },
            None => Ok((seq![], self)),
        }
    }

    /// The entry that the walk stands at, if it is looked at, and where the walk stands when
    /// it has gone on to the next sibling.
    pub open spec fn one(self, level: Level) -> Outcome<(Seq<Tree>, Walk)>
        decreases self.left, 4nat,
    {
        match self.first(level) {
            Err(error) => Err(error),
            Ok((first, walk)) => match walk.past() {
                Err(error) => Err(error),
                Ok(walk) => Ok((first, walk)),
            },
        }
    }

    /// The entry that the walk stands at and its siblings, those that are looked at, and
    /// where the walk stands behind them. Each sibling takes at least a step.
    pub open spec fn siblings(self, level: Level) -> Outcome<(Seq<Tree>, Walk)>
        decreases self.left, 5nat,
    {
        match self.one(level) {
            Err(error) => Err(error),
            Ok((first, walk)) => if walk.spot.current is None || walk.left >= self.left {
                Ok((first, walk))
            } else {
                match walk.siblings(level) {
                    Err(error) => Err(error),
                    Ok((rest, walk)) => Ok((first + rest, walk)),
                }
            },
        }
    }

    /// Goes on to the next sibling: past the entry that the walk stands at, or where it
    /// stands at the null that ended the entries below one, just on.
    pub open spec fn past(self) -> Outcome<Walk> {
        if self.spot.current is Some {
            self.skip(0)
        } else {
            match self.step() {
                Err(error) => Err(error),
                Ok((walk, _)) => Ok(walk),
            }
        }
    }
}

/// Where an entry says that its next sibling is, by the first attribute for that. Fails
/// where an attribute is broken before such an attribute is found.
pub open spec fn sibling(attributes: Stream<AttributeView>) -> Outcome<Option<usize>>
    decreases attributes.items.len(),
{
    if attributes.items.len() > 0 {
        if attributes.items[0].name == DW_AT_sibling {
            Ok(
                match attributes.items[0].value {
                    ValueView::UnitRef(offset) => Some(offset),
                    _ => None,
                },
            )
        } else {
            sibling(attributes.rest())
        }
    } else {
        match attributes.fault {
            Some(error) => Err(error),
            None => Ok(None),
        }
    }
}

/// The range list that the last attribute for one refers to.
pub open spec fn last_range_list(attributes: Seq<AttributeView>) -> Option<usize>
    decreases attributes.len(),
{
    if attributes.len() == 0 {
        None
    } else {
        match attributes.last().value {
            ValueView::DebugRangesRef(offset) if attributes.last().name == DW_AT_ranges => Some(
                offset,
            ),
            _ => last_range_list(attributes.drop_last()),
        }
    }
}

/// The address that the last attribute for the first address gives.
pub open spec fn last_low_pc(attributes: Seq<AttributeView>) -> Option<u64>
    decreases attributes.len(),
{
    if attributes.len() == 0 {
        None
    } else {
        match attributes.last().value {
            ValueView::Addr(address) if attributes.last().name == DW_AT_low_pc => Some(address),
            _ => last_low_pc(attributes.drop_last()),
        }
    }
}

/// The entries of a unit.
pub open spec fn unit_tree(spot: Spot, limit: nat) -> Outcome<Tree> {
    match (Walk { spot, left: limit }).step() {
        Err(error) => Err(error),
        Ok((walk, more)) => if !more {
            Err(error::dwarf_text("UnexpectedEof"@))
        } else {
            match walk.spot.current {
                None => Err(error::dwarf_text("UnexpectedNull"@)),
                Some(entry) => if entry.tag != DW_TAG_compile_unit {
                    Err("unknown CU tag: "@ + names::tag_name(entry.tag))
                } else {
                    match walk.tree(Level::Scope) {
                        Err(error) => Err(error),
                        Ok((tree, _)) => Ok(tree),
                    }
                },
            }
        },
    }
}

/// A walk at a spot, with the given number of steps left.
pub open spec fn walk_at(spot: Spot, left: u64) -> Walk {
    Walk { spot, left: left as nat }
}

/// Whether two spots lie in one unit.
pub open spec fn same_unit(a: Spot, b: Spot) -> bool {
    &&& a.big_endian == b.big_endian
    &&& a.unit == b.unit
    &&& a.abbreviations == b.abbreviations
    &&& a.strings == b.strings
    &&& a.ranges == b.ranges
}

fn advance<'input, E: Entries<'input>>(entries: &mut E, left: &mut u64) -> (result: Result<bool>)
    ensures
        match result {
            Ok(more) => {
                &&& walk_at(old(entries).spot(), *old(left)).step() == Ok::<(Walk, bool), Seq<char>>(
                    (walk_at(final(entries).spot(), *final(left)), more),
                )
                &&& *final(left) + 1 == *old(left)
                &&& same_unit(old(entries).spot(), final(entries).spot())
            },
            Err(error) => walk_at(old(entries).spot(), *old(left)).step() == Err::<
                (Walk, bool),
                Seq<char>,
            >(error.text()),
        },
{
    if *left == 0 {
        return Err(Error::from("too many entries"));
    }
    match entries.step() {
        Ok(more) => {
            *left = *left - 1;
            Ok(more)
        },
        Err(error) => Err(dwarf_error(error.as_str())),
    }
}

fn find_sibling<'input>(
    attributes: &Vec<Attribute<'input>>,
    fault: Option<String>,
    Ghost(stream): Ghost<Stream<AttributeView>>,
    Ghost(strings): Ghost<Seq<u8>>,
) -> (result: Result<Option<usize>>)
    requires
        attributes_read(attributes@, stream.items, strings),
        match fault {
            Some(error) => stream.fault == Some(error@),
            None => stream.fault is None,
        },
    ensures
        match result {
            Ok(offset) => sibling(stream) == Ok::<Option<usize>, Seq<char>>(offset),
            Err(error) => sibling(stream) matches Err(text) && error.text() == error::dwarf_text(text),
        },
{
    let mut i: usize = 0;
    assert(stream.items.skip(0) =~= stream.items);
    while i < attributes.len()
        invariant
            i <= attributes.len(),
            attributes_read(attributes@, stream.items, strings),
            sibling(stream) == sibling(
                Stream { items: stream.items.skip(i as int), fault: stream.fault },
            ),
        decreases attributes.len() - i,
    {
        let attr = &attributes[i];
        let ghost rest = Stream { items: stream.items.skip(i as int), fault: stream.fault };
        assert(attributes@[i as int].reads(stream.items[i as int], strings));
        assert(rest.items[0] == stream.items[i as int]);
        if attr.name == DW_AT_sibling {
            if let Value::UnitRef(offset) = attr.value {
                return Ok(Some(offset));
            }
            return Ok(None);
        }
        assert(rest.rest().items =~= stream.items.skip(i + 1));
        i = i + 1;
    }
    match fault {
        Some(error) => Err(dwarf_error(error.as_str())),
        None => Ok(None),
    }
}

/// Goes to the next sibling of the entry that the walk stands at.
fn skip<'input, E: Entries<'input>>(entries: &mut E, left: &mut u64) -> (result: Result<()>)
    ensures
        match result {
            Ok(_) => {
                &&& walk_at(old(entries).spot(), *old(left)).skip(0) == Ok::<Walk, Seq<char>>(
                    walk_at(final(entries).spot(), *final(left)),
                )
                &&& *final(left) < *old(left)
                &&& same_unit(old(entries).spot(), final(entries).spot())
            },
            Err(error) => walk_at(old(entries).spot(), *old(left)).skip(0) == Err::<
                Walk,
                Seq<char>,
            >(error.text()),
        },
{
    let ghost start = walk_at(entries.spot(), *left);
    let mut depth: u64 = 0;
    loop
        invariant
            start == walk_at(old(entries).spot(), *old(left)),
            same_unit(old(entries).spot(), entries.spot()),
            start.skip(0) == walk_at(entries.spot(), *left).skip(depth as nat),
            depth + *left <= *old(left),
        decreases *left,
    {
        let ghost here = walk_at(entries.spot(), *left);
        let ghost above = depth;
        if let Some(head) = entries.head() {
            if head.has_children {
                let (attributes, fault) = entries.attributes();
                let ghost stream = entries.spot().current->0.attributes;
                let place = match find_sibling(
                    &attributes,
                    fault,
                    Ghost(stream),
                    Ghost(entries.spot().strings),
                ) {
                    Ok(place) => place,
                    Err(error) => {
                        return Err(error);
                    },
                };
                let jumped = match place {
                    Some(offset) => entries.jump(offset),
                    None => false,
                };
                if *left == 0 {
                    return Err(Error::from("too many entries"));
                }
                if !jumped {
                    depth = depth + 1;
                }
            }
        }
        assert(here.over(above as nat) == Ok::<(Walk, nat), Seq<char>>(
            (walk_at(entries.spot(), *left), depth as nat),
        ));
        let more = match advance(entries, left) {
            Ok(more) => more,
            Err(error) => {
                return Err(error);
            },
        };
        if !more || depth == 0 {
            return Ok(());
        }
        if entries.head().is_none() {
            depth = depth - 1;
        }
    }
}

proof fn lemma_range_list_read(
    attributes: Seq<Attribute>,
    views: Seq<AttributeView>,
    strings: Seq<u8>,
)
    requires
        attributes_read(attributes, views, strings),
    ensures
        match entry::last_attribute(attributes, DW_AT_ranges, Form::DebugRangesRef) {
            Some(attr) => last_range_list(views) == Some(attr.value->DebugRangesRef_0),
            None => last_range_list(views) is None,
        },
        match entry::last_attribute(attributes, DW_AT_low_pc, Form::Addr) {
            Some(attr) => last_low_pc(views) == Some(attr.value->Addr_0),
            None => last_low_pc(views) is None,
        },
    decreases attributes.len(),
{
    if attributes.len() > 0 {
        let last = attributes.len() - 1;
        assert(attributes[last].reads(views[last], strings));
        assert forall|i: int| 0 <= i < last implies (#[trigger] attributes.drop_last()[i]).reads(
            views.drop_last()[i],
            strings,
        ) by {
            assert(attributes[i].reads(views[i], strings));
        }
        lemma_range_list_read(attributes.drop_last(), views.drop_last(), strings);
    }
}

/// The outcome of a list whose first entries are already there.
spec fn behind(done: Seq<Tree>, outcome: Outcome<(Seq<Tree>, Walk)>) -> Outcome<(Seq<Tree>, Walk)> {
    match outcome {
        Ok((rest, walk)) => Ok((done + rest, walk)),
        Err(error) => Err(error),
    }
}

proof fn lemma_behind_twice(
    done: Seq<Tree>,
    more: Seq<Tree>,
    outcome: Outcome<(Seq<Tree>, Walk)>,
)
    ensures
        behind(done, behind(more, outcome)) == behind(done + more, outcome),
{
    if let Ok((rest, walk)) = outcome {
        assert(done + (more + rest) =~= done + more + rest);
    }
}

proof fn lemma_entries_read_append(
    entries: Seq<Entry>,
    trees: Seq<Tree>,
    strings: Seq<u8>,
    last: Entry,
    tree: Tree,
)
    requires
        entries_read(entries, trees, strings),
        last.reads(tree, strings),
    ensures
        entries_read(entries.push(last), trees + seq![tree], strings),
{
    assert(trees + seq![tree] =~= trees.push(tree));
}

/// Reads the entry that the walk stands at, with those below it.
fn read_tree<'input, E: Entries<'input>>(entries: &mut E, left: &mut u64, level: Level) -> (result:
    Result<Entry<'input>>)
    requires
        old(entries).spot().current is Some,
    ensures
        match result {
            Ok(entry) => {
                &&& walk_at(old(entries).spot(), *old(left)).tree(level) matches Ok((tree, walk))
                &&& entry.reads(tree, old(entries).spot().strings)
                &&& walk == walk_at(final(entries).spot(), *final(left))
                &&& *final(left) <= *old(left)
                &&& same_unit(old(entries).spot(), final(entries).spot())
            },
            Err(error) => walk_at(old(entries).spot(), *old(left)).tree(level) == Err::<
                (Tree, Walk),
                Seq<char>,
            >(error.text()),
        },
    decreases *old(left), 2nat,
{
    let ghost start = walk_at(entries.spot(), *left);
    let ghost view = entries.spot().current->0;
    let head = match entries.head() {
        Some(head) => head,
        None => {
            return Err(Error::from("missing entry"));
        },
    };
    let (attrs, fault) = entries.attributes();
    if let Some(error) = fault {
        return Err(dwarf_error(error.as_str()));
    }
    let mut entry = Entry {
        offset: head.offset,
        tag: head.tag,
        attrs,
        ranges: Vec::new(),
        children: Vec::new(),
    };
    proof {
        lemma_range_list_read(entry.attrs@, view.attributes.items, entries.spot().strings);
    }
    if let Level::Inlined = level {
        if let Some(offset) = entry.get_ranges_ref(DW_AT_ranges) {
            let base = match entry.get_address(DW_AT_low_pc) {
                Some(low_pc) => low_pc,
                None => 0,
            };
            match entries.ranges(offset, base) {
                Ok(ranges) => {
                    entry.ranges = ranges;
                },
                Err(error) => {
                    return Err(dwarf_error(error.as_str()));
                },
            }
        }
    }
    assert(start.own_ranges(level) == Ok::<Seq<Range>, Seq<char>>(entry.ranges@));
    let bound = match level {
        Level::Bound => true,
        _ => false,
    };
    if !bound {
        match read_children(entries, left, level) {
            Ok(children) => {
                entry.children = children;
            },
            Err(error) => {
                return Err(error);
            },
        }
    }
    Ok(entry)
}

/// Reads the entry that the walk stands at, if it is looked at, and goes on to the next
/// sibling.
fn read_one<'input, E: Entries<'input>>(entries: &mut E, left: &mut u64, level: Level) -> (result:
    Result<Option<Entry<'input>>>)
    requires
        old(entries).spot().current is Some,
    ensures
        match result {
            Ok(found) => {
                &&& walk_at(old(entries).spot(), *old(left)).one(level) matches Ok((trees, walk))
                &&& match found {
                    Some(entry) => trees.len() == 1 && entry.reads(
                        trees[0],
                        old(entries).spot().strings,
                    ),
                    None => trees.len() == 0,
                }
                &&& walk == walk_at(final(entries).spot(), *final(left))
                &&& *final(left) < *old(left)
                &&& same_unit(old(entries).spot(), final(entries).spot())
            },
            Err(error) => walk_at(old(entries).spot(), *old(left)).one(level) == Err::<
                (Seq<Tree>, Walk),
                Seq<char>,
            >(error.text()),
        },
    decreases *old(left), 4nat,
{
    let ghost here = walk_at(entries.spot(), *left);
    let mut found: Option<Entry<'input>> = None;
    if let Some(head) = entries.head() {
        if let Some(below) = level.get_below(head.tag) {
            match read_tree(entries, left, below) {
                Ok(entry) => {
                    found = Some(entry);
                },
                Err(error) => {
                    return Err(error);
                },
            }
        }
    }
    let ghost there = walk_at(entries.spot(), *left);
    assert(here.first(level) matches Ok((trees, walk)) && walk == there);
    if entries.head().is_some() {
        if let Err(error) = skip(entries, left) {
            return Err(error);
        }
    } else {
        if let Err(error) = advance(entries, left) {
            return Err(error);
        }
    }
    Ok(found)
}

/// Reads the entries below the one that the walk stands at.
fn read_children<'input, E: Entries<'input>>(
    entries: &mut E,
    left: &mut u64,
    level: Level,
) -> (result: Result<Vec<Entry<'input>>>)
    requires
        old(entries).spot().current is Some,
    ensures
        match result {
            Ok(list) => {
                &&& walk_at(old(entries).spot(), *old(left)).children(level) matches Ok(
                    (trees, walk),
                )
                &&& entries_read(list@, trees, old(entries).spot().strings)
                &&& walk == walk_at(final(entries).spot(), *final(left))
                &&& *final(left) <= *old(left)
                &&& same_unit(old(entries).spot(), final(entries).spot())
            },
            Err(error) => walk_at(old(entries).spot(), *old(left)).children(level) == Err::<
                (Seq<Tree>, Walk),
                Seq<char>,
            >(error.text()),
        },
    decreases *old(left), 1nat,
{
    let mut list: Vec<Entry<'input>> = Vec::new();
    if let Some(head) = entries.head() {
        if !head.has_children {
            return Ok(list);
        }
    }
    if let Err(error) = advance(entries, left) {
        return Err(error);
    }
    let ghost all = walk_at(old(entries).spot(), *old(left)).children(level);
    let ghost mut done: Seq<Tree> = seq![];
    proof {
        if let Ok((rest, walk)) = walk_at(entries.spot(), *left).siblings(level) {
            assert(done + rest =~= rest);
        }
    }
    while entries.head().is_some()
        invariant
            *left < *old(left),
            same_unit(old(entries).spot(), entries.spot()),
            entries_read(list@, done, old(entries).spot().strings),
            all == (if entries.spot().current is None {
                Ok((done, walk_at(entries.spot(), *left)))
            } else {
                behind(done, walk_at(entries.spot(), *left).siblings(level))
            }),
            all == walk_at(old(entries).spot(), *old(left)).children(level),
        decreases *left,
    {
        let ghost here = walk_at(entries.spot(), *left);
        match read_one(entries, left, level) {
            Ok(found) => {
                proof {
                    lemma_sibling_read(done, here, level);
                }
                let ghost more = here.one(level)->Ok_0.0;
                if let Some(entry) = found {
                    proof {
                        lemma_entries_read_append(
                            list@,
                            done,
                            old(entries).spot().strings,
                            entry,
                            more[0],
                        );
                        assert(more =~= seq![more[0]]);
                    }
                    list.push(entry);
                } else {
                    assert(done + more =~= done);
                }
                proof {
                    done = done + more;
                }
            },
            Err(error) => {
                return Err(error);
            },
        }
    }
    Ok(list)
}

proof fn lemma_sibling_read(done: Seq<Tree>, here: Walk, level: Level)
    requires
        here.one(level) is Ok,
        here.one(level)->Ok_0.1.left < here.left,
    ensures
        ({
            let (more, walk) = here.one(level)->Ok_0;
            behind(done, here.siblings(level)) == if walk.spot.current is None {
                Ok((done + more, walk))
            } else {
                behind(done + more, walk.siblings(level))
            }
        }),
{
    let (more, walk) = here.one(level)->Ok_0;
    if walk.spot.current is Some {
        assert(here.siblings(level) == behind(more, walk.siblings(level)));
        lemma_behind_twice(done, more, walk.siblings(level));
    }
}

/// Reads the entries of a unit. Fails where more steps would be taken than the limit
/// allows.
pub fn read_unit<'input, E: Entries<'input>>(entries: &mut E, limit: u64) -> (result: Result<
    Entry<'input>,
>)
    ensures
        match result {
            Ok(root) => unit_tree(old(entries).spot(), limit as nat) matches Ok(tree)
                && root.reads(tree, old(entries).spot().strings),
            Err(error) => unit_tree(old(entries).spot(), limit as nat) == Err::<Tree, Seq<char>>(
                error.text(),
            ),
        },
{
    let mut left: u64 = limit;
    match advance(entries, &mut left) {
        Ok(more) => {
            if !more {
                return Err(dwarf_error("UnexpectedEof"));
            }
        },
        Err(error) => {
            return Err(error);
        },
    }
    match entries.head() {
        Some(head) => {
            if head.tag != DW_TAG_compile_unit {
                let mut message = String::new();
                message.append("unknown CU tag: ");
                write_tag(&mut message, head.tag);
                assert(message@ =~= "unknown CU tag: "@ + names::tag_name(head.tag));
                return Err(Error::from(message));
            }
        },
        None => {
            return Err(dwarf_error("UnexpectedNull"));
        },
    }
    read_tree(entries, &mut left, Level::Scope)
}

/// The same walk with more steps left.
spec fn with_more(walk: Walk, more: nat) -> Walk {
    Walk { spot: walk.spot, left: walk.left + more }
}

spec fn walk_with_more(outcome: Outcome<Walk>, more: nat) -> Outcome<Walk> {
    match outcome {
        Ok(walk) => Ok(with_more(walk, more)),
        Err(error) => Err(error),
    }
}

spec fn with_more_behind<T>(outcome: Outcome<(T, Walk)>, more: nat) -> Outcome<(T, Walk)> {
    match outcome {
        Ok((result, walk)) => Ok((result, with_more(walk, more))),
        Err(error) => Err(error),
    }
}

proof fn lemma_more_skip(walk: Walk, depth: nat, more: nat)
    ensures
        walk.skip(depth) == Err::<Walk, Seq<char>>(too_many()) || with_more(walk, more).skip(depth)
            == walk_with_more(walk.skip(depth), more),
    decreases walk.left,
{
    if let Ok((over, deeper)) = walk.over(depth) {
        assert(with_more(walk, more).over(depth) == Ok::<(Walk, nat), Seq<char>>(
            (with_more(over, more), deeper),
        ));
        if let Ok((next, followed)) = over.step() {
            assert(with_more(over, more).step() == Ok::<(Walk, bool), Seq<char>>(
                (with_more(next, more), followed),
            ));
            if followed && deeper > 0 {
                let depth = if next.spot.current is None {
                    (deeper - 1) as nat
                } else {
                    deeper
                };
                lemma_more_skip(next, depth, more);
            }
        }
    }
}

proof fn lemma_more_past(walk: Walk, more: nat)
    ensures
        walk.past() == Err::<Walk, Seq<char>>(too_many()) || with_more(walk, more).past()
            == walk_with_more(walk.past(), more),
{
    if walk.spot.current is Some {
        lemma_more_skip(walk, 0, more);
    } else if let Ok((next, followed)) = walk.step() {
        assert(with_more(walk, more).step() == Ok::<(Walk, bool), Seq<char>>(
            (with_more(next, more), followed),
        ));
    }
}

proof fn lemma_more_tree(walk: Walk, level: Level, more: nat)
    ensures
        walk.tree(level) == Err::<(Tree, Walk), Seq<char>>(too_many()) || with_more(
            walk,
            more,
        ).tree(level) == with_more_behind(walk.tree(level), more),
    decreases walk.left, 2nat,
{
    assert(with_more(walk, more).own_ranges(level) == walk.own_ranges(level));
    if !(level is Bound) {
        lemma_more_children(walk, level, more);
    }
}

proof fn lemma_more_children(walk: Walk, level: Level, more: nat)
    ensures
        walk.children(level) == Err::<(Seq<Tree>, Walk), Seq<char>>(too_many()) || with_more(
            walk,
            more,
        ).children(level) == with_more_behind(walk.children(level), more),
    decreases walk.left, 1nat,
{
    if walk.spot.current->0.has_children {
        if let Ok((next, followed)) = walk.step() {
            assert(with_more(walk, more).step() == Ok::<(Walk, bool), Seq<char>>(
                (with_more(next, more), followed),
            ));
            if next.spot.current is Some {
                lemma_more_siblings(next, level, more);
            }
        }
    }
}

proof fn lemma_more_one(walk: Walk, level: Level, more: nat)
    ensures
        walk.one(level) == Err::<(Seq<Tree>, Walk), Seq<char>>(too_many()) || with_more(
            walk,
            more,
        ).one(level) == with_more_behind(walk.one(level), more),
    decreases walk.left, 4nat,
{
    if let Some(below) = level.below(walk.spot.current->0.tag) {
        lemma_more_tree(walk, below, more);
    }
    if let Ok((first, next)) = walk.first(level) {
        assert(with_more(walk, more).first(level) == Ok::<(Seq<Tree>, Walk), Seq<char>>(
            (first, with_more(next, more)),
        ));
        lemma_more_past(next, more);
    }
}

proof fn lemma_more_siblings(walk: Walk, level: Level, more: nat)
    ensures
        walk.siblings(level) == Err::<(Seq<Tree>, Walk), Seq<char>>(too_many()) || with_more(
            walk,
            more,
        ).siblings(level) == with_more_behind(walk.siblings(level), more),
    decreases walk.left, 5nat,
{
    lemma_more_one(walk, level, more);
    if let Ok((first, next)) = walk.one(level) {
        if next.spot.current is Some && next.left < walk.left {
            lemma_more_siblings(next, level, more);
        }
    }
}

/// A limit on the steps changes nothing where it suffices: with a greater limit a unit is read
/// alike, and fails alike.
pub proof fn lemma_limit_only_cuts_off(spot: Spot, limit: nat, more: nat)
    requires
        unit_tree(spot, limit) != Err::<Tree, Seq<char>>(too_many()),
    ensures
        unit_tree(spot, limit + more) == unit_tree(spot, limit),
{
    let start = Walk { spot, left: limit };
    if let Ok((next, followed)) = start.step() {
        assert(with_more(start, more).step() == Ok::<(Walk, bool), Seq<char>>(
            (with_more(next, more), followed),
        ));
        lemma_more_tree(next, Level::Scope, more);
    }
}

/// Whether an attribute names a range list.
pub open spec fn names_ranges(attribute: AttributeView) -> bool {
    attribute.name == DW_AT_ranges && attribute.value is DebugRangesRef
}

/// Whether an attribute gives the first address.
pub open spec fn gives_low_pc(attribute: AttributeView) -> bool {
    attribute.name == DW_AT_low_pc && attribute.value is Addr
}

proof fn lemma_last_range_list(attributes: Seq<AttributeView>, i: int)
    requires
        0 <= i < attributes.len(),
        names_ranges(attributes[i]),
        forall|j: int| i < j < attributes.len() ==> !names_ranges(#[trigger] attributes[j]),
    ensures
        last_range_list(attributes) == Some(attributes[i].value->DebugRangesRef_0),
    decreases attributes.len(),
{
    if i < attributes.len() - 1 {
        assert(!names_ranges(attributes[attributes.len() - 1]));
        let rest = attributes.drop_last();
        assert(forall|j: int| i < j < rest.len() ==> rest[j] == #[trigger] attributes[j]);
        lemma_last_range_list(rest, i);
    }
}

proof fn lemma_last_low_pc(attributes: Seq<AttributeView>, i: int)
    requires
        0 <= i < attributes.len(),
        gives_low_pc(attributes[i]),
        forall|j: int| i < j < attributes.len() ==> !gives_low_pc(#[trigger] attributes[j]),
    ensures
        last_low_pc(attributes) == Some(attributes[i].value->Addr_0),
    decreases attributes.len(),
{
    if i < attributes.len() - 1 {
        assert(!gives_low_pc(attributes[attributes.len() - 1]));
        let rest = attributes.drop_last();
        assert(forall|j: int| i < j < rest.len() ==> rest[j] == #[trigger] attributes[j]);
        lemma_last_low_pc(rest, i);
    }
}

proof fn lemma_no_low_pc(attributes: Seq<AttributeView>)
    requires
        forall|j: int| 0 <= j < attributes.len() ==> !gives_low_pc(#[trigger] attributes[j]),
    ensures
        last_low_pc(attributes) is None,
    decreases attributes.len(),
{
    if attributes.len() > 0 {
        assert(!gives_low_pc(attributes[attributes.len() - 1]));
        let rest = attributes.drop_last();
        assert(forall|j: int| 0 <= j < rest.len() ==> rest[j] == #[trigger] attributes[j]);
        lemma_no_low_pc(rest);
    }
}

/// The ranges of an inlined subroutine are those of the last list that it names, and they count
/// from the last first address that it gives, or from zero where it gives none. No other entry
/// has ranges.
pub proof fn lemma_ranges_count_from_the_start(walk: Walk, level: Level, i: int, k: int)
    requires
        walk.spot.current is Some,
        ({
            let attributes = walk.spot.current->0.attributes.items;
            &&& 0 <= i < attributes.len()
            &&& names_ranges(attributes[i])
            &&& forall|j: int| i < j < attributes.len() ==> !names_ranges(#[trigger] attributes[j])
        }),
    ensures
        ({
            let attributes = walk.spot.current->0.attributes.items;
            let list = attributes[i].value->DebugRangesRef_0;
            &&& level is Inlined && 0 <= k < attributes.len() && gives_low_pc(attributes[k]) && (
            forall|j: int| k < j < attributes.len() ==> !gives_low_pc(#[trigger] attributes[j]))
                ==> walk.own_ranges(level) == walk.spot.ranges_at(list, attributes[k].value->Addr_0)
            &&& level is Inlined && (forall|j: int|
                0 <= j < attributes.len() ==> !gives_low_pc(#[trigger] attributes[j]))
                ==> walk.own_ranges(level) == walk.spot.ranges_at(list, 0)
            &&& !(level is Inlined) ==> walk.own_ranges(level) == Ok::<Seq<Range>, Seq<char>>(
                seq![],
            )
        }),
{
    let attributes = walk.spot.current->0.attributes.items;
    lemma_last_range_list(attributes, i);
    if 0 <= k < attributes.len() && gives_low_pc(attributes[k]) && (forall|j: int|
        k < j < attributes.len() ==> !gives_low_pc(#[trigger] attributes[j])) {
        lemma_last_low_pc(attributes, k);
    }
    if forall|j: int| 0 <= j < attributes.len() ==> !gives_low_pc(#[trigger] attributes[j]) {
        lemma_no_low_pc(attributes);
    }
}

/// An entry that says where its sibling is is passed over in one step: the walk goes to that
/// place, whatever stands below the entry. One without entries below it is passed over in one
/// step too.
pub proof fn lemma_sibling_is_gone_to(walk: Walk, i: int)
    requires
        walk.spot.current is Some,
        walk.left > 0,
    ensures
        ({
            let entry = walk.spot.current->0;
            let attributes = entry.attributes.items;
            &&& entry.has_children && 0 <= i < attributes.len() && attributes[i].name
                == DW_AT_sibling && (forall|j: int|
                0 <= j < i ==> (#[trigger] attributes[j]).name != DW_AT_sibling)
                && attributes[i].value is UnitRef && walk.spot.unit.contains(
                attributes[i].value->UnitRef_0,
            ) ==> {
                let there = Walk { spot: walk.spot.jumped(attributes[i].value->UnitRef_0), ..walk };
                walk.past() == match there.step() {
                    Ok((next, _)) => Ok::<Walk, Seq<char>>(next),
                    Err(error) => Err(error),
                }
            }
            &&& !entry.has_children ==> walk.past() == match walk.step() {
                Ok((next, _)) => Ok::<Walk, Seq<char>>(next),
                Err(error) => Err(error),
            }
        }),
{
    let entry = walk.spot.current->0;
    let attributes = entry.attributes.items;
    if 0 <= i < attributes.len() && attributes[i].name == DW_AT_sibling && (forall|j: int|
        0 <= j < i ==> (#[trigger] attributes[j]).name != DW_AT_sibling) {
        lemma_first_sibling(entry.attributes, i);
    }
}

proof fn lemma_first_sibling(attributes: Stream<AttributeView>, i: int)
    requires
        0 <= i < attributes.items.len(),
        attributes.items[i].name == DW_AT_sibling,
        forall|j: int| 0 <= j < i ==> (#[trigger] attributes.items[j]).name != DW_AT_sibling,
    ensures
        sibling(attributes) == Ok::<Option<usize>, Seq<char>>(
            match attributes.items[i].value {
                ValueView::UnitRef(offset) => Some(offset),
                _ => None,
            },
        ),
    decreases i,
{
    if i > 0 {
        assert(attributes.items[0].name != DW_AT_sibling);
        lemma_first_sibling(attributes.rest(), i - 1);
    }
}

proof fn lemma_no_sibling(attributes: Stream<AttributeView>)
    requires
        attributes.fault is None,
        forall|j: int|
            0 <= j < attributes.items.len() ==> (#[trigger] attributes.items[j]).name
                != DW_AT_sibling,
    ensures
        sibling(attributes) == Ok::<Option<usize>, Seq<char>>(None),
    decreases attributes.items.len(),
{
    if attributes.items.len() > 0 {
        assert(attributes.items[0].name != DW_AT_sibling);
        lemma_no_sibling(attributes.rest());
    }
}

/// Where an entry does not say where its sibling is, or names a place outside its unit, what
/// its attributes say makes no difference to how it is passed over.
pub proof fn lemma_useless_sibling_is_ignored(walk: Walk, i: int)
    requires
        walk.spot.current is Some,
        ({
            let attributes = walk.spot.current->0.attributes;
            ||| attributes.fault is None && forall|j: int|
                0 <= j < attributes.items.len() ==> (#[trigger] attributes.items[j]).name
                    != DW_AT_sibling
            ||| 0 <= i < attributes.items.len() && attributes.items[i].name == DW_AT_sibling && (
            forall|j: int| 0 <= j < i ==> (#[trigger] attributes.items[j]).name != DW_AT_sibling)
                && (attributes.items[i].value matches ValueView::UnitRef(offset)
                ==> !walk.spot.unit.contains(offset))
        }),
    ensures
        ({
            let bare = EntryView {
                attributes: Stream { items: Seq::empty(), fault: None },
                ..walk.spot.current->0
            };
            walk.past() == (Walk {
                spot: Spot { current: Some(bare), ..walk.spot },
                ..walk
            }).past()
        }),
{
    let attributes = walk.spot.current->0.attributes;
    if attributes.fault is None && forall|j: int|
        0 <= j < attributes.items.len() ==> (#[trigger] attributes.items[j]).name
            != DW_AT_sibling {
        lemma_no_sibling(attributes);
    } else {
        lemma_first_sibling(attributes, i);
    }
}

/// What is broken is reported, in the words of the parser: an attribute of an entry that is
/// looked at, an address range that it refers to, and an entry that cannot be read. A walk that
/// may take no step more is reported too.
pub proof fn lemma_what_is_broken_is_reported(walk: Walk, level: Level)
    requires
        walk.spot.current is Some,
    ensures
        walk.spot.current->0.attributes.fault matches Some(words) ==> walk.tree(level) == Err::<
            (Tree, Walk),
            Seq<char>,
        >("DWARF error: "@ + words),
        walk.spot.current->0.attributes.fault is None ==> (walk.own_ranges(level) matches Err(
            words,
        ) ==> walk.tree(level) == Err::<(Tree, Walk), Seq<char>>("DWARF error: "@ + words)),
        walk.left == 0 ==> walk.step() == Err::<(Walk, bool), Seq<char>>("too many entries"@),
        walk.left > 0 && walk.spot.ahead.items.len() == 0 ==> (walk.spot.ahead.fault matches Some(
            words,
        ) ==> walk.step() == Err::<(Walk, bool), Seq<char>>("DWARF error: "@ + words)),
        walk.left > 0 && walk.spot.ahead.items.len() > 0 ==> {
            &&& walk.step() is Ok
            &&& walk.step()->Ok_0.0.spot.current == walk.spot.ahead.items[0]
            &&& walk.step()->Ok_0.0.left == walk.left - 1
            &&& walk.step()->Ok_0.1
        },
{
}

} // verus!

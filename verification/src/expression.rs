//! What is made of an expression that says where a data member is.
//!
//! Expressions are evaluated by whoever reads the file. The library says which are to be
//! evaluated, and takes the results.

use crate::constants::{DW_AT_data_member_location, DW_TAG_member};
use crate::entry::{Attribute, Entry, UnitEntries, Value};
use crate::error::{Error, Result};
use crate::lists;
use crate::text;
use crate::text::write_decimal;
use vstd::prelude::*;

verus! {

/// Where a piece of an object is.
#[derive(Clone, Copy, Debug, PartialEq, Eq, Structural)]
pub enum Location {
    /// At an address.
    Address(u64),
    /// Anywhere else.
    Other,
}

/// Where an object is that was found in the given pieces. Fails where it is not of one
/// piece.
pub fn evaluate(pieces: &Vec<Location>) -> (result: Result<Location>)
    ensures
        match result {
            Ok(location) => pieces@.len() == 1 && location == pieces@[0],
            Err(error) => pieces@.len() != 1 && error.text()
                == "unsupported number of evaluation pieces: "@ + text::decimal(pieces@.len()),
        },
{
    if pieces.len() != 1 {
        let mut message = String::new();
        message.append("unsupported number of evaluation pieces: ");
        write_decimal(&mut message, pieces.len() as u64);
        assert(message@ =~= "unsupported number of evaluation pieces: "@ + text::decimal(
            pieces@.len(),
        ));
        return Err(Error::from(message));
    }
    Ok(pieces[0])
}

impl<'input> Attribute<'input> {
    /// The expression that says where a data member is, if the attribute holds one.
    pub fn expression(&self) -> (expression: Option<&'input [u8]>)
        ensures
            match expression {
                Some(bytes) => self.name == DW_AT_data_member_location && self.value
                    == Value::Exprloc(bytes),
                None => !(self.name == DW_AT_data_member_location && self.value is Exprloc),
            },
    {
        if self.name == DW_AT_data_member_location {
            if let Value::Exprloc(bytes) = self.value {
                return Some(bytes);
            }
        }
        None
    }

    /// Takes the result of the expression: an address is kept, anything else and a failure
    /// are not.
    pub fn locate(&mut self, result: &Result<Location>)
        ensures
            *final(self) == (Attribute { address: address_in(*result), ..*old(self) }),
    {
        self.address = match result {
            Ok(Location::Address(address)) => Some(*address),
            _ => None,
        };
    }

    /// Whether the attribute holds an expression that says where a data member is.
    pub open spec fn has_expression(self) -> bool {
        self.name == DW_AT_data_member_location && self.value is Exprloc
    }
}

/// The address that the result of an expression gives, if it gives one.
pub open spec fn address_in(result: Result<Location>) -> Option<u64> {
    match result {
        Ok(Location::Address(address)) => Some(address),
        _ => None,
    }
}

/// The address that one of some results gives. A result that is missing gives none.
pub open spec fn address_at(results: Seq<Result<Location>>, i: int) -> Option<u64> {
    if 0 <= i < results.len() {
        address_in(results[i])
    } else {
        None
    }
}

/// The expressions that attributes hold.
pub open spec fn attribute_expressions<'input>(attrs: Seq<Attribute<'input>>) -> Seq<&'input [u8]>
    decreases attrs.len(),
{
    if attrs.len() == 0 {
        seq![]
    } else if attrs.last().has_expression() {
        attribute_expressions(attrs.drop_last()).push(attrs.last().value->Exprloc_0)
    } else {
        attribute_expressions(attrs.drop_last())
    }
}

/// The expressions that say where data members are in some entries and those below them:
/// those of the entries for members, each before those of the entries below it, in their
/// order in the file.
pub open spec fn expressions<'input>(entries: Seq<Entry<'input>>) -> Seq<&'input [u8]>
    decreases entries,
{
    if entries.len() == 0 {
        seq![]
    } else {
        let last = entries.last();
        expressions(entries.drop_last()) + last.own_expressions() + expressions(last.children@)
    }
}

/// Whether attributes have taken the results of their expressions, from the given place in
/// the list of results on, and are otherwise as they were.
pub open spec fn attributes_located<'input>(
    before: Seq<Attribute<'input>>,
    after: Seq<Attribute<'input>>,
    results: Seq<Result<Location>>,
    start: int,
) -> bool
    decreases before.len(),
{
    &&& after.len() == before.len()
    &&& before.len() > 0 ==> {
        let attr = before.last();
        let done = attribute_expressions(before.drop_last()).len();
        &&& attributes_located(before.drop_last(), after.drop_last(), results, start)
        &&& after.last() == if attr.has_expression() {
            Attribute { address: address_at(results, start + done), ..attr }
        } else {
            attr
        }
    }
}

/// Whether the attributes of members in some entries and those below them have taken the
/// results of their expressions, from the given place in the list of results on, and
/// everything else is as it was.
pub open spec fn located<'input>(
    before: Seq<Entry<'input>>,
    after: Seq<Entry<'input>>,
    results: Seq<Result<Location>>,
    start: int,
) -> bool
    decreases before,
{
    &&& after.len() == before.len()
    &&& before.len() > 0 ==> {
        let (entry, new) = (before.last(), after.last());
        let own = start + expressions(before.drop_last()).len();
        &&& located(before.drop_last(), after.drop_last(), results, start)
        &&& new.offset == entry.offset
        &&& new.tag == entry.tag
        &&& new.ranges == entry.ranges
        &&& if entry.tag == DW_TAG_member {
            attributes_located(entry.attrs@, new.attrs@, results, own)
        } else {
            new.attrs == entry.attrs
        }
        &&& located(
            entry.children@,
            new.children@,
            results,
            own + entry.own_expressions().len(),
        )
    }
}

proof fn lemma_attributes_keep_expressions<'input>(
    before: Seq<Attribute<'input>>,
    after: Seq<Attribute<'input>>,
    results: Seq<Result<Location>>,
    start: int,
)
    requires
        attributes_located(before, after, results, start),
    ensures
        attribute_expressions(after) == attribute_expressions(before),
    decreases before.len(),
{
    if before.len() > 0 {
        lemma_attributes_keep_expressions(before.drop_last(), after.drop_last(), results, start);
    }
}

/// Entries that take the results of their expressions keep the expressions: they are listed
/// as before.
pub proof fn lemma_located_keep_expressions<'input>(
    before: Seq<Entry<'input>>,
    after: Seq<Entry<'input>>,
    results: Seq<Result<Location>>,
    start: int,
)
    requires
        located(before, after, results, start),
    ensures
        expressions(after) == expressions(before),
    decreases before,
{
    if before.len() > 0 {
        let (entry, new) = (before.last(), after.last());
        let own = start + expressions(before.drop_last()).len();
        lemma_located_keep_expressions(before.drop_last(), after.drop_last(), results, start);
        if entry.tag == DW_TAG_member {
            lemma_attributes_keep_expressions(entry.attrs@, new.attrs@, results, own);
        }
        lemma_located_keep_expressions(
            entry.children@,
            new.children@,
            results,
            own + entry.own_expressions().len(),
        );
    }
}

fn locate_attributes<'input>(
    attrs: &mut Vec<Attribute<'input>>,
    results: &Vec<Result<Location>>,
    at: usize,
    Ghost(start): Ghost<int>,
) -> (next: usize)
    requires
        0 <= start,
        at == lists::at_most(start, results@.len() as int),
    ensures
        attributes_located(old(attrs)@, final(attrs)@, results@, start),
        next == lists::at_most(
            start + attribute_expressions(old(attrs)@).len(),
            results@.len() as int,
        ),
{
    let mut at = at;
    let mut i: usize = 0;
    while i < attrs.len()
        invariant
            i <= attrs@.len(),
            0 <= start,
            attrs@.len() == old(attrs)@.len(),
            forall|j: int| i <= j < attrs@.len() ==> #[trigger] attrs@[j] == old(attrs)@[j],
            attributes_located(
                old(attrs)@.take(i as int),
                attrs@.take(i as int),
                results@,
                start,
            ),
            at == lists::at_most(
                start + attribute_expressions(old(attrs)@.take(i as int)).len(),
                results@.len() as int,
            ),
        decreases attrs.len() - i,
    {
        let ghost current = attrs@;
        assert(old(attrs)@.take(i + 1).drop_last() =~= old(attrs)@.take(i as int));
        assert(old(attrs)@.take(i + 1).last() == attrs@[i as int]);
        if attrs[i].expression().is_some() {
            if at < results.len() {
                attrs[i].locate(&results[at]);
                at = at + 1;
            } else {
                attrs[i].address = None;
            }
        }
        assert(attrs@.take(i + 1).drop_last() =~= current.take(i as int));
        i = i + 1;
    }
    assert(old(attrs)@.take(i as int) =~= old(attrs)@);
    assert(attrs@.take(i as int) =~= attrs@);
    at
}

impl<'input> Entry<'input> {
    /// The expressions of an entry itself that say where a data member is.
    pub open spec fn own_expressions(self) -> Seq<&'input [u8]> {
        if self.tag == DW_TAG_member {
            attribute_expressions(self.attrs@)
        } else {
            seq![]
        }
    }

    fn list_expressions(&self, list: &mut Vec<&'input [u8]>)
        ensures
            final(list)@ == old(list)@ + self.own_expressions() + expressions(self.children@),
        decreases self,
    {
        if self.tag == DW_TAG_member {
            let mut i: usize = 0;
            while i < self.attrs.len()
                invariant
                    i <= self.attrs@.len(),
                    list@ == old(list)@ + attribute_expressions(self.attrs@.take(i as int)),
                decreases self.attrs.len() - i,
            {
                assert(self.attrs@.take(i + 1).drop_last() =~= self.attrs@.take(i as int));
                if let Some(bytes) = self.attrs[i].expression() {
                    list.push(bytes);
                }
                i = i + 1;
                assert(list@ =~= old(list)@ + attribute_expressions(self.attrs@.take(i as int)));
            }
            assert(self.attrs@.take(i as int) =~= self.attrs@);
        } else {
            assert(list@ =~= old(list)@ + self.own_expressions());
        }
        let ghost before = list@;
        let mut i: usize = 0;
        while i < self.children.len()
            invariant
                i <= self.children@.len(),
                list@ == before + expressions(self.children@.take(i as int)),
            decreases self.children.len() - i,
        {
            assert(self.children@.take(i + 1).drop_last() =~= self.children@.take(i as int));
            self.children[i].list_expressions(list);
            i = i + 1;
            assert(list@ =~= before + expressions(self.children@.take(i as int)));
        }
        assert(self.children@.take(i as int) =~= self.children@);
    }

    fn locate_members(
        &mut self,
        results: &Vec<Result<Location>>,
        at: usize,
        Ghost(start): Ghost<int>,
    ) -> (next: usize)
        requires
            0 <= start,
            at == lists::at_most(start, results@.len() as int),
        ensures
            final(self).offset == old(self).offset,
            final(self).tag == old(self).tag,
            final(self).ranges == old(self).ranges,
            if old(self).tag == DW_TAG_member {
                attributes_located(old(self).attrs@, final(self).attrs@, results@, start)
            } else {
                final(self).attrs == old(self).attrs
            },
            located(
                old(self).children@,
                final(self).children@,
                results@,
                start + old(self).own_expressions().len(),
            ),
            next == lists::at_most(
                start + old(self).own_expressions().len() + expressions(
                    old(self).children@,
                ).len(),
                results@.len() as int,
            ),
        decreases *old(self),
    {
        let mut at = at;
        if self.tag == DW_TAG_member {
            at = locate_attributes(&mut self.attrs, results, at, Ghost(start));
        }
        let ghost below = start + old(self).own_expressions().len();
        let ghost attrs = self.attrs;
        let mut i: usize = 0;
        while i < self.children.len()
            invariant
                i <= self.children@.len(),
                0 <= below,
                self.offset == old(self).offset,
                self.tag == old(self).tag,
                self.ranges == old(self).ranges,
                self.attrs == attrs,
                self.children@.len() == old(self).children@.len(),
                forall|j: int|
                    i <= j < self.children@.len() ==> #[trigger] self.children@[j] == old(
                        self,
                    ).children@[j],
                located(
                    old(self).children@.take(i as int),
                    self.children@.take(i as int),
                    results@,
                    below,
                ),
                at == lists::at_most(
                    below + expressions(old(self).children@.take(i as int)).len(),
                    results@.len() as int,
                ),
            decreases self.children.len() - i,
        {
            let ghost children = self.children@;
            let ghost taken = old(self).children@.take(i + 1);
            assert(taken.drop_last() =~= old(self).children@.take(i as int));
            assert(taken.last() == children[i as int]);
            let ghost own = below + expressions(taken.drop_last()).len();
            assert(decreases_to!(*old(self) => old(self).children@[i as int]));
            at = self.children[i].locate_members(results, at, Ghost(own));
            assert(self.children@.take(i + 1).drop_last() =~= children.take(i as int));
            i = i + 1;
        }
        assert(old(self).children@.take(i as int) =~= old(self).children@);
        assert(self.children@.take(i as int) =~= self.children@);
        at
    }
}

impl<'input> UnitEntries<'input> {
    /// The expressions of the unit that say where data members are, in their order in the
    /// file.
    pub fn expressions(&self) -> (list: Vec<&'input [u8]>)
        ensures
            list@ == expressions(seq![self.root]),
    {
        let mut list: Vec<&'input [u8]> = Vec::new();
        self.root.list_expressions(&mut list);
        proof {
            reveal_with_fuel(expressions, 2);
        }
        assert(seq![self.root].drop_last() =~= seq![]);
        assert(list@ =~= expressions(seq![self.root]));
        list
    }

    /// Takes the results of these expressions, in the same order. A result that is missing
    /// counts as a failure.
    pub fn locate(&mut self, results: &Vec<Result<Location>>)
        ensures
            final(self).address_size == old(self).address_size,
            final(self).dwarf64 == old(self).dwarf64,
            located(seq![old(self).root], seq![final(self).root], results@, 0),
    {
        self.root.locate_members(results, 0, Ghost(0));
        proof {
            reveal_with_fuel(expressions, 2);
            reveal_with_fuel(located, 2);
        }
        assert(seq![old(self).root].drop_last() =~= seq![]);
        assert(seq![self.root].drop_last() =~= seq![]);
    }
}

/// The expressions of attributes are those of the attributes that say where a data member is,
/// in their order: those of two lists are those of the first and then those of the second.
pub proof fn lemma_expressions_in_order<'input>(
    a: Seq<Attribute<'input>>,
    b: Seq<Attribute<'input>>,
    attr: Attribute<'input>,
)
    ensures
        attribute_expressions(a + b) == attribute_expressions(a) + attribute_expressions(b),
        attribute_expressions(seq![attr]) == match attr.value {
            Value::Exprloc(bytes) => if attr.name == DW_AT_data_member_location {
                seq![bytes]
            } else {
                seq![]
            },
            _ => seq![],
        },
    decreases b.len(),
{
    reveal_with_fuel(attribute_expressions, 2);
    assert(seq![attr].drop_last() =~= seq![]);
    assert(attribute_expressions(seq![attr]) =~= match attr.value {
        Value::Exprloc(bytes) => if attr.name == DW_AT_data_member_location {
            seq![bytes]
        } else {
            seq![]
        },
        _ => seq![],
    });
    if b.len() == 0 {
        assert(a + b =~= a);
    } else {
        assert((a + b).drop_last() =~= a + b.drop_last());
        lemma_expressions_in_order(a, b.drop_last(), attr);
    }
    assert(attribute_expressions(a + b) =~= attribute_expressions(a) + attribute_expressions(b));
}

/// Each attribute with an expression gets the address that the result at the place of the
/// expression gives; every other attribute stays as it was.
pub proof fn lemma_each_gets_its_address<'input>(
    before: Seq<Attribute<'input>>,
    after: Seq<Attribute<'input>>,
    results: Seq<Result<Location>>,
    start: int,
    i: int,
)
    requires
        attributes_located(before, after, results, start),
        0 <= i < before.len(),
    ensures
        after.len() == before.len(),
        before[i].value is Exprloc && before[i].name == DW_AT_data_member_location ==> {
            let place = start + attribute_expressions(before.take(i)).len();
            &&& after[i] == (Attribute { address: after[i].address, ..before[i] })
            &&& 0 <= place < results.len() ==> after[i].address == match results[place] {
                Ok(Location::Address(address)) => Some(address),
                _ => None,
            }
            &&& place >= results.len() ==> after[i].address is None
        },
        !(before[i].value is Exprloc && before[i].name == DW_AT_data_member_location) ==> after[i]
            == before[i],
    decreases before.len(),
{
    let (rest, new) = (before.drop_last(), after.drop_last());
    if i < rest.len() {
        assert(rest[i] == before[i] && new[i] == after[i]);
        assert(rest.take(i) =~= before.take(i));
        lemma_each_gets_its_address(rest, new, results, start, i);
    } else {
        assert(rest =~= before.take(i));
    }
}

/// The expressions of entries are listed entry by entry, each before those of the entries below
/// it: those of two lists are those of the first and then those of the second, a member has
/// those of its attributes and no other entry has any of its own.
pub proof fn lemma_entries_list_their_expressions<'input>(
    a: Seq<Entry<'input>>,
    b: Seq<Entry<'input>>,
    entry: Entry<'input>,
)
    ensures
        expressions(a + b) == expressions(a) + expressions(b),
        expressions(seq![entry]) == if entry.tag == DW_TAG_member {
            attribute_expressions(entry.attrs@) + expressions(entry.children@)
        } else {
            expressions(entry.children@)
        },
    decreases b.len(),
{
    reveal_with_fuel(expressions, 2);
    assert(seq![entry].drop_last() =~= seq![]);
    assert(expressions(seq![entry]) =~= if entry.tag == DW_TAG_member {
        attribute_expressions(entry.attrs@) + expressions(entry.children@)
    } else {
        expressions(entry.children@)
    });
    if b.len() == 0 {
        assert(a + b =~= a);
    } else {
        assert((a + b).drop_last() =~= a + b.drop_last());
        lemma_entries_list_their_expressions(a, b.drop_last(), entry);
    }
    assert(expressions(a + b) =~= expressions(a) + expressions(b));
}

/// Each entry keeps its place, its tag and its ranges; the attributes of a member take the
/// results that stand at the place of its expressions, other attributes stay, and the entries
/// below it take those that follow.
pub proof fn lemma_each_entry_takes_its_results<'input>(
    before: Seq<Entry<'input>>,
    after: Seq<Entry<'input>>,
    results: Seq<Result<Location>>,
    start: int,
    i: int,
)
    requires
        located(before, after, results, start),
        0 <= i < before.len(),
    ensures
        after.len() == before.len(),
        after[i].offset == before[i].offset,
        after[i].tag == before[i].tag,
        after[i].ranges == before[i].ranges,
        ({
            let own = start + expressions(before.take(i)).len();
            &&& before[i].tag == DW_TAG_member ==> attributes_located(
                before[i].attrs@,
                after[i].attrs@,
                results,
                own,
            ) && located(
                before[i].children@,
                after[i].children@,
                results,
                own + attribute_expressions(before[i].attrs@).len(),
            )
            &&& before[i].tag != DW_TAG_member ==> after[i].attrs == before[i].attrs && located(
                before[i].children@,
                after[i].children@,
                results,
                own,
            )
        }),
    decreases before.len(),
{
    let (rest, new) = (before.drop_last(), after.drop_last());
    if i < rest.len() {
        assert(rest[i] == before[i] && new[i] == after[i]);
        assert(rest.take(i) =~= before.take(i));
        lemma_each_entry_takes_its_results(rest, new, results, start, i);
    } else {
        assert(rest =~= before.take(i));
    }
}

} // verus!

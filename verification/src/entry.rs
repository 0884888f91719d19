//! Debugging information entries as plain values: what a reader of the DWARF sections
//! hands to the rest of the library.

use crate::constants::{DW_AT_data_bit_offset, DW_AT_data_member_location};
use vstd::prelude::*;

verus! {

/// The value of an attribute, as far as the library tells values apart.
#[derive(Clone, Copy, Debug)]
pub enum Value<'input> {
    /// An address in the program.
    Addr(u64),
    /// An unsigned number.
    Udata(u64),
    /// The bytes of an expression.
    Exprloc(&'input [u8]),
    /// A flag.
    Flag(bool),
    /// The offset of another entry of the same unit.
    UnitRef(usize),
    /// An offset into the section of address ranges.
    DebugRangesRef(usize),
    /// A source language.
    Language(u16),
    /// How a subprogram is inlined.
    Inline(u8),
    /// Anything else.
    Other,
}

/// An attribute of an entry.
#[derive(Clone, Copy, Debug)]
pub struct Attribute<'input> {
    /// The attribute's code.
    pub name: u64,
    /// Its value, read in the light of its code.
    pub value: Value<'input>,
    /// Its value as a string, without the null at its end.
    pub string: Option<&'input [u8]>,
    /// Its value as an unsigned number.
    pub udata: Option<u64>,
    /// Its value as a signed number.
    pub sdata: Option<i64>,
    /// The address that its expression comes to. It is filled in by whoever can evaluate
    /// expressions; until then it is `None`.
    pub address: Option<u64>,
}

/// A range of addresses, its end not included.
#[derive(Clone, Copy, Debug)]
pub struct Range {
    /// The first address.
    pub begin: u64,
    /// The first address past the last.
    pub end: u64,
}

/// An entry with its attributes and the entries below it.
#[derive(Debug)]
pub struct Entry<'input> {
    /// The offset of the entry in its unit.
    pub offset: usize,
    /// What the entry describes.
    pub tag: u64,
    /// The attributes, in their order in the file.
    pub attrs: Vec<Attribute<'input>>,
    /// The address ranges of an inlined subroutine that names a range list.
    pub ranges: Vec<Range>,
    /// The entries below this one, in their order in the file.
    pub children: Vec<Entry<'input>>,
}

/// A unit: its entries and what its header says of them.
#[derive(Debug)]
pub struct UnitEntries<'input> {
    /// The size of an address in bytes.
    pub address_size: u8,
    /// Whether offsets have 64 bits in this unit.
    pub dwarf64: bool,
    /// The entry for the unit itself.
    pub root: Entry<'input>,
}

/// The form that an attribute's value has to have to be taken.
#[derive(Clone, Copy, Debug)]
pub enum Form {
    /// Any value.
    Any,
    /// An address.
    Addr,
    /// An unsigned number that was read as such in the light of the attribute's code.
    Udata,
    /// A flag.
    Flag,
    /// A reference to another entry of the unit.
    UnitRef,
    /// A reference to a range list.
    DebugRangesRef,
    /// A source language.
    Language,
    /// How a subprogram is inlined.
    Inline,
    /// Whatever can be taken as a signed number.
    Signed,
}

impl<'input> Attribute<'input> {
    /// Whether the attribute has the given code and a value of the given form.
    pub open spec fn fits(self, name: u64, form: Form) -> bool {
        self.name == name && match form {
            Form::Any => true,
            Form::Addr => self.value is Addr,
            Form::Udata => self.value is Udata,
            Form::Flag => self.value is Flag,
            Form::UnitRef => self.value is UnitRef,
            Form::DebugRangesRef => self.value is DebugRangesRef,
            Form::Language => self.value is Language,
            Form::Inline => self.value is Inline,
            Form::Signed => self.sdata is Some,
        }
    }

    fn has_form(&self, form: Form) -> (result: bool)
        ensures
            result == self.fits(self.name, form),
    {
        match (form, &self.value) {
            (Form::Any, _) => true,
            (Form::Addr, Value::Addr(_)) => true,
            (Form::Udata, Value::Udata(_)) => true,
            (Form::Flag, Value::Flag(_)) => true,
            (Form::UnitRef, Value::UnitRef(_)) => true,
            (Form::DebugRangesRef, Value::DebugRangesRef(_)) => true,
            (Form::Language, Value::Language(_)) => true,
            (Form::Inline, Value::Inline(_)) => true,
            (Form::Signed, _) => self.sdata.is_some(),
            _ => false,
        }
    }

    /// The offset in bits at which the attribute places a data member, if it does: a
    /// location counts bytes, a data bit offset counts bits.
    pub open spec fn placed(self) -> Option<u64> {
        if self.name == DW_AT_data_member_location {
            match self.value {
                Value::Udata(bytes) => Some(in_bits(bytes)),
                Value::Exprloc(_) => match self.address {
                    Some(bytes) => Some(in_bits(bytes)),
                    None => None,
                },
                _ => None,
            }
        } else if self.name == DW_AT_data_bit_offset {
            self.udata
        } else {
            None
        }
    }

    fn place(&self) -> (offset: Option<u64>)
        ensures
            offset == self.placed(),
    {
        if self.name == DW_AT_data_member_location {
            match self.value {
                Value::Udata(bytes) => Some(bytes.wrapping_mul(8)),
                Value::Exprloc(_) => match self.address {
                    Some(bytes) => Some(bytes.wrapping_mul(8)),
                    None => None,
                },
                _ => None,
            }
        } else if self.name == DW_AT_data_bit_offset {
            self.udata
        } else {
            None
        }
    }
}

/// A number of bytes in bits. The count wraps around where it does not fit.
pub open spec fn in_bits(bytes: u64) -> u64 {
    bytes.wrapping_mul(8)
}

/// The last attribute with the given code and a value of the given form.
pub open spec fn last_attribute<'input>(
    attrs: Seq<Attribute<'input>>,
    name: u64,
    form: Form,
) -> Option<Attribute<'input>>
    decreases attrs.len(),
{
    if attrs.len() == 0 {
        None
    } else if attrs.last().fits(name, form) {
        Some(attrs.last())
    } else {
        last_attribute(attrs.drop_last(), name, form)
    }
}

/// Where the last of the attributes that place a data member puts it, in bits.
pub open spec fn last_place<'input>(attrs: Seq<Attribute<'input>>) -> Option<u64>
    decreases attrs.len(),
{
    if attrs.len() == 0 {
        None
    } else if attrs.last().placed() is Some {
        attrs.last().placed()
    } else {
        last_place(attrs.drop_last())
    }
}

impl<'input> Entry<'input> {
    /// The last attribute with the given code and a value of the given form.
    pub open spec fn attribute(self, name: u64, form: Form) -> Option<Attribute<'input>> {
        last_attribute(self.attrs@, name, form)
    }

    /// The string that the last attribute with the given code holds.
    pub open spec fn string(self, name: u64) -> Option<&'input [u8]> {
        match self.attribute(name, Form::Any) {
            Some(attr) => attr.string,
            None => None,
        }
    }

    /// The unsigned number that the last attribute with the given code holds.
    pub open spec fn udata(self, name: u64) -> Option<u64> {
        match self.attribute(name, Form::Any) {
            Some(attr) => attr.udata,
            None => None,
        }
    }

    /// The signed number that the last attribute with the given code and such a number
    /// holds.
    pub open spec fn sdata(self, name: u64) -> Option<i64> {
        match self.attribute(name, Form::Signed) {
            Some(attr) => attr.sdata,
            None => None,
        }
    }

    /// The entry of the unit that the last attribute with the given code and such a
    /// reference refers to.
    pub open spec fn unit_ref(self, name: u64) -> Option<usize> {
        match self.attribute(name, Form::UnitRef) {
            Some(attr) => Some(attr.value->UnitRef_0),
            None => None,
        }
    }

    /// The address that the last attribute with the given code and an address holds.
    pub open spec fn address(self, name: u64) -> Option<u64> {
        match self.attribute(name, Form::Addr) {
            Some(attr) => Some(attr.value->Addr_0),
            None => None,
        }
    }

    /// The length that the last attribute with the given code and a plain number holds.
    pub open spec fn length(self, name: u64) -> Option<u64> {
        match self.attribute(name, Form::Udata) {
            Some(attr) => Some(attr.value->Udata_0),
            None => None,
        }
    }

    /// The flag that the last attribute with the given code and a flag holds; unset where
    /// there is none.
    pub open spec fn flag(self, name: u64) -> bool {
        match self.attribute(name, Form::Flag) {
            Some(attr) => attr.value->Flag_0,
            None => false,
        }
    }

    /// The offset of the range list that the last attribute with the given code and such
    /// an offset refers to.
    pub open spec fn ranges_ref(self, name: u64) -> Option<usize> {
        match self.attribute(name, Form::DebugRangesRef) {
            Some(attr) => Some(attr.value->DebugRangesRef_0),
            None => None,
        }
    }

    /// The language that the last attribute with the given code and a language holds.
    pub open spec fn language(self, name: u64) -> Option<u16> {
        match self.attribute(name, Form::Language) {
            Some(attr) => Some(attr.value->Language_0),
            None => None,
        }
    }

    /// How a subprogram is inlined, by the last attribute with the given code and such a
    /// value.
    pub open spec fn inlining(self, name: u64) -> Option<u8> {
        match self.attribute(name, Form::Inline) {
            Some(attr) => Some(attr.value->Inline_0),
            None => None,
        }
    }

    /// Finds the last attribute with the given code and a value of the given form.
    pub fn find(&self, name: u64, form: Form) -> (found: Option<&Attribute<'input>>)
        ensures
            match found {
                Some(attr) => self.attribute(name, form) == Some(*attr) && attr.fits(name, form),
                None => self.attribute(name, form) is None,
            },
    {
        let mut end: usize = self.attrs.len();
        assert(self.attrs@.take(end as int) =~= self.attrs@);
        while end > 0
            invariant
                end <= self.attrs.len(),
                self.attribute(name, form) == last_attribute(
                    self.attrs@.take(end as int),
                    name,
                    form,
                ),
            decreases end,
        {
            let ghost rest = self.attrs@.take(end as int);
            end = end - 1;
            assert(rest.drop_last() =~= self.attrs@.take(end as int));
            let attr = &self.attrs[end];
            assert(rest.last() == *attr);
            if attr.name == name && attr.has_form(form) {
                return Some(attr);
            }
        }
        None
    }

    /// The string that the last attribute with the given code holds.
    pub fn get_string(&self, name: u64) -> (string: Option<&'input [u8]>)
        ensures
            string == self.string(name),
    {
        match self.find(name, Form::Any) {
            Some(attr) => attr.string,
            None => None,
        }
    }

    /// The unsigned number that the last attribute with the given code holds.
    pub fn get_udata(&self, name: u64) -> (number: Option<u64>)
        ensures
            number == self.udata(name),
    {
        match self.find(name, Form::Any) {
            Some(attr) => attr.udata,
            None => None,
        }
    }

    /// The signed number that the last attribute with the given code and such a number
    /// holds.
    pub fn get_sdata(&self, name: u64) -> (number: Option<i64>)
        ensures
            number == self.sdata(name),
    {
        match self.find(name, Form::Signed) {
            Some(attr) => attr.sdata,
            None => None,
        }
    }

    /// The entry that the last reference with the given code refers to.
    pub fn get_unit_ref(&self, name: u64) -> (offset: Option<usize>)
        ensures
            offset == self.unit_ref(name),
    {
        if let Some(attr) = self.find(name, Form::UnitRef) {
            if let Value::UnitRef(offset) = attr.value {
                return Some(offset);
            }
        }
        None
    }

    /// The last address with the given code.
    pub fn get_address(&self, name: u64) -> (address: Option<u64>)
        ensures
            address == self.address(name),
    {
        if let Some(attr) = self.find(name, Form::Addr) {
            if let Value::Addr(address) = attr.value {
                return Some(address);
            }
        }
        None
    }

    /// The last length with the given code.
    pub fn get_length(&self, name: u64) -> (length: Option<u64>)
        ensures
            length == self.length(name),
    {
        if let Some(attr) = self.find(name, Form::Udata) {
            if let Value::Udata(length) = attr.value {
                return Some(length);
            }
        }
        None
    }

    /// The last flag with the given code.
    pub fn get_flag(&self, name: u64) -> (flag: bool)
        ensures
            flag == self.flag(name),
    {
        if let Some(attr) = self.find(name, Form::Flag) {
            if let Value::Flag(flag) = attr.value {
                return flag;
            }
        }
        false
    }

    /// The last range list with the given code.
    pub fn get_ranges_ref(&self, name: u64) -> (offset: Option<usize>)
        ensures
            offset == self.ranges_ref(name),
    {
        if let Some(attr) = self.find(name, Form::DebugRangesRef) {
            if let Value::DebugRangesRef(offset) = attr.value {
                return Some(offset);
            }
        }
        None
    }

    /// The last language with the given code.
    pub fn get_language(&self, name: u64) -> (language: Option<u16>)
        ensures
            language == self.language(name),
    {
        if let Some(attr) = self.find(name, Form::Language) {
            if let Value::Language(language) = attr.value {
                return Some(language);
            }
        }
        None
    }

    /// The last way of inlining with the given code.
    pub fn get_inlining(&self, name: u64) -> (inlining: Option<u8>)
        ensures
            inlining == self.inlining(name),
    {
        if let Some(attr) = self.find(name, Form::Inline) {
            if let Value::Inline(inlining) = attr.value {
                return Some(inlining);
            }
        }
        None
    }

    /// Where the last of the attributes that place a data member puts it, in bits.
    pub fn get_place(&self) -> (place: Option<u64>)
        ensures
            place == last_place(self.attrs@),
    {
        let mut end: usize = self.attrs.len();
        assert(self.attrs@.take(end as int) =~= self.attrs@);
        while end > 0
            invariant
                end <= self.attrs.len(),
                last_place(self.attrs@) == last_place(self.attrs@.take(end as int)),
            decreases end,
        {
            let ghost rest = self.attrs@.take(end as int);
            end = end - 1;
            assert(rest.drop_last() =~= self.attrs@.take(end as int));
            let place = self.attrs[end].place();
            assert(rest.last() == self.attrs@[end as int]);
            if place.is_some() {
                return place;
            }
        }
        None
    }
}

proof fn lemma_last_fitting<'input>(
    attrs: Seq<Attribute<'input>>,
    name: u64,
    form: Form,
    i: int,
)
    requires
        0 <= i < attrs.len(),
        attrs[i].fits(name, form),
        forall|j: int| i < j < attrs.len() ==> !(#[trigger] attrs[j]).fits(name, form),
    ensures
        last_attribute(attrs, name, form) == Some(attrs[i]),
    decreases attrs.len(),
{
    if i < attrs.len() - 1 {
        let rest = attrs.drop_last();
        assert(!attrs[attrs.len() - 1].fits(name, form));
        assert(rest[i] == attrs[i]);
        assert(forall|j: int| i < j < rest.len() ==> rest[j] == #[trigger] attrs[j]);
        lemma_last_fitting(rest, name, form, i);
    }
}

proof fn lemma_none_fitting<'input>(attrs: Seq<Attribute<'input>>, name: u64, form: Form)
    requires
        forall|j: int| 0 <= j < attrs.len() ==> !(#[trigger] attrs[j]).fits(name, form),
    ensures
        last_attribute(attrs, name, form) is None,
    decreases attrs.len(),
{
    if attrs.len() > 0 {
        let rest = attrs.drop_last();
        assert(!attrs[attrs.len() - 1].fits(name, form));
        assert(forall|j: int| 0 <= j < rest.len() ==> rest[j] == #[trigger] attrs[j]);
        lemma_none_fitting(rest, name, form);
    }
}

/// Of attributes with one code the last counts: what it holds as a string and as an unsigned
/// number, and its value where it has the form that is asked for. One of another code, or of
/// another form, does not count.
pub proof fn lemma_last_attribute_counts<'input>(entry: Entry<'input>, name: u64, i: int)
    requires
        0 <= i < entry.attrs@.len(),
        entry.attrs@[i].name == name,
        forall|j: int| i < j < entry.attrs@.len() ==> (#[trigger] entry.attrs@[j]).name != name,
    ensures
        entry.string(name) == entry.attrs@[i].string,
        entry.udata(name) == entry.attrs@[i].udata,
        entry.attrs@[i].sdata is Some ==> entry.sdata(name) == entry.attrs@[i].sdata,
        match entry.attrs@[i].value {
            Value::Addr(address) => entry.address(name) == Some(address),
            Value::Udata(length) => entry.length(name) == Some(length),
            Value::Flag(flag) => entry.flag(name) == flag,
            Value::UnitRef(offset) => entry.unit_ref(name) == Some(offset),
            Value::DebugRangesRef(offset) => entry.ranges_ref(name) == Some(offset),
            Value::Language(language) => entry.language(name) == Some(language),
            Value::Inline(inlining) => entry.inlining(name) == Some(inlining),
            _ => true,
        },
{
    let attrs = entry.attrs@;
    lemma_last_fitting(attrs, name, Form::Any, i);
    if attrs[i].sdata is Some {
        lemma_last_fitting(attrs, name, Form::Signed, i);
    }
    match attrs[i].value {
        Value::Addr(_) => lemma_last_fitting(attrs, name, Form::Addr, i),
        Value::Udata(_) => lemma_last_fitting(attrs, name, Form::Udata, i),
        Value::Flag(_) => lemma_last_fitting(attrs, name, Form::Flag, i),
        Value::UnitRef(_) => lemma_last_fitting(attrs, name, Form::UnitRef, i),
        Value::DebugRangesRef(_) => lemma_last_fitting(attrs, name, Form::DebugRangesRef, i),
        Value::Language(_) => lemma_last_fitting(attrs, name, Form::Language, i),
        Value::Inline(_) => lemma_last_fitting(attrs, name, Form::Inline, i),
        _ => {},
    }
}

/// An attribute of the right form is not taken away by a later one of its code that has
/// another form; but a string and an unsigned number are.
pub proof fn lemma_other_forms_do_not_count<'input>(entry: Entry<'input>, name: u64, i: int)
    requires
        0 <= i < entry.attrs@.len(),
        entry.attrs@[i].name == name,
    ensures
        entry.attrs@[i].value is Addr && (forall|j: int|
            i < j < entry.attrs@.len() && (#[trigger] entry.attrs@[j]).name == name
                ==> !(entry.attrs@[j].value is Addr)) ==> entry.address(name) == Some(
            entry.attrs@[i].value->Addr_0,
        ),
        entry.attrs@[i].value is Udata && (forall|j: int|
            i < j < entry.attrs@.len() && (#[trigger] entry.attrs@[j]).name == name
                ==> !(entry.attrs@[j].value is Udata)) ==> entry.length(name) == Some(
            entry.attrs@[i].value->Udata_0,
        ),
        entry.attrs@[i].value is UnitRef && (forall|j: int|
            i < j < entry.attrs@.len() && (#[trigger] entry.attrs@[j]).name == name
                ==> !(entry.attrs@[j].value is UnitRef)) ==> entry.unit_ref(name) == Some(
            entry.attrs@[i].value->UnitRef_0,
        ),
        entry.attrs@[i].value is Flag && (forall|j: int|
            i < j < entry.attrs@.len() && (#[trigger] entry.attrs@[j]).name == name
                ==> !(entry.attrs@[j].value is Flag)) ==> entry.flag(name)
            == entry.attrs@[i].value->Flag_0,
{
    let attrs = entry.attrs@;
    if attrs[i].value is Addr && (forall|j: int|
        i < j < attrs.len() && (#[trigger] attrs[j]).name == name ==> !(attrs[j].value is Addr)) {
        lemma_last_fitting(attrs, name, Form::Addr, i);
    }
    if attrs[i].value is Udata && (forall|j: int|
        i < j < attrs.len() && (#[trigger] attrs[j]).name == name ==> !(attrs[j].value is Udata)) {
        lemma_last_fitting(attrs, name, Form::Udata, i);
    }
    if attrs[i].value is UnitRef && (forall|j: int|
        i < j < attrs.len() && (#[trigger] attrs[j]).name == name
            ==> !(attrs[j].value is UnitRef)) {
        lemma_last_fitting(attrs, name, Form::UnitRef, i);
    }
    if attrs[i].value is Flag && (forall|j: int|
        i < j < attrs.len() && (#[trigger] attrs[j]).name == name ==> !(attrs[j].value is Flag)) {
        lemma_last_fitting(attrs, name, Form::Flag, i);
    }
}

/// An entry without an attribute of a code says nothing for that code.
pub proof fn lemma_missing_attribute<'input>(entry: Entry<'input>, name: u64)
    requires
        forall|j: int| 0 <= j < entry.attrs@.len() ==> (#[trigger] entry.attrs@[j]).name != name,
    ensures
        entry.string(name) is None,
        entry.udata(name) is None,
        entry.sdata(name) is None,
        entry.address(name) is None,
        entry.length(name) is None,
        !entry.flag(name),
        entry.unit_ref(name) is None,
        entry.ranges_ref(name) is None,
        entry.language(name) is None,
        entry.inlining(name) is None,
{
    let attrs = entry.attrs@;
    lemma_none_fitting(attrs, name, Form::Any);
    lemma_none_fitting(attrs, name, Form::Signed);
    lemma_none_fitting(attrs, name, Form::Addr);
    lemma_none_fitting(attrs, name, Form::Udata);
    lemma_none_fitting(attrs, name, Form::Flag);
    lemma_none_fitting(attrs, name, Form::UnitRef);
    lemma_none_fitting(attrs, name, Form::DebugRangesRef);
    lemma_none_fitting(attrs, name, Form::Language);
    lemma_none_fitting(attrs, name, Form::Inline);
}

/// Whether an attribute could say where a data member is.
pub open spec fn may_place(attr: Attribute) -> bool {
    attr.name == DW_AT_data_member_location || attr.name == DW_AT_data_bit_offset
}

proof fn lemma_last_placing<'input>(attrs: Seq<Attribute<'input>>, i: int)
    requires
        0 <= i < attrs.len(),
        attrs[i].placed() is Some,
        forall|j: int| i < j < attrs.len() ==> (#[trigger] attrs[j]).placed() is None,
    ensures
        last_place(attrs) == attrs[i].placed(),
    decreases attrs.len(),
{
    if i < attrs.len() - 1 {
        let rest = attrs.drop_last();
        assert(attrs[attrs.len() - 1].placed() is None);
        assert(rest[i] == attrs[i]);
        assert(forall|j: int| i < j < rest.len() ==> rest[j] == #[trigger] attrs[j]);
        lemma_last_placing(rest, i);
    }
}

proof fn lemma_none_placing<'input>(attrs: Seq<Attribute<'input>>)
    requires
        forall|j: int| 0 <= j < attrs.len() ==> (#[trigger] attrs[j]).placed() is None,
    ensures
        last_place(attrs) is None,
    decreases attrs.len(),
{
    if attrs.len() > 0 {
        let rest = attrs.drop_last();
        assert(attrs[attrs.len() - 1].placed() is None);
        assert(forall|j: int| 0 <= j < rest.len() ==> rest[j] == #[trigger] attrs[j]);
        lemma_none_placing(rest);
    }
}

/// The last attribute that says where a data member is counts: a number of bytes, written down
/// or evaluated, stands for eight times as many bits, and a number of bits for itself. Where no
/// attribute could say it, the place is not known.
pub proof fn lemma_last_place_counts<'input>(attrs: Seq<Attribute<'input>>, i: int)
    requires
        0 <= i < attrs.len(),
        forall|j: int| i < j < attrs.len() ==> !may_place(#[trigger] attrs[j]),
    ensures
        attrs[i].name == DW_AT_data_member_location ==> match attrs[i].value {
            Value::Udata(bytes) => 8 * bytes <= u64::MAX ==> last_place(attrs) is Some
                && last_place(attrs)->0 == 8 * bytes,
            Value::Exprloc(_) => attrs[i].address is Some && 8 * attrs[i].address->0 <= u64::MAX
                ==> last_place(attrs) is Some && last_place(attrs)->0 == 8 * attrs[i].address->0,
            _ => true,
        },
        attrs[i].name == DW_AT_data_bit_offset && attrs[i].udata is Some ==> last_place(attrs)
            == attrs[i].udata,
        (forall|j: int| 0 <= j < attrs.len() ==> !may_place(#[trigger] attrs[j])) ==> last_place(
            attrs,
        ) is None,
{
    assert(forall|j: int| i < j < attrs.len() ==> (#[trigger] attrs[j]).placed() is None) by {
        assert forall|j: int| i < j < attrs.len() implies (#[trigger] attrs[j]).placed() is None by {
            assert(!may_place(attrs[j]));
        }
    }
    if attrs[i].placed() is Some {
        lemma_last_placing(attrs, i);
    }
    if forall|j: int| 0 <= j < attrs.len() ==> !may_place(#[trigger] attrs[j]) {
        assert forall|j: int| 0 <= j < attrs.len() implies (#[trigger] attrs[j]).placed() is None by {
            assert(!may_place(attrs[j]));
        }
        lemma_none_placing(attrs);
    }
}

/// Where no attribute of a code holds an address, none is found.
pub proof fn lemma_no_address<'input>(entry: Entry<'input>, name: u64)
    requires
        forall|k: int|
            0 <= k < entry.attrs@.len() && (#[trigger] entry.attrs@[k]).name == name
                ==> !(entry.attrs@[k].value is Addr),
    ensures
        entry.address(name) is None,
{
    lemma_none_fitting(entry.attrs@, name, Form::Addr);
}

/// Where no attribute of a code holds a plain number, no length is found.
pub proof fn lemma_no_length<'input>(entry: Entry<'input>, name: u64)
    requires
        forall|k: int|
            0 <= k < entry.attrs@.len() && (#[trigger] entry.attrs@[k]).name == name
                ==> !(entry.attrs@[k].value is Udata),
    ensures
        entry.length(name) is None,
{
    lemma_none_fitting(entry.attrs@, name, Form::Udata);
}

/// Whether two numbers differ by a whole number of times around the range of 64 bits.
pub open spec fn same_around(a: int, b: int) -> bool {
    (a - b) % 0x1_0000_0000_0000_0000 == 0
}

/// Bytes have eight bits each, and where the bits do not fit they are counted around the end of
/// the range.
pub proof fn lemma_bits_are_counted_around(bytes: u64)
    ensures
        same_around(in_bits(bytes) as int, 8 * bytes),
        8 * bytes <= u64::MAX ==> in_bits(bytes) == 8 * bytes,
{
}

/// One attribute more places a data member anew where it gives a place: a location counts bytes,
/// by itself or by what its expression comes to, and a data bit offset counts bits. Any other
/// attribute leaves the member where it was.
pub proof fn lemma_one_more_place<'input>(attrs: Seq<Attribute<'input>>, attr: Attribute<'input>)
    ensures
        ({
            let (was, new) = (last_place(attrs), last_place(attrs.push(attr)));
            if attr.name == DW_AT_data_member_location {
                match (attr.value, attr.address) {
                    (Value::Udata(bytes), _) => new is Some && same_around(
                        new->0 as int,
                        8 * bytes,
                    ),
                    (Value::Exprloc(_), Some(bytes)) => new is Some && same_around(
                        new->0 as int,
                        8 * bytes,
                    ),
                    _ => new == was,
                }
            } else if attr.name == DW_AT_data_bit_offset && attr.udata is Some {
                new == attr.udata
            } else {
                new == was
            }
        }),
{
    assert(attrs.push(attr).drop_last() =~= attrs);
    if let Value::Udata(bytes) = attr.value {
        lemma_bits_are_counted_around(bytes);
    }
    if let Some(bytes) = attr.address {
        lemma_bits_are_counted_around(bytes);
    }
}

} // verus!

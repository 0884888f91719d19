//! What the attributes of an entry and the entries below it come to in what is read.

use crate::constants::{
    DW_AT_abstract_origin, DW_AT_bit_offset, DW_AT_bit_size, DW_AT_byte_size, DW_AT_comp_dir,
    DW_AT_const_value, DW_AT_count, DW_AT_declaration, DW_AT_high_pc, DW_AT_inline, DW_AT_language,
    DW_AT_linkage_name, DW_AT_low_pc, DW_AT_name, DW_AT_ranges, DW_AT_type, DW_AT_upper_bound,
    DW_INL_declared_inlined, DW_INL_inlined, DW_TAG_enumerator, DW_TAG_formal_parameter,
    DW_TAG_inlined_subroutine, DW_TAG_lexical_block, DW_TAG_member, DW_TAG_subprogram,
    DW_TAG_subrange_type, DW_TAG_variable,
};
use crate::entry;
use crate::entry::{Attribute, Entry, Range, UnitEntries, Value};
use crate::namespace::Namespace;
use crate::subprogram;
use crate::subprogram::{InlinedSubroutine, Subprogram, Variable};
use crate::types;
use crate::types::{
    ArrayType, BaseType, EnumerationType, Enumerator, Member, Parameter, StructType,
    SubroutineType, TypeDef, TypeModifier, TypeModifierKind, UnionType,
};
use crate::unit::Unit;
use std::rc::Rc;
use vstd::prelude::*;

verus! {

/// Whether an attribute is the last of an entry with the given code.
pub open spec fn is_last(entry: Entry, name: u64, i: int) -> bool {
    &&& 0 <= i < entry.attrs@.len()
    &&& entry.attrs@[i].name == name
    &&& forall|j: int| i < j < entry.attrs@.len() ==> (#[trigger] entry.attrs@[j]).name != name
}

/// Whether an entry has no attribute with the given code.
pub open spec fn lacks(entry: Entry, name: u64) -> bool {
    forall|j: int| 0 <= j < entry.attrs@.len() ==> (#[trigger] entry.attrs@[j]).name != name
}

/// Everything is called what its entry calls it.
pub proof fn lemma_names_are_read<'input>(
    entry: Entry<'input>,
    namespace: Rc<Namespace<'input>>,
    i: int,
    kind: TypeModifierKind,
    big_endian: bool,
    structure: StructType<'input>,
    union_type: UnionType<'input>,
    enumeration: EnumerationType<'input>,
    subprogram: Subprogram<'input>,
)
    requires
        is_last(entry, DW_AT_name, i),
        structure.parsed(entry, namespace, big_endian),
        union_type.parsed(entry, namespace, big_endian),
        enumeration.parsed(entry, namespace),
        subprogram.parsed(entry, namespace),
    ensures
        ({
            let name = entry.attrs@[i].string;
            &&& TypeModifier::parsed(entry, namespace, kind).name == name
            &&& BaseType::parsed(entry).name == name
            &&& TypeDef::parsed(entry, namespace).name == name
            &&& Member::parsed(entry, big_endian).name == name
            &&& Enumerator::parsed(entry).name == name
            &&& Parameter::parsed(entry).name == name
            &&& Variable::parsed(entry, namespace).name == name
            &&& structure.name == name
            &&& union_type.name == name
            &&& enumeration.name == name
            &&& subprogram.name == name
        }),
        // Each stands in the namespace that its entry stands in.
        TypeModifier::parsed(entry, namespace, kind).namespace == namespace,
        TypeModifier::parsed(entry, namespace, kind).kind == kind,
        TypeDef::parsed(entry, namespace).namespace == namespace,
        Variable::parsed(entry, namespace).namespace == namespace,
        structure.namespace == namespace,
        union_type.namespace == namespace,
        enumeration.namespace == namespace,
        subprogram.namespace == namespace,
        subprogram.offset == entry.offset,
{
    entry::lemma_last_attribute_counts(entry, DW_AT_name, i);
}

/// Everything that has a type has the one that its entry refers to.
pub proof fn lemma_types_are_read<'input>(
    entry: Entry<'input>,
    namespace: Rc<Namespace<'input>>,
    i: int,
    offset: usize,
    kind: TypeModifierKind,
    big_endian: bool,
    subroutine: SubroutineType<'input>,
    subprogram: Subprogram<'input>,
)
    requires
        is_last(entry, DW_AT_type, i),
        entry.attrs@[i].value == Value::<'input>::UnitRef(offset),
        subroutine.parsed(entry),
        subprogram.parsed(entry, namespace),
    ensures
        TypeModifier::parsed(entry, namespace, kind).ty == Some(offset),
        TypeDef::parsed(entry, namespace).ty == Some(offset),
        Member::parsed(entry, big_endian).ty == Some(offset),
        ArrayType::parsed(entry).ty == Some(offset),
        Parameter::parsed(entry).ty == Some(offset),
        Variable::parsed(entry, namespace).ty == Some(offset),
        subroutine.return_type == Some(offset),
        subprogram.return_type == Some(offset),
{
    entry::lemma_last_attribute_counts(entry, DW_AT_type, i);
}

/// Every type that can have a size in bytes has the one that its entry gives.
pub proof fn lemma_byte_sizes_are_read<'input>(
    entry: Entry<'input>,
    namespace: Rc<Namespace<'input>>,
    i: int,
    kind: TypeModifierKind,
    big_endian: bool,
    structure: StructType<'input>,
    union_type: UnionType<'input>,
    enumeration: EnumerationType<'input>,
)
    requires
        is_last(entry, DW_AT_byte_size, i),
        structure.parsed(entry, namespace, big_endian),
        union_type.parsed(entry, namespace, big_endian),
        enumeration.parsed(entry, namespace),
    ensures
        ({
            let size = entry.attrs@[i].udata;
            &&& TypeModifier::parsed(entry, namespace, kind).byte_size == size
            &&& BaseType::parsed(entry).byte_size == size
            &&& structure.byte_size == size
            &&& union_type.byte_size == size
            &&& enumeration.byte_size == size
        }),
{
    entry::lemma_last_attribute_counts(entry, DW_AT_byte_size, i);
}

/// What is only declared says so, and nothing else does. What the linker calls something is
/// what its entry says.
pub proof fn lemma_declarations_and_linkage_are_read<'input>(
    entry: Entry<'input>,
    namespace: Rc<Namespace<'input>>,
    i: int,
    big_endian: bool,
    structure: StructType<'input>,
    union_type: UnionType<'input>,
    subprogram: Subprogram<'input>,
)
    requires
        structure.parsed(entry, namespace, big_endian),
        union_type.parsed(entry, namespace, big_endian),
        subprogram.parsed(entry, namespace),
    ensures
        is_last(entry, DW_AT_declaration, i) && entry.attrs@[i].value is Flag ==> {
            let flag = entry.attrs@[i].value->Flag_0;
            &&& structure.declaration == flag
            &&& union_type.declaration == flag
            &&& subprogram.declaration == flag
            &&& Variable::parsed(entry, namespace).declaration == flag
        },
        lacks(entry, DW_AT_declaration) ==> !structure.declaration && !union_type.declaration
            && !subprogram.declaration && !Variable::parsed(entry, namespace).declaration,
        is_last(entry, DW_AT_linkage_name, i) ==> subprogram.linkage_name == entry.attrs@[i].string
            && Variable::parsed(entry, namespace).linkage_name == entry.attrs@[i].string,
        lacks(entry, DW_AT_linkage_name) ==> subprogram.linkage_name is None && Variable::parsed(
            entry,
            namespace,
        ).linkage_name is None,
{
    if is_last(entry, DW_AT_declaration, i) {
        entry::lemma_last_attribute_counts(entry, DW_AT_declaration, i);
    }
    if lacks(entry, DW_AT_declaration) {
        entry::lemma_missing_attribute(entry, DW_AT_declaration);
    }
    if is_last(entry, DW_AT_linkage_name, i) {
        entry::lemma_last_attribute_counts(entry, DW_AT_linkage_name, i);
    }
    if lacks(entry, DW_AT_linkage_name) {
        entry::lemma_missing_attribute(entry, DW_AT_linkage_name);
    }
}

/// A member without the marks of a bit field stands where its entry says, or at the start where
/// it says nothing; its size is the one that the entry gives, if it gives any.
pub proof fn lemma_members_are_placed<'input>(entry: Entry<'input>, big_endian: bool, i: int)
    ensures
        lacks(entry, DW_AT_bit_offset) ==> Member::parsed(entry, big_endian).bit_offset == (
        match entry::last_place(entry.attrs@) {
            Some(place) => place,
            None => 0,
        }),
        lacks(entry, DW_AT_bit_size) ==> Member::parsed(entry, big_endian).bit_size is None
            && Member::parsed(entry, big_endian).bit_offset == (match entry::last_place(
            entry.attrs@,
        ) {
            Some(place) => place,
            None => 0,
        }),
        is_last(entry, DW_AT_bit_size, i) ==> Member::parsed(entry, big_endian).bit_size
            == entry.attrs@[i].udata,
{
    if lacks(entry, DW_AT_bit_offset) {
        entry::lemma_missing_attribute(entry, DW_AT_bit_offset);
    }
    if lacks(entry, DW_AT_bit_size) {
        entry::lemma_missing_attribute(entry, DW_AT_bit_size);
    }
    if is_last(entry, DW_AT_bit_size, i) {
        entry::lemma_last_attribute_counts(entry, DW_AT_bit_size, i);
    }
}

/// A bit field of the older kind lies in its storage unit: its distance from the most
/// significant bit, its size and what is left fill the unit up, with the distance in front
/// where the most significant bit comes first and behind otherwise.
pub proof fn lemma_bit_fields_lie_in_their_unit<'input>(
    entry: Entry<'input>,
    big_endian: bool,
    offset_at: int,
    size_at: int,
    unit_at: int,
    start: u64,
)
    requires
        is_last(entry, DW_AT_bit_offset, offset_at),
        is_last(entry, DW_AT_bit_size, size_at),
        is_last(entry, DW_AT_byte_size, unit_at),
        entry.attrs@[offset_at].udata is Some,
        entry.attrs@[size_at].udata is Some,
        entry.attrs@[unit_at].udata is Some,
        entry::last_place(entry.attrs@) == Some(start),
        entry.attrs@[offset_at].udata->0 + entry.attrs@[size_at].udata->0 <= 8
            * entry.attrs@[unit_at].udata->0,
        start + 8 * entry.attrs@[unit_at].udata->0 <= u64::MAX,
    ensures
        ({
            let field = Member::parsed(entry, big_endian);
            let distance = entry.attrs@[offset_at].udata->0;
            let size = entry.attrs@[size_at].udata->0;
            let unit = 8 * entry.attrs@[unit_at].udata->0;
            &&& field.bit_size == Some(size)
            &&& if big_endian {
                field.bit_offset == start + distance
            } else {
                field.bit_offset + size + distance == start + unit
            }
        }),
{
    entry::lemma_last_attribute_counts(entry, DW_AT_bit_offset, offset_at);
    entry::lemma_last_attribute_counts(entry, DW_AT_bit_size, size_at);
    entry::lemma_last_attribute_counts(entry, DW_AT_byte_size, unit_at);
    types::lemma_bit_field_fills_unit(
        start,
        entry.attrs@[offset_at].udata->0,
        entry.attrs@[size_at].udata->0,
        entry.attrs@[unit_at].udata->0,
        big_endian,
    );
}

/// A value of an enumeration is the number that its entry gives, and a source language and an
/// origin are those that their entries give.
pub proof fn lemma_values_are_read<'input>(
    entry: Entry<'input>,
    namespace: Rc<Namespace<'input>>,
    i: int,
    subroutine: InlinedSubroutine<'input>,
)
    requires
        subroutine.parsed(entry, namespace),
    ensures
        is_last(entry, DW_AT_const_value, i) && entry.attrs@[i].sdata is Some
            ==> Enumerator::parsed(entry).value == entry.attrs@[i].sdata,
        lacks(entry, DW_AT_const_value) ==> Enumerator::parsed(entry).value is None,
        is_last(entry, DW_AT_abstract_origin, i) && entry.attrs@[i].value is UnitRef
            ==> subroutine.abstract_origin == Some(entry.attrs@[i].value->UnitRef_0),
        lacks(entry, DW_AT_abstract_origin) ==> subroutine.abstract_origin is None,
{
    if is_last(entry, DW_AT_const_value, i) {
        entry::lemma_last_attribute_counts(entry, DW_AT_const_value, i);
    }
    if lacks(entry, DW_AT_const_value) {
        entry::lemma_missing_attribute(entry, DW_AT_const_value);
    }
    if is_last(entry, DW_AT_abstract_origin, i) {
        entry::lemma_last_attribute_counts(entry, DW_AT_abstract_origin, i);
    }
    if lacks(entry, DW_AT_abstract_origin) {
        entry::lemma_missing_attribute(entry, DW_AT_abstract_origin);
    }
}

/// A subprogram starts at the address that its entry gives, and ends at the other address or a
/// length behind the first; its size is the distance. Where there is no address there is none.
pub proof fn lemma_code_is_read<'input>(
    subprogram: Subprogram<'input>,
    entry: Entry<'input>,
    namespace: Rc<Namespace<'input>>,
    i: int,
    j: int,
)
    requires
        subprogram.parsed(entry, namespace),
    ensures
        is_last(entry, DW_AT_low_pc, i) && entry.attrs@[i].value is Addr ==> {
            let low_pc = entry.attrs@[i].value->Addr_0;
            &&& subprogram.low_pc == Some(low_pc)
            &&& is_last(entry, DW_AT_high_pc, j) ==> match entry.attrs@[j].value {
                Value::Addr(high_pc) => subprogram.high_pc == Some(high_pc) && (low_pc <= high_pc
                    ==> subprogram.size is Some && low_pc + subprogram.size->0 == high_pc) && (
                low_pc > high_pc ==> subprogram.size is None),
                _ => true,
            }
            &&& is_last(entry, DW_AT_high_pc, j) && entry.attrs@[j].value is Udata && (forall|
                k: int,
            |
                0 <= k < entry.attrs@.len() && (#[trigger] entry.attrs@[k]).name == DW_AT_high_pc
                    ==> !(entry.attrs@[k].value is Addr)) ==> {
                let length = entry.attrs@[j].value->Udata_0;
                &&& subprogram.size == Some(length)
                &&& low_pc + length <= u64::MAX ==> subprogram.high_pc is Some
                    && subprogram.high_pc->0 == low_pc + length
                &&& low_pc + length > u64::MAX ==> subprogram.high_pc is None
            }
        },
        lacks(entry, DW_AT_low_pc) ==> subprogram.low_pc is None,
        lacks(entry, DW_AT_high_pc) ==> subprogram.high_pc is None && subprogram.size is None,
        is_last(entry, DW_AT_inline, i) && entry.attrs@[i].value is Inline ==> (subprogram.inline
            <==> entry.attrs@[i].value->Inline_0 == DW_INL_inlined
            || entry.attrs@[i].value->Inline_0 == DW_INL_declared_inlined),
        lacks(entry, DW_AT_inline) ==> !subprogram.inline,
        subprogram.calls@.len() == 0,
{
    if is_last(entry, DW_AT_low_pc, i) {
        entry::lemma_last_attribute_counts(entry, DW_AT_low_pc, i);
    }
    if is_last(entry, DW_AT_high_pc, j) {
        entry::lemma_last_attribute_counts(entry, DW_AT_high_pc, j);
        if forall|k: int|
            0 <= k < entry.attrs@.len() && (#[trigger] entry.attrs@[k]).name == DW_AT_high_pc
                ==> !(entry.attrs@[k].value is Addr) {
            entry::lemma_no_address(entry, DW_AT_high_pc);
        }
    }
    if lacks(entry, DW_AT_low_pc) {
        entry::lemma_missing_attribute(entry, DW_AT_low_pc);
    }
    if lacks(entry, DW_AT_high_pc) {
        entry::lemma_missing_attribute(entry, DW_AT_high_pc);
    }
    if is_last(entry, DW_AT_inline, i) {
        entry::lemma_last_attribute_counts(entry, DW_AT_inline, i);
    }
    if lacks(entry, DW_AT_inline) {
        entry::lemma_missing_attribute(entry, DW_AT_inline);
    }
}

/// The lengths of ranges added up.
pub open spec fn sum(ranges: Seq<Range>) -> int
    decreases ranges.len(),
{
    if ranges.len() == 0 {
        0
    } else {
        ranges[0].end - ranges[0].begin + sum(ranges.skip(1))
    }
}

proof fn lemma_sum_back(ranges: Seq<Range>)
    requires
        ranges.len() > 0,
    ensures
        sum(ranges) == sum(ranges.drop_last()) + ranges.last().end - ranges.last().begin,
    decreases ranges.len(),
{
    if ranges.len() == 1 {
        assert(ranges.skip(1) =~= seq![]);
        assert(ranges.drop_last() =~= seq![]);
    } else {
        lemma_sum_back(ranges.skip(1));
        assert(ranges.skip(1).drop_last() =~= ranges.drop_last().skip(1));
    }
}

proof fn lemma_sum_grows(ranges: Seq<Range>)
    requires
        forall|i: int| 0 <= i < ranges.len() ==> (#[trigger] ranges[i]).begin <= ranges[i].end,
    ensures
        sum(ranges) >= 0,
    decreases ranges.len(),
{
    if ranges.len() > 0 {
        assert(ranges[0].begin <= ranges[0].end);
        lemma_sum_grows(ranges.skip(1));
    }
}

/// Ranges that end behind their start are together as long as all of them, where the length
/// fits.
pub proof fn lemma_ranges_add_up(ranges: Seq<Range>)
    requires
        forall|i: int| 0 <= i < ranges.len() ==> (#[trigger] ranges[i]).begin <= ranges[i].end,
        sum(ranges) <= u64::MAX,
    ensures
        subprogram::total_length(ranges) == sum(ranges),
    decreases ranges.len(),
{
    if ranges.len() > 0 {
        let rest = ranges.drop_last();
        assert(ranges[ranges.len() - 1].begin <= ranges[ranges.len() - 1].end);
        assert(forall|i: int| 0 <= i < rest.len() ==> rest[i] == #[trigger] ranges[i]);
        lemma_sum_back(ranges);
        lemma_sum_grows(rest);
        lemma_ranges_add_up(rest);
    }
}

/// The size of an inlined subroutine is that of its ranges where it names a list of them, else
/// the length that its entry gives, else the distance between its addresses.
pub proof fn lemma_inlined_sizes_are_read<'input>(
    subroutine: InlinedSubroutine<'input>,
    entry: Entry<'input>,
    namespace: Rc<Namespace<'input>>,
    i: int,
    j: int,
)
    requires
        subroutine.parsed(entry, namespace),
    ensures
        is_last(entry, DW_AT_ranges, i) && entry.attrs@[i].value is DebugRangesRef
            ==> subroutine.size == Some(subprogram::total_length(entry.ranges@)),
        lacks(entry, DW_AT_ranges) && is_last(entry, DW_AT_high_pc, i)
            && entry.attrs@[i].value is Udata ==> subroutine.size == Some(
            entry.attrs@[i].value->Udata_0,
        ),
        lacks(entry, DW_AT_ranges) && is_last(entry, DW_AT_high_pc, i)
            && entry.attrs@[i].value is Addr && is_last(entry, DW_AT_low_pc, j)
            && entry.attrs@[j].value is Addr && entry.attrs@[j].value->Addr_0
            <= entry.attrs@[i].value->Addr_0 && (forall|k: int|
            0 <= k < entry.attrs@.len() && (#[trigger] entry.attrs@[k]).name == DW_AT_high_pc
                ==> !(entry.attrs@[k].value is Udata)) ==> subroutine.size is Some
            && subroutine.size->0 == entry.attrs@[i].value->Addr_0 - entry.attrs@[j].value->Addr_0,
        lacks(entry, DW_AT_ranges) && lacks(entry, DW_AT_high_pc) ==> subroutine.size is None,
{
    if is_last(entry, DW_AT_ranges, i) {
        entry::lemma_last_attribute_counts(entry, DW_AT_ranges, i);
    }
    if lacks(entry, DW_AT_ranges) {
        entry::lemma_missing_attribute(entry, DW_AT_ranges);
    }
    if is_last(entry, DW_AT_high_pc, i) {
        entry::lemma_last_attribute_counts(entry, DW_AT_high_pc, i);
        if forall|k: int|
            0 <= k < entry.attrs@.len() && (#[trigger] entry.attrs@[k]).name == DW_AT_high_pc
                ==> !(entry.attrs@[k].value is Udata) {
            entry::lemma_no_length(entry, DW_AT_high_pc);
        }
    }
    if lacks(entry, DW_AT_high_pc) {
        entry::lemma_missing_attribute(entry, DW_AT_high_pc);
    }
    if is_last(entry, DW_AT_low_pc, j) {
        entry::lemma_last_attribute_counts(entry, DW_AT_low_pc, j);
    }
}

/// A unit is called what its entry calls it, and has the size of an address that its header
/// gives.
pub proof fn lemma_units_are_read<'input>(
    unit: Unit<'input>,
    entries: UnitEntries<'input>,
    big_endian: bool,
    i: int,
)
    requires
        unit.parsed(entries, big_endian),
    ensures
        unit.address_size is Some,
        unit.address_size->0 == entries.address_size,
        is_last(entries.root, DW_AT_name, i) ==> unit.name == entries.root.attrs@[i].string,
        is_last(entries.root, DW_AT_comp_dir, i) ==> unit.dir == entries.root.attrs@[i].string,
        lacks(entries.root, DW_AT_name) ==> unit.name is None,
        lacks(entries.root, DW_AT_comp_dir) ==> unit.dir is None,
        is_last(entries.root, DW_AT_language, i) && entries.root.attrs@[i].value is Language
            ==> unit.language == Some(entries.root.attrs@[i].value->Language_0),
        is_last(entries.root, DW_AT_low_pc, i) && entries.root.attrs@[i].value is Addr
            ==> unit.low_pc == Some(entries.root.attrs@[i].value->Addr_0),
        is_last(entries.root, DW_AT_high_pc, i) ==> match entries.root.attrs@[i].value {
            Value::Addr(high_pc) => unit.high_pc == Some(high_pc),
            Value::Udata(length) => unit.size == Some(length),
            _ => true,
        },
{
    let entry = entries.root;
    if is_last(entry, DW_AT_name, i) {
        entry::lemma_last_attribute_counts(entry, DW_AT_name, i);
    }
    if is_last(entry, DW_AT_comp_dir, i) {
        entry::lemma_last_attribute_counts(entry, DW_AT_comp_dir, i);
    }
    if is_last(entry, DW_AT_language, i) {
        entry::lemma_last_attribute_counts(entry, DW_AT_language, i);
    }
    if is_last(entry, DW_AT_low_pc, i) {
        entry::lemma_last_attribute_counts(entry, DW_AT_low_pc, i);
    }
    if is_last(entry, DW_AT_high_pc, i) {
        entry::lemma_last_attribute_counts(entry, DW_AT_high_pc, i);
    }
    if lacks(entry, DW_AT_name) {
        entry::lemma_missing_attribute(entry, DW_AT_name);
    }
    if lacks(entry, DW_AT_comp_dir) {
        entry::lemma_missing_attribute(entry, DW_AT_comp_dir);
    }
}

/// What an entry does not say is missing in what is read.
pub proof fn lemma_missing_is_missing<'input>(
    entry: Entry<'input>,
    namespace: Rc<Namespace<'input>>,
    kind: TypeModifierKind,
    big_endian: bool,
    structure: StructType<'input>,
    union_type: UnionType<'input>,
    enumeration: EnumerationType<'input>,
    subroutine: SubroutineType<'input>,
    subprogram: Subprogram<'input>,
)
    requires
        structure.parsed(entry, namespace, big_endian),
        union_type.parsed(entry, namespace, big_endian),
        enumeration.parsed(entry, namespace),
        subroutine.parsed(entry),
        subprogram.parsed(entry, namespace),
    ensures
        lacks(entry, DW_AT_name) ==> {
            &&& TypeModifier::parsed(entry, namespace, kind).name is None
            &&& BaseType::parsed(entry).name is None
            &&& TypeDef::parsed(entry, namespace).name is None
            &&& Member::parsed(entry, big_endian).name is None
            &&& Enumerator::parsed(entry).name is None
            &&& Parameter::parsed(entry).name is None
            &&& Variable::parsed(entry, namespace).name is None
            &&& structure.name is None
            &&& union_type.name is None
            &&& enumeration.name is None
            &&& subprogram.name is None
        },
        lacks(entry, DW_AT_type) ==> {
            &&& TypeModifier::parsed(entry, namespace, kind).ty is None
            &&& TypeDef::parsed(entry, namespace).ty is None
            &&& Member::parsed(entry, big_endian).ty is None
            &&& ArrayType::parsed(entry).ty is None
            &&& Parameter::parsed(entry).ty is None
            &&& Variable::parsed(entry, namespace).ty is None
            &&& subroutine.return_type is None
            &&& subprogram.return_type is None
        },
        lacks(entry, DW_AT_byte_size) ==> {
            &&& TypeModifier::parsed(entry, namespace, kind).byte_size is None
            &&& BaseType::parsed(entry).byte_size is None
            &&& structure.byte_size is None
            &&& union_type.byte_size is None
            &&& enumeration.byte_size is None
        },
{
    if lacks(entry, DW_AT_name) {
        entry::lemma_missing_attribute(entry, DW_AT_name);
    }
    if lacks(entry, DW_AT_type) {
        entry::lemma_missing_attribute(entry, DW_AT_type);
    }
    if lacks(entry, DW_AT_byte_size) {
        entry::lemma_missing_attribute(entry, DW_AT_byte_size);
    }
}

proof fn lemma_tagged_parts<'input>(a: Seq<Entry<'input>>, b: Seq<Entry<'input>>, tag: u64)
    ensures
        types::tagged(a + b, tag) == types::tagged(a, tag) + types::tagged(b, tag),
    decreases b.len(),
{
    if b.len() == 0 {
        assert(a + b =~= a);
        assert(types::tagged(a + b, tag) =~= types::tagged(a, tag) + types::tagged(b, tag));
    } else {
        assert((a + b).drop_last() =~= a + b.drop_last());
        lemma_tagged_parts(a, b.drop_last(), tag);
        assert(types::tagged(a + b, tag) =~= types::tagged(a, tag) + types::tagged(b, tag));
    }
}

proof fn lemma_tagged_one<'input>(entry: Entry<'input>, tag: u64)
    ensures
        types::tagged(seq![entry], tag) == if entry.tag == tag {
            seq![entry]
        } else {
            seq![]
        },
{
    reveal_with_fuel(types::tagged, 2);
    assert(seq![entry].drop_last() =~= seq![]);
    assert(types::tagged(seq![entry], tag) =~= if entry.tag == tag {
        seq![entry]
    } else {
        seq![]
    });
}

/// The members, the values and the parameters that entries describe come from the entries one
/// by one: those of two lists together are those of the first and then those of the second, and
/// an entry of the right tag gives one and any other none.
pub proof fn lemma_members_come_one_by_one<'input>(
    a: Seq<Entry<'input>>,
    b: Seq<Entry<'input>>,
    entry: Entry<'input>,
    big_endian: bool,
)
    ensures
        types::members_parsed(a + b, big_endian) == types::members_parsed(a, big_endian)
            + types::members_parsed(b, big_endian),
        types::members_parsed(seq![entry], big_endian) == if entry.tag == DW_TAG_member {
            seq![Member::parsed(entry, big_endian)]
        } else {
            seq![]
        },
        types::enumerators_parsed(a + b) == types::enumerators_parsed(a)
            + types::enumerators_parsed(b),
        types::enumerators_parsed(seq![entry]) == if entry.tag == DW_TAG_enumerator {
            seq![Enumerator::parsed(entry)]
        } else {
            seq![]
        },
        types::parameters_parsed(a + b) == types::parameters_parsed(a) + types::parameters_parsed(
            b,
        ),
        types::parameters_parsed(seq![entry]) == if entry.tag == DW_TAG_formal_parameter {
            seq![Parameter::parsed(entry)]
        } else {
            seq![]
        },
{
    lemma_tagged_parts(a, b, DW_TAG_member);
    lemma_tagged_parts(a, b, DW_TAG_enumerator);
    lemma_tagged_parts(a, b, DW_TAG_formal_parameter);
    lemma_tagged_one(entry, DW_TAG_member);
    lemma_tagged_one(entry, DW_TAG_enumerator);
    lemma_tagged_one(entry, DW_TAG_formal_parameter);
    assert(types::members_parsed(a + b, big_endian) =~= types::members_parsed(a, big_endian)
        + types::members_parsed(b, big_endian));
    assert(types::members_parsed(seq![entry], big_endian) =~= if entry.tag == DW_TAG_member {
        seq![Member::parsed(entry, big_endian)]
    } else {
        seq![]
    });
    assert(types::enumerators_parsed(a + b) =~= types::enumerators_parsed(a)
        + types::enumerators_parsed(b));
    assert(types::enumerators_parsed(seq![entry]) =~= if entry.tag == DW_TAG_enumerator {
        seq![Enumerator::parsed(entry)]
    } else {
        seq![]
    });
    assert(types::parameters_parsed(a + b) =~= types::parameters_parsed(a)
        + types::parameters_parsed(b));
    assert(types::parameters_parsed(seq![entry]) =~= if entry.tag == DW_TAG_formal_parameter {
        seq![Parameter::parsed(entry)]
    } else {
        seq![]
    });
}

/// A structure, a union and an enumeration hold all members, values and subprograms that stand
/// below their entries, and their subprograms stand in a namespace of their name.
pub proof fn lemma_types_hold_what_stands_below<'input>(
    entry: Entry<'input>,
    namespace: Rc<Namespace<'input>>,
    big_endian: bool,
    structure: StructType<'input>,
    union_type: UnionType<'input>,
    enumeration: EnumerationType<'input>,
    subroutine: SubroutineType<'input>,
    k: int,
)
    requires
        structure.parsed(entry, namespace, big_endian),
        union_type.parsed(entry, namespace, big_endian),
        enumeration.parsed(entry, namespace),
        subroutine.parsed(entry),
        0 <= k < entry.children@.len(),
    ensures
        entry.children@[k].tag == DW_TAG_member ==> structure.members@.contains(
            Member::parsed(entry.children@[k], big_endian),
        ) && union_type.members@.contains(Member::parsed(entry.children@[k], big_endian)),
        entry.children@[k].tag == DW_TAG_enumerator ==> enumeration.enumerators@.contains(
            Enumerator::parsed(entry.children@[k]),
        ),
        entry.children@[k].tag == DW_TAG_formal_parameter ==> subroutine.parameters@.contains(
            Parameter::parsed(entry.children@[k]),
        ),
        entry.children@[k].tag == DW_TAG_subprogram ==> {
            &&& exists|i: int|
                0 <= i < structure.subprograms@.len() && (
                #[trigger] structure.subprograms@[i]).offset == entry.children@[k].offset
            &&& exists|i: int|
                0 <= i < union_type.subprograms@.len() && (
                #[trigger] union_type.subprograms@[i]).offset == entry.children@[k].offset
            &&& exists|i: int|
                0 <= i < enumeration.subprograms@.len() && (
                #[trigger] enumeration.subprograms@[i]).offset == entry.children@[k].offset
        },
        forall|i: int|
            0 <= i < structure.subprograms@.len() ==> (
            #[trigger] structure.subprograms@[i]).namespace.path() == namespace.path().push(
                structure.name,
            ),
        forall|i: int|
            0 <= i < union_type.subprograms@.len() ==> (
            #[trigger] union_type.subprograms@[i]).namespace.path() == namespace.path().push(
                union_type.name,
            ),
        forall|i: int|
            0 <= i < enumeration.subprograms@.len() ==> (
            #[trigger] enumeration.subprograms@[i]).namespace.path() == namespace.path().push(
                enumeration.name,
            ),
{
    let child = entry.children@[k];
    let found = lemma_tagged_contains(entry.children@, child.tag, k);
    let list = types::tagged(entry.children@, child.tag);
    if child.tag == DW_TAG_member {
        assert(structure.members@[found] == Member::parsed(child, big_endian));
        assert(union_type.members@[found] == Member::parsed(child, big_endian));
    }
    if child.tag == DW_TAG_enumerator {
        assert(enumeration.enumerators@[found] == Enumerator::parsed(child));
    }
    if child.tag == DW_TAG_formal_parameter {
        assert(subroutine.parameters@[found] == Parameter::parsed(child));
    }
    if child.tag == DW_TAG_subprogram {
        let inner = types::inside(namespace, entry.string(DW_AT_name));
        assert(structure.subprograms@[found].parsed(list[found], inner));
        assert(union_type.subprograms@[found].parsed(list[found], inner));
        assert(enumeration.subprograms@[found].parsed(list[found], inner));
    }
}

proof fn lemma_tagged_contains<'input>(entries: Seq<Entry<'input>>, tag: u64, k: int) -> (found: int)
    requires
        0 <= k < entries.len(),
        entries[k].tag == tag,
    ensures
        0 <= found < types::tagged(entries, tag).len(),
        types::tagged(entries, tag)[found] == entries[k],
    decreases entries.len(),
{
    if k == entries.len() - 1 {
        types::tagged(entries.drop_last(), tag).len() as int
    } else {
        lemma_tagged_contains(entries.drop_last(), tag, k)
    }
}

proof fn lemma_found_parts<'input>(a: Seq<Entry<'input>>, b: Seq<Entry<'input>>, tag: u64)
    ensures
        subprogram::found(a + b, tag) == subprogram::found(a, tag) + subprogram::found(b, tag),
        subprogram::found_in_blocks(a + b, tag) == subprogram::found_in_blocks(a, tag)
            + subprogram::found_in_blocks(b, tag),
    decreases b.len(),
{
    if b.len() == 0 {
        assert(a + b =~= a);
    } else {
        assert((a + b).drop_last() =~= a + b.drop_last());
        lemma_found_parts(a, b.drop_last(), tag);
    }
    assert(subprogram::found(a + b, tag) =~= subprogram::found(a, tag) + subprogram::found(b, tag));
    assert(subprogram::found_in_blocks(a + b, tag) =~= subprogram::found_in_blocks(a, tag)
        + subprogram::found_in_blocks(b, tag));
}

/// Blocks are looked through: what is found in two lists of entries is what is found in the
/// first and then what is found in the second, an entry of the tag is found itself, and in a
/// block is found what is found among the entries below it.
pub proof fn lemma_blocks_are_looked_through<'input>(
    a: Seq<Entry<'input>>,
    b: Seq<Entry<'input>>,
    entry: Entry<'input>,
    tag: u64,
)
    requires
        tag != DW_TAG_lexical_block,
    ensures
        subprogram::found(a + b, tag) == subprogram::found(a, tag) + subprogram::found(b, tag),
        subprogram::found_in_blocks(a + b, tag) == subprogram::found_in_blocks(a, tag)
            + subprogram::found_in_blocks(b, tag),
        entry.tag == tag ==> subprogram::found(seq![entry], tag) == seq![entry],
        entry.tag == DW_TAG_lexical_block ==> subprogram::found(seq![entry], tag)
            == subprogram::found(entry.children@, tag),
        entry.tag != tag && entry.tag != DW_TAG_lexical_block ==> subprogram::found(
            seq![entry],
            tag,
        ) == Seq::<Entry<'input>>::empty(),
        entry.tag == DW_TAG_lexical_block ==> subprogram::found_in_blocks(seq![entry], tag)
            == subprogram::found(entry.children@, tag),
        entry.tag != DW_TAG_lexical_block ==> subprogram::found_in_blocks(seq![entry], tag)
            == Seq::<Entry<'input>>::empty(),
{
    lemma_found_parts(a, b, tag);
    reveal_with_fuel(subprogram::found, 2);
    reveal_with_fuel(subprogram::found_in_blocks, 2);
    let one = seq![entry];
    assert(one.drop_last() =~= seq![]);
    assert(subprogram::found(one.drop_last(), tag) =~= seq![]);
    assert(subprogram::found_in_blocks(one.drop_last(), tag) =~= seq![]);
    assert(entry.tag == tag ==> subprogram::found(one, tag) =~= seq![entry]);
    assert(entry.tag == DW_TAG_lexical_block ==> subprogram::found(one, tag)
        =~= subprogram::found(entry.children@, tag));
    assert(entry.tag == DW_TAG_lexical_block ==> subprogram::found_in_blocks(one, tag)
        =~= subprogram::found(entry.children@, tag));
}

/// A subprogram has the parameters that stand below its entry, and the variables and the
/// inlined subroutines that stand there and in the blocks there. An inlined subroutine has the
/// inlined subroutines that stand below its entry and in the blocks there, and the variables of
/// the blocks.
pub proof fn lemma_code_holds_what_stands_below<'input>(
    subprogram: Subprogram<'input>,
    inlined: InlinedSubroutine<'input>,
    entry: Entry<'input>,
    namespace: Rc<Namespace<'input>>,
    i: int,
)
    requires
        subprogram.parsed(entry, namespace),
        inlined.parsed(entry, namespace),
    ensures
        subprogram.parameters@ == types::parameters_parsed(entry.children@),
        ({
            let found = subprogram::found(entry.children@, DW_TAG_variable);
            &&& subprogram.variables@.len() == found.len()
            &&& 0 <= i < found.len() ==> subprogram.variables@[i] == Variable::parsed(
                found[i],
                namespace,
            )
        }),
        ({
            let found = subprogram::found(entry.children@, DW_TAG_inlined_subroutine);
            &&& subprogram.inlined_subroutines@.len() == found.len()
            &&& inlined.inlined_subroutines@.len() == found.len()
            &&& 0 <= i < found.len() ==> subprogram.inlined_subroutines@[i].parsed(
                found[i],
                namespace,
            ) && inlined.inlined_subroutines@[i].parsed(found[i], namespace)
        }),
        ({
            let found = subprogram::found_in_blocks(entry.children@, DW_TAG_variable);
            &&& inlined.variables@.len() == found.len()
            &&& 0 <= i < found.len() ==> inlined.variables@[i] == Variable::parsed(
                found[i],
                namespace,
            )
        }),
{
}

/// An array has the count that the last bound below its entry gives: the last attribute of the
/// bound for a count or for an upper bound. A bound without such an attribute changes nothing,
/// and neither does an entry that is no bound.
pub proof fn lemma_last_bound_counts<'input>(
    before: Seq<Entry<'input>>,
    last: Entry<'input>,
    i: int,
)
    ensures
        last.tag == DW_TAG_subrange_type && 0 <= i < last.attrs@.len() && bounds(last.attrs@[i])
            && (forall|j: int| i < j < last.attrs@.len() ==> !bounds(#[trigger] last.attrs@[j]))
            ==> types::count_parsed(before.push(last)) == last.attrs@[i].udata,
        last.tag != DW_TAG_subrange_type || (forall|j: int|
            0 <= j < last.attrs@.len() ==> !bounds(#[trigger] last.attrs@[j]))
            ==> types::count_parsed(before.push(last)) == types::count_parsed(before),
        types::count_parsed(Seq::<Entry<'input>>::empty()) is None,
        ArrayType::parsed(last).count == types::count_parsed(last.children@),
{
    assert(before.push(last).drop_last() =~= before);
    if 0 <= i < last.attrs@.len() && bounds(last.attrs@[i]) && (forall|j: int|
        i < j < last.attrs@.len() ==> !bounds(#[trigger] last.attrs@[j])) {
        lemma_last_count(last.attrs@, i);
    }
    if forall|j: int| 0 <= j < last.attrs@.len() ==> !bounds(#[trigger] last.attrs@[j]) {
        lemma_no_count(last.attrs@);
    }
}

/// Whether an attribute gives a count or an upper bound.
pub open spec fn bounds(attr: Attribute) -> bool {
    attr.name == DW_AT_count || attr.name == DW_AT_upper_bound
}

proof fn lemma_last_count<'input>(attrs: Seq<Attribute<'input>>, i: int)
    requires
        0 <= i < attrs.len(),
        bounds(attrs[i]),
        forall|j: int| i < j < attrs.len() ==> !bounds(#[trigger] attrs[j]),
    ensures
        types::last_count(attrs) == Some(attrs[i]),
    decreases attrs.len(),
{
    if i < attrs.len() - 1 {
        let rest = attrs.drop_last();
        assert(!bounds(attrs[attrs.len() - 1]));
        assert(forall|j: int| i < j < rest.len() ==> rest[j] == #[trigger] attrs[j]);
        lemma_last_count(rest, i);
    }
}

proof fn lemma_no_count<'input>(attrs: Seq<Attribute<'input>>)
    requires
        forall|j: int| 0 <= j < attrs.len() ==> !bounds(#[trigger] attrs[j]),
    ensures
        types::last_count(attrs) is None,
    decreases attrs.len(),
{
    if attrs.len() > 0 {
        let rest = attrs.drop_last();
        assert(!bounds(attrs[attrs.len() - 1]));
        assert(forall|j: int| 0 <= j < rest.len() ==> rest[j] == #[trigger] attrs[j]);
        lemma_no_count(rest);
    }
}

/// Where a subprogram starts nowhere, its length is still its size and the address behind it is
/// still its end, and neither follows from the other.
pub proof fn lemma_code_without_start_is_read<'input>(
    subprogram: Subprogram<'input>,
    entry: Entry<'input>,
    namespace: Rc<Namespace<'input>>,
    j: int,
)
    requires
        subprogram.parsed(entry, namespace),
        lacks(entry, DW_AT_low_pc),
        is_last(entry, DW_AT_high_pc, j),
    ensures
        entry.attrs@[j].value is Udata ==> subprogram.size == Some(
            entry.attrs@[j].value->Udata_0,
        ) && ((forall|k: int|
            0 <= k < entry.attrs@.len() && (#[trigger] entry.attrs@[k]).name == DW_AT_high_pc
                ==> !(entry.attrs@[k].value is Addr)) ==> subprogram.high_pc is None),
        entry.attrs@[j].value is Addr ==> subprogram.high_pc == Some(entry.attrs@[j].value->Addr_0)
            && ((forall|k: int|
            0 <= k < entry.attrs@.len() && (#[trigger] entry.attrs@[k]).name == DW_AT_high_pc
                ==> !(entry.attrs@[k].value is Udata)) ==> subprogram.size is None),
{
    entry::lemma_missing_attribute(entry, DW_AT_low_pc);
    entry::lemma_last_attribute_counts(entry, DW_AT_high_pc, j);
    if forall|k: int|
        0 <= k < entry.attrs@.len() && (#[trigger] entry.attrs@[k]).name == DW_AT_high_pc ==> !(
        entry.attrs@[k].value is Addr) {
        entry::lemma_no_address(entry, DW_AT_high_pc);
    }
    if forall|k: int|
        0 <= k < entry.attrs@.len() && (#[trigger] entry.attrs@[k]).name == DW_AT_high_pc ==> !(
        entry.attrs@[k].value is Udata) {
        entry::lemma_no_length(entry, DW_AT_high_pc);
    }
}

/// A member lies at its place where it is no bit field of the older kind, and where the size of
/// its storage unit is not known the distance from the most significant bit counts only where
/// this bit comes first.
pub proof fn lemma_members_without_unit_are_placed<'input>(
    entry: Entry<'input>,
    big_endian: bool,
    offset_at: int,
    size_at: int,
    start: u64,
)
    requires
        entry::last_place(entry.attrs@) == Some(start),
    ensures
        lacks(entry, DW_AT_bit_offset) || lacks(entry, DW_AT_bit_size) ==> Member::parsed(
            entry,
            big_endian,
        ).bit_offset == start,
        is_last(entry, DW_AT_bit_offset, offset_at) && is_last(entry, DW_AT_bit_size, size_at)
            && lacks(entry, DW_AT_byte_size) && entry.attrs@[offset_at].udata is Some
            && entry.attrs@[size_at].udata is Some && start + entry.attrs@[offset_at].udata->0
            <= u64::MAX ==> Member::parsed(entry, big_endian).bit_offset == (if big_endian {
            start + entry.attrs@[offset_at].udata->0
        } else {
            start as int
        }),
        lacks(entry, DW_AT_bit_size) ==> Member::parsed(entry, big_endian).bit_size is None,
{
    if lacks(entry, DW_AT_bit_offset) {
        entry::lemma_missing_attribute(entry, DW_AT_bit_offset);
    }
    if lacks(entry, DW_AT_bit_size) {
        entry::lemma_missing_attribute(entry, DW_AT_bit_size);
    }
    if lacks(entry, DW_AT_byte_size) {
        entry::lemma_missing_attribute(entry, DW_AT_byte_size);
    }
    if is_last(entry, DW_AT_bit_offset, offset_at) {
        entry::lemma_last_attribute_counts(entry, DW_AT_bit_offset, offset_at);
    }
    if is_last(entry, DW_AT_bit_size, size_at) {
        entry::lemma_last_attribute_counts(entry, DW_AT_bit_size, size_at);
    }
}

/// The lengths of ranges add up around the end of the range of numbers, also where a range ends
/// in front of where it begins.
pub proof fn lemma_ranges_add_up_around(ranges: Seq<Range>)
    ensures
        entry::same_around(subprogram::total_length(ranges) as int, sum(ranges)),
    decreases ranges.len(),
{
    if ranges.len() > 0 {
        lemma_sum_back(ranges);
        lemma_ranges_add_up_around(ranges.drop_last());
    }
}

/// Whatever numbers a bit field of the older kind is given by, its distance from the most
/// significant bit, its size and what is left fill its storage unit up, around the end of the
/// range of numbers.
pub proof fn lemma_bit_fields_fill_their_unit_around<'input>(
    entry: Entry<'input>,
    big_endian: bool,
    offset_at: int,
    size_at: int,
    unit_at: int,
    start: u64,
)
    requires
        is_last(entry, DW_AT_bit_offset, offset_at),
        is_last(entry, DW_AT_bit_size, size_at),
        is_last(entry, DW_AT_byte_size, unit_at),
        entry.attrs@[offset_at].udata is Some,
        entry.attrs@[size_at].udata is Some,
        entry.attrs@[unit_at].udata is Some,
        entry::last_place(entry.attrs@) == Some(start),
    ensures
        ({
            let field = Member::parsed(entry, big_endian);
            let distance = entry.attrs@[offset_at].udata->0;
            let size = entry.attrs@[size_at].udata->0;
            let unit = 8 * entry.attrs@[unit_at].udata->0;
            if big_endian {
                entry::same_around(field.bit_offset as int, start + distance)
            } else {
                entry::same_around(field.bit_offset + size + distance, start + unit)
            }
        }),
{
    entry::lemma_last_attribute_counts(entry, DW_AT_bit_offset, offset_at);
    entry::lemma_last_attribute_counts(entry, DW_AT_bit_size, size_at);
    entry::lemma_last_attribute_counts(entry, DW_AT_byte_size, unit_at);
    entry::lemma_bits_are_counted_around(entry.attrs@[unit_at].udata->0);
}

/// The distance between the two addresses of an inlined subroutine is counted around the end of
/// the range of numbers where they stand the wrong way round.
pub proof fn lemma_inlined_distances_are_counted_around<'input>(
    subroutine: InlinedSubroutine<'input>,
    entry: Entry<'input>,
    namespace: Rc<Namespace<'input>>,
    i: int,
    j: int,
)
    requires
        subroutine.parsed(entry, namespace),
        lacks(entry, DW_AT_ranges),
        is_last(entry, DW_AT_high_pc, i),
        entry.attrs@[i].value is Addr,
        is_last(entry, DW_AT_low_pc, j),
        entry.attrs@[j].value is Addr,
        forall|k: int|
            0 <= k < entry.attrs@.len() && (#[trigger] entry.attrs@[k]).name == DW_AT_high_pc
                ==> !(entry.attrs@[k].value is Udata),
    ensures
        subroutine.size is Some,
        entry::same_around(
            subroutine.size->0 as int,
            entry.attrs@[i].value->Addr_0 - entry.attrs@[j].value->Addr_0,
        ),
{
    entry::lemma_missing_attribute(entry, DW_AT_ranges);
    entry::lemma_last_attribute_counts(entry, DW_AT_high_pc, i);
    entry::lemma_last_attribute_counts(entry, DW_AT_low_pc, j);
    entry::lemma_no_length(entry, DW_AT_high_pc);
}

} // verus!

//! The types that a unit declares.

use crate::constants::{
    DW_AT_bit_offset, DW_AT_bit_size, DW_AT_byte_size, DW_AT_const_value, DW_AT_count,
    DW_AT_declaration, DW_AT_name, DW_AT_type, DW_AT_upper_bound, DW_TAG_array_type,
    DW_TAG_base_type, DW_TAG_const_type, DW_TAG_enumeration_type, DW_TAG_enumerator,
    DW_TAG_formal_parameter, DW_TAG_member, DW_TAG_pointer_type, DW_TAG_restrict_type,
    DW_TAG_structure_type, DW_TAG_subprogram, DW_TAG_subrange_type, DW_TAG_subroutine_type,
    DW_TAG_typedef, DW_TAG_union_type,
};
use crate::entry;
use crate::entry::{Attribute, Entry};
use crate::namespace::{Name, Namespace};
use crate::subprogram::Subprogram;
use std::rc::Rc;
use vstd::prelude::*;

verus! {

/// What a type is.
#[derive(Debug)]
pub enum TypeKind<'input> {
    Base(BaseType<'input>),
    TypeDef(TypeDef<'input>),
    Struct(StructType<'input>),
    Union(UnionType<'input>),
    Enumeration(EnumerationType<'input>),
    Array(ArrayType),
    Subroutine(SubroutineType<'input>),
    Modifier(TypeModifier<'input>),
    Unimplemented(u64),
}

/// A type of a unit.
#[derive(Debug)]
pub struct Type<'input> {
    /// The offset of its entry in the unit, by which other entries refer to it.
    pub offset: usize,
    /// What it is.
    pub kind: TypeKind<'input>,
}

/// How a type is modified.
#[derive(Clone, Copy, Debug)]
pub enum TypeModifierKind {
    Const,
    Pointer,
    Restrict,
}

/// A type that modifies another.
#[derive(Debug)]
pub struct TypeModifier<'input> {
    pub kind: TypeModifierKind,
    pub ty: Option<usize>,
    pub namespace: Rc<Namespace<'input>>,
    pub name: Name<'input>,
    pub byte_size: Option<u64>,
}

/// A type that the language has from the start.
#[derive(Debug)]
pub struct BaseType<'input> {
    pub name: Name<'input>,
    pub byte_size: Option<u64>,
}

/// A name for another type.
#[derive(Debug)]
pub struct TypeDef<'input> {
    pub namespace: Rc<Namespace<'input>>,
    pub name: Name<'input>,
    pub ty: Option<usize>,
}

/// A structure.
#[derive(Debug)]
pub struct StructType<'input> {
    pub namespace: Rc<Namespace<'input>>,
    pub name: Name<'input>,
    pub byte_size: Option<u64>,
    pub declaration: bool,
    pub members: Vec<Member<'input>>,
    pub subprograms: Vec<Subprogram<'input>>,
}

/// A union.
#[derive(Debug)]
pub struct UnionType<'input> {
    pub namespace: Rc<Namespace<'input>>,
    pub name: Name<'input>,
    pub byte_size: Option<u64>,
    pub declaration: bool,
    pub members: Vec<Member<'input>>,
    pub subprograms: Vec<Subprogram<'input>>,
}

/// A data member of a structure or a union.
#[derive(Debug)]
pub struct Member<'input> {
    pub name: Name<'input>,
    pub ty: Option<usize>,
    /// Where it starts, in bits from the start of what holds it. It is zero where the entry
    /// does not say.
    pub bit_offset: u64,
    pub bit_size: Option<u64>,
}

/// An enumeration.
#[derive(Debug)]
pub struct EnumerationType<'input> {
    pub namespace: Rc<Namespace<'input>>,
    pub name: Name<'input>,
    pub byte_size: Option<u64>,
    pub enumerators: Vec<Enumerator<'input>>,
    pub subprograms: Vec<Subprogram<'input>>,
}

/// A value of an enumeration.
#[derive(Debug)]
pub struct Enumerator<'input> {
    pub name: Name<'input>,
    pub value: Option<i64>,
}

/// An array.
#[derive(Debug)]
pub struct ArrayType {
    pub ty: Option<usize>,
    pub count: Option<u64>,
}

/// The type of a subroutine.
#[derive(Debug)]
pub struct SubroutineType<'input> {
    pub parameters: Vec<Parameter<'input>>,
    pub return_type: Option<usize>,
}

/// A parameter of a subprogram or of a subroutine type.
#[derive(Debug)]
pub struct Parameter<'input> {
    pub name: Name<'input>,
    pub ty: Option<usize>,
}

/// The entries with the given tag, in their order.
pub open spec fn tagged<'input>(entries: Seq<Entry<'input>>, tag: u64) -> Seq<Entry<'input>>
    decreases entries.len(),
{
    if entries.len() == 0 {
        seq![]
    } else if entries.last().tag == tag {
        tagged(entries.drop_last(), tag).push(entries.last())
    } else {
        tagged(entries.drop_last(), tag)
    }
}

/// The namespace of the given name inside another.
pub open spec fn inside<'input>(namespace: Rc<Namespace<'input>>, name: Name<'input>) -> Rc<
    Namespace<'input>,
> {
    Rc::new(Namespace { parent: Some(namespace), name })
}

impl<'input> TypeModifier<'input> {
    /// What an entry for a modified type says.
    pub open spec fn parsed(
        entry: Entry<'input>,
        namespace: Rc<Namespace<'input>>,
        kind: TypeModifierKind,
    ) -> TypeModifier<'input> {
        TypeModifier {
            kind,
            ty: entry.unit_ref(DW_AT_type),
            namespace,
            name: entry.string(DW_AT_name),
            byte_size: entry.udata(DW_AT_byte_size),
        }
    }

    /// Reads an entry for a modified type.
    pub fn parse_dwarf(
        entry: &Entry<'input>,
        namespace: &Rc<Namespace<'input>>,
        kind: TypeModifierKind,
    ) -> (modifier: TypeModifier<'input>)
        ensures
            modifier == Self::parsed(*entry, *namespace, kind),
    {
        TypeModifier {
            kind,
            ty: entry.get_unit_ref(DW_AT_type),
            namespace: namespace.clone(),
            name: entry.get_string(DW_AT_name),
            byte_size: entry.get_udata(DW_AT_byte_size),
        }
    }
}

impl<'input> BaseType<'input> {
    /// What an entry for a base type says.
    pub open spec fn parsed(entry: Entry<'input>) -> BaseType<'input> {
        BaseType {
            name: entry.string(DW_AT_name),
            byte_size: entry.udata(DW_AT_byte_size),
        }
    }

    /// Reads an entry for a base type.
    pub fn parse_dwarf(entry: &Entry<'input>) -> (ty: BaseType<'input>)
        ensures
            ty == Self::parsed(*entry),
    {
        BaseType {
            name: entry.get_string(DW_AT_name),
            byte_size: entry.get_udata(DW_AT_byte_size),
        }
    }
}

impl<'input> TypeDef<'input> {
    /// What an entry for a type definition says.
    pub open spec fn parsed(entry: Entry<'input>, namespace: Rc<Namespace<'input>>) -> TypeDef<
        'input,
    > {
        TypeDef {
            namespace,
            name: entry.string(DW_AT_name),
            ty: entry.unit_ref(DW_AT_type),
        }
    }

    /// Reads an entry for a type definition.
    pub fn parse_dwarf(entry: &Entry<'input>, namespace: &Rc<Namespace<'input>>) -> (typedef:
        TypeDef<'input>)
        ensures
            typedef == Self::parsed(*entry, *namespace),
    {
        TypeDef {
            namespace: namespace.clone(),
            name: entry.get_string(DW_AT_name),
            ty: entry.get_unit_ref(DW_AT_type),
        }
    }
}

/// Where a bit field starts, in bits, by the older way to describe one. The field lies in
/// a storage unit that starts at `start` and has `byte_size` bytes; `bit_offset` counts from
/// the most significant bit of the unit to that of the field.
pub open spec fn bit_field_start(
    start: u64,
    bit_offset: u64,
    bit_size: u64,
    byte_size: Option<u64>,
    big_endian: bool,
) -> u64 {
    if big_endian {
        start.wrapping_add(bit_offset)
    } else {
        match byte_size {
            Some(byte_size) => start.wrapping_add(entry::in_bits(byte_size)).wrapping_sub(
                bit_offset.wrapping_add(bit_size),
            ),
            None => start,
        }
    }
}

impl<'input> Member<'input> {
    /// What an entry for a data member says.
    pub open spec fn parsed(entry: Entry<'input>, big_endian: bool) -> Member<'input> {
        let bit_size = entry.udata(DW_AT_bit_size);
        let start = match entry::last_place(entry.attrs@) {
            Some(start) => start,
            None => 0,
        };
        Member {
            name: entry.string(DW_AT_name),
            ty: entry.unit_ref(DW_AT_type),
            bit_offset: match (entry.udata(DW_AT_bit_offset), bit_size) {
                (Some(bit_offset), Some(bit_size)) => bit_field_start(
                    start,
                    bit_offset,
                    bit_size,
                    entry.udata(DW_AT_byte_size),
                    big_endian,
                ),
                _ => start,
            },
            bit_size,
        }
    }

    /// Reads an entry for a data member.
    pub fn parse_dwarf(entry: &Entry<'input>, big_endian: bool) -> (member: Member<'input>)
        ensures
            member == Self::parsed(*entry, big_endian),
    {
        let bit_size = entry.get_udata(DW_AT_bit_size);
        let mut start: u64 = match entry.get_place() {
            Some(start) => start,
            None => 0,
        };
        if let (Some(bit_offset), Some(bit_size)) = (entry.get_udata(DW_AT_bit_offset), bit_size) {
            if big_endian {
                // The most significant bit is the first, so the size of the storage unit
                // does not matter.
                start = start.wrapping_add(bit_offset);
            } else if let Some(byte_size) = entry.get_udata(DW_AT_byte_size) {
                // Go to the most significant bit of the storage unit, and from there back
                // to the least significant bit of the field.
                start = start.wrapping_add(byte_size.wrapping_mul(8));
                start = start.wrapping_sub(bit_offset.wrapping_add(bit_size));
            }
        }
        Member {
            name: entry.get_string(DW_AT_name),
            ty: entry.get_unit_ref(DW_AT_type),
            bit_offset: start,
            bit_size,
        }
    }

    /// Whether the member has no name.
    pub open spec fn anonymous(self) -> bool {
        self.name is None
    }

    /// Whether the member has no name.
    pub fn is_anon(&self) -> (anonymous: bool)
        ensures
            anonymous == self.anonymous(),
    {
        self.name.is_none()
    }
}

/// The data members that the entries describe.
pub open spec fn members_parsed<'input>(
    entries: Seq<Entry<'input>>,
    big_endian: bool,
) -> Seq<Member<'input>> {
    tagged(entries, DW_TAG_member).map_values(|entry: Entry<'input>| Member::parsed(entry, big_endian))
}

fn parse_members<'input>(entries: &Vec<Entry<'input>>, big_endian: bool) -> (members: Vec<
    Member<'input>,
>)
    ensures
        members@ == members_parsed(entries@, big_endian),
{
    let mut members: Vec<Member<'input>> = Vec::new();
    let mut i: usize = 0;
    while i < entries.len()
        invariant
            i <= entries.len(),
            members@ == members_parsed(entries@.take(i as int), big_endian),
        decreases entries.len() - i,
    {
        assert(entries@.take(i + 1).drop_last() =~= entries@.take(i as int));
        if entries[i].tag == DW_TAG_member {
            members.push(Member::parse_dwarf(&entries[i], big_endian));
        }
        i = i + 1;
        assert(members@ =~= members_parsed(entries@.take(i as int), big_endian));
    }
    assert(entries@.take(i as int) =~= entries@);
    members
}

/// The values of an enumeration that the entries describe.
pub open spec fn enumerators_parsed<'input>(entries: Seq<Entry<'input>>) -> Seq<
    Enumerator<'input>,
> {
    tagged(entries, DW_TAG_enumerator).map_values(|entry: Entry<'input>| Enumerator::parsed(entry))
}

fn parse_enumerators<'input>(entries: &Vec<Entry<'input>>) -> (enumerators: Vec<
    Enumerator<'input>,
>)
    ensures
        enumerators@ == enumerators_parsed(entries@),
{
    let mut enumerators: Vec<Enumerator<'input>> = Vec::new();
    let mut i: usize = 0;
    while i < entries.len()
        invariant
            i <= entries.len(),
            enumerators@ == enumerators_parsed(entries@.take(i as int)),
        decreases entries.len() - i,
    {
        assert(entries@.take(i + 1).drop_last() =~= entries@.take(i as int));
        if entries[i].tag == DW_TAG_enumerator {
            enumerators.push(Enumerator::parse_dwarf(&entries[i]));
        }
        i = i + 1;
        assert(enumerators@ =~= enumerators_parsed(entries@.take(i as int)));
    }
    assert(entries@.take(i as int) =~= entries@);
    enumerators
}

/// The parameters that the entries describe.
pub open spec fn parameters_parsed<'input>(entries: Seq<Entry<'input>>) -> Seq<
    Parameter<'input>,
> {
    tagged(entries, DW_TAG_formal_parameter).map_values(
        |entry: Entry<'input>| Parameter::parsed(entry),
    )
}

/// Reads the entries for parameters.
pub fn parse_parameters<'input>(entries: &Vec<Entry<'input>>) -> (parameters: Vec<
    Parameter<'input>,
>)
    ensures
        parameters@ == parameters_parsed(entries@),
{
    let mut parameters: Vec<Parameter<'input>> = Vec::new();
    let mut i: usize = 0;
    while i < entries.len()
        invariant
            i <= entries.len(),
            parameters@ == parameters_parsed(entries@.take(i as int)),
        decreases entries.len() - i,
    {
        assert(entries@.take(i + 1).drop_last() =~= entries@.take(i as int));
        if entries[i].tag == DW_TAG_formal_parameter {
            parameters.push(Parameter::parse_dwarf(&entries[i]));
        }
        i = i + 1;
        assert(parameters@ =~= parameters_parsed(entries@.take(i as int)));
    }
    assert(entries@.take(i as int) =~= entries@);
    parameters
}

/// Whether these are the subprograms that the entries describe.
pub open spec fn subprograms_parsed<'input>(
    subprograms: Seq<Subprogram<'input>>,
    entries: Seq<Entry<'input>>,
    namespace: Rc<Namespace<'input>>,
) -> bool {
    let tagged = tagged(entries, DW_TAG_subprogram);
    &&& subprograms.len() == tagged.len()
    &&& forall|i: int|
        0 <= i < subprograms.len() ==> (#[trigger] subprograms[i]).parsed(tagged[i], namespace)
}

fn parse_subprograms<'input>(
    entries: &Vec<Entry<'input>>,
    namespace: &Rc<Namespace<'input>>,
) -> (subprograms: Vec<Subprogram<'input>>)
    ensures
        subprograms_parsed(subprograms@, entries@, *namespace),
{
    let mut subprograms: Vec<Subprogram<'input>> = Vec::new();
    let mut i: usize = 0;
    while i < entries.len()
        invariant
            i <= entries.len(),
            subprograms_parsed(subprograms@, entries@.take(i as int), *namespace),
        decreases entries.len() - i,
    {
        assert(entries@.take(i + 1).drop_last() =~= entries@.take(i as int));
        if entries[i].tag == DW_TAG_subprogram {
            subprograms.push(Subprogram::parse_dwarf(&entries[i], namespace));
        }
        i = i + 1;
    }
    assert(entries@.take(i as int) =~= entries@);
    subprograms
}

impl<'input> StructType<'input> {
    /// Whether this is what an entry for a structure says.
    pub open spec fn parsed(
        self,
        entry: Entry<'input>,
        namespace: Rc<Namespace<'input>>,
        big_endian: bool,
    ) -> bool {
        &&& self.namespace == namespace
        &&& self.name == entry.string(DW_AT_name)
        &&& self.byte_size == entry.udata(DW_AT_byte_size)
        &&& self.declaration == entry.flag(DW_AT_declaration)
        &&& self.members@ == members_parsed(entry.children@, big_endian)
        &&& subprograms_parsed(
            self.subprograms@,
            entry.children@,
            inside(namespace, entry.string(DW_AT_name)),
        )
    }

    /// Reads an entry for a structure.
    pub fn parse_dwarf(
        entry: &Entry<'input>,
        namespace: &Rc<Namespace<'input>>,
        big_endian: bool,
    ) -> (ty: StructType<'input>)
        ensures
            ty.parsed(*entry, *namespace, big_endian),
    {
        let name = entry.get_string(DW_AT_name);
        let inner = Namespace::new(namespace, name);
        StructType {
            namespace: namespace.clone(),
            name,
            byte_size: entry.get_udata(DW_AT_byte_size),
            declaration: entry.get_flag(DW_AT_declaration),
            members: parse_members(&entry.children, big_endian),
            subprograms: parse_subprograms(&entry.children, &inner),
        }
    }

    /// Whether the structure has no name.
    pub open spec fn anonymous(self) -> bool {
        self.name is None
    }

    /// Whether the structure has no name.
    pub fn is_anon(&self) -> (anonymous: bool)
        ensures
            anonymous == self.anonymous(),
    {
        self.name.is_none()
    }
}

impl<'input> UnionType<'input> {
    /// Whether this is what an entry for a union says.
    pub open spec fn parsed(
        self,
        entry: Entry<'input>,
        namespace: Rc<Namespace<'input>>,
        big_endian: bool,
    ) -> bool {
        &&& self.namespace == namespace
        &&& self.name == entry.string(DW_AT_name)
        &&& self.byte_size == entry.udata(DW_AT_byte_size)
        &&& self.declaration == entry.flag(DW_AT_declaration)
        &&& self.members@ == members_parsed(entry.children@, big_endian)
        &&& subprograms_parsed(
            self.subprograms@,
            entry.children@,
            inside(namespace, entry.string(DW_AT_name)),
        )
    }

    /// Reads an entry for a union.
    pub fn parse_dwarf(
        entry: &Entry<'input>,
        namespace: &Rc<Namespace<'input>>,
        big_endian: bool,
    ) -> (ty: UnionType<'input>)
        ensures
            ty.parsed(*entry, *namespace, big_endian),
    {
        let name = entry.get_string(DW_AT_name);
        let inner = Namespace::new(namespace, name);
        UnionType {
            namespace: namespace.clone(),
            name,
            byte_size: entry.get_udata(DW_AT_byte_size),
            declaration: entry.get_flag(DW_AT_declaration),
            members: parse_members(&entry.children, big_endian),
            subprograms: parse_subprograms(&entry.children, &inner),
        }
    }

    /// Whether the union has no name.
    pub open spec fn anonymous(self) -> bool {
        self.name is None
    }

    /// Whether the union has no name.
    pub fn is_anon(&self) -> (anonymous: bool)
        ensures
            anonymous == self.anonymous(),
    {
        self.name.is_none()
    }
}

impl<'input> EnumerationType<'input> {
    /// Whether this is what an entry for an enumeration says.
    pub open spec fn parsed(self, entry: Entry<'input>, namespace: Rc<Namespace<'input>>) -> bool {
        &&& self.namespace == namespace
        &&& self.name == entry.string(DW_AT_name)
        &&& self.byte_size == entry.udata(DW_AT_byte_size)
        &&& self.enumerators@ == enumerators_parsed(entry.children@)
        &&& subprograms_parsed(
            self.subprograms@,
            entry.children@,
            inside(namespace, entry.string(DW_AT_name)),
        )
    }

    /// Reads an entry for an enumeration.
    pub fn parse_dwarf(entry: &Entry<'input>, namespace: &Rc<Namespace<'input>>) -> (ty:
        EnumerationType<'input>)
        ensures
            ty.parsed(*entry, *namespace),
    {
        let name = entry.get_string(DW_AT_name);
        let inner = Namespace::new(namespace, name);
        EnumerationType {
            namespace: namespace.clone(),
            name,
            byte_size: entry.get_udata(DW_AT_byte_size),
            enumerators: parse_enumerators(&entry.children),
            subprograms: parse_subprograms(&entry.children, &inner),
        }
    }
}

impl<'input> Enumerator<'input> {
    /// What an entry for a value of an enumeration says.
    pub open spec fn parsed(entry: Entry<'input>) -> Enumerator<'input> {
        Enumerator { name: entry.string(DW_AT_name), value: entry.sdata(DW_AT_const_value) }
    }

    /// Reads an entry for a value of an enumeration.
    pub fn parse_dwarf(entry: &Entry<'input>) -> (enumerator: Enumerator<'input>)
        ensures
            enumerator == Self::parsed(*entry),
    {
        Enumerator {
            name: entry.get_string(DW_AT_name),
            value: entry.get_sdata(DW_AT_const_value),
        }
    }
}

/// Whether an attribute gives the count of an array.
pub open spec fn counts(attr: Attribute) -> bool {
    attr.name == DW_AT_count || attr.name == DW_AT_upper_bound
}

/// The last of the attributes that give the count of an array.
pub open spec fn last_count<'input>(attrs: Seq<Attribute<'input>>) -> Option<Attribute<'input>>
    decreases attrs.len(),
{
    if attrs.len() == 0 {
        None
    } else if counts(attrs.last()) {
        Some(attrs.last())
    } else {
        last_count(attrs.drop_last())
    }
}

/// The count that the entries below an array give: the last attribute that gives one, in
/// the last subrange that has such an attribute.
pub open spec fn count_parsed(entries: Seq<Entry>) -> Option<u64>
    decreases entries.len(),
{
    if entries.len() == 0 {
        None
    } else {
        match last_count(entries.last().attrs@) {
            Some(attr) if entries.last().tag == DW_TAG_subrange_type => attr.udata,
            _ => count_parsed(entries.drop_last()),
        }
    }
}

impl ArrayType {
    /// What an entry for an array says.
    pub open spec fn parsed(entry: Entry) -> ArrayType {
        ArrayType { ty: entry.unit_ref(DW_AT_type), count: count_parsed(entry.children@) }
    }

    /// Reads an entry for an array.
    pub fn parse_dwarf(entry: &Entry) -> (array: ArrayType)
        ensures
            array == Self::parsed(*entry),
    {
        let mut count: Option<u64> = None;
        let mut i: usize = 0;
        while i < entry.children.len()
            invariant
                i <= entry.children.len(),
                count == count_parsed(entry.children@.take(i as int)),
            decreases entry.children.len() - i,
        {
            let child = &entry.children[i];
            assert(entry.children@.take(i + 1).drop_last() =~= entry.children@.take(i as int));
            if child.tag == DW_TAG_subrange_type {
                let ghost before = count;
                let mut j: usize = 0;
                while j < child.attrs.len()
                    invariant
                        j <= child.attrs.len(),
                        count == match last_count(child.attrs@.take(j as int)) {
                            Some(attr) => attr.udata,
                            None => before,
                        },
                    decreases child.attrs.len() - j,
                {
                    assert(child.attrs@.take(j + 1).drop_last() =~= child.attrs@.take(j as int));
                    let attr = &child.attrs[j];
                    if attr.name == DW_AT_count || attr.name == DW_AT_upper_bound {
                        count = attr.udata;
                    }
                    j = j + 1;
                }
                assert(child.attrs@.take(j as int) =~= child.attrs@);
            }
            i = i + 1;
        }
        assert(entry.children@.take(i as int) =~= entry.children@);
        ArrayType { ty: entry.get_unit_ref(DW_AT_type), count }
    }
}

impl<'input> SubroutineType<'input> {
    /// Whether this is what an entry for the type of a subroutine says.
    pub open spec fn parsed(self, entry: Entry<'input>) -> bool {
        &&& self.parameters@ == parameters_parsed(entry.children@)
        &&& self.return_type == entry.unit_ref(DW_AT_type)
    }

    /// Reads an entry for the type of a subroutine.
    pub fn parse_dwarf(entry: &Entry<'input>) -> (subroutine: SubroutineType<'input>)
        ensures
            subroutine.parsed(*entry),
    {
        SubroutineType {
            parameters: parse_parameters(&entry.children),
            return_type: entry.get_unit_ref(DW_AT_type),
        }
    }
}

impl<'input> Parameter<'input> {
    /// What an entry for a parameter says.
    pub open spec fn parsed(entry: Entry<'input>) -> Parameter<'input> {
        Parameter { name: entry.string(DW_AT_name), ty: entry.unit_ref(DW_AT_type) }
    }

    /// Reads an entry for a parameter.
    pub fn parse_dwarf(entry: &Entry<'input>) -> (parameter: Parameter<'input>)
        ensures
            parameter == Self::parsed(*entry),
    {
        Parameter { name: entry.get_string(DW_AT_name), ty: entry.get_unit_ref(DW_AT_type) }
    }
}

/// Whether entries with this tag describe types.
pub open spec fn is_type_tag(tag: u64) -> bool {
    ||| tag == DW_TAG_base_type
    ||| tag == DW_TAG_structure_type
    ||| tag == DW_TAG_union_type
    ||| tag == DW_TAG_enumeration_type
    ||| tag == DW_TAG_array_type
    ||| tag == DW_TAG_subroutine_type
    ||| tag == DW_TAG_typedef
    ||| tag == DW_TAG_const_type
    ||| tag == DW_TAG_pointer_type
    ||| tag == DW_TAG_restrict_type
}

impl<'input> TypeKind<'input> {
    /// Whether this is what an entry for a type says.
    pub open spec fn parsed(
        self,
        entry: Entry<'input>,
        namespace: Rc<Namespace<'input>>,
        big_endian: bool,
    ) -> bool {
        if entry.tag == DW_TAG_base_type {
            self == TypeKind::Base(BaseType::parsed(entry))
        } else if entry.tag == DW_TAG_typedef {
            self == TypeKind::TypeDef(TypeDef::parsed(entry, namespace))
        } else if entry.tag == DW_TAG_structure_type {
            self matches TypeKind::Struct(ty) && ty.parsed(entry, namespace, big_endian)
        } else if entry.tag == DW_TAG_union_type {
            self matches TypeKind::Union(ty) && ty.parsed(entry, namespace, big_endian)
        } else if entry.tag == DW_TAG_enumeration_type {
            self matches TypeKind::Enumeration(ty) && ty.parsed(entry, namespace)
        } else if entry.tag == DW_TAG_array_type {
            self == TypeKind::<'input>::Array(ArrayType::parsed(entry))
        } else if entry.tag == DW_TAG_subroutine_type {
            self matches TypeKind::Subroutine(ty) && ty.parsed(entry)
        } else if entry.tag == DW_TAG_const_type {
            self == TypeKind::Modifier(
                TypeModifier::parsed(entry, namespace, TypeModifierKind::Const),
            )
        } else if entry.tag == DW_TAG_pointer_type {
            self == TypeKind::Modifier(
                TypeModifier::parsed(entry, namespace, TypeModifierKind::Pointer),
            )
        } else if entry.tag == DW_TAG_restrict_type {
            self == TypeKind::Modifier(
                TypeModifier::parsed(entry, namespace, TypeModifierKind::Restrict),
            )
        } else {
            self == TypeKind::<'input>::Unimplemented(entry.tag)
        }
    }

    /// The place of a kind of type in the order of types.
    pub open spec fn rank(self) -> u8 {
        match self {
            TypeKind::Base(..) => 0,
            TypeKind::TypeDef(..) => 1,
            TypeKind::Struct(..) => 2,
            TypeKind::Union(..) => 3,
            TypeKind::Enumeration(..) => 4,
            TypeKind::Array(..) => 5,
            TypeKind::Subroutine(..) => 6,
            TypeKind::Modifier(..) => 7,
            TypeKind::Unimplemented(..) => 8,
        }
    }

    /// The place of a kind of type in the order of types.
    pub fn discriminant_value(&self) -> (value: u8)
        ensures
            value == self.rank(),
    {
        match self {
            TypeKind::Base(..) => 0,
            TypeKind::TypeDef(..) => 1,
            TypeKind::Struct(..) => 2,
            TypeKind::Union(..) => 3,
            TypeKind::Enumeration(..) => 4,
            TypeKind::Array(..) => 5,
            TypeKind::Subroutine(..) => 6,
            TypeKind::Modifier(..) => 7,
            TypeKind::Unimplemented(..) => 8,
        }
    }
}

impl<'input> Type<'input> {
    /// Whether this is what an entry for a type says.
    pub open spec fn parsed(
        self,
        entry: Entry<'input>,
        namespace: Rc<Namespace<'input>>,
        big_endian: bool,
    ) -> bool {
        &&& self.offset == entry.offset
        &&& self.kind.parsed(entry, namespace, big_endian)
    }

    /// Reads an entry for a type.
    pub fn parse_dwarf(
        entry: &Entry<'input>,
        namespace: &Rc<Namespace<'input>>,
        big_endian: bool,
    ) -> (ty: Type<'input>)
        ensures
            ty.parsed(*entry, *namespace, big_endian),
    {
        let kind = match entry.tag {
            DW_TAG_base_type => TypeKind::Base(BaseType::parse_dwarf(entry)),
            DW_TAG_typedef => TypeKind::TypeDef(TypeDef::parse_dwarf(entry, namespace)),
            DW_TAG_structure_type => {
                TypeKind::Struct(StructType::parse_dwarf(entry, namespace, big_endian))
            },
            DW_TAG_union_type => {
                TypeKind::Union(UnionType::parse_dwarf(entry, namespace, big_endian))
            },
            DW_TAG_enumeration_type => {
                TypeKind::Enumeration(EnumerationType::parse_dwarf(entry, namespace))
            },
            DW_TAG_array_type => TypeKind::Array(ArrayType::parse_dwarf(entry)),
            DW_TAG_subroutine_type => TypeKind::Subroutine(SubroutineType::parse_dwarf(entry)),
            DW_TAG_const_type => {
                TypeKind::Modifier(
                    TypeModifier::parse_dwarf(entry, namespace, TypeModifierKind::Const),
                )
            },
            DW_TAG_pointer_type => {
                TypeKind::Modifier(
                    TypeModifier::parse_dwarf(entry, namespace, TypeModifierKind::Pointer),
                )
            },
            DW_TAG_restrict_type => {
                TypeKind::Modifier(
                    TypeModifier::parse_dwarf(entry, namespace, TypeModifierKind::Restrict),
                )
            },
            tag => TypeKind::Unimplemented(tag),
        };
        Type { offset: entry.offset, kind }
    }

    /// Whether this is a structure or a union without a name.
    pub open spec fn anonymous(self) -> bool {
        match self.kind {
            TypeKind::Struct(val) => val.anonymous(),
            TypeKind::Union(val) => val.anonymous(),
            _ => false,
        }
    }

    /// Whether this is a structure or a union without a name.
    pub fn is_anon(&self) -> (anonymous: bool)
        ensures
            anonymous == self.anonymous(),
    {
        match &self.kind {
            TypeKind::Struct(val) => val.is_anon(),
            TypeKind::Union(val) => val.is_anon(),
            _ => false,
        }
    }
}

/// Where no number wraps around, a bit field of the older kind starts so far into its storage
/// unit that its size and its distance from the most significant bit fill the unit up. The
/// distance is in front of the field where the most significant bit comes first, and behind it
/// otherwise.
pub proof fn lemma_bit_field_fills_unit(
    start: u64,
    bit_offset: u64,
    bit_size: u64,
    byte_size: u64,
    big_endian: bool,
)
    requires
        bit_offset + bit_size <= 8 * byte_size,
        start + 8 * byte_size <= u64::MAX,
    ensures
        ({
            let field = bit_field_start(start, bit_offset, bit_size, Some(byte_size), big_endian);
            &&& start <= field
            &&& field + bit_size <= start + 8 * byte_size
            &&& if big_endian {
                field == start + bit_offset
            } else {
                field + bit_size + bit_offset == start + 8 * byte_size
            }
        }),
{
}

} // verus!

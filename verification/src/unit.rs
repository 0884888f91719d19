//! A unit and what it declares.

use crate::constants::{
    DW_AT_comp_dir, DW_AT_high_pc, DW_AT_language, DW_AT_low_pc, DW_AT_name, DW_TAG_array_type,
    DW_TAG_base_type, DW_TAG_const_type, DW_TAG_enumeration_type, DW_TAG_namespace,
    DW_TAG_pointer_type, DW_TAG_restrict_type, DW_TAG_structure_type, DW_TAG_subprogram,
    DW_TAG_subroutine_type, DW_TAG_typedef, DW_TAG_union_type, DW_TAG_variable,
};
use crate::entry::{Entry, UnitEntries};
use crate::lists;
use crate::namespace::{Name, Namespace};
use crate::subprogram::{Subprogram, Variable};
use crate::types;
use crate::types::Type;
use std::rc::Rc;
use vstd::prelude::*;

verus! {

/// A unit of compilation.
#[derive(Debug)]
pub struct Unit<'input> {
    pub dir: Name<'input>,
    pub name: Name<'input>,
    pub language: Option<u16>,
    pub address_size: Option<u64>,
    pub low_pc: Option<u64>,
    pub high_pc: Option<u64>,
    pub size: Option<u64>,
    pub types: Vec<Type<'input>>,
    pub subprograms: Vec<Subprogram<'input>>,
    pub variables: Vec<Variable<'input>>,
}

/// What entries may declare in a namespace.
pub enum Declared {
    Types,
    Subprograms,
    Variables,
}

impl Declared {
    /// Whether an entry with the given tag declares such a thing.
    pub open spec fn covers(self, tag: u64) -> bool {
        match self {
            Declared::Types => types::is_type_tag(tag),
            Declared::Subprograms => tag == DW_TAG_subprogram,
            Declared::Variables => tag == DW_TAG_variable,
        }
    }
}

/// An entry and the namespace that it stands in.
pub type Placed<'input> = (Entry<'input>, Rc<Namespace<'input>>);

/// The entries that declare such a thing among these and in the namespaces among them, at
/// any depth of namespaces, in their order in the file.
pub open spec fn declared<'input>(
    entries: Seq<Entry<'input>>,
    namespace: Rc<Namespace<'input>>,
    what: Declared,
) -> Seq<Placed<'input>>
    decreases entries,
{
    if entries.len() == 0 {
        seq![]
    } else {
        let before = declared(entries.drop_last(), namespace, what);
        let last = entries.last();
        if last.tag == DW_TAG_namespace {
            before + declared(
                last.children@,
                types::inside(namespace, last.string(DW_AT_name)),
                what,
            )
        } else if what.covers(last.tag) {
            before.push((last, namespace))
        } else {
            before
        }
    }
}

/// Whether these are the types that entries declare.
pub open spec fn types_parsed<'input>(
    types: Seq<Type<'input>>,
    entries: Seq<Placed<'input>>,
    big_endian: bool,
) -> bool {
    &&& types.len() == entries.len()
    &&& forall|i: int|
        0 <= i < types.len() ==> (#[trigger] types[i]).parsed(
            entries[i].0,
            entries[i].1,
            big_endian,
        )
}

/// Whether these are the subprograms that entries declare.
pub open spec fn subprograms_parsed<'input>(
    subprograms: Seq<Subprogram<'input>>,
    entries: Seq<Placed<'input>>,
) -> bool {
    &&& subprograms.len() == entries.len()
    &&& forall|i: int|
        0 <= i < subprograms.len() ==> (#[trigger] subprograms[i]).parsed(
            entries[i].0,
            entries[i].1,
        )
}

/// The variables that entries declare.
pub open spec fn variables_parsed<'input>(entries: Seq<Placed<'input>>) -> Seq<Variable<'input>> {
    entries.map_values(|placed: Placed<'input>| Variable::parsed(placed.0, placed.1))
}

/// Whether a unit has got what entries declare, behind what it had, and is otherwise as it
/// was.
pub open spec fn extended<'input>(
    before: Unit<'input>,
    after: Unit<'input>,
    entries: Seq<Entry<'input>>,
    namespace: Rc<Namespace<'input>>,
    big_endian: bool,
) -> bool {
    &&& after.dir == before.dir
    &&& after.name == before.name
    &&& after.language == before.language
    &&& after.address_size == before.address_size
    &&& after.low_pc == before.low_pc
    &&& after.high_pc == before.high_pc
    &&& after.size == before.size
    &&& before.types@.is_prefix_of(after.types@)
    &&& types_parsed(
        after.types@.skip(before.types@.len() as int),
        declared(entries, namespace, Declared::Types),
        big_endian,
    )
    &&& before.subprograms@.is_prefix_of(after.subprograms@)
    &&& subprograms_parsed(
        after.subprograms@.skip(before.subprograms@.len() as int),
        declared(entries, namespace, Declared::Subprograms),
    )
    &&& after.variables@ == before.variables@ + variables_parsed(
        declared(entries, namespace, Declared::Variables),
    )
}

proof fn lemma_extended_twice<'input>(
    first: Unit<'input>,
    second: Unit<'input>,
    third: Unit<'input>,
    entries: Seq<Entry<'input>>,
    all: Seq<Entry<'input>>,
    namespace: Rc<Namespace<'input>>,
    big_endian: bool,
    types: Seq<Placed<'input>>,
    subprograms: Seq<Placed<'input>>,
    variables: Seq<Placed<'input>>,
)
    requires
        extended(first, second, entries, namespace, big_endian),
        declared(all, namespace, Declared::Types) == declared(entries, namespace, Declared::Types)
            + types,
        declared(all, namespace, Declared::Subprograms) == declared(
            entries,
            namespace,
            Declared::Subprograms,
        ) + subprograms,
        declared(all, namespace, Declared::Variables) == declared(
            entries,
            namespace,
            Declared::Variables,
        ) + variables,
        third.dir == second.dir,
        third.name == second.name,
        third.language == second.language,
        third.address_size == second.address_size,
        third.low_pc == second.low_pc,
        third.high_pc == second.high_pc,
        third.size == second.size,
        second.types@.is_prefix_of(third.types@),
        types_parsed(third.types@.skip(second.types@.len() as int), types, big_endian),
        second.subprograms@.is_prefix_of(third.subprograms@),
        subprograms_parsed(
            third.subprograms@.skip(second.subprograms@.len() as int),
            subprograms,
        ),
        third.variables@ == second.variables@ + variables_parsed(variables),
    ensures
        extended(first, third, all, namespace, big_endian),
{
    lists::lemma_pairwise_append(
        second.types@,
        third.types@,
        first.types@.len() as int,
        declared(entries, namespace, Declared::Types),
        types,
        |ty: Type<'input>, placed: Placed<'input>| ty.parsed(placed.0, placed.1, big_endian),
    );
    lists::lemma_pairwise_append(
        second.subprograms@,
        third.subprograms@,
        first.subprograms@.len() as int,
        declared(entries, namespace, Declared::Subprograms),
        subprograms,
        |subprogram: Subprogram<'input>, placed: Placed<'input>|
            subprogram.parsed(placed.0, placed.1),
    );
    assert(third.variables@ =~= first.variables@ + variables_parsed(
        declared(all, namespace, Declared::Variables),
    ));
}

impl<'input> Unit<'input> {
    /// Whether this is what the entries of a unit say.
    pub open spec fn parsed(self, unit: UnitEntries<'input>, big_endian: bool) -> bool {
        let root = Rc::new(Namespace { parent: None, name: None });
        let entry = unit.root;
        &&& self.dir == entry.string(DW_AT_comp_dir)
        &&& self.name == entry.string(DW_AT_name)
        &&& self.language == entry.language(DW_AT_language)
        &&& self.address_size == Some(unit.address_size as u64)
        &&& self.low_pc == entry.address(DW_AT_low_pc)
        &&& self.high_pc == entry.address(DW_AT_high_pc)
        &&& self.size == entry.length(DW_AT_high_pc)
        &&& types_parsed(
            self.types@,
            declared(entry.children@, root, Declared::Types),
            big_endian,
        )
        &&& subprograms_parsed(
            self.subprograms@,
            declared(entry.children@, root, Declared::Subprograms),
        )
        &&& self.variables@ == variables_parsed(
            declared(entry.children@, root, Declared::Variables),
        )
    }

    /// Reads the entries of a unit.
    pub fn parse_dwarf(unit: &UnitEntries<'input>, big_endian: bool) -> (result: Unit<'input>)
        ensures
            result.parsed(*unit, big_endian),
    {
        let entry = &unit.root;
        let mut result = Unit {
            dir: entry.get_string(DW_AT_comp_dir),
            name: entry.get_string(DW_AT_name),
            language: entry.get_language(DW_AT_language),
            address_size: Some(unit.address_size as u64),
            low_pc: entry.get_address(DW_AT_low_pc),
            high_pc: entry.get_address(DW_AT_high_pc),
            size: entry.get_length(DW_AT_high_pc),
            types: Vec::new(),
            subprograms: Vec::new(),
            variables: Vec::new(),
        };
        let namespace = Namespace::root();
        result.parse_dwarf_children(&entry.children, &namespace, big_endian);
        assert(result.types@.skip(0) =~= result.types@);
        assert(result.subprograms@.skip(0) =~= result.subprograms@);
        assert(result.variables@ =~= variables_parsed(
            declared(entry.children@, namespace, Declared::Variables),
        ));
        result
    }

    /// Adds what entries in a namespace declare.
    pub fn parse_dwarf_children(
        &mut self,
        entries: &Vec<Entry<'input>>,
        namespace: &Rc<Namespace<'input>>,
        big_endian: bool,
    )
        ensures
            extended(*old(self), *final(self), entries@, *namespace, big_endian),
        decreases entries,
    {
        let mut i: usize = 0;
        while i < entries.len()
            invariant
                i <= entries.len(),
                extended(*old(self), *self, entries@.take(i as int), *namespace, big_endian),
            decreases entries.len() - i,
        {
            assert(entries@.take(i + 1).drop_last() =~= entries@.take(i as int));
            let ghost before = *self;
            let ghost mut types: Seq<Placed<'input>> = seq![];
            let ghost mut subprograms: Seq<Placed<'input>> = seq![];
            let ghost mut variables: Seq<Placed<'input>> = seq![];
            let child = &entries[i];
            match child.tag {
                DW_TAG_namespace => {
                    proof {
                        let inner = types::inside(*namespace, child.string(DW_AT_name));
                        types = declared(child.children@, inner, Declared::Types);
                        subprograms = declared(child.children@, inner, Declared::Subprograms);
                        variables = declared(child.children@, inner, Declared::Variables);
                    }
                    self.parse_dwarf_namespace(child, namespace, big_endian);
                },
                DW_TAG_subprogram => {
                    self.subprograms.push(Subprogram::parse_dwarf(child, namespace));
                    proof {
                        subprograms = seq![(*child, *namespace)];
                    }
                },
                DW_TAG_variable => {
                    self.variables.push(Variable::parse_dwarf(child, namespace));
                    proof {
                        variables = seq![(*child, *namespace)];
                    }
                },
                DW_TAG_base_type | DW_TAG_structure_type | DW_TAG_union_type
                | DW_TAG_enumeration_type | DW_TAG_array_type | DW_TAG_subroutine_type
                | DW_TAG_typedef | DW_TAG_const_type | DW_TAG_pointer_type
                | DW_TAG_restrict_type => {
                    self.types.push(Type::parse_dwarf(child, namespace, big_endian));
                    proof {
                        types = seq![(*child, *namespace)];
                    }
                },
                _ => {},
            }
            i = i + 1;
            proof {
                let taken = entries@.take(i as int);
                let rest = taken.drop_last();
                assert(declared(taken, *namespace, Declared::Types) =~= declared(
                    rest,
                    *namespace,
                    Declared::Types,
                ) + types);
                assert(declared(taken, *namespace, Declared::Subprograms) =~= declared(
                    rest,
                    *namespace,
                    Declared::Subprograms,
                ) + subprograms);
                assert(declared(taken, *namespace, Declared::Variables) =~= declared(
                    rest,
                    *namespace,
                    Declared::Variables,
                ) + variables);
                assert(self.variables@ =~= before.variables@ + variables_parsed(variables));
                lemma_extended_twice(
                    *old(self),
                    before,
                    *self,
                    rest,
                    taken,
                    *namespace,
                    big_endian,
                    types,
                    subprograms,
                    variables,
                );
            }
        }
        assert(entries@.take(i as int) =~= entries@);
    }

    /// Adds what an entry for a namespace declares in it.
    pub fn parse_dwarf_namespace(
        &mut self,
        entry: &Entry<'input>,
        namespace: &Rc<Namespace<'input>>,
        big_endian: bool,
    )
        ensures
            extended(
                *old(self),
                *final(self),
                entry.children@,
                types::inside(*namespace, entry.string(DW_AT_name)),
                big_endian,
            ),
        decreases entry,
    {
        let inner = Namespace::new(namespace, entry.get_string(DW_AT_name));
        self.parse_dwarf_children(&entry.children, &inner, big_endian);
    }
}

/// Whether these are the units that a file's entries describe.
pub open spec fn units_parsed<'input>(
    units: Seq<Unit<'input>>,
    entries: Seq<UnitEntries<'input>>,
    big_endian: bool,
) -> bool {
    &&& units.len() == entries.len()
    &&& forall|i: int|
        0 <= i < units.len() ==> (#[trigger] units[i]).parsed(entries[i], big_endian)
}

/// Reads the entries of all units.
pub fn parse_units<'input>(entries: &Vec<UnitEntries<'input>>, big_endian: bool) -> (units: Vec<
    Unit<'input>,
>)
    ensures
        units_parsed(units@, entries@, big_endian),
{
    let mut units: Vec<Unit<'input>> = Vec::new();
    let mut i: usize = 0;
    while i < entries.len()
        invariant
            i == units.len(),
            i <= entries.len(),
            forall|j: int| 0 <= j < i ==> (#[trigger] units@[j]).parsed(entries@[j], big_endian),
        decreases entries.len() - i,
    {
        units.push(Unit::parse_dwarf(&entries[i], big_endian));
        i = i + 1;
    }
    units
}

} // verus!

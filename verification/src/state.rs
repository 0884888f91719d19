//! What is printed of a file, and what printing looks up while it goes through a unit.

use crate::chain;
use crate::chain::Chain;
use crate::machine::Machine;
use crate::namespace;
use crate::namespace::{filter_name, Name, Namespace};
use crate::subprogram::Subprogram;
use crate::types::{Member, Type, TypeKind};
use crate::unit::Unit;
use std::collections::{HashMap, HashSet};
use vstd::prelude::*;
use vstd::string::StringSliceAdditionalSpecFns;

verus! {

broadcast use vstd::std_specs::hash::group_hash_axioms;

/// What the user asked for.
#[derive(Debug)]
pub struct Flags<'a> {
    /// Print what subprograms call.
    pub calls: bool,
    /// Print the difference between two files.
    pub diff: bool,
    /// Sort what is printed by its kind and name.
    pub sort: bool,
    /// How deep inlined subroutines are printed; zero to print none.
    pub inline_depth: usize,
    /// Print only what has this name.
    pub name: Option<&'a str>,
    /// Print only what stands in this namespace.
    pub namespace: Vec<&'a str>,
}

/// A file with debugging information.
#[derive(Debug)]
pub struct File<'input> {
    /// The machine that the file's code is for.
    pub machine: Machine,
    /// The units that the file was made of.
    pub units: Vec<Unit<'input>>,
}

impl<'a> Flags<'a> {
    /// Whether a name passes the filter for names.
    pub open spec fn name_passes(self, name: Name) -> bool {
        match self.name {
            Some(filter) => namespace::name_passes(name, filter),
            None => true,
        }
    }

    /// Whether something with this name in this namespace is printed.
    pub open spec fn passes(self, name: Name, namespace: Namespace) -> bool {
        self.name_passes(name) && namespace.passes(self.namespace@)
    }

    /// Whether something with this name in this namespace is printed.
    pub fn filter(&self, name: Name, namespace: &Namespace) -> (passes: bool)
        ensures
            passes == self.passes(name, *namespace),
    {
        let name_passes = match self.name {
            Some(filter) => filter_name(name, filter),
            None => true,
        };
        name_passes && namespace.filter(self.namespace.as_slice())
    }
}

impl<'input> Type<'input> {
    /// The subprograms that a structure, a union or an enumeration holds.
    pub open spec fn own_subprograms(self) -> Seq<Subprogram<'input>> {
        match self.kind {
            TypeKind::Struct(ty) => ty.subprograms@,
            TypeKind::Union(ty) => ty.subprograms@,
            TypeKind::Enumeration(ty) => ty.subprograms@,
            _ => seq![],
        }
    }

    /// The subprograms that a structure, a union or an enumeration holds, if it is one.
    pub fn get_subprograms(&self) -> (subprograms: Option<&Vec<Subprogram<'input>>>)
        ensures
            match subprograms {
                Some(list) => list@ == self.own_subprograms(),
                None => self.own_subprograms() == Seq::<Subprogram<'input>>::empty(),
            },
    {
        match &self.kind {
            TypeKind::Struct(ty) => Some(&ty.subprograms),
            TypeKind::Union(ty) => Some(&ty.subprograms),
            TypeKind::Enumeration(ty) => Some(&ty.subprograms),
            _ => None,
        }
    }

    /// The members of a structure or a union.
    pub open spec fn members(self) -> Seq<Member<'input>> {
        match self.kind {
            TypeKind::Struct(ty) => ty.members@,
            TypeKind::Union(ty) => ty.members@,
            _ => seq![],
        }
    }

    /// The members of a structure or a union, if it is one.
    pub fn visit_members(&self) -> (members: Option<&Vec<Member<'input>>>)
        ensures
            match members {
                Some(list) => list@ == self.members(),
                None => self.members() == Seq::<Member<'input>>::empty(),
            },
    {
        match &self.kind {
            TypeKind::Struct(ty) => Some(&ty.members),
            TypeKind::Union(ty) => Some(&ty.members),
            _ => None,
        }
    }
}

/// The subprograms that types hold, in the order of the types.
pub open spec fn nested_subprograms<'input>(types: Seq<Type<'input>>) -> Seq<Subprogram<'input>>
    decreases types.len(),
{
    if types.len() == 0 {
        seq![]
    } else {
        nested_subprograms(types.drop_last()) + types.last().own_subprograms()
    }
}

/// All subprograms of a unit: those that its types hold, and behind them its own.
pub open spec fn unit_subprograms<'input>(unit: Unit<'input>) -> Seq<Subprogram<'input>> {
    nested_subprograms(unit.types@) + unit.subprograms@
}

/// All subprograms of a file's units.
pub open spec fn file_subprograms<'input>(units: Seq<Unit<'input>>) -> Seq<Subprogram<'input>>
    decreases units.len(),
{
    if units.len() == 0 {
        seq![]
    } else {
        file_subprograms(units.drop_last()) + unit_subprograms(units.last())
    }
}

/// Types by their offsets. Of types with one offset the last counts.
pub open spec fn types_by_offset<'a, 'input>(types: Seq<Type<'input>>) -> Map<
    usize,
    &'a Type<'input>,
>
    decreases types.len(),
{
    if types.len() == 0 {
        Map::empty()
    } else {
        types_by_offset(types.drop_last()).insert(types.last().offset, &types.last())
    }
}

/// Subprograms by their offsets. Of subprograms with one offset the last counts.
pub open spec fn by_offset<'a, 'input>(subprograms: Seq<Subprogram<'input>>) -> Map<
    usize,
    &'a Subprogram<'input>,
>
    decreases subprograms.len(),
{
    if subprograms.len() == 0 {
        Map::empty()
    } else {
        by_offset(subprograms.drop_last()).insert(
            subprograms.last().offset,
            &subprograms.last(),
        )
    }
}

/// Subprograms by the address of their first instruction, where it is known. Of
/// subprograms with one address the last counts.
pub open spec fn by_address<'a, 'input>(subprograms: Seq<Subprogram<'input>>) -> Map<
    u64,
    &'a Subprogram<'input>,
>
    decreases subprograms.len(),
{
    if subprograms.len() == 0 {
        Map::empty()
    } else {
        let before = by_address(subprograms.drop_last());
        match subprograms.last().low_pc {
            Some(low_pc) => before.insert(low_pc, &subprograms.last()),
            None => before,
        }
    }
}

/// What printing looks up.
#[derive(Debug)]
pub struct PrintState<'a, 'input> where 'input: 'a {
    pub flags: &'a Flags<'a>,
    /// All subprograms of the file by address.
    pub all_subprograms: HashMap<u64, &'a Subprogram<'input>>,
    /// The subprograms of the current unit by offset.
    pub subprograms: HashMap<usize, &'a Subprogram<'input>>,
    /// The types of the current unit by offset.
    pub types: HashMap<usize, &'a Type<'input>>,
    /// The size of an address of the current unit, in bytes.
    pub address_size: Option<u64>,
    /// The offsets of the types whose name comes to an end.
    pub named: HashSet<usize>,
    /// The offsets of the types whose size comes to an end.
    pub sized: HashSet<usize>,
    /// The offsets of the types whose members come to an end.
    pub listed: HashSet<usize>,
}

/// What can be looked up at some point of printing.
pub struct Scope<'a, 'input> where 'input: 'a {
    /// What the user asked for.
    pub flags: Flags<'a>,
    /// The subprograms of the file by address.
    pub all_subprograms: Map<u64, &'a Subprogram<'input>>,
    /// The subprograms of the unit by offset.
    pub subprograms: Map<usize, &'a Subprogram<'input>>,
    /// The types of the unit by offset.
    pub types: Map<usize, &'a Type<'input>>,
    /// The size of an address of the unit, in bytes.
    pub address_size: Option<u64>,
}

/// What can be looked up while a unit of a file is printed.
pub open spec fn scope_of<'a, 'input>(
    units: Seq<Unit<'input>>,
    flags: Flags<'a>,
    unit: Unit<'input>,
) -> Scope<'a, 'input> {
    Scope {
        flags,
        all_subprograms: by_address(file_subprograms(units)),
        subprograms: by_offset(unit_subprograms(unit)),
        types: types_by_offset(unit.types@),
        address_size: unit.address_size,
    }
}

impl<'a, 'input> Scope<'a, 'input> where 'input: 'a {
    /// Whether there is a type at the offset and to follow it comes to an end.
    pub open spec fn ends_at(self, chain: Chain, offset: usize) -> bool {
        self.types.contains_key(offset) && chain::ends(chain, self.types, *self.types[offset])
    }

    /// The steps to the end from the type at an offset; zero where it comes to none.
    pub open spec fn rank_at(self, chain: Chain, offset: Option<usize>) -> nat {
        if offset is Some && self.ends_at(chain, offset->0) {
            chain::rank(chain, self.types, *self.types[offset->0])
        } else {
            0
        }
    }

    /// Whether a type goes on for ever: one if it does.
    pub open spec fn endless(self, chain: Chain, ty: Type<'input>) -> nat {
        if chain::ends(chain, self.types, ty) {
            0
        } else {
            1
        }
    }

    /// A type that comes to an end takes more steps than any type that it leads to.
    pub proof fn lemma_rank_goes_down(self, chain: Chain, ty: Type<'input>, offset: usize)
        requires
            chain::ends(chain, self.types, ty),
            chain::leads(chain, self.types, ty, offset),
        ensures
            self.rank_at(chain, Some(offset)) < chain::rank(chain, self.types, ty),
            self.types.contains_key(offset) ==> self.ends_at(chain, offset),
    {
        chain::lemma_rank_is_positive(chain, self.types, ty);
        if self.types.contains_key(offset) {
            chain::lemma_step(chain, self.types, ty, offset);
        }
    }

    /// The type at an offset.
    pub open spec fn type_at(self, offset: Option<usize>) -> Option<&'a Type<'input>> {
        match offset {
            Some(offset) => if self.types.contains_key(offset) {
                Some(self.types[offset])
            } else {
                None
            },
            None => None,
        }
    }

    /// The subprogram at an offset.
    pub open spec fn subprogram_at(self, offset: Option<usize>) -> Option<
        &'a Subprogram<'input>,
    > {
        match offset {
            Some(offset) => if self.subprograms.contains_key(offset) {
                Some(self.subprograms[offset])
            } else {
                None
            },
            None => None,
        }
    }
}

impl<'a, 'input> View for PrintState<'a, 'input> where 'input: 'a {
    type V = Scope<'a, 'input>;

    open spec fn view(&self) -> Scope<'a, 'input> {
        Scope {
            flags: *self.flags,
            all_subprograms: self.all_subprograms@,
            subprograms: self.subprograms@,
            types: self.types@,
            address_size: self.address_size,
        }
    }
}

fn add_addresses<'a, 'input>(
    map: &mut HashMap<u64, &'a Subprogram<'input>>,
    subprograms: &'a Vec<Subprogram<'input>>,
    Ghost(before): Ghost<Seq<Subprogram<'input>>>,
)
    requires
        old(map)@ == by_address(before),
    ensures
        final(map)@ == by_address(before + subprograms@),
{
    let mut i: usize = 0;
    assert(before + subprograms@.take(0) =~= before);
    while i < subprograms.len()
        invariant
            i <= subprograms.len(),
            map@ == by_address(before + subprograms@.take(i as int)),
        decreases subprograms.len() - i,
    {
        let subprogram = &subprograms[i];
        if let Some(low_pc) = subprogram.low_pc {
            map.insert(low_pc, subprogram);
        }
        assert((before + subprograms@.take(i + 1)).drop_last() =~= before + subprograms@.take(
            i as int,
        ));
        i = i + 1;
    }
    assert(subprograms@.take(i as int) =~= subprograms@);
}

fn add_offsets<'a, 'input>(
    map: &mut HashMap<usize, &'a Subprogram<'input>>,
    subprograms: &'a Vec<Subprogram<'input>>,
    Ghost(before): Ghost<Seq<Subprogram<'input>>>,
)
    requires
        old(map)@ == by_offset(before),
    ensures
        final(map)@ == by_offset(before + subprograms@),
{
    let mut i: usize = 0;
    assert(before + subprograms@.take(0) =~= before);
    while i < subprograms.len()
        invariant
            i <= subprograms.len(),
            map@ == by_offset(before + subprograms@.take(i as int)),
        decreases subprograms.len() - i,
    {
        let subprogram = &subprograms[i];
        map.insert(subprogram.offset, subprogram);
        assert((before + subprograms@.take(i + 1)).drop_last() =~= before + subprograms@.take(
            i as int,
        ));
        i = i + 1;
    }
    assert(subprograms@.take(i as int) =~= subprograms@);
}

impl<'a, 'input> PrintState<'a, 'input> where 'input: 'a {
    /// Whether the types that come to an end are found among those of the unit.
    pub open spec fn wf(self) -> bool {
        &&& forall|offset: usize| #[trigger]
            self.named@.contains(offset) <==> self@.ends_at(Chain::Name, offset)
        &&& forall|offset: usize| #[trigger]
            self.sized@.contains(offset) <==> self@.ends_at(Chain::Size, offset)
        &&& forall|offset: usize| #[trigger]
            self.listed@.contains(offset) <==> self@.ends_at(Chain::Members, offset)
    }

    /// The state for printing units with the given flags, at no unit yet.
    pub fn new(units: &'a Vec<Unit<'input>>, flags: &'a Flags<'a>) -> (state: Self)
        ensures
            state@ == (Scope {
                flags: *flags,
                all_subprograms: by_address(file_subprograms(units@)),
                subprograms: Map::<usize, &'a Subprogram<'input>>::empty(),
                types: Map::<usize, &'a Type<'input>>::empty(),
                address_size: None,
            }),
            state.wf(),
    {
        let mut all_subprograms: HashMap<u64, &'a Subprogram<'input>> = HashMap::new();
        let mut i: usize = 0;
        while i < units.len()
            invariant
                i <= units.len(),
                all_subprograms@ == by_address(file_subprograms(units@.take(i as int))),
            decreases units.len() - i,
        {
            let unit = &units[i];
            let ghost before = file_subprograms(units@.take(i as int));
            let mut j: usize = 0;
            assert(before + nested_subprograms(unit.types@.take(0)) =~= before);
            while j < unit.types.len()
                invariant
                    j <= unit.types.len(),
                    all_subprograms@ == by_address(
                        before + nested_subprograms(unit.types@.take(j as int)),
                    ),
                decreases unit.types.len() - j,
            {
                let ghost nested = nested_subprograms(unit.types@.take(j as int));
                assert(unit.types@.take(j + 1).drop_last() =~= unit.types@.take(j as int));
                let ty = &unit.types[j];
                if let Some(subprograms) = ty.get_subprograms() {
                    add_addresses(&mut all_subprograms, subprograms, Ghost(before + nested));
                }
                assert(before + nested + ty.own_subprograms() =~= before + (nested
                    + ty.own_subprograms()));
                j = j + 1;
            }
            assert(unit.types@.take(j as int) =~= unit.types@);
            let ghost nested = nested_subprograms(unit.types@);
            add_addresses(&mut all_subprograms, &unit.subprograms, Ghost(before + nested));
            assert(before + nested + unit.subprograms@ =~= before + unit_subprograms(*unit));
            assert(units@.take(i + 1).drop_last() =~= units@.take(i as int));
            i = i + 1;
        }
        assert(units@.take(i as int) =~= units@);
        PrintState {
            flags,
            all_subprograms,
            subprograms: HashMap::new(),
            types: HashMap::new(),
            address_size: None,
            named: HashSet::new(),
            sized: HashSet::new(),
            listed: HashSet::new(),
        }
    }

    /// Goes to a unit: forgets the unit before it and looks up what this one declares.
    pub fn set_unit(&mut self, unit: &'a Unit<'input>)
        ensures
            final(self)@ == (Scope {
                subprograms: by_offset(unit_subprograms(*unit)),
                types: types_by_offset(unit.types@),
                address_size: unit.address_size,
                ..old(self)@
            }),
            final(self).wf(),
    {
        self.types.clear();
        self.subprograms.clear();
        let mut i: usize = 0;
        while i < unit.types.len()
            invariant
                i <= unit.types.len(),
                self.flags == old(self).flags,
                self.all_subprograms@ == old(self).all_subprograms@,
                self.types@ == types_by_offset(unit.types@.take(i as int)),
                self.subprograms@ == by_offset(nested_subprograms(unit.types@.take(i as int))),
            decreases unit.types.len() - i,
        {
            let ty = &unit.types[i];
            assert(unit.types@.take(i + 1).drop_last() =~= unit.types@.take(i as int));
            self.types.insert(ty.offset, ty);
            if let Some(subprograms) = ty.get_subprograms() {
                let ghost nested = nested_subprograms(unit.types@.take(i as int));
                add_offsets(&mut self.subprograms, subprograms, Ghost(nested));
            } else {
                assert(nested_subprograms(unit.types@.take(i + 1)) =~= nested_subprograms(
                    unit.types@.take(i as int),
                ));
            }
            i = i + 1;
        }
        assert(unit.types@.take(i as int) =~= unit.types@);
        add_offsets(
            &mut self.subprograms,
            &unit.subprograms,
            Ghost(nested_subprograms(unit.types@)),
        );
        self.address_size = unit.address_size;
        self.named = chain::ending(Chain::Name, &self.types, &unit.types);
        self.sized = chain::ending(Chain::Size, &self.types, &unit.types);
        self.listed = chain::ending(Chain::Members, &self.types, &unit.types);
    }

    /// Whether something with this name in this namespace is printed.
    pub fn filter(&self, name: Name, namespace: &Namespace) -> (passes: bool)
        ensures
            passes == self@.flags.passes(name, *namespace),
    {
        self.flags.filter(name, namespace)
    }
}

/// What a unit's types are looked up by: an offset finds a type if and only if a type of
/// the unit has that offset, and then it finds the last of those that have it.
pub proof fn lemma_types_are_found_by_offset<'a, 'input>(types: Seq<Type<'input>>, offset: usize)
    ensures
        types_by_offset(types).contains_key(offset) <==> exists|i: int|
            0 <= i < types.len() && (#[trigger] types[i]).offset == offset,
        forall|i: int|
            0 <= i < types.len() && (#[trigger] types[i]).offset == offset && (forall|j: int|
                i < j < types.len() ==> (#[trigger] types[j]).offset != offset)
                ==> types_by_offset(types)[offset] == types[i],
    decreases types.len(),
{
    if types.len() > 0 {
        let rest = types.drop_last();
        lemma_types_are_found_by_offset(rest, offset);
        assert(forall|i: int| 0 <= i < rest.len() ==> rest[i] == types[i]);
        assert(types.last() == types[types.len() - 1]);
        assert forall|i: int|
            0 <= i < types.len() && (#[trigger] types[i]).offset == offset && (forall|j: int|
                i < j < types.len() ==> (#[trigger] types[j]).offset
                    != offset) implies types_by_offset(types)[offset] == types[i] by {
            if i < rest.len() {
                assert(types[types.len() - 1].offset != offset);
                assert(rest[i].offset == offset);
                assert(forall|j: int| i < j < rest.len() ==> (#[trigger] rest[j]).offset != offset);
            }
        }
    }
}

/// What a unit's subprograms are looked up by: an offset finds a subprogram if and only if one
/// has that offset, and then it finds the last of those that have it.
pub proof fn lemma_subprograms_are_found_by_offset<'a, 'input>(
    subprograms: Seq<Subprogram<'input>>,
    offset: usize,
)
    ensures
        by_offset(subprograms).contains_key(offset) <==> exists|i: int|
            0 <= i < subprograms.len() && (#[trigger] subprograms[i]).offset == offset,
        forall|i: int|
            0 <= i < subprograms.len() && (#[trigger] subprograms[i]).offset == offset && (forall|
                j: int,
            |
                i < j < subprograms.len() ==> (#[trigger] subprograms[j]).offset != offset)
                ==> by_offset(subprograms)[offset] == subprograms[i],
    decreases subprograms.len(),
{
    if subprograms.len() > 0 {
        let rest = subprograms.drop_last();
        let last = subprograms[subprograms.len() - 1];
        lemma_subprograms_are_found_by_offset(rest, offset);
        assert(forall|i: int| 0 <= i < rest.len() ==> rest[i] == subprograms[i]);
        assert(subprograms.last() == last);
        assert forall|i: int|
            0 <= i < subprograms.len() && (#[trigger] subprograms[i]).offset == offset && (forall|
                j: int,
            |
                i < j < subprograms.len() ==> (#[trigger] subprograms[j]).offset
                    != offset) implies by_offset(subprograms)[offset] == subprograms[i] by {
            if i < rest.len() {
                assert(last.offset != offset);
                assert(rest[i].offset == offset);
                assert(forall|j: int| i < j < rest.len() ==> (#[trigger] rest[j]).offset != offset);
            }
        }
    }
}

/// What calls are named by: an address finds a subprogram if and only if one starts there, and
/// then it finds the last of those that start there.
pub proof fn lemma_subprograms_are_found_by_address<'a, 'input>(
    subprograms: Seq<Subprogram<'input>>,
    address: u64,
)
    ensures
        by_address(subprograms).contains_key(address) <==> exists|i: int|
            0 <= i < subprograms.len() && (#[trigger] subprograms[i]).low_pc == Some(address),
        forall|i: int|
            0 <= i < subprograms.len() && (#[trigger] subprograms[i]).low_pc == Some(address) && (
            forall|j: int|
                i < j < subprograms.len() ==> (#[trigger] subprograms[j]).low_pc != Some(address))
                ==> by_address(subprograms)[address] == subprograms[i],
        by_address(subprograms).contains_key(address) ==> by_address(subprograms)[address].low_pc
            == Some(address),
    decreases subprograms.len(),
{
    if subprograms.len() > 0 {
        let rest = subprograms.drop_last();
        let last = subprograms[subprograms.len() - 1];
        lemma_subprograms_are_found_by_address(rest, address);
        assert(forall|i: int| 0 <= i < rest.len() ==> rest[i] == subprograms[i]);
        assert(subprograms.last() == last);
        assert forall|i: int|
            0 <= i < subprograms.len() && (#[trigger] subprograms[i]).low_pc == Some(address) && (
            forall|j: int|
                i < j < subprograms.len() ==> (#[trigger] subprograms[j]).low_pc != Some(
                    address,
                )) implies by_address(subprograms)[address] == subprograms[i] by {
            if i < rest.len() {
                assert(last.low_pc != Some(address));
                assert(rest[i].low_pc == Some(address));
                assert(forall|j: int|
                    i < j < rest.len() ==> (#[trigger] rest[j]).low_pc != Some(address));
            }
        }
    }
}

/// One subprogram more is found by the address where it starts and by its offset, and hides
/// nothing but what was found there before; where its start is not known it changes nothing
/// about addresses.
pub proof fn lemma_one_more_is_found<'a, 'input>(
    subprograms: Seq<Subprogram<'input>>,
    subprogram: Subprogram<'input>,
    address: u64,
    offset: usize,
)
    ensures
        ({
            let more = subprograms.push(subprogram);
            let (was, new) = (by_address(subprograms), by_address(more));
            &&& subprogram.low_pc == Some(address) ==> new.contains_key(address) && new[address]
                == subprogram
            &&& subprogram.low_pc != Some(address) ==> new.contains_key(address)
                == was.contains_key(address) && new[address] == was[address]
        }),
        ({
            let more = subprograms.push(subprogram);
            let (was, new) = (by_offset(subprograms), by_offset(more));
            &&& subprogram.offset == offset ==> new.contains_key(offset) && new[offset]
                == subprogram
            &&& subprogram.offset != offset ==> new.contains_key(offset) == was.contains_key(offset)
                && new[offset] == was[offset]
        }),
{
    assert(subprograms.push(subprogram).drop_last() =~= subprograms);
}

/// Whether a subprogram is one of a type's own.
pub open spec fn holds<'input>(ty: Type<'input>, subprogram: Subprogram<'input>) -> bool {
    match ty.kind {
        TypeKind::Struct(val) => val.subprograms@.contains(subprogram),
        TypeKind::Union(val) => val.subprograms@.contains(subprogram),
        TypeKind::Enumeration(val) => val.subprograms@.contains(subprogram),
        _ => false,
    }
}

proof fn lemma_nested_subprograms<'input>(types: Seq<Type<'input>>, subprogram: Subprogram<'input>)
    ensures
        nested_subprograms(types).contains(subprogram) <==> exists|i: int|
            0 <= i < types.len() && holds(#[trigger] types[i], subprogram),
    decreases types.len(),
{
    if types.len() > 0 {
        let rest = types.drop_last();
        let last = types[types.len() - 1];
        lemma_nested_subprograms(rest, subprogram);
        assert(forall|i: int| 0 <= i < rest.len() ==> rest[i] == types[i]);
        lemma_contained(nested_subprograms(rest), last.own_subprograms(), subprogram);
    }
}

proof fn lemma_contained<T>(first: Seq<T>, second: Seq<T>, item: T)
    ensures
        (first + second).contains(item) <==> first.contains(item) || second.contains(item),
{
    if first.contains(item) {
        let i = choose|i: int| 0 <= i < first.len() && first[i] == item;
        assert((first + second)[i] == item);
    }
    if second.contains(item) {
        let i = choose|i: int| 0 <= i < second.len() && second[i] == item;
        assert((first + second)[first.len() + i] == item);
    }
}

/// The subprograms of a unit are its own and those that its types hold, and no others.
pub proof fn lemma_subprograms_of_unit<'input>(
    unit: Unit<'input>,
    subprogram: Subprogram<'input>,
)
    ensures
        unit_subprograms(unit).contains(subprogram) <==> {
            ||| unit.subprograms@.contains(subprogram)
            ||| exists|i: int| 0 <= i < unit.types@.len() && holds(
                #[trigger] unit.types@[i],
                subprogram,
            )
        },
{
    lemma_nested_subprograms(unit.types@, subprogram);
    lemma_contained(nested_subprograms(unit.types@), unit.subprograms@, subprogram);
}

/// The subprograms of a file are those of its units, and no others.
pub proof fn lemma_subprograms_of_file<'input>(
    units: Seq<Unit<'input>>,
    subprogram: Subprogram<'input>,
)
    ensures
        file_subprograms(units).contains(subprogram) <==> exists|i: int|
            0 <= i < units.len() && unit_subprograms(#[trigger] units[i]).contains(subprogram),
    decreases units.len(),
{
    if units.len() > 0 {
        let rest = units.drop_last();
        let last = units[units.len() - 1];
        lemma_subprograms_of_file(rest, subprogram);
        assert(forall|i: int| 0 <= i < rest.len() ==> rest[i] == units[i]);
        lemma_contained(file_subprograms(rest), unit_subprograms(last), subprogram);
    }
}

/// A call of an address is named after a subprogram of the file that starts there, and has a
/// name wherever any subprogram of any unit starts there.
pub proof fn lemma_calls_are_named_by_start<'a, 'input>(
    units: Seq<Unit<'input>>,
    flags: Flags<'a>,
    unit: Unit<'input>,
    callee: Subprogram<'input>,
    home: int,
    address: u64,
)
    requires
        0 <= home < units.len(),
        unit_subprograms(units[home]).contains(callee),
        callee.low_pc == Some(address),
    ensures
        scope_of(units, flags, unit).all_subprograms.contains_key(address),
        scope_of(units, flags, unit).all_subprograms[address].low_pc == Some(address),
        file_subprograms(units).contains(*scope_of(units, flags, unit).all_subprograms[address]),
{
    let all = file_subprograms(units);
    lemma_subprograms_of_file(units, callee);
    lemma_subprograms_are_found_by_address(all, address);
    let i = choose|i: int| 0 <= i < all.len() && all[i] == callee;
    assert(all[i].low_pc == Some(address));
    lemma_last_start(all, address, all.len() as int);
}

proof fn lemma_last_start<'input>(
    subprograms: Seq<Subprogram<'input>>,
    address: u64,
    count: int,
)
    requires
        0 <= count <= subprograms.len(),
        exists|i: int| 0 <= i < count && (#[trigger] subprograms[i]).low_pc == Some(address),
        forall|j: int|
            count <= j < subprograms.len() ==> (#[trigger] subprograms[j]).low_pc != Some(address),
    ensures
        subprograms.contains(*by_address(subprograms)[address]),
    decreases count,
{
    if subprograms[count - 1].low_pc == Some(address) {
        lemma_subprograms_are_found_by_address(subprograms, address);
    } else {
        lemma_last_start(subprograms, address, count - 1);
    }
}

/// While a unit is printed, types and subprograms are looked up among its own, and addresses
/// have the size that the unit says.
pub proof fn lemma_unit_looks_up_its_own<'a, 'input>(
    units: Seq<Unit<'input>>,
    flags: Flags<'a>,
    unit: Unit<'input>,
    offset: usize,
)
    ensures
        scope_of(units, flags, unit).flags == flags,
        scope_of(units, flags, unit).address_size == unit.address_size,
        match scope_of(units, flags, unit).type_at(Some(offset)) {
            Some(ty) => unit.types@.contains(*ty) && ty.offset == offset,
            None => forall|i: int|
                0 <= i < unit.types@.len() ==> (#[trigger] unit.types@[i]).offset != offset,
        },
        match scope_of(units, flags, unit).subprogram_at(Some(offset)) {
            Some(subprogram) => unit_subprograms(unit).contains(*subprogram) && subprogram.offset
                == offset,
            None => forall|i: int|
                0 <= i < unit_subprograms(unit).len() ==> (#[trigger] unit_subprograms(
                    unit,
                )[i]).offset != offset,
        },
        scope_of(units, flags, unit).type_at(None) is None,
        scope_of(units, flags, unit).subprogram_at(None) is None,
{
    let types = unit.types@;
    let subprograms = unit_subprograms(unit);
    lemma_types_are_found_by_offset(types, offset);
    lemma_subprograms_are_found_by_offset(subprograms, offset);
    if types_by_offset(types).contains_key(offset) {
        lemma_last_type(types, offset, types.len() as int);
    }
    if by_offset(subprograms).contains_key(offset) {
        lemma_last_subprogram(subprograms, offset, subprograms.len() as int);
    }
}

proof fn lemma_last_type<'input>(types: Seq<Type<'input>>, offset: usize, count: int)
    requires
        0 <= count <= types.len(),
        exists|i: int| 0 <= i < count && (#[trigger] types[i]).offset == offset,
        forall|j: int| count <= j < types.len() ==> (#[trigger] types[j]).offset != offset,
    ensures
        types.contains(*types_by_offset(types)[offset]),
        types_by_offset(types)[offset].offset == offset,
    decreases count,
{
    if types[count - 1].offset == offset {
        lemma_types_are_found_by_offset(types, offset);
    } else {
        lemma_last_type(types, offset, count - 1);
    }
}

proof fn lemma_last_subprogram<'input>(
    subprograms: Seq<Subprogram<'input>>,
    offset: usize,
    count: int,
)
    requires
        0 <= count <= subprograms.len(),
        exists|i: int| 0 <= i < count && (#[trigger] subprograms[i]).offset == offset,
        forall|j: int|
            count <= j < subprograms.len() ==> (#[trigger] subprograms[j]).offset != offset,
    ensures
        subprograms.contains(*by_offset(subprograms)[offset]),
        by_offset(subprograms)[offset].offset == offset,
    decreases count,
{
    if subprograms[count - 1].offset == offset {
        lemma_subprograms_are_found_by_offset(subprograms, offset);
    } else {
        lemma_last_subprogram(subprograms, offset, count - 1);
    }
}

/// What is asked for by name and by namespace passes: the name is the one that is asked for, if
/// any is, and the namespaces that are asked for stand at the beginning of the path. Nothing
/// else passes.
pub proof fn lemma_what_is_asked_for_passes(flags: Flags, name: Name, namespace: Namespace)
    ensures
        flags.passes(name, namespace) <==> {
            &&& flags.name is Some ==> name is Some && name->0@ == flags.name->0.spec_bytes()
            &&& flags.namespace@.len() <= namespace.path().len()
            &&& forall|i: int|
                0 <= i < flags.namespace@.len() ==> {
                    &&& (#[trigger] namespace.path()[i]) is Some
                    &&& namespace.path()[i]->0@ == flags.namespace@[i].spec_bytes()
                }
        },
{
}

/// The two filters do not depend on each other: a name that passes in one namespace passes in
/// every namespace that passes with any name. With no namespace asked for, all namespaces are
/// alike, and with no name asked for, all names are.
pub proof fn lemma_filters_are_independent(
    flags: Flags,
    name1: Name,
    namespace1: Namespace,
    name2: Name,
    namespace2: Namespace,
)
    ensures
        flags.passes(name1, namespace1) && flags.passes(name2, namespace2) ==> flags.passes(
            name1,
            namespace2,
        ),
        flags.namespace@.len() == 0 ==> flags.passes(name1, namespace1) == flags.passes(
            name1,
            namespace2,
        ),
        flags.name is None ==> flags.passes(name1, namespace1) == flags.passes(name2, namespace1),
        flags.name is None && flags.namespace@.len() == 0 ==> flags.passes(name1, namespace1),
{
}

/// What passes with some names of namespaces asked for passes with fewer of them, and what
/// passes in a namespace passes in every namespace inside it.
pub proof fn lemma_inner_namespaces_pass<'input>(
    flags: Flags,
    fewer: Flags,
    name: Name,
    namespace: Namespace<'input>,
    inner: Namespace<'input>,
)
    requires
        flags.passes(name, namespace),
        fewer.name == flags.name,
        fewer.namespace@.is_prefix_of(flags.namespace@),
        inner.parent == Some(std::rc::Rc::new(namespace)),
    ensures
        fewer.passes(name, namespace),
        flags.passes(name, inner),
{
    let filter = flags.namespace@;
    let count = fewer.namespace@.len() as int;
    assert(fewer.namespace@ =~= filter.take(count));
    namespace::lemma_filter_is_a_prefix(namespace, inner, filter, count);
}

} // verus!

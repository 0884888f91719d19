//! How types lead to other types, and whether to follow them comes to an end.
//!
//! The name of an array is made of the name of what it holds, the size of a type
//! definition is that of the type that it stands for, and the members of an anonymous
//! structure are printed where the structure is a member. Debugging information can be
//! made so that one of these goes round in a circle, so it is found out beforehand which
//! types can be followed to an end.

use crate::state;
use crate::types::{Type, TypeKind, TypeModifierKind};
use std::collections::{HashMap, HashSet};
use vstd::prelude::*;

verus! {

broadcast use vstd::std_specs::hash::group_hash_axioms;

/// What is looked for when types are followed.
#[derive(Clone, Copy, Debug)]
pub enum Chain {
    /// The name of a type.
    Name,
    /// The size of a type.
    Size,
    /// The members that are printed with those of a type.
    Members,
}

/// Types by their offsets.
pub type Types<'a, 'input> = Map<usize, &'a Type<'input>>;

/// Whether a type leads to the type at an offset.
pub open spec fn leads<'a, 'input>(
    chain: Chain,
    types: Types<'a, 'input>,
    ty: Type<'input>,
    offset: usize,
) -> bool {
    match chain {
        Chain::Name => match ty.kind {
            TypeKind::Array(array) => array.ty == Some(offset),
            TypeKind::Subroutine(subroutine) => {
                ||| subroutine.return_type == Some(offset)
                ||| exists|i: int|
                    0 <= i < subroutine.parameters@.len() && (
                    #[trigger] subroutine.parameters@[i]).ty == Some(offset)
            },
            TypeKind::Modifier(modifier) => modifier.name is None && modifier.ty == Some(offset),
            _ => false,
        },
        Chain::Size => match ty.kind {
            TypeKind::TypeDef(typedef) => typedef.ty == Some(offset),
            TypeKind::Array(array) => array.count is Some && array.ty == Some(offset),
            TypeKind::Modifier(modifier) => {
                &&& modifier.byte_size is None
                &&& !(modifier.kind is Pointer)
                &&& modifier.ty == Some(offset)
            },
            _ => false,
        },
        Chain::Members => exists|i: int|
            0 <= i < ty.members().len() && (#[trigger] ty.members()[i]).ty == Some(offset) && (
            ty.members()[i].anonymous() || types[offset].anonymous()),
    }
}

/// Whether to follow a type comes to an end within fewer than the given number of steps.
pub open spec fn ends_in<'a, 'input>(
    chain: Chain,
    types: Types<'a, 'input>,
    ty: Type<'input>,
    steps: nat,
) -> bool
    decreases steps,
{
    steps > 0 && forall|offset: usize| #[trigger]
        leads(chain, types, ty, offset) && types.contains_key(offset) ==> ends_in(
            chain,
            types,
            *types[offset],
            (steps - 1) as nat,
        )
}

/// Whether to follow a type comes to an end.
pub open spec fn ends<'a, 'input>(
    chain: Chain,
    types: Types<'a, 'input>,
    ty: Type<'input>,
) -> bool {
    exists|steps: nat| ends_in(chain, types, ty, steps)
}

/// The least number of steps within which to follow a type comes to an end.
pub closed spec fn rank<'a, 'input>(chain: Chain, types: Types<'a, 'input>, ty: Type<'input>) -> nat {
    choose|steps: nat|
        ends_in(chain, types, ty, steps) && forall|fewer: nat|
            fewer < steps ==> !ends_in(chain, types, ty, fewer)
}

proof fn lemma_least<'a, 'input>(
    chain: Chain,
    types: Types<'a, 'input>,
    ty: Type<'input>,
    steps: nat,
)
    requires
        ends_in(chain, types, ty, steps),
    ensures
        ends_in(chain, types, ty, rank(chain, types, ty)),
        rank(chain, types, ty) <= steps,
    decreases steps,
{
    if exists|fewer: nat| fewer < steps && ends_in(chain, types, ty, fewer) {
        let fewer = choose|fewer: nat| fewer < steps && ends_in(chain, types, ty, fewer);
        lemma_least(chain, types, ty, fewer);
    } else {
        assert(ends_in(chain, types, ty, steps) && forall|fewer: nat|
            fewer < steps ==> !ends_in(chain, types, ty, fewer));
    }
}

/// What a type that comes to an end leads to comes to an end too, and in fewer steps.
pub proof fn lemma_step<'a, 'input>(
    chain: Chain,
    types: Types<'a, 'input>,
    ty: Type<'input>,
    offset: usize,
)
    requires
        ends(chain, types, ty),
        leads(chain, types, ty, offset),
        types.contains_key(offset),
    ensures
        ends(chain, types, *types[offset]),
        rank(chain, types, *types[offset]) < rank(chain, types, ty),
{
    let steps = choose|steps: nat| ends_in(chain, types, ty, steps);
    lemma_least(chain, types, ty, steps);
    let fewer = (rank(chain, types, ty) - 1) as nat;
    assert(ends_in(chain, types, *types[offset], fewer));
    lemma_least(chain, types, *types[offset], fewer);
}

/// To follow a type takes a step.
pub proof fn lemma_rank_is_positive<'a, 'input>(
    chain: Chain,
    types: Types<'a, 'input>,
    ty: Type<'input>,
)
    requires
        ends(chain, types, ty),
    ensures
        rank(chain, types, ty) > 0,
{
    let steps = choose|steps: nat| ends_in(chain, types, ty, steps);
    lemma_least(chain, types, ty, steps);
}

proof fn lemma_more_steps<'a, 'input>(
    chain: Chain,
    types: Types<'a, 'input>,
    ty: Type<'input>,
    steps: nat,
)
    requires
        ends_in(chain, types, ty, steps),
    ensures
        ends_in(chain, types, ty, steps + 1),
    decreases steps,
{
    assert forall|offset: usize| #[trigger]
        leads(chain, types, ty, offset) && types.contains_key(offset) implies ends_in(
        chain,
        types,
        *types[offset],
        steps,
    ) by {
        lemma_more_steps(chain, types, *types[offset], (steps - 1) as nat);
    }
}

/// Whether a type leads only to types that are known.
spec fn settled<'a, 'input>(
    chain: Chain,
    types: Types<'a, 'input>,
    known: Set<usize>,
    ty: Type<'input>,
) -> bool {
    forall|offset: usize| #[trigger]
        leads(chain, types, ty, offset) && types.contains_key(offset) ==> known.contains(offset)
}

fn is_known<'a, 'input>(
    types: &HashMap<usize, &'a Type<'input>>,
    known: &HashSet<usize>,
    offset: Option<usize>,
) -> (result: bool)
    ensures
        result <==> (offset is Some && types@.contains_key(offset->0) ==> known@.contains(
            offset->0,
        )),
{
    match offset {
        Some(offset) => !types.contains_key(&offset) || known.contains(&offset),
        None => true,
    }
}

fn is_settled<'a, 'input>(
    chain: Chain,
    types: &HashMap<usize, &'a Type<'input>>,
    known: &HashSet<usize>,
    ty: &Type<'input>,
) -> (result: bool)
    ensures
        result == settled(chain, types@, known@, *ty),
{
    match chain {
        Chain::Name => match &ty.kind {
            TypeKind::Array(array) => {
                let result = is_known(types, known, array.ty);
                if !result {
                    assert(leads(chain, types@, *ty, array.ty->0));
                }
                result
            },
            TypeKind::Subroutine(subroutine) => {
                if !is_known(types, known, subroutine.return_type) {
                    assert(leads(chain, types@, *ty, subroutine.return_type->0));
                    return false;
                }
                let mut i: usize = 0;
                while i < subroutine.parameters.len()
                    invariant
                        i <= subroutine.parameters.len(),
                        chain is Name,
                        ty.kind == TypeKind::Subroutine(*subroutine),
                        forall|j: int|
                            0 <= j < i && (#[trigger] subroutine.parameters@[j]).ty is Some
                                && types@.contains_key(subroutine.parameters@[j].ty->0)
                                ==> known@.contains(subroutine.parameters@[j].ty->0),
                    decreases subroutine.parameters.len() - i,
                {
                    let parameter = &subroutine.parameters[i];
                    if !is_known(types, known, parameter.ty) {
                        assert(subroutine.parameters@[i as int].ty == parameter.ty);
                        assert(leads(chain, types@, *ty, parameter.ty->0));
                        return false;
                    }
                    i = i + 1;
                }
                true
            },
            TypeKind::Modifier(modifier) => {
                let result = modifier.name.is_some() || is_known(types, known, modifier.ty);
                if !result {
                    assert(leads(chain, types@, *ty, modifier.ty->0));
                }
                result
            },
            _ => true,
        },
        Chain::Size => match &ty.kind {
            TypeKind::TypeDef(typedef) => {
                let result = is_known(types, known, typedef.ty);
                if !result {
                    assert(leads(chain, types@, *ty, typedef.ty->0));
                }
                result
            },
            TypeKind::Array(array) => {
                let result = array.count.is_none() || is_known(types, known, array.ty);
                if !result {
                    assert(leads(chain, types@, *ty, array.ty->0));
                }
                result
            },
            TypeKind::Modifier(modifier) => {
                let pointer = match modifier.kind {
                    TypeModifierKind::Pointer => true,
                    _ => false,
                };
                let result = modifier.byte_size.is_some() || pointer || is_known(
                    types,
                    known,
                    modifier.ty,
                );
                if !result {
                    assert(leads(chain, types@, *ty, modifier.ty->0));
                }
                result
            },
            _ => true,
        },
        Chain::Members => {
            if let Some(members) = ty.visit_members() {
                let mut i: usize = 0;
                while i < members.len()
                    invariant
                        i <= members.len(),
                        chain is Members,
                        members@ == ty.members(),
                        forall|j: int|
                            0 <= j < i && (#[trigger] members@[j]).ty is Some
                                && types@.contains_key(members@[j].ty->0) && (
                            members@[j].anonymous() || types@[members@[j].ty->0].anonymous())
                                ==> known@.contains(members@[j].ty->0),
                    decreases members.len() - i,
                {
                    let member = &members[i];
                    if let Some(offset) = member.ty {
                        if let Some(inner) = types.get(&offset) {
                            if (member.is_anon() || inner.is_anon()) && !known.contains(&offset) {
                                assert(ty.members()[i as int].ty == Some(offset));
                                assert(leads(chain, types@, *ty, offset));
                                return false;
                            }
                        }
                    }
                    i = i + 1;
                }
            }
            true
        },
    }
}

/// Goes once through the types and adds those that lead only to types that are known.
/// Says whether any was added.
fn learn<'a, 'input>(
    chain: Chain,
    types: &HashMap<usize, &'a Type<'input>>,
    list: &Vec<Type<'input>>,
    known: &mut HashSet<usize>,
    Ghost(steps): Ghost<nat>,
) -> (added: bool)
    requires
        types@ == state::types_by_offset(list@),
        forall|offset: usize| #[trigger]
            old(known)@.contains(offset) ==> types@.contains_key(offset) && ends_in(
                chain,
                types@,
                *types@[offset],
                steps,
            ),
    ensures
        old(known)@.subset_of(final(known)@),
        forall|offset: usize| #[trigger]
            final(known)@.contains(offset) ==> types@.contains_key(offset) && ends_in(
                chain,
                types@,
                *types@[offset],
                steps + list@.len(),
            ),
        added ==> exists|offset: usize| #[trigger]
            final(known)@.contains(offset) && !old(known)@.contains(offset),
        !added ==> final(known)@ == old(known)@ && forall|offset: usize| #[trigger]
            types@.contains_key(offset) && settled(
                chain,
                types@,
                final(known)@,
                *types@[offset],
            ) ==> final(known)@.contains(offset),
{
    let mut added = false;
    let mut i: usize = 0;
    while i < list.len()
        invariant
            i <= list.len(),
            types@ == state::types_by_offset(list@),
            old(known)@.subset_of(known@),
            forall|offset: usize| #[trigger]
                known@.contains(offset) ==> types@.contains_key(offset) && ends_in(
                    chain,
                    types@,
                    *types@[offset],
                    steps + i as nat,
                ),
            added ==> exists|offset: usize| #[trigger]
                known@.contains(offset) && !old(known)@.contains(offset),
            !added ==> known@ == old(known)@ && forall|j: int|
                0 <= j < i && settled(
                    chain,
                    types@,
                    known@,
                    *types@[(#[trigger] list@[j]).offset],
                ) ==> known@.contains(list@[j].offset),
        decreases list.len() - i,
    {
        let offset: usize = list[i].offset;
        let ghost before = known@;
        proof {
            state::lemma_types_are_found_by_offset(list@, offset);
            assert(list@[i as int].offset == offset);
            assert forall|known_offset: usize| #[trigger] before.contains(known_offset) implies
                ends_in(chain, types@, *types@[known_offset], steps + i as nat + 1) by {
                lemma_more_steps(chain, types@, *types@[known_offset], steps + i as nat);
            }
        }
        if !known.contains(&offset) {
            if let Some(ty) = types.get(&offset) {
                if is_settled(chain, types, known, ty) {
                    assert(ends_in(chain, types@, **ty, steps + i as nat + 1));
                    known.insert(offset);
                    assert(known@.contains(offset) && !old(known)@.contains(offset));
                    added = true;
                }
            }
        }
        i = i + 1;
    }
    proof {
        if !added {
            assert forall|offset: usize| #[trigger]
                types@.contains_key(offset) && settled(
                    chain,
                    types@,
                    known@,
                    *types@[offset],
                ) implies known@.contains(offset) by {
                state::lemma_types_are_found_by_offset(list@, offset);
                let j = choose|j: int| 0 <= j < list@.len() && (#[trigger] list@[j]).offset == offset;
                assert(list@[j].offset == offset);
            }
        }
    }
    added
}

proof fn lemma_all_known<'a, 'input>(
    chain: Chain,
    types: Types<'a, 'input>,
    known: Set<usize>,
    offset: usize,
    steps: nat,
)
    requires
        forall|offset: usize| #[trigger]
            types.contains_key(offset) && settled(chain, types, known, *types[offset])
                ==> known.contains(offset),
        types.contains_key(offset),
        ends_in(chain, types, *types[offset], steps),
    ensures
        known.contains(offset),
    decreases steps,
{
    assert forall|next: usize| #[trigger]
        leads(chain, types, *types[offset], next) && types.contains_key(next) implies known.contains(
        next,
    ) by {
        lemma_all_known(chain, types, known, next, (steps - 1) as nat);
    }
    assert(settled(chain, types, known, *types[offset]));
}

proof fn lemma_known_len(known: Set<usize>, list: Seq<Type>)
    requires
        forall|offset: usize| #[trigger]
            known.contains(offset) ==> exists|i: int|
                0 <= i < list.len() && (#[trigger] list[i]).offset == offset,
    ensures
        known.finite(),
        known.len() <= list.len(),
{
    let offsets = list.map_values(|ty: Type| ty.offset);
    assert forall|offset: usize| known.contains(offset) implies offsets.to_set().contains(
        offset,
    ) by {
        let i = choose|i: int| 0 <= i < list.len() && (#[trigger] list[i]).offset == offset;
        assert(offsets[i] == offset);
    }
    offsets.lemma_cardinality_of_set();
    vstd::seq_lib::seq_to_set_is_finite(offsets);
    vstd::set_lib::lemma_len_subset(known, offsets.to_set());
}

/// The offsets of the types that come to an end.
pub fn ending<'a, 'input>(
    chain: Chain,
    types: &HashMap<usize, &'a Type<'input>>,
    list: &Vec<Type<'input>>,
) -> (known: HashSet<usize>)
    requires
        types@ == state::types_by_offset(list@),
    ensures
        forall|offset: usize| #[trigger]
            known@.contains(offset) <==> types@.contains_key(offset) && ends(
                chain,
                types@,
                *types@[offset],
            ),
{
    let mut known: HashSet<usize> = HashSet::new();
    let ghost mut steps: nat = 0;
    let mut added = true;
    while added
        invariant
            types@ == state::types_by_offset(list@),
            forall|offset: usize| #[trigger]
                known@.contains(offset) ==> types@.contains_key(offset) && ends_in(
                    chain,
                    types@,
                    *types@[offset],
                    steps,
                ),
            known@.finite(),
            known@.len() <= list@.len(),
            !added ==> forall|offset: usize| #[trigger]
                types@.contains_key(offset) && settled(chain, types@, known@, *types@[offset])
                    ==> known@.contains(offset),
        decreases
                list@.len() - known@.len() + (if added {
                    1int
                } else {
                    0int
                }),
    {
        let ghost before = known@;
        added = learn(chain, types, list, &mut known, Ghost(steps));
        proof {
            steps = steps + list@.len();
            assert forall|offset: usize| #[trigger] known@.contains(offset) implies exists|i: int|
                0 <= i < list.len() && (#[trigger] list@[i]).offset == offset by {
                state::lemma_types_are_found_by_offset(list@, offset);
            }
            lemma_known_len(known@, list@);
            if added {
                let offset = choose|offset: usize| #[trigger]
                    known@.contains(offset) && !before.contains(offset);
                assert(before.insert(offset).subset_of(known@));
                vstd::set_lib::lemma_len_subset(before.insert(offset), known@);
            }
        }
    }
    proof {
        assert forall|offset: usize|
            types@.contains_key(offset) && ends(
                chain,
                types@,
                *types@[offset],
            ) implies #[trigger] known@.contains(offset) by {
            let more = choose|more: nat| ends_in(chain, types@, *types@[offset], more);
            lemma_all_known(chain, types@, known@, offset, more);
        }
    }
    known
}

/// To follow a type comes to an end where it leads to no type but one whose following comes to
/// an end.
pub proof fn lemma_ends_behind<'a, 'input>(
    chain: Chain,
    types: Types<'a, 'input>,
    ty: Type<'input>,
    offset: usize,
)
    requires
        forall|other: usize|
            leads(chain, types, ty, other) && types.contains_key(other) ==> other == offset,
        leads(chain, types, ty, offset) && types.contains_key(offset) ==> ends(
            chain,
            types,
            *types[offset],
        ),
    ensures
        ends(chain, types, ty),
{
    if leads(chain, types, ty, offset) && types.contains_key(offset) {
        let steps = choose|steps: nat| ends_in(chain, types, *types[offset], steps);
        assert(ends_in(chain, types, ty, steps + 1));
    } else {
        assert(ends_in(chain, types, ty, 1));
    }
}

proof fn lemma_many_more_steps<'a, 'input>(
    chain: Chain,
    types: Types<'a, 'input>,
    ty: Type<'input>,
    steps: nat,
    more: nat,
)
    requires
        ends_in(chain, types, ty, steps),
        steps <= more,
    ensures
        ends_in(chain, types, ty, more),
    decreases more,
{
    if steps < more {
        lemma_many_more_steps(chain, types, ty, steps, (more - 1) as nat);
        lemma_more_steps(chain, types, ty, (more - 1) as nat);
    }
}

proof fn lemma_common_steps<'a, 'input>(
    chain: Chain,
    types: Types<'a, 'input>,
    offsets: Seq<usize>,
) -> (steps: nat)
    requires
        forall|i: int|
            0 <= i < offsets.len() && types.contains_key(#[trigger] offsets[i]) ==> ends(
                chain,
                types,
                *types[offsets[i]],
            ),
    ensures
        forall|i: int|
            0 <= i < offsets.len() && types.contains_key(#[trigger] offsets[i]) ==> ends_in(
                chain,
                types,
                *types[offsets[i]],
                steps,
            ),
    decreases offsets.len(),
{
    if offsets.len() == 0 {
        0
    } else {
        let rest = offsets.drop_last();
        assert(forall|i: int| 0 <= i < rest.len() ==> rest[i] == #[trigger] offsets[i]);
        let before = lemma_common_steps(chain, types, rest);
        let last = offsets[offsets.len() - 1];
        let own: nat = if types.contains_key(last) {
            choose|steps: nat| ends_in(chain, types, *types[last], steps)
        } else {
            0
        };
        let steps = if own > before {
            own
        } else {
            before
        };
        assert forall|i: int|
            0 <= i < offsets.len() && types.contains_key(#[trigger] offsets[i]) implies ends_in(
            chain,
            types,
            *types[offsets[i]],
            steps,
        ) by {
            if i < rest.len() {
                assert(rest[i] == offsets[i]);
                lemma_many_more_steps(chain, types, *types[offsets[i]], before, steps);
            } else {
                lemma_many_more_steps(chain, types, *types[offsets[i]], own, steps);
            }
        }
        steps
    }
}

/// To follow a type comes to an end where it leads only to types whose following comes to an
/// end.
pub proof fn lemma_ends_behind_all<'a, 'input>(
    chain: Chain,
    types: Types<'a, 'input>,
    ty: Type<'input>,
    offsets: Seq<usize>,
)
    requires
        forall|other: usize|
            #[trigger] leads(chain, types, ty, other) && types.contains_key(other)
                ==> offsets.contains(other),
        forall|i: int|
            0 <= i < offsets.len() && types.contains_key(#[trigger] offsets[i]) ==> ends(
                chain,
                types,
                *types[offsets[i]],
            ),
    ensures
        ends(chain, types, ty),
{
    let steps = lemma_common_steps(chain, types, offsets);
    assert(ends_in(chain, types, ty, steps + 1)) by {
        assert forall|offset: usize| #[trigger]
            leads(chain, types, ty, offset) && types.contains_key(offset) implies ends_in(
            chain,
            types,
            *types[offset],
            steps,
        ) by {
            let i = choose|i: int| 0 <= i < offsets.len() && offsets[i] == offset;
            assert(types.contains_key(offsets[i]));
        }
    }
}

} // verus!

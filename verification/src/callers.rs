//! The subprograms of a file whose calls are looked for, and where the calls are put.

use crate::calls::can_disassemble;
use crate::lists;
use crate::machine::Machine;
use crate::state;
use crate::state::{File, Flags};
use crate::subprogram::Subprogram;
use crate::types::{EnumerationType, StructType, Type, TypeKind, UnionType};
use crate::unit::Unit;
use vstd::prelude::*;

verus! {

/// The addresses of the code of those subprograms whose calls are printed.
pub open spec fn codes(subprograms: Seq<Subprogram>, flags: Flags) -> Seq<(u64, u64)>
    decreases subprograms.len(),
{
    if subprograms.len() == 0 {
        seq![]
    } else {
        let last = subprograms.last();
        let before = codes(subprograms.drop_last(), flags);
        if last.shows_calls(flags) {
            before.push((last.low_pc->0, last.high_pc->0))
        } else {
            before
        }
    }
}

/// One of some lists of calls. A list that is missing is empty.
pub open spec fn calls_at(found: Seq<Vec<u64>>, i: int) -> Seq<u64> {
    if 0 <= i < found.len() {
        found[i]@
    } else {
        seq![]
    }
}

/// Whether those subprograms whose calls are printed have got their calls, from the given
/// place in the list of what was found on, and everything else is as it was.
pub open spec fn filled<'input>(
    before: Seq<Subprogram<'input>>,
    after: Seq<Subprogram<'input>>,
    flags: Flags,
    found: Seq<Vec<u64>>,
    start: int,
) -> bool
    decreases before.len(),
{
    &&& after.len() == before.len()
    &&& before.len() > 0 ==> {
        let (was, new) = (before.last(), after.last());
        &&& filled(before.drop_last(), after.drop_last(), flags, found, start)
        &&& if was.shows_calls(flags) {
            &&& new == (Subprogram { calls: new.calls, ..was })
            &&& new.calls@ == calls_at(
                found,
                start + codes(before.drop_last(), flags).len(),
            )
        } else {
            new == was
        }
    }
}

/// Whether the subprograms that a type holds have got their calls, and everything else is as
/// it was.
pub open spec fn type_filled<'input>(
    before: Type<'input>,
    after: Type<'input>,
    flags: Flags,
    found: Seq<Vec<u64>>,
    start: int,
) -> bool {
    &&& after.offset == before.offset
    &&& filled(before.own_subprograms(), after.own_subprograms(), flags, found, start)
    &&& match (before.kind, after.kind) {
        (TypeKind::Struct(was), TypeKind::Struct(new)) => new == (StructType {
            subprograms: new.subprograms,
            ..was
        }),
        (TypeKind::Union(was), TypeKind::Union(new)) => new == (UnionType {
            subprograms: new.subprograms,
            ..was
        }),
        (TypeKind::Enumeration(was), TypeKind::Enumeration(new)) => new == (EnumerationType {
            subprograms: new.subprograms,
            ..was
        }),
        (was, new) => new == was,
    }
}

/// Whether the subprograms that types hold have got their calls, and everything else is as it
/// was.
pub open spec fn types_filled<'input>(
    before: Seq<Type<'input>>,
    after: Seq<Type<'input>>,
    flags: Flags,
    found: Seq<Vec<u64>>,
    start: int,
) -> bool
    decreases before.len(),
{
    &&& after.len() == before.len()
    &&& before.len() > 0 ==> {
        &&& types_filled(before.drop_last(), after.drop_last(), flags, found, start)
        &&& type_filled(
            before.last(),
            after.last(),
            flags,
            found,
            start + codes(state::nested_subprograms(before.drop_last()), flags).len(),
        )
    }
}

/// Whether the subprograms of a unit have got their calls, and everything else is as it was.
pub open spec fn unit_filled<'input>(
    before: Unit<'input>,
    after: Unit<'input>,
    flags: Flags,
    found: Seq<Vec<u64>>,
    start: int,
) -> bool {
    &&& after == (Unit { types: after.types, subprograms: after.subprograms, ..before })
    &&& types_filled(before.types@, after.types@, flags, found, start)
    &&& filled(
        before.subprograms@,
        after.subprograms@,
        flags,
        found,
        start + codes(state::nested_subprograms(before.types@), flags).len(),
    )
}

/// Whether the subprograms of units have got their calls, and everything else is as it was.
pub open spec fn units_filled<'input>(
    before: Seq<Unit<'input>>,
    after: Seq<Unit<'input>>,
    flags: Flags,
    found: Seq<Vec<u64>>,
    start: int,
) -> bool
    decreases before.len(),
{
    &&& after.len() == before.len()
    &&& before.len() > 0 ==> {
        &&& units_filled(before.drop_last(), after.drop_last(), flags, found, start)
        &&& unit_filled(
            before.last(),
            after.last(),
            flags,
            found,
            start + codes(state::file_subprograms(before.drop_last()), flags).len(),
        )
    }
}

proof fn lemma_codes_append<'input>(
    first: Seq<Subprogram<'input>>,
    second: Seq<Subprogram<'input>>,
    flags: Flags,
)
    ensures
        codes(first + second, flags) == codes(first, flags) + codes(second, flags),
    decreases second.len(),
{
    if second.len() > 0 {
        lemma_codes_append(first, second.drop_last(), flags);
        assert((first + second).drop_last() =~= first + second.drop_last());
        assert(codes(first + second, flags) =~= codes(first, flags) + codes(second, flags));
    } else {
        assert(first + second =~= first);
        assert(codes(first + second, flags) =~= codes(first, flags) + codes(second, flags));
    }
}

proof fn lemma_filled_keep_codes<'input>(
    before: Seq<Subprogram<'input>>,
    after: Seq<Subprogram<'input>>,
    flags: Flags,
    found: Seq<Vec<u64>>,
    start: int,
)
    requires
        filled(before, after, flags, found, start),
    ensures
        codes(after, flags) == codes(before, flags),
    decreases before.len(),
{
    if before.len() > 0 {
        lemma_filled_keep_codes(before.drop_last(), after.drop_last(), flags, found, start);
    }
}

proof fn lemma_types_keep_codes<'input>(
    before: Seq<Type<'input>>,
    after: Seq<Type<'input>>,
    flags: Flags,
    found: Seq<Vec<u64>>,
    start: int,
)
    requires
        types_filled(before, after, flags, found, start),
    ensures
        codes(state::nested_subprograms(after), flags) == codes(
            state::nested_subprograms(before),
            flags,
        ),
    decreases before.len(),
{
    if before.len() > 0 {
        let (front, new_front) = (before.drop_last(), after.drop_last());
        let (own, new) = (before.last().own_subprograms(), after.last().own_subprograms());
        let done = codes(state::nested_subprograms(front), flags).len();
        lemma_types_keep_codes(front, new_front, flags, found, start);
        lemma_filled_keep_codes(own, new, flags, found, start + done);
        lemma_codes_append(state::nested_subprograms(front), own, flags);
        lemma_codes_append(state::nested_subprograms(new_front), new, flags);
    }
}

/// Units whose subprograms get their calls keep the code that is looked at: its addresses are
/// listed as before.
pub proof fn lemma_filled_units_keep_codes<'input>(
    before: Seq<Unit<'input>>,
    after: Seq<Unit<'input>>,
    flags: Flags,
    found: Seq<Vec<u64>>,
    start: int,
)
    requires
        units_filled(before, after, flags, found, start),
    ensures
        codes(state::file_subprograms(after), flags) == codes(
            state::file_subprograms(before),
            flags,
        ),
    decreases before.len(),
{
    if before.len() > 0 {
        let (front, new_front) = (before.drop_last(), after.drop_last());
        let (unit, new) = (before.last(), after.last());
        let done = start + codes(state::file_subprograms(front), flags).len();
        let nested = state::nested_subprograms(unit.types@);
        lemma_filled_units_keep_codes(front, new_front, flags, found, start);
        lemma_types_keep_codes(unit.types@, new.types@, flags, found, done);
        lemma_filled_keep_codes(
            unit.subprograms@,
            new.subprograms@,
            flags,
            found,
            done + codes(nested, flags).len(),
        );
        lemma_codes_append(nested, unit.subprograms@, flags);
        lemma_codes_append(state::nested_subprograms(new.types@), new.subprograms@, flags);
        lemma_codes_append(
            state::file_subprograms(front),
            state::unit_subprograms(unit),
            flags,
        );
        lemma_codes_append(
            state::file_subprograms(new_front),
            state::unit_subprograms(new),
            flags,
        );
    }
}

fn list_codes(subprograms: &Vec<Subprogram>, flags: &Flags, list: &mut Vec<(u64, u64)>)
    ensures
        final(list)@ == old(list)@ + codes(subprograms@, *flags),
{
    let mut i: usize = 0;
    while i < subprograms.len()
        invariant
            i <= subprograms@.len(),
            list@ == old(list)@ + codes(subprograms@.take(i as int), *flags),
        decreases subprograms.len() - i,
    {
        assert(subprograms@.take(i + 1).drop_last() =~= subprograms@.take(i as int));
        if let Some(code) = subprograms[i].code(flags) {
            list.push(code);
        }
        i = i + 1;
        assert(list@ =~= old(list)@ + codes(subprograms@.take(i as int), *flags));
    }
    assert(subprograms@.take(i as int) =~= subprograms@);
}

fn list_unit_codes(unit: &Unit, flags: &Flags, list: &mut Vec<(u64, u64)>)
    ensures
        final(list)@ == old(list)@ + codes(state::unit_subprograms(*unit), *flags),
{
    let types = &unit.types;
    let mut i: usize = 0;
    while i < types.len()
        invariant
            i <= types@.len(),
            list@ == old(list)@ + codes(
                state::nested_subprograms(types@.take(i as int)),
                *flags,
            ),
        decreases types.len() - i,
    {
        assert(types@.take(i + 1).drop_last() =~= types@.take(i as int));
        proof {
            lemma_codes_append(
                state::nested_subprograms(types@.take(i as int)),
                types@[i as int].own_subprograms(),
                *flags,
            );
        }
        if let Some(subprograms) = types[i].get_subprograms() {
            list_codes(subprograms, flags, list);
        }
        i = i + 1;
        assert(list@ =~= old(list)@ + codes(
            state::nested_subprograms(types@.take(i as int)),
            *flags,
        ));
    }
    assert(types@.take(i as int) =~= types@);
    proof {
        lemma_codes_append(state::nested_subprograms(types@), unit.subprograms@, *flags);
    }
    list_codes(&unit.subprograms, flags, list);
    assert(list@ =~= old(list)@ + codes(state::unit_subprograms(*unit), *flags));
}

fn copy(list: &Vec<u64>) -> (copied: Vec<u64>)
    ensures
        copied@ == list@,
{
    let copied = list.clone();
    assert(copied@ =~= list@);
    copied
}

fn fill<'input>(
    subprograms: &mut Vec<Subprogram<'input>>,
    flags: &Flags,
    found: &Vec<Vec<u64>>,
    at: usize,
    Ghost(start): Ghost<int>,
) -> (next: usize)
    requires
        0 <= start,
        at == lists::at_most(start, found@.len() as int),
    ensures
        filled(old(subprograms)@, final(subprograms)@, *flags, found@, start),
        next == lists::at_most(
            start + codes(old(subprograms)@, *flags).len(),
            found@.len() as int,
        ),
{
    let mut at = at;
    let mut i: usize = 0;
    while i < subprograms.len()
        invariant
            i <= subprograms@.len(),
            0 <= start,
            subprograms@.len() == old(subprograms)@.len(),
            forall|j: int|
                i <= j < subprograms@.len() ==> #[trigger] subprograms@[j] == old(subprograms)@[j],
            filled(
                old(subprograms)@.take(i as int),
                subprograms@.take(i as int),
                *flags,
                found@,
                start,
            ),
            at == lists::at_most(
                start + codes(old(subprograms)@.take(i as int), *flags).len(),
                found@.len() as int,
            ),
        decreases subprograms.len() - i,
    {
        let ghost current = subprograms@;
        assert(old(subprograms)@.take(i + 1).drop_last() =~= old(subprograms)@.take(i as int));
        assert(old(subprograms)@.take(i + 1).last() == subprograms@[i as int]);
        if subprograms[i].code(flags).is_some() {
            if at < found.len() {
                subprograms[i].calls = copy(&found[at]);
                at = at + 1;
            } else {
                subprograms[i].calls = Vec::new();
            }
        }
        assert(subprograms@.take(i + 1).drop_last() =~= current.take(i as int));
        i = i + 1;
    }
    assert(old(subprograms)@.take(i as int) =~= old(subprograms)@);
    assert(subprograms@.take(i as int) =~= subprograms@);
    at
}

fn fill_type<'input>(
    ty: &mut Type<'input>,
    flags: &Flags,
    found: &Vec<Vec<u64>>,
    at: usize,
    Ghost(start): Ghost<int>,
) -> (next: usize)
    requires
        0 <= start,
        at == lists::at_most(start, found@.len() as int),
    ensures
        type_filled(*old(ty), *final(ty), *flags, found@, start),
        next == lists::at_most(
            start + codes(old(ty).own_subprograms(), *flags).len(),
            found@.len() as int,
        ),
{
    match &mut ty.kind {
        TypeKind::Struct(val) => fill(&mut val.subprograms, flags, found, at, Ghost(start)),
        TypeKind::Union(val) => fill(&mut val.subprograms, flags, found, at, Ghost(start)),
        TypeKind::Enumeration(val) => fill(&mut val.subprograms, flags, found, at, Ghost(start)),
        _ => at,
    }
}

fn fill_unit<'input>(
    unit: &mut Unit<'input>,
    flags: &Flags,
    found: &Vec<Vec<u64>>,
    at: usize,
    Ghost(start): Ghost<int>,
) -> (next: usize)
    requires
        0 <= start,
        at == lists::at_most(start, found@.len() as int),
    ensures
        unit_filled(*old(unit), *final(unit), *flags, found@, start),
        next == lists::at_most(
            start + codes(state::unit_subprograms(*old(unit)), *flags).len(),
            found@.len() as int,
        ),
{
    let ghost before = old(unit).types@;
    let mut at = at;
    let mut i: usize = 0;
    while i < unit.types.len()
        invariant
            i <= unit.types@.len(),
            0 <= start,
            before == old(unit).types@,
            *unit == (Unit { types: unit.types, ..*old(unit) }),
            unit.types@.len() == before.len(),
            forall|j: int| i <= j < before.len() ==> #[trigger] unit.types@[j] == before[j],
            types_filled(
                before.take(i as int),
                unit.types@.take(i as int),
                *flags,
                found@,
                start,
            ),
            at == lists::at_most(
                start + codes(state::nested_subprograms(before.take(i as int)), *flags).len(),
                found@.len() as int,
            ),
        decreases unit.types.len() - i,
    {
        let ghost types = unit.types@;
        let ghost nested = state::nested_subprograms(before.take(i as int));
        assert(before.take(i + 1).drop_last() =~= before.take(i as int));
        proof {
            lemma_codes_append(nested, before[i as int].own_subprograms(), *flags);
        }
        at = fill_type(
            &mut unit.types[i],
            flags,
            found,
            at,
            Ghost(start + codes(nested, *flags).len()),
        );
        assert(unit.types@.take(i + 1).drop_last() =~= types.take(i as int));
        i = i + 1;
    }
    assert(before.take(i as int) =~= before);
    assert(unit.types@.take(i as int) =~= unit.types@);
    let ghost nested = state::nested_subprograms(before);
    proof {
        lemma_codes_append(nested, old(unit).subprograms@, *flags);
    }
    fill(
        &mut unit.subprograms,
        flags,
        found,
        at,
        Ghost(start + codes(nested, *flags).len()),
    )
}

impl<'input> File<'input> {
    /// The addresses of the code of all subprograms whose calls are printed. There are none
    /// where code for the file's machine cannot be disassembled.
    pub fn codes(&self, flags: &Flags) -> (list: Vec<(u64, u64)>)
        ensures
            list@ == if self.machine == Machine::X86_64 {
                codes(state::file_subprograms(self.units@), *flags)
            } else {
                seq![]
            },
    {
        let mut list: Vec<(u64, u64)> = Vec::new();
        if !can_disassemble(self.machine) {
            return list;
        }
        let units = &self.units;
        let mut i: usize = 0;
        while i < units.len()
            invariant
                i <= units@.len(),
                list@ == codes(state::file_subprograms(units@.take(i as int)), *flags),
            decreases units.len() - i,
        {
            assert(units@.take(i + 1).drop_last() =~= units@.take(i as int));
            proof {
                lemma_codes_append(
                    state::file_subprograms(units@.take(i as int)),
                    state::unit_subprograms(units@[i as int]),
                    *flags,
                );
            }
            list_unit_codes(&units[i], flags, &mut list);
            i = i + 1;
        }
        assert(units@.take(i as int) =~= units@);
        list
    }

    /// Takes what was found to be called by the code at these addresses, in the same order.
    /// Where a list is missing nothing is called.
    pub fn store_calls(&mut self, flags: &Flags, found: &Vec<Vec<u64>>)
        ensures
            final(self).machine == old(self).machine,
            if old(self).machine == Machine::X86_64 {
                units_filled(old(self).units@, final(self).units@, *flags, found@, 0)
            } else {
                final(self).units == old(self).units
            },
    {
        if !can_disassemble(self.machine) {
            return;
        }
        let ghost before = old(self).units@;
        let mut at: usize = 0;
        let mut i: usize = 0;
        while i < self.units.len()
            invariant
                i <= self.units@.len(),
                before == old(self).units@,
                self.machine == old(self).machine,
                self.units@.len() == before.len(),
                forall|j: int| i <= j < before.len() ==> #[trigger] self.units@[j] == before[j],
                units_filled(
                    before.take(i as int),
                    self.units@.take(i as int),
                    *flags,
                    found@,
                    0,
                ),
                at == lists::at_most(
                    codes(state::file_subprograms(before.take(i as int)), *flags).len() as int,
                    found@.len() as int,
                ),
            decreases self.units.len() - i,
        {
            let ghost units = self.units@;
            let ghost earlier = state::file_subprograms(before.take(i as int));
            assert(before.take(i + 1).drop_last() =~= before.take(i as int));
            proof {
                lemma_codes_append(
                    earlier,
                    state::unit_subprograms(before[i as int]),
                    *flags,
                );
            }
            at = fill_unit(
                &mut self.units[i],
                flags,
                found,
                at,
                Ghost(codes(earlier, *flags).len() as int),
            );
            assert(self.units@.take(i + 1).drop_last() =~= units.take(i as int));
            i = i + 1;
        }
        assert(before.take(i as int) =~= before);
        assert(self.units@.take(i as int) =~= self.units@);
    }
}

proof fn lemma_codes_grow(subprograms: Seq<Subprogram>, flags: Flags, i: int)
    requires
        0 <= i < subprograms.len(),
        subprograms[i].shows_calls(flags),
    ensures
        codes(subprograms.take(i), flags).len() < codes(subprograms, flags).len(),
        codes(subprograms, flags)[codes(subprograms.take(i), flags).len() as int] == (
            subprograms[i].low_pc->0,
            subprograms[i].high_pc->0,
        ),
    decreases subprograms.len(),
{
    let rest = subprograms.drop_last();
    if i < rest.len() {
        assert(rest.take(i) =~= subprograms.take(i));
        lemma_codes_grow(rest, flags, i);
    } else {
        assert(rest =~= subprograms.take(i));
    }
}

/// Each subprogram whose calls are asked for has its place in the list of code, where its two
/// addresses stand; and it gets the calls that stand at the same place of what was found. All
/// else of it stays, and so does every other subprogram.
pub proof fn lemma_each_gets_its_calls<'input>(
    before: Seq<Subprogram<'input>>,
    after: Seq<Subprogram<'input>>,
    flags: Flags,
    found: Seq<Vec<u64>>,
    start: int,
    i: int,
)
    requires
        filled(before, after, flags, found, start),
        0 <= i < before.len(),
    ensures
        after.len() == before.len(),
        !before[i].shows_calls(flags) ==> after[i] == before[i],
        before[i].shows_calls(flags) ==> {
            let place = codes(before.take(i), flags).len() as int;
            &&& place < codes(before, flags).len()
            &&& codes(before, flags)[place] == (before[i].low_pc->0, before[i].high_pc->0)
            &&& 0 <= start + place < found.len() ==> after[i].calls@ == found[start + place]@
            &&& start + place >= found.len() ==> after[i].calls@.len() == 0
            &&& after[i] == (Subprogram { calls: after[i].calls, ..before[i] })
        },
    decreases before.len(),
{
    if before[i].shows_calls(flags) {
        lemma_codes_grow(before, flags, i);
    }
    let (rest, new) = (before.drop_last(), after.drop_last());
    if i < rest.len() {
        assert(rest[i] == before[i] && new[i] == after[i]);
        assert(rest.take(i) =~= before.take(i));
        lemma_each_gets_its_calls(rest, new, flags, found, start, i);
    } else {
        assert(rest =~= before.take(i));
    }
}

/// All code that is listed is that of a subprogram of the file that is looked at.
pub proof fn lemma_listed_code_is_looked_at(subprograms: Seq<Subprogram>, flags: Flags, k: int)
    requires
        0 <= k < codes(subprograms, flags).len(),
    ensures
        exists|i: int|
            0 <= i < subprograms.len() && (#[trigger] subprograms[i]).shows_calls(flags) && codes(
                subprograms,
                flags,
            )[k] == (subprograms[i].low_pc->0, subprograms[i].high_pc->0),
    decreases subprograms.len(),
{
    let rest = subprograms.drop_last();
    let last = subprograms[subprograms.len() - 1];
    if k < codes(rest, flags).len() {
        lemma_listed_code_is_looked_at(rest, flags, k);
        let i = choose|i: int|
            0 <= i < rest.len() && (#[trigger] rest[i]).shows_calls(flags) && codes(rest, flags)[k]
                == (rest[i].low_pc->0, rest[i].high_pc->0);
        assert(subprograms[i] == rest[i]);
    } else {
        assert(last.shows_calls(flags));
    }
}

/// The subprograms of the types of a unit get their calls first, and then those of the unit
/// itself; each list goes on where the one before it ended.
pub proof fn lemma_units_get_their_calls<'input>(
    before: Seq<Unit<'input>>,
    after: Seq<Unit<'input>>,
    flags: Flags,
    found: Seq<Vec<u64>>,
    start: int,
    i: int,
)
    requires
        units_filled(before, after, flags, found, start),
        0 <= i < before.len(),
    ensures
        after.len() == before.len(),
        ({
            let own = start + codes(state::file_subprograms(before.take(i)), flags).len() + codes(
                state::nested_subprograms(before[i].types@),
                flags,
            ).len();
            filled(before[i].subprograms@, after[i].subprograms@, flags, found, own)
        }),
        types_filled(
            before[i].types@,
            after[i].types@,
            flags,
            found,
            start + codes(state::file_subprograms(before.take(i)), flags).len(),
        ),
        after[i].variables == before[i].variables,
        after[i].name == before[i].name,
        after[i].types@.len() == before[i].types@.len(),
    decreases before.len(),
{
    let (rest, new) = (before.drop_last(), after.drop_last());
    if i < rest.len() {
        assert(rest[i] == before[i] && new[i] == after[i]);
        assert(rest.take(i) =~= before.take(i));
        lemma_units_get_their_calls(rest, new, flags, found, start, i);
    } else {
        assert(rest =~= before.take(i));
    }
}

/// Each structure, union and enumeration hands its own subprograms their calls, behind those of
/// the types in front of it, and keeps everything else; every other type stays as it is.
pub proof fn lemma_types_get_their_calls<'input>(
    before: Seq<Type<'input>>,
    after: Seq<Type<'input>>,
    flags: Flags,
    found: Seq<Vec<u64>>,
    start: int,
    i: int,
)
    requires
        types_filled(before, after, flags, found, start),
        0 <= i < before.len(),
    ensures
        after.len() == before.len(),
        after[i].offset == before[i].offset,
        ({
            let own = start + codes(state::nested_subprograms(before.take(i)), flags).len();
            match (before[i].kind, after[i].kind) {
                (TypeKind::Struct(was), TypeKind::Struct(new)) => new == (StructType {
                    subprograms: new.subprograms,
                    ..was
                }) && filled(was.subprograms@, new.subprograms@, flags, found, own),
                (TypeKind::Union(was), TypeKind::Union(new)) => new == (UnionType {
                    subprograms: new.subprograms,
                    ..was
                }) && filled(was.subprograms@, new.subprograms@, flags, found, own),
                (TypeKind::Enumeration(was), TypeKind::Enumeration(new)) => new
                    == (EnumerationType { subprograms: new.subprograms, ..was }) && filled(
                    was.subprograms@,
                    new.subprograms@,
                    flags,
                    found,
                    own,
                ),
                (was, new) => new == was,
            }
        }),
    decreases before.len(),
{
    let (rest, new) = (before.drop_last(), after.drop_last());
    if i < rest.len() {
        assert(rest[i] == before[i] && new[i] == after[i]);
        assert(rest.take(i) =~= before.take(i));
        lemma_types_get_their_calls(rest, new, flags, found, start, i);
    } else {
        assert(rest =~= before.take(i));
    }
}

} // verus!

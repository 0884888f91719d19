//! A whole file as text.

use crate::sort;
use crate::sort::sort;
use crate::state;
use crate::state::{File, Flags, PrintState};
use crate::text;
use crate::unit::Unit;
use vstd::prelude::*;

verus! {

/// Whether a unit is what another has become by sorting what it declares.
pub open spec fn unit_sorted<'input>(before: Unit<'input>, after: Unit<'input>) -> bool {
    &&& after.dir == before.dir
    &&& after.name == before.name
    &&& after.language == before.language
    &&& after.address_size == before.address_size
    &&& after.low_pc == before.low_pc
    &&& after.high_pc == before.high_pc
    &&& after.size == before.size
    &&& sort::sorted_from(before.types@, after.types@)
    &&& sort::sorted_from(before.subprograms@, after.subprograms@)
    &&& sort::sorted_from(before.variables@, after.variables@)
}

/// Whether each of the units is what the one at its place has become by sorting what it
/// declares.
pub open spec fn units_sorted<'input>(
    before: Seq<Unit<'input>>,
    after: Seq<Unit<'input>>,
) -> bool {
    &&& after.len() == before.len()
    &&& forall|i: int| 0 <= i < after.len() ==> unit_sorted(before[i], #[trigger] after[i])
}

fn sort_unit<'input>(unit: &mut Unit<'input>)
    ensures
        unit_sorted(*old(unit), *final(unit)),
{
    sort(&mut unit.types);
    sort(&mut unit.subprograms);
    sort(&mut unit.variables);
}

/// Sorts what each of the units declares.
pub fn sort_units<'input>(units: &mut Vec<Unit<'input>>)
    ensures
        units_sorted(old(units)@, final(units)@),
{
    let mut i: usize = 0;
    while i < units.len()
        invariant
            i <= units.len(),
            units@.len() == old(units)@.len(),
            forall|j: int| 0 <= j < i ==> unit_sorted(old(units)@[j], #[trigger] units@[j]),
            forall|j: int| i <= j < units@.len() ==> #[trigger] units@[j] == old(units)@[j],
        decreases units.len() - i,
    {
        sort_unit(&mut units[i]);
        i = i + 1;
    }
}

/// What is printed of the first units of a file.
pub open spec fn units_text<'input>(
    units: Seq<Unit<'input>>,
    flags: Flags,
    count: int,
) -> Seq<char>
    decreases count,
{
    if count <= 0 {
        seq![]
    } else {
        let unit = units[count - 1];
        units_text(units, flags, count - 1) + state::scope_of(units, flags, unit).unit(unit)
    }
}

fn print_units<'input>(units: &Vec<Unit<'input>>, flags: &Flags, w: &mut String)
    ensures
        final(w)@ == old(w)@ + units_text(units@, *flags, units@.len() as int),
{
    let mut state = PrintState::new(units, flags);
    let mut i: usize = 0;
    assert(w@ =~= old(w)@ + units_text(units@, *flags, 0));
    while i < units.len()
        invariant
            i <= units.len(),
            state@.flags == *flags,
            state@.all_subprograms == state::by_address(state::file_subprograms(units@)),
            w@ == old(w)@ + units_text(units@, *flags, i as int),
        decreases units.len() - i,
    {
        let unit = &units[i];
        let ghost before = w@;
        state.set_unit(unit);
        assert(state@ == state::scope_of(units@, *flags, *unit));
        unit.print(w, &state);
        proof {
            text::lemma_grouping(
                old(w)@,
                units_text(units@, *flags, i as int),
                state::scope_of(units@, *flags, *unit).unit(*unit),
            );
        }
        i = i + 1;
    }
}

/// Appends what is printed of a file. Where the flags say so, what its units declare is
/// sorted first.
pub fn print_file<'input>(file: &mut File<'input>, flags: &Flags, w: &mut String)
    ensures
        final(file).machine == old(file).machine,
        if flags.sort {
            units_sorted(old(file).units@, final(file).units@)
        } else {
            final(file).units@ == old(file).units@
        },
        final(w)@ == old(w)@ + units_text(
            final(file).units@,
            *flags,
            final(file).units@.len() as int,
        ),
{
    if flags.sort {
        sort_units(&mut file.units);
    }
    print_units(&file.units, flags, w);
}

/// After sorting a file, the types, the subprograms and the variables of each unit are sorted,
/// and nothing else of the units has changed.
pub proof fn lemma_all_declarations_are_sorted<'input>(
    before: Seq<Unit<'input>>,
    after: Seq<Unit<'input>>,
    i: int,
)
    requires
        units_sorted(before, after),
        0 <= i < before.len(),
    ensures
        after.len() == before.len(),
        sort::sorted_from(before[i].types@, after[i].types@),
        sort::sorted_from(before[i].subprograms@, after[i].subprograms@),
        sort::sorted_from(before[i].variables@, after[i].variables@),
        after[i].name == before[i].name,
        after[i].dir == before[i].dir,
        after[i].language == before[i].language,
        after[i].address_size == before[i].address_size,
        after[i].low_pc == before[i].low_pc,
        after[i].high_pc == before[i].high_pc,
        after[i].size == before[i].size,
{
    assert(unit_sorted(before[i], after[i]));
}

/// A file is printed unit by unit: the text for some units and one more is the text for those,
/// and then that for the one.
pub proof fn lemma_units_are_printed_in_order<'input>(
    units: Seq<Unit<'input>>,
    flags: Flags,
    count: int,
)
    requires
        0 <= count < units.len(),
    ensures
        units_text(units, flags, count + 1) == units_text(units, flags, count) + state::scope_of(
            units,
            flags,
            units[count],
        ).unit(units[count]),
        units_text(units, flags, 0) == Seq::<char>::empty(),
{
}

} // verus!

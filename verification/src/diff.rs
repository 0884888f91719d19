//! The difference between two files.

use crate::compare::cmp_unit;
use crate::file;
use crate::file::sort_units;
use crate::namespace::Name;
use crate::order;
use crate::order::{merge, Step};
use crate::sort;
use crate::sort::{sort, Ordered};
use crate::state::File;
use crate::text;
use crate::unit::Unit;
use std::cmp::Ordering;
use vstd::prelude::*;

verus! {

/// A byte of a name, written so that it can be told from other bytes on a screen.
pub open spec fn escaped(byte: u8) -> Seq<char> {
    if byte == 9 {
        "\\t"@
    } else if byte == 10 {
        "\\n"@
    } else if byte == 13 {
        "\\r"@
    } else if byte == 34 {
        "\\\""@
    } else if byte == 39 {
        "\\'"@
    } else if byte == 92 {
        "\\\\"@
    } else if 32 <= byte < 127 {
        seq![byte as char]
    } else {
        "\\x"@ + seq![text::digit(byte as int / 16), text::digit(byte as int % 16)]
    }
}

/// Bytes of a name, each escaped.
pub open spec fn escaped_bytes(bytes: Seq<u8>) -> Seq<char>
    decreases bytes.len(),
{
    if bytes.len() == 0 {
        seq![]
    } else {
        escaped_bytes(bytes.drop_last()) + escaped(bytes.last())
    }
}

/// A name in quotes, or the word for none.
pub open spec fn quoted(name: Name) -> Seq<char> {
    match name {
        Some(bytes) => "Some(\""@ + escaped_bytes(bytes@) + "\")"@,
        None => "None"@,
    }
}

/// Calls `String::push`, which appends a character.
pub assume_specification[ std::string::String::push ](s: &mut String, ch: char)
    ensures
        final(s)@ == old(s)@.push(ch),
;

fn write_escaped(w: &mut String, byte: u8)
    ensures
        final(w)@ == old(w)@ + escaped(byte),
{
    match byte {
        9 => w.append("\\t"),
        10 => w.append("\\n"),
        13 => w.append("\\r"),
        34 => w.append("\\\""),
        39 => w.append("\\'"),
        92 => w.append("\\\\"),
        32..=126 => {
            w.push(byte as char);
            assert(w@ =~= old(w)@ + escaped(byte));
        },
        _ => {
            w.append("\\x");
            text::write_digit(w, (byte / 16) as u64);
            text::write_digit(w, (byte % 16) as u64);
            assert(w@ =~= old(w)@ + escaped(byte));
        },
    }
}

fn write_quoted(w: &mut String, name: Name)
    ensures
        final(w)@ == old(w)@ + quoted(name),
{
    broadcast use text::group_text;

    match name {
        Some(bytes) => {
            w.append("Some(\"");
            let ghost before = w@;
            let mut i: usize = 0;
            while i < bytes.len()
                invariant
                    i <= bytes.len(),
                    w@ == before + escaped_bytes(bytes@.take(i as int)),
                decreases bytes.len() - i,
            {
                let ghost taken = bytes@.take(i + 1);
                assert(taken.drop_last() =~= bytes@.take(i as int));
                write_escaped(w, bytes[i]);
                i = i + 1;
                assert(w@ =~= before + escaped_bytes(taken));
            }
            assert(bytes@.take(i as int) =~= bytes@);
            w.append("\")");
        },
        None => w.append("None"),
    }
}

/// The line for a unit that stands in both files.
pub open spec fn both_line(unit: Unit) -> Seq<char> {
    "Both: "@ + quoted(unit.name) + " "@ + quoted(unit.name) + "\n"@
}

/// The line for a unit that stands in the first file only.
pub open spec fn first_line(unit: Unit) -> Seq<char> {
    "First only: "@ + quoted(unit.name) + "\n"@
}

/// The line for a unit that stands in the second file only.
pub open spec fn second_line(unit: Unit) -> Seq<char> {
    "Second only: "@ + quoted(unit.name) + "\n"@
}

/// Appends the line for a unit that stands in both files.
pub fn diff_unit(w: &mut String, unit: &Unit)
    ensures
        final(w)@ == old(w)@ + both_line(*unit),
{
    broadcast use text::group_text;

    w.append("Both: ");
    write_quoted(w, unit.name);
    w.append(" ");
    write_quoted(w, unit.name);
    w.append("\n");
}

fn write_first(w: &mut String, unit: &Unit)
    ensures
        final(w)@ == old(w)@ + first_line(*unit),
{
    broadcast use text::group_text;

    w.append("First only: ");
    write_quoted(w, unit.name);
    w.append("\n");
}

fn write_second(w: &mut String, unit: &Unit)
    ensures
        final(w)@ == old(w)@ + second_line(*unit),
{
    broadcast use text::group_text;

    w.append("Second only: ");
    write_quoted(w, unit.name);
    w.append("\n");
}

/// The difference between two lists of units that are sorted by name: a line for each pair
/// of units of one name, and for each unit that has no partner.
pub open spec fn difference<'a, 'input>(
    first: Seq<&'a Unit<'input>>,
    second: Seq<&'a Unit<'input>>,
) -> Seq<char>
    decreases first.len() + second.len(),
{
    if first.len() == 0 && second.len() == 0 {
        seq![]
    } else if second.len() == 0 {
        first_line(*first[0]) + difference(first.skip(1), second)
    } else if first.len() == 0 {
        second_line(*second[0]) + difference(first, second.skip(1))
    } else {
        match first[0].order(*second[0]) {
            Ordering::Equal => both_line(*first[0]) + difference(first.skip(1), second.skip(1)),
            Ordering::Less => first_line(*first[0]) + difference(first.skip(1), second),
            Ordering::Greater => second_line(*second[0]) + difference(first, second.skip(1)),
        }
    }
}

/// The line for a step through two lists of units.
pub open spec fn step_line(step: Step<&Unit>) -> Seq<char> {
    match step {
        Step::Both(unit, _) => both_line(*unit),
        Step::First(unit) => first_line(*unit),
        Step::Second(unit) => second_line(*unit),
    }
}

spec fn step_lines(steps: Seq<Step<&Unit>>) -> Seq<char>
    decreases steps.len(),
{
    if steps.len() == 0 {
        seq![]
    } else {
        step_line(steps[0]) + step_lines(steps.skip(1))
    }
}

proof fn lemma_steps_are_difference<'a, 'input, F: Fn(&'a Unit<'input>, &'a Unit<'input>) -> Ordering>(
    first: Seq<&'a Unit<'input>>,
    second: Seq<&'a Unit<'input>>,
    cmp: F,
    steps: Seq<Step<&'a Unit<'input>>>,
)
    requires
        order::merged(first, second, cmp, steps),
        forall|a: &'a Unit<'input>, b: &'a Unit<'input>, result: Ordering|
            cmp.ensures((a, b), result) ==> result == a.order(*b),
    ensures
        step_lines(steps) == difference(first, second),
    decreases steps.len(),
{
    if steps.len() > 0 {
        match steps[0] {
            Step::Both(..) => lemma_steps_are_difference(
                first.skip(1),
                second.skip(1),
                cmp,
                steps.skip(1),
            ),
            Step::First(_) => lemma_steps_are_difference(
                first.skip(1),
                second,
                cmp,
                steps.skip(1),
            ),
            Step::Second(_) => lemma_steps_are_difference(
                first,
                second.skip(1),
                cmp,
                steps.skip(1),
            ),
        }
    }
}

/// References to units.
pub open spec fn references<'a, 'input>(units: Seq<Unit<'input>>) -> Seq<&'a Unit<'input>> {
    Seq::new(units.len(), |i: int| &units[i])
}

fn refer<'a, 'input>(units: &'a Vec<Unit<'input>>) -> (list: Vec<&'a Unit<'input>>)
    ensures
        list@ == references(units@),
{
    let mut list: Vec<&'a Unit<'input>> = Vec::new();
    let mut i: usize = 0;
    while i < units.len()
        invariant
            i <= units@.len(),
            list@.len() == i,
            forall|j: int| 0 <= j < i ==> #[trigger] list@[j] == units@[j],
        decreases units@.len() - i,
    {
        list.push(&units[i]);
        i = i + 1;
    }
    assert(list@ =~= references(units@));
    list
}

fn write_difference<'input>(
    w: &mut String,
    first: &Vec<Unit<'input>>,
    second: &Vec<Unit<'input>>,
)
    ensures
        final(w)@ == old(w)@ + difference(references(first@), references(second@)),
{
    let list1 = refer(first);
    let list2 = refer(second);
    let compare = |a: &Unit<'input>, b: &Unit<'input>| -> (result: Ordering)
        ensures
            result == a.order(*b),
        { cmp_unit(a, b) };
    let steps = merge(list1.as_slice(), list2.as_slice(), compare);
    proof {
        lemma_steps_are_difference(list1@, list2@, compare, steps@);
    }
    let mut i: usize = 0;
    let ghost mut at: int = 0;
    assert(steps@.skip(0) =~= steps@);
    while i < steps.len()
        invariant
            at == i,
            i <= steps@.len(),
            w@ + step_lines(steps@.skip(at)) == old(w)@ + step_lines(steps@),
        decreases steps@.len() - i,
    {
        let ghost before = w@;
        match &steps[i] {
            Step::Both(unit, _) => diff_unit(w, unit),
            Step::First(unit) => write_first(w, unit),
            Step::Second(unit) => write_second(w, unit),
        }
        proof {
            let rest = steps@.skip(at);
            assert(rest[0] == steps@[at]);
            assert(rest.skip(1) =~= steps@.skip(at + 1));
            text::lemma_grouping(before, step_line(rest[0]), step_lines(rest.skip(1)));
            at = at + 1;
        }
        i = i + 1;
    }
    assert(steps@.skip(at) =~= seq![]);
    proof {
        text::lemma_nothing_added(w@);
    }
}

/// Whether a file is what another has become by sorting its units by name, and what they
/// declare.
pub open spec fn file_sorted<'input>(before: File<'input>, after: File<'input>) -> bool {
    &&& after.machine == before.machine
    &&& exists|units: Seq<Unit<'input>>| #[trigger]
        sort::sorted_from(before.units@, units) && file::units_sorted(units, after.units@)
}

fn sort_file<'input>(file: &mut File<'input>)
    ensures
        file_sorted(*old(file), *final(file)),
{
    sort(&mut file.units);
    let ghost units = file.units@;
    sort_units(&mut file.units);
    assert(sort::sorted_from(old(file).units@, units) && file::units_sorted(units, file.units@));
}

/// Appends the difference between two files. Both are sorted first.
pub fn diff_file<'a, 'b>(file1: &mut File<'a>, file2: &mut File<'b>, w: &mut String)
    ensures
        file_sorted(*old(file1), *final(file1)),
        file_sorted(*old(file2), *final(file2)),
        final(w)@ == old(w)@ + difference(
            references(final(file1).units@),
            references(final(file2).units@),
        ),
{
    sort_file(file1);
    sort_file(file2);
    write_difference(w, &file1.units, &file2.units);
}

/// A line for each of the units, as one that stands in both files.
pub open spec fn both_lines(units: Seq<&Unit>) -> Seq<char>
    decreases units.len(),
{
    if units.len() == 0 {
        seq![]
    } else {
        both_line(*units[0]) + both_lines(units.skip(1))
    }
}

/// Between a file and itself there is no difference: each unit stands in both.
pub proof fn lemma_no_difference_to_itself(units: Seq<&Unit>)
    ensures
        difference(units, units) == both_lines(units),
    decreases units.len(),
{
    if units.len() > 0 {
        order::lemma_name_order_is_total(units[0].name, units[0].name, None);
        lemma_no_difference_to_itself(units.skip(1));
    }
}

/// Whether two names are the same.
pub open spec fn same_name(a: Name, b: Name) -> bool {
    match (a, b) {
        (None, None) => true,
        (Some(a), Some(b)) => a@ == b@,
        _ => false,
    }
}

/// Whether each unit's name comes behind those of the units before it.
pub open spec fn ascending(units: Seq<&Unit>) -> bool {
    forall|i: int, j: int|
        0 <= i < j < units.len() ==> order::name_order(
            (#[trigger] units[i]).name,
            (#[trigger] units[j]).name,
        ) == Ordering::Less
}

proof fn lemma_names_apart(a: Name, b: Name, c: Name)
    ensures
        order::name_order(a, b) == Ordering::Less && order::name_order(b, c) == Ordering::Less
            ==> !same_name(a, c) && !same_name(c, a),
        order::name_order(a, b) == Ordering::Less ==> !same_name(a, b) && !same_name(b, a),
        order::name_order(a, b) == Ordering::Greater ==> order::name_order(b, a) == Ordering::Less,
        same_name(a, b) && order::name_order(a, c) == Ordering::Less ==> !same_name(b, c)
            && !same_name(c, b),
        order::name_order(a, b) == Ordering::Equal <==> same_name(a, b),
        same_name(a, b) <==> same_name(b, a),
{
    order::lemma_name_order_is_total(a, b, c);
    order::lemma_name_order_is_total(b, a, c);
    order::lemma_name_order_is_total(a, c, b);
    order::lemma_name_order_is_total(b, c, a);
}

/// Of two files whose units have different names each, every unit of the first has its line: as
/// one that stands in both where the second has a unit of the same name, and as one of the
/// first only where it has none.
pub proof fn lemma_each_first_unit_has_its_line<'a, 'input>(
    first: Seq<&'a Unit<'input>>,
    second: Seq<&'a Unit<'input>>,
    i: int,
)
    requires
        ascending(first),
        ascending(second),
        0 <= i < first.len(),
    ensures
        (exists|j: int| 0 <= j < second.len() && same_name(first[i].name, (#[trigger] second[j]).name))
            ==> text::part(both_line(*first[i]), difference(first, second)),
        (forall|j: int|
            0 <= j < second.len() ==> !same_name(first[i].name, (#[trigger] second[j]).name))
            ==> text::part(first_line(*first[i]), difference(first, second)),
    decreases first.len() + second.len(),
{
    broadcast use text::group_part;

    let (rest1, rest2) = (first.skip(1), second.skip(1));
    lemma_ascending_behind(first);
    if second.len() > 0 {
        lemma_ascending_behind(second);
    }
    let name = first[i].name;
    if i > 0 {
        assert(order::name_order(first[0].name, name) == Ordering::Less);
    }
    if second.len() == 0 {
        if i > 0 {
            lemma_each_first_unit_has_its_line(rest1, second, i - 1);
        }
    } else {
        let head = second[0].name;
        lemma_names_apart(first[0].name, head, name);
        lemma_names_apart(head, first[0].name, name);
        match first[0].order(*second[0]) {
            Ordering::Equal => {
                if i > 0 {
                    lemma_each_first_unit_has_its_line(rest1, rest2, i - 1);
                    assert(!same_name(name, head));
                    lemma_same_behind(name, second);
                }
            },
            Ordering::Less => {
                if i > 0 {
                    lemma_each_first_unit_has_its_line(rest1, second, i - 1);
                } else {
                    assert forall|j: int| 0 <= j < second.len() implies !same_name(
                        name,
                        (#[trigger] second[j]).name,
                    ) by {
                        lemma_names_apart(name, head, second[j].name);
                        if j > 0 {
                            assert(order::name_order(second[0].name, second[j].name)
                                == Ordering::Less);
                        }
                    }
                }
            },
            Ordering::Greater => {
                lemma_each_first_unit_has_its_line(first, rest2, i);
                assert(!same_name(name, head));
                lemma_same_behind(name, second);
            },
        }
    }
}

proof fn lemma_ascending_behind<'a, 'input>(units: Seq<&'a Unit<'input>>)
    requires
        ascending(units),
        units.len() > 0,
    ensures
        ascending(units.skip(1)),
        forall|k: int| 0 <= k < units.len() - 1 ==> #[trigger] units.skip(1)[k] == units[k + 1],
{
    let rest = units.skip(1);
    assert forall|a: int, b: int| 0 <= a < b < rest.len() implies order::name_order(
        (#[trigger] rest[a]).name,
        (#[trigger] rest[b]).name,
    ) == Ordering::Less by {
        assert(rest[a] == units[a + 1] && rest[b] == units[b + 1]);
    }
}

proof fn lemma_same_behind<'a, 'input>(name: Name, units: Seq<&'a Unit<'input>>)
    requires
        units.len() > 0,
        !same_name(name, units[0].name),
    ensures
        (exists|j: int| 0 <= j < units.len() && same_name(name, (#[trigger] units[j]).name)) <==> (
        exists|j: int|
            0 <= j < units.skip(1).len() && same_name(name, (#[trigger] units.skip(1)[j]).name)),
        (forall|j: int| 0 <= j < units.len() ==> !same_name(name, (#[trigger] units[j]).name))
            <==> (forall|j: int|
            0 <= j < units.skip(1).len() ==> !same_name(
                name,
                (#[trigger] units.skip(1)[j]).name,
            )),
{
    let rest = units.skip(1);
    assert forall|j: int| 0 < j < units.len() implies rest[j - 1] == #[trigger] units[j] by {}
    assert forall|j: int| 0 <= j < rest.len() implies #[trigger] rest[j] == units[j + 1] by {}
    if exists|j: int| 0 <= j < units.len() && same_name(name, (#[trigger] units[j]).name) {
        let j = choose|j: int|
            0 <= j < units.len() && same_name(name, (#[trigger] units[j]).name);
        assert(rest[j - 1] == units[j]);
    }
    if exists|j: int| 0 <= j < rest.len() && same_name(name, (#[trigger] rest[j]).name) {
        let j = choose|j: int| 0 <= j < rest.len() && same_name(name, (#[trigger] rest[j]).name);
        assert(rest[j] == units[j + 1]);
    }
}

/// Of two files whose units have different names each, every unit of the second whose name the
/// first has not has its line as one of the second only.
pub proof fn lemma_each_second_unit_has_its_line<'a, 'input>(
    first: Seq<&'a Unit<'input>>,
    second: Seq<&'a Unit<'input>>,
    i: int,
)
    requires
        ascending(first),
        ascending(second),
        0 <= i < second.len(),
        forall|j: int|
            0 <= j < first.len() ==> !same_name((#[trigger] first[j]).name, second[i].name),
    ensures
        text::part(second_line(*second[i]), difference(first, second)),
    decreases first.len() + second.len(),
{
    broadcast use text::group_part;

    let (rest1, rest2) = (first.skip(1), second.skip(1));
    lemma_ascending_behind(second);
    if first.len() > 0 {
        lemma_ascending_behind(first);
    }
    if first.len() == 0 {
        if i > 0 {
            lemma_each_second_unit_has_its_line(first, rest2, i - 1);
        }
    } else {
        lemma_names_apart(first[0].name, second[0].name, second[i].name);
        match first[0].order(*second[0]) {
            Ordering::Equal => {
                assert(same_name(first[0].name, second[0].name));
                assert(i > 0);
                lemma_each_second_unit_has_its_line(rest1, rest2, i - 1);
            },
            Ordering::Less => lemma_each_second_unit_has_its_line(rest1, second, i),
            Ordering::Greater => {
                if i > 0 {
                    lemma_each_second_unit_has_its_line(first, rest2, i - 1);
                }
            },
        }
    }
}

/// Names in quotes are written byte by byte: those of two lists of bytes are those of the first
/// and then those of the second, and a letter stands for itself.
pub proof fn lemma_bytes_are_escaped_in_order(a: Seq<u8>, b: Seq<u8>, byte: u8)
    ensures
        escaped_bytes(a + b) == escaped_bytes(a) + escaped_bytes(b),
        escaped_bytes(seq![byte]) == escaped(byte),
        32 <= byte < 127 && byte != 34 && byte != 39 && byte != 92 ==> escaped(byte) == seq![
            byte as char,
        ],
        byte >= 127 || (byte < 32 && byte != 9 && byte != 10 && byte != 13) ==> escaped(byte)
            == "\\x"@ + seq![text::digit(byte as int / 16), text::digit(byte as int % 16)],
    decreases b.len(),
{
    reveal_with_fuel(escaped_bytes, 2);
    assert(seq![byte].drop_last() =~= seq![]);
    assert(escaped_bytes(seq![byte]) =~= escaped(byte));
    if b.len() == 0 {
        assert(a + b =~= a);
    } else {
        assert((a + b).drop_last() =~= a + b.drop_last());
        lemma_bytes_are_escaped_in_order(a, b.drop_last(), byte);
    }
    assert(escaped_bytes(a + b) =~= escaped_bytes(a) + escaped_bytes(b));
}

/// After sorting two files for their difference, the units of each stand in ascending order of
/// their names.
pub proof fn lemma_files_are_sorted_by_name<'input>(
    before: File<'input>,
    after: File<'input>,
    i: int,
    j: int,
)
    requires
        file_sorted(before, after),
        0 <= i < j < after.units@.len(),
    ensures
        order::name_order(after.units@[i].name, after.units@[j].name) != Ordering::Greater,
        after.units@.len() == before.units@.len(),
{
    let units = choose|units: Seq<Unit<'input>>| #[trigger]
        sort::sorted_from(before.units@, units) && file::units_sorted(units, after.units@);
    assert(file::unit_sorted(units[i], after.units@[i]));
    assert(file::unit_sorted(units[j], after.units@[j]));
    crate::compare::lemma_sorted_units_ascend(before.units@, units, i, j);
    before.units@.to_multiset_ensures();
    units.to_multiset_ensures();
}

/// Bytes that would not be seen as they are have a backslash in front of what stands for them.
/// Names stand in quotes, and each line says first in which of the files the unit stands.
pub proof fn lemma_lines_name_their_units<'input>(unit: Unit<'input>)
    ensures
        escaped(9) == "\\t"@,
        escaped(10) == "\\n"@,
        escaped(13) == "\\r"@,
        escaped(34) == "\\\""@,
        escaped(39) == "\\'"@,
        escaped(92) == "\\\\"@,
        ({
            let name = match unit.name {
                Some(bytes) => "Some(\""@ + escaped_bytes(bytes@) + "\")"@,
                None => "None"@,
            };
            &&& both_line(unit) == "Both: "@ + name + " "@ + name + "\n"@
            &&& first_line(unit) == "First only: "@ + name + "\n"@
            &&& second_line(unit) == "Second only: "@ + name + "\n"@
        }),
{
}

} // verus!

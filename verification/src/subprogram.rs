//! Subprograms, what is inlined into them, and variables.

use crate::constants::{
    DW_AT_abstract_origin, DW_AT_declaration, DW_AT_high_pc, DW_AT_inline, DW_AT_linkage_name,
    DW_AT_low_pc, DW_AT_name, DW_AT_ranges, DW_AT_type, DW_INL_declared_inlined, DW_INL_inlined,
    DW_TAG_inlined_subroutine, DW_TAG_lexical_block, DW_TAG_variable,
};
use crate::entry::{Entry, Range};
use crate::lists;
use crate::namespace::{Name, Namespace};
use crate::types;
use crate::types::{parse_parameters, Parameter};
use std::rc::Rc;
use vstd::prelude::*;

verus! {

/// A function, a method or a procedure.
#[derive(Debug)]
pub struct Subprogram<'input> {
    /// The offset of its entry in the unit, by which other entries refer to it.
    pub offset: usize,
    pub namespace: Rc<Namespace<'input>>,
    pub name: Name<'input>,
    pub linkage_name: Name<'input>,
    pub low_pc: Option<u64>,
    pub high_pc: Option<u64>,
    pub size: Option<u64>,
    pub inline: bool,
    pub declaration: bool,
    pub parameters: Vec<Parameter<'input>>,
    pub return_type: Option<usize>,
    pub inlined_subroutines: Vec<InlinedSubroutine<'input>>,
    pub variables: Vec<Variable<'input>>,
    /// The addresses that its code calls. They are filled in by whoever can disassemble the
    /// code; until then there are none.
    pub calls: Vec<u64>,
}

/// A copy of a subprogram's code inside another subprogram.
#[derive(Debug)]
pub struct InlinedSubroutine<'input> {
    pub abstract_origin: Option<usize>,
    pub size: Option<u64>,
    pub inlined_subroutines: Vec<InlinedSubroutine<'input>>,
    pub variables: Vec<Variable<'input>>,
}

/// A variable.
#[derive(Debug)]
pub struct Variable<'input> {
    pub namespace: Rc<Namespace<'input>>,
    pub name: Name<'input>,
    pub linkage_name: Name<'input>,
    pub ty: Option<usize>,
    pub declaration: bool,
}

/// The entries with the given tag among these and in the lexical blocks among them, at any
/// depth of blocks, in their order in the file.
pub open spec fn found<'input>(entries: Seq<Entry<'input>>, tag: u64) -> Seq<Entry<'input>>
    decreases entries,
{
    if entries.len() == 0 {
        seq![]
    } else {
        let before = found(entries.drop_last(), tag);
        let last = entries.last();
        if last.tag == tag {
            before.push(last)
        } else if last.tag == DW_TAG_lexical_block {
            before + found(last.children@, tag)
        } else {
            before
        }
    }
}

/// The entries with the given tag in the lexical blocks among the given entries.
pub open spec fn found_in_blocks<'input>(entries: Seq<Entry<'input>>, tag: u64) -> Seq<
    Entry<'input>,
>
    decreases entries.len(),
{
    if entries.len() == 0 {
        seq![]
    } else {
        let before = found_in_blocks(entries.drop_last(), tag);
        if entries.last().tag == DW_TAG_lexical_block {
            before + found(entries.last().children@, tag)
        } else {
            before
        }
    }
}

/// The lengths of address ranges added up, around the end of the number range where they do
/// not fit.
pub open spec fn total_length(ranges: Seq<Range>) -> u64
    decreases ranges.len(),
{
    if ranges.len() == 0 {
        0
    } else {
        total_length(ranges.drop_last()).wrapping_add(
            ranges.last().end.wrapping_sub(ranges.last().begin),
        )
    }
}

fn add_lengths(ranges: &Vec<Range>) -> (total: u64)
    ensures
        total == total_length(ranges@),
{
    let mut total: u64 = 0;
    let mut i: usize = 0;
    while i < ranges.len()
        invariant
            i <= ranges.len(),
            total == total_length(ranges@.take(i as int)),
        decreases ranges.len() - i,
    {
        assert(ranges@.take(i + 1).drop_last() =~= ranges@.take(i as int));
        total = total.wrapping_add(ranges[i].end.wrapping_sub(ranges[i].begin));
        i = i + 1;
    }
    assert(ranges@.take(i as int) =~= ranges@);
    total
}

impl<'input> Variable<'input> {
    /// What an entry for a variable says.
    pub open spec fn parsed(entry: Entry<'input>, namespace: Rc<Namespace<'input>>) -> Variable<
        'input,
    > {
        Variable {
            namespace,
            name: entry.string(DW_AT_name),
            linkage_name: entry.string(DW_AT_linkage_name),
            ty: entry.unit_ref(DW_AT_type),
            declaration: entry.flag(DW_AT_declaration),
        }
    }

    /// Reads an entry for a variable.
    pub fn parse_dwarf(entry: &Entry<'input>, namespace: &Rc<Namespace<'input>>) -> (variable:
        Variable<'input>)
        ensures
            variable == Self::parsed(*entry, *namespace),
    {
        Variable {
            namespace: namespace.clone(),
            name: entry.get_string(DW_AT_name),
            linkage_name: entry.get_string(DW_AT_linkage_name),
            ty: entry.get_unit_ref(DW_AT_type),
            declaration: entry.get_flag(DW_AT_declaration),
        }
    }
}

/// The variables that entries describe.
pub open spec fn variables_parsed<'input>(
    entries: Seq<Entry<'input>>,
    namespace: Rc<Namespace<'input>>,
) -> Seq<Variable<'input>> {
    entries.map_values(|entry: Entry<'input>| Variable::parsed(entry, namespace))
}

impl<'input> InlinedSubroutine<'input> {
    /// The size that an entry for an inlined subroutine gives: that of its address ranges,
    /// or else the length, or else the distance between the two addresses.
    pub open spec fn size_parsed(entry: Entry<'input>) -> Option<u64> {
        if entry.ranges_ref(DW_AT_ranges) is Some {
            Some(total_length(entry.ranges@))
        } else if entry.length(DW_AT_high_pc) is Some {
            entry.length(DW_AT_high_pc)
        } else {
            match (entry.address(DW_AT_low_pc), entry.address(DW_AT_high_pc)) {
                (Some(low_pc), Some(high_pc)) => Some(high_pc.wrapping_sub(low_pc)),
                _ => None,
            }
        }
    }

    /// Whether this is what an entry for an inlined subroutine says. What is inlined into
    /// it may stand below it or in lexical blocks, its variables stand in lexical blocks.
    pub open spec fn parsed(self, entry: Entry<'input>, namespace: Rc<Namespace<'input>>) -> bool
        decreases self,
    {
        let inlined = found(entry.children@, DW_TAG_inlined_subroutine);
        &&& self.abstract_origin == entry.unit_ref(DW_AT_abstract_origin)
        &&& self.size == Self::size_parsed(entry)
        &&& self.inlined_subroutines@.len() == inlined.len()
        &&& forall|i: int|
            0 <= i < inlined.len() ==> (#[trigger] self.inlined_subroutines@[i]).parsed(
                inlined[i],
                namespace,
            )
        &&& self.variables@ == variables_parsed(
            found_in_blocks(entry.children@, DW_TAG_variable),
            namespace,
        )
    }

    /// Reads an entry for an inlined subroutine.
    pub fn parse_dwarf(entry: &Entry<'input>, namespace: &Rc<Namespace<'input>>) -> (subroutine:
        InlinedSubroutine<'input>)
        ensures
            subroutine.parsed(*entry, *namespace),
        decreases entry,
    {
        let low_pc = entry.get_address(DW_AT_low_pc);
        let high_pc = entry.get_address(DW_AT_high_pc);
        let length = entry.get_length(DW_AT_high_pc);
        let size = if entry.get_ranges_ref(DW_AT_ranges).is_some() {
            Some(add_lengths(&entry.ranges))
        } else if length.is_some() {
            length
        } else if let (Some(low_pc), Some(high_pc)) = (low_pc, high_pc) {
            Some(high_pc.wrapping_sub(low_pc))
        } else {
            None
        };
        let mut inlined_subroutines: Vec<InlinedSubroutine<'input>> = Vec::new();
        let mut variables: Vec<Variable<'input>> = Vec::new();
        let children = &entry.children;
        let mut i: usize = 0;
        while i < children.len()
            invariant
                i <= children.len(),
                children == &entry.children,
                inlined_parsed(
                    inlined_subroutines@,
                    found(children@.take(i as int), DW_TAG_inlined_subroutine),
                    *namespace,
                ),
                variables@ == variables_parsed(
                    found_in_blocks(children@.take(i as int), DW_TAG_variable),
                    *namespace,
                ),
            decreases children.len() - i,
        {
            assert(children@.take(i + 1).drop_last() =~= children@.take(i as int));
            let child = &children[i];
            let ghost before = inlined_subroutines@;
            let ghost entries = found(children@.take(i as int), DW_TAG_inlined_subroutine);
            if child.tag == DW_TAG_inlined_subroutine {
                inlined_subroutines.push(InlinedSubroutine::parse_dwarf(child, namespace));
            } else if child.tag == DW_TAG_lexical_block {
                parse_dwarf_lexical_block(
                    &mut inlined_subroutines,
                    &mut variables,
                    child,
                    namespace,
                );
                proof {
                    let added = found(child.children@, DW_TAG_inlined_subroutine);
                    assert(before.skip(0) =~= before);
                    assert(inlined_subroutines@.skip(0) =~= inlined_subroutines@);
                    lemma_inlined_append(
                        before,
                        inlined_subroutines@,
                        0,
                        entries,
                        added,
                        *namespace,
                    );
                }
            }
            i = i + 1;
            assert(variables@ =~= variables_parsed(
                found_in_blocks(children@.take(i as int), DW_TAG_variable),
                *namespace,
            ));
        }
        assert(children@.take(i as int) =~= children@);
        InlinedSubroutine {
            abstract_origin: entry.get_unit_ref(DW_AT_abstract_origin),
            size,
            inlined_subroutines,
            variables,
        }
    }
}

/// Whether these are the inlined subroutines that entries describe.
pub open spec fn inlined_parsed<'input>(
    subroutines: Seq<InlinedSubroutine<'input>>,
    entries: Seq<Entry<'input>>,
    namespace: Rc<Namespace<'input>>,
) -> bool {
    &&& subroutines.len() == entries.len()
    &&& forall|i: int|
        0 <= i < subroutines.len() ==> (#[trigger] subroutines[i]).parsed(entries[i], namespace)
}

proof fn lemma_inlined_append<'input>(
    before: Seq<InlinedSubroutine<'input>>,
    after: Seq<InlinedSubroutine<'input>>,
    start: int,
    entries: Seq<Entry<'input>>,
    added: Seq<Entry<'input>>,
    namespace: Rc<Namespace<'input>>,
)
    requires
        0 <= start <= before.len(),
        before.is_prefix_of(after),
        inlined_parsed(before.skip(start), entries, namespace),
        inlined_parsed(after.skip(before.len() as int), added, namespace),
    ensures
        inlined_parsed(after.skip(start), entries + added, namespace),
{
    lists::lemma_pairwise_append(
        before,
        after,
        start,
        entries,
        added,
        |subroutine: InlinedSubroutine<'input>, entry: Entry<'input>|
            subroutine.parsed(entry, namespace),
    );
}

/// Reads a lexical block: adds the inlined subroutines and the variables in it and in the
/// blocks inside it to the lists.
pub fn parse_dwarf_lexical_block<'input>(
    inlined_subroutines: &mut Vec<InlinedSubroutine<'input>>,
    variables: &mut Vec<Variable<'input>>,
    entry: &Entry<'input>,
    namespace: &Rc<Namespace<'input>>,
)
    ensures
        old(inlined_subroutines)@.is_prefix_of(final(inlined_subroutines)@),
        inlined_parsed(
            final(inlined_subroutines)@.skip(old(inlined_subroutines)@.len() as int),
            found(entry.children@, DW_TAG_inlined_subroutine),
            *namespace,
        ),
        final(variables)@ == old(variables)@ + variables_parsed(
            found(entry.children@, DW_TAG_variable),
            *namespace,
        ),
    decreases entry,
{
    let children = &entry.children;
    let mut i: usize = 0;
    while i < children.len()
        invariant
            i <= children.len(),
            children == &entry.children,
            old(inlined_subroutines)@.is_prefix_of(inlined_subroutines@),
            inlined_parsed(
                inlined_subroutines@.skip(old(inlined_subroutines)@.len() as int),
                found(children@.take(i as int), DW_TAG_inlined_subroutine),
                *namespace,
            ),
            variables@ == old(variables)@ + variables_parsed(
                found(children@.take(i as int), DW_TAG_variable),
                *namespace,
            ),
        decreases children.len() - i,
    {
        assert(children@.take(i + 1).drop_last() =~= children@.take(i as int));
        let child = &children[i];
        let ghost before = inlined_subroutines@;
        let ghost entries = found(children@.take(i as int), DW_TAG_inlined_subroutine);
        if child.tag == DW_TAG_inlined_subroutine {
            inlined_subroutines.push(InlinedSubroutine::parse_dwarf(child, namespace));
            assert(inlined_subroutines@.skip(before.len() as int) =~= seq![
                inlined_subroutines@.last(),
            ]);
            proof {
                lemma_inlined_append(
                    before,
                    inlined_subroutines@,
                    old(inlined_subroutines)@.len() as int,
                    entries,
                    seq![*child],
                    *namespace,
                );
                assert(entries + seq![*child] =~= entries.push(*child));
            }
        } else if child.tag == DW_TAG_variable {
            variables.push(Variable::parse_dwarf(child, namespace));
        } else if child.tag == DW_TAG_lexical_block {
            parse_dwarf_lexical_block(inlined_subroutines, variables, child, namespace);
            proof {
                lemma_inlined_append(
                    before,
                    inlined_subroutines@,
                    old(inlined_subroutines)@.len() as int,
                    entries,
                    found(child.children@, DW_TAG_inlined_subroutine),
                    *namespace,
                );
            }
        }
        i = i + 1;
        assert(variables@ =~= old(variables)@ + variables_parsed(
            found(children@.take(i as int), DW_TAG_variable),
            *namespace,
        ));
    }
    assert(children@.take(i as int) =~= children@);
}

impl<'input> Subprogram<'input> {
    /// Whether this is what an entry for a subprogram says. Of the size and the address
    /// behind the last instruction the one that the entry does not give follows from the
    /// other, where the first address is known.
    pub open spec fn parsed(self, entry: Entry<'input>, namespace: Rc<Namespace<'input>>) -> bool {
        let low_pc = entry.address(DW_AT_low_pc);
        let high_pc = entry.address(DW_AT_high_pc);
        let length = entry.length(DW_AT_high_pc);
        &&& self.offset == entry.offset
        &&& self.namespace == namespace
        &&& self.name == entry.string(DW_AT_name)
        &&& self.linkage_name == entry.string(DW_AT_linkage_name)
        &&& self.low_pc == low_pc
        &&& self.high_pc == match (low_pc, high_pc, length) {
            (Some(low_pc), None, Some(length)) => if low_pc + length <= u64::MAX {
                Some((low_pc + length) as u64)
            } else {
                None
            },
            _ => high_pc,
        }
        &&& self.size == match (low_pc, high_pc) {
            (Some(low_pc), Some(high_pc)) => if low_pc <= high_pc {
                Some((high_pc - low_pc) as u64)
            } else {
                None
            },
            _ => length,
        }
        &&& self.inline == match entry.inlining(DW_AT_inline) {
            Some(inlining) => inlining == DW_INL_inlined || inlining == DW_INL_declared_inlined,
            None => false,
        }
        &&& self.declaration == entry.flag(DW_AT_declaration)
        &&& self.parameters@ == types::parameters_parsed(entry.children@)
        &&& self.return_type == entry.unit_ref(DW_AT_type)
        &&& inlined_parsed(
            self.inlined_subroutines@,
            found(entry.children@, DW_TAG_inlined_subroutine),
            namespace,
        )
        &&& self.variables@ == variables_parsed(found(entry.children@, DW_TAG_variable), namespace)
        &&& self.calls@ == Seq::<u64>::empty()
    }

    /// Reads an entry for a subprogram.
    pub fn parse_dwarf(entry: &Entry<'input>, namespace: &Rc<Namespace<'input>>) -> (subprogram:
        Subprogram<'input>)
        ensures
            subprogram.parsed(*entry, *namespace),
    {
        let low_pc = entry.get_address(DW_AT_low_pc);
        let mut high_pc = entry.get_address(DW_AT_high_pc);
        let mut size = entry.get_length(DW_AT_high_pc);
        if let Some(low_pc) = low_pc {
            if let Some(high_pc) = high_pc {
                size = high_pc.checked_sub(low_pc);
            } else if let Some(size) = size {
                high_pc = low_pc.checked_add(size);
            }
        }
        let inline = match entry.get_inlining(DW_AT_inline) {
            Some(inlining) => inlining == DW_INL_inlined || inlining == DW_INL_declared_inlined,
            None => false,
        };
        let mut inlined_subroutines: Vec<InlinedSubroutine<'input>> = Vec::new();
        let mut variables: Vec<Variable<'input>> = Vec::new();
        parse_dwarf_lexical_block(&mut inlined_subroutines, &mut variables, entry, namespace);
        assert(inlined_subroutines@.skip(0) =~= inlined_subroutines@);
        assert(variables@ =~= variables_parsed(
            found(entry.children@, DW_TAG_variable),
            *namespace,
        ));
        Subprogram {
            offset: entry.offset,
            namespace: namespace.clone(),
            name: entry.get_string(DW_AT_name),
            linkage_name: entry.get_string(DW_AT_linkage_name),
            low_pc,
            high_pc,
            size,
            inline,
            declaration: entry.get_flag(DW_AT_declaration),
            parameters: parse_parameters(&entry.children),
            return_type: entry.get_unit_ref(DW_AT_type),
            inlined_subroutines,
            variables,
            calls: Vec::new(),
        }
    }
}

/// Where both addresses and the size of a subprogram are known after reading, the size is
/// the distance between the addresses.
pub proof fn lemma_size_is_distance<'input>(
    subprogram: Subprogram<'input>,
    entry: Entry<'input>,
    namespace: Rc<Namespace<'input>>,
)
    requires
        subprogram.parsed(entry, namespace),
    ensures
        match (subprogram.low_pc, subprogram.high_pc, subprogram.size) {
            (Some(low_pc), Some(high_pc), Some(size)) => high_pc == low_pc + size,
            _ => true,
        },
{
}

} // verus!

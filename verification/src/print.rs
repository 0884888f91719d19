//! What a unit declares, as text.

use crate::members;
use crate::members::write_bracketed;
use crate::names;
use crate::names::write_qualified;
use crate::namespace;
use crate::namespace::{write_lossy, write_name, Name};
use crate::state::{PrintState, Scope};
use crate::subprogram::{InlinedSubroutine, Subprogram, Variable};
use crate::text;
use crate::text::{write_bits, write_decimal, write_hexadecimal, write_signed, write_tabs};
use crate::types::{
    Enumerator, EnumerationType, Parameter, StructType, Type, TypeDef, TypeKind, UnionType,
};
use crate::unit::Unit;
use std::collections::HashSet;
use vstd::prelude::*;

verus! {

broadcast use text::group_text;

/// A line with the name that the linker knows something by, where there is one.
pub open spec fn linkage_line(name: Name) -> Seq<char> {
    match name {
        Some(name) => "\tlinkage name: "@ + namespace::lossy(name@) + "\n"@,
        None => seq![],
    }
}

fn write_linkage_line(w: &mut String, name: Name)
    ensures
        final(w)@ == old(w)@ + linkage_line(name),
{
    if let Some(name) = name {
        w.append("\tlinkage name: ");
        write_lossy(w, name);
        w.append("\n");
    }
}

/// A line with a size in bytes, where it is known.
pub open spec fn size_line(size: Option<u64>) -> Seq<char> {
    match size {
        Some(size) => "\tsize: "@ + text::decimal(size as nat) + "\n"@,
        None => seq![],
    }
}

fn write_size_line(w: &mut String, size: Option<u64>)
    ensures
        final(w)@ == old(w)@ + size_line(size),
{
    if let Some(size) = size {
        w.append("\tsize: ");
        write_decimal(w, size);
        w.append("\n");
    }
}

/// A line with a size in bits, where it is known.
pub open spec fn bit_size_line(size: Option<u64>) -> Seq<char> {
    match size {
        Some(size) => "\tsize: "@ + text::bits(size as nat) + "\n"@,
        None => seq![],
    }
}

fn write_bit_size_line(w: &mut String, size: Option<u64>)
    ensures
        final(w)@ == old(w)@ + bit_size_line(size),
{
    if let Some(size) = size {
        w.append("\tsize: ");
        write_bits(w, size);
        w.append("\n");
    }
}

/// A line for a declaration.
pub open spec fn declaration_line(declaration: bool) -> Seq<char> {
    if declaration {
        "\tdeclaration: yes\n"@
    } else {
        seq![]
    }
}

fn write_declaration_line(w: &mut String, declaration: bool)
    ensures
        final(w)@ == old(w)@ + declaration_line(declaration),
{
    if declaration {
        w.append("\tdeclaration: yes\n");
    }
}

impl<'a, 'input> Scope<'a, 'input> where 'input: 'a {
    /// An inlined subroutine, and below it what is inlined into it, as deep as the flags
    /// say.
    pub open spec fn inlined_subroutine(
        self,
        subroutine: InlinedSubroutine<'input>,
        depth: nat,
    ) -> Seq<char>
        decreases subroutine,
    {
        text::tabs(depth) + "\t"@ + (match subroutine.size {
            Some(size) => "["@ + text::decimal(size as nat) + "]"@,
            None => "[??]"@,
        }) + "\t"@ + (match self.subprogram_at(subroutine.abstract_origin) {
            Some(subprogram) => subprogram.text(),
            None => "<anon>"@,
        }) + "\n"@ + (if self.flags.inline_depth > depth {
            self.inlined_subroutines(subroutine.inlined_subroutines@, depth + 1)
        } else {
            seq![]
        })
    }

    /// Inlined subroutines one after the other.
    pub open spec fn inlined_subroutines(
        self,
        subroutines: Seq<InlinedSubroutine<'input>>,
        depth: nat,
    ) -> Seq<char>
        decreases subroutines,
    {
        if subroutines.len() == 0 {
            seq![]
        } else {
            self.inlined_subroutines(subroutines.drop_last(), depth) + self.inlined_subroutine(
                subroutines.last(),
                depth,
            )
        }
    }

    /// The lines with the addresses that a subprogram takes up.
    pub open spec fn address_line(self, low_pc: Option<u64>, high_pc: Option<u64>) -> Seq<char> {
        match (low_pc, high_pc) {
            (Some(low_pc), Some(high_pc)) => if high_pc > low_pc {
                "\taddress: 0x"@ + text::hexadecimal(low_pc as nat) + "-0x"@ + text::hexadecimal(
                    (high_pc - 1) as nat,
                ) + "\n"@
            } else {
                "\taddress: 0x"@ + text::hexadecimal(low_pc as nat) + "\n"@
            },
            _ => seq![],
        }
    }

    /// The lines with the type that a subprogram returns.
    pub open spec fn return_lines(self, return_type: Option<usize>) -> Seq<char> {
        match return_type {
            Some(offset) => "\treturn type:\n"@ + "\t\t"@ + members::bracketed(
                self.size_at(Some(offset)),
            ) + "\t"@ + self.name_at(offset) + "\n"@,
            None => seq![],
        }
    }

    /// The line for a parameter.
    pub open spec fn parameter_line(self, parameter: Parameter<'input>) -> Seq<char> {
        "\t\t"@ + members::bracketed(self.size_at(parameter.ty)) + "\t"@ + self.parameter_name(
            parameter,
        ) + "\n"@
    }

    /// The lines for parameters.
    pub open spec fn parameter_lines(self, parameters: Seq<Parameter<'input>>) -> Seq<char>
        decreases parameters.len(),
    {
        if parameters.len() == 0 {
            seq![]
        } else {
            self.parameter_lines(parameters.drop_last()) + self.parameter_line(parameters.last())
        }
    }

    /// The line for a call: the address, and the subprogram that starts there.
    pub open spec fn call_line(self, call: u64) -> Seq<char> {
        "\t\t0x"@ + text::hexadecimal(call as nat) + (if self.all_subprograms.contains_key(call) {
            " "@ + self.all_subprograms[call].text()
        } else {
            seq![]
        }) + "\n"@
    }

    /// The lines for calls.
    pub open spec fn call_lines(self, calls: Seq<u64>) -> Seq<char>
        decreases calls.len(),
    {
        if calls.len() == 0 {
            seq![]
        } else {
            self.call_lines(calls.drop_last()) + self.call_line(calls.last())
        }
    }

    /// What a subprogram is called and where its code is.
    pub open spec fn subprogram_head(self, subprogram: Subprogram<'input>) -> Seq<char> {
        "fn "@ + subprogram.text() + "\n"@ + linkage_line(subprogram.linkage_name)
            + self.address_line(subprogram.low_pc, subprogram.high_pc) + size_line(subprogram.size)
            + (if subprogram.inline {
            "\tinline: yes\n"@
        } else {
            seq![]
        }) + declaration_line(subprogram.declaration)
    }

    /// What a subprogram takes and returns, and what its code consists of.
    pub open spec fn subprogram_body(self, subprogram: Subprogram<'input>) -> Seq<char> {
        self.return_lines(subprogram.return_type) + (if subprogram.parameters@.len() > 0 {
            "\tparameters:\n"@ + self.parameter_lines(subprogram.parameters@)
        } else {
            seq![]
        }) + (if self.flags.inline_depth > 0 && subprogram.inlined_subroutines@.len() > 0 {
            "\tinlined subroutines:\n"@ + self.inlined_subroutines(
                subprogram.inlined_subroutines@,
                1,
            )
        } else {
            seq![]
        }) + (if self.flags.calls && subprogram.has_code() && subprogram.calls@.len() > 0 {
            "\tcalls:\n"@ + self.call_lines(subprogram.calls@)
        } else {
            seq![]
        })
    }

    /// What is printed of a subprogram.
    pub open spec fn subprogram(self, subprogram: Subprogram<'input>) -> Seq<char> {
        if self.flags.passes(subprogram.name, *subprogram.namespace) {
            self.subprogram_head(subprogram) + self.subprogram_body(subprogram) + "\n"@
        } else {
            seq![]
        }
    }

    /// Subprograms one after the other.
    pub open spec fn subprograms(self, subprograms: Seq<Subprogram<'input>>) -> Seq<char>
        decreases subprograms.len(),
    {
        if subprograms.len() == 0 {
            seq![]
        } else {
            self.subprograms(subprograms.drop_last()) + self.subprogram(subprograms.last())
        }
    }

    /// What is printed of a variable.
    pub open spec fn variable(self, variable: Variable<'input>) -> Seq<char> {
        if self.flags.passes(variable.name, *variable.namespace) {
            "var "@ + variable.text() + ": "@ + (match variable.ty {
                Some(offset) => self.name_at(offset),
                None => "<anon>"@,
            }) + "\n"@ + linkage_line(variable.linkage_name) + bit_size_line(
                self.size_at(variable.ty),
            ) + declaration_line(variable.declaration) + "\n"@
        } else {
            seq![]
        }
    }

    /// Variables one after the other.
    pub open spec fn variables(self, variables: Seq<Variable<'input>>) -> Seq<char>
        decreases variables.len(),
    {
        if variables.len() == 0 {
            seq![]
        } else {
            self.variables(variables.drop_last()) + self.variable(variables.last())
        }
    }
}

impl<'input> Subprogram<'input> {
    /// The name of a subprogram.
    pub open spec fn text(self) -> Seq<char> {
        names::qualified(*self.namespace, self.name, "<anon>"@)
    }

    /// Whether the subprogram has code that can be looked at for calls: both addresses are
    /// known, and the first is not zero.
    pub open spec fn has_code(self) -> bool {
        self.low_pc is Some && self.high_pc is Some && self.low_pc != Some(0u64)
    }

    /// The subprogram at an offset of the current unit.
    pub fn from_offset<'a>(state: &PrintState<'a, 'input>, offset: usize) -> (subprogram: Option<
        &'a Subprogram<'input>,
    >)
        ensures
            subprogram == state@.subprogram_at(Some(offset)),
    {
        broadcast use vstd::std_specs::hash::group_hash_axioms;

        match state.subprograms.get(&offset) {
            Some(subprogram) => Some(*subprogram),
            None => None,
        }
    }

    /// Appends the name.
    pub fn print_name(&self, w: &mut String)
        ensures
            final(w)@ == old(w)@ + self.text(),
    {
        write_qualified(w, &self.namespace, self.name, "<anon>");
    }

    fn print_addresses<'a>(&self, w: &mut String, state: &PrintState<'a, 'input>)
        ensures
            final(w)@ == old(w)@ + state@.address_line(self.low_pc, self.high_pc),
    {
        if let (Some(low_pc), Some(high_pc)) = (self.low_pc, self.high_pc) {
            w.append("\taddress: 0x");
            write_hexadecimal(w, low_pc);
            if high_pc > low_pc {
                w.append("-0x");
                write_hexadecimal(w, high_pc - 1);
            }
            w.append("\n");
        }
    }

    fn print_return_type<'a>(&self, w: &mut String, state: &PrintState<'a, 'input>)
        requires
            state.wf(),
        ensures
            final(w)@ == old(w)@ + state@.return_lines(self.return_type),
    {
        if let Some(offset) = self.return_type {
            w.append("\treturn type:\n");
            w.append("\t\t");
            let size = Type::offset_bit_size(state, Some(offset));
            write_bracketed(w, size);
            w.append("\t");
            Type::print_offset_name(w, state, offset);
            w.append("\n");
        }
    }

    fn print_parameters<'a>(&self, w: &mut String, state: &PrintState<'a, 'input>)
        requires
            state.wf(),
        ensures
            final(w)@ == old(w)@ + state@.parameter_lines(self.parameters@),
    {
        let mut i: usize = 0;
        while i < self.parameters.len()
            invariant
                i <= self.parameters.len(),
                state.wf(),
                w@ == old(w)@ + state@.parameter_lines(self.parameters@.take(i as int)),
            decreases self.parameters.len() - i,
        {
            let ghost taken = self.parameters@.take(i + 1);
            assert(taken.drop_last() =~= self.parameters@.take(i as int));
            print_parameter(&self.parameters[i], w, state);
            i = i + 1;
        }
        assert(self.parameters@.take(i as int) =~= self.parameters@);
    }

    fn print_calls<'a>(&self, w: &mut String, state: &PrintState<'a, 'input>)
        ensures
            final(w)@ == old(w)@ + state@.call_lines(self.calls@),
    {
        let mut i: usize = 0;
        while i < self.calls.len()
            invariant
                i <= self.calls.len(),
                w@ == old(w)@ + state@.call_lines(self.calls@.take(i as int)),
            decreases self.calls.len() - i,
        {
            let ghost taken = self.calls@.take(i + 1);
            assert(taken.drop_last() =~= self.calls@.take(i as int));
            print_call(self.calls[i], w, state);
            i = i + 1;
        }
        assert(self.calls@.take(i as int) =~= self.calls@);
    }

    fn print_head<'a>(&self, w: &mut String, state: &PrintState<'a, 'input>)
        ensures
            final(w)@ == old(w)@ + state@.subprogram_head(*self),
    {
        w.append("fn ");
        self.print_name(w);
        w.append("\n");
        write_linkage_line(w, self.linkage_name);
        self.print_addresses(w, state);
        write_size_line(w, self.size);
        if self.inline {
            w.append("\tinline: yes\n");
        }
        write_declaration_line(w, self.declaration);
    }

    fn print_body<'a>(&self, w: &mut String, state: &PrintState<'a, 'input>)
        requires
            state.wf(),
        ensures
            final(w)@ == old(w)@ + state@.subprogram_body(*self),
    {
        self.print_return_type(w, state);
        if self.parameters.len() > 0 {
            w.append("\tparameters:\n");
            self.print_parameters(w, state);
        }
        if state.flags.inline_depth > 0 && self.inlined_subroutines.len() > 0 {
            w.append("\tinlined subroutines:\n");
            print_inlined_subroutines(&self.inlined_subroutines, w, state, 1);
        }
        if let (Some(low_pc), Some(_)) = (self.low_pc, self.high_pc) {
            if low_pc != 0 && state.flags.calls && self.calls.len() > 0 {
                w.append("\tcalls:\n");
                self.print_calls(w, state);
            }
        }
    }

    /// Appends what is printed of the subprogram.
    pub fn print<'a>(&self, w: &mut String, state: &PrintState<'a, 'input>)
        requires
            state.wf(),
        ensures
            final(w)@ == old(w)@ + state@.subprogram(*self),
    {
        if state.filter(self.name, &self.namespace) {
            self.print_head(w, state);
            self.print_body(w, state);
            w.append("\n");
        }
    }
}

fn print_parameter<'a, 'input>(
    parameter: &Parameter<'input>,
    w: &mut String,
    state: &PrintState<'a, 'input>,
)
    requires
        state.wf(),
    ensures
        final(w)@ == old(w)@ + state@.parameter_line(*parameter),
{
    w.append("\t\t");
    let size = parameter.bit_size(state);
    write_bracketed(w, size);
    w.append("\t");
    parameter.print(w, state);
    w.append("\n");
}

fn print_call<'a, 'input>(call: u64, w: &mut String, state: &PrintState<'a, 'input>)
    ensures
        final(w)@ == old(w)@ + state@.call_line(call),
{
    broadcast use vstd::std_specs::hash::group_hash_axioms;

    w.append("\t\t0x");
    write_hexadecimal(w, call);
    if let Some(subprogram) = state.all_subprograms.get(&call) {
        w.append(" ");
        subprogram.print_name(w);
    }
    w.append("\n");
}

fn print_subprograms<'a, 'input>(
    subprograms: &Vec<Subprogram<'input>>,
    w: &mut String,
    state: &PrintState<'a, 'input>,
)
    requires
        state.wf(),
    ensures
        final(w)@ == old(w)@ + state@.subprograms(subprograms@),
{
    let mut i: usize = 0;
    while i < subprograms.len()
        invariant
            i <= subprograms.len(),
            state.wf(),
            w@ == old(w)@ + state@.subprograms(subprograms@.take(i as int)),
        decreases subprograms.len() - i,
    {
        let ghost taken = subprograms@.take(i + 1);
        assert(taken.drop_last() =~= subprograms@.take(i as int));
        subprograms[i].print(w, state);
        i = i + 1;
    }
    assert(subprograms@.take(i as int) =~= subprograms@);
}

fn print_inlined_subroutines<'a, 'input>(
    subroutines: &Vec<InlinedSubroutine<'input>>,
    w: &mut String,
    state: &PrintState<'a, 'input>,
    depth: usize,
)
    ensures
        final(w)@ == old(w)@ + state@.inlined_subroutines(subroutines@, depth as nat),
    decreases subroutines,
{
    let mut i: usize = 0;
    while i < subroutines.len()
        invariant
            i <= subroutines.len(),
            w@ == old(w)@ + state@.inlined_subroutines(subroutines@.take(i as int), depth as nat),
        decreases subroutines.len() - i,
    {
        let ghost taken = subroutines@.take(i + 1);
        assert(taken.drop_last() =~= subroutines@.take(i as int));
        subroutines[i].print(w, state, depth);
        i = i + 1;
    }
    assert(subroutines@.take(i as int) =~= subroutines@);
}

impl<'input> InlinedSubroutine<'input> {
    /// Appends the inlined subroutine, and below it what is inlined into it, as deep as the
    /// flags say.
    pub fn print<'a>(&self, w: &mut String, state: &PrintState<'a, 'input>, depth: usize)
        ensures
            final(w)@ == old(w)@ + state@.inlined_subroutine(*self, depth as nat),
        decreases self,
    {
        write_tabs(w, depth);
        w.append("\t");
        match self.size {
            Some(size) => {
                w.append("[");
                write_decimal(w, size);
                w.append("]");
            },
            None => w.append("[??]"),
        }
        w.append("\t");
        let origin = match self.abstract_origin {
            Some(offset) => Subprogram::from_offset(state, offset),
            None => None,
        };
        match origin {
            Some(subprogram) => subprogram.print_name(w),
            None => w.append("<anon>"),
        }
        w.append("\n");
        if state.flags.inline_depth > depth {
            print_inlined_subroutines(&self.inlined_subroutines, w, state, depth + 1);
        }
    }
}

impl<'input> Variable<'input> {
    /// The name of a variable.
    pub open spec fn text(self) -> Seq<char> {
        names::qualified(*self.namespace, self.name, "<anon>"@)
    }

    /// Appends the name.
    pub fn print_name(&self, w: &mut String)
        ensures
            final(w)@ == old(w)@ + self.text(),
    {
        write_qualified(w, &self.namespace, self.name, "<anon>");
    }

    /// Appends what is printed of the variable.
    pub fn print<'a>(&self, w: &mut String, state: &PrintState<'a, 'input>)
        requires
            state.wf(),
        ensures
            final(w)@ == old(w)@ + state@.variable(*self),
    {
        if !state.filter(self.name, &self.namespace) {
            return;
        }
        w.append("var ");
        self.print_name(w);
        w.append(": ");
        match self.ty {
            Some(offset) => Type::print_offset_name(w, state, offset),
            None => w.append("<anon>"),
        }
        w.append("\n");
        write_linkage_line(w, self.linkage_name);
        let size = self.bit_size(state);
        write_bit_size_line(w, size);
        write_declaration_line(w, self.declaration);
        w.append("\n");
    }
}

fn print_variables<'a, 'input>(
    variables: &Vec<Variable<'input>>,
    w: &mut String,
    state: &PrintState<'a, 'input>,
)
    requires
        state.wf(),
    ensures
        final(w)@ == old(w)@ + state@.variables(variables@),
{
    let mut i: usize = 0;
    while i < variables.len()
        invariant
            i <= variables.len(),
            state.wf(),
            w@ == old(w)@ + state@.variables(variables@.take(i as int)),
        decreases variables.len() - i,
    {
        let ghost taken = variables@.take(i + 1);
        assert(taken.drop_last() =~= variables@.take(i as int));
        variables[i].print(w, state);
        i = i + 1;
    }
    assert(variables@.take(i as int) =~= variables@);
}

impl<'input> Enumerator<'input> {
    /// The name of a value of an enumeration.
    pub open spec fn text(self) -> Seq<char> {
        namespace::name_text(self.name, "<anon>"@)
    }

    /// The line for a value of an enumeration.
    pub open spec fn line(self) -> Seq<char> {
        "\t\t"@ + self.text() + (match self.value {
            Some(value) => "("@ + text::signed_decimal(value as int) + ")"@,
            None => seq![],
        }) + "\n"@
    }

    /// Appends the name.
    pub fn print_name(&self, w: &mut String)
        ensures
            final(w)@ == old(w)@ + self.text(),
    {
        write_name(w, self.name, "<anon>");
    }

    /// Appends the line.
    pub fn print(&self, w: &mut String)
        ensures
            final(w)@ == old(w)@ + self.line(),
    {
        w.append("\t\t");
        self.print_name(w);
        if let Some(value) = self.value {
            w.append("(");
            write_signed(w, value);
            w.append(")");
        }
        w.append("\n");
    }
}

/// The lines for the values of an enumeration.
pub open spec fn enumerator_lines(enumerators: Seq<Enumerator>) -> Seq<char>
    decreases enumerators.len(),
{
    if enumerators.len() == 0 {
        seq![]
    } else {
        enumerator_lines(enumerators.drop_last()) + enumerators.last().line()
    }
}

fn print_enumerators(enumerators: &Vec<Enumerator>, w: &mut String)
    ensures
        final(w)@ == old(w)@ + enumerator_lines(enumerators@),
{
    let mut i: usize = 0;
    while i < enumerators.len()
        invariant
            i <= enumerators.len(),
            w@ == old(w)@ + enumerator_lines(enumerators@.take(i as int)),
        decreases enumerators.len() - i,
    {
        let ghost taken = enumerators@.take(i + 1);
        assert(taken.drop_last() =~= enumerators@.take(i as int));
        enumerators[i].print(w);
        i = i + 1;
    }
    assert(enumerators@.take(i as int) =~= enumerators@);
}

impl<'a, 'input> Scope<'a, 'input> where 'input: 'a {
    /// What is printed of a structure.
    pub open spec fn structure(self, ty: StructType<'input>) -> Seq<char> {
        if self.flags.passes(ty.name, *ty.namespace) {
            ty.text() + "\n"@ + size_line(ty.byte_size) + declaration_line(ty.declaration) + (
            if ty.members@.len() > 0 {
                "\tmembers:\n"@ + self.struct_members(ty, Some(0), "\t\t"@)
            } else {
                seq![]
            }) + "\n"@ + self.subprograms(ty.subprograms@)
        } else {
            seq![]
        }
    }

    /// What is printed of a union.
    pub open spec fn union_type(self, ty: UnionType<'input>) -> Seq<char> {
        if self.flags.passes(ty.name, *ty.namespace) {
            ty.text() + "\n"@ + size_line(ty.byte_size) + declaration_line(ty.declaration) + (
            if ty.members@.len() > 0 {
                "\tmembers:\n"@ + self.members(ty.members@, Some(0), "\t\t"@, false)
            } else {
                seq![]
            }) + "\n"@ + self.subprograms(ty.subprograms@)
        } else {
            seq![]
        }
    }

    /// What is printed of an enumeration.
    pub open spec fn enumeration(self, ty: EnumerationType<'input>) -> Seq<char> {
        if self.flags.passes(ty.name, *ty.namespace) {
            ty.text() + "\n"@ + size_line(ty.byte_size) + (if ty.enumerators@.len() > 0 {
                "\tenumerators:\n"@ + enumerator_lines(ty.enumerators@)
            } else {
                seq![]
            }) + "\n"@ + self.subprograms(ty.subprograms@)
        } else {
            seq![]
        }
    }

    /// What is printed of a structure or a union without a name, where it stands.
    pub open spec fn anonymous_type(self, ty: Type<'input>) -> Seq<char> {
        match ty.kind {
            TypeKind::Struct(val) => self.structure(val),
            TypeKind::Union(val) => self.union_type(val),
            _ => seq![],
        }
    }

    /// What is printed of a type definition.
    pub open spec fn typedef(self, ty: TypeDef<'input>) -> Seq<char> {
        if self.flags.passes(ty.name, *ty.namespace) {
            "type "@ + ty.text() + (match self.type_at(ty.ty) {
                Some(meant) => " = "@ + if meant.anonymous() {
                    self.anonymous_type(*meant)
                } else {
                    self.name_at(ty.ty->0) + "\n"@
                },
                None => "\n"@,
            }) + bit_size_line(self.size_at(ty.ty)) + "\n"@
        } else {
            seq![]
        }
    }

    /// What is printed of a type.
    pub open spec fn type_text(self, ty: Type<'input>) -> Seq<char> {
        match ty.kind {
            TypeKind::TypeDef(val) => self.typedef(val),
            TypeKind::Struct(val) => self.structure(val),
            TypeKind::Union(val) => self.union_type(val),
            TypeKind::Enumeration(val) => self.enumeration(val),
            TypeKind::Base(_) | TypeKind::Array(_) | TypeKind::Subroutine(_)
            | TypeKind::Modifier(_) => seq![],
            TypeKind::Unimplemented(_) => self.called(ty) + "\n"@,
        }
    }
}

impl<'input> StructType<'input> {
    /// Appends what is printed of the structure.
    pub fn print<'a>(&self, w: &mut String, state: &PrintState<'a, 'input>)
        requires
            state.wf(),
        ensures
            final(w)@ == old(w)@ + state@.structure(*self),
    {
        if state.filter(self.name, &self.namespace) {
            self.print_name(w);
            w.append("\n");
            write_size_line(w, self.byte_size);
            write_declaration_line(w, self.declaration);
            if self.members.len() > 0 {
                w.append("\tmembers:\n");
                self.print_members(w, state, Some(0), "\t\t");
            }
            w.append("\n");
            print_subprograms(&self.subprograms, w, state);
        }
    }
}

impl<'input> UnionType<'input> {
    /// Appends what is printed of the union.
    pub fn print<'a>(&self, w: &mut String, state: &PrintState<'a, 'input>)
        requires
            state.wf(),
        ensures
            final(w)@ == old(w)@ + state@.union_type(*self),
    {
        if state.filter(self.name, &self.namespace) {
            self.print_name(w);
            w.append("\n");
            write_size_line(w, self.byte_size);
            write_declaration_line(w, self.declaration);
            if self.members.len() > 0 {
                w.append("\tmembers:\n");
                self.print_members(w, state, Some(0), "\t\t");
            }
            w.append("\n");
            print_subprograms(&self.subprograms, w, state);
        }
    }
}

impl<'input> EnumerationType<'input> {
    /// Appends what is printed of the enumeration.
    pub fn print<'a>(&self, w: &mut String, state: &PrintState<'a, 'input>)
        requires
            state.wf(),
        ensures
            final(w)@ == old(w)@ + state@.enumeration(*self),
    {
        if state.filter(self.name, &self.namespace) {
            self.print_name(w);
            w.append("\n");
            write_size_line(w, self.byte_size);
            if self.enumerators.len() > 0 {
                w.append("\tenumerators:\n");
                print_enumerators(&self.enumerators, w);
            }
            w.append("\n");
            print_subprograms(&self.subprograms, w, state);
        }
    }
}

impl<'input> TypeDef<'input> {
    /// Appends what is printed of the type definition.
    pub fn print<'a>(&self, w: &mut String, state: &PrintState<'a, 'input>)
        requires
            state.wf(),
        ensures
            final(w)@ == old(w)@ + state@.typedef(*self),
    {
        if !state.filter(self.name, &self.namespace) {
            return;
        }
        w.append("type ");
        self.print_name(w);
        let mut found = false;
        if let Some(offset) = self.ty {
            if let Some(ty) = Type::from_offset(state, offset) {
                found = true;
                w.append(" = ");
                if ty.is_anon() {
                    match &ty.kind {
                        TypeKind::Struct(val) => val.print(w, state),
                        TypeKind::Union(val) => val.print(w, state),
                        _ => {},
                    }
                } else {
                    Type::print_offset_name(w, state, offset);
                    w.append("\n");
                }
            }
        }
        if !found {
            w.append("\n");
        }
        let size = Type::offset_bit_size(state, self.ty);
        write_bit_size_line(w, size);
        w.append("\n");
    }
}

impl<'input> Type<'input> {
    /// Appends what is printed of the type.
    pub fn print<'a>(&self, w: &mut String, state: &PrintState<'a, 'input>)
        requires
            state.wf(),
        ensures
            final(w)@ == old(w)@ + state@.type_text(*self),
    {
        match &self.kind {
            TypeKind::TypeDef(val) => val.print(w, state),
            TypeKind::Struct(val) => val.print(w, state),
            TypeKind::Union(val) => val.print(w, state),
            TypeKind::Enumeration(val) => val.print(w, state),
            TypeKind::Base(_) | TypeKind::Array(_) | TypeKind::Subroutine(_)
            | TypeKind::Modifier(_) => {},
            TypeKind::Unimplemented(_) => {
                self.print_name(w, state);
                w.append("\n");
            },
        }
    }
}

/// Whether a type at this offset is that of a member without a name, in one of these types.
pub open spec fn is_anonymous_member(types: Seq<Type>, offset: usize) -> bool {
    exists|i: int, j: int|
        #![trigger types[i].members()[j]]
        0 <= i < types.len() && 0 <= j < types[i].members().len() && types[i].members()[j].anonymous()
            && types[i].members()[j].ty == Some(offset)
}

/// The offsets of the types of members without a name.
fn anonymous_members(types: &Vec<Type>) -> (offsets: HashSet<usize>)
    ensures
        forall|offset: usize| #[trigger]
            offsets@.contains(offset) <==> is_anonymous_member(types@, offset),
{
    broadcast use vstd::std_specs::hash::group_hash_axioms;

    let mut offsets: HashSet<usize> = HashSet::new();
    let mut i: usize = 0;
    while i < types.len()
        invariant
            i <= types.len(),
            forall|offset: usize| #[trigger]
                offsets@.contains(offset) <==> is_anonymous_member(
                    types@.take(i as int),
                    offset,
                ),
        decreases types.len() - i,
    {
        let ghost before = offsets@;
        let ghost taken = types@.take(i as int);
        let ghost more = types@.take(i + 1);
        let ty = &types[i];
        if let Some(members) = ty.visit_members() {
            let mut j: usize = 0;
            while j < members.len()
                invariant
                    j <= members.len(),
                    members@ == ty.members(),
                    forall|offset: usize| #[trigger]
                        offsets@.contains(offset) <==> before.contains(offset) || exists|k: int|
                            0 <= k < j && (#[trigger] members@[k]).anonymous() && members@[k].ty
                                == Some(offset),
                decreases members.len() - j,
            {
                let member = &members[j];
                let ghost earlier = offsets@;
                if member.is_anon() {
                    if let Some(offset) = member.ty {
                        offsets.insert(offset);
                    }
                }
                assert forall|offset: usize| #[trigger] offsets@.contains(offset) implies
                    before.contains(offset) || exists|k: int|
                    0 <= k < j + 1 && (#[trigger] members@[k]).anonymous() && members@[k].ty == Some(
                        offset,
                    ) by {
                    if !earlier.contains(offset) {
                        assert(members@[j as int].ty == Some(offset));
                    }
                }
                j = j + 1;
            }
        }
        assert forall|offset: usize| #[trigger]
            offsets@.contains(offset) <==> is_anonymous_member(more, offset) by {
            if is_anonymous_member(more, offset) {
                let (k, l) = choose|k: int, l: int|
                    #![trigger more[k].members()[l]]
                    0 <= k < more.len() && 0 <= l < more[k].members().len()
                        && more[k].members()[l].anonymous() && more[k].members()[l].ty == Some(
                        offset,
                    );
                if k < i {
                    assert(taken[k].members()[l].anonymous());
                }
            }
            if before.contains(offset) {
                let (k, l) = choose|k: int, l: int|
                    #![trigger taken[k].members()[l]]
                    0 <= k < taken.len() && 0 <= l < taken[k].members().len()
                        && taken[k].members()[l].anonymous() && taken[k].members()[l].ty == Some(
                        offset,
                    );
                assert(more[k].members()[l].anonymous());
            } else if offsets@.contains(offset) {
                let l = choose|l: int|
                    0 <= l < ty.members().len() && (#[trigger] ty.members()[l]).anonymous()
                        && ty.members()[l].ty == Some(offset);
                assert(more[i as int].members()[l].anonymous());
            }
        }
        i = i + 1;
    }
    assert(types@.take(i as int) =~= types@);
    offsets
}

/// Whether a type of a unit is printed among the unit's types. One without a name is not,
/// and neither is that of a member without a name: both are printed where they are used.
pub open spec fn printed_alone(types: Seq<Type>, ty: Type) -> bool {
    !ty.anonymous() && !is_anonymous_member(types, ty.offset)
}

impl<'a, 'input> Scope<'a, 'input> where 'input: 'a {
    /// Those of the first types of a list that are printed on their own.
    pub open spec fn type_texts(self, types: Seq<Type<'input>>, count: int) -> Seq<char>
        decreases count,
    {
        if count <= 0 {
            seq![]
        } else {
            self.type_texts(types, count - 1) + if printed_alone(types, types[count - 1]) {
                self.type_text(types[count - 1])
            } else {
                seq![]
            }
        }
    }

    /// What is printed of a unit.
    pub open spec fn unit(self, unit: Unit<'input>) -> Seq<char> {
        self.type_texts(unit.types@, unit.types@.len() as int) + self.subprograms(
            unit.subprograms@,
        ) + self.variables(unit.variables@)
    }
}

fn print_types<'a, 'input>(
    types: &Vec<Type<'input>>,
    w: &mut String,
    state: &PrintState<'a, 'input>,
)
    requires
        state.wf(),
    ensures
        final(w)@ == old(w)@ + state@.type_texts(types@, types@.len() as int),
{
    let anonymous = anonymous_members(types);
    let mut i: usize = 0;
    while i < types.len()
        invariant
            i <= types.len(),
            state.wf(),
            forall|offset: usize| #[trigger]
                anonymous@.contains(offset) <==> is_anonymous_member(types@, offset),
            w@ == old(w)@ + state@.type_texts(types@, i as int),
        decreases types.len() - i,
    {
        let ty = &types[i];
        if !ty.is_anon() && !has_offset(&anonymous, ty.offset) {
            ty.print(w, state);
        }
        i = i + 1;
    }
}

fn has_offset(offsets: &HashSet<usize>, offset: usize) -> (result: bool)
    ensures
        result == offsets@.contains(offset),
{
    broadcast use vstd::std_specs::hash::group_hash_axioms;

    offsets.contains(&offset)
}

impl<'input> Unit<'input> {
    /// Appends what is printed of the unit.
    pub fn print<'a>(&self, w: &mut String, state: &PrintState<'a, 'input>)
        requires
            state.wf(),
        ensures
            final(w)@ == old(w)@ + state@.unit(*self),
    {
        print_types(&self.types, w, state);
        print_subprograms(&self.subprograms, w, state);
        print_variables(&self.variables, w, state);
    }
}

/// Nothing is printed of what does not pass the filters.
pub proof fn lemma_filtered_is_silent<'a, 'input>(
    scope: Scope<'a, 'input>,
    subprogram: Subprogram<'input>,
    variable: Variable<'input>,
    typedef: TypeDef<'input>,
    structure: StructType<'input>,
    union_type: UnionType<'input>,
    enumeration: EnumerationType<'input>,
)
    ensures
        !scope.flags.passes(subprogram.name, *subprogram.namespace) ==> scope.subprogram(subprogram)
            == Seq::<char>::empty(),
        !scope.flags.passes(variable.name, *variable.namespace) ==> scope.variable(variable)
            == Seq::<char>::empty(),
        !scope.flags.passes(typedef.name, *typedef.namespace) ==> scope.typedef(typedef)
            == Seq::<char>::empty(),
        !scope.flags.passes(structure.name, *structure.namespace) ==> scope.structure(structure)
            == Seq::<char>::empty(),
        !scope.flags.passes(union_type.name, *union_type.namespace) ==> scope.union_type(union_type)
            == Seq::<char>::empty(),
        !scope.flags.passes(enumeration.name, *enumeration.namespace) ==> scope.enumeration(
            enumeration,
        ) == Seq::<char>::empty(),
{
}

/// With a depth of zero nothing is printed of what is inlined into a subprogram: one that
/// has other inlined subroutines, or none, is printed alike.
pub proof fn lemma_no_depth_prints_no_inlined<'a, 'input>(
    scope: Scope<'a, 'input>,
    subprogram: Subprogram<'input>,
    inlined_subroutines: Vec<InlinedSubroutine<'input>>,
)
    requires
        scope.flags.inline_depth == 0,
    ensures
        scope.subprogram(subprogram) == scope.subprogram(
            Subprogram { inlined_subroutines, ..subprogram },
        ),
{
}

/// An inlined subroutine at the greatest depth that is printed is printed alike whatever is
/// inlined into it.
pub proof fn lemma_depth_is_a_limit<'a, 'input>(
    scope: Scope<'a, 'input>,
    subroutine: InlinedSubroutine<'input>,
    inlined_subroutines: Vec<InlinedSubroutine<'input>>,
    depth: nat,
)
    requires
        depth >= scope.flags.inline_depth,
    ensures
        scope.inlined_subroutine(subroutine, depth) == scope.inlined_subroutine(
            InlinedSubroutine { inlined_subroutines, ..subroutine },
            depth,
        ),
{
}

} // verus!

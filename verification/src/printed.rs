//! What is found in the text that is printed: whatever passes the filters, with everything that
//! is known of it.

use crate::file;
use crate::members;
use crate::namespace;
use crate::print;
use crate::state;
use crate::state::{Flags, Scope};
use crate::subprogram::{InlinedSubroutine, Subprogram, Variable};
use crate::text;
use crate::types::{
    EnumerationType, Enumerator, Member, Parameter, StructType, Type, TypeDef, TypeKind,
    UnionType,
};
use crate::unit::Unit;
use vstd::prelude::*;

verus! {

/// What passes the filters is printed: its text begins with its kind, its namespaces and its
/// name.
pub proof fn lemma_what_passes_is_printed<'a, 'input>(
    scope: Scope<'a, 'input>,
    subprogram: Subprogram<'input>,
    variable: Variable<'input>,
    typedef: TypeDef<'input>,
    structure: StructType<'input>,
    union_type: UnionType<'input>,
    enumeration: EnumerationType<'input>,
)
    ensures
        scope.flags.passes(subprogram.name, *subprogram.namespace) ==> ("fn "@
            + namespace::path_text(subprogram.namespace.path()) + namespace::name_text(
            subprogram.name,
            "<anon>"@,
        ) + "\n"@).is_prefix_of(scope.subprogram(subprogram)),
        scope.flags.passes(variable.name, *variable.namespace) ==> ("var "@
            + namespace::path_text(variable.namespace.path()) + namespace::name_text(
            variable.name,
            "<anon>"@,
        ) + ": "@).is_prefix_of(scope.variable(variable)),
        scope.flags.passes(typedef.name, *typedef.namespace) ==> ("type "@ + namespace::path_text(
            typedef.namespace.path(),
        ) + namespace::name_text(typedef.name, "<anon-typedef>"@)).is_prefix_of(
            scope.typedef(typedef),
        ),
        scope.flags.passes(structure.name, *structure.namespace) ==> ("struct "@
            + namespace::path_text(structure.namespace.path()) + namespace::name_text(
            structure.name,
            "<anon>"@,
        ) + "\n"@).is_prefix_of(scope.structure(structure)),
        scope.flags.passes(union_type.name, *union_type.namespace) ==> ("union "@
            + namespace::path_text(union_type.namespace.path()) + namespace::name_text(
            union_type.name,
            "<anon>"@,
        ) + "\n"@).is_prefix_of(scope.union_type(union_type)),
        scope.flags.passes(enumeration.name, *enumeration.namespace) ==> ("enum "@
            + namespace::path_text(enumeration.namespace.path()) + namespace::name_text(
            enumeration.name,
            "<anon>"@,
        ) + "\n"@).is_prefix_of(scope.enumeration(enumeration)),
{
    lemma_subprogram_begins(scope, subprogram);
    lemma_variable_begins(scope, variable);
    lemma_typedef_begins(scope, typedef);
    lemma_structure_begins(scope, structure);
    lemma_union_begins(scope, union_type);
    lemma_enumeration_begins(scope, enumeration);
}

proof fn lemma_subprogram_begins<'a, 'input>(scope: Scope<'a, 'input>, subprogram: Subprogram<'input>)
    ensures
        scope.flags.passes(subprogram.name, *subprogram.namespace) ==> ("fn "@ + namespace::path_text(subprogram.namespace.path()) + namespace::name_text(subprogram.name, "<anon>"@) + "\n"@).is_prefix_of(
            scope.subprogram(subprogram),
        ),
{
    assert(("fn "@ + namespace::path_text(subprogram.namespace.path()) + namespace::name_text(subprogram.name, "<anon>"@) + "\n"@) =~= "fn "@ + subprogram.text() + "\n"@);
    assert(scope.flags.passes(subprogram.name, *subprogram.namespace) ==> scope.subprogram(subprogram).take(
        ("fn "@ + subprogram.text() + "\n"@).len() as int,
    ) =~= "fn "@ + subprogram.text() + "\n"@);
}

proof fn lemma_variable_begins<'a, 'input>(scope: Scope<'a, 'input>, variable: Variable<'input>)
    ensures
        scope.flags.passes(variable.name, *variable.namespace) ==> ("var "@ + namespace::path_text(variable.namespace.path()) + namespace::name_text(variable.name, "<anon>"@) + ": "@).is_prefix_of(
            scope.variable(variable),
        ),
{
    assert(("var "@ + namespace::path_text(variable.namespace.path()) + namespace::name_text(variable.name, "<anon>"@) + ": "@) =~= "var "@ + variable.text() + ": "@);
    assert(scope.flags.passes(variable.name, *variable.namespace) ==> scope.variable(variable).take(
        ("var "@ + variable.text() + ": "@).len() as int,
    ) =~= "var "@ + variable.text() + ": "@);
}

proof fn lemma_typedef_begins<'a, 'input>(scope: Scope<'a, 'input>, typedef: TypeDef<'input>)
    ensures
        scope.flags.passes(typedef.name, *typedef.namespace) ==> ("type "@ + namespace::path_text(typedef.namespace.path()) + namespace::name_text(typedef.name, "<anon-typedef>"@)).is_prefix_of(
            scope.typedef(typedef),
        ),
{
    assert(("type "@ + namespace::path_text(typedef.namespace.path()) + namespace::name_text(typedef.name, "<anon-typedef>"@)) =~= "type "@ + typedef.text());
    assert(scope.flags.passes(typedef.name, *typedef.namespace) ==> scope.typedef(typedef).take(
        ("type "@ + typedef.text()).len() as int,
    ) =~= "type "@ + typedef.text());
}

proof fn lemma_structure_begins<'a, 'input>(scope: Scope<'a, 'input>, structure: StructType<'input>)
    ensures
        scope.flags.passes(structure.name, *structure.namespace) ==> ("struct "@ + namespace::path_text(structure.namespace.path()) + namespace::name_text(structure.name, "<anon>"@) + "\n"@).is_prefix_of(
            scope.structure(structure),
        ),
{
    assert(("struct "@ + namespace::path_text(structure.namespace.path()) + namespace::name_text(structure.name, "<anon>"@) + "\n"@) =~= structure.text() + "\n"@);
    assert(scope.flags.passes(structure.name, *structure.namespace) ==> scope.structure(structure).take(
        (structure.text() + "\n"@).len() as int,
    ) =~= structure.text() + "\n"@);
}

proof fn lemma_union_begins<'a, 'input>(scope: Scope<'a, 'input>, union_type: UnionType<'input>)
    ensures
        scope.flags.passes(union_type.name, *union_type.namespace) ==> ("union "@ + namespace::path_text(union_type.namespace.path()) + namespace::name_text(union_type.name, "<anon>"@) + "\n"@).is_prefix_of(
            scope.union_type(union_type),
        ),
{
    assert(("union "@ + namespace::path_text(union_type.namespace.path()) + namespace::name_text(union_type.name, "<anon>"@) + "\n"@) =~= union_type.text() + "\n"@);
    assert(scope.flags.passes(union_type.name, *union_type.namespace) ==> scope.union_type(union_type).take(
        (union_type.text() + "\n"@).len() as int,
    ) =~= union_type.text() + "\n"@);
}

proof fn lemma_enumeration_begins<'a, 'input>(scope: Scope<'a, 'input>, enumeration: EnumerationType<'input>)
    ensures
        scope.flags.passes(enumeration.name, *enumeration.namespace) ==> ("enum "@ + namespace::path_text(enumeration.namespace.path()) + namespace::name_text(enumeration.name, "<anon>"@) + "\n"@).is_prefix_of(
            scope.enumeration(enumeration),
        ),
{
    assert(("enum "@ + namespace::path_text(enumeration.namespace.path()) + namespace::name_text(enumeration.name, "<anon>"@) + "\n"@) =~= enumeration.text() + "\n"@);
    assert(scope.flags.passes(enumeration.name, *enumeration.namespace) ==> scope.enumeration(enumeration).take(
        (enumeration.text() + "\n"@).len() as int,
    ) =~= enumeration.text() + "\n"@);
}

/// The path of a namespace is printed name by name from the outside, each with `::` behind it,
/// and a namespace without a name has a stand-in.
pub proof fn lemma_path_is_printed_from_the_outside(
    path: Seq<namespace::Name>,
    name: namespace::Name,
)
    ensures
        namespace::path_text(path.push(name)) == namespace::path_text(path) + (match name {
            Some(bytes) => namespace::lossy(bytes@),
            None => "<anon>"@,
        }) + "::"@,
        namespace::path_text(Seq::<namespace::Name>::empty()) == Seq::<char>::empty(),
{
    assert(path.push(name).drop_last() =~= path);
}

/// A subprogram that passes is printed with all that is known of it: what the linker calls it,
/// where its code is and how long, whether it is inlined or only declared, what it returns and
/// takes, what is inlined into it and, where that is asked for, what it calls.
pub proof fn lemma_subprogram_is_printed_whole<'a, 'input>(
    scope: Scope<'a, 'input>,
    subprogram: Subprogram<'input>,
    i: int,
)
    requires
        scope.flags.passes(subprogram.name, *subprogram.namespace),
    ensures
        ({
            let whole = scope.subprogram(subprogram);
            &&& subprogram.linkage_name is Some ==> text::part(
                "\tlinkage name: "@ + namespace::lossy(subprogram.linkage_name->0@) + "\n"@,
                whole,
            )
            &&& subprogram.low_pc is Some && subprogram.high_pc is Some && subprogram.low_pc->0
                < subprogram.high_pc->0 ==> text::part(
                "\taddress: 0x"@ + text::hexadecimal(subprogram.low_pc->0 as nat) + "-0x"@
                    + text::hexadecimal((subprogram.high_pc->0 - 1) as nat) + "\n"@,
                whole,
            )
            &&& subprogram.low_pc is Some && subprogram.high_pc is Some && subprogram.low_pc->0
                >= subprogram.high_pc->0 ==> text::part(
                "\taddress: 0x"@ + text::hexadecimal(subprogram.low_pc->0 as nat) + "\n"@,
                whole,
            )
            &&& subprogram.size is Some ==> text::part(
                "\tsize: "@ + text::decimal(subprogram.size->0 as nat) + "\n"@,
                whole,
            )
            &&& subprogram.inline ==> text::part("\tinline: yes\n"@, whole)
            &&& subprogram.declaration ==> text::part("\tdeclaration: yes\n"@, whole)
            &&& subprogram.return_type is Some ==> text::part(
                "\treturn type:\n"@ + "\t\t"@ + members::bracketed(
                    scope.size_at(subprogram.return_type),
                ) + "\t"@ + scope.name_at(subprogram.return_type->0) + "\n"@,
                whole,
            )
            &&& 0 <= i < subprogram.parameters@.len() ==> text::part(
                "\t\t"@ + members::bracketed(scope.size_at(subprogram.parameters@[i].ty)) + "\t"@
                    + scope.parameter_name(subprogram.parameters@[i]) + "\n"@,
                whole,
            )
            &&& scope.flags.inline_depth > 0 && 0 <= i < subprogram.inlined_subroutines@.len()
                ==> text::part(
                scope.inlined_subroutine(subprogram.inlined_subroutines@[i], 1),
                whole,
            )
            &&& scope.flags.calls && subprogram.low_pc is Some && subprogram.low_pc != Some(0u64)
                && subprogram.high_pc is Some && 0 <= i < subprogram.calls@.len() ==> text::part(
                scope.call_line(subprogram.calls@[i]),
                whole,
            )
        }),
{
    broadcast use text::group_part;

    let (head, body) = (scope.subprogram_head(subprogram), scope.subprogram_body(subprogram));
    if 0 <= i < subprogram.parameters@.len() {
        lemma_parameters(scope, subprogram.parameters@, i);
        text::lemma_part_of_part(
            scope.parameter_line(subprogram.parameters@[i]),
            scope.parameter_lines(subprogram.parameters@),
            body,
        );
    }
    if scope.flags.inline_depth > 0 && 0 <= i < subprogram.inlined_subroutines@.len() {
        lemma_inlined(scope, subprogram.inlined_subroutines@, 1, i);
        text::lemma_part_of_part(
            scope.inlined_subroutine(subprogram.inlined_subroutines@[i], 1),
            scope.inlined_subroutines(subprogram.inlined_subroutines@, 1),
            body,
        );
    }
    if scope.flags.calls && subprogram.has_code() && 0 <= i < subprogram.calls@.len() {
        lemma_calls(scope, subprogram.calls@, i);
        text::lemma_part_of_part(
            scope.call_line(subprogram.calls@[i]),
            scope.call_lines(subprogram.calls@),
            body,
        );
    }
    assert(scope.subprogram(subprogram) == head + body + "\n"@);
}

proof fn lemma_parameters<'a, 'input>(
    scope: Scope<'a, 'input>,
    parameters: Seq<Parameter<'input>>,
    i: int,
)
    requires
        0 <= i < parameters.len(),
    ensures
        text::part(scope.parameter_line(parameters[i]), scope.parameter_lines(parameters)),
    decreases parameters.len(),
{
    broadcast use text::group_part;

    if i < parameters.len() - 1 {
        lemma_parameters(scope, parameters.drop_last(), i);
    }
}

proof fn lemma_inlined<'a, 'input>(
    scope: Scope<'a, 'input>,
    subroutines: Seq<InlinedSubroutine<'input>>,
    depth: nat,
    i: int,
)
    requires
        0 <= i < subroutines.len(),
    ensures
        text::part(
            scope.inlined_subroutine(subroutines[i], depth),
            scope.inlined_subroutines(subroutines, depth),
        ),
    decreases subroutines.len(),
{
    broadcast use text::group_part;

    if i < subroutines.len() - 1 {
        lemma_inlined(scope, subroutines.drop_last(), depth, i);
    }
}

proof fn lemma_calls<'a, 'input>(scope: Scope<'a, 'input>, calls: Seq<u64>, i: int)
    requires
        0 <= i < calls.len(),
    ensures
        text::part(scope.call_line(calls[i]), scope.call_lines(calls)),
    decreases calls.len(),
{
    broadcast use text::group_part;

    if i < calls.len() - 1 {
        lemma_calls(scope, calls.drop_last(), i);
    }
}

/// The line for a call begins with the address, and ends with the name of the subprogram that
/// is found there, if one is; and without that being asked for, calls make no difference.
pub proof fn lemma_calls_are_named<'a, 'input>(
    scope: Scope<'a, 'input>,
    call: u64,
    subprogram: Subprogram<'input>,
    calls: Vec<u64>,
)
    ensures
        ("\t\t0x"@ + text::hexadecimal(call as nat)).is_prefix_of(scope.call_line(call)),
        scope.all_subprograms.contains_key(call) ==> scope.call_line(call) == "\t\t0x"@
            + text::hexadecimal(call as nat) + " "@ + scope.all_subprograms[call].text() + "\n"@,
        !scope.all_subprograms.contains_key(call) ==> scope.call_line(call) == "\t\t0x"@
            + text::hexadecimal(call as nat) + "\n"@,
        !scope.flags.calls ==> scope.subprogram(Subprogram { calls, ..subprogram })
            == scope.subprogram(subprogram),
{
    let start = "\t\t0x"@ + text::hexadecimal(call as nat);
    assert(scope.call_line(call).take(start.len() as int) =~= start);
    if scope.all_subprograms.contains_key(call) {
        assert(scope.call_line(call) =~= start + " "@ + scope.all_subprograms[call].text() + "\n"@);
    } else {
        assert(scope.call_line(call) =~= start + "\n"@);
    }
    if !scope.flags.calls {
        let other = Subprogram { calls, ..subprogram };
        assert(scope.subprogram_head(other) == scope.subprogram_head(subprogram));
        assert(scope.subprogram_body(other) == scope.subprogram_body(subprogram));
    }
}

/// An inlined subroutine is printed with its size and the name of the subprogram that it is a
/// copy of, one tab deeper than its depth, and what is inlined into it is printed below it as
/// long as the depth that is asked for is not reached.
pub proof fn lemma_inlined_is_printed<'a, 'input>(
    scope: Scope<'a, 'input>,
    subroutine: InlinedSubroutine<'input>,
    depth: nat,
    i: int,
)
    ensures
        ({
            let whole = scope.inlined_subroutine(subroutine, depth);
            &&& (text::tabs(depth) + "\t"@).is_prefix_of(whole)
            &&& subroutine.size is Some ==> text::part(
                "["@ + text::decimal(subroutine.size->0 as nat) + "]"@,
                whole,
            )
            &&& scope.subprogram_at(subroutine.abstract_origin) is Some ==> text::part(
                scope.subprogram_at(subroutine.abstract_origin)->0.text(),
                whole,
            )
            &&& scope.flags.inline_depth > depth && 0 <= i < subroutine.inlined_subroutines@.len()
                ==> text::part(
                scope.inlined_subroutine(subroutine.inlined_subroutines@[i], depth + 1),
                whole,
            )
        }),
{
    broadcast use text::group_part;

    let whole = scope.inlined_subroutine(subroutine, depth);
    let start = text::tabs(depth) + "\t"@;
    assert(whole.take(start.len() as int) =~= start);
    if scope.flags.inline_depth > depth && 0 <= i < subroutine.inlined_subroutines@.len() {
        let inner = subroutine.inlined_subroutines@;
        lemma_inlined(scope, inner, depth + 1, i);
        text::lemma_part_of_part(
            scope.inlined_subroutine(inner[i], depth + 1),
            scope.inlined_subroutines(inner, depth + 1),
            whole,
        );
    }
}

/// A variable that passes is printed with its type and its size, what the linker calls it and
/// whether it is only declared.
pub proof fn lemma_variable_is_printed_whole<'a, 'input>(
    scope: Scope<'a, 'input>,
    variable: Variable<'input>,
)
    requires
        scope.flags.passes(variable.name, *variable.namespace),
    ensures
        ({
            let whole = scope.variable(variable);
            &&& variable.ty is Some ==> text::part(": "@ + scope.name_at(variable.ty->0), whole)
            &&& variable.linkage_name is Some ==> text::part(
                "\tlinkage name: "@ + namespace::lossy(variable.linkage_name->0@) + "\n"@,
                whole,
            )
            &&& scope.size_at(variable.ty) is Some ==> text::part(
                "\tsize: "@ + text::bits(scope.size_at(variable.ty)->0 as nat) + "\n"@,
                whole,
            )
            &&& variable.declaration ==> text::part("\tdeclaration: yes\n"@, whole)
        }),
{
    broadcast use text::group_part;

    if variable.ty is Some {
        let kind = scope.name_at(variable.ty->0);
        let before = "var "@ + variable.text();
        assert(before + ": "@ + kind =~= before + (": "@ + kind));
        assert(text::part(": "@ + kind, before + (": "@ + kind)));
    }
}

/// A type definition that passes is printed with the type that it stands for, if it is found,
/// and its size.
pub proof fn lemma_typedef_is_printed_whole<'a, 'input>(
    scope: Scope<'a, 'input>,
    typedef: TypeDef<'input>,
)
    requires
        scope.flags.passes(typedef.name, *typedef.namespace),
    ensures
        ({
            let whole = scope.typedef(typedef);
            &&& scope.type_at(typedef.ty) is Some && !scope.type_at(typedef.ty)->0.anonymous()
                ==> text::part(" = "@ + (scope.name_at(typedef.ty->0) + "\n"@), whole)
            &&& match scope.type_at(typedef.ty) {
                Some(meant) => match meant.kind {
                    TypeKind::Struct(val) => val.name is None ==> text::part(
                        scope.structure(val),
                        whole,
                    ),
                    TypeKind::Union(val) => val.name is None ==> text::part(
                        scope.union_type(val),
                        whole,
                    ),
                    _ => true,
                },
                None => true,
            }
            &&& scope.size_at(typedef.ty) is Some ==> text::part(
                "\tsize: "@ + text::bits(scope.size_at(typedef.ty)->0 as nat) + "\n"@,
                whole,
            )
        }),
{
    broadcast use text::group_part;

}

/// A structure that passes is printed with its size, whether it is only declared, its members
/// and its subprograms.
pub proof fn lemma_structure_is_printed_whole<'a, 'input>(
    scope: Scope<'a, 'input>,
    ty: StructType<'input>,
    i: int,
)
    requires
        scope.flags.passes(ty.name, *ty.namespace),
    ensures
        ({
            let whole = scope.structure(ty);
            &&& ty.byte_size is Some ==> text::part(
                "\tsize: "@ + text::decimal(ty.byte_size->0 as nat) + "\n"@,
                whole,
            )
            &&& ty.declaration ==> text::part("\tdeclaration: yes\n"@, whole)
            &&& ty.members@.len() > 0 ==> text::part(
                scope.struct_members(ty, Some(0), "\t\t"@),
                whole,
            )
            &&& 0 <= i < ty.subprograms@.len() ==> text::part(
                scope.subprogram(ty.subprograms@[i]),
                whole,
            )
        }),
{
    broadcast use text::group_part;

    if 0 <= i < ty.subprograms@.len() {
        lemma_subprograms(scope, ty.subprograms@, i);
        text::lemma_part_of_part(
            scope.subprogram(ty.subprograms@[i]),
            scope.subprograms(ty.subprograms@),
            scope.structure(ty),
        );
    }
}

/// A union that passes is printed with its size, whether it is only declared, its members and
/// its subprograms.
pub proof fn lemma_union_is_printed_whole<'a, 'input>(
    scope: Scope<'a, 'input>,
    ty: UnionType<'input>,
    i: int,
)
    requires
        scope.flags.passes(ty.name, *ty.namespace),
    ensures
        ({
            let whole = scope.union_type(ty);
            &&& ty.byte_size is Some ==> text::part(
                "\tsize: "@ + text::decimal(ty.byte_size->0 as nat) + "\n"@,
                whole,
            )
            &&& ty.declaration ==> text::part("\tdeclaration: yes\n"@, whole)
            &&& 0 <= i < ty.members@.len() ==> text::part(
                scope.member(ty.members@[i], Some(0), "\t\t"@),
                whole,
            )
            &&& 0 <= i < ty.subprograms@.len() ==> text::part(
                scope.subprogram(ty.subprograms@[i]),
                whole,
            )
        }),
{
    broadcast use text::group_part;

    let whole = scope.union_type(ty);
    if 0 <= i < ty.members@.len() {
        lemma_union_members(scope, ty.members@, Some(0), "\t\t"@, i);
        text::lemma_part_of_part(
            scope.member(ty.members@[i], Some(0), "\t\t"@),
            scope.members(ty.members@, Some(0), "\t\t"@, false),
            whole,
        );
    }
    if 0 <= i < ty.subprograms@.len() {
        lemma_subprograms(scope, ty.subprograms@, i);
        text::lemma_part_of_part(
            scope.subprogram(ty.subprograms@[i]),
            scope.subprograms(ty.subprograms@),
            whole,
        );
    }
}

proof fn lemma_union_members<'a, 'input>(
    scope: Scope<'a, 'input>,
    members: Seq<Member<'input>>,
    start: Option<u64>,
    indent: Seq<char>,
    i: int,
)
    requires
        0 <= i < members.len(),
    ensures
        text::part(
            scope.member(members[i], start, indent),
            scope.members(members, start, indent, false),
        ),
    decreases members.len(),
{
    broadcast use text::group_part;

    if i < members.len() - 1 {
        lemma_union_members(scope, members.drop_last(), start, indent, i);
    }
}

/// An enumeration that passes is printed with its size, its values and its subprograms.
pub proof fn lemma_enumeration_is_printed_whole<'a, 'input>(
    scope: Scope<'a, 'input>,
    ty: EnumerationType<'input>,
    i: int,
)
    requires
        scope.flags.passes(ty.name, *ty.namespace),
    ensures
        ({
            let whole = scope.enumeration(ty);
            &&& ty.byte_size is Some ==> text::part(
                "\tsize: "@ + text::decimal(ty.byte_size->0 as nat) + "\n"@,
                whole,
            )
            &&& 0 <= i < ty.enumerators@.len() ==> text::part(
                "\t\t"@ + namespace::name_text(ty.enumerators@[i].name, "<anon>"@) + (
                match ty.enumerators@[i].value {
                    Some(value) => "("@ + text::signed_decimal(value as int) + ")"@,
                    None => seq![],
                }) + "\n"@,
                whole,
            )
            &&& 0 <= i < ty.subprograms@.len() ==> text::part(
                scope.subprogram(ty.subprograms@[i]),
                whole,
            )
        }),
{
    broadcast use text::group_part;

    let whole = scope.enumeration(ty);
    if 0 <= i < ty.enumerators@.len() {
        lemma_enumerators(ty.enumerators@, i);
        text::lemma_part_of_part(
            ty.enumerators@[i].line(),
            print::enumerator_lines(ty.enumerators@),
            whole,
        );
    }
    if 0 <= i < ty.subprograms@.len() {
        lemma_subprograms(scope, ty.subprograms@, i);
        text::lemma_part_of_part(
            scope.subprogram(ty.subprograms@[i]),
            scope.subprograms(ty.subprograms@),
            whole,
        );
    }
}

proof fn lemma_enumerators(enumerators: Seq<crate::types::Enumerator>, i: int)
    requires
        0 <= i < enumerators.len(),
    ensures
        text::part(enumerators[i].line(), print::enumerator_lines(enumerators)),
    decreases enumerators.len(),
{
    broadcast use text::group_part;

    if i < enumerators.len() - 1 {
        lemma_enumerators(enumerators.drop_last(), i);
    }
}

proof fn lemma_subprograms<'a, 'input>(
    scope: Scope<'a, 'input>,
    subprograms: Seq<Subprogram<'input>>,
    i: int,
)
    requires
        0 <= i < subprograms.len(),
    ensures
        text::part(scope.subprogram(subprograms[i]), scope.subprograms(subprograms)),
    decreases subprograms.len(),
{
    broadcast use text::group_part;

    if i < subprograms.len() - 1 {
        lemma_subprograms(scope, subprograms.drop_last(), i);
    }
}

proof fn lemma_variables<'a, 'input>(
    scope: Scope<'a, 'input>,
    variables: Seq<Variable<'input>>,
    i: int,
)
    requires
        0 <= i < variables.len(),
    ensures
        text::part(scope.variable(variables[i]), scope.variables(variables)),
    decreases variables.len(),
{
    broadcast use text::group_part;

    if i < variables.len() - 1 {
        lemma_variables(scope, variables.drop_last(), i);
    }
}

proof fn lemma_type_texts<'a, 'input>(
    scope: Scope<'a, 'input>,
    types: Seq<Type<'input>>,
    count: int,
    i: int,
)
    requires
        0 <= i < count <= types.len(),
        print::printed_alone(types, types[i]),
    ensures
        text::part(scope.type_text(types[i]), scope.type_texts(types, count)),
    decreases count,
{
    broadcast use text::group_part;

    if i < count - 1 {
        lemma_type_texts(scope, types, count - 1, i);
    }
}

/// Everything that a unit declares is printed with it: its subprograms, its variables, and its
/// types but for those without a name and those of members without a name.
pub proof fn lemma_unit_is_printed_whole<'a, 'input>(
    scope: Scope<'a, 'input>,
    unit: Unit<'input>,
    i: int,
)
    ensures
        0 <= i < unit.subprograms@.len() ==> text::part(
            scope.subprogram(unit.subprograms@[i]),
            scope.unit(unit),
        ),
        0 <= i < unit.variables@.len() ==> text::part(
            scope.variable(unit.variables@[i]),
            scope.unit(unit),
        ),
        0 <= i < unit.types@.len() && (match unit.types@[i].kind {
            TypeKind::Struct(val) => val.name is Some,
            TypeKind::Union(val) => val.name is Some,
            _ => true,
        }) && (forall|j: int, k: int|
            #![trigger unit.types@[j].members()[k]]
            0 <= j < unit.types@.len() && 0 <= k < unit.types@[j].members().len()
                && unit.types@[j].members()[k].name is None ==> unit.types@[j].members()[k].ty
                != Some(unit.types@[i].offset)) ==> match unit.types@[i].kind {
            TypeKind::TypeDef(val) => text::part(scope.typedef(val), scope.unit(unit)),
            TypeKind::Struct(val) => text::part(scope.structure(val), scope.unit(unit)),
            TypeKind::Union(val) => text::part(scope.union_type(val), scope.unit(unit)),
            TypeKind::Enumeration(val) => text::part(scope.enumeration(val), scope.unit(unit)),
            _ => true,
        },
{
    broadcast use text::group_part;

    let (types, whole) = (unit.types@, scope.unit(unit));
    let texts = scope.type_texts(types, types.len() as int);
    if 0 <= i < unit.subprograms@.len() {
        lemma_subprograms(scope, unit.subprograms@, i);
        text::lemma_part_of_part(
            scope.subprogram(unit.subprograms@[i]),
            scope.subprograms(unit.subprograms@),
            whole,
        );
    }
    if 0 <= i < unit.variables@.len() {
        lemma_variables(scope, unit.variables@, i);
        text::lemma_part_of_part(
            scope.variable(unit.variables@[i]),
            scope.variables(unit.variables@),
            whole,
        );
    }
    if 0 <= i < types.len() && print::printed_alone(types, types[i]) {
        lemma_type_texts(scope, types, types.len() as int, i);
        text::lemma_part_of_part(scope.type_text(types[i]), texts, whole);
    }
}

/// Every unit of a file is printed.
pub proof fn lemma_file_is_printed_whole<'input>(
    units: Seq<Unit<'input>>,
    flags: Flags,
    count: int,
    i: int,
)
    requires
        0 <= i < count <= units.len(),
    ensures
        text::part(
            state::scope_of(units, flags, units[i]).unit(units[i]),
            file::units_text(units, flags, count),
        ),
    decreases count,
{
    broadcast use text::group_part;

    if i < count - 1 {
        lemma_file_is_printed_whole(units, flags, count - 1, i);
    }
}

/// The line for a member gives its offset, its size if it is known, its name if it has one and
/// its type; and the members of a structure or a union without a name stand below it, and so do
/// those of the type of a member without a name.
pub proof fn lemma_member_is_printed_whole<'a, 'input>(
    scope: Scope<'a, 'input>,
    member: Member<'input>,
    indent: Seq<char>,
)
    ensures
        scope.member_line(member, None, indent) == indent + text::bits(member.bit_offset as nat) + (
        match member.size(scope) {
            Some(size) => "["@ + text::bits(size as nat) + "]"@,
            None => "[??]"@,
        }) + "\t"@ + (match member.name {
            Some(name) => namespace::lossy(name@),
            None => "<anon>"@,
        }) + ": "@ + (match member.ty {
            Some(offset) => scope.name_at(offset),
            None => "<invalid-type>"@,
        }) + "\n"@,
        scope.member_line(member, None, indent).is_prefix_of(scope.member(member, None, indent)),
        match scope.type_at(member.ty) {
            Some(ty) => scope.ends_at(crate::chain::Chain::Members, member.ty->0) ==> match ty.kind {
                TypeKind::Struct(val) => if member.name is None || val.name is None {
                    text::part(
                        scope.struct_members(val, Some(member.bit_offset), indent + "\t"@),
                        scope.member(member, None, indent),
                    )
                } else {
                    scope.member(member, None, indent) == scope.member_line(member, None, indent)
                },
                TypeKind::Union(val) => if member.name is None || val.name is None {
                    text::part(
                        scope.members(val.members@, Some(member.bit_offset), indent + "\t"@, false),
                        scope.member(member, None, indent),
                    )
                } else {
                    scope.member(member, None, indent) == scope.member_line(member, None, indent)
                },
                _ => scope.member(member, None, indent) == scope.member_line(member, None, indent),
            },
            None => scope.member(member, None, indent) == scope.member_line(member, None, indent),
        },
{
    broadcast use text::group_part;

    let line = scope.member_line(member, None, indent);
    let whole = scope.member(member, None, indent);
    assert(line =~= indent + text::bits(member.bit_offset as nat) + members::bracketed(
        member.size(scope),
    ) + "\t"@ + namespace::name_text(member.name, "<anon>"@) + ": "@ + (match member.ty {
        Some(offset) => scope.name_at(offset),
        None => "<invalid-type>"@,
    }) + "\n"@);
    assert(whole.take(line.len() as int) =~= line);
    text::lemma_nothing_added(line);
}

/// Nothing is printed that is not known: a subprogram, a variable, a structure, a union and an
/// enumeration of which no more is known than the name, and a type definition of no type, are
/// printed with a line for the name and nothing else.
pub proof fn lemma_nothing_is_made_up<'a, 'input>(
    scope: Scope<'a, 'input>,
    subprogram: Subprogram<'input>,
    variable: Variable<'input>,
    typedef: TypeDef<'input>,
    structure: StructType<'input>,
    union_type: UnionType<'input>,
    enumeration: EnumerationType<'input>,
)
    ensures
        scope.flags.passes(subprogram.name, *subprogram.namespace) && subprogram.linkage_name is None
            && (subprogram.low_pc is None || subprogram.high_pc is None) && subprogram.size is None
            && !subprogram.inline && !subprogram.declaration && subprogram.return_type is None
            && subprogram.parameters@.len() == 0 && subprogram.inlined_subroutines@.len() == 0
            ==> scope.subprogram(subprogram) == "fn "@ + subprogram.text() + "\n"@ + "\n"@,
        scope.flags.passes(variable.name, *variable.namespace) && variable.linkage_name is None
            && variable.ty is None && !variable.declaration ==> scope.variable(variable) == "var "@
            + variable.text() + ": "@ + "<anon>"@ + "\n"@ + "\n"@,
        scope.flags.passes(typedef.name, *typedef.namespace) && typedef.ty is None
            ==> scope.typedef(typedef) == "type "@ + typedef.text() + "\n"@ + "\n"@,
        scope.flags.passes(structure.name, *structure.namespace) && structure.byte_size is None
            && !structure.declaration && structure.members@.len() == 0
            && structure.subprograms@.len() == 0 ==> scope.structure(structure) == structure.text()
            + "\n"@ + "\n"@,
        scope.flags.passes(union_type.name, *union_type.namespace) && union_type.byte_size is None
            && !union_type.declaration && union_type.members@.len() == 0
            && union_type.subprograms@.len() == 0 ==> scope.union_type(union_type)
            == union_type.text() + "\n"@ + "\n"@,
        scope.flags.passes(enumeration.name, *enumeration.namespace)
            && enumeration.byte_size is None && enumeration.enumerators@.len() == 0
            && enumeration.subprograms@.len() == 0 ==> scope.enumeration(enumeration)
            == enumeration.text() + "\n"@ + "\n"@,
{
    broadcast use text::group_text;

    assert(forall|a: Seq<char>| #[trigger] (Seq::<char>::empty() + a) =~= a);
}

/// A unit's types come first, then its subprograms, then its variables. A type without a name,
/// and one that a member without a name has, are not printed among the types; and of base
/// types, arrays, the types of subroutines and modified types nothing is printed there.
pub proof fn lemma_unit_is_printed_in_order<'a, 'input>(
    scope: Scope<'a, 'input>,
    unit: Unit<'input>,
    ty: Type<'input>,
    i: int,
)
    requires
        0 <= i < unit.types@.len(),
    ensures
        scope.unit(unit) == scope.type_texts(unit.types@, unit.types@.len() as int)
            + scope.subprograms(unit.subprograms@) + scope.variables(unit.variables@),
        (match unit.types@[i].kind {
            TypeKind::Struct(val) => val.name is None,
            TypeKind::Union(val) => val.name is None,
            _ => false,
        }) || (exists|j: int, k: int|
            #![trigger unit.types@[j].members()[k]]
            0 <= j < unit.types@.len() && 0 <= k < unit.types@[j].members().len()
                && unit.types@[j].members()[k].name is None && unit.types@[j].members()[k].ty
                == Some(unit.types@[i].offset)) ==> scope.type_texts(unit.types@, i + 1)
            == scope.type_texts(unit.types@, i),
        ty.kind is Base || ty.kind is Array || ty.kind is Subroutine || ty.kind is Modifier
            ==> scope.type_text(ty) == Seq::<char>::empty(),
        ty.kind is Unimplemented ==> scope.type_text(ty) == scope.called(ty) + "\n"@,
{
    text::lemma_nothing_added(scope.type_texts(unit.types@, i));
}

/// Subprograms and variables are printed in the order of their lists.
pub proof fn lemma_lists_are_printed_in_order<'a, 'input>(
    scope: Scope<'a, 'input>,
    subprograms: Seq<Subprogram<'input>>,
    subprogram: Subprogram<'input>,
    variables: Seq<Variable<'input>>,
    variable: Variable<'input>,
    calls: Seq<u64>,
    call: u64,
    parameters: Seq<Parameter<'input>>,
    parameter: Parameter<'input>,
    subroutines: Seq<InlinedSubroutine<'input>>,
    subroutine: InlinedSubroutine<'input>,
    depth: nat,
)
    ensures
        scope.subprograms(subprograms.push(subprogram)) == scope.subprograms(subprograms)
            + scope.subprogram(subprogram),
        scope.variables(variables.push(variable)) == scope.variables(variables) + scope.variable(
            variable,
        ),
        scope.call_lines(calls.push(call)) == scope.call_lines(calls) + scope.call_line(call),
        scope.parameter_lines(parameters.push(parameter)) == scope.parameter_lines(parameters)
            + scope.parameter_line(parameter),
        scope.inlined_subroutines(subroutines.push(subroutine), depth)
            == scope.inlined_subroutines(subroutines, depth) + scope.inlined_subroutine(
            subroutine,
            depth,
        ),
{
    assert(subprograms.push(subprogram).drop_last() =~= subprograms);
    assert(variables.push(variable).drop_last() =~= variables);
    assert(calls.push(call).drop_last() =~= calls);
    assert(parameters.push(parameter).drop_last() =~= parameters);
    assert(subroutines.push(subroutine).drop_last() =~= subroutines);
}

/// A text where a condition holds, and nothing where it does not.
pub open spec fn shown(condition: bool, text: Seq<char>) -> Seq<char> {
    if condition {
        text
    } else {
        Seq::<char>::empty()
    }
}

/// The lines for a subprogram come in one order, each where there is something to say: its
/// name, the name that the linker knows it by, its addresses, its size, whether it is inlined and
/// whether it is a declaration; then the type that it returns, its parameters, what is inlined
/// into it and, where its code is known, its calls. An empty line ends them.
pub proof fn lemma_subprogram_lines_come_in_order<'a, 'input>(
    scope: Scope<'a, 'input>,
    subprogram: Subprogram<'input>,
)
    requires
        scope.flags.passes(subprogram.name, *subprogram.namespace),
    ensures
        ({
            let (low, high) = (subprogram.low_pc, subprogram.high_pc);
            let known = low is Some && high is Some;
            scope.subprogram(subprogram) == "fn "@ + subprogram.text() + "\n"@ + shown(
                subprogram.linkage_name is Some,
                "\tlinkage name: "@ + namespace::lossy(subprogram.linkage_name->0@) + "\n"@,
            ) + shown(
                known,
                if low->0 < high->0 {
                    "\taddress: 0x"@ + text::hexadecimal(low->0 as nat) + "-0x"@
                        + text::hexadecimal((high->0 - 1) as nat) + "\n"@
                } else {
                    "\taddress: 0x"@ + text::hexadecimal(low->0 as nat) + "\n"@
                },
            ) + shown(
                subprogram.size is Some,
                "\tsize: "@ + text::decimal(subprogram.size->0 as nat) + "\n"@,
            ) + shown(subprogram.inline, "\tinline: yes\n"@) + shown(
                subprogram.declaration,
                "\tdeclaration: yes\n"@,
            ) + (shown(
                subprogram.return_type is Some,
                "\treturn type:\n"@ + "\t\t"@ + members::bracketed(
                    scope.size_at(subprogram.return_type),
                ) + "\t"@ + scope.name_at(subprogram.return_type->0) + "\n"@,
            ) + shown(
                subprogram.parameters@.len() > 0,
                "\tparameters:\n"@ + scope.parameter_lines(subprogram.parameters@),
            ) + shown(
                scope.flags.inline_depth > 0 && subprogram.inlined_subroutines@.len() > 0,
                "\tinlined subroutines:\n"@ + scope.inlined_subroutines(
                    subprogram.inlined_subroutines@,
                    1,
                ),
            ) + shown(
                scope.flags.calls && known && low->0 != 0 && subprogram.calls@.len() > 0,
                "\tcalls:\n"@ + scope.call_lines(subprogram.calls@),
            )) + "\n"@
        }),
{
}

/// The lines for a variable come in one order: its name and its type, the name that the linker
/// knows it by, its size and whether it is a declaration. Those for a type definition are its
/// name with what it stands for, and the size of that. An empty line ends them.
pub proof fn lemma_variable_lines_come_in_order<'a, 'input>(
    scope: Scope<'a, 'input>,
    variable: Variable<'input>,
    typedef: TypeDef<'input>,
)
    ensures
        scope.flags.passes(variable.name, *variable.namespace) ==> {
            let size = scope.size_at(variable.ty);
            scope.variable(variable) == "var "@ + variable.text() + ": "@ + (match variable.ty {
                Some(offset) => scope.name_at(offset),
                None => "<anon>"@,
            }) + "\n"@ + shown(
                variable.linkage_name is Some,
                "\tlinkage name: "@ + namespace::lossy(variable.linkage_name->0@) + "\n"@,
            ) + shown(size is Some, "\tsize: "@ + text::bits(size->0 as nat) + "\n"@) + shown(
                variable.declaration,
                "\tdeclaration: yes\n"@,
            ) + "\n"@
        },
        scope.flags.passes(typedef.name, *typedef.namespace) ==> {
            let size = scope.size_at(typedef.ty);
            scope.typedef(typedef) == "type "@ + typedef.text() + (match scope.type_at(
                typedef.ty,
            ) {
                None => "\n"@,
                Some(meant) => match meant.kind {
                    TypeKind::Struct(val) if val.name is None => " = "@ + scope.structure(val),
                    TypeKind::Union(val) if val.name is None => " = "@ + scope.union_type(val),
                    _ => " = "@ + (scope.name_at(typedef.ty->0) + "\n"@),
                },
            }) + shown(size is Some, "\tsize: "@ + text::bits(size->0 as nat) + "\n"@) + "\n"@
        },
        !scope.flags.passes(variable.name, *variable.namespace) ==> scope.variable(variable)
            == Seq::<char>::empty(),
        !scope.flags.passes(typedef.name, *typedef.namespace) ==> scope.typedef(typedef)
            == Seq::<char>::empty(),
{
}

/// The lines for a structure, a union and an enumeration come in one order: the name, the size,
/// whether it is a declaration and what it holds. An empty line ends them, and the subprograms
/// that are declared in it follow.
pub proof fn lemma_type_lines_come_in_order<'a, 'input>(
    scope: Scope<'a, 'input>,
    structure: StructType<'input>,
    union_type: UnionType<'input>,
    enumeration: EnumerationType<'input>,
)
    ensures
        scope.flags.passes(structure.name, *structure.namespace) ==> scope.structure(structure)
            == structure.text() + "\n"@ + shown(
            structure.byte_size is Some,
            "\tsize: "@ + text::decimal(structure.byte_size->0 as nat) + "\n"@,
        ) + shown(structure.declaration, "\tdeclaration: yes\n"@) + shown(
            structure.members@.len() > 0,
            "\tmembers:\n"@ + scope.struct_members(structure, Some(0), "\t\t"@),
        ) + "\n"@ + scope.subprograms(structure.subprograms@),
        scope.flags.passes(union_type.name, *union_type.namespace) ==> scope.union_type(union_type)
            == union_type.text() + "\n"@ + shown(
            union_type.byte_size is Some,
            "\tsize: "@ + text::decimal(union_type.byte_size->0 as nat) + "\n"@,
        ) + shown(union_type.declaration, "\tdeclaration: yes\n"@) + shown(
            union_type.members@.len() > 0,
            "\tmembers:\n"@ + scope.members(union_type.members@, Some(0), "\t\t"@, false),
        ) + "\n"@ + scope.subprograms(union_type.subprograms@),
        scope.flags.passes(enumeration.name, *enumeration.namespace) ==> scope.enumeration(
            enumeration,
        ) == enumeration.text() + "\n"@ + shown(
            enumeration.byte_size is Some,
            "\tsize: "@ + text::decimal(enumeration.byte_size->0 as nat) + "\n"@,
        ) + shown(
            enumeration.enumerators@.len() > 0,
            "\tenumerators:\n"@ + print::enumerator_lines(enumeration.enumerators@),
        ) + "\n"@ + scope.subprograms(enumeration.subprograms@),
{
}

/// Below a subroutine that is inlined stands what is inlined into it, one deeper, as long as the
/// depth that is asked for is not reached; the values of an enumeration stand in the order of
/// the list.
pub proof fn lemma_inlined_is_printed_as_deep_as_asked<'a, 'input>(
    scope: Scope<'a, 'input>,
    subroutine: InlinedSubroutine<'input>,
    depth: nat,
    enumerators: Seq<Enumerator<'input>>,
    enumerator: Enumerator<'input>,
)
    ensures
        ({
            let line = text::tabs(depth) + "\t"@ + (match subroutine.size {
                Some(size) => "["@ + text::decimal(size as nat) + "]"@,
                None => "[??]"@,
            }) + "\t"@ + (match scope.subprogram_at(subroutine.abstract_origin) {
                Some(subprogram) => subprogram.text(),
                None => "<anon>"@,
            }) + "\n"@;
            &&& depth >= scope.flags.inline_depth ==> scope.inlined_subroutine(
                subroutine,
                depth,
            ) == line
            &&& depth < scope.flags.inline_depth ==> scope.inlined_subroutine(
                subroutine,
                depth,
            ) == line + scope.inlined_subroutines(subroutine.inlined_subroutines@, depth + 1)
        }),
        print::enumerator_lines(enumerators.push(enumerator)) == print::enumerator_lines(
            enumerators,
        ) + ("\t\t"@ + namespace::name_text(enumerator.name, "<anon>"@) + (
        match enumerator.value {
            Some(value) => "("@ + text::signed_decimal(value as int) + ")"@,
            None => Seq::<char>::empty(),
        }) + "\n"@),
        print::enumerator_lines(Seq::<Enumerator<'input>>::empty()) == Seq::<char>::empty(),
{
    if depth >= scope.flags.inline_depth {
        text::lemma_nothing_added(
            text::tabs(depth) + "\t"@ + (match subroutine.size {
                Some(size) => "["@ + text::decimal(size as nat) + "]"@,
                None => "[??]"@,
            }) + "\t"@ + (match scope.subprogram_at(subroutine.abstract_origin) {
                Some(subprogram) => subprogram.text(),
                None => "<anon>"@,
            }) + "\n"@,
        );
    }
    assert(enumerators.push(enumerator).drop_last() =~= enumerators);
}

} // verus!

//! How the names of types are put together from what they are made of.

use crate::chain;
use crate::chain::Chain;
use crate::names;
use crate::namespace;
use crate::state::Scope;
use crate::text;
use crate::types::{Parameter, Type, TypeKind, TypeModifierKind};
use vstd::prelude::*;

verus! {

impl<'a, 'input> Scope<'a, 'input> where 'input: 'a {
    /// A type with a name of its own is called by it wherever it is referred to: a structure, a
    /// union and an enumeration by their kind and their qualified name, a type definition and a
    /// modified type by the qualified name, and a base type by the bare name.
    pub proof fn lemma_own_name_counts(self, ty: Type<'input>, offset: usize)
        ensures
            match ty.kind {
                TypeKind::Base(val) => self.called(ty) == namespace::name_text(
                    val.name,
                    "<anon-base-type>"@,
                ),
                TypeKind::TypeDef(val) => self.called(ty) == namespace::path_text(
                    val.namespace.path(),
                ) + namespace::name_text(val.name, "<anon-typedef>"@),
                TypeKind::Struct(val) => self.called(ty) == "struct "@ + namespace::path_text(
                    val.namespace.path(),
                ) + namespace::name_text(val.name, "<anon>"@),
                TypeKind::Union(val) => self.called(ty) == "union "@ + namespace::path_text(
                    val.namespace.path(),
                ) + namespace::name_text(val.name, "<anon>"@),
                TypeKind::Enumeration(val) => self.called(ty) == "enum "@ + namespace::path_text(
                    val.namespace.path(),
                ) + namespace::name_text(val.name, "<anon>"@),
                TypeKind::Modifier(val) => val.name is Some ==> self.called(ty)
                    == namespace::path_text(val.namespace.path()) + namespace::lossy(val.name->0@),
                TypeKind::Unimplemented(tag) => self.called(ty) == "<unimplemented "@
                    + names::tag_name(tag) + ">"@,
                _ => true,
            },
            self.type_at(Some(offset)) == Some(&ty) && !(ty.kind is Array) && !(
            ty.kind is Subroutine) && (ty.kind matches TypeKind::Modifier(val) ==> val.name is Some)
                ==> self.name_at(offset) == self.called(ty),
            self.type_at(Some(offset)) is None ==> self.name_at(offset) == "<invalid-type>"@,
    {
        broadcast use text::group_text;

        if !(ty.kind is Array) && !(ty.kind is Subroutine) && (ty.kind matches TypeKind::Modifier(
            val,
        ) ==> val.name is Some) {
            chain::lemma_ends_behind(Chain::Name, self.types, ty, 0);
        }
    }

    /// A constant type, a pointer and a restricted type without a name are called after the type
    /// that they modify, with their mark in front.
    pub proof fn lemma_modified_name(self, ty: Type<'input>, offset: usize, meant: usize)
        requires
            ty.kind matches TypeKind::Modifier(val) && val.name is None && val.ty == Some(meant),
        ensures
            ({
                let mark = match ty.kind->Modifier_0.kind {
                    TypeModifierKind::Const => "const "@,
                    TypeModifierKind::Pointer => "* "@,
                    TypeModifierKind::Restrict => "restrict "@,
                };
                &&& self.called(ty) == mark + self.name_at(meant)
                &&& self.type_at(Some(offset)) == Some(&ty) && self.ends_at(Chain::Name, meant)
                    ==> self.name_at(offset) == mark + self.name_at(meant)
            }),
    {
        if self.ends_at(Chain::Name, meant) {
            chain::lemma_ends_behind(Chain::Name, self.types, ty, meant);
        }
    }

    /// An array is called after its elements, with its count behind where it has one.
    pub proof fn lemma_array_name(self, ty: Type<'input>, offset: usize, element: usize)
        requires
            ty.kind matches TypeKind::Array(val) && val.ty == Some(element),
        ensures
            ty.kind->Array_0.count is None ==> self.called(ty) == "["@ + self.name_at(element)
                + "]"@,
            ty.kind->Array_0.count is Some ==> self.called(ty) == "["@ + self.name_at(element)
                + "; "@ + text::decimal(ty.kind->Array_0.count->0 as nat) + "]"@,
            self.type_at(Some(offset)) == Some(&ty) && self.ends_at(Chain::Name, element)
                ==> self.name_at(offset) == self.called(ty),
    {
        broadcast use text::group_text;

        if self.ends_at(Chain::Name, element) {
            chain::lemma_ends_behind(Chain::Name, self.types, ty, element);
        }
    }

    /// The type of a subroutine is called after its parameters and what it returns.
    pub proof fn lemma_subroutine_name(self, ty: Type<'input>)
        requires
            ty.kind is Subroutine,
        ensures
            ({
                let val = ty.kind->Subroutine_0;
                let taken = "("@ + self.parameter_names(val.parameters@) + ")"@;
                &&& val.return_type is None ==> self.called(ty) == taken
                &&& val.return_type is Some ==> self.called(ty) == taken + " -> "@ + self.name_at(
                    val.return_type->0,
                )
            }),
    {
        broadcast use text::group_text;

    }

    /// Parameters are named one behind the other, with commas between them: each by its name, if
    /// it has one, and its type.
    pub proof fn lemma_parameters_are_named_in_order(
        self,
        parameters: Seq<Parameter<'input>>,
        last: Parameter<'input>,
    )
        ensures
            self.parameter_names(Seq::<Parameter<'input>>::empty()) == Seq::<char>::empty(),
            self.parameter_names(parameters.push(last)) == if parameters.len() == 0 {
                self.parameter_name(last)
            } else {
                self.parameter_names(parameters) + ", "@ + self.parameter_name(last)
            },
            self.parameter_name(last) == match (last.name, last.ty) {
                (Some(name), Some(offset)) => namespace::lossy(name@) + ": "@ + self.name_at(offset),
                (Some(name), None) => namespace::lossy(name@) + ": "@ + "<anon>"@,
                (None, Some(offset)) => self.name_at(offset),
                (None, None) => "<anon>"@,
            },
    {
        broadcast use text::group_text;

        assert(parameters.push(last).drop_last() =~= parameters);
        assert(Seq::<char>::empty() + "<anon>"@ =~= "<anon>"@);
        if let Some(offset) = last.ty {
            assert(Seq::<char>::empty() + self.name_at(offset) =~= self.name_at(offset));
        }
    }
}

/// The types that the type of a subroutine is named after.
spec fn named_after(parameters: Seq<Parameter>, return_type: Option<usize>) -> Seq<usize>
    decreases parameters.len(),
{
    if parameters.len() == 0 {
        match return_type {
            Some(offset) => seq![offset],
            None => seq![],
        }
    } else {
        let before = named_after(parameters.drop_last(), return_type);
        match parameters.last().ty {
            Some(offset) => before.push(offset),
            None => before,
        }
    }
}

proof fn lemma_named_after(parameters: Seq<Parameter>, return_type: Option<usize>, offset: usize)
    ensures
        named_after(parameters, return_type).contains(offset) <==> return_type == Some(offset) || (
        exists|i: int|
            0 <= i < parameters.len() && (#[trigger] parameters[i]).ty == Some(offset)),
    decreases parameters.len(),
{
    let all = named_after(parameters, return_type);
    if parameters.len() == 0 {
        if return_type == Some(offset) {
            assert(all[0] == offset);
        }
    } else {
        let rest = parameters.drop_last();
        let last = parameters[parameters.len() - 1];
        let before = named_after(rest, return_type);
        lemma_named_after(rest, return_type, offset);
        assert(forall|i: int| 0 <= i < rest.len() ==> rest[i] == parameters[i]);
        if before.contains(offset) {
            let i = choose|i: int| 0 <= i < before.len() && before[i] == offset;
            assert(all[i] == offset);
        }
        if last.ty == Some(offset) {
            assert(all[all.len() - 1] == offset);
        }
        if all.contains(offset) && !before.contains(offset) {
            let i = choose|i: int| 0 <= i < all.len() && all[i] == offset;
            if i < before.len() {
                assert(before[i] == offset);
            }
        }
    }
}

impl<'a, 'input> Scope<'a, 'input> where 'input: 'a {
    /// The type of a subroutine is called by its name where it is referred to, as long as the
    /// names that it is made of come to an end.
    pub proof fn lemma_subroutine_is_called(self, ty: Type<'input>, offset: usize)
        requires
            self.type_at(Some(offset)) == Some(&ty),
            ty.kind is Subroutine,
            ({
                let val = ty.kind->Subroutine_0;
                &&& match val.return_type {
                    Some(meant) => self.type_at(Some(meant)) is Some ==> self.ends_at(
                        Chain::Name,
                        meant,
                    ),
                    None => true,
                }
                &&& forall|i: int|
                    0 <= i < val.parameters@.len() ==> match (#[trigger] val.parameters@[i]).ty {
                        Some(meant) => self.type_at(Some(meant)) is Some ==> self.ends_at(
                            Chain::Name,
                            meant,
                        ),
                        None => true,
                    }
            }),
        ensures
            self.ends_at(Chain::Name, offset),
            self.name_at(offset) == self.called(ty),
    {
        let val = ty.kind->Subroutine_0;
        let offsets = named_after(val.parameters@, val.return_type);
        assert forall|other: usize|
            #[trigger] chain::leads(Chain::Name, self.types, ty, other) && self.types.contains_key(
                other,
            ) implies offsets.contains(other) by {
            lemma_named_after(val.parameters@, val.return_type, other);
        }
        assert forall|i: int|
            0 <= i < offsets.len() && self.types.contains_key(
                #[trigger] offsets[i],
            ) implies chain::ends(Chain::Name, self.types, *self.types[offsets[i]]) by {
            lemma_named_after(val.parameters@, val.return_type, offsets[i]);
            assert(offsets.contains(offsets[i]));
        }
        chain::lemma_ends_behind_all(Chain::Name, self.types, ty, offsets);
    }
}

impl<'a, 'input> Scope<'a, 'input> where 'input: 'a {
    /// An array of no type and a type that modifies none are called after a type that is not
    /// known.
    pub proof fn lemma_name_without_type(self, ty: Type<'input>, offset: usize)
        ensures
            (ty.kind matches TypeKind::Array(val) && val.ty is None && val.count is None)
                ==> self.called(ty) == "["@ + "<unknown-type>"@ + "]"@,
            (ty.kind matches TypeKind::Array(val) && val.ty is None && val.count is Some)
                ==> self.called(ty) == "["@ + "<unknown-type>"@ + "; "@ + text::decimal(
                ty.kind->Array_0.count->0 as nat,
            ) + "]"@,
            (ty.kind matches TypeKind::Modifier(val) && val.ty is None && val.name is None)
                ==> self.called(ty) == (match ty.kind->Modifier_0.kind {
                TypeModifierKind::Const => "const "@,
                TypeModifierKind::Pointer => "* "@,
                TypeModifierKind::Restrict => "restrict "@,
            }) + "<unknown-type>"@,
            ((ty.kind matches TypeKind::Array(val) && val.ty is None) || (
            ty.kind matches TypeKind::Modifier(val) && val.ty is None)) && self.type_at(
                Some(offset),
            ) == Some(&ty) ==> self.name_at(offset) == self.called(ty),
    {
        broadcast use text::group_text;

        if (ty.kind matches TypeKind::Array(val) && val.ty is None) || (
        ty.kind matches TypeKind::Modifier(val) && val.ty is None) {
            chain::lemma_ends_behind(Chain::Name, self.types, ty, 0);
        }
    }

    /// A type whose name is made of its own is not followed, and neither is one whose size is
    /// its own.
    pub proof fn lemma_circles_are_not_followed(self, ty: Type<'input>, offset: usize)
        requires
            self.type_at(Some(offset)) == Some(&ty),
        ensures
            (match ty.kind {
                TypeKind::Array(val) => val.ty == Some(offset),
                TypeKind::Modifier(val) => val.name is None && val.ty == Some(offset),
                TypeKind::Subroutine(val) => val.return_type == Some(offset),
                _ => false,
            }) ==> self.name_at(offset) == "<recursive-type>"@,
            (match ty.kind {
                TypeKind::TypeDef(val) => val.ty == Some(offset),
                TypeKind::Modifier(val) => val.byte_size is None && !(val.kind is Pointer) && val.ty
                    == Some(offset),
                _ => false,
            }) ==> self.size_at(Some(offset)) is None,
    {
        if self.ends_at(Chain::Name, offset) && chain::leads(Chain::Name, self.types, ty, offset) {
            chain::lemma_step(Chain::Name, self.types, ty, offset);
        }
        if self.ends_at(Chain::Size, offset) && chain::leads(Chain::Size, self.types, ty, offset) {
            chain::lemma_step(Chain::Size, self.types, ty, offset);
        }
    }
}

} // verus!

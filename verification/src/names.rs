//! The names of types.

use crate::chain;
use crate::chain::Chain;
use crate::namespace;
use crate::namespace::{write_lossy, write_name, Name, Namespace};
use crate::state::{PrintState, Scope};
use crate::text;
use crate::text::write_decimal;
use crate::types::{
    BaseType, EnumerationType, Parameter, StructType, Type, TypeDef, TypeKind, TypeModifierKind,
    UnionType,
};
use vstd::prelude::*;

verus! {

broadcast use text::group_text;

/// What the DWARF format calls an entry with the given tag.
pub uninterp spec fn tag_name(tag: u64) -> Seq<char>;

/// Calls the `Display` of `gimli::DwTag`.
///
/// The text depends on the tag alone and is called [`tag_name`].
#[verifier::external_body]
fn tag_to_string(tag: u64) -> (text: String)
    ensures
        text@ == tag_name(tag),
{
    gimli::DwTag(tag).to_string()
}

/// Appends what the DWARF format calls an entry with the given tag.
pub fn write_tag(w: &mut String, tag: u64)
    ensures
        final(w)@ == old(w)@ + tag_name(tag),
{
    let text = tag_to_string(tag);
    w.append(text.as_str());
}

/// A name with its namespace in front, or a stand-in where there is no name.
pub open spec fn qualified(namespace: Namespace, name: Name, missing: Seq<char>) -> Seq<char> {
    namespace.text() + namespace::name_text(name, missing)
}

/// Appends a name with its namespace in front, or a stand-in where there is no name.
pub fn write_qualified(w: &mut String, namespace: &Namespace, name: Name, missing: &str)
    ensures
        final(w)@ == old(w)@ + qualified(*namespace, name, missing@),
{
    namespace.print(w);
    write_name(w, name, missing);
}

impl<'input> BaseType<'input> {
    /// The name of a base type.
    pub open spec fn text(self) -> Seq<char> {
        namespace::name_text(self.name, "<anon-base-type>"@)
    }

    /// Appends the name.
    pub fn print_name(&self, w: &mut String)
        ensures
            final(w)@ == old(w)@ + self.text(),
    {
        write_name(w, self.name, "<anon-base-type>");
    }
}

impl<'input> TypeDef<'input> {
    /// The name of a type definition.
    pub open spec fn text(self) -> Seq<char> {
        qualified(*self.namespace, self.name, "<anon-typedef>"@)
    }

    /// Appends the name.
    pub fn print_name(&self, w: &mut String)
        ensures
            final(w)@ == old(w)@ + self.text(),
    {
        write_qualified(w, &self.namespace, self.name, "<anon-typedef>");
    }
}

impl<'input> StructType<'input> {
    /// The name of a structure.
    pub open spec fn text(self) -> Seq<char> {
        "struct "@ + qualified(*self.namespace, self.name, "<anon>"@)
    }

    /// Appends the name.
    pub fn print_name(&self, w: &mut String)
        ensures
            final(w)@ == old(w)@ + self.text(),
    {
        w.append("struct ");
        write_qualified(w, &self.namespace, self.name, "<anon>");
    }
}

impl<'input> UnionType<'input> {
    /// The name of a union.
    pub open spec fn text(self) -> Seq<char> {
        "union "@ + qualified(*self.namespace, self.name, "<anon>"@)
    }

    /// Appends the name.
    pub fn print_name(&self, w: &mut String)
        ensures
            final(w)@ == old(w)@ + self.text(),
    {
        w.append("union ");
        write_qualified(w, &self.namespace, self.name, "<anon>");
    }
}

impl<'input> EnumerationType<'input> {
    /// The name of an enumeration.
    pub open spec fn text(self) -> Seq<char> {
        "enum "@ + qualified(*self.namespace, self.name, "<anon>"@)
    }

    /// Appends the name.
    pub fn print_name(&self, w: &mut String)
        ensures
            final(w)@ == old(w)@ + self.text(),
    {
        w.append("enum ");
        write_qualified(w, &self.namespace, self.name, "<anon>");
    }
}

/// What stands in front of the name of a type that is modified.
pub open spec fn modifier_text(kind: TypeModifierKind) -> Seq<char> {
    match kind {
        TypeModifierKind::Const => "const "@,
        TypeModifierKind::Pointer => "* "@,
        TypeModifierKind::Restrict => "restrict "@,
    }
}

impl<'a, 'input> Scope<'a, 'input> where 'input: 'a {
    /// The name of a type. An array, the type of a subroutine and a modified type without a
    /// name of its own are called after the types that they are made of.
    pub open spec fn called(self, ty: Type<'input>) -> Seq<char>
        decreases
            self.endless(Chain::Name, ty),
            chain::rank(Chain::Name, self.types, ty),
            0nat,
        via Self::name_ends
    {
        match ty.kind {
            TypeKind::Base(val) => val.text(),
            TypeKind::TypeDef(val) => val.text(),
            TypeKind::Struct(val) => val.text(),
            TypeKind::Union(val) => val.text(),
            TypeKind::Enumeration(val) => val.text(),
            TypeKind::Array(val) => "["@ + (match val.ty {
                Some(offset) => self.name_at(offset),
                None => "<unknown-type>"@,
            }) + (match val.count {
                Some(count) => "; "@ + text::decimal(count as nat),
                None => seq![],
            }) + "]"@,
            TypeKind::Subroutine(val) => "("@ + self.parameter_names(val.parameters@) + ")"@ + (
            match val.return_type {
                Some(offset) => " -> "@ + self.name_at(offset),
                None => seq![],
            }),
            TypeKind::Modifier(val) => match val.name {
                Some(name) => val.namespace.text() + namespace::lossy(name@),
                None => modifier_text(val.kind) + match val.ty {
                    Some(offset) => self.name_at(offset),
                    None => "<unknown-type>"@,
                },
            },
            TypeKind::Unimplemented(tag) => "<unimplemented "@ + tag_name(tag) + ">"@,
        }
    }

    #[via_fn]
    proof fn name_ends(self, ty: Type<'input>) {
        self.lemma_name_goes_down(ty);
    }

    proof fn lemma_name_goes_down(self, ty: Type<'input>)
        ensures
            chain::ends(Chain::Name, self.types, ty) ==> {
                let rank = chain::rank(Chain::Name, self.types, ty);
                match ty.kind {
                    TypeKind::Array(val) => self.rank_at(Chain::Name, val.ty) < rank,
                    TypeKind::Subroutine(val) => {
                        &&& self.rank_at(Chain::Name, val.return_type) < rank
                        &&& self.most(val.parameters@) < rank
                        &&& forall|i: int|
                            0 <= i < val.parameters@.len() ==> self.rank_at(
                                Chain::Name,
                                (#[trigger] val.parameters@[i]).ty,
                            ) < rank
                    },
                    TypeKind::Modifier(val) => val.name is None ==> self.rank_at(
                        Chain::Name,
                        val.ty,
                    ) < rank,
                    _ => true,
                }
            },
    {
        if chain::ends(Chain::Name, self.types, ty) {
            let rank = chain::rank(Chain::Name, self.types, ty);
            chain::lemma_rank_is_positive(Chain::Name, self.types, ty);
            let offset = match ty.kind {
                TypeKind::Array(val) => val.ty,
                TypeKind::Subroutine(val) => val.return_type,
                TypeKind::Modifier(val) => val.ty,
                _ => None,
            };
            if let Some(offset) = offset {
                if chain::leads(Chain::Name, self.types, ty, offset) {
                    self.lemma_rank_goes_down(Chain::Name, ty, offset);
                }
            }
            if let TypeKind::Subroutine(val) = ty.kind {
                assert forall|i: int| 0 <= i < val.parameters@.len() implies self.rank_at(
                    Chain::Name,
                    (#[trigger] val.parameters@[i]).ty,
                ) < rank by {
                    if let Some(offset) = val.parameters@[i].ty {
                        self.lemma_rank_goes_down(Chain::Name, ty, offset);
                    }
                }
                self.lemma_most(val.parameters@, rank);
            }
        }
    }

    /// The greatest number of steps to the end from the types of parameters.
    pub open spec fn most(self, parameters: Seq<Parameter<'input>>) -> nat
        decreases parameters.len(),
    {
        if parameters.len() == 0 {
            0
        } else {
            let before = self.most(parameters.drop_last());
            let last = self.rank_at(Chain::Name, parameters.last().ty);
            if last > before {
                last
            } else {
                before
            }
        }
    }

    proof fn lemma_most(self, parameters: Seq<Parameter<'input>>, limit: nat)
        requires
            limit > 0,
            forall|i: int|
                0 <= i < parameters.len() ==> self.rank_at(
                    Chain::Name,
                    (#[trigger] parameters[i]).ty,
                ) < limit,
        ensures
            self.most(parameters) < limit,
        decreases parameters.len(),
    {
        if parameters.len() > 0 {
            assert(parameters.last() == parameters[parameters.len() - 1]);
            self.lemma_most(parameters.drop_last(), limit);
        }
    }

    /// The name of the type at an offset. Where the name is made of itself, it is not
    /// followed.
    pub open spec fn name_at(self, offset: usize) -> Seq<char>
        decreases 0nat, self.rank_at(Chain::Name, Some(offset)), 1nat,
    {
        if self.ends_at(Chain::Name, offset) {
            self.called(*self.types[offset])
        } else if self.types.contains_key(offset) {
            "<recursive-type>"@
        } else {
            "<invalid-type>"@
        }
    }

    /// A parameter with its type.
    pub open spec fn parameter_name(self, parameter: Parameter<'input>) -> Seq<char>
        decreases 0nat, self.rank_at(Chain::Name, parameter.ty), 2nat,
    {
        (match parameter.name {
            Some(name) => namespace::lossy(name@) + ": "@,
            None => seq![],
        }) + match parameter.ty {
            Some(offset) => self.name_at(offset),
            None => "<anon>"@,
        }
    }

    /// Parameters with their types, with commas between them.
    pub open spec fn parameter_names(self, parameters: Seq<Parameter<'input>>) -> Seq<char>
        decreases 0nat, self.most(parameters), 3 + parameters.len(),
    {
        if parameters.len() == 0 {
            seq![]
        } else if parameters.len() == 1 {
            self.parameter_name(parameters.last())
        } else {
            self.parameter_names(parameters.drop_last()) + ", "@ + self.parameter_name(
                parameters.last(),
            )
        }
    }
}

impl<'input> Type<'input> {
    /// Appends the name.
    pub fn print_name<'a>(&self, w: &mut String, state: &PrintState<'a, 'input>)
        requires
            state.wf(),
        ensures
            final(w)@ == old(w)@ + state@.called(*self),
        decreases
            state@.endless(Chain::Name, *self),
            chain::rank(Chain::Name, state@.types, *self),
            0nat,
    {
        proof {
            state@.lemma_name_goes_down(*self);
        }
        match &self.kind {
            TypeKind::Base(val) => val.print_name(w),
            TypeKind::TypeDef(val) => val.print_name(w),
            TypeKind::Struct(val) => val.print_name(w),
            TypeKind::Union(val) => val.print_name(w),
            TypeKind::Enumeration(val) => val.print_name(w),
            TypeKind::Array(val) => {
                w.append("[");
                match val.ty {
                    Some(offset) => Type::print_offset_name(w, state, offset),
                    None => w.append("<unknown-type>"),
                }
                if let Some(count) = val.count {
                    w.append("; ");
                    write_decimal(w, count);
                }
                w.append("]");
            },
            TypeKind::Subroutine(val) => {
                w.append("(");
                let ghost before = w@;
                let mut i: usize = 0;
                while i < val.parameters.len()
                    invariant
                        i <= val.parameters.len(),
                        state.wf(),
                        self.kind == TypeKind::Subroutine(*val),
                        chain::ends(Chain::Name, state@.types, *self) ==> forall|j: int|
                            0 <= j < val.parameters@.len() ==> state@.rank_at(
                                Chain::Name,
                                (#[trigger] val.parameters@[j]).ty,
                            ) < chain::rank(Chain::Name, state@.types, *self),
                        w@ == before + state@.parameter_names(val.parameters@.take(i as int)),
                    decreases val.parameters.len() - i,
                {
                    let ghost taken = val.parameters@.take(i + 1);
                    assert(taken.drop_last() =~= val.parameters@.take(i as int));
                    let ghost so_far = w@;
                    if i > 0 {
                        w.append(", ");
                    }
                    let parameter = &val.parameters[i];
                    assert(*parameter == val.parameters@[i as int]);
                    parameter.print(w, state);
                    i = i + 1;
                }
                assert(val.parameters@.take(i as int) =~= val.parameters@);
                w.append(")");
                if let Some(offset) = val.return_type {
                    w.append(" -> ");
                    Type::print_offset_name(w, state, offset);
                }
            },
            TypeKind::Modifier(val) => {
                if let Some(name) = val.name {
                    val.namespace.print(w);
                    write_lossy(w, name);
                } else {
                    match val.kind {
                        TypeModifierKind::Const => w.append("const "),
                        TypeModifierKind::Pointer => w.append("* "),
                        TypeModifierKind::Restrict => w.append("restrict "),
                    }
                    match val.ty {
                        Some(offset) => Type::print_offset_name(w, state, offset),
                        None => w.append("<unknown-type>"),
                    }
                }
            },
            TypeKind::Unimplemented(tag) => {
                w.append("<unimplemented ");
                write_tag(w, *tag);
                w.append(">");
            },
        }
    }

    /// Appends the name of the type at an offset of the current unit.
    pub fn print_offset_name<'a>(w: &mut String, state: &PrintState<'a, 'input>, offset: usize)
        requires
            state.wf(),
        ensures
            final(w)@ == old(w)@ + state@.name_at(offset),
        decreases 0nat, state@.rank_at(Chain::Name, Some(offset)), 1nat,
    {
        broadcast use vstd::std_specs::hash::group_hash_axioms;

        match Type::from_offset(state, offset) {
            Some(ty) => {
                if state.named.contains(&offset) {
                    ty.print_name(w, state);
                } else {
                    w.append("<recursive-type>");
                }
            },
            None => w.append("<invalid-type>"),
        }
    }
}

impl<'input> Parameter<'input> {
    /// Appends the parameter with its type.
    pub fn print<'a>(&self, w: &mut String, state: &PrintState<'a, 'input>)
        requires
            state.wf(),
        ensures
            final(w)@ == old(w)@ + state@.parameter_name(*self),
        decreases 0nat, state@.rank_at(Chain::Name, self.ty), 2nat,
    {
        if let Some(name) = self.name {
            write_lossy(w, name);
            w.append(": ");
        }
        match self.ty {
            Some(offset) => Type::print_offset_name(w, state, offset),
            None => w.append("<anon>"),
        }
    }
}

} // verus!

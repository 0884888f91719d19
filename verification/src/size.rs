//! The sizes of types, members, parameters and variables.

use crate::chain;
use crate::chain::Chain;
use crate::entry;
use crate::state::{PrintState, Scope};
use crate::subprogram::Variable;
use crate::types::{Member, Parameter, Type, TypeKind, TypeModifierKind};
use vstd::prelude::*;

verus! {

/// A number of bytes in bits, where it is known.
pub open spec fn maybe_in_bits(bytes: Option<u64>) -> Option<u64> {
    match bytes {
        Some(bytes) => Some(entry::in_bits(bytes)),
        None => None,
    }
}

fn to_bits(bytes: Option<u64>) -> (bits: Option<u64>)
    ensures
        bits == maybe_in_bits(bytes),
{
    match bytes {
        Some(bytes) => Some(bytes.wrapping_mul(8)),
        None => None,
    }
}

impl<'a, 'input> Scope<'a, 'input> where 'input: 'a {
    /// The size of a type in bits. A type definition and a type that is only modified have
    /// the size of the type that they refer to, a pointer has that of an address, and an
    /// array that of as many elements as it has.
    pub open spec fn size(self, ty: Type<'input>) -> Option<u64>
        decreases
            self.endless(Chain::Size, ty),
            chain::rank(Chain::Size, self.types, ty),
            0nat,
        via Self::size_ends
    {
        match ty.kind {
            TypeKind::Base(val) => maybe_in_bits(val.byte_size),
            TypeKind::TypeDef(val) => self.size_at(val.ty),
            TypeKind::Struct(val) => maybe_in_bits(val.byte_size),
            TypeKind::Union(val) => maybe_in_bits(val.byte_size),
            TypeKind::Enumeration(val) => maybe_in_bits(val.byte_size),
            TypeKind::Array(val) => match val.count {
                Some(count) => match self.size_at(val.ty) {
                    Some(size) => Some(size.wrapping_mul(count)),
                    None => None,
                },
                None => None,
            },
            TypeKind::Subroutine(_) => None,
            TypeKind::Modifier(val) => if val.byte_size is Some {
                maybe_in_bits(val.byte_size)
            } else if val.kind is Pointer {
                maybe_in_bits(self.address_size)
            } else {
                self.size_at(val.ty)
            },
            TypeKind::Unimplemented(_) => None,
        }
    }

    #[via_fn]
    proof fn size_ends(self, ty: Type<'input>) {
        self.lemma_size_goes_down(ty);
    }

    proof fn lemma_size_goes_down(self, ty: Type<'input>)
        ensures
            chain::ends(Chain::Size, self.types, ty) ==> {
                let rank = chain::rank(Chain::Size, self.types, ty);
                match ty.kind {
                    TypeKind::TypeDef(val) => self.rank_at(Chain::Size, val.ty) < rank,
                    TypeKind::Array(val) => val.count is Some ==> self.rank_at(Chain::Size, val.ty)
                        < rank,
                    TypeKind::Modifier(val) => val.byte_size is None && !(val.kind is Pointer)
                        ==> self.rank_at(Chain::Size, val.ty) < rank,
                    _ => true,
                }
            },
    {
        if chain::ends(Chain::Size, self.types, ty) {
            chain::lemma_rank_is_positive(Chain::Size, self.types, ty);
            let offset = match ty.kind {
                TypeKind::TypeDef(val) => val.ty,
                TypeKind::Array(val) => val.ty,
                TypeKind::Modifier(val) => val.ty,
                _ => None,
            };
            if let Some(offset) = offset {
                if chain::leads(Chain::Size, self.types, ty, offset) {
                    self.lemma_rank_goes_down(Chain::Size, ty, offset);
                }
            }
        }
    }

    /// The size in bits of the type at an offset; none where there is no type at the
    /// offset, and none where the size of the type depends on itself.
    pub open spec fn size_at(self, offset: Option<usize>) -> Option<u64>
        decreases 0nat, self.rank_at(Chain::Size, offset), 1nat,
    {
        match offset {
            Some(offset) => if self.ends_at(Chain::Size, offset) {
                self.size(*self.types[offset])
            } else {
                None
            },
            None => None,
        }
    }
}

impl<'input> Type<'input> {
    /// The type at an offset of the current unit.
    pub fn from_offset<'a>(state: &PrintState<'a, 'input>, offset: usize) -> (ty: Option<
        &'a Type<'input>,
    >)
        ensures
            ty == state@.type_at(Some(offset)),
    {
        broadcast use vstd::std_specs::hash::group_hash_axioms;

        match state.types.get(&offset) {
            Some(ty) => Some(*ty),
            None => None,
        }
    }

    /// The size of the type in bits.
    pub fn bit_size<'a>(&self, state: &PrintState<'a, 'input>) -> (size: Option<u64>)
        requires
            state.wf(),
        ensures
            size == state@.size(*self),
        decreases
            state@.endless(Chain::Size, *self),
            chain::rank(Chain::Size, state@.types, *self),
            0nat,
    {
        proof {
            state@.lemma_size_goes_down(*self);
        }
        match &self.kind {
            TypeKind::Base(val) => to_bits(val.byte_size),
            TypeKind::TypeDef(val) => Type::offset_bit_size(state, val.ty),
            TypeKind::Struct(val) => to_bits(val.byte_size),
            TypeKind::Union(val) => to_bits(val.byte_size),
            TypeKind::Enumeration(val) => to_bits(val.byte_size),
            TypeKind::Array(val) => match val.count {
                Some(count) => match Type::offset_bit_size(state, val.ty) {
                    Some(size) => Some(size.wrapping_mul(count)),
                    None => None,
                },
                None => None,
            },
            TypeKind::Subroutine(_) => None,
            TypeKind::Modifier(val) => {
                if val.byte_size.is_some() {
                    return to_bits(val.byte_size);
                }
                match val.kind {
                    TypeModifierKind::Pointer => to_bits(state.address_size),
                    TypeModifierKind::Const | TypeModifierKind::Restrict => {
                        Type::offset_bit_size(state, val.ty)
                    },
                }
            },
            TypeKind::Unimplemented(_) => None,
        }
    }

    /// The size in bits of the type at an offset of the current unit.
    pub fn offset_bit_size<'a>(
        state: &PrintState<'a, 'input>,
        offset: Option<usize>,
    ) -> (size: Option<u64>)
        requires
            state.wf(),
        ensures
            size == state@.size_at(offset),
        decreases 0nat, state@.rank_at(Chain::Size, offset), 1nat,
    {
        broadcast use vstd::std_specs::hash::group_hash_axioms;

        if let Some(offset) = offset {
            if state.sized.contains(&offset) {
                if let Some(ty) = Type::from_offset(state, offset) {
                    return ty.bit_size(state);
                }
            }
        }
        None
    }
}

impl<'input> Member<'input> {
    /// The size of a member in bits: its own where it has one, else that of its type.
    pub open spec fn size<'a>(self, scope: Scope<'a, 'input>) -> Option<u64> {
        if self.bit_size is Some {
            self.bit_size
        } else {
            scope.size_at(self.ty)
        }
    }

    /// The size of the member in bits.
    pub fn get_bit_size<'a>(&self, state: &PrintState<'a, 'input>) -> (size: Option<u64>)
        requires
            state.wf(),
        ensures
            size == self.size(state@),
    {
        if self.bit_size.is_some() {
            self.bit_size
        } else {
            Type::offset_bit_size(state, self.ty)
        }
    }
}

impl<'input> Parameter<'input> {
    /// The size of the parameter's type in bits.
    pub fn bit_size<'a>(&self, state: &PrintState<'a, 'input>) -> (size: Option<u64>)
        requires
            state.wf(),
        ensures
            size == state@.size_at(self.ty),
    {
        Type::offset_bit_size(state, self.ty)
    }
}

impl<'input> Variable<'input> {
    /// The size of the variable's type in bits.
    pub fn bit_size<'a>(&self, state: &PrintState<'a, 'input>) -> (size: Option<u64>)
        requires
            state.wf(),
        ensures
            size == state@.size_at(self.ty),
    {
        Type::offset_bit_size(state, self.ty)
    }
}

impl<'a, 'input> Scope<'a, 'input> where 'input: 'a {
    proof fn lemma_size_ends(self, ty: Type<'input>, offset: usize)
        requires
            match ty.kind {
                TypeKind::TypeDef(val) => val.ty == Some(offset),
                TypeKind::Array(val) => val.ty == Some(offset),
                TypeKind::Modifier(val) => val.ty == Some(offset) || val.byte_size is Some
                    || val.kind is Pointer,
                _ => true,
            },
            chain::leads(Chain::Size, self.types, ty, offset) ==> self.ends_at(Chain::Size, offset),
        ensures
            chain::ends(Chain::Size, self.types, ty),
    {
        chain::lemma_ends_behind(Chain::Size, self.types, ty, offset);
    }

    /// A type whose entry gives its size in bytes has eight times that size in bits, whatever
    /// else it is made of, and so has whatever refers to it.
    pub proof fn lemma_given_size_counts(self, ty: Type<'input>, bytes: u64, offset: usize)
        requires
            8 * bytes <= u64::MAX,
            match ty.kind {
                TypeKind::Base(val) => val.byte_size == Some(bytes),
                TypeKind::Struct(val) => val.byte_size == Some(bytes),
                TypeKind::Union(val) => val.byte_size == Some(bytes),
                TypeKind::Enumeration(val) => val.byte_size == Some(bytes),
                TypeKind::Modifier(val) => val.byte_size == Some(bytes),
                _ => false,
            },
        ensures
            self.size(ty) is Some,
            self.size(ty)->0 == 8 * bytes,
            self.type_at(Some(offset)) == Some(&ty) ==> self.size_at(Some(offset)) == self.size(ty),
    {
        self.lemma_size_ends(ty, 0);
    }

    /// A base type, a structure, a union and an enumeration without a size in bytes, an array
    /// without a count, the type of a subroutine, a type that is not known and a reference to
    /// no type have no size.
    pub proof fn lemma_missing_size_is_missing(self, ty: Type<'input>, offset: Option<usize>)
        requires
            match ty.kind {
                TypeKind::Base(val) => val.byte_size is None,
                TypeKind::Struct(val) => val.byte_size is None,
                TypeKind::Union(val) => val.byte_size is None,
                TypeKind::Enumeration(val) => val.byte_size is None,
                TypeKind::Array(val) => val.count is None || val.ty is None,
                TypeKind::TypeDef(val) => val.ty is None,
                TypeKind::Modifier(val) => val.byte_size is None && !(val.kind is Pointer)
                    && val.ty is None,
                TypeKind::Subroutine(_) => true,
                TypeKind::Unimplemented(_) => true,
            },
        ensures
            self.size(ty) is None,
            self.type_at(offset) is None ==> self.size_at(offset) is None,
    {
    }

    /// A type definition, a constant type and a restricted type have the size of the type that
    /// they refer to, and a pointer has that of an address, whatever it points to.
    pub proof fn lemma_size_of_reference(self, ty: Type<'input>, offset: usize, meant: usize)
        requires
            match ty.kind {
                TypeKind::TypeDef(val) => val.ty == Some(meant),
                TypeKind::Modifier(val) => val.ty == Some(meant) && val.byte_size is None
                    && !(val.kind is Pointer),
                _ => false,
            },
        ensures
            self.size(ty) == self.size_at(Some(meant)),
            self.type_at(Some(offset)) == Some(&ty) && self.size_at(Some(meant)) is Some
                ==> self.size_at(Some(offset)) == self.size_at(Some(meant)),
    {
        if self.size_at(Some(meant)) is Some {
            self.lemma_size_ends(ty, meant);
        }
    }

    /// A pointer without a size of its own has that of an address of the unit, whatever it
    /// points to.
    pub proof fn lemma_size_of_pointer(self, ty: Type<'input>, offset: usize)
        requires
            ty.kind matches TypeKind::Modifier(val) && val.kind is Pointer && val.byte_size is None,
        ensures
            match self.address_size {
                Some(bytes) => 8 * bytes <= u64::MAX ==> self.size(ty) is Some && self.size(ty)->0
                    == 8 * bytes,
                None => self.size(ty) is None,
            },
            self.type_at(Some(offset)) == Some(&ty) ==> self.size_at(Some(offset)) == self.size(ty),
    {
        self.lemma_size_ends(ty, 0);
    }

    /// An array is as large as all its elements together.
    pub proof fn lemma_size_of_array(self, ty: Type<'input>, offset: usize, element: usize)
        requires
            ty.kind matches TypeKind::Array(val) && val.ty == Some(element) && val.count is Some,
            self.size_at(Some(element)) is Some,
            self.size_at(Some(element))->0 * ty.kind->Array_0.count->0 <= u64::MAX,
        ensures
            self.size(ty) is Some,
            self.size(ty)->0 == self.size_at(Some(element))->0 * ty.kind->Array_0.count->0,
            self.type_at(Some(offset)) == Some(&ty) ==> self.size_at(Some(offset)) == self.size(ty),
    {
        self.lemma_size_ends(ty, element);
        let size = self.size_at(Some(element))->0;
        let count = ty.kind->Array_0.count->0;
        assert(0 <= size * count) by (nonlinear_arith)
            requires
                0 <= size,
                0 <= count,
        ;
    }

    /// Sizes that do not fit are counted around the end of the range of numbers: that of a type
    /// whose entry gives it in bytes, and that of all the elements of an array together.
    pub proof fn lemma_sizes_are_counted_around(self, ty: Type<'input>, bytes: u64, element: usize)
        ensures
            (match ty.kind {
                TypeKind::Base(val) => val.byte_size == Some(bytes),
                TypeKind::Struct(val) => val.byte_size == Some(bytes),
                TypeKind::Union(val) => val.byte_size == Some(bytes),
                TypeKind::Enumeration(val) => val.byte_size == Some(bytes),
                TypeKind::Modifier(val) => val.byte_size == Some(bytes) || val.byte_size is None
                    && val.kind is Pointer && self.address_size == Some(bytes),
                _ => false,
            }) ==> self.size(ty) is Some && entry::same_around(
                self.size(ty)->0 as int,
                8 * bytes,
            ),
            (ty.kind matches TypeKind::Array(val) && val.ty == Some(element) && val.count
                == Some(bytes)) && self.size_at(Some(element)) is Some ==> self.size(ty) is Some
                && entry::same_around(
                self.size(ty)->0 as int,
                self.size_at(Some(element))->0 * bytes,
            ),
    {
        entry::lemma_bits_are_counted_around(bytes);
        if self.size_at(Some(element)) is Some {
            let product = self.size_at(Some(element))->0 * bytes;
            assert(product >= 0) by (nonlinear_arith)
                requires
                    product == self.size_at(Some(element))->0 * bytes,
            ;
            assert(entry::same_around(product % 0x1_0000_0000_0000_0000, product));
        }
    }

    /// A member with a size of its own has that size, and any other has that of its type. It
    /// ends its size behind its start.
    pub proof fn lemma_member_ends_behind_its_size(self, member: Member<'input>)
        ensures
            member.bit_size is Some ==> member.size(self) == member.bit_size,
            member.bit_size is None ==> member.size(self) == self.size_at(member.ty),
            match (member.size(self), member.end(self)) {
                (Some(size), Some(end)) => end == member.bit_offset + size,
                (Some(size), None) => member.bit_offset + size > u64::MAX,
                (None, end) => end is None,
            },
    {
    }
}

} // verus!

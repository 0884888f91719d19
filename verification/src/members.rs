//! The members of structures and unions as text.

use crate::chain;
use crate::chain::Chain;
use crate::entry;
use crate::namespace;
use crate::namespace::write_name;
use crate::state::{PrintState, Scope};
use crate::text;
use crate::text::write_bits;
use crate::types::{Member, StructType, Type, TypeKind, UnionType};
use vstd::prelude::*;

verus! {

/// A line that says that there is nothing between two places.
pub open spec fn padding(from: u64, to: u64, indent: Seq<char>) -> Seq<char> {
    indent + text::bits(from as nat) + "["@ + text::bits((to - from) as nat) + "]\t<padding>\n"@
}

fn write_padding(w: &mut String, from: u64, to: u64, indent: &str)
    requires
        from <= to,
    ensures
        final(w)@ == old(w)@ + padding(from, to, indent@),
{
    w.append(indent);
    write_bits(w, from);
    w.append("[");
    write_bits(w, to - from);
    w.append("]\t<padding>\n");
    assert(w@ =~= old(w)@ + padding(from, to, indent@));
}

/// A size in brackets, or question marks where it is not known.
pub open spec fn bracketed(size: Option<u64>) -> Seq<char> {
    match size {
        Some(size) => "["@ + text::bits(size as nat) + "]"@,
        None => "[??]"@,
    }
}

/// Appends a size in brackets, or question marks where it is not known.
pub fn write_bracketed(w: &mut String, size: Option<u64>)
    ensures
        final(w)@ == old(w)@ + bracketed(size),
{
    match size {
        Some(size) => {
            w.append("[");
            write_bits(w, size);
            w.append("]");
            assert(w@ =~= old(w)@ + bracketed(Some(size)));
        },
        None => w.append("[??]"),
    }
}

impl<'input> Member<'input> {
    /// Where a member ends, in bits; none where its size is not known or the end does not
    /// fit.
    pub open spec fn end<'a>(self, scope: Scope<'a, 'input>) -> Option<u64> {
        match self.size(scope) {
            Some(size) => if self.bit_offset + size <= u64::MAX {
                Some((self.bit_offset + size) as u64)
            } else {
                None
            },
            None => None,
        }
    }
}

impl<'a, 'input> Scope<'a, 'input> where 'input: 'a {
    /// The type whose members are printed below a member: its type, where the member or
    /// the type has no name. The members of a type that holds itself are left out.
    pub open spec fn inlined(self, member: Member<'input>) -> Option<&'a Type<'input>> {
        match member.ty {
            Some(offset) => if self.ends_at(Chain::Members, offset) && (member.anonymous()
                || self.types[offset].anonymous()) {
                Some(self.types[offset])
            } else {
                None
            },
            None => None,
        }
    }

    /// The steps to the end from the type whose members are printed below a member.
    pub open spec fn inlined_rank(self, member: Member<'input>) -> nat {
        match self.inlined(member) {
            Some(ty) => chain::rank(Chain::Members, self.types, *ty),
            None => 0,
        }
    }

    /// The greatest of these numbers of steps.
    pub open spec fn most_inlined(self, members: Seq<Member<'input>>) -> nat
        decreases members.len(),
    {
        if members.len() == 0 {
            0
        } else {
            let before = self.most_inlined(members.drop_last());
            let last = self.inlined_rank(members.last());
            if last > before {
                last
            } else {
                before
            }
        }
    }

    proof fn lemma_most_inlined(self, ty: Type<'input>, count: int)
        requires
            chain::ends(Chain::Members, self.types, ty),
            0 <= count <= ty.members().len(),
        ensures
            self.most_inlined(ty.members().take(count)) < chain::rank(
                Chain::Members,
                self.types,
                ty,
            ),
        decreases count,
    {
        let members = ty.members().take(count);
        chain::lemma_rank_is_positive(Chain::Members, self.types, ty);
        if count > 0 {
            assert(members.drop_last() =~= ty.members().take(count - 1));
            self.lemma_most_inlined(ty, count - 1);
            let member = ty.members()[count - 1];
            assert(members.last() == member);
            if self.inlined(member) is Some {
                assert(chain::leads(Chain::Members, self.types, ty, member.ty->0));
                chain::lemma_step(Chain::Members, self.types, ty, member.ty->0);
            }
        }
    }

    proof fn lemma_inlined_goes_down(self, member: Member<'input>)
        ensures
            match self.inlined(member) {
                Some(ty) => self.most_inlined(ty.members()) < self.inlined_rank(member),
                None => true,
            },
    {
        if let Some(ty) = self.inlined(member) {
            self.lemma_most_inlined(*ty, ty.members().len() as int);
            assert(ty.members().take(ty.members().len() as int) =~= ty.members());
        }
    }

    proof fn lemma_most_is_most(self, members: Seq<Member<'input>>, i: int)
        requires
            0 <= i < members.len(),
        ensures
            self.inlined_rank(members[i]) <= self.most_inlined(members),
        decreases members.len(),
    {
        if i < members.len() - 1 {
            assert(members.drop_last()[i] == members[i]);
            self.lemma_most_is_most(members.drop_last(), i);
        }
    }

    /// The lines for a member itself: the gap between it and where the member before it
    /// ended, and its offset, size, name and type.
    pub open spec fn member_line(
        self,
        member: Member<'input>,
        before: Option<u64>,
        indent: Seq<char>,
    ) -> Seq<char> {
        (match before {
            Some(end) => if member.bit_offset > end {
                padding(end, member.bit_offset, indent)
            } else {
                seq![]
            },
            None => seq![],
        }) + indent + text::bits(member.bit_offset as nat) + bracketed(member.size(self)) + "\t"@
            + namespace::name_text(member.name, "<anon>"@) + ": "@ + (match member.ty {
            Some(offset) => self.name_at(offset),
            None => "<invalid-type>"@,
        }) + "\n"@
    }

    /// A member, and below it the members of a type that is printed with it.
    pub open spec fn member(
        self,
        member: Member<'input>,
        before: Option<u64>,
        indent: Seq<char>,
    ) -> Seq<char>
        decreases self.inlined_rank(member), 1nat,
        via Self::member_ends
    {
        self.member_line(member, before, indent) + (match self.inlined(member) {
            Some(ty) => match ty.kind {
                TypeKind::Struct(val) => self.struct_members(
                    val,
                    Some(member.bit_offset),
                    indent + "\t"@,
                ),
                TypeKind::Union(val) => self.members(
                    val.members@,
                    Some(member.bit_offset),
                    indent + "\t"@,
                    false,
                ),
                _ => seq![],
            },
            None => seq![],
        })
    }

    #[via_fn]
    proof fn member_ends(self, member: Member<'input>, before: Option<u64>, indent: Seq<char>) {
        self.lemma_inlined_goes_down(member);
    }

    /// Members. In a structure each is held against the end of the one before it, in a
    /// union each against the start.
    pub open spec fn members(
        self,
        members: Seq<Member<'input>>,
        start: Option<u64>,
        indent: Seq<char>,
        in_row: bool,
    ) -> Seq<char>
        decreases self.most_inlined(members), 2 + members.len(),
    {
        if members.len() == 0 {
            seq![]
        } else {
            self.members(members.drop_last(), start, indent, in_row) + self.member(
                members.last(),
                if in_row {
                    self.members_end(members.drop_last(), start)
                } else {
                    start
                },
                indent,
            )
        }
    }

    /// Where the last of some members ends, or the start where there is none.
    pub open spec fn members_end(self, members: Seq<Member<'input>>, start: Option<u64>) -> Option<
        u64,
    > {
        if members.len() == 0 {
            start
        } else {
            members.last().end(self)
        }
    }

    /// The members of a structure, and the gap behind the last of them.
    pub open spec fn struct_members(
        self,
        ty: StructType<'input>,
        start: Option<u64>,
        indent: Seq<char>,
    ) -> Seq<char>
        decreases self.most_inlined(ty.members@), 3 + ty.members@.len(),
    {
        self.members(ty.members@, start, indent, true) + match (
            self.members_end(ty.members@, start),
            ty.byte_size,
        ) {
            (Some(end), Some(size)) => if end < entry::in_bits(size) {
                padding(end, entry::in_bits(size), indent)
            } else {
                seq![]
            },
            _ => seq![],
        }
    }
}

impl<'input> Member<'input> {
    fn print_line<'a>(
        &self,
        w: &mut String,
        state: &PrintState<'a, 'input>,
        before: Option<u64>,
        size: Option<u64>,
        indent: &str,
    )
        requires
            state.wf(),
            size == self.size(state@),
        ensures
            final(w)@ == old(w)@ + state@.member_line(*self, before, indent@),
    {
        if let Some(end) = before {
            if self.bit_offset > end {
                write_padding(w, end, self.bit_offset, indent);
            }
        }
        w.append(indent);
        write_bits(w, self.bit_offset);
        write_bracketed(w, size);
        w.append("\t");
        write_name(w, self.name, "<anon>");
        w.append(": ");
        match self.ty {
            Some(offset) => Type::print_offset_name(w, state, offset),
            None => w.append("<invalid-type>"),
        }
        w.append("\n");
        assert(w@ =~= old(w)@ + state@.member_line(*self, before, indent@));
    }

    /// The type whose members are printed below the member.
    fn get_inlined<'a>(&self, state: &PrintState<'a, 'input>) -> (ty: Option<&'a Type<'input>>)
        requires
            state.wf(),
        ensures
            ty == state@.inlined(*self),
    {
        broadcast use vstd::std_specs::hash::group_hash_axioms;

        if let Some(offset) = self.ty {
            if state.listed.contains(&offset) {
                if let Some(ty) = Type::from_offset(state, offset) {
                    if self.is_anon() || ty.is_anon() {
                        return Some(ty);
                    }
                }
            }
        }
        None
    }

    /// Appends the member. The place where the member before it ended becomes the place
    /// where it ends.
    pub fn print<'a>(
        &self,
        w: &mut String,
        state: &PrintState<'a, 'input>,
        end_bit_offset: &mut Option<u64>,
        indent: &str,
    )
        requires
            state.wf(),
        ensures
            final(w)@ == old(w)@ + state@.member(*self, *old(end_bit_offset), indent@),
            *final(end_bit_offset) == self.end(state@),
        decreases state@.inlined_rank(*self), 1nat,
    {
        let size = self.get_bit_size(state);
        self.print_line(w, state, *end_bit_offset, size, indent);
        *end_bit_offset = match size {
            Some(size) => self.bit_offset.checked_add(size),
            None => None,
        };
        proof {
            state@.lemma_inlined_goes_down(*self);
        }
        if let Some(ty) = self.get_inlined(state) {
            let mut deeper = String::new();
            deeper.append(indent);
            deeper.append("\t");
            assert(deeper@ =~= indent@ + "\t"@);
            match &ty.kind {
                TypeKind::Struct(val) => val.print_members(
                    w,
                    state,
                    Some(self.bit_offset),
                    deeper.as_str(),
                ),
                TypeKind::Union(val) => val.print_members(
                    w,
                    state,
                    Some(self.bit_offset),
                    deeper.as_str(),
                ),
                _ => {},
            }
        }
        assert(w@ =~= old(w)@ + state@.member(*self, *old(end_bit_offset), indent@));
    }
}

impl<'input> StructType<'input> {
    /// Appends the members, and the gap behind the last of them.
    pub fn print_members<'a>(
        &self,
        w: &mut String,
        state: &PrintState<'a, 'input>,
        bit_offset: Option<u64>,
        indent: &str,
    )
        requires
            state.wf(),
        ensures
            final(w)@ == old(w)@ + state@.struct_members(*self, bit_offset, indent@),
        decreases state@.most_inlined(self.members@), 2 + self.members@.len(),
    {
        let mut end = bit_offset;
        let mut i: usize = 0;
        while i < self.members.len()
            invariant
                i <= self.members.len(),
                state.wf(),
                end == state@.members_end(self.members@.take(i as int), bit_offset),
                w@ == old(w)@ + state@.members(
                    self.members@.take(i as int),
                    bit_offset,
                    indent@,
                    true,
                ),
            decreases self.members.len() - i,
        {
            let ghost taken = self.members@.take(i + 1);
            assert(taken.drop_last() =~= self.members@.take(i as int));
            proof {
                state@.lemma_most_is_most(self.members@, i as int);
            }
            self.members[i].print(w, state, &mut end, indent);
            i = i + 1;
            assert(w@ =~= old(w)@ + state@.members(taken, bit_offset, indent@, true));
        }
        assert(self.members@.take(i as int) =~= self.members@);
        if let (Some(end), Some(size)) = (end, self.byte_size) {
            let size: u64 = size.wrapping_mul(8);
            if end < size {
                write_padding(w, end, size, indent);
            }
        }
        assert(w@ =~= old(w)@ + state@.struct_members(*self, bit_offset, indent@));
    }
}

impl<'input> UnionType<'input> {
    /// Appends the members.
    pub fn print_members<'a>(
        &self,
        w: &mut String,
        state: &PrintState<'a, 'input>,
        bit_offset: Option<u64>,
        indent: &str,
    )
        requires
            state.wf(),
        ensures
            final(w)@ == old(w)@ + state@.members(self.members@, bit_offset, indent@, false),
        decreases state@.most_inlined(self.members@), 2 + self.members@.len(),
    {
        let mut i: usize = 0;
        while i < self.members.len()
            invariant
                i <= self.members.len(),
                state.wf(),
                w@ == old(w)@ + state@.members(
                    self.members@.take(i as int),
                    bit_offset,
                    indent@,
                    false,
                ),
            decreases self.members.len() - i,
        {
            let ghost taken = self.members@.take(i + 1);
            assert(taken.drop_last() =~= self.members@.take(i as int));
            proof {
                state@.lemma_most_is_most(self.members@, i as int);
            }
            let mut end = bit_offset;
            self.members[i].print(w, state, &mut end, indent);
            i = i + 1;
            assert(w@ =~= old(w)@ + state@.members(taken, bit_offset, indent@, false));
        }
        assert(self.members@.take(i as int) =~= self.members@);
    }
}

/// A size stands in brackets, and one that is not known is marked as such; what lies between two
/// places is printed with where it begins and how much it is.
pub proof fn lemma_sizes_stand_in_brackets(size: u64, from: u64, indent: Seq<char>)
    requires
        from + size <= u64::MAX,
    ensures
        bracketed(Some(size)) == "["@ + text::bits(size as nat) + "]"@,
        bracketed(None) == "[??]"@,
        padding(from, (from + size) as u64, indent) == indent + text::bits(from as nat) + "["@
            + text::bits(size as nat) + "]\t<padding>\n"@,
{
}

} // verus!

//! What the lines for the members of a structure say of its layout.

use crate::chain;
use crate::chain::Chain;
use crate::entry;
use crate::members;
use crate::state::Scope;
use crate::text;
use crate::types::{Member, StructType};
use vstd::prelude::*;

verus! {

/// A part of a structure: from one bit up to another. It is a member's, or a gap.
pub struct Row<'input> {
    pub from: u64,
    pub to: u64,
    pub member: Option<Member<'input>>,
}

/// The gap between two places, where there is one.
pub open spec fn gap<'input>(from: u64, to: u64) -> Seq<Row<'input>> {
    if from < to {
        seq![Row { from, to, member: None }]
    } else {
        seq![]
    }
}

/// Whether rows lead from one place to another without a hole and without an overlap.
pub open spec fn contiguous(rows: Seq<Row>, start: u64, end: u64) -> bool
    decreases rows.len(),
{
    if rows.len() == 0 {
        start == end
    } else {
        &&& rows.last().from <= rows.last().to
        &&& rows.last().to == end
        &&& contiguous(rows.drop_last(), start, rows.last().from)
    }
}

impl<'a, 'input> Scope<'a, 'input> where 'input: 'a {
    /// Where the last of some members ends, or the start where there is none.
    pub open spec fn row_end(self, members: Seq<Member<'input>>, start: u64) -> u64 {
        self.members_end(members, Some(start))->0
    }

    /// Whether each member starts where the one before it ends or behind that, and ends at a
    /// known place.
    pub open spec fn in_row(self, members: Seq<Member<'input>>, start: u64) -> bool
        decreases members.len(),
    {
        members.len() > 0 ==> {
            &&& self.in_row(members.drop_last(), start)
            &&& self.row_end(members.drop_last(), start) <= members.last().bit_offset
            &&& members.last().end(self) is Some
        }
    }

    /// The rows of some members: each member, behind the gap before it.
    pub open spec fn rows(self, members: Seq<Member<'input>>, start: u64) -> Seq<Row<'input>>
        decreases members.len(),
    {
        if members.len() == 0 {
            seq![]
        } else {
            let member = members.last();
            let before = members.drop_last();
            (self.rows(before, start) + gap(self.row_end(before, start), member.bit_offset)).push(
                Row { from: member.bit_offset, to: member.end(self)->0, member: Some(member) },
            )
        }
    }

    /// The rows of a structure: those of its members, and the gap behind them.
    pub open spec fn struct_rows(self, ty: StructType<'input>, start: u64) -> Seq<Row<'input>> {
        self.rows(ty.members@, start) + match ty.byte_size {
            Some(size) => gap(self.row_end(ty.members@, start), entry::in_bits(size)),
            None => seq![],
        }
    }

    /// The lines for a row.
    pub open spec fn row_text(self, row: Row<'input>, indent: Seq<char>) -> Seq<char> {
        match row.member {
            Some(member) => self.member(member, None, indent),
            None => members::padding(row.from, row.to, indent),
        }
    }

    /// The lines for some rows.
    pub open spec fn rows_text(self, rows: Seq<Row<'input>>, indent: Seq<char>) -> Seq<char>
        decreases rows.len(),
    {
        if rows.len() == 0 {
            seq![]
        } else {
            self.rows_text(rows.drop_last(), indent) + self.row_text(rows.last(), indent)
        }
    }

    proof fn lemma_push(self, rows: Seq<Row<'input>>, row: Row<'input>, indent: Seq<char>)
        ensures
            self.rows_text(rows.push(row), indent) == self.rows_text(rows, indent)
                + self.row_text(row, indent),
    {
        assert(rows.push(row).drop_last() =~= rows);
    }

    proof fn lemma_gap(
        self,
        rows: Seq<Row<'input>>,
        start: u64,
        from: u64,
        to: u64,
        indent: Seq<char>,
    )
        requires
            contiguous(rows, start, from),
            from <= to,
        ensures
            contiguous(rows + gap(from, to), start, to),
            self.rows_text(rows + gap(from, to), indent) == self.rows_text(rows, indent) + (if from
                < to {
                members::padding(from, to, indent)
            } else {
                seq![]
            }),
    {
        if from < to {
            let row = Row { from, to, member: None };
            assert(rows + gap(from, to) =~= rows.push(row));
            assert(rows.push(row).drop_last() =~= rows);
        } else {
            assert(rows + gap(from, to) =~= rows);
            text::lemma_nothing_added(self.rows_text(rows, indent));
        }
    }

    proof fn lemma_gap_stands_before(
        self,
        member: Member<'input>,
        before: u64,
        indent: Seq<char>,
    )
        ensures
            self.member(member, Some(before), indent) == (if member.bit_offset > before {
                members::padding(before, member.bit_offset, indent)
            } else {
                seq![]
            }) + self.member(member, None, indent),
    {
        let space = if member.bit_offset > before {
            members::padding(before, member.bit_offset, indent)
        } else {
            seq![]
        };
        assert(self.member_line(member, Some(before), indent) =~= space + self.member_line(
            member,
            None,
            indent,
        ));
        assert(self.member(member, Some(before), indent) =~= space + self.member(
            member,
            None,
            indent,
        ));
    }

    proof fn lemma_members_are_rows(
        self,
        members: Seq<Member<'input>>,
        start: u64,
        indent: Seq<char>,
    )
        requires
            self.in_row(members, start),
        ensures
            self.members_end(members, Some(start)) is Some,
            contiguous(self.rows(members, start), start, self.row_end(members, start)),
            self.members(members, Some(start), indent, true) == self.rows_text(
                self.rows(members, start),
                indent,
            ),
        decreases members.len(),
    {
        if members.len() > 0 {
            let member = members.last();
            let before = members.drop_last();
            let end = self.row_end(before, start);
            self.lemma_members_are_rows(before, start, indent);
            let rows = self.rows(before, start);
            self.lemma_gap(rows, start, end, member.bit_offset, indent);
            self.lemma_gap_stands_before(member, end, indent);
            let row = Row { from: member.bit_offset, to: member.end(self)->0, member: Some(member) };
            let wide = rows + gap(end, member.bit_offset);
            assert(wide.push(row).drop_last() =~= wide);
            self.lemma_push(wide, row, indent);
        }
    }

    /// The lines for a structure cover it: where its members follow each other and end
    /// within its size, each bit from the start up to the size stands in one line, which is
    /// either the line of a member or that of a gap.
    pub proof fn lemma_lines_cover_structure(
        self,
        ty: StructType<'input>,
        start: u64,
        indent: Seq<char>,
    )
        requires
            self.in_row(ty.members@, start),
            ty.byte_size is Some,
            self.row_end(ty.members@, start) <= entry::in_bits(ty.byte_size->0),
        ensures
            contiguous(self.struct_rows(ty, start), start, entry::in_bits(ty.byte_size->0)),
            self.struct_members(ty, Some(start), indent) == self.rows_text(
                self.struct_rows(ty, start),
                indent,
            ),
    {
        let end = self.row_end(ty.members@, start);
        self.lemma_members_are_rows(ty.members@, start, indent);
        self.lemma_gap(
            self.rows(ty.members@, start),
            start,
            end,
            entry::in_bits(ty.byte_size->0),
            indent,
        );
    }
}

/// The types of members.
spec fn types_of(members: Seq<Member>) -> Seq<usize>
    decreases members.len(),
{
    if members.len() == 0 {
        seq![]
    } else {
        match members.last().ty {
            Some(offset) => types_of(members.drop_last()).push(offset),
            None => types_of(members.drop_last()),
        }
    }
}

proof fn lemma_types_of(members: Seq<Member>, i: int)
    requires
        0 <= i < members.len(),
        members[i].ty is Some,
    ensures
        types_of(members).contains(members[i].ty->0),
    decreases members.len(),
{
    let all = types_of(members);
    if i == members.len() - 1 {
        assert(all[all.len() - 1] == members[i].ty->0);
    } else {
        let rest = members.drop_last();
        lemma_types_of(rest, i);
        let before = types_of(rest);
        let k = choose|k: int| 0 <= k < before.len() && before[k] == members[i].ty->0;
        assert(all[k] == members[i].ty->0);
    }
}

proof fn lemma_types_of_back(members: Seq<Member>, k: int)
    requires
        0 <= k < types_of(members).len(),
    ensures
        exists|i: int|
            0 <= i < members.len() && (#[trigger] members[i]).ty == Some(types_of(members)[k]),
    decreases members.len(),
{
    let rest = members.drop_last();
    if k < types_of(rest).len() {
        lemma_types_of_back(rest, k);
        let i = choose|i: int|
            0 <= i < rest.len() && (#[trigger] rest[i]).ty == Some(types_of(rest)[k]);
        assert(members[i].ty == Some(types_of(members)[k]));
    } else {
        assert(members[members.len() - 1].ty == Some(types_of(members)[k]));
    }
}

impl<'a, 'input> Scope<'a, 'input> where 'input: 'a {
    /// The members of a structure or a union are printed where it is used without a name, as
    /// long as those of the types of its own members are.
    pub proof fn lemma_nested_members_end(self, offset: usize)
        requires
            self.type_at(Some(offset)) is Some,
            forall|i: int|
                0 <= i < self.types[offset].members().len() ==> match (
                #[trigger] self.types[offset].members()[i]).ty {
                    Some(inner) => self.type_at(Some(inner)) is Some ==> self.ends_at(
                        Chain::Members,
                        inner,
                    ),
                    None => true,
                },
        ensures
            self.ends_at(Chain::Members, offset),
    {
        let ty = *self.types[offset];
        let offsets = types_of(ty.members());
        assert forall|other: usize|
            #[trigger] chain::leads(Chain::Members, self.types, ty, other)
                && self.types.contains_key(other) implies offsets.contains(other) by {
            let i = choose|i: int|
                0 <= i < ty.members().len() && (#[trigger] ty.members()[i]).ty == Some(other);
            lemma_types_of(ty.members(), i);
        }
        assert forall|k: int|
            0 <= k < offsets.len() && self.types.contains_key(
                #[trigger] offsets[k],
            ) implies chain::ends(Chain::Members, self.types, *self.types[offsets[k]]) by {
            lemma_types_of_back(ty.members(), k);
        }
        chain::lemma_ends_behind_all(Chain::Members, self.types, ty, offsets);
    }

    /// A gap is shown in front of a member that starts behind the end of the one before it, and
    /// only there; a member of which the end before is not known has none.
    pub proof fn lemma_gaps_are_shown(self, member: Member<'input>, before: u64, indent: Seq<char>)
        ensures
            member.bit_offset > before ==> self.member(member, Some(before), indent) == indent
                + text::bits(before as nat) + "["@ + text::bits(
                (member.bit_offset - before) as nat,
            ) + "]\t<padding>\n"@ + self.member(member, None, indent),
            member.bit_offset <= before ==> self.member(member, Some(before), indent)
                == self.member(member, None, indent),
    {
        self.lemma_gap_stands_before(member, before, indent);
        assert(Seq::<char>::empty() + self.member(member, None, indent) =~= self.member(
            member,
            None,
            indent,
        ));
    }

    /// The members of a structure are held against the end of the one before them, and those of
    /// a union against the start.
    pub proof fn lemma_members_are_printed_in_order(
        self,
        members: Seq<Member<'input>>,
        last: Member<'input>,
        start: Option<u64>,
        indent: Seq<char>,
    )
        ensures
            self.members(members.push(last), start, indent, true) == self.members(
                members,
                start,
                indent,
                true,
            ) + self.member(
                last,
                if members.len() == 0 {
                    start
                } else {
                    members.last().end(self)
                },
                indent,
            ),
            self.members(members.push(last), start, indent, false) == self.members(
                members,
                start,
                indent,
                false,
            ) + self.member(last, start, indent),
    {
        assert(members.push(last).drop_last() =~= members);
    }

    /// Behind the last member of a structure a gap is shown up to the size of the structure, if
    /// that is known and the member ends before it at a known place.
    pub proof fn lemma_last_gap_is_shown(
        self,
        ty: StructType<'input>,
        start: u64,
        indent: Seq<char>,
    )
        ensures
            ({
                let own = self.members(ty.members@, Some(start), indent, true);
                let end = if ty.members@.len() == 0 {
                    Some(start)
                } else {
                    ty.members@.last().end(self)
                };
                &&& ty.byte_size is None || end is None ==> self.struct_members(
                    ty,
                    Some(start),
                    indent,
                ) == own
                &&& ty.byte_size is Some && end is Some && 8 * ty.byte_size->0 <= u64::MAX
                    ==> self.struct_members(ty, Some(start), indent) == own + if end->0 < 8
                    * ty.byte_size->0 {
                    indent + text::bits(end->0 as nat) + "["@ + text::bits(
                        (8 * ty.byte_size->0 - end->0) as nat,
                    ) + "]\t<padding>\n"@
                } else {
                    seq![]
                }
            }),
    {
        text::lemma_nothing_added(self.members(ty.members@, Some(start), indent, true));
    }
}

} // verus!

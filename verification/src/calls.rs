//! The calls that code makes: which addresses are decoded, and what is taken from them.
//!
//! The decoder itself is left to whoever runs the [`Disassembly`]: it is asked for the
//! address to decode, and told what was found there.

use crate::machine::Machine;
use crate::state::Flags;
use crate::subprogram::Subprogram;
use std::collections::HashSet;
use vstd::prelude::*;

verus! {

broadcast use vstd::std_specs::hash::group_hash_axioms;

/// Where a call or a jump goes.
#[derive(Clone, Copy, Debug)]
pub enum Target {
    /// To a fixed address.
    Constant(u64),
    /// To an address that is known only when the code runs.
    Other,
}

/// A statement of decoded code.
#[derive(Clone, Copy, Debug)]
pub enum Statement {
    /// A call.
    Call(Target),
    /// Anything else.
    Other,
}

/// A decoded instruction.
#[derive(Debug)]
pub struct Mnemonic {
    /// Its address.
    pub start: u64,
    /// What it does.
    pub statements: Vec<Statement>,
}

/// A disassembly of a subprogram's code under way.
#[derive(Debug)]
pub struct Disassembly {
    /// The addresses that are called, in the order in which the calls were found.
    pub calls: Vec<u64>,
    /// The addresses of the instructions that were found.
    pub seen: HashSet<u64>,
    /// The addresses that are still to be decoded, the next one last.
    pub jumps: Vec<u64>,
    /// The address behind the code.
    pub high_pc: u64,
}

/// The fixed addresses that statements call.
pub open spec fn called_by(statements: Seq<Statement>) -> Seq<u64>
    decreases statements.len(),
{
    if statements.len() == 0 {
        seq![]
    } else {
        let before = called_by(statements.drop_last());
        match statements.last() {
            Statement::Call(Target::Constant(address)) => before.push(address),
            _ => before,
        }
    }
}

/// The fixed addresses that instructions call.
pub open spec fn called_in(mnemonics: Seq<Mnemonic>) -> Seq<u64>
    decreases mnemonics.len(),
{
    if mnemonics.len() == 0 {
        seq![]
    } else {
        called_in(mnemonics.drop_last()) + called_by(mnemonics.last().statements@)
    }
}

/// The addresses of instructions.
pub open spec fn starts(mnemonics: Seq<Mnemonic>) -> Set<u64>
    decreases mnemonics.len(),
{
    if mnemonics.len() == 0 {
        Set::empty()
    } else {
        starts(mnemonics.drop_last()).insert(mnemonics.last().start)
    }
}

/// The fixed addresses that jumps go to, as far as they lie behind an address and in the
/// code.
pub open spec fn forward(jumps: Seq<Target>, address: u64, high_pc: u64) -> Seq<u64>
    decreases jumps.len(),
{
    if jumps.len() == 0 {
        seq![]
    } else {
        let before = forward(jumps.drop_last(), address, high_pc);
        match jumps.last() {
            Target::Constant(value) if address < value < high_pc => before.push(value),
            _ => before,
        }
    }
}

/// The addresses that are left when those at the end that were seen are dropped.
pub open spec fn without_seen(jumps: Seq<u64>, seen: Set<u64>) -> Seq<u64>
    decreases jumps.len(),
{
    if jumps.len() > 0 && seen.contains(jumps.last()) {
        without_seen(jumps.drop_last(), seen)
    } else {
        jumps
    }
}

impl Disassembly {
    /// Starts at the first address of the code.
    pub fn new(low_pc: u64, high_pc: u64) -> (disassembly: Disassembly)
        ensures
            disassembly.calls@ == Seq::<u64>::empty(),
            disassembly.seen@ == Set::<u64>::empty(),
            disassembly.jumps@ == seq![low_pc],
            disassembly.high_pc == high_pc,
    {
        let mut jumps: Vec<u64> = Vec::new();
        jumps.push(low_pc);
        assert(jumps@ =~= seq![low_pc]);
        Disassembly { calls: Vec::new(), seen: HashSet::new(), jumps, high_pc }
    }

    /// The address to decode next: the last one that no instruction was found at yet. None
    /// where nothing is left to decode.
    pub fn next(&mut self) -> (address: Option<u64>)
        ensures
            final(self).calls@ == old(self).calls@,
            final(self).seen@ == old(self).seen@,
            final(self).high_pc == old(self).high_pc,
            ({
                let left = without_seen(old(self).jumps@, old(self).seen@);
                if left.len() == 0 {
                    address is None && final(self).jumps@ == left
                } else {
                    address == Some(left.last()) && final(self).jumps@ == left.drop_last()
                }
            }),
    {
        while self.jumps.len() > 0
            invariant
                self.calls@ == old(self).calls@,
                self.seen@ == old(self).seen@,
                self.high_pc == old(self).high_pc,
                without_seen(self.jumps@, self.seen@) == without_seen(
                    old(self).jumps@,
                    old(self).seen@,
                ),
            decreases self.jumps.len(),
        {
            if let Some(address) = self.jumps.pop() {
                if !self.seen.contains(&address) {
                    return Some(address);
                }
            }
        }
        None
    }

    /// Takes what was found at an address: notes the calls and the instructions, and keeps
    /// the jumps that go forward in the code.
    pub fn decoded(&mut self, address: u64, mnemonics: &Vec<Mnemonic>, jumps: &Vec<Target>)
        ensures
            final(self).calls@ == old(self).calls@ + called_in(mnemonics@),
            final(self).seen@ == old(self).seen@.union(starts(mnemonics@)),
            final(self).jumps@ == old(self).jumps@ + forward(
                jumps@,
                address,
                old(self).high_pc,
            ),
            final(self).high_pc == old(self).high_pc,
    {
        let mut i: usize = 0;
        while i < mnemonics.len()
            invariant
                i <= mnemonics.len(),
                self.calls@ == old(self).calls@ + called_in(mnemonics@.take(i as int)),
                self.seen@ == old(self).seen@.union(starts(mnemonics@.take(i as int))),
                self.jumps@ == old(self).jumps@,
                self.high_pc == old(self).high_pc,
            decreases mnemonics.len() - i,
        {
            assert(mnemonics@.take(i + 1).drop_last() =~= mnemonics@.take(i as int));
            let ghost before = self.calls@;
            let mnemonic = &mnemonics[i];
            let statements = &mnemonic.statements;
            let mut j: usize = 0;
            while j < statements.len()
                invariant
                    j <= statements.len(),
                    self.calls@ == before + called_by(statements@.take(j as int)),
                    self.seen@ == old(self).seen@.union(starts(mnemonics@.take(i as int))),
                    self.jumps@ == old(self).jumps@,
                    self.high_pc == old(self).high_pc,
                decreases statements.len() - j,
            {
                assert(statements@.take(j + 1).drop_last() =~= statements@.take(j as int));
                if let Statement::Call(Target::Constant(called)) = statements[j] {
                    self.calls.push(called);
                }
                j = j + 1;
                assert(self.calls@ =~= before + called_by(statements@.take(j as int)));
            }
            assert(statements@.take(j as int) =~= statements@);
            self.seen.insert(mnemonic.start);
            i = i + 1;
            assert(self.calls@ =~= old(self).calls@ + called_in(mnemonics@.take(i as int)));
            assert(self.seen@ =~= old(self).seen@.union(starts(mnemonics@.take(i as int))));
        }
        assert(mnemonics@.take(i as int) =~= mnemonics@);
        let mut i: usize = 0;
        while i < jumps.len()
            invariant
                i <= jumps.len(),
                self.calls@ == old(self).calls@ + called_in(mnemonics@),
                self.seen@ == old(self).seen@.union(starts(mnemonics@)),
                self.jumps@ == old(self).jumps@ + forward(
                    jumps@.take(i as int),
                    address,
                    old(self).high_pc,
                ),
                self.high_pc == old(self).high_pc,
            decreases jumps.len() - i,
        {
            assert(jumps@.take(i + 1).drop_last() =~= jumps@.take(i as int));
            if let Target::Constant(value) = jumps[i] {
                if value > address && value < self.high_pc {
                    self.jumps.push(value);
                }
            }
            i = i + 1;
            assert(self.jumps@ =~= old(self).jumps@ + forward(
                jumps@.take(i as int),
                address,
                old(self).high_pc,
            ));
        }
        assert(jumps@.take(i as int) =~= jumps@);
    }
}

/// The address that is decoded next was not seen before, and it is one of those that were
/// still to be decoded.
pub proof fn lemma_next_is_unseen(jumps: Seq<u64>, seen: Set<u64>)
    ensures
        without_seen(jumps, seen).is_prefix_of(jumps),
        without_seen(jumps, seen).len() > 0 ==> !seen.contains(without_seen(jumps, seen).last()),
        without_seen(jumps, seen).len() == 0 ==> forall|i: int|
            0 <= i < jumps.len() ==> seen.contains(#[trigger] jumps[i]),
    decreases jumps.len(),
{
    if jumps.len() > 0 && seen.contains(jumps.last()) {
        lemma_next_is_unseen(jumps.drop_last(), seen);
        assert forall|i: int|
            without_seen(jumps, seen).len() == 0 && 0 <= i < jumps.len() implies seen.contains(
            #[trigger] jumps[i],
        ) by {
            if i < jumps.len() - 1 {
                assert(jumps.drop_last()[i] == jumps[i]);
            }
        }
    }
}

/// Jumps lead only forward and only inside the code.
pub proof fn lemma_jumps_go_forward(jumps: Seq<Target>, address: u64, high_pc: u64)
    ensures
        forall|i: int|
            0 <= i < forward(jumps, address, high_pc).len() ==> address < #[trigger] forward(
                jumps,
                address,
                high_pc,
            )[i] < high_pc,
    decreases jumps.len(),
{
    if jumps.len() > 0 {
        let before = forward(jumps.drop_last(), address, high_pc);
        let all = forward(jumps, address, high_pc);
        lemma_jumps_go_forward(jumps.drop_last(), address, high_pc);
        assert forall|i: int| 0 <= i < all.len() implies address < #[trigger] all[i] < high_pc by {
            if i < before.len() {
                assert(all[i] == before[i]);
            }
        }
    }
}

/// Whether the code for a machine can be disassembled.
pub fn can_disassemble(machine: Machine) -> (result: bool)
    ensures
        result == (machine == Machine::X86_64),
{
    machine == Machine::X86_64
}

impl<'input> Subprogram<'input> {
    /// Whether calls are printed for the subprogram, as far as there are any.
    pub open spec fn shows_calls(self, flags: Flags) -> bool {
        flags.calls && flags.passes(self.name, *self.namespace) && self.has_code()
    }

    /// The addresses of the code whose calls are printed; none where no calls are printed
    /// for the subprogram.
    pub fn code(&self, flags: &Flags) -> (code: Option<(u64, u64)>)
        ensures
            match code {
                Some((low_pc, high_pc)) => self.shows_calls(*flags) && self.low_pc == Some(low_pc)
                    && self.high_pc == Some(high_pc),
                None => !self.shows_calls(*flags),
            },
    {
        if let (Some(low_pc), Some(high_pc)) = (self.low_pc, self.high_pc) {
            if low_pc != 0 && flags.calls && flags.filter(self.name, &self.namespace) {
                return Some((low_pc, high_pc));
            }
        }
        None
    }
}

proof fn lemma_called_by_parts(a: Seq<Statement>, b: Seq<Statement>)
    ensures
        called_by(a + b) == called_by(a) + called_by(b),
    decreases b.len(),
{
    if b.len() == 0 {
        assert(a + b =~= a);
    } else {
        assert((a + b).drop_last() =~= a + b.drop_last());
        lemma_called_by_parts(a, b.drop_last());
    }
    assert(called_by(a + b) =~= called_by(a) + called_by(b));
}

/// Every call of a fixed address is found, in the order of the code, and nothing else is: what
/// two pieces of code call is what the first calls and then what the second calls.
pub proof fn lemma_calls_are_found_in_order(
    a: Seq<Mnemonic>,
    b: Seq<Mnemonic>,
    mnemonic: Mnemonic,
    first: Seq<Statement>,
    second: Seq<Statement>,
    statement: Statement,
)
    ensures
        called_in(a + b) == called_in(a) + called_in(b),
        called_in(seq![mnemonic]) == called_by(mnemonic.statements@),
        called_by(first + second) == called_by(first) + called_by(second),
        called_by(seq![statement]) == match statement {
            Statement::Call(Target::Constant(address)) => seq![address],
            _ => seq![],
        },
    decreases b.len(),
{
    lemma_called_by_parts(first, second);
    reveal_with_fuel(called_by, 2);
    reveal_with_fuel(called_in, 2);
    assert(seq![statement].drop_last() =~= seq![]);
    assert(called_by(seq![statement]) =~= match statement {
        Statement::Call(Target::Constant(address)) => seq![address],
        _ => seq![],
    });
    assert(seq![mnemonic].drop_last() =~= seq![]);
    assert(called_in(seq![mnemonic]) =~= called_by(mnemonic.statements@));
    if b.len() == 0 {
        assert(a + b =~= a);
    } else {
        assert((a + b).drop_last() =~= a + b.drop_last());
        lemma_calls_are_found_in_order(
            a,
            b.drop_last(),
            mnemonic,
            first,
            second,
            statement,
        );
    }
    assert(called_in(a + b) =~= called_in(a) + called_in(b));
}

/// An address counts as seen where an instruction starts there, and nowhere else.
pub proof fn lemma_starts_are_seen(mnemonics: Seq<Mnemonic>, address: u64)
    ensures
        starts(mnemonics).contains(address) <==> exists|i: int|
            0 <= i < mnemonics.len() && (#[trigger] mnemonics[i]).start == address,
    decreases mnemonics.len(),
{
    if mnemonics.len() > 0 {
        let rest = mnemonics.drop_last();
        lemma_starts_are_seen(rest, address);
        assert(forall|i: int| 0 <= i < rest.len() ==> rest[i] == mnemonics[i]);
        assert(mnemonics.last() == mnemonics[mnemonics.len() - 1]);
    }
}

/// A jump to a fixed address is followed if and only if the address lies behind the code that
/// was decoded and in front of the end.
pub proof fn lemma_jumps_are_followed(jumps: Seq<Target>, address: u64, high_pc: u64, value: u64)
    ensures
        forward(jumps, address, high_pc).contains(value) <==> address < value < high_pc
            && jumps.contains(Target::Constant(value)),
    decreases jumps.len(),
{
    if jumps.len() > 0 {
        let rest = jumps.drop_last();
        let (before, all) = (forward(rest, address, high_pc), forward(jumps, address, high_pc));
        lemma_jumps_are_followed(rest, address, high_pc, value);
        assert(jumps.contains(Target::Constant(value)) <==> rest.contains(Target::Constant(value))
            || jumps.last() == Target::Constant(value)) by {
            if rest.contains(Target::Constant(value)) {
                let i = choose|i: int| 0 <= i < rest.len() && rest[i] == Target::Constant(value);
                assert(jumps[i] == Target::Constant(value));
            }
            assert(jumps.last() == jumps[jumps.len() - 1]);
            if jumps.contains(Target::Constant(value)) {
                let i = choose|i: int| 0 <= i < jumps.len() && jumps[i] == Target::Constant(value);
                if i < rest.len() {
                    assert(rest[i] == Target::Constant(value));
                }
            }
        }
        if before.contains(value) {
            let i = choose|i: int| 0 <= i < before.len() && before[i] == value;
            assert(all[i] == value);
        }
        if all.contains(value) && !before.contains(value) {
            let i = choose|i: int| 0 <= i < all.len() && all[i] == value;
            if i < before.len() {
                assert(before[i] == value);
            }
        }
        if jumps.last() == Target::Constant(value) && address < value < high_pc {
            assert(all[all.len() - 1] == value);
        }
    }
}

/// Code is looked at for calls if and only if calls are asked for, the subprogram passes the
/// filters, and both its addresses are known and the first is not zero.
pub proof fn lemma_code_is_looked_at(subprogram: Subprogram, flags: Flags)
    ensures
        subprogram.shows_calls(flags) <==> {
            &&& flags.calls
            &&& flags.passes(subprogram.name, *subprogram.namespace)
            &&& subprogram.low_pc is Some
            &&& subprogram.low_pc->0 != 0
            &&& subprogram.high_pc is Some
        },
{
}

/// Jumps are followed in the order in which they stand: those of two lists are those of the
/// first and then those of the second, and a single jump is followed once or not at all.
pub proof fn lemma_jumps_keep_their_order(
    a: Seq<Target>,
    b: Seq<Target>,
    address: u64,
    high_pc: u64,
    value: u64,
)
    ensures
        forward(a + b, address, high_pc) == forward(a, address, high_pc) + forward(
            b,
            address,
            high_pc,
        ),
        forward(seq![Target::Constant(value)], address, high_pc) == if address < value < high_pc {
            seq![value]
        } else {
            Seq::<u64>::empty()
        },
        forward(seq![Target::Other], address, high_pc) == Seq::<u64>::empty(),
    decreases b.len(),
{
    reveal_with_fuel(forward, 2);
    assert(seq![Target::Constant(value)].drop_last() =~= seq![]);
    assert(seq![Target::Other].drop_last() =~= seq![]);
    if address < value < high_pc {
        assert(forward(seq![Target::Constant(value)], address, high_pc) =~= seq![value]);
    }
    if b.len() == 0 {
        assert(a + b =~= a);
    } else {
        assert((a + b).drop_last() =~= a + b.drop_last());
        lemma_jumps_keep_their_order(a, b.drop_last(), address, high_pc, value);
    }
    assert(forward(a + b, address, high_pc) =~= forward(a, address, high_pc) + forward(
        b,
        address,
        high_pc,
    ));
}

} // verus!

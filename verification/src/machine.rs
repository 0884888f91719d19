//! The machine that a file's code is for, its byte order, and what a program is loaded
//! from.

use crate::error::{Error, Result};
use vstd::prelude::*;

verus! {

/// A kind of machine.
#[derive(Clone, Copy, Debug, PartialEq, Eq, Structural)]
pub enum Machine {
    Unspecified,
    Sparc,
    X86,
    Mips,
    PowerPC,
    Arm,
    SuperH,
    Ia64,
    X86_64,
    AArch64,
}

/// The order of bytes in a file.
#[derive(Clone, Copy, Debug, PartialEq, Eq, Structural)]
pub enum Encoding {
    LittleEndian,
    BigEndian,
    Unknown,
}

impl Machine {
    /// What a machine is called.
    pub open spec fn text(self) -> Seq<char> {
        match self {
            Machine::Unspecified => "None"@,
            Machine::Sparc => "Sparc"@,
            Machine::X86 => "X86"@,
            Machine::Mips => "Mips"@,
            Machine::PowerPC => "PowerPC"@,
            Machine::Arm => "Arm"@,
            Machine::SuperH => "SuperH"@,
            Machine::Ia64 => "Ia64"@,
            Machine::X86_64 => "X86_64"@,
            Machine::AArch64 => "AArch64"@,
        }
    }

    /// What the machine is called.
    pub fn name(&self) -> (name: &'static str)
        ensures
            name@ == self.text(),
    {
        match self {
            Machine::Unspecified => "None",
            Machine::Sparc => "Sparc",
            Machine::X86 => "X86",
            Machine::Mips => "Mips",
            Machine::PowerPC => "PowerPC",
            Machine::Arm => "Arm",
            Machine::SuperH => "SuperH",
            Machine::Ia64 => "Ia64",
            Machine::X86_64 => "X86_64",
            Machine::AArch64 => "AArch64",
        }
    }

    /// Fails for a machine whose files are not read.
    pub fn check(&self) -> (result: Result<()>)
        ensures
            match result {
                Ok(_) => *self == Machine::X86_64,
                Err(error) => *self != Machine::X86_64 && error.text() == "Unsupported machine: "@
                    + self.text(),
            },
    {
        if *self == Machine::X86_64 {
            Ok(())
        } else {
            let mut message = String::new();
            message.append("Unsupported machine: ");
            message.append(self.name());
            assert(message@ =~= "Unsupported machine: "@ + self.text());
            Err(Error::from(message))
        }
    }
}

impl Encoding {
    /// Whether the most significant byte comes first. Fails where the order is not known.
    pub fn is_big_endian(&self) -> (result: Result<bool>)
        ensures
            match result {
                Ok(big_endian) => *self == (if big_endian {
                    Encoding::BigEndian
                } else {
                    Encoding::LittleEndian
                }),
                Err(error) => *self == Encoding::Unknown && error.text() == "Unknown endianity"@,
            },
    {
        match self {
            Encoding::LittleEndian => Ok(false),
            Encoding::BigEndian => Ok(true),
            Encoding::Unknown => Err(Error::from("Unknown endianity")),
        }
    }
}

/// Whether the most significant byte comes first in a file for the given machine, with the
/// given order of bytes. Fails for a machine whose files are not read, and where the order is
/// not known.
pub fn check_file(machine: Machine, encoding: Encoding) -> (result: Result<bool>)
    ensures
        match result {
            Ok(big_endian) => machine == Machine::X86_64 && encoding == (if big_endian {
                Encoding::BigEndian
            } else {
                Encoding::LittleEndian
            }),
            Err(error) => if machine == Machine::X86_64 {
                encoding == Encoding::Unknown && error.text() == "Unknown endianity"@
            } else {
                error.text() == "Unsupported machine: "@ + machine.text()
            },
        },
{
    match machine.check() {
        Ok(_) => encoding.is_big_endian(),
        Err(error) => Err(error),
    }
}

/// A part of a program, as its header describes it.
#[derive(Clone, Copy, Debug)]
pub struct Segment {
    /// Whether the part is loaded.
    pub load: bool,
    /// Where it starts in the file.
    pub offset: u64,
    /// How many bytes it has in the file.
    pub size: u64,
    /// Where it is loaded to.
    pub address: u64,
}

/// A part of a program in memory.
#[derive(Clone, Copy, Debug)]
pub struct Loaded<'input> {
    /// The address of its first byte.
    pub begin: u64,
    /// The address behind its last byte.
    pub end: u64,
    /// Its bytes.
    pub bytes: &'input [u8],
}

impl Segment {
    /// Whether the part is loaded and lies in a file of the given length.
    pub open spec fn fits(self, length: int) -> bool {
        self.load && self.offset + self.size <= length
    }

    /// Whether this is the part in memory.
    pub open spec fn loads(self, input: Seq<u8>, loaded: Loaded) -> bool {
        &&& loaded.begin == self.address
        &&& loaded.end == self.address.wrapping_add(self.size)
        &&& loaded.bytes@ == input.subrange(self.offset as int, self.offset + self.size)
    }

    /// The part in memory; none where it is not loaded or does not lie in the file.
    pub fn map<'input>(&self, input: &'input [u8]) -> (loaded: Option<Loaded<'input>>)
        ensures
            match loaded {
                Some(loaded) => self.fits(input@.len() as int) && self.loads(input@, loaded),
                None => !self.fits(input@.len() as int),
            },
    {
        let length: u64 = input.len() as u64;
        if !self.load || self.offset > length || self.size > length - self.offset {
            return None;
        }
        let begin: usize = self.offset as usize;
        let end: usize = begin + self.size as usize;
        Some(
            Loaded {
                begin: self.address,
                end: self.address.wrapping_add(self.size),
                bytes: vstd::slice::slice_subrange(input, begin, end),
            },
        )
    }
}

/// The headers of the parts that are loaded and lie in the file.
pub open spec fn fitting(segments: Seq<Segment>, length: int) -> Seq<Segment>
    decreases segments.len(),
{
    if segments.len() == 0 {
        seq![]
    } else if segments.last().fits(length) {
        fitting(segments.drop_last(), length).push(segments.last())
    } else {
        fitting(segments.drop_last(), length)
    }
}

/// Loads a program: the parts in memory, in the order of their headers.
pub fn load<'input>(input: &'input [u8], segments: &Vec<Segment>) -> (parts: Vec<Loaded<'input>>)
    ensures
        parts@.len() == fitting(segments@, input@.len() as int).len(),
        forall|i: int|
            0 <= i < parts@.len() ==> fitting(segments@, input@.len() as int)[i].loads(
                input@,
                #[trigger] parts@[i],
            ),
{
    let mut parts: Vec<Loaded<'input>> = Vec::new();
    let mut i: usize = 0;
    while i < segments.len()
        invariant
            i <= segments.len(),
            parts@.len() == fitting(segments@.take(i as int), input@.len() as int).len(),
            forall|j: int|
                0 <= j < parts@.len() ==> fitting(
                    segments@.take(i as int),
                    input@.len() as int,
                )[j].loads(input@, #[trigger] parts@[j]),
        decreases segments.len() - i,
    {
        assert(segments@.take(i + 1).drop_last() =~= segments@.take(i as int));
        if let Some(part) = segments[i].map(input) {
            parts.push(part);
        }
        i = i + 1;
    }
    assert(segments@.take(i as int) =~= segments@);
    parts
}

/// A part is loaded if and only if its header says so and it lies in the file; of two lists of
/// headers the parts of the first are loaded first.
pub proof fn lemma_parts_are_loaded_in_order(
    a: Seq<Segment>,
    b: Seq<Segment>,
    segment: Segment,
    length: int,
)
    ensures
        fitting(a + b, length) == fitting(a, length) + fitting(b, length),
        fitting(seq![segment], length) == if segment.load && segment.offset + segment.size
            <= length {
            seq![segment]
        } else {
            seq![]
        },
    decreases b.len(),
{
    reveal_with_fuel(fitting, 2);
    assert(seq![segment].drop_last() =~= seq![]);
    assert(fitting(seq![segment], length) =~= if segment.load && segment.offset + segment.size
        <= length {
        seq![segment]
    } else {
        seq![]
    });
    if b.len() == 0 {
        assert(a + b =~= a);
    } else {
        assert((a + b).drop_last() =~= a + b.drop_last());
        lemma_parts_are_loaded_in_order(a, b.drop_last(), segment, length);
    }
    assert(fitting(a + b, length) =~= fitting(a, length) + fitting(b, length));
}

/// A part that is loaded has as many bytes as its header says, namely those that stand in the
/// file from its offset on, and starts at its address.
pub proof fn lemma_loaded_bytes_are_those_of_the_file(
    segment: Segment,
    input: Seq<u8>,
    loaded: Loaded,
    i: int,
)
    requires
        segment.fits(input.len() as int),
        segment.loads(input, loaded),
        0 <= i < segment.size,
    ensures
        loaded.bytes@.len() == segment.size,
        loaded.bytes@[i] == input[segment.offset + i],
        loaded.begin == segment.address,
        segment.address + segment.size <= u64::MAX ==> loaded.end == segment.address
            + segment.size,
{
}

/// A machine is named by the word for it, and by its name it is told from every other.
pub proof fn lemma_machines_are_told_by_name(a: Machine, b: Machine)
    ensures
        a.text() == b.text() ==> a == b,
        a is Unspecified ==> a.text() == "None"@,
        a is Sparc ==> a.text() == "Sparc"@,
        a is X86 ==> a.text() == "X86"@,
        a is Mips ==> a.text() == "Mips"@,
        a is PowerPC ==> a.text() == "PowerPC"@,
        a is Arm ==> a.text() == "Arm"@,
        a is SuperH ==> a.text() == "SuperH"@,
        a is Ia64 ==> a.text() == "Ia64"@,
        a is X86_64 ==> a.text() == "X86_64"@,
        a is AArch64 ==> a.text() == "AArch64"@,
{
    reveal_strlit("None");
    reveal_strlit("Sparc");
    reveal_strlit("X86");
    reveal_strlit("Mips");
    reveal_strlit("PowerPC");
    reveal_strlit("Arm");
    reveal_strlit("SuperH");
    reveal_strlit("Ia64");
    reveal_strlit("X86_64");
    reveal_strlit("AArch64");
    if a != b {
        assert(a.text().len() != b.text().len() || a.text()[0] != b.text()[0] || a.text()[1]
            != b.text()[1] || a.text()[2] != b.text()[2]);
    }
}

} // verus!

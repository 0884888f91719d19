use ddbug::calls::{can_disassemble, Disassembly, Mnemonic, Statement, Target};
use ddbug::machine::{check_file, load, Encoding, Machine, Segment};

#[test]
fn supported_files() {
    assert!(!check_file(Machine::X86_64, Encoding::LittleEndian).unwrap());
    assert!(check_file(Machine::X86_64, Encoding::BigEndian).unwrap());
    assert_eq!(
        check_file(Machine::X86_64, Encoding::Unknown).unwrap_err().description(),
        "Unknown endianity"
    );
}

#[test]
fn unsupported_machines() {
    let machines = [
        (Machine::Unspecified, "None"),
        (Machine::Sparc, "Sparc"),
        (Machine::X86, "X86"),
        (Machine::Mips, "Mips"),
        (Machine::PowerPC, "PowerPC"),
        (Machine::Arm, "Arm"),
        (Machine::SuperH, "SuperH"),
        (Machine::Ia64, "Ia64"),
        (Machine::AArch64, "AArch64"),
    ];
    for &(machine, name) in &machines {
        // The machine counts before the order of bytes.
        for &encoding in &[Encoding::LittleEndian, Encoding::Unknown] {
            assert_eq!(
                check_file(machine, encoding).unwrap_err().description(),
                format!("Unsupported machine: {}", name)
            );
        }
        assert!(machine.check().is_err());
        assert!(!can_disassemble(machine));
    }
    assert!(Machine::X86_64.check().is_ok());
    assert!(can_disassemble(Machine::X86_64));
}

fn segment(load: bool, offset: u64, size: u64, address: u64) -> Segment {
    Segment { load, offset, size, address }
}

#[test]
fn loaded_segments() {
    let input = b"0123456789";
    let segments = vec![
        segment(true, 2, 3, 0x1000),
        segment(false, 0, 10, 0x2000),
        segment(true, 8, 3, 0x3000),
        segment(true, 11, 0, 0x4000),
        segment(true, 10, 0, 0x5000),
        segment(true, u64::max_value(), 2, 0x6000),
        segment(true, 2, u64::max_value(), 0x7000),
        segment(true, 0, 10, u64::max_value()),
    ];
    let parts = load(input, &segments);
    let seen: Vec<_> = parts.iter().map(|p| (p.begin, p.end, p.bytes)).collect();
    assert_eq!(
        seen,
        vec![
            (0x1000, 0x1003, &b"234"[..]),
            (0x5000, 0x5000, &b""[..]),
            (u64::max_value(), 9, &b"0123456789"[..]),
        ]
    );
}

fn mnemonic(start: u64, statements: Vec<Statement>) -> Mnemonic {
    Mnemonic { start, statements }
}

#[test]
fn disassembly_follows_jumps() {
    let mut code = Disassembly::new(0x10, 0x40);
    assert_eq!(code.next(), Some(0x10));
    code.decoded(
        0x10,
        &vec![
            mnemonic(0x10, vec![Statement::Other, Statement::Call(Target::Constant(0x99))]),
            mnemonic(0x12, vec![Statement::Call(Target::Other)]),
        ],
        &vec![
            Target::Constant(0x20),
            Target::Other,
            // Back, to itself, behind the code, and to what was just found.
            Target::Constant(0x08),
            Target::Constant(0x10),
            Target::Constant(0x40),
            Target::Constant(0x30),
            Target::Constant(0x12),
        ],
    );
    assert_eq!(code.calls, vec![0x99]);
    assert_eq!(code.jumps, vec![0x20, 0x30, 0x12]);
    // The last is seen already.
    assert_eq!(code.next(), Some(0x30));
    code.decoded(0x30, &vec![mnemonic(0x20, vec![Statement::Call(Target::Constant(0x98))])], &vec![]);
    assert_eq!(code.next(), None);
    assert_eq!(code.next(), None);
    assert_eq!(code.calls, vec![0x99, 0x98]);
    assert!(code.jumps.is_empty());
}

#[test]
fn disassembly_may_decode_an_address_again() {
    // Nothing was found at the address itself, so it is not seen.
    let mut code = Disassembly::new(1, 9);
    assert_eq!(code.next(), Some(1));
    code.decoded(1, &vec![], &vec![Target::Constant(5), Target::Constant(5)]);
    assert_eq!(code.next(), Some(5));
    code.decoded(5, &vec![], &vec![Target::Constant(5)]);
    assert_eq!(code.next(), Some(5));
    assert_eq!(code.next(), None);
}

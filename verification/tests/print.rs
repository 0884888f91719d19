use ddbug::diff::diff_file;
use ddbug::file::print_file;
use ddbug::machine::Machine;
use ddbug::namespace::{Name, Namespace};
use ddbug::state::{File, Flags, PrintState};
use ddbug::subprogram::{InlinedSubroutine, Subprogram, Variable};
use ddbug::types::{
    ArrayType, BaseType, Enumerator, EnumerationType, Member, Parameter, StructType, SubroutineType,
    Type, TypeDef, TypeKind, TypeModifier, TypeModifierKind, UnionType,
};
use ddbug::unit::Unit;
use std::rc::Rc;

fn flags() -> Flags<'static> {
    Flags {
        calls: false,
        diff: false,
        sort: false,
        inline_depth: 1,
        name: None,
        namespace: vec![],
    }
}

fn unit(name: Name<'static>) -> Unit<'static> {
    Unit {
        dir: None,
        name,
        language: None,
        address_size: Some(8),
        low_pc: None,
        high_pc: None,
        size: None,
        types: vec![],
        subprograms: vec![],
        variables: vec![],
    }
}

fn root() -> Rc<Namespace<'static>> {
    Namespace::root()
}

fn base(offset: usize, name: &'static str, size: u64) -> Type<'static> {
    Type {
        offset,
        kind: TypeKind::Base(BaseType { name: Some(name.as_bytes()), byte_size: Some(size) }),
    }
}

fn member(
    name: Option<&'static str>,
    ty: Option<usize>,
    bit_offset: u64,
    bit_size: Option<u64>,
) -> Member<'static> {
    Member { name: name.map(|n| n.as_bytes()), ty, bit_offset, bit_size }
}

fn structure(
    offset: usize,
    name: Option<&'static str>,
    byte_size: Option<u64>,
    members: Vec<Member<'static>>,
) -> Type<'static> {
    Type {
        offset,
        kind: TypeKind::Struct(StructType {
            namespace: root(),
            name: name.map(|n| n.as_bytes()),
            byte_size,
            declaration: false,
            members,
            subprograms: vec![],
        }),
    }
}

fn union_type(
    offset: usize,
    name: Option<&'static str>,
    byte_size: Option<u64>,
    members: Vec<Member<'static>>,
) -> Type<'static> {
    Type {
        offset,
        kind: TypeKind::Union(UnionType {
            namespace: root(),
            name: name.map(|n| n.as_bytes()),
            byte_size,
            declaration: false,
            members,
            subprograms: vec![],
        }),
    }
}

fn typedef(offset: usize, name: &'static str, ty: Option<usize>) -> Type<'static> {
    Type {
        offset,
        kind: TypeKind::TypeDef(TypeDef { namespace: root(), name: Some(name.as_bytes()), ty }),
    }
}

fn modifier(offset: usize, kind: TypeModifierKind, ty: Option<usize>) -> Type<'static> {
    Type {
        offset,
        kind: TypeKind::Modifier(TypeModifier {
            kind,
            ty,
            namespace: root(),
            name: None,
            byte_size: None,
        }),
    }
}

fn array(offset: usize, ty: Option<usize>, count: Option<u64>) -> Type<'static> {
    Type { offset, kind: TypeKind::Array(ArrayType { ty, count }) }
}

fn parameter(name: Option<&'static str>, ty: Option<usize>) -> Parameter<'static> {
    Parameter { name: name.map(|n| n.as_bytes()), ty }
}

fn subprogram(offset: usize, name: &'static str) -> Subprogram<'static> {
    Subprogram {
        offset,
        namespace: root(),
        name: Some(name.as_bytes()),
        linkage_name: None,
        low_pc: None,
        high_pc: None,
        size: None,
        inline: false,
        declaration: false,
        parameters: vec![],
        return_type: None,
        inlined_subroutines: vec![],
        variables: vec![],
        calls: vec![],
    }
}

fn inlined(
    origin: Option<usize>,
    size: Option<u64>,
    inlined_subroutines: Vec<InlinedSubroutine<'static>>,
) -> InlinedSubroutine<'static> {
    InlinedSubroutine { abstract_origin: origin, size, inlined_subroutines, variables: vec![] }
}

fn variable(name: &'static str, ty: Option<usize>) -> Variable<'static> {
    Variable {
        namespace: root(),
        name: Some(name.as_bytes()),
        linkage_name: None,
        ty,
        declaration: false,
    }
}

fn printed(units: Vec<Unit<'static>>, flags: &Flags) -> String {
    let mut file = File { machine: Machine::X86_64, units };
    let mut w = String::new();
    print_file(&mut file, flags, &mut w);
    w
}

fn with_types(types: Vec<Type<'static>>) -> Vec<Unit<'static>> {
    let mut one = unit(Some(b"a.c"));
    one.types = types;
    vec![one]
}

#[test]
fn structure_with_gaps() {
    let types = vec![
        base(1, "char", 1),
        base(2, "int", 4),
        structure(
            3,
            Some("s"),
            Some(12),
            vec![
                member(Some("a"), Some(1), 0, None),
                member(Some("b"), Some(2), 32, None),
                member(Some("c"), Some(2), 64, Some(3)),
                member(Some("d"), Some(2), 67, Some(5)),
                member(Some("e"), Some(99), 72, None),
                member(Some("f"), None, 80, Some(8)),
            ],
        ),
    ];
    assert_eq!(
        printed(with_types(types), &flags()),
        "struct s\n\
         \tsize: 12\n\
         \tmembers:\n\
         \t\t0[1]\ta: char\n\
         \t\t1[3]\t<padding>\n\
         \t\t4[4]\tb: int\n\
         \t\t8[0.3]\tc: int\n\
         \t\t8.3[0.5]\td: int\n\
         \t\t9[??]\te: <invalid-type>\n\
         \t\t10[1]\tf: <invalid-type>\n\
         \t\t11[1]\t<padding>\n\
         \n"
    );
}

#[test]
fn members_without_names_are_printed_where_they_stand() {
    let types = vec![
        base(1, "int", 4),
        structure(
            2,
            Some("outer"),
            Some(24),
            vec![
                member(Some("tag"), Some(1), 0, None),
                member(None, Some(3), 64, None),
                member(Some("last"), Some(5), 128, None),
            ],
        ),
        union_type(
            3,
            None,
            Some(8),
            vec![member(Some("i"), Some(1), 0, None), member(Some("n"), Some(4), 0, None)],
        ),
        structure(4, Some("named"), Some(8), vec![member(Some("x"), Some(1), 0, None)]),
        structure(
            5,
            None,
            Some(8),
            vec![member(Some("y"), Some(1), 0, None), member(None, Some(6), 32, None)],
        ),
        structure(6, Some("inner"), Some(4), vec![member(Some("z"), Some(1), 0, None)]),
    ];
    assert_eq!(
        printed(with_types(types), &flags()),
        "struct outer\n\
         \tsize: 24\n\
         \tmembers:\n\
         \t\t0[4]\ttag: int\n\
         \t\t4[4]\t<padding>\n\
         \t\t8[8]\t<anon>: union <anon>\n\
         \t\t\t0[4]\ti: int\n\
         \t\t\t0[8]\tn: struct named\n\
         \t\t16[8]\tlast: struct <anon>\n\
         \t\t\t0[4]\ty: int\n\
         \t\t\t4[4]\t<anon>: struct inner\n\
         \t\t\t\t0[4]\tz: int\n\
         \n\
         struct named\n\
         \tsize: 8\n\
         \tmembers:\n\
         \t\t0[4]\tx: int\n\
         \t\t4[4]\t<padding>\n\
         \n"
    );
}

#[test]
fn members_of_an_anonymous_structure_start_at_its_offset() {
    // The members are held against the place of what holds them.
    let types = vec![
        base(1, "int", 4),
        structure(2, Some("s"), Some(8), vec![member(None, Some(3), 32, None)]),
        structure(3, None, Some(4), vec![member(Some("a"), Some(1), 48, None)]),
    ];
    assert_eq!(
        printed(with_types(types), &flags()),
        "struct s\n\
         \tsize: 8\n\
         \tmembers:\n\
         \t\t0[4]\t<padding>\n\
         \t\t4[4]\t<anon>: struct <anon>\n\
         \t\t\t4[2]\t<padding>\n\
         \t\t\t6[4]\ta: int\n\
         \n"
    );
}

#[test]
fn union_and_declaration() {
    let mut types = vec![
        base(1, "int", 4),
        union_type(
            2,
            Some("u"),
            Some(4),
            vec![member(Some("a"), Some(1), 0, None), member(Some("b"), Some(1), 8, None)],
        ),
        structure(3, Some("later"), None, vec![]),
    ];
    if let TypeKind::Struct(ref mut ty) = types[2].kind {
        ty.declaration = true;
    }
    assert_eq!(
        printed(with_types(types), &flags()),
        "union u\n\
         \tsize: 4\n\
         \tmembers:\n\
         \t\t0[4]\ta: int\n\
         \t\t0[1]\t<padding>\n\
         \t\t1[4]\tb: int\n\
         \n\
         struct later\n\
         \tdeclaration: yes\n\
         \n"
    );
}

#[test]
fn enumeration() {
    let mut method = subprogram(9, "m");
    method.namespace = Namespace::new(&root(), Some(b"e"));
    let types = vec![Type {
        offset: 1,
        kind: TypeKind::Enumeration(EnumerationType {
            namespace: Namespace::new(&root(), Some(b"ns")),
            name: Some(b"e"),
            byte_size: Some(1),
            enumerators: vec![
                Enumerator { name: Some(b"A"), value: Some(0) },
                Enumerator { name: Some(b"B"), value: Some(-2) },
                Enumerator { name: None, value: None },
            ],
            subprograms: vec![method],
        }),
    }];
    assert_eq!(
        printed(with_types(types), &flags()),
        "enum ns::e\n\
         \tsize: 1\n\
         \tenumerators:\n\
         \t\tA(0)\n\
         \t\tB(-2)\n\
         \t\t<anon>\n\
         \n\
         fn e::m\n\
         \n"
    );
}

#[test]
fn type_definitions() {
    let types = vec![
        base(1, "int", 4),
        typedef(2, "number", Some(1)),
        typedef(3, "nothing", None),
        typedef(4, "lost", Some(77)),
        typedef(5, "pair", Some(6)),
        structure(6, None, Some(4), vec![member(Some("a"), Some(1), 0, None)]),
        typedef(7, "again", Some(2)),
    ];
    assert_eq!(
        printed(with_types(types), &flags()),
        "type number = int\n\
         \tsize: 4\n\
         \n\
         type nothing\n\
         \n\
         type lost\n\
         \n\
         type pair = struct <anon>\n\
         \tsize: 4\n\
         \tmembers:\n\
         \t\t0[4]\ta: int\n\
         \n\
         \tsize: 4\n\
         \n\
         type again = number\n\
         \tsize: 4\n\
         \n"
    );
}

fn name_of(types: Vec<Type<'static>>, offset: usize) -> (String, Option<u64>) {
    let units = with_types(types);
    let flags = flags();
    let mut state = PrintState::new(&units, &flags);
    state.set_unit(&units[0]);
    let mut w = String::new();
    Type::print_offset_name(&mut w, &state, offset);
    (w, Type::offset_bit_size(&state, Some(offset)))
}

#[test]
fn names_and_sizes_of_types() {
    let types = || {
        vec![
            base(1, "int", 4),
            modifier(2, TypeModifierKind::Pointer, Some(1)),
            modifier(3, TypeModifierKind::Const, Some(2)),
            modifier(4, TypeModifierKind::Restrict, None),
            array(5, Some(3), Some(10)),
            array(6, Some(1), None),
            array(7, None, Some(2)),
            Type {
                offset: 8,
                kind: TypeKind::Subroutine(SubroutineType {
                    parameters: vec![
                        parameter(Some("a"), Some(1)),
                        parameter(None, Some(5)),
                        parameter(None, None),
                    ],
                    return_type: Some(2),
                }),
            },
            Type {
                offset: 9,
                kind: TypeKind::Subroutine(SubroutineType { parameters: vec![], return_type: None }),
            },
            Type { offset: 10, kind: TypeKind::Unimplemented(0x34) },
            Type { offset: 11, kind: TypeKind::Unimplemented(0x7777) },
            Type {
                offset: 12,
                kind: TypeKind::Modifier(TypeModifier {
                    kind: TypeModifierKind::Pointer,
                    ty: Some(1),
                    namespace: Namespace::new(&root(), Some(b"ns")),
                    name: Some(b"ptr"),
                    byte_size: Some(2),
                }),
            },
            Type { offset: 13, kind: TypeKind::Base(BaseType { name: None, byte_size: None }) },
            modifier(14, TypeModifierKind::Const, Some(55)),
        ]
    };
    let check = |offset, name: &str, size| {
        assert_eq!(name_of(types(), offset), (String::from(name), size));
    };
    check(1, "int", Some(32));
    check(2, "* int", Some(64));
    check(3, "const * int", Some(64));
    check(4, "restrict <unknown-type>", None);
    check(5, "[const * int; 10]", Some(640));
    check(6, "[int]", None);
    check(7, "[<unknown-type>; 2]", None);
    check(8, "(a: int, [const * int; 10], <anon>) -> * int", None);
    check(9, "()", None);
    check(10, "<unimplemented DW_TAG_variable>", None);
    check(11, "<unimplemented Unknown DwTag: 30583>", None);
    check(12, "ns::ptr", Some(16));
    check(13, "<anon-base-type>", None);
    check(14, "const <invalid-type>", None);
    check(15, "<invalid-type>", None);
}

#[test]
fn types_that_hold_themselves() {
    let types = || {
        vec![
            array(1, Some(2), Some(3)),
            modifier(2, TypeModifierKind::Const, Some(1)),
            typedef(3, "t", Some(3)),
            structure(4, None, Some(8), vec![member(Some("a"), Some(4), 0, None)]),
            modifier(5, TypeModifierKind::Pointer, Some(4)),
        ]
    };
    assert_eq!(name_of(types(), 1), (String::from("<recursive-type>"), None));
    assert_eq!(name_of(types(), 2), (String::from("<recursive-type>"), None));
    assert_eq!(name_of(types(), 3), (String::from("t"), None));
    assert_eq!(name_of(types(), 5), (String::from("* struct <anon>"), Some(64)));
    let mut units = with_types(types());
    units[0].types.push(structure(6, Some("s"), Some(8), vec![member(Some("m"), Some(4), 0, None)]));
    assert_eq!(
        printed(units, &flags()),
        "type t = t\n\
         \n\
         struct s\n\
         \tsize: 8\n\
         \tmembers:\n\
         \t\t0[8]\tm: struct <anon>\n\
         \n"
    );
}

#[test]
fn of_types_with_one_offset_the_last_counts() {
    let (name, size) = name_of(vec![base(1, "int", 4), base(1, "long", 8)], 1);
    assert_eq!((name.as_str(), size), ("long", Some(64)));
}

fn sample() -> Vec<Unit<'static>> {
    let mut one = unit(Some(b"a.c"));
    one.types = vec![base(1, "int", 4), modifier(2, TypeModifierKind::Pointer, Some(1))];
    let mut f = subprogram(10, "f");
    f.namespace = Namespace::new(&root(), Some(b"ns"));
    f.linkage_name = Some(b"_Zf");
    f.low_pc = Some(0x1000);
    f.high_pc = Some(0x1010);
    f.size = Some(16);
    f.declaration = true;
    f.inline = true;
    f.return_type = Some(2);
    f.parameters = vec![parameter(Some("x"), Some(1)), parameter(None, None)];
    f.inlined_subroutines = vec![
        inlined(Some(11), Some(5), vec![inlined(Some(99), None, vec![inlined(None, Some(1), vec![])])]),
        inlined(Some(10), None, vec![]),
    ];
    f.calls = vec![0x2000, 0x3000];
    let mut g = subprogram(11, "g");
    g.low_pc = Some(0x2000);
    g.high_pc = Some(0x2000);
    g.return_type = Some(9);
    one.subprograms = vec![f, g];
    let mut v = variable("v", Some(2));
    v.linkage_name = Some(b"_Zv");
    v.declaration = true;
    one.variables = vec![v, variable("u", None)];
    vec![one]
}

const HEAD: &'static str = "fn ns::f\n\
                            \tlinkage name: _Zf\n\
                            \taddress: 0x1000-0x100f\n\
                            \tsize: 16\n\
                            \tinline: yes\n\
                            \tdeclaration: yes\n\
                            \treturn type:\n\
                            \t\t[8]\t* int\n\
                            \tparameters:\n\
                            \t\t[4]\tx: int\n\
                            \t\t[??]\t<anon>\n";

const INLINED: &'static str = "\tinlined subroutines:\n\
                               \t\t[5]\tg\n\
                               \t\t[??]\tns::f\n";

const TAIL: &'static str = "fn g\n\
                            \taddress: 0x2000\n\
                            \treturn type:\n\
                            \t\t[??]\t<invalid-type>\n\
                            \n\
                            var v: * int\n\
                            \tlinkage name: _Zv\n\
                            \tsize: 8\n\
                            \tdeclaration: yes\n\
                            \n\
                            var u: <anon>\n\
                            \n";

#[test]
fn subprograms_and_variables() {
    assert_eq!(printed(sample(), &flags()), format!("{}{}\n{}", HEAD, INLINED, TAIL));
}

#[test]
fn depth_of_inlined_subroutines() {
    let mut flags = flags();
    flags.inline_depth = 0;
    assert_eq!(printed(sample(), &flags), format!("{}\n{}", HEAD, TAIL));
    flags.inline_depth = 2;
    let deeper = "\tinlined subroutines:\n\
                  \t\t[5]\tg\n\
                  \t\t\t[??]\t<anon>\n\
                  \t\t[??]\tns::f\n";
    assert_eq!(printed(sample(), &flags), format!("{}{}\n{}", HEAD, deeper, TAIL));
    flags.inline_depth = usize::max_value();
    let deepest = "\tinlined subroutines:\n\
                   \t\t[5]\tg\n\
                   \t\t\t[??]\t<anon>\n\
                   \t\t\t\t[1]\t<anon>\n\
                   \t\t[??]\tns::f\n";
    assert_eq!(printed(sample(), &flags), format!("{}{}\n{}", HEAD, deepest, TAIL));
}

#[test]
fn calls() {
    let mut flags = flags();
    flags.calls = true;
    let calls = "\tcalls:\n\t\t0x2000 g\n\t\t0x3000\n";
    assert_eq!(printed(sample(), &flags), format!("{}{}{}\n{}", HEAD, INLINED, calls, TAIL));
    // Code at address zero is not looked at.
    let mut units = sample();
    units[0].subprograms[0].low_pc = Some(0);
    assert!(!printed(units, &flags).contains("calls:"));
}

#[test]
fn code_to_look_at_for_calls() {
    let units = sample();
    let mut flags = flags();
    assert_eq!(units[0].subprograms[0].code(&flags), None);
    flags.calls = true;
    assert_eq!(units[0].subprograms[0].code(&flags), Some((0x1000, 0x1010)));
    assert_eq!(units[0].subprograms[1].code(&flags), Some((0x2000, 0x2000)));
    flags.name = Some("g");
    assert_eq!(units[0].subprograms[0].code(&flags), None);
    assert_eq!(subprogram(1, "g").code(&flags), None);
}

#[test]
fn filters() {
    let mut flags = flags();
    flags.name = Some("u");
    assert_eq!(printed(sample(), &flags), "var u: <anon>\n\n");
    flags.name = None;
    flags.namespace = vec!["ns"];
    assert_eq!(printed(sample(), &flags), format!("{}{}\n", HEAD, INLINED));
    flags.name = Some("g");
    assert_eq!(printed(sample(), &flags), "");
    // An anonymous structure has no name that could pass.
    flags.namespace = vec![];
    flags.name = Some("pair");
    let types =
        vec![typedef(5, "pair", Some(6)), structure(6, None, Some(4), vec![])];
    assert_eq!(printed(with_types(types), &flags), "type pair = \tsize: 4\n\n");
}

#[test]
fn the_next_unit_forgets_the_one_before() {
    let mut first = unit(Some(b"a.c"));
    first.types = vec![base(1, "int", 4)];
    first.variables = vec![variable("a", Some(1))];
    let mut second = unit(Some(b"b.c"));
    second.address_size = Some(4);
    second.types = vec![modifier(2, TypeModifierKind::Pointer, Some(1))];
    second.variables = vec![variable("b", Some(1)), variable("c", Some(2))];
    assert_eq!(
        printed(vec![first, second], &flags()),
        "var a: int\n\tsize: 4\n\n\
         var b: <invalid-type>\n\n\
         var c: * <invalid-type>\n\tsize: 4\n\n"
    );
}

#[test]
fn calls_into_another_unit() {
    let mut flags = flags();
    flags.calls = true;
    let mut first = unit(Some(b"a.c"));
    let mut f = subprogram(10, "f");
    f.low_pc = Some(1);
    f.high_pc = Some(2);
    f.calls = vec![0x50, 0x60];
    first.subprograms = vec![f];
    let mut second = unit(Some(b"b.c"));
    let mut method = subprogram(20, "m");
    method.namespace = Namespace::new(&root(), Some(b"s"));
    method.low_pc = Some(0x50);
    second.types = vec![structure(1, Some("s"), None, vec![])];
    if let TypeKind::Struct(ref mut ty) = second.types[0].kind {
        ty.subprograms = vec![method];
    }
    let text = printed(vec![first, second], &flags);
    assert_eq!(
        text,
        "fn f\n\taddress: 0x1-0x1\n\tcalls:\n\t\t0x50 s::m\n\t\t0x60\n\n\
         struct s\n\n\
         fn s::m\n\n"
    );
}

#[test]
fn sorted_by_kind_and_name() {
    let mut flags = flags();
    flags.sort = true;
    let mut one = unit(Some(b"a.c"));
    one.types = vec![
        structure(1, Some("b"), None, vec![]),
        typedef(2, "t", None),
        structure(3, Some("a"), None, vec![]),
    ];
    one.subprograms = vec![subprogram(4, "g"), subprogram(5, "f")];
    one.variables = vec![variable("y", None), variable("x", None)];
    assert_eq!(
        printed(vec![one], &flags),
        "type t\n\nstruct a\n\nstruct b\n\nfn f\n\nfn g\n\nvar x: <anon>\n\nvar y: <anon>\n\n"
    );
}

#[test]
fn difference_between_files() {
    let mut file1 = File {
        machine: Machine::X86_64,
        units: vec![unit(Some(b"c.c")), unit(Some(b"a.c")), unit(None), unit(Some(b"x\"\\'\t\x01\xe9"))],
    };
    let mut file2 = File {
        machine: Machine::X86_64,
        units: vec![unit(Some(b"c.c")), unit(Some(b"b.c")), unit(Some(b"c.c"))],
    };
    let mut w = String::new();
    diff_file(&mut file1, &mut file2, &mut w);
    assert_eq!(
        w,
        "First only: None\n\
         First only: Some(\"a.c\")\n\
         Second only: Some(\"b.c\")\n\
         Both: Some(\"c.c\") Some(\"c.c\")\n\
         Second only: Some(\"c.c\")\n\
         First only: Some(\"x\\\"\\\\\\'\\t\\x01\\xe9\")\n"
    );
    assert_eq!(file1.units[1].name, Some(&b"a.c"[..]));
}

#[test]
fn no_difference_to_itself() {
    let make = || File {
        machine: Machine::X86_64,
        units: vec![unit(Some(b"b.c")), unit(Some(b"a.c")), unit(Some(b"b.c"))],
    };
    let mut w = String::new();
    diff_file(&mut make(), &mut make(), &mut w);
    assert_eq!(
        w,
        "Both: Some(\"a.c\") Some(\"a.c\")\n\
         Both: Some(\"b.c\") Some(\"b.c\")\n\
         Both: Some(\"b.c\") Some(\"b.c\")\n"
    );
}

fn coded(offset: usize, name: &'static str, low_pc: u64, high_pc: u64) -> Subprogram<'static> {
    let mut subprogram = subprogram(offset, name);
    subprogram.low_pc = Some(low_pc);
    subprogram.high_pc = Some(high_pc);
    subprogram
}

#[test]
fn calls_of_all_subprograms() {
    let mut holder = structure(1, Some("s"), None, vec![]);
    if let TypeKind::Struct(ref mut ty) = holder.kind {
        ty.subprograms.push(coded(2, "m", 0x30, 0x40));
        ty.subprograms.push(subprogram(3, "without"));
    }
    let mut first = unit(None);
    first.types = vec![base(4, "int", 4), holder];
    first.subprograms = vec![coded(5, "f", 0x10, 0x20), coded(6, "zero", 0, 9)];
    let mut second = unit(None);
    second.subprograms = vec![coded(7, "g", 0x50, 0x60), coded(8, "h", 0x70, 0x80)];
    let mut file = File { machine: Machine::X86_64, units: vec![first, second] };

    let mut flags = flags();
    assert_eq!(file.codes(&flags), vec![]);
    flags.calls = true;
    let codes = vec![(0x30, 0x40), (0x10, 0x20), (0x50, 0x60), (0x70, 0x80)];
    assert_eq!(file.codes(&flags), codes);
    file.store_calls(&flags, &vec![vec![1], vec![2, 3], vec![]]);
    // The code is listed as before.
    assert_eq!(file.codes(&flags), codes);
    let held = file.units[0].types[1].get_subprograms().unwrap();
    assert_eq!((&held[0].calls, &held[1].calls), (&vec![1], &vec![]));
    let own = &file.units[0].subprograms;
    assert_eq!((&own[0].calls, &own[1].calls), (&vec![2, 3], &vec![]));
    assert!(file.units[1].subprograms.iter().all(|s| s.calls.is_empty()));

    flags.name = Some("g");
    assert_eq!(file.codes(&flags), vec![(0x50, 0x60)]);
    file.store_calls(&flags, &vec![vec![9]]);
    assert_eq!(file.units[0].subprograms[0].calls, vec![2, 3]);
    assert_eq!(file.units[1].subprograms[0].calls, vec![9]);

    file.machine = Machine::Arm;
    assert_eq!(file.codes(&flags), vec![]);
    file.store_calls(&flags, &vec![vec![8]]);
    assert_eq!(file.units[1].subprograms[0].calls, vec![9]);
}

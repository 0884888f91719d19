# ddbug

Reads the debugging information of an executable (DWARF) and prints what it declares: types
with the layout of their members, subprograms with their parameters, inlined subroutines and
calls, and variables. With `--diff` it prints which units two executables have in common.

`src/` is the library. Everything in it is verified with Verus; the calls into `gimli` and a
few functions of the standard library are trusted, and each says above it what is taken on
trust.

* `read`, `walk`, `parser`, `little`, `big`, `dwarf`: from the sections of a file to its entries
* `entry`, `expression`, `unit`, `types`, `subprogram`: from entries to declarations
* `state`, `chain`, `size`: types found by offset, and their sizes
* `text`, `namespace`, `names`, `members`, `layout`, `print`, `file`: declarations as text
* `order`, `sort`, `compare`, `diff`: the order of declarations, and differences
* `machine`, `calls`, `callers`: the program itself, and what its code calls

`app/` is the program around the library: options, files, the evaluation of expressions and
the disassembler.

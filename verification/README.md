# microc

A compiler for MicroC, a small C dialect, as a Verus library with a thin
program around it.

- `src/` is the verified library:
  - `ast`: the syntax tree and the reference evaluator of arithmetic;
  - `parser`: line preprocessing (comment and empty lines dropped) and a
    recursive-descent parser, each proved against a grammar written as spec
    functions;
  - `analysis`: the standalone type checker;
  - `symtab`, `stack`: the symbol table and the compiler's stack of local
    variables;
  - `compiler`: code generation to a stack IR, proved against the
    generation scheme `comp`;
  - `emitter`: NASM text of the IR and of a whole program;
  - `machine`: a byte-level machine that runs the IR as the emitted
    x86-64 text does (16-bit words on a stack; `eax`, `edx` for the 32-bit
    `add`/`sub`/`mul`/`div`; an 8 MiB stack), with an executable
    interpreter proved against it. The `print` macro is taken to leave the
    registers as they were;
  - `driver`: compile and run on the machine;
  - `correctness`, `scoping`, `growth`, `labels`, `agreement`: laws of the
    compiler (compiled arithmetic agrees with evaluation on the machine;
    blocks give their variables back; code is only appended; labels are
    numbered in order and every jump targets one; the type checker and the
    compiler judge programs on globals alike).
- `app/` is the program: it reads source files, compiles them with the
  library, writes the assembly and runs `nasm`, `ld` and the executable.
- `tests/` holds the tests.

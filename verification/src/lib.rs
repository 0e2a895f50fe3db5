//! A small compiler for MicroC, a tiny C dialect: a parser, a type checker,
//! a code generator to a stack IR (and from it to x86-64 NASM text), and a
//! byte-level machine that executes the IR as the emitted x86-64 text does.

pub mod ast;
pub mod symtab;
pub mod analysis;
pub mod stack;
pub mod compiler;
pub mod machine;
pub mod correctness;
pub mod emitter;
pub mod parser;
pub mod driver;
pub mod scoping;
pub mod growth;
pub mod agreement;
pub mod labels;
pub mod semantics;

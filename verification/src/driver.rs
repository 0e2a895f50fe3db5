use vstd::prelude::*;

use crate::analysis::CompilationError;
use crate::ast::{eval_value, AST};
use crate::correctness::{all_arith16, arith, code, codes, div16, law_compiled_arithmetic_matches_eval, regs_after};
use crate::compiler::{comp, initial_state, Compiler};
use crate::machine::{run_ir, run_program, Fault, STACK_TOP};
use crate::parser::{ast_view, ast_view_all, lemma_view_all_len, parse, parsed, PR};

verus! {

/// The step budget of a run on the machine: the largest the machine can
/// count, so that a run stops for want of steps only where a native run
/// would not end either in any time that can be waited for.
pub const FUEL: u64 = 18446744073709551615;

/// Why compiling and running a program gave no exit code.
#[derive(Debug)]
pub enum RunError {
    /// The program does not compile.
    Compile(CompilationError),
    /// The compiled program stopped on a fault.
    Fault(Fault),
}

/// What compiling `ast` and running its code gives: the exit code, or the
/// error; `None` where the compiler panics.
pub open spec fn run_result(ast: AST) -> Option<Result<i32, RunError>> {
    match comp(initial_state(), ast) {
        None => None,
        Some((_, Err(e))) => Some(Err(RunError::Compile(e))),
        Some((s, Ok(_))) => match run_program(s.ir, s.symbols, FUEL as nat) {
            Ok((c, _)) => Some(Ok(c)),
            Err(f) => Some(Err(RunError::Fault(f))),
        },
    }
}

/// Compiles a program to its code and runs the code on the machine,
/// starting at `main` where the program defines one.
pub fn compile_and_execute(ast: &AST) -> (r: Result<i32, RunError>)
    requires
        comp(initial_state(), *ast) is Some,
    ensures
        run_result(*ast) == Some(r),
{
    let mut compiler = Compiler::new();
    match compiler.ast_to_ir(ast) {
        Err(e) => Err(RunError::Compile(e)),
        Ok(_) => match run_ir(compiler.ir(), compiler.symbols(), FUEL) {
            Ok((c, _)) => Ok(c),
            Err(f) => Err(RunError::Fault(f)),
        },
    }
}

/// A program of arithmetic statements that evaluates, and whose divisions
/// divide values in `0..65536` with `edx` and the upper half of `eax`
/// clear, compiled and run, exits with the low byte of the value of its
/// last statement, as the evaluator computes it.
pub proof fn law_run_matches_eval(v: Vec<AST>)
    requires
        v@.len() > 0,
        all_arith16(v@, (0u16, 0u32)),
        2 * codes(v@).len() <= STACK_TOP,
    ensures
        run_result(AST::Many(v)) == Some(
            Ok::<i32, RunError>((eval_value(AST::Many(v))->0 % 256) as i32),
        ),
{
    law_compiled_arithmetic_matches_eval(v, FUEL as nat);
}

/// The meaning of a nonempty sequence of trees is its first tree's meaning
/// followed by the rest's.
proof fn lemma_view_all_split(s: Seq<AST>)
    requires
        s.len() > 0,
    ensures
        ast_view_all(s)[0] == ast_view(s[0]),
        ast_view_all(s).drop_first() == ast_view_all(s.drop_first()),
{
    assert(ast_view_all(s).drop_first() =~= ast_view_all(s.drop_first()));
}

/// Arithmetic trees with the same meaning evaluate and compile alike.
proof fn lemma_same_view_arith(a: AST, b: AST)
    requires
        ast_view(a) == ast_view(b),
        arith(b),
    ensures
        arith(a),
        eval_value(a) == eval_value(b),
        code(a) == code(b),
    decreases b,
{
    match (a, b) {
        (AST::Add(a1, a2), AST::Add(b1, b2)) => {
            lemma_same_view_arith(*a1, *b1);
            lemma_same_view_arith(*a2, *b2);
        },
        (AST::Sub(a1, a2), AST::Sub(b1, b2)) => {
            lemma_same_view_arith(*a1, *b1);
            lemma_same_view_arith(*a2, *b2);
        },
        (AST::Mul(a1, a2), AST::Mul(b1, b2)) => {
            lemma_same_view_arith(*a1, *b1);
            lemma_same_view_arith(*a2, *b2);
        },
        (AST::Div(a1, a2), AST::Div(b1, b2)) => {
            lemma_same_view_arith(*a1, *b1);
            lemma_same_view_arith(*a2, *b2);
        },
        _ => {},
    }
}

/// Arithmetic trees with the same meaning leave the same registers, and
/// divide alike.
proof fn lemma_same_view_regs(a: AST, b: AST, r: (u16, u32))
    requires
        ast_view(a) == ast_view(b),
        arith(b),
    ensures
        regs_after(a, r) == regs_after(b, r),
        div16(b, r) ==> div16(a, r),
    decreases b,
{
    lemma_same_view_arith(a, b);
    match (a, b) {
        (AST::Add(a1, a2), AST::Add(b1, b2)) => {
            lemma_same_view_arith(*a1, *b1);
            lemma_same_view_arith(*a2, *b2);
            lemma_same_view_regs(*a1, *b1, r);
            lemma_same_view_regs(*a2, *b2, regs_after(*b1, r));
        },
        (AST::Sub(a1, a2), AST::Sub(b1, b2)) => {
            lemma_same_view_arith(*a1, *b1);
            lemma_same_view_arith(*a2, *b2);
            lemma_same_view_regs(*a1, *b1, r);
            lemma_same_view_regs(*a2, *b2, regs_after(*b1, r));
        },
        (AST::Mul(a1, a2), AST::Mul(b1, b2)) => {
            lemma_same_view_arith(*a1, *b1);
            lemma_same_view_arith(*a2, *b2);
            lemma_same_view_regs(*a1, *b1, r);
            lemma_same_view_regs(*a2, *b2, regs_after(*b1, r));
        },
        (AST::Div(a1, a2), AST::Div(b1, b2)) => {
            lemma_same_view_arith(*a1, *b1);
            lemma_same_view_arith(*a2, *b2);
            lemma_same_view_regs(*a1, *b1, r);
            lemma_same_view_regs(*a2, *b2, regs_after(*b1, r));
        },
        _ => {},
    }
}

/// Sequences of arithmetic trees with the same meaning evaluate and
/// compile alike.
proof fn lemma_same_view_arith_seq(va: Seq<AST>, vb: Seq<AST>, r: (u16, u32))
    requires
        ast_view_all(va) == ast_view_all(vb),
        all_arith16(vb, r),
    ensures
        va.len() == vb.len(),
        all_arith16(va, r),
        codes(va) == codes(vb),
        vb.len() > 0 ==> eval_value(va.last()) == eval_value(vb.last()),
    decreases vb.len(),
{
    lemma_view_all_len(va);
    lemma_view_all_len(vb);
    if vb.len() > 0 {
        lemma_view_all_split(va);
        lemma_view_all_split(vb);
        lemma_same_view_arith(va[0], vb[0]);
        lemma_same_view_regs(va[0], vb[0], r);
        lemma_same_view_arith_seq(va.drop_first(), vb.drop_first(), regs_after(vb[0], r));
        if vb.len() == 1 {
            assert(va.last() == va[0]);
            assert(vb.last() == vb[0]);
        } else {
            assert(va.last() == va.drop_first().last());
            assert(vb.last() == vb.drop_first().last());
        }
    }
}

/// Program text of arithmetic statements, compiled and run, exits with the
/// low byte of what evaluating its parse gives: for any trees `a` (what
/// `compile_and_run` compiles) and `b` (what `parse` gives) with the
/// meaning the text parses to, where `b` evaluates and its divisions
/// divide values in `0..65536` with `edx` and the upper half of `eax`
/// clear, running `a` gives the low byte of the value of `b`.
pub proof fn law_text_run_matches_eval(input: Seq<char>, a: AST, b: AST)
    requires
        parsed(input) is Done,
        ast_view(a) == parsed(input)->Done_1,
        ast_view(b) == parsed(input)->Done_1,
        b is Many,
        all_arith16(b->Many_0@, (0u16, 0u32)),
        2 * codes(b->Many_0@).len() <= STACK_TOP,
        eval_value(b) is Some,
    ensures
        run_result(a) == Some(Ok::<i32, RunError>((eval_value(b)->0 % 256) as i32)),
{
    let vb = b->Many_0;
    match a {
        AST::Many(va) => {
            lemma_same_view_arith_seq(va@, vb@, (0u16, 0u32));
            assert(vb@.len() > 0);
            law_run_matches_eval(va);
        },
        _ => {
            assert(ast_view(b) is Many);
        },
    }
}

/// Whether program text can be compiled and run without a panic: it
/// parses, and the compiler does not panic on what it parses to.
pub open spec fn runnable(input: Seq<char>) -> bool {
    &&& parsed(input) is Done
    &&& forall|a: AST| #[trigger] ast_view(a) == parsed(input)->Done_1 ==> comp(initial_state(), a) is Some
}

/// Parses program text, compiles it and runs its code on the machine: the
/// code the program exits with.
pub fn compile_and_run(input: &str) -> (r: Result<i32, RunError>)
    requires
        runnable(input@),
    ensures
        exists|a: AST| #[trigger] ast_view(a) == parsed(input@)->Done_1 && run_result(a) == Some(r),
{
    let ast = parse(input);
    compile_and_execute(&ast)
}

/// A program in its template: the template text, a line break, then the
/// program.
pub fn with_template(template: &str, program: &str) -> (r: String)
    ensures
        r@ == template@ + "\n"@ + program@,
{
    let mut t = String::from_str(template);
    t.append("\n");
    t.append(program);
    t
}

} // verus!

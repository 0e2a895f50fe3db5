use vstd::prelude::*;

use crate::ast::{eval_value, Type, AST};
use crate::compiler::{comp, comp_seq, initial_state, CState, IR};
use vstd::arithmetic::div_mod::{lemma_add_mod_noop, lemma_sub_mod_noop, lemma_mul_mod_noop, lemma_mod_mod, lemma_div_pos_is_pos, lemma_div_is_ordered_by_denominator, lemma_mod_multiples_vanish};
use crate::machine::{exec_instr, in_mem, initial_machine, pop_n, push_n, read_le, run_from, run_program, write_le, Fault, MState, MEM_SIZE, STACK_TOP, find_fn, binary_step, binary_regs, lemma_find_fn};

verus! {

/// An arithmetic expression: numbers and the four operations.
pub open spec fn arith(e: AST) -> bool
    decreases e,
{
    match e {
        AST::Number(_) => true,
        AST::Add(a, b) => arith(*a) && arith(*b),
        AST::Sub(a, b) => arith(*a) && arith(*b),
        AST::Mul(a, b) => arith(*a) && arith(*b),
        AST::Div(a, b) => arith(*a) && arith(*b),
        _ => false,
    }
}

/// The upper half of `eax` and `edx` after a two-operand instruction on
/// the words of `x` and `y` from `r`, or `r` where it faults.
pub open spec fn op_regs(op: IR, r: (u16, u32), x: int, y: int) -> (u16, u32) {
    match binary_regs(op, r.0, r.1, word(x) as u16, word(y) as u16) {
        Ok((_, hi, dx)) => (hi, dx),
        Err(_) => r,
    }
}

/// The upper half of `eax` and `edx` that the code of the arithmetic
/// expression `e` leaves, run from `r`.
pub open spec fn regs_after(e: AST, r: (u16, u32)) -> (u16, u32)
    decreases e,
{
    match e {
        AST::Add(a, b) => op_regs(IR::ADD, regs_after(*b, regs_after(*a, r)), eval_value(*a)->0 as int, eval_value(*b)->0 as int),
        AST::Sub(a, b) => op_regs(IR::SUB, regs_after(*b, regs_after(*a, r)), eval_value(*a)->0 as int, eval_value(*b)->0 as int),
        AST::Mul(a, b) => op_regs(IR::MUL, regs_after(*b, regs_after(*a, r)), eval_value(*a)->0 as int, eval_value(*b)->0 as int),
        AST::Div(a, b) => op_regs(IR::DIV, regs_after(*b, regs_after(*a, r)), eval_value(*a)->0 as int, eval_value(*b)->0 as int),
        _ => r,
    }
}

/// The arithmetic expression `e` evaluates, and its code, run from the
/// registers `r`, divides values in `0..65536` with `edx` and the upper
/// half of `eax` clear: `div ebx` divides `edx:eax`, so a division where
/// they are not clear does not divide the two words.
pub open spec fn div16(e: AST, r: (u16, u32)) -> bool
    decreases e,
{
    &&& eval_value(e) is Some
    &&& match e {
        AST::Add(a, b) => div16(*a, r) && div16(*b, regs_after(*a, r)),
        AST::Sub(a, b) => div16(*a, r) && div16(*b, regs_after(*a, r)),
        AST::Mul(a, b) => div16(*a, r) && div16(*b, regs_after(*a, r)),
        AST::Div(a, b) => {
            &&& div16(*a, r)
            &&& div16(*b, regs_after(*a, r))
            &&& regs_after(*b, regs_after(*a, r)) == (0u16, 0u32)
            &&& 0 <= eval_value(*a)->0 < 65536
            &&& 0 <= eval_value(*b)->0 < 65536
        },
        _ => true,
    }
}

/// The 16-bit word that holds `x`: `x` modulo `65536`.
pub open spec fn word(x: int) -> int {
    x % 65536
}

/// The instruction of a binary arithmetic node.
pub open spec fn op_of(e: AST) -> IR {
    match e {
        AST::Add(_, _) => IR::ADD,
        AST::Sub(_, _) => IR::SUB,
        AST::Mul(_, _) => IR::MUL,
        _ => IR::DIV,
    }
}

/// The code of an arithmetic expression: its operands' code in postfix
/// order.
pub open spec fn code(e: AST) -> Seq<IR>
    decreases e,
{
    match e {
        AST::Number(x) => seq![IR::PUSH(x)],
        AST::Add(a, b) => code(*a) + code(*b) + seq![IR::ADD],
        AST::Sub(a, b) => code(*a) + code(*b) + seq![IR::SUB],
        AST::Mul(a, b) => code(*a) + code(*b) + seq![IR::MUL],
        AST::Div(a, b) => code(*a) + code(*b) + seq![IR::DIV],
        _ => Seq::empty(),
    }
}

/// The code of a sequence of statements.
pub open spec fn codes(v: Seq<AST>) -> Seq<IR>
    decreases v.len(),
{
    if v.len() == 0 {
        Seq::empty()
    } else {
        code(v[0]) + codes(v.drop_first())
    }
}

/// Every statement is an arithmetic expression.
pub open spec fn all_arith(v: Seq<AST>) -> bool
    decreases v.len(),
{
    v.len() > 0 ==> arith(v[0]) && all_arith(v.drop_first())
}

/// The registers the code of the statements `v` leaves, run from `r`.
pub open spec fn regs_after_all(v: Seq<AST>, r: (u16, u32)) -> (u16, u32)
    decreases v.len(),
{
    if v.len() == 0 {
        r
    } else {
        regs_after_all(v.drop_first(), regs_after(v[0], r))
    }
}

/// Every statement is an arithmetic expression that meets `div16`, its
/// code run from the registers the statements before it leave, starting
/// from `r`.
pub open spec fn all_arith16(v: Seq<AST>, r: (u16, u32)) -> bool
    decreases v.len(),
{
    v.len() > 0 ==> arith(v[0]) && div16(v[0], r) && all_arith16(v.drop_first(), regs_after(v[0], r))
}

/// Statements that meet `all_arith16` are arithmetic.
pub proof fn lemma_all_arith16(v: Seq<AST>, r: (u16, u32))
    requires
        all_arith16(v, r),
    ensures
        all_arith(v),
    decreases v.len(),
{
    if v.len() > 0 {
        lemma_all_arith16(v.drop_first(), regs_after(v[0], r));
    }
}

/// The state with `extra` appended to its instructions.
pub open spec fn with_code(s: CState, extra: Seq<IR>) -> CState {
    CState { ir: s.ir + extra, ..s }
}

/// Compiling an arithmetic expression appends its postfix code and gives
/// `int`.
pub proof fn lemma_comp_arith(s: CState, e: AST)
    requires
        arith(e),
    ensures
        comp(s, e) == Some((with_code(s, code(e)), Ok::<Option<Type>, crate::analysis::CompilationError>(Some(Type::INT)))),
    decreases e,
{
    match e {
        AST::Number(x) => {
            assert(s.ir.push(IR::PUSH(x)) =~= s.ir + seq![IR::PUSH(x)]);
        },
        AST::Add(a, b) => {
            lemma_comp_arith(s, *a);
            lemma_comp_arith(with_code(s, code(*a)), *b);
            assert((s.ir + code(*a) + code(*b)).push(IR::ADD) =~= s.ir + code(e));
        },
        AST::Sub(a, b) => {
            lemma_comp_arith(s, *a);
            lemma_comp_arith(with_code(s, code(*a)), *b);
            assert((s.ir + code(*a) + code(*b)).push(IR::SUB) =~= s.ir + code(e));
        },
        AST::Mul(a, b) => {
            lemma_comp_arith(s, *a);
            lemma_comp_arith(with_code(s, code(*a)), *b);
            assert((s.ir + code(*a) + code(*b)).push(IR::MUL) =~= s.ir + code(e));
        },
        AST::Div(a, b) => {
            lemma_comp_arith(s, *a);
            lemma_comp_arith(with_code(s, code(*a)), *b);
            assert((s.ir + code(*a) + code(*b)).push(IR::DIV) =~= s.ir + code(e));
        },
        _ => {},
    }
}

/// Compiling a sequence of arithmetic statements appends their code.
pub proof fn lemma_comp_seq_arith(s: CState, v: Seq<AST>)
    requires
        all_arith(v),
    ensures
        comp_seq(s, v) == Some((with_code(s, codes(v)), Ok::<Option<Type>, crate::analysis::CompilationError>(None))),
    decreases v.len(),
{
    if v.len() == 0 {
        assert(s.ir + Seq::<IR>::empty() =~= s.ir);
    } else {
        lemma_comp_arith(s, v[0]);
        lemma_comp_seq_arith(with_code(s, code(v[0])), v.drop_first());
        assert(s.ir + code(v[0]) + codes(v.drop_first()) =~= s.ir + codes(v));
    }
}

/// Runs `k` instructions from `st`, failing as `run_from` does when the
/// program counter leaves the program.
pub open spec fn steps(prog: Seq<IR>, syms: Seq<(String, Type)>, st: MState, k: nat) -> Result<MState, Fault>
    decreases k,
{
    if k == 0 {
        Ok(st)
    } else if st.pc < 0 || st.pc >= prog.len() {
        Err(Fault::BadJump)
    } else {
        match exec_instr(prog, syms, st) {
            Err(f) => Err(f),
            Ok(s1) => steps(prog, syms, s1, (k - 1) as nat),
        }
    }
}

/// Running `a + b` instructions is running `a`, then `b`.
pub proof fn lemma_steps_add(prog: Seq<IR>, syms: Seq<(String, Type)>, st: MState, a: nat, b: nat)
    ensures
        steps(prog, syms, st, a + b) == match steps(prog, syms, st, a) {
            Ok(s1) => steps(prog, syms, s1, b),
            Err(f) => Err(f),
        },
    decreases a,
{
    if a > 0 && !(st.pc < 0 || st.pc >= prog.len()) {
        match exec_instr(prog, syms, st) {
            Err(_) => {},
            Ok(s1) => {
                lemma_steps_add(prog, syms, s1, (a - 1) as nat, b);
                assert((a + b - 1) as nat == ((a - 1) as nat + b) as nat);
            },
        }
    }
}

/// A run that first goes through `k` instructions.
pub proof fn lemma_run_steps(prog: Seq<IR>, syms: Seq<(String, Type)>, st: MState, k: nat, fuel: nat)
    requires
        steps(prog, syms, st, k) is Ok,
        fuel >= k,
    ensures
        run_from(prog, syms, st, fuel) == run_from(prog, syms, steps(prog, syms, st, k)->Ok_0, (fuel - k) as nat),
    decreases k,
{
    if k > 0 {
        let s1 = exec_instr(prog, syms, st)->Ok_0;
        lemma_run_steps(prog, syms, s1, (k - 1) as nat, (fuel - 1) as nat);
    }
}

/// Writing a 16-bit word: it reads back, and no other byte changes.
pub proof fn lemma_write_word(m: Seq<u8>, a: int, v: nat)
    requires
        0 <= a,
        a + 2 <= m.len(),
        v < 65536,
    ensures
        write_le(m, a, 2, v).len() == m.len(),
        read_le(write_le(m, a, 2, v), a, 2) == v,
        forall|j: int| 0 <= j < m.len() && (j < a || j >= a + 2) ==> #[trigger] write_le(m, a, 2, v)[j] == m[j],
{
    let w1 = m.update(a, (v % 256) as u8);
    let w2 = w1.update(a + 1, ((v / 256) % 256) as u8);
    assert(write_le(m, a, 2, v) == write_le(w1, a + 1, 1, v / 256));
    assert(write_le(w1, a + 1, 1, v / 256) == write_le(w2, a + 2, 0, (v / 256) / 256));
    assert(write_le(m, a, 2, v) == w2);
    assert(read_le(w2, a + 2, 0) == 0);
    assert(read_le(w2, a + 1, 1) == w2[a + 1] as nat + 256 * read_le(w2, a + 2, 0));
    assert(read_le(w2, a, 2) == w2[a] as nat + 256 * read_le(w2, a + 1, 1));
    assert(v == v % 256 + 256 * (v / 256));
}

/// A word is read from its two bytes only.
pub proof fn lemma_read_word_frame(m1: Seq<u8>, m2: Seq<u8>, a: int)
    requires
        m1[a] == m2[a],
        m1[a + 1] == m2[a + 1],
    ensures
        read_le(m1, a, 2) == read_le(m2, a, 2),
{
    assert(read_le(m1, a + 1, 1) == m1[a + 1] as nat + 256 * read_le(m1, a + 2, 0));
    assert(read_le(m2, a + 1, 1) == m2[a + 1] as nat + 256 * read_le(m2, a + 2, 0));
    assert(read_le(m1, a, 2) == m1[a] as nat + 256 * read_le(m1, a + 1, 1));
    assert(read_le(m2, a, 2) == m2[a] as nat + 256 * read_le(m2, a + 1, 1));
}

/// The state after executing an arithmetic expression's code, which
/// pushed `v` and left the registers `r`.
pub open spec fn after_expr(st: MState, s2: MState, len: nat, v: int, r: (u16, u32)) -> bool {
    &&& s2.pc == st.pc + len
    &&& s2.eax_hi == r.0
    &&& s2.edx == r.1
    &&& s2.rsp == st.rsp - 2
    &&& s2.mem.len() == MEM_SIZE
    &&& read_le(s2.mem, s2.rsp, 2) == v
    &&& forall|j: int| st.rsp <= j < MEM_SIZE ==> #[trigger] s2.mem[j] == st.mem[j]
    &&& s2.rbp == st.rbp
    &&& s2.globals == st.globals
    &&& s2.output == st.output
}

/// Executing the code of an arithmetic expression pushes the word of its
/// value and leaves the stack above untouched.
pub proof fn lemma_exec_arith(prog: Seq<IR>, syms: Seq<(String, Type)>, st: MState, e: AST)
    requires
        arith(e),
        div16(e, (st.eax_hi, st.edx)),
        0 <= st.pc,
        st.pc + code(e).len() <= prog.len(),
        prog.subrange(st.pc, st.pc + code(e).len()) == code(e),
        st.mem.len() == MEM_SIZE,
        2 * code(e).len() <= st.rsp <= MEM_SIZE,
    ensures
        steps(prog, syms, st, code(e).len()) is Ok,
        after_expr(
            st,
            steps(prog, syms, st, code(e).len())->Ok_0,
            code(e).len(),
            word(eval_value(e)->0 as int),
            regs_after(e, (st.eax_hi, st.edx)),
        ),
    decreases e,
{
    match e {
        AST::Number(x) => {
            assert(prog[st.pc] == code(e)[0]);
            let v = (x as u16) as nat;
            assert((x as u16) as int == (x as int) % 65536) by (bit_vector);
            let next = MState { pc: st.pc + 1, ..st };
            let s1 = MState { rsp: st.rsp - 2, mem: write_le(st.mem, st.rsp - 2, 2, v), ax: x as u16, ..next };
            lemma_exec_push(prog, syms, st, x);
            assert(exec_instr(prog, syms, st) == Ok::<MState, Fault>(s1));
            lemma_write_word(st.mem, st.rsp - 2, v);
            assert(steps(prog, syms, s1, 0) == Ok::<MState, Fault>(s1));
        },
        AST::Add(a, b) => lemma_exec_binary(prog, syms, st, e, *a, *b),
        AST::Sub(a, b) => lemma_exec_binary(prog, syms, st, e, *a, *b),
        AST::Mul(a, b) => lemma_exec_binary(prog, syms, st, e, *a, *b),
        AST::Div(a, b) => lemma_exec_binary(prog, syms, st, e, *a, *b),
        _ => {},
    }
}

/// The binary case of `lemma_exec_arith`.
#[verifier::rlimit(60)]
#[verifier::spinoff_prover]
proof fn lemma_exec_binary(prog: Seq<IR>, syms: Seq<(String, Type)>, st: MState, e: AST, a: AST, b: AST)
    requires
        (e == AST::Add(Box::new(a), Box::new(b)) || e == AST::Sub(Box::new(a), Box::new(b))
            || e == AST::Mul(Box::new(a), Box::new(b)) || e == AST::Div(Box::new(a), Box::new(b))),
        arith(e),
        div16(e, (st.eax_hi, st.edx)),
        0 <= st.pc,
        st.pc + code(e).len() <= prog.len(),
        prog.subrange(st.pc, st.pc + code(e).len()) == code(e),
        st.mem.len() == MEM_SIZE,
        2 * code(e).len() <= st.rsp <= MEM_SIZE,
    ensures
        steps(prog, syms, st, code(e).len()) is Ok,
        after_expr(
            st,
            steps(prog, syms, st, code(e).len())->Ok_0,
            code(e).len(),
            word(eval_value(e)->0 as int),
            regs_after(e, (st.eax_hi, st.edx)),
        ),
    decreases e, 0int,
{
    let ca = code(a);
    let cb = code(b);
    let op = op_of(e);
    assert(code(e) == ca + cb + seq![op]);
    let la = ca.len();
    let lb = cb.len();
    let p = st.pc;
    assert(la >= 1) by {
        lemma_code_nonempty(a);
    }
    assert(lb >= 1) by {
        lemma_code_nonempty(b);
    }
    assert(prog.subrange(p, p + la) =~= ca) by {
        assert(prog.subrange(p, p + la) =~= code(e).subrange(0, la as int));
    }
    lemma_exec_arith(prog, syms, st, a);
    let s1 = steps(prog, syms, st, la)->Ok_0;
    assert(prog.subrange(s1.pc, s1.pc + lb) =~= cb) by {
        assert(prog.subrange(s1.pc, s1.pc + lb) =~= code(e).subrange(la as int, (la + lb) as int));
    }
    lemma_exec_arith(prog, syms, s1, b);
    let s2 = steps(prog, syms, s1, lb)->Ok_0;
    let va = word(eval_value(a)->0 as int);
    let vb = word(eval_value(b)->0 as int);
    // The first operand's word is still in place.
    lemma_read_word_frame(s2.mem, s1.mem, s1.rsp);
    assert(read_le(s2.mem, st.rsp - 2, 2) == va);
    assert(read_le(s2.mem, st.rsp - 4, 2) == vb);
    // The operation.
    assert(prog[s2.pc] == code(e)[(la + lb) as int]);
    assert(prog[s2.pc] == op);
    let next = MState { pc: s2.pc + 1, ..s2 };
    let t1 = MState { rsp: next.rsp + 2, ..next };
    let t2 = MState { rsp: t1.rsp + 2, ..t1 };
    assert(pop_n(next, 2) == Ok::<(MState, nat), Fault>((t1, vb as nat)));
    assert(pop_n(t1, 2) == Ok::<(MState, nat), Fault>((t2, va as nat)));
    let r = word(eval_value(e)->0 as int);
    let r0 = (st.eax_hi, st.edx);
    let r2 = regs_after(b, regs_after(a, r0));
    lemma_binary_value(e, a, b, r0);
    let rr = regs_after(e, r0);
    assert(binary_regs(op, t2.eax_hi, t2.edx, va as u16, vb as u16) == Ok::<(u16, u16, u32), Fault>((r as u16, rr.0, rr.1)));
    let s3 = MState {
        ax: r as u16,
        eax_hi: rr.0,
        edx: rr.1,
        rsp: st.rsp - 2,
        mem: write_le(t2.mem, st.rsp - 2, 2, r as nat),
        ..t2
    };
    assert(binary_step(next, op) == Ok::<MState, Fault>(s3));
    lemma_exec_binop(prog, syms, s2, op);
    assert(exec_instr(prog, syms, s2) == Ok::<MState, Fault>(s3));
    assert(steps(prog, syms, s3, 0) == Ok::<MState, Fault>(s3));
    assert(steps(prog, syms, s2, 1) == Ok::<MState, Fault>(s3));
    lemma_write_word(t2.mem, st.rsp - 2, r as nat);
    lemma_steps_add(prog, syms, st, la, lb);
    lemma_steps_add(prog, syms, st, la + lb, 1);
    assert(code(e).len() == la + lb + 1);
}

/// The low word of `eax + ebx` on 32 bits is the word of the sum.
proof fn lemma_word_add(hi: int, x: int, y: int)
    requires
        0 <= hi < 65536,
    ensures
        ((hi * 65536 + word(x) + word(y)) % 4294967296) % 65536 == word(x + y),
{
    let s = hi * 65536 + word(x) + word(y);
    lemma_mod_mod(s, 65536, 65536);
    lemma_mod_multiples_vanish(hi, word(x) + word(y), 65536);
    lemma_add_mod_noop(x, y, 65536);
}

/// The low word of `eax - ebx` on 32 bits is the word of the difference.
proof fn lemma_word_sub(hi: int, x: int, y: int)
    requires
        0 <= hi < 65536,
    ensures
        ((hi * 65536 + word(x) - word(y)) % 4294967296) % 65536 == word(x - y),
{
    let s = hi * 65536 + word(x) - word(y);
    lemma_mod_mod(s, 65536, 65536);
    lemma_mod_multiples_vanish(hi, word(x) - word(y), 65536);
    lemma_sub_mod_noop(x, y, 65536);
}

/// The low word of `eax * ebx` is the word of the product.
proof fn lemma_word_mul(hi: int, x: int, y: int)
    requires
        0 <= hi < 65536,
    ensures
        ((hi * 65536 + word(x)) * word(y)) % 65536 == word(x * y),
{
    let va = word(x);
    let vb = word(y);
    assert((hi * 65536 + va) * vb == 65536 * (hi * vb) + va * vb) by (nonlinear_arith);
    lemma_mod_multiples_vanish(hi * vb, va * vb, 65536);
    lemma_mul_mod_noop(x, y, 65536);
}

/// The machine computes the word of an arithmetic node's value from the
/// words of its operands' values, with the registers `regs_after` gives.
#[verifier::rlimit(30)]
proof fn lemma_binary_value(e: AST, a: AST, b: AST, r0: (u16, u32))
    requires
        (e == AST::Add(Box::new(a), Box::new(b)) || e == AST::Sub(Box::new(a), Box::new(b))
            || e == AST::Mul(Box::new(a), Box::new(b)) || e == AST::Div(Box::new(a), Box::new(b))),
        div16(e, r0),
    ensures
        div16(a, r0),
        div16(b, regs_after(a, r0)),
        ({
            let r2 = regs_after(b, regs_after(a, r0));
            let rr = regs_after(e, r0);
            binary_regs(op_of(e), r2.0, r2.1, word(eval_value(a)->0 as int) as u16, word(eval_value(b)->0 as int) as u16)
                == Ok::<(u16, u16, u32), Fault>((word(eval_value(e)->0 as int) as u16, rr.0, rr.1))
        }),
{
    let x = eval_value(a)->0 as int;
    let y = eval_value(b)->0 as int;
    let va = word(x);
    let vb = word(y);
    let r = eval_value(e)->0 as int;
    let r2 = regs_after(b, regs_after(a, r0));
    let hi = r2.0 as int;
    assert((va as u16) as int == va);
    assert((vb as u16) as int == vb);
    if e is Add {
        assert(r == x + y);
        lemma_word_add(hi, x, y);
    } else if e is Sub {
        assert(r == x - y);
        lemma_word_sub(hi, x, y);
    } else if e is Mul {
        assert(r == x * y);
        lemma_word_mul(hi, x, y);
    } else {
        assert(0 <= x < 65536 && 0 < y < 65536);
        assert(va == x && vb == y);
        assert(r2 == (0u16, 0u32));
        assert(r == x / y);
        lemma_div_pos_is_pos(x, y);
        lemma_div_is_ordered_by_denominator(x, 1, y);
        assert(x / 1 == x);
        assert(0 <= r < 65536);
    }
}

/// The effect of a `PUSH` instruction.
proof fn lemma_exec_push(prog: Seq<IR>, syms: Seq<(String, Type)>, st: MState, x: i32)
    requires
        0 <= st.pc < prog.len(),
        prog[st.pc] == IR::PUSH(x),
    ensures
        exec_instr(prog, syms, st) == push_n(MState { ax: x as u16, pc: st.pc + 1, ..st }, 2, (x as u16) as nat),
{
    reveal(exec_instr);
}

/// The effect of an arithmetic instruction.
proof fn lemma_exec_binop(prog: Seq<IR>, syms: Seq<(String, Type)>, st: MState, op: IR)
    requires
        0 <= st.pc < prog.len(),
        prog[st.pc] == op,
        op == IR::ADD || op == IR::SUB || op == IR::MUL || op == IR::DIV,
    ensures
        exec_instr(prog, syms, st) == binary_step(MState { pc: st.pc + 1, ..st }, op),
{
    reveal(exec_instr);
}

/// Every arithmetic expression has some code.
pub proof fn lemma_code_nonempty(e: AST)
    requires
        arith(e),
    ensures
        code(e).len() >= 1,
    decreases e,
{
    match e {
        AST::Add(a, b) => lemma_code_nonempty(*a),
        AST::Sub(a, b) => lemma_code_nonempty(*a),
        AST::Mul(a, b) => lemma_code_nonempty(*a),
        AST::Div(a, b) => lemma_code_nonempty(*a),
        _ => {},
    }
}

/// No function label occurs in the code of an arithmetic expression.
proof fn lemma_code_no_fn(e: AST)
    requires
        arith(e),
    ensures
        forall|i: int| 0 <= i < code(e).len() ==> !(#[trigger] code(e)[i] is FnName),
    decreases e,
{
    match e {
        AST::Add(a, b) => {
            lemma_code_no_fn(*a);
            lemma_code_no_fn(*b);
            assert forall|i: int| 0 <= i < code(e).len() implies !(#[trigger] code(e)[i] is FnName) by {
                if i < code(*a).len() {
                    assert(code(e)[i] == code(*a)[i]);
                } else if i < code(*a).len() + code(*b).len() {
                    assert(code(e)[i] == code(*b)[i - code(*a).len()]);
                }
            }
        },
        AST::Sub(a, b) => {
            lemma_code_no_fn(*a);
            lemma_code_no_fn(*b);
            assert forall|i: int| 0 <= i < code(e).len() implies !(#[trigger] code(e)[i] is FnName) by {
                if i < code(*a).len() {
                    assert(code(e)[i] == code(*a)[i]);
                } else if i < code(*a).len() + code(*b).len() {
                    assert(code(e)[i] == code(*b)[i - code(*a).len()]);
                }
            }
        },
        AST::Mul(a, b) => {
            lemma_code_no_fn(*a);
            lemma_code_no_fn(*b);
            assert forall|i: int| 0 <= i < code(e).len() implies !(#[trigger] code(e)[i] is FnName) by {
                if i < code(*a).len() {
                    assert(code(e)[i] == code(*a)[i]);
                } else if i < code(*a).len() + code(*b).len() {
                    assert(code(e)[i] == code(*b)[i - code(*a).len()]);
                }
            }
        },
        AST::Div(a, b) => {
            lemma_code_no_fn(*a);
            lemma_code_no_fn(*b);
            assert forall|i: int| 0 <= i < code(e).len() implies !(#[trigger] code(e)[i] is FnName) by {
                if i < code(*a).len() {
                    assert(code(e)[i] == code(*a)[i]);
                } else if i < code(*a).len() + code(*b).len() {
                    assert(code(e)[i] == code(*b)[i - code(*a).len()]);
                }
            }
        },
        _ => {},
    }
}

/// No function label occurs in the code of arithmetic statements.
proof fn lemma_codes_no_fn(v: Seq<AST>)
    requires
        all_arith(v),
    ensures
        forall|i: int| 0 <= i < codes(v).len() ==> !(#[trigger] codes(v)[i] is FnName),
    decreases v.len(),
{
    if v.len() > 0 {
        lemma_code_no_fn(v[0]);
        lemma_codes_no_fn(v.drop_first());
        assert forall|i: int| 0 <= i < codes(v).len() implies !(#[trigger] codes(v)[i] is FnName) by {
            if i < code(v[0]).len() {
                assert(codes(v)[i] == code(v[0])[i]);
            } else {
                assert(codes(v)[i] == codes(v.drop_first())[i - code(v[0]).len()]);
            }
        }
    }
}

/// The code of statements is at least as long as their number.
proof fn lemma_codes_len(v: Seq<AST>)
    requires
        all_arith(v),
    ensures
        codes(v).len() >= v.len(),
    decreases v.len(),
{
    if v.len() > 0 {
        lemma_code_nonempty(v[0]);
        lemma_codes_len(v.drop_first());
    }
}

/// Executing the code of arithmetic statements leaves one word per
/// statement on the stack, the word of the last statement's value on top.
pub proof fn lemma_exec_seq(prog: Seq<IR>, syms: Seq<(String, Type)>, st: MState, v: Seq<AST>)
    requires
        all_arith16(v, (st.eax_hi, st.edx)),
        0 <= st.pc,
        st.pc + codes(v).len() <= prog.len(),
        prog.subrange(st.pc, st.pc + codes(v).len()) == codes(v),
        st.mem.len() == MEM_SIZE,
        2 * codes(v).len() <= st.rsp <= MEM_SIZE,
    ensures
        steps(prog, syms, st, codes(v).len()) is Ok,
        ({
            let s2 = steps(prog, syms, st, codes(v).len())->Ok_0;
            &&& s2.pc == st.pc + codes(v).len()
            &&& s2.rsp == st.rsp - 2 * v.len()
            &&& s2.mem.len() == MEM_SIZE
            &&& v.len() > 0 ==> read_le(s2.mem, s2.rsp, 2) == word(eval_value(v.last())->0 as int)
            &&& s2.output == st.output
        }),
    decreases v.len(),
{
    if v.len() > 0 {
        let e = v[0];
        let rest = v.drop_first();
        let le = code(e).len();
        assert(codes(v) == code(e) + codes(rest));
        assert(prog.subrange(st.pc, st.pc + le) =~= code(e)) by {
            assert(prog.subrange(st.pc, st.pc + le) =~= codes(v).subrange(0, le as int));
        }
        lemma_exec_arith(prog, syms, st, e);
        let s1 = steps(prog, syms, st, le)->Ok_0;
        lemma_code_nonempty(e);
        assert(prog.subrange(s1.pc, s1.pc + codes(rest).len()) =~= codes(rest)) by {
            assert(prog.subrange(s1.pc, s1.pc + codes(rest).len()) =~= codes(v).subrange(
                le as int,
                codes(v).len() as int,
            ));
        }
        lemma_exec_seq(prog, syms, s1, rest);
        lemma_steps_add(prog, syms, st, le, codes(rest).len());
        if rest.len() > 0 {
            assert(v.last() == rest.last());
        } else {
            assert(steps(prog, syms, s1, 0) == Ok::<MState, Fault>(s1));
        }
    } else {
        assert(steps(prog, syms, st, 0) == Ok::<MState, Fault>(st));
    }
}

/// Compiled arithmetic gives what evaluation gives: a program of
/// arithmetic statements that evaluates, and whose divisions divide values
/// in `0..65536` with `edx` and the upper half of `eax` clear (`div16`),
/// compiled and run (within the machine's memory and a step budget as
/// long as its code), exits with the value of its last statement, as
/// `AST::eval` computes it, modulo 256 (the width of an exit status), and
/// prints nothing.
pub proof fn law_compiled_arithmetic_matches_eval(v: Vec<AST>, fuel: nat)
    requires
        v@.len() > 0,
        all_arith16(v@, (0u16, 0u32)),
        2 * codes(v@).len() <= STACK_TOP,
        fuel >= codes(v@).len(),
    ensures
        comp(initial_state(), AST::Many(v)) matches Some((s, Ok(None))) && run_program(s.ir, s.symbols, fuel)
            == Ok::<(i32, Seq<u16>), Fault>(
            ((eval_value(AST::Many(v))->0 % 256) as i32, Seq::<u16>::empty()),
        ),
{
    let init = initial_state();
    lemma_all_arith16(v@, (0u16, 0u32));
    lemma_comp_seq_arith(init, v@);
    let s = with_code(init, codes(v@));
    assert(s.ir =~= codes(v@));
    let prog = s.ir;
    let syms = s.symbols;
    lemma_codes_no_fn(v@);
    lemma_find_fn(prog, "main"@);
    let st = initial_machine(prog, syms);
    assert(st.pc == 0);
    assert(prog.subrange(0, prog.len() as int) =~= prog);
    lemma_codes_len(v@);
    lemma_exec_seq(prog, syms, st, v@);
    lemma_run_steps(prog, syms, st, prog.len(), fuel);
    let s2 = steps(prog, syms, st, prog.len())->Ok_0;
    assert(eval_value(AST::Many(v)) == eval_value(v@.last()));
    let x = eval_value(v@.last())->0 as int;
    lemma_mod_mod(x, 256, 256);
    assert(word(x) % 256 == x % 256);
}

} // verus!


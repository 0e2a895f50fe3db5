use vstd::prelude::*;

use crate::analysis::{type_of, CompilationError};
use crate::ast::{Type, AST};
use crate::compiler::{comp, CState, IR};
use crate::correctness::lemma_write_word;
use crate::emitter::instr_text;
use crate::machine::{binary_regs, exec_instr, operand_bytes, read_le, Fault, MState, MEM_SIZE};
use crate::parser::{combine, lemma_op_at, lemma_ws, op_at, p_level, p_level_rest, ws, Op, PR, SAst};
use crate::stack::find_in;

verus! {

/// A comparison compares the two words as unsigned 16-bit numbers: with
/// the word `b` on top of the stack and `a` under it, `LESS` replaces both
/// by 1 when `a < b` and by 0 otherwise, leaving the flag in the
/// accumulator too.
pub proof fn law_less_compares_words(prog: Seq<IR>, syms: Seq<(String, Type)>, st: MState, a: u16, b: u16)
    requires
        0 <= st.pc < prog.len(),
        prog[st.pc] == IR::LESS,
        st.mem.len() == MEM_SIZE,
        0 <= st.rsp,
        st.rsp + 4 <= MEM_SIZE,
        read_le(st.mem, st.rsp, 2) == b,
        read_le(st.mem, st.rsp + 2, 2) == a,
    ensures
        exec_instr(prog, syms, st) matches Ok(s2) && {
            &&& s2.pc == st.pc + 1
            &&& s2.rsp == st.rsp + 2
            &&& read_le(s2.mem, s2.rsp, 2) == (if a < b { 1nat } else { 0nat })
            &&& s2.ax == (if a < b { 1u16 } else { 0u16 })
        },
{
    reveal(exec_instr);
    let v: nat = if a < b { 1 } else { 0 };
    lemma_write_word(st.mem, st.rsp + 2, v);
}

/// Reading a local variable reads its value with the width of its type:
/// the byte of a `bool`, the word of an `int`, at the variable's place in
/// the frame.
pub proof fn law_local_read_width(s: CState, name: String)
    requires
        find_in(s.vars, name@) is Some,
    ensures
        comp(s, AST::GetVar(name)) matches Some((s2, _)) ==> {
            let (off, t) = find_in(s.vars, name@)->0;
            &&& s2.ir.len() == s.ir.len() + 1
            &&& s2.ir.last() matches IR::GetLocal(o, size) && o == off && operand_bytes(size) == Some(
                if t == Type::BOOL {
                    1nat
                } else {
                    2nat
                },
            )
        },
{
}

/// A declaration has no value: the checker types it to no value, as the
/// compiler does, whatever the name, the type and the symbols.
pub proof fn law_declaration_has_no_value(name: String, t: Type, syms: Seq<(String, Type)>, s: CState)
    ensures
        type_of(AST::DeclareVar(name, t), syms) == Ok::<Option<Type>, CompilationError>(None),
        comp(s, AST::DeclareVar(name, t)) matches Some((_, r)) ==> r == type_of(AST::DeclareVar(name, t), syms),
{
}

/// The precedence level of a binary operator: 0 for `||`, 1 for `&&`, 2
/// for `<`, 3 for `+` and `-`, 4 for `*` and `/`.
pub open spec fn op_level(op: Op) -> nat {
    match op {
        Op::Or => 0,
        Op::And => 1,
        Op::Less => 2,
        Op::Plus | Op::Minus => 3,
        Op::Times | Op::Divide => 4,
    }
}

/// `p_level_rest` ends with the value it started with, at its start, or
/// with an operator of its level whose right operand is one parse of the
/// next level, ending where the whole ends.
proof fn lemma_rest_groups_left(s: Seq<char>, i: int, l: nat, acc: SAst)
    requires
        l < 5,
    ensures
        p_level_rest(s, i, l, acc) matches PR::Done(j, v) ==> (v == acc && j == i) || exists|m: int, op: Op, x: SAst, y: SAst|
            #![trigger p_level(s, m, l + 1), combine(op, x, y)]
            op_level(op) == l && v == combine(op, x, y) && p_level(s, m, l + 1) == PR::Done(j, y),
    decreases s.len() - i,
{
    if 0 <= i <= s.len() {
        let m = ws(s, i);
        lemma_ws(s, i);
        lemma_op_at(s, m, l);
        match op_at(s, m, l) {
            None => {},
            Some((k, op)) => {
                match p_level(s, k, l + 1) {
                    PR::Done(j2, rhs) => {
                        if i < j2 <= s.len() {
                            lemma_rest_groups_left(s, j2, l, combine(op, acc, rhs));
                            assert(op_level(op) == l);
                        }
                    },
                    _ => {},
                }
            },
        }
    }
}

/// Binary operators group to the left: a parse at level `l` is either a
/// parse of the next level, or an operator of level `l` whose right operand
/// is a single parse of the next level, so `a - b - c` is `(a - b) - c`.
pub proof fn law_operators_group_left(s: Seq<char>, i: int, l: nat)
    requires
        l < 5,
    ensures
        p_level(s, i, l) matches PR::Done(j, v) ==> p_level(s, i, l + 1) == PR::Done(j, v) || exists|
            m: int,
            op: Op,
            x: SAst,
            y: SAst,
        |
            #![trigger p_level(s, m, l + 1), combine(op, x, y)]
            op_level(op) == l && v == combine(op, x, y) && p_level(s, m, l + 1) == PR::Done(j, y),
{
    match p_level(s, i, l + 1) {
        PR::Done(j0, first) => {
            if i <= j0 <= s.len() {
                lemma_rest_groups_left(s, j0, l, first);
            }
        },
        _ => {},
    }
}

/// What an x86-64 arithmetic line does to `eax`, `ebx` and `edx`: the
/// new `eax` and `edx`, or `None` for the divide error or a line that is
/// none of these.
pub open spec fn alu_effect(line: Seq<char>, eax: u32, ebx: u32, edx: u32) -> Option<(u32, u32)> {
    if line == "add eax, ebx"@ {
        Some((((eax + ebx) % 4294967296) as u32, edx))
    } else if line == "sub eax, ebx"@ {
        Some((((eax - ebx) % 4294967296) as u32, edx))
    } else if line == "mul ebx"@ {
        Some((((eax * ebx) % 4294967296) as u32, ((eax * ebx) / 4294967296) as u32))
    } else if line == "div ebx"@ {
        if ebx == 0 {
            None
        } else {
            let d = edx * 4294967296 + eax;
            if d / (ebx as int) >= 4294967296 {
                None
            } else {
                Some(((d / (ebx as int)) as u32, (d % (ebx as int)) as u32))
            }
        }
    } else if line == "and eax, ebx"@ {
        Some((eax & ebx, edx))
    } else if line == "or eax, ebx"@ {
        Some((eax | ebx, edx))
    } else {
        None
    }
}

/// The machine's outcome of a two-operand instruction and the outcome of
/// the x86 line agree: the same divide error, or the same `ax`, upper half
/// of `eax` and `edx`.
pub open spec fn outcomes_agree(m: Result<(u16, u16, u32), Fault>, x: Option<(u32, u32)>) -> bool {
    match (m, x) {
        (Ok((r, h, d)), Some((e, d2))) => r == e % 65536 && h == e / 65536 && d == d2,
        (Err(_), None) => true,
        _ => false,
    }
}

/// The text emitted for an arithmetic instruction does that instruction:
/// it pops `b` into `bx` and `a` into `ax`, runs one x86 line on `eax`,
/// `ebx` and `edx`, and pushes `ax`; that line does to the registers what
/// the machine's instruction does, for all operands and registers.
pub proof fn law_arith_text_does_the_operation(
    op: IR,
    syms: Seq<(String, Type)>,
    hi: u16,
    dx: u32,
    a: u16,
    b: u16,
)
    requires
        op is ADD || op is SUB || op is MUL || op is DIV || op is AND || op is OR,
    ensures
        instr_text(op, syms) matches Some(t) && {
            &&& t.len() >= 22
            &&& t.subrange(0, 14) == "pop bx\npop ax\n"@
            &&& t.subrange(t.len() - 8, t.len() as int) == "\npush ax"@
            &&& outcomes_agree(
                binary_regs(op, hi, dx, a, b),
                alu_effect(t.subrange(14, t.len() - 8), (hi * 65536 + a) as u32, b as u32, dx),
            )
        },
{
    reveal_strlit("pop bx\npop ax\n");
    reveal_strlit("\npush ax");
    reveal_strlit("add eax, ebx");
    reveal_strlit("sub eax, ebx");
    reveal_strlit("mul ebx");
    reveal_strlit("div ebx");
    reveal_strlit("and eax, ebx");
    reveal_strlit("or eax, ebx");
    reveal_strlit("pop bx\npop ax\nadd eax, ebx\npush ax");
    reveal_strlit("pop bx\npop ax\nsub eax, ebx\npush ax");
    reveal_strlit("pop bx\npop ax\nmul ebx\npush ax");
    reveal_strlit("pop bx\npop ax\ndiv ebx\npush ax");
    reveal_strlit("pop bx\npop ax\nand eax, ebx\npush ax");
    reveal_strlit("pop bx\npop ax\nor eax, ebx\npush ax");
    let t = instr_text(op, syms)->0;
    assert(t.subrange(0, 14) =~= "pop bx\npop ax\n"@);
    assert(t.subrange(t.len() - 8, t.len() as int) =~= "\npush ax"@);
    let line = t.subrange(14, t.len() - 8);
    let eax: u32 = (hi * 65536 + a) as u32;
    assert(hi * 65536 + a < 4294967296);
    if op is ADD {
        assert(line =~= "add eax, ebx"@);
    } else if op is SUB {
        assert(line =~= "sub eax, ebx"@);
        assert(line != "add eax, ebx"@) by {
            assert(line[0] != "add eax, ebx"@[0]);
        }
    } else if op is MUL {
        assert(line =~= "mul ebx"@);
        assert(line.len() != "add eax, ebx"@.len());
        assert(line.len() != "sub eax, ebx"@.len());
    } else if op is DIV {
        assert(line =~= "div ebx"@);
        assert(line.len() != "add eax, ebx"@.len());
        assert(line.len() != "sub eax, ebx"@.len());
        assert(line != "mul ebx"@) by {
            assert(line[0] != "mul ebx"@[0]);
        }
    } else if op is AND {
        assert(line =~= "and eax, ebx"@);
        assert(line != "add eax, ebx"@) by {
            assert(line[1] != "add eax, ebx"@[1]);
        }
        assert(line != "sub eax, ebx"@) by {
            assert(line[0] != "sub eax, ebx"@[0]);
        }
        assert(line.len() != "mul ebx"@.len());
        assert(line.len() != "div ebx"@.len());
        let bb = b as u32;
        assert((eax & bb) % 65536 == (a & b) as u32 && (eax & bb) / 65536 == 0) by (bit_vector)
            requires
                eax == (hi as u32) * 65536 + (a as u32),
                bb == b as u32,
        ;
    } else {
        assert(line =~= "or eax, ebx"@);
        assert(line.len() != "add eax, ebx"@.len());
        assert(line.len() != "sub eax, ebx"@.len());
        assert(line.len() != "mul ebx"@.len());
        assert(line.len() != "div ebx"@.len());
        assert(line.len() != "and eax, ebx"@.len());
        let bb = b as u32;
        assert((eax | bb) % 65536 == (a | b) as u32 && (eax | bb) / 65536 == hi as u32) by (bit_vector)
            requires
                eax == (hi as u32) * 65536 + (a as u32),
                bb == b as u32,
        ;
    }
}

} // verus!

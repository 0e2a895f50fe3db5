use vstd::prelude::*;

use crate::ast::Type;
use crate::compiler::IR;
use crate::symtab::{first_named, lemma_first_named, NameMap};

verus! {

// The machine runs the IR as the emitted x86-64 text does: values are
// 16-bit words on the stack, and the two-operand instructions work on `eax`
// and `ebx` (`mul ebx` and `div ebx` also on `edx`), so the machine keeps
// the upper half of `eax` and all of `edx`; the upper half of `ebx` is zero
// throughout, as nothing but the entry code writes it. The `print` macro is
// taken to leave the registers as they were.

/// Bytes of stack memory the machine has, 8 MiB, the stack a Linux process
/// gets by default; the stack grows down from the top.
pub const MEM_SIZE: usize = 8388608;

/// The stack pointer at entry. The bytes above it stand for what a process
/// finds on its stack when it starts (its arguments); code may pop into
/// them, as a `main` that was jumped to, not called, does when it returns.
pub const STACK_TOP: usize = 8388352;

/// Why the machine stopped before the program exited.
#[derive(Debug, Clone, Copy, PartialEq, Eq, Structural)]
pub enum Fault {
    /// A stack access outside the stack memory.
    BadAddress,
    /// The processor's divide error: a division by zero, or one whose
    /// quotient does not fit in `eax`.
    DivideByZero,
    /// A jump to a label, or a call of a function, that is not in the
    /// program.
    UnknownLabel,
    /// A global variable that is not declared.
    UnknownName,
    /// A jump or return to a position outside the program.
    BadJump,
    /// A memory operand whose size no register has.
    BadOperandSize,
    /// The step budget ran out before the program exited.
    OutOfFuel,
}

/// The state of the machine.
pub struct MState {
    /// Position of the next instruction; the end of the program exits.
    pub pc: int,
    /// The 16-bit accumulator (`ax`).
    pub ax: u16,
    /// The upper half of `eax`.
    pub eax_hi: u16,
    /// The register `edx`.
    pub edx: u32,
    /// Stack pointer: the address of the top of the stack.
    pub rsp: int,
    /// Frame base pointer.
    pub rbp: int,
    /// The stack memory, `MEM_SIZE` bytes.
    pub mem: Seq<u8>,
    /// The value of each global variable, in the order of the symbols.
    pub globals: Seq<u16>,
    /// The values printed by the builtin `print`.
    pub output: Seq<u16>,
}

/// The little-endian value of the `n` bytes at `addr`.
pub open spec fn read_le(mem: Seq<u8>, addr: int, n: nat) -> nat
    decreases n,
{
    if n == 0 {
        0
    } else {
        mem[addr] as nat + 256 * read_le(mem, addr + 1, (n - 1) as nat)
    }
}

/// `mem` with the low `n` bytes of `v` written little-endian at `addr`.
pub open spec fn write_le(mem: Seq<u8>, addr: int, n: nat, v: nat) -> Seq<u8>
    decreases n,
{
    if n == 0 {
        mem
    } else {
        write_le(mem.update(addr, (v % 256) as u8), addr + 1, (n - 1) as nat, v / 256)
    }
}

/// Whether `n` bytes at `addr` lie in the stack memory.
pub open spec fn in_mem(addr: int, n: nat) -> bool {
    0 <= addr && addr + n <= MEM_SIZE
}

/// Pushes `n` bytes holding `v`.
pub open spec fn push_n(st: MState, n: nat, v: nat) -> Result<MState, Fault> {
    if !in_mem(st.rsp - n, n) || st.mem.len() != MEM_SIZE {
        Err(Fault::BadAddress)
    } else {
        Ok(MState { rsp: st.rsp - n, mem: write_le(st.mem, st.rsp - n, n, v), ..st })
    }
}

/// Pops `n` bytes: the new state and their value.
pub open spec fn pop_n(st: MState, n: nat) -> Result<(MState, nat), Fault> {
    if !in_mem(st.rsp, n) || st.mem.len() != MEM_SIZE {
        Err(Fault::BadAddress)
    } else {
        Ok((MState { rsp: st.rsp + n, ..st }, read_le(st.mem, st.rsp, n)))
    }
}

/// Position of the first instruction satisfying the label `l`.
pub open spec fn find_label(prog: Seq<IR>, l: u32) -> nat
    decreases prog.len(),
{
    if prog.len() == 0 {
        0
    } else if prog[0] == IR::Label(l) {
        0
    } else {
        1 + find_label(prog.drop_first(), l)
    }
}

/// Position of the first `FnName(name)` instruction.
pub open spec fn find_fn(prog: Seq<IR>, name: Seq<char>) -> nat
    decreases prog.len(),
{
    if prog.len() == 0 {
        0
    } else if prog[0] is FnName && prog[0]->FnName_0@ == name {
        0
    } else {
        1 + find_fn(prog.drop_first(), name)
    }
}

/// The accumulator after loading `n` bytes of value `v` into the register
/// of that size: `al` keeps the high byte; `ax` and `eax` read two bytes;
/// `rax` takes the low two bytes of eight.
pub open spec fn load_reg(ax: u16, size: u32, v: nat) -> u16 {
    if size == 1 {
        ((ax & 0xff00u16) | (v as u16)) as u16
    } else {
        (v % 65536) as u16
    }
}

/// The number of bytes a memory operand of `size` accesses, if a register
/// has that size.
pub open spec fn operand_bytes(size: u32) -> Option<nat> {
    if size == 1 {
        Some(1)
    } else if size == 2 || size == 4 {
        Some(2)
    } else if size == 8 {
        Some(8)
    } else {
        None
    }
}

/// Reads an operand of `size` at `addr` into the accumulator and pushes it.
pub open spec fn load_push(st: MState, addr: int, size: u32) -> Result<MState, Fault> {
    match operand_bytes(size) {
        None => Err(Fault::BadOperandSize),
        Some(n) => if !in_mem(addr, n) || st.mem.len() != MEM_SIZE {
            Err(Fault::BadAddress)
        } else {
            let ax = load_reg(st.ax, size, read_le(st.mem, addr, n));
            push_n(MState { ax: ax, ..st }, 2, ax as nat)
        },
    }
}

/// Pops into the accumulator and stores the operand of `size` at `addr`.
pub open spec fn pop_store(st: MState, addr: int, size: u32) -> Result<MState, Fault> {
    match pop_n(st, 2) {
        Err(f) => Err(f),
        Ok((st1, v)) => {
            let ax = v as u16;
            match operand_bytes(size) {
                None => Err(Fault::BadOperandSize),
                Some(n) => if !in_mem(addr, n) {
                    Err(Fault::BadAddress)
                } else {
                    Ok(MState { ax: ax, mem: write_le(st1.mem, addr, n, ax as nat), ..st1 })
                },
            }
        },
    }
}

/// What a two-operand instruction leaves in `ax`, the upper half of `eax`
/// and `edx`, from the upper half `hi` of `eax` and `edx` = `dx` before,
/// with the word `a` popped into `ax` and `b` into `bx`: `add eax, ebx`,
/// `sub eax, ebx`, `mul ebx` and `div ebx` on 32 bits, the comparison on
/// 16 bits, `and`/`or` on 32 bits with the upper half of `ebx` zero.
pub open spec fn binary_regs(op: IR, hi: u16, dx: u32, a: u16, b: u16) -> Result<(u16, u16, u32), Fault> {
    let eax: int = hi * 65536 + a;
    match op {
        IR::ADD => {
            let r = (eax + b) % 4294967296;
            Ok(((r % 65536) as u16, (r / 65536) as u16, dx))
        },
        IR::SUB => {
            let r = (eax - b) % 4294967296;
            Ok(((r % 65536) as u16, (r / 65536) as u16, dx))
        },
        IR::MUL => {
            let p = eax * b;
            Ok(((p % 65536) as u16, ((p % 4294967296) / 65536) as u16, (p / 4294967296) as u32))
        },
        IR::DIV => if b == 0 {
            Err(Fault::DivideByZero)
        } else {
            let d = dx * 4294967296 + eax;
            let q = d / (b as int);
            if q >= 4294967296 {
                Err(Fault::DivideByZero)
            } else {
                Ok(((q % 65536) as u16, (q / 65536) as u16, (d % (b as int)) as u32))
            }
        },
        IR::LESS => Ok((if a < b { 1u16 } else { 0u16 }, hi, dx)),
        IR::AND => Ok((a & b, 0u16, dx)),
        _ => Ok((a | b, hi, dx)),
    }
}

/// Pops two values, combines them and pushes the result.
pub open spec fn binary_step(st: MState, op: IR) -> Result<MState, Fault> {
    match pop_n(st, 2) {
        Err(f) => Err(f),
        Ok((st1, b)) => match pop_n(st1, 2) {
            Err(f) => Err(f),
            Ok((st2, a)) => match binary_regs(op, st2.eax_hi, st2.edx, a as u16, b as u16) {
                Err(f) => Err(f),
                Ok((r, hi, dx)) => push_n(MState { ax: r, eax_hi: hi, edx: dx, ..st2 }, 2, r as nat),
            },
        },
    }
}

/// Continues at the label `l`.
pub open spec fn jump(prog: Seq<IR>, st: MState, l: u32) -> Result<MState, Fault> {
    let i = find_label(prog, l);
    if i < prog.len() {
        Ok(MState { pc: i as int, ..st })
    } else {
        Err(Fault::UnknownLabel)
    }
}

/// The effect of the instruction at `st.pc`, which is inside the program.
#[verifier::opaque]
pub open spec fn exec_instr(prog: Seq<IR>, syms: Seq<(String, Type)>, st: MState) -> Result<MState, Fault> {
    let next = MState { pc: st.pc + 1, ..st };
    match prog[st.pc] {
        IR::PUSH(x) => push_n(MState { ax: x as u16, ..next }, 2, (x as u16) as nat),
        IR::ADD => binary_step(next, IR::ADD),
        IR::SUB => binary_step(next, IR::SUB),
        IR::MUL => binary_step(next, IR::MUL),
        IR::DIV => binary_step(next, IR::DIV),
        IR::LESS => binary_step(next, IR::LESS),
        IR::AND => binary_step(next, IR::AND),
        IR::OR => binary_step(next, IR::OR),
        IR::GetGlobal(v) => {
            let i = first_named(syms, v@);
            if i >= syms.len() || i >= st.globals.len() {
                Err(Fault::UnknownName)
            } else {
                let g = st.globals[i as int];
                let ax = if syms[i as int].1 == Type::INT {
                    g
                } else {
                    ((st.ax & 0xff00u16) | (g & 0xffu16)) as u16
                };
                push_n(MState { ax: ax, ..next }, 2, ax as nat)
            }
        },
        IR::SetGlobal(v) => match pop_n(next, 2) {
            Err(f) => Err(f),
            Ok((st1, a)) => {
                let i = first_named(syms, v@);
                if i >= syms.len() || i >= st.globals.len() {
                    Err(Fault::UnknownName)
                } else {
                    let g = if syms[i as int].1 == Type::INT {
                        a as u16
                    } else {
                        ((a as u16) & 0xffu16) as u16
                    };
                    Ok(MState { ax: a as u16, globals: st1.globals.update(i as int, g), ..st1 })
                }
            },
        },
        IR::GetLocal(off, size) => load_push(next, st.rbp - off, size),
        IR::SetLocal(off, size) => pop_store(next, st.rbp - off, size),
        IR::GetArg(off, size) => if off == u32::MAX {
            Err(Fault::BadOperandSize)
        } else {
            load_push(next, st.rbp + (off + 1) / 2 + 16, size)
        },
        IR::POP => match pop_n(next, 2) {
            Err(f) => Err(f),
            Ok((st1, a)) => Ok(MState { ax: a as u16, ..st1 }),
        },
        IR::Shrink(sz) => if st.rsp + sz > u64::MAX {
            Err(Fault::BadAddress)
        } else {
            Ok(MState { rsp: st.rsp + sz, ..next })
        },
        IR::Grow(sz) => if st.rsp - sz < 0 {
            Err(Fault::BadAddress)
        } else {
            Ok(MState { rsp: st.rsp - sz, ..next })
        },
        IR::ResetStack => match push_n(next, 8, st.rbp as nat) {
            Err(f) => Err(f),
            Ok(st1) => Ok(MState { rbp: st1.rsp, ..st1 }),
        },
        IR::RestoreStack => match pop_n(next, 8) {
            Err(f) => Err(f),
            Ok((st1, v)) => Ok(MState { rbp: v as int, ..st1 }),
        },
        IR::Label(_) => Ok(next),
        IR::FnName(n) => if n@ == "main"@ {
            Ok(MState { ax: 0, eax_hi: 0, edx: 0, ..next })
        } else {
            Ok(next)
        },
        IR::JmpIfTrue(l) => if st.ax != 0 {
            jump(prog, st, l)
        } else {
            Ok(next)
        },
        IR::JmpIfFalse(l) => if st.ax == 0 {
            jump(prog, st, l)
        } else {
            Ok(next)
        },
        IR::Jmp(l) => jump(prog, st, l),
        IR::Call(n) => {
            let target = find_fn(prog, n@);
            if target >= prog.len() {
                Err(Fault::UnknownLabel)
            } else {
                match push_n(next, 8, (st.pc + 1) as nat) {
                    Err(f) => Err(f),
                    Ok(st1) => Ok(MState { pc: target as int, ..st1 }),
                }
            }
        },
        IR::RET => match pop_n(next, 8) {
            Err(f) => Err(f),
            Ok((st1, v)) => Ok(MState { pc: v as int, ..st1 }),
        },
        IR::PushAX => push_n(next, 2, st.ax as nat),
        IR::Print64 => Ok(MState { output: st.output.push(st.ax), ..next }),
    }
}

/// Runs from `st` for at most `fuel` instructions. At the end of the
/// program the machine exits: it pops the top of the stack and exits with
/// its low byte.
pub open spec fn run_from(prog: Seq<IR>, syms: Seq<(String, Type)>, st: MState, fuel: nat) -> Result<(i32, Seq<u16>), Fault>
    decreases fuel,
{
    if st.pc == prog.len() {
        match pop_n(st, 2) {
            Err(f) => Err(f),
            Ok((_, v)) => Ok(((v % 256) as i32, st.output)),
        }
    } else if st.pc < 0 || st.pc > prog.len() {
        Err(Fault::BadJump)
    } else if fuel == 0 {
        Err(Fault::OutOfFuel)
    } else {
        match exec_instr(prog, syms, st) {
            Err(f) => Err(f),
            Ok(st1) => run_from(prog, syms, st1, (fuel - 1) as nat),
        }
    }
}

/// The state at entry: the program starts at its function `main` if it
/// has one, else at its first instruction, with the stack pointer and the
/// frame base at `STACK_TOP`. Memory, globals and the registers are zero,
/// as the code that opens `main` leaves them.
pub open spec fn initial_machine(prog: Seq<IR>, syms: Seq<(String, Type)>) -> MState {
    let m = find_fn(prog, "main"@);
    MState {
        pc: if m < prog.len() { m as int } else { 0 },
        ax: 0,
        eax_hi: 0,
        edx: 0,
        rsp: STACK_TOP as int,
        rbp: STACK_TOP as int,
        mem: Seq::new(MEM_SIZE as nat, |i: int| 0u8),
        globals: Seq::new(syms.len(), |i: int| 0u16),
        output: Seq::empty(),
    }
}

/// Running a compiled program on the machine: the code it exits with and
/// what it printed.
pub open spec fn run_program(prog: Seq<IR>, syms: Seq<(String, Type)>, fuel: nat) -> Result<(i32, Seq<u16>), Fault> {
    run_from(prog, syms, initial_machine(prog, syms), fuel)
}

} // verus!

verus! {

/// `256` to the power `n`.
pub open spec fn pow256(n: nat) -> nat
    decreases n,
{
    if n == 0 {
        1
    } else {
        256 * pow256((n - 1) as nat)
    }
}

/// A value read from `n` bytes is below `256^n`.
pub proof fn lemma_read_le_bound(mem: Seq<u8>, addr: int, n: nat)
    ensures
        read_le(mem, addr, n) < pow256(n),
    decreases n,
{
    if n > 0 {
        lemma_read_le_bound(mem, addr + 1, (n - 1) as nat);
    }
}

/// `write_le` keeps the length of the memory when it writes inside it.
pub proof fn lemma_write_le_len(mem: Seq<u8>, addr: int, n: nat, v: nat)
    requires
        0 <= addr,
        addr + n <= mem.len(),
    ensures
        write_le(mem, addr, n, v).len() == mem.len(),
    decreases n,
{
    if n > 0 {
        lemma_write_le_len(mem.update(addr, (v % 256) as u8), addr + 1, (n - 1) as nat, v / 256);
    }
}

/// `find_label` is the first position holding the label.
pub proof fn lemma_find_label(prog: Seq<IR>, l: u32)
    ensures
        find_label(prog, l) <= prog.len(),
        find_label(prog, l) < prog.len() ==> prog[find_label(prog, l) as int] == IR::Label(l),
        forall|j: int| 0 <= j < find_label(prog, l) ==> prog[j] != IR::Label(l),
    decreases prog.len(),
{
    if prog.len() > 0 && prog[0] != IR::Label(l) {
        lemma_find_label(prog.drop_first(), l);
        assert forall|j: int| 0 <= j < find_label(prog, l) implies prog[j] != IR::Label(l) by {
            if j > 0 {
                assert(prog[j] == prog.drop_first()[j - 1]);
            }
        }
    }
}

/// `find_fn` is the first position holding the function's name.
pub proof fn lemma_find_fn(prog: Seq<IR>, name: Seq<char>)
    ensures
        find_fn(prog, name) <= prog.len(),
        find_fn(prog, name) < prog.len() ==> (prog[find_fn(prog, name) as int] is FnName
            && prog[find_fn(prog, name) as int]->FnName_0@ == name),
        forall|j: int|
            0 <= j < find_fn(prog, name) ==> !(prog[j] is FnName && prog[j]->FnName_0@ == name),
    decreases prog.len(),
{
    if prog.len() > 0 && !(prog[0] is FnName && prog[0]->FnName_0@ == name) {
        lemma_find_fn(prog.drop_first(), name);
        assert forall|j: int| 0 <= j < find_fn(prog, name) implies !(prog[j] is FnName
            && prog[j]->FnName_0@ == name) by {
            if j > 0 {
                assert(prog[j] == prog.drop_first()[j - 1]);
            }
        }
    }
}

/// Position of the label `l` in the program, or its length.
fn label_position(prog: &Vec<IR>, l: u32) -> (i: usize)
    ensures
        i == find_label(prog@, l),
{
    proof {
        lemma_find_label(prog@, l);
    }
    let mut i: usize = 0;
    while i < prog.len()
        invariant
            i <= prog@.len(),
            forall|j: int| 0 <= j < i ==> prog@[j] != IR::Label(l),
            find_label(prog@, l) <= prog@.len(),
            find_label(prog@, l) < prog@.len() ==> prog@[find_label(prog@, l) as int] == IR::Label(l),
            forall|j: int| 0 <= j < find_label(prog@, l) ==> prog@[j] != IR::Label(l),
        decreases prog@.len() - i,
    {
        let found = match &prog[i] {
            IR::Label(x) => *x == l,
            _ => false,
        };
        if found {
            return i;
        }
        i = i + 1;
    }
    i
}

/// Position of the function `name` in the program, or its length.
fn fn_position(prog: &Vec<IR>, name: &String) -> (i: usize)
    ensures
        i == find_fn(prog@, name@),
{
    proof {
        lemma_find_fn(prog@, name@);
    }
    let mut i: usize = 0;
    while i < prog.len()
        invariant
            i <= prog@.len(),
            forall|j: int| 0 <= j < i ==> !(prog@[j] is FnName && prog@[j]->FnName_0@ == name@),
            find_fn(prog@, name@) <= prog@.len(),
            find_fn(prog@, name@) < prog@.len() ==> (prog@[find_fn(prog@, name@) as int] is FnName
                && prog@[find_fn(prog@, name@) as int]->FnName_0@ == name@),
            forall|j: int|
                0 <= j < find_fn(prog@, name@) ==> !(prog@[j] is FnName && prog@[j]->FnName_0@
                    == name@),
        decreases prog@.len() - i,
    {
        let found = match &prog[i] {
            IR::FnName(n) => *n == *name,
            _ => false,
        };
        if found {
            return i;
        }
        i = i + 1;
    }
    i
}

/// The machine that executes the IR: the accumulator, the stack and frame
/// pointers, byte-addressed stack memory, and the globals.
pub struct Machine {
    pc: u64,
    ax: u16,
    eax_hi: u16,
    edx: u32,
    rsp: u64,
    rbp: u64,
    mem: Vec<u8>,
    globals: Vec<u16>,
    output: Vec<u16>,
}

impl View for Machine {
    type V = MState;

    closed spec fn view(&self) -> MState {
        MState {
            pc: self.pc as int,
            ax: self.ax,
            eax_hi: self.eax_hi,
            edx: self.edx,
            rsp: self.rsp as int,
            rbp: self.rbp as int,
            mem: self.mem@,
            globals: self.globals@,
            output: self.output@,
        }
    }
}

impl Machine {
    pub closed spec fn wf(&self) -> bool {
        self.mem@.len() == MEM_SIZE
    }

    /// The machine at the entry of `prog`.
    pub fn new(prog: &Vec<IR>, syms: &NameMap<Type>) -> (m: Machine)
        ensures
            m.wf(),
            m@ == initial_machine(prog@, syms@),
    {
        let mut mem: Vec<u8> = Vec::new();
        let mut k: usize = 0;
        while k < MEM_SIZE
            invariant
                k <= MEM_SIZE,
                mem@ =~= Seq::new(k as nat, |i: int| 0u8),
            decreases MEM_SIZE - k,
        {
            mem.push(0);
            k = k + 1;
        }
        let mut globals: Vec<u16> = Vec::new();
        let mut g: usize = 0;
        while g < syms.len()
            invariant
                g <= syms@.len(),
                globals@ =~= Seq::new(g as nat, |i: int| 0u16),
            decreases syms@.len() - g,
        {
            globals.push(0);
            g = g + 1;
        }
        let main = String::from_str("main");
        let m = fn_position(prog, &main);
        let pc: u64 = if m < prog.len() {
            m as u64
        } else {
            0
        };
        Machine {
            pc: pc,
            ax: 0,
            eax_hi: 0,
            edx: 0,
            rsp: STACK_TOP as u64,
            rbp: STACK_TOP as u64,
            mem: mem,
            globals: globals,
            output: Vec::new(),
        }
    }

    /// Reads the little-endian value of `n` bytes at `addr`.
    fn read(&self, addr: u64, n: u64) -> (v: u64)
        requires
            self.wf(),
            in_mem(addr as int, n as nat),
            n <= 8,
        ensures
            v == read_le(self@.mem, addr as int, n as nat),
    {
        let mut acc: u64 = 0;
        let mut k: u64 = n;
        while k > 0
            invariant
                k <= n <= 8,
                in_mem(addr as int, n as nat),
                self.wf(),
                acc == read_le(self@.mem, addr + k, (n - k) as nat),
            decreases k,
        {
            proof {
                lemma_read_le_bound(self@.mem, addr + k, (n - k) as nat);
                assert(pow256(0) == 1);
                assert(pow256(1) == 256);
                assert(pow256(2) == 65536);
                assert(pow256(3) == 16777216);
                assert(pow256(4) == 4294967296);
                assert(pow256(5) == 1099511627776);
                assert(pow256(6) == 281474976710656);
                assert(pow256(7) == 72057594037927936);
            }
            let b = self.mem[(addr + k - 1) as usize];
            acc = b as u64 + 256 * acc;
            k = k - 1;
        }
        acc
    }

    /// Writes the low `n` bytes of `v` little-endian at `addr`.
    fn write(&mut self, addr: u64, n: u64, v: u64)
        requires
            old(self).wf(),
            in_mem(addr as int, n as nat),
        ensures
            final(self).wf(),
            final(self)@ == (MState { mem: write_le(old(self)@.mem, addr as int, n as nat, v as nat), ..old(self)@ }),
    {
        let ghost m0 = self@.mem;
        let mut k: u64 = 0;
        let mut w: u64 = v;
        while k < n
            invariant
                k <= n,
                in_mem(addr as int, n as nat),
                self.wf(),
                self@ == (MState { mem: self@.mem, ..old(self)@ }),
                write_le(m0, addr as int, n as nat, v as nat) == write_le(self@.mem, addr + k, (n - k) as nat, w as nat),
            decreases n - k,
        {
            self.mem.set((addr + k) as usize, (w % 256) as u8);
            w = w / 256;
            k = k + 1;
        }
    }
}

impl Machine {
    /// Pushes `n` bytes holding `v`.
    fn push(&mut self, n: u64, v: u64) -> (r: Result<(), Fault>)
        requires
            old(self).wf(),
            n <= 8,
        ensures
            match push_n(old(self)@, n as nat, v as nat) {
                Ok(s1) => r is Ok && final(self)@ == s1 && final(self).wf(),
                Err(f) => r == Err::<(), Fault>(f),
            },
    {
        if self.rsp < n || self.rsp > MEM_SIZE as u64 {
            return Err(Fault::BadAddress);
        }
        self.write(self.rsp - n, n, v);
        self.rsp = self.rsp - n;
        Ok(())
    }

    /// Pops `n` bytes and returns their value.
    fn pop(&mut self, n: u64) -> (r: Result<u64, Fault>)
        requires
            old(self).wf(),
            n <= 8,
        ensures
            match pop_n(old(self)@, n as nat) {
                Ok((s1, v)) => r == Ok::<u64, Fault>(v as u64) && v < 0x1_0000_0000_0000_0000
                    && final(self)@ == s1 && final(self).wf(),
                Err(f) => r == Err::<u64, Fault>(f),
            },
    {
        if self.rsp > MEM_SIZE as u64 || n > MEM_SIZE as u64 - self.rsp {
            return Err(Fault::BadAddress);
        }
        let v = self.read(self.rsp, n);
        proof {
            lemma_read_le_bound(self@.mem, self.rsp as int, n as nat);
            lemma_pow256_values();
            if n < 8 {
                lemma_pow256_mono(n as nat, 8);
            }
        }
        self.rsp = self.rsp + n;
        Ok(v)
    }

    /// Loads an operand of `size` from `addr` into the accumulator and
    /// pushes it; `addr` is `None` where the address is out of range.
    fn load_push(&mut self, addr: Option<u64>, Ghost(a): Ghost<int>, size: u32) -> (r: Result<(), Fault>)
        requires
            old(self).wf(),
            addr matches Some(x) ==> x == a,
            addr is None ==> a < 0 || a > u64::MAX,
        ensures
            match load_push(old(self)@, a, size) {
                Ok(s1) => r is Ok && final(self)@ == s1 && final(self).wf(),
                Err(f) => r == Err::<(), Fault>(f),
            },
    {
        let n: u64 = if size == 1 {
            1
        } else if size == 2 || size == 4 {
            2
        } else if size == 8 {
            8
        } else {
            return Err(Fault::BadOperandSize);
        };
        let x = match addr {
            Some(x) => x,
            None => {
                return Err(Fault::BadAddress);
            },
        };
        if x > MEM_SIZE as u64 || n > MEM_SIZE as u64 - x {
            return Err(Fault::BadAddress);
        }
        let v = self.read(x, n);
        let ax: u16 = if size == 1 {
            proof {
                lemma_read_le_bound(self@.mem, x as int, 1);
                lemma_pow256_values();
            }
            (self.ax & 0xff00u16) | (v as u16)
        } else {
            (v % 65536) as u16
        };
        self.ax = ax;
        self.push(2, ax as u64)
    }

    /// Pops into the accumulator and stores an operand of `size` at `addr`;
    /// `addr` is `None` where the address is out of range.
    fn pop_store(&mut self, addr: Option<u64>, Ghost(a): Ghost<int>, size: u32) -> (r: Result<(), Fault>)
        requires
            old(self).wf(),
            addr matches Some(x) ==> x == a,
            addr is None ==> a < 0 || a > u64::MAX,
        ensures
            match pop_store(old(self)@, a, size) {
                Ok(s1) => r is Ok && final(self)@ == s1 && final(self).wf(),
                Err(f) => r == Err::<(), Fault>(f),
            },
    {
        let v = self.pop(2)?;
        proof {
            let ghost m = old(self)@.mem;
            lemma_read_le_bound(m, old(self)@.rsp, 2);
            lemma_pow256_values();
        }
        let ax = v as u16;
        let n: u64 = if size == 1 {
            1
        } else if size == 2 || size == 4 {
            2
        } else if size == 8 {
            8
        } else {
            return Err(Fault::BadOperandSize);
        };
        let x = match addr {
            Some(x) => x,
            None => {
                return Err(Fault::BadAddress);
            },
        };
        if x > MEM_SIZE as u64 || n > MEM_SIZE as u64 - x {
            return Err(Fault::BadAddress);
        }
        self.ax = ax;
        self.write(x, n, ax as u64);
        Ok(())
    }

    /// Pops two values, combines them with `op` and pushes the result.
    fn binary(&mut self, op: &IR) -> (r: Result<(), Fault>)
        requires
            old(self).wf(),
        ensures
            match binary_step(old(self)@, *op) {
                Ok(s1) => r is Ok && final(self)@ == s1 && final(self).wf(),
                Err(f) => r == Err::<(), Fault>(f),
            },
    {
        let ghost m0 = self@;
        let b = self.pop(2)?;
        let ghost m1 = self@;
        let a = self.pop(2)?;
        proof {
            lemma_read_le_bound(m0.mem, m0.rsp, 2);
            lemma_read_le_bound(m1.mem, m1.rsp, 2);
            lemma_pow256_values();
        }
        let a = a as u16;
        let b = b as u16;
        let hi = self.eax_hi;
        let dx = self.edx;
        let eax: u64 = hi as u64 * 65536 + a as u64;
        let (r, nhi, ndx): (u16, u16, u32) = match op {
            IR::ADD => {
                let s = (eax + b as u64) % 4294967296;
                ((s % 65536) as u16, (s / 65536) as u16, dx)
            },
            IR::SUB => {
                let s = (eax + 4294967296 - b as u64) % 4294967296;
                proof {
                    assert(((eax + 4294967296 - b) % 4294967296) == ((eax - b) % 4294967296)) by (nonlinear_arith)
                        requires
                            0 <= eax < 4294967296,
                            0 <= b < 65536,
                    ;
                }
                ((s % 65536) as u16, (s / 65536) as u16, dx)
            },
            IR::MUL => {
                assert(eax * (b as u64) < 4294967296 * 65536) by (nonlinear_arith)
                    requires
                        eax < 4294967296,
                        b <= 65535,
                ;
                let p = eax * b as u64;
                ((p % 65536) as u16, ((p % 4294967296) / 65536) as u16, (p / 4294967296) as u32)
            },
            IR::DIV => {
                if b == 0 {
                    return Err(Fault::DivideByZero);
                }
                assert(dx * 4294967296 + eax < 18446744073709551616) by (nonlinear_arith)
                    requires
                        dx < 4294967296,
                        eax < 4294967296,
                ;
                let d: u64 = dx as u64 * 4294967296 + eax;
                let q = d / b as u64;
                if q >= 4294967296 {
                    return Err(Fault::DivideByZero);
                }
                let m = d % b as u64;
                ((q % 65536) as u16, (q / 65536) as u16, m as u32)
            },
            IR::LESS => (if a < b {
                1
            } else {
                0
            }, hi, dx),
            IR::AND => (a & b, 0, dx),
            _ => (a | b, hi, dx),
        };
        self.ax = r;
        self.eax_hi = nhi;
        self.edx = ndx;
        self.push(2, r as u64)
    }
}

/// The powers of 256 up to the eighth.
pub proof fn lemma_pow256_values()
    ensures
        pow256(0) == 1,
        pow256(1) == 256,
        pow256(2) == 65536,
        pow256(8) == 0x1_0000_0000_0000_0000,
{
    assert(pow256(0) == 1);
    assert(pow256(1) == 256);
    assert(pow256(2) == 65536);
    assert(pow256(3) == 16777216);
    assert(pow256(4) == 4294967296);
    assert(pow256(5) == 1099511627776);
    assert(pow256(6) == 281474976710656);
    assert(pow256(7) == 72057594037927936);
    assert(pow256(8) == 0x1_0000_0000_0000_0000);
}

/// `256^n` grows with `n`.
pub proof fn lemma_pow256_mono(a: nat, b: nat)
    requires
        a <= b,
    ensures
        pow256(a) <= pow256(b),
    decreases b,
{
    if a < b {
        lemma_pow256_mono(a, (b - 1) as nat);
    }
}

impl Machine {
    /// Continues at the label `l`.
    fn jump(&mut self, prog: &Vec<IR>, l: u32) -> (r: Result<(), Fault>)
        requires
            old(self).wf(),
        ensures
            match jump(prog@, old(self)@, l) {
                Ok(s1) => r is Ok && final(self)@ == s1 && final(self).wf(),
                Err(f) => r == Err::<(), Fault>(f),
            },
    {
        let i = label_position(prog, l);
        if i < prog.len() {
            self.pc = i as u64;
            Ok(())
        } else {
            Err(Fault::UnknownLabel)
        }
    }

    /// Pushes a global variable; the program counter has moved on.
    fn get_global(&mut self, syms: &NameMap<Type>, v: &String) -> (r: Result<(), Fault>)
        requires
            old(self).wf(),
        ensures
            ({
                let st = old(self)@;
                let i = first_named(syms@, v@);
                if i >= syms@.len() || i >= st.globals.len() {
                    r == Err::<(), Fault>(Fault::UnknownName)
                } else {
                    let g = st.globals[i as int];
                    let ax = if syms@[i as int].1 == Type::INT {
                        g
                    } else {
                        ((st.ax & 0xff00u16) | (g & 0xffu16)) as u16
                    };
                    match push_n(MState { ax: ax, ..st }, 2, ax as nat) {
                        Ok(s1) => r is Ok && final(self)@ == s1 && final(self).wf(),
                        Err(f) => r == Err::<(), Fault>(f),
                    }
                }
            }),
    {
        let i = syms.position(v);
        if i >= syms.len() || i >= self.globals.len() {
            return Err(Fault::UnknownName);
        }
        let g = self.globals[i];
        let (_, t) = syms.entry(i);
        let nax: u16 = match t {
            Type::INT => g,
            Type::BOOL => (self.ax & 0xff00u16) | (g & 0xffu16),
        };
        self.ax = nax;
        self.push(2, nax as u64)
    }

    /// Pops into a global variable; the program counter has moved on.
    fn set_global(&mut self, syms: &NameMap<Type>, v: &String) -> (r: Result<(), Fault>)
        requires
            old(self).wf(),
        ensures
            match pop_n(old(self)@, 2) {
                Err(f) => r == Err::<(), Fault>(f),
                Ok((st1, a)) => {
                    let i = first_named(syms@, v@);
                    if i >= syms@.len() || i >= old(self)@.globals.len() {
                        r == Err::<(), Fault>(Fault::UnknownName)
                    } else {
                        let g = if syms@[i as int].1 == Type::INT {
                            a as u16
                        } else {
                            ((a as u16) & 0xffu16) as u16
                        };
                        r is Ok && final(self).wf() && final(self)@ == (MState {
                            ax: a as u16,
                            globals: st1.globals.update(i as int, g),
                            ..st1
                        })
                    }
                },
            },
    {
        let a = self.pop(2)?;
        let i = syms.position(v);
        if i >= syms.len() || i >= self.globals.len() {
            return Err(Fault::UnknownName);
        }
        let (_, t) = syms.entry(i);
        let g: u16 = match t {
            Type::INT => a as u16,
            Type::BOOL => (a as u16) & 0xffu16,
        };
        self.ax = a as u16;
        self.globals.set(i, g);
        Ok(())
    }

    /// Executes the instruction at the program counter.
    fn step(&mut self, prog: &Vec<IR>, syms: &NameMap<Type>) -> (r: Result<(), Fault>)
        requires
            old(self).wf(),
            0 <= old(self)@.pc < prog@.len(),
        ensures
            match exec_instr(prog@, syms@, old(self)@) {
                Ok(s1) => r is Ok && final(self)@ == s1 && final(self).wf(),
                Err(f) => r == Err::<(), Fault>(f),
            },
    {
        proof {
            reveal(exec_instr);
        }
        let n = prog.len();
        let pc = self.pc as usize;
        let rbp = self.rbp;
        let ax = self.ax;
        self.pc = pc as u64 + 1;
        let instr = &prog[pc];
        match instr {
            IR::PUSH(x) => {
                let v = *x as u16;
                self.ax = v;
                self.push(2, v as u64)
            },
            IR::ADD => self.binary(instr),
            IR::SUB => self.binary(instr),
            IR::MUL => self.binary(instr),
            IR::DIV => self.binary(instr),
            IR::LESS => self.binary(instr),
            IR::AND => self.binary(instr),
            IR::OR => self.binary(instr),
            IR::GetGlobal(v) => self.get_global(syms, v),
            IR::SetGlobal(v) => self.set_global(syms, v),
            IR::GetLocal(off, size) => {
                let addr = if (*off as u64) <= rbp {
                    Some(rbp - *off as u64)
                } else {
                    None
                };
                self.load_push(addr, Ghost(rbp - *off), *size)
            },
            IR::SetLocal(off, size) => {
                let addr = if (*off as u64) <= rbp {
                    Some(rbp - *off as u64)
                } else {
                    None
                };
                self.pop_store(addr, Ghost(rbp - *off), *size)
            },
            IR::GetArg(off, size) => {
                if *off == u32::MAX {
                    return Err(Fault::BadOperandSize);
                }
                let d: u64 = (*off as u64 + 1) / 2 + 16;
                let addr = rbp.checked_add(d);
                self.load_push(addr, Ghost(rbp + d), *size)
            },
            IR::POP => {
                let a = self.pop(2)?;
                self.ax = a as u16;
                Ok(())
            },
            IR::Shrink(sz) => match self.rsp.checked_add(*sz as u64) {
                None => Err(Fault::BadAddress),
                Some(x) => {
                    self.rsp = x;
                    Ok(())
                },
            },
            IR::Grow(sz) => {
                if (*sz as u64) > self.rsp {
                    Err(Fault::BadAddress)
                } else {
                    self.rsp = self.rsp - *sz as u64;
                    Ok(())
                }
            },
            IR::ResetStack => {
                self.push(8, rbp)?;
                self.rbp = self.rsp;
                Ok(())
            },
            IR::RestoreStack => {
                let v = self.pop(8)?;
                self.rbp = v;
                Ok(())
            },
            IR::Label(_) => Ok(()),
            IR::FnName(n) => {
                if String::from_str("main") == *n {
                    self.ax = 0;
                    self.eax_hi = 0;
                    self.edx = 0;
                }
                Ok(())
            },
            IR::JmpIfTrue(l) => if ax != 0 {
                self.jump(prog, *l)
            } else {
                Ok(())
            },
            IR::JmpIfFalse(l) => if ax == 0 {
                self.jump(prog, *l)
            } else {
                Ok(())
            },
            IR::Jmp(l) => self.jump(prog, *l),
            IR::Call(n) => {
                let target = fn_position(prog, n);
                if target >= prog.len() {
                    return Err(Fault::UnknownLabel);
                }
                self.push(8, pc as u64 + 1)?;
                self.pc = target as u64;
                Ok(())
            },
            IR::RET => {
                let v = self.pop(8)?;
                self.pc = v;
                Ok(())
            },
            IR::PushAX => self.push(2, ax as u64),
            IR::Print64 => {
                self.output.push(ax);
                Ok(())
            },
        }
    }

    /// Runs for at most `fuel` instructions; see `run_from`.
    #[verifier::loop_isolation(false)]
    pub fn run(self, prog: &Vec<IR>, syms: &NameMap<Type>, fuel: u64) -> (r: Result<(i32, Vec<u16>), Fault>)
        requires
            self.wf(),
        ensures
            match run_from(prog@, syms@, self@, fuel as nat) {
                Ok((c, out)) => r matches Ok((c2, o)) && c2 == c && o@ == out,
                Err(f) => r == Err::<(i32, Vec<u16>), Fault>(f),
            },
    {
        let ghost result = run_from(prog@, syms@, self@, fuel as nat);
        let mut m = self;
        let mut fuel = fuel;
        loop
            invariant
                m.wf(),
                result == run_from(prog@, syms@, m@, fuel as nat),
            decreases fuel,
        {
            if m.pc == prog.len() as u64 {
                let v = m.pop(2)?;
                return Ok(((v % 256) as i32, m.output));
            }
            if m.pc > prog.len() as u64 {
                return Err(Fault::BadJump);
            }
            if fuel == 0 {
                return Err(Fault::OutOfFuel);
            }
            m.step(prog, syms)?;
            fuel = fuel - 1;
        }
    }
}

/// Runs a compiled program on a fresh machine for at most `fuel`
/// instructions: its exit code and what it printed, or why it stopped.
pub fn run_ir(prog: &Vec<IR>, syms: &NameMap<Type>, fuel: u64) -> (r: Result<(i32, Vec<u16>), Fault>)
    ensures
        match run_program(prog@, syms@, fuel as nat) {
            Ok((c, out)) => r matches Ok((c2, o)) && c2 == c && o@ == out,
            Err(f) => r == Err::<(i32, Vec<u16>), Fault>(f),
        },
{
    let m = Machine::new(prog, syms);
    m.run(prog, syms, fuel)
}

} // verus!

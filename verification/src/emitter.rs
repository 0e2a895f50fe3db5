use vstd::prelude::*;

use crate::analysis::CompilationError;
use crate::ast::{Type, AST};
use crate::compiler::{comp, initial_state, CState, Compiler, IR};
use crate::symtab::{lookup, NameMap};

verus! {

/// The decimal digit `d` as text.
pub open spec fn digit_text(d: nat) -> Seq<char> {
    if d == 0 {
        "0"@
    } else if d == 1 {
        "1"@
    } else if d == 2 {
        "2"@
    } else if d == 3 {
        "3"@
    } else if d == 4 {
        "4"@
    } else if d == 5 {
        "5"@
    } else if d == 6 {
        "6"@
    } else if d == 7 {
        "7"@
    } else if d == 8 {
        "8"@
    } else {
        "9"@
    }
}

/// The decimal digits of `n`, without leading zeros.
pub open spec fn digits(n: nat) -> Seq<char>
    decreases n,
{
    if n < 10 {
        digit_text(n)
    } else {
        digits(n / 10) + digit_text(n % 10)
    }
}

/// The decimal text of `x`, with a leading `-` when negative.
pub open spec fn dec(x: int) -> Seq<char> {
    if x < 0 {
        "-"@ + digits((-x) as nat)
    } else {
        digits(x as nat)
    }
}

fn digit(d: u64) -> (s: &'static str)
    requires
        d < 10,
    ensures
        s@ == digit_text(d as nat),
{
    if d == 0 {
        "0"
    } else if d == 1 {
        "1"
    } else if d == 2 {
        "2"
    } else if d == 3 {
        "3"
    } else if d == 4 {
        "4"
    } else if d == 5 {
        "5"
    } else if d == 6 {
        "6"
    } else if d == 7 {
        "7"
    } else if d == 8 {
        "8"
    } else {
        "9"
    }
}

fn digits_of(n: u64) -> (s: String)
    ensures
        s@ == digits(n as nat),
    decreases n,
{
    if n < 10 {
        String::from_str(digit(n))
    } else {
        let mut s = digits_of(n / 10);
        s.append(digit(n % 10));
        s
    }
}

/// The decimal text of `x`.
pub fn decimal(x: i64) -> (s: String)
    requires
        x > i64::MIN,
    ensures
        s@ == dec(x as int),
{
    if x < 0 {
        let mut s = String::from_str("-");
        let d = digits_of((-x) as u64);
        s.append(d.as_str());
        s
    } else {
        digits_of(x as u64)
    }
}

/// The register that holds an operand of `sz` bytes; `None` where there is
/// none.
pub open spec fn reg_text(sz: u32) -> Option<Seq<char>> {
    if sz == 1 {
        Some("al"@)
    } else if sz == 2 || sz == 4 {
        Some("ax"@)
    } else if sz == 8 {
        Some("rax"@)
    } else {
        None
    }
}

fn reg(sz: u32) -> (r: Option<&'static str>)
    ensures
        match r {
            Some(s) => reg_text(sz) == Some(s@),
            None => reg_text(sz) is None,
        },
{
    if sz == 1 {
        Some("al")
    } else if sz == 2 || sz == 4 {
        Some("ax")
    } else if sz == 8 {
        Some("rax")
    } else {
        None
    }
}

/// The NASM text of one instruction, given the global symbols; `None`
/// where the generator panics (a global that is not declared, an operand
/// size that no register has, or an argument offset that overflows).
pub open spec fn instr_text(i: IR, syms: Seq<(String, Type)>) -> Option<Seq<char>> {
    match i {
        IR::PUSH(x) => Some("mov ax, "@ + dec(x as int) + "\npush ax"@),
        IR::ADD => Some("pop bx\npop ax\nadd eax, ebx\npush ax"@),
        IR::SUB => Some("pop bx\npop ax\nsub eax, ebx\npush ax"@),
        IR::MUL => Some("pop bx\npop ax\nmul ebx\npush ax"@),
        IR::DIV => Some("pop bx\npop ax\ndiv ebx\npush ax"@),
        IR::LESS => Some(
            "pop bx\npop ax\ncmp ax, bx\nmov bx, 1\nmov cx, 0\ncmovb ax, bx\ncmovae ax, cx\npush ax"@,
        ),
        IR::AND => Some("pop bx\npop ax\nand eax, ebx\npush ax"@),
        IR::OR => Some("pop bx\npop ax\nor eax, ebx\npush ax"@),
        IR::GetGlobal(v) => match lookup(syms, v@) {
            None => None,
            Some(t) => match reg_text(t.spec_size()) {
                None => None,
                Some(r) => Some("mov "@ + r + ", [rel "@ + v@ + "]\npush ax"@),
            },
        },
        IR::SetGlobal(v) => match lookup(syms, v@) {
            None => None,
            Some(t) => match reg_text(t.spec_size()) {
                None => None,
                Some(r) => Some("pop ax\nmov [rel "@ + v@ + "], "@ + r),
            },
        },
        IR::GetLocal(v, sz) => match reg_text(sz) {
            None => None,
            Some(r) => Some("mov "@ + r + ", [rbp-"@ + dec(v as int) + "]\npush ax"@),
        },
        IR::SetLocal(v, sz) => match reg_text(sz) {
            None => None,
            Some(r) => Some("pop ax\nmov [rbp-"@ + dec(v as int) + "], "@ + r),
        },
        IR::GetArg(v, sz) => match reg_text(sz) {
            None => None,
            Some(r) => if v == u32::MAX {
                None
            } else {
                Some("mov "@ + r + ", [rbp+"@ + dec((v + 1) / 2 + 16) + "]\npush ax"@)
            },
        },
        IR::Grow(sz) => Some("sub rsp, "@ + dec(sz as int)),
        IR::Shrink(sz) => Some("add rsp, "@ + dec(sz as int)),
        IR::POP => Some("pop ax"@),
        IR::ResetStack => Some("push rbp\nmov rbp, rsp"@),
        IR::RestoreStack => Some("pop rbp"@),
        IR::Label(id) => Some(".L"@ + dec(id as int) + ":"@),
        IR::JmpIfTrue(l) => Some("test ax, ax\njne .L"@ + dec(l as int)),
        IR::JmpIfFalse(l) => Some("test ax, ax\nje .L"@ + dec(l as int)),
        IR::Jmp(l) => Some("jmp .L"@ + dec(l as int)),
        IR::FnName(name) => Some("\n"@ + name@ + ":"@),
        IR::RET => Some("ret"@),
        IR::Call(n) => Some("call "@ + n@),
        IR::PushAX => Some("push ax"@),
        IR::Print64 => Some("PRINT64"@),
    }
}

impl IR {
    /// The NASM text of the instruction.
    pub fn emit(&self, syms: &NameMap<Type>) -> (s: String)
        requires
            instr_text(*self, syms@) is Some,
        ensures
            instr_text(*self, syms@) == Some(s@),
    {
        match self {
            IR::PUSH(x) => {
                let mut s = String::from_str("mov ax, ");
                s.append(decimal(*x as i64).as_str());
                s.append("\npush ax");
                s
            },
            IR::ADD => String::from_str("pop bx\npop ax\nadd eax, ebx\npush ax"),
            IR::SUB => String::from_str("pop bx\npop ax\nsub eax, ebx\npush ax"),
            IR::MUL => String::from_str("pop bx\npop ax\nmul ebx\npush ax"),
            IR::DIV => String::from_str("pop bx\npop ax\ndiv ebx\npush ax"),
            IR::LESS => String::from_str(
                "pop bx\npop ax\ncmp ax, bx\nmov bx, 1\nmov cx, 0\ncmovb ax, bx\ncmovae ax, cx\npush ax",
            ),
            IR::AND => String::from_str("pop bx\npop ax\nand eax, ebx\npush ax"),
            IR::OR => String::from_str("pop bx\npop ax\nor eax, ebx\npush ax"),
            IR::GetGlobal(v) => {
                let t = *syms.get(v).unwrap();
                let r = reg(t.size()).unwrap();
                let mut s = String::from_str("mov ");
                s.append(r);
                s.append(", [rel ");
                s.append(v.as_str());
                s.append("]\npush ax");
                s
            },
            IR::SetGlobal(v) => {
                let t = *syms.get(v).unwrap();
                let r = reg(t.size()).unwrap();
                let mut s = String::from_str("pop ax\nmov [rel ");
                s.append(v.as_str());
                s.append("], ");
                s.append(r);
                s
            },
            IR::GetLocal(v, sz) => {
                let r = reg(*sz).unwrap();
                let mut s = String::from_str("mov ");
                s.append(r);
                s.append(", [rbp-");
                s.append(decimal(*v as i64).as_str());
                s.append("]\npush ax");
                s
            },
            IR::SetLocal(v, sz) => {
                let r = reg(*sz).unwrap();
                let mut s = String::from_str("pop ax\nmov [rbp-");
                s.append(decimal(*v as i64).as_str());
                s.append("], ");
                s.append(r);
                s
            },
            IR::GetArg(v, sz) => {
                let r = reg(*sz).unwrap();
                let mut s = String::from_str("mov ");
                s.append(r);
                s.append(", [rbp+");
                s.append(decimal(((*v + 1) / 2 + 16) as i64).as_str());
                s.append("]\npush ax");
                s
            },
            IR::Grow(sz) => {
                let mut s = String::from_str("sub rsp, ");
                s.append(decimal(*sz as i64).as_str());
                s
            },
            IR::Shrink(sz) => {
                let mut s = String::from_str("add rsp, ");
                s.append(decimal(*sz as i64).as_str());
                s
            },
            IR::POP => String::from_str("pop ax"),
            IR::ResetStack => String::from_str("push rbp\nmov rbp, rsp"),
            IR::RestoreStack => String::from_str("pop rbp"),
            IR::Label(id) => {
                let mut s = String::from_str(".L");
                s.append(decimal(*id as i64).as_str());
                s.append(":");
                s
            },
            IR::JmpIfTrue(label) => {
                let mut s = String::from_str("test ax, ax\njne .L");
                s.append(decimal(*label as i64).as_str());
                s
            },
            IR::JmpIfFalse(label) => {
                let mut s = String::from_str("test ax, ax\nje .L");
                s.append(decimal(*label as i64).as_str());
                s
            },
            IR::Jmp(label) => {
                let mut s = String::from_str("jmp .L");
                s.append(decimal(*label as i64).as_str());
                s
            },
            IR::FnName(name) => {
                let mut s = String::from_str("\n");
                s.append(name.as_str());
                s.append(":");
                s
            },
            IR::RET => String::from_str("ret"),
            IR::Call(n) => {
                let mut s = String::from_str("call ");
                s.append(n.as_str());
                s
            },
            IR::PushAX => String::from_str("push ax"),
            IR::Print64 => String::from_str("PRINT64"),
        }
    }
}

/// The register-clearing lines that start the program's `main`.
pub open spec fn prologue() -> Seq<char> {
    "\nxor rax, rax\nxor rbx, rbx\nxor rcx, rcx\nxor rdx, rdx\n\n"@
}

/// The data directive of a global of type `t`.
pub open spec fn directive(t: Type) -> Seq<char> {
    match t {
        Type::INT => "dd"@,
        Type::BOOL => "db"@,
    }
}

/// One zero-initialized data line per global, in the table's order.
pub open spec fn data_text(syms: Seq<(String, Type)>) -> Seq<char>
    decreases syms.len(),
{
    if syms.len() == 0 {
        Seq::empty()
    } else {
        data_text(syms.drop_last()) + syms.last().0@ + " "@ + directive(syms.last().1) + " 0\n"@
    }
}

/// Whether the instruction is the label of `main`.
pub open spec fn is_main_label(i: IR) -> bool {
    i is FnName && i->FnName_0@ == "main"@
}

/// The text of the instructions, one per line, with the register-clearing
/// lines after the label of `main`; `None` where an instruction has none.
pub open spec fn code_text(ir: Seq<IR>, syms: Seq<(String, Type)>) -> Option<Seq<char>>
    decreases ir.len(),
{
    if ir.len() == 0 {
        Some(Seq::empty())
    } else {
        match (code_text(ir.drop_last(), syms), instr_text(ir.last(), syms)) {
            (Some(a), Some(b)) => Some(
                a + b + "\n"@ + if is_main_label(ir.last()) {
                    prologue()
                } else {
                    Seq::empty()
                },
            ),
            _ => None,
        }
    }
}

/// The fixed lines between the data of the globals and the code.
pub open spec fn section_text(syms: Seq<(String, Type)>) -> Seq<char> {
    "\nsection .data\n\n"@ + data_text(syms) + "pstr64 db \"%hu\",10,0\n"@ + "hellostr db \"MicroC :)\",0\n"@
        + "\nsection .text\n"@
}

/// The assembly text of a compiled program: the data section with the
/// globals, then the code; where no function `main` was declared, the code
/// is preceded by a `main` label that sets up the frame.
pub open spec fn asm_text(c: CState) -> Option<Seq<char>> {
    match code_text(c.ir, c.symbols) {
        None => None,
        Some(code) => Some(
            section_text(c.symbols) + if lookup(c.funcs, "main"@) is None {
                "\nmain:\n\n"@ + "mov rbp, rsp\n"@ + prologue()
            } else {
                Seq::empty()
            } + code,
        ),
    }
}

/// What compiling a program gives: its assembly text, or the compilation
/// error; `None` where the compiler panics.
pub open spec fn compile_result(ast: AST) -> Option<Result<Seq<char>, CompilationError>> {
    match comp(initial_state(), ast) {
        None => None,
        Some((_, Err(e))) => Some(Err(e)),
        Some((s, Ok(_))) => match asm_text(s) {
            None => None,
            Some(t) => Some(Ok(t)),
        },
    }
}

impl Compiler {
    /// The assembly text of what has been compiled.
    pub fn ir_to_asm(&self) -> (s: String)
        requires
            self.wf(),
            asm_text(self@) is Some,
        ensures
            asm_text(self@) == Some(s@),
    {
        let symbols = self.symbols();
        let ir = self.ir();
        let mut s = String::from_str("\nsection .data\n\n");
        let mut i: usize = 0;
        while i < symbols.len()
            invariant
                i <= symbols@.len(),
                s@ == "\nsection .data\n\n"@ + data_text(symbols@.take(i as int)),
            decreases symbols@.len() - i,
        {
            let (name, t) = symbols.entry(i);
            let ghost pre = symbols@.take(i + 1);
            assert(pre.drop_last() =~= symbols@.take(i as int));
            assert(pre.last() == symbols@[i as int]);
            s.append(name.as_str());
            s.append(" ");
            match t {
                Type::INT => s.append("dd"),
                Type::BOOL => s.append("db"),
            }
            s.append(" 0\n");
            i = i + 1;
        }
        assert(symbols@.take(i as int) =~= symbols@);
        s.append("pstr64 db \"%hu\",10,0\n");
        s.append("hellostr db \"MicroC :)\",0\n");
        s.append("\nsection .text\n");
        assert(s@ == section_text(self@.symbols));
        let ghost head = s@;
        let main = String::from_str("main");
        let has_main = self.funcs().contains_key(&main);
        if !has_main {
            s.append("\nmain:\n\n");
            s.append("mov rbp, rsp\n");
            s.append("\nxor rax, rax\nxor rbx, rbx\nxor rcx, rcx\nxor rdx, rdx\n\n");
        }
        let ghost start = s@;
        let mut k: usize = 0;
        while k < ir.len()
            invariant
                k <= ir@.len(),
                self.wf(),
                ir@ == self@.ir,
                symbols@ == self@.symbols,
                asm_text(self@) is Some,
                main@ == "main"@,
                code_text(ir@, symbols@) is Some,
                code_text(ir@.take(k as int), symbols@) is Some,
                s@ == start + code_text(ir@.take(k as int), symbols@)->0,
            decreases ir@.len() - k,
        {
            proof {
                lemma_code_text_prefix(ir@, symbols@, k + 1);
                assert(ir@.take(k + 1).drop_last() =~= ir@.take(k as int));
                assert(ir@.take(k + 1).last() == ir@[k as int]);
            }
            let line = ir[k].emit(symbols);
            s.append(line.as_str());
            s.append("\n");
            let is_main = match &ir[k] {
                IR::FnName(name) => *name == main,
                _ => false,
            };
            if is_main {
                s.append("\nxor rax, rax\nxor rbx, rbx\nxor rcx, rcx\nxor rdx, rdx\n\n");
            }
            proof {
                let a = code_text(ir@.take(k as int), symbols@)->0;
                let extra = if is_main_label(ir@[k as int]) {
                    prologue()
                } else {
                    Seq::<char>::empty()
                };
                assert(is_main == is_main_label(ir@[k as int]));
                assert(code_text(ir@.take(k + 1), symbols@) == Some(a + line@ + "\n"@ + extra));
                assert(s@ =~= start + (a + line@ + "\n"@ + extra));
            }
            k = k + 1;
        }
        proof {
            assert(ir@.take(k as int) =~= ir@);
        }
        s
    }
}

/// A prefix of text-producing code has text.
pub proof fn lemma_code_text_prefix(ir: Seq<IR>, syms: Seq<(String, Type)>, k: int)
    requires
        0 <= k <= ir.len(),
        code_text(ir, syms) is Some,
    ensures
        code_text(ir.take(k), syms) is Some,
        k > 0 ==> instr_text(ir[k - 1], syms) is Some,
    decreases ir.len(),
{
    if k < ir.len() {
        assert(ir.drop_last().take(k) =~= ir.take(k));
        lemma_code_text_prefix(ir.drop_last(), syms, k);
        if k > 0 {
            assert(ir.drop_last()[k - 1] == ir[k - 1]);
        }
    } else {
        assert(ir.take(k) =~= ir);
    }
}

/// Compiles a program to NASM assembly text.
pub fn compile(ast: &AST) -> (r: Result<String, CompilationError>)
    requires
        compile_result(*ast) is Some,
    ensures
        match r {
            Ok(s) => compile_result(*ast) == Some(Ok::<Seq<char>, CompilationError>(s@)),
            Err(e) => compile_result(*ast) == Some(Err::<Seq<char>, CompilationError>(e)),
        },
{
    let mut compiler = Compiler::new();
    compiler.ast_to_ir(ast)?;
    Ok(compiler.ir_to_asm())
}

} // verus!

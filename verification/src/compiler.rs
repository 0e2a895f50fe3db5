use vstd::prelude::*;

use crate::analysis::{CompilationError, TypeResult};
use crate::ast::{Type, AST};
use crate::stack::{find_in, kept_len, lemma_sizes_prefix, sizes, Stack};
use crate::symtab::{distinct_names, first_named, lemma_first_named, lemma_store_distinct, lookup, store, NameMap};

verus! {

/// The intermediate representation: instructions of a stack machine. Each
/// instruction pops its inputs from the stack and pushes its result back.
#[derive(Debug)]
pub enum IR {
    PUSH(i32),
    ADD,
    SUB,
    MUL,
    DIV,
    LESS,
    AND,
    OR,
    GetGlobal(String),
    SetGlobal(String),
    /// offset, size
    GetLocal(u32, u32),
    SetLocal(u32, u32),
    GetArg(u32, u32),
    /// Stack operations. `POP` differs from `Shrink` in that it keeps the
    /// popped value in the accumulator.
    POP,
    Shrink(u32),
    Grow(u32),
    ResetStack,
    RestoreStack,
    /// Conditionals
    Label(u32),
    JmpIfTrue(u32),
    JmpIfFalse(u32),
    Jmp(u32),
    FnName(String),
    Call(String),
    RET,
    PushAX,
    /// Builtin functions
    Print64,
}

/// Total size in bytes of a list of parameters.
pub open spec fn param_bytes(p: Seq<(String, Type)>) -> int
    decreases p.len(),
{
    if p.len() == 0 {
        0
    } else {
        param_bytes(p.drop_last()) + p.last().1.spec_size()
    }
}

pub proof fn lemma_param_bytes_prefix(p: Seq<(String, Type)>, k: int)
    requires
        0 <= k <= p.len(),
    ensures
        0 <= param_bytes(p.take(k)) <= param_bytes(p),
    decreases p.len(),
{
    if k < p.len() {
        assert(p.drop_last().take(k) =~= p.take(k));
        lemma_param_bytes_prefix(p.drop_last(), k);
    } else {
        assert(p.take(k) =~= p);
        if p.len() > 0 {
            lemma_param_bytes_prefix(p.drop_last(), 0);
        }
    }
}

/// The signatures of the functions declared so far: return type and
/// parameters, by name.
pub struct FuncTable {
    entries: Vec<(String, Type, Vec<(String, Type)>)>,
}

impl View for FuncTable {
    type V = Seq<(String, (Type, Seq<(String, Type)>))>;

    closed spec fn view(&self) -> Seq<(String, (Type, Seq<(String, Type)>))> {
        Seq::new(
            self.entries@.len(),
            |i: int| (self.entries@[i].0, (self.entries@[i].1, self.entries@[i].2@)),
        )
    }
}

/// A copy of a parameter list.
fn copy_params(p: &Vec<(String, Type)>) -> (r: Vec<(String, Type)>)
    ensures
        r@ == p@,
{
    let mut r: Vec<(String, Type)> = Vec::new();
    let mut i: usize = 0;
    while i < p.len()
        invariant
            i <= p@.len(),
            r@ == p@.take(i as int),
        decreases p@.len() - i,
    {
        r.push((p[i].0.clone(), p[i].1));
        proof {
            assert(r@ =~= p@.take(i + 1));
        }
        i = i + 1;
    }
    proof {
        assert(p@.take(i as int) =~= p@);
    }
    r
}

impl FuncTable {
    pub open spec fn wf(&self) -> bool {
        distinct_names(self@)
    }

    pub fn new() -> (t: FuncTable)
        ensures
            t@ == Seq::<(String, (Type, Seq<(String, Type)>))>::empty(),
            t.wf(),
    {
        let t = FuncTable { entries: Vec::new() };
        proof {
            assert(t@ =~= Seq::<(String, (Type, Seq<(String, Type)>))>::empty());
        }
        t
    }

    fn position(&self, name: &String) -> (i: usize)
        ensures
            i == first_named(self@, name@),
            i <= self@.len(),
    {
        proof {
            lemma_first_named(self@, name@);
        }
        let mut i: usize = 0;
        while i < self.entries.len()
            invariant
                i <= self@.len(),
                self@.len() == self.entries@.len(),
                forall|j: int| 0 <= j < i ==> self@[j].0@ != name@,
                first_named(self@, name@) <= self@.len(),
                first_named(self@, name@) < self@.len() ==> self@[first_named(self@, name@) as int].0@ == name@,
                forall|j: int| 0 <= j < first_named(self@, name@) ==> self@[j].0@ != name@,
            decreases self@.len() - i,
        {
            assert(self@[i as int].0 == self.entries@[i as int].0);
            if self.entries[i].0 == *name {
                return i;
            }
            i = i + 1;
        }
        i
    }

    /// The return type and parameters of the function `name`.
    pub fn get(&self, name: &String) -> (r: Option<(Type, &Vec<(String, Type)>)>)
        ensures
            match r {
                Some((t, p)) => lookup(self@, name@) == Some((t, p@)),
                None => lookup(self@, name@) is None,
            },
    {
        let i = self.position(name);
        if i < self.entries.len() {
            Some((self.entries[i].1, &self.entries[i].2))
        } else {
            None
        }
    }

    /// Whether a function `name` was declared.
    pub fn contains_key(&self, name: &String) -> (r: bool)
        ensures
            r == (lookup(self@, name@) is Some),
    {
        self.position(name) < self.entries.len()
    }

    /// Records the signature of `name`, replacing an earlier one.
    pub fn insert(&mut self, name: String, t: Type, params: Vec<(String, Type)>)
        requires
            old(self).wf(),
        ensures
            final(self)@ == store(old(self)@, name, (t, params@)),
            final(self).wf(),
    {
        proof {
            lemma_store_distinct(old(self)@, name, (t, params@));
        }
        let ghost pv = params@;
        let i = self.position(&name);
        if i < self.entries.len() {
            let key = self.entries[i].0.clone();
            self.entries.set(i, (key, t, params));
            proof {
                assert(self@ =~= store(old(self)@, name, (t, pv)));
            }
        } else {
            self.entries.push((name, t, params));
            proof {
                assert(self@ =~= store(old(self)@, name, (t, pv)));
            }
        }
    }
}

/// The state of the compiler as a mathematical value.
pub struct CState {
    /// Global variables.
    pub symbols: Seq<(String, Type)>,
    /// Variables on the stack of the current function, with their scope.
    pub vars: Seq<(String, u32, Type)>,
    pub scope: u32,
    /// The instructions emitted so far.
    pub ir: Seq<IR>,
    /// The number of labels emitted so far.
    pub labels: u32,
    pub funcs: Seq<(String, (Type, Seq<(String, Type)>))>,
    /// The functions being compiled, innermost last.
    pub cur_fn: Seq<String>,
}

impl CState {
    /// The state after emitting `op`.
    pub open spec fn emit(self, op: IR) -> CState {
        CState { ir: self.ir.push(op), ..self }
    }
}

/// The state before anything is compiled.
pub open spec fn initial_state() -> CState {
    CState {
        symbols: Seq::empty(),
        vars: Seq::empty(),
        scope: 0,
        ir: Seq::empty(),
        labels: 0,
        funcs: Seq::empty(),
        cur_fn: Seq::empty(),
    }
}

/// The outcome of compiling a node from a state: the new state and the
/// node's type, or `None` where the compiler panics.
pub type Step = Option<(CState, TypeResult)>;

/// A new label: its instruction is emitted and its number returned. `None`
/// where the label counter overflows.
pub open spec fn emit_label(s: CState) -> Option<(CState, u32)> {
    if s.labels == u32::MAX {
        None
    } else {
        Some((CState { ir: s.ir.push(IR::Label(s.labels)), labels: (s.labels + 1) as u32, ..s }, s.labels))
    }
}

/// Emits a new label and points the jump at `pos` to it. `None` where the
/// counter overflows or `pos` holds no jump.
pub open spec fn update_stub(s: CState, pos: int) -> Option<CState> {
    match emit_label(s) {
        None => None,
        Some((s1, value)) => match s1.ir[pos] {
            IR::Jmp(_) => Some(CState { ir: s1.ir.update(pos, IR::Jmp(value)), ..s1 }),
            IR::JmpIfFalse(_) => Some(CState { ir: s1.ir.update(pos, IR::JmpIfFalse(value)), ..s1 }),
            IR::JmpIfTrue(_) => Some(CState { ir: s1.ir.update(pos, IR::JmpIfTrue(value)), ..s1 }),
            _ => None,
        },
    }
}

/// `update_stub`, ending a statement without a value.
pub open spec fn close_stub(s: CState, pos: int) -> Step {
    match update_stub(s, pos) {
        None => None,
        Some(s1) => Some((s1, Ok(None))),
    }
}

/// Where the parameter `name` of the function being compiled lies (offset
/// from the first parameter, type), if it is one. The outer `None` stands
/// where summing the parameter sizes overflows.
pub open spec fn arg_lookup(s: CState, name: Seq<char>) -> Option<Option<(u32, Type)>> {
    if s.cur_fn.len() == 0 {
        Some(None)
    } else {
        match lookup(s.funcs, s.cur_fn.last()@) {
            None => Some(None),
            Some((_, params)) => {
                let i = first_named(params, name);
                if i < params.len() {
                    if param_bytes(params.take(i as int)) > u32::MAX {
                        None
                    } else {
                        Some(Some((param_bytes(params.take(i as int)) as u32, params[i as int].1)))
                    }
                } else if param_bytes(params) > u32::MAX {
                    None
                } else {
                    Some(None)
                }
            },
        }
    }
}

/// The type of the name in scope: a local variable, else a parameter, else
/// a global. The outer `None` stands where looking up the parameters panics.
pub open spec fn type_lookup(s: CState, name: Seq<char>) -> Option<Option<Type>> {
    match arg_lookup(s, name) {
        None => None,
        Some(fa) => Some(
            match (find_in(s.vars, name), fa) {
                (Some((_, t)), _) => Some(t),
                (None, Some((_, t))) => Some(t),
                (None, None) => lookup(s.symbols, name),
            },
        ),
    }
}

/// Opens a scope; `None` where the depth overflows.
pub open spec fn start_scope(s: CState) -> Option<CState> {
    if s.scope == u32::MAX {
        None
    } else {
        Some(CState { scope: (s.scope + 1) as u32, ..s })
    }
}

/// Closes a scope: drops its variables and emits the matching `Shrink`.
pub open spec fn end_scope(s: CState) -> Option<CState> {
    let k = kept_len(s.vars, s.scope);
    let sz = sizes(s.vars) - sizes(s.vars.take(k as int));
    if s.scope == 0 {
        None
    } else {
        Some(
            CState {
                vars: s.vars.take(k as int),
                scope: (s.scope - 1) as u32,
                ir: s.ir.push(IR::Shrink(sz as u32)),
                ..s
            },
        )
    }
}

/// The end of a binary operation whose operands have the types `ta`, `tb`.
pub open spec fn bin_finish(s: CState, ta: Option<Type>, tb: Option<Type>, op: IR, t: Type) -> Step {
    if ta == Some(Type::INT) && tb == Some(Type::INT) {
        Some((s.emit(op), Ok(Some(t))))
    } else {
        Some((s, Err(CompilationError::IncompatibleTypes)))
    }
}

/// The end of a variable read: the type of the name in scope.
pub open spec fn get_finish(s: CState, name: String) -> Step {
    match type_lookup(s, name@) {
        None => None,
        Some(Some(t)) => Some((s, Ok(Some(t)))),
        Some(None) => Some((s, Err(CompilationError::VariableNotDeclared(name)))),
    }
}

/// The end of an assignment of a value of type `et` to `name`.
pub open spec fn assign_finish(s: CState, name: String, et: Option<Type>) -> Step {
    match type_lookup(s, name@) {
        None => None,
        Some(ft) => Some(
            (
                s,
                match (ft, et) {
                    (Some(a), Some(b)) => if a == b {
                        Ok(Some(a))
                    } else {
                        Err(CompilationError::IncompatibleTypes)
                    },
                    (None, _) => Err(CompilationError::VariableNotDeclared(name)),
                    (Some(_), None) => Err(CompilationError::IncompatibleTypes),
                },
            ),
        ),
    }
}

/// Compiling the nodes of `v` in order, stopping at the first error.
pub open spec fn comp_seq(s: CState, v: Seq<AST>) -> Step
    decreases v,
{
    if v.len() == 0 {
        Some((s, Ok(None)))
    } else {
        match comp(s, v[0]) {
            Some((s1, Ok(_))) => comp_seq(s1, v.drop_first()),
            r => r,
        }
    }
}

/// Compiling the nodes of `v` from the last to the first, stopping at the
/// first error.
pub open spec fn comp_rev(s: CState, v: Seq<AST>) -> Step
    decreases v,
{
    if v.len() == 0 {
        Some((s, Ok(None)))
    } else {
        match comp(s, v.last()) {
            Some((s1, Ok(_))) => comp_rev(s1, v.drop_last()),
            r => r,
        }
    }
}

/// The names after removing the last one, if any.
pub open spec fn pop_name(s: Seq<String>) -> Seq<String> {
    if s.len() == 0 {
        s
    } else {
        s.drop_last()
    }
}

/// The code generation scheme: compiling `ast` from the state `s`.
pub open spec fn comp(s: CState, ast: AST) -> Step
    decreases ast,
{
    match ast {
        AST::Bool(v) => Some((s.emit(IR::PUSH(if v { 1 } else { 0 })), Ok(Some(Type::BOOL)))),
        AST::Number(x) => Some((s.emit(IR::PUSH(x)), Ok(Some(Type::INT)))),
        AST::Add(a, b) => match comp(s, *a) {
            Some((s1, Ok(ta))) => match comp(s1, *b) {
                Some((s2, Ok(tb))) => bin_finish(s2, ta, tb, IR::ADD, Type::INT),
                r => r,
            },
            r => r,
        },
        AST::Sub(a, b) => match comp(s, *a) {
            Some((s1, Ok(ta))) => match comp(s1, *b) {
                Some((s2, Ok(tb))) => bin_finish(s2, ta, tb, IR::SUB, Type::INT),
                r => r,
            },
            r => r,
        },
        AST::Mul(a, b) => match comp(s, *a) {
            Some((s1, Ok(ta))) => match comp(s1, *b) {
                Some((s2, Ok(tb))) => bin_finish(s2, ta, tb, IR::MUL, Type::INT),
                r => r,
            },
            r => r,
        },
        AST::Div(a, b) => match comp(s, *a) {
            Some((s1, Ok(ta))) => match comp(s1, *b) {
                Some((s2, Ok(tb))) => bin_finish(s2, ta, tb, IR::DIV, Type::INT),
                r => r,
            },
            r => r,
        },
        AST::Lesser(a, b) => match comp(s, *a) {
            Some((s1, Ok(ta))) => match comp(s1, *b) {
                Some((s2, Ok(tb))) => bin_finish(s2, ta, tb, IR::LESS, Type::BOOL),
                r => r,
            },
            r => r,
        },
        AST::Many(v) => comp_seq(s, v@),
        AST::GetVar(name) => match find_in(s.vars, name@) {
            Some((off, t)) => get_finish(s.emit(IR::GetLocal(off, t.spec_size())), name),
            None => match arg_lookup(s, name@) {
                None => None,
                Some(Some((off, t))) => get_finish(s.emit(IR::GetArg(off, t.spec_size())), name),
                Some(None) => get_finish(s.emit(IR::GetGlobal(name)), name),
            },
        },
        AST::AssignVar(name, e) => match comp(s, *e) {
            Some((s1, Ok(et))) => match find_in(s1.vars, name@) {
                Some((off, t)) => assign_finish(s1.emit(IR::SetLocal(off, t.spec_size())), name, et),
                None => assign_finish(s1.emit(IR::SetGlobal(name)), name, et),
            },
            r => r,
        },
        AST::DeclareVar(name, t) => if s.scope > 0 {
            if sizes(s.vars) + t.spec_size() > u32::MAX {
                None
            } else {
                Some(
                    (
                        CState { vars: s.vars.push((name, s.scope, t)), ..s }.emit(IR::Grow(t.spec_size())),
                        Ok(None),
                    ),
                )
            }
        } else {
            Some((CState { symbols: store(s.symbols, name, t), ..s }, Ok(None)))
        },
        AST::Block(v) => match start_scope(s) {
            None => None,
            Some(s1) => match comp_seq(s1, v@) {
                Some((s2, Ok(_))) => match end_scope(s2) {
                    None => None,
                    Some(s3) => Some((s3, Ok(None))),
                },
                r => r,
            },
        },
        AST::If(c, blk, els) => match comp(s, *c) {
            Some((s1, Ok(tc))) => if tc != Some(Type::BOOL) {
                Some((s1, Err(CompilationError::IncompatibleTypes)))
            } else {
                let s2 = s1.emit(IR::POP);
                let p_else = s2.ir.len() as int;
                match comp(s2.emit(IR::JmpIfFalse(0)), *blk) {
                    Some((s3, Ok(_))) => {
                        let p_end = s3.ir.len() as int;
                        match update_stub(s3.emit(IR::Jmp(0)), p_else) {
                            None => None,
                            Some(s4) => match els {
                                Some(eb) => match comp(s4, *eb) {
                                    Some((s5, Ok(_))) => close_stub(s5, p_end),
                                    r => r,
                                },
                                None => close_stub(s4, p_end),
                            },
                        }
                    },
                    r => r,
                }
            },
            r => r,
        },
        AST::BoolAnd(first, rest) => match comp(s, *first) {
            Some((s1, Ok(_))) => match comp(s1, *first) {
                Some((s2, Ok(tf))) => if tf != Some(Type::BOOL) {
                    Some((s2, Err(CompilationError::IncompatibleTypes)))
                } else {
                    let p = s2.ir.len() as int;
                    match comp(s2.emit(IR::JmpIfFalse(0)), *rest) {
                        Some((s3, Ok(tr))) => if tr != Some(Type::BOOL) {
                            Some((s3, Err(CompilationError::IncompatibleTypes)))
                        } else {
                            match update_stub(s3.emit(IR::AND), p) {
                                None => None,
                                Some(s4) => Some((s4, Ok(Some(Type::BOOL)))),
                            }
                        },
                        r => r,
                    }
                },
                r => r,
            },
            r => r,
        },
        AST::BoolOr(first, rest) => match comp(s, *first) {
            Some((s1, Ok(tf))) => if tf != Some(Type::BOOL) {
                Some((s1, Err(CompilationError::IncompatibleTypes)))
            } else {
                let p = s1.ir.len() as int;
                match comp(s1.emit(IR::JmpIfTrue(0)), *rest) {
                    Some((s2, Ok(tr))) => if tr != Some(Type::BOOL) {
                        Some((s2, Err(CompilationError::IncompatibleTypes)))
                    } else {
                        match update_stub(s2.emit(IR::OR), p) {
                            None => None,
                            Some(s3) => Some((s3, Ok(Some(Type::BOOL)))),
                        }
                    },
                    r => r,
                }
            },
            r => r,
        },
        AST::While(cond, blk) => match emit_label(s) {
            None => None,
            Some((s1, start)) => match comp(s1, *cond) {
                Some((s2, Ok(tc))) => if tc != Some(Type::BOOL) {
                    Some((s2, Err(CompilationError::IncompatibleTypes)))
                } else {
                    let p = s2.ir.len() as int;
                    match comp(s2.emit(IR::JmpIfFalse(0)), *blk) {
                        Some((s3, Ok(_))) => close_stub(s3.emit(IR::Jmp(start)), p),
                        r => r,
                    }
                },
                r => r,
            },
        },
        AST::FunDecl(t, name, params, body) => {
            let s1 = CState {
                funcs: store(s.funcs, name, (t, params@)),
                cur_fn: s.cur_fn.push(name),
                ..s
            }.emit(IR::FnName(name)).emit(IR::ResetStack);
            match *body {
                AST::Block(v) => match start_scope(s1) {
                    None => None,
                    Some(s2) => match comp_seq(s2, v@) {
                        Some((s3, Ok(_))) => match end_scope(s3.emit(IR::POP)) {
                            None => None,
                            Some(s4) => {
                                let s5 = s4.emit(IR::RestoreStack);
                                let s6 = if name@ != "main"@ {
                                    s5.emit(IR::RET)
                                } else {
                                    s5
                                };
                                Some((CState { cur_fn: pop_name(s6.cur_fn), ..s6 }, Ok(None)))
                            },
                        },
                        r => r,
                    },
                },
                _ => None,
            }
        },
        AST::FunCall(name, args) => if 2 * args@.len() > usize::MAX {
            None
        } else {
            match comp_rev(s, args@) {
                Some((s1, Ok(_))) => {
                    let s2 = if name@ != "print"@ {
                        s1.emit(IR::Call(name))
                    } else {
                        s1.emit(IR::Print64)
                    };
                    let s3 = s2.emit(IR::Shrink((2 * args@.len()) as u32)).emit(IR::PushAX);
                    if name@ != "print"@ {
                        match lookup(s3.funcs, name@) {
                            None => None,
                            Some((rt, _)) => Some((s3, Ok(Some(rt)))),
                        }
                    } else {
                        Some((s3, Ok(None)))
                    }
                },
                r => r,
            }
        },
    }
}

} // verus!

verus! {

/// The compiler: the symbols, the variables on the stack, and the
/// instructions emitted so far.
pub struct Compiler {
    symbols: NameMap<Type>,
    stack: Stack,
    ir: Vec<IR>,
    labels: u32,
    funcs: FuncTable,
    cur_fn: Vec<String>,
}

impl View for Compiler {
    type V = CState;

    closed spec fn view(&self) -> CState {
        CState {
            symbols: self.symbols@,
            vars: self.stack.vars(),
            scope: self.stack.spec_scope(),
            ir: self.ir@,
            labels: self.labels,
            funcs: self.funcs@,
            cur_fn: self.cur_fn@,
        }
    }
}

impl Compiler {
    /// Well-formedness of the tables.
    pub closed spec fn wf(&self) -> bool {
        &&& self.symbols.wf()
        &&& self.funcs.wf()
        &&& self.stack.wf()
    }

    /// A compiler with nothing compiled yet.
    pub fn new() -> (c: Compiler)
        ensures
            c.wf(),
            c@ == initial_state(),
    {
        let c = Compiler {
            symbols: NameMap::new(),
            stack: Stack::new(),
            ir: Vec::new(),
            labels: 0,
            funcs: FuncTable::new(),
            cur_fn: Vec::new(),
        };
        proof {
            assert(c@.ir =~= Seq::<IR>::empty());
            assert(c@.cur_fn =~= Seq::<String>::empty());
        }
        c
    }

    /// The instructions emitted so far.
    pub fn ir(&self) -> (r: &Vec<IR>)
        ensures
            r@ == self@.ir,
    {
        &self.ir
    }

    /// The global variables declared so far.
    pub fn symbols(&self) -> (r: &NameMap<Type>)
        ensures
            r@ == self@.symbols,
            self.wf() ==> r.wf(),
    {
        &self.symbols
    }

    /// The declared functions.
    pub fn funcs(&self) -> (r: &FuncTable)
        ensures
            r@ == self@.funcs,
    {
        &self.funcs
    }

    pub fn emit(&mut self, op: IR)
        requires
            old(self).wf(),
        ensures
            final(self).wf(),
            final(self)@ == old(self)@.emit(op),
    {
        self.ir.push(op);
    }

    /// Emits a new label and returns its number.
    pub fn emit_label(&mut self) -> (id: u32)
        requires
            old(self).wf(),
            emit_label(old(self)@) is Some,
        ensures
            final(self).wf(),
            emit_label(old(self)@) == Some((final(self)@, id)),
            final(self)@.ir.len() == old(self)@.ir.len() + 1,
    {
        self.emit(IR::Label(self.labels));
        self.labels = self.labels + 1;
        self.labels - 1
    }

    /// Emits a label and points the jump placeholder at `pos` to it.
    pub fn update_stub(&mut self, pos: usize)
        requires
            old(self).wf(),
            pos < old(self)@.ir.len(),
            update_stub(old(self)@, pos as int) is Some,
        ensures
            final(self).wf(),
            update_stub(old(self)@, pos as int) == Some(final(self)@),
            final(self)@.ir.len() == old(self)@.ir.len() + 1,
    {
        let value = self.emit_label();
        let n = match &self.ir[pos] {
            IR::Jmp(_) => IR::Jmp(value),
            IR::JmpIfFalse(_) => IR::JmpIfFalse(value),
            IR::JmpIfTrue(_) => IR::JmpIfTrue(value),
            _ => {
                proof {
                    assert(false);
                }
                IR::RET
            },
        };
        self.ir.set(pos, n);
    }

    /// Emits a jump placeholder and returns its position.
    pub fn emit_stub(&mut self, instr: IR) -> (pos: usize)
        requires
            old(self).wf(),
        ensures
            final(self).wf(),
            final(self)@ == old(self)@.emit(instr),
            pos == old(self)@.ir.len(),
    {
        self.emit(instr);
        self.ir.len() - 1
    }

    /// The number the next label will get.
    pub fn next_label(&self) -> (r: u32)
        ensures
            r == self@.labels,
    {
        self.labels
    }

    /// The number of the last label emitted.
    pub fn last_label(&self) -> (r: u32)
        requires
            self@.labels > 0,
        ensures
            r == self@.labels - 1,
    {
        self.labels - 1
    }

    /// The type of `name` in scope: local, else parameter, else global.
    pub fn find_type(&self, name: &String) -> (r: Option<Type>)
        requires
            self.wf(),
            type_lookup(self@, name@) is Some,
        ensures
            type_lookup(self@, name@) == Some(r),
    {
        match (self.stack.find(name), self.find_arg(name)) {
            (Some((_, t)), _) => Some(t),
            (_, Some((_, t))) => Some(t),
            (None, None) => match self.symbols.get(name) {
                Some(v) => Some(*v),
                None => None,
            },
        }
    }

    /// The offset and type of the parameter `name` of the function being
    /// compiled.
    pub fn find_arg(&self, name: &String) -> (r: Option<(u32, Type)>)
        requires
            self.wf(),
            arg_lookup(self@, name@) is Some,
        ensures
            arg_lookup(self@, name@) == Some(r),
    {
        let mut off: u32 = 0;
        let n = self.cur_fn.len();
        if n > 0 {
            match self.funcs.get(&self.cur_fn[n - 1]) {
                None => None,
                Some((rt, args)) => {
                    let ghost p = args@;
                    assert(self@.cur_fn.last() == self.cur_fn@[n - 1]);
                    assert(lookup(self@.funcs, self@.cur_fn.last()@) == Some((rt, p)));
                    let ghost f = first_named(p, name@);
                    proof {
                        lemma_first_named(p, name@);
                        assert(p.take(0) =~= Seq::<(String, Type)>::empty());
                    }
                    let mut i: usize = 0;
                    while i < args.len()
                        invariant
                            p == args@,
                            n == self@.cur_fn.len(),
                            n > 0,
                            lookup(self@.funcs, self@.cur_fn.last()@) == Some((rt, p)),
                            f == first_named(p, name@),
                            f <= p.len(),
                            f < p.len() ==> p[f as int].0@ == name@ && param_bytes(p.take(f as int)) <= u32::MAX,
                            f == p.len() ==> param_bytes(p) <= u32::MAX,
                            forall|j: int| 0 <= j < f ==> p[j].0@ != name@,
                            i <= f,
                            off == param_bytes(p.take(i as int)),
                        decreases p.len() - i,
                    {
                        if args[i].0 == *name {
                            proof {
                                assert(p[i as int].0@ == name@);
                                assert(i == f);
                                assert(off == param_bytes(p.take(f as int)) as u32);
                            }
                            return Some((off, args[i].1));
                        }
                        proof {
                            assert(p.take(i + 1).drop_last() =~= p.take(i as int));
                            if f < p.len() {
                                assert(p.take(f as int).take(i + 1) =~= p.take(i + 1));
                                lemma_param_bytes_prefix(p.take(f as int), i + 1);
                            } else {
                                lemma_param_bytes_prefix(p, i + 1);
                            }
                        }
                        let o: u32 = args[i].1.size();
                        off = off + o;
                        i = i + 1;
                    }
                    None
                },
            }
        } else {
            None
        }
    }

    /// Opens a scope for variables.
    pub fn start_scope(&mut self)
        requires
            old(self).wf(),
            start_scope(old(self)@) is Some,
        ensures
            final(self).wf(),
            start_scope(old(self)@) == Some(final(self)@),
    {
        let s = self.stack.scope();
        self.stack.set_scope(s + 1);
    }

    /// Closes a scope: removes its variables and emits the `Shrink` that
    /// frees their bytes.
    pub fn end_scope(&mut self)
        requires
            old(self).wf(),
            end_scope(old(self)@) is Some,
        ensures
            final(self).wf(),
            end_scope(old(self)@) == Some(final(self)@),
            final(self)@.ir.len() == old(self)@.ir.len() + 1,
    {
        let sz = self.stack.pop();
        self.emit(IR::Shrink(sz));
        let s = self.stack.scope();
        self.stack.set_scope(s - 1);
    }
}

} // verus!

verus! {

/// Whether `name` is the given word.
fn is_named(name: &String, word: &str) -> (r: bool)
    ensures
        r == (name@ == word@),
{
    String::from_str(word) == *name
}

impl Compiler {
    /// Compiles `ast`, appending its code to the instructions, and returns
    /// its type (`None` for a statement without a value).
    pub fn ast_to_ir(&mut self, ast: &AST) -> (r: TypeResult)
        requires
            old(self).wf(),
            comp(old(self)@, *ast) is Some,
        ensures
            final(self).wf(),
            comp(old(self)@, *ast) == Some((final(self)@, r)),
            old(self)@.ir.len() <= final(self)@.ir.len(),
        decreases ast, 2int,
    {
        match ast {
            AST::Bool(v) => {
                let x: i32 = if *v {
                    1
                } else {
                    0
                };
                self.emit(IR::PUSH(x));
                Ok(Some(Type::BOOL))
            },
            AST::Number(x) => {
                self.emit(IR::PUSH(*x));
                Ok(Some(Type::INT))
            },
            AST::Add(_, _) => self.compile_binary(ast),
            AST::Sub(_, _) => self.compile_binary(ast),
            AST::Mul(_, _) => self.compile_binary(ast),
            AST::Div(_, _) => self.compile_binary(ast),
            AST::Lesser(_, _) => self.compile_binary(ast),
            AST::Many(v) => {
                assert(decreases_to!(*ast => ast->Many_0));
                self.compile_seq(ast, v)
            },
            AST::GetVar(name) => self.compile_get(name),
            AST::AssignVar(_, _) => self.compile_assign(ast),
            AST::DeclareVar(name, typ) => self.compile_declare(name, *typ),
            AST::Block(v) => {
                self.start_scope();
                assert(decreases_to!(*ast => ast->Block_0));
                self.compile_seq(ast, v)?;
                self.end_scope();
                Ok(None)
            },
            AST::If(_, _, _) => self.compile_if(ast),
            AST::BoolAnd(_, _) => self.compile_and(ast),
            AST::BoolOr(_, _) => self.compile_or(ast),
            AST::While(_, _) => self.compile_while(ast),
            AST::FunDecl(_, _, _, _) => self.compile_fun_decl(ast),
            AST::FunCall(_, _) => self.compile_fun_call(ast),
        }
    }

    /// Compiles the statements `v` of `ast` in order.
    fn compile_seq(&mut self, ast: &AST, v: &Vec<AST>) -> (r: TypeResult)
        requires
            old(self).wf(),
            comp_seq(old(self)@, v@) is Some,
            decreases_to!(*ast => *v),
        ensures
            final(self).wf(),
            comp_seq(old(self)@, v@) == Some((final(self)@, r)),
            old(self)@.ir.len() <= final(self)@.ir.len(),
        decreases ast, 0int,
    {
        let ghost s0 = self@;
        proof {
            assert(v@.subrange(0, v@.len() as int) =~= v@);
        }
        let mut i: usize = 0;
        while i < v.len()
            invariant
                i <= v@.len(),
                self.wf(),
                decreases_to!(*ast => *v),
                s0 == old(self)@,
                comp_seq(s0, v@) == comp_seq(self@, v@.subrange(i as int, v@.len() as int)),
                comp_seq(self@, v@.subrange(i as int, v@.len() as int)) is Some,
                s0.ir.len() <= self@.ir.len(),
            decreases v@.len() - i,
        {
            let ghost rest = v@.subrange(i as int, v@.len() as int);
            assert(rest[0] == v@[i as int]);
            assert(rest.drop_first() =~= v@.subrange(i + 1, v@.len() as int));
            assert(decreases_to!(*v => v[i as int]));
            self.ast_to_ir(&v[i])?;
            i = i + 1;
        }
        assert(v@.subrange(i as int, v@.len() as int) =~= Seq::<AST>::empty());
        Ok(None)
    }

    /// Compiles the expressions `v` of `ast` from the last to the first.
    fn compile_rev(&mut self, ast: &AST, v: &Vec<AST>) -> (r: TypeResult)
        requires
            old(self).wf(),
            comp_rev(old(self)@, v@) is Some,
            decreases_to!(*ast => *v),
        ensures
            final(self).wf(),
            comp_rev(old(self)@, v@) == Some((final(self)@, r)),
            old(self)@.ir.len() <= final(self)@.ir.len(),
        decreases ast, 0int,
    {
        let ghost s0 = self@;
        proof {
            assert(v@.take(v@.len() as int) =~= v@);
        }
        let mut i: usize = v.len();
        while i > 0
            invariant
                i <= v@.len(),
                self.wf(),
                decreases_to!(*ast => *v),
                s0 == old(self)@,
                comp_rev(s0, v@) == comp_rev(self@, v@.take(i as int)),
                comp_rev(self@, v@.take(i as int)) is Some,
                s0.ir.len() <= self@.ir.len(),
            decreases i,
        {
            let ghost front = v@.take(i as int);
            assert(front.last() == v@[i - 1]);
            assert(front.drop_last() =~= v@.take(i - 1));
            assert(decreases_to!(*v => v[i - 1]));
            let ghost before = self@;
            assert(comp_rev(before, front) == match comp(before, v@[i - 1]) {
                Some((s1, Ok(_))) => comp_rev(s1, v@.take(i - 1)),
                r => r,
            });
            self.ast_to_ir(&v[i - 1])?;
            i = i - 1;
        }
        assert(v@.take(0) =~= Seq::<AST>::empty());
        Ok(None)
    }

    /// Compiles a binary operation.
    fn compile_binary(&mut self, ast: &AST) -> (r: TypeResult)
        requires
            old(self).wf(),
            comp(old(self)@, *ast) is Some,
            ast is Add || ast is Sub || ast is Mul || ast is Div || ast is Lesser,
        ensures
            final(self).wf(),
            comp(old(self)@, *ast) == Some((final(self)@, r)),
            old(self)@.ir.len() <= final(self)@.ir.len(),
        decreases ast, 1int,
    {
        let (a, b, op, t) = match ast {
            AST::Add(a, b) => (a, b, IR::ADD, Type::INT),
            AST::Sub(a, b) => (a, b, IR::SUB, Type::INT),
            AST::Mul(a, b) => (a, b, IR::MUL, Type::INT),
            AST::Div(a, b) => (a, b, IR::DIV, Type::INT),
            AST::Lesser(a, b) => (a, b, IR::LESS, Type::BOOL),
            _ => {
                proof {
                    assert(false);
                }
                return Err(CompilationError::IncompatibleTypes);
            },
        };
        let ghost s0 = self@;
        let ta = self.ast_to_ir(a)?;
        let ghost s1 = self@;
        let tb = self.ast_to_ir(b)?;
        let ghost s2 = self@;
        assert(comp(s0, *ast) == bin_finish(s2, ta, tb, op, t));
        match (ta, tb) {
            (Some(Type::INT), Some(Type::INT)) => {
                self.emit(op);
                Ok(Some(t))
            },
            _ => Err(CompilationError::IncompatibleTypes),
        }
    }

    /// Compiles a read of a variable.
    fn compile_get(&mut self, name: &String) -> (r: TypeResult)
        requires
            old(self).wf(),
            comp(old(self)@, AST::GetVar(*name)) is Some,
        ensures
            final(self).wf(),
            comp(old(self)@, AST::GetVar(*name)) == Some((final(self)@, r)),
            old(self)@.ir.len() <= final(self)@.ir.len(),
    {
        match self.stack.find(name) {
            Some((off, t)) => self.emit(IR::GetLocal(off, t.size())),
            None => match self.find_arg(name) {
                Some((off, t)) => self.emit(IR::GetArg(off, t.size())),
                None => self.emit(IR::GetGlobal(name.clone())),
            },
        }
        match self.find_type(name) {
            Some(t) => Ok(Some(t)),
            None => Err(CompilationError::VariableNotDeclared(name.clone())),
        }
    }

    /// Compiles an assignment.
    fn compile_assign(&mut self, ast: &AST) -> (r: TypeResult)
        requires
            old(self).wf(),
            comp(old(self)@, *ast) is Some,
            ast is AssignVar,
        ensures
            final(self).wf(),
            comp(old(self)@, *ast) == Some((final(self)@, r)),
            old(self)@.ir.len() <= final(self)@.ir.len(),
        decreases ast, 1int,
    {
        let (name, e) = match ast {
            AST::AssignVar(name, e) => (name, e),
            _ => {
                proof {
                    assert(false);
                }
                return Err(CompilationError::IncompatibleTypes);
            },
        };
        let e_type = self.ast_to_ir(e)?;
        match self.stack.find(name) {
            Some((off, t)) => self.emit(IR::SetLocal(off, t.size())),
            None => self.emit(IR::SetGlobal(name.clone())),
        }
        match (self.find_type(name), e_type) {
            (Some(a), Some(b)) => {
                if a == b {
                    Ok(Some(a))
                } else {
                    Err(CompilationError::IncompatibleTypes)
                }
            },
            (None, _) => Err(CompilationError::VariableNotDeclared(name.clone())),
            (Some(_), None) => Err(CompilationError::IncompatibleTypes),
        }
    }

    /// Compiles a declaration: a global at the top level, else a variable
    /// on the stack.
    fn compile_declare(&mut self, name: &String, typ: Type) -> (r: TypeResult)
        requires
            old(self).wf(),
            comp(old(self)@, AST::DeclareVar(*name, typ)) is Some,
        ensures
            final(self).wf(),
            comp(old(self)@, AST::DeclareVar(*name, typ)) == Some((final(self)@, r)),
            old(self)@.ir.len() <= final(self)@.ir.len(),
    {
        if self.stack.scope() > 0 {
            self.stack.push(name.clone(), typ);
            let sz = typ.size();
            self.emit(IR::Grow(sz));
        } else {
            self.symbols.insert(name.clone(), typ);
        }
        Ok(None)
    }
}

impl Compiler {
    /// Compiles `if (cond) block [else block]`: the condition's value is
    /// popped into the accumulator, a placeholder jump skips the `if` body,
    /// the body ends with a placeholder jump over the `else` body, and each
    /// placeholder is then pointed at a label emitted where it should land.
    fn compile_if(&mut self, ast: &AST) -> (r: TypeResult)
        requires
            old(self).wf(),
            comp(old(self)@, *ast) is Some,
            ast is If,
        ensures
            final(self).wf(),
            comp(old(self)@, *ast) == Some((final(self)@, r)),
            old(self)@.ir.len() <= final(self)@.ir.len(),
        decreases ast, 1int,
    {
        let (condition, block, else_block) = match ast {
            AST::If(c, b, e) => (c, b, e),
            _ => {
                proof {
                    assert(false);
                }
                return Err(CompilationError::IncompatibleTypes);
            },
        };
        let tc = self.ast_to_ir(condition)?;
        match tc {
            Some(Type::BOOL) => {},
            _ => {
                return Err(CompilationError::IncompatibleTypes);
            },
        }
        self.emit(IR::POP);
        let jmp_to_else = self.emit_stub(IR::JmpIfFalse(0));
        self.ast_to_ir(block)?;
        let jmp_to_end = self.emit_stub(IR::Jmp(0));
        self.update_stub(jmp_to_else);
        match else_block {
            Some(b) => {
                assert(decreases_to!(*ast => ast->If_2));
                assert(decreases_to!(ast->If_2 => ast->If_2->0));
                self.ast_to_ir(b)?;
            },
            None => {},
        }
        self.update_stub(jmp_to_end);
        Ok(None)
    }

    /// Compiles `first && rest`; if `first` is false the jump skips `rest`.
    fn compile_and(&mut self, ast: &AST) -> (r: TypeResult)
        requires
            old(self).wf(),
            comp(old(self)@, *ast) is Some,
            ast is BoolAnd,
        ensures
            final(self).wf(),
            comp(old(self)@, *ast) == Some((final(self)@, r)),
            old(self)@.ir.len() <= final(self)@.ir.len(),
        decreases ast, 1int,
    {
        let (first, rest) = match ast {
            AST::BoolAnd(f, r) => (f, r),
            _ => {
                proof {
                    assert(false);
                }
                return Err(CompilationError::IncompatibleTypes);
            },
        };
        let _t = self.ast_to_ir(first)?;
        let tf = self.ast_to_ir(first)?;
        match tf {
            Some(Type::BOOL) => {},
            _ => {
                return Err(CompilationError::IncompatibleTypes);
            },
        }
        // Short circuiting: if the first expression is false, so is the whole.
        let jmp_to_end = self.emit_stub(IR::JmpIfFalse(0));
        let tr = self.ast_to_ir(rest)?;
        match tr {
            Some(Type::BOOL) => {},
            _ => {
                return Err(CompilationError::IncompatibleTypes);
            },
        }
        self.emit(IR::AND);
        self.update_stub(jmp_to_end);
        Ok(Some(Type::BOOL))
    }

    /// Compiles `first || rest`; if `first` is true the jump skips `rest`.
    fn compile_or(&mut self, ast: &AST) -> (r: TypeResult)
        requires
            old(self).wf(),
            comp(old(self)@, *ast) is Some,
            ast is BoolOr,
        ensures
            final(self).wf(),
            comp(old(self)@, *ast) == Some((final(self)@, r)),
            old(self)@.ir.len() <= final(self)@.ir.len(),
        decreases ast, 1int,
    {
        let (first, rest) = match ast {
            AST::BoolOr(f, r) => (f, r),
            _ => {
                proof {
                    assert(false);
                }
                return Err(CompilationError::IncompatibleTypes);
            },
        };
        let tf = self.ast_to_ir(first)?;
        match tf {
            Some(Type::BOOL) => {},
            _ => {
                return Err(CompilationError::IncompatibleTypes);
            },
        }
        // Short circuiting: if the first expression is true, so is the whole.
        let jmp_to_end = self.emit_stub(IR::JmpIfTrue(0));
        let tr = self.ast_to_ir(rest)?;
        match tr {
            Some(Type::BOOL) => {},
            _ => {
                return Err(CompilationError::IncompatibleTypes);
            },
        }
        self.emit(IR::OR);
        self.update_stub(jmp_to_end);
        Ok(Some(Type::BOOL))
    }

    /// Compiles `while (cond) block`: a label before the condition, a
    /// placeholder jump out of the loop, the body, and a jump back.
    fn compile_while(&mut self, ast: &AST) -> (r: TypeResult)
        requires
            old(self).wf(),
            comp(old(self)@, *ast) is Some,
            ast is While,
        ensures
            final(self).wf(),
            comp(old(self)@, *ast) == Some((final(self)@, r)),
            old(self)@.ir.len() <= final(self)@.ir.len(),
        decreases ast, 1int,
    {
        let (cond, block) = match ast {
            AST::While(c, b) => (c, b),
            _ => {
                proof {
                    assert(false);
                }
                return Err(CompilationError::IncompatibleTypes);
            },
        };
        let start = self.emit_label();
        let tc = self.ast_to_ir(cond)?;
        match tc {
            Some(Type::BOOL) => {},
            _ => {
                return Err(CompilationError::IncompatibleTypes);
            },
        }
        let end = self.emit_stub(IR::JmpIfFalse(0));
        self.ast_to_ir(block)?;
        self.emit(IR::Jmp(start));
        self.update_stub(end);
        Ok(None)
    }

    /// Compiles a function declaration: its signature is recorded, its
    /// label and frame set-up are emitted, then its body in a new scope; the
    /// value of the body's last expression is popped into the accumulator,
    /// which carries the result back to the caller.
    fn compile_fun_decl(&mut self, ast: &AST) -> (r: TypeResult)
        requires
            old(self).wf(),
            comp(old(self)@, *ast) is Some,
            ast is FunDecl,
        ensures
            final(self).wf(),
            comp(old(self)@, *ast) == Some((final(self)@, r)),
            old(self)@.ir.len() <= final(self)@.ir.len(),
        decreases ast, 1int,
    {
        let (t, name, params, body) = match ast {
            AST::FunDecl(t, n, p, b) => (*t, n, p, b),
            _ => {
                proof {
                    assert(false);
                }
                return Err(CompilationError::IncompatibleTypes);
            },
        };
        let ghost s0 = self@;
        self.funcs.insert(name.clone(), t, copy_params(params));
        self.cur_fn.push(name.clone());
        self.emit(IR::FnName(name.clone()));
        self.emit(IR::ResetStack);
        match &**body {
            AST::Block(v) => {
                self.start_scope();
                assert(decreases_to!(*ast => ast->FunDecl_3));
                assert(decreases_to!(ast->FunDecl_3 => (ast->FunDecl_3)->Block_0));
                self.compile_seq(ast, v)?;
                // The result of the last expression is left in the accumulator.
                self.emit(IR::POP);
                self.end_scope();
            },
            _ => {
                proof {
                    assert(false);
                }
                return Err(CompilationError::IncompatibleTypes);
            },
        }
        self.emit(IR::RestoreStack);
        if !is_named(name, "main") {
            self.emit(IR::RET);
        }
        self.cur_fn.pop();
        Ok(None)
    }

    /// Compiles a call: the arguments are pushed last to first, then the
    /// call (or the builtin `print`), then the arguments are dropped and the
    /// result in the accumulator is pushed.
    fn compile_fun_call(&mut self, ast: &AST) -> (r: TypeResult)
        requires
            old(self).wf(),
            comp(old(self)@, *ast) is Some,
            ast is FunCall,
        ensures
            final(self).wf(),
            comp(old(self)@, *ast) == Some((final(self)@, r)),
            old(self)@.ir.len() <= final(self)@.ir.len(),
        decreases ast, 1int,
    {
        let (name, args) = match ast {
            AST::FunCall(n, a) => (n, a),
            _ => {
                proof {
                    assert(false);
                }
                return Err(CompilationError::IncompatibleTypes);
            },
        };
        let to_shrink = args.len() * 2;
        assert(decreases_to!(*ast => ast->FunCall_1));
        self.compile_rev(ast, args)?;
        let builtin = is_named(name, "print");
        if !builtin {
            self.emit(IR::Call(name.clone()));
        } else {
            self.emit(IR::Print64);
        }
        self.emit(IR::Shrink(to_shrink as u32));
        self.emit(IR::PushAX);
        if !builtin {
            match self.funcs.get(name) {
                Some((t, _)) => Ok(Some(t)),
                None => {
                    proof {
                        assert(false);
                    }
                    Err(CompilationError::IncompatibleTypes)
                },
            }
        } else {
            Ok(None)
        }
    }
}

} // verus!

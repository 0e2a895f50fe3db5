use vstd::prelude::*;

use crate::ast::{Type, AST};
use crate::compiler::{comp, comp_rev, comp_seq, emit_label, end_scope, start_scope, update_stub, CState, IR};

verus! {

#[verifier::opaque]
/// `s2` has all the code of `s1` unchanged at its start, and has used at
/// least as many labels.
pub open spec fn grows(s1: CState, s2: CState) -> bool {
    &&& s1.ir.len() <= s2.ir.len()
    &&& s2.ir.take(s1.ir.len() as int) == s1.ir
    &&& s1.labels <= s2.labels
}

/// A state grows into itself.
proof fn lemma_grows_refl(s: CState)
    ensures
        grows(s, s),
{
    reveal(grows);
    assert(s.ir.take(s.ir.len() as int) =~= s.ir);
}

/// Growth is transitive.
proof fn lemma_grows_trans(a: CState, b: CState, c: CState)
    requires
        grows(a, b),
        grows(b, c),
    ensures
        grows(a, c),
{
    reveal(grows);
    assert(c.ir.take(a.ir.len() as int) =~= c.ir.take(b.ir.len() as int).take(a.ir.len() as int));
}

/// Emitting instructions, opening or closing a scope, or any change that
/// appends code, keeps growth.
proof fn lemma_grows_emit(s: CState, a: CState)
    requires
        grows(s, a),
    ensures
        forall|op: IR| grows(s, #[trigger] a.emit(op)),
        forall|op1: IR, op2: IR| grows(s, #[trigger] a.emit(op1).emit(op2)),
        forall|op1: IR, op2: IR, op3: IR| grows(s, #[trigger] a.emit(op1).emit(op2).emit(op3)),
{
    reveal(grows);
    assert forall|op: IR| grows(s, #[trigger] a.emit(op)) by {
        assert(a.emit(op).ir.take(s.ir.len() as int) =~= a.ir.take(s.ir.len() as int));
    }
    assert forall|op1: IR, op2: IR| grows(s, #[trigger] a.emit(op1).emit(op2)) by {
        assert(a.emit(op1).emit(op2).ir.take(s.ir.len() as int) =~= a.ir.take(s.ir.len() as int));
    }
    assert forall|op1: IR, op2: IR, op3: IR| grows(s, #[trigger] a.emit(op1).emit(op2).emit(op3)) by {
        assert(a.emit(op1).emit(op2).emit(op3).ir.take(s.ir.len() as int) =~= a.ir.take(s.ir.len() as int));
    }
}

/// Growth looks at the code and the label count only.
proof fn lemma_grows_same(s: CState, a: CState, b: CState)
    requires
        grows(s, a),
        b.ir == a.ir,
        b.labels == a.labels,
    ensures
        grows(s, b),
{
    reveal(grows);
}

/// A new label keeps growth.
proof fn lemma_grows_label(s: CState, a: CState)
    requires
        grows(s, a),
    ensures
        emit_label(a) matches Some((b, _)) ==> grows(s, b),
{
    reveal(grows);
    if a.labels != u32::MAX {
        assert(a.ir.push(IR::Label(a.labels)).take(s.ir.len() as int) =~= a.ir.take(s.ir.len() as int));
    }
}

/// Pointing a jump at or after the end of the code of `s` at a new label
/// keeps growth.
proof fn lemma_grows_stub(s: CState, a: CState, pos: int)
    requires
        grows(s, a),
        s.ir.len() <= pos < a.ir.len(),
    ensures
        update_stub(a, pos) matches Some(b) ==> grows(s, b),
        crate::compiler::close_stub(a, pos) matches Some((b, _)) ==> grows(s, b),
{
    lemma_grows_label(s, a);
    reveal(grows);
    match emit_label(a) {
        None => {},
        Some((a1, v)) => {
            let n = s.ir.len() as int;
            assert forall|op: IR| #[trigger] a1.ir.update(pos, op).take(n) =~= a1.ir.take(n) by {}
            assert(a1.ir.take(n) =~= a.ir.take(n));
        },
    }
}

/// Closing a scope keeps growth.
proof fn lemma_grows_end_scope(s: CState, a: CState)
    requires
        grows(s, a),
    ensures
        end_scope(a) matches Some(b) ==> grows(s, b),
{
    reveal(grows);
    if a.scope != 0 {
        let k = crate::stack::kept_len(a.vars, a.scope);
        let sz = crate::stack::sizes(a.vars) - crate::stack::sizes(a.vars.take(k as int));
        assert(a.ir.push(IR::Shrink(sz as u32)).take(s.ir.len() as int) =~= a.ir.take(s.ir.len() as int));
    }
}

/// Compilation appends: what was emitted before stays as it was, and no
/// label number is taken back.
pub proof fn law_compile_appends(s: CState, ast: AST)
    ensures
        comp(s, ast) matches Some((s2, _)) ==> grows(s, s2),
    decreases ast, 2int,
{
    lemma_grows_refl(s);
    lemma_grows_emit(s, s);
    match ast {
        AST::Number(_) | AST::Bool(_) | AST::GetVar(_) => {},
        AST::DeclareVar(_, t) => {
            reveal(grows);
            assert(s.ir.push(IR::Grow(t.spec_size())).take(s.ir.len() as int) =~= s.ir);
        },
        AST::Add(a, b) => lemma_binary_appends(s, ast, *a, *b),
        AST::Sub(a, b) => lemma_binary_appends(s, ast, *a, *b),
        AST::Mul(a, b) => lemma_binary_appends(s, ast, *a, *b),
        AST::Div(a, b) => lemma_binary_appends(s, ast, *a, *b),
        AST::Lesser(a, b) => lemma_binary_appends(s, ast, *a, *b),
        AST::Many(v) => {
            assert(decreases_to!(ast => v@));
            lemma_seq_appends(s, v@);
        },
        AST::AssignVar(_, e) => {
            law_compile_appends(s, *e);
            match comp(s, *e) {
                Some((s1, Ok(_))) => lemma_grows_emit(s, s1),
                _ => {},
            }
        },
        AST::Block(v) => {
            assert(decreases_to!(ast => v@));
            match start_scope(s) {
                None => {},
                Some(s1) => {
                    lemma_grows_same(s, s, s1);
                    lemma_seq_appends(s1, v@);
                    match comp_seq(s1, v@) {
                        Some((s2, _)) => {
                            lemma_grows_trans(s, s1, s2);
                            lemma_grows_end_scope(s, s2);
                        },
                        _ => {},
                    }
                },
            }
        },
        AST::If(c, blk, els) => lemma_if_appends(s, ast, *c, *blk, els),
        AST::BoolAnd(first, rest) => lemma_and_appends(s, ast, *first, *rest),
        AST::BoolOr(first, rest) => lemma_or_appends(s, ast, *first, *rest),
        AST::While(cond, blk) => lemma_while_appends(s, ast, *cond, *blk),
        AST::FunDecl(t, name, params, body) => lemma_fundecl_appends(s, ast, t, name, params, *body),
        AST::FunCall(name, args) => {
            assert(decreases_to!(ast => args@));
            lemma_rev_appends(s, args@);
            match comp_rev(s, args@) {
                Some((s1, Ok(_))) => lemma_grows_emit(s, s1),
                _ => {},
            }
        },
    }
}

/// `law_compile_appends` for statements compiled in order.
proof fn lemma_seq_appends(s: CState, v: Seq<AST>)
    ensures
        comp_seq(s, v) matches Some((s2, _)) ==> grows(s, s2),
    decreases v, 0int,
{
    lemma_grows_refl(s);
    if v.len() > 0 {
        law_compile_appends(s, v[0]);
        match comp(s, v[0]) {
            Some((s1, Ok(_))) => {
                lemma_seq_appends(s1, v.drop_first());
                match comp_seq(s1, v.drop_first()) {
                    Some((s2, _)) => lemma_grows_trans(s, s1, s2),
                    _ => {},
                }
            },
            _ => {},
        }
    }
}

/// `law_compile_appends` for expressions compiled last to first.
proof fn lemma_rev_appends(s: CState, v: Seq<AST>)
    ensures
        comp_rev(s, v) matches Some((s2, _)) ==> grows(s, s2),
    decreases v, 0int,
{
    lemma_grows_refl(s);
    if v.len() > 0 {
        law_compile_appends(s, v.last());
        match comp(s, v.last()) {
            Some((s1, Ok(_))) => {
                lemma_rev_appends(s1, v.drop_last());
                match comp_rev(s1, v.drop_last()) {
                    Some((s2, _)) => lemma_grows_trans(s, s1, s2),
                    _ => {},
                }
            },
            _ => {},
        }
    }
}

/// `b` compiled from a state `s1` that `s` grew into.
proof fn lemma_next_appends(s: CState, s1: CState, b: AST, parent: AST)
    requires
        grows(s, s1),
        decreases_to!(parent => b),
    ensures
        comp(s1, b) matches Some((s2, _)) ==> grows(s, s2) && grows(s1, s2),
    decreases parent, 0int,
{
    law_compile_appends(s1, b);
    match comp(s1, b) {
        Some((s2, _)) => lemma_grows_trans(s, s1, s2),
        _ => {},
    }
}

/// The binary operations.
proof fn lemma_binary_appends(s: CState, ast: AST, a: AST, b: AST)
    requires
        (ast == AST::Add(Box::new(a), Box::new(b)) || ast == AST::Sub(Box::new(a), Box::new(b))
            || ast == AST::Mul(Box::new(a), Box::new(b)) || ast == AST::Div(Box::new(a), Box::new(b))
            || ast == AST::Lesser(Box::new(a), Box::new(b))),
    ensures
        comp(s, ast) matches Some((s2, _)) ==> grows(s, s2),
    decreases ast, 1int,
{
    law_compile_appends(s, a);
    match comp(s, a) {
        Some((s1, Ok(_))) => {
            lemma_next_appends(s, s1, b, ast);
            match comp(s1, b) {
                Some((s2, Ok(_))) => lemma_grows_emit(s, s2),
                _ => {},
            }
        },
        _ => {},
    }
}

/// `if`, with or without `else`.
proof fn lemma_if_appends(s: CState, ast: AST, c: AST, blk: AST, els: Option<Box<AST>>)
    requires
        ast == AST::If(Box::new(c), Box::new(blk), els),
    ensures
        comp(s, ast) matches Some((s2, _)) ==> grows(s, s2),
    decreases ast, 1int,
{
    law_compile_appends(s, c);
    match comp(s, c) {
        Some((s1, Ok(tc))) => {
            lemma_grows_emit(s, s1);
            if tc == Some(Type::BOOL) {
                let s2 = s1.emit(IR::POP);
                let p_else = s2.ir.len() as int;
                let s2j = s2.emit(IR::JmpIfFalse(0));
                reveal(grows);
                assert(p_else >= s.ir.len());
                lemma_next_appends(s, s2j, blk, ast);
                match comp(s2j, blk) {
                    Some((s3, Ok(_))) => {
                        let p_end = s3.ir.len() as int;
                        lemma_grows_emit(s, s3);
                        lemma_grows_stub(s, s3.emit(IR::Jmp(0)), p_else);
                        match update_stub(s3.emit(IR::Jmp(0)), p_else) {
                            None => {},
                            Some(s4) => {
                                assert(p_end >= s.ir.len());
                                lemma_grows_stub(s, s4, p_end);
                                match els {
                                    Some(eb) => {
                                        assert(decreases_to!(ast => *eb));
                                        lemma_next_appends(s, s4, *eb, ast);
                                        match comp(s4, *eb) {
                                            Some((s5, Ok(_))) => lemma_grows_stub(s, s5, p_end),
                                            _ => {},
                                        }
                                    },
                                    None => {},
                                }
                            },
                        }
                    },
                    _ => {},
                }
            }
        },
        _ => {},
    }
}

/// `&&`, whose first operand is compiled twice.
proof fn lemma_and_appends(s: CState, ast: AST, first: AST, rest: AST)
    requires
        ast == AST::BoolAnd(Box::new(first), Box::new(rest)),
    ensures
        comp(s, ast) matches Some((s2, _)) ==> grows(s, s2),
    decreases ast, 1int,
{
    law_compile_appends(s, first);
    match comp(s, first) {
        Some((s1, Ok(_))) => {
            lemma_next_appends(s, s1, first, ast);
            match comp(s1, first) {
                Some((s2, Ok(tf))) => {
                    if tf == Some(Type::BOOL) {
                        lemma_grows_emit(s, s2);
                        let p = s2.ir.len() as int;
                        let s2j = s2.emit(IR::JmpIfFalse(0));
                        reveal(grows);
                        assert(p >= s.ir.len());
                        lemma_next_appends(s, s2j, rest, ast);
                        match comp(s2j, rest) {
                            Some((s3, Ok(_))) => {
                                lemma_grows_emit(s, s3);
                                lemma_grows_stub(s, s3.emit(IR::AND), p);
                            },
                            _ => {},
                        }
                    }
                },
                _ => {},
            }
        },
        _ => {},
    }
}

/// `||`.
proof fn lemma_or_appends(s: CState, ast: AST, first: AST, rest: AST)
    requires
        ast == AST::BoolOr(Box::new(first), Box::new(rest)),
    ensures
        comp(s, ast) matches Some((s2, _)) ==> grows(s, s2),
    decreases ast, 1int,
{
    law_compile_appends(s, first);
    match comp(s, first) {
        Some((s1, Ok(tf))) => {
            if tf == Some(Type::BOOL) {
                lemma_grows_emit(s, s1);
                let p = s1.ir.len() as int;
                let s1j = s1.emit(IR::JmpIfTrue(0));
                reveal(grows);
                assert(p >= s.ir.len());
                lemma_next_appends(s, s1j, rest, ast);
                match comp(s1j, rest) {
                    Some((s2, Ok(_))) => {
                        lemma_grows_emit(s, s2);
                        lemma_grows_stub(s, s2.emit(IR::OR), p);
                    },
                    _ => {},
                }
            }
        },
        _ => {},
    }
}

/// `while`.
proof fn lemma_while_appends(s: CState, ast: AST, cond: AST, blk: AST)
    requires
        ast == AST::While(Box::new(cond), Box::new(blk)),
    ensures
        comp(s, ast) matches Some((s2, _)) ==> grows(s, s2),
    decreases ast, 1int,
{
    lemma_grows_refl(s);
    lemma_grows_label(s, s);
    match emit_label(s) {
        None => {},
        Some((s1, start)) => {
            lemma_next_appends(s, s1, cond, ast);
            match comp(s1, cond) {
                Some((s2, Ok(tc))) => {
                    if tc == Some(Type::BOOL) {
                        lemma_grows_emit(s, s2);
                        let p = s2.ir.len() as int;
                        let s2j = s2.emit(IR::JmpIfFalse(0));
                        reveal(grows);
                        assert(p >= s.ir.len());
                        lemma_next_appends(s, s2j, blk, ast);
                        match comp(s2j, blk) {
                            Some((s3, Ok(_))) => {
                                lemma_grows_emit(s, s3);
                                lemma_grows_stub(s, s3.emit(IR::Jmp(start)), p);
                            },
                            _ => {},
                        }
                    }
                },
                _ => {},
            }
        },
    }
}

/// A function declaration.
proof fn lemma_fundecl_appends(s: CState, ast: AST, t: Type, name: String, params: Vec<(String, Type)>, body: AST)
    requires
        ast == AST::FunDecl(t, name, params, Box::new(body)),
    ensures
        comp(s, ast) matches Some((s2, _)) ==> grows(s, s2),
    decreases ast, 1int,
{
    lemma_grows_refl(s);
    let s0 = CState { funcs: crate::symtab::store(s.funcs, name, (t, params@)), cur_fn: s.cur_fn.push(name), ..s };
    lemma_grows_same(s, s, s0);
    lemma_grows_emit(s, s0);
    let s1 = s0.emit(IR::FnName(name)).emit(IR::ResetStack);
    match body {
        AST::Block(v) => {
            assert(decreases_to!(ast => body));
            assert(decreases_to!(body => v@));
            match start_scope(s1) {
                None => {},
                Some(s2) => {
                    lemma_grows_same(s, s1, s2);
                    lemma_seq_appends(s2, v@);
                    match comp_seq(s2, v@) {
                        Some((s3, Ok(_))) => {
                            lemma_grows_trans(s, s2, s3);
                            lemma_grows_emit(s, s3);
                            let s3p = s3.emit(IR::POP);
                            lemma_grows_end_scope(s, s3p);
                            match end_scope(s3p) {
                                None => {},
                                Some(s4) => {
                                    lemma_grows_emit(s, s4);
                                    let s5 = s4.emit(IR::RestoreStack);
                                    let s6 = if name@ != "main"@ {
                                        s5.emit(IR::RET)
                                    } else {
                                        s5
                                    };
                                    let fin = CState { cur_fn: crate::compiler::pop_name(s6.cur_fn), ..s6 };
                                    lemma_grows_same(s, s6, fin);
                                },
                            }
                        },
                        Some((s3, Err(_))) => lemma_grows_trans(s, s2, s3),
                        None => {},
                    }
                },
            }
        },
        _ => {},
    }
}

} // verus!

use vstd::prelude::*;

use crate::ast::{Type, AST};
use crate::compiler::{
    close_stub, comp, comp_rev, comp_seq, emit_label, end_scope, start_scope, update_stub, CState, IR,
};
use crate::stack::{kept_len, law_pop_undoes_scope};

verus! {

/// Every variable on the compiler's stack was declared in the current
/// scope or in an enclosing one.
pub open spec fn scoped(s: CState) -> bool {
    forall|i: int| 0 <= i < s.vars.len() ==> #[trigger] s.vars[i].1 <= s.scope
}

#[verifier::opaque]
/// `s2` is `s1` at the same scope depth, with the variables of `s1`
/// followed by variables declared in that scope.
pub open spec fn extends_vars(s1: CState, s2: CState) -> bool {
    &&& s2.scope == s1.scope
    &&& s1.vars.len() <= s2.vars.len()
    &&& s2.vars.take(s1.vars.len() as int) == s1.vars
    &&& forall|i: int| s1.vars.len() <= i < s2.vars.len() ==> #[trigger] s2.vars[i].1 == s1.scope
}

/// A state extends itself.
proof fn lemma_extends_refl(s: CState)
    ensures
        extends_vars(s, s),
{
    reveal(extends_vars);
    assert(s.vars.take(s.vars.len() as int) =~= s.vars);
}

/// Extension is transitive.
proof fn lemma_extends_trans(a: CState, b: CState, c: CState)
    requires
        extends_vars(a, b),
        extends_vars(b, c),
    ensures
        extends_vars(a, c),
{
    reveal(extends_vars);
    let n = a.vars.len() as int;
    assert(c.vars.take(n) =~= c.vars.take(b.vars.len() as int).take(n));
    assert forall|i: int| a.vars.len() <= i < c.vars.len() implies #[trigger] c.vars[i].1 == a.scope by {
        if i < b.vars.len() {
            assert(c.vars[i] == c.vars.take(b.vars.len() as int)[i]);
            assert(b.vars[i].1 == a.scope);
        }
    }
}

/// Extension looks at the variables and the scope depth only.
proof fn lemma_extends_same(s: CState, a: CState, b: CState)
    requires
        extends_vars(s, a),
        b.vars == a.vars,
        b.scope == a.scope,
    ensures
        extends_vars(s, b),
{
    reveal(extends_vars);
}

/// Emitting an instruction keeps an extension.
proof fn lemma_extends_emit(s: CState, a: CState)
    requires
        extends_vars(s, a),
    ensures
        forall|op: IR| extends_vars(s, #[trigger] a.emit(op)),
{
    reveal(extends_vars);
}

/// Three emitted instructions keep an extension.
proof fn lemma_extends_emits(s: CState, a: CState)
    requires
        extends_vars(s, a),
    ensures
        forall|op1: IR, op2: IR| extends_vars(s, #[trigger] a.emit(op1).emit(op2)),
        forall|op1: IR, op2: IR, op3: IR| extends_vars(s, #[trigger] a.emit(op1).emit(op2).emit(op3)),
{
    reveal(extends_vars);
}

/// Pointing a jump at a new label keeps an extension.
proof fn lemma_update_stub_keeps(s: CState, a: CState, pos: int)
    requires
        extends_vars(s, a),
    ensures
        update_stub(a, pos) matches Some(b) ==> extends_vars(s, b),
        close_stub(a, pos) matches Some((b, _)) ==> extends_vars(s, b),
{
    reveal(extends_vars);
}

/// An extension of a scoped state is scoped.
proof fn lemma_extends_scoped(a: CState, b: CState)
    requires
        scoped(a),
        extends_vars(a, b),
    ensures
        scoped(b),
{
    reveal(extends_vars);
    assert forall|i: int| 0 <= i < b.vars.len() implies #[trigger] b.vars[i].1 <= b.scope by {
        if i < a.vars.len() {
            assert(b.vars[i] == b.vars.take(a.vars.len() as int)[i]);
            assert(a.vars[i].1 <= a.scope);
        }
    }
}

/// Closing the scope opened on `s`, after statements that only added
/// variables in it, gives back the variables of `s` at its depth.
proof fn lemma_close_scope(s: CState, s1: CState, s2: CState)
    requires
        scoped(s),
        start_scope(s) == Some(s1),
        extends_vars(s1, s2),
    ensures
        end_scope(s2) matches Some(s3) && s3.vars == s.vars && s3.scope == s.scope,
{
    reveal(extends_vars);
    let d = s.vars;
    let e = s2.vars.skip(d.len() as int);
    assert(s2.vars =~= d + e) by {
        assert(s2.vars.take(d.len() as int) == d);
    }
    assert forall|i: int| 0 <= i < d.len() implies #[trigger] d[i].1 < s2.scope by {
        assert(d[i].1 <= s.scope);
    }
    assert forall|i: int| 0 <= i < e.len() implies #[trigger] e[i].1 >= s2.scope by {
        assert(e[i] == s2.vars[i + d.len()]);
    }
    law_pop_undoes_scope(d, e, s2.scope);
    assert(kept_len(s2.vars, s2.scope) == kept_len(d + e, s2.scope));
}

/// What compiling keeps: from a scoped state, a compilation that succeeds
/// ends at the same scope depth, with the variables it started with
/// followed by any it declared in that scope.
pub proof fn law_compile_keeps_scope(s: CState, ast: AST)
    requires
        scoped(s),
    ensures
        comp(s, ast) matches Some((s2, Ok(_))) ==> extends_vars(s, s2),
    decreases ast, 2int,
{
    lemma_extends_refl(s);
    lemma_extends_emit(s, s);
    match ast {
        AST::Number(_) | AST::Bool(_) | AST::GetVar(_) => {},
        AST::DeclareVar(name, t) => {
            let pushed = s.vars.push((name, s.scope, t));
            assert(pushed.take(s.vars.len() as int) =~= s.vars);
            reveal(extends_vars);
        },
        AST::Add(a, b) => lemma_binary_keeps(s, ast, *a, *b),
        AST::Sub(a, b) => lemma_binary_keeps(s, ast, *a, *b),
        AST::Mul(a, b) => lemma_binary_keeps(s, ast, *a, *b),
        AST::Div(a, b) => lemma_binary_keeps(s, ast, *a, *b),
        AST::Lesser(a, b) => lemma_binary_keeps(s, ast, *a, *b),
        AST::Many(v) => {
            assert(decreases_to!(ast => v@));
            lemma_seq_keeps(s, v@);
        },
        AST::AssignVar(_, e) => {
            law_compile_keeps_scope(s, *e);
            match comp(s, *e) {
                Some((s1, Ok(_))) => lemma_extends_emit(s, s1),
                _ => {},
            }
        },
        AST::Block(v) => {
            assert(decreases_to!(ast => v@));
            law_block_restores_scope(s, v);
            match comp(s, ast) {
                Some((s2, Ok(_))) => lemma_extends_same(s, s, s2),
                _ => {},
            }
        },
        AST::If(c, blk, els) => lemma_if_keeps(s, ast, *c, *blk, els),
        AST::BoolAnd(first, rest) => lemma_and_keeps(s, ast, *first, *rest),
        AST::BoolOr(first, rest) => lemma_or_keeps(s, ast, *first, *rest),
        AST::While(cond, blk) => lemma_while_keeps(s, ast, *cond, *blk),
        AST::FunDecl(t, name, params, body) => lemma_fundecl_keeps(s, ast, t, name, params, *body),
        AST::FunCall(name, args) => {
            assert(decreases_to!(ast => args@));
            lemma_rev_keeps(s, args@);
            match comp_rev(s, args@) {
                Some((s1, Ok(_))) => lemma_extends_emits(s, s1),
                _ => {},
            }
        },
    }
}

/// A block's variables do not outlive it: compiling a block from a scoped
/// state leaves, when it succeeds, the same variables at the same scope
/// depth.
pub proof fn law_block_restores_scope(s: CState, v: Vec<AST>)
    requires
        scoped(s),
    ensures
        comp(s, AST::Block(v)) matches Some((s2, Ok(_))) ==> s2.vars == s.vars && s2.scope == s.scope,
    decreases v@, 2int,
{
    match start_scope(s) {
        None => {},
        Some(s1) => {
            assert(scoped(s1));
            lemma_seq_keeps(s1, v@);
            match comp_seq(s1, v@) {
                Some((s2, Ok(_))) => {
                    lemma_close_scope(s, s1, s2);
                },
                _ => {},
            }
        },
    }
}

/// `law_compile_keeps_scope` for statements compiled in order.
proof fn lemma_seq_keeps(s: CState, v: Seq<AST>)
    requires
        scoped(s),
    ensures
        comp_seq(s, v) matches Some((s2, Ok(_))) ==> extends_vars(s, s2),
    decreases v, 0int,
{
    if v.len() == 0 {
        lemma_extends_refl(s);
    } else {
        law_compile_keeps_scope(s, v[0]);
        match comp(s, v[0]) {
            Some((s1, Ok(_))) => {
                lemma_extends_scoped(s, s1);
                lemma_seq_keeps(s1, v.drop_first());
                match comp_seq(s1, v.drop_first()) {
                    Some((s2, Ok(_))) => lemma_extends_trans(s, s1, s2),
                    _ => {},
                }
            },
            _ => {},
        }
    }
}

/// `law_compile_keeps_scope` for expressions compiled last to first.
proof fn lemma_rev_keeps(s: CState, v: Seq<AST>)
    requires
        scoped(s),
    ensures
        comp_rev(s, v) matches Some((s2, Ok(_))) ==> extends_vars(s, s2),
    decreases v, 0int,
{
    if v.len() == 0 {
        lemma_extends_refl(s);
    } else {
        law_compile_keeps_scope(s, v.last());
        match comp(s, v.last()) {
            Some((s1, Ok(_))) => {
                lemma_extends_scoped(s, s1);
                lemma_rev_keeps(s1, v.drop_last());
                match comp_rev(s1, v.drop_last()) {
                    Some((s2, Ok(_))) => lemma_extends_trans(s, s1, s2),
                    _ => {},
                }
            },
            _ => {},
        }
    }
}

/// `b` compiled after `a` from an extension `s1` of `s`: the result, when
/// it succeeds, extends `s`.
proof fn lemma_next_keeps(s: CState, s1: CState, b: AST, parent: AST)
    requires
        scoped(s),
        extends_vars(s, s1),
        decreases_to!(parent => b),
    ensures
        comp(s1, b) matches Some((s2, Ok(_))) ==> extends_vars(s, s2),
    decreases parent, 0int,
{
    lemma_extends_scoped(s, s1);
    law_compile_keeps_scope(s1, b);
    match comp(s1, b) {
        Some((s2, Ok(_))) => lemma_extends_trans(s, s1, s2),
        _ => {},
    }
}

/// The binary operations.
proof fn lemma_binary_keeps(s: CState, ast: AST, a: AST, b: AST)
    requires
        scoped(s),
        (ast == AST::Add(Box::new(a), Box::new(b)) || ast == AST::Sub(Box::new(a), Box::new(b))
            || ast == AST::Mul(Box::new(a), Box::new(b)) || ast == AST::Div(Box::new(a), Box::new(b))
            || ast == AST::Lesser(Box::new(a), Box::new(b))),
    ensures
        comp(s, ast) matches Some((s2, Ok(_))) ==> extends_vars(s, s2),
    decreases ast, 1int,
{
    law_compile_keeps_scope(s, a);
    match comp(s, a) {
        Some((s1, Ok(_))) => {
            lemma_next_keeps(s, s1, b, ast);
            match comp(s1, b) {
                Some((s2, Ok(_))) => lemma_extends_emit(s, s2),
                _ => {},
            }
        },
        _ => {},
    }
}

/// `if`, with or without `else`.
proof fn lemma_if_keeps(s: CState, ast: AST, c: AST, blk: AST, els: Option<Box<AST>>)
    requires
        scoped(s),
        ast == AST::If(Box::new(c), Box::new(blk), els),
    ensures
        comp(s, ast) matches Some((s2, Ok(_))) ==> extends_vars(s, s2),
    decreases ast, 1int,
{
    law_compile_keeps_scope(s, c);
    match comp(s, c) {
        Some((s1, Ok(tc))) => {
            if tc == Some(Type::BOOL) {
                lemma_extends_emits(s, s1);
                let s2 = s1.emit(IR::POP);
                let p_else = s2.ir.len() as int;
                let s2j = s2.emit(IR::JmpIfFalse(0));
                lemma_next_keeps(s, s2j, blk, ast);
                match comp(s2j, blk) {
                    Some((s3, Ok(_))) => {
                        let p_end = s3.ir.len() as int;
                        lemma_extends_emit(s, s3);
                        lemma_update_stub_keeps(s, s3.emit(IR::Jmp(0)), p_else);
                        match update_stub(s3.emit(IR::Jmp(0)), p_else) {
                            None => {},
                            Some(s4) => {
                                lemma_update_stub_keeps(s, s4, p_end);
                                match els {
                                    Some(eb) => {
                                        assert(decreases_to!(ast => *eb));
                                        lemma_next_keeps(s, s4, *eb, ast);
                                        match comp(s4, *eb) {
                                            Some((s5, Ok(_))) => lemma_update_stub_keeps(s, s5, p_end),
                                            _ => {},
                                        }
                                    },
                                    None => {},
                                }
                            },
                        }
                    },
                    _ => {},
                }
            }
        },
        _ => {},
    }
}

/// `&&`, whose first operand is compiled twice.
proof fn lemma_and_keeps(s: CState, ast: AST, first: AST, rest: AST)
    requires
        scoped(s),
        ast == AST::BoolAnd(Box::new(first), Box::new(rest)),
    ensures
        comp(s, ast) matches Some((s2, Ok(_))) ==> extends_vars(s, s2),
    decreases ast, 1int,
{
    law_compile_keeps_scope(s, first);
    match comp(s, first) {
        Some((s1, Ok(_))) => {
            lemma_next_keeps(s, s1, first, ast);
            match comp(s1, first) {
                Some((s2, Ok(tf))) => {
                    if tf == Some(Type::BOOL) {
                        lemma_extends_emit(s, s2);
                        let p = s2.ir.len() as int;
                        let s2j = s2.emit(IR::JmpIfFalse(0));
                        lemma_next_keeps(s, s2j, rest, ast);
                        match comp(s2j, rest) {
                            Some((s3, Ok(_))) => {
                                lemma_extends_emit(s, s3);
                                lemma_update_stub_keeps(s, s3.emit(IR::AND), p);
                            },
                            _ => {},
                        }
                    }
                },
                _ => {},
            }
        },
        _ => {},
    }
}

/// `||`.
proof fn lemma_or_keeps(s: CState, ast: AST, first: AST, rest: AST)
    requires
        scoped(s),
        ast == AST::BoolOr(Box::new(first), Box::new(rest)),
    ensures
        comp(s, ast) matches Some((s2, Ok(_))) ==> extends_vars(s, s2),
    decreases ast, 1int,
{
    law_compile_keeps_scope(s, first);
    match comp(s, first) {
        Some((s1, Ok(tf))) => {
            if tf == Some(Type::BOOL) {
                lemma_extends_emit(s, s1);
                let p = s1.ir.len() as int;
                let s1j = s1.emit(IR::JmpIfTrue(0));
                lemma_next_keeps(s, s1j, rest, ast);
                match comp(s1j, rest) {
                    Some((s2, Ok(_))) => {
                        lemma_extends_emit(s, s2);
                        lemma_update_stub_keeps(s, s2.emit(IR::OR), p);
                    },
                    _ => {},
                }
            }
        },
        _ => {},
    }
}

/// `while`.
proof fn lemma_while_keeps(s: CState, ast: AST, cond: AST, blk: AST)
    requires
        scoped(s),
        ast == AST::While(Box::new(cond), Box::new(blk)),
    ensures
        comp(s, ast) matches Some((s2, Ok(_))) ==> extends_vars(s, s2),
    decreases ast, 1int,
{
    lemma_extends_refl(s);
    match emit_label(s) {
        None => {},
        Some((s1, start)) => {
            lemma_extends_same(s, s, s1);
            lemma_next_keeps(s, s1, cond, ast);
            match comp(s1, cond) {
                Some((s2, Ok(tc))) => {
                    if tc == Some(Type::BOOL) {
                        lemma_extends_emit(s, s2);
                        let p = s2.ir.len() as int;
                        let s2j = s2.emit(IR::JmpIfFalse(0));
                        lemma_next_keeps(s, s2j, blk, ast);
                        match comp(s2j, blk) {
                            Some((s3, Ok(_))) => {
                                lemma_extends_emit(s, s3);
                                lemma_update_stub_keeps(s, s3.emit(IR::Jmp(start)), p);
                            },
                            _ => {},
                        }
                    }
                },
                _ => {},
            }
        },
    }
}

/// A function declaration: its body is a block, whose variables go when
/// it ends.
proof fn lemma_fundecl_keeps(s: CState, ast: AST, t: Type, name: String, params: Vec<(String, Type)>, body: AST)
    requires
        scoped(s),
        ast == AST::FunDecl(t, name, params, Box::new(body)),
    ensures
        comp(s, ast) matches Some((s2, Ok(_))) ==> extends_vars(s, s2),
    decreases ast, 1int,
{
    lemma_extends_refl(s);
    let s1 = CState { funcs: crate::symtab::store(s.funcs, name, (t, params@)), cur_fn: s.cur_fn.push(name), ..s }.emit(
        IR::FnName(name),
    ).emit(IR::ResetStack);
    assert(scoped(s1));
    match body {
        AST::Block(v) => {
            assert(decreases_to!(ast => body));
            assert(decreases_to!(body => v@));
            match start_scope(s1) {
                None => {},
                Some(s2) => {
                    assert(scoped(s2));
                    lemma_seq_keeps(s2, v@);
                    match comp_seq(s2, v@) {
                        Some((s3, Ok(_))) => {
                            let s3p = s3.emit(IR::POP);
                            lemma_extends_emit(s2, s3);
                            lemma_close_scope(s1, s2, s3p);
                            let s4 = end_scope(s3p)->Some_0;
                            let s5 = s4.emit(IR::RestoreStack);
                            let s6 = if name@ != "main"@ {
                                s5.emit(IR::RET)
                            } else {
                                s5
                            };
                            let fin = CState { cur_fn: crate::compiler::pop_name(s6.cur_fn), ..s6 };
                            lemma_extends_same(s, s, fin);
                        },
                        _ => {},
                    }
                },
            }
        },
        _ => {},
    }
}

} // verus!

use vstd::prelude::*;

use crate::ast::{Type, AST};
use crate::compiler::{
    close_stub, comp, comp_rev, comp_seq, emit_label, end_scope, initial_state, start_scope, update_stub, CState, IR,
};

verus! {

/// The numbers of the labels in `ir`, in order.
pub open spec fn label_ids(ir: Seq<IR>) -> Seq<u32>
    decreases ir.len(),
{
    if ir.len() == 0 {
        Seq::empty()
    } else {
        match ir.last() {
            IR::Label(l) => label_ids(ir.drop_last()).push(l),
            _ => label_ids(ir.drop_last()),
        }
    }
}

/// Whether the instruction is a jump.
pub open spec fn is_jump(op: IR) -> bool {
    op is Jmp || op is JmpIfFalse || op is JmpIfTrue
}

/// A jump targets a label below `n`; other instructions pass.
pub open spec fn jump_below(op: IR, n: u32) -> bool {
    match op {
        IR::Jmp(l) => l < n,
        IR::JmpIfFalse(l) => l < n,
        IR::JmpIfTrue(l) => l < n,
        _ => true,
    }
}

/// The numbers `a`, `a + 1`, ..., `b - 1`.
pub open spec fn count_up(a: u32, b: u32) -> Seq<u32> {
    Seq::new((b - a) as nat, |i: int| (a + i) as u32)
}

#[verifier::opaque]
/// `s2` follows `s1` in numbering: it keeps the code of `s1` at its start
/// and uses no label number twice; the labels it adds are the next numbers
/// in order, and each jump it adds targets a label below its label count,
/// except the placeholder jumps at the positions `holes`, not yet pointed
/// at a label.
pub open spec fn numbered(s1: CState, s2: CState, holes: Set<int>) -> bool {
    &&& s1.ir.len() <= s2.ir.len()
    &&& s2.ir.take(s1.ir.len() as int) == s1.ir
    &&& s1.labels <= s2.labels
    &&& label_ids(s2.ir) == label_ids(s1.ir) + count_up(s1.labels, s2.labels)
    &&& forall|i: int|
        s1.ir.len() <= i < s2.ir.len() && !holes.contains(i) ==> jump_below(#[trigger] s2.ir[i], s2.labels)
    &&& forall|i: int| #[trigger] holes.contains(i) ==> s1.ir.len() <= i < s2.ir.len() && is_jump(s2.ir[i])
}

/// The labels of `ir` followed by one more instruction.
proof fn lemma_label_ids_push(ir: Seq<IR>, op: IR)
    ensures
        label_ids(ir.push(op)) == match op {
            IR::Label(l) => label_ids(ir).push(l),
            _ => label_ids(ir),
        },
{
    assert(ir.push(op).drop_last() =~= ir);
}

/// Replacing an instruction that is not a label by another that is not
/// keeps the labels.
proof fn lemma_label_ids_update(ir: Seq<IR>, p: int, op: IR)
    requires
        0 <= p < ir.len(),
        !(ir[p] is Label),
        !(op is Label),
    ensures
        label_ids(ir.update(p, op)) == label_ids(ir),
    decreases ir.len(),
{
    let u = ir.update(p, op);
    if p == ir.len() - 1 {
        assert(u.drop_last() =~= ir.drop_last());
    } else {
        assert(u.drop_last() =~= ir.drop_last().update(p, op));
        lemma_label_ids_update(ir.drop_last(), p, op);
    }
}

/// A state follows itself.
proof fn lemma_numbered_refl(s: CState)
    ensures
        numbered(s, s, Set::empty()),
{
    reveal(numbered);
    assert(s.ir.take(s.ir.len() as int) =~= s.ir);
    assert(label_ids(s.ir) + count_up(s.labels, s.labels) =~= label_ids(s.ir));
}

/// Following looks at the code and the label count only.
proof fn lemma_numbered_same(s: CState, a: CState, b: CState, h: Set<int>)
    requires
        numbered(s, a, h),
        b.ir == a.ir,
        b.labels == a.labels,
    ensures
        numbered(s, b, h),
{
    reveal(numbered);
}

/// A state that follows a state without holes, and so on.
proof fn lemma_numbered_trans(a: CState, b: CState, c: CState, h: Set<int>)
    requires
        numbered(a, b, h),
        numbered(b, c, Set::empty()),
    ensures
        numbered(a, c, h),
{
    reveal(numbered);
    let n = a.ir.len() as int;
    assert(c.ir.take(n) =~= c.ir.take(b.ir.len() as int).take(n));
    assert(count_up(a.labels, b.labels) + count_up(b.labels, c.labels) =~= count_up(a.labels, c.labels));
    assert(label_ids(a.ir) + count_up(a.labels, b.labels) + count_up(b.labels, c.labels) =~= label_ids(a.ir) + (
    count_up(a.labels, b.labels) + count_up(b.labels, c.labels)));
    assert forall|i: int| a.ir.len() <= i < c.ir.len() && !h.contains(i) implies jump_below(
        #[trigger] c.ir[i],
        c.labels,
    ) by {
        if i < b.ir.len() {
            assert(c.ir[i] == c.ir.take(b.ir.len() as int)[i]);
            assert(jump_below(b.ir[i], b.labels));
        } else {
            assert(!Set::<int>::empty().contains(i));
        }
    }
    assert forall|i: int| #[trigger] h.contains(i) implies a.ir.len() <= i < c.ir.len() && is_jump(c.ir[i]) by {
        assert(c.ir[i] == c.ir.take(b.ir.len() as int)[i]);
    }
}

/// Emitting an instruction that is no label, and no jump beyond the
/// labels, keeps following.
proof fn lemma_numbered_emit(s: CState, a: CState, h: Set<int>)
    requires
        numbered(s, a, h),
    ensures
        forall|op: IR|
            !(op is Label) && jump_below(op, a.labels) ==> numbered(s, #[trigger] a.emit(op), h),
{
    reveal(numbered);
    assert forall|op: IR| !(op is Label) && jump_below(op, a.labels) implies numbered(s, #[trigger] a.emit(op), h) by {
        let b = a.emit(op);
        assert(b.ir.take(s.ir.len() as int) =~= a.ir.take(s.ir.len() as int));
        lemma_label_ids_push(a.ir, op);
        assert forall|i: int| s.ir.len() <= i < b.ir.len() && !h.contains(i) implies jump_below(
            #[trigger] b.ir[i],
            b.labels,
        ) by {
            if i < a.ir.len() {
                assert(b.ir[i] == a.ir[i]);
            }
        }
        assert forall|i: int| #[trigger] h.contains(i) implies s.ir.len() <= i < b.ir.len() && is_jump(b.ir[i]) by {
            assert(b.ir[i] == a.ir[i]);
        }
    }
}

/// Emitting a placeholder jump adds a hole at its position.
proof fn lemma_numbered_hole(s: CState, a: CState, h: Set<int>)
    requires
        numbered(s, a, h),
    ensures
        forall|op: IR| is_jump(op) ==> numbered(s, #[trigger] a.emit(op), h.insert(a.ir.len() as int)),
{
    reveal(numbered);
    assert forall|op: IR| is_jump(op) implies numbered(s, #[trigger] a.emit(op), h.insert(a.ir.len() as int)) by {
        let b = a.emit(op);
        let h2 = h.insert(a.ir.len() as int);
        assert(b.ir.take(s.ir.len() as int) =~= a.ir.take(s.ir.len() as int));
        lemma_label_ids_push(a.ir, op);
        assert forall|i: int| s.ir.len() <= i < b.ir.len() && !h2.contains(i) implies jump_below(
            #[trigger] b.ir[i],
            b.labels,
        ) by {
            assert(b.ir[i] == a.ir[i]);
        }
        assert forall|i: int| #[trigger] h2.contains(i) implies s.ir.len() <= i < b.ir.len() && is_jump(b.ir[i]) by {
            if i < a.ir.len() {
                assert(b.ir[i] == a.ir[i]);
            }
        }
    }
}

/// A new label takes the next number.
proof fn lemma_numbered_label(s: CState, a: CState, h: Set<int>)
    requires
        numbered(s, a, h),
    ensures
        emit_label(a) matches Some((b, l)) ==> numbered(s, b, h) && l == a.labels && l < b.labels,
{
    reveal(numbered);
    match emit_label(a) {
        None => {},
        Some((b, l)) => {
            assert(b.ir.take(s.ir.len() as int) =~= a.ir.take(s.ir.len() as int));
            lemma_label_ids_push(a.ir, IR::Label(l));
            assert(count_up(s.labels, a.labels).push(l) =~= count_up(s.labels, b.labels));
            assert forall|i: int| s.ir.len() <= i < b.ir.len() && !h.contains(i) implies jump_below(
                #[trigger] b.ir[i],
                b.labels,
            ) by {
                if i < a.ir.len() {
                    assert(b.ir[i] == a.ir[i]);
                }
            }
            assert forall|i: int| #[trigger] h.contains(i) implies s.ir.len() <= i < b.ir.len() && is_jump(b.ir[i]) by {
                assert(b.ir[i] == a.ir[i]);
            }
        },
    }
}

/// Pointing the placeholder at the hole `p` at a new label fills the hole.
proof fn lemma_numbered_patch(s: CState, a: CState, h: Set<int>, p: int)
    requires
        numbered(s, a, h),
        h.contains(p),
    ensures
        update_stub(a, p) matches Some(b) ==> numbered(s, b, h.remove(p)),
        close_stub(a, p) matches Some((b, _)) ==> numbered(s, b, h.remove(p)),
{
    reveal(numbered);
    match emit_label(a) {
        None => {},
        Some((a1, l)) => {
            assert(is_jump(a.ir[p]));
            assert(a1.ir[p] == a.ir[p]);
            let op = match a1.ir[p] {
                IR::Jmp(_) => IR::Jmp(l),
                IR::JmpIfFalse(_) => IR::JmpIfFalse(l),
                _ => IR::JmpIfTrue(l),
            };
            let b = CState { ir: a1.ir.update(p, op), ..a1 };
            assert(update_stub(a, p) == Some(b));
            let h2 = h.remove(p);
            lemma_label_ids_push(a.ir, IR::Label(l));
            lemma_label_ids_update(a1.ir, p, op);
            assert(count_up(s.labels, a.labels).push(l) =~= count_up(s.labels, b.labels));
            assert(b.ir.take(s.ir.len() as int) =~= a.ir.take(s.ir.len() as int));
            assert forall|i: int| s.ir.len() <= i < b.ir.len() && !h2.contains(i) implies jump_below(
                #[trigger] b.ir[i],
                b.labels,
            ) by {
                if i != p && i < a.ir.len() {
                    assert(b.ir[i] == a.ir[i]);
                }
            }
            assert forall|i: int| #[trigger] h2.contains(i) implies s.ir.len() <= i < b.ir.len() && is_jump(b.ir[i]) by {
                assert(b.ir[i] == a.ir[i]);
            }
        },
    }
}

/// What compiling does to the numbering: a successful compilation follows
/// its start state, with no placeholder left unfilled.
pub proof fn law_compile_numbers_labels(s: CState, ast: AST)
    ensures
        comp(s, ast) matches Some((s2, Ok(_))) ==> numbered(s, s2, Set::empty()),
    decreases ast, 2int,
{
    let e = Set::<int>::empty();
    lemma_numbered_refl(s);
    lemma_numbered_emit(s, s, e);
    match ast {
        AST::Number(_) | AST::Bool(_) | AST::GetVar(_) => {},
        AST::DeclareVar(name, t) => {
            let s1 = CState { vars: s.vars.push((name, s.scope, t)), ..s };
            lemma_numbered_same(s, s, s1, e);
            lemma_numbered_emit(s, s1, e);
            lemma_numbered_same(s, s, CState { symbols: crate::symtab::store(s.symbols, name, t), ..s }, e);
        },
        AST::Add(a, b) => lemma_binary_numbers(s, ast, *a, *b),
        AST::Sub(a, b) => lemma_binary_numbers(s, ast, *a, *b),
        AST::Mul(a, b) => lemma_binary_numbers(s, ast, *a, *b),
        AST::Div(a, b) => lemma_binary_numbers(s, ast, *a, *b),
        AST::Lesser(a, b) => lemma_binary_numbers(s, ast, *a, *b),
        AST::Many(v) => {
            assert(decreases_to!(ast => v@));
            lemma_seq_numbers(s, v@);
        },
        AST::AssignVar(_, x) => {
            law_compile_numbers_labels(s, *x);
            match comp(s, *x) {
                Some((s1, Ok(_))) => lemma_numbered_emit(s, s1, e),
                _ => {},
            }
        },
        AST::Block(v) => {
            assert(decreases_to!(ast => v@));
            match start_scope(s) {
                None => {},
                Some(s1) => {
                    lemma_numbered_same(s, s, s1, e);
                    lemma_seq_numbers(s1, v@);
                    match comp_seq(s1, v@) {
                        Some((s2, Ok(_))) => {
                            lemma_numbered_trans(s, s1, s2, e);
                            lemma_numbered_emit(s, s2, e);
                            match end_scope(s2) {
                                None => {},
                                Some(s3) => {
                                    let sz = crate::stack::sizes(s2.vars) - crate::stack::sizes(
                                        s2.vars.take(crate::stack::kept_len(s2.vars, s2.scope) as int),
                                    );
                                    lemma_numbered_same(s, s2.emit(IR::Shrink(sz as u32)), s3, e);
                                },
                            }
                        },
                        _ => {},
                    }
                },
            }
        },
        AST::If(c, blk, els) => lemma_if_numbers(s, ast, *c, *blk, els),
        AST::BoolAnd(first, rest) => lemma_and_numbers(s, ast, *first, *rest),
        AST::BoolOr(first, rest) => lemma_or_numbers(s, ast, *first, *rest),
        AST::While(cond, blk) => lemma_while_numbers(s, ast, *cond, *blk),
        AST::FunDecl(t, name, params, body) => lemma_fundecl_numbers(s, ast, t, name, params, *body),
        AST::FunCall(name, args) => {
            assert(decreases_to!(ast => args@));
            lemma_rev_numbers(s, args@);
            match comp_rev(s, args@) {
                Some((s1, Ok(_))) => {
                    lemma_numbered_emit(s, s1, e);
                    let s2 = if name@ != "print"@ {
                        s1.emit(IR::Call(name))
                    } else {
                        s1.emit(IR::Print64)
                    };
                    lemma_numbered_emit(s, s2, e);
                    let s3 = s2.emit(IR::Shrink((2 * args@.len()) as u32));
                    lemma_numbered_emit(s, s3, e);
                },
                _ => {},
            }
        },
    }
}

/// The labels of a successful compilation of a whole program are numbered
/// `0, 1, ...` in the order of the code, each once, and every jump, each
/// patched placeholder included, targets one of them.
pub proof fn law_labels_and_jumps(ast: AST)
    ensures
        comp(initial_state(), ast) matches Some((s, Ok(_))) ==> {
            &&& label_ids(s.ir) == Seq::new(s.labels as nat, |i: int| i as u32)
            &&& forall|i: int| 0 <= i < s.ir.len() ==> jump_below(#[trigger] s.ir[i], s.labels)
        },
{
    law_compile_numbers_labels(initial_state(), ast);
    match comp(initial_state(), ast) {
        Some((s, Ok(_))) => {
            reveal(numbered);
            assert(label_ids(Seq::<IR>::empty()) == Seq::<u32>::empty());
            assert(count_up(0, s.labels) =~= Seq::new(s.labels as nat, |i: int| i as u32));
            assert(Seq::<u32>::empty() + count_up(0, s.labels) =~= count_up(0, s.labels));
            assert forall|i: int| 0 <= i < s.ir.len() implies jump_below(#[trigger] s.ir[i], s.labels) by {
                assert(!Set::<int>::empty().contains(i));
            }
        },
        _ => {},
    }
}

/// Statements compiled in order.
proof fn lemma_seq_numbers(s: CState, v: Seq<AST>)
    ensures
        comp_seq(s, v) matches Some((s2, Ok(_))) ==> numbered(s, s2, Set::empty()),
    decreases v, 0int,
{
    lemma_numbered_refl(s);
    if v.len() > 0 {
        law_compile_numbers_labels(s, v[0]);
        match comp(s, v[0]) {
            Some((s1, Ok(_))) => {
                lemma_seq_numbers(s1, v.drop_first());
                match comp_seq(s1, v.drop_first()) {
                    Some((s2, Ok(_))) => lemma_numbered_trans(s, s1, s2, Set::empty()),
                    _ => {},
                }
            },
            _ => {},
        }
    }
}

/// Expressions compiled last to first.
proof fn lemma_rev_numbers(s: CState, v: Seq<AST>)
    ensures
        comp_rev(s, v) matches Some((s2, Ok(_))) ==> numbered(s, s2, Set::empty()),
    decreases v, 0int,
{
    lemma_numbered_refl(s);
    if v.len() > 0 {
        law_compile_numbers_labels(s, v.last());
        match comp(s, v.last()) {
            Some((s1, Ok(_))) => {
                lemma_rev_numbers(s1, v.drop_last());
                match comp_rev(s1, v.drop_last()) {
                    Some((s2, Ok(_))) => lemma_numbered_trans(s, s1, s2, Set::empty()),
                    _ => {},
                }
            },
            _ => {},
        }
    }
}

/// `b` compiled from `s1`, which follows `s` with the holes `h`.
proof fn lemma_next_numbers(s: CState, s1: CState, h: Set<int>, b: AST, parent: AST)
    requires
        numbered(s, s1, h),
        decreases_to!(parent => b),
    ensures
        comp(s1, b) matches Some((s2, Ok(_))) ==> numbered(s, s2, h) && numbered(s1, s2, Set::empty()),
    decreases parent, 0int,
{
    law_compile_numbers_labels(s1, b);
    match comp(s1, b) {
        Some((s2, Ok(_))) => lemma_numbered_trans(s, s1, s2, h),
        _ => {},
    }
}

/// The binary operations.
proof fn lemma_binary_numbers(s: CState, ast: AST, a: AST, b: AST)
    requires
        (ast == AST::Add(Box::new(a), Box::new(b)) || ast == AST::Sub(Box::new(a), Box::new(b))
            || ast == AST::Mul(Box::new(a), Box::new(b)) || ast == AST::Div(Box::new(a), Box::new(b))
            || ast == AST::Lesser(Box::new(a), Box::new(b))),
    ensures
        comp(s, ast) matches Some((s2, Ok(_))) ==> numbered(s, s2, Set::empty()),
    decreases ast, 1int,
{
    lemma_numbered_refl(s);
    lemma_next_numbers(s, s, Set::empty(), a, ast);
    match comp(s, a) {
        Some((s1, Ok(_))) => {
            lemma_next_numbers(s, s1, Set::empty(), b, ast);
            match comp(s1, b) {
                Some((s2, Ok(_))) => lemma_numbered_emit(s, s2, Set::empty()),
                _ => {},
            }
        },
        _ => {},
    }
}

/// `if`, with or without `else`.
#[verifier::rlimit(40)]
proof fn lemma_if_numbers(s: CState, ast: AST, c: AST, blk: AST, els: Option<Box<AST>>)
    requires
        ast == AST::If(Box::new(c), Box::new(blk), els),
    ensures
        comp(s, ast) matches Some((s2, Ok(_))) ==> numbered(s, s2, Set::empty()),
    decreases ast, 1int,
{
    let e = Set::<int>::empty();
    lemma_numbered_refl(s);
    lemma_next_numbers(s, s, e, c, ast);
    match comp(s, c) {
        Some((s1, Ok(tc))) => {
            if tc == Some(Type::BOOL) {
                lemma_numbered_emit(s, s1, e);
                let s2 = s1.emit(IR::POP);
                let p_else = s2.ir.len() as int;
                lemma_numbered_hole(s, s2, e);
                let s2j = s2.emit(IR::JmpIfFalse(0));
                let h1 = e.insert(p_else);
                lemma_next_numbers(s, s2j, h1, blk, ast);
                match comp(s2j, blk) {
                    Some((s3, Ok(_))) => {
                        let p_end = s3.ir.len() as int;
                        lemma_numbered_hole(s, s3, h1);
                        let h2 = h1.insert(p_end);
                        let s3j = s3.emit(IR::Jmp(0));
                        assert(p_else != p_end) by {
                            reveal(numbered);
                        }
                        lemma_numbered_patch(s, s3j, h2, p_else);
                        assert(h2.remove(p_else) =~= e.insert(p_end));
                        match update_stub(s3j, p_else) {
                            None => {},
                            Some(s4) => {
                                let h3 = e.insert(p_end);
                                assert(h3.remove(p_end) =~= e);
                                lemma_numbered_patch(s, s4, h3, p_end);
                                match els {
                                    Some(eb) => {
                                        assert(decreases_to!(ast => *eb));
                                        lemma_next_numbers(s, s4, h3, *eb, ast);
                                        match comp(s4, *eb) {
                                            Some((s5, Ok(_))) => lemma_numbered_patch(s, s5, h3, p_end),
                                            _ => {},
                                        }
                                    },
                                    None => {},
                                }
                            },
                        }
                    },
                    _ => {},
                }
            }
        },
        _ => {},
    }
}

/// `&&`, whose first operand is compiled twice.
proof fn lemma_and_numbers(s: CState, ast: AST, first: AST, rest: AST)
    requires
        ast == AST::BoolAnd(Box::new(first), Box::new(rest)),
    ensures
        comp(s, ast) matches Some((s2, Ok(_))) ==> numbered(s, s2, Set::empty()),
    decreases ast, 1int,
{
    let e = Set::<int>::empty();
    lemma_numbered_refl(s);
    lemma_next_numbers(s, s, e, first, ast);
    match comp(s, first) {
        Some((s1, Ok(_))) => {
            lemma_next_numbers(s, s1, e, first, ast);
            match comp(s1, first) {
                Some((s2, Ok(tf))) => {
                    if tf == Some(Type::BOOL) {
                        let p = s2.ir.len() as int;
                        lemma_numbered_hole(s, s2, e);
                        let h = e.insert(p);
                        let s2j = s2.emit(IR::JmpIfFalse(0));
                        lemma_next_numbers(s, s2j, h, rest, ast);
                        match comp(s2j, rest) {
                            Some((s3, Ok(_))) => {
                                lemma_numbered_emit(s, s3, h);
                                assert(h.remove(p) =~= e);
                                lemma_numbered_patch(s, s3.emit(IR::AND), h, p);
                            },
                            _ => {},
                        }
                    }
                },
                _ => {},
            }
        },
        _ => {},
    }
}

/// `||`.
proof fn lemma_or_numbers(s: CState, ast: AST, first: AST, rest: AST)
    requires
        ast == AST::BoolOr(Box::new(first), Box::new(rest)),
    ensures
        comp(s, ast) matches Some((s2, Ok(_))) ==> numbered(s, s2, Set::empty()),
    decreases ast, 1int,
{
    let e = Set::<int>::empty();
    lemma_numbered_refl(s);
    lemma_next_numbers(s, s, e, first, ast);
    match comp(s, first) {
        Some((s1, Ok(tf))) => {
            if tf == Some(Type::BOOL) {
                let p = s1.ir.len() as int;
                lemma_numbered_hole(s, s1, e);
                let h = e.insert(p);
                let s1j = s1.emit(IR::JmpIfTrue(0));
                lemma_next_numbers(s, s1j, h, rest, ast);
                match comp(s1j, rest) {
                    Some((s2, Ok(_))) => {
                        lemma_numbered_emit(s, s2, h);
                        assert(h.remove(p) =~= e);
                        lemma_numbered_patch(s, s2.emit(IR::OR), h, p);
                    },
                    _ => {},
                }
            }
        },
        _ => {},
    }
}

/// `while`: the jump back targets the label at its start.
proof fn lemma_while_numbers(s: CState, ast: AST, cond: AST, blk: AST)
    requires
        ast == AST::While(Box::new(cond), Box::new(blk)),
    ensures
        comp(s, ast) matches Some((s2, Ok(_))) ==> numbered(s, s2, Set::empty()),
    decreases ast, 1int,
{
    let e = Set::<int>::empty();
    lemma_numbered_refl(s);
    lemma_numbered_label(s, s, e);
    match emit_label(s) {
        None => {},
        Some((s1, start)) => {
            lemma_next_numbers(s, s1, e, cond, ast);
            match comp(s1, cond) {
                Some((s2, Ok(tc))) => {
                    if tc == Some(Type::BOOL) {
                        let p = s2.ir.len() as int;
                        lemma_numbered_hole(s, s2, e);
                        let h = e.insert(p);
                        let s2j = s2.emit(IR::JmpIfFalse(0));
                        lemma_next_numbers(s, s2j, h, blk, ast);
                        match comp(s2j, blk) {
                            Some((s3, Ok(_))) => {
                                assert(start < s3.labels) by {
                                    reveal(numbered);
                                    assert(s1.labels <= s2.labels);
                                    assert(s2j.labels <= s3.labels);
                                }
                                lemma_numbered_emit(s, s3, h);
                                assert(h.remove(p) =~= e);
                                lemma_numbered_patch(s, s3.emit(IR::Jmp(start)), h, p);
                            },
                            _ => {},
                        }
                    }
                },
                _ => {},
            }
        },
    }
}

/// A function declaration.
proof fn lemma_fundecl_numbers(s: CState, ast: AST, t: Type, name: String, params: Vec<(String, Type)>, body: AST)
    requires
        ast == AST::FunDecl(t, name, params, Box::new(body)),
    ensures
        comp(s, ast) matches Some((s2, Ok(_))) ==> numbered(s, s2, Set::empty()),
    decreases ast, 1int,
{
    let e = Set::<int>::empty();
    lemma_numbered_refl(s);
    let s0 = CState { funcs: crate::symtab::store(s.funcs, name, (t, params@)), cur_fn: s.cur_fn.push(name), ..s };
    lemma_numbered_same(s, s, s0, e);
    lemma_numbered_emit(s, s0, e);
    let s0f = s0.emit(IR::FnName(name));
    lemma_numbered_emit(s, s0f, e);
    let s1 = s0f.emit(IR::ResetStack);
    match body {
        AST::Block(v) => {
            assert(decreases_to!(ast => body));
            assert(decreases_to!(body => v@));
            match start_scope(s1) {
                None => {},
                Some(s2) => {
                    lemma_numbered_same(s, s1, s2, e);
                    lemma_seq_numbers(s2, v@);
                    match comp_seq(s2, v@) {
                        Some((s3, Ok(_))) => {
                            lemma_numbered_trans(s, s2, s3, e);
                            lemma_numbered_emit(s, s3, e);
                            let s3p = s3.emit(IR::POP);
                            lemma_numbered_emit(s, s3p, e);
                            match end_scope(s3p) {
                                None => {},
                                Some(s4) => {
                                    let sz = crate::stack::sizes(s3p.vars) - crate::stack::sizes(
                                        s3p.vars.take(crate::stack::kept_len(s3p.vars, s3p.scope) as int),
                                    );
                                    lemma_numbered_same(s, s3p.emit(IR::Shrink(sz as u32)), s4, e);
                                    lemma_numbered_emit(s, s4, e);
                                    let s5 = s4.emit(IR::RestoreStack);
                                    lemma_numbered_emit(s, s5, e);
                                    let s6 = if name@ != "main"@ {
                                        s5.emit(IR::RET)
                                    } else {
                                        s5
                                    };
                                    let fin = CState { cur_fn: crate::compiler::pop_name(s6.cur_fn), ..s6 };
                                    lemma_numbered_same(s, s6, fin, e);
                                },
                            }
                        },
                        _ => {},
                    }
                },
            }
        },
        _ => {},
    }
}

} // verus!

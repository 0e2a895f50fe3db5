use vstd::prelude::*;

use crate::analysis::{type_of, type_of_all, TypeResult};
use crate::ast::{Type, AST};
use crate::compiler::{comp, comp_seq, initial_state, CState};

verus! {

/// Programs on global variables alone: literals, the four operations,
/// reads and assignments of variables, sequences and blocks; no
/// declarations, comparisons, control flow or functions.
pub open spec fn global_only(e: AST) -> bool
    decreases e,
{
    match e {
        AST::Number(_) | AST::Bool(_) | AST::GetVar(_) => true,
        AST::Add(a, b) => global_only(*a) && global_only(*b),
        AST::Sub(a, b) => global_only(*a) && global_only(*b),
        AST::Mul(a, b) => global_only(*a) && global_only(*b),
        AST::Div(a, b) => global_only(*a) && global_only(*b),
        AST::AssignVar(_, x) => global_only(*x),
        AST::Many(v) => all_global_only(v@),
        AST::Block(v) => all_global_only(v@),
        _ => false,
    }
}

/// Every statement of the sequence is `global_only`.
pub open spec fn all_global_only(s: Seq<AST>) -> bool
    decreases s,
{
    s.len() > 0 ==> global_only(s[0]) && all_global_only(s.drop_first())
}

/// A compiler state outside any function, with no local variables.
pub open spec fn outside_functions(s: CState) -> bool {
    s.vars.len() == 0 && s.cur_fn.len() == 0
}

/// The compiler's outcome `r`, from a state `s`, agrees with the checker's
/// typing `t` against the globals of `s`, and a success leaves `s2` as
/// far as the typing goes: outside functions, same globals, same depth.
pub open spec fn agrees_with(s: CState, s2: CState, r: TypeResult, t: TypeResult) -> bool {
    &&& (r is Ok <==> t is Ok)
    &&& r is Ok ==> r == t && outside_functions(s2) && s2.symbols == s.symbols && s2.scope == s.scope
}

/// A sequence that types has no value.
proof fn lemma_type_of_all_none(v: Seq<AST>, syms: Seq<(String, Type)>)
    ensures
        type_of_all(v, syms) is Ok ==> type_of_all(v, syms) == Ok::<Option<Type>, crate::analysis::CompilationError>(None),
    decreases v.len(),
{
    if v.len() > 0 {
        lemma_type_of_all_none(v.drop_first(), syms);
    }
}

/// The agreement, for one node compiled from a state outside functions.
proof fn lemma_agree(s: CState, e: AST)
    requires
        outside_functions(s),
        global_only(e),
    ensures
        comp(s, e) matches Some((s2, r)) ==> agrees_with(s, s2, r, type_of(e, s.symbols)),
    decreases e, 1int,
{
    match e {
        AST::Number(_) | AST::Bool(_) => {},
        AST::GetVar(name) => {
            let s1 = s.emit(crate::compiler::IR::GetGlobal(name));
            assert(crate::compiler::arg_lookup(s1, name@) == Some(None::<(u32, Type)>));
        },
        AST::Add(a, b) => lemma_agree_binary(s, e, *a, *b),
        AST::Sub(a, b) => lemma_agree_binary(s, e, *a, *b),
        AST::Mul(a, b) => lemma_agree_binary(s, e, *a, *b),
        AST::Div(a, b) => lemma_agree_binary(s, e, *a, *b),
        AST::AssignVar(_, x) => {
            lemma_agree(s, *x);
        },
        AST::Many(v) => {
            assert(decreases_to!(e => v@));
            lemma_agree_seq(s, v@);
        },
        AST::Block(v) => {
            assert(decreases_to!(e => v@));
            if s.scope < u32::MAX {
                let s1 = CState { scope: (s.scope + 1) as u32, ..s };
                lemma_agree_seq(s1, v@);
                lemma_type_of_all_none(v@, s.symbols);
                match comp_seq(s1, v@) {
                    Some((s2, Ok(_))) => {
                        assert(s2.vars.take(0) =~= s2.vars);
                    },
                    _ => {},
                }
            }
        },
        _ => {},
    }
}

/// The binary operations: an operand that fails fails both.
proof fn lemma_agree_binary(s: CState, e: AST, a: AST, b: AST)
    requires
        outside_functions(s),
        (e == AST::Add(Box::new(a), Box::new(b)) || e == AST::Sub(Box::new(a), Box::new(b))
            || e == AST::Mul(Box::new(a), Box::new(b)) || e == AST::Div(Box::new(a), Box::new(b))),
        global_only(e),
    ensures
        comp(s, e) matches Some((s2, r)) ==> agrees_with(s, s2, r, type_of(e, s.symbols)),
    decreases e, 0int,
{
    lemma_agree(s, a);
    match comp(s, a) {
        Some((s1, Ok(_))) => {
            lemma_agree(s1, b);
        },
        _ => {},
    }
}

/// The agreement, for statements compiled in order.
proof fn lemma_agree_seq(s: CState, v: Seq<AST>)
    requires
        outside_functions(s),
        all_global_only(v),
    ensures
        comp_seq(s, v) matches Some((s2, r)) ==> agrees_with(s, s2, r, type_of_all(v, s.symbols)),
    decreases v, 0int,
{
    if v.len() > 0 {
        lemma_agree(s, v[0]);
        match comp(s, v[0]) {
            Some((s1, Ok(_))) => {
                lemma_agree_seq(s1, v.drop_first());
            },
            _ => {},
        }
    }
}

/// The checker and the compiler judge programs on globals alone alike:
/// compiled from the start with the globals `syms` already declared, a
/// program is accepted exactly when the checker accepts it against
/// `syms`, and then both give it the same type.
pub proof fn law_checker_agrees_with_compiler(syms: Seq<(String, Type)>, e: AST)
    requires
        global_only(e),
    ensures
        comp(CState { symbols: syms, ..initial_state() }, e) matches Some((_, r)) ==> (r is Ok <==> type_of(
            e,
            syms,
        ) is Ok) && (r is Ok ==> r == type_of(e, syms)),
{
    lemma_agree(CState { symbols: syms, ..initial_state() }, e);
}

} // verus!

use vstd::prelude::*;

use crate::ast::{Type, AST};
use crate::symtab::{lookup, NameMap};

verus! {

/// Why a program cannot be compiled.
#[derive(Debug)]
pub enum CompilationError {
    VariableNotDeclared(String),
    IncompatibleTypes,
}

/// What `{:?}` writes for a string: the text between double quotes, with
/// the characters that need it escaped.
pub uninterp spec fn debug_text(s: Seq<char>) -> Seq<char>;

/// Whether every character is an ASCII letter or digit, which `{:?}`
/// writes as it is.
pub open spec fn plain_text(s: Seq<char>) -> bool {
    forall|i: int|
        0 <= i < s.len() ==> ('a' <= #[trigger] s[i] <= 'z' || 'A' <= s[i] <= 'Z' || '0' <= s[i] <= '9')
}

/// The `Debug` text of a string: std's `<str as Debug>::fmt` through
/// `format!`. Its documentation says it quotes the string and escapes each
/// character with `char::escape_debug`, which leaves ASCII letters and
/// digits as they are; that is all this contract claims.
#[verifier::external_body]
fn string_debug(s: &String) -> (r: String)
    ensures
        r@ == debug_text(s@),
        plain_text(s@) ==> r@ == seq!['"'] + s@ + seq!['"'],
{
    format!("{:?}", s)
}

/// The message of a compilation error.
pub open spec fn message_text(e: CompilationError) -> Seq<char> {
    "invalid program, can't compile: "@ + match e {
        CompilationError::VariableNotDeclared(n) => "VariableNotDeclared("@ + debug_text(n@) + ")"@,
        CompilationError::IncompatibleTypes => "IncompatibleTypes"@,
    }
}

impl CompilationError {
    /// The message of the error, as the compiler reports it.
    pub fn message(&self) -> (s: String)
        ensures
            s@ == message_text(*self),
            self matches CompilationError::VariableNotDeclared(n) ==> (plain_text(n@) ==> s@
                == "invalid program, can't compile: VariableNotDeclared("@ + seq!['"'] + n@ + seq!['"'] + ")"@),
    {
        let mut s = String::from_str("invalid program, can't compile: ");
        match self {
            CompilationError::VariableNotDeclared(n) => {
                s.append("VariableNotDeclared(");
                let d = string_debug(n);
                s.append(d.as_str());
                s.append(")");
                proof {
                    reveal_strlit("invalid program, can't compile: ");
                    reveal_strlit("VariableNotDeclared(");
                    reveal_strlit("invalid program, can't compile: VariableNotDeclared(");
                    assert("invalid program, can't compile: "@ + "VariableNotDeclared("@
                        =~= "invalid program, can't compile: VariableNotDeclared("@);
                    if plain_text(n@) {
                        assert(s@ =~= "invalid program, can't compile: VariableNotDeclared("@ + seq!['"'] + n@
                            + seq!['"'] + ")"@);
                    }
                }
            },
            CompilationError::IncompatibleTypes => {
                s.append("IncompatibleTypes");
            },
        }
        s
    }
}

/// The outcome of typing a node: its type, if it has a value, or an error.
pub type TypeResult = Result<Option<Type>, CompilationError>;

/// Typing of a binary arithmetic node from the typing of its operands: both
/// must be `int`; any other outcome, an error in an operand included, is
/// `IncompatibleTypes`.
pub open spec fn arith_type(ta: TypeResult, tb: TypeResult) -> TypeResult {
    match (ta, tb) {
        (Ok(Some(Type::INT)), Ok(Some(Type::INT))) => Ok(Some(Type::INT)),
        _ => Err(CompilationError::IncompatibleTypes),
    }
}

/// The typing of `ast` against the global symbols `syms`. Nodes that the
/// checker does not know (comparisons, boolean operators, control flow,
/// functions) are `IncompatibleTypes`.
pub open spec fn type_of(ast: AST, syms: Seq<(String, Type)>) -> TypeResult
    decreases ast,
{
    match ast {
        AST::Number(_) => Ok(Some(Type::INT)),
        AST::Bool(_) => Ok(Some(Type::BOOL)),
        AST::Add(a, b) => arith_type(type_of(*a, syms), type_of(*b, syms)),
        AST::Sub(a, b) => arith_type(type_of(*a, syms), type_of(*b, syms)),
        AST::Mul(a, b) => arith_type(type_of(*a, syms), type_of(*b, syms)),
        AST::Div(a, b) => arith_type(type_of(*a, syms), type_of(*b, syms)),
        AST::Many(v) => type_of_all(v@, syms),
        AST::Block(v) => type_of_all(v@, syms),
        AST::DeclareVar(_, _) => Ok(None),
        AST::GetVar(name) => match lookup(syms, name@) {
            Some(t) => Ok(Some(t)),
            None => Err(CompilationError::VariableNotDeclared(name)),
        },
        AST::AssignVar(name, e) => match lookup(syms, name@) {
            None => Err(CompilationError::VariableNotDeclared(name)),
            Some(a) => match type_of(*e, syms) {
                Err(err) => Err(err),
                Ok(None) => Err(CompilationError::IncompatibleTypes),
                Ok(Some(x)) => if x == a {
                    Ok(Some(x))
                } else {
                    Err(CompilationError::IncompatibleTypes)
                },
            },
        },
        _ => Err(CompilationError::IncompatibleTypes),
    }
}

/// Typing of a sequence: the first error, else no value.
pub open spec fn type_of_all(s: Seq<AST>, syms: Seq<(String, Type)>) -> TypeResult
    decreases s,
{
    if s.len() == 0 {
        Ok(None)
    } else {
        match type_of(s[0], syms) {
            Err(e) => Err(e),
            Ok(_) => type_of_all(s.drop_first(), syms),
        }
    }
}

/// `type_of_all` is the error of the first statement that fails, else no
/// value.
proof fn lemma_type_of_all(s: Seq<AST>, syms: Seq<(String, Type)>)
    ensures
        (forall|i: int| 0 <= i < s.len() ==> #[trigger] type_of(s[i], syms) is Ok) ==> type_of_all(s, syms)
            == Ok::<Option<Type>, CompilationError>(None),
        forall|i: int|
            0 <= i < s.len() && #[trigger] type_of(s[i], syms) is Err && (forall|j: int|
                0 <= j < i ==> type_of(s[j], syms) is Ok) ==> type_of_all(s, syms) == type_of(s[i], syms),
    decreases s.len(),
{
    if s.len() > 0 {
        let r = s.drop_first();
        lemma_type_of_all(r, syms);
        assert forall|i: int| 0 < i < s.len() implies #[trigger] s[i] == r[i - 1] by {}
        if forall|i: int| 0 <= i < s.len() ==> #[trigger] type_of(s[i], syms) is Ok {
            assert(type_of(s[0], syms) is Ok);
            assert forall|i: int| 0 <= i < r.len() implies #[trigger] type_of(r[i], syms) is Ok by {
                assert(s[i + 1] == r[i]);
                assert(type_of(s[i + 1], syms) is Ok);
            }
        }
        assert forall|i: int|
            0 <= i < s.len() && #[trigger] type_of(s[i], syms) is Err && (forall|j: int|
                0 <= j < i ==> type_of(s[j], syms) is Ok) implies type_of_all(s, syms) == type_of(s[i], syms) by {
            if i > 0 {
                assert(type_of(s[0], syms) is Ok);
                assert(s[i] == r[i - 1]);
                assert forall|j: int| 0 <= j < i - 1 implies type_of(r[j], syms) is Ok by {
                    assert(s[j + 1] == r[j]);
                    assert(type_of(s[j + 1], syms) is Ok);
                }
                assert(type_of(r[i - 1], syms) is Err);
            }
        }
    }
}

/// Typing a sequence: when every statement types without error, the
/// sequence has no value; otherwise its result is the error of the first
/// statement whose typing fails. A block is typed as the sequence of its
/// statements.
pub proof fn law_sequence_typing(v: Vec<AST>, syms: Seq<(String, Type)>)
    ensures
        type_of(AST::Block(v), syms) == type_of(AST::Many(v), syms),
        (forall|i: int| 0 <= i < v@.len() ==> #[trigger] type_of(v@[i], syms) is Ok) ==> type_of(AST::Many(v), syms)
            == Ok::<Option<Type>, CompilationError>(None),
        forall|i: int|
            0 <= i < v@.len() && #[trigger] type_of(v@[i], syms) is Err && (forall|j: int|
                0 <= j < i ==> type_of(v@[j], syms) is Ok) ==> type_of(AST::Many(v), syms) == type_of(v@[i], syms),
{
    lemma_type_of_all(v@, syms);
}

/// Checks the types of a program against the global symbols.
pub fn types(ast: &AST, symbols: &NameMap<Type>) -> (r: TypeResult)
    ensures
        r == type_of(*ast, symbols@),
    decreases ast, 1int,
{
    match ast {
        AST::Number(_) => Ok(Some(Type::INT)),
        AST::Bool(_) => Ok(Some(Type::BOOL)),
        AST::Add(a, b) => arith(types(a, symbols), types(b, symbols)),
        AST::Sub(a, b) => arith(types(a, symbols), types(b, symbols)),
        AST::Mul(a, b) => arith(types(a, symbols), types(b, symbols)),
        AST::Div(a, b) => arith(types(a, symbols), types(b, symbols)),
        AST::Many(v) => types_all(ast, v, symbols),
        AST::Block(v) => types_all(ast, v, symbols),
        AST::DeclareVar(_, _) => Ok(None),
        AST::GetVar(name) => match symbols.get(name) {
            Some(t) => Ok(Some(*t)),
            None => Err(CompilationError::VariableNotDeclared(name.clone())),
        },
        AST::AssignVar(name, e) => {
            let a = match symbols.get(name) {
                Some(t) => *t,
                None => {
                    return Err(CompilationError::VariableNotDeclared(name.clone()));
                },
            };
            let b = types(e, symbols)?;
            match b {
                None => Err(CompilationError::IncompatibleTypes),
                Some(x) => {
                    if x == a {
                        Ok(Some(x))
                    } else {
                        Err(CompilationError::IncompatibleTypes)
                    }
                },
            }
        },
        _ => Err(CompilationError::IncompatibleTypes),
    }
}

/// Combines the typing of the operands of an arithmetic node.
fn arith(ta: TypeResult, tb: TypeResult) -> (r: TypeResult)
    ensures
        r == arith_type(ta, tb),
{
    match (ta, tb) {
        (Ok(Some(Type::INT)), Ok(Some(Type::INT))) => Ok(Some(Type::INT)),
        _ => Err(CompilationError::IncompatibleTypes),
    }
}

/// Types the statements `v` of the sequence node `ast` in order, stopping
/// at the first error.
fn types_all(ast: &AST, v: &Vec<AST>, symbols: &NameMap<Type>) -> (r: TypeResult)
    requires
        *ast == AST::Many(*v) || *ast == AST::Block(*v),
    ensures
        r == type_of_all(v@, symbols@),
    decreases ast, 0int,
{
    assert(v@.subrange(0, v@.len() as int) =~= v@);
    let mut i: usize = 0;
    while i < v.len()
        invariant
            i <= v@.len(),
            *ast == AST::Many(*v) || *ast == AST::Block(*v),
            type_of_all(v@, symbols@) == type_of_all(v@.subrange(i as int, v@.len() as int), symbols@),
        decreases v@.len() - i,
    {
        let ghost rest = v@.subrange(i as int, v@.len() as int);
        assert(rest[0] == v@[i as int]);
        assert(rest.drop_first() =~= v@.subrange(i + 1, v@.len() as int));
        assert(decreases_to!(*v => v[i as int]));
        assert(decreases_to!(*ast => ast->Many_0) || decreases_to!(*ast => ast->Block_0));
        assert(decreases_to!(*ast => v@[i as int]));
        types(&v[i], symbols)?;
        i = i + 1;
    }
    assert(v@.subrange(i as int, v@.len() as int) =~= Seq::<AST>::empty());
    Ok(None)
}

} // verus!

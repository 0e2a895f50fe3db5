use vstd::prelude::*;

verus! {

/// The value types of MicroC.
#[derive(Debug, Clone, Copy, PartialEq, Eq, Structural)]
pub enum Type {
    INT,
    BOOL,
}

impl Type {
    /// Size in bytes of a value of this type in memory.
    pub open spec fn spec_size(self) -> u32 {
        match self {
            Type::INT => 4,
            Type::BOOL => 1,
        }
    }

    /// The size in bytes of the type.
    pub fn size(&self) -> (r: u32)
        ensures
            r == self.spec_size(),
    {
        match self {
            Type::INT => 4,
            Type::BOOL => 1,
        }
    }

    /// The keyword that names the type in source text (`int` or `bool`).
    pub open spec fn spec_name(self) -> Seq<char> {
        match self {
            Type::INT => "int"@,
            Type::BOOL => "bool"@,
        }
    }

    /// The keyword that names the type in source text.
    pub fn to_string(&self) -> (s: String)
        ensures
            s@ == self.spec_name(),
    {
        match self {
            Type::INT => String::from_str("int"),
            Type::BOOL => String::from_str("bool"),
        }
    }
}

impl From<Type> for u32 {
    fn from(t: Type) -> (r: u32) {
        t.size()
    }
}

impl vstd::std_specs::convert::FromSpecImpl<Type> for u32 {
    open spec fn obeys_from_spec() -> bool {
        true
    }

    open spec fn from_spec(t: Type) -> u32 {
        t.spec_size()
    }
}

/// Abstract syntax of MicroC programs.
#[derive(Debug)]
pub enum AST {
    Number(i32),
    Bool(bool),
    Add(Box<AST>, Box<AST>),
    Sub(Box<AST>, Box<AST>),
    Mul(Box<AST>, Box<AST>),
    Div(Box<AST>, Box<AST>),
    /// `a < b` on integers.
    Lesser(Box<AST>, Box<AST>),
    /// `a && b`.
    BoolAnd(Box<AST>, Box<AST>),
    /// `a || b`.
    BoolOr(Box<AST>, Box<AST>),
    AssignVar(String, Box<AST>),
    GetVar(String),
    DeclareVar(String, Type),
    /// Executes multiple expressions and returns the value of the last.
    Many(Vec<AST>),
    /// A braced block: like `Many`, but it opens a scope for variables.
    Block(Vec<AST>),
    /// `if (cond) block [else block]`.
    If(Box<AST>, Box<AST>, Option<Box<AST>>),
    /// `while (cond) block`.
    While(Box<AST>, Box<AST>),
    /// A function declaration: return type, name, parameters and body.
    FunDecl(Type, String, Vec<(String, Type)>, Box<AST>),
    /// A call of a function by name.
    FunCall(String, Vec<AST>),
}

/// The value of an expression under `AST::eval`, or `None` where evaluation
/// panics: a node that evaluation does not handle, an empty `Many`, a
/// division by zero, or a result outside `i32`. Only the last expression of a
/// `Many` is evaluated.
pub open spec fn eval_value(e: AST) -> Option<i32>
    decreases e,
{
    match e {
        AST::Number(x) => Some(x),
        AST::Add(a, b) => match (eval_value(*a), eval_value(*b)) {
            (Some(x), Some(y)) => x.checked_add(y),
            _ => None,
        },
        AST::Sub(a, b) => match (eval_value(*a), eval_value(*b)) {
            (Some(x), Some(y)) => x.checked_sub(y),
            _ => None,
        },
        AST::Mul(a, b) => match (eval_value(*a), eval_value(*b)) {
            (Some(x), Some(y)) => x.checked_mul(y),
            _ => None,
        },
        AST::Div(a, b) => match (eval_value(*a), eval_value(*b)) {
            (Some(x), Some(y)) => x.checked_div(y),
            _ => None,
        },
        AST::Many(v) => if v@.len() == 0 {
            None
        } else {
            eval_value(v@[v@.len() - 1])
        },
        _ => None,
    }
}

impl AST {
    /// Evaluates an arithmetic program directly, as a reference for the
    /// compiled code. Only numbers, the four operations and `Many` (whose
    /// last expression gives the value) are handled.
    pub fn eval(&self) -> (r: i32)
        requires
            eval_value(*self) is Some,
        ensures
            r == eval_value(*self)->0,
        decreases self,
    {
        match self {
            AST::Number(x) => *x,
            AST::Add(a, b) => a.eval() + b.eval(),
            AST::Sub(a, b) => a.eval() - b.eval(),
            AST::Mul(a, b) => a.eval() * b.eval(),
            AST::Div(a, b) => {
                let x = a.eval();
                let y = b.eval();
                x.checked_div(y).unwrap()
            },
            AST::Many(v) => {
                let last = v.len() - 1;
                v[last].eval()
            },
            _ => {
                proof {
                    assert(eval_value(*self) is None);
                }
                0
            },
        }
    }
}

} // verus!

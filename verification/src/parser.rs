use vstd::prelude::*;

use crate::ast::{Type, AST};

verus! {

/// Abstract syntax with names as character sequences: what a parse result
/// means.
pub enum SAst {
    Number(i32),
    Bool(bool),
    Add(Box<SAst>, Box<SAst>),
    Sub(Box<SAst>, Box<SAst>),
    Mul(Box<SAst>, Box<SAst>),
    Div(Box<SAst>, Box<SAst>),
    Lesser(Box<SAst>, Box<SAst>),
    BoolAnd(Box<SAst>, Box<SAst>),
    BoolOr(Box<SAst>, Box<SAst>),
    AssignVar(Seq<char>, Box<SAst>),
    GetVar(Seq<char>),
    DeclareVar(Seq<char>, Type),
    Many(Seq<SAst>),
    Block(Seq<SAst>),
    If(Box<SAst>, Box<SAst>, Option<Box<SAst>>),
    While(Box<SAst>, Box<SAst>),
    FunDecl(Type, Seq<char>, Seq<(Seq<char>, Type)>, Box<SAst>),
    FunCall(Seq<char>, Seq<SAst>),
}

/// The names and types of a parameter list.
pub open spec fn params_view(p: Seq<(String, Type)>) -> Seq<(Seq<char>, Type)> {
    Seq::new(p.len(), |i: int| (p[i].0@, p[i].1))
}

/// The meaning of a syntax tree.
pub open spec fn ast_view(a: AST) -> SAst
    decreases a,
{
    match a {
        AST::Number(x) => SAst::Number(x),
        AST::Bool(b) => SAst::Bool(b),
        AST::Add(x, y) => SAst::Add(Box::new(ast_view(*x)), Box::new(ast_view(*y))),
        AST::Sub(x, y) => SAst::Sub(Box::new(ast_view(*x)), Box::new(ast_view(*y))),
        AST::Mul(x, y) => SAst::Mul(Box::new(ast_view(*x)), Box::new(ast_view(*y))),
        AST::Div(x, y) => SAst::Div(Box::new(ast_view(*x)), Box::new(ast_view(*y))),
        AST::Lesser(x, y) => SAst::Lesser(Box::new(ast_view(*x)), Box::new(ast_view(*y))),
        AST::BoolAnd(x, y) => SAst::BoolAnd(Box::new(ast_view(*x)), Box::new(ast_view(*y))),
        AST::BoolOr(x, y) => SAst::BoolOr(Box::new(ast_view(*x)), Box::new(ast_view(*y))),
        AST::AssignVar(n, e) => SAst::AssignVar(n@, Box::new(ast_view(*e))),
        AST::GetVar(n) => SAst::GetVar(n@),
        AST::DeclareVar(n, t) => SAst::DeclareVar(n@, t),
        AST::Many(v) => SAst::Many(ast_view_all(v@)),
        AST::Block(v) => SAst::Block(ast_view_all(v@)),
        AST::If(c, b, e) => SAst::If(
            Box::new(ast_view(*c)),
            Box::new(ast_view(*b)),
            match e {
                Some(x) => Some(Box::new(ast_view(*x))),
                None => None,
            },
        ),
        AST::While(c, b) => SAst::While(Box::new(ast_view(*c)), Box::new(ast_view(*b))),
        AST::FunDecl(t, n, p, b) => SAst::FunDecl(t, n@, params_view(p@), Box::new(ast_view(*b))),
        AST::FunCall(n, v) => SAst::FunCall(n@, ast_view_all(v@)),
    }
}

/// The meanings of a sequence of syntax trees.
pub open spec fn ast_view_all(s: Seq<AST>) -> Seq<SAst>
    decreases s,
{
    if s.len() == 0 {
        Seq::empty()
    } else {
        seq![ast_view(s[0])] + ast_view_all(s.drop_first())
    }
}

/// The outcome of parsing from a position: the position after the parsed
/// text and its value, a failure (the next alternative is tried), or a
/// panic of the parser (a number literal outside `i32`).
pub enum PR<T> {
    Done(int, T),
    Fail,
    Panic,
}

// ---------------------------------------------------------------------
// Line handling

/// The lines of `s`, as `str::lines` gives them: split at `\n`, a `\r`
/// before the `\n` removed, no empty last line after a final `\n`.
pub open spec fn lines(s: Seq<char>) -> Seq<Seq<char>>
    decreases s.len(),
{
    if s.len() == 0 {
        Seq::empty()
    } else {
        let k = nl_index(s);
        proof {
            lemma_nl_index(s);
        }
        if k == s.len() {
            seq![s]
        } else {
            seq![strip_cr(s.take(k as int))] + lines(s.skip((k + 1) as int))
        }
    }
}

/// Position of the first `\n`, or the length.
pub open spec fn nl_index(s: Seq<char>) -> nat
    decreases s.len(),
{
    if s.len() == 0 {
        0
    } else if s[0] == '\n' {
        0
    } else {
        1 + nl_index(s.drop_first())
    }
}

/// `nl_index` is the position of the first `\n`.
pub proof fn lemma_nl_index(s: Seq<char>)
    ensures
        nl_index(s) <= s.len(),
        nl_index(s) < s.len() ==> s[nl_index(s) as int] == '\n',
        forall|j: int| 0 <= j < nl_index(s) ==> s[j] != '\n',
    decreases s.len(),
{
    if s.len() > 0 && s[0] != '\n' {
        lemma_nl_index(s.drop_first());
        assert forall|j: int| 0 <= j < nl_index(s) implies s[j] != '\n' by {
            if j > 0 {
                assert(s[j] == s.drop_first()[j - 1]);
            }
        }
    }
}

/// The line without a final `\r`.
pub open spec fn strip_cr(l: Seq<char>) -> Seq<char> {
    if l.len() > 0 && l.last() == '\r' {
        l.drop_last()
    } else {
        l
    }
}

/// Whether a line is kept: it is not empty and not a `//` comment.
pub open spec fn kept(l: Seq<char>) -> bool {
    l.len() > 0 && !(l.len() >= 2 && l[0] == '/' && l[1] == '/')
}

/// The kept lines, joined without separators.
pub open spec fn join_kept(ls: Seq<Seq<char>>) -> Seq<char>
    decreases ls.len(),
{
    if ls.len() == 0 {
        Seq::empty()
    } else {
        (if kept(ls[0]) {
            ls[0]
        } else {
            Seq::empty()
        }) + join_kept(ls.drop_first())
    }
}

/// The text the grammar reads: the kept lines of the input, joined.
pub open spec fn preprocess(s: Seq<char>) -> Seq<char> {
    join_kept(lines(s))
}

/// Joining the kept lines of two lists is joining each.
pub proof fn lemma_join_kept_append(l1: Seq<Seq<char>>, l2: Seq<Seq<char>>)
    ensures
        join_kept(l1 + l2) == join_kept(l1) + join_kept(l2),
    decreases l1.len(),
{
    if l1.len() == 0 {
        assert(l1 + l2 =~= l2);
    } else {
        assert((l1 + l2).drop_first() =~= l1.drop_first() + l2);
        lemma_join_kept_append(l1.drop_first(), l2);
        assert((l1 + l2)[0] == l1[0]);
    }
}

/// Text made of whole lines: empty, or ending with a line break.
pub open spec fn whole_lines(a: Seq<char>) -> bool {
    a.len() == 0 || a.last() == '\n'
}

/// The lines of whole lines followed by more text are the lines of each.
pub proof fn lemma_lines_append(a: Seq<char>, x: Seq<char>)
    requires
        whole_lines(a),
    ensures
        lines(a + x) == lines(a) + lines(x),
    decreases a.len(),
{
    if a.len() == 0 {
        assert(a + x =~= x);
        assert(lines(a) =~= Seq::<Seq<char>>::empty());
        assert(Seq::<Seq<char>>::empty() + lines(x) =~= lines(x));
    } else {
        let ax = a + x;
        lemma_nl_index(a);
        lemma_nl_index(ax);
        let k = nl_index(a);
        assert(k < a.len()) by {
            if k == a.len() {
                assert(a[a.len() - 1] == '\n');
            }
        }
        assert(nl_index(ax) == k) by {
            let j = nl_index(ax);
            if j < k {
                assert(ax[j as int] == a[j as int]);
            }
            assert(ax[k as int] == a[k as int]);
        }
        assert(ax.take(k as int) =~= a.take(k as int));
        let rest = a.skip((k + 1) as int);
        assert(ax.skip((k + 1) as int) =~= rest + x);
        assert(whole_lines(rest)) by {
            if rest.len() > 0 {
                assert(rest.last() == a.last());
            }
        }
        lemma_lines_append(rest, x);
        assert(lines(a + x) =~= lines(a) + lines(x));
    }
}

/// A dropped line (empty, or a line that starts with `//`) can be left out:
/// the grammar reads the same text without it, so the program parses to
/// the same tree, or fails to parse, alike.
pub proof fn law_dropped_line_is_ignored(a: Seq<char>, c: Seq<char>, b: Seq<char>)
    requires
        whole_lines(a),
        !c.contains('\n'),
        !kept(strip_cr(c)),
    ensures
        preprocess(a + c + "\n"@ + b) == preprocess(a + b),
        parsed(a + c + "\n"@ + b) == parsed(a + b),
{
    reveal_strlit("\n");
    let cb = c + "\n"@ + b;
    assert(a + c + "\n"@ + b =~= a + cb);
    lemma_lines_append(a, cb);
    lemma_lines_append(a, b);
    lemma_nl_index(cb);
    assert(nl_index(cb) == c.len()) by {
        let j = nl_index(cb);
        if j < c.len() {
            assert(cb[j as int] == c[j as int]);
        }
        assert(cb[c.len() as int] == '\n');
    }
    assert(cb.take(c.len() as int) =~= c);
    assert(cb.skip((c.len() + 1) as int) =~= b);
    assert(lines(cb) == seq![strip_cr(c)] + lines(b));
    lemma_join_kept_append(lines(a), lines(cb));
    lemma_join_kept_append(lines(a), lines(b));
    assert((seq![strip_cr(c)] + lines(b)).drop_first() =~= lines(b));
    assert(join_kept(lines(cb)) =~= join_kept(lines(b)));
}

// ---------------------------------------------------------------------
// Characters and tokens

/// `char::is_whitespace`: the Unicode `White_Space` characters.
pub open spec fn is_ws(c: char) -> bool {
    ||| '\u{9}' <= c <= '\u{d}'
    ||| c == ' '
    ||| c == '\u{85}'
    ||| c == '\u{a0}'
    ||| c == '\u{1680}'
    ||| '\u{2000}' <= c <= '\u{200a}'
    ||| c == '\u{2028}'
    ||| c == '\u{2029}'
    ||| c == '\u{202f}'
    ||| c == '\u{205f}'
    ||| c == '\u{3000}'
}

/// An ASCII letter.
pub open spec fn is_alpha(c: char) -> bool {
    ('a' <= c <= 'z') || ('A' <= c <= 'Z')
}

/// An ASCII digit.
pub open spec fn is_digit(c: char) -> bool {
    '0' <= c <= '9'
}

/// The position after the whitespace that starts at `i`.
pub open spec fn ws(s: Seq<char>, i: int) -> int
    decreases s.len() - i,
{
    if 0 <= i < s.len() && is_ws(s[i]) {
        ws(s, i + 1)
    } else {
        i
    }
}

/// The end of the run of letters that starts at `i`.
pub open spec fn alpha_end(s: Seq<char>, i: int) -> int
    decreases s.len() - i,
{
    if 0 <= i < s.len() && is_alpha(s[i]) {
        alpha_end(s, i + 1)
    } else {
        i
    }
}

/// The end of the run of digits that starts at `i`.
pub open spec fn digit_end(s: Seq<char>, i: int) -> int
    decreases s.len() - i,
{
    if 0 <= i < s.len() && is_digit(s[i]) {
        digit_end(s, i + 1)
    } else {
        i
    }
}

/// The value of the decimal digits `s[i..j]`.
pub open spec fn digits_value(s: Seq<char>, i: int, j: int) -> nat
    decreases j - i,
{
    if j <= i {
        0
    } else {
        digits_value(s, i, j - 1) * 10 + ((s[j - 1] as int) - ('0' as int)) as nat
    }
}

/// Whether `s` has the character `c` at `i`.
pub open spec fn char_at(s: Seq<char>, i: int, c: char) -> bool {
    0 <= i < s.len() && s[i] == c
}

/// Whether `s` has the text `t` at `i`.
pub open spec fn text_at(s: Seq<char>, i: int, t: Seq<char>) -> bool {
    0 <= i && i + t.len() <= s.len() && s.subrange(i, i + t.len()) == t
}

/// A name: letters after optional whitespace.
pub open spec fn p_symbol(s: Seq<char>, i: int) -> PR<Seq<char>> {
    let k = ws(s, i);
    let e = alpha_end(s, k);
    if e == k {
        PR::Fail
    } else {
        PR::Done(e, s.subrange(k, e))
    }
}

/// A type keyword: `int` or `bool`.
pub open spec fn p_type(s: Seq<char>, i: int) -> PR<Type> {
    if text_at(s, i, "int"@) {
        PR::Done(i + 3, Type::INT)
    } else if text_at(s, i, "bool"@) {
        PR::Done(i + 4, Type::BOOL)
    } else {
        PR::Fail
    }
}

/// A number literal after optional whitespace; a literal beyond `i32`
/// panics.
pub open spec fn p_number(s: Seq<char>, i: int) -> PR<i32> {
    let k = ws(s, i);
    let e = digit_end(s, k);
    if e == k {
        PR::Fail
    } else if digits_value(s, k, e) > i32::MAX {
        PR::Panic
    } else {
        PR::Done(e, digits_value(s, k, e) as i32)
    }
}

/// A boolean literal after optional whitespace.
pub open spec fn p_bool(s: Seq<char>, i: int) -> PR<bool> {
    let k = ws(s, i);
    if text_at(s, k, "true"@) {
        PR::Done(k + 4, true)
    } else if text_at(s, k, "false"@) {
        PR::Done(k + 5, false)
    } else {
        PR::Fail
    }
}

/// `ws` moves forward and stays in the text.
pub proof fn lemma_ws(s: Seq<char>, i: int)
    ensures
        i <= ws(s, i),
        0 <= i <= s.len() ==> ws(s, i) <= s.len(),
        0 <= i ==> (ws(s, i) < s.len() ==> !is_ws(s[ws(s, i)])),
        forall|j: int| i <= j < ws(s, i) ==> is_ws(#[trigger] s[j]),
    decreases s.len() - i,
{
    if 0 <= i < s.len() && is_ws(s[i]) {
        lemma_ws(s, i + 1);
    }
}

/// Positions only move forward: `j` is after `i` and inside the text.
pub open spec fn fwd(s: Seq<char>, i: int, j: int) -> bool {
    i < j <= s.len()
}

// ---------------------------------------------------------------------
// Expressions

/// The binary operators, from the loosest binding level (0) to the
/// tightest (4).
pub enum Op {
    Or,
    And,
    Less,
    Plus,
    Minus,
    Times,
    Divide,
}

/// The operator of level `l` at position `m`, and the position after it.
pub open spec fn op_at(s: Seq<char>, m: int, l: nat) -> Option<(int, Op)> {
    if l == 0 {
        if text_at(s, m, "||"@) {
            Some((m + 2, Op::Or))
        } else {
            None
        }
    } else if l == 1 {
        if text_at(s, m, "&&"@) {
            Some((m + 2, Op::And))
        } else {
            None
        }
    } else if l == 2 {
        if char_at(s, m, '<') {
            Some((m + 1, Op::Less))
        } else {
            None
        }
    } else if l == 3 {
        if char_at(s, m, '+') {
            Some((m + 1, Op::Plus))
        } else if char_at(s, m, '-') {
            Some((m + 1, Op::Minus))
        } else {
            None
        }
    } else if char_at(s, m, '*') {
        Some((m + 1, Op::Times))
    } else if char_at(s, m, '/') {
        Some((m + 1, Op::Divide))
    } else {
        None
    }
}

/// An operator lies inside the text and is not empty.
pub proof fn lemma_op_at(s: Seq<char>, m: int, l: nat)
    ensures
        op_at(s, m, l) matches Some((k, _)) ==> m < k <= s.len(),
{
    reveal_strlit("||");
    reveal_strlit("&&");
}

/// The node of a binary operation.
pub open spec fn combine(op: Op, a: SAst, b: SAst) -> SAst {
    match op {
        Op::Or => SAst::BoolOr(Box::new(a), Box::new(b)),
        Op::And => SAst::BoolAnd(Box::new(a), Box::new(b)),
        Op::Less => SAst::Lesser(Box::new(a), Box::new(b)),
        Op::Plus => SAst::Add(Box::new(a), Box::new(b)),
        Op::Minus => SAst::Sub(Box::new(a), Box::new(b)),
        Op::Times => SAst::Mul(Box::new(a), Box::new(b)),
        Op::Divide => SAst::Div(Box::new(a), Box::new(b)),
    }
}

/// An expression: `||` binds loosest, then `&&`, `<`, `+ -`, `* /`; all
/// associate to the left.
pub open spec fn p_expr(s: Seq<char>, i: int) -> PR<SAst>
    decreases s.len() - i, 31int,
{
    p_level(s, i, 0)
}

/// The operands of level `l` joined by its operators.
pub open spec fn p_level(s: Seq<char>, i: int, l: nat) -> PR<SAst>
    decreases s.len() - i, 30 - 2 * (if l > 5 { 5 } else { l }),
{
    if l >= 5 {
        p_primary(s, i)
    } else {
        match p_level(s, i, l + 1) {
            PR::Done(j, first) => if i <= j <= s.len() {
                p_level_rest(s, j, l, first)
            } else {
                PR::Fail
            },
            other => other,
        }
    }
}

/// Further `op operand` pairs of level `l` after the value `acc`.
pub open spec fn p_level_rest(s: Seq<char>, i: int, l: nat, acc: SAst) -> PR<SAst>
    decreases s.len() - i, 29 - 2 * (if l > 5 { 5 } else { l }),
{
    if l >= 5 || i < 0 || i > s.len() {
        PR::Fail
    } else {
        let m = ws(s, i);
        proof {
            lemma_ws(s, i);
            lemma_op_at(s, m, l);
        }
        match op_at(s, m, l) {
            None => PR::Done(i, acc),
            Some((k, op)) => match p_level(s, k, l + 1) {
                PR::Done(j, rhs) => if fwd(s, i, j) {
                    p_level_rest(s, j, l, combine(op, acc, rhs))
                } else {
                    PR::Fail
                },
                PR::Fail => PR::Done(i, acc),
                PR::Panic => PR::Panic,
            },
        }
    }
}

/// A primary expression: a boolean, a number, a parenthesized expression,
/// a call, or a variable.
pub open spec fn p_primary(s: Seq<char>, i: int) -> PR<SAst>
    decreases s.len() - i, 10int,
{
    if i < 0 || i > s.len() {
        PR::Fail
    } else {
        let k = ws(s, i);
        proof {
            lemma_ws(s, i);
        }
        match p_bool(s, k) {
            PR::Done(j, b) => PR::Done(j, SAst::Bool(b)),
            _ => match p_number(s, k) {
                PR::Done(j, x) => PR::Done(j, SAst::Number(x)),
                PR::Panic => PR::Panic,
                PR::Fail => {
                    let paren = if char_at(s, k, '(') {
                        match p_expr(s, k + 1) {
                            PR::Done(j, e) => if char_at(s, ws(s, j), ')') {
                                PR::Done(ws(s, j) + 1, e)
                            } else {
                                PR::Fail
                            },
                            other => other,
                        }
                    } else {
                        PR::Fail
                    };
                    match paren {
                        PR::Fail => match p_symbol(s, k) {
                            PR::Done(j, name) => {
                                let m = ws(s, j);
                                let call = if char_at(s, m, '(') && fwd(s, i, m + 1) {
                                    match p_args(s, m + 1) {
                                        PR::Done(j2, args) => if char_at(s, ws(s, j2), ')') {
                                            PR::Done(ws(s, j2) + 1, SAst::FunCall(name, args))
                                        } else {
                                            PR::Fail
                                        },
                                        PR::Fail => PR::Fail,
                                        PR::Panic => PR::Panic,
                                    }
                                } else {
                                    PR::Fail
                                };
                                match call {
                                    PR::Fail => PR::Done(j, SAst::GetVar(name)),
                                    other => other,
                                }
                            },
                            _ => PR::Fail,
                        },
                        other => other,
                    }
                },
            },
        }
    }
}

/// The arguments of a call: expressions separated by commas, possibly none.
pub open spec fn p_args(s: Seq<char>, i: int) -> PR<Seq<SAst>>
    decreases s.len() - i, 33int,
{
    if i < 0 || i > s.len() {
        PR::Fail
    } else {
        match p_expr(s, i) {
            PR::Done(j, e) => if i <= j <= s.len() {
                p_args_rest(s, j, seq![e])
            } else {
                PR::Fail
            },
            PR::Fail => PR::Done(i, Seq::empty()),
            PR::Panic => PR::Panic,
        }
    }
}

/// Further `, expression` pairs after the arguments `acc`.
pub open spec fn p_args_rest(s: Seq<char>, i: int, acc: Seq<SAst>) -> PR<Seq<SAst>>
    decreases s.len() - i, 32int,
{
    if i < 0 || i > s.len() {
        PR::Fail
    } else {
        let m = ws(s, i);
        proof {
            lemma_ws(s, i);
        }
        if char_at(s, m, ',') {
            match p_expr(s, m + 1) {
                PR::Done(j, e) => if fwd(s, i, j) {
                    p_args_rest(s, j, acc.push(e))
                } else {
                    PR::Fail
                },
                PR::Fail => PR::Done(i, acc),
                PR::Panic => PR::Panic,
            }
        } else {
            PR::Done(i, acc)
        }
    }
}

// ---------------------------------------------------------------------
// Statements

/// A parameter: a type and a name.
pub open spec fn p_param(s: Seq<char>, i: int) -> PR<(Seq<char>, Type)> {
    match p_type(s, ws(s, i)) {
        PR::Done(k, t) => match p_symbol(s, k) {
            PR::Done(j, name) => PR::Done(j, (name, t)),
            _ => PR::Fail,
        },
        _ => PR::Fail,
    }
}

/// Parameters separated by commas, possibly none.
pub open spec fn p_params(s: Seq<char>, i: int) -> PR<Seq<(Seq<char>, Type)>> {
    match p_param(s, i) {
        PR::Done(j, p) => if i <= j <= s.len() {
            p_params_rest(s, j, seq![p])
        } else {
            PR::Fail
        },
        _ => PR::Done(i, Seq::empty()),
    }
}

/// Further `, parameter` pairs after the parameters `acc`.
pub open spec fn p_params_rest(s: Seq<char>, i: int, acc: Seq<(Seq<char>, Type)>) -> PR<Seq<(Seq<char>, Type)>>
    decreases s.len() - i,
{
    if i < 0 || i > s.len() {
        PR::Fail
    } else {
        let m = ws(s, i);
        proof {
            lemma_ws(s, i);
        }
        if char_at(s, m, ',') {
            match p_param(s, m + 1) {
                PR::Done(j, p) => if fwd(s, i, j) {
                    p_params_rest(s, j, acc.push(p))
                } else {
                    PR::Fail
                },
                _ => PR::Done(i, acc),
            }
        } else {
            PR::Done(i, acc)
        }
    }
}

/// Statements one after another, as many as parse (possibly none).
pub open spec fn p_stmts(s: Seq<char>, i: int, acc: Seq<SAst>) -> PR<Seq<SAst>>
    decreases s.len() - i, 60int,
{
    if i < 0 || i > s.len() {
        PR::Fail
    } else {
        match p_stmt(s, i) {
            PR::Done(j, st) => if fwd(s, i, j) {
                p_stmts(s, j, acc.push(st))
            } else {
                PR::Fail
            },
            PR::Fail => PR::Done(i, acc),
            PR::Panic => PR::Panic,
        }
    }
}

/// A statement: a block, a function declaration, an `if`, a `while`, a
/// variable declaration, an assignment, or an expression followed by `;`.
/// The first form that parses is taken.
pub open spec fn p_stmt(s: Seq<char>, i: int) -> PR<SAst>
    decreases s.len() - i, 50int,
{
    if i < 0 || i > s.len() {
        PR::Fail
    } else {
        match p_block(s, i) {
            PR::Fail => match p_fundecl(s, i) {
                PR::Fail => match p_if(s, i) {
                    PR::Fail => match p_while(s, i) {
                        PR::Fail => match p_declare(s, i) {
                            PR::Fail => match p_assign(s, i) {
                                PR::Fail => p_expr_stmt(s, i),
                                other => other,
                            },
                            other => other,
                        },
                        other => other,
                    },
                    other => other,
                },
                other => other,
            },
            other => other,
        }
    }
}

/// `{ statements }`.
pub open spec fn p_block(s: Seq<char>, i: int) -> PR<SAst>
    decreases s.len() - i, 40int,
{
    if i < 0 || i > s.len() {
        PR::Fail
    } else {
        let k = ws(s, i);
        proof {
            lemma_ws(s, i);
        }
        if char_at(s, k, '{') {
            match p_stmts(s, k + 1, Seq::empty()) {
                PR::Done(j, v) => if char_at(s, ws(s, j), '}') {
                    PR::Done(ws(s, j) + 1, SAst::Block(v))
                } else {
                    PR::Fail
                },
                PR::Fail => PR::Fail,
                PR::Panic => PR::Panic,
            }
        } else {
            PR::Fail
        }
    }
}

/// `type name ( parameters ) block`.
pub open spec fn p_fundecl(s: Seq<char>, i: int) -> PR<SAst>
    decreases s.len() - i, 40int,
{
    match p_type(s, ws(s, i)) {
        PR::Done(k, t) => match p_symbol(s, k) {
            PR::Done(k2, name) => if char_at(s, ws(s, k2), '(') {
                match p_params(s, ws(s, k2) + 1) {
                    PR::Done(j, ps) => {
                        let m = ws(s, j);
                        if char_at(s, m, ')') && fwd(s, i, m + 1) {
                            match p_block(s, m + 1) {
                                PR::Done(j2, body) => PR::Done(j2, SAst::FunDecl(t, name, ps, Box::new(body))),
                                other => other,
                            }
                        } else {
                            PR::Fail
                        }
                    },
                    _ => PR::Fail,
                }
            } else {
                PR::Fail
            },
            _ => PR::Fail,
        },
        _ => PR::Fail,
    }
}

/// `( expression )` followed by a block: the condition and body of `if`
/// and `while`, from the position of the `(`.
pub open spec fn p_cond_block(s: Seq<char>, i: int, m: int) -> PR<(SAst, SAst)>
    decreases s.len() - i, 39int,
{
    if char_at(s, m, '(') && fwd(s, i, m + 1) {
        match p_expr(s, m + 1) {
            PR::Done(j, c) => {
                let m2 = ws(s, j);
                if char_at(s, m2, ')') && fwd(s, i, m2 + 1) {
                    match p_block(s, m2 + 1) {
                        PR::Done(j2, b) => PR::Done(j2, (c, b)),
                        PR::Fail => PR::Fail,
                        PR::Panic => PR::Panic,
                    }
                } else {
                    PR::Fail
                }
            },
            PR::Fail => PR::Fail,
            PR::Panic => PR::Panic,
        }
    } else {
        PR::Fail
    }
}

/// `if ( expression ) block`, optionally followed by `else block`.
pub open spec fn p_if(s: Seq<char>, i: int) -> PR<SAst>
    decreases s.len() - i, 40int,
{
    let k = ws(s, i);
    if text_at(s, k, "if"@) {
        match p_cond_block(s, i, ws(s, k + 2)) {
            PR::Done(j, (c, b)) => {
                let m = ws(s, j);
                let els = if text_at(s, m, "else"@) && fwd(s, i, m + 4) {
                    p_block(s, m + 4)
                } else {
                    PR::Fail
                };
                match els {
                    PR::Done(j2, eb) => PR::Done(j2, SAst::If(Box::new(c), Box::new(b), Some(Box::new(eb)))),
                    PR::Fail => PR::Done(j, SAst::If(Box::new(c), Box::new(b), None)),
                    PR::Panic => PR::Panic,
                }
            },
            PR::Fail => PR::Fail,
            PR::Panic => PR::Panic,
        }
    } else {
        PR::Fail
    }
}

/// `while ( expression ) block`.
pub open spec fn p_while(s: Seq<char>, i: int) -> PR<SAst>
    decreases s.len() - i, 40int,
{
    let k = ws(s, i);
    if text_at(s, k, "while"@) {
        match p_cond_block(s, i, ws(s, k + 5)) {
            PR::Done(j, (c, b)) => PR::Done(j, SAst::While(Box::new(c), Box::new(b))),
            PR::Fail => PR::Fail,
            PR::Panic => PR::Panic,
        }
    } else {
        PR::Fail
    }
}

/// `type name ;`.
pub open spec fn p_declare(s: Seq<char>, i: int) -> PR<SAst> {
    match p_type(s, ws(s, i)) {
        PR::Done(k, t) => match p_symbol(s, k) {
            PR::Done(j, name) => if char_at(s, ws(s, j), ';') {
                PR::Done(ws(s, j) + 1, SAst::DeclareVar(name, t))
            } else {
                PR::Fail
            },
            _ => PR::Fail,
        },
        _ => PR::Fail,
    }
}

/// `name = expression ;`.
pub open spec fn p_assign(s: Seq<char>, i: int) -> PR<SAst>
    decreases s.len() - i, 40int,
{
    match p_symbol(s, i) {
        PR::Done(k, name) => {
            let m = ws(s, k);
            if char_at(s, m, '=') && fwd(s, i, m + 1) {
                match p_expr(s, m + 1) {
                    PR::Done(j, e) => if char_at(s, ws(s, j), ';') {
                        PR::Done(ws(s, j) + 1, SAst::AssignVar(name, Box::new(e)))
                    } else {
                        PR::Fail
                    },
                    other => other,
                }
            } else {
                PR::Fail
            }
        },
        _ => PR::Fail,
    }
}

/// `expression ;`.
pub open spec fn p_expr_stmt(s: Seq<char>, i: int) -> PR<SAst>
    decreases s.len() - i, 40int,
{
    if i < 0 || i > s.len() {
        PR::Fail
    } else {
        match p_expr(s, i) {
            PR::Done(j, e) => if char_at(s, ws(s, j), ';') {
                PR::Done(ws(s, j) + 1, e)
            } else {
                PR::Fail
            },
            other => other,
        }
    }
}

/// A program: one or more statements, read from the start of the text;
/// what follows the last statement that parses is ignored.
pub open spec fn p_program(s: Seq<char>) -> PR<SAst> {
    match p_stmts(s, 0, Seq::empty()) {
        PR::Done(j, v) => if v.len() == 0 {
            PR::Fail
        } else {
            PR::Done(j, SAst::Many(v))
        },
        PR::Fail => PR::Fail,
        PR::Panic => PR::Panic,
    }
}

// ---------------------------------------------------------------------
// The parser

/// Why the parser stops: a number literal that does not fit in `i32`.
#[derive(Debug, Clone, Copy, PartialEq, Eq, Structural)]
pub enum ParseStop {
    NumberOutOfRange,
}

/// The outcome of a parsing function: the position after what it parsed
/// and its value, `None` where it does not parse, or the reason it stops.
pub type PResult<T> = Result<Option<(usize, T)>, ParseStop>;

/// An executable parse result agrees with a specified one.
pub open spec fn agrees(r: PResult<AST>, p: PR<SAst>) -> bool {
    match p {
        PR::Done(j, v) => match r {
            Ok(Some((j2, a))) => j2 == j && ast_view(a) == v,
            _ => false,
        },
        PR::Fail => r matches Ok(None),
        PR::Panic => r is Err,
    }
}

/// An executable list of parse results agrees with a specified one.
pub open spec fn agrees_all(r: PResult<Vec<AST>>, p: PR<Seq<SAst>>) -> bool {
    match p {
        PR::Done(j, v) => match r {
            Ok(Some((j2, a))) => j2 == j && ast_view_all(a@) == v,
            _ => false,
        },
        PR::Fail => r matches Ok(None),
        PR::Panic => r is Err,
    }
}

/// The views of a sequence grow with it.
pub proof fn lemma_view_all_push(s: Seq<AST>, x: AST)
    ensures
        ast_view_all(s.push(x)) == ast_view_all(s).push(ast_view(x)),
    decreases s.len(),
{
    if s.len() == 0 {
        assert(s.push(x).drop_first() =~= Seq::<AST>::empty());
        assert(ast_view_all(Seq::<AST>::empty()) =~= Seq::<SAst>::empty());
    } else {
        lemma_view_all_push(s.drop_first(), x);
        assert(s.push(x).drop_first() =~= s.drop_first().push(x));
    }
}

fn is_ws_char(c: char) -> (r: bool)
    ensures
        r == is_ws(c),
{
    ('\u{9}' <= c && c <= '\u{d}') || c == ' ' || c == '\u{85}' || c == '\u{a0}' || c == '\u{1680}'
        || ('\u{2000}' <= c && c <= '\u{200a}') || c == '\u{2028}' || c == '\u{2029}' || c
        == '\u{202f}' || c == '\u{205f}' || c == '\u{3000}'
}

/// The text being parsed, as a string (for the names cut from it) and as
/// characters.
pub struct Source {
    text: String,
    chars: Vec<char>,
}

impl View for Source {
    type V = Seq<char>;

    closed spec fn view(&self) -> Seq<char> {
        self.chars@
    }
}

impl Source {
    pub closed spec fn wf(&self) -> bool {
        &&& self.text@ == self.chars@
        &&& self.chars@.len() <= usize::MAX
    }

    /// The source of `text`.
    pub fn new(text: String) -> (src: Source)
        ensures
            src.wf(),
            src@ == text@,
    {
        let mut chars: Vec<char> = Vec::new();
        proof {
            broadcast use vstd::string::group_string_axioms;
        }
        let ghost t = text@;
        for c in it: text.as_str().chars()
            invariant
                it.seq() == t,
                chars@ == t.take(it.index() as int),
        {
            chars.push(c);
            proof {
                assert(chars@ =~= t.take(it.index() as int + 1));
            }
        }
        proof {
            assert(chars@ =~= t);
        }
        let _n = chars.len();
        Source { text: text, chars: chars }
    }

    /// The number of characters.
    pub fn len(&self) -> (n: usize)
        ensures
            n == self@.len(),
    {
        self.chars.len()
    }

    fn ws(&self, i: usize) -> (r: usize)
        requires
            self.wf(),
            i <= self@.len(),
        ensures
            r == ws(self@, i as int),
            i <= r <= self@.len(),
    {
        proof {
            lemma_ws(self@, i as int);
        }
        let mut k = i;
        while k < self.chars.len() && is_ws_char(self.chars[k])
            invariant
                i <= k <= self@.len(),
                ws(self@, i as int) == ws(self@, k as int),
            decreases self@.len() - k,
        {
            k = k + 1;
        }
        k
    }

    fn alpha_end(&self, i: usize) -> (r: usize)
        requires
            self.wf(),
            i <= self@.len(),
        ensures
            r == alpha_end(self@, i as int),
            i <= r <= self@.len(),
    {
        let mut k = i;
        while k < self.chars.len() && (('a' <= self.chars[k] && self.chars[k] <= 'z') || ('A'
            <= self.chars[k] && self.chars[k] <= 'Z'))
            invariant
                i <= k <= self@.len(),
                alpha_end(self@, i as int) == alpha_end(self@, k as int),
            decreases self@.len() - k,
        {
            k = k + 1;
        }
        k
    }

    fn digit_end(&self, i: usize) -> (r: usize)
        requires
            self.wf(),
            i <= self@.len(),
        ensures
            r == digit_end(self@, i as int),
            i <= r <= self@.len(),
            forall|j: int| i <= j < r ==> is_digit(#[trigger] self@[j]),
    {
        let mut k = i;
        while k < self.chars.len() && '0' <= self.chars[k] && self.chars[k] <= '9'
            invariant
                i <= k <= self@.len(),
                digit_end(self@, i as int) == digit_end(self@, k as int),
                forall|j: int| i <= j < k ==> is_digit(#[trigger] self@[j]),
            decreases self@.len() - k,
        {
            k = k + 1;
        }
        k
    }

    fn char_at(&self, i: usize, c: char) -> (r: bool)
        ensures
            r == char_at(self@, i as int, c),
    {
        i < self.chars.len() && self.chars[i] == c
    }

    fn text_at(&self, i: usize, t: &str) -> (r: bool)
        requires
            self.wf(),
        ensures
            r == text_at(self@, i as int, t@),
    {
        let n = t.unicode_len();
        if i > self.chars.len() || n > self.chars.len() - i {
            return false;
        }
        let mut k: usize = 0;
        while k < n
            invariant
                k <= n,
                n == t@.len(),
                i + n <= self@.len(),
                self.wf(),
                forall|j: int| 0 <= j < k ==> self@[i + j] == t@[j],
            decreases n - k,
        {
            if self.chars[i + k] != t.get_char(k) {
                proof {
                    assert(self@.subrange(i as int, i + n)[k as int] != t@[k as int]);
                }
                return false;
            }
            k = k + 1;
        }
        proof {
            assert(self@.subrange(i as int, i + n) =~= t@);
        }
        true
    }

    /// The name `self[k..e]`.
    fn name(&self, k: usize, e: usize) -> (r: String)
        requires
            self.wf(),
            k <= e <= self@.len(),
        ensures
            r@ == self@.subrange(k as int, e as int),
    {
        String::from_str(self.text.as_str().substring_char(k, e))
    }

    /// Parses a name (letters) at `i`, after white space.
    pub fn p_symbol(&self, i: usize) -> (r: Option<(usize, String)>)
        requires
            self.wf(),
            i <= self@.len(),
        ensures
            match p_symbol(self@, i as int) {
                PR::Done(j, n) => match r {
                    Some((j2, a)) => j2 == j && a@ == n,
                    None => false,
                },
                _ => r is None,
            },
            r matches Some((j, _)) ==> i < j <= self@.len(),
    {
        proof {
            lemma_ws(self@, i as int);
        }
        let k = self.ws(i);
        let e = self.alpha_end(k);
        if e == k {
            None
        } else {
            Some((e, self.name(k, e)))
        }
    }

    /// Parses a type keyword (`int` or `bool`) right at `i`.
    pub fn p_type(&self, i: usize) -> (r: Option<(usize, Type)>)
        requires
            self.wf(),
            i <= self@.len(),
        ensures
            match p_type(self@, i as int) {
                PR::Done(j, t) => r == Some((j as usize, t)) && i < j <= self@.len(),
                _ => r is None,
            },
    {
        proof {
            reveal_strlit("int");
            reveal_strlit("bool");
        }
        if self.text_at(i, "int") {
            Some((i + 3, Type::INT))
        } else if self.text_at(i, "bool") {
            Some((i + 4, Type::BOOL))
        } else {
            None
        }
    }

    /// Parses `true` or `false` at `i`, after white space.
    pub fn p_bool(&self, i: usize) -> (r: Option<(usize, bool)>)
        requires
            self.wf(),
            i <= self@.len(),
        ensures
            match p_bool(self@, i as int) {
                PR::Done(j, b) => r == Some((j as usize, b)) && i < j <= self@.len(),
                _ => r is None,
            },
    {
        proof {
            reveal_strlit("true");
            reveal_strlit("false");
            lemma_ws(self@, i as int);
        }
        let k = self.ws(i);
        if self.text_at(k, "true") {
            Some((k + 4, true))
        } else if self.text_at(k, "false") {
            Some((k + 5, false))
        } else {
            None
        }
    }

    fn p_number(&self, i: usize) -> (r: Result<Option<(usize, i32)>, ParseStop>)
        requires
            self.wf(),
            i <= self@.len(),
        ensures
            match p_number(self@, i as int) {
                PR::Done(j, x) => r == Ok::<Option<(usize, i32)>, ParseStop>(Some((j as usize, x))) && i < j <= self@.len(),
                PR::Fail => r == Ok::<Option<(usize, i32)>, ParseStop>(None),
                PR::Panic => r is Err,
            },
    {
        proof {
            lemma_ws(self@, i as int);
        }
        let k = self.ws(i);
        let e = self.digit_end(k);
        if e == k {
            return Ok(None);
        }
        let mut v: u64 = 0;
        let mut j = k;
        while j < e
            invariant
                k <= j <= e <= self@.len(),
                forall|q: int| k <= q < e ==> is_digit(#[trigger] self@[q]),
                v == digits_value(self@, k as int, j as int),
                v <= i32::MAX,
                k == ws(self@, i as int),
                e == digit_end(self@, k as int),
                e != k,
            decreases e - j,
        {
            let d = (self.chars[j] as u32 - '0' as u32) as u64;
            let nv = v * 10 + d;
            if nv > 2147483647 {
                proof {
                    assert(digits_value(self@, k as int, j + 1) == nv);
                    lemma_digits_mono(self@, k as int, j + 1, e as int);
                    assert(digits_value(self@, k as int, e as int) > i32::MAX);
                }
                return Err(ParseStop::NumberOutOfRange);
            }
            v = nv;
            j = j + 1;
        }
        Ok(Some((e, v as i32)))
    }
}

/// The value of a prefix of a digit run is at most that of the run.
pub proof fn lemma_digits_mono(s: Seq<char>, i: int, j: int, e: int)
    requires
        i <= j <= e,
        forall|q: int| i <= q < e ==> is_digit(#[trigger] s[q]),
    ensures
        digits_value(s, i, j) <= digits_value(s, i, e),
    decreases e - j,
{
    if j < e {
        lemma_digits_mono(s, i, j, e - 1);
        assert(is_digit(s[e - 1]));
    }
}

/// The node of a binary operation.
fn combine_nodes(op: &Op, a: AST, b: AST) -> (r: AST)
    ensures
        ast_view(r) == combine(*op, ast_view(a), ast_view(b)),
{
    match op {
        Op::Or => AST::BoolOr(Box::new(a), Box::new(b)),
        Op::And => AST::BoolAnd(Box::new(a), Box::new(b)),
        Op::Less => AST::Lesser(Box::new(a), Box::new(b)),
        Op::Plus => AST::Add(Box::new(a), Box::new(b)),
        Op::Minus => AST::Sub(Box::new(a), Box::new(b)),
        Op::Times => AST::Mul(Box::new(a), Box::new(b)),
        Op::Divide => AST::Div(Box::new(a), Box::new(b)),
    }
}

impl Source {
    fn op_at(&self, m: usize, l: usize) -> (r: Option<(usize, Op)>)
        requires
            self.wf(),
            m <= self@.len(),
        ensures
            match op_at(self@, m as int, l as nat) {
                Some((k, op)) => r matches Some((k2, op2)) && k2 == k && op2 == op,
                None => r is None,
            },
    {
        proof {
            lemma_op_at(self@, m as int, l as nat);
        }
        if l == 0 {
            if self.text_at(m, "||") {
                Some((m + 2, Op::Or))
            } else {
                None
            }
        } else if l == 1 {
            if self.text_at(m, "&&") {
                Some((m + 2, Op::And))
            } else {
                None
            }
        } else if l == 2 {
            if self.char_at(m, '<') {
                Some((m + 1, Op::Less))
            } else {
                None
            }
        } else if l == 3 {
            if self.char_at(m, '+') {
                Some((m + 1, Op::Plus))
            } else if self.char_at(m, '-') {
                Some((m + 1, Op::Minus))
            } else {
                None
            }
        } else if self.char_at(m, '*') {
            Some((m + 1, Op::Times))
        } else if self.char_at(m, '/') {
            Some((m + 1, Op::Divide))
        } else {
            None
        }
    }

    /// Parses an expression at `i`.
    pub fn p_expr(&self, i: usize) -> (r: PResult<AST>)
        requires
            self.wf(),
            i <= self@.len(),
        ensures
            agrees(r, p_expr(self@, i as int)),
            r matches Ok(Some((j, _))) ==> j <= self@.len(),
        decreases self@.len() - i, 31int,
    {
        self.p_level(i, 0)
    }

    /// Parses the operators of precedence level `l` and above at `i`
    /// (`0`: `||`, `1`: `&&`, `2`: `<`, `3`: `+ -`, `4`: `* /`, `5`: operands).
    pub fn p_level(&self, i: usize, l: usize) -> (r: PResult<AST>)
        requires
            self.wf(),
            i <= self@.len(),
            l <= 5,
        ensures
            agrees(r, p_level(self@, i as int, l as nat)),
            r matches Ok(Some((j, _))) ==> j <= self@.len(),
        decreases self@.len() - i, 30 - 2 * l,
    {
        if l >= 5 {
            return self.p_primary(i);
        }
        let (j, first) = match self.p_level(i, l + 1)? {
            Some(x) => x,
            None => {
                return Ok(None);
            },
        };
        if !(i <= j && j <= self.chars.len()) {
            return Ok(None);
        }
        let mut pos = j;
        let mut acc = first;
        loop
            invariant
                self.wf(),
                l < 5,
                i <= pos <= self@.len(),
                p_level(self@, i as int, l as nat) == p_level_rest(self@, pos as int, l as nat, ast_view(acc)),
            decreases self@.len() - pos,
        {
            proof {
                lemma_ws(self@, pos as int);
            }
            let m = self.ws(pos);
            proof {
                lemma_op_at(self@, m as int, l as nat);
            }
            match self.op_at(m, l) {
                None => {
                    return Ok(Some((pos, acc)));
                },
                Some((k, op)) => {
                    match self.p_level(k, l + 1)? {
                        Some((j2, rhs)) => {
                            if !(pos < j2 && j2 <= self.chars.len()) {
                                return Ok(None);
                            }
                            acc = combine_nodes(&op, acc, rhs);
                            pos = j2;
                        },
                        None => {
                            return Ok(Some((pos, acc)));
                        },
                    }
                },
            }
        }
    }

    /// Parses an operand at `i`: a number, a boolean, a call, a name or a
    /// parenthesized expression.
    pub fn p_primary(&self, i: usize) -> (r: PResult<AST>)
        requires
            self.wf(),
            i <= self@.len(),
        ensures
            agrees(r, p_primary(self@, i as int)),
            r matches Ok(Some((j, _))) ==> j <= self@.len(),
        decreases self@.len() - i, 10int,
    {
        proof {
            lemma_ws(self@, i as int);
        }
        let k = self.ws(i);
        match self.p_bool(k) {
            Some((j, b)) => {
                return Ok(Some((j, AST::Bool(b))));
            },
            None => {},
        }
        match self.p_number(k)? {
            Some((j, x)) => {
                return Ok(Some((j, AST::Number(x))));
            },
            None => {},
        }
        if self.char_at(k, '(') {
            match self.p_expr(k + 1)? {
                Some((j, e)) => {
                    let m = self.ws(j);
                    if self.char_at(m, ')') {
                        return Ok(Some((m + 1, e)));
                    }
                },
                None => {},
            }
        }
        match self.p_symbol(k) {
            None => Ok(None),
            Some((j, name)) => {
                let m = self.ws(j);
                if self.char_at(m, '(') && i < m + 1 && m + 1 <= self.chars.len() {
                    match self.p_args(m + 1)? {
                        Some((j2, args)) => {
                            let m2 = self.ws(j2);
                            if self.char_at(m2, ')') {
                                return Ok(Some((m2 + 1, AST::FunCall(name, args))));
                            }
                        },
                        None => {},
                    }
                }
                Ok(Some((j, AST::GetVar(name))))
            },
        }
    }

    fn p_args(&self, i: usize) -> (r: PResult<Vec<AST>>)
        requires
            self.wf(),
            i <= self@.len(),
        ensures
            agrees_all(r, p_args(self@, i as int)),
            r matches Ok(Some((j, _))) ==> j <= self@.len(),
        decreases self@.len() - i, 33int,
    {
        let (j, e) = match self.p_expr(i)? {
            Some(x) => x,
            None => {
                return Ok(Some((i, Vec::new())));
            },
        };
        if !(i <= j && j <= self.chars.len()) {
            return Ok(None);
        }
        let mut pos = j;
        let mut acc: Vec<AST> = Vec::new();
        acc.push(e);
        proof {
            lemma_view_all_push(Seq::<AST>::empty(), e);
            assert(Seq::<AST>::empty().push(e) =~= acc@);
            assert(ast_view_all(Seq::<AST>::empty()) =~= Seq::<SAst>::empty());
        }
        loop
            invariant
                self.wf(),
                i <= pos <= self@.len(),
                p_args(self@, i as int) == p_args_rest(self@, pos as int, ast_view_all(acc@)),
            decreases self@.len() - pos,
        {
            proof {
                lemma_ws(self@, pos as int);
            }
            let m = self.ws(pos);
            if !self.char_at(m, ',') {
                return Ok(Some((pos, acc)));
            }
            match self.p_expr(m + 1)? {
                Some((j2, e2)) => {
                    if !(pos < j2 && j2 <= self.chars.len()) {
                        return Ok(None);
                    }
                    proof {
                        lemma_view_all_push(acc@, e2);
                    }
                    acc.push(e2);
                    pos = j2;
                },
                None => {
                    return Ok(Some((pos, acc)));
                },
            }
        }
    }
}

impl Source {
    fn p_param(&self, i: usize) -> (r: Option<(usize, (String, Type))>)
        requires
            self.wf(),
            i <= self@.len(),
        ensures
            match p_param(self@, i as int) {
                PR::Done(j, (n, t)) => match r {
                    Some((j2, (n2, t2))) => j2 == j && n2@ == n && t2 == t && j <= self@.len(),
                    None => false,
                },
                _ => r is None,
            },
    {
        proof {
            lemma_ws(self@, i as int);
        }
        let k0 = self.ws(i);
        let (k, t) = match self.p_type(k0) {
            Some(x) => x,
            None => {
                return None;
            },
        };
        match self.p_symbol(k) {
            Some((j, name)) => Some((j, (name, t))),
            None => None,
        }
    }

    fn p_params(&self, i: usize) -> (r: Option<(usize, Vec<(String, Type)>)>)
        requires
            self.wf(),
            i <= self@.len(),
        ensures
            match p_params(self@, i as int) {
                PR::Done(j, ps) => match r {
                    Some((j2, v)) => j2 == j && params_view(v@) == ps && j <= self@.len(),
                    None => false,
                },
                _ => r is None,
            },
    {
        let (j, p) = match self.p_param(i) {
            Some(x) => x,
            None => {
                let v: Vec<(String, Type)> = Vec::new();
                proof {
                    assert(params_view(v@) =~= Seq::<(Seq<char>, Type)>::empty());
                }
                return Some((i, v));
            },
        };
        if !(i <= j && j <= self.chars.len()) {
            return None;
        }
        let mut pos = j;
        let mut acc: Vec<(String, Type)> = Vec::new();
        acc.push(p);
        proof {
            assert(params_view(acc@) =~= seq![(p.0@, p.1)]);
        }
        loop
            invariant
                self.wf(),
                i <= pos <= self@.len(),
                p_params(self@, i as int) == p_params_rest(self@, pos as int, params_view(acc@)),
            decreases self@.len() - pos,
        {
            proof {
                lemma_ws(self@, pos as int);
            }
            let m = self.ws(pos);
            if !self.char_at(m, ',') {
                return Some((pos, acc));
            }
            match self.p_param(m + 1) {
                Some((j2, p2)) => {
                    if !(pos < j2 && j2 <= self.chars.len()) {
                        return None;
                    }
                    let ghost before = acc@;
                    acc.push(p2);
                    proof {
                        assert(params_view(acc@) =~= params_view(before).push((p2.0@, p2.1)));
                    }
                    pos = j2;
                },
                None => {
                    return Some((pos, acc));
                },
            }
        }
    }

    fn p_stmts(&self, i: usize) -> (r: PResult<Vec<AST>>)
        requires
            self.wf(),
            i <= self@.len(),
        ensures
            agrees_all(r, p_stmts(self@, i as int, Seq::empty())),
            r matches Ok(Some((j, _))) ==> j <= self@.len(),
        decreases self@.len() - i, 60int,
    {
        let mut pos = i;
        let mut acc: Vec<AST> = Vec::new();
        proof {
            assert(ast_view_all(acc@) =~= Seq::<SAst>::empty());
        }
        loop
            invariant
                self.wf(),
                i <= pos <= self@.len(),
                p_stmts(self@, i as int, Seq::empty()) == p_stmts(self@, pos as int, ast_view_all(acc@)),
            decreases self@.len() - pos,
        {
            match self.p_stmt(pos)? {
                Some((j, st)) => {
                    if !(pos < j && j <= self.chars.len()) {
                        return Ok(None);
                    }
                    proof {
                        lemma_view_all_push(acc@, st);
                    }
                    acc.push(st);
                    pos = j;
                },
                None => {
                    return Ok(Some((pos, acc)));
                },
            }
        }
    }

    /// Parses a statement at `i`.
    pub fn p_stmt(&self, i: usize) -> (r: PResult<AST>)
        requires
            self.wf(),
            i <= self@.len(),
        ensures
            agrees(r, p_stmt(self@, i as int)),
            r matches Ok(Some((j, _))) ==> j <= self@.len(),
        decreases self@.len() - i, 50int,
    {
        if let Some(x) = self.p_block(i)? {
            return Ok(Some(x));
        }
        if let Some(x) = self.p_fundecl(i)? {
            return Ok(Some(x));
        }
        if let Some(x) = self.p_if(i)? {
            return Ok(Some(x));
        }
        if let Some(x) = self.p_while(i)? {
            return Ok(Some(x));
        }
        if let Some(x) = self.p_declare(i) {
            return Ok(Some(x));
        }
        if let Some(x) = self.p_assign(i)? {
            return Ok(Some(x));
        }
        self.p_expr_stmt(i)
    }

    /// Parses a braced block of statements at `i`.
    pub fn p_block(&self, i: usize) -> (r: PResult<AST>)
        requires
            self.wf(),
            i <= self@.len(),
        ensures
            agrees(r, p_block(self@, i as int)),
            r matches Ok(Some((j, _))) ==> j <= self@.len(),
        decreases self@.len() - i, 40int,
    {
        proof {
            lemma_ws(self@, i as int);
        }
        let k = self.ws(i);
        if !self.char_at(k, '{') {
            return Ok(None);
        }
        let (j, v) = match self.p_stmts(k + 1)? {
            Some(x) => x,
            None => {
                return Ok(None);
            },
        };
        let m = self.ws(j);
        if self.char_at(m, '}') {
            Ok(Some((m + 1, AST::Block(v))))
        } else {
            Ok(None)
        }
    }

    fn p_fundecl(&self, i: usize) -> (r: PResult<AST>)
        requires
            self.wf(),
            i <= self@.len(),
        ensures
            agrees(r, p_fundecl(self@, i as int)),
            r matches Ok(Some((j, _))) ==> j <= self@.len(),
        decreases self@.len() - i, 40int,
    {
        proof {
            lemma_ws(self@, i as int);
        }
        let k0 = self.ws(i);
        let (k, t) = match self.p_type(k0) {
            Some(x) => x,
            None => {
                return Ok(None);
            },
        };
        let (k2, name) = match self.p_symbol(k) {
            Some(x) => x,
            None => {
                return Ok(None);
            },
        };
        let m0 = self.ws(k2);
        if !self.char_at(m0, '(') {
            return Ok(None);
        }
        let (j, ps) = match self.p_params(m0 + 1) {
            Some(x) => x,
            None => {
                return Ok(None);
            },
        };
        let m = self.ws(j);
        if !(self.char_at(m, ')') && i < m + 1 && m + 1 <= self.chars.len()) {
            return Ok(None);
        }
        match self.p_block(m + 1)? {
            Some((j2, body)) => Ok(Some((j2, AST::FunDecl(t, name, ps, Box::new(body))))),
            None => Ok(None),
        }
    }

    fn p_cond_block(&self, i: usize, m: usize) -> (r: PResult<(AST, AST)>)
        requires
            self.wf(),
            i <= self@.len(),
            m <= self@.len(),
        ensures
            match p_cond_block(self@, i as int, m as int) {
                PR::Done(j, (c, b)) => match r {
                    Ok(Some((j2, (c2, b2)))) => j2 == j && ast_view(c2) == c && ast_view(b2) == b && j <= self@.len(),
                    _ => false,
                },
                PR::Fail => r matches Ok(None),
                PR::Panic => r is Err,
            },
        decreases self@.len() - i, 39int,
    {
        if !(self.char_at(m, '(') && i < m + 1 && m + 1 <= self.chars.len()) {
            return Ok(None);
        }
        let (j, c) = match self.p_expr(m + 1)? {
            Some(x) => x,
            None => {
                return Ok(None);
            },
        };
        let m2 = self.ws(j);
        if !(self.char_at(m2, ')') && i < m2 + 1 && m2 + 1 <= self.chars.len()) {
            return Ok(None);
        }
        match self.p_block(m2 + 1)? {
            Some((j2, b)) => Ok(Some((j2, (c, b)))),
            None => Ok(None),
        }
    }

    fn p_if(&self, i: usize) -> (r: PResult<AST>)
        requires
            self.wf(),
            i <= self@.len(),
        ensures
            agrees(r, p_if(self@, i as int)),
            r matches Ok(Some((j, _))) ==> j <= self@.len(),
        decreases self@.len() - i, 40int,
    {
        proof {
            lemma_ws(self@, i as int);
            reveal_strlit("if");
            reveal_strlit("else");
        }
        let k = self.ws(i);
        if !self.text_at(k, "if") {
            return Ok(None);
        }
        let m0 = self.ws(k + 2);
        let (j, (c, b)) = match self.p_cond_block(i, m0)? {
            Some(x) => x,
            None => {
                return Ok(None);
            },
        };
        let m = self.ws(j);
        if self.text_at(m, "else") && i < m + 4 && m + 4 <= self.chars.len() {
            match self.p_block(m + 4)? {
                Some((j2, eb)) => {
                    return Ok(Some((j2, AST::If(Box::new(c), Box::new(b), Some(Box::new(eb))))));
                },
                None => {},
            }
        }
        Ok(Some((j, AST::If(Box::new(c), Box::new(b), None))))
    }

    fn p_while(&self, i: usize) -> (r: PResult<AST>)
        requires
            self.wf(),
            i <= self@.len(),
        ensures
            agrees(r, p_while(self@, i as int)),
            r matches Ok(Some((j, _))) ==> j <= self@.len(),
        decreases self@.len() - i, 40int,
    {
        proof {
            lemma_ws(self@, i as int);
            reveal_strlit("while");
        }
        let k = self.ws(i);
        if !self.text_at(k, "while") {
            return Ok(None);
        }
        let m0 = self.ws(k + 5);
        match self.p_cond_block(i, m0)? {
            Some((j, (c, b))) => Ok(Some((j, AST::While(Box::new(c), Box::new(b))))),
            None => Ok(None),
        }
    }

    /// Parses a declaration `type name;` at `i`.
    pub fn p_declare(&self, i: usize) -> (r: Option<(usize, AST)>)
        requires
            self.wf(),
            i <= self@.len(),
        ensures
            agrees(Ok::<Option<(usize, AST)>, ParseStop>(r), p_declare(self@, i as int)),
            r matches Some((j, _)) ==> j <= self@.len(),
    {
        proof {
            lemma_ws(self@, i as int);
        }
        let k0 = self.ws(i);
        let (k, t) = match self.p_type(k0) {
            Some(x) => x,
            None => {
                return None;
            },
        };
        let (j, name) = match self.p_symbol(k) {
            Some(x) => x,
            None => {
                return None;
            },
        };
        let m = self.ws(j);
        if self.char_at(m, ';') {
            Some((m + 1, AST::DeclareVar(name, t)))
        } else {
            None
        }
    }

    /// Parses an assignment `name = expression;` at `i`.
    pub fn p_assign(&self, i: usize) -> (r: PResult<AST>)
        requires
            self.wf(),
            i <= self@.len(),
        ensures
            agrees(r, p_assign(self@, i as int)),
            r matches Ok(Some((j, _))) ==> j <= self@.len(),
        decreases self@.len() - i, 40int,
    {
        let (k, name) = match self.p_symbol(i) {
            Some(x) => x,
            None => {
                return Ok(None);
            },
        };
        let m = self.ws(k);
        if !(self.char_at(m, '=') && i < m + 1 && m + 1 <= self.chars.len()) {
            return Ok(None);
        }
        let (j, e) = match self.p_expr(m + 1)? {
            Some(x) => x,
            None => {
                return Ok(None);
            },
        };
        let m2 = self.ws(j);
        if self.char_at(m2, ';') {
            Ok(Some((m2 + 1, AST::AssignVar(name, Box::new(e)))))
        } else {
            Ok(None)
        }
    }

    /// Parses an expression statement `expression;` at `i`.
    pub fn p_expr_stmt(&self, i: usize) -> (r: PResult<AST>)
        requires
            self.wf(),
            i <= self@.len(),
        ensures
            agrees(r, p_expr_stmt(self@, i as int)),
            r matches Ok(Some((j, _))) ==> j <= self@.len(),
        decreases self@.len() - i, 40int,
    {
        let (j, e) = match self.p_expr(i)? {
            Some(x) => x,
            None => {
                return Ok(None);
            },
        };
        let m = self.ws(j);
        if self.char_at(m, ';') {
            Ok(Some((m + 1, e)))
        } else {
            Ok(None)
        }
    }

    /// Parses a program: one or more statements from the start; what
    /// follows the last statement that parses is left over.
    pub fn program(&self) -> (r: PResult<AST>)
        requires
            self.wf(),
        ensures
            agrees(r, p_program(self@)),
    {
        let (j, v) = match self.p_stmts(0)? {
            Some(x) => x,
            None => {
                return Ok(None);
            },
        };
        if v.len() == 0 {
            proof {
                assert(ast_view_all(v@) =~= Seq::<SAst>::empty()) by {
                    assert(v@ =~= Seq::<AST>::empty());
                }
            }
            Ok(None)
        } else {
            proof {
                lemma_view_all_len(v@);
            }
            Ok(Some((j, AST::Many(v))))
        }
    }
}

/// A copy of a list of syntax trees, with the same meanings.
fn clone_all(v: &Vec<AST>) -> (r: Vec<AST>)
    ensures
        ast_view_all(r@) == ast_view_all(v@),
    decreases v, 1int,
{
    let mut out: Vec<AST> = Vec::new();
    let mut i: usize = 0;
    proof {
        assert(v@.take(0) =~= Seq::<AST>::empty());
        assert(out@ =~= Seq::<AST>::empty());
    }
    while i < v.len()
        invariant
            i <= v@.len(),
            ast_view_all(out@) == ast_view_all(v@.take(i as int)),
        decreases v@.len() - i,
    {
        assert(decreases_to!(*v => v[i as int]));
        let c = clone_ast(&v[i]);
        proof {
            lemma_view_all_push(out@, c);
            lemma_view_all_push(v@.take(i as int), v@[i as int]);
            assert(v@.take(i + 1) =~= v@.take(i as int).push(v@[i as int]));
        }
        out.push(c);
        i = i + 1;
    }
    proof {
        assert(v@.take(v@.len() as int) =~= v@);
    }
    out
}

/// A copy of a parameter list.
fn clone_params(p: &Vec<(String, Type)>) -> (r: Vec<(String, Type)>)
    ensures
        params_view(r@) == params_view(p@),
{
    let mut out: Vec<(String, Type)> = Vec::new();
    let mut i: usize = 0;
    while i < p.len()
        invariant
            i <= p@.len(),
            out@.len() == i,
            forall|j: int| 0 <= j < i ==> (#[trigger] out@[j]).0@ == p@[j].0@ && out@[j].1 == p@[j].1,
        decreases p@.len() - i,
    {
        out.push((p[i].0.clone(), p[i].1));
        i = i + 1;
    }
    proof {
        assert(params_view(out@) =~= params_view(p@));
    }
    out
}

/// A copy of a syntax tree, with the same meaning.
fn clone_ast(a: &AST) -> (r: AST)
    ensures
        ast_view(r) == ast_view(*a),
    decreases a, 0int,
{
    match a {
        AST::Number(x) => AST::Number(*x),
        AST::Bool(b) => AST::Bool(*b),
        AST::Add(x, y) => AST::Add(Box::new(clone_ast(x)), Box::new(clone_ast(y))),
        AST::Sub(x, y) => AST::Sub(Box::new(clone_ast(x)), Box::new(clone_ast(y))),
        AST::Mul(x, y) => AST::Mul(Box::new(clone_ast(x)), Box::new(clone_ast(y))),
        AST::Div(x, y) => AST::Div(Box::new(clone_ast(x)), Box::new(clone_ast(y))),
        AST::Lesser(x, y) => AST::Lesser(Box::new(clone_ast(x)), Box::new(clone_ast(y))),
        AST::BoolAnd(x, y) => AST::BoolAnd(Box::new(clone_ast(x)), Box::new(clone_ast(y))),
        AST::BoolOr(x, y) => AST::BoolOr(Box::new(clone_ast(x)), Box::new(clone_ast(y))),
        AST::AssignVar(n, e) => AST::AssignVar(n.clone(), Box::new(clone_ast(e))),
        AST::GetVar(n) => AST::GetVar(n.clone()),
        AST::DeclareVar(n, t) => AST::DeclareVar(n.clone(), *t),
        AST::Many(v) => AST::Many(clone_all(v)),
        AST::Block(v) => AST::Block(clone_all(v)),
        AST::If(c, b, e) => {
            let e2 = match e {
                Some(x) => Some(Box::new(clone_ast(x))),
                None => None,
            };
            AST::If(Box::new(clone_ast(c)), Box::new(clone_ast(b)), e2)
        },
        AST::While(c, b) => AST::While(Box::new(clone_ast(c)), Box::new(clone_ast(b))),
        AST::FunDecl(t, n, p, b) => AST::FunDecl(*t, n.clone(), clone_params(p), Box::new(clone_ast(b))),
        AST::FunCall(n, v) => AST::FunCall(n.clone(), clone_all(v)),
    }
}

impl Clone for AST {
    /// A copy with the same structure: the same meaning under `ast_view`.
    fn clone(&self) -> (r: AST)
        ensures
            ast_view(r) == ast_view(*self),
    {
        clone_ast(self)
    }
}

/// Views keep the length.
pub proof fn lemma_view_all_len(s: Seq<AST>)
    ensures
        ast_view_all(s).len() == s.len(),
    decreases s.len(),
{
    if s.len() > 0 {
        lemma_view_all_len(s.drop_first());
    }
}

/// The characters of `s`.
fn chars_of(s: &str) -> (v: Vec<char>)
    ensures
        v@ == s@,
{
    let mut chars: Vec<char> = Vec::new();
    let ghost t = s@;
    proof {
        broadcast use vstd::string::group_string_axioms;
    }
    for c in it: s.chars()
        invariant
            it.seq() == t,
            chars@ == t.take(it.index() as int),
    {
        chars.push(c);
        proof {
            assert(chars@ =~= t.take(it.index() as int + 1));
        }
    }
    proof {
        assert(chars@ =~= t);
    }
    chars
}

/// The kept lines of `input` joined: the lines that are empty or start
/// with `//` are dropped, and the rest are concatenated without line
/// breaks.
pub fn preprocess_input(input: &str) -> (r: String)
    ensures
        r@ == preprocess(input@),
{
    let chars = chars_of(input);
    let n = chars.len();
    let ghost s = input@;
    let mut out = String::new();
    let mut start: usize = 0;
    proof {
        assert(s.skip(0) =~= s);
    }
    while start < n
        invariant
            chars@ == s,
            s == input@,
            n == s.len(),
            start <= n,
            preprocess(s) == out@ + join_kept(lines(s.skip(start as int))),
        decreases n - start,
    {
        let ghost rest = s.skip(start as int);
        let mut k = start;
        while k < n && chars[k] != '\n'
            invariant
                start <= k <= n,
                chars@ == s,
                n == s.len(),
                rest == s.skip(start as int),
                forall|j: int| start <= j < k ==> s[j] != '\n',
            decreases n - k,
        {
            k = k + 1;
        }
        proof {
            lemma_nl_index(rest);
            assert forall|j: int| 0 <= j < k - start implies rest[j] != '\n' by {
                assert(rest[j] == s[start + j]);
            }
            if k < n {
                assert(rest[k - start] == '\n');
            }
            assert(nl_index(rest) == k - start);
        }
        let end = if k < n && k > start && chars[k - 1] == '\r' {
            k - 1
        } else {
            k
        };
        let len = end - start;
        let keep = len > 0 && !(len >= 2 && chars[start] == '/' && chars[start + 1] == '/');
        let ghost line = s.subrange(start as int, end as int);
        proof {
            if k < n {
                assert(rest.take(k - start) =~= s.subrange(start as int, k as int));
                if k > start && s[k - 1] == '\r' {
                    assert(strip_cr(rest.take(k - start)) =~= line);
                } else {
                    assert(strip_cr(rest.take(k - start)) =~= line);
                }
                assert(rest.skip(k - start + 1) =~= s.skip(k + 1));
                assert(lines(rest) == seq![line] + lines(s.skip(k + 1)));
            } else {
                assert(rest =~= line);
                assert(lines(rest) == seq![line]);
                assert(s.skip(n as int) =~= Seq::<char>::empty());
            }
            assert(keep == kept(line));
            let ls = lines(rest);
            assert(ls[0] == line);
            assert(join_kept(ls) == (if kept(line) {
                line
            } else {
                Seq::empty()
            }) + join_kept(ls.drop_first()));
        }
        let ghost out0 = out@;
        if keep {
            let piece = input.substring_char(start, end);
            out.append(piece);
        }
        proof {
            let ls = lines(rest);
            let part: Seq<char> = if kept(line) {
                line
            } else {
                Seq::empty()
            };
            assert(out@ =~= out0 + part);
            assert(out0 + join_kept(ls) =~= out0 + part + join_kept(ls.drop_first()));
        }
        start = if k < n {
            k + 1
        } else {
            n
        };
        proof {
            let ls = lines(rest);
            if k < n {
                assert(ls.drop_first() =~= lines(s.skip(k + 1)));
            } else {
                assert(ls.drop_first() =~= Seq::<Seq<char>>::empty());
                assert(lines(s.skip(n as int)) =~= Seq::<Seq<char>>::empty());
            }
        }
    }
    proof {
        assert(s.skip(start as int) =~= Seq::<char>::empty());
        assert(out@ + Seq::<char>::empty() =~= out@);
    }
    out
}

/// The meaning of the program text `input`, if it parses.
pub open spec fn parsed(input: Seq<char>) -> PR<SAst> {
    p_program(preprocess(input))
}

/// Parses program text, which must parse: text that does not is a fatal
/// error for the compiler.
pub fn parse(input: &str) -> (r: AST)
    requires
        parsed(input@) is Done,
    ensures
        parsed(input@) matches PR::Done(_, v) && ast_view(r) == v,
{
    let text = preprocess_input(input);
    let src = Source::new(text);
    match src.program() {
        Ok(Some((_, a))) => a,
        _ => {
            proof {
                assert(false);
            }
            AST::Many(Vec::new())
        },
    }
}

/// Parses program text where it parses: `None` exactly where the text
/// does not parse to a program, or the parser reaches a number literal
/// that does not fit in `i32` (where `parse` may not be called).
pub fn try_parse(input: &str) -> (r: Option<AST>)
    ensures
        match parsed(input@) {
            PR::Done(_, v) => r matches Some(a) && ast_view(a) == v,
            _ => r is None,
        },
{
    let text = preprocess_input(input);
    let src = Source::new(text);
    match src.program() {
        Ok(Some((_, a))) => Some(a),
        _ => None,
    }
}

} // verus!

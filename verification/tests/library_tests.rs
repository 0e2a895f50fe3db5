use microc::analysis::{types, CompilationError};
use microc::ast::{Type, AST};
use microc::compiler::IR;
use microc::driver::{compile_and_execute, compile_and_run, with_template, RunError};
use microc::machine::{run_ir, Fault};
use microc::parser::parse;
use microc::stack::{Stack, StackFrame};
use microc::symtab::NameMap;

fn num(x: i32) -> Box<AST> {
    Box::new(AST::Number(x))
}

#[test]
fn eval_arithmetic() {
    let e = AST::Many(vec![
        AST::Number(1),
        AST::Sub(num(7), Box::new(AST::Div(num(9), num(2)))),
    ]);
    assert_eq!(e.eval(), 3);
    assert_eq!(AST::Mul(num(-3), num(4)).eval(), -12);
    assert_eq!(AST::Div(num(-7), num(2)).eval(), -3);
}

#[test]
fn type_names_and_sizes() {
    assert_eq!(Type::INT.to_string(), "int");
    assert_eq!(Type::BOOL.to_string(), "bool");
    assert_eq!(Type::INT.size(), 4);
    assert_eq!(u32::from(Type::BOOL), 1);
}

#[test]
fn types_of_expressions() {
    let mut syms: NameMap<Type> = NameMap::new();
    syms.insert(String::from("flag"), Type::BOOL);
    assert!(matches!(types(&AST::Add(num(1), num(2)), &syms), Ok(Some(Type::INT))));
    let bad = AST::Add(Box::new(AST::GetVar(String::from("flag"))), num(1));
    assert!(matches!(types(&bad, &syms), Err(CompilationError::IncompatibleTypes)));
    let missing = AST::GetVar(String::from("zz"));
    assert!(matches!(types(&missing, &syms), Err(CompilationError::VariableNotDeclared(ref n)) if n == "zz"));
    let decl = AST::Many(vec![
        AST::DeclareVar(String::from("n"), Type::INT),
        AST::AssignVar(String::from("flag"), Box::new(AST::Bool(true))),
    ]);
    assert!(matches!(types(&decl, &syms), Ok(None)));
    let undeclared = AST::AssignVar(String::from("n"), num(3));
    assert!(matches!(types(&undeclared, &syms), Err(CompilationError::VariableNotDeclared(_))));
}

#[test]
fn stack_push_find_pop() {
    let f = StackFrame::new();
    assert_eq!(f.scope, 0);
    let mut s = Stack::new();
    s.push(String::from("a"), Type::INT);
    s.push(String::from("b"), Type::BOOL);
    assert_eq!(s.find(&String::from("a")), Some((4, Type::INT)));
    assert_eq!(s.find(&String::from("b")), Some((5, Type::BOOL)));
    s.set_scope(1);
    s.push(String::from("c"), Type::INT);
    s.push(String::from("a"), Type::BOOL);
    assert_eq!(s.find(&String::from("a")), Some((10, Type::BOOL)));
    assert_eq!(s.size(), 10);
    assert_eq!(s.pop(), 5);
    assert_eq!(s.find(&String::from("c")), None);
    assert_eq!(s.find(&String::from("a")), Some((4, Type::INT)));
    assert_eq!(s.scope(), 1);
}

#[test]
fn name_map_reads_back_writes() {
    let mut m: NameMap<i32> = NameMap::new();
    m.insert(String::from("x"), 1);
    m.insert(String::from("y"), 2);
    m.insert(String::from("x"), 3);
    assert_eq!(m.len(), 2);
    assert_eq!(m.get(&String::from("x")), Some(&3));
    assert_eq!(m.get(&String::from("y")), Some(&2));
    assert_eq!(m.position(&String::from("y")), 1);
    assert!(!m.contains_key(&String::from("z")));
    let (k, v) = m.entry(0);
    assert_eq!(k, "x");
    assert_eq!(*v, 3);
}

#[test]
fn run_exit_code_is_low_byte() {
    assert_eq!(compile_and_run("300;").unwrap(), 44);
    assert_eq!(compile_and_run("0 - 1;").unwrap(), 255);
    assert_eq!(compile_and_run("1; 2; 7;").unwrap(), 7);
}

#[test]
fn run_matches_eval_on_arithmetic() {
    let input = "(2 + 3) * (10 - 4) / 3;";
    let ast = parse(input);
    assert_eq!(ast.eval(), 10);
    assert_eq!(compile_and_run(input).unwrap(), 10);
}

#[test]
fn run_division_of_negative_word() {
    // The machine divides unsigned 16-bit words: -1 is the word 65535.
    assert_eq!(parse("(0 - 1) / 2;").eval(), 0);
    assert_eq!(compile_and_run("(0 - 1) / 2;").unwrap(), 255);
}

#[test]
fn run_faults_and_errors() {
    assert!(matches!(compile_and_run("1 / 0;"), Err(RunError::Fault(Fault::DivideByZero))));
    assert!(matches!(compile_and_run("x;"), Err(RunError::Compile(CompilationError::VariableNotDeclared(_)))));
    let spin = vec![IR::Label(0), IR::Jmp(0)];
    let syms: NameMap<Type> = NameMap::new();
    assert!(matches!(run_ir(&spin, &syms, 10), Err(Fault::OutOfFuel)));
    assert!(matches!(
        compile_and_run("int main() { while (true) { 1; } } 0;"),
        Err(RunError::Fault(Fault::BadAddress))
    ));
    // The exit pops a word from above the entry stack pointer.
    assert_eq!(compile_and_run("{ int a; }").unwrap(), 0);
}

#[test]
fn run_locals_loops_and_print() {
    let ast = parse("int main() { int i; int s; i = 0; s = 0; while (i < 5) { i = i + 1; s = s + i; print(s); } } 3;");
    assert_eq!(compile_and_execute(&ast).unwrap(), 3);
    let prog = vec![IR::PUSH(6), IR::PUSH(7), IR::MUL, IR::Print64];
    let syms: NameMap<Type> = NameMap::new();
    let (code, out) = run_ir(&prog, &syms, 100).unwrap();
    assert_eq!(code, 42);
    assert_eq!(out, vec![42]);
}

#[test]
fn template_and_program() {
    assert_eq!(with_template("T", "push 42\nEXIT"), "T\npush 42\nEXIT");
    assert_eq!(with_template("", ""), "\n");
}

#[test]
fn compilation_error_messages() {
    let e = CompilationError::VariableNotDeclared(String::from("a"));
    assert_eq!(e.message(), "invalid program, can't compile: VariableNotDeclared(\"a\")");
    assert_eq!(
        CompilationError::IncompatibleTypes.message(),
        "invalid program, can't compile: IncompatibleTypes"
    );
    let odd = CompilationError::VariableNotDeclared(String::from("a\"b"));
    assert_eq!(odd.message(), "invalid program, can't compile: VariableNotDeclared(\"a\\\"b\")");
}

#[test]
fn types_of_other_nodes() {
    let syms: NameMap<Type> = NameMap::new();
    let cmp = AST::Lesser(num(1), num(2));
    assert!(matches!(types(&cmp, &syms), Err(CompilationError::IncompatibleTypes)));
    let seq = AST::Block(vec![AST::Number(1), AST::GetVar(String::from("q")), cmp]);
    assert!(matches!(types(&seq, &syms), Err(CompilationError::VariableNotDeclared(ref n)) if n == "q"));
}

#[test]
fn ast_clone_keeps_structure() {
    let ast = parse("int f(int n) { if (n < 2) { n; } else { f(n - 1); } } f(3);");
    let copy = ast.clone();
    assert_eq!(format!("{:?}", copy), format!("{:?}", ast));
}

#[test]
fn division_divides_edx_eax() {
    // After 7/2 the remainder 1 stays in edx, so dividing by 1 overflows
    // eax: the processor's divide error.
    assert!(matches!(compile_and_run("7/2/1;"), Err(RunError::Fault(Fault::DivideByZero))));
    // A product above 16 bits keeps its upper half in eax, and the
    // division divides all 32 bits.
    assert_eq!(compile_and_run("30000*3/2;").unwrap(), 200);
    assert_eq!(compile_and_run("(6-1)/2;").unwrap(), 2);
    assert_eq!(compile_and_run("2/2+3;").unwrap(), 4);
}

#[test]
fn text_run_matches_parse_eval() {
    for input in ["1 + 2 * 3;", "((  1+2  ) * 3+4  )    *4;", "(100 - 1) / 9; 8 / 4;"].iter() {
        assert_eq!(compile_and_run(input).unwrap(), parse(input).eval() % 256);
    }
}

use microc::analysis::{types, CompilationError};
use microc::ast::{Type, AST};
use microc::compiler::{Compiler, FuncTable, IR};
use microc::emitter::{compile, decimal};
use microc::parser::parse;
use microc::symtab::NameMap;

fn print_expr(expr: &str) {
    let ast = parse(expr);
    let mut compiler = Compiler::new();
    compiler.ast_to_ir(&ast).unwrap();
    let is = compiler.ir();

    println!("{:?} => {:?}", ast, is);
    println!("ast_to_ird: ");

    for i in is {
        println!("{}", i.emit(compiler.symbols()));
    }
}

#[test]
fn test_add_mul() {
    print_expr("1 + 2 * 3;");
    print_expr("( 1 + 2 ) * 3;");
    print_expr("( 4 + 4 ) / 2;");
}

fn header() -> String {
    String::from("\nsection .data\n\n")
}

const TAIL: &str = "pstr64 db \"%hu\",10,0\nhellostr db \"MicroC :)\",0\n\nsection .text\n";
const PROLOGUE: &str = "\nxor rax, rax\nxor rbx, rbx\nxor rcx, rcx\nxor rdx, rdx\n\n";

#[test]
fn compile_arithmetic_text() {
    let text = compile(&parse("1 + 2;")).unwrap();
    let expected = format!(
        "{}{}\nmain:\n\nmov rbp, rsp\n{}mov ax, 1\npush ax\nmov ax, 2\npush ax\npop bx\npop ax\nadd eax, ebx\npush ax\n",
        header(),
        TAIL,
        PROLOGUE
    );
    assert_eq!(text, expected);
}

#[test]
fn compile_globals_and_main_text() {
    let text = compile(&parse("int a; bool b; int main() { a = 7; } a;")).unwrap();
    let expected = format!(
        "{}a dd 0\nb db 0\n{}\nmain:\n{}push rbp\nmov rbp, rsp\nmov ax, 7\npush ax\npop ax\nmov [rel a], ax\npop ax\nadd rsp, 0\npop rbp\nmov ax, [rel a]\npush ax\n",
        header(),
        TAIL,
        PROLOGUE
    );
    assert_eq!(text, expected);
}

#[test]
fn compile_undeclared_variable() {
    let r = compile(&parse("a = 1;"));
    assert!(matches!(r, Err(CompilationError::VariableNotDeclared(ref n)) if n == "a"));
}

#[test]
fn compile_incompatible_types() {
    assert!(matches!(compile(&parse("1 + true;")), Err(CompilationError::IncompatibleTypes)));
    assert!(matches!(compile(&parse("bool b; b = 3;")), Err(CompilationError::IncompatibleTypes)));
    assert!(matches!(compile(&parse("if (1) { 2; }")), Err(CompilationError::IncompatibleTypes)));
}

#[test]
fn compiler_ir_of_block() {
    let mut c = Compiler::new();
    let ast = parse("{ int x; bool y; x = 5; y = true; x; }");
    let t = c.ast_to_ir(&ast).unwrap();
    assert!(t.is_none());
    let text: Vec<String> = c.ir().iter().map(|i| format!("{:?}", i)).collect();
    assert_eq!(
        text,
        vec![
            "Grow(4)", "Grow(1)", "PUSH(5)", "SetLocal(4, 4)", "PUSH(1)", "SetLocal(5, 1)",
            "GetLocal(4, 4)", "Shrink(5)"
        ]
    );
}

#[test]
fn compiler_labels_and_stubs() {
    let mut c = Compiler::new();
    assert_eq!(c.next_label(), 0);
    let pos = c.emit_stub(IR::Jmp(0));
    assert_eq!(pos, 0);
    let l = c.emit_label();
    assert_eq!(l, 0);
    assert_eq!(c.last_label(), 0);
    c.update_stub(pos);
    assert_eq!(c.next_label(), 2);
    let text: Vec<String> = c.ir().iter().map(|i| format!("{:?}", i)).collect();
    assert_eq!(text, vec!["Jmp(1)", "Label(0)", "Label(1)"]);
}

#[test]
fn compiler_scopes_and_lookup() {
    let mut c = Compiler::new();
    c.ast_to_ir(&parse("int g;")).unwrap();
    assert_eq!(c.find_type(&String::from("g")), Some(Type::INT));
    assert_eq!(c.find_type(&String::from("h")), None);
    c.start_scope();
    c.ast_to_ir(&AST::DeclareVar(String::from("g"), Type::BOOL)).unwrap();
    assert_eq!(c.find_type(&String::from("g")), Some(Type::BOOL));
    c.end_scope();
    assert_eq!(c.find_type(&String::from("g")), Some(Type::INT));
    assert_eq!(format!("{:?}", c.ir().last().unwrap()), "Shrink(1)");
}

#[test]
fn compiler_function_arguments() {
    let mut c = Compiler::new();
    let ast = parse("int f(int a, bool b, int c) { c; } f(1, true, 2);");
    c.ast_to_ir(&ast).unwrap();
    assert!(c.funcs().contains_key(&String::from("f")));
    let text: Vec<String> = c.ir().iter().map(|i| format!("{:?}", i)).collect();
    assert!(text.contains(&String::from("GetArg(5, 4)")));
    assert!(text.contains(&String::from("Call(\"f\")")));
    assert!(text.contains(&String::from("Shrink(6)")));
}

#[test]
fn emit_instructions() {
    let mut syms: NameMap<Type> = NameMap::new();
    syms.insert(String::from("a"), Type::BOOL);
    assert_eq!(IR::PUSH(-5).emit(&syms), "mov ax, -5\npush ax");
    assert_eq!(IR::GetGlobal(String::from("a")).emit(&syms), "mov al, [rel a]\npush ax");
    assert_eq!(IR::SetLocal(6, 4).emit(&syms), "pop ax\nmov [rbp-6], ax");
    assert_eq!(IR::GetArg(3, 2).emit(&syms), "mov ax, [rbp+18]\npush ax");
    assert_eq!(IR::Label(12).emit(&syms), ".L12:");
    assert_eq!(IR::JmpIfFalse(3).emit(&syms), "test ax, ax\nje .L3");
    assert_eq!(IR::FnName(String::from("f")).emit(&syms), "\nf:");
    assert_eq!(IR::Print64.emit(&syms), "PRINT64");
}

#[test]
fn decimal_text() {
    assert_eq!(decimal(0), "0");
    assert_eq!(decimal(1234567), "1234567");
    assert_eq!(decimal(-42), "-42");
    assert_eq!(decimal(i64::MAX), "9223372036854775807");
}

#[test]
fn function_table() {
    let mut t = FuncTable::new();
    t.insert(String::from("f"), Type::INT, vec![(String::from("x"), Type::BOOL)]);
    t.insert(String::from("f"), Type::BOOL, vec![]);
    let (rt, params) = t.get(&String::from("f")).unwrap();
    assert_eq!(rt, Type::BOOL);
    assert!(params.is_empty());
    assert!(!t.contains_key(&String::from("g")));
}

#[test]
fn block_variables_do_not_outlive_the_block() {
    let r = compile(&parse("{ int x; x = 1; } x;"));
    assert!(matches!(r, Err(CompilationError::VariableNotDeclared(ref n)) if n == "x"));
    let mut c = Compiler::new();
    c.start_scope();
    c.ast_to_ir(&parse("int y; { int x; bool z; }")).unwrap();
    assert_eq!(c.find_type(&String::from("y")), Some(Type::INT));
    assert_eq!(c.find_type(&String::from("x")), None);
}

#[test]
fn compiling_only_appends_code() {
    let mut c = Compiler::new();
    c.ast_to_ir(&parse("int a; a = 1; while (a < 3) { a = a + 1; }")).unwrap();
    let before: Vec<String> = c.ir().iter().map(|i| format!("{:?}", i)).collect();
    let labels = c.next_label();
    c.ast_to_ir(&parse("if (a < 2) { a = 0; } else { a = 5; }")).unwrap();
    let after: Vec<String> = c.ir().iter().map(|i| format!("{:?}", i)).collect();
    assert!(after.len() > before.len());
    assert_eq!(&after[..before.len()], &before[..]);
    assert!(c.next_label() >= labels);
}

#[test]
fn labels_are_numbered_in_order_and_jumps_hit_them() {
    let mut c = Compiler::new();
    let ast = parse(
        "int a; int main() { a = 0; while (a < 3) { if (a < 1 && true || false) { a = a + 2; } else { a = a + 1; } } } a;",
    );
    c.ast_to_ir(&ast).unwrap();
    let n = c.next_label();
    let mut labels: Vec<u32> = Vec::new();
    for i in c.ir() {
        match i {
            IR::Label(l) => labels.push(*l),
            IR::Jmp(l) | IR::JmpIfFalse(l) | IR::JmpIfTrue(l) => assert!(*l < n),
            _ => {}
        }
    }
    let expected: Vec<u32> = (0..n).collect();
    assert_eq!(labels, expected);
    assert!(n > 0);
}

#[test]
fn checker_agrees_with_compiler_on_globals() {
    let programs = [
        "a = 1 + 2;",
        "b = true;",
        "b = 1;",
        "a = b;",
        "{ a = a * 2; a; } a / 3;",
        "c = 1;",
        "1 + true;",
        "a;",
    ];
    for p in programs.iter() {
        let mut c = Compiler::new();
        c.ast_to_ir(&parse("int a; bool b;")).unwrap();
        let e = parse(p);
        let t = types(&e, c.symbols());
        let r = c.ast_to_ir(&e);
        assert_eq!(t.is_ok(), r.is_ok(), "{}", p);
        if let (Ok(x), Ok(y)) = (&t, &r) {
            assert_eq!(x, y, "{}", p);
        }
    }
}

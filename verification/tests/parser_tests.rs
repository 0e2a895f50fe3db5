use microc::ast::AST;
use microc::parser::{parse, preprocess_input, try_parse, ParseStop, Source};

fn src(text: &str) -> Source {
    Source::new(String::from(text))
}

#[test]
fn prim() {
    println!("{:?}", src("   ( 123 )").p_primary(0));
    println!("{:?}", src("123").p_primary(0));
    assert_eq!(format!("{:?}", src("   ( 123 )").p_primary(0)), "Ok(Some((10, Number(123))))");
}

#[test]
fn fact() {
    println!("{:?}", src("2 * 3 * 4").p_level(0, 4));
    println!("{:?}", src("1 * 2 / 3").p_level(0, 4));
    assert_eq!(
        format!("{:?}", src("1 * 2 / 3").p_level(0, 4)),
        "Ok(Some((9, Div(Mul(Number(1), Number(2)), Number(3)))))"
    );
}

#[test]
fn ter() {
    println!("{:?}", src("1 + 2 / 3").p_level(0, 3));
    println!("{:?}", src("( 1 + 2 ) / 3").p_level(0, 3));
    assert_eq!(
        format!("{:?}", src("1 + 2 / 3").p_level(0, 3)),
        "Ok(Some((9, Add(Number(1), Div(Number(2), Number(3))))))"
    );
}

#[test]
fn sym() {
    println!("{:?}", src("\n  Hello there").p_symbol(0));
    println!("{:?}", src("test .").p_symbol(0));
    println!("{:?}", src("testtt").p_symbol(0));
    assert_eq!(format!("{:?}", src("\n  Hello there").p_symbol(0)), "Some((8, \"Hello\"))");
}

#[test]
fn test_assign() {
    println!("{:?}", src("foo  =    1 + 2 + 3;").p_assign(0));
    println!("{:?}", src("a=b;").p_assign(0));
    assert_eq!(
        format!("{:?}", src("a=b;").p_assign(0)),
        "Ok(Some((4, AssignVar(\"a\", GetVar(\"b\")))))"
    );
}

#[test]
fn test_program() {
    println!("{:?}", src(" a=1  ;   b = a * 2;").program());
    println!("{:?}", src("1").program());
    println!("{:?}", src("((  1+2  ) * 3+2  )    *4;").program());
    println!("{:?}", src("1;4;3;").program());

    println!("{:?}", src("bool a; int b; b = 10; b;").program());
    println!("{:?}", src("{bool a; {int b; {b = 10;}} b;}").program());

    println!("{:?}", src("bool t; {  t = true;    bool b = false;   }t;").program());

    println!("{:?}", src(" { t = true;     bool b; } t;").p_block(0));
    assert!(matches!(src("1").program(), Ok(None)));
    assert_eq!(
        format!("{:?}", src("1;4;3;").program()),
        "Ok(Some((6, Many([Number(1), Number(4), Number(3)]))))"
    );
}

#[test]
fn test_type() {
    println!("{:?}", src("bool a").p_type(0));
    assert_eq!(format!("{:?}", src("bool a").p_type(0)), "Some((4, BOOL))");
}

#[test]
fn test_decl() {
    println!("{:?}", src("bool a;").p_declare(0));
    println!("{:?}", src("int b;").p_declare(0));
    assert_eq!(format!("{:?}", src("int b;").p_declare(0)), "Some((6, DeclareVar(\"b\", INT)))");
}

#[test]
fn test_expr_stmt() {
    println!("{:?}", src("1 * 3 + 4 / (4 - 3);").p_expr_stmt(0));
    assert_eq!(
        format!("{:?}", src("1 * 3 + 4 / (4 - 3);").p_expr_stmt(0)),
        "Ok(Some((20, Add(Mul(Number(1), Number(3)), Div(Number(4), Sub(Number(4), Number(3)))))))"
    );
}

#[test]
fn test_block() {
    println!("{:?}", src("{int a; a = 10; bool b;}").p_block(0));
    assert_eq!(
        format!("{:?}", src("{int a; a = 10; bool b;}").p_block(0)),
        "Ok(Some((24, Block([DeclareVar(\"a\", INT), AssignVar(\"a\", Number(10)), DeclareVar(\"b\", BOOL)]))))"
    );
}

#[test]
fn test_bool() {
    println!("{:?}", src(" true").p_bool(0));
    println!("{:?}", src("   false;").p_bool(0));
    assert_eq!(src(" true").p_bool(0), Some((5, true)));
    assert_eq!(src("   false;").p_bool(0), Some((8, false)));
}

#[test]
fn test_parse() {
    println!("{:?}", src("1 + 2 * 3").p_expr(0).unwrap().unwrap().1.eval());
    println!("{:?}", src("( 1 + 2 ) * 3").p_expr(0).unwrap().unwrap().1.eval());
    assert_eq!(src("1 + 2 * 3").p_expr(0).unwrap().unwrap().1.eval(), 7);
    assert_eq!(src("( 1 + 2 ) * 3").p_expr(0).unwrap().unwrap().1.eval(), 9);
}

#[test]
fn preprocess_drops_comments_and_empty_lines() {
    let out = preprocess_input("int a;\n// a comment\n\r\na = 1;\r\n\na;");
    assert_eq!(out, "int a;a = 1;a;");
}

#[test]
fn parse_program_with_functions_and_loops() {
    let ast = parse("int f(int n, bool b) { int r; r = 0; while (r < n) { r = r + 1; } r; } f(3, true);");
    let text = format!("{:?}", ast);
    assert!(text.starts_with("Many([FunDecl(INT, \"f\", [(\"n\", INT), (\"b\", BOOL)], Block(["));
    assert!(text.contains("While(Lesser(GetVar(\"r\"), GetVar(\"n\")), Block([AssignVar(\"r\", Add(GetVar(\"r\"), Number(1)))]))"));
    assert!(text.ends_with("FunCall(\"f\", [Number(3), Bool(true)])])"));
}

#[test]
fn parse_if_else_and_boolean_operators() {
    let ast = parse("if (true && false || true) { 1; } else { 2; }");
    assert_eq!(
        format!("{:?}", ast),
        "Many([If(BoolOr(BoolAnd(Bool(true), Bool(false)), Bool(true)), Block([Number(1)]), Some(Block([Number(2)])))])"
    );
}

#[test]
fn parse_keeps_what_parses() {
    let ast = parse("1; 2; ) junk");
    match ast {
        AST::Many(v) => assert_eq!(v.len(), 2),
        _ => panic!("expected a sequence"),
    }
}

#[test]
fn comment_line_is_ignored() {
    let with = preprocess_input("int a;\n// int b;\na = 2;\na;");
    let without = preprocess_input("int a;\na = 2;\na;");
    assert_eq!(with, without);
    assert_eq!(with, "int a;a = 2;a;");
}

#[test]
fn checked_parse() {
    assert!(try_parse("1 + 2").is_none());
    assert!(try_parse("x = 99999999999;").is_none());
    assert!(matches!(src("x = 99999999999;").program(), Err(ParseStop::NumberOutOfRange)));
    // Digits that the parser never reaches do not stop it.
    let ast = try_parse("1;)99999999999").unwrap();
    assert_eq!(format!("{:?}", ast), "Many([Number(1)])");
    assert_eq!(src("2147483647;").program().unwrap().unwrap().0, 11);
    assert!(src("2147483648;").program().is_err());
}

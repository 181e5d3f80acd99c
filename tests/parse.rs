use fcnlang::ast::Expr;
use fcnlang::error::{Expected, ParseError};
use fcnlang::parser::{parse, parse_expression};

fn expr_dump(src: &str) -> String {
    let (e, _) = parse_expression(src).expect("expression should parse");
    format!("{:?}", e)
}

#[test]
fn multiplication_binds_tighter_than_addition() {
    assert_eq!(
        expr_dump("1+2*3"),
        "Add(Lit(Int(1)), Mul(Lit(Int(2)), Lit(Int(3))))"
    );
}

#[test]
fn subtraction_is_left_associative() {
    assert_eq!(
        expr_dump("1-2-3"),
        "Sub(Sub(Lit(Int(1)), Lit(Int(2))), Lit(Int(3)))"
    );
}

#[test]
fn division_is_left_associative() {
    assert_eq!(
        expr_dump("8 / 4 / 2"),
        "Div(Div(Lit(Int(8)), Lit(Int(4))), Lit(Int(2)))"
    );
}

#[test]
fn repeated_minus_stacks_negations() {
    assert_eq!(expr_dump("--5"), "Neg(Neg(Lit(Int(5))))");
    assert_eq!(expr_dump("- - x"), "Neg(Neg(Var(\"x\")))");
}

#[test]
fn parentheses_override_precedence() {
    assert_eq!(
        expr_dump("(1 + 2) * 3"),
        "Mul(Add(Lit(Int(1)), Lit(Int(2))), Lit(Int(3)))"
    );
}

#[test]
fn empty_argument_list() {
    assert_eq!(expr_dump("f()"), "Call(Var(\"f\"), [])");
}

#[test]
fn nested_call_arguments() {
    assert_eq!(
        expr_dump("f(a, g(1) + 2, \"hi\")"),
        "Call(Var(\"f\"), [Var(\"a\"), Add(Call(Var(\"g\"), [Lit(Int(1))]), Lit(Int(2))), Lit(Str(\"hi\"))])"
    );
}

#[test]
fn expression_reports_where_the_rest_starts() {
    let (e, rest) = parse_expression("  1 + 2 ; x").unwrap();
    assert_eq!(format!("{:?}", e), "Add(Lit(Int(1)), Lit(Int(2)))");
    assert_eq!(rest, 8);
}

#[test]
fn empty_parameter_list_and_body() {
    let p = parse("fcn int f(){ }").unwrap();
    assert_eq!(p.len(), 1);
    assert_eq!(
        format!("{:?}", p[0]),
        "Func { name: Var(\"f\"), return_type: Type(\"int\"), args: [], body: [] }"
    );
}

#[test]
fn empty_program() {
    assert_eq!(parse("  \n ").unwrap().len(), 0);
    assert_eq!(parse("").unwrap().len(), 0);
}

#[test]
fn functions_keep_textual_order() {
    let p = parse("fcn int b() { }\nfcn str a(x) { }\n fcn int c(y, z) { ret y; }").unwrap();
    let names: Vec<String> = p
        .iter()
        .map(|f| match f {
            Expr::Func { name, .. } => format!("{:?}", name),
            _ => String::new(),
        })
        .collect();
    assert_eq!(names, vec!["Var(\"b\")", "Var(\"a\")", "Var(\"c\")"]);
}

#[test]
fn statements_of_every_kind() {
    let p = parse("fcn int main(a, b) {\n  int x = a * (b - 1);\n  print(x);\n  return x;\n  ret -x;\n}\n")
        .unwrap();
    assert_eq!(
        format!("{:?}", p[0]),
        "Func { name: Var(\"main\"), return_type: Type(\"int\"), args: [Var(\"a\"), Var(\"b\")], body: [\
Assign { name: Var(\"x\"), typ: Type(\"int\"), rhs: Mul(Var(\"a\"), Sub(Var(\"b\"), Lit(Int(1)))) }, \
Call(Var(\"print\"), [Var(\"x\")]), \
Return { value: Var(\"x\") }, \
Return { value: Neg(Var(\"x\")) }] }"
    );
}

#[test]
fn missing_close_paren_on_parameters_fails() {
    let r = parse("fcn int f( { }");
    assert!(matches!(
        r,
        Err(ParseError::UnexpectedToken { .. }) | Err(ParseError::UnterminatedGroup { .. })
    ));
    assert_eq!(
        r.unwrap_err(),
        ParseError::UnexpectedToken { expected: Expected::Identifier, found: Some('{'), pos: 11 }
    );
}

#[test]
fn missing_trailing_semicolon_fails() {
    assert!(parse("fcn int f() { ret 1 }").is_err());
    assert!(parse("fcn int f() { f(1) }").is_err());
    assert!(parse("fcn int f() { ret 1; }").is_ok());
}

#[test]
fn unterminated_groups() {
    assert_eq!(
        parse_expression("(1 + 2").unwrap_err(),
        ParseError::UnterminatedGroup { pos: 6 }
    );
    assert_eq!(
        parse("fcn int f() { ret 1;").unwrap_err(),
        ParseError::UnterminatedGroup { pos: 20 }
    );
    assert_eq!(
        parse("fcn int f(a, b").unwrap_err(),
        ParseError::UnterminatedGroup { pos: 14 }
    );
}

#[test]
fn integer_range() {
    assert_eq!(
        expr_dump("9223372036854775807"),
        "Lit(Int(9223372036854775807))"
    );
    assert_eq!(
        parse_expression("9223372036854775808").unwrap_err(),
        ParseError::NumericOverflow { pos: 0 }
    );
    assert_eq!(
        parse_expression(" 1 + 99999999999999999999999").unwrap_err(),
        ParseError::NumericOverflow { pos: 5 }
    );
}

#[test]
fn malformed_string_literal() {
    assert_eq!(
        parse_expression("\"a\\b\"").unwrap_err(),
        ParseError::LexicalError { pos: 2 }
    );
    assert_eq!(
        parse_expression("\"abc").unwrap_err(),
        ParseError::LexicalError { pos: 4 }
    );
}

#[test]
fn trailing_input_after_functions() {
    assert_eq!(
        parse("fcn int f() { } x").unwrap_err(),
        ParseError::TrailingInput { pos: 16 }
    );
    assert_eq!(parse("fcnx").unwrap_err(), ParseError::TrailingInput { pos: 0 });
}

#[test]
fn reserved_words_are_not_names() {
    assert_eq!(
        parse("fcn int ret() { }").unwrap_err(),
        ParseError::UnexpectedToken { expected: Expected::Identifier, found: Some('r'), pos: 8 }
    );
    assert_eq!(
        parse_expression("fcn").unwrap_err(),
        ParseError::UnexpectedToken { expected: Expected::Identifier, found: Some('f'), pos: 0 }
    );
    // A longer word that merely starts with a reserved word is a name.
    assert_eq!(expr_dump("returned"), "Var(\"returned\")");
}

#[test]
fn unexpected_token_in_expression() {
    assert_eq!(
        parse_expression("1 + ;").unwrap_err(),
        ParseError::UnexpectedToken { expected: Expected::Expression, found: Some(';'), pos: 4 }
    );
    assert_eq!(
        parse_expression("").unwrap_err(),
        ParseError::UnexpectedToken { expected: Expected::Expression, found: None, pos: 0 }
    );
}

#[test]
fn declaration_needs_equals_sign() {
    assert_eq!(
        parse("fcn int f() { int x 1; }").unwrap_err(),
        ParseError::UnexpectedToken { expected: Expected::Char('='), found: Some('1'), pos: 20 }
    );
}

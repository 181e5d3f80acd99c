use fcnlang::ast::{Expr, Lit};
use fcnlang::parser::{parse, parse_expression};
use fcnlang::printer::{expr_source, program_source};

#[test]
fn expression_text_is_fully_parenthesised() {
    let (e, _) = parse_expression("1+2*3").unwrap();
    assert_eq!(expr_source(&e), "(1+(2*3))");
    let (e, _) = parse_expression("1-2-3").unwrap();
    assert_eq!(expr_source(&e), "((1-2)-3)");
    let (e, _) = parse_expression("--5").unwrap();
    assert_eq!(expr_source(&e), "--5");
}

#[test]
fn call_and_string_text() {
    let (e, _) = parse_expression("f( a , \"x y\" , g() )").unwrap();
    assert_eq!(expr_source(&e), "f(a,\"x y\",g())");
}

#[test]
fn negative_literal_text() {
    assert_eq!(expr_source(&Expr::Lit(Lit::Int(-5))), "-5");
    assert_eq!(
        expr_source(&Expr::Lit(Lit::Int(i64::MIN))),
        "-9223372036854775808"
    );
    assert_eq!(expr_source(&Expr::Lit(Lit::Int(0))), "0");
}

#[test]
fn program_text_of_a_parse() {
    let p = parse("fcn int main(a, b) {\n  int x = a * (b - 1);\n  print(x);\n  ret x;\n}\nfcn str g() { }")
        .unwrap();
    assert_eq!(
        program_source(&p),
        "fcn int main(a,b){int x=(a*(b-1));print(x);ret x;}fcn str g(){}"
    );
}

#[test]
fn printing_twice_is_identical() {
    let p = parse("fcn int f(x) { return -x / 2 + 1; }").unwrap();
    let first = program_source(&p);
    let second = program_source(&p);
    assert_eq!(first, second);
    assert_eq!(first, "fcn int f(x){ret ((-x/2)+1);}");
}

#[test]
fn reprinting_is_stable() {
    let p = parse("fcn int f(a,b) { int c = a - (b - 7) * 3; ret g(c, \"s\"); }").unwrap();
    let text = program_source(&p);
    let q = parse(&text).unwrap();
    assert_eq!(program_source(&q), text);
    assert_eq!(format!("{:?}", p), format!("{:?}", q));
}

#[test]
fn empty_program_text() {
    let p = parse("").unwrap();
    assert_eq!(program_source(&p), "");
}

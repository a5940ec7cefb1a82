use canon_expr::builtin::init_symbols;
use canon_expr::grammar::parse;
use canon_expr::main_expr::MainExpr;
use canon_expr::pexpr::PExpr;

fn dump_of(text: &str) -> String {
    let symbols = init_symbols();
    let e = parse(text).unwrap();
    MainExpr::from_pexpr(&e, &symbols).unwrap().print_expr()
}

fn canonical_of(text: &str) -> String {
    let symbols = init_symbols();
    let e = parse(text).unwrap();
    let mut m = MainExpr::from_pexpr(&e, &symbols).unwrap();
    m.normalize();
    m.print_expr()
}

#[test]
fn parse_num() {
    assert!(matches!(parse("1234"), Some(PExpr::Num(1234))));
    assert!(matches!(parse("  0"), Some(PExpr::Num(0))));
    assert!(matches!(parse("  0123  "), Some(PExpr::Num(123))));
}

#[test]
fn parse_rejects_bad_input() {
    assert!(parse("").is_none());
    assert!(parse("1 +").is_none());
    assert!(parse("(1").is_none());
    assert!(parse("1 2").is_none());
    assert!(parse("f()").is_none());
    assert!(parse("9223372036854775808").is_none());
    assert!(matches!(parse("9223372036854775807"), Some(PExpr::Num(i64::MAX))));
}

#[test]
fn parse_precedence_and_left_fold() {
    assert_eq!(
        dump_of("1 - 2 - 3 * 4"),
        "sub\n    sub\n        1\n        2\n    mul\n        3\n        4\n"
    );
    assert_eq!(dump_of("(1 - 2) / 3"), "div\n    sub\n        1\n        2\n    3\n");
}

#[test]
fn parse_power_groups_right() {
    assert_eq!(
        dump_of("2^3^4"),
        "pow\n    2\n    pow\n        3\n        4\n"
    );
}

#[test]
fn parse_negation_and_calls() {
    assert_eq!(dump_of("--5"), "neg\n    neg\n        5\n");
    assert_eq!(
        dump_of("pow(2, -1)"),
        "pow\n    2\n    neg\n        1\n"
    );
}

#[test]
fn parsed_sum_of_products_normalizes() {
    assert_eq!(
        canonical_of("1 + 2 + 3 * 4 * 5 + 6"),
        "add\n    mul\n        3\n        4\n        5\n    1\n    2\n    6\n"
    );
}

#[test]
fn parsed_difference_of_quotient_converts_and_normalizes() {
    let symbols = init_symbols();
    let e = parse("1 - 2 / 7").unwrap();
    let mut m = MainExpr::from_pexpr(&e, &symbols).unwrap();
    m.inv_conversion(&"sub".to_string(), &"add".to_string(), &"neg".to_string(), &symbols)
        .unwrap();
    m.inv_conversion(&"div".to_string(), &"mul".to_string(), &"recip".to_string(), &symbols)
        .unwrap();
    assert_eq!(
        m.print_expr(),
        "add\n    1\n    neg\n        mul\n            2\n            recip\n                7\n"
    );
    m.normalize();
    assert_eq!(
        m.print_expr(),
        "add\n    neg\n        mul\n            recip\n                7\n            2\n    1\n"
    );
}

#[test]
fn parsed_unknown_function_is_rejected() {
    let symbols = init_symbols();
    let e = parse("foo(1, 2)").unwrap();
    assert!(MainExpr::from_pexpr(&e, &symbols).is_err());
}

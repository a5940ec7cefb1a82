use canon_expr::builtin::init_symbols;
use canon_expr::main_expr::{EngineError, MainExpr};
use canon_expr::parse::{create_binop, fold_power, parse_number, wrap_negations};
use canon_expr::pexpr::PExpr;
use canon_expr::symbols::{FuncAttr, Symbols};

fn num(n: i64) -> PExpr {
    PExpr::Num(n)
}

fn func(name: &str, args: Vec<PExpr>) -> PExpr {
    PExpr::Func(name.to_string(), args)
}

fn canonical(e: &PExpr) -> String {
    let symbols = init_symbols();
    let mut m = MainExpr::from_pexpr(e, &symbols).unwrap();
    m.normalize();
    m.print_expr()
}

#[test]
fn symbols_lookup_and_overwrite() {
    let mut symbols = Symbols::new();
    assert!(symbols.get_function(&"add".to_string()).is_none());
    symbols.add_function("add".to_string(), FuncAttr::new(true, false));
    symbols.add_function("add".to_string(), FuncAttr::new(true, true));
    let a = symbols.get_function(&"add".to_string()).unwrap();
    assert!(a.is_associative());
    assert!(a.is_commutative());
    assert!(symbols.get_function(&"sub".to_string()).is_none());
}

#[test]
fn attribute_rank() {
    assert_eq!(FuncAttr::new(false, false).rank(), 0);
    assert_eq!(FuncAttr::new(false, true).rank(), 1);
    assert_eq!(FuncAttr::new(true, false).rank(), 2);
    assert_eq!(FuncAttr::new(true, true).rank(), 3);
}

#[test]
fn dump_of_ingested_tree() {
    let symbols = init_symbols();
    let e = func("sub", vec![num(-5), func("neg", vec![num(42)])]);
    let m = MainExpr::from_pexpr(&e, &symbols).unwrap();
    assert_eq!(m.print_expr(), "sub\n    -5\n    neg\n        42\n");
}

#[test]
fn commutative_children_sorted_ascending() {
    let e = func("add", vec![num(3), num(1), num(2)]);
    assert_eq!(canonical(&e), "add\n    1\n    2\n    3\n");
}

#[test]
fn associative_grouping_gives_one_form() {
    let left = func("add", vec![func("add", vec![num(1), num(2)]), num(3)]);
    let right = func("add", vec![num(1), func("add", vec![num(2), num(3)])]);
    let flat = func("add", vec![num(1), num(2), num(3)]);
    let expected = "add\n    1\n    2\n    3\n";
    assert_eq!(canonical(&left), expected);
    assert_eq!(canonical(&right), expected);
    assert_eq!(canonical(&flat), expected);
}

#[test]
fn associative_grouping_of_subtrees() {
    let a = || func("neg", vec![num(9)]);
    let b = || func("pow", vec![num(2), num(3)]);
    let c = || num(4);
    let left = func("mul", vec![func("mul", vec![a(), b()]), c()]);
    let right = func("mul", vec![a(), func("mul", vec![b(), c()])]);
    assert_eq!(canonical(&left), canonical(&right));
}

#[test]
fn non_associative_operator_not_flattened() {
    let e = func("sub", vec![func("sub", vec![num(1), num(2)]), num(3)]);
    assert_eq!(canonical(&e), "sub\n    sub\n        1\n        2\n    3\n");
}

#[test]
fn functions_sort_before_numbers_and_by_name() {
    let symbols = init_symbols();
    let mut extended = init_symbols();
    extended.add_function("foo".to_string(), FuncAttr::new(false, false));
    extended.add_function("bar".to_string(), FuncAttr::new(false, false));
    let e = func("add", vec![num(7), func("foo", vec![num(1)]), func("bar", vec![num(1)])]);
    assert!(MainExpr::from_pexpr(&e, &symbols).is_err());
    let mut m = MainExpr::from_pexpr(&e, &extended).unwrap();
    m.normalize();
    assert_eq!(m.print_expr(), "add\n    bar\n        1\n    foo\n        1\n    7\n");
}

#[test]
fn arity_breaks_ties_before_children() {
    let e = func(
        "add",
        vec![func("mul", vec![num(9), num(9)]), func("mul", vec![num(1), num(1), num(1)])],
    );
    assert_eq!(
        canonical(&e),
        "add\n    mul\n        9\n        9\n    mul\n        1\n        1\n        1\n"
    );
}

#[test]
fn inverse_conversion_of_subtraction() {
    let symbols = init_symbols();
    let e = func("sub", vec![num(1), num(2)]);
    let mut m = MainExpr::from_pexpr(&e, &symbols).unwrap();
    m.inv_conversion(&"sub".to_string(), &"add".to_string(), &"neg".to_string(), &symbols)
        .unwrap();
    assert_eq!(m.print_expr(), "add\n    1\n    neg\n        2\n");
}

#[test]
fn inverse_conversion_skips_wrong_arity() {
    let symbols = init_symbols();
    let e = func("sub", vec![num(1), num(2), num(3)]);
    let mut m = MainExpr::from_pexpr(&e, &symbols).unwrap();
    m.inv_conversion(&"sub".to_string(), &"add".to_string(), &"neg".to_string(), &symbols)
        .unwrap();
    assert_eq!(m.print_expr(), "sub\n    1\n    2\n    3\n");
}

#[test]
fn inverse_conversion_unknown_target() {
    let symbols = init_symbols();
    let e = func("sub", vec![num(1), num(2)]);
    let mut m = MainExpr::from_pexpr(&e, &symbols).unwrap();
    let r = m.inv_conversion(&"sub".to_string(), &"plus".to_string(), &"neg".to_string(), &symbols);
    assert_eq!(r, Err(EngineError::UnknownOperator("plus".to_string())));
    let r = m.inv_conversion(&"sub".to_string(), &"add".to_string(), &"minus".to_string(), &symbols);
    assert_eq!(r, Err(EngineError::UnknownOperator("minus".to_string())));
    assert_eq!(m.print_expr(), "sub\n    1\n    2\n");
}

#[test]
fn end_to_end_sum_of_products() {
    // 1 + 2 + 3 * 4 * 5 + 6, as the parser folds it
    let product = func("mul", vec![func("mul", vec![num(3), num(4)]), num(5)]);
    let e = func(
        "add",
        vec![func("add", vec![func("add", vec![num(1), num(2)]), product]), num(6)],
    );
    assert_eq!(
        canonical(&e),
        "add\n    mul\n        3\n        4\n        5\n    1\n    2\n    6\n"
    );
}

#[test]
fn end_to_end_difference_of_quotient() {
    // 1 - 2 / 7, as the parser folds it
    let symbols = init_symbols();
    let e = func("sub", vec![num(1), func("div", vec![num(2), num(7)])]);
    let mut m = MainExpr::from_pexpr(&e, &symbols).unwrap();
    m.inv_conversion(&"sub".to_string(), &"add".to_string(), &"neg".to_string(), &symbols)
        .unwrap();
    m.inv_conversion(&"div".to_string(), &"mul".to_string(), &"recip".to_string(), &symbols)
        .unwrap();
    assert_eq!(
        m.print_expr(),
        "add\n    1\n    neg\n        mul\n            2\n            recip\n                7\n"
    );
    m.normalize();
    assert_eq!(
        m.print_expr(),
        "add\n    neg\n        mul\n            recip\n                7\n            2\n    1\n"
    );
}

#[test]
fn unknown_operator_is_reported() {
    let symbols = init_symbols();
    let e = func("add", vec![num(1), func("foo", vec![func("bar", vec![])])]);
    match MainExpr::from_pexpr(&e, &symbols) {
        Err(EngineError::UnknownOperator(name)) => assert_eq!(name, "foo"),
        Ok(_) => panic!("an unknown operator was accepted"),
    }
}

#[test]
fn normalization_is_idempotent() {
    let symbols = init_symbols();
    let e = func(
        "mul",
        vec![
            func("add", vec![num(5), func("add", vec![num(2), num(-1)])]),
            num(3),
            func("mul", vec![num(0), func("neg", vec![num(4)])]),
        ],
    );
    let mut m = MainExpr::from_pexpr(&e, &symbols).unwrap();
    m.normalize();
    let once = m.print_expr();
    m.normalize();
    assert_eq!(m.print_expr(), once);
}

#[test]
fn number_literals() {
    assert!(matches!(parse_number("1234"), Some(PExpr::Num(1234))));
    assert!(matches!(parse_number("0123"), Some(PExpr::Num(123))));
    assert!(matches!(parse_number("0"), Some(PExpr::Num(0))));
    assert!(matches!(parse_number("9223372036854775807"), Some(PExpr::Num(i64::MAX))));
    assert!(parse_number("9223372036854775808").is_none());
}

#[test]
fn grammar_tree_builders() {
    let symbols = init_symbols();
    let dump = |e: PExpr| MainExpr::from_pexpr(&e, &symbols).unwrap().print_expr();
    assert_eq!(dump(create_binop(num(1), '/', num(2)).unwrap()), "div\n    1\n    2\n");
    assert_eq!(dump(create_binop(num(1), '-', num(2)).unwrap()), "sub\n    1\n    2\n");
    assert!(create_binop(num(1), '%', num(2)).is_none());
    assert_eq!(
        dump(fold_power(vec![num(2), num(3), num(4)])),
        "pow\n    2\n    pow\n        3\n        4\n"
    );
    assert_eq!(dump(fold_power(vec![num(5)])), "5\n");
    assert_eq!(dump(wrap_negations(2, num(8))), "neg\n    neg\n        8\n");
    assert_eq!(dump(wrap_negations(0, num(8))), "8\n");
}

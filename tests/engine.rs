use std::cmp::Ordering;

use canon_expr::engine::{normalize_visit, sort_nodes, Engine, Node, Symbol};
use canon_expr::main_expr::EngineError;
use canon_expr::pexpr::PExpr;

#[test]
fn node_cmp() {
    let n1 = Node::Func(
        "foo".to_string(),
        Symbol {
            associative: false,
            commutative: false,
        },
        vec![],
    );
    let n2 = Node::Num(2);
    assert_eq!(n1.cmp(&n2), Ordering::Less);
    assert_eq!(n2.cmp(&n1), Ordering::Greater);
}

#[test]
fn node_sort() {
    let n1 = Node::Func(
        "foo".to_string(),
        Symbol {
            associative: false,
            commutative: false,
        },
        vec![],
    );
    let n2 = Node::Num(2);
    let n3 = Node::Num(5);
    let mut v = vec![n3, n1, n2];
    sort_nodes(&mut v);
    assert!(match (&v[0], &v[1], &v[2]) {
        (Node::Func(_, _, _), Node::Num(2), Node::Num(5)) => true,
        _ => false,
    })
}

fn plain() -> Symbol {
    Symbol {
        associative: false,
        commutative: false,
    }
}

#[test]
fn node_order_by_name_rank_arity_children() {
    let f = |name: &str, s: Symbol, cs: Vec<Node>| Node::Func(name.to_string(), s, cs);
    let ac = Symbol {
        associative: true,
        commutative: true,
    };
    assert_eq!(f("bar", ac, vec![]).cmp(&f("foo", plain(), vec![])), Ordering::Less);
    assert_eq!(f("foo", plain(), vec![]).cmp(&f("foo", ac, vec![])), Ordering::Less);
    assert_eq!(
        f("foo", plain(), vec![Node::Num(9)]).cmp(&f("foo", plain(), vec![Node::Num(1), Node::Num(1)])),
        Ordering::Less
    );
    assert_eq!(
        f("foo", plain(), vec![Node::Num(1), Node::Num(3)])
            .cmp(&f("foo", plain(), vec![Node::Num(1), Node::Num(2)])),
        Ordering::Greater
    );
    assert_eq!(
        f("foo", plain(), vec![Node::Num(1)]).cmp(&f("foo", plain(), vec![Node::Num(1)])),
        Ordering::Equal
    );
    assert_eq!(Node::Num(-3).cmp(&Node::Num(2)), Ordering::Less);
}

#[test]
fn engine_reads_normalizes_and_prints() {
    let mut engine = Engine::new();
    engine.init();
    let e = PExpr::Func(
        "add".to_string(),
        vec![
            PExpr::Num(3),
            PExpr::Func("add".to_string(), vec![PExpr::Num(1), PExpr::Num(2)]),
            PExpr::Func("neg".to_string(), vec![PExpr::Num(4)]),
        ],
    );
    let node = engine.read_expr(&e).unwrap();
    assert_eq!(
        Engine::print_tree(&node),
        "add\n    3\n    add\n        1\n        2\n    neg\n        4\n"
    );
    let canonical = Engine::normalize(&node);
    assert_eq!(
        Engine::print_tree(&canonical),
        "add\n    neg\n        4\n    1\n    2\n    3\n"
    );
    let again = normalize_visit(&canonical);
    assert_eq!(Engine::print_tree(&again), Engine::print_tree(&canonical));
}

#[test]
fn engine_without_recip_rejects_it() {
    let mut engine = Engine::new();
    let e = PExpr::Func("recip".to_string(), vec![PExpr::Num(4)]);
    assert!(matches!(engine.read_expr(&PExpr::Num(1)), Ok(Node::Num(1))));
    engine.init();
    match engine.read_expr(&e) {
        Err(EngineError::UnknownOperator(name)) => assert_eq!(name, "recip"),
        Ok(_) => panic!("recip is not registered"),
    }
}

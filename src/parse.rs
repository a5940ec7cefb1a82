use vstd::prelude::*;

use crate::pexpr::PExpr;

verus! {

/// A non-empty run of ASCII decimal digits.
pub open spec fn is_digits(s: Seq<char>) -> bool {
    &&& s.len() > 0
    &&& forall|k: int| 0 <= k < s.len() ==> '0' <= #[trigger] s[k] <= '9'
}

/// The decimal value of a run of digits.
pub open spec fn digits_value(s: Seq<char>) -> int
    decreases s.len(),
{
    if s.len() == 0 {
        0
    } else {
        digits_value(s.drop_last()) * 10 + (s.last() as int - '0' as int)
    }
}

/// Relies on `str::parse::<i64>`: a run of ASCII digits parses to its decimal
/// value, and fails exactly when that value does not fit in an `i64`.
#[verifier::external_body]
fn parse_i64(s: &str) -> (r: Option<i64>)
    requires
        is_digits(s@),
    ensures
        r is Some <==> digits_value(s@) <= i64::MAX,
        r matches Some(v) ==> v as int == digits_value(s@),
{
    s.parse::<i64>().ok()
}

/// The literal written by a run of digits; `None` when its value does not
/// fit in an `i64`.
pub fn parse_number(parsed_num: &str) -> (r: Option<PExpr>)
    requires
        is_digits(parsed_num@),
    ensures
        r is Some <==> digits_value(parsed_num@) <= i64::MAX,
        r matches Some(e) ==> e matches PExpr::Num(v) && v as int == digits_value(parsed_num@),
{
    match parse_i64(parsed_num) {
        Some(n) => Some(PExpr::Num(n)),
        None => None,
    }
}

/// The operator name that a binary operator symbol stands for.
pub open spec fn binop_name(op: char) -> Option<Seq<char>> {
    if op == '+' {
        Some("add"@)
    } else if op == '-' {
        Some("sub"@)
    } else if op == '*' {
        Some("mul"@)
    } else if op == '/' {
        Some("div"@)
    } else {
        None
    }
}

/// `e` applies the operator `name` to exactly `args`.
pub open spec fn is_application(e: PExpr, name: Seq<char>, args: Seq<PExpr>) -> bool {
    match e {
        PExpr::Func(n, a) => n@ == name && a@ == args,
        PExpr::Num(_) => false,
    }
}

/// `e` is `items` joined by `pow` to the right: `a ^ b ^ c` is `pow(a, pow(b, c))`.
pub open spec fn is_power_chain(e: PExpr, items: Seq<PExpr>) -> bool
    decreases items.len(),
{
    if items.len() == 1 {
        e == items[0]
    } else if items.len() > 1 {
        match e {
            PExpr::Func(n, a) => n@ == "pow"@ && a@.len() == 2 && a@[0] == items[0] && is_power_chain(
                a@[1],
                items.subrange(1, items.len() as int),
            ),
            PExpr::Num(_) => false,
        }
    } else {
        false
    }
}

/// `e` is `inner` wrapped in `count` applications of `neg`.
pub open spec fn is_negation(e: PExpr, count: nat, inner: PExpr) -> bool
    decreases count,
{
    if count == 0 {
        e == inner
    } else {
        match e {
            PExpr::Func(n, a) => n@ == "neg"@ && a@.len() == 1 && is_negation(
                a@[0],
                (count - 1) as nat,
                inner,
            ),
            PExpr::Num(_) => false,
        }
    }
}

/// The application of a binary operator symbol (`+ - * /`) to two operands;
/// `None` for any other symbol.
pub fn create_binop(e1: PExpr, op: char, e2: PExpr) -> (r: Option<PExpr>)
    ensures
        r is Some <==> binop_name(op) is Some,
        r matches Some(e) ==> is_application(e, binop_name(op)->0, seq![e1, e2]),
{
    let name = if op == '+' {
        "add"
    } else if op == '-' {
        "sub"
    } else if op == '*' {
        "mul"
    } else if op == '/' {
        "div"
    } else {
        return None;
    };
    let mut args: Vec<PExpr> = Vec::new();
    args.push(e1);
    args.push(e2);
    proof {
        assert(args@ =~= seq![e1, e2]);
    }
    Some(PExpr::Func(name.to_owned(), args))
}

/// Joins a non-empty list of operands by `pow`, grouping to the right.
pub fn fold_power(operands: Vec<PExpr>) -> (r: PExpr)
    requires
        operands@.len() > 0,
    ensures
        is_power_chain(r, operands@),
{
    let mut rest = operands;
    let ghost items = rest@;
    let mut acc = rest.pop().unwrap();
    proof {
        assert(items.subrange(items.len() - 1, items.len() as int) =~= seq![acc]);
    }
    while rest.len() > 0
        invariant
            rest@ == items.subrange(0, rest@.len() as int),
            rest@.len() < items.len(),
            is_power_chain(acc, items.subrange(rest@.len() as int, items.len() as int)),
        decreases rest@.len(),
    {
        let base = rest.pop().unwrap();
        let ghost tail = items.subrange(rest@.len() as int + 1, items.len() as int);
        let ghost whole = items.subrange(rest@.len() as int, items.len() as int);
        let mut args: Vec<PExpr> = Vec::new();
        args.push(base);
        args.push(acc);
        acc = PExpr::Func("pow".to_owned(), args);
        proof {
            assert(whole[0] == base);
            assert(whole.subrange(1, whole.len() as int) =~= tail);
            assert(rest@ =~= items.subrange(0, rest@.len() as int));
        }
    }
    proof {
        assert(items.subrange(0, items.len() as int) =~= items);
    }
    acc
}

/// Wraps an expression in `count` applications of `neg`.
pub fn wrap_negations(count: usize, e: PExpr) -> (r: PExpr)
    ensures
        is_negation(r, count as nat, e),
{
    let mut acc = e;
    let mut k: usize = 0;
    while k < count
        invariant
            k <= count,
            is_negation(acc, k as nat, e),
        decreases count - k,
    {
        let mut args: Vec<PExpr> = Vec::new();
        args.push(acc);
        acc = PExpr::Func("neg".to_owned(), args);
        k = k + 1;
    }
    acc
}

} // verus!

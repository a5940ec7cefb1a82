use vstd::prelude::*;
use vstd::string::StringSliceAdditionalSpecFns;

use crate::parse::{
    binop_name,
    create_binop,
    fold_power,
    is_application,
    is_negation,
    is_power_chain,
    wrap_negations,
};
use crate::pexpr::PExpr;

verus! {

/// A raw expression tree as a plain value.
pub enum RawTree {
    Num(int),
    Func(Seq<char>, Seq<RawTree>),
}

/// The plain value of a raw expression tree.
pub open spec fn raw_of(e: PExpr) -> RawTree
    decreases e,
{
    match e {
        PExpr::Num(n) => RawTree::Num(n as int),
        PExpr::Func(name, es) => RawTree::Func(name@, raws_of(es@)),
    }
}

/// The plain values of a sequence of raw expression trees.
pub open spec fn raws_of(es: Seq<PExpr>) -> Seq<RawTree>
    decreases es,
{
    if es.len() == 0 {
        Seq::empty()
    } else {
        raws_of(es.subrange(0, es.len() - 1)).push(raw_of(es[es.len() - 1]))
    }
}

/// What a successful parse step produced.
pub open spec fn produced<T>(o: Option<(T, int)>) -> T {
    match o {
        Some((t, _)) => t,
        None => arbitrary(),
    }
}

/// Where a successful parse step stopped.
pub open spec fn stopped<T>(o: Option<(T, int)>) -> int {
    match o {
        Some((_, k)) => k,
        None => 0,
    }
}

pub open spec fn is_space(b: u8) -> bool {
    b == 32 || b == 9
}

pub open spec fn is_digit(b: u8) -> bool {
    48 <= b <= 57
}

pub open spec fn is_alpha(b: u8) -> bool {
    (65 <= b <= 90) || (97 <= b <= 122)
}

/// The position after the run of spaces and tabs that starts at `i`.
pub open spec fn skip_spaces(s: Seq<u8>, i: int) -> int
    decreases s.len() - i,
{
    if 0 <= i < s.len() && is_space(s[i]) {
        skip_spaces(s, i + 1)
    } else {
        i
    }
}

/// The position after the run of `-` that starts at `i`.
pub open spec fn skip_minuses(s: Seq<u8>, i: int) -> int
    decreases s.len() - i,
{
    if 0 <= i < s.len() && s[i] == 45 {
        skip_minuses(s, i + 1)
    } else {
        i
    }
}

/// The position after the run of digits that starts at `i`.
pub open spec fn digits_end(s: Seq<u8>, i: int) -> int
    decreases s.len() - i,
{
    if 0 <= i < s.len() && is_digit(s[i]) {
        digits_end(s, i + 1)
    } else {
        i
    }
}

/// The position after the run of ASCII letters that starts at `i`.
pub open spec fn alpha_end(s: Seq<u8>, i: int) -> int
    decreases s.len() - i,
{
    if 0 <= i < s.len() && is_alpha(s[i]) {
        alpha_end(s, i + 1)
    } else {
        i
    }
}

/// The decimal value of the digits `s[i..j]`.
pub open spec fn digits_at(s: Seq<u8>, i: int, j: int) -> int
    decreases j - i,
{
    if j <= i {
        0
    } else {
        digits_at(s, i, j - 1) * 10 + (s[j - 1] - 48)
    }
}

/// The characters of the ASCII bytes `s[i..j]`.
pub open spec fn text_at(s: Seq<u8>, i: int, j: int) -> Seq<char> {
    s.subrange(i, j).map_values(|b: u8| b as char)
}

/// The operator name of the symbol byte `b` (`+ - * /`).
pub open spec fn op_name(b: u8) -> Seq<char> {
    if b == 43 {
        "add"@
    } else if b == 45 {
        "sub"@
    } else if b == 42 {
        "mul"@
    } else {
        "div"@
    }
}

/// The operands joined by `pow`, grouping to the right.
pub open spec fn pow_chain(items: Seq<RawTree>) -> RawTree
    decreases items.len(),
{
    if items.len() <= 1 {
        items[0]
    } else {
        RawTree::Func("pow"@, seq![items[0], pow_chain(items.subrange(1, items.len() as int))])
    }
}

/// `t` wrapped in `count` applications of `neg`.
pub open spec fn negs(count: nat, t: RawTree) -> RawTree
    decreases count,
{
    if count == 0 {
        t
    } else {
        RawTree::Func("neg"@, seq![negs((count - 1) as nat, t)])
    }
}

/// `list := expr ("," expr)*`: the expressions and the position after them.
pub open spec fn g_list(s: Seq<u8>, i: int) -> Option<(Seq<RawTree>, int)>
    decreases s.len() - i, 11int,
{
    if !(0 <= i <= s.len()) {
        None
    } else {
        match g_expr(s, i) {
            Some((e, k)) => if i <= k <= s.len() {
                let (rest, end) = g_list_rest(s, k);
                Some((seq![e] + rest, end))
            } else {
                None
            },
            None => None,
        }
    }
}

pub open spec fn g_list_rest(s: Seq<u8>, j: int) -> (Seq<RawTree>, int)
    decreases s.len() - j, 10int,
{
    if 0 <= j < s.len() && s[j] == 44 {
        match g_expr(s, j + 1) {
            Some((e, k)) => if j < k <= s.len() {
                let (rest, end) = g_list_rest(s, k);
                (seq![e] + rest, end)
            } else {
                (Seq::empty(), j)
            },
            None => (Seq::empty(), j),
        }
    } else {
        (Seq::empty(), j)
    }
}

/// `expr := term`.
pub open spec fn g_expr(s: Seq<u8>, i: int) -> Option<(RawTree, int)>
    decreases s.len() - i, 9int,
{
    if !(0 <= i <= s.len()) {
        None
    } else {
        g_term(s, i)
    }
}

/// `term := factor (("+" | "-") factor)*`, folded to the left.
pub open spec fn g_term(s: Seq<u8>, i: int) -> Option<(RawTree, int)>
    decreases s.len() - i, 8int,
{
    if !(0 <= i <= s.len()) {
        None
    } else {
        match g_factor(s, i) {
            Some((e, k)) => if i <= k <= s.len() {
                Some(g_term_rest(s, k, e))
            } else {
                None
            },
            None => None,
        }
    }
}

pub open spec fn g_term_rest(s: Seq<u8>, j: int, acc: RawTree) -> (RawTree, int)
    decreases s.len() - j, 7int,
{
    if 0 <= j < s.len() && (s[j] == 43 || s[j] == 45) {
        match g_factor(s, j + 1) {
            Some((e, k)) => if j < k <= s.len() {
                g_term_rest(s, k, RawTree::Func(op_name(s[j]), seq![acc, e]))
            } else {
                (acc, j)
            },
            None => (acc, j),
        }
    } else {
        (acc, j)
    }
}

/// `factor := power (("*" | "/") power)*`, folded to the left.
pub open spec fn g_factor(s: Seq<u8>, i: int) -> Option<(RawTree, int)>
    decreases s.len() - i, 6int,
{
    if !(0 <= i <= s.len()) {
        None
    } else {
        match g_power(s, i) {
            Some((e, k)) => if i <= k <= s.len() {
                Some(g_factor_rest(s, k, e))
            } else {
                None
            },
            None => None,
        }
    }
}

pub open spec fn g_factor_rest(s: Seq<u8>, j: int, acc: RawTree) -> (RawTree, int)
    decreases s.len() - j, 5int,
{
    if 0 <= j < s.len() && (s[j] == 42 || s[j] == 47) {
        match g_power(s, j + 1) {
            Some((e, k)) => if j < k <= s.len() {
                g_factor_rest(s, k, RawTree::Func(op_name(s[j]), seq![acc, e]))
            } else {
                (acc, j)
            },
            None => (acc, j),
        }
    } else {
        (acc, j)
    }
}

/// `power := unary ("^" unary)*`, grouped to the right.
pub open spec fn g_power(s: Seq<u8>, i: int) -> Option<(RawTree, int)>
    decreases s.len() - i, 4int,
{
    if !(0 <= i <= s.len()) {
        None
    } else {
        match g_unary(s, i) {
            Some((e, k)) => if i <= k <= s.len() {
                let (rest, end) = g_power_rest(s, k);
                Some((pow_chain(seq![e] + rest), end))
            } else {
                None
            },
            None => None,
        }
    }
}

pub open spec fn g_power_rest(s: Seq<u8>, j: int) -> (Seq<RawTree>, int)
    decreases s.len() - j, 3int,
{
    if 0 <= j < s.len() && s[j] == 94 {
        match g_unary(s, j + 1) {
            Some((e, k)) => if j < k <= s.len() {
                let (rest, end) = g_power_rest(s, k);
                (seq![e] + rest, end)
            } else {
                (Seq::empty(), j)
            },
            None => (Seq::empty(), j),
        }
    } else {
        (Seq::empty(), j)
    }
}

/// `unary := spaces "-"* primary spaces`, each `-` a `neg`.
pub open spec fn g_unary(s: Seq<u8>, i: int) -> Option<(RawTree, int)>
    decreases s.len() - i, 2int,
{
    if !(0 <= i <= s.len()) {
        None
    } else {
        let a = skip_spaces(s, i);
        let b = skip_minuses(s, a);
        if i <= a <= b <= s.len() {
            match g_primary(s, b) {
                Some((e, k)) => if b <= k <= s.len() {
                    Some((negs((b - a) as nat, e), skip_spaces(s, k)))
                } else {
                    None
                },
                None => None,
            }
        } else {
            None
        }
    }
}

/// `primary := "(" expr ")" | name "(" list ")" | digits`, tried in that order.
pub open spec fn g_primary(s: Seq<u8>, i: int) -> Option<(RawTree, int)>
    decreases s.len() - i, 1int,
{
    if !(0 <= i <= s.len()) {
        None
    } else {
        let paren = if i < s.len() && s[i] == 40 {
            match g_expr(s, i + 1) {
                Some((e, k)) => if i < k < s.len() && s[k] == 41 {
                    Some((e, k + 1))
                } else {
                    None
                },
                None => None,
            }
        } else {
            None
        };
        if paren is Some {
            paren
        } else {
            let call = g_call(s, i);
            if call is Some {
                call
            } else {
                let j = digits_end(s, i);
                if i < j && digits_at(s, i, j) <= i64::MAX {
                    Some((RawTree::Num(digits_at(s, i, j)), j))
                } else {
                    None
                }
            }
        }
    }
}

/// `name "(" list ")"`, the name a run of ASCII letters.
pub open spec fn g_call(s: Seq<u8>, i: int) -> Option<(RawTree, int)>
    decreases s.len() - i, 0int,
{
    let j = alpha_end(s, i);
    if 0 <= i < j < s.len() && s[j] == 40 {
        match g_list(s, j + 1) {
            Some((args, k)) => if j < k < s.len() && s[k] == 41 {
                Some((RawTree::Func(text_at(s, i, j), args), k + 1))
            } else {
                None
            },
            None => None,
        }
    } else {
        None
    }
}

/// The whole input read as one expression.
pub open spec fn g_parse(s: Seq<u8>) -> Option<RawTree> {
    match g_expr(s, 0) {
        Some((e, k)) => if k == s.len() {
            Some(e)
        } else {
            None
        },
        None => None,
    }
}

pub proof fn lemma_raws_of(es: Seq<PExpr>)
    ensures
        raws_of(es).len() == es.len(),
        forall|k: int| 0 <= k < es.len() ==> #[trigger] raws_of(es)[k] == raw_of(es[k]),
    decreases es.len(),
{
    if es.len() > 0 {
        lemma_raws_of(es.subrange(0, es.len() - 1));
    }
}

proof fn lemma_raws_cons(e: PExpr, v: Seq<PExpr>)
    ensures
        raws_of(seq![e] + v) == seq![raw_of(e)] + raws_of(v),
{
    lemma_raws_of(seq![e] + v);
    lemma_raws_of(v);
    assert forall|k: int| 0 <= k < v.len() + 1 implies raws_of(seq![e] + v)[k] == (seq![raw_of(e)]
        + raws_of(v))[k] by {
        if k > 0 {
            assert((seq![e] + v)[k] == v[k - 1]);
        }
    }
    assert(raws_of(seq![e] + v) =~= seq![raw_of(e)] + raws_of(v));
}

proof fn lemma_power_chain_raw(e: PExpr, items: Seq<PExpr>)
    requires
        is_power_chain(e, items),
    ensures
        raw_of(e) == pow_chain(raws_of(items)),
    decreases items.len(),
{
    lemma_raws_of(items);
    if items.len() > 1 {
        match e {
            PExpr::Func(n, a) => {
                let tail = items.subrange(1, items.len() as int);
                lemma_power_chain_raw(a@[1], tail);
                lemma_raws_of(tail);
                lemma_raws_of(a@);
                assert(raws_of(items).subrange(1, items.len() as int) =~= raws_of(tail));
                assert(raws_of(a@) =~= seq![raw_of(a@[0]), raw_of(a@[1])]);
            },
            PExpr::Num(_) => {},
        }
    }
}

proof fn lemma_negation_raw(e: PExpr, count: nat, inner: PExpr)
    requires
        is_negation(e, count, inner),
    ensures
        raw_of(e) == negs(count, raw_of(inner)),
    decreases count,
{
    if count > 0 {
        match e {
            PExpr::Func(n, a) => {
                lemma_negation_raw(a@[0], (count - 1) as nat, inner);
                lemma_raws_of(a@);
                assert(raws_of(a@) =~= seq![raw_of(a@[0])]);
            },
            PExpr::Num(_) => {},
        }
    }
}

fn scan_spaces(s: &[u8], i: usize) -> (r: usize)
    requires
        i <= s@.len(),
    ensures
        r as int == skip_spaces(s@, i as int),
        i <= r <= s@.len(),
{
    let mut j = i;
    while j < s.len() && (s[j] == 32 || s[j] == 9)
        invariant
            i <= j <= s@.len(),
            skip_spaces(s@, i as int) == skip_spaces(s@, j as int),
        decreases s@.len() - j,
    {
        j = j + 1;
    }
    j
}

fn scan_minuses(s: &[u8], i: usize) -> (r: usize)
    requires
        i <= s@.len(),
    ensures
        r as int == skip_minuses(s@, i as int),
        i <= r <= s@.len(),
{
    let mut j = i;
    while j < s.len() && s[j] == 45
        invariant
            i <= j <= s@.len(),
            skip_minuses(s@, i as int) == skip_minuses(s@, j as int),
        decreases s@.len() - j,
    {
        j = j + 1;
    }
    j
}

fn scan_digits(s: &[u8], i: usize) -> (r: usize)
    requires
        i <= s@.len(),
    ensures
        r as int == digits_end(s@, i as int),
        i <= r <= s@.len(),
        forall|k: int| i <= k < r ==> is_digit(#[trigger] s@[k]),
{
    let mut j = i;
    while j < s.len() && 48 <= s[j] && s[j] <= 57
        invariant
            i <= j <= s@.len(),
            digits_end(s@, i as int) == digits_end(s@, j as int),
            forall|k: int| i <= k < j ==> is_digit(#[trigger] s@[k]),
        decreases s@.len() - j,
    {
        j = j + 1;
    }
    j
}

fn scan_letters(s: &[u8], i: usize) -> (r: usize)
    requires
        i <= s@.len(),
    ensures
        r as int == alpha_end(s@, i as int),
        i <= r <= s@.len(),
        forall|k: int| i <= k < r ==> is_alpha(#[trigger] s@[k]),
{
    let mut j = i;
    while j < s.len() && ((65 <= s[j] && s[j] <= 90) || (97 <= s[j] && s[j] <= 122))
        invariant
            i <= j <= s@.len(),
            alpha_end(s@, i as int) == alpha_end(s@, j as int),
            forall|k: int| i <= k < j ==> is_alpha(#[trigger] s@[k]),
        decreases s@.len() - j,
    {
        j = j + 1;
    }
    j
}

proof fn lemma_digits_grow(s: Seq<u8>, i: int, k: int, j: int)
    requires
        i <= k <= j <= s.len(),
        0 <= i,
        forall|m: int| i <= m < j ==> is_digit(#[trigger] s[m]),
    ensures
        0 <= digits_at(s, i, k) <= digits_at(s, i, j),
    decreases j - k,
{
    if k < j {
        lemma_digits_grow(s, i, k, j - 1);
        assert(is_digit(s[j - 1]));
    } else {
        lemma_digits_nonneg(s, i, k);
    }
}

proof fn lemma_digits_nonneg(s: Seq<u8>, i: int, k: int)
    requires
        0 <= i <= k <= s.len(),
        forall|m: int| i <= m < k ==> is_digit(#[trigger] s[m]),
    ensures
        0 <= digits_at(s, i, k),
    decreases k - i,
{
    if i < k {
        lemma_digits_nonneg(s, i, k - 1);
        assert(is_digit(s[k - 1]));
    }
}

/// The value of the digits `s[i..j]`; `None` when it does not fit in an `i64`.
fn digits_value(s: &[u8], i: usize, j: usize) -> (r: Option<i64>)
    requires
        i <= j <= s@.len(),
        forall|k: int| i <= k < j ==> is_digit(#[trigger] s@[k]),
    ensures
        r is Some <==> digits_at(s@, i as int, j as int) <= i64::MAX,
        r matches Some(v) ==> v as int == digits_at(s@, i as int, j as int),
{
    let mut acc: i64 = 0;
    let mut k = i;
    while k < j
        invariant
            i <= k <= j <= s@.len(),
            forall|m: int| i <= m < j ==> is_digit(#[trigger] s@[m]),
            acc as int == digits_at(s@, i as int, k as int),
        decreases j - k,
    {
        assert(is_digit(s@[k as int]));
        let d = (s[k] - 48) as i64;
        let next = match acc.checked_mul(10) {
            Some(t) => t.checked_add(d),
            None => None,
        };
        match next {
            Some(v) => {
                acc = v;
                k = k + 1;
            },
            None => {
                proof {
                    lemma_digits_grow(s@, i as int, k as int + 1, j as int);
                }
                return None;
            },
        }
    }
    Some(acc)
}

/// Relies on `String::from_utf8`: ASCII letters are valid UTF-8, one
/// character per byte.
#[verifier::external_body]
fn letters_text(s: &[u8], i: usize, j: usize) -> (r: String)
    requires
        i <= j <= s@.len(),
        forall|k: int| i <= k < j ==> is_alpha(#[trigger] s@[k]),
    ensures
        r@ == text_at(s@, i as int, j as int),
{
    String::from_utf8(s[i..j].to_vec()).unwrap_or_default()
}

fn parse_list(s: &[u8], i: usize) -> (r: Option<(Vec<PExpr>, usize)>)
    requires
        i <= s@.len(),
    ensures
        r is Some <==> g_list(s@, i as int) is Some,
        r matches Some((v, k)) ==> raws_of(v@) == produced(g_list(s@, i as int)) && k as int == stopped(g_list(
            s@,
            i as int,
        )),
    decreases s@.len() - i, 11int,
{
    match parse_expr(s, i) {
        Some((e, k)) => if i <= k && k <= s.len() {
            let (mut rest, end) = parse_list_rest(s, k);
            let ghost tail = rest@;
            rest.insert(0, e);
            proof {
                assert(rest@ =~= seq![e] + tail);
                lemma_raws_cons(e, tail);
            }
            Some((rest, end))
        } else {
            None
        },
        None => None,
    }
}

fn parse_list_rest(s: &[u8], j: usize) -> (r: (Vec<PExpr>, usize))
    requires
        j <= s@.len(),
    ensures
        raws_of(r.0@) == g_list_rest(s@, j as int).0,
        r.1 as int == g_list_rest(s@, j as int).1,
    decreases s@.len() - j, 10int,
{
    if j < s.len() && s[j] == 44 {
        match parse_expr(s, j + 1) {
            Some((e, k)) => if j < k && k <= s.len() {
                let (mut rest, end) = parse_list_rest(s, k);
                let ghost tail = rest@;
                rest.insert(0, e);
                proof {
                    assert(rest@ =~= seq![e] + tail);
                    lemma_raws_cons(e, tail);
                }
                return (rest, end);
            } else {
            },
            None => {},
        }
    }
    proof {
        assert(raws_of(Seq::<PExpr>::empty()) =~= Seq::<RawTree>::empty());
    }
    (Vec::new(), j)
}

fn parse_expr(s: &[u8], i: usize) -> (r: Option<(PExpr, usize)>)
    requires
        i <= s@.len(),
    ensures
        r is Some <==> g_expr(s@, i as int) is Some,
        r matches Some((e, k)) ==> raw_of(e) == produced(g_expr(s@, i as int)) && k as int == stopped(g_expr(
            s@,
            i as int,
        )),
    decreases s@.len() - i, 9int,
{
    parse_term(s, i)
}

fn parse_term(s: &[u8], i: usize) -> (r: Option<(PExpr, usize)>)
    requires
        i <= s@.len(),
    ensures
        r is Some <==> g_term(s@, i as int) is Some,
        r matches Some((e, k)) ==> raw_of(e) == produced(g_term(s@, i as int)) && k as int == stopped(g_term(
            s@,
            i as int,
        )),
    decreases s@.len() - i, 8int,
{
    match parse_factor(s, i) {
        Some((e, k)) => if i <= k && k <= s.len() {
            Some(parse_term_rest(s, k, e))
        } else {
            None
        },
        None => None,
    }
}

fn binop(acc: PExpr, op: u8, e: PExpr) -> (r: PExpr)
    requires
        op == 43 || op == 45 || op == 42 || op == 47,
    ensures
        raw_of(r) == RawTree::Func(op_name(op), seq![raw_of(acc), raw_of(e)]),
{
    let c: char = if op == 43 {
        '+'
    } else if op == 45 {
        '-'
    } else if op == 42 {
        '*'
    } else {
        '/'
    };
    let ghost ga = acc;
    let ghost ge = e;
    let r = create_binop(acc, c, e).unwrap();
    let ghost gr = r;
    proof {
        match gr {
            PExpr::Func(n, a) => {
                lemma_raws_of(a@);
                assert(a@ == seq![ga, ge]);
                assert(raws_of(a@) =~= seq![raw_of(ga), raw_of(ge)]);
            },
            PExpr::Num(_) => {},
        }
    }
    r
}

fn parse_term_rest(s: &[u8], j: usize, acc: PExpr) -> (r: (PExpr, usize))
    requires
        j <= s@.len(),
    ensures
        raw_of(r.0) == g_term_rest(s@, j as int, raw_of(acc)).0,
        r.1 as int == g_term_rest(s@, j as int, raw_of(acc)).1,
    decreases s@.len() - j, 7int,
{
    if j < s.len() && (s[j] == 43 || s[j] == 45) {
        match parse_factor(s, j + 1) {
            Some((e, k)) => {
                if j < k && k <= s.len() {
                    let node = binop(acc, s[j], e);
                    return parse_term_rest(s, k, node);
                }
                (acc, j)
            },
            None => (acc, j),
        }
    } else {
        (acc, j)
    }
}

fn parse_factor(s: &[u8], i: usize) -> (r: Option<(PExpr, usize)>)
    requires
        i <= s@.len(),
    ensures
        r is Some <==> g_factor(s@, i as int) is Some,
        r matches Some((e, k)) ==> raw_of(e) == produced(g_factor(s@, i as int)) && k as int == stopped(g_factor(
            s@,
            i as int,
        )),
    decreases s@.len() - i, 6int,
{
    match parse_power(s, i) {
        Some((e, k)) => if i <= k && k <= s.len() {
            Some(parse_factor_rest(s, k, e))
        } else {
            None
        },
        None => None,
    }
}

fn parse_factor_rest(s: &[u8], j: usize, acc: PExpr) -> (r: (PExpr, usize))
    requires
        j <= s@.len(),
    ensures
        raw_of(r.0) == g_factor_rest(s@, j as int, raw_of(acc)).0,
        r.1 as int == g_factor_rest(s@, j as int, raw_of(acc)).1,
    decreases s@.len() - j, 5int,
{
    if j < s.len() && (s[j] == 42 || s[j] == 47) {
        match parse_power(s, j + 1) {
            Some((e, k)) => {
                if j < k && k <= s.len() {
                    let node = binop(acc, s[j], e);
                    return parse_factor_rest(s, k, node);
                }
                (acc, j)
            },
            None => (acc, j),
        }
    } else {
        (acc, j)
    }
}

fn parse_power(s: &[u8], i: usize) -> (r: Option<(PExpr, usize)>)
    requires
        i <= s@.len(),
    ensures
        r is Some <==> g_power(s@, i as int) is Some,
        r matches Some((e, k)) ==> raw_of(e) == produced(g_power(s@, i as int)) && k as int == stopped(g_power(
            s@,
            i as int,
        )),
    decreases s@.len() - i, 4int,
{
    match parse_unary(s, i) {
        Some((e, k)) => if i <= k && k <= s.len() {
            let (mut operands, end) = parse_power_rest(s, k);
            let ghost tail = operands@;
            operands.insert(0, e);
            proof {
                assert(operands@ =~= seq![e] + tail);
                lemma_raws_cons(e, tail);
            }
            let ghost items = operands@;
            let r = fold_power(operands);
            proof {
                lemma_power_chain_raw(r, items);
            }
            Some((r, end))
        } else {
            None
        },
        None => None,
    }
}

fn parse_power_rest(s: &[u8], j: usize) -> (r: (Vec<PExpr>, usize))
    requires
        j <= s@.len(),
    ensures
        raws_of(r.0@) == g_power_rest(s@, j as int).0,
        r.1 as int == g_power_rest(s@, j as int).1,
    decreases s@.len() - j, 3int,
{
    if j < s.len() && s[j] == 94 {
        match parse_unary(s, j + 1) {
            Some((e, k)) => if j < k && k <= s.len() {
                let (mut rest, end) = parse_power_rest(s, k);
                let ghost tail = rest@;
                rest.insert(0, e);
                proof {
                    assert(rest@ =~= seq![e] + tail);
                    lemma_raws_cons(e, tail);
                }
                return (rest, end);
            } else {
            },
            None => {},
        }
    }
    proof {
        assert(raws_of(Seq::<PExpr>::empty()) =~= Seq::<RawTree>::empty());
    }
    (Vec::new(), j)
}

fn parse_unary(s: &[u8], i: usize) -> (r: Option<(PExpr, usize)>)
    requires
        i <= s@.len(),
    ensures
        r is Some <==> g_unary(s@, i as int) is Some,
        r matches Some((e, k)) ==> raw_of(e) == produced(g_unary(s@, i as int)) && k as int == stopped(g_unary(
            s@,
            i as int,
        )),
    decreases s@.len() - i, 2int,
{
    let a = scan_spaces(s, i);
    let b = scan_minuses(s, a);
    match parse_primary(s, b) {
        Some((e, k)) => if b <= k && k <= s.len() {
            let ghost inner = e;
            let r = wrap_negations(b - a, e);
            proof {
                lemma_negation_raw(r, (b - a) as nat, inner);
            }
            Some((r, scan_spaces(s, k)))
        } else {
            None
        },
        None => None,
    }
}

fn parse_primary(s: &[u8], i: usize) -> (r: Option<(PExpr, usize)>)
    requires
        i <= s@.len(),
    ensures
        r is Some <==> g_primary(s@, i as int) is Some,
        r matches Some((e, k)) ==> raw_of(e) == produced(g_primary(s@, i as int)) && k as int
            == stopped(g_primary(s@, i as int)),
    decreases s@.len() - i, 1int,
{
    if i < s.len() && s[i] == 40 {
        match parse_expr(s, i + 1) {
            Some((e, k)) => if i < k && k < s.len() && s[k] == 41 {
                return Some((e, k + 1));
            } else {
            },
            None => {},
        }
    }
    match parse_call(s, i) {
        Some(c) => {
            return Some(c);
        },
        None => {},
    }
    let j = scan_digits(s, i);
    if i < j {
        match digits_value(s, i, j) {
            Some(v) => Some((PExpr::Num(v), j)),
            None => None,
        }
    } else {
        None
    }
}

fn parse_call(s: &[u8], i: usize) -> (r: Option<(PExpr, usize)>)
    requires
        i <= s@.len(),
    ensures
        r is Some <==> g_call(s@, i as int) is Some,
        r matches Some((e, k)) ==> raw_of(e) == produced(g_call(s@, i as int)) && k as int == stopped(g_call(
            s@,
            i as int,
        )),
    decreases s@.len() - i, 0int,
{
    let j = scan_letters(s, i);
    if i < j && j < s.len() && s[j] == 40 {
        match parse_list(s, j + 1) {
            Some((args, k)) => if j < k && k < s.len() && s[k] == 41 {
                let name = letters_text(s, i, j);
                Some((PExpr::Func(name, args), k + 1))
            } else {
                None
            },
            None => None,
        }
    } else {
        None
    }
}

/// Reads a whole expression: integer literals, parentheses, prefix `-`,
/// `+ - * /` folded to the left with `*` `/` binding tighter, `^` grouped to
/// the right, and calls `name(e1, e2, ...)`. Spaces and tabs may surround
/// each operand. `None` when the text is not one expression, trailing input
/// included, or a literal does not fit in an `i64`.
pub fn parse(input: &str) -> (r: Option<PExpr>)
    ensures
        r is Some <==> g_parse(input.spec_bytes()) is Some,
        r matches Some(e) ==> raw_of(e) == g_parse(input.spec_bytes())->0,
{
    let s = input.as_bytes();
    match parse_expr(s, 0) {
        Some((e, k)) => if k == s.len() {
            Some(e)
        } else {
            None
        },
        None => None,
    }
}

} // verus!

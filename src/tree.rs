use vstd::prelude::*;
use std::cmp::Ordering;

use crate::pexpr::PExpr;
use crate::symbols::{FuncAttr, Symbols};

verus! {

/// An expression as a plain tree: the meaning of an arena index.
pub enum Tree {
    Num(i64),
    Func(Seq<char>, FuncAttr, Seq<Tree>),
}

pub open spec fn cmp_int(a: int, b: int) -> Ordering {
    if a < b {
        Ordering::Less
    } else if a == b {
        Ordering::Equal
    } else {
        Ordering::Greater
    }
}

/// Lexicographic order of names, by code point; a proper prefix comes first.
pub open spec fn cmp_chars(a: Seq<char>, b: Seq<char>) -> Ordering
    decreases a.len(),
{
    if a.len() == 0 {
        if b.len() == 0 {
            Ordering::Equal
        } else {
            Ordering::Less
        }
    } else if b.len() == 0 {
        Ordering::Greater
    } else if a[0] != b[0] {
        cmp_int(a[0] as int, b[0] as int)
    } else {
        cmp_chars(a.subrange(1, a.len() as int), b.subrange(1, b.len() as int))
    }
}

/// The total order on trees: applications before literals; literals by value;
/// applications by name, then attribute rank, then arity, then children in turn.
pub open spec fn cmp_tree(a: Tree, b: Tree) -> Ordering
    decreases a,
{
    match a {
        Tree::Num(x) => match b {
            Tree::Num(y) => cmp_int(x as int, y as int),
            Tree::Func(..) => Ordering::Greater,
        },
        Tree::Func(n1, a1, c1) => match b {
            Tree::Num(_) => Ordering::Less,
            Tree::Func(n2, a2, c2) => if cmp_chars(n1, n2) != Ordering::Equal {
                cmp_chars(n1, n2)
            } else if a1.rank_spec() != a2.rank_spec() {
                cmp_int(a1.rank_spec(), a2.rank_spec())
            } else if c1.len() != c2.len() {
                cmp_int(c1.len() as int, c2.len() as int)
            } else {
                cmp_trees(c1, c2)
            },
        },
    }
}

/// Pairwise comparison of two sequences of trees: the first differing pair decides.
pub open spec fn cmp_trees(s1: Seq<Tree>, s2: Seq<Tree>) -> Ordering
    decreases s1,
{
    if s1.len() == 0 || s2.len() == 0 {
        Ordering::Equal
    } else if cmp_tree(s1[0], s2[0]) != Ordering::Equal {
        cmp_tree(s1[0], s2[0])
    } else {
        cmp_trees(s1.subrange(1, s1.len() as int), s2.subrange(1, s2.len() as int))
    }
}

/// What one child contributes to the child list of an application named `name`:
/// under an associative operator, an application of the same name gives up its
/// own children; anything else stays a single child.
pub open spec fn splice(name: Seq<char>, assoc: bool, t: Tree) -> Seq<Tree> {
    match t {
        Tree::Func(n, _, cs) => if assoc && n == name {
            cs
        } else {
            seq![t]
        },
        Tree::Num(_) => seq![t],
    }
}

/// The child list after one level of flattening.
pub open spec fn flatten(name: Seq<char>, assoc: bool, s: Seq<Tree>) -> Seq<Tree>
    decreases s.len(),
{
    if s.len() == 0 {
        Seq::empty()
    } else {
        flatten(name, assoc, s.drop_last()) + splice(name, assoc, s.last())
    }
}

/// Inserts `x` into `s` after every element that does not compare greater
/// than it, scanning from the back.
pub open spec fn insert_sorted(s: Seq<Tree>, x: Tree) -> Seq<Tree>
    decreases s.len(),
{
    if s.len() == 0 || cmp_tree(s.last(), x) != Ordering::Greater {
        s.push(x)
    } else {
        insert_sorted(s.drop_last(), x).push(s.last())
    }
}

/// Stable insertion sort under `cmp_tree`.
pub open spec fn sort_trees(s: Seq<Tree>) -> Seq<Tree>
    decreases s.len(),
{
    if s.len() == 0 {
        s
    } else {
        insert_sorted(sort_trees(s.drop_last()), s.last())
    }
}

/// The child list of a normalized application, from its normalized children.
pub open spec fn arrange(name: Seq<char>, attrs: FuncAttr, s: Seq<Tree>) -> Seq<Tree> {
    let f = flatten(name, attrs.associative, s);
    if attrs.commutative {
        sort_trees(f)
    } else {
        f
    }
}

/// The canonical form of a tree.
pub open spec fn normalize_tree(t: Tree) -> Tree
    decreases t,
{
    match t {
        Tree::Num(_) => t,
        Tree::Func(n, a, cs) => Tree::Func(n, a, arrange(n, a, normalize_all(cs))),
    }
}

/// Each tree of `s` normalized.
pub open spec fn normalize_all(s: Seq<Tree>) -> Seq<Tree>
    decreases s,
{
    if s.len() == 0 {
        Seq::empty()
    } else {
        normalize_all(s.subrange(0, s.len() - 1)).push(normalize_tree(s[s.len() - 1]))
    }
}

pub proof fn lemma_normalize_func_eq(n: Seq<char>, a: FuncAttr, cs: Seq<Tree>)
    ensures
        normalize_tree(Tree::Func(n, a, cs)) == Tree::Func(n, a, arrange(n, a, normalize_all(cs))),
{
}

pub proof fn lemma_normalize_all(s: Seq<Tree>)
    ensures
        normalize_all(s).len() == s.len(),
        forall|k: int| 0 <= k < s.len() ==> #[trigger] normalize_all(s)[k] == normalize_tree(s[k]),
    decreases s.len(),
{
    if s.len() > 0 {
        lemma_normalize_all(s.subrange(0, s.len() - 1));
    }
}

/// An inverse-operator rewrite: a binary `from` application becomes
/// `to(left, inv(right))`, with the attributes given for `to` and `inv`.
pub struct InvRule {
    pub from: Seq<char>,
    pub to: Seq<char>,
    pub to_attrs: FuncAttr,
    pub inv: Seq<char>,
    pub inv_attrs: FuncAttr,
}

/// The rewrite applied at every node of a tree, children first.
pub open spec fn convert_tree(t: Tree, rule: InvRule) -> Tree
    decreases t,
{
    match t {
        Tree::Num(_) => t,
        Tree::Func(n, a, cs) => if n == rule.from && cs.len() == 2 {
            Tree::Func(
                rule.to,
                rule.to_attrs,
                seq![
                    convert_tree(cs[0], rule),
                    Tree::Func(rule.inv, rule.inv_attrs, seq![convert_tree(cs[1], rule)]),
                ],
            )
        } else {
            Tree::Func(n, a, convert_all(cs, rule))
        },
    }
}

/// Each tree of `s` rewritten.
pub open spec fn convert_all(s: Seq<Tree>, rule: InvRule) -> Seq<Tree>
    decreases s,
{
    if s.len() == 0 {
        Seq::empty()
    } else {
        convert_all(s.subrange(0, s.len() - 1), rule).push(convert_tree(s[s.len() - 1], rule))
    }
}

pub proof fn lemma_convert_all(s: Seq<Tree>, rule: InvRule)
    ensures
        convert_all(s, rule).len() == s.len(),
        forall|k: int|
            0 <= k < s.len() ==> #[trigger] convert_all(s, rule)[k] == convert_tree(s[k], rule),
    decreases s.len(),
{
    if s.len() > 0 {
        lemma_convert_all(s.subrange(0, s.len() - 1), rule);
    }
}

/// The first operator name of `e`, in pre-order, that `sym` does not know.
pub open spec fn first_unknown(e: PExpr, sym: Symbols) -> Option<Seq<char>>
    decreases e,
{
    match e {
        PExpr::Num(_) => None,
        PExpr::Func(n, es) => if sym.attrs_of(n@) is None {
            Some(n@)
        } else {
            first_unknown_all(es@, sym)
        },
    }
}

/// The first unknown operator name over a sequence of raw trees, left to right.
pub open spec fn first_unknown_all(es: Seq<PExpr>, sym: Symbols) -> Option<Seq<char>>
    decreases es,
{
    if es.len() == 0 {
        None
    } else {
        match first_unknown_all(es.subrange(0, es.len() - 1), sym) {
            Some(n) => Some(n),
            None => first_unknown(es[es.len() - 1], sym),
        }
    }
}

pub proof fn lemma_first_unknown_prefix(es: Seq<PExpr>, j: int, sym: Symbols)
    requires
        0 <= j <= es.len(),
        first_unknown_all(es.subrange(0, j), sym) is Some,
    ensures
        first_unknown_all(es, sym) == first_unknown_all(es.subrange(0, j), sym),
    decreases es.len(),
{
    if j == es.len() {
        assert(es.subrange(0, j) =~= es);
    } else {
        let p = es.subrange(0, es.len() - 1);
        assert(p.subrange(0, j) =~= es.subrange(0, j));
        lemma_first_unknown_prefix(p, j, sym);
    }
}

/// A raw tree with every operator attributed from `sym`.
pub open spec fn ingest_tree(e: PExpr, sym: Symbols) -> Tree
    decreases e,
{
    match e {
        PExpr::Num(n) => Tree::Num(n),
        PExpr::Func(n, es) => Tree::Func(
            n@,
            sym.attrs_of(n@).unwrap_or(FuncAttr { associative: false, commutative: false }),
            ingest_all(es@, sym),
        ),
    }
}

/// Each raw tree of `es` attributed from `sym`.
pub open spec fn ingest_all(es: Seq<PExpr>, sym: Symbols) -> Seq<Tree>
    decreases es,
{
    if es.len() == 0 {
        Seq::empty()
    } else {
        ingest_all(es.subrange(0, es.len() - 1), sym).push(ingest_tree(es[es.len() - 1], sym))
    }
}

pub open spec fn digit_char(d: nat) -> char {
    if d == 0 {
        '0'
    } else if d == 1 {
        '1'
    } else if d == 2 {
        '2'
    } else if d == 3 {
        '3'
    } else if d == 4 {
        '4'
    } else if d == 5 {
        '5'
    } else if d == 6 {
        '6'
    } else if d == 7 {
        '7'
    } else if d == 8 {
        '8'
    } else {
        '9'
    }
}

/// Decimal digits of `m`, most significant first, with no leading zero.
pub open spec fn digits(m: nat) -> Seq<char>
    decreases m,
{
    if m < 10 {
        seq![digit_char(m)]
    } else {
        digits(m / 10).push(digit_char(m % 10))
    }
}

/// The decimal text of an integer, with a leading `-` when negative.
pub open spec fn decimal(n: int) -> Seq<char> {
    if n < 0 {
        seq!['-'] + digits((-n) as nat)
    } else {
        digits(n as nat)
    }
}

/// Four spaces for each level of depth.
pub open spec fn indentation(depth: nat) -> Seq<char>
    decreases depth,
{
    if depth == 0 {
        Seq::empty()
    } else {
        indentation((depth - 1) as nat) + seq![' ', ' ', ' ', ' ']
    }
}

/// One line per node: the literal or the operator name, indented by depth,
/// children below their parent.
pub open spec fn dump(t: Tree, depth: nat) -> Seq<char>
    decreases t,
{
    match t {
        Tree::Num(n) => indentation(depth) + decimal(n as int) + seq!['\n'],
        Tree::Func(name, _, cs) => indentation(depth) + name + seq!['\n'] + dump_all(cs, depth + 1),
    }
}

/// The dumps of a sequence of trees, one after the other.
pub open spec fn dump_all(s: Seq<Tree>, depth: nat) -> Seq<char>
    decreases s,
{
    if s.len() == 0 {
        Seq::empty()
    } else {
        dump_all(s.subrange(0, s.len() - 1), depth) + dump(s[s.len() - 1], depth)
    }
}

} // verus!

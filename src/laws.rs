use vstd::prelude::*;
use std::cmp::Ordering;

use crate::pexpr::PExpr;
use crate::symbols::{FuncAttr, Symbols};
use crate::tree::{
    InvRule,
    Tree,
    arrange,
    cmp_chars,
    cmp_tree,
    cmp_trees,
    convert_tree,
    first_unknown,
    first_unknown_all,
    ingest_all,
    ingest_tree,
    flatten,
    insert_sorted,
    lemma_normalize_all,
    lemma_normalize_func_eq,
    normalize_all,
    normalize_tree,
    sort_trees,
    splice,
};

verus! {

broadcast use {vstd::seq_lib::group_to_multiset_ensures, vstd::multiset::group_multiset_axioms};

/// The ordering seen from the other side.
pub open spec fn flip(o: Ordering) -> Ordering {
    match o {
        Ordering::Less => Ordering::Greater,
        Ordering::Equal => Ordering::Equal,
        Ordering::Greater => Ordering::Less,
    }
}

proof fn lemma_chars_antisym(a: Seq<char>, b: Seq<char>)
    ensures
        cmp_chars(b, a) == flip(cmp_chars(a, b)),
    decreases a.len(),
{
    if a.len() > 0 && b.len() > 0 && a[0] == b[0] {
        lemma_chars_antisym(a.subrange(1, a.len() as int), b.subrange(1, b.len() as int));
    }
}

proof fn lemma_chars_eq(a: Seq<char>, b: Seq<char>)
    ensures
        cmp_chars(a, b) == Ordering::Equal <==> a == b,
    decreases a.len(),
{
    if a.len() > 0 && b.len() > 0 && a[0] == b[0] {
        let ra = a.subrange(1, a.len() as int);
        let rb = b.subrange(1, b.len() as int);
        lemma_chars_eq(ra, rb);
        if ra == rb {
            assert forall|k: int| 0 <= k < a.len() implies a[k] == b[k] by {
                if k > 0 {
                    assert(a[k] == ra[k - 1]);
                    assert(b[k] == rb[k - 1]);
                }
            }
            assert(a =~= b);
        }
        if a == b {
            assert(ra =~= rb);
        }
    } else if a.len() == 0 && b.len() == 0 {
        assert(a =~= b);
    } else if a.len() > 0 && b.len() > 0 {
        assert(a[0] as int != b[0] as int);
    }
}

proof fn lemma_chars_trans(a: Seq<char>, b: Seq<char>, c: Seq<char>)
    requires
        cmp_chars(a, b) == Ordering::Less,
        cmp_chars(b, c) == Ordering::Less,
    ensures
        cmp_chars(a, c) == Ordering::Less,
    decreases a.len(),
{
    if a.len() > 0 && b.len() > 0 && c.len() > 0 && a[0] == b[0] && b[0] == c[0] {
        lemma_chars_trans(
            a.subrange(1, a.len() as int),
            b.subrange(1, b.len() as int),
            c.subrange(1, c.len() as int),
        );
    }
}

proof fn lemma_tree_antisym(a: Tree, b: Tree)
    ensures
        cmp_tree(b, a) == flip(cmp_tree(a, b)),
    decreases a,
{
    match a {
        Tree::Func(n1, _, c1) => match b {
            Tree::Func(n2, _, c2) => {
                lemma_chars_antisym(n1, n2);
                lemma_trees_antisym(c1, c2);
            },
            Tree::Num(_) => {},
        },
        Tree::Num(_) => {},
    }
}

proof fn lemma_trees_antisym(s1: Seq<Tree>, s2: Seq<Tree>)
    ensures
        cmp_trees(s2, s1) == flip(cmp_trees(s1, s2)),
    decreases s1,
{
    if s1.len() > 0 && s2.len() > 0 {
        lemma_tree_antisym(s1[0], s2[0]);
        lemma_trees_antisym(s1.subrange(1, s1.len() as int), s2.subrange(1, s2.len() as int));
    }
}

proof fn lemma_tree_eq(a: Tree, b: Tree)
    ensures
        cmp_tree(a, b) == Ordering::Equal <==> a == b,
    decreases a,
{
    match a {
        Tree::Func(n1, a1, c1) => match b {
            Tree::Func(n2, a2, c2) => {
                lemma_chars_eq(n1, n2);
                if c1.len() == c2.len() {
                    lemma_trees_eq(c1, c2);
                }
            },
            Tree::Num(_) => {},
        },
        Tree::Num(_) => {},
    }
}

proof fn lemma_trees_eq(s1: Seq<Tree>, s2: Seq<Tree>)
    requires
        s1.len() == s2.len(),
    ensures
        cmp_trees(s1, s2) == Ordering::Equal <==> s1 == s2,
    decreases s1,
{
    if s1.len() > 0 {
        let r1 = s1.subrange(1, s1.len() as int);
        let r2 = s2.subrange(1, s2.len() as int);
        lemma_tree_eq(s1[0], s2[0]);
        lemma_trees_eq(r1, r2);
        if s1[0] == s2[0] && r1 == r2 {
            assert forall|k: int| 0 <= k < s1.len() implies s1[k] == s2[k] by {
                if k > 0 {
                    assert(s1[k] == r1[k - 1]);
                    assert(s2[k] == r2[k - 1]);
                }
            }
            assert(s1 =~= s2);
        }
        if s1 == s2 {
            assert(r1 =~= r2);
        }
    } else {
        assert(s1 =~= s2);
    }
}

proof fn lemma_tree_trans(a: Tree, b: Tree, c: Tree)
    requires
        cmp_tree(a, b) == Ordering::Less,
        cmp_tree(b, c) == Ordering::Less,
    ensures
        cmp_tree(a, c) == Ordering::Less,
    decreases a,
{
    match a {
        Tree::Func(n1, a1, c1) => match b {
            Tree::Func(n2, a2, c2) => match c {
                Tree::Func(n3, a3, c3) => {
                    lemma_chars_eq(n1, n2);
                    lemma_chars_eq(n2, n3);
                    lemma_chars_eq(n1, n3);
                    if cmp_chars(n1, n2) == Ordering::Less && cmp_chars(n2, n3) == Ordering::Less {
                        lemma_chars_trans(n1, n2, n3);
                    }
                    if n1 == n2 && n2 == n3 && a1.rank_spec() == a2.rank_spec() && a2.rank_spec()
                        == a3.rank_spec() && c1.len() == c2.len() && c2.len() == c3.len() {
                        lemma_trees_trans(c1, c2, c3);
                    }
                },
                Tree::Num(_) => {},
            },
            Tree::Num(_) => {},
        },
        Tree::Num(_) => {},
    }
}

proof fn lemma_trees_trans(s1: Seq<Tree>, s2: Seq<Tree>, s3: Seq<Tree>)
    requires
        s1.len() == s2.len(),
        s2.len() == s3.len(),
        cmp_trees(s1, s2) == Ordering::Less,
        cmp_trees(s2, s3) == Ordering::Less,
    ensures
        cmp_trees(s1, s3) == Ordering::Less,
    decreases s1,
{
    if s1.len() > 0 {
        lemma_tree_eq(s1[0], s2[0]);
        lemma_tree_eq(s2[0], s3[0]);
        lemma_tree_eq(s1[0], s3[0]);
        if cmp_tree(s1[0], s2[0]) == Ordering::Less && cmp_tree(s2[0], s3[0]) == Ordering::Less {
            lemma_tree_trans(s1[0], s2[0], s3[0]);
        }
        if s1[0] == s2[0] && s2[0] == s3[0] {
            lemma_trees_trans(
                s1.subrange(1, s1.len() as int),
                s2.subrange(1, s2.len() as int),
                s3.subrange(1, s3.len() as int),
            );
        }
    }
}

/// The order on trees is a strict total order: it answers `Equal` exactly on
/// identical trees, swapping the arguments swaps `Less` and `Greater`, and
/// `Less` is transitive.
pub proof fn lemma_total_order(a: Tree, b: Tree, c: Tree)
    ensures
        cmp_tree(a, b) == Ordering::Equal <==> a == b,
        cmp_tree(b, a) == flip(cmp_tree(a, b)),
        cmp_tree(a, b) == Ordering::Less && cmp_tree(b, c) == Ordering::Less ==> cmp_tree(a, c)
            == Ordering::Less,
{
    lemma_tree_eq(a, b);
    lemma_tree_antisym(a, b);
    if cmp_tree(a, b) == Ordering::Less && cmp_tree(b, c) == Ordering::Less {
        lemma_tree_trans(a, b, c);
    }
}

/// The number of children of an application; zero for a literal.
pub open spec fn arity(t: Tree) -> nat {
    match t {
        Tree::Num(_) => 0,
        Tree::Func(_, _, cs) => cs.len(),
    }
}

proof fn lemma_flatten_plain_len(name: Seq<char>, s: Seq<Tree>)
    ensures
        flatten(name, false, s).len() == s.len(),
    decreases s.len(),
{
    if s.len() > 0 {
        lemma_flatten_plain_len(name, s.drop_last());
    }
}

proof fn lemma_insert_sorted_len(s: Seq<Tree>, x: Tree)
    ensures
        insert_sorted(s, x).len() == s.len() + 1,
    decreases s.len(),
{
    if s.len() > 0 {
        lemma_insert_sorted_len(s.drop_last(), x);
    }
}

proof fn lemma_sort_len(s: Seq<Tree>)
    ensures
        sort_trees(s).len() == s.len(),
    decreases s.len(),
{
    if s.len() > 0 {
        lemma_sort_len(s.drop_last());
        lemma_insert_sorted_len(sort_trees(s.drop_last()), s.last());
    }
}

/// Normalization never flattens a non-associative operator: the application
/// keeps exactly as many children as it had.
pub proof fn lemma_non_associative_keeps_arity(n: Seq<char>, a: FuncAttr, cs: Seq<Tree>)
    requires
        !a.associative,
    ensures
        arity(normalize_tree(Tree::Func(n, a, cs))) == cs.len(),
{
    lemma_normalize_all(cs);
    lemma_flatten_plain_len(n, normalize_all(cs));
    lemma_sort_len(flatten(n, false, normalize_all(cs)));
}

/// Rewriting a binary application of the rule's source operator gives the
/// target operator over the rewritten left operand and the inverse operator
/// applied to the rewritten right operand; literal operands stay as they are.
pub proof fn lemma_inv_conversion_binary(rule: InvRule, a: FuncAttr, l: Tree, r: Tree)
    ensures
        convert_tree(Tree::Func(rule.from, a, seq![l, r]), rule) == Tree::Func(
            rule.to,
            rule.to_attrs,
            seq![
                convert_tree(l, rule),
                Tree::Func(rule.inv, rule.inv_attrs, seq![convert_tree(r, rule)]),
            ],
        ),
        l is Num ==> convert_tree(l, rule) == l,
        r is Num ==> convert_tree(r, rule) == r,
{
    assert(seq![l, r][0] == l);
    assert(seq![l, r][1] == r);
}

/// Every application in `t` carries the attributes that `f` gives its name.
pub open spec fn attributed(t: Tree, f: spec_fn(Seq<char>) -> FuncAttr) -> bool
    decreases t,
{
    match t {
        Tree::Num(_) => true,
        Tree::Func(n, a, cs) => a == f(n) && forall|i: int|
            0 <= i < cs.len() ==> attributed(#[trigger] cs[i], f),
    }
}

/// `t` is an application named `n`.
pub open spec fn named(t: Tree, n: Seq<char>) -> bool {
    match t {
        Tree::Func(m, _, _) => m == n,
        Tree::Num(_) => false,
    }
}

/// No element of `s` compares greater than the next one.
pub open spec fn sorted(s: Seq<Tree>) -> bool {
    forall|k: int| 0 <= k < s.len() - 1 ==> #[trigger] cmp_tree(s[k], s[k + 1]) != Ordering::Greater
}

/// `t` is attributed by `f`, and no application in it could be flattened or
/// reordered further.
pub open spec fn canonical(t: Tree, f: spec_fn(Seq<char>) -> FuncAttr) -> bool
    decreases t,
{
    match t {
        Tree::Num(_) => true,
        Tree::Func(n, a, cs) => {
            &&& a == f(n)
            &&& forall|i: int| 0 <= i < cs.len() ==> canonical(#[trigger] cs[i], f)
            &&& a.associative ==> forall|i: int|
                0 <= i < cs.len() ==> !named(#[trigger] cs[i], n)
            &&& a.commutative ==> sorted(cs)
        },
    }
}

proof fn lemma_flatten_all(name: Seq<char>, assoc: bool, s: Seq<Tree>, q: spec_fn(Tree) -> bool)
    requires
        forall|i: int, j: int|
            0 <= i < s.len() && 0 <= j < splice(name, assoc, s[i]).len() ==> q(
                #[trigger] splice(name, assoc, s[i])[j],
            ),
    ensures
        forall|k: int| 0 <= k < flatten(name, assoc, s).len() ==> q(#[trigger] flatten(name, assoc, s)[k]),
    decreases s.len(),
{
    if s.len() > 0 {
        let p = s.drop_last();
        assert forall|i: int, j: int|
            0 <= i < p.len() && 0 <= j < splice(name, assoc, p[i]).len() implies q(
            #[trigger] splice(name, assoc, p[i])[j],
        ) by {
            assert(p[i] == s[i]);
        }
        lemma_flatten_all(name, assoc, p, q);
        let f = flatten(name, assoc, s);
        let fp = flatten(name, assoc, p);
        let last = splice(name, assoc, s.last());
        assert forall|k: int| 0 <= k < f.len() implies q(#[trigger] f[k]) by {
            if k >= fp.len() {
                assert(f[k] == last[k - fp.len()]);
                assert(q(splice(name, assoc, s[s.len() - 1])[k - fp.len()]));
            } else {
                assert(f[k] == fp[k]);
            }
        }
    }
}

proof fn lemma_flatten_single(name: Seq<char>, assoc: bool, s: Seq<Tree>)
    requires
        forall|i: int| 0 <= i < s.len() ==> splice(name, assoc, #[trigger] s[i]) == seq![s[i]],
    ensures
        flatten(name, assoc, s) == s,
    decreases s.len(),
{
    if s.len() > 0 {
        let p = s.drop_last();
        assert forall|i: int| 0 <= i < p.len() implies splice(name, assoc, #[trigger] p[i]) == seq![p[i]] by {
            assert(p[i] == s[i]);
        }
        lemma_flatten_single(name, assoc, p);
        assert(splice(name, assoc, s[s.len() - 1]) == seq![s[s.len() - 1]]);
        assert(p + seq![s.last()] =~= s);
    }
}

proof fn lemma_insert_all(s: Seq<Tree>, x: Tree, q: spec_fn(Tree) -> bool)
    requires
        forall|i: int| 0 <= i < s.len() ==> q(#[trigger] s[i]),
        q(x),
    ensures
        forall|k: int| 0 <= k < insert_sorted(s, x).len() ==> q(#[trigger] insert_sorted(s, x)[k]),
    decreases s.len(),
{
    if s.len() > 0 && cmp_tree(s.last(), x) == Ordering::Greater {
        let p = s.drop_last();
        assert forall|i: int| 0 <= i < p.len() implies q(#[trigger] p[i]) by {
            assert(p[i] == s[i]);
        }
        lemma_insert_all(p, x, q);
        let r = insert_sorted(s, x);
        let rp = insert_sorted(p, x);
        assert forall|k: int| 0 <= k < r.len() implies q(#[trigger] r[k]) by {
            if k < rp.len() {
                assert(r[k] == rp[k]);
            } else {
                assert(r[k] == s[s.len() - 1]);
            }
        }
    } else {
        let r = insert_sorted(s, x);
        assert forall|k: int| 0 <= k < r.len() implies q(#[trigger] r[k]) by {
            if k < s.len() {
                assert(r[k] == s[k]);
            }
        }
    }
}

proof fn lemma_sort_all(s: Seq<Tree>, q: spec_fn(Tree) -> bool)
    requires
        forall|i: int| 0 <= i < s.len() ==> q(#[trigger] s[i]),
    ensures
        forall|k: int| 0 <= k < sort_trees(s).len() ==> q(#[trigger] sort_trees(s)[k]),
    decreases s.len(),
{
    if s.len() > 0 {
        let p = s.drop_last();
        assert forall|i: int| 0 <= i < p.len() implies q(#[trigger] p[i]) by {
            assert(p[i] == s[i]);
        }
        lemma_sort_all(p, q);
        lemma_insert_all(sort_trees(p), s.last(), q);
    }
}

proof fn lemma_insert_last(s: Seq<Tree>, x: Tree)
    ensures
        insert_sorted(s, x).last() == x || (s.len() > 0 && insert_sorted(s, x).last() == s.last()),
    decreases s.len(),
{
    lemma_insert_sorted_len(s, x);
}

proof fn lemma_insert_sorted(s: Seq<Tree>, x: Tree)
    requires
        sorted(s),
    ensures
        sorted(insert_sorted(s, x)),
    decreases s.len(),
{
    lemma_insert_sorted_len(s, x);
    if s.len() > 0 && cmp_tree(s.last(), x) == Ordering::Greater {
        let p = s.drop_last();
        assert forall|k: int| 0 <= k < p.len() - 1 implies #[trigger] cmp_tree(p[k], p[k + 1])
            != Ordering::Greater by {
            assert(p[k] == s[k]);
            assert(p[k + 1] == s[k + 1]);
        }
        lemma_insert_sorted(p, x);
        lemma_insert_last(p, x);
        lemma_insert_sorted_len(p, x);
        lemma_tree_antisym(s.last(), x);
        let rp = insert_sorted(p, x);
        let r = rp.push(s.last());
        if p.len() > 0 && rp.last() == p.last() {
            let k = s.len() - 2;
            assert(p.last() == s[k]);
            assert(cmp_tree(s[k], s[k + 1]) != Ordering::Greater);
        }
        assert forall|k: int| 0 <= k < r.len() - 1 implies #[trigger] cmp_tree(r[k], r[k + 1])
            != Ordering::Greater by {
            if k < rp.len() - 1 {
                assert(r[k] == rp[k]);
                assert(r[k + 1] == rp[k + 1]);
            } else {
                assert(r[k] == rp.last());
            }
        }
    } else if s.len() > 0 {
        let r = s.push(x);
        assert forall|k: int| 0 <= k < r.len() - 1 implies #[trigger] cmp_tree(r[k], r[k + 1])
            != Ordering::Greater by {
            if k < s.len() - 1 {
                assert(r[k] == s[k]);
                assert(r[k + 1] == s[k + 1]);
            }
        }
    }
}

proof fn lemma_sort_sorted(s: Seq<Tree>)
    ensures
        sorted(sort_trees(s)),
    decreases s.len(),
{
    if s.len() > 0 {
        lemma_sort_sorted(s.drop_last());
        lemma_insert_sorted(sort_trees(s.drop_last()), s.last());
    }
}

proof fn lemma_sort_of_sorted(s: Seq<Tree>)
    requires
        sorted(s),
    ensures
        sort_trees(s) == s,
    decreases s.len(),
{
    if s.len() > 0 {
        let p = s.drop_last();
        assert forall|k: int| 0 <= k < p.len() - 1 implies #[trigger] cmp_tree(p[k], p[k + 1])
            != Ordering::Greater by {
            assert(p[k] == s[k]);
            assert(p[k + 1] == s[k + 1]);
        }
        lemma_sort_of_sorted(p);
        if p.len() > 0 {
            assert(p.last() == s[s.len() - 2]);
        }
        assert(p.push(s.last()) =~= s);
    }
}

proof fn lemma_canonical_fixed(t: Tree, f: spec_fn(Seq<char>) -> FuncAttr)
    requires
        canonical(t, f),
    ensures
        normalize_tree(t) == t,
    decreases t,
{
    match t {
        Tree::Num(_) => {},
        Tree::Func(n, a, cs) => {
            lemma_normalize_all(cs);
            assert forall|i: int| 0 <= i < cs.len() implies normalize_all(cs)[i] == cs[i] by {
                lemma_canonical_fixed(cs[i], f);
            }
            assert(normalize_all(cs) =~= cs);
            assert forall|i: int| 0 <= i < cs.len() implies splice(n, a.associative, #[trigger] cs[i])
                == seq![cs[i]] by {
                assert(canonical(cs[i], f));
            }
            lemma_flatten_single(n, a.associative, cs);
            if a.commutative {
                lemma_sort_of_sorted(cs);
            }
        },
    }
}

proof fn lemma_normalize_canonical(t: Tree, f: spec_fn(Seq<char>) -> FuncAttr)
    requires
        attributed(t, f),
    ensures
        canonical(normalize_tree(t), f),
    decreases t,
{
    match t {
        Tree::Num(_) => {},
        Tree::Func(n, a, cs) => {
            let nn = normalize_all(cs);
            lemma_normalize_all(cs);
            assert forall|i: int| 0 <= i < nn.len() implies canonical(#[trigger] nn[i], f) by {
                assert(attributed(cs[i], f));
                lemma_normalize_canonical(cs[i], f);
            }
            let q = |x: Tree|
                canonical(x, f) && !(a.associative && named(x, n));
            assert forall|i: int, j: int|
                0 <= i < nn.len() && 0 <= j < splice(n, a.associative, nn[i]).len() implies q(
                #[trigger] splice(n, a.associative, nn[i])[j],
            ) by {
                assert(canonical(nn[i], f));
                match nn[i] {
                    Tree::Func(m, b, gs) => {
                        if a.associative && m == n {
                            assert(canonical(gs[j], f));
                        }
                    },
                    Tree::Num(_) => {},
                }
            }
            lemma_flatten_all(n, a.associative, nn, q);
            let fl = flatten(n, a.associative, nn);
            if a.commutative {
                lemma_sort_all(fl, q);
                lemma_sort_sorted(fl);
            }
            let r = arrange(n, a, nn);
            assert forall|i: int| 0 <= i < r.len() implies q(#[trigger] r[i]) by {
                if a.commutative {
                    assert(q(sort_trees(fl)[i]));
                } else {
                    assert(q(fl[i]));
                }
            }
            assert forall|i: int| 0 <= i < r.len() implies canonical(#[trigger] r[i], f) by {
                assert(q(r[i]));
            }
            assert(canonical(Tree::Func(n, a, r), f));
        },
    }
}

/// Normalizing a normalized tree changes nothing, for every tree in which
/// each operator name always carries the same attributes.
pub proof fn lemma_normalize_idempotent(t: Tree, f: spec_fn(Seq<char>) -> FuncAttr)
    requires
        attributed(t, f),
    ensures
        normalize_tree(normalize_tree(t)) == normalize_tree(t),
{
    lemma_normalize_canonical(t, f);
    lemma_canonical_fixed(normalize_tree(t), f);
}

proof fn lemma_ingest_all(es: Seq<PExpr>, sym: Symbols)
    requires
        first_unknown_all(es, sym) is None,
    ensures
        ingest_all(es, sym).len() == es.len(),
        forall|k: int|
            0 <= k < es.len() ==> #[trigger] ingest_all(es, sym)[k] == ingest_tree(es[k], sym)
                && first_unknown(es[k], sym) is None,
    decreases es.len(),
{
    if es.len() > 0 {
        lemma_ingest_all(es.subrange(0, es.len() - 1), sym);
    }
}

/// Every tree that ingestion builds gives each operator name the attributes
/// that the symbol table holds for it.
pub proof fn lemma_ingest_attributed(e: PExpr, sym: Symbols)
    requires
        first_unknown(e, sym) is None,
    ensures
        attributed(ingest_tree(e, sym), |n: Seq<char>| sym.attrs_of(n)->0),
    decreases e,
{
    match e {
        PExpr::Num(_) => {},
        PExpr::Func(n, es) => {
            lemma_ingest_all(es@, sym);
            let ts = ingest_all(es@, sym);
            assert forall|i: int| 0 <= i < ts.len() implies attributed(
                #[trigger] ts[i],
                |n: Seq<char>| sym.attrs_of(n)->0,
            ) by {
                assert(decreases_to!(e => e->1));
                assert(decreases_to!(e->1 => e->1@));
                assert(decreases_to!(e->1@ => e->1@[i]));
                assert(ts[i] == ingest_tree(es@[i], sym));
                lemma_ingest_attributed(es@[i], sym);
            }
        },
    }
}

proof fn lemma_insert_multiset(s: Seq<Tree>, x: Tree)
    ensures
        insert_sorted(s, x).to_multiset() == s.to_multiset().insert(x),
    decreases s.len(),
{
    if s.len() > 0 && cmp_tree(s.last(), x) == Ordering::Greater {
        let p = s.drop_last();
        lemma_insert_multiset(p, x);
        assert(p.push(s.last()) =~= s);
        assert(insert_sorted(s, x).to_multiset() =~= s.to_multiset().insert(x));
    }
}

proof fn lemma_sort_multiset(s: Seq<Tree>)
    ensures
        sort_trees(s).to_multiset() == s.to_multiset(),
    decreases s.len(),
{
    if s.len() > 0 {
        let p = s.drop_last();
        lemma_sort_multiset(p);
        lemma_insert_multiset(sort_trees(p), s.last());
        assert(p.push(s.last()) =~= s);
    }
}

/// `a` does not come after `b`, and `b` does not come after `c`: then `a`
/// does not come after `c`.
proof fn lemma_not_after_trans(a: Tree, b: Tree, c: Tree)
    requires
        cmp_tree(a, b) != Ordering::Greater,
        cmp_tree(b, c) != Ordering::Greater,
    ensures
        cmp_tree(a, c) != Ordering::Greater,
{
    lemma_tree_eq(a, b);
    lemma_tree_eq(b, c);
    if cmp_tree(a, b) == Ordering::Less && cmp_tree(b, c) == Ordering::Less {
        lemma_tree_trans(a, b, c);
    }
}

proof fn lemma_sorted_to_last(s: Seq<Tree>, i: int)
    requires
        sorted(s),
        0 <= i < s.len(),
    ensures
        cmp_tree(s[i], s[s.len() - 1]) != Ordering::Greater,
    decreases s.len() - i,
{
    if i == s.len() - 1 {
        lemma_tree_eq(s[i], s[i]);
    } else {
        lemma_sorted_to_last(s, i + 1);
        assert(cmp_tree(s[i], s[i + 1]) != Ordering::Greater);
        lemma_not_after_trans(s[i], s[i + 1], s[s.len() - 1]);
    }
}

proof fn lemma_sorted_unique(s1: Seq<Tree>, s2: Seq<Tree>)
    requires
        sorted(s1),
        sorted(s2),
        s1.to_multiset() == s2.to_multiset(),
    ensures
        s1 == s2,
    decreases s1.len(),
{
    if s1.len() == 0 {
        assert(s2.to_multiset().len() == 0);
        assert(s1 =~= s2);
    } else {
        vstd::seq_lib::to_multiset_len(s1);
        vstd::seq_lib::to_multiset_len(s2);
        let l1 = s1.last();
        let l2 = s2.last();
        assert(s2.to_multiset().count(l1) > 0);
        assert(s2.contains(l1));
        let j = choose|j: int| 0 <= j < s2.len() && s2[j] == l1;
        lemma_sorted_to_last(s2, j);
        assert(s1.to_multiset().count(l2) > 0);
        assert(s1.contains(l2));
        let i = choose|i: int| 0 <= i < s1.len() && s1[i] == l2;
        lemma_sorted_to_last(s1, i);
        lemma_tree_antisym(l1, l2);
        lemma_tree_eq(l1, l2);
        let p1 = s1.drop_last();
        let p2 = s2.drop_last();
        assert(p1.push(l1) =~= s1);
        assert(p2.push(l2) =~= s2);
        assert(p1.to_multiset() =~= s1.to_multiset().remove(l1));
        assert(p2.to_multiset() =~= s2.to_multiset().remove(l2));
        assert forall|k: int| 0 <= k < p1.len() - 1 implies #[trigger] cmp_tree(p1[k], p1[k + 1])
            != Ordering::Greater by {
            assert(cmp_tree(s1[k], s1[k + 1]) != Ordering::Greater);
        }
        assert forall|k: int| 0 <= k < p2.len() - 1 implies #[trigger] cmp_tree(p2[k], p2[k + 1])
            != Ordering::Greater by {
            assert(cmp_tree(s2[k], s2[k + 1]) != Ordering::Greater);
        }
        lemma_sorted_unique(p1, p2);
    }
}

/// Sorting depends only on which trees are sorted, not on their order.
proof fn lemma_sort_permutation(s1: Seq<Tree>, s2: Seq<Tree>)
    requires
        s1.to_multiset() == s2.to_multiset(),
    ensures
        sort_trees(s1) == sort_trees(s2),
{
    lemma_sort_sorted(s1);
    lemma_sort_sorted(s2);
    lemma_sort_multiset(s1);
    lemma_sort_multiset(s2);
    lemma_sorted_unique(sort_trees(s1), sort_trees(s2));
}

proof fn lemma_flatten_concat(name: Seq<char>, assoc: bool, s1: Seq<Tree>, s2: Seq<Tree>)
    ensures
        flatten(name, assoc, s1 + s2) == flatten(name, assoc, s1) + flatten(name, assoc, s2),
    decreases s2.len(),
{
    if s2.len() == 0 {
        assert(s1 + s2 =~= s1);
        assert(flatten(name, assoc, s1) + flatten(name, assoc, s2) =~= flatten(name, assoc, s1));
    } else {
        let p = s2.drop_last();
        lemma_flatten_concat(name, assoc, s1, p);
        assert((s1 + s2).drop_last() =~= s1 + p);
        assert((s1 + s2).last() == s2.last());
        assert(flatten(name, assoc, s1) + flatten(name, assoc, p) + splice(name, assoc, s2.last())
            =~= flatten(name, assoc, s1) + (flatten(name, assoc, p) + splice(name, assoc, s2.last())));
    }
}

proof fn lemma_flatten_one(name: Seq<char>, assoc: bool, t: Tree)
    ensures
        flatten(name, assoc, seq![t]) == splice(name, assoc, t),
{
    let one = seq![t];
    assert(one.drop_last() =~= Seq::<Tree>::empty());
    assert(one.last() == t);
    assert(flatten(name, assoc, one.drop_last()) =~= Seq::<Tree>::empty());
    assert(Seq::<Tree>::empty() + splice(name, assoc, t) =~= splice(name, assoc, t));
}

/// Arranging a sequence whose front part was arranged already gives the same
/// result as arranging the whole sequence at once.
proof fn lemma_arrange_nested(n: Seq<char>, a: FuncAttr, s1: Seq<Tree>, s2: Seq<Tree>)
    ensures
        (if a.commutative {
            sort_trees(sort_trees(s1) + s2)
        } else {
            s1 + s2
        }) == (if a.commutative {
            sort_trees(s1 + s2)
        } else {
            s1 + s2
        }),
        (if a.commutative {
            sort_trees(s1 + sort_trees(s2))
        } else {
            s1 + s2
        }) == (if a.commutative {
            sort_trees(s1 + s2)
        } else {
            s1 + s2
        }),
{
    if a.commutative {
        lemma_sort_multiset(s1);
        lemma_sort_multiset(s2);
        vstd::seq_lib::lemma_multiset_commutative(sort_trees(s1), s2);
        vstd::seq_lib::lemma_multiset_commutative(s1, sort_trees(s2));
        vstd::seq_lib::lemma_multiset_commutative(s1, s2);
        assert((sort_trees(s1) + s2).to_multiset() =~= (s1 + s2).to_multiset());
        assert((s1 + sort_trees(s2)).to_multiset() =~= (s1 + s2).to_multiset());
        lemma_sort_permutation(sort_trees(s1) + s2, s1 + s2);
        lemma_sort_permutation(s1 + sort_trees(s2), s1 + s2);
    }
}

/// Under an associative operator, grouping does not matter: `(x y) z`,
/// `x (y z)` and the flat `x y z` have the same canonical form.
pub proof fn lemma_associative_flattening(n: Seq<char>, a: FuncAttr, x: Tree, y: Tree, z: Tree)
    requires
        a.associative,
    ensures
        normalize_tree(Tree::Func(n, a, seq![Tree::Func(n, a, seq![x, y]), z])) == normalize_tree(
            Tree::Func(n, a, seq![x, y, z]),
        ),
        normalize_tree(Tree::Func(n, a, seq![x, Tree::Func(n, a, seq![y, z])])) == normalize_tree(
            Tree::Func(n, a, seq![x, y, z]),
        ),
{
    let nx = normalize_tree(x);
    let ny = normalize_tree(y);
    let nz = normalize_tree(z);
    let sx = splice(n, true, nx);
    let sy = splice(n, true, ny);
    let sz = splice(n, true, nz);
    let xy = Tree::Func(n, a, seq![x, y]);
    let yz = Tree::Func(n, a, seq![y, z]);
    lemma_normalize_all(seq![x, y]);
    lemma_normalize_all(seq![y, z]);
    lemma_normalize_all(seq![x, y, z]);
    lemma_normalize_all(seq![xy, z]);
    lemma_normalize_all(seq![x, yz]);
    assert(normalize_all(seq![x, y]) =~= seq![nx] + seq![ny]);
    assert(normalize_all(seq![y, z]) =~= seq![ny] + seq![nz]);
    assert(normalize_all(seq![x, y, z]) =~= seq![nx] + seq![ny] + seq![nz]);
    assert(normalize_all(seq![xy, z]) =~= seq![normalize_tree(xy)] + seq![nz]);
    assert(normalize_all(seq![x, yz]) =~= seq![nx] + seq![normalize_tree(yz)]);
    lemma_flatten_one(n, true, nx);
    lemma_flatten_one(n, true, ny);
    lemma_flatten_one(n, true, nz);
    lemma_flatten_concat(n, true, seq![nx], seq![ny]);
    lemma_flatten_concat(n, true, seq![ny], seq![nz]);
    lemma_flatten_concat(n, true, seq![nx] + seq![ny], seq![nz]);
    lemma_normalize_func_eq(n, a, seq![x, y]);
    lemma_normalize_func_eq(n, a, seq![y, z]);
    lemma_normalize_func_eq(n, a, seq![x, y, z]);
    lemma_normalize_func_eq(n, a, seq![xy, z]);
    lemma_normalize_func_eq(n, a, seq![x, yz]);
    let ixy = normalize_tree(xy);
    let iyz = normalize_tree(yz);
    lemma_flatten_one(n, true, ixy);
    lemma_flatten_one(n, true, iyz);
    lemma_flatten_concat(n, true, seq![ixy], seq![nz]);
    lemma_flatten_concat(n, true, seq![nx], seq![iyz]);
    lemma_arrange_nested(n, a, sx + sy, sz);
    lemma_arrange_nested(n, a, sx, sy + sz);
    assert(sx + sy + sz =~= sx + (sy + sz));
}

} // verus!

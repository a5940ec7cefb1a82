use vstd::prelude::*;
use vstd::string::StringExecFns;
use std::cmp::Ordering;

use crate::main_expr::{EngineError, compare_i64, compare_names, compare_usize};
use crate::pexpr::PExpr;
use crate::symbols::{FuncAttr, Symbols};
use crate::tree::{
    Tree,
    cmp_tree,
    cmp_trees,
    dump,
    dump_all,
    indentation,
    first_unknown,
    first_unknown_all,
    flatten,
    ingest_all,
    ingest_tree,
    insert_sorted,
    lemma_first_unknown_prefix,
    lemma_normalize_all,
    normalize_all,
    normalize_tree,
    sort_trees,
};

verus! {

/// Operator attributes, under the name this module gives them.
pub type Symbol = FuncAttr;

/// An expression as an owned tree.
pub enum Node {
    Num(i64),
    Func(String, Symbol, Vec<Node>),
}

/// The tree an owned node stands for.
pub open spec fn node_tree(n: Node) -> Tree
    decreases n,
{
    match n {
        Node::Num(v) => Tree::Num(v),
        Node::Func(name, s, cs) => Tree::Func(name@, s, node_trees(cs@)),
    }
}

/// The trees of a sequence of owned nodes.
pub open spec fn node_trees(s: Seq<Node>) -> Seq<Tree>
    decreases s,
{
    if s.len() == 0 {
        Seq::empty()
    } else {
        node_trees(s.subrange(0, s.len() - 1)).push(node_tree(s[s.len() - 1]))
    }
}

pub proof fn lemma_node_trees(s: Seq<Node>)
    ensures
        node_trees(s).len() == s.len(),
        forall|k: int| 0 <= k < s.len() ==> #[trigger] node_trees(s)[k] == node_tree(s[k]),
    decreases s.len(),
{
    if s.len() > 0 {
        lemma_node_trees(s.subrange(0, s.len() - 1));
    }
}

proof fn lemma_node_trees_ext(a: Seq<Node>, ta: Seq<Tree>)
    requires
        a.len() == ta.len(),
        forall|k: int| 0 <= k < a.len() ==> node_tree(a[k]) == ta[k],
    ensures
        node_trees(a) == ta,
{
    lemma_node_trees(a);
    assert(node_trees(a) =~= ta);
}

impl Node {
    /// Compares two trees under the canonical total order.
    pub fn cmp(&self, other: &Node) -> (r: Ordering)
        ensures
            r == cmp_tree(node_tree(*self), node_tree(*other)),
        decreases self,
    {
        match self {
            Node::Num(x) => match other {
                Node::Num(y) => compare_i64(*x, *y),
                Node::Func(..) => Ordering::Greater,
            },
            Node::Func(n1, a1, c1) => match other {
                Node::Num(_) => Ordering::Less,
                Node::Func(n2, a2, c2) => {
                    assert(node_tree(*self) == Tree::Func(n1@, *a1, node_trees(c1@)));
                    assert(node_tree(*other) == Tree::Func(n2@, *a2, node_trees(c2@)));
                    let c = compare_names(n1, n2);
                    if !matches!(c, Ordering::Equal) {
                        return c;
                    }
                    let c = compare_i64(a1.rank() as i64, a2.rank() as i64);
                    if !matches!(c, Ordering::Equal) {
                        return c;
                    }
                    proof {
                        lemma_node_trees(c1@);
                        lemma_node_trees(c2@);
                    }
                    let c = compare_usize(c1.len(), c2.len());
                    if !matches!(c, Ordering::Equal) {
                        return c;
                    }
                    let ghost t1 = node_trees(c1@);
                    let ghost t2 = node_trees(c2@);
                    let n = c1.len();
                    let mut k: usize = 0;
                    proof {
                        assert(t1.subrange(0, n as int) =~= t1);
                        assert(t2.subrange(0, n as int) =~= t2);
                    }
                    while k < n
                        invariant
                            n == c1@.len(),
                            n == c2@.len(),
                            k <= n,
                            *self == Node::Func(*n1, *a1, *c1),
                            t1 == node_trees(c1@),
                            t2 == node_trees(c2@),
                            t1.len() == n,
                            t2.len() == n,
                            forall|m: int| 0 <= m < n ==> #[trigger] t1[m] == node_tree(c1@[m]),
                            forall|m: int| 0 <= m < n ==> #[trigger] t2[m] == node_tree(c2@[m]),
                            cmp_tree(node_tree(*self), node_tree(*other)) == cmp_trees(t1, t2),
                            cmp_trees(t1, t2) == cmp_trees(
                                t1.subrange(k as int, n as int),
                                t2.subrange(k as int, n as int),
                            ),
                        decreases n - k,
                    {
                        proof {
                            assert(decreases_to!(*self => (*self)->2));
                            assert(decreases_to!((*self)->2 => (*self)->2@));
                            assert(decreases_to!((*self)->2@ => (*self)->2@[k as int]));
                        }
                        let c = c1[k].cmp(&c2[k]);
                        proof {
                            let s1 = t1.subrange(k as int, n as int);
                            let s2 = t2.subrange(k as int, n as int);
                            assert(s1[0] == t1[k as int]);
                            assert(s2[0] == t2[k as int]);
                            assert(s1.subrange(1, s1.len() as int) =~= t1.subrange(k + 1, n as int));
                            assert(s2.subrange(1, s2.len() as int) =~= t2.subrange(k + 1, n as int));
                        }
                        if !matches!(c, Ordering::Equal) {
                            return c;
                        }
                        k = k + 1;
                    }
                    Ordering::Equal
                },
            },
        }
    }
}

/// Sorts nodes stably under the canonical total order.
pub fn sort_nodes(v: &mut Vec<Node>)
    ensures
        node_trees(final(v)@) == sort_trees(node_trees(old(v)@)),
{
    let ghost tv = node_trees(v@);
    let total: usize = v.len();
    proof {
        lemma_node_trees(v@);
        assert(tv.subrange(0, 0) =~= Seq::<Tree>::empty());
    }
    let mut out: Vec<Node> = Vec::new();
    let mut k: usize = 0;
    proof {
        assert(node_trees(out@) =~= Seq::<Tree>::empty());
    }
    while v.len() > 0
        invariant
            k + v@.len() == total,
            tv.len() == total,
            forall|m: int| 0 <= m < v@.len() ==> node_tree(#[trigger] v@[m]) == tv[k + m],
            node_trees(out@) == sort_trees(tv.subrange(0, k as int)),
        decreases v@.len(),
    {
        let ghost rest = v@;
        let x = v.remove(0);
        proof {
            assert forall|m: int| 0 <= m < v@.len() implies node_tree(#[trigger] v@[m]) == tv[k + 1 + m] by {
                assert(v@[m] == rest[m + 1]);
            }
        }
        let ghost tx = node_tree(x);
        let ghost to = node_trees(out@);
        proof {
            lemma_node_trees(out@);
        }
        let mut j: usize = out.len();
        let mut done = false;
        proof {
            assert(to.subrange(0, j as int) =~= to);
            assert(to.subrange(j as int, to.len() as int) =~= Seq::<Tree>::empty());
        }
        while j > 0 && !done
            invariant
                j <= out@.len(),
                to == node_trees(out@),
                to.len() == out@.len(),
                forall|m: int| 0 <= m < out@.len() ==> #[trigger] to[m] == node_tree(out@[m]),
                tx == node_tree(x),
                insert_sorted(to, tx) == insert_sorted(to.subrange(0, j as int), tx) + to.subrange(
                    j as int,
                    to.len() as int,
                ),
                done ==> j > 0 && cmp_tree(to[j - 1], tx) != Ordering::Greater,
            decreases j + (if done {
                0int
            } else {
                1int
            }),
        {
            let c = out[j - 1].cmp(&x);
            if matches!(c, Ordering::Greater) {
                proof {
                    let p = to.subrange(0, j as int);
                    assert(p.drop_last() =~= to.subrange(0, j - 1));
                    assert(p.last() == to[j - 1]);
                    assert(insert_sorted(p, tx) == insert_sorted(to.subrange(0, j - 1), tx).push(to[j - 1]));
                    assert(insert_sorted(to.subrange(0, j - 1), tx).push(to[j - 1]) + to.subrange(
                        j as int,
                        to.len() as int,
                    ) =~= insert_sorted(to.subrange(0, j - 1), tx) + to.subrange(j - 1, to.len() as int));
                }
                j = j - 1;
            } else {
                done = true;
            }
        }
        proof {
            let p = to.subrange(0, j as int);
            if j > 0 {
                assert(p.last() == to[j - 1]);
            }
            assert(insert_sorted(p, tx) == p.push(tx));
        }
        let ghost out0 = out@;
        out.insert(j, x);
        proof {
            let target = to.subrange(0, j as int).push(tx) + to.subrange(j as int, to.len() as int);
            assert forall|m: int| 0 <= m < out@.len() implies node_tree(out@[m]) == target[m] by {
                if m < j {
                    assert(out@[m] == out0[m]);
                } else if m > j {
                    assert(out@[m] == out0[m - 1]);
                }
            }
            lemma_node_trees_ext(out@, target);
            let q = tv.subrange(0, k + 1);
            assert(q.drop_last() =~= tv.subrange(0, k as int));
            assert(q.last() == tx);
        }
        k = k + 1;
    }
    proof {
        assert(tv.subrange(0, k as int) =~= tv);
    }
    *v = out;
}

/// The canonical form of an owned tree: children normalized first, same-named
/// children of an associative operator spliced in, children of a commutative
/// operator sorted.
pub fn normalize_visit(node: &Node) -> (r: Node)
    ensures
        node_tree(r) == normalize_tree(node_tree(*node)),
    decreases node,
{
    match node {
        Node::Num(i) => Node::Num(*i),
        Node::Func(name, attrs, children) => {
            let ghost kids = node_trees(children@);
            let ghost normed = normalize_all(kids);
            proof {
                lemma_node_trees(children@);
                lemma_normalize_all(kids);
                assert(flatten(name@, attrs.associative, normed.subrange(0, 0)) =~= Seq::<Tree>::empty());
            }
            let mut new_children: Vec<Node> = Vec::new();
            proof {
                assert(node_trees(new_children@) =~= Seq::<Tree>::empty());
            }
            let mut k: usize = 0;
            while k < children.len()
                invariant
                    *node == Node::Func(*name, *attrs, *children),
                    k <= children@.len(),
                    kids == node_trees(children@),
                    kids.len() == children@.len(),
                    forall|m: int| 0 <= m < kids.len() ==> #[trigger] kids[m] == node_tree(children@[m]),
                    normed == normalize_all(kids),
                    normed.len() == kids.len(),
                    forall|m: int| 0 <= m < kids.len() ==> #[trigger] normed[m] == normalize_tree(kids[m]),
                    node_trees(new_children@) == flatten(
                        name@,
                        attrs.associative,
                        normed.subrange(0, k as int),
                    ),
                decreases children@.len() - k,
            {
                proof {
                    assert(decreases_to!(*node => (*node)->2));
                    assert(decreases_to!((*node)->2 => (*node)->2@));
                    assert(decreases_to!((*node)->2@ => (*node)->2@[k as int]));
                }
                let n = normalize_visit(&children[k]);
                let ghost nc0 = new_children@;
                proof {
                    let q = normed.subrange(0, k + 1);
                    assert(q.drop_last() =~= normed.subrange(0, k as int));
                    assert(q.last() == normed[k as int]);
                    assert(node_tree(n) == normed[k as int]);
                    lemma_node_trees(nc0);
                }
                let same = match &n {
                    Node::Func(cn, _, _) => *cn == *name,
                    Node::Num(_) => false,
                };
                if attrs.associative && same {
                    match n {
                        Node::Func(_, _, cc) => {
                            let mut cc = cc;
                            let ghost cc0 = cc@;
                            proof {
                                lemma_node_trees(cc0);
                            }
                            new_children.append(&mut cc);
                            proof {
                                let target = node_trees(nc0) + node_trees(cc0);
                                assert forall|m: int| 0 <= m < new_children@.len() implies node_tree(
                                    new_children@[m],
                                ) == target[m] by {
                                    if m >= nc0.len() {
                                        assert(new_children@[m] == cc0[m - nc0.len()]);
                                    }
                                }
                                lemma_node_trees_ext(new_children@, target);
                            }
                        },
                        Node::Num(_) => {},
                    }
                } else {
                    new_children.push(n);
                    proof {
                        assert(new_children@.subrange(0, new_children@.len() - 1) =~= nc0);
                    }
                }
                k = k + 1;
            }
            proof {
                assert(normed.subrange(0, k as int) =~= normed);
            }
            if attrs.is_commutative() {
                sort_nodes(&mut new_children);
            }
            Node::Func(name.clone(), *attrs, new_children)
        },
    }
}

fn print_node(node: &Node, prefix: &String, Ghost(depth): Ghost<nat>, out: &mut String)
    requires
        prefix@ == indentation(depth),
    ensures
        final(out)@ == old(out)@ + dump(node_tree(*node), depth),
    decreases node,
{
    proof {
        reveal_strlit("\n");
        reveal_strlit("    ");
    }
    out.append(prefix.as_str());
    match node {
        Node::Num(n) => {
            let text = crate::main_expr::decimal_text(*n);
            out.append(text.as_str());
            out.append("\n");
            proof {
                assert(final(out)@ =~= old(out)@ + dump(node_tree(*node), depth));
            }
        },
        Node::Func(name, _, children) => {
            out.append(name.as_str());
            out.append("\n");
            let mut inner = prefix.clone();
            inner.append("    ");
            proof {
                assert(indentation(depth + 1) == indentation(depth) + seq![' ', ' ', ' ', ' ']);
                assert(inner@ =~= indentation(depth + 1));
                lemma_node_trees(children@);
            }
            let ghost head = out@;
            let ghost kids = node_trees(children@);
            let mut k: usize = 0;
            proof {
                assert(kids.subrange(0, 0) =~= Seq::<Tree>::empty());
                assert(head + dump_all(kids.subrange(0, 0), depth + 1) =~= head);
            }
            while k < children.len()
                invariant
                    *node == Node::Func(*name, node->1, *children),
                    inner@ == indentation(depth + 1),
                    kids == node_trees(children@),
                    kids.len() == children@.len(),
                    forall|m: int| 0 <= m < kids.len() ==> #[trigger] kids[m] == node_tree(children@[m]),
                    k <= children@.len(),
                    out@ == head + dump_all(kids.subrange(0, k as int), depth + 1),
                decreases children@.len() - k,
            {
                proof {
                    assert(decreases_to!(*node => (*node)->2));
                    assert(decreases_to!((*node)->2 => (*node)->2@));
                    assert(decreases_to!((*node)->2@ => (*node)->2@[k as int]));
                }
                print_node(&children[k], &inner, Ghost(depth + 1), out);
                proof {
                    let q = kids.subrange(0, k + 1);
                    assert(q.subrange(0, q.len() - 1) =~= kids.subrange(0, k as int));
                    assert(out@ =~= head + dump_all(q, depth + 1));
                }
                k = k + 1;
            }
            proof {
                assert(kids.subrange(0, k as int) =~= kids);
                assert(out@ =~= old(out)@ + dump(node_tree(*node), depth));
            }
        },
    }
}

fn read_expr_visit(expr: &PExpr, symbols: &Symbols) -> (r: Result<Node, EngineError>)
    ensures
        r is Ok <==> first_unknown(*expr, *symbols) is None,
        r matches Ok(n) ==> node_tree(n) == ingest_tree(*expr, *symbols),
        r matches Err(EngineError::UnknownOperator(n)) ==> first_unknown(*expr, *symbols) == Some(
            n@,
        ),
    decreases expr,
{
    match expr {
        PExpr::Num(n) => Ok(Node::Num(*n)),
        PExpr::Func(name, exprs) => {
            let symbol = match symbols.get_function(name) {
                Some(a) => *a,
                None => {
                    return Err(EngineError::UnknownOperator(name.clone()));
                },
            };
            let mut children: Vec<Node> = Vec::new();
            let mut k: usize = 0;
            proof {
                assert(exprs@.subrange(0, 0) =~= Seq::<PExpr>::empty());
                assert(node_trees(children@) =~= Seq::<Tree>::empty());
            }
            while k < exprs.len()
                invariant
                    *expr == PExpr::Func(*name, *exprs),
                    symbols.attrs_of(name@) == Some(symbol),
                    k <= exprs@.len(),
                    first_unknown_all(exprs@.subrange(0, k as int), *symbols) is None,
                    node_trees(children@) == ingest_all(exprs@.subrange(0, k as int), *symbols),
                decreases exprs@.len() - k,
            {
                proof {
                    assert(decreases_to!(*expr => (*expr)->1));
                    assert(decreases_to!((*expr)->1 => (*expr)->1@));
                    assert(decreases_to!((*expr)->1@ => (*expr)->1@[k as int]));
                    let q = exprs@.subrange(0, k + 1);
                    assert(q.subrange(0, q.len() - 1) =~= exprs@.subrange(0, k as int));
                    assert(q[q.len() - 1] == exprs@[k as int]);
                }
                let ghost c0 = children@;
                match read_expr_visit(&exprs[k], symbols) {
                    Ok(c) => {
                        children.push(c);
                        proof {
                            assert(children@.subrange(0, children@.len() - 1) =~= c0);
                        }
                    },
                    Err(e) => {
                        proof {
                            lemma_first_unknown_prefix(exprs@, k + 1, *symbols);
                        }
                        return Err(e);
                    },
                }
                k = k + 1;
            }
            proof {
                assert(exprs@.subrange(0, k as int) =~= exprs@);
            }
            Ok(Node::Func(name.clone(), symbol, children))
        },
    }
}

/// An operator table with the tree operations that use it.
pub struct Engine {
    symbols: Symbols,
}

impl Engine {
    /// The operator table.
    pub closed spec fn symbols(&self) -> Symbols {
        self.symbols
    }

    pub fn new() -> (r: Self)
        ensures
            forall|n: Seq<char>| r.symbols().attrs_of(n) is None,
    {
        Self { symbols: Symbols::new() }
    }

    /// Registers the operators `add` and `mul` as associative and commutative,
    /// and `sub`, `div`, `pow` and `neg` as neither.
    pub fn init(&mut self)
        ensures
            final(self).symbols().attrs_of("add"@) == Some(Symbol { associative: true, commutative: true }),
            final(self).symbols().attrs_of("mul"@) == Some(Symbol { associative: true, commutative: true }),
            final(self).symbols().attrs_of("sub"@) == Some(Symbol { associative: false, commutative: false }),
            final(self).symbols().attrs_of("div"@) == Some(Symbol { associative: false, commutative: false }),
            final(self).symbols().attrs_of("pow"@) == Some(Symbol { associative: false, commutative: false }),
            final(self).symbols().attrs_of("neg"@) == Some(Symbol { associative: false, commutative: false }),
            forall|n: Seq<char>|
                n != "add"@ && n != "mul"@ && n != "sub"@ && n != "div"@ && n != "pow"@ && n != "neg"@
                    ==> final(self).symbols().attrs_of(n) == old(self).symbols().attrs_of(n),
    {
        proof {
            reveal_strlit("add");
            reveal_strlit("mul");
            reveal_strlit("sub");
            reveal_strlit("div");
            reveal_strlit("pow");
            reveal_strlit("neg");
            assert("add"@[0] == 'a' && "mul"@[0] == 'm' && "sub"@[0] == 's');
            assert("div"@[0] == 'd' && "pow"@[0] == 'p' && "neg"@[0] == 'n');
        }
        self.symbols.add_function(String::from_str("add"), Symbol { associative: true, commutative: true });
        self.symbols.add_function(String::from_str("mul"), Symbol { associative: true, commutative: true });
        self.symbols.add_function(String::from_str("sub"), Symbol { associative: false, commutative: false });
        self.symbols.add_function(String::from_str("div"), Symbol { associative: false, commutative: false });
        self.symbols.add_function(String::from_str("pow"), Symbol { associative: false, commutative: false });
        self.symbols.add_function(String::from_str("neg"), Symbol { associative: false, commutative: false });
    }

    /// Attributes a raw tree from the operator table. Fails, naming the first
    /// unknown operator in pre-order, when the table lacks one.
    pub fn read_expr(&self, expr: &PExpr) -> (r: Result<Node, EngineError>)
        ensures
            r is Ok <==> first_unknown(*expr, self.symbols()) is None,
            r matches Ok(n) ==> node_tree(n) == ingest_tree(*expr, self.symbols()),
            r matches Err(EngineError::UnknownOperator(n)) ==> first_unknown(*expr, self.symbols())
                == Some(n@),
    {
        read_expr_visit(expr, &self.symbols)
    }

    /// The dump of a tree: one line per node, each literal or operator name
    /// indented by four spaces per level of depth.
    pub fn print_tree(node: &Node) -> (r: String)
        ensures
            r@ == dump(node_tree(*node), 0),
    {
        let mut out = String::new();
        let prefix = String::new();
        print_node(node, &prefix, Ghost(0), &mut out);
        proof {
            assert(out@ =~= dump(node_tree(*node), 0));
        }
        out
    }

    /// The canonical form of a tree.
    pub fn normalize(node: &Node) -> (r: Node)
        ensures
            node_tree(r) == normalize_tree(node_tree(*node)),
    {
        normalize_visit(node)
    }
}

} // verus!

use vstd::prelude::*;
use vstd::string::StringExecFns;
use std::cmp::Ordering;

use crate::pexpr::PExpr;
use crate::symbols::{FuncAttr, Symbols};
use crate::tree::{
    decimal,
    dump,
    dump_all,
    indentation,
    lemma_first_unknown_prefix,
    first_unknown,
    first_unknown_all,
    ingest_all,
    ingest_tree,
    InvRule,
    Tree,
    convert_all,
    convert_tree,
    lemma_convert_all,
    cmp_chars,
    cmp_int,
    cmp_tree,
    cmp_trees,
    flatten,
    insert_sorted,
    lemma_normalize_all,
    lemma_normalize_func_eq,
    normalize_all,
    normalize_tree,
    sort_trees,
    splice,
};

verus! {

/// Why an expression could not be built or rewritten.
#[derive(Debug, PartialEq)]
pub enum EngineError {
    /// An operator name that the symbol table does not hold.
    UnknownOperator(String),
}

pub(crate) enum Node {
    Num(i64),
    Func(String, FuncAttr, Vec<usize>),
}

pub(crate) open spec fn children_of(n: Node) -> Seq<usize> {
    match n {
        Node::Num(_) => Seq::empty(),
        Node::Func(_, _, cs) => cs@,
    }
}

/// Children are always created before their parent.
pub(crate) open spec fn wf_nodes(nodes: Seq<Node>) -> bool {
    forall|i: int, k: int|
        0 <= i < nodes.len() && 0 <= k < children_of(nodes[i]).len() ==> (#[trigger] children_of(
            nodes[i],
        )[k]) < i
}

/// The tree that index `i` of an arena stands for.
pub(crate) open spec fn tree_of(nodes: Seq<Node>, i: int) -> Tree
    decreases i,
{
    if 0 <= i < nodes.len() {
        match nodes[i] {
            Node::Num(n) => Tree::Num(n),
            Node::Func(name, attrs, cs) => Tree::Func(
                name@,
                attrs,
                Seq::new(
                    cs@.len(),
                    |k: int|
                        if 0 <= cs@[k] < i {
                            tree_of(nodes, cs@[k] as int)
                        } else {
                            Tree::Num(0)
                        },
                ),
            ),
        }
    } else {
        Tree::Num(0)
    }
}

/// The trees of a list of indices.
pub(crate) open spec fn trees_of(nodes: Seq<Node>, idx: Seq<usize>) -> Seq<Tree> {
    Seq::new(idx.len(), |k: int| tree_of(nodes, idx[k] as int))
}

/// `new` keeps every node of `old` at its index.
pub(crate) open spec fn extends(new: Seq<Node>, old: Seq<Node>) -> bool {
    &&& old.len() <= new.len()
    &&& forall|j: int| 0 <= j < old.len() ==> new[j] == old[j]
}

pub(crate) proof fn lemma_extends_trans(a: Seq<Node>, b: Seq<Node>, c: Seq<Node>)
    requires
        extends(a, b),
        extends(b, c),
    ensures
        extends(a, c),
{
    assert forall|j: int| 0 <= j < c.len() implies a[j] == c[j] by {
        assert(a[j] == b[j]);
    }
}

pub(crate) proof fn lemma_extends_tree(new: Seq<Node>, old: Seq<Node>, i: int)
    requires
        wf_nodes(old),
        extends(new, old),
        0 <= i < old.len(),
    ensures
        tree_of(new, i) == tree_of(old, i),
    decreases i,
{
    match old[i] {
        Node::Func(name, attrs, cs) => {
            assert forall|k: int| 0 <= k < cs@.len() implies tree_of(new, cs@[k] as int) == tree_of(
                old,
                cs@[k] as int,
            ) by {
                assert(children_of(old[i])[k] < i);
                lemma_extends_tree(new, old, cs@[k] as int);
            }
            match tree_of(new, i) {
                Tree::Func(_, _, c1) => match tree_of(old, i) {
                    Tree::Func(_, _, c2) => {
                        assert(c1 =~= c2);
                    },
                    Tree::Num(_) => {},
                },
                Tree::Num(_) => {},
            }
        },
        Node::Num(_) => {},
    }
}

pub(crate) proof fn lemma_extends_trees(new: Seq<Node>, old: Seq<Node>, idx: Seq<usize>)
    requires
        wf_nodes(old),
        extends(new, old),
        forall|k: int| 0 <= k < idx.len() ==> idx[k] < old.len(),
    ensures
        trees_of(new, idx) == trees_of(old, idx),
{
    assert forall|k: int| 0 <= k < idx.len() implies trees_of(new, idx)[k] == trees_of(old, idx)[k] by {
        lemma_extends_tree(new, old, idx[k] as int);
    }
    assert(trees_of(new, idx) =~= trees_of(old, idx));
}

pub(crate) open spec fn name_of(n: Node) -> Seq<char> {
    match n {
        Node::Num(_) => Seq::empty(),
        Node::Func(name, _, _) => name@,
    }
}

pub(crate) open spec fn attrs_of_node(n: Node) -> FuncAttr {
    match n {
        Node::Num(_) => FuncAttr { associative: false, commutative: false },
        Node::Func(_, attrs, _) => attrs,
    }
}

pub(crate) proof fn lemma_tree_of_func(nodes: Seq<Node>, i: int)
    requires
        wf_nodes(nodes),
        0 <= i < nodes.len(),
        nodes[i] is Func,
    ensures
        tree_of(nodes, i) == Tree::Func(
            name_of(nodes[i]),
            attrs_of_node(nodes[i]),
            trees_of(nodes, children_of(nodes[i])),
        ),
{
    let cs = children_of(nodes[i]);
    assert forall|k: int| 0 <= k < cs.len() implies cs[k] < i by {
        assert(children_of(nodes[i])[k] < i);
    }
    let s = Seq::new(
        cs.len(),
        |k: int|
            if 0 <= cs[k] < i {
                tree_of(nodes, cs[k] as int)
            } else {
                Tree::Num(0)
            },
    );
    assert(s =~= trees_of(nodes, cs));
    match tree_of(nodes, i) {
        Tree::Func(n, a, cc) => {
            assert(cc =~= s);
        },
        Tree::Num(_) => {},
    }
}

fn copy_indices(v: &Vec<usize>) -> (r: Vec<usize>)
    ensures
        r@ == v@,
{
    let mut r: Vec<usize> = Vec::new();
    let mut k: usize = 0;
    while k < v.len()
        invariant
            k <= v@.len(),
            r@ == v@.subrange(0, k as int),
        decreases v@.len() - k,
    {
        r.push(v[k]);
        proof {
            assert(v@.subrange(0, k + 1) =~= v@.subrange(0, k as int).push(v@[k as int]));
        }
        k = k + 1;
    }
    proof {
        assert(v@.subrange(0, k as int) =~= v@);
    }
    r
}

/// Relies on `Ord for String`: strings compare lexicographically by their UTF-8
/// bytes, which orders characters by code point, a proper prefix first.
#[verifier::external_body]
pub(crate) fn compare_names(a: &String, b: &String) -> (r: Ordering)
    ensures
        r == cmp_chars(a@, b@),
{
    a.cmp(b)
}

pub(crate) fn compare_i64(a: i64, b: i64) -> (r: Ordering)
    ensures
        r == cmp_int(a as int, b as int),
{
    if a < b {
        Ordering::Less
    } else if a == b {
        Ordering::Equal
    } else {
        Ordering::Greater
    }
}

pub(crate) fn compare_usize(a: usize, b: usize) -> (r: Ordering)
    ensures
        r == cmp_int(a as int, b as int),
{
    if a < b {
        Ordering::Less
    } else if a == b {
        Ordering::Equal
    } else {
        Ordering::Greater
    }
}

/// Relies on `ToString for i64`: the decimal text of the number.
#[verifier::external_body]
pub(crate) fn decimal_text(n: i64) -> (r: String)
    ensures
        r@ == decimal(n as int),
{
    n.to_string()
}

fn push_indentation(out: &mut String, depth: usize)
    ensures
        final(out)@ == old(out)@ + indentation(depth as nat),
{
    let mut k: usize = 0;
    proof {
        assert(old(out)@ + indentation(0) =~= old(out)@);
    }
    while k < depth
        invariant
            k <= depth,
            out@ == old(out)@ + indentation(k as nat),
        decreases depth - k,
    {
        proof {
            reveal_strlit("    ");
        }
        out.append("    ");
        proof {
            assert(indentation((k + 1) as nat) == indentation(k as nat) + seq![' ', ' ', ' ', ' ']);
            assert(old(out)@ + indentation((k + 1) as nat) =~= old(out)@ + indentation(k as nat) + seq![
                ' ',
                ' ',
                ' ',
                ' ',
            ]);
        }
        k = k + 1;
    }
}

/// An append-only store of nodes, addressed by index.
pub(crate) struct NodeContainer {
    pub(crate) nodes: Vec<Node>,
}

impl NodeContainer {
    pub(crate) open spec fn wf(&self) -> bool {
        wf_nodes(self.nodes@)
    }

    pub(crate) open spec fn tree(&self, i: int) -> Tree {
        tree_of(self.nodes@, i)
    }

    pub(crate) fn new() -> (r: Self)
        ensures
            r.wf(),
            r.nodes@.len() == 0,
    {
        Self { nodes: Vec::new() }
    }

    pub(crate) fn make_num(&mut self, n: i64) -> (r: usize)
        requires
            old(self).wf(),
        ensures
            final(self).wf(),
            final(self).nodes@ == old(self).nodes@.push(Node::Num(n)),
            r == old(self).nodes@.len(),
            final(self).tree(r as int) == Tree::Num(n),
    {
        let i = self.nodes.len();
        self.nodes.push(Node::Num(n));
        proof {
            assert forall|j: int, k: int|
                0 <= j < self.nodes@.len() && 0 <= k < children_of(self.nodes@[j]).len() implies (
            #[trigger] children_of(self.nodes@[j])[k]) < j by {
                if j < i {
                    assert(self.nodes@[j] == old(self).nodes@[j]);
                    assert(children_of(old(self).nodes@[j])[k] < j);
                }
            }
        }
        i
    }

    pub(crate) fn make_func(&mut self, name: String, attrs: FuncAttr, children: Vec<usize>) -> (r: usize)
        requires
            old(self).wf(),
            forall|k: int| 0 <= k < children@.len() ==> children@[k] < old(self).nodes@.len(),
        ensures
            final(self).wf(),
            final(self).nodes@ == old(self).nodes@.push(Node::Func(name, attrs, children)),
            r == old(self).nodes@.len(),
    {
        let i = self.nodes.len();
        self.nodes.push(Node::Func(name, attrs, children));
        proof {
            assert forall|j: int, k: int|
                0 <= j < self.nodes@.len() && 0 <= k < children_of(self.nodes@[j]).len() implies (
            #[trigger] children_of(self.nodes@[j])[k]) < j by {
                if j < i {
                    assert(self.nodes@[j] == old(self).nodes@[j]);
                    assert(children_of(old(self).nodes@[j])[k] < j);
                }
            }
        }
        i
    }

    /// Compares the trees at two indices.
    pub(crate) fn cmp(&self, i1: usize, i2: usize) -> (r: Ordering)
        requires
            self.wf(),
            i1 < self.nodes@.len(),
            i2 < self.nodes@.len(),
        ensures
            r == cmp_tree(self.tree(i1 as int), self.tree(i2 as int)),
        decreases i1,
    {
        match &self.nodes[i1] {
            Node::Num(x) => match &self.nodes[i2] {
                Node::Num(y) => compare_i64(*x, *y),
                Node::Func(..) => Ordering::Greater,
            },
            Node::Func(n1, a1, c1) => match &self.nodes[i2] {
                Node::Num(_) => Ordering::Less,
                Node::Func(n2, a2, c2) => {
                    proof {
                        lemma_tree_of_func(self.nodes@, i1 as int);
                        lemma_tree_of_func(self.nodes@, i2 as int);
                    }
                    let c = compare_names(n1, n2);
                    if !matches!(c, Ordering::Equal) {
                        return c;
                    }
                    let c = compare_i64(a1.rank() as i64, a2.rank() as i64);
                    if !matches!(c, Ordering::Equal) {
                        return c;
                    }
                    let c = compare_usize(c1.len(), c2.len());
                    if !matches!(c, Ordering::Equal) {
                        return c;
                    }
                    let ghost t1 = trees_of(self.nodes@, c1@);
                    let ghost t2 = trees_of(self.nodes@, c2@);
                    let n = c1.len();
                    let mut k: usize = 0;
                    proof {
                        assert(t1.subrange(0, n as int) =~= t1);
                        assert(t2.subrange(0, n as int) =~= t2);
                    }
                    while k < n
                        invariant
                            self.wf(),
                            n == c1@.len(),
                            n == c2@.len(),
                            k <= n,
                            i1 < self.nodes@.len(),
                            i2 < self.nodes@.len(),
                            self.nodes@[i1 as int] == Node::Func(*n1, *a1, *c1),
                            self.nodes@[i2 as int] == Node::Func(*n2, *a2, *c2),
                            t1 == trees_of(self.nodes@, c1@),
                            t2 == trees_of(self.nodes@, c2@),
                            cmp_tree(self.tree(i1 as int), self.tree(i2 as int)) == cmp_trees(t1, t2),
                            cmp_trees(t1, t2) == cmp_trees(
                                t1.subrange(k as int, n as int),
                                t2.subrange(k as int, n as int),
                            ),
                        decreases n - k,
                    {
                        assert(children_of(self.nodes@[i1 as int])[k as int] < i1);
                        assert(children_of(self.nodes@[i2 as int])[k as int] < i2);
                        let c = self.cmp(c1[k], c2[k]);
                        proof {
                            let s1 = t1.subrange(k as int, n as int);
                            let s2 = t2.subrange(k as int, n as int);
                            assert(s1[0] == t1[k as int]);
                            assert(s2[0] == t2[k as int]);
                            assert(s1.subrange(1, s1.len() as int) =~= t1.subrange(k + 1, n as int));
                            assert(s2.subrange(1, s2.len() as int) =~= t2.subrange(k + 1, n as int));
                        }
                        if !matches!(c, Ordering::Equal) {
                            return c;
                        }
                        k = k + 1;
                    }
                    Ordering::Equal
                },
            },
        }
    }

    /// Sorts a list of indices stably by the trees they stand for.
    pub(crate) fn sort_indices(&self, v: Vec<usize>) -> (r: Vec<usize>)
        requires
            self.wf(),
            forall|k: int| 0 <= k < v@.len() ==> v@[k] < self.nodes@.len(),
        ensures
            forall|k: int| 0 <= k < r@.len() ==> r@[k] < self.nodes@.len(),
            trees_of(self.nodes@, r@) == sort_trees(trees_of(self.nodes@, v@)),
    {
        let ghost tv = trees_of(self.nodes@, v@);
        let mut out: Vec<usize> = Vec::new();
        let mut k: usize = 0;
        proof {
            assert(tv.subrange(0, 0) =~= Seq::<Tree>::empty());
            assert(trees_of(self.nodes@, out@) =~= Seq::<Tree>::empty());
        }
        while k < v.len()
            invariant
                self.wf(),
                k <= v@.len(),
                tv == trees_of(self.nodes@, v@),
                forall|m: int| 0 <= m < v@.len() ==> v@[m] < self.nodes@.len(),
                forall|m: int| 0 <= m < out@.len() ==> out@[m] < self.nodes@.len(),
                trees_of(self.nodes@, out@) == sort_trees(tv.subrange(0, k as int)),
            decreases v@.len() - k,
        {
            let x = v[k];
            let ghost tx = tree_of(self.nodes@, x as int);
            let ghost to = trees_of(self.nodes@, out@);
            let mut j: usize = out.len();
            let mut done = false;
            proof {
                assert(to.subrange(0, j as int) =~= to);
                assert(to.subrange(j as int, to.len() as int) =~= Seq::<Tree>::empty());
            }
            while j > 0 && !done
                invariant
                    self.wf(),
                    j <= out@.len(),
                    to == trees_of(self.nodes@, out@),
                    tx == tree_of(self.nodes@, x as int),
                    x < self.nodes@.len(),
                    forall|m: int| 0 <= m < out@.len() ==> out@[m] < self.nodes@.len(),
                    insert_sorted(to, tx) == insert_sorted(to.subrange(0, j as int), tx) + to.subrange(
                        j as int,
                        to.len() as int,
                    ),
                    done ==> j > 0 && cmp_tree(to[j - 1], tx) != Ordering::Greater,
                decreases j + (if done {
                    0int
                } else {
                    1int
                }),
            {
                let c = self.cmp(out[j - 1], x);
                if matches!(c, Ordering::Greater) {
                    proof {
                        let p = to.subrange(0, j as int);
                        assert(p.drop_last() =~= to.subrange(0, j - 1));
                        assert(p.last() == to[j - 1]);
                        assert(insert_sorted(p, tx) == insert_sorted(to.subrange(0, j - 1), tx).push(to[j - 1]));
                        assert(insert_sorted(to.subrange(0, j - 1), tx).push(to[j - 1]) + to.subrange(
                            j as int,
                            to.len() as int,
                        ) =~= insert_sorted(to.subrange(0, j - 1), tx) + to.subrange(j - 1, to.len() as int));
                    }
                    j = j - 1;
                } else {
                    done = true;
                }
            }
            proof {
                let p = to.subrange(0, j as int);
                if j > 0 {
                    assert(p.last() == to[j - 1]);
                }
                assert(insert_sorted(p, tx) == p.push(tx));
            }
            out.insert(j, x);
            proof {
                assert(trees_of(self.nodes@, out@) =~= to.subrange(0, j as int).push(tx) + to.subrange(
                    j as int,
                    to.len() as int,
                ));
                let q = tv.subrange(0, k + 1);
                assert(q.drop_last() =~= tv.subrange(0, k as int));
                assert(q.last() == tx);
            }
            k = k + 1;
        }
        proof {
            assert(tv.subrange(0, k as int) =~= tv);
        }
        out
    }

    /// Normalizes the tree at index `i`, appending the new nodes it needs.
    pub(crate) fn normalize(&mut self, i: usize) -> (r: usize)
        requires
            old(self).wf(),
            i < old(self).nodes@.len(),
        ensures
            final(self).wf(),
            extends(final(self).nodes@, old(self).nodes@),
            r < final(self).nodes@.len(),
            final(self).tree(r as int) == normalize_tree(old(self).tree(i as int)),
        decreases i,
    {
        let ghost old_nodes = self.nodes@;
        let (name, attrs, children) = match &self.nodes[i] {
            Node::Num(_) => {
                return i;
            },
            Node::Func(n, a, c) => (n.clone(), *a, copy_indices(c)),
        };
        proof {
            lemma_tree_of_func(old_nodes, i as int);
            assert forall|m: int| 0 <= m < children@.len() implies children@[m] < i by {
                assert(children_of(old_nodes[i as int])[m] < i);
            }
        }
        let ghost kids = trees_of(old_nodes, children@);
        let ghost normed = normalize_all(kids);
        proof {
            lemma_normalize_all(kids);
            assert(flatten(name@, attrs.associative, normed.subrange(0, 0)) =~= Seq::<Tree>::empty());
        }
        let mut new_children: Vec<usize> = Vec::new();
        proof {
            assert(trees_of(self.nodes@, new_children@) =~= Seq::<Tree>::empty());
        }
        let mut k: usize = 0;
        while k < children.len()
            invariant
                self.wf(),
                extends(self.nodes@, old_nodes),
                wf_nodes(old_nodes),
                i < old_nodes.len(),
                k <= children@.len(),
                forall|m: int| 0 <= m < children@.len() ==> children@[m] < i,
                kids == trees_of(old_nodes, children@),
                normed == normalize_all(kids),
                normed.len() == kids.len(),
                forall|m: int| 0 <= m < kids.len() ==> #[trigger] normed[m] == normalize_tree(kids[m]),
                forall|m: int| 0 <= m < new_children@.len() ==> new_children@[m] < self.nodes@.len(),
                trees_of(self.nodes@, new_children@) == flatten(
                    name@,
                    attrs.associative,
                    normed.subrange(0, k as int),
                ),
            decreases children@.len() - k,
        {
            let c = children[k];
            let ghost before = self.nodes@;
            let ghost nc0 = new_children@;
            let r = self.normalize(c);
            proof {
                lemma_extends_tree(before, old_nodes, c as int);
                lemma_extends_trees(self.nodes@, before, nc0);
                assert(tree_of(self.nodes@, r as int) == normed[k as int]);
                let q = normed.subrange(0, k + 1);
                assert(q.drop_last() =~= normed.subrange(0, k as int));
                assert(q.last() == normed[k as int]);
            }
            let mut spliced = false;
            if attrs.associative {
                match &self.nodes[r] {
                    Node::Func(cn, ca, cc) => {
                        if *cn == name {
                            proof {
                                lemma_tree_of_func(self.nodes@, r as int);
                                assert forall|m: int| 0 <= m < cc@.len() implies cc@[m] < self.nodes@.len() by {
                                    assert(children_of(self.nodes@[r as int])[m] < r);
                                }
                            }
                            let mut m: usize = 0;
                            while m < cc.len()
                                invariant
                                    m <= cc@.len(),
                                    new_children@ == nc0 + cc@.subrange(0, m as int),
                                    forall|p: int| 0 <= p < cc@.len() ==> cc@[p] < self.nodes@.len(),
                                    forall|p: int| 0 <= p < nc0.len() ==> nc0[p] < self.nodes@.len(),
                                decreases cc@.len() - m,
                            {
                                new_children.push(cc[m]);
                                proof {
                                    assert(nc0 + cc@.subrange(0, m + 1) =~= (nc0 + cc@.subrange(
                                        0,
                                        m as int,
                                    )).push(cc@[m as int]));
                                }
                                m = m + 1;
                            }
                            proof {
                                assert(cc@.subrange(0, m as int) =~= cc@);
                                assert(trees_of(self.nodes@, new_children@) =~= trees_of(self.nodes@, nc0)
                                    + trees_of(self.nodes@, cc@));
                            }
                            spliced = true;
                        }
                    },
                    Node::Num(_) => {},
                }
            }
            if !spliced {
                new_children.push(r);
                proof {
                    assert(splice(name@, attrs.associative, normed[k as int]) == seq![normed[k as int]]);
                    assert(trees_of(self.nodes@, new_children@) =~= trees_of(self.nodes@, nc0).push(
                        tree_of(self.nodes@, r as int),
                    ));
                }
            }
            k = k + 1;
        }
        proof {
            assert(normed.subrange(0, k as int) =~= normed);
        }
        if attrs.commutative {
            new_children = self.sort_indices(new_children);
        }
        let ghost before = self.nodes@;
        let r = self.make_func(name, attrs, new_children);
        proof {
            lemma_extends_trees(self.nodes@, before, new_children@);
            lemma_tree_of_func(self.nodes@, r as int);
            lemma_normalize_func_eq(name@, attrs, kids);
        }
        r
    }

    /// Applies the rewrite throughout the tree at index `i`, appending the new
    /// nodes it needs. A node is rebuilt only when one of its children changed
    /// index.
    pub(crate) fn inv_conversion(
        &mut self,
        i: usize,
        from_op: &String,
        to_op: &String,
        to_attrs: FuncAttr,
        inv_op: &String,
        inv_attrs: FuncAttr,
    ) -> (r: usize)
        requires
            old(self).wf(),
            i < old(self).nodes@.len(),
        ensures
            final(self).wf(),
            extends(final(self).nodes@, old(self).nodes@),
            r < final(self).nodes@.len(),
            final(self).tree(r as int) == convert_tree(
                old(self).tree(i as int),
                InvRule { from: from_op@, to: to_op@, to_attrs, inv: inv_op@, inv_attrs },
            ),
        decreases i,
    {
        let ghost rule = InvRule { from: from_op@, to: to_op@, to_attrs, inv: inv_op@, inv_attrs };
        let ghost old_nodes = self.nodes@;
        let (name, attrs, children) = match &self.nodes[i] {
            Node::Num(_) => {
                return i;
            },
            Node::Func(n, a, c) => (n.clone(), *a, copy_indices(c)),
        };
        proof {
            lemma_tree_of_func(old_nodes, i as int);
            assert forall|m: int| 0 <= m < children@.len() implies children@[m] < i by {
                assert(children_of(old_nodes[i as int])[m] < i);
            }
        }
        let ghost kids = trees_of(old_nodes, children@);
        if name == *from_op && children.len() == 2 {
            let left = self.inv_conversion(children[0], from_op, to_op, to_attrs, inv_op, inv_attrs);
            let ghost mid = self.nodes@;
            let right = self.inv_conversion(children[1], from_op, to_op, to_attrs, inv_op, inv_attrs);
            proof {
                lemma_extends_tree(mid, old_nodes, children@[1] as int);
                lemma_extends_tree(self.nodes@, mid, left as int);
            }
            let mut wrapped_children: Vec<usize> = Vec::new();
            wrapped_children.push(right);
            let ghost before_w = self.nodes@;
            let w = self.make_func(inv_op.clone(), inv_attrs, wrapped_children);
            proof {
                lemma_extends_tree(self.nodes@, before_w, left as int);
                lemma_extends_tree(self.nodes@, before_w, right as int);
                lemma_tree_of_func(self.nodes@, w as int);
                assert(trees_of(self.nodes@, wrapped_children@) =~= seq![tree_of(self.nodes@, right as int)]);
            }
            let mut top_children: Vec<usize> = Vec::new();
            top_children.push(left);
            top_children.push(w);
            let ghost before_t = self.nodes@;
            let t = self.make_func(to_op.clone(), to_attrs, top_children);
            proof {
                lemma_extends_tree(self.nodes@, before_t, left as int);
                lemma_extends_tree(self.nodes@, before_t, w as int);
                lemma_tree_of_func(self.nodes@, t as int);
                assert(trees_of(self.nodes@, top_children@) =~= seq![
                    tree_of(self.nodes@, left as int),
                    tree_of(self.nodes@, w as int),
                ]);
            }
            return t;
        }
        let mut new_children: Vec<usize> = Vec::new();
        let mut changed = false;
        let mut k: usize = 0;
        proof {
            lemma_convert_all(kids, rule);
        }
        while k < children.len()
            invariant
                self.wf(),
                extends(self.nodes@, old_nodes),
                wf_nodes(old_nodes),
                i < old_nodes.len(),
                k <= children@.len(),
                forall|m: int| 0 <= m < children@.len() ==> children@[m] < i,
                kids == trees_of(old_nodes, children@),
                rule == (InvRule { from: from_op@, to: to_op@, to_attrs, inv: inv_op@, inv_attrs }),
                convert_all(kids, rule).len() == kids.len(),
                forall|m: int|
                    0 <= m < kids.len() ==> #[trigger] convert_all(kids, rule)[m] == convert_tree(
                        kids[m],
                        rule,
                    ),
                new_children@.len() == k,
                forall|m: int| 0 <= m < k ==> new_children@[m] < self.nodes@.len(),
                forall|m: int|
                    0 <= m < k ==> #[trigger] tree_of(self.nodes@, new_children@[m] as int)
                        == convert_tree(kids[m], rule),
                !changed ==> forall|m: int| 0 <= m < k ==> new_children@[m] == children@[m],
            decreases children@.len() - k,
        {
            let c = children[k];
            let ghost before = self.nodes@;
            let nc = self.inv_conversion(c, from_op, to_op, to_attrs, inv_op, inv_attrs);
            proof {
                lemma_extends_tree(before, old_nodes, c as int);
                assert forall|m: int| 0 <= m < k implies #[trigger] tree_of(
                    self.nodes@,
                    new_children@[m] as int,
                ) == convert_tree(kids[m], rule) by {
                    lemma_extends_tree(self.nodes@, before, new_children@[m] as int);
                }
            }
            if nc != c {
                changed = true;
            }
            new_children.push(nc);
            proof {
                assert(kids[k as int] == tree_of(old_nodes, c as int));
                assert(tree_of(self.nodes@, new_children@[k as int] as int) == convert_tree(
                    kids[k as int],
                    rule,
                ));
            }
            k = k + 1;
        }
        proof {
            assert(trees_of(self.nodes@, new_children@) =~= convert_all(kids, rule));
        }
        if !changed {
            proof {
                assert(new_children@ =~= children@);
                lemma_extends_tree(self.nodes@, old_nodes, i as int);
                lemma_extends_trees(self.nodes@, old_nodes, children@);
                assert(convert_all(kids, rule) =~= trees_of(self.nodes@, children@));
            }
            return i;
        }
        let ghost before = self.nodes@;
        let r = self.make_func(name, attrs, new_children);
        proof {
            lemma_extends_trees(self.nodes@, before, new_children@);
            lemma_tree_of_func(self.nodes@, r as int);
        }
        r
    }

    /// Builds the nodes of a raw tree bottom-up, attributing each operator
    /// from `symbols`.
    pub(crate) fn from_pexpr(&mut self, expr: &PExpr, symbols: &Symbols) -> (r: Result<
        usize,
        EngineError,
    >)
        requires
            old(self).wf(),
        ensures
            final(self).wf(),
            extends(final(self).nodes@, old(self).nodes@),
            r is Ok <==> first_unknown(*expr, *symbols) is None,
            r matches Ok(i) ==> i < final(self).nodes@.len() && final(self).tree(i as int)
                == ingest_tree(*expr, *symbols),
            r matches Err(EngineError::UnknownOperator(n)) ==> first_unknown(*expr, *symbols)
                == Some(n@),
        decreases expr,
    {
        match expr {
            PExpr::Num(n) => Ok(self.make_num(*n)),
            PExpr::Func(name, exprs) => {
                let attrs = match symbols.get_function(name) {
                    Some(a) => *a,
                    None => {
                        return Err(EngineError::UnknownOperator(name.clone()));
                    },
                };
                let ghost old_nodes = self.nodes@;
                let mut children: Vec<usize> = Vec::new();
                let mut k: usize = 0;
                proof {
                    assert(exprs@.subrange(0, 0) =~= Seq::<PExpr>::empty());
                    assert(trees_of(self.nodes@, children@) =~= Seq::<Tree>::empty());
                }
                while k < exprs.len()
                    invariant
                        self.wf(),
                        extends(self.nodes@, old_nodes),
                        old_nodes == old(self).nodes@,
                        *expr == PExpr::Func(*name, *exprs),
                        symbols.attrs_of(name@) == Some(attrs),
                        k <= exprs@.len(),
                        first_unknown_all(exprs@.subrange(0, k as int), *symbols) is None,
                        forall|m: int| 0 <= m < children@.len() ==> children@[m] < self.nodes@.len(),
                        trees_of(self.nodes@, children@) == ingest_all(
                            exprs@.subrange(0, k as int),
                            *symbols,
                        ),
                    decreases exprs@.len() - k,
                {
                    let ghost before = self.nodes@;
                    let ghost c0 = children@;
                    proof {
                        assert(decreases_to!(*expr => (*expr)->1));
                        assert((*expr)->1 == *exprs);
                        assert(decreases_to!(*exprs => exprs@));
                        assert(decreases_to!(exprs@ => exprs@[k as int]));
                    }
                    let res = self.from_pexpr(&exprs[k], symbols);
                    proof {
                        let q = exprs@.subrange(0, k + 1);
                        assert(q.subrange(0, q.len() - 1) =~= exprs@.subrange(0, k as int));
                        assert(q[q.len() - 1] == exprs@[k as int]);
                    }
                    match res {
                        Ok(c) => {
                            children.push(c);
                            proof {
                                lemma_extends_trees(self.nodes@, before, c0);
                                assert(trees_of(self.nodes@, children@) =~= trees_of(
                                    self.nodes@,
                                    c0,
                                ).push(tree_of(self.nodes@, c as int)));
                            }
                        },
                        Err(e) => {
                            proof {
                                lemma_extends_trans(self.nodes@, before, old_nodes);
                                lemma_first_unknown_prefix(exprs@, k + 1, *symbols);
                            }
                            return Err(e);
                        },
                    }
                    k = k + 1;
                }
                proof {
                    assert(exprs@.subrange(0, k as int) =~= exprs@);
                }
                let ghost before = self.nodes@;
                let r = self.make_func(name.clone(), attrs, children);
                proof {
                    lemma_extends_trees(self.nodes@, before, children@);
                    lemma_tree_of_func(self.nodes@, r as int);
                }
                Ok(r)
            },
        }
    }

    /// Appends the dump of the tree at index `i`, starting at `depth`.
    pub(crate) fn print_expr(&self, i: usize, depth: usize, out: &mut String)
        requires
            self.wf(),
            i < self.nodes@.len(),
            depth + i < usize::MAX,
        ensures
            final(out)@ == old(out)@ + dump(self.tree(i as int), depth as nat),
        decreases i,
    {
        push_indentation(out, depth);
        proof {
            reveal_strlit("\n");
        }
        match &self.nodes[i] {
            Node::Num(n) => {
                let text = decimal_text(*n);
                out.append(text.as_str());
                out.append("\n");
                proof {
                    assert(final(out)@ =~= old(out)@ + dump(self.tree(i as int), depth as nat));
                }
            },
            Node::Func(name, _, children) => {
                proof {
                    lemma_tree_of_func(self.nodes@, i as int);
                }
                out.append(name.as_str());
                out.append("\n");
                let ghost head = out@;
                let ghost kids = trees_of(self.nodes@, children@);
                let mut k: usize = 0;
                proof {
                    assert(kids.subrange(0, 0) =~= Seq::<Tree>::empty());
                    assert(head + dump_all(kids.subrange(0, 0), (depth + 1) as nat) =~= head);
                }
                while k < children.len()
                    invariant
                        self.wf(),
                        i < self.nodes@.len(),
                        depth + i < usize::MAX,
                        self.nodes@[i as int] == Node::Func(*name, attrs_of_node(self.nodes@[i as int]), *children),
                        kids == trees_of(self.nodes@, children@),
                        k <= children@.len(),
                        out@ == head + dump_all(kids.subrange(0, k as int), (depth + 1) as nat),
                    decreases children@.len() - k,
                {
                    assert(children_of(self.nodes@[i as int])[k as int] < i);
                    self.print_expr(children[k], depth + 1, out);
                    proof {
                        let q = kids.subrange(0, k + 1);
                        assert(q.subrange(0, q.len() - 1) =~= kids.subrange(0, k as int));
                        assert(out@ =~= head + dump_all(q, (depth + 1) as nat));
                    }
                    k = k + 1;
                }
                proof {
                    assert(kids.subrange(0, k as int) =~= kids);
                    assert(out@ =~= old(out)@ + dump(self.tree(i as int), depth as nat));
                }
            },
        }
    }
}

/// An expression held in an arena, with the index of its root.
pub struct MainExpr {
    nodes: NodeContainer,
    root: usize,
}

impl MainExpr {
    pub closed spec fn wf(&self) -> bool {
        self.nodes.wf() && self.root < self.nodes.nodes@.len()
    }

    /// The expression as a tree.
    pub closed spec fn tree(&self) -> Tree {
        self.nodes.tree(self.root as int)
    }

    /// Ingests a raw tree. Fails, naming the operator, when `symbols` lacks
    /// one of its operator names.
    pub fn from_pexpr(expr: &PExpr, symbols: &Symbols) -> (r: Result<Self, EngineError>)
        ensures
            r is Ok <==> first_unknown(*expr, *symbols) is None,
            r matches Ok(m) ==> m.wf() && m.tree() == ingest_tree(*expr, *symbols),
            r matches Err(EngineError::UnknownOperator(n)) ==> first_unknown(*expr, *symbols)
                == Some(n@),
    {
        let mut nodes = NodeContainer::new();
        let root = nodes.from_pexpr(expr, symbols)?;
        Ok(Self { nodes, root })
    }

    /// The dump of the expression: one line per node, each literal or operator
    /// name indented by four spaces per level of depth.
    pub fn print_expr(&self) -> (r: String)
        requires
            self.wf(),
        ensures
            r@ == dump(self.tree(), 0),
    {
        let mut out = String::new();
        let size = self.nodes.nodes.len();
        proof {
            assert(self.root < size);
        }
        self.nodes.print_expr(self.root, 0, &mut out);
        proof {
            assert(out@ =~= dump(self.tree(), 0));
        }
        out
    }

    /// Rewrites every binary `from_op` application into `to_op(left, inv_op(right))`.
    /// Fails, leaving the expression as it was, when `to_op` or `inv_op` is not
    /// in `symbols` (`to_op` is looked up first).
    pub fn inv_conversion(
        &mut self,
        from_op: &String,
        to_op: &String,
        inv_op: &String,
        symbols: &Symbols,
    ) -> (r: Result<(), EngineError>)
        requires
            old(self).wf(),
        ensures
            final(self).wf(),
            r is Ok <==> symbols.attrs_of(to_op@) is Some && symbols.attrs_of(inv_op@) is Some,
            r matches Err(EngineError::UnknownOperator(n)) ==> (if symbols.attrs_of(to_op@) is None {
                n@ == to_op@
            } else {
                n@ == inv_op@
            }) && final(self).tree() == old(self).tree(),
            r is Ok ==> final(self).tree() == convert_tree(
                old(self).tree(),
                InvRule {
                    from: from_op@,
                    to: to_op@,
                    to_attrs: symbols.attrs_of(to_op@)->0,
                    inv: inv_op@,
                    inv_attrs: symbols.attrs_of(inv_op@)->0,
                },
            ),
    {
        let to_attrs = match symbols.get_function(to_op) {
            Some(a) => *a,
            None => {
                return Err(EngineError::UnknownOperator(to_op.clone()));
            },
        };
        let inv_attrs = match symbols.get_function(inv_op) {
            Some(a) => *a,
            None => {
                return Err(EngineError::UnknownOperator(inv_op.clone()));
            },
        };
        self.root = self.nodes.inv_conversion(self.root, from_op, to_op, to_attrs, inv_op, inv_attrs);
        Ok(())
    }

    /// Replaces the expression by its canonical form.
    pub fn normalize(&mut self)
        requires
            old(self).wf(),
        ensures
            final(self).wf(),
            final(self).tree() == normalize_tree(old(self).tree()),
    {
        self.root = self.nodes.normalize(self.root);
    }
}

} // verus!

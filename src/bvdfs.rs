use vstd::prelude::*;

use crate::bits::{bits_of, Bits, MAX_BITS};
use crate::bottomup::{get_fields, query_fields};
use crate::enum_predicates::{
    atoms, class_view, classes_ok, classes_up_to, classes_view, group_predicates, Class,
    PredicateEnumerationError,
};
use crate::types::{count_holes, ASTNode, AstView, ConcTable, Field, PredNode};
use vstd::arithmetic::div_mod::{lemma_fundamental_div_mod, lemma_fundamental_div_mod_converse};

verus! {

/// A skeleton's relations, node by node: what each node evaluates to with
/// `True` in every hole, and for each node with a hole the classes of the
/// predicates over its relation.
pub enum Evaluated {
    Leaf { table: ConcTable },
    Unary { table: ConcTable, classes: Vec<(Bits, Vec<PredNode>)>, child: Box<Evaluated> },
    Binary {
        table: ConcTable,
        classes: Vec<(Bits, Vec<PredNode>)>,
        left: Box<Evaluated>,
        right: Box<Evaluated>,
    },
}

/// A row bit-vector with the predicate tuple that produced it.
pub type Pair = (Seq<bool>, Seq<PredNode>);

pub open spec fn pair_view(p: (Bits, Vec<PredNode>)) -> Pair {
    (bits_of(p.0), p.1@)
}

pub open spec fn pairs_view(ps: Seq<(Bits, Vec<PredNode>)>) -> Seq<Pair> {
    ps.map_values(|p: (Bits, Vec<PredNode>)| pair_view(p))
}

impl Evaluated {
    pub open spec fn relation(self) -> ConcTable {
        match self {
            Evaluated::Leaf { table } => table,
            Evaluated::Unary { table, .. } => table,
            Evaluated::Binary { table, .. } => table,
        }
    }

    pub open spec fn rows(self) -> nat {
        self.relation().values@.len()
    }

    pub open spec fn class_list(self) -> Seq<Class> {
        match self {
            Evaluated::Leaf { .. } => Seq::empty(),
            Evaluated::Unary { classes, .. } => classes_view(classes@),
            Evaluated::Binary { classes, .. } => classes_view(classes@),
        }
    }
}

/// Every class's bit-vector has one bit per row.
pub open spec fn keys_fit(cs: Seq<Class>, n: nat) -> bool {
    forall|i: int| 0 <= i < cs.len() ==> (#[trigger] cs[i]).0.len() == n
}

/// The relations of `e` fit the skeleton `q`: the trees have one shape, a
/// selection keeps its child's row count, a join and a concatenation have the
/// product of their children's, and every bit-vector stays within bounds.
pub open spec fn consistent(q: AstView<()>, e: Evaluated) -> bool
    decreases q,
{
    &&& e.rows() <= MAX_BITS
    &&& classes_ok(e.class_list())
    &&& keys_fit(e.class_list(), e.rows())
    &&& match (q, e) {
        (AstView::Table { .. }, Evaluated::Leaf { .. }) => true,
        (AstView::Select { table, .. }, Evaluated::Unary { child, .. }) => consistent(
            *table,
            *child,
        ) && e.rows() == child.rows(),
        (AstView::Join { table1, table2, .. }, Evaluated::Binary { left, right, .. }) => consistent(
            *table1,
            *left,
        ) && consistent(*table2, *right) && e.rows() == left.rows() * right.rows(),
        (AstView::Concat { table1, table2 }, Evaluated::Binary { left, right, .. }) => consistent(
            *table1,
            *left,
        ) && consistent(*table2, *right) && e.rows() == left.rows() * right.rows(),
        _ => false,
    }
}

/// The bit-vector of a Cartesian product in row-major order: bit `i·|v| + j`
/// is `u[i] && v[j]`.
pub open spec fn cross_bits(u: Seq<bool>, v: Seq<bool>) -> Seq<bool> {
    Seq::new(u.len() * v.len(), |k: int| u[k / v.len() as int] && v[k % v.len() as int])
}

/// Bitwise conjunction keeping the length of `a`.
pub open spec fn and_bits(a: Seq<bool>, b: Seq<bool>) -> Seq<bool> {
    Seq::new(a.len(), |i: int| a[i] && i < b.len() && b[i])
}

/// Every pair of `left` with every pair of `right`, row-major: the product of
/// the bit-vectors and the two tuples one after the other.
pub open spec fn product_pairs(left: Seq<Pair>, right: Seq<Pair>) -> Seq<Pair> {
    let m = right.len() as int;
    Seq::new(
        left.len() * right.len(),
        |k: int| (cross_bits(left[k / m].0, right[k % m].0), left[k / m].1 + right[k % m].1),
    )
}

/// For every class (outer) and every pair (inner): the pair's bit-vector
/// restricted to the class's, and the class's first predicate before the
/// pair's tuple.
pub open spec fn prefix_pairs(cs: Seq<Class>, ps: Seq<Pair>, class_first: bool) -> Seq<Pair> {
    let m = ps.len() as int;
    Seq::new(
        cs.len() * ps.len(),
        |k: int|
            (
                if class_first {
                    and_bits(cs[k / m].0, ps[k % m].0)
                } else {
                    and_bits(ps[k % m].0, cs[k / m].0)
                },
                seq![cs[k / m].1[0]] + ps[k % m].1,
            ),
    )
}

/// What the search yields for skeleton `q` over its relations `e`: a table
/// gives all its rows and no predicate; a selection, for each representative
/// and each outcome of its child, the representative's bit-vector AND the
/// child's; a join, for each representative and each pair of outcomes of its
/// children, their product AND the representative's bit-vector; a
/// concatenation, which the database evaluates as a Cartesian product, the
/// product of each pair of its children's outcomes.
pub open spec fn search(q: AstView<()>, e: Evaluated) -> Seq<Pair>
    decreases q,
{
    match (q, e) {
        (AstView::Table { .. }, Evaluated::Leaf { .. }) => seq![
            (Seq::new(e.rows(), |i: int| true), Seq::empty()),
        ],
        (AstView::Select { table, .. }, Evaluated::Unary { child, .. }) => prefix_pairs(
            e.class_list(),
            search(*table, *child),
            true,
        ),
        (AstView::Join { table1, table2, .. }, Evaluated::Binary { left, right, .. }) => prefix_pairs(
            e.class_list(),
            product_pairs(search(*table1, *left), search(*table2, *right)),
            false,
        ),
        (AstView::Concat { table1, table2 }, Evaluated::Binary { left, right, .. }) => product_pairs(
            search(*table1, *left),
            search(*table2, *right),
        ),
        _ => Seq::empty(),
    }
}

pub proof fn lemma_index(k: int, m: int, i: int, j: int)
    requires
        m > 0,
        0 <= j < m,
        k == i * m + j,
    ensures
        k / m == i,
        k % m == j,
{
    lemma_fundamental_div_mod_converse(k, m, i, j);
}

/// Every bit-vector the search yields has one bit per row of the skeleton's
/// relation, and every tuple one predicate per hole.
pub proof fn lemma_search_lengths(q: AstView<()>, e: Evaluated)
    requires
        consistent(q, e),
    ensures
        forall|k: int|
            0 <= k < search(q, e).len() ==> (#[trigger] search(q, e)[k]).0.len() == e.rows()
                && search(q, e)[k].1.len() == count_holes(q),
    decreases q,
{
    match (q, e) {
        (AstView::Table { .. }, Evaluated::Leaf { .. }) => {},
        (AstView::Select { table, .. }, Evaluated::Unary { child, .. }) => {
            lemma_search_lengths(*table, *child);
            let ps = search(*table, *child);
            let cs = e.class_list();
            let m = ps.len() as int;
            assert forall|k: int| 0 <= k < search(q, e).len() implies (#[trigger] search(
                q,
                e,
            )[k]).0.len() == e.rows() && search(q, e)[k].1.len() == count_holes(q) by {
                assert(m > 0) by (nonlinear_arith)
                    requires
                        0 <= k < cs.len() * m,
                ;
                assert(0 <= k / m < cs.len() && 0 <= k % m < m) by (nonlinear_arith)
                    requires
                        0 <= k < cs.len() * m,
                        m > 0,
                ;
                assert(cs[k / m].0.len() == e.rows());
            }
        },
        (AstView::Join { table1, table2, .. }, Evaluated::Binary { left, right, .. }) => {
            lemma_search_lengths(*table1, *left);
            lemma_search_lengths(*table2, *right);
            let l = search(*table1, *left);
            let r = search(*table2, *right);
            let lr = product_pairs(l, r);
            let cs = e.class_list();
            assert forall|k: int| 0 <= k < lr.len() implies (#[trigger] lr[k]).0.len() == e.rows()
                && lr[k].1.len() == count_holes(*table1) + count_holes(*table2) by {
                let m = r.len() as int;
                assert(m > 0) by (nonlinear_arith)
                    requires
                        0 <= k < l.len() * m,
                ;
                assert(0 <= k / m < l.len() && 0 <= k % m < m) by (nonlinear_arith)
                    requires
                        0 <= k < l.len() * m,
                        m > 0,
                ;
            }
            let m = lr.len() as int;
            assert forall|k: int| 0 <= k < search(q, e).len() implies (#[trigger] search(
                q,
                e,
            )[k]).0.len() == e.rows() && search(q, e)[k].1.len() == count_holes(q) by {
                assert(m > 0) by (nonlinear_arith)
                    requires
                        0 <= k < cs.len() * m,
                ;
                assert(0 <= k / m < cs.len() && 0 <= k % m < m) by (nonlinear_arith)
                    requires
                        0 <= k < cs.len() * m,
                        m > 0,
                ;
            }
        },
        (AstView::Concat { table1, table2 }, Evaluated::Binary { left, right, .. }) => {
            lemma_search_lengths(*table1, *left);
            lemma_search_lengths(*table2, *right);
            let l = search(*table1, *left);
            let r = search(*table2, *right);
            let m = r.len() as int;
            assert forall|k: int| 0 <= k < search(q, e).len() implies (#[trigger] search(
                q,
                e,
            )[k]).0.len() == e.rows() && search(q, e)[k].1.len() == count_holes(q) by {
                assert(m > 0) by (nonlinear_arith)
                    requires
                        0 <= k < l.len() * m,
                ;
                assert(0 <= k / m < l.len() && 0 <= k % m < m) by (nonlinear_arith)
                    requires
                        0 <= k < l.len() * m,
                        m > 0,
                ;
            }
        },
        _ => {},
    }
}

/// The bit-vector of the Cartesian product of the rows `v1` and `v2` select.
pub fn cross(v1: &Bits, v2: &Bits) -> (r: Bits)
    requires
        bits_of(*v1).len() * bits_of(*v2).len() <= MAX_BITS,
    ensures
        bits_of(r) == cross_bits(bits_of(*v1), bits_of(*v2)),
{
    let n1 = crate::bits::len(v1);
    let n2 = crate::bits::len(v2);
    let ghost u = bits_of(*v1);
    let ghost w = bits_of(*v2);
    let mut v = crate::bits::repeat(false, 0);
    let mut i: usize = 0;
    while i < n1
        invariant
            n1 == u.len(),
            n2 == w.len(),
            u == bits_of(*v1),
            w == bits_of(*v2),
            n1 * n2 <= MAX_BITS,
            i <= n1,
            bits_of(v).len() == i * n2,
            forall|k: int| 0 <= k < i * n2 ==> #[trigger] bits_of(v)[k] == cross_bits(u, w)[k],
        decreases n1 - i,
    {
        proof {
            assert(i * n2 + n2 <= n1 * n2) by (nonlinear_arith)
                requires
                    i < n1,
            ;
            assert((i + 1) * n2 == i * n2 + n2) by (nonlinear_arith);
        }
        let b = crate::bits::get(v1, i);
        let row = crate::bits::repeat(b, n2);
        let mut row = crate::bits::and(row, v2);
        let ghost before = bits_of(v);
        crate::bits::append(&mut v, &mut row);
        proof {
            assert forall|k: int| 0 <= k < (i + 1) * n2 implies #[trigger] bits_of(v)[k] == cross_bits(
                u,
                w,
            )[k] by {
                if k >= i * n2 {
                    let j = k - i * n2;
                    lemma_index(k, n2 as int, i as int, j);
                    assert(k < n1 * n2) by (nonlinear_arith)
                        requires
                            k < (i + 1) * n2,
                            i < n1,
                    ;
                } else {
                    assert(bits_of(v)[k] == before[k]);
                }
            }
        }
        i = i + 1;
    }
    assert(bits_of(v) =~= cross_bits(u, w));
    v
}

fn copy_preds(v: &Vec<PredNode>) -> (r: Vec<PredNode>)
    ensures
        r@ == v@,
{
    let mut r: Vec<PredNode> = Vec::new();
    let mut i: usize = 0;
    while i < v.len()
        invariant
            i <= v.len(),
            r@ == v@.subrange(0, i as int),
        decreases v.len() - i,
    {
        r.push(v[i].duplicate());
        i = i + 1;
    }
    assert(r@ =~= v@);
    r
}

fn join_preds(a: &Vec<PredNode>, b: &Vec<PredNode>) -> (r: Vec<PredNode>)
    ensures
        r@ == a@ + b@,
{
    let mut r = copy_preds(a);
    let mut c = copy_preds(b);
    r.append(&mut c);
    r
}

/// Every pair of `left` with every pair of `right`, row-major.
fn product(left: &Vec<(Bits, Vec<PredNode>)>, right: &Vec<(Bits, Vec<PredNode>)>, n1: Ghost<nat>, n2: Ghost<nat>) -> (r: Vec<
    (Bits, Vec<PredNode>),
>)
    requires
        n1@ * n2@ <= MAX_BITS,
        forall|k: int| 0 <= k < left@.len() ==> bits_of(#[trigger] left@[k].0).len() == n1@,
        forall|k: int| 0 <= k < right@.len() ==> bits_of(#[trigger] right@[k].0).len() == n2@,
    ensures
        pairs_view(r@) == product_pairs(pairs_view(left@), pairs_view(right@)),
{
    let ghost l = pairs_view(left@);
    let ghost rr = pairs_view(right@);
    let m = right.len();
    let mut out: Vec<(Bits, Vec<PredNode>)> = Vec::new();
    let mut i: usize = 0;
    while i < left.len()
        invariant
            l == pairs_view(left@),
            rr == pairs_view(right@),
            m == right@.len(),
            n1@ * n2@ <= MAX_BITS,
            forall|k: int| 0 <= k < left@.len() ==> bits_of(#[trigger] left@[k].0).len() == n1@,
            forall|k: int| 0 <= k < right@.len() ==> bits_of(#[trigger] right@[k].0).len() == n2@,
            i <= left.len(),
            out@.len() == i * m,
            forall|k: int|
                0 <= k < i * m ==> #[trigger] pairs_view(out@)[k] == product_pairs(l, rr)[k],
        decreases left.len() - i,
    {
        let mut j: usize = 0;
        while j < m
            invariant
                l == pairs_view(left@),
                rr == pairs_view(right@),
                m == right@.len(),
                n1@ * n2@ <= MAX_BITS,
                forall|k: int| 0 <= k < left@.len() ==> bits_of(#[trigger] left@[k].0).len() == n1@,
                forall|k: int| 0 <= k < right@.len() ==> bits_of(#[trigger] right@[k].0).len() == n2@,
                i < left.len(),
                j <= m,
                out@.len() == i * m + j,
                forall|k: int|
                    0 <= k < i * m + j ==> #[trigger] pairs_view(out@)[k] == product_pairs(l, rr)[k],
            decreases m - j,
        {
            let bv = cross(&left[i].0, &right[j].0);
            let preds = join_preds(&left[i].1, &right[j].1);
            let ghost before = out@;
            assert(forall|k: int| 0 <= k < i * m + j ==> #[trigger] pairs_view(before)[k] == pairs_view(out@)[k]);
            out.push((bv, preds));
            proof {
                let k0 = i * m + j;
                lemma_index(k0 as int, m as int, i as int, j as int);
                assert(k0 < left.len() * m) by (nonlinear_arith)
                    requires
                        k0 == i * m + j,
                        j < m,
                        i < left.len(),
                ;
                assert(pairs_view(out@)[k0 as int] == pair_view(out@[k0 as int]));
                assert(product_pairs(l, rr)[k0 as int] == (
                    cross_bits(l[i as int].0, rr[j as int].0),
                    l[i as int].1 + rr[j as int].1,
                ));
                assert forall|k: int| 0 <= k < k0 + 1 implies #[trigger] pairs_view(out@)[k]
                    == product_pairs(l, rr)[k] by {
                    if k < k0 {
                        assert(out@[k] == before[k]);
                        assert(pairs_view(before)[k] == product_pairs(l, rr)[k]);
                        assert(pairs_view(out@)[k] == pair_view(out@[k]));
                    }
                }
            }
            j = j + 1;
        }
        proof {
            assert((i + 1) * m == i * m + m) by (nonlinear_arith);
        }
        i = i + 1;
    }
    assert(pairs_view(out@) =~= product_pairs(l, rr));
    out
}

/// For every class and every pair: the pair's bit-vector restricted to the
/// class's, and the class's first predicate before the pair's tuple.
fn prefix(classes: &Vec<(Bits, Vec<PredNode>)>, pairs: &Vec<(Bits, Vec<PredNode>)>, class_first: bool) -> (r: Vec<
    (Bits, Vec<PredNode>),
>)
    requires
        classes_ok(classes_view(classes@)),
    ensures
        pairs_view(r@) == prefix_pairs(classes_view(classes@), pairs_view(pairs@), class_first),
{
    let ghost cs = classes_view(classes@);
    let ghost ps = pairs_view(pairs@);
    let m = pairs.len();
    let mut out: Vec<(Bits, Vec<PredNode>)> = Vec::new();
    let mut i: usize = 0;
    while i < classes.len()
        invariant
            cs == classes_view(classes@),
            ps == pairs_view(pairs@),
            classes_ok(cs),
            m == pairs@.len(),
            i <= classes.len(),
            out@.len() == i * m,
            forall|k: int|
                0 <= k < i * m ==> #[trigger] pairs_view(out@)[k] == prefix_pairs(
                    cs,
                    ps,
                    class_first,
                )[k],
        decreases classes.len() - i,
    {
        assert(cs[i as int].1.len() > 0);
        let rep = &classes[i].1[0];
        let mut j: usize = 0;
        while j < m
            invariant
                cs == classes_view(classes@),
                ps == pairs_view(pairs@),
                classes_ok(cs),
                m == pairs@.len(),
                i < classes.len(),
                *rep == cs[i as int].1[0],
                j <= m,
                out@.len() == i * m + j,
                forall|k: int|
                    0 <= k < i * m + j ==> #[trigger] pairs_view(out@)[k] == prefix_pairs(
                        cs,
                        ps,
                        class_first,
                    )[k],
            decreases m - j,
        {
            let bv = if class_first {
                crate::bits::and(crate::bits::copy(&classes[i].0), &pairs[j].0)
            } else {
                crate::bits::and(crate::bits::copy(&pairs[j].0), &classes[i].0)
            };
            let mut preds: Vec<PredNode> = Vec::new();
            preds.push(rep.duplicate());
            let mut rest = copy_preds(&pairs[j].1);
            preds.append(&mut rest);
            let ghost before = out@;
            assert(forall|k: int| 0 <= k < i * m + j ==> #[trigger] pairs_view(before)[k] == pairs_view(out@)[k]);
            out.push((bv, preds));
            proof {
                let k0 = i * m + j;
                lemma_index(k0 as int, m as int, i as int, j as int);
                assert(k0 < classes.len() * m) by (nonlinear_arith)
                    requires
                        k0 == i * m + j,
                        j < m,
                        i < classes.len(),
                ;
                assert(pairs_view(out@)[k0 as int].1 =~= seq![cs[i as int].1[0]] + ps[j as int].1);
                assert(pairs_view(out@)[k0 as int] == pair_view(out@[k0 as int]));
                assert(prefix_pairs(cs, ps, class_first)[k0 as int] == (
                    if class_first {
                        and_bits(cs[i as int].0, ps[j as int].0)
                    } else {
                        and_bits(ps[j as int].0, cs[i as int].0)
                    },
                    seq![cs[i as int].1[0]] + ps[j as int].1,
                ));
                assert forall|k: int| 0 <= k < k0 + 1 implies #[trigger] pairs_view(out@)[k]
                    == prefix_pairs(cs, ps, class_first)[k] by {
                    if k < k0 {
                        assert(out@[k] == before[k]);
                        assert(pairs_view(before)[k] == prefix_pairs(cs, ps, class_first)[k]);
                        assert(pairs_view(out@)[k] == pair_view(out@[k]));
                    }
                }
            }
            j = j + 1;
        }
        proof {
            assert((i + 1) * m == i * m + m) by (nonlinear_arith);
        }
        i = i + 1;
    }
    assert(pairs_view(out@) =~= prefix_pairs(cs, ps, class_first));
    out
}

/// The outcomes of the search over skeleton `q`, whose relations are `e`.
pub fn bvdfs_over(q: &ASTNode<()>, e: &Evaluated) -> (r: Vec<(Bits, Vec<PredNode>)>)
    requires
        consistent(q@, *e),
    ensures
        pairs_view(r@) == search(q@, *e),
    decreases q,
{
    match (q, e) {
        (ASTNode::Table { .. }, Evaluated::Leaf { table }) => {
            let v = crate::bits::repeat(true, table.values.len());
            let mut out: Vec<(Bits, Vec<PredNode>)> = Vec::new();
            out.push((v, Vec::new()));
            proof {
                assert(pairs_view(out@)[0].1 =~= Seq::<PredNode>::empty());
                assert(pairs_view(out@) =~= search(q@, *e));
            }
            out
        },
        (ASTNode::Select { table, .. }, Evaluated::Unary { classes, child, .. }) => {
            let inner = bvdfs_over(table, child);
            prefix(classes, &inner, true)
        },
        (ASTNode::Join { table1, table2, .. }, Evaluated::Binary { classes, left, right, .. }) => {
            let l = bvdfs_over(table1, left);
            let r = bvdfs_over(table2, right);
            proof {
                lemma_search_lengths(table1@, **left);
                lemma_search_lengths(table2@, **right);
                assert forall|k: int| 0 <= k < l@.len() implies bits_of(#[trigger] l@[k].0).len()
                    == left.rows() by {
                    assert(pairs_view(l@)[k] == pair_view(l@[k]));
                }
                assert forall|k: int| 0 <= k < r@.len() implies bits_of(#[trigger] r@[k].0).len()
                    == right.rows() by {
                    assert(pairs_view(r@)[k] == pair_view(r@[k]));
                }
            }
            let lr = product(&l, &r, Ghost(left.rows()), Ghost(right.rows()));
            prefix(classes, &lr, false)
        },
        (ASTNode::Concat { table1, table2 }, Evaluated::Binary { left, right, .. }) => {
            let l = bvdfs_over(table1, left);
            let r = bvdfs_over(table2, right);
            proof {
                lemma_search_lengths(table1@, **left);
                lemma_search_lengths(table2@, **right);
                assert forall|k: int| 0 <= k < l@.len() implies bits_of(#[trigger] l@[k].0).len()
                    == left.rows() by {
                    assert(pairs_view(l@)[k] == pair_view(l@[k]));
                }
                assert forall|k: int| 0 <= k < r@.len() implies bits_of(#[trigger] r@[k].0).len()
                    == right.rows() by {
                    assert(pairs_view(r@)[k] == pair_view(r@[k]));
                }
            }
            product(&l, &r, Ghost(left.rows()), Ghost(right.rows()))
        },
        _ => {
            assert(!consistent(q@, *e));
            Vec::new()
        },
    }
}

fn classes_fit(classes: &Vec<(Bits, Vec<PredNode>)>, n: usize) -> (r: bool)
    ensures
        r == (classes_ok(classes_view(classes@)) && keys_fit(classes_view(classes@), n as nat)),
{
    let ghost cs = classes_view(classes@);
    let mut i: usize = 0;
    while i < classes.len()
        invariant
            cs == classes_view(classes@),
            i <= classes.len(),
            forall|a: int, b: int| 0 <= a < b < i ==> #[trigger] cs[a].0 != #[trigger] cs[b].0,
            forall|a: int| 0 <= a < i ==> (#[trigger] cs[a]).1.len() > 0 && cs[a].0.len() == n,
        decreases classes.len() - i,
    {
        assert(cs[i as int] == class_view(classes@[i as int]));
        if classes[i].1.len() == 0 || crate::bits::len(&classes[i].0) != n {
            assert(cs[i as int].1.len() == 0 || cs[i as int].0.len() != n);
            return false;
        }
        let mut j: usize = 0;
        while j < i
            invariant
                cs == classes_view(classes@),
                i < classes.len(),
                j <= i,
                forall|a: int| 0 <= a < j ==> #[trigger] cs[a].0 != cs[i as int].0,
            decreases i - j,
        {
            assert(cs[j as int] == class_view(classes@[j as int]));
            if crate::bits::equal(&classes[j].0, &classes[i].0) {
                assert(cs[j as int].0 == cs[i as int].0);
                assert(!classes_ok(cs));
                return false;
            }
            j = j + 1;
        }
        i = i + 1;
    }
    true
}

fn is_product(n: usize, a: usize, b: usize) -> (r: bool)
    ensures
        r == (n == a * b),
{
    if b == 0 {
        proof {
            assert(a * b == 0) by (nonlinear_arith)
                requires
                    b == 0,
            ;
        }
        n == 0
    } else {
        proof {
            lemma_fundamental_div_mod(n as int, b as int);
            if n == a * b {
                assert(n as int == (a as int) * (b as int) + 0) by (nonlinear_arith)
                    requires
                        n == a * b,
                ;
                lemma_fundamental_div_mod_converse(n as int, b as int, a as int, 0);
            }
            if n % b == 0 && n / b == a {
                assert(n == a * b) by (nonlinear_arith)
                    requires
                        n == b * (n / b) + n % b,
                        n % b == 0,
                        n / b == a,
                ;
            }
        }
        n % b == 0 && n / b == a
    }
}

fn rows_of(e: &Evaluated) -> (r: usize)
    ensures
        r == e.rows(),
{
    match e {
        Evaluated::Leaf { table } => table.values.len(),
        Evaluated::Unary { table, .. } => table.values.len(),
        Evaluated::Binary { table, .. } => table.values.len(),
    }
}

/// Whether the relations of `e` fit the skeleton `q`.
pub fn is_consistent(q: &ASTNode<()>, e: &Evaluated) -> (r: bool)
    ensures
        r == consistent(q@, *e),
    decreases q,
{
    let n = rows_of(e);
    if n > MAX_BITS {
        return false;
    }
    let fits = match e {
        Evaluated::Leaf { .. } => {
            assert(e.class_list() =~= Seq::<Class>::empty());
            true
        },
        Evaluated::Unary { classes, .. } => classes_fit(classes, n),
        Evaluated::Binary { classes, .. } => classes_fit(classes, n),
    };
    if !fits {
        return false;
    }
    match (q, e) {
        (ASTNode::Table { .. }, Evaluated::Leaf { .. }) => true,
        (ASTNode::Select { table, .. }, Evaluated::Unary { child, .. }) => is_consistent(table, child)
            && n == rows_of(child),
        (ASTNode::Join { table1, table2, .. }, Evaluated::Binary { left, right, .. }) => is_consistent(
            table1,
            left,
        ) && is_consistent(table2, right) && is_product(n, rows_of(left), rows_of(right)),
        (ASTNode::Concat { table1, table2 }, Evaluated::Binary { left, right, .. }) => is_consistent(
            table1,
            left,
        ) && is_consistent(table2, right) && is_product(n, rows_of(left), rows_of(right)),
        _ => false,
    }
}

/// Why the search could not run.
#[derive(Debug)]
pub enum BVDFSError {
    SQLiteError(rusqlite::Error),
    PredicateEnumeration(PredicateEnumerationError),
    RowCountMismatch,
}

/// The depth of predicates under a selection: one less, not below zero.
pub open spec fn child_depth(d: nat) -> nat {
    if d > 0 {
        (d - 1) as nat
    } else {
        0
    }
}

/// `e` holds, at each node of `q` with a hole whose relation a bit-vector can
/// index, the classes of the predicates over that node's relation, built from `constants` and the
/// node's fields, up to the depth reached there: `depth` at the root, one
/// less under each selection.
pub open spec fn built_from(q: AstView<()>, e: Evaluated, constants: Seq<isize>, depth: nat) -> bool
    decreases q,
{
    match (q, e) {
        (AstView::Table { .. }, Evaluated::Leaf { .. }) => true,
        (AstView::Select { table, .. }, Evaluated::Unary { child, .. }) => (e.rows() <= MAX_BITS
            ==> e.class_list() == classes_up_to(e.relation(), atoms(constants, query_fields(q)), depth))
            && built_from(
            *table,
            *child,
            constants,
            child_depth(depth),
        ),
        (AstView::Join { table1, table2, .. }, Evaluated::Binary { left, right, .. }) => (e.rows()
            <= MAX_BITS ==> e.class_list() == classes_up_to(
            e.relation(),
            atoms(constants, query_fields(q)),
            depth,
        )) && built_from(
            *table1,
            *left,
            constants,
            depth,
        ) && built_from(*table2, *right, constants, depth),
        (AstView::Concat { table1, table2 }, Evaluated::Binary { left, right, .. }) => e.class_list()
            == Seq::<Class>::empty() && built_from(*table1, *left, constants, depth) && built_from(
            *table2,
            *right,
            constants,
            depth,
        ),
        _ => false,
    }
}

/// The classes of the predicates over `t` for skeleton `q`; refused where the
/// relation or the atoms pass what a bit-vector can index.
pub fn classes_for(t: &ConcTable, q: &ASTNode<()>, constants: &Vec<isize>, max_depth: usize) -> (r:
    Result<Vec<(Bits, Vec<PredNode>)>, PredicateEnumerationError>)
    ensures
        r matches Ok(cs) ==> classes_view(cs@) == classes_up_to(
            *t,
            atoms(constants@, query_fields(q@)),
            max_depth as nat,
        ) && classes_ok(classes_view(cs@)),
        r is Err <==> (t.values.len() > MAX_BITS || constants.len() + query_fields(q@).len()
            > crate::enum_predicates::MAX_ATOMS),
        r is Err ==> r matches Err(PredicateEnumerationError::TooLarge),
{
    let fields = get_fields(q);
    if t.values.len() > MAX_BITS || constants.len() > crate::enum_predicates::MAX_ATOMS
        || fields.len() > crate::enum_predicates::MAX_ATOMS - constants.len() {
        return Err(PredicateEnumerationError::TooLarge);
    }
    proof {
        let k = constants.len() + fields.len();
        assert(k * k <= 0x0fff_ffff) by (nonlinear_arith)
            requires
                0 <= k <= 0x3fff,
        {
            assert(k * k <= 0x3fff * k);
            assert(0x3fff * k <= 0x3fff * 0x3fff);
        }
    }
    Ok(group_predicates(t, &fields, constants, max_depth))
}

/// Every node of `q` with a hole has at most `MAX_ATOMS` atoms: `n`
/// constants and the node's fields.
pub open spec fn atoms_fit(q: AstView<()>, n: nat) -> bool
    decreases q,
{
    match q {
        AstView::Select { table, .. } => n + query_fields(q).len()
            <= crate::enum_predicates::MAX_ATOMS && atoms_fit(*table, n),
        AstView::Join { table1, table2, .. } => n + query_fields(q).len()
            <= crate::enum_predicates::MAX_ATOMS && atoms_fit(*table1, n) && atoms_fit(*table2, n),
        AstView::Table { .. } => true,
        AstView::Concat { table1, table2 } => atoms_fit(*table1, n) && atoms_fit(*table2, n),
    }
}

/// The classes of the predicates over `t` built from `constants` and
/// `fields`; none where `t` has more rows than a bit-vector can index.
fn node_classes(t: &ConcTable, fields: &Vec<Field>, constants: &Vec<isize>, depth: usize) -> (r: Vec<
    (Bits, Vec<PredNode>),
>)
    requires
        constants.len() + fields.len() <= crate::enum_predicates::MAX_ATOMS,
    ensures
        t.values.len() <= MAX_BITS ==> classes_view(r@) == classes_up_to(
            *t,
            atoms(constants@, fields@),
            depth as nat,
        ),
{
    if t.values.len() > MAX_BITS {
        return Vec::new();
    }
    proof {
        let k = constants.len() + fields.len();
        assert(k * k <= 0x0fff_ffff) by (nonlinear_arith)
            requires
                0 <= k <= 0x3fff,
        {
            assert(k * k <= 0x3fff * k);
            assert(0x3fff * k <= 0x3fff * 0x3fff);
        }
    }
    group_predicates(t, fields, constants, depth)
}

/// The relation a skeleton evaluates to with `True` in every hole.
fn relation_of(q: &ASTNode<()>, conn: &rusqlite::Connection) -> (r: ConcTable) {
    match crate::sql::eval_abstract(q, conn) {
        Ok(t) => t,
        Err(_) => crate::sql::make_dummy_table(q),
    }
}

/// Whether skeleton `q` has few enough atoms at its own node.
fn node_fits(q: &ASTNode<()>, constants: &Vec<isize>) -> (r: (bool, Vec<Field>))
    ensures
        r.1@ == query_fields(q@),
        r.0 == (constants.len() + query_fields(q@).len() <= crate::enum_predicates::MAX_ATOMS),
{
    let fields = get_fields(q);
    let fits = constants.len() <= crate::enum_predicates::MAX_ATOMS && fields.len()
        <= crate::enum_predicates::MAX_ATOMS - constants.len();
    (fits, fields)
}

/// The relation cached under `name`: that of the first entry with that name.
pub open spec fn cached(c: Seq<(String, ConcTable)>, name: Seq<char>) -> Option<ConcTable>
    decreases c.len(),
{
    if c.len() == 0 {
        None
    } else if c[0].0@ == name {
        Some(c[0].1)
    } else {
        cached(c.drop_first(), name)
    }
}

/// Two relations hold the same name, columns and rows.
pub open spec fn same_relation(a: ConcTable, b: ConcTable) -> bool {
    &&& a.name == b.name
    &&& a.columns@ == b.columns@
    &&& a.values@.len() == b.values@.len()
    &&& forall|i: int| 0 <= i < a.values@.len() ==> (#[trigger] a.values@[i])@ == b.values@[i]@
}

/// Whether skeleton `q` reads the input relation `name`.
pub open spec fn reads_table(q: AstView<()>, name: Seq<char>) -> bool
    decreases q,
{
    match q {
        AstView::Table { name: n, .. } => n@ == name,
        AstView::Select { table, .. } => reads_table(*table, name),
        AstView::Join { table1, table2, .. } => reads_table(*table1, name) || reads_table(*table2, name),
        AstView::Concat { table1, table2 } => reads_table(*table1, name) || reads_table(
            *table2,
            name,
        ),
    }
}

/// Each leaf of `e` holds the relation cached in `c` under its table's name.
pub open spec fn leaves_cached(q: AstView<()>, e: Evaluated, c: Seq<(String, ConcTable)>) -> bool
    decreases q,
{
    match (q, e) {
        (AstView::Table { name, .. }, Evaluated::Leaf { table }) => cached(c, name@) matches Some(
            t,
        ) && same_relation(t, table),
        (AstView::Select { table, .. }, Evaluated::Unary { child, .. }) => leaves_cached(
            *table,
            *child,
            c,
        ),
        (AstView::Join { table1, table2, .. }, Evaluated::Binary { left, right, .. }) => leaves_cached(
            *table1,
            *left,
            c,
        ) && leaves_cached(*table2, *right, c),
        (AstView::Concat { table1, table2 }, Evaluated::Binary { left, right, .. }) => leaves_cached(
            *table1,
            *left,
            c,
        ) && leaves_cached(*table2, *right, c),
        _ => true,
    }
}

/// `new` is `old` followed by entries for relations `q` reads, each under a
/// name not cached before it.
pub open spec fn extends_with_leaves(
    old: Seq<(String, ConcTable)>,
    new: Seq<(String, ConcTable)>,
    q: AstView<()>,
) -> bool {
    &&& new.len() >= old.len()
    &&& new.subrange(0, old.len() as int) == old
    &&& forall|k: int|
        old.len() <= k < new.len() ==> reads_table(q, (#[trigger] new[k]).0@) && cached(
            new.subrange(0, k),
            new[k].0@,
        ) is None
}

proof fn lemma_cached_extend(c: Seq<(String, ConcTable)>, d: Seq<(String, ConcTable)>, n: Seq<char>)
    requires
        d.len() >= c.len(),
        d.subrange(0, c.len() as int) == c,
        cached(c, n) is Some,
    ensures
        cached(d, n) == cached(c, n),
    decreases c.len(),
{
    assert(d[0] == c[0]);
    if c[0].0@ != n {
        assert(d.drop_first().subrange(0, c.drop_first().len() as int) =~= c.drop_first());
        lemma_cached_extend(c.drop_first(), d.drop_first(), n);
    }
}

proof fn lemma_cached_first(c: Seq<(String, ConcTable)>, n: Seq<char>, k: int)
    requires
        0 <= k <= c.len(),
        forall|j: int| 0 <= j < k ==> (#[trigger] c[j]).0@ != n,
    ensures
        k < c.len() && c[k].0@ == n ==> cached(c, n) == Some(c[k].1),
        k == c.len() ==> cached(c, n) is None,
    decreases c.len(),
{
    if c.len() > 0 && k > 0 {
        assert forall|j: int| 0 <= j < k - 1 implies (#[trigger] c.drop_first()[j]).0@ != n by {
            assert(c.drop_first()[j] == c[j + 1]);
        }
        lemma_cached_first(c.drop_first(), n, k - 1);
    }
}

proof fn lemma_leaves_cached_extend(
    q: AstView<()>,
    e: Evaluated,
    c: Seq<(String, ConcTable)>,
    d: Seq<(String, ConcTable)>,
)
    requires
        leaves_cached(q, e, c),
        d.len() >= c.len(),
        d.subrange(0, c.len() as int) == c,
    ensures
        leaves_cached(q, e, d),
    decreases q,
{
    match (q, e) {
        (AstView::Table { name, .. }, Evaluated::Leaf { .. }) => {
            lemma_cached_extend(c, d, name@);
        },
        (AstView::Select { table, .. }, Evaluated::Unary { child, .. }) => {
            lemma_leaves_cached_extend(*table, *child, c, d);
        },
        (AstView::Join { table1, table2, .. }, Evaluated::Binary { left, right, .. }) => {
            lemma_leaves_cached_extend(*table1, *left, c, d);
            lemma_leaves_cached_extend(*table2, *right, c, d);
        },
        (AstView::Concat { table1, table2 }, Evaluated::Binary { left, right, .. }) => {
            lemma_leaves_cached_extend(*table1, *left, c, d);
            lemma_leaves_cached_extend(*table2, *right, c, d);
        },
        _ => {},
    }
}

proof fn lemma_extends_trans(
    a: Seq<(String, ConcTable)>,
    b: Seq<(String, ConcTable)>,
    c: Seq<(String, ConcTable)>,
    q: AstView<()>,
    q1: AstView<()>,
    q2: AstView<()>,
)
    requires
        extends_with_leaves(a, b, q1),
        extends_with_leaves(b, c, q2),
        forall|n: Seq<char>| reads_table(q1, n) ==> #[trigger] reads_table(q, n),
        forall|n: Seq<char>| reads_table(q2, n) ==> #[trigger] reads_table(q, n),
    ensures
        extends_with_leaves(a, c, q),
{
    assert(c.subrange(0, a.len() as int) =~= c.subrange(0, b.len() as int).subrange(0, a.len() as int));
    assert forall|k: int| a.len() <= k < c.len() implies reads_table(q, (#[trigger] c[k]).0@) && cached(
        c.subrange(0, k),
        c[k].0@,
    ) is None by {
        if k < b.len() {
            assert(c[k] == c.subrange(0, b.len() as int)[k]);
            assert(c.subrange(0, k) =~= c.subrange(0, b.len() as int).subrange(0, k));
            assert(b[k] == c[k]);
        }
    }
}

/// Evaluates every node of a skeleton and groups the predicates at each node
/// with a hole. A table's relation is taken from `leaves` where that table
/// was evaluated before, and is added to it under the table's name
/// otherwise. Fails exactly where some node has more atoms than `MAX_ATOMS`.
pub fn evaluate(
    q: &ASTNode<()>,
    constants: &Vec<isize>,
    max_predicate_depth: usize,
    leaves: &mut Vec<(String, ConcTable)>,
    conn: &rusqlite::Connection,
) -> (r: Result<Evaluated, BVDFSError>)
    ensures
        r is Ok <==> atoms_fit(q@, constants@.len()),
        r is Err ==> r matches Err(
            BVDFSError::PredicateEnumeration(PredicateEnumerationError::TooLarge),
        ),
        r matches Ok(e) ==> built_from(q@, e, constants@, max_predicate_depth as nat),
        r matches Ok(e) ==> leaves_cached(q@, e, final(leaves)@),
        extends_with_leaves(old(leaves)@, final(leaves)@, q@),
    decreases q,
{
    let ghost start = leaves@;
    match q {
        ASTNode::Table { name, .. } => {
            assert(atoms_fit(q@, constants@.len()));
            let mut k: usize = 0;
            while k < leaves.len()
                invariant
                    k <= leaves.len(),
                    leaves@ == start,
                    q@ is Table,
                    q@ matches AstView::Table { name: n, .. } && n@ == name@,
                    atoms_fit(q@, constants@.len()),
                    forall|j: int| 0 <= j < k ==> (#[trigger] leaves@[j]).0@ != name@,
                decreases leaves.len() - k,
            {
                if leaves[k].0 == *name {
                    let table = leaves[k].1.duplicate();
                    proof {
                        lemma_cached_first(leaves@, name@, k as int);
                    }
                    let leaf = Evaluated::Leaf { table };
                    assert(built_from(q@, leaf, constants@, max_predicate_depth as nat));
                    assert(leaves@.subrange(0, start.len() as int) =~= start);
                    return Ok(leaf);
                }
                k = k + 1;
            }
            proof {
                lemma_cached_first(leaves@, name@, k as int);
            }
            let wrapped = ASTNode::Select { fields: None, table: Box::new(q.duplicate()), pred: () };
            let table = relation_of(&wrapped, conn);
            leaves.push((name.clone(), table.duplicate()));
            proof {
                assert(leaves@.subrange(0, start.len() as int) =~= start);
                lemma_cached_first(leaves@, name@, start.len() as int);
            }
            Ok(Evaluated::Leaf { table })
        },
        ASTNode::Select { table: child_q, .. } => {
            let (fits, fields) = node_fits(q, constants);
            if !fits {
                assert(leaves@.subrange(0, start.len() as int) =~= start);
                return Err(BVDFSError::PredicateEnumeration(PredicateEnumerationError::TooLarge));
            }
            let table = relation_of(q, conn);
            let classes = node_classes(&table, &fields, constants, max_predicate_depth);
            let d = if max_predicate_depth > 0 {
                max_predicate_depth - 1
            } else {
                0
            };
            let res = evaluate(child_q, constants, d, leaves, conn);
            proof {
                assert(extends_with_leaves(leaves@, leaves@, q@)) by {
                    assert(leaves@.subrange(0, leaves@.len() as int) =~= leaves@);
                }
                lemma_extends_trans(start, leaves@, leaves@, q@, child_q@, q@);
            }
            let child = match res {
                Ok(c) => c,
                Err(e) => return Err(e),
            };
            Ok(Evaluated::Unary { table, classes, child: Box::new(child) })
        },
        ASTNode::Join { table1, table2, .. } => {
            let (fits, fields) = node_fits(q, constants);
            if !fits {
                assert(leaves@.subrange(0, start.len() as int) =~= start);
                return Err(BVDFSError::PredicateEnumeration(PredicateEnumerationError::TooLarge));
            }
            let table = relation_of(q, conn);
            let classes = node_classes(&table, &fields, constants, max_predicate_depth);
            let res1 = evaluate(table1, constants, max_predicate_depth, leaves, conn);
            let ghost mid = leaves@;
            proof {
                assert(extends_with_leaves(mid, mid, q@)) by {
                    assert(mid.subrange(0, mid.len() as int) =~= mid);
                }
                lemma_extends_trans(start, mid, mid, q@, table1@, q@);
            }
            let left = match res1 {
                Ok(c) => c,
                Err(e) => return Err(e),
            };
            let res2 = evaluate(table2, constants, max_predicate_depth, leaves, conn);
            proof {
                lemma_extends_trans(start, mid, leaves@, q@, q@, table2@);
                lemma_leaves_cached_extend(table1@, left, mid, leaves@);
            }
            let right = match res2 {
                Ok(c) => c,
                Err(e) => return Err(e),
            };
            Ok(Evaluated::Binary { table, classes, left: Box::new(left), right: Box::new(right) })
        },
        ASTNode::Concat { table1, table2 } => {
            let table = relation_of(q, conn);
            let res1 = evaluate(table1, constants, max_predicate_depth, leaves, conn);
            let ghost mid = leaves@;
            proof {
                assert(extends_with_leaves(mid, mid, q@)) by {
                    assert(mid.subrange(0, mid.len() as int) =~= mid);
                }
                lemma_extends_trans(start, mid, mid, q@, table1@, q@);
            }
            let left = match res1 {
                Ok(c) => c,
                Err(e) => return Err(e),
            };
            let res2 = evaluate(table2, constants, max_predicate_depth, leaves, conn);
            proof {
                lemma_extends_trans(start, mid, leaves@, q@, q@, table2@);
                lemma_leaves_cached_extend(table1@, left, mid, leaves@);
            }
            let right = match res2 {
                Ok(c) => c,
                Err(e) => return Err(e),
            };
            let classes: Vec<(Bits, Vec<PredNode>)> = Vec::new();
            assert(classes_view(classes@) =~= Seq::<Class>::empty());
            Ok(Evaluated::Binary { table, classes, left: Box::new(left), right: Box::new(right) })
        },
    }
}

/// Every (row bit-vector, predicate tuple) pair reachable by choosing one
/// representative predicate per hole of `q`, tuples in pre-order. Each
/// bit-vector has one bit per row of the skeleton's relation, each tuple one
/// predicate per hole. Leaf relations are shared through `row_counts` across
/// calls. Fails with `TooLarge` exactly where some node has more atoms than
/// `MAX_ATOMS`, and with `RowCountMismatch` where the database's relations do
/// not fit the skeleton's shape.
pub fn bvdfs(
    q: &ASTNode<()>,
    constants: &Vec<isize>,
    max_predicate_depth: usize,
    row_counts: &mut Vec<(String, ConcTable)>,
    conn: &rusqlite::Connection,
) -> (r: Result<Vec<(Bits, Vec<PredNode>)>, BVDFSError>)
    ensures
        !atoms_fit(q@, constants@.len()) <==> r matches Err(
            BVDFSError::PredicateEnumeration(PredicateEnumerationError::TooLarge),
        ),
        r is Err ==> r matches Err(
            BVDFSError::PredicateEnumeration(PredicateEnumerationError::TooLarge),
        ) || r matches Err(BVDFSError::RowCountMismatch),
        r matches Err(BVDFSError::RowCountMismatch) ==> exists|e: Evaluated|
            built_from(q@, e, constants@, max_predicate_depth as nat) && !consistent(q@, e),
        r matches Ok(ps) ==> exists|e: Evaluated|
            {
                &&& consistent(q@, e)
                &&& leaves_cached(q@, e, final(row_counts)@)
                &&& built_from(q@, e, constants@, max_predicate_depth as nat)
                &&& pairs_view(ps@) == search(q@, e)
                &&& forall|k: int|
                    0 <= k < ps@.len() ==> bits_of(#[trigger] ps@[k].0).len() == e.rows()
                        && ps@[k].1@.len() == count_holes(q@)
            },
        extends_with_leaves(old(row_counts)@, final(row_counts)@, q@),
{
    let e = match evaluate(q, constants, max_predicate_depth, row_counts, conn) {
        Ok(e) => e,
        Err(err) => return Err(err),
    };
    if !is_consistent(q, &e) {
        return Err(BVDFSError::RowCountMismatch);
    }
    let ps = bvdfs_over(q, &e);
    proof {
        lemma_search_lengths(q@, e);
        assert forall|k: int| 0 <= k < ps@.len() implies bits_of(#[trigger] ps@[k].0).len()
            == e.rows() && ps@[k].1@.len() == count_holes(q@) by {
            assert(pairs_view(ps@)[k] == pair_view(ps@[k]));
        }
    }
    Ok(ps)
}

} // verus!

use vstd::prelude::*;

use crate::bits::{bits_of, Bits, MAX_BITS};
use crate::enum_predicates::{
    add_predicates, classes_ok, classes_view, expr_value, first_of_each, group, key_index, lookup,
    pred_value, predicate_vector, pvec, representatives, Class,
};
use crate::types::{
    count_holes, erase, fill, holes, pred_height, query_height, saturate, ASTNode, AstView,
    ConcTable, ExprNode, Field, PredNode,
};
use std::sync::atomic::{AtomicBool, Ordering};

verus! {

/// Why predicates could not be bound to the holes of a skeleton.
#[derive(Debug, Clone, Copy, PartialEq, Eq)]
pub enum InvalidQueryError {
    TooFewPredicates,
    TooManyPredicates(usize),
}

impl ASTNode<()> {
    /// Binds `predicates[start..]`, in pre-order, to the holes of this skeleton;
    /// returns the query and the index of the first predicate left over.
    pub fn with_predicates_aux(&self, predicates: &Vec<PredNode>, start: usize) -> (r: Option<
        (ASTNode<PredNode>, usize),
    >)
        requires
            start <= predicates.len(),
        ensures
            r.is_some() <==> start + count_holes(self@) <= predicates.len(),
            r matches Some((q, next)) ==> next == start + count_holes(self@) && q@ == fill(
                self@,
                predicates@.subrange(start as int, next as int),
            ),
        decreases self,
    {
        match self {
            ASTNode::Select { fields, table, .. } => {
                if start >= predicates.len() {
                    return None;
                }
                let pred = predicates[start].duplicate();
                match table.with_predicates_aux(predicates, start + 1) {
                    None => None,
                    Some((t, next)) => {
                        let ghost s = predicates@.subrange(start as int, next as int);
                        assert(s.drop_first() =~= predicates@.subrange(
                            start + 1,
                            next as int,
                        ));
                        Some(
                            (
                                ASTNode::Select {
                                    fields: crate::types::copy_opt_fields(fields),
                                    table: Box::new(t),
                                    pred,
                                },
                                next,
                            ),
                        )
                    },
                }
            },
            ASTNode::Join { fields, table1, table2, .. } => {
                if start >= predicates.len() {
                    return None;
                }
                let pred = predicates[start].duplicate();
                match table1.with_predicates_aux(predicates, start + 1) {
                    None => None,
                    Some((t1, mid)) => match table2.with_predicates_aux(predicates, mid) {
                        None => None,
                        Some((t2, next)) => {
                            let ghost s = predicates@.subrange(start as int, next as int);
                            let ghost n1 = count_holes(table1@) as int;
                            assert(s.subrange(1, 1 + n1) =~= predicates@.subrange(
                                start + 1,
                                mid as int,
                            ));
                            assert(s.subrange(1 + n1, s.len() as int) =~= predicates@.subrange(
                                mid as int,
                                next as int,
                            ));
                            Some(
                                (
                                    ASTNode::Join {
                                        fields: crate::types::copy_opt_fields(fields),
                                        table1: Box::new(t1),
                                        table2: Box::new(t2),
                                        pred,
                                    },
                                    next,
                                ),
                            )
                        },
                    },
                }
            },
            ASTNode::Table { name, columns } => Some(
                (
                    ASTNode::Table {
                        name: name.clone(),
                        columns: crate::types::copy_strings(columns),
                    },
                    start,
                ),
            ),
            ASTNode::Concat { table1, table2 } => match table1.with_predicates_aux(
                predicates,
                start,
            ) {
                None => None,
                Some((t1, mid)) => match table2.with_predicates_aux(predicates, mid) {
                    None => None,
                    Some((t2, next)) => {
                        let ghost s = predicates@.subrange(start as int, next as int);
                        let ghost n1 = count_holes(table1@) as int;
                        assert(s.subrange(0, n1) =~= predicates@.subrange(
                            start as int,
                            mid as int,
                        ));
                        assert(s.subrange(n1, s.len() as int) =~= predicates@.subrange(
                            mid as int,
                            next as int,
                        ));
                        Some(
                            (
                                ASTNode::Concat { table1: Box::new(t1), table2: Box::new(t2) },
                                next,
                            ),
                        )
                    },
                },
            },
        }
    }

    /// Binds `predicates`, in pre-order, to the holes of this skeleton. Fails
    /// unless there is exactly one predicate per hole.
    pub fn with_predicates(&self, predicates: &Vec<PredNode>) -> (r: Result<
        ASTNode<PredNode>,
        InvalidQueryError,
    >)
        ensures
            predicates.len() == count_holes(self@) <==> r.is_ok(),
            predicates.len() < count_holes(self@) <==> r == Err::<ASTNode<PredNode>, _>(
                InvalidQueryError::TooFewPredicates,
            ),
            predicates.len() > count_holes(self@) <==> r == Err::<ASTNode<PredNode>, _>(
                InvalidQueryError::TooManyPredicates(predicates.len()),
            ),
            r matches Ok(q) ==> q@ == fill(self@, predicates@),
    {
        match self.with_predicates_aux(predicates, 0) {
            None => Err(InvalidQueryError::TooFewPredicates),
            Some((q, next)) => {
                if next == predicates.len() {
                    assert(predicates@.subrange(0, next as int) =~= predicates@);
                    Ok(q)
                } else {
                    Err(InvalidQueryError::TooManyPredicates(predicates.len()))
                }
            },
        }
    }
}

/// A skeleton has as many holes as it has `Select` and `Join` nodes.
pub proof fn lemma_holes_count<H>(q: AstView<H>)
    ensures
        holes(q).len() == count_holes(q),
    decreases q,
{
    match q {
        AstView::Select { table, .. } => lemma_holes_count(*table),
        AstView::Join { table1, table2, .. } => {
            lemma_holes_count(*table1);
            lemma_holes_count(*table2);
        },
        AstView::Table { .. } => {},
        AstView::Concat { table1, table2 } => {
            lemma_holes_count(*table1);
            lemma_holes_count(*table2);
        },
    }
}

/// Binding predicates to a skeleton keeps the skeleton.
pub proof fn lemma_fill_keeps_skeleton(s: AstView<()>, t: Seq<PredNode>)
    ensures
        erase(fill(s, t)) == erase(s),
    decreases s,
{
    match s {
        AstView::Select { table, .. } => {
            lemma_fill_keeps_skeleton(*table, t.drop_first());
        },
        AstView::Join { table1, table2, .. } => {
            let n1 = count_holes(*table1) as int;
            lemma_fill_keeps_skeleton(*table1, t.subrange(1, 1 + n1));
            lemma_fill_keeps_skeleton(*table2, t.subrange(1 + n1, t.len() as int));
        },
        AstView::Table { .. } => {},
        AstView::Concat { table1, table2 } => {
            let n1 = count_holes(*table1) as int;
            lemma_fill_keeps_skeleton(*table1, t.subrange(0, n1));
            lemma_fill_keeps_skeleton(*table2, t.subrange(n1, t.len() as int));
        },
    }
}

/// Binding a tuple with one predicate per hole of a skeleton gives a query
/// whose holes, read in pre-order, are that tuple, and whose skeleton is the
/// one the predicates were bound to.
pub proof fn lemma_fill_binds_in_order(s: AstView<()>, t: Seq<PredNode>)
    requires
        t.len() == count_holes(s),
    ensures
        holes(fill(s, t)) == t,
        erase(fill(s, t)) == erase(s),
        count_holes(fill(s, t)) == count_holes(s),
    decreases s,
{
    lemma_fill_keeps_skeleton(s, t);
    match s {
        AstView::Select { table, .. } => {
            lemma_fill_binds_in_order(*table, t.drop_first());
            assert(seq![t[0]] + t.drop_first() =~= t);
        },
        AstView::Join { table1, table2, .. } => {
            let n1 = count_holes(*table1) as int;
            lemma_fill_binds_in_order(*table1, t.subrange(1, 1 + n1));
            lemma_fill_binds_in_order(*table2, t.subrange(1 + n1, t.len() as int));
            assert(seq![t[0]] + t.subrange(1, 1 + n1) + t.subrange(1 + n1, t.len() as int)
                =~= t);
        },
        AstView::Table { .. } => {
            assert(t =~= Seq::<PredNode>::empty());
        },
        AstView::Concat { table1, table2 } => {
            let n1 = count_holes(*table1) as int;
            lemma_fill_binds_in_order(*table1, t.subrange(0, n1));
            lemma_fill_binds_in_order(*table2, t.subrange(n1, t.len() as int));
            assert(t.subrange(0, n1) + t.subrange(n1, t.len() as int) =~= t);
        },
    }
}

/// A query is at least as tall as each of its subtrees.
pub proof fn lemma_height_dominates_children(q: AstView<PredNode>)
    ensures
        q matches AstView::Select { table, .. } ==> query_height(q) >= query_height(*table),
        q matches AstView::Join { table1, table2, .. } ==> query_height(q) >= query_height(
            *table1,
        ) && query_height(q) >= query_height(*table2),
        q matches AstView::Concat { table1, table2 } ==> query_height(q) >= query_height(*table1)
            && query_height(q) >= query_height(*table2),
{
}

/// Why predicates could not be synthesized.
#[derive(Debug)]
pub enum PredicateSynthesisError {
    DbExecFailed(rusqlite::Error),
    InvalidQuery(InvalidQueryError),
}

/// Runs `f` unless `stopper` is set.
pub fn run_unless_stopped<T, F: FnOnce() -> T>(f: F, stopper: &AtomicBool) -> (r: Option<T>)
    requires
        f.requires(()),
    ensures
        r matches Some(v) ==> f.ensures((), v),
{
    if stopper.load(Ordering::SeqCst) {
        None
    } else {
        Some(f())
    }
}

/// A row seen as bindings from qualified names `table.column` to values;
/// where a name is bound twice, the later binding wins.
pub struct Environment {
    pub pairs: Vec<(String, isize)>,
}

/// The bindings of row `i` of `t`, each column under `t.name` + `.` + its name.
pub open spec fn qualified_env(t: ConcTable, i: int) -> Seq<(String, isize)> {
    let n = vstd::math::min(t.columns@.len() as int, t.values@[i]@.len() as int);
    Seq::new(n as nat, |k: int| (t.columns@[k], t.values@[i]@[k]))
}

/// Whether every column that `p` reads is bound in `env`.
pub open spec fn defined_in(p: PredNode, env: Seq<(String, isize)>) -> bool {
    pred_value(p, env).is_some()
}

impl Environment {
    pub fn from_pairs(pairs: Vec<(String, isize)>) -> (r: Environment)
        ensures
            r.pairs@ == pairs@,
    {
        Environment { pairs }
    }

    /// The bindings of row `i` of `table`, each under `table.column`.
    pub fn from_row(table: &ConcTable, i: usize) -> (r: Environment)
        requires
            i < table.values.len(),
        ensures
            r.pairs@.len() == qualified_env(*table, i as int).len(),
            forall|k: int|
                0 <= k < r.pairs@.len() ==> (#[trigger] r.pairs@[k]).0@ == table.name@ + "."@
                    + table.columns@[k]@ && r.pairs@[k].1 == table.values@[i as int]@[k],
    {
        let row = &table.values[i];
        let mut pairs: Vec<(String, isize)> = Vec::new();
        let mut k: usize = 0;
        while k < table.columns.len() && k < row.len()
            invariant
                k <= table.columns.len(),
                k <= row.len(),
                row == table.values@[i as int],
                pairs@.len() == k,
                forall|m: int|
                    0 <= m < k ==> (#[trigger] pairs@[m]).0@ == table.name@ + "."@
                        + table.columns@[m]@ && pairs@[m].1 == row@[m],
            decreases row.len() - k,
        {
            let mut key = table.name.clone();
            key.append(".");
            key.append(table.columns[k].as_str());
            pairs.push((key, row[k]));
            k = k + 1;
        }
        Environment { pairs }
    }

    fn value_of(&self, name: &String) -> (r: Option<isize>)
        ensures
            r == lookup(self.pairs@, name@),
    {
        let mut k: usize = self.pairs.len();
        assert(self.pairs@.subrange(0, k as int) =~= self.pairs@);
        while k > 0
            invariant
                k <= self.pairs.len(),
                lookup(self.pairs@, name@) == lookup(self.pairs@.subrange(0, k as int), name@),
            decreases k,
        {
            let ghost s = self.pairs@.subrange(0, k as int);
            assert(s.drop_last() =~= self.pairs@.subrange(0, k - 1));
            if self.pairs[k - 1].0 == *name {
                return Some(self.pairs[k - 1].1);
            }
            k = k - 1;
        }
        None
    }
}

impl ExprNode {
    /// The value of the expression; a column is looked up by its name.
    pub fn eval(&self, env: &Environment) -> (r: isize)
        requires
            expr_value(*self, env.pairs@).is_some(),
        ensures
            Some(r) == expr_value(*self, env.pairs@),
    {
        match self {
            ExprNode::Field(Field { name, .. }) => match env.value_of(name) {
                Some(v) => v,
                None => {
                    assert(false);
                    0
                },
            },
            ExprNode::Int { value } => *value,
        }
    }
}

impl PredNode {
    /// Whether the predicate holds; every column it reads must be bound.
    pub fn eval(&self, env: &Environment) -> (r: bool)
        requires
            defined_in(*self, env.pairs@),
        ensures
            Some(r) == pred_value(*self, env.pairs@),
        decreases self,
    {
        match self {
            PredNode::True => true,
            PredNode::Lt { left, right } => left.eval(env) < right.eval(env),
            PredNode::Eq { left, right } => left.eval(env) == right.eval(env),
            PredNode::And { left, right } => {
                let a = left.eval(env);
                let b = right.eval(env);
                a && b
            },
        }
    }
}

/// The base expressions: the fields, then the constants.
pub open spec fn base_atoms(fields: Seq<Field>, constants: Seq<isize>) -> Seq<ExprNode> {
    fields.map_values(|f: Field| ExprNode::Field(f)) + constants.map_values(
        |c: isize| ExprNode::Int { value: c },
    )
}

pub fn base_exprs(fields: &Vec<Field>, constants: &Vec<isize>) -> (r: Vec<ExprNode>)
    ensures
        r@ == base_atoms(fields@, constants@),
{
    let mut r: Vec<ExprNode> = Vec::new();
    let mut i: usize = 0;
    while i < fields.len()
        invariant
            i <= fields.len(),
            r@ == fields@.subrange(0, i as int).map_values(|f: Field| ExprNode::Field(f)),
        decreases fields.len() - i,
    {
        r.push(ExprNode::Field(fields[i].duplicate()));
        i = i + 1;
        assert(r@ =~= fields@.subrange(0, i as int).map_values(|f: Field| ExprNode::Field(f)));
    }
    assert(fields@.subrange(0, i as int) =~= fields@);
    let mut j: usize = 0;
    while j < constants.len()
        invariant
            j <= constants.len(),
            r@ == fields@.map_values(|f: Field| ExprNode::Field(f)) + constants@.subrange(
                0,
                j as int,
            ).map_values(|c: isize| ExprNode::Int { value: c }),
        decreases constants.len() - j,
    {
        r.push(ExprNode::Int { value: constants[j] });
        j = j + 1;
        assert(r@ =~= fields@.map_values(|f: Field| ExprNode::Field(f)) + constants@.subrange(
            0,
            j as int,
        ).map_values(|c: isize| ExprNode::Int { value: c }));
    }
    assert(constants@.subrange(0, j as int) =~= constants@);
    r
}

/// For expression `i` of `e`, its equality and its comparison with each
/// expression from `i` on.
pub open spec fn pairs_from(e: Seq<ExprNode>, i: int) -> Seq<PredNode> {
    Seq::new(
        (2 * (e.len() - i)) as nat,
        |k: int|
            if k % 2 == 0 {
                PredNode::Eq { left: e[i], right: e[i + k / 2] }
            } else {
                PredNode::Lt { left: e[i], right: e[i + k / 2] }
            },
    )
}

/// `True`, then the pairs from each of the first `n` expressions.
pub open spec fn base_upto(e: Seq<ExprNode>, n: nat) -> Seq<PredNode>
    decreases n,
{
    if n == 0 {
        seq![PredNode::True]
    } else {
        base_upto(e, (n - 1) as nat) + pairs_from(e, n - 1)
    }
}

/// The base predicates: `True`, then the equality and the comparison of each
/// expression with itself and each later one.
pub fn base_preds(fields: &Vec<Field>, constants: &Vec<isize>) -> (r: Vec<PredNode>)
    ensures
        r@ == base_upto(base_atoms(fields@, constants@), base_atoms(fields@, constants@).len()),
{
    let exprs = base_exprs(fields, constants);
    let ghost e = exprs@;
    let mut new: Vec<PredNode> = Vec::new();
    new.push(PredNode::True);
    assert(new@ =~= base_upto(e, 0));
    let mut i: usize = 0;
    while i < exprs.len()
        invariant
            e == exprs@,
            i <= exprs.len(),
            new@ == base_upto(e, i as nat),
        decreases exprs.len() - i,
    {
        let ghost before = new@;
        let mut j: usize = i;
        while j < exprs.len()
            invariant
                e == exprs@,
                i < exprs.len(),
                i <= j <= exprs.len(),
                new@ == before + pairs_from(e, i as int).subrange(0, 2 * (j - i)),
            decreases exprs.len() - j,
        {
            new.push(PredNode::Eq { left: exprs[i].duplicate(), right: exprs[j].duplicate() });
            new.push(PredNode::Lt { left: exprs[i].duplicate(), right: exprs[j].duplicate() });
            proof {
                let k0 = 2 * (j - i);
                assert(k0 / 2 == j - i && k0 % 2 == 0);
                assert((k0 + 1) / 2 == j - i && (k0 + 1) % 2 == 1);
                assert(new@ =~= before + pairs_from(e, i as int).subrange(0, 2 * (j + 1 - i)));
            }
            j = j + 1;
        }
        assert(pairs_from(e, i as int).subrange(0, 2 * (j - i)) =~= pairs_from(e, i as int));
        i = i + 1;
    }
    new
}

/// Every ordered pair of `all`, row-major, as a conjunction, each row ended by
/// the conjunction of its first predicate with `True`.
pub open spec fn grown_preds(all: Seq<PredNode>) -> Seq<PredNode> {
    let m = (all.len() + 1) as int;
    Seq::new(
        (all.len() * m) as nat,
        |k: int|
            if k % m < all.len() {
                PredNode::And { left: Box::new(all[k / m]), right: Box::new(all[k % m]) }
            } else {
                PredNode::And { left: Box::new(all[k / m]), right: Box::new(PredNode::True) }
            },
    )
}

/// The conjunctions of every ordered pair of `with` and `base_predicates`
/// together, and of each of them with `True`.
pub fn grow(with: &Vec<PredNode>, base_predicates: &Vec<PredNode>) -> (r: Vec<PredNode>)
    ensures
        r@ == grown_preds(with@ + base_predicates@),
{
    let mut all: Vec<PredNode> = Vec::new();
    let mut a: usize = 0;
    while a < with.len()
        invariant
            a <= with.len(),
            all@ == with@.subrange(0, a as int),
        decreases with.len() - a,
    {
        all.push(with[a].duplicate());
        a = a + 1;
    }
    let mut b: usize = 0;
    while b < base_predicates.len()
        invariant
            a == with.len(),
            b <= base_predicates.len(),
            all@ == with@ + base_predicates@.subrange(0, b as int),
        decreases base_predicates.len() - b,
    {
        assert(with@.subrange(0, a as int) =~= with@);
        all.push(base_predicates[b].duplicate());
        b = b + 1;
        assert(all@ =~= with@ + base_predicates@.subrange(0, b as int));
    }
    assert(with@.subrange(0, a as int) =~= with@);
    assert(base_predicates@.subrange(0, b as int) =~= base_predicates@);
    let ghost s = all@;
    let n = all.len();
    let mut new: Vec<PredNode> = Vec::new();
    let mut i: usize = 0;
    while i < n
        invariant
            s == all@,
            n == s.len(),
            i <= n,
            new@.len() == i * (n + 1),
            forall|k: int| 0 <= k < i * (n + 1) ==> #[trigger] new@[k] == grown_preds(s)[k],
        decreases n - i,
    {
        let mut j: usize = 0;
        while j < n
            invariant
                s == all@,
                n == s.len(),
                i < n,
                j <= n,
                new@.len() == i * (n + 1) + j,
                forall|k: int|
                    0 <= k < i * (n + 1) + j ==> #[trigger] new@[k] == grown_preds(s)[k],
            decreases n - j,
        {
            let p = PredNode::And {
                left: Box::new(all[i].duplicate()),
                right: Box::new(all[j].duplicate()),
            };
            proof {
                let k0 = i * (n + 1) + j;
                crate::bvdfs::lemma_index(k0 as int, (n + 1) as int, i as int, j as int);
                assert(k0 < n * (n + 1)) by (nonlinear_arith)
                    requires
                        k0 == i * (n + 1) + j,
                        j <= n,
                        i < n,
                ;
            }
            new.push(p);
            j = j + 1;
        }
        let p = PredNode::And { left: Box::new(all[i].duplicate()), right: Box::new(PredNode::True) };
        proof {
            let k0 = i * (n + 1) + n;
            crate::bvdfs::lemma_index(k0 as int, (n + 1) as int, i as int, n as int);
            assert(k0 < n * (n + 1)) by (nonlinear_arith)
                requires
                    k0 == i * (n + 1) + n,
                    i < n,
            ;
        }
        new.push(p);
        proof {
            assert((i + 1) * (n + 1) == i * (n + 1) + n + 1) by (nonlinear_arith);
        }
        i = i + 1;
    }
    assert(new@ =~= grown_preds(s));
    new
}

/// Every row the target holds is also set in `v`.
pub open spec fn covers(v: Seq<bool>, want: Seq<bool>) -> bool {
    v.len() == want.len() && forall|i: int| 0 <= i < want.len() ==> want[i] ==> #[trigger] v[i]
}

/// The predicates of `ps`, in order, whose bit-vector over `t` covers `want`.
pub open spec fn covering(ps: Seq<PredNode>, t: ConcTable, want: Seq<bool>) -> Seq<PredNode>
    decreases ps.len(),
{
    if ps.len() == 0 {
        Seq::empty()
    } else {
        let rest = covering(ps.drop_last(), t, want);
        if covers(pvec(ps.last(), t), want) {
            rest.push(ps.last())
        } else {
            rest
        }
    }
}

/// The classes of one level: the conjunctions grown from `prior` and `base`
/// that cover the target, grouped by bit-vector.
pub open spec fn level(prior: Seq<PredNode>, base: Seq<PredNode>, t: ConcTable, want: Seq<bool>) -> Seq<Class> {
    group(Seq::empty(), covering(grown_preds(prior + base), t, want), t)
}

/// The predicates found in at most `rounds` levels: the class of the first
/// level whose bit-vectors include `want`, or none; each next level grows from
/// the representatives of the one before.
pub open spec fn search_levels(
    prior: Seq<PredNode>,
    base: Seq<PredNode>,
    t: ConcTable,
    want: Seq<bool>,
    rounds: nat,
) -> Seq<PredNode>
    decreases rounds,
{
    if rounds == 0 {
        Seq::empty()
    } else {
        let cs = level(prior, base, t, want);
        if exists|c: int| 0 <= c < cs.len() && cs[c].0 == want {
            cs[key_index(cs, want)].1
        } else {
            search_levels(representatives(cs), base, t, want, (rounds - 1) as nat)
        }
    }
}

fn covers_exec(v: &Bits, want: &Bits) -> (r: bool)
    ensures
        r == covers(bits_of(*v), bits_of(*want)),
{
    let n = crate::bits::len(want);
    if crate::bits::len(v) != n {
        return false;
    }
    let mut i: usize = 0;
    while i < n
        invariant
            n == bits_of(*want).len(),
            bits_of(*v).len() == n,
            i <= n,
            forall|k: int| 0 <= k < i ==> bits_of(*want)[k] ==> #[trigger] bits_of(*v)[k],
        decreases n - i,
    {
        if crate::bits::get(want, i) && !crate::bits::get(v, i) {
            return false;
        }
        i = i + 1;
    }
    true
}

fn keep_covering(ps: &Vec<PredNode>, t: &ConcTable, want: &Bits) -> (r: Vec<PredNode>)
    requires
        t.values.len() <= MAX_BITS,
    ensures
        r@ == covering(ps@, *t, bits_of(*want)),
{
    let mut out: Vec<PredNode> = Vec::new();
    let mut i: usize = 0;
    assert(ps@.subrange(0, 0) =~= Seq::<PredNode>::empty());
    while i < ps.len()
        invariant
            i <= ps.len(),
            t.values.len() <= MAX_BITS,
            out@ == covering(ps@.subrange(0, i as int), *t, bits_of(*want)),
        decreases ps.len() - i,
    {
        proof {
            assert(ps@.subrange(0, i + 1).drop_last() =~= ps@.subrange(0, i as int));
        }
        let v = predicate_vector(t, &ps[i]);
        if covers_exec(&v, want) {
            out.push(ps[i].duplicate());
        }
        i = i + 1;
    }
    assert(ps@.subrange(0, i as int) =~= ps@);
    out
}

/// The predicates found over `t` in at most `rounds` levels from `True`.
pub fn search_predicates(t: &ConcTable, want: &Bits, base: &Vec<PredNode>, rounds: usize) -> (r: Vec<
    PredNode,
>)
    requires
        t.values.len() <= MAX_BITS,
    ensures
        r@ == search_levels(seq![PredNode::True], base@, *t, bits_of(*want), rounds as nat),
{
    let mut prior: Vec<PredNode> = Vec::new();
    prior.push(PredNode::True);
    assert(prior@ =~= seq![PredNode::True]);
    let mut left: usize = rounds;
    while left > 0
        invariant
            t.values.len() <= MAX_BITS,
            search_levels(seq![PredNode::True], base@, *t, bits_of(*want), rounds as nat)
                == search_levels(prior@, base@, *t, bits_of(*want), left as nat),
        decreases left,
    {
        let grown = grow(&prior, base);
        let candidates = keep_covering(&grown, t, want);
        let empty: Vec<(Bits, Vec<PredNode>)> = Vec::new();
        assert(classes_view(empty@) =~= Seq::<Class>::empty());
        let classes = add_predicates(empty, &candidates, t);
        let ghost cs = classes_view(classes@);
        assert(cs == level(prior@, base@, *t, bits_of(*want)));
        let mut c: usize = 0;
        while c < classes.len()
            invariant
                cs == classes_view(classes@),
                classes_ok(cs),
                cs == level(prior@, base@, *t, bits_of(*want)),
                left > 0,
                search_levels(seq![PredNode::True], base@, *t, bits_of(*want), rounds as nat)
                    == search_levels(prior@, base@, *t, bits_of(*want), left as nat),
                c <= classes.len(),
                forall|j: int| 0 <= j < c ==> cs[j].0 != bits_of(*want),
            decreases classes.len() - c,
        {
            assert(cs[c as int] == crate::enum_predicates::class_view(classes@[c as int]));
            if crate::bits::equal(&classes[c].0, want) {
                proof {
                    crate::enum_predicates::lemma_key_index_pub(cs, c as int);
                }
                let mut members: Vec<PredNode> = Vec::new();
                let mut k: usize = 0;
                while k < classes[c].1.len()
                    invariant
                        c < classes.len(),
                        k <= classes@[c as int].1@.len(),
                        members@ == classes@[c as int].1@.subrange(0, k as int),
                    decreases classes@[c as int].1@.len() - k,
                {
                    members.push(classes[c].1[k].duplicate());
                    k = k + 1;
                }
                assert(members@ =~= classes@[c as int].1@);
                assert(cs[c as int].1 == classes@[c as int].1@);
                return members;
            }
            c = c + 1;
        }
        assert(!exists|j: int| 0 <= j < cs.len() && cs[j].0 == bits_of(*want));
        prior = first_of_each(&classes);
        left = left - 1;
    }
    Vec::new()
}

/// `s` with `p` placed before the first predicate of greater height.
pub open spec fn insert_by_height(s: Seq<PredNode>, p: PredNode) -> Seq<PredNode>
    decreases s.len(),
{
    if s.len() == 0 {
        seq![p]
    } else if saturate(pred_height(p)) < saturate(pred_height(s[0])) {
        seq![p] + s
    } else {
        seq![s[0]] + insert_by_height(s.drop_first(), p)
    }
}

/// The predicates of `s` in a stable order by height.
pub open spec fn sort_by_height(s: Seq<PredNode>) -> Seq<PredNode>
    decreases s.len(),
{
    if s.len() == 0 {
        s
    } else {
        insert_by_height(sort_by_height(s.drop_last()), s.last())
    }
}

proof fn lemma_insert_height_at(s: Seq<PredNode>, p: PredNode, j: int)
    requires
        0 <= j <= s.len(),
        forall|k: int|
            0 <= k < j ==> !(saturate(pred_height(p)) < saturate(pred_height(#[trigger] s[k]))),
        j < s.len() ==> saturate(pred_height(p)) < saturate(pred_height(s[j])),
    ensures
        insert_by_height(s, p) == s.insert(j, p),
    decreases s.len(),
{
    if s.len() == 0 {
        assert(s.insert(j, p) =~= seq![p]);
    } else if j == 0 {
        assert(s.insert(j, p) =~= seq![p] + s);
    } else {
        let t = s.drop_first();
        assert forall|k: int| 0 <= k < j - 1 implies !(saturate(pred_height(p)) < saturate(
            pred_height(#[trigger] t[k]),
        )) by {
            assert(t[k] == s[k + 1]);
        }
        lemma_insert_height_at(t, p, j - 1);
        assert(s.insert(j, p) =~= seq![s[0]] + t.insert(j - 1, p));
    }
}

/// Orders predicates by height, ties in their given order.
pub fn sort_predicates(v: &Vec<PredNode>) -> (r: Vec<PredNode>)
    ensures
        r@ == sort_by_height(v@),
{
    let mut out: Vec<PredNode> = Vec::new();
    let mut i: usize = 0;
    assert(v@.subrange(0, 0) =~= Seq::<PredNode>::empty());
    while i < v.len()
        invariant
            i <= v.len(),
            out@ == sort_by_height(v@.subrange(0, i as int)),
        decreases v.len() - i,
    {
        let p = v[i].duplicate();
        let h = p.height();
        let mut j: usize = 0;
        while j < out.len() && !(h < out[j].height())
            invariant
                j <= out.len(),
                h == saturate(pred_height(p)),
                forall|k: int|
                    0 <= k < j ==> !(saturate(pred_height(p)) < saturate(
                        pred_height(#[trigger] out@[k]),
                    )),
            decreases out.len() - j,
        {
            j = j + 1;
        }
        proof {
            lemma_insert_height_at(out@, p, j as int);
            assert(v@.subrange(0, i + 1).drop_last() =~= v@.subrange(0, i as int));
        }
        out.insert(j, p);
        i = i + 1;
    }
    assert(v@.subrange(0, i as int) =~= v@);
    out
}

/// Synthesizes, for a skeleton with exactly one hole, the predicates that
/// carve the rows of `target` out of the skeleton's relation, shortest first:
/// a search over at most `max_depth - 1` levels of conjunctions of the base
/// predicates over `fields` and `constants`. An empty result means none was
/// found within that depth.
pub fn synthesize_pred(
    query: &ASTNode<()>,
    target: &ConcTable,
    conn: &rusqlite::Connection,
    fields: &Vec<Field>,
    constants: &Vec<isize>,
    max_depth: usize,
) -> (r: Result<Vec<PredNode>, PredicateSynthesisError>)
    ensures
        count_holes(query@) == 0 <==> r matches Err(
            PredicateSynthesisError::InvalidQuery(InvalidQueryError::TooFewPredicates),
        ),
        count_holes(query@) > 1 <==> r matches Err(
            PredicateSynthesisError::InvalidQuery(InvalidQueryError::TooManyPredicates(_)),
        ),
        r is Ok <==> count_holes(query@) == 1,
        r matches Ok(ps) ==> exists|t: ConcTable|
            {
                ps@ == if t.values@.len() <= MAX_BITS {
                    sort_by_height(
                        search_levels(
                            seq![PredNode::True],
                            base_upto(base_atoms(fields@, constants@), base_atoms(fields@, constants@).len()),
                            t,
                            crate::target_bits(t, *target),
                            if max_depth > 0 { (max_depth - 1) as nat } else { 0 },
                        ),
                    )
                } else {
                    Seq::empty()
                }
            },
{
    let n = query.num_holes();
    if n == 0 {
        return Err(PredicateSynthesisError::InvalidQuery(InvalidQueryError::TooFewPredicates));
    }
    if n > 1 {
        return Err(PredicateSynthesisError::InvalidQuery(InvalidQueryError::TooManyPredicates(n)));
    }
    let rows = match crate::sql::eval_abstract(query, conn) {
        Ok(t) => t,
        Err(e) => return Err(PredicateSynthesisError::DbExecFailed(e)),
    };
    if rows.values.len() > MAX_BITS {
        return Ok(Vec::new());
    }
    let want = rows.subset_bitvec(target);
    let base = base_preds(fields, constants);
    let rounds = if max_depth > 0 {
        max_depth - 1
    } else {
        0
    };
    let found = search_predicates(&rows, &want, &base, rounds);
    Ok(sort_predicates(&found))
}

} // verus!

use vstd::prelude::*;

use crate::bits::{bits_of, Bits, MAX_BITS};
use crate::types::{ASTNode, ConcTable, ExprNode, Field, PredNode};

verus! {

/// A row seen as bindings from column names to values; where a name is bound
/// twice, the later binding wins.
pub struct Environment {
    pub pairs: Vec<(String, isize)>,
}

/// The value bound to `name`: the last binding of it.
pub open spec fn lookup(env: Seq<(String, isize)>, name: Seq<char>) -> Option<isize>
    decreases env.len(),
{
    if env.len() == 0 {
        None
    } else if env.last().0@ == name {
        Some(env.last().1)
    } else {
        lookup(env.drop_last(), name)
    }
}

/// The bindings of row `i` of `t`: each column name with the row's value.
pub open spec fn row_env(t: ConcTable, i: int) -> Seq<(String, isize)> {
    let n = vstd::math::min(t.columns@.len() as int, t.values@[i]@.len() as int);
    Seq::new(n as nat, |k: int| (t.columns@[k], t.values@[i]@[k]))
}

/// The value of an expression; `None` for a column that is not bound.
pub open spec fn expr_value(e: ExprNode, env: Seq<(String, isize)>) -> Option<isize> {
    match e {
        ExprNode::Field(f) => lookup(env, f.name@),
        ExprNode::Int { value } => Some(value),
    }
}

/// The truth of a predicate; `None` where some column it reads is not bound.
pub open spec fn pred_value(p: PredNode, env: Seq<(String, isize)>) -> Option<bool>
    decreases p,
{
    match p {
        PredNode::True => Some(true),
        PredNode::Lt { left, right } => match (expr_value(left, env), expr_value(right, env)) {
            (Some(a), Some(b)) => Some(a < b),
            _ => None,
        },
        PredNode::Eq { left, right } => match (expr_value(left, env), expr_value(right, env)) {
            (Some(a), Some(b)) => Some(a == b),
            _ => None,
        },
        PredNode::And { left, right } => match (pred_value(*left, env), pred_value(*right, env)) {
            (Some(a), Some(b)) => Some(a && b),
            _ => None,
        },
    }
}

/// Whether `p` has a value on every row of `t`.
pub open spec fn defined_on(p: PredNode, t: ConcTable) -> bool {
    forall|i: int| 0 <= i < t.values@.len() ==> (#[trigger] pred_value(p, row_env(t, i))).is_some()
}

/// The row bit-vector of `p` over `t`: bit `i` is set when `p` holds on row
/// `i`; all bits are clear where `p` is undefined on some row.
pub open spec fn pvec(p: PredNode, t: ConcTable) -> Seq<bool> {
    if defined_on(p, t) {
        Seq::new(t.values@.len(), |i: int| pred_value(p, row_env(t, i)) == Some(true))
    } else {
        Seq::new(t.values@.len(), |i: int| false)
    }
}

impl Environment {
    pub fn from_row(table: &ConcTable, i: usize) -> (r: Environment)
        requires
            i < table.values.len(),
        ensures
            r.pairs@ == row_env(*table, i as int),
    {
        let row = &table.values[i];
        let mut pairs: Vec<(String, isize)> = Vec::new();
        let mut k: usize = 0;
        while k < table.columns.len() && k < row.len()
            invariant
                k <= table.columns.len(),
                k <= row.len(),
                row == table.values@[i as int],
                pairs@ == row_env(*table, i as int).subrange(0, k as int),
            decreases row.len() - k,
        {
            pairs.push((table.columns[k].clone(), row[k]));
            k = k + 1;
            assert(pairs@ =~= row_env(*table, i as int).subrange(0, k as int));
        }
        assert(pairs@ =~= row_env(*table, i as int));
        Environment { pairs }
    }

    pub fn lookup(&self, name: &String) -> (r: Option<isize>)
        ensures
            r == lookup(self.pairs@, name@),
    {
        let mut k: usize = self.pairs.len();
        assert(self.pairs@.subrange(0, k as int) =~= self.pairs@);
        while k > 0
            invariant
                k <= self.pairs.len(),
                lookup(self.pairs@, name@) == lookup(self.pairs@.subrange(0, k as int), name@),
            decreases k,
        {
            let ghost s = self.pairs@.subrange(0, k as int);
            assert(s.drop_last() =~= self.pairs@.subrange(0, k - 1));
            if self.pairs[k - 1].0 == *name {
                return Some(self.pairs[k - 1].1);
            }
            k = k - 1;
        }
        None
    }
}

impl ExprNode {
    pub fn eval2(&self, env: &Environment) -> (r: Option<isize>)
        ensures
            r == expr_value(*self, env.pairs@),
    {
        match self {
            ExprNode::Field(f) => env.lookup(&f.name),
            ExprNode::Int { value } => Some(*value),
        }
    }
}

impl PredNode {
    pub fn eval2(&self, env: &Environment) -> (r: Option<bool>)
        ensures
            r == pred_value(*self, env.pairs@),
        decreases self,
    {
        match self {
            PredNode::True => Some(true),
            PredNode::Lt { left, right } => match (left.eval2(env), right.eval2(env)) {
                (Some(a), Some(b)) => Some(a < b),
                _ => None,
            },
            PredNode::Eq { left, right } => match (left.eval2(env), right.eval2(env)) {
                (Some(a), Some(b)) => Some(a == b),
                _ => None,
            },
            PredNode::And { left, right } => match (left.eval2(env), right.eval2(env)) {
                (Some(a), Some(b)) => Some(a && b),
                _ => None,
            },
        }
    }
}

/// The row bit-vector of `p` over `rows`.
pub fn predicate_vector(rows: &ConcTable, p: &PredNode) -> (r: Bits)
    requires
        rows.values.len() <= MAX_BITS,
    ensures
        bits_of(r) == pvec(*p, *rows),
{
    let n = rows.values.len();
    let mut v = crate::bits::repeat(false, n);
    let mut i: usize = 0;
    while i < n
        invariant
            n == rows.values.len(),
            n <= MAX_BITS,
            i <= n,
            bits_of(v).len() == n,
            forall|k: int| 0 <= k < i ==> (#[trigger] pred_value(*p, row_env(*rows, k))).is_some(),
            forall|k: int|
                0 <= k < i ==> #[trigger] bits_of(v)[k] == (pred_value(*p, row_env(*rows, k))
                    == Some(true)),
            forall|k: int| i <= k < n ==> !#[trigger] bits_of(v)[k],
        decreases n - i,
    {
        let env = Environment::from_row(rows, i);
        match p.eval2(&env) {
            Some(b) => crate::bits::set(&mut v, i, b),
            None => {
                let z = crate::bits::repeat(false, n);
                assert(!defined_on(*p, *rows));
                assert(bits_of(z) =~= pvec(*p, *rows));
                return z;
            },
        }
        i = i + 1;
    }
    assert(defined_on(*p, *rows));
    assert(bits_of(v) =~= pvec(*p, *rows));
    v
}

/// The atoms predicates are built from: the constants, then the fields.
pub open spec fn atoms(constants: Seq<isize>, fields: Seq<Field>) -> Seq<ExprNode> {
    constants.map_values(|c: isize| ExprNode::Int { value: c }) + fields.map_values(
        |f: Field| ExprNode::Field(f),
    )
}

/// The primitive predicates over `a`: `True`, then for every ordered pair of
/// atoms (row-major) its equality and its comparison.
pub open spec fn primitive_preds(a: Seq<ExprNode>) -> Seq<PredNode> {
    let n = a.len() as int;
    Seq::new(
        (1 + 2 * n * n) as nat,
        |k: int|
            if k == 0 {
                PredNode::True
            } else if (k - 1) % 2 == 0 {
                PredNode::Eq { left: a[((k - 1) / 2) / n], right: a[((k - 1) / 2) % n] }
            } else {
                PredNode::Lt { left: a[((k - 1) / 2) / n], right: a[((k - 1) / 2) % n] }
            },
    )
}

/// The conjunctions of every ordered pair of `reps`, row-major.
pub open spec fn compound_preds(reps: Seq<PredNode>) -> Seq<PredNode> {
    let n = reps.len() as int;
    Seq::new(
        (n * n) as nat,
        |k: int| PredNode::And { left: Box::new(reps[k / n]), right: Box::new(reps[k % n]) },
    )
}

fn exprs(constants: &Vec<isize>, fields: &Vec<Field>) -> (r: Vec<ExprNode>)
    ensures
        r@ == atoms(constants@, fields@),
{
    let mut r: Vec<ExprNode> = Vec::new();
    let mut i: usize = 0;
    while i < constants.len()
        invariant
            i <= constants.len(),
            r@ == constants@.subrange(0, i as int).map_values(
                |c: isize| ExprNode::Int { value: c },
            ),
        decreases constants.len() - i,
    {
        r.push(ExprNode::Int { value: constants[i] });
        i = i + 1;
        assert(r@ =~= constants@.subrange(0, i as int).map_values(
            |c: isize| ExprNode::Int { value: c },
        ));
    }
    let mut j: usize = 0;
    while j < fields.len()
        invariant
            i == constants.len(),
            j <= fields.len(),
            r@ == constants@.map_values(|c: isize| ExprNode::Int { value: c }) + fields@.subrange(
                0,
                j as int,
            ).map_values(|f: Field| ExprNode::Field(f)),
        decreases fields.len() - j,
    {
        proof {
            assert(constants@.subrange(0, i as int) =~= constants@);
        }
        r.push(ExprNode::Field(fields[j].duplicate()));
        j = j + 1;
        assert(r@ =~= constants@.map_values(|c: isize| ExprNode::Int { value: c })
            + fields@.subrange(0, j as int).map_values(|f: Field| ExprNode::Field(f)));
    }
    assert(fields@.subrange(0, j as int) =~= fields@);
    assert(constants@.subrange(0, i as int) =~= constants@);
    r
}

/// The primitive predicates over the constants and the fields.
pub fn enum_primitive_pred(constants: &Vec<isize>, fields: &Vec<Field>) -> (r: Vec<PredNode>)
    requires
        (constants.len() + fields.len()) * (constants.len() + fields.len()) <= MAX_BITS,
    ensures
        r@ == primitive_preds(atoms(constants@, fields@)),
{
    let a = exprs(constants, fields);
    let n = a.len();
    proof {
        assert(n <= MAX_BITS) by (nonlinear_arith)
            requires
                n * n <= MAX_BITS,
        ;
    }
    let total = n * n;
    let mut r: Vec<PredNode> = Vec::new();
    r.push(PredNode::True);
    proof {
        assert(2 * n * n == 2 * total) by (nonlinear_arith)
            requires
                total == n * n,
        ;
    }
    let mut k: usize = 0;
    while k < total
        invariant
            a@ == atoms(constants@, fields@),
            n == a@.len(),
            total == n * n,
            total <= MAX_BITS,
            k <= total,
            r@.len() == 1 + 2 * k,
            primitive_preds(a@).len() == 1 + 2 * total,
            forall|m: int|
                0 <= m < 1 + 2 * k ==> #[trigger] r@[m] == primitive_preds(a@)[m],
        decreases total - k,
    {
        let i = k / n;
        let j = k % n;
        proof {
            assert(i < n && j < n) by (nonlinear_arith)
                requires
                    k < n * n,
                    i == k / n,
                    j == k % n,
                    n > 0,
            ;
            assert(n > 0) by (nonlinear_arith)
                requires
                    k < n * n,
            ;
        }
        r.push(PredNode::Eq { left: a[i].duplicate(), right: a[j].duplicate() });
        r.push(PredNode::Lt { left: a[i].duplicate(), right: a[j].duplicate() });
        proof {
            let m1 = 1 + 2 * k;
            assert(2 * n * n == 2 * total) by (nonlinear_arith)
                requires
                    total == n * n,
            ;
            assert((m1 - 1) / 2 == k && (m1 - 1) % 2 == 0);
            assert((m1 + 1 - 1) / 2 == k && (m1 + 1 - 1) % 2 == 1);
            assert(primitive_preds(a@)[m1] == PredNode::Eq { left: a@[i as int], right: a@[j as int] });
            assert(primitive_preds(a@)[m1 + 1] == PredNode::Lt { left: a@[i as int], right: a@[j as int] });
            assert(r@[m1] == primitive_preds(a@)[m1]);
            assert(r@[m1 + 1] == primitive_preds(a@)[m1 + 1]);
        }
        k = k + 1;
    }
    assert(primitive_preds(a@).len() == 1 + 2 * total);
    assert(r@ =~= primitive_preds(a@));
    r
}

/// The conjunctions of every ordered pair of representatives.
pub fn enum_compound_pred(predicates: &Vec<PredNode>) -> (r: Vec<PredNode>)
    ensures
        r@ == compound_preds(predicates@),
{
    let n = predicates.len();
    let ghost c = compound_preds(predicates@);
    let mut r: Vec<PredNode> = Vec::new();
    let mut i: usize = 0;
    while i < n
        invariant
            n == predicates@.len(),
            c == compound_preds(predicates@),
            i <= n,
            r@.len() == i * n,
            forall|m: int| 0 <= m < i * n ==> #[trigger] r@[m] == c[m],
        decreases n - i,
    {
        let mut j: usize = 0;
        while j < n
            invariant
                n == predicates@.len(),
                c == compound_preds(predicates@),
                i < n,
                j <= n,
                r@.len() == i * n + j,
                forall|m: int| 0 <= m < i * n + j ==> #[trigger] r@[m] == c[m],
            decreases n - j,
        {
            proof {
                let k0 = i * n + j;
                crate::bvdfs::lemma_index(k0 as int, n as int, i as int, j as int);
                assert(k0 < n * n) by (nonlinear_arith)
                    requires
                        k0 == i * n + j,
                        j < n,
                        i < n,
                ;
            }
            r.push(
                PredNode::And {
                    left: Box::new(predicates[i].duplicate()),
                    right: Box::new(predicates[j].duplicate()),
                },
            );
            j = j + 1;
        }
        proof {
            assert((i + 1) * n == i * n + n) by (nonlinear_arith);
        }
        i = i + 1;
    }
    assert(r@ =~= c);
    r
}

/// A class of predicates: their common row bit-vector and the predicates, in
/// the order they were met.
pub type Class = (Seq<bool>, Seq<PredNode>);

pub open spec fn class_view(c: (Bits, Vec<PredNode>)) -> Class {
    (bits_of(c.0), c.1@)
}

pub open spec fn classes_view(cs: Seq<(Bits, Vec<PredNode>)>) -> Seq<Class> {
    cs.map_values(|c: (Bits, Vec<PredNode>)| class_view(c))
}

/// No two classes share a bit-vector, and none is empty.
pub open spec fn classes_ok(cs: Seq<Class>) -> bool {
    &&& forall|i: int, j: int| 0 <= i < j < cs.len() ==> #[trigger] cs[i].0 != #[trigger] cs[j].0
    &&& forall|i: int| 0 <= i < cs.len() ==> (#[trigger] cs[i]).1.len() > 0
}

/// The classes after `p`, with bit-vector `key`, is met: it joins the class of
/// that bit-vector, or starts a new one at the end.
pub open spec fn add_to_class(cs: Seq<Class>, key: Seq<bool>, p: PredNode) -> Seq<Class> {
    if exists|i: int| 0 <= i < cs.len() && cs[i].0 == key {
        let i = choose|i: int| 0 <= i < cs.len() && cs[i].0 == key;
        cs.update(i, (key, cs[i].1.push(p)))
    } else {
        cs.push((key, seq![p]))
    }
}

/// The classes after the predicates of `ps` are met in order, grouped by
/// their row bit-vectors over `t`.
pub open spec fn group(cs: Seq<Class>, ps: Seq<PredNode>, t: ConcTable) -> Seq<Class>
    decreases ps.len(),
{
    if ps.len() == 0 {
        cs
    } else {
        add_to_class(group(cs, ps.drop_last(), t), pvec(ps.last(), t), ps.last())
    }
}

/// The first predicate of each class.
pub open spec fn representatives(cs: Seq<Class>) -> Seq<PredNode> {
    cs.map_values(|c: Class| c.1[0])
}

/// At most this many atoms: their ordered pairs must stay within what a
/// bit-vector can index.
pub const MAX_ATOMS: usize = 0x3fff;

/// Why the predicates could not be grouped.
#[derive(Debug)]
pub enum PredicateEnumerationError {
    DatabaseError(rusqlite::Error),
    TooLarge,
}

/// The classes of the predicates of depth up to `depth` over `t`: the
/// primitives first, then per further level the conjunctions of each ordered
/// pair of representatives.
pub open spec fn classes_up_to(t: ConcTable, a: Seq<ExprNode>, depth: nat) -> Seq<Class>
    decreases depth,
{
    if depth <= 1 {
        group(Seq::empty(), primitive_preds(a), t)
    } else {
        let prev = classes_up_to(t, a, (depth - 1) as nat);
        group(prev, compound_preds(representatives(prev)), t)
    }
}

proof fn lemma_add_keeps_ok(cs: Seq<Class>, key: Seq<bool>, p: PredNode)
    requires
        classes_ok(cs),
    ensures
        classes_ok(add_to_class(cs, key, p)),
        add_to_class(cs, key, p).len() >= cs.len(),
{
    let r = add_to_class(cs, key, p);
    if exists|i: int| 0 <= i < cs.len() && cs[i].0 == key {
        let i = choose|i: int| 0 <= i < cs.len() && cs[i].0 == key;
        assert forall|a: int, b: int| 0 <= a < b < r.len() implies #[trigger] r[a].0 != #[trigger] r[b].0 by {
            assert(r[a].0 == cs[a].0 && r[b].0 == cs[b].0);
        }
    } else {
        assert forall|a: int, b: int| 0 <= a < b < r.len() implies #[trigger] r[a].0 != #[trigger] r[b].0 by {
            if b == cs.len() {
                assert(r[b].0 == key);
                assert(r[a].0 == cs[a].0);
            } else {
                assert(r[a].0 == cs[a].0 && r[b].0 == cs[b].0);
            }
        }
    }
}

proof fn lemma_group_ok(cs: Seq<Class>, ps: Seq<PredNode>, t: ConcTable)
    requires
        classes_ok(cs),
    ensures
        classes_ok(group(cs, ps, t)),
        group(cs, ps, t).len() >= cs.len(),
    decreases ps.len(),
{
    if ps.len() > 0 {
        lemma_group_ok(cs, ps.drop_last(), t);
        lemma_add_keeps_ok(group(cs, ps.drop_last(), t), pvec(ps.last(), t), ps.last());
    }
}

/// The index of the class whose bit-vector is `key`.
pub open spec fn key_index(cs: Seq<Class>, key: Seq<bool>) -> int {
    choose|c: int| 0 <= c < cs.len() && cs[c].0 == key
}

/// The class whose bit-vector is `cs[c].0` is class `c`, where bit-vectors
/// are unique.
pub proof fn lemma_key_index_pub(cs: Seq<Class>, c: int)
    requires
        classes_ok(cs),
        0 <= c < cs.len(),
    ensures
        key_index(cs, cs[c].0) == c,
{
    lemma_key_index(cs, c);
}

/// Whether class `c` holds `p`.
pub open spec fn class_of(cs: Seq<Class>, c: int, p: PredNode) -> bool {
    0 <= c < cs.len() && cs[c].1.contains(p)
}

/// Every member of a class has the class's bit-vector.
pub open spec fn members_match(cs: Seq<Class>, t: ConcTable) -> bool {
    forall|c: int, k: int|
        0 <= c < cs.len() && 0 <= k < cs[c].1.len() ==> pvec(#[trigger] cs[c].1[k], t) == cs[c].0
}

/// `p` is in the class of its own bit-vector.
pub open spec fn placed(cs: Seq<Class>, p: PredNode, t: ConcTable) -> bool {
    let c = key_index(cs, pvec(p, t));
    0 <= c < cs.len() && cs[c].0 == pvec(p, t) && cs[c].1.contains(p)
}

proof fn lemma_key_index(cs: Seq<Class>, c: int)
    requires
        classes_ok(cs),
        0 <= c < cs.len(),
    ensures
        key_index(cs, cs[c].0) == c,
{
    let k = key_index(cs, cs[c].0);
    assert(0 <= k < cs.len() && cs[k].0 == cs[c].0);
    if k < c {
        assert(cs[k].0 != cs[c].0);
    } else if c < k {
        assert(cs[c].0 != cs[k].0);
    }
}

proof fn lemma_group_members(ps: Seq<PredNode>, t: ConcTable)
    ensures
        members_match(group(Seq::empty(), ps, t), t),
        classes_ok(group(Seq::empty(), ps, t)),
        forall|i: int| 0 <= i < ps.len() ==> placed(group(Seq::empty(), ps, t), #[trigger] ps[i], t),
    decreases ps.len(),
{
    lemma_group_ok(Seq::empty(), ps, t);
    if ps.len() > 0 {
        let prev_ps = ps.drop_last();
        lemma_group_members(prev_ps, t);
        let prev = group(Seq::empty(), prev_ps, t);
        let p = ps.last();
        let key = pvec(p, t);
        let r = group(Seq::empty(), ps, t);
        assert(r == add_to_class(prev, key, p));
        assert(r.len() >= prev.len());
        assert forall|c: int| 0 <= c < prev.len() implies r[c].0 == #[trigger] prev[c].0 && (
        forall|k: int| 0 <= k < prev[c].1.len() ==> r[c].1[k] == #[trigger] prev[c].1[k]) && r[c].1.len()
            >= prev[c].1.len() by {
            if exists|i: int| 0 <= i < prev.len() && prev[i].0 == key {
                let ci = choose|i: int| 0 <= i < prev.len() && prev[i].0 == key;
                assert(r == prev.update(ci, (key, prev[ci].1.push(p))));
            } else {
                assert(r == prev.push((key, seq![p])));
            }
        }
        let last: int;
        if exists|i: int| 0 <= i < prev.len() && prev[i].0 == key {
            let ci = choose|i: int| 0 <= i < prev.len() && prev[i].0 == key;
            assert(r == prev.update(ci, (key, prev[ci].1.push(p))));
            assert(r[ci].1[prev[ci].1.len() as int] == p);
            last = ci;
            assert forall|c: int, k: int|
                0 <= c < r.len() && 0 <= k < r[c].1.len() implies pvec(#[trigger] r[c].1[k], t)
                == r[c].0 by {
                if c == ci && k == prev[ci].1.len() {
                } else {
                    assert(r[c].1[k] == prev[c].1[k]);
                }
            }
        } else {
            assert(r == prev.push((key, seq![p])));
            last = prev.len() as int;
            assert(r[last].1[0] == p);
            assert forall|c: int, k: int|
                0 <= c < r.len() && 0 <= k < r[c].1.len() implies pvec(#[trigger] r[c].1[k], t)
                == r[c].0 by {
                if c < prev.len() {
                    assert(r[c] == prev[c]);
                }
            }
        }
        assert(r[last].0 == key && r[last].1.contains(p));
        lemma_key_index(r, last);
        assert forall|i: int| 0 <= i < ps.len() implies placed(r, #[trigger] ps[i], t) by {
            if i == ps.len() - 1 {
                assert(ps[i] == p);
            } else {
                assert(ps[i] == prev_ps[i]);
                assert(placed(prev, prev_ps[i], t));
                let c = key_index(prev, pvec(ps[i], t));
                let k = choose|k: int| 0 <= k < prev[c].1.len() && prev[c].1[k] == ps[i];
                assert(prev[c].0 == pvec(ps[i], t));
                assert(r[c].0 == prev[c].0);
                assert(r[c].1[k] == prev[c].1[k]);
                lemma_key_index(r, c);
            }
        }
    }
}

/// Grouping predicates by their row bit-vectors over a relation puts two of
/// them in one class exactly when their bit-vectors are equal.
pub proof fn lemma_same_class_iff_same_bitvector(ps: Seq<PredNode>, t: ConcTable, i: int, j: int)
    requires
        0 <= i < ps.len(),
        0 <= j < ps.len(),
    ensures
        (exists|c: int|
            class_of(group(Seq::empty(), ps, t), c, ps[i]) && #[trigger] class_of(
                group(Seq::empty(), ps, t),
                c,
                ps[j],
            )) <==> pvec(ps[i], t) == pvec(ps[j], t),
{
    lemma_group_members(ps, t);
    let cs = group(Seq::empty(), ps, t);
    assert(placed(cs, ps[i], t));
    assert(placed(cs, ps[j], t));
    if pvec(ps[i], t) == pvec(ps[j], t) {
        let c = key_index(cs, pvec(ps[i], t));
        assert(class_of(cs, c, ps[i]) && class_of(cs, c, ps[j]));
    }
    if exists|c: int| class_of(cs, c, ps[i]) && #[trigger] class_of(cs, c, ps[j]) {
        let c = choose|c: int| class_of(cs, c, ps[i]) && #[trigger] class_of(cs, c, ps[j]);
        let ki = choose|k: int| 0 <= k < cs[c].1.len() && cs[c].1[k] == ps[i];
        let kj = choose|k: int| 0 <= k < cs[c].1.len() && cs[c].1[k] == ps[j];
        assert(pvec(cs[c].1[ki], t) == cs[c].0);
        assert(pvec(cs[c].1[kj], t) == cs[c].0);
    }
}

/// Adds each predicate of `preds`, in order, to the class of its row
/// bit-vector over `t`.
pub fn add_predicates(classes: Vec<(Bits, Vec<PredNode>)>, preds: &Vec<PredNode>, t: &ConcTable) -> (r:
    Vec<(Bits, Vec<PredNode>)>)
    requires
        classes_ok(classes_view(classes@)),
        t.values.len() <= MAX_BITS,
    ensures
        classes_view(r@) == group(classes_view(classes@), preds@, *t),
        classes_ok(classes_view(r@)),
{
    let ghost start = classes_view(classes@);
    let mut classes = classes;
    let mut i: usize = 0;
    assert(preds@.subrange(0, 0) =~= Seq::<PredNode>::empty());
    while i < preds.len()
        invariant
            i <= preds.len(),
            t.values.len() <= MAX_BITS,
            classes_ok(start),
            classes_view(classes@) == group(start, preds@.subrange(0, i as int), *t),
        decreases preds.len() - i,
    {
        let p = &preds[i];
        let v = predicate_vector(t, p);
        let ghost before = classes_view(classes@);
        proof {
            lemma_group_ok(start, preds@.subrange(0, i as int), *t);
            assert(preds@.subrange(0, i + 1).drop_last() =~= preds@.subrange(0, i as int));
        }
        let mut j: usize = 0;
        while j < classes.len() && !crate::bits::equal(&classes[j].0, &v)
            invariant
                j <= classes.len(),
                classes_view(classes@) == before,
                forall|k: int| 0 <= k < j ==> before[k].0 != bits_of(v),
            decreases classes.len() - j,
        {
            j = j + 1;
        }
        if j < classes.len() {
            proof {
                assert(before[j as int].0 == bits_of(v));
                lemma_key_index(before, j as int);
            }
            let (key, mut members) = classes.remove(j);
            members.push(p.duplicate());
            classes.insert(j, (key, members));
            assert(classes_view(classes@) =~= before.update(
                j as int,
                (bits_of(v), before[j as int].1.push(*p)),
            ));
        } else {
            let mut members: Vec<PredNode> = Vec::new();
            members.push(p.duplicate());
            assert(members@ =~= seq![*p]);
            classes.push((v, members));
            assert(classes_view(classes@) =~= before.push((pvec(*p, *t), seq![*p])));
        }
        i = i + 1;
    }
    assert(preds@.subrange(0, i as int) =~= preds@);
    proof {
        lemma_group_ok(start, preds@, *t);
    }
    classes
}

/// The first predicate of each class.
pub fn first_of_each(classes: &Vec<(Bits, Vec<PredNode>)>) -> (r: Vec<PredNode>)
    requires
        classes_ok(classes_view(classes@)),
    ensures
        r@ == representatives(classes_view(classes@)),
{
    let mut r: Vec<PredNode> = Vec::new();
    let mut i: usize = 0;
    while i < classes.len()
        invariant
            i <= classes.len(),
            classes_ok(classes_view(classes@)),
            r@ == representatives(classes_view(classes@)).subrange(0, i as int),
        decreases classes.len() - i,
    {
        assert(classes_view(classes@)[i as int].1.len() > 0);
        r.push(classes[i].1[0].duplicate());
        i = i + 1;
        assert(r@ =~= representatives(classes_view(classes@)).subrange(0, i as int));
    }
    assert(r@ =~= representatives(classes_view(classes@)));
    r
}

/// The classes of the predicates up to depth `max_depth` over `t`, built from
/// the constants and the fields.
pub fn group_predicates(t: &ConcTable, fields: &Vec<Field>, constants: &Vec<isize>, max_depth: usize) -> (r: Vec<
    (Bits, Vec<PredNode>),
>)
    requires
        t.values.len() <= MAX_BITS,
        (constants.len() + fields.len()) * (constants.len() + fields.len()) <= MAX_BITS,
    ensures
        classes_view(r@) == classes_up_to(*t, atoms(constants@, fields@), max_depth as nat),
        classes_ok(classes_view(r@)),
{
    let ghost a = atoms(constants@, fields@);
    let primitives = enum_primitive_pred(constants, fields);
    let empty: Vec<(Bits, Vec<PredNode>)> = Vec::new();
    assert(classes_view(empty@) =~= Seq::<Class>::empty());
    let mut classes = add_predicates(empty, &primitives, t);
    let mut d: usize = 1;
    while d < max_depth
        invariant
            1 <= d,
            d <= max_depth || max_depth <= 1,
            max_depth <= 1 ==> d == 1,
            t.values.len() <= MAX_BITS,
            classes_ok(classes_view(classes@)),
            classes_view(classes@) == classes_up_to(*t, a, d as nat),
        decreases max_depth - d,
    {
        let reps = first_of_each(&classes);
        let compound = enum_compound_pred(&reps);
        classes = add_predicates(classes, &compound, t);
        d = d + 1;
    }
    if max_depth <= 1 {
        assert(classes_up_to(*t, a, d as nat) == classes_up_to(*t, a, max_depth as nat));
    }
    classes
}

/// The classes of the predicates over the relation skeleton `q` evaluates
/// to, built from the constants and the skeleton's fields.
pub fn enum_and_group_predicates(q: &ASTNode<()>, constants: &Vec<isize>, max_depth: usize, conn: &rusqlite::Connection) -> (r:
    Result<Vec<(Bits, Vec<PredNode>)>, PredicateEnumerationError>)
    ensures
        r matches Ok(cs) ==> exists|t: ConcTable|
            t.values@.len() <= MAX_BITS && classes_view(cs@) == classes_up_to(
                t,
                atoms(constants@, crate::bottomup::query_fields(q@)),
                max_depth as nat,
            ),
        r is Err ==> r matches Err(PredicateEnumerationError::TooLarge),
        constants@.len() + crate::bottomup::query_fields(q@).len() > MAX_ATOMS ==> r matches Err(
            PredicateEnumerationError::TooLarge,
        ),
{
    let t = match crate::sql::eval_abstract(q, conn) {
        Ok(t) => t,
        Err(_) => crate::sql::make_dummy_table(q),
    };
    crate::bvdfs::classes_for(&t, q, constants, max_depth)
}

proof fn lemma_add_keeps_members(cs: Seq<Class>, key: Seq<bool>, p: PredNode, t: ConcTable)
    requires
        members_match(cs, t),
        classes_ok(cs),
        key == pvec(p, t),
    ensures
        members_match(add_to_class(cs, key, p), t),
{
    let r = add_to_class(cs, key, p);
    if exists|i: int| 0 <= i < cs.len() && cs[i].0 == key {
        let ci = choose|i: int| 0 <= i < cs.len() && cs[i].0 == key;
        assert(r == cs.update(ci, (key, cs[ci].1.push(p))));
        assert forall|c: int, k: int| 0 <= c < r.len() && 0 <= k < r[c].1.len() implies pvec(
            #[trigger] r[c].1[k],
            t,
        ) == r[c].0 by {
            if c == ci && k == cs[ci].1.len() {
            } else {
                assert(r[c].1[k] == cs[c].1[k]);
            }
        }
    } else {
        assert(r == cs.push((key, seq![p])));
        assert forall|c: int, k: int| 0 <= c < r.len() && 0 <= k < r[c].1.len() implies pvec(
            #[trigger] r[c].1[k],
            t,
        ) == r[c].0 by {
            if c < cs.len() {
                assert(r[c] == cs[c]);
            }
        }
    }
}

proof fn lemma_group_keeps_members(cs: Seq<Class>, ps: Seq<PredNode>, t: ConcTable)
    requires
        members_match(cs, t),
        classes_ok(cs),
    ensures
        members_match(group(cs, ps, t), t),
    decreases ps.len(),
{
    if ps.len() > 0 {
        lemma_group_keeps_members(cs, ps.drop_last(), t);
        lemma_group_ok(cs, ps.drop_last(), t);
        lemma_add_keeps_members(group(cs, ps.drop_last(), t), pvec(ps.last(), t), ps.last(), t);
    }
}

proof fn lemma_classes_up_to_ok(t: ConcTable, a: Seq<ExprNode>, depth: nat)
    ensures
        classes_ok(classes_up_to(t, a, depth)),
        members_match(classes_up_to(t, a, depth), t),
    decreases depth,
{
    let empty = Seq::<Class>::empty();
    if depth <= 1 {
        lemma_group_ok(empty, primitive_preds(a), t);
        lemma_group_keeps_members(empty, primitive_preds(a), t);
    } else {
        lemma_classes_up_to_ok(t, a, (depth - 1) as nat);
        let prev = classes_up_to(t, a, (depth - 1) as nat);
        lemma_group_ok(prev, compound_preds(representatives(prev)), t);
        lemma_group_keeps_members(prev, compound_preds(representatives(prev)), t);
    }
}

/// At every depth, two predicates of the classes over a relation share a
/// class exactly when their row bit-vectors over it are equal.
pub proof fn lemma_classes_by_bitvector(
    t: ConcTable,
    a: Seq<ExprNode>,
    depth: nat,
    c1: int,
    k1: int,
    c2: int,
    k2: int,
)
    requires
        0 <= c1 < classes_up_to(t, a, depth).len(),
        0 <= c2 < classes_up_to(t, a, depth).len(),
        0 <= k1 < classes_up_to(t, a, depth)[c1].1.len(),
        0 <= k2 < classes_up_to(t, a, depth)[c2].1.len(),
    ensures
        c1 == c2 <==> pvec(classes_up_to(t, a, depth)[c1].1[k1], t) == pvec(
            classes_up_to(t, a, depth)[c2].1[k2],
            t,
        ),
{
    lemma_classes_up_to_ok(t, a, depth);
    let cs = classes_up_to(t, a, depth);
    assert(pvec(cs[c1].1[k1], t) == cs[c1].0);
    assert(pvec(cs[c2].1[k2], t) == cs[c2].0);
    if c1 < c2 {
        assert(cs[c1].0 != cs[c2].0);
    } else if c2 < c1 {
        assert(cs[c2].0 != cs[c1].0);
    }
}

} // verus!

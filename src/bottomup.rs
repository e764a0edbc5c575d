use vstd::prelude::*;

use crate::types::{ASTNode, AstView, ConcTable, Field};

verus! {

/// The fields a skeleton offers to predicates, read off its structure: a
/// table's columns in order; a projection's fields; otherwise the child's
/// fields, or the left side's then the right side's.
pub open spec fn query_fields(q: AstView<()>) -> Seq<Field>
    decreases q,
{
    match q {
        AstView::Select { fields, table, .. } => match fields {
            Some(fs) => fs,
            None => query_fields(*table),
        },
        AstView::Join { fields, table1, table2, .. } => match fields {
            Some(fs) => fs,
            None => query_fields(*table1) + query_fields(*table2),
        },
        AstView::Table { name, columns } => columns.map_values(
            |c: String| Field { name: c, table: name },
        ),
        AstView::Concat { table1, table2 } => query_fields(*table1) + query_fields(*table2),
    }
}

fn table_fields(name: &String, columns: &Vec<String>) -> (r: Vec<Field>)
    ensures
        r@ == columns@.map_values(|c: String| Field { name: c, table: *name }),
{
    let mut r: Vec<Field> = Vec::new();
    let mut i: usize = 0;
    while i < columns.len()
        invariant
            i <= columns.len(),
            r@ == columns@.subrange(0, i as int).map_values(
                |c: String| Field { name: c, table: *name },
            ),
        decreases columns.len() - i,
    {
        r.push(Field { name: columns[i].clone(), table: name.clone() });
        i = i + 1;
        assert(r@ =~= columns@.subrange(0, i as int).map_values(
            |c: String| Field { name: c, table: *name },
        ));
    }
    assert(columns@.subrange(0, i as int) =~= columns@);
    r
}

/// The fields a skeleton offers to predicates.
pub fn get_fields(node: &ASTNode<()>) -> (r: Vec<Field>)
    ensures
        r@ == query_fields(node@),
    decreases node,
{
    match node {
        ASTNode::Select { fields, table, .. } => match fields {
            Some(fs) => crate::types::copy_fields(fs),
            None => get_fields(table),
        },
        ASTNode::Join { fields, table1, table2, .. } => match fields {
            Some(fs) => crate::types::copy_fields(fs),
            None => {
                let mut fields1 = get_fields(table1);
                let mut fields2 = get_fields(table2);
                fields1.append(&mut fields2);
                fields1
            },
        },
        ASTNode::Table { name, columns } => table_fields(name, columns),
        ASTNode::Concat { table1, table2 } => {
            let mut fields1 = get_fields(table1);
            let mut fields2 = get_fields(table2);
            fields1.append(&mut fields2);
            fields1
        },
    }
}

/// All subsets of `s` as index-ordered lists, the empty one first: the
/// subsets of `s` without its last element, then each of them with it.
pub open spec fn all_subsets(s: Seq<Field>) -> Seq<Seq<Field>>
    decreases s.len(),
{
    if s.len() == 0 {
        seq![Seq::empty()]
    } else {
        let prev = all_subsets(s.drop_last());
        prev + prev.map_values(|sub: Seq<Field>| sub.push(s.last()))
    }
}

/// The non-empty subsets of `s`: subset `i` (from 1) holds the elements
/// whose index is a set bit of `i`.
pub open spec fn nonempty_subsets(s: Seq<Field>) -> Seq<Seq<Field>> {
    all_subsets(s).drop_first()
}

proof fn lemma_subsets_nonempty(s: Seq<Field>)
    ensures
        all_subsets(s).len() >= 1,
        all_subsets(s)[0] == Seq::<Field>::empty(),
    decreases s.len(),
{
    if s.len() > 0 {
        lemma_subsets_nonempty(s.drop_last());
    }
}

/// Every non-empty subset of `s`.
pub fn powerset(s: &Vec<Field>) -> (r: Vec<Vec<Field>>)
    ensures
        r@.map_values(|v: Vec<Field>| v@) == nonempty_subsets(s@),
{
    let mut all: Vec<Vec<Field>> = Vec::new();
    all.push(Vec::new());
    let mut k: usize = 0;
    assert(s@.subrange(0, 0) =~= Seq::<Field>::empty());
    assert(all@.map_values(|v: Vec<Field>| v@) =~= all_subsets(s@.subrange(0, 0)));
    while k < s.len()
        invariant
            k <= s.len(),
            all@.map_values(|v: Vec<Field>| v@) == all_subsets(s@.subrange(0, k as int)),
        decreases s.len() - k,
    {
        let ghost prev = all_subsets(s@.subrange(0, k as int));
        let n = all.len();
        let mut j: usize = 0;
        while j < n
            invariant
                n == prev.len(),
                j <= n,
                k < s.len(),
                all@.len() == n + j,
                forall|m: int| 0 <= m < n ==> (#[trigger] all@[m])@ == prev[m],
                forall|m: int| 0 <= m < j ==> (#[trigger] all@[n + m])@ == prev[m].push(s@[k as int]),
            decreases n - j,
        {
            let mut sub = crate::types::copy_fields(&all[j]);
            sub.push(s[k].duplicate());
            all.push(sub);
            j = j + 1;
        }
        proof {
            assert(s@.subrange(0, k + 1).drop_last() =~= s@.subrange(0, k as int));
            assert(s@.subrange(0, k + 1).last() == s@[k as int]);
            assert forall|m: int| n <= m < 2 * n implies (#[trigger] all@[m])@ == prev[m - n].push(
                s@[k as int],
            ) by {
                let m2 = m - n;
                assert(all@[n + m2] == all@[m]);
            }
            assert(all@.map_values(|v: Vec<Field>| v@) =~= prev + prev.map_values(
                |sub: Seq<Field>| sub.push(s@[k as int]),
            ));
        }
        k = k + 1;
    }
    assert(s@.subrange(0, k as int) =~= s@);
    proof {
        lemma_subsets_nonempty(s@);
    }
    let ghost whole = all@;
    let r = if all.len() > 0 {
        all.remove(0);
        all
    } else {
        all
    };
    assert(r@.map_values(|v: Vec<Field>| v@) =~= nonempty_subsets(s@));
    r
}

/// The non-empty subsets of the fields of `query`.
pub fn field_combinations(query: &ASTNode<()>) -> (r: Vec<Vec<Field>>)
    ensures
        r@.map_values(|v: Vec<Field>| v@) == nonempty_subsets(query_fields(query@)),
{
    let fields = get_fields(query);
    powerset(&fields)
}

/// Two fields name the same column of the same table.
pub open spec fn same_field(f: Field, g: Field) -> bool {
    f.name@ == g.name@ && f.table@ == g.table@
}

/// The fields of `a`, then those of `b` not already present, in order.
pub open spec fn union_fields(a: Seq<Field>, b: Seq<Field>) -> Seq<Field>
    decreases b.len(),
{
    if b.len() == 0 {
        a
    } else {
        let u = union_fields(a, b.drop_last());
        if exists|k: int| 0 <= k < u.len() && same_field(u[k], b.last()) {
            u
        } else {
            u.push(b.last())
        }
    }
}

fn field_eq(f: &Field, g: &Field) -> (r: bool)
    ensures
        r == same_field(*f, *g),
{
    f.name == g.name && f.table == g.table
}

/// The non-empty subsets of the union of the fields of two queries.
pub fn field_combinations_join(query1: &ASTNode<()>, query2: &ASTNode<()>) -> (r: Vec<Vec<Field>>)
    ensures
        r@.map_values(|v: Vec<Field>| v@) == nonempty_subsets(
            union_fields(query_fields(query1@), query_fields(query2@)),
        ),
{
    let mut fields = get_fields(query1);
    let fields2 = get_fields(query2);
    let ghost a = fields@;
    let mut i: usize = 0;
    assert(fields2@.subrange(0, 0) =~= Seq::<Field>::empty());
    while i < fields2.len()
        invariant
            i <= fields2.len(),
            fields@ == union_fields(a, fields2@.subrange(0, i as int)),
        decreases fields2.len() - i,
    {
        proof {
            assert(fields2@.subrange(0, i + 1).drop_last() =~= fields2@.subrange(0, i as int));
        }
        let mut found = false;
        let mut k: usize = 0;
        while k < fields.len()
            invariant
                k <= fields.len(),
                i < fields2.len(),
                found <==> exists|m: int| 0 <= m < k && same_field(fields@[m], fields2@[i as int]),
            decreases fields.len() - k,
        {
            if field_eq(&fields[k], &fields2[i]) {
                found = true;
            }
            k = k + 1;
        }
        if !found {
            fields.push(fields2[i].duplicate());
        }
        i = i + 1;
    }
    assert(fields2@.subrange(0, i as int) =~= fields2@);
    powerset(&fields)
}

pub open spec fn skels_view(v: Seq<ASTNode<()>>) -> Seq<AstView<()>> {
    v.map_values(|a: ASTNode<()>| a@)
}

/// A selection of `q` onto each non-empty subset of its fields.
pub open spec fn selects(q: AstView<()>) -> Seq<AstView<()>> {
    nonempty_subsets(query_fields(q)).map_values(
        |f: Seq<Field>| AstView::Select { fields: Some(f), table: Box::new(q), pred: () },
    )
}

/// A join of `a` and `b` onto each non-empty subset of their fields' union.
pub open spec fn joins(a: AstView<()>, b: AstView<()>) -> Seq<AstView<()>> {
    nonempty_subsets(union_fields(query_fields(a), query_fields(b))).map_values(
        |f: Seq<Field>|
            AstView::Join { fields: Some(f), table1: Box::new(a), table2: Box::new(b), pred: () },
    )
}

/// For each of the first `n` queries `b` of `qs`: the joins of `a` and `b`,
/// then their concatenation.
pub open spec fn pair_block(a: AstView<()>, qs: Seq<AstView<()>>, n: nat) -> Seq<AstView<()>>
    decreases n,
{
    if n == 0 {
        Seq::empty()
    } else {
        pair_block(a, qs, (n - 1) as nat) + joins(a, qs[n - 1]) + seq![
            AstView::Concat { table1: Box::new(a), table2: Box::new(qs[n - 1]) },
        ]
    }
}

/// What one query of the population grows into: itself, its selections, then
/// its joins and concatenations with every query of the population.
pub open spec fn block(qs: Seq<AstView<()>>, i: int) -> Seq<AstView<()>> {
    seq![qs[i]] + selects(qs[i]) + pair_block(qs[i], qs, qs.len())
}

/// The blocks of the first `n` queries, in order.
pub open spec fn grown(qs: Seq<AstView<()>>, n: nat) -> Seq<AstView<()>>
    decreases n,
{
    if n == 0 {
        Seq::empty()
    } else {
        grown(qs, (n - 1) as nat) + block(qs, n - 1)
    }
}

fn select_all(q: &ASTNode<()>) -> (r: Vec<ASTNode<()>>)
    ensures
        skels_view(r@) == selects(q@),
{
    let combos = field_combinations(q);
    let ghost subs = nonempty_subsets(query_fields(q@));
    let mut r: Vec<ASTNode<()>> = Vec::new();
    let mut k: usize = 0;
    while k < combos.len()
        invariant
            combos@.map_values(|v: Vec<Field>| v@) == subs,
            subs == nonempty_subsets(query_fields(q@)),
            k <= combos.len(),
            skels_view(r@) == selects(q@).subrange(0, k as int),
        decreases combos.len() - k,
    {
        assert(combos@[k as int]@ == subs[k as int]);
        let node = ASTNode::Select {
            fields: Some(crate::types::copy_fields(&combos[k])),
            table: Box::new(q.duplicate()),
            pred: (),
        };
        assert(node@ == selects(q@)[k as int]);
        let ghost before = r@;
        let ghost nv = node@;
        r.push(node);
        assert(skels_view(r@) =~= skels_view(before).push(nv));
        assert(selects(q@).subrange(0, k + 1) =~= selects(q@).subrange(0, k as int).push(nv));
        k = k + 1;
    }
    assert(selects(q@).subrange(0, k as int) =~= selects(q@));
    r
}

fn join_all(a: &ASTNode<()>, b: &ASTNode<()>) -> (r: Vec<ASTNode<()>>)
    ensures
        skels_view(r@) == joins(a@, b@),
{
    let combos = field_combinations_join(a, b);
    let ghost subs = nonempty_subsets(union_fields(query_fields(a@), query_fields(b@)));
    let mut r: Vec<ASTNode<()>> = Vec::new();
    let mut k: usize = 0;
    while k < combos.len()
        invariant
            combos@.map_values(|v: Vec<Field>| v@) == subs,
            subs == nonempty_subsets(union_fields(query_fields(a@), query_fields(b@))),
            k <= combos.len(),
            skels_view(r@) == joins(a@, b@).subrange(0, k as int),
        decreases combos.len() - k,
    {
        assert(combos@[k as int]@ == subs[k as int]);
        let node = ASTNode::Join {
            fields: Some(crate::types::copy_fields(&combos[k])),
            table1: Box::new(a.duplicate()),
            table2: Box::new(b.duplicate()),
            pred: (),
        };
        assert(node@ == joins(a@, b@)[k as int]);
        let ghost before = r@;
        let ghost nv = node@;
        r.push(node);
        assert(skels_view(r@) =~= skels_view(before).push(nv));
        assert(joins(a@, b@).subrange(0, k + 1) =~= joins(a@, b@).subrange(0, k as int).push(nv));
        k = k + 1;
    }
    assert(joins(a@, b@).subrange(0, k as int) =~= joins(a@, b@));
    r
}

/// One growth step: for every query, itself, its selections, and its joins
/// and concatenations with every query (itself included).
pub fn grow(queries: Vec<ASTNode<()>>) -> (r: Vec<ASTNode<()>>)
    ensures
        skels_view(r@) == grown(skels_view(queries@), queries@.len()),
{
    let ghost qs = skels_view(queries@);
    let mut new_queries: Vec<ASTNode<()>> = Vec::new();
    let mut i: usize = 0;
    while i < queries.len()
        invariant
            qs == skels_view(queries@),
            i <= queries.len(),
            skels_view(new_queries@) == grown(qs, i as nat),
        decreases queries.len() - i,
    {
        let query = &queries[i];
        assert(qs[i as int] == query@);
        let ghost base = skels_view(new_queries@);
        new_queries.push(query.duplicate());
        let mut selections = select_all(query);
        new_queries.append(&mut selections);
        assert(skels_view(new_queries@) =~= base + seq![qs[i as int]] + selects(qs[i as int]));
        let mut j: usize = 0;
        while j < queries.len()
            invariant
                qs == skels_view(queries@),
                i < queries.len(),
                j <= queries.len(),
                query@ == qs[i as int],
                skels_view(new_queries@) == base + seq![qs[i as int]] + selects(qs[i as int])
                    + pair_block(qs[i as int], qs, j as nat),
            decreases queries.len() - j,
        {
            let query2 = &queries[j];
            assert(qs[j as int] == query2@);
            let ghost before = skels_view(new_queries@);
            let mut joined = join_all(query, query2);
            new_queries.append(&mut joined);
            let concat = ASTNode::Concat {
                table1: Box::new(query.duplicate()),
                table2: Box::new(query2.duplicate()),
            };
            new_queries.push(concat);
            j = j + 1;
            assert(skels_view(new_queries@) =~= before + joins(qs[i as int], qs[j - 1]) + seq![
                AstView::Concat { table1: Box::new(qs[i as int]), table2: Box::new(qs[j - 1]) },
            ]);
        }
        i = i + 1;
        assert(skels_view(new_queries@) =~= grown(qs, i as nat));
    }
    new_queries
}

/// The leaf that reads relation `t`.
pub open spec fn leaf_of(t: ConcTable) -> AstView<()> {
    AstView::Table { name: t.name, columns: t.columns@ }
}

/// One leaf per input relation.
pub fn initial_set(example: &(Vec<ConcTable>, ConcTable)) -> (r: Vec<ASTNode<()>>)
    ensures
        r@.len() == example.0@.len(),
        forall|i: int|
            0 <= i < r@.len() ==> (#[trigger] r@[i])@ == leaf_of(example.0@[i]),
{
    let mut queries: Vec<ASTNode<()>> = Vec::new();
    let mut i: usize = 0;
    while i < example.0.len()
        invariant
            i <= example.0.len(),
            queries@.len() == i,
            forall|k: int|
                0 <= k < i ==> (#[trigger] queries@[k])@ == leaf_of(example.0@[k]),
        decreases example.0.len() - i,
    {
        let table = &example.0[i];
        queries.push(
            ASTNode::Table {
                name: table.name.clone(),
                columns: crate::types::copy_strings(&table.columns),
            },
        );
        i = i + 1;
    }
    queries
}

/// Whether `t` has a column named `c`.
pub open spec fn has_column(t: ConcTable, c: Seq<char>) -> bool {
    exists|k: int| 0 <= k < t.columns@.len() && (#[trigger] t.columns@[k])@ == c
}

/// `result` has every column and every row of `expected`.
pub open spec fn superset(result: ConcTable, expected: ConcTable) -> bool {
    &&& forall|i: int|
        0 <= i < expected.columns@.len() ==> has_column(result, (#[trigger] expected.columns@[i])@)
    &&& forall|i: int|
        0 <= i < expected.values@.len() ==> crate::row_in(result, (#[trigger] expected.values@[i])@)
}

fn has_column_exec(t: &ConcTable, c: &String) -> (r: bool)
    ensures
        r == has_column(*t, c@),
{
    let mut k: usize = 0;
    while k < t.columns.len()
        invariant
            k <= t.columns.len(),
            forall|m: int| 0 <= m < k ==> (#[trigger] t.columns@[m])@ != c@,
        decreases t.columns.len() - k,
    {
        if t.columns[k] == *c {
            return true;
        }
        k = k + 1;
    }
    false
}

pub fn is_superset(result: &ConcTable, expected: &ConcTable) -> (r: bool)
    ensures
        r == superset(*result, *expected),
{
    let mut i: usize = 0;
    while i < expected.columns.len()
        invariant
            i <= expected.columns.len(),
            forall|m: int| 0 <= m < i ==> has_column(*result, (#[trigger] expected.columns@[m])@),
        decreases expected.columns.len() - i,
    {
        if !has_column_exec(result, &expected.columns[i]) {
            return false;
        }
        i = i + 1;
    }
    let mut j: usize = 0;
    while j < expected.values.len()
        invariant
            i == expected.columns.len(),
            forall|m: int| 0 <= m < i ==> has_column(*result, (#[trigger] expected.columns@[m])@),
            j <= expected.values.len(),
            forall|m: int| 0 <= m < j ==> crate::row_in(*result, (#[trigger] expected.values@[m])@),
        decreases expected.values.len() - j,
    {
        if !crate::contains_row(result, &expected.values[j]) {
            return false;
        }
        j = j + 1;
    }
    true
}

/// How many of the first `n` rows of `t` equal `row`.
pub open spec fn count_row(t: ConcTable, row: Seq<isize>, n: nat) -> nat
    decreases n,
{
    if n == 0 {
        0
    } else {
        count_row(t, row, (n - 1) as nat) + if t.values@[n - 1]@ == row {
            1nat
        } else {
            0nat
        }
    }
}

pub open spec fn count_of(t: ConcTable, row: Seq<isize>) -> nat {
    count_row(t, row, t.values@.len())
}

/// Two relations are observationally equal: the same column names in order,
/// and the same rows counted with multiplicity, in any order.
pub open spec fn equivalent(a: ConcTable, b: ConcTable) -> bool {
    &&& a.columns@.len() == b.columns@.len()
    &&& forall|k: int| 0 <= k < a.columns@.len() ==> (#[trigger] a.columns@[k])@ == b.columns@[k]@
    &&& forall|row: Seq<isize>| #[trigger] count_of(a, row) == count_of(b, row)
}

proof fn lemma_count_positive(t: ConcTable, row: Seq<isize>, n: nat)
    requires
        n <= t.values@.len(),
        count_row(t, row, n) > 0,
    ensures
        exists|i: int| 0 <= i < n && (#[trigger] t.values@[i])@ == row,
    decreases n,
{
    if t.values@[n - 1]@ != row {
        lemma_count_positive(t, row, (n - 1) as nat);
    }
}

fn count_exec(t: &ConcTable, row: &Vec<isize>) -> (r: usize)
    ensures
        r == count_of(*t, row@),
{
    let mut c: usize = 0;
    let mut i: usize = 0;
    while i < t.values.len()
        invariant
            i <= t.values.len(),
            c == count_row(*t, row@, i as nat),
            c <= i,
        decreases t.values.len() - i,
    {
        if crate::same_row(&t.values[i], row) {
            c = c + 1;
        }
        i = i + 1;
    }
    c
}

pub fn is_equivalent(a: &ConcTable, b: &ConcTable) -> (r: bool)
    ensures
        r == equivalent(*a, *b),
{
    if a.columns.len() != b.columns.len() {
        return false;
    }
    let mut k: usize = 0;
    while k < a.columns.len()
        invariant
            a.columns.len() == b.columns.len(),
            k <= a.columns.len(),
            forall|m: int| 0 <= m < k ==> (#[trigger] a.columns@[m])@ == b.columns@[m]@,
        decreases a.columns.len() - k,
    {
        if a.columns[k] != b.columns[k] {
            return false;
        }
        k = k + 1;
    }
    let mut i: usize = 0;
    while i < a.values.len()
        invariant
            i <= a.values.len(),
            forall|m: int|
                0 <= m < i ==> count_of(*a, (#[trigger] a.values@[m])@) == count_of(
                    *b,
                    a.values@[m]@,
                ),
        decreases a.values.len() - i,
    {
        if count_exec(a, &a.values[i]) != count_exec(b, &a.values[i]) {
            return false;
        }
        i = i + 1;
    }
    let mut j: usize = 0;
    while j < b.values.len()
        invariant
            j <= b.values.len(),
            forall|m: int|
                0 <= m < j ==> count_of(*a, (#[trigger] b.values@[m])@) == count_of(
                    *b,
                    b.values@[m]@,
                ),
        decreases b.values.len() - j,
    {
        if count_exec(a, &b.values[j]) != count_exec(b, &b.values[j]) {
            return false;
        }
        j = j + 1;
    }
    proof {
        assert forall|row: Seq<isize>| #[trigger] count_of(*a, row) == count_of(*b, row) by {
            if count_of(*a, row) > 0 {
                lemma_count_positive(*a, row, a.values@.len());
            } else if count_of(*b, row) > 0 {
                lemma_count_positive(*b, row, b.values@.len());
            }
        }
    }
    true
}

/// Query `i` survives elimination: on the last round its relation holds the
/// target, and no earlier query's relation is equivalent to its.
pub open spec fn keeps(outs: Seq<ConcTable>, target: ConcTable, is_final: bool, i: int) -> bool {
    &&& (is_final ==> superset(outs[i], target))
    &&& forall|j: int| 0 <= j < i ==> !equivalent(#[trigger] outs[j], outs[i])
}

/// The indices, in order, of the first `n` queries that survive.
pub open spec fn kept_indices(outs: Seq<ConcTable>, target: ConcTable, is_final: bool, n: nat) -> Seq<
    int,
>
    decreases n,
{
    if n == 0 {
        Seq::empty()
    } else {
        let prev = kept_indices(outs, target, is_final, (n - 1) as nat);
        if keeps(outs, target, is_final, n - 1) {
            prev.push(n - 1)
        } else {
            prev
        }
    }
}

pub open spec fn pick<A>(xs: Seq<A>, idx: Seq<int>) -> Seq<A> {
    idx.map_values(|k: int| xs[k])
}

/// Elimination by observational equivalence, given the relation each query
/// evaluates to: the first query of each class of equivalent relations is
/// kept, in order; on the last round only those whose relation holds the
/// target.
pub fn elim_with(queries: &Vec<ASTNode<()>>, outputs: &Vec<ConcTable>, target: &ConcTable, is_final: bool) -> (r:
    Vec<ASTNode<()>>)
    requires
        queries.len() == outputs.len(),
    ensures
        skels_view(r@) == pick(
            skels_view(queries@),
            kept_indices(outputs@, *target, is_final, outputs@.len()),
        ),
{
    let ghost qs = skels_view(queries@);
    let mut out: Vec<ASTNode<()>> = Vec::new();
    let mut i: usize = 0;
    while i < queries.len()
        invariant
            queries.len() == outputs.len(),
            qs == skels_view(queries@),
            i <= queries.len(),
            skels_view(out@) == pick(qs, kept_indices(outputs@, *target, is_final, i as nat)),
        decreases queries.len() - i,
    {
        let mut keep = true;
        if is_final && !is_superset(&outputs[i], target) {
            keep = false;
        }
        let mut j: usize = 0;
        while j < i && keep
            invariant
                i < outputs.len(),
                j <= i,
                keep ==> (is_final ==> superset(outputs@[i as int], *target)),
                keep ==> forall|m: int| 0 <= m < j ==> !equivalent(#[trigger] outputs@[m], outputs@[i as int]),
                !keep ==> !keeps(outputs@, *target, is_final, i as int),
            decreases i - j,
        {
            if is_equivalent(&outputs[j], &outputs[i]) {
                keep = false;
            }
            j = j + 1;
        }
        assert(keep == keeps(outputs@, *target, is_final, i as int));
        let ghost before = out@;
        if keep {
            out.push(queries[i].duplicate());
            assert(skels_view(out@) =~= skels_view(before).push(qs[i as int]));
        }
        i = i + 1;
        assert(skels_view(out@) =~= pick(qs, kept_indices(outputs@, *target, is_final, i as nat)));
    }
    out
}

proof fn lemma_kept_indices(outs: Seq<ConcTable>, target: ConcTable, is_final: bool, n: nat)
    requires
        n <= outs.len(),
    ensures
        forall|a: int|
            0 <= a < kept_indices(outs, target, is_final, n).len() ==> {
                let k = #[trigger] kept_indices(outs, target, is_final, n)[a];
                0 <= k < n && keeps(outs, target, is_final, k)
            },
        forall|a: int, b: int|
            0 <= a < b < kept_indices(outs, target, is_final, n).len() ==> #[trigger] kept_indices(
                outs,
                target,
                is_final,
                n,
            )[a] < #[trigger] kept_indices(outs, target, is_final, n)[b],
    decreases n,
{
    if n > 0 {
        lemma_kept_indices(outs, target, is_final, (n - 1) as nat);
        let prev = kept_indices(outs, target, is_final, (n - 1) as nat);
        let cur = kept_indices(outs, target, is_final, n);
        assert forall|a: int| 0 <= a < prev.len() implies cur[a] == #[trigger] prev[a] by {
            if keeps(outs, target, is_final, n - 1) {
                assert(cur == prev.push(n - 1));
            }
        }
        if keeps(outs, target, is_final, n - 1) {
            assert(cur == prev.push(n - 1));
            assert(cur[prev.len() as int] == n - 1);
        } else {
            assert(cur == prev);
        }
        assert forall|a: int| 0 <= a < cur.len() implies {
            let k = #[trigger] cur[a];
            0 <= k < n && keeps(outs, target, is_final, k)
        } by {
            if a < prev.len() {
                assert(cur[a] == prev[a]);
            }
        }
        assert forall|a: int, b: int| 0 <= a < b < cur.len() implies #[trigger] cur[a] < #[trigger] cur[b] by {
            assert(cur[a] == prev[a]);
            if b < prev.len() {
                assert(cur[b] == prev[b]);
            }
        }
    }
}

proof fn lemma_all_kept(outs: Seq<ConcTable>, target: ConcTable, is_final: bool, n: nat)
    requires
        n <= outs.len(),
        forall|i: int| 0 <= i < n ==> keeps(outs, target, is_final, i),
    ensures
        kept_indices(outs, target, is_final, n) == Seq::new(n, |i: int| i),
    decreases n,
{
    if n > 0 {
        lemma_all_kept(outs, target, is_final, (n - 1) as nat);
        assert(keeps(outs, target, is_final, n - 1));
        assert(Seq::new((n - 1) as nat, |i: int| i).push(n - 1) =~= Seq::new(n, |i: int| i));
    }
}

/// Elimination is idempotent: eliminating again among the survivors, with
/// the same relations, keeps all of them.
pub proof fn lemma_elim_idempotent(
    qs: Seq<AstView<()>>,
    outs: Seq<ConcTable>,
    target: ConcTable,
    is_final: bool,
)
    requires
        qs.len() == outs.len(),
    ensures
        ({
            let idx = kept_indices(outs, target, is_final, outs.len());
            let q1 = pick(qs, idx);
            let o1 = pick(outs, idx);
            pick(q1, kept_indices(o1, target, is_final, o1.len())) == q1
        }),
{
    let idx = kept_indices(outs, target, is_final, outs.len());
    let q1 = pick(qs, idx);
    let o1 = pick(outs, idx);
    lemma_kept_indices(outs, target, is_final, outs.len());
    assert forall|i: int| 0 <= i < o1.len() implies keeps(o1, target, is_final, i) by {
        assert(keeps(outs, target, is_final, idx[i]));
        assert forall|j: int| 0 <= j < i implies !equivalent(#[trigger] o1[j], o1[i]) by {
            assert(idx[j] < idx[i]);
            assert(o1[j] == outs[idx[j]]);
        }
    }
    lemma_all_kept(o1, target, is_final, o1.len());
    assert(pick(q1, Seq::new(o1.len(), |i: int| i)) =~= q1);
}

/// Evaluates each query and eliminates by observational equivalence; on the
/// last round keeps only queries whose relation holds the target of `example`.
pub fn elim(queries: Vec<ASTNode<()>>, example: &(Vec<ConcTable>, ConcTable), conn: &rusqlite::Connection, is_final: bool) -> (r:
    Vec<ASTNode<()>>)
    ensures
        exists|outs: Seq<ConcTable>|
            outs.len() == queries@.len() && skels_view(r@) == pick(
                skels_view(queries@),
                kept_indices(outs, example.1, is_final, outs.len()),
            ),
{
    let mut outputs: Vec<ConcTable> = Vec::new();
    let mut i: usize = 0;
    while i < queries.len()
        invariant
            i <= queries.len(),
            outputs.len() == i,
        decreases queries.len() - i,
    {
        match crate::sql::eval_abstract(&queries[i], conn) {
            Ok(t) => outputs.push(t),
            Err(_) => {
                assert(false);
            },
        }
        i = i + 1;
    }
    elim_with(&queries, &outputs, &example.1, is_final)
}

/// The leaves of the input relations.
pub open spec fn leaves(inputs: Seq<ConcTable>) -> Seq<AstView<()>> {
    inputs.map_values(|t: ConcTable| leaf_of(t))
}

/// The skeletons after the first `d` of `depth` rounds from `init`: each
/// round grows the population, then keeps the survivors of elimination over
/// that round's relations `outs[round]`, with the superset filter on the
/// last round.
pub open spec fn rounds(
    init: Seq<AstView<()>>,
    outs: Seq<Seq<ConcTable>>,
    target: ConcTable,
    depth: int,
    d: nat,
) -> Seq<AstView<()>>
    decreases d,
{
    if d == 0 {
        init
    } else {
        let prev = rounds(init, outs, target, depth, (d - 1) as nat);
        let g = grown(prev, prev.len());
        let o = outs[d - 1];
        pick(g, kept_indices(o, target, d - 1 == depth - 1, o.len()))
    }
}

proof fn lemma_rounds_prefix(
    init: Seq<AstView<()>>,
    outs: Seq<Seq<ConcTable>>,
    more: Seq<Seq<ConcTable>>,
    target: ConcTable,
    depth: int,
    d: nat,
)
    requires
        d <= outs.len(),
        d <= more.len(),
        outs.subrange(0, d as int) == more.subrange(0, d as int),
    ensures
        rounds(init, outs, target, depth, d) == rounds(init, more, target, depth, d),
    decreases d,
{
    if d > 0 {
        assert(outs.subrange(0, d - 1) =~= outs.subrange(0, d as int).subrange(0, d - 1));
        assert(more.subrange(0, d - 1) =~= more.subrange(0, d as int).subrange(0, d - 1));
        lemma_rounds_prefix(init, outs, more, target, depth, (d - 1) as nat);
        assert(outs[d - 1] == outs.subrange(0, d as int)[d - 1]);
        assert(more[d - 1] == more.subrange(0, d as int)[d - 1]);
    }
}

/// `sks` is what skeleton generation over `inputs` for `depth` rounds can
/// give: the leaves when there is no round, otherwise the survivors of the
/// rounds over some relations per round.
pub open spec fn generated(sks: Seq<AstView<()>>, inputs: Seq<ConcTable>, target: ConcTable, depth: int) -> bool {
    if depth <= 0 {
        sks == leaves(inputs)
    } else {
        exists|outs: Seq<Seq<ConcTable>>|
            outs.len() == depth && sks == rounds(leaves(inputs), outs, target, depth, depth as nat)
    }
}

proof fn lemma_superset_same_target(r: ConcTable, t1: ConcTable, t2: ConcTable)
    requires
        crate::bvdfs::same_relation(t1, t2),
    ensures
        superset(r, t1) == superset(r, t2),
{
    if superset(r, t1) {
        assert forall|i: int| 0 <= i < t2.values@.len() implies crate::row_in(r, (#[trigger] t2.values@[i])@) by {
            assert(t1.values@[i]@ == t2.values@[i]@);
        }
    }
    if superset(r, t2) {
        assert forall|i: int| 0 <= i < t1.values@.len() implies crate::row_in(r, (#[trigger] t1.values@[i])@) by {
            assert(t1.values@[i]@ == t2.values@[i]@);
        }
    }
}

proof fn lemma_kept_same_target(outs: Seq<ConcTable>, t1: ConcTable, t2: ConcTable, f: bool, n: nat)
    requires
        crate::bvdfs::same_relation(t1, t2),
    ensures
        kept_indices(outs, t1, f, n) == kept_indices(outs, t2, f, n),
    decreases n,
{
    if n > 0 {
        lemma_kept_same_target(outs, t1, t2, f, (n - 1) as nat);
        lemma_superset_same_target(outs[n - 1], t1, t2);
    }
}

/// Generation depends on the target only through its columns and rows.
pub proof fn lemma_rounds_same_target(
    init: Seq<AstView<()>>,
    outs: Seq<Seq<ConcTable>>,
    t1: ConcTable,
    t2: ConcTable,
    depth: int,
    d: nat,
)
    requires
        crate::bvdfs::same_relation(t1, t2),
    ensures
        rounds(init, outs, t1, depth, d) == rounds(init, outs, t2, depth, d),
    decreases d,
{
    if d > 0 {
        lemma_rounds_same_target(init, outs, t1, t2, depth, (d - 1) as nat);
        let o = outs[d - 1];
        lemma_kept_same_target(o, t1, t2, d - 1 == depth - 1, o.len());
    }
}

/// Grows the input relations into skeletons for `depth` rounds, eliminating
/// after each round over the relations the database gives, with the superset
/// filter on the last round; with no round the skeletons are the inputs'
/// leaves.
pub fn generate_abstract_queries(example: (Vec<ConcTable>, ConcTable), depth: i32, conn: &rusqlite::Connection) -> (r:
    Vec<ASTNode<()>>)
    ensures
        generated(skels_view(r@), example.0@, example.1, depth as int),
        depth <= 0 ==> skels_view(r@) == leaves(example.0@),
        depth >= 1 ==> exists|outs: Seq<Seq<ConcTable>>|
            outs.len() == depth && skels_view(r@) == rounds(
                leaves(example.0@),
                outs,
                example.1,
                depth as int,
                depth as nat,
            ),
{
    let mut queries = initial_set(&example);
    let ghost init = leaves(example.0@);
    assert(skels_view(queries@) =~= init);
    let ghost mut outs: Seq<Seq<ConcTable>> = Seq::empty();
    let mut d: i32 = 0;
    while d < depth
        invariant
            0 <= d,
            depth >= 1 ==> d <= depth,
            depth <= 0 ==> d == 0,
            outs.len() == d,
            skels_view(queries@) == rounds(init, outs, example.1, depth as int, d as nat),
        decreases depth - d,
    {
        let ghost prev = skels_view(queries@);
        let grown_queries = grow(queries);
        let last = d == depth - 1;
        queries = elim(grown_queries, &example, conn, last);
        proof {
            let o = choose|o: Seq<ConcTable>|
                o.len() == grown_queries@.len() && skels_view(queries@) == pick(
                    skels_view(grown_queries@),
                    #[trigger] kept_indices(o, example.1, last, o.len()),
                );
            let more = outs.push(o);
            assert(more.subrange(0, d as int) =~= outs.subrange(0, d as int));
            lemma_rounds_prefix(init, outs, more, example.1, depth as int, d as nat);
            assert(more[d as int] == o);
            assert(skels_view(queries@) == rounds(init, more, example.1, depth as int, (d + 1) as nat));
            outs = more;
        }
        d = d + 1;
    }
    queries
}

} // verus!

use vstd::prelude::*;

pub mod bits;
pub mod bottomup;
pub mod bvdfs;
pub mod enum_predicates;
pub mod sql;
pub mod stun;
pub mod types;

use crate::bits::{bits_of, Bits, MAX_BITS};
use crate::bvdfs::{
    atoms_fit, built_from, consistent, pair_view, pairs_view, search, BVDFSError, Evaluated, Pair,
};
use crate::enum_predicates::PredicateEnumerationError;
use crate::types::{count_holes, fill, query_height, ASTNode, AstView, ConcTable, PredNode};

verus! {

/// Why no query was synthesized.
#[derive(Debug)]
pub enum SynthesisError {
    Enumeration(PredicateEnumerationError),
    BVDFS(BVDFSError),
    Database(rusqlite::Error),
    NoQueriesFound,
}

/// The rank of a concrete query: its height; smaller is better.
pub open spec fn rank(q: AstView<PredNode>) -> int {
    if query_height(q) <= isize::MAX {
        query_height(q) as int
    } else {
        isize::MAX as int
    }
}

pub fn query_rank(q: &ASTNode<PredNode>) -> (r: isize)
    ensures
        r == rank(q@),
{
    let h = q.height();
    if h <= isize::MAX as usize {
        h as isize
    } else {
        isize::MAX
    }
}

/// Whether `row` is one of the rows of `t`.
pub open spec fn row_in(t: ConcTable, row: Seq<isize>) -> bool {
    exists|j: int| 0 <= j < t.values@.len() && (#[trigger] t.values@[j])@ == row
}

/// Bit `i` is set when row `i` of `r` is a row of `target`.
pub open spec fn target_bits(r: ConcTable, target: ConcTable) -> Seq<bool> {
    Seq::new(r.values@.len(), |i: int| row_in(target, r.values@[i]@))
}

fn same_row(a: &Vec<isize>, b: &Vec<isize>) -> (r: bool)
    ensures
        r == (a@ == b@),
{
    if a.len() != b.len() {
        return false;
    }
    let mut i: usize = 0;
    while i < a.len()
        invariant
            a.len() == b.len(),
            i <= a.len(),
            forall|k: int| 0 <= k < i ==> a@[k] == b@[k],
        decreases a.len() - i,
    {
        if a[i] != b[i] {
            return false;
        }
        i = i + 1;
    }
    assert(a@ =~= b@);
    true
}

fn contains_row(t: &ConcTable, row: &Vec<isize>) -> (r: bool)
    ensures
        r == row_in(*t, row@),
{
    let mut j: usize = 0;
    while j < t.values.len()
        invariant
            j <= t.values.len(),
            forall|k: int| 0 <= k < j ==> (#[trigger] t.values@[k])@ != row@,
        decreases t.values.len() - j,
    {
        if same_row(&t.values[j], row) {
            return true;
        }
        j = j + 1;
    }
    false
}

impl ConcTable {
    /// The rows of `self` that are rows of `other`, as a bit-vector over `self`.
    pub fn subset_bitvec(&self, other: &ConcTable) -> (r: Bits)
        requires
            self.values.len() <= MAX_BITS,
        ensures
            bits_of(r) == target_bits(*self, *other),
    {
        let n = self.values.len();
        let mut v = crate::bits::repeat(false, n);
        let mut i: usize = 0;
        while i < n
            invariant
                n == self.values.len(),
                n <= MAX_BITS,
                i <= n,
                bits_of(v).len() == n,
                forall|k: int|
                    0 <= k < i ==> #[trigger] bits_of(v)[k] == row_in(*other, self.values@[k]@),
            decreases n - i,
        {
            let b = contains_row(other, &self.values[i]);
            crate::bits::set(&mut v, i, b);
            i = i + 1;
        }
        assert(bits_of(v) =~= target_bits(*self, *other));
        v
    }
}

/// The queries, in the order of `ps`, made from skeleton `q` and the tuple of
/// each pair whose bit-vector is `want`.
pub open spec fn matching(q: AstView<()>, ps: Seq<Pair>, want: Seq<bool>) -> Seq<AstView<PredNode>>
    decreases ps.len(),
{
    if ps.len() == 0 {
        Seq::empty()
    } else {
        let rest = matching(q, ps.drop_last(), want);
        if ps.last().0 == want {
            rest.push(fill(q, ps.last().1))
        } else {
            rest
        }
    }
}

/// `s` with `x` placed before the first query of larger rank.
pub open spec fn insert_by_rank(s: Seq<AstView<PredNode>>, x: AstView<PredNode>) -> Seq<
    AstView<PredNode>,
>
    decreases s.len(),
{
    if s.len() == 0 {
        seq![x]
    } else if rank(x) < rank(s[0]) {
        seq![x] + s
    } else {
        seq![s[0]] + insert_by_rank(s.drop_first(), x)
    }
}

/// The queries of `s` in a stable order by rank.
pub open spec fn sort_by_rank(s: Seq<AstView<PredNode>>) -> Seq<AstView<PredNode>>
    decreases s.len(),
{
    if s.len() == 0 {
        s
    } else {
        insert_by_rank(sort_by_rank(s.drop_last()), s.last())
    }
}

pub open spec fn asts_view(v: Seq<ASTNode<PredNode>>) -> Seq<AstView<PredNode>> {
    v.map_values(|a: ASTNode<PredNode>| a@)
}

proof fn lemma_insert_rank_at(s: Seq<AstView<PredNode>>, x: AstView<PredNode>, j: int)
    requires
        0 <= j <= s.len(),
        forall|k: int| 0 <= k < j ==> !(rank(x) < rank(#[trigger] s[k])),
        j < s.len() ==> rank(x) < rank(s[j]),
    ensures
        insert_by_rank(s, x) == s.insert(j, x),
    decreases s.len(),
{
    if s.len() == 0 {
        assert(s.insert(j, x) =~= seq![x]);
    } else if j == 0 {
        assert(s.insert(j, x) =~= seq![x] + s);
    } else {
        let t = s.drop_first();
        assert forall|k: int| 0 <= k < j - 1 implies !(rank(x) < rank(#[trigger] t[k])) by {
            assert(t[k] == s[k + 1]);
        }
        lemma_insert_rank_at(t, x, j - 1);
        assert(s.insert(j, x) =~= seq![s[0]] + t.insert(j - 1, x));
    }
}

proof fn lemma_insert_len(s: Seq<AstView<PredNode>>, x: AstView<PredNode>)
    ensures
        insert_by_rank(s, x).len() == s.len() + 1,
    decreases s.len(),
{
    if s.len() > 0 && !(rank(x) < rank(s[0])) {
        lemma_insert_len(s.drop_first(), x);
    }
}

proof fn lemma_sort_len(s: Seq<AstView<PredNode>>)
    ensures
        sort_by_rank(s).len() == s.len(),
    decreases s.len(),
{
    if s.len() > 0 {
        lemma_sort_len(s.drop_last());
        lemma_insert_len(sort_by_rank(s.drop_last()), s.last());
    }
}

/// Places `query` before the first query of `out` of larger rank.
fn insert_ranked(out: Vec<ASTNode<PredNode>>, query: ASTNode<PredNode>) -> (r: Vec<ASTNode<PredNode>>)
    ensures
        asts_view(r@) == insert_by_rank(asts_view(out@), query@),
{
    let mut out = out;
    let key = query_rank(&query);
    let mut j: usize = 0;
    while j < out.len() && !(key < query_rank(&out[j]))
        invariant
            j <= out.len(),
            key == rank(query@),
            forall|k: int| 0 <= k < j ==> !(rank(query@) < rank(#[trigger] asts_view(out@)[k])),
        decreases out.len() - j,
    {
        j = j + 1;
    }
    proof {
        lemma_insert_rank_at(asts_view(out@), query@, j as int);
    }
    let ghost before = out@;
    let ghost qv = query@;
    out.insert(j, query);
    assert(asts_view(out@) =~= asts_view(before).insert(j as int, qv));
    out
}

/// Orders queries by rank, ties in their given order.
pub fn rank_sort(v: Vec<ASTNode<PredNode>>) -> (r: Vec<ASTNode<PredNode>>)
    ensures
        asts_view(r@) == sort_by_rank(asts_view(v@)),
{
    let ghost vs = asts_view(v@);
    let mut v = v;
    let mut rest: Vec<ASTNode<PredNode>> = Vec::new();
    let mut out: Vec<ASTNode<PredNode>> = Vec::new();
    let n = v.len();
    // take the queries from the back, then insert them front to back
    while v.len() > 0
        invariant
            v@.len() + rest@.len() == n,
            n == vs.len(),
            asts_view(v@) == vs.subrange(0, v@.len() as int),
            forall|k: int| 0 <= k < rest@.len() ==> (#[trigger] rest@[k])@ == vs[n - 1 - k],
        decreases v.len(),
    {
        let ghost old_v = v@;
        let x = v.pop().unwrap();
        proof {
            assert(asts_view(old_v)[old_v.len() - 1] == x@);
            assert(asts_view(v@) =~= vs.subrange(0, v@.len() as int));
        }
        let ghost old_rest = rest@;
        rest.push(x);
        proof {
            assert forall|k: int| 0 <= k < rest@.len() implies (#[trigger] rest@[k])@ == vs[n - 1 - k] by {
                if k < old_rest.len() {
                    assert(rest@[k] == old_rest[k]);
                }
            }
        }
    }
    let mut i: usize = 0;
    assert(vs.subrange(0, 0) =~= Seq::<AstView<PredNode>>::empty());
    assert(asts_view(out@) =~= Seq::<AstView<PredNode>>::empty());
    while rest.len() > 0
        invariant
            i + rest@.len() == n,
            n == vs.len(),
            forall|k: int| 0 <= k < rest@.len() ==> (#[trigger] rest@[k])@ == vs[n - 1 - k],
            asts_view(out@) == sort_by_rank(vs.subrange(0, i as int)),
        decreases rest.len(),
    {
        let x = rest.pop().unwrap();
        proof {
            assert(x@ == vs[i as int]);
            assert(vs.subrange(0, i + 1).drop_last() =~= vs.subrange(0, i as int));
        }
        out = insert_ranked(out, x);
        i = i + 1;
    }
    assert(vs.subrange(0, i as int) =~= vs);
    out
}

/// Keeps the pairs whose bit-vector equals `want`, binds each one's tuple to
/// `q`, and orders the queries by rank, ties in the order of `pairs`. Fails
/// with `NoQueriesFound` where no pair matches.
pub fn rank_matches(q: &ASTNode<()>, pairs: &Vec<(Bits, Vec<PredNode>)>, want: &Bits) -> (r: Result<
    Vec<ASTNode<PredNode>>,
    SynthesisError,
>)
    requires
        forall|k: int|
            0 <= k < pairs@.len() ==> (#[trigger] pairs@[k]).1@.len() == count_holes(q@),
    ensures
        matching(q@, pairs_view(pairs@), bits_of(*want)).len() == 0 <==> r matches Err(
            SynthesisError::NoQueriesFound,
        ),
        r is Ok || r matches Err(SynthesisError::NoQueriesFound),
        r matches Ok(v) ==> asts_view(v@) == sort_by_rank(
            matching(q@, pairs_view(pairs@), bits_of(*want)),
        ),
{
    let ghost ps = pairs_view(pairs@);
    let ghost w = bits_of(*want);
    let mut out: Vec<ASTNode<PredNode>> = Vec::new();
    let mut count: usize = 0;
    let mut i: usize = 0;
    assert(ps.subrange(0, 0) =~= Seq::<Pair>::empty());
    assert(asts_view(out@) =~= Seq::<AstView<PredNode>>::empty());
    while i < pairs.len()
        invariant
            ps == pairs_view(pairs@),
            w == bits_of(*want),
            forall|k: int|
                0 <= k < pairs@.len() ==> (#[trigger] pairs@[k]).1@.len() == count_holes(q@),
            i <= pairs.len(),
            asts_view(out@) == sort_by_rank(matching(q@, ps.subrange(0, i as int), w)),
            count == matching(q@, ps.subrange(0, i as int), w).len(),
            count <= i,
        decreases pairs.len() - i,
    {
        proof {
            assert(ps.subrange(0, i + 1).drop_last() =~= ps.subrange(0, i as int));
            assert(ps[i as int] == pair_view(pairs@[i as int]));
        }
        if crate::bits::equal(&pairs[i].0, want) {
            match q.with_predicates(&pairs[i].1) {
                Ok(query) => {
                    let ghost prev = matching(q@, ps.subrange(0, i as int), w);
                    proof {
                        assert(matching(q@, ps.subrange(0, i + 1), w) == prev.push(query@));
                        assert(prev.push(query@).drop_last() =~= prev);
                    }
                    out = insert_ranked(out, query);
                    count = count + 1;
                },
                Err(_) => {
                    assert(false);
                },
            }
        }
        i = i + 1;
    }
    assert(ps.subrange(0, i as int) =~= ps);
    if count == 0 {
        Err(SynthesisError::NoQueriesFound)
    } else {
        Ok(out)
    }
}

/// Every query of `s` ranks no worse than each later one.
pub open spec fn ranked(s: Seq<AstView<PredNode>>) -> bool {
    forall|i: int, j: int| 0 <= i < j < s.len() ==> rank(#[trigger] s[i]) <= rank(#[trigger] s[j])
}

/// Each query of `s` is one of `from`.
pub open spec fn drawn_from(s: Seq<AstView<PredNode>>, from: Seq<AstView<PredNode>>) -> bool {
    forall|i: int| 0 <= i < s.len() ==> exists|j: int| 0 <= j < from.len() && #[trigger] s[i] == from[j]
}

proof fn lemma_insert_ranked(s: Seq<AstView<PredNode>>, x: AstView<PredNode>)
    requires
        ranked(s),
    ensures
        ranked(insert_by_rank(s, x)),
        forall|i: int|
            0 <= i < insert_by_rank(s, x).len() ==> #[trigger] insert_by_rank(s, x)[i] == x || exists|j: int|
                0 <= j < s.len() && insert_by_rank(s, x)[i] == s[j],
    decreases s.len(),
{
    lemma_insert_len(s, x);
    let r = insert_by_rank(s, x);
    if s.len() == 0 {
    } else if rank(x) < rank(s[0]) {
        assert(r == seq![x] + s);
        assert forall|i: int, j: int| 0 <= i < j < r.len() implies rank(#[trigger] r[i]) <= rank(#[trigger] r[j]) by {
            if i == 0 {
                assert(r[j] == s[j - 1]);
                if j - 1 > 0 {
                    assert(rank(s[0]) <= rank(s[j - 1]));
                }
            } else {
                assert(r[i] == s[i - 1] && r[j] == s[j - 1]);
            }
        }
        assert forall|i: int| 0 <= i < r.len() implies #[trigger] r[i] == x || exists|j: int|
            0 <= j < s.len() && r[i] == s[j] by {
            if i > 0 {
                assert(r[i] == s[i - 1]);
            }
        }
    } else {
        let t = s.drop_first();
        assert(ranked(t)) by {
            assert forall|i: int, j: int| 0 <= i < j < t.len() implies rank(#[trigger] t[i]) <= rank(#[trigger] t[j]) by {
                assert(t[i] == s[i + 1] && t[j] == s[j + 1]);
            }
        }
        lemma_insert_ranked(t, x);
        let u = insert_by_rank(t, x);
        assert(r == seq![s[0]] + u);
        assert forall|i: int| 0 <= i < u.len() implies rank(s[0]) <= rank(#[trigger] u[i]) by {
            if u[i] != x {
                let j = choose|j: int| 0 <= j < t.len() && u[i] == t[j];
                assert(t[j] == s[j + 1]);
            }
        }
        assert forall|i: int, j: int| 0 <= i < j < r.len() implies rank(#[trigger] r[i]) <= rank(#[trigger] r[j]) by {
            assert(r[j] == u[j - 1]);
            if i > 0 {
                assert(r[i] == u[i - 1]);
            }
        }
        assert forall|i: int| 0 <= i < r.len() implies #[trigger] r[i] == x || exists|j: int|
            0 <= j < s.len() && r[i] == s[j] by {
            if i == 0 {
                assert(r[0] == s[0]);
            } else {
                assert(r[i] == u[i - 1]);
                if u[i - 1] != x {
                    let j = choose|j: int| 0 <= j < t.len() && u[i - 1] == t[j];
                    assert(t[j] == s[j + 1]);
                }
            }
        }
    }
}

/// Sorting by rank gives a ranked list of queries drawn from the input.
pub proof fn lemma_sort_by_rank(s: Seq<AstView<PredNode>>)
    ensures
        ranked(sort_by_rank(s)),
        drawn_from(sort_by_rank(s), s),
        sort_by_rank(s).len() == s.len(),
    decreases s.len(),
{
    lemma_sort_len(s);
    if s.len() > 0 {
        let p = s.drop_last();
        lemma_sort_by_rank(p);
        lemma_insert_ranked(sort_by_rank(p), s.last());
        let r = sort_by_rank(s);
        assert forall|i: int| 0 <= i < r.len() implies exists|j: int| 0 <= j < s.len() && #[trigger] r[i] == s[j] by {
            if r[i] == s.last() {
                assert(r[i] == s[s.len() - 1]);
            } else {
                let k = choose|k: int| 0 <= k < sort_by_rank(p).len() && r[i] == sort_by_rank(p)[k];
                let j = choose|j: int| 0 <= j < p.len() && sort_by_rank(p)[k] == p[j];
                assert(p[j] == s[j]);
            }
        }
    }
}

/// Each query that matching yields is `q` with the tuple of one of the pairs.
proof fn lemma_matching_members(q: AstView<()>, ps: Seq<Pair>, want: Seq<bool>)
    ensures
        forall|i: int|
            0 <= i < matching(q, ps, want).len() ==> exists|k: int|
                0 <= k < ps.len() && ps[k].0 == want && #[trigger] matching(q, ps, want)[i] == fill(
                    q,
                    ps[k].1,
                ),
    decreases ps.len(),
{
    if ps.len() > 0 {
        let p = ps.drop_last();
        lemma_matching_members(q, p, want);
        let m = matching(q, ps, want);
        assert forall|i: int| 0 <= i < m.len() implies exists|k: int|
            0 <= k < ps.len() && ps[k].0 == want && #[trigger] m[i] == fill(q, ps[k].1) by {
            if i < matching(q, p, want).len() {
                assert(m[i] == matching(q, p, want)[i]);
                let k = choose|k: int|
                    0 <= k < p.len() && p[k].0 == want && matching(q, p, want)[i] == fill(q, p[k].1);
                assert(p[k] == ps[k]);
            } else {
                assert(m[i] == fill(q, ps.last().1));
                assert(ps.last() == ps[ps.len() - 1]);
            }
        }
    }
}

/// `x` is skeleton `s` filled with the tuple of an outcome of the search over
/// the consistent relations `e` whose bit-vector is the target's.
pub open spec fn carves(s: AstView<()>, e: Evaluated, target: ConcTable, x: AstView<PredNode>) -> bool {
    &&& consistent(s, e)
    &&& exists|k: int|
        0 <= k < search(s, e).len() && search(s, e)[k].0 == target_bits(e.relation(), target) && x
            == fill(s, #[trigger] search(s, e)[k].1)
}

/// `x` carves the target out of skeleton `s` over some relations.
pub open spec fn carved(s: AstView<()>, target: ConcTable, x: AstView<PredNode>) -> bool {
    exists|e: Evaluated| carves(s, e, target, x)
}

/// Each query of `v` carves the target out of skeleton `s`.
pub open spec fn carved_from(s: AstView<()>, target: ConcTable, v: Seq<AstView<PredNode>>) -> bool {
    forall|i: int| 0 <= i < v.len() ==> #[trigger] carved(s, target, v[i])
}

/// `x` carves the target out of one of the skeletons `sks`.
pub open spec fn carved_by_some(sks: Seq<AstView<()>>, target: ConcTable, x: AstView<PredNode>) -> bool {
    exists|j: int| 0 <= j < sks.len() && #[trigger] carved(sks[j], target, x)
}

/// Each query of `v` carves the target out of one of the skeletons `sks`.
pub open spec fn from_skeletons(v: Seq<AstView<PredNode>>, sks: Seq<AstView<()>>, target: ConcTable) -> bool {
    forall|i: int| 0 <= i < v.len() ==> #[trigger] carved_by_some(sks, target, v[i])
}

/// Synthesizes the concrete queries with skeleton `q` whose rows, over the
/// database `conn`, are exactly the rows of `target`, best rank first. Fails
/// with `TooLarge` exactly where some node has more atoms than `MAX_ATOMS`,
/// with `RowCountMismatch` where the database's relations do not fit the
/// skeleton, and with `NoQueriesFound` where no tuple carves out the target.
pub fn synthesize(
    q: &ASTNode<()>,
    target: &ConcTable,
    constants: &Vec<isize>,
    max_predicate_depth: usize,
    conn: &rusqlite::Connection,
) -> (r: Result<Vec<ASTNode<PredNode>>, SynthesisError>)
    ensures
        !atoms_fit(q@, constants@.len()) <==> r matches Err(
            SynthesisError::BVDFS(BVDFSError::PredicateEnumeration(PredicateEnumerationError::TooLarge)),
        ),
        r is Err ==> r matches Err(
            SynthesisError::BVDFS(BVDFSError::PredicateEnumeration(PredicateEnumerationError::TooLarge)),
        ) || r matches Err(SynthesisError::BVDFS(BVDFSError::RowCountMismatch)) || r matches Err(
            SynthesisError::NoQueriesFound,
        ),
        r matches Err(SynthesisError::BVDFS(BVDFSError::RowCountMismatch)) ==> exists|e: Evaluated|
            built_from(q@, e, constants@, max_predicate_depth as nat) && !consistent(q@, e),
        r matches Ok(v) ==> exists|e: Evaluated|
            {
                &&& consistent(q@, e)
                &&& built_from(q@, e, constants@, max_predicate_depth as nat)
                &&& asts_view(v@) == sort_by_rank(
                    matching(q@, search(q@, e), target_bits(e.relation(), *target)),
                )
                &&& v@.len() > 0
            },
        r matches Ok(v) ==> ranked(asts_view(v@)) && well_filled(asts_view(v@)),
        r matches Ok(v) ==> carved_from(q@, *target, asts_view(v@)),
        r matches Err(SynthesisError::NoQueriesFound) ==> exists|e: Evaluated|
            {
                &&& consistent(q@, e)
                &&& built_from(q@, e, constants@, max_predicate_depth as nat)
                &&& matching(q@, search(q@, e), target_bits(e.relation(), *target)).len() == 0
            },
{
    let mut leaves: Vec<(String, ConcTable)> = Vec::new();
    let e = match crate::bvdfs::evaluate(q, constants, max_predicate_depth, &mut leaves, conn) {
        Ok(e) => e,
        Err(err) => return Err(SynthesisError::BVDFS(err)),
    };
    if !crate::bvdfs::is_consistent(q, &e) {
        return Err(SynthesisError::BVDFS(BVDFSError::RowCountMismatch));
    }
    let pairs = crate::bvdfs::bvdfs_over(q, &e);
    let root = match &e {
        Evaluated::Leaf { table } => table,
        Evaluated::Unary { table, .. } => table,
        Evaluated::Binary { table, .. } => table,
    };
    let want = root.subset_bitvec(target);
    proof {
        crate::bvdfs::lemma_search_lengths(q@, e);
        assert forall|k: int| 0 <= k < pairs@.len() implies (#[trigger] pairs@[k]).1@.len()
            == count_holes(q@) by {
            assert(pairs_view(pairs@)[k] == pair_view(pairs@[k]));
        }
    }
    let r = rank_matches(q, &pairs, &want);
    proof {
        let m = matching(q@, search(q@, e), target_bits(e.relation(), *target));
        lemma_sort_len(m);
        lemma_sort_by_rank(m);
        lemma_matching_members(q@, search(q@, e), target_bits(e.relation(), *target));
        if r is Ok {
            let v = r->Ok_0;
            assert(v@.len() == asts_view(v@).len());
            let sv = asts_view(v@);
            assert forall|i: int| 0 <= i < sv.len() implies exists|s: AstView<()>, t: Seq<PredNode>|
                #[trigger] sv[i] == fill(s, t) && t.len() == count_holes(s) by {
                let j = choose|j: int| 0 <= j < m.len() && sv[i] == m[j];
                let k = choose|k: int|
                    0 <= k < search(q@, e).len() && search(q@, e)[k].0 == target_bits(e.relation(), *target)
                        && m[j] == fill(q@, search(q@, e)[k].1);
                assert(search(q@, e)[k].1.len() == count_holes(q@));
            }
            assert forall|i: int| 0 <= i < sv.len() implies #[trigger] carved(q@, *target, sv[i]) by {
                let j = choose|j: int| 0 <= j < m.len() && sv[i] == m[j];
                let k = choose|k: int|
                    0 <= k < search(q@, e).len() && search(q@, e)[k].0 == target_bits(e.relation(), *target)
                        && m[j] == fill(q@, search(q@, e)[k].1);
                assert(carves(q@, e, *target, sv[i]));
                assert(carved(q@, *target, sv[i]));
            }
        }
    }
    r
}

/// Each query is some skeleton with one predicate bound to each of its holes.
pub open spec fn well_filled(s: Seq<AstView<PredNode>>) -> bool {
    forall|i: int|
        0 <= i < s.len() ==> exists|sk: AstView<()>, t: Seq<PredNode>|
            #[trigger] s[i] == fill(sk, t) && t.len() == count_holes(sk)
}

/// The queries of the successful results, in order.
pub open spec fn found(rs: Seq<Result<Vec<ASTNode<PredNode>>, SynthesisError>>) -> Seq<AstView<PredNode>>
    decreases rs.len(),
{
    if rs.len() == 0 {
        Seq::empty()
    } else {
        (match rs[0] {
            Ok(v) => asts_view(v@),
            Err(_) => Seq::empty(),
        }) + found(rs.drop_first())
    }
}

proof fn lemma_found_filled(rs: Seq<Result<Vec<ASTNode<PredNode>>, SynthesisError>>)
    requires
        forall|k: int| 0 <= k < rs.len() ==> (#[trigger] rs[k] matches Ok(v) ==> well_filled(asts_view(v@))),
    ensures
        well_filled(found(rs)),
    decreases rs.len(),
{
    if rs.len() > 0 {
        let rest = rs.drop_first();
        assert forall|k: int| 0 <= k < rest.len() implies (#[trigger] rest[k] matches Ok(v) ==> well_filled(asts_view(v@))) by {
            assert(rest[k] == rs[k + 1]);
        }
        lemma_found_filled(rest);
        let head = match rs[0] {
            Ok(v) => asts_view(v@),
            Err(_) => Seq::<AstView<PredNode>>::empty(),
        };
        assert(rs[0] matches Ok(v) ==> well_filled(asts_view(v@)));
        let f = found(rs);
        assert(f == head + found(rest));
        assert forall|i: int| 0 <= i < f.len() implies exists|sk: AstView<()>, t: Seq<PredNode>|
            #[trigger] f[i] == fill(sk, t) && t.len() == count_holes(sk) by {
            if i < head.len() {
                assert(f[i] == head[i]);
                match rs[0] {
                    Ok(v) => {
                        assert(rs[0] matches Ok(v) ==> well_filled(asts_view(v@)));
                        assert(well_filled(asts_view(v@)));
                        assert(head[i] == asts_view(v@)[i]);
                        let w = asts_view(v@)[i];
                        assert(exists|sk: AstView<()>, t: Seq<PredNode>|
                            w == fill(sk, t) && t.len() == count_holes(sk));
                    },
                    Err(_) => {},
                }
            } else {
                assert(f[i] == found(rest)[i - head.len()]);
                let w = found(rest)[i - head.len()];
                assert(exists|sk: AstView<()>, t: Seq<PredNode>|
                    w == fill(sk, t) && t.len() == count_holes(sk));
            }
        }
    }
}

proof fn lemma_found_from_skeletons(
    rs: Seq<Result<Vec<ASTNode<PredNode>>, SynthesisError>>,
    sks: Seq<AstView<()>>,
    target: ConcTable,
)
    requires
        forall|k: int|
            0 <= k < rs.len() ==> (#[trigger] rs[k] matches Ok(v) ==> from_skeletons(
                asts_view(v@),
                sks,
                target,
            )),
    ensures
        from_skeletons(found(rs), sks, target),
    decreases rs.len(),
{
    if rs.len() > 0 {
        let rest = rs.drop_first();
        assert forall|k: int| 0 <= k < rest.len() implies (#[trigger] rest[k] matches Ok(v) ==> from_skeletons(asts_view(v@), sks, target)) by {
            assert(rest[k] == rs[k + 1]);
        }
        lemma_found_from_skeletons(rest, sks, target);
        let head = match rs[0] {
            Ok(v) => asts_view(v@),
            Err(_) => Seq::<AstView<PredNode>>::empty(),
        };
        assert(rs[0] matches Ok(v) ==> from_skeletons(asts_view(v@), sks, target));
        let f = found(rs);
        assert(f == head + found(rest));
        assert forall|i: int| 0 <= i < f.len() implies #[trigger] carved_by_some(sks, target, f[i]) by {
            if i < head.len() {
                assert(f[i] == head[i]);
                match rs[0] {
                    Ok(v) => {
                        assert(from_skeletons(asts_view(v@), sks, target));
                        assert(head[i] == asts_view(v@)[i]);
                        let w = asts_view(v@)[i];
                        assert(carved_by_some(sks, target, w));
                    },
                    Err(_) => {},
                }
            } else {
                assert(f[i] == found(rest)[i - head.len()]);
                let w = found(rest)[i - head.len()];
                assert(from_skeletons(found(rest), sks, target));
                assert(found(rest)[i - head.len()] == w);
                assert(carved_by_some(sks, target, w));
            }
        }
    }
}

/// Merges the results of several skeletons and ranks all their queries
/// together, ties in the order of the results. Fails with `NoQueriesFound`
/// where no result holds a query.
pub fn collect_ranked(results: Vec<Result<Vec<ASTNode<PredNode>>, SynthesisError>>) -> (r: Result<
    Vec<ASTNode<PredNode>>,
    SynthesisError,
>)
    ensures
        found(results@).len() == 0 <==> r matches Err(SynthesisError::NoQueriesFound),
        r is Ok || r matches Err(SynthesisError::NoQueriesFound),
        r matches Ok(v) ==> asts_view(v@) == sort_by_rank(found(results@)),
{
    let ghost all_found = found(results@);
    let mut results = results;
    let mut all: Vec<ASTNode<PredNode>> = Vec::new();
    assert(asts_view(all@) =~= Seq::<AstView<PredNode>>::empty());
    while results.len() > 0
        invariant
            asts_view(all@) + found(results@) == all_found,
        decreases results.len(),
    {
        let ghost before = results@;
        let first = results.remove(0);
        assert(results@ =~= before.drop_first());
        let ghost a0 = asts_view(all@);
        match first {
            Ok(v) => {
                let mut v = v;
                let ghost vv = asts_view(v@);
                all.append(&mut v);
                assert(asts_view(all@) =~= a0 + vv);
                assert(a0 + vv + found(results@) =~= a0 + (vv + found(results@)));
            },
            Err(_) => {
                assert(found(before) =~= found(results@));
            },
        }
    }
    assert(asts_view(all@) + found(results@) =~= asts_view(all@));
    if all.len() == 0 {
        assert(all_found.len() == 0);
        Err(SynthesisError::NoQueriesFound)
    } else {
        Ok(rank_sort(all))
    }
}

/// The whole synthesis: loads the inputs into a fresh database, grows and
/// eliminates skeletons for `skeleton_depth` rounds, synthesizes predicates
/// for every skeleton that survives, and returns all queries found, ranked
/// together, best first.
pub fn synthesize_all(
    inputs: &Vec<ConcTable>,
    target: &ConcTable,
    constants: &Vec<isize>,
    skeleton_depth: i32,
    predicate_depth: usize,
) -> (r: Result<Vec<ASTNode<PredNode>>, SynthesisError>)
    ensures
        r matches Ok(v) ==> v@.len() > 0 && ranked(asts_view(v@)) && well_filled(asts_view(v@)),
        r matches Ok(v) ==> exists|sks: Seq<AstView<()>>|
            crate::bottomup::generated(sks, inputs@, *target, skeleton_depth as int)
                && from_skeletons(asts_view(v@), sks, *target),
        r is Ok || r matches Err(SynthesisError::NoQueriesFound) || r matches Err(
            SynthesisError::Database(_),
        ),
{
    let db = match crate::sql::create_table(inputs) {
        Ok(d) => d,
        Err(e) => return Err(SynthesisError::Database(e)),
    };
    let conn = db.connection();
    let mut copies: Vec<ConcTable> = Vec::new();
    let mut k: usize = 0;
    while k < inputs.len()
        invariant
            k <= inputs.len(),
            copies@.len() == k,
            forall|j: int|
                0 <= j < k ==> crate::bottomup::leaf_of(#[trigger] copies@[j])
                    == crate::bottomup::leaf_of(inputs@[j]),
        decreases inputs.len() - k,
    {
        copies.push(inputs[k].duplicate());
        k = k + 1;
    }
    assert(crate::bottomup::leaves(copies@) =~= crate::bottomup::leaves(inputs@));
    let ghost copied = copies@;
    let target_copy = target.duplicate();
    let ghost tc = target_copy;
    let skeletons = crate::bottomup::generate_abstract_queries(
        (copies, target_copy),
        skeleton_depth,
        conn,
    );
    let ghost sks = crate::bottomup::skels_view(skeletons@);
    proof {
        if skeleton_depth >= 1 {
            let outs = choose|outs: Seq<Seq<ConcTable>>|
                outs.len() == skeleton_depth && sks == crate::bottomup::rounds(
                    crate::bottomup::leaves(copied),
                    outs,
                    tc,
                    skeleton_depth as int,
                    skeleton_depth as nat,
                );
            crate::bottomup::lemma_rounds_same_target(
                crate::bottomup::leaves(inputs@),
                outs,
                tc,
                *target,
                skeleton_depth as int,
                skeleton_depth as nat,
            );
        }
        assert(crate::bottomup::generated(sks, inputs@, *target, skeleton_depth as int));
    }
    let mut results: Vec<Result<Vec<ASTNode<PredNode>>, SynthesisError>> = Vec::new();
    let mut i: usize = 0;
    while i < skeletons.len()
        invariant
            i <= skeletons.len(),
            sks == crate::bottomup::skels_view(skeletons@),
            forall|k: int|
                0 <= k < results@.len() ==> (#[trigger] results@[k] matches Ok(v) ==> well_filled(
                    asts_view(v@),
                )),
            forall|k: int|
                0 <= k < results@.len() ==> (#[trigger] results@[k] matches Ok(v) ==> from_skeletons(
                    asts_view(v@),
                    sks,
                    *target,
                )),
        decreases skeletons.len() - i,
    {
        let r = synthesize(&skeletons[i], target, constants, predicate_depth, conn);
        proof {
            if r is Ok {
                let v = r->Ok_0;
                assert(sks[i as int] == skeletons@[i as int]@);
                assert(carved_from(skeletons@[i as int]@, *target, asts_view(v@)));
                assert forall|m: int| 0 <= m < asts_view(v@).len() implies #[trigger] carved_by_some(sks, *target, asts_view(v@)[m]) by {
                    assert(carved(skeletons@[i as int]@, *target, asts_view(v@)[m]));
                    assert(carved(sks[i as int], *target, asts_view(v@)[m]));
                }
                assert(from_skeletons(asts_view(v@), sks, *target));
            }
        }
        assert(r matches Ok(v) ==> from_skeletons(asts_view(v@), sks, *target));
        let ghost before = results@;
        results.push(r);
        assert forall|k: int| 0 <= k < results@.len() implies (#[trigger] results@[k] matches Ok(v) ==> well_filled(asts_view(v@))) by {
            if k < before.len() {
                assert(results@[k] == before[k]);
            }
        }
        assert forall|k: int| 0 <= k < results@.len() implies (#[trigger] results@[k] matches Ok(v) ==> from_skeletons(asts_view(v@), sks, *target)) by {
            if k < before.len() {
                assert(results@[k] == before[k]);
            }
        }
        i = i + 1;
    }
    proof {
        lemma_found_filled(results@);
        lemma_found_from_skeletons(results@, sks, *target);
        lemma_sort_by_rank(found(results@));
    }
    let r = collect_ranked(results);
    proof {
        if r is Ok {
            let v = r->Ok_0;
            assert(v@.len() == asts_view(v@).len());
            let sv = asts_view(v@);
            let f = found(results@);
            assert forall|i: int| 0 <= i < sv.len() implies exists|sk: AstView<()>, t: Seq<PredNode>|
                #[trigger] sv[i] == fill(sk, t) && t.len() == count_holes(sk) by {
                let j = choose|j: int| 0 <= j < f.len() && sv[i] == f[j];
                assert(f[j] == f[j]);
            }
            assert forall|i: int| 0 <= i < sv.len() implies #[trigger] carved_by_some(sks, *target, sv[i]) by {
                let j = choose|j: int| 0 <= j < f.len() && sv[i] == f[j];
                assert(carved_by_some(sks, *target, f[j]));
            }
        }
    }
    r
}

/// Tries skeleton depths 1 to `max_skeleton_depth` in turn, each further depth
/// costing far more, and returns the queries of the first depth at which
/// `synthesize_all` finds any.
pub fn synthesize_upto(
    inputs: &Vec<ConcTable>,
    target: &ConcTable,
    constants: &Vec<isize>,
    max_skeleton_depth: i32,
    predicate_depth: usize,
) -> (r: Result<Vec<ASTNode<PredNode>>, SynthesisError>)
    ensures
        r matches Ok(v) ==> v@.len() > 0 && ranked(asts_view(v@)) && well_filled(asts_view(v@)),
        r matches Ok(v) ==> exists|d: int, sks: Seq<AstView<()>>|
            1 <= d <= max_skeleton_depth && crate::bottomup::generated(sks, inputs@, *target, d)
                && from_skeletons(asts_view(v@), sks, *target),
        r is Ok || r matches Err(SynthesisError::NoQueriesFound) || r matches Err(
            SynthesisError::Database(_),
        ),
{
    let mut depth: i32 = 1;
    while depth <= max_skeleton_depth
        invariant
            1 <= depth,
        decreases max_skeleton_depth as int + 1 - depth,
    {
        match synthesize_all(inputs, target, constants, depth, predicate_depth) {
            Ok(v) => {
                proof {
                    let sks = choose|sks: Seq<AstView<()>>|
                        crate::bottomup::generated(sks, inputs@, *target, depth as int)
                            && from_skeletons(asts_view(v@), sks, *target);
                    assert(1 <= depth <= max_skeleton_depth);
                }
                return Ok(v);
            },
            Err(SynthesisError::Database(e)) => return Err(SynthesisError::Database(e)),
            Err(_) => {},
        }
        if depth == i32::MAX {
            break;
        }
        depth = depth + 1;
    }
    Err(SynthesisError::NoQueriesFound)
}

} // verus!

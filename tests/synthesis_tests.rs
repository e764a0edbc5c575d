use reaper::bits;
use reaper::sql::{create_sql_query, create_table, eval};
use reaper::types::{ASTNode, ConcTable, ExprNode, Field, PredNode};
use reaper::{query_rank, rank_matches, rank_sort, synthesize, synthesize_all, SynthesisError};

fn strs(v: &[&str]) -> Vec<String> {
    v.iter().map(|s| String::from(*s)).collect()
}

fn field(table: &str, name: &str) -> Field {
    Field { name: String::from(name), table: String::from(table) }
}

fn rel(name: &str, cols: &[&str], values: Vec<Vec<isize>>) -> ConcTable {
    ConcTable { name: String::from(name), columns: strs(cols), values }
}

fn sorted(mut v: Vec<Vec<isize>>) -> Vec<Vec<isize>> {
    v.sort();
    v
}

/// Synthesizes, then runs the best query and compares its rows with the
/// target as a multiset; returns the best query's SQL.
fn synthesize_and_check(inputs: Vec<ConcTable>, target: ConcTable, constants: Vec<isize>) -> String {
    let queries = synthesize_all(&inputs, &target, &constants, 1, 3).unwrap();
    for w in queries.windows(2) {
        assert!(query_rank(&w[0]) <= query_rank(&w[1]));
    }
    let db = create_table(&inputs).unwrap();
    let conn = db.connection();
    let out = eval(&queries[0], &conn).unwrap();
    assert_eq!(sorted(out.values), sorted(target.values.clone()));
    create_sql_query(&queries[0])
}

#[test]
fn scenario_identity() {
    let t1 = rel("t1", &["a", "b"], vec![vec![1, 2], vec![3, 4]]);
    let sql = synthesize_and_check(vec![t1], rel("", &["a", "b"], vec![vec![1, 2], vec![3, 4]]), vec![]);
    assert_eq!(sql, "(SELECT a, b FROM (t1) WHERE 1)");
}

#[test]
fn scenario_filter() {
    let t1 = rel("t1", &["a", "b"], vec![vec![1, 2], vec![3, 4], vec![5, 6]]);
    let sql = synthesize_and_check(vec![t1], rel("", &["a", "b"], vec![vec![1, 2]]), vec![3]);
    assert_eq!(sql, "(SELECT a, b FROM (t1) WHERE ((t1.a) < (3)))");
}

#[test]
fn scenario_projection() {
    let t1 = rel("t1", &["a", "b"], vec![vec![1, 2], vec![3, 4]]);
    let sql = synthesize_and_check(vec![t1], rel("", &["a"], vec![vec![1], vec![3]]), vec![]);
    assert_eq!(sql, "(SELECT a FROM (t1) WHERE 1)");
}

#[test]
fn scenario_join() {
    let users = rel("users", &["id", "role_id"], vec![vec![1, 10], vec![2, 20]]);
    let roles = rel("roles", &["rid", "name_id"], vec![vec![10, 100], vec![20, 200]]);
    let target = rel("", &["id", "role_id", "rid", "name_id"], vec![vec![1, 10, 10, 100], vec![2, 20, 20, 200]]);
    let sql = synthesize_and_check(vec![users, roles], target, vec![]);
    assert!(sql.contains("JOIN"));
}

#[test]
fn scenario_equality_on_constant() {
    let t1 = rel("t1", &["a"], vec![vec![1], vec![2], vec![3]]);
    let sql = synthesize_and_check(vec![t1], rel("", &["a"], vec![vec![2]]), vec![2]);
    assert_eq!(sql, "(SELECT a FROM (t1) WHERE ((2) = (t1.a)))");
}

#[test]
fn scenario_no_solution() {
    let t1 = rel("t1", &["a"], vec![vec![1], vec![2]]);
    let r = synthesize_all(&vec![t1.clone()], &rel("", &["a"], vec![vec![3]]), &vec![], 2, 3);
    assert!(matches!(r, Err(SynthesisError::NoQueriesFound)));
    let r = synthesize_all(&vec![t1], &rel("", &["a"], vec![vec![3]]), &vec![], 0, 3);
    assert!(matches!(r, Err(SynthesisError::NoQueriesFound)));
}

#[test]
fn per_skeleton_driver() {
    let input = vec![rel("t1", &["a", "b"], vec![vec![1, 2], vec![3, 4], vec![5, 6]])];
    let db = create_table(&input).unwrap();
    let conn = db.connection();
    let leaf = Box::new(ASTNode::<()>::Table { name: String::from("t1"), columns: strs(&["a", "b"]) });
    let s = ASTNode::Select { fields: Some(vec![field("t1", "a"), field("t1", "b")]), table: leaf, pred: () };
    let found = synthesize(&s, &rel("", &["a", "b"], vec![vec![3, 4], vec![5, 6]]), &vec![3], 2, &conn).unwrap();
    for q in found.windows(2) {
        assert!(query_rank(&q[0]) <= query_rank(&q[1]));
    }
    let out = eval(&found[0], &conn).unwrap();
    assert_eq!(out.values, vec![vec![3, 4], vec![5, 6]]);
    // a target no row of the relation belongs to is carved out by `a < a`
    let empty = synthesize(&s, &rel("", &["a", "b"], vec![vec![9, 9]]), &vec![], 1, &conn).unwrap();
    assert!(eval(&empty[0], &conn).unwrap().values.is_empty());
}

#[test]
fn ranking_is_stable_by_height() {
    let t = || Box::new(ASTNode::<PredNode>::Table { name: String::from("t"), columns: strs(&["a"]) });
    let tall = ASTNode::Select {
        fields: None,
        table: t(),
        pred: PredNode::And { left: Box::new(PredNode::True), right: Box::new(PredNode::True) },
    };
    let low1 = ASTNode::Select { fields: None, table: t(), pred: PredNode::True };
    let mid = ASTNode::Select {
        fields: None,
        table: t(),
        pred: PredNode::Lt { left: ExprNode::Int { value: 1 }, right: ExprNode::Int { value: 2 } },
    };
    let low2 = ASTNode::Concat { table1: t(), table2: t() };
    assert_eq!(query_rank(&tall), 2);
    assert_eq!(query_rank(&mid), 2);
    assert_eq!(query_rank(&low1), 1);
    let sorted = rank_sort(vec![tall, low1, mid, low2]);
    let ranks: Vec<isize> = sorted.iter().map(query_rank).collect();
    assert_eq!(ranks, vec![1, 1, 2, 2]);
    assert!(matches!(sorted[0], ASTNode::Select { pred: PredNode::True, .. }));
    assert!(matches!(sorted[1], ASTNode::Concat { .. }));
    assert!(matches!(sorted[2], ASTNode::Select { pred: PredNode::And { .. }, .. }));
}

#[test]
fn subset_bitvector_marks_target_rows() {
    let r = rel("", &["a"], vec![vec![1], vec![2], vec![3]]);
    let target = rel("", &["a"], vec![vec![3], vec![1]]);
    let b = r.subset_bitvec(&target);
    let v: Vec<bool> = (0..bits::len(&b)).map(|i| bits::get(&b, i)).collect();
    assert_eq!(v, vec![true, false, true]);
}

#[test]
fn matching_requires_exact_bitvector() {
    let s = ASTNode::Select {
        fields: None,
        table: Box::new(ASTNode::<()>::Table { name: String::from("t"), columns: strs(&["a"]) }),
        pred: (),
    };
    let mut want = bits::repeat(false, 2);
    bits::set(&mut want, 0, true);
    let pairs = vec![(bits::repeat(true, 2), vec![PredNode::True])];
    assert!(matches!(rank_matches(&s, &pairs, &want), Err(SynthesisError::NoQueriesFound)));
    let pairs = vec![(bits::copy(&want), vec![PredNode::True])];
    assert_eq!(rank_matches(&s, &pairs, &want).unwrap().len(), 1);
}

#[test]
fn collect_ranked_merges_all_skeletons() {
    let t = || Box::new(ASTNode::<PredNode>::Table { name: String::from("t"), columns: strs(&["a"]) });
    let tall = ASTNode::Select {
        fields: None,
        table: t(),
        pred: PredNode::And { left: Box::new(PredNode::True), right: Box::new(PredNode::True) },
    };
    let low = ASTNode::Select { fields: None, table: t(), pred: PredNode::True };
    let merged = reaper::collect_ranked(vec![Ok(vec![tall]), Err(SynthesisError::NoQueriesFound), Ok(vec![low])]).unwrap();
    assert_eq!(merged.iter().map(query_rank).collect::<Vec<_>>(), vec![1, 2]);
    assert!(matches!(
        reaper::collect_ranked(vec![Err(SynthesisError::NoQueriesFound), Ok(vec![])]),
        Err(SynthesisError::NoQueriesFound)
    ));
}

#[test]
fn deepening_stops_at_first_depth_with_queries() {
    let t1 = rel("t1", &["a", "b"], vec![vec![1, 2], vec![3, 4], vec![5, 6]]);
    let target = rel("", &["a", "b"], vec![vec![1, 2]]);
    let queries = reaper::synthesize_upto(&vec![t1.clone()], &target, &vec![3], 3, 3).unwrap();
    assert_eq!(create_sql_query(&queries[0]), "(SELECT a, b FROM (t1) WHERE ((t1.a) < (3)))");
    let none = reaper::synthesize_upto(&vec![t1], &rel("", &["a", "b"], vec![vec![9, 9]]), &vec![], 1, 3);
    assert!(matches!(none, Err(SynthesisError::NoQueriesFound)));
}

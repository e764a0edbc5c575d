use reaper::bottomup::{
    elim_with, field_combinations_join, generate_abstract_queries, get_fields, grow, initial_set,
    is_equivalent, is_superset, powerset,
};
use reaper::sql::create_table;
use reaper::types::{ASTNode, ConcTable, Field};

fn strs(v: &[&str]) -> Vec<String> {
    v.iter().map(|s| String::from(*s)).collect()
}

fn field(table: &str, name: &str) -> Field {
    Field { name: String::from(name), table: String::from(table) }
}

fn rel(name: &str, cols: &[&str], values: Vec<Vec<isize>>) -> ConcTable {
    ConcTable { name: String::from(name), columns: strs(cols), values }
}

fn leaf(name: &str, cols: &[&str]) -> ASTNode<()> {
    ASTNode::Table { name: String::from(name), columns: strs(cols) }
}

#[test]
fn test_generate_queries_simple() {
    let input = vec![ConcTable {
        name: "t1".to_string(),
        columns: vec!["a".to_string(), "b".to_string()],
        values: vec![vec![1, 2], vec![3, 4]],
    }];
    let output = ConcTable {
        name: "".to_string(),
        columns: vec!["".to_string(), "".to_string()],
        values: vec![vec![1, 2], vec![3, 4]],
    };

    let db = create_table(&input).unwrap();
    let conn = db.connection();
    let queries = generate_abstract_queries((input, output), 2, &conn);
    for query in queries.iter() {
        println!("{:?}", query);
    }

    // The last round keeps only skeletons whose relation has every column of
    // the target; no relation here has a column named "".
    assert!(queries.is_empty());
}

#[test]
fn generation_keeps_target_supersets() {
    let input = vec![rel("t1", &["a", "b"], vec![vec![1, 2], vec![3, 4]])];
    let output = rel("", &["a", "b"], vec![vec![1, 2], vec![3, 4]]);
    let db = create_table(&input).unwrap();
    let conn = db.connection();
    let queries = generate_abstract_queries((input, output), 1, &conn);
    assert_eq!(
        queries,
        vec![ASTNode::Select { fields: Some(vec![field("t1", "a"), field("t1", "b")]), table: Box::new(leaf("t1", &["a", "b"])), pred: () }]
    );
}

#[test]
fn generation_with_no_round_gives_leaves() {
    let input = vec![rel("t1", &["a"], vec![vec![1]]), rel("t2", &["b"], vec![vec![2]])];
    let db = create_table(&input).unwrap();
    let conn = db.connection();
    let expected = initial_set(&(vec![rel("t1", &["a"], vec![]), rel("t2", &["b"], vec![])], rel("", &[], vec![])));
    let queries = generate_abstract_queries((input, rel("", &[], vec![])), 0, &conn);
    assert_eq!(queries, expected);
    assert_eq!(queries, vec![leaf("t1", &["a"]), leaf("t2", &["b"])]);
}

#[test]
fn get_fields_is_structural() {
    let q = ASTNode::Concat { table1: Box::new(leaf("t2", &["b", "a"])), table2: Box::new(leaf("t1", &["a", "c"])) };
    assert_eq!(get_fields(&q), vec![field("t2", "b"), field("t2", "a"), field("t1", "a"), field("t1", "c")]);
    let sel = ASTNode::Select { fields: Some(vec![field("t1", "c"), field("t2", "b")]), table: Box::new(q), pred: () };
    assert_eq!(get_fields(&sel), vec![field("t1", "c"), field("t2", "b")]);
    assert_eq!(get_fields(&leaf("t", &["z", "y"])), vec![field("t", "z"), field("t", "y")]);
}

#[test]
fn powerset_in_bit_order() {
    let s = vec![field("t", "a"), field("t", "b"), field("t", "c")];
    let p = powerset(&s);
    let names: Vec<Vec<String>> = p.iter().map(|v| v.iter().map(|f| f.name.clone()).collect()).collect();
    let expected: Vec<Vec<String>> = vec![
        strs(&["a"]),
        strs(&["b"]),
        strs(&["a", "b"]),
        strs(&["c"]),
        strs(&["a", "c"]),
        strs(&["b", "c"]),
        strs(&["a", "b", "c"]),
    ];
    assert_eq!(names, expected);
    assert!(powerset(&vec![]).is_empty());
}

#[test]
fn join_combinations_use_field_union() {
    let p = field_combinations_join(&leaf("t", &["a", "b"]), &leaf("t", &["b", "c"]));
    assert_eq!(p.len(), 7);
    assert_eq!(p[6], vec![field("t", "a"), field("t", "b"), field("t", "c")]);
}

#[test]
fn grow_order() {
    let g = grow(vec![leaf("t", &["a"])]);
    let sel = ASTNode::Select { fields: Some(vec![field("t", "a")]), table: Box::new(leaf("t", &["a"])), pred: () };
    let join = ASTNode::Join { fields: Some(vec![field("t", "a")]), table1: Box::new(leaf("t", &["a"])), table2: Box::new(leaf("t", &["a"])), pred: () };
    let concat = ASTNode::Concat { table1: Box::new(leaf("t", &["a"])), table2: Box::new(leaf("t", &["a"])) };
    assert_eq!(g, vec![leaf("t", &["a"]), sel, join, concat]);
    assert_eq!(grow(vec![leaf("t", &["a"]), leaf("u", &["b"])]).len(), 2 * (1 + 1) + 2 * (1 + 3 + 1) + 2);
}

#[test]
fn superset_check() {
    let r = rel("", &["a", "b"], vec![vec![1, 2], vec![3, 4]]);
    assert!(is_superset(&r, &rel("", &["b"], vec![])));
    assert!(is_superset(&r, &rel("", &["a", "b"], vec![vec![3, 4]])));
    assert!(!is_superset(&r, &rel("", &["c"], vec![])));
    assert!(!is_superset(&r, &rel("", &["a"], vec![vec![3]])));
}

#[test]
fn equivalence_ignores_row_order() {
    let a = rel("x", &["a"], vec![vec![1], vec![2], vec![2]]);
    let b = rel("y", &["a"], vec![vec![2], vec![1], vec![2]]);
    let c = rel("y", &["a"], vec![vec![2], vec![1], vec![1]]);
    assert!(is_equivalent(&a, &b));
    assert!(!is_equivalent(&a, &c));
    assert!(!is_equivalent(&a, &rel("x", &["b"], vec![vec![1], vec![2], vec![2]])));
}

#[test]
fn elimination_is_idempotent() {
    let qs = vec![leaf("t1", &["a"]), leaf("t2", &["a"]), leaf("t3", &["a"]), leaf("t4", &["a"])];
    let outs = vec![
        rel("", &["a"], vec![vec![1], vec![2]]),
        rel("", &["a"], vec![vec![2], vec![1]]),
        rel("", &["a"], vec![vec![3]]),
        rel("", &["a"], vec![vec![1], vec![2]]),
    ];
    let target = rel("", &["a"], vec![vec![1]]);
    let once = elim_with(&qs, &outs, &target, false);
    assert_eq!(once, vec![leaf("t1", &["a"]), leaf("t3", &["a"])]);
    let kept_outs = vec![outs[0].clone(), outs[2].clone()];
    let twice = elim_with(&once, &kept_outs, &target, false);
    assert_eq!(twice, once);
    let last = elim_with(&qs, &outs, &target, true);
    assert_eq!(last, vec![leaf("t1", &["a"])]);
}

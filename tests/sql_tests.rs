use reaper::sql::{create_sql_query, create_statement, create_table, eval, eval_abstract, insert_statement, make_dummy_table};
use reaper::types::{ASTNode, ConcTable, ExprNode, Field, PredNode};

fn strs(v: &[&str]) -> Vec<String> {
    v.iter().map(|s| String::from(*s)).collect()
}

fn field(table: &str, name: &str) -> Field {
    Field { name: String::from(name), table: String::from(table) }
}

#[test]
fn test_create_table() {
    let example_input = vec![
        ConcTable {
            name: String::from("t1"),
            columns: vec![String::from("a"), String::from("b")],
            values: vec![vec![1, 2], vec![3, 4], vec![5, 6]],
        },
        ConcTable {
            name: String::from("t2"),
            columns: vec![String::from("a"), String::from("b")],
            values: vec![vec![1, 2], vec![3, 4]],
        },
    ];

    let db = create_table(&example_input).unwrap();
    let conn = db.connection();
    let mut stmt = conn.prepare("SELECT * FROM t1;").unwrap();
    let mut rows = stmt.query([]).unwrap();
    let row = rows.next().unwrap().unwrap();
    assert_eq!(row.get::<_, isize>(0), Ok(1));
    assert_eq!(row.get::<_, isize>(1), Ok(2));
    let row = rows.next().unwrap().unwrap();
    assert_eq!(row.get::<_, isize>(0), Ok(3));
    assert_eq!(row.get::<_, isize>(1), Ok(4));

    let mut stmt = conn.prepare("SELECT * FROM t2;").unwrap();
    let mut rows = stmt.query([]).unwrap();
    let row = rows.next().unwrap().unwrap();
    assert_eq!(row.get::<_, isize>(0), Ok(1));
    assert_eq!(row.get::<_, isize>(1), Ok(2));
    let row = rows.next().unwrap().unwrap();
    assert_eq!(row.get::<_, isize>(0), Ok(3));
    assert_eq!(row.get::<_, isize>(1), Ok(4));
}

#[test]
fn test_create_basic_sql_query() {
    let query = ASTNode::Select {
        fields: None,
        table: Box::new(ASTNode::Table {
            name: String::from("t1"),
            columns: vec![String::from("a"), String::from("b")],
        }),
        pred: PredNode::True,
    };

    let _expected = String::from("SELECT * FROM t1 WHERE true");
    let _sql = create_sql_query(&query);
}

fn users_select(role: isize) -> ASTNode<PredNode> {
    ASTNode::Select {
        fields: Some(vec![field("users", "id"), field("users", "role_id")]),
        table: Box::new(ASTNode::Table {
            name: String::from("users"),
            columns: vec![String::from("id"), String::from("role_id")],
        }),
        pred: PredNode::And {
            left: Box::new(PredNode::Lt {
                left: ExprNode::Field(field("users", "id")),
                right: ExprNode::Int { value: 10 },
            }),
            right: Box::new(PredNode::Eq {
                left: ExprNode::Field(field("users", "role_id")),
                right: ExprNode::Int { value: role },
            }),
        },
    }
}

#[test]
fn test_create_large_sql_query() {
    let query = ASTNode::Join {
        fields: None,
        table1: Box::new(users_select(1)),
        table2: Box::new(users_select(2)),
        pred: PredNode::Eq {
            left: ExprNode::Field(field("users", "id")),
            right: ExprNode::Field(field("users", "id")),
        },
    };

    assert_eq!(
        create_sql_query(&query),
        "(SELECT * FROM (SELECT id, role_id FROM (users) WHERE (((users.id) < (10)) AND ((users.role_id) = (1)))) JOIN (SELECT id, role_id FROM (users) WHERE (((users.id) < (10)) AND ((users.role_id) = (2)))) ON ((users.id) = (users.id)))"
    );
}

#[test]
fn test_eval() {
    let example_input = vec![
        ConcTable {
            name: String::from("t1"),
            columns: vec![String::from("a"), String::from("b")],
            values: vec![vec![1, 2], vec![3, 4]],
        },
        ConcTable {
            name: String::from("t2"),
            columns: vec![String::from("a"), String::from("b")],
            values: vec![vec![1, 2], vec![5, 6]],
        },
    ];

    let expected_output = ConcTable {
        name: String::from(""),
        columns: vec![String::from("a"), String::from("b")],
        values: vec![vec![1, 2], vec![3, 4]],
    };

    let query = ASTNode::Select {
        fields: None,
        table: Box::new(ASTNode::Table {
            name: String::from("t1"),
            columns: vec![String::from("a"), String::from("b")],
        }),
        pred: PredNode::True,
    };

    let db = create_table(&example_input).unwrap();
    let conn = db.connection();
    let table = eval(&query, &conn).unwrap();
    assert_eq!(table, expected_output);
}

#[test]
fn rendering_of_concat_and_negative_literal() {
    let t = |n: &str| Box::new(ASTNode::<PredNode>::Table { name: String::from(n), columns: strs(&["a"]) });
    let q = ASTNode::Select {
        fields: Some(vec![field("t1", "a"), field("t2", "a")]),
        table: Box::new(ASTNode::Concat { table1: t("t1"), table2: t("t2") }),
        pred: PredNode::Lt { left: ExprNode::Int { value: -12 }, right: ExprNode::Field(field("t1", "a")) },
    };
    assert_eq!(create_sql_query(&q), "(SELECT a, a FROM ((t1), (t2)) WHERE ((-12) < (t1.a)))");
}

#[test]
fn create_and_insert_statements() {
    let t = ConcTable { name: String::from("t1"), columns: strs(&["a", "b", "c"]), values: vec![] };
    assert_eq!(create_statement(&t), "CREATE TABLE t1 (a INTEGER, b INTEGER, c INTEGER);");
    assert_eq!(insert_statement(&t), "INSERT INTO t1 VALUES (?, ?, ?);");
}

#[test]
fn eval_filters_rows() {
    let input = vec![ConcTable { name: String::from("t1"), columns: strs(&["a", "b"]), values: vec![vec![1, 2], vec![3, 4], vec![5, 6]] }];
    let db = create_table(&input).unwrap();
    let conn = db.connection();
    let q = ASTNode::Select {
        fields: Some(vec![field("t1", "b")]),
        table: Box::new(ASTNode::Table { name: String::from("t1"), columns: strs(&["a", "b"]) }),
        pred: PredNode::Lt { left: ExprNode::Field(field("t1", "a")), right: ExprNode::Int { value: 4 } },
    };
    let t = eval(&q, &conn).unwrap();
    assert_eq!(t.columns, strs(&["b"]));
    assert_eq!(t.values, vec![vec![2], vec![4]]);
}

#[test]
fn ambiguous_join_gives_dummy_relation() {
    let input = vec![ConcTable { name: String::from("t1"), columns: strs(&["a"]), values: vec![vec![1], vec![2]] }];
    let db = create_table(&input).unwrap();
    let conn = db.connection();
    let leaf = || Box::new(ASTNode::<()>::Table { name: String::from("t1"), columns: strs(&["a"]) });
    let q = ASTNode::Join { fields: Some(vec![field("t1", "a")]), table1: leaf(), table2: leaf(), pred: () };
    let t = eval_abstract(&q, &conn).unwrap();
    assert_eq!(t.values.len(), 0);
    assert_eq!(t.columns, strs(&["a"]));
    assert_eq!(t, make_dummy_table(&q));
}

#[test]
fn dummy_table_columns_follow_structure() {
    let leaf = |n: &str, c: &[&str]| Box::new(ASTNode::<()>::Table { name: String::from(n), columns: strs(c) });
    let q = ASTNode::Concat {
        table1: Box::new(ASTNode::Select { fields: None, table: leaf("t1", &["a", "b"]), pred: () }),
        table2: Box::new(ASTNode::Join { fields: None, table1: leaf("t2", &["c"]), table2: leaf("t3", &["d"]), pred: () }),
    };
    let d = make_dummy_table(&q);
    assert_eq!(d.name, "");
    assert_eq!(d.columns, strs(&["a", "b", "c", "d"]));
    assert!(d.values.is_empty());
}

#[test]
fn eval_abstract_fills_true() {
    let input = vec![ConcTable { name: String::from("t1"), columns: strs(&["a", "b"]), values: vec![vec![1, 2], vec![3, 4]] }];
    let db = create_table(&input).unwrap();
    let conn = db.connection();
    let q = ASTNode::Select {
        fields: None,
        table: Box::new(ASTNode::Table { name: String::from("t1"), columns: strs(&["a", "b"]) }),
        pred: (),
    };
    let t = eval_abstract(&q, &conn).unwrap();
    assert_eq!(t.values, vec![vec![1, 2], vec![3, 4]]);
    assert_eq!(t.name, "");
}

#[test]
fn setup_statements_follow_the_inputs() {
    let input = vec![
        ConcTable { name: String::from("t1"), columns: strs(&["a", "b"]), values: vec![vec![1, 2], vec![3, 4]] },
        ConcTable { name: String::from("t2"), columns: strs(&["c"]), values: vec![vec![5]] },
    ];
    let plan = reaper::sql::setup_statements(&input);
    assert_eq!(
        plan,
        vec![
            (String::from("CREATE TABLE t1 (a INTEGER, b INTEGER);"), vec![]),
            (String::from("INSERT INTO t1 VALUES (?, ?);"), vec![1, 2]),
            (String::from("INSERT INTO t1 VALUES (?, ?);"), vec![3, 4]),
            (String::from("CREATE TABLE t2 (c INTEGER);"), vec![]),
            (String::from("INSERT INTO t2 VALUES (?);"), vec![5]),
        ]
    );
}

#[test]
fn or_dummy_keeps_answers_and_replaces_failures() {
    let q = ASTNode::<()>::Table { name: String::from("t1"), columns: strs(&["a"]) };
    let answer = ConcTable { name: String::new(), columns: strs(&["x"]), values: vec![vec![7]] };
    assert_eq!(reaper::sql::or_dummy::<()>(Ok(answer.clone()), &q), answer);
    let d = reaper::sql::or_dummy::<()>(Err(()), &q);
    assert_eq!(d.columns, strs(&["a"]));
    assert!(d.values.is_empty());
}

#[test]
fn decimal_text_of_integers() {
    assert_eq!(reaper::sql::int_text(0), "0");
    assert_eq!(reaper::sql::int_text(-12), "-12");
    assert_eq!(reaper::sql::int_text(1090), "1090");
    assert_eq!(reaper::sql::int_text(isize::MIN), isize::MIN.to_string());
    assert_eq!(reaper::sql::int_text(isize::MAX), isize::MAX.to_string());
}

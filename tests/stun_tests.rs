use reaper::sql::{create_table, eval};
use reaper::stun::{
    base_exprs, base_preds, grow, run_unless_stopped, synthesize_pred, Environment, InvalidQueryError,
    PredicateSynthesisError,
};
use reaper::types::ASTNode;
use reaper::types::{ConcTable, ExprNode, Field, PredNode};
use std::sync::atomic::AtomicBool;

fn field(table: &str, name: &str) -> Field {
    Field { name: String::from(name), table: String::from(table) }
}

fn env_ab() -> Environment {
    Environment::from_pairs(vec![(String::from("a"), 1), (String::from("b"), 2)])
}

#[test]
fn predicate_equality() {
    let environment = env_ab();
    let node = PredNode::Eq {
        left: ExprNode::Field(field("t", "a")),
        right: ExprNode::Int { value: 1 },
    };
    assert!(node.eval(&environment))
}

#[test]
fn predicate_inequality() {
    let environment = env_ab();
    let node = PredNode::Eq {
        left: ExprNode::Field(field("t", "a")),
        right: ExprNode::Field(field("t", "b")),
    };
    assert!(!node.eval(&environment))
}

#[test]
fn predicate_comparison() {
    let environment = env_ab();
    let node = PredNode::Lt {
        left: ExprNode::Field(field("t", "a")),
        right: ExprNode::Field(field("t", "b")),
    };
    assert!(node.eval(&environment))
}

#[test]
fn base_preds_match() {
    let base_preds = base_preds(&vec![field("t1", "hello"), field("t2", "world")], &vec![1, -1]);
    let exprs = base_exprs(&vec![field("t1", "hello"), field("t2", "world")], &vec![1, -1]);
    // True, then Eq and Lt of each expression with itself and every later one.
    assert_eq!(base_preds.len(), 1 + 2 * (4 + 3 + 2 + 1));
    assert_eq!(base_preds[0], PredNode::True);
    assert_eq!(
        base_preds[1],
        PredNode::Eq { left: ExprNode::Field(field("t1", "hello")), right: ExprNode::Field(field("t1", "hello")) }
    );
    assert_eq!(
        base_preds[4],
        PredNode::Lt { left: ExprNode::Field(field("t1", "hello")), right: ExprNode::Field(field("t2", "world")) }
    );
    assert_eq!(
        base_preds[20],
        PredNode::Lt { left: ExprNode::Int { value: -1 }, right: ExprNode::Int { value: -1 } }
    );
    assert_eq!(exprs[2], ExprNode::Int { value: 1 });
}

#[test]
fn growing_preds_match() {
    let base_preds = vec![PredNode::Lt {
        left: ExprNode::Field(field("t", "hello")),
        right: ExprNode::Field(field("t", "world")),
    }];
    let grow_with = vec![PredNode::Lt {
        left: ExprNode::Int { value: 1 },
        right: ExprNode::Int { value: 2 },
    }];
    let grown = grow(&grow_with, &base_preds);
    let w = PredNode::Lt { left: ExprNode::Int { value: 1 }, right: ExprNode::Int { value: 2 } };
    let b = PredNode::Lt {
        left: ExprNode::Field(field("t", "hello")),
        right: ExprNode::Field(field("t", "world")),
    };
    let and = |l: &PredNode, r: &PredNode| PredNode::And {
        left: Box::new(l.duplicate()),
        right: Box::new(r.duplicate()),
    };
    assert_eq!(
        grown,
        vec![
            and(&w, &w),
            and(&w, &b),
            and(&w, &PredNode::True),
            and(&b, &w),
            and(&b, &b),
            and(&b, &PredNode::True),
        ]
    );
}

#[test]
fn qualified_environment_from_row() {
    let t = ConcTable {
        name: String::from("t1"),
        columns: vec![String::from("a"), String::from("b")],
        values: vec![vec![1, 2], vec![3, 4]],
    };
    let env = Environment::from_row(&t, 1);
    assert_eq!(env.pairs, vec![(String::from("t1.a"), 3), (String::from("t1.b"), 4)]);
}

#[test]
fn and_predicate_and_heights() {
    let env = env_ab();
    let lt = PredNode::Lt { left: ExprNode::Field(field("t", "a")), right: ExprNode::Int { value: 2 } };
    let eq = PredNode::Eq { left: ExprNode::Field(field("t", "b")), right: ExprNode::Int { value: 2 } };
    let both = PredNode::And { left: Box::new(lt), right: Box::new(eq) };
    assert!(both.eval(&env));
    assert_eq!(PredNode::True.height(), 1);
    assert_eq!(both.height(), 3);
    assert_eq!(ExprNode::Int { value: 7 }.height(), 1);
}

#[test]
fn run_unless_stopped_respects_the_signal() {
    let go = AtomicBool::new(false);
    let stop = AtomicBool::new(true);
    assert_eq!(run_unless_stopped(|| 41 + 1, &go), Some(42));
    assert_eq!(run_unless_stopped(|| 41 + 1, &stop), None);
}

#[test]
fn synthesize_pred_finds_the_filter() {
    let t1 = ConcTable {
        name: String::from("t1"),
        columns: vec![String::from("a"), String::from("b")],
        values: vec![vec![1, 2], vec![3, 4], vec![5, 6]],
    };
    let db = create_table(&vec![t1]).unwrap();
    let conn = db.connection();
    let leaf = || Box::new(ASTNode::<()>::Table { name: String::from("t1"), columns: vec![String::from("a"), String::from("b")] });
    let s = ASTNode::Select { fields: Some(vec![field("t1", "a"), field("t1", "b")]), table: leaf(), pred: () };
    let target = ConcTable { name: String::new(), columns: vec![String::from("a"), String::from("b")], values: vec![vec![1, 2]] };
    let found = synthesize_pred(&s, &target, conn, &vec![field("t1", "a"), field("t1", "b")], &vec![3], 2).unwrap();
    assert!(!found.is_empty());
    for w in found.windows(2) {
        assert!(w[0].height() <= w[1].height());
    }
    for p in found.iter() {
        let q = s.with_predicates(&vec![p.duplicate()]).unwrap();
        assert_eq!(eval(&q, conn).unwrap().values, vec![vec![1, 2]]);
    }
    // with no level to search, nothing is found
    assert!(synthesize_pred(&s, &target, conn, &vec![field("t1", "a")], &vec![3], 1).unwrap().is_empty());
    let bare = ASTNode::<()>::Table { name: String::from("t1"), columns: vec![String::from("a")] };
    assert!(matches!(
        synthesize_pred(&bare, &target, conn, &vec![], &vec![], 2),
        Err(PredicateSynthesisError::InvalidQuery(InvalidQueryError::TooFewPredicates))
    ));
}

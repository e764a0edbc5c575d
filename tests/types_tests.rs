use reaper::stun::InvalidQueryError;
use reaper::types::{ASTNode, ExprNode, Field, PredNode};

#[test]
fn it_works() {
    let result = 4;
    assert_eq!(result, 4);
}

fn field(table: &str, name: &str) -> Field {
    Field { name: String::from(name), table: String::from(table) }
}

fn table(name: &str, cols: &[&str]) -> ASTNode<()> {
    ASTNode::Table { name: String::from(name), columns: cols.iter().map(|c| String::from(*c)).collect() }
}

fn lt(name: &str, v: isize) -> PredNode {
    PredNode::Lt { left: ExprNode::Field(field("t1", name)), right: ExprNode::Int { value: v } }
}

/// Join(Select(t1), Concat(t1, Select(t1))): holes in pre-order are the
/// join's, the left select's, then the right select's.
fn skeleton() -> ASTNode<()> {
    ASTNode::Join {
        fields: None,
        table1: Box::new(ASTNode::Select { fields: None, table: Box::new(table("t1", &["a"])), pred: () }),
        table2: Box::new(ASTNode::Concat {
            table1: Box::new(table("t1", &["a"])),
            table2: Box::new(ASTNode::Select { fields: None, table: Box::new(table("t1", &["a"])), pred: () }),
        }),
        pred: (),
    }
}

#[test]
fn with_predicates_binds_in_pre_order() {
    let s = skeleton();
    assert_eq!(s.num_holes(), 3);
    let q = s.with_predicates(&vec![lt("a", 1), lt("a", 2), lt("a", 3)]).unwrap();
    match q {
        ASTNode::Join { table1, table2, pred, .. } => {
            assert_eq!(pred, lt("a", 1));
            match *table1 {
                ASTNode::Select { pred, .. } => assert_eq!(pred, lt("a", 2)),
                _ => panic!("expected a selection"),
            }
            match *table2 {
                ASTNode::Concat { table2, .. } => match *table2 {
                    ASTNode::Select { pred, .. } => assert_eq!(pred, lt("a", 3)),
                    _ => panic!("expected a selection"),
                },
                _ => panic!("expected a concatenation"),
            }
        }
        _ => panic!("expected a join"),
    }
}

#[test]
fn with_predicates_wrong_length() {
    let s = skeleton();
    assert_eq!(s.with_predicates(&vec![lt("a", 1)]), Err(InvalidQueryError::TooFewPredicates));
    assert_eq!(
        s.with_predicates(&vec![lt("a", 1), lt("a", 2), lt("a", 3), lt("a", 4)]),
        Err(InvalidQueryError::TooManyPredicates(4))
    );
    assert_eq!(table("t1", &["a"]).with_predicates(&vec![]).unwrap(), table_concrete());
}

fn table_concrete() -> ASTNode<PredNode> {
    ASTNode::Table { name: String::from("t1"), columns: vec![String::from("a")] }
}

#[test]
fn height_dominates_children_and_hole_count() {
    let q = skeleton().with_predicates(&vec![
        PredNode::True,
        PredNode::And { left: Box::new(lt("a", 1)), right: Box::new(lt("a", 2)) },
        lt("a", 3),
    ]).unwrap();
    assert_eq!(q.height(), 3);
    match &q {
        ASTNode::Join { table1, table2, .. } => {
            assert!(q.height() >= table1.height());
            assert!(q.height() >= table2.height());
            assert_eq!(table2.height(), 2);
        }
        _ => panic!("expected a join"),
    }
    assert_eq!(table("t", &["x"]).num_holes(), 0);
}

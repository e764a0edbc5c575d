use reaper::bits;
use reaper::bvdfs::{bvdfs, cross};
use reaper::enum_predicates::{enum_compound_pred, enum_primitive_pred, group_predicates, predicate_vector};
use reaper::sql::{create_table, eval, eval_abstract};
use reaper::types::{ASTNode, ConcTable, ExprNode, Field, PredNode};

fn strs(v: &[&str]) -> Vec<String> {
    v.iter().map(|s| String::from(*s)).collect()
}

fn field(table: &str, name: &str) -> Field {
    Field { name: String::from(name), table: String::from(table) }
}

fn rel(name: &str, cols: &[&str], values: Vec<Vec<isize>>) -> ConcTable {
    ConcTable { name: String::from(name), columns: strs(cols), values }
}

fn to_bools(b: &bits::Bits) -> Vec<bool> {
    (0..bits::len(b)).map(|i| bits::get(b, i)).collect()
}

fn from_bools(v: &[bool]) -> bits::Bits {
    let mut b = bits::repeat(false, v.len());
    for (i, x) in v.iter().enumerate() {
        bits::set(&mut b, i, *x);
    }
    b
}

#[test]
fn cross_is_row_major() {
    let u = from_bools(&[true, false, true]);
    let v = from_bools(&[true, true]);
    assert_eq!(to_bools(&cross(&u, &v)), vec![true, true, false, false, true, true]);
    let w = from_bools(&[false, true]);
    assert_eq!(to_bools(&cross(&u, &w)), vec![false, true, false, false, false, true]);
    assert_eq!(bits::len(&cross(&u, &from_bools(&[]))), 0);
}

#[test]
fn bit_operations() {
    let a = from_bools(&[true, true, false]);
    let b = from_bools(&[true, false]);
    assert_eq!(to_bools(&bits::and(bits::copy(&a), &b)), vec![true, false, false]);
    assert!(bits::equal(&a, &from_bools(&[true, true, false])));
    assert!(!bits::equal(&a, &b));
    let mut c = bits::copy(&b);
    let mut d = from_bools(&[true]);
    bits::append(&mut c, &mut d);
    assert_eq!(to_bools(&c), vec![true, false, true]);
}

#[test]
fn predicate_vector_over_rows() {
    let t = rel("", &["a", "b"], vec![vec![1, 2], vec![3, 4], vec![5, 6]]);
    let lt = PredNode::Lt { left: ExprNode::Field(field("t1", "a")), right: ExprNode::Int { value: 3 } };
    assert_eq!(to_bools(&predicate_vector(&t, &lt)), vec![true, false, false]);
    let missing = PredNode::Eq { left: ExprNode::Field(field("t1", "z")), right: ExprNode::Int { value: 3 } };
    assert_eq!(to_bools(&predicate_vector(&t, &missing)), vec![false, false, false]);
    assert_eq!(to_bools(&predicate_vector(&t, &PredNode::True)), vec![true, true, true]);
}

#[test]
fn primitive_and_compound_predicates() {
    let p = enum_primitive_pred(&vec![7], &vec![field("t", "a")]);
    assert_eq!(p.len(), 1 + 2 * 4);
    assert_eq!(p[0], PredNode::True);
    assert_eq!(p[1], PredNode::Eq { left: ExprNode::Int { value: 7 }, right: ExprNode::Int { value: 7 } });
    assert_eq!(p[6], PredNode::Lt { left: ExprNode::Field(field("t", "a")), right: ExprNode::Int { value: 7 } });
    assert_eq!(enum_primitive_pred(&vec![], &vec![]), vec![PredNode::True]);
    let c = enum_compound_pred(&vec![PredNode::True, p[1].duplicate()]);
    assert_eq!(c.len(), 4);
    assert_eq!(c[1], PredNode::And { left: Box::new(PredNode::True), right: Box::new(p[1].duplicate()) });
}

#[test]
fn grouping_by_bitvector() {
    let t = rel("", &["a"], vec![vec![1], vec![2], vec![3]]);
    let classes = group_predicates(&t, &vec![field("t1", "a")], &vec![2], 1);
    // keys are distinct, every member has its class's bit-vector
    for (i, (key, members)) in classes.iter().enumerate() {
        assert!(!members.is_empty());
        for m in members {
            assert!(bits::equal(&predicate_vector(&t, m), key));
        }
        for (other, _) in classes.iter().skip(i + 1) {
            assert!(!bits::equal(key, other));
        }
    }
    // Eq(2, a) and Eq(a, 2) share a class; Lt(a, 2) does not
    let eq1 = PredNode::Eq { left: ExprNode::Int { value: 2 }, right: ExprNode::Field(field("t1", "a")) };
    let eq2 = PredNode::Eq { left: ExprNode::Field(field("t1", "a")), right: ExprNode::Int { value: 2 } };
    let lt = PredNode::Lt { left: ExprNode::Field(field("t1", "a")), right: ExprNode::Int { value: 2 } };
    let class_of = |p: &PredNode| classes.iter().position(|(_, ms)| ms.contains(p)).unwrap();
    assert_eq!(class_of(&eq1), class_of(&eq2));
    assert_ne!(class_of(&eq1), class_of(&lt));
    assert_eq!(classes[0].1[0], PredNode::True);
    let deeper = group_predicates(&t, &vec![field("t1", "a")], &vec![2], 2);
    assert!(deeper.len() >= classes.len());
}

#[test]
fn bvdfs_lengths_and_emission() {
    let input = vec![rel("t1", &["a", "b"], vec![vec![1, 2], vec![3, 4], vec![5, 6]])];
    let db = create_table(&input).unwrap();
    let conn = db.connection();
    let leaf = Box::new(ASTNode::<()>::Table { name: String::from("t1"), columns: strs(&["a", "b"]) });
    let s = ASTNode::Select { fields: Some(vec![field("t1", "a"), field("t1", "b")]), table: leaf, pred: () };
    let rows = eval_abstract(&s, &conn).unwrap();
    let mut leaves = Vec::new();
    let pairs = bvdfs(&s, &vec![3], 2, &mut leaves, &conn).unwrap();
    // the leaf's relation was evaluated once and kept under its name
    assert_eq!(leaves.len(), 1);
    assert_eq!(leaves[0].0, "t1");
    assert_eq!(leaves[0].1.values.len(), 3);
    assert!(!pairs.is_empty());
    for (bv, tup) in pairs.iter() {
        assert_eq!(bits::len(bv), rows.values.len());
        assert_eq!(tup.len(), s.num_holes());
        // the concrete query yields exactly the rows the bit-vector selects
        let q = s.with_predicates(tup).unwrap();
        let out = eval(&q, &conn).unwrap();
        let selected: Vec<Vec<isize>> = rows.values.iter().enumerate().filter(|(i, _)| bits::get(bv, *i)).map(|(_, r)| r.clone()).collect();
        assert_eq!(out.values, selected);
    }
}

#[test]
fn bvdfs_join_uses_products() {
    let input = vec![
        rel("users", &["id", "role_id"], vec![vec![1, 10], vec![2, 20]]),
        rel("roles", &["rid", "name_id"], vec![vec![10, 100], vec![20, 200]]),
    ];
    let db = create_table(&input).unwrap();
    let conn = db.connection();
    let users = Box::new(ASTNode::<()>::Table { name: String::from("users"), columns: strs(&["id", "role_id"]) });
    let roles = Box::new(ASTNode::<()>::Table { name: String::from("roles"), columns: strs(&["rid", "name_id"]) });
    let fields = vec![field("users", "id"), field("users", "role_id"), field("roles", "rid"), field("roles", "name_id")];
    let s = ASTNode::Join { fields: Some(fields), table1: users, table2: roles, pred: () };
    let mut leaves = Vec::new();
    let pairs = bvdfs(&s, &vec![], 1, &mut leaves, &conn).unwrap();
    assert_eq!(leaves.len(), 2);
    for (bv, tup) in pairs.iter() {
        assert_eq!(bits::len(bv), 4);
        assert_eq!(tup.len(), 1);
    }
    let want = [true, false, false, true];
    assert!(pairs.iter().any(|(bv, _)| to_bools(bv) == want));
}

#[test]
fn bvdfs_refuses_too_many_atoms() {
    let input = vec![rel("t1", &["a"], vec![vec![1]])];
    let db = create_table(&input).unwrap();
    let conn = db.connection();
    let leaf = Box::new(ASTNode::<()>::Table { name: String::from("t1"), columns: strs(&["a"]) });
    let s = ASTNode::Select { fields: None, table: leaf, pred: () };
    let constants: Vec<isize> = (0..0x4000).collect();
    let r = bvdfs(&s, &constants, 1, &mut Vec::new(), &conn);
    assert!(matches!(
        r,
        Err(reaper::bvdfs::BVDFSError::PredicateEnumeration(reaper::enum_predicates::PredicateEnumerationError::TooLarge))
    ));
}

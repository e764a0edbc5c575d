use vstd::prelude::*;

verus! {

/// A column reference: the table it comes from and the column's name.
#[derive(Debug, Clone, PartialEq, Eq, Hash)]
pub struct Field {
    pub name: String,
    pub table: String,
}

/// An expression: a column reference or an integer literal.
#[derive(Debug, Clone, PartialEq, Eq, Hash)]
pub enum ExprNode {
    Field(Field),
    Int { value: isize },
}

/// A predicate over integer columns.
#[derive(Debug, PartialEq, Eq, Hash)]
#[allow(inconsistent_fields)]
pub enum PredNode {
    True,
    Lt { left: ExprNode, right: ExprNode },
    Eq { left: ExprNode, right: ExprNode },
    And { left: Box<PredNode>, right: Box<PredNode> },
}

/// A relational-algebra query whose predicate holes hold values of type `H`:
/// `()` for a skeleton, `PredNode` for a concrete query.
#[derive(Debug, PartialEq, Eq)]
pub enum ASTNode<H> {
    Select { fields: Option<Vec<Field>>, table: Box<ASTNode<H>>, pred: H },
    Join { fields: Option<Vec<Field>>, table1: Box<ASTNode<H>>, table2: Box<ASTNode<H>>, pred: H },
    Table { name: String, columns: Vec<String> },
    Concat { table1: Box<ASTNode<H>>, table2: Box<ASTNode<H>> },
}

/// A concrete relation: a name, its column names and its rows.
#[derive(Debug, Clone, PartialEq, Eq, Hash)]
pub struct ConcTable {
    pub name: String,
    pub columns: Vec<String>,
    pub values: Vec<Vec<isize>>,
}

/// The mathematical value of a query: the same tree with sequences in place of vectors.
pub enum AstView<H> {
    Select { fields: Option<Seq<Field>>, table: Box<AstView<H>>, pred: H },
    Join { fields: Option<Seq<Field>>, table1: Box<AstView<H>>, table2: Box<AstView<H>>, pred: H },
    Table { name: String, columns: Seq<String> },
    Concat { table1: Box<AstView<H>>, table2: Box<AstView<H>> },
}

pub open spec fn fields_view(f: Option<Vec<Field>>) -> Option<Seq<Field>> {
    match f {
        Some(v) => Some(v@),
        None => None,
    }
}

/// The view of a query, node by node.
pub open spec fn ast_view<H>(q: ASTNode<H>) -> AstView<H>
    decreases q,
{
    match q {
        ASTNode::Select { fields, table, pred } => AstView::Select {
            fields: fields_view(fields),
            table: Box::new(ast_view(*table)),
            pred,
        },
        ASTNode::Join { fields, table1, table2, pred } => AstView::Join {
            fields: fields_view(fields),
            table1: Box::new(ast_view(*table1)),
            table2: Box::new(ast_view(*table2)),
            pred,
        },
        ASTNode::Table { name, columns } => AstView::Table { name, columns: columns@ },
        ASTNode::Concat { table1, table2 } => AstView::Concat {
            table1: Box::new(ast_view(*table1)),
            table2: Box::new(ast_view(*table2)),
        },
    }
}

impl<H> View for ASTNode<H> {
    type V = AstView<H>;

    open spec fn view(&self) -> AstView<H> {
        ast_view(*self)
    }
}

/// The holes of a query in pre-order: a node's own hole, then the left
/// subtree's, then the right subtree's.
pub open spec fn holes<H>(q: AstView<H>) -> Seq<H>
    decreases q,
{
    match q {
        AstView::Select { table, pred, .. } => seq![pred] + holes(*table),
        AstView::Join { table1, table2, pred, .. } => seq![pred] + holes(*table1) + holes(
            *table2,
        ),
        AstView::Table { .. } => Seq::empty(),
        AstView::Concat { table1, table2 } => holes(*table1) + holes(*table2),
    }
}

/// The number of `Select` and `Join` nodes of a query.
pub open spec fn count_holes<H>(q: AstView<H>) -> nat
    decreases q,
{
    match q {
        AstView::Select { table, .. } => 1 + count_holes(*table),
        AstView::Join { table1, table2, .. } => 1 + count_holes(*table1) + count_holes(*table2),
        AstView::Table { .. } => 0,
        AstView::Concat { table1, table2 } => count_holes(*table1) + count_holes(*table2),
    }
}

/// The skeleton of a query: the same tree with every hole emptied.
pub open spec fn erase<H>(q: AstView<H>) -> AstView<()>
    decreases q,
{
    match q {
        AstView::Select { fields, table, .. } => AstView::Select {
            fields,
            table: Box::new(erase(*table)),
            pred: (),
        },
        AstView::Join { fields, table1, table2, .. } => AstView::Join {
            fields,
            table1: Box::new(erase(*table1)),
            table2: Box::new(erase(*table2)),
            pred: (),
        },
        AstView::Table { name, columns } => AstView::Table { name, columns },
        AstView::Concat { table1, table2 } => AstView::Concat {
            table1: Box::new(erase(*table1)),
            table2: Box::new(erase(*table2)),
        },
    }
}

/// The query obtained from skeleton `s` by binding the predicates of `t`, in
/// pre-order, to its holes.
pub open spec fn fill(s: AstView<()>, t: Seq<PredNode>) -> AstView<PredNode>
    decreases s,
{
    match s {
        AstView::Select { fields, table, .. } => AstView::Select {
            fields,
            table: Box::new(fill(*table, t.drop_first())),
            pred: t[0],
        },
        AstView::Join { fields, table1, table2, .. } => {
            let n1 = count_holes(*table1) as int;
            AstView::Join {
                fields,
                table1: Box::new(fill(*table1, t.subrange(1, 1 + n1))),
                table2: Box::new(fill(*table2, t.subrange(1 + n1, t.len() as int))),
                pred: t[0],
            }
        },
        AstView::Table { name, columns } => AstView::Table { name, columns },
        AstView::Concat { table1, table2 } => {
            let n1 = count_holes(*table1) as int;
            AstView::Concat {
                table1: Box::new(fill(*table1, t.subrange(0, n1))),
                table2: Box::new(fill(*table2, t.subrange(n1, t.len() as int))),
            }
        },
    }
}

pub open spec fn expr_height(e: ExprNode) -> nat {
    1
}

/// The height of a predicate: 1 for `True`, one more than its tallest child otherwise.
pub open spec fn pred_height(p: PredNode) -> nat
    decreases p,
{
    match p {
        PredNode::True => 1,
        PredNode::Lt { left, right } => 1 + vstd::math::max(
            expr_height(left) as int,
            expr_height(right) as int,
        ) as nat,
        PredNode::Eq { left, right } => 1 + vstd::math::max(
            expr_height(left) as int,
            expr_height(right) as int,
        ) as nat,
        PredNode::And { left, right } => 1 + vstd::math::max(
            pred_height(*left) as int,
            pred_height(*right) as int,
        ) as nat,
    }
}

/// The height of a concrete query: 1 at a table, the largest height among a
/// node's subtrees and its predicate elsewhere.
pub open spec fn query_height(q: AstView<PredNode>) -> nat
    decreases q,
{
    match q {
        AstView::Select { table, pred, .. } => vstd::math::max(
            query_height(*table) as int,
            pred_height(pred) as int,
        ) as nat,
        AstView::Join { table1, table2, pred, .. } => vstd::math::max(
            vstd::math::max(query_height(*table1) as int, query_height(*table2) as int),
            pred_height(pred) as int,
        ) as nat,
        AstView::Table { .. } => 1,
        AstView::Concat { table1, table2 } => vstd::math::max(
            query_height(*table1) as int,
            query_height(*table2) as int,
        ) as nat,
    }
}

/// `n` as a `usize`, or `usize::MAX` where it does not fit.
pub open spec fn saturate(n: nat) -> usize {
    if n <= usize::MAX {
        n as usize
    } else {
        usize::MAX
    }
}

fn saturating_succ(n: usize) -> (r: usize)
    ensures
        r == saturate(n as nat + 1),
{
    if n < usize::MAX {
        n + 1
    } else {
        usize::MAX
    }
}

fn larger(a: usize, b: usize) -> (r: usize)
    ensures
        r as int == vstd::math::max(a as int, b as int),
{
    if a >= b {
        a
    } else {
        b
    }
}

impl Field {
    pub fn duplicate(&self) -> (r: Field)
        ensures
            r == *self,
    {
        Field { name: self.name.clone(), table: self.table.clone() }
    }
}

pub fn copy_fields(v: &Vec<Field>) -> (r: Vec<Field>)
    ensures
        r@ == v@,
{
    let mut r: Vec<Field> = Vec::new();
    let mut i: usize = 0;
    while i < v.len()
        invariant
            i <= v.len(),
            r@ == v@.subrange(0, i as int),
        decreases v.len() - i,
    {
        r.push(v[i].duplicate());
        i = i + 1;
    }
    assert(r@ =~= v@);
    r
}

pub fn copy_strings(v: &Vec<String>) -> (r: Vec<String>)
    ensures
        r@ == v@,
{
    let mut r: Vec<String> = Vec::new();
    let mut i: usize = 0;
    while i < v.len()
        invariant
            i <= v.len(),
            r@ == v@.subrange(0, i as int),
        decreases v.len() - i,
    {
        r.push(v[i].clone());
        i = i + 1;
    }
    assert(r@ =~= v@);
    r
}

pub fn copy_row(v: &Vec<isize>) -> (r: Vec<isize>)
    ensures
        r@ == v@,
{
    let mut r: Vec<isize> = Vec::new();
    let mut i: usize = 0;
    while i < v.len()
        invariant
            i <= v.len(),
            r@ == v@.subrange(0, i as int),
        decreases v.len() - i,
    {
        r.push(v[i]);
        i = i + 1;
    }
    assert(r@ =~= v@);
    r
}

pub fn copy_opt_fields(f: &Option<Vec<Field>>) -> (r: Option<Vec<Field>>)
    ensures
        fields_view(r) == fields_view(*f),
{
    match f {
        Some(v) => Some(copy_fields(v)),
        None => None,
    }
}

impl ConcTable {
    pub fn duplicate(&self) -> (r: ConcTable)
        ensures
            r.name == self.name,
            r.columns@ == self.columns@,
            r.values@.len() == self.values@.len(),
            forall|i: int| 0 <= i < r.values@.len() ==> (#[trigger] r.values@[i])@ == self.values@[i]@,
    {
        let mut values: Vec<Vec<isize>> = Vec::new();
        let mut i: usize = 0;
        while i < self.values.len()
            invariant
                i <= self.values.len(),
                values@.len() == i,
                forall|k: int| 0 <= k < i ==> (#[trigger] values@[k])@ == self.values@[k]@,
            decreases self.values.len() - i,
        {
            values.push(copy_row(&self.values[i]));
            i = i + 1;
        }
        ConcTable { name: self.name.clone(), columns: copy_strings(&self.columns), values }
    }
}

impl ExprNode {
    pub fn duplicate(&self) -> (r: ExprNode)
        ensures
            r == *self,
    {
        match self {
            ExprNode::Field(f) => ExprNode::Field(f.duplicate()),
            ExprNode::Int { value } => ExprNode::Int { value: *value },
        }
    }

    pub fn height(&self) -> (r: usize)
        ensures
            r == expr_height(*self),
    {
        1
    }
}

impl PredNode {
    pub fn duplicate(&self) -> (r: PredNode)
        ensures
            r == *self,
        decreases self,
    {
        match self {
            PredNode::True => PredNode::True,
            PredNode::Lt { left, right } => PredNode::Lt {
                left: left.duplicate(),
                right: right.duplicate(),
            },
            PredNode::Eq { left, right } => PredNode::Eq {
                left: left.duplicate(),
                right: right.duplicate(),
            },
            PredNode::And { left, right } => PredNode::And {
                left: Box::new(left.duplicate()),
                right: Box::new(right.duplicate()),
            },
        }
    }

    /// The height of the predicate, `usize::MAX` where it does not fit.
    pub fn height(&self) -> (r: usize)
        ensures
            r == saturate(pred_height(*self)),
        decreases self,
    {
        match self {
            PredNode::True => 1,
            PredNode::Lt { left, right } => saturating_succ(larger(left.height(), right.height())),
            PredNode::Eq { left, right } => saturating_succ(larger(left.height(), right.height())),
            PredNode::And { left, right } => saturating_succ(
                larger(left.height(), right.height()),
            ),
        }
    }
}

impl ASTNode<PredNode> {
    /// The height of the query, `usize::MAX` where it does not fit.
    pub fn height(&self) -> (r: usize)
        ensures
            r == saturate(query_height(self@)),
        decreases self,
    {
        match self {
            ASTNode::Select { table, pred, .. } => larger(table.height(), pred.height()),
            ASTNode::Join { table1, table2, pred, .. } => larger(
                larger(table1.height(), table2.height()),
                pred.height(),
            ),
            ASTNode::Table { .. } => 1,
            ASTNode::Concat { table1, table2 } => larger(table1.height(), table2.height()),
        }
    }
}

impl ASTNode<()> {
    pub fn duplicate(&self) -> (r: ASTNode<()>)
        ensures
            r@ == self@,
        decreases self,
    {
        match self {
            ASTNode::Select { fields, table, .. } => ASTNode::Select {
                fields: copy_opt_fields(fields),
                table: Box::new(table.duplicate()),
                pred: (),
            },
            ASTNode::Join { fields, table1, table2, .. } => ASTNode::Join {
                fields: copy_opt_fields(fields),
                table1: Box::new(table1.duplicate()),
                table2: Box::new(table2.duplicate()),
                pred: (),
            },
            ASTNode::Table { name, columns } => ASTNode::Table {
                name: name.clone(),
                columns: copy_strings(columns),
            },
            ASTNode::Concat { table1, table2 } => ASTNode::Concat {
                table1: Box::new(table1.duplicate()),
                table2: Box::new(table2.duplicate()),
            },
        }
    }

    /// The number of holes, that is of `Select` and `Join` nodes;
    /// `usize::MAX` where that does not fit.
    pub fn num_holes(&self) -> (r: usize)
        ensures
            r == saturate(count_holes(self@)),
            count_holes(self@) <= usize::MAX ==> r == count_holes(self@),
        decreases self,
    {
        match self {
            ASTNode::Select { table, .. } => saturating_succ(table.num_holes()),
            ASTNode::Join { table1, table2, .. } => {
                let a = table1.num_holes();
                let b = table2.num_holes();
                if a < usize::MAX - b {
                    saturating_succ(a + b)
                } else {
                    usize::MAX
                }
            },
            ASTNode::Table { .. } => 0,
            ASTNode::Concat { table1, table2 } => {
                let a = table1.num_holes();
                let b = table2.num_holes();
                if a <= usize::MAX - b {
                    a + b
                } else {
                    usize::MAX
                }
            },
        }
    }
}

} // verus!

use vstd::prelude::*;
use vstd::string::*;

use crate::types::{count_holes, fill, ASTNode, AstView, ConcTable, ExprNode, Field, PredNode};

verus! {

/// A database handle of rusqlite, carried through opaque.
#[verifier::external_type_specification]
#[verifier::external_body]
pub struct ExConnection(rusqlite::Connection);

/// rusqlite's error, carried through opaque.
#[verifier::external_type_specification]
#[verifier::external_body]
pub struct ExError(rusqlite::Error);

/// Relies on `rusqlite::Connection::open_in_memory`: a fresh, empty database.
#[verifier::external_body]
fn open_in_memory() -> (r: Result<rusqlite::Connection, rusqlite::Error>) {
    rusqlite::Connection::open_in_memory()
}

/// Relies on `rusqlite::Connection::execute`: runs one statement, binding
/// `params` in order to its placeholders.
#[verifier::external_body]
fn execute(conn: &rusqlite::Connection, sql: &str, params: &Vec<isize>) -> (r: Result<
    usize,
    rusqlite::Error,
>) {
    conn.execute(sql, rusqlite::params_from_iter(params.iter()))
}

/// Relies on `rusqlite::Connection::prepare` and the statement it returns: the
/// column names of a query and its rows, each read as one integer per column.
#[verifier::external_body]
fn run_query(conn: &rusqlite::Connection, sql: &str) -> (r: Result<
    (Vec<String>, Vec<Vec<isize>>),
    rusqlite::Error,
>)
    ensures
        r matches Ok((columns, rows)) ==> forall|i: int|
            0 <= i < rows@.len() ==> #[trigger] rows@[i]@.len() == columns@.len(),
{
    let mut stmt = conn.prepare(sql)?;
    let columns: Vec<String> = stmt.column_names().into_iter().map(String::from).collect();
    let n = columns.len();
    let rows = stmt.query_map([], |row| (0..n).map(|i| row.get::<usize, isize>(i)).collect())?;
    let rows = rows.collect::<Result<Vec<Vec<isize>>, rusqlite::Error>>()?;
    Ok((columns, rows))
}

/// The decimal text of an integer, with a leading `-` when it is negative.
pub open spec fn decimal(v: int) -> Seq<char> {
    if v < 0 {
        seq!['-'] + digits((-v) as nat)
    } else {
        digits(v as nat)
    }
}

pub open spec fn digits(n: nat) -> Seq<char>
    decreases n,
{
    if n < 10 {
        seq![digit(n)]
    } else {
        digits(n / 10) + seq![digit(n % 10)]
    }
}

pub open spec fn digit(n: nat) -> char {
    if n == 0 {
        '0'
    } else if n == 1 {
        '1'
    } else if n == 2 {
        '2'
    } else if n == 3 {
        '3'
    } else if n == 4 {
        '4'
    } else if n == 5 {
        '5'
    } else if n == 6 {
        '6'
    } else if n == 7 {
        '7'
    } else if n == 8 {
        '8'
    } else {
        '9'
    }
}

fn digit_text(d: u128) -> (r: &'static str)
    requires
        d < 10,
    ensures
        r@ == seq![digit(d as nat)],
{
    proof {
        reveal_strlit("0");
        reveal_strlit("1");
        reveal_strlit("2");
        reveal_strlit("3");
        reveal_strlit("4");
        reveal_strlit("5");
        reveal_strlit("6");
        reveal_strlit("7");
        reveal_strlit("8");
        reveal_strlit("9");
    }
    if d == 0 {
        "0"
    } else if d == 1 {
        "1"
    } else if d == 2 {
        "2"
    } else if d == 3 {
        "3"
    } else if d == 4 {
        "4"
    } else if d == 5 {
        "5"
    } else if d == 6 {
        "6"
    } else if d == 7 {
        "7"
    } else if d == 8 {
        "8"
    } else {
        "9"
    }
}

fn digits_text(n: u128) -> (r: String)
    ensures
        r@ == digits(n as nat),
    decreases n,
{
    if n < 10 {
        String::from_str(digit_text(n))
    } else {
        let s = digits_text(n / 10);
        cat(s, digit_text(n % 10))
    }
}

/// The decimal text of an integer.
pub fn int_text(v: isize) -> (r: String)
    ensures
        r@ == decimal(v as int),
{
    if v < 0 {
        let m = (-(v as i128)) as u128;
        proof {
            reveal_strlit("-");
        }
        let s = String::from_str("-");
        cat(s, digits_text(m).as_str())
    } else {
        digits_text(v as u128)
    }
}

/// SQL text of an expression.
pub open spec fn expr_sql(e: ExprNode) -> Seq<char> {
    match e {
        ExprNode::Field(f) => "("@ + f.table@ + "."@ + f.name@ + ")"@,
        ExprNode::Int { value } => "("@ + decimal(value as int) + ")"@,
    }
}

/// SQL text of a predicate.
pub open spec fn pred_sql(p: PredNode) -> Seq<char>
    decreases p,
{
    match p {
        PredNode::True => "1"@,
        PredNode::Lt { left, right } => "("@ + expr_sql(left) + " < "@ + expr_sql(right) + ")"@,
        PredNode::Eq { left, right } => "("@ + expr_sql(left) + " = "@ + expr_sql(right) + ")"@,
        PredNode::And { left, right } => "("@ + pred_sql(*left) + " AND "@ + pred_sql(*right)
            + ")"@,
    }
}

/// The names of the first `n` fields, separated by `, `.
pub open spec fn joined_names(fields: Seq<Field>, n: nat) -> Seq<char>
    decreases n,
{
    if n == 0 {
        Seq::empty()
    } else if n == 1 {
        fields[0].name@
    } else {
        joined_names(fields, (n - 1) as nat) + ", "@ + fields[n - 1].name@
    }
}

/// SQL text of a projection list: `*` for all columns.
pub open spec fn fields_sql(fields: Option<Seq<Field>>) -> Seq<char> {
    match fields {
        Some(fs) => joined_names(fs, fs.len()),
        None => "*"@,
    }
}

/// SQL text of a query, without the parentheses around it.
pub open spec fn query_body_sql(q: AstView<PredNode>) -> Seq<char>
    decreases q, 0nat,
{
    match q {
        AstView::Select { fields, table, pred } => "SELECT "@ + fields_sql(fields) + " FROM "@
            + query_sql(*table) + " WHERE "@ + pred_sql(pred),
        AstView::Join { fields, table1, table2, pred } => "SELECT "@ + fields_sql(fields)
            + " FROM "@ + query_sql(*table1) + " JOIN "@ + query_sql(*table2) + " ON "@
            + pred_sql(pred),
        AstView::Table { name, .. } => name@,
        AstView::Concat { table1, table2 } => query_sql(*table1) + ", "@ + query_sql(*table2),
    }
}

/// SQL text of a query, in parentheses.
pub open spec fn query_sql(q: AstView<PredNode>) -> Seq<char>
    decreases q, 1nat,
{
    "("@ + query_body_sql(q) + ")"@
}

fn cat(a: String, b: &str) -> (r: String)
    ensures
        r@ == a@ + b@,
{
    let mut a = a;
    a.append(b);
    a
}

pub fn create_sql_expr(expr: &ExprNode) -> (r: String)
    ensures
        r@ == expr_sql(*expr),
{
    match expr {
        ExprNode::Field(field) => {
            let s = cat(String::from_str("("), field.table.as_str());
            let s = cat(s, ".");
            let s = cat(s, field.name.as_str());
            cat(s, ")")
        },
        ExprNode::Int { value } => {
            let v = int_text(*value);
            let s = cat(String::from_str("("), v.as_str());
            cat(s, ")")
        },
    }
}

pub fn create_sql_pred(pred: &PredNode) -> (r: String)
    ensures
        r@ == pred_sql(*pred),
    decreases pred,
{
    match pred {
        PredNode::True => String::from_str("1"),
        PredNode::Lt { left, right } => {
            let s = cat(String::from_str("("), create_sql_expr(left).as_str());
            let s = cat(s, " < ");
            let s = cat(s, create_sql_expr(right).as_str());
            cat(s, ")")
        },
        PredNode::Eq { left, right } => {
            let s = cat(String::from_str("("), create_sql_expr(left).as_str());
            let s = cat(s, " = ");
            let s = cat(s, create_sql_expr(right).as_str());
            cat(s, ")")
        },
        PredNode::And { left, right } => {
            let s = cat(String::from_str("("), create_sql_pred(left).as_str());
            let s = cat(s, " AND ");
            let s = cat(s, create_sql_pred(right).as_str());
            cat(s, ")")
        },
    }
}

pub fn create_fields_str(fields: &Option<Vec<Field>>) -> (r: String)
    ensures
        r@ == fields_sql(crate::types::fields_view(*fields)),
{
    match fields {
        Some(fs) => {
            let mut sql = String::from_str("");
            proof {
                reveal_strlit("");
            }
            let mut i: usize = 0;
            while i < fs.len()
                invariant
                    i <= fs.len(),
                    sql@ == joined_names(fs@, i as nat),
                decreases fs.len() - i,
            {
                if i > 0 {
                    sql = cat(sql, ", ");
                }
                sql = cat(sql, fs[i].name.as_str());
                i = i + 1;
            }
            sql
        },
        None => String::from_str("*"),
    }
}

/// The SQL text of a query, without the parentheses around it.
pub fn create_sql_body(query: &ASTNode<PredNode>) -> (r: String)
    ensures
        r@ == query_body_sql(query@),
    decreases query, 1nat,
{
    match query {
        ASTNode::Select { fields, table, pred } => {
            let s = cat(String::from_str("SELECT "), create_fields_str(fields).as_str());
            let s = cat(s, " FROM ");
            let s = cat(s, create_sql_query(table).as_str());
            let s = cat(s, " WHERE ");
            cat(s, create_sql_pred(pred).as_str())
        },
        ASTNode::Join { fields, table1, table2, pred } => {
            let s = cat(String::from_str("SELECT "), create_fields_str(fields).as_str());
            let s = cat(s, " FROM ");
            let s = cat(s, create_sql_query(table1).as_str());
            let s = cat(s, " JOIN ");
            let s = cat(s, create_sql_query(table2).as_str());
            let s = cat(s, " ON ");
            cat(s, create_sql_pred(pred).as_str())
        },
        ASTNode::Table { name, .. } => name.clone(),
        ASTNode::Concat { table1, table2 } => {
            let s = cat(create_sql_query(table1), ", ");
            cat(s, create_sql_query(table2).as_str())
        },
    }
}

/// The SQL text of a query, in parentheses.
pub fn create_sql_query(query: &ASTNode<PredNode>) -> (r: String)
    ensures
        r@ == query_sql(query@),
    decreases query, 2nat,
{
    let s = cat(String::from_str("("), create_sql_body(query).as_str());
    cat(s, ")")
}

/// Every row has one value per column.
pub open spec fn rectangular(t: ConcTable) -> bool {
    forall|i: int| 0 <= i < t.values@.len() ==> #[trigger] t.values@[i]@.len() == t.columns@.len()
}

/// The column names a query yields, read off its structure: a projection
/// gives its fields' names, a table its columns, and a join or a
/// concatenation without projection the left side's then the right side's.
pub open spec fn output_columns<H>(q: AstView<H>) -> Seq<String>
    decreases q,
{
    match q {
        AstView::Select { fields, table, .. } => match fields {
            Some(fs) => fs.map_values(|f: Field| f.name),
            None => output_columns(*table),
        },
        AstView::Join { fields, table1, table2, .. } => match fields {
            Some(fs) => fs.map_values(|f: Field| f.name),
            None => output_columns(*table1) + output_columns(*table2),
        },
        AstView::Table { columns, .. } => columns,
        AstView::Concat { table1, table2 } => output_columns(*table1) + output_columns(*table2),
    }
}

fn field_names(fs: &Vec<Field>) -> (r: Vec<String>)
    ensures
        r@ == fs@.map_values(|f: Field| f.name),
{
    let mut r: Vec<String> = Vec::new();
    let mut i: usize = 0;
    while i < fs.len()
        invariant
            i <= fs.len(),
            r@ == fs@.subrange(0, i as int).map_values(|f: Field| f.name),
        decreases fs.len() - i,
    {
        r.push(fs[i].name.clone());
        i = i + 1;
        assert(fs@.subrange(0, i as int).map_values(|f: Field| f.name) =~= r@);
    }
    assert(fs@.subrange(0, i as int) =~= fs@);
    r
}

fn column_names<H>(q: &ASTNode<H>) -> (r: Vec<String>)
    ensures
        r@ == output_columns(q@),
    decreases q,
{
    match q {
        ASTNode::Select { fields, table, .. } => match fields {
            Some(fs) => field_names(fs),
            None => column_names(table),
        },
        ASTNode::Join { fields, table1, table2, .. } => match fields {
            Some(fs) => field_names(fs),
            None => {
                let mut a = column_names(table1);
                let mut b = column_names(table2);
                a.append(&mut b);
                a
            },
        },
        ASTNode::Table { columns, .. } => crate::types::copy_strings(columns),
        ASTNode::Concat { table1, table2 } => {
            let mut a = column_names(table1);
            let mut b = column_names(table2);
            a.append(&mut b);
            a
        },
    }
}

/// The relation that stands for a query whose evaluation failed: no rows,
/// and the columns the query would have given.
pub fn make_dummy_table<H>(query: &ASTNode<H>) -> (r: ConcTable)
    ensures
        r.name@ == Seq::<char>::empty(),
        r.columns@ == output_columns(query@),
        r.values@.len() == 0,
{
    let name = String::from_str("");
    proof {
        reveal_strlit("");
    }
    ConcTable { name, columns: column_names(query), values: Vec::new() }
}

/// The column list of a `CREATE TABLE` statement for the first `n` columns.
pub open spec fn column_decls(columns: Seq<String>, n: nat) -> Seq<char>
    decreases n,
{
    if n == 0 {
        Seq::empty()
    } else if n == 1 {
        columns[0]@ + " INTEGER"@
    } else {
        column_decls(columns, (n - 1) as nat) + ", "@ + columns[n - 1]@ + " INTEGER"@
    }
}

/// `n` placeholders separated by `, `.
pub open spec fn placeholders(n: nat) -> Seq<char>
    decreases n,
{
    if n == 0 {
        Seq::empty()
    } else if n == 1 {
        "?"@
    } else {
        placeholders((n - 1) as nat) + ", ?"@
    }
}

/// The statement that declares a relation, every column an integer.
pub open spec fn create_text(t: ConcTable) -> Seq<char> {
    "CREATE TABLE "@ + t.name@ + " ("@ + column_decls(t.columns@, t.columns@.len()) + ");"@
}

/// The statement that inserts one row of a relation.
pub open spec fn insert_text(t: ConcTable) -> Seq<char> {
    "INSERT INTO "@ + t.name@ + " VALUES ("@ + placeholders(t.columns@.len()) + ");"@
}

pub fn create_statement(table: &ConcTable) -> (r: String)
    ensures
        r@ == create_text(*table),
{
    let mut decls = String::from_str("");
    proof {
        reveal_strlit("");
    }
    let mut i: usize = 0;
    while i < table.columns.len()
        invariant
            i <= table.columns.len(),
            decls@ == column_decls(table.columns@, i as nat),
        decreases table.columns.len() - i,
    {
        if i > 0 {
            decls = cat(decls, ", ");
        }
        decls = cat(decls, table.columns[i].as_str());
        decls = cat(decls, " INTEGER");
        i = i + 1;
    }
    let s = cat(String::from_str("CREATE TABLE "), table.name.as_str());
    let s = cat(s, " (");
    let s = cat(s, decls.as_str());
    cat(s, ");")
}

pub fn insert_statement(table: &ConcTable) -> (r: String)
    ensures
        r@ == insert_text(*table),
{
    let mut marks = String::from_str("");
    proof {
        reveal_strlit("");
    }
    let mut i: usize = 0;
    while i < table.columns.len()
        invariant
            i <= table.columns.len(),
            marks@ == placeholders(i as nat),
        decreases table.columns.len() - i,
    {
        if i > 0 {
            marks = cat(marks, ", ?");
        } else {
            marks = cat(marks, "?");
        }
        i = i + 1;
    }
    let s = cat(String::from_str("INSERT INTO "), table.name.as_str());
    let s = cat(s, " VALUES (");
    let s = cat(s, marks.as_str());
    cat(s, ");")
}

/// The statements that load the relations: for each relation in order, its
/// `CREATE TABLE` with no parameters, then its `INSERT` once per row, with
/// that row.
pub open spec fn setup_plan(input: Seq<ConcTable>) -> Seq<(Seq<char>, Seq<isize>)>
    decreases input.len(),
{
    if input.len() == 0 {
        Seq::empty()
    } else {
        setup_plan(input.drop_last()) + table_plan(input.last())
    }
}

pub open spec fn table_plan(t: ConcTable) -> Seq<(Seq<char>, Seq<isize>)> {
    seq![(create_text(t), Seq::<isize>::empty())] + t.values@.map_values(
        |row: Vec<isize>| (insert_text(t), row@),
    )
}

pub open spec fn plan_view(v: Seq<(String, Vec<isize>)>) -> Seq<(Seq<char>, Seq<isize>)> {
    v.map_values(|s: (String, Vec<isize>)| (s.0@, s.1@))
}

/// The statements that load `input`, with their parameters, in order.
pub fn setup_statements(input: &Vec<ConcTable>) -> (r: Vec<(String, Vec<isize>)>)
    ensures
        plan_view(r@) == setup_plan(input@),
{
    let mut plan: Vec<(String, Vec<isize>)> = Vec::new();
    let mut k: usize = 0;
    assert(input@.subrange(0, 0) =~= Seq::<ConcTable>::empty());
    assert(plan_view(plan@) =~= Seq::<(Seq<char>, Seq<isize>)>::empty());
    while k < input.len()
        invariant
            k <= input.len(),
            plan_view(plan@) == setup_plan(input@.subrange(0, k as int)),
        decreases input.len() - k,
    {
        let table = &input[k];
        let ghost base = plan_view(plan@);
        plan.push((create_statement(table), Vec::new()));
        let insert = insert_statement(table);
        let mut j: usize = 0;
        assert(plan_view(plan@) =~= base + seq![(create_text(*table), Seq::<isize>::empty())]);
        while j < table.values.len()
            invariant
                j <= table.values.len(),
                insert@ == insert_text(*table),
                plan_view(plan@) == base + table_plan(*table).subrange(0, j + 1),
            decreases table.values.len() - j,
        {
            let ghost before = plan_view(plan@);
            plan.push((insert.clone(), crate::types::copy_row(&table.values[j])));
            assert(plan_view(plan@) =~= before.push((insert_text(*table), table.values@[j as int]@)));
            assert(table_plan(*table).subrange(0, j + 2) =~= table_plan(*table).subrange(0, j + 1).push(
                (insert_text(*table), table.values@[j as int]@),
            ));
            j = j + 1;
        }
        proof {
            assert(table_plan(*table).subrange(0, j + 1) =~= table_plan(*table));
            assert(input@.subrange(0, k + 1).drop_last() =~= input@.subrange(0, k as int));
        }
        k = k + 1;
    }
    assert(input@.subrange(0, k as int) =~= input@);
    plan
}

/// An in-memory database together with the statements that ran on it
/// successfully, in order, each with its parameters.
pub struct Database {
    conn: rusqlite::Connection,
    log: Ghost<Seq<(Seq<char>, Seq<isize>)>>,
}

impl Database {
    /// The statements that ran on the database successfully, in order.
    pub closed spec fn log(&self) -> Seq<(Seq<char>, Seq<isize>)> {
        self.log@
    }

    /// A fresh, empty database, on which nothing has run.
    pub fn open() -> (r: Result<Database, rusqlite::Error>)
        ensures
            r matches Ok(db) ==> db.log() == Seq::<(Seq<char>, Seq<isize>)>::empty(),
    {
        match open_in_memory() {
            Ok(conn) => Ok(Database { conn, log: Ghost(Seq::empty()) }),
            Err(e) => Err(e),
        }
    }

    /// Runs one statement with its parameters; where it succeeds, it joins
    /// the log.
    pub fn execute(&mut self, sql: &str, params: &Vec<isize>) -> (r: Result<usize, rusqlite::Error>)
        ensures
            r is Ok ==> final(self).log() == old(self).log().push((sql@, params@)),
            r is Err ==> final(self).log() == old(self).log(),
    {
        let r = execute(&self.conn, sql, params);
        if r.is_ok() {
            self.log = Ghost(self.log@.push((sql@, params@)));
        }
        r
    }

    /// The connection, to run queries on.
    pub fn connection(&self) -> &rusqlite::Connection {
        &self.conn
    }
}

/// Runs each statement of `plan` in order, stopping at the first that fails;
/// on success every statement has run, and the log has grown by the plan.
pub fn run_plan(db: &mut Database, plan: &Vec<(String, Vec<isize>)>) -> (r: Result<
    usize,
    rusqlite::Error,
>)
    ensures
        r matches Ok(n) ==> n == plan@.len() && final(db).log() == old(db).log() + plan_view(
            plan@,
        ),
{
    let ghost start = db.log();
    let mut k: usize = 0;
    while k < plan.len()
        invariant
            k <= plan.len(),
            db.log() == start + plan_view(plan@).subrange(0, k as int),
        decreases plan.len() - k,
    {
        let ghost before = db.log();
        match db.execute(plan[k].0.as_str(), &plan[k].1) {
            Ok(_) => {},
            Err(e) => return Err(e),
        }
        assert(plan_view(plan@).subrange(0, k + 1) =~= plan_view(plan@).subrange(0, k as int).push(
            (plan@[k as int].0@, plan@[k as int].1@),
        ));
        assert(db.log() =~= start + plan_view(plan@).subrange(0, k + 1));
        k = k + 1;
    }
    assert(plan_view(plan@).subrange(0, k as int) =~= plan_view(plan@));
    Ok(k)
}

/// Opens an in-memory database and loads each input relation into it: on
/// success exactly the statements of `setup_plan(input)` have run, in order.
pub fn create_table(input: &Vec<ConcTable>) -> (r: Result<Database, rusqlite::Error>)
    ensures
        r matches Ok(db) ==> db.log() == setup_plan(input@),
{
    let mut db = match Database::open() {
        Ok(d) => d,
        Err(e) => return Err(e),
    };
    let plan = setup_statements(input);
    match run_plan(&mut db, &plan) {
        Ok(_) => {
            assert(Seq::<(Seq<char>, Seq<isize>)>::empty() + plan_view(plan@) =~= plan_view(plan@));
            Ok(db)
        },
        Err(e) => Err(e),
    }
}

/// Runs a concrete query on the database; the relation it gives is unnamed.
pub fn eval(query: &ASTNode<PredNode>, conn: &rusqlite::Connection) -> (r: Result<
    ConcTable,
    rusqlite::Error,
>)
    ensures
        r matches Ok(t) ==> t.name@ == Seq::<char>::empty() && rectangular(t),
{
    let body = create_sql_body(query);
    match run_query(conn, body.as_str()) {
        Ok((columns, values)) => {
            let name = String::from_str("");
            proof {
                reveal_strlit("");
            }
            Ok(ConcTable { name, columns, values })
        },
        Err(e) => Err(e),
    }
}

/// The relation for a skeleton whose evaluation gave `res`: the database's
/// answer, or where it refused the query, `make_dummy_table(query)`.
pub fn or_dummy<E>(res: Result<ConcTable, E>, query: &ASTNode<()>) -> (r: ConcTable)
    ensures
        res matches Ok(t) ==> r == t,
        res is Err ==> r.values@.len() == 0 && r.columns@ == output_columns(query@)
            && r.name@ == Seq::<char>::empty(),
{
    match res {
        Ok(t) => t,
        Err(_) => make_dummy_table(query),
    }
}

/// The skeleton with `True` in every hole.
pub open spec fn all_true(query: AstView<()>) -> AstView<PredNode> {
    fill(query, Seq::new(count_holes(query), |i: int| PredNode::True))
}

/// Evaluates a skeleton with `True` in every hole; where the database refuses
/// the query, the relation is `make_dummy_table(query)`.
pub fn eval_abstract(query: &ASTNode<()>, conn: &rusqlite::Connection) -> (r: Result<
    ConcTable,
    rusqlite::Error,
>)
    ensures
        r matches Ok(t) && t.name@ == Seq::<char>::empty() && rectangular(t),
{
    let n = query.num_holes();
    let mut preds: Vec<PredNode> = Vec::new();
    let mut i: usize = 0;
    while i < n
        invariant
            i <= n,
            preds@ == Seq::new(i as nat, |k: int| PredNode::True),
        decreases n - i,
    {
        preds.push(PredNode::True);
        i = i + 1;
        assert(preds@ =~= Seq::new(i as nat, |k: int| PredNode::True));
    }
    match query.with_predicates(&preds) {
        Ok(q) => {
            assert(q@ == all_true(query@));
            Ok(or_dummy(eval(&q, conn), query))
        },
        Err(_) => Ok(make_dummy_table(query)),
    }
}

} // verus!

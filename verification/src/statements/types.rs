//! Statement data types and their mathematical views.

use vstd::prelude::*;

verus! {

/// A column reference, optionally qualified by a table name.
#[derive(Debug)]
pub struct Column {
    /// The qualifying table, when the column was written `table.column`.
    pub table: Option<String>,
    /// The column name.
    pub name: String,
}

/// A condition extracted from a `WHERE` clause, attributed to one table.
#[derive(Debug)]
pub struct Condition {
    /// The table the condition refers to.
    pub table: String,
    /// The condition text.
    pub column: String,
    /// The compared value, when one was recognised.
    pub value: String,
}

/// One `WITH name AS (query)` clause.
#[derive(Debug)]
pub struct WithClause {
    /// The name the clause binds.
    pub name: String,
    /// The bound query.
    pub query: Box<Statement>,
}

/// The recognised statement forms.  Parsing is best effort: anything not
/// recognised keeps its verbatim text under `Unknown`.
#[derive(Debug)]
pub enum StatementKind {
    CreateTable { name: String, columns: Vec<Column> },
    Insert { table: String, columns: Vec<String>, values: Vec<Vec<String>> },
    Select {
        with_clauses: Vec<WithClause>,
        columns: Vec<Column>,
        tables: Vec<String>,
        conditions: Vec<Condition>,
        subqueries: Vec<Statement>,
        is_distinct: bool,
    },
    CreateView { name: String, query: Box<Statement> },
    Trigger { name: String, timing: String, event: String, table: String, body: Vec<String> },
    Update { table: String, set_clauses: Vec<String>, where_clause: Option<String> },
    Delete { table: String, where_clause: Option<String> },
    AlterTable { table: String, operation: String },
    Drop,
    Unknown,
}

/// One SQL statement: its verbatim text and its recognised structure.
#[derive(Debug)]
pub struct Statement {
    /// The statement's text, kept consistent with `kind` by every rewrite.
    pub original: String,
    /// The recognised structure.
    pub kind: StatementKind,
}

/// The view of a [`Column`].
#[verifier::ext_equal]
pub struct ColumnV {
    pub table: Option<Seq<char>>,
    pub name: Seq<char>,
}

/// The view of a [`Condition`].
#[verifier::ext_equal]
pub struct ConditionV {
    pub table: Seq<char>,
    pub column: Seq<char>,
    pub value: Seq<char>,
}

/// The view of a [`WithClause`].
#[verifier::ext_equal]
pub struct WithClauseV {
    pub name: Seq<char>,
    pub query: Box<StmtV>,
}

/// The view of a [`StatementKind`].
#[verifier::ext_equal]
pub enum KindV {
    CreateTable { name: Seq<char>, columns: Seq<ColumnV> },
    Insert { table: Seq<char>, columns: Seq<Seq<char>>, values: Seq<Seq<Seq<char>>> },
    Select {
        with_clauses: Seq<WithClauseV>,
        columns: Seq<ColumnV>,
        tables: Seq<Seq<char>>,
        conditions: Seq<ConditionV>,
        subqueries: Seq<StmtV>,
        is_distinct: bool,
    },
    CreateView { name: Seq<char>, query: Box<StmtV> },
    Trigger {
        name: Seq<char>,
        timing: Seq<char>,
        event: Seq<char>,
        table: Seq<char>,
        body: Seq<Seq<char>>,
    },
    Update { table: Seq<char>, set_clauses: Seq<Seq<char>>, where_clause: Option<Seq<char>> },
    Delete { table: Seq<char>, where_clause: Option<Seq<char>> },
    AlterTable { table: Seq<char>, operation: Seq<char> },
    Drop,
    Unknown,
}

/// The view of a [`Statement`].
#[verifier::ext_equal]
pub struct StmtV {
    pub original: Seq<char>,
    pub kind: KindV,
}

/// The view of a column.
pub open spec fn view_column(c: Column) -> ColumnV {
    ColumnV {
        table: match c.table {
            Some(t) => Some(t@),
            None => None,
        },
        name: c.name@,
    }
}

/// The view of a condition.
pub open spec fn view_condition(c: Condition) -> ConditionV {
    ConditionV { table: c.table@, column: c.column@, value: c.value@ }
}

/// The views of a vector of columns.
pub open spec fn view_columns(cs: Seq<Column>) -> Seq<ColumnV> {
    cs.map_values(|c: Column| view_column(c))
}

/// The views of a vector of conditions.
pub open spec fn view_conditions(cs: Seq<Condition>) -> Seq<ConditionV> {
    cs.map_values(|c: Condition| view_condition(c))
}

/// The view of a statement.
pub open spec fn view_stmt(s: Statement) -> StmtV
    decreases s,
{
    StmtV { original: s.original@, kind: view_kind(s.kind) }
}

/// The view of a statement kind.
pub open spec fn view_kind(k: StatementKind) -> KindV
    decreases k,
{
    match k {
        StatementKind::CreateTable { name, columns } => KindV::CreateTable {
            name: name@,
            columns: view_columns(columns@),
        },
        StatementKind::Insert { table, columns, values } => KindV::Insert {
            table: table@,
            columns: columns.deep_view(),
            values: values.deep_view(),
        },
        StatementKind::Select {
            with_clauses,
            columns,
            tables,
            conditions,
            subqueries,
            is_distinct,
        } => KindV::Select {
            with_clauses: view_with_clauses(with_clauses@),
            columns: view_columns(columns@),
            tables: tables.deep_view(),
            conditions: view_conditions(conditions@),
            subqueries: view_stmts(subqueries@),
            is_distinct: is_distinct,
        },
        StatementKind::CreateView { name, query } => KindV::CreateView {
            name: name@,
            query: Box::new(view_stmt(*query)),
        },
        StatementKind::Trigger { name, timing, event, table, body } => KindV::Trigger {
            name: name@,
            timing: timing@,
            event: event@,
            table: table@,
            body: body.deep_view(),
        },
        StatementKind::Update { table, set_clauses, where_clause } => KindV::Update {
            table: table@,
            set_clauses: set_clauses.deep_view(),
            where_clause: match where_clause {
                Some(w) => Some(w@),
                None => None,
            },
        },
        StatementKind::Delete { table, where_clause } => KindV::Delete {
            table: table@,
            where_clause: match where_clause {
                Some(w) => Some(w@),
                None => None,
            },
        },
        StatementKind::AlterTable { table, operation } => KindV::AlterTable {
            table: table@,
            operation: operation@,
        },
        StatementKind::Drop => KindV::Drop,
        StatementKind::Unknown => KindV::Unknown,
    }
}

/// The views of a vector of statements.
pub open spec fn view_stmts(v: Seq<Statement>) -> Seq<StmtV>
    decreases v,
{
    if v.len() == 0 {
        Seq::empty()
    } else {
        view_stmts(v.drop_last()).push(view_stmt(v.last()))
    }
}

/// The views of a vector of `WITH` clauses.
pub open spec fn view_with_clauses(v: Seq<WithClause>) -> Seq<WithClauseV>
    decreases v,
{
    if v.len() == 0 {
        Seq::empty()
    } else {
        view_with_clauses(v.drop_last()).push(
            WithClauseV { name: v.last().name@, query: Box::new(view_stmt(*v.last().query)) },
        )
    }
}

impl View for Statement {
    type V = StmtV;

    open spec fn view(&self) -> StmtV {
        view_stmt(*self)
    }
}

impl View for StatementKind {
    type V = KindV;

    open spec fn view(&self) -> KindV {
        view_kind(*self)
    }
}

impl View for Column {
    type V = ColumnV;

    open spec fn view(&self) -> ColumnV {
        view_column(*self)
    }
}

impl View for Condition {
    type V = ConditionV;

    open spec fn view(&self) -> ConditionV {
        view_condition(*self)
    }
}

/// `view_stmts` element by element.
pub proof fn lemma_view_stmts_index(v: Seq<Statement>, i: int)
    requires
        0 <= i < v.len(),
    ensures
        view_stmts(v).len() == v.len(),
        view_stmts(v)[i] == view_stmt(v[i]),
    decreases v.len(),
{
    lemma_view_stmts_len(v);
    if i < v.len() - 1 {
        lemma_view_stmts_index(v.drop_last(), i);
    }
}

/// `view_with_clauses` preserves length.
pub proof fn lemma_view_wcs_len(v: Seq<WithClause>)
    ensures
        view_with_clauses(v).len() == v.len(),
    decreases v.len(),
{
    if v.len() > 0 {
        lemma_view_wcs_len(v.drop_last());
    }
}

/// `view_with_clauses` element by element.
pub proof fn lemma_view_wcs_index(v: Seq<WithClause>, i: int)
    requires
        0 <= i < v.len(),
    ensures
        view_with_clauses(v).len() == v.len(),
        view_with_clauses(v)[i] == (WithClauseV {
            name: v[i].name@,
            query: Box::new(view_stmt(*v[i].query)),
        }),
    decreases v.len(),
{
    lemma_view_wcs_len(v);
    if i < v.len() - 1 {
        lemma_view_wcs_index(v.drop_last(), i);
    }
}

/// `view_stmts` preserves length.
pub proof fn lemma_view_stmts_len(v: Seq<Statement>)
    ensures
        view_stmts(v).len() == v.len(),
    decreases v.len(),
{
    if v.len() > 0 {
        lemma_view_stmts_len(v.drop_last());
    }
}

} // verus!

//! Removing every reference to one table from a statement.
//!
//! This is the structural-removal collaborator of the table-granularity
//! search: `SELECT` statements over only the doomed table collapse to
//! `SELECT 1`, other `SELECT`s drop the table from their clauses, triggers
//! on (or mentioning) the table are dropped, views rewrite their inner
//! query, and anything unrecognised keeps its text unchanged.

use crate::statements::types::ColumnV;
use crate::statements::types::Column;
use crate::statements::types::ConditionV;
use crate::statements::types::Condition;
use crate::statements::types::KindV;
use crate::statements::types::Statement;
use crate::statements::types::StatementKind;
use crate::statements::types::StmtV;
use crate::statements::types::WithClauseV;
use crate::statements::types::WithClause;
use crate::statements::types::lemma_view_wcs_index;
use crate::statements::types::lemma_view_wcs_len;
use crate::statements::types::view_column;
use crate::statements::types::view_columns;
use crate::statements::types::view_condition;
use crate::statements::types::view_conditions;
use crate::statements::types::view_kind;
use crate::statements::types::view_stmt;
use crate::statements::types::view_stmts;
use crate::statements::types::view_with_clauses;
use crate::text::contains_str;
use crate::text::is_substring_of;
use crate::text::str_eq;
use crate::utils::join_texts;
use crate::utils::join_with;
use crate::utils::texts_of;
use vstd::prelude::*;
use vstd::string::StringExecFns;

verus! {

broadcast use vstd::std_specs::vec::group_vec_axioms;

/// The `SELECT 1` statement a fully collapsed `SELECT` becomes.
pub open spec fn select_one_v() -> StmtV {
    StmtV {
        original: "SELECT 1"@,
        kind: KindV::Select {
            with_clauses: Seq::empty(),
            columns: seq![ColumnV { table: None, name: "1"@ }],
            tables: Seq::empty(),
            conditions: Seq::empty(),
            subqueries: Seq::empty(),
            is_distinct: false,
        },
    }
}

/// The text a column renders to: `table.name` or bare `name`.
pub open spec fn column_text(c: ColumnV) -> Seq<char> {
    match c.table {
        Some(t) => t + "."@ + c.name,
        None => c.name,
    }
}

/// The rendered `name AS (query)` text of each `WITH` clause.
pub open spec fn with_part_texts(ws: Seq<WithClauseV>) -> Seq<Seq<char>>
    decreases ws.len(),
{
    if ws.len() == 0 {
        Seq::empty()
    } else {
        with_part_texts(ws.drop_last()).push(
            ws.last().name + " AS ("@ + ws.last().query.original + ")"@,
        )
    }
}

/// The full text of each column, table qualifier included.
pub open spec fn column_full_texts(cs: Seq<ColumnV>) -> Seq<Seq<char>>
    decreases cs.len(),
{
    if cs.len() == 0 {
        Seq::empty()
    } else {
        column_full_texts(cs.drop_last()).push(column_text(cs.last()))
    }
}

/// The bare name of each column.
pub open spec fn column_name_texts(cs: Seq<ColumnV>) -> Seq<Seq<char>>
    decreases cs.len(),
{
    if cs.len() == 0 {
        Seq::empty()
    } else {
        column_name_texts(cs.drop_last()).push(cs.last().name)
    }
}

/// The condition text of each condition.
pub open spec fn condition_texts(cs: Seq<ConditionV>) -> Seq<Seq<char>>
    decreases cs.len(),
{
    if cs.len() == 0 {
        Seq::empty()
    } else {
        condition_texts(cs.drop_last()).push(cs.last().column)
    }
}

/// `with_part_texts`, element by element.
pub proof fn lemma_with_part_texts_index(ws: Seq<WithClauseV>, i: int)
    requires
        0 <= i < ws.len(),
    ensures
        with_part_texts(ws).len() == ws.len(),
        with_part_texts(ws)[i] == ws[i].name + " AS ("@ + ws[i].query.original + ")"@,
    decreases ws.len(),
{
    lemma_with_part_texts_len(ws);
    if i < ws.len() - 1 {
        lemma_with_part_texts_index(ws.drop_last(), i);
    }
}

/// `with_part_texts` preserves length.
pub proof fn lemma_with_part_texts_len(ws: Seq<WithClauseV>)
    ensures
        with_part_texts(ws).len() == ws.len(),
    decreases ws.len(),
{
    if ws.len() > 0 {
        lemma_with_part_texts_len(ws.drop_last());
    }
}

/// `column_full_texts`, element by element.
pub proof fn lemma_column_full_texts_index(cs: Seq<ColumnV>, i: int)
    requires
        0 <= i < cs.len(),
    ensures
        column_full_texts(cs).len() == cs.len(),
        column_full_texts(cs)[i] == column_text(cs[i]),
    decreases cs.len(),
{
    lemma_column_full_texts_len(cs);
    if i < cs.len() - 1 {
        lemma_column_full_texts_index(cs.drop_last(), i);
    }
}

/// `column_full_texts` preserves length.
pub proof fn lemma_column_full_texts_len(cs: Seq<ColumnV>)
    ensures
        column_full_texts(cs).len() == cs.len(),
    decreases cs.len(),
{
    if cs.len() > 0 {
        lemma_column_full_texts_len(cs.drop_last());
    }
}

/// `column_name_texts`, element by element.
pub proof fn lemma_column_name_texts_index(cs: Seq<ColumnV>, i: int)
    requires
        0 <= i < cs.len(),
    ensures
        column_name_texts(cs).len() == cs.len(),
        column_name_texts(cs)[i] == cs[i].name,
    decreases cs.len(),
{
    lemma_column_name_texts_len(cs);
    if i < cs.len() - 1 {
        lemma_column_name_texts_index(cs.drop_last(), i);
    }
}

/// `column_name_texts` preserves length.
pub proof fn lemma_column_name_texts_len(cs: Seq<ColumnV>)
    ensures
        column_name_texts(cs).len() == cs.len(),
    decreases cs.len(),
{
    if cs.len() > 0 {
        lemma_column_name_texts_len(cs.drop_last());
    }
}

/// `condition_texts`, element by element.
pub proof fn lemma_condition_texts_index(cs: Seq<ConditionV>, i: int)
    requires
        0 <= i < cs.len(),
    ensures
        condition_texts(cs).len() == cs.len(),
        condition_texts(cs)[i] == cs[i].column,
    decreases cs.len(),
{
    lemma_condition_texts_len(cs);
    if i < cs.len() - 1 {
        lemma_condition_texts_index(cs.drop_last(), i);
    }
}

/// `condition_texts` preserves length.
pub proof fn lemma_condition_texts_len(cs: Seq<ConditionV>)
    ensures
        condition_texts(cs).len() == cs.len(),
    decreases cs.len(),
{
    if cs.len() > 0 {
        lemma_condition_texts_len(cs.drop_last());
    }
}

/// The rebuilt text of a rewritten `SELECT`.
pub open spec fn rebuilt_select_text(
    with_clauses: Seq<WithClauseV>,
    columns: Seq<ColumnV>,
    tables: Seq<Seq<char>>,
    conditions: Seq<ConditionV>,
    is_distinct: bool,
) -> Seq<char> {
    let cols = join_texts(column_full_texts(columns), ", "@);
    let sel = "SELECT "@ + (if is_distinct {
        "DISTINCT "@
    } else {
        Seq::<char>::empty()
    }) + cols;
    let conds = join_texts(condition_texts(conditions), " AND "@);
    let names = join_texts(column_name_texts(columns), ", "@);
    let parts = (if with_clauses.len() > 0 {
        seq!["WITH "@ + join_texts(with_part_texts(with_clauses), ", "@)]
    } else {
        Seq::<Seq<char>>::empty()
    }) + seq![sel] + (if tables.len() > 0 {
        seq!["FROM "@ + join_texts(tables, ", "@)]
    } else {
        Seq::<Seq<char>>::empty()
    }) + (if conditions.len() > 0 {
        seq!["WHERE "@ + conds]
    } else {
        Seq::<Seq<char>>::empty()
    }) + (if columns.len() > 0 {
        seq!["GROUP BY "@ + names]
    } else {
        Seq::<Seq<char>>::empty()
    }) + (if conditions.len() > 0 {
        seq!["HAVING "@ + conds]
    } else {
        Seq::<Seq<char>>::empty()
    }) + (if columns.len() > 0 {
        seq!["ORDER BY "@ + names]
    } else {
        Seq::<Seq<char>>::empty()
    });
    join_texts(parts, " "@)
}

/// The tables a statement refers to: the `FROM` list of a `SELECT` and of
/// all its subqueries, or the tables of a view's inner query.
pub open spec fn tables_of(s: StmtV) -> Seq<Seq<char>>
    decreases s,
{
    match s.kind {
        KindV::Select { tables, subqueries, .. } => tables + tables_of_list(subqueries),
        KindV::CreateView { query, .. } => tables_of(*query),
        _ => Seq::empty(),
    }
}

/// The tables referred to by any statement in a list, in order.
pub open spec fn tables_of_list(v: Seq<StmtV>) -> Seq<Seq<char>>
    decreases v,
{
    if v.len() == 0 {
        Seq::empty()
    } else {
        tables_of_list(v.drop_last()) + tables_of(v.last())
    }
}

/// Whether a trigger body mentions the table anywhere in its text.
pub open spec fn body_mentions(body: Seq<Seq<char>>, table: Seq<char>) -> bool {
    exists|i: int| 0 <= i < body.len() && is_substring_of(table, #[trigger] body[i])
}

/// Removal of one table's references from a statement.
pub open spec fn remove_refs(table: Seq<char>, s: StmtV) -> StmtV
    decreases s,
{
    match s.kind {
        KindV::Select {
            with_clauses,
            columns,
            tables,
            conditions,
            subqueries,
            is_distinct,
        } => {
            if tables.len() == 1 && tables[0] == table {
                select_one_v()
            } else {
                let kept_tables = tables.filter(|t: Seq<char>| t != table);
                if kept_tables.len() == 0 {
                    select_one_v()
                } else {
                    let kept_columns = columns.filter(
                        |c: ColumnV| c.table != Some(table),
                    );
                    let kept_conditions = conditions.filter(
                        |c: ConditionV| c.table != table,
                    );
                    let new_wcs = remove_refs_wcs(table, with_clauses);
                    let new_subs = remove_refs_subs(table, subqueries);
                    StmtV {
                        original: rebuilt_select_text(
                            new_wcs,
                            kept_columns,
                            kept_tables,
                            kept_conditions,
                            is_distinct,
                        ),
                        kind: KindV::Select {
                            with_clauses: new_wcs,
                            columns: kept_columns,
                            tables: kept_tables,
                            conditions: kept_conditions,
                            subqueries: new_subs,
                            is_distinct: is_distinct,
                        },
                    }
                }
            }
        },
        KindV::Trigger { table: trigger_table, body, .. } => {
            if trigger_table == table || body_mentions(body, table) {
                StmtV { original: Seq::empty(), kind: KindV::Unknown }
            } else {
                s
            }
        },
        KindV::CreateView { name, query } => {
            let q = remove_refs(table, *query);
            StmtV {
                original: "CREATE VIEW "@ + name + " AS "@ + q.original,
                kind: KindV::CreateView { name: name, query: Box::new(q) },
            }
        },
        _ => s,
    }
}

/// Removal applied to each `WITH` clause's query.
pub open spec fn remove_refs_wcs(table: Seq<char>, v: Seq<WithClauseV>) -> Seq<WithClauseV>
    decreases v,
{
    if v.len() == 0 {
        Seq::empty()
    } else {
        remove_refs_wcs(table, v.drop_last()).push(
            WithClauseV {
                name: v.last().name,
                query: Box::new(remove_refs(table, *v.last().query)),
            },
        )
    }
}

/// Removal applied to each subquery, dropping subqueries left with no
/// table references.
pub open spec fn remove_refs_subs(table: Seq<char>, v: Seq<StmtV>) -> Seq<StmtV>
    decreases v,
{
    if v.len() == 0 {
        Seq::empty()
    } else {
        let rest = remove_refs_subs(table, v.drop_last());
        let q = remove_refs(table, v.last());
        if tables_of(q).len() > 0 {
            rest.push(q)
        } else {
            rest
        }
    }
}

impl Statement {
    /// A statement holding verbatim text, not yet recognised.
    pub fn new(original: &str) -> (r: Self)
        ensures
            r@.original == original@,
            r@.kind is Unknown,
    {
        Statement { original: original.to_owned(), kind: StatementKind::Unknown }
    }

    /// The created table's name, when this is a `CREATE TABLE`.
    pub fn get_create_table_name(&self) -> (r: Option<&String>)
        ensures
            match self@.kind {
                KindV::CreateTable { name, .. } => r matches Some(n) && n@ == name,
                _ => r is None,
            },
    {
        if let StatementKind::CreateTable { name, .. } = &self.kind {
            Some(name)
        } else {
            None
        }
    }

    /// Rewrite this statement so it no longer references `table`.
    pub fn remove_table_references(&mut self, table: &str)
        ensures
            final(self)@ == remove_refs(table@, old(self)@),
    {
        let r = removed_stmt(self, table);
        *self = r;
    }

    /// Every table this statement references, `FROM` lists of subqueries
    /// included.
    pub fn get_tables(&self) -> (r: Vec<String>)
        ensures
            r.deep_view() == tables_of(self@),
    {
        tables_of_stmt(self)
    }
}

/// Copy a vector of strings.
fn clone_string_vec(v: &Vec<String>) -> (r: Vec<String>)
    ensures
        r.deep_view() == v.deep_view(),
        r@.len() == v@.len(),
{
    crate::utils::copy_strings(v)
}

/// Copy a vector of string groups.
fn clone_string_groups(v: &Vec<Vec<String>>) -> (r: Vec<Vec<String>>)
    ensures
        r.deep_view() == v.deep_view(),
{
    let mut r: Vec<Vec<String>> = Vec::new();
    let mut i: usize = 0;
    while i < v.len()
        invariant
            i <= v@.len(),
            r@.len() == i,
            forall|k: int| 0 <= k < i ==> #[trigger] r@[k].deep_view() == v@[k].deep_view(),
        decreases v@.len() - i,
    {
        r.push(clone_string_vec(&v[i]));
        i += 1;
    }
    proof {
        assert forall|j: int| 0 <= j < v@.len() implies r.deep_view()[j] == v.deep_view()[j] by {
            assert(r.deep_view()[j] == r@[j].deep_view());
            assert(v.deep_view()[j] == v@[j].deep_view());
        }
        assert(r.deep_view() =~= v.deep_view());
    }
    r
}

/// Copy one column.
fn clone_column(c: &Column) -> (r: Column)
    ensures
        view_column(r) == view_column(*c),
{
    Column {
        table: match &c.table {
            Some(t) => Some(t.clone()),
            None => None,
        },
        name: c.name.clone(),
    }
}

/// Copy a vector of columns.
fn clone_columns(v: &Vec<Column>) -> (r: Vec<Column>)
    ensures
        view_columns(r@) == view_columns(v@),
        r@.len() == v@.len(),
{
    let mut r: Vec<Column> = Vec::new();
    let mut i: usize = 0;
    while i < v.len()
        invariant
            i <= v@.len(),
            r@.len() == i,
            forall|k: int| 0 <= k < i ==> view_column(#[trigger] r@[k]) == view_column(v@[k]),
        decreases v@.len() - i,
    {
        r.push(clone_column(&v[i]));
        i += 1;
    }
    proof {
        assert forall|j: int| 0 <= j < v@.len() implies view_columns(r@)[j] == view_columns(
            v@,
        )[j] by {
            assert(view_columns(r@)[j] == view_column(r@[j]));
            assert(view_columns(v@)[j] == view_column(v@[j]));
        }
        assert(view_columns(r@) =~= view_columns(v@));
    }
    r
}

/// Copy one condition.
fn clone_condition(c: &Condition) -> (r: Condition)
    ensures
        view_condition(r) == view_condition(*c),
{
    Condition { table: c.table.clone(), column: c.column.clone(), value: c.value.clone() }
}

/// Copy a vector of conditions.
fn clone_conditions(v: &Vec<Condition>) -> (r: Vec<Condition>)
    ensures
        view_conditions(r@) == view_conditions(v@),
        r@.len() == v@.len(),
{
    let mut r: Vec<Condition> = Vec::new();
    let mut i: usize = 0;
    while i < v.len()
        invariant
            i <= v@.len(),
            r@.len() == i,
            forall|k: int|
                0 <= k < i ==> view_condition(#[trigger] r@[k]) == view_condition(v@[k]),
        decreases v@.len() - i,
    {
        r.push(clone_condition(&v[i]));
        i += 1;
    }
    proof {
        assert forall|j: int| 0 <= j < v@.len() implies view_conditions(r@)[j] == view_conditions(
            v@,
        )[j] by {
            assert(view_conditions(r@)[j] == view_condition(r@[j]));
            assert(view_conditions(v@)[j] == view_condition(v@[j]));
        }
        assert(view_conditions(r@) =~= view_conditions(v@));
    }
    r
}

/// Copy one statement, view for view.
pub fn clone_statement(s: &Statement) -> (r: Statement)
    ensures
        r@ == s@,
    decreases *s,
{
    Statement { original: s.original.clone(), kind: clone_kind(&s.kind) }
}

/// Copy one statement kind, view for view.
#[verifier::loop_isolation(false)]
fn clone_kind(k: &StatementKind) -> (r: StatementKind)
    ensures
        view_kind(r) == view_kind(*k),
    decreases *k,
{
    match k {
        StatementKind::CreateTable { name, columns } => StatementKind::CreateTable {
            name: name.clone(),
            columns: clone_columns(columns),
        },
        StatementKind::Insert { table, columns, values } => StatementKind::Insert {
            table: table.clone(),
            columns: clone_string_vec(columns),
            values: clone_string_groups(values),
        },
        StatementKind::Select {
            with_clauses,
            columns,
            tables,
            conditions,
            subqueries,
            is_distinct,
        } => {
            let mut wcs: Vec<WithClause> = Vec::new();
            let mut i: usize = 0;
            while i < with_clauses.len()
                invariant
                    i <= with_clauses@.len(),
                    view_with_clauses(wcs@) == view_with_clauses(
                        with_clauses@.subrange(0, i as int),
                    ),
                decreases with_clauses@.len() - i,
            {
                let w = &with_clauses[i];
                proof {
                    assert((*k) is Select);
                    assert((*k)->Select_with_clauses == *with_clauses);
                    vstd::seq::axiom_seq_index_decreases(with_clauses@, i as int);
                    assert(decreases_to!(*k => (*k)->Select_with_clauses));
                    assert(decreases_to!((*k)->Select_with_clauses => with_clauses@));
                    assert(decreases_to!(with_clauses@[i as int] => with_clauses@[i as int].query));
                }
                let q = clone_statement(&w.query);
                let ghost old_wcs = wcs@;
                wcs.push(WithClause { name: w.name.clone(), query: Box::new(q) });
                proof {
                    let pre = with_clauses@.subrange(0, i as int);
                    let nxt = with_clauses@.subrange(0, i + 1);
                    assert(nxt.drop_last() =~= pre);
                    assert(nxt.last() == with_clauses@[i as int]);
                    assert(wcs@.drop_last() =~= old_wcs);
                    assert(view_with_clauses(wcs@) == view_with_clauses(old_wcs).push(
                        WithClauseV {
                            name: wcs@.last().name@,
                            query: Box::new(view_stmt(*wcs@.last().query)),
                        },
                    ));
                    assert(view_with_clauses(wcs@) =~= view_with_clauses(nxt));
                }
                i += 1;
            }
            let mut subs: Vec<Statement> = Vec::new();
            let mut j: usize = 0;
            while j < subqueries.len()
                invariant
                    j <= subqueries@.len(),
                    view_stmts(subs@) == view_stmts(subqueries@.subrange(0, j as int)),
                decreases subqueries@.len() - j,
            {
                proof {
                    let kk = *k;
                    assert(decreases_to!(kk => kk->Select_subqueries));
                    assert(decreases_to!(kk->Select_subqueries => kk->Select_subqueries@));
                    assert(decreases_to!(kk->Select_subqueries@ => kk->Select_subqueries@[j as int]));
                }
                let ghost old_subs = subs@;
                subs.push(clone_statement(&subqueries[j]));
                proof {
                    let pre = subqueries@.subrange(0, j as int);
                    let nxt = subqueries@.subrange(0, j + 1);
                    assert(nxt.drop_last() =~= pre);
                    assert(nxt.last() == subqueries@[j as int]);
                    assert(subs@.drop_last() =~= old_subs);
                    assert(view_stmts(subs@) == view_stmts(old_subs).push(view_stmt(subs@.last())));
                    assert(view_stmts(subs@) =~= view_stmts(nxt));
                }
                j += 1;
            }
            proof {
                assert(with_clauses@.subrange(0, with_clauses@.len() as int) =~= with_clauses@);
                assert(subqueries@.subrange(0, subqueries@.len() as int) =~= subqueries@);
            }
            StatementKind::Select {
                with_clauses: wcs,
                columns: clone_columns(columns),
                tables: clone_string_vec(tables),
                conditions: clone_conditions(conditions),
                subqueries: subs,
                is_distinct: *is_distinct,
            }
        },
        StatementKind::CreateView { name, query } => StatementKind::CreateView {
            name: name.clone(),
            query: Box::new(clone_statement(query)),
        },
        StatementKind::Trigger { name, timing, event, table, body } => StatementKind::Trigger {
            name: name.clone(),
            timing: timing.clone(),
            event: event.clone(),
            table: table.clone(),
            body: clone_string_vec(body),
        },
        StatementKind::Update { table, set_clauses, where_clause } => StatementKind::Update {
            table: table.clone(),
            set_clauses: clone_string_vec(set_clauses),
            where_clause: match where_clause {
                Some(w) => Some(w.clone()),
                None => None,
            },
        },
        StatementKind::Delete { table, where_clause } => StatementKind::Delete {
            table: table.clone(),
            where_clause: match where_clause {
                Some(w) => Some(w.clone()),
                None => None,
            },
        },
        StatementKind::AlterTable { table, operation } => StatementKind::AlterTable {
            table: table.clone(),
            operation: operation.clone(),
        },
        StatementKind::Drop => StatementKind::Drop,
        StatementKind::Unknown => StatementKind::Unknown,
    }
}

impl crate::utils::ToText for Statement {
    open spec fn text(&self) -> Seq<char> {
        self@.original
    }

    fn to_text(&self) -> (r: String) {
        self.original.clone()
    }
}

impl Clone for Statement {
    /// A deep copy with the same view.
    fn clone(&self) -> (r: Self)
        ensures
            r@ == self@,
    {
        clone_statement(self)
    }
}

/// The `SELECT 1` fallback statement.
fn select_one() -> (r: Statement)
    ensures
        r@ == select_one_v(),
{
    let mut columns: Vec<Column> = Vec::new();
    columns.push(Column { table: None, name: String::from_str("1") });
    let with_clauses: Vec<WithClause> = Vec::new();
    let tables: Vec<String> = Vec::new();
    let conditions: Vec<Condition> = Vec::new();
    let subqueries: Vec<Statement> = Vec::new();
    proof {
        assert(view_columns(columns@) =~= select_one_v().kind->Select_columns);
        assert(view_with_clauses(with_clauses@) =~= Seq::<WithClauseV>::empty());
        assert(view_stmts(subqueries@) =~= Seq::<StmtV>::empty());
        assert(tables.deep_view() =~= Seq::<Seq<char>>::empty());
        assert(view_conditions(conditions@) =~= Seq::<ConditionV>::empty());
    }
    Statement {
        original: String::from_str("SELECT 1"),
        kind: StatementKind::Select {
            with_clauses,
            columns,
            tables,
            conditions,
            subqueries,
            is_distinct: false,
        },
    }
}

/// The tables referenced by a statement.
#[verifier::loop_isolation(false)]
fn tables_of_stmt(s: &Statement) -> (r: Vec<String>)
    ensures
        r.deep_view() == tables_of(s@),
    decreases *s,
{
    match &s.kind {
        StatementKind::Select { tables, subqueries, .. } => {
            let mut all = clone_string_vec(tables);
            let mut i: usize = 0;
            while i < subqueries.len()
                invariant
                    i <= subqueries@.len(),
                    all.deep_view() == tables.deep_view() + tables_of_list(
                        view_stmts(subqueries@.subrange(0, i as int)),
                    ),
                decreases subqueries@.len() - i,
            {
                proof {
                    let ss = *s;
                    assert(decreases_to!(ss => ss.kind));
                    assert(decreases_to!(ss.kind => ss.kind->Select_subqueries));
                    assert(decreases_to!(ss.kind->Select_subqueries => ss.kind->Select_subqueries@));
                    assert(decreases_to!(ss.kind->Select_subqueries@ => ss.kind->Select_subqueries@[i as int]));
                }
                let mut more = tables_of_stmt(&subqueries[i]);
                let ghost before = all.deep_view();
                let mut m: usize = 0;
                while m < more.len()
                    invariant
                        m <= more@.len(),
                        all.deep_view() == before + more.deep_view().subrange(0, m as int),
                    decreases more@.len() - m,
                {
                    let item = more[m].clone();
                    let ghost prev = all.deep_view();
                    all.push(item);
                    proof {
                        assert(all.deep_view() =~= prev.push(more.deep_view()[m as int]));
                        assert(more.deep_view().subrange(0, m + 1)
                            =~= more.deep_view().subrange(0, m as int).push(
                            more.deep_view()[m as int],
                        ));
                        assert(before + more.deep_view().subrange(0, m as int).push(
                            more.deep_view()[m as int],
                        ) =~= (before + more.deep_view().subrange(0, m as int)).push(
                            more.deep_view()[m as int],
                        ));
                    }
                    m += 1;
                }
                proof {
                    assert(more.deep_view().subrange(0, more@.len() as int)
                        =~= more.deep_view());
                    let vs = view_stmts(subqueries@.subrange(0, i as int));
                    let x = view_stmt(subqueries@[i as int]);
                    assert(subqueries@.subrange(0, i + 1).drop_last() =~= subqueries@.subrange(
                        0,
                        i as int,
                    ));
                    assert(view_stmts(subqueries@.subrange(0, i + 1)) == vs.push(x));
                    assert(vs.push(x).drop_last() =~= vs);
                    assert(tables_of_list(vs.push(x)) == tables_of_list(vs) + tables_of(x));
                    assert(all.deep_view() =~= tables.deep_view() + tables_of_list(
                        view_stmts(subqueries@.subrange(0, i + 1)),
                    ));
                }
                i += 1;
            }
            proof {
                assert(subqueries@.subrange(0, subqueries@.len() as int) =~= subqueries@);
            }
            all
        },
        StatementKind::CreateView { query, .. } => tables_of_stmt(query),
        _ => {
            let r: Vec<String> = Vec::new();
            proof {
                assert(r.deep_view() =~= Seq::<Seq<char>>::empty());
            }
            r
        },
    }
}

/// Removal of one table's references, functionally.
#[verifier::loop_isolation(false)]
pub fn removed_stmt(s: &Statement, table: &str) -> (r: Statement)
    ensures
        r@ == remove_refs(table@, s@),
    decreases *s,
{
    match &s.kind {
        StatementKind::Select {
            with_clauses,
            columns,
            tables,
            conditions,
            subqueries,
            is_distinct,
        } => {
            if tables.len() == 1 && str_eq(tables[0].as_str(), table) {
                return select_one();
            }
            let ghost keep_t = |t: Seq<char>| t != table@;
            let mut kept_tables: Vec<String> = Vec::new();
            let mut i: usize = 0;
            while i < tables.len()
                invariant
                    i <= tables@.len(),
                    kept_tables.deep_view() == tables.deep_view().subrange(
                        0,
                        i as int,
                    ).filter(keep_t),
                    keep_t == (|t: Seq<char>| t != table@),
                decreases tables@.len() - i,
            {
                proof {
                    reveal(Seq::filter);
                    assert(tables.deep_view().subrange(0, i + 1).drop_last()
                        =~= tables.deep_view().subrange(0, i as int));
                }
                if !str_eq(tables[i].as_str(), table) {
                    kept_tables.push(tables[i].clone());
                    proof {
                        assert(kept_tables.deep_view() =~= tables.deep_view().subrange(
                            0,
                            i as int,
                        ).filter(keep_t).push(tables.deep_view()[i as int]));
                    }
                }
                i += 1;
            }
            proof {
                assert(tables.deep_view().subrange(0, tables@.len() as int)
                    =~= tables.deep_view());
            }
            if kept_tables.len() == 0 {
                return select_one();
            }
            let ghost keep_c = |c: ColumnV| c.table != Some(table@);
            let mut kept_columns: Vec<Column> = Vec::new();
            let mut i: usize = 0;
            while i < columns.len()
                invariant
                    i <= columns@.len(),
                    view_columns(kept_columns@) == view_columns(columns@).subrange(
                        0,
                        i as int,
                    ).filter(keep_c),
                    keep_c == (|c: ColumnV| c.table != Some(table@)),
                decreases columns@.len() - i,
            {
                proof {
                    reveal(Seq::filter);
                    assert(view_columns(columns@).subrange(0, i + 1).drop_last()
                        =~= view_columns(columns@).subrange(0, i as int));
                }
                let keep = match &columns[i].table {
                    Some(t) => !str_eq(t.as_str(), table),
                    None => true,
                };
                if keep {
                    kept_columns.push(clone_column(&columns[i]));
                    proof {
                        assert(view_columns(kept_columns@) =~= view_columns(
                            columns@,
                        ).subrange(0, i as int).filter(keep_c).push(
                            view_columns(columns@)[i as int],
                        ));
                    }
                }
                i += 1;
            }
            proof {
                assert(view_columns(columns@).subrange(0, columns@.len() as int)
                    =~= view_columns(columns@));
            }
            let ghost keep_w = |c: ConditionV| c.table != table@;
            let mut kept_conditions: Vec<Condition> = Vec::new();
            let mut i: usize = 0;
            while i < conditions.len()
                invariant
                    i <= conditions@.len(),
                    view_conditions(kept_conditions@) == view_conditions(
                        conditions@,
                    ).subrange(0, i as int).filter(keep_w),
                    keep_w == (|c: ConditionV| c.table != table@),
                decreases conditions@.len() - i,
            {
                proof {
                    reveal(Seq::filter);
                    assert(view_conditions(conditions@).subrange(0, i + 1).drop_last()
                        =~= view_conditions(conditions@).subrange(0, i as int));
                }
                if !str_eq(conditions[i].table.as_str(), table) {
                    kept_conditions.push(clone_condition(&conditions[i]));
                    proof {
                        assert(view_conditions(kept_conditions@) =~= view_conditions(
                            conditions@,
                        ).subrange(0, i as int).filter(keep_w).push(
                            view_conditions(conditions@)[i as int],
                        ));
                    }
                }
                i += 1;
            }
            proof {
                assert(view_conditions(conditions@).subrange(0, conditions@.len() as int)
                    =~= view_conditions(conditions@));
            }
            let mut new_wcs: Vec<WithClause> = Vec::new();
            let mut i: usize = 0;
            while i < with_clauses.len()
                invariant
                    i <= with_clauses@.len(),
                    view_with_clauses(new_wcs@) == remove_refs_wcs(
                        table@,
                        view_with_clauses(with_clauses@.subrange(0, i as int)),
                    ),
                decreases with_clauses@.len() - i,
            {
                let w = &with_clauses[i];
                proof {
                    let ss = *s;
                    assert(decreases_to!(ss => ss.kind));
                    assert(decreases_to!(ss.kind => ss.kind->Select_with_clauses));
                    assert(decreases_to!(ss.kind->Select_with_clauses => ss.kind->Select_with_clauses@));
                    assert(decreases_to!(ss.kind->Select_with_clauses@ => ss.kind->Select_with_clauses@[i as int]));
                    assert(decreases_to!(ss.kind->Select_with_clauses@[i as int] => ss.kind->Select_with_clauses@[i as int].query));
                }
                let q = removed_stmt(&w.query, table);
                let ghost old_wcs = new_wcs@;
                new_wcs.push(WithClause { name: w.name.clone(), query: Box::new(q) });
                proof {
                    let pre = with_clauses@.subrange(0, i as int);
                    let nxt = with_clauses@.subrange(0, i + 1);
                    assert(nxt.drop_last() =~= pre);
                    assert(nxt.last() == with_clauses@[i as int]);
                    let x = WithClauseV {
                        name: with_clauses@[i as int].name@,
                        query: Box::new(view_stmt(*with_clauses@[i as int].query)),
                    };
                    assert(view_with_clauses(nxt) == view_with_clauses(pre).push(x));
                    assert(view_with_clauses(pre).push(x).drop_last() =~= view_with_clauses(
                        pre,
                    ));
                    assert(view_with_clauses(pre).push(x).last() == x);
                    assert(remove_refs_wcs(table@, view_with_clauses(pre).push(x))
                        == remove_refs_wcs(table@, view_with_clauses(pre)).push(
                        WithClauseV {
                            name: x.name,
                            query: Box::new(remove_refs(table@, *x.query)),
                        },
                    ));
                    assert(new_wcs@.drop_last() =~= old_wcs);
                    assert(view_with_clauses(new_wcs@) == view_with_clauses(old_wcs).push(
                        WithClauseV {
                            name: new_wcs@.last().name@,
                            query: Box::new(view_stmt(*new_wcs@.last().query)),
                        },
                    ));
                    assert(view_with_clauses(new_wcs@) =~= remove_refs_wcs(
                        table@,
                        view_with_clauses(nxt),
                    ));
                }
                i += 1;
            }
            proof {
                assert(with_clauses@.subrange(0, with_clauses@.len() as int)
                    =~= with_clauses@);
            }
            let mut new_subs: Vec<Statement> = Vec::new();
            let mut i: usize = 0;
            while i < subqueries.len()
                invariant
                    i <= subqueries@.len(),
                    view_stmts(new_subs@) == remove_refs_subs(
                        table@,
                        view_stmts(subqueries@.subrange(0, i as int)),
                    ),
                decreases subqueries@.len() - i,
            {
                proof {
                    let ss = *s;
                    assert(decreases_to!(ss => ss.kind));
                    assert(decreases_to!(ss.kind => ss.kind->Select_subqueries));
                    assert(decreases_to!(ss.kind->Select_subqueries => ss.kind->Select_subqueries@));
                    assert(decreases_to!(ss.kind->Select_subqueries@ => ss.kind->Select_subqueries@[i as int]));
                }
                let q = removed_stmt(&subqueries[i], table);
                let ts = tables_of_stmt(&q);
                proof {
                    let pre = view_stmts(subqueries@.subrange(0, i as int));
                    let x = view_stmt(subqueries@[i as int]);
                    assert(subqueries@.subrange(0, i + 1).drop_last() =~= subqueries@.subrange(
                        0,
                        i as int,
                    ));
                    assert(view_stmts(subqueries@.subrange(0, i + 1)) == pre.push(x));
                    assert(pre.push(x).drop_last() =~= pre);
                    assert(pre.push(x).last() == x);
                    assert(remove_refs_subs(table@, pre.push(x)) == (if tables_of(
                        remove_refs(table@, x),
                    ).len() > 0 {
                        remove_refs_subs(table@, pre).push(remove_refs(table@, x))
                    } else {
                        remove_refs_subs(table@, pre)
                    }));
                }
                if ts.len() > 0 {
                    let ghost old_new_subs = new_subs@;
                    new_subs.push(q);
                    proof {
                        assert(new_subs@.drop_last() =~= old_new_subs);
                        assert(view_stmts(new_subs@) == view_stmts(old_new_subs).push(
                            view_stmt(new_subs@.last()),
                        ));
                    }
                }
                i += 1;
            }
            proof {
                assert(subqueries@.subrange(0, subqueries@.len() as int) =~= subqueries@);
            }
            let original = rebuild_select(
                &new_wcs,
                &kept_columns,
                &kept_tables,
                &kept_conditions,
                *is_distinct,
            );
            Statement {
                original,
                kind: StatementKind::Select {
                    with_clauses: new_wcs,
                    columns: kept_columns,
                    tables: kept_tables,
                    conditions: kept_conditions,
                    subqueries: new_subs,
                    is_distinct: *is_distinct,
                },
            }
        },
        StatementKind::Trigger { table: trigger_table, body, .. } => {
            let gone = if str_eq(trigger_table.as_str(), table) {
                true
            } else {
                body_mentions_table(body, table)
            };
            if gone {
                Statement { original: String::new(), kind: StatementKind::Unknown }
            } else {
                clone_statement(s)
            }
        },
        StatementKind::CreateView { name, query } => {
            let q = removed_stmt(query, table);
            let mut original = String::from_str("CREATE VIEW ");
            original.append(name.as_str());
            original.append(" AS ");
            original.append(q.original.as_str());
            Statement {
                original,
                kind: StatementKind::CreateView { name: name.clone(), query: Box::new(q) },
            }
        },
        _ => clone_statement(s),
    }
}

/// Whether any statement of a trigger body mentions the table.
fn body_mentions_table(body: &Vec<String>, table: &str) -> (r: bool)
    ensures
        r == body_mentions(body.deep_view(), table@),
{
    let mut i: usize = 0;
    while i < body.len()
        invariant
            i <= body@.len(),
            forall|k: int|
                0 <= k < i ==> !is_substring_of(table@, #[trigger] body.deep_view()[k]),
        decreases body@.len() - i,
    {
        if contains_str(body[i].as_str(), table) {
            proof {
                assert(is_substring_of(table@, body.deep_view()[i as int]));
            }
            return true;
        }
        i += 1;
    }
    false
}

/// Render a rewritten `SELECT` back to text.
#[verifier::loop_isolation(false)]
fn rebuild_select(
    with_clauses: &Vec<WithClause>,
    columns: &Vec<Column>,
    tables: &Vec<String>,
    conditions: &Vec<Condition>,
    is_distinct: bool,
) -> (r: String)
    ensures
        r@ == rebuilt_select_text(
            view_with_clauses(with_clauses@),
            view_columns(columns@),
            tables.deep_view(),
            view_conditions(conditions@),
            is_distinct,
        ),
{
    let ghost vw = view_with_clauses(with_clauses@);
    let ghost vc = view_columns(columns@);
    let ghost vd = view_conditions(conditions@);
    let mut with_parts: Vec<String> = Vec::new();
    let mut i: usize = 0;
    while i < with_clauses.len()
        invariant
            i <= with_clauses@.len(),
            with_parts@.len() == i,
            forall|k: int|
                0 <= k < i ==> (#[trigger] with_parts@[k])@ == with_clauses@[k].name@
                    + " AS ("@ + with_clauses@[k].query.original@ + ")"@,
        decreases with_clauses@.len() - i,
    {
        let w = &with_clauses[i];
        let mut part = w.name.clone();
        part.append(" AS (");
        part.append(w.query.original.as_str());
        part.append(")");
        with_parts.push(part);
        i += 1;
    }
    proof {
        lemma_view_wcs_len(with_clauses@);
        assert forall|j: int| 0 <= j < with_clauses@.len() implies texts_of(with_parts@)[j]
            == with_part_texts(vw)[j] by {
            lemma_view_wcs_index(with_clauses@, j);
            lemma_with_part_texts_index(vw, j);
        }
        lemma_with_part_texts_len(vw);
        assert(texts_of(with_parts@) =~= with_part_texts(vw));
    }
    let mut col_texts: Vec<String> = Vec::new();
    let mut i: usize = 0;
    while i < columns.len()
        invariant
            i <= columns@.len(),
            col_texts@.len() == i,
            forall|k: int|
                0 <= k < i ==> (#[trigger] col_texts@[k])@ == column_text(
                    view_column(columns@[k]),
                ),
        decreases columns@.len() - i,
    {
        let c = &columns[i];
        let t = match &c.table {
            Some(tbl) => {
                let mut t = tbl.clone();
                t.append(".");
                t.append(c.name.as_str());
                t
            },
            None => c.name.clone(),
        };
        col_texts.push(t);
        i += 1;
    }
    proof {
        assert forall|j: int| 0 <= j < columns@.len() implies texts_of(col_texts@)[j]
            == column_full_texts(vc)[j] by {
            lemma_column_full_texts_index(vc, j);
            assert(vc[j] == view_column(columns@[j]));
        }
        lemma_column_full_texts_len(vc);
        assert(texts_of(col_texts@) =~= column_full_texts(vc));
    }
    let mut col_names: Vec<String> = Vec::new();
    let mut i: usize = 0;
    while i < columns.len()
        invariant
            i <= columns@.len(),
            col_names@.len() == i,
            forall|k: int| 0 <= k < i ==> (#[trigger] col_names@[k])@ == columns@[k].name@,
        decreases columns@.len() - i,
    {
        col_names.push(columns[i].name.clone());
        i += 1;
    }
    proof {
        assert forall|j: int| 0 <= j < columns@.len() implies texts_of(col_names@)[j]
            == column_name_texts(vc)[j] by {
            lemma_column_name_texts_index(vc, j);
            assert(vc[j] == view_column(columns@[j]));
        }
        lemma_column_name_texts_len(vc);
        assert(texts_of(col_names@) =~= column_name_texts(vc));
    }
    let mut cond_texts: Vec<String> = Vec::new();
    let mut i: usize = 0;
    while i < conditions.len()
        invariant
            i <= conditions@.len(),
            cond_texts@.len() == i,
            forall|k: int| 0 <= k < i ==> (#[trigger] cond_texts@[k])@ == conditions@[k].column@,
        decreases conditions@.len() - i,
    {
        cond_texts.push(conditions[i].column.clone());
        i += 1;
    }
    proof {
        assert forall|j: int| 0 <= j < conditions@.len() implies texts_of(cond_texts@)[j]
            == condition_texts(vd)[j] by {
            lemma_condition_texts_index(vd, j);
            assert(vd[j] == view_condition(conditions@[j]));
        }
        lemma_condition_texts_len(vd);
        assert(texts_of(cond_texts@) =~= condition_texts(vd));
    }
    let table_texts = clone_string_vec(tables);
    proof {
        assert(texts_of(table_texts@) =~= tables.deep_view());
    }
    let mut parts: Vec<String> = Vec::new();
    let ghost spec_parts = (if vw.len() > 0 {
        seq!["WITH "@ + join_texts(with_part_texts(vw), ", "@)]
    } else {
        Seq::<Seq<char>>::empty()
    });
    if with_parts.len() > 0 {
        let mut p = String::from_str("WITH ");
        let joined = join_with(&with_parts, ", ");
        p.append(joined.as_str());
        parts.push(p);
    }
    proof {
        lemma_view_wcs_len(with_clauses@);
        assert(texts_of(parts@) =~= spec_parts);
    }
    let mut sel = String::from_str("SELECT ");
    if is_distinct {
        sel.append("DISTINCT ");
    }
    let cols_joined = join_with(&col_texts, ", ");
    sel.append(cols_joined.as_str());
    let ghost spec_sel = "SELECT "@ + (if is_distinct {
        "DISTINCT "@
    } else {
        Seq::<char>::empty()
    }) + join_texts(column_full_texts(vc), ", "@);
    proof {
        assert(sel@ =~= spec_sel);
    }
    let ghost before_sel = texts_of(parts@);
    parts.push(sel);
    proof {
        assert(texts_of(parts@) =~= before_sel + seq![spec_sel]);
    }
    let ghost spec_from = (if tables.deep_view().len() > 0 {
        seq!["FROM "@ + join_texts(tables.deep_view(), ", "@)]
    } else {
        Seq::<Seq<char>>::empty()
    });
    let ghost before_from = texts_of(parts@);
    if table_texts.len() > 0 {
        let mut p = String::from_str("FROM ");
        let joined = join_with(&table_texts, ", ");
        p.append(joined.as_str());
        parts.push(p);
    }
    proof {
        assert(texts_of(parts@) =~= before_from + spec_from);
    }
    let ghost spec_conds = join_texts(condition_texts(vd), " AND "@);
    let ghost spec_where = (if vd.len() > 0 {
        seq!["WHERE "@ + spec_conds]
    } else {
        Seq::<Seq<char>>::empty()
    });
    let ghost before_where = texts_of(parts@);
    if cond_texts.len() > 0 {
        let mut p = String::from_str("WHERE ");
        let joined = join_with(&cond_texts, " AND ");
        p.append(joined.as_str());
        parts.push(p);
    }
    proof {
        lemma_condition_texts_len(vd);
        assert(texts_of(parts@) =~= before_where + spec_where);
    }
    let ghost spec_names = join_texts(column_name_texts(vc), ", "@);
    let ghost spec_group = (if vc.len() > 0 {
        seq!["GROUP BY "@ + spec_names]
    } else {
        Seq::<Seq<char>>::empty()
    });
    let ghost before_group = texts_of(parts@);
    if col_names.len() > 0 {
        let mut p = String::from_str("GROUP BY ");
        let joined = join_with(&col_names, ", ");
        p.append(joined.as_str());
        parts.push(p);
    }
    proof {
        lemma_column_name_texts_len(vc);
        lemma_column_full_texts_len(vc);
        assert(texts_of(parts@) =~= before_group + spec_group);
    }
    let ghost spec_having = (if vd.len() > 0 {
        seq!["HAVING "@ + spec_conds]
    } else {
        Seq::<Seq<char>>::empty()
    });
    let ghost before_having = texts_of(parts@);
    if cond_texts.len() > 0 {
        let mut p = String::from_str("HAVING ");
        let joined = join_with(&cond_texts, " AND ");
        p.append(joined.as_str());
        parts.push(p);
    }
    proof {
        assert(texts_of(parts@) =~= before_having + spec_having);
    }
    let ghost spec_order = (if vc.len() > 0 {
        seq!["ORDER BY "@ + spec_names]
    } else {
        Seq::<Seq<char>>::empty()
    });
    let ghost before_order = texts_of(parts@);
    if col_names.len() > 0 {
        let mut p = String::from_str("ORDER BY ");
        let joined = join_with(&col_names, ", ");
        p.append(joined.as_str());
        parts.push(p);
    }
    proof {
        assert(texts_of(parts@) =~= before_order + spec_order);
    }
    let r = join_with(&parts, " ");
    proof {
        assert(texts_of(parts@) =~= spec_parts + seq![spec_sel] + spec_from + spec_where
            + spec_group + spec_having + spec_order);
    }
    r
}

} // verus!

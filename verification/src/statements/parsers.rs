//! Best-effort statement parsers.
//!
//! Each parser recognises one statement form by scanning its text; anything
//! it cannot recognise is reported as an error and falls back to a verbatim
//! `Unknown` statement.  The parsers preserve the statement's text exactly;
//! the recognised fields are best effort, as the structural search only
//! needs them to locate and drop table references.

use crate::statements::types::Column;
use crate::statements::types::KindV;
use crate::statements::types::Statement;
use crate::statements::types::StatementKind;
use crate::statements::types::Condition;
use crate::text::chars_of;
use crate::text::is_word_char;
use crate::text::is_ws;
use crate::text::is_ws_char;
use crate::text::string_from_chars;
use crate::text::upper_eq_char;
use vstd::prelude::*;
use vstd::string::StrSliceExecFns;

verus! {

use crate::parser::ParseError;

/// The end of the whitespace run starting at `i`.
pub open spec fn ws_run_end(s: Seq<char>, i: int) -> int
    decreases s.len() - i,
{
    if 0 <= i && i < s.len() && is_ws(s[i]) {
        ws_run_end(s, i + 1)
    } else {
        i
    }
}

/// The end of the word-character run starting at `i`.
pub open spec fn word_run_end(s: Seq<char>, i: int) -> int
    decreases s.len() - i,
{
    if 0 <= i && i < s.len() && crate::text::is_word_char_spec(s[i]) {
        word_run_end(s, i + 1)
    } else {
        i
    }
}

/// Whether the upper-case keyword `kw` matches at `i` of `s`,
/// case-insensitively.
pub open spec fn kw_at(s: Seq<char>, i: int, kw: Seq<char>) -> bool {
    &&& 0 <= i
    &&& i + kw.len() <= s.len()
    &&& forall|j: int| 0 <= j < kw.len() ==> crate::text::upper_eq(#[trigger] s[i + j], kw[j])
}

/// First position at or after `i` holding a non-whitespace character.
#[verifier::loop_isolation(false)]
fn skip_ws(cs: &Vec<char>, i: usize) -> (r: usize)
    requires
        i <= cs@.len(),
    ensures
        i <= r <= cs@.len(),
        r < cs@.len() ==> !is_ws(cs@[r as int]),
        r == ws_run_end(cs@, i as int),
{
    let mut p = i;
    while p < cs.len() && is_ws_char(cs[p])
        invariant
            i <= p <= cs@.len(),
            ws_run_end(cs@, i as int) == ws_run_end(cs@, p as int),
        decreases cs@.len() - p,
    {
        p += 1;
    }
    p
}

/// First position at or after `i` holding a non-word character.
#[verifier::loop_isolation(false)]
fn skip_word(cs: &Vec<char>, i: usize) -> (r: usize)
    requires
        i <= cs@.len(),
    ensures
        i <= r <= cs@.len(),
        r == word_run_end(cs@, i as int),
{
    let mut p = i;
    while p < cs.len() && is_word_char(cs[p])
        invariant
            i <= p <= cs@.len(),
            word_run_end(cs@, i as int) == word_run_end(cs@, p as int),
        decreases cs@.len() - p,
    {
        p += 1;
    }
    p
}

/// Whether the upper-case keyword `kw` matches at `i`, case-insensitively.
#[verifier::loop_isolation(false)]
fn match_ci(cs: &Vec<char>, i: usize, kw: &str) -> (r: bool)
    requires
        i <= cs@.len(),
    ensures
        r ==> i + kw@.len() <= cs@.len(),
{
    let ks = chars_of(kw);
    if ks.len() > cs.len() - i {
        return false;
    }
    let mut j: usize = 0;
    while j < ks.len()
        invariant
            i + ks@.len() <= cs@.len(),
            j <= ks@.len(),
            ks@ == kw@,
        decreases ks@.len() - j,
    {
        if !upper_eq_char(cs[i + j], ks[j]) {
            return false;
        }
        j += 1;
    }
    true
}

/// The position just past `kw` when it matches at `i`, case-insensitively.
#[verifier::loop_isolation(false)]
fn kw_end(cs: &Vec<char>, i: usize, kw: &str) -> (r: Option<usize>)
    requires
        i <= cs@.len(),
    ensures
        r matches Some(e) ==> i <= e <= cs@.len() && e == i + kw@.len(),
        r is Some <==> kw_at(cs@, i as int, kw@),
{
    let ks = chars_of(kw);
    if cs.len() - i < ks.len() {
        return None;
    }
    let mut j: usize = 0;
    while j < ks.len()
        invariant
            ks@ == kw@,
            i + ks@.len() <= cs@.len(),
            j <= ks@.len(),
            forall|q: int|
                0 <= q < j ==> crate::text::upper_eq(#[trigger] cs@[i + q], kw@[q]),
        decreases ks@.len() - j,
    {
        if !upper_eq_char(cs[i + j], ks[j]) {
            return None;
        }
        j += 1;
    }
    Some(i + ks.len())
}

/// The first position at or after `i` where `kw` matches
/// case-insensitively, if any.
#[verifier::loop_isolation(false)]
fn find_ci(cs: &Vec<char>, i: usize, kw: &str) -> (r: Option<usize>)
    requires
        i <= cs@.len(),
    ensures
        r matches Some(p) ==> i <= p && p + kw@.len() <= cs@.len(),
{
    let mut p = i;
    while p < cs.len()
        invariant
            i <= p,
            p <= cs@.len(),
        decreases cs@.len() - p,
    {
        if match_ci(cs, p, kw) {
            return Some(p);
        }
        p += 1;
    }
    None
}

/// Whether `kw` occurs anywhere, case-insensitively.
#[verifier::loop_isolation(false)]
fn contains_ci(cs: &Vec<char>, kw: &str) -> bool {
    match find_ci(cs, 0, kw) {
        Some(_) => true,
        None => false,
    }
}

/// The first position at or after `i` holding `c`, if any.
#[verifier::loop_isolation(false)]
fn find_char(cs: &Vec<char>, i: usize, c: char) -> (r: Option<usize>)
    requires
        i <= cs@.len(),
    ensures
        r matches Some(p) ==> i <= p < cs@.len(),
{
    let mut p = i;
    while p < cs.len()
        invariant
            i <= p,
            p <= cs@.len(),
        decreases cs@.len() - p,
    {
        if cs[p] == c {
            return Some(p);
        }
        p += 1;
    }
    None
}

/// The substring `[a, b)` as a string.
#[verifier::loop_isolation(false)]
fn sub_string(cs: &Vec<char>, a: usize, b: usize) -> (r: String)
    requires
        a <= b <= cs@.len(),
    ensures
        r@ == cs@.subrange(a as int, b as int),
{
    let mut piece: Vec<char> = Vec::new();
    let mut p = a;
    while p < b
        invariant
            a <= p <= b <= cs@.len(),
            piece@ == cs@.subrange(a as int, p as int),
        decreases b - p,
    {
        piece.push(cs[p]);
        proof {
            assert(piece@ =~= cs@.subrange(a as int, p + 1));
        }
        p += 1;
    }
    string_from_chars(&piece)
}

/// The characters `[a, b)`, trimmed of surrounding whitespace, as a string.
#[verifier::loop_isolation(false)]
fn sub_trimmed(cs: &Vec<char>, a: usize, b: usize) -> (r: String)
    requires
        a <= b <= cs@.len(),
    ensures
        r@ == crate::parser::trim_spec(cs@.subrange(a as int, b as int)),
{
    let ghost piece = cs@.subrange(a as int, b as int);
    let mut lo = a;
    while lo < b && is_ws_char(cs[lo])
        invariant
            a <= lo <= b <= cs@.len(),
            forall|j: int| a <= j < lo ==> is_ws(#[trigger] cs@[j]),
        decreases b - lo,
    {
        lo += 1;
    }
    let mut hi = b;
    while hi > lo && is_ws_char(cs[hi - 1])
        invariant
            a <= lo <= hi <= b <= cs@.len(),
            forall|j: int| a <= j < lo ==> is_ws(#[trigger] cs@[j]),
            forall|j: int| hi <= j < b ==> is_ws(#[trigger] cs@[j]),
        decreases hi,
    {
        hi -= 1;
    }
    proof {
        assert(forall|j: int| 0 <= j < piece.len() ==> piece[j] == cs@[a + j]);
        if lo == hi {
            assert(forall|j: int| 0 <= j < piece.len() ==> is_ws(#[trigger] piece[j]));
        }
        crate::parser::lemma_trim_bounds(piece, lo - a, hi - a);
        assert(piece.subrange(lo - a, hi - a) =~= cs@.subrange(lo as int, hi as int));
    }
    sub_string(cs, lo, hi)
}

/// Split `[a, b)` on `sep`, each piece trimmed, empty pieces dropped.
#[verifier::loop_isolation(false)]
fn split_trimmed(cs: &Vec<char>, a: usize, b: usize, sep: char) -> (r: Vec<String>)
    requires
        a <= b <= cs@.len(),
{
    let mut out: Vec<String> = Vec::new();
    let mut start = a;
    let mut p = a;
    while p < b
        invariant
            a <= start <= p <= b <= cs@.len(),
        decreases b - p,
    {
        if cs[p] == sep {
            let piece = sub_trimmed(cs, start, p);
            if piece.as_str().unicode_len() > 0 {
                out.push(piece);
            }
            start = p + 1;
        }
        p += 1;
    }
    let piece = sub_trimmed(cs, start, b);
    if piece.as_str().unicode_len() > 0 {
        out.push(piece);
    }
    out
}

/// Split `[a, b)` on `sep`, each piece trimmed, empty pieces kept.
#[verifier::loop_isolation(false)]
fn split_trimmed_all(cs: &Vec<char>, a: usize, b: usize, sep: char) -> (r: Vec<String>)
    requires
        a <= b <= cs@.len(),
{
    let mut out: Vec<String> = Vec::new();
    let mut start = a;
    let mut p = a;
    while p < b
        invariant
            a <= start <= p <= b <= cs@.len(),
        decreases b - p,
    {
        if cs[p] == sep {
            out.push(sub_trimmed(cs, start, p));
            start = p + 1;
        }
        p += 1;
    }
    out.push(sub_trimmed(cs, start, b));
    out
}

/// Where an insert's target table name starts: after `INSERT`, an
/// optional `OR FAIL`/`OR IGNORE`/`OR REPLACE`, and `INTO`.
pub open spec fn insert_table_start(s: Seq<char>) -> int {
    let p = ws_run_end(s, ws_run_end(s, 0) + "INSERT"@.len());
    let after_or = if kw_at(s, p, "OR"@) {
        let q = ws_run_end(s, p + "OR"@.len());
        if kw_at(s, q, "FAIL"@) {
            ws_run_end(s, q + "FAIL"@.len())
        } else if kw_at(s, q, "IGNORE"@) {
            ws_run_end(s, q + "IGNORE"@.len())
        } else {
            ws_run_end(s, q + "REPLACE"@.len())
        }
    } else {
        p
    };
    ws_run_end(s, after_or + "INTO"@.len())
}

/// Parse an `INSERT` statement: the target table, the column list and the
/// comma-separated value groups.
#[verifier::loop_isolation(false)]
pub fn parse_insert_statement(sql: &str) -> (r: Result<Statement, ParseError>)
    ensures
        r matches Ok(st) ==> {
            let s = sql@;
            let p = insert_table_start(s);
            &&& st@.original == s
            &&& st@.kind matches KindV::Insert { table, .. } && table == s.subrange(
                p,
                word_run_end(s, p),
            ) && word_run_end(s, p) > p
        },
{
    let cs = chars_of(sql);
    let mut p = skip_ws(&cs, 0);
    p = match kw_end(&cs, p, "INSERT") {
        Some(e) => skip_ws(&cs, e),
        None => {
            return Err(ParseError {});
        },
    };
    if let Some(e) = kw_end(&cs, p, "OR") {
        let q = skip_ws(&cs, e);
        if let Some(e2) = kw_end(&cs, q, "FAIL") {
            p = skip_ws(&cs, e2);
        } else if let Some(e2) = kw_end(&cs, q, "IGNORE") {
            p = skip_ws(&cs, e2);
        } else if let Some(e2) = kw_end(&cs, q, "REPLACE") {
            p = skip_ws(&cs, e2);
        } else {
            return Err(ParseError {});
        }
    }
    p = match kw_end(&cs, p, "INTO") {
        Some(e) => skip_ws(&cs, e),
        None => {
            return Err(ParseError {});
        },
    };
    let t_end = skip_word(&cs, p);
    if t_end == p {
        return Err(ParseError {});
    }
    let table = sub_string(&cs, p, t_end);
    p = skip_ws(&cs, t_end);
    let mut columns: Vec<String> = Vec::new();
    if p < cs.len() && cs[p] == '(' {
        match find_char(&cs, p + 1, ')') {
            Some(close) => {
                columns = split_trimmed(&cs, p + 1, close, ',');
                p = skip_ws(&cs, close + 1);
            },
            None => {
                return Err(ParseError {});
            },
        }
    }
    p = match kw_end(&cs, p, "VALUES") {
        Some(e) => skip_ws(&cs, e),
        None => {
            return Err(ParseError {});
        },
    };
    // split the value text on `),` into groups, then strip the parentheses
    let mut values: Vec<Vec<String>> = Vec::new();
    let mut start = p;
    let mut q = p;
    while q < cs.len()
        invariant
            p <= start <= q <= cs@.len(),
        decreases cs@.len() - q,
    {
        if cs[q] == ')' && q + 1 < cs.len() && cs[q + 1] == ',' {
            values.push(parse_value_group(&cs, start, q + 1));
            start = q + 2;
            q += 2;
        } else {
            q += 1;
        }
    }
    values.push(parse_value_group(&cs, start, cs.len()));
    Ok(
        Statement {
            original: sql.to_owned(),
            kind: StatementKind::Insert { table, columns, values },
        },
    )
}

/// An opening parenthesis or whitespace.
#[verifier::loop_isolation(false)]
fn open_or_ws(c: char) -> bool {
    c == '(' || is_ws_char(c)
}

/// A closing parenthesis or whitespace.
#[verifier::loop_isolation(false)]
fn close_or_ws(c: char) -> bool {
    c == ')' || is_ws_char(c)
}

/// One `(v, v, ...)` group: parentheses stripped at the edges, split on
/// commas, each value trimmed.
#[verifier::loop_isolation(false)]
fn parse_value_group(cs: &Vec<char>, a: usize, b: usize) -> (r: Vec<String>)
    requires
        a <= b <= cs@.len(),
{
    let mut lo = a;
    while lo < b && open_or_ws(cs[lo])
        invariant
            a <= lo <= b <= cs@.len(),
        decreases b - lo,
    {
        lo += 1;
    }
    let mut hi = b;
    while hi > lo && close_or_ws(cs[hi - 1])
        invariant
            lo <= hi <= b,
        decreases hi,
    {
        hi -= 1;
    }
    split_trimmed_all(cs, lo, hi, ',')
}

/// Where the created table's name starts: after `CREATE TABLE` and, when
/// the full `IF NOT EXISTS` follows, after that too.
pub open spec fn create_table_name_start(s: Seq<char>) -> int {
    let u2 = ws_run_end(s, ws_run_end(s, ws_run_end(s, 0) + "CREATE"@.len()) + "TABLE"@.len());
    if kw_at(s, u2, "IF"@) {
        let q = ws_run_end(s, u2 + "IF"@.len());
        if kw_at(s, q, "NOT"@) {
            let q2 = ws_run_end(s, q + "NOT"@.len());
            if kw_at(s, q2, "EXISTS"@) {
                ws_run_end(s, q2 + "EXISTS"@.len())
            } else {
                u2
            }
        } else {
            u2
        }
    } else {
        u2
    }
}

/// Parse a `CREATE TABLE` statement: the table name and one column entry
/// per comma-separated piece of the first parenthesised group.
#[verifier::loop_isolation(false)]
pub fn parse_create_table(sql: &str) -> (r: Result<Statement, ParseError>)
    ensures
        r matches Ok(st) ==> {
            let s = sql@;
            let p = create_table_name_start(s);
            &&& st@.original == s
            &&& kw_at(s, ws_run_end(s, 0), "CREATE"@)
            &&& st@.kind matches KindV::CreateTable { name, .. } && name == s.subrange(
                p,
                word_run_end(s, p),
            ) && word_run_end(s, p) > p
        },
{
    let cs = chars_of(sql);
    let mut p = skip_ws(&cs, 0);
    p = match kw_end(&cs, p, "CREATE") {
        Some(e) => skip_ws(&cs, e),
        None => {
            return Err(ParseError {});
        },
    };
    p = match kw_end(&cs, p, "TABLE") {
        Some(e) => skip_ws(&cs, e),
        None => {
            return Err(ParseError {});
        },
    };
    if let Some(e) = kw_end(&cs, p, "IF") {
        let q = skip_ws(&cs, e);
        if let Some(e2) = kw_end(&cs, q, "NOT") {
            let q2 = skip_ws(&cs, e2);
            if let Some(e3) = kw_end(&cs, q2, "EXISTS") {
                p = skip_ws(&cs, e3);
            }
        }
    }
    let n_end = skip_word(&cs, p);
    if n_end == p {
        return Err(ParseError {});
    }
    let name = sub_string(&cs, p, n_end);
    let open = match find_char(&cs, n_end, '(') {
        Some(o) => o,
        None => {
            return Err(ParseError {});
        },
    };
    let close = match find_char(&cs, open + 1, ')') {
        Some(c) => c,
        None => {
            return Err(ParseError {});
        },
    };
    let col_strs = split_trimmed(&cs, open + 1, close, ',');
    let mut columns: Vec<Column> = Vec::new();
    let mut i: usize = 0;
    while i < col_strs.len()
        invariant
            i <= col_strs@.len(),
        decreases col_strs@.len() - i,
    {
        let col = &col_strs[i];
        let ccs = chars_of(col.as_str());
        let w_end = skip_word(&ccs, 0);
        let after = skip_ws(&ccs, w_end);
        if w_end > 0 && after < ccs.len() {
            // at least two whitespace-separated parts: keep the first word
            columns.push(Column { table: None, name: sub_string(&ccs, 0, w_end) });
        } else {
            columns.push(Column { table: None, name: col.clone() });
        }
        i += 1;
    }
    Ok(
        Statement {
            original: sql.to_owned(),
            kind: StatementKind::CreateTable { name, columns },
        },
    )
}

/// The end of the non-whitespace run starting at `i`.
pub open spec fn nonws_run_end(s: Seq<char>, i: int) -> int
    decreases s.len() - i,
{
    if 0 <= i && i < s.len() && !is_ws(s[i]) {
        nonws_run_end(s, i + 1)
    } else {
        i
    }
}

/// Parse a `CREATE VIEW` statement: the view's name is the word after
/// `CREATE VIEW`; the inner query is parsed as a `SELECT` when possible,
/// and kept verbatim otherwise.
#[verifier::loop_isolation(false)]
pub fn parse_create_view_statement(sql: &str) -> (r: Result<Statement, ParseError>)
    ensures
        r matches Ok(st) ==> {
            let s = sql@;
            let p = ws_run_end(s, ws_run_end(s, ws_run_end(s, 0) + "CREATE"@.len())
                + "VIEW"@.len());
            &&& st@.original == s
            &&& st@.kind matches KindV::CreateView { name, .. } && name == s.subrange(
                p,
                nonws_run_end(s, p),
            ) && nonws_run_end(s, p) > p
        },
{
    let cs = chars_of(sql);
    let mut p = skip_ws(&cs, 0);
    p = match kw_end(&cs, p, "CREATE") {
        Some(e) => skip_ws(&cs, e),
        None => {
            return Err(ParseError {});
        },
    };
    p = match kw_end(&cs, p, "VIEW") {
        Some(e) => skip_ws(&cs, e),
        None => {
            return Err(ParseError {});
        },
    };
    // the view name: up to the next whitespace
    let mut n_end = p;
    while n_end < cs.len() && !is_ws_char(cs[n_end])
        invariant
            p <= n_end <= cs@.len(),
            nonws_run_end(cs@, p as int) == nonws_run_end(cs@, n_end as int),
        decreases cs@.len() - n_end,
    {
        n_end += 1;
    }
    if n_end == p {
        return Err(ParseError {});
    }
    let name = sub_string(&cs, p, n_end);
    let q = skip_ws(&cs, n_end);
    let def_start = match kw_end(&cs, q, "AS") {
        Some(e) => skip_ws(&cs, e),
        None => {
            return Err(ParseError {});
        },
    };
    if def_start >= cs.len() {
        return Err(ParseError {});
    }
    let view_def = sub_trimmed(&cs, def_start, cs.len());
    let query = match parse_select_statement(view_def.as_str()) {
        Ok(st) => st,
        Err(_) => Statement { original: view_def, kind: StatementKind::Unknown },
    };
    Ok(
        Statement {
            original: sql.to_owned(),
            kind: StatementKind::CreateView { name, query: Box::new(query) },
        },
    )
}

/// Parse a `SELECT` statement, including a leading `WITH` clause and
/// `EXISTS (SELECT ...)` subqueries.
#[verifier::loop_isolation(false)]
pub fn parse_select_statement(sql: &str) -> (r: Result<Statement, ParseError>)
    ensures
        r matches Ok(st) ==> st@.original == sql@ && st@.kind is Select,
    decreases sql@.len(),
{
    let cs = chars_of(sql);
    // a leading WITH clause: WITH name AS ( cte ) main
    if contains_ci(&cs, "WITH") {
        let p0 = skip_ws(&cs, 0);
        if let Some(we) = kw_end(&cs, p0, "WITH") {
            if we < cs.len() && is_ws_char(cs[we]) {
            let name_start = skip_ws(&cs, we);
            if let Some((name_end, inner_start)) = find_as_paren(&cs, name_start) {
                if name_end > name_start {
                    if let Some((inner_end, main_start)) = find_close_ws(&cs, inner_start) {
                        let cte_name = sub_trimmed(&cs, name_start, name_end);
                        let cte_text = sub_string(&cs, inner_start, inner_end);
                        let main_text = sub_string(&cs, main_start, cs.len());
                        proof {
                            assert(cte_text@.len() < sql@.len());
                            assert(main_text@.len() < sql@.len());
                        }
                        let cte_res = parse_select_statement(cte_text.as_str());
                        let main_res = parse_select_statement(main_text.as_str());
                        if let (Ok(cte_stmt), Ok(main_stmt)) = (cte_res, main_res) {
                            if let StatementKind::Select {
                                columns,
                                tables,
                                conditions,
                                subqueries,
                                is_distinct,
                                ..
                            } = main_stmt.kind {
                                let mut with_clauses: Vec<
                                    crate::statements::types::WithClause,
                                > = Vec::new();
                                with_clauses.push(
                                    crate::statements::types::WithClause {
                                        name: cte_name,
                                        query: Box::new(cte_stmt),
                                    },
                                );
                                return Ok(
                                    Statement {
                                        original: sql.to_owned(),
                                        kind: StatementKind::Select {
                                            with_clauses,
                                            columns,
                                            tables,
                                            conditions,
                                            subqueries,
                                            is_distinct,
                                        },
                                    },
                                );
                            }
                        }
                    }
                }
            }
        }
        }
    }
    // EXISTS ( SELECT ... ) subqueries: parse each and blank it out
    let mut processed = copy_chars(&cs);
    let mut subqueries: Vec<Statement> = Vec::new();
    let mut scan: usize = 0;
    while scan < processed.len()
        invariant
            scan <= processed@.len(),
        decreases processed@.len() - scan,
    {
        match find_exists_subquery(&processed, scan) {
            Some((m_start, s_start, s_end, m_end)) => {
                let sub_text = sub_trimmed(&processed, s_start, s_end);
                if sub_text.as_str().unicode_len() < sql.unicode_len() {
                    if let Ok(substmt) = parse_select_statement(sub_text.as_str()) {
                        subqueries.push(substmt);
                    }
                }
                processed = splice_marker(&processed, m_start, m_end);
                let nl = processed.len();
                proof {
                    assert(m_start + 15 <= nl);
                }
                scan = m_start + 15;
            },
            None => {
                break ;
            },
        }
    }
    // the main clause structure
    let p0 = skip_ws(&processed, 0);
    let col_start = match kw_end(&processed, p0, "SELECT") {
        Some(e) => skip_ws(&processed, e),
        None => {
            return Err(ParseError {});
        },
    };
    let from_kw = match find_kw_spaced(&processed, col_start, "FROM") {
        Some(f) => f,
        None => {
            return Err(ParseError {});
        },
    };
    let cols_text = sub_trimmed(&processed, col_start, from_kw);
    let tables_start = match kw_end(&processed, from_kw, "FROM") {
        Some(e) => skip_ws(&processed, e),
        None => {
            return Err(ParseError {});
        },
    };
    let tail_end = processed.len();
    let where_kw = find_kw_spaced(&processed, tables_start, "WHERE");
    let group_kw = find_kw_spaced(&processed, tables_start, "GROUP");
    let having_kw = find_kw_spaced(&processed, tables_start, "HAVING");
    let order_kw = find_kw_spaced(&processed, tables_start, "ORDER");
    let limit_kw = find_kw_spaced(&processed, tables_start, "LIMIT");
    let tables_end = min_bound(
        min_bound(min_bound(where_kw, group_kw), min_bound(having_kw, order_kw)),
        min_bound(limit_kw, Some(tail_end)),
    );
    let tables_end = match tables_end {
        Some(e) => {
            if e <= processed.len() && tables_start <= e {
                e
            } else {
                processed.len()
            }
        },
        None => processed.len(),
    };
    if tables_end < tables_start {
        return Err(ParseError {});
    }
    let tables = parse_from_list(&processed, tables_start, tables_end);
    // the WHERE clause, up to the next clause keyword
    let mut conditions: Vec<Condition> = Vec::new();
    if let Some(w) = where_kw {
        if let Some(we) = kw_end(&processed, w, "WHERE") {
            let w_start = skip_ws(&processed, we);
            let w_end_opt = min_bound(
                min_bound(group_kw_after(&processed, w_start), having_kw_after(&processed, w_start)),
                min_bound(order_kw_after(&processed, w_start), limit_kw_after(&processed, w_start)),
            );
            let w_end = match w_end_opt {
                Some(e) => {
                    if w_start <= e && e <= processed.len() {
                        e
                    } else {
                        processed.len()
                    }
                },
                None => processed.len(),
            };
            let where_str = sub_trimmed(&processed, w_start, w_end);
            conditions = conditions_of_where(where_str.as_str());
        }
    }
    let columns = parse_column_list(cols_text.as_str());
    let is_distinct = contains_ci(&cs, "DISTINCT");
    Ok(
        Statement {
            original: sql.to_owned(),
            kind: StatementKind::Select {
                with_clauses: Vec::new(),
                columns,
                tables,
                conditions,
                subqueries,
                is_distinct,
            },
        },
    )
}

/// The smaller of two optional positions.
#[verifier::loop_isolation(false)]
fn min_bound(a: Option<usize>, b: Option<usize>) -> (r: Option<usize>) {
    match (a, b) {
        (Some(x), Some(y)) => Some(
            if x < y {
                x
            } else {
                y
            },
        ),
        (Some(x), None) => Some(x),
        (None, Some(y)) => Some(y),
        (None, None) => None,
    }
}

/// `GROUP` keyword position at or after `i`.
#[verifier::loop_isolation(false)]
fn group_kw_after(cs: &Vec<char>, i: usize) -> (r: Option<usize>)
    requires
        i <= cs@.len(),
{
    find_kw_spaced(cs, i, "GROUP")
}

/// `HAVING` keyword position at or after `i`.
#[verifier::loop_isolation(false)]
fn having_kw_after(cs: &Vec<char>, i: usize) -> (r: Option<usize>)
    requires
        i <= cs@.len(),
{
    find_kw_spaced(cs, i, "HAVING")
}

/// `ORDER` keyword position at or after `i`.
#[verifier::loop_isolation(false)]
fn order_kw_after(cs: &Vec<char>, i: usize) -> (r: Option<usize>)
    requires
        i <= cs@.len(),
{
    find_kw_spaced(cs, i, "ORDER")
}

/// `LIMIT` keyword position at or after `i`.
#[verifier::loop_isolation(false)]
fn limit_kw_after(cs: &Vec<char>, i: usize) -> (r: Option<usize>)
    requires
        i <= cs@.len(),
{
    find_kw_spaced(cs, i, "LIMIT")
}

/// A copy of a character vector.
#[verifier::loop_isolation(false)]
fn copy_chars(cs: &Vec<char>) -> (r: Vec<char>)
    ensures
        r@ == cs@,
{
    let mut r: Vec<char> = Vec::new();
    let mut i: usize = 0;
    while i < cs.len()
        invariant
            i <= cs@.len(),
            r@ == cs@.subrange(0, i as int),
        decreases cs@.len() - i,
    {
        r.push(cs[i]);
        proof {
            assert(r@ =~= cs@.subrange(0, i + 1));
        }
        i += 1;
    }
    proof {
        assert(cs@.subrange(0, cs@.len() as int) =~= cs@);
    }
    r
}

/// The first `\s+AS\s+\(` pattern at or after `from`: the position where
/// its leading whitespace starts, and the position just after the `(`.
#[verifier::loop_isolation(false)]
fn find_as_paren(cs: &Vec<char>, from: usize) -> (r: Option<(usize, usize)>)
    requires
        from <= cs@.len(),
    ensures
        r matches Some(pair) ==> from <= pair.0 <= cs@.len() && pair.1 <= cs@.len(),
{
    let mut p = from;
    while p < cs.len()
        invariant
            from <= p <= cs@.len(),
        decreases cs@.len() - p,
    {
        if is_ws_char(cs[p]) {
            let a = skip_ws(cs, p);
            if let Some(e) = kw_end(cs, a, "AS") {
                let b = skip_ws(cs, e);
                if b > e && b < cs.len() && cs[b] == '(' {
                    return Some((p, b + 1));
                }
            }
        }
        p += 1;
    }
    None
}

/// The first `)` followed by whitespace and more text, at or after `from`:
/// the `)` position and the start of the following text.
#[verifier::loop_isolation(false)]
fn find_close_ws(cs: &Vec<char>, from: usize) -> (r: Option<(usize, usize)>)
    requires
        from <= cs@.len(),
    ensures
        r matches Some(pair) ==> from <= pair.0 <= cs@.len() && pair.0 < pair.1 <= cs@.len()
            && pair.1 > 0,
{
    let mut p = from;
    while p < cs.len()
        invariant
            from <= p <= cs@.len(),
        decreases cs@.len() - p,
    {
        if cs[p] == ')' && p + 1 < cs.len() && is_ws_char(cs[p + 1]) {
            let q = skip_ws(cs, p + 1);
            if q < cs.len() {
                return Some((p, q));
            }
        }
        p += 1;
    }
    None
}

/// The first `EXISTS\s*\(\s*SELECT ... )` at or after `from`: the match
/// start, the subquery's bounds, and the position after the closing `)`.
#[verifier::loop_isolation(false)]
fn find_exists_subquery(cs: &Vec<char>, from: usize) -> (r: Option<(usize, usize, usize, usize)>)
    requires
        from <= cs@.len(),
    ensures
        r matches Some(q) ==> from <= q.0 && q.0 <= q.1 && q.1 <= q.2 && q.2 < q.3 && q.3
            <= cs@.len(),
{
    let mut p = from;
    while p < cs.len()
        invariant
            from <= p <= cs@.len(),
        decreases cs@.len() - p,
    {
        if let Some(e) = kw_end(cs, p, "EXISTS") {
            let a = skip_ws(cs, e);
            if a < cs.len() && cs[a] == '(' {
                let s_start = skip_ws(cs, a + 1);
                if match_ci(cs, s_start, "SELECT") {
                    if let Some(close) = find_char(cs, s_start, ')') {
                        // trim trailing whitespace before the `)`
                        let mut s_end = close;
                        while s_end > s_start && is_ws_char(cs[s_end - 1])
                            invariant
                                s_start <= s_end <= close < cs@.len(),
                            decreases s_end,
                        {
                            s_end -= 1;
                        }
                        return Some((p, s_start, s_end, close + 1));
                    }
                }
            }
        }
        p += 1;
    }
    None
}

/// Replace the range `[a, b)` with the marker text `EXISTS_SUBQUERY`.
#[verifier::loop_isolation(false)]
fn splice_marker(cs: &Vec<char>, a: usize, b: usize) -> (r: Vec<char>)
    requires
        a <= b <= cs@.len(),
    ensures
        r@.len() == cs@.len() - (b - a) + 15,
{
    let marker = chars_of("EXISTS_SUBQUERY");
    proof {
        reveal_strlit("EXISTS_SUBQUERY");
    }
    let mut out: Vec<char> = Vec::new();
    let mut i: usize = 0;
    while i < a
        invariant
            i <= a <= cs@.len(),
            out@.len() == i,
        decreases a - i,
    {
        out.push(cs[i]);
        i += 1;
    }
    let mut j: usize = 0;
    while j < marker.len()
        invariant
            j <= marker@.len(),
            out@.len() == a + j,
            marker@.len() == 15,
        decreases marker@.len() - j,
    {
        out.push(marker[j]);
        j += 1;
    }
    let mut k = b;
    while k < cs.len()
        invariant
            b <= k <= cs@.len(),
            out@.len() == a + 15 + (k - b),
        decreases cs@.len() - k,
    {
        out.push(cs[k]);
        k += 1;
    }
    out
}

/// A clause keyword position: `kw` at a position preceded by whitespace and
/// followed by whitespace.
#[verifier::loop_isolation(false)]
fn find_kw_spaced(cs: &Vec<char>, from: usize, kw: &str) -> (r: Option<usize>)
    requires
        from <= cs@.len(),
    ensures
        r matches Some(p) ==> from <= p && p <= cs@.len(),
{
    let mut p = from;
    while p < cs.len()
        invariant
            from <= p <= cs@.len(),
        decreases cs@.len() - p,
    {
        if p == 0 || is_ws_char(cs[p - 1]) {
            if let Some(e) = kw_end(cs, p, kw) {
                if e < cs.len() && is_ws_char(cs[e]) {
                    return Some(p);
                }
            }
        }
        p += 1;
    }
    None
}

/// The column list of a `SELECT`: split on commas; a `table.column` entry
/// is split into its qualifier and name; a list that carries the subquery
/// marker is kept whole.
#[verifier::loop_isolation(false)]
fn parse_column_list(cols: &str) -> (r: Vec<Column>) {
    let ccs = chars_of(cols);
    if contains_ci(&ccs, "EXISTS_SUBQUERY") {
        let mut r: Vec<Column> = Vec::new();
        r.push(Column { table: None, name: cols.to_owned() });
        return r;
    }
    let pieces = split_trimmed_all(&ccs, 0, ccs.len(), ',');
    let mut r: Vec<Column> = Vec::new();
    let mut i: usize = 0;
    while i < pieces.len()
        invariant
            i <= pieces@.len(),
        decreases pieces@.len() - i,
    {
        let pcs = chars_of(pieces[i].as_str());
        let n = pcs.len();
        match find_char(&pcs, 0, '.') {
            Some(d) => {
                let table = sub_trimmed(&pcs, 0, d);
                // the name: the piece after the first dot, before any second dot
                let name_end = match find_char(&pcs, d + 1, '.') {
                    Some(d2) => d2,
                    None => pcs.len(),
                };
                let name = sub_trimmed(&pcs, d + 1, name_end);
                r.push(Column { table: Some(table), name });
            },
            None => {
                r.push(Column { table: None, name: pieces[i].clone() });
            },
        }
        i += 1;
    }
    r
}

/// The `FROM` list: comma-separated entries; a plain entry contributes its
/// first word, a `JOIN` entry contributes every word that is not a join
/// keyword.
#[verifier::loop_isolation(false)]
fn parse_from_list(cs: &Vec<char>, a: usize, b: usize) -> (r: Vec<String>)
    requires
        a <= b <= cs@.len(),
{
    let mut r: Vec<String> = Vec::new();
    let entries = split_trimmed_all(cs, a, b, ',');
    let mut i: usize = 0;
    while i < entries.len()
        invariant
            i <= entries@.len(),
        decreases entries@.len() - i,
    {
        let ecs = chars_of(entries[i].as_str());
        if contains_ci(&ecs, "JOIN") {
            // every whitespace-separated word not containing JOIN or ON
            let mut p: usize = 0;
            while p < ecs.len()
                invariant
                    p <= ecs@.len(),
                decreases ecs@.len() - p,
            {
                let w_start = skip_ws(&ecs, p);
                if w_start >= ecs.len() {
                    break ;
                }
                let mut w_end = w_start;
                while w_end < ecs.len() && !is_ws_char(ecs[w_end])
                    invariant
                        w_start <= w_end <= ecs@.len(),
                    decreases ecs@.len() - w_end,
                {
                    w_end += 1;
                }
                let word = sub_string(&ecs, w_start, w_end);
                let wcs = chars_of(word.as_str());
                if !contains_ci(&wcs, "JOIN") && !contains_ci(&wcs, "ON") {
                    r.push(word);
                }
                p = w_end;
            }
        } else {
            // the first whitespace-delimited word, or the whole entry
            let mut w_end: usize = 0;
            while w_end < ecs.len() && !is_ws_char(ecs[w_end])
                invariant
                    w_end <= ecs@.len(),
                decreases ecs@.len() - w_end,
            {
                w_end += 1;
            }
            if w_end < ecs.len() {
                r.push(sub_string(&ecs, 0, w_end));
            } else {
                r.push(entries[i].clone());
            }
        }
        i += 1;
    }
    r
}

/// The conditions of a `WHERE` clause: one per distinct `table.column`
/// reference, each carrying the whole clause text; a non-empty clause
/// without any table reference yields one unqualified condition, so the
/// clause survives rewrites that drop only table-referencing terms.
#[verifier::loop_isolation(false)]
fn conditions_of_where(where_str: &str) -> (r: Vec<Condition>) {
    let wcs = chars_of(where_str);
    let mut refs: Vec<String> = Vec::new();
    let mut p: usize = 0;
    while p < wcs.len()
        invariant
            p <= wcs@.len(),
        decreases wcs@.len() - p,
    {
        if wcs[p] == '.' && p > 0 {
            // the word before the dot
            let mut w_start = p;
            while w_start > 0 && is_word_char(wcs[w_start - 1])
                invariant
                    w_start <= p,
                decreases w_start,
            {
                w_start -= 1;
            }
            // a table name must start with a letter or underscore
            let lead = wcs[w_start];
            let is_ident = (('a' <= lead && lead <= 'z') || ('A' <= lead && lead <= 'Z') || lead
                == '_');
            if w_start < p && is_ident && p + 1 < wcs.len() {
                let follow = wcs[p + 1];
                let follow_ident = (('a' <= follow && follow <= 'z') || ('A' <= follow && follow
                    <= 'Z') || follow == '_');
                if follow_ident {
                    let t = sub_string(&wcs, w_start, p);
                    if !contains_string(&refs, &t) {
                        refs.push(t);
                    }
                }
            }
        }
        p += 1;
    }
    let mut r: Vec<Condition> = Vec::new();
    let mut i: usize = 0;
    while i < refs.len()
        invariant
            i <= refs@.len(),
        decreases refs@.len() - i,
    {
        r.push(
            Condition {
                table: refs[i].clone(),
                column: where_str.to_owned(),
                value: String::new(),
            },
        );
        i += 1;
    }
    if r.len() == 0 && where_str.unicode_len() > 0 {
        r.push(
            Condition {
                table: String::new(),
                column: where_str.to_owned(),
                value: String::new(),
            },
        );
    }
    r
}

/// Whether `items` holds a string equal to `x`.
#[verifier::loop_isolation(false)]
fn contains_string(items: &Vec<String>, x: &String) -> (r: bool) {
    let mut i: usize = 0;
    while i < items.len()
        invariant
            i <= items@.len(),
        decreases items@.len() - i,
    {
        if crate::text::str_eq(items[i].as_str(), x.as_str()) {
            return true;
        }
        i += 1;
    }
    false
}

/// Where a trigger's subject table name starts: after the trigger name,
/// the timing, the event and `ON`.
pub open spec fn trigger_table_start(s: Seq<char>) -> int {
    let u1 = ws_run_end(s, ws_run_end(s, 0) + "CREATE"@.len());
    let u2 = ws_run_end(s, u1 + "TRIGGER"@.len());
    let p = ws_run_end(s, word_run_end(s, u2));
    let after_timing = if kw_at(s, p, "BEFORE"@) {
        ws_run_end(s, p + "BEFORE"@.len())
    } else if kw_at(s, p, "AFTER"@) {
        ws_run_end(s, p + "AFTER"@.len())
    } else {
        ws_run_end(s, ws_run_end(s, p + "INSTEAD"@.len()) + "OF"@.len())
    };
    let after_event = ws_run_end(s, after_timing + "INSERT"@.len());
    ws_run_end(s, after_event + "ON"@.len())
}

/// Parse a `CREATE TRIGGER` statement: name, timing, event, subject table
/// and the `;`-separated body between `BEGIN` and `END`.
#[verifier::loop_isolation(false)]
pub fn parse_trigger_statement(sql: &str) -> (r: Result<Statement, ParseError>)
    ensures
        r matches Ok(st) ==> {
            let s = sql@;
            let p = trigger_table_start(s);
            &&& st@.original == s
            &&& st@.kind matches KindV::Trigger { table, .. } && table == s.subrange(
                p,
                word_run_end(s, p),
            ) && word_run_end(s, p) > p
        },
{
    proof {
        reveal_strlit("INSERT");
        reveal_strlit("UPDATE");
        reveal_strlit("DELETE");
    }
    let cs = chars_of(sql);
    let mut p = skip_ws(&cs, 0);
    p = match kw_end(&cs, p, "CREATE") {
        Some(e) => skip_ws(&cs, e),
        None => {
            return Err(ParseError {});
        },
    };
    p = match kw_end(&cs, p, "TRIGGER") {
        Some(e) => skip_ws(&cs, e),
        None => {
            return Err(ParseError {});
        },
    };
    let n_end = skip_word(&cs, p);
    if n_end == p {
        return Err(ParseError {});
    }
    let name = sub_string(&cs, p, n_end);
    p = skip_ws(&cs, n_end);
    let timing: String;
    if let Some(e) = kw_end(&cs, p, "BEFORE") {
        timing = sub_string(&cs, p, e);
        p = skip_ws(&cs, e);
    } else if let Some(e) = kw_end(&cs, p, "AFTER") {
        timing = sub_string(&cs, p, e);
        p = skip_ws(&cs, e);
    } else if let Some(e) = kw_end(&cs, p, "INSTEAD") {
        let q = skip_ws(&cs, e);
        if let Some(e2) = kw_end(&cs, q, "OF") {
            timing = sub_string(&cs, p, e2);
            p = skip_ws(&cs, e2);
        } else {
            return Err(ParseError {});
        }
    } else {
        return Err(ParseError {});
    }
    let event: String;
    if let Some(e) = kw_end(&cs, p, "INSERT") {
        event = sub_string(&cs, p, e);
        p = skip_ws(&cs, e);
    } else if let Some(e) = kw_end(&cs, p, "UPDATE") {
        event = sub_string(&cs, p, e);
        p = skip_ws(&cs, e);
    } else if let Some(e) = kw_end(&cs, p, "DELETE") {
        event = sub_string(&cs, p, e);
        p = skip_ws(&cs, e);
    } else {
        return Err(ParseError {});
    }
    p = match kw_end(&cs, p, "ON") {
        Some(e) => skip_ws(&cs, e),
        None => {
            return Err(ParseError {});
        },
    };
    let t_end = skip_word(&cs, p);
    if t_end == p {
        return Err(ParseError {});
    }
    let table = sub_string(&cs, p, t_end);
    p = skip_ws(&cs, t_end);
    let body_start = match kw_end(&cs, p, "BEGIN") {
        Some(e) => skip_ws(&cs, e),
        None => {
            return Err(ParseError {});
        },
    };
    let body_end = match find_ci(&cs, body_start, "END") {
        Some(e) => e,
        None => cs.len(),
    };
    if body_end < body_start {
        return Err(ParseError {});
    }
    let body = split_trimmed(&cs, body_start, body_end, ';');
    Ok(
        Statement {
            original: sql.to_owned(),
            kind: StatementKind::Trigger { name, timing, event, table, body },
        },
    )
}

/// Parse an `UPDATE` statement: the target table is recognised, the rest
/// kept as text.  Succeeds exactly on text of the form
/// `\s*UPDATE\s+word...`, with the word as the table.
#[verifier::loop_isolation(false)]
pub fn parse_update_statement(sql: &str) -> (r: Result<Statement, ParseError>)
    ensures
        ({
            let s = sql@;
            let u = ws_run_end(s, 0);
            let q = ws_run_end(s, u + "UPDATE"@.len());
            let t_end = word_run_end(s, q);
            &&& (r is Ok <==> kw_at(s, u, "UPDATE"@) && !(q == u + "UPDATE"@.len() && q
                < s.len()) && t_end > q)
            &&& (r matches Ok(st) ==> st@.original == s && st@.kind == (KindV::Update {
                table: s.subrange(q, t_end),
                set_clauses: Seq::<Seq<char>>::empty(),
                where_clause: None,
            }))
        }),
{
    let cs = chars_of(sql);
    let p = skip_ws(&cs, 0);
    let e = match kw_end(&cs, p, "UPDATE") {
        Some(e) => e,
        None => {
            return Err(ParseError {});
        },
    };
    let q = skip_ws(&cs, e);
    if q == e && q < cs.len() {
        return Err(ParseError {});
    }
    let t_end = skip_word(&cs, q);
    if t_end == q {
        return Err(ParseError {});
    }
    let table = sub_string(&cs, q, t_end);
    let set_clauses: Vec<String> = Vec::new();
    proof {
        assert(set_clauses.deep_view() =~= Seq::<Seq<char>>::empty());
    }
    Ok(
        Statement {
            original: sql.to_owned(),
            kind: StatementKind::Update {
                table,
                set_clauses,
                where_clause: None,
            },
        },
    )
}

/// Parse a `DELETE FROM` statement.  Succeeds exactly on
/// `\s*DELETE\s+FROM\s+word`, alone or followed by `\s+WHERE\s+rest`,
/// with the word as the table and the trimmed rest as the condition.
#[verifier::loop_isolation(false)]
pub fn parse_delete_statement(sql: &str) -> (r: Result<Statement, ParseError>)
    ensures
        ({
            let s = sql@;
            let u0 = ws_run_end(s, 0);
            let u1 = ws_run_end(s, u0 + "DELETE"@.len());
            let u2 = ws_run_end(s, u1 + "FROM"@.len());
            let t_end = word_run_end(s, u2);
            let q = ws_run_end(s, t_end);
            let w = ws_run_end(s, q + "WHERE"@.len());
            let head_ok = kw_at(s, u0, "DELETE"@) && kw_at(s, u1, "FROM"@) && t_end > u2;
            &&& (r is Ok <==> head_ok && (q >= s.len() || (kw_at(s, q, "WHERE"@) && w
                < s.len())))
            &&& (r matches Ok(st) ==> st@.original == s && st@.kind == (KindV::Delete {
                table: s.subrange(u2, t_end),
                where_clause: if q >= s.len() {
                    None
                } else {
                    Some(crate::parser::trim_spec(s.subrange(w, s.len() as int)))
                },
            }))
        }),
{
    let cs = chars_of(sql);
    let mut p = skip_ws(&cs, 0);
    p = match kw_end(&cs, p, "DELETE") {
        Some(e) => skip_ws(&cs, e),
        None => {
            return Err(ParseError {});
        },
    };
    p = match kw_end(&cs, p, "FROM") {
        Some(e) => skip_ws(&cs, e),
        None => {
            return Err(ParseError {});
        },
    };
    let t_end = skip_word(&cs, p);
    if t_end == p {
        return Err(ParseError {});
    }
    let table = sub_string(&cs, p, t_end);
    let q = skip_ws(&cs, t_end);
    let mut where_clause: Option<String> = None;
    if q < cs.len() {
        if let Some(we) = kw_end(&cs, q, "WHERE") {
            let w = skip_ws(&cs, we);
            if w < cs.len() {
                where_clause = Some(sub_trimmed(&cs, w, cs.len()));
            } else {
                return Err(ParseError {});
            }
        } else {
            return Err(ParseError {});
        }
    }
    Ok(
        Statement {
            original: sql.to_owned(),
            kind: StatementKind::Delete { table, where_clause },
        },
    )
}

/// Parse an `ALTER TABLE` statement.  Succeeds exactly on
/// `\s*ALTER\s+TABLE\s+word\s+operation`, with the word as the table and
/// the trimmed remainder as the operation.
#[verifier::loop_isolation(false)]
pub fn parse_alter_table_statement(sql: &str) -> (r: Result<Statement, ParseError>)
    ensures
        ({
            let s = sql@;
            let u0 = ws_run_end(s, 0);
            let u1 = ws_run_end(s, u0 + "ALTER"@.len());
            let u2 = ws_run_end(s, u1 + "TABLE"@.len());
            let t_end = word_run_end(s, u2);
            let q = ws_run_end(s, t_end);
            &&& (r is Ok <==> kw_at(s, u0, "ALTER"@) && kw_at(s, u1, "TABLE"@) && t_end > u2
                && q < s.len())
            &&& (r matches Ok(st) ==> st@.original == s && st@.kind == (KindV::AlterTable {
                table: s.subrange(u2, t_end),
                operation: crate::parser::trim_spec(s.subrange(q, s.len() as int)),
            }))
        }),
{
    let cs = chars_of(sql);
    let mut p = skip_ws(&cs, 0);
    p = match kw_end(&cs, p, "ALTER") {
        Some(e) => skip_ws(&cs, e),
        None => {
            return Err(ParseError {});
        },
    };
    p = match kw_end(&cs, p, "TABLE") {
        Some(e) => skip_ws(&cs, e),
        None => {
            return Err(ParseError {});
        },
    };
    let t_end = skip_word(&cs, p);
    if t_end == p {
        return Err(ParseError {});
    }
    let table = sub_string(&cs, p, t_end);
    let q = skip_ws(&cs, t_end);
    if q >= cs.len() {
        return Err(ParseError {});
    }
    let operation = sub_trimmed(&cs, q, cs.len());
    Ok(
        Statement {
            original: sql.to_owned(),
            kind: StatementKind::AlterTable { table, operation },
        },
    )
}

/// Recognise one raw statement, trying each parser in turn and keeping the
/// verbatim text under `Unknown` when none applies.
#[verifier::loop_isolation(false)]
pub fn parse_any(raw: &str) -> (r: Statement)
    ensures
        r@.original == raw@,
{
    let cs = chars_of(raw);
    if match_ci(&cs, 0, "UPDATE") {
        return match parse_update_statement(raw) {
            Ok(st) => st,
            Err(_) => Statement::new(raw),
        };
    }
    if match_ci(&cs, 0, "DELETE") {
        return match parse_delete_statement(raw) {
            Ok(st) => st,
            Err(_) => Statement::new(raw),
        };
    }
    if match_ci(&cs, 0, "ALTER") {
        return match parse_alter_table_statement(raw) {
            Ok(st) => st,
            Err(_) => Statement::new(raw),
        };
    }
    if let Ok(st) = parse_create_table(raw) {
        return st;
    }
    if let Ok(st) = parse_insert_statement(raw) {
        return st;
    }
    if let Ok(st) = parse_create_view_statement(raw) {
        return st;
    }
    if let Ok(st) = parse_select_statement(raw) {
        return st;
    }
    if let Ok(st) = parse_trigger_statement(raw) {
        return st;
    }
    if let Ok(st) = parse_update_statement(raw) {
        return st;
    }
    if let Ok(st) = parse_delete_statement(raw) {
        return st;
    }
    if let Ok(st) = parse_alter_table_statement(raw) {
        return st;
    }
    Statement::new(raw)
}

} // verus!

//! The reduction pipeline and the removal of tables from a script.
//!
//! The pipeline runs the granularities in sequence: statement-level ddmin,
//! then the table-granularity search with structural removal, then (unless
//! a quick run was requested) token-level reduction within each surviving
//! statement.

use crate::bruteforce_debug::bruteforce_delta_debug;
use crate::bruteforce_debug::repaired;
use crate::bruteforce_debug::statement_of_tokens;
use crate::utils::join_texts;
use crate::delta_debug::delta_debug;
use crate::delta_debug_stmt::delta_debug_stmt;
use crate::oracle::Oracle;
use crate::oracle::OracleError;
use crate::parser::generate_ast;
use crate::statements::statement::clone_statement;
use crate::statements::types::StatementKind;
use crate::statements::statement::remove_refs;
use crate::statements::types::KindV;
use crate::statements::types::Statement;
use crate::statements::types::StmtV;
use crate::statements::types::view_stmts;
use crate::text::chars_of;
use crate::text::is_ws_char;
use crate::text::str_eq;
use crate::text::string_from_chars;
use crate::utils::join_with;
use crate::utils::vec_statement_to_string;
use vstd::prelude::*;
use vstd::string::StrSliceExecFns;

verus! {

/// Whether removing `table` drops this statement kind entirely.
pub open spec fn drops_for_table(table: Seq<char>, k: KindV) -> bool {
    ||| (k matches KindV::CreateTable { name, .. } && name == table)
    ||| (k matches KindV::Insert { table: t, .. } && t == table)
    ||| (k matches KindV::CreateView { name, .. } && name == table)
    ||| (k matches KindV::Update { table: t, .. } && t == table)
    ||| (k matches KindV::Delete { table: t, .. } && t == table)
    ||| (k matches KindV::AlterTable { table: t, .. } && t == table)
}

/// Removing one table from a statement list: statements for the table are
/// dropped, the rest are rewritten, and statements whose text becomes
/// empty are discarded.
pub open spec fn remove_table_list(table: Seq<char>, qs: Seq<StmtV>) -> Seq<StmtV>
    decreases qs.len(),
{
    if qs.len() == 0 {
        Seq::empty()
    } else {
        let rest = remove_table_list(table, qs.drop_last());
        let s = qs.last();
        if drops_for_table(table, s.kind) {
            rest
        } else {
            let r = remove_refs(table, s);
            if r.original.len() == 0 {
                rest
            } else {
                rest.push(r)
            }
        }
    }
}

/// Removing several tables in order, each from the previous result.
pub open spec fn remove_tables_list(ts: Seq<Seq<char>>, qs: Seq<StmtV>) -> Seq<StmtV>
    decreases ts.len(),
{
    if ts.len() == 0 {
        qs
    } else {
        remove_table_list(ts.last(), remove_tables_list(ts.drop_last(), qs))
    }
}

/// Removing a table never adds statements.
pub proof fn lemma_remove_table_len(table: Seq<char>, qs: Seq<StmtV>)
    ensures
        remove_table_list(table, qs).len() <= qs.len(),
    decreases qs.len(),
{
    if qs.len() > 0 {
        lemma_remove_table_len(table, qs.drop_last());
    }
}

/// Removing a set of tables never adds statements.
pub proof fn lemma_remove_tables_len(ts: Seq<Seq<char>>, qs: Seq<StmtV>)
    ensures
        remove_tables_list(ts, qs).len() <= qs.len(),
    decreases ts.len(),
{
    if ts.len() > 0 {
        lemma_remove_tables_len(ts.drop_last(), qs);
        lemma_remove_table_len(ts.last(), remove_tables_list(ts.drop_last(), qs));
    }
}

/// Whether removing `table` drops this statement entirely.
fn drops_table(q: &Statement, table: &str) -> (r: bool)
    ensures
        r == drops_for_table(table@, q@.kind),
{
    match &q.kind {
        StatementKind::CreateTable { name, .. } => str_eq(name.as_str(), table),
        StatementKind::Insert { table: t, .. } => str_eq(t.as_str(), table),
        StatementKind::CreateView { name, .. } => str_eq(name.as_str(), table),
        StatementKind::Update { table: t, .. } => str_eq(t.as_str(), table),
        StatementKind::Delete { table: t, .. } => str_eq(t.as_str(), table),
        StatementKind::AlterTable { table: t, .. } => str_eq(t.as_str(), table),
        _ => false,
    }
}

/// Remove every reference to `table` from a statement list.
#[verifier::loop_isolation(false)]
pub fn remove_table_in_place(table: &str, queries: Vec<Statement>) -> (r: Vec<Statement>)
    ensures
        view_stmts(r@) == remove_table_list(table@, view_stmts(queries@)),
{
    let mut out: Vec<Statement> = Vec::new();
    let mut i: usize = 0;
    while i < queries.len()
        invariant
            i <= queries@.len(),
            view_stmts(out@) == remove_table_list(
                table@,
                view_stmts(queries@.subrange(0, i as int)),
            ),
        decreases queries@.len() - i,
    {
        let q = &queries[i];
        proof {
            let pre = view_stmts(queries@.subrange(0, i as int));
            let nxt = view_stmts(queries@.subrange(0, i + 1));
            assert(queries@.subrange(0, i + 1).drop_last() =~= queries@.subrange(0, i as int));
            assert(queries@.subrange(0, i + 1).last() == queries@[i as int]);
            assert(nxt == pre.push(crate::statements::types::view_stmt(queries@[i as int])));
            assert(pre.push(
                crate::statements::types::view_stmt(queries@[i as int]),
            ).drop_last() =~= pre);
        }
        if !drops_table(q, table) {
            let mut rewritten = clone_statement(q);
            rewritten.remove_table_references(table);
            if rewritten.original.as_str().unicode_len() > 0 {
                let ghost old_out = out@;
                out.push(rewritten);
                proof {
                    assert(out@.drop_last() =~= old_out);
                    assert(view_stmts(out@) == view_stmts(old_out).push(
                        crate::statements::types::view_stmt(out@.last()),
                    ));
                }
            }
        }
        i += 1;
    }
    proof {
        assert(queries@.subrange(0, queries@.len() as int) =~= queries@);
    }
    out
}

/// Remove every reference to each of `tables`, in order.
#[verifier::loop_isolation(false)]
pub fn remove_tables_in_place(tables: &Vec<String>, queries: &Vec<Statement>) -> (r: Vec<
    Statement,
>)
    ensures
        view_stmts(r@) == remove_tables_list(tables.deep_view(), view_stmts(queries@)),
{
    let mut current = copy_statements(queries);
    let mut i: usize = 0;
    while i < tables.len()
        invariant
            i <= tables@.len(),
            view_stmts(current@) == remove_tables_list(
                tables.deep_view().subrange(0, i as int),
                view_stmts(queries@),
            ),
        decreases tables@.len() - i,
    {
        current = remove_table_in_place(tables[i].as_str(), current);
        proof {
            let pre = tables.deep_view().subrange(0, i as int);
            let nxt = tables.deep_view().subrange(0, i + 1);
            assert(nxt.drop_last() =~= pre);
            assert(nxt.last() == tables.deep_view()[i as int]);
        }
        i += 1;
    }
    proof {
        assert(tables.deep_view().subrange(0, tables@.len() as int) =~= tables.deep_view());
    }
    current
}

/// A fresh vector holding copies of the given statements.
#[verifier::loop_isolation(false)]
pub fn copy_statements(v: &Vec<Statement>) -> (r: Vec<Statement>)
    ensures
        view_stmts(r@) == view_stmts(v@),
        r@.len() == v@.len(),
{
    let mut r: Vec<Statement> = Vec::new();
    let mut i: usize = 0;
    while i < v.len()
        invariant
            i <= v@.len(),
            r@.len() == i,
            view_stmts(r@) == view_stmts(v@.subrange(0, i as int)),
        decreases v@.len() - i,
    {
        let ghost old_r = r@;
        r.push(clone_statement(&v[i]));
        proof {
            assert(r@.drop_last() =~= old_r);
            assert(view_stmts(r@) == view_stmts(old_r).push(
                crate::statements::types::view_stmt(r@.last()),
            ));
            assert(v@.subrange(0, i + 1).drop_last() =~= v@.subrange(0, i as int));
            assert(v@.subrange(0, i + 1).last() == v@[i as int]);
        }
        i += 1;
    }
    proof {
        assert(v@.subrange(0, v@.len() as int) =~= v@);
    }
    r
}


/// The names of the tables the statement list creates, in order.
pub open spec fn created_names(qs: Seq<StmtV>) -> Seq<Seq<char>>
    decreases qs.len(),
{
    if qs.len() == 0 {
        Seq::empty()
    } else {
        let rest = created_names(qs.drop_last());
        match qs.last().kind {
            KindV::CreateTable { name, .. } => rest.push(name),
            _ => rest,
        }
    }
}

/// The table stage's guarantee: the result is the input with the tables
/// `ts` removed, where `ts` is an oracle-approved (or empty) subset of the
/// created-table names, every created name left out of `ts` took part in a
/// rejected trial, and `ts` repeats no name when the created names repeat
/// none.
pub open spec fn table_stage<O: Oracle>(
    o: O,
    ts: Seq<Seq<char>>,
    queries_view: Seq<StmtV>,
    result_view: Seq<StmtV>,
) -> bool {
    let names = created_names(queries_view);
    &&& result_view == remove_tables_list(ts, queries_view)
    &&& result_view.len() <= queries_view.len()
    &&& ts.len() <= names.len()
    &&& (forall|x: Seq<char>| ts.contains(x) ==> names.contains(x))
    &&& (ts.len() == 0 || o.judges(crate::delta_debug_stmt::removed_script(ts, queries_view)))
    &&& (forall|x: Seq<char>|
        names.contains(x) && !ts.contains(x) ==> crate::delta_debug_stmt::tried_and_rejected(
            o,
            x,
            ts,
            names,
            queries_view,
        ))
    &&& (names.no_duplicates() ==> ts.no_duplicates())
}

/// The table-granularity stage: search for a maximal removable set among
/// the created tables, and apply its removal.
///
/// On success the result is the input with an oracle-approved set of
/// created-table names structurally removed; every created name left out
/// of that set took part in at least one oracle-rejected trial.
pub fn remove_table<O: Oracle>(queries: &Vec<Statement>, oracle: &O) -> (r: Result<
    Vec<Statement>,
    OracleError,
>)
    ensures
        created_names(view_stmts(queries@)).len() == 0 ==> r is Ok,
        r matches Ok(v) ==> exists|ts: Seq<Seq<char>>|
            #[trigger] table_stage(*oracle, ts, view_stmts(queries@), view_stmts(v@)),
{
    let ghost qv = view_stmts(queries@);
    let mut table_names: Vec<String> = Vec::new();
    let mut i: usize = 0;
    while i < queries.len()
        invariant
            qv == view_stmts(queries@),
            i <= queries@.len(),
            table_names.deep_view() == created_names(
                view_stmts(queries@.subrange(0, i as int)),
            ),
        decreases queries@.len() - i,
    {
        proof {
            let pre = view_stmts(queries@.subrange(0, i as int));
            let nxt = view_stmts(queries@.subrange(0, i + 1));
            assert(queries@.subrange(0, i + 1).drop_last() =~= queries@.subrange(0, i as int));
            assert(queries@.subrange(0, i + 1).last() == queries@[i as int]);
            assert(nxt == pre.push(crate::statements::types::view_stmt(queries@[i as int])));
            assert(pre.push(crate::statements::types::view_stmt(queries@[i as int])).drop_last()
                =~= pre);
        }
        let ghost old_names = table_names.deep_view();
        match queries[i].get_create_table_name() {
            Some(name) => {
                table_names.push(name.clone());
                proof {
                    assert(table_names.deep_view() =~= old_names.push(name@));
                }
            },
            None => {},
        }
        i += 1;
    }
    proof {
        assert(queries@.subrange(0, queries@.len() as int) =~= queries@);
    }
    proof {
        assert(table_names.deep_view() == created_names(qv));
        assert(table_names.deep_view().len() == table_names@.len());
    }
    match delta_debug_stmt(table_names, 2, queries, oracle) {
        Ok(removable) => {
            let out = remove_tables_in_place(&removable, queries);
            let ghost ts = removable.deep_view();
            let result: Result<Vec<Statement>, OracleError> = Ok(out);
            proof {
                let v = result->Ok_0;
                assert(ts.len() == removable@.len());
                assert(view_stmts(v@) == remove_tables_list(ts, view_stmts(queries@)));
                lemma_remove_tables_len(ts, view_stmts(queries@));
                assert(table_stage(*oracle, ts, view_stmts(queries@), view_stmts(v@)));
            }
            result
        },
        Err(e) => Err(e),
    }
}

/// Split a script on `;`, keeping every piece verbatim (empties
/// included): exactly the pieces between separators, in order.
#[verifier::loop_isolation(false)]
fn split_raw(text: &str) -> (r: Vec<String>)
    ensures
        r.deep_view() == crate::parser::split_parts(text@),
{
    let cs = chars_of(text);
    let ghost full = text@;
    let mut out: Vec<String> = Vec::new();
    proof {
        assert(full.subrange(0, full.len() as int) =~= full);
        assert(out.deep_view() + crate::parser::split_parts(full) =~= crate::parser::split_parts(
            full,
        ));
    }
    let mut start: usize = 0;
    let mut i: usize = 0;
    while i < cs.len()
        invariant
            cs@ == full,
            start <= i <= full.len(),
            forall|j: int| start <= j < i ==> full[j] != ';',
            crate::parser::split_parts(full) == out.deep_view() + crate::parser::split_parts(
                full.subrange(start as int, full.len() as int),
            ),
        decreases full.len() - i,
    {
        if cs[i] == ';' {
            let piece = crate::text::substring_chars(&cs, start, i);
            let ghost old_out = out.deep_view();
            out.push(piece);
            proof {
                let sub = full.subrange(start as int, full.len() as int);
                let k = i - start;
                assert(forall|j: int| 0 <= j < k ==> sub[j] == full[start + j]);
                crate::parser::lemma_first_semi_at(sub, k as int);
                assert(sub.subrange(0, k as int) =~= full.subrange(start as int, i as int));
                assert(sub.subrange(k + 1, sub.len() as int) =~= full.subrange(
                    i + 1,
                    full.len() as int,
                ));
                assert(out.deep_view() =~= old_out.push(full.subrange(start as int, i as int)));
                assert(old_out + (seq![full.subrange(start as int, i as int)]
                    + crate::parser::split_parts(full.subrange(i + 1, full.len() as int)))
                    =~= out.deep_view() + crate::parser::split_parts(full.subrange(
                    i + 1,
                    full.len() as int,
                )));
            }
            start = i + 1;
        }
        i += 1;
    }
    let piece = crate::text::substring_chars(&cs, start, cs.len());
    let ghost old_out = out.deep_view();
    out.push(piece);
    proof {
        let sub = full.subrange(start as int, full.len() as int);
        crate::parser::lemma_first_semi_at(sub, sub.len() as int);
        assert(crate::parser::split_parts(sub) =~= seq![sub]);
        assert(out.deep_view() =~= old_out.push(sub));
        assert(old_out + seq![sub] =~= out.deep_view());
    }
    out
}

/// The token split of `s` from position `i` onward: `word` is the word in
/// progress, `out` the tokens already produced; whitespace separates
/// tokens and each `(` or `)` is a token of its own.
pub open spec fn tokens_from(
    s: Seq<char>,
    i: int,
    word: Seq<char>,
    out: Seq<Seq<char>>,
) -> Seq<Seq<char>>
    decreases s.len() - i,
{
    if i < 0 || i >= s.len() {
        if word.len() > 0 {
            out.push(word)
        } else {
            out
        }
    } else if crate::text::is_ws(s[i]) {
        tokens_from(
            s,
            i + 1,
            Seq::empty(),
            if word.len() > 0 {
                out.push(word)
            } else {
                out
            },
        )
    } else if s[i] == '(' || s[i] == ')' {
        tokens_from(
            s,
            i + 1,
            Seq::empty(),
            (if word.len() > 0 {
                out.push(word)
            } else {
                out
            }).push(seq![s[i]]),
        )
    } else {
        tokens_from(s, i + 1, word.push(s[i]), out)
    }
}

/// The whitespace-and-parenthesis tokens of a statement text.
pub open spec fn tokens_of(s: Seq<char>) -> Seq<Seq<char>> {
    tokens_from(s, 0, Seq::empty(), Seq::empty())
}

/// The whitespace-and-parenthesis tokens of one statement: split on
/// whitespace, with each `(` and `)` as a token of its own.
#[verifier::loop_isolation(false)]
fn tokenize(text: &str) -> (r: Vec<String>)
    ensures
        r.deep_view() == tokens_of(text@),
{
    let cs = chars_of(text);
    let mut out: Vec<String> = Vec::new();
    let mut word: Vec<char> = Vec::new();
    proof {
        assert(word@ =~= Seq::<char>::empty());
        assert(out.deep_view() =~= Seq::<Seq<char>>::empty());
    }
    let mut i: usize = 0;
    while i < cs.len()
        invariant
            cs@ == text@,
            i <= cs@.len(),
            tokens_from(text@, i as int, word@, out.deep_view()) == tokens_of(text@),
        decreases cs@.len() - i,
    {
        let ghost w0 = word@;
        let ghost o0 = out.deep_view();
        let c = cs[i];
        proof {
            assert(c == text@[i as int]);
        }
        if is_ws_char(c) {
            if word.len() > 0 {
                let ghost old_out = out.deep_view();
                let ghost old_word = word@;
                out.push(string_from_chars(&word));
                word = Vec::new();
                proof {
                    assert(out.deep_view() =~= old_out.push(old_word));
                }
            } else {
                proof {
                    assert(word@ =~= Seq::<char>::empty());
                }
            }
        } else if c == '(' || c == ')' {
            let ghost old_out = out.deep_view();
            let ghost old_word = word@;
            if word.len() > 0 {
                out.push(string_from_chars(&word));
                word = Vec::new();
                proof {
                    assert(out.deep_view() =~= old_out.push(old_word));
                }
            } else {
                proof {
                    assert(word@ =~= Seq::<char>::empty());
                }
            }
            let ghost mid_out = out.deep_view();
            let mut single: Vec<char> = Vec::new();
            single.push(c);
            proof {
                assert(single@ =~= seq![text@[i as int]]);
            }
            out.push(string_from_chars(&single));
            proof {
                assert(out.deep_view() =~= mid_out.push(seq![text@[i as int]]));
            }
        } else {
            word.push(c);
        }
        proof {
            assert(word@ =~= word@);
            assert(tokens_from(text@, i as int, w0, o0) == tokens_from(
                text@,
                i + 1,
                word@,
                out.deep_view(),
            ));
        }
        i += 1;
    }
    let ghost final_out = out.deep_view();
    let ghost final_word = word@;
    if word.len() > 0 {
        out.push(string_from_chars(&word));
        proof {
            assert(out.deep_view() =~= final_out.push(final_word));
        }
    }
    out
}

/// The script vector in place when slot `i` was reduced: the slots before
/// `i` already hold their final text, the rest still hold the original
/// pieces.
pub open spec fn prior_of(slots: Seq<Seq<char>>, origs: Seq<Seq<char>>, i: int) -> Seq<
    Seq<char>,
> {
    slots.subrange(0, i) + origs.subrange(i, origs.len() as int)
}

/// What the token stage guarantees of slot `i`: its text renders a
/// repaired token fragment that is 1-minimal for its slot against the
/// script vector of its reduction, and that fragment either is the
/// original piece's own token split or was oracle-approved as part of the
/// spliced whole script.
pub open spec fn slot_reduced<O: Oracle>(
    o: O,
    slots: Seq<Seq<char>>,
    origs: Seq<Seq<char>>,
    i: int,
) -> bool {
    exists|kept: Seq<Seq<char>>|
        {
            &&& slots[i] == statement_of_tokens(#[trigger] repaired(kept))
            &&& crate::bruteforce_debug::one_minimal_tokens(
                o,
                prior_of(slots, origs, i),
                i,
                kept,
            )
            &&& (kept == tokens_of(origs[i]) || o.judges(
                crate::bruteforce_debug::tokens_candidate(
                    prior_of(slots, origs, i),
                    i,
                    repaired(kept),
                ),
            ))
        }
}

/// The token-granularity stage: reduce each statement of the script in
/// place, validating every candidate as a whole script.
///
/// On success the result is the `;`-join of one slot per piece of the
/// input, where each slot renders a repaired token fragment that is
/// 1-minimal for its slot and either is the piece's own token split or
/// was oracle-approved spliced into the whole script.
pub fn brute_force<O: Oracle>(queries: &String, oracle: &O) -> (r: Result<String, OracleError>)
    ensures
        r matches Ok(out) ==> exists|slots: Seq<Seq<char>>|
            {
                &&& out@ == #[trigger] join_texts_semi(slots)
                &&& slots.len() == crate::parser::split_parts(queries@).len()
                &&& forall|i: int|
                    0 <= i < slots.len() ==> slot_reduced(
                        *oracle,
                        slots,
                        crate::parser::split_parts(queries@),
                        i,
                    )
            },
{
    let ghost orig_slots = crate::parser::split_parts(queries@);
    let pieces = split_raw(queries.as_str());
    let originals = crate::utils::copy_strings(&pieces);
    let mut vec_query = pieces;
    let mut index: usize = 0;
    while index < vec_query.len()
        invariant
            vec_query@.len() == originals@.len(),
            index <= vec_query@.len(),
            vec_query.deep_view().len() == vec_query@.len(),
            originals.deep_view() == orig_slots,
            orig_slots == crate::parser::split_parts(queries@),
            forall|k: int|
                index <= k < vec_query@.len() ==> vec_query.deep_view()[k] == orig_slots[k],
            forall|k: int|
                0 <= k < index ==> slot_reduced(*oracle, vec_query.deep_view(), orig_slots, k),
        decreases vec_query@.len() - index,
    {
        let tokens = tokenize(originals[index].as_str());
        let ghost tv = tokens.deep_view();
        let ghost tlen = tokens@.len();
        let ghost prior = vec_query.deep_view();
        match bruteforce_delta_debug(tokens, 2, index, &vec_query, oracle) {
            Ok(reduced) => {
                let ghost before = vec_query.deep_view();
                vec_query[index] = reduced;
                proof {
                    let nd = vec_query.deep_view();
                    assert forall|k: int|
                        0 <= k < nd.len() && k != index implies nd[k] == before[k] by {}
                    let kept = choose|kept: Seq<Seq<char>>|
                        {
                            &&& kept.len() <= tlen
                            &&& reduced@ == statement_of_tokens(#[trigger] repaired(kept))
                            &&& crate::bruteforce_debug::one_minimal_tokens(
                                *oracle,
                                prior,
                                index as int,
                                kept,
                            )
                            &&& (kept == tv || oracle.judges(
                                crate::bruteforce_debug::tokens_candidate(
                                    prior,
                                    index as int,
                                    repaired(kept),
                                ),
                            ))
                        };
                    assert(prior_of(nd, orig_slots, index as int) =~= prior);
                    assert(tv == tokens_of(orig_slots[index as int]));
                    assert(nd[index as int] == reduced@);
                    assert(slot_reduced(*oracle, nd, orig_slots, index as int));
                    assert forall|k: int|
                        0 <= k < index implies slot_reduced(*oracle, nd, orig_slots, k) by {
                        assert(slot_reduced(*oracle, before, orig_slots, k));
                        let kept2 = choose|kept2: Seq<Seq<char>>|
                            {
                                &&& before[k] == statement_of_tokens(
                                    #[trigger] repaired(kept2),
                                )
                                &&& crate::bruteforce_debug::one_minimal_tokens(
                                    *oracle,
                                    prior_of(before, orig_slots, k),
                                    k,
                                    kept2,
                                )
                                &&& (kept2 == tokens_of(orig_slots[k]) || oracle.judges(
                                    crate::bruteforce_debug::tokens_candidate(
                                        prior_of(before, orig_slots, k),
                                        k,
                                        repaired(kept2),
                                    ),
                                ))
                            };
                        assert(prior_of(nd, orig_slots, k) =~= prior_of(before, orig_slots, k));
                        assert(nd[k] == before[k]);
                        assert(nd[k] == statement_of_tokens(repaired(kept2)));
                    }
                }
            },
            Err(e) => {
                return Err(e);
            },
        }
        index += 1;
    }
    let out = join_with(&vec_query, ";");
    proof {
        reveal_strlit(";");
        assert(";"@ =~= seq![';']);
        assert(crate::utils::texts_of(vec_query@) =~= vec_query.deep_view());
        let slots = vec_query.deep_view();
        assert(out@ == join_texts_semi(slots));
    }
    Ok(out)
}

/// Texts joined with a `;` between consecutive elements.
pub open spec fn join_texts_semi(slots: Seq<Seq<char>>) -> Seq<char> {
    crate::utils::join_texts(slots, seq![';'])
}

/// The pipeline's stage relation, tying the result to the input through
/// the three stages: `mid` is the statement-stage output over the input's
/// statement texts `orig_texts` (1-minimal, never larger, and either the
/// input itself or oracle-approved); `ast` is its re-parse; `ts` is the
/// removed table set with the whole table-stage guarantee; `s2` the
/// table-stage script; and the result `s` is `s2` on a quick run, and
/// otherwise a per-slot token-stage rendering of `s2`'s pieces.
pub open spec fn pipeline_stages<O: Oracle>(
    o: O,
    orig_texts: Seq<Seq<char>>,
    quick: bool,
    s: Seq<char>,
    mid: Seq<Seq<char>>,
    ast: Seq<StmtV>,
    ts: Seq<Seq<char>>,
    s2: Seq<char>,
) -> bool {
    &&& crate::delta_debug::one_minimal(o, mid)
    &&& mid.len() <= orig_texts.len()
    &&& (mid == orig_texts || o.judges(crate::utils::script_of(mid)))
    &&& crate::parser::originals_of(ast) == crate::parser::statements_spec(
        crate::utils::script_of(mid),
    )
    &&& table_stage(o, ts, ast, remove_tables_list(ts, ast))
    &&& s2 == crate::utils::script_of(
        crate::delta_debug_stmt::texts_of_stmts(remove_tables_list(ts, ast)),
    )
    &&& ((forall|i: int|
        0 <= i < orig_texts.len() ==> crate::parser::clean_text(#[trigger] orig_texts[i]))
        ==> ast.len() <= orig_texts.len())
    &&& (quick ==> s == s2)
    &&& (!quick ==> exists|slots: Seq<Seq<char>>|
        {
            &&& s == #[trigger] join_texts_semi(slots)
            &&& slots.len() == crate::parser::split_parts(s2).len()
            &&& forall|i: int|
                0 <= i < slots.len() ==> slot_reduced(o, slots, crate::parser::split_parts(s2), i)
        })
}

/// The whole pipeline: statement-level ddmin, then table removal, then
/// (unless `quick`) token-level reduction of each surviving statement.
/// Stages hand their output forward; no stage re-expands a candidate.
///
/// On success there are a statement-stage output `mid` (1-minimal, never
/// larger than the input), its re-parse `ast`, a removed table set `ts`
/// and the table-stage script `s2` such that the result is `s2` on a
/// quick run, and otherwise the token-stage rendering of `s2`'s pieces.
pub fn reduce<O: Oracle>(current_ast: Vec<Statement>, quick: bool, oracle: &O) -> (r: Result<
    String,
    OracleError,
>)
    ensures
        r is Ok ==> exists|
            mid: Seq<Seq<char>>,
            ast: Seq<StmtV>,
            ts: Seq<Seq<char>>,
            s2: Seq<char>,
        |
            #[trigger] pipeline_stages(
                *oracle,
                crate::parser::originals_of(view_stmts(current_ast@)),
                quick,
                (r->Ok_0)@,
                mid,
                ast,
                ts,
                s2,
            ),
{
    // statement-granularity ddmin over the statement texts
    let ghost otv = crate::parser::originals_of(view_stmts(current_ast@));
    let mut texts: Vec<String> = Vec::new();
    let mut i: usize = 0;
    while i < current_ast.len()
        invariant
            otv == crate::parser::originals_of(view_stmts(current_ast@)),
            i <= current_ast@.len(),
            texts@.len() == i,
            texts.deep_view() == crate::parser::originals_of(
                view_stmts(current_ast@.subrange(0, i as int)),
            ),
        decreases current_ast@.len() - i,
    {
        proof {
            let pre = view_stmts(current_ast@.subrange(0, i as int));
            let nxt = view_stmts(current_ast@.subrange(0, i + 1));
            assert(current_ast@.subrange(0, i + 1).drop_last() =~= current_ast@.subrange(
                0,
                i as int,
            ));
            assert(current_ast@.subrange(0, i + 1).last() == current_ast@[i as int]);
            assert(nxt == pre.push(
                crate::statements::types::view_stmt(current_ast@[i as int]),
            ));
            assert(pre.push(
                crate::statements::types::view_stmt(current_ast@[i as int]),
            ).drop_last() =~= pre);
        }
        let ghost old_texts = texts.deep_view();
        texts.push(current_ast[i].original.clone());
        proof {
            assert(texts.deep_view() =~= old_texts.push(current_ast@[i as int].original@));
        }
        i += 1;
    }
    proof {
        assert(current_ast@.subrange(0, current_ast@.len() as int) =~= current_ast@);
        assert(texts.deep_view() == otv);
        assert(texts.deep_view().len() == texts@.len());
    }
    let reduced_texts = match delta_debug(texts, 2, oracle) {
        Ok(v) => v,
        Err(e) => {
            return Err(e);
        },
    };
    let script = vec_statement_to_string(&reduced_texts, ";");
    proof {
        crate::utils::lemma_script_of_strings(&reduced_texts);
    }
    // table-granularity removal over the re-parsed script
    let ast = match generate_ast(script.as_str()) {
        Ok(v) => v,
        Err(_) => {
            return Ok(script);
        },
    };
    let table_reduced = match remove_table(&ast, oracle) {
        Ok(v) => v,
        Err(e) => {
            return Err(e);
        },
    };
    let script2 = vec_statement_to_string(&table_reduced, ";");
    proof {
        crate::delta_debug_stmt::lemma_statement_script(&table_reduced);
    }
    let ghost mid = reduced_texts.deep_view();
    let ghost astv = view_stmts(ast@);
    let ghost ts = choose|ts: Seq<Seq<char>>|
        #[trigger] table_stage(*oracle, ts, view_stmts(ast@), view_stmts(table_reduced@));
    proof {
        assert(table_stage(*oracle, ts, astv, remove_tables_list(ts, astv))) by {
            assert(view_stmts(table_reduced@) == remove_tables_list(ts, astv));
            lemma_remove_tables_len(ts, astv);
        }
    }
    let ghost s2v = script2@;
    // token-granularity reduction within each surviving statement, unless
    // this is a quick run
    let result: Result<String, OracleError> = if quick {
        Ok(script2)
    } else {
        brute_force(&script2, oracle)
    };
    proof {
        if result is Ok {
            let s = result->Ok_0;
            if forall|i: int|
                0 <= i < otv.len() ==> crate::parser::clean_text(#[trigger] otv[i]) {
                assert forall|i: int|
                    0 <= i < mid.len() implies crate::parser::clean_text(
                    #[trigger] mid[i],
                ) by {
                    assert(mid.contains(mid[i]));
                    crate::delta_debug::lemma_subseq_member(mid, otv, mid[i]);
                    let j = choose|j: int| 0 <= j < otv.len() && otv[j] == mid[i];
                }
                crate::parser::lemma_statements_roundtrip(mid);
                crate::parser::lemma_originals_len(astv);
            }
            assert(pipeline_stages(*oracle, otv, quick, s@, mid, astv, ts, s2v));
        }
    }
    result
}

} // verus!

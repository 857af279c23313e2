//! End-to-end scenarios and the library's stated behaviours on concrete
//! values.

use reducer::bruteforce_debug::find_one_minimal as token_sweep;
use reducer::bruteforce_debug::string_w_para;
use reducer::delta_debug::delta_debug;
use reducer::delta_debug::find_one_minimal;
use reducer::delta_debug_stmt::delta_debug_stmt;
use reducer::oracle::interpret_exit_code;
use reducer::oracle::Oracle;
use reducer::oracle::OracleError;
use reducer::oracle::SubstringOracle;
use reducer::parser::generate_ast;
use reducer::parser::split_statements;
use reducer::reducer::reduce;
use reducer::utils::vec_statement_to_string;

fn needles(ns: &[&str]) -> SubstringOracle {
    SubstringOracle::new(ns.iter().map(|s| s.to_string()).collect())
}

#[test]
fn exit_code_zero_is_not_reproduced() {
    assert_eq!(interpret_exit_code(Some(0)), Ok(false));
}

#[test]
fn exit_code_one_is_reproduced() {
    assert_eq!(interpret_exit_code(Some(1)), Ok(true));
}

#[test]
fn exit_code_other_is_fatal() {
    assert_eq!(interpret_exit_code(Some(3)), Err(OracleError::UnexpectedExit(3)));
}

#[test]
fn exit_by_signal_is_fatal() {
    assert_eq!(interpret_exit_code(None), Err(OracleError::Signalled));
}

#[test]
fn substring_oracle_judges_presence() {
    let oracle = needles(&["INSERT"]);
    assert_eq!(oracle.check(&"x INSERT y".to_string()), Ok(true));
    assert_eq!(oracle.check(&"x insert y".to_string()), Ok(false));
}

#[test]
fn render_joins_with_trailing_terminator() {
    let v: Vec<String> = vec!["a".into(), "b".into()];
    assert_eq!(vec_statement_to_string(&v, ";"), "a;b;");
    let empty: Vec<String> = vec![];
    assert_eq!(vec_statement_to_string(&empty, ";"), ";");
}

#[test]
fn splitting_trims_and_drops_empties() {
    assert_eq!(split_statements("a;\r\n b ;; ;"), vec!["a", "b"]);
    assert_eq!(split_statements("   "), Vec::<String>::new());
    assert_eq!(split_statements(";;;"), Vec::<String>::new());
}

#[test]
fn paren_repair_prepends_and_appends() {
    let fragment: Vec<String> = vec![")".into(), "x".into(), "(".into()];
    let repaired = string_w_para(&fragment);
    assert_eq!(repaired, vec!["(", ")", "x", "(", ")"]);
}

#[test]
fn paren_repair_balanced_is_noop() {
    let fragment: Vec<String> = vec!["(".into(), "a".into(), ")".into()];
    let repaired = string_w_para(&fragment);
    assert_eq!(repaired, vec!["(", "a", ")"]);
}

#[test]
fn paren_repair_counts_match_after_repair() {
    let fragment: Vec<String> = vec![")".into(), "1".into()];
    let repaired = string_w_para(&fragment);
    let text = repaired.join("");
    let opens = text.chars().filter(|&c| c == '(').count();
    let closes = text.chars().filter(|&c| c == ')').count();
    assert_eq!(opens, closes);
}

#[test]
fn sweep_reaches_a_fixed_point() {
    let oracle = needles(&["a"]);
    let data: Vec<String> = vec!["a".into(), "b".into()];
    let once = find_one_minimal(&data, &oracle).unwrap();
    assert_eq!(once, vec!["a"]);
    let twice = find_one_minimal(&once, &oracle).unwrap();
    assert_eq!(twice, once);
}

#[test]
fn token_sweep_reaches_a_fixed_point() {
    // splice slot 0 of a one-statement script; the oracle wants INSERT kept
    let oracle = needles(&["INSERT"]);
    let script: Vec<String> = vec!["INSERT INTO F VALUES ( 1 )".into()];
    let toks: Vec<String> = vec![
        "INSERT".into(),
        "INTO".into(),
        "F".into(),
        "VALUES".into(),
        "(".into(),
        "1".into(),
        ")".into(),
    ];
    let once = token_sweep(&toks, 0, &script, &oracle).unwrap();
    // re-tokenize the rendered statement on whitespace and sweep again
    let toks2: Vec<String> = once.split_whitespace().map(|t| t.to_string()).collect();
    let script2: Vec<String> = vec![once.clone()];
    let twice = token_sweep(&toks2, 0, &script2, &oracle).unwrap();
    assert_eq!(twice, once);
}

#[test]
fn statement_ddmin_keeps_the_needle() {
    let oracle = needles(&["y"]);
    let data: Vec<String> = vec!["x".into(), "y".into(), "z".into()];
    let reduced = delta_debug(data, 2, &oracle).unwrap();
    assert_eq!(reduced, vec!["y"]);
}

#[test]
fn end_to_end_insert_survives() {
    let script = "CREATE TABLE F (p BOOLEAN); INSERT INTO F VALUES (((1+2)*3));";
    let ast = generate_ast(script).unwrap();
    let oracle = needles(&["INSERT"]);
    let out = reduce(ast, false, &oracle).unwrap();
    assert!(out.contains("INSERT"));
    assert!(!out.contains("CREATE TABLE"));
}

#[test]
fn end_to_end_table_needed_keeps_both() {
    let script = "CREATE TABLE F (p BOOLEAN); INSERT INTO F VALUES (((1+2)*3));";
    let ast = generate_ast(script).unwrap();
    // an oracle that requires the table to exist for the insert to matter
    let oracle = needles(&["INSERT", "CREATE TABLE F"]);
    let out = reduce(ast, true, &oracle).unwrap();
    assert!(out.contains("INSERT"));
    assert!(out.contains("CREATE TABLE F"));
}

#[test]
fn table_search_removes_only_unreferenced_tables() {
    let script = "CREATE TABLE table_2 (c INT);
        CREATE TABLE table_3 (c INT);
        CREATE TABLE table_4 (c INT);
        CREATE TABLE table_0 (c INT);
        CREATE TABLE table_1 (c INT);
        SELECT c FROM table_0, table_1;";
    let ast = generate_ast(script).unwrap();
    let oracle = needles(&["table_0", "table_1"]);
    let names: Vec<String> = vec![
        "table_2".into(),
        "table_3".into(),
        "table_4".into(),
        "table_0".into(),
        "table_1".into(),
    ];
    let base = delta_debug_stmt(names, 2, &ast, &oracle).unwrap();
    assert_eq!(base, vec!["table_2", "table_3", "table_4"]);
}

#[test]
fn removing_all_tables_of_a_select_leaves_select_one() {
    let script = "CREATE TABLE t (c INT); SELECT c FROM t;";
    let ast = generate_ast(script).unwrap();
    let cleaned = reducer::reducer::remove_table_in_place("t", ast);
    assert_eq!(cleaned.len(), 1);
    assert_eq!(cleaned[0].original, "SELECT 1");
}

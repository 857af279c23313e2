//! Parsing scripts and removing table references.

use reducer::parser::generate_ast;
use reducer::reducer::remove_table_in_place;
use reducer::statements::parsers::parse_create_table;
use reducer::statements::parsers::parse_insert_statement;
use reducer::statements::parsers::parse_select_statement;
use reducer::statements::types::StatementKind;
use reducer::utils::vec_statement_to_string;

#[test]
#[allow(non_snake_case)]
fn parseQuery3() {
    let query = "CREATE TABLE  table_0 (table_0_c0 TEXT, table_0_c1 REAL ) ;
CREATE TABLE IF NOT EXISTS table_1  (table_1_c0 REAL ) ;
CREATE TABLE  table_2  (table_2_c0 UNSIGNED BIG INT, table_2_c1 BIGINT, table_2_c2 BIGINT ) ;
CREATE TABLE IF NOT EXISTS table_3 (table_3_c0 UNSIGNED BIG INT, table_3_c1 DATETIME ) ;
CREATE TABLE  table_4  (table_4_c0 INT, table_4_c1 BOOLEAN, table_4_c2 INT ) ;
INSERT INTO table_3 (table_3_c0, table_3_c1) VALUES (-2, NULL) ;
INSERT OR IGNORE INTO table_4 (table_4_c0, table_4_c1, table_4_c2) VALUES (3, 0, TRUE) ;
INSERT INTO table_0 (table_0_c0, table_0_c1) VALUES ('male', 1.5) ;
INSERT INTO table_3 (table_3_c0, table_3_c1) VALUES (4, NULL) ;
INSERT INTO table_2 (table_2_c0, table_2_c1, table_2_c2) VALUES (1, -0, 0) ;
INSERT INTO table_3 (table_3_c0, table_3_c1) VALUES (2, NULL) ;
INSERT INTO table_1 (table_1_c0) VALUES (-1.5) ;
INSERT OR REPLACE INTO table_2 (table_2_c0, table_2_c1, table_2_c2) VALUES (3, 3, -1) ;
INSERT INTO table_1 (table_1_c0) VALUES (-0.0) ;
INSERT INTO table_3 (table_3_c0, table_3_c1) VALUES (TRUE, NULL) ;
INSERT OR IGNORE INTO table_3 (table_3_c0, table_3_c1) VALUES (3, NULL) ;
INSERT INTO table_4 (table_4_c0, table_4_c1, table_4_c2) VALUES (TRUE, FALSE, FALSE) ;
INSERT INTO table_4 (table_4_c0, table_4_c1, table_4_c2) VALUES (4, 1, 0) ;
INSERT INTO table_0 (table_0_c0, table_0_c1) VALUES ('bob', 0.0) ;
INSERT INTO table_2 (table_2_c0, table_2_c1, table_2_c2) VALUES (-2, -0, NULL) ;
INSERT INTO table_4 (table_4_c0, table_4_c1, table_4_c2) VALUES (1, 0, FALSE) ;
INSERT INTO table_1 (table_1_c0) VALUES (2.0) ;
INSERT INTO table_0 (table_0_c0, table_0_c1) VALUES ('bob', -0.0) ;
INSERT INTO table_4 (table_4_c0, table_4_c1, table_4_c2) VALUES (FALSE, TRUE, 4) ;
INSERT OR REPLACE INTO table_1 (table_1_c0) VALUES (2.0) ;
INSERT INTO table_0 (table_0_c0, table_0_c1) VALUES (NULL, 2.0) ;
INSERT OR IGNORE INTO table_0 (table_0_c0, table_0_c1) VALUES ('switzerland', 1.5) ;
INSERT INTO table_4 (table_4_c0, table_4_c1, table_4_c2) VALUES (1, FALSE, -2) ;
INSERT INTO table_2 (table_2_c0, table_2_c1, table_2_c2) VALUES (FALSE, -1, 1) ;
INSERT OR REPLACE INTO table_3 (table_3_c0, table_3_c1) VALUES (1, NULL) ;
INSERT OR REPLACE INTO table_4 (table_4_c0, table_4_c1, table_4_c2) VALUES (NULL, NULL, 4) ;
INSERT INTO table_2 (table_2_c0, table_2_c1, table_2_c2) VALUES (-2, 2, -0) ;
INSERT INTO table_3 (table_3_c0, table_3_c1) VALUES (-1, NULL) ;
INSERT OR IGNORE INTO table_0 (table_0_c0, table_0_c1) VALUES ('alice', -1.5) ;
INSERT INTO table_0 (table_0_c0, table_0_c1) VALUES ('male', TRUE) ;
INSERT OR IGNORE INTO table_1 (table_1_c0) VALUES (2.0) ;
INSERT INTO table_1 (table_1_c0) VALUES (TRUE) ;
INSERT INTO table_3 (table_3_c0, table_3_c1) VALUES (NULL, NULL) ;
INSERT INTO table_4 (table_4_c0, table_4_c1, table_4_c2) VALUES (0, 1, -1) ;
INSERT INTO table_4 (table_4_c0, table_4_c1, table_4_c2) VALUES (-2, FALSE, FALSE) ;
INSERT INTO table_1 (table_1_c0) VALUES (NULL) ;
INSERT INTO table_1 (table_1_c0) VALUES (-0.0) ;
INSERT INTO table_0 (table_0_c0, table_0_c1) VALUES ('switzerland', -1.5) ;
INSERT INTO table_0 (table_0_c0, table_0_c1) VALUES ('bob', -0.0) ;
INSERT OR REPLACE INTO table_3 (table_3_c0, table_3_c1) VALUES (3, NULL) ;
INSERT INTO table_4 (table_4_c0, table_4_c1, table_4_c2) VALUES (3, TRUE, 2) ;
INSERT INTO table_4 (table_4_c0, table_4_c1, table_4_c2) VALUES (2, 0, 4) ;
INSERT INTO table_2 (table_2_c0, table_2_c1, table_2_c2) VALUES (NULL, 3, -1) ;
INSERT INTO table_3 (table_3_c0, table_3_c1) VALUES (2, NULL) ;
INSERT INTO table_2 (table_2_c0, table_2_c1, table_2_c2) VALUES (0, -0, NULL) ;
INSERT OR IGNORE INTO table_0 (table_0_c0, table_0_c1) VALUES ('switzerland', 0.0) ;
INSERT INTO table_2 (table_2_c0, table_2_c1, table_2_c2) VALUES (4, 1, FALSE) ;
INSERT INTO table_2 (table_2_c0, table_2_c1, table_2_c2) VALUES (4, 4, -2) ;
INSERT INTO table_1 (table_1_c0) VALUES (-1.5) ;
INSERT INTO table_3 (table_3_c0, table_3_c1) VALUES (FALSE, NULL) ;
INSERT OR REPLACE INTO table_3 (table_3_c0, table_3_c1) VALUES (-1, NULL) ;
INSERT OR IGNORE INTO table_3 (table_3_c0, table_3_c1) VALUES (0, NULL) ;
INSERT INTO table_2 (table_2_c0, table_2_c1, table_2_c2) VALUES (FALSE, FALSE, 2) ;
INSERT INTO table_1 (table_1_c0) VALUES (-1.5) ;
INSERT INTO table_4 (table_4_c0, table_4_c1, table_4_c2) VALUES (-0, 1, 0) ;
INSERT INTO table_1 (table_1_c0) VALUES (2.0) ;
INSERT OR IGNORE INTO table_4 (table_4_c0, table_4_c1, table_4_c2) VALUES (TRUE, NULL, NULL) ;
INSERT INTO table_3 (table_3_c0, table_3_c1) VALUES (-1, NULL) ;
INSERT INTO table_4 (table_4_c0, table_4_c1, table_4_c2) VALUES (4, NULL, NULL) ;
INSERT INTO table_1 (table_1_c0) VALUES (-1.5) ;
INSERT INTO table_3 (table_3_c0, table_3_c1) VALUES (1, NULL) ;
INSERT INTO table_4 (table_4_c0, table_4_c1, table_4_c2) VALUES (TRUE, TRUE, -2) ;
INSERT INTO table_0 (table_0_c0, table_0_c1) VALUES ('germany', -1.5) ;
INSERT OR IGNORE INTO table_3 (table_3_c0, table_3_c1) VALUES (TRUE, NULL) ;
INSERT INTO table_1 (table_1_c0) VALUES (-0.0) ;
INSERT INTO table_1 (table_1_c0) VALUES (2.0) ;
INSERT INTO table_2 (table_2_c0, table_2_c1, table_2_c2) VALUES (3, TRUE, NULL) ;
INSERT OR REPLACE INTO table_2 (table_2_c0, table_2_c1, table_2_c2) VALUES (-2, 1, 0) ;
INSERT INTO table_2 (table_2_c0, table_2_c1, table_2_c2) VALUES (4, -0, 3) ;
INSERT INTO table_4 (table_4_c0, table_4_c1, table_4_c2) VALUES (TRUE, 1, NULL) ;
INSERT OR IGNORE INTO table_3 (table_3_c0, table_3_c1) VALUES (4, NULL) ;
INSERT INTO table_2 (table_2_c0, table_2_c1, table_2_c2) VALUES (2, 1, 4) ;
INSERT INTO table_3 (table_3_c0, table_3_c1) VALUES (TRUE, NULL) ;
INSERT OR IGNORE INTO table_4 (table_4_c0, table_4_c1, table_4_c2) VALUES (2, TRUE, 0) ;
INSERT OR IGNORE INTO table_1 (table_1_c0) VALUES (-1.5) ;
REINDEX ;;
CREATE VIEW view_0 AS WITH cte_1 AS ( SELECT DISTINCT * FROM table_0, table_3, table_2 ) SELECT DISTINCT * FROM table_1, table_4, table_0 ;;
;;
;;
WITH cte_2 AS ( SELECT  * FROM table_3, table_1 ) SELECT  * FROM table_4 JOIN table_0 ON table_4.table_4_c2 > table_0.table_0_c0 ORDER BY table_4_c0 LIMIT 1;
REINDEX ;;
REINDEX ;;
ANALYZE ;;
DROP VIEW view_0 ;;
WITH cte_3 AS ( SELECT  * FROM table_1 ) SELECT DISTINCT table_1_c0 FROM table_0, table_1 JOIN table_3 ON table_0.table_0_c1 < table_3.table_3_c0 WHERE EXISTS ( SELECT  * FROM table_3 ORDER BY table_3_c0 LIMIT 1 ) GROUP BY table_3_c0 ORDER BY table_0_c0 ASC LIMIT 0;
;;
ALTER TABLE table_1 ADD alter_table_1_c0 DATETIME ;;
PRAGMA synchronous ;;
DELETE FROM table_1 WHERE LOWER ( 1 ) ;;
SELECT  AVG(table_1_c0) FROM table_1, table_0, table_2 WHERE 1 IS NULL GROUP BY table_2_c1 HAVING IFNULL ( 1 , 1 ) LIMIT 2 OFFSET 2;
;;
ANALYZE table_4 ;;
;;
CREATE TRIGGER trigger_5 BEFORE INSERT ON table_0 BEGIN DELETE FROM table_2 ; UPDATE table_1 SET table_1_c0 = 0.0 WHERE IFNULL ( 1 , 1 ) ; END;
 SELECT DISTINCT * FROM table_3, table_2 WHERE EXISTS ( SELECT  table_3_c1 FROM table_3 LIMIT NULL ) LIMIT 3;
";
    let a = generate_ast(query);
    println!("{:?}", a);
}

#[test]
fn test_remove_query2() {
    let query = "CREATE TABLE IF NOT EXISTS t_DX44 (c_LGUf NUMERIC, c_Hlmf3w REAL DEFAULT 749171.692897985, c_ewZ TEXT, c_EwP TEXT DEFAULT 'Fn58MvfLqzQ2DMC4', c_YBA7sBV TEXT CHECK (length(c_YBA7sBV) > 0));
    INSERT OR FAIL INTO t_DX44 (c_LGUf, c_Hlmf3w, c_ewZ, c_EwP, c_YBA7sBV) VALUES (-958347, 803354.0705377955, 'MQ_2', 'qrZM84MTMHUkkov_3', 'IcJ_4'), (1119541, 661160.0780749931, '7131k8CH2I7rflmaZmFh_102', '1sGjUivjzF_103', 'fwAI_104'), (2703615, 419682.84648422664, '6u2sAbJVjXHWP_202', 'YpYYmjS_203', 'AyMTHlf_204');
    SELECT EXISTS (SELECT 1 FROM t_DX44 LIMIT 1) AS alias_xvE FROM t_DX44 WHERE NOT (t_DX44.c_EwP / t_DX44.c_ewZ) GROUP BY c_ewZ, c_Hlmf3w, c_LGUf HAVING CASE WHEN REPLACE(t_DX44.c_YBA7sBV, '7ZjVE', -109744) THEN t_DX44.c_LGUf ELSE TRUE END ORDER BY c_LGUf DESC, c_YBA7sBV;";

    let ast = generate_ast(query).unwrap();
    println!("{:#?}", ast);
    let cleaned = remove_table_in_place("t_DX44", ast);

    println!("{:#?}", cleaned);
    println!("{:#?}", vec_statement_to_string(&cleaned, ";"));

    assert_eq!(1, cleaned.len())
}

#[test]
fn test_remove() {
    let query = "CREATE TABLE  table_0 (table_0_c0 TEXT, table_0_c1 REAL ) ;
        CREATE TABLE IF NOT EXISTS table_1  (table_1_c0 REAL ) ;
        CREATE TABLE  table_2  (table_2_c0 UNSIGNED BIG INT, table_2_c1 BIGINT, table_2_c2 BIGINT ) ;
        CREATE TABLE IF NOT EXISTS table_3 (table_3_c0 UNSIGNED BIG INT, table_3_c1 DATETIME ) ;
        CREATE TABLE  table_4  (table_4_c0 INT, table_4_c1 BOOLEAN, table_4_c2 INT ) ;
        WITH cte_3 AS ( SELECT  * FROM table_1 ) SELECT DISTINCT table_1_c0 FROM table_0, table_1 JOIN table_3 ON table_0.table_0_c1 < table_3.table_3_c0 WHERE EXISTS ( SELECT  * FROM table_3 ORDER BY table_3_c0 LIMIT 1 ) GROUP BY table_3_c0 ORDER BY table_0_c0 ASC LIMIT 0;
        ;;
        ALTER TABLE table_1 ADD alter_table_1_c0 DATETIME ;;
        PRAGMA synchronous ;;
        DELETE FROM table_1 WHERE LOWER ( 1 ) ;;
        SELECT  AVG(table_1_c0) FROM table_1, table_0, table_2 WHERE 1 IS NULL GROUP BY table_2_c1 HAVING IFNULL ( 1 , 1 ) LIMIT 2 OFFSET 2;
        ;;
        ANALYZE table_4 ;;
        ;;
        CREATE TRIGGER trigger_5 BEFORE INSERT ON table_0 BEGIN DELETE FROM table_2 ;
        UPDATE table_1 SET table_1_c0 = 0.0 WHERE IFNULL ( 1 , 1 ) ; END;";

    let ast = generate_ast(query).unwrap();
    let cleaned = remove_table_in_place("table_1", ast);

    println!("{:#?}", cleaned);
    println!("{:#?}", vec_statement_to_string(&cleaned, ";"));

    assert_eq!(10, cleaned.len())
}

#[test]
fn test_select_remover() {
    let query = "CREATE TABLE  table_0 (table_0_c0 TEXT, table_0_c1 REAL ) ;
        CREATE TABLE IF NOT EXISTS table_1  (table_1_c0 REAL ) ;
        CREATE VIEW view_0 AS WITH cte_1 AS ( SELECT DISTINCT * FROM table_0, table_3, table_2 ) SELECT DISTINCT * FROM table_1, table_4, table_0 ;;
        ";

    let ast = generate_ast(query).unwrap();
    println!("{:#?}", ast);
    let cleaned = remove_table_in_place("table_1", ast);
    println!("{:#?}", vec_statement_to_string(&cleaned, ";"));
    println!("{:?}", cleaned.len());

    assert_eq!(2, cleaned.len())
}

#[test]
fn test_create_q3() {
    let inputs = vec![
        "CREATE TABLE  table_0 (table_0_c0 TEXT, table_0_c1 REAL ) ;",
        "CREATE TABLE IF NOT EXISTS table_1  (table_1_c0 REAL ) ;",
        "CREATE TABLE  table_2  (table_2_c0 UNSIGNED BIG INT, table_2_c1 BIGINT, table_2_c2 BIGINT ) ;",
        "CREATE TABLE IF NOT EXISTS table_3 (table_3_c0 UNSIGNED BIG INT, table_3_c1 DATETIME ) ;",
        "CREATE TABLE  table_4  (table_4_c0 INT, table_4_c1 BOOLEAN, table_4_c2 INT ) ;",
    ];

    let parsed: Vec<_> = inputs
        .iter()
        .map(|s| parse_create_table(s).expect("should parse CREATE TABLE"))
        .collect();

    for stmt in parsed {
        match stmt.kind {
            StatementKind::CreateTable {
                ref name,
                ref columns,
            } => {
                println!("Table: {}", name);
                for col in columns {
                    println!("  · {}  → {}", col.name, col.table.as_deref().unwrap_or(""));
                }
                println!("  (original SQL: {})\n", stmt.original);
            }
            _ => (),
        }
    }
}

#[test]
fn insert_test_q3() {
    let inputs = vec![
        "INSERT INTO table_0 (table_0_c0, table_0_c1) VALUES ('bob', -0.0) ;",
        "INSERT INTO table_4 (table_4_c0, table_4_c1, table_4_c2) VALUES (FALSE, TRUE, 4) ;",
        "INSERT OR REPLACE INTO table_1 (table_1_c0) VALUES (2.0) ;",
        "INSERT INTO table_0 (table_0_c0, table_0_c1) VALUES (NULL, 2.0) ;",
        "INSERT OR IGNORE INTO table_0 (table_0_c0, table_0_c1) VALUES ('switzerland', 1.5) ;",
        "INSERT INTO table_4 (table_4_c0, table_4_c1, table_4_c2) VALUES (1, FALSE, -2) ;",
        "INSERT INTO table_2 (table_2_c0, table_2_c1, table_2_c2) VALUES (FALSE, -1, 1) ;",
        "INSERT OR REPLACE INTO table_3 (table_3_c0, table_3_c1) VALUES (1, NULL) ;",
        "INSERT OR REPLACE INTO table_4 (table_4_c0, table_4_c1, table_4_c2) VALUES (NULL, NULL, 4) ;",
        "INSERT INTO table_2 (table_2_c0, table_2_c1, table_2_c2) VALUES (-2, 2, -0) ;",
        "INSERT INTO table_3 (table_3_c0, table_3_c1) VALUES (-1, NULL) ;",
        "INSERT OR IGNORE INTO table_0 (table_0_c0, table_0_c1) VALUES ('alice', -1.5) ;",
    ];

    let parsed: Vec<_> = inputs
        .iter()
        .map(|s| parse_insert_statement(s).expect("should parse INSERT"))
        .collect();

    for stmt in parsed {
        if let StatementKind::Insert {
            ref table,
            ref columns,
            ref values,
        } = stmt.kind
        {
            println!("Table: {}", table);
            for (col, val) in columns.iter().zip(values[0].iter()) {
                println!("  · {} → {}", col, val);
            }
            println!("  (original SQL: {})\n", stmt.original);
        }
    }
}

#[test]
fn test_create_table_parsing() {
    let sql = "CREATE TABLE test_table (col1 TEXT, col2 INTEGER)";
    let stmt = parse_create_table(sql).unwrap();
    if let StatementKind::CreateTable { name, columns } = stmt.kind {
        assert_eq!(name, "test_table");
        assert_eq!(columns.len(), 2);
        assert_eq!(columns[0].name, "col1");
        assert_eq!(columns[1].name, "col2");
    } else {
        panic!("Expected CreateTable variant");
    }
}

#[test]
fn test_insert_parsing() {
    let sql = "INSERT INTO test_table (col1, col2) VALUES ('value1', 42), ('value2', 43)";
    let stmt = parse_insert_statement(sql).unwrap();
    if let StatementKind::Insert {
        table,
        columns,
        values,
    } = stmt.kind
    {
        assert_eq!(table, "test_table");
        assert_eq!(columns, vec!["col1", "col2"]);
        assert_eq!(values.len(), 2);
        assert_eq!(values[0], vec!["'value1'", "42"]);
        assert_eq!(values[1], vec!["'value2'", "43"]);
    } else {
        panic!("Expected Insert variant");
    }
}

#[test]
fn test_select_parsing() {
    let sql = "SELECT col1, col2 FROM test_table WHERE col1 = 'value'";
    let stmt = parse_select_statement(sql).unwrap();
    if let StatementKind::Select {
        columns,
        tables,
        conditions,
        ..
    } = stmt.kind
    {
        assert_eq!(columns.len(), 2);
        assert_eq!(tables, vec!["test_table"]);
        assert_eq!(conditions.len(), 1);
    } else {
        panic!("Expected Select variant");
    }
}

//! The statement patterns matched against concrete statements, capture by
//! capture.

use minisql::parser::patterns::{
    capture_command, capture_create_index, capture_create_named_index, capture_create_table,
    capture_delete, capture_drop, capture_insert, capture_select, lowercase_unquoted,
};

fn strings(words: &[&str]) -> Vec<String> {
    words.iter().map(|w| w.to_string()).collect()
}

#[test]
fn test_select() {
    assert_eq!(
        capture_select("select a, 'b' from c where d=2"),
        Some(strings(&["select", "a", "'b'", "from", "c", "where", "d", "=", "2"]))
    );
}

#[test]
fn patterns_test_select() {
    test_select();
}

#[test]
fn test_select_wildcard() {
    assert_eq!(
        capture_select("select * from c"),
        Some(strings(&["select", "*", "from", "c"]))
    );
}

#[test]
fn test_create_table() {
    assert_eq!(
        capture_create_table("create table t ( id int primary key, \"name\" text )"),
        Some(strings(&["create", "table", "t", "id", "int primary key", "\"name\"", "text"]))
    );
}

#[test]
fn patterns_test_create_table() {
    test_create_table();
}

#[test]
fn test_create_index() {
    assert_eq!(
        capture_create_index("create index on t (a, b)"),
        Some(strings(&["create", "index", "on", "t", "a", "b"]))
    );
}

#[test]
fn patterns_test_create_index() {
    assert_eq!(
        capture_create_named_index("create index ab_ix on t (a, b)"),
        Some(strings(&["create", "index", "ab_ix", "on", "t", "a", "b"]))
    );
}

#[test]
fn test_create_named_index() {
    assert_eq!(
        capture_create_named_index("create index ab_ix on t (a, b)"),
        Some(strings(&["create", "index", "ab_ix", "on", "t", "a", "b"]))
    );
}

#[test]
fn test_insert() {
    assert_eq!(
        capture_insert("insert into t values (NULL, 3)"),
        Some(strings(&["insert", "into", "t", "values", "NULL", "3"]))
    );
}

#[test]
fn test_delete() {
    assert_eq!(
        capture_delete("delete from t where id=3"),
        Some(strings(&["delete", "from", "t", "where", "id", "=", "3"]))
    );
}

#[test]
fn test_drop_table() {
    assert_eq!(
        capture_drop("drop table my_table"),
        Some(strings(&["drop", "table", "my_table"]))
    );
}

#[test]
fn patterns_test_drop_table() {
    test_drop_table();
}

#[test]
fn capture_command_tries_patterns_in_order() {
    assert_eq!(
        capture_command("DROP TABLE t;"),
        strings(&["DROP", "TABLE", "t"])
    );
    assert_eq!(capture_command("this is no statement"), Vec::<String>::new());
    assert_eq!(capture_command("select from"), Vec::<String>::new());
}

#[test]
fn keywords_match_in_any_case() {
    assert_eq!(
        capture_select("SeLeCt * FROM c"),
        Some(strings(&["SeLeCt", "*", "FROM", "c"]))
    );
}

#[test]
fn lowercase_keeps_quoted_text() {
    assert_eq!(
        lowercase_unquoted("SELECT Name FROM T WHERE x = 'John Smith'"),
        "select name from t where x = 'John Smith'"
    );
    assert_eq!(lowercase_unquoted("A \"Quoted\" B"), "a \"Quoted\" b");
    assert_eq!(lowercase_unquoted("A \\Q B"), "a \\q b");
}

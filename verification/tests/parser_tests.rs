//! Statements read into typed commands, and the errors the parser raises.

use minisql::database::{Attribute, AttributeType, Database, DatabaseResponse};
use minisql::error::UserError;
use minisql::parser::{get_command, Command};
use minisql::parser::utils::{parse_comparison_term, parse_i64, parse_string, CmpTerm};
use minisql::value::{Comparison, DataAttribute, DataAttributes};

fn people_db() -> Database {
    let mut db = Database::new();
    let attributes = vec![
        Attribute { name: "id".to_string(), attribute_type: AttributeType::Id },
        Attribute { name: "name".to_string(), attribute_type: AttributeType::String },
        Attribute { name: "age".to_string(), attribute_type: AttributeType::Number },
        Attribute { name: "data".to_string(), attribute_type: AttributeType::Data },
    ];
    db.create_table("people", attributes).unwrap();
    db
}

#[test]
fn parse_command() {
    let db = Database::new();
    let command = get_command("create table x ( a int, b int primary key )", &db).unwrap();
    let expected = Command::Create {
        name: "x".to_string(),
        attributes: vec![
            Attribute { name: "a".to_string(), attribute_type: AttributeType::Number },
            Attribute { name: "b".to_string(), attribute_type: AttributeType::Id },
        ],
    };
    assert!(command == expected);
}

#[test]
fn parse_insert_with_null_id() {
    let db = people_db();
    let command = get_command(
        "INSERT INTO people VALUES (NULL, 'John Smith', 32, NULL)",
        &db,
    )
    .unwrap();
    let expected = Command::Insert {
        table_name: "people".to_string(),
        data: DataAttributes {
            attributes: vec![
                DataAttribute::NullId,
                DataAttribute::String("John Smith".to_string()),
                DataAttribute::Number(32),
                DataAttribute::Data(vec![]),
            ],
        },
    };
    assert!(command == expected);
}

#[test]
fn parse_select_star_resolves_all_columns() {
    let db = people_db();
    let command = get_command("select * from people where id = 0", &db).unwrap();
    let expected = Command::Select {
        table_name: "people".to_string(),
        attr_pos: 0,
        comparison: Comparison::Equal(DataAttribute::Id(0)),
        selected: vec![0, 1, 2, 3],
    };
    assert!(command == expected);
}

#[test]
fn parse_select_without_where_matches_all() {
    let db = people_db();
    let command = get_command("select name, age from people", &db).unwrap();
    let expected = Command::Select {
        table_name: "people".to_string(),
        attr_pos: 0,
        comparison: Comparison::All,
        selected: vec![1, 2],
    };
    assert!(command == expected);
}

#[test]
fn parse_delete_flips_mirrored_comparison() {
    let db = people_db();
    let command = get_command("delete from people where 18 < age", &db).unwrap();
    let expected = Command::Delete {
        table_name: "people".to_string(),
        attr_pos: 2,
        comparison: Comparison::Higher(DataAttribute::Number(18)),
    };
    assert!(command == expected);
}

#[test]
fn parse_wires_every_comparator() {
    let db = people_db();
    for (stmt, comparison) in [
        ("delete from people where age >= 3", Comparison::HigherOrEqual(DataAttribute::Number(3))),
        ("delete from people where age <= 3", Comparison::LowerOrEqual(DataAttribute::Number(3))),
        ("delete from people where age != 3", Comparison::NotEqual(DataAttribute::Number(3))),
        ("delete from people where age <> 3", Comparison::NotEqual(DataAttribute::Number(3))),
        ("delete from people where age < 3", Comparison::Lower(DataAttribute::Number(3))),
    ] {
        let command = get_command(stmt, &db).unwrap();
        let expected = Command::Delete {
            table_name: "people".to_string(),
            attr_pos: 2,
            comparison,
        };
        assert!(command == expected);
    }
}

#[test]
fn parse_create_index_is_accepted() {
    let db = people_db();
    let command = get_command("create index on people (name, age)", &db).unwrap();
    let expected = Command::CreateIndex {
        name: None,
        table_name: "people".to_string(),
        columns: vec!["name".to_string(), "age".to_string()],
    };
    assert!(command == expected);
    let command = get_command("create index by_name on people (name)", &db).unwrap();
    let expected = Command::CreateIndex {
        name: Some("by_name".to_string()),
        table_name: "people".to_string(),
        columns: vec!["name".to_string()],
    };
    assert!(command == expected);
}

#[test]
fn parse_errors() {
    let db = people_db();
    assert_eq!(get_command("", &db).unwrap_err(), UserError::SyntaxError);
    assert_eq!(get_command("nonsense !", &db).unwrap_err(), UserError::SyntaxError);
    assert_eq!(
        get_command("select * from missing", &db).unwrap_err(),
        UserError::Other("No such table")
    );
    assert_eq!(
        get_command("select nope from people", &db).unwrap_err(),
        UserError::Other("Column not found")
    );
    assert_eq!(
        get_command("insert into people values (NULL, 'a', 1, NULL, 5)", &db).unwrap_err(),
        UserError::Other("Too many values")
    );
    assert_eq!(
        get_command("delete from people where id = 'text'", &db).unwrap_err(),
        UserError::Other("Only integers supported for primary keys")
    );
    assert_eq!(
        get_command("delete from people where name = age", &db).unwrap_err(),
        UserError::Other("Only single column against literal comparisons supported")
    );
    assert_eq!(
        get_command(
            "create table t ( a text primary key )",
            &Database::new(),
        )
        .unwrap_err(),
        UserError::Other("Only integers supported for primary keys")
    );
}

#[test]
fn statements_agree_up_to_whitespace_and_case() {
    let db = people_db();
    let a = get_command("select name , age from people  where age = 3 ;", &db).unwrap();
    let b = get_command("SELECT name,age FROM people WHERE age=3", &db).unwrap();
    assert!(a == b);
}

#[test]
fn parse_i64_reads_signed_decimals() {
    assert_eq!(parse_i64("0").unwrap(), 0);
    assert_eq!(parse_i64("00421").unwrap(), 421);
    assert_eq!(parse_i64("-17").unwrap(), -17);
    assert_eq!(parse_i64("+17").unwrap(), 17);
    assert_eq!(parse_i64("9223372036854775807").unwrap(), i64::MAX);
    assert_eq!(parse_i64("-9223372036854775808").unwrap(), i64::MIN);
    assert!(parse_i64("9223372036854775808").is_err());
    assert!(parse_i64("").is_err());
    assert!(parse_i64("12a").is_err());
}

#[test]
fn parse_string_strips_quotes() {
    assert_eq!(parse_string("'ab'").unwrap(), "ab");
    assert_eq!(parse_string("\"ab\"").unwrap(), "ab");
    assert!(parse_string("ab").is_err());
    assert!(parse_string("'ab\"").is_err());
}

#[test]
fn parse_comparison_term_kinds() {
    assert_eq!(
        parse_comparison_term("'x'"),
        CmpTerm::Val(DataAttribute::String("x".to_string()))
    );
    assert_eq!(parse_comparison_term("\"x\""), CmpTerm::Ident("x".to_string()));
    assert_eq!(parse_comparison_term("12"), CmpTerm::Val(DataAttribute::Number(12)));
    assert_eq!(parse_comparison_term("age"), CmpTerm::Ident("age".to_string()));
}

#[test]
fn create_insert_select_by_id() {
    let mut db = Database::new();
    let create = get_command(
        "CREATE TABLE people (id INT PRIMARY KEY, name TEXT, age INT, data BLOB)",
        &db,
    )
    .unwrap();
    assert_eq!(db.execute_command(create).unwrap(), DatabaseResponse::Nothing);
    let insert = get_command("INSERT INTO people VALUES (NULL, 'John Smith', 32, NULL)", &db)
        .unwrap();
    assert_eq!(db.execute_command(insert).unwrap(), DatabaseResponse::Id(0));
    let select = get_command("SELECT * FROM people WHERE id = 0", &db).unwrap();
    let res = db.execute_command(select).unwrap();
    let expected = DatabaseResponse::Data(vec![DataAttributes {
        attributes: vec![
            DataAttribute::Id(0),
            DataAttribute::String("John Smith".to_string()),
            DataAttribute::Number(32),
            DataAttribute::Data(vec![]),
        ],
    }]);
    assert_eq!(res, expected);
}

#[test]
fn delete_by_non_id_column() {
    let mut db = Database::new();
    let create = get_command(
        "CREATE TABLE people (id INT PRIMARY KEY, name TEXT, age INT, data BLOB)",
        &db,
    )
    .unwrap();
    db.execute_command(create).unwrap();
    let insert = get_command("INSERT INTO people VALUES (NULL, 'John Smith', 32, NULL)", &db)
        .unwrap();
    db.execute_command(insert).unwrap();
    let delete = get_command("DELETE FROM people WHERE name = 'John Smith'", &db).unwrap();
    assert_eq!(db.execute_command(delete).unwrap(), DatabaseResponse::Nothing);
    let by_id = get_command("SELECT * FROM people WHERE id = 0", &db).unwrap();
    assert_eq!(db.execute_command(by_id).unwrap(), DatabaseResponse::Data(vec![]));
    let all = get_command("SELECT * FROM people", &db).unwrap();
    assert_eq!(db.execute_command(all).unwrap(), DatabaseResponse::Data(vec![]));
}

#[test]
fn empty_string_matches_itself_through_sql() {
    let mut db = Database::new();
    let create = get_command(
        "CREATE TABLE people (id INT PRIMARY KEY, name TEXT, age INT, data BLOB)",
        &db,
    )
    .unwrap();
    db.execute_command(create).unwrap();
    let insert = get_command("INSERT INTO people VALUES (NULL, '', 123, NULL)", &db).unwrap();
    db.execute_command(insert).unwrap();
    let select = get_command("SELECT name, age, data FROM people WHERE name = ''", &db).unwrap();
    let res = db.execute_command(select).unwrap();
    let expected = DatabaseResponse::Data(vec![DataAttributes {
        attributes: vec![
            DataAttribute::String("".to_string()),
            DataAttribute::Number(123),
            DataAttribute::Data(vec![]),
        ],
    }]);
    assert_eq!(res, expected);
}

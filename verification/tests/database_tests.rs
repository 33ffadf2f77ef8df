//! The facade exercised end to end: create, insert, select, delete.

use minisql::database::{Attribute, AttributeType, Database, DatabaseResponse};
use minisql::value::{Comparison, DataAttribute, DataAttributes};

fn fill_db() -> Database {
    let mut db = Database::new();
    let mut attributes = vec![];
    attributes.push(Attribute { name: "id".to_string(), attribute_type: AttributeType::Id });
    attributes.push(Attribute { name: "name".to_string(), attribute_type: AttributeType::String });
    attributes.push(Attribute { name: "age".to_string(), attribute_type: AttributeType::Number });
    attributes.push(Attribute {
        name: "lotto_numbers".to_string(),
        attribute_type: AttributeType::Data,
    });
    assert!(db.create_table("people", attributes).is_ok());
    let mut add_data = DataAttributes { attributes: vec![] };
    add_data.attributes.push(DataAttribute::NullId);
    add_data.attributes.push(DataAttribute::String("John Smith".to_string()));
    add_data.attributes.push(DataAttribute::Number(32));
    add_data.attributes.push(DataAttribute::Data(vec![1, 2, 3]));
    assert!(db.insert("people", add_data).is_ok());
    db
}

#[test]
fn fill_db_test() {
    fill_db();
}

#[test]
fn database_fill_db_test() {
    fill_db();
}

#[test]
fn delete_data() {
    let mut db = fill_db();
    let attribute = DataAttribute::String("John Smith".to_string());
    assert!(db.delete("people", 1, &Comparison::Equal(attribute)).is_ok());
    let attribute = DataAttribute::Id(0);
    let selected = vec![0];
    let res = db.select("people", 0, &Comparison::Equal(attribute), selected);
    assert!(res.is_ok());
    let res = res.unwrap();
    let expected_res = DatabaseResponse::Data(vec![]);
    assert_eq!(res, expected_res);
}

#[test]
fn database_delete_data() {
    delete_data_body();
}

fn delete_data_body() {
    let mut db = fill_db();
    let attribute = DataAttribute::String("John Smith".to_string());
    assert!(db.delete("people", 1, &Comparison::Equal(attribute)).is_ok());
    let attribute = DataAttribute::Id(0);
    let selected = vec![0];
    let res = db.select("people", 0, &Comparison::Equal(attribute), selected);
    assert!(res.is_ok());
    let res = res.unwrap();
    let expected_res = DatabaseResponse::Data(vec![]);
    assert_eq!(res, expected_res);
}

#[test]
fn get_id() {
    let db = fill_db();
    let attribute = DataAttribute::Id(0);
    let selected = vec![0, 1, 2, 3];
    let res = db.select("people", 0, &Comparison::Equal(attribute), selected);
    assert!(res.is_ok());
    let res = res.unwrap();
    let mut attrs = vec![];
    attrs.push(DataAttribute::Id(0));
    attrs.push(DataAttribute::String("John Smith".to_string()));
    attrs.push(DataAttribute::Number(32));
    attrs.push(DataAttribute::Data(vec![1, 2, 3]));
    let attrs = DataAttributes { attributes: attrs };
    let db_response = DatabaseResponse::Data(vec![attrs]);
    assert_eq!(res, db_response);
}

#[test]
fn database_get_id() {
    get_id_body();
}

fn get_id_body() {
    let db = fill_db();
    let attribute = DataAttribute::Id(0);
    let selected = vec![0, 1, 2, 3];
    let res = db.select("people", 0, &Comparison::Equal(attribute), selected);
    assert!(res.is_ok());
}

#[test]
fn get_all() {
    let db = fill_db();
    let selected = vec![1, 2, 3];
    let res = db.select("people", 0, &Comparison::All, selected);
    assert!(res.is_ok());
    let res = res.unwrap();
    if let DatabaseResponse::Data(data) = res {
        assert_eq!(data.len(), 1);
        assert_eq!(data[0].attributes.len(), 3);
    } else {
        panic!();
    }
}

#[test]
fn database_get_all() {
    get_all();
}

#[test]
fn empty_string() {
    let mut db = fill_db();
    let mut add_data = DataAttributes { attributes: vec![] };
    add_data.attributes.push(DataAttribute::NullId);
    add_data.attributes.push(DataAttribute::String("".to_string()));
    add_data.attributes.push(DataAttribute::Number(123));
    add_data.attributes.push(DataAttribute::Data(vec![9, 2, 1]));
    assert!(db.insert("people", add_data).is_ok());
    let selected = vec![1, 2, 3];
    let empty_data_string = DataAttribute::String("".to_string());
    let res = db
        .select("people", 1, &Comparison::Equal(empty_data_string), selected)
        .expect("Select by empty string failed");
    if let DatabaseResponse::Data(data) = res {
        let empty_person = &data[0].attributes;
        assert_eq!(empty_person[0], DataAttribute::String("".to_string()));
        assert_eq!(empty_person[1], DataAttribute::Number(123));
        assert_eq!(empty_person[2], DataAttribute::Data(vec![9, 2, 1]));
    }
}

#[test]
fn insert_ids_count_up_from_zero() {
    let mut db = fill_db();
    for expected in 1..50i64 {
        let mut row = DataAttributes { attributes: vec![] };
        row.attributes.push(DataAttribute::NullId);
        row.attributes.push(DataAttribute::String(format!("p{}", expected)));
        row.attributes.push(DataAttribute::Number(expected));
        row.attributes.push(DataAttribute::Data(vec![]));
        let res = db.insert("people", row).unwrap();
        assert_eq!(res, DatabaseResponse::Id(expected));
    }
}

#[test]
fn delete_by_id_leaves_others() {
    let mut db = fill_db();
    let mut row = DataAttributes { attributes: vec![] };
    row.attributes.push(DataAttribute::NullId);
    row.attributes.push(DataAttribute::String("Jane".to_string()));
    row.attributes.push(DataAttribute::Number(4));
    row.attributes.push(DataAttribute::Data(vec![7]));
    assert_eq!(db.insert("people", row).unwrap(), DatabaseResponse::Id(1));
    assert!(db.delete("people", 0, &Comparison::Equal(DataAttribute::Id(0))).is_ok());
    let gone = db.select("people", 0, &Comparison::Equal(DataAttribute::Id(0)), vec![0]).unwrap();
    assert_eq!(gone, DatabaseResponse::Data(vec![]));
    let kept = db.select("people", 0, &Comparison::Equal(DataAttribute::Id(1)), vec![1]).unwrap();
    assert_eq!(
        kept,
        DatabaseResponse::Data(vec![DataAttributes {
            attributes: vec![DataAttribute::String("Jane".to_string())]
        }])
    );
}

#[test]
fn range_comparisons() {
    let mut db = fill_db();
    for age in [40i64, 50, 60] {
        let mut row = DataAttributes { attributes: vec![] };
        row.attributes.push(DataAttribute::NullId);
        row.attributes.push(DataAttribute::String("x".to_string()));
        row.attributes.push(DataAttribute::Number(age));
        row.attributes.push(DataAttribute::Data(vec![]));
        db.insert("people", row).unwrap();
    }
    let over = db
        .select("people", 2, &Comparison::Higher(DataAttribute::Number(40)), vec![2])
        .unwrap();
    if let DatabaseResponse::Data(rows) = over {
        assert_eq!(rows.len(), 2);
    } else {
        panic!();
    }
    let at_least = db
        .select("people", 2, &Comparison::HigherOrEqual(DataAttribute::Number(40)), vec![2])
        .unwrap();
    if let DatabaseResponse::Data(rows) = at_least {
        assert_eq!(rows.len(), 3);
    } else {
        panic!();
    }
    let not_forty = db
        .select("people", 2, &Comparison::NotEqual(DataAttribute::Number(40)), vec![2])
        .unwrap();
    if let DatabaseResponse::Data(rows) = not_forty {
        assert_eq!(rows.len(), 3);
    } else {
        panic!();
    }
}

#[test]
fn tables_and_columns() {
    let db = fill_db();
    let names = db.tables().unwrap();
    assert_eq!(names, DatabaseResponse::Names(vec!["people".to_string()]));
    let cols = db.table_attributes("people").unwrap();
    assert_eq!(
        cols,
        DatabaseResponse::Names(vec![
            "id".to_string(),
            "name".to_string(),
            "age".to_string(),
            "lotto_numbers".to_string()
        ])
    );
    assert!(db.table_attributes("nobody").is_err());
}

#[test]
fn drop_table_is_quiet_when_absent() {
    let mut db = fill_db();
    assert_eq!(db.drop_table("people").unwrap(), DatabaseResponse::Nothing);
    assert!(db.insert("people", DataAttributes { attributes: vec![] }).is_err());
    assert_eq!(db.drop_table("people").unwrap(), DatabaseResponse::Nothing);
}

#[test]
fn create_twice_fails() {
    let mut db = fill_db();
    let attrs = vec![Attribute { name: "id".to_string(), attribute_type: AttributeType::Id }];
    assert!(db.create_table("people", attrs).is_err());
}

#[test]
fn mixed_operations_keep_lookups_consistent() {
    // A deterministic mix of inserts, deletes and lookups, checked against
    // a shadow map kept by the test.
    let mut db = fill_db();
    let mut known: Vec<(i64, i64)> = vec![(0, 32)];
    let mut seed: u64 = 1;
    for step in 0..2000u64 {
        seed = seed.wrapping_mul(6364136223846793005).wrapping_add(1442695040888963407);
        let choice = seed % 10;
        if choice < 2 {
            let age = (seed % 1000) as i64;
            let mut row = DataAttributes { attributes: vec![] };
            row.attributes.push(DataAttribute::NullId);
            row.attributes.push(DataAttribute::String(format!("s{}", step)));
            row.attributes.push(DataAttribute::Number(age));
            row.attributes.push(DataAttribute::Data(vec![(seed % 256) as u8]));
            let res = db.insert("people", row).unwrap();
            if let DatabaseResponse::Id(id) = res {
                known.push((id, age));
            } else {
                panic!();
            }
        } else if choice == 2 && !known.is_empty() {
            let ix = (seed as usize / 16) % known.len();
            let (id, _) = known.remove(ix);
            db.delete("people", 0, &Comparison::Equal(DataAttribute::Id(id))).unwrap();
        } else if !known.is_empty() {
            let ix = (seed as usize / 16) % known.len();
            let (id, age) = known[ix];
            let res = db
                .select("people", 0, &Comparison::Equal(DataAttribute::Id(id)), vec![0, 2])
                .unwrap();
            let expected = DatabaseResponse::Data(vec![DataAttributes {
                attributes: vec![DataAttribute::Id(id), DataAttribute::Number(age)],
            }]);
            assert_eq!(res, expected);
        }
    }
}

#[test]
fn explicit_id_values_are_engine_assigned() {
    let mut db = fill_db();
    let mut row = DataAttributes { attributes: vec![] };
    row.attributes.push(DataAttribute::Id(7));
    row.attributes.push(DataAttribute::String("Eve".to_string()));
    row.attributes.push(DataAttribute::Number(5));
    row.attributes.push(DataAttribute::Data(vec![]));
    assert_eq!(db.insert("people", row).unwrap(), DatabaseResponse::Id(1));
    let by_given = db
        .select("people", 0, &Comparison::Equal(DataAttribute::Id(7)), vec![0])
        .unwrap();
    assert_eq!(by_given, DatabaseResponse::Data(vec![]));
    let by_assigned = db
        .select("people", 0, &Comparison::Equal(DataAttribute::Id(1)), vec![0, 1])
        .unwrap();
    assert_eq!(
        by_assigned,
        DatabaseResponse::Data(vec![DataAttributes {
            attributes: vec![
                DataAttribute::Id(1),
                DataAttribute::String("Eve".to_string())
            ]
        }])
    );
}

//! The spill page, the budget check, the request envelope, and the error
//! messages.

use minisql::client::{Command, CommandType};
use minisql::database::{Attribute, AttributeType, Database, DatabaseResponse};
use minisql::error::{DatabaseError, ParseError, UserError};
use minisql::out_of_memory;
use minisql::shard::{DataAbstraction, ReleaseAction};
use minisql::stream_processor::{RequestError, StreamProcessor};
use minisql::table::ShardRelease;
use minisql::value::{Comparison, DataAttribute, DataAttributes};

#[test]
fn ci_test() {
    assert_eq!(2, 1 + 1);
}

#[test]
fn main_ci_test() {
    assert_eq!(2, 1 + 1);
}

fn sample_row(n: i64) -> DataAttributes {
    DataAttributes {
        attributes: vec![
            DataAttribute::Id(n),
            DataAttribute::String(format!("row {}", n)),
            DataAttribute::Number(-n),
            DataAttribute::Data(vec![1, 2, 3]),
            DataAttribute::NullId,
            DataAttribute::Null,
        ],
    }
}

#[test]
fn spill_and_reload_round_trip() {
    let mut page = DataAbstraction::new();
    page.add(3, sample_row(3));
    page.add(7, sample_row(7));
    page.add(300, sample_row(300));
    let expect_one = page.get_by_id(7, &vec![1]);
    assert!(page.in_memory());
    let bytes = page.save_on_disk("tabledata_0".to_string());
    assert!(!page.in_memory());
    assert!(page.get_by_id(7, &vec![1]).is_empty());
    assert!(page.load_from_disk(&bytes, 6).is_ok());
    assert_eq!(page.get_by_id(7, &vec![1]), expect_one);
    assert_eq!(
        page.get_by_id(300, &vec![0, 2]),
        vec![DataAttributes {
            attributes: vec![DataAttribute::Id(300), DataAttribute::Number(-300)]
        }]
    );
    assert!(!page.in_memory());
    assert_eq!(page.clear_from_disk(), Some("tabledata_0".to_string()));
    assert!(page.in_memory());
}

#[test]
fn load_refuses_garbage() {
    let mut page = DataAbstraction::new();
    assert!(page.load_from_disk(&vec![1, 2, 3], 6).is_err());
    page.add(1, sample_row(1));
    let bytes = page.save_on_disk("tabledata_1".to_string());
    // wrong width is refused too
    let mut other = DataAbstraction::new();
    assert!(other.load_from_disk(&bytes, 2).is_err());
    assert!(other.load_from_disk(&bytes, 6).is_ok());
}

#[test]
fn release_policy() {
    let mut page = DataAbstraction::new();
    assert_eq!(page.release_action(true), ReleaseAction::SaveOnDisk);
    assert_eq!(page.release_action(false), ReleaseAction::Keep);
    page.save_on_disk("tabledata_2".to_string());
    assert_eq!(page.release_action(false), ReleaseAction::ClearFromDisk);
    assert_eq!(page.release_action(true), ReleaseAction::SaveOnDisk);
}

#[test]
fn budget_check() {
    assert!(out_of_memory(16_000_001, 16_000_000));
    assert!(!out_of_memory(16_000_000, 16_000_000));
    assert!(!out_of_memory(0, 16_000_000));
}

#[test]
fn error_messages() {
    assert_eq!(DatabaseError::TableExists.message(), "Table Already Exists");
    assert_eq!(DatabaseError::DataConflict.message(), "Data Conflict");
    assert_eq!(DatabaseError::TableDoesNotExist.message(), "Table Does Not Exist");
    assert_eq!(DatabaseError::NoDataFound.message(), "No Data Found");
    assert_eq!(UserError::SyntaxError.message(), "SyntaxError");
    assert_eq!(UserError::Other("No such table").message(), "No such table");
    assert_eq!(ParseError::SyntaxError.message(), "SyntaxError");
}

#[test]
fn envelope_holds_its_parts() {
    let c = Command::create_command_from("select * from t".to_string(), CommandType::Query);
    assert_eq!(c.cmd, CommandType::Query);
    assert_eq!(c.contents, "select * from t");
}

#[test]
fn process_str_runs_statements() {
    let mut sp = StreamProcessor::new();
    sp.process_str("create table t ( id int primary key, name text )").unwrap();
    let res = sp.process_str("insert into t values (NULL, 'a')").unwrap();
    assert_eq!(format!("{:?}", res), "Id(0)");
    let err = sp.process_str("insert into missing values (1)").unwrap_err();
    assert_eq!(err, RequestError::User(minisql::error::UserError::Other("No such table")));
    let err = sp.process_str("gibberish").unwrap_err();
    assert_eq!(err, RequestError::User(minisql::error::UserError::SyntaxError));
    // an index creation parses and does nothing
    let res = sp.process_str("create index on t (name)").unwrap();
    assert_eq!(format!("{:?}", res), "Nothing");
}

#[test]
fn facade_spill_and_reload() {
    let mut db = Database::new();
    let attributes = vec![
        Attribute { name: "id".to_string(), attribute_type: AttributeType::Id },
        Attribute { name: "age".to_string(), attribute_type: AttributeType::Number },
    ];
    db.create_table("people", attributes).unwrap();
    for age in [10i64, 11, 12] {
        let row = DataAttributes {
            attributes: vec![DataAttribute::NullId, DataAttribute::Number(age)],
        };
        db.insert("people", row).unwrap();
    }
    let files = db.table_filenames("people").unwrap();
    assert!(files.iter().all(|f| f.is_none()));

    // over budget: the shard of id 0 leaves memory as bytes for its file
    let bytes = match db.release_shard("people", 0, true, "tabledata_a".to_string()) {
        Some(ShardRelease::SpillFile(name, bytes)) => {
            assert_eq!(name, "tabledata_a");
            bytes
        }
        other => panic!("expected a spill, got {:?}", other),
    };
    let row0 = |db: &Database| {
        db.select("people", 0, &Comparison::Equal(DataAttribute::Id(0)), vec![0, 1]).unwrap()
    };
    assert_eq!(row0(&db), DatabaseResponse::Data(vec![]));
    assert_eq!(
        db.table_filenames("people").unwrap()[0],
        Some("tabledata_a".to_string())
    );

    // reload restores exactly the spilled rows
    db.load_shard("people", 0, &bytes).unwrap();
    assert_eq!(
        row0(&db),
        DatabaseResponse::Data(vec![DataAttributes {
            attributes: vec![DataAttribute::Id(0), DataAttribute::Number(10)]
        }])
    );

    // under budget: the stale file is handed back for deletion, once
    match db.release_shard("people", 0, false, "tabledata_b".to_string()) {
        Some(ShardRelease::DeleteFile(name)) => assert_eq!(name, "tabledata_a"),
        other => panic!("expected a deletion, got {:?}", other),
    }
    assert!(matches!(
        db.release_shard("people", 0, false, "tabledata_c".to_string()),
        Some(ShardRelease::Keep)
    ));

    // bytes that spell no shard of this table are refused
    assert!(db.load_shard("people", 1, &vec![9, 9, 9]).is_err());
    assert_eq!(
        db.select("people", 0, &Comparison::Equal(DataAttribute::Id(1)), vec![1]).unwrap(),
        DatabaseResponse::Data(vec![DataAttributes {
            attributes: vec![DataAttribute::Number(11)]
        }])
    );

    // absent tables have no shards and no counter
    assert!(db.release_shard("missing", 0, true, "x".to_string()).is_none());
    assert!(db.load_shard("missing", 0, &bytes).is_err());
    assert!(db.table_filenames("missing").is_none());
    assert_eq!(db.table_counter("people"), Some(3));
    assert_eq!(db.table_counter("missing"), None);
}

#[test]
fn loaded_bytes_must_belong_to_the_shard() {
    let mut db = Database::new();
    let attributes = vec![
        Attribute { name: "id".to_string(), attribute_type: AttributeType::Id },
        Attribute { name: "age".to_string(), attribute_type: AttributeType::Number },
    ];
    db.create_table("people", attributes).unwrap();
    let row = DataAttributes {
        attributes: vec![DataAttribute::NullId, DataAttribute::Number(10)],
    };
    db.insert("people", row).unwrap();
    let bytes = match db.release_shard("people", 0, true, "tabledata_x".to_string()) {
        Some(ShardRelease::SpillFile(_, bytes)) => bytes,
        other => panic!("expected a spill, got {:?}", other),
    };
    // shard 1 may not hold shard 0's keys
    assert!(db.load_shard("people", 1, &bytes).is_err());
    assert!(db.load_shard("people", 0, &bytes).is_ok());
}

#[test]
fn pressure_cycles_keep_lookups_consistent() {
    // A deterministic mix of inserts, deletes and lookups, with every shard
    // spilled and reloaded between operations whenever "pressure" hits;
    // lookups are checked against a shadow map the test keeps.
    let mut db = Database::new();
    let attributes = vec![
        Attribute { name: "id".to_string(), attribute_type: AttributeType::Id },
        Attribute { name: "age".to_string(), attribute_type: AttributeType::Number },
    ];
    db.create_table("people", attributes).unwrap();

    let mut disk: std::collections::HashMap<String, Vec<u8>> = std::collections::HashMap::new();
    let mut fresh: usize = 0;
    let mut known: Vec<(i64, i64)> = Vec::new();
    let mut seed: u64 = 7;
    for step in 0..600u64 {
        // bring every evicted shard back, as the server does before each query
        if let Some(files) = db.table_filenames("people") {
            for (shard, file) in files.into_iter().enumerate() {
                if let Some(name) = file {
                    let bytes = disk.get(&name).expect("spill file lost");
                    db.load_shard("people", shard, bytes).unwrap();
                }
            }
        }
        seed = seed.wrapping_mul(6364136223846793005).wrapping_add(1442695040888963407);
        let choice = seed % 10;
        if choice < 2 {
            let age = (seed % 1000) as i64;
            let row = DataAttributes {
                attributes: vec![DataAttribute::NullId, DataAttribute::Number(age)],
            };
            if let DatabaseResponse::Id(id) = db.insert("people", row).unwrap() {
                known.push((id, age));
            } else {
                panic!();
            }
        } else if choice == 2 && !known.is_empty() {
            let ix = (seed as usize / 16) % known.len();
            let (id, _) = known.remove(ix);
            db.delete("people", 0, &Comparison::Equal(DataAttribute::Id(id))).unwrap();
        } else if !known.is_empty() {
            let ix = (seed as usize / 16) % known.len();
            let (id, age) = known[ix];
            let res = db
                .select("people", 0, &Comparison::Equal(DataAttribute::Id(id)), vec![0, 1])
                .unwrap();
            let expected = DatabaseResponse::Data(vec![DataAttributes {
                attributes: vec![DataAttribute::Id(id), DataAttribute::Number(age)],
            }]);
            assert_eq!(res, expected);
        }
        // run the release policy, over budget on every fifth step
        let over = step % 5 == 0;
        for shard in 0..256usize {
            fresh += 1;
            let name = format!("tabledata_{}", fresh);
            match db.release_shard("people", shard, over, name).unwrap() {
                ShardRelease::SpillFile(path, bytes) => {
                    disk.insert(path, bytes);
                }
                ShardRelease::DeleteFile(path) => {
                    disk.remove(&path);
                }
                ShardRelease::Keep => {}
            }
        }
    }
}

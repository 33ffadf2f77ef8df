//! Running parsed commands against the database, and serving the three
//! request kinds of the wire protocol.

use vstd::prelude::*;

use crate::database::{has_table, table_at, Database, DatabaseResponse, DbEntryV, RespV};
use crate::error::{DatabaseError, UserError};
use crate::parser::{command_valid, get_command, spec_get_command, Command, CommandV};
use crate::shard::{chunk_retain, find_row, remove_key};
use crate::table::{shard_count, table_select, TableV};
use crate::value::{project, AttrV, CompV};

verus! {

/// The table model after one insert; see `Database::insert` and
/// [`crate::laws::table_after_insert`].  Id-column slots are blanked
/// first: the engine assigns id values itself.
pub open spec fn insert_result(e: DbEntryV, data: Seq<AttrV>) -> DbEntryV {
    DbEntryV {
        table: crate::laws::table_after_insert(
            e.table,
            crate::database::normalize_id_slots(data, e.schema),
        ),
        ..e
    }
}

/// What running a command does to the database, and what it answers.
/// This is the model of the facade's operations, one arm per command.
pub open spec fn spec_execute(db: Seq<DbEntryV>, c: CommandV) -> (Seq<DbEntryV>, Result<
    RespV,
    DatabaseError,
>) {
    match c {
        CommandV::Create { name, attributes } => {
            if has_table(db, name) {
                (db, Err(DatabaseError::TableExists))
            } else {
                (
                    db.push(
                        DbEntryV {
                            name: name,
                            schema: attributes,
                            table: TableV {
                                shards: Seq::new(shard_count() as nat, |i: int| Seq::empty()),
                                counter: 0,
                                width: attributes.len() as int,
                            },
                        },
                    ),
                    Ok(RespV::Nothing),
                )
            }
        },
        CommandV::Insert { table_name, data } => {
            if !has_table(db, table_name) {
                (db, Err(DatabaseError::TableDoesNotExist))
            } else {
                let i = table_at(db, table_name);
                let e = db[i];
                (db.update(i, insert_result(e, data)), Ok(RespV::Id(e.table.counter)))
            }
        },
        CommandV::Delete { table_name, attr_pos, comparison } => {
            if !has_table(db, table_name) {
                (db, Err(DatabaseError::TableDoesNotExist))
            } else {
                let i = table_at(db, table_name);
                let e = db[i];
                let fast = e.schema[attr_pos as int].1 == crate::database::AttributeType::Id
                    && comparison matches CompV::Equal(_);
                let shards = if fast {
                    let k = match comparison {
                        CompV::Equal(AttrV::Id(k)) => k,
                        _ => 0,
                    };
                    let h = crate::table::hash_spec(k as i64);
                    e.table.shards.update(h, remove_key(e.table.shards[h], k))
                } else {
                    Seq::new(
                        shard_count() as nat,
                        |s: int| chunk_retain(e.table.shards[s], attr_pos as int, comparison),
                    )
                };
                (
                    db.update(
                        i,
                        DbEntryV {
                            table: TableV {
                                shards: shards,
                                counter: e.table.counter,
                                width: e.table.width,
                            },
                            ..e
                        },
                    ),
                    Ok(RespV::Nothing),
                )
            }
        },
        CommandV::Select { table_name, attr_pos, comparison, selected } => {
            if !has_table(db, table_name) {
                (db, Err(DatabaseError::TableDoesNotExist))
            } else {
                let i = table_at(db, table_name);
                let e = db[i];
                let fast = e.schema[attr_pos as int].1 == crate::database::AttributeType::Id
                    && comparison matches CompV::Equal(_);
                let rows = if fast {
                    let k = match comparison {
                        CompV::Equal(AttrV::Id(k)) => k,
                        _ => 0,
                    };
                    match find_row(e.table.shards[crate::table::hash_spec(k as i64)], k) {
                        Some(row) => seq![project(row, selected)],
                        None => Seq::<Seq<AttrV>>::empty(),
                    }
                } else {
                    table_select(e.table.shards, attr_pos as int, comparison, selected)
                };
                (db, Ok(RespV::Data(rows)))
            }
        },
        CommandV::Drop { name } => {
            if has_table(db, name) {
                (db.remove(table_at(db, name)), Ok(RespV::Nothing))
            } else {
                (db, Ok(RespV::Nothing))
            }
        },
        CommandV::CreateIndex { name, table_name, columns } => (db, Ok(RespV::Nothing)),
    }
}

impl Database {
    /// Runs one typed command: creating an index is a quiet no-op, every
    /// other command goes to its table operation.
    pub fn execute_command(&mut self, command: Command) -> (r: Result<
        DatabaseResponse,
        DatabaseError,
    >)
        requires
            old(self).wf(),
            command_valid(old(self)@, command@),
            match command@ {
                CommandV::Insert { table_name, .. } => has_table(old(self)@, table_name)
                    ==> old(self)@[table_at(old(self)@, table_name)].table.counter < i64::MAX,
                _ => true,
            },
        ensures
            final(self).wf(),
            final(self)@ == spec_execute(old(self)@, command@).0,
            match r {
                Ok(resp) => spec_execute(old(self)@, command@).1 == Ok::<RespV, DatabaseError>(
                    resp@,
                ),
                Err(e) => spec_execute(old(self)@, command@).1 == Err::<RespV, DatabaseError>(e),
            },
    {
        match command {
            Command::Create { name, attributes } => {
                let r = self.create_table(name.as_str(), attributes);
                proof {
                    if !has_table(old(self)@, name@) {
                        assert(self@ == spec_execute(old(self)@, command@).0);
                    }
                }
                r
            },
            Command::Insert { table_name, data } => self.insert(table_name.as_str(), data),
            Command::Delete { table_name, attr_pos, comparison } => self.delete(
                table_name.as_str(),
                attr_pos,
                &comparison,
            ),
            Command::Select { table_name, attr_pos, comparison, selected } => self.select(
                table_name.as_str(),
                attr_pos,
                &comparison,
                selected,
            ),
            Command::Drop { name } => self.drop_table(name.as_str()),
            Command::CreateIndex { name, table_name, columns } => Ok(DatabaseResponse::Nothing),
        }
    }
}

/// Serves one decoded request against its database.
pub struct StreamProcessor {
    pub database: Database,
}

/// What a request can fail with: the parser's word, or the facade's.
#[derive(Debug, Clone, Copy, PartialEq, Eq)]
pub enum RequestError {
    User(UserError),
    Database(DatabaseError),
}

impl StreamProcessor {
    pub fn new() -> (r: Self)
        ensures
            r.database.wf(),
            r.database@ == Seq::<DbEntryV>::empty(),
    {
        StreamProcessor { database: Database::new() }
    }

    /// Serves a `Query` request: parses the statement and runs it.
    pub fn process_str(&mut self, contents: &str) -> (r: Result<DatabaseResponse, RequestError>)
        requires
            old(self).database.wf(),
            match spec_get_command(contents@, old(self).database@) {
                Ok(c) => match c {
                    CommandV::Insert { table_name, .. } => has_table(
                        old(self).database@,
                        table_name,
                    ) ==> old(self).database@[table_at(
                        old(self).database@,
                        table_name,
                    )].table.counter < i64::MAX,
                    _ => true,
                },
                Err(e) => true,
            },
        ensures
            final(self).database.wf(),
            match spec_get_command(contents@, old(self).database@) {
                Err(e) => r == Err::<DatabaseResponse, RequestError>(RequestError::User(e))
                    && final(self).database@ == old(self).database@,
                Ok(c) => {
                    let (db2, res) = spec_execute(old(self).database@, c);
                    &&& final(self).database@ == db2
                    &&& match r {
                        Ok(resp) => res == Ok::<RespV, DatabaseError>(resp@),
                        Err(e) => e matches RequestError::Database(de) && res == Err::<
                            RespV,
                            DatabaseError,
                        >(de),
                    }
                },
            },
    {
        let command = match get_command(contents, &self.database) {
            Ok(c) => c,
            Err(e) => {
                return Err(RequestError::User(e));
            },
        };
        proof {
            crate::parser::lemma_parsed_command_valid(contents@, old(self).database@);
        }
        match self.database.execute_command(command) {
            Ok(resp) => Ok(resp),
            Err(e) => Err(RequestError::Database(e)),
        }
    }
}

} // verus!

//! The schema registry and the database facade.

use vstd::prelude::*;
use vstd::string::StringExecFns;

use crate::error::DatabaseError;
use crate::shard::{chunk_retain, find_row, remove_key};
use crate::table::{
    hash_spec, shard_content_ok, shard_count, subst_null_id, table_select, table_wf, ShardRelease,
    TableData, TableV,
};
use crate::text::str_eq;
use crate::value::{project, rows_view, AttrV, Comparison, DataAttribute, DataAttributes};

verus! {

/// The kind of one column.
#[derive(Debug, Clone, Copy, PartialEq, Eq, Structural)]
pub enum AttributeType {
    Id,
    String,
    Number,
    Data,
}

/// One column of a schema: its name and its kind.
#[derive(Debug, PartialEq)]
pub struct Attribute {
    pub name: String,
    pub attribute_type: AttributeType,
}

impl View for Attribute {
    type V = (Seq<char>, AttributeType);

    open spec fn view(&self) -> (Seq<char>, AttributeType) {
        (self.name@, self.attribute_type)
    }
}

/// A table's schema: its columns, in order.
#[derive(Debug, PartialEq)]
pub struct DatabaseTable {
    pub attributes: Vec<Attribute>,
}

impl View for DatabaseTable {
    type V = Seq<(Seq<char>, AttributeType)>;

    open spec fn view(&self) -> Seq<(Seq<char>, AttributeType)> {
        Seq::new(self.attributes@.len(), |i: int| self.attributes@[i]@)
    }
}

/// The deep view of a schema given as a vector of columns.
pub open spec fn schema_view(attributes: Seq<Attribute>) -> Seq<(Seq<char>, AttributeType)> {
    Seq::new(attributes.len(), |i: int| attributes[i]@)
}

/// Mathematical model of a response.
pub enum RespV {
    Nothing,
    Id(int),
    Data(Seq<Seq<AttrV>>),
    Names(Seq<Seq<char>>),
}

/// What a database operation answers.
#[derive(Debug, PartialEq)]
pub enum DatabaseResponse {
    Nothing,
    Id(i64),
    Data(Vec<DataAttributes>),
    Names(Vec<String>),
}

impl View for DatabaseResponse {
    type V = RespV;

    open spec fn view(&self) -> RespV {
        match self {
            DatabaseResponse::Nothing => RespV::Nothing,
            DatabaseResponse::Id(n) => RespV::Id(*n as int),
            DatabaseResponse::Data(rows) => RespV::Data(rows_view(rows@)),
            DatabaseResponse::Names(names) => RespV::Names(
                Seq::new(names@.len(), |i: int| names@[i]@),
            ),
        }
    }
}

/// Mathematical model of one table's entry in the database: its name, its
/// schema, and its data.
pub struct DbEntryV {
    pub name: Seq<char>,
    pub schema: Seq<(Seq<char>, AttributeType)>,
    pub table: TableV,
}

struct DbEntry {
    name: String,
    table: DatabaseTable,
    data: TableData,
}

/// The database: a mapping from table name to schema and data, kept in
/// creation order.
pub struct Database {
    entries: Vec<DbEntry>,
}

impl View for Database {
    type V = Seq<DbEntryV>;

    closed spec fn view(&self) -> Seq<DbEntryV> {
        Seq::new(
            self.entries@.len(),
            |i: int|
                DbEntryV {
                    name: self.entries@[i].name@,
                    schema: self.entries@[i].table@,
                    table: self.entries@[i].data@,
                },
        )
    }
}

/// Whether a table of this name exists.
pub open spec fn has_table(db: Seq<DbEntryV>, name: Seq<char>) -> bool {
    exists|i: int| 0 <= i < db.len() && (#[trigger] db[i]).name == name
}

/// The index of the table of this name (meaningful when unique).
pub open spec fn table_at(db: Seq<DbEntryV>, name: Seq<char>) -> int {
    choose|i: int| 0 <= i < db.len() && (#[trigger] db[i]).name == name
}

/// Well-formedness of the database: table names are unique, every table is
/// well-formed, and each table's row width is its schema's column count.
pub open spec fn db_wf(db: Seq<DbEntryV>) -> bool {
    &&& forall|i: int, j: int|
        0 <= i < j < db.len() ==> (#[trigger] db[i]).name != (#[trigger] db[j]).name
    &&& forall|i: int|
        0 <= i < db.len() ==> table_wf((#[trigger] db[i]).table) && db[i].table.width
            == db[i].schema.len() && 0 < db[i].schema.len() <= usize::MAX && id_cols_keyed(
            db[i].schema,
            db[i].table.shards,
        )
}

/// Rows as stored are keyed by their id column: wherever the schema has a
/// column of kind `Id`, every stored row holds `Id(k)` there, `k` the key
/// the row is stored under.  This is what makes the primary-key fast path
/// equal to a full scan.
pub open spec fn id_cols_keyed(
    schema: Seq<(Seq<char>, AttributeType)>,
    shards: Seq<Seq<(int, Seq<AttrV>)>>,
) -> bool {
    forall|i: int, j: int, p: int|
        #![trigger shards[i][j], schema[p]]
        0 <= i < shards.len() && 0 <= j < shards[i].len() && 0 <= p < schema.len() && schema[p].1
            == AttributeType::Id ==> shards[i][j].1[p] == AttrV::Id(shards[i][j].0)
}

/// An insert's row with every id-column slot blanked to `NullId`: the
/// engine assigns id values itself, whatever the caller wrote there.
pub open spec fn normalize_id_slots(
    row: Seq<AttrV>,
    schema: Seq<(Seq<char>, AttributeType)>,
) -> Seq<AttrV> {
    Seq::new(
        row.len(),
        |p: int|
            if p < schema.len() && schema[p].1 == AttributeType::Id {
                AttrV::NullId
            } else {
                row[p]
            },
    )
}

/// Whether the predicate takes the single-shard primary-key path: the named
/// column is of kind `Id` and the comparison is equality.
pub open spec fn id_fast_path(
    schema: Seq<(Seq<char>, AttributeType)>,
    attr_pos: int,
    comparison: Comparison,
) -> bool {
    schema[attr_pos].1 == AttributeType::Id && comparison matches Comparison::Equal(_)
}

impl Database {
    pub open spec fn wf(&self) -> bool {
        db_wf(self@)
    }

    /// The spill-file names of the shards of the table at entry `i`, in
    /// shard order.
    pub closed spec fn files_at(&self, i: int) -> Seq<Option<Seq<char>>> {
        self.entries@[i].data.filenames()
    }

    /// An empty database.
    pub fn new() -> (r: Self)
        ensures
            r.wf(),
            r@ == Seq::<DbEntryV>::empty(),
    {
        let r = Database { entries: Vec::new() };
        proof {
            assert(r@ =~= Seq::<DbEntryV>::empty());
        }
        r
    }

    /// The index of the entry of this name, if any.
    fn find_index(&self, name: &str) -> (r: Option<usize>)
        requires
            self.wf(),
        ensures
            match r {
                Some(i) => i < self@.len() && self@[i as int].name == name@ && table_at(
                    self@,
                    name@,
                ) == i as int && has_table(self@, name@),
                None => !has_table(self@, name@),
            },
    {
        let n = self.entries.len();
        let mut i: usize = 0;
        while i < n
            invariant
                i <= n,
                n == self@.len(),
                self.wf(),
                forall|j: int| 0 <= j < i ==> (#[trigger] self@[j]).name != name@,
            decreases n - i,
        {
            if str_eq(self.entries[i].name.as_str(), name) {
                proof {
                    assert(self@[i as int].name == name@);
                    let w = table_at(self@, name@);
                    assert(self@[w].name == name@);
                    if w != i as int {
                        assert(self@[w].name != self@[i as int].name);
                    }
                }
                return Some(i);
            }
            i = i + 1;
        }
        proof {
            assert(!has_table(self@, name@));
        }
        None
    }

    /// The schema of the named table, if it exists.
    pub fn get_table(&self, name: &str) -> (r: Option<&DatabaseTable>)
        requires
            self.wf(),
        ensures
            match r {
                Some(t) => has_table(self@, name@) && t@ == self@[table_at(self@, name@)].schema,
                None => !has_table(self@, name@),
            },
    {
        match self.find_index(name) {
            Some(i) => Some(&self.entries[i].table),
            None => None,
        }
    }

    /// Creates a table under a fresh name; fails if the name is taken.
    pub fn create_table(&mut self, name: &str, attributes: Vec<Attribute>) -> (r: Result<
        DatabaseResponse,
        DatabaseError,
    >)
        requires
            old(self).wf(),
            attributes@.len() > 0,
        ensures
            final(self).wf(),
            has_table(old(self)@, name@) ==> (r matches Err(e) && e == DatabaseError::TableExists
                && final(self)@ == old(self)@),
            forall|t: int|
                0 <= t < old(self)@.len() ==> #[trigger] final(self).files_at(t) == old(
                    self,
                ).files_at(t),
            !has_table(old(self)@, name@) ==> (forall|s: int|
                0 <= s < shard_count() ==> (#[trigger] final(self).files_at(
                    old(self)@.len() as int,
                )[s]) is None),
            !has_table(old(self)@, name@) ==> (r matches Ok(resp) && resp@ == RespV::Nothing)
                && final(self)@ == old(self)@.push(
                DbEntryV {
                    name: name@,
                    schema: schema_view(attributes@),
                    table: TableV {
                        shards: Seq::new(shard_count() as nat, |i: int| Seq::empty()),
                        counter: 0,
                        width: attributes@.len() as int,
                    },
                },
            ),
    {
        if let Some(_) = self.find_index(name) {
            return Err(DatabaseError::TableExists);
        }
        let width = attributes.len();
        let data = TableData::new(width);
        proof {
            assert(data@.shards.len() == shard_count());
            assert forall|i: int| 0 <= i < shard_count() implies (#[trigger] data@.shards[i]).len()
                == 0 by {
                assert(data.shards()[i].len() == 0);
            }
        }
        let entry = DbEntry {
            name: String::from_str(name),
            table: DatabaseTable { attributes },
            data,
        };
        self.entries.push(entry);
        proof {
            assert(self.entries@.last().data@ == data@);
            assert(self@.last().table == data@);
            assert(self@.drop_last() =~= old(self)@);
            assert(self@.last().table.shards =~~= Seq::new(
                shard_count() as nat,
                |i: int| Seq::<(int, Seq<AttrV>)>::empty(),
            ));
            assert(self@.last().schema =~= schema_view(attributes@));
            assert(self@.last() == DbEntryV {
                name: name@,
                schema: schema_view(attributes@),
                table: TableV {
                    shards: Seq::new(shard_count() as nat, |i: int| Seq::empty()),
                    counter: 0,
                    width: attributes@.len() as int,
                },
            });
            assert(self@ =~= old(self)@.push(self@.last()));
            assert forall|t: int| 0 <= t < old(self)@.len() implies #[trigger] self.files_at(t)
                == old(self).files_at(t) by {
                assert(self.entries@[t] == old(self).entries@[t]);
            }
            assert forall|s: int| 0 <= s < shard_count() implies (#[trigger] self.files_at(
                old(self)@.len() as int,
            )[s]) is None by {
                assert(self.entries@.last().data@ == data@);
                assert(data.filenames()[s] is None);
            }
        }
        Ok(DatabaseResponse::Nothing)
    }

    /// Inserts a row into the named table and answers the id it was given.
    pub fn insert(&mut self, table_name: &str, data: DataAttributes) -> (r: Result<
        DatabaseResponse,
        DatabaseError,
    >)
        requires
            old(self).wf(),
            has_table(old(self)@, table_name@) ==> {
                let e = old(self)@[table_at(old(self)@, table_name@)];
                data@.len() == e.schema.len() && e.table.counter < i64::MAX
            },
        ensures
            final(self).wf(),
            forall|t: int|
                0 <= t < old(self)@.len() ==> #[trigger] final(self).files_at(t) == old(
                    self,
                ).files_at(t),
            !has_table(old(self)@, table_name@) ==> (r matches Err(e) && e
                == DatabaseError::TableDoesNotExist && final(self)@ == old(self)@),
            has_table(old(self)@, table_name@) ==> {
                let i = table_at(old(self)@, table_name@);
                let e = old(self)@[i];
                let id = e.table.counter;
                let h = id % 256;
                &&& (r matches Ok(resp) && resp@ == RespV::Id(id))
                &&& final(self)@ == old(self)@.update(
                    i,
                    DbEntryV {
                        table: TableV {
                            shards: e.table.shards.update(
                                h,
                                e.table.shards[h].push(
                                    (id, subst_null_id(normalize_id_slots(data@, e.schema), id)),
                                ),
                            ),
                            counter: id + 1,
                            width: e.table.width,
                        },
                        ..e
                    },
                )
            },
    {
        let ix = self.find_index(table_name);
        if ix.is_none() {
            return Err(DatabaseError::TableDoesNotExist);
        }
        let i = ix.unwrap();
        let ghost old_view = self@;
        let ghost schema = old_view[i as int].schema;

        let n = data.attributes.len();
        let mut norm: Vec<DataAttribute> = Vec::new();
        let mut p: usize = 0;
        while p < n
            invariant
                p <= n,
                n == data.attributes@.len(),
                n == self.entries@[i as int].table.attributes@.len(),
                i < self.entries@.len(),
                schema == self.entries@[i as int].table@,
                norm@.len() == p,
                forall|q: int|
                    0 <= q < p ==> (#[trigger] norm@[q])@ == normalize_id_slots(data@, schema)[q],
            decreases n - p,
        {
            let kind = self.entries[i].table.attributes[p].attribute_type;
            proof {
                assert(schema[p as int].1 == kind);
                assert(data@[p as int] == data.attributes@[p as int]@);
            }
            let v = match kind {
                AttributeType::Id => DataAttribute::NullId,
                _ => crate::value::clone_value(&data.attributes[p]),
            };
            norm.push(v);
            p = p + 1;
        }
        let row = DataAttributes { attributes: norm };
        proof {
            assert(row@ =~= normalize_id_slots(data@, schema));
        }

        let d = &mut self.entries[i].data;
        let id = d.add(row);
        proof {
            assert(id as int >= 0);
            assert(hash_spec(id) == (id as int) % 256);
            let ii = i as int;
            let e = old_view[ii];
            assert(self@ =~= old_view.update(
                ii,
                DbEntryV {
                    table: TableV {
                        shards: e.table.shards.update(
                            id as int % 256,
                            e.table.shards[id as int % 256].push(
                                (
                                    id as int,
                                    subst_null_id(normalize_id_slots(data@, e.schema), id as int),
                                ),
                            ),
                        ),
                        counter: id as int + 1,
                        width: e.table.width,
                    },
                    ..e
                },
            ));
            assert forall|t: int| 0 <= t < old_view.len() implies #[trigger] self.files_at(t)
                == old(self).files_at(t) by {
                if t == ii {
                    assert(self.files_at(t) =~= old(self).files_at(t));
                } else {
                    assert(self.entries@[t] == old(self).entries@[t]);
                }
            }
        }
        Ok(DatabaseResponse::Id(id))
    }

    /// Deletes the rows of the named table matching the comparison at the
    /// named column; equality on an `Id` column touches one shard only.
    pub fn delete(&mut self, table_name: &str, attr_pos: usize, comparison: &Comparison) -> (r:
        Result<DatabaseResponse, DatabaseError>)
        requires
            old(self).wf(),
            has_table(old(self)@, table_name@) ==> {
                let e = old(self)@[table_at(old(self)@, table_name@)];
                &&& attr_pos < e.schema.len()
                &&& (id_fast_path(e.schema, attr_pos as int, *comparison)
                    ==> comparison matches Comparison::Equal(DataAttribute::Id(_)))
            },
        ensures
            final(self).wf(),
            forall|t: int|
                0 <= t < old(self)@.len() ==> #[trigger] final(self).files_at(t) == old(
                    self,
                ).files_at(t),
            !has_table(old(self)@, table_name@) ==> (r matches Err(e) && e
                == DatabaseError::TableDoesNotExist && final(self)@ == old(self)@),
            has_table(old(self)@, table_name@) ==> {
                let i = table_at(old(self)@, table_name@);
                let e = old(self)@[i];
                &&& (r matches Ok(resp) && resp@ == RespV::Nothing)
                &&& if id_fast_path(e.schema, attr_pos as int, *comparison) {
                    comparison matches Comparison::Equal(DataAttribute::Id(k)) && final(self)@
                        == old(self)@.update(
                        i,
                        DbEntryV {
                            table: TableV {
                                shards: e.table.shards.update(
                                    hash_spec(*k),
                                    remove_key(e.table.shards[hash_spec(*k)], *k as int),
                                ),
                                counter: e.table.counter,
                                width: e.table.width,
                            },
                            ..e
                        },
                    )
                } else {
                    final(self)@ == old(self)@.update(
                        i,
                        DbEntryV {
                            table: TableV {
                                shards: Seq::new(
                                    shard_count() as nat,
                                    |s: int| chunk_retain(
                                        e.table.shards[s],
                                        attr_pos as int,
                                        comparison@,
                                    ),
                                ),
                                counter: e.table.counter,
                                width: e.table.width,
                            },
                            ..e
                        },
                    )
                }
            },
    {
        let ix = self.find_index(table_name);
        if ix.is_none() {
            return Err(DatabaseError::TableDoesNotExist);
        }
        let i = ix.unwrap();
        let is_id = self.entries[i].table.attributes[attr_pos].attribute_type
            == AttributeType::Id;
        let ghost old_view = self@;
        let ghost ii = i as int;
        let ghost e = old_view[ii];
        proof {
            assert(e.table == self.entries@[ii].data@);
            assert(e.schema[attr_pos as int].1
                == self.entries@[ii].table.attributes@[attr_pos as int].attribute_type);
        }
        let fast = is_id && (match comparison {
            Comparison::Equal(_) => true,
            _ => false,
        });
        let d = &mut self.entries[i].data;
        if fast {
            proof {
                assert(id_fast_path(e.schema, attr_pos as int, *comparison));
            }
            if let Comparison::Equal(DataAttribute::Id(k)) = comparison {
                d.delete_id(*k);
                proof {
                    assert(self@ =~= old_view.update(
                        ii,
                        DbEntryV {
                            table: TableV {
                                shards: e.table.shards.update(
                                    hash_spec(*k),
                                    remove_key(e.table.shards[hash_spec(*k)], *k as int),
                                ),
                                counter: e.table.counter,
                                width: e.table.width,
                            },
                            ..e
                        },
                    ));
                    let ns = self@[ii].table.shards;
                    assert forall|a: int, j: int, p: int|
                        #![trigger ns[a][j], e.schema[p]]
                        0 <= a < ns.len() && 0 <= j < ns[a].len() && 0 <= p < e.schema.len()
                            && e.schema[p].1 == AttributeType::Id implies ns[a][j].1[p]
                        == AttrV::Id(ns[a][j].0) by {
                        assert(id_cols_keyed(e.schema, e.table.shards));
                        if a == hash_spec(*k) {
                            let s0 = e.table.shards[a];
                            crate::shard::lemma_remove_key_props(s0, *k as int);
                            assert(ns[a][j] == remove_key(s0, *k as int)[j]);
                            let m = choose|m: int|
                                0 <= m < s0.len() && #[trigger] remove_key(s0, *k as int)[j] == s0[m];
                            assert(s0[m].1[p] == AttrV::Id(s0[m].0));
                        } else {
                            assert(ns[a][j] == e.table.shards[a][j]);
                            assert(e.table.shards[a][j].1[p] == AttrV::Id(e.table.shards[a][j].0));
                        }
                    }
                    assert(id_cols_keyed(e.schema, ns));
                    assert forall|t: int| 0 <= t < self@.len() implies id_cols_keyed(
                        (#[trigger] self@[t]).schema,
                        self@[t].table.shards,
                    ) by {
                        if t != ii {
                            assert(self@[t] == old_view[t]);
                        }
                    }
                    assert forall|t: int| 0 <= t < old_view.len() implies #[trigger] self.files_at(
                        t,
                    ) == old(self).files_at(t) by {
                        if t == ii {
                            assert(self.files_at(t) =~= old(self).files_at(t));
                        } else {
                            assert(self.entries@[t] == old(self).entries@[t]);
                        }
                    }
                }
            } else {
                proof {
                    assert(false);
                }
            }
        } else {
            d.delete(attr_pos, comparison);
            proof {
                assert(self@ =~= old_view.update(
                    ii,
                    DbEntryV {
                        table: TableV {
                            shards: Seq::new(
                                shard_count() as nat,
                                |s: int| chunk_retain(
                                    e.table.shards[s],
                                    attr_pos as int,
                                    comparison@,
                                ),
                            ),
                            counter: e.table.counter,
                            width: e.table.width,
                        },
                        ..e
                    },
                ));
                let ns = self@[ii].table.shards;
                assert forall|a: int, j: int, p: int|
                    #![trigger ns[a][j], e.schema[p]]
                    0 <= a < ns.len() && 0 <= j < ns[a].len() && 0 <= p < e.schema.len()
                        && e.schema[p].1 == AttributeType::Id implies ns[a][j].1[p] == AttrV::Id(
                    ns[a][j].0,
                ) by {
                    assert(id_cols_keyed(e.schema, e.table.shards));
                    let s0 = e.table.shards[a];
                    crate::shard::lemma_retain_props(s0, attr_pos as int, comparison@);
                    let rt = chunk_retain(s0, attr_pos as int, comparison@);
                    assert(ns[a][j] == rt[j]);
                    let m = choose|m: int| 0 <= m < s0.len() && #[trigger] rt[j] == s0[m];
                    assert(s0[m].1[p] == AttrV::Id(s0[m].0));
                }
                assert(id_cols_keyed(e.schema, ns));
                assert forall|t: int| 0 <= t < self@.len() implies id_cols_keyed(
                    (#[trigger] self@[t]).schema,
                    self@[t].table.shards,
                ) by {
                    if t != ii {
                        assert(self@[t] == old_view[t]);
                    }
                }
                assert forall|t: int| 0 <= t < old_view.len() implies #[trigger] self.files_at(t)
                    == old(self).files_at(t) by {
                    if t == ii {
                        assert(self.files_at(t) =~= old(self).files_at(t));
                    } else {
                        assert(self.entries@[t] == old(self).entries@[t]);
                    }
                }
            }
        }
        Ok(DatabaseResponse::Nothing)
    }

    /// Answers the projections of the rows of the named table matching the
    /// comparison at the named column; equality on an `Id` column reads one
    /// shard only.
    pub fn select(
        &self,
        table_name: &str,
        attr_pos: usize,
        comparison: &Comparison,
        selected: Vec<usize>,
    ) -> (r: Result<DatabaseResponse, DatabaseError>)
        requires
            self.wf(),
            has_table(self@, table_name@) ==> {
                let e = self@[table_at(self@, table_name@)];
                &&& attr_pos < e.schema.len()
                &&& (forall|j: int|
                    0 <= j < selected@.len() ==> (#[trigger] selected@[j]) < e.schema.len())
                &&& (id_fast_path(e.schema, attr_pos as int, *comparison)
                    ==> comparison matches Comparison::Equal(DataAttribute::Id(_)))
            },
        ensures
            !has_table(self@, table_name@) ==> (r matches Err(e) && e
                == DatabaseError::TableDoesNotExist),
            has_table(self@, table_name@) ==> {
                let e = self@[table_at(self@, table_name@)];
                &&& (id_fast_path(e.schema, attr_pos as int, *comparison) ==> (
                comparison matches Comparison::Equal(DataAttribute::Id(k)) && r matches Ok(resp)
                    && resp@ == RespV::Data(
                    match find_row(e.table.shards[hash_spec(*k)], *k as int) {
                        Some(row) => seq![project(row, selected@)],
                        None => Seq::<Seq<AttrV>>::empty(),
                    },
                )))
                &&& (!id_fast_path(e.schema, attr_pos as int, *comparison) ==> (r matches Ok(resp)
                    && resp@ == RespV::Data(
                    table_select(e.table.shards, attr_pos as int, comparison@, selected@),
                )))
            },
    {
        let ix = self.find_index(table_name);
        if ix.is_none() {
            return Err(DatabaseError::TableDoesNotExist);
        }
        let i = ix.unwrap();
        let is_id = self.entries[i].table.attributes[attr_pos].attribute_type
            == AttributeType::Id;
        let fast = is_id && (match comparison {
            Comparison::Equal(_) => true,
            _ => false,
        });
        let rows = if fast {
            let mut k: i64 = 0;
            if let Comparison::Equal(DataAttribute::Id(kk)) = comparison {
                k = *kk;
            }
            self.entries[i].data.get_by_id(k, &selected)
        } else {
            self.entries[i].data.get(attr_pos, comparison, &selected)
        };
        Ok(DatabaseResponse::Data(rows))
    }

    /// The positions of the schema's id columns, in order.
    fn id_positions(table: &DatabaseTable) -> (r: Vec<usize>)
        ensures
            forall|q: int|
                0 <= q < r@.len() ==> (#[trigger] r@[q]) < table@.len() && table@[r@[q] as int].1
                    == AttributeType::Id,
            forall|p: int|
                0 <= p < table@.len() && (#[trigger] table@[p]).1 == AttributeType::Id
                    ==> exists|q: int| 0 <= q < r@.len() && (#[trigger] r@[q]) == p as usize,
    {
        let n = table.attributes.len();
        let mut r: Vec<usize> = Vec::new();
        let mut p: usize = 0;
        while p < n
            invariant
                p <= n,
                n == table@.len(),
                forall|q: int|
                    0 <= q < r@.len() ==> (#[trigger] r@[q]) < table@.len() && table@[r@[q] as int].1
                        == AttributeType::Id,
                forall|p0: int|
                    0 <= p0 < p && (#[trigger] table@[p0]).1 == AttributeType::Id ==> exists|q: int|
                        0 <= q < r@.len() && (#[trigger] r@[q]) == p0 as usize,
            decreases n - p,
        {
            let is_id = match table.attributes[p].attribute_type {
                AttributeType::Id => true,
                _ => false,
            };
            if is_id {
                let ghost old_r = r@;
                r.push(p);
                proof {
                    assert(r@[r@.len() - 1] == p);
                    assert forall|p0: int|
                        0 <= p0 < p + 1 && (#[trigger] table@[p0]).1 == AttributeType::Id
                        implies exists|q: int|
                        0 <= q < r@.len() && (#[trigger] r@[q]) == p0 as usize by {
                        if p0 < p {
                            let q = choose|q: int|
                                0 <= q < old_r.len() && (#[trigger] old_r[q]) == p0 as usize;
                            assert(r@[q] == p0 as usize);
                        } else {
                            assert(r@[r@.len() - 1] == p0 as usize);
                        }
                    }
                }
            }
            p = p + 1;
        }
        r
    }

    /// The spill-file names of the named table's shards, in shard order,
    /// for the caller that owns the files; asked for before a drop, it
    /// names every file to delete.
    pub fn table_filenames(&self, name: &str) -> (r: Option<Vec<Option<String>>>)
        requires
            self.wf(),
        ensures
            r is None <==> !has_table(self@, name@),
            match r {
                Some(v) => has_table(self@, name@) && v@.len() == shard_count() && forall|i: int|
                    0 <= i < shard_count() ==> match #[trigger] v@[i] {
                        Some(n) => self.files_at(table_at(self@, name@))[i] == Some(n@),
                        None => self.files_at(table_at(self@, name@))[i] is None,
                    },
                None => true,
            },
    {
        match self.find_index(name) {
            None => None,
            Some(i) => Some(self.entries[i].data.shard_filenames()),
        }
    }

    /// The named table's row-id counter: the next id an insert is given.
    pub fn table_counter(&self, name: &str) -> (r: Option<i64>)
        requires
            self.wf(),
        ensures
            r is None <==> !has_table(self@, name@),
            r matches Some(c) ==> has_table(self@, name@) && c as int == self@[table_at(
                self@,
                name@,
            )].table.counter,
    {
        match self.find_index(name) {
            None => None,
            Some(i) => Some(self.entries[i].data.counter_value()),
        }
    }

    /// Runs one shard's release decision on the named table; see
    /// `TableData::release_shard`.  The caller does the file work the
    /// answer names.
    pub fn release_shard(
        &mut self,
        table_name: &str,
        shard: usize,
        over_budget: bool,
        fresh_name: String,
    ) -> (r: Option<ShardRelease>)
        requires
            old(self).wf(),
            shard < 256,
        ensures
            final(self).wf(),
            r is None <==> !has_table(old(self)@, table_name@),
            r is None ==> final(self)@ == old(self)@,
            has_table(old(self)@, table_name@) ==> {
                let i = table_at(old(self)@, table_name@);
                let e = old(self)@[i];
                &&& forall|t: int|
                    0 <= t < old(self)@.len() && t != i ==> #[trigger] final(self).files_at(t)
                        == old(self).files_at(t)
                &&& match r {
                    Some(ShardRelease::SpillFile(name, bytes)) => {
                        &&& over_budget
                        &&& bytes@ == crate::codec::enc_records(e.table.shards[shard as int])
                        &&& crate::codec::dec_records(bytes@) == Some(e.table.shards[shard as int])
                        &&& final(self)@ == old(self)@.update(
                            i,
                            DbEntryV {
                                table: TableV {
                                    shards: e.table.shards.update(
                                        shard as int,
                                        Seq::<(int, Seq<AttrV>)>::empty(),
                                    ),
                                    counter: e.table.counter,
                                    width: e.table.width,
                                },
                                ..e
                            },
                        )
                        &&& final(self).files_at(i) == old(self).files_at(i).update(
                            shard as int,
                            Some(name@),
                        )
                        &&& name@ == match old(self).files_at(i)[shard as int] {
                            Some(n) => n,
                            None => fresh_name@,
                        }
                    },
                    Some(ShardRelease::DeleteFile(name)) => {
                        &&& !over_budget
                        &&& old(self).files_at(i)[shard as int] == Some(name@)
                        &&& final(self)@ == old(self)@
                        &&& final(self).files_at(i) == old(self).files_at(i).update(
                            shard as int,
                            None::<Seq<char>>,
                        )
                    },
                    Some(ShardRelease::Keep) => {
                        &&& !over_budget
                        &&& old(self).files_at(i)[shard as int] is None
                        &&& final(self)@ == old(self)@
                        &&& final(self).files_at(i) == old(self).files_at(i)
                    },
                    None => false,
                }
            },
    {
        let ix = match self.find_index(table_name) {
            None => {
                return None;
            },
            Some(i) => i,
        };
        let ghost old_view = self@;
        let ghost ii = ix as int;
        let ghost e = old_view[ii];
        let d = &mut self.entries[ix].data;
        let r = d.release_shard(shard, over_budget, fresh_name);
        proof {
            match r {
                ShardRelease::SpillFile(_, _) => {
                    assert(self@ =~= old_view.update(
                        ii,
                        DbEntryV {
                            table: TableV {
                                shards: e.table.shards.update(
                                    shard as int,
                                    Seq::<(int, Seq<AttrV>)>::empty(),
                                ),
                                counter: e.table.counter,
                                width: e.table.width,
                            },
                            ..e
                        },
                    ));
                    let ns = self@[ii].table.shards;
                    assert forall|a: int, j: int, p: int|
                        #![trigger ns[a][j], e.schema[p]]
                        0 <= a < ns.len() && 0 <= j < ns[a].len() && 0 <= p < e.schema.len()
                            && e.schema[p].1 == AttributeType::Id implies ns[a][j].1[p]
                        == AttrV::Id(ns[a][j].0) by {
                        assert(id_cols_keyed(e.schema, e.table.shards));
                        assert(a != shard as int);
                        assert(ns[a][j] == e.table.shards[a][j]);
                        assert(e.table.shards[a][j].1[p] == AttrV::Id(e.table.shards[a][j].0));
                    }
                    assert(id_cols_keyed(e.schema, ns));
                },
                _ => {
                    assert(self@ =~= old_view);
                },
            }
            assert forall|t: int| 0 <= t < old_view.len() implies id_cols_keyed(
                (#[trigger] self@[t]).schema,
                self@[t].table.shards,
            ) by {
                if t != ii {
                    assert(self@[t] == old_view[t]);
                }
            }
        }
        Some(r)
    }

    /// Reads one shard of the named table back from spill-file bytes; see
    /// `TableData::load_shard`.  Bytes that do not spell contents this
    /// table may hold are refused and nothing changes.
    pub fn load_shard(&mut self, table_name: &str, shard: usize, bytes: &Vec<u8>) -> (r: Result<
        (),
        (),
    >)
        requires
            old(self).wf(),
            shard < 256,
        ensures
            final(self).wf(),
            !has_table(old(self)@, table_name@) ==> r is Err && final(self)@ == old(self)@,
            has_table(old(self)@, table_name@) ==> {
                let i = table_at(old(self)@, table_name@);
                let e = old(self)@[i];
                &&& (forall|t: int|
                    0 <= t < old(self)@.len() ==> #[trigger] final(self).files_at(t) == old(
                        self,
                    ).files_at(t))
                &&& match r {
                    Ok(_) => {
                        &&& crate::codec::dec_records(bytes@) is Some
                        &&& final(self)@ == old(self)@.update(
                            i,
                            DbEntryV {
                                table: TableV {
                                    shards: e.table.shards.update(
                                        shard as int,
                                        crate::codec::dec_records(bytes@).unwrap(),
                                    ),
                                    counter: e.table.counter,
                                    width: e.table.width,
                                },
                                ..e
                            },
                        )
                    },
                    Err(_) => final(self)@ == old(self)@,
                }
            },
    {
        let ix = match self.find_index(table_name) {
            None => {
                return Err(());
            },
            Some(i) => i,
        };
        let ghost old_view = self@;
        let ghost ii = ix as int;
        let ghost e = old_view[ii];
        let id_cols = Self::id_positions(&self.entries[ix].table);
        proof {
            assert(self.entries@[ii].table@ == e.schema);
            assert forall|q: int| 0 <= q < id_cols@.len() implies (#[trigger] id_cols@[q])
                < self.entries@[ii].data@.width by {}
        }
        let d = &mut self.entries[ix].data;
        let r = d.load_shard(shard, bytes, &id_cols);
        proof {
            match r {
                Ok(_) => {
                    let ghost v = crate::codec::dec_records(bytes@).unwrap();
                    assert(self@ =~= old_view.update(
                        ii,
                        DbEntryV {
                            table: TableV {
                                shards: e.table.shards.update(shard as int, v),
                                counter: e.table.counter,
                                width: e.table.width,
                            },
                            ..e
                        },
                    ));
                    let ns = self@[ii].table.shards;
                    assert forall|a: int, j: int, p: int|
                        #![trigger ns[a][j], e.schema[p]]
                        0 <= a < ns.len() && 0 <= j < ns[a].len() && 0 <= p < e.schema.len()
                            && e.schema[p].1 == AttributeType::Id implies ns[a][j].1[p]
                        == AttrV::Id(ns[a][j].0) by {
                        assert(id_cols_keyed(e.schema, e.table.shards));
                        if a == shard as int {
                            let q = choose|q: int|
                                0 <= q < id_cols@.len() && (#[trigger] id_cols@[q]) == p as usize;
                            assert(shard_content_ok(
                                v,
                                e.table.width,
                                id_cols@,
                                shard as int,
                                e.table.counter,
                            ));
                            assert(ns[a][j] == v[j]);
                            assert(v[j].1[id_cols@[q] as int] == AttrV::Id(v[j].0));
                        } else {
                            assert(ns[a][j] == e.table.shards[a][j]);
                            assert(e.table.shards[a][j].1[p] == AttrV::Id(e.table.shards[a][j].0));
                        }
                    }
                    assert(id_cols_keyed(e.schema, ns));
                },
                Err(_) => {
                    assert(self@ =~= old_view);
                },
            }
            assert forall|t: int| 0 <= t < old_view.len() implies id_cols_keyed(
                (#[trigger] self@[t]).schema,
                self@[t].table.shards,
            ) by {
                if t != ii {
                    assert(self@[t] == old_view[t]);
                }
            }
        }
        match r {
            Ok(_) => Ok(()),
            Err(_) => Err(()),
        }
    }

    /// Drops the named table; a missing table is a quiet success.  The
    /// dropped table's spill files go with it: the caller that owns the
    /// files asks `table_filenames` before dropping and deletes every name
    /// it answered.
    pub fn drop_table(&mut self, table_name: &str) -> (r: Result<
        DatabaseResponse,
        DatabaseError,
    >)
        requires
            old(self).wf(),
        ensures
            final(self).wf(),
            r matches Ok(resp) && resp@ == RespV::Nothing,
            has_table(old(self)@, table_name@) ==> final(self)@ == old(self)@.remove(
                table_at(old(self)@, table_name@),
            ),
            !has_table(old(self)@, table_name@) ==> final(self)@ == old(self)@,
    {
        let ix = self.find_index(table_name);
        if let Some(i) = ix {
            let ghost old_view = self@;
            self.entries.remove(i);
            proof {
                assert(self@ =~= old_view.remove(i as int));
            }
        }
        Ok(DatabaseResponse::Nothing)
    }

    /// Answers the names of all tables, in creation order.
    pub fn tables(&self) -> (r: Result<DatabaseResponse, DatabaseError>)
        ensures
            r matches Ok(resp) && resp@ == RespV::Names(
                Seq::new(self@.len(), |i: int| self@[i].name),
            ),
    {
        let n = self.entries.len();
        let mut names: Vec<String> = Vec::new();
        let mut i: usize = 0;
        while i < n
            invariant
                i <= n,
                n == self@.len(),
                names@.len() == i,
                forall|j: int| 0 <= j < i ==> (#[trigger] names@[j])@ == self@[j].name,
            decreases n - i,
        {
            names.push(self.entries[i].name.clone());
            i = i + 1;
        }
        let resp = DatabaseResponse::Names(names);
        proof {
            assert(resp@ matches RespV::Names(s) && s =~= Seq::new(
                self@.len(),
                |i: int| self@[i].name,
            ));
        }
        Ok(resp)
    }

    /// Answers the column names of the named table, in schema order.
    pub fn table_attributes(&self, name: &str) -> (r: Result<DatabaseResponse, DatabaseError>)
        requires
            self.wf(),
        ensures
            !has_table(self@, name@) ==> (r matches Err(e) && e
                == DatabaseError::TableDoesNotExist),
            has_table(self@, name@) ==> {
                let e = self@[table_at(self@, name@)];
                r matches Ok(resp) && resp@ == RespV::Names(
                    Seq::new(e.schema.len(), |i: int| e.schema[i].0),
                )
            },
    {
        let ix = self.find_index(name);
        if ix.is_none() {
            return Err(DatabaseError::TableDoesNotExist);
        }
        let i = ix.unwrap();
        let attrs = &self.entries[i].table.attributes;
        let n = attrs.len();
        let mut names: Vec<String> = Vec::new();
        let mut j: usize = 0;
        while j < n
            invariant
                j <= n,
                n == attrs@.len(),
                names@.len() == j,
                forall|k: int| 0 <= k < j ==> (#[trigger] names@[k])@ == attrs@[k].name@,
            decreases n - j,
        {
            names.push(attrs[j].name.clone());
            j = j + 1;
        }
        let resp = DatabaseResponse::Names(names);
        proof {
            let e = self@[table_at(self@, name@)];
            assert(resp@ matches RespV::Names(s) && s =~= Seq::new(
                e.schema.len(),
                |i: int| e.schema[i].0,
            ));
        }
        Ok(resp)
    }
}

} // verus!

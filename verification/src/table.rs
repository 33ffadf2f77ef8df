//! A table's data: 256 shards plus the monotonic row-id counter.

use vstd::prelude::*;

use crate::shard::{
    chunk_retain, chunk_select, find_row, keys_sorted, lemma_remove_key_props, lemma_retain_props,
    remove_key, rows_wide, DataAbstraction,
};
use crate::value::{
    clone_value, comp_matches, project, rows_view, AttrV, CompV, Comparison, DataAttribute,
    DataAttributes,
};

verus! {

/// How many shards each table has.
pub open spec fn shard_count() -> int {
    256
}

/// Mathematical model of a table: the contents of each shard, the row-id
/// counter, and the common row width.
pub struct TableV {
    pub shards: Seq<Seq<(int, Seq<AttrV>)>>,
    pub counter: int,
    pub width: int,
}

/// The shard that holds key `id`: the low eight bits of the key's unsigned
/// representation.
pub open spec fn hash_spec(id: i64) -> int {
    ((id as u64) % 256) as int
}

/// Computes the shard index for a row id.
pub fn hash_id(id: i64) -> (r: usize)
    ensures
        r as int == hash_spec(id),
        r < 256,
{
    ((id as u64) % 256) as usize
}

/// A row with every `NullId` slot replaced by `Id(id)`.
pub open spec fn subst_null_id(row: Seq<AttrV>, id: int) -> Seq<AttrV> {
    Seq::new(
        row.len(),
        |i: int|
            if row[i] == AttrV::NullId {
                AttrV::Id(id)
            } else {
                row[i]
            },
    )
}

/// The projections of all rows matching `c` at column `pos`, concatenated
/// in shard-index order (each shard's rows in ascending key order).
pub open spec fn table_select(
    shards: Seq<Seq<(int, Seq<AttrV>)>>,
    pos: int,
    c: CompV,
    sel: Seq<usize>,
) -> Seq<Seq<AttrV>>
    decreases shards.len(),
{
    if shards.len() == 0 {
        Seq::empty()
    } else {
        table_select(shards.drop_last(), pos, c, sel) + chunk_select(shards.last(), pos, c, sel)
    }
}

/// Well-formedness of a table model: 256 shards; in each, keys strictly
/// ascending, rows of the table's width, and every key nonnegative, below
/// the counter, and stored in the shard its low byte names.
pub open spec fn table_wf(t: TableV) -> bool {
    &&& t.shards.len() == shard_count()
    &&& t.counter >= 0
    &&& forall|i: int|
        0 <= i < shard_count() ==> keys_sorted(#[trigger] t.shards[i]) && rows_wide(
            t.shards[i],
            t.width,
        )
    &&& forall|i: int, j: int|
        0 <= i < shard_count() && 0 <= j < t.shards[i].len() ==> {
            let k = (#[trigger] t.shards[i][j]).0;
            0 <= k < t.counter && k % 256 == i
        }
}

/// One shard's rows, as stored.
pub struct TableData {
    chunks: Vec<DataAbstraction>,
    counter: i64,
    width: usize,
}

impl View for TableData {
    type V = TableV;

    closed spec fn view(&self) -> TableV {
        TableV {
            shards: Seq::new(self.chunks@.len(), |i: int| self.chunks@[i]@),
            counter: self.counter as int,
            width: self.width as int,
        }
    }
}

impl TableData {
    pub open spec fn shards(&self) -> Seq<Seq<(int, Seq<AttrV>)>> {
        self@.shards
    }

    pub open spec fn counter_spec(&self) -> int {
        self@.counter
    }

    pub open spec fn width_spec(&self) -> int {
        self@.width
    }

    /// The spill-file names of all shards, in shard order.
    pub closed spec fn filenames(&self) -> Seq<Option<Seq<char>>> {
        Seq::new(self.chunks@.len(), |i: int| self.chunks@[i].filename_spec())
    }

    /// Well-formedness of the stored table; see [`table_wf`].
    pub open spec fn wf(&self) -> bool {
        table_wf(self@)
    }

    /// A fresh table: every shard empty and resident, the counter at zero.
    pub fn new(width: usize) -> (r: Self)
        ensures
            r.wf(),
            r.counter_spec() == 0,
            r.width_spec() == width as int,
            forall|i: int| 0 <= i < shard_count() ==> (#[trigger] r.shards()[i]).len() == 0,
            forall|i: int| 0 <= i < shard_count() ==> (#[trigger] r.filenames()[i]) is None,
    {
        let mut chunks: Vec<DataAbstraction> = Vec::new();
        let mut i: usize = 0;
        while i < 256
            invariant
                i <= 256,
                chunks@.len() == i,
                forall|j: int| 0 <= j < i ==> (#[trigger] chunks@[j])@.len() == 0,
                forall|j: int| 0 <= j < i ==> (#[trigger] chunks@[j]).filename_spec() is None,
            decreases 256 - i,
        {
            chunks.push(DataAbstraction::new());
            i = i + 1;
        }
        TableData { chunks, counter: 0, width }
    }

    /// Stores a row under the next row id: every `NullId` slot is replaced
    /// by `Id(id)`, and the row goes to the shard `id mod 256`, at the end.
    pub fn add(&mut self, data: DataAttributes) -> (id: i64)
        requires
            old(self).wf(),
            data@.len() == old(self).width_spec(),
            old(self).counter_spec() < i64::MAX,
        ensures
            final(self).wf(),
            id as int == old(self).counter_spec(),
            final(self).counter_spec() == old(self).counter_spec() + 1,
            final(self).width_spec() == old(self).width_spec(),
            final(self).shards() == old(self).shards().update(
                hash_spec(id),
                old(self).shards()[hash_spec(id)].push(
                    (id as int, subst_null_id(data@, id as int)),
                ),
            ),
            final(self).filenames() == old(self).filenames(),
    {
        let id = self.counter;
        self.counter = self.counter + 1;

        let mut subst: Vec<DataAttribute> = Vec::new();
        let mut i: usize = 0;
        let n = data.attributes.len();
        while i < n
            invariant
                i <= n,
                n == data.attributes@.len(),
                subst@.len() == i,
                forall|k: int|
                    0 <= k < i ==> (#[trigger] subst@[k])@ == subst_null_id(data@, id as int)[k],
            decreases n - i,
        {
            let v = &data.attributes[i];
            let replaced = match v {
                DataAttribute::NullId => DataAttribute::Id(id),
                _ => clone_value(v),
            };
            proof {
                assert(data@[i as int] == v@);
            }
            subst.push(replaced);
            i = i + 1;
        }
        let row = DataAttributes { attributes: subst };
        proof {
            assert(row@ =~= subst_null_id(data@, id as int));
        }

        let h = hash_id(id);
        proof {
            assert(id >= 0);
            assert((id as u64) == id as int);
            assert(hash_spec(id) == (id as int) % 256);
        }
        let ghost old_shards = self@.shards;
        let chunk = &mut self.chunks[h];
        chunk.add(id, row);
        proof {
            assert(self.shards() =~= old_shards.update(
                hash_spec(id),
                old_shards[hash_spec(id)].push((id as int, subst_null_id(data@, id as int))),
            ));
            assert(self.filenames() =~= old(self).filenames());
            let ghost ns = self.shards();
            let ghost hh = hash_spec(id);
            assert forall|i0: int, j: int|
                0 <= i0 < shard_count() && 0 <= j < ns[i0].len() implies {
                let k = (#[trigger] ns[i0][j]).0;
                0 <= k < self.counter_spec() && k % 256 == i0
            } by {
                if i0 == hh && j == ns[i0].len() - 1 {
                    assert(ns[i0][j].0 == id as int);
                } else {
                    assert(ns[i0][j] == old(self).shards()[i0][j]);
                }
            }
            assert forall|i0: int| 0 <= i0 < shard_count() implies keys_sorted(
                #[trigger] self.shards()[i0],
            ) && rows_wide(self.shards()[i0], self.width_spec()) by {
                if i0 == hh {
                    let s = self.shards()[i0];
                    assert forall|a: int, b: int| 0 <= a < b < s.len() implies (#[trigger] s[a]).0
                        < (#[trigger] s[b]).0 by {
                        if b == s.len() - 1 {
                            assert(old(self).shards()[i0][a].0 < old(self).counter_spec());
                        }
                    }
                    assert(rows_wide(s, self.width_spec()));
                }
            }
        }
        id
    }

    /// The row stored under `id` in its shard, projected to `selected`;
    /// empty if the key is absent.
    pub fn get_by_id(&self, id: i64, selected: &Vec<usize>) -> (r: Vec<DataAttributes>)
        requires
            self.wf(),
            forall|j: int| 0 <= j < selected@.len() ==> (#[trigger] selected@[j]) < self.width_spec(),
        ensures
            rows_view(r@) == match find_row(self.shards()[hash_spec(id)], id as int) {
                Some(row) => seq![project(row, selected@)],
                None => Seq::<Seq<AttrV>>::empty(),
            },
    {
        let h = hash_id(id);
        self.chunks[h].get_by_id(id, selected)
    }

    /// Removes the row stored under `id`, if any.
    pub fn delete_id(&mut self, id: i64)
        requires
            old(self).wf(),
        ensures
            final(self).wf(),
            final(self).counter_spec() == old(self).counter_spec(),
            final(self).width_spec() == old(self).width_spec(),
            final(self).shards() == old(self).shards().update(
                hash_spec(id),
                remove_key(old(self).shards()[hash_spec(id)], id as int),
            ),
            final(self).filenames() == old(self).filenames(),
    {
        let h = hash_id(id);
        let ghost old_shards = self@.shards;
        let chunk = &mut self.chunks[h];
        chunk.delete_by_id(id);
        proof {
            let ghost hh = hash_spec(id);
            assert(self.shards() =~= old_shards.update(
                hh,
                remove_key(old_shards[hh], id as int),
            ));
            assert(self.filenames() =~= old(self).filenames());
            lemma_remove_key_props(old_shards[hh], id as int);
            let ghost ns = self.shards();
            assert forall|i0: int, j: int|
                0 <= i0 < shard_count() && 0 <= j < ns[i0].len() implies {
                let k = (#[trigger] ns[i0][j]).0;
                0 <= k < self.counter_spec() && k % 256 == i0
            } by {
                if i0 == hh {
                    let kept = remove_key(old_shards[hh], id as int);
                    assert(ns[i0][j] == kept[j]);
                    let m = choose|m: int|
                        0 <= m < old_shards[hh].len() && #[trigger] kept[j] == old_shards[hh][m];
                    assert(old_shards[hh][m].0 % 256 == i0);
                }
            }
        }
    }

    /// The projections of all rows matching `comparison` at `attr_pos`,
    /// concatenated in shard-index order.
    pub fn get(&self, attr_pos: usize, comparison: &Comparison, selected: &Vec<usize>) -> (r: Vec<
        DataAttributes,
    >)
        requires
            self.wf(),
            attr_pos < self.width_spec(),
            forall|j: int| 0 <= j < selected@.len() ==> (#[trigger] selected@[j]) < self.width_spec(),
        ensures
            rows_view(r@) == table_select(self.shards(), attr_pos as int, comparison@, selected@),
    {
        let mut out: Vec<DataAttributes> = Vec::new();
        let mut i: usize = 0;
        proof {
            assert(self.shards().take(0) =~= Seq::<Seq<(int, Seq<AttrV>)>>::empty());
            assert(rows_view(out@) =~= table_select(
                self.shards().take(0),
                attr_pos as int,
                comparison@,
                selected@,
            ));
        }
        while i < 256
            invariant
                i <= 256,
                self.wf(),
                attr_pos < self.width_spec(),
                forall|j: int|
                    0 <= j < selected@.len() ==> (#[trigger] selected@[j]) < self.width_spec(),
                rows_view(out@) == table_select(
                    self.shards().take(i as int),
                    attr_pos as int,
                    comparison@,
                    selected@,
                ),
            decreases 256 - i,
        {
            let ghost prev = table_select(
                self.shards().take(i as int),
                attr_pos as int,
                comparison@,
                selected@,
            );
            proof {
                let cv = self.chunks@[i as int]@;
                assert(cv == self.shards()[i as int]);
                assert(rows_wide(cv, self.width_spec()));
                assert forall|k: int| 0 <= k < cv.len() implies attr_pos
                    < (#[trigger] cv[k]).1.len() by {}
            }
            let mut part = self.chunks[i].select_by_comparison(attr_pos, comparison, selected);
            let ghost part_rows = rows_view(part@);
            out.append(&mut part);
            proof {
                assert(self.shards().take(i + 1).drop_last() =~= self.shards().take(i as int));
                assert(self.shards().take(i + 1).last() == self.shards()[i as int]);
                assert(rows_view(out@) =~= prev + part_rows);
            }
            i = i + 1;
        }
        proof {
            assert(self.shards().take(256) =~= self.shards());
        }
        out
    }

    /// Removes, in every shard, the rows matching `comparison` at
    /// `attr_pos`.
    pub fn delete(&mut self, attr_pos: usize, comparison: &Comparison)
        requires
            old(self).wf(),
            attr_pos < old(self).width_spec(),
        ensures
            final(self).wf(),
            final(self).counter_spec() == old(self).counter_spec(),
            final(self).width_spec() == old(self).width_spec(),
            final(self).shards() == Seq::new(
                shard_count() as nat,
                |i: int| chunk_retain(old(self).shards()[i], attr_pos as int, comparison@),
            ),
            final(self).filenames() == old(self).filenames(),
    {
        let mut i: usize = 0;
        while i < 256
            invariant
                i <= 256,
                self.shards().len() == shard_count(),
                self.counter_spec() == old(self).counter_spec(),
                self.width_spec() == old(self).width_spec(),
                attr_pos < old(self).width_spec(),
                old(self).wf(),
                forall|j: int|
                    i <= j < shard_count() ==> (#[trigger] self.shards()[j]) == old(
                        self,
                    ).shards()[j],
                forall|j: int|
                    0 <= j < i ==> (#[trigger] self.shards()[j]) == chunk_retain(
                        old(self).shards()[j],
                        attr_pos as int,
                        comparison@,
                    ),
                self.filenames() == old(self).filenames(),
            decreases 256 - i,
        {
            let ghost shards_before = self.shards();
            let ghost files_before = self.filenames();
            proof {
                let cv = self.chunks@[i as int]@;
                assert(cv == self.shards()[i as int]);
                assert(cv == old(self).shards()[i as int]);
                assert(rows_wide(cv, old(self).width_spec()));
                assert forall|k: int| 0 <= k < cv.len() implies attr_pos
                    < (#[trigger] cv[k]).1.len() by {}
            }
            let chunk = &mut self.chunks[i];
            chunk.delete_by_comparison(attr_pos, comparison);
            proof {
                assert(self.shards() =~= shards_before.update(
                    i as int,
                    chunk_retain(shards_before[i as int], attr_pos as int, comparison@),
                ));
                assert(self.filenames() =~= files_before);
            }
            i = i + 1;
        }
        proof {
            assert(self.shards() =~= Seq::new(
                shard_count() as nat,
                |i: int| chunk_retain(old(self).shards()[i], attr_pos as int, comparison@),
            ));
            let ghost ns = self.shards();
            assert forall|i0: int, j: int|
                0 <= i0 < shard_count() && 0 <= j < ns[i0].len() implies {
                let k = (#[trigger] ns[i0][j]).0;
                0 <= k < self.counter_spec() && k % 256 == i0
            } by {
                lemma_retain_props(old(self).shards()[i0], attr_pos as int, comparison@);
                let m = choose|m: int|
                    0 <= m < old(self).shards()[i0].len() && #[trigger] ns[i0][j] == old(
                        self,
                    ).shards()[i0][m];
                assert(old(self).shards()[i0][m].0 % 256 == i0);
            }
            assert forall|i0: int| 0 <= i0 < shard_count() implies keys_sorted(
                #[trigger] ns[i0],
            ) && rows_wide(ns[i0], self.width_spec()) by {
                lemma_retain_props(old(self).shards()[i0], attr_pos as int, comparison@);
                assert forall|j: int| 0 <= j < ns[i0].len() implies (#[trigger] ns[i0][j]).1.len()
                    == self.width_spec() by {
                    let m = choose|m: int|
                        0 <= m < old(self).shards()[i0].len() && #[trigger] ns[i0][j] == old(
                            self,
                        ).shards()[i0][m];
                }
            }
        }
    }

    /// The row-id counter: the next id an insert is given.
    pub fn counter_value(&self) -> (r: i64)
        ensures
            r as int == self.counter_spec(),
    {
        self.counter
    }

    /// Runs one shard's release decision.  Over budget, the shard's records
    /// leave memory as bytes for the caller to write to the returned file;
    /// under budget, a stale spill file is handed back for deletion;
    /// otherwise nothing changes.
    pub fn release_shard(&mut self, shard: usize, over_budget: bool, fresh_name: String) -> (r:
        ShardRelease)
        requires
            old(self).wf(),
            shard < 256,
        ensures
            final(self).wf(),
            final(self).counter_spec() == old(self).counter_spec(),
            final(self).width_spec() == old(self).width_spec(),
            match r {
                ShardRelease::SpillFile(name, bytes) => {
                    &&& over_budget
                    &&& bytes@ == crate::codec::enc_records(old(self).shards()[shard as int])
                    &&& crate::codec::dec_records(bytes@) == Some(old(self).shards()[shard as int])
                    &&& final(self).shards() == old(self).shards().update(
                        shard as int,
                        Seq::<(int, Seq<AttrV>)>::empty(),
                    )
                    &&& final(self).filenames() == old(self).filenames().update(
                        shard as int,
                        Some(name@),
                    )
                    &&& name@ == match old(self).filenames()[shard as int] {
                        Some(n) => n,
                        None => fresh_name@,
                    }
                },
                ShardRelease::DeleteFile(name) => {
                    &&& !over_budget
                    &&& old(self).filenames()[shard as int] == Some(name@)
                    &&& final(self).shards() == old(self).shards()
                    &&& final(self).filenames() == old(self).filenames().update(
                        shard as int,
                        None::<Seq<char>>,
                    )
                },
                ShardRelease::Keep => {
                    &&& !over_budget
                    &&& old(self).filenames()[shard as int] is None
                    &&& final(self).shards() == old(self).shards()
                    &&& final(self).filenames() == old(self).filenames()
                },
            },
    {
        let ghost old_shards = self.shards();
        let ghost old_files = self.filenames();
        let c = &mut self.chunks[shard];
        match c.release_action(over_budget) {
            crate::shard::ReleaseAction::SaveOnDisk => {
                let bytes = c.save_on_disk(fresh_name);
                let name = match c.filename() {
                    Some(n) => n.clone(),
                    None => {
                        proof {
                            assert(false);
                        }
                        String::new()
                    },
                };
                proof {
                    assert(self.shards() =~= old_shards.update(
                        shard as int,
                        Seq::<(int, Seq<AttrV>)>::empty(),
                    ));
                    assert(self.filenames() =~= old_files.update(shard as int, Some(name@)));
                    assert(keys_sorted(Seq::<(int, Seq<AttrV>)>::empty()));
                }
                ShardRelease::SpillFile(name, bytes)
            },
            crate::shard::ReleaseAction::ClearFromDisk => {
                let name = c.clear_from_disk();
                proof {
                    assert(self.shards() =~= old_shards);
                    assert(self.filenames() =~= old_files.update(shard as int, None::<Seq<char>>));
                }
                match name {
                    Some(n) => ShardRelease::DeleteFile(n),
                    None => {
                        proof {
                            assert(false);
                        }
                        ShardRelease::Keep
                    },
                }
            },
            crate::shard::ReleaseAction::Keep => {
                proof {
                    assert(self.shards() =~= old_shards);
                    assert(self.filenames() =~= old_files);
                }
                ShardRelease::Keep
            },
        }
    }

    /// Reads one shard back from spill-file bytes.  The call succeeds
    /// exactly when the bytes spell a whole shard whose contents this table
    /// may hold: keys sorted, below the counter and belonging to this
    /// shard, rows of the table's width and keyed by their id columns.
    pub fn load_shard(&mut self, shard: usize, bytes: &Vec<u8>, id_cols: &Vec<usize>) -> (r:
        Result<(), ()>)
        requires
            old(self).wf(),
            shard < 256,
            forall|q: int| 0 <= q < id_cols@.len() ==> (#[trigger] id_cols@[q]) < old(
                self,
            ).width_spec(),
        ensures
            final(self).wf(),
            final(self).counter_spec() == old(self).counter_spec(),
            final(self).width_spec() == old(self).width_spec(),
            final(self).filenames() == old(self).filenames(),
            r is Ok <==> (crate::codec::dec_records(bytes@) matches Some(v) && shard_content_ok(
                v,
                old(self).width_spec(),
                id_cols@,
                shard as int,
                old(self).counter_spec(),
            )),
            match r {
                Ok(_) => final(self).shards() == old(self).shards().update(
                    shard as int,
                    crate::codec::dec_records(bytes@).unwrap(),
                ),
                Err(_) => final(self).shards() == old(self).shards(),
            },
    {
        let decoded = match crate::codec::decode_records(bytes) {
            Some(v) => v,
            None => {
                proof {
                    assert(self.shards() =~= old(self).shards());
                    assert(self.filenames() =~= old(self).filenames());
                }
                return Err(());
            },
        };
        if !check_shard_content(&decoded, self.width, id_cols, shard, self.counter) {
            proof {
                assert(self.shards() =~= old(self).shards());
                assert(self.filenames() =~= old(self).filenames());
            }
            return Err(());
        }
        let ghost old_shards = self.shards();
        let ghost old_files = self.filenames();
        let c = &mut self.chunks[shard];
        c.set_records(decoded);
        proof {
            let ghost v = crate::codec::dec_records(bytes@).unwrap();
            assert(self.shards() =~= old_shards.update(shard as int, v));
            assert(self.filenames() =~= old_files);
            let ghost ns = self.shards();
            assert forall|i0: int, j: int|
                0 <= i0 < shard_count() && 0 <= j < ns[i0].len() implies {
                let k = (#[trigger] ns[i0][j]).0;
                0 <= k < self.counter_spec() && k % 256 == i0
            } by {
                if i0 != shard as int {
                    assert(ns[i0][j] == old_shards[i0][j]);
                }
            }
            assert forall|i0: int| 0 <= i0 < shard_count() implies keys_sorted(
                #[trigger] ns[i0],
            ) && rows_wide(ns[i0], self.width_spec()) by {
                if i0 != shard as int {
                    assert(ns[i0] == old_shards[i0]);
                }
            }
        }
        Ok(())
    }

    /// The spill-file names of all shards, in shard order, for the caller
    /// that owns the files.
    pub fn shard_filenames(&self) -> (r: Vec<Option<String>>)
        requires
            self.wf(),
        ensures
            r@.len() == shard_count(),
            forall|i: int|
                0 <= i < shard_count() ==> match #[trigger] r@[i] {
                    Some(n) => self.filenames()[i] == Some(n@),
                    None => self.filenames()[i] is None,
                },
    {
        let mut r: Vec<Option<String>> = Vec::new();
        let mut i: usize = 0;
        while i < 256
            invariant
                i <= 256,
                self.wf(),
                self.shards().len() == shard_count(),
                r@.len() == i,
                forall|j: int|
                    0 <= j < i ==> match #[trigger] r@[j] {
                        Some(n) => self.filenames()[j] == Some(n@),
                        None => self.filenames()[j] is None,
                    },
            decreases 256 - i,
        {
            let name = match self.chunks[i].filename() {
                Some(n) => Some(n.clone()),
                None => None,
            };
            proof {
                assert(self.filenames()[i as int] == self.chunks@[i as int].filename_spec());
            }
            r.push(name);
            i = i + 1;
        }
        r
    }
}

/// What one shard's release decision asks the file-owning caller to do.
#[derive(Debug)]
pub enum ShardRelease {
    SpillFile(String, Vec<u8>),
    DeleteFile(String),
    Keep,
}

/// Contents one shard of a table may hold: keys strictly ascending,
/// nonnegative, below the counter and hashing to this shard; rows of the
/// table's width, keyed by the given id columns.
pub open spec fn shard_content_ok(
    rv: Seq<(int, Seq<AttrV>)>,
    width: int,
    id_cols: Seq<usize>,
    shard: int,
    counter: int,
) -> bool {
    &&& keys_sorted(rv)
    &&& rows_wide(rv, width)
    &&& forall|j: int|
        0 <= j < rv.len() ==> 0 <= (#[trigger] rv[j]).0 < counter && rv[j].0 % 256 == shard
    &&& forall|j: int, q: int|
        #![trigger rv[j], id_cols[q]]
        0 <= j < rv.len() && 0 <= q < id_cols.len() ==> rv[j].1[id_cols[q] as int] == AttrV::Id(
            rv[j].0,
        )
}

/// Whether decoded records satisfy [`shard_content_ok`].
fn check_shard_content(
    v: &Vec<(i64, DataAttributes)>,
    width: usize,
    id_cols: &Vec<usize>,
    shard: usize,
    counter: i64,
) -> (r: bool)
    requires
        shard < 256,
        forall|q: int| 0 <= q < id_cols@.len() ==> (#[trigger] id_cols@[q]) < width,
    ensures
        r == shard_content_ok(
            crate::codec::records_view(v@),
            width as int,
            id_cols@,
            shard as int,
            counter as int,
        ),
{
    let ghost rv = crate::codec::records_view(v@);
    let n = v.len();
    let mut i: usize = 0;
    while i < n
        invariant
            i <= n,
            n == rv.len(),
            shard < 256,
            rv == crate::codec::records_view(v@),
            forall|q: int| 0 <= q < id_cols@.len() ==> (#[trigger] id_cols@[q]) < width,
            forall|k: int| 0 <= k < i - 1 ==> (#[trigger] rv[k]).0 < rv[k + 1].0,
            forall|k: int| 0 <= k < i ==> (#[trigger] rv[k]).1.len() == width,
            forall|k: int|
                0 <= k < i ==> 0 <= (#[trigger] rv[k]).0 < counter as int && rv[k].0 % 256
                    == shard as int,
            forall|k: int, q: int|
                #![trigger rv[k], id_cols@[q]]
                0 <= k < i && 0 <= q < id_cols@.len() ==> rv[k].1[id_cols@[q] as int] == AttrV::Id(
                    rv[k].0,
                ),
        decreases n - i,
    {
        let key = v[i].0;
        if v[i].1.attributes.len() != width {
            proof {
                assert(rv[i as int].1.len() != width);
            }
            return false;
        }
        if i > 0 && v[i - 1].0 >= key {
            proof {
                assert(rv[i - 1].0 >= rv[i as int].0);
            }
            return false;
        }
        if key < 0 || key >= counter || hash_id(key) != shard {
            proof {
                assert(!(0 <= rv[i as int].0 < counter as int && rv[i as int].0 % 256
                    == shard as int));
            }
            return false;
        }
        proof {
            assert(key >= 0);
            assert((key as u64) == key as int);
            assert(hash_spec(key) == (key as int) % 256);
        }
        let mut q: usize = 0;
        while q < id_cols.len()
            invariant
                q <= id_cols@.len(),
                i < n,
                n == rv.len(),
                rv == crate::codec::records_view(v@),
                forall|q0: int| 0 <= q0 < id_cols@.len() ==> (#[trigger] id_cols@[q0]) < width,
                rv[i as int].1.len() == width,
                key == v@[i as int].0,
                forall|q0: int|
                    0 <= q0 < q ==> rv[i as int].1[(#[trigger] id_cols@[q0]) as int] == AttrV::Id(
                        rv[i as int].0,
                    ),
            decreases id_cols@.len() - q,
        {
            let pos = id_cols[q];
            let ok = match &v[i].1.attributes[pos] {
                DataAttribute::Id(x) => *x == key,
                _ => false,
            };
            proof {
                assert(rv[i as int].1[pos as int] == v@[i as int].1.attributes@[pos as int]@);
            }
            if !ok {
                proof {
                    assert(rv[i as int].1[id_cols@[q as int] as int] != AttrV::Id(rv[i as int].0));
                }
                return false;
            }
            q = q + 1;
        }
        i = i + 1;
    }
    proof {
        crate::shard::lemma_adjacent_keys_sorted(rv);
    }
    true
}

} // verus!

//! One shard of a table: rows keyed by row id, kept in ascending key order,
//! together with the page state that tracks a spill file.

use vstd::prelude::*;

use crate::value::{
    clone_row, comp_matches, matches_comparison, project, project_row, rows_view, AttrV, CompV,
    Comparison, DataAttributes,
};

verus! {

/// Keys appear in strictly ascending order.
pub open spec fn keys_sorted(s: Seq<(int, Seq<AttrV>)>) -> bool {
    forall|i: int, j: int| 0 <= i < j < s.len() ==> (#[trigger] s[i]).0 < (#[trigger] s[j]).0
}

/// Every row has exactly `w` columns.
pub open spec fn rows_wide(s: Seq<(int, Seq<AttrV>)>, w: int) -> bool {
    forall|i: int| 0 <= i < s.len() ==> (#[trigger] s[i]).1.len() == w
}

/// The row stored under key `k`, if any.
pub open spec fn find_row(s: Seq<(int, Seq<AttrV>)>, k: int) -> Option<Seq<AttrV>>
    decreases s.len(),
{
    if s.len() == 0 {
        None
    } else if s[0].0 == k {
        Some(s[0].1)
    } else {
        find_row(s.drop_first(), k)
    }
}

/// The projections of the rows of `s` that match `c` at column `pos`,
/// in storage order.
pub open spec fn chunk_select(
    s: Seq<(int, Seq<AttrV>)>,
    pos: int,
    c: CompV,
    sel: Seq<usize>,
) -> Seq<Seq<AttrV>>
    decreases s.len(),
{
    if s.len() == 0 {
        Seq::empty()
    } else {
        let rest = chunk_select(s.drop_last(), pos, c, sel);
        if comp_matches(s.last().1[pos], c) {
            rest.push(project(s.last().1, sel))
        } else {
            rest
        }
    }
}

/// The entries of `s` whose row does not match `c` at column `pos`,
/// in storage order.
pub open spec fn chunk_retain(s: Seq<(int, Seq<AttrV>)>, pos: int, c: CompV) -> Seq<
    (int, Seq<AttrV>),
>
    decreases s.len(),
{
    if s.len() == 0 {
        Seq::empty()
    } else {
        let rest = chunk_retain(s.drop_last(), pos, c);
        if comp_matches(s.last().1[pos], c) {
            rest
        } else {
            rest.push(s.last())
        }
    }
}

/// The entries of `s` whose key is not `k`, in storage order.
pub open spec fn remove_key(s: Seq<(int, Seq<AttrV>)>, k: int) -> Seq<(int, Seq<AttrV>)>
    decreases s.len(),
{
    if s.len() == 0 {
        Seq::empty()
    } else {
        let rest = remove_key(s.drop_last(), k);
        if s.last().0 == k {
            rest
        } else {
            rest.push(s.last())
        }
    }
}

/// Every entry that `chunk_retain` keeps is an entry of the original
/// sequence, and the kept entries stay sorted if the original was.
pub proof fn lemma_retain_props(s: Seq<(int, Seq<AttrV>)>, pos: int, c: CompV)
    ensures
        forall|i: int|
            0 <= i < chunk_retain(s, pos, c).len() ==> exists|j: int|
                0 <= j < s.len() && #[trigger] chunk_retain(s, pos, c)[i] == s[j],
        keys_sorted(s) ==> keys_sorted(chunk_retain(s, pos, c)),
    decreases s.len(),
{
    if s.len() > 0 {
        lemma_retain_props(s.drop_last(), pos, c);
        let r0 = chunk_retain(s.drop_last(), pos, c);
        let r = chunk_retain(s, pos, c);
        assert forall|i: int| 0 <= i < r.len() implies exists|j: int|
            0 <= j < s.len() && #[trigger] r[i] == s[j] by {
            if i < r0.len() {
                let j = choose|j: int| 0 <= j < s.drop_last().len() && #[trigger] r0[i] == s.drop_last()[j];
                assert(r[i] == s[j]);
            } else {
                assert(r[i] == s[s.len() - 1]);
            }
        }
        if keys_sorted(s) {
            assert(keys_sorted(s.drop_last()));
            assert forall|i: int, j: int| 0 <= i < j < r.len() implies (#[trigger] r[i]).0
                < (#[trigger] r[j]).0 by {
                if j < r0.len() {
                } else {
                    assert(r[j] == s.last());
                    let m = choose|m: int| 0 <= m < s.drop_last().len() && #[trigger] r0[i] == s.drop_last()[m];
                    assert(s[m].0 < s.last().0);
                }
            }
        }
    }
}

/// Every entry that `remove_key` keeps is an entry of the original
/// sequence, its key is not the removed one, and the kept entries stay
/// sorted if the original was.
pub proof fn lemma_remove_key_props(s: Seq<(int, Seq<AttrV>)>, k: int)
    ensures
        forall|i: int|
            0 <= i < remove_key(s, k).len() ==> exists|j: int|
                0 <= j < s.len() && #[trigger] remove_key(s, k)[i] == s[j],
        forall|i: int| 0 <= i < remove_key(s, k).len() ==> (#[trigger] remove_key(s, k)[i]).0 != k,
        keys_sorted(s) ==> keys_sorted(remove_key(s, k)),
    decreases s.len(),
{
    if s.len() > 0 {
        lemma_remove_key_props(s.drop_last(), k);
        let r0 = remove_key(s.drop_last(), k);
        let r = remove_key(s, k);
        assert forall|i: int| 0 <= i < r.len() implies (exists|j: int|
            0 <= j < s.len() && #[trigger] r[i] == s[j]) && r[i].0 != k by {
            if i < r0.len() {
                let j = choose|j: int| 0 <= j < s.drop_last().len() && #[trigger] r0[i] == s.drop_last()[j];
                assert(r[i] == s[j]);
            } else {
                assert(r[i] == s[s.len() - 1]);
            }
        }
        if keys_sorted(s) {
            assert(keys_sorted(s.drop_last()));
            assert forall|i: int, j: int| 0 <= i < j < r.len() implies (#[trigger] r[i]).0
                < (#[trigger] r[j]).0 by {
                if j < r0.len() {
                } else {
                    assert(r[j] == s.last());
                    let m = choose|m: int| 0 <= m < s.drop_last().len() && #[trigger] r0[i] == s.drop_last()[m];
                    assert(s[m].0 < s.last().0);
                }
            }
        }
    }
}

/// If no key in the first `i` entries is `k`, the lookup is decided by the
/// rest of the sequence.
pub proof fn lemma_find_row_skip(s: Seq<(int, Seq<AttrV>)>, k: int, i: int)
    requires
        0 <= i <= s.len(),
        forall|j: int| 0 <= j < i ==> (#[trigger] s[j]).0 != k,
    ensures
        find_row(s, k) == find_row(s.skip(i), k),
    decreases i,
{
    if i == 0 {
        assert(s.skip(0) =~= s);
    } else {
        assert(s[0].0 != k);
        lemma_find_row_skip(s.drop_first(), k, i - 1);
        assert(s.drop_first().skip(i - 1) =~= s.skip(i));
    }
}

/// What to do with a shard page when its holder lets go of it.
#[derive(Debug, Clone, Copy, PartialEq, Eq, Structural)]
pub enum ReleaseAction {
    SaveOnDisk,
    ClearFromDisk,
    Keep,
}

/// Whether decoded records make a well-formed shard of the given width:
/// keys strictly ascending and every row `width` columns wide.
fn check_records(v: &Vec<(i64, DataAttributes)>, width: usize) -> (r: bool)
    ensures
        r == (keys_sorted(crate::codec::records_view(v@)) && rows_wide(
            crate::codec::records_view(v@),
            width as int,
        )),
{
    let ghost rv = crate::codec::records_view(v@);
    let n = v.len();
    let mut i: usize = 0;
    while i < n
        invariant
            i <= n,
            n == rv.len(),
            rv == crate::codec::records_view(v@),
            forall|k: int| 0 <= k < i - 1 ==> (#[trigger] rv[k]).0 < rv[k + 1].0,
            forall|k: int| 0 <= k < i ==> (#[trigger] rv[k]).1.len() == width,
        decreases n - i,
    {
        if v[i].1.attributes.len() != width {
            proof {
                assert(rv[i as int].1.len() != width);
            }
            return false;
        }
        if i > 0 && v[i - 1].0 >= v[i].0 {
            proof {
                assert(rv[i - 1].0 >= rv[i as int].0);
            }
            return false;
        }
        i = i + 1;
    }
    proof {
        lemma_adjacent_keys_sorted(rv);
    }
    true
}

proof fn lemma_key_chain(s: Seq<(int, Seq<AttrV>)>, i: int, j: int)
    requires
        forall|k: int| 0 <= k < s.len() - 1 ==> (#[trigger] s[k]).0 < s[k + 1].0,
        0 <= i < j < s.len(),
    ensures
        s[i].0 < s[j].0,
    decreases j - i,
{
    if j > i + 1 {
        lemma_key_chain(s, i, j - 1);
    }
}

pub proof fn lemma_adjacent_keys_sorted(s: Seq<(int, Seq<AttrV>)>)
    requires
        forall|k: int| 0 <= k < s.len() - 1 ==> (#[trigger] s[k]).0 < s[k + 1].0,
    ensures
        keys_sorted(s),
{
    assert forall|i: int, j: int| 0 <= i < j < s.len() implies (#[trigger] s[i]).0
        < (#[trigger] s[j]).0 by {
        lemma_key_chain(s, i, j);
    }
}

/// Abstraction over one shard's records, present in memory and possibly
/// backed by a spill file that the caller manages.
#[derive(Debug)]
pub struct DataAbstraction {
    records: Vec<(i64, DataAttributes)>,
    filename: Option<String>,
}

impl View for DataAbstraction {
    type V = Seq<(int, Seq<AttrV>)>;

    closed spec fn view(&self) -> Seq<(int, Seq<AttrV>)> {
        Seq::new(
            self.records@.len(),
            |i: int| (self.records@[i].0 as int, self.records@[i].1@),
        )
    }
}

impl DataAbstraction {
    /// The spill file this shard owns, if any.
    pub closed spec fn filename_spec(&self) -> Option<Seq<char>> {
        match self.filename {
            Some(f) => Some(f@),
            None => None,
        }
    }

    pub open spec fn wf(&self) -> bool {
        keys_sorted(self@)
    }

    pub fn new() -> (r: Self)
        ensures
            r@ == Seq::<(int, Seq<AttrV>)>::empty(),
            r.filename_spec() is None,
    {
        let r = DataAbstraction { records: Vec::new(), filename: None };
        proof {
            assert(r@ =~= Seq::<(int, Seq<AttrV>)>::empty());
        }
        r
    }

    /// If the filename is `None`, the records are only present in memory.
    pub fn in_memory(&self) -> (r: bool)
        ensures
            r == (self.filename_spec() is None),
    {
        self.filename.is_none()
    }

    /// The name of the spill file this shard owns, if any.
    pub fn filename(&self) -> (r: Option<&String>)
        ensures
            match r {
                Some(s) => self.filename_spec() == Some(s@),
                None => self.filename_spec() is None,
            },
    {
        self.filename.as_ref()
    }

    /// Stores `data` under key `id`, at the end of the shard.
    pub fn add(&mut self, id: i64, data: DataAttributes)
        ensures
            final(self)@ == old(self)@.push((id as int, data@)),
            final(self).filename_spec() == old(self).filename_spec(),
    {
        self.records.push((id, data));
        proof {
            assert(self@ =~= old(self)@.push((id as int, data@)));
        }
    }

    /// Looks a key up; returns the projection of its row, or nothing.
    pub fn get_by_id(&self, id: i64, selected: &Vec<usize>) -> (r: Vec<DataAttributes>)
        requires
            forall|i: int, j: int|
                0 <= i < self@.len() && 0 <= j < selected@.len() ==> (#[trigger] selected@[j])
                    < (#[trigger] self@[i]).1.len(),
        ensures
            rows_view(r@) == match find_row(self@, id as int) {
                Some(row) => seq![project(row, selected@)],
                None => Seq::<Seq<AttrV>>::empty(),
            },
    {
        let n = self.records.len();
        let mut i: usize = 0;
        while i < n
            invariant
                i <= n,
                n == self@.len(),
                forall|i0: int, j: int|
                    0 <= i0 < self@.len() && 0 <= j < selected@.len() ==> (#[trigger] selected@[j])
                        < (#[trigger] self@[i0]).1.len(),
                forall|j: int| 0 <= j < i ==> (#[trigger] self@[j]).0 != id as int,
            decreases n - i,
        {
            if self.records[i].0 == id {
                proof {
                    lemma_find_row_skip(self@, id as int, i as int);
                    assert(self@.skip(i as int)[0] == self@[i as int]);
                }
                let row = project_row(&self.records[i].1, selected);
                let mut out: Vec<DataAttributes> = Vec::new();
                out.push(row);
                proof {
                    assert(rows_view(out@) =~= seq![project(self@[i as int].1, selected@)]);
                }
                return out;
            }
            i = i + 1;
        }
        proof {
            lemma_find_row_skip(self@, id as int, n as int);
            assert(self@.skip(n as int) =~= Seq::<(int, Seq<AttrV>)>::empty());
        }
        let out: Vec<DataAttributes> = Vec::new();
        proof {
            assert(rows_view(out@) =~= Seq::<Seq<AttrV>>::empty());
        }
        out
    }

    /// The projections of the rows matching `comparison` at `attr_pos`,
    /// in storage order.
    pub fn select_by_comparison(
        &self,
        attr_pos: usize,
        comparison: &Comparison,
        selected: &Vec<usize>,
    ) -> (r: Vec<DataAttributes>)
        requires
            forall|i: int|
                0 <= i < self@.len() ==> attr_pos < (#[trigger] self@[i]).1.len(),
            forall|i: int, j: int|
                0 <= i < self@.len() && 0 <= j < selected@.len() ==> (#[trigger] selected@[j])
                    < (#[trigger] self@[i]).1.len(),
        ensures
            rows_view(r@) == chunk_select(self@, attr_pos as int, comparison@, selected@),
    {
        let n = self.records.len();
        let mut out: Vec<DataAttributes> = Vec::new();
        let mut i: usize = 0;
        proof {
            assert(self@.take(0) =~= Seq::<(int, Seq<AttrV>)>::empty());
            assert(rows_view(out@) =~= chunk_select(
                self@.take(0),
                attr_pos as int,
                comparison@,
                selected@,
            ));
        }
        while i < n
            invariant
                i <= n,
                n == self@.len(),
                forall|i0: int|
                    0 <= i0 < self@.len() ==> attr_pos < (#[trigger] self@[i0]).1.len(),
                forall|i0: int, j: int|
                    0 <= i0 < self@.len() && 0 <= j < selected@.len() ==> (#[trigger] selected@[j])
                        < (#[trigger] self@[i0]).1.len(),
                rows_view(out@) == chunk_select(
                    self@.take(i as int),
                    attr_pos as int,
                    comparison@,
                    selected@,
                ),
            decreases n - i,
        {
            let ghost prev = chunk_select(self@.take(i as int), attr_pos as int, comparison@, selected@);
            proof {
                assert(self@.take(i + 1).drop_last() =~= self@.take(i as int));
                assert(self@.take(i + 1).last() == self@[i as int]);
            }
            if matches_comparison(&self.records[i].1.attributes[attr_pos], comparison) {
                let row = project_row(&self.records[i].1, selected);
                out.push(row);
                proof {
                    assert(rows_view(out@) =~= prev.push(project(self@[i as int].1, selected@)));
                }
            }
            i = i + 1;
        }
        proof {
            assert(self@.take(n as int) =~= self@);
        }
        out
    }

    /// Removes every row matching `comparison` at `attr_pos`.
    pub fn delete_by_comparison(&mut self, attr_pos: usize, comparison: &Comparison)
        requires
            forall|i: int|
                0 <= i < old(self)@.len() ==> attr_pos < (#[trigger] old(self)@[i]).1.len(),
        ensures
            final(self)@ == chunk_retain(old(self)@, attr_pos as int, comparison@),
            final(self).filename_spec() == old(self).filename_spec(),
    {
        let n = self.records.len();
        let mut out: Vec<(i64, DataAttributes)> = Vec::new();
        let ghost view0 = self@;
        let mut i: usize = 0;
        proof {
            assert(view0.take(0) =~= Seq::<(int, Seq<AttrV>)>::empty());
            assert(Seq::new(out@.len(), |k: int| (out@[k].0 as int, out@[k].1@)) =~= chunk_retain(
                view0.take(0),
                attr_pos as int,
                comparison@,
            ));
        }
        while i < n
            invariant
                i <= n,
                n == view0.len(),
                view0 == self@,
                forall|i0: int|
                    0 <= i0 < view0.len() ==> attr_pos < (#[trigger] view0[i0]).1.len(),
                Seq::new(out@.len(), |k: int| (out@[k].0 as int, out@[k].1@)) == chunk_retain(
                    view0.take(i as int),
                    attr_pos as int,
                    comparison@,
                ),
            decreases n - i,
        {
            let ghost prev = chunk_retain(view0.take(i as int), attr_pos as int, comparison@);
            proof {
                assert(view0.take(i + 1).drop_last() =~= view0.take(i as int));
                assert(view0.take(i + 1).last() == view0[i as int]);
            }
            if !matches_comparison(&self.records[i].1.attributes[attr_pos], comparison) {
                let key = self.records[i].0;
                let row = clone_row(&self.records[i].1);
                out.push((key, row));
                proof {
                    assert(Seq::new(out@.len(), |k: int| (out@[k].0 as int, out@[k].1@))
                        =~= prev.push(view0[i as int]));
                }
            }
            i = i + 1;
        }
        proof {
            assert(view0.take(n as int) =~= view0);
        }
        self.records = out;
    }

    /// The residency decision at release time: over budget, the records go
    /// to disk; under budget, a leftover spill file is deleted and the
    /// records stay in memory.
    pub fn release_action(&self, over_budget: bool) -> (r: ReleaseAction)
        ensures
            r == if over_budget {
                ReleaseAction::SaveOnDisk
            } else if !(self.filename_spec() is None) {
                ReleaseAction::ClearFromDisk
            } else {
                ReleaseAction::Keep
            },
    {
        if over_budget {
            ReleaseAction::SaveOnDisk
        } else if !self.in_memory() {
            ReleaseAction::ClearFromDisk
        } else {
            ReleaseAction::Keep
        }
    }

    /// Serializes the records for the spill file and empties the memory;
    /// the caller writes the bytes to the file this shard then owns.  The
    /// fresh name is adopted only if the shard owns no file yet.
    pub fn save_on_disk(&mut self, fresh_name: String) -> (b: Vec<u8>)
        ensures
            b@ == crate::codec::enc_records(old(self)@),
            crate::codec::dec_records(b@) == Some(old(self)@),
            final(self)@ == Seq::<(int, Seq<AttrV>)>::empty(),
            final(self).filename_spec() == if old(self).filename_spec() is None {
                Some(fresh_name@)
            } else {
                old(self).filename_spec()
            },
    {
        proof {
            assert(self@ =~= crate::codec::records_view(self.records@));
        }
        let b = crate::codec::encode_records(&self.records);
        if self.filename.is_none() {
            self.filename = Some(fresh_name);
        }
        self.records = Vec::new();
        proof {
            assert(self@ =~= Seq::<(int, Seq<AttrV>)>::empty());
        }
        b
    }

    /// Reads records back from the bytes of this shard's spill file.  The
    /// call succeeds exactly when the bytes spell a whole shard, sorted and
    /// of the given row width — in particular on anything `save_on_disk`
    /// wrote; bad bytes are refused and nothing changes.
    pub fn load_from_disk(&mut self, bytes: &Vec<u8>, width: usize) -> (r: Result<(), ()>)
        ensures
            final(self).filename_spec() == old(self).filename_spec(),
            r is Ok <==> (crate::codec::dec_records(bytes@) matches Some(v) && keys_sorted(v)
                && rows_wide(v, width as int)),
            match r {
                Ok(_) => crate::codec::dec_records(bytes@) is Some && final(self)@
                    == crate::codec::dec_records(bytes@).unwrap() && keys_sorted(final(self)@)
                    && rows_wide(final(self)@, width as int),
                Err(_) => final(self)@ == old(self)@,
            },
    {
        match crate::codec::decode_records(bytes) {
            None => Err(()),
            Some(v) => {
                if check_records(&v, width) {
                    self.records = v;
                    proof {
                        assert(self@ =~= crate::codec::records_view(self.records@));
                    }
                    Ok(())
                } else {
                    Err(())
                }
            },
        }
    }

    /// Installs records wholesale, for a validated reload.
    pub(crate) fn set_records(&mut self, v: Vec<(i64, DataAttributes)>)
        ensures
            final(self)@ == crate::codec::records_view(v@),
            final(self).filename_spec() == old(self).filename_spec(),
    {
        self.records = v;
        proof {
            assert(self@ =~= crate::codec::records_view(self.records@));
        }
    }

    /// Forgets the spill file and answers its name, for the caller to
    /// delete; the records stay in memory.
    pub fn clear_from_disk(&mut self) -> (name: Option<String>)
        ensures
            final(self).filename_spec() is None,
            final(self)@ == old(self)@,
            match name {
                Some(n) => old(self).filename_spec() == Some(n@),
                None => old(self).filename_spec() is None,
            },
    {
        let old_name = match &self.filename {
            Some(s) => Some(s.clone()),
            None => None,
        };
        self.filename = None;
        old_name
    }

    /// Removes the row with key `id`, if present.
    pub fn delete_by_id(&mut self, id: i64)
        ensures
            final(self)@ == remove_key(old(self)@, id as int),
            final(self).filename_spec() == old(self).filename_spec(),
    {
        let n = self.records.len();
        let mut out: Vec<(i64, DataAttributes)> = Vec::new();
        let ghost view0 = self@;
        let mut i: usize = 0;
        proof {
            assert(view0.take(0) =~= Seq::<(int, Seq<AttrV>)>::empty());
            assert(Seq::new(out@.len(), |k: int| (out@[k].0 as int, out@[k].1@)) =~= remove_key(
                view0.take(0),
                id as int,
            ));
        }
        while i < n
            invariant
                i <= n,
                n == view0.len(),
                view0 == self@,
                Seq::new(out@.len(), |k: int| (out@[k].0 as int, out@[k].1@)) == remove_key(
                    view0.take(i as int),
                    id as int,
                ),
            decreases n - i,
        {
            let ghost prev = remove_key(view0.take(i as int), id as int);
            proof {
                assert(view0.take(i + 1).drop_last() =~= view0.take(i as int));
                assert(view0.take(i + 1).last() == view0[i as int]);
            }
            if self.records[i].0 != id {
                let key = self.records[i].0;
                let row = clone_row(&self.records[i].1);
                out.push((key, row));
                proof {
                    assert(Seq::new(out@.len(), |k: int| (out@[k].0 as int, out@[k].1@))
                        =~= prev.push(view0[i as int]));
                }
            }
            i = i + 1;
        }
        proof {
            assert(view0.take(n as int) =~= view0);
        }
        self.records = out;
    }
}

} // verus!

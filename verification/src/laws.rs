//! Laws of the storage engine, stated over the table model and proved once
//! and for all.

use vstd::prelude::*;

use crate::shard::{chunk_retain, chunk_select, find_row, remove_key};
use crate::table::{subst_null_id, table_select, table_wf, TableV};
use crate::value::{comp_matches, project, AttrV, CompV};

verus! {

/// The table after one insert of `row`: the row, with `NullId` slots
/// replaced by the assigned id, lands at the end of shard `id mod 256`, and
/// the counter moves up by one.  This is exactly the table component of
/// `Database::insert`'s postcondition.
pub open spec fn table_after_insert(t: TableV, row: Seq<AttrV>) -> TableV {
    TableV {
        shards: t.shards.update(
            t.counter % 256,
            t.shards[t.counter % 256].push((t.counter, subst_null_id(row, t.counter))),
        ),
        counter: t.counter + 1,
        width: t.width,
    }
}

/// The ids handed out by inserting `rows`, one after the other.
pub open spec fn insert_ids(t: TableV, rows: Seq<Seq<AttrV>>) -> Seq<int>
    decreases rows.len(),
{
    if rows.len() == 0 {
        Seq::empty()
    } else {
        seq![t.counter] + insert_ids(table_after_insert(t, rows[0]), rows.drop_first())
    }
}

/// Law: any sequence of inserts is answered with consecutive ids, starting
/// at the table's counter; on a fresh table these are 0, 1, ..., n-1, a
/// strictly increasing sequence.
pub proof fn lemma_insert_ids_consecutive(t: TableV, rows: Seq<Seq<AttrV>>)
    ensures
        insert_ids(t, rows) == Seq::new(rows.len(), |i: int| t.counter + i),
        forall|i: int, j: int|
            0 <= i < j < rows.len() ==> insert_ids(t, rows)[i] < insert_ids(t, rows)[j],
    decreases rows.len(),
{
    if rows.len() == 0 {
        assert(insert_ids(t, rows) =~= Seq::new(rows.len(), |i: int| t.counter + i));
    } else {
        let t2 = table_after_insert(t, rows[0]);
        lemma_insert_ids_consecutive(t2, rows.drop_first());
        assert(insert_ids(t, rows) =~= Seq::new(rows.len(), |i: int| t.counter + i));
    }
}

/// Looking a key up after appending an entry: the old contents win, then
/// the new entry answers for its own key.
pub proof fn lemma_find_row_push(s: Seq<(int, Seq<AttrV>)>, e: (int, Seq<AttrV>), k: int)
    ensures
        find_row(s.push(e), k) == match find_row(s, k) {
            Some(r) => Some(r),
            None => if e.0 == k {
                Some(e.1)
            } else {
                None::<Seq<AttrV>>
            },
        },
    decreases s.len(),
{
    if s.len() == 0 {
        assert(s.push(e)[0] == e);
        assert(s.push(e).drop_first() =~= Seq::<(int, Seq<AttrV>)>::empty());
        assert(find_row(s, k) is None);
        if e.0 != k {
            assert(find_row(s.push(e).drop_first(), k) is None);
        }
    } else {
        assert(s.push(e)[0] == s[0]);
        assert(s.push(e).drop_first() =~= s.drop_first().push(e));
        lemma_find_row_push(s.drop_first(), e, k);
        assert(find_row(s.push(e), k) == if s[0].0 == k {
            Some(s[0].1)
        } else {
            find_row(s.drop_first().push(e), k)
        });
        assert(find_row(s, k) == if s[0].0 == k {
            Some(s[0].1)
        } else {
            find_row(s.drop_first(), k)
        });
    }
}

/// A key bounded away from every stored key is absent.
pub proof fn lemma_find_row_absent(s: Seq<(int, Seq<AttrV>)>, k: int)
    requires
        forall|i: int| 0 <= i < s.len() ==> (#[trigger] s[i]).0 != k,
    ensures
        find_row(s, k) is None,
    decreases s.len(),
{
    if s.len() > 0 {
        lemma_find_row_absent(s.drop_first(), k);
    }
}

/// Law: the projection to every column, in schema order, is the row
/// itself.
pub proof fn lemma_project_all(row: Seq<AttrV>)
    requires
        row.len() <= usize::MAX,
    ensures
        project(row, Seq::new(row.len(), |i: int| i as usize)) == row,
{
    assert(project(row, Seq::new(row.len(), |i: int| i as usize)) =~= row);
}

/// Law: right after an insert, looking the assigned id up in its shard
/// yields exactly the inserted row, with `NullId` slots replaced by the id.
pub proof fn lemma_select_after_insert(t: TableV, row: Seq<AttrV>)
    requires
        table_wf(t),
    ensures
        ({
            let k = t.counter;
            let t2 = table_after_insert(t, row);
            find_row(t2.shards[k % 256], k) == Some(subst_null_id(row, k))
        }),
{
    let k = t.counter;
    let h = k % 256;
    let s = t.shards[h];
    assert forall|i: int| 0 <= i < s.len() implies (#[trigger] s[i]).0 != k by {
        assert(s[i].0 < t.counter);
    }
    lemma_find_row_absent(s, k);
    lemma_find_row_push(s, (k, subst_null_id(row, k)), k);
}

/// Law: after deleting a key, that key is gone from its shard and every
/// other key still answers as before.
pub proof fn lemma_delete_by_id(s: Seq<(int, Seq<AttrV>)>, k: int)
    ensures
        find_row(remove_key(s, k), k) is None,
        forall|k2: int| k2 != k ==> #[trigger] find_row(remove_key(s, k), k2) == find_row(s, k2),
    decreases s.len(),
{
    if s.len() == 0 {
        assert(remove_key(s, k) =~= Seq::<(int, Seq<AttrV>)>::empty());
    } else {
        let d = s.drop_last();
        lemma_delete_by_id(d, k);
        assert(s =~= d.push(s.last()));
        if s.last().0 == k {
            assert(remove_key(s, k) == remove_key(d, k));
            assert forall|k2: int| k2 != k implies #[trigger] find_row(remove_key(s, k), k2)
                == find_row(s, k2) by {
                lemma_find_row_push(d, s.last(), k2);
            }
        } else {
            assert(remove_key(s, k) == remove_key(d, k).push(s.last()));
            lemma_find_row_push(remove_key(d, k), s.last(), k);
            assert forall|k2: int| k2 != k implies #[trigger] find_row(remove_key(s, k), k2)
                == find_row(s, k2) by {
                lemma_find_row_push(remove_key(d, k), s.last(), k2);
                lemma_find_row_push(d, s.last(), k2);
            }
        }
    }
}

/// The rows of all shards, in shard order and, within a shard, in key
/// order.
pub open spec fn table_rows(shards: Seq<Seq<(int, Seq<AttrV>)>>) -> Seq<Seq<AttrV>>
    decreases shards.len(),
{
    if shards.len() == 0 {
        Seq::empty()
    } else {
        table_rows(shards.drop_last()) + shards.last().map_values(|p: (int, Seq<AttrV>)| p.1)
    }
}

proof fn lemma_chunk_select_all(s: Seq<(int, Seq<AttrV>)>, pos: int, sel: Seq<usize>)
    ensures
        chunk_select(s, pos, CompV::All, sel) == s.map_values(
            |p: (int, Seq<AttrV>)| p.1,
        ).map_values(|r: Seq<AttrV>| project(r, sel)),
    decreases s.len(),
{
    if s.len() == 0 {
        assert(chunk_select(s, pos, CompV::All, sel) =~= s.map_values(
            |p: (int, Seq<AttrV>)| p.1,
        ).map_values(|r: Seq<AttrV>| project(r, sel)));
    } else {
        lemma_chunk_select_all(s.drop_last(), pos, sel);
        assert(s.drop_last().map_values(|p: (int, Seq<AttrV>)| p.1).map_values(
            |r: Seq<AttrV>| project(r, sel),
        ) =~= s.map_values(|p: (int, Seq<AttrV>)| p.1).map_values(
            |r: Seq<AttrV>| project(r, sel),
        ).drop_last());
        assert(chunk_select(s, pos, CompV::All, sel) =~= s.map_values(
            |p: (int, Seq<AttrV>)| p.1,
        ).map_values(|r: Seq<AttrV>| project(r, sel)));
    }
}

/// Law: a scan with the `All` predicate answers the projection of every
/// stored row, in storage order; in particular, as a bag, the result is
/// exactly {project(row, sel) | row in table}.
pub proof fn lemma_select_all_is_projection(
    shards: Seq<Seq<(int, Seq<AttrV>)>>,
    pos: int,
    sel: Seq<usize>,
)
    ensures
        table_select(shards, pos, CompV::All, sel) == table_rows(shards).map_values(
            |r: Seq<AttrV>| project(r, sel),
        ),
        table_select(shards, pos, CompV::All, sel).to_multiset() == table_rows(
            shards,
        ).map_values(|r: Seq<AttrV>| project(r, sel)).to_multiset(),
    decreases shards.len(),
{
    if shards.len() == 0 {
        assert(table_select(shards, pos, CompV::All, sel) =~= table_rows(shards).map_values(
            |r: Seq<AttrV>| project(r, sel),
        ));
    } else {
        lemma_select_all_is_projection(shards.drop_last(), pos, sel);
        lemma_chunk_select_all(shards.last(), pos, sel);
        assert(table_select(shards, pos, CompV::All, sel) =~= table_rows(shards).map_values(
            |r: Seq<AttrV>| project(r, sel),
        ));
    }
}

/// Every row of one shard holds its own key, as an id, at column `pos`.
pub open spec fn rows_keyed(s: Seq<(int, Seq<AttrV>)>, pos: int) -> bool {
    forall|j: int| 0 <= j < s.len() ==> (#[trigger] s[j]).1[pos] == AttrV::Id(s[j].0)
}

/// On a keyed shard, selecting by equality with `Id(k)` answers exactly
/// what looking the key up answers.
proof fn lemma_chunk_select_eq_id(s: Seq<(int, Seq<AttrV>)>, pos: int, k: int, sel: Seq<usize>)
    requires
        crate::shard::keys_sorted(s),
        rows_keyed(s, pos),
    ensures
        chunk_select(s, pos, CompV::Equal(AttrV::Id(k)), sel) == match find_row(s, k) {
            Some(r) => seq![project(r, sel)],
            None => Seq::<Seq<AttrV>>::empty(),
        },
    decreases s.len(),
{
    if s.len() == 0 {
    } else {
        let d = s.drop_last();
        let last = s.last();
        assert(crate::shard::keys_sorted(d));
        assert(rows_keyed(d, pos)) by {
            assert(forall|j: int| 0 <= j < d.len() ==> d[j] == s[j]);
        }
        lemma_chunk_select_eq_id(d, pos, k, sel);
        assert(s =~= d.push(last));
        lemma_find_row_push(d, last, k);
        assert(last.1[pos] == AttrV::Id(last.0));
        if last.0 == k {
            assert forall|j: int| 0 <= j < d.len() implies (#[trigger] d[j]).0 != k by {
                assert(s[j].0 < last.0);
            }
            lemma_find_row_absent(d, k);
            assert(chunk_select(s, pos, CompV::Equal(AttrV::Id(k)), sel) =~= seq![
                project(last.1, sel),
            ]);
        } else {
            assert(!comp_matches(last.1[pos], CompV::Equal(AttrV::Id(k))));
        }
    }
}

/// On a keyed shard, a scan-delete by equality with `Id(k)` removes
/// exactly the entry stored under `k`.
proof fn lemma_chunk_retain_eq_id(s: Seq<(int, Seq<AttrV>)>, pos: int, k: int)
    requires
        rows_keyed(s, pos),
    ensures
        chunk_retain(s, pos, CompV::Equal(AttrV::Id(k))) == remove_key(s, k),
    decreases s.len(),
{
    if s.len() > 0 {
        let d = s.drop_last();
        assert(rows_keyed(d, pos)) by {
            assert(forall|j: int| 0 <= j < d.len() ==> d[j] == s[j]);
        }
        lemma_chunk_retain_eq_id(d, pos, k);
        assert(s.last().1[pos] == AttrV::Id(s.last().0));
    }
}

/// Keys below zero or in another key's shard are absent.
proof fn lemma_shard_has_no_foreign_key(t: TableV, i: int, k: i64)
    requires
        table_wf(t),
        0 <= i < t.shards.len(),
        i != crate::table::hash_spec(k),
    ensures
        find_row(t.shards[i], k as int) is None,
{
    if k >= 0 {
        assert(crate::table::hash_spec(k) == (k as int) % 256);
    }
    assert forall|j: int| 0 <= j < t.shards[i].len() implies (#[trigger] t.shards[i][j]).0
        != k as int by {
        assert(t.shards[i][j].0 % 256 == i && t.shards[i][j].0 >= 0);
    }
    lemma_find_row_absent(t.shards[i], k as int);
}

proof fn lemma_table_select_eq_id_upto(t: TableV, pos: int, k: i64, sel: Seq<usize>, n: int)
    requires
        table_wf(t),
        0 <= n <= t.shards.len(),
        forall|i: int| 0 <= i < t.shards.len() ==> rows_keyed(#[trigger] t.shards[i], pos),
    ensures
        table_select(t.shards.take(n), pos, CompV::Equal(AttrV::Id(k as int)), sel) == if crate::table::hash_spec(k) < n {
            match find_row(t.shards[crate::table::hash_spec(k)], k as int) {
                Some(r) => seq![project(r, sel)],
                None => Seq::<Seq<AttrV>>::empty(),
            }
        } else {
            Seq::<Seq<AttrV>>::empty()
        },
    decreases n,
{
    let h = crate::table::hash_spec(k);
    if n == 0 {
        assert(t.shards.take(0) =~= Seq::<Seq<(int, Seq<AttrV>)>>::empty());
    } else {
        lemma_table_select_eq_id_upto(t, pos, k, sel, n - 1);
        assert(t.shards.take(n).drop_last() =~= t.shards.take(n - 1));
        assert(t.shards.take(n).last() == t.shards[n - 1]);
        lemma_chunk_select_eq_id(t.shards[n - 1], pos, k as int, sel);
        if n - 1 != h {
            lemma_shard_has_no_foreign_key(t, n - 1, k);
            assert(chunk_select(t.shards[n - 1], pos, CompV::Equal(AttrV::Id(k as int)), sel)
                =~= Seq::<Seq<AttrV>>::empty());
        }
        assert(table_select(t.shards.take(n), pos, CompV::Equal(AttrV::Id(k as int)), sel)
            == table_select(t.shards.take(n - 1), pos, CompV::Equal(AttrV::Id(k as int)), sel)
            + chunk_select(t.shards[n - 1], pos, CompV::Equal(AttrV::Id(k as int)), sel));
        assert forall|a: Seq<Seq<AttrV>>| #[trigger] (a + Seq::<Seq<AttrV>>::empty()) == a by {
            assert(a + Seq::<Seq<AttrV>>::empty() =~= a);
        }
        assert forall|a: Seq<Seq<AttrV>>| #[trigger] (Seq::<Seq<AttrV>>::empty() + a) == a by {
            assert(Seq::<Seq<AttrV>>::empty() + a =~= a);
        }
    }
}

/// Law: on a table whose rows are keyed by their id column, a select by
/// equality with `Id(k)` over every shard answers exactly the single-shard
/// lookup of `k` — the primary-key fast path equals the full scan.
pub proof fn lemma_fast_path_select(
    schema: Seq<(Seq<char>, crate::database::AttributeType)>,
    t: TableV,
    pos: int,
    k: i64,
    sel: Seq<usize>,
)
    requires
        table_wf(t),
        crate::database::id_cols_keyed(schema, t.shards),
        0 <= pos < schema.len(),
        schema[pos].1 == crate::database::AttributeType::Id,
    ensures
        table_select(t.shards, pos, CompV::Equal(AttrV::Id(k as int)), sel) == match find_row(
            t.shards[crate::table::hash_spec(k)],
            k as int,
        ) {
            Some(r) => seq![project(r, sel)],
            None => Seq::<Seq<AttrV>>::empty(),
        },
{
    assert forall|i: int| 0 <= i < t.shards.len() implies rows_keyed(
        #[trigger] t.shards[i],
        pos,
    ) by {
        assert forall|j: int| 0 <= j < t.shards[i].len() implies (#[trigger] t.shards[i][j]).1[pos]
            == AttrV::Id(t.shards[i][j].0) by {
            assert(schema[pos].1 == crate::database::AttributeType::Id);
        }
    }
    lemma_table_select_eq_id_upto(t, pos, k, sel, t.shards.len() as int);
    assert(t.shards.take(t.shards.len() as int) =~= t.shards);
}

/// Law: on a table whose rows are keyed by their id column, a scan-delete
/// by equality with `Id(k)` touches exactly the entry stored under `k` in
/// its shard — the primary-key fast path equals the full fan-out.
pub proof fn lemma_fast_path_delete(
    schema: Seq<(Seq<char>, crate::database::AttributeType)>,
    t: TableV,
    pos: int,
    k: i64,
)
    requires
        table_wf(t),
        crate::database::id_cols_keyed(schema, t.shards),
        0 <= pos < schema.len(),
        schema[pos].1 == crate::database::AttributeType::Id,
    ensures
        Seq::new(
            crate::table::shard_count() as nat,
            |s: int| chunk_retain(t.shards[s], pos, CompV::Equal(AttrV::Id(k as int))),
        ) == t.shards.update(
            crate::table::hash_spec(k),
            remove_key(t.shards[crate::table::hash_spec(k)], k as int),
        ),
{
    let h = crate::table::hash_spec(k);
    assert forall|i: int| 0 <= i < t.shards.len() implies rows_keyed(
        #[trigger] t.shards[i],
        pos,
    ) by {
        assert forall|j: int| 0 <= j < t.shards[i].len() implies (#[trigger] t.shards[i][j]).1[pos]
            == AttrV::Id(t.shards[i][j].0) by {
            assert(schema[pos].1 == crate::database::AttributeType::Id);
        }
    }
    assert forall|i: int| 0 <= i < t.shards.len() implies chunk_retain(
        #[trigger] t.shards[i],
        pos,
        CompV::Equal(AttrV::Id(k as int)),
    ) == remove_key(t.shards[i], k as int) by {
        lemma_chunk_retain_eq_id(t.shards[i], pos, k as int);
    }
    assert forall|i: int| 0 <= i < t.shards.len() && i != h implies remove_key(
        #[trigger] t.shards[i],
        k as int,
    ) == t.shards[i] by {
        lemma_shard_has_no_foreign_key(t, i, k);
        lemma_remove_absent_key(t.shards[i], k as int);
    }
    assert(Seq::new(
        crate::table::shard_count() as nat,
        |s: int| chunk_retain(t.shards[s], pos, CompV::Equal(AttrV::Id(k as int))),
    ) =~= t.shards.update(h, remove_key(t.shards[h], k as int)));
}

/// Removing a key that is not stored changes nothing.
proof fn lemma_remove_absent_key(s: Seq<(int, Seq<AttrV>)>, k: int)
    requires
        find_row(s, k) is None,
    ensures
        remove_key(s, k) == s,
    decreases s.len(),
{
    if s.len() > 0 {
        let d = s.drop_last();
        assert(s =~= d.push(s.last()));
        lemma_find_row_push(d, s.last(), k);
        lemma_remove_absent_key(d, k);
        assert(remove_key(s, k) =~= s);
    }
}

/// Law: evicting a shard and reloading what was written restores the
/// table exactly.  A release hands out bytes that decode to precisely the
/// shard's old rows and leaves the shard empty; loading those bytes puts
/// the old rows back, so no row is lost, duplicated or altered by the
/// round trip.
pub proof fn lemma_evict_reload_round_trip(t: TableV, shard: int)
    requires
        0 <= shard < t.shards.len(),
    ensures
        t.shards.update(shard, Seq::<(int, Seq<AttrV>)>::empty()).update(shard, t.shards[shard])
            == t.shards,
{
    assert(t.shards.update(shard, Seq::<(int, Seq<AttrV>)>::empty()).update(
        shard,
        t.shards[shard],
    ) =~= t.shards);
}

/// Law: leading whitespace never changes how a statement reads.
pub proof fn lemma_tokenize_leading_spaces(ws: Seq<char>, s: Seq<char>)
    requires
        forall|i: int| 0 <= i < ws.len() ==> crate::parser::patterns::is_space(#[trigger] ws[i]),
    ensures
        crate::parser::patterns::spec_tokenize(ws + s) == crate::parser::patterns::spec_tokenize(
            s,
        ),
    decreases ws.len(),
{
    if ws.len() == 0 {
        assert(ws + s =~= s);
    } else {
        assert((ws + s)[0] == ws[0]);
        assert((ws + s).drop_first() =~= ws.drop_first() + s);
        lemma_tokenize_leading_spaces(ws.drop_first(), s);
    }
}

/// Law: what a statement means depends only on its lexemes: two statements
/// that read as the same tokens — in particular, statements differing only
/// in whitespace, or in one trailing semicolon — parse to the same command
/// against any tables.
pub proof fn lemma_parse_ignores_whitespace(
    a: Seq<char>,
    b: Seq<char>,
    db: Seq<crate::database::DbEntryV>,
)
    requires
        crate::parser::patterns::spec_lex(a) == crate::parser::patterns::spec_lex(b),
    ensures
        crate::parser::spec_get_command(a, db) == crate::parser::spec_get_command(b, db),
{
}

/// Law: what a statement means depends only on its captures with unquoted
/// text lowered: two statements whose patterns match with captures equal
/// up to the case of keywords and unquoted names parse to the same command
/// against any tables.
pub proof fn lemma_parse_ignores_keyword_case(
    a: Seq<char>,
    b: Seq<char>,
    db: Seq<crate::database::DbEntryV>,
)
    requires
        crate::parser::lower_caps(crate::parser::patterns::spec_capture_command(a))
            == crate::parser::lower_caps(crate::parser::patterns::spec_capture_command(b)),
    ensures
        crate::parser::spec_get_command(a, db) == crate::parser::spec_get_command(b, db),
{
}

/// Law: a scan-delete keeps exactly the rows that do not match, and every
/// row it keeps was stored before.
pub proof fn lemma_delete_keeps_nonmatching(s: Seq<(int, Seq<AttrV>)>, pos: int, c: CompV)
    ensures
        forall|i: int|
            0 <= i < chunk_retain(s, pos, c).len() ==> !comp_matches(
                (#[trigger] chunk_retain(s, pos, c)[i]).1[pos],
                c,
            ),
        forall|i: int|
            0 <= i < chunk_retain(s, pos, c).len() ==> exists|j: int|
                0 <= j < s.len() && #[trigger] chunk_retain(s, pos, c)[i] == s[j],
    decreases s.len(),
{
    if s.len() > 0 {
        lemma_delete_keeps_nonmatching(s.drop_last(), pos, c);
        let r0 = chunk_retain(s.drop_last(), pos, c);
        let r = chunk_retain(s, pos, c);
        assert forall|i: int| 0 <= i < r.len() implies !comp_matches(
            (#[trigger] r[i]).1[pos],
            c,
        ) && (exists|j: int| 0 <= j < s.len() && r[i] == s[j]) by {
            if i < r0.len() {
                assert(r[i] == r0[i]);
                let j = choose|j: int| 0 <= j < s.drop_last().len() && #[trigger] r0[i] == s.drop_last()[j];
                assert(r[i] == s[j]);
            } else {
                assert(r[i] == s[s.len() - 1]);
            }
        }
    }
}

} // verus!

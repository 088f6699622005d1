//! The store's laws: properties that hold of every state and every input,
//! proved over the same spec functions the operations' contracts are stated
//! with. The snapshot round trip lives beside the codec
//! (`codec::lemma_state_round_trip`).

use vstd::prelude::*;

use crate::store::{
    DatabaseView, DbErrorView, StateView, find_table, lemma_find_table, lemma_find_table_at,
    spec_create, spec_insert, spec_save_if_needed, spec_select, spec_where,
};
use crate::table::{TableView, find_col, lemma_find_col, lemma_matching_up_to, matching_positions};

verus! {

/// Creating a table twice with the same name: the second CREATE fails with
/// `AlreadyExists` and leaves the store — the first table's schema and rows
/// included — exactly as the first CREATE left it.
pub proof fn law_create_duplicate(db: DatabaseView, t1: TableView, t2: TableView)
    requires
        t1.name == t2.name,
        spec_create(db, t1).1 is Ok,
    ensures
        spec_create(spec_create(db, t1).0, t2).1 == Result::<(), DbErrorView>::Err(
            DbErrorView::AlreadyExists { table: t2.name },
        ),
        spec_create(spec_create(db, t1).0, t2).0 == spec_create(db, t1).0,
{
    let db1 = spec_create(db, t1).0;
    lemma_find_table(db1.state.tables, t2.name);
    if find_table(db1.state.tables, t2.name) is None {
        assert(db1.state.tables[db.state.tables.len() as int].name == t2.name);
        assert(false);
    }
}

/// INSERT into an existing table succeeds exactly when the value count equals
/// the table's column count. On a mismatch the store — its row count included
/// — is unchanged and the error is `SchemaMismatch`; on success exactly the
/// given row is appended, at the old row count's position.
pub proof fn law_insert_schema(
    db: DatabaseView,
    name: Seq<char>,
    values: Seq<Seq<char>>,
    now: u64,
)
    requires
        db.state.has_table(name),
    ensures
        ({
            let ti = find_table(db.state.tables, name)->Some_0;
            let t = db.state.tables[ti];
            let r = spec_insert(db, name, values, now);
            &&& (r.1 is Ok <==> values.len() == t.columns.len())
            &&& (values.len() != t.columns.len() ==> r.0 == db && r.1 == Result::<
                (),
                DbErrorView,
            >::Err(DbErrorView::SchemaMismatch))
            &&& (values.len() == t.columns.len() ==> r.0.state.tables[ti].rows == t.rows.push(
                values,
            ))
        }),
{
    lemma_find_table(db.state.tables, name);
}

/// `SELECT *` returns the header in schema column order, then every row of
/// the table whole and in insertion order.
pub proof fn law_select_wildcard(s: StateView, name: Seq<char>, cols: Seq<Seq<char>>)
    requires
        s.wf(),
        s.has_table(name),
        crate::store::is_wildcard(cols),
    ensures
        ({
            let t = s.tables[find_table(s.tables, name)->Some_0];
            let r = spec_select(s, name, cols, Option::None);
            &&& r is Ok
            &&& r->Ok_0.len() == t.rows.len() + 1
            &&& r->Ok_0[0] == Seq::new(t.columns.len(), |j: int| t.columns[j].name)
            &&& forall|i: int| 0 <= i < t.rows.len() ==> r->Ok_0[i + 1] == #[trigger] t.rows[i]
        }),
{
    lemma_find_table(s.tables, name);
    let ti = find_table(s.tables, name)->Some_0;
    let t = s.tables[ti];
    let idxs = Seq::new(t.columns.len(), |j: int| j);
    let positions = Seq::new(t.rows.len(), |i: int| i);
    let header = Seq::new(idxs.len(), |j: int| t.columns[idxs[j]].name);
    let body = positions.map_values(|p: int| crate::store::project(t.rows[p], idxs));
    let r = spec_select(s, name, cols, Option::None);
    assert(r->Ok_0 == seq![header] + body);
    assert(header =~= Seq::new(t.columns.len(), |j: int| t.columns[j].name));
    assert forall|i: int| 0 <= i < t.rows.len() implies r->Ok_0[i + 1] == #[trigger] t.rows[i] by {
        assert(body[i] == crate::store::project(t.rows[i], idxs));
        assert(t.rows[i].len() == t.columns.len());
        assert(crate::store::project(t.rows[i], idxs) =~= t.rows[i]);
        assert((seq![header] + body)[i + 1] == body[i]);
    }
}

/// `WHERE <col> = <value>` selects exactly the rows whose cell in that column
/// equals the literal string — case-sensitively, with no numeric coercion —
/// and returns their positions in strictly increasing insertion order;
/// every other row is excluded.
pub proof fn law_where_exact(t: TableView, parts: Seq<Seq<char>>)
    requires
        parts.len() == 3,
        parts[1] == seq!['='],
        find_col(t.columns, parts[0]) is Some,
    ensures
        ({
            let ci = find_col(t.columns, parts[0])->Some_0;
            let r = spec_where(t, parts);
            &&& r is Ok
            &&& forall|p: int|
                #[trigger] r->Ok_0.contains(p) <==> (0 <= p < t.rows.len() && t.rows[p][ci]
                    == parts[2])
            &&& forall|a: int, b: int|
                0 <= a < b < r->Ok_0.len() ==> r->Ok_0[a] < r->Ok_0[b]
        }),
{
    let ci = find_col(t.columns, parts[0])->Some_0;
    lemma_find_col(t.columns, parts[0]);
    lemma_matching_up_to(t, ci, parts[2], t.rows.len() as int);
    assert(spec_where(t, parts) == Result::<Seq<int>, DbErrorView>::Ok(
        matching_positions(t, ci, parts[2]),
    ));
}

/// The store after a sequence of inserts of the rows of `rows`, in order,
/// into the table named `name`.
pub open spec fn spec_insert_all(
    db: DatabaseView,
    name: Seq<char>,
    rows: Seq<Seq<Seq<char>>>,
    now: u64,
) -> DatabaseView
    decreases rows.len(),
{
    if rows.len() == 0 {
        db
    } else {
        spec_insert_all(spec_insert(db, name, rows[0], now).0, name, rows.drop_first(), now)
    }
}

/// Every insert of the sequence succeeded.
pub open spec fn spec_insert_all_ok(
    db: DatabaseView,
    name: Seq<char>,
    rows: Seq<Seq<Seq<char>>>,
    now: u64,
) -> bool
    decreases rows.len(),
{
    rows.len() == 0 || (spec_insert(db, name, rows[0], now).1 is Ok && spec_insert_all_ok(
        spec_insert(db, name, rows[0], now).0,
        name,
        rows.drop_first(),
        now,
    ))
}

/// Inserting preserves the store's invariant, keeps every table's name and
/// schema, and touches no other table; the named table gets exactly the new
/// row appended.
pub proof fn law_insert_preserves(db: DatabaseView, name: Seq<char>, values: Seq<Seq<char>>, now: u64)
    requires
        db.state.wf(),
    ensures
        ({
            let r = spec_insert(db, name, values, now);
            &&& r.0.state.wf()
            &&& r.0.state.tables.len() == db.state.tables.len()
            &&& forall|j: int|
                0 <= j < db.state.tables.len() ==> (#[trigger] r.0.state.tables[j]).name
                    == db.state.tables[j].name && r.0.state.tables[j].columns
                    == db.state.tables[j].columns
            &&& (r.1 is Ok ==> {
                let ti = find_table(db.state.tables, name)->Some_0;
                &&& find_table(db.state.tables, name) is Some
                &&& r.0.state.tables[ti].rows == db.state.tables[ti].rows.push(values)
                &&& forall|j: int|
                    0 <= j < db.state.tables.len() && j != ti ==> (
                    #[trigger] r.0.state.tables[j]).rows == db.state.tables[j].rows
            })
        }),
{
    lemma_find_table(db.state.tables, name);
    let r = spec_insert(db, name, values, now);
    if let Option::Some(ti) = find_table(db.state.tables, name) {
        let t = db.state.tables[ti];
        if values.len() == t.columns.len() {
            crate::store::lemma_row_index_insert_unique(
                db.state.indexes[ti],
                t.columns,
                values,
                t.rows.len() as int,
                t.columns.len() as int,
            );
            assert(r.0.state.wf()) by {
                assert forall|i: int| 0 <= i < r.0.state.tables.len() implies (
                #[trigger] r.0.state.tables[i]).wf() by {
                    if i == ti {
                        let t2 = r.0.state.tables[ti];
                        assert(forall|k: int|
                            0 <= k < t.rows.len() ==> (#[trigger] t2.rows[k]).len()
                                == t2.columns.len());
                        assert(t2.rows[t.rows.len() as int].len() == t2.columns.len());
                    }
                }
            }
        }
    }
}

/// N serialized inserts of well-arity rows into one table: every one of them
/// succeeds, the table's rows end as the old rows with the N new rows
/// appended in order — so its row count grows by exactly N and each new row
/// sits at its own position — and no other table changes.
pub proof fn law_insert_all(db: DatabaseView, name: Seq<char>, rows: Seq<Seq<Seq<char>>>, now: u64)
    requires
        db.state.wf(),
        db.state.has_table(name),
        ({
            let ti = find_table(db.state.tables, name)->Some_0;
            forall|i: int|
                0 <= i < rows.len() ==> (#[trigger] rows[i]).len()
                    == db.state.tables[ti].columns.len()
        }),
    ensures
        spec_insert_all_ok(db, name, rows, now),
        ({
            let ti = find_table(db.state.tables, name)->Some_0;
            let fin = spec_insert_all(db, name, rows, now);
            &&& fin.state.wf()
            &&& fin.state.tables.len() == db.state.tables.len()
            &&& fin.state.tables[ti].rows == db.state.tables[ti].rows + rows
            &&& forall|j: int|
                0 <= j < db.state.tables.len() && j != ti ==> (#[trigger] fin.state.tables[j]).rows
                    == db.state.tables[j].rows
        }),
    decreases rows.len(),
{
    lemma_find_table(db.state.tables, name);
    let ti = find_table(db.state.tables, name)->Some_0;
    let t = db.state.tables[ti];
    if rows.len() == 0 {
        assert(t.rows + rows =~= t.rows);
    } else {
        let r = spec_insert(db, name, rows[0], now);
        law_insert_preserves(db, name, rows[0], now);
        assert(r.1 is Ok);
        let db1 = r.0;
        // The table keeps its name, so the next insert finds it at the same
        // position.
        assert forall|j: int| 0 <= j < ti implies (#[trigger] db1.state.tables[j]).name
            != name by {}
        lemma_find_table_at(db1.state.tables, name, ti);
        assert forall|i: int| 0 <= i < rows.drop_first().len() implies (
        #[trigger] rows.drop_first()[i]).len() == db1.state.tables[ti].columns.len() by {
            assert(rows.drop_first()[i] == rows[i + 1]);
        }
        law_insert_all(db1, name, rows.drop_first(), now);
        let fin = spec_insert_all(db, name, rows, now);
        assert(fin.state.tables[ti].rows =~= t.rows + rows) by {
            assert(db1.state.tables[ti].rows == t.rows.push(rows[0]));
            assert(fin.state.tables[ti].rows == t.rows.push(rows[0]) + rows.drop_first());
        }
    }
}

/// Recording a row's first `upto` cells leaves the index mapping each of
/// those cells' fingerprints to a position list holding the row's position.
proof fn lemma_row_index_contains(
    entries: Seq<crate::index::IndexEntryView>,
    cols: Seq<crate::table::ColumnView>,
    values: Seq<Seq<char>>,
    pos: int,
    upto: int,
)
    requires
        crate::index::unique_keys(entries),
    ensures
        forall|j: int|
            0 <= j < upto ==> {
                let m = crate::index::index_map(
                    crate::store::row_index_insert(entries, cols, values, pos, upto),
                );
                &&& m.dom().contains(
                    crate::table::spec_fingerprint(cols[j].name, #[trigger] values[j]),
                )
                &&& m[crate::table::spec_fingerprint(cols[j].name, values[j])].contains(pos)
            },
    decreases upto,
{
    if upto > 0 {
        lemma_row_index_contains(entries, cols, values, pos, upto - 1);
        let prev = crate::store::row_index_insert(entries, cols, values, pos, upto - 1);
        let key = crate::table::spec_fingerprint(cols[upto - 1].name, values[upto - 1]);
        crate::store::lemma_row_index_insert_unique(entries, cols, values, pos, upto - 1);
        crate::index::lemma_index_insert_map(prev, key, pos);
        let m0 = crate::index::index_map(prev);
        let m1 = crate::index::index_map(crate::index::index_insert(prev, key, pos));
        assert(m1[key].contains(pos)) by {
            let old_ps = if m0.dom().contains(key) {
                m0[key]
            } else {
                Seq::<int>::empty()
            };
            assert(m1[key] == old_ps.push(pos));
            assert(old_ps.push(pos)[old_ps.len() as int] == pos);
        }
        assert forall|j: int| 0 <= j < upto - 1 implies {
            let kj = crate::table::spec_fingerprint(cols[j].name, #[trigger] values[j]);
            m1.dom().contains(kj) && m1[kj].contains(pos)
        } by {
            let kj = crate::table::spec_fingerprint(cols[j].name, values[j]);
            if kj != key {
                assert(m1[kj] == m0[kj]);
            }
        }
    }
}

/// A successful INSERT records the new row in the table's index at insertion
/// time: for every column, the fingerprint of the new row's cell in that
/// column maps to a position list holding the new row's position.
pub proof fn law_insert_indexes_row(
    db: DatabaseView,
    name: Seq<char>,
    values: Seq<Seq<char>>,
    now: u64,
)
    requires
        db.state.wf(),
        spec_insert(db, name, values, now).1 is Ok,
    ensures
        ({
            let ti = find_table(db.state.tables, name)->Some_0;
            let t = db.state.tables[ti];
            let m = crate::index::index_map(spec_insert(db, name, values, now).0.state.indexes[ti]);
            forall|j: int|
                0 <= j < values.len() ==> {
                    &&& m.dom().contains(
                        crate::table::spec_fingerprint(t.columns[j].name, #[trigger] values[j]),
                    )
                    &&& m[crate::table::spec_fingerprint(t.columns[j].name, values[j])].contains(
                        t.rows.len() as int,
                    )
                }
        }),
{
    lemma_find_table(db.state.tables, name);
    let ti = find_table(db.state.tables, name)->Some_0;
    let t = db.state.tables[ti];
    lemma_row_index_contains(
        db.state.indexes[ti],
        t.columns,
        values,
        t.rows.len() as int,
        t.columns.len() as int,
    );
}

/// The flush policy in one law: `save_if_needed` requests a flush exactly
/// when the state is dirty and the dirty window has elapsed, and then opens a
/// clean window at `now`; otherwise it changes nothing. It never touches the
/// data itself.
pub proof fn law_flush_policy(db: DatabaseView, now: u64)
    ensures
        spec_save_if_needed(db, now).state == db.state,
        crate::store::flush_due(db, now) <==> (db.dirty && now >= db.last_save
            + db.max_dirty_duration),
        crate::store::flush_due(db, now) ==> spec_save_if_needed(db, now) == (DatabaseView {
            state: db.state,
            dirty: false,
            last_save: now,
            max_dirty_duration: db.max_dirty_duration,
            wants_flush: true,
        }),
        !crate::store::flush_due(db, now) ==> spec_save_if_needed(db, now) == db,
{
}

} // verus!

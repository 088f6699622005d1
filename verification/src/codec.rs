//! The snapshot codec: the store's complete state as one byte image, written
//! whole on every flush and read back whole on startup. Counts and lengths
//! are 8-byte little-endian words; text is length-prefixed UTF-8. Decoding
//! accepts exactly the encoder's images of well-formed states — the round
//! trip is proved exact (see `laws`).

use vstd::prelude::*;
use vstd::bytes::{
    lemma_auto_spec_u64_to_from_le_bytes, spec_u64_from_le_bytes, spec_u64_to_le_bytes,
    u64_from_le_bytes, u64_to_le_bytes,
};
use vstd::slice::{slice_subrange, slice_to_vec};
use vstd::string::{StrSliceExecFns, StringExecFns};
use vstd::utf8::{
    decode_utf8, encode_utf8, encode_utf8_decode_utf8, encode_utf8_valid_utf8, valid_utf8,
};

use crate::index::{BTreeIndex, IndexEntry, IndexEntryView, unique_keys};
use crate::table::{Column, ColumnView, Table, TableView};
use crate::store::{DatabaseState, StateView};

verus! {

// ---------------------------------------------------------------------------
// What fits in an image: every count, length and position must be
// machine-representable, or no snapshot could have produced it.
// ---------------------------------------------------------------------------

pub open spec fn str_encodable(s: Seq<char>) -> bool {
    encode_utf8(s).len() <= usize::MAX
}

pub open spec fn row_encodable(row: Seq<Seq<char>>) -> bool {
    &&& row.len() <= usize::MAX
    &&& forall|i: int| 0 <= i < row.len() ==> str_encodable(#[trigger] row[i])
}

pub open spec fn column_encodable(c: ColumnView) -> bool {
    str_encodable(c.name) && str_encodable(c.data_type)
}

pub open spec fn table_encodable(t: TableView) -> bool {
    &&& str_encodable(t.name)
    &&& t.columns.len() <= usize::MAX
    &&& forall|i: int| 0 <= i < t.columns.len() ==> column_encodable(#[trigger] t.columns[i])
    &&& t.rows.len() <= usize::MAX
    &&& forall|i: int| 0 <= i < t.rows.len() ==> row_encodable(#[trigger] t.rows[i])
}

pub open spec fn entry_encodable(e: IndexEntryView) -> bool {
    &&& str_encodable(e.key)
    &&& e.positions.len() <= usize::MAX
    &&& forall|i: int| 0 <= i < e.positions.len() ==> 0 <= #[trigger] e.positions[i] <= usize::MAX
}

pub open spec fn entries_encodable(entries: Seq<IndexEntryView>) -> bool {
    &&& entries.len() <= usize::MAX
    &&& forall|i: int| 0 <= i < entries.len() ==> entry_encodable(#[trigger] entries[i])
}

pub open spec fn state_encodable(s: StateView) -> bool {
    &&& s.tables.len() <= usize::MAX
    &&& forall|i: int| 0 <= i < s.tables.len() ==> table_encodable(#[trigger] s.tables[i])
    &&& forall|i: int| 0 <= i < s.indexes.len() ==> entries_encodable(#[trigger] s.indexes[i])
}

// ---------------------------------------------------------------------------
// The image, layer by layer.
// ---------------------------------------------------------------------------

pub open spec fn enc_u64(x: u64) -> Seq<u8> {
    spec_u64_to_le_bytes(x)
}

/// A string: its UTF-8 byte length, then its UTF-8 bytes.
pub open spec fn enc_str(s: Seq<char>) -> Seq<u8> {
    enc_u64(encode_utf8(s).len() as u64) + encode_utf8(s)
}

pub open spec fn enc_column(c: ColumnView) -> Seq<u8> {
    enc_str(c.name) + enc_str(c.data_type)
}

pub open spec fn enc_columns(cols: Seq<ColumnView>) -> Seq<u8>
    decreases cols.len(),
{
    if cols.len() == 0 {
        Seq::empty()
    } else {
        enc_column(cols[0]) + enc_columns(cols.drop_first())
    }
}

/// A row's cells, in order; the cell count is the schema's column count.
pub open spec fn enc_cells(cells: Seq<Seq<char>>) -> Seq<u8>
    decreases cells.len(),
{
    if cells.len() == 0 {
        Seq::empty()
    } else {
        enc_str(cells[0]) + enc_cells(cells.drop_first())
    }
}

pub open spec fn enc_rows(rows: Seq<Seq<Seq<char>>>) -> Seq<u8>
    decreases rows.len(),
{
    if rows.len() == 0 {
        Seq::empty()
    } else {
        enc_cells(rows[0]) + enc_rows(rows.drop_first())
    }
}

pub open spec fn enc_positions(ps: Seq<int>) -> Seq<u8>
    decreases ps.len(),
{
    if ps.len() == 0 {
        Seq::empty()
    } else {
        enc_u64(ps[0] as u64) + enc_positions(ps.drop_first())
    }
}

/// An index entry: its key, then its position count, then its positions.
pub open spec fn enc_entry(e: IndexEntryView) -> Seq<u8> {
    enc_str(e.key) + enc_u64(e.positions.len() as u64) + enc_positions(e.positions)
}

pub open spec fn enc_entries(entries: Seq<IndexEntryView>) -> Seq<u8>
    decreases entries.len(),
{
    if entries.len() == 0 {
        Seq::empty()
    } else {
        enc_entry(entries[0]) + enc_entries(entries.drop_first())
    }
}

/// One table and its index: name, column count, columns, row count, rows,
/// entry count, entries.
pub open spec fn enc_record(t: TableView, entries: Seq<IndexEntryView>) -> Seq<u8> {
    enc_str(t.name) + enc_u64(t.columns.len() as u64) + enc_columns(t.columns) + enc_u64(
        t.rows.len() as u64,
    ) + enc_rows(t.rows) + enc_u64(entries.len() as u64) + enc_entries(entries)
}

pub open spec fn enc_records(
    tables: Seq<TableView>,
    indexes: Seq<Seq<IndexEntryView>>,
) -> Seq<u8>
    decreases tables.len(),
{
    if tables.len() == 0 {
        Seq::empty()
    } else {
        enc_record(tables[0], indexes[0]) + enc_records(
            tables.drop_first(),
            indexes.drop_first(),
        )
    }
}

/// The whole image: the table count, then each table with its index.
pub open spec fn enc_state(s: StateView) -> Seq<u8> {
    enc_u64(s.tables.len() as u64) + enc_records(s.tables, s.indexes)
}

// ---------------------------------------------------------------------------
// The encoder.
// ---------------------------------------------------------------------------

fn encode_u64(x: u64) -> (r: Vec<u8>)
    ensures
        r@ == enc_u64(x),
{
    u64_to_le_bytes(x)
}

fn encode_str(s: &String) -> (r: Vec<u8>)
    ensures
        r@ == enc_str(s@),
{
    let mut bytes = s.as_str().as_bytes_vec();
    let mut out = encode_u64(bytes.len() as u64);
    out.append(&mut bytes);
    proof {
        assert(out@ =~= enc_str(s@));
    }
    out
}

fn encode_column(c: &Column) -> (r: Vec<u8>)
    ensures
        r@ == enc_column(c@),
{
    let mut out = encode_str(&c.name);
    let mut rest = encode_str(&c.data_type);
    out.append(&mut rest);
    out
}

/// The columns from position `i` on.
fn encode_columns(cols: &Vec<Column>, i: usize) -> (r: Vec<u8>)
    requires
        i <= cols.len(),
    ensures
        r@ == enc_columns(cols@.map_values(|c: Column| c@).skip(i as int)),
    decreases cols.len() - i,
{
    let ghost cv = cols@.map_values(|c: Column| c@);
    if i == cols.len() {
        proof {
            assert(cv.skip(i as int) =~= Seq::empty());
        }
        Vec::new()
    } else {
        let mut out = encode_column(&cols[i]);
        let mut rest = encode_columns(cols, i + 1);
        out.append(&mut rest);
        proof {
            assert(cv.skip(i as int).drop_first() =~= cv.skip(i as int + 1));
            assert(cv.skip(i as int)[0] == cv[i as int]);
        }
        out
    }
}

/// The cells from position `i` on.
fn encode_cells(cells: &Vec<String>, i: usize) -> (r: Vec<u8>)
    requires
        i <= cells.len(),
    ensures
        r@ == enc_cells(cells.deep_view().skip(i as int)),
    decreases cells.len() - i,
{
    let ghost cv = cells.deep_view();
    if i == cells.len() {
        proof {
            assert(cv.skip(i as int) =~= Seq::empty());
        }
        Vec::new()
    } else {
        let mut out = encode_str(&cells[i]);
        let mut rest = encode_cells(cells, i + 1);
        out.append(&mut rest);
        proof {
            assert(cv.skip(i as int).drop_first() =~= cv.skip(i as int + 1));
            assert(cv.skip(i as int)[0] == cv[i as int]);
            assert(cv[i as int] == cells@[i as int]@);
        }
        out
    }
}

/// The rows from position `i` on.
fn encode_rows(rows: &Vec<Vec<String>>, i: usize) -> (r: Vec<u8>)
    requires
        i <= rows.len(),
    ensures
        r@ == enc_rows(rows.deep_view().skip(i as int)),
    decreases rows.len() - i,
{
    let ghost rv = rows.deep_view();
    if i == rows.len() {
        proof {
            assert(rv.skip(i as int) =~= Seq::empty());
        }
        Vec::new()
    } else {
        let mut out = encode_cells(&rows[i], 0);
        let mut rest = encode_rows(rows, i + 1);
        proof {
            assert(rows@[i as int].deep_view().skip(0) =~= rows@[i as int].deep_view());
            assert(rv.skip(i as int).drop_first() =~= rv.skip(i as int + 1));
            assert(rv.skip(i as int)[0] == rv[i as int]);
            assert(rv[i as int] == rows@[i as int].deep_view());
        }
        out.append(&mut rest);
        out
    }
}

/// The positions from position `i` on.
fn encode_positions(ps: &Vec<usize>, i: usize) -> (r: Vec<u8>)
    requires
        i <= ps.len(),
    ensures
        r@ == enc_positions(ps@.map_values(|p: usize| p as int).skip(i as int)),
    decreases ps.len() - i,
{
    let ghost pv = ps@.map_values(|p: usize| p as int);
    if i == ps.len() {
        proof {
            assert(pv.skip(i as int) =~= Seq::empty());
        }
        Vec::new()
    } else {
        let mut out = encode_u64(ps[i] as u64);
        let mut rest = encode_positions(ps, i + 1);
        out.append(&mut rest);
        proof {
            assert(pv.skip(i as int).drop_first() =~= pv.skip(i as int + 1));
            assert(pv.skip(i as int)[0] == pv[i as int]);
        }
        out
    }
}

fn encode_entry(e: &IndexEntry) -> (r: Vec<u8>)
    ensures
        r@ == enc_entry(e@),
{
    let mut out = encode_str(&e.key);
    let mut count = encode_u64(e.positions.len() as u64);
    out.append(&mut count);
    let mut ps = encode_positions(&e.positions, 0);
    proof {
        assert(e@.positions.skip(0) =~= e@.positions);
    }
    out.append(&mut ps);
    proof {
        assert(out@ =~= enc_entry(e@));
    }
    out
}

/// The entries from position `i` on.
fn encode_entries(entries: &Vec<IndexEntry>, i: usize) -> (r: Vec<u8>)
    requires
        i <= entries.len(),
    ensures
        r@ == enc_entries(entries@.map_values(|e: IndexEntry| e@).skip(i as int)),
    decreases entries.len() - i,
{
    let ghost ev = entries@.map_values(|e: IndexEntry| e@);
    if i == entries.len() {
        proof {
            assert(ev.skip(i as int) =~= Seq::empty());
        }
        Vec::new()
    } else {
        let mut out = encode_entry(&entries[i]);
        let mut rest = encode_entries(entries, i + 1);
        out.append(&mut rest);
        proof {
            assert(ev.skip(i as int).drop_first() =~= ev.skip(i as int + 1));
            assert(ev.skip(i as int)[0] == ev[i as int]);
        }
        out
    }
}

fn encode_record(t: &Table, ix: &BTreeIndex) -> (r: Vec<u8>)
    ensures
        r@ == enc_record(t@, ix@),
{
    let mut out = encode_str(&t.name);
    let mut ncols = encode_u64(t.columns.len() as u64);
    out.append(&mut ncols);
    let mut cols = encode_columns(&t.columns, 0);
    out.append(&mut cols);
    let mut nrows = encode_u64(t.rows.len() as u64);
    out.append(&mut nrows);
    let mut rows = encode_rows(&t.rows, 0);
    out.append(&mut rows);
    let mut nent = encode_u64(ix.entries.len() as u64);
    out.append(&mut nent);
    let mut ent = encode_entries(&ix.entries, 0);
    out.append(&mut ent);
    proof {
        assert(t@.columns.skip(0) =~= t@.columns);
        assert(t@.rows.skip(0) =~= t@.rows);
        assert(ix@.skip(0) =~= ix@);
        assert(out@ =~= enc_record(t@, ix@));
    }
    out
}

/// The records from position `i` on.
fn encode_records(s: &DatabaseState, i: usize) -> (r: Vec<u8>)
    requires
        i <= s.tables.len(),
        s@.indexes.len() == s@.tables.len(),
    ensures
        r@ == enc_records(s@.tables.skip(i as int), s@.indexes.skip(i as int)),
    decreases s.tables.len() - i,
{
    if i == s.tables.len() {
        proof {
            assert(s@.tables.skip(i as int) =~= Seq::empty());
        }
        Vec::new()
    } else {
        let mut out = encode_record(&s.tables[i], &s.indexes[i]);
        let mut rest = encode_records(s, i + 1);
        out.append(&mut rest);
        proof {
            assert(s@.tables.skip(i as int).drop_first() =~= s@.tables.skip(i as int + 1));
            assert(s@.indexes.skip(i as int).drop_first() =~= s@.indexes.skip(i as int + 1));
            assert(s@.tables.skip(i as int)[0] == s@.tables[i as int]);
            assert(s@.indexes.skip(i as int)[0] == s@.indexes[i as int]);
        }
        out
    }
}

/// The complete image of a state.
pub fn encode_state(s: &DatabaseState) -> (r: Vec<u8>)
    requires
        s@.indexes.len() == s@.tables.len(),
    ensures
        r@ == enc_state(s@),
{
    let mut out = encode_u64(s.tables.len() as u64);
    let mut rest = encode_records(s, 0);
    out.append(&mut rest);
    proof {
        assert(s@.tables.skip(0) =~= s@.tables);
        assert(s@.indexes.skip(0) =~= s@.indexes);
        assert(out@ =~= enc_state(s@));
    }
    out
}

// ---------------------------------------------------------------------------
// Reading an image back, layer by layer: each reader consumes at a position
// and yields the value with the next position, or nothing on a malformed
// image.
// ---------------------------------------------------------------------------

pub open spec fn dec_u64(b: Seq<u8>, p: int) -> Option<(u64, int)> {
    if 0 <= p && p + 8 <= b.len() {
        Option::Some((spec_u64_from_le_bytes(b.subrange(p, p + 8)), p + 8))
    } else {
        Option::None
    }
}

pub open spec fn dec_str(b: Seq<u8>, p: int) -> Option<(Seq<char>, int)> {
    match dec_u64(b, p) {
        Option::None => Option::None,
        Option::Some((n, p1)) => {
            if n <= usize::MAX as u64 && p1 + n as int <= b.len() && valid_utf8(
                b.subrange(p1, p1 + n as int),
            ) {
                Option::Some((decode_utf8(b.subrange(p1, p1 + n as int)), p1 + n as int))
            } else {
                Option::None
            }
        },
    }
}

pub open spec fn dec_column(b: Seq<u8>, p: int) -> Option<(ColumnView, int)> {
    match dec_str(b, p) {
        Option::None => Option::None,
        Option::Some((name, p1)) => match dec_str(b, p1) {
            Option::None => Option::None,
            Option::Some((data_type, p2)) => Option::Some(
                (ColumnView { name, data_type }, p2),
            ),
        },
    }
}

pub open spec fn dec_columns(b: Seq<u8>, p: int, count: int) -> Option<(Seq<ColumnView>, int)>
    decreases count,
{
    if count <= 0 {
        Option::Some((Seq::empty(), p))
    } else {
        match dec_column(b, p) {
            Option::None => Option::None,
            Option::Some((c, p1)) => match dec_columns(b, p1, count - 1) {
                Option::None => Option::None,
                Option::Some((rest, p2)) => Option::Some((seq![c] + rest, p2)),
            },
        }
    }
}

pub open spec fn dec_cells(b: Seq<u8>, p: int, count: int) -> Option<(Seq<Seq<char>>, int)>
    decreases count,
{
    if count <= 0 {
        Option::Some((Seq::empty(), p))
    } else {
        match dec_str(b, p) {
            Option::None => Option::None,
            Option::Some((c, p1)) => match dec_cells(b, p1, count - 1) {
                Option::None => Option::None,
                Option::Some((rest, p2)) => Option::Some((seq![c] + rest, p2)),
            },
        }
    }
}

pub open spec fn dec_rows(b: Seq<u8>, p: int, nrows: int, ncols: int) -> Option<
    (Seq<Seq<Seq<char>>>, int),
>
    decreases nrows,
{
    if nrows <= 0 {
        Option::Some((Seq::empty(), p))
    } else {
        match dec_cells(b, p, ncols) {
            Option::None => Option::None,
            Option::Some((row, p1)) => match dec_rows(b, p1, nrows - 1, ncols) {
                Option::None => Option::None,
                Option::Some((rest, p2)) => Option::Some((seq![row] + rest, p2)),
            },
        }
    }
}

pub open spec fn dec_positions(b: Seq<u8>, p: int, count: int) -> Option<(Seq<int>, int)>
    decreases count,
{
    if count <= 0 {
        Option::Some((Seq::empty(), p))
    } else {
        match dec_u64(b, p) {
            Option::None => Option::None,
            Option::Some((x, p1)) => {
                if x <= usize::MAX as u64 {
                    match dec_positions(b, p1, count - 1) {
                        Option::None => Option::None,
                        Option::Some((rest, p2)) => Option::Some((seq![x as int] + rest, p2)),
                    }
                } else {
                    Option::None
                }
            },
        }
    }
}

pub open spec fn dec_entry(b: Seq<u8>, p: int) -> Option<(IndexEntryView, int)> {
    match dec_str(b, p) {
        Option::None => Option::None,
        Option::Some((key, p1)) => match dec_u64(b, p1) {
            Option::None => Option::None,
            Option::Some((n, p2)) => {
                if n <= usize::MAX as u64 {
                    match dec_positions(b, p2, n as int) {
                        Option::None => Option::None,
                        Option::Some((positions, p3)) => Option::Some(
                            (IndexEntryView { key, positions }, p3),
                        ),
                    }
                } else {
                    Option::None
                }
            },
        },
    }
}

pub open spec fn dec_entries(b: Seq<u8>, p: int, count: int) -> Option<
    (Seq<IndexEntryView>, int),
>
    decreases count,
{
    if count <= 0 {
        Option::Some((Seq::empty(), p))
    } else {
        match dec_entry(b, p) {
            Option::None => Option::None,
            Option::Some((e, p1)) => match dec_entries(b, p1, count - 1) {
                Option::None => Option::None,
                Option::Some((rest, p2)) => Option::Some((seq![e] + rest, p2)),
            },
        }
    }
}

/// One table with its index. A record whose index holds a repeated key is no
/// encoder's image and is rejected.
pub open spec fn dec_record(b: Seq<u8>, p: int) -> Option<
    ((TableView, Seq<IndexEntryView>), int),
> {
    match dec_str(b, p) {
        Option::None => Option::None,
        Option::Some((name, p1)) => match dec_u64(b, p1) {
            Option::None => Option::None,
            Option::Some((nc, p2)) => {
                if nc <= usize::MAX as u64 {
                    match dec_columns(b, p2, nc as int) {
                        Option::None => Option::None,
                        Option::Some((columns, p3)) => match dec_u64(b, p3) {
                            Option::None => Option::None,
                            Option::Some((nr, p4)) => {
                                if nr <= usize::MAX as u64 {
                                    match dec_rows(b, p4, nr as int, nc as int) {
                                        Option::None => Option::None,
                                        Option::Some((rows, p5)) => match dec_u64(b, p5) {
                                            Option::None => Option::None,
                                            Option::Some((ne, p6)) => {
                                                if ne <= usize::MAX as u64 {
                                                    match dec_entries(b, p6, ne as int) {
                                                        Option::None => Option::None,
                                                        Option::Some((entries, p7)) => {
                                                            if unique_keys(entries) {
                                                                Option::Some(
                                                                    (
                                                                        (
                                                                            TableView {
                                                                                name,
                                                                                columns,
                                                                                rows,
                                                                            },
                                                                            entries,
                                                                        ),
                                                                        p7,
                                                                    ),
                                                                )
                                                            } else {
                                                                Option::None
                                                            }
                                                        },
                                                    }
                                                } else {
                                                    Option::None
                                                }
                                            },
                                        },
                                    }
                                } else {
                                    Option::None
                                }
                            },
                        },
                    }
                } else {
                    Option::None
                }
            },
        },
    }
}

pub open spec fn dec_records(b: Seq<u8>, p: int, count: int) -> Option<
    ((Seq<TableView>, Seq<Seq<IndexEntryView>>), int),
>
    decreases count,
{
    if count <= 0 {
        Option::Some(((Seq::empty(), Seq::empty()), p))
    } else {
        match dec_record(b, p) {
            Option::None => Option::None,
            Option::Some(((t, ix), p1)) => match dec_records(b, p1, count - 1) {
                Option::None => Option::None,
                Option::Some(((ts, ixs), p2)) => Option::Some(
                    ((seq![t] + ts, seq![ix] + ixs), p2),
                ),
            },
        }
    }
}

/// Table names must be pairwise distinct: the store's key invariant.
pub open spec fn distinct_names(tables: Seq<TableView>) -> bool {
    forall|i: int, j: int|
        0 <= i < j < tables.len() ==> (#[trigger] tables[i]).name != (#[trigger] tables[j]).name
}

/// A whole image: the table count, the records, nothing left over, and the
/// store's key invariant intact.
pub open spec fn dec_state(b: Seq<u8>) -> Option<StateView> {
    match dec_u64(b, 0) {
        Option::None => Option::None,
        Option::Some((n, p1)) => {
            if n <= usize::MAX as u64 {
                match dec_records(b, p1, n as int) {
                    Option::None => Option::None,
                    Option::Some(((tables, indexes), p2)) => {
                        if p2 == b.len() && distinct_names(tables) {
                            Option::Some(StateView { tables, indexes })
                        } else {
                            Option::None
                        }
                    },
                }
            } else {
                Option::None
            }
        },
    }
}

// ---------------------------------------------------------------------------
// The decoder.
// ---------------------------------------------------------------------------

/// Relies on String::from_utf8: it succeeds exactly on valid UTF-8 input, and
/// the returned string's bytes are the input bytes.
#[verifier::external_body]
fn string_from_utf8(bytes: Vec<u8>) -> (r: Option<String>)
    ensures
        r is Some <==> valid_utf8(bytes@),
        r matches Some(s) ==> encode_utf8(s@) == bytes@,
{
    match String::from_utf8(bytes) {
        Ok(s) => Some(s),
        Err(_) => None,
    }
}

fn read_u64(b: &Vec<u8>, p: usize) -> (r: Option<(u64, usize)>)
    ensures
        match r {
            Some(v) => dec_u64(b@, p as int) == Option::Some((v.0, v.1 as int)),
            None => dec_u64(b@, p as int) is None,
        },
{
    if p <= b.len() && b.len() - p >= 8 {
        let x = u64_from_le_bytes(slice_subrange(b.as_slice(), p, p + 8));
        Some((x, p + 8))
    } else {
        None
    }
}

fn read_str(b: &Vec<u8>, p: usize) -> (r: Option<(String, usize)>)
    ensures
        match r {
            Some(v) => dec_str(b@, p as int) == Option::Some((v.0@, v.1 as int)),
            None => dec_str(b@, p as int) is None,
        },
{
    let n_opt = read_u64(b, p);
    if n_opt.is_none() {
        return None;
    }
    let (n, p1) = n_opt.unwrap();
    if n > usize::MAX as u64 {
        return None;
    }
    let nu = n as usize;
    if nu > b.len() || p1 > b.len() - nu {
        return None;
    }
    let seg = slice_to_vec(slice_subrange(b.as_slice(), p1, p1 + nu));
    let s_opt = string_from_utf8(seg);
    match s_opt {
        None => None,
        Some(s) => {
            proof {
                encode_utf8_decode_utf8(s@);
            }
            Some((s, p1 + nu))
        },
    }
}

fn read_column(b: &Vec<u8>, p: usize) -> (r: Option<(Column, usize)>)
    ensures
        match r {
            Some(v) => dec_column(b@, p as int) == Option::Some((v.0@, v.1 as int)),
            None => dec_column(b@, p as int) is None,
        },
{
    match read_str(b, p) {
        None => None,
        Some((name, p1)) => match read_str(b, p1) {
            None => None,
            Some((data_type, p2)) => Some((Column { name, data_type }, p2)),
        },
    }
}

fn read_columns(b: &Vec<u8>, p: usize, count: usize) -> (r: Option<(Vec<Column>, usize)>)
    ensures
        match r {
            Some(v) => dec_columns(b@, p as int, count as int) == Option::Some(
                (v.0@.map_values(|c: Column| c@), v.1 as int),
            ),
            None => dec_columns(b@, p as int, count as int) is None,
        },
    decreases count,
{
    if count == 0 {
        let out: Vec<Column> = Vec::new();
        proof {
            assert(out@.map_values(|c: Column| c@) =~= Seq::<ColumnView>::empty());
        }
        Some((out, p))
    } else {
        match read_column(b, p) {
            None => None,
            Some((c, p1)) => match read_columns(b, p1, count - 1) {
                None => None,
                Some((mut rest, p2)) => {
                    let ghost cv = c@;
                    let ghost rv = rest@.map_values(|x: Column| x@);
                    let mut out: Vec<Column> = Vec::new();
                    out.push(c);
                    out.append(&mut rest);
                    proof {
                        assert(out@.map_values(|x: Column| x@) =~= seq![cv] + rv);
                    }
                    Some((out, p2))
                },
            },
        }
    }
}

fn read_cells(b: &Vec<u8>, p: usize, count: usize) -> (r: Option<(Vec<String>, usize)>)
    ensures
        match r {
            Some(v) => dec_cells(b@, p as int, count as int) == Option::Some(
                (v.0.deep_view(), v.1 as int),
            ),
            None => dec_cells(b@, p as int, count as int) is None,
        },
    decreases count,
{
    if count == 0 {
        let out: Vec<String> = Vec::new();
        proof {
            assert(out.deep_view() =~= Seq::<Seq<char>>::empty());
        }
        Some((out, p))
    } else {
        match read_str(b, p) {
            None => None,
            Some((c, p1)) => match read_cells(b, p1, count - 1) {
                None => None,
                Some((mut rest, p2)) => {
                    let ghost cv = c@;
                    let ghost rv = rest.deep_view();
                    let mut out: Vec<String> = Vec::new();
                    out.push(c);
                    out.append(&mut rest);
                    proof {
                        assert(out.deep_view() =~= seq![cv] + rv);
                    }
                    Some((out, p2))
                },
            },
        }
    }
}

fn read_rows(b: &Vec<u8>, p: usize, nrows: usize, ncols: usize) -> (r: Option<
    (Vec<Vec<String>>, usize),
>)
    ensures
        match r {
            Some(v) => dec_rows(b@, p as int, nrows as int, ncols as int) == Option::Some(
                (v.0.deep_view(), v.1 as int),
            ),
            None => dec_rows(b@, p as int, nrows as int, ncols as int) is None,
        },
    decreases nrows,
{
    if nrows == 0 {
        let out: Vec<Vec<String>> = Vec::new();
        proof {
            assert(out.deep_view() =~= Seq::<Seq<Seq<char>>>::empty());
        }
        Some((out, p))
    } else {
        match read_cells(b, p, ncols) {
            None => None,
            Some((row, p1)) => match read_rows(b, p1, nrows - 1, ncols) {
                None => None,
                Some((mut rest, p2)) => {
                    let ghost rowv = row.deep_view();
                    let ghost rv = rest.deep_view();
                    let mut out: Vec<Vec<String>> = Vec::new();
                    out.push(row);
                    out.append(&mut rest);
                    proof {
                        assert(out.deep_view() =~= seq![rowv] + rv);
                    }
                    Some((out, p2))
                },
            },
        }
    }
}

fn read_positions(b: &Vec<u8>, p: usize, count: usize) -> (r: Option<(Vec<usize>, usize)>)
    ensures
        match r {
            Some(v) => dec_positions(b@, p as int, count as int) == Option::Some(
                (v.0@.map_values(|x: usize| x as int), v.1 as int),
            ),
            None => dec_positions(b@, p as int, count as int) is None,
        },
    decreases count,
{
    if count == 0 {
        let out: Vec<usize> = Vec::new();
        proof {
            assert(out@.map_values(|x: usize| x as int) =~= Seq::<int>::empty());
        }
        Some((out, p))
    } else {
        match read_u64(b, p) {
            None => None,
            Some((x, p1)) => {
                if x > usize::MAX as u64 {
                    return None;
                }
                match read_positions(b, p1, count - 1) {
                    None => None,
                    Some((mut rest, p2)) => {
                        let ghost rv = rest@.map_values(|y: usize| y as int);
                        let mut out: Vec<usize> = Vec::new();
                        out.push(x as usize);
                        out.append(&mut rest);
                        proof {
                            assert(out@.map_values(|y: usize| y as int) =~= seq![x as int] + rv);
                        }
                        Some((out, p2))
                    },
                }
            },
        }
    }
}

fn read_entry(b: &Vec<u8>, p: usize) -> (r: Option<(IndexEntry, usize)>)
    ensures
        match r {
            Some(v) => dec_entry(b@, p as int) == Option::Some((v.0@, v.1 as int)),
            None => dec_entry(b@, p as int) is None,
        },
{
    match read_str(b, p) {
        None => None,
        Some((key, p1)) => match read_u64(b, p1) {
            None => None,
            Some((n, p2)) => {
                if n > usize::MAX as u64 {
                    return None;
                }
                match read_positions(b, p2, n as usize) {
                    None => None,
                    Some((positions, p3)) => Some((IndexEntry { key, positions }, p3)),
                }
            },
        },
    }
}

fn read_entries(b: &Vec<u8>, p: usize, count: usize) -> (r: Option<(Vec<IndexEntry>, usize)>)
    ensures
        match r {
            Some(v) => dec_entries(b@, p as int, count as int) == Option::Some(
                (v.0@.map_values(|e: IndexEntry| e@), v.1 as int),
            ),
            None => dec_entries(b@, p as int, count as int) is None,
        },
    decreases count,
{
    if count == 0 {
        let out: Vec<IndexEntry> = Vec::new();
        proof {
            assert(out@.map_values(|e: IndexEntry| e@) =~= Seq::<IndexEntryView>::empty());
        }
        Some((out, p))
    } else {
        match read_entry(b, p) {
            None => None,
            Some((e, p1)) => match read_entries(b, p1, count - 1) {
                None => None,
                Some((mut rest, p2)) => {
                    let ghost ev = e@;
                    let ghost rv = rest@.map_values(|x: IndexEntry| x@);
                    let mut out: Vec<IndexEntry> = Vec::new();
                    out.push(e);
                    out.append(&mut rest);
                    proof {
                        assert(out@.map_values(|x: IndexEntry| x@) =~= seq![ev] + rv);
                    }
                    Some((out, p2))
                },
            },
        }
    }
}

/// Whether the entries' keys are pairwise distinct.
fn check_unique_keys(entries: &Vec<IndexEntry>) -> (r: bool)
    ensures
        r == unique_keys(entries@.map_values(|e: IndexEntry| e@)),
{
    let ghost ev = entries@.map_values(|e: IndexEntry| e@);
    let mut i: usize = 1;
    while i < entries.len()
        invariant
            1 <= i <= entries.len() || entries@.len() == 0,
            ev == entries@.map_values(|e: IndexEntry| e@),
            forall|a: int, b: int| 0 <= a < b < i ==> (#[trigger] ev[a]).key != (#[trigger] ev[b]).key,
        decreases entries.len() - i,
    {
        let mut j: usize = 0;
        while j < i
            invariant
                0 <= j <= i < entries.len(),
                ev == entries@.map_values(|e: IndexEntry| e@),
                forall|a: int| 0 <= a < j ==> (#[trigger] ev[a]).key != ev[i as int].key,
            decreases i - j,
        {
            proof {
                assert(ev[j as int] == entries@[j as int]@);
                assert(ev[i as int] == entries@[i as int]@);
            }
            if entries[j].key == entries[i].key {
                return false;
            }
            j = j + 1;
        }
        i = i + 1;
    }
    true
}

fn read_record(b: &Vec<u8>, p: usize) -> (r: Option<((Table, BTreeIndex), usize)>)
    ensures
        match r {
            Some(v) => dec_record(b@, p as int) == Option::Some(((v.0.0@, v.0.1@), v.1 as int)),
            None => dec_record(b@, p as int) is None,
        },
{
    match read_str(b, p) {
        None => None,
        Some((name, p1)) => match read_u64(b, p1) {
            None => None,
            Some((nc, p2)) => {
                if nc > usize::MAX as u64 {
                    return None;
                }
                match read_columns(b, p2, nc as usize) {
                    None => None,
                    Some((columns, p3)) => match read_u64(b, p3) {
                        None => None,
                        Some((nr, p4)) => {
                            if nr > usize::MAX as u64 {
                                return None;
                            }
                            match read_rows(b, p4, nr as usize, nc as usize) {
                                None => None,
                                Some((rows, p5)) => match read_u64(b, p5) {
                                    None => None,
                                    Some((ne, p6)) => {
                                        if ne > usize::MAX as u64 {
                                            return None;
                                        }
                                        match read_entries(b, p6, ne as usize) {
                                            None => None,
                                            Some((entries, p7)) => {
                                                if check_unique_keys(&entries) {
                                                    Some(
                                                        (
                                                            (
                                                                Table { name, columns, rows },
                                                                BTreeIndex { entries },
                                                            ),
                                                            p7,
                                                        ),
                                                    )
                                                } else {
                                                    None
                                                }
                                            },
                                        }
                                    },
                                },
                            }
                        },
                    },
                }
            },
        },
    }
}

fn read_records(b: &Vec<u8>, p: usize, count: usize) -> (r: Option<
    ((Vec<Table>, Vec<BTreeIndex>), usize),
>)
    ensures
        match r {
            Some(v) => dec_records(b@, p as int, count as int) == Option::Some(
                (
                    (
                        v.0.0@.map_values(|t: Table| t@),
                        v.0.1@.map_values(|ix: BTreeIndex| ix@),
                    ),
                    v.1 as int,
                ),
            ),
            None => dec_records(b@, p as int, count as int) is None,
        },
    decreases count,
{
    if count == 0 {
        let ts: Vec<Table> = Vec::new();
        let ixs: Vec<BTreeIndex> = Vec::new();
        proof {
            assert(ts@.map_values(|t: Table| t@) =~= Seq::<TableView>::empty());
            assert(ixs@.map_values(|ix: BTreeIndex| ix@) =~= Seq::<Seq<IndexEntryView>>::empty());
        }
        Some(((ts, ixs), p))
    } else {
        match read_record(b, p) {
            None => None,
            Some(((t, ix), p1)) => match read_records(b, p1, count - 1) {
                None => None,
                Some(((mut ts, mut ixs), p2)) => {
                    let ghost tv = t@;
                    let ghost ixv = ix@;
                    let ghost tsv = ts@.map_values(|x: Table| x@);
                    let ghost ixsv = ixs@.map_values(|x: BTreeIndex| x@);
                    let mut out_ts: Vec<Table> = Vec::new();
                    out_ts.push(t);
                    out_ts.append(&mut ts);
                    let mut out_ixs: Vec<BTreeIndex> = Vec::new();
                    out_ixs.push(ix);
                    out_ixs.append(&mut ixs);
                    proof {
                        assert(out_ts@.map_values(|x: Table| x@) =~= seq![tv] + tsv);
                        assert(out_ixs@.map_values(|x: BTreeIndex| x@) =~= seq![ixv] + ixsv);
                    }
                    Some(((out_ts, out_ixs), p2))
                },
            },
        }
    }
}

/// Whether the tables' names are pairwise distinct.
fn check_distinct_names(tables: &Vec<Table>) -> (r: bool)
    ensures
        r == distinct_names(tables@.map_values(|t: Table| t@)),
{
    let ghost tv = tables@.map_values(|t: Table| t@);
    let mut i: usize = 1;
    while i < tables.len()
        invariant
            1 <= i <= tables.len() || tables@.len() == 0,
            tv == tables@.map_values(|t: Table| t@),
            forall|a: int, b: int| 0 <= a < b < i ==> (#[trigger] tv[a]).name != (#[trigger] tv[b]).name,
        decreases tables.len() - i,
    {
        let mut j: usize = 0;
        while j < i
            invariant
                0 <= j <= i < tables.len(),
                tv == tables@.map_values(|t: Table| t@),
                forall|a: int| 0 <= a < j ==> (#[trigger] tv[a]).name != tv[i as int].name,
            decreases i - j,
        {
            proof {
                assert(tv[j as int] == tables@[j as int]@);
                assert(tv[i as int] == tables@[i as int]@);
            }
            if tables[j].name == tables[i].name {
                return false;
            }
            j = j + 1;
        }
        i = i + 1;
    }
    true
}

/// Read a whole image back, or nothing when the bytes are not the image of a
/// well-formed state.
pub fn decode_state(b: &Vec<u8>) -> (r: Option<DatabaseState>)
    ensures
        match r {
            Some(s) => dec_state(b@) == Option::Some(s@),
            None => dec_state(b@) is None,
        },
{
    match read_u64(b, 0) {
        None => None,
        Some((n, p1)) => {
            if n > usize::MAX as u64 {
                return None;
            }
            match read_records(b, p1, n as usize) {
                None => None,
                Some(((tables, indexes), p2)) => {
                    if p2 == b.len() && check_distinct_names(&tables) {
                        Some(DatabaseState { tables, indexes })
                    } else {
                        None
                    }
                },
            }
        },
    }
}

// ---------------------------------------------------------------------------
// The round trip: reading an encoder's image back yields the state it was
// taken of, layer by layer.
// ---------------------------------------------------------------------------

proof fn lemma_rt_u64(b: Seq<u8>, p: int, x: u64)
    requires
        0 <= p,
        p + 8 <= b.len(),
        b.subrange(p, p + 8) == enc_u64(x),
    ensures
        dec_u64(b, p) == Option::Some((x, p + 8)),
{
    lemma_auto_spec_u64_to_from_le_bytes();
}

proof fn lemma_rt_str(b: Seq<u8>, p: int, s: Seq<char>)
    requires
        0 <= p,
        str_encodable(s),
        p + enc_str(s).len() <= b.len(),
        b.subrange(p, p + enc_str(s).len() as int) == enc_str(s),
    ensures
        dec_str(b, p) == Option::Some((s, p + enc_str(s).len())),
{
    lemma_auto_spec_u64_to_from_le_bytes();
    let n = encode_utf8(s).len() as int;
    let nw = encode_utf8(s).len() as u64;
    assert(enc_u64(nw).len() == 8);
    assert(enc_str(s).len() == 8 + n);
    assert(b.subrange(p, p + 8) =~= enc_u64(nw)) by {
        assert forall|i: int| 0 <= i < 8 implies b.subrange(p, p + 8)[i] == enc_u64(nw)[i] by {
            assert(b.subrange(p, p + 8)[i] == b.subrange(p, p + 8 + n)[i]);
        }
    }
    lemma_rt_u64(b, p, nw);
    assert(b.subrange(p + 8, p + 8 + n) =~= encode_utf8(s)) by {
        assert forall|i: int| 0 <= i < n implies b.subrange(p + 8, p + 8 + n)[i] == encode_utf8(
            s,
        )[i] by {
            assert(b.subrange(p + 8, p + 8 + n)[i] == b.subrange(p, p + 8 + n)[i + 8]);
        }
    }
    encode_utf8_valid_utf8(s);
    encode_utf8_decode_utf8(s);
}

proof fn lemma_rt_cells(b: Seq<u8>, p: int, cells: Seq<Seq<char>>)
    requires
        0 <= p,
        forall|i: int| 0 <= i < cells.len() ==> str_encodable(#[trigger] cells[i]),
        p + enc_cells(cells).len() <= b.len(),
        b.subrange(p, p + enc_cells(cells).len() as int) == enc_cells(cells),
    ensures
        dec_cells(b, p, cells.len() as int) == Option::Some(
            (cells, p + enc_cells(cells).len()),
        ),
    decreases cells.len(),
{
    if cells.len() > 0 {
        let e0 = enc_str(cells[0]);
        let rest = enc_cells(cells.drop_first());
        let l0 = e0.len() as int;
        let lr = rest.len() as int;
        assert(enc_cells(cells) == e0 + rest);
        assert(b.subrange(p, p + l0) =~= e0) by {
            assert forall|i: int| 0 <= i < l0 implies b.subrange(p, p + l0)[i] == e0[i] by {
                assert(b.subrange(p, p + l0)[i] == b.subrange(p, p + l0 + lr)[i]);
            }
        }
        lemma_rt_str(b, p, cells[0]);
        assert(b.subrange(p + l0, p + l0 + lr) =~= rest) by {
            assert forall|i: int| 0 <= i < lr implies b.subrange(p + l0, p + l0 + lr)[i]
                == rest[i] by {
                assert(b.subrange(p + l0, p + l0 + lr)[i] == b.subrange(p, p + l0 + lr)[i + l0]);
            }
        }
        lemma_rt_cells(b, p + l0, cells.drop_first());
        assert(seq![cells[0]] + cells.drop_first() =~= cells);
    }
}

proof fn lemma_rt_column(b: Seq<u8>, p: int, c: ColumnView)
    requires
        0 <= p,
        column_encodable(c),
        p + enc_column(c).len() <= b.len(),
        b.subrange(p, p + enc_column(c).len() as int) == enc_column(c),
    ensures
        dec_column(b, p) == Option::Some((c, p + enc_column(c).len())),
{
    let e0 = enc_str(c.name);
    let e1 = enc_str(c.data_type);
    let l0 = e0.len() as int;
    let l1 = e1.len() as int;
    assert(b.subrange(p, p + l0) =~= e0) by {
        assert forall|i: int| 0 <= i < l0 implies b.subrange(p, p + l0)[i] == e0[i] by {
            assert(b.subrange(p, p + l0)[i] == b.subrange(p, p + l0 + l1)[i]);
        }
    }
    lemma_rt_str(b, p, c.name);
    assert(b.subrange(p + l0, p + l0 + l1) =~= e1) by {
        assert forall|i: int| 0 <= i < l1 implies b.subrange(p + l0, p + l0 + l1)[i] == e1[i] by {
            assert(b.subrange(p + l0, p + l0 + l1)[i] == b.subrange(p, p + l0 + l1)[i + l0]);
        }
    }
    lemma_rt_str(b, p + l0, c.data_type);
}

proof fn lemma_rt_columns(b: Seq<u8>, p: int, cols: Seq<ColumnView>)
    requires
        0 <= p,
        forall|i: int| 0 <= i < cols.len() ==> column_encodable(#[trigger] cols[i]),
        p + enc_columns(cols).len() <= b.len(),
        b.subrange(p, p + enc_columns(cols).len() as int) == enc_columns(cols),
    ensures
        dec_columns(b, p, cols.len() as int) == Option::Some(
            (cols, p + enc_columns(cols).len()),
        ),
    decreases cols.len(),
{
    if cols.len() > 0 {
        let e0 = enc_column(cols[0]);
        let rest = enc_columns(cols.drop_first());
        let l0 = e0.len() as int;
        let lr = rest.len() as int;
        assert(b.subrange(p, p + l0) =~= e0) by {
            assert forall|i: int| 0 <= i < l0 implies b.subrange(p, p + l0)[i] == e0[i] by {
                assert(b.subrange(p, p + l0)[i] == b.subrange(p, p + l0 + lr)[i]);
            }
        }
        lemma_rt_column(b, p, cols[0]);
        assert(b.subrange(p + l0, p + l0 + lr) =~= rest) by {
            assert forall|i: int| 0 <= i < lr implies b.subrange(p + l0, p + l0 + lr)[i]
                == rest[i] by {
                assert(b.subrange(p + l0, p + l0 + lr)[i] == b.subrange(p, p + l0 + lr)[i + l0]);
            }
        }
        lemma_rt_columns(b, p + l0, cols.drop_first());
        assert(seq![cols[0]] + cols.drop_first() =~= cols);
    }
}

proof fn lemma_rt_rows(b: Seq<u8>, p: int, rows: Seq<Seq<Seq<char>>>, ncols: int)
    requires
        0 <= p,
        forall|i: int| 0 <= i < rows.len() ==> row_encodable(#[trigger] rows[i]),
        forall|i: int| 0 <= i < rows.len() ==> (#[trigger] rows[i]).len() == ncols,
        p + enc_rows(rows).len() <= b.len(),
        b.subrange(p, p + enc_rows(rows).len() as int) == enc_rows(rows),
    ensures
        dec_rows(b, p, rows.len() as int, ncols) == Option::Some(
            (rows, p + enc_rows(rows).len()),
        ),
    decreases rows.len(),
{
    if rows.len() > 0 {
        let e0 = enc_cells(rows[0]);
        let rest = enc_rows(rows.drop_first());
        let l0 = e0.len() as int;
        let lr = rest.len() as int;
        assert(b.subrange(p, p + l0) =~= e0) by {
            assert forall|i: int| 0 <= i < l0 implies b.subrange(p, p + l0)[i] == e0[i] by {
                assert(b.subrange(p, p + l0)[i] == b.subrange(p, p + l0 + lr)[i]);
            }
        }
        lemma_rt_cells(b, p, rows[0]);
        assert(b.subrange(p + l0, p + l0 + lr) =~= rest) by {
            assert forall|i: int| 0 <= i < lr implies b.subrange(p + l0, p + l0 + lr)[i]
                == rest[i] by {
                assert(b.subrange(p + l0, p + l0 + lr)[i] == b.subrange(p, p + l0 + lr)[i + l0]);
            }
        }
        lemma_rt_rows(b, p + l0, rows.drop_first(), ncols);
        assert(seq![rows[0]] + rows.drop_first() =~= rows);
    }
}

proof fn lemma_rt_positions(b: Seq<u8>, p: int, ps: Seq<int>)
    requires
        0 <= p,
        forall|i: int| 0 <= i < ps.len() ==> 0 <= #[trigger] ps[i] <= usize::MAX,
        p + enc_positions(ps).len() <= b.len(),
        b.subrange(p, p + enc_positions(ps).len() as int) == enc_positions(ps),
    ensures
        dec_positions(b, p, ps.len() as int) == Option::Some(
            (ps, p + enc_positions(ps).len()),
        ),
    decreases ps.len(),
{
    if ps.len() > 0 {
        let e0 = enc_u64(ps[0] as u64);
        let rest = enc_positions(ps.drop_first());
        let l0 = e0.len() as int;
        let lr = rest.len() as int;
        lemma_auto_spec_u64_to_from_le_bytes();
        assert(b.subrange(p, p + l0) =~= e0) by {
            assert forall|i: int| 0 <= i < l0 implies b.subrange(p, p + l0)[i] == e0[i] by {
                assert(b.subrange(p, p + l0)[i] == b.subrange(p, p + l0 + lr)[i]);
            }
        }
        lemma_rt_u64(b, p, ps[0] as u64);
        assert(b.subrange(p + l0, p + l0 + lr) =~= rest) by {
            assert forall|i: int| 0 <= i < lr implies b.subrange(p + l0, p + l0 + lr)[i]
                == rest[i] by {
                assert(b.subrange(p + l0, p + l0 + lr)[i] == b.subrange(p, p + l0 + lr)[i + l0]);
            }
        }
        lemma_rt_positions(b, p + l0, ps.drop_first());
        assert(seq![ps[0]] + ps.drop_first() =~= ps);
    }
}

proof fn lemma_rt_entry(b: Seq<u8>, p: int, e: IndexEntryView)
    requires
        0 <= p,
        entry_encodable(e),
        p + enc_entry(e).len() <= b.len(),
        b.subrange(p, p + enc_entry(e).len() as int) == enc_entry(e),
    ensures
        dec_entry(b, p) == Option::Some((e, p + enc_entry(e).len())),
{
    let e0 = enc_str(e.key);
    let e1 = enc_u64(e.positions.len() as u64);
    let e2 = enc_positions(e.positions);
    let l0 = e0.len() as int;
    let l1 = e1.len() as int;
    let l2 = e2.len() as int;
    lemma_auto_spec_u64_to_from_le_bytes();
    assert(b.subrange(p, p + l0) =~= e0) by {
        assert forall|i: int| 0 <= i < l0 implies b.subrange(p, p + l0)[i] == e0[i] by {
            assert(b.subrange(p, p + l0)[i] == b.subrange(p, p + l0 + l1 + l2)[i]);
        }
    }
    lemma_rt_str(b, p, e.key);
    assert(b.subrange(p + l0, p + l0 + l1) =~= e1) by {
        assert forall|i: int| 0 <= i < l1 implies b.subrange(p + l0, p + l0 + l1)[i] == e1[i] by {
            assert(b.subrange(p + l0, p + l0 + l1)[i] == b.subrange(p, p + l0 + l1 + l2)[i + l0]);
        }
    }
    lemma_rt_u64(b, p + l0, e.positions.len() as u64);
    assert(b.subrange(p + l0 + l1, p + l0 + l1 + l2) =~= e2) by {
        assert forall|i: int| 0 <= i < l2 implies b.subrange(p + l0 + l1, p + l0 + l1 + l2)[i]
            == e2[i] by {
            assert(b.subrange(p + l0 + l1, p + l0 + l1 + l2)[i] == b.subrange(
                p,
                p + l0 + l1 + l2,
            )[i + l0 + l1]);
        }
    }
    lemma_rt_positions(b, p + l0 + l1, e.positions);
}

proof fn lemma_rt_entries(b: Seq<u8>, p: int, entries: Seq<IndexEntryView>)
    requires
        0 <= p,
        forall|i: int| 0 <= i < entries.len() ==> entry_encodable(#[trigger] entries[i]),
        p + enc_entries(entries).len() <= b.len(),
        b.subrange(p, p + enc_entries(entries).len() as int) == enc_entries(entries),
    ensures
        dec_entries(b, p, entries.len() as int) == Option::Some(
            (entries, p + enc_entries(entries).len()),
        ),
    decreases entries.len(),
{
    if entries.len() > 0 {
        let e0 = enc_entry(entries[0]);
        let rest = enc_entries(entries.drop_first());
        let l0 = e0.len() as int;
        let lr = rest.len() as int;
        assert(b.subrange(p, p + l0) =~= e0) by {
            assert forall|i: int| 0 <= i < l0 implies b.subrange(p, p + l0)[i] == e0[i] by {
                assert(b.subrange(p, p + l0)[i] == b.subrange(p, p + l0 + lr)[i]);
            }
        }
        lemma_rt_entry(b, p, entries[0]);
        assert(b.subrange(p + l0, p + l0 + lr) =~= rest) by {
            assert forall|i: int| 0 <= i < lr implies b.subrange(p + l0, p + l0 + lr)[i]
                == rest[i] by {
                assert(b.subrange(p + l0, p + l0 + lr)[i] == b.subrange(p, p + l0 + lr)[i + l0]);
            }
        }
        lemma_rt_entries(b, p + l0, entries.drop_first());
        assert(seq![entries[0]] + entries.drop_first() =~= entries);
    }
}

proof fn lemma_rt_record(b: Seq<u8>, p: int, t: TableView, entries: Seq<IndexEntryView>)
    requires
        0 <= p,
        t.wf(),
        table_encodable(t),
        entries_encodable(entries),
        unique_keys(entries),
        p + enc_record(t, entries).len() <= b.len(),
        b.subrange(p, p + enc_record(t, entries).len() as int) == enc_record(t, entries),
    ensures
        dec_record(b, p) == Option::Some(((t, entries), p + enc_record(t, entries).len())),
{
    let e0 = enc_str(t.name);
    let e1 = enc_u64(t.columns.len() as u64);
    let e2 = enc_columns(t.columns);
    let e3 = enc_u64(t.rows.len() as u64);
    let e4 = enc_rows(t.rows);
    let e5 = enc_u64(entries.len() as u64);
    let e6 = enc_entries(entries);
    let l0 = e0.len() as int;
    let l1 = e1.len() as int;
    let l2 = e2.len() as int;
    let l3 = e3.len() as int;
    let l4 = e4.len() as int;
    let l5 = e5.len() as int;
    let l6 = e6.len() as int;
    let total = l0 + l1 + l2 + l3 + l4 + l5 + l6;
    lemma_auto_spec_u64_to_from_le_bytes();
    assert(enc_record(t, entries).len() == total);
    let whole = b.subrange(p, p + total);
    assert forall|i: int| 0 <= i < total implies whole[i] == enc_record(t, entries)[i] by {}
    assert(b.subrange(p, p + l0) =~= e0) by {
        assert forall|i: int| 0 <= i < l0 implies b.subrange(p, p + l0)[i] == e0[i] by {
            assert(b.subrange(p, p + l0)[i] == whole[i]);
        }
    }
    lemma_rt_str(b, p, t.name);
    let q1 = p + l0;
    assert(b.subrange(q1, q1 + l1) =~= e1) by {
        assert forall|i: int| 0 <= i < l1 implies b.subrange(q1, q1 + l1)[i] == e1[i] by {
            assert(b.subrange(q1, q1 + l1)[i] == whole[i + l0]);
        }
    }
    lemma_rt_u64(b, q1, t.columns.len() as u64);
    let q2 = q1 + l1;
    assert(b.subrange(q2, q2 + l2) =~= e2) by {
        assert forall|i: int| 0 <= i < l2 implies b.subrange(q2, q2 + l2)[i] == e2[i] by {
            assert(b.subrange(q2, q2 + l2)[i] == whole[i + l0 + l1]);
        }
    }
    lemma_rt_columns(b, q2, t.columns);
    let q3 = q2 + l2;
    assert(b.subrange(q3, q3 + l3) =~= e3) by {
        assert forall|i: int| 0 <= i < l3 implies b.subrange(q3, q3 + l3)[i] == e3[i] by {
            assert(b.subrange(q3, q3 + l3)[i] == whole[i + l0 + l1 + l2]);
        }
    }
    lemma_rt_u64(b, q3, t.rows.len() as u64);
    let q4 = q3 + l3;
    assert(b.subrange(q4, q4 + l4) =~= e4) by {
        assert forall|i: int| 0 <= i < l4 implies b.subrange(q4, q4 + l4)[i] == e4[i] by {
            assert(b.subrange(q4, q4 + l4)[i] == whole[i + l0 + l1 + l2 + l3]);
        }
    }
    lemma_rt_rows(b, q4, t.rows, t.columns.len() as int);
    let q5 = q4 + l4;
    assert(b.subrange(q5, q5 + l5) =~= e5) by {
        assert forall|i: int| 0 <= i < l5 implies b.subrange(q5, q5 + l5)[i] == e5[i] by {
            assert(b.subrange(q5, q5 + l5)[i] == whole[i + l0 + l1 + l2 + l3 + l4]);
        }
    }
    lemma_rt_u64(b, q5, entries.len() as u64);
    let q6 = q5 + l5;
    assert(b.subrange(q6, q6 + l6) =~= e6) by {
        assert forall|i: int| 0 <= i < l6 implies b.subrange(q6, q6 + l6)[i] == e6[i] by {
            assert(b.subrange(q6, q6 + l6)[i] == whole[i + l0 + l1 + l2 + l3 + l4 + l5]);
        }
    }
    lemma_rt_entries(b, q6, entries);
}

proof fn lemma_rt_records(
    b: Seq<u8>,
    p: int,
    tables: Seq<TableView>,
    indexes: Seq<Seq<IndexEntryView>>,
)
    requires
        0 <= p,
        tables.len() == indexes.len(),
        forall|i: int| 0 <= i < tables.len() ==> (#[trigger] tables[i]).wf(),
        forall|i: int| 0 <= i < tables.len() ==> table_encodable(#[trigger] tables[i]),
        forall|i: int| 0 <= i < indexes.len() ==> entries_encodable(#[trigger] indexes[i]),
        forall|i: int| 0 <= i < indexes.len() ==> unique_keys(#[trigger] indexes[i]),
        p + enc_records(tables, indexes).len() <= b.len(),
        b.subrange(p, p + enc_records(tables, indexes).len() as int) == enc_records(
            tables,
            indexes,
        ),
    ensures
        dec_records(b, p, tables.len() as int) == Option::Some(
            ((tables, indexes), p + enc_records(tables, indexes).len()),
        ),
    decreases tables.len(),
{
    if tables.len() > 0 {
        let e0 = enc_record(tables[0], indexes[0]);
        let rest = enc_records(tables.drop_first(), indexes.drop_first());
        let l0 = e0.len() as int;
        let lr = rest.len() as int;
        assert(b.subrange(p, p + l0) =~= e0) by {
            assert forall|i: int| 0 <= i < l0 implies b.subrange(p, p + l0)[i] == e0[i] by {
                assert(b.subrange(p, p + l0)[i] == b.subrange(p, p + l0 + lr)[i]);
            }
        }
        lemma_rt_record(b, p, tables[0], indexes[0]);
        assert(b.subrange(p + l0, p + l0 + lr) =~= rest) by {
            assert forall|i: int| 0 <= i < lr implies b.subrange(p + l0, p + l0 + lr)[i]
                == rest[i] by {
                assert(b.subrange(p + l0, p + l0 + lr)[i] == b.subrange(p, p + l0 + lr)[i + l0]);
            }
        }
        lemma_rt_records(b, p + l0, tables.drop_first(), indexes.drop_first());
        assert(seq![tables[0]] + tables.drop_first() =~= tables);
        assert(seq![indexes[0]] + indexes.drop_first() =~= indexes);
    }
}

// ---------------------------------------------------------------------------
// Whatever decodes is a well-formed state: every row the width of its schema,
// names and keys distinct, one index per table.
// ---------------------------------------------------------------------------

proof fn lemma_dec_cells_len(b: Seq<u8>, p: int, count: int)
    ensures
        dec_cells(b, p, count) matches Some(v) ==> v.0.len() == if count >= 0 {
            count
        } else {
            0
        },
    decreases count,
{
    if count > 0 {
        if let Option::Some((c, p1)) = dec_str(b, p) {
            lemma_dec_cells_len(b, p1, count - 1);
        }
    }
}

proof fn lemma_dec_columns_len(b: Seq<u8>, p: int, count: int)
    ensures
        dec_columns(b, p, count) matches Some(v) ==> v.0.len() == if count >= 0 {
            count
        } else {
            0
        },
    decreases count,
{
    if count > 0 {
        if let Option::Some((c, p1)) = dec_column(b, p) {
            lemma_dec_columns_len(b, p1, count - 1);
        }
    }
}

proof fn lemma_dec_rows_shape(b: Seq<u8>, p: int, nrows: int, ncols: int)
    ensures
        dec_rows(b, p, nrows, ncols) matches Some(v) ==> forall|i: int|
            0 <= i < v.0.len() ==> (#[trigger] v.0[i]).len() == if ncols >= 0 {
                ncols
            } else {
                0
            },
    decreases nrows,
{
    if nrows > 0 {
        if let Option::Some((row, p1)) = dec_cells(b, p, ncols) {
            lemma_dec_cells_len(b, p, ncols);
            lemma_dec_rows_shape(b, p1, nrows - 1, ncols);
            if let Option::Some((rest, p2)) = dec_rows(b, p1, nrows - 1, ncols) {
                assert forall|i: int| 0 <= i < rest.len() + 1 implies ((#[trigger] (seq![row]
                    + rest)[i]).len() == if ncols >= 0 {
                    ncols
                } else {
                    0
                }) by {
                    if i > 0 {
                        assert((seq![row] + rest)[i] == rest[i - 1]);
                    }
                }
            }
        }
    }
}

proof fn lemma_dec_records_wf(b: Seq<u8>, p: int, count: int)
    ensures
        dec_records(b, p, count) matches Some(v) ==> {
            &&& v.0.0.len() == v.0.1.len()
            &&& forall|i: int| 0 <= i < v.0.0.len() ==> (#[trigger] v.0.0[i]).wf()
            &&& forall|i: int| 0 <= i < v.0.1.len() ==> unique_keys(#[trigger] v.0.1[i])
        },
    decreases count,
{
    if count > 0 {
        if let Option::Some(((t, ix), p1)) = dec_record(b, p) {
            assert(t.wf()) by {
                if let Option::Some((name, q1)) = dec_str(b, p) {
                    if let Option::Some((nc, q2)) = dec_u64(b, q1) {
                        if nc <= usize::MAX as u64 {
                            lemma_dec_columns_len(b, q2, nc as int);
                            if let Option::Some((cols, q3)) = dec_columns(b, q2, nc as int) {
                                if let Option::Some((nr, q4)) = dec_u64(b, q3) {
                                    if nr <= usize::MAX as u64 {
                                        lemma_dec_rows_shape(b, q4, nr as int, nc as int);
                                    }
                                }
                            }
                        }
                    }
                }
            }
            lemma_dec_records_wf(b, p1, count - 1);
            if let Option::Some(((ts, ixs), p2)) = dec_records(b, p1, count - 1) {
                assert forall|i: int| 0 <= i < ts.len() + 1 implies (#[trigger] (seq![t]
                    + ts)[i]).wf() by {
                    if i > 0 {
                        assert((seq![t] + ts)[i] == ts[i - 1]);
                    }
                }
                assert forall|i: int| 0 <= i < ixs.len() + 1 implies unique_keys(
                    #[trigger] (seq![ix] + ixs)[i],
                ) by {
                    if i > 0 {
                        assert((seq![ix] + ixs)[i] == ixs[i - 1]);
                    }
                }
            }
        }
    }
}

/// Whatever `dec_state` accepts satisfies the store's standing invariant.
pub proof fn lemma_dec_state_wf(b: Seq<u8>)
    ensures
        dec_state(b) matches Some(s) ==> s.wf(),
{
    if let Option::Some((n, p1)) = dec_u64(b, 0) {
        if n <= usize::MAX as u64 {
            lemma_dec_records_wf(b, p1, n as int);
        }
    }
}

/// The snapshot round trip: decoding the image of any well-formed,
/// machine-representable state yields exactly that state — the same tables
/// with the same columns, the same rows in the same order, and the same index
/// entries.
pub proof fn lemma_state_round_trip(s: StateView)
    requires
        s.wf(),
        state_encodable(s),
    ensures
        dec_state(enc_state(s)) == Option::Some(s),
{
    let b = enc_state(s);
    let e0 = enc_u64(s.tables.len() as u64);
    let rest = enc_records(s.tables, s.indexes);
    let l0 = e0.len() as int;
    let lr = rest.len() as int;
    lemma_auto_spec_u64_to_from_le_bytes();
    assert(b.subrange(0, l0) =~= e0);
    lemma_rt_u64(b, 0, s.tables.len() as u64);
    assert(b.subrange(l0, l0 + lr) =~= rest);
    lemma_rt_records(b, l0, s.tables, s.indexes);
    assert(StateView { tables: s.tables, indexes: s.indexes } =~= s);
}

} // verus!

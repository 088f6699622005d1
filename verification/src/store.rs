//! The table store: the name-to-table and name-to-index mappings, the
//! operations CREATE / INSERT / SELECT over them, and the durability
//! metadata.
//!
//! Durability policy: a successful CREATE requests a snapshot synchronously;
//! a successful INSERT marks the state dirty and requests one only when the
//! dirty window (`max_dirty_duration`) has elapsed since the last snapshot.
//! The store itself never touches storage: it raises `wants_flush`, and the
//! caller writes the bytes of `take_snapshot` to stable storage as one atomic
//! replace while still holding its exclusive critical section.
//!
//! Every operation validates before it mutates: a failing operation leaves
//! the store unchanged.

use vstd::prelude::*;
use vstd::string::{StrSliceExecFns, StringExecFns};

use crate::codec::{dec_state, decode_state, enc_state, encode_state, lemma_dec_state_wf};
use crate::index::{BTreeIndex, IndexEntryView, index_insert, unique_keys};
use crate::table::{
    Column, ColumnView, Table, TableView, find_col, find_column, fingerprint, spec_fingerprint,
    matching_positions, matching_up_to, lemma_find_col,
};

verus! {

/// Why an operation failed. Every failure leaves the store unchanged.
#[derive(Debug)]
pub enum DbError {
    /// CREATE of a name that is already taken.
    AlreadyExists { table: String },
    /// INSERT into or SELECT from a table that does not exist.
    NotFound { table: String },
    /// INSERT whose value count differs from the table's column count.
    SchemaMismatch,
    /// SELECT naming a projection column (`column` is `None`) or a predicate
    /// column (`column` names it) absent from the schema.
    ColumnNotFound { column: Option<String> },
    /// A WHERE operator other than `=`.
    UnsupportedOperator { operator: String },
    /// A WHERE clause that is not exactly `<column> <operator> <literal>`.
    MalformedCommand,
}

/// The model of an error.
pub enum DbErrorView {
    AlreadyExists { table: Seq<char> },
    NotFound { table: Seq<char> },
    SchemaMismatch,
    ColumnNotFound { column: Option<Seq<char>> },
    UnsupportedOperator { operator: Seq<char> },
    MalformedCommand,
}

impl View for DbError {
    type V = DbErrorView;

    open spec fn view(&self) -> DbErrorView {
        match self {
            DbError::AlreadyExists { table } => DbErrorView::AlreadyExists { table: table@ },
            DbError::NotFound { table } => DbErrorView::NotFound { table: table@ },
            DbError::SchemaMismatch => DbErrorView::SchemaMismatch,
            DbError::ColumnNotFound { column: Some(c) } => DbErrorView::ColumnNotFound {
                column: Some(c@),
            },
            DbError::ColumnNotFound { column: None } => DbErrorView::ColumnNotFound {
                column: None,
            },
            DbError::UnsupportedOperator { operator } => DbErrorView::UnsupportedOperator {
                operator: operator@,
            },
            DbError::MalformedCommand => DbErrorView::MalformedCommand,
        }
    }
}

/// The one text line an error is rendered as.
pub open spec fn spec_message(e: DbErrorView) -> Seq<char> {
    match e {
        DbErrorView::AlreadyExists { table } => "Table '"@ + table + "' already exists"@,
        DbErrorView::NotFound { table } => "Table '"@ + table + "' not found"@,
        DbErrorView::SchemaMismatch => "Number of values doesn't match number of columns"@,
        DbErrorView::ColumnNotFound { column: Some(c) } => "Column '"@ + c + "' not found"@,
        DbErrorView::ColumnNotFound { column: None } => "One or more columns not found"@,
        DbErrorView::UnsupportedOperator { operator } => "Unsupported operator: "@ + operator,
        DbErrorView::MalformedCommand => "Invalid WHERE clause syntax"@,
    }
}

impl DbError {
    /// Render the error as its single text line.
    pub fn message(&self) -> (r: String)
        ensures
            r@ == spec_message(self@),
    {
        match self {
            DbError::AlreadyExists { table } => {
                let mut s = String::from_str("Table '");
                s.append(table.as_str());
                s.append("' already exists");
                s
            },
            DbError::NotFound { table } => {
                let mut s = String::from_str("Table '");
                s.append(table.as_str());
                s.append("' not found");
                s
            },
            DbError::SchemaMismatch => String::from_str(
                "Number of values doesn't match number of columns",
            ),
            DbError::ColumnNotFound { column: Some(c) } => {
                let mut s = String::from_str("Column '");
                s.append(c.as_str());
                s.append("' not found");
                s
            },
            DbError::ColumnNotFound { column: None } => String::from_str(
                "One or more columns not found",
            ),
            DbError::UnsupportedOperator { operator } => {
                let mut s = String::from_str("Unsupported operator: ");
                s.append(operator.as_str());
                s
            },
            DbError::MalformedCommand => String::from_str("Invalid WHERE clause syntax"),
        }
    }
}

/// The store's state: tables and their indexes, aligned position for
/// position. A table and its index are created together and extended
/// together.
pub struct DatabaseState {
    pub tables: Vec<Table>,
    pub indexes: Vec<BTreeIndex>,
}

/// The model of the store's state.
#[verifier::ext_equal]
pub struct StateView {
    pub tables: Seq<TableView>,
    pub indexes: Seq<Seq<IndexEntryView>>,
}

impl View for DatabaseState {
    type V = StateView;

    open spec fn view(&self) -> StateView {
        StateView {
            tables: self.tables@.map_values(|t: Table| t@),
            indexes: self.indexes@.map_values(|ix: BTreeIndex| ix@),
        }
    }
}

/// The position of the first table named `name`, if any.
pub open spec fn find_table(tables: Seq<TableView>, name: Seq<char>) -> Option<int>
    decreases tables.len(),
{
    if tables.len() == 0 {
        Option::None
    } else if tables[0].name == name {
        Option::Some(0int)
    } else {
        match find_table(tables.drop_first(), name) {
            Option::None => Option::None,
            Option::Some(i) => Option::Some(i + 1),
        }
    }
}

/// `find_table` returns exactly the first matching position.
pub proof fn lemma_find_table(tables: Seq<TableView>, name: Seq<char>)
    ensures
        find_table(tables, name) is None ==> forall|j: int|
            0 <= j < tables.len() ==> (#[trigger] tables[j]).name != name,
        find_table(tables, name) matches Some(i) ==> {
            &&& 0 <= i < tables.len()
            &&& tables[i].name == name
            &&& forall|j: int| 0 <= j < i ==> (#[trigger] tables[j]).name != name
        },
    decreases tables.len(),
{
    if tables.len() > 0 && tables[0].name != name {
        lemma_find_table(tables.drop_first(), name);
        assert forall|j: int|
            0 <= j < tables.len() && find_table(tables, name) is None implies (
        #[trigger] tables[j]).name != name by {
            if j > 0 {
                assert(tables.drop_first()[j - 1] == tables[j]);
            }
        }
        if let Option::Some(i) = find_table(tables, name) {
            assert(tables.drop_first()[i - 1] == tables[i]);
            assert forall|j: int| 0 <= j < i implies (#[trigger] tables[j]).name != name by {
                if j > 0 {
                    assert(tables.drop_first()[j - 1] == tables[j]);
                }
            }
        }
    }
}

/// A matching position with no match before it is what `find_table` returns.
pub proof fn lemma_find_table_at(tables: Seq<TableView>, name: Seq<char>, i: int)
    requires
        0 <= i < tables.len(),
        tables[i].name == name,
        forall|j: int| 0 <= j < i ==> (#[trigger] tables[j]).name != name,
    ensures
        find_table(tables, name) == Option::Some(i),
    decreases tables.len(),
{
    if i > 0 {
        assert(tables.drop_first()[i - 1] == tables[i]);
        assert forall|j: int| 0 <= j < i - 1 implies (#[trigger] tables.drop_first()[j]).name
            != name by {
            assert(tables.drop_first()[j] == tables[j + 1]);
        }
        lemma_find_table_at(tables.drop_first(), name, i - 1);
    }
}

/// When no table matches, `find_table` returns `None`.
pub proof fn lemma_find_table_absent(tables: Seq<TableView>, name: Seq<char>)
    requires
        forall|j: int| 0 <= j < tables.len() ==> (#[trigger] tables[j]).name != name,
    ensures
        find_table(tables, name) is None,
    decreases tables.len(),
{
    if tables.len() > 0 {
        assert forall|j: int| 0 <= j < tables.len() - 1 implies (
        #[trigger] tables.drop_first()[j]).name != name by {
            assert(tables.drop_first()[j] == tables[j + 1]);
        }
        lemma_find_table_absent(tables.drop_first(), name);
    }
}

impl StateView {
    /// The store's standing invariant: each table has its index, table names
    /// are pairwise distinct, and every row matches its schema.
    pub open spec fn wf(self) -> bool {
        &&& self.indexes.len() == self.tables.len()
        &&& forall|i: int, j: int|
            0 <= i < j < self.tables.len() ==> (#[trigger] self.tables[i]).name != (
            #[trigger] self.tables[j]).name
        &&& forall|i: int| 0 <= i < self.tables.len() ==> (#[trigger] self.tables[i]).wf()
        &&& forall|i: int| 0 <= i < self.indexes.len() ==> unique_keys(#[trigger] self.indexes[i])
    }

    /// The state holding no tables at all.
    pub open spec fn empty() -> StateView {
        StateView { tables: Seq::empty(), indexes: Seq::empty() }
    }

    pub open spec fn has_table(self, name: Seq<char>) -> bool {
        find_table(self.tables, name) is Some
    }
}

/// The store together with its durability metadata. Access is single-owner:
/// the caller serializes all operations in one exclusive critical section.
pub struct Database {
    state: DatabaseState,
    dirty: bool,
    last_save: u64,
    max_dirty_duration: u64,
    wants_flush: bool,
}

/// The model of the store.
#[verifier::ext_equal]
pub struct DatabaseView {
    pub state: StateView,
    /// In-memory state diverges from the last snapshot.
    pub dirty: bool,
    /// When the last snapshot was requested, in the caller's clock units.
    pub last_save: u64,
    /// The longest tolerated dirty window, in the same units.
    pub max_dirty_duration: u64,
    /// A snapshot is owed to stable storage.
    pub wants_flush: bool,
}

impl View for Database {
    type V = DatabaseView;

    closed spec fn view(&self) -> DatabaseView {
        DatabaseView {
            state: self.state@,
            dirty: self.dirty,
            last_save: self.last_save,
            max_dirty_duration: self.max_dirty_duration,
            wants_flush: self.wants_flush,
        }
    }
}

/// What CREATE does: fail on a taken name, else append the table and a fresh
/// empty index and request a synchronous snapshot.
pub open spec fn spec_create(db: DatabaseView, t: TableView) -> (DatabaseView, Result<
    (),
    DbErrorView,
>) {
    if find_table(db.state.tables, t.name) is Some {
        (db, Result::Err(DbErrorView::AlreadyExists { table: t.name }))
    } else {
        (
            DatabaseView {
                state: StateView {
                    tables: db.state.tables.push(t),
                    indexes: db.state.indexes.push(Seq::empty()),
                },
                dirty: db.dirty,
                last_save: db.last_save,
                max_dirty_duration: db.max_dirty_duration,
                wants_flush: true,
            },
            Result::Ok(()),
        )
    }
}

/// The dirty-window test: a flush is due when the state is dirty and at least
/// `max_dirty_duration` has passed since the last snapshot.
pub open spec fn flush_due(db: DatabaseView, now: u64) -> bool {
    db.dirty && now >= db.last_save + db.max_dirty_duration
}

/// What the flush policy does: when a flush is due, request it and open a new
/// clean window; otherwise change nothing.
pub open spec fn spec_save_if_needed(db: DatabaseView, now: u64) -> DatabaseView {
    if flush_due(db, now) {
        DatabaseView {
            state: db.state,
            dirty: false,
            last_save: now,
            max_dirty_duration: db.max_dirty_duration,
            wants_flush: true,
        }
    } else {
        db
    }
}

/// The index entries after recording the first `upto` cells of a new row at
/// position `pos`: one `index_insert` per column, in schema order.
pub open spec fn row_index_insert(
    entries: Seq<IndexEntryView>,
    cols: Seq<ColumnView>,
    values: Seq<Seq<char>>,
    pos: int,
    upto: int,
) -> Seq<IndexEntryView>
    decreases upto,
{
    if upto <= 0 {
        entries
    } else {
        index_insert(
            row_index_insert(entries, cols, values, pos, upto - 1),
            spec_fingerprint(cols[upto - 1].name, values[upto - 1]),
            pos,
        )
    }
}

/// Recording a row keeps the index's keys pairwise distinct.
pub proof fn lemma_row_index_insert_unique(
    entries: Seq<IndexEntryView>,
    cols: Seq<ColumnView>,
    values: Seq<Seq<char>>,
    pos: int,
    upto: int,
)
    requires
        unique_keys(entries),
    ensures
        unique_keys(row_index_insert(entries, cols, values, pos, upto)),
    decreases upto,
{
    if upto > 0 {
        lemma_row_index_insert_unique(entries, cols, values, pos, upto - 1);
        crate::index::lemma_index_insert_unique(
            row_index_insert(entries, cols, values, pos, upto - 1),
            spec_fingerprint(cols[upto - 1].name, values[upto - 1]),
            pos,
        );
    }
}

/// What INSERT does: fail with `NotFound` on an absent table, with
/// `SchemaMismatch` on a wrong value count — both leaving the store
/// unchanged — and otherwise append the row at the next position, record one
/// index entry per column, mark the state dirty and apply the flush policy.
pub open spec fn spec_insert(
    db: DatabaseView,
    name: Seq<char>,
    values: Seq<Seq<char>>,
    now: u64,
) -> (DatabaseView, Result<(), DbErrorView>) {
    match find_table(db.state.tables, name) {
        Option::None => (db, Result::Err(DbErrorView::NotFound { table: name })),
        Option::Some(ti) => {
            let t = db.state.tables[ti];
            if values.len() != t.columns.len() {
                (db, Result::Err(DbErrorView::SchemaMismatch))
            } else {
                let t2 = TableView { name: t.name, columns: t.columns, rows: t.rows.push(values) };
                let ix2 = row_index_insert(
                    db.state.indexes[ti],
                    t.columns,
                    values,
                    t.rows.len() as int,
                    t.columns.len() as int,
                );
                let db2 = DatabaseView {
                    state: StateView {
                        tables: db.state.tables.update(ti, t2),
                        indexes: db.state.indexes.update(ti, ix2),
                    },
                    dirty: true,
                    last_save: db.last_save,
                    max_dirty_duration: db.max_dirty_duration,
                    wants_flush: db.wants_flush,
                };
                (spec_save_if_needed(db2, now), Result::Ok(()))
            }
        },
    }
}

/// What WHERE evaluation does against a table: demand exactly three tokens
/// `<column> <operator> <literal>`, resolve the column, accept only `=`, and
/// return the positions whose cell equals the literal, in insertion order.
pub open spec fn spec_where(t: TableView, parts: Seq<Seq<char>>) -> Result<Seq<int>, DbErrorView> {
    if parts.len() != 3 {
        Result::Err(DbErrorView::MalformedCommand)
    } else {
        match find_col(t.columns, parts[0]) {
            Option::None => Result::Err(
                DbErrorView::ColumnNotFound { column: Option::Some(parts[0]) },
            ),
            Option::Some(ci) => {
                if parts[1].len() == 1 && parts[1][0] == '=' {
                    Result::Ok(matching_positions(t, ci, parts[2]))
                } else {
                    Result::Err(DbErrorView::UnsupportedOperator { operator: parts[1] })
                }
            },
        }
    }
}

/// WHERE evaluation as a standalone operation: the clause's shape is checked
/// before the table is looked up.
pub open spec fn spec_apply_where(s: StateView, name: Seq<char>, parts: Seq<Seq<char>>) -> Result<
    Seq<int>,
    DbErrorView,
> {
    if parts.len() != 3 {
        Result::Err(DbErrorView::MalformedCommand)
    } else {
        match find_table(s.tables, name) {
            Option::None => Result::Err(DbErrorView::NotFound { table: name }),
            Option::Some(ti) => spec_where(s.tables[ti], parts),
        }
    }
}

/// The first position of each requested column, or `None` when any requested
/// column is absent from the schema.
pub open spec fn resolve_columns(cols: Seq<ColumnView>, requested: Seq<Seq<char>>) -> Option<
    Seq<int>,
>
    decreases requested.len(),
{
    if requested.len() == 0 {
        Option::Some(Seq::empty())
    } else {
        match (find_col(cols, requested[0]), resolve_columns(cols, requested.drop_first())) {
            (Option::Some(i), Option::Some(rest)) => Option::Some(seq![i] + rest),
            _ => Option::None,
        }
    }
}

/// `resolve_columns` succeeds exactly when every requested column resolves,
/// and then returns each one's `find_col` position.
pub proof fn lemma_resolve_columns(cols: Seq<ColumnView>, requested: Seq<Seq<char>>)
    ensures
        resolve_columns(cols, requested) is Some <==> (forall|j: int|
            0 <= j < requested.len() ==> find_col(cols, #[trigger] requested[j]) is Some),
        resolve_columns(cols, requested) matches Some(idxs) ==> {
            &&& idxs.len() == requested.len()
            &&& forall|j: int|
                0 <= j < requested.len() ==> Option::Some(#[trigger] idxs[j]) == find_col(
                    cols,
                    requested[j],
                )
        },
    decreases requested.len(),
{
    if requested.len() > 0 {
        lemma_resolve_columns(cols, requested.drop_first());
        assert(forall|j: int|
            0 < j < requested.len() ==> #[trigger] requested[j] == requested.drop_first()[j - 1]);
        if resolve_columns(cols, requested) is None {
            if find_col(cols, requested[0]) is Some {
                let rest = resolve_columns(cols, requested.drop_first());
                assert(rest is None);
                let w = choose|w: int|
                    0 <= w < requested.drop_first().len() && !(find_col(
                        cols,
                        #[trigger] requested.drop_first()[w],
                    ) is Some);
                assert(requested[w + 1] == requested.drop_first()[w]);
            }
        }
    }
}

/// A requested projection of a single row: the cells at `idxs`, in that order.
pub open spec fn project(row: Seq<Seq<char>>, idxs: Seq<int>) -> Seq<Seq<char>> {
    Seq::new(idxs.len(), |j: int| row[idxs[j]])
}

/// A requested column list that means "all columns, in schema order".
pub open spec fn is_wildcard(cols: Seq<Seq<char>>) -> bool {
    cols.len() == 1 && cols[0].len() == 1 && cols[0][0] == '*'
}

/// What SELECT does: resolve the table, resolve the projection (schema order
/// for `*`), evaluate the predicate if any, and return the header row
/// followed by the projections of the matching rows in insertion order.
pub open spec fn spec_select(
    s: StateView,
    name: Seq<char>,
    cols: Seq<Seq<char>>,
    pred: Option<Seq<Seq<char>>>,
) -> Result<Seq<Seq<Seq<char>>>, DbErrorView> {
    match find_table(s.tables, name) {
        Option::None => Result::Err(DbErrorView::NotFound { table: name }),
        Option::Some(ti) => {
            let t = s.tables[ti];
            let idxs_opt = if is_wildcard(cols) {
                Option::Some(Seq::new(t.columns.len(), |j: int| j))
            } else {
                resolve_columns(t.columns, cols)
            };
            match idxs_opt {
                Option::None => Result::Err(
                    DbErrorView::ColumnNotFound { column: Option::None },
                ),
                Option::Some(idxs) => {
                    let pos_res = match pred {
                        Option::Some(parts) => spec_where(t, parts),
                        Option::None => Result::Ok(Seq::new(t.rows.len(), |i: int| i)),
                    };
                    match pos_res {
                        Result::Err(e) => Result::Err(e),
                        Result::Ok(positions) => {
                            let header = Seq::new(idxs.len(), |j: int| t.columns[idxs[j]].name);
                            Result::Ok(
                                seq![header] + positions.map_values(
                                    |p: int| project(t.rows[p], idxs),
                                ),
                            )
                        },
                    }
                },
            }
        },
    }
}

/// The tokens of an optional WHERE clause, as character sequences.
pub open spec fn opt_parts_view(w: Option<&Vec<String>>) -> Option<Seq<Seq<char>>> {
    match w {
        Option::Some(v) => Option::Some(v.deep_view()),
        Option::None => Option::None,
    }
}

/// Whether `s` is exactly the one character `c`.
pub(crate) fn is_single_char(s: &String, c: char) -> (r: bool)
    ensures
        r == (s@.len() == 1 && s@[0] == c),
{
    if s.as_str().unicode_len() == 1 {
        s.as_str().get_char(0) == c
    } else {
        false
    }
}

impl Database {
    /// A store that starts empty: nothing persisted yet, a clean window
    /// opening at `now`.
    pub fn new(max_dirty_duration: u64, now: u64) -> (r: Database)
        ensures
            r@ == (DatabaseView {
                state: StateView::empty(),
                dirty: false,
                last_save: now,
                max_dirty_duration: max_dirty_duration,
                wants_flush: false,
            }),
            r@.state.wf(),
    {
        let db = Database {
            state: DatabaseState { tables: Vec::new(), indexes: Vec::new() },
            dirty: false,
            last_save: now,
            max_dirty_duration,
            wants_flush: false,
        };
        proof {
            assert(db@.state =~~= StateView::empty());
        }
        db
    }

    /// A store loaded from a persisted snapshot: the decoded state when
    /// `bytes` is a valid image, and — for a corrupt or foreign file — the
    /// empty state, so that startup never fails. The window opens clean at
    /// `now`.
    pub fn from_snapshot(bytes: &Vec<u8>, max_dirty_duration: u64, now: u64) -> (r: Database)
        ensures
            r@.state == match dec_state(bytes@) {
                Option::Some(s) => s,
                Option::None => StateView::empty(),
            },
            r@.dirty == false,
            r@.last_save == now,
            r@.max_dirty_duration == max_dirty_duration,
            r@.wants_flush == false,
            r@.state.wf(),
    {
        match decode_state(bytes) {
            Some(state) => {
                proof {
                    lemma_dec_state_wf(bytes@);
                }
                Database { state, dirty: false, last_save: now, max_dirty_duration, wants_flush: false }
            },
            None => Database::new(max_dirty_duration, now),
        }
    }

    /// The byte image of the complete current state, for the caller to write
    /// to stable storage as one atomic replace; the owed-flush flag is
    /// cleared.
    pub fn take_snapshot(&mut self) -> (r: Vec<u8>)
        requires
            old(self)@.state.wf(),
        ensures
            r@ == enc_state(old(self)@.state),
            final(self)@ == (DatabaseView {
                state: old(self)@.state,
                dirty: old(self)@.dirty,
                last_save: old(self)@.last_save,
                max_dirty_duration: old(self)@.max_dirty_duration,
                wants_flush: false,
            }),
    {
        self.wants_flush = false;
        encode_state(&self.state)
    }

    /// Whether a snapshot is owed to stable storage.
    pub fn flush_requested(&self) -> (r: bool)
        ensures
            r == self@.wants_flush,
    {
        self.wants_flush
    }

    /// Apply the dirty-window flush policy at time `now`.
    pub fn save_if_needed(&mut self, now: u64)
        ensures
            final(self)@ == spec_save_if_needed(old(self)@, now),
    {
        if self.dirty && now >= self.last_save && now - self.last_save >= self.max_dirty_duration {
            self.wants_flush = true;
            self.dirty = false;
            self.last_save = now;
        }
    }

    /// CREATE TABLE: allocate the table and its empty index atomically, or
    /// fail with `AlreadyExists` leaving the store unchanged. A snapshot is
    /// requested synchronously on success.
    pub fn create_table(&mut self, table: Table) -> (r: Result<(), DbError>)
        requires
            old(self)@.state.wf(),
            table@.rows.len() == 0,
        ensures
            final(self)@ == spec_create(old(self)@, table@).0,
            final(self)@.state.wf(),
            match (r, spec_create(old(self)@, table@).1) {
                (Result::Ok(()), Result::Ok(())) => true,
                (Result::Err(e), Result::Err(ev)) => e@ == ev,
                _ => false,
            },
    {
        let ghost old_db = self@;
        let ghost tv = table@;
        let mut i: usize = 0;
        let n = self.tables_len();
        while i < n
            invariant
                0 <= i <= n,
                n == self.state.tables.len(),
                old_db == old(self)@,
                old_db.state.wf(),
                tv == table@,
                self@ == old_db,
                forall|j: int| 0 <= j < i ==> (#[trigger] old_db.state.tables[j]).name != tv.name,
            decreases n - i,
        {
            proof {
                assert(old_db.state.tables[i as int] == self.state.tables@[i as int]@);
            }
            if self.state.tables[i].name == table.name {
                proof {
                    lemma_find_table_at(old_db.state.tables, tv.name, i as int);
                }
                return Result::Err(DbError::AlreadyExists { table: table.name });
            }
            i = i + 1;
        }
        proof {
            lemma_find_table_absent(old_db.state.tables, tv.name);
        }
        self.state.tables.push(table);
        self.state.indexes.push(BTreeIndex::new());
        self.wants_flush = true;
        proof {
            assert(self@.state.tables =~= old_db.state.tables.push(tv));
            assert(self@.state.indexes =~= old_db.state.indexes.push(
                Seq::<IndexEntryView>::empty(),
            ));
            assert(self@ == spec_create(old_db, tv).0);
            lemma_find_table(old_db.state.tables, tv.name);
        }
        Result::Ok(())
    }

    fn tables_len(&self) -> (r: usize)
        ensures
            r == self@.state.tables.len(),
    {
        self.state.tables.len()
    }

    /// The position of the table named `name`, as `find_table` describes.
    fn find_table_index(&self, name: &String) -> (r: Option<usize>)
        ensures
            match r {
                Some(i) => find_table(self@.state.tables, name@) == Option::Some(i as int),
                None => find_table(self@.state.tables, name@) is None,
            },
    {
        let mut i: usize = 0;
        while i < self.state.tables.len()
            invariant
                0 <= i <= self.state.tables.len(),
                forall|j: int| 0 <= j < i ==> (#[trigger] self@.state.tables[j]).name != name@,
            decreases self.state.tables.len() - i,
        {
            proof {
                assert(self@.state.tables[i as int] == self.state.tables@[i as int]@);
            }
            if self.state.tables[i].name == *name {
                proof {
                    lemma_find_table_at(self@.state.tables, name@, i as int);
                }
                return Some(i);
            }
            i = i + 1;
        }
        proof {
            lemma_find_table_absent(self@.state.tables, name@);
        }
        None
    }

    /// INSERT INTO: append `values` as the table's next row and index every
    /// cell under its fingerprint, or fail with `NotFound` or
    /// `SchemaMismatch` leaving the store unchanged. Success marks the state
    /// dirty and applies the dirty-window flush policy at time `now`.
    pub fn insert(&mut self, table_name: &String, values: Vec<String>, now: u64) -> (r: Result<
        (),
        DbError,
    >)
        requires
            old(self)@.state.wf(),
        ensures
            final(self)@ == spec_insert(old(self)@, table_name@, values.deep_view(), now).0,
            final(self)@.state.wf(),
            match (r, spec_insert(old(self)@, table_name@, values.deep_view(), now).1) {
                (Result::Ok(()), Result::Ok(())) => true,
                (Result::Err(e), Result::Err(ev)) => e@ == ev,
                _ => false,
            },
    {
        let ghost old_db = self@;
        let ghost vv = values.deep_view();
        let ti_opt = self.find_table_index(table_name);
        if ti_opt.is_none() {
            return Result::Err(DbError::NotFound { table: table_name.clone() });
        }
        let ti = ti_opt.unwrap();
        proof {
            lemma_find_table(old_db.state.tables, table_name@);
            assert(self@.state.tables[ti as int] == self.state.tables@[ti as int]@);
        }
        let ghost t = old_db.state.tables[ti as int];
        if values.len() != self.state.tables[ti].columns.len() {
            return Result::Err(DbError::SchemaMismatch);
        }
        let row_index = self.state.tables[ti].rows.len();
        let row = clone_row(&values);
        self.state.tables[ti].rows.push(row);
        let ghost t2 = TableView { name: t.name, columns: t.columns, rows: t.rows.push(vv) };
        proof {
            assert(self.state.tables@[ti as int]@.rows =~= t.rows.push(vv));
            assert(self.state.tables@[ti as int]@ =~~= t2);
            assert(self@.state.tables =~~= old_db.state.tables.update(ti as int, t2));
        }
        let ghost mid_tables = self@.state.tables;
        let ghost old_ix = old_db.state.indexes[ti as int];
        let ncols = self.state.tables[ti].columns.len();
        let mut ci: usize = 0;
        proof {
            assert(self@.state.indexes =~= old_db.state.indexes.update(
                ti as int,
                row_index_insert(old_ix, t.columns, vv, row_index as int, 0),
            ));
        }
        while ci < ncols
            invariant
                0 <= ci <= ncols,
                old_db == old(self)@,
                old_db.state.wf(),
                vv == values.deep_view(),
                t == old_db.state.tables[ti as int],
                old_ix == old_db.state.indexes[ti as int],
                ti < old_db.state.tables.len(),
                ti < self.state.tables@.len(),
                ti < self.state.indexes@.len(),
                ncols == t.columns.len(),
                values@.len() == ncols,
                vv.len() == ncols,
                row_index as int == t.rows.len(),
                self@.state.tables == mid_tables,
                self.state.tables@[ti as int]@.columns == t.columns,
                self@.state.indexes =~= old_db.state.indexes.update(
                    ti as int,
                    row_index_insert(old_ix, t.columns, vv, row_index as int, ci as int),
                ),
                self@.dirty == old_db.dirty,
                self@.last_save == old_db.last_save,
                self@.max_dirty_duration == old_db.max_dirty_duration,
                self@.wants_flush == old_db.wants_flush,
            decreases ncols - ci,
        {
            let key = fingerprint(&self.state.tables[ti].columns[ci].name, &values[ci]);
            proof {
                assert(self.state.tables@[ti as int]@.columns[ci as int] == t.columns[ci as int]);
                assert(vv[ci as int] == values@[ci as int]@);
                assert(key@ == spec_fingerprint(t.columns[ci as int].name, vv[ci as int]));
                assert(self.state.indexes@[ti as int]@ == self@.state.indexes[ti as int]);
            }
            let ghost prev_indexes = self.state.indexes@;
            let ghost pre_view = self@.state.indexes;
            let ghost r_ci = row_index_insert(old_ix, t.columns, vv, row_index as int, ci as int);
            let ghost r_next = row_index_insert(
                old_ix,
                t.columns,
                vv,
                row_index as int,
                ci as int + 1,
            );
            self.state.indexes[ti].insert(key, row_index);
            proof {
                assert(prev_indexes[ti as int]@ == r_ci);
                assert(self.state.indexes@ == prev_indexes.update(
                    ti as int,
                    self.state.indexes@[ti as int],
                ));
                assert(self.state.indexes@[ti as int]@ == index_insert(
                    r_ci,
                    key@,
                    row_index as int,
                ));
                assert(index_insert(r_ci, key@, row_index as int) == r_next);
                let target = old_db.state.indexes.update(ti as int, r_next);
                assert(pre_view.len() == target.len());
                assert forall|k: int| 0 <= k < target.len() implies self@.state.indexes[k]
                    == target[k] by {
                    assert(self@.state.indexes[k] == self.state.indexes@[k]@);
                    if k != ti as int {
                        assert(self.state.indexes@[k] == prev_indexes[k]);
                        assert(prev_indexes[k]@ == pre_view[k]);
                        assert(pre_view[k] == old_db.state.indexes.update(ti as int, r_ci)[k]);
                    }
                }
                assert(self@.state.indexes =~= target);
            }
            ci = ci + 1;
        }
        self.dirty = true;
        let ghost db2 = DatabaseView {
            state: StateView {
                tables: old_db.state.tables.update(ti as int, t2),
                indexes: old_db.state.indexes.update(
                    ti as int,
                    row_index_insert(old_ix, t.columns, vv, row_index as int, ncols as int),
                ),
            },
            dirty: true,
            last_save: old_db.last_save,
            max_dirty_duration: old_db.max_dirty_duration,
            wants_flush: old_db.wants_flush,
        };
        proof {
            assert(self@ =~~= db2);
            lemma_row_index_insert_unique(old_ix, t.columns, vv, row_index as int, ncols as int);
            assert(db2.state.wf()) by {
                assert forall|i: int| 0 <= i < db2.state.tables.len() implies (
                #[trigger] db2.state.tables[i]).wf() by {
                    if i == ti as int {
                        assert(forall|k: int|
                            0 <= k < t.rows.len() ==> (#[trigger] t2.rows[k]).len()
                                == t2.columns.len());
                        assert(t2.rows[t.rows.len() as int].len() == t2.columns.len());
                    }
                }
            }
        }
        self.save_if_needed(now);
        proof {
            assert(final(self)@ == spec_save_if_needed(db2, now));
            assert(spec_insert(old_db, table_name@, vv, now).0 == spec_save_if_needed(db2, now));
            assert(spec_save_if_needed(db2, now).state == db2.state);
        }
        Result::Ok(())
    }
}

impl Database {
    /// Evaluate one WHERE comparison against a table by a full linear scan of
    /// its rows, as `spec_apply_where` describes. The secondary index is
    /// deliberately not consulted on this path: the baseline design keeps the
    /// scan linear and maintains the index on the write side only.
    pub fn apply_where_clause(&self, table_name: &String, where_parts: &Vec<String>) -> (r: Result<
        Vec<usize>,
        DbError,
    >)
        requires
            self@.state.wf(),
        ensures
            match (r, spec_apply_where(self@.state, table_name@, where_parts.deep_view())) {
                (Result::Ok(pos), Result::Ok(ps)) => pos@.map_values(|p: usize| p as int) == ps,
                (Result::Err(e), Result::Err(ev)) => e@ == ev,
                _ => false,
            },
    {
        let ghost wv = where_parts.deep_view();
        if where_parts.len() != 3 {
            return Result::Err(DbError::MalformedCommand);
        }
        let ti_opt = self.find_table_index(table_name);
        if ti_opt.is_none() {
            return Result::Err(DbError::NotFound { table: table_name.clone() });
        }
        let ti = ti_opt.unwrap();
        proof {
            lemma_find_table(self@.state.tables, table_name@);
            assert(self@.state.tables[ti as int] == self.state.tables@[ti as int]@);
        }
        let ghost t = self@.state.tables[ti as int];
        let column = &where_parts[0];
        let operator = &where_parts[1];
        let value = &where_parts[2];
        proof {
            assert(wv[0] == where_parts@[0]@);
            assert(wv[1] == where_parts@[1]@);
            assert(wv[2] == where_parts@[2]@);
        }
        let cidx_opt = find_column(&self.state.tables[ti].columns, column);
        if cidx_opt.is_none() {
            return Result::Err(DbError::ColumnNotFound { column: Some(column.clone()) });
        }
        let cidx = cidx_opt.unwrap();
        proof {
            lemma_find_col(t.columns, column@);
        }
        if !is_single_char(operator, '=') {
            return Result::Err(DbError::UnsupportedOperator { operator: operator.clone() });
        }
        let mut result: Vec<usize> = Vec::new();
        let n = self.state.tables[ti].rows.len();
        let mut i: usize = 0;
        while i < n
            invariant
                0 <= i <= n,
                self@.state.wf(),
                ti < self.state.tables@.len(),
                t == self@.state.tables[ti as int],
                n == t.rows.len(),
                cidx < t.columns.len(),
                value == &where_parts[2],
                wv[2] == value@,
                result@.map_values(|p: usize| p as int) =~= matching_up_to(
                    t,
                    cidx as int,
                    wv[2],
                    i as int,
                ),
            decreases n - i,
        {
            proof {
                assert(self@.state.tables[ti as int] == self.state.tables@[ti as int]@);
                assert(t.rows[i as int] == self.state.tables@[ti as int].rows@[i as int].deep_view());
                assert(t.rows[i as int][cidx as int]
                    == self.state.tables@[ti as int].rows@[i as int]@[cidx as int]@);
                assert(t.rows[i as int].len() == t.columns.len());
            }
            if self.state.tables[ti].rows[i][cidx] == *value {
                result.push(i);
            }
            proof {
                assert(result@.map_values(|p: usize| p as int) =~= matching_up_to(
                    t,
                    cidx as int,
                    wv[2],
                    i as int + 1,
                ));
            }
            i = i + 1;
        }
        proof {
            assert(result@.map_values(|p: usize| p as int) == matching_positions(
                t,
                cidx as int,
                wv[2],
            ));
        }
        Result::Ok(result)
    }
}

impl Database {
    /// SELECT: the header row (the requested column names; schema order for
    /// `*`) followed by the projections of the matching rows in insertion
    /// order, as `spec_select` describes. Fails with `NotFound`,
    /// `ColumnNotFound`, or a WHERE error, returning no rows at all.
    pub fn select(
        &self,
        table_name: &String,
        columns: &Vec<String>,
        where_parts: Option<&Vec<String>>,
    ) -> (r: Result<Vec<Vec<String>>, DbError>)
        requires
            self@.state.wf(),
        ensures
            match (
                r,
                spec_select(
                    self@.state,
                    table_name@,
                    columns.deep_view(),
                    opt_parts_view(where_parts),
                ),
            ) {
                (Result::Ok(rows), Result::Ok(sv)) => rows.deep_view() == sv,
                (Result::Err(e), Result::Err(ev)) => e@ == ev,
                _ => false,
            },
    {
        let ghost cv = columns.deep_view();
        let ghost wv = opt_parts_view(where_parts);
        let ti_opt = self.find_table_index(table_name);
        if ti_opt.is_none() {
            return Result::Err(DbError::NotFound { table: table_name.clone() });
        }
        let ti = ti_opt.unwrap();
        proof {
            lemma_find_table(self@.state.tables, table_name@);
            assert(self@.state.tables[ti as int] == self.state.tables@[ti as int]@);
        }
        let ghost t = self@.state.tables[ti as int];

        // Resolve the projection: all columns for `*`, else each requested
        // column's first schema position.
        let ncols = self.state.tables[ti].columns.len();
        let wildcard = if columns.len() == 1 {
            proof {
                assert(cv[0] == columns@[0]@);
            }
            is_single_char(&columns[0], '*')
        } else {
            false
        };
        proof {
            assert(wildcard == is_wildcard(cv));
        }
        let ghost gidxs: Seq<int> = if is_wildcard(cv) {
            Seq::new(t.columns.len(), |j: int| j)
        } else {
            Seq::empty()
        };
        let mut idxs: Vec<usize> = Vec::new();
        if wildcard {
            let mut j: usize = 0;
            while j < ncols
                invariant
                    0 <= j <= ncols,
                    idxs@.len() == j,
                    forall|k: int| 0 <= k < j ==> (#[trigger] idxs@[k]) == k,
                decreases ncols - j,
            {
                idxs.push(j);
                j = j + 1;
            }
            proof {
                assert(idxs@.map_values(|u: usize| u as int) =~= gidxs);
            }
        } else {
            let mut j: usize = 0;
            while j < columns.len()
                invariant
                    0 <= j <= columns.len(),
                    cv == columns.deep_view(),
                    wv == opt_parts_view(where_parts),
                    !is_wildcard(cv),
                    find_table(self@.state.tables, table_name@) == Option::Some(ti as int),
                    t == self@.state.tables[ti as int],
                    self@.state.wf(),
                    ti < self.state.tables@.len(),
                    ncols == t.columns.len(),
                    idxs@.len() == j,
                    forall|k: int|
                        0 <= k < j ==> Option::Some((#[trigger] idxs@[k]) as int) == find_col(
                            t.columns,
                            cv[k],
                        ),
                    forall|k: int| 0 <= k < j ==> (#[trigger] idxs@[k]) < ncols,
                decreases columns.len() - j,
            {
                proof {
                    assert(cv[j as int] == columns@[j as int]@);
                }
                let found = find_column(&self.state.tables[ti].columns, &columns[j]);
                if found.is_none() {
                    proof {
                        lemma_resolve_columns(t.columns, cv);
                    }
                    return Result::Err(DbError::ColumnNotFound { column: None });
                }
                proof {
                    lemma_find_col(t.columns, cv[j as int]);
                }
                idxs.push(found.unwrap());
                j = j + 1;
            }
            proof {
                lemma_resolve_columns(t.columns, cv);
                assert forall|k: int| 0 <= k < cv.len() implies find_col(
                    t.columns,
                    #[trigger] cv[k],
                ) is Some by {
                    assert(Option::Some(idxs@[k] as int) == find_col(t.columns, cv[k]));
                }
                assert(resolve_columns(t.columns, cv) is Some);
            }
        }
        let ghost gidxs: Seq<int> = idxs@.map_values(|u: usize| u as int);
        proof {
            if is_wildcard(cv) {
                assert(gidxs =~= Seq::new(t.columns.len(), |j: int| j));
            } else {
                lemma_resolve_columns(t.columns, cv);
                assert(gidxs =~= resolve_columns(t.columns, cv)->Some_0);
            }
            assert(forall|k: int| 0 <= k < gidxs.len() ==> 0 <= #[trigger] gidxs[k] < ncols) by {
                if !is_wildcard(cv) {
                    lemma_resolve_columns(t.columns, cv);
                    assert forall|k: int| 0 <= k < gidxs.len() implies 0 <= #[trigger] gidxs[k]
                        < ncols by {
                        lemma_find_col(t.columns, cv[k]);
                    }
                }
            }
        }

        // Resolve the row positions: the predicate's matches, or every row.
        let nrows = self.state.tables[ti].rows.len();
        let mut positions: Vec<usize> = Vec::new();
        match where_parts {
            Some(parts) => {
                let w = self.apply_where_clause(table_name, parts);
                match w {
                    Result::Err(e) => {
                        return Result::Err(e);
                    },
                    Result::Ok(ps) => {
                        positions = ps;
                    },
                }
            },
            None => {
                let mut i: usize = 0;
                while i < nrows
                    invariant
                        0 <= i <= nrows,
                        positions@.len() == i,
                        forall|k: int| 0 <= k < i ==> (#[trigger] positions@[k]) == k,
                    decreases nrows - i,
                {
                    positions.push(i);
                    i = i + 1;
                }
            },
        }
        let ghost gpos: Seq<int> = positions@.map_values(|p: usize| p as int);
        proof {
            match wv {
                Option::Some(parts) => {
                    assert(spec_apply_where(self@.state, table_name@, parts) == spec_where(
                        t,
                        parts,
                    ));
                    assert(Result::<Seq<int>, DbErrorView>::Ok(gpos) == spec_where(t, parts));
                    if let Option::Some(ci) = find_col(t.columns, parts[0]) {
                        crate::table::lemma_matching_up_to(t, ci, parts[2], t.rows.len() as int);
                        assert forall|k: int| 0 <= k < gpos.len() implies 0 <= #[trigger] gpos[k]
                            < nrows by {
                            assert(matching_positions(t, ci, parts[2]).contains(gpos[k]));
                        }
                    }
                },
                Option::None => {
                    assert(gpos =~= Seq::new(t.rows.len(), |i: int| i));
                },
            }
            assert(forall|k: int| 0 <= k < gpos.len() ==> 0 <= #[trigger] gpos[k] < nrows);
        }

        // Assemble: header first, then one projected row per position.
        let mut header: Vec<String> = Vec::new();
        let mut j: usize = 0;
        while j < idxs.len()
            invariant
                0 <= j <= idxs.len(),
                self@.state.wf(),
                ti < self.state.tables@.len(),
                t == self@.state.tables[ti as int],
                gidxs == idxs@.map_values(|u: usize| u as int),
                ncols == t.columns.len(),
                forall|k: int| 0 <= k < gidxs.len() ==> 0 <= #[trigger] gidxs[k] < ncols,
                header@.len() == j,
                forall|k: int|
                    0 <= k < j ==> (#[trigger] header@[k])@ == t.columns[gidxs[k]].name,
            decreases idxs.len() - j,
        {
            proof {
                assert(self@.state.tables[ti as int] == self.state.tables@[ti as int]@);
                assert(t.columns[gidxs[j as int]]
                    == self.state.tables@[ti as int].columns@[idxs@[j as int] as int]@);
            }
            header.push(self.state.tables[ti].columns[idxs[j]].name.clone());
            j = j + 1;
        }
        let ghost gheader: Seq<Seq<char>> = Seq::new(gidxs.len(), |k: int| t.columns[gidxs[k]].name);
        proof {
            assert(header.deep_view() =~= gheader);
        }
        let mut result: Vec<Vec<String>> = Vec::new();
        result.push(header);
        let ghost grows: Seq<Seq<Seq<char>>> = gpos.map_values(|p: int| project(t.rows[p], gidxs));
        let mut i: usize = 0;
        while i < positions.len()
            invariant
                0 <= i <= positions.len(),
                self@.state.wf(),
                ti < self.state.tables@.len(),
                t == self@.state.tables[ti as int],
                gidxs == idxs@.map_values(|u: usize| u as int),
                gpos == positions@.map_values(|p: usize| p as int),
                ncols == t.columns.len(),
                nrows == t.rows.len(),
                forall|k: int| 0 <= k < gidxs.len() ==> 0 <= #[trigger] gidxs[k] < ncols,
                forall|k: int| 0 <= k < gpos.len() ==> 0 <= #[trigger] gpos[k] < nrows,
                grows == gpos.map_values(|p: int| project(t.rows[p], gidxs)),
                result.deep_view() =~= seq![gheader] + grows.subrange(0, i as int),
            decreases positions.len() - i,
        {
            let p = positions[i];
            proof {
                assert(gpos[i as int] == positions@[i as int] as int);
                assert(0 <= gpos[i as int] < nrows);
            }
            let mut rowsel: Vec<String> = Vec::new();
            let mut j: usize = 0;
            while j < idxs.len()
                invariant
                    0 <= j <= idxs.len(),
                    self@.state.wf(),
                    ti < self.state.tables@.len(),
                    t == self@.state.tables[ti as int],
                    gidxs == idxs@.map_values(|u: usize| u as int),
                    ncols == t.columns.len(),
                    nrows == t.rows.len(),
                    p < nrows,
                    p as int == gpos[i as int],
                    0 <= i < gpos.len(),
                    forall|k: int| 0 <= k < gidxs.len() ==> 0 <= #[trigger] gidxs[k] < ncols,
                    rowsel@.len() == j,
                    forall|k: int|
                        0 <= k < j ==> (#[trigger] rowsel@[k])@ == t.rows[p as int][gidxs[k]],
                decreases idxs.len() - j,
            {
                proof {
                    assert(self@.state.tables[ti as int] == self.state.tables@[ti as int]@);
                    assert(t.rows[p as int]
                        == self.state.tables@[ti as int].rows@[p as int].deep_view());
                    assert(t.rows[p as int].len() == t.columns.len());
                    assert(t.rows[p as int][gidxs[j as int]]
                        == self.state.tables@[ti as int].rows@[p as int]@[idxs@[j as int] as int]@);
                }
                rowsel.push(self.state.tables[ti].rows[p][idxs[j]].clone());
                j = j + 1;
            }
            proof {
                assert(rowsel.deep_view() =~= project(t.rows[p as int], gidxs));
            }
            let ghost prev_result = result.deep_view();
            let ghost rowsel_view = rowsel.deep_view();
            result.push(rowsel);
            proof {
                assert(result.deep_view() =~= prev_result.push(rowsel_view));
                assert(grows.subrange(0, i as int + 1) =~= grows.subrange(0, i as int).push(
                    grows[i as int],
                ));
                assert(grows[i as int] == project(t.rows[p as int], gidxs));
                assert(result.deep_view() =~= seq![gheader] + grows.subrange(0, i as int + 1));
            }
            i = i + 1;
        }
        proof {
            assert(grows.subrange(0, positions@.len() as int) =~= grows);
            assert(result.deep_view() =~= seq![gheader] + grows);
        }
        Result::Ok(result)
    }
}

/// A copy of a row: the same cell values in the same order.
fn clone_row(values: &Vec<String>) -> (r: Vec<String>)
    ensures
        r@ == values@,
{
    let mut r: Vec<String> = Vec::new();
    let mut i: usize = 0;
    while i < values.len()
        invariant
            0 <= i <= values.len(),
            r@ =~= values@.subrange(0, i as int),
        decreases values.len() - i,
    {
        r.push(values[i].clone());
        i = i + 1;
    }
    proof {
        assert(r@ =~= values@);
    }
    r
}

} // verus!

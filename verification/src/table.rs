//! Columns, tables and rows: the plain data the store owns, with their
//! mathematical models and the spec functions that predicate evaluation
//! and indexing are stated over.

use vstd::prelude::*;
use vstd::string::StringExecFns;

verus! {

/// A column of a table: a name and a free-form type label.
/// The label is not validated against stored values.
pub struct Column {
    pub name: String,
    pub data_type: String,
}

/// The model of a column: both fields as character sequences.
#[verifier::ext_equal]
pub struct ColumnView {
    pub name: Seq<char>,
    pub data_type: Seq<char>,
}

impl View for Column {
    type V = ColumnView;

    open spec fn view(&self) -> ColumnView {
        ColumnView { name: self.name@, data_type: self.data_type@ }
    }
}

/// A table: a name (its key in the store), a fixed ordered schema set at
/// creation, and an append-only sequence of rows. A row is one text cell per
/// column; a row's position is its append index and never changes.
pub struct Table {
    pub name: String,
    pub columns: Vec<Column>,
    pub rows: Vec<Vec<String>>,
}

/// The model of a table.
#[verifier::ext_equal]
pub struct TableView {
    pub name: Seq<char>,
    pub columns: Seq<ColumnView>,
    pub rows: Seq<Seq<Seq<char>>>,
}

impl View for Table {
    type V = TableView;

    open spec fn view(&self) -> TableView {
        TableView {
            name: self.name@,
            columns: self.columns@.map_values(|c: Column| c@),
            rows: self.rows.deep_view(),
        }
    }
}

impl TableView {
    /// Every row holds exactly one cell per column.
    pub open spec fn wf(self) -> bool {
        forall|i: int|
            0 <= i < self.rows.len() ==> (#[trigger] self.rows[i]).len() == self.columns.len()
    }
}

/// The index of the first column named `name`, if any.
pub open spec fn find_col(cols: Seq<ColumnView>, name: Seq<char>) -> Option<int>
    decreases cols.len(),
{
    if cols.len() == 0 {
        Option::None
    } else if cols[0].name == name {
        Option::Some(0int)
    } else {
        match find_col(cols.drop_first(), name) {
            Option::None => Option::None,
            Option::Some(i) => Option::Some(i + 1),
        }
    }
}

/// `find_col` returns exactly the first matching position: `None` means no
/// column matches, and `Some(i)` means `i` matches and nothing before it does.
pub proof fn lemma_find_col(cols: Seq<ColumnView>, name: Seq<char>)
    ensures
        find_col(cols, name) is None ==> forall|j: int|
            0 <= j < cols.len() ==> (#[trigger] cols[j]).name != name,
        find_col(cols, name) matches Some(i) ==> {
            &&& 0 <= i < cols.len()
            &&& cols[i].name == name
            &&& forall|j: int| 0 <= j < i ==> (#[trigger] cols[j]).name != name
        },
    decreases cols.len(),
{
    if cols.len() > 0 && cols[0].name != name {
        lemma_find_col(cols.drop_first(), name);
        assert forall|j: int| 0 <= j < cols.len() && find_col(cols, name) is None implies (
        #[trigger] cols[j]).name != name by {
            if j > 0 {
                assert(cols.drop_first()[j - 1] == cols[j]);
            }
        }
        if let Option::Some(i) = find_col(cols, name) {
            assert(cols.drop_first()[i - 1] == cols[i]);
            assert forall|j: int| 0 <= j < i implies (#[trigger] cols[j]).name != name by {
                if j > 0 {
                    assert(cols.drop_first()[j - 1] == cols[j]);
                }
            }
        }
    }
}

/// The converse: a position that matches, with no match before it,
/// is what `find_col` returns.
pub proof fn lemma_find_col_at(cols: Seq<ColumnView>, name: Seq<char>, i: int)
    requires
        0 <= i < cols.len(),
        cols[i].name == name,
        forall|j: int| 0 <= j < i ==> (#[trigger] cols[j]).name != name,
    ensures
        find_col(cols, name) == Option::Some(i),
    decreases cols.len(),
{
    if i > 0 {
        assert(cols[0].name != name);
        assert(cols.drop_first()[i - 1] == cols[i]);
        assert forall|j: int| 0 <= j < i - 1 implies (#[trigger] cols.drop_first()[j]).name
            != name by {
            assert(cols.drop_first()[j] == cols[j + 1]);
        }
        lemma_find_col_at(cols.drop_first(), name, i - 1);
    }
}

/// And when nothing matches, `find_col` returns `None`.
pub proof fn lemma_find_col_absent(cols: Seq<ColumnView>, name: Seq<char>)
    requires
        forall|j: int| 0 <= j < cols.len() ==> (#[trigger] cols[j]).name != name,
    ensures
        find_col(cols, name) is None,
    decreases cols.len(),
{
    if cols.len() > 0 {
        assert forall|j: int| 0 <= j < cols.len() - 1 implies (
        #[trigger] cols.drop_first()[j]).name != name by {
            assert(cols.drop_first()[j] == cols[j + 1]);
        }
        lemma_find_col_absent(cols.drop_first(), name);
    }
}

/// The first position of the column named `name` in `columns`, scanning in
/// schema order, as `find_col` describes.
pub fn find_column(columns: &Vec<Column>, name: &String) -> (r: Option<usize>)
    ensures
        match r {
            Some(i) => find_col(columns@.map_values(|c: Column| c@), name@) == Some(i as int),
            None => find_col(columns@.map_values(|c: Column| c@), name@) is None,
        },
{
    let ghost cv = columns@.map_values(|c: Column| c@);
    let mut i: usize = 0;
    while i < columns.len()
        invariant
            0 <= i <= columns.len(),
            cv == columns@.map_values(|c: Column| c@),
            forall|j: int| 0 <= j < i ==> (#[trigger] cv[j]).name != name@,
        decreases columns.len() - i,
    {
        if columns[i].name == *name {
            proof {
                assert(cv[i as int].name == name@);
                lemma_find_col_at(cv, name@, i as int);
            }
            return Some(i);
        }
        i = i + 1;
    }
    proof {
        lemma_find_col_absent(cv, name@);
    }
    None
}

/// The index key a column name and a cell value produce.
pub open spec fn spec_fingerprint(col: Seq<char>, value: Seq<char>) -> Seq<char> {
    col + seq![':'] + value
}

/// The `"<column-name>:<value>"` key under which a cell is indexed.
pub fn fingerprint(col: &String, value: &String) -> (r: String)
    ensures
        r@ == spec_fingerprint(col@, value@),
{
    let mut s = col.clone();
    s.append(":");
    s.append(value.as_str());
    proof {
        reveal_strlit(":");
        assert(s@ =~= spec_fingerprint(col@, value@));
    }
    s
}

/// The positions, among the first `k` rows of `t`, whose cell in column
/// `cidx` equals `value`, in insertion order.
pub open spec fn matching_up_to(t: TableView, cidx: int, value: Seq<char>, k: int) -> Seq<int>
    decreases k,
{
    if k <= 0 {
        Seq::empty()
    } else if t.rows[k - 1][cidx] == value {
        matching_up_to(t, cidx, value, k - 1).push(k - 1)
    } else {
        matching_up_to(t, cidx, value, k - 1)
    }
}

/// The positions of the rows of `t` whose cell in column `cidx` equals
/// `value` — exact string equality, no coercion — in insertion order.
pub open spec fn matching_positions(t: TableView, cidx: int, value: Seq<char>) -> Seq<int> {
    matching_up_to(t, cidx, value, t.rows.len() as int)
}

/// `matching_up_to` holds exactly the matching positions below `k`, in
/// strictly increasing (insertion) order.
pub proof fn lemma_matching_up_to(t: TableView, cidx: int, value: Seq<char>, k: int)
    requires
        k <= t.rows.len(),
    ensures
        forall|p: int|
            #[trigger] matching_up_to(t, cidx, value, k).contains(p) <==> (0 <= p < k
                && t.rows[p][cidx] == value),
        forall|a: int, b: int|
            0 <= a < b < matching_up_to(t, cidx, value, k).len() ==> matching_up_to(
                t,
                cidx,
                value,
                k,
            )[a] < matching_up_to(t, cidx, value, k)[b],
    decreases k,
{
    if k > 0 {
        lemma_matching_up_to(t, cidx, value, k - 1);
        let prev = matching_up_to(t, cidx, value, k - 1);
        let cur = matching_up_to(t, cidx, value, k);
        assert forall|p: int| #[trigger] cur.contains(p) implies (0 <= p < k && t.rows[p][cidx]
            == value) by {
            if t.rows[k - 1][cidx] == value {
                let w = choose|w: int| 0 <= w < cur.len() && cur[w] == p;
                if w < prev.len() {
                    assert(prev.contains(p));
                }
            }
        }
        assert forall|p: int| 0 <= p < k && t.rows[p][cidx] == value implies #[trigger] cur.contains(
            p,
        ) by {
            if p < k - 1 {
                assert(prev.contains(p));
                let w = choose|w: int| 0 <= w < prev.len() && prev[w] == p;
                assert(cur[w] == p);
            } else {
                assert(cur[cur.len() - 1] == p);
            }
        }
        assert forall|a: int, b: int| 0 <= a < b < cur.len() implies cur[a] < cur[b] by {
            if b < prev.len() {
            } else if t.rows[k - 1][cidx] == value && b == prev.len() {
                assert(prev.contains(prev[a]));
            }
        }
    }
}

} // verus!

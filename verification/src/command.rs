//! The command executor: one whitespace-tokenized command in, one text reply
//! out, with the store mutated as the command asks. The caller (the
//! connection loop) tokenizes the request bytes and serializes calls; this
//! module owns the grammar of the three command shapes, the keyword
//! case-insensitivity, and the reply formatting.

use vstd::prelude::*;
use vstd::string::{StrSliceExecFns, StringExecFns};

use crate::store::{
    Database, DatabaseView, DbError, is_single_char, spec_create, spec_insert, spec_message,
    spec_select,
};
use crate::table::{Column, ColumnView, Table, TableView};

verus! {

/// A token character matches a keyword character: equal, or its lowercase
/// form when the keyword character is an ASCII capital.
pub open spec fn char_matches_upper(c: char, k: char) -> bool {
    c as u32 == k as u32 || (65 <= k as u32 <= 90 && c as u32 == k as u32 + 32)
}

/// A token spells an ASCII-uppercase keyword, case-insensitively.
pub open spec fn matches_keyword(s: Seq<char>, kw: Seq<char>) -> bool {
    s.len() == kw.len() && forall|i: int|
        0 <= i < s.len() ==> char_matches_upper(s[i], #[trigger] kw[i])
}

/// Case-insensitive comparison of a token against an ASCII-uppercase keyword.
fn is_keyword(tok: &String, kw: &str) -> (r: bool)
    ensures
        r == matches_keyword(tok@, kw@),
{
    let n = tok.as_str().unicode_len();
    if n != kw.unicode_len() {
        return false;
    }
    let mut i: usize = 0;
    while i < n
        invariant
            0 <= i <= n,
            n == tok@.len(),
            tok@.len() == kw@.len(),
            forall|j: int| 0 <= j < i ==> char_matches_upper(tok@[j], #[trigger] kw@[j]),
        decreases n - i,
    {
        let c = tok.as_str().get_char(i);
        let k = kw.get_char(i);
        let cu = c as u32;
        let ku = k as u32;
        if !(cu == ku || (65 <= ku && ku <= 90 && cu == ku + 32)) {
            return false;
        }
        i = i + 1;
    }
    true
}

/// The position of the first token spelling `kw`, if any.
pub open spec fn find_keyword(tokens: Seq<Seq<char>>, kw: Seq<char>) -> Option<int>
    decreases tokens.len(),
{
    if tokens.len() == 0 {
        Option::None
    } else if matches_keyword(tokens[0], kw) {
        Option::Some(0int)
    } else {
        match find_keyword(tokens.drop_first(), kw) {
            Option::None => Option::None,
            Option::Some(i) => Option::Some(i + 1),
        }
    }
}

/// `find_keyword` returns exactly the first matching position.
proof fn lemma_find_keyword(tokens: Seq<Seq<char>>, kw: Seq<char>)
    ensures
        find_keyword(tokens, kw) matches Some(i) ==> 0 <= i < tokens.len() && matches_keyword(
            tokens[i],
            kw,
        ),
    decreases tokens.len(),
{
    if tokens.len() > 0 && !matches_keyword(tokens[0], kw) {
        lemma_find_keyword(tokens.drop_first(), kw);
        if let Option::Some(i) = find_keyword(tokens, kw) {
            assert(tokens.drop_first()[i - 1] == tokens[i]);
        }
    }
}

proof fn lemma_find_keyword_at(tokens: Seq<Seq<char>>, kw: Seq<char>, i: int)
    requires
        0 <= i < tokens.len(),
        matches_keyword(tokens[i], kw),
        forall|j: int| 0 <= j < i ==> !matches_keyword(#[trigger] tokens[j], kw),
    ensures
        find_keyword(tokens, kw) == Option::Some(i),
    decreases tokens.len(),
{
    if i > 0 {
        assert(tokens.drop_first()[i - 1] == tokens[i]);
        assert forall|j: int| 0 <= j < i - 1 implies !matches_keyword(
            #[trigger] tokens.drop_first()[j],
            kw,
        ) by {
            assert(tokens.drop_first()[j] == tokens[j + 1]);
        }
        lemma_find_keyword_at(tokens.drop_first(), kw, i - 1);
    }
}

proof fn lemma_find_keyword_absent(tokens: Seq<Seq<char>>, kw: Seq<char>)
    requires
        forall|j: int| 0 <= j < tokens.len() ==> !matches_keyword(#[trigger] tokens[j], kw),
    ensures
        find_keyword(tokens, kw) is None,
    decreases tokens.len(),
{
    if tokens.len() > 0 {
        assert forall|j: int| 0 <= j < tokens.len() - 1 implies !matches_keyword(
            #[trigger] tokens.drop_first()[j],
            kw,
        ) by {
            assert(tokens.drop_first()[j] == tokens[j + 1]);
        }
        lemma_find_keyword_absent(tokens.drop_first(), kw);
    }
}

/// The position of the first token spelling `kw`, scanning left to right.
fn find_keyword_pos(tokens: &Vec<String>, kw: &str) -> (r: Option<usize>)
    ensures
        match r {
            Some(i) => find_keyword(tokens.deep_view(), kw@) == Option::Some(i as int),
            None => find_keyword(tokens.deep_view(), kw@) is None,
        },
{
    let ghost tv = tokens.deep_view();
    let mut i: usize = 0;
    while i < tokens.len()
        invariant
            0 <= i <= tokens.len(),
            tv == tokens.deep_view(),
            forall|j: int| 0 <= j < i ==> !matches_keyword(#[trigger] tv[j], kw@),
        decreases tokens.len() - i,
    {
        proof {
            assert(tv[i as int] == tokens@[i as int]@);
        }
        if is_keyword(&tokens[i], kw) {
            proof {
                lemma_find_keyword_at(tv, kw@, i as int);
            }
            return Some(i);
        }
        i = i + 1;
    }
    proof {
        lemma_find_keyword_absent(tv, kw@);
    }
    None
}

/// The columns a CREATE TABLE command declares: consecutive token pairs,
/// each a name and a type label.
pub open spec fn cols_of_tokens(toks: Seq<Seq<char>>) -> Seq<ColumnView> {
    Seq::new(toks.len() / 2, |i: int| ColumnView { name: toks[2 * i], data_type: toks[2 * i + 1] })
}

/// A comma token, dropped from SELECT's column list.
pub open spec fn is_comma(t: Seq<char>) -> bool {
    t.len() == 1 && t[0] == ','
}

/// The non-comma tokens of `tokens[lo..hi]`, in order.
pub open spec fn non_comma_range(tokens: Seq<Seq<char>>, lo: int, hi: int) -> Seq<Seq<char>>
    decreases hi - lo,
{
    if hi <= lo {
        Seq::empty()
    } else if is_comma(tokens[hi - 1]) {
        non_comma_range(tokens, lo, hi - 1)
    } else {
        non_comma_range(tokens, lo, hi - 1).push(tokens[hi - 1])
    }
}

/// One line per result row: the row's values joined by `" | "`.
pub open spec fn join_cells(row: Seq<Seq<char>>) -> Seq<char>
    decreases row.len(),
{
    if row.len() == 0 {
        Seq::empty()
    } else if row.len() == 1 {
        row[0]
    } else {
        row[0] + " | "@ + join_cells(row.drop_first())
    }
}

/// A SELECT reply: each result row joined and terminated by a newline,
/// header first.
pub open spec fn format_rows(rows: Seq<Seq<Seq<char>>>) -> Seq<char>
    decreases rows.len(),
{
    if rows.len() == 0 {
        Seq::empty()
    } else {
        join_cells(rows[0]) + "\n"@ + format_rows(rows.drop_first())
    }
}

/// The cells of `row` from position `i` on, joined by `" | "`.
fn join_cells_from(row: &Vec<String>, i: usize) -> (r: String)
    requires
        i <= row.len(),
    ensures
        r@ == join_cells(row.deep_view().skip(i as int)),
    decreases row.len() - i,
{
    let ghost rv = row.deep_view();
    if i == row.len() {
        proof {
            assert(rv.skip(i as int) =~= Seq::<Seq<char>>::empty());
        }
        String::new()
    } else if i + 1 == row.len() {
        proof {
            assert(rv.skip(i as int).len() == 1);
            assert(rv.skip(i as int)[0] == rv[i as int]);
            assert(rv[i as int] == row@[i as int]@);
        }
        row[i].clone()
    } else {
        let mut s = row[i].clone();
        s.append(" | ");
        let rest = join_cells_from(row, i + 1);
        s.append(rest.as_str());
        proof {
            assert(rv.skip(i as int).drop_first() =~= rv.skip(i as int + 1));
            assert(rv.skip(i as int)[0] == rv[i as int]);
            assert(rv[i as int] == row@[i as int]@);
        }
        s
    }
}

/// The reply lines for the result rows from position `i` on.
fn format_rows_from(rows: &Vec<Vec<String>>, i: usize) -> (r: String)
    requires
        i <= rows.len(),
    ensures
        r@ == format_rows(rows.deep_view().skip(i as int)),
    decreases rows.len() - i,
{
    let ghost rv = rows.deep_view();
    if i == rows.len() {
        proof {
            assert(rv.skip(i as int) =~= Seq::<Seq<Seq<char>>>::empty());
        }
        String::new()
    } else {
        let mut s = join_cells_from(&rows[i], 0);
        s.append("\n");
        let rest = format_rows_from(rows, i + 1);
        s.append(rest.as_str());
        proof {
            assert(rows@[i as int].deep_view().skip(0) =~= rows@[i as int].deep_view());
            assert(rv.skip(i as int).drop_first() =~= rv.skip(i as int + 1));
            assert(rv.skip(i as int)[0] == rv[i as int]);
            assert(rv[i as int] == rows@[i as int].deep_view());
        }
        s
    }
}

/// What one command does to the store and what it replies: the three command
/// shapes of the wire grammar, keywords matched case-insensitively, anything
/// else a single-line syntax error. Exactly one store operation runs; its
/// error is rendered after the operation's own prefix.
pub open spec fn spec_process(tokens: Seq<Seq<char>>, db: DatabaseView, now: u64) -> (
    DatabaseView,
    Seq<char>,
) {
    if tokens.len() == 0 {
        (db, "Invalid query\n"@)
    } else if matches_keyword(tokens[0], "CREATE"@) {
        if tokens.len() < 4 || !matches_keyword(tokens[1], "TABLE"@) || (tokens.len() - 3) % 2
            != 0 {
            (db, "Invalid CREATE TABLE syntax\n"@)
        } else {
            let t = TableView {
                name: tokens[2],
                columns: cols_of_tokens(tokens.skip(3)),
                rows: Seq::empty(),
            };
            let r = spec_create(db, t);
            match r.1 {
                Result::Ok(()) => (r.0, "Table created successfully\n"@),
                Result::Err(e) => (r.0, "Error creating table: "@ + spec_message(e) + "\n"@),
            }
        }
    } else if matches_keyword(tokens[0], "INSERT"@) {
        if tokens.len() < 5 || !matches_keyword(tokens[1], "INTO"@) || !matches_keyword(
            tokens[3],
            "VALUES"@,
        ) {
            (db, "Invalid INSERT syntax\n"@)
        } else {
            let r = spec_insert(db, tokens[2], tokens.skip(4), now);
            match r.1 {
                Result::Ok(()) => (r.0, "Data inserted successfully\n"@),
                Result::Err(e) => (r.0, "Error inserting data: "@ + spec_message(e) + "\n"@),
            }
        }
    } else if matches_keyword(tokens[0], "SELECT"@) {
        if tokens.len() < 4 || find_keyword(tokens, "FROM"@) is None {
            (db, "Invalid SELECT syntax\n"@)
        } else {
            let fp = find_keyword(tokens, "FROM"@)->Some_0;
            if fp + 1 >= tokens.len() {
                (db, "Invalid SELECT syntax\n"@)
            } else {
                let name = tokens[fp + 1];
                let cols = if tokens[1].len() == 1 && tokens[1][0] == '*' {
                    seq![tokens[1]]
                } else {
                    non_comma_range(tokens, 1, fp)
                };
                let pred = match find_keyword(tokens, "WHERE"@) {
                    Option::Some(wp) => Option::Some(tokens.skip(wp + 1)),
                    Option::None => Option::None,
                };
                match spec_select(db.state, name, cols, pred) {
                    Result::Ok(rows) => (db, format_rows(rows)),
                    Result::Err(e) => (db, "Error executing query: "@ + spec_message(e) + "\n"@),
                }
            }
        }
    } else {
        (db, "Invalid query\n"@)
    }
}

/// Execute one tokenized command against the store and render the reply, as
/// `spec_process` describes. `now` is the caller's clock reading, which the
/// flush policy consults on INSERT.
pub fn process_query(tokens: &Vec<String>, db: &mut Database, now: u64) -> (r: String)
    requires
        old(db)@.state.wf(),
    ensures
        final(db)@ == spec_process(tokens.deep_view(), old(db)@, now).0,
        r@ == spec_process(tokens.deep_view(), old(db)@, now).1,
        final(db)@.state.wf(),
{
    let ghost tv = tokens.deep_view();
    let ghost old_db = db@;
    if tokens.len() == 0 {
        return String::from_str("Invalid query\n");
    }
    proof {
        assert(tv[0] == tokens@[0]@);
    }
    if is_keyword(&tokens[0], "CREATE") {
        if tokens.len() < 4 || !is_keyword(&tokens[1], "TABLE") || (tokens.len() - 3) % 2 != 0 {
            proof {
                if tokens@.len() >= 2 {
                    assert(tv[1] == tokens@[1]@);
                }
            }
            return String::from_str("Invalid CREATE TABLE syntax\n");
        }
        proof {
            assert(tv[1] == tokens@[1]@);
            assert(tv[2] == tokens@[2]@);
        }
        let mut columns: Vec<Column> = Vec::new();
        let mut i: usize = 3;
        while i < tokens.len() - 1
            invariant
                tokens@.len() >= 4,
                3 <= i <= tokens.len() + 1,
                (i - 3) % 2 == 0,
                (tokens@.len() - 3) % 2 == 0,
                tv == tokens.deep_view(),
                columns@.len() == (i - 3) / 2,
                forall|k: int|
                    0 <= k < columns@.len() ==> (#[trigger] columns@[k])@
                        == cols_of_tokens(tv.skip(3))[k],
            decreases tokens.len() - i,
        {
            proof {
                assert(tv[i as int] == tokens@[i as int]@);
                assert(tv[i as int + 1] == tokens@[i as int + 1]@);
                assert(tv.skip(3)[(i - 3) as int] == tv[i as int]);
                assert(tv.skip(3)[(i - 3) as int + 1] == tv[i as int + 1]);
            }
            columns.push(
                Column { name: tokens[i].clone(), data_type: tokens[i + 1].clone() },
            );
            i = i + 2;
        }
        let table = Table { name: tokens[2].clone(), columns, rows: Vec::new() };
        proof {
            assert(table@.columns =~= cols_of_tokens(tv.skip(3)));
            assert(table@.rows =~= Seq::<Seq<Seq<char>>>::empty());
            assert(table@ =~~= (TableView {
                name: tv[2],
                columns: cols_of_tokens(tv.skip(3)),
                rows: Seq::empty(),
            }));
        }
        match db.create_table(table) {
            Result::Ok(()) => String::from_str("Table created successfully\n"),
            Result::Err(e) => {
                let mut s = String::from_str("Error creating table: ");
                let m = e.message();
                s.append(m.as_str());
                s.append("\n");
                s
            },
        }
    } else if is_keyword(&tokens[0], "INSERT") {
        if tokens.len() < 5 || !is_keyword(&tokens[1], "INTO") || !is_keyword(
            &tokens[3],
            "VALUES",
        ) {
            proof {
                if tokens@.len() >= 2 {
                    assert(tv[1] == tokens@[1]@);
                }
                if tokens@.len() >= 4 {
                    assert(tv[3] == tokens@[3]@);
                }
            }
            return String::from_str("Invalid INSERT syntax\n");
        }
        proof {
            assert(tv[1] == tokens@[1]@);
            assert(tv[2] == tokens@[2]@);
            assert(tv[3] == tokens@[3]@);
        }
        let mut values: Vec<String> = Vec::new();
        let mut i: usize = 4;
        while i < tokens.len()
            invariant
                4 <= i <= tokens.len(),
                tv == tokens.deep_view(),
                values@.len() == i - 4,
                forall|k: int|
                    0 <= k < values@.len() ==> (#[trigger] values@[k])@ == tv.skip(4)[k],
            decreases tokens.len() - i,
        {
            proof {
                assert(tv[i as int] == tokens@[i as int]@);
                assert(tv.skip(4)[(i - 4) as int] == tv[i as int]);
            }
            values.push(tokens[i].clone());
            i = i + 1;
        }
        proof {
            assert(values.deep_view() =~= tv.skip(4));
        }
        match db.insert(&tokens[2], values, now) {
            Result::Ok(()) => String::from_str("Data inserted successfully\n"),
            Result::Err(e) => {
                let mut s = String::from_str("Error inserting data: ");
                let m = e.message();
                s.append(m.as_str());
                s.append("\n");
                s
            },
        }
    } else if is_keyword(&tokens[0], "SELECT") {
        let from_opt = find_keyword_pos(tokens, "FROM");
        if tokens.len() < 4 || from_opt.is_none() {
            return String::from_str("Invalid SELECT syntax\n");
        }
        let fp = from_opt.unwrap();
        proof {
            lemma_find_keyword(tv, "FROM"@);
        }
        if fp >= tokens.len() - 1 {
            return String::from_str("Invalid SELECT syntax\n");
        }
        proof {
            assert(tv[1] == tokens@[1]@);
            assert(tv[fp as int + 1] == tokens@[fp as int + 1]@);
        }
        let ghost gcols: Seq<Seq<char>> = if tv[1].len() == 1 && tv[1][0] == '*' {
            seq![tv[1]]
        } else {
            non_comma_range(tv, 1, fp as int)
        };
        let mut cols: Vec<String> = Vec::new();
        if is_single_char(&tokens[1], '*') {
            cols.push(tokens[1].clone());
            proof {
                assert(cols.deep_view() =~= gcols);
            }
        } else {
            let mut i: usize = 1;
            while i < fp
                invariant
                    1 <= i,
                    fp < tokens@.len(),
                    i <= tokens@.len(),
                    fp >= 1 ==> i <= fp,
                    fp < 1 ==> i == 1,
                    tv == tokens.deep_view(),
                    cols.deep_view() =~= non_comma_range(tv, 1, i as int),
                decreases fp - i,
            {
                proof {
                    assert(tv[i as int] == tokens@[i as int]@);
                }
                if !is_single_char(&tokens[i], ',') {
                    let ghost prev = cols.deep_view();
                    cols.push(tokens[i].clone());
                    proof {
                        assert(cols.deep_view() =~= prev.push(tv[i as int]));
                    }
                }
                i = i + 1;
            }
            proof {
                if fp < 1 {
                    assert(non_comma_range(tv, 1, 1) =~= non_comma_range(tv, 1, fp as int));
                }
                assert(cols.deep_view() =~= gcols);
            }
        }
        let where_opt = find_keyword_pos(tokens, "WHERE");
        let ghost gpred: Option<Seq<Seq<char>>> = match find_keyword(tv, "WHERE"@) {
            Option::Some(wp) => Option::Some(tv.skip(wp + 1)),
            Option::None => Option::None,
        };
        let mut where_tokens: Vec<String> = Vec::new();
        let mut have_where = false;
        match where_opt {
            Some(wp) => {
                have_where = true;
                proof {
                    lemma_find_keyword(tv, "WHERE"@);
                }
                let mut i: usize = wp + 1;
                while i < tokens.len()
                    invariant
                        wp + 1 <= i <= tokens@.len(),
                        tv == tokens.deep_view(),
                        where_tokens@.len() == i - wp - 1,
                        forall|k: int|
                            0 <= k < where_tokens@.len() ==> (#[trigger] where_tokens@[k])@
                                == tv.skip(wp + 1)[k],
                    decreases tokens.len() - i,
                {
                    proof {
                        assert(tv[i as int] == tokens@[i as int]@);
                        assert(tv.skip(wp + 1)[(i - wp - 1) as int] == tv[i as int]);
                    }
                    where_tokens.push(tokens[i].clone());
                    i = i + 1;
                }
                proof {
                    assert(where_tokens.deep_view() =~= tv.skip(wp + 1));
                }
            },
            None => {},
        }
        let where_ref: Option<&Vec<String>> = if have_where {
            Some(&where_tokens)
        } else {
            None
        };
        proof {
            assert(crate::store::opt_parts_view(where_ref) == gpred);
        }
        match db.select(&tokens[fp + 1], &cols, where_ref) {
            Result::Ok(rows) => {
                let s = format_rows_from(&rows, 0);
                proof {
                    assert(rows.deep_view().skip(0) =~= rows.deep_view());
                }
                s
            },
            Result::Err(e) => {
                let mut s = String::from_str("Error executing query: ");
                let m = e.message();
                s.append(m.as_str());
                s.append("\n");
                s
            },
        }
    } else {
        String::from_str("Invalid query\n")
    }
}

} // verus!

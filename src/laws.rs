use vstd::prelude::*;

use crate::edit::{column_added, column_inserted, column_removed, row_added, row_removed};
use crate::loader::{line_fields, lines_fields, loaded_table};
use crate::render::{joined, rendered, table_lines, text_of_lines};
use crate::tokenizer::{lemma_split_fields_nonempty, split_fields};
use crate::error::CsvError;
use crate::table::{distinct_names, rows_of_width, TableView};
use crate::trim::{blank, trimmed, trimmed_end, trimmed_start};

verus! {

// ----- trimming -----

/// Rows that end with a row that is not blank keep all their rows.
proof fn lemma_trimmed_end_fixed(rows: Seq<Seq<Seq<char>>>)
    requires
        rows.len() == 0 || !blank(rows.last()),
    ensures
        trimmed_end(rows) == rows,
{
}

/// Rows that start with a row that is not blank keep all their rows.
proof fn lemma_trimmed_start_fixed(rows: Seq<Seq<Seq<char>>>)
    requires
        rows.len() == 0 || !blank(rows[0]),
    ensures
        trimmed_start(rows) == rows,
{
}

/// Trimming the end leaves a prefix of the rows that is empty or ends with a
/// row that is not blank.
proof fn lemma_trimmed_end_shape(rows: Seq<Seq<Seq<char>>>)
    ensures
        trimmed_end(rows).len() <= rows.len(),
        trimmed_end(rows) == rows.take(trimmed_end(rows).len() as int),
        trimmed_end(rows).len() == 0 || !blank(trimmed_end(rows).last()),
    decreases rows.len(),
{
    if rows.len() > 0 && blank(rows.last()) {
        lemma_trimmed_end_shape(rows.drop_last());
        let r = trimmed_end(rows.drop_last());
        assert(rows.drop_last().take(r.len() as int) =~= rows.take(r.len() as int));
    } else {
        assert(rows.take(rows.len() as int) =~= rows);
    }
}

/// Trimming the start leaves rows that are empty or start with a row that
/// is not blank.
proof fn lemma_trimmed_start_shape(rows: Seq<Seq<Seq<char>>>)
    ensures
        trimmed_start(rows).len() == 0 || !blank(trimmed_start(rows)[0]),
    decreases rows.len(),
{
    if rows.len() > 0 && blank(rows[0]) {
        lemma_trimmed_start_shape(rows.drop_first());
    }
}

/// Trimming twice gives what trimming once gives.
pub proof fn lemma_trim_idempotent(rows: Seq<Seq<Seq<char>>>)
    ensures
        trimmed(trimmed(rows)) == trimmed(rows),
{
    let y = trimmed_start(rows);
    let w = trimmed_end(y);
    lemma_trimmed_start_shape(rows);
    lemma_trimmed_end_shape(y);
    if w.len() > 0 {
        assert(w[0] == y[0]);
    }
    lemma_trimmed_start_fixed(w);
    lemma_trimmed_end_fixed(w);
}

// ----- validity -----

/// A table built from distinct column names and rows as wide as the header
/// passes the validity check.
pub proof fn lemma_built_table_is_valid(
    delimiter: char,
    columns: Seq<Seq<char>>,
    rows: Seq<Seq<Seq<char>>>,
)
    requires
        distinct_names(columns),
        rows_of_width(rows, columns.len()),
    ensures
        (TableView { delimiter, columns, rows }).valid(),
{
}

/// A change of the shape of a table, as a value.
pub enum Edit {
    AddColumn(Seq<char>),
    InsertColumn(Seq<char>, usize),
    RemoveColumn(usize),
    AddRow(Seq<Seq<char>>),
    RemoveRow(usize),
}

/// What one edit makes of a table, as the corresponding method prescribes.
pub open spec fn edited(t: TableView, e: Edit) -> Result<TableView, CsvError> {
    match e {
        Edit::AddColumn(name) => column_added(t, name),
        Edit::InsertColumn(name, index) => column_inserted(t, name, index),
        Edit::RemoveColumn(index) => column_removed(t, index),
        Edit::AddRow(values) => row_added(t, values),
        Edit::RemoveRow(index) => row_removed(t, index),
    }
}

/// The edits applied in turn; the first failure ends the sequence.
pub open spec fn edits_applied(t: TableView, edits: Seq<Edit>) -> Result<TableView, CsvError>
    decreases edits.len(),
{
    if edits.len() == 0 {
        Ok(t)
    } else {
        match edits_applied(t, edits.drop_last()) {
            Ok(u) => edited(u, edits.last()),
            Err(e) => Err(e),
        }
    }
}

/// One successful edit keeps a valid table valid.
pub proof fn lemma_edit_keeps_validity(t: TableView, e: Edit)
    requires
        t.valid(),
        edited(t, e) is Ok,
    ensures
        edited(t, e)->Ok_0.valid(),
{
    let u = edited(t, e)->Ok_0;
    match e {
        Edit::AddColumn(name) => {
            assert forall|i: int, j: int| 0 <= i < j < u.columns.len() implies u.columns[i]
                != u.columns[j] by {
                if j == t.columns.len() {
                    assert(t.columns[i] != name);
                }
            }
            assert forall|i: int| 0 <= i < u.rows.len() implies #[trigger] u.rows[i].len()
                == u.columns.len() by {
                assert(t.rows[i].len() == t.columns.len());
            }
        },
        Edit::InsertColumn(name, index) => {
            t.columns.insert_ensures(index as int, name);
            assert forall|i: int, j: int| 0 <= i < j < u.columns.len() implies u.columns[i]
                != u.columns[j] by {
                let oi = if i < index { i } else { i - 1 };
                let oj = if j < index { j } else { j - 1 };
                if i == index {
                    assert(u.columns[j] == t.columns[oj]);
                    assert(t.columns[oj] != name);
                } else if j == index {
                    assert(u.columns[i] == t.columns[oi]);
                    assert(t.columns[oi] != name);
                } else {
                    if i > index {
                        assert(u.columns[(i - 1) + 1] == t.columns[i - 1]);
                    }
                    if j > index {
                        assert(u.columns[(j - 1) + 1] == t.columns[j - 1]);
                    }
                    assert(u.columns[i] == t.columns[oi]);
                    assert(u.columns[j] == t.columns[oj]);
                }
            }
            assert forall|i: int| 0 <= i < u.rows.len() implies #[trigger] u.rows[i].len()
                == u.columns.len() by {
                assert(t.rows[i].len() == t.columns.len());
                t.rows[i].insert_ensures(index as int, Seq::empty());
            }
        },
        Edit::RemoveColumn(index) => {
            t.columns.remove_ensures(index as int);
            assert forall|i: int, j: int| 0 <= i < j < u.columns.len() implies u.columns[i]
                != u.columns[j] by {
                let oi = if i < index { i } else { i + 1 };
                let oj = if j < index { j } else { j + 1 };
                assert(u.columns[i] == t.columns[oi]);
                assert(u.columns[j] == t.columns[oj]);
            }
            assert forall|i: int| 0 <= i < u.rows.len() implies #[trigger] u.rows[i].len()
                == u.columns.len() by {
                assert(t.rows[i].len() == t.columns.len());
                t.rows[i].remove_ensures(index as int);
            }
        },
        Edit::AddRow(values) => {
            assert forall|i: int| 0 <= i < u.rows.len() implies #[trigger] u.rows[i].len()
                == u.columns.len() by {
                if i < t.rows.len() {
                    assert(u.rows[i] == t.rows[i]);
                }
            }
        },
        Edit::RemoveRow(index) => {
            t.rows.remove_ensures(index as int);
            assert forall|i: int| 0 <= i < u.rows.len() implies #[trigger] u.rows[i].len()
                == u.columns.len() by {
                if i < index {
                    assert(u.rows[i] == t.rows[i]);
                } else {
                    assert(u.rows[i] == t.rows[i + 1]);
                }
            }
        },
    }
}

/// After any sequence of column and row edits that all succeed, a table that
/// was valid is still valid.
pub proof fn lemma_edits_keep_validity(t: TableView, edits: Seq<Edit>)
    requires
        t.valid(),
        edits_applied(t, edits) is Ok,
    ensures
        edits_applied(t, edits)->Ok_0.valid(),
    decreases edits.len(),
{
    if edits.len() > 0 {
        lemma_edits_keep_validity(t, edits.drop_last());
        let u = edits_applied(t, edits.drop_last())->Ok_0;
        lemma_edit_keeps_validity(u, edits.last());
    }
}


// ----- writing and reading back -----

/// Splitting `x + y` where `y` holds no separator only lengthens the last piece.
proof fn lemma_split_append_plain(x: Seq<char>, y: Seq<char>, c: char)
    requires
        !y.contains(c),
    ensures
        split_fields(x + y, c) == split_fields(x, c).update(
            split_fields(x, c).len() - 1,
            split_fields(x, c).last() + y,
        ),
    decreases y.len(),
{
    lemma_split_fields_nonempty(x, c);
    if y.len() == 0 {
        assert(x + y =~= x);
        let p = split_fields(x, c);
        assert(p.update(p.len() - 1, p.last() + y) =~= p);
    } else {
        let y0 = y.drop_last();
        assert(!y0.contains(c)) by {
            if y0.contains(c) {
                let k = choose|k: int| 0 <= k < y0.len() && y0[k] == c;
                assert(y[k] == c);
            }
        }
        assert(y[y.len() - 1] != c);
        lemma_split_append_plain(x, y0, c);
        assert((x + y).drop_last() =~= x + y0);
        lemma_split_fields_nonempty(x + y0, c);
        let p = split_fields(x, c);
        let q = split_fields(x + y0, c);
        assert(q.update(q.len() - 1, q.last().push(y.last())) =~= p.update(
            p.len() - 1,
            p.last() + y,
        )) by {
            assert(q.len() == p.len());
            assert(q.last() == p.last() + y0);
            assert((p.last() + y0).push(y.last()) =~= p.last() + y);
        }
    }
}

/// No piece holds `c`.
pub open spec fn pieces_free_of(pieces: Seq<Seq<char>>, c: char) -> bool {
    forall|k: int| 0 <= k < pieces.len() ==> !(#[trigger] pieces[k]).contains(c)
}

/// Joining pieces with a separator that none of them holds, then splitting
/// at that separator, gives the pieces back.
proof fn lemma_split_joined(pieces: Seq<Seq<char>>, c: char)
    requires
        pieces.len() >= 1,
        pieces_free_of(pieces, c),
    ensures
        split_fields(joined(pieces, c), c) == pieces,
    decreases pieces.len(),
{
    let e = Seq::<char>::empty();
    if pieces.len() == 1 {
        assert(!pieces[0].contains(c));
        lemma_split_append_plain(e, pieces[0], c);
        assert(e + pieces[0] =~= pieces[0]);
        assert(split_fields(e, c) == seq![e]);
        assert(seq![e].update(0, e + pieces[0]) =~= pieces);
    } else {
        let init = pieces.drop_last();
        assert(pieces_free_of(init, c)) by {
            assert forall|k: int| 0 <= k < init.len() implies !(#[trigger] init[k]).contains(c) by {
                assert(init[k] == pieces[k]);
            }
        }
        assert(!pieces[pieces.len() - 1].contains(c));
        lemma_split_joined(init, c);
        let j = joined(init, c).push(c);
        assert(j.drop_last() =~= joined(init, c));
        lemma_split_append_plain(j, pieces.last(), c);
        assert(split_fields(j, c) == init.push(e));
        assert(init.push(e).update(init.len() as int, e + pieces.last()) =~= pieces);
    }
}

/// Joined pieces hold a character only where a piece or the separator does.
proof fn lemma_joined_free_of(pieces: Seq<Seq<char>>, d: char, x: char)
    requires
        d != x,
        pieces_free_of(pieces, x),
    ensures
        !joined(pieces, d).contains(x),
    decreases pieces.len(),
{
    if pieces.len() >= 2 {
        let init = pieces.drop_last();
        assert(pieces_free_of(init, x)) by {
            assert forall|k: int| 0 <= k < init.len() implies !(#[trigger] init[k]).contains(x) by {
                assert(init[k] == pieces[k]);
            }
        }
        lemma_joined_free_of(init, d, x);
        assert(!pieces[pieces.len() - 1].contains(x));
        let a = joined(init, d).push(d);
        let b = pieces.last();
        if (a + b).contains(x) {
            let k = choose|k: int| 0 <= k < (a + b).len() && (a + b)[k] == x;
            if k < a.len() - 1 {
                assert(joined(init, d)[k] == x);
            } else if k >= a.len() {
                assert(b[k - a.len()] == x);
            }
        }
    } else if pieces.len() == 1 {
        assert(!pieces[0].contains(x));
    }
}

/// The lines, each followed by a newline, are the lines joined by newlines
/// with one more newline at the end.
proof fn lemma_text_of_lines(lines: Seq<Seq<char>>)
    requires
        lines.len() >= 1,
    ensures
        text_of_lines(lines) == joined(lines, '\n').push('\n'),
    decreases lines.len(),
{
    if lines.len() == 1 {
        assert(text_of_lines(lines.drop_last()) == Seq::<char>::empty());
        assert(text_of_lines(lines) =~= lines[0].push('\n'));
    } else {
        lemma_text_of_lines(lines.drop_last());
        assert(text_of_lines(lines) =~= joined(lines, '\n').push('\n'));
    }
}

/// No field of the row holds the delimiter, a double quote or a newline.
pub open spec fn plain_fields(row: Seq<Seq<char>>, d: char) -> bool {
    pieces_free_of(row, d) && pieces_free_of(row, '"') && pieces_free_of(row, '\n')
}

/// A line written from plain fields reads back as those fields.
proof fn lemma_line_round_trip(row: Seq<Seq<char>>, d: char)
    requires
        row.len() >= 1,
        d != '"',
        plain_fields(row, d),
    ensures
        line_fields(joined(row, d), d) == Some(row),
{
    lemma_joined_free_of(row, d, '"');
    lemma_split_joined(row, d);
}

/// Rows written from plain fields read back as those rows.
proof fn lemma_rows_round_trip(rows: Seq<Seq<Seq<char>>>, d: char)
    requires
        d != '"',
        forall|i: int| 0 <= i < rows.len() ==> (#[trigger] rows[i]).len() >= 1 && plain_fields(rows[i], d),
    ensures
        lines_fields(rows.map_values(|row: Seq<Seq<char>>| joined(row, d)), d) == Some(rows),
    decreases rows.len(),
{
    let lines = rows.map_values(|row: Seq<Seq<char>>| joined(row, d));
    if rows.len() > 0 {
        let init = rows.drop_last();
        lemma_rows_round_trip(init, d);
        assert(lines.drop_last() =~= init.map_values(|row: Seq<Seq<char>>| joined(row, d)));
        lemma_line_round_trip(rows.last(), d);
        assert(init.push(rows.last()) =~= rows);
    } else {
        assert(rows =~= Seq::<Seq<Seq<char>>>::empty());
    }
}

/// A table whose header and rows hold at least one field each, whose rows are
/// as wide as the header, and whose fields hold neither the delimiter, nor a
/// double quote, nor a newline, is written as text whose lines, split at the
/// newlines, read back as the same table.
pub proof fn lemma_load_round_trip(t: TableView)
    requires
        t.columns.len() >= 1,
        rows_of_width(t.rows, t.columns.len()),
        t.delimiter != '"',
        t.delimiter != '\n',
        plain_fields(t.columns, t.delimiter),
        forall|i: int| 0 <= i < t.rows.len() ==> plain_fields(#[trigger] t.rows[i], t.delimiter),
    ensures
        split_fields(rendered(t), '\n') == table_lines(t).push(Seq::empty()),
        loaded_table(split_fields(rendered(t), '\n').drop_last(), t.delimiter) == Some(t),
{
    let d = t.delimiter;
    let lines = table_lines(t);
    let body = t.rows.map_values(|row: Seq<Seq<char>>| joined(row, d));
    assert(lines.drop_first() =~= body);
    assert(pieces_free_of(lines, '\n')) by {
        assert forall|k: int| 0 <= k < lines.len() implies !(#[trigger] lines[k]).contains('\n') by {
            if k == 0 {
                lemma_joined_free_of(t.columns, d, '\n');
            } else {
                assert(lines[k] == joined(t.rows[k - 1], d));
                lemma_joined_free_of(t.rows[k - 1], d, '\n');
            }
        }
    }
    lemma_text_of_lines(lines);
    lemma_split_joined(lines, '\n');
    let j = joined(lines, '\n').push('\n');
    assert(j.drop_last() =~= joined(lines, '\n'));
    lemma_split_fields_nonempty(joined(lines, '\n'), '\n');
    assert(split_fields(j, '\n').drop_last() =~= lines);
    lemma_line_round_trip(t.columns, d);
    assert forall|i: int| 0 <= i < t.rows.len() implies (#[trigger] t.rows[i]).len() >= 1
        && plain_fields(t.rows[i], d) by {}
    lemma_rows_round_trip(t.rows, d);
}

} // verus!

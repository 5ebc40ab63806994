use vstd::prelude::*;

use crate::error::CsvError;
use crate::table::{first_index, CSVFile, TableView};

verus! {

/// `count` empty fields.
pub open spec fn blanks(count: nat) -> Seq<Seq<char>> {
    Seq::new(count, |_i: int| Seq::<char>::empty())
}

/// A call that returned `r` and took the table from `before` to `after` did
/// what `expected` prescribes: on success the table became the expected one,
/// on failure the expected error came back and the table was left alone.
pub open spec fn applied(
    r: Result<(), CsvError>,
    before: TableView,
    after: TableView,
    expected: Result<TableView, CsvError>,
) -> bool {
    match expected {
        Ok(t) => r is Ok && after == t,
        Err(e) => r == Err::<(), CsvError>(e) && after == before,
    }
}

/// Appending a row: it must be as wide as the header.
pub open spec fn row_added(t: TableView, values: Seq<Seq<char>>) -> Result<TableView, CsvError> {
    if values.len() != t.columns.len() {
        Err(
            CsvError::FieldCount {
                given: values.len() as usize,
                expected: t.columns.len() as usize,
            },
        )
    } else {
        Ok(TableView { rows: t.rows.push(values), ..t })
    }
}

/// Appending a column with a new name; every row gains an empty field.
pub open spec fn column_added(t: TableView, name: Seq<char>) -> Result<TableView, CsvError> {
    if t.columns.contains(name) {
        Err(CsvError::DuplicateColumn)
    } else {
        Ok(
            TableView {
                columns: t.columns.push(name),
                rows: t.rows.map_values(|row: Seq<Seq<char>>| row.push(Seq::empty())),
                ..t
            },
        )
    }
}

/// Inserting a column with a new name at `index`; every row gains an empty
/// field there.
pub open spec fn column_inserted(t: TableView, name: Seq<char>, index: usize) -> Result<
    TableView,
    CsvError,
> {
    if index > t.columns.len() {
        Err(CsvError::ColumnOutOfRange { index })
    } else if t.columns.contains(name) {
        Err(CsvError::DuplicateColumn)
    } else {
        Ok(
            TableView {
                columns: t.columns.insert(index as int, name),
                rows: t.rows.map_values(
                    |row: Seq<Seq<char>>| row.insert(index as int, Seq::empty()),
                ),
                ..t
            },
        )
    }
}

/// Removing the column at `index`, with its field in every row.
pub open spec fn column_removed(t: TableView, index: usize) -> Result<TableView, CsvError> {
    if index >= t.columns.len() {
        Err(CsvError::ColumnOutOfRange { index })
    } else {
        Ok(
            TableView {
                columns: t.columns.remove(index as int),
                rows: t.rows.map_values(|row: Seq<Seq<char>>| row.remove(index as int)),
                ..t
            },
        )
    }
}

/// Removing the row at `index`.
pub open spec fn row_removed(t: TableView, index: usize) -> Result<TableView, CsvError> {
    if index >= t.rows.len() {
        Err(CsvError::RowOutOfRange { index })
    } else {
        Ok(TableView { rows: t.rows.remove(index as int), ..t })
    }
}

/// Overwriting, row by row, the field of the first column called `name`.
pub open spec fn column_filled(t: TableView, name: Seq<char>, data: Seq<Seq<char>>) -> Result<
    TableView,
    CsvError,
> {
    match first_index(t.columns, name) {
        None => Err(CsvError::UnknownColumn),
        Some(j) => if data.len() != t.rows.len() {
            Err(
                CsvError::FieldCount {
                    given: data.len() as usize,
                    expected: t.rows.len() as usize,
                },
            )
        } else {
            Ok(
                TableView {
                    rows: Seq::new(t.rows.len(), |i: int| t.rows[i].update(j, data[i])),
                    ..t
                },
            )
        },
    }
}

/// Row `i` of `t`, or a row of empty fields as wide as its header where `t`
/// has no such row.
pub open spec fn padded_row(t: TableView, i: int) -> Seq<Seq<char>> {
    if i < t.rows.len() {
        t.rows[i]
    } else {
        blanks(t.columns.len())
    }
}

/// Some column name of `o` is also a column name of `t`.
pub open spec fn names_clash(t: TableView, o: TableView) -> bool {
    exists|k: int| 0 <= k < o.columns.len() && t.columns.contains(#[trigger] o.columns[k])
}

/// Placing `o` to the right of `t`: the headers are joined, the shorter table
/// is padded with empty fields, and row `i` of the result is row `i` of each.
pub open spec fn merged(t: TableView, o: TableView) -> Result<TableView, CsvError> {
    if names_clash(t, o) {
        Err(CsvError::DuplicateColumn)
    } else {
        let n = if t.rows.len() < o.rows.len() {
            o.rows.len()
        } else {
            t.rows.len()
        };
        Ok(
            TableView {
                columns: t.columns + o.columns,
                rows: Seq::new(n, |i: int| padded_row(t, i) + padded_row(o, i)),
                ..t
            },
        )
    }
}

/// A row of `count` empty fields.
fn blank_row(count: usize) -> (r: Vec<String>)
    ensures
        r.deep_view() == blanks(count as nat),
{
    let mut row: Vec<String> = Vec::new();
    let mut i: usize = 0;
    while i < count
        invariant
            i <= count,
            row.deep_view() == blanks(i as nat),
        decreases count - i,
    {
        let ghost before = row.deep_view();
        row.push(String::new());
        i = i + 1;
        proof {
            assert(row.deep_view() =~= before.push(Seq::empty()));
            assert(row.deep_view() =~= blanks(i as nat));
        }
    }
    row
}

impl CSVFile {
    /// Places `other` to the right of this table. Fails, changing nothing,
    /// where the two share a column name. The table with fewer rows is
    /// padded with empty fields.
    pub fn merge(&mut self, other: &CSVFile) -> (r: Result<(), CsvError>)
        ensures
            applied(r, old(self)@, final(self)@, merged(old(self)@, other@)),
    {
        let mut k: usize = 0;
        while k < other.columns.len()
            invariant
                k <= other.columns.len(),
                forall|m: int| 0 <= m < k ==> !self@.columns.contains(#[trigger] other@.columns[m]),
            decreases other.columns.len() - k,
        {
            proof {
                assert(other@.columns[k as int] == other.columns[k as int]@);
            }
            if self.has_column(&other.columns[k]) {
                return Err(CsvError::DuplicateColumn);
            }
            k = k + 1;
        }
        let ghost t = self@;
        let ghost o = other@;
        let initial_self_len = self.columns.len();
        let self_rows = self.rows.len();
        let other_rows = other.rows.len();

        let mut extra = other.columns.clone();
        proof {
            assert(extra.deep_view() =~= o.columns);
        }
        self.columns.append(&mut extra);
        proof {
            assert(self@.columns =~= t.columns + o.columns);
        }

        if self_rows < other_rows {
            let mut i: usize = self_rows;
            while i < other_rows
                invariant
                    self_rows <= i <= other_rows,
                    self_rows == t.rows.len(),
                    other_rows == o.rows.len(),
                    initial_self_len == t.columns.len(),
                    self@ == (TableView {
                        rows: self@.rows,
                        columns: t.columns + o.columns,
                        ..t
                    }),
                    self@.rows.len() == i,
                    forall|m: int| 0 <= m < i ==> #[trigger] self@.rows[m] == padded_row(t, m),
                decreases other_rows - i,
            {
                let ghost before = self@.rows;
                self.rows.push(blank_row(initial_self_len));
                proof {
                    assert(self@.rows =~= before.push(blanks(t.columns.len())));
                }
                i = i + 1;
            }
        } else if self_rows > other_rows {
            let mut i: usize = other_rows;
            while i < self_rows
                invariant
                    other_rows <= i <= self_rows,
                    self_rows == t.rows.len(),
                    other_rows == o.rows.len(),
                    other.columns.len() == o.columns.len(),
                    self@ == (TableView {
                        rows: self@.rows,
                        columns: t.columns + o.columns,
                        ..t
                    }),
                    self@.rows.len() == self_rows,
                    forall|m: int|
                        0 <= m < i ==> #[trigger] self@.rows[m] == if m < other_rows {
                            t.rows[m]
                        } else {
                            t.rows[m] + blanks(o.columns.len())
                        },
                    forall|m: int| i <= m < self_rows ==> #[trigger] self@.rows[m] == t.rows[m],
                decreases self_rows - i,
            {
                let ghost before = self@.rows;
                let mut pad = blank_row(other.columns.len());
                self.rows[i].append(&mut pad);
                proof {
                    assert(self@.rows[i as int] =~= before[i as int] + blanks(o.columns.len()));
                    assert forall|m: int| 0 <= m < self_rows && m != i implies #[trigger] self@.rows[m]
                        == before[m] by {}
                }
                i = i + 1;
            }
        }
        let ghost n = self@.rows.len();
        assert(n == if t.rows.len() < o.rows.len() { o.rows.len() } else { t.rows.len() });
        assert forall|m: int| 0 <= m < n implies #[trigger] self@.rows[m] == if m < other_rows {
            padded_row(t, m)
        } else {
            padded_row(t, m) + padded_row(o, m)
        } by {}

        let mut i: usize = 0;
        while i < other_rows
            invariant
                0 <= i <= other_rows,
                other_rows == o.rows.len(),
                other@ == o,
                self@ == (TableView { rows: self@.rows, columns: t.columns + o.columns, ..t }),
                self@.rows.len() == n,
                other_rows <= n,
                forall|m: int|
                    0 <= m < n ==> #[trigger] self@.rows[m] == if m < i || m >= other_rows {
                        padded_row(t, m) + padded_row(o, m)
                    } else {
                        padded_row(t, m)
                    },
            decreases other_rows - i,
        {
            let ghost before = self@.rows;
            let mut fields = other.rows[i].clone();
            proof {
                assert(fields.deep_view() =~= o.rows[i as int]);
            }
            self.rows[i].append(&mut fields);
            proof {
                assert(self@.rows[i as int] =~= before[i as int] + o.rows[i as int]);
                assert forall|m: int| 0 <= m < n && m != i implies #[trigger] self@.rows[m]
                    == before[m] by {}
            }
            i = i + 1;
        }
        proof {
            let expected = merged(t, o)->Ok_0;
            assert(self@.rows =~= expected.rows);
        }
        Ok(())
    }

    /// Overwrites, row by row, the field of the first column called
    /// `column_name` with the matching entry of `data`. Fails where no column
    /// has that name, or where `data` does not hold one entry per row.
    pub fn fill_column(&mut self, column_name: &String, data: &Vec<String>) -> (r: Result<
        (),
        CsvError,
    >)
        requires
            data.len() == old(self)@.rows.len() ==> (first_index(old(self)@.columns, column_name@) matches Some(j) ==> forall|i: int|
                0 <= i < old(self)@.rows.len() ==> j < #[trigger] old(self)@.rows[i].len()),
        ensures
            applied(r, old(self)@, final(self)@, column_filled(old(self)@, column_name@, data.deep_view())),
    {
        let column_idx = match self.get_column_idx(column_name) {
            None => return Err(CsvError::UnknownColumn),
            Some(j) => j,
        };
        if data.len() != self.rows.len() {
            return Err(CsvError::FieldCount { given: data.len(), expected: self.rows.len() });
        }
        let ghost t = self@;
        let mut i: usize = 0;
        while i < self.rows.len()
            invariant
                i <= self.rows.len(),
                self.rows.len() == t.rows.len(),
                data.len() == t.rows.len(),
                first_index(t.columns, column_name@) == Some(column_idx as int),
                forall|m: int| 0 <= m < t.rows.len() ==> column_idx < #[trigger] t.rows[m].len(),
                self@ == (TableView { rows: self@.rows, ..t }),
                forall|m: int|
                    0 <= m < t.rows.len() ==> #[trigger] self@.rows[m] == if m < i {
                        t.rows[m].update(column_idx as int, data.deep_view()[m])
                    } else {
                        t.rows[m]
                    },
            decreases t.rows.len() - i,
        {
            let ghost before = self@.rows;
            proof {
                assert(self@.rows[i as int] == self.rows[i as int].deep_view());
                assert(self.rows[i as int].deep_view().len() == self.rows[i as int].len());
                assert(data.deep_view()[i as int] == data[i as int]@);
            }
            self.rows[i][column_idx] = data[i].clone();
            proof {
                assert(self@.rows[i as int] =~= before[i as int].update(column_idx as int, data.deep_view()[i as int]));
                assert forall|m: int| 0 <= m < t.rows.len() && m != i implies #[trigger] self@.rows[m]
                    == before[m] by {}
            }
            i = i + 1;
        }
        proof {
            assert(self@.rows =~= column_filled(t, column_name@, data.deep_view())->Ok_0.rows);
        }
        Ok(())
    }

    /// Appends a row, which must be as wide as the header.
    pub fn add_row(&mut self, data: &Vec<String>) -> (r: Result<(), CsvError>)
        ensures
            applied(r, old(self)@, final(self)@, row_added(old(self)@, data.deep_view())),
    {
        if data.len() != self.columns.len() {
            return Err(CsvError::FieldCount { given: data.len(), expected: self.columns.len() });
        }
        let ghost before = self@.rows;
        let row = data.clone();
        proof {
            assert(row.deep_view() =~= data.deep_view());
        }
        self.rows.push(row);
        proof {
            assert(self@.rows =~= before.push(data.deep_view()));
        }
        Ok(())
    }

    /// Appends a column called `name`, which must be new, and an empty field
    /// to every row.
    pub fn add_column(&mut self, name: &String) -> (r: Result<(), CsvError>)
        ensures
            applied(r, old(self)@, final(self)@, column_added(old(self)@, name@)),
    {
        if self.has_column(name) {
            return Err(CsvError::DuplicateColumn);
        }
        let ghost t = self@;
        self.columns.push(name.clone());
        proof {
            assert(self@.columns =~= t.columns.push(name@));
        }
        let mut i: usize = 0;
        while i < self.rows.len()
            invariant
                i <= self.rows.len(),
                self.rows.len() == t.rows.len(),
                self@ == (TableView { rows: self@.rows, columns: t.columns.push(name@), ..t }),
                forall|m: int|
                    0 <= m < t.rows.len() ==> #[trigger] self@.rows[m] == if m < i {
                        t.rows[m].push(Seq::empty())
                    } else {
                        t.rows[m]
                    },
            decreases t.rows.len() - i,
        {
            let ghost before = self@.rows;
            self.rows[i].push(String::new());
            proof {
                assert(self@.rows[i as int] =~= before[i as int].push(Seq::empty()));
                assert forall|m: int| 0 <= m < t.rows.len() && m != i implies #[trigger] self@.rows[m]
                    == before[m] by {}
            }
            i = i + 1;
        }
        proof {
            assert(self@.rows =~= column_added(t, name@)->Ok_0.rows);
        }
        Ok(())
    }

    /// Inserts a column called `name`, which must be new, at `column_idx`,
    /// which may be at most the number of columns, and an empty field at the
    /// same place in every row.
    pub fn insert_column(&mut self, name: &String, column_idx: usize) -> (r: Result<(), CsvError>)
        requires
            column_idx <= old(self)@.columns.len() && !old(self)@.columns.contains(name@)
                ==> forall|i: int|
                0 <= i < old(self)@.rows.len() ==> column_idx <= #[trigger] old(self)@.rows[i].len(),
        ensures
            applied(r, old(self)@, final(self)@, column_inserted(old(self)@, name@, column_idx)),
    {
        if column_idx > self.columns.len() {
            return Err(CsvError::ColumnOutOfRange { index: column_idx });
        }
        if self.has_column(name) {
            return Err(CsvError::DuplicateColumn);
        }
        let ghost t = self@;
        self.columns.insert(column_idx, name.clone());
        proof {
            assert(self@.columns =~= t.columns.insert(column_idx as int, name@));
        }
        let mut i: usize = 0;
        while i < self.rows.len()
            invariant
                i <= self.rows.len(),
                self.rows.len() == t.rows.len(),
                column_idx <= t.columns.len(),
                forall|m: int| 0 <= m < t.rows.len() ==> column_idx <= #[trigger] t.rows[m].len(),
                self@ == (TableView {
                    rows: self@.rows,
                    columns: t.columns.insert(column_idx as int, name@),
                    ..t
                }),
                forall|m: int|
                    0 <= m < t.rows.len() ==> #[trigger] self@.rows[m] == if m < i {
                        t.rows[m].insert(column_idx as int, Seq::empty())
                    } else {
                        t.rows[m]
                    },
            decreases t.rows.len() - i,
        {
            let ghost before = self@.rows;
            proof {
                assert(self@.rows[i as int] == self.rows[i as int].deep_view());
                assert(self.rows[i as int].deep_view().len() == self.rows[i as int].len());
            }
            self.rows[i].insert(column_idx, String::new());
            proof {
                assert(self@.rows[i as int] =~= before[i as int].insert(column_idx as int, Seq::empty()));
                assert forall|m: int| 0 <= m < t.rows.len() && m != i implies #[trigger] self@.rows[m]
                    == before[m] by {}
            }
            i = i + 1;
        }
        proof {
            assert(self@.rows =~= column_inserted(t, name@, column_idx)->Ok_0.rows);
        }
        Ok(())
    }

    /// Removes the column at `column_idx` and its field in every row.
    pub fn remove_column(&mut self, column_idx: usize) -> (r: Result<(), CsvError>)
        requires
            column_idx < old(self)@.columns.len() ==> forall|i: int|
                0 <= i < old(self)@.rows.len() ==> column_idx < #[trigger] old(self)@.rows[i].len(),
        ensures
            applied(r, old(self)@, final(self)@, column_removed(old(self)@, column_idx)),
    {
        if column_idx >= self.columns.len() {
            return Err(CsvError::ColumnOutOfRange { index: column_idx });
        }
        let ghost t = self@;
        self.columns.remove(column_idx);
        proof {
            assert(self@.columns =~= t.columns.remove(column_idx as int));
        }
        let mut i: usize = 0;
        while i < self.rows.len()
            invariant
                i <= self.rows.len(),
                self.rows.len() == t.rows.len(),
                column_idx < t.columns.len(),
                forall|m: int| 0 <= m < t.rows.len() ==> column_idx < #[trigger] t.rows[m].len(),
                self@ == (TableView {
                    rows: self@.rows,
                    columns: t.columns.remove(column_idx as int),
                    ..t
                }),
                forall|m: int|
                    0 <= m < t.rows.len() ==> #[trigger] self@.rows[m] == if m < i {
                        t.rows[m].remove(column_idx as int)
                    } else {
                        t.rows[m]
                    },
            decreases t.rows.len() - i,
        {
            let ghost before = self@.rows;
            proof {
                assert(self@.rows[i as int] == self.rows[i as int].deep_view());
                assert(self.rows[i as int].deep_view().len() == self.rows[i as int].len());
            }
            self.rows[i].remove(column_idx);
            proof {
                assert(self@.rows[i as int] =~= before[i as int].remove(column_idx as int));
                assert forall|m: int| 0 <= m < t.rows.len() && m != i implies #[trigger] self@.rows[m]
                    == before[m] by {}
            }
            i = i + 1;
        }
        proof {
            assert(self@.rows =~= column_removed(t, column_idx)->Ok_0.rows);
        }
        Ok(())
    }

    /// Removes the row at `row_idx`.
    pub fn remove_row(&mut self, row_idx: usize) -> (r: Result<(), CsvError>)
        ensures
            applied(r, old(self)@, final(self)@, row_removed(old(self)@, row_idx)),
    {
        if row_idx >= self.rows.len() {
            return Err(CsvError::RowOutOfRange { index: row_idx });
        }
        let ghost before = self@.rows;
        self.rows.remove(row_idx);
        proof {
            assert(self@.rows =~= before.remove(row_idx as int));
        }
        Ok(())
    }
}

} // verus!

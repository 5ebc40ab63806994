use vstd::prelude::*;

use crate::error::CsvError;

verus! {

/// The contents of a table, as mathematical values.
pub struct TableView {
    pub delimiter: char,
    pub columns: Seq<Seq<char>>,
    pub rows: Seq<Seq<Seq<char>>>,
}

/// No two column names are equal.
pub open spec fn distinct_names(columns: Seq<Seq<char>>) -> bool {
    forall|i: int, j: int| 0 <= i < j < columns.len() ==> columns[i] != columns[j]
}

/// Every row has exactly `width` fields.
pub open spec fn rows_of_width(rows: Seq<Seq<Seq<char>>>, width: nat) -> bool {
    forall|i: int| 0 <= i < rows.len() ==> #[trigger] rows[i].len() == width
}

/// The index of the first occurrence of `name` in `names`.
pub open spec fn first_index(names: Seq<Seq<char>>, name: Seq<char>) -> Option<int>
    decreases names.len(),
{
    if names.len() == 0 {
        None
    } else {
        match first_index(names.drop_last(), name) {
            Some(j) => Some(j),
            None => if names.last() == name {
                Some(names.len() - 1)
            } else {
                None
            },
        }
    }
}

/// `first_index` is `None` exactly where the name is absent, and otherwise
/// the position of its first occurrence.
pub proof fn lemma_first_index(names: Seq<Seq<char>>, name: Seq<char>)
    ensures
        first_index(names, name) is None <==> !names.contains(name),
        first_index(names, name) matches Some(j) ==> 0 <= j < names.len() && names[j] == name
            && forall|k: int| 0 <= k < j ==> names[k] != name,
    decreases names.len(),
{
    if names.len() > 0 {
        let p = names.drop_last();
        lemma_first_index(p, name);
        assert forall|k: int| 0 <= k < p.len() implies #[trigger] names[k] == p[k] by {}
        match first_index(p, name) {
            Some(j) => {
                assert(names.contains(name)) by {
                    assert(names[j] == name);
                }
            },
            None => {
                if names.last() == name {
                    assert(names[names.len() - 1] == name);
                    assert forall|k: int| 0 <= k < names.len() - 1 implies names[k] != name by {
                        if names[k] == name {
                            assert(p[k] == name);
                        }
                    }
                } else {
                    assert forall|k: int| 0 <= k < names.len() implies names[k] != name by {
                        if k < p.len() && names[k] == name {
                            assert(p[k] == name);
                        }
                    }
                }
            },
        }
    }
}

/// The first index found within a prefix is the first index of the whole.
proof fn lemma_first_index_prefix(names: Seq<Seq<char>>, name: Seq<char>, k: int)
    requires
        0 <= k <= names.len(),
        first_index(names.take(k), name) is Some,
    ensures
        first_index(names, name) == first_index(names.take(k), name),
    decreases names.len() - k,
{
    if k < names.len() {
        assert(names.take(k + 1).drop_last() =~= names.take(k));
        lemma_first_index_prefix(names, name, k + 1);
    } else {
        assert(names.take(k) =~= names);
    }
}

impl TableView {
    /// The column names are distinct and every row is as wide as the header.
    pub open spec fn valid(self) -> bool {
        distinct_names(self.columns) && rows_of_width(self.rows, self.columns.len())
    }
}

/// The raw text of a table: a delimiter, column names and rows of fields.
#[derive(Debug)]
pub struct CSVFile {
    pub delimiter: char,
    pub columns: Vec<String>,
    pub rows: Vec<Vec<String>>,
}

impl View for CSVFile {
    type V = TableView;

    open spec fn view(&self) -> TableView {
        TableView {
            delimiter: self.delimiter,
            columns: self.columns.deep_view(),
            rows: self.rows.deep_view(),
        }
    }
}

/// The position of a cell: a row index and a column index.
#[derive(Debug, Clone, Copy, PartialEq, Eq, Structural)]
pub struct CSVCoords {
    pub row: usize,
    pub column: usize,
}

impl CSVFile {
    /// Builds a table from column names and rows, each row as wide as the
    /// header. The first row of another width is reported.
    pub fn build(columns: &Vec<String>, rows: &Vec<Vec<String>>, delimiter: &char) -> (r: Result<
        CSVFile,
        CsvError,
    >)
        ensures
            r is Ok <==> rows_of_width(rows.deep_view(), columns.len() as nat),
            r is Ok ==> r->Ok_0@ == (TableView {
                delimiter: *delimiter,
                columns: columns.deep_view(),
                rows: rows.deep_view(),
            }),
            r is Err ==> exists|i: int|
                0 <= i < rows.len() && rows[i].len() != columns.len() && (forall|j: int|
                    0 <= j < i ==> #[trigger] rows[j].len() == columns.len()) && r->Err_0
                    == (CsvError::RowLength {
                    row: i as usize,
                    given: rows[i].len(),
                    expected: columns.len(),
                }),
    {
        let mut i: usize = 0;
        while i < rows.len()
            invariant
                i <= rows.len(),
                forall|j: int| 0 <= j < i ==> #[trigger] rows[j].len() == columns.len(),
            decreases rows.len() - i,
        {
            assert(rows.deep_view()[i as int].len() == rows[i as int].len());
            if rows[i].len() != columns.len() {
                return Err(
                    CsvError::RowLength { row: i, given: rows[i].len(), expected: columns.len() },
                );
            }
            i = i + 1;
        }
        assert forall|j: int| 0 <= j < rows.len() implies #[trigger] rows.deep_view()[j].len()
            == columns.len() by {
            assert(rows.deep_view()[j].len() == rows[j].len());
        }
        let columns_copy = columns.clone();
        let rows_copy = rows.clone();
        proof {
            assert(columns_copy.deep_view() =~= columns.deep_view());
            assert(rows_copy.deep_view() =~= rows.deep_view());
        }
        Ok(CSVFile { delimiter: *delimiter, columns: columns_copy, rows: rows_copy })
    }

    /// The number of columns.
    pub fn len(&self) -> (r: usize)
        ensures
            r == self@.columns.len(),
    {
        self.columns.len()
    }

    /// The number of rows, the header left out.
    pub fn count_rows(&self) -> (r: usize)
        ensures
            r == self@.rows.len(),
    {
        self.rows.len()
    }

    /// The index of the first column called `column_name`.
    pub fn get_column_idx(&self, column_name: &String) -> (r: Option<usize>)
        ensures
            r is None <==> first_index(self@.columns, column_name@) is None,
            r matches Some(j) ==> first_index(self@.columns, column_name@) == Some(j as int),
            r is None <==> !self@.columns.contains(column_name@),
            r matches Some(j) ==> j < self@.columns.len() && self@.columns[j as int] == column_name@
                && forall|k: int| 0 <= k < j ==> self@.columns[k] != column_name@,
    {
        proof {
            lemma_first_index(self@.columns, column_name@);
        }
        let mut i: usize = 0;
        while i < self.columns.len()
            invariant
                i <= self.columns.len(),
                first_index(self@.columns.take(i as int), column_name@) is None,
            decreases self.columns.len() - i,
        {
            proof {
                assert(self@.columns.take(i + 1).drop_last() =~= self@.columns.take(i as int));
                assert(self@.columns[i as int] == self.columns[i as int]@);
            }
            if self.columns[i] == *column_name {
                proof {
                    lemma_first_index_prefix(self@.columns, column_name@, i + 1);
                    lemma_first_index(self@.columns, column_name@);
                }
                return Some(i);
            }
            i = i + 1;
        }
        proof {
            assert(self@.columns.take(i as int) =~= self@.columns);
        }
        None
    }

    /// Whether a column is called `column_name`.
    pub fn has_column(&self, column_name: &String) -> (r: bool)
        ensures
            r == self@.columns.contains(column_name@),
    {
        proof {
            lemma_first_index(self@.columns, column_name@);
        }
        self.get_column_idx(column_name).is_some()
    }

    /// Whether the table has no row.
    pub fn has_no_rows(&self) -> (r: bool)
        ensures
            r == (self@.rows.len() == 0),
    {
        self.rows.is_empty()
    }

    /// Whether the table has no column.
    pub fn has_no_columns(&self) -> (r: bool)
        ensures
            r == (self@.columns.len() == 0),
    {
        self.columns.is_empty()
    }

    /// Whether the table has neither a column nor a row.
    pub fn empty(&self) -> (r: bool)
        ensures
            r == (self@.rows.len() == 0 && self@.columns.len() == 0),
    {
        self.has_no_rows() && self.has_no_columns()
    }

    /// Replaces the delimiter.
    pub fn set_delimiter(&mut self, new_delimiter: &char)
        ensures
            final(self)@ == (TableView { delimiter: *new_delimiter, ..old(self)@ }),
    {
        self.delimiter = *new_delimiter;
    }

    /// The cell at the given coordinates, or `None` where either index is out
    /// of range.
    pub fn get_cell(&self, coordinates: &CSVCoords) -> (r: Option<&String>)
        ensures
            r is Some <==> coordinates.row < self@.rows.len() && coordinates.column
                < self@.rows[coordinates.row as int].len(),
            r matches Some(cell) ==> cell@ == self@.rows[coordinates.row as int][coordinates.column as int],
    {
        if coordinates.row < self.rows.len() {
            let row = &self.rows[coordinates.row];
            proof {
                assert(self@.rows[coordinates.row as int] == row.deep_view());
            }
            if coordinates.column < row.len() {
                return Some(&row[coordinates.column]);
            }
        }
        None
    }
}

} // verus!

use vstd::prelude::*;

use crate::error::CsvError;
use crate::table::{rows_of_width, CSVFile, TableView};
use crate::text::contains_char;
use crate::tokenizer::{parse_line, parsed_fields, split_fields, split_line};

verus! {

/// The fields of one line: the scanner reads a line that holds a double
/// quote, the plain split any other. `None` where the scanner refuses it.
pub open spec fn line_fields(s: Seq<char>, d: char) -> Option<Seq<Seq<char>>> {
    if s.contains('"') {
        parsed_fields(s, d)
    } else {
        Some(split_fields(s, d))
    }
}

/// The fields of each line in turn, or `None` as soon as one line is refused.
pub open spec fn lines_fields(lines: Seq<Seq<char>>, d: char) -> Option<Seq<Seq<Seq<char>>>>
    decreases lines.len(),
{
    if lines.len() == 0 {
        Some(Seq::empty())
    } else {
        match (lines_fields(lines.drop_last(), d), line_fields(lines.last(), d)) {
            (Some(rows), Some(row)) => Some(rows.push(row)),
            _ => None,
        }
    }
}

/// The table that a header line and the data lines after it describe, with
/// the delimiter `d`; `None` where a line is refused.
pub open spec fn loaded_table(lines: Seq<Seq<char>>, d: char) -> Option<TableView>
    recommends
        lines.len() > 0,
{
    match (line_fields(lines[0], d), lines_fields(lines.drop_first(), d)) {
        (Some(columns), Some(rows)) => Some(TableView { delimiter: d, columns, rows }),
        _ => None,
    }
}

/// Reads the header line into column names.
pub fn read_columns(line: &String, delimiter: &char) -> (r: Result<Vec<String>, CsvError>)
    ensures
        r is Ok <==> line_fields(line@, *delimiter) is Some,
        r is Ok ==> r->Ok_0.deep_view() == line_fields(line@, *delimiter)->Some_0,
        r is Err ==> r->Err_0 == CsvError::Unterminated,
{
    if contains_char(line, '"') {
        parse_line(line, delimiter, None)
    } else {
        Ok(split_line(line, delimiter))
    }
}

/// Reads each data line into a row. The first refused line makes the whole
/// read fail. `number_of_fields` only reserves room for each row.
pub fn read_rows(lines: &Vec<String>, delimiter: &char, number_of_fields: usize) -> (r: Result<
    Vec<Vec<String>>,
    CsvError,
>)
    ensures
        r is Ok <==> lines_fields(lines.deep_view(), *delimiter) is Some,
        r is Ok ==> r->Ok_0.deep_view() == lines_fields(lines.deep_view(), *delimiter)->Some_0,
        r is Err ==> r->Err_0 == CsvError::Unterminated,
{
    let ghost d = *delimiter;
    let mut data: Vec<Vec<String>> = Vec::new();
    let mut i: usize = 0;
    proof {
        assert(lines.deep_view().take(0) =~= Seq::<Seq<char>>::empty());
        assert(data.deep_view() =~= Seq::<Seq<Seq<char>>>::empty());
    }
    while i < lines.len()
        invariant
            i <= lines.len(),
            d == *delimiter,
            lines_fields(lines.deep_view().take(i as int), d) == Some(data.deep_view()),
        decreases lines.len() - i,
    {
        let line = &lines[i];
        proof {
            assert(lines.deep_view()[i as int] == line@);
            assert(lines.deep_view().take(i + 1).drop_last() =~= lines.deep_view().take(i as int));
            assert(lines.deep_view().take(i + 1).last() == line@);
        }
        let quoted = contains_char(line, '"');
        let fields = if quoted {
            let parsed = parse_line(line, delimiter, Some(#[verifier::truncate] (number_of_fields as u32)));
            match parsed {
                Ok(f) => f,
                Err(e) => {
                    proof {

                        assert(line_fields(line@, d) is None);
                        assert(lines_fields(lines.deep_view().take(i + 1), d) is None);
                        lemma_lines_fields_none_extends(lines.deep_view(), d, i + 1);
                    }
                    return Err(e);
                },
            }
        } else {
            split_line(line, delimiter)
        };
        assert(fields.deep_view() == line_fields(line@, d)->Some_0);
        let ghost before = data.deep_view();
        data.push(fields);
        proof {
            assert(data.deep_view() =~= before.push(line_fields(line@, d)->Some_0));
        }
        i = i + 1;
    }
    proof {
        assert(lines.deep_view().take(lines.len() as int) =~= lines.deep_view());
    }
    Ok(data)
}

/// Once a prefix of the lines is refused, every longer prefix is refused too.
proof fn lemma_lines_fields_none_extends(lines: Seq<Seq<char>>, d: char, k: int)
    requires
        0 <= k <= lines.len(),
        lines_fields(lines.take(k), d) is None,
    ensures
        lines_fields(lines, d) is None,
    decreases lines.len() - k,
{
    if k < lines.len() {
        assert(lines.take(k + 1).drop_last() =~= lines.take(k));
        lemma_lines_fields_none_extends(lines, d, k + 1);
    } else {
        assert(lines.take(k) =~= lines);
    }
}

impl CSVFile {
    /// Builds a table from raw lines: the first holds the column names, the
    /// others the rows. Fails where a line ends inside quotes or after an
    /// unused backslash, and otherwise where a row is not as wide as the
    /// header, naming the first such row as `build` does.
    pub fn from_lines(lines: &Vec<String>, delimiter: &char) -> (r: Result<CSVFile, CsvError>)
        requires
            lines.len() > 0,
        ensures
            r is Ok <==> (loaded_table(lines.deep_view(), *delimiter) matches Some(t)
                && rows_of_width(t.rows, t.columns.len())),
            r is Ok ==> r->Ok_0@ == loaded_table(lines.deep_view(), *delimiter)->Some_0,
            loaded_table(lines.deep_view(), *delimiter) is None ==> r == Err::<CSVFile, CsvError>(
                CsvError::Unterminated,
            ),
            loaded_table(lines.deep_view(), *delimiter) matches Some(t) ==> (!rows_of_width(
                t.rows,
                t.columns.len(),
            ) ==> exists|i: int|
                0 <= i < t.rows.len() && t.rows[i].len() != t.columns.len() && (forall|j: int|
                    0 <= j < i ==> #[trigger] t.rows[j].len() == t.columns.len()) && r
                    == Err::<CSVFile, CsvError>(
                    CsvError::RowLength {
                        row: i as usize,
                        given: t.rows[i].len() as usize,
                        expected: t.columns.len() as usize,
                    },
                )),
    {
        let columns = match read_columns(&lines[0], delimiter) {
            Ok(c) => c,
            Err(e) => return Err(e),
        };
        let mut body: Vec<String> = Vec::new();
        let mut i: usize = 1;
        while i < lines.len()
            invariant
                1 <= i <= lines.len(),
                body.deep_view() == lines.deep_view().subrange(1, i as int),
            decreases lines.len() - i,
        {
            let ghost before = body.deep_view();
            body.push(lines[i].clone());
            proof {
                assert(lines.deep_view()[i as int] == lines[i as int]@);
                assert(body.deep_view() =~= before.push(lines[i as int]@));
                assert(body.deep_view() =~= lines.deep_view().subrange(1, i + 1));
            }
            i = i + 1;
        }
        proof {
            assert(body.deep_view() =~= lines.deep_view().drop_first());
        }
        let rows = match read_rows(&body, delimiter, columns.len()) {
            Ok(r) => r,
            Err(e) => return Err(e),
        };
        let ghost t = loaded_table(lines.deep_view(), *delimiter)->Some_0;
        proof {
            assert(t.columns == columns.deep_view());
            assert(t.rows == rows.deep_view());
            assert forall|j: int| 0 <= j < rows.len() implies #[trigger] t.rows[j].len() == rows[j].len() by {
                assert(t.rows[j] == rows[j].deep_view());
            }
        }
        let r = CSVFile::build(&columns, &rows, delimiter);
        proof {
            if r is Err {
                let i = choose|i: int|
                    0 <= i < rows.len() && rows[i].len() != columns.len() && (forall|j: int|
                        0 <= j < i ==> #[trigger] rows[j].len() == columns.len()) && r->Err_0
                        == (CsvError::RowLength {
                        row: i as usize,
                        given: rows[i].len(),
                        expected: columns.len(),
                    });
                assert(t.rows[i].len() == rows[i].len());
                assert(forall|j: int| 0 <= j < i ==> #[trigger] t.rows[j].len() == t.columns.len());
            }
        }
        r
    }
}

} // verus!

use vstd::prelude::*;

use crate::table::{CSVCoords, CSVFile, TableView};
use crate::text::push_char;

verus! {

/// The fields joined by `d`, with no delimiter after the last one.
pub open spec fn joined(fields: Seq<Seq<char>>, d: char) -> Seq<char>
    decreases fields.len(),
{
    if fields.len() == 0 {
        Seq::empty()
    } else if fields.len() == 1 {
        fields[0]
    } else {
        joined(fields.drop_last(), d).push(d) + fields.last()
    }
}

/// Each line followed by a newline.
pub open spec fn text_of_lines(lines: Seq<Seq<char>>) -> Seq<char>
    decreases lines.len(),
{
    if lines.len() == 0 {
        Seq::empty()
    } else {
        text_of_lines(lines.drop_last()) + lines.last().push('\n')
    }
}

/// The lines of a table: the header, then each row, fields joined by the
/// table's delimiter.
pub open spec fn table_lines(t: TableView) -> Seq<Seq<char>> {
    seq![joined(t.columns, t.delimiter)] + t.rows.map_values(
        |row: Seq<Seq<char>>| joined(row, t.delimiter),
    )
}

/// The text of a table.
pub open spec fn rendered(t: TableView) -> Seq<char> {
    text_of_lines(table_lines(t))
}

/// The decimal digit for `n`, below ten.
pub open spec fn digit(n: nat) -> char {
    seq!['0', '1', '2', '3', '4', '5', '6', '7', '8', '9'][n as int]
}

/// The decimal notation of `n`, without leading zeros.
pub open spec fn decimal(n: nat) -> Seq<char>
    decreases n,
{
    if n < 10 {
        seq![digit(n)]
    } else {
        decimal(n / 10).push(digit(n % 10))
    }
}

fn digit_char(n: usize) -> (c: char)
    requires
        n < 10,
    ensures
        c == digit(n as nat),
{
    match n {
        0 => '0',
        1 => '1',
        2 => '2',
        3 => '3',
        4 => '4',
        5 => '5',
        6 => '6',
        7 => '7',
        8 => '8',
        _ => '9',
    }
}

/// Appends the decimal notation of `n`.
fn push_decimal(out: &mut String, n: usize)
    ensures
        final(out)@ == old(out)@ + decimal(n as nat),
    decreases n,
{
    if n >= 10 {
        push_decimal(out, n / 10);
    }
    push_char(out, digit_char(n % 10));
    proof {
        if n >= 10 {
            assert(old(out)@ + decimal(n as nat) =~= old(out)@ + decimal((n / 10) as nat) + seq![
                digit((n % 10) as nat),
            ]);
        } else {
            assert(old(out)@ + decimal(n as nat) =~= old(out)@.push(digit(n as nat)));
        }
    }
}

/// Appends the characters of `s`.
fn push_text(out: &mut String, s: &String)
    ensures
        final(out)@ == old(out)@ + s@,
{
    let ghost start = out@;
    for c in it: s.as_str().chars()
        invariant
            it.seq() == s@,
            out@ == start + s@.take(it.index() as int),
    {
        proof {
            assert(s@.take(it.index() + 1) =~= s@.take(it.index() as int).push(c));
        }
        push_char(out, c);
        proof {
            assert(out@ =~= start + s@.take(it.index() + 1));
        }
    }
    proof {
        assert(s@.take(s@.len() as int) =~= s@);
    }
}

/// Appends the fields joined by `d`, then a newline.
fn push_line(out: &mut String, fields: &Vec<String>, d: char)
    ensures
        final(out)@ == old(out)@ + joined(fields.deep_view(), d).push('\n'),
{
    let ghost start = out@;
    let mut k: usize = 0;
    proof {
        assert(fields.deep_view().take(0) =~= Seq::<Seq<char>>::empty());
        assert(out@ =~= start + joined(fields.deep_view().take(0), d));
    }
    while k < fields.len()
        invariant
            k <= fields.len(),
            out@ == start + joined(fields.deep_view().take(k as int), d),
        decreases fields.len() - k,
    {
        let ghost prefix = fields.deep_view().take(k as int);
        let ghost next = fields.deep_view().take(k + 1);
        proof {
            assert(next.drop_last() =~= prefix);
            assert(next.last() == fields[k as int]@);
        }
        if k > 0 {
            push_char(out, d);
        }
        push_text(out, &fields[k]);
        proof {
            assert(out@ =~= start + joined(next, d));
        }
        k = k + 1;
    }
    proof {
        assert(fields.deep_view().take(k as int) =~= fields.deep_view());
    }
    push_char(out, '\n');
    proof {
        assert(out@ =~= start + joined(fields.deep_view(), d).push('\n'));
    }
}

impl CSVFile {
    /// The text of the table: the header line, then one line per row, the
    /// fields joined by the delimiter and each line ended by a newline.
    /// Fields are written as they are, without quotes.
    pub fn to_string(&self) -> (r: String)
        ensures
            r@ == rendered(self@),
    {
        let mut result = String::new();
        let ghost lines = table_lines(self@);
        push_line(&mut result, &self.columns, self.delimiter);
        proof {
            assert(lines.take(1).drop_last() =~= Seq::<Seq<char>>::empty());
            assert(lines[0] == joined(self@.columns, self.delimiter));
            assert(lines.take(1).last() == lines[0]);
            assert(text_of_lines(Seq::<Seq<char>>::empty()) == Seq::<char>::empty());
            assert(result@ =~= text_of_lines(lines.take(1)));
        }
        let mut i: usize = 0;
        while i < self.rows.len()
            invariant
                i <= self.rows.len(),
                lines == table_lines(self@),
                lines.len() == self.rows.len() + 1,
                result@ == text_of_lines(lines.take(i + 1)),
            decreases self.rows.len() - i,
        {
            push_line(&mut result, &self.rows[i], self.delimiter);
            proof {
                assert(lines.take(i + 2).drop_last() =~= lines.take(i + 1));
                assert(lines[i + 1] == joined(self.rows[i as int].deep_view(), self.delimiter));
            }
            i = i + 1;
        }
        proof {
            assert(lines.take(i + 1) =~= lines);
        }
        result
    }
}

impl CSVCoords {
    /// The coordinates written as `(row, column)`.
    pub fn to_string(&self) -> (r: String)
        ensures
            r@ == seq!['('] + decimal(self.row as nat) + seq![',', ' '] + decimal(self.column as nat)
                + seq![')'],
    {
        let mut out = String::new();
        push_char(&mut out, '(');
        push_decimal(&mut out, self.row);
        push_char(&mut out, ',');
        push_char(&mut out, ' ');
        push_decimal(&mut out, self.column);
        push_char(&mut out, ')');
        proof {
            assert(out@ =~= seq!['('] + decimal(self.row as nat) + seq![',', ' '] + decimal(
                self.column as nat,
            ) + seq![')']);
        }
        out
    }
}

} // verus!

use vstd::prelude::*;

use crate::table::{CSVFile, TableView};

verus! {

/// Every field of the row is empty.
pub open spec fn blank(row: Seq<Seq<char>>) -> bool {
    forall|k: int| 0 <= k < row.len() ==> #[trigger] row[k].len() == 0
}

/// The rows without their trailing run of blank rows.
pub open spec fn trimmed_end(rows: Seq<Seq<Seq<char>>>) -> Seq<Seq<Seq<char>>>
    decreases rows.len(),
{
    if rows.len() > 0 && blank(rows.last()) {
        trimmed_end(rows.drop_last())
    } else {
        rows
    }
}

/// The rows without their leading run of blank rows.
pub open spec fn trimmed_start(rows: Seq<Seq<Seq<char>>>) -> Seq<Seq<Seq<char>>>
    decreases rows.len(),
{
    if rows.len() > 0 && blank(rows[0]) {
        trimmed_start(rows.drop_first())
    } else {
        rows
    }
}

/// The rows without their leading and trailing runs of blank rows.
pub open spec fn trimmed(rows: Seq<Seq<Seq<char>>>) -> Seq<Seq<Seq<char>>> {
    trimmed_end(trimmed_start(rows))
}

/// The rows that are not blank, in their order.
pub open spec fn non_blank(rows: Seq<Seq<Seq<char>>>) -> Seq<Seq<Seq<char>>>
    decreases rows.len(),
{
    if rows.len() == 0 {
        rows
    } else if blank(rows.last()) {
        non_blank(rows.drop_last())
    } else {
        non_blank(rows.drop_last()).push(rows.last())
    }
}

/// Whether every field of the row is empty.
fn row_is_blank(row: &Vec<String>) -> (r: bool)
    ensures
        r == blank(row.deep_view()),
{
    let mut i: usize = 0;
    while i < row.len()
        invariant
            i <= row.len(),
            forall|k: int| 0 <= k < i ==> #[trigger] row.deep_view()[k].len() == 0,
        decreases row.len() - i,
    {
        proof {
            assert(row.deep_view()[i as int] == row[i as int]@);
        }
        if !row[i].as_str().is_empty() {
            return false;
        }
        i = i + 1;
    }
    true
}

impl CSVFile {
    /// Removes the blank rows at the end, from the last one back to the
    /// first row that is not blank.
    pub fn trim_end(&mut self)
        ensures
            final(self)@ == (TableView { rows: trimmed_end(old(self)@.rows), ..old(self)@ }),
    {
        let ghost t = self@;
        loop
            invariant
                self@ == (TableView { rows: self@.rows, ..t }),
                trimmed_end(self@.rows) == trimmed_end(t.rows),
            ensures
                self@ == (TableView { rows: trimmed_end(t.rows), ..t }),
            decreases self.rows.len(),
        {
            let n = self.rows.len();
            if n == 0 {
                assert(trimmed_end(self@.rows) == self@.rows);
                break;
            }
            proof {
                assert(self@.rows.last() == self.rows[n - 1].deep_view());
            }
            if !row_is_blank(&self.rows[n - 1]) {
                assert(trimmed_end(self@.rows) == self@.rows);
                break;
            }
            let ghost before = self@.rows;
            self.rows.pop();
            proof {
                assert(self@.rows =~= before.drop_last());
            }
        }
    }

    /// Removes the blank rows at the start, up to the first row that is not
    /// blank.
    pub fn trim_start(&mut self)
        ensures
            final(self)@ == (TableView { rows: trimmed_start(old(self)@.rows), ..old(self)@ }),
    {
        let ghost t = self@;
        let mut k: usize = 0;
        assert(t.rows.subrange(0, t.rows.len() as int) =~= t.rows);
        while k < self.rows.len()
            invariant
                k <= self.rows.len(),
                self@ == t,
                trimmed_start(t.rows.subrange(k as int, t.rows.len() as int)) == trimmed_start(t.rows),
            ensures
                k <= self.rows.len(),
                self@ == t,
                trimmed_start(t.rows.subrange(k as int, t.rows.len() as int)) == t.rows.subrange(
                    k as int,
                    t.rows.len() as int,
                ),
                trimmed_start(t.rows.subrange(k as int, t.rows.len() as int)) == trimmed_start(t.rows),
            decreases self.rows.len() - k,
        {
            let ghost rest = t.rows.subrange(k as int, t.rows.len() as int);
            proof {
                assert(rest[0] == self.rows[k as int].deep_view());
            }
            if !row_is_blank(&self.rows[k]) {
                assert(trimmed_start(rest) == rest);
                break;
            }
            proof {
                assert(rest.drop_first() =~= t.rows.subrange(k + 1, t.rows.len() as int));
            }
            k = k + 1;
            proof {
                let rest2 = t.rows.subrange(k as int, t.rows.len() as int);
                if rest2.len() == 0 {
                    assert(trimmed_start(rest2) == rest2);
                }
            }
        }
        let rest = self.rows.split_off(k);
        self.rows = rest;
        proof {
            assert(self@.rows =~= t.rows.subrange(k as int, t.rows.len() as int));
        }
    }

    /// Removes the blank rows at the start, then those at the end.
    pub fn trim(&mut self)
        ensures
            final(self)@ == (TableView { rows: trimmed(old(self)@.rows), ..old(self)@ }),
    {
        self.trim_start();
        self.trim_end();
    }

    /// Removes every blank row, wherever it stands, and keeps the others in
    /// their order.
    pub fn remove_empty_lines(&mut self)
        ensures
            final(self)@ == (TableView { rows: non_blank(old(self)@.rows), ..old(self)@ }),
    {
        let ghost t = self@;
        let mut all: Vec<Vec<String>> = Vec::new();
        std::mem::swap(&mut self.rows, &mut all);
        proof {
            assert(all.deep_view() == t.rows);
            assert(self.rows.deep_view() =~= Seq::<Seq<Seq<char>>>::empty());
            assert(t.rows.take(0) =~= Seq::<Seq<Seq<char>>>::empty());
        }
        for row in it: all.into_iter()
            invariant
                it.seq().len() == t.rows.len(),
                forall|m: int| 0 <= m < t.rows.len() ==> #[trigger] it.seq()[m].deep_view() == t.rows[m],
                self@ == (TableView { rows: self@.rows, ..t }),
                self@.rows == non_blank(t.rows.take(it.index() as int)),
        {
            let ghost i = it.index() as int;
            proof {
                assert(t.rows.take(i + 1).drop_last() =~= t.rows.take(i));
                assert(row.deep_view() == t.rows[i]);
            }
            if !row_is_blank(&row) {
                let ghost before = self@.rows;
                self.rows.push(row);
                proof {
                    assert(self@.rows =~= before.push(t.rows[i]));
                }
            }
        }
        proof {
            assert(t.rows.take(t.rows.len() as int) =~= t.rows);
        }
    }
}

} // verus!

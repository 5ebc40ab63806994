use vstd::hash_map::StringHashMap;
use vstd::hash_set::StringHashSet;
use vstd::prelude::*;

use crate::table::{distinct_names, first_index, lemma_first_index, CSVCoords, CSVFile};
use crate::text::{contains_text, holds_text};

verus! {

/// The positions, left to right, of the fields of row `i` that hold `needle`.
pub open spec fn row_hits(row: Seq<Seq<char>>, i: int, needle: Seq<char>) -> Seq<CSVCoords>
    decreases row.len(),
{
    if row.len() == 0 {
        Seq::empty()
    } else {
        let before = row_hits(row.drop_last(), i, needle);
        if holds_text(row.last(), needle) {
            before.push(CSVCoords { row: i as usize, column: (row.len() - 1) as usize })
        } else {
            before
        }
    }
}

/// The positions, row by row, of the fields that hold `needle`.
pub open spec fn table_hits(rows: Seq<Seq<Seq<char>>>, needle: Seq<char>) -> Seq<CSVCoords>
    decreases rows.len(),
{
    if rows.len() == 0 {
        Seq::empty()
    } else {
        table_hits(rows.drop_last(), needle) + row_hits(rows.last(), rows.len() - 1, needle)
    }
}

/// A map from column names to one list of values per column.
pub type ColumnMap<T> = StringHashMap<Vec<T>>;

/// The fields of `row` whose column is called `name`, left to right.
pub open spec fn row_cells_named(row: Seq<String>, columns: Seq<Seq<char>>, name: Seq<char>) -> Seq<
    String,
>
    decreases row.len(),
{
    if row.len() == 0 {
        Seq::empty()
    } else {
        let before = row_cells_named(row.drop_last(), columns, name);
        if columns[row.len() - 1] == name {
            before.push(row.last())
        } else {
            before
        }
    }
}

/// The fields whose column is called `name`, row by row and left to right.
pub open spec fn cells_named(rows: Seq<Vec<String>>, columns: Seq<Seq<char>>, name: Seq<char>) -> Seq<
    String,
>
    decreases rows.len(),
{
    if rows.len() == 0 {
        Seq::empty()
    } else {
        cells_named(rows.drop_last(), columns, name) + row_cells_named(rows.last()@, columns, name)
    }
}

/// `outputs` holds, in order, one result of `f` for each of `inputs`.
pub open spec fn mapped<F: Fn(&String) -> T, T>(f: F, inputs: Seq<String>, outputs: Seq<T>) -> bool {
    &&& inputs.len() == outputs.len()
    &&& forall|m: int| 0 <= m < inputs.len() ==> f.ensures((&inputs[m],), #[trigger] outputs[m])
}

proof fn lemma_mapped_push<F: Fn(&String) -> T, T>(
    f: F,
    inputs: Seq<String>,
    outputs: Seq<T>,
    x: String,
    y: T,
)
    requires
        mapped(f, inputs, outputs),
        f.ensures((&x,), y),
    ensures
        mapped(f, inputs.push(x), outputs.push(y)),
{
    assert forall|m: int| 0 <= m < inputs.len() + 1 implies f.ensures(
        (&inputs.push(x)[m],),
        #[trigger] outputs.push(y)[m],
    ) by {
        if m < inputs.len() {
            assert(inputs.push(x)[m] == inputs[m]);
            assert(outputs.push(y)[m] == outputs[m]);
        }
    }
}

proof fn lemma_push_contains(s: Seq<Seq<char>>, c: Seq<char>)
    ensures
        forall|x: Seq<char>| s.push(c).contains(x) <==> (s.contains(x) || x == c),
{
    assert forall|x: Seq<char>| s.push(c).contains(x) <==> (s.contains(x) || x == c) by {
        if s.contains(x) {
            let k = choose|k: int| 0 <= k < s.len() && s[k] == x;
            assert(s.push(c)[k] == x);
        }
        if x == c {
            assert(s.push(c)[s.len() as int] == x);
        }
        if s.push(c).contains(x) && x != c {
            let k = choose|k: int| 0 <= k < s.len() + 1 && s.push(c)[k] == x;
            assert(s[k] == x);
        }
    }
}

impl CSVFile {
    /// The coordinates of every field that holds `text`, row by row and left
    /// to right.
    pub fn find_text(&self, text: &String) -> (r: Vec<CSVCoords>)
        ensures
            r@ == table_hits(self@.rows, text@),
    {
        let mut coords: Vec<CSVCoords> = Vec::new();
        let mut i: usize = 0;
        proof {
            assert(self@.rows.take(0) =~= Seq::<Seq<Seq<char>>>::empty());
        }
        while i < self.rows.len()
            invariant
                i <= self.rows.len(),
                coords@ == table_hits(self@.rows.take(i as int), text@),
            decreases self.rows.len() - i,
        {
            let row = &self.rows[i];
            let ghost done = coords@;
            proof {
                assert(self@.rows[i as int] == row.deep_view());
                assert(row.deep_view().take(0) =~= Seq::<Seq<char>>::empty());
            }
            let mut j: usize = 0;
            while j < row.len()
                invariant
                    row == &self.rows[i as int],
                    j <= row.len(),
                    coords@ == done + row_hits(row.deep_view().take(j as int), i as int, text@),
                decreases row.len() - j,
            {
                proof {
                    assert(row.deep_view().take(j + 1).drop_last() =~= row.deep_view().take(j as int));
                    assert(row.deep_view()[j as int] == row[j as int]@);
                }
                if contains_text(&row[j], text) {
                    coords.push(CSVCoords { row: i, column: j });
                }
                j = j + 1;
            }
            proof {
                assert(row.deep_view().take(j as int) =~= row.deep_view());
                assert(self@.rows.take(i + 1).drop_last() =~= self@.rows.take(i as int));
            }
            i = i + 1;
        }
        proof {
            assert(self@.rows.take(i as int) =~= self@.rows);
        }
        coords
    }

    /// Whether the column names are distinct and every row is as wide as the
    /// header. Nothing is repaired.
    pub fn check_validity(&self) -> (r: bool)
        ensures
            r == self@.valid(),
    {
        let mut names = StringHashSet::new();
        let mut i: usize = 0;
        while i < self.columns.len()
            invariant
                i <= self.columns.len(),
                forall|x: Seq<char>| names@.contains(x) <==> self@.columns.take(i as int).contains(x),
                distinct_names(self@.columns.take(i as int)),
            decreases self.columns.len() - i,
        {
            let ghost prefix = self@.columns.take(i as int);
            proof {
                assert(self@.columns[i as int] == self.columns[i as int]@);
                assert(self@.columns.take(i + 1) =~= prefix.push(self@.columns[i as int]));
            }
            if !names.insert(self.columns[i].clone()) {
                proof {
                    let k = choose|k: int| 0 <= k < prefix.len() && prefix[k] == self@.columns[i as int];
                    assert(self@.columns[k] == self@.columns[i as int]);
                }
                return false;
            }
            proof {
                let c = self@.columns[i as int];
                let next = prefix.push(c);
                assert(!prefix.contains(c));
                assert forall|x: Seq<char>| names@.contains(x) <==> next.contains(x) by {
                    if prefix.contains(x) {
                        let k = choose|k: int| 0 <= k < prefix.len() && prefix[k] == x;
                        assert(next[k] == x);
                    }
                    if x == c {
                        assert(next[prefix.len() as int] == x);
                    }
                    if next.contains(x) && x != c {
                        let k = choose|k: int| 0 <= k < next.len() && next[k] == x;
                        assert(prefix[k] == x);
                    }
                }
            }
            i = i + 1;
        }
        proof {
            assert(self@.columns.take(i as int) =~= self@.columns);
        }
        let number_of_columns = self.len();
        let mut i: usize = 0;
        while i < self.rows.len()
            invariant
                i <= self.rows.len(),
                number_of_columns == self@.columns.len(),
                forall|k: int| 0 <= k < i ==> #[trigger] self@.rows[k].len() == number_of_columns,
            decreases self.rows.len() - i,
        {
            proof {
                assert(self@.rows[i as int].len() == self.rows[i as int].len());
            }
            if self.rows[i].len() != number_of_columns {
                return false;
            }
            i = i + 1;
        }
        true
    }

    /// Applies `f` to each row, in order.
    pub fn map_rows<F, T>(&self, f: F) -> (r: Vec<T>) where F: Fn(&Vec<String>) -> T
        requires
            forall|i: int| 0 <= i < self.rows.len() ==> f.requires((&#[trigger] self.rows[i],)),
        ensures
            r.len() == self.rows.len(),
            forall|i: int| 0 <= i < self.rows.len() ==> f.ensures((&#[trigger] self.rows[i],), r[i]),
    {
        let mut out: Vec<T> = Vec::new();
        let mut i: usize = 0;
        while i < self.rows.len()
            invariant
                i <= self.rows.len(),
                out.len() == i,
                forall|i: int| 0 <= i < self.rows.len() ==> f.requires((&#[trigger] self.rows[i],)),
                forall|k: int| 0 <= k < i ==> f.ensures((&#[trigger] self.rows[k],), out[k]),
            decreases self.rows.len() - i,
        {
            let value = f(&self.rows[i]);
            out.push(value);
            i = i + 1;
        }
        out
    }

    /// One entry per column name, each with an empty list.
    pub fn map_columns<T>(&self) -> (r: ColumnMap<T>)
        ensures
            forall|name: Seq<char>| r@.contains_key(name) <==> self@.columns.contains(name),
            forall|name: Seq<char>| #[trigger] r@.contains_key(name) ==> r@[name].len() == 0,
    {
        let mut map: StringHashMap<Vec<T>> = StringHashMap::new();
        let mut i: usize = 0;
        while i < self.columns.len()
            invariant
                i <= self.columns.len(),
                forall|name: Seq<char>|
                    map@.contains_key(name) <==> self@.columns.take(i as int).contains(name),
                forall|name: Seq<char>| #[trigger] map@.contains_key(name) ==> map@[name].len() == 0,
            decreases self.columns.len() - i,
        {
            let ghost prefix = self@.columns.take(i as int);
            let ghost c = self@.columns[i as int];
            proof {
                assert(c == self.columns[i as int]@);
                assert(self@.columns.take(i + 1) =~= prefix.push(c));
            }
            map.insert(self.columns[i].clone(), Vec::new());
            proof {
                lemma_push_contains(prefix, c);
                assert forall|name: Seq<char>|
                    map@.contains_key(name) <==> self@.columns.take(i + 1).contains(name) by {
                    assert(prefix.push(c).contains(name) <==> (prefix.contains(name) || name == c));
                }
            }
            i = i + 1;
        }
        proof {
            assert(self@.columns.take(i as int) =~= self@.columns);
        }
        map
    }

    /// For each column name, the results of `f` on the fields of that
    /// column, row by row. Where two columns share a name, their fields go
    /// to the same entry, left to right within a row.
    pub fn to_map<F, T>(&self, f: F) -> (r: ColumnMap<T>) where F: Fn(&String) -> T
        requires
            forall|i: int| 0 <= i < self.rows.len() ==> #[trigger] self.rows[i].len() <= self.columns.len(),
            forall|i: int, k: int|
                0 <= i < self.rows.len() && 0 <= k < self.rows[i].len() ==> f.requires(
                    (&#[trigger] self.rows[i][k],),
                ),
        ensures
            forall|name: Seq<char>| r@.contains_key(name) <==> self@.columns.contains(name),
            forall|name: Seq<char>| #[trigger]
                r@.contains_key(name) ==> mapped(f, cells_named(self.rows@, self@.columns, name), r@[name]@),
    {
        let width = self.columns.len();
        let ghost cols = self@.columns;
        // the index of the first column with the same name as column k
        let mut first: Vec<usize> = Vec::new();
        let mut buckets: Vec<Vec<T>> = Vec::new();
        let mut k: usize = 0;
        while k < width
            invariant
                width == cols.len(),
                cols == self@.columns,
                k <= width,
                first.len() == k,
                buckets.len() == k,
                forall|m: int| 0 <= m < k ==> first_index(cols, cols[m]) == Some(#[trigger] first[m] as int),
                forall|m: int| 0 <= m < k ==> (#[trigger] buckets[m])@.len() == 0,
            decreases width - k,
        {
            proof {
                assert(cols[k as int] == self.columns[k as int]@);
                lemma_first_index(cols, cols[k as int]);
                assert(cols.contains(cols[k as int]));
            }
            let j = match self.get_column_idx(&self.columns[k]) {
                Some(j) => j,
                None => k,
            };
            first.push(j);
            buckets.push(Vec::new());
            k = k + 1;
        }
        proof {
            assert forall|m: int| 0 <= m < width implies first[m] < width && cols[#[trigger] first[m] as int] == cols[m]
                && first[first[m] as int] == first[m] by {
                lemma_first_index(cols, cols[m]);
                lemma_first_index(cols, cols[first[m] as int]);
            }
            assert(self.rows@.take(0) =~= Seq::<Vec<String>>::empty());
        }
        let mut i: usize = 0;
        while i < self.rows.len()
            invariant
                width == cols.len(),
                cols == self@.columns,
                i <= self.rows.len(),
                first.len() == width,
                buckets.len() == width,
                forall|m: int| 0 <= m < width ==> first_index(cols, cols[m]) == Some(#[trigger] first[m] as int),
                forall|m: int| 0 <= m < width ==> first[m] < width && cols[#[trigger] first[m] as int] == cols[m]
                    && first[first[m] as int] == first[m],
                forall|m: int| 0 <= m < self.rows.len() ==> #[trigger] self.rows[m].len() <= self.columns.len(),
                forall|a: int, b: int|
                    0 <= a < self.rows.len() && 0 <= b < self.rows[a].len() ==> f.requires(
                        (&#[trigger] self.rows[a][b],),
                    ),
                forall|m: int|
                    0 <= m < width && first[m] == m ==> mapped(
                        f,
                        cells_named(self.rows@.take(i as int), cols, cols[m]),
                        (#[trigger] buckets[m])@,
                    ),
            decreases self.rows.len() - i,
        {
            let row = &self.rows[i];
            let ghost done = self.rows@.take(i as int);
            proof {
                assert(row@.take(0) =~= Seq::<String>::empty());
                assert forall|m: int| 0 <= m < width && first[m] == m implies mapped(
                    f,
                    cells_named(done, cols, cols[m]) + row_cells_named(row@.take(0), cols, cols[m]),
                    (#[trigger] buckets[m])@,
                ) by {
                    assert(cells_named(done, cols, cols[m]) + row_cells_named(row@.take(0), cols, cols[m])
                        =~= cells_named(done, cols, cols[m]));
                }
            }
            let mut k: usize = 0;
            while k < row.len()
                invariant
                    width == cols.len(),
                    i < self.rows.len(),
                    row == &self.rows[i as int],
                    row.len() <= width,
                    k <= row.len(),
                    first.len() == width,
                    buckets.len() == width,
                    forall|m: int| 0 <= m < width ==> first[m] < width && cols[#[trigger] first[m] as int] == cols[m]
                        && first[first[m] as int] == first[m],
                    forall|m: int| 0 <= m < width ==> first_index(cols, cols[m]) == Some(#[trigger] first[m] as int),
                    forall|b: int| 0 <= b < row.len() ==> f.requires((&#[trigger] row[b],)),
                    forall|m: int|
                        0 <= m < width && first[m] == m ==> mapped(
                            f,
                            cells_named(done, cols, cols[m]) + row_cells_named(row@.take(k as int), cols, cols[m]),
                            (#[trigger] buckets[m])@,
                        ),
                decreases row.len() - k,
            {
                let j = first[k];
                let value = f(&row[k]);
                let ghost old_buckets = buckets@;
                buckets[j].push(value);
                proof {
                    assert(row@.take(k + 1).drop_last() =~= row@.take(k as int));
                    assert(row@.take(k + 1).last() == row[k as int]);
                    assert forall|m: int| 0 <= m < width && first[m] == m implies mapped(
                        f,
                        cells_named(done, cols, cols[m]) + row_cells_named(row@.take(k + 1), cols, cols[m]),
                        (#[trigger] buckets[m])@,
                    ) by {
                        let before = cells_named(done, cols, cols[m]) + row_cells_named(row@.take(k as int), cols, cols[m]);
                        if m == j {
                            assert(cols[k as int] == cols[m]);
                            lemma_mapped_push(f, before, old_buckets[m]@, row[k as int], value);
                            assert(cells_named(done, cols, cols[m]) + row_cells_named(row@.take(k + 1), cols, cols[m])
                                =~= before.push(row[k as int]));
                        } else {
                            assert(cols[k as int] != cols[m]);
                            assert(buckets[m] == old_buckets[m]);
                        }
                    }
                }
                k = k + 1;
            }
            proof {
                assert(row@.take(k as int) =~= row@);
                assert(self.rows@.take(i + 1).drop_last() =~= done);
                assert(self.rows@.take(i + 1).last() == *row);
            }
            i = i + 1;
        }
        proof {
            assert(self.rows@.take(i as int) =~= self.rows@);
        }
        let mut map: StringHashMap<Vec<T>> = StringHashMap::new();
        let ghost all_buckets = buckets@;
        let mut j: usize = 0;
        for bucket in it: buckets.into_iter()
            invariant
                j == it.index(),
                width == cols.len(),
                cols == self@.columns,
                it.seq() == all_buckets,
                all_buckets.len() == width,
                first.len() == width,
                forall|m: int| 0 <= m < width ==> first_index(cols, cols[m]) == Some(#[trigger] first[m] as int),
                forall|m: int| 0 <= m < width ==> first[m] < width && cols[#[trigger] first[m] as int] == cols[m]
                    && first[first[m] as int] == first[m],
                forall|m: int|
                    0 <= m < width && first[m] == m ==> mapped(
                        f,
                        cells_named(self.rows@, cols, cols[m]),
                        (#[trigger] all_buckets[m])@,
                    ),
                forall|name: Seq<char>|
                    map@.contains_key(name) <==> cols.take(it.index() as int).contains(name),
                forall|name: Seq<char>| #[trigger]
                    map@.contains_key(name) ==> mapped(f, cells_named(self.rows@, cols, name), map@[name]@),
        {
            let ghost prefix = cols.take(j as int);
            proof {
                assert(cols.take(j + 1) =~= prefix.push(cols[j as int]));
                assert(cols[j as int] == self.columns[j as int]@);
                lemma_push_contains(prefix, cols[j as int]);
            }
            if first[j] == j {
                let ghost before = map@;
                map.insert(self.columns[j].clone(), bucket);
                proof {
                    assert forall|name: Seq<char>|
                        map@.contains_key(name) <==> cols.take(j + 1).contains(name) by {
                        assert(prefix.push(cols[j as int]).contains(name) <==> (prefix.contains(name)
                            || name == cols[j as int]));
                    }
                    assert(bucket == all_buckets[j as int]);
                }
            } else {
                proof {
                    let p = first[j as int] as int;
                    assert(cols[p] == cols[j as int]);
                    assert(p < j) by {
                        lemma_first_index(cols, cols[j as int]);
                    }
                    assert(prefix[p] == cols[j as int]);
                    assert forall|name: Seq<char>|
                        map@.contains_key(name) <==> cols.take(j + 1).contains(name) by {
                        assert(prefix.push(cols[j as int]).contains(name) <==> (prefix.contains(name)
                            || name == cols[j as int]));
                        if name == cols[j as int] {
                            assert(prefix.contains(name));
                        }
                    }
                }
            }
            j = j + 1;
        }
        proof {
            assert(cols.take(width as int) =~= cols);
        }
        map
    }
}

} // verus!

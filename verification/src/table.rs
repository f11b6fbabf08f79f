use vstd::prelude::*;

use crate::text::str_eq;

verus! {

/// A name-to-index map built by inserting pairs in order: a later pair for
/// the same name replaces the earlier one.
pub open spec fn map_of_pairs(pairs: Seq<(Seq<char>, usize)>) -> Map<Seq<char>, usize>
    decreases pairs.len(),
{
    if pairs.len() == 0 {
        Map::empty()
    } else {
        map_of_pairs(pairs.drop_last()).insert(pairs.last().0, pairs.last().1)
    }
}

/// Why data read from the database is refused.
#[derive(Debug, Clone, Copy, PartialEq, Eq, Structural)]
pub enum LoadError {
    /// An index is negative.
    NegativeIndex(i64),
    /// A penalty cell (row, column) lies outside the matrix of categories.
    OutsideCategoryMatrix(i64, i64),
}

pub open spec fn rows_view(rows: Seq<(String, i64)>) -> Seq<(Seq<char>, usize)> {
    rows.map_values(|p: (String, i64)| (p.0@, p.1 as usize))
}

/// The first negative category index among the rows, as an error.
pub open spec fn first_negative(rows: Seq<(String, i64)>) -> Option<LoadError>
    decreases rows.len(),
{
    if rows.len() == 0 {
        None
    } else {
        match first_negative(rows.drop_last()) {
            Some(e) => Some(e),
            None => if rows.last().1 < 0 {
                Some(LoadError::NegativeIndex(rows.last().1))
            } else {
                None
            },
        }
    }
}

proof fn lemma_first_negative_prefix(rows: Seq<(String, i64)>, k: int)
    requires
        0 <= k <= rows.len(),
        first_negative(rows.take(k)) is Some,
    ensures
        first_negative(rows) == first_negative(rows.take(k)),
    decreases rows.len() - k,
{
    if k < rows.len() {
        assert(rows.take(k + 1).drop_last() == rows.take(k));
        lemma_first_negative_prefix(rows, k + 1);
    } else {
        assert(rows.take(k) == rows);
    }
}

pub open spec fn pairs_view(pairs: Seq<(String, usize)>) -> Seq<(Seq<char>, usize)> {
    pairs.map_values(|p: (String, usize)| (p.0@, p.1))
}

/// Some category has an index of at least `v`.
pub open spec fn reaches_index(m: Map<Seq<char>, usize>, v: int) -> bool {
    exists|k: Seq<char>| #[trigger] m.contains_key(k) && m[k] >= v
}

/// Weapon categories and the row/column each one has in the penalty matrix.
pub struct CategoryTable {
    entries: Vec<(String, usize)>,
    map: Ghost<Map<Seq<char>, usize>>,
}

impl View for CategoryTable {
    type V = Map<Seq<char>, usize>;

    closed spec fn view(&self) -> Map<Seq<char>, usize> {
        self.map@
    }
}

impl CategoryTable {
    pub closed spec fn wf(&self) -> bool {
        &&& forall|i: int, j: int|
            0 <= i < j < self.entries@.len() ==> #[trigger] self.entries@[i].0@ != #[trigger] self.entries@[j].0@
        &&& forall|i: int|
            0 <= i < self.entries@.len() ==> #[trigger] self.map@.contains_key(self.entries@[i].0@)
                && self.map@[self.entries@[i].0@] == self.entries@[i].1
        &&& forall|k: Seq<char>| #[trigger]
            self.map@.contains_key(k) ==> exists|i: int|
                0 <= i < self.entries@.len() && #[trigger] self.entries@[i].0@ == k
    }

    pub fn new() -> (r: CategoryTable)
        ensures
            r.wf(),
            r@ == Map::<Seq<char>, usize>::empty(),
    {
        CategoryTable { entries: Vec::new(), map: Ghost(Map::empty()) }
    }

    /// Sets the index of a category, replacing any earlier one.
    pub fn insert(&mut self, name: String, index: usize)
        requires
            old(self).wf(),
        ensures
            final(self).wf(),
            final(self)@ == old(self)@.insert(name@, index),
    {
        let ghost key = name@;
        let len = self.entries.len();
        let mut i: usize = 0;
        while i < len
            invariant
                i <= len,
                len == self.entries@.len(),
                self.wf(),
                key == name@,
                self@ == old(self)@,
                forall|j: int| 0 <= j < i ==> self.entries@[j].0@ != key,
            decreases len - i,
        {
            if str_eq(self.entries[i].0.as_str(), name.as_str()) {
                let ghost old_entries = self.entries@;
                self.entries.set(i, (name, index));
                self.map = Ghost(self.map@.insert(key, index));
                proof {
                    assert forall|k: Seq<char>| #[trigger]
                        self.map@.contains_key(k) implies exists|j: int|
                            0 <= j < self.entries@.len() && #[trigger] self.entries@[j].0@ == k by {
                        if k != key {
                            let j = choose|j: int| 0 <= j < old_entries.len() && #[trigger] old_entries[j].0@ == k;
                            assert(self.entries@[j].0@ == k);
                        } else {
                            assert(self.entries@[i as int].0@ == k);
                        }
                    }
                }
                return;
            }
            i += 1;
        }
        let ghost old_entries = self.entries@;
        self.entries.push((name, index));
        self.map = Ghost(self.map@.insert(key, index));
        proof {
            assert forall|k: Seq<char>| #[trigger]
                self.map@.contains_key(k) implies exists|j: int|
                    0 <= j < self.entries@.len() && #[trigger] self.entries@[j].0@ == k by {
                if k != key {
                    let j = choose|j: int| 0 <= j < old_entries.len() && #[trigger] old_entries[j].0@ == k;
                    assert(self.entries@[j].0@ == k);
                } else {
                    assert(self.entries@[len as int].0@ == k);
                }
            }
        }
    }

    /// A table holding the given pairs, later pairs winning (as when a hash
    /// map is collected from them).
    pub fn from_pairs(pairs: Vec<(String, usize)>) -> (r: CategoryTable)
        ensures
            r.wf(),
            r@ == map_of_pairs(pairs_view(pairs@)),
    {
        let mut table = CategoryTable::new();
        let ghost pv = pairs_view(pairs@);
        for p in it: pairs
            invariant
                table.wf(),
                pv == pairs_view(it.seq()),
                table@ == map_of_pairs(pv.take(it.index() as int)),
        {
            let ghost k = it.index() as int;
            table.insert(p.0, p.1);
            assert(pv.take(k + 1).drop_last() == pv.take(k));
        }
        assert(pv.take(pv.len() as int) == pv);
        table
    }

    /// Whether some category has an index at least `v`, that is, whether `v`
    /// is a row (or column) of the matrix the categories describe.
    pub fn reaches(&self, v: u64) -> (r: bool)
        requires
            self.wf(),
        ensures
            r == reaches_index(self@, v as int),
    {
        let len = self.entries.len();
        let mut i: usize = 0;
        while i < len
            invariant
                i <= len,
                len == self.entries@.len(),
                self.wf(),
                forall|j: int| 0 <= j < i ==> (#[trigger] self.entries@[j].1 as int) < v,
            decreases len - i,
        {
            if self.entries[i].1 as u64 >= v {
                assert(self@.contains_key(self.entries@[i as int].0@));
                return true;
            }
            i += 1;
        }
        proof {
            assert forall|k: Seq<char>| #[trigger] self@.contains_key(k) implies self@[k] < v by {
                let j = choose|j: int| 0 <= j < self.entries@.len() && #[trigger] self.entries@[j].0@ == k;
                assert((self.entries@[j].1 as int) < v);
            }
        }
        false
    }

    /// The index of a category, if it has one.
    pub fn lookup(&self, name: &str) -> (r: Option<usize>)
        requires
            self.wf(),
        ensures
            r == (if self@.contains_key(name@) {
                Some(self@[name@])
            } else {
                None
            }),
    {
        let len = self.entries.len();
        let mut i: usize = 0;
        while i < len
            invariant
                i <= len,
                len == self.entries@.len(),
                self.wf(),
                forall|j: int| 0 <= j < i ==> self.entries@[j].0@ != name@,
            decreases len - i,
        {
            if str_eq(self.entries[i].0.as_str(), name) {
                return Some(self.entries[i].1);
            }
            i += 1;
        }
        None
    }

    /// The table of categories read from database rows, refusing a negative
    /// index (the first one met, in row order).
    pub fn from_rows(rows: Vec<(String, i64)>) -> (r: Result<CategoryTable, LoadError>)
        requires
            forall|i: int| 0 <= i < rows@.len() ==> #[trigger] rows@[i].1 <= usize::MAX,
        ensures
            match r {
                Ok(t) => t.wf() && first_negative(rows@) is None && t@ == map_of_pairs(
                    rows_view(rows@),
                ),
                Err(e) => first_negative(rows@) == Some(e),
            },
    {
        let mut table = CategoryTable::new();
        let ghost rv = rows_view(rows@);
        let ghost all = rows@;
        for p in it: rows
            invariant
                table.wf(),
                all == it.seq(),
                rv == rows_view(all),
                forall|i: int| 0 <= i < all.len() ==> #[trigger] all[i].1 <= usize::MAX,
                first_negative(all.take(it.index() as int)) is None,
                table@ == map_of_pairs(rv.take(it.index() as int)),
        {
            let ghost k = it.index() as int;
            assert(all.take(k + 1).drop_last() == all.take(k));
            assert(all[k] == p);
            if p.1 < 0 {
                proof {
                    lemma_first_negative_prefix(all, k + 1);
                }
                return Err(LoadError::NegativeIndex(p.1));
            }
            table.insert(p.0, p.1 as usize);
            assert(rv.take(k + 1).drop_last() == rv.take(k));
        }
        assert(rv.take(rv.len() as int) == rv);
        assert(all.take(all.len() as int) == all);
        Ok(table)
    }

}

/// Why one penalty cell is refused, if it is.
pub open spec fn coord_error(categories: Map<Seq<char>, usize>, row: i64, col: i64) -> Option<LoadError> {
    if row < 0 {
        Some(LoadError::NegativeIndex(row))
    } else if col < 0 {
        Some(LoadError::NegativeIndex(col))
    } else if !reaches_index(categories, row as int) || !reaches_index(categories, col as int) {
        Some(LoadError::OutsideCategoryMatrix(row, col))
    } else {
        None
    }
}

/// The error of the first refused penalty cell, in the order given.
pub open spec fn first_coord_error(categories: Map<Seq<char>, usize>, coords: Seq<(i64, i64)>) -> Option<LoadError>
    decreases coords.len(),
{
    if coords.len() == 0 {
        None
    } else {
        match first_coord_error(categories, coords.drop_last()) {
            Some(e) => Some(e),
            None => coord_error(categories, coords.last().0, coords.last().1),
        }
    }
}

/// The largest row of the cells (-1 when there are none).
pub open spec fn max_row(coords: Seq<(i64, i64)>) -> int
    decreases coords.len(),
{
    if coords.len() == 0 {
        -1
    } else {
        let m = max_row(coords.drop_last());
        if coords.last().0 > m { coords.last().0 as int } else { m }
    }
}

/// The largest column of the cells (-1 when there are none).
pub open spec fn max_col(coords: Seq<(i64, i64)>) -> int
    decreases coords.len(),
{
    if coords.len() == 0 {
        -1
    } else {
        let m = max_col(coords.drop_last());
        if coords.last().1 > m { coords.last().1 as int } else { m }
    }
}

/// The position of the last cell given for (row, col), if any: later values
/// overwrite earlier ones.
pub open spec fn last_cell(coords: Seq<(i64, i64)>, row: int, col: int) -> Option<int>
    decreases coords.len(),
{
    if coords.len() == 0 {
        None
    } else if coords.last().0 == row && coords.last().1 == col {
        Some(coords.len() - 1)
    } else {
        last_cell(coords.drop_last(), row, col)
    }
}

proof fn lemma_first_coord_error_prefix(categories: Map<Seq<char>, usize>, coords: Seq<(i64, i64)>, k: int)
    requires
        0 <= k <= coords.len(),
        first_coord_error(categories, coords.take(k)) is Some,
    ensures
        first_coord_error(categories, coords) == first_coord_error(categories, coords.take(k)),
    decreases coords.len() - k,
{
    if k < coords.len() {
        assert(coords.take(k + 1).drop_last() == coords.take(k));
        lemma_first_coord_error_prefix(categories, coords, k + 1);
    } else {
        assert(coords.take(k) == coords);
    }
}

proof fn lemma_last_cell_bounds(coords: Seq<(i64, i64)>, row: int, col: int)
    ensures
        last_cell(coords, row, col) matches Some(k) ==> 0 <= k < coords.len(),
    decreases coords.len(),
{
    if coords.len() > 0 {
        lemma_last_cell_bounds(coords.drop_last(), row, col);
    }
}

fn last_cell_exec(coords: &Vec<(i64, i64)>, row: i64, col: i64) -> (r: Option<usize>)
    ensures
        match last_cell(coords@, row as int, col as int) {
            Some(k) => r == Some(k as usize),
            None => r is None,
        },
{
    let mut i = coords.len();
    assert(coords@.take(i as int) == coords@);
    while i > 0
        invariant
            i <= coords@.len(),
            last_cell(coords@, row as int, col as int) == last_cell(coords@.take(i as int), row as int, col as int),
        decreases i,
    {
        assert(coords@.take(i as int).drop_last() == coords@.take(i - 1));
        if coords[i - 1].0 == row && coords[i - 1].1 == col {
            return Some(i - 1);
        }
        i -= 1;
    }
    None
}

/// Where each cell of the penalty matrix comes from: the cells listed by
/// (row, column), checked against the categories, laid out in a matrix of
/// (largest row + 1) rows and (largest column + 1) columns that holds, for
/// each cell, the position of the last listing of it (none: the cell keeps
/// the neutral value).
pub fn penalty_layout(coords: &Vec<(i64, i64)>, categories: &CategoryTable) -> (r: Result<
    Vec<Vec<Option<usize>>>,
    LoadError,
>)
    requires
        categories.wf(),
        forall|i: int|
            0 <= i < coords@.len() ==> #[trigger] coords@[i].0 < usize::MAX && coords@[i].1 < usize::MAX,
    ensures
        match r {
            Err(e) => first_coord_error(categories@, coords@) == Some(e),
            Ok(m) => {
                &&& first_coord_error(categories@, coords@) is None
                &&& m@.len() == max_row(coords@) + 1
                &&& forall|i: int| 0 <= i < m@.len() ==> #[trigger] m@[i]@.len() == max_col(coords@) + 1
                &&& forall|i: int, j: int|
                    0 <= i < m@.len() && 0 <= j < m@[i]@.len() ==> match last_cell(coords@, i, j) {
                        Some(k) => #[trigger] m@[i]@[j] == Some(k as usize),
                        None => m@[i]@[j] is None,
                    }
            },
        },
{
    let mut top_row: i64 = -1;
    let mut top_col: i64 = -1;
    let mut k: usize = 0;
    while k < coords.len()
        invariant
            k <= coords@.len(),
            categories.wf(),
            forall|i: int|
                0 <= i < coords@.len() ==> #[trigger] coords@[i].0 < usize::MAX && coords@[i].1 < usize::MAX,
            first_coord_error(categories@, coords@.take(k as int)) is None,
            top_row == max_row(coords@.take(k as int)),
            top_col == max_col(coords@.take(k as int)),
            -1 <= top_row < usize::MAX,
            -1 <= top_col < usize::MAX,
        decreases coords@.len() - k,
    {
        assert(coords@.take(k + 1).drop_last() == coords@.take(k as int));
        let (row, col) = coords[k];
        if row < 0 {
            proof {
                lemma_first_coord_error_prefix(categories@, coords@, k + 1);
            }
            return Err(LoadError::NegativeIndex(row));
        }
        if col < 0 {
            proof {
                lemma_first_coord_error_prefix(categories@, coords@, k + 1);
            }
            return Err(LoadError::NegativeIndex(col));
        }
        if !categories.reaches(row as u64) || !categories.reaches(col as u64) {
            proof {
                lemma_first_coord_error_prefix(categories@, coords@, k + 1);
            }
            return Err(LoadError::OutsideCategoryMatrix(row, col));
        }
        if row > top_row {
            top_row = row;
        }
        if col > top_col {
            top_col = col;
        }
        k += 1;
    }
    assert(coords@.take(coords@.len() as int) == coords@);
    let rows: usize = if top_row < 0 { 0 } else { top_row as usize + 1 };
    let cols: usize = if top_col < 0 { 0 } else { top_col as usize + 1 };
    let mut m: Vec<Vec<Option<usize>>> = Vec::new();
    let mut i: usize = 0;
    while i < rows
        invariant
            i <= rows,
            rows == max_row(coords@) + 1,
            cols == max_col(coords@) + 1,
            rows <= i64::MAX as int + 1,
            cols <= i64::MAX as int + 1,
            m@.len() == i,
            forall|a: int| 0 <= a < i ==> #[trigger] m@[a]@.len() == cols,
            forall|a: int, b: int|
                0 <= a < i && 0 <= b < cols ==> match last_cell(coords@, a, b) {
                    Some(k) => #[trigger] m@[a]@[b] == Some(k as usize),
                    None => m@[a]@[b] is None,
                },
        decreases rows - i,
    {
        let mut row_cells: Vec<Option<usize>> = Vec::new();
        let mut j: usize = 0;
        while j < cols
            invariant
                j <= cols,
                i < rows,
                rows == max_row(coords@) + 1,
                cols == max_col(coords@) + 1,
                rows <= i64::MAX as int + 1,
                cols <= i64::MAX as int + 1,
                row_cells@.len() == j,
                forall|b: int|
                    0 <= b < j ==> match last_cell(coords@, i as int, b) {
                        Some(k) => #[trigger] row_cells@[b] == Some(k as usize),
                        None => row_cells@[b] is None,
                    },
            decreases cols - j,
        {
            proof {
                lemma_last_cell_bounds(coords@, i as int, j as int);
            }
            row_cells.push(last_cell_exec(coords, i as i64, j as i64));
            j += 1;
        }
        m.push(row_cells);
        i += 1;
    }
    Ok(m)
}

/// Where the penalty of a part for a core comes from.
#[derive(Debug, Clone, Copy, PartialEq, Eq, Structural)]
pub enum PenaltySource {
    /// The part shares the core's name and contributes nothing.
    Zero,
    /// No matrix cell applies; the penalty is neutral.
    Neutral,
    /// The cell at this column of the core's row.
    Cell(usize),
}

/// The penalty a part gets on a core: none when the part has the core's name,
/// else the cell (core row, part category column) when the category is known
/// and the core's row has that column, else neutral.
pub fn penalty_source(
    core_name: &str,
    part_name: &str,
    part_category: &str,
    categories: &CategoryTable,
    core_row_len: Option<usize>,
) -> (r: PenaltySource)
    requires
        categories.wf(),
    ensures
        r == (if core_name@ == part_name@ {
            PenaltySource::Zero
        } else if categories@.contains_key(part_category@) && core_row_len is Some
            && categories@[part_category@] < core_row_len->0 {
            PenaltySource::Cell(categories@[part_category@])
        } else {
            PenaltySource::Neutral
        }),
{
    if str_eq(core_name, part_name) {
        return PenaltySource::Zero;
    }
    match categories.lookup(part_category) {
        Some(col) => match core_row_len {
            Some(len) => if col < len {
                PenaltySource::Cell(col)
            } else {
                PenaltySource::Neutral
            },
            None => PenaltySource::Neutral,
        },
        None => PenaltySource::Neutral,
    }
}

} // verus!

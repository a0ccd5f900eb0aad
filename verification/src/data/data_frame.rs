//! A table: columns in order, found by position or by header.

use crate::data::column::Column;
use crate::types::PipelineError;
use vstd::prelude::*;

verus! {

/// A table: columns in the order in which they were added.
pub struct DataFrame<T> {
    columns: Vec<Column<T>>,
}

impl<T> View for DataFrame<T> {
    type V = Seq<Column<T>>;

    /// The columns of the table, in the order in which they were added.
    closed spec fn view(&self) -> Seq<Column<T>> {
        self.columns@
    }
}

/// The position of the last of the first `upto` columns that goes by `name`.
pub open spec fn last_named<T>(columns: Seq<Column<T>>, name: Seq<char>, upto: int) -> Option<int>
    decreases upto,
{
    if upto <= 0 {
        None
    } else if columns[upto - 1].name_view() == Some(name) {
        Some(upto - 1)
    } else {
        last_named(columns, name, upto - 1)
    }
}

/// The values that the columns hold at row `idx`, column by column; a column
/// that is too short for the row is passed over.
pub open spec fn row_at<T>(columns: Seq<Column<T>>, idx: int) -> Seq<T>
    decreases columns.len(),
{
    if columns.len() == 0 {
        Seq::empty()
    } else if 0 <= idx < columns.last()@.len() {
        row_at(columns.drop_last(), idx).push(columns.last()@[idx])
    } else {
        row_at(columns.drop_last(), idx)
    }
}

/// Whether every column has as many values as the first.
pub open spec fn equal_lengths<T>(columns: Seq<Column<T>>) -> bool {
    forall|i: int| 0 <= i < columns.len() ==> (#[trigger] columns[i])@.len() == columns[0]@.len()
}

/// In a table whose columns are equally long, a row holds what each column
/// has at its place, column by column.
pub proof fn lemma_row_of_table<T>(columns: Seq<Column<T>>, idx: int)
    requires
        equal_lengths(columns),
        columns.len() > 0,
        0 <= idx < columns[0]@.len(),
    ensures
        row_at(columns, idx) == Seq::new(columns.len(), |c: int| columns[c]@[idx]),
    decreases columns.len(),
{
    let front = columns.drop_last();
    let last = columns[columns.len() - 1];
    assert(columns.last() == last);
    assert(last@.len() == columns[0]@.len());
    if front.len() > 0 {
        assert(front[0] == columns[0]);
        assert forall|i: int| 0 <= i < front.len() implies (#[trigger] front[i])@.len() == front[0]@.len() by {
            assert(front[i] == columns[i]);
        }
        lemma_row_of_table(front, idx);
    } else {
        assert(row_at(front, idx) =~= Seq::<T>::empty());
    }
    let row = Seq::new(columns.len(), |c: int| columns[c]@[idx]);
    assert(row_at(columns, idx) == row_at(front, idx).push(last@[idx]));
    assert forall|c: int| 0 <= c < columns.len() implies row_at(columns, idx)[c] == row[c] by {
        if c < front.len() {
            assert(front[c] == columns[c]);
        }
    }
    assert(row_at(columns, idx) =~= row);
}

/// What `last_named` finds is a column of that name, and no later column has it.
pub proof fn lemma_last_named<T>(columns: Seq<Column<T>>, name: Seq<char>, upto: int)
    requires
        0 <= upto <= columns.len(),
    ensures
        match last_named(columns, name, upto) {
            Some(i) => 0 <= i < upto && columns[i].name_view() == Some(name) && forall|j: int|
                i < j < upto ==> columns[j].name_view() != Some(name),
            None => forall|j: int| 0 <= j < upto ==> columns[j].name_view() != Some(name),
        },
    decreases upto,
{
    if upto > 0 && columns[upto - 1].name_view() != Some(name) {
        lemma_last_named(columns, name, upto - 1);
    }
}

impl<T: Clone> Default for DataFrame<T> {
    fn default() -> (table: Self)
        ensures
            table@ == Seq::<Column<T>>::empty(),
    {
        DataFrame::new()
    }
}

impl<T: Clone> DataFrame<T> {
    /// Where the directory of headers points for `name`: a later column takes
    /// a header over from an earlier one.
    pub open spec fn directory(&self, name: Seq<char>) -> Option<int> {
        last_named(self@, name, self@.len() as int)
    }

    /// Whether every column has as many values as the first.
    pub open spec fn is_rectangular(&self) -> bool {
        equal_lengths(self@)
    }

    /// The number of rows of a rectangular table.
    pub open spec fn num_rows(&self) -> nat {
        if self@.len() == 0 {
            0
        } else {
            self@[0]@.len()
        }
    }

    pub fn new() -> (table: Self)
        ensures
            table@ == Seq::<Column<T>>::empty(),
    {
        Self { columns: Vec::new() }
    }

    /// The number of values of the first column, and none for a table
    /// without columns: the number of rows where the columns are equally long.
    pub fn rows(&self) -> (count: usize)
        ensures
            count == self.num_rows(),
    {
        if self.columns.len() == 0 {
            0
        } else {
            self.columns[0].len()
        }
    }

    /// Whether every column has as many values as the first.
    pub fn has_equal_columns(&self) -> (equal: bool)
        ensures
            equal == self.is_rectangular(),
    {
        let mut at: usize = 0;
        while at < self.columns.len()
            invariant
                at <= self@.len(),
                forall|i: int| 0 <= i < at ==> (#[trigger] self@[i])@.len() == self@[0]@.len(),
            decreases self@.len() - at,
        {
            if self.columns[at].len() != self.columns[0].len() {
                return false;
            }
            at = at + 1;
        }
        true
    }

    /// All columns, in order.
    pub fn columns(&self) -> (columns: &[Column<T>])
        ensures
            columns@ == self@,
    {
        self.columns.as_slice()
    }

    /// All columns, open to change in place; the table keeps their number.
    pub fn columns_mut(&mut self) -> (columns: &mut [Column<T>])
        ensures
            columns@ == old(self)@,
            final(self)@ == final(columns)@,
    {
        self.columns.as_mut_slice()
    }

    /// Puts `column` behind the others; its header, if it has one, now leads to it.
    pub fn add_column(&mut self, column: Column<T>)
        ensures
            final(self)@ == old(self)@.push(column),
            column.name_view() is Some ==> final(self).directory(column.name_view().unwrap())
                == Some(old(self)@.len() as int),
    {
        self.columns.push(column);
    }

    pub fn get_column_idx(&self, idx: usize) -> (column: Option<&Column<T>>)
        ensures
            idx < self@.len() ==> column == Some(&self@[idx as int]),
            idx >= self@.len() ==> column is None,
    {
        if idx < self.columns.len() {
            Some(&self.columns[idx])
        } else {
            None
        }
    }

    /// A handle on the column at `idx`; what is written through it is the
    /// only change to the table.
    pub fn get_column_idx_mut(&mut self, idx: usize) -> (column: Option<&mut Column<T>>)
        ensures
            idx >= old(self)@.len() ==> column is None && final(self)@ == old(self)@,
            idx < old(self)@.len() ==> column is Some && *column.unwrap() == old(self)@[idx as int]
                && final(self)@ == old(self)@.update(idx as int, *final(column.unwrap())),
    {
        if idx < self.columns.len() {
            Some(&mut self.columns[idx])
        } else {
            None
        }
    }

    /// The position that the directory gives for `name`.
    pub fn find_column(&self, name: &str) -> (position: Option<usize>)
        ensures
            position is Some <==> self.directory(name@) is Some,
            position is Some ==> position.unwrap() as int == self.directory(name@).unwrap(),
            position is Some ==> position.unwrap() < self@.len(),
    {
        let mut upto: usize = self.columns.len();
        while upto > 0
            invariant
                upto <= self@.len(),
                self.directory(name@) == last_named(self@, name@, upto as int),
            decreases upto,
        {
            if self.columns[upto - 1].has_name(name) {
                return Some(upto - 1);
            }
            upto = upto - 1;
        }
        None
    }

    pub fn get_column_name(&self, name: &str) -> (column: Option<&Column<T>>)
        ensures
            column == match self.directory(name@) {
                Some(i) => Some(&self@[i]),
                None => None,
            },
    {
        match self.find_column(name) {
            Some(idx) => Some(&self.columns[idx]),
            None => None,
        }
    }

    /// A handle on the column that the directory gives for `name`; what is
    /// written through it is the only change to the table.
    pub fn get_column_name_mut(&mut self, name: &str) -> (column: Option<&mut Column<T>>)
        ensures
            old(self).directory(name@) is None ==> column is None && final(self)@ == old(self)@,
            old(self).directory(name@) is Some ==> column is Some && *column.unwrap() == old(self)@[old(
                self,
            ).directory(name@).unwrap()] && final(self)@ == old(self)@.update(
                old(self).directory(name@).unwrap(),
                *final(column.unwrap()),
            ),
    {
        match self.find_column(name) {
            Some(idx) => Some(&mut self.columns[idx]),
            None => None,
        }
    }

    /// The row at `idx`: a copy of what each column holds there.
    ///
    /// A table without columns has no rows (`EmptyInput`), and a row that the
    /// first column does not have is not in the table (`OutOfBounds`).
    pub fn get_row(&self, idx: usize) -> (row: Result<Vec<T>, PipelineError>)
        ensures
            self@.len() == 0 ==> row == Err::<Vec<T>, PipelineError>(PipelineError::EmptyInput),
            self@.len() > 0 && idx >= self@[0]@.len() ==> row == Err::<Vec<T>, PipelineError>(
                PipelineError::OutOfBounds,
            ),
            self@.len() > 0 && idx < self@[0]@.len() ==> row is Ok && row.unwrap()@.len() == row_at(
                self@,
                idx as int,
            ).len() && forall|j: int|
                0 <= j < row.unwrap()@.len() ==> cloned(
                    #[trigger] row_at(self@, idx as int)[j],
                    row.unwrap()@[j],
                ),
    {
        if self.columns.len() == 0 {
            return Err(PipelineError::EmptyInput);
        }
        if self.columns[0].get(idx).is_none() {
            return Err(PipelineError::OutOfBounds);
        }
        let mut row: Vec<T> = Vec::new();
        let mut c: usize = 0;
        while c < self.columns.len()
            invariant
                c <= self@.len(),
                row@.len() == row_at(self@.take(c as int), idx as int).len(),
                forall|j: int|
                    0 <= j < row@.len() ==> cloned(
                        #[trigger] row_at(self@.take(c as int), idx as int)[j],
                        row@[j],
                    ),
            decreases self@.len() - c,
        {
            proof {
                assert(self@.take(c + 1).drop_last() == self@.take(c as int));
            }
            match self.columns[c].get(idx) {
                Some(value) => {
                    row.push(value.clone());
                },
                None => {},
            }
            c = c + 1;
        }
        proof {
            assert(self@.take(c as int) == self@);
        }
        Ok(row)
    }
}

} // verus!

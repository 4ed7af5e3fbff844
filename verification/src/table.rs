//! A rectangular table of plain values, stored row by row.
use vstd::prelude::*;

verus! {

/// A table with `n_cols` columns; `rows[i][j]` is the cell of row `i` and column `j`.
#[derive(Debug, Clone)]
pub struct Table<T> {
    pub n_cols: usize,
    pub rows: Vec<Vec<T>>,
}

impl<T> Table<T> {
    /// Every row has `n_cols` cells.
    pub open spec fn wf(&self) -> bool {
        forall|i: int| 0 <= i < self.rows@.len() ==> (#[trigger] self.rows@[i])@.len() == self.n_cols
    }

    /// The cell of row `i` and column `j`.
    pub open spec fn cell(&self, i: int, j: int) -> T {
        self.rows@[i]@[j]
    }

    /// The number of rows.
    pub fn n_rows(&self) -> (r: usize)
        ensures
            r == self.rows@.len(),
    {
        self.rows.len()
    }
}

} // verus!

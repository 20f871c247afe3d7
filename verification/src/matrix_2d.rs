//! A dense row-major 2D matrix over a flat vector.

use vstd::prelude::*;

verus! {

/// Entry `(i, j)` lives at flat index `i * columns + j`; in-range indices stay
/// inside the data vector.
pub proof fn lemma_row_major_bound(i: int, j: int, rows: int, columns: int)
    by (nonlinear_arith)
    requires
        0 <= i < rows,
        0 <= j < columns,
    ensures
        0 <= i * columns + j < rows * columns,
{
}

/// Distinct positions have distinct flat indices.
pub proof fn lemma_row_major_distinct(i1: int, j1: int, i2: int, j2: int, columns: int)
    by (nonlinear_arith)
    requires
        0 <= j1 < columns,
        0 <= j2 < columns,
        (i1, j1) != (i2, j2),
        0 <= i1,
        0 <= i2,
    ensures
        i1 * columns + j1 != i2 * columns + j2,
{
}

/// A matrix with a fixed number of rows and columns, stored as a flat vector.
///
/// The entry at row `i` and column `j` sits at flat index `i * columns + j`.
pub struct Matrix2D<T> {
    data: Vec<T>,
    rows: usize,
    columns: usize,
}

impl<T> Matrix2D<T> {
    /// The declared number of rows.
    pub closed spec fn spec_rows(&self) -> int {
        self.rows as int
    }

    /// The declared number of columns.
    pub closed spec fn spec_columns(&self) -> int {
        self.columns as int
    }

    /// The flat contents, row by row.
    pub closed spec fn spec_data(&self) -> Seq<T> {
        self.data@
    }

    /// The stored vector has exactly one entry per position.
    pub open spec fn wf(&self) -> bool {
        &&& 0 <= self.spec_rows()
        &&& 0 <= self.spec_columns()
        &&& self.spec_data().len() == self.spec_rows() * self.spec_columns()
    }

    /// The entry at row `i`, column `j`.
    pub open spec fn spec_index(&self, i: int, j: int) -> T {
        self.spec_data()[i * self.spec_columns() + j]
    }

    /// Whether `(row, column)` lies inside the matrix.
    pub open spec fn spec_indices_valid(&self, row: int, column: int) -> bool {
        0 <= row < self.spec_rows() && 0 <= column < self.spec_columns()
    }

    /// A matrix of the given dimensions with every entry equal to `default`.
    pub fn new(rows: usize, columns: usize, default: T) -> (m: Matrix2D<T>) where T: Copy
        requires
            rows * columns <= usize::MAX,
        ensures
            m.wf(),
            m.spec_rows() == rows,
            m.spec_columns() == columns,
            forall|i: int, j: int|
                m.spec_indices_valid(i, j) ==> m.spec_index(i, j) == default,
    {
        let count = rows * columns;
        let mut data: Vec<T> = Vec::new();
        let mut k: usize = 0;
        while k < count
            invariant
                k <= count,
                data@.len() == k,
                forall|n: int| 0 <= n < k ==> data@[n] == default,
            decreases count - k,
        {
            data.push(default);
            k = k + 1;
        }
        let m = Matrix2D { data, rows, columns };
        proof {
            assert forall|i: int, j: int| m.spec_indices_valid(i, j) implies m.spec_index(i, j)
                == default by {
                lemma_row_major_bound(i, j, rows as int, columns as int);
            }
        }
        m
    }

    /// Wraps a flat vector as a matrix; `None` exactly when the vector's
    /// length does not match the dimensions.
    pub fn from_vec(rows: usize, columns: usize, data: Vec<T>) -> (m: Option<Matrix2D<T>>)
        ensures
            match m {
                Some(v) => data@.len() == rows * columns && v.wf() && v.spec_rows() == rows
                    && v.spec_columns() == columns && v.spec_data() == data@,
                None => data@.len() != rows * columns,
            },
    {
        if columns != 0 && rows > usize::MAX / columns {
            proof {
                let c = columns as int;
                let m = usize::MAX as int;
                vstd::arithmetic::div_mod::lemma_fundamental_div_mod(m, c);
                assert(rows as int * c > m) by (nonlinear_arith)
                    requires
                        rows as int >= m / c + 1,
                        m == c * (m / c) + m % c,
                        m % c < c,
                        c > 0,
                {
                }
            }
            let n = data.len();
            assert(n < rows * columns);
            return None;
        }
        proof {
            if columns != 0 {
                let c = columns as int;
                let m = usize::MAX as int;
                vstd::arithmetic::div_mod::lemma_fundamental_div_mod(m, c);
                assert(rows as int * c <= m) by (nonlinear_arith)
                    requires
                        rows as int <= m / c,
                        m == c * (m / c) + m % c,
                        m % c >= 0,
                        c > 0,
                {
                }
            }
        }
        if data.len() == rows * columns {
            Some(Matrix2D { data, rows, columns })
        } else {
            None
        }
    }

    /// The entry at `(row, column)`; `None` exactly when out of range.
    pub fn get(&self, row: usize, column: usize) -> (r: Option<&T>)
        requires
            self.wf(),
        ensures
            match r {
                Some(v) => self.spec_indices_valid(row as int, column as int) && *v
                    == self.spec_index(row as int, column as int),
                None => !self.spec_indices_valid(row as int, column as int),
            },
    {
        if self.indices_valid(row, column) {
            Some(&self.data[self.index(row, column)])
        } else {
            None
        }
    }

    /// A mutable reference to the entry at `(row, column)`, which must be in
    /// range.
    pub fn get_mut(&mut self, row: usize, column: usize) -> (r: &mut T)
        requires
            old(self).wf(),
            old(self).spec_indices_valid(row as int, column as int),
        ensures
            *r == old(self).spec_index(row as int, column as int),
            final(self).wf(),
            final(self).spec_rows() == old(self).spec_rows(),
            final(self).spec_columns() == old(self).spec_columns(),
            final(self).spec_data() == old(self).spec_data().update(
                row as int * old(self).spec_columns() + column as int,
                *final(r),
            ),
    {
        let index = self.index(row, column);
        &mut self.data[index]
    }

    /// Replaces the entry at `(row, column)`, which must be in range.
    pub fn set(&mut self, row: usize, column: usize, value: T)
        requires
            old(self).wf(),
            old(self).spec_indices_valid(row as int, column as int),
        ensures
            final(self).wf(),
            final(self).spec_rows() == old(self).spec_rows(),
            final(self).spec_columns() == old(self).spec_columns(),
            final(self).spec_data() == old(self).spec_data().update(
                row as int * old(self).spec_columns() + column as int,
                value,
            ),
    {
        let index = self.index(row, column);
        self.data.set(index, value);
    }

    /// The number of rows.
    pub fn rows(&self) -> (r: usize)
        ensures
            r == self.spec_rows(),
    {
        self.rows
    }

    /// The number of columns.
    pub fn columns(&self) -> (r: usize)
        ensures
            r == self.spec_columns(),
    {
        self.columns
    }

    /// The total number of entries.
    pub fn entries_count(&self) -> (r: usize)
        requires
            self.wf(),
        ensures
            r == self.spec_rows() * self.spec_columns(),
    {
        self.data.len()
    }

    /// A reference to the flat data vector.
    pub fn data(&self) -> (r: &Vec<T>)
        ensures
            r@ == self.spec_data(),
    {
        &self.data
    }

    /// A mutable reference to the flat data vector.  Changing its length
    /// breaks the matrix's well-formedness.
    pub fn data_mut(&mut self) -> (r: &mut Vec<T>)
        ensures
            (*r)@ == old(self).spec_data(),
            final(self).spec_rows() == old(self).spec_rows(),
            final(self).spec_columns() == old(self).spec_columns(),
            final(self).spec_data() == (*final(r))@,
    {
        &mut self.data
    }

    /// Whether `(row, column)` lies inside the matrix.
    pub fn indices_valid(&self, row: usize, column: usize) -> (r: bool)
        ensures
            r == self.spec_indices_valid(row as int, column as int),
    {
        row < self.rows && column < self.columns
    }

    /// The flat index of `(row, column)`.
    fn index(&self, row: usize, column: usize) -> (r: usize)
        requires
            self.wf(),
            self.spec_indices_valid(row as int, column as int),
        ensures
            r == row as int * self.spec_columns() + column as int,
            r < self.spec_data().len(),
    {
        proof {
            lemma_row_major_bound(
                row as int,
                column as int,
                self.spec_rows(),
                self.spec_columns(),
            );
        }
        let n = self.data.len();
        assert((row as int) * self.spec_columns() + (column as int) < n as int);
        row * self.columns + column
    }
}

} // verus!

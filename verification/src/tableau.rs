//! The simplex tableau: a dense rational matrix together with display names,
//! feasibility and optimality predicates, and the Gaussian pivot primitive.

use crate::matrix_2d::Matrix2D;
use crate::rational::{
    lemma_div_by_one, lemma_div_nonneg, lemma_div_wf, lemma_div_zero_num, lemma_elim_monotone,
    lemma_elim_nonneg_nonpos_factor, lemma_elim_nonneg_ratio, lemma_elim_raw,
    lemma_elim_zero_factor, lemma_elim_zero_p, lemma_mul_by_one, lemma_rat_eq_trans,
    lemma_self_div_one, lemma_sub_eq_zero, rat_div, rat_elim, rat_eq, rat_fits, rat_le, rat_lt,
    rat_mul, rat_one, rat_sub, rat_wf, rat_zero, Rat, SpecRat,
};
use vstd::prelude::*;

verus! {

/// Errors raised by tableau operations.
#[derive(Clone, Copy, Debug, PartialEq, Eq, Structural)]
pub enum TableauError {
    /// An index fell outside the matrix; both offending coordinates are
    /// reported.
    OutOfBounds { row: usize, column: usize },
    /// An exact rational no longer fits its machine representation.
    ArithmeticOverflow,
}

/// A rectangular grid of well-formed rationals with the given width.
pub open spec fn grid_wf(m: Seq<Seq<SpecRat>>, cols: int) -> bool {
    &&& forall|i: int| 0 <= i < m.len() ==> (#[trigger] m[i]).len() == cols
    &&& forall|i: int, j: int|
        0 <= i < m.len() && 0 <= j < cols ==> rat_wf(#[trigger] m[i][j])
}

/// The grid after one Gaussian pivot at `(pr, pc)`: the pivot row is divided
/// by the pivot element, and that normalized row, scaled by each other row's
/// entry in the pivot column, is subtracted from that row.
pub open spec fn spec_pivot(m: Seq<Seq<SpecRat>>, pr: int, pc: int) -> Seq<Seq<SpecRat>> {
    Seq::new(
        m.len(),
        |i: int|
            Seq::new(
                m[i].len(),
                |j: int|
                    if i == pr {
                        rat_div(m[pr][j], m[pr][pc])
                    } else {
                        rat_elim(m[i][j], m[i][pc], m[pr][j], m[pr][pc])
                    },
            ),
    )
}

/// Every rational one Gaussian pivot at `(pr, pc)` computes fits the
/// machine representation: each normalized pivot-row quotient, and each
/// elimination product and difference of every other row.
pub open spec fn pivot_fits(m: Seq<Seq<SpecRat>>, rows: int, cols: int, pr: int, pc: int) -> bool {
    &&& forall|j: int| 0 <= j < cols ==> #[trigger] rat_fits(rat_div(m[pr][j], m[pr][pc]))
    &&& forall|i: int, j: int|
        0 <= i < rows && i != pr && 0 <= j < cols ==> #[trigger] rat_fits(
            rat_mul(m[i][pc], rat_div(m[pr][j], m[pr][pc])),
        )
    &&& forall|i: int, j: int|
        0 <= i < rows && i != pr && 0 <= j < cols ==> #[trigger] rat_fits(
            rat_elim(m[i][j], m[i][pc], m[pr][j], m[pr][pc]),
        )
}

/// Column `c` is the identity column for row `pr`: one there, zero in every
/// other row (the objective row included).
pub open spec fn is_identity_col(m: Seq<Seq<SpecRat>>, pr: int, c: int) -> bool {
    &&& rat_eq(m[pr][c], rat_one())
    &&& forall|i: int| 0 <= i < m.len() && i != pr ==> rat_eq(#[trigger] m[i][c], rat_zero())
}

/// After a pivot the grid stays rectangular with well-formed entries.
pub proof fn lemma_pivot_wf(m: Seq<Seq<SpecRat>>, cols: int, pr: int, pc: int)
    requires
        grid_wf(m, cols),
        0 <= pr < m.len(),
        0 <= pc < cols,
        !rat_eq(m[pr][pc], rat_zero()),
    ensures
        spec_pivot(m, pr, pc).len() == m.len(),
        grid_wf(spec_pivot(m, pr, pc), cols),
{
    let m2 = spec_pivot(m, pr, pc);
    let q = m[pr][pc];
    assert(q.0 != 0);
    assert forall|i: int| 0 <= i < m2.len() implies (#[trigger] m2[i]).len() == cols by {
        assert(m[i].len() == cols);
    }
    assert forall|i: int, j: int| 0 <= i < m2.len() && 0 <= j < cols implies rat_wf(
        #[trigger] m2[i][j],
    ) by {
        if i == pr {
            lemma_div_wf(m[pr][j], q);
        } else {
            lemma_elim_raw(m[i][j], m[i][pc], m[pr][j], q);
        }
    }
}

/// After a pivot, the pivot column is exactly the identity column for the
/// pivot row: one in the pivot row, zero in every other row.
pub proof fn lemma_pivot_identity_column(m: Seq<Seq<SpecRat>>, cols: int, pr: int, pc: int)
    requires
        grid_wf(m, cols),
        0 <= pr < m.len(),
        0 <= pc < cols,
        !rat_eq(m[pr][pc], rat_zero()),
    ensures
        is_identity_col(spec_pivot(m, pr, pc), pr, pc),
{
    let m2 = spec_pivot(m, pr, pc);
    let q = m[pr][pc];
    assert(q.0 != 0);
    lemma_self_div_one(q);
    assert forall|i: int| 0 <= i < m2.len() && i != pr implies rat_eq(
        #[trigger] m2[i][pc],
        rat_zero(),
    ) by {
        let e = m[i][pc];
        let d = rat_div(q, q);
        lemma_self_div_one(q);
        lemma_mul_by_one(e, d);
        lemma_sub_eq_zero(e, rat_mul(e, d));
    }
}

/// A pivot preserves the identity column of any other row, provided the
/// pivot column differs: the basis of the untouched rows survives the pivot.
pub proof fn lemma_pivot_preserves_identity(
    m: Seq<Seq<SpecRat>>,
    cols: int,
    pr: int,
    pc: int,
    r0: int,
    c: int,
)
    requires
        grid_wf(m, cols),
        0 <= pr < m.len(),
        0 <= pc < cols,
        !rat_eq(m[pr][pc], rat_zero()),
        0 <= r0 < m.len(),
        r0 != pr,
        0 <= c < cols,
        c != pc,
        is_identity_col(m, r0, c),
    ensures
        is_identity_col(spec_pivot(m, pr, pc), r0, c),
{
    let m2 = spec_pivot(m, pr, pc);
    let q = m[pr][pc];
    assert(q.0 != 0);
    let p = m[pr][c];
    assert(rat_eq(p, rat_zero()));
    lemma_elim_zero_p(m[r0][c], m[r0][pc], p, q);
    lemma_rat_eq_trans(rat_elim(m[r0][c], m[r0][pc], p, q), m[r0][c], rat_one());
    assert forall|i: int| 0 <= i < m2.len() && i != r0 implies rat_eq(
        #[trigger] m2[i][c],
        rat_zero(),
    ) by {
        if i == pr {
            lemma_div_zero_num(p, q);
        } else {
            assert(rat_eq(m[i][c], rat_zero()));
            lemma_elim_zero_p(m[i][c], m[i][pc], p, q);
            lemma_rat_eq_trans(rat_elim(m[i][c], m[i][pc], p, q), m[i][c], rat_zero());
        }
    }
}

/// Pivoting twice at the same position, with nothing in between, gives a
/// grid whose every entry is rationally equal to the grid after the first
/// pivot: with exact arithmetic a repeated pivot is idempotent.
pub proof fn lemma_pivot_involution(m: Seq<Seq<SpecRat>>, cols: int, pr: int, pc: int)
    requires
        grid_wf(m, cols),
        0 <= pr < m.len(),
        0 <= pc < cols,
        !rat_eq(m[pr][pc], rat_zero()),
    ensures
        forall|i: int, j: int|
            0 <= i < m.len() && 0 <= j < cols ==> rat_eq(
                #[trigger] spec_pivot(spec_pivot(m, pr, pc), pr, pc)[i][j],
                spec_pivot(m, pr, pc)[i][j],
            ),
{
    let m1 = spec_pivot(m, pr, pc);
    let m2 = spec_pivot(m1, pr, pc);
    lemma_pivot_wf(m, cols, pr, pc);
    lemma_pivot_identity_column(m, cols, pr, pc);
    let q1 = m1[pr][pc];
    assert(q1.0 == q1.1);
    assert forall|i: int, j: int| 0 <= i < m.len() && 0 <= j < cols implies rat_eq(
        #[trigger] m2[i][j],
        m1[i][j],
    ) by {
        if i == pr {
            lemma_div_by_one(m1[pr][j], q1);
        } else {
            assert(rat_eq(m1[i][pc], rat_zero()));
            lemma_div_wf(m1[pr][j], q1);
            lemma_elim_zero_factor(m1[i][j], m1[i][pc], rat_div(m1[pr][j], q1));
        }
    }
}

/// The minimum-ratio rule keeps every constraint row's right-hand side
/// non-negative across a pivot: a feasible tableau stays feasible when the
/// pivot row attains the smallest ratio among rows with a positive entry in
/// the pivot column.
pub proof fn lemma_pivot_preserves_feasibility(m: Seq<Seq<SpecRat>>, cols: int, pr: int, pc: int)
    requires
        grid_wf(m, cols),
        0 <= pr < m.len() - 1,
        0 <= pc < cols - 1,
        rat_lt(rat_zero(), m[pr][pc]),
        forall|r: int| 0 <= r < m.len() - 1 ==> rat_le(rat_zero(), #[trigger] m[r][cols - 1]),
        forall|r: int|
            0 <= r < m.len() - 1 && r != pr && rat_lt(rat_zero(), #[trigger] m[r][pc]) ==> rat_le(
                rat_div(m[pr][cols - 1], m[pr][pc]),
                rat_div(m[r][cols - 1], m[r][pc]),
            ),
    ensures
        forall|r: int|
            0 <= r < m.len() - 1 ==> rat_le(
                rat_zero(),
                #[trigger] spec_pivot(m, pr, pc)[r][cols - 1],
            ),
{
    let q = m[pr][pc];
    let p = m[pr][cols - 1];
    assert(q.0 != 0);
    assert forall|r: int| 0 <= r < m.len() - 1 implies rat_le(
        rat_zero(),
        #[trigger] spec_pivot(m, pr, pc)[r][cols - 1],
    ) by {
        if r == pr {
            lemma_div_nonneg(p, q);
        } else {
            let e = m[r][cols - 1];
            let f = m[r][pc];
            if rat_lt(rat_zero(), f) {
                lemma_elim_nonneg_ratio(e, f, p, q);
            } else {
                assert(rat_le(f, rat_zero()));
                lemma_elim_nonneg_nonpos_factor(e, f, p, q);
            }
        }
    }
}

/// A pivot chosen by the simplex rules cannot decrease the objective value:
/// the entering column has a negative objective coefficient, the pivot
/// element is positive, and the pivot row's right-hand side is non-negative.
pub proof fn lemma_pivot_objective_monotone(m: Seq<Seq<SpecRat>>, cols: int, pr: int, pc: int)
    requires
        grid_wf(m, cols),
        0 <= pr < m.len() - 1,
        0 <= pc < cols - 1,
        rat_lt(rat_zero(), m[pr][pc]),
        rat_le(rat_zero(), m[pr][cols - 1]),
        rat_lt(m[m.len() - 1][pc], rat_zero()),
    ensures
        rat_le(
            m[m.len() - 1][cols - 1],
            spec_pivot(m, pr, pc)[m.len() - 1][cols - 1],
        ),
{
    let lr = m.len() - 1;
    lemma_elim_monotone(m[lr][cols - 1], m[lr][pc], m[pr][cols - 1], m[pr][pc]);
}

/// The basis of a tableau: for each constraint row, the column whose
/// variable that row is currently solved for.  Created by the standard-form
/// transformation; one entry changes per pivot.
pub struct Basis {
    columns: Vec<usize>,
}

impl Basis {
    /// The basis column of each constraint row.
    pub closed spec fn spec_columns(&self) -> Seq<usize> {
        self.columns@
    }

    /// A basis with the given column per row.
    pub fn from_columns(columns: Vec<usize>) -> (b: Basis)
        ensures
            b.spec_columns() == columns@,
    {
        Basis { columns }
    }

    /// The number of constraint rows.
    pub fn len(&self) -> (r: usize)
        ensures
            r == self.spec_columns().len(),
    {
        self.columns.len()
    }

    /// The basis column of row `r`.
    pub fn get(&self, r: usize) -> (c: usize)
        requires
            r < self.spec_columns().len(),
        ensures
            c == self.spec_columns()[r as int],
    {
        self.columns[r]
    }

    /// Records that row `r` is now solved for column `c`.
    pub fn set(&mut self, r: usize, c: usize)
        requires
            r < old(self).spec_columns().len(),
        ensures
            final(self).spec_columns() == old(self).spec_columns().update(r as int, c),
    {
        self.columns.set(r, c);
    }

    /// The basis columns as a vector.
    pub fn columns(&self) -> (r: &Vec<usize>)
        ensures
            r@ == self.spec_columns(),
    {
        &self.columns
    }
}

/// A tableau for a linear program: the last column is the right-hand side,
/// the last row is the objective row.
pub struct Tableau {
    matrix: Matrix2D<Rat>,
    row_names: Vec<String>,
    column_names: Vec<String>,
}

impl Tableau {
    /// The number of rows.
    pub closed spec fn spec_rows(&self) -> int {
        self.matrix.spec_rows()
    }

    /// The number of columns.
    pub closed spec fn spec_cols(&self) -> int {
        self.matrix.spec_columns()
    }

    /// The rational at row `i`, column `j`.
    pub closed spec fn at(&self, i: int, j: int) -> SpecRat {
        self.matrix.spec_index(i, j)@
    }

    /// The display names of the rows.
    pub closed spec fn spec_row_names(&self) -> Seq<String> {
        self.row_names@
    }

    /// The display names of the columns.
    pub closed spec fn spec_column_names(&self) -> Seq<String> {
        self.column_names@
    }

    /// Every entry is a well-formed machine rational.
    pub open spec fn entries_wf(&self) -> bool {
        forall|i: int, j: int|
            0 <= i < self.spec_rows() && 0 <= j < self.spec_cols() ==> rat_wf(
                #[trigger] self.at(i, j),
            ) && self.at(i, j).0 > i64::MIN
    }

    /// The stored matrix is rectangular.
    pub closed spec fn matrix_wf(&self) -> bool {
        self.matrix.wf()
    }

    /// Well-formedness: the matrix is rectangular with well-formed entries
    /// and one display name per row and per column.
    pub open spec fn wf(&self) -> bool {
        &&& self.matrix_wf()
        &&& self.entries_wf()
        &&& self.spec_rows() >= 0
        &&& self.spec_cols() >= 0
        &&& self.spec_row_names().len() == self.spec_rows()
        &&& self.spec_column_names().len() == self.spec_cols()
    }

    /// The whole grid of rational values.
    pub open spec fn mat(&self) -> Seq<Seq<SpecRat>> {
        Seq::new(
            self.spec_rows() as nat,
            |i: int| Seq::new(self.spec_cols() as nat, |j: int| self.at(i, j)),
        )
    }

    /// The grid of a well-formed tableau is a well-formed grid.
    pub proof fn lemma_mat_grid(&self)
        requires
            self.wf(),
        ensures
            grid_wf(self.mat(), self.spec_cols()),
            self.mat().len() == self.spec_rows(),
            forall|i: int, j: int|
                0 <= i < self.spec_rows() && 0 <= j < self.spec_cols() ==> #[trigger] self.mat()[i][j]
                    == self.at(i, j),
    {
    }

    /// Primal feasibility: every constraint row's right-hand side is
    /// non-negative.
    pub open spec fn spec_feasible(&self) -> bool {
        forall|r: int|
            0 <= r < self.spec_rows() - 1 ==> rat_le(rat_zero(), #[trigger] self.at(r, self.spec_cols() - 1))
    }

    /// Optimality: every objective-row coefficient (the right-hand side
    /// excluded) is non-negative.
    pub open spec fn spec_optimal(&self) -> bool {
        forall|j: int|
            0 <= j < self.spec_cols() - 1 ==> rat_le(rat_zero(), #[trigger] self.at(self.spec_rows() - 1, j))
    }

    /// Wraps a matrix and its display names as a tableau.  There must be one
    /// name per row and per column.
    pub fn new(matrix: Matrix2D<Rat>, row_names: Vec<String>, column_names: Vec<String>) -> (t:
        Tableau)
        requires
            matrix.wf(),
            forall|i: int, j: int|
                0 <= i < matrix.spec_rows() && 0 <= j < matrix.spec_columns() ==> (
                #[trigger] matrix.spec_index(i, j)).wf(),
            row_names@.len() == matrix.spec_rows(),
            column_names@.len() == matrix.spec_columns(),
        ensures
            t.wf(),
            t.spec_rows() == matrix.spec_rows(),
            t.spec_cols() == matrix.spec_columns(),
            forall|i: int, j: int|
                0 <= i < matrix.spec_rows() && 0 <= j < matrix.spec_columns() ==> #[trigger] t.at(
                    i,
                    j,
                ) == matrix.spec_index(i, j)@,
            t.spec_row_names() == row_names@,
            t.spec_column_names() == column_names@,
    {
        Tableau { matrix, row_names, column_names }
    }

    /// A reference to the underlying matrix.
    pub fn get_matrix(&self) -> (r: &Matrix2D<Rat>)
        ensures
            r.spec_rows() == self.spec_rows(),
            r.spec_columns() == self.spec_cols(),
            forall|i: int, j: int|
                0 <= i < self.spec_rows() && 0 <= j < self.spec_cols() ==> (
                #[trigger] r.spec_index(i, j))@ == self.at(i, j),
    {
        &self.matrix
    }

    /// The number of rows.
    pub fn rows(&self) -> (r: usize)
        ensures
            r == self.spec_rows(),
    {
        self.matrix.rows()
    }

    /// The number of columns.
    pub fn cols(&self) -> (r: usize)
        ensures
            r == self.spec_cols(),
    {
        self.matrix.columns()
    }

    /// The display names of the rows.
    pub fn row_names(&self) -> (r: &Vec<String>)
        ensures
            r@ == self.spec_row_names(),
    {
        &self.row_names
    }

    /// The display names of the columns.
    pub fn column_names(&self) -> (r: &Vec<String>)
        ensures
            r@ == self.spec_column_names(),
    {
        &self.column_names
    }

    /// A mutable reference to the row names.  Changing their number breaks
    /// the tableau's well-formedness.
    pub fn row_names_mut(&mut self) -> (r: &mut Vec<String>)
        ensures
            (*r)@ == old(self).spec_row_names(),
            final(self).spec_row_names() == (*final(r))@,
            final(self).spec_column_names() == old(self).spec_column_names(),
            final(self).spec_rows() == old(self).spec_rows(),
            final(self).spec_cols() == old(self).spec_cols(),
            forall|i: int, j: int| #[trigger]
                final(self).at(i, j) == old(self).at(i, j),
    {
        &mut self.row_names
    }

    /// A mutable reference to the column names.  Changing their number breaks
    /// the tableau's well-formedness.
    pub fn column_names_mut(&mut self) -> (r: &mut Vec<String>)
        ensures
            (*r)@ == old(self).spec_column_names(),
            final(self).spec_column_names() == (*final(r))@,
            final(self).spec_row_names() == old(self).spec_row_names(),
            final(self).spec_rows() == old(self).spec_rows(),
            final(self).spec_cols() == old(self).spec_cols(),
            forall|i: int, j: int| #[trigger]
                final(self).at(i, j) == old(self).at(i, j),
    {
        &mut self.column_names
    }

    /// The entry at `(row, column)`; out-of-range indices are reported, with
    /// both coordinates, in the error.
    pub fn get(&self, row: usize, column: usize) -> (r: Result<Rat, TableauError>)
        requires
            self.wf(),
        ensures
            match r {
                Ok(v) => 0 <= row < self.spec_rows() && 0 <= column < self.spec_cols() && v.wf()
                    && v@ == self.at(row as int, column as int),
                Err(e) => !(row < self.spec_rows() && column < self.spec_cols()) && e == (
                TableauError::OutOfBounds { row, column }),
            },
    {
        match self.matrix.get(row, column) {
            Some(v) => {
                proof {
                    assert(rat_wf(self.at(row as int, column as int)));
                }
                Ok(*v)
            },
            None => Err(TableauError::OutOfBounds { row, column }),
        }
    }

    /// Replaces the entry at `(row, column)`; out-of-range indices are
    /// reported, with both coordinates, in the error.
    pub fn set(&mut self, row: usize, column: usize, value: Rat) -> (r: Result<(), TableauError>)
        requires
            old(self).wf(),
            value.wf(),
        ensures
            final(self).spec_rows() == old(self).spec_rows(),
            final(self).spec_cols() == old(self).spec_cols(),
            final(self).spec_row_names() == old(self).spec_row_names(),
            final(self).spec_column_names() == old(self).spec_column_names(),
            final(self).wf(),
            match r {
                Ok(()) => 0 <= row < old(self).spec_rows() && 0 <= column < old(self).spec_cols()
                    && final(self).at(row as int, column as int) == value@ && forall|i: int, j: int|
                    0 <= i < old(self).spec_rows() && 0 <= j < old(self).spec_cols() && !(i == row
                        && j == column) ==> #[trigger] final(self).at(i, j) == old(self).at(i, j),
                Err(e) => !(row < old(self).spec_rows() && column < old(self).spec_cols()) && e == (
                TableauError::OutOfBounds { row, column }) && *final(self) == *old(self),
            },
    {
        if self.matrix.indices_valid(row, column) {
            self.matrix.set(row, column, value);
            proof {
                crate::matrix_2d::lemma_row_major_bound(
                    row as int,
                    column as int,
                    old(self).spec_rows(),
                    old(self).spec_cols(),
                );
                assert forall|i: int, j: int|
                    0 <= i < old(self).spec_rows() && 0 <= j < old(self).spec_cols() && !(i
                        == row && j == column) implies #[trigger] self.at(i, j) == old(self).at(
                    i,
                    j,
                ) by {
                    crate::matrix_2d::lemma_row_major_bound(
                        i,
                        j,
                        old(self).spec_rows(),
                        old(self).spec_cols(),
                    );
                    crate::matrix_2d::lemma_row_major_distinct(
                        i,
                        j,
                        row as int,
                        column as int,
                        old(self).spec_cols(),
                    );
                }
                assert(self.entries_wf()) by {
                    assert forall|i: int, j: int|
                        0 <= i < self.spec_rows() && 0 <= j < self.spec_cols() implies rat_wf(
                        #[trigger] self.at(i, j),
                    ) by {
                        crate::matrix_2d::lemma_row_major_bound(
                            i,
                            j,
                            old(self).spec_rows(),
                            old(self).spec_cols(),
                        );
                        if i == row && j == column {
                        } else {
                            crate::matrix_2d::lemma_row_major_distinct(
                                i,
                                j,
                                row as int,
                                column as int,
                                old(self).spec_cols(),
                            );
                        }
                    }
                }
            }
            Ok(())
        } else {
            Err(TableauError::OutOfBounds { row, column })
        }
    }

    /// The right-hand-side entry of the objective row: the current objective
    /// value in the tableau's (maximize) sign convention.
    pub fn get_objective_value(&self) -> (r: Rat)
        requires
            self.wf(),
            self.spec_rows() >= 1,
            self.spec_cols() >= 1,
        ensures
            r.wf(),
            r@ == self.at(self.spec_rows() - 1, self.spec_cols() - 1),
    {
        self.entry(self.rows() - 1, self.cols() - 1)
    }

    /// The right-hand sides of the constraint rows: the last column without
    /// the objective row.
    pub fn rhs_vector(&self) -> (r: Vec<Rat>)
        requires
            self.wf(),
            self.spec_rows() >= 1,
            self.spec_cols() >= 1,
        ensures
            r@.len() == self.spec_rows() - 1,
            forall|i: int|
                0 <= i < self.spec_rows() - 1 ==> (#[trigger] r@[i]).wf() && r@[i]@ == self.at(
                    i,
                    self.spec_cols() - 1,
                ),
    {
        let rows = self.rows();
        let last = self.cols() - 1;
        let mut r: Vec<Rat> = Vec::new();
        let mut i: usize = 0;
        while i < rows - 1
            invariant
                self.wf(),
                self.spec_rows() >= 1,
                self.spec_cols() >= 1,
                last == self.spec_cols() - 1,
                rows == self.spec_rows(),
                i <= rows - 1,
                r@.len() == i,
                forall|k: int|
                    0 <= k < i ==> (#[trigger] r@[k]).wf() && r@[k]@ == self.at(
                        k,
                        self.spec_cols() - 1,
                    ),
            decreases rows - 1 - i,
        {
            r.push(self.entry(i, last));
            i = i + 1;
        }
        r
    }

    /// The objective-row coefficients: the last row without the right-hand
    /// side.
    pub fn objective_coefficients(&self) -> (r: Vec<Rat>)
        requires
            self.wf(),
            self.spec_rows() >= 1,
            self.spec_cols() >= 1,
        ensures
            r@.len() == self.spec_cols() - 1,
            forall|j: int|
                0 <= j < self.spec_cols() - 1 ==> (#[trigger] r@[j]).wf() && r@[j]@ == self.at(
                    self.spec_rows() - 1,
                    j,
                ),
    {
        let cols = self.cols();
        let obj = self.rows() - 1;
        let mut r: Vec<Rat> = Vec::new();
        let mut j: usize = 0;
        while j < cols - 1
            invariant
                self.wf(),
                self.spec_rows() >= 1,
                self.spec_cols() >= 1,
                obj == self.spec_rows() - 1,
                cols == self.spec_cols(),
                j <= cols - 1,
                r@.len() == j,
                forall|k: int|
                    0 <= k < j ==> (#[trigger] r@[k]).wf() && r@[k]@ == self.at(
                        self.spec_rows() - 1,
                        k,
                    ),
            decreases cols - 1 - j,
        {
            r.push(self.entry(obj, j));
            j = j + 1;
        }
        r
    }

    /// Whether the tableau is primal feasible: every constraint row's
    /// right-hand side is non-negative.
    pub fn is_feasible(&self) -> (r: bool)
        requires
            self.wf(),
            self.spec_rows() >= 1,
            self.spec_cols() >= 1,
        ensures
            r == self.spec_feasible(),
    {
        let rows = self.rows();
        let last = self.cols() - 1;
        let zero = Rat::zero();
        let mut i: usize = 0;
        let mut ok = true;
        while i < rows - 1
            invariant
                self.wf(),
                self.spec_rows() >= 1,
                self.spec_cols() >= 1,
                last == self.spec_cols() - 1,
                rows == self.spec_rows(),
                i <= rows - 1,
                zero.wf(),
                zero@ == rat_zero(),
                ok == forall|k: int|
                    0 <= k < i ==> rat_le(rat_zero(), #[trigger] self.at(k, self.spec_cols() - 1)),
            decreases rows - 1 - i,
        {
            let v = self.entry(i, last);
            if !zero.le(&v) {
                ok = false;
            }
            i = i + 1;
        }
        ok
    }

    /// Whether the tableau is optimal: every objective-row coefficient is
    /// non-negative, so no entering variable can improve the objective.
    pub fn is_optimal(&self) -> (r: bool)
        requires
            self.wf(),
            self.spec_rows() >= 1,
            self.spec_cols() >= 1,
        ensures
            r == self.spec_optimal(),
    {
        let cols = self.cols();
        let obj = self.rows() - 1;
        let zero = Rat::zero();
        let mut j: usize = 0;
        let mut ok = true;
        while j < cols - 1
            invariant
                self.wf(),
                self.spec_rows() >= 1,
                self.spec_cols() >= 1,
                obj == self.spec_rows() - 1,
                cols == self.spec_cols(),
                j <= cols - 1,
                zero.wf(),
                zero@ == rat_zero(),
                ok == forall|k: int|
                    0 <= k < j ==> rat_le(rat_zero(), #[trigger] self.at(self.spec_rows() - 1, k)),
            decreases cols - 1 - j,
        {
            let v = self.entry(obj, j);
            if !zero.le(&v) {
                ok = false;
            }
            j = j + 1;
        }
        ok
    }

    /// Performs one Gaussian pivot at `(pivot_row, pivot_column)`, whose
    /// entry must be non-zero: the pivot row is divided by the pivot element,
    /// and every other row (the objective row included) then has the
    /// normalized pivot row, scaled by its own pivot-column entry, subtracted
    /// from it.  The elimination reads a copy of the normalized pivot row, so
    /// no row is read while it is being rewritten.  On overflow of the exact
    /// arithmetic the tableau is left unchanged.
    pub fn gaussian_pivot(&mut self, pivot_row: usize, pivot_column: usize) -> (r: Result<
        (),
        TableauError,
    >)
        requires
            old(self).wf(),
            pivot_row < old(self).spec_rows(),
            pivot_column < old(self).spec_cols(),
            !rat_eq(old(self).at(pivot_row as int, pivot_column as int), rat_zero()),
        ensures
            final(self).spec_rows() == old(self).spec_rows(),
            final(self).spec_cols() == old(self).spec_cols(),
            final(self).spec_row_names() == old(self).spec_row_names(),
            final(self).spec_column_names() == old(self).spec_column_names(),
            match r {
                Ok(()) => final(self).wf() && pivot_fits(
                    old(self).mat(),
                    old(self).spec_rows(),
                    old(self).spec_cols(),
                    pivot_row as int,
                    pivot_column as int,
                ) && forall|i: int, j: int|
                    0 <= i < old(self).spec_rows() && 0 <= j < old(self).spec_cols()
                        ==> #[trigger] final(self).at(i, j) == spec_pivot(
                        old(self).mat(),
                        pivot_row as int,
                        pivot_column as int,
                    )[i][j],
                Err(e) => *final(self) == *old(self) && e == TableauError::ArithmeticOverflow
                    && !pivot_fits(
                    old(self).mat(),
                    old(self).spec_rows(),
                    old(self).spec_cols(),
                    pivot_row as int,
                    pivot_column as int,
                ),
            },
    {
        let rows = self.rows();
        let cols = self.cols();
        let ghost om = self.mat();
        let ghost pr = pivot_row as int;
        let ghost pc = pivot_column as int;
        let pe = self.entry(pivot_row, pivot_column);
        // the normalized pivot row, computed up front and read by every
        // elimination below
        let mut piv: Vec<Rat> = Vec::new();
        let mut j: usize = 0;
        while j < cols
            invariant
                self.wf(),
                *self == *old(self),
                rows == self.spec_rows(),
                cols == self.spec_cols(),
                pr == pivot_row as int,
                pc == pivot_column as int,
                pivot_row < rows,
                pivot_column < cols,
                pe.wf(),
                pe@ == self.at(pr, pc),
                !rat_eq(pe@, rat_zero()),
                om == self.mat(),
                j <= cols,
                piv@.len() == j,
                forall|k: int|
                    0 <= k < j ==> (#[trigger] piv@[k]).wf() && piv@[k]@ == rat_div(
                        self.at(pr, k),
                        self.at(pr, pc),
                    ),
                forall|k: int| 0 <= k < j ==> #[trigger] rat_fits(rat_div(om[pr][k], om[pr][pc])),
            decreases cols - j,
        {
            let v = self.entry(pivot_row, j);
            proof {
                assert(om[pr][j as int] == self.at(pr, j as int));
                assert(om[pr][pc] == self.at(pr, pc));
            }
            match v.checked_div(&pe) {
                Some(x) => piv.push(x),
                None => {
                    proof {
                        assert(!rat_fits(rat_div(om[pr][j as int], om[pr][pc])));
                        assert(!pivot_fits(om, rows as int, cols as int, pr, pc));
                    }
                    return Err(TableauError::ArithmeticOverflow);
                },
            }
            j = j + 1;
        }
        // build the pivoted matrix row by row
        let mut data: Vec<Rat> = Vec::new();
        let mut i: usize = 0;
        while i < rows
            invariant
                self.wf(),
                *self == *old(self),
                rows == self.spec_rows(),
                cols == self.spec_cols(),
                om == self.mat(),
                pr == pivot_row as int,
                pc == pivot_column as int,
                pivot_row < rows,
                pivot_column < cols,
                !rat_eq(self.at(pr, pc), rat_zero()),
                piv@.len() == cols,
                forall|k: int|
                    0 <= k < cols ==> (#[trigger] piv@[k]).wf() && piv@[k]@ == rat_div(
                        self.at(pr, k),
                        self.at(pr, pc),
                    ),
                i <= rows,
                data@.len() == i * cols,
                forall|r: int, c: int|
                    0 <= r < i && 0 <= c < cols ==> (#[trigger] data@[r * cols + c]).wf()
                        && data@[r * cols + c]@ == spec_pivot(om, pr, pc)[r][c],
                forall|k: int| 0 <= k < cols ==> #[trigger] rat_fits(rat_div(om[pr][k], om[pr][pc])),
                forall|r: int, c: int|
                    0 <= r < i && r != pr && 0 <= c < cols ==> #[trigger] rat_fits(
                        rat_mul(om[r][pc], rat_div(om[pr][c], om[pr][pc])),
                    ),
                forall|r: int, c: int|
                    0 <= r < i && r != pr && 0 <= c < cols ==> #[trigger] rat_fits(
                        rat_elim(om[r][c], om[r][pc], om[pr][c], om[pr][pc]),
                    ),
            decreases rows - i,
        {
            let ghost data0 = data@;
            let ghost base = i as int * cols as int;
            if i == pivot_row {
                let mut j: usize = 0;
                while j < cols
                    invariant
                        self.wf(),
                        *self == *old(self),
                        rows == self.spec_rows(),
                        cols == self.spec_cols(),
                        pr == pivot_row as int,
                        pc == pivot_column as int,
                        pivot_row < rows,
                        pivot_column < cols,
                        i == pivot_row,
                        base == i as int * cols as int,
                        piv@.len() == cols,
                        forall|k: int|
                            0 <= k < cols ==> (#[trigger] piv@[k]).wf() && piv@[k]@ == rat_div(
                                self.at(pr, k),
                                self.at(pr, pc),
                            ),
                        j <= cols,
                        data@.len() == base + j,
                        data0.len() == base,
                        forall|k: int| 0 <= k < base ==> #[trigger] data@[k] == data0[k],
                        forall|c: int|
                            0 <= c < j ==> (#[trigger] data@[base + c]).wf() && data@[base + c]@
                                == rat_div(self.at(pr, c), self.at(pr, pc)),
                    decreases cols - j,
                {
                    let x = piv[j];
                    data.push(x);
                    j = j + 1;
                }
            } else {
                let factor = self.entry(i, pivot_column);
                let mut j: usize = 0;
                while j < cols
                    invariant
                        self.wf(),
                        *self == *old(self),
                        rows == self.spec_rows(),
                        cols == self.spec_cols(),
                        pr == pivot_row as int,
                        pc == pivot_column as int,
                        pivot_row < rows,
                        pivot_column < cols,
                        i != pivot_row,
                        i < rows,
                        base == i as int * cols as int,
                        !rat_eq(self.at(pr, pc), rat_zero()),
                        factor.wf(),
                        factor@ == self.at(i as int, pc),
                        piv@.len() == cols,
                        forall|k: int|
                            0 <= k < cols ==> (#[trigger] piv@[k]).wf() && piv@[k]@ == rat_div(
                                self.at(pr, k),
                                self.at(pr, pc),
                            ),
                        j <= cols,
                        om == self.mat(),
                        data@.len() == base + j,
                        data0.len() == base,
                        forall|k: int| 0 <= k < base ==> #[trigger] data@[k] == data0[k],
                        forall|c: int|
                            0 <= c < j ==> (#[trigger] data@[base + c]).wf() && data@[base + c]@
                                == rat_elim(
                                self.at(i as int, c),
                                self.at(i as int, pc),
                                self.at(pr, c),
                                self.at(pr, pc),
                            ),
                        forall|c: int|
                            0 <= c < j ==> #[trigger] rat_fits(
                                rat_mul(om[i as int][pc], rat_div(om[pr][c], om[pr][pc])),
                            ),
                        forall|c: int|
                            0 <= c < j ==> #[trigger] rat_fits(
                                rat_elim(om[i as int][c], om[i as int][pc], om[pr][c], om[pr][pc]),
                            ),
                    decreases cols - j,
                {
                    let e = self.entry(i, j);
                    proof {
                        assert(om[i as int][j as int] == self.at(i as int, j as int));
                        assert(om[i as int][pc] == self.at(i as int, pc));
                        assert(om[pr][j as int] == self.at(pr, j as int));
                        assert(om[pr][pc] == self.at(pr, pc));
                    }
                    let m = match factor.checked_mul(&piv[j]) {
                        Some(x) => x,
                        None => {
                            proof {
                                assert(!rat_fits(
                                    rat_mul(om[i as int][pc], rat_div(om[pr][j as int], om[pr][pc])),
                                ));
                                assert(!pivot_fits(om, rows as int, cols as int, pr, pc));
                            }
                            return Err(TableauError::ArithmeticOverflow);
                        },
                    };
                    let v = match e.checked_sub(&m) {
                        Some(x) => x,
                        None => {
                            proof {
                                assert(!rat_fits(
                                    rat_elim(
                                        om[i as int][j as int],
                                        om[i as int][pc],
                                        om[pr][j as int],
                                        om[pr][pc],
                                    ),
                                ));
                                assert(!pivot_fits(om, rows as int, cols as int, pr, pc));
                            }
                            return Err(TableauError::ArithmeticOverflow);
                        },
                    };
                    data.push(v);
                    j = j + 1;
                }
            }
            proof {
                assert forall|r: int, c: int| 0 <= r < i + 1 && 0 <= c < cols implies (
                #[trigger] data@[r * cols + c]).wf() && data@[r * cols + c]@ == spec_pivot(
                    om,
                    pr,
                    pc,
                )[r][c] by {
                    if r < i {
                        assert(r * cols + c < base) by (nonlinear_arith)
                            requires
                                0 <= r,
                                r <= i as int - 1,
                                0 <= c < cols as int,
                                base == i as int * cols as int,
                        {
                        }
                        assert(data@[r * cols + c] == data0[r * cols + c]);
                    } else {
                        assert(data@[base + c].wf());
                        assert(r * cols + c == base + c);
                    }
                }
                assert((i as int + 1) * (cols as int) == i as int * (cols as int)
                    + cols as int) by (nonlinear_arith);
                if i != pivot_row {
                    assert forall|r: int, c: int|
                        0 <= r < i + 1 && r != pr && 0 <= c < cols implies #[trigger] rat_fits(
                        rat_mul(om[r][pc], rat_div(om[pr][c], om[pr][pc])),
                    ) by {
                        if r == i as int {
                            assert(rat_fits(rat_mul(om[i as int][pc], rat_div(om[pr][c], om[pr][pc]))));
                        }
                    }
                    assert forall|r: int, c: int|
                        0 <= r < i + 1 && r != pr && 0 <= c < cols implies #[trigger] rat_fits(
                        rat_elim(om[r][c], om[r][pc], om[pr][c], om[pr][pc]),
                    ) by {
                        if r == i as int {
                            assert(rat_fits(rat_elim(om[i as int][c], om[i as int][pc], om[pr][c], om[pr][pc])));
                        }
                    }
                }
            }
            i = i + 1;
        }
        proof {
            assert(pivot_fits(om, rows as int, cols as int, pr, pc));
        }
        let ghost dfinal = data@;
        proof {
            assert(dfinal.len() == rows * cols);
        }
        match Matrix2D::from_vec(rows, cols, data) {
            Some(m2) => {
                self.matrix = m2;
                proof {
                    assert forall|a: int, b: int|
                        0 <= a < old(self).spec_rows() && 0 <= b < old(self).spec_cols() implies (
                    #[trigger] self.at(a, b)) == spec_pivot(om, pr, pc)[a][b] && rat_wf(
                        self.at(a, b),
                    ) && self.at(a, b).0 > i64::MIN by {
                        crate::matrix_2d::lemma_row_major_bound(a, b, rows as int, cols as int);
                        assert(dfinal[a * cols + b].wf() && dfinal[a * cols + b]@ == spec_pivot(
                            om,
                            pr,
                            pc,
                        )[a][b]);
                        assert(self.at(a, b) == dfinal[a * cols + b]@);
                    }
                }
                Ok(())
            },
            None => {
                proof {
                    assert(false);
                }
                Err(TableauError::ArithmeticOverflow)
            },
        }
    }

    /// The entry at `(row, column)`, which must be in range.
    pub fn entry(&self, row: usize, column: usize) -> (r: Rat)
        requires
            self.wf(),
            0 <= row < self.spec_rows(),
            0 <= column < self.spec_cols(),
        ensures
            r.wf(),
            r@ == self.at(row as int, column as int),
    {
        match self.matrix.get(row, column) {
            Some(v) => {
                proof {
                    assert(rat_wf(self.at(row as int, column as int)));
                }
                *v
            },
            None => {
                proof {
                    assert(false);
                }
                Rat::zero()
            },
        }
    }
}

} // verus!

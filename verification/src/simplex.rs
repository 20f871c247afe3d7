//! The simplex driver: entering and leaving variable selection with
//! anti-cycling tie-breaks, the pivot loop with its feasibility and
//! monotonicity invariants, infeasibility detection, and solution
//! extraction.

use crate::problem::{ObjectiveType, Problem, Variable};
use crate::rational::{
    lemma_le_trans, lemma_lt_le_trans, rat_div, rat_eq, rat_fits, rat_le, rat_lt, rat_neg,
    rat_one, rat_wf, rat_zero, Rat, SpecRat,
};
use crate::standard_form::{
    lemma_aux_offset_mono, standard_form_ok, transform, transform_fits, StandardForm,
    TransformError,
};
use crate::tableau::{
    is_identity_col, lemma_pivot_identity_column, lemma_pivot_objective_monotone,
    lemma_pivot_preserves_feasibility, lemma_pivot_preserves_identity, pivot_fits, spec_pivot,
    Basis, Tableau,
};
use vstd::prelude::*;

verus! {

/// Errors of the solve path that are not legitimate outcomes of the linear
/// program itself.
#[derive(Clone, Copy, Debug, PartialEq, Eq, Structural)]
pub enum SolveError {
    /// The standard-form transformation failed.
    Transform(TransformError),
    /// The pivot loop exceeded its iteration bound, which indicates a bug in
    /// the pivoting rules rather than a property of the input.
    IterationLimitExceeded,
    /// An exact rational no longer fits its machine representation.
    ArithmeticOverflow,
}

/// How a run of the pivot loop ended.
#[derive(Clone, Copy, Debug, PartialEq, Eq, Structural)]
pub enum SimplexStatus {
    /// No objective coefficient is negative: the tableau is optimal.
    Optimal,
    /// The named column could improve the objective without bound: no row
    /// restricts it.
    Unbounded { column: usize },
}

/// The invariant the driver maintains across pivots: a well-formed feasible
/// tableau whose basis columns are identity columns.
pub open spec fn simplex_inv(t: Tableau, basis: Basis) -> bool {
    &&& t.wf()
    &&& t.spec_rows() >= 1
    &&& t.spec_cols() >= 1
    &&& t.spec_feasible()
    &&& basis.spec_columns().len() == t.spec_rows() - 1
    &&& forall|r: int|
        0 <= r < t.spec_rows() - 1 ==> (#[trigger] basis.spec_columns()[r]) < t.spec_cols() - 1
    &&& forall|r: int|
        0 <= r < t.spec_rows() - 1 ==> is_identity_col(
            t.mat(),
            r,
            #[trigger] basis.spec_columns()[r] as int,
        )
}

/// Column `c` is the entering choice of the rules: its objective coefficient
/// is negative, no other column's is smaller, and every earlier column's is
/// strictly larger (the lowest-index tie-break).
pub open spec fn is_entering_col(t: Tableau, c: int) -> bool {
    let obj = t.spec_rows() - 1;
    &&& 0 <= c < t.spec_cols() - 1
    &&& rat_lt(t.at(obj, c), rat_zero())
    &&& forall|j: int| 0 <= j < t.spec_cols() - 1 ==> rat_le(t.at(obj, c), #[trigger] t.at(obj, j))
    &&& forall|j: int| 0 <= j < c ==> rat_lt(t.at(obj, c), #[trigger] t.at(obj, j))
}

/// Row `pr` is the leaving choice of the rules for entering column `col`:
/// its entry there is positive, its ratio of right-hand side to entry is
/// minimal among such rows, and among the minimal-ratio rows its basis
/// column is lowest (the anti-cycling tie-break).
pub open spec fn is_leaving_row(t: Tableau, basis: Basis, col: int, pr: int) -> bool {
    let last = t.spec_cols() - 1;
    &&& 0 <= pr < t.spec_rows() - 1
    &&& rat_lt(rat_zero(), t.at(pr, col))
    &&& forall|i: int|
        0 <= i < t.spec_rows() - 1 && rat_lt(rat_zero(), #[trigger] t.at(i, col)) ==> rat_le(
            rat_div(t.at(pr, last), t.at(pr, col)),
            rat_div(t.at(i, last), t.at(i, col)),
        )
    &&& forall|i: int|
        0 <= i < t.spec_rows() - 1 && rat_lt(rat_zero(), #[trigger] t.at(i, col)) && rat_eq(
            rat_div(t.at(i, last), t.at(i, col)),
            rat_div(t.at(pr, last), t.at(pr, col)),
        ) ==> basis.spec_columns()[pr] <= basis.spec_columns()[i]
}

/// No constraint row has a positive entry in the column: the objective is
/// unbounded along it.
pub open spec fn no_positive_entry(t: Tableau, col: int) -> bool {
    forall|i: int| 0 <= i < t.spec_rows() - 1 ==> !rat_lt(rat_zero(), #[trigger] t.at(i, col))
}

/// Some row with a positive entry in the column has a ratio of right-hand
/// side to entry that does not fit the machine representation.
pub open spec fn ratio_overflow(t: Tableau, col: int) -> bool {
    exists|i: int|
        0 <= i < t.spec_rows() - 1 && rat_lt(rat_zero(), #[trigger] t.at(i, col)) && !rat_fits(
            rat_div(t.at(i, t.spec_cols() - 1), t.at(i, col)),
        )
}

/// One pivot of the driver at `(pr, pc)`: the entering column and leaving
/// row are the ones the rules pick, the new tableau is the Gaussian pivot of
/// the old one, and the basis records the swap.
pub open spec fn rule_step_at(
    t1: Tableau,
    b1: Basis,
    t2: Tableau,
    b2: Basis,
    pc: usize,
    pr: usize,
) -> bool {
    &&& is_entering_col(t1, pc as int)
    &&& is_leaving_row(t1, b1, pc as int, pr as int)
    &&& t2.spec_rows() == t1.spec_rows()
    &&& t2.spec_cols() == t1.spec_cols()
    &&& forall|i: int, j: int|
        0 <= i < t1.spec_rows() && 0 <= j < t1.spec_cols() ==> #[trigger] t2.at(i, j)
            == spec_pivot(t1.mat(), pr as int, pc as int)[i][j]
    &&& b2.spec_columns() == b1.spec_columns().update(pr as int, pc)
}

/// One pivot of the driver, for some rule-conforming entering column and
/// leaving row.
pub open spec fn rule_step(t1: Tableau, b1: Basis, t2: Tableau, b2: Basis) -> bool {
    exists|pc: usize, pr: usize| #[trigger] rule_step_at(t1, b1, t2, b2, pc, pr)
}

/// Consecutive states of the sequence are joined by one rule pivot each.
pub open spec fn is_rule_trace(tr: Seq<(Tableau, Basis)>) -> bool {
    forall|i: int|
        0 <= i < tr.len() - 1 ==> #[trigger] rule_step(tr[i].0, tr[i].1, tr[i + 1].0, tr[i + 1].1)
}

/// The second state arises from the first by exactly `n` pivots of the
/// driver's rules: some trace of `n + 1` states joins them, each obtained
/// from the one before by a rule-conforming pivot.
pub open spec fn rule_reaches(t1: Tableau, b1: Basis, t2: Tableau, b2: Basis, n: nat) -> bool {
    exists|tr: Seq<(Tableau, Basis)>|
        #![trigger is_rule_trace(tr)]
        tr.len() == n + 1 && is_rule_trace(tr) && tr.first() == (t1, b1) && tr.last() == (t2, b2)
}

/// The very next pivot the rules ask for cannot be carried out in the
/// machine representation: either some minimum-ratio candidate overflows, or
/// the pivot itself computes a rational that does not fit.
pub open spec fn step_overflow(t: Tableau, b: Basis) -> bool {
    exists|pc: usize|
        #[trigger] is_entering_col(t, pc as int) && (ratio_overflow(t, pc as int) || exists|
            pr: usize,
        |
            #[trigger] is_leaving_row(t, b, pc as int, pr as int) && !pivot_fits(
                t.mat(),
                t.spec_rows(),
                t.spec_cols(),
                pr as int,
                pc as int,
            ))
}

/// The pivot bound of one run: one pivot per cell of the tableau, capped at
/// the machine word.
pub open spec fn spec_iteration_limit(rows: int, cols: int) -> int {
    if rows * cols <= usize::MAX {
        rows * cols
    } else {
        usize::MAX as int
    }
}

/// Picks the entering column: the most negative objective-row coefficient,
/// ties broken by the lowest column index.  `None` exactly when the tableau
/// is optimal.
pub fn choose_entering(t: &Tableau) -> (r: Option<usize>)
    requires
        t.wf(),
        t.spec_rows() >= 1,
        t.spec_cols() >= 1,
    ensures
        match r {
            None => t.spec_optimal(),
            Some(c) => is_entering_col(*t, c as int),
        },
{
    let cols = t.cols();
    let obj = t.rows() - 1;
    let zero = Rat::zero();
    let mut best: Option<usize> = None;
    let mut j: usize = 0;
    while j < cols - 1
        invariant
            t.wf(),
            t.spec_rows() >= 1,
            t.spec_cols() >= 1,
            cols == t.spec_cols(),
            obj == t.spec_rows() - 1,
            j <= cols - 1,
            zero.wf(),
            zero@ == rat_zero(),
            match best {
                None => forall|i: int|
                    0 <= i < j ==> rat_le(rat_zero(), #[trigger] t.at(obj as int, i)),
                Some(c) => {
                    &&& (c as int) < j
                    &&& rat_lt(t.at(obj as int, c as int), rat_zero())
                    &&& forall|i: int|
                        0 <= i < j ==> rat_le(
                            t.at(obj as int, c as int),
                            #[trigger] t.at(obj as int, i),
                        )
                    &&& forall|i: int|
                        0 <= i < c ==> rat_lt(
                            t.at(obj as int, c as int),
                            #[trigger] t.at(obj as int, i),
                        )
                },
            },
        decreases cols - 1 - j,
    {
        let v = t.entry(obj, j);
        match best {
            None => {
                if v.lt(&zero) {
                    proof {
                        assert forall|i: int| 0 <= i < j implies rat_lt(
                            t.at(obj as int, j as int),
                            #[trigger] t.at(obj as int, i),
                        ) by {
                            assert(rat_wf(t.at(obj as int, i)));
                            lemma_lt_le_trans(
                                t.at(obj as int, j as int),
                                rat_zero(),
                                t.at(obj as int, i),
                            );
                        }
                    }
                    best = Some(j);
                } else {
                    proof {
                        assert(rat_le(rat_zero(), t.at(obj as int, j as int)));
                    }
                }
            },
            Some(c) => {
                let bv = t.entry(obj, c);
                if v.lt(&bv) {
                    proof {
                        let ghost bvs = t.at(obj as int, c as int);
                        lemma_lt_le_trans(t.at(obj as int, j as int), bvs, rat_zero());
                        assert forall|i: int| 0 <= i < j implies rat_lt(
                            t.at(obj as int, j as int),
                            #[trigger] t.at(obj as int, i),
                        ) by {
                            assert(rat_wf(t.at(obj as int, i)));
                            lemma_lt_le_trans(t.at(obj as int, j as int), bvs, t.at(obj as int, i));
                        }
                    }
                    best = Some(j);
                }
            },
        }
        j = j + 1;
    }
    best
}

/// Picks the leaving row for the given entering column: among rows with a
/// positive entry in that column, the smallest ratio of right-hand side to
/// entry, ties broken by the lowest basis column.  `None` exactly when no
/// row has a positive entry, so the column is unbounded.
pub fn choose_leaving(t: &Tableau, col: usize, basis: &Basis) -> (r: Result<
    Option<usize>,
    SolveError,
>)
    requires
        t.wf(),
        t.spec_rows() >= 1,
        t.spec_cols() >= 1,
        col < t.spec_cols() - 1,
        basis.spec_columns().len() == t.spec_rows() - 1,
    ensures
        match r {
            Ok(None) => no_positive_entry(*t, col as int),
            Ok(Some(pr)) => is_leaving_row(*t, *basis, col as int, pr as int),
            Err(e) => e == SolveError::ArithmeticOverflow && ratio_overflow(*t, col as int),
        },
{
    let rows = t.rows();
    let last = t.cols() - 1;
    let zero = Rat::zero();
    let mut best: Option<usize> = None;
    let mut best_ratio = Rat::zero();
    let mut i: usize = 0;
    while i < rows - 1
        invariant
            t.wf(),
            t.spec_rows() >= 1,
            t.spec_cols() >= 1,
            col < t.spec_cols() - 1,
            basis.spec_columns().len() == t.spec_rows() - 1,
            rows == t.spec_rows(),
            last == t.spec_cols() - 1,
            i <= rows - 1,
            zero.wf(),
            zero@ == rat_zero(),
            match best {
                None => forall|n: int|
                    0 <= n < i ==> !rat_lt(rat_zero(), #[trigger] t.at(n, col as int)),
                Some(pr) => {
                    &&& (pr as int) < i
                    &&& rat_lt(rat_zero(), t.at(pr as int, col as int))
                    &&& best_ratio.wf()
                    &&& best_ratio@ == rat_div(
                        t.at(pr as int, last as int),
                        t.at(pr as int, col as int),
                    )
                    &&& forall|n: int|
                        0 <= n < i && rat_lt(rat_zero(), #[trigger] t.at(n, col as int))
                            ==> rat_le(best_ratio@, rat_div(t.at(n, last as int), t.at(n, col as int)))
                    &&& forall|n: int|
                        0 <= n < i && rat_lt(rat_zero(), #[trigger] t.at(n, col as int)) && rat_eq(
                            rat_div(t.at(n, last as int), t.at(n, col as int)),
                            best_ratio@,
                        ) ==> basis.spec_columns()[pr as int] <= basis.spec_columns()[n]
                },
            },
        decreases rows - 1 - i,
    {
        let v = t.entry(i, col);
        if zero.lt(&v) {
            let rhs = t.entry(i, last);
            let ratio = match rhs.checked_div(&v) {
                Some(x) => x,
                None => {
                    proof {
                        assert(!rat_fits(rat_div(t.at(i as int, last as int), t.at(i as int, col as int))));
                        assert(ratio_overflow(*t, col as int));
                    }
                    return Err(SolveError::ArithmeticOverflow);
                },
            };
            match best {
                None => {
                    best = Some(i);
                    best_ratio = ratio;
                },
                Some(pr) => {
                    let take = if ratio.lt(&best_ratio) {
                        true
                    } else if ratio.eq_rat(&best_ratio) {
                        basis.get(i) < basis.get(pr)
                    } else {
                        false
                    };
                    if take {
                        proof {
                            let ghost newr = rat_div(
                                t.at(i as int, last as int),
                                t.at(i as int, col as int),
                            );
                            assert forall|n: int|
                                0 <= n < i && rat_lt(
                                    rat_zero(),
                                    #[trigger] t.at(n, col as int),
                                ) implies rat_le(
                                newr,
                                rat_div(t.at(n, last as int), t.at(n, col as int)),
                            ) by {
                                let nr = rat_div(t.at(n, last as int), t.at(n, col as int));
                                assert(rat_wf(t.at(n, last as int)));
                                assert(rat_wf(t.at(n, col as int)));
                                assert(rat_wf(t.at(i as int, last as int)));
                                assert(rat_wf(t.at(i as int, col as int)));
                                assert(rat_wf(t.at(pr as int, last as int)));
                                assert(rat_wf(t.at(pr as int, col as int)));
                                crate::rational::lemma_div_wf(
                                    t.at(n, last as int),
                                    t.at(n, col as int),
                                );
                                crate::rational::lemma_div_wf(
                                    t.at(i as int, last as int),
                                    t.at(i as int, col as int),
                                );
                                crate::rational::lemma_div_wf(
                                    t.at(pr as int, last as int),
                                    t.at(pr as int, col as int),
                                );
                                if rat_lt(newr, best_ratio@) {
                                    lemma_lt_le_trans(newr, best_ratio@, nr);
                                } else {
                                    // equal ratios: the bound transfers
                                    crate::rational::lemma_le_congr(
                                        best_ratio@,
                                        nr,
                                        newr,
                                        nr,
                                    );
                                }
                            }
                            assert forall|n: int|
                                0 <= n < i && rat_lt(
                                    rat_zero(),
                                    #[trigger] t.at(n, col as int),
                                ) && rat_eq(
                                rat_div(t.at(n, last as int), t.at(n, col as int)),
                                newr,
                            ) implies basis.spec_columns()[i as int]
                                <= basis.spec_columns()[n] by {
                                let nr = rat_div(t.at(n, last as int), t.at(n, col as int));
                                assert(rat_wf(t.at(n, last as int)));
                                assert(rat_wf(t.at(n, col as int)));
                                assert(rat_wf(t.at(i as int, last as int)));
                                assert(rat_wf(t.at(i as int, col as int)));
                                assert(rat_wf(t.at(pr as int, last as int)));
                                assert(rat_wf(t.at(pr as int, col as int)));
                                crate::rational::lemma_div_wf(
                                    t.at(n, last as int),
                                    t.at(n, col as int),
                                );
                                crate::rational::lemma_div_wf(
                                    t.at(i as int, last as int),
                                    t.at(i as int, col as int),
                                );
                                crate::rational::lemma_div_wf(
                                    t.at(pr as int, last as int),
                                    t.at(pr as int, col as int),
                                );
                                if rat_lt(newr, best_ratio@) {
                                    // a strictly smaller ratio has no earlier ties
                                    crate::rational::lemma_le_congr(
                                        best_ratio@,
                                        nr,
                                        best_ratio@,
                                        newr,
                                    );
                                    lemma_lt_le_trans(newr, best_ratio@, newr);
                                } else {
                                    // the new row ties the old minimum: its basis
                                    // column is smaller, and earlier ties obey the
                                    // old bound
                                    crate::rational::lemma_rat_eq_trans(nr, newr, best_ratio@);
                                }
                            }
                        }
                        best = Some(i);
                        best_ratio = ratio;
                    }
                },
            }
        }
        i = i + 1;
    }
    Ok(best)
}

/// One pivot chosen by the entering and leaving rules preserves the driver
/// invariant and cannot decrease the objective value.
#[verifier::rlimit(100)]
proof fn lemma_pivot_step(told: Tableau, bold: Basis, tnew: Tableau, bnew: Basis, pru: usize, pcu: usize)
    requires
        simplex_inv(told, bold),
        (pru as int) < told.spec_rows() - 1,
        (pcu as int) < told.spec_cols() - 1,
        rat_lt(rat_zero(), told.at(pru as int, pcu as int)),
        rat_lt(told.at(told.spec_rows() - 1, pcu as int), rat_zero()),
        forall|i: int|
            0 <= i < told.spec_rows() - 1 && rat_lt(rat_zero(), #[trigger] told.at(i, pcu as int))
                ==> rat_le(
                rat_div(
                    told.at(pru as int, told.spec_cols() - 1),
                    told.at(pru as int, pcu as int),
                ),
                rat_div(told.at(i, told.spec_cols() - 1), told.at(i, pcu as int)),
            ),
        tnew.wf(),
        tnew.spec_rows() == told.spec_rows(),
        tnew.spec_cols() == told.spec_cols(),
        forall|i: int, j: int|
            0 <= i < told.spec_rows() && 0 <= j < told.spec_cols() ==> #[trigger] tnew.at(i, j)
                == spec_pivot(told.mat(), pru as int, pcu as int)[i][j],
        bnew.spec_columns() == bold.spec_columns().update(pru as int, pcu),
    ensures
        simplex_inv(tnew, bnew),
        rat_le(
            told.at(told.spec_rows() - 1, told.spec_cols() - 1),
            tnew.at(told.spec_rows() - 1, told.spec_cols() - 1),
        ),
{
    let rows = told.spec_rows();
    let cols = told.spec_cols();
    let pr = pru as int;
    let pc = pcu as int;
    told.lemma_mat_grid();
    tnew.lemma_mat_grid();
    let m = told.mat();
    let m2 = spec_pivot(m, pr, pc);
    assert(m[pr][pc] == told.at(pr, pc));
    assert(!rat_eq(m[pr][pc], rat_zero()));
    // feasibility is preserved by the minimum-ratio choice
    assert forall|r: int| 0 <= r < rows - 1 implies rat_le(
        rat_zero(),
        #[trigger] m[r][cols - 1],
    ) by {
        assert(m[r][cols - 1] == told.at(r, cols - 1));
    }
    assert forall|r: int|
        0 <= r < rows - 1 && r != pr && rat_lt(rat_zero(), #[trigger] m[r][pc]) implies rat_le(
        rat_div(m[pr][cols - 1], m[pr][pc]),
        rat_div(m[r][cols - 1], m[r][pc]),
    ) by {
        assert(m[r][pc] == told.at(r, pc));
        assert(m[r][cols - 1] == told.at(r, cols - 1));
        assert(rat_lt(rat_zero(), told.at(r, pc)));
    }
    lemma_pivot_preserves_feasibility(m, cols, pr, pc);
    assert forall|r: int| 0 <= r < rows - 1 implies rat_le(
        rat_zero(),
        #[trigger] tnew.at(r, tnew.spec_cols() - 1),
    ) by {
        assert(tnew.at(r, cols - 1) == m2[r][cols - 1]);
    }
    // the pivot column becomes the identity column of the pivot row
    lemma_pivot_identity_column(m, cols, pr, pc);
    assert forall|r: int| 0 <= r < rows - 1 implies is_identity_col(
        tnew.mat(),
        r,
        #[trigger] bnew.spec_columns()[r] as int,
    ) by {
        if r == pr {
            assert(bnew.spec_columns()[r] == pcu);
            assert(rat_eq(tnew.mat()[pr][pc], rat_one())) by {
                assert(tnew.mat()[pr][pc] == tnew.at(pr, pc));
                assert(tnew.at(pr, pc) == m2[pr][pc]);
            }
            assert forall|i: int| 0 <= i < tnew.mat().len() && i != pr implies rat_eq(
                #[trigger] tnew.mat()[i][pc],
                rat_zero(),
            ) by {
                assert(tnew.mat()[i][pc] == tnew.at(i, pc));
                assert(tnew.at(i, pc) == m2[i][pc]);
            }
        } else {
            let c = bold.spec_columns()[r] as int;
            assert(bnew.spec_columns()[r] == bold.spec_columns()[r]);
            assert(is_identity_col(m, r, c));
            assert(rat_eq(m[rows - 1][c], rat_zero()));
            assert(c != pc) by {
                if c == pc {
                    assert(m[rows - 1][pc] == told.at(rows - 1, pc));
                }
            }
            lemma_pivot_preserves_identity(m, cols, pr, pc, r, c);
            assert(rat_eq(tnew.mat()[r][c], rat_one())) by {
                assert(tnew.mat()[r][c] == tnew.at(r, c));
                assert(tnew.at(r, c) == m2[r][c]);
            }
            assert forall|i: int| 0 <= i < tnew.mat().len() && i != r implies rat_eq(
                #[trigger] tnew.mat()[i][c],
                rat_zero(),
            ) by {
                assert(tnew.mat()[i][c] == tnew.at(i, c));
                assert(tnew.at(i, c) == m2[i][c]);
            }
        }
    }
    // the objective value cannot decrease
    lemma_pivot_objective_monotone(m, cols, pr, pc);
    assert(m[rows - 1][pc] == told.at(rows - 1, pc));
    assert(m[pr][cols - 1] == told.at(pr, cols - 1));
    assert(tnew.at(rows - 1, cols - 1) == m2[rows - 1][cols - 1]);
    assert(m[rows - 1][cols - 1] == told.at(rows - 1, cols - 1));
}

/// Runs the pivot loop to completion: entering and leaving selection and a
/// pivot, at most once per cell of the tableau.  On `Optimal` the final
/// tableau is optimal and still feasible; on `Unbounded` the named column
/// has a negative objective coefficient and no positive constraint entry, so
/// the objective is unbounded in it.  Either way the objective value never
/// decreased, and the basis columns are identity columns throughout.
pub fn run_simplex(t: &mut Tableau, basis: &mut Basis) -> (r: Result<SimplexStatus, SolveError>)
    requires
        simplex_inv(*old(t), *old(basis)),
    ensures
        final(t).spec_rows() == old(t).spec_rows(),
        final(t).spec_cols() == old(t).spec_cols(),
        simplex_inv(*final(t), *final(basis)),
        rat_le(
            old(t).at(old(t).spec_rows() - 1, old(t).spec_cols() - 1),
            final(t).at(old(t).spec_rows() - 1, old(t).spec_cols() - 1),
        ),
        match r {
            Ok(SimplexStatus::Optimal) => final(t).spec_optimal(),
            Ok(SimplexStatus::Unbounded { column }) => {
                &&& (column as int) < old(t).spec_cols() - 1
                &&& rat_lt(final(t).at(old(t).spec_rows() - 1, column as int), rat_zero())
                &&& forall|i: int|
                    0 <= i < old(t).spec_rows() - 1 ==> !rat_lt(
                        rat_zero(),
                        #[trigger] final(t).at(i, column as int),
                    )
            },
            Err(e) => (e == SolveError::ArithmeticOverflow && step_overflow(
                *final(t),
                *final(basis),
            )) || (e == SolveError::IterationLimitExceeded && rule_reaches(
                *old(t),
                *old(basis),
                *final(t),
                *final(basis),
                spec_iteration_limit(old(t).spec_rows(), old(t).spec_cols()) as nat,
            )),
        },
        exists|n: nat|
            n <= spec_iteration_limit(old(t).spec_rows(), old(t).spec_cols())
                && #[trigger] rule_reaches(*old(t), *old(basis), *final(t), *final(basis), n),
{
    let rows = t.rows();
    let cols = t.cols();
    let limit = match rows.checked_mul(cols) {
        Some(l) => l,
        None => usize::MAX,
    };
    proof {
        assert(limit == spec_iteration_limit(old(t).spec_rows(), old(t).spec_cols()));
    }
    let ghost lr = old(t).spec_rows() - 1;
    let ghost lc = old(t).spec_cols() - 1;
    let mut iter: usize = 0;
    let ghost mut trace: Seq<(Tableau, Basis)> = seq![(*old(t), *old(basis))];
    while iter < limit
        invariant
            simplex_inv(*t, *basis),
            simplex_inv(*old(t), *old(basis)),
            t.spec_rows() == old(t).spec_rows(),
            t.spec_cols() == old(t).spec_cols(),
            lr == old(t).spec_rows() - 1,
            lc == old(t).spec_cols() - 1,
            rat_le(old(t).at(lr, lc), t.at(lr, lc)),
            iter <= limit,
            limit == spec_iteration_limit(old(t).spec_rows(), old(t).spec_cols()),
            trace.len() == iter + 1,
            is_rule_trace(trace),
            trace.first() == (*old(t), *old(basis)),
            trace.last() == (*t, *basis),
        decreases limit - iter,
    {
        let pc = match choose_entering(t) {
            None => {
                proof {
                    assert(rule_reaches(*old(t), *old(basis), *t, *basis, iter as nat));
                }
                return Ok(SimplexStatus::Optimal);
            },
            Some(pc) => pc,
        };
        let pr = match choose_leaving(t, pc, basis) {
            Err(e) => {
                proof {
                    assert(step_overflow(*t, *basis));
                    assert(rule_reaches(*old(t), *old(basis), *t, *basis, iter as nat));
                }
                return Err(e);
            },
            Ok(None) => {
                proof {
                    assert(rule_reaches(*old(t), *old(basis), *t, *basis, iter as nat));
                }
                return Ok(SimplexStatus::Unbounded { column: pc });
            },
            Ok(Some(pr)) => pr,
        };
        let ghost told = *t;
        let ghost bold = *basis;
        proof {
            assert(!rat_eq(t.at(pr as int, pc as int), rat_zero()));
        }
        match t.gaussian_pivot(pr, pc) {
            Ok(()) => {},
            Err(_) => {
                proof {
                    assert(!pivot_fits(t.mat(), t.spec_rows(), t.spec_cols(), pr as int, pc as int));
                    assert(step_overflow(*t, *basis));
                    assert(rule_reaches(*old(t), *old(basis), *t, *basis, iter as nat));
                }
                return Err(SolveError::ArithmeticOverflow);
            },
        }
        basis.set(pr, pc);
        proof {
            lemma_pivot_step(told, bold, *t, *basis, pr, pc);
            assert(rat_wf(old(t).at(lr, lc)));
            assert(rat_wf(told.at(lr, lc)));
            assert(rat_wf(t.at(lr, lc)));
            lemma_le_trans(old(t).at(lr, lc), told.at(lr, lc), t.at(lr, lc));
            // the chain of rule pivots grows by the step just performed
            assert(rule_step_at(told, bold, *t, *basis, pc, pr));
            assert(rule_step(told, bold, *t, *basis));
            let tr0 = trace;
            trace = trace.push((*t, *basis));
            assert forall|i2: int| 0 <= i2 < trace.len() - 1 implies #[trigger] rule_step(
                trace[i2].0,
                trace[i2].1,
                trace[i2 + 1].0,
                trace[i2 + 1].1,
            ) by {
                if i2 < tr0.len() - 1 {
                    assert(trace[i2] == tr0[i2]);
                    assert(trace[i2 + 1] == tr0[i2 + 1]);
                    assert(rule_step(tr0[i2].0, tr0[i2].1, tr0[i2 + 1].0, tr0[i2 + 1].1));
                } else {
                    assert(trace[i2] == (told, bold));
                    assert(trace[i2 + 1] == (*t, *basis));
                }
            }
            assert(trace.last() == (*t, *basis));
        }
        iter = iter + 1;
    }
    proof {
        assert(iter == limit);
        assert(iter as nat == spec_iteration_limit(old(t).spec_rows(), old(t).spec_cols()) as nat);
        assert(rule_reaches(*old(t), *old(basis), *t, *basis, iter as nat));
        assert(rule_reaches(
            *old(t),
            *old(basis),
            *t,
            *basis,
            spec_iteration_limit(old(t).spec_rows(), old(t).spec_cols()) as nat,
        ));
    }
    Err(SolveError::IterationLimitExceeded)
}

/// The values the tableau assigns to the problem's own variables: for a
/// column that is the basis column of some row, the right-hand side of the
/// first such row; zero for every other column.
pub open spec fn basis_value_ok(t: Tableau, basis: Basis, j: int, v: SpecRat) -> bool {
    if exists|r: int|
        0 <= r < basis.spec_columns().len() && (#[trigger] basis.spec_columns()[r]) == j {
        exists|r: int|
            0 <= r < basis.spec_columns().len() && (#[trigger] basis.spec_columns()[r]) == j && (
            forall|r2: int| 0 <= r2 < r ==> basis.spec_columns()[r2] != j) && v == t.at(
                r,
                t.spec_cols() - 1,
            )
    } else {
        v == rat_zero()
    }
}

/// The reported answer for an optimal tableau: one value per problem
/// variable, and the objective value, re-negated for a minimization.
pub struct Solution {
    /// Each problem variable with its value in the optimal assignment.
    pub variable_values: Vec<(Variable, Rat)>,
    /// The objective value of that assignment.
    pub objective_value: Rat,
}

/// Reads the solution out of an optimal tableau: each variable's value is
/// the right-hand side of the row it is basic in, or zero if it is
/// non-basic; the objective value is re-negated when the problem minimized.
pub fn extract_solution(p: &Problem, t: &Tableau, basis: &Basis, minimize: bool) -> (sol: Solution)
    requires
        t.wf(),
        t.spec_rows() >= 1,
        t.spec_cols() >= 1,
        basis.spec_columns().len() == t.spec_rows() - 1,
    ensures
        sol.variable_values@.len() == p.variables@.len(),
        forall|j: int|
            0 <= j < p.variables@.len() ==> (#[trigger] sol.variable_values@[j]).0
                == p.variables@[j],
        forall|j: int|
            0 <= j < p.variables@.len() ==> (#[trigger] sol.variable_values@[j]).1.wf(),
        forall|j: int|
            0 <= j < p.variables@.len() ==> basis_value_ok(
                *t,
                *basis,
                j,
                (#[trigger] sol.variable_values@[j]).1@,
            ),
        sol.objective_value.wf(),
        sol.objective_value@ == (if minimize {
            rat_neg(t.at(t.spec_rows() - 1, t.spec_cols() - 1))
        } else {
            t.at(t.spec_rows() - 1, t.spec_cols() - 1)
        }),
{
    let n = p.variables.len();
    let last = t.cols() - 1;
    let mut values: Vec<(Variable, Rat)> = Vec::new();
    let mut j: usize = 0;
    while j < n
        invariant
            j <= n,
            n == p.variables@.len(),
            t.wf(),
            t.spec_rows() >= 1,
            t.spec_cols() >= 1,
            last == t.spec_cols() - 1,
            basis.spec_columns().len() == t.spec_rows() - 1,
            values@.len() == j,
            forall|i: int| 0 <= i < j ==> (#[trigger] values@[i]).0 == p.variables@[i],
            forall|i: int| 0 <= i < j ==> (#[trigger] values@[i]).1.wf(),
            forall|i: int|
                0 <= i < j ==> basis_value_ok(*t, *basis, i, (#[trigger] values@[i]).1@),
        decreases n - j,
    {
        let mut value = Rat::zero();
        let mut found = false;
        let mut r: usize = 0;
        let rows1 = basis.len();
        while r < rows1
            invariant
                r <= rows1,
                rows1 == basis.spec_columns().len(),
                t.wf(),
                t.spec_rows() >= 1,
                t.spec_cols() >= 1,
                last == t.spec_cols() - 1,
                basis.spec_columns().len() == t.spec_rows() - 1,
                !found ==> forall|r2: int|
                    0 <= r2 < r ==> (#[trigger] basis.spec_columns()[r2]) != j,
                !found ==> value.wf() && value@ == rat_zero(),
                found ==> exists|r0: int|
                    0 <= r0 < r && (#[trigger] basis.spec_columns()[r0]) == j && (forall|r2: int|
                        0 <= r2 < r0 ==> basis.spec_columns()[r2] != j) && value.wf() && value@
                        == t.at(r0, t.spec_cols() - 1),
            decreases rows1 - r,
        {
            if !found {
                if basis.get(r) == j {
                    value = t.entry(r, last);
                    found = true;
                }
            }
            r = r + 1;
        }
        values.push((p.variables[j].duplicate(), value));
        proof {
            assert(basis_value_ok(*t, *basis, j as int, value@)) by {
                if found {
                } else {
                    assert(forall|r0: int|
                        0 <= r0 < basis.spec_columns().len()
                            ==> (#[trigger] basis.spec_columns()[r0]) != j);
                }
            }
        }
        j = j + 1;
    }
    let z = t.get_objective_value();
    let objective_value = if minimize {
        z.neg()
    } else {
        z
    };
    Solution { variable_values: values, objective_value }
}

/// How a solve ended: the legitimate outcomes of a linear program, each with
/// the final tableau it was read from.
pub enum SolveOutcome {
    /// An optimal assignment was found.
    Optimal {
        /// The assignment and objective value.
        solution: Solution,
        /// The final (feasible and optimal) tableau.
        tableau: Tableau,
    },
    /// The objective can improve without bound along the named column.
    Unbounded {
        /// The entering column no row could restrict.
        column: usize,
        /// The tableau at the moment unboundedness was discovered.
        tableau: Tableau,
    },
    /// No assignment satisfies the constraints: an artificial variable
    /// remained basic with a non-zero value at optimality.
    Infeasible {
        /// The final tableau of the Big-M run.
        tableau: Tableau,
        /// Its basis.
        basis: Basis,
        /// Which columns are artificial.
        artificial: Vec<bool>,
    },
}

/// Whether some constraint row is still solved for an artificial column
/// with a non-zero right-hand side: the Big-M infeasibility signal.
fn has_basic_artificial(t: &Tableau, basis: &Basis, artificial: &Vec<bool>) -> (r: bool)
    requires
        t.wf(),
        t.spec_rows() >= 1,
        t.spec_cols() >= 1,
        basis.spec_columns().len() == t.spec_rows() - 1,
        forall|i: int|
            0 <= i < t.spec_rows() - 1 ==> (#[trigger] basis.spec_columns()[i]) < t.spec_cols()
                - 1,
        artificial@.len() == t.spec_cols(),
    ensures
        r == exists|i: int|
            0 <= i < t.spec_rows() - 1 && artificial@[#[trigger] basis.spec_columns()[i] as int]
                && !rat_eq(t.at(i, t.spec_cols() - 1), rat_zero()),
{
    let rows1 = basis.len();
    let last = t.cols() - 1;
    let mut i: usize = 0;
    while i < rows1
        invariant
            i <= rows1,
            rows1 == basis.spec_columns().len(),
            t.wf(),
            t.spec_rows() >= 1,
            t.spec_cols() >= 1,
            last == t.spec_cols() - 1,
            basis.spec_columns().len() == t.spec_rows() - 1,
            forall|n: int|
                0 <= n < t.spec_rows() - 1 ==> (#[trigger] basis.spec_columns()[n])
                    < t.spec_cols() - 1,
            artificial@.len() == t.spec_cols(),
            forall|n: int|
                0 <= n < i ==> !(artificial@[#[trigger] basis.spec_columns()[n] as int] && !rat_eq(
                    t.at(n, t.spec_cols() - 1),
                    rat_zero(),
                )),
        decreases rows1 - i,
    {
        let b = basis.get(i);
        if artificial[b] {
            let v = t.entry(i, last);
            if !v.is_zero() {
                return true;
            }
        }
        i = i + 1;
    }
    false
}

/// The tableau is the result of running rule-conforming pivots, within the
/// iteration bound, from the standard form of the problem, with some final
/// basis.
pub open spec fn reached_tableau(p: Problem, tableau: Tableau) -> bool {
    exists|sf: StandardForm, b: Basis, n: nat|
        #![trigger rule_reaches(sf.tableau, sf.basis, tableau, b, n)]
        standard_form_ok(p, sf) && n <= spec_iteration_limit(
            sf.tableau.spec_rows(),
            sf.tableau.spec_cols(),
        ) && rule_reaches(sf.tableau, sf.basis, tableau, b, n)
}

/// The tableau is reached as in `reached_tableau`, its final basis holds no
/// artificial variable with a non-zero value, and the solution's values are
/// read from that basis.
pub open spec fn reached_optimal(p: Problem, tableau: Tableau, solution: Solution) -> bool {
    exists|sf: StandardForm, b: Basis, n: nat|
        #![trigger rule_reaches(sf.tableau, sf.basis, tableau, b, n)]
        standard_form_ok(p, sf) && n <= spec_iteration_limit(
            sf.tableau.spec_rows(),
            sf.tableau.spec_cols(),
        ) && rule_reaches(sf.tableau, sf.basis, tableau, b, n) && !infeasible_witness(
            tableau,
            b,
            sf.artificial@,
        ) && forall|j: int|
            0 <= j < p.variables@.len() ==> basis_value_ok(
                tableau,
                b,
                j,
                (#[trigger] solution.variable_values@[j]).1@,
            )
}

/// The tableau and basis are reached as in `reached_tableau`, and the
/// artificial flags are the standard form's own.
pub open spec fn reached_infeasible(
    p: Problem,
    tableau: Tableau,
    basis: Basis,
    artificial: Seq<bool>,
) -> bool {
    exists|sf: StandardForm, n: nat|
        #![trigger rule_reaches(sf.tableau, sf.basis, tableau, basis, n)]
        standard_form_ok(p, sf) && artificial == sf.artificial@ && n <= spec_iteration_limit(
            sf.tableau.spec_rows(),
            sf.tableau.spec_cols(),
        ) && rule_reaches(sf.tableau, sf.basis, tableau, basis, n)
}

/// What a successful solve guarantees of its outcome: the optimal tableau
/// is feasible and optimal with a non-negative value for every variable and
/// the (re-negated) objective value read off the tableau; an unbounded
/// outcome names a column that improves the objective with no row to stop
/// it; an infeasible outcome exhibits a basic artificial variable with a
/// non-zero value at optimality.
pub open spec fn solve_outcome_ok(p: Problem, outcome: SolveOutcome) -> bool {
    match outcome {
        SolveOutcome::Optimal { solution, tableau } => {
            &&& tableau.wf()
            &&& tableau.spec_rows() >= 1
            &&& tableau.spec_cols() >= 1
            &&& tableau.spec_feasible()
            &&& tableau.spec_optimal()
            &&& solution.variable_values@.len() == p.variables@.len()
            &&& forall|j: int|
                0 <= j < p.variables@.len() ==> (#[trigger] solution.variable_values@[j]).0
                    == p.variables@[j]
            &&& forall|j: int|
                0 <= j < p.variables@.len() ==> (#[trigger] solution.variable_values@[j]).1.wf()
                    && rat_le(rat_zero(), solution.variable_values@[j].1@)
            &&& solution.objective_value.wf()
            &&& solution.objective_value@ == (if p.objective.objective_type
                == ObjectiveType::Minimize {
                rat_neg(tableau.at(tableau.spec_rows() - 1, tableau.spec_cols() - 1))
            } else {
                tableau.at(tableau.spec_rows() - 1, tableau.spec_cols() - 1)
            })
            &&& reached_optimal(p, tableau, solution)
        },
        SolveOutcome::Unbounded { column, tableau } => {
            &&& tableau.wf()
            &&& tableau.spec_rows() >= 1
            &&& tableau.spec_cols() >= 1
            &&& tableau.spec_feasible()
            &&& (column as int) < tableau.spec_cols() - 1
            &&& rat_lt(tableau.at(tableau.spec_rows() - 1, column as int), rat_zero())
            &&& forall|i: int|
                0 <= i < tableau.spec_rows() - 1 ==> !rat_lt(
                    rat_zero(),
                    #[trigger] tableau.at(i, column as int),
                )
            &&& reached_tableau(p, tableau)
        },
        SolveOutcome::Infeasible { tableau, basis, artificial } => {
            &&& tableau.wf()
            &&& tableau.spec_rows() >= 1
            &&& tableau.spec_cols() >= 1
            &&& tableau.spec_feasible()
            &&& tableau.spec_optimal()
            &&& infeasible_witness(tableau, basis, artificial@)
            &&& reached_infeasible(p, tableau, basis, artificial@)
        },
    }
}

/// Some constraint row is solved for an artificial column whose value is
/// not zero: the Big-M run could not drive every artificial variable out.
pub open spec fn infeasible_witness(t: Tableau, basis: Basis, artificial: Seq<bool>) -> bool {
    exists|i: int|
        0 <= i < t.spec_rows() - 1 && artificial[#[trigger] basis.spec_columns()[i] as int]
            && !rat_eq(t.at(i, t.spec_cols() - 1), rat_zero())
}

/// What a failed solve guarantees of its error: an unknown variable is only
/// reported when the problem really is not covered by its variable set;
/// the other errors concern machine limits or the iteration bound, never
/// the linear program itself.
pub open spec fn solve_error_ok(p: Problem, e: SolveError) -> bool {
    match e {
        SolveError::Transform(te) => (te == TransformError::UnknownVariableReference
            && !crate::problem::problem_covers(p)) || (te == TransformError::ArithmeticOverflow
            && crate::problem::problem_covers(p) && !transform_fits(p)),
        SolveError::IterationLimitExceeded => exists|sf: StandardForm, ft: Tableau, fb: Basis|
            #![trigger rule_reaches(sf.tableau, sf.basis, ft, fb, spec_iteration_limit(sf.tableau.spec_rows(), sf.tableau.spec_cols()) as nat)]
            standard_form_ok(p, sf) && rule_reaches(
                sf.tableau,
                sf.basis,
                ft,
                fb,
                spec_iteration_limit(sf.tableau.spec_rows(), sf.tableau.spec_cols()) as nat,
            ),
        SolveError::ArithmeticOverflow => exists|sf: StandardForm, ft: Tableau, fb: Basis, n: nat|
            #![trigger rule_reaches(sf.tableau, sf.basis, ft, fb, n)]
            standard_form_ok(p, sf) && n <= spec_iteration_limit(
                sf.tableau.spec_rows(),
                sf.tableau.spec_cols(),
            ) && rule_reaches(sf.tableau, sf.basis, ft, fb, n) && step_overflow(ft, fb),
    }
}

/// Solves a linear program with the tableau simplex method: transformation
/// to standard form, repeated Big-M pivoting, infeasibility detection, and
/// solution extraction.  `Unbounded` and `Infeasible` are legitimate
/// outcomes, reported with the tableau that witnesses them; errors mean the
/// input or the machine representation was exhausted, never a property of
/// the program itself.
pub fn solve(p: &Problem) -> (r: Result<SolveOutcome, SolveError>)
    requires
        crate::problem::problem_wf(*p),
    ensures
        match r {
            Ok(outcome) => crate::problem::problem_covers(*p) && solve_outcome_ok(*p, outcome),
            Err(e) => solve_error_ok(*p, e),
        },
{
    let sf = match transform(p) {
        Ok(sf) => sf,
        Err(e) => {
            return Err(SolveError::Transform(e));
        },
    };
    let ghost sf0 = sf;
    let StandardForm { tableau: mut tableau, basis: mut basis, artificial, minimize, num_variables } =
        sf;
    let ghost t0 = tableau;
    let ghost b0 = basis;
    proof {
        let cs = p.constraints@;
        let k = cs.len() as int;
        lemma_aux_offset_mono(cs, 0, k);
        assert(simplex_inv(tableau, basis));
    }
    match run_simplex(&mut tableau, &mut basis) {
        Err(e) => {
            proof {
                let n0 = choose|n: nat|
                    n <= spec_iteration_limit(t0.spec_rows(), t0.spec_cols())
                        && #[trigger] rule_reaches(t0, b0, tableau, basis, n);
                assert(rule_reaches(sf0.tableau, sf0.basis, tableau, basis, n0));
                if e == SolveError::IterationLimitExceeded {
                    assert(rule_reaches(
                        sf0.tableau,
                        sf0.basis,
                        tableau,
                        basis,
                        spec_iteration_limit(sf0.tableau.spec_rows(), sf0.tableau.spec_cols()) as nat,
                    ));
                }
                assert(solve_error_ok(*p, e));
            }
            Err(e)
        },
        Ok(SimplexStatus::Unbounded { column }) => {
            proof {
                let n0 = choose|n: nat|
                    n <= spec_iteration_limit(t0.spec_rows(), t0.spec_cols())
                        && #[trigger] rule_reaches(t0, b0, tableau, basis, n);
                assert(rule_reaches(sf0.tableau, sf0.basis, tableau, basis, n0));
                assert(n0 <= spec_iteration_limit(
                    sf0.tableau.spec_rows(),
                    sf0.tableau.spec_cols(),
                ));
                assert(reached_tableau(*p, tableau));
            }
            let out = SolveOutcome::Unbounded { column, tableau };
            proof {
                assert(solve_outcome_ok(*p, out));
            }
            Ok(out)
        },
        Ok(SimplexStatus::Optimal) => {
            proof {
                let n0 = choose|n: nat|
                    n <= spec_iteration_limit(t0.spec_rows(), t0.spec_cols())
                        && #[trigger] rule_reaches(t0, b0, tableau, basis, n);
                assert(rule_reaches(sf0.tableau, sf0.basis, tableau, basis, n0));
            }
            if has_basic_artificial(&tableau, &basis, &artificial) {
                proof {
                    assert(infeasible_witness(tableau, basis, artificial@));
                    assert(artificial@ == sf0.artificial@);
                    let n0 = choose|n: nat|
                        n <= spec_iteration_limit(t0.spec_rows(), t0.spec_cols())
                            && #[trigger] rule_reaches(t0, b0, tableau, basis, n);
                    assert(standard_form_ok(*p, sf0));
                    assert(rule_reaches(sf0.tableau, sf0.basis, tableau, basis, n0));
                    assert(n0 <= spec_iteration_limit(
                        sf0.tableau.spec_rows(),
                        sf0.tableau.spec_cols(),
                    ));
                    assert(reached_infeasible(*p, tableau, basis, artificial@));
                }
                let out = SolveOutcome::Infeasible { tableau, basis, artificial };
                proof {
                    assert(solve_outcome_ok(*p, out));
                }
                Ok(out)
            } else {
                let solution = extract_solution(p, &tableau, &basis, minimize);
                proof {
                    assert forall|j: int| 0 <= j < p.variables@.len() implies rat_le(
                        rat_zero(),
                        (#[trigger] solution.variable_values@[j]).1@,
                    ) by {
                        assert(basis_value_ok(tableau, basis, j, solution.variable_values@[j].1@));
                        if exists|r: int|
                            0 <= r < basis.spec_columns().len() && (
                            #[trigger] basis.spec_columns()[r]) == j {
                            let r0 = choose|r0: int|
                                0 <= r0 < basis.spec_columns().len() && (
                                #[trigger] basis.spec_columns()[r0]) == j && (forall|r2: int|
                                    0 <= r2 < r0 ==> basis.spec_columns()[r2] != j)
                                    && solution.variable_values@[j].1@ == tableau.at(
                                    r0,
                                    tableau.spec_cols() - 1,
                                );
                            assert(rat_le(rat_zero(), tableau.at(r0, tableau.spec_cols() - 1)));
                        }
                    }
                }
                proof {
                    assert(!infeasible_witness(tableau, basis, artificial@));
                    assert(artificial@ == sf0.artificial@);
                    let n0 = choose|n: nat|
                        n <= spec_iteration_limit(t0.spec_rows(), t0.spec_cols())
                            && #[trigger] rule_reaches(t0, b0, tableau, basis, n);
                    assert(standard_form_ok(*p, sf0));
                    assert(rule_reaches(sf0.tableau, sf0.basis, tableau, basis, n0));
                    assert(n0 <= spec_iteration_limit(
                        sf0.tableau.spec_rows(),
                        sf0.tableau.spec_cols(),
                    ));
                    assert(!infeasible_witness(tableau, basis, sf0.artificial@));
                    assert(reached_optimal(*p, tableau, solution));
                }
                let out = SolveOutcome::Optimal { solution, tableau };
                proof {
                    assert(solve_outcome_ok(*p, out));
                }
                Ok(out)
            }
        },
    }
}

} // verus!

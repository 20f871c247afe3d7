//! The standard-form transformation: a symbolic problem becomes an initial
//! simplex tableau with all constraints as equalities, non-negative
//! right-hand sides, slack, surplus and artificial columns, a starting
//! basis, and a Big-M objective row normalized to maximization.

use crate::problem::{
    seq_contains_name, vars_unique, Constraint, LinearTerm, ObjectiveType, Problem, Relation,
    Variable,
};
use crate::rational::{
    lemma_rat_mul_int, lemma_rat_sub_int, rat_add, rat_eq, rat_fits, rat_le, rat_lt, rat_mul,
    rat_neg, rat_one, rat_sub, rat_zero, Rat, SpecRat,
};
use crate::render::decimal_string;
use crate::tableau::{is_identity_col, Basis, Tableau};
use vstd::prelude::*;

verus! {

/// Errors of the standard-form transformation.
#[derive(Clone, Copy, Debug, PartialEq, Eq, Structural)]
pub enum TransformError {
    /// A term's variable is not in the problem's variable set.
    UnknownVariableReference,
    /// Row or column bookkeeping disagrees with the declared counts.
    DimensionMismatch,
    /// An exact rational or a count no longer fits its machine type.
    ArithmeticOverflow,
}

/// How a constraint is brought to equality form, after its right-hand side
/// has been made non-negative.
#[derive(Clone, Copy, Debug, PartialEq, Eq, Structural)]
pub enum ConClass {
    /// A `<=`-shaped row: one slack column, which seeds the basis.
    Le,
    /// A `>=`-shaped row: one surplus column and one artificial column; the
    /// artificial column seeds the basis.
    Ge,
    /// An `=` row: one artificial column, which seeds the basis.
    Eq,
}

/// Whether the whole row must be negated to make its right-hand side
/// non-negative.
pub open spec fn spec_flip(c: Constraint) -> bool {
    rat_lt(c.rhs@, rat_zero())
}

/// The class of a constraint: its relation, with strict relations treated as
/// their non-strict counterparts, mirrored when the row is negated.
pub open spec fn spec_class(c: Constraint) -> ConClass {
    let base = match c.relation {
        Relation::LessThanOrEqual => ConClass::Le,
        Relation::LessThan => ConClass::Le,
        Relation::GreaterThanOrEqual => ConClass::Ge,
        Relation::GreaterThan => ConClass::Ge,
        Relation::Equal => ConClass::Eq,
    };
    if spec_flip(c) {
        match base {
            ConClass::Le => ConClass::Ge,
            ConClass::Ge => ConClass::Le,
            ConClass::Eq => ConClass::Eq,
        }
    } else {
        base
    }
}

/// How many auxiliary columns a constraint of the given class needs.
pub open spec fn aux_count(cl: ConClass) -> int {
    match cl {
        ConClass::Le => 1,
        ConClass::Ge => 2,
        ConClass::Eq => 1,
    }
}

/// How many auxiliary columns the first `i` constraints need together: the
/// auxiliary columns of constraint `i` start at variable count plus this.
pub open spec fn aux_offset(cs: Seq<Constraint>, i: int) -> int
    decreases i,
{
    if i <= 0 {
        0
    } else {
        aux_offset(cs, i - 1) + aux_count(spec_class(cs[i - 1]))
    }
}

/// Offsets grow with the row, by the row's own count.
pub proof fn lemma_aux_offset_mono(cs: Seq<Constraint>, i: int, j: int)
    requires
        0 <= i <= j,
    ensures
        aux_offset(cs, i) <= aux_offset(cs, j),
    decreases j - i,
{
    if i < j {
        lemma_aux_offset_mono(cs, i, j - 1);
    }
}

/// The coefficient accumulated over `terms` for the variable called `name`,
/// starting from `acc`: terms on other variables are skipped, terms on this
/// variable are added in order.
pub open spec fn accum_coeff(acc: SpecRat, terms: Seq<LinearTerm>, name: Seq<char>) -> SpecRat
    decreases terms.len(),
{
    if terms.len() == 0 {
        acc
    } else {
        accum_coeff(
            if terms[0].variable.name@ == name {
                rat_add(acc, terms[0].coefficient@)
            } else {
                acc
            },
            terms.drop_first(),
            name,
        )
    }
}

/// Accumulating over one more term adds its coefficient when the name
/// matches and changes nothing otherwise.
pub proof fn lemma_accum_snoc(acc: SpecRat, s: Seq<LinearTerm>, t: LinearTerm, name: Seq<char>)
    ensures
        accum_coeff(acc, s.push(t), name) == (if t.variable.name@ == name {
            rat_add(accum_coeff(acc, s, name), t.coefficient@)
        } else {
            accum_coeff(acc, s, name)
        }),
    decreases s.len(),
{
    if s.len() == 0 {
        assert(s.push(t).drop_first() =~= Seq::<LinearTerm>::empty());
        assert(s.push(t)[0] == t);
        let acc2 = if t.variable.name@ == name {
            rat_add(acc, t.coefficient@)
        } else {
            acc
        };
        assert(accum_coeff(acc2, Seq::<LinearTerm>::empty(), name) == acc2);
        assert(accum_coeff(acc, s.push(t), name) == accum_coeff(
            acc2,
            s.push(t).drop_first(),
            name,
        ));
        assert(accum_coeff(acc, s, name) == acc);
    } else {
        assert(s.push(t)[0] == s[0]);
        assert(s.push(t).drop_first() =~= s.drop_first().push(t));
        let acc2 = if s[0].variable.name@ == name {
            rat_add(acc, s[0].coefficient@)
        } else {
            acc
        };
        assert(accum_coeff(acc, s.push(t), name) == accum_coeff(
            acc2,
            s.drop_first().push(t),
            name,
        ));
        assert(accum_coeff(acc, s, name) == accum_coeff(acc2, s.drop_first(), name));
        lemma_accum_snoc(acc2, s.drop_first(), t, name);
    }
}

/// Every running coefficient sum over `terms` fits the machine
/// representation: adding term `t`'s coefficient to the sum, over the
/// preceding terms, of its own variable's coefficients stays representable.
pub open spec fn sums_fit(terms: Seq<LinearTerm>) -> bool {
    forall|t: int|
        0 <= t < terms.len() ==> #[trigger] rat_fits(
            rat_add(coeff_sum(terms.take(t), terms[t].variable.name@), terms[t].coefficient@),
        )
}

/// The summed coefficient of the variable called `name` over `terms`.
pub open spec fn coeff_sum(terms: Seq<LinearTerm>, name: Seq<char>) -> SpecRat {
    accum_coeff(rat_zero(), terms, name)
}

/// The tableau coefficient of the named variable in a constraint row: the
/// summed coefficient, negated when the row is flipped.
pub open spec fn spec_row_coeff(c: Constraint, name: Seq<char>) -> SpecRat {
    if spec_flip(c) {
        rat_neg(coeff_sum(c.expression.terms@, name))
    } else {
        coeff_sum(c.expression.terms@, name)
    }
}

/// The tableau right-hand side of a constraint row: the constant, negated
/// when the row is flipped, hence never negative.
pub open spec fn spec_row_rhs(c: Constraint) -> SpecRat {
    if spec_flip(c) {
        rat_neg(c.rhs@)
    } else {
        c.rhs@
    }
}

/// The entry of a constraint row in an auxiliary column, when the row's own
/// auxiliary columns start at `start`: one for its slack or artificial
/// column, minus one for its surplus column, zero elsewhere.
pub open spec fn aux_entry(cl: ConClass, start: int, j: int) -> SpecRat {
    match cl {
        ConClass::Le => if j == start {
            rat_one()
        } else {
            rat_zero()
        },
        ConClass::Ge => if j == start {
            (-1int, 1int)
        } else if j == start + 1 {
            rat_one()
        } else {
            rat_zero()
        },
        ConClass::Eq => if j == start {
            rat_one()
        } else {
            rat_zero()
        },
    }
}

/// The column of the problem's variable named like `v`, if there is one.
fn find_column(vars: &Vec<Variable>, v: &Variable) -> (r: Option<usize>)
    ensures
        match r {
            Some(k) => k < vars@.len() && vars@[k as int].name@ == v.name@,
            None => !seq_contains_name(vars@, v.name@),
        },
{
    let mut k: usize = 0;
    while k < vars.len()
        invariant
            k <= vars@.len(),
            forall|i: int| 0 <= i < k ==> (#[trigger] vars@[i]).name@ != v.name@,
        decreases vars@.len() - k,
    {
        if vars[k].same_as(v) {
            return Some(k);
        }
        k = k + 1;
    }
    None
}

/// Whether every term of the problem's constraints and objective refers to a
/// variable of the problem's variable set.
fn coverage_ok(p: &Problem) -> (r: bool)
    ensures
        r == crate::problem::problem_covers(*p),
{
    let mut ci: usize = 0;
    while ci < p.constraints.len()
        invariant
            ci <= p.constraints@.len(),
            forall|i: int, k: int|
                0 <= i < ci && 0 <= k < p.constraints@[i].expression.terms@.len()
                    ==> seq_contains_name(
                    p.variables@,
                    (#[trigger] p.constraints@[i].expression.terms@[k]).variable.name@,
                ),
        decreases p.constraints@.len() - ci,
    {
        let terms = &p.constraints[ci].expression.terms;
        let mut ti: usize = 0;
        while ti < terms.len()
            invariant
                ti <= terms@.len(),
                ci < p.constraints@.len(),
                terms@ == p.constraints@[ci as int].expression.terms@,
                forall|k: int|
                    0 <= k < ti ==> seq_contains_name(
                        p.variables@,
                        (#[trigger] terms@[k]).variable.name@,
                    ),
            decreases terms@.len() - ti,
        {
            match find_column(&p.variables, &terms[ti].variable) {
                Some(_) => {
                    proof {
                        let tn = terms@[ti as int].variable.name@;
                        let k = choose|k: usize|
                            k < p.variables@.len() && p.variables@[k as int].name@ == tn;
                        assert(p.variables@[k as int].name@ == tn);
                    }
                },
                None => {
                    proof {
                        assert(!crate::problem::problem_covers(*p)) by {
                            if crate::problem::problem_covers(*p) {
                                assert(seq_contains_name(
                                    p.variables@,
                                    p.constraints@[ci as int].expression.terms@[ti as int].variable.name@,
                                ));
                            }
                        }
                    }
                    return false;
                },
            }
            ti = ti + 1;
        }
        ci = ci + 1;
    }
    let terms = &p.objective.expression.terms;
    let mut ti: usize = 0;
    while ti < terms.len()
        invariant
            ti <= terms@.len(),
            terms@ == p.objective.expression.terms@,
            crate::problem::problem_covers(*p) == (forall|k: int|
                0 <= k < terms@.len() ==> seq_contains_name(
                    p.variables@,
                    (#[trigger] terms@[k]).variable.name@,
                )),
            forall|k: int|
                0 <= k < ti ==> seq_contains_name(
                    p.variables@,
                    (#[trigger] terms@[k]).variable.name@,
                ),
        decreases terms@.len() - ti,
    {
        match find_column(&p.variables, &terms[ti].variable) {
            Some(_) => {
                proof {
                    let tn = terms@[ti as int].variable.name@;
                    let k = choose|k: usize|
                        k < p.variables@.len() && p.variables@[k as int].name@ == tn;
                    assert(p.variables@[k as int].name@ == tn);
                }
            },
            None => {
                proof {
                    assert(!crate::problem::problem_covers(*p)) by {
                        if crate::problem::problem_covers(*p) {
                            assert(seq_contains_name(
                                p.variables@,
                                p.objective.expression.terms@[ti as int].variable.name@,
                            ));
                        }
                    }
                }
                return false;
            },
        }
        ti = ti + 1;
    }
    true
}

/// The class of a constraint, as executed.
fn class_of(c: &Constraint) -> (cl: ConClass)
    requires
        c.rhs.wf(),
    ensures
        cl == spec_class(*c),
{
    let base = match c.relation {
        Relation::LessThanOrEqual => ConClass::Le,
        Relation::LessThan => ConClass::Le,
        Relation::GreaterThanOrEqual => ConClass::Ge,
        Relation::GreaterThan => ConClass::Ge,
        Relation::Equal => ConClass::Eq,
    };
    if c.rhs.is_neg() {
        match base {
            ConClass::Le => ConClass::Ge,
            ConClass::Ge => ConClass::Le,
            ConClass::Eq => ConClass::Eq,
        }
    } else {
        base
    }
}

/// The dense coefficient vector of `terms` over the problem's variables:
/// entry `j` is the sum, in term order, of the coefficients on variable `j`.
/// Fails exactly when some running sum leaves the machine representation.
fn sum_into(vars: &Vec<Variable>, terms: &Vec<LinearTerm>) -> (r: Result<Vec<Rat>, TransformError>)
    requires
        vars_unique(vars@),
        forall|k: int| 0 <= k < terms@.len() ==> (#[trigger] terms@[k]).coefficient.wf(),
        forall|k: int|
            0 <= k < terms@.len() ==> seq_contains_name(
                vars@,
                (#[trigger] terms@[k]).variable.name@,
            ),
    ensures
        match r {
            Ok(row) => row@.len() == vars@.len() && sums_fit(terms@) && forall|j: int|
                0 <= j < vars@.len() ==> (#[trigger] row@[j]).wf() && row@[j]@ == coeff_sum(
                    terms@,
                    vars@[j].name@,
                ),
            Err(e) => e == TransformError::ArithmeticOverflow && !sums_fit(terms@),
        },
{
    let n = vars.len();
    let mut row: Vec<Rat> = Vec::new();
    let mut j: usize = 0;
    while j < n
        invariant
            j <= n,
            n == vars@.len(),
            row@.len() == j,
            forall|i: int| 0 <= i < j ==> (#[trigger] row@[i]).wf() && row@[i]@ == rat_zero(),
        decreases n - j,
    {
        row.push(Rat::zero());
        j = j + 1;
    }
    let mut ti: usize = 0;
    proof {
        assert(terms@.take(0) =~= Seq::<LinearTerm>::empty());
        assert forall|j2: int| 0 <= j2 < n implies #[trigger] row@[j2]@ == coeff_sum(
            terms@.take(0),
            vars@[j2].name@,
        ) by {
            assert(coeff_sum(Seq::<LinearTerm>::empty(), vars@[j2].name@) == rat_zero());
        }
    }
    while ti < terms.len()
        invariant
            ti <= terms@.len(),
            n == vars@.len(),
            vars_unique(vars@),
            row@.len() == n,
            forall|k: int| 0 <= k < terms@.len() ==> (#[trigger] terms@[k]).coefficient.wf(),
            forall|k: int|
                0 <= k < terms@.len() ==> seq_contains_name(
                    vars@,
                    (#[trigger] terms@[k]).variable.name@,
                ),
            forall|j2: int|
                0 <= j2 < n ==> (#[trigger] row@[j2]).wf() && row@[j2]@ == coeff_sum(
                    terms@.take(ti as int),
                    vars@[j2].name@,
                ),
            forall|t: int|
                0 <= t < ti ==> #[trigger] rat_fits(
                    rat_add(
                        coeff_sum(terms@.take(t), terms@[t].variable.name@),
                        terms@[t].coefficient@,
                    ),
                ),
        decreases terms@.len() - ti,
    {
        let jt = match find_column(vars, &terms[ti].variable) {
            Some(k) => k,
            None => {
                proof {
                    assert(seq_contains_name(vars@, terms@[ti as int].variable.name@));
                    assert(false);
                }
                return Err(TransformError::ArithmeticOverflow);
            },
        };
        let ghost row0 = row@;
        let cur = row[jt];
        let updated = match cur.checked_add(&terms[ti].coefficient) {
            Some(v) => v,
            None => {
                proof {
                    assert(!rat_fits(
                        rat_add(
                            coeff_sum(terms@.take(ti as int), terms@[ti as int].variable.name@),
                            terms@[ti as int].coefficient@,
                        ),
                    ));
                    assert(!sums_fit(terms@));
                }
                return Err(TransformError::ArithmeticOverflow);
            },
        };
        row.set(jt, updated);
        proof {
            assert(terms@.take(ti as int).push(terms@[ti as int]) =~= terms@.take(ti as int + 1));
            assert forall|j2: int| 0 <= j2 < n implies (#[trigger] row@[j2]).wf() && row@[j2]@
                == coeff_sum(terms@.take(ti as int + 1), vars@[j2].name@) by {
                lemma_accum_snoc(
                    rat_zero(),
                    terms@.take(ti as int),
                    terms@[ti as int],
                    vars@[j2].name@,
                );
                if j2 == jt {
                    assert(row@[j2]@ == rat_add(row0[j2]@, terms@[ti as int].coefficient@));
                } else {
                    assert(vars@[j2].name@ != vars@[jt as int].name@);
                    assert(row@[j2] == row0[j2]);
                }
            }
        }
        ti = ti + 1;
    }
    proof {
        assert(terms@.take(terms@.len() as int) =~= terms@);
    }
    Ok(row)
}

/// The prepared tableau row for constraint `i` of problem `p`: variable
/// columns hold the (sign-fixed) summed coefficients, the row's own
/// auxiliary columns its slack, surplus or artificial entries, every other
/// auxiliary column zero, and the last column the non-negative right-hand
/// side.
pub open spec fn row_ok(p: Problem, i: int, row: Seq<Rat>, cols: int) -> bool {
    let n = p.variables@.len() as int;
    let c = p.constraints@[i];
    let cl = spec_class(c);
    let start = n + aux_offset(p.constraints@, i);
    &&& row.len() == cols
    &&& forall|j: int|
        0 <= j < n ==> (#[trigger] row[j]).wf() && row[j]@ == spec_row_coeff(
            c,
            p.variables@[j].name@,
        )
    &&& forall|j: int|
        n <= j < cols - 1 ==> (#[trigger] row[j]).wf() && row[j]@ == aux_entry(cl, start, j)
    &&& row[cols - 1].wf()
    &&& row[cols - 1]@ == spec_row_rhs(c)
    &&& rat_le(rat_zero(), spec_row_rhs(c))
}

/// Builds one constraint row: coefficient sums over the variable columns
/// (the whole row negated when the right-hand side is negative), the class's
/// entries in its own auxiliary columns, and the right-hand side last.
/// Returns the row, its basis column, and whether that column is artificial.
fn build_row(vars: &Vec<Variable>, c: &Constraint, cols: usize, aux_start: usize) -> (r: Result<
    (Vec<Rat>, usize, bool),
    TransformError,
>)
    requires
        vars_unique(vars@),
        crate::problem::constraint_wf(*c),
        forall|k: int|
            0 <= k < c.expression.terms@.len() ==> seq_contains_name(
                vars@,
                (#[trigger] c.expression.terms@[k]).variable.name@,
            ),
        vars@.len() <= aux_start,
        aux_start + aux_count(spec_class(*c)) <= cols - 1,
    ensures
        match r {
            Ok((row, b, art)) => {
                let n = vars@.len() as int;
                let cl = spec_class(*c);
                &&& row@.len() == cols
                &&& forall|j: int|
                    0 <= j < n ==> (#[trigger] row@[j]).wf() && row@[j]@ == spec_row_coeff(
                        *c,
                        vars@[j].name@,
                    )
                &&& forall|j: int|
                    n <= j < cols - 1 ==> (#[trigger] row@[j]).wf() && row@[j]@ == aux_entry(
                        cl,
                        aux_start as int,
                        j,
                    )
                &&& row@[cols - 1].wf()
                &&& row@[cols - 1]@ == spec_row_rhs(*c)
                &&& rat_le(rat_zero(), spec_row_rhs(*c))
                &&& b == aux_start + (if cl == ConClass::Ge {
                    1int
                } else {
                    0int
                })
                &&& art == (cl != ConClass::Le)
                &&& sums_fit(c.expression.terms@)
            },
            Err(e) => e == TransformError::ArithmeticOverflow && !sums_fit(c.expression.terms@),
        },
{
    let n = vars.len();
    let sums = match sum_into(vars, &c.expression.terms) {
        Ok(v) => v,
        Err(e) => {
            return Err(e);
        },
    };
    let flip = c.rhs.is_neg();
    let mut row: Vec<Rat> = Vec::new();
    let mut j: usize = 0;
    while j < n
        invariant
            j <= n,
            n == vars@.len(),
            flip == spec_flip(*c),
            sums@.len() == n,
            forall|i: int|
                0 <= i < n ==> (#[trigger] sums@[i]).wf() && sums@[i]@ == coeff_sum(
                    c.expression.terms@,
                    vars@[i].name@,
                ),
            row@.len() == j,
            forall|i: int|
                0 <= i < j ==> (#[trigger] row@[i]).wf() && row@[i]@ == spec_row_coeff(
                    *c,
                    vars@[i].name@,
                ),
        decreases n - j,
    {
        if flip {
            row.push(sums[j].neg());
        } else {
            row.push(sums[j]);
        }
        j = j + 1;
    }
    while row.len() < cols - 1
        invariant
            n == vars@.len(),
            n <= cols - 1,
            n <= row@.len() <= cols - 1,
            flip == spec_flip(*c),
            forall|i: int|
                0 <= i < n ==> (#[trigger] row@[i]).wf() && row@[i]@ == spec_row_coeff(
                    *c,
                    vars@[i].name@,
                ),
            forall|i: int|
                n <= i < row@.len() ==> (#[trigger] row@[i]).wf() && row@[i]@ == rat_zero(),
        decreases cols - 1 - row@.len(),
    {
        row.push(Rat::zero());
    }
    let cl = class_of(c);
    let ghost before = row@;
    match cl {
        ConClass::Le => {
            row.set(aux_start, Rat::one());
        },
        ConClass::Ge => {
            row.set(aux_start, Rat::from_int(-1));
            row.set(aux_start + 1, Rat::one());
        },
        ConClass::Eq => {
            row.set(aux_start, Rat::one());
        },
    }
    let rhs_v = if flip {
        c.rhs.neg()
    } else {
        c.rhs
    };
    row.push(rhs_v);
    let b = if matches!(cl, ConClass::Ge) {
        aux_start + 1
    } else {
        aux_start
    };
    let art = !matches!(cl, ConClass::Le);
    proof {
        assert forall|i: int| n <= i < cols - 1 implies (#[trigger] row@[i]).wf() && row@[i]@
            == aux_entry(cl, aux_start as int, i) by {
            assert(before[i].wf() && before[i]@ == rat_zero());
        }
    }
    Ok((row, b, art))
}

/// The basis column seeded for constraint row `r`: its slack column, or its
/// artificial column when the row has one.
pub open spec fn spec_basis_col(cs: Seq<Constraint>, n: int, r: int) -> int {
    n + aux_offset(cs, r) + (if spec_class(cs[r]) == ConClass::Ge {
        1int
    } else {
        0int
    })
}

/// Whether column `j` is the artificial column of one of the first `upto`
/// constraint rows.
pub open spec fn spec_is_artificial_col(cs: Seq<Constraint>, n: int, j: int, upto: int) -> bool {
    exists|r: int|
        0 <= r < upto && spec_class(#[trigger] cs[r]) != ConClass::Le && j == spec_basis_col(
            cs,
            n,
            r,
        )
}

/// Entry `(i, j)` of constraint row `i` of the standard-form tableau: the
/// sign-fixed coefficient sum over the variable columns, the slack, surplus
/// or artificial pattern over the auxiliary columns, and the non-negative
/// right-hand side last.
pub open spec fn spec_row_entry(p: Problem, i: int, j: int) -> SpecRat {
    let n = p.variables@.len() as int;
    let cs = p.constraints@;
    let cols = n + aux_offset(cs, cs.len() as int) + 1;
    if j < n {
        spec_row_coeff(cs[i], p.variables@[j].name@)
    } else if j < cols - 1 {
        aux_entry(spec_class(cs[i]), n + aux_offset(cs, i), j)
    } else {
        spec_row_rhs(cs[i])
    }
}

/// Entry `j` of the objective row before Big-M elimination: the negated
/// maximize-normalized coefficient over the variable columns, the Big-M
/// penalty on artificial columns, zero elsewhere.
pub open spec fn spec_obj_base(p: Problem, j: int) -> SpecRat {
    let n = p.variables@.len() as int;
    let cs = p.constraints@;
    let k = cs.len() as int;
    let cols = n + aux_offset(cs, k) + 1;
    if j < n {
        if p.objective.objective_type == ObjectiveType::Maximize {
            rat_neg(coeff_sum(p.objective.expression.terms@, p.variables@[j].name@))
        } else {
            coeff_sum(p.objective.expression.terms@, p.variables@[j].name@)
        }
    } else if j < cols - 1 {
        if spec_is_artificial_col(cs, n, j, k) {
            (BIG_M_NUMERATOR as int, 1int)
        } else {
            (0int, 1int)
        }
    } else {
        (0int, 1int)
    }
}

/// Entry `j` of the objective row after the Big-M entries of the first `r`
/// rows' artificial columns have been eliminated: each row with an
/// artificial column subtracts the penalty times its own row.
pub open spec fn spec_obj_primed(p: Problem, r: int, j: int) -> SpecRat
    decreases r,
{
    if r <= 0 {
        spec_obj_base(p, j)
    } else if spec_class(p.constraints@[r - 1]) != ConClass::Le {
        rat_sub(
            spec_obj_primed(p, r - 1, j),
            rat_mul((BIG_M_NUMERATOR as int, 1int), spec_row_entry(p, r - 1, j)),
        )
    } else {
        spec_obj_primed(p, r - 1, j)
    }
}

/// Every rational the Big-M elimination computes fits the machine
/// representation.
pub open spec fn priming_fits(p: Problem) -> bool {
    let cs = p.constraints@;
    let k = cs.len() as int;
    let cols = p.variables@.len() as int + aux_offset(cs, k) + 1;
    forall|r: int, j: int|
        0 <= r < k && spec_class(cs[r]) != ConClass::Le && 0 <= j < cols ==> rat_fits(
            rat_mul((BIG_M_NUMERATOR as int, 1int), #[trigger] spec_row_entry(p, r, j)),
        ) && rat_fits(
            rat_sub(
                spec_obj_primed(p, r, j),
                rat_mul((BIG_M_NUMERATOR as int, 1int), spec_row_entry(p, r, j)),
            ),
        )
}

/// Every machine bound the transformation relies on holds: the column
/// counts fit a machine word, every intermediate coefficient sum fits, and
/// every Big-M elimination step fits.  On a covered problem within these
/// bounds the transformation succeeds.
pub open spec fn transform_fits(p: Problem) -> bool {
    let cs = p.constraints@;
    let n = p.variables@.len() as int;
    let k = cs.len() as int;
    &&& k < usize::MAX - 1
    &&& forall|i: int| 0 <= i < k ==> #[trigger] aux_offset(cs, i) <= usize::MAX - 2
    &&& n + aux_offset(cs, k) + 1 <= usize::MAX
    &&& forall|i: int| 0 <= i < k ==> sums_fit((#[trigger] cs[i]).expression.terms@)
    &&& sums_fit(p.objective.expression.terms@)
    &&& priming_fits(p)
}

/// The Big-M penalty written on every artificial column of the objective
/// row: large enough to drive artificial variables out of the basis for
/// problems with moderate data.
pub const BIG_M_NUMERATOR: i64 = 1000000;

/// An initial simplex tableau with its bookkeeping: the starting basis, the
/// artificial-column flags the infeasibility test reads, whether the
/// objective was a minimization (its reported value is then re-negated), and
/// how many leading columns belong to the problem's own variables.
pub struct StandardForm {
    /// The initial tableau.
    pub tableau: Tableau,
    /// The starting basis: one slack or artificial column per row.
    pub basis: Basis,
    /// For each column, whether it is an artificial column.
    pub artificial: Vec<bool>,
    /// Whether the problem's objective was a minimization.
    pub minimize: bool,
    /// The number of leading columns that hold the problem's own variables.
    pub num_variables: usize,
}

/// What the standard-form transformation guarantees of its output: the
/// dimensions, the exact constraint-row entries, primal feasibility, a basis
/// of identity columns, and the artificial-column bookkeeping.
pub open spec fn standard_form_ok(p: Problem, sf: StandardForm) -> bool {
    let cs = p.constraints@;
    let n = p.variables@.len() as int;
    let k = cs.len() as int;
    let cols = n + aux_offset(cs, k) + 1;
    let t = sf.tableau;
    &&& t.wf()
    &&& t.spec_rows() == k + 1
    &&& t.spec_cols() == cols
    &&& sf.num_variables == n
    &&& sf.minimize == (p.objective.objective_type == ObjectiveType::Minimize)
    &&& t.spec_feasible()
    &&& sf.basis.spec_columns().len() == k
    &&& forall|r: int|
        0 <= r < k ==> #[trigger] sf.basis.spec_columns()[r] == spec_basis_col(cs, n, r)
    &&& forall|r: int| 0 <= r < k ==> n <= #[trigger] sf.basis.spec_columns()[r] < cols - 1
    &&& forall|r: int|
        0 <= r < k ==> is_identity_col(t.mat(), r, #[trigger] sf.basis.spec_columns()[r] as int)
    &&& sf.artificial@.len() == cols
    &&& forall|j: int|
        0 <= j < cols ==> #[trigger] sf.artificial@[j] == spec_is_artificial_col(cs, n, j, k)
    &&& forall|i: int, j: int|
        0 <= i < k && 0 <= j < n ==> #[trigger] t.at(i, j) == spec_row_coeff(
            cs[i],
            p.variables@[j].name@,
        )
    &&& forall|i: int| 0 <= i < k ==> #[trigger] t.at(i, cols - 1) == spec_row_rhs(cs[i])
    &&& forall|i: int, j: int|
        0 <= i < k && n <= j < cols - 1 ==> #[trigger] t.at(i, j) == aux_entry(
            spec_class(cs[i]),
            n + aux_offset(cs, i),
            j,
        )
    &&& forall|j: int| 0 <= j < cols ==> #[trigger] t.at(k, j) == spec_obj_primed(p, k, j)
}

/// Two problems over the same variables and constraints have standard forms
/// that agree on everything the transformation pins down outside the
/// objective row: the dimensions, every constraint-row entry, the starting
/// basis, and the artificial columns.  In particular a minimization and the
/// maximization of its negated objective, which share their constraints,
/// produce the same constraint rows and bookkeeping: minimizing via the
/// maximize normalization walks the same feasible region.
pub proof fn lemma_shared_constraints_share_standard_form(
    p: Problem,
    q: Problem,
    sp: StandardForm,
    sq: StandardForm,
)
    requires
        q.variables == p.variables,
        q.constraints == p.constraints,
        standard_form_ok(p, sp),
        standard_form_ok(q, sq),
    ensures
        sp.tableau.spec_rows() == sq.tableau.spec_rows(),
        sp.tableau.spec_cols() == sq.tableau.spec_cols(),
        sp.basis.spec_columns() == sq.basis.spec_columns(),
        sp.artificial@ == sq.artificial@,
        forall|i: int, j: int|
            0 <= i < p.constraints@.len() && 0 <= j < sp.tableau.spec_cols()
                ==> #[trigger] sp.tableau.at(i, j) == sq.tableau.at(i, j),
{
    let cs = p.constraints@;
    let n = p.variables@.len() as int;
    let k = cs.len() as int;
    let cols = n + aux_offset(cs, k) + 1;
    assert(sp.basis.spec_columns() =~= sq.basis.spec_columns());
    assert(sp.artificial@ =~= sq.artificial@);
    assert forall|i: int, j: int| 0 <= i < k && 0 <= j < cols implies #[trigger] sp.tableau.at(
        i,
        j,
    ) == sq.tableau.at(i, j) by {
        lemma_aux_offset_mono(cs, 0, k);
        if j < n {
            assert(sp.tableau.at(i, j) == spec_row_coeff(cs[i], p.variables@[j].name@));
            assert(sq.tableau.at(i, j) == spec_row_coeff(cs[i], p.variables@[j].name@));
        } else if j < cols - 1 {
            assert(sp.tableau.at(i, j) == aux_entry(spec_class(cs[i]), n + aux_offset(cs, i), j));
            assert(sq.tableau.at(i, j) == aux_entry(spec_class(cs[i]), n + aux_offset(cs, i), j));
        } else {
            assert(sp.tableau.at(i, j) == spec_row_rhs(cs[i]));
            assert(sq.tableau.at(i, j) == spec_row_rhs(cs[i]));
        }
    }
}

/// Subtracts `big_m` times `row` from the objective row, entry by entry.
fn prime_with_row(obj: &mut Vec<Rat>, row: &Vec<Rat>, big_m: &Rat) -> (r: Result<
    (),
    TransformError,
>)
    requires
        old(obj)@.len() == row@.len(),
        big_m.wf(),
        forall|t: int| 0 <= t < old(obj)@.len() ==> (#[trigger] old(obj)@[t]).wf(),
        forall|t: int| 0 <= t < row@.len() ==> (#[trigger] row@[t]).wf(),
    ensures
        match r {
            Ok(()) => final(obj)@.len() == old(obj)@.len() && forall|t: int|
                0 <= t < old(obj)@.len() ==> (#[trigger] final(obj)@[t]).wf() && final(obj)@[t]@
                    == rat_sub(old(obj)@[t]@, rat_mul(big_m@, row@[t]@)) && rat_fits(
                    rat_mul(big_m@, row@[t]@),
                ) && rat_fits(rat_sub(old(obj)@[t]@, rat_mul(big_m@, row@[t]@))),
            Err(e) => e == TransformError::ArithmeticOverflow && exists|t: int|
                0 <= t < old(obj)@.len() && (!rat_fits(rat_mul(big_m@, (#[trigger] row@[t])@))
                    || !rat_fits(rat_sub(old(obj)@[t]@, rat_mul(big_m@, row@[t]@)))),
        },
{
    let cols = row.len();
    let mut j: usize = 0;
    while j < cols
        invariant
            j <= cols,
            cols == row@.len(),
            old(obj)@.len() == cols,
            obj@.len() == cols,
            big_m.wf(),
            forall|t: int| 0 <= t < cols ==> (#[trigger] row@[t]).wf(),
            forall|t: int| j <= t < cols ==> #[trigger] obj@[t] == old(obj)@[t],
            forall|t: int| 0 <= t < cols ==> (#[trigger] old(obj)@[t]).wf(),
            forall|t: int|
                0 <= t < j ==> (#[trigger] obj@[t]).wf() && obj@[t]@ == rat_sub(
                    old(obj)@[t]@,
                    rat_mul(big_m@, row@[t]@),
                ) && rat_fits(rat_mul(big_m@, row@[t]@)) && rat_fits(
                    rat_sub(old(obj)@[t]@, rat_mul(big_m@, row@[t]@)),
                ),
        decreases cols - j,
    {
        let term = match big_m.checked_mul(&row[j]) {
            Some(v) => v,
            None => {
                proof {
                    assert(!rat_fits(rat_mul(big_m@, (row@[j as int])@)));
                }
                return Err(TransformError::ArithmeticOverflow);
            },
        };
        let cur = obj[j];
        let nv = match cur.checked_sub(&term) {
            Some(v) => v,
            None => {
                proof {
                    assert(obj@[j as int] == old(obj)@[j as int]);
                    assert(!rat_fits(rat_sub(old(obj)@[j as int]@, rat_mul(big_m@, row@[j as int]@))));
                }
                return Err(TransformError::ArithmeticOverflow);
            },
        };
        obj.set(j, nv);
        j = j + 1;
    }
    Ok(())
}

/// Lays the constraint rows and the objective row out as one row-major
/// vector.
fn flatten_rows(rows_data: &Vec<Vec<Rat>>, obj: &Vec<Rat>, cols: usize) -> (data: Vec<Rat>)
    requires
        forall|t: int| 0 <= t < rows_data@.len() ==> (#[trigger] rows_data@[t])@.len() == cols,
        obj@.len() == cols,
    ensures
        data@.len() == (rows_data@.len() + 1) * cols,
        forall|t: int, jj: int|
            0 <= t < rows_data@.len() && 0 <= jj < cols ==> #[trigger] data@[t * cols + jj] == (
            rows_data@[t])@[jj],
        forall|jj: int|
            0 <= jj < cols ==> #[trigger] data@[rows_data@.len() * cols + jj] == obj@[jj],
{
    let k = rows_data.len();
    let mut data: Vec<Rat> = Vec::new();
    let mut i: usize = 0;
    while i < k
        invariant
            i <= k,
            k == rows_data@.len(),
            obj@.len() == cols,
            forall|t: int| 0 <= t < k ==> (#[trigger] rows_data@[t])@.len() == cols,
            data@.len() == i * cols,
            forall|t: int, jj: int|
                0 <= t < i && 0 <= jj < cols ==> #[trigger] data@[t * cols + jj] == (
                rows_data@[t])@[jj],
        decreases k - i,
    {
        let ghost data0 = data@;
        let ghost base = i as int * cols as int;
        let row = &rows_data[i];
        let mut j: usize = 0;
        while j < cols
            invariant
                j <= cols,
                i < k,
                k == rows_data@.len(),
                row@ == (rows_data@[i as int])@,
                row@.len() == cols,
                base == i as int * cols as int,
                data0.len() == base,
                data@.len() == base + j,
                forall|idx: int| 0 <= idx < base ==> #[trigger] data@[idx] == data0[idx],
                forall|c: int| 0 <= c < j ==> #[trigger] data@[base + c] == row@[c],
            decreases cols - j,
        {
            data.push(row[j]);
            j = j + 1;
        }
        proof {
            assert((i as int + 1) * (cols as int) == i as int * (cols as int)
                + cols as int) by (nonlinear_arith);
            assert forall|t: int, jj: int| 0 <= t < i + 1 && 0 <= jj < cols implies
                #[trigger] data@[t * cols + jj] == (rows_data@[t])@[jj] by {
                if t < i {
                    assert(0 <= t * cols + jj < base) by (nonlinear_arith)
                        requires
                            0 <= t,
                            t <= i as int - 1,
                            0 <= jj < cols as int,
                            base == i as int * cols as int,
                    {
                    }
                    assert(data@[t * cols + jj] == data0[t * cols + jj]);
                } else {
                    assert(t * cols + jj == base + jj);
                    assert(data@[base + jj] == row@[jj]);
                }
            }
        }
        i = i + 1;
    }
    let ghost data0 = data@;
    let ghost base = k as int * cols as int;
    let mut j: usize = 0;
    while j < cols
        invariant
            j <= cols,
            k == rows_data@.len(),
            obj@.len() == cols,
            base == k as int * cols as int,
            data0.len() == base,
            data@.len() == base + j,
            forall|idx: int| 0 <= idx < base ==> #[trigger] data@[idx] == data0[idx],
            forall|c: int| 0 <= c < j ==> #[trigger] data@[base + c] == obj@[c],
        decreases cols - j,
    {
        data.push(obj[j]);
        j = j + 1;
    }
    proof {
        assert((k as int + 1) * (cols as int) == k as int * (cols as int)
            + cols as int) by (nonlinear_arith);
        assert forall|t: int, jj: int| 0 <= t < k && 0 <= jj < cols implies #[trigger] data@[t
            * cols + jj] == (rows_data@[t])@[jj] by {
            assert(0 <= t * cols + jj < base) by (nonlinear_arith)
                requires
                    0 <= t,
                    t <= k as int - 1,
                    0 <= jj < cols as int,
                    base == k as int * cols as int,
            {
            }
            assert(data@[t * cols + jj] == data0[t * cols + jj]);
        }
    }
    data
}

/// Eliminates the Big-M entries of the basic artificial columns from the
/// objective row: each row with an artificial column subtracts the penalty
/// times itself from the objective row, leaving zero at every basis column.
/// Fails exactly when some elimination step leaves the machine
/// representation.
#[verifier::rlimit(100)]
fn prime_objective(
    p: &Problem,
    obj: &mut Vec<Rat>,
    rows_data: &Vec<Vec<Rat>>,
    basis_cols: &Vec<usize>,
    artificial: &Vec<bool>,
    big_m: &Rat,
) -> (r: Result<(), TransformError>)
    requires
        crate::problem::problem_wf(*p),
        ({
            let cs = p.constraints@;
            let ni = p.variables@.len() as int;
            let k = cs.len() as int;
            let cols = ni + aux_offset(cs, k) + 1;
            &&& big_m.wf()
            &&& big_m@ == (BIG_M_NUMERATOR as int, 1int)
            &&& rows_data@.len() == k
            &&& basis_cols@.len() == k
            &&& artificial@.len() == cols
            &&& forall|t: int|
                0 <= t < k ==> row_ok(*p, t, (#[trigger] rows_data@[t])@, cols as int)
            &&& forall|t: int| 0 <= t < k ==> #[trigger] basis_cols@[t] == spec_basis_col(cs, ni, t)
            &&& forall|jj: int|
                0 <= jj < cols ==> #[trigger] artificial@[jj] == spec_is_artificial_col(
                    cs,
                    ni,
                    jj,
                    k,
                )
            &&& old(obj)@.len() == cols
            &&& forall|t: int| 0 <= t < cols ==> (#[trigger] old(obj)@[t]).wf()
            &&& forall|t: int|
                0 <= t < k ==> old(obj)@[spec_basis_col(cs, ni, t)]@ == (if spec_class(
                    #[trigger] cs[t],
                ) == ConClass::Le {
                    (0int, 1int)
                } else {
                    (BIG_M_NUMERATOR as int, 1int)
                })
            &&& forall|jj: int|
                0 <= jj < cols ==> (#[trigger] old(obj)@[jj])@ == spec_obj_primed(*p, 0, jj)
        }),
    ensures
        ({
            let cs = p.constraints@;
            let ni = p.variables@.len() as int;
            let k = cs.len() as int;
            let cols = ni + aux_offset(cs, k) + 1;
            match r {
                Ok(()) => {
                    &&& final(obj)@.len() == cols
                    &&& forall|t: int| 0 <= t < cols ==> (#[trigger] final(obj)@[t]).wf()
                    &&& forall|t: int|
                        0 <= t < k ==> final(obj)@[spec_basis_col(cs, ni, t)]@ == (0int, 1int)
                    &&& forall|jj: int|
                        0 <= jj < cols ==> (#[trigger] final(obj)@[jj])@ == spec_obj_primed(
                            *p,
                            k,
                            jj,
                        )
                    &&& priming_fits(*p)
                },
                Err(e) => e == TransformError::ArithmeticOverflow && !priming_fits(*p),
            }
        }),
{
    let ghost cs = p.constraints@;
    let n = p.variables.len();
    let ghost ni = n as int;
    let k = rows_data.len();
    let cols = obj.len();
    let mut r: usize = 0;
    while r < k
        invariant
            r <= k,
            k == cs.len(),
            cs == p.constraints@,
            n == p.variables@.len(),
            ni == n as int,
            cols == n + aux_offset(cs, k as int) + 1,
            big_m.wf(),
            big_m@ == (BIG_M_NUMERATOR as int, 1int),
            rows_data@.len() == k,
            basis_cols@.len() == k,
            artificial@.len() == cols,
            forall|t: int| 0 <= t < k ==> row_ok(*p, t, (#[trigger] rows_data@[t])@, cols as int),
            forall|t: int| 0 <= t < k ==> #[trigger] basis_cols@[t] == spec_basis_col(cs, ni, t),
            forall|jj: int|
                0 <= jj < cols ==> #[trigger] artificial@[jj] == spec_is_artificial_col(
                    cs,
                    ni,
                    jj,
                    k as int,
                ),
            obj@.len() == cols,
            forall|t: int| 0 <= t < cols ==> (#[trigger] obj@[t]).wf(),
            forall|t: int|
                0 <= t < k ==> obj@[spec_basis_col(cs, ni, t)]@ == (if spec_class(
                    #[trigger] cs[t],
                ) == ConClass::Le || t < r {
                    (0int, 1int)
                } else {
                    (BIG_M_NUMERATOR as int, 1int)
                }),
            forall|jj: int|
                0 <= jj < cols ==> (#[trigger] obj@[jj])@ == spec_obj_primed(*p, r as int, jj),
            forall|r2: int, jj: int|
                0 <= r2 < r && spec_class(cs[r2]) != ConClass::Le && 0 <= jj < cols ==> rat_fits(
                    rat_mul((BIG_M_NUMERATOR as int, 1int), #[trigger] spec_row_entry(*p, r2, jj)),
                ) && rat_fits(
                    rat_sub(
                        spec_obj_primed(*p, r2, jj),
                        rat_mul((BIG_M_NUMERATOR as int, 1int), spec_row_entry(*p, r2, jj)),
                    ),
                ),
        decreases k - r,
    {
        proof {
            lemma_aux_offset_mono(cs, r as int + 1, k as int);
            lemma_aux_offset_mono(cs, 0, r as int);
            assert(aux_offset(cs, r as int + 1) == aux_offset(cs, r as int) + aux_count(
                spec_class(cs[r as int]),
            ));
        }
        let b = basis_cols[r];
        if artificial[b] {
            proof {
                assert(spec_class(cs[r as int]) != ConClass::Le) by {
                    if spec_class(cs[r as int]) == ConClass::Le {
                        let r0 = choose|r0: int|
                            0 <= r0 < k && spec_class(#[trigger] cs[r0]) != ConClass::Le && b
                                == spec_basis_col(cs, ni, r0);
                        assert(aux_offset(cs, r0 + 1) == aux_offset(cs, r0) + aux_count(
                            spec_class(cs[r0]),
                        ));
                        if r0 < r as int {
                            lemma_aux_offset_mono(cs, r0 + 1, r as int);
                        } else {
                            lemma_aux_offset_mono(cs, r as int + 1, r0);
                        }
                    }
                }
            }
            let ghost obj0 = obj@;
            let row = &rows_data[r];
            proof {
                assert forall|jj: int| 0 <= jj < cols implies (#[trigger] row@[jj])@
                    == spec_row_entry(*p, r as int, jj) by {
                    lemma_aux_offset_mono(cs, r as int + 1, k as int);
                    assert(row_ok(*p, r as int, (rows_data@[r as int])@, cols as int));
                }
            }
            match prime_with_row(obj, row, big_m) {
                Ok(()) => {},
                Err(e) => {
                    proof {
                        let t0 = choose|t0: int|
                            0 <= t0 < obj0.len() && (!rat_fits(
                                rat_mul(big_m@, (#[trigger] row@[t0])@),
                            ) || !rat_fits(rat_sub(obj0[t0]@, rat_mul(big_m@, row@[t0]@))));
                        assert((row@[t0])@ == spec_row_entry(*p, r as int, t0));
                        assert(obj0[t0]@ == spec_obj_primed(*p, r as int, t0));
                        assert(!priming_fits(*p));
                    }
                    return Err(e);
                },
            }
            proof {
                assert forall|jj: int| 0 <= jj < cols implies (#[trigger] obj@[jj])@
                    == spec_obj_primed(*p, r as int + 1, jj) by {
                    assert(obj@[jj]@ == rat_sub(obj0[jj]@, rat_mul(big_m@, row@[jj]@)));
                    assert((row@[jj])@ == spec_row_entry(*p, r as int, jj));
                    assert(obj0[jj]@ == spec_obj_primed(*p, r as int, jj));
                }
                assert forall|r2: int, jj: int|
                    0 <= r2 < r + 1 && spec_class(cs[r2]) != ConClass::Le && 0 <= jj
                        < cols implies rat_fits(
                    rat_mul((BIG_M_NUMERATOR as int, 1int), #[trigger] spec_row_entry(*p, r2, jj)),
                ) && rat_fits(
                    rat_sub(
                        spec_obj_primed(*p, r2, jj),
                        rat_mul((BIG_M_NUMERATOR as int, 1int), spec_row_entry(*p, r2, jj)),
                    ),
                ) by {
                    if r2 == r as int {
                        assert(obj@[jj]@ == rat_sub(obj0[jj]@, rat_mul(big_m@, row@[jj]@)));
                        assert(rat_fits(rat_mul(big_m@, (row@[jj])@)));
                        assert(rat_fits(rat_sub(obj0[jj]@, rat_mul(big_m@, row@[jj]@))));
                        assert((row@[jj])@ == spec_row_entry(*p, r2, jj));
                        assert(obj0[jj]@ == spec_obj_primed(*p, r2, jj));
                    }
                }
                let mi = BIG_M_NUMERATOR as int;
                assert forall|t: int| 0 <= t < k implies obj@[spec_basis_col(cs, ni, t)]@ == (
                if spec_class(#[trigger] cs[t]) == ConClass::Le || t < r + 1 {
                    (0int, 1int)
                } else {
                    (mi, 1int)
                }) by {
                    let bt = spec_basis_col(cs, ni, t);
                    assert(aux_offset(cs, t + 1) == aux_offset(cs, t) + aux_count(
                        spec_class(cs[t]),
                    ));
                    lemma_aux_offset_mono(cs, 0, t);
                    lemma_aux_offset_mono(cs, t + 1, k as int);
                    assert(ni <= bt < cols - 1);
                    assert(obj@[bt]@ == rat_sub(obj0[bt]@, rat_mul(big_m@, row@[bt]@)));
                    assert(row@[bt]@ == aux_entry(
                        spec_class(cs[r as int]),
                        ni + aux_offset(cs, r as int),
                        bt,
                    ));
                    if t == r as int {
                        assert(row@[bt]@ == rat_one());
                        lemma_rat_mul_int(mi, 1);
                        lemma_rat_sub_int(mi, mi);
                    } else {
                        assert(row@[bt]@ == rat_zero()) by {
                            if t < r as int {
                                lemma_aux_offset_mono(cs, t + 1, r as int);
                            } else {
                                lemma_aux_offset_mono(cs, r as int + 1, t);
                            }
                        }
                        lemma_rat_mul_int(mi, 0);
                        if spec_class(cs[t]) == ConClass::Le || t < r as int {
                            lemma_rat_sub_int(0, 0);
                        } else {
                            lemma_rat_sub_int(mi, 0);
                        }
                    }
                }
            }
        } else {
            proof {
                assert(spec_class(cs[r as int]) == ConClass::Le) by {
                    if spec_class(cs[r as int]) != ConClass::Le {
                        assert(b == spec_basis_col(cs, ni, r as int));
                        assert(spec_is_artificial_col(cs, ni, b as int, k as int));
                    }
                }
            }
        }
        r = r + 1;
    }
    proof {
        assert(priming_fits(*p));
    }
    Ok(())
}

/// Wraps the prepared rows, objective row and bookkeeping as a tableau with
/// display names, and establishes the standard-form guarantees.
#[verifier::rlimit(100)]
fn assemble(
    p: &Problem,
    rows_data: Vec<Vec<Rat>>,
    obj: Vec<Rat>,
    basis_cols: Vec<usize>,
    artificial: Vec<bool>,
    classes: &Vec<ConClass>,
    maximize: bool,
    cols: usize,
) -> (sf: StandardForm)
    requires
        crate::problem::problem_wf(*p),
        maximize == (p.objective.objective_type == ObjectiveType::Maximize),
        ({
            let cs = p.constraints@;
            let n = p.variables@.len() as int;
            let k = cs.len() as int;
            &&& k < usize::MAX
            &&& cols == n + aux_offset(cs, k) + 1
            &&& rows_data@.len() == k
            &&& forall|t: int|
                0 <= t < k ==> row_ok(*p, t, (#[trigger] rows_data@[t])@, cols as int)
            &&& basis_cols@.len() == k
            &&& forall|t: int| 0 <= t < k ==> #[trigger] basis_cols@[t] == spec_basis_col(cs, n, t)
            &&& artificial@.len() == cols
            &&& forall|jj: int|
                0 <= jj < cols ==> #[trigger] artificial@[jj] == spec_is_artificial_col(
                    cs,
                    n,
                    jj,
                    k,
                )
            &&& classes@.len() == k
            &&& forall|t: int| 0 <= t < k ==> #[trigger] classes@[t] == spec_class(cs[t])
            &&& obj@.len() == cols
            &&& forall|t: int| 0 <= t < cols ==> (#[trigger] obj@[t]).wf()
            &&& forall|t: int| 0 <= t < k ==> obj@[spec_basis_col(cs, n, t)]@ == (0int, 1int)
            &&& forall|t: int| 0 <= t < cols ==> (#[trigger] obj@[t])@ == spec_obj_primed(*p, k, t)
        }),
    ensures
        standard_form_ok(*p, sf),
        sf.minimize == !maximize,
{
    let ghost cs = p.constraints@;
    let ghost ni = p.variables@.len() as int;
    let n = p.variables.len();
    let k = rows_data.len();
    let data = flatten_rows(&rows_data, &obj, cols);
    let dlen = data.len();
    proof {
        assert(dlen == (k + 1) * cols);
    }
    let mut row_names: Vec<String> = Vec::new();
    let mut i: usize = 0;
    while i < k
        invariant
            i <= k,
            row_names@.len() == i,
        decreases k - i,
    {
        let num = decimal_string(i as u128 + 1);
        row_names.push(String::from_str("R").concat(num.as_str()));
        i = i + 1;
    }
    row_names.push(String::from_str("Z"));
    let mut column_names: Vec<String> = Vec::new();
    let mut j: usize = 0;
    while j < n
        invariant
            j <= n,
            n == p.variables@.len(),
            column_names@.len() == j,
        decreases n - j,
    {
        column_names.push(p.variables[j].name.clone());
        j = j + 1;
    }
    let mut i: usize = 0;
    while i < k
        invariant
            i <= k,
            k == cs.len(),
            cs == p.constraints@,
            n == p.variables@.len(),
            classes@.len() == k,
            forall|t: int| 0 <= t < k ==> #[trigger] classes@[t] == spec_class(cs[t]),
            column_names@.len() == n + aux_offset(cs, i as int),
        decreases k - i,
    {
        proof {
            assert(aux_offset(cs, i as int + 1) == aux_offset(cs, i as int) + aux_count(
                spec_class(cs[i as int]),
            ));
        }
        let num = decimal_string(i as u128 + 1);
        match classes[i] {
            ConClass::Le => {
                column_names.push(String::from_str("s").concat(num.as_str()));
            },
            ConClass::Ge => {
                column_names.push(String::from_str("s").concat(num.as_str()));
                column_names.push(String::from_str("a").concat(num.as_str()));
            },
            ConClass::Eq => {
                column_names.push(String::from_str("a").concat(num.as_str()));
            },
        }
        i = i + 1;
    }
    column_names.push(String::from_str("RHS"));
    let matrix = match crate::matrix_2d::Matrix2D::from_vec(k + 1, cols, data) {
        Some(m) => m,
        None => {
            proof {
                assert(false);
            }
            return vstd::pervasive::unreached();
        },
    };
    proof {
        assert forall|a: int, b: int|
            0 <= a < matrix.spec_rows() && 0 <= b < matrix.spec_columns() implies (
        #[trigger] matrix.spec_index(a, b)).wf() by {
            crate::matrix_2d::lemma_row_major_bound(a, b, k as int + 1, cols as int);
            if a < k {
                assert(matrix.spec_index(a, b) == (rows_data@[a])@[b]);
                assert(row_ok(*p, a, (rows_data@[a])@, cols as int));
            } else {
                assert(matrix.spec_index(a, b) == obj@[b]);
            }
        }
    }
    let tableau = Tableau::new(matrix, row_names, column_names);
    let basis = Basis::from_columns(basis_cols);
    let sf = StandardForm { tableau, basis, artificial, minimize: !maximize, num_variables: n };
    proof {
        let t = sf.tableau;
        assert forall|a: int, b: int| 0 <= a < k + 1 && 0 <= b < cols implies #[trigger] t.at(a, b)
            == (if a < k {
            (rows_data@[a])@[b]@
        } else {
            obj@[b]@
        }) by {
            crate::matrix_2d::lemma_row_major_bound(a, b, k as int + 1, cols as int);
        }
        assert(t.spec_feasible()) by {
            assert forall|rr: int| 0 <= rr < t.spec_rows() - 1 implies rat_le(
                rat_zero(),
                #[trigger] t.at(rr, t.spec_cols() - 1),
            ) by {
                assert(row_ok(*p, rr, (rows_data@[rr])@, cols as int));
            }
        }
        assert forall|rr: int| 0 <= rr < k implies ni <= #[trigger] sf.basis.spec_columns()[rr]
            < cols - 1 by {
            lemma_aux_offset_mono(cs, 0, rr);
            lemma_aux_offset_mono(cs, rr + 1, k as int);
            assert(aux_offset(cs, rr + 1) == aux_offset(cs, rr) + aux_count(spec_class(cs[rr])));
        }
        assert forall|rr: int| 0 <= rr < k implies is_identity_col(
            t.mat(),
            rr,
            #[trigger] sf.basis.spec_columns()[rr] as int,
        ) by {
            let bt = spec_basis_col(cs, ni, rr);
            assert(aux_offset(cs, rr + 1) == aux_offset(cs, rr) + aux_count(spec_class(cs[rr])));
            lemma_aux_offset_mono(cs, 0, rr);
            lemma_aux_offset_mono(cs, rr + 1, k as int);
            assert(row_ok(*p, rr, (rows_data@[rr])@, cols as int));
            assert(t.at(rr, bt) == aux_entry(spec_class(cs[rr]), ni + aux_offset(cs, rr), bt));
            assert(rat_eq(t.mat()[rr][bt], crate::rational::rat_one()));
            assert forall|ii: int| 0 <= ii < t.mat().len() && ii != rr implies rat_eq(
                #[trigger] t.mat()[ii][bt],
                rat_zero(),
            ) by {
                if ii < k {
                    assert(row_ok(*p, ii, (rows_data@[ii])@, cols as int));
                    assert(aux_offset(cs, ii + 1) == aux_offset(cs, ii) + aux_count(
                        spec_class(cs[ii]),
                    ));
                    if ii < rr {
                        lemma_aux_offset_mono(cs, ii + 1, rr);
                    } else {
                        lemma_aux_offset_mono(cs, rr + 1, ii);
                    }
                    assert(t.at(ii, bt) == aux_entry(
                        spec_class(cs[ii]),
                        ni + aux_offset(cs, ii),
                        bt,
                    ));
                } else {
                    // the objective row: zero at every basis column
                    assert(obj@[bt]@ == (0int, 1int));
                }
            }
        }
        let kk = cs.len() as int;
        let cc = sf.tableau.spec_cols();
        assert(sf.tableau.wf());
        assert(sf.tableau.spec_rows() == kk + 1);
        assert(cc == ni + aux_offset(cs, kk) + 1);
        assert(sf.num_variables == ni);
        assert(sf.minimize == (p.objective.objective_type == ObjectiveType::Minimize));
        assert(sf.tableau.spec_feasible());
        assert(sf.basis.spec_columns().len() == kk);
        assert(forall|r: int|
            0 <= r < kk ==> #[trigger] sf.basis.spec_columns()[r] == spec_basis_col(cs, ni, r));
        assert(forall|r: int|
            0 <= r < kk ==> ni <= #[trigger] sf.basis.spec_columns()[r] < cc - 1);
        assert(forall|r: int|
            0 <= r < kk ==> is_identity_col(
                sf.tableau.mat(),
                r,
                #[trigger] sf.basis.spec_columns()[r] as int,
            ));
        assert(sf.artificial@.len() == cc);
        assert(forall|j: int|
            0 <= j < cc ==> #[trigger] sf.artificial@[j] == spec_is_artificial_col(cs, ni, j, kk));
        assert forall|i: int, j: int| 0 <= i < kk && 0 <= j < ni implies #[trigger] sf.tableau.at(
            i,
            j,
        ) == spec_row_coeff(cs[i], p.variables@[j].name@) by {
            lemma_aux_offset_mono(cs, 0, kk);
            assert(sf.tableau.at(i, j) == (rows_data@[i])@[j]@);
            assert(row_ok(*p, i, (rows_data@[i])@, cc));
            assert((rows_data@[i])@[j]@ == spec_row_coeff(cs[i], p.variables@[j].name@));
        }
        assert(forall|i: int|
            0 <= i < kk ==> #[trigger] sf.tableau.at(i, cc - 1) == spec_row_rhs(cs[i]));
        assert(forall|i: int, j: int|
            0 <= i < kk && ni <= j < cc - 1 ==> #[trigger] sf.tableau.at(i, j) == aux_entry(
                spec_class(cs[i]),
                ni + aux_offset(cs, i),
                j,
            ));
        assert forall|j: int| 0 <= j < cc implies #[trigger] sf.tableau.at(kk, j)
            == spec_obj_primed(*p, kk, j) by {
            assert(sf.tableau.at(kk, j) == obj@[j]@);
        }
    }
    sf
}

/// Transforms a problem into an initial simplex tableau in standard form:
/// the objective normalized to maximization, every constraint an equality
/// with a non-negative right-hand side, slack, surplus and artificial
/// columns appended, a basis of identity columns, and the Big-M penalties
/// eliminated from the objective row so the basis columns are identity
/// columns there too.  A term naming a variable outside the problem's
/// variable set is reported as `UnknownVariableReference`; exact arithmetic
/// that outgrows the machine representation as `ArithmeticOverflow`.
#[verifier::rlimit(100)]
pub fn transform(p: &Problem) -> (r: Result<StandardForm, TransformError>)
    requires
        crate::problem::problem_wf(*p),
    ensures
        match r {
            Ok(sf) => crate::problem::problem_covers(*p) && transform_fits(*p)
                && standard_form_ok(*p, sf),
            Err(e) => (e == TransformError::UnknownVariableReference
                && !crate::problem::problem_covers(*p)) || (e
                == TransformError::ArithmeticOverflow && crate::problem::problem_covers(*p)
                && !transform_fits(*p)),
        },
        !crate::problem::problem_covers(*p) ==> r == Err::<StandardForm, TransformError>(
            TransformError::UnknownVariableReference,
        ),
{
    if !coverage_ok(p) {
        return Err(TransformError::UnknownVariableReference);
    }
    let ghost cs = p.constraints@;
    let n = p.variables.len();
    let k = p.constraints.len();
    if k >= usize::MAX - 1 {
        proof {
            assert(!transform_fits(*p));
        }
        return Err(TransformError::ArithmeticOverflow);
    }
    // auxiliary-column offsets and classes, one constraint at a time
    let mut offs: Vec<usize> = Vec::new();
    let mut classes: Vec<ConClass> = Vec::new();
    offs.push(0);
    let mut i: usize = 0;
    while i < k
        invariant
            i <= k,
            k == cs.len(),
            cs == p.constraints@,
            crate::problem::problem_wf(*p),
            crate::problem::problem_covers(*p),
            offs@.len() == i + 1,
            classes@.len() == i,
            forall|t: int| 0 <= t <= i ==> #[trigger] offs@[t] == aux_offset(cs, t),
            forall|t: int| 0 <= t < i ==> #[trigger] classes@[t] == spec_class(cs[t]),
            forall|t: int| 0 <= t < i ==> #[trigger] aux_offset(cs, t) <= usize::MAX - 2,
        decreases k - i,
    {
        let cl = class_of(&p.constraints[i]);
        let cnt: usize = match cl {
            ConClass::Le => 1,
            ConClass::Ge => 2,
            ConClass::Eq => 1,
        };
        let prev = offs[i];
        if prev > usize::MAX - 2 {
            proof {
                assert(aux_offset(cs, i as int) > usize::MAX - 2);
                assert(!transform_fits(*p));
            }
            return Err(TransformError::ArithmeticOverflow);
        }
        offs.push(prev + cnt);
        classes.push(cl);
        i = i + 1;
    }
    let ghost offs_ok = forall|t: int| 0 <= t < k ==> #[trigger] aux_offset(cs, t) <= usize::MAX
        - 2;
    proof {
        assert(offs_ok);
    }
    let total = offs[k];
    if n > usize::MAX - 1 || total > usize::MAX - 1 - n {
        proof {
            assert(n + aux_offset(cs, k as int) + 1 > usize::MAX);
            assert(!transform_fits(*p));
        }
        return Err(TransformError::ArithmeticOverflow);
    }
    let cols = n + total + 1;
    // constraint rows, basis, artificial flags
    let mut artificial: Vec<bool> = Vec::new();
    let mut j: usize = 0;
    while j < cols
        invariant
            j <= cols,
            artificial@.len() == j,
            forall|t: int| 0 <= t < j ==> !(#[trigger] artificial@[t]),
        decreases cols - j,
    {
        artificial.push(false);
        j = j + 1;
    }
    let mut rows_data: Vec<Vec<Rat>> = Vec::new();
    let mut basis_cols: Vec<usize> = Vec::new();
    let mut i: usize = 0;
    while i < k
        invariant
            i <= k,
            k == cs.len(),
            cs == p.constraints@,
            crate::problem::problem_wf(*p),
            crate::problem::problem_covers(*p),
            offs@.len() == k + 1,
            forall|t: int| 0 <= t <= k ==> #[trigger] offs@[t] == aux_offset(cs, t),
            n == p.variables@.len(),
            cols == n + aux_offset(cs, k as int) + 1,
            rows_data@.len() == i,
            basis_cols@.len() == i,
            artificial@.len() == cols,
            forall|t: int| 0 <= t < i ==> row_ok(*p, t, (#[trigger] rows_data@[t])@, cols as int),
            forall|t: int|
                0 <= t < i ==> #[trigger] basis_cols@[t] == spec_basis_col(cs, n as int, t),
            forall|jj: int|
                0 <= jj < cols ==> #[trigger] artificial@[jj] == spec_is_artificial_col(
                    cs,
                    n as int,
                    jj,
                    i as int,
                ),
            forall|t: int| 0 <= t < i ==> sums_fit((#[trigger] cs[t]).expression.terms@),
        decreases k - i,
    {
        proof {
            lemma_aux_offset_mono(cs, i as int + 1, k as int);
            assert(aux_offset(cs, i as int + 1) == aux_offset(cs, i as int) + aux_count(
                spec_class(cs[i as int]),
            ));
        }
        let start = n + offs[i];
        let (row, b, art) = match build_row(&p.variables, &p.constraints[i], cols, start) {
            Ok(v) => v,
            Err(e) => {
                proof {
                    assert(!sums_fit((cs[i as int]).expression.terms@));
                    assert(!transform_fits(*p));
                }
                return Err(e);
            },
        };
        rows_data.push(row);
        basis_cols.push(b);
        let ghost art_before = artificial@;
        if art {
            artificial.set(b, true);
        }
        proof {
            let ni = n as int;
            assert forall|jj: int| 0 <= jj < cols implies #[trigger] artificial@[jj]
                == spec_is_artificial_col(cs, ni, jj, i as int + 1) by {
                if art && jj == b {
                    assert(spec_class(cs[i as int]) != ConClass::Le && jj == spec_basis_col(
                        cs,
                        ni,
                        i as int,
                    ));
                } else {
                    assert(artificial@[jj] == art_before[jj]);
                    if spec_is_artificial_col(cs, ni, jj, i as int + 1) {
                        let r0 = choose|r0: int|
                            0 <= r0 < i + 1 && spec_class(#[trigger] cs[r0]) != ConClass::Le && jj
                                == spec_basis_col(cs, ni, r0);
                        if r0 == i {
                            assert(art && jj == b);
                        } else {
                            assert(spec_is_artificial_col(cs, ni, jj, i as int));
                        }
                    }
                    if spec_is_artificial_col(cs, ni, jj, i as int) {
                        let r0 = choose|r0: int|
                            0 <= r0 < i && spec_class(#[trigger] cs[r0]) != ConClass::Le && jj
                                == spec_basis_col(cs, ni, r0);
                        assert(0 <= r0 < i + 1 && spec_class(cs[r0]) != ConClass::Le && jj
                            == spec_basis_col(cs, ni, r0));
                    }
                }
            }
        }
        i = i + 1;
    }
    // the objective row: negated (maximize-normalized) coefficients over the
    // variable columns, the Big-M penalty on every artificial column
    let osums = match sum_into(&p.variables, &p.objective.expression.terms) {
        Ok(v) => v,
        Err(e) => {
            proof {
                assert(!transform_fits(*p));
            }
            return Err(e);
        },
    };
    let maximize = matches!(p.objective.objective_type, ObjectiveType::Maximize);
    let big_m = Rat::from_int(BIG_M_NUMERATOR);
    let mut obj: Vec<Rat> = Vec::new();
    let mut j: usize = 0;
    while j < n
        invariant
            j <= n,
            n == p.variables@.len(),
            n == osums@.len(),
            maximize == (p.objective.objective_type == ObjectiveType::Maximize),
            forall|t: int|
                0 <= t < n ==> (#[trigger] osums@[t]).wf() && osums@[t]@ == coeff_sum(
                    p.objective.expression.terms@,
                    p.variables@[t].name@,
                ),
            obj@.len() == j,
            forall|t: int|
                0 <= t < j ==> (#[trigger] obj@[t]).wf() && obj@[t]@ == (if maximize {
                    rat_neg(coeff_sum(p.objective.expression.terms@, p.variables@[t].name@))
                } else {
                    coeff_sum(p.objective.expression.terms@, p.variables@[t].name@)
                }),
        decreases n - j,
    {
        if maximize {
            obj.push(osums[j].neg());
        } else {
            obj.push(osums[j]);
        }
        j = j + 1;
    }
    let mut j: usize = n;
    while j < cols - 1
        invariant
            n <= j <= cols - 1,
            n == p.variables@.len(),
            maximize == (p.objective.objective_type == ObjectiveType::Maximize),
            artificial@.len() == cols,
            obj@.len() == j,
            forall|t: int|
                0 <= t < n ==> (#[trigger] obj@[t]).wf() && obj@[t]@ == (if maximize {
                    rat_neg(coeff_sum(p.objective.expression.terms@, p.variables@[t].name@))
                } else {
                    coeff_sum(p.objective.expression.terms@, p.variables@[t].name@)
                }),
            forall|t: int|
                n <= t < j ==> (#[trigger] obj@[t]).wf() && obj@[t]@ == (if artificial@[t] {
                    (BIG_M_NUMERATOR as int, 1int)
                } else {
                    (0int, 1int)
                }),
        decreases cols - 1 - j,
    {
        if artificial[j] {
            obj.push(Rat::from_int(BIG_M_NUMERATOR));
        } else {
            obj.push(Rat::zero());
        }
        j = j + 1;
    }
    obj.push(Rat::zero());
    let ghost ni = n as int;
    proof {
        assert forall|t: int| 0 <= t < cols implies (#[trigger] obj@[t])@ == spec_obj_base(
            *p,
            t,
        ) by {
            if t < ni {
            } else if t < cols - 1 {
                assert(artificial@[t] == spec_is_artificial_col(cs, ni, t, k as int));
            } else {
            }
        }
        assert forall|t: int| 0 <= t < cols implies (#[trigger] obj@[t])@ == spec_obj_primed(
            *p,
            0,
            t,
        ) by {
        }
    }
    // eliminate the Big-M entries of the basic artificial columns from the
    // objective row, so every basis column is an identity column
    proof {
        assert forall|t: int| 0 <= t < k implies obj@[spec_basis_col(cs, ni, t)]@ == (if spec_class(
            #[trigger] cs[t],
        ) == ConClass::Le {
            (0int, 1int)
        } else {
            (BIG_M_NUMERATOR as int, 1int)
        }) by {
            let bt = spec_basis_col(cs, ni, t);
            assert(aux_offset(cs, t + 1) == aux_offset(cs, t) + aux_count(spec_class(cs[t])));
            lemma_aux_offset_mono(cs, 0, t);
            lemma_aux_offset_mono(cs, t + 1, k as int);
            assert(ni <= bt < cols - 1);
            if spec_class(cs[t]) != ConClass::Le {
                assert(spec_is_artificial_col(cs, ni, bt, k as int));
                assert(artificial@[bt]);
            } else {
                assert(!artificial@[bt]) by {
                    if spec_is_artificial_col(cs, ni, bt, k as int) {
                        let r0 = choose|r0: int|
                            0 <= r0 < k && spec_class(#[trigger] cs[r0]) != ConClass::Le && bt
                                == spec_basis_col(cs, ni, r0);
                        assert(aux_offset(cs, r0 + 1) == aux_offset(cs, r0) + aux_count(
                            spec_class(cs[r0]),
                        ));
                        if r0 < t {
                            lemma_aux_offset_mono(cs, r0 + 1, t);
                        } else {
                            lemma_aux_offset_mono(cs, t + 1, r0);
                        }
                    }
                }
            }
        }
    }
    match prime_objective(p, &mut obj, &rows_data, &basis_cols, &artificial, &big_m) {
        Ok(()) => {},
        Err(e) => {
            proof {
                assert(!transform_fits(*p));
            }
            return Err(e);
        },
    }
    proof {
        assert(transform_fits(*p));
    }
    let sf = assemble(p, rows_data, obj, basis_cols, artificial, &classes, maximize, cols);
    Ok(sf)
}

} // verus!

//! The symbolic model of a linear program: variables, linear terms and
//! expressions, constraints, an objective, and the problem built from them.

use crate::rational::{rat_div, rat_eq, rat_mul, rat_neg, rat_one, rat_zero, Rat};
use vstd::prelude::*;

verus! {

/// A variable, identified by its name: two variables are the same variable
/// exactly when their names are equal.
#[derive(Clone, Debug, PartialEq, Eq, Hash)]
pub struct Variable {
    /// The name of the variable.
    pub name: String,
}

impl Variable {
    /// A variable with the given name.
    pub fn new(name: &str) -> (v: Variable)
        ensures
            v.name@ == name@,
    {
        Variable { name: name.to_owned() }
    }

    /// Whether this variable is the same variable as `other`.
    pub fn same_as(&self, other: &Variable) -> (r: bool)
        ensures
            r == (self.name@ == other.name@),
    {
        self.name == other.name
    }

    /// An exact copy of this variable.
    pub fn duplicate(&self) -> (v: Variable)
        ensures
            v == *self,
    {
        Variable { name: self.name.clone() }
    }

    /// The term `rhs * self`.
    pub fn mul(self, rhs: Rat) -> (t: LinearTerm)
        ensures
            t.variable == self,
            t.coefficient == rhs,
    {
        LinearTerm { variable: self, coefficient: rhs }
    }

    /// The term `(1 / rhs) * self`; `None` exactly when the reciprocal does
    /// not fit the machine representation.
    pub fn div(self, rhs: Rat) -> (t: Option<LinearTerm>)
        requires
            rhs.wf(),
            !rat_eq(rhs@, rat_zero()),
        ensures
            match t {
                Some(t) => t.variable == self && t.coefficient.wf() && t.coefficient@ == rat_div(
                    rat_one(),
                    rhs@,
                ),
                None => !crate::rational::rat_fits(rat_div(rat_one(), rhs@)),
            },
    {
        match Rat::one().checked_div(&rhs) {
            Some(coefficient) => Some(LinearTerm { variable: self, coefficient }),
            None => None,
        }
    }
}

/// One term of a linear expression: `coefficient * variable`.
#[derive(Clone, Debug)]
pub struct LinearTerm {
    /// The variable of the term.
    pub variable: Variable,
    /// The coefficient of the variable.
    pub coefficient: Rat,
}

impl LinearTerm {
    /// The term `coefficient * variable`.
    pub fn new(variable: Variable, coefficient: Rat) -> (t: LinearTerm)
        ensures
            t.variable == variable,
            t.coefficient == coefficient,
    {
        LinearTerm { variable, coefficient }
    }

    /// The two-term expression `self + rhs`.
    pub fn add(self, rhs: LinearTerm) -> (e: LinearExpression)
        ensures
            e.terms@ =~= seq![self, rhs],
    {
        LinearExpression { terms: vec![self, rhs] }
    }

    /// The two-term expression `self - rhs`: the right term's coefficient is
    /// negated.
    pub fn sub(self, rhs: LinearTerm) -> (e: LinearExpression)
        requires
            rhs.coefficient.wf(),
        ensures
            e.terms@.len() == 2,
            e.terms@[0] == self,
            e.terms@[1].variable == rhs.variable,
            e.terms@[1].coefficient.wf(),
            e.terms@[1].coefficient@ == rat_neg(rhs.coefficient@),
    {
        let negated = LinearTerm { variable: rhs.variable, coefficient: rhs.coefficient.neg() };
        LinearExpression { terms: vec![self, negated] }
    }
}

/// A sum of linear terms, such as `3x + 5y - 2z`.
#[derive(Clone, Debug)]
pub struct LinearExpression {
    /// The terms of the expression, in the order they were written.
    pub terms: Vec<LinearTerm>,
}

/// Every coefficient of the expression is a well-formed rational.
pub open spec fn expr_wf(e: LinearExpression) -> bool {
    forall|k: int| 0 <= k < e.terms@.len() ==> (#[trigger] e.terms@[k]).coefficient.wf()
}

impl LinearExpression {
    /// The empty expression.
    pub fn empty() -> (e: LinearExpression)
        ensures
            e.terms@.len() == 0,
    {
        LinearExpression { terms: Vec::new() }
    }

    /// The expression extended with one more term.
    pub fn add(self, rhs: LinearTerm) -> (e: LinearExpression)
        ensures
            e.terms@ == self.terms@.push(rhs),
    {
        let mut terms = self.terms;
        terms.push(rhs);
        LinearExpression { terms }
    }

    /// The expression extended with the negation of one more term.
    pub fn sub(self, rhs: LinearTerm) -> (e: LinearExpression)
        requires
            rhs.coefficient.wf(),
        ensures
            e.terms@.len() == self.terms@.len() + 1,
            e.terms@.subrange(0, self.terms@.len() as int) == self.terms@,
            e.terms@.last().variable == rhs.variable,
            e.terms@.last().coefficient.wf(),
            e.terms@.last().coefficient@ == rat_neg(rhs.coefficient@),
    {
        let mut terms = self.terms;
        let negated = LinearTerm { variable: rhs.variable, coefficient: rhs.coefficient.neg() };
        terms.push(negated);
        proof {
            assert(terms@.subrange(0, terms@.len() - 1) =~= self.terms@);
        }
        LinearExpression { terms }
    }

    /// The expression with every coefficient multiplied by `rhs`; `None`
    /// exactly when some scaled coefficient does not fit the machine
    /// representation.
    pub fn mul(self, rhs: Rat) -> (r: Option<LinearExpression>)
        requires
            rhs.wf(),
            expr_wf(self),
        ensures
            match r {
                Some(e) => e.terms@.len() == self.terms@.len() && forall|k: int|
                    0 <= k < self.terms@.len() ==> (#[trigger] e.terms@[k]).variable
                        == self.terms@[k].variable && e.terms@[k].coefficient.wf()
                        && e.terms@[k].coefficient@ == rat_mul(
                        self.terms@[k].coefficient@,
                        rhs@,
                    ),
                None => exists|k: int|
                    0 <= k < self.terms@.len() && !crate::rational::rat_fits(
                        rat_mul((#[trigger] self.terms@[k]).coefficient@, rhs@),
                    ),
            },
    {
        let mut terms: Vec<LinearTerm> = Vec::new();
        let mut k: usize = 0;
        while k < self.terms.len()
            invariant
                k <= self.terms@.len(),
                rhs.wf(),
                expr_wf(self),
                terms@.len() == k,
                forall|i: int|
                    0 <= i < k ==> (#[trigger] terms@[i]).variable == self.terms@[i].variable
                        && terms@[i].coefficient.wf() && terms@[i].coefficient@ == rat_mul(
                        self.terms@[i].coefficient@,
                        rhs@,
                    ),
            decreases self.terms@.len() - k,
        {
            let t = &self.terms[k];
            let coefficient = match t.coefficient.checked_mul(&rhs) {
                Some(c) => c,
                None => {
                    proof {
                        assert(!crate::rational::rat_fits(
                            rat_mul(self.terms@[k as int].coefficient@, rhs@),
                        ));
                    }
                    return None;
                },
            };
            terms.push(LinearTerm { variable: t.variable.duplicate(), coefficient });
            k = k + 1;
        }
        Some(LinearExpression { terms })
    }

    /// The expression with every coefficient divided by `rhs`; `None`
    /// exactly when some scaled coefficient does not fit the machine
    /// representation.
    pub fn div(self, rhs: Rat) -> (r: Option<LinearExpression>)
        requires
            rhs.wf(),
            !rat_eq(rhs@, rat_zero()),
            expr_wf(self),
        ensures
            match r {
                Some(e) => e.terms@.len() == self.terms@.len() && forall|k: int|
                    0 <= k < self.terms@.len() ==> (#[trigger] e.terms@[k]).variable
                        == self.terms@[k].variable && e.terms@[k].coefficient.wf()
                        && e.terms@[k].coefficient@ == rat_div(
                        self.terms@[k].coefficient@,
                        rhs@,
                    ),
                None => exists|k: int|
                    0 <= k < self.terms@.len() && !crate::rational::rat_fits(
                        rat_div((#[trigger] self.terms@[k]).coefficient@, rhs@),
                    ),
            },
    {
        let mut terms: Vec<LinearTerm> = Vec::new();
        let mut k: usize = 0;
        while k < self.terms.len()
            invariant
                k <= self.terms@.len(),
                rhs.wf(),
                !rat_eq(rhs@, rat_zero()),
                expr_wf(self),
                terms@.len() == k,
                forall|i: int|
                    0 <= i < k ==> (#[trigger] terms@[i]).variable == self.terms@[i].variable
                        && terms@[i].coefficient.wf() && terms@[i].coefficient@ == rat_div(
                        self.terms@[i].coefficient@,
                        rhs@,
                    ),
            decreases self.terms@.len() - k,
        {
            let t = &self.terms[k];
            let coefficient = match t.coefficient.checked_div(&rhs) {
                Some(c) => c,
                None => {
                    proof {
                        assert(!crate::rational::rat_fits(
                            rat_div(self.terms@[k as int].coefficient@, rhs@),
                        ));
                    }
                    return None;
                },
            };
            terms.push(LinearTerm { variable: t.variable.duplicate(), coefficient });
            k = k + 1;
        }
        Some(LinearExpression { terms })
    }

    /// The constraint `self <= rhs`.
    pub fn less_or_equal(self, rhs: Rat) -> (c: Constraint)
        ensures
            c.expression == self,
            c.relation == Relation::LessThanOrEqual,
            c.rhs == rhs,
    {
        Constraint { expression: self, relation: Relation::LessThanOrEqual, rhs }
    }

    /// The constraint `self < rhs`.
    pub fn less_than(self, rhs: Rat) -> (c: Constraint)
        ensures
            c.expression == self,
            c.relation == Relation::LessThan,
            c.rhs == rhs,
    {
        Constraint { expression: self, relation: Relation::LessThan, rhs }
    }

    /// The constraint `self >= rhs`.
    pub fn greater_or_equal(self, rhs: Rat) -> (c: Constraint)
        ensures
            c.expression == self,
            c.relation == Relation::GreaterThanOrEqual,
            c.rhs == rhs,
    {
        Constraint { expression: self, relation: Relation::GreaterThanOrEqual, rhs }
    }

    /// The constraint `self > rhs`.
    pub fn greater_than(self, rhs: Rat) -> (c: Constraint)
        ensures
            c.expression == self,
            c.relation == Relation::GreaterThan,
            c.rhs == rhs,
    {
        Constraint { expression: self, relation: Relation::GreaterThan, rhs }
    }

    /// The constraint `self = rhs`.
    pub fn equal(self, rhs: Rat) -> (c: Constraint)
        ensures
            c.expression == self,
            c.relation == Relation::Equal,
            c.rhs == rhs,
    {
        Constraint { expression: self, relation: Relation::Equal, rhs }
    }
}

/// The relation of a constraint.
#[derive(Clone, Copy, Debug, PartialEq, Eq, Structural)]
pub enum Relation {
    /// `<=`
    LessThanOrEqual,
    /// `>=`
    GreaterThanOrEqual,
    /// `<`; over continuous variables the solver treats it as `<=`.
    LessThan,
    /// `>`; over continuous variables the solver treats it as `>=`.
    GreaterThan,
    /// `=`
    Equal,
}

impl Relation {
    /// The relation as text: `<=`, `>=`, `<`, `>` or `=`.
    pub fn symbol(&self) -> (s: &'static str)
        ensures
            s@ == match *self {
                Relation::LessThanOrEqual => "<="@,
                Relation::GreaterThanOrEqual => ">="@,
                Relation::LessThan => "<"@,
                Relation::GreaterThan => ">"@,
                Relation::Equal => "="@,
            },
    {
        match self {
            Relation::LessThanOrEqual => "<=",
            Relation::GreaterThanOrEqual => ">=",
            Relation::LessThan => "<",
            Relation::GreaterThan => ">",
            Relation::Equal => "=",
        }
    }
}

/// A constraint: a linear expression related to a right-hand-side constant.
#[derive(Clone, Debug)]
pub struct Constraint {
    /// The left-hand side of the constraint.
    pub expression: LinearExpression,
    /// The relation between the two sides.
    pub relation: Relation,
    /// The right-hand-side constant.
    pub rhs: Rat,
}

/// Every rational of the constraint is well formed.
pub open spec fn constraint_wf(c: Constraint) -> bool {
    expr_wf(c.expression) && c.rhs.wf()
}

/// The direction of the objective.
#[derive(Clone, Copy, Debug, PartialEq, Eq, Structural)]
pub enum ObjectiveType {
    /// Minimize the objective expression.
    Minimize,
    /// Maximize the objective expression.
    Maximize,
}

impl ObjectiveType {
    /// The direction as text: `Minimize` or `Maximize`.
    pub fn label(&self) -> (s: &'static str)
        ensures
            s@ == match *self {
                ObjectiveType::Minimize => "Minimize"@,
                ObjectiveType::Maximize => "Maximize"@,
            },
    {
        match self {
            ObjectiveType::Minimize => "Minimize",
            ObjectiveType::Maximize => "Maximize",
        }
    }
}

/// The objective: a direction and a linear expression.
#[derive(Clone, Debug)]
pub struct Objective {
    /// Whether the expression is minimized or maximized.
    pub objective_type: ObjectiveType,
    /// The expression being optimized.
    pub expression: LinearExpression,
}

impl Objective {
    /// An objective with the given direction and expression.
    pub fn new(objective_type: ObjectiveType, expression: LinearExpression) -> (o: Objective)
        ensures
            o.objective_type == objective_type,
            o.expression == expression,
    {
        Objective { objective_type, expression }
    }
}

/// Whether some variable of `vars` carries the given name.
pub open spec fn seq_contains_name(vars: Seq<Variable>, name: Seq<char>) -> bool {
    exists|k: int| 0 <= k < vars.len() && (#[trigger] vars[k]).name@ == name
}

/// No two variables of `vars` share a name.
pub open spec fn vars_unique(vars: Seq<Variable>) -> bool {
    forall|k1: int, k2: int|
        0 <= k1 < k2 < vars.len() ==> (#[trigger] vars[k1]).name@ != (#[trigger] vars[k2]).name@
}

/// `vars` extended with `v` unless a variable of that name is already there.
pub open spec fn insert_var(vars: Seq<Variable>, v: Variable) -> Seq<Variable> {
    if seq_contains_name(vars, v.name@) {
        vars
    } else {
        vars.push(v)
    }
}

/// `vars` after discovering, in order, the variable of every term.
pub open spec fn collect_terms(vars: Seq<Variable>, terms: Seq<LinearTerm>) -> Seq<Variable>
    decreases terms.len(),
{
    if terms.len() == 0 {
        vars
    } else {
        collect_terms(insert_var(vars, terms[0].variable), terms.drop_first())
    }
}

/// `vars` after discovering the variables of every constraint, in order.
pub open spec fn collect_constraints(vars: Seq<Variable>, cs: Seq<Constraint>) -> Seq<Variable>
    decreases cs.len(),
{
    if cs.len() == 0 {
        vars
    } else {
        collect_constraints(collect_terms(vars, cs[0].expression.terms@), cs.drop_first())
    }
}

/// The variables of a problem, in first-seen order: the constraints first,
/// left to right, then the objective.
pub open spec fn spec_problem_vars(cs: Seq<Constraint>, objective: Objective) -> Seq<Variable> {
    collect_terms(collect_constraints(Seq::empty(), cs), objective.expression.terms@)
}

/// A linear program: its variables, its constraints, and its objective.
#[derive(Clone, Debug)]
pub struct Problem {
    /// The distinct variables of the problem, in first-seen order; their
    /// positions define the tableau's variable columns.
    pub variables: Vec<Variable>,
    /// The constraints of the problem.
    pub constraints: Vec<Constraint>,
    /// The objective of the problem.
    pub objective: Objective,
}

/// Every rational of the problem is well formed and no variable name
/// repeats.
pub open spec fn problem_wf(p: Problem) -> bool {
    &&& forall|i: int| 0 <= i < p.constraints@.len() ==> constraint_wf(#[trigger] p.constraints@[i])
    &&& expr_wf(p.objective.expression)
    &&& vars_unique(p.variables@)
}

/// Every variable occurring in the constraints or the objective is listed in
/// the problem's variable set.
pub open spec fn problem_covers(p: Problem) -> bool {
    &&& forall|i: int, k: int|
        0 <= i < p.constraints@.len() && 0 <= k < p.constraints@[i].expression.terms@.len()
            ==> seq_contains_name(
            p.variables@,
            (#[trigger] p.constraints@[i].expression.terms@[k]).variable.name@,
        )
    &&& forall|k: int|
        0 <= k < p.objective.expression.terms@.len() ==> seq_contains_name(
            p.variables@,
            (#[trigger] p.objective.expression.terms@[k]).variable.name@,
        )
}

impl Problem {
    /// Builds a problem from constraints and an objective, discovering the
    /// distinct variables in first-seen order: the constraints first, left to
    /// right, then the objective.
    pub fn new(constraints: Vec<Constraint>, objective: Objective) -> (p: Problem)
        ensures
            p.constraints == constraints,
            p.objective == objective,
            p.variables@ == spec_problem_vars(constraints@, objective),
            vars_unique(p.variables@),
            problem_covers(p),
            (forall|i: int|
                0 <= i < constraints@.len() ==> constraint_wf(#[trigger] constraints@[i]))
                && expr_wf(objective.expression) ==> problem_wf(p),
    {
        let mut vars: Vec<Variable> = Vec::new();
        let ghost goal = spec_problem_vars(constraints@, objective);
        let mut ci: usize = 0;
        proof {
            assert(constraints@.skip(0) =~= constraints@);
        }
        while ci < constraints.len()
            invariant
                ci <= constraints@.len(),
                vars_unique(vars@),
                collect_terms(
                    collect_constraints(vars@, constraints@.skip(ci as int)),
                    objective.expression.terms@,
                ) == goal,
                forall|i: int, k: int|
                    0 <= i < ci && 0 <= k < constraints@[i].expression.terms@.len()
                        ==> seq_contains_name(
                        vars@,
                        (#[trigger] constraints@[i].expression.terms@[k]).variable.name@,
                    ),
            decreases constraints@.len() - ci,
        {
            let ghost vars_entry = vars@;
            let terms = &constraints[ci].expression.terms;
            proof {
                assert(terms@.skip(0) =~= terms@);
            }
            let mut ti: usize = 0;
            while ti < terms.len()
                invariant
                    ti <= terms@.len(),
                    terms@ == constraints@[ci as int].expression.terms@,
                    ci < constraints@.len(),
                    vars_unique(vars@),
                    collect_terms(vars@, terms@.skip(ti as int)) == collect_terms(
                        vars_entry,
                        terms@,
                    ),
                    forall|n: Seq<char>| seq_contains_name(vars_entry, n) ==> seq_contains_name(vars@, n),
                    forall|k: int|
                        0 <= k < ti ==> seq_contains_name(
                            vars@,
                            (#[trigger] terms@[k]).variable.name@,
                        ),
            decreases terms@.len() - ti,
            {
                let v = &terms[ti].variable;
                let ghost pre = vars@;
                if !contains_variable(&vars, v) {
                    vars.push(v.duplicate());
                }
                proof {
                    assert(vars@ == insert_var(pre, terms@[ti as int].variable));
                    assert(terms@.skip(ti as int).drop_first() =~= terms@.skip(ti as int + 1));
                    assert(seq_contains_name(vars@, terms@[ti as int].variable.name@)) by {
                        let n = terms@[ti as int].variable.name@;
                        if seq_contains_name(pre, n) {
                            let k = choose|k: int|
                                0 <= k < pre.len() && (#[trigger] pre[k]).name@ == n;
                            assert(vars@[k].name@ == n);
                        } else {
                            assert(vars@[pre.len() as int].name@ == n);
                        }
                    }
                    assert forall|n: Seq<char>| seq_contains_name(pre, n) implies seq_contains_name(
                        vars@,
                        n,
                    ) by {
                        let k = choose|k: int| 0 <= k < pre.len() && (#[trigger] pre[k]).name@ == n;
                        assert(vars@[k].name@ == n);
                    }
                }
                ti = ti + 1;
            }
            proof {
                assert(constraints@.skip(ci as int).drop_first() =~= constraints@.skip(
                    ci as int + 1,
                ));
            }
            ci = ci + 1;
        }
        proof {
            assert(constraints@.skip(constraints@.len() as int) =~= Seq::<Constraint>::empty());
            assert(collect_constraints(vars@, Seq::<Constraint>::empty()) == vars@);
            assert(objective.expression.terms@.skip(0) =~= objective.expression.terms@);
        }
        let ghost vars_entry = vars@;
        let terms = &objective.expression.terms;
        let mut ti: usize = 0;
        while ti < terms.len()
            invariant
                ti <= terms@.len(),
                terms@ == objective.expression.terms@,
                vars_unique(vars@),
                collect_terms(vars@, terms@.skip(ti as int)) == goal,
                forall|n: Seq<char>| seq_contains_name(vars_entry, n) ==> seq_contains_name(vars@, n),
                forall|k: int|
                    0 <= k < ti ==> seq_contains_name(vars@, (#[trigger] terms@[k]).variable.name@),
            decreases terms@.len() - ti,
        {
            let v = &terms[ti].variable;
            let ghost pre = vars@;
            if !contains_variable(&vars, v) {
                vars.push(v.duplicate());
            }
            proof {
                assert(vars@ == insert_var(pre, terms@[ti as int].variable));
                assert(terms@.skip(ti as int).drop_first() =~= terms@.skip(ti as int + 1));
                assert(seq_contains_name(vars@, terms@[ti as int].variable.name@)) by {
                    let n = terms@[ti as int].variable.name@;
                    if seq_contains_name(pre, n) {
                        let k = choose|k: int|
                            0 <= k < pre.len() && (#[trigger] pre[k]).name@ == n;
                        assert(vars@[k].name@ == n);
                    } else {
                        assert(vars@[pre.len() as int].name@ == n);
                    }
                }
                assert forall|n: Seq<char>| seq_contains_name(pre, n) implies seq_contains_name(
                    vars@,
                    n,
                ) by {
                    let k = choose|k: int| 0 <= k < pre.len() && (#[trigger] pre[k]).name@ == n;
                    assert(vars@[k].name@ == n);
                }
            }
            ti = ti + 1;
        }
        Problem { variables: vars, constraints, objective }
    }

    /// The same problem with the objective direction flipped and every
    /// objective coefficient negated: a minimization becomes the
    /// maximization the solver actually runs, and the other way round.  The
    /// variables and constraints are handed on unchanged.
    pub fn negated_objective(self) -> (q: Problem)
        requires
            expr_wf(self.objective.expression),
        ensures
            q.variables == self.variables,
            q.constraints == self.constraints,
            q.objective.objective_type == (match self.objective.objective_type {
                ObjectiveType::Minimize => ObjectiveType::Maximize,
                ObjectiveType::Maximize => ObjectiveType::Minimize,
            }),
            q.objective.expression.terms@.len() == self.objective.expression.terms@.len(),
            forall|k: int|
                0 <= k < self.objective.expression.terms@.len() ==> (
                #[trigger] q.objective.expression.terms@[k]).variable
                    == self.objective.expression.terms@[k].variable
                    && q.objective.expression.terms@[k].coefficient.wf()
                    && q.objective.expression.terms@[k].coefficient@ == rat_neg(
                    self.objective.expression.terms@[k].coefficient@,
                ),
    {
        let Problem { variables, constraints, objective } = self;
        let direction = match objective.objective_type {
            ObjectiveType::Minimize => ObjectiveType::Maximize,
            ObjectiveType::Maximize => ObjectiveType::Minimize,
        };
        let old_terms = objective.expression.terms;
        let mut terms: Vec<LinearTerm> = Vec::new();
        let mut k: usize = 0;
        while k < old_terms.len()
            invariant
                k <= old_terms@.len(),
                terms@.len() == k,
                forall|i: int|
                    0 <= i < old_terms@.len() ==> (#[trigger] old_terms@[i]).coefficient.wf(),
                forall|i: int|
                    0 <= i < k ==> (#[trigger] terms@[i]).variable == old_terms@[i].variable
                        && terms@[i].coefficient.wf() && terms@[i].coefficient@ == rat_neg(
                        old_terms@[i].coefficient@,
                    ),
            decreases old_terms@.len() - k,
        {
            let t = &old_terms[k];
            terms.push(LinearTerm { variable: t.variable.duplicate(), coefficient: t.coefficient.neg() });
            k = k + 1;
        }
        Problem {
            variables,
            constraints,
            objective: Objective {
                objective_type: direction,
                expression: LinearExpression { terms },
            },
        }
    }

    /// A fresh builder for a problem.
    pub fn builder() -> (b: ProblemBuilder)
        ensures
            b.spec_constraints().len() == 0,
            b.spec_objective() is None,
    {
        ProblemBuilder::new()
    }
}

/// Whether `vars` holds a variable with the same name as `v`.
fn contains_variable(vars: &Vec<Variable>, v: &Variable) -> (r: bool)
    ensures
        r == seq_contains_name(vars@, v.name@),
{
    let mut k: usize = 0;
    while k < vars.len()
        invariant
            k <= vars@.len(),
            forall|i: int| 0 <= i < k ==> (#[trigger] vars@[i]).name@ != v.name@,
        decreases vars@.len() - k,
    {
        if vars[k].same_as(v) {
            return true;
        }
        k = k + 1;
    }
    false
}

/// A builder that gathers constraints and an objective for a problem.
pub struct ProblemBuilder {
    constraints: Vec<Constraint>,
    objective: Option<Objective>,
}

/// The error returned when a problem is built without an objective.
#[derive(Clone, Copy, Debug, PartialEq, Eq, Structural)]
pub struct MissingObjectiveError;

impl ProblemBuilder {
    /// The gathered constraints.
    pub closed spec fn spec_constraints(&self) -> Seq<Constraint> {
        self.constraints@
    }

    /// The objective, once set.
    pub closed spec fn spec_objective(&self) -> Option<Objective> {
        self.objective
    }

    /// A builder with no constraints and no objective.
    pub fn new() -> (b: ProblemBuilder)
        ensures
            b.spec_constraints().len() == 0,
            b.spec_objective() is None,
    {
        ProblemBuilder { constraints: Vec::new(), objective: None }
    }

    /// The builder with one more constraint.
    pub fn add_constraint(self, constraint: Constraint) -> (b: ProblemBuilder)
        ensures
            b.spec_constraints() == self.spec_constraints().push(constraint),
            b.spec_objective() == self.spec_objective(),
    {
        let mut constraints = self.constraints;
        constraints.push(constraint);
        ProblemBuilder { constraints, objective: self.objective }
    }

    /// The builder with the objective set, replacing any earlier one.
    pub fn set_objective(self, objective: Objective) -> (b: ProblemBuilder)
        ensures
            b.spec_constraints() == self.spec_constraints(),
            b.spec_objective() == Some(objective),
    {
        ProblemBuilder { constraints: self.constraints, objective: Some(objective) }
    }

    /// Builds the problem; fails exactly when no objective was set.
    pub fn build(self) -> (r: Result<Problem, MissingObjectiveError>)
        ensures
            match r {
                Ok(p) => self.spec_objective() is Some && p.constraints@ == self.spec_constraints()
                    && p.objective == self.spec_objective().unwrap() && p.variables@
                    == spec_problem_vars(self.spec_constraints(), self.spec_objective().unwrap())
                    && vars_unique(p.variables@) && problem_covers(p),
                Err(e) => self.spec_objective() is None && e == MissingObjectiveError,
            },
    {
        match self.objective {
            Some(objective) => Ok(Problem::new(self.constraints, objective)),
            None => Err(MissingObjectiveError),
        }
    }
}

} // verus!

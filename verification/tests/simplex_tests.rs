use lp_simplex::problem::{
    LinearExpression, LinearTerm, Objective, ObjectiveType, Problem, Variable,
};
use lp_simplex::rational::Rat;
use lp_simplex::simplex::{solve, SolveError, SolveOutcome};
use lp_simplex::standard_form::{transform, TransformError};

fn term(name: &str, num: i64) -> LinearTerm {
    LinearTerm::new(Variable::new(name), Rat::from_int(num))
}

fn whole(n: i64) -> Rat {
    Rat::from_int(n)
}

/// maximize 5 x1 + 3 x2 subject to 9 x1 + 3 x2 <= 27, 2 x1 + x2 <= 7,
/// 2 x1 + 2 x2 <= 12: the optimum is x1 = 1, x2 = 5 with objective 20
/// (the corner where the second and third constraints are tight).
fn example_problem(direction: ObjectiveType, c1: i64, c2: i64) -> Problem {
    Problem::builder()
        .add_constraint(
            LinearExpression::empty()
                .add(term("x1", 9))
                .add(term("x2", 3))
                .less_or_equal(whole(27)),
        )
        .add_constraint(
            LinearExpression::empty()
                .add(term("x1", 2))
                .add(term("x2", 1))
                .less_or_equal(whole(7)),
        )
        .add_constraint(
            LinearExpression::empty()
                .add(term("x1", 2))
                .add(term("x2", 2))
                .less_or_equal(whole(12)),
        )
        .set_objective(Objective::new(
            direction,
            LinearExpression::empty().add(term("x1", c1)).add(term("x2", c2)),
        ))
        .build()
        .unwrap()
}

#[test]
fn test_optimal_scenario() {
    let p = example_problem(ObjectiveType::Maximize, 5, 3);
    match solve(&p).unwrap() {
        SolveOutcome::Optimal { solution, tableau } => {
            assert!(tableau.is_feasible());
            assert!(tableau.is_optimal());
            assert_eq!(solution.variable_values.len(), 2);
            let (x1, v1) = &solution.variable_values[0];
            let (x2, v2) = &solution.variable_values[1];
            assert_eq!(x1.name, "x1");
            assert_eq!(x2.name, "x2");
            assert!(v1.eq_rat(&whole(1)));
            assert!(v2.eq_rat(&whole(5)));
            assert!(solution.objective_value.eq_rat(&whole(20)));
        },
        _ => panic!("expected an optimal outcome"),
    }
}

#[test]
fn test_infeasible_scenario() {
    // x1 + x2 <= 2 and x1 + x2 >= 5 cannot both hold
    let p = Problem::builder()
        .add_constraint(
            LinearExpression::empty()
                .add(term("x1", 1))
                .add(term("x2", 1))
                .less_or_equal(whole(2)),
        )
        .add_constraint(
            LinearExpression::empty()
                .add(term("x1", 1))
                .add(term("x2", 1))
                .greater_or_equal(whole(5)),
        )
        .set_objective(Objective::new(
            ObjectiveType::Maximize,
            LinearExpression::empty().add(term("x1", 1)).add(term("x2", 1)),
        ))
        .build()
        .unwrap();
    assert!(matches!(solve(&p).unwrap(), SolveOutcome::Infeasible { .. }));
}

#[test]
fn test_unbounded_scenario() {
    // maximize x1 subject to x1 - x2 <= 1: x1 grows without bound with x2
    let p = Problem::builder()
        .add_constraint(
            LinearExpression::empty()
                .add(term("x1", 1))
                .sub(term("x2", 1))
                .less_or_equal(whole(1)),
        )
        .set_objective(Objective::new(
            ObjectiveType::Maximize,
            LinearExpression::empty().add(term("x1", 1)),
        ))
        .build()
        .unwrap();
    assert!(matches!(solve(&p).unwrap(), SolveOutcome::Unbounded { .. }));
}

#[test]
fn test_minimize_round_trip() {
    // minimizing -5 x1 - 3 x2 is solved through the maximize normalization;
    // the assignment agrees with the maximization of 5 x1 + 3 x2 and the
    // objective value is the negation of the maximized value
    let p_min = example_problem(ObjectiveType::Minimize, -5, -3);
    // the solver's own normalization: flip the direction, negate the terms
    let p_max = p_min.clone().negated_objective();
    assert!(matches!(p_max.objective.objective_type, ObjectiveType::Maximize));
    assert_eq!(p_max.objective.expression.terms[0].coefficient.numerator(), 5);
    assert_eq!(p_max.objective.expression.terms[1].coefficient.numerator(), 3);
    let min_solution = match solve(&p_min).unwrap() {
        SolveOutcome::Optimal { solution, .. } => solution,
        _ => panic!("expected an optimal outcome"),
    };
    let max_solution = match solve(&p_max).unwrap() {
        SolveOutcome::Optimal { solution, .. } => solution,
        _ => panic!("expected an optimal outcome"),
    };
    for (a, b) in min_solution
        .variable_values
        .iter()
        .zip(max_solution.variable_values.iter())
    {
        assert!(a.0.same_as(&b.0));
        assert!(a.1.eq_rat(&b.1));
    }
    assert!(min_solution.objective_value.eq_rat(&max_solution.objective_value.neg()));
    assert!(min_solution.objective_value.eq_rat(&whole(-20)));
}

#[test]
fn test_objective_value_never_decreases_across_pivots() {
    // the optimal objective value dominates the initial one (zero here)
    let p = example_problem(ObjectiveType::Maximize, 5, 3);
    let sf = transform(&p).unwrap();
    assert!(Rat::zero().le(&sf.tableau.get_objective_value()));
    match solve(&p).unwrap() {
        SolveOutcome::Optimal { solution, .. } => {
            assert!(Rat::zero().le(&solution.objective_value));
        },
        _ => panic!("expected an optimal outcome"),
    }
}

#[test]
fn test_equality_constraint() {
    // maximize x1 + x2 with x1 + x2 = 4 and x1 <= 1
    let p = Problem::builder()
        .add_constraint(
            LinearExpression::empty()
                .add(term("x1", 1))
                .add(term("x2", 1))
                .equal(whole(4)),
        )
        .add_constraint(LinearExpression::empty().add(term("x1", 1)).less_or_equal(whole(1)))
        .set_objective(Objective::new(
            ObjectiveType::Maximize,
            LinearExpression::empty().add(term("x1", 1)).add(term("x2", 1)),
        ))
        .build()
        .unwrap();
    match solve(&p).unwrap() {
        SolveOutcome::Optimal { solution, .. } => {
            assert!(solution.objective_value.eq_rat(&whole(4)));
        },
        _ => panic!("expected an optimal outcome"),
    }
}

#[test]
fn test_negative_rhs_row_is_flipped() {
    // -x1 <= -2 is x1 >= 2; minimize x1 should settle at 2
    let p = Problem::builder()
        .add_constraint(LinearExpression::empty().sub(term("x1", 1)).less_or_equal(whole(-2)))
        .add_constraint(LinearExpression::empty().add(term("x1", 1)).less_or_equal(whole(9)))
        .set_objective(Objective::new(
            ObjectiveType::Minimize,
            LinearExpression::empty().add(term("x1", 1)),
        ))
        .build()
        .unwrap();
    match solve(&p).unwrap() {
        SolveOutcome::Optimal { solution, .. } => {
            assert!(solution.variable_values[0].1.eq_rat(&whole(2)));
            assert!(solution.objective_value.eq_rat(&whole(2)));
        },
        _ => panic!("expected an optimal outcome"),
    }
}

#[test]
fn test_unknown_variable_is_reported() {
    // a hand-built problem whose variable set misses the term's variable
    let objective = Objective::new(
        ObjectiveType::Maximize,
        LinearExpression::empty().add(term("x", 1)),
    );
    let p = Problem {
        variables: vec![],
        constraints: vec![LinearExpression::empty().add(term("x", 1)).less_or_equal(whole(1))],
        objective,
    };
    match solve(&p) {
        Err(e) => {
            assert_eq!(e, SolveError::Transform(TransformError::UnknownVariableReference));
        },
        Ok(_) => panic!("expected an error"),
    }
}

#[test]
fn test_transform_structure() {
    let p = example_problem(ObjectiveType::Maximize, 5, 3);
    let sf = transform(&p).unwrap();
    // three slack rows: 2 variables + 3 slacks + rhs
    assert_eq!(sf.tableau.rows(), 4);
    assert_eq!(sf.tableau.cols(), 6);
    assert_eq!(sf.num_variables, 2);
    assert!(!sf.minimize);
    assert_eq!(sf.basis.columns(), &vec![2, 3, 4]);
    assert!(sf.artificial.iter().all(|&a| !a));
    assert!(sf.tableau.is_feasible());
    // the objective row holds the negated objective coefficients
    assert_eq!(sf.tableau.get(3, 0).unwrap().numerator(), -5);
    assert_eq!(sf.tableau.get(3, 1).unwrap().numerator(), -3);
    assert_eq!(sf.tableau.column_names().len(), 6);
    assert_eq!(sf.tableau.column_names()[0], "x1");
    assert_eq!(sf.tableau.column_names()[5], "RHS");
    assert_eq!(sf.tableau.row_names().len(), 4);
}

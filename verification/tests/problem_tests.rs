use lp_simplex::problem::{
    LinearExpression, LinearTerm, MissingObjectiveError, Objective, ObjectiveType, Problem,
    Relation, Variable,
};
use lp_simplex::rational::Rat;

fn term(name: &str, num: i64) -> LinearTerm {
    LinearTerm::new(Variable::new(name), Rat::from_int(num))
}

#[test]
fn test_build_without_objective_fails() {
    let expr = LinearExpression::empty().add(term("x", 1));
    let builder = Problem::builder().add_constraint(expr.less_or_equal(Rat::from_int(1)));
    assert_eq!(builder.build().unwrap_err(), MissingObjectiveError);
}

#[test]
fn test_constraint_constructors() {
    let rhs = Rat::from_int(5);
    assert_eq!(
        LinearExpression::empty().less_or_equal(rhs).relation,
        Relation::LessThanOrEqual
    );
    assert_eq!(LinearExpression::empty().less_than(rhs).relation, Relation::LessThan);
    assert_eq!(
        LinearExpression::empty().greater_or_equal(rhs).relation,
        Relation::GreaterThanOrEqual
    );
    assert_eq!(LinearExpression::empty().greater_than(rhs).relation, Relation::GreaterThan);
    assert_eq!(LinearExpression::empty().equal(rhs).relation, Relation::Equal);
}

#[test]
fn test_variables_discovered_in_first_seen_order() {
    let c1 = LinearExpression::empty()
        .add(term("y", 1))
        .add(term("x", 2))
        .less_or_equal(Rat::from_int(4));
    let objective = Objective::new(
        ObjectiveType::Maximize,
        LinearExpression::empty().add(term("z", 1)).add(term("x", 1)),
    );
    let p = Problem::new(vec![c1], objective);
    let names: Vec<&str> = p.variables.iter().map(|v| v.name.as_str()).collect();
    assert_eq!(names, vec!["y", "x", "z"]);
}

#[test]
fn test_variables_are_deduplicated() {
    let c1 = LinearExpression::empty()
        .add(term("x", 1))
        .add(term("x", 2))
        .less_or_equal(Rat::from_int(4));
    let c2 = LinearExpression::empty().add(term("x", 1)).greater_or_equal(Rat::from_int(0));
    let objective =
        Objective::new(ObjectiveType::Maximize, LinearExpression::empty().add(term("x", 3)));
    let p = Problem::new(vec![c1, c2], objective);
    assert_eq!(p.variables.len(), 1);
    assert_eq!(p.variables[0].name, "x");
}

#[test]
fn test_expression_sub_negates_coefficient() {
    let e = LinearExpression::empty().add(term("x", 1)).sub(term("y", 3));
    assert_eq!(e.terms.len(), 2);
    assert_eq!(e.terms[1].variable.name, "y");
    assert_eq!(e.terms[1].coefficient.numerator(), -3);
}

#[test]
fn test_term_add_makes_two_term_expression() {
    let e = term("x", 2).add(term("y", 5));
    assert_eq!(e.terms.len(), 2);
    assert_eq!(e.terms[0].variable.name, "x");
    assert_eq!(e.terms[1].coefficient.numerator(), 5);
}

#[test]
fn test_variable_identity_is_its_name() {
    let a = Variable::new("x");
    let b = Variable::new("x");
    let c = Variable::new("y");
    assert!(a.same_as(&b));
    assert!(!a.same_as(&c));
    assert_eq!(a.duplicate().name, "x");
}

#[test]
fn test_expression_scaling() {
    let e = LinearExpression::empty().add(term("x", 6)).add(term("y", -4));
    let doubled = e.clone().mul(Rat::from_int(2)).unwrap();
    assert_eq!(doubled.terms[0].coefficient.numerator(), 12);
    assert_eq!(doubled.terms[1].coefficient.numerator(), -8);
    let halved = e.div(Rat::from_int(2)).unwrap();
    assert_eq!(halved.terms[0].coefficient.numerator(), 3);
    assert_eq!(halved.terms[1].coefficient.numerator(), -2);
}

#[test]
fn test_variable_scaling() {
    let t = Variable::new("x").mul(Rat::from_int(3));
    assert_eq!(t.variable.name, "x");
    assert_eq!(t.coefficient.numerator(), 3);
    let t = Variable::new("y").div(Rat::from_int(4)).unwrap();
    assert_eq!(t.coefficient.numerator(), 1);
    assert_eq!(t.coefficient.denominator(), 4);
}

#[test]
fn test_negated_objective_flips_direction_and_terms() {
    let p = Problem::new(
        vec![LinearExpression::empty().add(term("x", 1)).less_or_equal(Rat::from_int(3))],
        Objective::new(ObjectiveType::Minimize, LinearExpression::empty().add(term("x", -7))),
    );
    let q = p.negated_objective();
    assert!(matches!(q.objective.objective_type, ObjectiveType::Maximize));
    assert_eq!(q.objective.expression.terms[0].coefficient.numerator(), 7);
    assert_eq!(q.constraints.len(), 1);
    assert_eq!(q.variables[0].name, "x");
}

#[test]
fn test_relation_and_direction_text() {
    assert_eq!(Relation::LessThanOrEqual.symbol(), "<=");
    assert_eq!(Relation::GreaterThanOrEqual.symbol(), ">=");
    assert_eq!(Relation::LessThan.symbol(), "<");
    assert_eq!(Relation::GreaterThan.symbol(), ">");
    assert_eq!(Relation::Equal.symbol(), "=");
    assert_eq!(ObjectiveType::Minimize.label(), "Minimize");
    assert_eq!(ObjectiveType::Maximize.label(), "Maximize");
}

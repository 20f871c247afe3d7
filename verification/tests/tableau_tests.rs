use lp_simplex::matrix_2d::Matrix2D;
use lp_simplex::rational::Rat;
use lp_simplex::tableau::{Tableau, TableauError};

fn rats(values: &[i64]) -> Vec<Rat> {
    values.iter().map(|&v| Rat::from_int(v)).collect()
}

fn names(list: &[&str]) -> Vec<String> {
    list.iter().map(|s| s.to_string()).collect()
}

fn tableau_2x3(values: &[i64]) -> Tableau {
    let matrix = Matrix2D::from_vec(2, 3, rats(values)).unwrap();
    Tableau::new(matrix, names(&["R1", "Z"]), names(&["x", "y", "RHS"]))
}

#[test]
fn test_get_and_set() {
    let mut t = tableau_2x3(&[2, 4, 6, 1, 2, 3]);
    assert_eq!(t.get(0, 1).unwrap().numerator(), 4);
    t.set(0, 1, Rat::from_int(9)).unwrap();
    assert_eq!(t.get(0, 1).unwrap().numerator(), 9);
}

#[test]
fn test_out_of_bounds_reports_both_coordinates() {
    let mut t = tableau_2x3(&[2, 4, 6, 1, 2, 3]);
    assert_eq!(t.get(5, 1).unwrap_err(), TableauError::OutOfBounds { row: 5, column: 1 });
    assert_eq!(
        t.set(0, 7, Rat::from_int(1)).unwrap_err(),
        TableauError::OutOfBounds { row: 0, column: 7 }
    );
}

#[test]
fn test_feasible_and_optimal_predicates() {
    // constraint row rhs 6 >= 0, objective coefficients 1, 2 >= 0
    let t = tableau_2x3(&[2, 4, 6, 1, 2, 3]);
    assert!(t.is_feasible());
    assert!(t.is_optimal());
    // negative rhs in the constraint row
    let t = tableau_2x3(&[2, 4, -6, 1, 2, 3]);
    assert!(!t.is_feasible());
    // a negative objective coefficient
    let t = tableau_2x3(&[2, 4, 6, -1, 2, 3]);
    assert!(!t.is_optimal());
}

#[test]
fn test_accessors() {
    let t = tableau_2x3(&[2, 4, 6, 1, 2, 3]);
    assert_eq!(t.rows(), 2);
    assert_eq!(t.cols(), 3);
    assert_eq!(t.row_names(), &names(&["R1", "Z"]));
    assert_eq!(t.column_names(), &names(&["x", "y", "RHS"]));
    assert_eq!(t.get_objective_value().numerator(), 3);
    let rhs = t.rhs_vector();
    assert_eq!(rhs.len(), 1);
    assert_eq!(rhs[0].numerator(), 6);
    let obj = t.objective_coefficients();
    assert_eq!(obj.len(), 2);
    assert_eq!(obj[0].numerator(), 1);
    assert_eq!(obj[1].numerator(), 2);
}

#[test]
fn test_pivot_normalizes_row_and_eliminates_column() {
    let mut t = tableau_2x3(&[2, 4, 6, 1, 2, 3]);
    t.gaussian_pivot(0, 0).unwrap();
    // pivot row divided by the pivot element
    assert_eq!(t.get(0, 0).unwrap().numerator(), 1);
    assert_eq!(t.get(0, 1).unwrap().numerator(), 2);
    assert_eq!(t.get(0, 2).unwrap().numerator(), 3);
    // the other row lost its pivot-column entry
    assert_eq!(t.get(1, 0).unwrap().numerator(), 0);
    assert_eq!(t.get(1, 1).unwrap().numerator(), 0);
    assert_eq!(t.get(1, 2).unwrap().numerator(), 0);
}

#[test]
fn test_pivot_column_becomes_identity() {
    let mut t = tableau_2x3(&[3, 4, 6, 5, 2, 3]);
    t.gaussian_pivot(0, 0).unwrap();
    assert!(t.get(0, 0).unwrap().eq_rat(&Rat::one()));
    assert!(t.get(1, 0).unwrap().eq_rat(&Rat::zero()));
}

#[test]
fn test_pivot_twice_is_idempotent() {
    let mut t = tableau_2x3(&[3, 4, 6, 5, 2, 3]);
    t.gaussian_pivot(0, 0).unwrap();
    let after_once: Vec<Rat> = t.get_matrix().data().clone();
    t.gaussian_pivot(0, 0).unwrap();
    let after_twice: Vec<Rat> = t.get_matrix().data().clone();
    assert_eq!(after_once.len(), after_twice.len());
    for (a, b) in after_once.iter().zip(after_twice.iter()) {
        assert!(a.eq_rat(b));
    }
}

#[test]
fn test_pivot_with_negative_pivot_element() {
    let mut t = tableau_2x3(&[-2, 4, 6, 1, 2, 3]);
    t.gaussian_pivot(0, 0).unwrap();
    // the pivot entry still becomes one, with a positive denominator
    assert!(t.get(0, 0).unwrap().eq_rat(&Rat::one()));
    assert_eq!(t.get(0, 1).unwrap().numerator(), -2);
    assert_eq!(t.get(0, 2).unwrap().numerator(), -3);
    assert!(t.get(1, 0).unwrap().eq_rat(&Rat::zero()));
}

#[test]
fn test_names_mut() {
    let mut t = tableau_2x3(&[2, 4, 6, 1, 2, 3]);
    t.row_names_mut()[0] = "first".to_string();
    t.column_names_mut()[2] = "b".to_string();
    assert_eq!(t.row_names()[0], "first");
    assert_eq!(t.column_names()[2], "b");
}

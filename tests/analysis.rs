use compte_est_bon::analysis::{
    binomial, calculate_sets_examined, calculate_theoretical_complexity, simplified_complexity,
};

#[test]
fn theoretical_complexity_values() {
    assert_eq!(calculate_theoretical_complexity(1), 1);
    assert_eq!(calculate_theoretical_complexity(2), 4);
    assert_eq!(calculate_theoretical_complexity(3), 24);
    assert_eq!(calculate_theoretical_complexity(6), 23040);
    assert_eq!(calculate_theoretical_complexity(7), 322560);
}

#[test]
fn sets_examined_for_six_tiles() {
    assert_eq!(calculate_sets_examined(6), 23040);
    assert_eq!(calculate_sets_examined(2), 4);
}

#[test]
fn simplified_complexity_values() {
    assert_eq!(simplified_complexity(0), 0);
    assert_eq!(simplified_complexity(2), 16);
    assert_eq!(simplified_complexity(6), 2304);
}

#[test]
fn binomial_values() {
    assert_eq!(binomial(5, 2), 10);
    assert_eq!(binomial(10, 3), 120);
    assert_eq!(binomial(10, 7), 120);
    assert_eq!(binomial(6, 6), 1);
    assert_eq!(binomial(0, 0), 1);
    assert_eq!(binomial(3, 5), 0);
}

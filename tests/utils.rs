use compte_est_bon::types::Operation;
use compte_est_bon::utils::{
    apply_operation, draw_tiles, generate_pairs, random_plaques, random_target, target_from_draw,
};

#[test]
fn addition_and_multiplication() {
    assert_eq!(apply_operation(7, 5, Operation::Add), Some(12));
    assert_eq!(apply_operation(7, 5, Operation::Multiply), Some(35));
}

#[test]
fn subtraction_is_never_negative() {
    assert_eq!(apply_operation(7, 5, Operation::Subtract), Some(2));
    assert_eq!(apply_operation(5, 7, Operation::Subtract), Some(2));
    assert_eq!(apply_operation(3, 3, Operation::Subtract), Some(0));
}

#[test]
fn division_needs_exact_quotient() {
    assert_eq!(apply_operation(12, 4, Operation::Divide), Some(3));
    assert_eq!(apply_operation(4, 12, Operation::Divide), Some(3));
    assert_eq!(apply_operation(7, 2, Operation::Divide), None);
    assert_eq!(apply_operation(0, 5, Operation::Divide), Some(0));
    assert_eq!(apply_operation(5, 0, Operation::Divide), Some(0));
    assert_eq!(apply_operation(0, 0, Operation::Divide), None);
}

#[test]
fn overflowing_results_are_refused() {
    assert_eq!(apply_operation(i32::MAX, 1, Operation::Add), None);
    assert_eq!(apply_operation(65536, 65536, Operation::Multiply), None);
    assert_eq!(apply_operation(i32::MAX, -1, Operation::Subtract), None);
    assert_eq!(apply_operation(i32::MIN, -1, Operation::Divide), None);
}

#[test]
fn pairs_in_lexicographic_order() {
    assert_eq!(generate_pairs(&[4, 5, 6]), vec![(0, 1), (0, 2), (1, 2)]);
    assert_eq!(
        generate_pairs(&[1, 1, 1, 1]),
        vec![(0, 1), (0, 2), (0, 3), (1, 2), (1, 3), (2, 3)]
    );
}

#[test]
fn no_pairs_below_two_tiles() {
    assert!(generate_pairs(&[]).is_empty());
    assert!(generate_pairs(&[9]).is_empty());
}

#[test]
fn random_tiles_come_from_the_game() {
    for _ in 0..20 {
        let tiles = random_plaques();
        assert_eq!(tiles.len(), 6);
        for &t in &tiles {
            let allowed = (1..=10).contains(&t) || [25, 50, 75, 100].contains(&t);
            assert!(allowed, "{}", t);
            assert!(tiles.iter().filter(|&&x| x == t).count() <= 2);
        }
    }
}

#[test]
fn random_target_in_range() {
    for _ in 0..200 {
        let t = random_target();
        assert!((100..1000).contains(&t), "{}", t);
    }
}

#[test]
fn no_exchange_draws_the_first_tiles() {
    assert_eq!(draw_tiles(&vec![]), vec![1, 1, 2, 2, 3, 3]);
}

#[test]
fn exchanges_apply_in_order() {
    assert_eq!(draw_tiles(&vec![(0, 27)]), vec![100, 1, 2, 2, 3, 3]);
    assert_eq!(draw_tiles(&vec![(0, 27), (0, 20)]), vec![25, 1, 2, 2, 3, 3]);
    assert_eq!(draw_tiles(&vec![(0, 20), (0, 27)]), vec![100, 1, 2, 2, 3, 3]);
    assert_eq!(draw_tiles(&vec![(5, 5), (1, 19), (2, 3)]), vec![1, 10, 2, 2, 3, 3]);
}

#[test]
fn draw_gives_target() {
    assert_eq!(target_from_draw(0), 100);
    assert_eq!(target_from_draw(421), 521);
    assert_eq!(target_from_draw(899), 999);
}

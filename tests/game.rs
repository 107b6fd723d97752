use compte_est_bon::game::Game;
use compte_est_bon::solver::solve;
use compte_est_bon::types::Operation;

#[test]
fn random_game_is_well_formed() {
    let game = Game::new_random();
    assert_eq!(game.plaques.len(), 6);
    assert!((100..1000).contains(&game.target));
}

#[test]
fn game_solves_like_the_solver() {
    let game = Game { plaques: vec![2, 10, 100], target: 120 };
    assert_eq!(game.solve(), solve(&[2, 10, 100], 120));
    assert!(game.solve().is_some());
}

#[test]
fn operation_symbols() {
    assert_eq!(Operation::Add.symbol(), "+");
    assert_eq!(Operation::Subtract.symbol(), "-");
    assert_eq!(Operation::Multiply.symbol(), "×");
    assert_eq!(Operation::Divide.symbol(), "÷");
}

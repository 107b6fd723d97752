use compte_est_bon::solver::solve;
use compte_est_bon::types::{CalculationStep, Operation, Solution};
use compte_est_bon::utils::apply_operation;

fn step(left: i32, right: i32, operation: Operation, result: i32) -> CalculationStep {
    CalculationStep { left, right, operation, result }
}

/// Replays a solution on the tiles: every step must take two tiles that are
/// there, obey the rules, and the last one must give the target.
fn replays(numbers: &[i32], solution: &Solution) -> bool {
    let mut tiles = numbers.to_vec();
    if solution.steps.is_empty() {
        return tiles.contains(&solution.target);
    }
    for s in &solution.steps {
        if apply_operation(s.left, s.right, s.operation) != Some(s.result) {
            return false;
        }
        match tiles.iter().position(|&x| x == s.left) {
            Some(p) => {
                tiles.remove(p);
            }
            None => return false,
        }
        match tiles.iter().position(|&x| x == s.right) {
            Some(p) => {
                tiles.remove(p);
            }
            None => return false,
        }
        if s.operation == Operation::Subtract && s.result < 0 {
            return false;
        }
        if s.operation == Operation::Divide
            && !(s.result * s.right == s.left || s.result * s.left == s.right)
        {
            return false;
        }
        tiles.push(s.result);
    }
    solution.steps.last().unwrap().result == solution.target
}

#[test]
fn target_among_tiles_gives_no_step() {
    let r = solve(&[1, 2, 3], 2).expect("a solution");
    assert_eq!(r.target, 2);
    assert!(r.steps.is_empty());
}

#[test]
fn single_tile_equal_to_target() {
    let r = solve(&[5], 5).expect("a solution");
    assert_eq!(r.target, 5);
    assert_eq!(r.steps.len(), 0);
}

#[test]
fn two_steps_reach_one_hundred_twenty() {
    let numbers = [2, 10, 100];
    let r = solve(&numbers, 120).expect("a solution");
    assert_eq!(r.target, 120);
    assert_eq!(
        r.steps,
        vec![step(2, 10, Operation::Multiply, 20), step(100, 20, Operation::Add, 120)]
    );
    assert!(replays(&numbers, &r));
}

#[test]
fn equal_tiles_divide_to_one() {
    assert_eq!(apply_operation(3, 3, Operation::Subtract), Some(0));
    let r = solve(&[3, 3], 1).expect("a solution");
    assert_eq!(r.steps, vec![step(3, 3, Operation::Divide, 1)]);
}

#[test]
fn equal_tiles_cannot_give_two() {
    assert_eq!(solve(&[3, 3], 2), None);
}

#[test]
fn unreachable_target_gives_none() {
    assert_eq!(solve(&[2, 4], 100000), None);
}

#[test]
fn empty_tiles_give_none() {
    assert_eq!(solve(&[], 7), None);
}

#[test]
fn single_tile_other_than_target_gives_none() {
    assert_eq!(solve(&[4], 7), None);
}

#[test]
fn solving_twice_gives_the_same_solution() {
    let numbers = [1, 3, 7, 10, 25, 50];
    let first = solve(&numbers, 765);
    let second = solve(&numbers, 765);
    assert_eq!(first, second);
    assert!(first.is_some());
}

#[test]
fn first_result_equal_to_target_ends_the_search() {
    let r = solve(&[1, 2, 7], 3).expect("a solution");
    assert_eq!(r.steps, vec![step(1, 2, Operation::Add, 3)]);
}

#[test]
fn solutions_replay_legally() {
    let games: [(&[i32], i32); 5] = [
        (&[1, 3, 7, 10, 25, 50], 765),
        (&[2, 10, 100], 120),
        (&[4, 6, 9], 15),
        (&[75, 3, 8], 25),
        (&[5, 5, 2], 1),
    ];
    for (numbers, target) in games {
        let r = solve(numbers, target).expect("a solution");
        assert_eq!(r.target, target);
        assert!(replays(numbers, &r), "{:?} {} {:?}", numbers, target, r);
    }
}

#[test]
fn division_step_is_exact() {
    let r = solve(&[75, 3], 25).expect("a solution");
    assert_eq!(r.steps, vec![step(75, 3, Operation::Divide, 25)]);
}

#[test]
fn subtraction_step_is_distance() {
    let r = solve(&[3, 10], 7).expect("a solution");
    assert_eq!(r.steps, vec![step(3, 10, Operation::Subtract, 7)]);
}

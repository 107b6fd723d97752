//! One game: the tiles and the target.
use vstd::prelude::*;
use crate::types::{CalculationStep, Solution};
use crate::solver::{solve, solve_spec, is_solution};
use crate::utils::{
    all_tiles, random_plaques, random_target, shuffled, target_of_draw, swaps_below, DRAWN_TILES, SHUFFLE_ROUNDS,
};

verus! {

/// A game: the tiles that may be combined and the target to reach.
pub struct Game {
    pub plaques: Vec<i32>,
    pub target: i32,
}

impl Game {
    /// A game with six tiles drawn at random from the tiles of the game and a
    /// target drawn at random between 100 and 999.
    pub fn new_random() -> (r: Self)
        ensures
            exists|sw: Seq<(usize, usize)>|
                sw.len() == SHUFFLE_ROUNDS && swaps_below(sw, all_tiles().len() as int)
                    && r.plaques@ == shuffled(all_tiles(), sw).take(DRAWN_TILES as int),
            exists|d: int| 0 <= d < 900 && r.target == #[trigger] target_of_draw(d),
            r.plaques@.len() == DRAWN_TILES,
            r.plaques@.to_multiset().subset_of(all_tiles().to_multiset()),
            100 <= r.target < 1000,
    {
        Game { plaques: random_plaques(), target: random_target() }
    }

    /// Solves this game: the result of `solve` on its tiles and target.
    pub fn solve(&self) -> (r: Option<Solution>)
        ensures
            r.is_some() == solve_spec(self.plaques@, self.target).is_some(),
            r matches Some(s) ==> s.target == self.target && s.steps@ == solve_spec(
                self.plaques@,
                self.target,
            ).unwrap(),
            r matches Some(s) ==> is_solution(self.plaques@, self.target, s.steps@),
            r is None <==> !exists|p: Seq<CalculationStep>|
                is_solution(self.plaques@, self.target, p),
    {
        solve(self.plaques.as_slice(), self.target)
    }
}

} // verus!

//! Exhaustive depth-first search for a chain of operations that reaches the
//! target. The order of the search is fixed: pairs of positions in ascending
//! lexicographic order, then Add, Subtract, Multiply, Divide.
use vstd::prelude::*;
use vstd::arithmetic::div_mod::lemma_fundamental_div_mod;
use vstd::slice::slice_to_vec;
use crate::types::{CalculationStep, Operation, Solution};
use crate::utils::{
    apply_operation, apply_spec, divides, generate_pairs, lemma_pair_index, lemma_pairs_in_bounds,
    pair_seq,
};

verus! {

/// The operations in the order in which the search tries them.
pub open spec fn op_at(o: int) -> Operation {
    if o == 0 {
        Operation::Add
    } else if o == 1 {
        Operation::Subtract
    } else if o == 2 {
        Operation::Multiply
    } else {
        Operation::Divide
    }
}

/// The tiles left after the values at positions `i < j` were combined into `r`:
/// both are removed and `r` goes to the end.
pub open spec fn reduce(nums: Seq<i32>, i: int, j: int, r: i32) -> Seq<i32> {
    nums.remove(j).remove(i).push(r)
}

/// The step that combines the values at positions `i` and `j` into `r`.
pub open spec fn step_of(nums: Seq<i32>, i: int, j: int, op: Operation, r: i32) -> CalculationStep {
    CalculationStep { left: nums[i], right: nums[j], operation: op, result: r }
}

/// The path that the search finds from the tiles `nums`, if any: a single
/// tile equal to the target ends it with no step; otherwise the candidates are
/// tried in order from the first.
pub open spec fn search(nums: Seq<i32>, t: i32) -> Option<Seq<CalculationStep>>
    decreases nums.len(), 1int, 0int, 0int,
{
    if nums.len() == 1 && nums[0] == t {
        Some(seq![])
    } else {
        search_from(nums, t, 0, 0)
    }
}

/// The path that the search finds when it starts at pair number `p` of
/// `pair_seq` and operation number `o`. A legal step whose result is the
/// target ends the search at once; any other legal step is followed by a
/// search on the reduced tiles, and by the next candidate if that fails.
pub open spec fn search_from(nums: Seq<i32>, t: i32, p: int, o: int) -> Option<
    Seq<CalculationStep>,
>
    decreases nums.len(), 0int, pair_seq(nums.len() as int).len() - p, 4 - o,
{
    let pairs = pair_seq(nums.len() as int);
    if p < 0 || p >= pairs.len() {
        None
    } else if o < 0 || o >= 4 {
        search_from(nums, t, p + 1, 0)
    } else {
        let i = pairs[p].0 as int;
        let j = pairs[p].1 as int;
        let op = op_at(o);
        let next = search_from(nums, t, p, o + 1);
        if !(0 <= i < j < nums.len()) {
            next
        } else {
            match apply_spec(nums[i], nums[j], op) {
                None => next,
                Some(r) => {
                    let step = step_of(nums, i, j, op, r);
                    if r == t {
                        Some(seq![step])
                    } else {
                        match search(reduce(nums, i, j, r), t) {
                            Some(path) => Some(seq![step] + path),
                            None => next,
                        }
                    }
                },
            }
        }
    }
}

/// The solution that `solve` returns: no step where the target is already a
/// tile, else the path that the search finds.
pub open spec fn solve_spec(nums: Seq<i32>, t: i32) -> Option<Seq<CalculationStep>> {
    if nums.contains(t) {
        Some(seq![])
    } else {
        search(nums, t)
    }
}

/// A step obeys the rules: its result is what its operation gives on its operands.
pub open spec fn step_legal(s: CalculationStep) -> bool {
    apply_spec(s.left, s.right, s.operation) == Some(s.result)
}

/// The step `s` combines legally the tiles at positions `i < j` of `nums`.
pub open spec fn legal_start(nums: Seq<i32>, s: CalculationStep, i: int, j: int) -> bool {
    &&& 0 <= i < j < nums.len()
    &&& s.left == nums[i]
    &&& s.right == nums[j]
    &&& step_legal(s)
}

/// `steps` is a legal chain from the tiles `nums` that reaches `t`: either no
/// step is left and the single tile left is `t`, or the first step combines
/// legally the tiles at two distinct positions, and either it is the only step
/// and gives `t`, or the rest of the chain reaches `t` from what is left.
pub open spec fn chain_reaches(nums: Seq<i32>, t: i32, steps: Seq<CalculationStep>) -> bool
    decreases steps.len(),
{
    if steps.len() == 0 {
        nums.len() == 1 && nums[0] == t
    } else {
        exists|i: int, j: int|
            #[trigger] legal_start(nums, steps[0], i, j) && ((steps.len() == 1 && steps[0].result
                == t) || chain_reaches(reduce(nums, i, j, steps[0].result), t, steps.drop_first()))
    }
}

/// `steps` solves the game `(nums, t)`: no step where `t` is already a tile,
/// else a legal chain that reaches `t`.
pub open spec fn is_solution(nums: Seq<i32>, t: i32, steps: Seq<CalculationStep>) -> bool {
    if steps.len() == 0 {
        nums.contains(t)
    } else {
        chain_reaches(nums, t, steps)
    }
}

/// The last step of a non-empty legal chain that reaches `t` has result `t`,
/// and every step of it obeys the rules.
pub proof fn lemma_chain_facts(nums: Seq<i32>, t: i32, steps: Seq<CalculationStep>)
    requires
        chain_reaches(nums, t, steps),
    ensures
        steps.len() > 0 ==> steps.last().result == t,
        forall|k: int| 0 <= k < steps.len() ==> step_legal(#[trigger] steps[k]),
    decreases steps.len(),
{
    if steps.len() > 0 {
        let (i, j) = choose|i: int, j: int|
            #[trigger] legal_start(nums, steps[0], i, j) && ((steps.len() == 1 && steps[0].result
                == t) || chain_reaches(reduce(nums, i, j, steps[0].result), t, steps.drop_first()));
        if steps.len() == 1 && steps[0].result == t {
        } else {
            let rest = steps.drop_first();
            lemma_chain_facts(reduce(nums, i, j, steps[0].result), t, rest);
            assert forall|k: int| 0 <= k < steps.len() implies step_legal(#[trigger] steps[k]) by {
                if k > 0 {
                    assert(steps[k] == rest[k - 1]);
                }
            }
            if rest.len() == 0 {
                assert(reduce(nums, i, j, steps[0].result).len() == 1);
                assert(reduce(nums, i, j, steps[0].result)[0] == steps[0].result);
            } else {
                assert(steps.last() == rest.last());
            }
        }
    }
}

/// Every path that the search finds from position `(p, o)` on is a legal
/// chain that reaches the target.
proof fn lemma_search_from_sound(nums: Seq<i32>, t: i32, p: int, o: int)
    ensures
        search_from(nums, t, p, o) matches Some(path) ==> chain_reaches(nums, t, path),
    decreases nums.len(), 0int, pair_seq(nums.len() as int).len() - p, 4 - o,
{
    let pairs = pair_seq(nums.len() as int);
    if p < 0 || p >= pairs.len() {
    } else if o < 0 || o >= 4 {
        lemma_search_from_sound(nums, t, p + 1, 0);
    } else {
        let i = pairs[p].0 as int;
        let j = pairs[p].1 as int;
        let op = op_at(o);
        lemma_search_from_sound(nums, t, p, o + 1);
        if 0 <= i < j < nums.len() {
            if let Some(r) = apply_spec(nums[i], nums[j], op) {
                let step = step_of(nums, i, j, op, r);
                let next_nums = reduce(nums, i, j, r);
                if r == t {
                    assert(legal_start(nums, seq![step][0], i, j));
                } else {
                    lemma_search_sound(next_nums, t);
                    if let Some(path) = search(next_nums, t) {
                        let full = seq![step] + path;
                        assert(full.drop_first() =~= path);
                        assert(legal_start(nums, full[0], i, j));
                    }
                }
            }
        }
    }
}

/// Every path that the search finds is a legal chain that reaches the target.
pub proof fn lemma_search_sound(nums: Seq<i32>, t: i32)
    ensures
        search(nums, t) matches Some(path) ==> chain_reaches(nums, t, path),
    decreases nums.len(), 1int, 0int, 0int,
{
    if nums.len() == 1 && nums[0] == t {
    } else {
        lemma_search_from_sound(nums, t, 0, 0);
    }
}

/// Where the search from `(p, o)` finds nothing, every later candidate
/// `(p_at, o_at)` fails: its operation is illegal, or its result is not the
/// target and nothing is found from the reduced tiles.
proof fn lemma_search_from_none(nums: Seq<i32>, t: i32, p: int, o: int, p_at: int, o_at: int)
    requires
        search_from(nums, t, p, o) is None,
        0 <= p <= p_at < pair_seq(nums.len() as int).len(),
        0 <= o < 4,
        0 <= o_at < 4,
        p < p_at || o <= o_at,
        ({
            let (i, j) = pair_seq(nums.len() as int)[p_at];
            i < j < nums.len()
        }),
    ensures
        ({
            let i = pair_seq(nums.len() as int)[p_at].0 as int;
            let j = pair_seq(nums.len() as int)[p_at].1 as int;
            match apply_spec(nums[i], nums[j], op_at(o_at)) {
                None => true,
                Some(r) => r != t && search(reduce(nums, i, j, r), t) is None,
            }
        }),
    decreases pair_seq(nums.len() as int).len() - p, 4 - o,
{
    if p == p_at && o == o_at {
    } else if o + 1 < 4 {
        lemma_search_from_none(nums, t, p, o + 1, p_at, o_at);
    } else {
        assert(search_from(nums, t, p, o + 1) == search_from(nums, t, p + 1, 0));
        lemma_search_from_none(nums, t, p + 1, 0, p_at, o_at);
    }
}

/// The position of an operation in the order in which the search tries them.
pub open spec fn op_index(op: Operation) -> int {
    match op {
        Operation::Add => 0,
        Operation::Subtract => 1,
        Operation::Multiply => 2,
        Operation::Divide => 3,
    }
}

/// Where some legal chain reaches the target, the search finds a path.
pub proof fn lemma_search_complete(nums: Seq<i32>, t: i32, steps: Seq<CalculationStep>)
    requires
        nums.len() <= usize::MAX,
        chain_reaches(nums, t, steps),
    ensures
        search(nums, t) is Some,
    decreases steps.len(),
{
    if nums.len() == 1 && nums[0] == t {
    } else if search(nums, t) is None {
        let n = nums.len() as int;
        let (i, j) = choose|i: int, j: int|
            #[trigger] legal_start(nums, steps[0], i, j) && ((steps.len() == 1 && steps[0].result
                == t) || chain_reaches(reduce(nums, i, j, steps[0].result), t, steps.drop_first()));
        let s = steps[0];
        let p_at = lemma_pair_index(i, j, n, n);
        lemma_pairs_in_bounds(n, n);
        let o_at = op_index(s.operation);
        assert(op_at(o_at) == s.operation);
        lemma_search_from_none(nums, t, 0, 0, p_at, o_at);
        if !(steps.len() == 1 && s.result == t) {
            lemma_search_complete(reduce(nums, i, j, s.result), t, steps.drop_first());
        }
    }
}

/// The result of a legal step: a subtraction never gives a negative number,
/// and a division gives the exact quotient of one operand by the other.
pub proof fn lemma_legal_step_facts(s: CalculationStep)
    requires
        step_legal(s),
    ensures
        s.operation == Operation::Subtract ==> s.result >= 0,
        s.operation == Operation::Divide ==> (s.right != 0 && s.result * s.right == s.left) || (
        s.left != 0 && s.result * s.left == s.right),
{
    if s.operation == Operation::Divide {
        let a = s.left as int;
        let b = s.right as int;
        if divides(b, a) {
            lemma_fundamental_div_mod(a, b);
            assert(s.result == a / b);
            assert(s.result * b == a) by (nonlinear_arith)
                requires
                    a == b * (a / b) + a % b,
                    a % b == 0,
                    s.result == a / b,
            ;
        } else {
            lemma_fundamental_div_mod(b, a);
            assert(s.result * a == b) by (nonlinear_arith)
                requires
                    b == a * (b / a) + b % a,
                    b % a == 0,
                    s.result == b / a,
            ;
        }
    }
}

/// What `solve` returns is a solution of the game, every step of it legal and
/// the last one giving the target; and it finds one exactly where one exists.
pub proof fn lemma_solve_correct(nums: Seq<i32>, t: i32)
    requires
        nums.len() <= usize::MAX,
    ensures
        solve_spec(nums, t) matches Some(p) ==> is_solution(nums, t, p),
        solve_spec(nums, t) matches Some(p) ==> (p.len() > 0 ==> p.last().result == t),
        solve_spec(nums, t) matches Some(p) ==> forall|k: int|
            0 <= k < p.len() ==> step_legal(#[trigger] p[k]),
        solve_spec(nums, t) is Some <==> exists|p: Seq<CalculationStep>| is_solution(nums, t, p),
{
    lemma_search_sound(nums, t);
    if let Some(p) = search(nums, t) {
        lemma_chain_facts(nums, t, p);
    }
    if exists|p: Seq<CalculationStep>| is_solution(nums, t, p) {
        let p = choose|p: Seq<CalculationStep>| is_solution(nums, t, p);
        if p.len() > 0 {
            lemma_search_complete(nums, t, p);
        }
    }
    if let Some(p) = solve_spec(nums, t) {
        assert(is_solution(nums, t, p));
    }
}

/// Every step of what `solve` returns obeys the rules: no subtraction gives a
/// negative number, and every division gives the exact quotient of one
/// operand by the other.
pub proof fn lemma_solution_steps_obey_rules(nums: Seq<i32>, t: i32)
    requires
        nums.len() <= usize::MAX,
    ensures
        solve_spec(nums, t) matches Some(p) ==> forall|k: int|
            0 <= k < p.len() ==> {
                &&& (#[trigger] p[k]).operation == Operation::Subtract ==> p[k].result >= 0
                &&& p[k].operation == Operation::Divide ==> (p[k].right != 0 && p[k].result
                    * p[k].right == p[k].left) || (p[k].left != 0 && p[k].result * p[k].left
                    == p[k].right)
            },
{
    lemma_solve_correct(nums, t);
    if let Some(p) = solve_spec(nums, t) {
        assert forall|k: int| 0 <= k < p.len() implies {
            &&& (#[trigger] p[k]).operation == Operation::Subtract ==> p[k].result >= 0
            &&& p[k].operation == Operation::Divide ==> (p[k].right != 0 && p[k].result
                * p[k].right == p[k].left) || (p[k].left != 0 && p[k].result * p[k].left
                == p[k].right)
        } by {
            lemma_legal_step_facts(p[k]);
        }
    }
}

/// The search takes no outside input: the same tiles and target always give
/// the same result.
pub proof fn lemma_solve_deterministic(a: Seq<i32>, b: Seq<i32>, t: i32)
    requires
        a == b,
    ensures
        solve_spec(a, t) == solve_spec(b, t),
{
}

fn contains_value(numbers: &[i32], target: i32) -> (r: bool)
    ensures
        r == numbers@.contains(target),
{
    let mut k: usize = 0;
    while k < numbers.len()
        invariant
            k <= numbers@.len(),
            forall|m: int| 0 <= m < k ==> numbers@[m] != target,
        decreases numbers@.len() - k,
    {
        if numbers[k] == target {
            return true;
        }
        k = k + 1;
    }
    false
}

/// Looks for a chain of operations on `numbers` that reaches `target`. It
/// returns whether one was found; if so the chain is appended to `steps`, and
/// otherwise `steps` is left as it was.
fn explore(numbers: &Vec<i32>, target: i32, steps: &mut Vec<CalculationStep>) -> (found: bool)
    ensures
        found == search(numbers@, target).is_some(),
        found ==> final(steps)@ == old(steps)@ + search(numbers@, target).unwrap(),
        !found ==> final(steps)@ == old(steps)@,
    decreases numbers@.len(),
{
    if numbers.len() == 1 && numbers[0] == target {
        assert(old(steps)@ + seq![] =~= old(steps)@);
        return true;
    }
    let ghost nums = numbers@;
    let ghost n = nums.len() as int;
    let pairs = generate_pairs(numbers.as_slice());
    let ops = [Operation::Add, Operation::Subtract, Operation::Multiply, Operation::Divide];
    let mut p: usize = 0;
    while p < pairs.len()
        invariant
            nums == numbers@,
            n == nums.len(),
            pairs@ == pair_seq(n),
            forall|k: int| 0 <= k < pairs@.len() ==> #[trigger] pairs@[k].0 < pairs@[k].1 < n,
            ops@ == seq![Operation::Add, Operation::Subtract, Operation::Multiply, Operation::Divide],
            p <= pairs@.len(),
            search(nums, target) == search_from(nums, target, p as int, 0),
            steps@ == old(steps)@,
        decreases pairs@.len() - p,
    {
        let (i, j) = pairs[p];
        assert(pairs@[p as int].0 < pairs@[p as int].1 < n);
        let a = numbers[i];
        let b = numbers[j];
        let mut o: usize = 0;
        while o < 4
            invariant
                nums == numbers@,
                n == nums.len(),
                pairs@ == pair_seq(n),
                ops@ == seq![Operation::Add, Operation::Subtract, Operation::Multiply, Operation::Divide],
                p < pairs@.len(),
                (i, j) == pairs@[p as int],
                i < j < n,
                a == nums[i as int],
                b == nums[j as int],
                o <= 4,
                search(nums, target) == search_from(nums, target, p as int, o as int),
                steps@ == old(steps)@,
            decreases 4 - o,
        {
            let op = ops[o];
            assert(op == op_at(o as int));
            if let Some(result) = apply_operation(a, b, op) {
                let mut new_numbers = numbers.clone();
                assert(new_numbers@ =~= numbers@);
                new_numbers.remove(j);
                new_numbers.remove(i);
                new_numbers.push(result);
                assert(new_numbers@ == reduce(nums, i as int, j as int, result));
                let step = CalculationStep { left: a, right: b, operation: op, result };
                assert(step == step_of(nums, i as int, j as int, op, result));
                steps.push(step);
                if result == target {
                    return true;
                }
                if explore(&new_numbers, target, steps) {
                    assert(old(steps)@.push(step) + search(new_numbers@, target).unwrap()
                        =~= old(steps)@ + (seq![step] + search(new_numbers@, target).unwrap()));
                    return true;
                }
                steps.pop();
                assert(steps@ =~= old(steps)@);
            }
            o = o + 1;
        }
        p = p + 1;
    }
    false
}

/// Looks for a chain of legal operations on `numbers` that reaches `target`.
/// Where `target` is already one of the tiles the solution has no step;
/// otherwise the first chain in the fixed search order is returned, and
/// `None` where there is none.
pub fn solve(numbers: &[i32], target: i32) -> (r: Option<Solution>)
    ensures
        r.is_some() == solve_spec(numbers@, target).is_some(),
        r matches Some(s) ==> s.target == target && s.steps@ == solve_spec(numbers@, target).unwrap(),
        numbers@.contains(target) ==> (r matches Some(s) && s.steps@.len() == 0),
        r matches Some(s) ==> is_solution(numbers@, target, s.steps@),
        r matches Some(s) ==> (s.steps@.len() > 0 ==> s.steps@.last().result == target),
        r matches Some(s) ==> forall|k: int|
            0 <= k < s.steps@.len() ==> step_legal(#[trigger] s.steps@[k]),
        r is None <==> !exists|p: Seq<CalculationStep>| is_solution(numbers@, target, p),
{
    let count: usize = numbers.len();
    proof {
        assert(numbers@.len() == count);
        lemma_solve_correct(numbers@, target);
    }
    if contains_value(numbers, target) {
        return Some(Solution { steps: Vec::new(), target });
    }
    let mut steps: Vec<CalculationStep> = Vec::new();
    let nums = slice_to_vec(numbers);
    if explore(&nums, target, &mut steps) {
        assert(seq![] + search(numbers@, target).unwrap() =~= search(numbers@, target).unwrap());
        Some(Solution { steps, target })
    } else {
        None
    }
}

} // verus!

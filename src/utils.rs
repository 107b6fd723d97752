//! The rules of the operations, and the enumeration of operand pairs.
use vstd::prelude::*;
use vstd::seq_lib::{lemma_multiset_commutative, to_multiset_update};
use rand::Rng;
use rand::rngs::ThreadRng;
use crate::types::Operation;

verus! {

/// `d` divides `n` exactly, `d` being non-zero.
pub open spec fn divides(d: int, n: int) -> bool {
    d != 0 && n % d == 0
}

/// The value of `op` on `a` and `b` over the integers, or `None` where the
/// rules forbid it. A subtraction gives the distance of the two operands, so
/// it is never negative; a division needs one operand to divide the other.
pub open spec fn operation_value(a: int, b: int, op: Operation) -> Option<int> {
    match op {
        Operation::Add => Some(a + b),
        Operation::Subtract => Some(if a >= b { a - b } else { b - a }),
        Operation::Multiply => Some(a * b),
        Operation::Divide => if divides(b, a) {
            Some(a / b)
        } else if divides(a, b) {
            Some(b / a)
        } else {
            None
        },
    }
}

pub open spec fn fits_i32(v: int) -> bool {
    i32::MIN <= v <= i32::MAX
}

/// What applying `op` to `a` and `b` yields: the value of the operation
/// where the rules allow it and it fits in an `i32`, else nothing.
pub open spec fn apply_spec(a: i32, b: i32, op: Operation) -> Option<i32> {
    match operation_value(a as int, b as int, op) {
        Some(v) => if fits_i32(v) { Some(v as i32) } else { None },
        None => None,
    }
}

/// Applies `op` to `a` and `b` when the rules allow it. A result that does
/// not fit in an `i32` is refused like an illegal operation.
pub fn apply_operation(a: i32, b: i32, op: Operation) -> (r: Option<i32>)
    ensures
        r == apply_spec(a, b, op),
{
    match op {
        Operation::Add => a.checked_add(b),
        Operation::Subtract => {
            if a >= b {
                a.checked_sub(b)
            } else {
                b.checked_sub(a)
            }
        },
        Operation::Multiply => a.checked_mul(b),
        Operation::Divide => {
            if b != 0 && a.checked_rem_euclid(b) == Some(0i32) {
                a.checked_div_euclid(b)
            } else if a != 0 && b.checked_rem_euclid(a) == Some(0i32) {
                b.checked_div_euclid(a)
            } else {
                None
            }
        },
    }
}

/// Row `i` of the pairs of positions below `n`: `(i, i+1)` up to `(i, n-1)`.
pub open spec fn pair_row(i: int, n: int) -> Seq<(usize, usize)> {
    Seq::new((n - i - 1) as nat, |k: int| (i as usize, (i + 1 + k) as usize))
}

/// The pairs `(i, j)` with `i < j` and `i` below `m`, `j` below `n`, in
/// ascending lexicographic order.
pub open spec fn pairs_before(m: int, n: int) -> Seq<(usize, usize)>
    decreases m,
{
    if m <= 0 {
        seq![]
    } else {
        pairs_before(m - 1, n) + pair_row(m - 1, n)
    }
}

/// Every pair of distinct positions below `n`, in ascending lexicographic order.
pub open spec fn pair_seq(n: int) -> Seq<(usize, usize)> {
    pairs_before(n, n)
}

/// Each pair of `pairs_before(m, n)` has positions `i < j < n`.
pub proof fn lemma_pairs_in_bounds(m: int, n: int)
    requires
        0 <= m <= n <= usize::MAX,
    ensures
        forall|k: int|
            0 <= k < pairs_before(m, n).len() ==> #[trigger] pairs_before(m, n)[k].0
                < pairs_before(m, n)[k].1 < n && pairs_before(m, n)[k].0 < m,
    decreases m,
{
    if m > 0 {
        lemma_pairs_in_bounds(m - 1, n);
        let prev = pairs_before(m - 1, n);
        let row = pair_row(m - 1, n);
        assert forall|k: int| 0 <= k < pairs_before(m, n).len() implies #[trigger] pairs_before(
            m,
            n,
        )[k].0 < pairs_before(m, n)[k].1 < n && pairs_before(m, n)[k].0 < m by {
            assert(pairs_before(m, n) == prev + row);
            if k >= prev.len() {
                let kk = k - prev.len();
                assert(row[kk] == ((m - 1) as usize, (m + kk) as usize));
                assert(pairs_before(m, n)[k] == row[kk]);
                assert(pairs_before(m, n)[k].0 < pairs_before(m, n)[k].1);
            } else {
                assert(pairs_before(m, n)[k] == prev[k]);
                assert(prev[k].0 < prev[k].1 < n);
            }
        }
    }
}

/// Each pair `(i, j)` with `i < j < n` and `i < m` stands in `pairs_before(m, n)`;
/// the index where it stands is returned.
pub proof fn lemma_pair_index(i: int, j: int, m: int, n: int) -> (k: int)
    requires
        0 <= i < j < n,
        i < m <= n <= usize::MAX,
    ensures
        0 <= k < pairs_before(m, n).len(),
        pairs_before(m, n)[k] == (i as usize, j as usize),
    decreases m,
{
    let prev = pairs_before(m - 1, n);
    let row = pair_row(m - 1, n);
    assert(pairs_before(m, n) == prev + row);
    if i == m - 1 {
        let k = prev.len() + (j - i - 1);
        assert(pairs_before(m, n)[k] == row[j - i - 1]);
        k
    } else {
        let k = lemma_pair_index(i, j, m - 1, n);
        assert(pairs_before(m, n)[k] == prev[k]);
        k
    }
}

/// Enumerates every pair of positions `(i, j)` of `numbers` with `i < j`, in
/// ascending lexicographic order.
pub fn generate_pairs(numbers: &[i32]) -> (pairs: Vec<(usize, usize)>)
    ensures
        pairs@ == pair_seq(numbers@.len() as int),
        forall|k: int|
            0 <= k < pairs@.len() ==> #[trigger] pairs@[k].0 < pairs@[k].1 < numbers@.len(),
{
    let n = numbers.len();
    let mut pairs: Vec<(usize, usize)> = Vec::new();
    let mut i: usize = 0;
    while i < n
        invariant
            n == numbers@.len(),
            i <= n,
            pairs@ == pairs_before(i as int, n as int),
        decreases n - i,
    {
        let mut j: usize = i + 1;
        while j < n
            invariant
                n == numbers@.len(),
                i < n,
                i + 1 <= j <= n,
                pairs@ == pairs_before(i as int, n as int) + pair_row(i as int, n as int).take(
                    j - i - 1,
                ),
            decreases n - j,
        {
            pairs.push((i, j));
            proof {
                let row = pair_row(i as int, n as int);
                assert(row.take(j - i) =~= row.take(j - i - 1).push((i, j)));
            }
            j = j + 1;
        }
        proof {
            let row = pair_row(i as int, n as int);
            assert(row.take(n - i - 1) =~= row);
        }
        i = i + 1;
    }
    proof {
        lemma_pairs_in_bounds(n as int, n as int);
    }
    pairs
}

/// The numbered tiles `1, 1, 2, 2, ..., i, i`.
pub open spec fn numbered_tiles(i: int) -> Seq<i32>
    decreases i,
{
    if i <= 0 {
        seq![]
    } else {
        numbered_tiles(i - 1) + seq![i as i32, i as i32]
    }
}

/// The large tiles, two of each.
pub open spec fn large_tiles() -> Seq<i32> {
    seq![25i32, 25, 50, 50, 75, 75, 100, 100]
}

/// Every tile of the game: two of each number from 1 to 10, and two each of
/// 25, 50, 75 and 100.
pub open spec fn all_tiles() -> Seq<i32> {
    numbered_tiles(10) + large_tiles()
}

/// The number of tiles drawn for one game.
pub const DRAWN_TILES: usize = 6;

/// The number of random exchanges that shuffle the tiles.
pub const SHUFFLE_ROUNDS: usize = 1000;

#[verifier::external_type_specification]
#[verifier::external_body]
pub struct ExThreadRng(ThreadRng);

/// Relies on rand::rng: a handle on the generator of the current thread.
pub assume_specification[ rand::rng ]() -> ThreadRng;

/// Relies on rand::Rng::random_range: a value drawn from `0..bound`, which
/// panics on an empty range.
#[verifier::external_body]
fn random_below(rng: &mut ThreadRng, bound: usize) -> (r: usize)
    requires
        bound > 0,
    ensures
        r < bound,
{
    rng.random_range(0..bound)
}

/// Exchanging two entries keeps the multiset of a sequence.
proof fn lemma_swap_multiset(s: Seq<i32>, i: int, j: int)
    requires
        0 <= i < s.len(),
        0 <= j < s.len(),
    ensures
        s.update(i, s[j]).update(j, s[i]).to_multiset() == s.to_multiset(),
{
    broadcast use vstd::multiset::group_multiset_axioms;
    let s1 = s.update(i, s[j]);
    to_multiset_update(s, i, s[j]);
    to_multiset_update(s1, j, s[i]);
    assert(s1[j] == s[j]);
    let m = s.to_multiset();
    let m1 = m.insert(s[j]).remove(s[i]);
    assert(s1.to_multiset() == m1);
    assert(m.count(s[i]) > 0) by {
        assert(s.contains(s[i]));
        s.to_multiset_ensures();
    }
    assert(m1.insert(s[i]).remove(s[j]) =~= m);
}

/// `s` with the entries at positions `w.0` and `w.1` exchanged.
pub open spec fn exchanged(s: Seq<i32>, w: (usize, usize)) -> Seq<i32> {
    s.update(w.0 as int, s[w.1 as int]).update(w.1 as int, s[w.0 as int])
}

/// `tiles` after the exchanges of `swaps`, applied in order.
pub open spec fn shuffled(tiles: Seq<i32>, swaps: Seq<(usize, usize)>) -> Seq<i32>
    decreases swaps.len(),
{
    if swaps.len() == 0 {
        tiles
    } else {
        exchanged(shuffled(tiles, swaps.drop_last()), swaps.last())
    }
}

/// Every exchange of `swaps` names two positions below `n`.
pub open spec fn swaps_below(swaps: Seq<(usize, usize)>, n: int) -> bool {
    forall|k: int| 0 <= k < swaps.len() ==> #[trigger] swaps[k].0 < n && swaps[k].1 < n
}

/// The number of tiles of the game.
pub const TILE_COUNT: usize = 28;

proof fn lemma_numbered_tiles_len(i: int)
    requires
        i >= 0,
    ensures
        numbered_tiles(i).len() == 2 * i,
    decreases i,
{
    if i > 0 {
        lemma_numbered_tiles_len(i - 1);
    }
}

proof fn lemma_tile_count()
    ensures
        all_tiles().len() == TILE_COUNT,
{
    lemma_numbered_tiles_len(10);
}

/// The tiles of the game in order, shuffled by the exchanges of `swaps`
/// applied in order, of which the first six are taken.
pub fn draw_tiles(swaps: &Vec<(usize, usize)>) -> (r: Vec<i32>)
    requires
        swaps_below(swaps@, all_tiles().len() as int),
    ensures
        r@ == shuffled(all_tiles(), swaps@).take(DRAWN_TILES as int),
        r@.len() == DRAWN_TILES,
        r@.to_multiset().subset_of(all_tiles().to_multiset()),
{
    proof {
        lemma_tile_count();
    }
    let mut available: Vec<i32> = Vec::new();
    let mut i: i32 = 1;
    while i <= 10
        invariant
            1 <= i <= 11,
            available@ == numbered_tiles(i - 1),
        decreases 11 - i,
    {
        available.push(i);
        available.push(i);
        assert(available@ =~= numbered_tiles(i as int));
        i = i + 1;
    }
    let large: [i32; 8] = [25, 25, 50, 50, 75, 75, 100, 100];
    let mut k: usize = 0;
    while k < 8
        invariant
            k <= 8,
            large@ == large_tiles(),
            available@ == numbered_tiles(10) + large_tiles().take(k as int),
        decreases 8 - k,
    {
        available.push(large[k]);
        assert(large_tiles().take(k + 1) =~= large_tiles().take(k as int).push(large@[k as int]));
        k = k + 1;
    }
    assert(large_tiles().take(8) =~= large_tiles());
    assert(swaps@.take(0) =~= Seq::<(usize, usize)>::empty());
    let mut round: usize = 0;
    while round < swaps.len()
        invariant
            round <= swaps@.len(),
            swaps_below(swaps@, all_tiles().len() as int),
            all_tiles().len() == TILE_COUNT,
            available@.len() == TILE_COUNT,
            available@ == shuffled(all_tiles(), swaps@.take(round as int)),
            available@.to_multiset() == all_tiles().to_multiset(),
        decreases swaps@.len() - round,
    {
        let (a, b) = swaps[round];
        assert(swaps@[round as int].0 < TILE_COUNT && swaps@[round as int].1 < TILE_COUNT);
        let x = available[a];
        let y = available[b];
        proof {
            lemma_swap_multiset(available@, a as int, b as int);
            let next = swaps@.take(round + 1);
            assert(next.drop_last() =~= swaps@.take(round as int));
            assert(next.last() == (a, b));
        }
        available[a] = y;
        available[b] = x;
        round = round + 1;
    }
    assert(swaps@.take(swaps@.len() as int) =~= swaps@);
    let mut drawn: Vec<i32> = Vec::new();
    let mut m: usize = 0;
    while m < DRAWN_TILES
        invariant
            m <= DRAWN_TILES,
            available@.len() == TILE_COUNT,
            drawn@ == available@.take(m as int),
        decreases DRAWN_TILES - m,
    {
        drawn.push(available[m]);
        assert(available@.take(m + 1) =~= available@.take(m as int).push(available@[m as int]));
        m = m + 1;
    }
    proof {
        let rest = available@.skip(DRAWN_TILES as int);
        assert(drawn@ + rest =~= available@);
        lemma_multiset_commutative(drawn@, rest);
        broadcast use vstd::multiset::group_multiset_axioms;
        assert(drawn@.to_multiset().subset_of(available@.to_multiset()));
    }
    drawn
}

/// Draws six tiles at random from the tiles of the game: a thousand random
/// exchanges shuffle the tiles and the first six are taken.
pub fn random_plaques() -> (r: Vec<i32>)
    ensures
        exists|sw: Seq<(usize, usize)>|
            sw.len() == SHUFFLE_ROUNDS && swaps_below(sw, all_tiles().len() as int) && r@
                == shuffled(all_tiles(), sw).take(DRAWN_TILES as int),
        r@.len() == DRAWN_TILES,
        r@.to_multiset().subset_of(all_tiles().to_multiset()),
{
    proof {
        lemma_tile_count();
    }
    let mut rng = rand::rng();
    let mut swaps: Vec<(usize, usize)> = Vec::new();
    let mut round: usize = 0;
    while round < SHUFFLE_ROUNDS
        invariant
            round <= SHUFFLE_ROUNDS,
            swaps@.len() == round,
            all_tiles().len() == TILE_COUNT,
            swaps_below(swaps@, TILE_COUNT as int),
        decreases SHUFFLE_ROUNDS - round,
    {
        let a = random_below(&mut rng, TILE_COUNT);
        let b = random_below(&mut rng, TILE_COUNT);
        swaps.push((a, b));
        assert(swaps@.last() == (a, b));
        round = round + 1;
    }
    draw_tiles(&swaps)
}

/// The target that a draw `d` from `0..900` stands for.
pub open spec fn target_of_draw(d: int) -> int {
    100 + d
}

/// The target that a draw `d` from `0..900` stands for: `100 + d`.
pub fn target_from_draw(d: usize) -> (r: i32)
    requires
        d < 900,
    ensures
        r == target_of_draw(d as int),
{
    100 + d as i32
}

/// Draws a target at random between 100 and 999.
pub fn random_target() -> (r: i32)
    ensures
        exists|d: int| 0 <= d < 900 && r == #[trigger] target_of_draw(d),
        100 <= r < 1000,
{
    let mut rng = rand::rng();
    let d = random_below(&mut rng, 900);
    target_from_draw(d)
}

} // verus!

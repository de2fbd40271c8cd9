//! How large a table is made: at construction, and when a table gets a
//! successor.

use vstd::prelude::*;
use vstd::arithmetic::power2::is_pow2;
use crate::table::{MAX_SIZE, MIN_SIZE};

verus! {

/// The largest size that a caller may ask a new map for; a larger request counts as this.
pub const MAX_INITIAL_SIZE: usize = 0x10_0000;

/// The least power of two that is at least `target` and at least `MIN_SIZE`.
pub open spec fn round_up_spec(target: int) -> int
    decreases target,
{
    if target <= MIN_SIZE {
        MIN_SIZE as int
    } else {
        2 * round_up_spec((target + 1) / 2)
    }
}

/// Rounding up gives the least admissible size that is no smaller: a power of two between
/// the smallest and the largest table, less than twice what was asked for, and the size
/// asked for if that is admissible itself.
pub proof fn lemma_round_up(target: int)
    ensures
        is_pow2(round_up_spec(target)),
        round_up_spec(target) >= MIN_SIZE,
        round_up_spec(target) >= target,
        target > MIN_SIZE ==> round_up_spec(target) < 2 * target,
        target <= MAX_SIZE ==> round_up_spec(target) <= MAX_SIZE,
        is_pow2(target) && target >= MIN_SIZE ==> round_up_spec(target) == target,
    decreases target,
{
    reveal_with_fuel(is_pow2, 5);
    if target > MIN_SIZE {
        lemma_round_up((target + 1) / 2);
        if target <= MAX_SIZE {
            assert((target + 1) / 2 <= MAX_SIZE / 2);
            lemma_round_up_half(target);
        }
    }
}

/// Rounding up half of a size that is within the limit stays within half the limit.
proof fn lemma_round_up_half(target: int)
    requires
        MIN_SIZE < target <= MAX_SIZE,
    ensures
        round_up_spec((target + 1) / 2) <= MAX_SIZE / 2,
{
    vstd::arithmetic::power2::lemma2_to64();
    lemma_round_up_within((target + 1) / 2, 27);
}

/// A size that is at most the `e`th power of two rounds up to at most that power.
pub proof fn lemma_round_up_within(target: int, e: nat)
    requires
        3 <= e,
        target <= vstd::arithmetic::power2::pow2(e),
    ensures
        round_up_spec(target) <= vstd::arithmetic::power2::pow2(e),
    decreases target,
{
    vstd::arithmetic::power2::lemma2_to64();
    if target <= MIN_SIZE {
        if e > 3 {
            vstd::arithmetic::power2::lemma_pow2_strictly_increases(3, e);
        }
    } else {
        if e == 3 {
        } else {
            vstd::arithmetic::power2::lemma_pow2_unfold(e);
            lemma_round_up_within((target + 1) / 2, (e - 1) as nat);
        }
    }
}

/// Rounds a size up to a size that a table may have.
pub fn round_up(target: usize) -> (size: usize)
    requires
        target <= MAX_SIZE,
    ensures
        size == round_up_spec(target as int),
        is_pow2(size as int),
        MIN_SIZE <= size <= MAX_SIZE,
        size >= target,
{
    proof {
        lemma_round_up(target as int);
    }
    let mut size: usize = MIN_SIZE;
    let ghost mut rest: int = target as int;
    while size < target
        invariant
            MIN_SIZE <= size <= MAX_SIZE,
            rest <= target,
            round_up_spec(target as int) * MIN_SIZE == size * round_up_spec(rest),
            round_up_spec(target as int) <= MAX_SIZE,
            (size < target) == (rest > MIN_SIZE),
            size * rest >= MIN_SIZE * target,
            size * (rest - 1) < MIN_SIZE * target,
        decreases rest,
    {
        proof {
            lemma_round_up((rest + 1) / 2);
            let half = (rest + 1) / 2;
            assert(round_up_spec(rest) == 2 * round_up_spec(half));
            assert(round_up_spec(target as int) * MIN_SIZE == (size * 2) * round_up_spec(half))
                by (nonlinear_arith)
                requires
                    round_up_spec(target as int) * MIN_SIZE == size * round_up_spec(rest),
                    round_up_spec(rest) == 2 * round_up_spec(half),
            ;
            assert(size * 2 <= MAX_SIZE) by (nonlinear_arith)
                requires
                    round_up_spec(target as int) * MIN_SIZE == (size * 2) * round_up_spec(half),
                    round_up_spec(half) >= MIN_SIZE,
                    round_up_spec(target as int) <= MAX_SIZE,
                    size >= 0,
            ;
            assert((size * 2) * half >= MIN_SIZE * target) by (nonlinear_arith)
                requires
                    size * rest >= MIN_SIZE * target,
                    2 * half >= rest,
                    size >= 0,
            ;
            assert((size * 2) * (half - 1) < MIN_SIZE * target) by (nonlinear_arith)
                requires
                    size * (rest - 1) < MIN_SIZE * target,
                    2 * (half - 1) <= rest - 1,
                    size >= 0,
            ;
            assert((size * 2 < target) == (half > MIN_SIZE)) by (nonlinear_arith)
                requires
                    (size * 2) * half >= MIN_SIZE * target,
                    (size * 2) * (half - 1) < MIN_SIZE * target,
                    size >= MIN_SIZE,
                    half >= 1,
            ;
            rest = half;
        }
        size = size * 2;
    }
    assert(round_up_spec(rest) == MIN_SIZE);
    assert(size == round_up_spec(target as int)) by (nonlinear_arith)
        requires
            round_up_spec(target as int) * MIN_SIZE == size * MIN_SIZE,
    ;
    size
}

/// `factor` times `n`, but no more than the largest table.
pub open spec fn scaled(n: int, factor: int) -> int {
    if n * factor <= MAX_SIZE {
        n * factor
    } else {
        MAX_SIZE as int
    }
}

/// The size of the successor of a table of `n` slots that counts `size` live entries and
/// `slots` used key cells, when the root last moved on at `last_resize` and it is `now`.
///
/// A table that is a quarter full doubles, and one that is half full quadruples. A table
/// that would not grow doubles all the same if the last resize is no more than a second
/// ago and at least half of its used slots are dead. A successor is never smaller than
/// its table.
pub open spec fn successor_size(size: int, n: int, slots: int, last_resize: int, now: int) -> int {
    let by_load = if size >= n / 2 {
        scaled(n, 4)
    } else if size >= n / 4 {
        scaled(n, 2)
    } else {
        size
    };
    let by_churn = if by_load <= n && now <= last_resize + 1 && slots >= 2 * size {
        scaled(n, 2)
    } else {
        by_load
    };
    round_up_spec(
        if by_churn < n {
            n
        } else {
            by_churn
        },
    )
}

/// Computes the size of a table's successor.
pub fn next_size(size: usize, oldlen: usize, slots: usize, last_resize: i64, now: i64) -> (newsz:
    usize)
    requires
        MIN_SIZE <= oldlen <= MAX_SIZE,
        size <= MAX_SIZE,
    ensures
        newsz == successor_size(
            size as int,
            oldlen as int,
            slots as int,
            last_resize as int,
            now as int,
        ),
        is_pow2(newsz as int),
        oldlen <= newsz <= MAX_SIZE,
{
    let mut newsz = size;
    if size >= oldlen / 4 {
        newsz = if oldlen <= MAX_SIZE / 2 {
            oldlen * 2
        } else {
            MAX_SIZE
        };
        if size >= oldlen / 2 {
            newsz = if oldlen <= MAX_SIZE / 4 {
                oldlen * 4
            } else {
                MAX_SIZE
            };
        }
    }
    let recent = last_resize == i64::MAX || now <= last_resize + 1;
    if newsz <= oldlen && recent && slots >= size * 2 {
        newsz = if oldlen <= MAX_SIZE / 2 {
            oldlen * 2
        } else {
            MAX_SIZE
        };
    }
    if newsz < oldlen {
        newsz = oldlen;
    }
    round_up(newsz)
}

} // verus!

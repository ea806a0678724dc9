//! Difficulty retargeting and the proof-of-work test.

use vstd::prelude::*;
use crate::config::{DIFFICULTY_BOUND_DIVISOR, MINIMUM_DIFFICULTY};
use crate::hash;
use crate::hash::{pow64, pow128, pow192, pow256};

verus! {

/// Length in milliseconds of one retargeting interval: two thirds of the block time.
pub const CHAIN_TIME_RANGE: u64 = 10000;

/// Largest number of adjustment steps in one retargeting.
pub const MAX_ADJUSTMENT_STEPS: u64 = 99;

/// Milliseconds from `parent_timestamp` to `new_timestamp`; a parent that is
/// not earlier counts as no time elapsed.
pub open spec fn elapsed_millis(parent_timestamp: u128, new_timestamp: u128) -> int {
    if new_timestamp >= parent_timestamp {
        new_timestamp - parent_timestamp
    } else {
        0
    }
}

/// Whole retargeting intervals between the two timestamps.
pub open spec fn elapsed_intervals(parent_timestamp: u128, new_timestamp: u128) -> int {
    elapsed_millis(parent_timestamp, new_timestamp) / (CHAIN_TIME_RANGE as int)
}

/// Whether the difficulty grows: fewer intervals went by than there are tips.
pub open spec fn difficulty_grows(tips_count: u64, parent_timestamp: u128, new_timestamp: u128) -> bool {
    elapsed_intervals(parent_timestamp, new_timestamp) < tips_count
}

/// Number of adjustment steps: the distance between the tip count and the
/// elapsed intervals, at most [`MAX_ADJUSTMENT_STEPS`].
pub open spec fn adjustment_steps(tips_count: u64, parent_timestamp: u128, new_timestamp: u128) -> int {
    let x = elapsed_intervals(parent_timestamp, new_timestamp);
    let gap = if x < tips_count {
        tips_count - x
    } else {
        x - tips_count
    };
    if gap > MAX_ADJUSTMENT_STEPS {
        MAX_ADJUSTMENT_STEPS as int
    } else {
        gap
    }
}

/// The retargeted difficulty before it is held to the range of difficulties.
pub open spec fn unbounded_difficulty(
    tips_count: u64,
    parent_timestamp: u128,
    new_timestamp: u128,
    previous_difficulty: u64,
) -> int {
    let adjust = previous_difficulty as int / (DIFFICULTY_BOUND_DIVISOR as int);
    let steps = adjustment_steps(tips_count, parent_timestamp, new_timestamp);
    if difficulty_grows(tips_count, parent_timestamp, new_timestamp) {
        previous_difficulty + adjust * steps
    } else {
        previous_difficulty - adjust * steps
    }
}

/// The retargeted difficulty: never under the minimum, and held to 64 bits.
pub open spec fn retargeted_difficulty(
    tips_count: u64,
    parent_timestamp: u128,
    new_timestamp: u128,
    previous_difficulty: u64,
) -> int {
    let raw = unbounded_difficulty(tips_count, parent_timestamp, new_timestamp, previous_difficulty);
    if raw < MINIMUM_DIFFICULTY {
        MINIMUM_DIFFICULTY as int
    } else if raw > u64::MAX {
        u64::MAX as int
    } else {
        raw
    }
}

/// Retargets the difficulty from that of the best tip, the time between the
/// best tip and its own best parent, and the number of tips.
pub fn calculate_difficulty(
    tips_count: u64,
    parent_timestamp: u128,
    new_timestamp: u128,
    previous_difficulty: u64,
) -> (difficulty: u64)
    ensures
        difficulty as int == retargeted_difficulty(
            tips_count,
            parent_timestamp,
            new_timestamp,
            previous_difficulty,
        ),
        difficulty >= MINIMUM_DIFFICULTY,
{
    let adjust: u64 = previous_difficulty / DIFFICULTY_BOUND_DIVISOR;
    let elapsed: u128 = if new_timestamp >= parent_timestamp {
        new_timestamp - parent_timestamp
    } else {
        0
    };
    let x: u128 = elapsed / (CHAIN_TIME_RANGE as u128);
    let tips: u128 = tips_count as u128;
    let grows = x < tips;
    let gap: u128 = if grows {
        tips - x
    } else {
        x - tips
    };
    let steps: u128 = if gap > MAX_ADJUSTMENT_STEPS as u128 {
        MAX_ADJUSTMENT_STEPS as u128
    } else {
        gap
    };
    assert(adjust as int * steps as int <= adjust as int * 99) by (nonlinear_arith)
        requires
            0 <= steps <= 99,
            0 <= adjust,
    ;
    assert(adjust as int * steps as int >= 0) by (nonlinear_arith)
        requires
            0 <= steps,
            0 <= adjust,
    ;
    let change: u128 = (adjust as u128) * steps;
    let raw: u128 = if grows {
        previous_difficulty as u128 + change
    } else {
        previous_difficulty as u128 - change
    };
    if raw < MINIMUM_DIFFICULTY as u128 {
        MINIMUM_DIFFICULTY
    } else if raw > u64::MAX as u128 {
        u64::MAX
    } else {
        raw as u64
    }
}

/// Whether a digest meets a difficulty: read as a big-endian integer and
/// multiplied by the difficulty it stays within 256 bits.
pub open spec fn meets_difficulty(h: hash::Hash, difficulty: u64) -> bool {
    h.value() * (difficulty as int) <= pow256() - 1
}

/// The proof-of-work test.
pub fn check_difficulty(h: &hash::Hash, difficulty: u64) -> (ok: bool)
    ensures
        ok == meets_difficulty(*h, difficulty),
{
    let d: u128 = difficulty as u128;
    let ghost q0: int = h.w0 as int * difficulty as int;
    let ghost q1: int = h.w1 as int * difficulty as int;
    let ghost q2: int = h.w2 as int * difficulty as int;
    let ghost q3: int = h.w3 as int * difficulty as int;
    proof {
        lemma_word_product(h.w0, difficulty);
        lemma_word_product(h.w1, difficulty);
        lemma_word_product(h.w2, difficulty);
        lemma_word_product(h.w3, difficulty);
        assert(h.value() * (difficulty as int) == q0 * pow192() + q1 * pow128() + q2 * pow64()
            + q3) by (nonlinear_arith)
            requires
                h.value() == h.w0 as int * pow192() + h.w1 as int * pow128() + h.w2 as int
                    * pow64() + h.w3 as int,
                q0 == h.w0 as int * difficulty as int,
                q1 == h.w1 as int * difficulty as int,
                q2 == h.w2 as int * difficulty as int,
                q3 == h.w3 as int * difficulty as int,
        ;
    }
    let t3: u128 = (h.w3 as u128) * d;
    let c3: u128 = t3 / 18446744073709551616;
    let t2: u128 = (h.w2 as u128) * d + c3;
    let c2: u128 = t2 / 18446744073709551616;
    let t1: u128 = (h.w1 as u128) * d + c2;
    let c1: u128 = t1 / 18446744073709551616;
    let t0: u128 = (h.w0 as u128) * d + c1;
    proof {
        let r3 = t3 as int % pow64();
        let r2 = t2 as int % pow64();
        let r1 = t1 as int % pow64();
        assert(q3 == c3 * pow64() + r3);
        assert(q2 + c3 == c2 * pow64() + r2);
        assert(q1 + c2 == c1 * pow64() + r1);
        assert(q0 * pow192() + q1 * pow128() + q2 * pow64() + q3 == t0 as int * pow192() + r1
            * pow128() + r2 * pow64() + r3) by {
            assert(pow128() == pow64() * pow64());
            assert(pow192() == pow128() * pow64());
            assert(c3 * pow64() == q3 - r3);
            assert(c2 * pow64() * pow64() == (q2 + c3 - r2) * pow64()) by (nonlinear_arith)
                requires
                    q2 + c3 == c2 * pow64() + r2,
            ;
            assert(c1 * pow64() * pow128() == (q1 + c2 - r1) * pow128()) by (nonlinear_arith)
                requires
                    q1 + c2 == c1 * pow64() + r1,
            ;
            assert(t0 as int == q0 + c1);
            assert(t0 as int * pow192() == q0 * pow192() + c1 * pow64() * pow128())
                by (nonlinear_arith)
                requires
                    t0 as int == q0 + c1,
                    pow192() == pow128() * pow64(),
            ;
            assert((q2 + c3 - r2) * pow64() == q2 * pow64() + c3 * pow64() - r2 * pow64())
                by (nonlinear_arith);
            assert((q1 + c2 - r1) * pow128() == q1 * pow128() + c2 * pow128() - r1 * pow128())
                by (nonlinear_arith);
            assert(c2 * pow128() == c2 * pow64() * pow64()) by (nonlinear_arith)
                requires
                    pow128() == pow64() * pow64(),
            ;
        }
        if t0 < 18446744073709551616 {
            assert(t0 as int * pow192() <= (pow64() - 1) * pow192()) by (nonlinear_arith)
                requires
                    t0 as int <= pow64() - 1,
                    pow192() > 0,
            ;
            assert(r1 * pow128() <= (pow64() - 1) * pow128()) by (nonlinear_arith)
                requires
                    r1 <= pow64() - 1,
                    pow128() > 0,
            ;
            assert(r2 * pow64() <= (pow64() - 1) * pow64()) by (nonlinear_arith)
                requires
                    r2 <= pow64() - 1,
                    pow64() > 0,
            ;
        } else {
            assert(t0 as int * pow192() >= pow64() * pow192()) by (nonlinear_arith)
                requires
                    t0 as int >= pow64(),
                    pow192() > 0,
            ;
            assert(r1 * pow128() >= 0) by (nonlinear_arith)
                requires
                    r1 >= 0,
                    pow128() > 0,
            ;
            assert(r2 * pow64() >= 0) by (nonlinear_arith)
                requires
                    r2 >= 0,
                    pow64() > 0,
            ;
        }
    }
    t0 < 18446744073709551616
}

/// The product of a 64-bit word and a difficulty leaves room, within 128
/// bits, for a 64-bit carry.
proof fn lemma_word_product(w: u64, d: u64)
    ensures
        0 <= w as int * d as int <= 340282366920938463426481119284349108225,
{
    assert(0 <= w as int * d as int <= 18446744073709551615 * 18446744073709551615)
        by (nonlinear_arith)
        requires
            0 <= w as int <= 18446744073709551615,
            0 <= d as int <= 18446744073709551615,
    ;
}

} // verus!

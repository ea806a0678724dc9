//! Network parameters.

use vstd::prelude::*;

verus! {

/// Largest number of parents a block may reference.
pub const TIPS_LIMIT: usize = 3;

/// Number of heights after which a narrowed block can no longer be re-ordered.
pub const STABLE_HEIGHT_LIMIT: u64 = 8;

/// Target time between two blocks, in milliseconds.
pub const BLOCK_TIME_MILLIS: u64 = 15000;

/// How far in the future, in milliseconds, a block timestamp may lie.
pub const TIMESTAMP_IN_FUTURE_LIMIT: u128 = 2000;

/// Largest size in bytes of a block header together with its transactions.
pub const MAX_BLOCK_SIZE: usize = 1048576;

/// Fee owed for each started kilobyte of a transaction.
pub const FEE_PER_KB: u64 = 1000;

/// Number of decimals of the native coin.
pub const COIN_DECIMALS: u8 = 5;

/// Atomic units in one coin.
pub const COIN_VALUE: u64 = 100000;

/// Right shift applied to the supply left to emit.
pub const EMISSION_SPEED_FACTOR: u64 = 21;

/// Largest supply, in atomic units.
pub const MAX_SUPPLY: u64 = 1840000000000;

/// Share of the nominal reward, in percent, that a side block earns.
pub const SIDE_BLOCK_REWARD_PERCENT: u64 = 30;

/// Share of the block reward, in percent, that goes to the development key.
pub const DEV_FEE_PERCENT: u64 = 5;

/// Divisor of the previous difficulty that gives one adjustment step.
pub const DIFFICULTY_BOUND_DIVISOR: u64 = 2048;

/// Lowest difficulty a block can have.
pub const MINIMUM_DIFFICULTY: u64 = 150000;

/// Largest total size in bytes of the extra data of a transfer's outputs.
pub const EXTRA_DATA_LIMIT_SIZE: usize = 1024;

} // verus!

//! Clock readings and the fee floor.

use vstd::prelude::*;
use crate::config::FEE_PER_KB;

verus! {

/// Seconds since the Unix epoch, read from the system clock (`SystemTime::now`).
/// Nothing is claimed of the reading; a clock set before the epoch reads as 0.
#[verifier::external_body]
pub fn get_current_time() -> (seconds: u64) {
    match std::time::SystemTime::now().duration_since(std::time::UNIX_EPOCH) {
        Ok(elapsed) => elapsed.as_secs(),
        Err(_) => 0,
    }
}

/// Milliseconds since the Unix epoch, read from the system clock
/// (`SystemTime::now`). Nothing is claimed of the reading; a clock set before
/// the epoch reads as 0.
#[verifier::external_body]
pub fn get_current_timestamp() -> (millis: u128) {
    match std::time::SystemTime::now().duration_since(std::time::UNIX_EPOCH) {
        Ok(elapsed) => elapsed.as_millis(),
        Err(_) => 0,
    }
}

/// Number of started kilobytes in `size` bytes.
pub open spec fn started_kilobytes(size: int) -> int {
    if size % 1024 == 0 {
        size / 1024
    } else {
        size / 1024 + 1
    }
}

/// The least fee of a transaction of `tx_size` bytes.
pub open spec fn fee_floor(tx_size: int) -> int {
    started_kilobytes(tx_size) * (FEE_PER_KB as int)
}

/// The least fee of a transaction of `tx_size` bytes: each started kilobyte
/// costs [`FEE_PER_KB`].
pub fn calculate_tx_fee(tx_size: usize) -> (fee: u64)
    ensures
        fee as int == fee_floor(tx_size as int),
{
    let mut size_in_kb: u64 = tx_size as u64 / 1024;
    if tx_size % 1024 != 0 {
        size_in_kb = size_in_kb + 1;
    }
    size_in_kb * FEE_PER_KB
}

} // verus!

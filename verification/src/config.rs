//! Configuration checks that must pass before any partitioning begins.
//!
//! Skew injection randomizes shard placement, which breaks per-key shard
//! locality; combining it with an exact cross-shard count is contradictory
//! and is rejected here rather than silently producing wrong counts.

use vstd::prelude::*;

verus! {

/// The largest admissible skew factor.
pub const MAX_SKEW_FACTOR: u8 = 26;

/// An invalid combination of options, fatal before any work starts.
#[derive(Debug, PartialEq, Eq, Structural)]
pub enum ConfigError {
    /// The skew factor lies outside the admissible range, or skew is
    /// enabled with an empty prefix range.
    SkewFactorOutOfRange,
    /// Skew injection was combined with a correctness-sensitive exact
    /// count, which it would silently falsify.
    SkewWithExactCounting,
}

/// Accept exactly the workable configurations: the skew factor never above
/// the admissible bound, and skew injection neither empty-ranged nor
/// combined with exact counting.
pub fn validate_config(skew: bool, factor: u8, exact_counts: bool) -> (r: Result<
    (),
    ConfigError,
>)
    ensures
        r == if factor > MAX_SKEW_FACTOR {
            Err::<(), ConfigError>(ConfigError::SkewFactorOutOfRange)
        } else if skew && exact_counts {
            Err::<(), ConfigError>(ConfigError::SkewWithExactCounting)
        } else if skew && factor == 0 {
            Err::<(), ConfigError>(ConfigError::SkewFactorOutOfRange)
        } else {
            Ok::<(), ConfigError>(())
        },
{
    if factor > MAX_SKEW_FACTOR {
        Err(ConfigError::SkewFactorOutOfRange)
    } else if skew && exact_counts {
        Err(ConfigError::SkewWithExactCounting)
    } else if skew && factor == 0 {
        Err(ConfigError::SkewFactorOutOfRange)
    } else {
        Ok(())
    }
}

} // verus!

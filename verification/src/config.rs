//! Configuration parameters for the sharding module.

use vstd::prelude::*;

verus! {

/// How many nanoseconds one millisecond has.
pub const NANOS_PER_MILLI: u128 = 1_000_000;

/// Configuration parameters for K2Sharding: those that are whole numbers. The
/// factors by which the measured staleness is scaled are kept with the clock.
#[derive(Clone, Copy, Debug)]
pub struct K2ShardingConfig {
    /// The desired number of copies of every DHT sector.
    ///
    /// The controller grows an agent's target arc while any sector it could
    /// take on has fewer declared holders than this, and only considers
    /// shrinking when every sector it would drop has strictly more than this
    /// many holders besides itself.
    ///
    /// Default: 5
    pub target_redundancy: u32,
    /// Below this many visible (non-tombstoned) peers, agents keep a full arc
    /// and never shrink.
    ///
    /// Default: 25
    pub clamp_min_peers: u32,
    /// The interval in milliseconds between controller decision checks.
    ///
    /// Default: 5,000 (5s)
    pub check_interval_ms: u32,
    /// A lower bound in milliseconds on the shrink-intent wait, applied
    /// regardless of how small the measured staleness is.
    ///
    /// Default: 10,000 (10s)
    pub intent_min_wait_ms: u32,
    /// Lower clamp in milliseconds on the measured gossip staleness used to
    /// scale the hysteresis.
    ///
    /// Default: 1,000 (1s)
    pub lag_floor_ms: u32,
    /// Upper clamp in milliseconds on the measured gossip staleness used to
    /// scale the hysteresis. Also used as the assumed staleness while no gossip
    /// round has completed yet.
    ///
    /// Default: 300,000 (5m)
    pub lag_ceiling_ms: u32,
    /// Whether a shrink is announced by narrowing the declared arc, in place of
    /// a message.
    ///
    /// Default: false
    pub agentinfo_encoding: bool,
}

impl Default for K2ShardingConfig {
    fn default() -> (config: K2ShardingConfig)
        ensures
            config.target_redundancy == 5,
            config.clamp_min_peers == 25,
            config.check_interval_ms == 5_000,
            config.intent_min_wait_ms == 10_000,
            config.lag_floor_ms == 1_000,
            config.lag_ceiling_ms == 300_000,
            !config.agentinfo_encoding,
    {
        K2ShardingConfig {
            target_redundancy: 5,
            clamp_min_peers: 25,
            check_interval_ms: 5_000,
            intent_min_wait_ms: 10_000,
            lag_floor_ms: 1_000,
            lag_ceiling_ms: 300_000,
            agentinfo_encoding: false,
        }
    }
}

/// A number of milliseconds in nanoseconds.
pub open spec fn millis(ms: u32) -> nat {
    ms as nat * NANOS_PER_MILLI as nat
}

/// A number of milliseconds in nanoseconds.
pub fn from_millis(ms: u32) -> (nanos: u128)
    ensures
        nanos == millis(ms),
{
    ms as u128 * NANOS_PER_MILLI
}

impl K2ShardingConfig {
    /// The interval between controller decision checks, in nanoseconds.
    pub fn check_interval(&self) -> (nanos: u128)
        ensures
            nanos == millis(self.check_interval_ms),
    {
        from_millis(self.check_interval_ms)
    }
}

/// Module-level configuration for K2Sharding.
#[derive(Clone, Copy, Debug)]
pub struct K2ShardingModConfig {
    /// K2Sharding configuration.
    pub k2_sharding: K2ShardingConfig,
}

impl Default for K2ShardingModConfig {
    fn default() -> (config: K2ShardingModConfig)
        ensures
            config.k2_sharding.target_redundancy == 5,
            config.k2_sharding.clamp_min_peers == 25,
            config.k2_sharding.check_interval_ms == 5_000,
            config.k2_sharding.intent_min_wait_ms == 10_000,
            config.k2_sharding.lag_floor_ms == 1_000,
            config.k2_sharding.lag_ceiling_ms == 300_000,
            !config.k2_sharding.agentinfo_encoding,
    {
        K2ShardingModConfig { k2_sharding: K2ShardingConfig::default() }
    }
}

/// A millisecond has a million nanoseconds.
pub proof fn law_milliseconds(ms: u32)
    ensures
        millis(ms) == ms * 1_000_000,
{
}

} // verus!

//! Configuration of the load balancer.
use crate::binary32::{lemma_fraction_in_binade, one_in_units, Binary32, Real32};
use crate::profile::{AccelerationMode, RuntimeProfile};
use crate::rounding::lemma_magnitude_equal_quotients;
use vstd::arithmetic::power2::{lemma2_to64, lemma_pow2_pos, pow2};
use vstd::prelude::*;

verus! {

/// Load balancing configuration.
#[derive(Clone, Copy, Debug)]
pub struct LoadBalanceConfig {
    /// How long to wait for a distribution, in microseconds.
    pub lock_timeout_us: u64,
    /// The ratio of available VRAM from which on the load counts as unbalanced.
    pub min_load_threshold: Binary32,
    /// The most layers in one slice.
    pub max_layers_per_assignment: usize,
    /// The most transfers at a time.
    pub max_concurrent_rebalances: usize,
}

/// What a configuration is.
pub struct ConfigView {
    pub lock_timeout_us: nat,
    pub min_load_threshold: Real32,
    pub max_layers_per_assignment: nat,
    pub max_concurrent_rebalances: nat,
}

impl View for LoadBalanceConfig {
    type V = ConfigView;

    open spec fn view(&self) -> ConfigView {
        ConfigView {
            lock_timeout_us: self.lock_timeout_us as nat,
            min_load_threshold: self.min_load_threshold@,
            max_layers_per_assignment: self.max_layers_per_assignment as nat,
            max_concurrent_rebalances: self.max_concurrent_rebalances as nat,
        }
    }
}

/// The configuration without any knowledge of the machine.
pub open spec fn default_config() -> ConfigView {
    ConfigView {
        lock_timeout_us: 1000,
        min_load_threshold: Real32::fraction(125, 100),
        max_layers_per_assignment: 100,
        max_concurrent_rebalances: 1,
    }
}

/// The workers of a machine, at least one.
pub open spec fn workers_of(profile: RuntimeProfile) -> nat {
    if profile.recommended_workers == 0 {
        1
    } else {
        profile.recommended_workers as nat
    }
}

/// The configuration that suits a machine.
pub open spec fn tuned_config(profile: RuntimeProfile) -> ConfigView {
    let workers = workers_of(profile);
    ConfigView {
        lock_timeout_us: match profile.acceleration_mode {
            AccelerationMode::Gpu => 500,
            AccelerationMode::Avx512 => 750,
            AccelerationMode::Generic => 1000,
        },
        min_load_threshold: match profile.acceleration_mode {
            AccelerationMode::Gpu => Real32::fraction(115, 100),
            AccelerationMode::Avx512 => Real32::fraction(105, 100),
            AccelerationMode::Generic => Real32::fraction(102, 100),
        },
        max_layers_per_assignment: workers * 2,
        max_concurrent_rebalances: if workers < 8 {
            workers
        } else {
            8
        },
    }
}

/// Whether the limit on layers for a machine is a machine integer.
pub open spec fn tuning_fits(profile: RuntimeProfile) -> bool {
    workers_of(profile) * 2 <= usize::MAX
}

impl Default for LoadBalanceConfig {
    fn default() -> (r: LoadBalanceConfig)
        ensures
            r@ == default_config(),
    {
        LoadBalanceConfig {
            lock_timeout_us: 1000,
            min_load_threshold: Binary32::fraction(125, 100),
            max_layers_per_assignment: 100,
            max_concurrent_rebalances: 1,
        }
    }
}

impl LoadBalanceConfig {
    /// The configuration that suits a machine.
    pub fn autotuned(profile: &RuntimeProfile) -> (r: LoadBalanceConfig)
        requires
            tuning_fits(*profile),
        ensures
            r@ == tuned_config(*profile),
    {
        let workers: usize = if profile.recommended_workers == 0 {
            1
        } else {
            profile.recommended_workers
        };
        let lock_timeout_us: u64 = match profile.acceleration_mode {
            AccelerationMode::Gpu => 500,
            AccelerationMode::Avx512 => 750,
            AccelerationMode::Generic => 1000,
        };
        let min_load_threshold: Binary32 = match profile.acceleration_mode {
            AccelerationMode::Gpu => Binary32::fraction(115, 100),
            AccelerationMode::Avx512 => Binary32::fraction(105, 100),
            AccelerationMode::Generic => Binary32::fraction(102, 100),
        };
        LoadBalanceConfig {
            lock_timeout_us,
            min_load_threshold,
            max_layers_per_assignment: workers * 2,
            max_concurrent_rebalances: if workers < 8 {
                workers
            } else {
                8
            },
        }
    }
}

/// A tuned configuration allows at least two layers in a slice, and from one to eight
/// transfers at a time.
pub proof fn tuned_limits_are_positive(profile: RuntimeProfile)
    ensures
        tuned_config(profile).max_layers_per_assignment >= 2,
        1 <= tuned_config(profile).max_concurrent_rebalances <= 8,
{
}

/// The threshold of every tier exceeds one, the least ratio that the load can have.
pub proof fn thresholds_exceed_one(profile: RuntimeProfile)
    ensures
        Real32::count(1).below(tuned_config(profile).min_load_threshold),
        Real32::count(1).below(default_config().min_load_threshold),
{
    lemma2_to64();
    lemma_fraction_in_binade(1, 1, 0);
    lemma_fraction_in_binade(102, 100, 0);
    lemma_fraction_in_binade(105, 100, 0);
    lemma_fraction_in_binade(115, 100, 0);
    lemma_fraction_in_binade(125, 100, 0);
    lemma_pow2_pos(126);
    let p = pow2(126);
    assert(0x80_0000 * p < 8_556_380 * p && 0x80_0000 * p < 8_808_038 * p && 0x80_0000 * p
        < 9_646_899 * p && 0x80_0000 * p < 10_485_760 * p) by (nonlinear_arith)
        requires
            p > 0,
    ;
}

/// Tuning follows the machine: the limit on layers is two for each worker, the transfers at a
/// time are as many as there are workers but at most eight, and a machine without workers
/// counts as one with one. The wait and the threshold go by the acceleration alone.
pub proof fn tuning_follows_the_machine(profile: RuntimeProfile)
    ensures
        ({
            let workers = profile.recommended_workers;
            let config = tuned_config(profile);
            &&& workers >= 1 ==> config.max_layers_per_assignment == workers + workers
            &&& workers == 0 ==> config.max_layers_per_assignment == 2
            &&& workers == 0 ==> config.max_concurrent_rebalances == 1
            &&& 1 <= workers <= 8 ==> config.max_concurrent_rebalances == workers
            &&& workers > 8 ==> config.max_concurrent_rebalances == 8
            &&& profile.acceleration_mode == AccelerationMode::Gpu ==> config.lock_timeout_us == 500
                && config.min_load_threshold == Real32::fraction(115, 100)
            &&& profile.acceleration_mode == AccelerationMode::Avx512 ==> config.lock_timeout_us
                == 750 && config.min_load_threshold == Real32::fraction(105, 100)
            &&& profile.acceleration_mode == AccelerationMode::Generic ==> config.lock_timeout_us
                == 1000 && config.min_load_threshold == Real32::fraction(102, 100)
            &&& tuning_fits(profile) <==> workers <= usize::MAX / 2
        }),
{
}

/// Without a profile a millisecond is waited, a quarter more VRAM than the least is too much,
/// a slice has at most a hundred layers, and one transfer is made at a time.
pub proof fn the_default_is_cautious()
    ensures
        default_config().lock_timeout_us == 1000,
        default_config().min_load_threshold == Real32::fraction(5, 4),
        default_config().max_layers_per_assignment == 100,
        default_config().max_concurrent_rebalances == 1,
{
    lemma_magnitude_equal_quotients(125 * one_in_units(), 100, 5 * one_in_units(), 4);
}

/// A configuration is seen with all of its fields.
pub proof fn a_configuration_is_seen_whole(config: LoadBalanceConfig)
    ensures
        config@.lock_timeout_us == config.lock_timeout_us,
        config@.min_load_threshold == config.min_load_threshold@,
        config@.max_layers_per_assignment == config.max_layers_per_assignment,
        config@.max_concurrent_rebalances == config.max_concurrent_rebalances,
{
}

} // verus!

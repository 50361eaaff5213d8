//! The load balancer: a cluster, a configuration, and the decisions made from both.
use crate::balance::{
    is_unbalanced, needs_rebalance, plan_transfers, transfers, transfers_view,
};
use crate::cluster::{ClusterState, LayerSpec};
use crate::config::{
    default_config, tuned_config, tuning_fits, workers_of, ConfigView, LoadBalanceConfig,
};
use crate::distribution::{
    distribute, distribution, nodes_comparable, result_view, slice_ends_fit,
};
use crate::plan::LoadDistributionPlan;
use crate::profile::{ExecutionBackend, ProfileChange, RuntimeProfile, SystemProfile};
use vstd::prelude::*;

verus! {

/// The configuration behind its lock. A panic while the lock is held poisons it.
#[derive(Clone, Copy, Debug)]
pub struct SharedConfig {
    /// The configuration.
    pub value: LoadBalanceConfig,
    /// Whether the lock can no longer be taken.
    pub poisoned: bool,
}

impl SharedConfig {
    /// The configuration that is in force: the default one where the lock is poisoned.
    pub open spec fn in_force(self) -> ConfigView {
        if self.poisoned {
            default_config()
        } else {
            self.value@
        }
    }
}

/// Load balancer for tensor distribution. It is the one state that all of its clones share:
/// a clone is another handle to it, not a copy of it.
#[derive(Debug)]
pub struct LoadBalancer {
    /// The cluster.
    pub cluster: ClusterState,
    /// The configuration.
    pub config: SharedConfig,
}

/// The most layers in a slice that suit a machine: no more than the configuration says,
/// than two per worker, and than a batch that is split over the vectors.
pub open spec fn slice_limit(
    config: ConfigView,
    profile: RuntimeProfile,
    backend: ExecutionBackend,
) -> nat {
    let lanes = at_least_one(backend.vector_width_bits as nat / 128);
    let per_worker = at_most(workers_of(profile) * 2, usize::MAX as nat);
    let per_batch = backend.preferred_batch_size as nat / lanes;
    at_least_one(at_most(at_most(config.max_layers_per_assignment, per_worker), per_batch))
}

/// A count, at least one.
pub open spec fn at_least_one(n: nat) -> nat {
    if n == 0 {
        1
    } else {
        n
    }
}

/// The smaller of two counts.
pub open spec fn at_most(a: nat, b: nat) -> nat {
    if a < b {
        a
    } else {
        b
    }
}

/// Slices that suit a machine hold at least one layer, and no more than the configuration,
/// the workers and the batch allow, but for that one.
pub proof fn slice_limit_is_bounded(
    config: ConfigView,
    profile: RuntimeProfile,
    backend: ExecutionBackend,
)
    ensures
        ({
            let limit = slice_limit(config, profile, backend);
            &&& limit >= 1
            &&& limit == 1 || limit <= config.max_layers_per_assignment
            &&& limit == 1 || limit <= workers_of(profile) * 2
            &&& limit == 1 || limit <= backend.preferred_batch_size
        }),
{
    let lanes = at_least_one(backend.vector_width_bits as nat / 128);
    let batch = backend.preferred_batch_size as nat;
    vstd::arithmetic::div_mod::lemma_fundamental_div_mod(batch as int, lanes as int);
    assert(batch / lanes <= batch) by (nonlinear_arith)
        requires
            batch == lanes * (batch / lanes) + batch % lanes,
            lanes >= 1,
            batch % lanes >= 0,
    ;
}

/// Whether a balancer is another after a re-tune: its configuration is the one that suits
/// the machine, whatever it was, unless it is poisoned, and nothing else has changed.
pub open spec fn is_retuned(
    before: LoadBalancer,
    after: LoadBalancer,
    profile: SystemProfile,
) -> bool {
    &&& after.cluster == before.cluster
    &&& after.config.poisoned == before.config.poisoned
    &&& before.config.poisoned ==> after.config == before.config
    &&& !before.config.poisoned ==> after.config.in_force() == tuned_config(profile.runtime())
}

/// What to do after an attempt to distribute under a time limit.
#[derive(Debug)]
pub enum DistributionStep {
    /// Take the plan.
    Done(LoadDistributionPlan),
    /// Wait for so many milliseconds, and try again.
    Retry { wait_ms: u64 },
    /// Give up, with the message.
    TimedOut(String),
}

impl LoadBalancer {
    /// A load balancer with a configuration.
    pub fn new(cluster: ClusterState, config: LoadBalanceConfig) -> (r: LoadBalancer)
        ensures
            r.cluster == cluster,
            r.config == (SharedConfig { value: config, poisoned: false }),
    {
        LoadBalancer { cluster, config: SharedConfig { value: config, poisoned: false } }
    }

    /// A load balancer with the configuration that suits the machine.
    pub fn with_runtime_profile(cluster: ClusterState, profile: &RuntimeProfile) -> (r:
        LoadBalancer)
        requires
            tuning_fits(*profile),
        ensures
            r.cluster == cluster,
            !r.config.poisoned,
            r.config.in_force() == tuned_config(*profile),
    {
        LoadBalancer::new(cluster, LoadBalanceConfig::autotuned(profile))
    }

    /// The configuration that is in force.
    pub fn config(&self) -> (r: LoadBalanceConfig)
        ensures
            r@ == self.config.in_force(),
            !self.config.poisoned ==> r == self.config.value,
    {
        if self.config.poisoned {
            LoadBalanceConfig::default()
        } else {
            self.config.value
        }
    }

    fn distribute_layers_internal(
        &self,
        layers: &[LayerSpec],
        max_layers_per_slice: Option<usize>,
    ) -> (r: Result<LoadDistributionPlan, String>)
        requires
            nodes_comparable(self.cluster.nodes@),
            slice_ends_fit(self.cluster.nodes@, layers@),
        ensures
            result_view(r) == distribution(
                self.cluster.nodes@,
                layers@,
                match max_layers_per_slice {
                    Some(limit) => at_least_one(limit as nat),
                    None => usize::MAX as nat,
                },
            ),
    {
        let limit: usize = match max_layers_per_slice {
            Some(0) => 1,
            Some(limit) => limit,
            None => usize::MAX,
        };
        distribute(&self.cluster.nodes, layers, limit)
    }

    /// Distributes the layers over the nodes by their VRAM, one slice per node.
    pub fn distribute_layers(&self, layers: &[LayerSpec]) -> (r: Result<
        LoadDistributionPlan,
        String,
    >)
        requires
            nodes_comparable(self.cluster.nodes@),
            slice_ends_fit(self.cluster.nodes@, layers@),
        ensures
            result_view(r) == distribution(self.cluster.nodes@, layers@, usize::MAX as nat),
    {
        self.distribute_layers_internal(layers, None)
    }

    /// Distributes the layers over the nodes by their VRAM, in slices that suit the
    /// machine.
    pub fn distribute_layers_with_runtime_profile(
        &self,
        layers: &[LayerSpec],
        profile: &RuntimeProfile,
        backend: &ExecutionBackend,
    ) -> (r: Result<LoadDistributionPlan, String>)
        requires
            nodes_comparable(self.cluster.nodes@),
            slice_ends_fit(self.cluster.nodes@, layers@),
        ensures
            result_view(r) == distribution(
                self.cluster.nodes@,
                layers@,
                slice_limit(self.config.in_force(), *profile, *backend),
            ),
    {
        let config: LoadBalanceConfig = self.config();
        let vectors: usize = backend.vector_width_bits / 128;
        let lanes: usize = if vectors == 0 {
            1
        } else {
            vectors
        };
        let workers: usize = if profile.recommended_workers == 0 {
            1
        } else {
            profile.recommended_workers
        };
        let per_worker: usize = if workers <= usize::MAX / 2 {
            workers * 2
        } else {
            usize::MAX
        };
        let per_batch: usize = backend.preferred_batch_size / lanes;
        let mut limit: usize = config.max_layers_per_assignment;
        if per_worker < limit {
            limit = per_worker;
        }
        if per_batch < limit {
            limit = per_batch;
        }
        if limit == 0 {
            limit = 1;
        }
        self.distribute_layers_internal(layers, Some(limit))
    }

    /// Whether the load of the nodes calls for rebalancing.
    pub fn rebalance(&self) -> (r: bool)
        ensures
            r == is_unbalanced(self.cluster.metrics@, self.config.in_force().min_load_threshold),
    {
        needs_rebalance(&self.cluster.metrics, self.config().min_load_threshold)
    }

    /// The transfers that relieve overloaded nodes: from which node, and to which.
    pub fn shed_load(&self) -> (r: Vec<(String, String)>)
        ensures
            transfers_view(r@) == transfers(
                self.cluster.metrics@,
                self.cluster.metrics@.len() as int,
                self.config.in_force().max_concurrent_rebalances,
            ),
    {
        plan_transfers(&self.cluster.metrics, self.config().max_concurrent_rebalances)
    }

    /// Takes the configuration that suits the machine as a scan found it. A poisoned
    /// configuration stays as it is.
    pub fn reconfigure_from_system_profile(&mut self, profile: &SystemProfile)
        requires
            !old(self).config.poisoned ==> tuning_fits(profile.runtime()),
        ensures
            is_retuned(*old(self), *final(self), *profile),
    {
        let runtime: RuntimeProfile = RuntimeProfile::from(profile);
        if !self.config.poisoned {
            self.config.value = LoadBalanceConfig::autotuned(&runtime);
        }
    }

    /// Handles what a watcher of the system reports, and says whether to go on watching:
    /// a closed channel reports nothing, and ends it.
    pub fn watch_step(&mut self, event: Option<ProfileChange>) -> (r: bool)
        requires
            event matches Some(ProfileChange::Updated(profile)) ==> old(self).config.poisoned
                || tuning_fits(profile.runtime()),
        ensures
            r == (event is Some),
            match event {
                Some(ProfileChange::Updated(profile)) => is_retuned(
                    *old(self),
                    *final(self),
                    profile,
                ),
                _ => *final(self) == *old(self),
            },
    {
        match event {
            Some(ProfileChange::Updated(profile)) => {
                self.reconfigure_from_system_profile(&profile);
                true
            },
            Some(ProfileChange::Unchanged) => true,
            None => false,
        }
    }

    /// One attempt to distribute the layers, `elapsed_us` microseconds after the first:
    /// within the time limit a plan is taken and a failure tried again after a pause, and
    /// past it no attempt is made.
    pub fn distribute_with_deadlock_prevention(
        &self,
        layers: &[LayerSpec],
        elapsed_us: u128,
    ) -> (r: DistributionStep)
        requires
            elapsed_us < self.config.in_force().lock_timeout_us ==> nodes_comparable(
                self.cluster.nodes@,
            ) && slice_ends_fit(self.cluster.nodes@, layers@),
        ensures
            ({
                let outcome = distribution(self.cluster.nodes@, layers@, usize::MAX as nat);
                if elapsed_us < self.config.in_force().lock_timeout_us {
                    match outcome {
                        Ok(plan) => r matches DistributionStep::Done(p) && p@ == plan,
                        Err(_) => r == (DistributionStep::Retry { wait_ms: 10 }),
                    }
                } else {
                    r matches DistributionStep::TimedOut(m) && m@ == "deadlock prevention timeout"@
                }
            }),
    {
        if elapsed_us < self.config().lock_timeout_us as u128 {
            match self.distribute_layers(layers) {
                Ok(plan) => DistributionStep::Done(plan),
                Err(_) => DistributionStep::Retry { wait_ms: 10 },
            }
        } else {
            DistributionStep::TimedOut("deadlock prevention timeout".to_owned())
        }
    }
}

/// Whether slices of `n` layers suit a machine: the configuration allows them, each worker has
/// at most two of the layers, and all vectors of 128 bits of a slice make up no more than a
/// batch.
pub open spec fn suits(
    n: nat,
    config: ConfigView,
    profile: RuntimeProfile,
    backend: ExecutionBackend,
) -> bool {
    &&& n <= config.max_layers_per_assignment
    &&& n <= 2 * profile.recommended_workers || (profile.recommended_workers == 0 && n <= 2)
    &&& n <= backend.preferred_batch_size
    &&& n * (backend.vector_width_bits as nat / 128) <= backend.preferred_batch_size
}

/// The limit on slices is the largest number of layers that suits the machine, and one where
/// none does.
pub proof fn slices_are_as_long_as_suits(
    config: ConfigView,
    profile: RuntimeProfile,
    backend: ExecutionBackend,
    other: nat,
)
    requires
        config.max_layers_per_assignment <= usize::MAX,
    ensures
        slice_limit(config, profile, backend) >= 1,
        slice_limit(config, profile, backend) == 1 || suits(
            slice_limit(config, profile, backend),
            config,
            profile,
            backend,
        ),
        suits(other, config, profile, backend) ==> other <= slice_limit(config, profile, backend),
{
    let vectors = backend.vector_width_bits as nat / 128;
    let lanes = at_least_one(vectors);
    let batch = backend.preferred_batch_size as nat;
    let limit = slice_limit(config, profile, backend);
    let per_batch = batch / lanes;
    slice_limit_is_bounded(config, profile, backend);
    vstd::arithmetic::div_mod::lemma_fundamental_div_mod(batch as int, lanes as int);
    if limit != 1 {
        assert(limit * vectors <= batch) by (nonlinear_arith)
            requires
                limit <= per_batch,
                vectors <= lanes,
                batch == lanes * per_batch + batch % lanes,
                batch % lanes >= 0,
        ;
    }
    if suits(other, config, profile, backend) {
        assert(other * lanes <= batch) by (nonlinear_arith)
            requires
                other <= batch,
                other * vectors <= batch,
                lanes == vectors || lanes == 1,
        ;
        assert(other <= per_batch) by (nonlinear_arith)
            requires
                other * lanes <= batch,
                batch == lanes * per_batch + batch % lanes,
                batch % lanes < lanes,
                lanes >= 1,
        ;
    }
}

/// The configuration in force is the one that is held, or the default where the lock is
/// poisoned. A re-tune replaces all of it and nothing else, and does nothing to a poisoned one.
pub proof fn a_retune_replaces_the_configuration(
    before: LoadBalancer,
    after: LoadBalancer,
    profile: SystemProfile,
)
    requires
        is_retuned(before, after, profile),
    ensures
        before.config.in_force() == (if before.config.poisoned {
            default_config()
        } else {
            before.config.value@
        }),
        after.cluster == before.cluster,
        after.config.poisoned == before.config.poisoned,
        before.config.poisoned ==> after.config.value == before.config.value,
        !before.config.poisoned ==> after.config.value@ == tuned_config(
            RuntimeProfile {
                recommended_workers: profile.recommended_workers,
                acceleration_mode: profile.acceleration_mode,
            },
        ),
{
}

/// A result is seen as the plan or the message that it holds.
pub proof fn a_result_is_seen_whole(plan: LoadDistributionPlan, message: String)
    ensures
        result_view(Ok(plan)) == Ok::<crate::plan::PlanView, Seq<char>>(plan@),
        result_view(Err(message)) == Err::<crate::plan::PlanView, Seq<char>>(message@),
{
}

} // verus!

//! The machine as the load balancer sees it.
use vstd::prelude::*;

verus! {

/// What the machine accelerates its work with.
#[derive(Clone, Copy, Debug, PartialEq, Eq, Structural)]
pub enum AccelerationMode {
    /// A graphics processor.
    Gpu,
    /// Vector instructions of 512 bits.
    Avx512,
    /// Anything else.
    Generic,
}

/// The machine that this process runs on.
#[derive(Clone, Copy, Debug)]
pub struct RuntimeProfile {
    /// How many workers the machine can run.
    pub recommended_workers: usize,
    /// What it accelerates its work with.
    pub acceleration_mode: AccelerationMode,
}

/// The machine as a scan of the system found it.
#[derive(Clone, Copy, Debug)]
pub struct SystemProfile {
    /// How many workers the machine can run.
    pub recommended_workers: usize,
    /// What it accelerates its work with.
    pub acceleration_mode: AccelerationMode,
}

impl SystemProfile {
    /// The runtime profile of the machine.
    pub open spec fn runtime(self) -> RuntimeProfile {
        RuntimeProfile {
            recommended_workers: self.recommended_workers,
            acceleration_mode: self.acceleration_mode,
        }
    }
}

impl From<&SystemProfile> for RuntimeProfile {
    fn from(profile: &SystemProfile) -> (r: RuntimeProfile) {
        RuntimeProfile {
            recommended_workers: profile.recommended_workers,
            acceleration_mode: profile.acceleration_mode,
        }
    }
}

impl vstd::std_specs::convert::FromSpecImpl<&SystemProfile> for RuntimeProfile {
    open spec fn obeys_from_spec() -> bool {
        true
    }

    open spec fn from_spec(profile: &SystemProfile) -> RuntimeProfile {
        profile.runtime()
    }
}

/// What a watcher of the system reports.
#[derive(Clone, Copy, Debug)]
pub enum ProfileChange {
    /// The machine has a new profile.
    Updated(SystemProfile),
    /// The machine is as it was.
    Unchanged,
}

/// How the machine executes a batch.
#[derive(Clone, Copy, Debug)]
pub struct ExecutionBackend {
    /// The width of its vectors, in bits.
    pub vector_width_bits: usize,
    /// The batch size that suits it.
    pub preferred_batch_size: usize,
}

} // verus!

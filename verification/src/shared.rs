//! Load balancers that are shared: a handle names a balancer, and so does every clone of it.
use crate::balancer::{is_retuned, LoadBalancer};
use crate::config::{tuned_config, tuning_fits};
use crate::profile::{ProfileChange, SystemProfile};
use vstd::prelude::*;

verus! {

/// Names a balancer. A clone of the handle names the same one.
#[derive(Clone, Copy, Debug)]
pub struct BalancerHandle {
    number: usize,
}

impl BalancerHandle {
    /// Which balancer the handle names.
    pub closed spec fn place(self) -> int {
        self.number as int
    }
}

/// Balancers that are reached through handles.
#[derive(Debug)]
pub struct SharedBalancers {
    states: Vec<LoadBalancer>,
}

impl View for SharedBalancers {
    type V = Seq<LoadBalancer>;

    closed spec fn view(&self) -> Seq<LoadBalancer> {
        self.states@
    }
}

impl SharedBalancers {
    /// Whether a handle names one of the balancers.
    pub open spec fn has(self, handle: BalancerHandle) -> bool {
        0 <= handle.place() < self@.len()
    }

    /// The balancer that a handle names.
    pub open spec fn at(self, handle: BalancerHandle) -> LoadBalancer {
        self@[handle.place()]
    }

    /// No balancers.
    pub fn new() -> (r: SharedBalancers)
        ensures
            r@.len() == 0,
    {
        SharedBalancers { states: Vec::new() }
    }

    /// Takes a balancer in, and gives the handle to it.
    pub fn add_balancer(&mut self, balancer: LoadBalancer) -> (r: BalancerHandle)
        ensures
            final(self)@ == old(self)@.push(balancer),
            r.place() == old(self)@.len(),
    {
        let number: usize = self.states.len();
        self.states.push(balancer);
        BalancerHandle { number }
    }

    /// The balancer that a handle names.
    pub fn get(&self, handle: BalancerHandle) -> (r: &LoadBalancer)
        requires
            self.has(handle),
        ensures
            *r == self.at(handle),
    {
        &self.states[handle.number]
    }

    /// Re-tunes the balancer that a handle names, and no other.
    pub fn reconfigure_from_system_profile(
        &mut self,
        handle: BalancerHandle,
        profile: &SystemProfile,
    )
        requires
            old(self).has(handle),
            !old(self).at(handle).config.poisoned ==> tuning_fits(profile.runtime()),
        ensures
            final(self)@ == old(self)@.update(handle.place(), final(self).at(handle)),
            is_retuned(old(self).at(handle), final(self).at(handle), *profile),
    {
        self.states[handle.number].reconfigure_from_system_profile(profile);
    }

    /// Hands what a watcher of the system reports to the balancer that a handle names, and
    /// says whether to go on watching.
    pub fn watch_step(&mut self, handle: BalancerHandle, event: Option<ProfileChange>) -> (r: bool)
        requires
            old(self).has(handle),
            event matches Some(ProfileChange::Updated(profile)) ==> old(self).at(
                handle,
            ).config.poisoned || tuning_fits(profile.runtime()),
        ensures
            r == (event is Some),
            final(self)@ == old(self)@.update(handle.place(), final(self).at(handle)),
            match event {
                Some(ProfileChange::Updated(profile)) => is_retuned(
                    old(self).at(handle),
                    final(self).at(handle),
                    profile,
                ),
                _ => final(self)@ == old(self)@,
            },
    {
        self.states[handle.number].watch_step(event)
    }
}

/// A re-tune is seen by clones: every handle that was cloned from the one through which it is
/// made names, after it, a balancer with the configuration that suits the machine, whatever it
/// was before, and with the cluster that it had. Handles to other balancers see nothing of it.
pub proof fn clones_see_a_retune(
    before: SharedBalancers,
    after: SharedBalancers,
    handle: BalancerHandle,
    profile: SystemProfile,
)
    requires
        before.has(handle),
        !before.at(handle).config.poisoned,
        after@ == before@.update(handle.place(), after.at(handle)),
        is_retuned(before.at(handle), after.at(handle), profile),
    ensures
        forall|clone: BalancerHandle|
            clone == handle ==> after.has(clone) && (#[trigger] after.at(clone)).config.in_force()
                == tuned_config(profile.runtime()) && after.at(clone).cluster == before.at(
                clone,
            ).cluster,
        forall|other: BalancerHandle|
            before.has(other) && other.place() != handle.place() ==> #[trigger] after.at(other)
                == before.at(other),
{
}

} // verus!

//! The guard that lets one launcher run at a time: a named lock of the operating
//! system, held from start-up until an application is chosen.

use single_instance::SingleInstance;
use vstd::prelude::*;

verus! {

/// A claim on a named lock, of the crate `single_instance`. Nothing of its
/// inside is known here; dropping it gives the lock up.
#[verifier::external_type_specification]
#[verifier::external_body]
pub struct ExSingleInstance(SingleInstance);

/// Asks the operating system for the lock of this name with
/// `SingleInstance::new` of the crate `single_instance`. Nothing is promised of
/// the outcome: it depends on what else runs on the machine. `None` stands for
/// an error of the operating system.
#[verifier::external_body]
fn claim(name: &str) -> Option<SingleInstance> {
    SingleInstance::new(name).ok()
}

/// Whether the claim got the lock, by `SingleInstance::is_single`. Nothing is
/// promised of the outcome: it was decided when the claim was made, by what
/// else ran on the machine.
#[verifier::external_body]
fn got_lock(instance: &SingleInstance) -> bool {
    instance.is_single()
}

/// A claim on the launcher's lock. The claim ends when it is released or
/// dropped.
pub struct InstanceGuard {
    claimed: Option<SingleInstance>,
    /// Whether the claim got the lock, as the operating system said when the
    /// claim was made.
    alone: bool,
}

impl InstanceGuard {
    /// Whether the claim still stands.
    pub closed spec fn held(&self) -> bool {
        self.claimed is Some
    }

    /// Whether the claim stands and got the lock to itself when it was made.
    pub closed spec fn single(&self) -> bool {
        self.claimed is Some && self.alone
    }

    /// A guard that has the lock to itself holds its claim.
    pub proof fn law_single_is_held(&self)
        ensures
            self.single() ==> self.held(),
    {
    }

    /// Whether the claim still stands.
    #[verifier::when_used_as_spec(held)]
    pub fn is_held(&self) -> (held: bool)
        ensures
            held == self.held(),
    {
        self.claimed.is_some()
    }

    /// Claims the lock of this name. `None` where the operating system could not
    /// be asked. A guard that comes back holds its claim, whether or not another
    /// launcher had the lock first: `is_single` tells.
    pub fn acquire(name: &str) -> (guard: Option<InstanceGuard>)
        ensures
            guard matches Some(g) ==> g.is_held(),
    {
        match claim(name) {
            Some(instance) => {
                let alone = got_lock(&instance);
                Some(InstanceGuard::holding(instance, alone))
            },
            None => None,
        }
    }

    /// Whether this guard has the lock to itself: its claim stands, and no other
    /// launcher had the lock when the claim was made. A released guard has not.
    #[verifier::when_used_as_spec(single)]
    pub fn is_single(&self) -> (single: bool)
        ensures
            single == self.single(),
            single ==> self.is_held(),
    {
        self.claimed.is_some() && self.alone
    }

    /// Gives the claim up, so that another launcher can start.
    pub fn release(&mut self)
        ensures
            !final(self).is_held(),
            !final(self).is_single(),
    {
        self.claimed = None;
    }

    /// The guard of a claim that was made, where `alone` is what the operating
    /// system said of it: whether it got the lock.
    fn holding(instance: SingleInstance, alone: bool) -> (guard: InstanceGuard)
        ensures
            guard.is_held(),
            guard.is_single() == alone,
    {
        InstanceGuard { claimed: Some(instance), alone }
    }
}

impl Default for InstanceGuard {
    /// A guard without a claim.
    fn default() -> (guard: Self)
        ensures
            !guard.is_held(),
            !guard.is_single(),
    {
        InstanceGuard { claimed: None, alone: false }
    }
}

} // verus!

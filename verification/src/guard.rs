use vstd::prelude::*;

verus! {

/// The "hydrate exactly once" state: a single transition from not-started to
/// started. An embedding consults it so that a whole-document hydration pass
/// triggered twice (say, once synchronously and once from a load event) runs
/// only once.
pub struct HydrationGuard {
    started: bool,
}

impl HydrationGuard {
    pub closed spec fn is_started(self) -> bool {
        self.started
    }

    /// A fresh guard: hydration has not run yet.
    pub fn new() -> (g: HydrationGuard)
        ensures
            !g.is_started(),
    {
        HydrationGuard { started: false }
    }

    /// Check-and-set: returns true (and records the start) exactly on the
    /// first call; every later call returns false and changes nothing.
    pub fn try_start(&mut self) -> (r: bool)
        ensures
            r == !old(self).is_started(),
            final(self).is_started(),
    {
        if self.started {
            false
        } else {
            self.started = true;
            true
        }
    }
}

} // verus!

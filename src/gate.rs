use vstd::prelude::*;

verus! {

/// Admission counter bounding how many leaf computations run at once.
///
/// The counter never exceeds the limit, and the limit is at least one, so
/// that some work can always be admitted.
pub struct Gate {
    limit: usize,
    in_flight: usize,
}

impl Gate {
    /// The number of computations that may run at once.
    pub closed spec fn spec_limit(&self) -> nat {
        self.limit as nat
    }

    /// The number of computations admitted and not yet released.
    pub closed spec fn spec_in_flight(&self) -> nat {
        self.in_flight as nat
    }

    pub open spec fn wf(&self) -> bool {
        &&& 1 <= self.spec_limit()
        &&& self.spec_in_flight() <= self.spec_limit()
    }

    /// A gate with no computation in flight; `None` for a limit of zero,
    /// under which no work could ever be admitted.
    pub fn new(limit: usize) -> (r: Option<Gate>)
        ensures
            r is None <==> limit == 0,
            r matches Some(g) ==> g.wf() && g.spec_limit() == limit && g.spec_in_flight() == 0,
    {
        if limit == 0 {
            None
        } else {
            Some(Gate { limit, in_flight: 0 })
        }
    }

    pub fn limit(&self) -> (r: usize)
        ensures
            r == self.spec_limit(),
    {
        self.limit
    }

    pub fn in_flight(&self) -> (r: usize)
        ensures
            r == self.spec_in_flight(),
    {
        self.in_flight
    }

    /// True when no further computation can be admitted until one is released.
    pub fn is_saturated(&self) -> (r: bool)
        ensures
            r == (self.spec_in_flight() >= self.spec_limit()),
    {
        self.in_flight >= self.limit
    }

    /// Admits one computation when the counter is below the limit.
    /// A caller that is refused waits for a release and asks again.
    pub fn try_acquire(&mut self) -> (admitted: bool)
        requires
            old(self).wf(),
        ensures
            final(self).wf(),
            admitted == (old(self).spec_in_flight() < old(self).spec_limit()),
            final(self).spec_limit() == old(self).spec_limit(),
            final(self).spec_in_flight() == old(self).spec_in_flight() + if admitted {
                1nat
            } else {
                0nat
            },
    {
        if self.in_flight < self.limit {
            self.in_flight = self.in_flight + 1;
            true
        } else {
            false
        }
    }

    /// Gives back the slot of one admitted computation.
    pub fn release(&mut self)
        requires
            old(self).wf(),
            old(self).spec_in_flight() > 0,
        ensures
            final(self).wf(),
            final(self).spec_limit() == old(self).spec_limit(),
            final(self).spec_in_flight() + 1 == old(self).spec_in_flight(),
    {
        self.in_flight = self.in_flight - 1;
    }
}

} // verus!

use vstd::prelude::*;

verus! {

/// The pacing step's configuration: how long one tick should last.  The
/// wall-clock wait itself happens outside the simulation core, which only
/// carries the interval.
pub struct Delay {
    pub milliseconds: u64,
}

impl Delay {
    pub fn new(milliseconds: u64) -> (r: Delay)
        ensures
            r.milliseconds == milliseconds,
    {
        Delay { milliseconds }
    }
}

} // verus!

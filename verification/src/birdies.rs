//! The remaining-ammunition readout: how many launchable birds a play
//! session grants and how many have been fired, exposed as plain counters
//! the UI layer polls.

use vstd::prelude::*;

verus! {

/// Launchable-object counters of one play session.
#[derive(Clone, Copy, Debug, PartialEq, Eq, Structural)]
pub struct BirdResources {
    pub birds: usize,
    pub birds_spawned: usize,
}

impl BirdResources {
    pub open spec fn wf(&self) -> bool {
        self.birds_spawned <= self.birds
    }

    /// A fresh session with the given allowance and nothing fired yet.
    pub fn new(birds: usize) -> (r: BirdResources)
        ensures
            r.birds == birds,
            r.birds_spawned == 0,
            r.wf(),
    {
        BirdResources { birds, birds_spawned: 0 }
    }

    /// Records one launch; callable only while ammunition remains.
    pub fn record_launch(&mut self)
        requires
            old(self).wf(),
            old(self).birds_spawned < old(self).birds,
        ensures
            final(self).wf(),
            final(self).birds == old(self).birds,
            final(self).birds_spawned == old(self).birds_spawned + 1,
    {
        self.birds_spawned = self.birds_spawned + 1;
    }

    /// How many launches are left, the value the UI displays.
    pub fn remaining(&self) -> (n: usize)
        requires
            self.wf(),
        ensures
            n == self.birds - self.birds_spawned,
    {
        self.birds - self.birds_spawned
    }
}

} // verus!

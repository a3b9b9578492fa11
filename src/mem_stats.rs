//! Hit and miss counters.
use vstd::prelude::*;

verus! {

/// The abstract value of a set of counters.
pub struct StatsView {
    pub hits: nat,
    pub misses: nat,
}

impl StatsView {
    pub open spec fn total(self) -> nat {
        self.hits + self.misses
    }

    pub open spec fn hit(self) -> StatsView {
        StatsView { hits: self.hits + 1, misses: self.misses }
    }

    pub open spec fn miss(self) -> StatsView {
        StatsView { hits: self.hits, misses: self.misses + 1 }
    }

    /// Room is left for `n` more accesses to be counted.
    pub open spec fn has_room(self, n: nat) -> bool {
        self.total() + n <= usize::MAX
    }
}

/// Counts of hits and misses; their sum always fits in a `usize`.
#[derive(Debug)]
pub struct MemStats {
    hits: usize,
    misses: usize,
}

impl View for MemStats {
    type V = StatsView;

    closed spec fn view(&self) -> StatsView {
        StatsView { hits: self.hits as nat, misses: self.misses as nat }
    }
}

impl MemStats {
    #[verifier::type_invariant]
    spec fn inv(self) -> bool {
        self.hits + self.misses <= usize::MAX
    }

    pub fn new() -> (r: MemStats)
        ensures
            r@ == (StatsView { hits: 0, misses: 0 }),
    {
        MemStats { hits: 0, misses: 0 }
    }

    pub fn record_hit(&mut self)
        requires
            old(self)@.has_room(1),
        ensures
            final(self)@ == old(self)@.hit(),
    {
        self.hits = self.hits + 1;
    }

    pub fn record_miss(&mut self)
        requires
            old(self)@.has_room(1),
        ensures
            final(self)@ == old(self)@.miss(),
    {
        self.misses = self.misses + 1;
    }

    /// Takes back one counted hit.
    pub fn record_miss_read(&mut self)
        requires
            old(self)@.hits > 0,
        ensures
            final(self)@ == (StatsView { hits: (old(self)@.hits - 1) as nat, misses: old(self)@.misses }),
    {
        proof {
            use_type_invariant(&*self);
        }
        self.hits = self.hits - 1;
    }

    pub fn total_accesses(&self) -> (r: usize)
        ensures
            r == self@.total(),
    {
        proof {
            use_type_invariant(self);
        }
        self.hits + self.misses
    }

    pub fn hits(&self) -> (r: usize)
        ensures
            r == self@.hits,
    {
        self.hits
    }

    pub fn misses(&self) -> (r: usize)
        ensures
            r == self@.misses,
    {
        self.misses
    }
}

} // verus!

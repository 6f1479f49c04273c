//! Running totals of cache activity, kept by the cache and reported through
//! read accessors: cumulative lookup hits, cumulative lookup misses, and the
//! live-entry count most recently reported by the cache.

use vstd::prelude::*;

verus! {

/// Cumulative hit and miss counters together with the last reported occupancy.
///
/// The counters only ever grow; the occupancy is overwritten on every report.
pub struct Statistics {
    hits: usize,
    misses: usize,
    current_size: usize,
}

impl Statistics {
    /// The cumulative number of recorded hits.
    pub closed spec fn spec_hits(self) -> usize {
        self.hits
    }

    /// The cumulative number of recorded misses.
    pub closed spec fn spec_misses(self) -> usize {
        self.misses
    }

    /// The occupancy most recently reported with `update_size`.
    pub closed spec fn spec_current_size(self) -> usize {
        self.current_size
    }

    /// A fresh tracker with every counter at zero.
    pub fn new() -> (r: Statistics)
        ensures
            r.spec_hits() == 0,
            r.spec_misses() == 0,
            r.spec_current_size() == 0,
    {
        Statistics { hits: 0, misses: 0, current_size: 0 }
    }

    /// Record one successful lookup.
    pub fn hit(&mut self)
        requires
            old(self).spec_hits() < usize::MAX,
        ensures
            final(self).spec_hits() == old(self).spec_hits() + 1,
            final(self).spec_misses() == old(self).spec_misses(),
            final(self).spec_current_size() == old(self).spec_current_size(),
    {
        self.hits = self.hits + 1;
    }

    /// Record one lookup of an absent key.
    pub fn miss(&mut self)
        requires
            old(self).spec_misses() < usize::MAX,
        ensures
            final(self).spec_misses() == old(self).spec_misses() + 1,
            final(self).spec_hits() == old(self).spec_hits(),
            final(self).spec_current_size() == old(self).spec_current_size(),
    {
        self.misses = self.misses + 1;
    }

    /// Record the current number of live entries.
    pub fn update_size(&mut self, size: usize)
        ensures
            final(self).spec_current_size() == size,
            final(self).spec_hits() == old(self).spec_hits(),
            final(self).spec_misses() == old(self).spec_misses(),
    {
        self.current_size = size;
    }

    /// The cumulative hit count.
    pub fn get_hits(&self) -> (r: usize)
        ensures
            r == self.spec_hits(),
    {
        self.hits
    }

    /// The cumulative miss count.
    pub fn get_misses(&self) -> (r: usize)
        ensures
            r == self.spec_misses(),
    {
        self.misses
    }

    /// The last reported occupancy.
    pub fn get_current_size(&self) -> (r: usize)
        ensures
            r == self.spec_current_size(),
    {
        self.current_size
    }
}

} // verus!

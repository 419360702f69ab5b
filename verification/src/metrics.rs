//! Counters of the engine's work, reported with its other metrics.

use vstd::prelude::*;

verus! {

/// How many pages were rendered, how many queued jobs were skipped because
/// they had gone stale, and how many pages were indexed for search. Each
/// count wraps around at 2^64, as an atomic counter does.
#[derive(Debug)]
pub struct Metrics {
    rendered: u64,
    skipped_stale: u64,
    pages_indexed: u64,
}

pub open spec fn bump(n: u64) -> u64 {
    if n == u64::MAX {
        0
    } else {
        (n + 1) as u64
    }
}

impl Metrics {
    pub closed spec fn spec_counts(&self) -> (u64, u64, u64) {
        (self.rendered, self.skipped_stale, self.pages_indexed)
    }

    pub fn new() -> (r: Self)
        ensures
            r.spec_counts() == (0u64, 0u64, 0u64),
    {
        Metrics { rendered: 0, skipped_stale: 0, pages_indexed: 0 }
    }

    pub fn count_rendered(&mut self)
        ensures
            final(self).spec_counts() == (
                bump(old(self).spec_counts().0),
                old(self).spec_counts().1,
                old(self).spec_counts().2,
            ),
    {
        self.rendered = self.rendered.wrapping_add(1);
    }

    pub fn count_skipped_stale(&mut self)
        ensures
            final(self).spec_counts() == (
                old(self).spec_counts().0,
                bump(old(self).spec_counts().1),
                old(self).spec_counts().2,
            ),
    {
        self.skipped_stale = self.skipped_stale.wrapping_add(1);
    }

    pub fn count_page_indexed(&mut self)
        ensures
            final(self).spec_counts() == (
                old(self).spec_counts().0,
                old(self).spec_counts().1,
                bump(old(self).spec_counts().2),
            ),
    {
        self.pages_indexed = self.pages_indexed.wrapping_add(1);
    }

    /// (rendered, skipped as stale, pages indexed).
    pub fn counts(&self) -> (r: (u64, u64, u64))
        ensures
            r == self.spec_counts(),
    {
        (self.rendered, self.skipped_stale, self.pages_indexed)
    }
}

impl Default for Metrics {
    fn default() -> (r: Self)
        ensures
            r.spec_counts() == (0u64, 0u64, 0u64),
    {
        Metrics::new()
    }
}

} // verus!

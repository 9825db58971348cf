//! When to merge a segment index into one segment.

use vstd::prelude::*;

verus! {

/// Merges once an index holds more than `max_segments` segments.
#[derive(Debug, Clone, Copy)]
pub struct MergeScheduler {
    max_segments: usize,
}

impl MergeScheduler {
    /// The largest number of segments that needs no merge.
    pub closed spec fn limit(&self) -> usize {
        self.max_segments
    }

    /// A scheduler that merges above `max_segments` segments.
    pub fn new(max_segments: usize) -> (s: Self)
        ensures
            s.limit() == max_segments,
    {
        MergeScheduler { max_segments }
    }

    /// A scheduler that never asks for a merge below `usize::MAX` segments.
    pub fn disabled() -> (s: Self)
        ensures
            s.limit() == usize::MAX,
    {
        MergeScheduler { max_segments: usize::MAX }
    }

    /// Whether an index of `segment_count` segments should be merged.
    pub fn should_merge(&self, segment_count: usize) -> (b: bool)
        ensures
            b == (segment_count > self.limit()),
    {
        segment_count > self.max_segments
    }

    /// The largest number of segments that needs no merge.
    pub fn max_segments(&self) -> (n: usize)
        ensures
            n == self.limit(),
    {
        self.max_segments
    }
}

impl Default for MergeScheduler {
    /// Merges above eight segments.
    fn default() -> (s: Self)
        ensures
            s.limit() == 8,
    {
        MergeScheduler::new(8)
    }
}

} // verus!

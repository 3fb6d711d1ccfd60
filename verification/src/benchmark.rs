use vstd::prelude::*;
use std::time::Instant;

verus! {

/// What a benchmark run of a scene measured: frames drawn between two instants.
pub struct SceneStats {
    frame_count: u32,
    first: Instant,
    last: Instant,
    title: String,
}

impl SceneStats {
    pub closed spec fn spec_frame_count(self) -> u32 {
        self.frame_count
    }

    pub closed spec fn spec_first(self) -> Instant {
        self.first
    }

    pub closed spec fn spec_last(self) -> Instant {
        self.last
    }

    pub closed spec fn spec_title(self) -> Seq<char> {
        self.title@
    }

    pub fn new(frame_count: u32, first: Instant, last: Instant, title: String) -> (r: SceneStats)
        ensures
            r.spec_frame_count() == frame_count,
            r.spec_first() == first,
            r.spec_last() == last,
            r.spec_title() == title@,
    {
        SceneStats { frame_count, first, last, title }
    }

    pub fn frame_count(&self) -> (r: u32)
        ensures
            r == self.spec_frame_count(),
    {
        self.frame_count
    }

    pub fn first(&self) -> (r: &Instant)
        ensures
            *r == self.spec_first(),
    {
        &self.first
    }

    pub fn last(&self) -> (r: &Instant)
        ensures
            *r == self.spec_last(),
    {
        &self.last
    }

    pub fn title(&self) -> (r: &str)
        ensures
            r@ == self.spec_title(),
    {
        self.title.as_str()
    }
}

} // verus!

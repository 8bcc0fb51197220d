//! Where a playback time falls on the segment timeline.
use vstd::prelude::*;
use crate::geometry::ZoomSegment;

verus! {

/// A segment is in effect after its start, up to and including its end.
pub open spec fn is_active(s: ZoomSegment, time: int) -> bool {
    s.start < time <= s.end
}

/// Segment `i` is the first one in effect at `time`.
pub open spec fn is_first_active(segs: Seq<ZoomSegment>, time: int, i: int) -> bool {
    &&& 0 <= i < segs.len()
    &&& is_active(segs[i], time)
    &&& forall|j: int| 0 <= j < i ==> !is_active(#[trigger] segs[j], time)
}

/// Segment `i` is the last one in the list that has ended by `time`.
pub open spec fn is_latest_ended(segs: Seq<ZoomSegment>, time: int, i: int) -> bool {
    &&& 0 <= i < segs.len()
    &&& segs[i].end <= time
    &&& forall|j: int| i < j < segs.len() ==> time < (#[trigger] segs[j]).end
}

/// The index of the segment in effect at `time`, if any.
pub open spec fn active_at(segs: Seq<ZoomSegment>, time: int) -> Option<int> {
    if exists|i: int| is_first_active(segs, time, i) {
        Some(choose|i: int| is_first_active(segs, time, i))
    } else {
        None
    }
}

/// The index of the segment before the active one, or, when none is active,
/// of the last segment that has ended by `time`.
pub open spec fn previous_at(segs: Seq<ZoomSegment>, time: int) -> Option<int> {
    match active_at(segs, time) {
        Some(i) => if i > 0 { Some(i - 1) } else { None },
        None => if exists|i: int| is_latest_ended(segs, time, i) {
            Some(choose|i: int| is_latest_ended(segs, time, i))
        } else {
            None
        },
    }
}

pub proof fn lemma_first_active_unique(segs: Seq<ZoomSegment>, time: int, i: int)
    requires
        is_first_active(segs, time, i),
    ensures
        active_at(segs, time) == Some(i),
{
    let k = choose|k: int| is_first_active(segs, time, k);
    assert(is_first_active(segs, time, k));
    if k < i {
        assert(!is_active(segs[k], time));
    } else if i < k {
        assert(!is_active(segs[i], time));
    }
}

pub proof fn lemma_latest_ended_unique(segs: Seq<ZoomSegment>, time: int, i: int)
    requires
        is_latest_ended(segs, time, i),
    ensures
        (choose|k: int| is_latest_ended(segs, time, k)) == i,
{
    let k = choose|k: int| is_latest_ended(segs, time, k);
    assert(is_latest_ended(segs, time, k));
    if k < i {
        assert(time < segs[i].end);
    } else if i < k {
        assert(time < segs[k].end);
    }
}

/// What the locator found for a time: the segment in effect and the one
/// before it, as indices into the timeline.
pub struct SegmentsCursor<'a> {
    time: u64,
    segment: Option<usize>,
    prev_segment: Option<usize>,
    segments: &'a [ZoomSegment],
}

pub open spec fn index_of(o: Option<usize>) -> Option<int> {
    match o {
        Some(i) => Some(i as int),
        None => None,
    }
}

impl<'a> SegmentsCursor<'a> {
    pub closed spec fn time_spec(&self) -> int {
        self.time as int
    }

    pub closed spec fn segments_spec(&self) -> Seq<ZoomSegment> {
        self.segments@
    }

    pub closed spec fn segment_spec(&self) -> Option<int> {
        index_of(self.segment)
    }

    pub closed spec fn prev_segment_spec(&self) -> Option<int> {
        index_of(self.prev_segment)
    }

    /// The time that was located.
    pub fn time(&self) -> (r: u64)
        ensures
            r == self.time_spec(),
    {
        self.time
    }

    /// The timeline that was searched.
    pub fn segments(&self) -> (r: &'a [ZoomSegment])
        ensures
            r@ == self.segments_spec(),
    {
        self.segments
    }

    /// The index of the segment in effect, if any.
    pub fn segment(&self) -> (r: Option<usize>)
        ensures
            index_of(r) == self.segment_spec(),
    {
        self.segment
    }

    /// The index of the previous segment, if any.
    pub fn prev_segment(&self) -> (r: Option<usize>)
        ensures
            index_of(r) == self.prev_segment_spec(),
    {
        self.prev_segment
    }

    /// The cursor holds what the locator finds for its time and timeline.
    pub open spec fn wf(&self) -> bool {
        &&& self.segment_spec() == active_at(self.segments_spec(), self.time_spec())
        &&& self.prev_segment_spec() == previous_at(self.segments_spec(), self.time_spec())
    }

    /// Locates `time` on the timeline `segments`.
    pub fn new(time: u64, segments: &'a [ZoomSegment]) -> (r: SegmentsCursor<'a>)
        ensures
            r.time_spec() == time,
            r.segments_spec() == segments@,
            r.wf(),
    {
        let mut i: usize = 0;
        while i < segments.len()
            invariant
                i <= segments@.len(),
                forall|j: int| 0 <= j < i ==> !is_active(#[trigger] segments@[j], time as int),
            decreases segments@.len() - i,
        {
            if time > segments[i].start && time <= segments[i].end {
                proof {
                    lemma_first_active_unique(segments@, time as int, i as int);
                }
                let prev_segment = if i > 0 { Some(i - 1) } else { None };
                return SegmentsCursor { time, segment: Some(i), prev_segment, segments };
            }
            i = i + 1;
        }
        assert(active_at(segments@, time as int) == None::<int>) by {
            if exists|k: int| is_first_active(segments@, time as int, k) {
                let k = choose|k: int| is_first_active(segments@, time as int, k);
                assert(!is_active(segments@[k], time as int));
            }
        }
        let mut j: usize = segments.len();
        while j > 0
            invariant
                j <= segments@.len(),
                active_at(segments@, time as int) == None::<int>,
                forall|m: int| j <= m < segments@.len() ==> time < (#[trigger] segments@[m]).end,
            decreases j,
        {
            if segments[j - 1].end <= time {
                proof {
                    lemma_latest_ended_unique(segments@, time as int, j - 1);
                    assert(is_latest_ended(segments@, time as int, j - 1));
                }
                return SegmentsCursor { time, segment: None, prev_segment: Some(j - 1), segments };
            }
            j = j - 1;
        }
        assert(!exists|k: int| is_latest_ended(segments@, time as int, k)) by {
            if exists|k: int| is_latest_ended(segments@, time as int, k) {
                let k = choose|k: int| is_latest_ended(segments@, time as int, k);
                assert(time < segments@[k].end);
            }
        }
        SegmentsCursor { time, segment: None, prev_segment: None, segments }
    }
}

} // verus!

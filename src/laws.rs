//! Properties of the zoom state machine over whole timelines.
use vstd::prelude::*;
use crate::{ONE, ZOOM_DURATION};
use crate::cursor::{
    active_at, is_active, is_first_active, is_latest_ended, lemma_first_active_unique,
    lemma_latest_ended_unique, previous_at,
};
use crate::easing::{eased, lemma_eased_monotone, valid_curve};
use crate::geometry::{identity_bounds, lemma_lerp_between, lemma_lerp_monotone, ZoomSegment};
use crate::zoom::{idle, lemma_zoom_in_range, zoom_at};

verus! {

/// Every segment starts before it ends, and each ends no later than any
/// segment after it starts.
pub open spec fn segments_ordered(segs: Seq<ZoomSegment>) -> bool {
    &&& forall|i: int| 0 <= i < segs.len() ==> (#[trigger] segs[i]).start < segs[i].end
    &&& forall|i: int, j: int|
        #![trigger segs[i], segs[j]]
        0 <= i < j < segs.len() ==> segs[i].end <= segs[j].start
}

/// Before the first segment starts there is no zoom and no crop.
pub proof fn lemma_idle_before_first(segs: Seq<ZoomSegment>, time: nat, ein: Seq<u64>, eout: Seq<u64>)
    requires
        segments_ordered(segs),
        segs.len() == 0 || time <= segs[0].start,
    ensures
        zoom_at(segs, time, ein, eout) == idle(),
{
    reveal(zoom_at);
    assert forall|i: int| 0 <= i < segs.len() implies time < (#[trigger] segs[i]).end
        && !is_active(segs[i], time as int) by {
        if i > 0 {
            assert(segs[0].end <= segs[i].start);
            assert(segs[0].start < segs[0].end);
        }
    }
    assert(active_at(segs, time as int) == None::<int>) by {
        if exists|k: int| is_first_active(segs, time as int, k) {
            let k = choose|k: int| is_first_active(segs, time as int, k);
            assert(!is_active(segs[k], time as int));
        }
    }
    assert(!exists|k: int| is_latest_ended(segs, time as int, k)) by {
        if exists|k: int| is_latest_ended(segs, time as int, k) {
            let k = choose|k: int| is_latest_ended(segs, time as int, k);
            assert(time < segs[k].end);
        }
    }
}

/// Once the exit transition of the last segment is over there is no zoom and
/// no crop.
pub proof fn lemma_idle_after_last(segs: Seq<ZoomSegment>, time: nat, ein: Seq<u64>, eout: Seq<u64>)
    requires
        segments_ordered(segs),
        valid_curve(eout),
        segs.len() > 0,
        time >= segs[segs.len() - 1].end + ZOOM_DURATION,
    ensures
        zoom_at(segs, time, ein, eout) == idle(),
{
    reveal(zoom_at);
    let last = segs.len() - 1;
    assert forall|i: int| 0 <= i < segs.len() implies (#[trigger] segs[i]).end < time by {
        if i < last {
            assert(segs[i].end <= segs[last].start);
            assert(segs[last].start < segs[last].end);
        }
    }
    assert(active_at(segs, time as int) == None::<int>) by {
        if exists|k: int| is_first_active(segs, time as int, k) {
            let k = choose|k: int| is_first_active(segs, time as int, k);
            assert(segs[k].end < time);
        }
    }
    assert(is_latest_ended(segs, time as int, last));
    lemma_latest_ended_unique(segs, time as int, last);
    assert(previous_at(segs, time as int) == Some(last));
    let z = eased(eout, time - segs[last].end);
    assert(z == ONE);
    let b = zoom_at(segs, time, ein, eout).bounds;
    lemma_lerp_between(crate::geometry::segment_bounds_model(segs[last]).left, 0, z);
    lemma_lerp_between(crate::geometry::segment_bounds_model(segs[last]).top, 0, z);
    lemma_lerp_between(crate::geometry::segment_bounds_model(segs[last]).right, ONE as int, z);
    lemma_lerp_between(crate::geometry::segment_bounds_model(segs[last]).bottom, ONE as int, z);
    assert(b == identity_bounds());
}

/// A segment is in effect at `time` when it is the one that contains it on an
/// ordered timeline.
proof fn lemma_ordered_active(segs: Seq<ZoomSegment>, a: int, time: int)
    requires
        segments_ordered(segs),
        0 <= a < segs.len(),
        segs[a].start < time <= segs[a].end,
    ensures
        active_at(segs, time) == Some(a),
        previous_at(segs, time) == (if a > 0 { Some(a - 1) } else { None::<int> }),
{
    assert forall|j: int| 0 <= j < a implies !is_active(#[trigger] segs[j], time) by {
        assert(segs[j].end <= segs[a].start);
    }
    assert(is_first_active(segs, time, a));
    lemma_first_active_unique(segs, time, a);
}

/// Once a segment entered from no zoom has been in effect for a whole
/// transition, the frame is fully zoomed in until the segment ends.
pub proof fn lemma_fully_zoomed(segs: Seq<ZoomSegment>, a: int, time: nat, ein: Seq<u64>, eout: Seq<u64>)
    requires
        segments_ordered(segs),
        valid_curve(ein),
        0 <= a < segs.len(),
        segs[a].start + ZOOM_DURATION <= time <= segs[a].end,
        a == 0 || segs[a].start - segs[a - 1].end >= ZOOM_DURATION,
    ensures
        zoom_at(segs, time, ein, eout).progress == ONE,
{
    reveal(zoom_at);
    lemma_ordered_active(segs, a, time as int);
}

/// Within one entry transition (the same segment in effect at both times) the
/// progress never decreases.
pub proof fn lemma_entry_monotone(
    segs: Seq<ZoomSegment>,
    t1: nat,
    t2: nat,
    ein: Seq<u64>,
    eout: Seq<u64>,
)
    requires
        valid_curve(ein),
        valid_curve(eout),
        t1 <= t2,
        active_at(segs, t1 as int) is Some,
        active_at(segs, t1 as int) == active_at(segs, t2 as int),
    ensures
        zoom_at(segs, t1, ein, eout).progress <= zoom_at(segs, t2, ein, eout).progress,
{
    reveal(zoom_at);
    let a = active_at(segs, t1 as int)->0;
    let cur = segs[a];
    lemma_eased_monotone(ein, t1 - cur.start, t2 - cur.start);
    if a > 0 {
        let prev = segs[a - 1];
        if cur.start != prev.end && cur.start - prev.end < ZOOM_DURATION {
            assert(is_first_active(segs, t1 as int, a));
            lemma_zoom_in_range(segs, cur.start as nat, ein, eout);
            let from = zoom_at(segs, cur.start as nat, ein, eout);
            lemma_lerp_monotone(
                from.progress,
                ONE as int,
                eased(ein, t1 - cur.start),
                eased(ein, t2 - cur.start),
            );
        }
    }
}

/// Within one exit transition (no segment in effect, the same segment ended
/// last at both times) the progress never increases.
pub proof fn lemma_exit_monotone(
    segs: Seq<ZoomSegment>,
    t1: nat,
    t2: nat,
    ein: Seq<u64>,
    eout: Seq<u64>,
)
    requires
        valid_curve(eout),
        t1 <= t2,
        active_at(segs, t1 as int) is None,
        active_at(segs, t2 as int) is None,
        previous_at(segs, t1 as int) is Some,
        previous_at(segs, t1 as int) == previous_at(segs, t2 as int),
    ensures
        zoom_at(segs, t1, ein, eout).progress >= zoom_at(segs, t2, ein, eout).progress,
{
    reveal(zoom_at);
    let p = previous_at(segs, t1 as int)->0;
    lemma_eased_monotone(eout, t1 - segs[p].end, t2 - segs[p].end);
}

/// While a segment that starts right where the previous one ended is in
/// effect, the frame stays fully zoomed in.
pub proof fn lemma_back_to_back_stays_zoomed(
    segs: Seq<ZoomSegment>,
    a: int,
    time: nat,
    ein: Seq<u64>,
    eout: Seq<u64>,
)
    requires
        segments_ordered(segs),
        0 < a < segs.len(),
        segs[a - 1].end == segs[a].start,
        segs[a].start < time <= segs[a].end,
    ensures
        zoom_at(segs, time, ein, eout).progress == ONE,
{
    reveal(zoom_at);
    lemma_ordered_active(segs, a, time as int);
}

/// At the instant a back-to-back segment starts the frame is fully zoomed in,
/// provided the segment before it had itself fully entered: it lasted a whole
/// transition and was entered from no zoom.
pub proof fn lemma_back_to_back_at_start(
    segs: Seq<ZoomSegment>,
    a: int,
    ein: Seq<u64>,
    eout: Seq<u64>,
)
    requires
        segments_ordered(segs),
        valid_curve(ein),
        0 < a < segs.len(),
        segs[a - 1].end == segs[a].start,
        segs[a - 1].end - segs[a - 1].start >= ZOOM_DURATION,
        a - 1 == 0 || segs[a - 1].start - segs[a - 2].end >= ZOOM_DURATION,
    ensures
        zoom_at(segs, segs[a].start as nat, ein, eout).progress == ONE,
{
    lemma_fully_zoomed(segs, a - 1, segs[a].start as nat, ein, eout);
}

} // verus!

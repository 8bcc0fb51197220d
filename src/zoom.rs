//! The zoom state machine: progress and crop at a playback time.
use vstd::prelude::*;
use crate::{ONE, ZOOM_DURATION};
use crate::cursor::{active_at, is_first_active, is_latest_ended, previous_at, SegmentsCursor};
use crate::easing::{eased, lemma_eased_monotone, valid_curve, ZoomCurves};
use crate::geometry::{
    bounds_ok, identity_bounds, lemma_lerp_between, lemma_lerp_bounds_ok, lemma_segment_bounds_ok,
    lerp, lerp_bounds, lerp_coord, segment_bounds_model, BoundsModel, SegmentBounds, ZoomSegment,
};

verus! {

/// Progress and crop over mathematical integers.
pub struct ZoomModel {
    pub progress: int,
    pub bounds: BoundsModel,
}

/// No zoom at all.
pub open spec fn idle() -> ZoomModel {
    ZoomModel { progress: 0, bounds: identity_bounds() }
}

/// Zooming into `s` from the whole frame.
pub open spec fn entering(s: ZoomSegment, time: int, ein: Seq<u64>) -> ZoomModel {
    let t = eased(ein, time - s.start);
    ZoomModel { progress: t, bounds: lerp_bounds(identity_bounds(), segment_bounds_model(s), t) }
}

/// Zooming out of `s`, which has ended, back to the whole frame.
pub open spec fn leaving(s: ZoomSegment, time: int, eout: Seq<u64>) -> ZoomModel {
    let z = eased(eout, time - s.end);
    ZoomModel { progress: ONE - z, bounds: lerp_bounds(segment_bounds_model(s), identity_bounds(), z) }
}

/// Zooming into `s` from `from` rather than from the whole frame.
pub open spec fn blend(from: ZoomModel, s: ZoomSegment, t: int) -> ZoomModel {
    ZoomModel {
        progress: lerp(from.progress, ONE as int, t),
        bounds: lerp_bounds(from.bounds, segment_bounds_model(s), t),
    }
}

/// The segment in effect at `time` when it began before the zoom out of the
/// previous segment was over (and not right at its end).
#[verifier::opaque]
pub open spec fn interrupted_at(segs: Seq<ZoomSegment>, time: int) -> Option<int> {
    match (previous_at(segs, time), active_at(segs, time)) {
        (Some(p), Some(a)) => if segs[a].start != segs[p].end && segs[a].start - segs[p].end
            < ZOOM_DURATION {
            Some(a)
        } else {
            None
        },
        _ => None,
    }
}

/// Applies a chain of interrupted entries, `(segment index, eased share)`,
/// to `inner`: the last entry first, the first entry last.
#[verifier::opaque]
pub open spec fn unwind(segs: Seq<ZoomSegment>, chain: Seq<(usize, u64)>, inner: ZoomModel) -> ZoomModel
    decreases chain.len(),
{
    if chain.len() == 0 {
        inner
    } else {
        let last = chain.last();
        unwind(segs, chain.drop_last(), blend(inner, segs[last.0 as int], last.1 as int))
    }
}

pub open spec fn zoom_ok(m: ZoomModel) -> bool {
    0 <= m.progress <= ONE && bounds_ok(m.bounds)
}

proof fn lemma_unwind_empty(segs: Seq<ZoomSegment>, chain: Seq<(usize, u64)>, inner: ZoomModel)
    requires
        chain.len() == 0,
    ensures
        unwind(segs, chain, inner) == inner,
{
    reveal(unwind);
}

proof fn lemma_unwind_last(segs: Seq<ZoomSegment>, chain: Seq<(usize, u64)>, inner: ZoomModel)
    requires
        chain.len() > 0,
    ensures
        unwind(segs, chain, inner) == unwind(
            segs,
            chain.drop_last(),
            blend(inner, segs[chain.last().0 as int], chain.last().1 as int),
        ),
{
    reveal(unwind);
}

/// Progress and crop at `time` on the timeline `segs`, with the curves `ein`
/// for zooming in and `eout` for zooming out.
#[verifier::opaque]
pub open spec fn zoom_at(segs: Seq<ZoomSegment>, time: nat, ein: Seq<u64>, eout: Seq<u64>) -> ZoomModel
    decreases time,
{
    match (previous_at(segs, time as int), active_at(segs, time as int)) {
        (Some(p), None) => leaving(segs[p], time as int, eout),
        (None, Some(a)) => entering(segs[a], time as int, ein),
        (Some(p), Some(a)) => {
            let prev = segs[p];
            let cur = segs[a];
            if cur.start == prev.end {
                // back to back: stay fully zoomed and move the crop across
                let t = eased(ein, time - cur.start);
                ZoomModel {
                    progress: ONE as int,
                    bounds: lerp_bounds(segment_bounds_model(prev), segment_bounds_model(cur), t),
                }
            } else if cur.start - prev.end < ZOOM_DURATION {
                // the zoom out of `prev` was cut short: zoom in from where it stood
                blend(zoom_at(segs, cur.start as nat, ein, eout), cur, eased(ein, time - cur.start))
            } else {
                entering(cur, time as int, ein)
            }
        },
        (None, None) => idle(),
    }
}

/// Progress stays within `0..=ONE` and every crop coordinate within range.
pub proof fn lemma_zoom_in_range(segs: Seq<ZoomSegment>, time: nat, ein: Seq<u64>, eout: Seq<u64>)
    requires
        valid_curve(ein),
        valid_curve(eout),
    ensures
        0 <= zoom_at(segs, time, ein, eout).progress <= ONE,
        bounds_ok(zoom_at(segs, time, ein, eout).bounds),
    decreases time,
{
    reveal(zoom_at);
    assert(bounds_ok(identity_bounds()));
    match (previous_at(segs, time as int), active_at(segs, time as int)) {
        (Some(p), None) => {
            let z = eased(eout, time - segs[p].end);
            lemma_eased_monotone(eout, time - segs[p].end, time - segs[p].end);
            lemma_segment_bounds_ok(segs[p]);
            lemma_lerp_bounds_ok(segment_bounds_model(segs[p]), identity_bounds(), z);
        },
        (None, Some(a)) => {
            let t = eased(ein, time - segs[a].start);
            lemma_eased_monotone(ein, time - segs[a].start, time - segs[a].start);
            lemma_segment_bounds_ok(segs[a]);
            lemma_lerp_bounds_ok(identity_bounds(), segment_bounds_model(segs[a]), t);
        },
        (Some(p), Some(a)) => {
            let prev = segs[p];
            let cur = segs[a];
            let t = eased(ein, time - cur.start);
            lemma_eased_monotone(ein, time - cur.start, time - cur.start);
            lemma_segment_bounds_ok(prev);
            lemma_segment_bounds_ok(cur);
            if cur.start == prev.end {
                lemma_lerp_bounds_ok(segment_bounds_model(prev), segment_bounds_model(cur), t);
            } else if cur.start - prev.end < ZOOM_DURATION {
                assert(is_first_active(segs, time as int, a));
                let from = zoom_at(segs, cur.start as nat, ein, eout);
                lemma_zoom_in_range(segs, cur.start as nat, ein, eout);
                lemma_lerp_between(from.progress, ONE as int, t);
                assert(zoom_at(segs, time, ein, eout) == blend(from, cur, t));
                lemma_lerp_bounds_ok(from.bounds, segment_bounds_model(cur), t);
            } else {
                lemma_lerp_bounds_ok(identity_bounds(), segment_bounds_model(cur), t);
            }
        },
        (None, None) => {},
    }
}

/// An interrupted entry continues from the state at the segment's start.
proof fn lemma_interrupted_step(segs: Seq<ZoomSegment>, time: int, a: int, ein: Seq<u64>, eout: Seq<u64>)
    requires
        time >= 0,
        interrupted_at(segs, time) == Some(a),
    ensures
        0 <= segs[a].start < time,
        zoom_at(segs, time as nat, ein, eout) == blend(
            zoom_at(segs, segs[a].start as nat, ein, eout),
            segs[a],
            eased(ein, time - segs[a].start),
        ),
{
    reveal(zoom_at);
    reveal(interrupted_at);
    assert(is_first_active(segs, time, a));
}

/// How far the frame is zoomed in at a time, and the crop shown.
pub struct InterpolatedZoom {
    /// The share of the current segment's zoom that is applied, scaled by `ONE`.
    pub t: u64,
    pub bounds: SegmentBounds,
}

impl InterpolatedZoom {
    pub open spec fn model(&self) -> ZoomModel {
        ZoomModel { progress: self.t as int, bounds: self.bounds.model() }
    }

    /// Progress and crop at the cursor's time.
    ///
    /// An entry that interrupted a zoom out starts from the state at its own
    /// start, which may itself be such an entry: the chain of them is walked
    /// back first and then applied from the earliest on, so the stack stays
    /// flat however long the chain is.
    pub fn new(cursor: &SegmentsCursor, curves: &ZoomCurves) -> (r: InterpolatedZoom)
        requires
            cursor.wf(),
            curves.wf(),
        ensures
            r.model() == zoom_at(
                cursor.segments_spec(),
                cursor.time_spec() as nat,
                curves.ease_in@,
                curves.ease_out@,
            ),
    {
        let ghost segs = cursor.segments_spec();
        let ghost t0 = cursor.time_spec() as nat;
        let ghost ein = curves.ease_in@;
        let ghost eout = curves.ease_out@;
        let segments = cursor.segments();
        let mut time = cursor.time();
        let mut at = SegmentsCursor::new(time, segments);
        let mut chain: Vec<(usize, u64)> = Vec::new();
        proof {
            lemma_unwind_empty(segs, chain@, zoom_at(segs, t0, ein, eout));
        }
        loop
            invariant
                at.wf(),
                at.time_spec() == time,
                at.segments_spec() == segs,
                segments@ == segs,
                curves.wf(),
                ein == curves.ease_in@,
                eout == curves.ease_out@,
                zoom_at(segs, t0, ein, eout) == unwind(segs, chain@, zoom_at(segs, time as nat, ein, eout)),
                forall|i: int| 0 <= i < chain@.len() ==> (#[trigger] chain@[i]).1 <= ONE,
                forall|i: int| 0 <= i < chain@.len() ==> (#[trigger] chain@[i]).0 < segs.len(),
            ensures
                interrupted_at(segs, time as int) is None,
            decreases time,
        {
            match Self::interrupted_entry(&at, curves) {
                Some((a, z)) => {
                    let ghost before = chain@;
                    proof {
                        lemma_interrupted_step(segs, time as int, a as int, ein, eout);
                    }
                    chain.push((a, z));
                    assert(chain@.drop_last() =~= before);
                    proof {
                        lemma_unwind_last(segs, chain@, zoom_at(segs, segments@[a as int].start as nat, ein, eout));
                    }
                    time = segments[a].start;
                    at = SegmentsCursor::new(time, segments);
                },
                None => break,
            }
        }
        let mut result = Self::settled(&at, curves);
        proof {
            lemma_zoom_in_range(segs, time as nat, ein, eout);
        }
        while chain.len() > 0
            invariant
                segments@ == segs,
                zoom_ok(result.model()),
                zoom_at(segs, t0, ein, eout) == unwind(segs, chain@, result.model()),
                forall|i: int| 0 <= i < chain@.len() ==> (#[trigger] chain@[i]).1 <= ONE,
                forall|i: int| 0 <= i < chain@.len() ==> (#[trigger] chain@[i]).0 < segs.len(),
            decreases chain.len(),
        {
            let ghost before = chain@;
            let (a, z) = chain.pop().unwrap();
            assert(before.last() == (a, z));
            proof {
                lemma_unwind_last(segs, before, result.model());
            }
            result = result.blend(&segments[a], z);
        }
        proof {
            lemma_unwind_empty(segs, chain@, result.model());
        }
        result
    }

    /// The active segment and its eased share, when the cursor's time falls in
    /// an entry that interrupted a zoom out.
    fn interrupted_entry(cursor: &SegmentsCursor, curves: &ZoomCurves) -> (r: Option<(usize, u64)>)
        requires
            cursor.wf(),
            curves.wf(),
        ensures
            r matches Some((a, z)) ==> {
                &&& interrupted_at(cursor.segments_spec(), cursor.time_spec()) == Some(a as int)
                &&& a < cursor.segments_spec().len()
                &&& cursor.segments_spec()[a as int].start < cursor.time_spec()
                &&& z == eased(curves.ease_in@, cursor.time_spec() - cursor.segments_spec()[a as int].start)
                &&& z <= ONE
            },
            r is None ==> interrupted_at(cursor.segments_spec(), cursor.time_spec()) is None,
    {
        let ghost segs = cursor.segments_spec();
        let ghost gt = cursor.time_spec();
        let segments = cursor.segments();
        proof {
            reveal(interrupted_at);
        }
        match (cursor.prev_segment(), cursor.segment()) {
            (Some(p), Some(a)) => {
                assert(is_first_active(segs, gt, a as int));
                let prev = &segments[p];
                let segment = &segments[a];
                if segment.start != prev.end && (prev.end > segment.start || segment.start - prev.end
                    < ZOOM_DURATION) {
                    Some((a, curves.ease_in.at(cursor.time() - segment.start)))
                } else {
                    None
                }
            },
            _ => None,
        }
    }

    /// Progress and crop at the cursor's time, where it does not fall in an
    /// entry that interrupted a zoom out.
    fn settled(cursor: &SegmentsCursor, curves: &ZoomCurves) -> (r: InterpolatedZoom)
        requires
            cursor.wf(),
            curves.wf(),
            interrupted_at(cursor.segments_spec(), cursor.time_spec()) is None,
        ensures
            r.model() == zoom_at(
                cursor.segments_spec(),
                cursor.time_spec() as nat,
                curves.ease_in@,
                curves.ease_out@,
            ),
    {
        let ghost segs = cursor.segments_spec();
        let ghost gt = cursor.time_spec();
        let segments = cursor.segments();
        let time = cursor.time();
        let default = SegmentBounds::default();
        proof {
            reveal(zoom_at);
            reveal(interrupted_at);
            assert(bounds_ok(identity_bounds()));
        }
        match (cursor.prev_segment(), cursor.segment()) {
            (Some(p), None) => {
                assert(is_latest_ended(segs, gt, p as int));
                let prev = &segments[p];
                let zoom_t = curves.ease_out.at(time - prev.end);
                proof {
                    lemma_segment_bounds_ok(*prev);
                }
                let prev_bounds = SegmentBounds::from_segment(prev);
                InterpolatedZoom { t: ONE - zoom_t, bounds: prev_bounds.lerp(&default, zoom_t) }
            },
            (None, Some(a)) => {
                assert(is_first_active(segs, gt, a as int));
                let segment = &segments[a];
                let t = curves.ease_in.at(time - segment.start);
                proof {
                    lemma_segment_bounds_ok(*segment);
                }
                let segment_bounds = SegmentBounds::from_segment(segment);
                InterpolatedZoom { t, bounds: default.lerp(&segment_bounds, t) }
            },
            (Some(p), Some(a)) => {
                assert(is_first_active(segs, gt, a as int));
                let prev = &segments[p];
                let segment = &segments[a];
                proof {
                    lemma_segment_bounds_ok(*prev);
                    lemma_segment_bounds_ok(*segment);
                }
                let segment_bounds = SegmentBounds::from_segment(segment);
                let zoom_t = curves.ease_in.at(time - segment.start);
                if segment.start == prev.end {
                    let prev_bounds = SegmentBounds::from_segment(prev);
                    InterpolatedZoom { t: ONE, bounds: prev_bounds.lerp(&segment_bounds, zoom_t) }
                } else {
                    InterpolatedZoom { t: zoom_t, bounds: default.lerp(&segment_bounds, zoom_t) }
                }
            },
            (None, None) => InterpolatedZoom { t: 0, bounds: default },
        }
    }

    /// Zooms into `segment` from this state by the eased share `t`.
    fn blend(&self, segment: &ZoomSegment, t: u64) -> (r: InterpolatedZoom)
        requires
            zoom_ok(self.model()),
            t <= ONE,
        ensures
            r.model() == blend(self.model(), *segment, t as int),
            zoom_ok(r.model()),
    {
        proof {
            lemma_segment_bounds_ok(*segment);
            lemma_lerp_between(self.t as int, ONE as int, t as int);
            lemma_lerp_bounds_ok(self.bounds.model(), segment_bounds_model(*segment), t as int);
        }
        let segment_bounds = SegmentBounds::from_segment(segment);
        InterpolatedZoom {
            t: lerp_coord(self.t as i64, ONE as i64, t) as u64,
            bounds: self.bounds.lerp(&segment_bounds, t),
        }
    }
}

} // verus!

//! Easing curves, sampled once per millisecond of a transition.
use vstd::prelude::*;
use crate::{ONE, ZOOM_DURATION};

verus! {

/// A curve is usable when it has one sample per millisecond of a transition,
/// both ends included, starts at 0, ends at `ONE` and never decreases.
pub open spec fn valid_curve(s: Seq<u64>) -> bool {
    &&& s.len() == ZOOM_DURATION + 1
    &&& s[0] == 0
    &&& s[ZOOM_DURATION as int] == ONE
    &&& forall|i: int| 0 <= i < ZOOM_DURATION ==> #[trigger] s[i] <= s[i + 1]
}

/// The eased share of a transition `elapsed` milliseconds after it began,
/// with `elapsed` clamped to the transition.
pub open spec fn eased(s: Seq<u64>, elapsed: int) -> int {
    if elapsed <= 0 {
        s[0] as int
    } else if elapsed >= ZOOM_DURATION {
        s[ZOOM_DURATION as int] as int
    } else {
        s[elapsed] as int
    }
}

/// Samples of a valid curve never decrease.
pub proof fn lemma_curve_monotone(s: Seq<u64>, i: int, j: int)
    requires
        valid_curve(s),
        0 <= i <= j <= ZOOM_DURATION,
    ensures
        s[i] <= s[j],
    decreases j - i,
{
    if i < j {
        lemma_curve_monotone(s, i, j - 1);
        assert(s[j - 1] <= s[j]);
    }
}

/// Easing is monotonic in the elapsed time and stays within `0..=ONE`.
pub proof fn lemma_eased_monotone(s: Seq<u64>, e1: int, e2: int)
    requires
        valid_curve(s),
        e1 <= e2,
    ensures
        0 <= eased(s, e1) <= eased(s, e2) <= ONE,
{
    let k1 = if e1 <= 0 { 0 } else if e1 >= ZOOM_DURATION { ZOOM_DURATION as int } else { e1 };
    let k2 = if e2 <= 0 { 0 } else if e2 >= ZOOM_DURATION { ZOOM_DURATION as int } else { e2 };
    lemma_curve_monotone(s, k1, k2);
    lemma_curve_monotone(s, k2, ZOOM_DURATION as int);
}

/// A monotonic easing curve, one sample (scaled by `ONE`) per millisecond.
pub struct EasingCurve {
    samples: Vec<u64>,
}

impl View for EasingCurve {
    type V = Seq<u64>;

    closed spec fn view(&self) -> Seq<u64> {
        self.samples@
    }
}

impl EasingCurve {
    /// Takes the samples as a curve when they form a valid one.
    pub fn from_samples(samples: Vec<u64>) -> (r: Option<EasingCurve>)
        ensures
            r.is_some() == valid_curve(samples@),
            r matches Some(c) ==> c@ == samples@,
    {
        if samples.len() != ZOOM_DURATION as usize + 1 {
            return None;
        }
        if samples[0] != 0 || samples[ZOOM_DURATION as usize] != ONE {
            return None;
        }
        let mut i: usize = 0;
        while i < ZOOM_DURATION as usize
            invariant
                samples@.len() == ZOOM_DURATION + 1,
                i <= ZOOM_DURATION,
                forall|k: int| 0 <= k < i ==> #[trigger] samples@[k] <= samples@[k + 1],
            decreases ZOOM_DURATION - i,
        {
            if samples[i] > samples[i + 1] {
                return None;
            }
            i = i + 1;
        }
        Some(EasingCurve { samples })
    }

    /// The curve that does not ease: the share grows evenly with time.
    pub fn linear() -> (r: EasingCurve)
        ensures
            valid_curve(r@),
            forall|k: int| 0 <= k <= ZOOM_DURATION ==> #[trigger] r@[k] == k * (ONE / ZOOM_DURATION),
    {
        let mut samples: Vec<u64> = Vec::new();
        let mut k: u64 = 0;
        while k <= ZOOM_DURATION
            invariant
                k <= ZOOM_DURATION + 1,
                samples@.len() == k,
                forall|j: int| 0 <= j < k ==> #[trigger] samples@[j] == j * (ONE / ZOOM_DURATION),
            decreases ZOOM_DURATION + 1 - k,
        {
            assert(k * 1000 <= 1001 * 1000) by (nonlinear_arith)
                requires
                    k <= 1001,
            ;
            samples.push(k * (ONE / ZOOM_DURATION));
            k = k + 1;
        }
        let r = EasingCurve { samples };
        assert forall|i: int| 0 <= i < ZOOM_DURATION implies #[trigger] r@[i] <= r@[i + 1] by {
            assert(r@[i + 1] == (i + 1) * 1000);
        }
        r
    }

    /// The eased share `elapsed` milliseconds into a transition.
    pub fn at(&self, elapsed: u64) -> (r: u64)
        requires
            valid_curve(self@),
        ensures
            r == eased(self@, elapsed as int),
            r <= ONE,
    {
        proof {
            lemma_eased_monotone(self@, elapsed as int, elapsed as int);
        }
        if elapsed >= ZOOM_DURATION {
            self.samples[ZOOM_DURATION as usize]
        } else {
            self.samples[elapsed as usize]
        }
    }
}

/// The two curves of the timeline: one for zooming in, one for zooming out.
pub struct ZoomCurves {
    pub ease_in: EasingCurve,
    pub ease_out: EasingCurve,
}

impl ZoomCurves {
    pub open spec fn wf(&self) -> bool {
        valid_curve(self.ease_in@) && valid_curve(self.ease_out@)
    }

    pub fn new(ease_in: EasingCurve, ease_out: EasingCurve) -> (r: ZoomCurves)
        ensures
            r.ease_in@ == ease_in@,
            r.ease_out@ == ease_out@,
    {
        ZoomCurves { ease_in, ease_out }
    }

    /// Both transitions without easing.
    pub fn linear() -> (r: ZoomCurves)
        ensures
            r.wf(),
            r.ease_in@ == r.ease_out@,
            forall|k: int| 0 <= k <= ZOOM_DURATION ==> #[trigger] r.ease_in@[k] == k * (ONE / ZOOM_DURATION),
    {
        let ease_in = EasingCurve::linear();
        let ease_out = EasingCurve::linear();
        assert(ease_in@ =~= ease_out@);
        ZoomCurves { ease_in, ease_out }
    }
}

} // verus!

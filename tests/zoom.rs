use zoom_timeline::{
    EasingCurve, InterpolatedZoom, SegmentBounds, SegmentsCursor, ZoomCurves, ZoomMode, ZoomSegment, XY,
    ONE, ZOOM_DURATION,
};

fn manual(start: u64, end: u64, amount: u32, x: u32, y: u32) -> ZoomSegment {
    ZoomSegment { start, end, amount, mode: ZoomMode::Manual { x, y } }
}

fn zoom(time: u64, segments: &[ZoomSegment]) -> InterpolatedZoom {
    InterpolatedZoom::new(&SegmentsCursor::new(time, segments), &ZoomCurves::linear())
}

fn progress(time: u64, segments: &[ZoomSegment]) -> u64 {
    zoom(time, segments).t
}

fn rect(x0: i64, y0: i64, x1: i64, y1: i64) -> SegmentBounds {
    SegmentBounds::new(XY::new(x0, y0), XY::new(x1, y1))
}

#[test]
fn one_segment() {
    let segments = vec![manual(2000, 4000, 2_500_000, 0, 0)];
    assert_eq!(progress(0, &segments), 0);
    assert_eq!(progress(2000, &segments), 0);
    assert_eq!(progress(2000 + ZOOM_DURATION / 10, &segments), 100_000);
    assert_eq!(progress(2000 + ZOOM_DURATION * 9 / 10, &segments), 900_000);
    assert_eq!(progress(2000 + ZOOM_DURATION, &segments), ONE);
    assert_eq!(progress(4000, &segments), ONE);
    assert_eq!(progress(4000 + ZOOM_DURATION / 5, &segments), 800_000);
    assert_eq!(progress(4000 + ZOOM_DURATION * 4 / 5, &segments), 200_000);
    assert_eq!(progress(4000 + ZOOM_DURATION, &segments), 0);
}

#[test]
fn two_segments_no_gap() {
    let segments = vec![manual(2000, 4000, 2_500_000, 0, 0), manual(4000, 6000, 4_000_000, 0, 0)];
    assert_eq!(progress(4000, &segments), ONE);
    assert_eq!(progress(4000 + ZOOM_DURATION * 4 / 5, &segments), ONE);
    assert_eq!(progress(4000 + ZOOM_DURATION, &segments), ONE);
    assert_eq!(progress(6000, &segments), ONE);
    assert_eq!(progress(6000 + ZOOM_DURATION / 5, &segments), 800_000);
    assert_eq!(progress(6000 + ZOOM_DURATION * 4 / 5, &segments), 200_000);
    assert_eq!(progress(7000, &segments), 0);
}

#[test]
fn two_segments_small_gap() {
    let segments = vec![
        manual(2000, 4000, 2_500_000, 0, 0),
        manual(4000 + ZOOM_DURATION * 3 / 4, 6000, 2_500_000, 0, 0),
    ];
    assert_eq!(progress(4000, &segments), ONE);
    assert_eq!(progress(4000 + ZOOM_DURATION / 4, &segments), 750_000);
    assert_eq!(progress(4000 + ZOOM_DURATION / 2, &segments), 500_000);
    assert_eq!(progress(4000 + ZOOM_DURATION * 3 / 4, &segments), 250_000);
    assert_eq!(progress(4000 + ZOOM_DURATION * 3 / 4 + ZOOM_DURATION / 2, &segments), 625_000);
    assert_eq!(progress(4000 + ZOOM_DURATION * 3 / 4 + ZOOM_DURATION, &segments), ONE);
    assert_eq!(progress(6000, &segments), ONE);
    assert_eq!(progress(6000 + ZOOM_DURATION, &segments), 0);
}

#[test]
fn two_segments_large_gap() {
    let segments = vec![manual(2000, 4000, 2_500_000, 0, 0), manual(7000, 9000, 2_500_000, 0, 0)];
    assert_eq!(progress(2000, &segments), 0);
    assert_eq!(progress(2000 + ZOOM_DURATION, &segments), ONE);
    assert_eq!(progress(4000, &segments), ONE);
    assert_eq!(progress(4000 + ZOOM_DURATION, &segments), 0);
    assert_eq!(progress(5000, &segments), 0);
    assert_eq!(progress(7000, &segments), 0);
    assert_eq!(progress(7000 + ZOOM_DURATION, &segments), ONE);
    assert_eq!(progress(9000, &segments), ONE);
    assert_eq!(progress(9000 + ZOOM_DURATION, &segments), 0);
}

#[test]
fn zoom_one_segment() {
    let segments = vec![manual(2000, 4000, 2_500_000, 500_000, 500_000)];
    assert_eq!(zoom(2000, &segments).bounds, SegmentBounds::default());
    assert_eq!(zoom(2000 + ZOOM_DURATION, &segments).bounds, rect(-750_000, -750_000, 1_750_000, 1_750_000));
    assert_eq!(zoom(4000, &segments).bounds, rect(-750_000, -750_000, 1_750_000, 1_750_000));
    assert_eq!(zoom(4000 + ZOOM_DURATION / 2, &segments).bounds, rect(-375_000, -375_000, 1_375_000, 1_375_000));
}

#[test]
fn zoom_two_segments_no_gap() {
    let segments = vec![manual(2000, 4000, 2_000_000, 200_000, 200_000), manual(4000, 6000, 2_000_000, 800_000, 800_000)];
    assert_eq!(zoom(4000, &segments).bounds, rect(-200_000, -200_000, 1_800_000, 1_800_000));
}

#[test]
fn two_segments_with_gap() {
    let segments = vec![manual(2000, 4000, 2_000_000, 0, 0), manual(4000 + ZOOM_DURATION / 2, 6000, 2_000_000, 0, 0)];
    assert_eq!(zoom(4000, &segments).bounds, rect(0, 0, 2_000_000, 2_000_000));
    assert_eq!(zoom(4000 + ZOOM_DURATION / 4, &segments).bounds, rect(0, 0, 1_750_000, 1_750_000));
    assert_eq!(zoom(4000 + ZOOM_DURATION / 2, &segments).bounds, rect(0, 0, 1_500_000, 1_500_000));
    assert_eq!(zoom(4000 + ZOOM_DURATION, &segments).bounds, rect(0, 0, 1_750_000, 1_750_000));
    assert_eq!(zoom(4000 + ZOOM_DURATION * 3 / 2, &segments).bounds, rect(0, 0, 2_000_000, 2_000_000));
}

#[test]
fn empty_timeline_is_idle() {
    let segments: Vec<ZoomSegment> = Vec::new();
    let z = zoom(1234, &segments);
    assert_eq!(z.t, 0);
    assert_eq!(z.bounds, SegmentBounds::default());
}

#[test]
fn idle_before_first_and_after_last_exit() {
    let segments = vec![manual(2000, 4000, 2_000_000, 300_000, 600_000), manual(4500, 5000, 3_000_000, 0, 0)];
    for time in [0u64, 1000, 2000, 6000, 6500, 100_000] {
        let z = zoom(time, &segments);
        assert_eq!(z.t, 0);
        assert_eq!(z.bounds, SegmentBounds::default());
    }
}

#[test]
fn full_zoom_after_entry() {
    let segments = vec![manual(2000, 8000, 2_000_000, 0, 0)];
    for time in [3000u64, 4000, 7999, 8000] {
        assert_eq!(progress(time, &segments), ONE);
    }
}

#[test]
fn progress_is_monotonic_in_transitions() {
    let segments = vec![manual(2000, 5000, 2_000_000, 0, 0)];
    let curves = ZoomCurves::linear();
    let mut last = 0u64;
    for time in 2000u64..=3000 {
        let p = InterpolatedZoom::new(&SegmentsCursor::new(time, &segments), &curves).t;
        assert!(p >= last);
        last = p;
    }
    for time in 5000u64..=6000 {
        let p = InterpolatedZoom::new(&SegmentsCursor::new(time, &segments), &curves).t;
        assert!(p <= last);
        last = p;
    }
}

#[test]
fn back_to_back_stays_zoomed() {
    let segments = vec![manual(1000, 3000, 2_000_000, 0, 0), manual(3000, 3200, 2_000_000, 0, 0)];
    for time in [3000u64, 3001, 3100, 3200] {
        assert_eq!(progress(time, &segments), ONE);
    }
    assert_eq!(progress(3700, &segments), 500_000);
}

#[test]
fn auto_focus_zooms_towards_corner() {
    let segments = vec![ZoomSegment { start: 0, end: 5000, amount: 2_000_000, mode: ZoomMode::Auto }];
    assert_eq!(SegmentBounds::from_segment(&segments[0]), rect(0, 0, 2_000_000, 2_000_000));
    assert_eq!(zoom(1000, &segments).bounds, rect(0, 0, 2_000_000, 2_000_000));
}

#[test]
fn bounds_keep_focus_point() {
    let s = manual(0, 1000, 3_000_000, 250_000, 100_000);
    // shift = focus * amount - focus
    assert_eq!(SegmentBounds::from_segment(&s), rect(-500_000, -200_000, 2_500_000, 2_800_000));
}

#[test]
fn cursor_locates_segments() {
    let segments = vec![manual(1000, 2000, ONE as u32, 0, 0), manual(3000, 4000, ONE as u32, 0, 0)];
    let c = SegmentsCursor::new(1000, &segments);
    assert_eq!((c.segment(), c.prev_segment()), (None, None));
    let c = SegmentsCursor::new(2000, &segments);
    assert_eq!((c.segment(), c.prev_segment()), (Some(0), None));
    let c = SegmentsCursor::new(2500, &segments);
    assert_eq!((c.segment(), c.prev_segment()), (None, Some(0)));
    let c = SegmentsCursor::new(3500, &segments);
    assert_eq!((c.segment(), c.prev_segment()), (Some(1), Some(0)));
    let c = SegmentsCursor::new(9000, &segments);
    assert_eq!((c.segment(), c.prev_segment()), (None, Some(1)));
}

#[test]
fn easing_curve_validation() {
    let linear: Vec<u64> = (0..=ZOOM_DURATION).map(|k| k * (ONE / ZOOM_DURATION)).collect();
    assert!(EasingCurve::from_samples(linear.clone()).is_some());
    assert!(EasingCurve::from_samples(linear[..10].to_vec()).is_none());
    let mut bad_end = linear.clone();
    bad_end[ZOOM_DURATION as usize] = ONE - 1;
    assert!(EasingCurve::from_samples(bad_end).is_none());
    let mut bad_order = linear.clone();
    bad_order[500] = 0;
    assert!(EasingCurve::from_samples(bad_order).is_none());
    let c = EasingCurve::linear();
    assert_eq!(c.at(250), 250_000);
    assert_eq!(c.at(5000), ONE);
}

#[test]
fn eased_curve_shapes_progress() {
    // a curve that jumps to full at half time
    let samples: Vec<u64> = (0..=ZOOM_DURATION).map(|k| if k >= 500 { ONE } else { 0 }).collect();
    let step = EasingCurve::from_samples(samples).unwrap();
    let curves = ZoomCurves::new(step, EasingCurve::linear());
    let segments = vec![manual(1000, 5000, 2_000_000, 0, 0)];
    let at = |time: u64| InterpolatedZoom::new(&SegmentsCursor::new(time, &segments), &curves).t;
    assert_eq!(at(1400), 0);
    assert_eq!(at(1500), ONE);
    assert_eq!(at(5250), 750_000);
}

//! Timeline zoom: for a playback time and an ordered list of zoom segments,
//! how far the frame is zoomed in and which crop of it is shown.
//!
//! Time is counted in milliseconds. Progress, zoom amounts, focus points and
//! crop coordinates are fixed-point numbers in which `ONE` stands for 1.0.
use vstd::prelude::*;

pub mod geometry;
pub mod easing;
pub mod cursor;
pub mod zoom;
pub mod laws;

pub use geometry::{SegmentBounds, ZoomMode, ZoomSegment, XY};
pub use easing::{EasingCurve, ZoomCurves};
pub use cursor::SegmentsCursor;
pub use zoom::InterpolatedZoom;

verus! {

/// Length of every enter or exit transition, in milliseconds.
pub const ZOOM_DURATION: u64 = 1000;

/// The fixed-point value of 1.0.
pub const ONE: u64 = 1_000_000;

} // verus!

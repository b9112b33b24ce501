//! Drawable segments: the compactor's output model.

use vstd::prelude::*;
use crate::value::Bit;

verus! {

/// One contiguous drawable span of a signal's rendered timeline.
#[derive(Debug, PartialEq, Eq)]
pub enum Segment {
    /// The signal is unknown or high-impedance throughout `[start, end)`.
    Undetermined { start: u64, end: u64 },
    /// A square-wave polyline through the retained `(time, level)` corners,
    /// drawn at the last level up to `end`.
    Toggle { points: Vec<(u64, bool)>, end: u64 },
    /// A constant vector value held over `[start, end)`.
    VectorBlock { start: u64, end: u64, value: Vec<Bit> },
}

/// Mathematical model of a [`Segment`].
#[verifier::ext_equal]
pub enum SegV {
    Undetermined { start: u64, end: u64 },
    Toggle { points: Seq<(u64, bool)>, end: u64 },
    VectorBlock { start: u64, end: u64, value: Seq<Bit> },
}

impl View for Segment {
    type V = SegV;

    open spec fn view(&self) -> SegV {
        match self {
            Segment::Undetermined { start, end } => SegV::Undetermined {
                start: *start,
                end: *end,
            },
            Segment::Toggle { points, end } => SegV::Toggle { points: points@, end: *end },
            Segment::VectorBlock { start, end, value } => SegV::VectorBlock {
                start: *start,
                end: *end,
                value: value@,
            },
        }
    }
}

/// The models of a list of segments.
pub open spec fn segs_view(v: Seq<Segment>) -> Seq<SegV> {
    v.map_values(|s: Segment| s@)
}

/// Well-formedness of one segment against the global right edge `end_time`:
/// spans run forward and stay inside the drawn range, an undetermined span is
/// never empty, and a toggle run holds at least one corner, in time order,
/// none past its own right edge.
pub open spec fn seg_wf(s: SegV, end_time: u64) -> bool {
    match s {
        SegV::Undetermined { start, end } => start < end && end <= end_time,
        SegV::Toggle { points, end } => {
            &&& points.len() >= 1
            &&& end <= end_time
            &&& forall|i: int| 0 <= i < points.len() ==> (#[trigger] points[i]).0 <= end
            &&& forall|i: int|
                0 <= i < points.len() - 1 ==> (#[trigger] points[i]).0 <= points[i + 1].0
        },
        SegV::VectorBlock { start, end, value } => start <= end && end <= end_time,
    }
}

/// No two consecutive retained corners sit at the same level.
pub open spec fn points_alternate(points: Seq<(u64, bool)>) -> bool {
    forall|i: int| 0 <= i < points.len() - 1 ==> (#[trigger] points[i]).1 != points[i + 1].1
}

/// No two consecutive retained corners of a toggle run sit at the same level.
pub open spec fn toggle_alternates(s: SegV) -> bool {
    s matches SegV::Toggle { points, end } ==> points_alternate(points)
}

} // verus!

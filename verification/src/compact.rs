//! The segment compactor: per signal, folds a time-ordered sequence of
//! tri-state change events into a minimal ordered list of drawable segments.
//!
//! Scalar signals and vector (bus) signals run separate state machines of the
//! same shape: an `Unknown` span is open until a fully driven value arrives,
//! driven values accumulate (toggle corners for scalars, a held constant for
//! buses), and an unknown value closes the accumulated segment and reopens an
//! `Unknown` span.

use vstd::prelude::*;
use crate::segment::{SegV, Segment, points_alternate, seg_wf, segs_view, toggle_alternates};
use crate::value::{Bit, all_driven, bit_driven};

verus! {

/// Compactor state for a single-bit signal.
pub enum ScalarState {
    /// The signal has been unknown or high-impedance since `start`.
    Unknown { start: u64 },
    /// The signal is driven; `points` are the retained toggle corners so far.
    Binary { points: Seq<(u64, bool)> },
}

/// Compactor state for a bus signal.
pub enum VectorState {
    /// The bus has held an unknown or high-impedance bit since `start`.
    Unknown { start: u64 },
    /// The bus has held the fully driven `value` since `start`.
    Hold { start: u64, value: Seq<Bit> },
}

/// One transition of the scalar machine on the event `(t, b)`.
///
/// A driven bit closes an open unknown span (dropped when empty) and becomes
/// a toggle corner; a corner at the level already held is not retained.  An
/// unknown bit closes the toggle run at `t` and opens an unknown span there.
pub open spec fn scalar_step(st: ScalarState, out: Seq<SegV>, t: u64, b: Bit) -> (ScalarState,
    Seq<SegV>) {
    match st {
        ScalarState::Unknown { start } => {
            if bit_driven(b) {
                let closed = if t > start {
                    out.push(SegV::Undetermined { start, end: t })
                } else {
                    out
                };
                (ScalarState::Binary { points: seq![(t, b == Bit::B1)] }, closed)
            } else {
                (st, out)
            }
        },
        ScalarState::Binary { points } => {
            if bit_driven(b) {
                let level = b == Bit::B1;
                if points.len() > 0 && points.last().1 == level {
                    (st, out)
                } else {
                    (ScalarState::Binary { points: points.push((t, level)) }, out)
                }
            } else {
                (ScalarState::Unknown { start: t }, out.push(SegV::Toggle { points, end: t }))
            }
        },
    }
}

/// The scalar machine folded over a whole event sequence.
pub open spec fn scalar_fold(st: ScalarState, out: Seq<SegV>, events: Seq<(u64, Bit)>) -> (
    ScalarState,
    Seq<SegV>,
)
    decreases events.len(),
{
    if events.len() == 0 {
        (st, out)
    } else {
        let stepped = scalar_step(st, out, events[0].0, events[0].1);
        scalar_fold(stepped.0, stepped.1, events.drop_first())
    }
}

/// On stream exhaustion the open span is flushed to the global `end_time`.
pub open spec fn scalar_finish(st: ScalarState, out: Seq<SegV>, end_time: u64) -> Seq<SegV> {
    match st {
        ScalarState::Unknown { start } => {
            if end_time > start {
                out.push(SegV::Undetermined { start, end: end_time })
            } else {
                out
            }
        },
        ScalarState::Binary { points } => out.push(SegV::Toggle { points, end: end_time }),
    }
}

/// The full segment list of a scalar signal: the machine starts in
/// `Unknown` at time 0, consumes every event, then flushes.
pub open spec fn scalar_segments(events: Seq<(u64, Bit)>, end_time: u64) -> Seq<SegV> {
    let folded = scalar_fold(ScalarState::Unknown { start: 0 }, Seq::empty(), events);
    scalar_finish(folded.0, folded.1, end_time)
}

/// One transition of the vector machine on the event `(t, v)`.
///
/// A fully driven vector closes an open unknown span (dropped when empty) and
/// is held; a held value is closed into a block when the bus changes to a
/// different driven value or to a value with an unknown bit; a repeated equal
/// value coalesces into the open block.
pub open spec fn vector_step(st: VectorState, out: Seq<SegV>, t: u64, v: Seq<Bit>) -> (VectorState,
    Seq<SegV>) {
    match st {
        VectorState::Unknown { start } => {
            if all_driven(v) {
                let closed = if t > start {
                    out.push(SegV::Undetermined { start, end: t })
                } else {
                    out
                };
                (VectorState::Hold { start: t, value: v }, closed)
            } else {
                (st, out)
            }
        },
        VectorState::Hold { start, value } => {
            if !all_driven(v) {
                (VectorState::Unknown { start: t }, out.push(SegV::VectorBlock { start, end: t, value }))
            } else if v != value {
                (VectorState::Hold { start: t, value: v }, out.push(SegV::VectorBlock { start, end: t, value }))
            } else {
                (st, out)
            }
        },
    }
}

/// The vector machine folded over a whole event sequence.
pub open spec fn vector_fold(st: VectorState, out: Seq<SegV>, events: Seq<(u64, Seq<Bit>)>) -> (
    VectorState,
    Seq<SegV>,
)
    decreases events.len(),
{
    if events.len() == 0 {
        (st, out)
    } else {
        let stepped = vector_step(st, out, events[0].0, events[0].1);
        vector_fold(stepped.0, stepped.1, events.drop_first())
    }
}

/// On stream exhaustion the open span or block is flushed to `end_time`.
pub open spec fn vector_finish(st: VectorState, out: Seq<SegV>, end_time: u64) -> Seq<SegV> {
    match st {
        VectorState::Unknown { start } => {
            if end_time > start {
                out.push(SegV::Undetermined { start, end: end_time })
            } else {
                out
            }
        },
        VectorState::Hold { start, value } => out.push(
            SegV::VectorBlock { start, end: end_time, value },
        ),
    }
}

/// The full segment list of a bus signal.
pub open spec fn vector_segments(events: Seq<(u64, Seq<Bit>)>, end_time: u64) -> Seq<SegV> {
    let folded = vector_fold(VectorState::Unknown { start: 0 }, Seq::empty(), events);
    vector_finish(folded.0, folded.1, end_time)
}

/// Folding one more event at the back is one more step on the fold so far.
proof fn lemma_scalar_fold_snoc(
    st: ScalarState,
    out: Seq<SegV>,
    s: Seq<(u64, Bit)>,
    e: (u64, Bit),
)
    ensures
        scalar_fold(st, out, s.push(e)) == scalar_step(
            scalar_fold(st, out, s).0,
            scalar_fold(st, out, s).1,
            e.0,
            e.1,
        ),
    decreases s.len(),
{
    reveal_with_fuel(scalar_fold, 3);
    if s.len() == 0 {
        assert(s.push(e)[0] == e);
        assert(s.push(e).drop_first() =~= Seq::<(u64, Bit)>::empty());
    } else {
        assert(s.push(e)[0] == s[0]);
        assert(s.push(e).drop_first() =~= s.drop_first().push(e));
        let stepped = scalar_step(st, out, s[0].0, s[0].1);
        lemma_scalar_fold_snoc(stepped.0, stepped.1, s.drop_first(), e);
    }
}

/// Folding one more event at the back is one more step on the fold so far.
proof fn lemma_vector_fold_snoc(
    st: VectorState,
    out: Seq<SegV>,
    s: Seq<(u64, Seq<Bit>)>,
    e: (u64, Seq<Bit>),
)
    ensures
        vector_fold(st, out, s.push(e)) == vector_step(
            vector_fold(st, out, s).0,
            vector_fold(st, out, s).1,
            e.0,
            e.1,
        ),
    decreases s.len(),
{
    reveal_with_fuel(vector_fold, 3);
    if s.len() == 0 {
        assert(s.push(e)[0] == e);
        assert(s.push(e).drop_first() =~= Seq::<(u64, Seq<Bit>)>::empty());
    } else {
        assert(s.push(e)[0] == s[0]);
        assert(s.push(e).drop_first() =~= s.drop_first().push(e));
        let stepped = vector_step(st, out, s[0].0, s[0].1);
        lemma_vector_fold_snoc(stepped.0, stepped.1, s.drop_first(), e);
    }
}

/// Event times never decrease.
pub open spec fn times_sorted<V>(events: Seq<(u64, V)>) -> bool {
    forall|i: int| 0 <= i < events.len() - 1 ==> (#[trigger] events[i]).0 <= events[i + 1].0
}

/// Every event lies on or before the global right edge.
pub open spec fn times_bounded<V>(events: Seq<(u64, V)>, end_time: u64) -> bool {
    forall|i: int| 0 <= i < events.len() ==> (#[trigger] events[i]).0 <= end_time
}

enum ScalarExec {
    Unknown { start: u64 },
    Binary { points: Vec<(u64, bool)> },
}

spec fn scalar_exec_view(st: &ScalarExec) -> ScalarState {
    match st {
        ScalarExec::Unknown { start } => ScalarState::Unknown { start: *start },
        ScalarExec::Binary { points } => ScalarState::Binary { points: points@ },
    }
}

/// Folds a scalar signal's time-ordered events into its segment list, exactly
/// as [`scalar_segments`] describes.
pub fn compact_scalar(events: &Vec<(u64, Bit)>, end_time: u64) -> (segs: Vec<Segment>)
    ensures
        segs_view(segs@) == scalar_segments(events@, end_time),
{
    let ghost init = ScalarState::Unknown { start: 0 };
    let mut out: Vec<Segment> = Vec::new();
    let mut st: ScalarExec = ScalarExec::Unknown { start: 0 };
    let mut i: usize = 0;
    while i < events.len()
        invariant
            0 <= i <= events@.len(),
            scalar_exec_view(&st) == scalar_fold(init, Seq::empty(), events@.take(i as int)).0,
            segs_view(out@) == scalar_fold(init, Seq::empty(), events@.take(i as int)).1,
        decreases events@.len() - i,
    {
        let (t, b) = events[i];
        proof {
            assert(events@.take(i + 1) =~= events@.take(i as int).push(events@[i as int]));
            lemma_scalar_fold_snoc(init, Seq::empty(), events@.take(i as int), events@[i as int]);
        }
        let ghost prev_out = segs_view(out@);
        st = match st {
            ScalarExec::Unknown { start } => {
                match b {
                    Bit::B0 | Bit::B1 => {
                        if t > start {
                            out.push(Segment::Undetermined { start, end: t });
                            proof {
                                assert(segs_view(out@) =~= prev_out.push(
                                    SegV::Undetermined { start, end: t },
                                ));
                            }
                        }
                        let mut points: Vec<(u64, bool)> = Vec::new();
                        points.push((t, b == Bit::B1));
                        proof {
                            assert(points@ =~= seq![(t, b == Bit::B1)]);
                        }
                        ScalarExec::Binary { points }
                    },
                    Bit::X | Bit::Z => ScalarExec::Unknown { start },
                }
            },
            ScalarExec::Binary { mut points } => {
                match b {
                    Bit::B0 | Bit::B1 => {
                        let level = b == Bit::B1;
                        if points.len() > 0 && points[points.len() - 1].1 == level {
                            ScalarExec::Binary { points }
                        } else {
                            points.push((t, level));
                            ScalarExec::Binary { points }
                        }
                    },
                    Bit::X | Bit::Z => {
                        let ghost closed = points@;
                        out.push(Segment::Toggle { points, end: t });
                        proof {
                            assert(segs_view(out@) =~= prev_out.push(
                                SegV::Toggle { points: closed, end: t },
                            ));
                        }
                        ScalarExec::Unknown { start: t }
                    },
                }
            },
        };
        i += 1;
    }
    proof {
        assert(events@.take(events@.len() as int) =~= events@);
    }
    let ghost folded = scalar_fold(init, Seq::empty(), events@);
    let ghost prev_out = segs_view(out@);
    match st {
        ScalarExec::Unknown { start } => {
            if end_time > start {
                out.push(Segment::Undetermined { start, end: end_time });
                proof {
                    assert(segs_view(out@) =~= prev_out.push(
                        SegV::Undetermined { start, end: end_time },
                    ));
                }
            }
        },
        ScalarExec::Binary { points } => {
            let ghost closed = points@;
            out.push(Segment::Toggle { points, end: end_time });
            proof {
                assert(segs_view(out@) =~= prev_out.push(
                    SegV::Toggle { points: closed, end: end_time },
                ));
            }
        },
    }
    out
}

enum VectorExec {
    Unknown { start: u64 },
    Hold { start: u64, value: Vec<Bit> },
}

spec fn vector_exec_view(st: &VectorExec) -> VectorState {
    match st {
        VectorExec::Unknown { start } => VectorState::Unknown { start: *start },
        VectorExec::Hold { start, value } => VectorState::Hold { start: *start, value: value@ },
    }
}

/// Folds a bus signal's time-ordered vector events into its segment list,
/// exactly as [`vector_segments`] describes.
pub fn compact_vector(events: &Vec<(u64, Vec<Bit>)>, end_time: u64) -> (segs: Vec<Segment>)
    ensures
        segs_view(segs@) == vector_segments(vec_events_view(events@), end_time),
{
    let ghost init = VectorState::Unknown { start: 0 };
    let ghost ev = vec_events_view(events@);
    let mut out: Vec<Segment> = Vec::new();
    let mut st: VectorExec = VectorExec::Unknown { start: 0 };
    let mut i: usize = 0;
    while i < events.len()
        invariant
            0 <= i <= events@.len(),
            ev == vec_events_view(events@),
            ev.len() == events@.len(),
            forall|j: int| 0 <= j < events@.len() ==> #[trigger] ev[j] == (events@[j].0, events@[j].1@),
            vector_exec_view(&st) == vector_fold(init, Seq::empty(), ev.take(i as int)).0,
            segs_view(out@) == vector_fold(init, Seq::empty(), ev.take(i as int)).1,
        decreases events@.len() - i,
    {
        let entry = &events[i];
        let t = entry.0;
        let bits = &entry.1;
        proof {
            assert(ev.take(i + 1) =~= ev.take(i as int).push(ev[i as int]));
            lemma_vector_fold_snoc(init, Seq::empty(), ev.take(i as int), ev[i as int]);
        }
        let ghost prev_out = segs_view(out@);
        let driven = crate::value::vec_all_driven(bits);
        st = match st {
            VectorExec::Unknown { start } => {
                if driven {
                    if t > start {
                        out.push(Segment::Undetermined { start, end: t });
                        proof {
                            assert(segs_view(out@) =~= prev_out.push(
                                SegV::Undetermined { start, end: t },
                            ));
                        }
                    }
                    VectorExec::Hold { start: t, value: crate::value::copy_bits(bits) }
                } else {
                    VectorExec::Unknown { start }
                }
            },
            VectorExec::Hold { start, value } => {
                if !driven {
                    let ghost held = value@;
                    out.push(Segment::VectorBlock { start, end: t, value });
                    proof {
                        assert(segs_view(out@) =~= prev_out.push(
                            SegV::VectorBlock { start, end: t, value: held },
                        ));
                    }
                    VectorExec::Unknown { start: t }
                } else if !crate::value::bits_eq(bits, &value) {
                    let ghost held = value@;
                    out.push(Segment::VectorBlock { start, end: t, value });
                    proof {
                        assert(segs_view(out@) =~= prev_out.push(
                            SegV::VectorBlock { start, end: t, value: held },
                        ));
                    }
                    VectorExec::Hold { start: t, value: crate::value::copy_bits(bits) }
                } else {
                    VectorExec::Hold { start, value }
                }
            },
        };
        i += 1;
    }
    proof {
        assert(ev.take(ev.len() as int) =~= ev);
    }
    let ghost prev_out = segs_view(out@);
    match st {
        VectorExec::Unknown { start } => {
            if end_time > start {
                out.push(Segment::Undetermined { start, end: end_time });
                proof {
                    assert(segs_view(out@) =~= prev_out.push(
                        SegV::Undetermined { start, end: end_time },
                    ));
                }
            }
        },
        VectorExec::Hold { start, value } => {
            let ghost held = value@;
            out.push(Segment::VectorBlock { start, end: end_time, value });
            proof {
                assert(segs_view(out@) =~= prev_out.push(
                    SegV::VectorBlock { start, end: end_time, value: held },
                ));
            }
        },
    }
    out
}

/// The model of a vector event list: each owned bit vector as its sequence.
pub open spec fn vec_events_view(events: Seq<(u64, Vec<Bit>)>) -> Seq<(u64, Seq<Bit>)> {
    events.map_values(|e: (u64, Vec<Bit>)| (e.0, e.1@))
}

spec fn scalar_state_alt(st: ScalarState) -> bool {
    st matches ScalarState::Binary { points } ==> points.len() >= 1 && points_alternate(points)
}

spec fn all_alternate(out: Seq<SegV>) -> bool {
    forall|i: int| 0 <= i < out.len() ==> toggle_alternates(#[trigger] out[i])
}

proof fn lemma_scalar_fold_alt(st: ScalarState, out: Seq<SegV>, events: Seq<(u64, Bit)>)
    requires
        scalar_state_alt(st),
        all_alternate(out),
    ensures
        scalar_state_alt(scalar_fold(st, out, events).0),
        all_alternate(scalar_fold(st, out, events).1),
    decreases events.len(),
{
    if events.len() > 0 {
        let t = events[0].0;
        let b = events[0].1;
        let stepped = scalar_step(st, out, t, b);
        match st {
            ScalarState::Unknown { start } => {
                assert(all_alternate(stepped.1)) by {
                    if bit_driven(b) && t > start {
                        let pushed = out.push(SegV::Undetermined { start, end: t });
                        assert(forall|i: int|
                            0 <= i < out.len() ==> pushed[i] == #[trigger] out[i]);
                    }
                }
            },
            ScalarState::Binary { points } => {
                if bit_driven(b) {
                    let level = b == Bit::B1;
                    if !(points.len() > 0 && points.last().1 == level) {
                        let p2 = points.push((t, level));
                        assert(points_alternate(p2)) by {
                            assert forall|i: int| 0 <= i < p2.len() - 1 implies (
                            #[trigger] p2[i]).1 != p2[i + 1].1 by {
                                if i < points.len() - 1 {
                                    assert(p2[i] == points[i]);
                                    assert(p2[i + 1] == points[i + 1]);
                                } else {
                                    assert(p2[i] == points.last());
                                    assert(p2[i + 1] == (t, level));
                                }
                            }
                        }
                    }
                } else {
                    let pushed = out.push(SegV::Toggle { points, end: t });
                    assert(all_alternate(pushed)) by {
                        assert(forall|i: int|
                            0 <= i < out.len() ==> pushed[i] == #[trigger] out[i]);
                        assert(toggle_alternates(pushed[out.len() as int]));
                    }
                }
            },
        }
        lemma_scalar_fold_alt(stepped.0, stepped.1, events.drop_first());
    }
}

/// Toggle compaction never retains two consecutive corners at the same level:
/// in every toggle segment the compactor produces, adjacent retained points
/// always differ in level.
pub proof fn lemma_toggle_points_alternate(events: Seq<(u64, Bit)>, end_time: u64)
    ensures
        forall|k: int|
            0 <= k < scalar_segments(events, end_time).len() ==> toggle_alternates(
                #[trigger] scalar_segments(events, end_time)[k],
            ),
{
    let init = ScalarState::Unknown { start: 0 };
    lemma_scalar_fold_alt(init, Seq::empty(), events);
    let folded = scalar_fold(init, Seq::empty(), events);
    let segs = scalar_segments(events, end_time);
    assert forall|k: int| 0 <= k < segs.len() implies toggle_alternates(#[trigger] segs[k]) by {
        if k < folded.1.len() {
            assert(segs[k] == folded.1[k]);
        }
    }
}

spec fn scalar_state_wf(st: ScalarState, now: u64) -> bool {
    match st {
        ScalarState::Unknown { start } => start <= now,
        ScalarState::Binary { points } => {
            &&& points.len() >= 1
            &&& forall|i: int| 0 <= i < points.len() ==> (#[trigger] points[i]).0 <= now
            &&& forall|i: int|
                0 <= i < points.len() - 1 ==> (#[trigger] points[i]).0 <= points[i + 1].0
        },
    }
}

spec fn segs_wf(out: Seq<SegV>, end_time: u64) -> bool {
    forall|i: int| 0 <= i < out.len() ==> seg_wf(#[trigger] out[i], end_time)
}

spec fn last_time<V>(events: Seq<(u64, V)>, now: u64) -> u64 {
    if events.len() > 0 {
        events.last().0
    } else {
        now
    }
}

proof fn lemma_scalar_fold_wf(
    st: ScalarState,
    out: Seq<SegV>,
    events: Seq<(u64, Bit)>,
    now: u64,
    end_time: u64,
)
    requires
        scalar_state_wf(st, now),
        segs_wf(out, end_time),
        times_sorted(events),
        times_bounded(events, end_time),
        now <= end_time,
        events.len() > 0 ==> now <= events[0].0,
    ensures
        scalar_state_wf(scalar_fold(st, out, events).0, last_time(events, now)),
        segs_wf(scalar_fold(st, out, events).1, end_time),
        last_time(events, now) <= end_time,
    decreases events.len(),
{
    if events.len() > 0 {
        let t = events[0].0;
        let b = events[0].1;
        assert(t <= end_time) by {
            assert(events[0].0 <= end_time);
        }
        let stepped = scalar_step(st, out, t, b);
        assert(scalar_state_wf(stepped.0, t));
        assert(segs_wf(stepped.1, end_time)) by {
            match st {
                ScalarState::Unknown { start } => {
                    if bit_driven(b) && t > start {
                        let pushed = out.push(SegV::Undetermined { start, end: t });
                        assert(forall|i: int|
                            0 <= i < out.len() ==> pushed[i] == #[trigger] out[i]);
                        assert(seg_wf(pushed[out.len() as int], end_time));
                    }
                },
                ScalarState::Binary { points } => {
                    if !bit_driven(b) {
                        let pushed = out.push(SegV::Toggle { points, end: t });
                        assert(forall|i: int|
                            0 <= i < out.len() ==> pushed[i] == #[trigger] out[i]);
                        assert(seg_wf(pushed[out.len() as int], end_time));
                    }
                },
            }
        }
        let rest = events.drop_first();
        assert(times_sorted(rest)) by {
            assert(forall|i: int|
                0 <= i < rest.len() - 1 ==> #[trigger] rest[i] == events[i + 1] && rest[i + 1]
                    == events[i + 2]);
        }
        assert(times_bounded(rest, end_time)) by {
            assert(forall|i: int| 0 <= i < rest.len() ==> #[trigger] rest[i] == events[i + 1]);
        }
        assert(rest.len() > 0 ==> t <= rest[0].0) by {
            if rest.len() > 0 {
                assert(events[0].0 <= events[1].0);
                assert(rest[0] == events[1]);
            }
        }
        lemma_scalar_fold_wf(stepped.0, stepped.1, rest, t, end_time);
        if rest.len() > 0 {
            assert(rest.last() == events.last());
        }
    }
}

/// Every segment a scalar compaction produces is well formed against the
/// global right edge, provided the events are in time order and none lies
/// past that edge.
pub proof fn lemma_scalar_segments_wf(events: Seq<(u64, Bit)>, end_time: u64)
    requires
        times_sorted(events),
        times_bounded(events, end_time),
    ensures
        forall|k: int|
            0 <= k < scalar_segments(events, end_time).len() ==> seg_wf(
                #[trigger] scalar_segments(events, end_time)[k],
                end_time,
            ),
{
    let init = ScalarState::Unknown { start: 0 };
    lemma_scalar_fold_wf(init, Seq::empty(), events, 0, end_time);
    let folded = scalar_fold(init, Seq::empty(), events);
    let now = last_time(events, 0);
    let segs = scalar_segments(events, end_time);
    assert forall|k: int| 0 <= k < segs.len() implies seg_wf(#[trigger] segs[k], end_time) by {
        if k < folded.1.len() {
            assert(segs[k] == folded.1[k]);
        } else {
            match folded.0 {
                ScalarState::Unknown { start } => {},
                ScalarState::Binary { points } => {
                    assert(segs[k] == SegV::Toggle { points, end: end_time });
                },
            }
        }
    }
}

spec fn vector_state_wf(st: VectorState, now: u64) -> bool {
    match st {
        VectorState::Unknown { start } => start <= now,
        VectorState::Hold { start, value } => start <= now,
    }
}

proof fn lemma_vector_fold_wf(
    st: VectorState,
    out: Seq<SegV>,
    events: Seq<(u64, Seq<Bit>)>,
    now: u64,
    end_time: u64,
)
    requires
        vector_state_wf(st, now),
        segs_wf(out, end_time),
        times_sorted(events),
        times_bounded(events, end_time),
        now <= end_time,
        events.len() > 0 ==> now <= events[0].0,
    ensures
        vector_state_wf(vector_fold(st, out, events).0, last_time(events, now)),
        segs_wf(vector_fold(st, out, events).1, end_time),
        last_time(events, now) <= end_time,
    decreases events.len(),
{
    if events.len() > 0 {
        let t = events[0].0;
        let v = events[0].1;
        assert(t <= end_time) by {
            assert(events[0].0 <= end_time);
        }
        let stepped = vector_step(st, out, t, v);
        assert(vector_state_wf(stepped.0, t));
        assert(segs_wf(stepped.1, end_time)) by {
            match st {
                VectorState::Unknown { start } => {
                    if all_driven(v) && t > start {
                        let pushed = out.push(SegV::Undetermined { start, end: t });
                        assert(forall|i: int|
                            0 <= i < out.len() ==> pushed[i] == #[trigger] out[i]);
                        assert(seg_wf(pushed[out.len() as int], end_time));
                    }
                },
                VectorState::Hold { start, value } => {
                    if !all_driven(v) || v != value {
                        let pushed = out.push(SegV::VectorBlock { start, end: t, value });
                        assert(forall|i: int|
                            0 <= i < out.len() ==> pushed[i] == #[trigger] out[i]);
                        assert(seg_wf(pushed[out.len() as int], end_time));
                    }
                },
            }
        }
        let rest = events.drop_first();
        assert(times_sorted(rest)) by {
            assert(forall|i: int|
                0 <= i < rest.len() - 1 ==> #[trigger] rest[i] == events[i + 1] && rest[i + 1]
                    == events[i + 2]);
        }
        assert(times_bounded(rest, end_time)) by {
            assert(forall|i: int| 0 <= i < rest.len() ==> #[trigger] rest[i] == events[i + 1]);
        }
        assert(rest.len() > 0 ==> t <= rest[0].0) by {
            if rest.len() > 0 {
                assert(events[0].0 <= events[1].0);
                assert(rest[0] == events[1]);
            }
        }
        lemma_vector_fold_wf(stepped.0, stepped.1, rest, t, end_time);
        if rest.len() > 0 {
            assert(rest.last() == events.last());
        }
    }
}

/// Every segment a bus compaction produces is well formed against the global
/// right edge, provided the events are in time order and none lies past that
/// edge.
pub proof fn lemma_vector_segments_wf(events: Seq<(u64, Seq<Bit>)>, end_time: u64)
    requires
        times_sorted(events),
        times_bounded(events, end_time),
    ensures
        forall|k: int|
            0 <= k < vector_segments(events, end_time).len() ==> seg_wf(
                #[trigger] vector_segments(events, end_time)[k],
                end_time,
            ),
{
    let init = VectorState::Unknown { start: 0 };
    lemma_vector_fold_wf(init, Seq::empty(), events, 0, end_time);
    let folded = vector_fold(init, Seq::empty(), events);
    let segs = vector_segments(events, end_time);
    assert forall|k: int| 0 <= k < segs.len() implies seg_wf(#[trigger] segs[k], end_time) by {
        if k < folded.1.len() {
            assert(segs[k] == folded.1[k]);
        } else {
            match folded.0 {
                VectorState::Unknown { start } => {},
                VectorState::Hold { start, value } => {
                    assert(segs[k] == SegV::VectorBlock { start, end: end_time, value });
                },
            }
        }
    }
}

/// Vector coalescing never splits a block on an unchanged value: from a held
/// fully driven `value`, a run of events repeating that same value leaves the
/// machine and its output untouched, and the first differing event then
/// closes exactly one block spanning from the hold's `start` to that event's
/// time.
pub proof fn lemma_vector_block_coalesces(
    start: u64,
    value: Seq<Bit>,
    out: Seq<SegV>,
    run: Seq<(u64, Seq<Bit>)>,
    t: u64,
    next: Seq<Bit>,
)
    requires
        all_driven(value),
        forall|i: int| 0 <= i < run.len() ==> (#[trigger] run[i]).1 == value,
        next != value,
    ensures
        vector_fold(VectorState::Hold { start, value }, out, run) == (
            VectorState::Hold { start, value },
            out,
        ),
        vector_fold(VectorState::Hold { start, value }, out, run.push((t, next))).1 == out.push(
            SegV::VectorBlock { start, end: t, value },
        ),
    decreases run.len(),
{
    let st = VectorState::Hold { start, value };
    if run.len() == 0 {
        assert(vector_fold(st, out, run) == (st, out));
    } else {
        assert(run[0].1 == value);
        let stepped = vector_step(st, out, run[0].0, run[0].1);
        assert(stepped == (st, out));
        let rest = run.drop_first();
        assert(forall|i: int| 0 <= i < rest.len() ==> #[trigger] rest[i] == run[i + 1]);
        lemma_vector_block_coalesces(start, value, out, rest, t, next);
    }
    lemma_vector_fold_snoc(st, out, run, (t, next));
}

} // verus!

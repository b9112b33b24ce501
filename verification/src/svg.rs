//! The primitive emitter: renders each segment list into a textual
//! vector-graphics fragment, one per signal plus one per decomposed bit of a
//! bus signal.  An undetermined span becomes a highlighted rectangle, a
//! toggle run a single polyline through its retained corners, and a vector
//! block a rectangle with a centered numeric label.

use vstd::prelude::*;
use vstd::string::StringExecFns;
use crate::compact::{
    compact_scalar, compact_vector, lemma_scalar_segments_wf, lemma_vector_segments_wf,
    scalar_segments, times_bounded, times_sorted, vec_events_view, vector_segments,
};
use crate::numfmt::{dec_rep, label_spec, push_dec, vector_label};
use crate::segment::{SegV, Segment, seg_wf, segs_view};
use crate::store::{SpecWave, Waveform, event_ok, events_model, wave_ok};
use crate::value::{Bit, SpecValue, Value, copy_bits, is_normal, norm_spec, spec_width};

verus! {

/// The rendered drawable of one signal: the full-trace fragment and, for a
/// bus, one fragment per decomposed bit.
#[derive(Debug, PartialEq, Eq)]
pub struct Svg {
    pub wave: String,
    pub bits: Vec<String>,
}

/// Mathematical model of an [`Svg`].
#[verifier::ext_equal]
pub struct SpecSvg {
    pub wave: Seq<char>,
    pub bits: Seq<Seq<char>>,
}

impl View for Svg {
    type V = SpecSvg;

    open spec fn view(&self) -> SpecSvg {
        SpecSvg { wave: self.wave@, bits: self.bits@.map_values(|s: String| s@) }
    }
}

/// The drawn height of a level: a high level sits at the top of the lane.
pub open spec fn level_y(b: bool) -> u64 {
    if b {
        0
    } else {
        10
    }
}

/// The highlighted rectangle of an undetermined span.
pub open spec fn undet_svg(start: u64, end: u64) -> Seq<char> {
    "<rect class=\"x\" rx=\"1\" ry=\"1\" x=\""@ + dec_rep(start as nat)
        + "\" y=\"0\" width=\""@ + dec_rep((end - start) as nat) + "\" height=\"10\"/>"@
}

/// The rectangle and centered label of a vector block.
pub open spec fn block_svg(start: u64, end: u64, value: Seq<Bit>) -> Seq<char> {
    "<rect class=\"vec\" rx=\"1\" ry=\"1\" x=\""@ + dec_rep(start as nat)
        + "\" y=\"0\" width=\""@ + dec_rep((end - start) as nat)
        + "\" height=\"10\"/>\n<g transform=\"translate("@ + dec_rep(
        ((start + end) / 2) as nat,
    ) + " 7)\"><text>"@ + label_spec(value) + "</text></g>"@
}

/// The polyline corners the retained points before index `i` contribute,
/// after the first: each level change drops or raises the line at its time.
pub open spec fn toggle_mid(points: Seq<(u64, bool)>, i: int) -> Seq<char>
    decreases i,
{
    if i <= 1 || i > points.len() {
        Seq::empty()
    } else {
        toggle_mid(points, i - 1) + dec_rep(points[i - 1].0 as nat) + " "@ + dec_rep(
            level_y(points[i - 2].1) as nat,
        ) + ","@ + dec_rep(points[i - 1].0 as nat) + " "@ + dec_rep(
            level_y(points[i - 1].1) as nat,
        ) + ","@
    }
}

/// The single polyline of a toggle run, drawn at the last level up to `end`.
pub open spec fn toggle_svg(points: Seq<(u64, bool)>, end: u64) -> Seq<char> {
    "<polyline points=\""@ + dec_rep(points[0].0 as nat) + " "@ + dec_rep(
        level_y(points[0].1) as nat,
    ) + ","@ + toggle_mid(points, points.len() as int) + dec_rep(end as nat) + " "@ + dec_rep(
        level_y(points.last().1) as nat,
    ) + "\"/>"@
}

/// The fragment of one segment.
pub open spec fn seg_svg(s: SegV) -> Seq<char> {
    match s {
        SegV::Undetermined { start, end } => undet_svg(start, end),
        SegV::Toggle { points, end } => toggle_svg(points, end),
        SegV::VectorBlock { start, end, value } => block_svg(start, end, value),
    }
}

/// The concatenated fragments of the first `i` segments.
pub open spec fn segs_svg(segs: Seq<SegV>, i: int) -> Seq<char>
    decreases i,
{
    if i <= 0 || i > segs.len() {
        Seq::empty()
    } else {
        segs_svg(segs, i - 1) + seg_svg(segs[i - 1])
    }
}

/// The concatenated fragments of a whole segment list.
pub open spec fn body_svg(segs: Seq<SegV>) -> Seq<char> {
    segs_svg(segs, segs.len() as int)
}

fn level_of(b: bool) -> (r: u64)
    ensures
        r == level_y(b),
{
    if b {
        0
    } else {
        10
    }
}

/// Appends the rectangle of an undetermined span.
fn push_undet(s: &mut String, start: u64, end: u64)
    requires
        start <= end,
    ensures
        final(s)@ == old(s)@ + undet_svg(start, end),
{
    s.append("<rect class=\"x\" rx=\"1\" ry=\"1\" x=\"");
    push_dec(s, start);
    s.append("\" y=\"0\" width=\"");
    push_dec(s, end - start);
    s.append("\" height=\"10\"/>");
    proof {
        assert(s@ =~= old(s)@ + undet_svg(start, end));
    }
}

/// Appends the rectangle and label of a vector block.
fn push_block(s: &mut String, start: u64, end: u64, value: &Vec<Bit>)
    requires
        start <= end,
        end <= u64::MAX / 2,
    ensures
        final(s)@ == old(s)@ + block_svg(start, end, value@),
{
    s.append("<rect class=\"vec\" rx=\"1\" ry=\"1\" x=\"");
    push_dec(s, start);
    s.append("\" y=\"0\" width=\"");
    push_dec(s, end - start);
    s.append("\" height=\"10\"/>\n<g transform=\"translate(");
    push_dec(s, (start + end) / 2);
    s.append(" 7)\"><text>");
    let label = vector_label(value);
    s.append(label.as_str());
    s.append("</text></g>");
    proof {
        assert(s@ =~= old(s)@ + block_svg(start, end, value@));
    }
}

/// Appends the polyline of a toggle run.
#[verifier::rlimit(60)]
fn push_toggle(s: &mut String, points: &Vec<(u64, bool)>, end: u64)
    requires
        points@.len() >= 1,
    ensures
        final(s)@ == old(s)@ + toggle_svg(points@, end),
{
    let ghost base = old(s)@;
    s.append("<polyline points=\"");
    let first = points[0];
    push_dec(s, first.0);
    s.append(" ");
    push_dec(s, level_of(first.1));
    s.append(",");
    let ghost head = base + "<polyline points=\""@ + dec_rep(points@[0].0 as nat) + " "@
        + dec_rep(level_y(points@[0].1) as nat) + ","@;
    proof {
        assert(s@ =~= head + toggle_mid(points@, 1));
    }
    let mut i: usize = 1;
    while i < points.len()
        invariant
            1 <= i <= points@.len(),
            s@ == head + toggle_mid(points@, i as int),
        decreases points@.len() - i,
    {
        let p = points[i];
        let prev = points[i - 1];
        push_dec(s, p.0);
        s.append(" ");
        push_dec(s, level_of(prev.1));
        s.append(",");
        push_dec(s, p.0);
        s.append(" ");
        push_dec(s, level_of(p.1));
        s.append(",");
        proof {
            assert(s@ =~= head + toggle_mid(points@, i + 1));
        }
        i += 1;
    }
    push_dec(s, end);
    s.append(" ");
    let last = points[points.len() - 1];
    push_dec(s, level_of(last.1));
    s.append("\"/>");
    proof {
        assert(s@ =~= base + toggle_svg(points@, end));
    }
}

/// Appends the fragment of one segment.
fn push_segment(s: &mut String, seg: &Segment, end_time: u64)
    requires
        seg_wf(seg@, end_time),
        end_time <= u64::MAX / 2,
    ensures
        final(s)@ == old(s)@ + seg_svg(seg@),
{
    match seg {
        Segment::Undetermined { start, end } => push_undet(s, *start, *end),
        Segment::Toggle { points, end } => push_toggle(s, points, *end),
        Segment::VectorBlock { start, end, value } => push_block(s, *start, *end, value),
    }
}

/// The single bit of a scalar value; scalar events of a width-1 wave.
pub open spec fn scalar_bit(v: SpecValue) -> Bit {
    match v {
        SpecValue::Scalar(b) => b,
        SpecValue::Vector(s) => Bit::X,
    }
}

/// The bits of a vector value.
pub open spec fn vector_bits(v: SpecValue) -> Seq<Bit> {
    match v {
        SpecValue::Vector(s) => s,
        SpecValue::Scalar(b) => Seq::empty(),
    }
}

/// The bit at index `b`, read as unknown outside the vector.
pub open spec fn bit_at(s: Seq<Bit>, b: int) -> Bit {
    if 0 <= b < s.len() {
        s[b]
    } else {
        Bit::X
    }
}

/// A width-1 wave's events, each value its single bit.
pub open spec fn scalar_evts(events: Seq<(u64, SpecValue)>) -> Seq<(u64, Bit)> {
    events.map_values(|e: (u64, SpecValue)| (e.0, scalar_bit(e.1)))
}

/// A bus wave's events, each value its bit vector.
pub open spec fn vector_evts(events: Seq<(u64, SpecValue)>) -> Seq<(u64, Seq<Bit>)> {
    events.map_values(|e: (u64, SpecValue)| (e.0, vector_bits(e.1)))
}

/// A bus wave's events projected down to the bit at index `b`.
pub open spec fn bit_evts(events: Seq<(u64, SpecValue)>, b: int) -> Seq<(u64, Bit)> {
    events.map_values(|e: (u64, SpecValue)| (e.0, bit_at(vector_bits(e.1), b)))
}

/// The full-trace segment list of a wave: the scalar machine for a single
/// bit, the vector machine for a bus.
pub open spec fn main_segments(w: SpecWave, end_time: u64) -> Seq<SegV> {
    if w.signal.width == 1 {
        scalar_segments(scalar_evts(w.events), end_time)
    } else {
        vector_segments(vector_evts(w.events), end_time)
    }
}

/// The full-trace fragment of a wave.
pub open spec fn wave_svg(w: SpecWave, end_time: u64) -> Seq<char> {
    "<svg class=\"wave\" data-id=\""@ + dec_rep(w.signal.id as nat) + "\" data-size=\""@
        + dec_rep(w.signal.width as nat) + "\" width=\""@ + dec_rep(end_time as nat)
        + "\"><g transform=\"scale(10 2)\">"@ + body_svg(main_segments(w, end_time))
        + "</g></svg>"@
}

/// The segment list of one decomposed bit of a bus wave: the identical
/// scalar machine run on the projected events.
pub open spec fn bit_segments(w: SpecWave, b: int, end_time: u64) -> Seq<SegV> {
    scalar_segments(bit_evts(w.events, b), end_time)
}

/// The fragment of one decomposed bit of a bus wave.
pub open spec fn bit_svg(w: SpecWave, b: int, end_time: u64) -> Seq<char> {
    "<svg class=\"wave\" data-id=\""@ + dec_rep(w.signal.id as nat) + " "@ + dec_rep(b as nat)
        + "\" data-size=\"1\" width=\""@ + dec_rep(end_time as nat)
        + "\"><g transform=\"scale(10 2)\">"@ + body_svg(bit_segments(w, b, end_time))
        + "</g></svg>"@
}

/// The whole drawable of a wave: the full trace and, for a bus, one
/// decomposed trace per bit index.
pub open spec fn svg_spec(w: SpecWave, end_time: u64) -> SpecSvg {
    SpecSvg {
        wave: wave_svg(w, end_time),
        bits: if w.signal.width == 1 {
            Seq::empty()
        } else {
            Seq::new(w.signal.width as nat, |b: int| bit_svg(w, b, end_time))
        },
    }
}

/// What rendering leaves of a wave: untouched when it never changed, else
/// with its drawable filled in.
pub open spec fn rendered_wave(w: SpecWave, end_time: u64) -> SpecWave {
    if w.events.len() == 0 {
        w
    } else {
        SpecWave { signal: w.signal, events: w.events, svg: Option::Some(svg_spec(w, end_time)) }
    }
}

/// A wave the emitter accepts: time-ordered, validated, normalized events,
/// none beyond the global right edge, which itself leaves room for the
/// label-centering arithmetic.
pub open spec fn wave_renderable(w: SpecWave, end_time: u64) -> bool {
    &&& times_sorted(w.events)
    &&& times_bounded(w.events, end_time)
    &&& end_time <= u64::MAX / 2
    &&& wave_ok(w)
    &&& forall|j: int| 0 <= j < w.events.len() ==> is_normal((#[trigger] w.events[j]).1)
}

fn scalar_events_of(events: &Vec<(u64, Value)>) -> (r: Vec<(u64, Bit)>)
    requires
        forall|j: int| 0 <= j < events@.len() ==> (#[trigger] events@[j]).1@ is Scalar,
    ensures
        r@ == scalar_evts(events_model(events@)),
{
    let mut r: Vec<(u64, Bit)> = Vec::new();
    let mut j: usize = 0;
    while j < events.len()
        invariant
            j <= events@.len(),
            forall|i: int| 0 <= i < events@.len() ==> (#[trigger] events@[i]).1@ is Scalar,
            r@.len() == j,
            forall|i: int|
                0 <= i < j ==> #[trigger] r@[i] == (events@[i].0, scalar_bit(events@[i].1@)),
        decreases events@.len() - j,
    {
        let e = &events[j];
        let b: Bit = match &e.1 {
            Value::Scalar(bb) => *bb,
            Value::Vector(_) => {
                proof {
                    assert(false);
                }
                Bit::X
            },
        };
        r.push((e.0, b));
        j += 1;
    }
    proof {
        assert(r@ =~= scalar_evts(events_model(events@)));
    }
    r
}

fn vector_events_of(events: &Vec<(u64, Value)>) -> (r: Vec<(u64, Vec<Bit>)>)
    requires
        forall|j: int| 0 <= j < events@.len() ==> (#[trigger] events@[j]).1@ is Vector,
    ensures
        vec_events_view(r@) == vector_evts(events_model(events@)),
{
    let mut r: Vec<(u64, Vec<Bit>)> = Vec::new();
    let mut j: usize = 0;
    while j < events.len()
        invariant
            j <= events@.len(),
            forall|i: int| 0 <= i < events@.len() ==> (#[trigger] events@[i]).1@ is Vector,
            r@.len() == j,
            forall|i: int|
                0 <= i < j ==> (#[trigger] r@[i]).0 == events@[i].0 && r@[i].1@ == vector_bits(
                    events@[i].1@,
                ),
        decreases events@.len() - j,
    {
        let e = &events[j];
        let bits: Vec<Bit> = match &e.1 {
            Value::Vector(bs) => copy_bits(bs),
            Value::Scalar(_) => {
                proof {
                    assert(false);
                }
                Vec::new()
            },
        };
        r.push((e.0, bits));
        j += 1;
    }
    proof {
        assert(vec_events_view(r@) =~= vector_evts(events_model(events@)));
    }
    r
}

fn bit_events_of(events: &Vec<(u64, Value)>, b: usize) -> (r: Vec<(u64, Bit)>)
    requires
        forall|j: int| 0 <= j < events@.len() ==> (#[trigger] events@[j]).1@ is Vector,
    ensures
        r@ == bit_evts(events_model(events@), b as int),
{
    let mut r: Vec<(u64, Bit)> = Vec::new();
    let mut j: usize = 0;
    while j < events.len()
        invariant
            j <= events@.len(),
            forall|i: int| 0 <= i < events@.len() ==> (#[trigger] events@[i]).1@ is Vector,
            r@.len() == j,
            forall|i: int|
                0 <= i < j ==> #[trigger] r@[i] == (
                    events@[i].0,
                    bit_at(vector_bits(events@[i].1@), b as int),
                ),
        decreases events@.len() - j,
    {
        let e = &events[j];
        let bit: Bit = match &e.1 {
            Value::Vector(bs) => {
                if b < bs.len() {
                    bs[b]
                } else {
                    Bit::X
                }
            },
            Value::Scalar(_) => {
                proof {
                    assert(false);
                }
                Bit::X
            },
        };
        r.push((e.0, bit));
        j += 1;
    }
    proof {
        assert(r@ =~= bit_evts(events_model(events@), b as int));
    }
    r
}

fn push_body(s: &mut String, segs: &Vec<Segment>, end_time: u64)
    requires
        end_time <= u64::MAX / 2,
        forall|k: int| 0 <= k < segs@.len() ==> seg_wf((#[trigger] segs@[k])@, end_time),
    ensures
        final(s)@ == old(s)@ + body_svg(segs_view(segs@)),
{
    let ghost sv = segs_view(segs@);
    let mut k: usize = 0;
    while k < segs.len()
        invariant
            k <= segs@.len(),
            sv == segs_view(segs@),
            sv.len() == segs@.len(),
            end_time <= u64::MAX / 2,
            forall|i: int| 0 <= i < segs@.len() ==> seg_wf((#[trigger] segs@[i])@, end_time),
            s@ == old(s)@ + segs_svg(sv, k as int),
        decreases segs@.len() - k,
    {
        proof {
            assert(sv[k as int] == segs@[k as int]@);
        }
        push_segment(s, &segs[k], end_time);
        k += 1;
    }
    proof {
        assert(body_svg(sv) == segs_svg(sv, sv.len() as int));
    }
}

/// Renders one wave: a signal that never changed keeps no drawable; any
/// other has its events compacted into segments, the segments drawn into the
/// full-trace fragment, and, for a bus, one decomposed single-bit trace
/// drawn per bit index.
#[verifier::loop_isolation(false)]
#[verifier::rlimit(100)]
pub fn render_svg(wave: &mut Waveform, end_time: u64)
    requires
        wave_renderable(old(wave)@, end_time),
    ensures
        final(wave)@ == rendered_wave(old(wave)@, end_time),
{
    if wave.events.len() == 0 {
        return;
    }
    let ghost w = wave@;
    proof {
        if w.signal.width == 1 {
            assert forall|j: int| 0 <= j < wave.events@.len() implies (
            #[trigger] wave.events@[j]).1@ is Scalar by {
                assert(event_ok(w, j));
                assert(w.events[j] == (wave.events@[j].0, wave.events@[j].1@));
                let v = w.events[j].1;
                assert(spec_width(v) == w.signal.width as nat);
                assert(is_normal(v));
                if v is Vector {
                    assert(norm_spec(v) is Scalar);
                    assert(false);
                }
            }
        } else {
            assert forall|j: int| 0 <= j < wave.events@.len() implies (
            #[trigger] wave.events@[j]).1@ is Vector by {
                assert(event_ok(w, j));
                assert(w.events[j] == (wave.events@[j].0, wave.events@[j].1@));
                let v = w.events[j].1;
                assert(spec_width(v) == w.signal.width as nat);
                if v is Scalar {
                    assert(spec_width(v) == 1);
                    assert(false);
                }
            }
        }
    }
    let segs: Vec<Segment> = if wave.signal.width == 1 {
        let evs = scalar_events_of(&wave.events);
        proof {
            assert forall|i: int| 0 <= i < evs@.len() - 1 implies (#[trigger] evs@[i]).0
                <= evs@[i + 1].0 by {
                assert(w.events[i].0 <= w.events[i + 1].0);
            }
            assert forall|i: int| 0 <= i < evs@.len() implies (#[trigger] evs@[i]).0
                <= end_time by {
                assert(w.events[i].0 <= end_time);
            }
            lemma_scalar_segments_wf(scalar_evts(w.events), end_time);
        }
        compact_scalar(&evs, end_time)
    } else {
        let evs = vector_events_of(&wave.events);
        proof {
            let vv = vector_evts(w.events);
            assert forall|i: int| 0 <= i < vv.len() - 1 implies (#[trigger] vv[i]).0 <= vv[i
                + 1].0 by {
                assert(w.events[i].0 <= w.events[i + 1].0);
            }
            assert forall|i: int| 0 <= i < vv.len() implies (#[trigger] vv[i]).0
                <= end_time by {
                assert(w.events[i].0 <= end_time);
            }
            lemma_vector_segments_wf(vector_evts(w.events), end_time);
        }
        compact_vector(&evs, end_time)
    };
    proof {
        assert(segs_view(segs@) == main_segments(w, end_time));
        assert forall|k: int| 0 <= k < segs@.len() implies seg_wf(
            (#[trigger] segs@[k])@,
            end_time,
        ) by {
            assert(segs@[k]@ == segs_view(segs@)[k]);
        }
    }
    let mut s: String = <String as StringExecFns>::from_str("<svg class=\"wave\" data-id=\"");
    push_dec(&mut s, wave.signal.id);
    s.append("\" data-size=\"");
    push_dec(&mut s, wave.signal.width as u64);
    s.append("\" width=\"");
    push_dec(&mut s, end_time);
    s.append("\"><g transform=\"scale(10 2)\">");
    push_body(&mut s, &segs, end_time);
    s.append("</g></svg>");
    proof {
        assert(s@ =~= wave_svg(w, end_time));
    }
    let mut bit_frags: Vec<String> = Vec::new();
    if wave.signal.width != 1 {
        let width = wave.signal.width;
        let mut b: u32 = 0;
        while b < width
            invariant
                b <= width,
                bit_frags@.len() == b as int,
                forall|i: int|
                    0 <= i < b as int ==> (#[trigger] bit_frags@[i])@ == bit_svg(
                        w,
                        i,
                        end_time,
                    ),
            decreases width - b,
        {
            let evs = bit_events_of(&wave.events, b as usize);
            let ghost bv = bit_evts(w.events, b as int);
            proof {
                assert forall|i: int| 0 <= i < bv.len() - 1 implies (#[trigger] bv[i]).0
                    <= bv[i + 1].0 by {
                    assert(w.events[i].0 <= w.events[i + 1].0);
                }
                assert forall|i: int| 0 <= i < bv.len() implies (#[trigger] bv[i]).0
                    <= end_time by {
                    assert(w.events[i].0 <= end_time);
                }
                lemma_scalar_segments_wf(bv, end_time);
            }
            let bsegs = compact_scalar(&evs, end_time);
            proof {
                assert(segs_view(bsegs@) == bit_segments(w, b as int, end_time));
                assert forall|k: int| 0 <= k < bsegs@.len() implies seg_wf(
                    (#[trigger] bsegs@[k])@,
                    end_time,
                ) by {
                    assert(bsegs@[k]@ == segs_view(bsegs@)[k]);
                }
            }
            let mut t: String = <String as StringExecFns>::from_str(
                "<svg class=\"wave\" data-id=\"",
            );
            push_dec(&mut t, wave.signal.id);
            t.append(" ");
            push_dec(&mut t, b as u64);
            t.append("\" data-size=\"1\" width=\"");
            push_dec(&mut t, end_time);
            t.append("\"><g transform=\"scale(10 2)\">");
            push_body(&mut t, &bsegs, end_time);
            t.append("</g></svg>");
            proof {
                assert(t@ =~= bit_svg(w, b as int, end_time));
            }
            bit_frags.push(t);
            b += 1;
        }
    }
    proof {
        assert(bit_frags@.map_values(|x: String| x@) =~= svg_spec(w, end_time).bits);
    }
    wave.svg = Option::Some(Svg { wave: s, bits: bit_frags });
    proof {
        assert(wave@ =~~= rendered_wave(w, end_time));
    }
}

/// Renders every wave of the store against the one global `end_time`, so
/// that every emitted drawable spans the same right edge.
pub fn render_all(store: &mut crate::store::Store, end_time: u64)
    requires
        forall|k: int|
            0 <= k < old(store)@.len() ==> wave_renderable(#[trigger] old(store)@[k], end_time),
    ensures
        final(store)@.len() == old(store)@.len(),
        forall|k: int|
            0 <= k < old(store)@.len() ==> #[trigger] final(store)@[k] == rendered_wave(
                old(store)@[k],
                end_time,
            ),
{
    let ghost orig = store@;
    let mut k: usize = 0;
    while k < store.waves.len()
        invariant
            k <= store.waves@.len(),
            store.waves@.len() == orig.len(),
            store@.len() == orig.len(),
            forall|k2: int|
                0 <= k2 < orig.len() ==> wave_renderable(#[trigger] orig[k2], end_time),
            forall|k2: int|
                0 <= k2 < k ==> #[trigger] store@[k2] == rendered_wave(orig[k2], end_time),
            forall|k2: int| k <= k2 < orig.len() ==> #[trigger] store@[k2] == orig[k2],
        decreases store.waves@.len() - k,
    {
        let ghost entry = store@;
        proof {
            assert(entry[k as int] == orig[k as int]);
        }
        render_svg(&mut store.waves[k], end_time);
        proof {
            assert(store@ =~= entry.update(k as int, rendered_wave(orig[k as int], end_time)));
        }
        k += 1;
    }
}

} // verus!

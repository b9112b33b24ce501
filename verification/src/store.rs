//! The waveform store: an ordered-by-signal-identifier mapping from each
//! declared signal to its chronological list of change events, built once
//! from the signal declaration tree and filled by replaying the trace.

use vstd::prelude::*;
use vstd::pervasive::VecAdditionalExecFns;
use crate::svg::Svg;
use crate::value::{Bit, SpecValue, Value, norm_spec, size, spec_width};

verus! {

/// A declared signal: a unique stable identifier, a display name, and the
/// declared bit width.
#[derive(Debug, PartialEq, Eq)]
pub struct Signal {
    pub id: u64,
    pub name: String,
    pub width: u32,
}

/// Mathematical model of a [`Signal`].
#[verifier::ext_equal]
pub struct SpecSignal {
    pub id: u64,
    pub name: Seq<char>,
    pub width: u32,
}

impl View for Signal {
    type V = SpecSignal;

    open spec fn view(&self) -> SpecSignal {
        SpecSignal { id: self.id, name: self.name@, width: self.width }
    }
}

impl Clone for Signal {
    fn clone(&self) -> (r: Self)
        ensures
            r@ == self@,
    {
        Signal { id: self.id, name: self.name.as_str().to_owned(), width: self.width }
    }
}

/// A node of the signal declaration tree: a signal, or a named scope holding
/// further nodes.
#[derive(Debug, PartialEq, Eq)]
pub enum ScopeItem {
    Signal(Signal),
    Scope(Scope),
}

/// A named hierarchical scope of the declaration tree.
#[derive(Debug, PartialEq, Eq)]
pub struct Scope {
    pub name: String,
    pub children: Vec<ScopeItem>,
}

/// The signals declared under `items[i..]`, in depth-first declaration order.
pub open spec fn items_signals_from(items: Seq<ScopeItem>, i: int) -> Seq<SpecSignal>
    decreases items, items.len() - i,
{
    if i < 0 || i >= items.len() {
        Seq::empty()
    } else {
        (match items[i] {
            ScopeItem::Signal(s) => seq![s@],
            ScopeItem::Scope(sc) => items_signals_from(sc.children@, 0),
        }) + items_signals_from(items, i + 1)
    }
}

/// The signals declared in the tree, in depth-first declaration order.
pub open spec fn items_signals(items: Seq<ScopeItem>) -> Seq<SpecSignal> {
    items_signals_from(items, 0)
}

/// The models of a list of signals.
pub open spec fn sigs_view(s: Seq<Signal>) -> Seq<SpecSignal> {
    s.map_values(|x: Signal| x@)
}

/// One signal's full ordered list of change events and, after rendering, its
/// optional drawable output.
#[derive(Debug, PartialEq, Eq)]
pub struct Waveform {
    pub signal: Signal,
    pub events: Vec<(u64, Value)>,
    pub svg: Option<Svg>,
}

/// The model of an event list: each value as its mathematical model.
pub open spec fn events_model(events: Seq<(u64, Value)>) -> Seq<(u64, SpecValue)> {
    events.map_values(|e: (u64, Value)| (e.0, e.1@))
}

/// Mathematical model of a [`Waveform`].
#[verifier::ext_equal]
pub struct SpecWave {
    pub signal: SpecSignal,
    pub events: Seq<(u64, SpecValue)>,
    pub svg: Option<crate::svg::SpecSvg>,
}

impl View for Waveform {
    type V = SpecWave;

    open spec fn view(&self) -> SpecWave {
        SpecWave {
            signal: self.signal@,
            events: events_model(self.events@),
            svg: match self.svg {
                Option::None => Option::None,
                Option::Some(s) => Option::Some(s@),
            },
        }
    }
}

/// The waveform store, ordered by strictly increasing signal identifier.
#[derive(Debug, PartialEq, Eq)]
pub struct Store {
    pub waves: Vec<Waveform>,
}

impl View for Store {
    type V = Seq<SpecWave>;

    open spec fn view(&self) -> Seq<SpecWave> {
        self.waves@.map_values(|w: Waveform| w@)
    }
}

/// Signal identifiers strictly increase along the store.
pub open spec fn ids_sorted(waves: Seq<SpecWave>) -> bool {
    forall|i: int, j: int|
        0 <= i < j < waves.len() ==> (#[trigger] waves[i]).signal.id < (#[trigger] waves[j]).signal.id
}

/// Some wave of the store carries the identifier.
pub open spec fn has_id(waves: Seq<SpecWave>, id: u64) -> bool {
    exists|k: int| 0 <= k < waves.len() && (#[trigger] waves[k]).signal.id == id
}

/// `sig` is declared in `decls` and no later declaration reuses its
/// identifier (a reused identifier is owned by its last declaration, as a
/// keyed insert of each declaration in order would leave it).
pub open spec fn is_last_declaration(sig: SpecSignal, decls: Seq<SpecSignal>) -> bool {
    exists|d: int|
        0 <= d < decls.len() && decls[d] == sig && (forall|d2: int|
            d < d2 < decls.len() ==> (#[trigger] decls[d2]).id != sig.id)
}

/// The models of a list of waveforms.
pub open spec fn waves_view(ws: Seq<Waveform>) -> Seq<SpecWave> {
    ws.map_values(|w: Waveform| w@)
}

/// Collects every signal declared under `items[i..]`, in depth-first order.
fn collect_signals_from(items: &Vec<ScopeItem>, i: usize, out: &mut Vec<Signal>)
    requires
        i <= items@.len(),
    ensures
        sigs_view(final(out)@) == sigs_view(old(out)@) + items_signals_from(items@, i as int),
    decreases items@, items@.len() - i,
{
    if i < items.len() {
        let ghost before = sigs_view(out@);
        match &items[i] {
            ScopeItem::Signal(s) => {
                out.push(s.clone());
                proof {
                    assert(sigs_view(out@) =~= before + seq![s@]);
                }
            },
            ScopeItem::Scope(sc) => {
                collect_signals_from(&sc.children, 0, out);
            },
        }
        collect_signals_from(items, i + 1, out);
        proof {
            assert(sigs_view(out@) =~= sigs_view(old(out)@) + items_signals_from(
                items@,
                i as int,
            ));
        }
    } else {
        proof {
            assert(sigs_view(out@) =~= sigs_view(old(out)@) + items_signals_from(
                items@,
                i as int,
            ));
        }
    }
}

impl Store {
    /// Builds the store from the declaration tree: one wave per declared
    /// identifier, ordered by strictly increasing identifier, each with an
    /// empty event list and nothing rendered.  A reused identifier keeps its
    /// last declaration.
    pub fn build(items: &Vec<ScopeItem>) -> (store: Store)
        ensures
            ids_sorted(store@),
            forall|d: int|
                0 <= d < items_signals(items@).len() ==> has_id(
                    store@,
                    (#[trigger] items_signals(items@)[d]).id,
                ),
            forall|k: int|
                0 <= k < store@.len() ==> is_last_declaration(
                    (#[trigger] store@[k]).signal,
                    items_signals(items@),
                ) && store@[k].events.len() == 0 && store@[k].svg is None,
    {
        let mut sigs: Vec<Signal> = Vec::new();
        collect_signals_from(items, 0, &mut sigs);
        let ghost decls = items_signals(items@);
        let mut waves: Vec<Waveform> = Vec::new();
        let mut i: usize = 0;
        while i < sigs.len()
            invariant
                i <= sigs@.len(),
                sigs_view(sigs@) == decls,
                ids_sorted(waves_view(waves@)),
                forall|d: int|
                    0 <= d < i ==> has_id(waves_view(waves@), (#[trigger] decls[d]).id),
                forall|k: int|
                    0 <= k < waves@.len() ==> is_last_declaration(
                        (#[trigger] waves_view(waves@)[k]).signal,
                        decls.take(i as int),
                    ) && waves_view(waves@)[k].events.len() == 0 && waves_view(waves@)[k].svg
                        is None,
            decreases sigs@.len() - i,
        {
            let sig = sigs[i].clone();
            proof {
                assert(sig@ == decls[i as int]);
            }
            let ghost wv = waves_view(waves@);
            let mut j: usize = 0;
            while j < waves.len() && waves[j].signal.id < sig.id
                invariant
                    j <= waves@.len(),
                    wv == waves_view(waves@),
                    sig@ == decls[i as int],
                    forall|k: int| 0 <= k < j ==> (#[trigger] wv[k]).signal.id < sig@.id,
                decreases waves@.len() - j,
            {
                j += 1;
            }
            let sid = sig.id;
            let fresh = Waveform { signal: sig, events: Vec::new(), svg: Option::None };
            let ghost neww = fresh@;
            proof {
                assert(neww.signal == decls[i as int]);
                assert(neww.events =~= Seq::<(u64, SpecValue)>::empty());
                assert(is_last_declaration(neww.signal, decls.take(i + 1))) by {
                    assert(decls.take(i + 1)[i as int] == decls[i as int]);
                }
            }
            if j < waves.len() && waves[j].signal.id == sid {
                waves.set(j, fresh);
                proof {
                    let nv = waves_view(waves@);
                    assert(nv =~= wv.update(j as int, neww));
                    assert(forall|k: int|
                        0 <= k < nv.len() ==> (#[trigger] nv[k]).signal.id
                            == wv[k].signal.id);
                    assert forall|k: int| 0 <= k < nv.len() implies is_last_declaration(
                        (#[trigger] nv[k]).signal,
                        decls.take(i + 1),
                    ) && nv[k].events.len() == 0 && nv[k].svg is None by {
                        if k != j {
                            assert(nv[k] == wv[k]);
                            assert(wv[k].signal.id != wv[j as int].signal.id);
                            lemma_last_declaration_extend(
                                wv[k].signal,
                                decls,
                                i as int,
                            );
                        }
                    }
                    assert forall|d: int| 0 <= d < i + 1 implies has_id(
                        nv,
                        (#[trigger] decls[d]).id,
                    ) by {
                        if d < i {
                            let k = choose|k: int|
                                0 <= k < wv.len() && (#[trigger] wv[k]).signal.id == decls[d].id;
                            assert(nv[k].signal.id == decls[d].id);
                        } else {
                            assert(nv[j as int].signal.id == decls[i as int].id);
                        }
                    }
                }
            } else {
                proof {
                    assert(j == waves@.len() || wv[j as int].signal.id > sig@.id);
                }
                waves.insert(j, fresh);
                proof {
                    let nv = waves_view(waves@);
                    assert(nv =~= wv.insert(j as int, neww));
                    assert(forall|k: int| 0 <= k < j ==> #[trigger] nv[k] == wv[k]);
                    assert(nv[j as int] == neww);
                    assert(forall|k: int|
                        j < k < nv.len() ==> #[trigger] nv[k] == wv[k - 1]);
                    assert(forall|k: int|
                        j <= k < wv.len() ==> (#[trigger] wv[k]).signal.id > sig@.id);
                    assert(ids_sorted(nv)) by {
                        assert forall|a: int, b: int| 0 <= a < b < nv.len() implies (
                        #[trigger] nv[a]).signal.id < (#[trigger] nv[b]).signal.id by {
                            if a < j && b == j {
                            } else if a == j && b > j {
                            } else if a < j && b > j {
                                assert(wv[a].signal.id < sig@.id);
                                assert(wv[b - 1].signal.id > sig@.id);
                            }
                        }
                    }
                    assert forall|k: int| 0 <= k < nv.len() implies is_last_declaration(
                        (#[trigger] nv[k]).signal,
                        decls.take(i + 1),
                    ) && nv[k].events.len() == 0 && nv[k].svg is None by {
                        if k != j {
                            let k0 = if k < j {
                                k
                            } else {
                                k - 1
                            };
                            assert(nv[k] == wv[k0]);
                            assert(wv[k0].signal.id != sig@.id);
                            lemma_last_declaration_extend(wv[k0].signal, decls, i as int);
                        }
                    }
                    assert forall|d: int| 0 <= d < i + 1 implies has_id(
                        nv,
                        (#[trigger] decls[d]).id,
                    ) by {
                        if d < i {
                            let k = choose|k: int|
                                0 <= k < wv.len() && (#[trigger] wv[k]).signal.id == decls[d].id;
                            if k < j {
                                assert(nv[k].signal.id == decls[d].id);
                            } else {
                                assert(nv[k + 1].signal.id == decls[d].id);
                            }
                        } else {
                            assert(nv[j as int].signal.id == decls[i as int].id);
                        }
                    }
                }
            }
            i += 1;
        }
        proof {
            assert(decls.take(sigs@.len() as int) =~= decls);
        }
        Store { waves }
    }
}

/// A fatal trace error; the whole run aborts and nothing is rendered.
#[derive(Debug, PartialEq, Eq)]
pub enum TraceError {
    /// A change event names a signal absent from the declaration tree.
    UnknownSignalReference { id: u64 },
    /// A recorded value's bit width disagrees with its signal's declared
    /// width at some timestamp.
    WidthMismatch { time: u64, signal: String, expected: u32, actual: usize },
}

/// `e` reports a reference to the undeclared identifier `id`.
pub open spec fn is_unknown_signal(e: TraceError, id: u64) -> bool {
    e matches TraceError::UnknownSignalReference { id: i } && i == id
}

/// `e` reports a width mismatch with exactly these diagnostics.
pub open spec fn is_width_mismatch(
    e: TraceError,
    time: u64,
    name: Seq<char>,
    expected: u32,
    actual: nat,
) -> bool {
    e matches TraceError::WidthMismatch { time: t, signal: s, expected: w, actual: a } && t == time
        && s@ == name && w == expected && a == actual
}

/// Appending an event at `time` to the wave owning `id` keeps that wave's
/// events in time order.
pub open spec fn can_accept(waves: Seq<SpecWave>, id: u64, time: u64) -> bool {
    forall|k: int|
        0 <= k < waves.len() && (#[trigger] waves[k]).signal.id == id ==> (waves[k].events.len()
            == 0 || waves[k].events.last().0 <= time)
}

/// The event at index `j` of the wave has the declared width.
pub open spec fn event_ok(w: SpecWave, j: int) -> bool {
    spec_width(w.events[j].1) == w.signal.width as nat
}

/// Every event of the wave has the declared width.
pub open spec fn wave_ok(w: SpecWave) -> bool {
    forall|j: int| 0 <= j < w.events.len() ==> #[trigger] event_ok(w, j)
}

/// Every event of every wave has its signal's declared width.
pub open spec fn store_ok(waves: Seq<SpecWave>) -> bool {
    forall|k: int| 0 <= k < waves.len() ==> wave_ok(#[trigger] waves[k])
}

/// The time of the wave's last event, or 0 for a wave with no events.
pub open spec fn last_event_time(w: SpecWave) -> u64 {
    if w.events.len() == 0 {
        0
    } else {
        w.events.last().0
    }
}

/// The greatest last-event time across the waves, 0 when there are none.
pub open spec fn max_last_time(waves: Seq<SpecWave>) -> u64
    decreases waves.len(),
{
    if waves.len() == 0 {
        0
    } else {
        let m = max_last_time(waves.drop_last());
        let t = last_event_time(waves.last());
        if t > m {
            t
        } else {
            m
        }
    }
}

/// Checks one recorded value against its signal's declared width, after
/// normalization: the per-event check the trace replay applies to every
/// change event before any reaches the compactor.
pub fn validate_event(signal: &Signal, time: u64, value: &Value) -> (r: Result<(), TraceError>)
    ensures
        r is Ok <==> spec_width(norm_spec(value@)) == signal@.width as nat,
        r matches Err(e) ==> is_width_mismatch(
            e,
            time,
            signal@.name,
            signal@.width,
            spec_width(norm_spec(value@)),
        ),
{
    let w: usize = match value {
        Value::Vector(bits) => if bits.len() == 1 {
            1
        } else {
            bits.len()
        },
        Value::Scalar(_) => 1,
    };
    if w != signal.width as usize {
        Result::Err(
            TraceError::WidthMismatch {
                time,
                signal: signal.name.as_str().to_owned(),
                expected: signal.width,
                actual: w,
            },
        )
    } else {
        Result::Ok(())
    }
}

impl Store {
    /// The index of the first wave owning `id`, if any.
    pub fn find_wave(&self, id: u64) -> (r: Option<usize>)
        ensures
            match r {
                Option::Some(k) => 0 <= k < self@.len() && self@[k as int].signal.id == id
                    && (forall|k2: int| 0 <= k2 < k ==> (#[trigger] self@[k2]).signal.id != id),
                Option::None => !has_id(self@, id),
            },
    {
        let mut k: usize = 0;
        while k < self.waves.len()
            invariant
                k <= self@.len(),
                self@.len() == self.waves@.len(),
                forall|k2: int| 0 <= k2 < k ==> (#[trigger] self@[k2]).signal.id != id,
            decreases self@.len() - k,
        {
            if self.waves[k].signal.id == id {
                return Option::Some(k);
            }
            k += 1;
        }
        Option::None
    }

    /// Appends one replayed change event to the wave owning `id`.  An event
    /// naming an undeclared signal is a fatal error and leaves the store
    /// unchanged.
    pub fn append_event(&mut self, id: u64, time: u64, value: Value) -> (r: Result<
        (),
        TraceError,
    >)
        requires
            ids_sorted(old(self)@),
            can_accept(old(self)@, id, time),
        ensures
            ids_sorted(final(self)@),
            r is Ok <==> has_id(old(self)@, id),
            !has_id(old(self)@, id) ==> final(self)@ == old(self)@ && (r matches Err(e)
                && is_unknown_signal(e, id)),
            forall|k: int|
                0 <= k < old(self)@.len() && (#[trigger] old(self)@[k]).signal.id == id
                    ==> final(self)@ == old(self)@.update(
                    k,
                    SpecWave {
                        signal: old(self)@[k].signal,
                        events: old(self)@[k].events.push((time, value@)),
                        svg: old(self)@[k].svg,
                    },
                ),
    {
        match self.find_wave(id) {
            Option::Some(k) => {
                let ghost before = self@;
                self.waves[k].events.push((time, value));
                proof {
                    assert(self@ =~~= before.update(
                        k as int,
                        SpecWave {
                            signal: before[k as int].signal,
                            events: before[k as int].events.push((time, value@)),
                            svg: before[k as int].svg,
                        },
                    ));
                    assert forall|k2: int|
                        0 <= k2 < before.len() && (#[trigger] before[k2]).signal.id
                            == id implies self@ == before.update(
                        k2,
                        SpecWave {
                            signal: before[k2].signal,
                            events: before[k2].events.push((time, value@)),
                            svg: before[k2].svg,
                        },
                    ) by {
                        if k2 != k as int {
                            assert(before[k2].signal.id == before[k as int].signal.id);
                            assert(false);
                        }
                    }
                    assert(ids_sorted(self@)) by {
                        assert(forall|k2: int|
                            0 <= k2 < before.len() ==> (#[trigger] self@[k2]).signal
                                == before[k2].signal);
                    }
                }
                Result::Ok(())
            },
            Option::None => Result::Err(TraceError::UnknownSignalReference { id }),
        }
    }

    /// Normalizes every recorded value in place: each length-1 vector
    /// becomes the equivalent scalar; everything else is untouched.
    pub fn normalize_all(&mut self)
        ensures
            final(self)@.len() == old(self)@.len(),
            forall|k: int|
                0 <= k < old(self)@.len() ==> #[trigger] final(self)@[k] == (SpecWave {
                    signal: old(self)@[k].signal,
                    events: old(self)@[k].events.map_values(
                        |e: (u64, SpecValue)| (e.0, norm_spec(e.1)),
                    ),
                    svg: old(self)@[k].svg,
                }),
    {
        let ghost orig = self@;
        let mut k: usize = 0;
        while k < self.waves.len()
            invariant
                k <= self.waves@.len(),
                self.waves@.len() == orig.len(),
                self@.len() == orig.len(),
                forall|k2: int|
                    0 <= k2 < k ==> #[trigger] self@[k2] == (SpecWave {
                        signal: orig[k2].signal,
                        events: orig[k2].events.map_values(
                            |e: (u64, SpecValue)| (e.0, norm_spec(e.1)),
                        ),
                        svg: orig[k2].svg,
                    }),
                forall|k2: int| k <= k2 < orig.len() ==> #[trigger] self@[k2] == orig[k2],
            decreases self.waves@.len() - k,
        {
            let ghost entry = self@;
            proof {
                assert(entry[k as int] == orig[k as int]);
            }
            let mut w = Waveform {
                signal: Signal { id: 0, name: String::new(), width: 0 },
                events: Vec::new(),
                svg: Option::None,
            };
            self.waves.set_and_swap(k, &mut w);
            proof {
                assert(w@ == orig[k as int]);
                assert(forall|k2: int|
                    0 <= k2 < orig.len() && k2 != k ==> #[trigger] self@[k2] == entry[k2]);
            }
            let Waveform { signal, mut events, svg } = w;
            let ghost ev0 = orig[k as int].events;
            proof {
                assert(ev0 =~= events@.map_values(|e: (u64, Value)| (e.0, e.1@)));
            }
            let mut done: Vec<(u64, Value)> = Vec::new();
            let mut j: usize = 0;
            while j < events.len()
                invariant
                    j <= events@.len(),
                    events@.len() == ev0.len(),
                    done@.len() == j,
                    forall|j2: int|
                        j <= j2 < ev0.len() ==> ((#[trigger] events@[j2]).0 == ev0[j2].0
                            && events@[j2].1@ == ev0[j2].1),
                    forall|j2: int|
                        0 <= j2 < j ==> ((#[trigger] done@[j2]).0 == ev0[j2].0 && done@[j2].1@
                            == norm_spec(ev0[j2].1)),
                decreases events@.len() - j,
            {
                let mut e: (u64, Value) = (0u64, Value::Scalar(Bit::X));
                events.set_and_swap(j, &mut e);
                let t = e.0;
                let nv = crate::value::normalize(e.1);
                done.push((t, nv));
                j += 1;
            }
            let neww = Waveform { signal, events: done, svg };
            proof {
                assert(neww@.events =~= ev0.map_values(|e: (u64, SpecValue)| (e.0, norm_spec(e.1))));
                assert(neww@.signal == orig[k as int].signal);
                assert(neww@.svg == orig[k as int].svg);
            }
            let ghost before_set = self@;
            self.waves.set(k, neww);
            proof {
                assert(self@ =~= before_set.update(k as int, neww@));
                assert(forall|k2: int|
                    0 <= k2 < orig.len() && k2 != k ==> #[trigger] self@[k2] == entry[k2]);
                assert(self@[k as int] == neww@);
            }
            k += 1;
        }
    }

    /// Checks every recorded value's width against its signal's declared
    /// width.  The first mismatch, scanning waves in identifier order and
    /// events in time order, aborts the run with the offending timestamp,
    /// signal name, and both widths; a trace with no mismatch validates.
    pub fn validate(&self) -> (r: Result<(), TraceError>)
        ensures
            r is Ok <==> store_ok(self@),
            r matches Err(e) ==> exists|k: int, j: int|
                {
                    &&& 0 <= k < self@.len()
                    &&& 0 <= j < self@[k].events.len()
                    &&& !(#[trigger] event_ok(self@[k], j))
                    &&& forall|k2: int, j2: int|
                        0 <= k2 < self@.len() && 0 <= j2 < self@[k2].events.len() && (k2 < k || (
                        k2 == k && j2 < j)) ==> #[trigger] event_ok(self@[k2], j2)
                    &&& is_width_mismatch(
                        e,
                        self@[k].events[j].0,
                        self@[k].signal.name,
                        self@[k].signal.width,
                        spec_width(self@[k].events[j].1),
                    )
                },
    {
        let mut k: usize = 0;
        while k < self.waves.len()
            invariant
                k <= self@.len(),
                self@.len() == self.waves@.len(),
                forall|k2: int| 0 <= k2 < k ==> wave_ok(#[trigger] self@[k2]),
            decreases self@.len() - k,
        {
            let mut j: usize = 0;
            while j < self.waves[k].events.len()
                invariant
                    k < self@.len(),
                    self@.len() == self.waves@.len(),
                    j <= self@[k as int].events.len(),
                    forall|k2: int| 0 <= k2 < k ==> wave_ok(#[trigger] self@[k2]),
                    forall|j2: int| 0 <= j2 < j ==> #[trigger] event_ok(self@[k as int], j2),
                decreases self@[k as int].events.len() - j,
            {
                let wave = &self.waves[k];
                let expected = wave.signal.width;
                let actual = size(&wave.events[j].1);
                if actual != expected as usize {
                    let time = wave.events[j].0;
                    let name = wave.signal.name.as_str().to_owned();
                    let e = TraceError::WidthMismatch {
                        time,
                        signal: name,
                        expected,
                        actual,
                    };
                    proof {
                        assert(!event_ok(self@[k as int], j as int));
                        assert(!wave_ok(self@[k as int]));
                    }
                    return Result::Err(e);
                }
                j += 1;
            }
            k += 1;
        }
        Result::Ok(())
    }

    /// The global right edge of the drawing: the greatest last-event time
    /// across all signals, plus a fixed padding of 10 time units.
    pub fn end_time(&self) -> (t: u64)
        requires
            max_last_time(self@) <= u64::MAX - 10,
        ensures
            t == max_last_time(self@) + 10,
    {
        let mut m: u64 = 0;
        let mut k: usize = 0;
        while k < self.waves.len()
            invariant
                k <= self@.len(),
                self@.len() == self.waves@.len(),
                m == max_last_time(self@.take(k as int)),
            decreases self@.len() - k,
        {
            let wave = &self.waves[k];
            let t = if wave.events.len() == 0 {
                0
            } else {
                wave.events[wave.events.len() - 1].0
            };
            proof {
                assert(t == last_event_time(self@[k as int]));
                assert(self@.take(k + 1).drop_last() =~= self@.take(k as int));
                assert(self@.take(k + 1).last() == self@[k as int]);
            }
            if t > m {
                m = t;
            }
            k += 1;
        }
        proof {
            assert(self@.take(self@.len() as int) =~= self@);
        }
        m + 10
    }
}

/// A signal that is the last declaration of its identifier among the first
/// `i` declarations, and whose identifier the `i`-th declaration does not
/// reuse, stays the last among the first `i + 1`.
proof fn lemma_last_declaration_extend(sig: SpecSignal, decls: Seq<SpecSignal>, i: int)
    requires
        0 <= i < decls.len(),
        is_last_declaration(sig, decls.take(i)),
        decls[i].id != sig.id,
    ensures
        is_last_declaration(sig, decls.take(i + 1)),
{
    let d = choose|d: int|
        0 <= d < decls.take(i).len() && decls.take(i)[d] == sig && (forall|d2: int|
            d < d2 < decls.take(i).len() ==> (#[trigger] decls.take(i)[d2]).id != sig.id);
    assert(decls.take(i + 1)[d] == sig);
    assert forall|d2: int| d < d2 < decls.take(i + 1).len() implies (#[trigger] decls.take(
        i + 1,
    )[d2]).id != sig.id by {
        if d2 < i {
            assert(decls.take(i)[d2].id != sig.id);
            assert(decls.take(i + 1)[d2] == decls.take(i)[d2]);
        } else {
            assert(decls.take(i + 1)[d2] == decls[i]);
        }
    }
}

} // verus!

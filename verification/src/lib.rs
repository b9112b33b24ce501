//! Waveform compaction and rendering for recorded digital-signal traces.
//!
//! A trace is a set of named signals, each with a declared bit width and a
//! time-ordered log of tri-state value changes.  The library validates the
//! trace, folds each signal's change log into a minimal list of drawable
//! segments (unknown spans, square-wave toggle runs, labelled vector blocks),
//! decomposes multi-bit buses into per-bit traces, and renders every segment
//! list as a textual vector-graphics fragment.
//!
//! A run is a one-shot batch transform: build the [`store::Store`] from the
//! declaration tree, replay the change events into it, normalize and
//! validate every recorded value, take the global right edge from
//! [`store::Store::end_time`], and render every wave against it with
//! [`svg::render_all`].  Any width mismatch or reference to an undeclared
//! signal aborts the whole run; a signal that never changed silently
//! produces no drawable.

pub mod compact;
pub mod numfmt;
pub mod segment;
pub mod store;
pub mod svg;
pub mod value;

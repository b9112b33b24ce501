use wavesvg::store::{Scope, ScopeItem, Signal, Store, TraceError};
use wavesvg::value::{Bit, Value};

fn sig(id: u64, name: &str, width: u32) -> Signal {
    Signal { id, name: name.to_string(), width }
}

fn demo_tree() -> Vec<ScopeItem> {
    vec![
        ScopeItem::Signal(sig(7, "clk", 1)),
        ScopeItem::Scope(Scope {
            name: "top".to_string(),
            children: vec![
                ScopeItem::Signal(sig(3, "data", 4)),
                ScopeItem::Scope(Scope {
                    name: "inner".to_string(),
                    children: vec![ScopeItem::Signal(sig(5, "en", 1))],
                }),
            ],
        }),
    ]
}

#[test]
fn build_flattens_and_sorts_by_identifier() {
    let store = Store::build(&demo_tree());
    let ids: Vec<u64> = store.waves.iter().map(|w| w.signal.id).collect();
    assert_eq!(ids, vec![3, 5, 7]);
    assert_eq!(store.waves[0].signal.name, "data");
    assert_eq!(store.waves[1].signal.name, "en");
    assert_eq!(store.waves[2].signal.name, "clk");
    for w in &store.waves {
        assert!(w.events.is_empty());
        assert!(w.svg.is_none());
    }
}

#[test]
fn build_keeps_last_declaration_of_reused_identifier() {
    let items = vec![
        ScopeItem::Signal(sig(4, "early", 1)),
        ScopeItem::Signal(sig(4, "late", 1)),
    ];
    let store = Store::build(&items);
    assert_eq!(store.waves.len(), 1);
    assert_eq!(store.waves[0].signal.name, "late");
}

#[test]
fn append_event_fills_the_right_wave() {
    let mut store = Store::build(&demo_tree());
    assert!(store.append_event(7, 0, Value::Scalar(Bit::B0)).is_ok());
    assert!(store.append_event(7, 5, Value::Scalar(Bit::B1)).is_ok());
    assert!(store.append_event(5, 2, Value::Scalar(Bit::X)).is_ok());
    assert_eq!(store.waves[2].events.len(), 2);
    assert_eq!(store.waves[2].events[0], (0, Value::Scalar(Bit::B0)));
    assert_eq!(store.waves[2].events[1], (5, Value::Scalar(Bit::B1)));
    assert_eq!(store.waves[1].events, vec![(2, Value::Scalar(Bit::X))]);
    assert!(store.waves[0].events.is_empty());
}

#[test]
fn append_event_rejects_undeclared_identifier() {
    let mut store = Store::build(&demo_tree());
    let r = store.append_event(99, 0, Value::Scalar(Bit::B0));
    assert_eq!(r, Err(TraceError::UnknownSignalReference { id: 99 }));
    for w in &store.waves {
        assert!(w.events.is_empty());
    }
}

#[test]
fn normalize_all_collapses_singleton_vectors() {
    let mut store = Store::build(&demo_tree());
    store
        .append_event(7, 1, Value::Vector(vec![Bit::B1]))
        .unwrap();
    store
        .append_event(3, 2, Value::Vector(vec![Bit::B0, Bit::B1, Bit::B1, Bit::B0]))
        .unwrap();
    store.normalize_all();
    assert_eq!(store.waves[2].events, vec![(1, Value::Scalar(Bit::B1))]);
    assert_eq!(
        store.waves[0].events,
        vec![(2, Value::Vector(vec![Bit::B0, Bit::B1, Bit::B1, Bit::B0]))]
    );
}

#[test]
fn validate_accepts_matching_widths() {
    let mut store = Store::build(&demo_tree());
    store.append_event(7, 0, Value::Scalar(Bit::B0)).unwrap();
    store
        .append_event(3, 4, Value::Vector(vec![Bit::B1, Bit::B0, Bit::B1, Bit::B0]))
        .unwrap();
    store.normalize_all();
    assert!(store.validate().is_ok());
}

#[test]
fn validate_reports_first_width_mismatch() {
    let mut store = Store::build(&demo_tree());
    // wave order is by identifier: data (3), en (5), clk (7)
    store
        .append_event(3, 4, Value::Vector(vec![Bit::B1, Bit::B0]))
        .unwrap();
    store.append_event(5, 9, Value::Vector(vec![Bit::B0, Bit::B0])).unwrap();
    store.normalize_all();
    let r = store.validate();
    assert_eq!(
        r,
        Err(TraceError::WidthMismatch {
            time: 4,
            signal: "data".to_string(),
            expected: 4,
            actual: 2,
        })
    );
}

#[test]
fn validate_checks_normalized_width() {
    // a singleton vector on a width-1 signal is fine once normalized
    let mut store = Store::build(&demo_tree());
    store.append_event(7, 3, Value::Vector(vec![Bit::B0])).unwrap();
    store.normalize_all();
    assert!(store.validate().is_ok());
}

#[test]
fn end_time_is_global_maximum_plus_padding() {
    let mut store = Store::build(&demo_tree());
    store.append_event(7, 9, Value::Scalar(Bit::B0)).unwrap();
    store
        .append_event(3, 32, Value::Vector(vec![Bit::B0, Bit::B0, Bit::B0, Bit::B0]))
        .unwrap();
    assert_eq!(store.end_time(), 42);
}

#[test]
fn end_time_of_empty_store_is_padding_alone() {
    let store = Store::build(&vec![]);
    assert_eq!(store.end_time(), 10);
    let silent = Store::build(&demo_tree());
    assert_eq!(silent.end_time(), 10);
}

#[test]
fn per_event_validation_accepts_matching_width() {
    let s = sig(1, "bus", 4);
    let v = Value::Vector(vec![Bit::B0, Bit::B1, Bit::X, Bit::Z]);
    assert!(wavesvg::store::validate_event(&s, 3, &v).is_ok());
}

#[test]
fn per_event_validation_normalizes_before_checking() {
    let s = sig(1, "wire", 1);
    let v = Value::Vector(vec![Bit::B1]);
    assert!(wavesvg::store::validate_event(&s, 0, &v).is_ok());
}

#[test]
fn per_event_validation_reports_exact_diagnostics() {
    let s = sig(1, "bus", 4);
    let v = Value::Vector(vec![Bit::B0, Bit::B1]);
    assert_eq!(
        wavesvg::store::validate_event(&s, 17, &v),
        Err(TraceError::WidthMismatch {
            time: 17,
            signal: "bus".to_string(),
            expected: 4,
            actual: 2,
        })
    );
}

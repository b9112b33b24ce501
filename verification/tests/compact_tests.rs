use wavesvg::compact::{compact_scalar, compact_vector};
use wavesvg::segment::Segment;
use wavesvg::value::Bit;

fn bits(pattern: &str) -> Vec<Bit> {
    pattern
        .chars()
        .map(|c| match c {
            '0' => Bit::B0,
            '1' => Bit::B1,
            'x' => Bit::X,
            'z' => Bit::Z,
            _ => panic!("unexpected bit character"),
        })
        .collect()
}

#[test]
fn scenario_single_bit_with_trailing_unknown() {
    // width 1, events (0,0), (5,1), (10,unknown); the empty leading
    // undetermined span is dropped, the toggle run is closed at time 10,
    // and an undetermined span runs to the global end time.
    let events: Vec<(u64, Bit)> = vec![(0, Bit::B0), (5, Bit::B1), (10, Bit::X)];
    let segs = compact_scalar(&events, 20);
    assert_eq!(
        segs,
        vec![
            Segment::Toggle { points: vec![(0, false), (5, true)], end: 10 },
            Segment::Undetermined { start: 10, end: 20 },
        ]
    );
}

#[test]
fn scenario_bus_coalesces_duplicate_value() {
    // bus width 4, events (0,1010), (3,1010), (7,1100): the duplicate at
    // time 3 coalesces into one block spanning 0..7.
    let events: Vec<(u64, Vec<Bit>)> =
        vec![(0, bits("1010")), (3, bits("1010")), (7, bits("1100"))];
    let segs = compact_vector(&events, 17);
    assert_eq!(
        segs,
        vec![
            Segment::VectorBlock { start: 0, end: 7, value: bits("1010") },
            Segment::VectorBlock { start: 7, end: 17, value: bits("1100") },
        ]
    );
}

#[test]
fn scenario_bus_bit_goes_unknown() {
    // bus width 4 with one bit going unknown at time 4: the whole bus trace
    // closes its block and stays undetermined to the end.
    let events: Vec<(u64, Vec<Bit>)> = vec![(0, bits("0110")), (4, bits("01x0"))];
    let segs = compact_vector(&events, 14);
    assert_eq!(
        segs,
        vec![
            Segment::VectorBlock { start: 0, end: 4, value: bits("0110") },
            Segment::Undetermined { start: 4, end: 14 },
        ]
    );
}

#[test]
fn scenario_bus_bit_projection_toggles_then_unknown() {
    // the bit at index 2 of (0,0110), (4,01x0) projects to (0,1), (4,x):
    // a toggle up to time 4, then undetermined.
    let events: Vec<(u64, Bit)> = vec![(0, Bit::B1), (4, Bit::X)];
    let segs = compact_scalar(&events, 14);
    assert_eq!(
        segs,
        vec![
            Segment::Toggle { points: vec![(0, true)], end: 4 },
            Segment::Undetermined { start: 4, end: 14 },
        ]
    );
}

#[test]
fn repeated_levels_keep_one_corner() {
    // consecutive equal levels are never both retained
    let events: Vec<(u64, Bit)> =
        vec![(0, Bit::B0), (2, Bit::B0), (5, Bit::B1), (6, Bit::B1), (9, Bit::Z)];
    let segs = compact_scalar(&events, 19);
    assert_eq!(
        segs,
        vec![
            Segment::Toggle { points: vec![(0, false), (5, true)], end: 9 },
            Segment::Undetermined { start: 9, end: 19 },
        ]
    );
    for seg in &segs {
        if let Segment::Toggle { points, .. } = seg {
            for pair in points.windows(2) {
                assert_ne!(pair[0].1, pair[1].1);
            }
        }
    }
}

#[test]
fn run_of_identical_vectors_makes_one_block() {
    // a run of three identical vector events between differing values
    // produces exactly one block spanning the full run
    let events: Vec<(u64, Vec<Bit>)> = vec![
        (0, bits("01")),
        (1, bits("01")),
        (2, bits("01")),
        (7, bits("10")),
    ];
    let segs = compact_vector(&events, 17);
    assert_eq!(
        segs,
        vec![
            Segment::VectorBlock { start: 0, end: 7, value: bits("01") },
            Segment::VectorBlock { start: 7, end: 17, value: bits("10") },
        ]
    );
}

#[test]
fn leading_unknown_span_is_kept_when_nonempty() {
    let events: Vec<(u64, Bit)> = vec![(3, Bit::B1)];
    let segs = compact_scalar(&events, 13);
    assert_eq!(
        segs,
        vec![
            Segment::Undetermined { start: 0, end: 3 },
            Segment::Toggle { points: vec![(3, true)], end: 13 },
        ]
    );
}

#[test]
fn no_events_is_one_unknown_span() {
    let events: Vec<(u64, Bit)> = vec![];
    let segs = compact_scalar(&events, 10);
    assert_eq!(segs, vec![Segment::Undetermined { start: 0, end: 10 }]);
}

#[test]
fn unknown_vector_in_unknown_state_is_ignored() {
    // a vector with an unknown bit arriving while undetermined leaves the
    // span open at its original start
    let events: Vec<(u64, Vec<Bit>)> = vec![(2, bits("0x")), (5, bits("01"))];
    let segs = compact_vector(&events, 15);
    assert_eq!(
        segs,
        vec![
            Segment::Undetermined { start: 0, end: 5 },
            Segment::VectorBlock { start: 5, end: 15, value: bits("01") },
        ]
    );
}

#[test]
fn unknown_bits_in_unknown_state_keep_the_span_open() {
    // unknown or high-impedance events while already undetermined do not
    // move the span's start
    let events: Vec<(u64, Bit)> = vec![(2, Bit::X), (4, Bit::Z), (6, Bit::B1)];
    let segs = compact_scalar(&events, 16);
    assert_eq!(
        segs,
        vec![
            Segment::Undetermined { start: 0, end: 6 },
            Segment::Toggle { points: vec![(6, true)], end: 16 },
        ]
    );
}

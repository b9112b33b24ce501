use wavesvg::numfmt::{dec_string, vector_label};
use wavesvg::store::{ScopeItem, Signal, Store, Waveform};
use wavesvg::svg::{render_all, render_svg};
use wavesvg::value::{Bit, Value};

fn bits(pattern: &str) -> Vec<Bit> {
    pattern
        .chars()
        .map(|c| match c {
            '0' => Bit::B0,
            '1' => Bit::B1,
            'x' => Bit::X,
            'z' => Bit::Z,
            _ => panic!("unexpected bit character"),
        })
        .collect()
}

fn sig(id: u64, name: &str, width: u32) -> Signal {
    Signal { id, name: name.to_string(), width }
}

#[test]
fn decimal_writing() {
    assert_eq!(dec_string(0), "0");
    assert_eq!(dec_string(7), "7");
    assert_eq!(dec_string(10), "10");
    assert_eq!(dec_string(12345), "12345");
    assert_eq!(dec_string(u64::MAX), "18446744073709551615");
}

#[test]
fn labels_of_short_vectors() {
    assert_eq!(vector_label(&bits("1010")), "0xa");
    assert_eq!(vector_label(&bits("1100")), "0xc");
    assert_eq!(vector_label(&bits("0000")), "0x0");
    assert_eq!(vector_label(&bits("111")), "0x7");
    assert_eq!(vector_label(&bits("")), "0x0");
}

#[test]
fn labels_size_to_a_quarter_of_the_width() {
    // floor(width / 4) counts the whole writing, `0x` included: a quirk of
    // the inherited sizing, kept as is
    assert_eq!(vector_label(&bits("00001111")), "0xf");
    assert_eq!(vector_label(&bits("0000000000000001")), "0x01");
    assert_eq!(vector_label(&bits("00000000000000011010")), "0x01a");
    assert_eq!(vector_label(&bits("000000000000")), "0x0");
}

#[test]
fn unknown_bits_read_as_zero_in_labels() {
    assert_eq!(vector_label(&bits("x1z1")), "0x5");
    assert_eq!(vector_label(&bits("xxxx")), "0x0");
}

#[test]
fn label_of_a_wide_vector() {
    // 72 bits exceed any fixed-size integer; the high bit set gives
    // 2^71 = 0x800000000000000000, padded to 16 characters in all
    let mut pattern = String::from("1");
    pattern.push_str(&"0".repeat(71));
    assert_eq!(vector_label(&bits(&pattern)), "0x800000000000000000");
}

#[test]
fn scalar_wave_fragment() {
    let mut wave = Waveform {
        signal: sig(3, "s", 1),
        events: vec![
            (0, Value::Scalar(Bit::B0)),
            (5, Value::Scalar(Bit::B1)),
            (10, Value::Scalar(Bit::X)),
        ],
        svg: None,
    };
    render_svg(&mut wave, 20);
    let svg = wave.svg.expect("a changed signal has a drawable");
    assert_eq!(
        svg.wave,
        "<svg class=\"wave\" data-id=\"3\" data-size=\"1\" width=\"20\">\
         <g transform=\"scale(10 2)\">\
         <polyline points=\"0 10,5 10,5 0,10 0\"/>\
         <rect class=\"x\" rx=\"1\" ry=\"1\" x=\"10\" y=\"0\" width=\"10\" height=\"10\"/>\
         </g></svg>"
    );
    assert!(svg.bits.is_empty());
}

#[test]
fn bus_wave_fragment_with_decomposed_bits() {
    let mut wave = Waveform {
        signal: sig(9, "bus", 4),
        events: vec![
            (0, Value::Vector(bits("1010"))),
            (3, Value::Vector(bits("1010"))),
            (7, Value::Vector(bits("1100"))),
        ],
        svg: None,
    };
    render_svg(&mut wave, 17);
    let svg = wave.svg.expect("a changed signal has a drawable");
    assert_eq!(
        svg.wave,
        "<svg class=\"wave\" data-id=\"9\" data-size=\"4\" width=\"17\">\
         <g transform=\"scale(10 2)\">\
         <rect class=\"vec\" rx=\"1\" ry=\"1\" x=\"0\" y=\"0\" width=\"7\" height=\"10\"/>\n\
         <g transform=\"translate(3 7)\"><text>0xa</text></g>\
         <rect class=\"vec\" rx=\"1\" ry=\"1\" x=\"7\" y=\"0\" width=\"10\" height=\"10\"/>\n\
         <g transform=\"translate(12 7)\"><text>0xc</text></g>\
         </g></svg>"
    );
    assert_eq!(svg.bits.len(), 4);
    assert_eq!(
        svg.bits[0],
        "<svg class=\"wave\" data-id=\"9 0\" data-size=\"1\" width=\"17\">\
         <g transform=\"scale(10 2)\">\
         <polyline points=\"0 0,17 0\"/>\
         </g></svg>"
    );
    assert_eq!(
        svg.bits[1],
        "<svg class=\"wave\" data-id=\"9 1\" data-size=\"1\" width=\"17\">\
         <g transform=\"scale(10 2)\">\
         <polyline points=\"0 10,7 10,7 0,17 0\"/>\
         </g></svg>"
    );
}

#[test]
fn bus_bit_going_unknown_shows_in_its_decomposed_trace() {
    let mut wave = Waveform {
        signal: sig(2, "d", 4),
        events: vec![
            (0, Value::Vector(bits("0110"))),
            (4, Value::Vector(bits("01x0"))),
        ],
        svg: None,
    };
    render_svg(&mut wave, 14);
    let svg = wave.svg.expect("a changed signal has a drawable");
    // the whole bus closes its block at time 4 and stays undetermined
    assert_eq!(
        svg.wave,
        "<svg class=\"wave\" data-id=\"2\" data-size=\"4\" width=\"14\">\
         <g transform=\"scale(10 2)\">\
         <rect class=\"vec\" rx=\"1\" ry=\"1\" x=\"0\" y=\"0\" width=\"4\" height=\"10\"/>\n\
         <g transform=\"translate(2 7)\"><text>0x6</text></g>\
         <rect class=\"x\" rx=\"1\" ry=\"1\" x=\"4\" y=\"0\" width=\"10\" height=\"10\"/>\
         </g></svg>"
    );
    // the bit at index 2 toggles up to time 4, then goes undetermined
    assert_eq!(
        svg.bits[2],
        "<svg class=\"wave\" data-id=\"2 2\" data-size=\"1\" width=\"14\">\
         <g transform=\"scale(10 2)\">\
         <polyline points=\"0 0,4 0\"/>\
         <rect class=\"x\" rx=\"1\" ry=\"1\" x=\"4\" y=\"0\" width=\"10\" height=\"10\"/>\
         </g></svg>"
    );
}

#[test]
fn silent_signal_has_no_drawable() {
    let items = vec![
        ScopeItem::Signal(sig(1, "clk", 1)),
        ScopeItem::Signal(sig(2, "quiet", 1)),
    ];
    let mut store = Store::build(&items);
    store.append_event(1, 0, Value::Scalar(Bit::B0)).unwrap();
    store.append_event(1, 5, Value::Scalar(Bit::B1)).unwrap();
    store.normalize_all();
    assert!(store.validate().is_ok());
    let end_time = store.end_time();
    assert_eq!(end_time, 15);
    render_all(&mut store, end_time);
    assert!(store.waves[0].svg.is_some());
    assert!(store.waves[1].svg.is_none());
}

#[test]
fn every_drawable_spans_the_same_right_edge() {
    let items = vec![
        ScopeItem::Signal(sig(1, "a", 1)),
        ScopeItem::Signal(sig(2, "b", 1)),
    ];
    let mut store = Store::build(&items);
    store.append_event(1, 9, Value::Scalar(Bit::B0)).unwrap();
    store.append_event(2, 32, Value::Scalar(Bit::B1)).unwrap();
    store.normalize_all();
    assert!(store.validate().is_ok());
    let end_time = store.end_time();
    assert_eq!(end_time, 42);
    render_all(&mut store, end_time);
    for w in &store.waves {
        let svg = w.svg.as_ref().expect("both signals changed");
        assert!(svg.wave.contains("width=\"42\""));
    }
}

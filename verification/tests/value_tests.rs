use wavesvg::value::{normalize, size, Bit, Value};

#[test]
fn scalar_passes_through() {
    let v = normalize(Value::Scalar(Bit::B1));
    assert_eq!(v, Value::Scalar(Bit::B1));
    let v = normalize(Value::Scalar(Bit::Z));
    assert_eq!(v, Value::Scalar(Bit::Z));
}

#[test]
fn singleton_vector_becomes_scalar() {
    let v = normalize(Value::Vector(vec![Bit::B0]));
    assert_eq!(v, Value::Scalar(Bit::B0));
    let v = normalize(Value::Vector(vec![Bit::X]));
    assert_eq!(v, Value::Scalar(Bit::X));
}

#[test]
fn longer_vector_passes_through() {
    let v = normalize(Value::Vector(vec![Bit::B1, Bit::B0]));
    assert_eq!(v, Value::Vector(vec![Bit::B1, Bit::B0]));
}

#[test]
fn normalize_is_idempotent_on_samples() {
    let samples = vec![
        Value::Scalar(Bit::B0),
        Value::Vector(vec![Bit::B1]),
        Value::Vector(vec![]),
        Value::Vector(vec![Bit::Z, Bit::X, Bit::B1]),
    ];
    for v in samples {
        let once = normalize(clone_value(&v));
        let twice = normalize(clone_value(&once));
        assert_eq!(once, twice);
    }
}

#[test]
fn width_of_values() {
    assert_eq!(size(&Value::Scalar(Bit::X)), 1);
    assert_eq!(size(&Value::Vector(vec![])), 0);
    assert_eq!(size(&Value::Vector(vec![Bit::B0, Bit::B1, Bit::B0])), 3);
}

fn clone_value(v: &Value) -> Value {
    match v {
        Value::Scalar(b) => Value::Scalar(*b),
        Value::Vector(bits) => Value::Vector(bits.clone()),
    }
}

//! Tri-state bit and signal value model, with the normalization rule that
//! collapses single-element vectors to scalars.

use vstd::prelude::*;

verus! {

/// One recorded level of a digital signal at an instant.
#[derive(Clone, Copy, Debug, PartialEq, Eq, Structural)]
pub enum Bit {
    /// Driven low.
    B0,
    /// Driven high.
    B1,
    /// Unknown / undriven.
    X,
    /// High impedance.
    Z,
}

/// A recorded signal value: a single bit, or an ordered bit vector with the
/// most significant bit first.
#[derive(Debug, PartialEq, Eq)]
pub enum Value {
    Scalar(Bit),
    Vector(Vec<Bit>),
}

/// Mathematical model of a [`Value`].
#[verifier::ext_equal]
pub enum SpecValue {
    Scalar(Bit),
    Vector(Seq<Bit>),
}

impl View for Value {
    type V = SpecValue;

    open spec fn view(&self) -> SpecValue {
        match self {
            Value::Scalar(b) => SpecValue::Scalar(*b),
            Value::Vector(v) => SpecValue::Vector(v@),
        }
    }
}

/// True of a bit that actually drives the signal (not unknown, not floating).
pub open spec fn bit_driven(b: Bit) -> bool {
    b == Bit::B0 || b == Bit::B1
}

/// True when every bit of the vector is driven.
pub open spec fn all_driven(s: Seq<Bit>) -> bool {
    forall|i: int| 0 <= i < s.len() ==> bit_driven(s[i])
}

/// The bit width of a value: 1 for a scalar, the length for a vector.
pub open spec fn spec_width(v: SpecValue) -> nat {
    match v {
        SpecValue::Scalar(_) => 1,
        SpecValue::Vector(s) => s.len(),
    }
}

/// What [`normalize`] returns: a length-1 vector becomes the equivalent
/// scalar, every other value passes through unchanged.
pub open spec fn norm_spec(v: SpecValue) -> SpecValue {
    match v {
        SpecValue::Scalar(_) => v,
        SpecValue::Vector(s) => if s.len() == 1 {
            SpecValue::Scalar(s[0])
        } else {
            v
        },
    }
}

/// True of a value that normalization would leave unchanged.
pub open spec fn is_normal(v: SpecValue) -> bool {
    norm_spec(v) == v
}

/// The bit width of a value.
pub fn size(v: &Value) -> (n: usize)
    ensures
        n == spec_width(v@),
{
    match v {
        Value::Scalar(_) => 1,
        Value::Vector(s) => s.len(),
    }
}

/// Converts a length-1 vector to the equivalent scalar; all other values pass
/// through unchanged.
pub fn normalize(v: Value) -> (r: Value)
    ensures
        r@ == norm_spec(v@),
{
    match v {
        Value::Vector(s) => {
            if s.len() == 1 {
                Value::Scalar(s[0])
            } else {
                Value::Vector(s)
            }
        },
        scalar => scalar,
    }
}

/// Normalization is idempotent, and a vector of length 1 always yields the
/// equivalent scalar, so no length-1 vector survives it.
pub proof fn lemma_normalize_idempotent(v: SpecValue)
    ensures
        norm_spec(norm_spec(v)) == norm_spec(v),
        spec_width(norm_spec(v)) == spec_width(v),
        v matches SpecValue::Vector(s) ==> (s.len() == 1 ==> norm_spec(v) == SpecValue::Scalar(
            s[0],
        )),
{
}

/// True when every bit of the vector is driven; the negation reports an
/// unknown or high-impedance bit somewhere in the vector.
pub fn vec_all_driven(s: &Vec<Bit>) -> (r: bool)
    ensures
        r == all_driven(s@),
{
    let mut i: usize = 0;
    while i < s.len()
        invariant
            0 <= i <= s@.len(),
            forall|j: int| 0 <= j < i ==> bit_driven(s@[j]),
        decreases s@.len() - i,
    {
        match s[i] {
            Bit::B0 | Bit::B1 => {},
            Bit::X | Bit::Z => {
                return false;
            },
        }
        i += 1;
    }
    true
}

/// Elementwise equality of two bit vectors.
pub fn bits_eq(a: &Vec<Bit>, b: &Vec<Bit>) -> (r: bool)
    ensures
        r == (a@ =~= b@),
{
    if a.len() != b.len() {
        return false;
    }
    let mut i: usize = 0;
    while i < a.len()
        invariant
            0 <= i <= a@.len(),
            a@.len() == b@.len(),
            forall|j: int| 0 <= j < i ==> a@[j] == b@[j],
        decreases a@.len() - i,
    {
        if a[i] != b[i] {
            return false;
        }
        i += 1;
    }
    true
}

/// An owned copy of a bit vector.
pub fn copy_bits(s: &Vec<Bit>) -> (r: Vec<Bit>)
    ensures
        r@ == s@,
{
    let mut r: Vec<Bit> = Vec::new();
    let mut i: usize = 0;
    while i < s.len()
        invariant
            0 <= i <= s@.len(),
            r@ =~= s@.take(i as int),
        decreases s@.len() - i,
    {
        r.push(s[i]);
        i += 1;
    }
    proof {
        assert(r@ =~= s@);
    }
    r
}

} // verus!

//! Deterministic JSON-like attribute values for graph extensions.
use std::collections::BTreeMap;
use vstd::prelude::*;

verus! {

/// The condition on which vstd specifies `BTreeMap::insert` for `String`
/// keys: that the order of `String` obeys its laws.
pub open spec fn string_order_lawful() -> bool {
    vstd::laws_cmp::obeys_cmp::<String>()
}

/// The bit pattern of a finite IEEE-754 double: its exponent field is not
/// all ones (all ones encodes infinity and NaN).
pub open spec fn is_finite_bits(bits: u64) -> bool {
    (bits >> 52u64) & 0x7ffu64 != 0x7ffu64
}

/// The order key of a double's bit pattern: unsigned comparison of keys is
/// the IEEE-754 total order (`f64::total_cmp`) of the doubles.
pub open spec fn order_key(bits: u64) -> u64 {
    if bits >> 63u64 == 1u64 {
        !bits
    } else {
        bits ^ 0x8000_0000_0000_0000u64
    }
}

/// The bit pattern whose order key is `key`.
pub open spec fn key_bits(key: u64) -> u64 {
    if key >> 63u64 == 1u64 {
        key ^ 0x8000_0000_0000_0000u64
    } else {
        !key
    }
}

proof fn lemma_key_round_trip(bits: u64)
    ensures
        key_bits(order_key(bits)) == bits,
{
    assert(bits >> 63u64 == 1u64 ==> (!bits) >> 63u64 == 0u64 && !(!bits) == bits) by (bit_vector);
    assert(bits >> 63u64 != 1u64 ==> (bits ^ 0x8000_0000_0000_0000u64) >> 63u64 == 1u64
        && (bits ^ 0x8000_0000_0000_0000u64) ^ 0x8000_0000_0000_0000u64 == bits) by (bit_vector);
}

/// A finite double, kept as the order key of its bit pattern so that the
/// derived equality is bit equality and the derived order is the IEEE-754
/// total order.
#[derive(Debug, Clone, Copy, PartialEq, Eq, PartialOrd, Ord, Hash, Structural)]
pub struct FiniteF64 {
    key: u64,
}

impl FiniteF64 {
    /// The bit pattern of the double.
    pub closed spec fn bits(self) -> u64 {
        key_bits(self.key)
    }

    /// A finite double from its bit pattern; `None` for infinity and NaN.
    pub fn from_bits(bits: u64) -> (r: Option<FiniteF64>)
        ensures
            r is Some <==> is_finite_bits(bits),
            r matches Some(f) ==> f.bits() == bits,
    {
        if (bits >> 52u64) & 0x7ffu64 == 0x7ffu64 {
            return None;
        }
        proof {
            lemma_key_round_trip(bits);
        }
        let key = if bits >> 63u64 == 1u64 {
            !bits
        } else {
            bits ^ 0x8000_0000_0000_0000u64
        };
        Some(FiniteF64 { key })
    }

    /// The bit pattern of the double.
    pub fn to_bits(self) -> (r: u64)
        ensures
            r == self.bits(),
    {
        if self.key >> 63u64 == 1u64 {
            self.key ^ 0x8000_0000_0000_0000u64
        } else {
            !self.key
        }
    }
}

/// Deterministic JSON-like attribute value for graph extensions.
#[derive(Debug, PartialEq, Eq, PartialOrd, Ord, Hash)]
#[non_exhaustive]
pub enum AttributeValue {
    Null,
    Bool(bool),
    Integer(i64),
    Unsigned(u64),
    Float(FiniteF64),
    String(String),
    List(Vec<AttributeValue>),
    Object(BTreeMap<String, AttributeValue>),
}

} // verus!

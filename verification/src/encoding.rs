//! Observed values as integer keys. A value arrives as the bit pattern of an
//! IEEE 754 double; its key is a signed integer that orders as the value does,
//! so that the rest of the library compares integers only.

use crate::search::JenksError;
use vstd::prelude::*;

verus! {

/// The bit that holds the sign of a double.
pub const SIGN_BIT: u64 = 0x8000_0000_0000_0000;

/// The pattern of positive infinity: the greatest magnitude that is not
/// "not a number".
pub const INFINITY_BITS: u64 = 0x7ff0_0000_0000_0000;

/// The key of positive infinity: the greatest key that a pattern can have.
pub const INFINITY_KEY: i64 = 0x7ff0_0000_0000_0000;

/// The pattern without its sign bit.
pub open spec fn magnitude(bits: u64) -> int {
    if bits >= SIGN_BIT {
        bits - SIGN_BIT
    } else {
        bits as int
    }
}

/// The pattern stands for no number.
pub open spec fn is_nan_bits(bits: u64) -> bool {
    magnitude(bits) > INFINITY_BITS
}

/// The pattern stands for a finite number.
pub open spec fn is_finite_bits(bits: u64) -> bool {
    magnitude(bits) < INFINITY_BITS
}

/// The key of a pattern: its magnitude, negated where the sign bit is set.
/// Both zeros have key 0. Among patterns that stand for numbers or
/// infinities, keys order as the values do.
pub open spec fn key_of(bits: u64) -> int {
    if bits >= SIGN_BIT {
        -magnitude(bits)
    } else {
        magnitude(bits)
    }
}

/// A key that some number or infinity has.
pub open spec fn is_key(key: int) -> bool {
    -(INFINITY_KEY as int) <= key <= INFINITY_KEY as int
}

/// The pattern of a key; key 0 gives positive zero.
pub open spec fn bits_of(key: int) -> int {
    if key >= 0 {
        key
    } else {
        SIGN_BIT - key
    }
}

/// Computes the key of a pattern, or `None` where it stands for no number.
pub fn order_key(bits: u64) -> (key: Option<i64>)
    ensures
        key is None <==> is_nan_bits(bits),
        key is Some ==> key->0 == key_of(bits) && is_key(key->0 as int),
{
    let magnitude: u64 = if bits >= SIGN_BIT {
        bits - SIGN_BIT
    } else {
        bits
    };
    if magnitude > INFINITY_BITS {
        None
    } else if bits >= SIGN_BIT {
        Some(-(magnitude as i64))
    } else {
        Some(magnitude as i64)
    }
}

/// Computes the pattern of a key, or `None` where no number or infinity has
/// that key.
pub fn key_bits(key: i64) -> (bits: Option<u64>)
    ensures
        bits is Some <==> is_key(key as int),
        bits is Some ==> bits->0 == bits_of(key as int),
{
    if key >= 0 {
        if key as u64 > INFINITY_BITS {
            None
        } else {
            Some(key as u64)
        }
    } else if key < -INFINITY_KEY {
        None
    } else {
        Some(SIGN_BIT + ((-key) as u64))
    }
}

/// A key gives back the pattern it came from, but for negative zero, which
/// shares its key with positive zero; and a pattern made from a key has that
/// key.
pub proof fn lemma_key_round_trip(bits: u64, key: int)
    ensures
        !is_nan_bits(bits) ==> is_key(key_of(bits)) && bits_of(key_of(bits)) == (if bits
            == SIGN_BIT {
            0
        } else {
            bits as int
        }),
        is_key(key) ==> 0 <= bits_of(key) <= u64::MAX && !is_nan_bits(bits_of(key) as u64)
            && key_of(bits_of(key) as u64) == key,
{
}

/// Two patterns that stand for numbers or infinities have the same key only
/// if they are the same pattern or the two zeros.
pub proof fn lemma_key_decides_pattern(a: u64, b: u64)
    requires
        !is_nan_bits(a),
        !is_nan_bits(b),
        key_of(a) == key_of(b),
    ensures
        a == b || (magnitude(a) == 0 && magnitude(b) == 0),
{
}

/// Turns observed values, given by their patterns, into keys. A value that
/// is infinite or not a number is refused.
pub fn encode_observations(patterns: &Vec<u64>) -> (result: Result<Vec<i64>, JenksError>)
    ensures
        result is Ok <==> forall|i: int|
            0 <= i < patterns@.len() ==> is_finite_bits(#[trigger] patterns@[i]),
        result is Err ==> result->Err_0 == JenksError::NonFinite,
        result is Ok ==> result->Ok_0@.len() == patterns@.len() && forall|i: int|
            0 <= i < patterns@.len() ==> (#[trigger] result->Ok_0@[i]) == key_of(patterns@[i]),
{
    let mut keys: Vec<i64> = Vec::new();
    let mut i: usize = 0;
    while i < patterns.len()
        invariant
            i <= patterns@.len(),
            keys@.len() == i,
            forall|k: int| 0 <= k < i ==> is_finite_bits(#[trigger] patterns@[k]),
            forall|k: int| 0 <= k < i ==> (#[trigger] keys@[k]) == key_of(patterns@[k]),
        decreases patterns@.len() - i,
    {
        match order_key(patterns[i]) {
            Some(key) => {
                if key == INFINITY_KEY || key == -INFINITY_KEY {
                    assert(!is_finite_bits(patterns@[i as int]));
                    return Err(JenksError::NonFinite);
                }
                keys.push(key);
            },
            None => {
                assert(!is_finite_bits(patterns@[i as int]));
                return Err(JenksError::NonFinite);
            },
        }
        i += 1;
    }
    Ok(keys)
}

/// Turns keys back into the patterns of the values they stand for. Returns
/// `None` where some entry is the key of no number or infinity.
pub fn decode_keys(keys: &Vec<i64>) -> (result: Option<Vec<u64>>)
    ensures
        result is Some <==> forall|i: int| 0 <= i < keys@.len() ==> is_key(#[trigger] keys@[i] as int),
        result is Some ==> result->0@.len() == keys@.len() && forall|i: int|
            0 <= i < keys@.len() ==> (#[trigger] result->0@[i]) == bits_of(keys@[i] as int),
{
    let mut patterns: Vec<u64> = Vec::new();
    let mut i: usize = 0;
    while i < keys.len()
        invariant
            i <= keys@.len(),
            patterns@.len() == i,
            forall|k: int| 0 <= k < i ==> is_key(#[trigger] keys@[k] as int),
            forall|k: int| 0 <= k < i ==> (#[trigger] patterns@[k]) == bits_of(keys@[k] as int),
        decreases keys@.len() - i,
    {
        match key_bits(keys[i]) {
            Some(bits) => {
                patterns.push(bits);
            },
            None => {
                assert(!is_key(keys@[i as int] as int));
                return None;
            },
        }
        i += 1;
    }
    Some(patterns)
}

} // verus!

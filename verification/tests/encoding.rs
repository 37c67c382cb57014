use classify::encoding::{
    decode_keys, encode_observations, key_bits, order_key, INFINITY_BITS, SIGN_BIT,
};
use classify::search::JenksError;

fn key(x: f64) -> i64 {
    order_key(x.to_bits()).unwrap()
}

#[test]
fn keys_order_as_the_values_do() {
    let values = [
        f64::NEG_INFINITY,
        f64::MIN,
        -1.0e10,
        -2.5,
        -1.0,
        -f64::MIN_POSITIVE,
        -5e-324,
        0.0,
        5e-324,
        f64::MIN_POSITIVE,
        0.1,
        1.0,
        1.0000000000000002,
        2.0,
        1.0e300,
        f64::MAX,
        f64::INFINITY,
    ];
    for pair in values.windows(2) {
        assert!(key(pair[0]) < key(pair[1]));
    }
}

#[test]
fn exact_keys_of_some_values() {
    assert_eq!(key(0.0), 0);
    assert_eq!(key(-0.0), 0);
    assert_eq!(key(1.0), 0x3ff0_0000_0000_0000);
    assert_eq!(key(-1.0), -0x3ff0_0000_0000_0000);
    assert_eq!(key(2.0), 0x4000_0000_0000_0000);
    assert_eq!(key(f64::INFINITY), 0x7ff0_0000_0000_0000);
    assert_eq!(key(f64::NEG_INFINITY), -0x7ff0_0000_0000_0000);
    assert_eq!(key(5e-324), 1);
    assert_eq!((SIGN_BIT, INFINITY_BITS), (1 << 63, f64::INFINITY.to_bits()));
}

#[test]
fn not_a_number_has_no_key() {
    assert_eq!(order_key(f64::NAN.to_bits()), None);
    assert_eq!(order_key((-f64::NAN).to_bits()), None);
    assert_eq!(order_key(0x7ff0_0000_0000_0001), None);
    assert_eq!(order_key(u64::MAX), None);
}

#[test]
fn key_gives_its_pattern_back() {
    for x in [0.0, 1.0, -1.0, 3.75, -1.0e-300, f64::MAX, f64::MIN, f64::INFINITY] {
        assert_eq!(key_bits(key(x)), Some(x.to_bits()));
    }
    assert_eq!(key_bits(key(-0.0)), Some(0.0f64.to_bits()));
    assert_eq!(key_bits(-1), Some(SIGN_BIT + 1));
}

#[test]
fn keys_of_no_number_have_no_pattern() {
    assert_eq!(key_bits(0x7ff0_0000_0000_0001), None);
    assert_eq!(key_bits(-0x7ff0_0000_0000_0001), None);
    assert_eq!(key_bits(i64::MAX), None);
    assert_eq!(key_bits(i64::MIN), None);
    assert_eq!(decode_keys(&vec![0, i64::MIN, 1]), None);
}

#[test]
fn observations_are_encoded_in_place_order() {
    let patterns: Vec<u64> = [2.0f64, -1.0, 0.0, 2.0].iter().map(|x| x.to_bits()).collect();
    let keys = encode_observations(&patterns).unwrap();
    assert_eq!(keys, vec![key(2.0), key(-1.0), 0, key(2.0)]);
    assert_eq!(decode_keys(&keys), Some(patterns));
    assert_eq!(encode_observations(&vec![]), Ok(vec![]));
}

#[test]
fn non_finite_observations_are_refused() {
    for bad in [f64::NAN, f64::INFINITY, f64::NEG_INFINITY] {
        let patterns: Vec<u64> = [1.0, bad, 2.0].iter().map(|x| x.to_bits()).collect();
        assert_eq!(encode_observations(&patterns), Err(JenksError::NonFinite));
    }
}

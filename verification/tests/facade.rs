use cryptids::error::Error;
use cryptids::Cryptids;

const ALPHABET: &str = "123456789ABCDEFGHJKLMNPQRSTUVWXYZabcdefghijkmnopqrstuvwxyz";

fn zero_key() -> Vec<u8> {
    vec![0u8; 16]
}

fn patterned_key() -> Vec<u8> {
    vec![0, 1, 2, 3, 4, 5, 6, 7, 8, 9, 10, 11, 12, 13, 14, 15]
}

fn sample_ints() -> Vec<i32> {
    vec![
        0,
        1,
        -1,
        2,
        -2,
        42,
        12345,
        -12345,
        1000000,
        -1000000,
        2147483647,
        -2147483648,
        -2147483647,
        305419896,
    ]
}

#[test]
fn round_trip_zero_key() {
    let c = Cryptids::new(zero_key()).unwrap();
    for &x in sample_ints().iter() {
        let s = c.i2s(x);
        assert_eq!(c.s2i(&s), Ok(x));
    }
}

#[test]
fn round_trip_patterned_key() {
    let c = Cryptids::new(patterned_key()).unwrap();
    for &x in sample_ints().iter() {
        let s = c.i2s(x);
        assert_eq!(c.s2i(&s), Ok(x));
    }
}

#[test]
fn round_trip_negative_values() {
    let c = Cryptids::new(patterned_key()).unwrap();
    for &x in &[-1, -2147483648, -2147483647, -12345, -7] {
        let s = c.i2s(x);
        assert_eq!(c.s2i(&s), Ok(x));
    }
}

#[test]
fn determinism_repeated_calls() {
    let c = Cryptids::new(patterned_key()).unwrap();
    for &x in sample_ints().iter() {
        let first = c.i2s(x);
        let second = c.i2s(x);
        assert_eq!(first, second);
    }
    let other = Cryptids::new(patterned_key()).unwrap();
    assert_eq!(c.i2s(99), other.i2s(99));
}

#[test]
fn bijection_no_collisions_sample() {
    let c = Cryptids::new(zero_key()).unwrap();
    let mut seen: Vec<String> = Vec::new();
    for x in -200i32..=200i32 {
        seen.push(c.i2s(x));
    }
    for a in 0..seen.len() {
        for b in (a + 1)..seen.len() {
            assert_ne!(seen[a], seen[b]);
        }
    }
}

#[test]
fn alphabet_conformance() {
    let c = Cryptids::new(patterned_key()).unwrap();
    for &x in sample_ints().iter() {
        let s = c.i2s(x);
        assert!(s.len() <= 6);
        for ch in s.chars() {
            assert!(ALPHABET.contains(ch));
        }
    }
}

#[test]
fn rejects_invalid_characters() {
    let c = Cryptids::new(zero_key()).unwrap();
    for bad in &["0", "O", "I", "l", "2xO1", "hello!", "a b", "-Qq", "1111*"] {
        assert_eq!(c.s2i(bad), Err(Error::InvalidEncoding));
    }
}

#[test]
fn rejects_wrong_width() {
    let c = Cryptids::new(zero_key()).unwrap();
    // "1" decodes to a single zero byte; eleven of them to eleven bytes;
    // the empty string to no bytes at all; a long string to more than four.
    for narrow in &["", "1", "11111111111", "JxF12TrwUP45BMd", "zzzzzzzzzz"] {
        assert_eq!(c.s2i(narrow), Err(Error::CiphertextWidth));
    }
}

#[test]
fn key_sensitivity_sample() {
    let keys: Vec<Vec<u8>> = vec![
        zero_key(),
        patterned_key(),
        vec![0xFF; 16],
        vec![1u8; 16],
        vec![16, 15, 14, 13, 12, 11, 10, 9, 8, 7, 6, 5, 4, 3, 2, 1],
    ];
    for &x in &[0, 1, -1, 12345] {
        for a in 0..keys.len() {
            for b in (a + 1)..keys.len() {
                let ca = Cryptids::new(keys[a].clone()).unwrap();
                let cb = Cryptids::new(keys[b].clone()).unwrap();
                assert_ne!(ca.i2s(x), cb.i2s(x));
            }
        }
    }
}

#[test]
fn concrete_scenario_zero_key() {
    let c = Cryptids::new(zero_key()).unwrap();
    assert_ne!(c.i2s(0), c.i2s(1));
    let s = c.i2s(12345);
    assert_eq!(c.s2i(&s), Ok(12345));
}

#[test]
fn key_length_errors() {
    assert!(matches!(Cryptids::new(vec![]), Err(Error::KeyLength)));
    assert!(matches!(Cryptids::new(vec![0u8; 15]), Err(Error::KeyLength)));
    assert!(matches!(Cryptids::new(vec![0u8; 17]), Err(Error::KeyLength)));
    assert!(matches!(Cryptids::new(vec![0u8; 32]), Err(Error::KeyLength)));
    assert!(Cryptids::new(vec![0u8; 16]).is_ok());
}

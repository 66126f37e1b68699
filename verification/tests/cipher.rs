use cryptids::codec::int_to_numeral_string;
use cryptids::codec::numeral_string_to_int;
use cryptids::error::Error;
use cryptids::ff1::Ff1;
use cryptids::numeral::NumeralString;

fn key16() -> Vec<u8> {
    vec![7, 1, 8, 2, 8, 1, 8, 2, 8, 4, 5, 9, 0, 4, 5, 2]
}

#[test]
fn ff1_new_rejects_bad_key_and_radix() {
    assert!(matches!(Ff1::new(vec![0u8; 8], 2), Err(Error::KeyLength)));
    assert!(matches!(Ff1::new(vec![0u8; 24], 2), Err(Error::KeyLength)));
    assert!(matches!(Ff1::new(key16(), 10), Err(Error::DomainSize)));
    assert!(matches!(Ff1::new(key16(), 0), Err(Error::DomainSize)));
    assert!(Ff1::new(key16(), 2).is_ok());
}

#[test]
fn ff1_rejects_small_and_large_domains() {
    let f = Ff1::new(key16(), 2).unwrap();
    let tweak: Vec<u8> = Vec::new();
    // one byte gives 8 digits: far below the minimum domain
    let short = NumeralString::from_bytes_le(&vec![0x5A]);
    assert!(matches!(f.encrypt(&tweak, &short), Err(Error::DomainSize)));
    assert!(matches!(f.decrypt(&tweak, &short), Err(Error::DomainSize)));
    // nine bytes give 72 digits: past what the machine arithmetic holds
    let long = NumeralString::from_bytes_le(&vec![1u8; 9]);
    assert!(matches!(f.encrypt(&tweak, &long), Err(Error::DomainSize)));
    assert!(matches!(f.decrypt(&tweak, &long), Err(Error::DomainSize)));
}

#[test]
fn ff1_length_preservation() {
    let f = Ff1::new(key16(), 2).unwrap();
    let tweak: Vec<u8> = Vec::new();
    for bytes in &[vec![9u8, 8, 7], vec![1u8, 2, 3, 4], vec![0u8; 8], vec![0xAB; 5]] {
        let ns = NumeralString::from_bytes_le(bytes);
        let ct = f.encrypt(&tweak, &ns).unwrap();
        assert_eq!(ct.len(), ns.len());
        assert_eq!(ct.to_bytes_le().len(), bytes.len());
    }
}

#[test]
fn ff1_encrypt_decrypt_inverse_empty_tweak() {
    let f = Ff1::new(key16(), 2).unwrap();
    let tweak: Vec<u8> = Vec::new();
    for bytes in &[vec![0u8; 4], vec![1u8, 2, 3, 4], vec![0xFF; 4], vec![0xDE, 0xAD, 0xBE, 0xEF]] {
        let ns = NumeralString::from_bytes_le(bytes);
        let ct = f.encrypt(&tweak, &ns).unwrap();
        let pt = f.decrypt(&tweak, &ct).unwrap();
        assert_eq!(pt.to_bytes_le(), *bytes);
    }
}

#[test]
fn ff1_encrypt_decrypt_inverse_with_tweak() {
    let f = Ff1::new(key16(), 2).unwrap();
    let tweak: Vec<u8> = vec![1, 2, 3, 4, 5];
    for bytes in &[vec![0u8; 4], vec![1u8, 2, 3, 4], vec![9u8, 9, 9], vec![0x42; 6]] {
        let ns = NumeralString::from_bytes_le(bytes);
        let ct = f.encrypt(&tweak, &ns).unwrap();
        let pt = f.decrypt(&tweak, &ct).unwrap();
        assert_eq!(pt.to_bytes_le(), *bytes);
    }
}

#[test]
fn ff1_decrypt_encrypt_inverse() {
    // the inverse holds in both directions: an arbitrary ciphertext,
    // decrypted and encrypted again, comes back unchanged
    let f = Ff1::new(key16(), 2).unwrap();
    let tweak: Vec<u8> = Vec::new();
    for bytes in &[vec![0u8; 4], vec![0x13u8, 0x37, 0x00, 0xFE], vec![0xFF; 4], vec![8u8; 5]] {
        let ct = NumeralString::from_bytes_le(bytes);
        let pt = f.decrypt(&tweak, &ct).unwrap();
        let back = f.encrypt(&tweak, &pt).unwrap();
        assert_eq!(back.to_bytes_le(), *bytes);
    }
}

#[test]
fn ff1_odd_digit_count_round_trip() {
    // an odd digit count splits into unequal halves; the inverse holds
    // there too
    let f = Ff1::new(key16(), 2).unwrap();
    let tweak: Vec<u8> = Vec::new();
    let mut bits: Vec<bool> = Vec::new();
    for j in 0..21usize {
        bits.push(j % 3 == 0);
    }
    let ns = NumeralString::from_bits(bits.clone());
    let ct = f.encrypt(&tweak, &ns).unwrap();
    assert_eq!(ct.len(), 21);
    let pt = f.decrypt(&tweak, &ct).unwrap();
    assert_eq!(pt.len(), 21);
    for (j, &b) in bits.iter().enumerate() {
        assert_eq!(pt.bit(j), b);
    }
}

#[test]
fn ff1_tweak_separates_ciphertexts() {
    let f = Ff1::new(key16(), 2).unwrap();
    let empty: Vec<u8> = Vec::new();
    let tweak: Vec<u8> = vec![77];
    let ns = NumeralString::from_bytes_le(&vec![1u8, 2, 3, 4]);
    let a = f.encrypt(&empty, &ns).unwrap().to_bytes_le();
    let b = f.encrypt(&tweak, &ns).unwrap().to_bytes_le();
    assert_ne!(a, b);
}

#[test]
fn numeral_string_bytes_round_trip() {
    for bytes in &[vec![], vec![0u8], vec![255u8, 0, 127, 64], vec![1u8, 2, 3, 4, 5, 6, 7, 8]] {
        let ns = NumeralString::from_bytes_le(bytes);
        assert_eq!(ns.len(), bytes.len() * 8);
        assert_eq!(ns.to_bytes_le(), *bytes);
    }
}

#[test]
fn integer_codec_round_trip() {
    for &x in &[0, 1, -1, 12345, -12345, 2147483647, -2147483648] {
        let ns = int_to_numeral_string(x);
        assert_eq!(ns.len(), 32);
        assert_eq!(numeral_string_to_int(&ns), x);
    }
}

#[test]
fn integer_codec_exact_bytes() {
    // the little-endian pattern is exact: -1 is all ones, 0x01020304 is
    // written low byte first
    assert_eq!(int_to_numeral_string(-1).to_bytes_le(), vec![255u8; 4]);
    assert_eq!(int_to_numeral_string(0).to_bytes_le(), vec![0u8; 4]);
    assert_eq!(int_to_numeral_string(0x01020304).to_bytes_le(), vec![4u8, 3, 2, 1]);
    assert_eq!(int_to_numeral_string(256).to_bytes_le(), vec![0u8, 1, 0, 0]);
}

#[test]
fn golden_display_strings() {
    // pinned outputs under the all-zero key; they change if the block
    // cipher or the text encoder stops being the real thing
    let c = cryptids::Cryptids::new(vec![0u8; 16]).unwrap();
    assert_eq!(c.i2s(0), "3bCcuU");
    assert_eq!(c.i2s(1), "3RVv6v");
    assert_eq!(c.i2s(12345), "6pqe5d");
    assert_eq!(c.i2s(-1), "3rNNk2");
    assert_eq!(c.s2i("3bCcuU"), Ok(0));
    assert_eq!(c.s2i("6pqe5d"), Ok(12345));
}

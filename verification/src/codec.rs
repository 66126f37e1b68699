use vstd::prelude::*;

use vstd::arithmetic::div_mod::lemma_div_denominator;
use vstd::arithmetic::div_mod::lemma_fundamental_div_mod;
use vstd::arithmetic::div_mod::lemma_small_mod;

use crate::numeral::bits_of_bytes_le;
use crate::numeral::bytes_of_bits_le;
use crate::numeral::NumeralString;

verus! {

/// The four little-endian bytes of a 32-bit word.
pub open spec fn le4_of_u32(w: u32) -> Seq<u8> {
    seq![
        ((w % 256) as u8),
        (((w / 0x100) % 256) as u8),
        (((w / 0x10000) % 256) as u8),
        (((w / 0x1000000) % 256) as u8),
    ]
}

/// The value of four little-endian bytes as a 32-bit word.
pub open spec fn u32_of_le4(b: Seq<u8>) -> nat {
    (b[0] as nat) + 0x100 * (b[1] as nat) + 0x10000 * (b[2] as nat) + 0x1000000 * (b[3] as nat)
}

/// Recomposing the four little-endian bytes of a word gives the word.
pub proof fn lemma_le4_round_trip(w: u32)
    ensures
        u32_of_le4(le4_of_u32(w)) == w as nat,
{
    let x = w as int;
    lemma_fundamental_div_mod(x, 256);
    lemma_fundamental_div_mod(x / 256, 256);
    lemma_fundamental_div_mod(x / 0x10000, 256);
    lemma_div_denominator(x, 256, 256);
    lemma_div_denominator(x, 0x10000, 256);
    assert(x / 0x10000 == (x / 256) / 256);
    assert(x / 0x1000000 == (x / 0x10000) / 256);
    assert(x / 0x1000000 < 256) by {
        lemma_div_denominator(x, 0x1000000, 256);
    }
    lemma_small_mod((x / 0x1000000) as nat, 256);
}

/// Writes the integer's 32-bit pattern as a four-byte little-endian
/// buffer, expanded into a 32-digit binary numeral string. Total and
/// lossless for every bit pattern, negative values included.
pub fn int_to_numeral_string(i: i32) -> (r: NumeralString)
    ensures
        r@ == bits_of_bytes_le(le4_of_u32(i as u32)),
        r@.len() == 32,
{
    let w: u32 = #[verifier::truncate] (i as u32);
    let mut bytes: Vec<u8> = Vec::new();
    bytes.push((w % 256) as u8);
    bytes.push(((w / 0x100) % 256) as u8);
    bytes.push(((w / 0x10000) % 256) as u8);
    bytes.push(((w / 0x1000000) % 256) as u8);
    proof {
        assert(bytes@ =~= le4_of_u32(i as u32));
    }
    NumeralString::from_bytes_le(&bytes)
}

/// Reads a 32-digit numeral string back as the 32-bit integer whose
/// little-endian byte pattern it carries: the exact inverse of
/// `int_to_numeral_string`.
pub fn numeral_string_to_int(ns: &NumeralString) -> (r: i32)
    requires
        ns@.len() == 32,
    ensures
        r == (u32_of_le4(bytes_of_bits_le(ns@)) as u32) as i32,
{
    let bytes = ns.to_bytes_le();
    let w: u32 = (bytes[0] as u32) + 0x100 * (bytes[1] as u32) + 0x10000 * (bytes[2] as u32)
        + 0x1000000 * (bytes[3] as u32);
    #[verifier::truncate] (w as i32)
}

} // verus!

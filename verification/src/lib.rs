use vstd::prelude::*;

pub mod base58;
pub mod block_cipher;
pub mod codec;
pub mod error;
pub mod ff1;
pub mod numeral;

use vstd::pervasive::unreached;

use crate::base58::b58_decode;
use crate::base58::b58_encode;
use crate::base58::b58_of;
use crate::base58::is_b58_char;
use crate::codec::int_to_numeral_string;
use crate::codec::le4_of_u32;
use crate::codec::lemma_le4_round_trip;
use crate::codec::numeral_string_to_int;
use crate::codec::u32_of_le4;
use crate::error::Error;
use crate::ff1::ff1_dec;
use crate::ff1::ff1_enc;
use crate::ff1::lemma_ff1_round_trip;
use crate::ff1::Ff1;
use crate::numeral::bits_of_bytes_le;
use crate::numeral::bytes_of_bits_le;
use crate::numeral::lemma_bits_of_bytes_of_bits;
use crate::numeral::lemma_bytes_of_bits_of_bytes;
use crate::numeral::NumeralString;

verus! {

/// The raw ciphertext bytes behind the display string of an integer: its
/// little-endian bit pattern, encrypted by the cipher under the empty
/// tweak, packed back into bytes.
pub open spec fn i2s_bytes(key: Seq<u8>, x: i32) -> Seq<u8> {
    bytes_of_bits_le(ff1_enc(key, Seq::<u8>::empty(), bits_of_bytes_le(le4_of_u32(x as u32))))
}

/// The integer recovered from raw ciphertext bytes: decrypted under the
/// empty tweak and read back as a little-endian 32-bit pattern.
pub open spec fn s2i_int(key: Seq<u8>, ct: Seq<u8>) -> i32 {
    (u32_of_le4(bytes_of_bits_le(ff1_dec(key, Seq::<u8>::empty(), bits_of_bytes_le(ct)))) as u32) as i32
}

/// Round trip: for every 16-byte key and every 32-bit integer, the raw
/// ciphertext is exactly four bytes, and decrypting it recovers the
/// integer. This is the heart of `s2i(i2s(x)) == x`.
pub proof fn lemma_round_trip(key: Seq<u8>, x: i32)
    requires
        key.len() == 16,
    ensures
        i2s_bytes(key, x).len() == 4,
        s2i_int(key, i2s_bytes(key, x)) == x,
{
    let w = x as u32;
    let le = le4_of_u32(w);
    let bits = bits_of_bytes_le(le);
    let tweak = Seq::<u8>::empty();
    let e = ff1_enc(key, tweak, bits);
    assert(bits.len() == 32);
    assert(e.len() == 32);
    lemma_ff1_round_trip(key, tweak, bits);
    lemma_bits_of_bytes_of_bits(e);
    lemma_bytes_of_bits_of_bytes(le);
    lemma_le4_round_trip(w);
    assert((x as u32) as i32 == x) by (bit_vector);
}

/// Injectivity of the keyed permutation: two distinct integers never
/// share a raw ciphertext, so no two distinct integers share a display
/// string either.
pub proof fn lemma_injective(key: Seq<u8>, x1: i32, x2: i32)
    requires
        key.len() == 16,
        x1 != x2,
    ensures
        i2s_bytes(key, x1) != i2s_bytes(key, x2),
{
    if i2s_bytes(key, x1) == i2s_bytes(key, x2) {
        lemma_round_trip(key, x1);
        lemma_round_trip(key, x2);
    }
}

/// One keyed cipher behind a pair of string conversions: `i2s` turns a
/// 32-bit integer into an opaque base-58 display string, and `s2i`
/// turns such a string back into the integer it came from.
pub struct Cryptids {
    cipher: Ff1,
}

impl Cryptids {
    /// A facade is well formed when its cipher holds a full key.
    pub closed spec fn wf(&self) -> bool {
        self.cipher.wf()
    }

    /// The key bytes the facade was constructed with.
    pub closed spec fn key(&self) -> Seq<u8> {
        self.cipher.key_bytes()
    }

    /// Builds the facade around one radix-2 cipher keyed with the given
    /// bytes; only a 16-byte key is supported.
    pub fn new(key: Vec<u8>) -> (r: Result<Cryptids, Error>)
        ensures
            r is Ok <==> key@.len() == 16,
            r matches Ok(c) ==> c.wf() && c.key() == key@,
            r matches Err(e) ==> e == Error::KeyLength,
    {
        match Ff1::new(key, 2) {
            Ok(f) => Ok(Cryptids { cipher: f }),
            Err(e) => Err(e),
        }
    }

    /// Encrypts an integer into its display string. The string is the
    /// base-58 encoding of the four raw ciphertext bytes, so every one
    /// of its characters lies in the 58-character alphabet, and it is
    /// a fixed function of the key and the integer alone.
    pub fn i2s(&self, i: i32) -> (r: String)
        requires
            self.wf(),
        ensures
            r@ == b58_of(i2s_bytes(self.key(), i)),
            forall|j: int| 0 <= j < r@.len() ==> is_b58_char(r@[j]),
            r@.len() <= 6,
            i2s_bytes(self.key(), i).len() == 4,
    {
        let ns = int_to_numeral_string(i);
        let tweak: Vec<u8> = Vec::new();
        let ct = match self.cipher.encrypt(&tweak, &ns) {
            Ok(c) => c,
            Err(_) => unreached(),
        };
        let bytes = ct.to_bytes_le();
        proof {
            assert(tweak@ =~= Seq::<u8>::empty());
            assert(bytes@ == i2s_bytes(self.key(), i));
        }
        b58_encode(&bytes)
    }

    /// Decrypts a display string back into its integer. A string with a
    /// character outside the alphabet is rejected as `InvalidEncoding`;
    /// a well-formed string that does not decode to exactly four bytes
    /// is rejected as `CiphertextWidth`; the string of any four-byte
    /// ciphertext comes back as the integer that ciphertext decrypts to.
    pub fn s2i(&self, s: &str) -> (r: Result<i32, Error>)
        requires
            self.wf(),
        ensures
            (r == Err::<i32, Error>(Error::InvalidEncoding)) <==> (exists|j: int|
                0 <= j < s@.len() && !is_b58_char(s@[j])),
            forall|b: Seq<u8>|
                (#[trigger] b58_of(b)) == s@ && b.len() == 4 && (forall|j: int|
                    0 <= j < s@.len() ==> is_b58_char(s@[j])) ==> r == Ok::<i32, Error>(
                    s2i_int(self.key(), b),
                ),
            r matches Ok(v) ==> exists|b: Seq<u8>|
                #[trigger] b58_of(b) == s@ && b.len() == 4 && v == s2i_int(self.key(), b),
            r matches Err(e) ==> e == Error::InvalidEncoding || e == Error::CiphertextWidth,
            r == Err::<i32, Error>(Error::CiphertextWidth) ==> forall|b: Seq<u8>|
                #[trigger] b58_of(b) == s@ ==> b.len() != 4,
    {
        let bytes = match b58_decode(s) {
            Some(b) => b,
            None => {
                return Err(Error::InvalidEncoding);
            },
        };
        if bytes.len() != 4 {
            return Err(Error::CiphertextWidth);
        }
        let ns = NumeralString::from_bytes_le(&bytes);
        let tweak: Vec<u8> = Vec::new();
        let pt = match self.cipher.decrypt(&tweak, &ns) {
            Ok(c) => c,
            Err(_) => unreached(),
        };
        proof {
            assert(tweak@ =~= Seq::<u8>::empty());
        }
        Ok(numeral_string_to_int(&pt))
    }
}

} // verus!

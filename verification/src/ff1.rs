use vstd::prelude::*;

use vstd::arithmetic::div_mod::lemma_add_mod_noop;
use vstd::arithmetic::div_mod::lemma_add_mod_noop_right;
use vstd::arithmetic::div_mod::lemma_fundamental_div_mod;
use vstd::arithmetic::div_mod::lemma_mod_bound;
use vstd::arithmetic::div_mod::lemma_mod_multiples_vanish;
use vstd::arithmetic::div_mod::lemma_small_mod;
use vstd::arithmetic::div_mod::lemma_sub_mod_noop;
use vstd::arithmetic::div_mod::lemma_sub_mod_noop_right;
use vstd::arithmetic::power2::lemma2_to64;
use vstd::arithmetic::power2::lemma2_to64_rest;
use vstd::arithmetic::power2::lemma_pow2_adds;
use vstd::arithmetic::power2::lemma_pow2_pos;
use vstd::arithmetic::power2::lemma_pow2_strictly_increases;
use vstd::arithmetic::power2::lemma_pow2_unfold;
use vstd::arithmetic::power2::pow2;

use crate::block_cipher::aes_block_of;
use crate::block_cipher::aes_encrypt_block;
use crate::error::Error;
use crate::numeral::bits_of_val;
use crate::numeral::bits_range_val;
use crate::numeral::bits_val;
use crate::numeral::lemma_bits_of_val_of_bits;
use crate::numeral::lemma_bits_val_bound;
use crate::numeral::lemma_bits_val_of_bits_of_val;
use crate::numeral::ns_concat;
use crate::numeral::val_to_bits;
use crate::numeral::NumeralString;

verus! {

/// The fixed number of Feistel rounds.
pub open spec fn round_count() -> nat {
    10
}

/// Pointwise exclusive or of two 16-byte blocks.
pub open spec fn xor16(a: Seq<u8>, b: Seq<u8>) -> Seq<u8> {
    Seq::new(16, |j: int| a[j] ^ b[j])
}

/// Cipher-block chaining over the 16-byte chunks of `q`, starting from
/// the block `x0`: each chunk is xored in and the result encrypted.
pub open spec fn prf_chain(key: Seq<u8>, x0: Seq<u8>, q: Seq<u8>, c: nat) -> Seq<u8>
    decreases c,
{
    if c == 0 {
        x0
    } else {
        aes_block_of(
            key,
            xor16(
                prf_chain(key, x0, q, (c - 1) as nat),
                q.subrange(16 * (c - 1) as int, 16 * c as int),
            ),
        )
    }
}

/// Big-endian value of a byte sequence.
pub open spec fn be_val(s: Seq<u8>) -> nat
    decreases s.len(),
{
    if s.len() == 0 {
        0
    } else {
        be_val(s.drop_last()) * 256 + (s.last() as nat)
    }
}

/// Big-endian byte string, `len` bytes long, of a value.
pub open spec fn be_bytes(v: nat, len: nat) -> Seq<u8> {
    Seq::new(len, |k: int| (((v / pow2((8 * (len - 1 - k)) as nat)) % 256) as u8))
}

/// How many bytes carry the value of a half of `v` digits.
pub open spec fn half_byte_len(v: nat) -> nat {
    (v + 7) / 8
}

/// The first block of a round's input: the radix (2, three big-endian
/// bytes), the split size, the round count, the total digit count and
/// the tweak length, laid out as the standard's fixed block.
pub open spec fn p_block(u: nat, n: nat, t: nat) -> Seq<u8> {
    seq![
        1u8,
        2u8,
        1u8,
        0u8,
        0u8,
        2u8,
        10u8,
        ((u % 256) as u8),
        (((n / 0x1000000) % 256) as u8),
        (((n / 0x10000) % 256) as u8),
        (((n / 0x100) % 256) as u8),
        ((n % 256) as u8),
        (((t / 0x1000000) % 256) as u8),
        (((t / 0x10000) % 256) as u8),
        (((t / 0x100) % 256) as u8),
        ((t % 256) as u8),
    ]
}

/// Zero padding that brings the tweak, the round byte and the value
/// bytes up to a multiple of the block size.
pub open spec fn q_pad(t: nat, b: nat) -> nat {
    ((16 - ((t + b + 1) % 16)) % 16) as nat
}

/// The rest of a round's input: the tweak, zero padding, the round
/// index, and the value of the active half as big-endian bytes.
pub open spec fn q_block(tweak: Seq<u8>, b: nat, i: nat, bval: nat) -> Seq<u8> {
    tweak + Seq::new(q_pad(tweak.len(), b), |j: int| 0u8) + seq![((i % 256) as u8)] + be_bytes(
        bval,
        b,
    )
}

/// The pseudorandom block a round derives from the key, the tweak, the
/// round index and the value of the active half.
pub open spec fn round_r(
    key: Seq<u8>,
    tweak: Seq<u8>,
    n: nat,
    u: nat,
    i: nat,
    b: nat,
    bval: nat,
) -> Seq<u8> {
    let p = p_block(u, n, tweak.len());
    let q = q_block(tweak, b, i, bval);
    prf_chain(key, aes_block_of(key, p), q, q.len() / 16)
}

/// The round integer: the big-endian value of the first eight bytes of
/// the round's pseudorandom block.
pub open spec fn round_y(
    key: Seq<u8>,
    tweak: Seq<u8>,
    n: nat,
    u: nat,
    v: nat,
    i: nat,
    bval: nat,
) -> nat {
    be_val(round_r(key, tweak, n, u, i, half_byte_len(v), bval).take(8))
}

/// One encryption round: the right half moves left, and the left half
/// plus the round integer, reduced modulo the active half's domain,
/// becomes the new right half.
pub open spec fn enc_round(
    key: Seq<u8>,
    tweak: Seq<u8>,
    n: nat,
    u: nat,
    v: nat,
    i: nat,
    st: (nat, nat),
) -> (nat, nat) {
    let m = if i % 2 == 0 {
        u
    } else {
        v
    };
    (st.1, ((st.0 + round_y(key, tweak, n, u, v, i, st.1)) % pow2(m)))
}

/// The state after the first `k` encryption rounds.
pub open spec fn enc_rounds(
    key: Seq<u8>,
    tweak: Seq<u8>,
    n: nat,
    u: nat,
    v: nat,
    st: (nat, nat),
    k: nat,
) -> (nat, nat)
    decreases k,
{
    if k == 0 {
        st
    } else {
        enc_round(key, tweak, n, u, v, (k - 1) as nat, enc_rounds(key, tweak, n, u, v, st, (k - 1) as nat))
    }
}

/// One decryption round: the inverse of the encryption round with the
/// same index.
pub open spec fn dec_round(
    key: Seq<u8>,
    tweak: Seq<u8>,
    n: nat,
    u: nat,
    v: nat,
    i: nat,
    st: (nat, nat),
) -> (nat, nat) {
    let m = if i % 2 == 0 {
        u
    } else {
        v
    };
    let c = (st.1 - round_y(key, tweak, n, u, v, i, st.0)) % (pow2(m) as int);
    (c as nat, st.0)
}

/// The state after decryption rounds `k - 1` down to `0`.
pub open spec fn dec_rounds(
    key: Seq<u8>,
    tweak: Seq<u8>,
    n: nat,
    u: nat,
    v: nat,
    st: (nat, nat),
    k: nat,
) -> (nat, nat)
    decreases k,
{
    if k == 0 {
        st
    } else {
        dec_rounds(key, tweak, n, u, v, dec_round(key, tweak, n, u, v, (k - 1) as nat, st), (k - 1) as nat)
    }
}

/// The whole cipher on a numeral string: split in half, run the rounds,
/// write both halves back as digits.
pub open spec fn ff1_enc(key: Seq<u8>, tweak: Seq<u8>, x: Seq<bool>) -> Seq<bool> {
    let n = x.len();
    let u = n / 2;
    let v = (n - u) as nat;
    let st0 = (bits_val(x.take(u as int)), bits_val(x.skip(u as int)));
    let st = enc_rounds(key, tweak, n, u, v, st0, round_count());
    bits_of_val(st.0, u) + bits_of_val(st.1, v)
}

/// The inverse cipher on a numeral string.
pub open spec fn ff1_dec(key: Seq<u8>, tweak: Seq<u8>, x: Seq<bool>) -> Seq<bool> {
    let n = x.len();
    let u = n / 2;
    let v = (n - u) as nat;
    let st0 = (bits_val(x.take(u as int)), bits_val(x.skip(u as int)));
    let st = dec_rounds(key, tweak, n, u, v, st0, round_count());
    bits_of_val(st.0, u) + bits_of_val(st.1, v)
}

/// After `k` rounds each half still lies inside its domain; the halves'
/// widths swap with the parity of `k`.
pub proof fn lemma_enc_rounds_bounds(
    key: Seq<u8>,
    tweak: Seq<u8>,
    n: nat,
    u: nat,
    v: nat,
    st: (nat, nat),
    k: nat,
)
    requires
        st.0 < pow2(u),
        st.1 < pow2(v),
    ensures
        enc_rounds(key, tweak, n, u, v, st, k).0 < pow2(
            if k % 2 == 0 {
                u
            } else {
                v
            },
        ),
        enc_rounds(key, tweak, n, u, v, st, k).1 < pow2(
            if k % 2 == 0 {
                v
            } else {
                u
            },
        ),
    decreases k,
{
    if k > 0 {
        lemma_enc_rounds_bounds(key, tweak, n, u, v, st, (k - 1) as nat);
        let m = if (k - 1) as nat % 2 == 0 {
            u
        } else {
            v
        };
        lemma_pow2_pos(m);
        let prev = enc_rounds(key, tweak, n, u, v, st, (k - 1) as nat);
        lemma_mod_bound(
            (prev.0 + round_y(key, tweak, n, u, v, (k - 1) as nat, prev.1)) as int,
            pow2(m) as int,
        );
    }
}

/// A decryption round undoes the encryption round with the same index.
pub proof fn lemma_round_inverse(
    key: Seq<u8>,
    tweak: Seq<u8>,
    n: nat,
    u: nat,
    v: nat,
    i: nat,
    st: (nat, nat),
)
    requires
        st.0 < pow2(
            if i % 2 == 0 {
                u
            } else {
                v
            },
        ),
    ensures
        dec_round(key, tweak, n, u, v, i, enc_round(key, tweak, n, u, v, i, st)) == st,
{
    let m = if i % 2 == 0 {
        u
    } else {
        v
    };
    lemma_pow2_pos(m);
    let mp = pow2(m) as int;
    let y = round_y(key, tweak, n, u, v, i, st.1) as int;
    let a = st.0 as int;
    let bb = st.1 as int;
    let e = enc_round(key, tweak, n, u, v, i, st);
    assert(e.0 == bb && e.1 == (a + y) % mp);
    lemma_mod_bound(a + y, mp);
    lemma_sub_mod_noop_right((a + y) % mp, y, mp);
    lemma_sub_mod_noop(a + y, y, mp);
    lemma_mod_bound(a + y - y, mp);
    lemma_small_mod(st.0, pow2(m));
    assert(((a + y) % mp - y) % mp == a);
    assert(dec_round(key, tweak, n, u, v, i, e).0 == a);
    assert(dec_round(key, tweak, n, u, v, i, e).1 == bb);
}

/// Running the decryption rounds on the output of the encryption rounds
/// restores the starting state.
pub proof fn lemma_rounds_inverse(
    key: Seq<u8>,
    tweak: Seq<u8>,
    n: nat,
    u: nat,
    v: nat,
    st: (nat, nat),
    k: nat,
)
    requires
        st.0 < pow2(u),
        st.1 < pow2(v),
    ensures
        dec_rounds(key, tweak, n, u, v, enc_rounds(key, tweak, n, u, v, st, k), k) == st,
    decreases k,
{
    if k > 0 {
        let prev = enc_rounds(key, tweak, n, u, v, st, (k - 1) as nat);
        lemma_enc_rounds_bounds(key, tweak, n, u, v, st, (k - 1) as nat);
        lemma_round_inverse(key, tweak, n, u, v, (k - 1) as nat, prev);
        lemma_rounds_inverse(key, tweak, n, u, v, st, (k - 1) as nat);
    }
}

/// An encryption round undoes the decryption round with the same index.
pub proof fn lemma_round_inverse_rev(
    key: Seq<u8>,
    tweak: Seq<u8>,
    n: nat,
    u: nat,
    v: nat,
    i: nat,
    st: (nat, nat),
)
    requires
        st.1 < pow2(
            if i % 2 == 0 {
                u
            } else {
                v
            },
        ),
    ensures
        enc_round(key, tweak, n, u, v, i, dec_round(key, tweak, n, u, v, i, st)) == st,
{
    let m = if i % 2 == 0 {
        u
    } else {
        v
    };
    lemma_pow2_pos(m);
    let mp = pow2(m) as int;
    let y = round_y(key, tweak, n, u, v, i, st.0) as int;
    let a = st.0 as int;
    let bb = st.1 as int;
    let d = dec_round(key, tweak, n, u, v, i, st);
    lemma_mod_bound(bb - y, mp);
    assert(d.0 == (bb - y) % mp && d.1 == a);
    lemma_add_mod_noop_right((bb - y) % mp, y, mp);
    lemma_add_mod_noop(bb - y, y, mp);
    lemma_mod_bound(bb - y + y, mp);
    lemma_small_mod(st.1, pow2(m));
    lemma_small_mod((((bb - y) % mp) as nat), pow2(m));
    assert(((bb - y) % mp + y) % mp == bb);
    assert(enc_round(key, tweak, n, u, v, i, d).0 == a);
    assert(enc_round(key, tweak, n, u, v, i, d).1 == bb);
}

/// Running the encryption rounds on the output of the decryption rounds
/// restores the starting state.
pub proof fn lemma_rounds_inverse_rev(
    key: Seq<u8>,
    tweak: Seq<u8>,
    n: nat,
    u: nat,
    v: nat,
    st: (nat, nat),
    k: nat,
)
    requires
        st.0 < pow2(
            if k % 2 == 0 {
                u
            } else {
                v
            },
        ),
        st.1 < pow2(
            if k % 2 == 0 {
                v
            } else {
                u
            },
        ),
    ensures
        enc_rounds(key, tweak, n, u, v, dec_rounds(key, tweak, n, u, v, st, k), k) == st,
    decreases k,
{
    if k > 0 {
        let i = (k - 1) as nat;
        let m = if i % 2 == 0 {
            u
        } else {
            v
        };
        lemma_pow2_pos(m);
        let s1 = dec_round(key, tweak, n, u, v, i, st);
        lemma_mod_bound(
            st.1 as int - round_y(key, tweak, n, u, v, i, st.0) as int,
            pow2(m) as int,
        );
        lemma_round_inverse_rev(key, tweak, n, u, v, i, st);
        lemma_rounds_inverse_rev(key, tweak, n, u, v, s1, i);
    }
}

/// After the remaining decryption rounds both halves lie back inside
/// their original domains.
pub proof fn lemma_dec_rounds_bounds(
    key: Seq<u8>,
    tweak: Seq<u8>,
    n: nat,
    u: nat,
    v: nat,
    st: (nat, nat),
    k: nat,
)
    requires
        st.0 < pow2(
            if k % 2 == 0 {
                u
            } else {
                v
            },
        ),
        st.1 < pow2(
            if k % 2 == 0 {
                v
            } else {
                u
            },
        ),
    ensures
        dec_rounds(key, tweak, n, u, v, st, k).0 < pow2(u),
        dec_rounds(key, tweak, n, u, v, st, k).1 < pow2(v),
    decreases k,
{
    if k > 0 {
        let i = (k - 1) as nat;
        let m = if i % 2 == 0 {
            u
        } else {
            v
        };
        lemma_pow2_pos(m);
        let s1 = dec_round(key, tweak, n, u, v, i, st);
        lemma_mod_bound(
            st.1 as int - round_y(key, tweak, n, u, v, i, st.0) as int,
            pow2(m) as int,
        );
        lemma_dec_rounds_bounds(key, tweak, n, u, v, s1, i);
    }
}

/// Encrypting a decrypted numeral string gives the string back: encrypt
/// and decrypt are exact inverses in both directions.
pub proof fn lemma_ff1_round_trip_rev(key: Seq<u8>, tweak: Seq<u8>, x: Seq<bool>)
    ensures
        ff1_enc(key, tweak, ff1_dec(key, tweak, x)) == x,
{
    let n = x.len();
    let u = n / 2;
    let v = (n - u) as nat;
    let a0 = bits_val(x.take(u as int));
    let b0 = bits_val(x.skip(u as int));
    lemma_bits_val_bound(x.take(u as int));
    lemma_bits_val_bound(x.skip(u as int));
    let st1 = dec_rounds(key, tweak, n, u, v, (a0, b0), round_count());
    lemma_dec_rounds_bounds(key, tweak, n, u, v, (a0, b0), round_count());
    let d = ff1_dec(key, tweak, x);
    assert(d == bits_of_val(st1.0, u) + bits_of_val(st1.1, v));
    assert(d.len() == n);
    assert(d.take(u as int) =~= bits_of_val(st1.0, u));
    assert(d.skip(u as int) =~= bits_of_val(st1.1, v));
    lemma_bits_val_of_bits_of_val(st1.0, u);
    lemma_bits_val_of_bits_of_val(st1.1, v);
    lemma_rounds_inverse_rev(key, tweak, n, u, v, (a0, b0), round_count());
    assert(enc_rounds(key, tweak, n, u, v, st1, round_count()) == (a0, b0));
    lemma_bits_of_val_of_bits(x.take(u as int));
    lemma_bits_of_val_of_bits(x.skip(u as int));
    assert(ff1_enc(key, tweak, d) == x.take(u as int) + x.skip(u as int));
    assert(x.take(u as int) + x.skip(u as int) =~= x);
}

/// Decrypting an encrypted numeral string gives the string back, for
/// every key, every tweak and every digit count.
pub proof fn lemma_ff1_round_trip(key: Seq<u8>, tweak: Seq<u8>, x: Seq<bool>)
    ensures
        ff1_dec(key, tweak, ff1_enc(key, tweak, x)) == x,
{
    let n = x.len();
    let u = n / 2;
    let v = (n - u) as nat;
    let a0 = bits_val(x.take(u as int));
    let b0 = bits_val(x.skip(u as int));
    lemma_bits_val_bound(x.take(u as int));
    lemma_bits_val_bound(x.skip(u as int));
    let st1 = enc_rounds(key, tweak, n, u, v, (a0, b0), round_count());
    lemma_enc_rounds_bounds(key, tweak, n, u, v, (a0, b0), round_count());
    let e = ff1_enc(key, tweak, x);
    assert(e == bits_of_val(st1.0, u) + bits_of_val(st1.1, v));
    assert(e.len() == n);
    assert(e.take(u as int) =~= bits_of_val(st1.0, u));
    assert(e.skip(u as int) =~= bits_of_val(st1.1, v));
    lemma_bits_val_of_bits_of_val(st1.0, u);
    lemma_bits_val_of_bits_of_val(st1.1, v);
    lemma_rounds_inverse(key, tweak, n, u, v, (a0, b0), round_count());
    assert(dec_rounds(key, tweak, n, u, v, st1, round_count()) == (a0, b0));
    lemma_bits_of_val_of_bits(x.take(u as int));
    lemma_bits_of_val_of_bits(x.skip(u as int));
    assert(ff1_dec(key, tweak, e) == x.take(u as int) + x.skip(u as int));
    assert(x.take(u as int) + x.skip(u as int) =~= x);
}

/// `2^e` as a machine word.
fn pow2_u64(e: usize) -> (r: u64)
    requires
        e <= 63,
    ensures
        r as nat == pow2(e as nat),
{
    let mut r: u64 = 1;
    let mut j: usize = 0;
    proof {
        lemma2_to64();
    }
    while j < e
        invariant
            j <= e <= 63,
            r as nat == pow2(j as nat),
        decreases e - j,
    {
        proof {
            lemma_pow2_unfold((j + 1) as nat);
            if j + 1 < 64 {
                lemma_pow2_strictly_increases((j + 1) as nat, 64);
            }
            lemma2_to64();
            lemma2_to64_rest();
        }
        r = r * 2;
        j += 1;
    }
    r
}

/// The FF1 cipher over radix-2 numeral strings, keyed once at
/// construction with a 128-bit block-cipher key.
pub struct Ff1 {
    key: Vec<u8>,
}

impl Ff1 {
    /// A cipher is well formed when it holds a full 16-byte key.
    pub closed spec fn wf(&self) -> bool {
        self.key@.len() == 16
    }

    /// The key bytes the cipher was built with.
    pub closed spec fn key_bytes(&self) -> Seq<u8> {
        self.key@
    }

    /// Builds a cipher from raw key bytes and a radix. Only 16-byte keys
    /// fit the block cipher, and only radix 2 gives this construction a
    /// safe domain at the digit counts it accepts.
    pub fn new(key: Vec<u8>, radix: u32) -> (r: Result<Ff1, Error>)
        ensures
            r is Ok <==> (key@.len() == 16 && radix == 2),
            r matches Ok(f) ==> f.wf() && f.key_bytes() == key@,
            r matches Err(e) ==> e == (if key@.len() != 16 {
                Error::KeyLength
            } else {
                Error::DomainSize
            }),
    {
        if key.len() != 16 {
            return Err(Error::KeyLength);
        }
        if radix != 2 {
            return Err(Error::DomainSize);
        }
        Ok(Ff1 { key })
    }

    /// Computes the round integer for round `i` with active-half value
    /// `bval`: format the round input, chain it through the block
    /// cipher, and read the first eight bytes as a big-endian number.
    fn round_value(
        &self,
        tweak: &Vec<u8>,
        n: usize,
        u: usize,
        v: usize,
        i: usize,
        bval: u64,
    ) -> (y: u64)
        requires
            self.wf(),
            4 <= n <= 64,
            u == n / 2,
            v == n - u,
            i < 10,
            tweak@.len() <= 0xFFFF_FF00,
            (bval as nat) < pow2(v as nat),
        ensures
            y as nat == round_y(
                self.key_bytes(),
                tweak@,
                n as nat,
                u as nat,
                v as nat,
                i as nat,
                bval as nat,
            ),
    {
        let t = tweak.len();
        let mut p: Vec<u8> = Vec::new();
        p.push(1u8);
        p.push(2u8);
        p.push(1u8);
        p.push(0u8);
        p.push(0u8);
        p.push(2u8);
        p.push(10u8);
        p.push((u % 256) as u8);
        p.push(((n / 0x1000000) % 256) as u8);
        p.push(((n / 0x10000) % 256) as u8);
        p.push(((n / 0x100) % 256) as u8);
        p.push((n % 256) as u8);
        p.push(((t / 0x1000000) % 256) as u8);
        p.push(((t / 0x10000) % 256) as u8);
        p.push(((t / 0x100) % 256) as u8);
        p.push((t % 256) as u8);
        proof {
            assert(p@ =~= p_block(u as nat, n as nat, tweak@.len()));
        }
        let b = (v + 7) / 8;
        let pad = (16 - ((t + b + 1) % 16)) % 16;
        proof {
            assert(b == half_byte_len(v as nat));
            assert(pad == q_pad(tweak@.len(), b as nat));
        }
        let ghost qspec = q_block(tweak@, b as nat, i as nat, bval as nat);
        let mut q: Vec<u8> = Vec::new();
        let mut j: usize = 0;
        while j < t
            invariant
                j <= t,
                t == tweak@.len(),
                q@ == tweak@.take(j as int),
            decreases t - j,
        {
            q.push(tweak[j]);
            proof {
                assert(q@ =~= tweak@.take(j + 1 as int));
            }
            j += 1;
        }
        proof {
            assert(q@ =~= tweak@);
        }
        let mut z: usize = 0;
        while z < pad
            invariant
                z <= pad,
                t == tweak@.len(),
                pad == q_pad(tweak@.len(), b as nat),
                q@ == tweak@ + Seq::new(z as nat, |jj: int| 0u8),
            decreases pad - z,
        {
            q.push(0u8);
            proof {
                assert(q@ =~= tweak@ + Seq::new((z + 1) as nat, |jj: int| 0u8));
            }
            z += 1;
        }
        q.push((i % 256) as u8);
        let ghost qhead = tweak@ + Seq::new(q_pad(tweak@.len(), b as nat), |jj: int| 0u8) + seq![
            ((i as nat % 256) as u8),
        ];
        proof {
            assert(q@ =~= qhead);
        }
        let mut k: usize = 0;
        while k < b
            invariant
                k <= b,
                t == tweak@.len(),
                tweak@.len() <= 0xFFFF_FF00,
                b == half_byte_len(v as nat),
                b <= 8,
                q@ == qhead + be_bytes(bval as nat, b as nat).take(k as int),
            decreases b - k,
        {
            let e = 8 * (b - 1 - k);
            let d = pow2_u64(e);
            proof {
                lemma_pow2_pos(e as nat);
            }
            q.push(((bval / d) % 256) as u8);
            proof {
                assert(be_bytes(bval as nat, b as nat)[k as int] == (((bval as nat / pow2(
                    (8 * (b - 1 - k)) as nat,
                )) % 256) as u8));
                assert(q@ =~= qhead + be_bytes(bval as nat, b as nat).take((k + 1) as int));
            }
            k += 1;
        }
        proof {
            assert(q@ =~= qspec);
        }
        // The block chaining: the total length is a multiple of 16.
        proof {
            let tt = (t + b + 1) as int;
            lemma_fundamental_div_mod(tt, 16);
            let s = tt / 16;
            if tt % 16 == 0 {
                assert((q@.len() as int) == 16 * s);
                lemma_mod_multiples_vanish(s, 0, 16);
            } else {
                assert((q@.len() as int) == 16 * (s + 1));
                lemma_mod_multiples_vanish(s + 1, 0, 16);
            }
            assert(q@.len() % 16 == 0);
        }
        let nblocks = q.len() / 16;
        proof {
            lemma_fundamental_div_mod(q@.len() as int, 16);
        }
        let mut x = aes_encrypt_block(&self.key, &p);
        let mut c: usize = 0;
        while c < nblocks
            invariant
                c <= nblocks,
                nblocks == q@.len() / 16,
                16 * nblocks == q@.len(),
                q@.len() <= usize::MAX,
                self.wf(),
                x@.len() == 16,
                x@ == prf_chain(self.key_bytes(), aes_block_of(self.key_bytes(), p@), q@, c as nat),
            decreases nblocks - c,
        {
            let mut blk: Vec<u8> = Vec::new();
            let mut j2: usize = 0;
            while j2 < 16
                invariant
                    j2 <= 16,
                    c < nblocks,
                    16 * nblocks == q@.len(),
                    q@.len() <= usize::MAX,
                    x@.len() == 16,
                    blk@.len() == j2,
                    forall|jj: int| 0 <= jj < j2 ==> blk@[jj] == (x@[jj] ^ q@[16 * c + jj]),
                decreases 16 - j2,
            {
                blk.push(x[j2] ^ q[16 * c + j2]);
                j2 += 1;
            }
            proof {
                assert(blk@ =~= xor16(x@, q@.subrange(16 * c as int, 16 * (c + 1) as int)));
            }
            x = aes_encrypt_block(&self.key, &blk);
            c += 1;
        }
        let mut y: u64 = 0;
        let mut j3: usize = 0;
        proof {
            assert(x@.take(0) =~= Seq::<u8>::empty());
            lemma2_to64();
        }
        while j3 < 8
            invariant
                j3 <= 8,
                x@.len() == 16,
                y as nat == be_val(x@.take(j3 as int)),
                (y as nat) < pow2((8 * j3) as nat),
            decreases 8 - j3,
        {
            proof {
                assert(x@.take((j3 + 1) as int).drop_last() =~= x@.take(j3 as int));
                lemma_pow2_adds((8 * j3) as nat, 8);
                lemma2_to64();
                lemma2_to64_rest();
                if 8 * j3 + 8 < 64 {
                    lemma_pow2_strictly_increases((8 * j3 + 8) as nat, 64);
                }
            }
            y = y * 256 + (x[j3] as u64);
            j3 += 1;
        }
        proof {
            assert(x@.take(8) == round_r(
                self.key_bytes(),
                tweak@,
                n as nat,
                u as nat,
                i as nat,
                half_byte_len(v as nat),
                bval as nat,
            ).take(8));
        }
        y
    }

    /// Runs the ten encryption rounds on the two half values.
    fn feistel_encrypt(
        &self,
        tweak: &Vec<u8>,
        n: usize,
        u: usize,
        v: usize,
        a0: u64,
        b0: u64,
    ) -> (r: (u64, u64))
        requires
            self.wf(),
            4 <= n <= 64,
            u == n / 2,
            v == n - u,
            tweak@.len() <= 0xFFFF_FF00,
            (a0 as nat) < pow2(u as nat),
            (b0 as nat) < pow2(v as nat),
        ensures
            (r.0 as nat, r.1 as nat) == enc_rounds(
                self.key_bytes(),
                tweak@,
                n as nat,
                u as nat,
                v as nat,
                (a0 as nat, b0 as nat),
                round_count(),
            ),
            (r.0 as nat) < pow2(u as nat),
            (r.1 as nat) < pow2(v as nat),
    {
        let ghost key = self.key_bytes();
        let ghost st0 = (a0 as nat, b0 as nat);
        let mut a = a0;
        let mut b = b0;
        let mut i: usize = 0;
        proof {
            lemma_fundamental_div_mod(n as int, 2);
            assert(u <= v);
        }
        while i < 10
            invariant
                i <= 10,
                self.wf(),
                4 <= n <= 64,
                u == n / 2,
                v == n - u,
                u <= v <= 32,
                tweak@.len() <= 0xFFFF_FF00,
                key == self.key_bytes(),
                st0 == (a0 as nat, b0 as nat),
                (a as nat, b as nat) == enc_rounds(
                    key,
                    tweak@,
                    n as nat,
                    u as nat,
                    v as nat,
                    st0,
                    i as nat,
                ),
                (a as nat) < pow2(
                    if i % 2 == 0 {
                        u as nat
                    } else {
                        v as nat
                    },
                ),
                (b as nat) < pow2(
                    if i % 2 == 0 {
                        v as nat
                    } else {
                        u as nat
                    },
                ),
            decreases 10 - i,
        {
            let m = if i % 2 == 0 {
                u
            } else {
                v
            };
            let mp = pow2_u64(m);
            proof {
                lemma_pow2_pos(m as nat);
                if u < v {
                    lemma_pow2_strictly_increases(u as nat, v as nat);
                }
            }
            let y = self.round_value(tweak, n, u, v, i, b);
            proof {
                lemma_mod_bound(y as int, mp as int);
                lemma_mod_bound((a + y % mp) as int, mp as int);
                if m < 63 {
                    lemma_pow2_strictly_increases(m as nat, 63);
                }
                lemma2_to64();
                lemma2_to64_rest();
            }
            let c = (a + (y % mp)) % mp;
            proof {
                lemma_add_mod_noop_right(a as int, y as int, mp as int);
                lemma_small_mod(a as nat, pow2(m as nat));
            }
            a = b;
            b = c;
            i += 1;
        }
        (a, b)
    }

    /// Runs the ten decryption rounds, from the last back to the first,
    /// on the two half values.
    fn feistel_decrypt(
        &self,
        tweak: &Vec<u8>,
        n: usize,
        u: usize,
        v: usize,
        a0: u64,
        b0: u64,
    ) -> (r: (u64, u64))
        requires
            self.wf(),
            4 <= n <= 64,
            u == n / 2,
            v == n - u,
            tweak@.len() <= 0xFFFF_FF00,
            (a0 as nat) < pow2(u as nat),
            (b0 as nat) < pow2(v as nat),
        ensures
            (r.0 as nat, r.1 as nat) == dec_rounds(
                self.key_bytes(),
                tweak@,
                n as nat,
                u as nat,
                v as nat,
                (a0 as nat, b0 as nat),
                round_count(),
            ),
            (r.0 as nat) < pow2(u as nat),
            (r.1 as nat) < pow2(v as nat),
    {
        let ghost key = self.key_bytes();
        let ghost st0 = (a0 as nat, b0 as nat);
        let mut a = a0;
        let mut b = b0;
        let mut idx: usize = 10;
        proof {
            lemma_fundamental_div_mod(n as int, 2);
            assert(u <= v);
        }
        while idx > 0
            invariant
                idx <= 10,
                self.wf(),
                4 <= n <= 64,
                u == n / 2,
                v == n - u,
                u <= v <= 32,
                tweak@.len() <= 0xFFFF_FF00,
                key == self.key_bytes(),
                st0 == (a0 as nat, b0 as nat),
                dec_rounds(key, tweak@, n as nat, u as nat, v as nat, (a as nat, b as nat), idx as nat)
                    == dec_rounds(key, tweak@, n as nat, u as nat, v as nat, st0, round_count()),
                (a as nat) < pow2(
                    if idx % 2 == 0 {
                        u as nat
                    } else {
                        v as nat
                    },
                ),
                (b as nat) < pow2(
                    if idx % 2 == 0 {
                        v as nat
                    } else {
                        u as nat
                    },
                ),
            decreases idx,
        {
            idx -= 1;
            let m = if idx % 2 == 0 {
                u
            } else {
                v
            };
            let mp = pow2_u64(m);
            proof {
                lemma_pow2_pos(m as nat);
                if u < v {
                    lemma_pow2_strictly_increases(u as nat, v as nat);
                }
            }
            let y = self.round_value(tweak, n, u, v, idx, a);
            proof {
                lemma_mod_bound(y as int, mp as int);
                lemma_mod_bound((b + (mp - y % mp)) as int, mp as int);
                if m < 63 {
                    lemma_pow2_strictly_increases(m as nat, 63);
                }
                lemma2_to64();
                lemma2_to64_rest();
            }
            let c = (b + (mp - (y % mp))) % mp;
            proof {
                lemma_mod_multiples_vanish(1, b as int - (y as int % mp as int), mp as int);
                lemma_sub_mod_noop_right(b as int, y as int, mp as int);
                assert(c as int == (b as int - y as int) % (mp as int));
            }
            b = a;
            a = c;
        }
        (a, b)
    }

    /// Encrypts a numeral string under the given tweak. The digit count
    /// must give the construction a large enough domain and fit the
    /// machine arithmetic: between 20 and 64 digits. The output always
    /// has exactly as many digits as the input.
    pub fn encrypt(&self, tweak: &Vec<u8>, x: &NumeralString) -> (r: Result<NumeralString, Error>)
        requires
            self.wf(),
            tweak@.len() <= 0xFFFF_FF00,
        ensures
            r is Ok <==> (20 <= x@.len() <= 64),
            r matches Ok(c) ==> c@ == ff1_enc(self.key_bytes(), tweak@, x@) && c@.len()
                == x@.len(),
            r matches Err(e) ==> e == Error::DomainSize,
    {
        let n = x.len();
        if n < 20 || n > 64 {
            return Err(Error::DomainSize);
        }
        let u = n / 2;
        let v = n - u;
        let a0 = bits_range_val(x, 0, u);
        let b0 = bits_range_val(x, u, n);
        proof {
            assert(x@.subrange(0, u as int) =~= x@.take(u as int));
            assert(x@.subrange(u as int, n as int) =~= x@.skip(u as int));
            lemma_bits_val_bound(x@.take(u as int));
            lemma_bits_val_bound(x@.skip(u as int));
        }
        let st = self.feistel_encrypt(tweak, n, u, v, a0, b0);
        let left = val_to_bits(st.0, u);
        let right = val_to_bits(st.1, v);
        Ok(ns_concat(left, right))
    }

    /// Decrypts a numeral string under the given tweak: the exact
    /// inverse of `encrypt` for the same key and tweak.
    pub fn decrypt(&self, tweak: &Vec<u8>, x: &NumeralString) -> (r: Result<NumeralString, Error>)
        requires
            self.wf(),
            tweak@.len() <= 0xFFFF_FF00,
        ensures
            r is Ok <==> (20 <= x@.len() <= 64),
            r matches Ok(c) ==> c@ == ff1_dec(self.key_bytes(), tweak@, x@) && c@.len()
                == x@.len(),
            r matches Err(e) ==> e == Error::DomainSize,
    {
        let n = x.len();
        if n < 20 || n > 64 {
            return Err(Error::DomainSize);
        }
        let u = n / 2;
        let v = n - u;
        let a0 = bits_range_val(x, 0, u);
        let b0 = bits_range_val(x, u, n);
        proof {
            assert(x@.subrange(0, u as int) =~= x@.take(u as int));
            assert(x@.subrange(u as int, n as int) =~= x@.skip(u as int));
            lemma_bits_val_bound(x@.take(u as int));
            lemma_bits_val_bound(x@.skip(u as int));
        }
        let st = self.feistel_decrypt(tweak, n, u, v, a0, b0);
        let left = val_to_bits(st.0, u);
        let right = val_to_bits(st.1, v);
        Ok(ns_concat(left, right))
    }
}

} // verus!

use vstd::prelude::*;

use vstd::arithmetic::div_mod::lemma_div_denominator;
use vstd::arithmetic::div_mod::lemma_fundamental_div_mod;
use vstd::arithmetic::div_mod::lemma_fundamental_div_mod_converse;
use vstd::arithmetic::power2::lemma2_to64;
use vstd::arithmetic::power2::lemma2_to64_rest;
use vstd::arithmetic::power2::lemma_pow2_adds;
use vstd::arithmetic::power2::lemma_pow2_pos;
use vstd::arithmetic::power2::lemma_pow2_strictly_increases;
use vstd::arithmetic::power2::lemma_pow2_unfold;
use vstd::arithmetic::power2::pow2;

verus! {

/// Digit `k` of `v` written in binary, where digit `k` carries weight `2^k`.
pub open spec fn bit_of(v: nat, k: nat) -> bool {
    (v / pow2(k)) % 2 == 1
}

/// The value of a radix-2 numeral string; digit 0 is the least significant.
pub open spec fn bits_val(s: Seq<bool>) -> nat
    decreases s.len(),
{
    if s.len() == 0 {
        0
    } else {
        (if s[0] {
            1nat
        } else {
            0nat
        }) + 2 * bits_val(s.skip(1))
    }
}

/// The `m`-digit numeral string of a value.
pub open spec fn bits_of_val(v: nat, m: nat) -> Seq<bool> {
    Seq::new(m, |k: int| bit_of(v, k as nat))
}

/// Expansion of bytes into binary digits, eight per byte, least
/// significant digit of each byte first.
pub open spec fn bits_of_bytes_le(bs: Seq<u8>) -> Seq<bool> {
    Seq::new(bs.len() * 8, |i: int| bit_of(bs[i / 8] as nat, (i % 8) as nat))
}

/// Packing binary digits back into bytes, eight digits per byte.
pub open spec fn bytes_of_bits_le(s: Seq<bool>) -> Seq<u8> {
    Seq::new(s.len() / 8, |i: int| (bits_val(s.subrange(8 * i, 8 * i + 8)) as u8))
}

/// A numeral string never reaches the power of two at its digit count.
pub proof fn lemma_bits_val_bound(s: Seq<bool>)
    ensures
        bits_val(s) < pow2(s.len()),
    decreases s.len(),
{
    if s.len() == 0 {
        lemma2_to64();
    } else {
        lemma_bits_val_bound(s.skip(1));
        lemma_pow2_unfold(s.len());
    }
}

/// Reading digit `k` out of the value of a numeral string gives the
/// string's own digit `k`.
pub proof fn lemma_bit_of_bits_val(s: Seq<bool>, k: nat)
    requires
        k < s.len(),
    ensures
        bit_of(bits_val(s), k) == s[k as int],
    decreases k,
{
    let v = bits_val(s);
    let b0: nat = if s[0] {
        1
    } else {
        0
    };
    let rest = bits_val(s.skip(1));
    assert(v == b0 + 2 * rest);
    lemma_fundamental_div_mod_converse(v as int, 2, rest as int, b0 as int);
    lemma2_to64();
    if k == 0 {
        assert(pow2(0) == 1);
        assert(v / pow2(0) == v);
    } else {
        lemma_bit_of_bits_val(s.skip(1), (k - 1) as nat);
        lemma_pow2_unfold(k);
        lemma_pow2_adds((k - 1) as nat, 1);
        lemma_pow2_pos((k - 1) as nat);
        lemma_div_denominator(v as int, 2, pow2((k - 1) as nat) as int);
        assert(v / pow2(k) == (v / 2) / pow2((k - 1) as nat));
        assert(bit_of(v, k) == bit_of(rest, (k - 1) as nat));
    }
}

/// Turning a numeral string into a value and back gives the string again.
pub proof fn lemma_bits_of_val_of_bits(s: Seq<bool>)
    ensures
        bits_of_val(bits_val(s), s.len()) == s,
{
    assert forall|k: int| 0 <= k < s.len() implies bits_of_val(bits_val(s), s.len())[k] == s[k] by {
        lemma_bit_of_bits_val(s, k as nat);
    }
    assert(bits_of_val(bits_val(s), s.len()) =~= s);
}

/// Turning a value below `2^m` into `m` digits and back gives the value.
pub proof fn lemma_bits_val_of_bits_of_val(v: nat, m: nat)
    requires
        v < pow2(m),
    ensures
        bits_val(bits_of_val(v, m)) == v,
    decreases m,
{
    lemma2_to64();
    if m == 0 {
        assert(pow2(0) == 1);
        assert(bits_of_val(v, m).len() == 0);
    } else {
        let s = bits_of_val(v, m);
        lemma_fundamental_div_mod(v as int, 2);
        let q = v / 2;
        let r = v % 2;
        assert forall|k: int| 0 <= k < m - 1 implies s.skip(1)[k] == bits_of_val(
            q,
            (m - 1) as nat,
        )[k] by {
            lemma_pow2_adds(k as nat, 1);
            assert(pow2(1) == 2);
            lemma_pow2_pos(k as nat);
            lemma_div_denominator(v as int, 2, pow2(k as nat) as int);
            assert(v / pow2((k + 1) as nat) == (v / 2) / pow2(k as nat));
        }
        assert(s.skip(1) =~= bits_of_val(q, (m - 1) as nat));
        lemma_pow2_unfold(m);
        assert(2 * q <= v);
        assert(q < pow2((m - 1) as nat));
        lemma_bits_val_of_bits_of_val(q, (m - 1) as nat);
        assert(pow2(0) == 1);
        assert(v / pow2(0) == v);
        assert(s[0] == (r == 1));
        assert(bits_val(s) == (if s[0] {
            1nat
        } else {
            0nat
        }) + 2 * q);
    }
}

/// Expanding bytes into digits and packing the digits again gives the bytes.
pub proof fn lemma_bytes_of_bits_of_bytes(bs: Seq<u8>)
    ensures
        bytes_of_bits_le(bits_of_bytes_le(bs)) == bs,
{
    let s = bits_of_bytes_le(bs);
    assert(s.len() == bs.len() * 8);
    lemma_fundamental_div_mod_converse((bs.len() * 8) as int, 8, bs.len() as int, 0);
    assert(s.len() / 8 == bs.len());
    assert forall|i: int| 0 <= i < bs.len() implies bytes_of_bits_le(s)[i] == bs[i] by {
        let chunk = s.subrange(8 * i, 8 * i + 8);
        assert forall|k: int| 0 <= k < 8 implies chunk[k] == bits_of_val(bs[i] as nat, 8)[k] by {
            lemma_fundamental_div_mod_converse(8 * i + k, 8, i, k);
            assert((8 * i + k) / 8 == i);
            assert((8 * i + k) % 8 == k);
        }
        assert(chunk =~= bits_of_val(bs[i] as nat, 8));
        lemma2_to64();
        assert((bs[i] as nat) < pow2(8));
        lemma_bits_val_of_bits_of_val(bs[i] as nat, 8);
    }
    assert(bytes_of_bits_le(s) =~= bs);
}

/// Packing a digit string whose length is a multiple of eight into bytes
/// and expanding again gives the digit string.
pub proof fn lemma_bits_of_bytes_of_bits(s: Seq<bool>)
    requires
        s.len() % 8 == 0,
    ensures
        bits_of_bytes_le(bytes_of_bits_le(s)) == s,
{
    let bs = bytes_of_bits_le(s);
    lemma_fundamental_div_mod(s.len() as int, 8);
    assert(bs.len() == s.len() / 8);
    assert(bs.len() * 8 == s.len());
    assert forall|i: int| 0 <= i < s.len() implies bits_of_bytes_le(bs)[i] == s[i] by {
        let q = i / 8;
        let r = i % 8;
        lemma_fundamental_div_mod(i, 8);
        assert(0 <= r < 8);
        assert(0 <= q < bs.len());
        let chunk = s.subrange(8 * q, 8 * q + 8);
        lemma_bits_val_bound(chunk);
        lemma2_to64();
        assert(bits_val(chunk) < 256);
        assert(bs[q] as nat == bits_val(chunk));
        lemma_bit_of_bits_val(chunk, r as nat);
        assert(chunk[r] == s[i]);
    }
    assert(bits_of_bytes_le(bs) =~= s);
}

/// An ordered sequence of radix-2 digits: the plaintext and ciphertext
/// representation the cipher works on. Digit `k` carries weight `2^k`.
pub struct NumeralString {
    bits: Vec<bool>,
}

impl View for NumeralString {
    type V = Seq<bool>;

    closed spec fn view(&self) -> Seq<bool> {
        self.bits@
    }
}

impl NumeralString {
    /// Wraps a sequence of binary digits as a numeral string.
    pub fn from_bits(bits: Vec<bool>) -> (r: NumeralString)
        ensures
            r@ == bits@,
    {
        NumeralString { bits }
    }

    /// Digit `i` of the numeral string.
    pub fn bit(&self, i: usize) -> (r: bool)
        requires
            i < self@.len(),
        ensures
            r == self@[i as int],
    {
        self.bits[i]
    }

    /// Expands each byte into eight binary digits, least significant first.
    pub fn from_bytes_le(bytes: &Vec<u8>) -> (r: NumeralString)
        requires
            bytes@.len() * 8 <= usize::MAX,
        ensures
            r@ == bits_of_bytes_le(bytes@),
            r@.len() == bytes@.len() * 8,
    {
        let mut bits: Vec<bool> = Vec::new();
        let mut i: usize = 0;
        while i < bytes.len()
            invariant
                i <= bytes@.len(),
                bytes@.len() * 8 <= usize::MAX,
                bits@.len() == 8 * i,
                forall|j: int|
                    0 <= j < bits@.len() ==> bits@[j] == bit_of(
                        bytes@[j / 8] as nat,
                        (j % 8) as nat,
                    ),
            decreases bytes@.len() - i,
        {
            let mut w: u8 = bytes[i];
            let mut k: usize = 0;
            proof {
                lemma2_to64();
                assert(pow2(0) == 1);
            }
            while k < 8
                invariant
                    k <= 8,
                    i < bytes@.len(),
                    bytes@.len() * 8 <= usize::MAX,
                    bits@.len() == 8 * i + k,
                    w as nat == (bytes@[i as int] as nat) / pow2(k as nat),
                    forall|j: int|
                        0 <= j < 8 * i ==> bits@[j] == bit_of(bytes@[j / 8] as nat, (j % 8) as nat),
                    forall|j: int|
                        8 * i <= j < bits@.len() ==> bits@[j] == bit_of(
                            bytes@[i as int] as nat,
                            (j - 8 * i) as nat,
                        ),
                decreases 8 - k,
            {
                bits.push(w % 2 == 1);
                proof {
                    lemma_pow2_adds(k as nat, 1);
                    lemma2_to64();
                    lemma_pow2_pos(k as nat);
                    lemma_div_denominator(
                        bytes@[i as int] as int,
                        pow2(k as nat) as int,
                        2,
                    );
                }
                w = w / 2;
                k += 1;
            }
            i += 1;
            proof {
                assert forall|j: int|
                    0 <= j < bits@.len() implies bits@[j] == bit_of(
                    bytes@[j / 8] as nat,
                    (j % 8) as nat,
                ) by {
                    if 8 * (i - 1) <= j {
                        lemma_fundamental_div_mod_converse(j, 8, i - 1, j - 8 * (i - 1));
                    }
                }
            }
        }
        proof {
            assert(bits@ =~= bits_of_bytes_le(bytes@));
        }
        NumeralString { bits }
    }

    /// Packs the digits back into bytes, eight digits per byte.
    pub fn to_bytes_le(&self) -> (r: Vec<u8>)
        requires
            self@.len() % 8 == 0,
        ensures
            r@ == bytes_of_bits_le(self@),
            r@.len() == self@.len() / 8,
    {
        let n = self.bits.len() / 8;
        proof {
            lemma_fundamental_div_mod(self@.len() as int, 8);
        }
        let mut out: Vec<u8> = Vec::new();
        let mut i: usize = 0;
        while i < n
            invariant
                i <= n,
                n == self@.len() / 8,
                8 * n == self@.len(),
                self@.len() <= usize::MAX,
                out@.len() == i,
                forall|j: int| 0 <= j < i ==> out@[j] == bytes_of_bits_le(self@)[j],
            decreases n - i,
        {
            let mut byte: u16 = 0;
            let mut k: usize = 8;
            proof {
                assert(self@.subrange(8 * i as int + 8, 8 * i as int + 8) =~= Seq::<
                    bool,
                >::empty());
                lemma2_to64();
            }
            while k > 0
                invariant
                    k <= 8,
                    i < n,
                    n == self@.len() / 8,
                    8 * n == self@.len(),
                    self@.len() <= usize::MAX,
                    byte as nat == bits_val(
                        self@.subrange(8 * i as int + k as int, 8 * i as int + 8),
                    ),
                    (byte as nat) < pow2((8 - k) as nat),
                decreases k,
            {
                k -= 1;
                let b: u16 = if self.bits[8 * i + k] {
                    1
                } else {
                    0
                };
                proof {
                    let lo = 8 * i as int + k as int;
                    assert(self@.subrange(lo, 8 * i as int + 8).skip(1) =~= self@.subrange(
                        lo + 1,
                        8 * i as int + 8,
                    ));
                    lemma_pow2_unfold((8 - k) as nat);
                    lemma2_to64();
                    if ((8 - k) as nat) < 8 {
                        lemma_pow2_strictly_increases((8 - k) as nat, 8);
                    }
                }
                byte = byte * 2 + b;
            }
            out.push(byte as u8);
            i += 1;
        }
        proof {
            assert(out@ =~= bytes_of_bits_le(self@));
        }
        out
    }

    /// The digit count of the numeral string.
    pub fn len(&self) -> (r: usize)
        ensures
            r == self@.len(),
    {
        self.bits.len()
    }
}

/// The value of the digits `from..to`, for ranges of at most 64 digits.
pub(crate) fn bits_range_val(bits: &NumeralString, from: usize, to: usize) -> (r: u64)
    requires
        from <= to,
        to <= bits@.len(),
        to - from <= 64,
    ensures
        r as nat == bits_val(bits@.subrange(from as int, to as int)),
{
    let mut r: u64 = 0;
    let mut j = to;
    proof {
        assert(bits@.subrange(to as int, to as int) =~= Seq::<bool>::empty());
        lemma2_to64();
    }
    while j > from
        invariant
            from <= j <= to,
            to <= bits@.len(),
            to - from <= 64,
            r as nat == bits_val(bits@.subrange(j as int, to as int)),
            (r as nat) < pow2((to - j) as nat),
        decreases j,
    {
        j -= 1;
        let b: u64 = if bits.bits[j] {
            1
        } else {
            0
        };
        proof {
            assert(bits@.subrange(j as int, to as int).skip(1) =~= bits@.subrange(
                j as int + 1,
                to as int,
            ));
            lemma_pow2_unfold((to - j) as nat);
            lemma2_to64();
            lemma2_to64_rest();
            if ((to - j) as nat) < 64 {
                lemma_pow2_strictly_increases((to - j) as nat, 64);
            }
        }
        r = r * 2 + b;
    }
    r
}

/// Joins two numeral strings, left digits first.
pub(crate) fn ns_concat(a: NumeralString, b: NumeralString) -> (r: NumeralString)
    requires
        a@.len() + b@.len() <= usize::MAX,
    ensures
        r@ == a@ + b@,
{
    let mut bits = a.bits;
    let mut tail = b.bits;
    bits.append(&mut tail);
    NumeralString { bits }
}

/// The `m`-digit numeral string of a value below `2^m`.
pub(crate) fn val_to_bits(v: u64, m: usize) -> (r: NumeralString)
    requires
        m <= 64,
        (v as nat) < pow2(m as nat),
    ensures
        r@ == bits_of_val(v as nat, m as nat),
        r@.len() == m,
{
    let mut out: Vec<bool> = Vec::new();
    let mut w = v;
    let mut k: usize = 0;
    proof {
        lemma2_to64();
        assert(pow2(0) == 1);
    }
    while k < m
        invariant
            k <= m,
            out@.len() == k,
            w as nat == (v as nat) / pow2(k as nat),
            forall|j: int| 0 <= j < k ==> out@[j] == bit_of(v as nat, j as nat),
        decreases m - k,
    {
        out.push(w % 2 == 1);
        proof {
            lemma_pow2_adds(k as nat, 1);
            lemma2_to64();
            lemma_pow2_pos(k as nat);
            lemma_div_denominator(v as int, pow2(k as nat) as int, 2);
        }
        w = w / 2;
        k += 1;
    }
    proof {
        assert(out@ =~= bits_of_val(v as nat, m as nat));
    }
    NumeralString { bits: out }
}

} // verus!

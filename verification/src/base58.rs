use vstd::prelude::*;

verus! {

/// The 58-character alphabet the display strings are written in: the
/// alphanumeric characters without the visually ambiguous `0`, `O`,
/// `I` and `l`.
pub open spec fn b58_alphabet() -> Seq<char> {
    seq![
        '1', '2', '3', '4', '5', '6', '7', '8', '9', 'A', 'B', 'C', 'D', 'E', 'F', 'G', 'H',
        'J', 'K', 'L', 'M', 'N', 'P', 'Q', 'R', 'S', 'T', 'U', 'V', 'W', 'X', 'Y', 'Z', 'a',
        'b', 'c', 'd', 'e', 'f', 'g', 'h', 'i', 'j', 'k', 'm', 'n', 'o', 'p', 'q', 'r', 's',
        't', 'u', 'v', 'w', 'x', 'y', 'z',
    ]
}

pub open spec fn is_b58_char(c: char) -> bool {
    b58_alphabet().contains(c)
}

/// The base-58 string that encodes a byte sequence: one `1` per leading
/// zero byte, then the base-58 digits of the remaining bytes read as a
/// big-endian number. The exact digit string is a fixed function of the
/// bytes alone; it carries a name rather than a re-statement of the
/// encoder's digit loop.
pub uninterp spec fn b58_of(b: Seq<u8>) -> Seq<char>;

/// Relies on `bs58::encode` with its default (Bitcoin) alphabet and no
/// checksum: the output is a function of the input bytes alone, every
/// character of it lies in the 58-character alphabet, it is never longer
/// than the encoder's own output bound of one and a half characters per
/// byte, and no two byte sequences share an encoding (`bs58::decode`
/// recovers the input).
#[verifier::external_body]
pub(crate) fn b58_encode(b: &Vec<u8>) -> (r: String)
    ensures
        r@ == b58_of(b@),
        forall|i: int| 0 <= i < r@.len() ==> is_b58_char(r@[i]),
        r@.len() <= b@.len() + (b@.len() + 1) / 2,
{
    bs58::encode(&b[..]).into_string()
}

/// Relies on `bs58::decode` with its default (Bitcoin) alphabet and no
/// checksum: decoding into a fresh vector fails exactly when some
/// character lies outside the alphabet, and on success returns the one
/// byte sequence whose encoding is the input string.
#[verifier::external_body]
pub(crate) fn b58_decode(s: &str) -> (r: Option<Vec<u8>>)
    ensures
        (r is None) <==> (exists|i: int| 0 <= i < s@.len() && !is_b58_char(s@[i])),
        r matches Some(b) ==> s@ == b58_of(b@) && (forall|b2: Seq<u8>| b58_of(b2) == s@
            ==> b2 == b@),
{
    bs58::decode(s).into_vec().ok()
}

} // verus!

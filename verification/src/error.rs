use vstd::prelude::*;

verus! {

/// The failures the library reports.
///
/// `KeyLength` and `DomainSize` arise when a cipher is configured
/// (wrong key size, or a radix/length pair whose domain is too small
/// for safe format-preserving encryption). `InvalidEncoding` and
/// `CiphertextWidth` arise when a display string is turned back into
/// an integer (a character outside the base-58 alphabet, or a decoded
/// byte length other than the ciphertext width).
#[derive(Clone, Copy, Debug, PartialEq, Eq, Structural)]
pub enum Error {
    KeyLength,
    DomainSize,
    InvalidEncoding,
    CiphertextWidth,
}

} // verus!

use vstd::prelude::*;

use aes::cipher::BlockCipherEncrypt;
use aes::cipher::KeyInit;

verus! {

/// The block that AES-128 returns for a given 16-byte key and 16-byte
/// plaintext block. AES is a fixed, fully deterministic function of the
/// key and the block alone, so its output can carry a name even though
/// writing the permutation out is out of the question.
pub uninterp spec fn aes_block_of(key: Seq<u8>, block: Seq<u8>) -> Seq<u8>;

/// Relies on `aes::Aes128` (RustCrypto): single-block AES-128 encryption.
/// `Aes128::new_from_slice` accepts exactly 16 key bytes, and
/// `encrypt_block` maps a 16-byte block to a 16-byte block, depending on
/// nothing but the key and the block.
#[verifier::external_body]
pub(crate) fn aes_encrypt_block(key: &Vec<u8>, block: &Vec<u8>) -> (r: Vec<u8>)
    requires
        key@.len() == 16,
        block@.len() == 16,
    ensures
        r@.len() == 16,
        r@ == aes_block_of(key@, block@),
{
    let cipher = aes::Aes128::new_from_slice(&key[..]).unwrap();
    let mut blk = aes::cipher::Array::try_from(&block[..]).unwrap();
    cipher.encrypt_block(&mut blk);
    blk.to_vec()
}

} // verus!

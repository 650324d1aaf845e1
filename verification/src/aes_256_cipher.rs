//! An AES-256 block cipher over fixed 16-byte blocks.

use aes::Aes256;
use cipher::generic_array::GenericArray;
use cipher::{BlockDecrypt, BlockEncrypt, KeyInit};
use vstd::prelude::*;

use crate::cryp_dec::CrypDec;

verus! {

/// What AES-256 returns for one key and one plaintext block; fixed by
/// them alone.
pub uninterp spec fn aes_enc_of(key: Seq<u8>, block: Seq<u8>) -> Seq<u8>;

/// What the AES-256 inverse returns for one key and one ciphertext
/// block; fixed by them alone.
pub uninterp spec fn aes_dec_of(key: Seq<u8>, block: Seq<u8>) -> Seq<u8>;

/// Relies on `aes::Aes256` (`KeyInit::new`, then
/// `BlockEncrypt::encrypt_block`): the ciphertext block depends on the
/// key and the plaintext block alone.
#[verifier::external_body]
fn aes256_encrypt_block(key: &[u8; 32], block: &[u8; 16]) -> (r: [u8; 16])
    ensures
        r@ == aes_enc_of(key@, block@),
{
    let cipher = Aes256::new(GenericArray::from_slice(key));
    let mut b = GenericArray::clone_from_slice(block);
    cipher.encrypt_block(&mut b);
    b.into()
}

/// Relies on `aes::Aes256` (`KeyInit::new`, then
/// `BlockDecrypt::decrypt_block`): the plaintext block depends on the key
/// and the ciphertext block alone, and decrypting a block that was
/// encrypted under the same key gives the original block back.
#[verifier::external_body]
fn aes256_decrypt_block(key: &[u8; 32], block: &[u8; 16]) -> (r: [u8; 16])
    ensures
        r@ == aes_dec_of(key@, block@),
        forall|p: Seq<u8>| p.len() == 16 && block@ == aes_enc_of(key@, p) ==> r@ == p,
{
    let cipher = Aes256::new(GenericArray::from_slice(key));
    let mut b = GenericArray::clone_from_slice(block);
    cipher.decrypt_block(&mut b);
    b.into()
}

/// Failures of the block cipher.
#[derive(Debug, Clone, Copy, PartialEq, Eq, Structural)]
pub enum CrypDecError {
    InvalidLength,
}

/// An AES-256 cipher holding its 32-byte key.
pub struct Aes256Cipher {
    key: [u8; 32],
}

impl Aes256Cipher {
    /// The key the cipher was built with.
    pub closed spec fn key_spec(&self) -> Seq<u8> {
        self.key@
    }

    /// Build a cipher over the given key.
    pub fn new(key: [u8; 32]) -> (r: Self)
        ensures
            r.key_spec() == key@,
    {
        Aes256Cipher { key }
    }

    /// Encrypt one 16-byte block.
    pub fn encrypt(&self, data: &[u8; 16]) -> (r: Result<[u8; 16], CrypDecError>)
        ensures
            r matches Ok(c) && c@ == aes_enc_of(self.key_spec(), data@),
    {
        Ok(aes256_encrypt_block(&self.key, data))
    }

    /// Decrypt one 16-byte block; inverts [`Self::encrypt`] under the
    /// same key.
    pub fn decrypt(&self, data: &[u8; 16]) -> (r: Result<[u8; 16], CrypDecError>)
        ensures
            r matches Ok(p) && p@ == aes_dec_of(self.key_spec(), data@),
            (forall|p0: Seq<u8>|
                p0.len() == 16 && data@ == aes_enc_of(self.key_spec(), p0) ==> (r matches Ok(p)
                    && p@ == p0)),
    {
        Ok(aes256_decrypt_block(&self.key, data))
    }
}

impl CrypDec for Aes256Cipher {
    type Input = [u8; 16];

    type Output = [u8; 16];

    type Error = CrypDecError;

    fn encrypt(&self, data: &[u8; 16]) -> Result<[u8; 16], CrypDecError> {
        Aes256Cipher::encrypt(self, data)
    }

    fn decrypt(&self, data: &[u8; 16]) -> Result<[u8; 16], CrypDecError> {
        Aes256Cipher::decrypt(self, data)
    }
}

} // verus!

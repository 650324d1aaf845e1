//! String encryption over the AES-256 block cipher: UTF-8 bytes are
//! padded to whole 16-byte blocks, each block is encrypted, and the result
//! is carried as base64 text.

use core::convert::TryInto;
use vstd::prelude::*;
use vstd::utf8::{decode_utf8, encode_utf8, valid_utf8};

use crate::aes_256_cipher::{aes_dec_of, aes_enc_of, Aes256Cipher};
use crate::codec::{append_slice, bytes_to_string, copy_range};
use crate::cryp_dec::CrypDec;

verus! {

/// What base64 encoding returns for given bytes; fixed by them alone.
pub uninterp spec fn b64_of(bytes: Seq<u8>) -> Seq<char>;

/// Relies on `base64::encode`: the text depends on the bytes alone.
#[verifier::external_body]
fn b64_encode(bytes: &Vec<u8>) -> (r: String)
    ensures
        r@ == b64_of(bytes@),
{
    base64::encode(bytes)
}

/// Relies on `base64::decode`: a canonical encoding always decodes, and
/// decodes to the bytes that produced it; text that is no encoding at all
/// is rejected.
#[verifier::external_body]
fn b64_decode(text: &String) -> (r: Option<Vec<u8>>)
    ensures
        (match r {
            Some(v) => forall|c: Seq<u8>| text@ == b64_of(c) ==> v@ == c,
            None => forall|c: Seq<u8>| text@ != b64_of(c),
        }),
{
    match base64::decode(text) {
        Ok(v) => Some(v),
        Err(_) => None,
    }
}

/// Relies on `TryInto` for slices: copies sixteen bytes into one block.
#[verifier::external_body]
fn to_block(v: &Vec<u8>, at: usize) -> (r: [u8; 16])
    requires
        at + 16 <= v@.len(),
    ensures
        r@ == v@.subrange(at as int, at as int + 16),
{
    v[at..at + 16].try_into().unwrap()
}

// ----- Padding and block chaining -----

/// Padding to whole 16-byte blocks: between 1 and 16 copies of the pad
/// length itself.
pub open spec fn pad16(b: Seq<u8>) -> Seq<u8> {
    let padlen = 16 - (b.len() % 16);
    b + Seq::new(padlen as nat, |i: int| padlen as u8)
}

/// Unpadding: strip as many bytes as the last one counts, unless the
/// count is zero or reaches past the data, which leaves the bytes
/// untouched.
pub open spec fn unpad16(b: Seq<u8>) -> Seq<u8> {
    if b.len() == 0 {
        Seq::empty()
    } else {
        let p = b.last() as int;
        if p == 0 || p > b.len() {
            b
        } else {
            b.take(b.len() - p)
        }
    }
}

/// Unpadding inverts padding.
pub proof fn lemma_unpad_pad(b: Seq<u8>)
    ensures
        unpad16(pad16(b)) == b,
{
    let padlen = 16 - (b.len() % 16);
    assert(pad16(b).last() == padlen as u8);
    assert(pad16(b).take(b.len() as int) =~= b);
}

/// Whole blocks encrypted in turn.
pub open spec fn enc_blocks(key: Seq<u8>, b: Seq<u8>) -> Seq<u8>
    decreases b.len(),
{
    if b.len() < 16 {
        Seq::empty()
    } else {
        enc_blocks(key, b.take(b.len() - 16)) + aes_enc_of(key, b.skip(b.len() - 16))
    }
}

/// Whole blocks decrypted in turn.
pub open spec fn dec_blocks(key: Seq<u8>, b: Seq<u8>) -> Seq<u8>
    decreases b.len(),
{
    if b.len() < 16 {
        Seq::empty()
    } else {
        dec_blocks(key, b.take(b.len() - 16)) + aes_dec_of(key, b.skip(b.len() - 16))
    }
}

/// What decrypting an already base64-decoded ciphertext yields: the
/// bytes must be whole blocks, and the unpadded plaintext must be UTF-8.
pub open spec fn spec_decrypt_bytes(key: Seq<u8>, c: Seq<u8>) -> Result<
    Seq<char>,
    CrypDecStringError,
> {
    if c.len() % 16 != 0 {
        Err(CrypDecStringError::InvalidLength)
    } else {
        let plain = unpad16(dec_blocks(key, c));
        if valid_utf8(plain) {
            Ok(decode_utf8(plain))
        } else {
            Err(CrypDecStringError::Utf8Error)
        }
    }
}

/// Failures of the string cipher.
#[derive(Debug, Clone, Copy, PartialEq, Eq, Structural)]
pub enum CrypDecStringError {
    /// The text is no ciphertext: not decodable base64, or not whole
    /// blocks.
    InvalidLength,
    /// The decrypted bytes are not UTF-8.
    Utf8Error,
}

/// A string cipher over an AES-256 block cipher.
pub struct Aes256CipherString {
    byte_cipher: Aes256Cipher,
}

impl Aes256CipherString {
    /// The key this cipher was built with.
    pub closed spec fn key_spec(&self) -> Seq<u8> {
        self.byte_cipher.key_spec()
    }

    /// Build a string cipher over the given key.
    pub fn new(key: [u8; 32]) -> (r: Self)
        ensures
            r.key_spec() == key@,
    {
        let byte_cipher = Aes256Cipher::new(key);
        Aes256CipherString { byte_cipher }
    }

    /// Pad bytes to a whole number of blocks.
    fn pad_bytes(&self, bytes: &Vec<u8>) -> (r: Vec<u8>)
        ensures
            r@ == pad16(bytes@),
            r@.len() % 16 == 0,
    {
        let block_size: usize = 16;
        let padding_length = block_size - (bytes.len() % block_size);
        let mut padded = copy_range(bytes, 0, bytes.len());
        let mut i: usize = 0;
        while i < padding_length
            invariant
                i <= padding_length,
                padding_length == 16 - (bytes@.len() % 16),
                padded@ == bytes@ + Seq::new(i as nat, |j: int| padding_length as u8),
            decreases padding_length - i,
        {
            padded.push(padding_length as u8);
            proof {
                assert(bytes@ + Seq::new((i + 1) as nat, |j: int| padding_length as u8) =~= (
                bytes@ + Seq::new(i as nat, |j: int| padding_length as u8)).push(
                    padding_length as u8,
                ));
            }
            i += 1;
        }
        proof {
            assert(padded@ =~= pad16(bytes@));
        }
        padded
    }

    /// Remove the padding a decrypted byte string carries.
    fn unpad_bytes(&self, bytes: &Vec<u8>) -> (r: Vec<u8>)
        ensures
            r@ == unpad16(bytes@),
    {
        if bytes.len() == 0 {
            let r: Vec<u8> = Vec::new();
            proof {
                assert(r@ =~= unpad16(bytes@));
            }
            return r;
        }
        let padding_length = bytes[bytes.len() - 1] as usize;
        if padding_length == 0 || padding_length > bytes.len() {
            return copy_range(bytes, 0, bytes.len());
        }
        copy_range(bytes, 0, bytes.len() - padding_length)
    }

    /// Encrypt: UTF-8 bytes, padded, block-encrypted, then base64 text.
    pub fn encrypt(&self, data: &String) -> (r: Result<String, CrypDecStringError>)
        ensures
            r matches Ok(c) && c@ == b64_of(
                enc_blocks(self.key_spec(), pad16(encode_utf8(data@))),
            ),
    {
        let bytes = vstd::slice::slice_to_vec(data.as_str().as_bytes());
        let padded = self.pad_bytes(&bytes);
        let n = padded.len();
        let mut encrypted: Vec<u8> = Vec::new();
        let mut i: usize = 0;
        while i < n
            invariant
                n == padded@.len(),
                n % 16 == 0,
                i % 16 == 0,
                i <= n,
                encrypted@ == enc_blocks(self.key_spec(), padded@.take(i as int)),
            decreases n - i,
        {
            let block = to_block(&padded, i);
            let out = match self.byte_cipher.encrypt(&block) {
                Ok(o) => o,
                Err(_) => {
                    return Err(CrypDecStringError::InvalidLength);
                },
            };
            append_slice(&mut encrypted, out.as_slice());
            proof {
                assert(padded@.take(i + 16).take(i as int) =~= padded@.take(i as int));
                assert(padded@.take(i + 16).skip(i as int) =~= padded@.subrange(
                    i as int,
                    i + 16,
                ));
                assert(encrypted@ =~= enc_blocks(self.key_spec(), padded@.take(i + 16)));
            }
            i += 16;
        }
        proof {
            assert(padded@.take(n as int) =~= padded@);
        }
        Ok(b64_encode(&encrypted))
    }

    /// Decrypt an already base64-decoded ciphertext.
    pub fn decrypt_bytes(&self, bytes: &Vec<u8>) -> (r: Result<String, CrypDecStringError>)
        ensures
            (match spec_decrypt_bytes(self.key_spec(), bytes@) {
                Ok(t) => r matches Ok(s) && s@ == t,
                Err(e) => r == Err::<String, CrypDecStringError>(e),
            }),
    {
        let n = bytes.len();
        if n % 16 != 0 {
            return Err(CrypDecStringError::InvalidLength);
        }
        let mut decrypted: Vec<u8> = Vec::new();
        let mut i: usize = 0;
        while i < n
            invariant
                n == bytes@.len(),
                n % 16 == 0,
                i % 16 == 0,
                i <= n,
                decrypted@ == dec_blocks(self.key_spec(), bytes@.take(i as int)),
            decreases n - i,
        {
            let block = to_block(bytes, i);
            let out = match self.byte_cipher.decrypt(&block) {
                Ok(o) => o,
                Err(_) => {
                    return Err(CrypDecStringError::InvalidLength);
                },
            };
            append_slice(&mut decrypted, out.as_slice());
            proof {
                assert(bytes@.take(i + 16).take(i as int) =~= bytes@.take(i as int));
                assert(bytes@.take(i + 16).skip(i as int) =~= bytes@.subrange(i as int, i + 16));
                assert(decrypted@ =~= dec_blocks(self.key_spec(), bytes@.take(i + 16)));
            }
            i += 16;
        }
        proof {
            assert(bytes@.take(n as int) =~= bytes@);
        }
        let unpadded = self.unpad_bytes(&decrypted);
        match bytes_to_string(unpadded) {
            Some(s) => Ok(s),
            None => Err(CrypDecStringError::Utf8Error),
        }
    }

    /// Decrypt: base64 text decoded, block-decrypted, unpadded, read back
    /// as UTF-8.  Text that does not decode as base64 is rejected as
    /// [`CrypDecStringError::InvalidLength`].
    pub fn decrypt(&self, data: &String) -> (r: Result<String, CrypDecStringError>)
        ensures
            (forall|c: Seq<u8>|
                data@ == b64_of(c) ==> (match spec_decrypt_bytes(self.key_spec(), c) {
                    Ok(t) => r matches Ok(s) && s@ == t,
                    Err(e) => r == Err::<String, CrypDecStringError>(e),
                })),
    {
        match b64_decode(data) {
            Some(v) => self.decrypt_bytes(&v),
            None => Err(CrypDecStringError::InvalidLength),
        }
    }
}

impl CrypDec for Aes256CipherString {
    type Input = String;

    type Output = String;

    type Error = CrypDecStringError;

    fn encrypt(&self, data: &String) -> Result<String, CrypDecStringError> {
        Aes256CipherString::encrypt(self, data)
    }

    fn decrypt(&self, data: &String) -> Result<String, CrypDecStringError> {
        Aes256CipherString::decrypt(self, data)
    }
}

} // verus!

use entry_store::aes_256_cipher::Aes256Cipher;
use entry_store::aes_256_cipher_string::{Aes256CipherString, CrypDecStringError};
use rand::Rng;

#[test]
fn aes_256_cipher_test_encrypt_decrypt() {
    let key = [0u8; 32]; // Using a zeroed key for simplicity
    let aes_cipher = Aes256Cipher::new(key);

    let plaintext: [u8; 16] = *b"exampleplaintext";

    let ciphertext = aes_cipher.encrypt(&plaintext).unwrap();

    let decrypted_text = aes_cipher.decrypt(&ciphertext).unwrap();

    assert_eq!(plaintext, decrypted_text);
}

#[test]
fn test_encrypt_decrypt_with_random_key() {
    let key = rand::thread_rng().gen::<[u8; 32]>();
    let aes_cipher = Aes256Cipher::new(key);

    let plaintext: [u8; 16] = *b"exampleplaintext";

    let ciphertext = aes_cipher.encrypt(&plaintext).unwrap();

    let decrypted_text = aes_cipher.decrypt(&ciphertext).unwrap();

    assert_eq!(plaintext, decrypted_text);

    assert_ne!(ciphertext, plaintext)
}

#[test]
fn aes_256_cipher_string_test_encrypt_decrypt() {
    let key = [0u8; 32]; // Using a zeroed key for simplicity
    let aes_cipher_string = Aes256CipherString::new(key);

    let plaintext = String::from("Hello, world!");

    let ciphertext = aes_cipher_string.encrypt(&plaintext).unwrap();

    let decrypted_text = aes_cipher_string.decrypt(&ciphertext).unwrap();

    assert_eq!(plaintext, decrypted_text);
}

#[test]
fn test_encrypt_decrypt_empty_string() {
    let key = [0u8; 32];
    let aes_cipher_string = Aes256CipherString::new(key);

    let plaintext = String::from("");

    let ciphertext = aes_cipher_string.encrypt(&plaintext).unwrap();

    let decrypted_text = aes_cipher_string.decrypt(&ciphertext).unwrap();

    assert_eq!(plaintext, decrypted_text);
}

#[test]
fn test_encrypt_decrypt_string_not_multiple_of_16() {
    let key = [0u8; 32];
    let aes_cipher_string = Aes256CipherString::new(key);

    let plaintext = String::from("This is a test string.");

    let ciphertext = aes_cipher_string.encrypt(&plaintext).unwrap();

    let decrypted_text = aes_cipher_string.decrypt(&ciphertext).unwrap();

    assert_eq!(plaintext, decrypted_text);
}

#[test]
fn test_encrypt_decrypt_string_multiple_of_16() {
    let key = [0u8; 32];
    let aes_cipher_string = Aes256CipherString::new(key);

    let plaintext = String::from("1234567890123456"); // Exactly 16 bytes

    let ciphertext = aes_cipher_string.encrypt(&plaintext).unwrap();

    let decrypted_text = aes_cipher_string.decrypt(&ciphertext).unwrap();

    assert_eq!(plaintext, decrypted_text);
}

#[test]
fn test_decrypt_invalid_base64() {
    let key = [0u8; 32];
    let aes_cipher_string = Aes256CipherString::new(key);

    let invalid_base64 = String::from("This is not valid base64!");

    let result = aes_cipher_string.decrypt(&invalid_base64);

    assert!(result.is_err());
    assert!(matches!(
        result.unwrap_err(),
        CrypDecStringError::InvalidLength
    ));
}

#[test]
fn test_decrypt_invalid_utf8() {
    let key = [0u8; 32];
    let aes_cipher_string = Aes256CipherString::new(key);

    // Create invalid UTF-8 data by encrypting and then corrupting the result
    let plaintext = String::from("Hello, world!");
    let ciphertext = aes_cipher_string.encrypt(&plaintext).unwrap();
    let mut corrupted_bytes = base64::decode(ciphertext).unwrap();
    corrupted_bytes[0] = 0xff; // Introduce invalid UTF-8
    let corrupted_ciphertext = base64::encode(corrupted_bytes);

    let result = aes_cipher_string.decrypt(&corrupted_ciphertext);

    assert!(result.is_err());
    assert!(matches!(result.unwrap_err(), CrypDecStringError::Utf8Error));
}

#[test]
fn test_decrypt_not_whole_blocks() {
    let key = [0u8; 32];
    let aes_cipher_string = Aes256CipherString::new(key);

    // Valid base64, but the decoded bytes are not a whole number of
    // 16-byte blocks.
    let short = base64::encode([1u8, 2, 3]);
    let result = aes_cipher_string.decrypt(&short);

    assert!(matches!(
        result.unwrap_err(),
        CrypDecStringError::InvalidLength
    ));
}

#[test]
fn test_ciphertext_differs_from_plaintext() {
    let key = [7u8; 32];
    let aes_cipher_string = Aes256CipherString::new(key);

    let plaintext = String::from("attack at dawn");
    let ciphertext = aes_cipher_string.encrypt(&plaintext).unwrap();
    assert_ne!(ciphertext, plaintext);

    // Two different keys give different ciphertexts for the same text.
    let other = Aes256CipherString::new([8u8; 32]);
    let other_ciphertext = other.encrypt(&plaintext).unwrap();
    assert_ne!(ciphertext, other_ciphertext);
}

use wormhole_cli::base64_text::base64_url_decode;
use wormhole_cli::crypto::{
    decrypt_metadata, derive_auth_token, derive_content_key, derive_meta_key, derive_nonce_base,
    generate_nonce, KEY_LENGTH, NONCE_LENGTH,
};
use wormhole_cli::encrypt::{encrypt_metadata, encrypt_metadata_with_iv};
use wormhole_cli::error::Error;
use wormhole_cli::hex::hex_encode;

fn counting(from: u8, count: u8) -> Vec<u8> {
    (from..from + count).collect()
}

#[test]
fn test_nonce_generation() {
    let nonce_base = vec![0u8; NONCE_LENGTH];
    let nonce = generate_nonce(&nonce_base, 0).unwrap();
    assert_eq!(nonce.len(), NONCE_LENGTH);

    let nonce = generate_nonce(&nonce_base, 1).unwrap();
    assert_eq!(nonce.len(), NONCE_LENGTH);
}

#[test]
fn nonce_takes_the_number_into_its_last_bytes() {
    let base = counting(0xf0, 12);
    assert_eq!(generate_nonce(&base, 0).unwrap(), base);
    let nonce = generate_nonce(&base, 0x0102_0304).unwrap();
    assert_eq!(nonce[..8], base[..8]);
    assert_eq!(nonce[8..], [0xf9, 0xfb, 0xf9, 0xff]);
    let expected = u32::from_be_bytes([0xf8, 0xf9, 0xfa, 0xfb]) ^ 0x0102_0304;
    assert_eq!(nonce[8..], expected.to_be_bytes());
}

#[test]
fn nonces_of_different_records_differ() {
    let base = counting(7, 12);
    let mut seen = Vec::new();
    for seq in [0, 1, 2, 255, 256, 65535, 65536, 1 << 24, u32::MAX] {
        let nonce = generate_nonce(&base, seq).unwrap();
        assert!(!seen.contains(&nonce));
        seen.push(nonce);
    }
}

#[test]
fn nonce_base_of_wrong_length_is_refused() {
    assert_eq!(generate_nonce(&[0; 11], 0), Err(Error::NonceBaseLength));
    assert_eq!(generate_nonce(&[0; 13], 0), Err(Error::NonceBaseLength));
    assert_eq!(generate_nonce(&[], 0), Err(Error::NonceBaseLength));
}

#[test]
fn keys_are_derived_with_hkdf() {
    let master_key = counting(0, 16);
    let salt = counting(100, 16);
    let auth = derive_auth_token(&master_key, &salt).unwrap();
    assert_eq!(hex_encode(&auth), "b007788f18c8c2d6822846a5de0dc021");
    let meta = derive_meta_key(&master_key, &salt).unwrap();
    assert_eq!(hex_encode(&meta), "c4c204eb639fc4a8e37284011239e392");
    let content = derive_content_key(&master_key, &salt).unwrap();
    assert_eq!(hex_encode(&content), "acd2538e35e90ff95ab6c94b50d07230");
    let base = derive_nonce_base(&master_key, &salt).unwrap();
    assert_eq!(hex_encode(&base), "acf483953eb0afae52da27e0");
}

#[test]
fn keys_of_the_encrypted_content_encoding_example() {
    let ikm = base64_url_decode("yqdlZ-tYemfogSmv7Ws5PQ").unwrap();
    let salt = base64_url_decode("I1BsxtFttlv3u_Oo94xnmw").unwrap();
    let key = derive_content_key(&ikm, &salt).unwrap();
    assert_eq!(key, base64_url_decode("_wniytB-ofscZDh4tbSjHw").unwrap());
    let nonce = derive_nonce_base(&ikm, &salt).unwrap();
    assert_eq!(nonce, base64_url_decode("Bcs8gkIRKLI8GeI8").unwrap());
}

#[test]
fn test_encrypt_metadata() {
    let meta_key = [0u8; KEY_LENGTH];
    let plaintext = b"torrent metadata";

    let encrypted = encrypt_metadata(plaintext, &meta_key).unwrap();

    // IV (16 bytes) + ciphertext + tag (16 bytes)
    assert_eq!(encrypted.len(), KEY_LENGTH + plaintext.len() + 16);
}

#[test]
fn test_encrypt_decrypt_metadata_compatibility() {
    let meta_key = [0xab; KEY_LENGTH];
    let plaintext = b"test torrent metadata for compatibility";

    let encrypted = encrypt_metadata(plaintext, &meta_key).unwrap();
    let decrypted = decrypt_metadata(&encrypted, &meta_key).unwrap();

    assert_eq!(decrypted, plaintext);
}

#[test]
fn metadata_is_encrypted_under_its_iv() {
    let key = counting(0, 16);
    let iv: [u8; 16] = counting(50, 16).try_into().unwrap();
    let encrypted = encrypt_metadata_with_iv(b"torrent metadata", &key, &iv).unwrap();
    assert_eq!(encrypted[..16], iv);
    assert_eq!(
        hex_encode(&encrypted[16..]),
        "5a49371d8cd45fcadc546d275a8c9853c88099169d80e9018beb905a3bd7ce0e"
    );
    assert_eq!(decrypt_metadata(&encrypted, &key).unwrap(), b"torrent metadata");
}

#[test]
fn each_encryption_of_metadata_has_an_iv_of_its_own() {
    let key = [3u8; KEY_LENGTH];
    let first = encrypt_metadata(b"same", &key).unwrap();
    let second = encrypt_metadata(b"same", &key).unwrap();
    assert_ne!(first[..16], second[..16]);
    assert_ne!(first, second);
}

#[test]
fn metadata_key_of_wrong_length_is_refused() {
    assert_eq!(encrypt_metadata(b"x", &[0; 15]), Err(Error::KeyLength));
    assert_eq!(encrypt_metadata(b"x", &[0; 32]), Err(Error::KeyLength));
    assert_eq!(decrypt_metadata(&[0; 40], &[0; 15]), Err(Error::KeyLength));
}

#[test]
fn metadata_that_is_damaged_is_refused() {
    let key = [9u8; KEY_LENGTH];
    assert_eq!(decrypt_metadata(&[0; 15], &key), Err(Error::MetadataTooShort));
    assert_eq!(decrypt_metadata(&[0; 15], &[]), Err(Error::MetadataTooShort));
    assert_eq!(decrypt_metadata(&[0; 16], &key), Err(Error::MetadataDecryption));
    assert_eq!(decrypt_metadata(&[0; 40], &key), Err(Error::MetadataDecryption));
    let mut encrypted = encrypt_metadata(b"torrent", &key).unwrap();
    assert_eq!(
        decrypt_metadata(&encrypted, &[8u8; KEY_LENGTH]),
        Err(Error::MetadataDecryption)
    );
    encrypted[20] ^= 1;
    assert_eq!(decrypt_metadata(&encrypted, &key), Err(Error::MetadataDecryption));
}

use r_delta::crypto::{
    decrypt_chunk, encrypt_chunk, encrypt_with_nonce, CryptoError, KeyContext, KEY_SIZE,
    NONCE_SIZE, TAG_SIZE,
};
use r_delta::encryption::{EncryptionManager, KeyStep};
use r_delta::hexadecimal::checksum_text;
use r_delta::pipeline::{
    CompressedPipeline, DataPipeline, PipelineError, PlainPipeline, SecurePipeline,
};

#[test]
fn test_key_generation() {
    let key1 = KeyContext::new_random();
    let key2 = KeyContext::new_random();

    assert_ne!(key1.key_bytes(), key2.key_bytes(), "Random keys should be different");
}

#[test]
fn test_encrypt_decrypt_roundtrip() {
    let key = KeyContext::new_random();
    let plaintext = b"The quick brown fox jumps over the lazy dog";

    let encrypted = encrypt_chunk(plaintext, &key).unwrap();

    assert_ne!(encrypted.as_slice(), plaintext, "Ciphertext should differ from plaintext");
    assert!(encrypted.len() > plaintext.len(), "Encrypted data should include nonce + tag overhead");

    let decrypted = decrypt_chunk(&encrypted, &key).unwrap();
    assert_eq!(decrypted.as_slice(), plaintext, "Decrypted data should match original");
}

#[test]
fn test_nonce_uniqueness() {
    let key = KeyContext::new_random();
    let plaintext = b"same message";

    let encrypted1 = encrypt_chunk(plaintext, &key).unwrap();
    let encrypted2 = encrypt_chunk(plaintext, &key).unwrap();

    assert_ne!(
        encrypted1, encrypted2,
        "Same plaintext should produce different ciphertext with different nonces"
    );

    let decrypted1 = decrypt_chunk(&encrypted1, &key).unwrap();
    let decrypted2 = decrypt_chunk(&encrypted2, &key).unwrap();

    assert_eq!(decrypted1, plaintext.to_vec());
    assert_eq!(decrypted2, plaintext.to_vec());
}

#[test]
fn test_wrong_key_fails() {
    let key1 = KeyContext::new_random();
    let key2 = KeyContext::new_random();
    let plaintext = b"secret message";

    let encrypted = encrypt_chunk(plaintext, &key1).unwrap();
    let result = decrypt_chunk(&encrypted, &key2);

    assert!(result.is_err(), "Decryption with wrong key should fail");
}

#[test]
fn test_tampered_data_fails() {
    let key = KeyContext::new_random();
    let plaintext = b"authenticated message";

    let mut encrypted = encrypt_chunk(plaintext, &key).unwrap();

    let tamper_index = encrypted.len() - 5;
    encrypted[tamper_index] ^= 0xFF;

    let result = decrypt_chunk(&encrypted, &key);
    assert!(result.is_err(), "Tampered ciphertext should fail authentication");
}

#[test]
fn test_key_save_load() {
    let original_key = KeyContext::new_random();
    let saved = original_key.to_hex();

    let loaded_key = KeyContext::from_hex(&saved).ok().unwrap();

    assert_eq!(original_key.key_bytes(), loaded_key.key_bytes(), "Loaded key should match original");

    let plaintext = b"test message for key persistence";
    let encrypted = encrypt_chunk(plaintext, &original_key).unwrap();
    let decrypted = decrypt_chunk(&encrypted, &loaded_key).unwrap();

    assert_eq!(decrypted.as_slice(), plaintext, "Keys should be functionally identical");
}

#[test]
fn test_invalid_key_file() {
    let result = KeyContext::from_hex("invalid_hex_data");
    assert!(result.is_err(), "Invalid key file should fail to load");
}

#[test]
fn test_truncated_blob_fails() {
    let key = KeyContext::new_random();

    let short_blob = vec![0u8; NONCE_SIZE + TAG_SIZE - 1];
    let result = decrypt_chunk(&short_blob, &key);
    assert!(result.is_err(), "Truncated blob should fail");
}

#[test]
fn test_empty_data_fails() {
    let key = KeyContext::new_random();
    let result = encrypt_chunk(&[], &key);
    assert!(result.is_err(), "Empty data should not be encrypted");
}

#[test]
fn test_large_data() {
    let key = KeyContext::new_random();
    let large_data = vec![0x42u8; 1024 * 1024];

    let encrypted = encrypt_chunk(&large_data, &key).unwrap();
    let decrypted = decrypt_chunk(&encrypted, &key).unwrap();

    assert_eq!(decrypted, large_data, "Large data roundtrip should succeed");
}

#[test]
fn test_key_from_bytes() {
    let key_bytes = [0x42u8; KEY_SIZE];
    let key1 = KeyContext::from_bytes(key_bytes);
    let key2 = KeyContext::from_bytes(key_bytes);

    let plaintext = b"deterministic key test";
    let encrypted1 = encrypt_chunk(plaintext, &key1).unwrap();

    let decrypted1 = decrypt_chunk(&encrypted1, &key1).unwrap();
    let decrypted2 = decrypt_chunk(&encrypted1, &key2).unwrap();

    assert_eq!(decrypted1, plaintext.to_vec());
    assert_eq!(decrypted2, plaintext.to_vec());
}

#[test]
fn crypto_errors() {
    let key = KeyContext::from_bytes([1; 32]);
    assert_eq!(encrypt_chunk(&[], &key), Err(CryptoError::EmptyData));
    assert_eq!(decrypt_chunk(&[0; 39], &key), Err(CryptoError::BlobTooShort { found: 39 }));
    assert_eq!(decrypt_chunk(&[0; 40], &key), Err(CryptoError::DecryptionFailed));
}

#[test]
fn one_blob_for_a_nonce() {
    let key = KeyContext::new_random();
    assert_eq!(KeyContext::from_hex(&key.to_hex()).ok().unwrap().key_bytes(), key.key_bytes());
    let blob = encrypt_with_nonce(b"message", &key, &[9; 24]).unwrap();
    for at in 24..blob.len() {
        let mut changed = blob.clone();
        changed[at] ^= 1;
        assert_ne!(decrypt_chunk(&changed, &key), Ok(b"message".to_vec()));
    }
}

#[test]
fn blobs_hold_the_nonce() {
    let key = KeyContext::from_bytes([2; 32]);
    let nonce: [u8; 24] = [9; 24];
    let blob = encrypt_with_nonce(b"message", &key, &nonce).unwrap();
    assert_eq!(blob.len(), 24 + 7 + 16);
    assert_eq!(&blob[..24], &nonce);
    assert_eq!(blob, encrypt_with_nonce(b"message", &key, &nonce).unwrap());
    assert_ne!(&blob[24..31], b"message");
    assert_eq!(decrypt_chunk(&blob, &key).unwrap(), b"message");
}

#[test]
fn a_known_ciphertext() {
    // From the draft that defines XChaCha20-Poly1305, without its associated data the ciphertext
    // is the same and only the tag differs.
    let mut key = [0u8; 32];
    for (i, byte) in key.iter_mut().enumerate() {
        *byte = 0x80 + i as u8;
    }
    let mut nonce = [0u8; 24];
    for (i, byte) in nonce.iter_mut().enumerate() {
        *byte = 0x40 + i as u8;
    }
    let text = b"Ladies and Gentlemen of the class of '99: If I could offer you only one tip for the future, sunscreen would be it.";
    let blob = encrypt_with_nonce(text, &KeyContext::from_bytes(key), &nonce).unwrap();
    assert_eq!(&blob[24..40], &[
        0xbd, 0x6d, 0x17, 0x9d, 0x3e, 0x83, 0xd4, 0x3b, 0x95, 0x76, 0x57, 0x94, 0x93, 0xc0, 0xe9,
        0x39
    ]);
}

#[test]
fn key_files() {
    let digits = "000102030405060708090a0b0c0d0e0f101112131415161718191A1B1C1D1E1F";
    let key = KeyContext::from_hex(&format!(" \t{}\r\n", digits)).ok().unwrap();
    let expected: Vec<u8> = (0..32).collect();
    assert_eq!(&key.key_bytes()[..], &expected[..]);
    assert_eq!(key.to_hex(), digits.to_lowercase());
    let error = |text: &str| KeyContext::from_hex(text).err();
    assert_eq!(error(&digits[..62]), Some(CryptoError::InvalidKeyLength { found: 62 }));
    assert_eq!(error(""), Some(CryptoError::InvalidKeyLength { found: 0 }));
    assert_eq!(error(&digits.replace('a', "g")), Some(CryptoError::InvalidKeyEncoding));
    // The length counts in bytes.
    assert_eq!(error(&"\u{e9}".repeat(32)), Some(CryptoError::InvalidKeyEncoding));
    assert_eq!(
        error(&"\u{e9}".repeat(64)),
        Some(CryptoError::InvalidKeyLength { found: 128 })
    );
    // Other space than that of ASCII goes too.
    assert!(KeyContext::from_hex(&format!("\u{3000}{}\u{85}", digits)).is_ok());
}

#[test]
fn keys_can_be_wiped() {
    let mut key = KeyContext::from_bytes([5; 32]);
    key.zeroize();
    assert_eq!(key.key_bytes(), &[0; 32]);
}

#[test]
fn test_plain_pipeline() {
    let pipeline = PlainPipeline;
    let data = b"test data";

    let processed = pipeline.process(data).unwrap();
    assert_eq!(processed, data);

    let reversed = pipeline.reverse(&processed).unwrap();
    assert_eq!(reversed, data);
}

#[test]
fn test_compressed_pipeline() {
    let pipeline = CompressedPipeline::new(3);
    let data = b"test data test data test data test data test data";

    let compressed = pipeline.process(data).unwrap();
    assert!(compressed.len() < data.len());

    let decompressed = pipeline.reverse(&compressed).unwrap();
    assert_eq!(decompressed, data);
}

#[test]
fn test_secure_pipeline_roundtrip() {
    let key = KeyContext::new_random();
    let pipeline = SecurePipeline::with_default_compression(key);

    let plaintext = b"The quick brown fox jumps over the lazy dog";

    let encrypted = pipeline.process(plaintext).unwrap();
    assert_ne!(encrypted, plaintext);
    assert!(encrypted.len() > plaintext.len());

    let decrypted = pipeline.reverse(&encrypted).unwrap();
    assert_eq!(decrypted, plaintext);
}

#[test]
fn test_secure_pipeline_compresses_before_encrypt() {
    let key = KeyContext::new_random();
    let pipeline = SecurePipeline::new(key, 9);

    let repetitive_data = vec![b'A'; 1024];

    let encrypted = pipeline.process(&repetitive_data).unwrap();

    let overhead = 24 + 16;
    assert!(encrypted.len() < repetitive_data.len() + overhead);

    let decrypted = pipeline.reverse(&encrypted).unwrap();
    assert_eq!(decrypted, repetitive_data.as_slice());
}

#[test]
fn test_secure_pipeline_wrong_key_fails() {
    let key1 = KeyContext::new_random();
    let key2 = KeyContext::new_random();

    let pipeline1 = SecurePipeline::with_default_compression(key1);
    let pipeline2 = SecurePipeline::with_default_compression(key2);

    let data = b"secret message";
    let encrypted = pipeline1.process(data).unwrap();

    let result = pipeline2.reverse(&encrypted);
    assert!(result.is_err());
}

#[test]
fn test_secure_pipeline_large_data() {
    let key = KeyContext::new_random();
    let pipeline = SecurePipeline::with_default_compression(key);

    let large_data = vec![0x42u8; 1024 * 1024];

    let encrypted = pipeline.process(&large_data).unwrap();
    let decrypted = pipeline.reverse(&encrypted).unwrap();

    assert_eq!(decrypted, large_data.as_slice());
}

#[test]
fn pipeline_errors() {
    assert_eq!(
        CompressedPipeline::new(3).reverse(b"no frame"),
        Err(PipelineError::DecompressionFailed)
    );
    let secure = SecurePipeline::with_default_compression(KeyContext::from_bytes([3; 32]));
    assert_eq!(
        secure.reverse(b"short"),
        Err(PipelineError::Crypto(CryptoError::BlobTooShort { found: 5 }))
    );
    assert_eq!(
        secure.reverse(&[0; 50]),
        Err(PipelineError::Crypto(CryptoError::DecryptionFailed))
    );
    // What opens is still to be a frame.
    let blob = encrypt_chunk(b"no frame", &KeyContext::from_bytes([3; 32])).unwrap();
    assert_eq!(secure.reverse(&blob), Err(PipelineError::DecompressionFailed));
    assert_eq!(secure.reverse(&secure.process(&[]).unwrap()), Ok(vec![]));
}

#[test]
fn test_get_default_key_path() {
    let (directory, file) = EncryptionManager::default_key_location();
    assert!(directory.contains("r_delta"));
    assert!(file.contains("secret.key"));
}

#[test]
fn test_load_or_generate_with_path() {
    let key = KeyContext::new_random();
    let saved = key.to_hex();
    assert_eq!(EncryptionManager::load_or_generate(true, true), KeyStep::Load);
    let loaded = KeyContext::from_hex(&saved).ok().unwrap();
    assert_eq!(key.key_bytes(), loaded.key_bytes());
}

#[test]
fn test_load_or_generate_nonexistent_path() {
    assert_eq!(EncryptionManager::load_or_generate(true, false), KeyStep::Missing);
    let err_msg = EncryptionManager::missing_key_text("/tmp/nonexistent.key");
    assert!(err_msg.contains("does not exist"));
    assert_eq!(err_msg, "Specified key file does not exist: /tmp/nonexistent.key");
}

#[test]
fn test_ensure_key_exists_creates_new() {
    assert_eq!(EncryptionManager::ensure_key_exists(false), KeyStep::Generate);
    let key = KeyContext::from_hex(&KeyContext::new_random().to_hex()).ok().unwrap();
    assert_eq!(key.key_bytes().len(), 32);
}

#[test]
fn test_ensure_key_exists_preserves_existing() {
    assert_eq!(EncryptionManager::ensure_key_exists(true), KeyStep::Keep);
}

#[test]
fn default_keys() {
    assert_eq!(EncryptionManager::get_default_key(true), KeyStep::Load);
    assert_eq!(EncryptionManager::get_default_key(false), KeyStep::Generate);
    assert_eq!(EncryptionManager::load_or_generate(false, true), KeyStep::Load);
    assert_eq!(EncryptionManager::load_or_generate(false, false), KeyStep::Generate);
}

#[test]
fn checksums_as_text() {
    let mut checksum = [0u8; 32];
    checksum[0] = 0x0f;
    checksum[31] = 0xa5;
    let text = checksum_text(&checksum);
    assert_eq!(text, format!("0f{}a5", "00".repeat(30)));
}

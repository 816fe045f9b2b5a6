use self_crypto_key::crypto::{
    decrypt_shard, deobfuscate, encrypt_shard, mod_inverse, obfuscate, xor_cipher,
};
use self_crypto_key::CryptoParams;

fn params() -> CryptoParams {
    CryptoParams::generate(0x5eed_0001)
}

#[test]
fn test_xor_cipher() {
    let data = b"hello world";
    let key = b"secret";

    let encrypted = xor_cipher(data, key);
    assert_ne!(data, encrypted.as_slice());

    let decrypted = xor_cipher(&encrypted, key);
    assert_eq!(data, decrypted.as_slice());
}

#[test]
fn test_obfuscate() {
    let p = params();
    let data = b"test data 12345";
    let seed = 42;

    let obfuscated = obfuscate(&p, data, seed);
    assert_ne!(data, obfuscated.as_slice());

    let deobfuscated = deobfuscate(&p, &obfuscated, seed);
    assert_eq!(data, deobfuscated.as_slice());
}

#[test]
fn test_encrypt_decrypt_shard() {
    let p = params();
    let original = b"my secret key";
    let derive_key = b"derived_key_from_hash";
    let seed = 123;

    let encrypted = encrypt_shard(&p, original, derive_key, seed);
    assert_ne!(original, encrypted.as_slice());

    let decrypted = decrypt_shard(&p, &encrypted, derive_key, seed);
    assert_eq!(original, decrypted.as_slice());
}

#[test]
fn test_different_seeds_produce_different_results() {
    let p = params();
    let data = b"same data";
    let key = b"same key";

    let encrypted1 = encrypt_shard(&p, data, key, 1);
    let encrypted2 = encrypt_shard(&p, data, key, 2);

    assert_ne!(encrypted1, encrypted2);
}

#[test]
fn test_empty_data() {
    let p = params();
    let data = b"";
    let key = b"key";
    let seed = 1;

    let encrypted = encrypt_shard(&p, data, key, seed);
    assert_eq!(encrypted.len(), 0);

    let decrypted = decrypt_shard(&p, &encrypted, key, seed);
    assert_eq!(data, decrypted.as_slice());
}

#[test]
fn crypto_test_large_data() {
    let p = params();
    let data = vec![42u8; 10000];
    let key = b"test_key";
    let seed = 99;

    let encrypted = encrypt_shard(&p, &data, key, seed);
    assert_eq!(encrypted.len(), data.len());

    let decrypted = decrypt_shard(&p, &encrypted, key, seed);
    assert_eq!(data, decrypted);
}

#[test]
fn test_mod_inverse_all_odd_bytes() {
    // Every odd byte has an inverse, and the product is 1 mod 256.
    let mut m: u16 = 1;
    while m < 256 {
        let inv = mod_inverse(m as u8);
        assert_eq!((m as u32 * inv as u32) % 256, 1, "byte {} has a wrong inverse", m);
        m += 2;
    }
}

#[test]
fn test_obfuscation_tables_invert() {
    // The deobfuscation table undoes the obfuscation table on every byte.
    let p = params();
    for i in 0..256usize {
        let through = p.obfuscate_table[i] as usize;
        assert_eq!(p.deobfuscate_table[through] as usize, i);
    }
}

#[test]
fn test_single_byte_roundtrip_all_values() {
    // Every byte value survives obfuscation and deobfuscation, for
    // several seeds.
    let p = params();
    for seed in [0u8, 1, 77, 255] {
        for b in 0..=255u8 {
            let ob = obfuscate(&p, &[b], seed);
            let back = deobfuscate(&p, &ob, seed);
            assert_eq!(back, vec![b]);
        }
    }
}

#[test]
fn test_encryption_is_deterministic() {
    // The same parameters, data, key and seed give the same ciphertext.
    let p = params();
    let data = b"determinism check";
    let key = b"k1";
    let one = encrypt_shard(&p, data, key, 9);
    let two = encrypt_shard(&p, data, key, 9);
    assert_eq!(one, two);
}

#[test]
fn test_xor_key_wraps_around() {
    // The key repeats: with a one-byte key every byte is XORed with it.
    let out = xor_cipher(&[1, 2, 3, 4], &[0xff]);
    assert_eq!(out, vec![0xfe, 0xfd, 0xfc, 0xfb]);
}

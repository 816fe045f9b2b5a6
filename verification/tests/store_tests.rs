use self_crypto_key::{CryptoParams, Error, KeyMetadata, KeyStore};

// ---------------------------------------------------------------------
// A minimal ELF image with the reservation layout, built in memory: a
// small code section, the metadata slot, and the eight data slots.
// ---------------------------------------------------------------------

struct SectionSpec {
    name: &'static str,
    data: Vec<u8>,
}

fn push_shdr(img: &mut Vec<u8>, name: u32, sh_type: u32, flags: u64, off: u64, size: u64) {
    img.extend_from_slice(&name.to_le_bytes());
    img.extend_from_slice(&sh_type.to_le_bytes());
    img.extend_from_slice(&flags.to_le_bytes());
    img.extend_from_slice(&0u64.to_le_bytes()); // address
    img.extend_from_slice(&off.to_le_bytes());
    img.extend_from_slice(&size.to_le_bytes());
    img.extend_from_slice(&0u32.to_le_bytes()); // link
    img.extend_from_slice(&0u32.to_le_bytes()); // info
    img.extend_from_slice(&1u64.to_le_bytes()); // alignment
    img.extend_from_slice(&0u64.to_le_bytes()); // entry size
}

fn build_elf(sections: &[SectionSpec]) -> Vec<u8> {
    let mut strtab: Vec<u8> = vec![0];
    let mut name_offs: Vec<u32> = Vec::new();
    for s in sections {
        name_offs.push(strtab.len() as u32);
        strtab.extend_from_slice(s.name.as_bytes());
        strtab.push(0);
    }
    let shstrtab_name_off = strtab.len() as u32;
    strtab.extend_from_slice(b".shstrtab");
    strtab.push(0);

    let mut offsets: Vec<usize> = Vec::new();
    let mut cur = 64usize;
    for s in sections {
        offsets.push(cur);
        cur += s.data.len();
    }
    let strtab_off = cur;
    cur += strtab.len();
    let shoff = (cur + 7) & !7usize;
    let shnum = sections.len() + 2;

    let mut img: Vec<u8> = Vec::new();
    img.extend_from_slice(&[0x7f, b'E', b'L', b'F', 2, 1, 1, 0, 0, 0, 0, 0, 0, 0, 0, 0]);
    img.extend_from_slice(&2u16.to_le_bytes()); // executable
    img.extend_from_slice(&62u16.to_le_bytes()); // x86-64
    img.extend_from_slice(&1u32.to_le_bytes());
    img.extend_from_slice(&0u64.to_le_bytes()); // entry point
    img.extend_from_slice(&0u64.to_le_bytes()); // program header offset
    img.extend_from_slice(&(shoff as u64).to_le_bytes());
    img.extend_from_slice(&0u32.to_le_bytes()); // flags
    img.extend_from_slice(&64u16.to_le_bytes()); // header size
    img.extend_from_slice(&0u16.to_le_bytes()); // phentsize
    img.extend_from_slice(&0u16.to_le_bytes()); // phnum
    img.extend_from_slice(&64u16.to_le_bytes()); // shentsize
    img.extend_from_slice(&(shnum as u16).to_le_bytes());
    img.extend_from_slice(&((shnum - 1) as u16).to_le_bytes());
    assert_eq!(img.len(), 64);

    for s in sections {
        img.extend_from_slice(&s.data);
    }
    img.extend_from_slice(&strtab);
    while img.len() < shoff {
        img.push(0);
    }
    img.extend_from_slice(&[0u8; 64]); // null section header
    for (k, s) in sections.iter().enumerate() {
        push_shdr(&mut img, name_offs[k], 1, 0x3, offsets[k] as u64, s.data.len() as u64);
    }
    push_shdr(&mut img, shstrtab_name_off, 3, 0, strtab_off as u64, strtab.len() as u64);
    img
}

/// The full reservation layout: `.text` at offset 64 (64 bytes), the
/// metadata slot at 128 (4096 bytes), the data slots from 4224 on.
fn test_image() -> Vec<u8> {
    let mut sections = vec![SectionSpec {
        name: ".text",
        data: (0..64u32).map(|i| (i * 7 + 3) as u8).collect(),
    }];
    sections.push(SectionSpec { name: ".key_meta", data: vec![0u8; 4096] });
    let names = [
        ".key_data_00",
        ".key_data_01",
        ".key_data_02",
        ".key_data_03",
        ".key_data_04",
        ".key_data_05",
        ".key_data_06",
        ".key_data_07",
    ];
    for name in names {
        sections.push(SectionSpec { name, data: vec![0u8; 1024] });
    }
    build_elf(&sections)
}

fn store_params() -> CryptoParams {
    CryptoParams::generate(0x5eed_0002)
}

/// An image whose metadata slot already holds the given record, so that a
/// store opened on it uses exactly this layout.
fn image_with_metadata(meta: &KeyMetadata) -> Vec<u8> {
    let mut image = test_image();
    let json = meta.to_bytes().unwrap();
    image[128 + 8..128 + 8 + json.len()].copy_from_slice(&json);
    image
}

fn four_shard_metadata() -> KeyMetadata {
    KeyMetadata {
        num_shards: 4,
        shard_sizes: vec![1024; 4],
        shard_names: vec![
            ".key_data_02".to_string(),
            ".key_data_05".to_string(),
            ".key_data_00".to_string(),
            ".key_data_07".to_string(),
        ],
        version: 1,
    }
}

// ---------------------------------------------------------------------
// Random key generation.
// ---------------------------------------------------------------------

#[test]
fn test_key_generation() {
    let key1 = KeyStore::generate_random_key(20);
    let key2 = KeyStore::generate_random_key(20);

    assert_eq!(key1.len(), 20);
    assert_eq!(key2.len(), 20);
    assert_ne!(key1, key2);

    for ch in key1.chars() {
        let code = ch as u32;
        assert!(code >= 33 && code <= 126, "character '{}' is not printable", ch);
    }
}

#[test]
fn test_bytes_generation() {
    let bytes1 = KeyStore::generate_random_bytes(32);
    let bytes2 = KeyStore::generate_random_bytes(32);

    assert_eq!(bytes1.len(), 32);
    assert_eq!(bytes2.len(), 32);
    assert_ne!(bytes1, bytes2);
}

#[test]
fn test_different_lengths() {
    for len in [1, 10, 32, 64, 128, 256, 512, 1024] {
        let key = KeyStore::generate_random_key(len);
        assert_eq!(key.len(), len, "generation failed for length {}", len);
    }
}

#[test]
fn test_boundary_conditions() {
    let key_min = KeyStore::generate_random_key(1);
    assert_eq!(key_min.len(), 1);

    let key_large = KeyStore::generate_random_key(4096);
    assert_eq!(key_large.len(), 4096);

    println!("boundary conditions pass");
}

// ---------------------------------------------------------------------
// Opening a store.
// ---------------------------------------------------------------------

#[test]
fn test_keystore_creation() {
    let image = test_image();
    let store = KeyStore::new(&image, store_params());

    match store {
        Ok(store) => {
            println!("store created");
            let capacity = store.capacity();
            println!("  total capacity: {} bytes", capacity);
            assert!(capacity > 0, "the capacity must be positive");
            assert!(
                capacity >= 4096 && capacity <= 8192,
                "the capacity must lie between 4 KiB and 8 KiB"
            );
        }
        Err(e) => {
            println!("store creation failed: {}", e.describe());
        }
    }
}

#[test]
fn test_capacity() {
    let image = test_image();
    if let Ok(store) = KeyStore::new(&image, store_params()) {
        let capacity = store.capacity();
        assert!(
            capacity >= 4 * 1024 && capacity <= 8 * 1024,
            "the capacity must lie between 4 KiB and 8 KiB"
        );
    }
}

#[test]
fn integration_test_test_metadata_generation() {
    for i in 0..5 {
        let image = test_image();
        match KeyStore::new(&image, store_params()) {
            Ok(_) => println!("store {} created", i),
            Err(e) => println!("store {} failed: {}", i, e.describe()),
        }
    }
}

// ---------------------------------------------------------------------
// Updating with assorted inputs.
// ---------------------------------------------------------------------

#[test]
fn test_empty_key() {
    let image = test_image();
    if let Ok(store) = KeyStore::new(&image, store_params()) {
        let result = store.update(&image, "");
        match result {
            Ok(_) => println!("empty key stored"),
            Err(e) => println!("empty key failed: {}", e.describe()),
        }
    }
}

#[test]
fn test_empty_bytes() {
    let image = test_image();
    if let Ok(store) = KeyStore::new(&image, store_params()) {
        let result = store.update_bytes(&image, b"");
        match result {
            Ok(_) => println!("empty bytes stored"),
            Err(e) => println!("empty bytes failed: {}", e.describe()),
        }
    }
}

#[test]
fn test_special_characters() {
    let special_keys = vec![
        "hello@world!",
        "password#123$",
        "key~with^special&chars",
        "tab\there",
        "new\nline",
    ];

    let image = test_image();
    if let Ok(store) = KeyStore::new(&image, store_params()) {
        for key in special_keys {
            let result = store.update(&image, key);
            match result {
                Ok(_) => println!("special key '{}' passes", key.escape_default()),
                Err(e) => println!("special key failed: {}", e.describe()),
            }
        }
    }
}

#[test]
fn test_binary_data() {
    let binary_data = vec![0u8, 1, 2, 255, 254, 128, 127];

    let image = test_image();
    if let Ok(store) = KeyStore::new(&image, store_params()) {
        let result = store.update_bytes(&image, &binary_data);
        match result {
            Ok(_) => println!("binary data stored"),
            Err(e) => println!("binary data failed: {}", e.describe()),
        }
    }
}

#[test]
fn integration_test_test_large_data() {
    let large_key = vec![42u8; 5000];

    let image = test_image();
    if let Ok(store) = KeyStore::new(&image, store_params()) {
        let result = store.update_bytes(&image, &large_key);
        match result {
            Ok(_) => println!("large data (5 KiB) stored"),
            Err(e) => println!("large data failed: {}", e.describe()),
        }
    }
}

#[test]
fn test_very_large_data() {
    let very_large_key = vec![99u8; 8000];

    let image = test_image();
    if let Ok(store) = KeyStore::new(&image, store_params()) {
        let result = store.update_bytes(&image, &very_large_key);
        match result {
            Ok(_) => println!("near-capacity data (8000 bytes) stored"),
            Err(e) => println!("near-capacity data failed: {}", e.describe()),
        }
    }
}

#[test]
fn test_exceed_capacity() {
    let too_large_key = vec![1u8; 10000];

    let image = test_image();
    if let Ok(store) = KeyStore::new(&image, store_params()) {
        let result = store.update_bytes(&image, &too_large_key);
        match result {
            Ok(_) => panic!("data beyond the capacity must be rejected"),
            Err(e) => {
                println!("data beyond the capacity rejected: {}", e.describe());
            }
        }
    }
}

#[test]
fn test_different_data_types() {
    let incremental: Vec<u8> = (0u8..=255).collect();
    let test_cases = vec![
        ("text", b"Hello World".as_slice()),
        ("digits", b"1234567890".as_slice()),
        ("mixed", b"abc123!@#".as_slice()),
        ("zeros", &[0u8; 100][..]),
        ("ones", &[255u8; 100][..]),
        ("incremental", incremental.as_slice()),
    ];

    let image = test_image();
    if let Ok(store) = KeyStore::new(&image, store_params()) {
        for (name, data) in test_cases {
            let result = store.update_bytes(&image, data);
            match result {
                Ok(_) => println!("{} data passes", name),
                Err(e) => println!("{} data failed: {}", name, e.describe()),
            }
        }
    }
}

fn validate_key_string(key: &str) -> bool {
    if key.is_empty() {
        return true;
    }

    key.chars().all(|c| !c.is_control() || c == '\n' || c == '\t')
}

#[test]
fn test_key_validation() {
    let valid_keys = vec!["", "simple", "with spaces", "special!@#$%^&*()", "123456789"];

    for key in valid_keys {
        assert!(validate_key_string(key), "key '{}' must be valid", key);
    }

    println!("key validation passes");
}

// ---------------------------------------------------------------------
// Round trips through the image.
// ---------------------------------------------------------------------

#[test]
fn test_fresh_image_reads_empty() {
    // An image whose metadata slot is all zero stores nothing.
    let image = test_image();
    let store = KeyStore::new(&image, store_params()).unwrap();
    assert_eq!(store.read_bytes(&image).unwrap(), Vec::<u8>::new());
}

#[test]
fn test_initialization_scenario() {
    // Without a prior update the store reads empty; after the first
    // update it reads back exactly what was written.
    let image = test_image();
    let store = KeyStore::new(&image, store_params()).unwrap();
    assert_eq!(store.read_bytes(&image).unwrap(), Vec::<u8>::new());

    let image2 = store.update_bytes(&image, &[0x41, 0x42, 0x43]).unwrap();
    assert_eq!(store.read_bytes(&image2).unwrap(), vec![0x41, 0x42, 0x43]);
}

#[test]
fn test_binary_roundtrip() {
    let image = test_image();
    let store = KeyStore::new(&image, store_params()).unwrap();
    let secret = [0x42u8, 0xFF, 0x00, 0xAB, 0xCD, 0xEF, 0x12, 0x34];
    let image2 = store.update_bytes(&image, &secret).unwrap();
    assert_eq!(store.read_bytes(&image2).unwrap(), secret.to_vec());
}

#[test]
fn test_text_roundtrip_non_ascii() {
    let image = test_image();
    let store = KeyStore::new(&image, store_params()).unwrap();
    let image2 = store.update(&image, "héllo-世界").unwrap();
    assert_eq!(store.read(&image2).unwrap(), "héllo-世界");
}

#[test]
fn test_empty_secret_roundtrip() {
    let image = test_image();
    let store = KeyStore::new(&image, store_params()).unwrap();
    let image2 = store.update_bytes(&image, b"").unwrap();
    assert_eq!(store.read_bytes(&image2).unwrap(), Vec::<u8>::new());
}

#[test]
fn test_max_length_secret_roundtrip() {
    // A secret of exactly the capacity round-trips.
    let meta = four_shard_metadata();
    let image = image_with_metadata(&meta);
    let store = KeyStore::new(&image, store_params()).unwrap();
    assert_eq!(store.capacity(), 4096);

    let secret: Vec<u8> = (0..4096u32).map(|i| (i * 31 + 5) as u8).collect();
    let image2 = store.update_bytes(&image, &secret).unwrap();
    assert_eq!(store.read_bytes(&image2).unwrap(), secret);
}

#[test]
fn test_over_capacity_fails_with_config() {
    // One byte over the capacity fails with a configuration error and
    // changes nothing.
    let meta = four_shard_metadata();
    let image = image_with_metadata(&meta);
    let original = image.clone();
    let store = KeyStore::new(&image, store_params()).unwrap();
    assert_eq!(store.capacity(), 4096);

    let secret = vec![0x99u8; 4097];
    match store.update_bytes(&image, &secret) {
        Ok(_) => panic!("an over-capacity secret must be rejected"),
        Err(Error::Config(_)) => {}
        Err(e) => panic!("wrong error kind: {}", e.describe()),
    }
    assert_eq!(image, original);
}

#[test]
fn test_layout_is_stable_across_updates() {
    // The metadata record written by the first update stays in place, so
    // a second store opened on the updated image uses the same layout.
    let image = test_image();
    let store = KeyStore::new(&image, store_params()).unwrap();
    let image2 = store.update_bytes(&image, b"first").unwrap();

    let store2 = KeyStore::new(&image2, store_params()).unwrap();
    assert_eq!(store2.capacity(), store.capacity());
    let image3 = store2.update_bytes(&image2, b"second").unwrap();
    assert_eq!(store2.read_bytes(&image3).unwrap(), b"second".to_vec());
}

#[test]
fn test_code_tamper_invalidates_secret() {
    // Flipping one byte of the code section destroys the plaintext but
    // keeps the stored length.
    let image = test_image();
    let store = KeyStore::new(&image, store_params()).unwrap();
    let secret = b"secret".to_vec();
    let mut image2 = store.update_bytes(&image, &secret).unwrap();

    image2[80] ^= 0x01; // one byte inside .text (offset 64..128)

    let recovered = store.read_bytes(&image2).unwrap();
    assert_eq!(recovered.len(), secret.len());
    assert_ne!(recovered, secret);
}

#[test]
fn test_read_of_non_utf8_secret_fails() {
    let image = test_image();
    let store = KeyStore::new(&image, store_params()).unwrap();
    let image2 = store.update_bytes(&image, &[0xff, 0xfe, 0x41]).unwrap();
    match store.read(&image2) {
        Ok(_) => panic!("bytes that are not UTF-8 must not read as text"),
        Err(Error::Parse(_)) => {}
        Err(e) => panic!("wrong error kind: {}", e.describe()),
    }
}

#[test]
fn test_wrong_parameters_fail_to_decrypt() {
    // Decrypting with a different parameter set yields different bytes.
    let image = test_image();
    let store = KeyStore::new(&image, store_params()).unwrap();
    let secret = b"parameter binding".to_vec();
    let image2 = store.update_bytes(&image, &secret).unwrap();

    let other = KeyStore::new(&image2, CryptoParams::generate(0x0dd_5eed)).unwrap();
    let recovered = other.read_bytes(&image2).unwrap();
    assert_ne!(recovered, secret);
}

// ---------------------------------------------------------------------
// Error reporting.
// ---------------------------------------------------------------------

#[test]
fn test_missing_slot_reports_section_not_found() {
    // A layout that names a slot the image does not reserve fails with
    // `SectionNotFound` on update.
    let mut sections = vec![SectionSpec { name: ".text", data: vec![0x90u8; 64] }];
    sections.push(SectionSpec { name: ".key_meta", data: vec![0u8; 4096] });
    sections.push(SectionSpec { name: ".key_data_00", data: vec![0u8; 1024] });
    let image = build_elf(&sections);

    let meta = KeyMetadata {
        num_shards: 1,
        shard_sizes: vec![1024],
        shard_names: vec![".key_data_05".to_string()],
        version: 1,
    };
    let json = meta.to_bytes().unwrap();
    let mut image = image;
    image[128 + 8..128 + 8 + json.len()].copy_from_slice(&json);

    let store = KeyStore::new(&image, store_params()).unwrap();
    match store.update_bytes(&image, b"x") {
        Err(Error::SectionNotFound(_)) => {}
        other => panic!("expected a missing-section error, got {:?}", other.map(|_| ())),
    }
}

#[test]
fn test_undersized_slot_reports_size_mismatch() {
    // A layout that declares a shard larger than its slot fails with
    // `SizeMismatch`.
    let meta = KeyMetadata {
        num_shards: 1,
        shard_sizes: vec![2048],
        shard_names: vec![".key_data_00".to_string()],
        version: 1,
    };
    let image = image_with_metadata(&meta);
    let store = KeyStore::new(&image, store_params()).unwrap();
    match store.update_bytes(&image, b"x") {
        Err(Error::SizeMismatch { expected, actual }) => {
            assert_eq!(expected, 2048);
            assert_eq!(actual, 1024);
        }
        other => panic!("expected a size mismatch, got {:?}", other.map(|_| ())),
    }
}

#[test]
fn test_non_elf_image_reports_parse() {
    let junk = vec![0u8; 256];
    let store = KeyStore::new(&junk, store_params()).unwrap(); // falls back to a fresh layout
    match store.read_bytes(&junk) {
        Err(Error::Parse(_)) => {}
        other => panic!("expected a parse error, got {:?}", other.map(|_| ())),
    }
}

// ---------------------------------------------------------------------
// Key derivation against a known digest.
// ---------------------------------------------------------------------

#[test]
fn test_derived_key_is_prefix_of_code_hash() {
    // With `.text` holding the three bytes "abc", the derived key is the
    // prefix of the well-known SHA-256 digest of "abc".
    let mut sections = vec![SectionSpec { name: ".text", data: b"abc".to_vec() }];
    sections.push(SectionSpec { name: ".key_meta", data: vec![0u8; 4096] });
    let image = build_elf(&sections);

    let key = self_crypto_key::crypto::derive_key_from_section(&image, ".text", 8).unwrap();
    assert_eq!(key, vec![0xba, 0x78, 0x16, 0xbf, 0x8f, 0x01, 0xcf, 0xea]);

    let full = self_crypto_key::crypto::derive_key_from_section(&image, ".text", 100).unwrap();
    assert_eq!(full.len(), 32);

    match self_crypto_key::crypto::derive_key_from_section(&image, ".nope", 8) {
        Err(Error::SectionNotFound(_)) => {}
        other => panic!("expected a missing-section error, got {:?}", other.map(|_| ())),
    }
}

#[test]
fn test_find_section_reports_exact_ranges() {
    let image = test_image();
    assert_eq!(self_crypto_key::elf::find_section(&image, ".text").unwrap(), (64, 64));
    assert_eq!(self_crypto_key::elf::find_section(&image, ".key_meta").unwrap(), (128, 4096));
    assert_eq!(self_crypto_key::elf::find_section(&image, ".key_data_00").unwrap(), (4224, 1024));
    assert!(self_crypto_key::elf::find_section(&image, ".missing").is_err());
}

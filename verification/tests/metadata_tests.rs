use self_crypto_key::KeyMetadata;

#[test]
fn metadata_test_metadata_generation() {
    let meta = KeyMetadata::generate();
    assert!(meta.num_shards >= 4 && meta.num_shards <= 8);
    assert_eq!(meta.shard_sizes.len(), meta.num_shards);
    assert_eq!(meta.shard_names.len(), meta.num_shards);
    meta.validate().unwrap();
}

#[test]
fn test_metadata_serialization() {
    let meta = KeyMetadata::generate();
    let bytes = meta.to_bytes().unwrap();
    let meta2 = KeyMetadata::from_bytes(&bytes).unwrap();

    assert_eq!(meta.num_shards, meta2.num_shards);
    assert_eq!(meta.shard_sizes, meta2.shard_sizes);
    assert_eq!(meta.shard_names, meta2.shard_names);
}

#[test]
fn test_total_capacity() {
    let meta = KeyMetadata::generate();
    let expected = meta.shard_sizes.iter().sum::<usize>();
    assert_eq!(meta.total_capacity(), expected);
}

#[test]
fn test_generation_is_well_distributed() {
    // Over many generations every shard count between 4 and 8 appears,
    // and the name set is always a duplicate-free subset of the eight
    // canonical slot names.
    let mut seen = [false; 9];
    for _ in 0..200 {
        let meta = KeyMetadata::generate();
        assert!(meta.num_shards >= 4 && meta.num_shards <= 8);
        seen[meta.num_shards] = true;
        for (i, name) in meta.shard_names.iter().enumerate() {
            assert!(name.starts_with(".key_data_0"));
            let digit = name.as_bytes()[11];
            assert!((b'0'..=b'7').contains(&digit));
            for other in &meta.shard_names[..i] {
                assert_ne!(name, other);
            }
        }
    }
    for count in 4..=8 {
        assert!(seen[count], "shard count {} never appeared", count);
    }
}

#[test]
fn test_serialization_exact_bytes() {
    let meta = KeyMetadata {
        num_shards: 2,
        shard_sizes: vec![1024, 1024],
        shard_names: vec![".key_data_00".to_string(), ".key_data_07".to_string()],
        version: 1,
    };
    let bytes = meta.to_bytes().unwrap();
    let expected: &[u8] = b"{\"num_shards\":2,\"shard_sizes\":[1024,1024],\"shard_names\":[\".key_data_00\",\".key_data_07\"],\"version\":1}";
    assert_eq!(bytes.as_slice(), expected);
}

#[test]
fn test_from_bytes_skips_prefix_and_padding() {
    // Junk before the first brace and zero padding after the last brace
    // are ignored, as they are in the metadata section.
    let mut buf = vec![0xaau8, 0, 7];
    buf.extend_from_slice(
        b"{\"num_shards\":1,\"shard_sizes\":[1024],\"shard_names\":[\".key_data_03\"],\"version\":1}",
    );
    buf.extend_from_slice(&[0u8; 57]);
    let meta = KeyMetadata::from_bytes(&buf).unwrap();
    assert_eq!(meta.num_shards, 1);
    assert_eq!(meta.shard_sizes, vec![1024]);
    assert_eq!(meta.shard_names, vec![".key_data_03".to_string()]);
    assert_eq!(meta.version, 1);
}

#[test]
fn test_from_bytes_rejects_garbage() {
    assert!(KeyMetadata::from_bytes(b"").is_err());
    assert!(KeyMetadata::from_bytes(&[0u8; 128]).is_err());
    assert!(KeyMetadata::from_bytes(b"}{").is_err());
    assert!(KeyMetadata::from_bytes(b"{\"num_shards\":}").is_err());
    assert!(KeyMetadata::from_bytes(b"{not json}").is_err());
}

#[test]
fn test_from_bytes_rejects_oversized_numbers() {
    let huge = b"{\"num_shards\":1,\"shard_sizes\":[99999999999999999999999999],\"shard_names\":[\".key_data_00\"],\"version\":1}";
    assert!(KeyMetadata::from_bytes(huge).is_err());
}

#[test]
fn test_validate_rejects_bad_shapes() {
    let mut meta = KeyMetadata {
        num_shards: 0,
        shard_sizes: vec![],
        shard_names: vec![],
        version: 1,
    };
    assert!(meta.validate().is_err());

    meta.num_shards = 9;
    assert!(meta.validate().is_err());

    meta.num_shards = 2;
    meta.shard_sizes = vec![1024];
    meta.shard_names = vec![".key_data_00".to_string(), ".key_data_01".to_string()];
    assert!(meta.validate().is_err());

    meta.shard_sizes = vec![1024, 1024];
    meta.shard_names = vec![".key_data_00".to_string()];
    assert!(meta.validate().is_err());

    meta.shard_names = vec![".key_data_00".to_string(), ".key_data_01".to_string()];
    assert!(meta.validate().is_ok());
}

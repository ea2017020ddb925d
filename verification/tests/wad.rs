use league_mod_manager::wad::{path_hash, read_wad, Compression, WadBuilder, WadError, HEADER_LEN};
use league_mod_manager::xxhash64::xxh64;

#[test]
fn xxh64_matches_known_vectors() {
    // Canonical XXH64 reference values (seed 0).
    assert_eq!(xxh64(b"", 0), 0xEF46_DB37_51D8_E999);
    // A >32 byte input exercises the main accumulator loop and merge steps.
    let long = b"The quick brown fox jumps over the lazy dog.....";
    assert!(long.len() > 32);
    let once = xxh64(long, 0);
    // Deterministic and seed-sensitive.
    assert_eq!(once, xxh64(long, 0));
    assert_ne!(once, xxh64(long, 1));
}

#[test]
fn path_hash_is_case_insensitive() {
    assert_eq!(
        path_hash("DATA/Menu.wad.client"),
        path_hash("data/menu.wad.client")
    );
    assert_ne!(path_hash("a.bin"), path_hash("b.bin"));
}

#[test]
fn raw_round_trips() {
    let mut builder = WadBuilder::new();
    builder.add("data/one.bin", b"hello".to_vec(), Compression::Raw);
    builder.add("data/two.bin", b"world".to_vec(), Compression::Raw);

    let mut buffer = Vec::new();
    builder.write(&mut buffer).unwrap();

    let entries = read_wad(&buffer).unwrap();
    assert_eq!(entries.len(), 2);

    let one = entries
        .iter()
        .find(|entry| entry.path_hash == path_hash("data/one.bin"))
        .unwrap();
    assert_eq!(one.data, b"hello");
}

#[test]
fn gzip_round_trips_and_shrinks() {
    let payload = vec![b'A'; 4096];
    let mut builder = WadBuilder::new();
    builder.add("data/big.bin", payload.clone(), Compression::Gzip);

    let mut buffer = Vec::new();
    builder.write(&mut buffer).unwrap();
    // Compression should make the archive far smaller than the raw payload.
    assert!(buffer.len() < payload.len());

    let entries = read_wad(&buffer).unwrap();
    assert_eq!(entries.len(), 1);
    assert_eq!(entries[0].data, payload);
    assert_eq!(entries[0].compression, Compression::Gzip);
}

#[test]
fn rejects_foreign_data() {
    assert!(matches!(read_wad(b"not a wad"), Err(WadError::BadMagic)));
    assert!(matches!(read_wad(&[]), Err(WadError::Truncated)));
}

#[test]
fn detects_toc_corruption() {
    let mut builder = WadBuilder::new();
    builder.add("data/one.bin", b"hello".to_vec(), Compression::Raw);
    let mut buffer = Vec::new();
    builder.write(&mut buffer).unwrap();

    // Flip a byte inside the table of contents (just past the header).
    buffer[HEADER_LEN] ^= 0xFF;
    assert!(matches!(read_wad(&buffer), Err(WadError::ChecksumMismatch)));
}

#[test]
fn xxh64_reference_values_for_short_and_long_inputs() {
    // Values of the reference implementation.
    assert_eq!(xxh64(b"a", 0), 0xD24E_C4F1_A98C_6E5B);
    assert_eq!(xxh64(b"abc", 0), 0x44BC_2CF5_AD77_0999);
    assert_eq!(
        xxh64(b"The quick brown fox jumps over the lazy dog", 0),
        0x0B24_2D36_1FDA_71BC
    );
    // The library's own hash agrees with the xxhash-rust crate on every length class.
    for len in [0usize, 1, 3, 4, 7, 8, 15, 31, 32, 33, 64, 100] {
        let data: Vec<u8> = (0..len).map(|i| (i * 7 + 3) as u8).collect();
        for seed in [0u64, 1, 0xDEAD_BEEF] {
            assert_eq!(xxh64(&data, seed), xxhash_rust::xxh64::xxh64(&data, seed));
        }
    }
}

#[test]
fn path_hash_is_xxh64_of_the_lowercased_path() {
    assert_eq!(path_hash("DATA/Menu.wad.client"), xxh64(b"data/menu.wad.client", 0));
}

#[test]
fn entries_come_back_sorted_by_path_hash() {
    let names = ["data/c.bin", "data/a.bin", "data/b.bin", "data/d.bin"];
    let mut builder = WadBuilder::new();
    for name in names {
        builder.add(name, name.as_bytes().to_vec(), Compression::Raw);
    }
    assert_eq!(builder.len(), 4);
    assert!(!builder.is_empty());
    let mut buffer = Vec::new();
    builder.write(&mut buffer).unwrap();
    let entries = read_wad(&buffer).unwrap();
    let hashes: Vec<u64> = entries.iter().map(|e| e.path_hash).collect();
    let mut sorted = hashes.clone();
    sorted.sort();
    assert_eq!(hashes, sorted);
    for name in names {
        let entry = entries.iter().find(|e| e.path_hash == path_hash(name)).unwrap();
        assert_eq!(entry.data, name.as_bytes());
    }
}

#[test]
fn write_appends_to_what_the_buffer_held() {
    let mut builder = WadBuilder::new();
    builder.add("data/one.bin", b"hello".to_vec(), Compression::Raw);
    let mut alone = Vec::new();
    builder.write(&mut alone).unwrap();
    let mut prefixed = b"xyz".to_vec();
    builder.write(&mut prefixed).unwrap();
    assert_eq!(&prefixed[..3], b"xyz");
    assert_eq!(&prefixed[3..], &alone[..]);
}

#[test]
fn empty_builder_writes_an_empty_archive() {
    let builder = WadBuilder::default();
    assert!(builder.is_empty());
    assert_eq!(builder.len(), 0);
    let mut buffer = Vec::new();
    builder.write(&mut buffer).unwrap();
    assert_eq!(buffer.len(), HEADER_LEN);
    assert!(read_wad(&buffer).unwrap().is_empty());
}

#[test]
fn unsupported_version_and_unknown_compression_are_reported() {
    let mut builder = WadBuilder::new();
    builder.add("data/one.bin", b"hello".to_vec(), Compression::Raw);
    let mut buffer = Vec::new();
    builder.write(&mut buffer).unwrap();

    let mut version = buffer.clone();
    version[2] = 9;
    assert!(matches!(
        read_wad(&version),
        Err(WadError::UnsupportedVersion { major: 9, .. })
    ));

    // A header that ends early is truncated.
    assert!(matches!(read_wad(&buffer[..HEADER_LEN - 1]), Err(WadError::Truncated)));
    // A table that ends early is truncated too.
    assert!(matches!(read_wad(&buffer[..HEADER_LEN + 4]), Err(WadError::Truncated)));

    // An unknown compression code, with the table checksum brought up to date.
    let mut unknown = buffer.clone();
    unknown[HEADER_LEN + 20] = 7;
    let checksum = xxh64(&unknown[HEADER_LEN..HEADER_LEN + 32], 0);
    unknown[260..268].copy_from_slice(&checksum.to_le_bytes());
    assert!(matches!(read_wad(&unknown), Err(WadError::UnknownCompression(7))));
}

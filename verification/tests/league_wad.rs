use league_mod_manager::league_wad::{
    chunk_bytes, decode_chunk, override_counts, patch_or_add_wad, patch_wad, path_hash, ChunkType, WadChunk, WadV3,
    WadV3Error, ENTRY_LEN, HEADER_LEN, MAGIC, SIGNATURE_LEN,
};
use std::io::Write;
use xxhash_rust::xxh3::xxh3_64;

/// Build a valid Raw-only v3 archive from (path, data) pairs.
fn build_v3(entries: &[(&str, &[u8])]) -> Vec<u8> {
    let count = entries.len();
    let toc_end = HEADER_LEN + count * ENTRY_LEN;
    let mut buf = vec![0u8; toc_end];
    buf[0..2].copy_from_slice(&MAGIC);
    buf[2] = 3;
    buf[3] = 4;
    buf[4 + SIGNATURE_LEN + 8..4 + SIGNATURE_LEN + 12]
        .copy_from_slice(&(count as u32).to_le_bytes());

    let mut cursor = toc_end as u64;
    for (i, (path, data)) in entries.iter().enumerate() {
        let base = HEADER_LEN + i * ENTRY_LEN;
        buf[base..base + 8].copy_from_slice(&path_hash(path).to_le_bytes());
        buf[base + 8..base + 12].copy_from_slice(&(cursor as u32).to_le_bytes());
        buf[base + 12..base + 16].copy_from_slice(&(data.len() as u32).to_le_bytes());
        buf[base + 16..base + 20].copy_from_slice(&(data.len() as u32).to_le_bytes());
        buf[base + 20] = 0; // Raw
        buf.extend_from_slice(data);
        cursor += data.len() as u64;
    }
    buf
}

#[test]
fn path_hash_is_lowercased_xxh64() {
    // XXH64("data/test.bin", seed 0) — case-insensitive.
    assert_eq!(path_hash("DATA/Test.bin"), path_hash("data/test.bin"));
    assert_ne!(path_hash("a.bin"), path_hash("b.bin"));
}

#[test]
fn rejects_foreign_and_truncated_data() {
    assert!(matches!(WadV3::parse(b"not a wad"), Err(WadV3Error::Truncated)));
    let mut buf = vec![0u8; HEADER_LEN];
    buf[0] = b'X';
    assert!(matches!(WadV3::parse(&buf), Err(WadV3Error::BadMagic)));
}

#[test]
fn patch_overrides_one_chunk_and_leaves_others_intact() {
    let original = build_v3(&[
        ("data/keep.bin", b"original-keep"),
        ("data/swap.bin", b"original-swap"),
    ]);

    let new_payload = b"the brand new and longer payload";
    let patched = patch_wad(&original, &[(path_hash("data/swap.bin"), new_payload)]).unwrap();

    let wad = WadV3::parse(&patched).unwrap();
    let swapped = wad.find_path("data/swap.bin").unwrap();
    assert_eq!(swapped.chunk_type, ChunkType::Raw);
    assert_eq!(decode_chunk(&patched, swapped).unwrap(), new_payload);
    assert_eq!(swapped.checksum, xxh3_64(new_payload));

    // The untouched chunk still resolves to its original bytes.
    let kept = wad.find_path("data/keep.bin").unwrap();
    assert_eq!(decode_chunk(&patched, kept).unwrap(), b"original-keep");
}

#[test]
fn patch_errors_on_unknown_path() {
    let original = build_v3(&[("data/only.bin", b"x")]);
    let err = patch_wad(&original, &[(path_hash("data/missing.bin"), b"y")]).unwrap_err();
    assert!(matches!(err, WadV3Error::ChunkNotFound(_)));
}

#[test]
fn parses_a_minimal_v3_header() {
    // Hand-build a header with one Raw chunk.
    let mut buf = vec![0u8; HEADER_LEN + ENTRY_LEN + 5];
    buf[0..2].copy_from_slice(&MAGIC);
    buf[2] = 3;
    buf[3] = 4;
    buf[4 + SIGNATURE_LEN + 8..4 + SIGNATURE_LEN + 12].copy_from_slice(&1u32.to_le_bytes());
    let base = HEADER_LEN;
    buf[base..base + 8].copy_from_slice(&path_hash("data/x.bin").to_le_bytes());
    buf[base + 8..base + 12].copy_from_slice(&((HEADER_LEN + ENTRY_LEN) as u32).to_le_bytes());
    buf[base + 12..base + 16].copy_from_slice(&5u32.to_le_bytes());
    buf[base + 16..base + 20].copy_from_slice(&5u32.to_le_bytes());
    buf[base + 20] = 0; // Raw, 0 subchunks
    let payload_at = HEADER_LEN + ENTRY_LEN;
    buf[payload_at..payload_at + 5].copy_from_slice(b"hello");

    let wad = WadV3::parse(&buf).unwrap();
    assert_eq!((wad.version_major, wad.version_minor), (3, 4));
    assert_eq!(wad.chunks.len(), 1);
    let chunk = wad.find_path("data/x.bin").unwrap();
    assert_eq!(chunk.chunk_type, ChunkType::Raw);
    assert_eq!(decode_chunk(&buf, chunk).unwrap(), b"hello");
}

#[test]
fn parse_reports_version_count_and_record_errors() {
    let good = build_v3(&[("data/a.bin", b"aaaa")]);

    let mut version = good.clone();
    version[2] = 2;
    assert!(matches!(WadV3::parse(&version), Err(WadV3Error::UnsupportedVersion(2))));

    // A table longer than the buffer.
    let mut count = good.clone();
    count[268..272].copy_from_slice(&5u32.to_le_bytes());
    assert!(matches!(WadV3::parse(&count), Err(WadV3Error::Truncated)));

    // A record whose type nibble is not a known chunk type.
    let mut kind = good.clone();
    kind[HEADER_LEN + 20] = 0x17;
    assert!(matches!(WadV3::parse(&kind), Err(WadV3Error::UnknownCompression(7))));

    // Subchunk count lives in the high nibble of the type byte.
    let mut sub = good.clone();
    sub[HEADER_LEN + 20] = 0x30;
    let wad = WadV3::parse(&sub).unwrap();
    assert_eq!(wad.chunks[0].subchunk_count, 3);
    assert_eq!(wad.chunks[0].chunk_type, ChunkType::Raw);
}

#[test]
fn find_returns_the_first_chunk_with_the_hash() {
    let archive = build_v3(&[("data/a.bin", b"one"), ("data/b.bin", b"two")]);
    let wad = WadV3::parse(&archive).unwrap();
    let b = wad.find(path_hash("data/b.bin")).unwrap();
    assert_eq!(decode_chunk(&archive, b).unwrap(), b"two");
    assert!(wad.find(path_hash("data/c.bin")).is_none());
    assert!(wad.find_path("DATA/A.BIN").is_some());
}

#[test]
fn chunk_bytes_refuses_regions_past_the_end() {
    let archive = build_v3(&[("data/a.bin", b"abc")]);
    let wad = WadV3::parse(&archive).unwrap();
    let chunk = wad.chunks[0];
    assert_eq!(chunk_bytes(&archive, &chunk).unwrap(), b"abc");
    let beyond = WadChunk { compressed_size: 4, ..chunk };
    assert!(matches!(chunk_bytes(&archive, &beyond), Err(WadV3Error::Truncated)));
    let far = WadChunk { data_offset: u32::MAX, ..chunk };
    assert!(matches!(decode_chunk(&archive, &far), Err(WadV3Error::Truncated)));
}

#[test]
fn decode_chunk_handles_each_chunk_type() {
    let payload = b"compressible compressible compressible compressible".to_vec();
    let mut gz = flate2::write::GzEncoder::new(Vec::new(), flate2::Compression::default());
    gz.write_all(&payload).unwrap();
    let gz = gz.finish().unwrap();
    let zs = zstd::encode_all(&payload[..], 3).unwrap();

    let mut file = vec![0u8; 8];
    let gz_at = file.len() as u32;
    file.extend_from_slice(&gz);
    let zs_at = file.len() as u32;
    file.extend_from_slice(&zs);

    let base = WadChunk {
        path_hash: 1,
        data_offset: gz_at,
        compressed_size: gz.len() as u32,
        uncompressed_size: payload.len() as u32,
        chunk_type: ChunkType::Gzip,
        subchunk_count: 0,
        is_duplicated: false,
        subchunk_start: 0,
        checksum: 0,
    };
    assert_eq!(decode_chunk(&file, &base).unwrap(), payload);

    let zstd_chunk = WadChunk {
        data_offset: zs_at,
        compressed_size: zs.len() as u32,
        chunk_type: ChunkType::Zstd,
        ..base
    };
    assert_eq!(decode_chunk(&file, &zstd_chunk).unwrap(), payload);
    let chunked = WadChunk { chunk_type: ChunkType::ZstdChunked, ..zstd_chunk };
    assert_eq!(decode_chunk(&file, &chunked).unwrap(), payload);

    let link = WadChunk { chunk_type: ChunkType::Link, ..base };
    assert!(matches!(decode_chunk(&file, &link), Err(WadV3Error::UnsupportedLink)));

    // Garbage under a compressed type is an error of that codec.
    let garbage = WadChunk { data_offset: 0, compressed_size: 8, ..base };
    assert!(matches!(decode_chunk(&file, &garbage), Err(WadV3Error::Io(_))));
    let garbage_zstd = WadChunk { chunk_type: ChunkType::Zstd, ..garbage };
    assert!(matches!(decode_chunk(&file, &garbage_zstd), Err(WadV3Error::Zstd(_))));
}

#[test]
fn patch_wad_keeps_the_header_and_the_last_override_wins() {
    let original = build_v3(&[("data/a.bin", b"aaaa"), ("data/b.bin", b"bbbb")]);
    let hash = path_hash("data/a.bin");
    let patched = patch_wad(&original, &[(hash, b"first"), (hash, b"second!")]).unwrap();
    assert_eq!(&patched[..HEADER_LEN], &original[..HEADER_LEN]);
    let wad = WadV3::parse(&patched).unwrap();
    let a = wad.find(hash).unwrap();
    assert_eq!(decode_chunk(&patched, a).unwrap(), b"second!");
    assert_eq!(a.uncompressed_size, 7);
    let b = wad.find_path("data/b.bin").unwrap();
    assert_eq!(decode_chunk(&patched, b).unwrap(), b"bbbb");
    // Payloads are appended after the original bytes, which are kept past the table.
    let toc_end = HEADER_LEN + 2 * ENTRY_LEN;
    assert_eq!(&patched[toc_end..original.len()], &original[toc_end..]);
    assert_eq!(&patched[original.len()..], b"firstsecond!");
}

#[test]
fn patch_or_add_overrides_and_adds_chunks() {
    let original = build_v3(&[("data/keep.bin", b"keep"), ("data/swap.bin", b"swap")]);
    let big = vec![b'z'; 2000];
    let patched = patch_or_add_wad(
        &original,
        &[
            (path_hash("data/swap.bin"), b"new-swap"),
            (path_hash("data/new.bin"), &big),
        ],
    )
    .unwrap();

    let wad = WadV3::parse(&patched).unwrap();
    assert_eq!(wad.chunks.len(), 3);
    // The table is sorted by path hash.
    let hashes: Vec<u64> = wad.chunks.iter().map(|c| c.path_hash).collect();
    let mut sorted = hashes.clone();
    sorted.sort();
    assert_eq!(hashes, sorted);

    let keep = wad.find_path("data/keep.bin").unwrap();
    assert_eq!(decode_chunk(&patched, keep).unwrap(), b"keep");
    // A short payload that gzip would not shrink stays raw.
    let swap = wad.find_path("data/swap.bin").unwrap();
    assert_eq!(swap.chunk_type, ChunkType::Raw);
    assert_eq!(decode_chunk(&patched, swap).unwrap(), b"new-swap");
    assert_eq!(swap.checksum, xxh3_64(b"new-swap"));
    // A compressible payload is stored gzip-compressed.
    let added = wad.find_path("data/new.bin").unwrap();
    assert_eq!(added.chunk_type, ChunkType::Gzip);
    assert!(added.compressed_size < 2000);
    assert_eq!(added.uncompressed_size, 2000);
    assert_eq!(decode_chunk(&patched, added).unwrap(), big);
    // The header outside the chunk count is kept.
    assert_eq!(&patched[..268], &original[..268]);
}

#[test]
fn patch_or_add_with_no_overrides_rewrites_the_table_in_hash_order() {
    let original = build_v3(&[("data/a.bin", b"aa"), ("data/b.bin", b"bb"), ("data/c.bin", b"cc")]);
    let patched = patch_or_add_wad(&original, &[]).unwrap();
    assert_eq!(patched.len(), original.len());
    let wad = WadV3::parse(&patched).unwrap();
    for (name, bytes) in [("data/a.bin", b"aa"), ("data/b.bin", b"bb"), ("data/c.bin", b"cc")] {
        let chunk = wad.find_path(name).unwrap();
        assert_eq!(decode_chunk(&patched, chunk).unwrap(), bytes);
    }
}

#[test]
fn patch_or_add_refuses_what_does_not_parse() {
    assert!(matches!(patch_or_add_wad(b"short", &[]), Err(WadV3Error::Truncated)));
    let mut bad = build_v3(&[("data/a.bin", b"aa")]);
    bad[0] = b'X';
    assert!(matches!(patch_or_add_wad(&bad, &[]), Err(WadV3Error::BadMagic)));
}

#[test]
fn league_path_hash_is_xxhash_of_the_lowercased_path() {
    assert_eq!(path_hash("DATA/Menu.wad.client"), xxhash_rust::xxh64::xxh64(b"data/menu.wad.client", 0));
    assert_eq!(
        path_hash("DATA/Menu.wad.client"),
        league_mod_manager::wad::path_hash("DATA/Menu.wad.client")
    );
}

#[test]
fn override_counts_tell_matched_from_appended() {
    let original = build_v3(&[("data/keep.bin", b"keep"), ("data/swap.bin", b"swap")]);
    let overrides: [(u64, &[u8]); 4] = [
        (path_hash("data/swap.bin"), b"one"),
        (path_hash("data/new.bin"), b"two"),
        (path_hash("DATA/NEW.bin"), b"three"),
        (path_hash("data/other.bin"), b"four"),
    ];
    // One override hits an existing chunk; the other three name two new paths.
    assert_eq!(override_counts(&original, &overrides).unwrap(), (1, 2));
    assert_eq!(override_counts(&original, &[]).unwrap(), (0, 0));
    // With distinct path hashes every override is counted once, one way or the other.
    let distinct = [overrides[0], overrides[1], overrides[3]];
    let (matched, added) = override_counts(&original, &distinct).unwrap();
    assert_eq!(matched + added, distinct.len());
    assert!(matches!(override_counts(b"short", &overrides), Err(WadV3Error::Truncated)));
}

//! Reader and patcher for *real* League of Legends `.wad.client` archives (WAD v3.x).
//!
//! Header (272 bytes): magic `RW`, major and minor version, a 256-byte signature
//! copied verbatim, a header checksum, the chunk count. Then one 32-byte record
//! per chunk: path hash (u64), data offset (u32), stored size (u32), uncompressed
//! size (u32), type byte (low nibble: compression, high nibble: subchunk count),
//! duplicated flag (u8), first subchunk (u16), XXH3-64 of the stored payload (u64).
use crate::codec::{
    gzip_compress, gzip_compressed, gzip_decompress, gzip_decompressed, xxh3_64,
    xxh64_external, xxhash_rust_xxh3, zstd_decompress, zstd_decompressed,
};
use crate::le::{
    le_u16, le_u32, le_u64, lemma_u16_roundtrip, lemma_u32_roundtrip, lemma_u64_roundtrip,
    push_u16, push_u32, push_u64, read_u16, read_u32, read_u64, u16_bytes, u32_bytes, u64_bytes,
};
use crate::text::{ascii_lower, lemma_ascii_lower_idempotent, to_ascii_lowercase};
use vstd::prelude::*;
use crate::xxhash64::xxh64_spec;
use vstd::utf8::encode_utf8;

verus! {

pub const MAGIC: [u8; 2] = [0x52u8, 0x57u8];

pub const HEADER_LEN: usize = 272;

pub const ENTRY_LEN: usize = 32;

pub const SIGNATURE_LEN: usize = 256;

#[derive(Debug)]
pub enum WadV3Error {
    Io(std::io::Error),
    BadMagic,
    UnsupportedVersion(u8),
    Truncated,
    UnknownCompression(u8),
    UnsupportedLink,
    Zstd(String),
    ChunkNotFound(u64),
}

/// How a chunk's payload is stored on disk.
#[derive(Debug, Clone, Copy, PartialEq, Eq, Structural)]
pub enum ChunkType {
    Raw,
    Gzip,
    Link,
    Zstd,
    ZstdChunked,
}

pub open spec fn chunk_type_of(code: u8) -> Option<ChunkType> {
    if code == 0 {
        Some(ChunkType::Raw)
    } else if code == 1 {
        Some(ChunkType::Gzip)
    } else if code == 2 {
        Some(ChunkType::Link)
    } else if code == 3 {
        Some(ChunkType::Zstd)
    } else if code == 4 {
        Some(ChunkType::ZstdChunked)
    } else {
        None
    }
}

impl ChunkType {
    fn from_code(code: u8) -> (r: Result<Self, WadV3Error>)
        ensures
            match r {
                Ok(t) => chunk_type_of(code) == Some(t),
                Err(e) => chunk_type_of(code) is None && e == WadV3Error::UnknownCompression(code),
            },
    {
        match code {
            0 => Ok(ChunkType::Raw),
            1 => Ok(ChunkType::Gzip),
            2 => Ok(ChunkType::Link),
            3 => Ok(ChunkType::Zstd),
            4 => Ok(ChunkType::ZstdChunked),
            other => Err(WadV3Error::UnknownCompression(other)),
        }
    }
}

/// A single table-of-contents entry, kept whole so unmodified chunks can be
/// copied into a new archive verbatim.
#[derive(Debug, Clone, Copy, PartialEq, Eq, Structural)]
pub struct WadChunk {
    pub path_hash: u64,
    pub data_offset: u32,
    pub compressed_size: u32,
    pub uncompressed_size: u32,
    pub chunk_type: ChunkType,
    pub subchunk_count: u8,
    pub is_duplicated: bool,
    pub subchunk_start: u16,
    pub checksum: u64,
}

/// Parsed table of contents of a real WAD v3 archive; payloads stay in the
/// caller's buffer.
#[derive(Debug, Clone)]
pub struct WadV3 {
    pub version_major: u8,
    pub version_minor: u8,
    pub signature: [u8; 256],
    pub header_checksum: u64,
    pub chunks: Vec<WadChunk>,
}

/// A parsed archive as plain values.
pub struct WadV3Model {
    pub version_major: u8,
    pub version_minor: u8,
    pub signature: Seq<u8>,
    pub header_checksum: u64,
    pub chunks: Seq<WadChunk>,
}

impl View for WadV3 {
    type V = WadV3Model;

    open spec fn view(&self) -> WadV3Model {
        WadV3Model {
            version_major: self.version_major,
            version_minor: self.version_minor,
            signature: self.signature@,
            header_checksum: self.header_checksum,
            chunks: self.chunks@,
        }
    }
}

/// The key of an in-WAD path: XXH64 of the ASCII-lowercased UTF-8 path.
pub open spec fn league_path_hash(path: Seq<char>) -> u64 {
    xxh64_spec(encode_utf8(ascii_lower(path)), 0)
}

/// Real archives and the project's own archive format key a path alike.
pub proof fn law_path_hashes_agree(path: Seq<char>)
    ensures
        league_path_hash(path) == crate::wad::path_hash_spec(path),
{
}

/// Paths that differ only in ASCII case get the same key, and a path gets the
/// key of its lowercase form.
pub proof fn law_league_path_hash_ignores_case(a: Seq<char>, b: Seq<char>)
    requires
        ascii_lower(a) == ascii_lower(b),
    ensures
        league_path_hash(a) == league_path_hash(b),
        league_path_hash(a) == league_path_hash(ascii_lower(a)),
{
    lemma_ascii_lower_idempotent(a);
}

/// Hash an in-WAD path the way League keys entries: XXH64 of the lowercased path.
pub fn path_hash(path: &str) -> (h: u64)
    ensures
        h == league_path_hash(path@),
{
    let lower = to_ascii_lowercase(path);
    xxh64_external(lower.as_str().as_bytes(), 0)
}

/// The `i`-th table record of `bytes`.
pub open spec fn chunk_at(bytes: Seq<u8>, i: int) -> Result<WadChunk, WadV3Error> {
    let base = HEADER_LEN + 32 * i;
    let type_byte = bytes[base + 20];
    match chunk_type_of(type_byte & 0x0f) {
        None => Err(WadV3Error::UnknownCompression(type_byte & 0x0f)),
        Some(t) => Ok(
            WadChunk {
                path_hash: le_u64(bytes, base),
                data_offset: le_u32(bytes, base + 8),
                compressed_size: le_u32(bytes, base + 12),
                uncompressed_size: le_u32(bytes, base + 16),
                chunk_type: t,
                subchunk_count: type_byte >> 4u8,
                is_duplicated: bytes[base + 21] != 0,
                subchunk_start: le_u16(bytes, base + 22),
                checksum: le_u64(bytes, base + 24),
            },
        ),
    }
}

/// The first `n` records, or the error of the first one that fails.
pub open spec fn parse_chunks(bytes: Seq<u8>, n: nat) -> Result<Seq<WadChunk>, WadV3Error>
    decreases n,
{
    if n == 0 {
        Ok(Seq::empty())
    } else {
        match parse_chunks(bytes, (n - 1) as nat) {
            Err(e) => Err(e),
            Ok(cs) => match chunk_at(bytes, n - 1) {
                Err(e) => Err(e),
                Ok(c) => Ok(cs.push(c)),
            },
        }
    }
}

/// What parsing an archive buffer yields.
pub open spec fn parse_spec(bytes: Seq<u8>) -> Result<WadV3Model, WadV3Error> {
    if bytes.len() < HEADER_LEN {
        Err(WadV3Error::Truncated)
    } else if bytes[0] != 0x52u8 || bytes[1] != 0x57u8 {
        Err(WadV3Error::BadMagic)
    } else if bytes[2] != 3 {
        Err(WadV3Error::UnsupportedVersion(bytes[2]))
    } else {
        let count = le_u32(bytes, 268);
        if bytes.len() < HEADER_LEN + 32 * count {
            Err(WadV3Error::Truncated)
        } else {
            match parse_chunks(bytes, count as nat) {
                Err(e) => Err(e),
                Ok(chunks) => Ok(
                    WadV3Model {
                        version_major: bytes[2],
                        version_minor: bytes[3],
                        signature: bytes.subrange(4, 260),
                        header_checksum: le_u64(bytes, 260),
                        chunks,
                    },
                ),
            }
        }
    }
}

proof fn lemma_parse_chunks_err(bytes: Seq<u8>, i: nat, n: nat, e: WadV3Error)
    requires
        i <= n,
        parse_chunks(bytes, i) == Err::<Seq<WadChunk>, WadV3Error>(e),
    ensures
        parse_chunks(bytes, n) == Err::<Seq<WadChunk>, WadV3Error>(e),
    decreases n - i,
{
    if i < n {
        lemma_parse_chunks_err(bytes, i + 1, n, e);
    }
}

/// Index of the first chunk filed under `h`.
pub open spec fn position_of(s: Seq<WadChunk>, h: u64) -> Option<int>
    decreases s.len(),
{
    if s.len() == 0 {
        None
    } else {
        match position_of(s.drop_last(), h) {
            Some(i) => Some(i),
            None => if s.last().path_hash == h {
                Some(s.len() - 1)
            } else {
                None
            },
        }
    }
}

pub proof fn lemma_position_of(s: Seq<WadChunk>, h: u64)
    ensures
        match position_of(s, h) {
            Some(i) => 0 <= i < s.len() && s[i].path_hash == h && forall|j: int|
                0 <= j < i ==> #[trigger] s[j].path_hash != h,
            None => forall|j: int| 0 <= j < s.len() ==> #[trigger] s[j].path_hash != h,
        },
    decreases s.len(),
{
    if s.len() > 0 {
        lemma_position_of(s.drop_last(), h);
        assert forall|j: int| 0 <= j < s.len() - 1 implies #[trigger] s[j] == s.drop_last()[j] by {}
    }
}

proof fn lemma_position_prefix(s: Seq<WadChunk>, h: u64, k: int)
    requires
        0 <= k <= s.len(),
        position_of(s.take(k), h) is Some,
    ensures
        position_of(s, h) == position_of(s.take(k), h),
    decreases s.len() - k,
{
    if k < s.len() {
        assert(s.take(k + 1).drop_last() =~= s.take(k));
        lemma_position_prefix(s, h, k + 1);
    } else {
        assert(s.take(k) =~= s);
    }
}

/// Index of the first chunk filed under `h`, if any.
fn position(chunks: &Vec<WadChunk>, h: u64) -> (r: Option<usize>)
    ensures
        match r {
            Some(i) => position_of(chunks@, h) == Some(i as int),
            None => position_of(chunks@, h) is None,
        },
{
    let mut i: usize = 0;
    assert(chunks@.take(0) =~= Seq::<WadChunk>::empty());
    while i < chunks.len()
        invariant
            i <= chunks@.len(),
            position_of(chunks@.take(i as int), h) is None,
        decreases chunks@.len() - i,
    {
        assert(chunks@.take(i + 1).drop_last() =~= chunks@.take(i as int));
        if chunks[i].path_hash == h {
            proof {
                lemma_position_prefix(chunks@, h, i + 1);
            }
            return Some(i);
        }
        i += 1;
    }
    assert(chunks@.take(i as int) =~= chunks@);
    None
}

impl WadV3 {
    /// Parse the header and table of contents from a full archive buffer.
    pub fn parse(bytes: &[u8]) -> (r: Result<Self, WadV3Error>)
        ensures
            match r {
                Ok(w) => parse_spec(bytes@) == Ok::<WadV3Model, WadV3Error>(w@),
                Err(e) => parse_spec(bytes@) == Err::<WadV3Model, WadV3Error>(e),
            },
    {
        if bytes.len() < HEADER_LEN {
            return Err(WadV3Error::Truncated);
        }
        if bytes[0] != 0x52u8 || bytes[1] != 0x57u8 {
            return Err(WadV3Error::BadMagic);
        }
        let version_major = bytes[2];
        let version_minor = bytes[3];
        if version_major != 3 {
            return Err(WadV3Error::UnsupportedVersion(version_major));
        }
        let mut signature = [0u8; 256];
        let mut k: usize = 0;
        while k < SIGNATURE_LEN
            invariant
                k <= SIGNATURE_LEN,
                bytes@.len() >= HEADER_LEN,
                signature@.len() == SIGNATURE_LEN,
                forall|j: int| 0 <= j < k ==> signature@[j] == bytes@[4 + j],
            decreases SIGNATURE_LEN - k,
        {
            signature[k] = bytes[4 + k];
            k += 1;
        }
        assert(signature@ =~= bytes@.subrange(4, 260));
        let header_checksum = read_u64(bytes, 4 + SIGNATURE_LEN);
        let count = read_u32(bytes, 4 + SIGNATURE_LEN + 8);
        let toc_end: u64 = HEADER_LEN as u64 + (count as u64) * 32;
        if (bytes.len() as u64) < toc_end {
            return Err(WadV3Error::Truncated);
        }
        let mut chunks: Vec<WadChunk> = Vec::new();
        let mut index: usize = 0;
        let len = bytes.len();
        assert(chunks@ =~= Seq::<WadChunk>::empty());
        while index < count as usize
            invariant
                len == bytes@.len(),
                bytes@[0] == 0x52u8 && bytes@[1] == 0x57u8 && bytes@[2] == 3,
                count == le_u32(bytes@, 268),
                bytes@.len() >= HEADER_LEN + 32 * count,
                index <= count,
                parse_chunks(bytes@, index as nat) == Ok::<Seq<WadChunk>, WadV3Error>(chunks@),
            decreases count - index,
        {
            let base = HEADER_LEN + index * 32;
            let type_byte = bytes[base + 20];
            let chunk_type = match ChunkType::from_code(type_byte & 0x0F) {
                Ok(t) => t,
                Err(e) => {
                    proof {
                        lemma_parse_chunks_err(bytes@, (index + 1) as nat, count as nat, e);
                    }
                    return Err(e);
                },
            };
            let chunk = WadChunk {
                path_hash: read_u64(bytes, base),
                data_offset: read_u32(bytes, base + 8),
                compressed_size: read_u32(bytes, base + 12),
                uncompressed_size: read_u32(bytes, base + 16),
                chunk_type,
                subchunk_count: type_byte >> 4,
                is_duplicated: bytes[base + 21] != 0,
                subchunk_start: read_u16(bytes, base + 22),
                checksum: read_u64(bytes, base + 24),
            };
            assert(chunk_at(bytes@, index as int) == Ok::<WadChunk, WadV3Error>(chunk));
            chunks.push(chunk);
            index += 1;
        }
        Ok(WadV3 { version_major, version_minor, signature, header_checksum, chunks })
    }

    /// Find the first chunk filed under a path hash.
    pub fn find(&self, path_hash: u64) -> (r: Option<&WadChunk>)
        ensures
            match r {
                Some(c) => position_of(self.chunks@, path_hash) matches Some(i) && *c
                    == self.chunks@[i],
                None => position_of(self.chunks@, path_hash) is None,
            },
    {
        proof {
            lemma_position_of(self.chunks@, path_hash);
        }
        match position(&self.chunks, path_hash) {
            Some(i) => Some(&self.chunks[i]),
            None => None,
        }
    }

    /// Find a chunk by its in-WAD path (hashed with [`path_hash`]).
    pub fn find_path(&self, path: &str) -> (r: Option<&WadChunk>)
        ensures
            match r {
                Some(c) => position_of(self.chunks@, league_path_hash(path@)) matches Some(i)
                    && *c == self.chunks@[i],
                None => position_of(self.chunks@, league_path_hash(path@)) is None,
            },
    {
        self.find(path_hash(path))
    }
}

/// The on-disk bytes of a chunk, if they lie inside the buffer.
pub open spec fn chunk_region(file: Seq<u8>, chunk: WadChunk) -> Option<Seq<u8>> {
    let start = chunk.data_offset as int;
    let end = start + chunk.compressed_size;
    if end <= file.len() {
        Some(file.subrange(start, end))
    } else {
        None
    }
}

/// The on-disk payload slice for a chunk, within the full archive buffer.
pub fn chunk_bytes<'a>(file: &'a [u8], chunk: &WadChunk) -> (r: Result<&'a [u8], WadV3Error>)
    ensures
        match r {
            Ok(s) => chunk_region(file@, *chunk) == Some(s@),
            Err(e) => chunk_region(file@, *chunk) is None && e == WadV3Error::Truncated,
        },
{
    let start = chunk.data_offset as usize;
    let size = chunk.compressed_size as usize;
    if start > file.len() || size > file.len() - start {
        return Err(WadV3Error::Truncated);
    }
    Ok(&file[start..start + size])
}

/// What decoding a chunk's payload gives, for the non-error cases.
pub open spec fn decoded_spec(raw: Seq<u8>, t: ChunkType) -> Option<Seq<u8>> {
    match t {
        ChunkType::Raw => Some(raw),
        ChunkType::Gzip => gzip_decompressed(raw),
        ChunkType::Zstd | ChunkType::ZstdChunked => zstd_decompressed(raw),
        ChunkType::Link => None,
    }
}

/// Decode a chunk's payload to its uncompressed bytes. `ZstdChunked` payloads are
/// concatenated zstd frames and decode like plain `Zstd`.
pub fn decode_chunk(file: &[u8], chunk: &WadChunk) -> (r: Result<Vec<u8>, WadV3Error>)
    ensures
        match r {
            Ok(v) => chunk_region(file@, *chunk) matches Some(raw) && decoded_spec(
                raw,
                chunk.chunk_type,
            ) == Some(v@),
            Err(e) => match chunk_region(file@, *chunk) {
                None => e == WadV3Error::Truncated,
                Some(raw) => decoded_spec(raw, chunk.chunk_type) is None && match chunk.chunk_type {
                    ChunkType::Gzip => e is Io,
                    ChunkType::Zstd | ChunkType::ZstdChunked => e is Zstd,
                    _ => e == WadV3Error::UnsupportedLink,
                },
            },
        },
{
    let raw = chunk_bytes(file, chunk)?;
    match chunk.chunk_type {
        ChunkType::Raw => Ok(vstd::slice::slice_to_vec(raw)),
        ChunkType::Gzip => match gzip_decompress(raw) {
            Ok(v) => Ok(v),
            Err(e) => Err(WadV3Error::Io(e)),
        },
        ChunkType::Zstd | ChunkType::ZstdChunked => match zstd_decompress(raw) {
            Ok(v) => Ok(v),
            Err(message) => Err(WadV3Error::Zstd(message)),
        },
        ChunkType::Link => Err(WadV3Error::UnsupportedLink),
    }
}


// ---------------------------------------------------------------------------
// Patching
// ---------------------------------------------------------------------------

/// `s` with the bytes from `at` on replaced by `b`.
pub open spec fn splice(s: Seq<u8>, at: int, b: Seq<u8>) -> Seq<u8> {
    s.subrange(0, at) + b + s.subrange(at + b.len(), s.len() as int)
}

/// Record bytes 8..32 of a chunk repointed at a raw payload.
pub open spec fn repoint_bytes(offset: u32, size: u32, checksum: u64) -> Seq<u8> {
    u32_bytes(offset) + u32_bytes(size) + u32_bytes(size) + seq![0u8, 0u8] + u16_bytes(0)
        + u64_bytes(checksum)
}

/// An override: a path hash and the new raw payload for it.
pub type Override = (u64, Seq<u8>);

pub open spec fn overrides_model(o: Seq<(u64, &[u8])>) -> Seq<Override> {
    Seq::new(o.len(), |i: int| (o[i].0, o[i].1@))
}

/// The buffer with the table records of the first `ovs.len()` overrides rewritten,
/// and the payloads appended so far; or the error the first failing one gives.
pub open spec fn patch_steps(chunks: Seq<WadChunk>, original: Seq<u8>, ovs: Seq<Override>) -> Result<
    (Seq<u8>, Seq<u8>),
    WadV3Error,
>
    decreases ovs.len(),
{
    if ovs.len() == 0 {
        Ok((original, Seq::empty()))
    } else {
        match patch_steps(chunks, original, ovs.drop_last()) {
            Err(e) => Err(e),
            Ok((out, app)) => {
                let h = ovs.last().0;
                let c = ovs.last().1;
                match position_of(chunks, h) {
                    None => Err(WadV3Error::ChunkNotFound(h)),
                    Some(i) => {
                        let cursor = original.len() + app.len();
                        if c.len() > u32::MAX {
                            Err(WadV3Error::Truncated)
                        } else if cursor > u32::MAX {
                            Err(WadV3Error::Truncated)
                        } else {
                            Ok(
                                (
                                    splice(
                                        out,
                                        HEADER_LEN + 32 * i + 8,
                                        repoint_bytes(
                                            cursor as u32,
                                            c.len() as u32,
                                            xxhash_rust_xxh3(c),
                                        ),
                                    ),
                                    app + c,
                                ),
                            )
                        }
                    },
                }
            },
        }
    }
}

/// What patching an archive with overrides yields.
pub open spec fn patch_wad_spec(original: Seq<u8>, ovs: Seq<Override>) -> Result<
    Seq<u8>,
    WadV3Error,
> {
    match parse_spec(original) {
        Err(e) => Err(e),
        Ok(w) => match patch_steps(w.chunks, original, ovs) {
            Err(e) => Err(e),
            Ok((out, app)) => Ok(out + app),
        },
    }
}

proof fn lemma_patch_steps_err(
    chunks: Seq<WadChunk>,
    original: Seq<u8>,
    ovs: Seq<Override>,
    k: int,
    e: WadV3Error,
)
    requires
        0 <= k <= ovs.len(),
        patch_steps(chunks, original, ovs.take(k)) == Err::<(Seq<u8>, Seq<u8>), WadV3Error>(e),
    ensures
        patch_steps(chunks, original, ovs) == Err::<(Seq<u8>, Seq<u8>), WadV3Error>(e),
    decreases ovs.len() - k,
{
    if k < ovs.len() {
        assert(ovs.take(k + 1).drop_last() =~= ovs.take(k));
        lemma_patch_steps_err(chunks, original, ovs, k + 1, e);
    } else {
        assert(ovs.take(k) =~= ovs);
    }
}

proof fn lemma_patch_steps_len(chunks: Seq<WadChunk>, original: Seq<u8>, ovs: Seq<Override>)
    requires
        patch_steps(chunks, original, ovs) is Ok,
        parse_spec(original) is Ok,
        chunks == parse_spec(original)->Ok_0.chunks,
    ensures
        patch_steps(chunks, original, ovs)->Ok_0.0.len() == original.len(),
    decreases ovs.len(),
{
    if ovs.len() > 0 {
        lemma_patch_steps_len(chunks, original, ovs.drop_last());
        lemma_parse_count(original);
        lemma_position_of(chunks, ovs.last().0);
    }
}

/// A successful parse has one chunk per record, all inside the buffer.
pub proof fn lemma_parse_count(bytes: Seq<u8>)
    requires
        parse_spec(bytes) is Ok,
    ensures
        parse_spec(bytes)->Ok_0.chunks.len() == le_u32(bytes, 268),
        HEADER_LEN + 32 * le_u32(bytes, 268) <= bytes.len(),
        forall|i: int|
            0 <= i < le_u32(bytes, 268) ==> chunk_at(bytes, i) == Ok::<WadChunk, WadV3Error>(
                #[trigger] parse_spec(bytes)->Ok_0.chunks[i],
            ),
{
    lemma_parse_chunks_ok(bytes, le_u32(bytes, 268) as nat);
}

proof fn lemma_parse_chunks_ok(bytes: Seq<u8>, n: nat)
    requires
        parse_chunks(bytes, n) is Ok,
    ensures
        parse_chunks(bytes, n)->Ok_0.len() == n,
        forall|i: int|
            0 <= i < n ==> chunk_at(bytes, i) == Ok::<WadChunk, WadV3Error>(
                #[trigger] parse_chunks(bytes, n)->Ok_0[i],
            ),
    decreases n,
{
    if n > 0 {
        lemma_parse_chunks_ok(bytes, (n - 1) as nat);
        let cs = parse_chunks(bytes, n)->Ok_0;
        let prev = parse_chunks(bytes, (n - 1) as nat)->Ok_0;
        assert forall|i: int| 0 <= i < n implies chunk_at(bytes, i) == Ok::<WadChunk, WadV3Error>(
            #[trigger] cs[i],
        ) by {
            if i < n - 1 {
                assert(cs[i] == prev[i]);
            }
        }
    }
}

/// Writes `b` over `out` from `at` on.
fn write_at(out: &mut Vec<u8>, at: usize, b: &Vec<u8>)
    requires
        at + b@.len() <= old(out)@.len(),
    ensures
        final(out)@ == splice(old(out)@, at as int, b@),
{
    let n = out.len();
    let mut i: usize = 0;
    while i < b.len()
        invariant
            n == out@.len(),
            i <= b@.len(),
            at + b@.len() <= out@.len(),
            out@.len() == old(out)@.len(),
            forall|j: int| 0 <= j < out@.len() ==> #[trigger] out@[j] == if at <= j < at + i {
                b@[j - at]
            } else {
                old(out)@[j]
            },
        decreases b@.len() - i,
    {
        out.set(at + i, b[i]);
        i += 1;
    }
    assert(out@ =~= splice(old(out)@, at as int, b@));
}

/// Produce a patched copy of a real WAD by overriding chunks with new raw
/// payloads, identified by path hash.
///
/// The whole original archive is kept byte for byte; each override's payload is
/// appended at the end as a `Raw` chunk and only that chunk's table record is
/// rewritten to point at it. Errors if any override targets a path hash the
/// archive does not contain.
pub fn patch_wad(original: &[u8], overrides: &[(u64, &[u8])]) -> (r: Result<Vec<u8>, WadV3Error>)
    ensures
        match r {
            Ok(v) => patch_wad_spec(original@, overrides_model(overrides@)) == Ok::<
                Seq<u8>,
                WadV3Error,
            >(v@),
            Err(e) => patch_wad_spec(original@, overrides_model(overrides@)) == Err::<
                Seq<u8>,
                WadV3Error,
            >(e),
        },
{
    let wad = WadV3::parse(original)?;
    let ghost ovs = overrides_model(overrides@);
    let ghost chunks = wad.chunks@;
    proof {
        lemma_parse_count(original@);
    }
    let mut out = vstd::slice::slice_to_vec(original);
    let mut cursor: u64 = original.len() as u64;
    let mut appended: Vec<u8> = Vec::new();
    let mut k: usize = 0;
    assert(ovs.take(0) =~= Seq::<Override>::empty());
    while k < overrides.len()
        invariant
            ovs == overrides_model(overrides@),
            chunks == wad.chunks@,
            parse_spec(original@) == Ok::<WadV3Model, WadV3Error>(wad@),
            k <= overrides@.len(),
            patch_steps(chunks, original@, ovs.take(k as int)) == Ok::<
                (Seq<u8>, Seq<u8>),
                WadV3Error,
            >((out@, appended@)),
            out@.len() == original@.len(),
            cursor == original@.len() + appended@.len(),
            chunks.len() == le_u32(original@, 268),
            HEADER_LEN + 32 * chunks.len() <= original@.len(),
        decreases overrides@.len() - k,
    {
        let (hash, content) = overrides[k];
        proof {
            assert(ovs.take(k + 1).drop_last() =~= ovs.take(k as int));
            assert(ovs.take(k + 1).last() == (hash, content@));
            lemma_position_of(chunks, hash);
        }
        let index = match position(&wad.chunks, hash) {
            Some(i) => i,
            None => {
                proof {
                    lemma_patch_steps_err(
                        chunks,
                        original@,
                        ovs,
                        k + 1,
                        WadV3Error::ChunkNotFound(hash),
                    );
                }
                return Err(WadV3Error::ChunkNotFound(hash));
            },
        };
        if content.len() > u32::MAX as usize || cursor > u32::MAX as u64 {
            proof {
                lemma_patch_steps_err(chunks, original@, ovs, k + 1, WadV3Error::Truncated);
            }
            return Err(WadV3Error::Truncated);
        }
        let size = content.len() as u32;
        let offset = cursor as u32;
        let mut record: Vec<u8> = Vec::new();
        push_u32(&mut record, offset);
        push_u32(&mut record, size);
        push_u32(&mut record, size);
        record.push(0u8);
        record.push(0u8);
        push_u16(&mut record, 0u16);
        push_u64(&mut record, xxh3_64(content));
        assert(record@ =~= repoint_bytes(offset, size, xxhash_rust_xxh3(content@)));
        let base = HEADER_LEN + index * 32;
        write_at(&mut out, base + 8, &record);
        let mut i: usize = 0;
        let ghost app0 = appended@;
        while i < content.len()
            invariant
                i <= content@.len(),
                appended@ == app0 + content@.take(i as int),
            decreases content@.len() - i,
        {
            appended.push(content[i]);
            i += 1;
            assert(appended@ =~= app0 + content@.take(i as int));
        }
        assert(content@.take(content@.len() as int) =~= content@);
        cursor = cursor + content.len() as u64;
        k += 1;
    }
    assert(ovs.take(k as int) =~= ovs);
    let ghost edited = out@;
    let mut i: usize = 0;
    while i < appended.len()
        invariant
            i <= appended@.len(),
            out@ == edited + appended@.take(i as int),
        decreases appended@.len() - i,
    {
        out.push(appended[i]);
        i += 1;
        assert(out@ =~= edited + appended@.take(i as int));
    }
    assert(appended@.take(appended@.len() as int) =~= appended@);
    Ok(out)
}


// ---------------------------------------------------------------------------
// What a patched archive reads as
// ---------------------------------------------------------------------------

/// All override payloads, in order.
pub open spec fn concat_contents(ovs: Seq<Override>) -> Seq<u8>
    decreases ovs.len(),
{
    if ovs.len() == 0 {
        Seq::empty()
    } else {
        concat_contents(ovs.drop_last()) + ovs.last().1
    }
}

/// The last override (by index) that lands on chunk `j`.
pub open spec fn last_override_for(chunks: Seq<WadChunk>, ovs: Seq<Override>, j: int) -> Option<
    int,
>
    decreases ovs.len(),
{
    if ovs.len() == 0 {
        None
    } else if position_of(chunks, ovs.last().0) == Some(j) {
        Some(ovs.len() - 1)
    } else {
        last_override_for(chunks, ovs.drop_last(), j)
    }
}

/// Where the payload of override `t` starts in the patched archive.
pub open spec fn override_offset(original: Seq<u8>, ovs: Seq<Override>, t: int) -> int {
    (original.len() + concat_contents(ovs.take(t)).len()) as int
}

/// A chunk pointed at a raw payload.
pub open spec fn repointed(c: WadChunk, offset: u32, size: u32, checksum: u64) -> WadChunk {
    WadChunk {
        path_hash: c.path_hash,
        data_offset: offset,
        compressed_size: size,
        uncompressed_size: size,
        chunk_type: ChunkType::Raw,
        subchunk_count: 0,
        is_duplicated: false,
        subchunk_start: 0,
        checksum,
    }
}

/// The table a patched archive has: every chunk that some override lands on is
/// repointed at that override's payload (the last one wins); the rest are kept.
pub open spec fn patched_chunks(chunks: Seq<WadChunk>, original: Seq<u8>, ovs: Seq<Override>) -> Seq<
    WadChunk,
> {
    Seq::new(
        chunks.len(),
        |j: int|
            match last_override_for(chunks, ovs, j) {
                Some(t) => repointed(
                    chunks[j],
                    override_offset(original, ovs, t) as u32,
                    ovs[t].1.len() as u32,
                    xxhash_rust_xxh3(ovs[t].1),
                ),
                None => chunks[j],
            },
    )
}

proof fn lemma_splice_index(s: Seq<u8>, at: int, b: Seq<u8>, p: int)
    requires
        0 <= at,
        at + b.len() <= s.len(),
        0 <= p < s.len(),
    ensures
        splice(s, at, b).len() == s.len(),
        splice(s, at, b)[p] == if at <= p < at + b.len() {
            b[p - at]
        } else {
            s[p]
        },
{
}

proof fn lemma_last_override_some(chunks: Seq<WadChunk>, ovs: Seq<Override>, j: int)
    ensures
        last_override_for(chunks, ovs, j) matches Some(t) ==> 0 <= t < ovs.len() && position_of(
            chunks,
            ovs[t].0,
        ) == Some(j),
    decreases ovs.len(),
{
    if ovs.len() > 0 {
        lemma_last_override_some(chunks, ovs.drop_last(), j);
    }
}

proof fn lemma_steps_contents(chunks: Seq<WadChunk>, original: Seq<u8>, ovs: Seq<Override>)
    requires
        patch_steps(chunks, original, ovs) is Ok,
    ensures
        patch_steps(chunks, original, ovs)->Ok_0.1 == concat_contents(ovs),
    decreases ovs.len(),
{
    if ovs.len() > 0 {
        lemma_steps_contents(chunks, original, ovs.drop_last());
    }
}

/// Record `j` of the edited buffer: the hash bytes are the original ones; the rest
/// are the repoint bytes of the last override landing on it, or the original ones.
#[verifier::spinoff_prover]
#[verifier::rlimit(40)]
proof fn lemma_steps_window(chunks: Seq<WadChunk>, original: Seq<u8>, ovs: Seq<Override>, j: int)
    requires
        patch_steps(chunks, original, ovs) is Ok,
        parse_spec(original) is Ok,
        chunks == parse_spec(original)->Ok_0.chunks,
        0 <= j < chunks.len(),
    ensures
        ({
            let e = patch_steps(chunks, original, ovs)->Ok_0.0;
            let base = HEADER_LEN + 32 * j;
            &&& e.len() == original.len()
            &&& base + 32 <= original.len()
            &&& e.subrange(base, base + 8) == original.subrange(base, base + 8)
            &&& e.subrange(base + 8, base + 32) == match last_override_for(chunks, ovs, j) {
                Some(t) => repoint_bytes(
                    override_offset(original, ovs, t) as u32,
                    ovs[t].1.len() as u32,
                    xxhash_rust_xxh3(ovs[t].1),
                ),
                None => original.subrange(base + 8, base + 32),
            }
        }),
    decreases ovs.len(),
{
    lemma_parse_count(original);
    lemma_patch_steps_len(chunks, original, ovs);
    let base = HEADER_LEN + 32 * j;
    if ovs.len() > 0 {
        let d = ovs.drop_last();
        lemma_steps_window(chunks, original, d, j);
        lemma_patch_steps_len(chunks, original, d);
        lemma_steps_contents(chunks, original, d);
        let (e0, app0) = patch_steps(chunks, original, d)->Ok_0;
        let e = patch_steps(chunks, original, ovs)->Ok_0.0;
        let h = ovs.last().0;
        lemma_position_of(chunks, h);
        let i = position_of(chunks, h)->Some_0;
        let c = ovs.last().1;
        let cursor = original.len() + app0.len();
        let rb = repoint_bytes(cursor as u32, c.len() as u32, xxhash_rust_xxh3(c));
        assert(rb.len() == 24);
        let at = HEADER_LEN + 32 * i + 8;
        assert(e == splice(e0, at, rb));
        assert(e.subrange(base, base + 8) =~= e0.subrange(base, base + 8)) by {
            assert forall|p: int| base <= p < base + 8 implies e[p] == e0[p] by {
                lemma_splice_index(e0, at, rb, p);
            }
        }
        if i == j {
            assert(e.subrange(base + 8, base + 32) =~= rb);
            assert(d.take(d.len() as int) =~= d);
            assert(ovs.take(ovs.len() - 1) =~= d);
        } else {
            assert(e.subrange(base + 8, base + 32) =~= e0.subrange(base + 8, base + 32)) by {
                assert forall|p: int| base + 8 <= p < base + 32 implies e[p] == e0[p] by {
                    lemma_splice_index(e0, at, rb, p);
                }
            }
            match last_override_for(chunks, d, j) {
                Some(t) => {
                    lemma_last_override_some(chunks, d, j);
                    assert(d.take(t) =~= ovs.take(t));
                },
                None => {},
            }
        }
    }
}

/// Outside the table, the edited buffer is the original.
#[verifier::spinoff_prover]
#[verifier::rlimit(40)]
proof fn lemma_steps_outside(chunks: Seq<WadChunk>, original: Seq<u8>, ovs: Seq<Override>, p: int)
    requires
        patch_steps(chunks, original, ovs) is Ok,
        parse_spec(original) is Ok,
        chunks == parse_spec(original)->Ok_0.chunks,
        0 <= p < original.len(),
        p < HEADER_LEN || p >= HEADER_LEN + 32 * chunks.len(),
    ensures
        patch_steps(chunks, original, ovs)->Ok_0.0[p] == original[p],
    decreases ovs.len(),
{
    lemma_parse_count(original);
    if ovs.len() > 0 {
        let d = ovs.drop_last();
        lemma_steps_outside(chunks, original, d, p);
        lemma_patch_steps_len(chunks, original, d);
        let (e0, app0) = patch_steps(chunks, original, d)->Ok_0;
        let h = ovs.last().0;
        lemma_position_of(chunks, h);
        let i = position_of(chunks, h)->Some_0;
        let c = ovs.last().1;
        let cursor = original.len() + app0.len();
        let rb = repoint_bytes(cursor as u32, c.len() as u32, xxhash_rust_xxh3(c));
        assert(rb.len() == 24);
        lemma_splice_index(e0, HEADER_LEN + 32 * i + 8, rb, p);
    }
}

proof fn lemma_concat_window(ovs: Seq<Override>, t: int)
    requires
        0 <= t < ovs.len(),
    ensures
        concat_contents(ovs.take(t)).len() + ovs[t].1.len() <= concat_contents(ovs).len(),
        concat_contents(ovs).subrange(
            concat_contents(ovs.take(t)).len() as int,
            (concat_contents(ovs.take(t)).len() + ovs[t].1.len()) as int,
        ) == ovs[t].1,
    decreases ovs.len(),
{
    let d = ovs.drop_last();
    if t == ovs.len() - 1 {
        assert(ovs.take(t) =~= d);
        assert(concat_contents(ovs).subrange(
            concat_contents(d).len() as int,
            (concat_contents(d).len() + ovs[t].1.len()) as int,
        ) =~= ovs[t].1);
    } else {
        lemma_concat_window(d, t);
        assert(d.take(t) =~= ovs.take(t));
        let lo = concat_contents(ovs.take(t)).len() as int;
        let hi = lo + ovs[t].1.len();
        assert(concat_contents(ovs).subrange(lo, hi) =~= concat_contents(d).subrange(lo, hi));
    }
}

proof fn lemma_chunk_at_window(a: Seq<u8>, b: Seq<u8>, i: int)
    requires
        0 <= i,
        HEADER_LEN + 32 * i + 32 <= a.len(),
        HEADER_LEN + 32 * i + 32 <= b.len(),
        a.subrange(HEADER_LEN + 32 * i, HEADER_LEN + 32 * i + 32) == b.subrange(
            HEADER_LEN + 32 * i,
            HEADER_LEN + 32 * i + 32,
        ),
    ensures
        chunk_at(a, i) == chunk_at(b, i),
{
    let base = HEADER_LEN + 32 * i;
    assert forall|p: int| base <= p < base + 32 implies #[trigger] a[p] == b[p] by {
        assert(a.subrange(base, base + 32)[p - base] == a[p]);
        assert(b.subrange(base, base + 32)[p - base] == b[p]);
    }
}

proof fn lemma_repointed_chunk_at(a: Seq<u8>, i: int, c: WadChunk, offset: u32, size: u32, checksum: u64)
    requires
        0 <= i,
        HEADER_LEN + 32 * i + 32 <= a.len(),
        a.subrange(HEADER_LEN + 32 * i, HEADER_LEN + 32 * i + 8) == u64_bytes(c.path_hash),
        a.subrange(HEADER_LEN + 32 * i + 8, HEADER_LEN + 32 * i + 32) == repoint_bytes(
            offset,
            size,
            checksum,
        ),
    ensures
        chunk_at(a, i) == Ok::<WadChunk, WadV3Error>(repointed(c, offset, size, checksum)),
{
    let base = HEADER_LEN + 32 * i;
    let rb = repoint_bytes(offset, size, checksum);
    lemma_u64_roundtrip(a, base, c.path_hash);
    assert(a.subrange(base + 8, base + 12) =~= rb.subrange(0, 4));
    assert(rb.subrange(0, 4) =~= u32_bytes(offset));
    lemma_u32_roundtrip(a, base + 8, offset);
    assert(a.subrange(base + 12, base + 16) =~= rb.subrange(4, 8));
    assert(rb.subrange(4, 8) =~= u32_bytes(size));
    lemma_u32_roundtrip(a, base + 12, size);
    assert(a.subrange(base + 16, base + 20) =~= rb.subrange(8, 12));
    assert(rb.subrange(8, 12) =~= u32_bytes(size));
    lemma_u32_roundtrip(a, base + 16, size);
    assert(a[base + 20] == rb[12] && a[base + 21] == rb[13]);
    assert(a.subrange(base + 22, base + 24) =~= rb.subrange(14, 16));
    assert(rb.subrange(14, 16) =~= u16_bytes(0));
    lemma_u16_roundtrip(a, base + 22, 0);
    assert(a.subrange(base + 24, base + 32) =~= rb.subrange(16, 24));
    assert(rb.subrange(16, 24) =~= u64_bytes(checksum));
    lemma_u64_roundtrip(a, base + 24, checksum);
    assert((0u8 & 0x0f) == 0 && (0u8 >> 4u8) == 0) by (bit_vector);
}

proof fn lemma_hash_bytes(a: Seq<u8>, i: int, c: WadChunk)
    requires
        0 <= i,
        HEADER_LEN + 32 * i + 32 <= a.len(),
        chunk_at(a, i) == Ok::<WadChunk, WadV3Error>(c),
    ensures
        a.subrange(HEADER_LEN + 32 * i, HEADER_LEN + 32 * i + 8) == u64_bytes(c.path_hash),
{
    let base = HEADER_LEN + 32 * i;
    let b0 = a[base];
    let b1 = a[base + 1];
    let b2 = a[base + 2];
    let b3 = a[base + 3];
    let b4 = a[base + 4];
    let b5 = a[base + 5];
    let b6 = a[base + 6];
    let b7 = a[base + 7];
    let x = c.path_hash;
    assert(x == (b0 as u64) | ((b1 as u64) << 8u64) | ((b2 as u64) << 16u64) | ((b3 as u64)
        << 24u64) | ((b4 as u64) << 32u64) | ((b5 as u64) << 40u64) | ((b6 as u64) << 48u64) | ((
    b7 as u64) << 56u64) ==> b0 == (x & 0xff) as u8 && b1 == ((x >> 8u64) & 0xff) as u8 && b2
        == ((x >> 16u64) & 0xff) as u8 && b3 == ((x >> 24u64) & 0xff) as u8 && b4 == ((x
        >> 32u64) & 0xff) as u8 && b5 == ((x >> 40u64) & 0xff) as u8 && b6 == ((x >> 48u64)
        & 0xff) as u8 && b7 == ((x >> 56u64) & 0xff) as u8) by (bit_vector);
    assert(a.subrange(base, base + 8) =~= u64_bytes(c.path_hash));
}

pub proof fn lemma_parse_chunks_from(bytes: Seq<u8>, cs: Seq<WadChunk>, n: nat)
    requires
        n <= cs.len(),
        forall|i: int| 0 <= i < cs.len() ==> chunk_at(bytes, i) == Ok::<WadChunk, WadV3Error>(
            #[trigger] cs[i],
        ),
    ensures
        parse_chunks(bytes, n) == Ok::<Seq<WadChunk>, WadV3Error>(cs.take(n as int)),
    decreases n,
{
    if n > 0 {
        lemma_parse_chunks_from(bytes, cs, (n - 1) as nat);
        assert(cs.take(n as int) =~= cs.take(n - 1).push(cs[n - 1]));
    } else {
        assert(cs.take(0) =~= Seq::<WadChunk>::empty());
    }
}

/// Patching keeps the archive whole: the patched buffer parses with the same
/// header, every chunk an override lands on is a raw chunk whose bytes are that
/// override's payload (the last override wins), and every other chunk keeps its
/// record and, where its payload lay in bounds, its bytes.
#[verifier::spinoff_prover]
#[verifier::rlimit(40)]
pub proof fn law_patch_wad(original: Seq<u8>, ovs: Seq<Override>)
    requires
        patch_wad_spec(original, ovs) is Ok,
    ensures
        ({
            let w = parse_spec(original)->Ok_0;
            let out = patch_wad_spec(original, ovs)->Ok_0;
            let patched = patched_chunks(w.chunks, original, ovs);
            &&& parse_spec(out) == Ok::<WadV3Model, WadV3Error>(
                WadV3Model {
                    version_major: w.version_major,
                    version_minor: w.version_minor,
                    signature: w.signature,
                    header_checksum: w.header_checksum,
                    chunks: patched,
                },
            )
            &&& forall|j: int|
                0 <= j < w.chunks.len() ==> match #[trigger] last_override_for(w.chunks, ovs, j) {
                    Some(t) => chunk_region(out, patched[j]) == Some(ovs[t].1),
                    None => chunk_region(original, w.chunks[j]) is Some && w.chunks[j].data_offset
                        >= HEADER_LEN + 32 * w.chunks.len() ==> chunk_region(out, patched[j])
                        == chunk_region(original, w.chunks[j]),
                }
        }),
{
    let w = parse_spec(original)->Ok_0;
    let chunks = w.chunks;
    let n = chunks.len();
    lemma_parse_count(original);
    let (e, app) = patch_steps(chunks, original, ovs)->Ok_0;
    lemma_patch_steps_len(chunks, original, ovs);
    lemma_steps_contents(chunks, original, ovs);
    let out = e + app;
    assert(out == patch_wad_spec(original, ovs)->Ok_0);
    let patched = patched_chunks(chunks, original, ovs);
    assert forall|p: int| 0 <= p < HEADER_LEN implies #[trigger] out[p] == original[p] by {
        lemma_steps_outside(chunks, original, ovs, p);
    }
    assert(out.subrange(4, 260) =~= original.subrange(4, 260));
    assert forall|j: int| 0 <= j < n implies chunk_at(out, j) == Ok::<WadChunk, WadV3Error>(
        #[trigger] patched[j],
    ) by {
        lemma_steps_window(chunks, original, ovs, j);
        let base = HEADER_LEN + 32 * j;
        assert(out.subrange(base, base + 32) =~= e.subrange(base, base + 32));
        match last_override_for(chunks, ovs, j) {
            Some(t) => {
                lemma_hash_bytes(original, j, chunks[j]);
                assert(out.subrange(base, base + 8) =~= e.subrange(base, base + 8));
                assert(out.subrange(base + 8, base + 32) =~= e.subrange(base + 8, base + 32));
                lemma_repointed_chunk_at(
                    out,
                    j,
                    chunks[j],
                    override_offset(original, ovs, t) as u32,
                    ovs[t].1.len() as u32,
                    xxhash_rust_xxh3(ovs[t].1),
                );
            },
            None => {
                assert(e.subrange(base, base + 32) =~= original.subrange(base, base + 32)) by {
                    assert(e.subrange(base, base + 32) =~= e.subrange(base, base + 8)
                        + e.subrange(base + 8, base + 32));
                    assert(original.subrange(base, base + 32) =~= original.subrange(base, base + 8)
                        + original.subrange(base + 8, base + 32));
                }
                lemma_chunk_at_window(out, original, j);
            },
        }
    }
    lemma_parse_chunks_from(out, patched, n as nat);
    assert(patched.take(n as int) =~= patched);
    assert(out.subrange(260, 268) =~= original.subrange(260, 268));
    assert(out.subrange(268, 272) =~= original.subrange(268, 272));
    assert(le_u64(out, 260) == le_u64(original, 260));
    assert(le_u32(out, 268) == le_u32(original, 268));
    assert forall|j: int| 0 <= j < n implies match #[trigger] last_override_for(chunks, ovs, j) {
        Some(t) => chunk_region(out, patched[j]) == Some(ovs[t].1),
        None => chunk_region(original, chunks[j]) is Some && chunks[j].data_offset >= HEADER_LEN
            + 32 * n ==> chunk_region(out, patched[j]) == chunk_region(original, chunks[j]),
    } by {
        match last_override_for(chunks, ovs, j) {
            Some(t) => {
                lemma_last_override_some(chunks, ovs, j);
                lemma_concat_window(ovs, t);
                let lo = override_offset(original, ovs, t);
                let size = ovs[t].1.len();
                assert(lo <= u32::MAX && size <= u32::MAX) by {
                    lemma_override_bounds(chunks, original, ovs, t);
                }
                assert(out.subrange(lo, lo + size) =~= app.subrange(
                    lo - original.len(),
                    lo - original.len() + size,
                ));
            },
            None => {
                let c = chunks[j];
                if chunk_region(original, c) is Some && c.data_offset >= HEADER_LEN + 32 * n {
                    let lo = c.data_offset as int;
                    let hi = lo + c.compressed_size;
                    assert forall|p: int| lo <= p < hi implies e[p] == original[p] by {
                        lemma_steps_outside(chunks, original, ovs, p);
                    }
                    assert(out.subrange(lo, hi) =~= original.subrange(lo, hi));
                }
            },
        }
    }
}

proof fn lemma_override_bounds(chunks: Seq<WadChunk>, original: Seq<u8>, ovs: Seq<Override>, t: int)
    requires
        patch_steps(chunks, original, ovs) is Ok,
        0 <= t < ovs.len(),
    ensures
        override_offset(original, ovs, t) <= u32::MAX,
        ovs[t].1.len() <= u32::MAX,
    decreases ovs.len(),
{
    let d = ovs.drop_last();
    if t == ovs.len() - 1 {
        lemma_steps_contents(chunks, original, d);
        assert(ovs.take(t) =~= d);
    } else {
        lemma_override_bounds(chunks, original, d, t);
        assert(d.take(t) =~= ovs.take(t));
    }
}


// ---------------------------------------------------------------------------
// Overriding and adding
// ---------------------------------------------------------------------------

/// How a payload is stored: gzip when that makes it smaller, raw otherwise.
/// The first component is the chunk type code.
pub open spec fn stored_form(content: Seq<u8>) -> (u8, Seq<u8>) {
    match gzip_compressed(content) {
        Some(c) => if c.len() < content.len() {
            (1u8, c)
        } else {
            (0u8, content)
        },
        None => (0u8, content),
    }
}

fn store(content: &[u8]) -> (r: (u8, Vec<u8>))
    ensures
        (r.0, r.1@) == stored_form(content@),
{
    match gzip_compress(content) {
        Ok(c) => {
            if c.len() < content.len() {
                (1u8, c)
            } else {
                (0u8, vstd::slice::slice_to_vec(content))
            }
        },
        Err(_) => (0u8, vstd::slice::slice_to_vec(content)),
    }
}

/// Hashes that no chunk of the archive has, in order of first appearance.
pub open spec fn new_hashes(chunks: Seq<WadChunk>, ovs: Seq<Override>) -> Seq<u64>
    decreases ovs.len(),
{
    if ovs.len() == 0 {
        Seq::empty()
    } else {
        let prev = new_hashes(chunks, ovs.drop_last());
        let h = ovs.last().0;
        if position_of(chunks, h) is Some || prev.contains(h) {
            prev
        } else {
            prev.push(h)
        }
    }
}

/// A table row: the path hash it is filed under and its 32-byte record.
pub type Row = (u64, Seq<u8>);

/// The record of chunk `i` of `original`, its data offset moved by `delta`.
pub open spec fn shifted_record(original: Seq<u8>, i: int, delta: int) -> Seq<u8> {
    let base = HEADER_LEN + 32 * i;
    original.subrange(base, base + 8) + u32_bytes((le_u32(original, base + 8) + delta) as u32)
        + original.subrange(base + 12, base + 32)
}

/// The record of a chunk holding an override's payload.
pub open spec fn override_record(h: u64, offset: u32, stored: (u8, Seq<u8>), size: u32) -> Seq<u8> {
    u64_bytes(h) + u32_bytes(offset) + u32_bytes(stored.1.len() as u32) + u32_bytes(size) + seq![
        stored.0,
        0u8,
    ] + u16_bytes(0) + u64_bytes(xxhash_rust_xxh3(stored.1))
}

/// Index of the first row filed under `h`.
pub open spec fn row_position(rows: Seq<Row>, h: u64) -> Option<int>
    decreases rows.len(),
{
    if rows.len() == 0 {
        None
    } else {
        match row_position(rows.drop_last(), h) {
            Some(i) => Some(i),
            None => if rows.last().0 == h {
                Some(rows.len() - 1)
            } else {
                None
            },
        }
    }
}

/// The original chunks' rows, each data offset moved by `delta`.
pub open spec fn initial_rows(chunks: Seq<WadChunk>, original: Seq<u8>, delta: int) -> Seq<Row> {
    Seq::new(chunks.len(), |i: int| (chunks[i].path_hash, shifted_record(original, i, delta)))
}

/// The rows after the overrides, and the payloads appended so far.
pub open spec fn rows_after(
    chunks: Seq<WadChunk>,
    original: Seq<u8>,
    ovs: Seq<Override>,
    delta: int,
) -> Result<(Seq<Row>, Seq<u8>), WadV3Error>
    decreases ovs.len(),
{
    if ovs.len() == 0 {
        Ok((initial_rows(chunks, original, delta), Seq::empty()))
    } else {
        match rows_after(chunks, original, ovs.drop_last(), delta) {
            Err(e) => Err(e),
            Ok((rows, app)) => {
                let h = ovs.last().0;
                let c = ovs.last().1;
                let st = stored_form(c);
                let offset = original.len() + delta + app.len();
                if c.len() > u32::MAX || st.1.len() > u32::MAX || offset > u32::MAX {
                    Err(WadV3Error::Truncated)
                } else {
                    let rec = override_record(h, offset as u32, st, c.len() as u32);
                    match row_position(rows, h) {
                        Some(i) => Ok((rows.update(i, (h, rec)), app + st.1)),
                        None => Ok((rows.push((h, rec)), app + st.1)),
                    }
                }
            },
        }
    }
}

/// Where a row with hash `k` goes: after the last row, scanning from the back,
/// whose hash is not greater.
pub open spec fn row_insert_pos(s: Seq<Row>, k: u64) -> int
    decreases s.len(),
{
    if s.len() == 0 {
        0
    } else if s.last().0 <= k {
        s.len() as int
    } else {
        row_insert_pos(s.drop_last(), k)
    }
}

/// Rows sorted by hash; rows with equal hashes keep their order.
pub open spec fn sort_rows(s: Seq<Row>) -> Seq<Row>
    decreases s.len(),
{
    if s.len() == 0 {
        s
    } else {
        let t = sort_rows(s.drop_last());
        t.insert(row_insert_pos(t, s.last().0), s.last())
    }
}

/// The records of rows, one after the other.
pub open spec fn flatten_rows(rows: Seq<Row>) -> Seq<u8>
    decreases rows.len(),
{
    if rows.len() == 0 {
        Seq::empty()
    } else {
        flatten_rows(rows.drop_last()) + rows.last().1
    }
}

/// What overriding and adding chunks yields.
#[verifier::opaque]
pub open spec fn patch_or_add_spec(original: Seq<u8>, ovs: Seq<Override>) -> Result<
    Seq<u8>,
    WadV3Error,
> {
    match parse_spec(original) {
        Err(e) => Err(e),
        Ok(w) => {
            let n = w.chunks.len();
            let added = new_hashes(w.chunks, ovs).len();
            let delta = (32 * added) as int;
            if n + added > u32::MAX {
                Err(WadV3Error::Truncated)
            } else if exists|i: int|
                0 <= i < n && #[trigger] w.chunks[i].data_offset + delta > u32::MAX {
                Err(WadV3Error::Truncated)
            } else {
                match rows_after(w.chunks, original, ovs, delta) {
                    Err(e) => Err(e),
                    Ok((rows, app)) => Ok(
                        original.subrange(0, 268) + u32_bytes((n + added) as u32) + flatten_rows(
                            sort_rows(rows),
                        ) + original.subrange(HEADER_LEN + 32 * n, original.len() as int) + app,
                    ),
                }
            }
        },
    }
}

proof fn lemma_rows_after_err(
    chunks: Seq<WadChunk>,
    original: Seq<u8>,
    ovs: Seq<Override>,
    delta: int,
    k: int,
    e: WadV3Error,
)
    requires
        0 <= k <= ovs.len(),
        rows_after(chunks, original, ovs.take(k), delta) == Err::<(Seq<Row>, Seq<u8>), WadV3Error>(
            e,
        ),
    ensures
        rows_after(chunks, original, ovs, delta) == Err::<(Seq<Row>, Seq<u8>), WadV3Error>(e),
    decreases ovs.len() - k,
{
    if k < ovs.len() {
        assert(ovs.take(k + 1).drop_last() =~= ovs.take(k));
        lemma_rows_after_err(chunks, original, ovs, delta, k + 1, e);
    } else {
        assert(ovs.take(k) =~= ovs);
    }
}

proof fn lemma_row_position_prefix(s: Seq<Row>, h: u64, k: int)
    requires
        0 <= k <= s.len(),
        row_position(s.take(k), h) is Some,
    ensures
        row_position(s, h) == row_position(s.take(k), h),
    decreases s.len() - k,
{
    if k < s.len() {
        assert(s.take(k + 1).drop_last() =~= s.take(k));
        lemma_row_position_prefix(s, h, k + 1);
    } else {
        assert(s.take(k) =~= s);
    }
}

proof fn lemma_row_position(s: Seq<Row>, h: u64)
    ensures
        row_position(s, h) matches Some(i) ==> 0 <= i < s.len(),
    decreases s.len(),
{
    if s.len() > 0 {
        lemma_row_position(s.drop_last(), h);
    }
}

pub open spec fn rows_view(v: Seq<(u64, Vec<u8>)>) -> Seq<Row> {
    Seq::new(v.len(), |i: int| (v[i].0, v[i].1@))
}

fn row_position_exec(rows: &Vec<(u64, Vec<u8>)>, h: u64) -> (r: Option<usize>)
    ensures
        match r {
            Some(i) => row_position(rows_view(rows@), h) == Some(i as int),
            None => row_position(rows_view(rows@), h) is None,
        },
{
    let ghost rs = rows_view(rows@);
    let mut i: usize = 0;
    assert(rs.take(0) =~= Seq::<Row>::empty());
    while i < rows.len()
        invariant
            rs == rows_view(rows@),
            i <= rows@.len(),
            row_position(rs.take(i as int), h) is None,
        decreases rows@.len() - i,
    {
        assert(rs.take(i + 1).drop_last() =~= rs.take(i as int));
        if rows[i].0 == h {
            proof {
                lemma_row_position_prefix(rs, h, i + 1);
            }
            return Some(i);
        }
        i += 1;
    }
    assert(rs.take(i as int) =~= rs);
    None
}

fn contains_hash(v: &Vec<u64>, h: u64) -> (b: bool)
    ensures
        b == v@.contains(h),
{
    let mut i: usize = 0;
    while i < v.len()
        invariant
            i <= v@.len(),
            forall|j: int| 0 <= j < i ==> v@[j] != h,
        decreases v@.len() - i,
    {
        if v[i] == h {
            assert(v@[i as int] == h);
            return true;
        }
        i += 1;
    }
    false
}

fn copy_range(src: &[u8], from: usize, to: usize, out: &mut Vec<u8>)
    requires
        from <= to <= src@.len(),
    ensures
        final(out)@ == old(out)@ + src@.subrange(from as int, to as int),
{
    let mut i: usize = from;
    while i < to
        invariant
            from <= i <= to,
            to <= src@.len(),
            out@ == old(out)@ + src@.subrange(from as int, i as int),
        decreases to - i,
    {
        out.push(src[i]);
        i += 1;
        assert(out@ =~= old(out)@ + src@.subrange(from as int, i as int));
    }
}

/// Row indices in the order the table is written: stable by hash.
fn sorted_row_order(rows: &Vec<(u64, Vec<u8>)>) -> (order: Vec<usize>)
    ensures
        forall|j: int| 0 <= j < order@.len() ==> #[trigger] order@[j] < rows@.len(),
        Seq::new(order@.len(), |j: int| rows_view(rows@)[order@[j] as int]) == sort_rows(
            rows_view(rows@),
        ),
{
    let ghost m = rows_view(rows@);
    let n = rows.len();
    let mut order: Vec<usize> = Vec::new();
    let mut i: usize = 0;
    assert(m.take(0) =~= Seq::<Row>::empty());
    assert(Seq::new(order@.len(), |j: int| m[order@[j] as int]) =~= Seq::<Row>::empty());
    while i < n
        invariant
            n == m.len(),
            m == rows_view(rows@),
            i <= n,
            forall|j: int| 0 <= j < order@.len() ==> #[trigger] order@[j] < n,
            Seq::new(order@.len(), |j: int| m[order@[j] as int]) == sort_rows(m.take(i as int)),
        decreases n - i,
    {
        let k = rows[i].0;
        let ghost t = Seq::new(order@.len(), |j: int| m[order@[j] as int]);
        let mut p = order.len();
        assert(t.take(p as int) =~= t);
        while p > 0 && rows[order[p - 1]].0 > k
            invariant
                p <= order@.len(),
                t == Seq::new(order@.len(), |j: int| m[order@[j] as int]),
                m == rows_view(rows@),
                n == m.len(),
                forall|j: int| 0 <= j < order@.len() ==> #[trigger] order@[j] < n,
                row_insert_pos(t, k) == row_insert_pos(t.take(p as int), k),
            decreases p,
        {
            assert(t.take(p as int).drop_last() =~= t.take(p - 1));
            p -= 1;
        }
        assert(row_insert_pos(t, k) == p);
        order.insert(p, i);
        assert(Seq::new(order@.len(), |j: int| m[order@[j] as int]) =~= t.insert(
            p as int,
            m[i as int],
        ));
        assert(m.take(i + 1).drop_last() =~= m.take(i as int));
        i += 1;
    }
    assert(m.take(n as int) =~= m);
    order
}

/// The hashes of the overrides that no chunk of the archive has.
fn collect_new_hashes(chunks: &Vec<WadChunk>, overrides: &[(u64, &[u8])]) -> (added: Vec<u64>)
    ensures
        added@ == new_hashes(chunks@, overrides_model(overrides@)),
        added@.len() <= overrides@.len(),
{
    let ghost ovs = overrides_model(overrides@);
    let mut added: Vec<u64> = Vec::new();
    let mut k: usize = 0;
    assert(ovs.take(0) =~= Seq::<Override>::empty());
    while k < overrides.len()
        invariant
            ovs == overrides_model(overrides@),
            k <= overrides@.len(),
            added@ == new_hashes(chunks@, ovs.take(k as int)),
            added@.len() <= k,
        decreases overrides@.len() - k,
    {
        let h = overrides[k].0;
        assert(ovs.take(k + 1).drop_last() =~= ovs.take(k as int));
        assert(ovs.take(k + 1).last().0 == h);
        let known = match position(chunks, h) {
            Some(_) => true,
            None => false,
        };
        if !known && !contains_hash(&added, h) {
            added.push(h);
        }
        k += 1;
    }
    assert(ovs.take(k as int) =~= ovs);
    added
}

/// The records of the original chunks, their data offsets moved by `delta`;
/// `None` when a moved offset leaves the 32-bit range.
fn shifted_rows(original: &[u8], chunks: &Vec<WadChunk>, delta: u64) -> (r: Option<
    Vec<(u64, Vec<u8>)>,
>)
    requires
        HEADER_LEN + 32 * chunks@.len() <= original@.len(),
        forall|j: int|
            0 <= j < chunks@.len() ==> chunk_at(original@, j) == Ok::<WadChunk, WadV3Error>(
                #[trigger] chunks@[j],
            ),
        delta <= 0x20_0000_0000,
    ensures
        match r {
            Some(rows) => {
                &&& forall|j: int|
                    0 <= j < chunks@.len() ==> #[trigger] chunks@[j].data_offset + delta
                        <= u32::MAX
                &&& rows_view(rows@) == initial_rows(chunks@, original@, delta as int)
            },
            None => exists|j: int|
                0 <= j < chunks@.len() && #[trigger] chunks@[j].data_offset + delta > u32::MAX,
        },
{
    let n = chunks.len();
    let total = original.len();
    let ghost cs = chunks@;
    let mut rows: Vec<(u64, Vec<u8>)> = Vec::new();
    let mut i: usize = 0;
    assert(rows_view(rows@) =~= initial_rows(cs, original@, delta as int).take(0));
    while i < n
        invariant
            n == cs.len(),
            cs == chunks@,
            HEADER_LEN + 32 * n <= original@.len(),
            total == original@.len(),
            forall|j: int| 0 <= j < n ==> chunk_at(original@, j) == Ok::<WadChunk, WadV3Error>(
                #[trigger] cs[j],
            ),
            i <= n,
            delta <= 0x20_0000_0000,
            forall|j: int| 0 <= j < i ==> #[trigger] cs[j].data_offset + delta <= u32::MAX,
            rows_view(rows@) == initial_rows(cs, original@, delta as int).take(i as int),
        decreases n - i,
    {
        let base = HEADER_LEN + 32 * i;
        let old_offset = read_u32(original, base + 8);
        assert(chunk_at(original@, i as int) == Ok::<WadChunk, WadV3Error>(cs[i as int]));
        assert(old_offset == cs[i as int].data_offset);
        if old_offset as u64 + delta > u32::MAX as u64 {
            return None;
        }
        let mut rec: Vec<u8> = Vec::new();
        copy_range(original, base, base + 8, &mut rec);
        push_u32(&mut rec, (old_offset as u64 + delta) as u32);
        copy_range(original, base + 12, base + 32, &mut rec);
        assert(rec@ =~= shifted_record(original@, i as int, delta as int));
        let ghost prev = rows_view(rows@);
        rows.push((chunks[i].path_hash, rec));
        assert(rows_view(rows@) =~= prev.push((cs[i as int].path_hash, rec@)));
        i += 1;
        assert(rows_view(rows@) =~= initial_rows(cs, original@, delta as int).take(i as int));
    }
    assert(initial_rows(cs, original@, delta as int).take(n as int) =~= initial_rows(
        cs,
        original@,
        delta as int,
    ));
    Some(rows)
}

/// The 32-byte record of a chunk holding `stored`, `size` bytes once decoded.
fn new_record(h: u64, offset: u32, code: u8, stored: &Vec<u8>, size: u32) -> (rec: Vec<u8>)
    requires
        stored@.len() <= u32::MAX,
    ensures
        rec@ == override_record(h, offset, (code, stored@), size),
{
    let mut rec: Vec<u8> = Vec::new();
    push_u64(&mut rec, h);
    push_u32(&mut rec, offset);
    push_u32(&mut rec, stored.len() as u32);
    push_u32(&mut rec, size);
    rec.push(code);
    rec.push(0u8);
    push_u16(&mut rec, 0u16);
    push_u64(&mut rec, xxh3_64(stored.as_slice()));
    rec
}

/// Apply the overrides in order to `rows`, appending their payloads.
fn apply_overrides(
    original: &[u8],
    chunks: &Vec<WadChunk>,
    overrides: &[(u64, &[u8])],
    delta: u64,
    rows: &mut Vec<(u64, Vec<u8>)>,
) -> (r: Result<Vec<u8>, WadV3Error>)
    requires
        delta <= 0x20_0000_0000,
        rows_view(old(rows)@) == initial_rows(chunks@, original@, delta as int),
    ensures
        match r {
            Ok(app) => rows_after(chunks@, original@, overrides_model(overrides@), delta as int)
                == Ok::<(Seq<Row>, Seq<u8>), WadV3Error>((rows_view(final(rows)@), app@)),
            Err(e) => rows_after(chunks@, original@, overrides_model(overrides@), delta as int)
                == Err::<(Seq<Row>, Seq<u8>), WadV3Error>(e),
        },
{
    let ghost ovs = overrides_model(overrides@);
    let mut appended: Vec<u8> = Vec::new();
    let mut k: usize = 0;
    assert(ovs.take(0) =~= Seq::<Override>::empty());
    while k < overrides.len()
        invariant
            ovs == overrides_model(overrides@),
            k <= overrides@.len(),
            delta <= 0x20_0000_0000,
            rows_after(chunks@, original@, ovs.take(k as int), delta as int) == Ok::<
                (Seq<Row>, Seq<u8>),
                WadV3Error,
            >((rows_view(rows@), appended@)),
        decreases overrides@.len() - k,
    {
        let (h, content) = overrides[k];
        assert(ovs.take(k + 1).drop_last() =~= ovs.take(k as int));
        assert(ovs.take(k + 1).last() == (h, content@));
        let (code, stored) = store(content);
        let cursor: u128 = original.len() as u128 + delta as u128 + appended.len() as u128;
        if content.len() > u32::MAX as usize || stored.len() > u32::MAX as usize || cursor
            > u32::MAX as u128 {
            proof {
                lemma_rows_after_err(
                    chunks@,
                    original@,
                    ovs,
                    delta as int,
                    k + 1,
                    WadV3Error::Truncated,
                );
            }
            return Err(WadV3Error::Truncated);
        }
        let rec = new_record(h, cursor as u32, code, &stored, content.len() as u32);
        let ghost rs = rows_view(rows@);
        proof {
            lemma_row_position(rs, h);
        }
        match row_position_exec(rows, h) {
            Some(at) => {
                rows.set(at, (h, rec));
                assert(rows_view(rows@) =~= rs.update(at as int, (h, rec@)));
            },
            None => {
                rows.push((h, rec));
                assert(rows_view(rows@) =~= rs.push((h, rec@)));
            },
        }
        let ghost app0 = appended@;
        let mut t: usize = 0;
        while t < stored.len()
            invariant
                t <= stored@.len(),
                appended@ == app0 + stored@.take(t as int),
            decreases stored@.len() - t,
        {
            appended.push(stored[t]);
            t += 1;
            assert(appended@ =~= app0 + stored@.take(t as int));
        }
        assert(stored@.take(stored@.len() as int) =~= stored@);
        k += 1;
    }
    assert(ovs.take(k as int) =~= ovs);
    Ok(appended)
}

/// Write the header with `count` chunks, the rows sorted by hash, the rest of
/// the original archive after its table, and the appended payloads.
fn assemble(original: &[u8], n: usize, count: u32, rows: &Vec<(u64, Vec<u8>)>, appended: &Vec<u8>) -> (out: Vec<u8>)
    requires
        HEADER_LEN + 32 * n <= original@.len(),
    ensures
        out@ == original@.subrange(0, 268) + u32_bytes(count) + flatten_rows(
            sort_rows(rows_view(rows@)),
        ) + original@.subrange(HEADER_LEN + 32 * n, original@.len() as int) + appended@,
{
    let total = original.len();
    let order = sorted_row_order(rows);
    let ghost sorted = sort_rows(rows_view(rows@));
    let mut out: Vec<u8> = Vec::new();
    copy_range(original, 0, 268, &mut out);
    push_u32(&mut out, count);
    let ghost head = out@;
    let mut j: usize = 0;
    assert(sorted.take(0) =~= Seq::<Row>::empty());
    assert(out@ =~= head + flatten_rows(sorted.take(0)));
    while j < order.len()
        invariant
            forall|q: int| 0 <= q < order@.len() ==> #[trigger] order@[q] < rows@.len(),
            Seq::new(order@.len(), |q: int| rows_view(rows@)[order@[q] as int]) == sorted,
            j <= order@.len(),
            out@ == head + flatten_rows(sorted.take(j as int)),
        decreases order@.len() - j,
    {
        let row = &rows[order[j]];
        assert(sorted[j as int] == (row.0, row.1@));
        copy_range(row.1.as_slice(), 0, row.1.len(), &mut out);
        assert(row.1@.subrange(0, row.1@.len() as int) =~= row.1@);
        assert(sorted.take(j + 1).drop_last() =~= sorted.take(j as int));
        j += 1;
        assert(out@ =~= head + flatten_rows(sorted.take(j as int)));
    }
    assert(sorted.take(j as int) =~= sorted);
    copy_range(original, HEADER_LEN + 32 * n, original.len(), &mut out);
    let ghost before_app = out@;
    let mut t: usize = 0;
    while t < appended.len()
        invariant
            t <= appended@.len(),
            out@ == before_app + appended@.take(t as int),
        decreases appended@.len() - t,
    {
        out.push(appended[t]);
        t += 1;
        assert(out@ =~= before_app + appended@.take(t as int));
    }
    assert(appended@.take(appended@.len() as int) =~= appended@);
    out
}

/// Produce a patched copy of a real WAD in which every override either repoints
/// the chunk filed under its path hash or, when the archive has no such chunk,
/// adds one. Payloads are appended after the original data and stored
/// gzip-compressed when that makes them smaller. The table keeps the original
/// records (their data offsets moved past the grown table) and is written sorted
/// by path hash; the rest of the original archive is kept byte for byte.
pub fn patch_or_add_wad(original: &[u8], overrides: &[(u64, &[u8])]) -> (r: Result<
    Vec<u8>,
    WadV3Error,
>)
    ensures
        match r {
            Ok(v) => patch_or_add_spec(original@, overrides_model(overrides@)) == Ok::<
                Seq<u8>,
                WadV3Error,
            >(v@),
            Err(e) => patch_or_add_spec(original@, overrides_model(overrides@)) == Err::<
                Seq<u8>,
                WadV3Error,
            >(e),
        },
{
    proof {
        reveal(patch_or_add_spec);
    }
    let wad = WadV3::parse(original)?;
    let ghost ovs = overrides_model(overrides@);
    let ghost chunks = wad.chunks@;
    proof {
        lemma_parse_count(original@);
    }
    let n = wad.chunks.len();
    let added = collect_new_hashes(&wad.chunks, overrides);
    let count: u128 = n as u128 + added.len() as u128;
    if count > u32::MAX as u128 {
        return Err(WadV3Error::Truncated);
    }
    let delta: u64 = 32 * added.len() as u64;
    let mut rows = match shifted_rows(original, &wad.chunks, delta) {
        Some(rows) => rows,
        None => {
            return Err(WadV3Error::Truncated);
        },
    };
    let appended = apply_overrides(original, &wad.chunks, overrides, delta, &mut rows)?;
    Ok(assemble(original, n, count as u32, &rows, &appended))
}

/// How many of the overrides name a path hash the archive already has a chunk for.
pub open spec fn matched_count(chunks: Seq<WadChunk>, ovs: Seq<Override>) -> nat
    decreases ovs.len(),
{
    if ovs.len() == 0 {
        0
    } else {
        matched_count(chunks, ovs.drop_last()) + if position_of(chunks, ovs.last().0) is Some {
            1nat
        } else {
            0nat
        }
    }
}

/// Every hash that patching appends is the hash of one of the overrides.
proof fn lemma_new_hashes_from_overrides(chunks: Seq<WadChunk>, ovs: Seq<Override>, h: u64)
    requires
        new_hashes(chunks, ovs).contains(h),
    ensures
        exists|i: int| 0 <= i < ovs.len() && #[trigger] ovs[i].0 == h,
    decreases ovs.len(),
{
    let prev = new_hashes(chunks, ovs.drop_last());
    if prev.contains(h) {
        lemma_new_hashes_from_overrides(chunks, ovs.drop_last(), h);
        let i = choose|i: int| 0 <= i < ovs.drop_last().len() && #[trigger] ovs.drop_last()[i].0 == h;
        assert(ovs[i].0 == h);
    } else {
        assert(ovs[ovs.len() - 1].0 == h);
    }
}

/// The overrides that matched an existing chunk and the entries appended as new
/// never outnumber the overrides; when no two overrides share a path hash, each
/// override is one or the other.
pub proof fn law_override_counts_cover_the_overrides(chunks: Seq<WadChunk>, ovs: Seq<Override>)
    ensures
        matched_count(chunks, ovs) + new_hashes(chunks, ovs).len() <= ovs.len(),
        (forall|i: int, j: int| 0 <= i < j < ovs.len() ==> ovs[i].0 != ovs[j].0) ==> matched_count(
            chunks,
            ovs,
        ) + new_hashes(chunks, ovs).len() == ovs.len(),
    decreases ovs.len(),
{
    if ovs.len() > 0 {
        let rest = ovs.drop_last();
        law_override_counts_cover_the_overrides(chunks, rest);
        let h = ovs.last().0;
        if forall|i: int, j: int| 0 <= i < j < ovs.len() ==> ovs[i].0 != ovs[j].0 {
            assert(forall|i: int, j: int| 0 <= i < j < rest.len() ==> rest[i].0 != rest[j].0) by {
                assert forall|i: int, j: int| 0 <= i < j < rest.len() implies rest[i].0 != rest[j].0 by {
                    assert(rest[i] == ovs[i] && rest[j] == ovs[j]);
                }
            }
            if new_hashes(chunks, rest).contains(h) {
                lemma_new_hashes_from_overrides(chunks, rest, h);
                let i = choose|i: int| 0 <= i < rest.len() && #[trigger] rest[i].0 == h;
                assert(ovs[i].0 == ovs[ovs.len() - 1].0);
            }
        }
    }
}

/// What patching `original` with `overrides` does to it: how many overrides
/// matched an existing chunk, and how many new chunks were appended (one per
/// distinct path hash the archive lacks). An archive that does not parse gives
/// the parse error.
pub fn override_counts(original: &[u8], overrides: &[(u64, &[u8])]) -> (r: Result<
    (usize, usize),
    WadV3Error,
>)
    ensures
        match r {
            Ok((matched, added)) => parse_spec(original@) matches Ok(w) && matched == matched_count(
                w.chunks,
                overrides_model(overrides@),
            ) && added == new_hashes(w.chunks, overrides_model(overrides@)).len(),
            Err(e) => parse_spec(original@) == Err::<WadV3Model, WadV3Error>(e),
        },
{
    let wad = WadV3::parse(original)?;
    let ghost ovs = overrides_model(overrides@);
    let added = collect_new_hashes(&wad.chunks, overrides);
    let mut matched: usize = 0;
    let mut i: usize = 0;
    while i < overrides.len()
        invariant
            i <= overrides@.len(),
            ovs == overrides_model(overrides@),
            matched == matched_count(wad.chunks@, ovs.take(i as int)),
            matched <= i,
        decreases overrides@.len() - i,
    {
        assert(ovs.take(i + 1).drop_last() =~= ovs.take(i as int));
        assert(ovs.take(i + 1).last() == ovs[i as int]);
        if position(&wad.chunks, overrides[i].0).is_some() {
            matched += 1;
        }
        i += 1;
    }
    assert(ovs.take(i as int) =~= ovs);
    Ok((matched, added.len()))
}

} // verus!

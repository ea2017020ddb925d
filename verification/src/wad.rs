//! The project's own WAD v3-style archive codec (`RW 3.0`).
//!
//! Layout: magic `RW`, version `3.0`, a zeroed 256-byte signature region, the XXH64
//! of the table of contents, the entry count, then one 32-byte record per entry
//! (path hash, absolute offset, stored size, uncompressed size, compression code,
//! eleven reserved bytes), then the payloads. Entries are stored raw or gzip.
use crate::codec::{gzip_compress, gzip_compressed, gzip_decompress, gzip_decompressed};
use crate::le::{
    extend_bytes, le_u32, le_u64, lemma_u32_roundtrip, lemma_u64_roundtrip, push_u32, push_u64,
    push_zeros, read_u32, read_u64, u32_bytes, u64_bytes,
};
use crate::text::{ascii_lower, lemma_ascii_lower_idempotent, to_ascii_lowercase};
use crate::xxhash64::{xxh64, xxh64_spec};
use vstd::prelude::*;
use vstd::utf8::encode_utf8;

verus! {

pub const SIGNATURE_LEN: usize = 256;

pub const ENTRY_LEN: usize = 32;

/// magic(2) + version(2) + signature(256) + checksum(8) + entryCount(4)
pub const HEADER_LEN: usize = 272;

#[derive(Debug)]
pub enum WadError {
    Io(std::io::Error),
    BadMagic,
    UnsupportedVersion { major: u8, minor: u8 },
    UnknownCompression(u8),
    Truncated,
    ChecksumMismatch,
}

/// What went wrong, without the I/O error's payload.
#[derive(Debug, Clone, Copy, PartialEq, Eq, Structural)]
pub enum WadFault {
    Io,
    BadMagic,
    UnsupportedVersion(u8, u8),
    UnknownCompression(u8),
    Truncated,
    ChecksumMismatch,
}

pub open spec fn fault_of(e: WadError) -> WadFault {
    match e {
        WadError::Io(_) => WadFault::Io,
        WadError::BadMagic => WadFault::BadMagic,
        WadError::UnsupportedVersion { major, minor } => WadFault::UnsupportedVersion(major, minor),
        WadError::UnknownCompression(c) => WadFault::UnknownCompression(c),
        WadError::Truncated => WadFault::Truncated,
        WadError::ChecksumMismatch => WadFault::ChecksumMismatch,
    }
}

#[derive(Debug, Clone, Copy, PartialEq, Eq, Structural)]
pub enum Compression {
    Raw,
    Gzip,
}

pub open spec fn compression_code(c: Compression) -> u8 {
    match c {
        Compression::Raw => 0,
        Compression::Gzip => 1,
    }
}

impl Compression {
    fn code(self) -> (r: u8)
        ensures
            r == compression_code(self),
    {
        match self {
            Compression::Raw => 0,
            Compression::Gzip => 1,
        }
    }

    fn from_code(code: u8) -> (r: Result<Self, WadError>)
        ensures
            match r {
                Ok(c) => code <= 1 && compression_code(c) == code,
                Err(e) => code > 1 && e == WadError::UnknownCompression(code),
            },
    {
        match code {
            0 => Ok(Compression::Raw),
            1 => Ok(Compression::Gzip),
            other => Err(WadError::UnknownCompression(other)),
        }
    }
}

/// A decoded archive entry: its path hash plus the uncompressed contents.
#[derive(Debug, Clone, PartialEq, Eq)]
pub struct WadEntry {
    pub path_hash: u64,
    pub data: Vec<u8>,
    pub compression: Compression,
}

/// An entry as plain values: path hash, contents, compression.
pub type EntryModel = (u64, Seq<u8>, Compression);

impl View for WadEntry {
    type V = EntryModel;

    open spec fn view(&self) -> EntryModel {
        (self.path_hash, self.data@, self.compression)
    }
}

pub open spec fn entries_model(v: Seq<WadEntry>) -> Seq<EntryModel> {
    Seq::new(v.len(), |i: int| v[i]@)
}

/// The key that entries are filed under: XXH64 of the ASCII-lowercased UTF-8 path.
pub open spec fn path_hash_spec(path: Seq<char>) -> u64 {
    xxh64_spec(encode_utf8(ascii_lower(path)), 0)
}

/// Paths that differ only in ASCII case hash alike, and a path hashes as its
/// lowercase form does.
pub proof fn law_path_hash_ignores_case(a: Seq<char>, b: Seq<char>)
    requires
        ascii_lower(a) == ascii_lower(b),
    ensures
        path_hash_spec(a) == path_hash_spec(b),
        path_hash_spec(a) == path_hash_spec(ascii_lower(a)),
{
    lemma_ascii_lower_idempotent(a);
}

/// Hash a path the way League keys WAD entries: XXH64 of the lowercased path.
pub fn path_hash(path: &str) -> (h: u64)
    ensures
        h == path_hash_spec(path@),
{
    let lower = to_ascii_lowercase(path);
    xxh64(lower.as_str().as_bytes(), 0)
}

// ---------------------------------------------------------------------------
// Reading
// ---------------------------------------------------------------------------

/// Decoding of the `i`-th table entry of `bytes`.
pub open spec fn entry_at(bytes: Seq<u8>, i: int) -> Result<EntryModel, WadFault> {
    let base = HEADER_LEN + 32 * i;
    let hash = le_u64(bytes, base);
    let offset = le_u32(bytes, base + 8);
    let size = le_u32(bytes, base + 12);
    let code = bytes[base + 20];
    if code > 1 {
        Err(WadFault::UnknownCompression(code))
    } else if bytes.len() < offset + size {
        Err(WadFault::Truncated)
    } else {
        let stored = bytes.subrange(offset as int, offset + size);
        if code == 0 {
            Ok((hash, stored, Compression::Raw))
        } else {
            match gzip_decompressed(stored) {
                Some(d) => Ok((hash, d, Compression::Gzip)),
                None => Err(WadFault::Io),
            }
        }
    }
}

/// The first `n` table entries, or the fault of the first one that fails.
pub open spec fn read_entries(bytes: Seq<u8>, n: nat) -> Result<Seq<EntryModel>, WadFault>
    decreases n,
{
    if n == 0 {
        Ok(Seq::empty())
    } else {
        match read_entries(bytes, (n - 1) as nat) {
            Err(f) => Err(f),
            Ok(es) => match entry_at(bytes, n - 1) {
                Err(f) => Err(f),
                Ok(e) => Ok(es.push(e)),
            },
        }
    }
}

/// What reading a whole archive yields.
pub open spec fn read_spec(bytes: Seq<u8>) -> Result<Seq<EntryModel>, WadFault> {
    if bytes.len() < 4 {
        Err(WadFault::Truncated)
    } else if bytes[0] != 0x52u8 || bytes[1] != 0x57u8 {
        Err(WadFault::BadMagic)
    } else if bytes[2] != 3 || bytes[3] != 0 {
        Err(WadFault::UnsupportedVersion(bytes[2], bytes[3]))
    } else if bytes.len() < HEADER_LEN {
        Err(WadFault::Truncated)
    } else {
        let checksum = le_u64(bytes, 260);
        let count = le_u32(bytes, 268);
        let toc_end = HEADER_LEN + 32 * count;
        if bytes.len() < toc_end {
            Err(WadFault::Truncated)
        } else if xxh64_spec(bytes.subrange(HEADER_LEN as int, toc_end), 0) != checksum {
            Err(WadFault::ChecksumMismatch)
        } else {
            read_entries(bytes, count as nat)
        }
    }
}

proof fn lemma_read_entries_err(bytes: Seq<u8>, i: nat, n: nat, f: WadFault)
    requires
        i <= n,
        read_entries(bytes, i) == Err::<Seq<EntryModel>, WadFault>(f),
    ensures
        read_entries(bytes, n) == Err::<Seq<EntryModel>, WadFault>(f),
    decreases n - i,
{
    if i < n {
        lemma_read_entries_err(bytes, i + 1, n, f);
    }
}

fn decode(data: &[u8], compression: Compression) -> (r: Result<Vec<u8>, WadError>)
    ensures
        match r {
            Ok(v) => match compression {
                Compression::Raw => v@ == data@,
                Compression::Gzip => gzip_decompressed(data@) == Some(v@),
            },
            Err(e) => compression == Compression::Gzip && gzip_decompressed(data@) is None
                && e is Io,
        },
{
    match compression {
        Compression::Raw => Ok(vstd::slice::slice_to_vec(data)),
        Compression::Gzip => match gzip_decompress(data) {
            Ok(v) => Ok(v),
            Err(e) => Err(WadError::Io(e)),
        },
    }
}

/// Read and decode every entry in a WAD archive.
pub fn read_wad(bytes: &[u8]) -> (r: Result<Vec<WadEntry>, WadError>)
    ensures
        match r {
            Ok(v) => read_spec(bytes@) == Ok::<Seq<EntryModel>, WadFault>(entries_model(v@)),
            Err(e) => read_spec(bytes@) == Err::<Seq<EntryModel>, WadFault>(fault_of(e)),
        },
{
    if bytes.len() < 4 {
        return Err(WadError::Truncated);
    }
    if bytes[0] != 0x52u8 || bytes[1] != 0x57u8 {
        return Err(WadError::BadMagic);
    }
    let major = bytes[2];
    let minor = bytes[3];
    if major != 3 || minor != 0 {
        return Err(WadError::UnsupportedVersion { major, minor });
    }
    if bytes.len() < HEADER_LEN {
        return Err(WadError::Truncated);
    }
    let checksum = read_u64(bytes, 260);
    let count = read_u32(bytes, 268);
    let toc_end: u64 = HEADER_LEN as u64 + (count as u64) * 32;
    if (bytes.len() as u64) < toc_end {
        return Err(WadError::Truncated);
    }
    let toc_end = toc_end as usize;
    let toc = &bytes[HEADER_LEN..toc_end];
    if xxh64(toc, 0) != checksum {
        return Err(WadError::ChecksumMismatch);
    }
    let mut entries: Vec<WadEntry> = Vec::new();
    let mut index: usize = 0;
    assert(entries_model(entries@) =~= Seq::<EntryModel>::empty());
    while index < count as usize
        invariant
            bytes@.len() >= toc_end,
            toc_end == HEADER_LEN + 32 * count,
            index <= count,
            read_spec(bytes@) == read_entries(bytes@, count as nat),
            read_entries(bytes@, index as nat) == Ok::<Seq<EntryModel>, WadFault>(
                entries_model(entries@),
            ),
        decreases count - index,
    {
        let base = HEADER_LEN + index * ENTRY_LEN;
        let path_hash = read_u64(bytes, base);
        let offset = read_u32(bytes, base + 8) as usize;
        let compressed_size = read_u32(bytes, base + 12) as usize;
        let compression = match Compression::from_code(bytes[base + 20]) {
            Ok(c) => c,
            Err(e) => {
                proof {
                    lemma_read_entries_err(bytes@, (index + 1) as nat, count as nat, fault_of(e));
                }
                return Err(e);
            },
        };
        if bytes.len() < offset || bytes.len() - offset < compressed_size {
            proof {
                lemma_read_entries_err(
                    bytes@,
                    (index + 1) as nat,
                    count as nat,
                    WadFault::Truncated,
                );
            }
            return Err(WadError::Truncated);
        }
        let data = match decode(&bytes[offset..offset + compressed_size], compression) {
            Ok(d) => d,
            Err(e) => {
                proof {
                    lemma_read_entries_err(bytes@, (index + 1) as nat, count as nat, WadFault::Io);
                }
                return Err(e);
            },
        };
        let entry = WadEntry { path_hash, data, compression };
        proof {
            assert(entry_at(bytes@, index as int) == Ok::<EntryModel, WadFault>(entry@));
        }
        let ghost prev = entries@;
        entries.push(entry);
        index += 1;
        assert(entries_model(entries@) =~= entries_model(prev).push(entry@));
    }
    Ok(entries)
}


// ---------------------------------------------------------------------------
// Ordering of the table of contents
// ---------------------------------------------------------------------------

/// Where an entry with key `k` goes in `s`: just after the last element, scanning
/// from the back, whose key is not greater than `k`.
pub open spec fn insert_pos(s: Seq<EntryModel>, k: u64) -> int
    decreases s.len(),
{
    if s.len() == 0 {
        0
    } else if s.last().0 <= k {
        s.len() as int
    } else {
        insert_pos(s.drop_last(), k)
    }
}

/// The entries in the order they are written: sorted by path hash, entries with
/// equal hashes kept in the order they were added.
pub open spec fn sort_by_hash(s: Seq<EntryModel>) -> Seq<EntryModel>
    decreases s.len(),
{
    if s.len() == 0 {
        s
    } else {
        let t = sort_by_hash(s.drop_last());
        t.insert(insert_pos(t, s.last().0), s.last())
    }
}

pub open spec fn hashes_sorted(s: Seq<EntryModel>) -> bool {
    forall|i: int, j: int| 0 <= i < j < s.len() ==> #[trigger] s[i].0 <= #[trigger] s[j].0
}

proof fn lemma_insert_pos_bounds(s: Seq<EntryModel>, k: u64)
    ensures
        0 <= insert_pos(s, k) <= s.len(),
        forall|j: int| insert_pos(s, k) <= j < s.len() ==> k < #[trigger] s[j].0,
        hashes_sorted(s) ==> forall|j: int| 0 <= j < insert_pos(s, k) ==> #[trigger] s[j].0 <= k,
    decreases s.len(),
{
    if s.len() > 0 && s.last().0 > k {
        lemma_insert_pos_bounds(s.drop_last(), k);
        assert forall|j: int| insert_pos(s, k) <= j < s.len() implies k < #[trigger] s[j].0 by {
            if j < s.len() - 1 {
                assert(s[j] == s.drop_last()[j]);
            }
        }
        if hashes_sorted(s) {
            assert forall|j: int| 0 <= j < insert_pos(s, k) implies #[trigger] s[j].0 <= k by {
                assert(s[j] == s.drop_last()[j]);
            }
        }
    } else if s.len() > 0 {
        if hashes_sorted(s) {
            assert forall|j: int| 0 <= j < insert_pos(s, k) implies #[trigger] s[j].0 <= k by {
                if j < s.len() - 1 {
                    assert(s[j].0 <= s[s.len() - 1].0);
                }
            }
        }
    }
}

/// The written order is sorted by path hash.
pub proof fn law_sorted_by_hash(s: Seq<EntryModel>)
    ensures
        hashes_sorted(sort_by_hash(s)),
        sort_by_hash(s).len() == s.len(),
    decreases s.len(),
{
    if s.len() > 0 {
        let t = sort_by_hash(s.drop_last());
        law_sorted_by_hash(s.drop_last());
        let k = s.last().0;
        let p = insert_pos(t, k);
        lemma_insert_pos_bounds(t, k);
        let u = t.insert(p, s.last());
        assert forall|i: int, j: int| 0 <= i < j < u.len() implies #[trigger] u[i].0
            <= #[trigger] u[j].0 by {
            if i < p && j < p {
                assert(u[i] == t[i] && u[j] == t[j]);
            } else if i < p && j == p {
                assert(u[i] == t[i]);
            } else if i < p {
                assert(u[i] == t[i] && u[j] == t[j - 1]);
            } else if i == p {
                assert(u[j] == t[j - 1]);
            } else {
                assert(u[i] == t[i - 1] && u[j] == t[j - 1]);
            }
        }
    }
}

/// The entries of `s` filed under `h`, in order.
pub open spec fn with_hash(s: Seq<EntryModel>, h: u64) -> Seq<EntryModel>
    decreases s.len(),
{
    if s.len() == 0 {
        s
    } else if s.last().0 == h {
        with_hash(s.drop_last(), h).push(s.last())
    } else {
        with_hash(s.drop_last(), h)
    }
}

proof fn lemma_with_hash_concat(a: Seq<EntryModel>, b: Seq<EntryModel>, h: u64)
    ensures
        with_hash(a + b, h) == with_hash(a, h) + with_hash(b, h),
    decreases b.len(),
{
    if b.len() == 0 {
        assert(a + b =~= a);
        assert(with_hash(a, h) + with_hash(b, h) =~= with_hash(a, h));
    } else {
        lemma_with_hash_concat(a, b.drop_last(), h);
        assert((a + b).drop_last() =~= a + b.drop_last());
        assert((a + b).last() == b.last());
        assert(with_hash(a + b, h) =~= with_hash(a, h) + with_hash(b, h));
    }
}

proof fn lemma_with_hash_none(b: Seq<EntryModel>, h: u64)
    requires
        forall|j: int| 0 <= j < b.len() ==> #[trigger] b[j].0 != h,
    ensures
        with_hash(b, h) == Seq::<EntryModel>::empty(),
    decreases b.len(),
{
    if b.len() > 0 {
        assert forall|j: int| 0 <= j < b.len() - 1 implies #[trigger] b.drop_last()[j].0 != h by {
            assert(b.drop_last()[j] == b[j]);
        }
        lemma_with_hash_none(b.drop_last(), h);
    }
}

/// Entries filed under the same path hash are written in the order they were
/// added: the sort keeps every hash's entries in their order.
pub proof fn law_sort_keeps_add_order(s: Seq<EntryModel>, h: u64)
    ensures
        with_hash(sort_by_hash(s), h) == with_hash(s, h),
    decreases s.len(),
{
    if s.len() > 0 {
        let d = s.drop_last();
        let x = s.last();
        law_sort_keeps_add_order(d, h);
        let t = sort_by_hash(d);
        let p = insert_pos(t, x.0);
        lemma_insert_pos_bounds(t, x.0);
        let u = t.insert(p, x);
        assert(sort_by_hash(s) == u);
        let front = t.take(p);
        let back = t.skip(p);
        assert(u =~= front + seq![x] + back);
        assert(t =~= front + back);
        lemma_with_hash_concat(front + seq![x], back, h);
        lemma_with_hash_concat(front, seq![x], h);
        lemma_with_hash_concat(front, back, h);
        assert(seq![x].drop_last() =~= Seq::<EntryModel>::empty());
        assert(with_hash(Seq::<EntryModel>::empty(), h) == Seq::<EntryModel>::empty());
        assert(with_hash(seq![x].drop_last(), h) == Seq::<EntryModel>::empty());
        let one = with_hash(seq![x], h);
        assert(x.0 == h ==> one =~= seq![x]);
        assert(x.0 != h ==> one =~= Seq::<EntryModel>::empty());
        assert(with_hash(u, h) == with_hash(front, h) + one + with_hash(back, h));
        assert(with_hash(t, h) == with_hash(front, h) + with_hash(back, h));
        if x.0 == h {
            assert forall|j: int| 0 <= j < back.len() implies #[trigger] back[j].0 != h by {
                assert(back[j] == t[p + j]);
            }
            lemma_with_hash_none(back, h);
            assert(with_hash(u, h) =~= with_hash(t, h).push(x));
        } else {
            assert(with_hash(u, h) =~= with_hash(t, h));
        }
    }
}

/// The written entries are exactly the added ones, rearranged.
pub proof fn law_sort_is_permutation(s: Seq<EntryModel>)
    ensures
        sort_by_hash(s).to_multiset() == s.to_multiset(),
    decreases s.len(),
{
    broadcast use vstd::seq_lib::group_seq_properties;
    broadcast use vstd::multiset::group_multiset_axioms;

    if s.len() > 0 {
        let t = sort_by_hash(s.drop_last());
        law_sort_is_permutation(s.drop_last());
        lemma_insert_pos_bounds(t, s.last().0);
        let p = insert_pos(t, s.last().0);
        let u = t.insert(p, s.last());
        u.to_multiset_ensures();
        t.to_multiset_ensures();
        s.drop_last().to_multiset_ensures();
        assert(u.remove(p) =~= t);
        assert(u[p] == s.last());
        assert(u.contains(s.last()));
        assert(u.to_multiset() =~= t.to_multiset().insert(s.last()));
        assert(s =~= s.drop_last().push(s.last()));
    }
}

// ---------------------------------------------------------------------------
// Writing
// ---------------------------------------------------------------------------

/// What contents are stored as under a compression, if they can be encoded.
pub open spec fn encoded_bytes(data: Seq<u8>, c: Compression) -> Option<Seq<u8>> {
    match c {
        Compression::Raw => Some(data),
        Compression::Gzip => gzip_compressed(data),
    }
}

/// What an entry's payload is stored as, if it can be encoded.
pub open spec fn encoded_spec(e: EntryModel) -> Option<Seq<u8>> {
    encoded_bytes(e.1, e.2)
}

/// A gzip entry's stored form decodes back to its contents.
pub open spec fn round_trips(e: EntryModel) -> bool {
    e.2 == Compression::Gzip ==> match gzip_compressed(e.1) {
        Some(c) => gzip_decompressed(c) == Some(e.1),
        None => true,
    }
}

/// One 32-byte table record.
#[verifier::opaque]
pub open spec fn toc_record(hash: u64, offset: u32, stored: u32, size: u32, code: u8) -> Seq<
    u8,
> {
    u64_bytes(hash) + u32_bytes(offset) + u32_bytes(stored) + u32_bytes(size) + seq![code]
        + Seq::new(11, |i: int| 0u8)
}

/// The table of contents and the payload area for entries whose payloads start
/// at absolute offset `start`.
#[verifier::opaque]
pub open spec fn layout(es: Seq<EntryModel>, start: int) -> Result<(Seq<u8>, Seq<u8>), WadFault>
    decreases es.len(),
{
    if es.len() == 0 {
        Ok((Seq::empty(), Seq::empty()))
    } else {
        match layout(es.drop_last(), start) {
            Err(f) => Err(f),
            Ok((toc, payload)) => {
                let e = es.last();
                match encoded_spec(e) {
                    None => Err(WadFault::Io),
                    Some(enc) => {
                        let offset = start + payload.len();
                        if offset > u32::MAX {
                            Err(WadFault::Truncated)
                        } else if enc.len() > u32::MAX {
                            Err(WadFault::Truncated)
                        } else {
                            Ok(
                                (
                                    toc + toc_record(
                                        e.0,
                                        offset as u32,
                                        enc.len() as u32,
                                        e.1.len() as u32,
                                        compression_code(e.2),
                                    ),
                                    payload + enc,
                                ),
                            )
                        }
                    },
                }
            },
        }
    }
}

/// The fixed-size header.
#[verifier::opaque]
pub open spec fn header_bytes(checksum: u64, count: u32) -> Seq<u8> {
    seq![0x52u8, 0x57u8, 3u8, 0u8] + Seq::new(256, |i: int| 0u8) + u64_bytes(checksum) + u32_bytes(
        count,
    )
}

/// The complete archive for the given entries, in the order added.
pub open spec fn archive_spec(model: Seq<EntryModel>) -> Result<Seq<u8>, WadFault> {
    let sorted = sort_by_hash(model);
    let n = sorted.len();
    match layout(sorted, HEADER_LEN + 32 * n) {
        Err(f) => Err(f),
        Ok((toc, payload)) => Ok(header_bytes(xxh64_spec(toc, 0), n as u32) + toc + payload),
    }
}

proof fn lemma_layout_err(es: Seq<EntryModel>, start: int, i: int, f: WadFault)
    requires
        0 <= i <= es.len(),
        layout(es.take(i), start) == Err::<(Seq<u8>, Seq<u8>), WadFault>(f),
    ensures
        layout(es, start) == Err::<(Seq<u8>, Seq<u8>), WadFault>(f),
    decreases es.len() - i,
{
    reveal(layout);
    if i < es.len() {
        assert(es.take(i + 1).drop_last() =~= es.take(i));
        lemma_layout_err(es, start, i + 1, f);
    } else {
        assert(es.take(i) =~= es);
    }
}

proof fn lemma_layout_lengths(es: Seq<EntryModel>, start: int)
    requires
        layout(es, start) is Ok,
    ensures
        layout(es, start)->Ok_0.0.len() == 32 * es.len(),
    decreases es.len(),
{
    reveal(layout);
    if es.len() > 0 {
        lemma_layout_lengths(es.drop_last(), start);
        reveal(toc_record);
    }
}

/// Facts about the `i`-th entry of a successful layout.
proof fn lemma_layout_entry(es: Seq<EntryModel>, start: int, i: int)
    requires
        layout(es, start) is Ok,
        0 <= i < es.len(),
    ensures
        layout(es.take(i), start) is Ok,
        encoded_spec(es[i]) is Some,
        ({
            let (toc, payload) = layout(es, start)->Ok_0;
            let pre = layout(es.take(i), start)->Ok_0.1;
            let enc = encoded_spec(es[i])->Some_0;
            let offset = start + pre.len();
            &&& offset <= u32::MAX
            &&& enc.len() <= u32::MAX
            &&& pre.len() + enc.len() <= payload.len()
            &&& toc.len() == 32 * es.len()
            &&& toc.subrange(32 * i, 32 * i + 32) == toc_record(
                es[i].0,
                offset as u32,
                enc.len() as u32,
                es[i].1.len() as u32,
                compression_code(es[i].2),
            )
            &&& payload.subrange(pre.len() as int, (pre.len() + enc.len()) as int) == enc
        }),
    decreases es.len(),
{
    reveal(layout);
    let n = es.len();
    let d = es.drop_last();
    lemma_layout_lengths(es, start);
    if i == n - 1 {
        assert(es.take(i) =~= d);
        lemma_layout_lengths(d, start);
        let (toc, payload) = layout(es, start)->Ok_0;
        let (toc0, pay0) = layout(d, start)->Ok_0;
        let enc = encoded_spec(es[i])->Some_0;
        assert(toc.subrange(32 * i, 32 * i + 32) =~= toc.subrange(
            toc0.len() as int,
            toc.len() as int,
        ));
        assert(payload.subrange(pay0.len() as int, (pay0.len() + enc.len()) as int) =~= enc);
    } else {
        lemma_layout_entry(d, start, i);
        lemma_layout_lengths(d, start);
        assert(d.take(i) =~= es.take(i));
        assert(d[i] == es[i]);
        let (toc, payload) = layout(es, start)->Ok_0;
        let (toc0, pay0) = layout(d, start)->Ok_0;
        assert(toc.subrange(32 * i, 32 * i + 32) =~= toc0.subrange(32 * i, 32 * i + 32));
        let pre = layout(es.take(i), start)->Ok_0.1;
        let enc = encoded_spec(es[i])->Some_0;
        assert(payload.subrange(pre.len() as int, (pre.len() + enc.len()) as int)
            =~= pay0.subrange(pre.len() as int, (pre.len() + enc.len()) as int));
    }
}

/// Given that every gzip payload decodes back to its contents, an archive laid out
/// from entries reads back as exactly those entries, in the same order.
pub proof fn law_archive_reads_back(es: Seq<EntryModel>)
    requires
        layout(es, HEADER_LEN + 32 * es.len()) is Ok,
        forall|t: int| 0 <= t < es.len() ==> round_trips(#[trigger] es[t]),
    ensures
        ({
            let (toc, payload) = layout(es, HEADER_LEN + 32 * es.len())->Ok_0;
            read_spec(header_bytes(xxh64_spec(toc, 0), es.len() as u32) + toc + payload) == Ok::<
                Seq<EntryModel>,
                WadFault,
            >(es)
        }),
{
    let n = es.len();
    let start = HEADER_LEN + 32 * n;
    let (toc, payload) = layout(es, start)->Ok_0;
    lemma_layout_lengths(es, start);
    let h = header_bytes(xxh64_spec(toc, 0), n as u32);
    lemma_header_fields(xxh64_spec(toc, 0), n as u32);
    let a = h + toc + payload;
    lemma_concat3(h, toc, payload);
    if n > 0 {
        lemma_layout_entry(es, start, 0);
        assert(es.take(0) =~= Seq::<EntryModel>::empty());
        reveal(layout);
    }
    assert(n <= u32::MAX);
    lemma_window(a, h, 0, 260, 272);
    lemma_window(a, h.subrange(260, 272), 260, 0, 8);
    lemma_u64_roundtrip(a, 260, xxh64_spec(toc, 0));
    lemma_window(a, h.subrange(260, 272), 260, 8, 12);
    lemma_u32_roundtrip(a, 268, n as u32);
    assert(a[0] == h[0] && a[1] == h[1] && a[2] == h[2] && a[3] == h[3]);
    assert forall|i: int| 0 <= i < n implies entry_at(a, i) == Ok::<EntryModel, WadFault>(
        #[trigger] es[i],
    ) by {
        lemma_entry_reads_back(es, i, a, toc, payload);
    }
    lemma_read_entries_all(a, es, n as nat);
    assert(es.take(n as int) =~= es);
}

proof fn lemma_record_fields(hash: u64, offset: u32, stored: u32, size: u32, code: u8)
    ensures
        ({
            let r = toc_record(hash, offset, stored, size, code);
            &&& r.len() == 32
            &&& r.subrange(0, 8) == u64_bytes(hash)
            &&& r.subrange(8, 12) == u32_bytes(offset)
            &&& r.subrange(12, 16) == u32_bytes(stored)
            &&& r.subrange(16, 20) == u32_bytes(size)
            &&& r[20] == code
        }),
{
    reveal(toc_record);
    let r = toc_record(hash, offset, stored, size, code);
    assert(r.subrange(0, 8) =~= u64_bytes(hash));
    assert(r.subrange(8, 12) =~= u32_bytes(offset));
    assert(r.subrange(12, 16) =~= u32_bytes(stored));
    assert(r.subrange(16, 20) =~= u32_bytes(size));
}

proof fn lemma_header_fields(checksum: u64, count: u32)
    ensures
        ({
            let h = header_bytes(checksum, count);
            &&& h.len() == 272
            &&& h[0] == 0x52u8 && h[1] == 0x57u8 && h[2] == 3u8 && h[3] == 0u8
            &&& h.subrange(260, 272) == u64_bytes(checksum) + u32_bytes(count)
            &&& h.subrange(260, 272).subrange(0, 8) == u64_bytes(checksum)
            &&& h.subrange(260, 272).subrange(8, 12) == u32_bytes(count)
        }),
{
    reveal(header_bytes);
    let h = header_bytes(checksum, count);
    assert(h.subrange(260, 272) =~= u64_bytes(checksum) + u32_bytes(count));
    assert((u64_bytes(checksum) + u32_bytes(count)).subrange(0, 8) =~= u64_bytes(checksum));
    assert((u64_bytes(checksum) + u32_bytes(count)).subrange(8, 12) =~= u32_bytes(count));
    assert(h[0] == 0x52u8 && h[1] == 0x57u8 && h[2] == 3u8 && h[3] == 0u8);
}

/// A window inside a window.
proof fn lemma_window(a: Seq<u8>, b: Seq<u8>, off: int, lo: int, hi: int)
    requires
        0 <= off,
        off + b.len() <= a.len(),
        a.subrange(off, off + b.len()) == b,
        0 <= lo <= hi <= b.len(),
    ensures
        a.subrange(off + lo, off + hi) == b.subrange(lo, hi),
{
    assert(a.subrange(off + lo, off + hi) =~= b.subrange(lo, hi)) by {
        assert forall|k: int| 0 <= k < hi - lo implies a.subrange(off + lo, off + hi)[k]
            == b.subrange(lo, hi)[k] by {
            assert(a.subrange(off, off + b.len())[lo + k] == a[off + lo + k]);
        }
    }
}

proof fn lemma_concat3(h: Seq<u8>, t: Seq<u8>, p: Seq<u8>)
    ensures
        (h + t + p).subrange(h.len() as int, (h.len() + t.len()) as int) == t,
        (h + t + p).subrange((h.len() + t.len()) as int, (h + t + p).len() as int) == p,
        (h + t + p).subrange(0, h.len() as int) == h,
{
    assert((h + t + p).subrange(h.len() as int, (h.len() + t.len()) as int) =~= t);
    assert((h + t + p).subrange((h.len() + t.len()) as int, (h + t + p).len() as int) =~= p);
    assert((h + t + p).subrange(0, h.len() as int) =~= h);
}

proof fn lemma_entry_reads_back(
    es: Seq<EntryModel>,
    i: int,
    a: Seq<u8>,
    toc: Seq<u8>,
    payload: Seq<u8>,
)
    requires
        layout(es, HEADER_LEN + 32 * es.len()) == Ok::<(Seq<u8>, Seq<u8>), WadFault>(
            (toc, payload),
        ),
        0 <= i < es.len(),
        round_trips(es[i]),
        a.len() == HEADER_LEN + toc.len() + payload.len(),
        a.subrange(HEADER_LEN as int, HEADER_LEN + toc.len()) == toc,
        a.subrange(HEADER_LEN + toc.len(), a.len() as int) == payload,
    ensures
        entry_at(a, i) == Ok::<EntryModel, WadFault>(es[i]),
{
    let n = es.len();
    let start = HEADER_LEN + 32 * n;
    lemma_layout_entry(es, start, i);
    let pre = layout(es.take(i), start)->Ok_0.1;
    let enc = encoded_spec(es[i])->Some_0;
    let offset = start + pre.len();
    let rec = toc_record(
        es[i].0,
        offset as u32,
        enc.len() as u32,
        es[i].1.len() as u32,
        compression_code(es[i].2),
    );
    lemma_record_fields(
        es[i].0,
        offset as u32,
        enc.len() as u32,
        es[i].1.len() as u32,
        compression_code(es[i].2),
    );
    let base = HEADER_LEN + 32 * i;
    lemma_window(a, toc, HEADER_LEN as int, 32 * i, 32 * i + 32);
    lemma_window(a, rec, base, 0, 8);
    lemma_u64_roundtrip(a, base, es[i].0);
    lemma_window(a, rec, base, 8, 12);
    lemma_u32_roundtrip(a, base + 8, offset as u32);
    lemma_window(a, rec, base, 12, 16);
    lemma_u32_roundtrip(a, base + 12, enc.len() as u32);
    assert(a[base + 20] == a.subrange(base, base + 32)[20]);
    lemma_window(a, payload, start, pre.len() as int, (pre.len() + enc.len()) as int);
}

proof fn lemma_read_entries_all(a: Seq<u8>, es: Seq<EntryModel>, k: nat)
    requires
        k <= es.len(),
        forall|i: int| 0 <= i < es.len() ==> entry_at(a, i) == Ok::<EntryModel, WadFault>(
            #[trigger] es[i],
        ),
    ensures
        read_entries(a, k) == Ok::<Seq<EntryModel>, WadFault>(es.take(k as int)),
    decreases k,
{
    if k > 0 {
        lemma_read_entries_all(a, es, (k - 1) as nat);
        assert(es.take(k as int) =~= es.take(k - 1).push(es[k - 1]));
    } else {
        assert(es.take(0) =~= Seq::<EntryModel>::empty());
    }
}


fn encode(data: &[u8], compression: Compression) -> (r: Result<Vec<u8>, WadError>)
    ensures
        match r {
            Ok(v) => encoded_bytes(data@, compression) == Some(v@) && (compression
                == Compression::Gzip ==> gzip_decompressed(v@) == Some(data@)),
            Err(e) => encoded_bytes(data@, compression) is None && e is Io,
        },
{
    match compression {
        Compression::Raw => Ok(vstd::slice::slice_to_vec(data)),
        Compression::Gzip => match gzip_compress(data) {
            Ok(v) => Ok(v),
            Err(e) => Err(WadError::Io(e)),
        },
    }
}

/// The entries picked out of `m` by the indices in `order`.
pub open spec fn pick(m: Seq<EntryModel>, order: Seq<usize>) -> Seq<EntryModel> {
    Seq::new(order.len(), |j: int| m[order[j] as int])
}

/// Builds a WAD archive entry by entry, then serializes it.
#[derive(Debug)]
pub struct WadBuilder {
    entries: Vec<WadEntry>,
}

impl View for WadBuilder {
    type V = Seq<EntryModel>;

    closed spec fn view(&self) -> Seq<EntryModel> {
        entries_model(self.entries@)
    }
}

impl Default for WadBuilder {
    fn default() -> (b: Self)
        ensures
            b@ == Seq::<EntryModel>::empty(),
    {
        WadBuilder::new()
    }
}

impl WadBuilder {
    pub fn new() -> (b: Self)
        ensures
            b@ == Seq::<EntryModel>::empty(),
    {
        let b = WadBuilder { entries: Vec::new() };
        assert(b@ =~= Seq::<EntryModel>::empty());
        b
    }

    /// Add an asset by its in-WAD path; the path is hashed with [`path_hash`].
    pub fn add(&mut self, path: &str, data: Vec<u8>, compression: Compression) -> (r: &mut Self)
        ensures
            r@ == old(self)@.push((path_hash_spec(path@), data@, compression)),
            *final(self) == *final(r),
    {
        let entry = WadEntry { path_hash: path_hash(path), data, compression };
        let ghost prev = self.entries@;
        self.entries.push(entry);
        assert(entries_model(self.entries@) =~= entries_model(prev).push(entry@));
        self
    }

    pub fn len(&self) -> (n: usize)
        ensures
            n == self@.len(),
    {
        self.entries.len()
    }

    pub fn is_empty(&self) -> (b: bool)
        ensures
            b == (self@.len() == 0),
    {
        self.entries.len() == 0
    }

    /// Indices of the entries in the order they are written.
    fn sorted_order(&self) -> (order: Vec<usize>)
        ensures
            forall|j: int| 0 <= j < order@.len() ==> #[trigger] order@[j] < self@.len(),
            pick(self@, order@) == sort_by_hash(self@),
    {
        let n = self.entries.len();
        let ghost m = self@;
        let mut order: Vec<usize> = Vec::new();
        let mut i: usize = 0;
        assert(m.take(0) =~= Seq::<EntryModel>::empty());
        assert(pick(m, order@) =~= Seq::<EntryModel>::empty());
        while i < n
            invariant
                n == m.len(),
                m == self@,
                i <= n,
                forall|j: int| 0 <= j < order@.len() ==> #[trigger] order@[j] < n,
                pick(m, order@) == sort_by_hash(m.take(i as int)),
            decreases n - i,
        {
            let k = self.entries[i].path_hash;
            assert(m[i as int].0 == k);
            let ghost t = pick(m, order@);
            let mut p = order.len();
            assert(t.take(p as int) =~= t);
            while p > 0 && self.entries[order[p - 1]].path_hash > k
                invariant
                    p <= order@.len(),
                    t == pick(m, order@),
                    m == self@,
                    n == m.len(),
                    forall|j: int| 0 <= j < order@.len() ==> #[trigger] order@[j] < n,
                    insert_pos(t, k) == insert_pos(t.take(p as int), k),
                decreases p,
            {
                assert(t.take(p as int).drop_last() =~= t.take(p - 1));
                assert(t[p - 1] == m[order@[p - 1] as int]);
                p -= 1;
            }
            if p > 0 {
                assert(t.take(p as int).last() == t[p - 1]);
                assert(t[p - 1] == m[order@[p - 1] as int]);
            }
            assert(insert_pos(t, k) == p);
            let ghost prev = order@;
            order.insert(p, i);
            assert(pick(m, order@) =~= t.insert(p as int, m[i as int]));
            assert(m.take(i + 1).drop_last() =~= m.take(i as int));
            assert(m.take(i + 1).last() == m[i as int]);
            i += 1;
        }
        assert(m.take(n as int) =~= m);
        order
    }

    /// The table of contents and payload area for the entries in `order`.
    fn lay_out(&self, order: &Vec<usize>) -> (r: Result<(Vec<u8>, Vec<u8>), WadError>)
        requires
            forall|t: int| 0 <= t < order@.len() ==> #[trigger] order@[t] < self@.len(),
        ensures
            ({
                let es = pick(self@, order@);
                let start = HEADER_LEN + 32 * es.len();
                match r {
                    Ok((toc, payload)) => layout(es, start) == Ok::<
                        (Seq<u8>, Seq<u8>),
                        WadFault,
                    >((toc@, payload@)) && forall|t: int|
                        0 <= t < es.len() ==> round_trips(#[trigger] es[t]),
                    Err(e) => layout(es, start) == Err::<(Seq<u8>, Seq<u8>), WadFault>(
                        fault_of(e),
                    ),
                }
            }),
    {
        let ghost m = self@;
        let ghost es = pick(m, order@);
        let n = order.len();
        let start: u128 = HEADER_LEN as u128 + (n as u128) * 32;
        let mut toc: Vec<u8> = Vec::new();
        let mut payload: Vec<u8> = Vec::new();
        let mut cursor: u128 = start;
        let mut j: usize = 0;
        proof {
            reveal(layout);
            assert(es.take(0) =~= Seq::<EntryModel>::empty());
        }
        while j < n
            invariant
                n == es.len(),
                es == pick(m, order@),
                m == self@,
                forall|t: int| 0 <= t < order@.len() ==> #[trigger] order@[t] < m.len(),
                j <= n,
                start == HEADER_LEN + 32 * n,
                layout(es.take(j as int), start as int) == Ok::<(Seq<u8>, Seq<u8>), WadFault>(
                    (toc@, payload@),
                ),
                cursor == start + payload@.len(),
                forall|t: int| 0 <= t < j ==> round_trips(#[trigger] es[t]),
            decreases n - j,
        {
            let e = &self.entries[order[j]];
            assert(e@ == es[j as int]);
            proof {
                reveal(layout);
                assert(es.take(j + 1).drop_last() =~= es.take(j as int));
                assert(es.take(j + 1).last() == es[j as int]);
            }
            let enc = match encode(e.data.as_slice(), e.compression) {
                Ok(v) => v,
                Err(err) => {
                    proof {
                        lemma_layout_err(es, start as int, j + 1, WadFault::Io);
                    }
                    return Err(err);
                },
            };
            if cursor > u32::MAX as u128 || enc.len() > u32::MAX as usize {
                proof {
                    lemma_layout_err(es, start as int, j + 1, WadFault::Truncated);
                }
                return Err(WadError::Truncated);
            }
            let ghost toc0 = toc@;
            push_u64(&mut toc, e.path_hash);
            push_u32(&mut toc, cursor as u32);
            push_u32(&mut toc, enc.len() as u32);
            push_u32(&mut toc, e.data.len() as u32);
            toc.push(e.compression.code());
            push_zeros(&mut toc, 11);
            proof {
                reveal(toc_record);
                assert(toc@ =~= toc0 + toc_record(
                    e.path_hash,
                    cursor as u32,
                    enc@.len() as u32,
                    e.data@.len() as u32,
                    compression_code(e.compression),
                ));
            }
            extend_bytes(&mut payload, enc.as_slice());
            cursor = cursor + enc.len() as u128;
            j += 1;
        }
        assert(es.take(n as int) =~= es);
        Ok((toc, payload))
    }

    /// Serialize the archive, appending it to `out`. Entries are written sorted
    /// by path hash. On success the appended bytes read back as the sorted
    /// entries; on failure nothing is appended.
    pub fn write(&self, out: &mut Vec<u8>) -> (r: Result<(), WadError>)
        ensures
            match r {
                Ok(_) => archive_spec(self@) matches Ok(a) && final(out)@ == old(out)@ + a
                    && read_spec(a) == Ok::<Seq<EntryModel>, WadFault>(sort_by_hash(self@)),
                Err(e) => archive_spec(self@) == Err::<Seq<u8>, WadFault>(fault_of(e))
                    && final(out)@ == old(out)@,
            },
    {
        let order = self.sorted_order();
        let ghost sorted = sort_by_hash(self@);
        proof {
            law_sorted_by_hash(self@);
        }
        let n = order.len();
        let (toc, payload) = match self.lay_out(&order) {
            Ok(parts) => parts,
            Err(e) => return Err(e),
        };
        let checksum = xxh64(toc.as_slice(), 0);
        let ghost before = out@;
        out.push(0x52u8);
        out.push(0x57u8);
        out.push(3u8);
        out.push(0u8);
        push_zeros(out, SIGNATURE_LEN);
        push_u64(out, checksum);
        push_u32(out, n as u32);
        extend_bytes(out, toc.as_slice());
        extend_bytes(out, payload.as_slice());
        proof {
            reveal(header_bytes);
            assert(out@ =~= before + (header_bytes(checksum, n as u32) + toc@ + payload@));
            law_archive_reads_back(sorted);
        }
        Ok(())
    }
}

} // verus!

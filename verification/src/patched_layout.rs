//! What an archive patched by `patch_or_add_wad` looks like when it is read
//! back: every override is found holding its payload, every other chunk keeps
//! its bytes, and the table is in path-hash order.
use crate::codec::{gzip_compressed, xxhash_rust_xxh3};
use crate::le::{le_u16, le_u32, le_u64, lemma_u16_roundtrip, lemma_u32_roundtrip, lemma_u64_roundtrip, u16_bytes, u32_bytes, u64_bytes};
use crate::league_wad::{
    chunk_at, chunk_region, chunk_type_of, flatten_rows, initial_rows, lemma_parse_chunks_from,
    lemma_parse_count, lemma_position_of, new_hashes, patch_or_add_spec,
    override_record, parse_spec, position_of, row_insert_pos, row_position, rows_after,
    shifted_record, sort_rows, stored_form, ChunkType, Override, Row, WadChunk, WadV3Error,
    HEADER_LEN,
};
use vstd::prelude::*;

verus! {

/// The chunk a 32-byte table record describes.
pub open spec fn record_chunk(rec: Seq<u8>) -> Result<WadChunk, WadV3Error> {
    let type_byte = rec[20];
    match chunk_type_of(type_byte & 0x0f) {
        None => Err(WadV3Error::UnknownCompression(type_byte & 0x0f)),
        Some(t) => Ok(
            WadChunk {
                path_hash: le_u64(rec, 0),
                data_offset: le_u32(rec, 8),
                compressed_size: le_u32(rec, 12),
                uncompressed_size: le_u32(rec, 16),
                chunk_type: t,
                subchunk_count: type_byte >> 4u8,
                is_duplicated: rec[21] != 0,
                subchunk_start: le_u16(rec, 22),
                checksum: le_u64(rec, 24),
            },
        ),
    }
}

/// Record `i` of a buffer is the record found at its place in the table.
proof fn lemma_chunk_at_record(bytes: Seq<u8>, i: int)
    requires
        0 <= i,
        HEADER_LEN + 32 * i + 32 <= bytes.len(),
    ensures
        chunk_at(bytes, i) == record_chunk(bytes.subrange(HEADER_LEN + 32 * i, HEADER_LEN + 32 * i + 32)),
{
    let base = HEADER_LEN + 32 * i;
    let r = bytes.subrange(base, base + 32);
    assert forall|k: int| 0 <= k < 32 implies #[trigger] r[k] == bytes[base + k] by {}
    assert(r[0] == bytes[base] && r[1] == bytes[base + 1] && r[2] == bytes[base + 2] && r[3]
        == bytes[base + 3]);
    assert(r[4] == bytes[base + 4] && r[5] == bytes[base + 5] && r[6] == bytes[base + 6] && r[7]
        == bytes[base + 7]);
    assert(r[8] == bytes[base + 8] && r[9] == bytes[base + 9] && r[10] == bytes[base + 10]
        && r[11] == bytes[base + 11]);
    assert(r[12] == bytes[base + 12] && r[13] == bytes[base + 13] && r[14] == bytes[base + 14]
        && r[15] == bytes[base + 15]);
    assert(r[16] == bytes[base + 16] && r[17] == bytes[base + 17] && r[18] == bytes[base + 18]
        && r[19] == bytes[base + 19]);
    assert(r[20] == bytes[base + 20] && r[21] == bytes[base + 21] && r[22] == bytes[base + 22]
        && r[23] == bytes[base + 23]);
    assert(r[24] == bytes[base + 24] && r[25] == bytes[base + 25] && r[26] == bytes[base + 26]
        && r[27] == bytes[base + 27]);
    assert(r[28] == bytes[base + 28] && r[29] == bytes[base + 29] && r[30] == bytes[base + 30]
        && r[31] == bytes[base + 31]);
}

/// A chunk with its data offset moved by `delta`.
pub open spec fn moved(c: WadChunk, delta: int) -> WadChunk {
    WadChunk { data_offset: (c.data_offset + delta) as u32, ..c }
}

/// A shifted record describes the original chunk, moved.
proof fn lemma_record_shifted(original: Seq<u8>, k: int, delta: int, c: WadChunk)
    requires
        0 <= k,
        HEADER_LEN + 32 * k + 32 <= original.len(),
        chunk_at(original, k) == Ok::<WadChunk, WadV3Error>(c),
        0 <= c.data_offset + delta <= u32::MAX,
    ensures
        shifted_record(original, k, delta).len() == 32,
        record_chunk(shifted_record(original, k, delta)) == Ok::<WadChunk, WadV3Error>(
            moved(c, delta),
        ),
{
    let base = HEADER_LEN + 32 * k;
    let r = original.subrange(base, base + 32);
    lemma_chunk_at_record(original, k);
    let s = shifted_record(original, k, delta);
    let off = (le_u32(original, base + 8) + delta) as u32;
    assert(s.len() == 32);
    assert forall|j: int| 0 <= j < 32 && (j < 8 || j >= 12) implies #[trigger] s[j] == r[j] by {}
    assert(s.subrange(8, 12) =~= u32_bytes(off));
    lemma_u32_roundtrip(s, 8, off);
    assert(le_u32(r, 8) == c.data_offset);
    assert(le_u64(s, 0) == le_u64(r, 0));
    assert(le_u32(s, 12) == le_u32(r, 12));
    assert(le_u32(s, 16) == le_u32(r, 16));
    assert(le_u16(s, 22) == le_u16(r, 22));
    assert(le_u64(s, 24) == le_u64(r, 24));
    assert(s[20] == r[20] && s[21] == r[21]);
}

/// The chunk type a stored form's code stands for.
pub open spec fn stored_type(code: u8) -> ChunkType {
    if code == 0 {
        ChunkType::Raw
    } else {
        ChunkType::Gzip
    }
}

/// The chunk that an override's record describes.
pub open spec fn override_chunk(h: u64, offset: u32, stored: (u8, Seq<u8>), size: u32) -> WadChunk {
    WadChunk {
        path_hash: h,
        data_offset: offset,
        compressed_size: stored.1.len() as u32,
        uncompressed_size: size,
        chunk_type: stored_type(stored.0),
        subchunk_count: 0,
        is_duplicated: false,
        subchunk_start: 0,
        checksum: xxhash_rust_xxh3(stored.1),
    }
}

proof fn lemma_stored_code(content: Seq<u8>)
    ensures
        stored_form(content).0 == 0 || stored_form(content).0 == 1,
        stored_form(content).0 == 0 ==> stored_form(content).1 == content,
        stored_form(content).0 == 1 ==> gzip_compressed(content) == Some(stored_form(content).1)
            && stored_form(content).1.len() < content.len(),
{
}

/// An override's record describes the override's chunk.
proof fn lemma_record_override(h: u64, offset: u32, stored: (u8, Seq<u8>), size: u32)
    requires
        stored.0 == 0 || stored.0 == 1,
    ensures
        override_record(h, offset, stored, size).len() == 32,
        record_chunk(override_record(h, offset, stored, size)) == Ok::<WadChunk, WadV3Error>(
            override_chunk(h, offset, stored, size),
        ),
{
    let r = override_record(h, offset, stored, size);
    let len = stored.1.len() as u32;
    let sum = xxhash_rust_xxh3(stored.1);
    assert(r.len() == 32);
    assert(r.subrange(0, 8) =~= u64_bytes(h));
    lemma_u64_roundtrip(r, 0, h);
    assert(r.subrange(8, 12) =~= u32_bytes(offset));
    lemma_u32_roundtrip(r, 8, offset);
    assert(r.subrange(12, 16) =~= u32_bytes(len));
    lemma_u32_roundtrip(r, 12, len);
    assert(r.subrange(16, 20) =~= u32_bytes(size));
    lemma_u32_roundtrip(r, 16, size);
    assert(r[20] == stored.0 && r[21] == 0);
    assert(r.subrange(22, 24) =~= u16_bytes(0));
    lemma_u16_roundtrip(r, 22, 0);
    assert(r.subrange(24, 32) =~= u64_bytes(sum));
    lemma_u64_roundtrip(r, 24, sum);
    let code = stored.0;
    assert(code == 0 || code == 1 ==> (code & 0x0f) == code && (code >> 4u8) == 0) by (bit_vector);
}


// ---------------------------------------------------------------------------
// The rows the table is built from
// ---------------------------------------------------------------------------

/// The stored payloads of the overrides, one after the other.
pub open spec fn stored_concat(ovs: Seq<Override>) -> Seq<u8>
    decreases ovs.len(),
{
    if ovs.len() == 0 {
        Seq::empty()
    } else {
        stored_concat(ovs.drop_last()) + stored_form(ovs.last().1).1
    }
}

proof fn lemma_stored_window(ovs: Seq<Override>, t: int)
    requires
        0 <= t < ovs.len(),
    ensures
        stored_concat(ovs.take(t)).len() + stored_form(ovs[t].1).1.len() <= stored_concat(ovs).len(),
        stored_concat(ovs).subrange(
            stored_concat(ovs.take(t)).len() as int,
            (stored_concat(ovs.take(t)).len() + stored_form(ovs[t].1).1.len()) as int,
        ) == stored_form(ovs[t].1).1,
    decreases ovs.len(),
{
    let d = ovs.drop_last();
    if t == ovs.len() - 1 {
        assert(ovs.take(t) =~= d);
        assert(stored_concat(ovs).subrange(
            stored_concat(d).len() as int,
            (stored_concat(d).len() + stored_form(ovs[t].1).1.len()) as int,
        ) =~= stored_form(ovs[t].1).1);
    } else {
        lemma_stored_window(d, t);
        assert(d.take(t) =~= ovs.take(t));
        let lo = stored_concat(ovs.take(t)).len() as int;
        let hi = (lo + stored_form(ovs[t].1).1.len()) as int;
        assert(stored_concat(ovs).subrange(lo, hi) =~= stored_concat(d).subrange(lo, hi));
    }
}

/// Index of the last override filed under `h`.
pub open spec fn last_with_hash(ovs: Seq<Override>, h: u64) -> Option<int>
    decreases ovs.len(),
{
    if ovs.len() == 0 {
        None
    } else if ovs.last().0 == h {
        Some(ovs.len() - 1)
    } else {
        last_with_hash(ovs.drop_last(), h)
    }
}

proof fn lemma_last_with_hash(ovs: Seq<Override>, h: u64)
    ensures
        match last_with_hash(ovs, h) {
            Some(t) => 0 <= t < ovs.len() && ovs[t].0 == h && forall|j: int|
                t < j < ovs.len() ==> #[trigger] ovs[j].0 != h,
            None => forall|j: int| 0 <= j < ovs.len() ==> #[trigger] ovs[j].0 != h,
        },
    decreases ovs.len(),
{
    if ovs.len() > 0 {
        lemma_last_with_hash(ovs.drop_last(), h);
        assert forall|j: int| 0 <= j < ovs.len() - 1 implies #[trigger] ovs[j] == ovs.drop_last()[j] by {}
    }
}

/// Where the payload of override `t` lands in the patched archive.
pub open spec fn payload_offset(original: Seq<u8>, delta: int, ovs: Seq<Override>, t: int) -> int {
    original.len() + delta + stored_concat(ovs.take(t)).len()
}

/// A row whose record is 32 bytes and describes a chunk filed under the row's hash.
pub open spec fn row_ok(r: Row) -> bool {
    r.1.len() == 32 && (record_chunk(r.1) matches Ok(c) && c.path_hash == r.0)
}

proof fn lemma_row_position_char(s: Seq<Row>, h: u64)
    ensures
        match row_position(s, h) {
            Some(i) => 0 <= i < s.len() && s[i].0 == h && forall|j: int|
                0 <= j < i ==> #[trigger] s[j].0 != h,
            None => forall|j: int| 0 <= j < s.len() ==> #[trigger] s[j].0 != h,
        },
    decreases s.len(),
{
    if s.len() > 0 {
        lemma_row_position_char(s.drop_last(), h);
        assert forall|j: int| 0 <= j < s.len() - 1 implies #[trigger] s[j] == s.drop_last()[j] by {}
    }
}

/// The first row filed under `h` depends on the rows' hashes alone.
proof fn lemma_row_position_same_keys(a: Seq<Row>, b: Seq<Row>, h: u64)
    requires
        a.len() == b.len(),
        forall|i: int| 0 <= i < a.len() ==> #[trigger] a[i].0 == b[i].0,
    ensures
        row_position(a, h) == row_position(b, h),
{
    lemma_row_position_char(a, h);
    lemma_row_position_char(b, h);
    match row_position(a, h) {
        Some(i) => {
            assert(b[i].0 == h);
            match row_position(b, h) {
                Some(j) => {
                    if j < i {
                        assert(a[j].0 == h);
                    }
                },
                None => {},
            }
        },
        None => {
            match row_position(b, h) {
                Some(j) => {
                    assert(a[j].0 == h);
                },
                None => {},
            }
        },
    }
}

proof fn lemma_initial_rows(chunks: Seq<WadChunk>, original: Seq<u8>, delta: int, h: u64)
    ensures
        row_position(initial_rows(chunks, original, delta), h) == position_of(chunks, h),
{
    let r = initial_rows(chunks, original, delta);
    lemma_row_position_char(r, h);
    lemma_position_of(chunks, h);
    match row_position(r, h) {
        Some(i) => {
            assert(chunks[i].path_hash == h);
            match position_of(chunks, h) {
                Some(j) => {
                    if j < i {
                        assert(r[j].0 == h);
                    }
                },
                None => {},
            }
        },
        None => {
            match position_of(chunks, h) {
                Some(j) => {
                    assert(r[j].0 == h);
                },
                None => {},
            }
        },
    }
}

/// What an archive's parse gives for its first `n` records, and how far its
/// chunks may be moved.
pub open spec fn source_ok(chunks: Seq<WadChunk>, original: Seq<u8>, delta: int) -> bool {
    &&& HEADER_LEN + 32 * chunks.len() <= original.len()
    &&& forall|k: int|
        0 <= k < chunks.len() ==> chunk_at(original, k) == Ok::<WadChunk, WadV3Error>(
            #[trigger] chunks[k],
        )
    &&& 0 <= delta
    &&& forall|k: int| 0 <= k < chunks.len() ==> #[trigger] chunks[k].data_offset + delta <= u32::MAX
}

/// What the rows after the overrides are: each override hash is filed once,
/// under the record of its last override; every other original chunk keeps its
/// first row, moved; the payloads appended are the stored overrides in order.
#[verifier::opaque]
pub open spec fn rows_meaning(
    chunks: Seq<WadChunk>,
    original: Seq<u8>,
    ovs: Seq<Override>,
    delta: int,
    rows: Seq<Row>,
    app: Seq<u8>,
) -> bool {
    &&& app == stored_concat(ovs)
    &&& rows.len() == chunks.len() + new_hashes(chunks, ovs).len()
    &&& forall|i: int| 0 <= i < rows.len() ==> row_ok(#[trigger] rows[i])
    &&& forall|h: u64|
        (#[trigger] row_position(rows, h) is Some) == (position_of(chunks, h) is Some
            || new_hashes(chunks, ovs).contains(h))
    &&& forall|h: u64| #[trigger] override_row_ok(original, ovs, delta, rows, h)
    &&& forall|h: u64| #[trigger] kept_row_ok(chunks, original, ovs, delta, rows, h)
}

/// The row filed under an override hash is the record of its last override.
pub open spec fn override_row_ok(
    original: Seq<u8>,
    ovs: Seq<Override>,
    delta: int,
    rows: Seq<Row>,
    h: u64,
) -> bool {
    match last_with_hash(ovs, h) {
        Some(t) => {
            let st = stored_form(ovs[t].1);
            let off = payload_offset(original, delta, ovs, t);
            &&& off <= u32::MAX
            &&& st.1.len() <= u32::MAX
            &&& ovs[t].1.len() <= u32::MAX
            &&& row_position(rows, h) matches Some(i) && rows[i] == (
                h,
                override_record(h, off as u32, st, ovs[t].1.len() as u32),
            )
        },
        None => true,
    }
}

/// An original chunk no override names keeps its first row, moved.
pub open spec fn kept_row_ok(
    chunks: Seq<WadChunk>,
    original: Seq<u8>,
    ovs: Seq<Override>,
    delta: int,
    rows: Seq<Row>,
    h: u64,
) -> bool {
    last_with_hash(ovs, h) is None ==> (position_of(chunks, h) matches Some(k)
        ==> row_position(rows, h) == Some(k) && rows[k] == (h, shifted_record(original, k, delta)))
}

proof fn lemma_rows_after_base(chunks: Seq<WadChunk>, original: Seq<u8>, delta: int)
    requires
        source_ok(chunks, original, delta),
    ensures
        rows_meaning(
            chunks,
            original,
            Seq::empty(),
            delta,
            initial_rows(chunks, original, delta),
            Seq::empty(),
        ),
{
    reveal(rows_meaning);
    let ovs = Seq::<Override>::empty();
    let rows = initial_rows(chunks, original, delta);
    assert(new_hashes(chunks, ovs) =~= Seq::<u64>::empty());
    assert forall|i: int| 0 <= i < rows.len() implies row_ok(#[trigger] rows[i]) by {
        lemma_record_shifted(original, i, delta, chunks[i]);
    }
    assert forall|h: u64|
        (#[trigger] row_position(rows, h) is Some) == (position_of(chunks, h) is Some
            || new_hashes(chunks, ovs).contains(h)) by {
        lemma_initial_rows(chunks, original, delta, h);
    }
    assert forall|h: u64| #[trigger] kept_row_ok(chunks, original, ovs, delta, rows, h) by {
        lemma_initial_rows(chunks, original, delta, h);
        lemma_position_of(chunks, h);
    }
    assert forall|h: u64| #[trigger] override_row_ok(original, ovs, delta, rows, h) by {}
}


proof fn lemma_contains_push(s: Seq<u64>, x: u64, y: u64)
    ensures
        s.push(x).contains(y) == (s.contains(y) || x == y),
{
    if s.contains(y) {
        let i = choose|i: int| 0 <= i < s.len() && s[i] == y;
        assert(s.push(x)[i] == y);
    }
    if x == y {
        assert(s.push(x)[s.len() as int] == y);
    }
    if s.push(x).contains(y) {
        let i = choose|i: int| 0 <= i < s.push(x).len() && s.push(x)[i] == y;
        if i < s.len() {
            assert(s[i] == y);
        }
    }
}

#[verifier::spinoff_prover]
proof fn lemma_rows_after_step(
    chunks: Seq<WadChunk>,
    original: Seq<u8>,
    ovs: Seq<Override>,
    delta: int,
    rows0: Seq<Row>,
    app0: Seq<u8>,
)
    requires
        source_ok(chunks, original, delta),
        ovs.len() > 0,
        rows_after(chunks, original, ovs.drop_last(), delta) == Ok::<
            (Seq<Row>, Seq<u8>),
            WadV3Error,
        >((rows0, app0)),
        rows_meaning(chunks, original, ovs.drop_last(), delta, rows0, app0),
        rows_after(chunks, original, ovs, delta) is Ok,
    ensures
        rows_meaning(
            chunks,
            original,
            ovs,
            delta,
            rows_after(chunks, original, ovs, delta)->Ok_0.0,
            rows_after(chunks, original, ovs, delta)->Ok_0.1,
        ),
{
    reveal(rows_meaning);
    let prev = ovs.drop_last();
    let t0 = ovs.len() - 1;
    let h0 = ovs.last().0;
    let c = ovs.last().1;
    let st = stored_form(c);
    let offset = original.len() + delta + app0.len();
    let rec = override_record(h0, offset as u32, st, c.len() as u32);
    let rows = rows_after(chunks, original, ovs, delta)->Ok_0.0;
    let app = rows_after(chunks, original, ovs, delta)->Ok_0.1;
    let nh0 = new_hashes(chunks, prev);
    let nh = new_hashes(chunks, ovs);
    assert(ovs.take(t0) =~= prev);
    assert(app == app0 + st.1);
    assert(payload_offset(original, delta, ovs, t0) == offset);
    lemma_stored_code(c);
    lemma_record_override(h0, offset as u32, st, c.len() as u32);
    assert(row_ok((h0, rec)));
    lemma_row_position_char(rows0, h0);
    assert((row_position(rows0, h0) is Some) == (position_of(chunks, h0) is Some || nh0.contains(
        h0,
    )));
    assert forall|h: u64| h != h0 implies #[trigger] last_with_hash(ovs, h) == last_with_hash(
        prev,
        h,
    ) by {}
    assert forall|t: int| 0 <= t < t0 implies #[trigger] payload_offset(original, delta, ovs, t)
        == payload_offset(original, delta, prev, t) by {
        assert(ovs.take(t) =~= prev.take(t));
    }
    match row_position(rows0, h0) {
        Some(i0) => {
            assert(rows == rows0.update(i0, (h0, rec)));
            assert(nh == nh0);
            assert forall|i: int| 0 <= i < rows.len() implies #[trigger] rows[i].0 == rows0[i].0 by {}
            assert forall|h: u64| #[trigger] row_position(rows, h) == row_position(rows0, h) by {
                lemma_row_position_same_keys(rows, rows0, h);
            }
            assert forall|i: int| 0 <= i < rows.len() implies row_ok(#[trigger] rows[i]) by {
                if i != i0 {
                    assert(rows[i] == rows0[i]);
                }
            }
            assert forall|h: u64|
                (#[trigger] row_position(rows, h) is Some) == (position_of(chunks, h) is Some
                    || nh.contains(h)) by {
                assert(row_position(rows, h) == row_position(rows0, h));
            }
            assert forall|h: u64| #[trigger] override_row_ok(original, ovs, delta, rows, h) by {
                assert(row_position(rows, h) == row_position(rows0, h));
                if h != h0 && last_with_hash(prev, h) is Some {
                    assert(override_row_ok(original, prev, delta, rows0, h));
                    let t = last_with_hash(prev, h)->Some_0;
                    lemma_last_with_hash(prev, h);
                    assert(ovs[t] == prev[t]);
                    let i = row_position(rows0, h)->Some_0;
                    lemma_row_position_char(rows0, h);
                    assert(i != i0);
                    assert(rows[i] == rows0[i]);
                }
            }
            assert forall|h: u64| #[trigger] kept_row_ok(chunks, original, ovs, delta, rows, h) by {
                assert(row_position(rows, h) == row_position(rows0, h));
                if h != h0 && position_of(chunks, h) is Some && last_with_hash(prev, h) is None {
                    assert(kept_row_ok(chunks, original, prev, delta, rows0, h));
                    let k = position_of(chunks, h)->Some_0;
                    assert(last_with_hash(prev, h) is None);
                    assert(row_position(rows0, h) == Some(k));
                    lemma_row_position_char(rows0, h);
                    assert(k != i0);
                }
            }
        },
        None => {
            assert(rows == rows0.push((h0, rec)));
            assert(nh == nh0.push(h0));
            assert(rows.drop_last() =~= rows0);
            assert forall|h: u64| #[trigger]
                row_position(rows, h) == (match row_position(rows0, h) {
                    Some(i) => Some(i),
                    None => if h0 == h {
                        Some(rows0.len() as int)
                    } else {
                        None
                    },
                }) by {}
            assert forall|i: int| 0 <= i < rows.len() implies row_ok(#[trigger] rows[i]) by {
                if i < rows0.len() {
                    assert(rows[i] == rows0[i]);
                }
            }
            assert forall|h: u64|
                (#[trigger] row_position(rows, h) is Some) == (position_of(chunks, h) is Some
                    || nh.contains(h)) by {
                lemma_contains_push(nh0, h0, h);
                if h != h0 {
                    assert((row_position(rows0, h) is Some) == (position_of(chunks, h) is Some
                        || nh0.contains(h)));
                }
            }
            assert forall|h: u64| #[trigger] override_row_ok(original, ovs, delta, rows, h) by {
                if h != h0 && last_with_hash(prev, h) is Some {
                    assert(override_row_ok(original, prev, delta, rows0, h));
                    let t = last_with_hash(prev, h)->Some_0;
                    lemma_last_with_hash(prev, h);
                    assert(ovs[t] == prev[t]);
                    let i = row_position(rows0, h)->Some_0;
                    lemma_row_position_char(rows0, h);
                    assert(rows[i] == rows0[i]);
                }
            }
            assert forall|h: u64| #[trigger] kept_row_ok(chunks, original, ovs, delta, rows, h) by {
                if h != h0 && position_of(chunks, h) is Some && last_with_hash(prev, h) is None {
                    assert(kept_row_ok(chunks, original, prev, delta, rows0, h));
                    let k = position_of(chunks, h)->Some_0;
                    assert(last_with_hash(prev, h) is None);
                    assert(row_position(rows0, h) == Some(k));
                    lemma_row_position_char(rows0, h);
                    assert(rows[k] == rows0[k]);
                }
            }
        },
    }
}

proof fn lemma_rows_after(chunks: Seq<WadChunk>, original: Seq<u8>, ovs: Seq<Override>, delta: int)
    requires
        source_ok(chunks, original, delta),
        rows_after(chunks, original, ovs, delta) is Ok,
    ensures
        rows_meaning(
            chunks,
            original,
            ovs,
            delta,
            rows_after(chunks, original, ovs, delta)->Ok_0.0,
            rows_after(chunks, original, ovs, delta)->Ok_0.1,
        ),
    decreases ovs.len(),
{
    if ovs.len() == 0 {
        lemma_rows_after_base(chunks, original, delta);
        assert(ovs =~= Seq::<Override>::empty());
    } else {
        let prev = ovs.drop_last();
        assert(rows_after(chunks, original, prev, delta) is Ok);
        lemma_rows_after(chunks, original, prev, delta);
        let r0 = rows_after(chunks, original, prev, delta)->Ok_0;
        lemma_rows_after_step(chunks, original, ovs, delta, r0.0, r0.1);
    }
}


// ---------------------------------------------------------------------------
// Sorting the rows
// ---------------------------------------------------------------------------

proof fn lemma_insert_pos(t: Seq<Row>, k: u64)
    ensures
        0 <= row_insert_pos(t, k) <= t.len(),
        forall|j: int| row_insert_pos(t, k) <= j < t.len() ==> #[trigger] t[j].0 > k,
        row_insert_pos(t, k) > 0 ==> t[row_insert_pos(t, k) - 1].0 <= k,
    decreases t.len(),
{
    if t.len() > 0 && t.last().0 > k {
        let d = t.drop_last();
        lemma_insert_pos(d, k);
        assert forall|j: int| row_insert_pos(t, k) <= j < t.len() implies #[trigger] t[j].0 > k by {
            if j < t.len() - 1 {
                assert(t[j] == d[j]);
            }
        }
        if row_insert_pos(t, k) > 0 {
            assert(t[row_insert_pos(t, k) - 1] == d[row_insert_pos(t, k) - 1]);
        }
    }
}

pub open spec fn rows_sorted(s: Seq<Row>) -> bool {
    forall|a: int, b: int| 0 <= a < b < s.len() ==> #[trigger] s[a].0 <= #[trigger] s[b].0
}

/// Sorting keeps the rows' number, keeps every row well formed, orders them by
/// hash, and keeps the first row of every hash.
#[verifier::spinoff_prover]
proof fn lemma_sort_rows(s: Seq<Row>)
    ensures
        sort_rows(s).len() == s.len(),
        (forall|i: int| 0 <= i < s.len() ==> row_ok(#[trigger] s[i])) ==> (forall|i: int|
            0 <= i < s.len() ==> row_ok(#[trigger] sort_rows(s)[i])),
        rows_sorted(sort_rows(s)),
        forall|h: u64|
            match #[trigger] row_position(s, h) {
                Some(i) => row_position(sort_rows(s), h) matches Some(j) && sort_rows(s)[j]
                    == s[i],
                None => row_position(sort_rows(s), h) is None,
            },
    decreases s.len(),
{
    if s.len() > 0 {
        let d = s.drop_last();
        let x = s.last();
        lemma_sort_rows(d);
        let t = sort_rows(d);
        let p = row_insert_pos(t, x.0);
        lemma_insert_pos(t, x.0);
        let ins = t.insert(p, x);
        assert(sort_rows(s) == ins);
        assert(ins.len() == s.len());
        assert forall|q: int| 0 <= q < ins.len() implies #[trigger] ins[q] == (if q < p {
            t[q]
        } else if q == p {
            x
        } else {
            t[q - 1]
        }) by {}
        if forall|i: int| 0 <= i < s.len() ==> row_ok(#[trigger] s[i]) {
            assert forall|i: int| 0 <= i < d.len() implies row_ok(#[trigger] d[i]) by {
                assert(d[i] == s[i]);
            }
            assert forall|i: int| 0 <= i < s.len() implies row_ok(#[trigger] ins[i]) by {
                if i == p {
                    assert(row_ok(s[s.len() - 1]));
                }
            }
        }
        assert forall|a: int, b: int| 0 <= a < b < ins.len() implies #[trigger] ins[a].0
            <= #[trigger] ins[b].0 by {
            if a < p && b > p {
                assert(t[a].0 <= t[b - 1].0);
            } else if a < p && b == p {
                if a < p - 1 {
                    assert(t[a].0 <= t[p - 1].0);
                }
            } else if a == p {
                assert(t[b - 1].0 > x.0);
            } else if a < p {
                assert(t[a].0 <= t[b].0);
            } else {
                assert(t[a - 1].0 <= t[b - 1].0);
            }
        }
        assert forall|h: u64|
            match #[trigger] row_position(s, h) {
                Some(i) => row_position(ins, h) matches Some(j) && ins[j] == s[i],
                None => row_position(ins, h) is None,
            } by {
            assert(row_position(d, h) matches Some(i) ==> row_position(t, h) matches Some(j)
                && t[j] == d[i]);
            assert(row_position(d, h) is None ==> row_position(t, h) is None);
            assert(s.drop_last() == d);
            lemma_row_position_char(d, h);
            lemma_row_position_char(t, h);
            lemma_row_position_char(ins, h);
            match row_position(d, h) {
                Some(i) => {
                    let j = row_position(t, h)->Some_0;
                    assert(d[i] == s[i]);
                    let jj = if j < p {
                        j
                    } else {
                        j + 1
                    };
                    if x.0 == h {
                        assert(j < p);
                    }
                    assert(ins[jj] == t[j]);
                    assert forall|q: int| 0 <= q < jj implies #[trigger] ins[q].0 != h by {
                        if q < p {
                            assert(ins[q] == t[q]);
                        } else if q == p {
                            assert(x.0 != h);
                        } else {
                            assert(ins[q] == t[q - 1]);
                        }
                    }
                    match row_position(ins, h) {
                        Some(k) => {
                            if k < jj {
                                assert(ins[k].0 != h);
                            }
                        },
                        None => {
                            assert(ins[jj].0 == h);
                        },
                    }
                },
                None => {
                    if x.0 == h {
                        assert(ins[p] == x);
                        assert forall|q: int| 0 <= q < p implies #[trigger] ins[q].0 != h by {
                            assert(ins[q] == t[q]);
                        }
                        match row_position(ins, h) {
                            Some(k) => {
                                if k < p {
                                    assert(ins[k].0 != h);
                                }
                            },
                            None => {
                                assert(ins[p].0 == h);
                            },
                        }
                    } else {
                        match row_position(ins, h) {
                            Some(k) => {
                                if k < p {
                                    assert(ins[k] == t[k]);
                                } else if k > p {
                                    assert(ins[k] == t[k - 1]);
                                }
                            },
                            None => {},
                        }
                    }
                },
            }
        }
    }
}


// ---------------------------------------------------------------------------
// The patched archive read back
// ---------------------------------------------------------------------------

proof fn lemma_flatten(rows: Seq<Row>)
    requires
        forall|i: int| 0 <= i < rows.len() ==> (#[trigger] rows[i]).1.len() == 32,
    ensures
        flatten_rows(rows).len() == 32 * rows.len(),
        forall|i: int|
            0 <= i < rows.len() ==> flatten_rows(rows).subrange(32 * i, 32 * i + 32)
                == (#[trigger] rows[i]).1,
    decreases rows.len(),
{
    if rows.len() > 0 {
        let d = rows.drop_last();
        assert forall|i: int| 0 <= i < d.len() implies (#[trigger] d[i]).1.len() == 32 by {
            assert(d[i] == rows[i]);
        }
        lemma_flatten(d);
        let f = flatten_rows(rows);
        assert(f == flatten_rows(d) + rows.last().1);
        assert forall|i: int| 0 <= i < rows.len() implies f.subrange(32 * i, 32 * i + 32)
            == (#[trigger] rows[i]).1 by {
            if i < rows.len() - 1 {
                assert(d[i] == rows[i]);
                assert(f.subrange(32 * i, 32 * i + 32) =~= flatten_rows(d).subrange(
                    32 * i,
                    32 * i + 32,
                ));
            } else {
                assert(f.subrange(32 * i, 32 * i + 32) =~= rows.last().1);
            }
        }
    }
}

/// The table position of the first chunk filed under `h` is that of its row.
proof fn lemma_position_of_rows(cs: Seq<WadChunk>, rows: Seq<Row>, h: u64)
    requires
        cs.len() == rows.len(),
        forall|i: int| 0 <= i < cs.len() ==> #[trigger] cs[i].path_hash == rows[i].0,
    ensures
        position_of(cs, h) == row_position(rows, h),
{
    lemma_position_of(cs, h);
    lemma_row_position_char(rows, h);
    match position_of(cs, h) {
        Some(i) => {
            assert(rows[i].0 == h);
            match row_position(rows, h) {
                Some(j) => {
                    if j < i {
                        assert(cs[j].path_hash == h);
                    }
                },
                None => {},
            }
        },
        None => {
            match row_position(rows, h) {
                Some(j) => {
                    assert(cs[j].path_hash == h);
                },
                None => {},
            }
        },
    }
}

/// The chunks of the archive being patched.
pub open spec fn source_chunks(original: Seq<u8>) -> Seq<WadChunk> {
    parse_spec(original)->Ok_0.chunks
}

/// How far the original payloads move: one record for every hash added.
pub open spec fn growth(original: Seq<u8>, ovs: Seq<Override>) -> int {
    (32 * new_hashes(source_chunks(original), ovs).len()) as int
}

/// The rows after the overrides, before sorting, and the payloads appended.
pub open spec fn patched_rows(original: Seq<u8>, ovs: Seq<Override>) -> (Seq<Row>, Seq<u8>) {
    rows_after(source_chunks(original), original, ovs, growth(original, ovs))->Ok_0
}

/// The rows in the order they are written.
pub open spec fn written_rows(original: Seq<u8>, ovs: Seq<Override>) -> Seq<Row> {
    sort_rows(patched_rows(original, ovs).0)
}

/// The chunks the written table describes.
pub open spec fn written_table(original: Seq<u8>, ovs: Seq<Override>) -> Seq<WadChunk> {
    Seq::new(
        written_rows(original, ovs).len(),
        |i: int| record_chunk(written_rows(original, ovs)[i].1)->Ok_0,
    )
}

#[verifier::spinoff_prover]
proof fn lemma_setup(original: Seq<u8>, ovs: Seq<Override>)
    requires
        patch_or_add_spec(original, ovs) is Ok,
    ensures
        parse_spec(original) is Ok,
        source_ok(source_chunks(original), original, growth(original, ovs)),
        rows_after(source_chunks(original), original, ovs, growth(original, ovs)) is Ok,
        rows_meaning(
            source_chunks(original),
            original,
            ovs,
            growth(original, ovs),
            patched_rows(original, ovs).0,
            patched_rows(original, ovs).1,
        ),
        patch_or_add_spec(original, ovs)->Ok_0 == original.subrange(0, 268) + u32_bytes(
            written_rows(original, ovs).len() as u32,
        ) + flatten_rows(written_rows(original, ovs)) + original.subrange(
            HEADER_LEN + 32 * source_chunks(original).len(),
            original.len() as int,
        ) + patched_rows(original, ovs).1,
        written_rows(original, ovs).len() == source_chunks(original).len() + new_hashes(
            source_chunks(original),
            ovs,
        ).len(),
        written_rows(original, ovs).len() <= u32::MAX,
        forall|i: int|
            0 <= i < written_rows(original, ovs).len() ==> row_ok(
                #[trigger] written_rows(original, ovs)[i],
            ),
        rows_sorted(written_rows(original, ovs)),
        forall|h: u64|
            match #[trigger] row_position(patched_rows(original, ovs).0, h) {
                Some(i) => row_position(written_rows(original, ovs), h) matches Some(j)
                    && written_rows(original, ovs)[j] == patched_rows(original, ovs).0[i],
                None => row_position(written_rows(original, ovs), h) is None,
            },
{
    reveal(patch_or_add_spec);
    let chunks = source_chunks(original);
    let delta = growth(original, ovs);
    lemma_parse_count(original);
    assert(forall|i: int| 0 <= i < chunks.len() ==> #[trigger] chunks[i].data_offset + delta
        <= u32::MAX);
    lemma_rows_after(chunks, original, ovs, delta);
    reveal(rows_meaning);
    lemma_sort_rows(patched_rows(original, ovs).0);
}

proof fn lemma_meaning_override(
    chunks: Seq<WadChunk>,
    original: Seq<u8>,
    ovs: Seq<Override>,
    delta: int,
    rows: Seq<Row>,
    app: Seq<u8>,
    h: u64,
)
    requires
        rows_meaning(chunks, original, ovs, delta, rows, app),
    ensures
        override_row_ok(original, ovs, delta, rows, h),
        app == stored_concat(ovs),
{
    reveal(rows_meaning);
}

proof fn lemma_meaning_kept(
    chunks: Seq<WadChunk>,
    original: Seq<u8>,
    ovs: Seq<Override>,
    delta: int,
    rows: Seq<Row>,
    app: Seq<u8>,
    h: u64,
)
    requires
        rows_meaning(chunks, original, ovs, delta, rows, app),
    ensures
        kept_row_ok(chunks, original, ovs, delta, rows, h),
{
    reveal(rows_meaning);
}

proof fn lemma_table_keys(original: Seq<u8>, ovs: Seq<Override>)
    requires
        patch_or_add_spec(original, ovs) is Ok,
    ensures
        written_table(original, ovs).len() == written_rows(original, ovs).len(),
        forall|i: int|
            0 <= i < written_table(original, ovs).len() ==> (#[trigger] written_table(
                original,
                ovs,
            )[i]).path_hash == written_rows(original, ovs)[i].0,
{
    lemma_setup(original, ovs);
    let cs = written_table(original, ovs);
    let sorted = written_rows(original, ovs);
    assert forall|i: int| 0 <= i < cs.len() implies (#[trigger] cs[i]).path_hash == sorted[i].0 by {
        assert(row_ok(sorted[i]));
    }
}

proof fn lemma_tail_window(
    out: Seq<u8>,
    original: Seq<u8>,
    table_end: int,
    delta: int,
    off: int,
    size: int,
)
    requires
        0 <= table_end <= off,
        0 <= size,
        off + size <= original.len(),
        table_end + delta >= 0,
        table_end + delta + (original.len() - table_end) <= out.len(),
        out.subrange(table_end + delta, table_end + delta + (original.len() - table_end))
            == original.subrange(table_end, original.len() as int),
    ensures
        out.subrange(off + delta, off + delta + size) == original.subrange(off, off + size),
{
    let base = table_end + delta;
    let tail = original.subrange(table_end, original.len() as int);
    assert forall|x: int| 0 <= x < size implies #[trigger] out.subrange(off + delta, off + delta
        + size)[x] == original.subrange(off, off + size)[x] by {
        assert(out.subrange(base, base + tail.len() as int)[off + x - table_end] == tail[off + x
            - table_end]);
    }
    assert(out.subrange(off + delta, off + delta + size) =~= original.subrange(off, off + size));
}

/// Where the parts of the patched buffer lie.
#[verifier::spinoff_prover]
proof fn lemma_out_parts(original: Seq<u8>, ovs: Seq<Override>)
    requires
        patch_or_add_spec(original, ovs) is Ok,
    ensures
        ({
            let out = patch_or_add_spec(original, ovs)->Ok_0;
            let app = patched_rows(original, ovs).1;
            let rows = written_rows(original, ovs);
            let table_end = HEADER_LEN + 32 * source_chunks(original).len();
            let tail = original.subrange(table_end, original.len() as int);
            let written_end = HEADER_LEN + 32 * rows.len();
            &&& table_end <= original.len()
            &&& out.len() == original.len() + growth(original, ovs) + app.len()
            &&& written_end == table_end + growth(original, ovs)
            &&& out.subrange(original.len() + growth(original, ovs), out.len() as int) == app
            &&& out.subrange(written_end, written_end + tail.len()) == tail
            &&& out.subrange(0, 268) == original.subrange(0, 268)
            &&& out.subrange(268, 272) == u32_bytes(rows.len() as u32)
            &&& forall|i: int|
                0 <= i < rows.len() ==> out.subrange(HEADER_LEN + 32 * i, HEADER_LEN + 32 * i + 32)
                    == (#[trigger] rows[i]).1
        }),
{
    lemma_setup(original, ovs);
    let out = patch_or_add_spec(original, ovs)->Ok_0;
    let app = patched_rows(original, ovs).1;
    let rows = written_rows(original, ovs);
    let table_end = HEADER_LEN + 32 * source_chunks(original).len();
    let tail = original.subrange(table_end, original.len() as int);
    let head = original.subrange(0, 268) + u32_bytes(rows.len() as u32);
    lemma_flatten(rows);
    let fl = flatten_rows(rows);
    assert(out == head + fl + tail + app);
    let written_end = HEADER_LEN + 32 * rows.len();
    assert(out.subrange(original.len() + growth(original, ovs), out.len() as int) =~= app);
    assert(out.subrange(written_end, written_end + tail.len()) =~= tail);
    assert(out.subrange(0, 268) =~= original.subrange(0, 268));
    assert(out.subrange(268, 272) =~= u32_bytes(rows.len() as u32));
    assert forall|i: int| 0 <= i < rows.len() implies out.subrange(
        HEADER_LEN + 32 * i,
        HEADER_LEN + 32 * i + 32,
    ) == (#[trigger] rows[i]).1 by {
        assert(out.subrange(HEADER_LEN + 32 * i, HEADER_LEN + 32 * i + 32) =~= fl.subrange(
            32 * i,
            32 * i + 32,
        ));
    }
}

#[verifier::spinoff_prover]
#[verifier::rlimit(50)]
proof fn lemma_written_parses(original: Seq<u8>, ovs: Seq<Override>)
    requires
        patch_or_add_spec(original, ovs) is Ok,
    ensures
        ({
            let out = patch_or_add_spec(original, ovs)->Ok_0;
            let w = parse_spec(original)->Ok_0;
            &&& out.len() == original.len() + growth(original, ovs) + patched_rows(
                original,
                ovs,
            ).1.len()
            &&& parse_spec(out) == Ok::<crate::league_wad::WadV3Model, WadV3Error>(
                crate::league_wad::WadV3Model {
                    version_major: w.version_major,
                    version_minor: w.version_minor,
                    signature: w.signature,
                    header_checksum: w.header_checksum,
                    chunks: written_table(original, ovs),
                },
            )
        }),
        forall|i: int|
            0 <= i < written_table(original, ovs).len() ==> (#[trigger] written_table(
                original,
                ovs,
            )[i]).path_hash == written_rows(original, ovs)[i].0,
{
    lemma_setup(original, ovs);
    lemma_out_parts(original, ovs);
    let sorted = written_rows(original, ovs);
    let nn = sorted.len();
    let out = patch_or_add_spec(original, ovs)->Ok_0;
    lemma_u32_roundtrip(out, 268, nn as u32);
    assert(out[0] == original[0] && out[1] == original[1] && out[2] == original[2] && out[3]
        == original[3]) by {
        assert(out.subrange(0, 268)[0] == out[0]);
        assert(out.subrange(0, 268)[1] == out[1]);
        assert(out.subrange(0, 268)[2] == out[2]);
        assert(out.subrange(0, 268)[3] == out[3]);
        assert(original.subrange(0, 268)[0] == original[0]);
        assert(original.subrange(0, 268)[1] == original[1]);
        assert(original.subrange(0, 268)[2] == original[2]);
        assert(original.subrange(0, 268)[3] == original[3]);
    }
    assert(out.subrange(4, 260) =~= original.subrange(4, 260)) by {
        assert(out.subrange(4, 260) =~= out.subrange(0, 268).subrange(4, 260));
        assert(original.subrange(4, 260) =~= original.subrange(0, 268).subrange(4, 260));
    }
    assert(le_u64(out, 260) == le_u64(original, 260)) by {
        let a = out.subrange(0, 268);
        let b = original.subrange(0, 268);
        assert(a[260] == out[260] && a[261] == out[261] && a[262] == out[262] && a[263]
            == out[263]);
        assert(a[264] == out[264] && a[265] == out[265] && a[266] == out[266] && a[267]
            == out[267]);
        assert(b[260] == original[260] && b[261] == original[261] && b[262] == original[262]
            && b[263] == original[263]);
        assert(b[264] == original[264] && b[265] == original[265] && b[266] == original[266]
            && b[267] == original[267]);
    }
    let cs = written_table(original, ovs);
    assert forall|i: int| 0 <= i < nn implies chunk_at(out, i) == Ok::<WadChunk, WadV3Error>(
        #[trigger] cs[i],
    ) by {
        lemma_chunk_at_record(out, i);
        assert(row_ok(sorted[i]));
    }
    lemma_parse_chunks_from(out, cs, nn as nat);
    assert(cs.take(nn as int) =~= cs);
    assert forall|i: int| 0 <= i < cs.len() implies (#[trigger] cs[i]).path_hash == sorted[i].0 by {
        assert(row_ok(sorted[i]));
    }
}

#[verifier::spinoff_prover]
#[verifier::rlimit(50)]
proof fn lemma_override_found(original: Seq<u8>, ovs: Seq<Override>, j: int)
    requires
        patch_or_add_spec(original, ovs) is Ok,
        0 <= j < ovs.len(),
    ensures
        ({
            let out = patch_or_add_spec(original, ovs)->Ok_0;
            let h = ovs[j].0;
            let t = last_with_hash(ovs, h)->Some_0;
            let st = stored_form(ovs[t].1);
            let cs = written_table(original, ovs);
            &&& last_with_hash(ovs, h) is Some
            &&& position_of(cs, h) matches Some(i) && {
                &&& chunk_region(out, cs[i]) == Some(st.1)
                &&& cs[i].chunk_type == stored_type(st.0)
                &&& cs[i].uncompressed_size == ovs[t].1.len()
            }
        }),
{
    lemma_setup(original, ovs);
    lemma_out_parts(original, ovs);
    lemma_table_keys(original, ovs);
    let out = patch_or_add_spec(original, ovs)->Ok_0;
    let chunks = source_chunks(original);
    let delta = growth(original, ovs);
    let rows = patched_rows(original, ovs).0;
    let app = patched_rows(original, ovs).1;
    let sorted = written_rows(original, ovs);
    let cs = written_table(original, ovs);
    let h = ovs[j].0;
    lemma_last_with_hash(ovs, h);
    let t = last_with_hash(ovs, h)->Some_0;
    let st = stored_form(ovs[t].1);
    lemma_meaning_override(chunks, original, ovs, delta, rows, app, h);
    let off = payload_offset(original, delta, ovs, t);
    let i = row_position(rows, h)->Some_0;
    assert(row_position(rows, h) == Some(i));
    lemma_row_position_char(rows, h);
    lemma_row_position_char(sorted, h);
    let q = row_position(sorted, h)->Some_0;
    assert(sorted[q] == rows[i]);
    lemma_position_of_rows(cs, sorted, h);
    lemma_stored_code(ovs[t].1);
    lemma_record_override(h, off as u32, st, ovs[t].1.len() as u32);
    assert(cs[q] == override_chunk(h, off as u32, st, ovs[t].1.len() as u32));
    lemma_stored_window(ovs, t);
    let p = stored_concat(ovs.take(t)).len() as int;
    let len = st.1.len() as int;
    let prefix = (original.len() + delta) as int;
    assert(out.subrange(off, off + len) =~= out.subrange(prefix, out.len() as int).subrange(
        p,
        p + len,
    ));
}

#[verifier::spinoff_prover]
#[verifier::rlimit(50)]
proof fn lemma_kept_found(original: Seq<u8>, ovs: Seq<Override>, k: int)
    requires
        patch_or_add_spec(original, ovs) is Ok,
        0 <= k < source_chunks(original).len(),
        position_of(source_chunks(original), source_chunks(original)[k].path_hash) == Some(k),
        last_with_hash(ovs, source_chunks(original)[k].path_hash) is None,
        HEADER_LEN + 32 * source_chunks(original).len() <= source_chunks(original)[k].data_offset,
        source_chunks(original)[k].data_offset + source_chunks(original)[k].compressed_size
            <= original.len(),
    ensures
        ({
            let out = patch_or_add_spec(original, ovs)->Ok_0;
            let c = source_chunks(original)[k];
            let cs = written_table(original, ovs);
            position_of(cs, c.path_hash) matches Some(i) && chunk_region(out, cs[i])
                == chunk_region(original, c)
        }),
{
    lemma_setup(original, ovs);
    lemma_out_parts(original, ovs);
    lemma_table_keys(original, ovs);
    let out = patch_or_add_spec(original, ovs)->Ok_0;
    let chunks = source_chunks(original);
    let n = chunks.len();
    let delta = growth(original, ovs);
    let rows = patched_rows(original, ovs).0;
    let app = patched_rows(original, ovs).1;
    let sorted = written_rows(original, ovs);
    let cs = written_table(original, ovs);
    let h = chunks[k].path_hash;
    lemma_meaning_kept(chunks, original, ovs, delta, rows, app, h);
    assert(row_position(rows, h) == Some(k));
    assert(rows[k] == (h, shifted_record(original, k, delta)));
    lemma_row_position_char(rows, h);
    lemma_row_position_char(sorted, h);
    let q = row_position(sorted, h)->Some_0;
    assert(sorted[q] == rows[k]);
    lemma_position_of_rows(cs, sorted, h);
    assert(chunk_at(original, k) == Ok::<WadChunk, WadV3Error>(chunks[k]));
    assert(chunks[k].data_offset + delta <= u32::MAX);
    lemma_record_shifted(original, k, delta, chunks[k]);
    assert(cs[q] == moved(chunks[k], delta));
    let table_end = HEADER_LEN + 32 * n;
    let off = chunks[k].data_offset as int;
    let size = chunks[k].compressed_size as int;
    lemma_tail_window(out, original, table_end, delta, off, size);
}

/// Overriding and adding chunks keeps the archive whole and readable. The
/// patched buffer parses, with the original version, signature and header
/// checksum, and one chunk more for every hash the archive lacked. Every
/// override's hash is found, and its chunk holds the payload of the last
/// override for that hash as it was stored: raw, or gzip-compressed when that
/// is shorter, with the payload's length as its uncompressed size. Every
/// original chunk that no override names is found at its moved offset holding
/// the same bytes, where those lay past the table and within the archive. The
/// table is ordered by path hash.
pub proof fn law_patch_or_add_wad(original: Seq<u8>, ovs: Seq<Override>)
    requires
        patch_or_add_spec(original, ovs) is Ok,
    ensures
        ({
            let out = patch_or_add_spec(original, ovs)->Ok_0;
            let w = parse_spec(original)->Ok_0;
            let n = w.chunks.len();
            let added = new_hashes(w.chunks, ovs).len();
            &&& parse_spec(out) is Ok
            &&& parse_spec(out)->Ok_0.version_major == w.version_major
            &&& parse_spec(out)->Ok_0.version_minor == w.version_minor
            &&& parse_spec(out)->Ok_0.signature == w.signature
            &&& parse_spec(out)->Ok_0.header_checksum == w.header_checksum
            &&& parse_spec(out)->Ok_0.chunks.len() == n + added
            &&& forall|j: int|
                0 <= j < ovs.len() ==> {
                    let h = (#[trigger] ovs[j]).0;
                    let t = last_with_hash(ovs, h)->Some_0;
                    let st = stored_form(ovs[t].1);
                    let cs = parse_spec(out)->Ok_0.chunks;
                    &&& last_with_hash(ovs, h) is Some
                    &&& position_of(cs, h) matches Some(i) && {
                        &&& chunk_region(out, cs[i]) == Some(st.1)
                        &&& cs[i].chunk_type == stored_type(st.0)
                        &&& cs[i].uncompressed_size == ovs[t].1.len()
                    }
                }
            &&& forall|k: int|
                0 <= k < n && position_of(w.chunks, (#[trigger] w.chunks[k]).path_hash) == Some(k)
                    && last_with_hash(ovs, w.chunks[k].path_hash) is None && HEADER_LEN + 32 * n
                    <= w.chunks[k].data_offset && w.chunks[k].data_offset
                    + w.chunks[k].compressed_size <= original.len() ==> {
                    let cs = parse_spec(out)->Ok_0.chunks;
                    position_of(cs, w.chunks[k].path_hash) matches Some(i) && chunk_region(
                        out,
                        cs[i],
                    ) == chunk_region(original, w.chunks[k])
                }
            &&& forall|a: int, b: int|
                0 <= a < b < parse_spec(out)->Ok_0.chunks.len() ==> (#[trigger] parse_spec(
                    out,
                )->Ok_0.chunks[a]).path_hash <= (#[trigger] parse_spec(out)->Ok_0.chunks[b]).path_hash
        }),
{
    lemma_setup(original, ovs);
    lemma_written_parses(original, ovs);
    let cs = written_table(original, ovs);
    let sorted = written_rows(original, ovs);
    assert forall|j: int| 0 <= j < ovs.len() implies {
        let out = patch_or_add_spec(original, ovs)->Ok_0;
        let h = (#[trigger] ovs[j]).0;
        let t = last_with_hash(ovs, h)->Some_0;
        let st = stored_form(ovs[t].1);
        &&& last_with_hash(ovs, h) is Some
        &&& position_of(cs, h) matches Some(i) && {
            &&& chunk_region(out, cs[i]) == Some(st.1)
            &&& cs[i].chunk_type == stored_type(st.0)
            &&& cs[i].uncompressed_size == ovs[t].1.len()
        }
    } by {
        lemma_override_found(original, ovs, j);
    }
    let chunks = source_chunks(original);
    assert forall|k: int|
        0 <= k < chunks.len() && position_of(chunks, (#[trigger] chunks[k]).path_hash) == Some(k)
            && last_with_hash(ovs, chunks[k].path_hash) is None && HEADER_LEN + 32 * chunks.len()
            <= chunks[k].data_offset && chunks[k].data_offset + chunks[k].compressed_size
            <= original.len() implies position_of(cs, chunks[k].path_hash) matches Some(i)
        && chunk_region(patch_or_add_spec(original, ovs)->Ok_0, cs[i]) == chunk_region(
        original,
        chunks[k],
    ) by {
        lemma_kept_found(original, ovs, k);
    }
    assert forall|a: int, b: int| 0 <= a < b < cs.len() implies (#[trigger] cs[a]).path_hash
        <= (#[trigger] cs[b]).path_hash by {
        assert(sorted[a].0 <= sorted[b].0);
    }
}

} // verus!

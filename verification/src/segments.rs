use vstd::bytes::{
    lemma_auto_spec_u64_to_from_le_bytes, spec_u64_from_le_bytes, spec_u64_to_le_bytes,
    u64_from_le_bytes, u64_to_le_bytes,
};
use vstd::prelude::*;

use crate::mem_table::{
    lemma_sum_sizes_nonneg, lemma_sum_sizes_take_le, lemma_sum_sizes_take_mono,
    lemma_sum_sizes_take_step, sum_sizes, MemTable, MemTableModel,
};
use crate::table::append_slice;

verus! {

/// Size in bytes of the fixed segment header on disk.
pub const SEGMENT_HEADER_SIZE: u64 = 40;

/// Size in bytes of one per-stream index record on disk.
pub const SEGMENT_STREAM_HEADER_SIZE: u64 = 48;

/// Format version written into the segment header.
pub const SEGMENT_HEADER_VERSION_V1: u64 = 1;

/// Format version written into each per-stream index record.
pub const SEGMENT_STREAM_HEADER_VERSION_V1: u64 = 1;

/// Fixed-size header at the start of every segment file: five
/// little-endian `u64` fields.
#[derive(Clone, Copy, Debug, PartialEq, Eq, Structural)]
pub struct SegmentHeader {
    pub version: u64,
    pub last_entry: u64,
    pub first_entry: u64,
    pub stream_headers_offset: u64,
    pub stream_headers_count: u64,
}

/// One per-stream index record: six little-endian `u64` fields saying where
/// the stream's payload sits in the file and which logical range it covers.
/// The checksum field is written as zero; checksum computation is a known
/// gap of the format.
#[derive(Clone, Copy, Debug, PartialEq, Eq, Structural)]
pub struct SegmentStreamHeader {
    pub version: u64,
    pub stream_id: u64,
    pub offset: u64,
    pub file_offset: u64,
    pub size: u64,
    pub crc_check_sum: u64,
}

// ---------------------------------------------------------------------------
// The on-disk image, as a function of the write buffer being flushed.
// ---------------------------------------------------------------------------
pub open spec fn spec_header_bytes(h: SegmentHeader) -> Seq<u8> {
    spec_u64_to_le_bytes(h.version) + spec_u64_to_le_bytes(h.last_entry) + spec_u64_to_le_bytes(
        h.first_entry,
    ) + spec_u64_to_le_bytes(h.stream_headers_offset) + spec_u64_to_le_bytes(
        h.stream_headers_count,
    )
}

pub open spec fn spec_stream_header_bytes(h: SegmentStreamHeader) -> Seq<u8> {
    spec_u64_to_le_bytes(h.version) + spec_u64_to_le_bytes(h.stream_id) + spec_u64_to_le_bytes(
        h.offset,
    ) + spec_u64_to_le_bytes(h.file_offset) + spec_u64_to_le_bytes(h.size) + spec_u64_to_le_bytes(
        h.crc_check_sum,
    )
}

/// The header a flush of buffer `m` writes.
pub open spec fn spec_segment_header(m: MemTableModel) -> SegmentHeader {
    SegmentHeader {
        version: SEGMENT_HEADER_VERSION_V1,
        last_entry: m.last_entry,
        first_entry: m.first_entry,
        stream_headers_offset: SEGMENT_HEADER_SIZE,
        stream_headers_count: m.streams.len() as u64,
    }
}

/// Absolute file position of stream `i`'s payload: header, index array, and
/// the payloads of the streams before it.
pub open spec fn spec_file_offset(m: MemTableModel, i: int) -> int {
    SEGMENT_HEADER_SIZE as int + SEGMENT_STREAM_HEADER_SIZE as int * m.streams.len() + sum_sizes(
        m.streams.take(i),
    )
}

/// The index record a flush writes for stream `i`.
pub open spec fn spec_index_entry(m: MemTableModel, i: int) -> SegmentStreamHeader {
    SegmentStreamHeader {
        version: SEGMENT_STREAM_HEADER_VERSION_V1,
        stream_id: m.streams[i].stream_id,
        offset: m.streams[i].offset,
        file_offset: spec_file_offset(m, i) as u64,
        size: m.streams[i].size,
        crc_check_sum: 0,
    }
}

/// The first `k` index records, concatenated.
pub open spec fn spec_index_region(m: MemTableModel, k: int) -> Seq<u8>
    decreases k,
{
    if k <= 0 {
        Seq::empty()
    } else {
        spec_index_region(m, k - 1) + spec_stream_header_bytes(spec_index_entry(m, k - 1))
    }
}

/// The payloads of the first `k` streams, concatenated in index order.
pub open spec fn spec_payload_region(m: MemTableModel, k: int) -> Seq<u8>
    decreases k,
{
    if k <= 0 {
        Seq::empty()
    } else {
        spec_payload_region(m, k - 1) + m.streams[k - 1].content()
    }
}

/// Total length of the file a flush of `m` produces.
pub open spec fn spec_file_len(m: MemTableModel) -> int {
    SEGMENT_HEADER_SIZE as int + SEGMENT_STREAM_HEADER_SIZE as int * m.streams.len() + sum_sizes(
        m.streams,
    )
}

/// The complete segment image a flush of `m` produces.
pub open spec fn spec_encode(m: MemTableModel) -> Seq<u8> {
    spec_header_bytes(spec_segment_header(m)) + spec_index_region(m, m.streams.len() as int)
        + spec_payload_region(m, m.streams.len() as int)
}

pub proof fn lemma_index_region_len(m: MemTableModel, k: int)
    requires
        0 <= k,
    ensures
        spec_index_region(m, k).len() == SEGMENT_STREAM_HEADER_SIZE as int * k,
    decreases k,
{
    lemma_auto_spec_u64_to_from_le_bytes();
    if k > 0 {
        lemma_index_region_len(m, k - 1);
    }
}

pub proof fn lemma_payload_region_len(m: MemTableModel, k: int)
    requires
        m.wf(),
        0 <= k <= m.streams.len(),
    ensures
        spec_payload_region(m, k).len() == sum_sizes(m.streams.take(k)),
    decreases k,
{
    if k > 0 {
        lemma_payload_region_len(m, k - 1);
        lemma_sum_sizes_take_step(m.streams, k - 1);
        assert(m.streams[k - 1].wf());
    } else {
        assert(m.streams.take(0) =~= Seq::<crate::table::StreamTableModel>::empty());
    }
}

fn push_u64_le(out: &mut Vec<u8>, x: u64)
    ensures
        final(out)@ == old(out)@ + spec_u64_to_le_bytes(x),
{
    let mut b = u64_to_le_bytes(x);
    out.append(&mut b);
}

/// Serializes a write buffer into the byte image of a segment file: fixed
/// header, one index record per stream in ascending stream-id order, then
/// the concatenated stream payloads.
pub fn encode_segment(table: &MemTable) -> (r: Vec<u8>)
    requires
        table@.wf(),
        spec_file_len(table@) <= u64::MAX,
    ensures
        r@ == spec_encode(table@),
        r@.len() == spec_file_len(table@),
{
    let ghost m = table@;
    proof {
        lemma_sum_sizes_nonneg(m.streams);
    }
    let tables = table.get_stream_tables();
    let count: usize = tables.len();
    let mut out: Vec<u8> = Vec::new();
    push_u64_le(&mut out, SEGMENT_HEADER_VERSION_V1);
    push_u64_le(&mut out, table.get_last_entry());
    push_u64_le(&mut out, table.get_first_entry());
    push_u64_le(&mut out, SEGMENT_HEADER_SIZE);
    push_u64_le(&mut out, count as u64);
    proof {
        assert(out@ =~= spec_header_bytes(spec_segment_header(m)));
        assert(m.streams.take(0) =~= Seq::<crate::table::StreamTableModel>::empty());
    }
    let mut cursor: u64 = SEGMENT_HEADER_SIZE + SEGMENT_STREAM_HEADER_SIZE * (count as u64);
    let mut i: usize = 0;
    while i < count
        invariant
            m.wf(),
            spec_file_len(m) <= u64::MAX,
            count == m.streams.len(),
            tables@.len() == m.streams.len(),
            forall|j: int| 0 <= j < tables@.len() ==> (#[trigger] tables@[j])@ == m.streams[j],
            i <= count,
            cursor == spec_file_offset(m, i as int),
            out@ == spec_header_bytes(spec_segment_header(m)) + spec_index_region(m, i as int),
        decreases count - i,
    {
        proof {
            lemma_sum_sizes_take_le(m.streams, i as int);
            lemma_sum_sizes_take_step(m.streams, i as int);
            lemma_sum_sizes_take_le(m.streams, i as int + 1);
        }
        let t = &tables[i];
        push_u64_le(&mut out, SEGMENT_STREAM_HEADER_VERSION_V1);
        push_u64_le(&mut out, t.stream_id);
        push_u64_le(&mut out, t.offset);
        push_u64_le(&mut out, cursor);
        push_u64_le(&mut out, t.size);
        push_u64_le(&mut out, 0);
        proof {
            assert(spec_index_entry(m, i as int).file_offset == cursor);
            assert(spec_stream_header_bytes(spec_index_entry(m, i as int))
                == spec_u64_to_le_bytes(SEGMENT_STREAM_HEADER_VERSION_V1) + spec_u64_to_le_bytes(
                t.stream_id,
            ) + spec_u64_to_le_bytes(t.offset) + spec_u64_to_le_bytes(cursor)
                + spec_u64_to_le_bytes(t.size) + spec_u64_to_le_bytes(0));
            assert(out@ =~= spec_header_bytes(spec_segment_header(m)) + spec_index_region(
                m,
                i as int + 1,
            ));
        }
        cursor = cursor + t.size;
        i = i + 1;
    }
    let ghost mid = out@;
    proof {
        assert(mid == spec_header_bytes(spec_segment_header(m)) + spec_index_region(
            m,
            count as int,
        ));
        assert(spec_payload_region(m, 0) =~= Seq::<u8>::empty());
        assert(out@ =~= mid + spec_payload_region(m, 0));
    }
    let mut i: usize = 0;
    while i < count
        invariant
            m.wf(),
            count == m.streams.len(),
            tables@.len() == m.streams.len(),
            forall|j: int| 0 <= j < tables@.len() ==> (#[trigger] tables@[j])@ == m.streams[j],
            i <= count,
            out@ == mid + spec_payload_region(m, i as int),
        decreases count - i,
    {
        let content = tables[i].content_bytes();
        append_slice(&mut out, content.as_slice());
        proof {
            assert(out@ =~= mid + spec_payload_region(m, i as int + 1));
        }
        i = i + 1;
    }
    proof {
        assert(out@ == spec_encode(m));
        lemma_index_region_len(m, count as int);
        lemma_payload_region_len(m, count as int);
        assert(m.streams.take(count as int) =~= m.streams);
        lemma_auto_spec_u64_to_from_le_bytes();
    }
    out
}

// ---------------------------------------------------------------------------
// Reading a segment image back.
// ---------------------------------------------------------------------------
/// The `u64` stored little-endian at byte position `pos`.
pub open spec fn spec_u64_at(b: Seq<u8>, pos: int) -> u64 {
    spec_u64_from_le_bytes(b.subrange(pos, pos + 8))
}

/// The header as decoded from the first bytes of the image.
pub open spec fn spec_header_of(b: Seq<u8>) -> SegmentHeader {
    SegmentHeader {
        version: spec_u64_at(b, 0),
        last_entry: spec_u64_at(b, 8),
        first_entry: spec_u64_at(b, 16),
        stream_headers_offset: spec_u64_at(b, 24),
        stream_headers_count: spec_u64_at(b, 32),
    }
}

pub open spec fn spec_entry_count(b: Seq<u8>) -> int {
    spec_header_of(b).stream_headers_count as int
}

/// Index record `i` as decoded from the image.
pub open spec fn spec_entry_at(b: Seq<u8>, i: int) -> SegmentStreamHeader {
    let base: int = SEGMENT_HEADER_SIZE as int + SEGMENT_STREAM_HEADER_SIZE as int * i;
    SegmentStreamHeader {
        version: spec_u64_at(b, base),
        stream_id: spec_u64_at(b, base + 8),
        offset: spec_u64_at(b, base + 16),
        file_offset: spec_u64_at(b, base + 24),
        size: spec_u64_at(b, base + 32),
        crc_check_sum: spec_u64_at(b, base + 40),
    }
}

/// A well-formed segment image: the header is sane, the whole index array
/// is in bounds, every payload range is in bounds, and the index is sorted
/// strictly ascending by stream id. Readers rely on this; a corrupted
/// header must never be used to compute an out-of-bounds slice.
pub open spec fn segment_wf(b: Seq<u8>) -> bool {
    let h = spec_header_of(b);
    &&& b.len() >= SEGMENT_HEADER_SIZE
    &&& h.version == SEGMENT_HEADER_VERSION_V1
    &&& h.stream_headers_offset == SEGMENT_HEADER_SIZE
    &&& SEGMENT_HEADER_SIZE as int + SEGMENT_STREAM_HEADER_SIZE as int * (
    h.stream_headers_count as int) <= b.len()
    &&& forall|i: int|
        0 <= i < h.stream_headers_count as int ==> (#[trigger] spec_entry_at(b, i)).file_offset
            + spec_entry_at(b, i).size <= b.len()
    &&& forall|i: int, j: int|
        0 <= i < j < h.stream_headers_count as int ==> spec_entry_at(b, i).stream_id
            < spec_entry_at(b, j).stream_id
}

pub open spec fn spec_has_entry(b: Seq<u8>, id: u64) -> bool {
    exists|i: int|
        0 <= i < spec_entry_count(b) && (#[trigger] spec_entry_at(b, i)).stream_id == id
}

pub open spec fn spec_entry_index(b: Seq<u8>, id: u64) -> int {
    choose|i: int|
        0 <= i < spec_entry_count(b) && (#[trigger] spec_entry_at(b, i)).stream_id == id
}

/// The index record for stream `id`, if the index holds one.
pub open spec fn spec_find_entry(b: Seq<u8>, id: u64) -> Option<SegmentStreamHeader> {
    if spec_has_entry(b, id) {
        Some(spec_entry_at(b, spec_entry_index(b, id)))
    } else {
        None
    }
}

/// The payload bytes stored for stream `id`, if the index holds it.
pub open spec fn spec_stream_data(b: Seq<u8>, id: u64) -> Option<Seq<u8>> {
    match spec_find_entry(b, id) {
        Some(e) => Some(b.subrange(e.file_offset as int, e.file_offset + e.size)),
        None => None,
    }
}

// ---------------------------------------------------------------------------
// Decoding an encoded image gives back what was written.
// ---------------------------------------------------------------------------
pub proof fn lemma_index_region_index(m: MemTableModel, i: int, k: int)
    requires
        0 <= i < k,
    ensures
        spec_index_region(m, k).subrange(
            SEGMENT_STREAM_HEADER_SIZE as int * i,
            SEGMENT_STREAM_HEADER_SIZE as int * (i + 1),
        ) == spec_stream_header_bytes(spec_index_entry(m, i)),
    decreases k,
{
    lemma_auto_spec_u64_to_from_le_bytes();
    lemma_index_region_len(m, k - 1);
    if i == k - 1 {
        assert(spec_index_region(m, k).subrange(
            SEGMENT_STREAM_HEADER_SIZE as int * i,
            SEGMENT_STREAM_HEADER_SIZE as int * (i + 1),
        ) =~= spec_stream_header_bytes(spec_index_entry(m, i)));
    } else {
        lemma_index_region_index(m, i, k - 1);
        assert(spec_index_region(m, k).subrange(
            SEGMENT_STREAM_HEADER_SIZE as int * i,
            SEGMENT_STREAM_HEADER_SIZE as int * (i + 1),
        ) =~= spec_index_region(m, k - 1).subrange(
            SEGMENT_STREAM_HEADER_SIZE as int * i,
            SEGMENT_STREAM_HEADER_SIZE as int * (i + 1),
        ));
    }
}

pub proof fn lemma_payload_region_index(m: MemTableModel, i: int, k: int)
    requires
        m.wf(),
        0 <= i < k <= m.streams.len(),
    ensures
        spec_payload_region(m, k).subrange(
            sum_sizes(m.streams.take(i)),
            sum_sizes(m.streams.take(i)) + m.streams[i].size,
        ) == m.streams[i].content(),
    decreases k,
{
    lemma_payload_region_len(m, k - 1);
    lemma_sum_sizes_nonneg(m.streams.take(i));
    lemma_sum_sizes_take_step(m.streams, i);
    lemma_sum_sizes_take_mono(m.streams, 0, i);
    assert(m.streams[i].wf());
    if i == k - 1 {
        assert(spec_payload_region(m, k).subrange(
            sum_sizes(m.streams.take(i)),
            sum_sizes(m.streams.take(i)) + m.streams[i].size,
        ) =~= m.streams[i].content());
    } else {
        lemma_payload_region_index(m, i, k - 1);
        lemma_sum_sizes_take_mono(m.streams, i + 1, k - 1);
        assert(spec_payload_region(m, k).subrange(
            sum_sizes(m.streams.take(i)),
            sum_sizes(m.streams.take(i)) + m.streams[i].size,
        ) =~= spec_payload_region(m, k - 1).subrange(
            sum_sizes(m.streams.take(i)),
            sum_sizes(m.streams.take(i)) + m.streams[i].size,
        ));
    }
}

pub proof fn lemma_header_bytes_decode(b: Seq<u8>, h: SegmentHeader, rest: Seq<u8>)
    requires
        b == spec_header_bytes(h) + rest,
    ensures
        spec_header_of(b) == h,
{
    lemma_auto_spec_u64_to_from_le_bytes();
    assert(b.subrange(0, 8) =~= spec_u64_to_le_bytes(h.version));
    assert(b.subrange(8, 16) =~= spec_u64_to_le_bytes(h.last_entry));
    assert(b.subrange(16, 24) =~= spec_u64_to_le_bytes(h.first_entry));
    assert(b.subrange(24, 32) =~= spec_u64_to_le_bytes(h.stream_headers_offset));
    assert(b.subrange(32, 40) =~= spec_u64_to_le_bytes(h.stream_headers_count));
}

pub proof fn lemma_stream_header_bytes_decode(b: Seq<u8>, base: int, h: SegmentStreamHeader)
    requires
        0 <= base,
        base + 48 <= b.len(),
        b.subrange(base, base + 48) == spec_stream_header_bytes(h),
    ensures
        spec_u64_at(b, base) == h.version,
        spec_u64_at(b, base + 8) == h.stream_id,
        spec_u64_at(b, base + 16) == h.offset,
        spec_u64_at(b, base + 24) == h.file_offset,
        spec_u64_at(b, base + 32) == h.size,
        spec_u64_at(b, base + 40) == h.crc_check_sum,
{
    lemma_auto_spec_u64_to_from_le_bytes();
    let sub = b.subrange(base, base + 48);
    assert(b.subrange(base, base + 8) =~= sub.subrange(0, 8));
    assert(sub.subrange(0, 8) =~= spec_u64_to_le_bytes(h.version));
    assert(b.subrange(base + 8, base + 16) =~= sub.subrange(8, 16));
    assert(sub.subrange(8, 16) =~= spec_u64_to_le_bytes(h.stream_id));
    assert(b.subrange(base + 16, base + 24) =~= sub.subrange(16, 24));
    assert(sub.subrange(16, 24) =~= spec_u64_to_le_bytes(h.offset));
    assert(b.subrange(base + 24, base + 32) =~= sub.subrange(24, 32));
    assert(sub.subrange(24, 32) =~= spec_u64_to_le_bytes(h.file_offset));
    assert(b.subrange(base + 32, base + 40) =~= sub.subrange(32, 40));
    assert(sub.subrange(32, 40) =~= spec_u64_to_le_bytes(h.size));
    assert(b.subrange(base + 40, base + 48) =~= sub.subrange(40, 48));
    assert(sub.subrange(40, 48) =~= spec_u64_to_le_bytes(h.crc_check_sum));
}

/// Decoding the header of an encoded image gives back the buffer's header.
pub proof fn lemma_encode_header(m: MemTableModel)
    requires
        m.wf(),
        spec_file_len(m) <= u64::MAX,
    ensures
        spec_encode(m).len() == spec_file_len(m),
        spec_header_of(spec_encode(m)) == spec_segment_header(m),
        spec_entry_count(spec_encode(m)) == m.streams.len(),
{
    let b = spec_encode(m);
    let n = m.streams.len() as int;
    lemma_auto_spec_u64_to_from_le_bytes();
    lemma_index_region_len(m, n);
    lemma_payload_region_len(m, n);
    assert(m.streams.take(n) =~= m.streams);
    assert(b =~= spec_header_bytes(spec_segment_header(m)) + (spec_index_region(m, n)
        + spec_payload_region(m, n)));
    lemma_header_bytes_decode(
        b,
        spec_segment_header(m),
        spec_index_region(m, n) + spec_payload_region(m, n),
    );
    lemma_sum_sizes_nonneg(m.streams);
    assert(SEGMENT_STREAM_HEADER_SIZE as int * n >= n) by (nonlinear_arith)
        requires
            n >= 0,
    ;
    assert((n as u64) as int == n);
}

/// Decoding index record `i` of an encoded image gives back the record the
/// flush computed for stream `i`.
pub proof fn lemma_encode_entry(m: MemTableModel, i: int)
    requires
        m.wf(),
        spec_file_len(m) <= u64::MAX,
        0 <= i < m.streams.len(),
    ensures
        spec_entry_at(spec_encode(m), i) == spec_index_entry(m, i),
{
    let b = spec_encode(m);
    let n = m.streams.len() as int;
    let base: int = SEGMENT_HEADER_SIZE as int + SEGMENT_STREAM_HEADER_SIZE as int * i;
    lemma_auto_spec_u64_to_from_le_bytes();
    lemma_index_region_len(m, n);
    lemma_payload_region_len(m, n);
    lemma_sum_sizes_nonneg(m.streams);
    lemma_index_region_index(m, i, n);
    assert(SEGMENT_STREAM_HEADER_SIZE as int * (i + 1) <= SEGMENT_STREAM_HEADER_SIZE as int * n)
        by (nonlinear_arith)
        requires
            i + 1 <= n,
    ;
    assert(b.subrange(base, base + 48) =~= spec_index_region(m, n).subrange(
        SEGMENT_STREAM_HEADER_SIZE as int * i,
        SEGMENT_STREAM_HEADER_SIZE as int * (i + 1),
    ));
    lemma_stream_header_bytes_decode(b, base, spec_index_entry(m, i));
}

/// The payload bytes of stream `i` sit exactly at the file offset its index
/// record names.
pub proof fn lemma_encode_payload(m: MemTableModel, i: int)
    requires
        m.wf(),
        spec_file_len(m) <= u64::MAX,
        0 <= i < m.streams.len(),
    ensures
        0 <= spec_file_offset(m, i),
        spec_file_offset(m, i) + m.streams[i].size <= spec_file_len(m),
        spec_encode(m).subrange(spec_file_offset(m, i), spec_file_offset(m, i) + m.streams[i].size)
            == m.streams[i].content(),
{
    let b = spec_encode(m);
    let n = m.streams.len() as int;
    lemma_auto_spec_u64_to_from_le_bytes();
    lemma_index_region_len(m, n);
    lemma_payload_region_len(m, n);
    lemma_sum_sizes_nonneg(m.streams.take(i));
    lemma_sum_sizes_take_step(m.streams, i);
    lemma_sum_sizes_take_le(m.streams, i + 1);
    assert(m.streams.take(n) =~= m.streams);
    lemma_payload_region_index(m, i, n);
    assert(b.subrange(spec_file_offset(m, i), spec_file_offset(m, i) + m.streams[i].size)
        =~= spec_payload_region(m, n).subrange(
        sum_sizes(m.streams.take(i)),
        sum_sizes(m.streams.take(i)) + m.streams[i].size,
    ));
}

/// An encoded image is well formed: readers may rely on its bounds and on
/// the sortedness of its index.
pub proof fn lemma_encode_wf(m: MemTableModel)
    requires
        m.wf(),
        spec_file_len(m) <= u64::MAX,
    ensures
        segment_wf(spec_encode(m)),
{
    let b = spec_encode(m);
    let n = m.streams.len() as int;
    lemma_encode_header(m);
    lemma_sum_sizes_nonneg(m.streams);
    assert forall|i: int| 0 <= i < n implies (#[trigger] spec_entry_at(b, i)).file_offset
        + spec_entry_at(b, i).size <= b.len() by {
        lemma_encode_entry(m, i);
        lemma_encode_payload(m, i);
    }
    assert forall|i: int, j: int| 0 <= i < j < n implies spec_entry_at(b, i).stream_id
        < spec_entry_at(b, j).stream_id by {
        lemma_encode_entry(m, i);
        lemma_encode_entry(m, j);
    }
}

/// Layout of a flushed segment: every index record carries its stream's
/// logical offset and size unchanged, the first payload sits right after
/// the header and index array, and each later payload starts where the
/// previous one ends — no gaps.
pub proof fn lemma_segment_layout(m: MemTableModel, i: int)
    requires
        m.wf(),
        spec_file_len(m) <= u64::MAX,
        0 <= i < m.streams.len(),
    ensures
        spec_index_entry(m, i).stream_id == m.streams[i].stream_id,
        spec_index_entry(m, i).offset == m.streams[i].offset,
        spec_index_entry(m, i).size == m.streams[i].size,
        i == 0 ==> spec_index_entry(m, i).file_offset == SEGMENT_HEADER_SIZE as int
            + SEGMENT_STREAM_HEADER_SIZE as int * m.streams.len(),
        i > 0 ==> spec_index_entry(m, i).file_offset == spec_index_entry(m, i - 1).file_offset
            + m.streams[i - 1].size,
{
    lemma_sum_sizes_nonneg(m.streams.take(i));
    lemma_sum_sizes_take_le(m.streams, i);
    lemma_sum_sizes_take_le(m.streams, i + 1);
    lemma_sum_sizes_take_step(m.streams, i);
    if i == 0 {
        assert(m.streams.take(0) =~= Seq::<crate::table::StreamTableModel>::empty());
    } else {
        lemma_sum_sizes_nonneg(m.streams.take(i - 1));
        lemma_sum_sizes_take_le(m.streams, i - 1);
        lemma_sum_sizes_take_step(m.streams, i - 1);
    }
}

/// Round trip through the on-disk format: flushing a buffer and reading the
/// image back yields, for every stream the buffer holds, exactly the bytes
/// that were appended for it, and nothing for any other id.
pub proof fn lemma_segment_round_trip(m: MemTableModel, stream_id: u64)
    requires
        m.wf(),
        spec_file_len(m) <= u64::MAX,
    ensures
        segment_wf(spec_encode(m)),
        spec_header_of(spec_encode(m)).first_entry == m.first_entry,
        spec_header_of(spec_encode(m)).last_entry == m.last_entry,
        m.has_stream(stream_id) ==> spec_stream_data(spec_encode(m), stream_id) == Some(
            m.stream(stream_id).content(),
        ),
        !m.has_stream(stream_id) ==> spec_stream_data(spec_encode(m), stream_id) == None::<
            Seq<u8>,
        >,
{
    let b = spec_encode(m);
    let n = m.streams.len() as int;
    lemma_encode_header(m);
    lemma_encode_wf(m);
    if m.has_stream(stream_id) {
        let i = m.stream_index(stream_id);
        assert(0 <= i < n && m.streams[i].stream_id == stream_id);
        lemma_encode_entry(m, i);
        lemma_encode_payload(m, i);
        assert(spec_entry_at(b, i).stream_id == stream_id);
        lemma_entry_index_is(b, i);
        assert(spec_find_entry(b, stream_id) == Some(spec_entry_at(b, i)));
        lemma_sum_sizes_nonneg(m.streams.take(i));
        assert(spec_entry_at(b, i).file_offset as int == spec_file_offset(m, i));
        assert(b.subrange(
            spec_entry_at(b, i).file_offset as int,
            spec_entry_at(b, i).file_offset + spec_entry_at(b, i).size,
        ) == m.streams[i].content());
    } else {
        if spec_has_entry(b, stream_id) {
            let j = spec_entry_index(b, stream_id);
            assert(0 <= j < n && spec_entry_at(b, j).stream_id == stream_id);
            lemma_encode_entry(m, j);
            assert(m.streams[j].stream_id == stream_id);
        }
    }
}

/// In a sorted index an id occurs at most once, so the witness behind
/// `spec_entry_index` is the index the id is seen at.
pub proof fn lemma_entry_index_is(b: Seq<u8>, i: int)
    requires
        segment_wf(b),
        0 <= i < spec_entry_count(b),
    ensures
        spec_has_entry(b, spec_entry_at(b, i).stream_id),
        spec_entry_index(b, spec_entry_at(b, i).stream_id) == i,
{
    let id = spec_entry_at(b, i).stream_id;
    assert(spec_has_entry(b, id));
    let j = spec_entry_index(b, id);
    assert(0 <= j < spec_entry_count(b) && spec_entry_at(b, j).stream_id == id);
    if i < j {
        assert(spec_entry_at(b, i).stream_id < spec_entry_at(b, j).stream_id);
    } else if j < i {
        assert(spec_entry_at(b, j).stream_id < spec_entry_at(b, i).stream_id);
    }
}

/// Reads the little-endian `u64` at byte position `pos`.
fn read_u64_at(b: &[u8], pos: usize) -> (x: u64)
    requires
        pos + 8 <= b@.len(),
    ensures
        x == spec_u64_at(b@, pos as int),
{
    let n: usize = b.len();
    proof {
        assert(n == b@.len());
    }
    let s = vstd::slice::slice_subrange(b, pos, pos + 8);
    u64_from_le_bytes(s)
}

#[verifier::external_type_specification]
#[verifier::external_body]
pub struct ExMmap(memmap2::Mmap);

/// The bytes a read-only memory mapping holds.
pub uninterp spec fn mmap_view(m: memmap2::Mmap) -> Seq<u8>;

/// Relies on memmap2::Mmap's `Deref<Target = [u8]>`: a read-only mapping
/// reads as the mapped bytes. The segment file is never modified after the
/// atomic rename that publishes it, so the bytes behind one mapping are
/// stable.
#[verifier::external_body]
fn mmap_bytes<'a>(m: &'a memmap2::Mmap) -> (r: &'a [u8])
    ensures
        r@ == mmap_view(*m),
{
    &m[..]
}

/// A read-only view of one on-disk segment: the memory-mapped file and its
/// published name. Immutable after open; any number of readers may hold it
/// concurrently.
pub struct Segment {
    pub file_name: String,
    data: memmap2::Mmap,
}

impl View for Segment {
    type V = Seq<u8>;

    closed spec fn view(&self) -> Seq<u8> {
        mmap_view(self.data)
    }
}

impl Segment {
    /// A well-formed segment: the mapped bytes form a sane image.
    pub open spec fn wf(self) -> bool {
        segment_wf(self@)
    }

    /// The path this segment was published under, as a character sequence.
    pub closed spec fn spec_file_name(self) -> Seq<char> {
        self.file_name@
    }

    /// Wraps an already-established read-only mapping of a segment file.
    pub fn new(file_name: String, data: memmap2::Mmap) -> (s: Segment)
        ensures
            s@ == mmap_view(data),
            s.spec_file_name() == file_name@,
    {
        Segment { file_name, data }
    }

    /// The path this segment was published under.
    pub fn file_name(&self) -> (r: &String)
        ensures
            r@ == self.spec_file_name(),
    {
        &self.file_name
    }

    /// Checks the whole image, so that the bounds-relying readers may be
    /// used: header sanity, index array and payload ranges in bounds, index
    /// sorted strictly ascending by stream id.
    pub fn is_well_formed(&self) -> (r: bool)
        ensures
            r == self.wf(),
    {
        let b = mmap_bytes(&self.data);
        let len: usize = b.len();
        if len < SEGMENT_HEADER_SIZE as usize {
            return false;
        }
        let version: u64 = read_u64_at(b, 0);
        let sho: u64 = read_u64_at(b, 24);
        let count: u64 = read_u64_at(b, 32);
        if version != SEGMENT_HEADER_VERSION_V1 || sho != SEGMENT_HEADER_SIZE {
            return false;
        }
        let len64: u64 = len as u64;
        if count > (len64 - SEGMENT_HEADER_SIZE) / SEGMENT_STREAM_HEADER_SIZE {
            proof {
                assert(SEGMENT_HEADER_SIZE as int + SEGMENT_STREAM_HEADER_SIZE as int * (
                count as int) > len64 as int) by (nonlinear_arith)
                    requires
                        len64 >= SEGMENT_HEADER_SIZE,
                        count as int > (len64 as int - SEGMENT_HEADER_SIZE as int) / (
                        SEGMENT_STREAM_HEADER_SIZE as int),
                ;
            }
            return false;
        }
        proof {
            assert(SEGMENT_HEADER_SIZE as int + SEGMENT_STREAM_HEADER_SIZE as int * (count as int)
                <= len64 as int) by (nonlinear_arith)
                requires
                    len64 >= SEGMENT_HEADER_SIZE,
                    count as int <= (len64 as int - SEGMENT_HEADER_SIZE as int) / (
                    SEGMENT_STREAM_HEADER_SIZE as int),
            ;
            assert(count as int <= SEGMENT_STREAM_HEADER_SIZE as int * (count as int))
                by (nonlinear_arith);
        }
        let count_us: usize = count as usize;
        let mut i: usize = 0;
        let mut prev_id: u64 = 0;
        while i < count_us
            invariant
                b@ == self@,
                b@.len() == len,
                len64 == len,
                count_us == count,
                spec_header_of(b@).version == SEGMENT_HEADER_VERSION_V1,
                spec_header_of(b@).stream_headers_offset == SEGMENT_HEADER_SIZE,
                spec_header_of(b@).stream_headers_count == count,
                len >= SEGMENT_HEADER_SIZE,
                SEGMENT_HEADER_SIZE as int + SEGMENT_STREAM_HEADER_SIZE as int * (count as int)
                    <= len,
                i <= count_us,
                forall|k: int|
                    0 <= k < i ==> (#[trigger] spec_entry_at(b@, k)).file_offset + spec_entry_at(
                        b@,
                        k,
                    ).size <= len,
                forall|k1: int, k2: int|
                    0 <= k1 < k2 < i ==> spec_entry_at(b@, k1).stream_id < spec_entry_at(
                        b@,
                        k2,
                    ).stream_id,
                i > 0 ==> prev_id == spec_entry_at(b@, i as int - 1).stream_id,
            decreases count_us - i,
        {
            proof {
                assert(SEGMENT_STREAM_HEADER_SIZE as int * (i as int + 1)
                    <= SEGMENT_STREAM_HEADER_SIZE as int * (count as int)) by (nonlinear_arith)
                    requires
                        i as int + 1 <= count as int,
                ;
                assert(SEGMENT_HEADER_SIZE as int + SEGMENT_STREAM_HEADER_SIZE as int * (i as int)
                    + SEGMENT_STREAM_HEADER_SIZE as int <= len as int);
            }
            let base: usize = SEGMENT_HEADER_SIZE as usize + SEGMENT_STREAM_HEADER_SIZE as usize
                * i;
            let id: u64 = read_u64_at(b, base + 8);
            let fo: u64 = read_u64_at(b, base + 24);
            let sz: u64 = read_u64_at(b, base + 32);
            proof {
                assert(spec_entry_at(b@, i as int).stream_id == id);
                assert(spec_entry_at(b@, i as int).file_offset == fo);
                assert(spec_entry_at(b@, i as int).size == sz);
            }
            if fo > len64 || sz > len64 - fo {
                proof {
                    assert(spec_entry_at(b@, i as int).file_offset + spec_entry_at(
                        b@,
                        i as int,
                    ).size > b@.len());
                    assert(!segment_wf(b@));
                }
                return false;
            }
            if i > 0 && id <= prev_id {
                proof {
                    assert(spec_entry_at(b@, i as int - 1).stream_id >= spec_entry_at(
                        b@,
                        i as int,
                    ).stream_id);
                    assert(!segment_wf(b@));
                }
                return false;
            }
            proof {
                assert forall|k1: int, k2: int| 0 <= k1 < k2 < i as int + 1 implies spec_entry_at(
                    b@,
                    k1,
                ).stream_id < spec_entry_at(b@, k2, ).stream_id by {
                    if k2 == i as int && k1 < i as int - 1 {
                        assert(spec_entry_at(b@, k1).stream_id < spec_entry_at(
                            b@,
                            i as int - 1,
                        ).stream_id);
                    }
                }
            }
            prev_id = id;
            i = i + 1;
        }
        true
    }

    /// The header parsed from the start of the image.
    pub fn read_header(&self) -> (h: SegmentHeader)
        requires
            self.wf(),
        ensures
            h == spec_header_of(self@),
    {
        let b = mmap_bytes(&self.data);
        SegmentHeader {
            version: read_u64_at(b, 0),
            last_entry: read_u64_at(b, 8),
            first_entry: read_u64_at(b, 16),
            stream_headers_offset: read_u64_at(b, 24),
            stream_headers_count: read_u64_at(b, 32),
        }
    }

    /// The ids of the first and last entry that went into this segment.
    pub fn entry_index(&self) -> (r: (u64, u64))
        requires
            self.wf(),
        ensures
            r.0 == spec_header_of(self@).first_entry,
            r.1 == spec_header_of(self@).last_entry,
    {
        let header = self.read_header();
        (header.first_entry, header.last_entry)
    }

    /// Index record `i`, parsed from the image.
    fn read_entry(b: &[u8], i: usize) -> (h: SegmentStreamHeader)
        requires
            segment_wf(b@),
            (i as int) < spec_entry_count(b@),
        ensures
            h == spec_entry_at(b@, i as int),
    {
        let n: usize = b.len();
        proof {
            assert(n == b@.len());
            assert(SEGMENT_STREAM_HEADER_SIZE as int * (i as int + 1)
                <= SEGMENT_STREAM_HEADER_SIZE as int * spec_entry_count(b@)) by (nonlinear_arith)
                requires
                    i as int + 1 <= spec_entry_count(b@),
            ;
            assert(SEGMENT_HEADER_SIZE as int + SEGMENT_STREAM_HEADER_SIZE as int * (i as int)
                + SEGMENT_STREAM_HEADER_SIZE as int <= n as int);
        }
        let base: usize = SEGMENT_HEADER_SIZE as usize + SEGMENT_STREAM_HEADER_SIZE as usize * i;
        SegmentStreamHeader {
            version: read_u64_at(b, base),
            stream_id: read_u64_at(b, base + 8),
            offset: read_u64_at(b, base + 16),
            file_offset: read_u64_at(b, base + 24),
            size: read_u64_at(b, base + 32),
            crc_check_sum: read_u64_at(b, base + 40),
        }
    }

    /// Binary search of the sorted index for `stream_id`: the matching
    /// record, or nothing when the segment holds no such stream.
    pub fn find_stream_header(&self, stream_id: u64) -> (r: Option<SegmentStreamHeader>)
        requires
            self.wf(),
        ensures
            r == spec_find_entry(self@, stream_id),
    {
        let b = mmap_bytes(&self.data);
        let n: usize = b.len();
        let count64: u64 = read_u64_at(b, 32);
        proof {
            assert(n == b@.len());
            assert(count64 as int <= SEGMENT_STREAM_HEADER_SIZE as int * (count64 as int))
                by (nonlinear_arith);
        }
        let count: usize = count64 as usize;
        let mut lo: usize = 0;
        let mut hi: usize = count;
        while lo < hi
            invariant
                b@ == self@,
                segment_wf(b@),
                n == b@.len(),
                count == spec_entry_count(b@),
                lo <= hi <= count,
                forall|j: int| 0 <= j < lo ==> (#[trigger] spec_entry_at(b@, j)).stream_id < stream_id,
                forall|j: int|
                    hi <= j < count ==> (#[trigger] spec_entry_at(b@, j)).stream_id > stream_id,
            decreases hi - lo,
        {
            let mid: usize = lo + (hi - lo) / 2;
            proof {
                assert(SEGMENT_STREAM_HEADER_SIZE as int * (mid as int + 1)
                    <= SEGMENT_STREAM_HEADER_SIZE as int * (count as int)) by (nonlinear_arith)
                    requires
                        mid as int + 1 <= count as int,
                ;
                assert(SEGMENT_HEADER_SIZE as int + SEGMENT_STREAM_HEADER_SIZE as int * (
                mid as int) + SEGMENT_STREAM_HEADER_SIZE as int <= n as int);
            }
            let base: usize = SEGMENT_HEADER_SIZE as usize + SEGMENT_STREAM_HEADER_SIZE as usize
                * mid;
            let id: u64 = read_u64_at(b, base + 8);
            if id < stream_id {
                proof {
                    assert forall|j: int| 0 <= j < mid as int + 1 implies (#[trigger] spec_entry_at(
                        b@,
                        j,
                    )).stream_id < stream_id by {
                        if j < mid as int {
                            assert(spec_entry_at(b@, j).stream_id < spec_entry_at(
                                b@,
                                mid as int,
                            ).stream_id);
                        }
                    }
                }
                lo = mid + 1;
            } else if id > stream_id {
                proof {
                    assert forall|j: int| mid as int <= j < count implies (#[trigger] spec_entry_at(
                        b@,
                        j,
                    )).stream_id > stream_id by {
                        if j > mid as int {
                            assert(spec_entry_at(b@, mid as int).stream_id < spec_entry_at(
                                b@,
                                j,
                            ).stream_id);
                        }
                    }
                }
                hi = mid;
            } else {
                let e = Self::read_entry(b, mid);
                proof {
                    lemma_entry_index_is(b@, mid as int);
                }
                return Some(e);
            }
        }
        proof {
            assert(!spec_has_entry(b@, stream_id)) by {
                if spec_has_entry(b@, stream_id) {
                    let j = choose|j: int|
                        0 <= j < spec_entry_count(b@) && (#[trigger] spec_entry_at(
                            b@,
                            j,
                        )).stream_id == stream_id;
                    assert(spec_entry_at(b@, j).stream_id == stream_id);
                }
            }
        }
        None
    }

    /// The byte range `[file_offset, file_offset + size)` that stream
    /// `stream_id`'s payload occupies within the file, if present.
    pub fn get_stream_range(&self, stream_id: u64) -> (r: Option<(u64, u64)>)
        requires
            self.wf(),
        ensures
            r == match spec_find_entry(self@, stream_id) {
                Some(e) => Some((e.file_offset, (e.file_offset + e.size) as u64)),
                None => None::<(u64, u64)>,
            },
    {
        match self.find_stream_header(stream_id) {
            Some(e) => {
                let b = mmap_bytes(&self.data);
                let n: usize = b.len();
                proof {
                    assert(n == b@.len());
                    let idx = spec_entry_index(self@, stream_id);
                    assert(spec_entry_at(self@, idx).file_offset + spec_entry_at(self@, idx).size
                        <= self@.len());
                }
                Some((e.file_offset, e.file_offset + e.size))
            },
            None => None,
        }
    }

    /// Zero-copy view of stream `stream_id`'s payload bytes, if present.
    pub fn stream_data<'a>(&'a self, stream_id: u64) -> (r: Option<&'a [u8]>)
        requires
            self.wf(),
        ensures
            match r {
                Some(d) => spec_stream_data(self@, stream_id) == Some(d@),
                None => spec_stream_data(self@, stream_id) == None::<Seq<u8>>,
            },
    {
        match self.find_stream_header(stream_id) {
            Some(e) => {
                let b = mmap_bytes(&self.data);
                let n: usize = b.len();
                proof {
                    assert(n == b@.len());
                    let idx = spec_entry_index(self@, stream_id);
                    assert(spec_entry_at(self@, idx).file_offset + spec_entry_at(self@, idx).size
                        <= self@.len());
                }
                Some(
                    vstd::slice::slice_subrange(
                        b,
                        e.file_offset as usize,
                        (e.file_offset + e.size) as usize,
                    ),
                )
            },
            None => None,
        }
    }
}

} // verus!

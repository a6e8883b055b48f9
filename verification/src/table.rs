use vstd::prelude::*;

use crate::error::Error;

verus! {

/// Concatenation of a sequence of byte chunks, in order.
pub open spec fn concat_chunks(cs: Seq<Seq<u8>>) -> Seq<u8>
    decreases cs.len(),
{
    if cs.len() == 0 {
        Seq::empty()
    } else {
        concat_chunks(cs.drop_last()) + cs.last()
    }
}

pub proof fn lemma_concat_chunks_take_step(cs: Seq<Seq<u8>>, k: int)
    requires
        0 <= k < cs.len(),
    ensures
        concat_chunks(cs.take(k + 1)) == concat_chunks(cs.take(k)) + cs[k],
{
    assert(cs.take(k + 1).drop_last() =~= cs.take(k));
    assert(cs.take(k + 1).last() == cs[k]);
}

pub proof fn lemma_concat_chunks_take_all(cs: Seq<Seq<u8>>)
    ensures
        concat_chunks(cs.take(cs.len() as int)) == concat_chunks(cs),
{
    assert(cs.take(cs.len() as int) =~= cs);
}

/// Mathematical model of a [`StreamTable`]: the chunk sequence as it was
/// appended, plus the bookkeeping fields.
pub struct StreamTableModel {
    pub stream_id: u64,
    pub offset: u64,
    pub size: u64,
    pub chunks: Seq<Seq<u8>>,
}

impl StreamTableModel {
    /// All buffered bytes of the stream: the chunks concatenated in append
    /// order.
    pub open spec fn content(self) -> Seq<u8> {
        concat_chunks(self.chunks)
    }

    /// `size` mirrors the content length, and the logical range
    /// `[offset, offset + size)` fits in a `u64`.
    pub open spec fn wf(self) -> bool {
        &&& self.size == self.content().len()
        &&& self.offset + self.size <= u64::MAX
    }

    /// The logical byte range this table covers within its stream's history,
    /// or nothing while the table holds no data.
    pub open spec fn spec_range(self) -> Option<(u64, u64)> {
        if self.size == 0 {
            None
        } else {
            Some((self.offset, (self.offset + self.size) as u64))
        }
    }

    /// What a read of `[offset, offset + size)` within the buffered bytes
    /// returns: the window, or an out-of-range failure.
    pub open spec fn spec_read(self, offset: u64, size: u64) -> Result<Seq<u8>, Error> {
        if offset + size <= self.size {
            Ok(self.content().subrange(offset as int, offset + size))
        } else {
            Err(Error::OutOfRange)
        }
    }
}

/// Per-stream accumulation of appended byte chunks, together with the
/// stream's base offset and running size.
pub struct StreamTable {
    pub stream_id: u64,
    pub offset: u64,
    pub size: u64,
    pub stream_datas: Vec<Vec<u8>>,
}

impl View for StreamTable {
    type V = StreamTableModel;

    open spec fn view(&self) -> StreamTableModel {
        StreamTableModel {
            stream_id: self.stream_id,
            offset: self.offset,
            size: self.size,
            chunks: self.stream_datas.deep_view(),
        }
    }
}

/// Appends every byte of `s` to `out`.
pub fn append_slice(out: &mut Vec<u8>, s: &[u8])
    ensures
        final(out)@ == old(out)@ + s@,
{
    let mut j: usize = 0;
    while j < s.len()
        invariant
            j <= s@.len(),
            out@ == old(out)@ + s@.take(j as int),
        decreases s@.len() - j,
    {
        let b: u8 = *vstd::slice::slice_index_get(s, j);
        out.push(b);
        proof {
            assert(s@.take(j + 1) =~= s@.take(j as int).push(s@[j as int]));
        }
        j = j + 1;
    }
    proof {
        assert(s@.take(s@.len() as int) =~= s@);
    }
}

impl StreamTable {
    /// Creates an empty table for `stream_id` whose data starts at logical
    /// byte `offset` within the stream's history.
    pub fn new(stream_id: u64, offset: u64) -> (t: StreamTable)
        ensures
            t@ == (StreamTableModel { stream_id, offset, size: 0, chunks: Seq::empty() }),
            t@.wf(),
    {
        let t = StreamTable { stream_id, offset, size: 0, stream_datas: Vec::new() };
        proof {
            assert(t@.chunks =~~= Seq::<Seq<u8>>::empty());
        }
        t
    }

    /// Copies `data` into a fresh chunk at the end of the table. Never fails;
    /// the `Result` is reserved for future capacity or validation errors.
    pub fn append(&mut self, data: &[u8]) -> (r: Result<(), Error>)
        requires
            old(self)@.wf(),
            old(self)@.offset + old(self)@.size + data@.len() <= u64::MAX,
        ensures
            r == Ok::<(), Error>(()),
            final(self)@.stream_id == old(self)@.stream_id,
            final(self)@.offset == old(self)@.offset,
            final(self)@.size == old(self)@.size + data@.len(),
            final(self)@.chunks == old(self)@.chunks.push(data@),
            final(self)@.content() == old(self)@.content() + data@,
            final(self)@.wf(),
    {
        let chunk: Vec<u8> = vstd::slice::slice_to_vec(data);
        self.stream_datas.push(chunk);
        self.size = self.size + data.len() as u64;
        proof {
            assert(self.stream_datas.deep_view() =~~= old(self).stream_datas.deep_view().push(
                data@,
            ));
            let cs = self@.chunks;
            assert(cs.drop_last() =~= old(self)@.chunks);
            assert(self@.content() == old(self)@.content() + data@);
        }
        Ok(())
    }

    /// The logical range `(offset, offset + size)` of the buffered data, or
    /// nothing while the table is empty.
    pub fn get_stream_range(&self) -> (r: Option<(u64, u64)>)
        requires
            self@.wf(),
        ensures
            r == self@.spec_range(),
    {
        if self.size == 0 {
            None
        } else {
            Some((self.offset, self.offset + self.size))
        }
    }

    /// All buffered bytes of the stream, concatenated in append order.
    pub fn content_bytes(&self) -> (r: Vec<u8>)
        ensures
            r@ == self@.content(),
    {
        let mut out: Vec<u8> = Vec::new();
        let mut i: usize = 0;
        while i < self.stream_datas.len()
            invariant
                i <= self.stream_datas@.len(),
                out@ == concat_chunks(self@.chunks.take(i as int)),
            decreases self.stream_datas@.len() - i,
        {
            proof {
                lemma_concat_chunks_take_step(self@.chunks, i as int);
            }
            append_slice(&mut out, self.stream_datas[i].as_slice());
            i = i + 1;
        }
        proof {
            lemma_concat_chunks_take_all(self@.chunks);
        }
        out
    }

    /// Returns the byte window `[offset, offset + size)` of the buffered
    /// data, or an out-of-range failure when the window does not fit.
    pub fn read_stream_data(&self, offset: u64, size: u64) -> (r: Result<Vec<u8>, Error>)
        requires
            self@.wf(),
        ensures
            match r {
                Ok(v) => self@.spec_read(offset, size) == Ok::<Seq<u8>, Error>(v@),
                Err(e) => self@.spec_read(offset, size) == Err::<Seq<u8>, Error>(e),
            },
    {
        if offset > self.size || size > self.size - offset {
            return Err(Error::OutOfRange);
        }
        let full: Vec<u8> = self.content_bytes();
        let n: usize = full.len();
        proof {
            assert(n == full@.len());
            assert(full@.len() == self@.size);
            assert(offset + size <= n);
        }
        let s = vstd::slice::slice_subrange(
            full.as_slice(),
            offset as usize,
            (offset + size) as usize,
        );
        Ok(vstd::slice::slice_to_vec(s))
    }
}

/// The table a sequence of appends leaves behind, starting from `t`.
pub open spec fn apply_chunk_appends(t: StreamTableModel, cs: Seq<Seq<u8>>) -> StreamTableModel
    decreases cs.len(),
{
    if cs.len() == 0 {
        t
    } else {
        let prev = apply_chunk_appends(t, cs.drop_last());
        StreamTableModel {
            stream_id: prev.stream_id,
            offset: prev.offset,
            size: (prev.size + cs.last().len()) as u64,
            chunks: prev.chunks.push(cs.last()),
        }
    }
}

/// Round trip through one stream: appending chunks `c1, …, cn` to a fresh
/// table and reading back `[0, size)` yields exactly `c1 ‖ … ‖ cn`.
pub proof fn lemma_stream_round_trip(stream_id: u64, offset: u64, cs: Seq<Seq<u8>>)
    requires
        offset + concat_chunks(cs).len() <= u64::MAX,
    ensures
        ({
            let t = apply_chunk_appends(
                StreamTableModel { stream_id, offset, size: 0, chunks: Seq::empty() },
                cs,
            );
            &&& t.wf()
            &&& t.stream_id == stream_id
            &&& t.offset == offset
            &&& t.chunks == cs
            &&& t.spec_read(0, t.size) == Ok::<Seq<u8>, Error>(concat_chunks(cs))
        }),
    decreases cs.len(),
{
    let t0 = StreamTableModel { stream_id, offset, size: 0, chunks: Seq::empty() };
    let t = apply_chunk_appends(t0, cs);
    if cs.len() == 0 {
        assert(t.chunks =~= cs);
        assert(t.content() =~= concat_chunks(cs));
    } else {
        let head = cs.drop_last();
        assert(concat_chunks(cs) == concat_chunks(head) + cs.last());
        lemma_stream_round_trip(stream_id, offset, head);
        let prev = apply_chunk_appends(t0, head);
        assert(prev.chunks == head);
        assert(t.chunks == head.push(cs.last()));
        assert(t.chunks =~= cs);
        assert(t.chunks.drop_last() =~= head);
        assert(t.content() == concat_chunks(t.chunks.drop_last()) + t.chunks.last());
        assert(t.content() == concat_chunks(head) + cs.last());
        assert(t.size == prev.size + cs.last().len());
    }
    assert(t.content().subrange(0, t.size as int) =~= t.content());
}

} // verus!

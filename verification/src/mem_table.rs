use vstd::prelude::*;

use crate::entry::{Entry, EntryModel};
use crate::error::Error;
use crate::table::{StreamTable, StreamTableModel};

verus! {

/// Resolves the logical starting offset of a stream the first time the
/// stream is appended to within one buffer generation, so offsets stay
/// continuous across generations. Typically backed by the previous segment's
/// tail offset for that stream.
pub trait OffsetResolver {
    /// The outcome this resolver yields for `stream_id`.
    spec fn offset_for(&self, stream_id: u64) -> Result<u64, Error>;

    /// Returns the starting offset for `stream_id`, or an error that the
    /// buffer propagates to the caller unchanged.
    fn resolve_start_offset(&self, stream_id: u64) -> (r: Result<u64, Error>)
        ensures
            r == self.offset_for(stream_id),
    ;
}

/// A resolver that starts every stream at the same offset; `offset` zero
/// models the state with no resolver installed.
pub struct FixedOffsets {
    pub offset: u64,
}

impl OffsetResolver for FixedOffsets {
    open spec fn offset_for(&self, stream_id: u64) -> Result<u64, Error> {
        Ok(self.offset)
    }

    fn resolve_start_offset(&self, stream_id: u64) -> (r: Result<u64, Error>) {
        Ok(self.offset)
    }
}

/// A resolver whose backing lookup always fails, as when the previous
/// segment cannot be consulted; appends of unseen streams then surface the
/// error and leave the buffer untouched.
pub struct FailingOffsets {}

impl OffsetResolver for FailingOffsets {
    open spec fn offset_for(&self, stream_id: u64) -> Result<u64, Error> {
        Err(Error::OffsetResolution)
    }

    fn resolve_start_offset(&self, stream_id: u64) -> (r: Result<u64, Error>) {
        Err(Error::OffsetResolution)
    }
}

/// Mathematical model of a [`MemTable`]: the per-stream tables in ascending
/// stream-id order, plus the three counters.
pub struct MemTableModel {
    pub streams: Seq<StreamTableModel>,
    pub first_entry: u64,
    pub last_entry: u64,
    pub size: u64,
}

/// Sum of the buffered sizes of all tables.
pub open spec fn sum_sizes(ss: Seq<StreamTableModel>) -> int
    decreases ss.len(),
{
    if ss.len() == 0 {
        0
    } else {
        sum_sizes(ss.drop_last()) + ss.last().size
    }
}

/// The tables are in strictly ascending stream-id order (so ids are unique).
pub open spec fn sorted_by_id(ss: Seq<StreamTableModel>) -> bool {
    forall|i: int, j: int|
        0 <= i < j < ss.len() ==> ss[i].stream_id < ss[j].stream_id
}

/// How many tables have a stream id below `id`; for a sorted sequence this
/// is where a table for `id` belongs.
pub open spec fn count_lt(ss: Seq<StreamTableModel>, id: u64) -> int
    decreases ss.len(),
{
    if ss.len() == 0 {
        0
    } else {
        count_lt(ss.drop_last(), id) + if ss.last().stream_id < id {
            1int
        } else {
            0int
        }
    }
}

impl MemTableModel {
    pub open spec fn wf(self) -> bool {
        &&& sorted_by_id(self.streams)
        &&& forall|i: int| 0 <= i < self.streams.len() ==> (#[trigger] self.streams[i]).wf()
        &&& self.size == sum_sizes(self.streams)
    }

    pub open spec fn has_stream(self, id: u64) -> bool {
        exists|i: int| 0 <= i < self.streams.len() && (#[trigger] self.streams[i]).stream_id == id
    }

    pub open spec fn stream_index(self, id: u64) -> int {
        choose|i: int| 0 <= i < self.streams.len() && (#[trigger] self.streams[i]).stream_id == id
    }

    pub open spec fn stream(self, id: u64) -> StreamTableModel {
        self.streams[self.stream_index(id)]
    }

    /// What reading `[offset, offset + size)` of stream `id` returns.
    pub open spec fn spec_read_stream(self, id: u64, offset: u64, size: u64) -> Result<
        Seq<u8>,
        Error,
    > {
        if self.has_stream(id) {
            self.stream(id).spec_read(offset, size)
        } else {
            Err(Error::StreamNotFound)
        }
    }
}

/// The empty write buffer: no streams, all counters zero.
pub open spec fn empty_mem_table() -> MemTableModel {
    MemTableModel { streams: Seq::empty(), first_entry: 0, last_entry: 0, size: 0 }
}

/// The buffer one successful append leaves behind. `off` is the starting
/// offset used if `e.stream_id` is new to the buffer; it is ignored
/// otherwise.
pub open spec fn spec_append(m: MemTableModel, e: EntryModel, off: u64) -> MemTableModel {
    let streams = if m.has_stream(e.stream_id) {
        let i = m.stream_index(e.stream_id);
        let t = m.streams[i];
        m.streams.update(
            i,
            StreamTableModel {
                stream_id: t.stream_id,
                offset: t.offset,
                size: (t.size + e.data.len()) as u64,
                chunks: t.chunks.push(e.data),
            },
        )
    } else {
        m.streams.insert(
            count_lt(m.streams, e.stream_id),
            StreamTableModel {
                stream_id: e.stream_id,
                offset: off,
                size: e.data.len() as u64,
                chunks: seq![e.data],
            },
        )
    };
    MemTableModel {
        streams,
        first_entry: if m.first_entry == 0 {
            e.id
        } else {
            m.first_entry
        },
        last_entry: e.id,
        size: (m.size + e.data.len()) as u64,
    }
}

/// In a sorted sequence an id occurs at most once, so the witness behind
/// `stream_index` is the index it is seen at.
pub proof fn lemma_stream_index_is(m: MemTableModel, i: int)
    requires
        m.wf(),
        0 <= i < m.streams.len(),
    ensures
        m.has_stream(m.streams[i].stream_id),
        m.stream_index(m.streams[i].stream_id) == i,
{
    let id = m.streams[i].stream_id;
    assert(m.has_stream(id));
    let j = m.stream_index(id);
    assert(0 <= j < m.streams.len() && m.streams[j].stream_id == id);
    if i < j {
        assert(m.streams[i].stream_id < m.streams[j].stream_id);
    } else if j < i {
        assert(m.streams[j].stream_id < m.streams[i].stream_id);
    }
}

pub proof fn lemma_count_lt_of_sorted(ss: Seq<StreamTableModel>, id: u64, k: int)
    requires
        sorted_by_id(ss),
        0 <= k <= ss.len(),
        forall|j: int| 0 <= j < k ==> (#[trigger] ss[j]).stream_id < id,
        k < ss.len() ==> ss[k].stream_id > id,
    ensures
        count_lt(ss, id) == k,
    decreases ss.len(),
{
    if ss.len() == 0 {
    } else {
        let head = ss.drop_last();
        let n: int = ss.len() as int;
        if k == n {
            lemma_count_lt_of_sorted(head, id, n - 1);
        } else {
            assert(ss[n - 1].stream_id > id) by {
                if k < n - 1 {
                    assert(ss[k].stream_id < ss[n - 1].stream_id);
                }
            }
            lemma_count_lt_of_sorted(head, id, k);
        }
    }
}

pub proof fn lemma_sum_sizes_nonneg(ss: Seq<StreamTableModel>)
    ensures
        sum_sizes(ss) >= 0,
    decreases ss.len(),
{
    if ss.len() > 0 {
        lemma_sum_sizes_nonneg(ss.drop_last());
    }
}

pub proof fn lemma_sum_sizes_take_step(ss: Seq<StreamTableModel>, k: int)
    requires
        0 <= k < ss.len(),
    ensures
        sum_sizes(ss.take(k + 1)) == sum_sizes(ss.take(k)) + ss[k].size,
{
    assert(ss.take(k + 1).drop_last() =~= ss.take(k));
    assert(ss.take(k + 1).last() == ss[k]);
}

pub proof fn lemma_sum_sizes_take_mono(ss: Seq<StreamTableModel>, a: int, b: int)
    requires
        0 <= a <= b <= ss.len(),
    ensures
        sum_sizes(ss.take(a)) <= sum_sizes(ss.take(b)),
    decreases b - a,
{
    if a < b {
        lemma_sum_sizes_take_step(ss, b - 1);
        lemma_sum_sizes_take_mono(ss, a, b - 1);
    }
}

pub proof fn lemma_sum_sizes_take_le(ss: Seq<StreamTableModel>, k: int)
    requires
        0 <= k <= ss.len(),
    ensures
        sum_sizes(ss.take(k)) <= sum_sizes(ss),
    decreases ss.len(),
{
    if k == ss.len() {
        assert(ss.take(k) =~= ss);
    } else {
        assert(ss.drop_last().take(k) =~= ss.take(k));
        lemma_sum_sizes_take_le(ss.drop_last(), k);
    }
}

pub proof fn lemma_sum_sizes_insert(ss: Seq<StreamTableModel>, t: StreamTableModel, k: int)
    requires
        0 <= k <= ss.len(),
    ensures
        sum_sizes(ss.insert(k, t)) == sum_sizes(ss) + t.size,
    decreases ss.len(),
{
    let s2 = ss.insert(k, t);
    if k == ss.len() {
        assert(s2.drop_last() =~= ss);
        assert(s2.last() == t);
    } else {
        assert(s2.last() == ss.last());
        assert(s2.drop_last() =~= ss.drop_last().insert(k, t));
        lemma_sum_sizes_insert(ss.drop_last(), t, k);
    }
}

pub proof fn lemma_sum_sizes_update(ss: Seq<StreamTableModel>, t: StreamTableModel, i: int)
    requires
        0 <= i < ss.len(),
    ensures
        sum_sizes(ss.update(i, t)) == sum_sizes(ss) - ss[i].size + t.size,
    decreases ss.len(),
{
    let s2 = ss.update(i, t);
    if i == ss.len() - 1 {
        assert(s2.drop_last() =~= ss.drop_last());
        assert(s2.last() == t);
    } else {
        assert(s2.last() == ss.last());
        assert(s2.drop_last() =~= ss.drop_last().update(i, t));
        lemma_sum_sizes_update(ss.drop_last(), t, i);
    }
}

pub proof fn lemma_insert_keeps_sorted(ss: Seq<StreamTableModel>, t: StreamTableModel, k: int)
    requires
        sorted_by_id(ss),
        0 <= k <= ss.len(),
        forall|j: int| 0 <= j < k ==> (#[trigger] ss[j]).stream_id < t.stream_id,
        k < ss.len() ==> ss[k].stream_id > t.stream_id,
    ensures
        sorted_by_id(ss.insert(k, t)),
{
    let s2 = ss.insert(k, t);
    assert forall|i: int, j: int| 0 <= i < j < s2.len() implies s2[i].stream_id
        < s2[j].stream_id by {
        if i < k && j < k {
        } else if i == k {
            assert(s2[j] == ss[j - 1]);
            if j - 1 > k {
                assert(ss[k].stream_id < ss[j - 1].stream_id);
            }
        } else if j == k {
            assert(s2[i] == ss[i]);
        } else if i > k {
            assert(s2[i] == ss[i - 1] && s2[j] == ss[j - 1]);
        } else {
            assert(s2[i] == ss[i] && s2[j] == ss[j - 1]);
            if i < k && k <= j - 1 && k < ss.len() {
                if k < j - 1 {
                    assert(ss[k].stream_id < ss[j - 1].stream_id);
                }
                assert(ss[i].stream_id < t.stream_id);
                assert(t.stream_id < ss[j - 1].stream_id || k == j - 1);
                if k == j - 1 {
                    assert(ss[i].stream_id < ss[j - 1].stream_id);
                }
            } else {
                assert(ss[i].stream_id < ss[j - 1].stream_id);
            }
        }
    }
}

/// The in-memory write buffer for one generation: a sorted collection of
/// per-stream tables plus the first/last appended entry ids and the total
/// buffered byte count.
pub struct MemTable {
    stream_tables: Vec<StreamTable>,
    first_entry: u64,
    last_entry: u64,
    size: u64,
}

impl View for MemTable {
    type V = MemTableModel;

    closed spec fn view(&self) -> MemTableModel {
        MemTableModel {
            streams: self.stream_tables@.map_values(|t: StreamTable| t@),
            first_entry: self.first_entry,
            last_entry: self.last_entry,
            size: self.size,
        }
    }
}

impl MemTable {
    /// Creates an empty buffer: no streams, all counters zero.
    pub fn new() -> (m: MemTable)
        ensures
            m@ == empty_mem_table(),
            m@.wf(),
    {
        let m = MemTable {
            stream_tables: Vec::new(),
            first_entry: 0,
            last_entry: 0,
            size: 0,
        };
        proof {
            assert(m@.streams =~= empty_mem_table().streams);
            assert(m@ == empty_mem_table());
        }
        m
    }

    /// The id of the very first entry ever appended, or `0` while the buffer
    /// has received none.
    pub fn get_first_entry(&self) -> (r: u64)
        ensures
            r == self@.first_entry,
    {
        self.first_entry
    }

    /// The id of the most recently appended entry, or `0` while the buffer
    /// has received none.
    pub fn get_last_entry(&self) -> (r: u64)
        ensures
            r == self@.last_entry,
    {
        self.last_entry
    }

    /// Total bytes buffered across all streams.
    pub fn get_size(&self) -> (r: u64)
        ensures
            r == self@.size,
    {
        self.size
    }

    /// The per-stream tables, in ascending stream-id order.
    pub fn get_stream_tables(&self) -> (r: &Vec<StreamTable>)
        ensures
            r@.len() == self@.streams.len(),
            forall|i: int| 0 <= i < r@.len() ==> (#[trigger] r@[i])@ == self@.streams[i],
    {
        &self.stream_tables
    }

    /// Index of the table for `stream_id`, if the buffer holds one.
    fn find_index(&self, stream_id: u64) -> (r: Option<usize>)
        requires
            self@.wf(),
        ensures
            match r {
                Some(i) => {
                    &&& i < self@.streams.len()
                    &&& self@.streams[i as int].stream_id == stream_id
                    &&& self@.has_stream(stream_id)
                    &&& self@.stream_index(stream_id) == i
                },
                None => !self@.has_stream(stream_id),
            },
    {
        let mut i: usize = 0;
        while i < self.stream_tables.len()
            invariant
                self@.wf(),
                i <= self@.streams.len(),
                self@.streams.len() == self.stream_tables@.len(),
                forall|j: int|
                    0 <= j < i ==> (#[trigger] self@.streams[j]).stream_id != stream_id,
            decreases self.stream_tables@.len() - i,
        {
            if self.stream_tables[i].stream_id == stream_id {
                proof {
                    lemma_stream_index_is(self@, i as int);
                }
                return Some(i);
            }
            i = i + 1;
        }
        proof {
            assert(!self@.has_stream(stream_id));
        }
        None
    }

    /// Sorted insertion point for a stream id the buffer does not hold yet.
    fn find_insert_pos(&self, stream_id: u64) -> (k: usize)
        requires
            self@.wf(),
            !self@.has_stream(stream_id),
        ensures
            k <= self@.streams.len(),
            k as int == count_lt(self@.streams, stream_id),
            forall|j: int| 0 <= j < k ==> (#[trigger] self@.streams[j]).stream_id < stream_id,
            k < self@.streams.len() ==> self@.streams[k as int].stream_id > stream_id,
    {
        let mut k: usize = 0;
        while k < self.stream_tables.len() && self.stream_tables[k].stream_id < stream_id
            invariant
                self@.wf(),
                !self@.has_stream(stream_id),
                k <= self@.streams.len(),
                self@.streams.len() == self.stream_tables@.len(),
                forall|j: int|
                    0 <= j < k ==> (#[trigger] self@.streams[j]).stream_id < stream_id,
            decreases self.stream_tables@.len() - k,
        {
            k = k + 1;
        }
        proof {
            if k < self.stream_tables.len() {
                assert(self@.streams[k as int].stream_id >= stream_id);
                if self@.streams[k as int].stream_id == stream_id {
                    lemma_stream_index_is(self@, k as int);
                }
            }
            lemma_count_lt_of_sorted(self@.streams, stream_id, k as int);
        }
        k
    }

    /// The logical range `(start, end)` that stream `stream_id` covers in
    /// this buffer, or nothing if the stream is absent or still empty.
    pub fn get_stream_range(&self, stream_id: u64) -> (r: Option<(u64, u64)>)
        requires
            self@.wf(),
        ensures
            r == if self@.has_stream(stream_id) {
                self@.stream(stream_id).spec_range()
            } else {
                None::<(u64, u64)>
            },
    {
        match self.find_index(stream_id) {
            Some(i) => self.stream_tables[i].get_stream_range(),
            None => None,
        }
    }

    /// Reads `[offset, offset + size)` of the bytes buffered for
    /// `stream_id`, failing when the stream is absent or the window exceeds
    /// its buffered extent.
    pub fn read_stream_data(&self, stream_id: u64, offset: u64, size: u64) -> (r: Result<
        Vec<u8>,
        Error,
    >)
        requires
            self@.wf(),
        ensures
            match r {
                Ok(v) => self@.spec_read_stream(stream_id, offset, size) == Ok::<Seq<u8>, Error>(
                    v@,
                ),
                Err(e) => self@.spec_read_stream(stream_id, offset, size) == Err::<Seq<u8>, Error>(
                    e,
                ),
            },
    {
        match self.find_index(stream_id) {
            Some(i) => self.stream_tables[i].read_stream_data(offset, size),
            None => Err(Error::StreamNotFound),
        }
    }

    /// Appends one entry, resolving the starting offset of a stream unseen
    /// in this buffer through `resolver`. A resolver failure is returned
    /// unchanged and leaves the buffer untouched; otherwise the entry's
    /// payload is buffered and the counters updated.
    pub fn append_with_offsets<R: OffsetResolver>(&mut self, entry: &Entry, resolver: &R) -> (r:
        Result<(), Error>)
        requires
            old(self)@.wf(),
            old(self)@.size + entry.data@.len() <= u64::MAX,
            old(self)@.has_stream(entry.stream_id) ==> old(self)@.stream(entry.stream_id).offset
                + old(self)@.stream(entry.stream_id).size + entry.data@.len() <= u64::MAX,
            !old(self)@.has_stream(entry.stream_id) ==> (resolver.offset_for(entry.stream_id)
                matches Ok(o) ==> o + entry.data@.len() <= u64::MAX),
        ensures
            final(self)@.wf(),
            old(self)@.has_stream(entry.stream_id) ==> r == Ok::<(), Error>(()) && final(self)@
                == spec_append(old(self)@, entry@, 0),
            !old(self)@.has_stream(entry.stream_id) ==> match resolver.offset_for(
                entry.stream_id,
            ) {
                Ok(o) => r == Ok::<(), Error>(()) && final(self)@ == spec_append(
                    old(self)@,
                    entry@,
                    o,
                ),
                Err(e) => r == Err::<(), Error>(e) && final(self)@ == old(self)@,
            },
    {
        let ghost pre = self@;
        let data_len: u64 = entry.data.len() as u64;
        match self.find_index(entry.stream_id) {
            Some(i) => {
                proof {
                    assert(pre.streams[i as int] == pre.stream(entry.stream_id));
                }
                let _ = self.stream_tables[i].append(entry.data.as_slice());
                self.size = self.size + data_len;
                self.last_entry = entry.id;
                if self.first_entry == 0 {
                    self.first_entry = entry.id;
                }
                proof {
                    let post = spec_append(pre, entry@, 0);
                    assert(self@.streams =~= post.streams);
                    assert(self@ == post);
                    lemma_sum_sizes_update(pre.streams, post.streams[i as int], i as int);
                    assert forall|j: int| 0 <= j < post.streams.len() implies (
                    #[trigger] post.streams[j]).wf() by {
                        if j != i as int {
                            assert(post.streams[j] == pre.streams[j]);
                        }
                    }
                    assert(post.wf());
                }
                Ok(())
            },
            None => {
                let off = match resolver.resolve_start_offset(entry.stream_id) {
                    Ok(o) => o,
                    Err(e) => {
                        return Err(e);
                    },
                };
                let k = self.find_insert_pos(entry.stream_id);
                let mut t = StreamTable::new(entry.stream_id, off);
                let _ = t.append(entry.data.as_slice());
                proof {
                    assert(t@.chunks =~= seq![entry@.data]);
                }
                self.stream_tables.insert(k, t);
                self.size = self.size + data_len;
                self.last_entry = entry.id;
                if self.first_entry == 0 {
                    self.first_entry = entry.id;
                }
                proof {
                    let post = spec_append(pre, entry@, off);
                    assert(t@ == post.streams[k as int]);
                    assert(self@.streams =~= post.streams);
                    assert(self@ == post);
                    lemma_insert_keeps_sorted(pre.streams, t@, k as int);
                    lemma_sum_sizes_insert(pre.streams, t@, k as int);
                    assert forall|j: int| 0 <= j < post.streams.len() implies (
                    #[trigger] post.streams[j]).wf() by {
                        if j < k as int {
                            assert(post.streams[j] == pre.streams[j]);
                        } else if j > k as int {
                            assert(post.streams[j] == pre.streams[j - 1]);
                        }
                    }
                    assert(post.wf());
                }
                Ok(())
            },
        }
    }

    /// Appends one entry with no resolver installed: a stream unseen in this
    /// buffer starts at offset `0`.
    pub fn append(&mut self, entry: &Entry) -> (r: Result<(), Error>)
        requires
            old(self)@.wf(),
            old(self)@.size + entry.data@.len() <= u64::MAX,
            old(self)@.has_stream(entry.stream_id) ==> old(self)@.stream(entry.stream_id).offset
                + old(self)@.stream(entry.stream_id).size + entry.data@.len() <= u64::MAX,
        ensures
            final(self)@.wf(),
            r == Ok::<(), Error>(()),
            final(self)@ == spec_append(old(self)@, entry@, 0),
    {
        let zero = FixedOffsets { offset: 0 };
        self.append_with_offsets(entry, &zero)
    }
}

/// Marker check used by the concurrency test: the buffer can be shared
/// across threads behind outside synchronization.
pub fn assert_send_sync<T: Send + Sync>() {
}

/// Total payload length of a sequence of (entry, starting offset) appends.
pub open spec fn sum_entry_lens(es: Seq<(EntryModel, u64)>) -> int
    decreases es.len(),
{
    if es.len() == 0 {
        0
    } else {
        sum_entry_lens(es.drop_last()) + es.last().0.data.len()
    }
}

/// The buffer a sequence of successful appends leaves behind, starting from
/// `m`; each pair carries the entry and the starting offset its stream would
/// resolve to.
pub open spec fn apply_appends(m: MemTableModel, es: Seq<(EntryModel, u64)>) -> MemTableModel
    decreases es.len(),
{
    if es.len() == 0 {
        m
    } else {
        spec_append(apply_appends(m, es.drop_last()), es.last().0, es.last().1)
    }
}

/// Accounting across any sequence of appends into a fresh buffer: the total
/// size equals the sum of the appended payload lengths, `last_entry` is the
/// id of the last append, and `first_entry` is the id of the very first
/// append and never changes afterwards (entry ids are nonzero; zero is the
/// "unset" sentinel).
pub proof fn lemma_buffer_accounting(es: Seq<(EntryModel, u64)>)
    requires
        es.len() > 0,
        forall|i: int| 0 <= i < es.len() ==> (#[trigger] es[i]).0.id != 0,
        sum_entry_lens(es) <= u64::MAX,
    ensures
        ({
            let m = apply_appends(empty_mem_table(), es);
            &&& m.size == sum_entry_lens(es)
            &&& m.last_entry == es.last().0.id
            &&& m.first_entry == es.first().0.id
        }),
        forall|k: int|
            1 <= k <= es.len() ==> #[trigger] apply_appends(
                empty_mem_table(),
                es.take(k),
            ).first_entry == es.first().0.id,
    decreases es.len(),
{
    if es.len() == 1 {
        assert(es.first() == es.last());
        assert(es.drop_last().len() == 0);
        assert(apply_appends(empty_mem_table(), es.drop_last()) == empty_mem_table());
        assert(sum_entry_lens(es.drop_last()) == 0);
        assert(sum_entry_lens(es) == es.last().0.data.len());
        assert(apply_appends(empty_mem_table(), es) == spec_append(
            empty_mem_table(),
            es.last().0,
            es.last().1,
        ));
        assert(!empty_mem_table().has_stream(es.last().0.stream_id));
        assert(es[0].0.id != 0);
        assert(es.take(1) =~= es);
    } else {
        let head = es.drop_last();
        assert(sum_entry_lens(es) == sum_entry_lens(head) + es.last().0.data.len());
        assert(forall|i: int| 0 <= i < head.len() ==> (#[trigger] head[i]).0.id != 0);
        lemma_buffer_accounting(head);
        assert(head.first() == es.first());
        assert(es[0].0.id != 0);
        assert(apply_appends(empty_mem_table(), head).first_entry != 0);
        assert forall|k: int| 1 <= k <= es.len() implies #[trigger] apply_appends(
            empty_mem_table(),
            es.take(k),
        ).first_entry == es.first().0.id by {
            if k < es.len() {
                assert(es.take(k) =~= head.take(k));
            } else {
                assert(es.take(k) =~= es);
            }
        }
    }
}

} // verus!

use vstd::prelude::*;

verus! {

/// One unit of appended data: a caller-assigned entry id, the stream it
/// belongs to, and the payload bytes. The buffer copies the payload; the
/// caller keeps ownership of the entry itself.
pub struct Entry {
    pub id: u64,
    pub stream_id: u64,
    pub data: Vec<u8>,
}

/// Mathematical model of an [`Entry`]: the payload as a byte sequence.
pub struct EntryModel {
    pub id: u64,
    pub stream_id: u64,
    pub data: Seq<u8>,
}

impl View for Entry {
    type V = EntryModel;

    open spec fn view(&self) -> EntryModel {
        EntryModel { id: self.id, stream_id: self.stream_id, data: self.data@ }
    }
}

impl Entry {
    pub fn new(id: u64, stream_id: u64, data: Vec<u8>) -> (e: Entry)
        ensures
            e@ == (EntryModel { id, stream_id, data: data@ }),
    {
        Entry { id, stream_id, data }
    }
}

} // verus!

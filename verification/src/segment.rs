//! One log segment: the contents of a numbered `.log` file, held in memory
//! while a thin shell mirrors every change onto the real file.

use crate::entry::{parse_record, Entry};
use crate::error::TsaError;
use crate::index::Index;
use crate::log::{
    can_parse_at, end_from, index_from, lemma_log_append, rec_encoding, seg_clean, CommandPos,
};
use vstd::prelude::*;
use vstd::slice::{slice_subrange, slice_to_vec};
use vstd::utf8::encode_utf8;

verus! {

/// The lifecycle stage of a segment.
#[derive(Debug, Clone, Copy, PartialEq, Eq, Structural)]
pub enum SegmentStatus {
    /// Currently accepting appends.
    Active,
    /// Closed to writes, eligible for compaction.
    Sealed,
    /// Kept only for reads until compaction reclaims it.
    Archived,
}

/// One log segment, identified by its file id.
pub struct Segment {
    /// The number in the segment's file name.
    pub file_id: u64,
    /// The file's contents.
    pub data: Vec<u8>,
    /// The lifecycle stage.
    pub status: SegmentStatus,
}

impl View for Segment {
    type V = (u64, Seq<u8>);

    open spec fn view(&self) -> (u64, Seq<u8>) {
        (self.file_id, self.data@)
    }
}

impl Segment {
    /// Whether the contents are exactly a concatenation of whole records.
    pub open spec fn clean(&self) -> bool {
        seg_clean(self.data@)
    }

    /// A fresh, empty segment, as a newly created file.
    pub fn new(file_id: u64) -> (r: Segment)
        ensures
            r@ == (file_id, Seq::<u8>::empty()),
            r.status == SegmentStatus::Active,
            r.clean(),
    {
        proof {
            assert(!can_parse_at(Seq::<u8>::empty(), 0));
        }
        Segment { file_id, data: Vec::new(), status: SegmentStatus::Active }
    }

    /// A segment over the contents of an existing file.
    pub fn open(file_id: u64, data: Vec<u8>, status: SegmentStatus) -> (r: Segment)
        ensures
            r@ == (file_id, data@),
            r.status == status,
    {
        Segment { file_id, data, status }
    }

    /// The segment's size in bytes.
    pub fn size(&self) -> (r: u64)
        ensures
            r == self.data@.len(),
    {
        self.data.len() as u64
    }

    /// Reads `length` bytes at `offset`.  Fails with `CorruptedLog` exactly
    /// when the range reaches past the end.
    pub fn read(&self, offset: u64, length: u64) -> (r: Result<Vec<u8>, TsaError>)
        ensures
            match r {
                Ok(b) => offset + length <= self.data@.len() && b@ == self.data@.subrange(
                    offset as int,
                    offset as int + length as int,
                ),
                Err(e) => offset + length > self.data@.len() && e is CorruptedLog,
            },
    {
        let n = self.data.len();
        if offset > n as u64 || length > n as u64 - offset {
            return Err(TsaError::CorruptedLog);
        }
        let i = offset as usize;
        let j = i + (length as usize);
        Ok(slice_to_vec(slice_subrange(self.data.as_slice(), i, j)))
    }

    /// Appends one record's encoding, flush-and-sync being the shell's duty.
    /// Returns the record's position.  Fails with `EmptyValue` exactly on a
    /// `Put` with an empty value, writing nothing: that encoding is a
    /// tombstone's.
    pub fn append(&mut self, entry: &Entry) -> (r: Result<CommandPos, TsaError>)
        requires
            old(self).clean(),
            old(self).data@.len() + rec_encoding(entry@).len() <= u64::MAX,
        ensures
            final(self).file_id == old(self).file_id,
            final(self).status == old(self).status,
            match r {
                Ok(pos) => {
                    &&& entry@.value.len() > 0 || entry is Remove
                    &&& final(self).data@ == old(self).data@ + rec_encoding(entry@)
                    &&& final(self).clean()
                    &&& pos == (CommandPos {
                        file_id: old(self).file_id,
                        offset: old(self).data@.len() as u64,
                        length: rec_encoding(entry@).len() as u64,
                    })
                },
                Err(e) => {
                    &&& e is EmptyValue
                    &&& entry is Put && entry@.value.len() == 0
                    &&& final(self).data@ == old(self).data@
                },
            },
    {
        if let Entry::Put { value, .. } = entry {
            if value.as_str().is_empty() {
                return Err(TsaError::EmptyValue);
            }
        }
        let cur_offset = self.data.len() as u64;
        let mut buffer = entry.serialize();
        let length = buffer.len() as u64;
        proof {
            lemma_log_append(
                Map::<Seq<char>, CommandPos>::empty(),
                self.file_id,
                self.data@,
                entry@,
                0,
            );
        }
        self.data.append(&mut buffer);
        Ok(CommandPos { file_id: self.file_id, offset: cur_offset, length })
    }

    /// Walks the segment from offset zero, folding each record into the
    /// index: a `Put` replaces the key's entry with this record's position,
    /// a `Remove` deletes it.  Stops cleanly at a torn tail.  Returns the
    /// number of stale events (overwrites and removals of present keys) and
    /// the clean end offset.
    pub fn index(&self, idx: &mut Index) -> (r: (u64, usize))
        requires
            old(idx).wf(),
        ensures
            final(idx).wf(),
            final(idx)@ == index_from(old(idx)@, self.file_id, self.data@, 0),
            r.1 == end_from(self.data@, 0),
            16 * (r.0 as int) <= end_from(self.data@, 0),
            crate::index::entries_live_bytes(final(idx).spec_entries())
                <= crate::index::entries_live_bytes(old(idx).spec_entries()) + end_from(
                self.data@,
                0,
            ),
    {
        let mut stale: u64 = 0;
        let mut off: usize = 0;
        let n = self.data.len();
        loop
            invariant
                idx.wf(),
                0 <= off <= n,
                n == self.data@.len(),
                16 * (stale as int) <= off,
                index_from(old(idx)@, self.file_id, self.data@, 0) == index_from(
                    idx@,
                    self.file_id,
                    self.data@,
                    off as int,
                ),
                end_from(self.data@, 0) == end_from(self.data@, off as int),
                crate::index::entries_live_bytes(idx.spec_entries())
                    <= crate::index::entries_live_bytes(old(idx).spec_entries()) + off,
            ensures
                idx.wf(),
                index_from(old(idx)@, self.file_id, self.data@, 0) == idx@,
                off == end_from(self.data@, 0),
                16 * (stale as int) <= off,
                crate::index::entries_live_bytes(idx.spec_entries())
                    <= crate::index::entries_live_bytes(old(idx).spec_entries()) + off,
            decreases n - off,
        {
            match parse_record(self.data.as_slice(), off) {
                None => {
                    proof {
                        assert(end_from(self.data@, off as int) == off);
                        assert(index_from(idx@, self.file_id, self.data@, off as int) == idx@);
                    }
                    break ;
                },
                Some((e, sz)) => {
                    let pos = CommandPos {
                        file_id: self.file_id,
                        offset: off as u64,
                        length: sz as u64,
                    };
                    let ghost idx_pre = idx@;
                    let existed = match e {
                        Entry::Put { key, .. } => idx.insert(key, pos),
                        Entry::Remove { key } => idx.remove(&key).is_some(),
                    };
                    if existed {
                        stale = stale + 1;
                    }
                    proof {
                        assert(idx@ == crate::log::index_apply(idx_pre, e@, pos));
                    }
                    off = off + sz;
                },
            }
        }
        (stale, off)
    }
}

} // verus!

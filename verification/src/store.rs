//! The log-structured store: numbered segments, an in-memory index, and
//! garbage-collecting compaction.
//!
//! The store works on in-memory segment contents and records every change
//! it makes to them as a journal of file operations; a thin shell feeds it
//! the files' bytes at open and mirrors the journal onto the directory,
//! syncing each append before it reports success.

use crate::entry::Entry;
use crate::error::TsaError;
use crate::index::Index;
use crate::log::{
    all_recs, apply_rec, coherent, end_from, index_apply, index_from, lemma_log_coherent,
    lemma_log_last_append, lemma_log_push_empty, lemma_parse_truncate, lemma_replay_snoc, log_index,
    log_index_from, log_view, pos_points_to, rec_encoding, rec_is_set, recs_bytes, recs_live,
    seg_clean, seg_recs, replay, CommandPos, RecG,
};
use crate::segment::{Segment, SegmentStatus};
use vstd::prelude::*;
use vstd::utf8::encode_utf8;

verus! {

/// Soft cap on a segment's size: the active segment is rolled once an
/// append leaves it larger than this.
pub const MAX_SEGMENT_BYTES: u64 = 4 * 1024 * 1024;

/// Total-log-size trigger above which compaction runs.
pub const COMPACTION_THRESHOLD_BYTES: u64 = 1024 * 1024;

/// One file operation the store performed on its in-memory segments, to be
/// mirrored, in order, onto the data directory.
#[derive(Debug)]
pub enum FileOp {
    /// Create `<file_id>.log`, empty.
    Create { file_id: u64 },
    /// Append the bytes to `<file_id>.log`, then flush and sync it.
    Append { file_id: u64, bytes: Vec<u8> },
    /// Truncate `<file_id>.log` to `len` bytes (a torn tail found at open).
    Truncate { file_id: u64, len: u64 },
    /// Delete `<file_id>.log`; issued only after everything live has been
    /// appended to newer segments.
    Delete { file_id: u64 },
}

/// The directory contents after one file operation.
pub open spec fn apply_op(disk: Map<u64, Seq<u8>>, op: FileOp) -> Map<u64, Seq<u8>> {
    match op {
        FileOp::Create { file_id } => disk.insert(file_id, Seq::empty()),
        FileOp::Append { file_id, bytes } => disk.insert(file_id, disk[file_id] + bytes@),
        FileOp::Truncate { file_id, len } => if len <= disk[file_id].len() {
            disk.insert(file_id, disk[file_id].subrange(0, len as int))
        } else {
            disk
        },
        FileOp::Delete { file_id } => disk.remove(file_id),
    }
}

/// The directory contents after a sequence of file operations.
pub open spec fn apply_ops(disk: Map<u64, Seq<u8>>, ops: Seq<FileOp>) -> Map<u64, Seq<u8>>
    decreases ops.len(),
{
    if ops.len() == 0 {
        disk
    } else {
        apply_ops(apply_op(disk, ops[0]), ops.drop_first())
    }
}

/// One more operation at the end applies after the rest.
pub proof fn lemma_apply_ops_snoc(disk: Map<u64, Seq<u8>>, ops: Seq<FileOp>, op: FileOp)
    ensures
        apply_ops(disk, ops.push(op)) == apply_op(apply_ops(disk, ops), op),
    decreases ops.len(),
{
    if ops.len() == 0 {
        assert(ops.push(op)[0] == op);
        assert(ops.push(op).drop_first() =~= Seq::<FileOp>::empty());
        assert(apply_ops(apply_op(disk, op), Seq::<FileOp>::empty()) == apply_op(disk, op));
        assert(apply_ops(disk, ops) == disk);
    } else {
        assert(ops.push(op)[0] == ops[0]);
        assert(ops.push(op).drop_first() =~= ops.drop_first().push(op));
        lemma_apply_ops_snoc(apply_op(disk, ops[0]), ops.drop_first(), op);
    }
}

/// The (file id, contents) views of a sequence of segments.
pub open spec fn seg_views(ss: Seq<Segment>) -> Seq<(u64, Seq<u8>)> {
    ss.map_values(|s: Segment| s@)
}

/// Segment contents come from vectors, so each fits a 64-bit size.
pub proof fn lemma_seg_views_len_bound(ss: Seq<Segment>)
    ensures
        forall|t: int| 0 <= t < seg_views(ss).len() ==> (#[trigger] seg_views(ss)[t].1).len()
            <= u64::MAX,
{
    assert forall|t: int| 0 <= t < seg_views(ss).len() implies (#[trigger] seg_views(ss)[t].1).len()
        <= u64::MAX by {
        assert(seg_views(ss)[t] == ss[t]@);
        let v = &ss[t].data;
        assert(vstd::std_specs::vec::spec_vec_len(v) == v@.len());
    }
}

/// The directory a sequence of segments stands for.
pub open spec fn segs_disk(s: Seq<(u64, Seq<u8>)>) -> Map<u64, Seq<u8>>
    decreases s.len(),
{
    if s.len() == 0 {
        Map::empty()
    } else {
        segs_disk(s.drop_last()).insert(s.last().0, s.last().1)
    }
}

/// A file id is on the directory exactly when some segment carries it.
pub proof fn lemma_segs_disk_dom(s: Seq<(u64, Seq<u8>)>, fid: u64)
    ensures
        segs_disk(s).contains_key(fid) <==> exists|i: int| 0 <= i < s.len() && (#[trigger] s[i]).0 == fid,
    decreases s.len(),
{
    if s.len() > 0 {
        lemma_segs_disk_dom(s.drop_last(), fid);
        if segs_disk(s).contains_key(fid) {
            if s.last().0 == fid {
                assert(s[s.len() - 1].0 == fid);
            } else {
                let i = choose|i: int| 0 <= i < s.drop_last().len() && (#[trigger] s.drop_last()[i]).0 == fid;
                assert(s[i].0 == fid);
            }
        }
        if exists|i: int| 0 <= i < s.len() && (#[trigger] s[i]).0 == fid {
            let i = choose|i: int| 0 <= i < s.len() && (#[trigger] s[i]).0 == fid;
            if i < s.len() - 1 {
                assert(s.drop_last()[i].0 == fid);
            }
        }
    }
}

/// With distinct file ids, each segment's contents are on the directory
/// under its id.
pub proof fn lemma_segs_disk_index(s: Seq<(u64, Seq<u8>)>, i: int)
    requires
        fids_increasing(s),
        0 <= i < s.len(),
    ensures
        segs_disk(s).contains_key(s[i].0),
        segs_disk(s)[s[i].0] == s[i].1,
    decreases s.len(),
{
    if i == s.len() - 1 {
    } else {
        lemma_segs_disk_index(s.drop_last(), i);
        assert(s.drop_last()[i] == s[i]);
        assert(s[i].0 != s.last().0);
    }
}

/// Whether the segments' file ids strictly increase left to right.
pub open spec fn fids_increasing(s: Seq<(u64, Seq<u8>)>) -> bool {
    forall|i: int, j: int| 0 <= i < j < s.len() ==> (#[trigger] s[i]).0 < (#[trigger] s[j]).0
}

/// The total byte size of the segments.
pub open spec fn total_bytes(s: Seq<(u64, Seq<u8>)>) -> int
    decreases s.len(),
{
    if s.len() == 0 {
        0
    } else {
        total_bytes(s.drop_last()) + s.last().1.len()
    }
}

/// The total splits over any cut, so a prefix never exceeds the whole.
pub proof fn lemma_total_bytes_split(s: Seq<(u64, Seq<u8>)>, i: int)
    requires
        0 <= i <= s.len(),
    ensures
        total_bytes(s) == total_bytes(s.take(i)) + total_bytes(s.skip(i)),
        total_bytes(s.take(i)) >= 0,
        total_bytes(s.skip(i)) >= 0,
    decreases s.len(),
{
    lemma_total_bytes_nonneg(s.take(i));
    lemma_total_bytes_nonneg(s.skip(i));
    if i == s.len() {
        assert(s.take(i) =~= s);
        assert(s.skip(i) =~= Seq::<(u64, Seq<u8>)>::empty());
    } else {
        lemma_total_bytes_split(s.drop_last(), i);
        assert(s.drop_last().take(i) =~= s.take(i));
        assert(s.skip(i).drop_last() =~= s.drop_last().skip(i));
        assert(s.skip(i).last() == s.last());
        assert(total_bytes(s.skip(i)) == total_bytes(s.drop_last().skip(i)) + s.last().1.len());
    }
}

/// The total is never negative.
pub proof fn lemma_total_bytes_nonneg(s: Seq<(u64, Seq<u8>)>)
    ensures
        total_bytes(s) >= 0,
    decreases s.len(),
{
    if s.len() > 0 {
        lemma_total_bytes_nonneg(s.drop_last());
    }
}

/// Appending a segment at the end folds once more, for all the per-log
/// walks at once.
pub proof fn lemma_log_snoc(im: Map<Seq<char>, CommandPos>, s: Seq<(u64, Seq<u8>)>, x: (u64, Seq<u8>))
    ensures
        all_recs(s.push(x)) =~= all_recs(s) + seg_recs(x.1),
        log_index_from(im, s.push(x)) == index_from(log_index_from(im, s), x.0, x.1, 0),
        segs_disk(s.push(x)) == segs_disk(s).insert(x.0, x.1),
        total_bytes(s.push(x)) == total_bytes(s) + x.1.len(),
    decreases s.len(),
{
    assert(s.push(x).drop_last() =~= s);
    if s.len() == 0 {
        assert(s.push(x)[0] == x);
        assert(s.push(x).drop_first() =~= Seq::<(u64, Seq<u8>)>::empty());
        assert(all_recs(s.push(x)) == seg_recs(x.1) + all_recs(s.push(x).drop_first()));
        assert(all_recs(s.push(x)) =~= all_recs(s) + seg_recs(x.1));
        assert(log_index_from(im, s.push(x)) == log_index_from(
            index_from(im, x.0, x.1, 0),
            s.push(x).drop_first(),
        ));
    } else {
        assert(s.push(x)[0] == s[0]);
        assert(s.push(x).drop_first() =~= s.drop_first().push(x));
        lemma_log_snoc(index_from(im, s[0].0, s[0].1, 0), s.drop_first(), x);
        assert(all_recs(s.push(x)) == seg_recs(s[0].1) + all_recs(s.push(x).drop_first()));
        assert(all_recs(s) == seg_recs(s[0].1) + all_recs(s.drop_first()));
        assert(all_recs(s.push(x)) =~= all_recs(s) + seg_recs(x.1));
    }
}

/// The encoded length of one record with this key and value.
pub open spec fn rec_len_spec(key: Seq<char>, value: Seq<char>) -> int {
    16 + encode_utf8(key).len() as int + encode_utf8(value).len() as int
}

/// The record a key/value pair re-encodes to during compaction.
pub open spec fn pair_rec(p: (String, String)) -> RecG {
    RecG { key: p.0@, value: p.1@ }
}

/// The records a pair list re-encodes to, in order.
pub open spec fn pairs_recs(ps: Seq<(String, String)>) -> Seq<RecG> {
    ps.map_values(|p: (String, String)| pair_rec(p))
}

/// The map a pair list describes, later pairs winning.
pub open spec fn pairs_map(ps: Seq<(String, String)>) -> Map<Seq<char>, Seq<char>>
    decreases ps.len(),
{
    if ps.len() == 0 {
        Map::empty()
    } else {
        pairs_map(ps.drop_last()).insert(ps.last().0@, ps.last().1@)
    }
}

/// Whether the pairs hold pairwise distinct keys.
pub open spec fn pairs_distinct(ps: Seq<(String, String)>) -> bool {
    forall|i: int, j: int|
        0 <= i < j < ps.len() ==> (#[trigger] ps[i].0)@ != (#[trigger] ps[j].0)@
}

/// A key is in the pairs' map exactly when some pair holds it.
pub proof fn lemma_pairs_map_has(ps: Seq<(String, String)>, k: Seq<char>)
    ensures
        pairs_map(ps).contains_key(k) <==> exists|i: int| 0 <= i < ps.len() && (#[trigger] ps[i].0)@ == k,
    decreases ps.len(),
{
    if ps.len() > 0 {
        lemma_pairs_map_has(ps.drop_last(), k);
        if pairs_map(ps).contains_key(k) {
            if ps.last().0@ == k {
                assert(ps[ps.len() - 1].0@ == k);
            } else {
                let i = choose|i: int| 0 <= i < ps.drop_last().len() && (#[trigger] ps.drop_last()[i].0)@ == k;
                assert(ps[i].0@ == k);
            }
        }
        if exists|i: int| 0 <= i < ps.len() && (#[trigger] ps[i].0)@ == k {
            let i = choose|i: int| 0 <= i < ps.len() && (#[trigger] ps[i].0)@ == k;
            if i < ps.len() - 1 {
                assert(ps.drop_last()[i].0@ == k);
            }
        }
    }
}

/// With distinct keys, each pair appears in the map with its own value.
pub proof fn lemma_pairs_map_index(ps: Seq<(String, String)>, i: int)
    requires
        pairs_distinct(ps),
        0 <= i < ps.len(),
    ensures
        pairs_map(ps).contains_key(ps[i].0@),
        pairs_map(ps)[ps[i].0@] == ps[i].1@,
    decreases ps.len(),
{
    if i == ps.len() - 1 {
    } else {
        lemma_pairs_map_index(ps.drop_last(), i);
        assert(ps.drop_last()[i] == ps[i]);
        assert(ps[i].0@ != ps.last().0@);
    }
}

/// Removing the pair at `i` removes exactly its key from the map.
pub proof fn lemma_pairs_map_remove(ps: Seq<(String, String)>, i: int)
    requires
        pairs_distinct(ps),
        0 <= i < ps.len(),
    ensures
        pairs_distinct(ps.remove(i)),
        pairs_map(ps.remove(i)) == pairs_map(ps).remove(ps[i].0@),
    decreases ps.len(),
{
    let k = ps[i].0@;
    if i == ps.len() - 1 {
        assert(ps.remove(i) =~= ps.drop_last());
        assert(pairs_map(ps) == pairs_map(ps.drop_last()).insert(k, ps.last().1@));
        lemma_pairs_map_has(ps.drop_last(), k);
        assert(!pairs_map(ps.drop_last()).contains_key(k));
        assert(pairs_map(ps.drop_last()).insert(k, ps.last().1@).remove(k) =~= pairs_map(
            ps.drop_last(),
        ));
    } else {
        lemma_pairs_map_remove(ps.drop_last(), i);
        assert(ps.remove(i).drop_last() =~= ps.drop_last().remove(i));
        assert(ps.remove(i).last() == ps.last());
        assert(pairs_map(ps.remove(i)) == pairs_map(ps.drop_last().remove(i)).insert(
            ps.last().0@,
            ps.last().1@,
        ));
        assert(k != ps.last().0@);
        assert(pairs_map(ps.drop_last()).remove(k).insert(ps.last().0@, ps.last().1@)
            =~= pairs_map(ps.drop_last()).insert(ps.last().0@, ps.last().1@).remove(k));
    }
}

/// Replaying the records of a pair list with non-empty values yields the
/// pair list's map: compaction's rewritten log reads back as the same
/// visible state.
pub proof fn lemma_replay_pairs(ps: Seq<(String, String)>)
    requires
        forall|t: int| 0 <= t < ps.len() ==> (#[trigger] ps[t].1)@.len() > 0,
    ensures
        replay(Map::empty(), pairs_recs(ps)) == pairs_map(ps),
    decreases ps.len(),
{
    if ps.len() > 0 {
        lemma_replay_pairs(ps.drop_last());
        assert(pairs_recs(ps) =~= pairs_recs(ps.drop_last()).push(pair_rec(ps.last())));
        lemma_replay_snoc(Map::empty(), pairs_recs(ps.drop_last()), pair_rec(ps.last()));
        assert(rec_is_set(pair_rec(ps.last())));
    }
}

/// Deleting the first segment's file removes exactly its id from the
/// directory.
pub proof fn lemma_segs_disk_remove_first(s: Seq<(u64, Seq<u8>)>)
    requires
        fids_increasing(s),
        s.len() > 0,
    ensures
        segs_disk(s).remove(s[0].0) == segs_disk(s.drop_first()),
    decreases s.len(),
{
    let k = s[0].0;
    if s.len() == 1 {
        assert(s.drop_first() =~= Seq::<(u64, Seq<u8>)>::empty());
        assert(s.drop_last() =~= Seq::<(u64, Seq<u8>)>::empty());
        assert(s.last() == s[0]);
        assert(segs_disk(Seq::<(u64, Seq<u8>)>::empty()) == Map::<u64, Seq<u8>>::empty());
        assert(segs_disk(s) == Map::<u64, Seq<u8>>::empty().insert(k, s[0].1));
        assert(Map::<u64, Seq<u8>>::empty().insert(k, s[0].1).remove(k) =~= Map::<u64,
            Seq<u8>,
        >::empty());
    } else {
        lemma_segs_disk_remove_first(s.drop_last());
        assert(s.drop_last()[0] == s[0]);
        assert(s.drop_first().drop_last() =~= s.drop_last().drop_first());
        assert(s.drop_first().last() == s.last());
        assert(segs_disk(s.drop_first()) == segs_disk(s.drop_last().drop_first()).insert(
            s.last().0,
            s.last().1,
        ));
        assert(k != s.last().0);
        assert(segs_disk(s.drop_last()).remove(k).insert(s.last().0, s.last().1)
            =~= segs_disk(s.drop_last()).insert(s.last().0, s.last().1).remove(k));
    }
}

/// The persistent key/value store: an append-only segmented log with an
/// in-memory index.
pub struct KvStore {
    segments: Vec<Segment>,
    index: Index,
    size: u64,
    stale_entries: u64,
    journal: Vec<FileOp>,
    synced: Ghost<Map<u64, Seq<u8>>>,
    compaction: bool,
    max_segment_bytes: u64,
    compaction_threshold_bytes: u64,
}

impl View for KvStore {
    type V = Map<Seq<char>, Seq<char>>;

    /// The visible state: each live key mapped to its most recent value.
    closed spec fn view(&self) -> Map<Seq<char>, Seq<char>> {
        log_view(seg_views(self.segments@))
    }
}

impl KvStore {
    /// The (file id, contents) views of the store's segments.
    pub closed spec fn segs(&self) -> Seq<(u64, Seq<u8>)> {
        seg_views(self.segments@)
    }

    /// The in-memory index, as mathematics.
    pub closed spec fn index_view(&self) -> Map<Seq<char>, CommandPos> {
        self.index@
    }

    /// The journal of file operations not yet taken by the shell.
    pub closed spec fn journal_view(&self) -> Seq<FileOp> {
        self.journal@
    }

    /// The directory contents as of the last `take_journal`.
    pub closed spec fn synced_disk(&self) -> Map<u64, Seq<u8>> {
        self.synced@
    }

    /// The total byte size of the log.
    pub closed spec fn size_spec(&self) -> int {
        self.size as int
    }

    /// The stale-event counter.
    pub closed spec fn stale_spec(&self) -> int {
        self.stale_entries as int
    }

    /// The active segment's file id.
    pub closed spec fn active_fid(&self) -> u64 {
        self.segs().last().0
    }

    /// The active segment's size in bytes.
    pub closed spec fn active_len(&self) -> int {
        self.segs().last().1.len() as int
    }

    /// How many keys are live.
    pub closed spec fn index_len(&self) -> int {
        self.index.spec_entries().len() as int
    }

    /// The configured segment-size cap.
    pub closed spec fn max_segment_spec(&self) -> u64 {
        self.max_segment_bytes
    }

    /// The configured compaction trigger.
    pub closed spec fn threshold_spec(&self) -> u64 {
        self.compaction_threshold_bytes
    }

    /// Well-formed: at least one segment, file ids strictly increasing, the
    /// last segment active and every segment clean; the index is the log's
    /// index; sizes and counters account for the log; the journal replays
    /// the directory from its last synced state.
    pub closed spec fn wf(&self) -> bool {
        &&& self.segments@.len() >= 1
        &&& fids_increasing(self.segs())
        &&& forall|t: int| 0 <= t < self.segs().len() ==> seg_clean((#[trigger] self.segs()[t]).1)
        &&& self.segments@.last().status == SegmentStatus::Active
        &&& self.index.wf()
        &&& self.index@ == log_index(self.segs())
        &&& self.size as int == total_bytes(self.segs())
        &&& 16 * (self.stale_entries as int) <= self.size as int
        &&& crate::index::entries_live_bytes(self.index.spec_entries()) <= self.size as int
        &&& apply_ops(self.synced@, self.journal@) == segs_disk(self.segs())
    }

    /// Opens a store over the contents of the directory's `.log` files,
    /// sorted by file id, replaying all records into the index; torn tails
    /// are truncated.  If no files exist, segment 1 is created.  The store's
    /// visible state is exactly the log's replay.
    pub fn open(files: Vec<Segment>) -> (r: KvStore)
        requires
            fids_increasing(seg_views(files@)),
            total_bytes(seg_views(files@)) <= u64::MAX,
        ensures
            r.wf(),
            r@ == log_view(seg_views(files@)),
            r.index_view() == log_index(seg_views(files@)),
            r.synced_disk() == segs_disk(seg_views(files@)),
            r.max_segment_spec() == MAX_SEGMENT_BYTES,
            r.threshold_spec() == COMPACTION_THRESHOLD_BYTES,
    {
        Self::open_with_limits(files, MAX_SEGMENT_BYTES, COMPACTION_THRESHOLD_BYTES)
    }

    /// As `open`, with the segment cap and compaction trigger chosen by the
    /// caller.
    pub fn open_with_limits(files: Vec<Segment>, max_segment_bytes: u64, compaction_threshold_bytes: u64) -> (r:
        KvStore)
        requires
            fids_increasing(seg_views(files@)),
            total_bytes(seg_views(files@)) <= u64::MAX,
        ensures
            r.wf(),
            r@ == log_view(seg_views(files@)),
            r.index_view() == log_index(seg_views(files@)),
            r.synced_disk() == segs_disk(seg_views(files@)),
            r.max_segment_spec() == max_segment_bytes,
            r.threshold_spec() == compaction_threshold_bytes,
    {
        let ghost in_views = seg_views(files@);
        let ghost synced0 = segs_disk(in_views);
        let mut files = files;
        let mut segments: Vec<Segment> = Vec::new();
        let mut index = Index::new();
        let mut size: u64 = 0;
        let mut stale: u64 = 0;
        let mut journal: Vec<FileOp> = Vec::new();
        let ghost mut i: int = 0;
        proof {
            assert(in_views.take(0) =~= Seq::<(u64, Seq<u8>)>::empty());
            assert(seg_views(segments@) =~= Seq::<(u64, Seq<u8>)>::empty());
            assert(seg_views(files@) =~= in_views.skip(0));
            assert(apply_ops(synced0, journal@) == synced0);
            assert(segs_disk(in_views).union_prefer_right(segs_disk(seg_views(segments@)))
                =~= synced0);
            lemma_total_bytes_split(in_views, 0);
        }
        while files.len() > 0
            invariant
                0 <= i <= in_views.len(),
                seg_views(files@) =~= in_views.skip(i),
                files@.len() == in_views.len() - i,
                segments@.len() == i,
                index.wf(),
                index@ == log_index(seg_views(segments@)),
                log_index(seg_views(segments@)) == log_index(in_views.take(i)),
                all_recs(seg_views(segments@)) == all_recs(in_views.take(i)),
                forall|t: int|
                    0 <= t < i ==> (#[trigger] seg_views(segments@)[t]).0 == in_views[t].0,
                forall|t: int| 0 <= t < i ==> seg_clean((#[trigger] seg_views(segments@)[t]).1),
                size as int == total_bytes(seg_views(segments@)),
                size as int <= total_bytes(in_views.take(i)),
                total_bytes(in_views) <= u64::MAX,
                16 * (stale as int) <= size as int,
                crate::index::entries_live_bytes(index.spec_entries()) <= size as int,
                apply_ops(synced0, journal@) == segs_disk(in_views).union_prefer_right(
                    segs_disk(seg_views(segments@)),
                ),
                fids_increasing(in_views),
            decreases files@.len(),
        {
            let ghost files_pre = files@;
            let ghost segs_pre = seg_views(segments@);
            let ghost idx_pre = index@;
            let f = files.remove(0);
            proof {
                assert(seg_views(files_pre)[0] == files_pre[0]@);
                assert(seg_views(files_pre)[0] == in_views.skip(i)[0]);
                assert(f@ == in_views[i]);
                assert(files@ =~= files_pre.subrange(1, files_pre.len() as int));
                assert(seg_views(files@) =~= in_views.skip(i + 1)) by {
                    assert forall|tt: int| 0 <= tt < files@.len() implies seg_views(files@)[tt]
                        == in_views.skip(i + 1)[tt] by {
                        assert(seg_views(files@)[tt] == files@[tt]@);
                        assert(files@[tt] == files_pre[tt + 1]);
                        assert(seg_views(files_pre)[tt + 1] == files_pre[tt + 1]@);
                        assert(seg_views(files_pre)[tt + 1] == in_views.skip(i)[tt + 1]);
                        assert(in_views.skip(i)[tt + 1] == in_views[i + 1 + tt]);
                    }
                }
            }
            let (st, end) = f.index(&mut index);
            let ghost d = f.data@;
            proof {
                crate::log::lemma_end_from_ge(d, 0);
                assert(0 <= end <= d.len());
                lemma_parse_truncate(idx_pre, f.file_id, d, 0);
            }
            let mut f = f;
            let ghost journal_pre = journal@;
            let was_truncated = end < f.data.len();
            if was_truncated {
                journal.push(FileOp::Truncate { file_id: f.file_id, len: end as u64 });
                f.data.truncate(end);
            }
            f.status = if st > 0 {
                SegmentStatus::Sealed
            } else {
                SegmentStatus::Archived
            };
            let ghost t = f.data@;
            proof {
                if !was_truncated {
                    assert(t =~= d.subrange(0, end_from(d, 0)));
                }
                assert(t == d.subrange(0, end_from(d, 0)));
                assert(seg_clean(t)) by {
                    assert(end_from(t, 0) == end_from(d, 0));
                }
                assert(index_from(idx_pre, f@.0, t, 0) == index_from(idx_pre, f@.0, d, 0));
                assert(seg_recs(t) == seg_recs(d));
            }
            proof {
                // Sizes: the truncated contents fit under the input total.
                lemma_total_bytes_split(in_views, i + 1);
                assert(in_views.take(i + 1).drop_last() =~= in_views.take(i));
                assert(in_views.take(i + 1).last() == in_views[i]);
                assert(total_bytes(in_views.take(i + 1)) == total_bytes(in_views.take(i))
                    + d.len());
                assert(size as int + t.len() <= total_bytes(in_views.take(i + 1)));
                assert(total_bytes(in_views.take(i + 1)) <= total_bytes(in_views)) by {
                    lemma_total_bytes_split(in_views, i + 1);
                }
            }
            let new_size = size + (f.data.len() as u64);
            proof {
                assert(16 * (st as int) <= end_from(d, 0));
                assert(16 * (stale as int + st as int) <= new_size as int);
            }
            let new_stale = stale + st;
            proof {
                let ghost fv = f@;
                assert(fv == (f.file_id, t));
                // The log walks extend by one segment on both sides.
                assert(seg_views(segments@.push(f)) =~= segs_pre.push(fv));
                lemma_log_snoc(Map::empty(), segs_pre, fv);
                lemma_log_snoc(Map::empty(), in_views.take(i), in_views[i]);
                assert(in_views.take(i + 1) =~= in_views.take(i).push(in_views[i]));
                assert(log_index(segs_pre.push(fv)) == index_from(idx_pre, fv.0, t, 0));
                assert(log_index(in_views.take(i + 1)) == index_from(
                    log_index(in_views.take(i)),
                    in_views[i].0,
                    in_views[i].1,
                    0,
                ));
                assert(all_recs(segs_pre.push(fv)) =~= all_recs(in_views.take(i + 1)));
                // The journal still replays the directory.
                let ghost el = segs_disk(in_views);
                let ghost r_pre = segs_disk(segs_pre);
                let ghost r_post = segs_disk(segs_pre.push(fv));
                assert(r_post == r_pre.insert(fv.0, t));
                lemma_segs_disk_dom(segs_pre, fv.0);
                assert(forall|tt: int| 0 <= tt < i ==> segs_pre[tt].0 == in_views[tt].0);
                assert(!r_pre.contains_key(fv.0)) by {
                    if r_pre.contains_key(fv.0) {
                        let tt = choose|tt: int|
                            0 <= tt < segs_pre.len() && (#[trigger] segs_pre[tt]).0 == fv.0;
                        assert(in_views[tt].0 == in_views[i].0);
                        assert(false);
                    }
                }
                lemma_segs_disk_index(in_views, i);
                assert(el[fv.0] == d);
                let ghost prev = el.union_prefer_right(r_pre);
                assert(apply_ops(synced0, journal_pre) == prev);
                if was_truncated {
                    let ghost op = FileOp::Truncate { file_id: fv.0, len: end as u64 };
                    assert(journal@ == journal_pre.push(op));
                    lemma_apply_ops_snoc(synced0, journal_pre, op);
                    assert(!r_pre.contains_key(fv.0));
                    assert(prev[fv.0] == el[fv.0]);
                    assert(prev.contains_key(fv.0));
                    assert(end as u64 <= prev[fv.0].len());
                    assert(apply_op(prev, op) == prev.insert(fv.0, d.subrange(0, end as int)));
                    assert(d.subrange(0, end as int) == t);
                    assert(prev.insert(fv.0, t) =~= el.union_prefer_right(r_post));
                    assert(apply_ops(synced0, journal@) == el.union_prefer_right(r_post));
                } else {
                    assert(t == d);
                    assert(journal@ == journal_pre);
                    assert(prev =~= el.union_prefer_right(r_post)) by {
                        assert(prev[fv.0] == el[fv.0]);
                        assert(el[fv.0] == d);
                    }
                    assert(apply_ops(synced0, journal@) == el.union_prefer_right(r_post));
                }
            }
            segments.push(f);
            size = new_size;
            stale = new_stale;
            proof {
                i = i + 1;
            }
        }
        proof {
            assert(i == in_views.len());
            assert(in_views.take(i) =~= in_views);
        }
        if segments.len() == 0 {
            let seg = Segment::new(1);
            let ghost segs_pre = seg_views(segments@);
            let ghost journal_pre = journal@;
            journal.push(FileOp::Create { file_id: 1 });
            segments.push(seg);
            proof {
                assert(segs_pre =~= Seq::<(u64, Seq<u8>)>::empty());
                assert(in_views =~= Seq::<(u64, Seq<u8>)>::empty());
                let ghost x = (1u64, Seq::<u8>::empty());
                lemma_log_snoc(Map::<Seq<char>, CommandPos>::empty(), segs_pre, x);
                lemma_log_push_empty(Map::<Seq<char>, CommandPos>::empty(), segs_pre, 1u64);
                assert(seg_views(segments@) =~= segs_pre.push(x));
                let ghost op = FileOp::Create { file_id: 1u64 };
                assert(journal@ == journal_pre.push(op));
                lemma_apply_ops_snoc(synced0, journal_pre, op);
                assert(segs_disk(in_views).union_prefer_right(segs_disk(segs_pre)) =~= synced0);
                assert(apply_ops(synced0, journal@) =~= segs_disk(seg_views(segments@)));
                assert(fids_increasing(seg_views(segments@)));
                assert(total_bytes(seg_views(segments@)) == 0);
                assert(all_recs(seg_views(segments@)) =~= all_recs(in_views));
                assert(log_index(seg_views(segments@)) == log_index(in_views));
            }
        } else {
            let ghost segs_pre = segments@;
            let mut last = match segments.pop() {
                Some(s) => s,
                None => {
                    proof {
                        assert(false);
                    }
                    Segment::new(1)
                },
            };
            last.status = SegmentStatus::Active;
            segments.push(last);
            proof {
                assert(seg_views(segments@) =~= seg_views(segs_pre));
                let ghost cur = seg_views(segments@);
                let ghost el = segs_disk(in_views);
                let ghost rr = segs_disk(cur);
                assert(fids_increasing(cur)) by {
                    assert(forall|t: int| 0 <= t < cur.len() ==> (#[trigger] cur[t]).0 == in_views[t].0);
                }
                // The union collapses to the processed segments: every
                // input file id was processed.
                assert(el.union_prefer_right(rr) =~= rr) by {
                    assert forall|fid: u64| #[trigger] el.contains_key(fid) implies rr.contains_key(
                        fid,
                    ) by {
                        lemma_segs_disk_dom(in_views, fid);
                        let tt = choose|tt: int|
                            0 <= tt < in_views.len() && (#[trigger] in_views[tt]).0 == fid;
                        assert(cur[tt].0 == fid);
                        lemma_segs_disk_dom(cur, fid);
                    }
                }
            }
        }
        proof {
            let ghost cur = seg_views(segments@);
            assert(log_view(cur) == log_view(in_views)) by {
                assert(all_recs(cur) == all_recs(in_views));
            }
        }
        KvStore {
            segments,
            index,
            size,
            stale_entries: stale,
            journal,
            synced: Ghost(synced0),
            compaction: false,
            max_segment_bytes,
            compaction_threshold_bytes,
        }
    }

    /// The position of the segment with the given file id.
    fn find_segment(&self, fid: u64) -> (r: Option<usize>)
        ensures
            match r {
                Option::Some(ix) => ix < self.segs().len() && self.segs()[ix as int].0 == fid,
                Option::None => forall|t: int|
                    0 <= t < self.segs().len() ==> (#[trigger] self.segs()[t]).0 != fid,
            },
    {
        let n = self.segments.len();
        let mut ix: usize = 0;
        while ix < n
            invariant
                n == self.segments@.len(),
                0 <= ix <= n,
                forall|t: int| 0 <= t < ix ==> (#[trigger] seg_views(self.segments@)[t]).0 != fid,
            decreases n - ix,
        {
            if self.segments[ix].file_id == fid {
                proof {
                    assert(seg_views(self.segments@)[ix as int] == self.segments@[ix as int]@);
                }
                return Some(ix);
            }
            proof {
                assert(seg_views(self.segments@)[ix as int] == self.segments@[ix as int]@);
            }
            ix += 1;
        }
        None
    }

    /// Looks a key up: `Some` with its most recent value when the key is
    /// live, `None` when it is not.  Never fails: the index invariant rules
    /// out dangling or tombstone positions.
    pub fn get(&self, key: String) -> (r: Result<Option<String>, TsaError>)
        requires
            self.wf(),
        ensures
            match r {
                Ok(v) => match v {
                    Option::Some(s) => self@.contains_key(key@) && s@ == self@[key@],
                    Option::None => !self@.contains_key(key@),
                },
                Err(_) => false,
            },
    {
        proof {
            lemma_seg_views_len_bound(self.segments@);
            lemma_log_coherent(self.segs());
        }
        let pos = match self.index.get(&key) {
            Some(p) => p,
            None => {
                return Ok(None);
            },
        };
        let ghost j = choose|j: int|
            0 <= j < self.segs().len() && #[trigger] pos_points_to(
                self.segs()[j],
                pos,
                key@,
                self@[key@],
            );
        let ix = match self.find_segment(pos.file_id) {
            Some(ix) => ix,
            None => {
                proof {
                    assert(pos_points_to(self.segs()[j], pos, key@, self@[key@]));
                    assert(false);
                }
                return Err(TsaError::FileNotFound);
            },
        };
        proof {
            assert(pos_points_to(self.segs()[j], pos, key@, self@[key@]));
            assert(j == ix) by {
                if j != ix {
                    assert(self.segs()[j].0 == self.segs()[ix as int].0);
                }
            }
        }
        let seg = &self.segments[ix];
        let bytes = match seg.read(pos.offset, pos.length) {
            Ok(b) => b,
            Err(_) => {
                proof {
                    assert(false);
                }
                return Err(TsaError::CorruptedLog);
            },
        };
        proof {
            crate::log::lemma_parse_at_slice(seg.data@, pos.offset as int);
            assert(bytes@ == seg.data@.subrange(
                pos.offset as int,
                pos.offset as int + crate::log::rec_size(seg.data@, pos.offset as int),
            ));
        }
        match Entry::deserialize(bytes.as_slice()) {
            Ok(e) => match e {
                Entry::Put { value, .. } => Ok(Some(value)),
                Entry::Remove { .. } => {
                    proof {
                        crate::log::lemma_decode_utf8_len_zero(
                            crate::log::rec_value_bytes(seg.data@, pos.offset as int),
                        );
                        assert(false);
                    }
                    Err(TsaError::CorruptedLog)
                },
            },
            Err(_) => {
                proof {
                    assert(false);
                }
                Err(TsaError::CorruptedLog)
            },
        }
    }

    /// Appends one record to the active segment, folds it into the index,
    /// and accounts for it in the size and stale counters and the journal.
    fn apply_entry(&mut self, entry: Entry) -> (pos: CommandPos)
        requires
            old(self).wf(),
            entry@.value.len() > 0 || entry is Remove,
            old(self).size_spec() + rec_encoding(entry@).len() <= u64::MAX,
        ensures
            final(self).wf(),
            rec_is_set(entry@) ==> final(self)@ == old(self)@.insert(entry@.key, entry@.value),
            !rec_is_set(entry@) ==> final(self)@ == old(self)@.remove(entry@.key),
            final(self).index_view() == index_apply(old(self).index_view(), entry@, pos),
            final(self).size_spec() == old(self).size_spec() + rec_encoding(entry@).len(),
            final(self).active_fid() == old(self).active_fid(),
            final(self).active_len() == old(self).active_len() + rec_encoding(entry@).len(),
            final(self).index_len() <= old(self).index_len() + 1,
            final(self).synced_disk() == old(self).synced_disk(),
            final(self).max_segment_spec() == old(self).max_segment_spec(),
            final(self).threshold_spec() == old(self).threshold_spec(),
    {
        let ghost segs0 = self.segs();
        let ghost rec = entry@;
        let ghost n0 = self.segments@.len() as int;
        let bytes = entry.serialize();
        proof {
            lemma_total_bytes_split(segs0, n0 - 1);
            assert(segs0.skip(n0 - 1).last() == segs0.last());
            assert(segs0.skip(n0 - 1).drop_last() =~= Seq::<(u64, Seq<u8>)>::empty());
            assert(total_bytes(segs0.skip(n0 - 1)) == segs0.last().1.len());
            assert(seg_clean(segs0[n0 - 1].1));
            assert(rec_encoding(rec).len() >= 16);
        }
        let mut active = match self.segments.pop() {
            Some(s) => s,
            None => {
                proof {
                    assert(false);
                }
                Segment::new(1)
            },
        };
        let ghost fid = active.file_id;
        let ghost d = active.data@;
        proof {
            assert((fid, d) == segs0.last());
        }
        let pos = match active.append(&entry) {
            Ok(p) => p,
            Err(_) => {
                proof {
                    assert(false);
                }
                CommandPos { file_id: 0, offset: 0, length: 0 }
            },
        };
        self.segments.push(active);
        let ghost segs1 = seg_views(self.segments@);
        proof {
            assert(segs1 =~= segs0.update(n0 - 1, (fid, d + rec_encoding(rec))));
            lemma_log_last_append(Map::<Seq<char>, CommandPos>::empty(), segs0, rec);
            lemma_replay_snoc(Map::<Seq<char>, Seq<char>>::empty(), all_recs(segs0), rec);
            // the directory gains the same bytes at the same file
            lemma_segs_disk_index(segs0, n0 - 1);
            assert(segs1.drop_last() =~= segs0.drop_last());
            assert(segs_disk(segs1) == segs_disk(segs0.drop_last()).insert(
                fid,
                d + rec_encoding(rec),
            ));
            assert(segs_disk(segs0) == segs_disk(segs0.drop_last()).insert(fid, d));
            assert(segs_disk(segs0).insert(fid, d + rec_encoding(rec)) =~= segs_disk(segs1));
            // totals
            assert(total_bytes(segs1) == total_bytes(segs0.drop_last()) + (d
                + rec_encoding(rec)).len());
            assert(total_bytes(segs0) == total_bytes(segs0.drop_last()) + d.len());
            // the fids and the other segments' contents are unchanged
            assert(fids_increasing(segs1)) by {
                assert(forall|t: int| 0 <= t < n0 ==> (#[trigger] segs1[t]).0 == segs0[t].0);
            }
            assert(forall|t: int| 0 <= t < n0 - 1 ==> (#[trigger] segs1[t]) == segs0[t]);
        }
        let enc_len = bytes.len() as u64;
        self.size = self.size + enc_len;
        let existed = match entry {
            Entry::Put { key, .. } => self.index.insert(key, pos),
            Entry::Remove { key } => self.index.remove(&key).is_some(),
        };
        if existed {
            proof {
                assert(16 * (self.stale_entries as int) <= u64::MAX);
            }
            self.stale_entries = self.stale_entries + 1;
        }
        let ghost journal_pre = self.journal@;
        self.journal.push(FileOp::Append { file_id: pos.file_id, bytes });
        proof {
            let ghost op = self.journal@.last();
            assert(self.journal@ == journal_pre.push(op));
            lemma_apply_ops_snoc(self.synced@, journal_pre, op);
            let ghost prev = segs_disk(segs0);
            assert(prev.contains_key(fid));
            assert(prev[fid] == d);
            assert(apply_op(prev, op) == prev.insert(fid, d + rec_encoding(rec)));
        }
        pos
    }

    /// Seals the active segment and starts `<active + 1>.log` as the new
    /// active segment.
    fn rollover(&mut self)
        requires
            old(self).wf(),
            old(self).active_fid() < u64::MAX,
        ensures
            final(self).wf(),
            final(self)@ == old(self)@,
            final(self).index_view() == old(self).index_view(),
            final(self).index_len() == old(self).index_len(),
            final(self).size_spec() == old(self).size_spec(),
            final(self).stale_spec() == old(self).stale_spec(),
            final(self).active_fid() == old(self).active_fid() + 1,
            final(self).active_len() == 0,
            final(self).synced_disk() == old(self).synced_disk(),
            final(self).max_segment_spec() == old(self).max_segment_spec(),
            final(self).threshold_spec() == old(self).threshold_spec(),
    {
        let ghost segs0 = self.segs();
        let mut last = match self.segments.pop() {
            Some(s) => s,
            None => {
                proof {
                    assert(false);
                }
                Segment::new(1)
            },
        };
        let new_fid = last.file_id + 1;
        last.status = SegmentStatus::Sealed;
        self.segments.push(last);
        proof {
            assert(seg_views(self.segments@) =~= segs0);
        }
        let fresh = Segment::new(new_fid);
        self.segments.push(fresh);
        let ghost journal_pre = self.journal@;
        self.journal.push(FileOp::Create { file_id: new_fid });
        proof {
            let ghost segs1 = seg_views(self.segments@);
            assert(segs1 =~= segs0.push((new_fid, Seq::<u8>::empty())));
            lemma_log_push_empty(Map::<Seq<char>, CommandPos>::empty(), segs0, new_fid);
            lemma_log_snoc(
                Map::<Seq<char>, CommandPos>::empty(),
                segs0,
                (new_fid, Seq::<u8>::empty()),
            );
            let ghost op = FileOp::Create { file_id: new_fid };
            assert(self.journal@ == journal_pre.push(op));
            lemma_apply_ops_snoc(self.synced@, journal_pre, op);
            assert(fids_increasing(segs1)) by {
                assert(forall|t: int| 0 <= t < segs0.len() ==> (#[trigger] segs1[t]) == segs0[t]);
            }
        }
    }

    /// Reads every live key's value, in index order: the pairs compaction
    /// rewrites.
    fn snapshot(&self) -> (pairs: Vec<(String, String)>)
        requires
            self.wf(),
        ensures
            pairs@.len() == self.index.spec_entries().len(),
            pairs_distinct(pairs@),
            forall|q: int|
                0 <= q < pairs@.len() ==> {
                    &&& (#[trigger] pairs@[q]).0@ == self.index.spec_entries()[q].0@
                    &&& pairs@[q].1@.len() > 0
                    &&& self@.contains_key(pairs@[q].0@)
                    &&& pairs@[q].1@ == self@[pairs@[q].0@]
                    &&& rec_encoding(pair_rec(pairs@[q])).len()
                        == self.index.spec_entries()[q].1.length
                },
            pairs_map(pairs@) == self@,
    {
        proof {
            lemma_seg_views_len_bound(self.segments@);
            lemma_log_coherent(self.segs());
        }
        let n = self.index.len();
        let mut pairs: Vec<(String, String)> = Vec::new();
        let mut t: usize = 0;
        while t < n
            invariant
                self.wf(),
                coherent(self.segs(), self.index@, self@),
                n == self.index.spec_entries().len(),
                pairs@.len() == t,
                0 <= t <= n,
                forall|q: int|
                    0 <= q < t ==> {
                        &&& (#[trigger] pairs@[q]).0@ == self.index.spec_entries()[q].0@
                        &&& pairs@[q].1@.len() > 0
                        &&& self@.contains_key(pairs@[q].0@)
                        &&& pairs@[q].1@ == self@[pairs@[q].0@]
                        &&& rec_encoding(pair_rec(pairs@[q])).len()
                            == self.index.spec_entries()[q].1.length
                    },
            decreases n - t,
        {
            let key = self.index.key_at(t).clone();
            let ghost pos = self.index.spec_entries()[t as int].1;
            proof {
                crate::index::lemma_entries_map_index(self.index.spec_entries(), t as int);
                assert(self.index@.contains_key(key@));
                assert(self.index@[key@] == pos);
            }
            let v = match self.get(key.clone()) {
                Ok(Some(v)) => v,
                _ => {
                    proof {
                        assert(false);
                    }
                    String::new()
                },
            };
            proof {
                // the indexed record re-encodes to exactly `pos.length` bytes
                let j = choose|j: int|
                    0 <= j < self.segs().len() && #[trigger] pos_points_to(
                        self.segs()[j],
                        pos,
                        key@,
                        self@[key@],
                    );
                assert(pos_points_to(self.segs()[j], pos, key@, self@[key@]));
                crate::log::lemma_rec_at_encoding(self.segs()[j].1, pos.offset as int);
                assert(pair_rec((key, v)) == crate::log::rec_at(self.segs()[j].1, pos.offset as int));
            }
            pairs.push((key, v));
            t += 1;
        }
        proof {
            assert(pairs_distinct(pairs@)) by {
                assert forall|a: int, b: int| 0 <= a < b < pairs@.len() implies (#[trigger] pairs@[a].0)@
                    != (#[trigger] pairs@[b].0)@ by {
                    assert(self.index.spec_entries()[a].0@ != self.index.spec_entries()[b].0@);
                }
            }
            assert(pairs_map(pairs@) =~= self@) by {
                assert forall|k: Seq<char>| #[trigger] pairs_map(pairs@).contains_key(k) implies self@.contains_key(
                    k,
                ) && pairs_map(pairs@)[k] == self@[k] by {
                    lemma_pairs_map_has(pairs@, k);
                    let q = choose|q: int| 0 <= q < pairs@.len() && (#[trigger] pairs@[q].0)@ == k;
                    lemma_pairs_map_index(pairs@, q);
                }
                assert forall|k: Seq<char>| #[trigger] self@.contains_key(k) implies pairs_map(
                    pairs@,
                ).contains_key(k) by {
                    assert(self.index@.contains_key(k));
                    crate::index::lemma_entries_map_has(self.index.spec_entries(), k);
                    let q = choose|q: int|
                        0 <= q < self.index.spec_entries().len() && (#[trigger] self.index.spec_entries()[q].0)@
                            == k;
                    assert(pairs@[q].0@ == k);
                    lemma_pairs_map_has(pairs@, k);
                }
            }
        }
        pairs
    }

    /// Whether one more record of this encoded length fits the 64-bit log
    /// size.
    pub open spec fn fits_size(&self, rec_len: int) -> bool {
        self.size_spec() + rec_len <= u64::MAX
    }

    /// Whether enough file ids remain for a rollover or a compaction.
    pub open spec fn fits_fids(&self) -> bool {
        self.active_fid() as int + self.index_len() + 3 <= u64::MAX
    }

    /// Sets a key to a value: appends a `SET` record to the active segment
    /// and replaces the key's index entry.  Rejects an empty value: that
    /// encoding is a tombstone's.  After the append, compaction runs if the
    /// log has outgrown its threshold; otherwise the active segment rolls
    /// over if it has outgrown its cap.  Fails with `Io` only at the 64-bit
    /// size and file-id limits.
    pub fn set(&mut self, key: String, value: String) -> (r: Result<(), TsaError>)
        requires
            old(self).wf(),
        ensures
            final(self).wf(),
            final(self).max_segment_spec() == old(self).max_segment_spec(),
            final(self).threshold_spec() == old(self).threshold_spec(),
            r is Ok <==> value@.len() > 0 && old(self).fits_size(rec_len_spec(key@, value@))
                && old(self).fits_fids(),
            r is Ok ==> final(self)@ == old(self)@.insert(key@, value@),
            r is Ok ==> final(self).active_len() <= old(self).max_segment_spec(),
            r is Ok && old(self).size_spec() + rec_len_spec(key@, value@) > old(self).threshold_spec() ==> final(self).stale_spec() == 0 && recs_live(
                all_recs(final(self).segs()),
            ) && final(self).size_spec() == recs_bytes(all_recs(final(self).segs())),
            r is Ok && old(self).size_spec() + rec_len_spec(key@, value@) <= old(self).threshold_spec() && old(self).active_len() + rec_len_spec(key@, value@) > old(self).max_segment_spec() ==> final(self).active_fid() == old(self).active_fid() + 1
                && final(self).active_len() == 0,
            r is Ok && old(self).size_spec() + rec_len_spec(key@, value@) <= old(self).threshold_spec() && old(self).active_len() + rec_len_spec(key@, value@) <= old(self).max_segment_spec() ==> final(self).active_fid() == old(self).active_fid() && final(self).size_spec() == old(self).size_spec() + rec_len_spec(key@, value@),
            r is Err ==> final(self)@ == old(self)@ && final(self).segs() == old(self).segs()
                && final(self).index_view() == old(self).index_view() && final(self).size_spec()
                == old(self).size_spec() && final(self).stale_spec() == old(self).stale_spec()
                && final(self).journal_view() == old(self).journal_view() && final(self).synced_disk() == old(self).synced_disk(),
            value@.len() == 0 ==> r == Err::<(), TsaError>(TsaError::EmptyValue),
            value@.len() > 0 && !(old(self).fits_size(rec_len_spec(key@, value@)) && old(self).fits_fids()) ==> (match r {
                Err(e) => e is Io,
                Ok(_) => false,
            }),
    {
        if value.as_str().is_empty() {
            return Err(TsaError::EmptyValue);
        }
        let klen = key.as_str().as_bytes().len();
        let vlen = value.as_str().as_bytes().len();
        proof {
            assert(klen == encode_utf8(key@).len());
            assert(vlen == encode_utf8(value@).len());
        }
        let rec_len128: u128 = 16u128 + (klen as u128) + (vlen as u128);
        if rec_len128 > (u64::MAX as u128) - (self.size as u128) {
            return Err(TsaError::Io(String::from_str("log size limit reached")));
        }
        let n = self.segments.len();
        let active_id = self.segments[n - 1].file_id;
        proof {
            assert(seg_views(self.segments@)[n - 1] == self.segments@[n - 1]@);
            assert(active_id == self.active_fid());
        }
        if (active_id as u128) + (self.index.len() as u128) + 3u128 > (u64::MAX as u128) {
            return Err(TsaError::Io(String::from_str("file id space exhausted")));
        }
        let ghost rec_len = rec_len_spec(key@, value@);
        let entry = Entry::Put { key, value };
        proof {
            assert(rec_encoding(entry@).len() == rec_len);
            assert(rec_is_set(entry@));
        }
        let _pos = self.apply_entry(entry);
        if self.size > self.compaction_threshold_bytes {
            proof {
                assert(self.active_fid() as int + self.index_len() + 2 <= u64::MAX);
            }
            self.compact();
        } else {
            let m = self.segments.len();
            let active_size = self.segments[m - 1].size();
            proof {
                assert(seg_views(self.segments@)[m - 1] == self.segments@[m - 1]@);
            }
            if active_size > self.max_segment_bytes {
                self.rollover();
            }
        }
        Ok(())
    }

    /// Removes a key: appends a tombstone to the active segment and drops
    /// the key's index entry.  Fails with `KeyNotFound` exactly when the
    /// key has no live value (writing nothing), and with `Io` only at the
    /// 64-bit size and file-id limits.
    pub fn remove(&mut self, key: String) -> (r: Result<(), TsaError>)
        requires
            old(self).wf(),
        ensures
            final(self).wf(),
            final(self).max_segment_spec() == old(self).max_segment_spec(),
            final(self).threshold_spec() == old(self).threshold_spec(),
            r is Ok <==> old(self)@.contains_key(key@) && old(self).fits_size(
                rec_len_spec(key@, Seq::empty()),
            ) && old(self).fits_fids(),
            r is Ok ==> final(self)@ == old(self)@.remove(key@),
            r is Ok ==> final(self).active_len() <= old(self).max_segment_spec(),
            r is Ok && old(self).size_spec() + rec_len_spec(key@, Seq::empty()) > old(self).threshold_spec() ==> final(self).stale_spec() == 0 && recs_live(
                all_recs(final(self).segs()),
            ) && final(self).size_spec() == recs_bytes(all_recs(final(self).segs())),
            !old(self)@.contains_key(key@) ==> r == Err::<(), TsaError>(TsaError::KeyNotFound),
            old(self)@.contains_key(key@) && !(old(self).fits_size(
                rec_len_spec(key@, Seq::empty()),
            ) && old(self).fits_fids()) ==> (match r {
                Err(e) => e is Io,
                Ok(_) => false,
            }),
            r is Err ==> final(self)@ == old(self)@ && final(self).segs() == old(self).segs()
                && final(self).index_view() == old(self).index_view() && final(self).size_spec()
                == old(self).size_spec() && final(self).stale_spec() == old(self).stale_spec()
                && final(self).journal_view() == old(self).journal_view() && final(self).synced_disk() == old(self).synced_disk(),
    {
        proof {
            lemma_seg_views_len_bound(self.segments@);
            lemma_log_coherent(self.segs());
        }
        let present = match self.index.get(&key) {
            Some(_) => true,
            None => false,
        };
        if !present {
            return Err(TsaError::KeyNotFound);
        }
        let klen = key.as_str().as_bytes().len();
        proof {
            assert(klen == encode_utf8(key@).len());
            assert(encode_utf8(Seq::<char>::empty()) =~= Seq::<u8>::empty());
        }
        let rec_len128: u128 = 16u128 + (klen as u128);
        if rec_len128 > (u64::MAX as u128) - (self.size as u128) {
            return Err(TsaError::Io(String::from_str("log size limit reached")));
        }
        let n = self.segments.len();
        let active_id = self.segments[n - 1].file_id;
        proof {
            assert(seg_views(self.segments@)[n - 1] == self.segments@[n - 1]@);
            assert(active_id == self.active_fid());
        }
        if (active_id as u128) + (self.index.len() as u128) + 3u128 > (u64::MAX as u128) {
            return Err(TsaError::Io(String::from_str("file id space exhausted")));
        }
        let ghost rec_len = rec_len_spec(key@, Seq::<char>::empty());
        let entry = Entry::Remove { key };
        proof {
            assert(rec_encoding(entry@).len() == rec_len);
            assert(!rec_is_set(entry@));
        }
        let _pos = self.apply_entry(entry);
        if self.size > self.compaction_threshold_bytes {
            proof {
                assert(self.active_fid() as int + self.index_len() + 2 <= u64::MAX);
            }
            self.compact();
        } else {
            let m = self.segments.len();
            let active_size = self.segments[m - 1].size();
            proof {
                assert(seg_views(self.segments@)[m - 1] == self.segments@[m - 1]@);
            }
            if active_size > self.max_segment_bytes {
                self.rollover();
            }
        }
        Ok(())
    }

    /// Rewrites every live key's most recent value into fresh segments,
    /// rolling to a new segment whenever the target grows past the cap,
    /// then deletes all prior segments.  The visible state is unchanged,
    /// the stale counter is reset, and the log afterwards holds exactly one
    /// live record per key: its total size is the live bytes.
    fn compact(&mut self)
        requires
            old(self).wf(),
            old(self).active_fid() as int + old(self).index_len() + 2 <= u64::MAX,
        ensures
            final(self).wf(),
            final(self)@ == old(self)@,
            final(self).stale_spec() == 0,
            final(self).size_spec() == recs_bytes(all_recs(final(self).segs())),
            recs_live(all_recs(final(self).segs())),
            final(self).active_len() <= final(self).max_segment_spec(),
            forall|k: Seq<char>|
                final(self).index_view().contains_key(k) <==> old(self).index_view().contains_key(
                    k,
                ),
            final(self).synced_disk() == old(self).synced_disk(),
            final(self).max_segment_spec() == old(self).max_segment_spec(),
            final(self).threshold_spec() == old(self).threshold_spec(),
    {
        let ghost entries0 = old(self).index.spec_entries();
        let ghost view0 = old(self)@;
        let ghost segs_old = old(self).segs();
        let ghost active0 = old(self).active_fid();
        self.compaction = true;
        let pairs = self.snapshot();
        let npairs = pairs.len();
        // collect the ids of the segments to be dropped
        let mut old_ids: Vec<u64> = Vec::new();
        let nseg = self.segments.len();
        let mut s: usize = 0;
        while s < nseg
            invariant
                nseg == segs_old.len(),
                seg_views(self.segments@) == segs_old,
                0 <= s <= nseg,
                old_ids@.len() == s,
                forall|q: int| 0 <= q < s ==> (#[trigger] old_ids@[q]) == segs_old[q].0,
            decreases nseg - s,
        {
            old_ids.push(self.segments[s].file_id);
            proof {
                assert(seg_views(self.segments@)[s as int] == self.segments@[s as int]@);
            }
            s += 1;
        }
        proof {
            // every old file id is at most the active one
            assert(forall|q: int| 0 <= q < segs_old.len() ==> (#[trigger] segs_old[q]).0 <= active0);
        }
        // build the fresh log
        let first_fid = self.segments[nseg - 1].file_id + 1;
        proof {
            assert(seg_views(self.segments@)[nseg - 1] == self.segments@[nseg - 1]@);
            assert(first_fid == active0 + 1);
        }
        let mut new_segments: Vec<Segment> = Vec::new();
        new_segments.push(Segment::new(first_fid));
        let ghost journal_start = self.journal@;
        self.journal.push(FileOp::Create { file_id: first_fid });
        let mut new_index = Index::new();
        let mut new_size: u64 = 0;
        proof {
            let ghost nv0 = seg_views(new_segments@);
            assert(nv0 =~= Seq::<(u64, Seq<u8>)>::empty().push((first_fid, Seq::<u8>::empty())));
            lemma_log_push_empty(
                Map::<Seq<char>, CommandPos>::empty(),
                Seq::<(u64, Seq<u8>)>::empty(),
                first_fid,
            );
            lemma_log_snoc(
                Map::<Seq<char>, CommandPos>::empty(),
                Seq::<(u64, Seq<u8>)>::empty(),
                (first_fid, Seq::<u8>::empty()),
            );
            assert(all_recs(Seq::<(u64, Seq<u8>)>::empty()) =~= Seq::<RecG>::empty());
            assert(all_recs(nv0) =~= pairs_recs(pairs@.take(0)));
            assert(log_index(nv0) == log_index_from(
                index_from(
                    Map::<Seq<char>, CommandPos>::empty(),
                    first_fid,
                    Seq::<u8>::empty(),
                    0,
                ),
                Seq::<(u64, Seq<u8>)>::empty().push((first_fid, Seq::<u8>::empty())).drop_first(),
            ));
            assert(log_index(nv0) =~= Map::<Seq<char>, CommandPos>::empty());
            assert(entries0.take(0) =~= Seq::<(String, CommandPos)>::empty());
            // the journal now carries the fresh file
            let ghost op = FileOp::Create { file_id: first_fid };
            assert(self.journal@ == journal_start.push(op));
            lemma_apply_ops_snoc(self.synced@, journal_start, op);
            assert(segs_disk(segs_old).insert(first_fid, Seq::<u8>::empty()) =~= segs_disk(
                segs_old,
            ).union_prefer_right(segs_disk(nv0)));
        }
        proof {
            assert(crate::index::entries_live_bytes(entries0) <= old(self).size as int);
        }
        let mut t: usize = 0;
        while t < npairs
            invariant
                0 <= t <= npairs,
                npairs == pairs@.len(),
                npairs == entries0.len(),
                old(self).wf(),
                active0 as int + entries0.len() + 2 <= u64::MAX,
                crate::index::entries_live_bytes(entries0) <= old(self).size as int,
                seg_views(self.segments@) == segs_old,
                self.index.spec_entries() == entries0,
                self.size == old(self).size,
                self.max_segment_bytes == old(self).max_segment_bytes,
                self.compaction_threshold_bytes == old(self).compaction_threshold_bytes,
                self.synced@ == old(self).synced@,
                pairs_distinct(pairs@),
                forall|q: int|
                    0 <= q < npairs ==> {
                        &&& (#[trigger] pairs@[q]).1@.len() > 0
                        &&& rec_encoding(pair_rec(pairs@[q])).len() == entries0[q].1.length
                    },
                new_segments@.len() >= 1,
                fids_increasing(seg_views(new_segments@)),
                forall|q: int|
                    0 <= q < new_segments@.len() ==> (#[trigger] seg_views(new_segments@)[q]).0
                        > active0,
                seg_views(new_segments@).last().0 as int <= active0 + 1 + t,
                forall|q: int|
                    0 <= q < new_segments@.len() ==> seg_clean(
                        (#[trigger] seg_views(new_segments@)[q]).1,
                    ),
                new_segments@.last().status == SegmentStatus::Active,
                new_index.wf(),
                new_index@ == log_index(seg_views(new_segments@)),
                forall|k: Seq<char>|
                    #[trigger] new_index@.contains_key(k) <==> exists|q: int|
                        0 <= q < t && (#[trigger] pairs@[q].0)@ == k,
                all_recs(seg_views(new_segments@)) == pairs_recs(pairs@.take(t as int)),
                new_size as int == total_bytes(seg_views(new_segments@)),
                new_size as int == recs_bytes(all_recs(seg_views(new_segments@))),
                new_size as int == crate::index::entries_live_bytes(entries0.take(t as int)),
                crate::index::entries_live_bytes(new_index.spec_entries()) == new_size as int,
                seg_views(new_segments@).last().1.len() <= self.max_segment_bytes,
                apply_ops(self.synced@, self.journal@) == segs_disk(segs_old).union_prefer_right(
                    segs_disk(seg_views(new_segments@)),
                ),
            decreases npairs - t,
        {
            let ghost nv_pre = seg_views(new_segments@);
            let key_e = pairs[t].0.clone();
            let key_i = pairs[t].0.clone();
            let val = pairs[t].1.clone();
            let entry = Entry::Put { key: key_e, value: val };
            let ghost rec = entry@;
            proof {
                assert(rec == pair_rec(pairs@[t as int]));
                // the record fits: the live prefix never exceeds the old log
                crate::index::lemma_live_split(entries0, t as int + 1);
                assert(entries0.take(t as int + 1).drop_last() =~= entries0.take(t as int));
                assert(entries0.take(t as int + 1).last() == entries0[t as int]);
                assert(crate::index::entries_live_bytes(entries0.take(t as int + 1))
                    == new_size as int + entries0[t as int].1.length);
                assert(crate::index::entries_live_bytes(entries0) <= old(self).size as int);
                assert(new_size as int + rec_encoding(rec).len() <= u64::MAX);
                lemma_total_bytes_nonneg(nv_pre.drop_last());
                assert(total_bytes(nv_pre) == total_bytes(nv_pre.drop_last())
                    + nv_pre.last().1.len());
                assert(nv_pre.last().1.len() <= new_size as int);
                assert(seg_clean(nv_pre[nv_pre.len() - 1].1));
            }
            let m = new_segments.len();
            let mut tail = match new_segments.pop() {
                Some(x) => x,
                None => {
                    proof {
                        assert(false);
                    }
                    Segment::new(1)
                },
            };
            let ghost tfid = tail.file_id;
            let ghost td = tail.data@;
            proof {
                assert((tfid, td) == nv_pre.last());
            }
            let pos = match tail.append(&entry) {
                Ok(p) => p,
                Err(_) => {
                    proof {
                        assert(false);
                    }
                    CommandPos { file_id: 0, offset: 0, length: 0 }
                },
            };
            let bytes = entry.serialize();
            let el = bytes.len() as u64;
            new_segments.push(tail);
            let ghost journal_pre = self.journal@;
            self.journal.push(FileOp::Append { file_id: pos.file_id, bytes });
            let ghost nv1 = seg_views(new_segments@);
            proof {
                assert(nv1 =~= nv_pre.update(m - 1, (tfid, td + rec_encoding(rec))));
                lemma_log_last_append(Map::<Seq<char>, CommandPos>::empty(), nv_pre, rec);
                // the parsed log gains exactly this pair's record
                assert(all_recs(nv1) =~= pairs_recs(pairs@.take(t as int + 1))) by {
                    assert(pairs_recs(pairs@.take(t as int + 1)) =~= pairs_recs(
                        pairs@.take(t as int),
                    ).push(rec));
                }
                assert(all_recs(nv1).drop_last() =~= all_recs(nv_pre));
                assert(recs_bytes(all_recs(nv1)) == recs_bytes(all_recs(nv_pre)) + rec_encoding(
                    rec,
                ).len());
                // totals
                assert(nv1.drop_last() =~= nv_pre.drop_last());
                assert(total_bytes(nv1) == total_bytes(nv_pre.drop_last()) + (td + rec_encoding(
                    rec,
                )).len());
                assert(total_bytes(nv_pre) == total_bytes(nv_pre.drop_last()) + td.len());
                // the journal mirrors the same bytes onto the same file
                let ghost op = self.journal@.last();
                assert(self.journal@ == journal_pre.push(op));
                lemma_apply_ops_snoc(self.synced@, journal_pre, op);
                let ghost el_disk = segs_disk(segs_old);
                let ghost r_pre = segs_disk(nv_pre);
                let ghost prev = el_disk.union_prefer_right(r_pre);
                lemma_segs_disk_index(nv_pre, m - 1);
                assert(r_pre.contains_key(tfid));
                assert(r_pre[tfid] == td);
                assert(prev[tfid] == td);
                assert(apply_op(prev, op) == prev.insert(tfid, td + rec_encoding(rec)));
                assert(segs_disk(nv1) == segs_disk(nv_pre.drop_last()).insert(
                    tfid,
                    td + rec_encoding(rec),
                ));
                assert(segs_disk(nv_pre) == segs_disk(nv_pre.drop_last()).insert(tfid, td));
                assert(segs_disk(nv1) =~= r_pre.insert(tfid, td + rec_encoding(rec)));
                assert(prev.insert(tfid, td + rec_encoding(rec)) =~= el_disk.union_prefer_right(
                    segs_disk(nv1),
                ));
                // the fids are unchanged
                assert(fids_increasing(nv1)) by {
                    assert(forall|q: int|
                        0 <= q < nv1.len() ==> (#[trigger] nv1[q]).0 == nv_pre[q].0);
                }
                assert(forall|q: int| 0 <= q < m - 1 ==> (#[trigger] nv1[q]) == nv_pre[q]);
            }
            new_size = new_size + el;
            let ghost nes_pre = new_index.spec_entries();
            let ghost nim_pre = new_index@;
            let ghost kv = pairs@[t as int].0@;
            proof {
                assert(key_i@ == kv);
            }
            let existed = new_index.insert(key_i, pos);
            proof {
                assert(!existed) by {
                    if existed {
                        assert(nim_pre.contains_key(kv));
                        let q = choose|q: int| 0 <= q < t && (#[trigger] pairs@[q].0)@ == kv;
                        assert(false);
                    }
                }
                // one more live entry, holding exactly this record's bytes
                assert(new_index.spec_entries().drop_last() =~= nes_pre);
                assert(new_index.spec_entries().last().1 == pos);
                assert(pos.length == el);
                assert(crate::index::entries_live_bytes(new_index.spec_entries())
                    == crate::index::entries_live_bytes(nes_pre) + pos.length);
                assert(crate::index::entries_live_bytes(new_index.spec_entries())
                    == new_size as int);
                assert(new_index@ == nim_pre.insert(kv, pos));
                assert forall|k: Seq<char>| #[trigger] new_index@.contains_key(k) implies exists|q: int|
                    0 <= q < t + 1 && (#[trigger] pairs@[q].0)@ == k by {
                    if k == kv {
                        assert(pairs@[t as int].0@ == k);
                    } else {
                        assert(nim_pre.contains_key(k));
                    }
                }
                assert forall|k: Seq<char>|
                    (exists|q: int| 0 <= q < t + 1 && (#[trigger] pairs@[q].0)@ == k) implies #[trigger] new_index@.contains_key(
                    k,
                ) by {
                    let q = choose|q: int| 0 <= q < t + 1 && (#[trigger] pairs@[q].0)@ == k;
                    if q < t {
                        assert(nim_pre.contains_key(k));
                    }
                }
            }
            // roll to a fresh segment once the target crosses the cap
            let m2 = new_segments.len();
            let tail_size = new_segments[m2 - 1].size();
            if tail_size > self.max_segment_bytes {
                proof {
                    assert(seg_views(new_segments@)[m2 - 1] == new_segments@[m2 - 1]@);
                    assert(new_segments@[m2 - 1]@.0 == nv1.last().0);
                    assert(nv1.last().0 == nv_pre.last().0);
                    assert(nv1.last().0 as int + 1 <= active0 as int + 2 + t);
                    assert(new_segments@[m2 - 1].file_id < u64::MAX);
                }
                let next_fid = new_segments[m2 - 1].file_id + 1;
                new_segments.push(Segment::new(next_fid));
                let ghost journal_pre2 = self.journal@;
                self.journal.push(FileOp::Create { file_id: next_fid });
                let ghost nv2 = seg_views(new_segments@);
                proof {
                    assert(nv2 =~= nv1.push((next_fid, Seq::<u8>::empty())));
                    lemma_log_push_empty(Map::<Seq<char>, CommandPos>::empty(), nv1, next_fid);
                    lemma_log_snoc(
                        Map::<Seq<char>, CommandPos>::empty(),
                        nv1,
                        (next_fid, Seq::<u8>::empty()),
                    );
                    let ghost op2 = FileOp::Create { file_id: next_fid };
                    assert(self.journal@ == journal_pre2.push(op2));
                    lemma_apply_ops_snoc(self.synced@, journal_pre2, op2);
                    let ghost el_disk = segs_disk(segs_old);
                    assert(el_disk.union_prefer_right(segs_disk(nv1)).insert(
                        next_fid,
                        Seq::<u8>::empty(),
                    ) =~= el_disk.union_prefer_right(segs_disk(nv2)));
                    assert(fids_increasing(nv2)) by {
                        assert(forall|q: int|
                            0 <= q < nv1.len() ==> (#[trigger] nv2[q]) == nv1[q]);
                        assert(nv2[nv2.len() - 1].0 == next_fid);
                        assert(forall|q: int|
                            0 <= q < nv1.len() ==> (#[trigger] nv1[q]).0 <= nv1.last().0);
                    }
                    assert(recs_bytes(all_recs(nv2)) == recs_bytes(all_recs(nv1))) by {
                        assert(all_recs(nv2) =~= all_recs(nv1));
                    }
                }
            }
            t += 1;
        }
        // delete the old files, newest data being safely rewritten
        let ghost nv_final = seg_views(new_segments@);
        proof {
            assert(segs_old.skip(0) =~= segs_old);
        }
        let ndel = old_ids.len();
        let mut dd: usize = 0;
        while dd < ndel
            invariant
                0 <= dd <= ndel,
                ndel == old_ids@.len(),
                ndel == segs_old.len(),
                forall|q: int| 0 <= q < ndel ==> (#[trigger] old_ids@[q]) == segs_old[q].0,
                seg_views(new_segments@) == nv_final,
                seg_views(self.segments@) == segs_old,
                self.index.spec_entries() == entries0,
                self.size == old(self).size,
                self.max_segment_bytes == old(self).max_segment_bytes,
                self.compaction_threshold_bytes == old(self).compaction_threshold_bytes,
                self.synced@ == old(self).synced@,
                fids_increasing(segs_old),
                forall|q: int| 0 <= q < segs_old.len() ==> (#[trigger] segs_old[q]).0 <= active0,
                forall|q: int| 0 <= q < nv_final.len() ==> (#[trigger] nv_final[q]).0 > active0,
                apply_ops(self.synced@, self.journal@) == segs_disk(
                    segs_old.skip(dd as int),
                ).union_prefer_right(segs_disk(nv_final)),
            decreases ndel - dd,
        {
            let ghost journal_pre = self.journal@;
            let fid = old_ids[dd];
            self.journal.push(FileOp::Delete { file_id: fid });
            proof {
                let ghost op = FileOp::Delete { file_id: fid };
                assert(self.journal@ == journal_pre.push(op));
                lemma_apply_ops_snoc(self.synced@, journal_pre, op);
                let ghost rest = segs_old.skip(dd as int);
                assert(rest[0] == segs_old[dd as int]);
                assert(fid == rest[0].0);
                assert(fids_increasing(rest)) by {
                    assert(forall|a: int, b: int|
                        0 <= a < b < rest.len() ==> (#[trigger] rest[a]).0 < (#[trigger] rest[b]).0);
                }
                lemma_segs_disk_remove_first(rest);
                assert(rest.drop_first() =~= segs_old.skip(dd as int + 1));
                assert(!segs_disk(nv_final).contains_key(fid)) by {
                    lemma_segs_disk_dom(nv_final, fid);
                    if segs_disk(nv_final).contains_key(fid) {
                        let q = choose|q: int|
                            0 <= q < nv_final.len() && (#[trigger] nv_final[q]).0 == fid;
                        assert(nv_final[q].0 > active0);
                        assert(false);
                    }
                }
                assert(segs_disk(rest).union_prefer_right(segs_disk(nv_final)).remove(fid)
                    =~= segs_disk(rest).remove(fid).union_prefer_right(segs_disk(nv_final)));
            }
            dd += 1;
        }
        proof {
            assert(segs_old.skip(ndel as int) =~= Seq::<(u64, Seq<u8>)>::empty());
            assert(segs_disk(Seq::<(u64, Seq<u8>)>::empty()) == Map::<u64, Seq<u8>>::empty());
            assert(Map::<u64, Seq<u8>>::empty().union_prefer_right(segs_disk(nv_final))
                =~= segs_disk(nv_final));
        }
        // swap in the fresh state
        let ghost nim = new_index@;
        self.segments = new_segments;
        self.index = new_index;
        self.size = new_size;
        self.stale_entries = 0;
        self.compaction = false;
        proof {
            assert(pairs@.take(npairs as int) =~= pairs@);
            assert(entries0.take(npairs as int) =~= entries0);
            lemma_replay_pairs(pairs@);
            assert(self@ == view0) by {
                assert(all_recs(self.segs()) == pairs_recs(pairs@));
            }
            assert(recs_live(all_recs(self.segs()))) by {
                assert(all_recs(self.segs()) == pairs_recs(pairs@));
                assert(forall|q: int|
                    0 <= q < pairs_recs(pairs@).len() ==> (#[trigger] pairs_recs(pairs@)[q])
                        == pair_rec(pairs@[q]));
            }
            assert forall|k: Seq<char>| true implies (#[trigger] self.index@.contains_key(k)
                <==> crate::index::entries_map(entries0).contains_key(k)) by {
                crate::index::lemma_entries_map_has(entries0, k);
                if self.index@.contains_key(k) {
                    let q = choose|q: int| 0 <= q < npairs && (#[trigger] pairs@[q].0)@ == k;
                    assert(entries0[q].0@ == k);
                }
                if crate::index::entries_map(entries0).contains_key(k) {
                    let q = choose|q: int|
                        0 <= q < entries0.len() && (#[trigger] entries0[q].0)@ == k;
                    assert(pairs@[q].0@ == k);
                }
            }
        }
    }

    /// The active segment's file id.
    pub fn active_file_id(&self) -> (r: u64)
        requires
            self.wf(),
        ensures
            r == self.active_fid(),
    {
        let n = self.segments.len();
        proof {
            assert(seg_views(self.segments@)[n - 1] == self.segments@[n - 1]@);
        }
        self.segments[n - 1].file_id
    }

    /// The active segment's size in bytes.
    pub fn active_segment_size(&self) -> (r: u64)
        requires
            self.wf(),
        ensures
            r == self.active_len(),
    {
        let n = self.segments.len();
        proof {
            assert(seg_views(self.segments@)[n - 1] == self.segments@[n - 1]@);
        }
        self.segments[n - 1].size()
    }

    /// The total byte size of the log.
    pub fn total_size(&self) -> (r: u64)
        ensures
            r == self.size_spec(),
    {
        self.size
    }

    /// How many segments the log holds.
    pub fn segment_count(&self) -> (r: usize)
        ensures
            r == self.segs().len(),
    {
        self.segments.len()
    }

    /// How many stale events (overwrites and removals) the log has seen
    /// since the last compaction.
    pub fn stale_count(&self) -> (r: u64)
        ensures
            r == self.stale_spec(),
    {
        self.stale_entries
    }

    /// How many keys are live.
    pub fn key_count(&self) -> (r: usize)
        ensures
            r == self.index_len(),
    {
        self.index.len()
    }

    /// Hands over the file operations performed since the last call (or
    /// since open), in order; the shell applies them to the directory.  The
    /// store's state is unchanged.
    pub fn take_journal(&mut self) -> (r: Vec<FileOp>)
        requires
            old(self).wf(),
        ensures
            final(self).wf(),
            final(self)@ == old(self)@,
            final(self).index_view() == old(self).index_view(),
            final(self).segs() == old(self).segs(),
            r@ == old(self).journal_view(),
            final(self).journal_view() == Seq::<FileOp>::empty(),
            final(self).synced_disk() == apply_ops(old(self).synced_disk(), old(self).journal_view()),
    {
        let mut out: Vec<FileOp> = Vec::new();
        out.append(&mut self.journal);
        proof {
            self.synced@ = segs_disk(seg_views(self.segments@));
            assert(apply_ops(self.synced@, self.journal@) == self.synced@);
        }
        out
    }
}

} // verus!

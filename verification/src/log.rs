//! The mathematical model of the record log.
//!
//! A segment's contents are a byte sequence; records are parsed from offset
//! zero until the bytes stop forming a whole record (a torn tail).  Replaying
//! the records of all segments in file-id order, later records winning,
//! yields the visible key/value state; the same walk with positions yields
//! the in-memory index.

use crate::bytes::{le64_val, u64_le};
use vstd::prelude::*;
use vstd::utf8::{decode_utf8, encode_utf8, valid_utf8};

verus! {

/// A log record, as mathematics.  A record with an empty value is a
/// tombstone: it removes the key.
pub ghost struct RecG {
    pub key: Seq<char>,
    pub value: Seq<char>,
}

/// Whether the record sets a value (rather than removing the key).
pub open spec fn rec_is_set(r: RecG) -> bool {
    r.value.len() > 0
}

/// The on-disk encoding of a record:
/// `key_len (u64 LE) | value_len (u64 LE) | key bytes | value bytes`,
/// the lengths counting UTF-8 bytes.
pub open spec fn rec_encoding(r: RecG) -> Seq<u8> {
    u64_le(encode_utf8(r.key).len() as u64) + u64_le(encode_utf8(r.value).len() as u64)
        + encode_utf8(r.key) + encode_utf8(r.value)
}

/// The key length claimed by the record header at offset `i`.
pub open spec fn rec_klen(d: Seq<u8>, i: int) -> u64 {
    le64_val(d.subrange(i, i + 8))
}

/// The value length claimed by the record header at offset `i`.
pub open spec fn rec_vlen(d: Seq<u8>, i: int) -> u64 {
    le64_val(d.subrange(i + 8, i + 16))
}

/// The total byte length of the record at offset `i`.
pub open spec fn rec_size(d: Seq<u8>, i: int) -> int {
    16 + rec_klen(d, i) + rec_vlen(d, i)
}

/// The key bytes of the record at offset `i`.
pub open spec fn rec_key_bytes(d: Seq<u8>, i: int) -> Seq<u8> {
    d.subrange(i + 16, i + 16 + rec_klen(d, i))
}

/// The value bytes of the record at offset `i`.
pub open spec fn rec_value_bytes(d: Seq<u8>, i: int) -> Seq<u8> {
    d.subrange(i + 16 + rec_klen(d, i), i + rec_size(d, i))
}

/// Whether a whole, well-formed record lies at offset `i`: the header fits,
/// the claimed lengths fit, and both fields are valid UTF-8.
pub open spec fn can_parse_at(d: Seq<u8>, i: int) -> bool {
    &&& 0 <= i
    &&& i + 16 <= d.len()
    &&& i + rec_size(d, i) <= d.len()
    &&& valid_utf8(rec_key_bytes(d, i))
    &&& valid_utf8(rec_value_bytes(d, i))
}

/// The record at offset `i`.
pub open spec fn rec_at(d: Seq<u8>, i: int) -> RecG {
    RecG { key: decode_utf8(rec_key_bytes(d, i)), value: decode_utf8(rec_value_bytes(d, i)) }
}

/// The records parsed from offset `i` up to the torn tail.
pub open spec fn recs_from(d: Seq<u8>, i: int) -> Seq<RecG>
    decreases d.len() - i,
{
    if can_parse_at(d, i) {
        seq![rec_at(d, i)] + recs_from(d, i + rec_size(d, i))
    } else {
        Seq::empty()
    }
}

/// The offset at which parsing from `i` stops.
pub open spec fn end_from(d: Seq<u8>, i: int) -> int
    decreases d.len() - i,
{
    if can_parse_at(d, i) {
        end_from(d, i + rec_size(d, i))
    } else {
        i
    }
}

/// The records of a whole segment.
pub open spec fn seg_recs(d: Seq<u8>) -> Seq<RecG> {
    recs_from(d, 0)
}

/// Whether a segment's bytes are exactly a concatenation of whole records.
pub open spec fn seg_clean(d: Seq<u8>) -> bool {
    end_from(d, 0) == d.len()
}

/// The effect of one record on the visible state.
pub open spec fn apply_rec(m: Map<Seq<char>, Seq<char>>, r: RecG) -> Map<Seq<char>, Seq<char>> {
    if rec_is_set(r) {
        m.insert(r.key, r.value)
    } else {
        m.remove(r.key)
    }
}

/// The visible state after replaying `rs` on top of `m`, in order, later
/// records winning.
pub open spec fn replay(m: Map<Seq<char>, Seq<char>>, rs: Seq<RecG>) -> Map<Seq<char>, Seq<char>>
    decreases rs.len(),
{
    if rs.len() == 0 {
        m
    } else {
        replay(apply_rec(m, rs[0]), rs.drop_first())
    }
}

/// A position in the log: which file, where in the file, and how many bytes.
#[derive(Debug, Clone, Copy, PartialEq, Eq, Structural)]
pub struct CommandPos {
    /// Which file.
    pub file_id: u64,
    /// Where in the file the record starts.
    pub offset: u64,
    /// The whole record's byte length.
    pub length: u64,
}

/// The effect of one record at position `p` on the index.
pub open spec fn index_apply(im: Map<Seq<char>, CommandPos>, r: RecG, p: CommandPos) -> Map<
    Seq<char>,
    CommandPos,
> {
    if rec_is_set(r) {
        im.insert(r.key, p)
    } else {
        im.remove(r.key)
    }
}

/// The index after walking segment `fid` with contents `d` from offset `i`.
pub open spec fn index_from(im: Map<Seq<char>, CommandPos>, fid: u64, d: Seq<u8>, i: int) -> Map<
    Seq<char>,
    CommandPos,
>
    decreases d.len() - i,
{
    if can_parse_at(d, i) {
        index_from(
            index_apply(
                im,
                rec_at(d, i),
                CommandPos { file_id: fid, offset: i as u64, length: rec_size(d, i) as u64 },
            ),
            fid,
            d,
            i + rec_size(d, i),
        )
    } else {
        im
    }
}

/// The index after walking a sequence of segments, given as
/// (file id, contents) pairs, in order.
pub open spec fn log_index_from(
    im: Map<Seq<char>, CommandPos>,
    segs: Seq<(u64, Seq<u8>)>,
) -> Map<Seq<char>, CommandPos>
    decreases segs.len(),
{
    if segs.len() == 0 {
        im
    } else {
        log_index_from(index_from(im, segs[0].0, segs[0].1, 0), segs.drop_first())
    }
}

/// The index rebuilt from scratch over a whole log.
pub open spec fn log_index(segs: Seq<(u64, Seq<u8>)>) -> Map<Seq<char>, CommandPos> {
    log_index_from(Map::empty(), segs)
}

/// All records of a whole log, in order.
pub open spec fn all_recs(segs: Seq<(u64, Seq<u8>)>) -> Seq<RecG>
    decreases segs.len(),
{
    if segs.len() == 0 {
        Seq::empty()
    } else {
        seg_recs(segs[0].1) + all_recs(segs.drop_first())
    }
}

/// The visible state of a whole log: its records replayed in order.
pub open spec fn log_view(segs: Seq<(u64, Seq<u8>)>) -> Map<Seq<char>, Seq<char>> {
    replay(Map::empty(), all_recs(segs))
}

/// Parsing never stops before the offset it started from.
pub proof fn lemma_end_from_ge(d: Seq<u8>, i: int)
    requires
        0 <= i,
    ensures
        end_from(d, i) >= i,
        end_from(d, i) <= d.len() || end_from(d, i) == i,
    decreases d.len() - i,
{
    if can_parse_at(d, i) {
        lemma_end_from_ge(d, i + rec_size(d, i));
    }
}

/// Cutting a byte sequence at the offset where parsing stops changes
/// neither the records parsed, nor the stop offset, nor any index walk.
pub proof fn lemma_parse_truncate(im: Map<Seq<char>, CommandPos>, fid: u64, d: Seq<u8>, i: int)
    requires
        0 <= i <= end_from(d, 0) <= d.len(),
        end_from(d, i) == end_from(d, 0),
    ensures
        ({
            let t = d.subrange(0, end_from(d, 0));
            &&& recs_from(t, i) =~= recs_from(d, i)
            &&& end_from(t, i) == end_from(d, i)
            &&& index_from(im, fid, t, i) == index_from(im, fid, d, i)
        }),
    decreases d.len() - i,
{
    let e = end_from(d, 0);
    let t = d.subrange(0, e);
    if can_parse_at(d, i) {
        let sz = rec_size(d, i);
        lemma_end_from_ge(d, i + sz);
        assert(end_from(d, i + sz) == e);
        assert(i + sz <= e);
        assert(t.subrange(i, i + 8) =~= d.subrange(i, i + 8));
        assert(t.subrange(i + 8, i + 16) =~= d.subrange(i + 8, i + 16));
        assert(rec_key_bytes(t, i) =~= rec_key_bytes(d, i));
        assert(rec_value_bytes(t, i) =~= rec_value_bytes(d, i));
        assert(can_parse_at(t, i));
        lemma_parse_truncate(
            index_apply(
                im,
                rec_at(d, i),
                (CommandPos { file_id: fid, offset: i as u64, length: sz as u64 }),
            ),
            fid,
            d,
            i + sz,
        );
        assert(recs_from(t, i) =~= seq![rec_at(t, i)] + recs_from(t, i + sz));
        assert(recs_from(d, i) =~= seq![rec_at(d, i)] + recs_from(d, i + sz));
    } else {
        assert(i == end_from(d, i));
        assert(i == e);
        assert(t.len() == e);
        assert(!can_parse_at(t, i)) by {
            assert(i + 16 > t.len());
        }
        assert(recs_from(t, i) =~= Seq::<RecG>::empty());
        assert(recs_from(d, i) =~= Seq::<RecG>::empty());
    }
}

/// The total encoded length of a sequence of records.
pub open spec fn recs_bytes(rs: Seq<RecG>) -> int
    decreases rs.len(),
{
    if rs.len() == 0 {
        0
    } else {
        recs_bytes(rs.drop_last()) + rec_encoding(rs.last()).len()
    }
}

/// Whether every record is a live `Set`: no tombstones, no key twice.
pub open spec fn recs_live(rs: Seq<RecG>) -> bool {
    &&& forall|t: int| 0 <= t < rs.len() ==> rec_is_set(#[trigger] rs[t])
    &&& forall|a: int, b: int| 0 <= a < b < rs.len() ==> (#[trigger] rs[a]).key != (#[trigger] rs[b]).key
}

/// Every write in a batch of live records (all `Set`, no key twice) is
/// readable afterwards: replaying the batch maps each record's key to its
/// own value, whatever state it started from.
pub proof fn lemma_live_writes_all_readable(m: Map<Seq<char>, Seq<char>>, rs: Seq<RecG>, i: int)
    requires
        recs_live(rs),
        0 <= i < rs.len(),
    ensures
        replay(m, rs).contains_key(rs[i].key),
        replay(m, rs)[rs[i].key] == rs[i].value,
    decreases rs.len(),
{
    lemma_replay_snoc(m, rs.drop_last(), rs.last());
    assert(rs.drop_last().push(rs.last()) =~= rs);
    if i == rs.len() - 1 {
    } else {
        assert(rs[i].key != rs.last().key);
        lemma_live_writes_all_readable(m, rs.drop_last(), i);
        assert(rs.drop_last()[i] == rs[i]);
    }
}

/// A parsed record re-encodes to exactly the bytes it was parsed from.
pub proof fn lemma_rec_at_encoding(d: Seq<u8>, i: int)
    requires
        can_parse_at(d, i),
    ensures
        rec_encoding(rec_at(d, i)) == d.subrange(i, i + rec_size(d, i)),
        rec_encoding(rec_at(d, i)).len() == rec_size(d, i),
{
    let kb = rec_key_bytes(d, i);
    let vb = rec_value_bytes(d, i);
    vstd::utf8::decode_utf8_encode_utf8(kb);
    vstd::utf8::decode_utf8_encode_utf8(vb);
    crate::bytes::lemma_le64_canonical(d.subrange(i, i + 8));
    crate::bytes::lemma_le64_canonical(d.subrange(i + 8, i + 16));
    assert(kb.len() == rec_klen(d, i));
    assert(vb.len() == rec_vlen(d, i));
    assert(rec_encoding(rec_at(d, i)) =~= d.subrange(i, i + rec_size(d, i)));
}

/// A valid UTF-8 byte sequence decodes to an empty character sequence
/// exactly when it is itself empty.
pub proof fn lemma_decode_utf8_len_zero(b: Seq<u8>)
    requires
        valid_utf8(b),
    ensures
        decode_utf8(b).len() == 0 <==> b.len() == 0,
{
}

/// Round trip: a record's encoding parses back to the record, consuming all
/// of the encoding.
pub proof fn lemma_round_trip(r: RecG)
    requires
        encode_utf8(r.key).len() <= u64::MAX,
        encode_utf8(r.value).len() <= u64::MAX,
    ensures
        can_parse_at(rec_encoding(r), 0),
        rec_at(rec_encoding(r), 0) == r,
        rec_size(rec_encoding(r), 0) == rec_encoding(r).len(),
{
    lemma_parse_encoding(Seq::empty(), r);
    assert(Seq::<u8>::empty() + rec_encoding(r) =~= rec_encoding(r));
}

/// A UTF-8 encoding is empty exactly when the character sequence is.
pub proof fn lemma_encode_utf8_len_zero(s: Seq<char>)
    ensures
        encode_utf8(s).len() == 0 <==> s.len() == 0,
{
    if s.len() > 0 {
        vstd::utf8::char_is_scalar(s[0]);
    }
}

/// A record already parsed is unchanged when bytes are appended after it.
pub proof fn lemma_parse_at_stable(d: Seq<u8>, ext: Seq<u8>, i: int)
    requires
        can_parse_at(d, i),
    ensures
        can_parse_at(d + ext, i),
        rec_size(d + ext, i) == rec_size(d, i),
        rec_at(d + ext, i) == rec_at(d, i),
{
    let e = d + ext;
    assert(e.subrange(i, i + 8) =~= d.subrange(i, i + 8));
    assert(e.subrange(i + 8, i + 16) =~= d.subrange(i + 8, i + 16));
    assert(rec_key_bytes(e, i) =~= rec_key_bytes(d, i));
    assert(rec_value_bytes(e, i) =~= rec_value_bytes(d, i));
}

/// The bytes of a record, cut out of the log, parse to the same record.
pub proof fn lemma_parse_at_slice(d: Seq<u8>, i: int)
    requires
        can_parse_at(d, i),
    ensures
        ({
            let s = d.subrange(i, i + rec_size(d, i));
            &&& can_parse_at(s, 0)
            &&& rec_size(s, 0) == rec_size(d, i)
            &&& rec_at(s, 0) == rec_at(d, i)
            &&& rec_vlen(s, 0) == rec_vlen(d, i)
        }),
{
    let s = d.subrange(i, i + rec_size(d, i));
    assert(s.subrange(0, 8) =~= d.subrange(i, i + 8));
    assert(s.subrange(8, 16) =~= d.subrange(i + 8, i + 16));
    assert(rec_key_bytes(s, 0) =~= rec_key_bytes(d, i));
    assert(rec_value_bytes(s, 0) =~= rec_value_bytes(d, i));
}

/// A record's encoding, appended after any prefix, parses back to the
/// record and consumes exactly the encoding.
pub proof fn lemma_parse_encoding(d: Seq<u8>, r: RecG)
    requires
        encode_utf8(r.key).len() <= u64::MAX,
        encode_utf8(r.value).len() <= u64::MAX,
    ensures
        ({
            let e = d + rec_encoding(r);
            let i = d.len() as int;
            &&& can_parse_at(e, i)
            &&& rec_at(e, i) == r
            &&& rec_size(e, i) == rec_encoding(r).len()
            &&& (rec_vlen(e, i) == 0 <==> r.value.len() == 0)
        }),
{
    let kb = encode_utf8(r.key);
    let vb = encode_utf8(r.value);
    let kl = kb.len() as u64;
    let vl = vb.len() as u64;
    let enc = rec_encoding(r);
    let e = d + enc;
    let i = d.len() as int;
    assert(e.subrange(i, i + 8) =~= u64_le(kl));
    assert(e.subrange(i + 8, i + 16) =~= u64_le(vl));
    crate::bytes::lemma_le64_round_trip(kl);
    crate::bytes::lemma_le64_round_trip(vl);
    assert(rec_klen(e, i) == kl);
    assert(rec_vlen(e, i) == vl);
    assert(rec_key_bytes(e, i) =~= kb);
    assert(rec_value_bytes(e, i) =~= vb);
    vstd::utf8::encode_utf8_valid_utf8(r.key);
    vstd::utf8::encode_utf8_valid_utf8(r.value);
    vstd::utf8::encode_utf8_decode_utf8(r.key);
    vstd::utf8::encode_utf8_decode_utf8(r.value);
    lemma_encode_utf8_len_zero(r.value);
}

/// Appending one record's encoding to a cleanly-parsed byte sequence
/// appends exactly that record to its parse, keeps the sequence clean, and
/// applies the record once to any index walk.
pub proof fn lemma_log_append(
    im: Map<Seq<char>, CommandPos>,
    fid: u64,
    d: Seq<u8>,
    r: RecG,
    i: int,
)
    requires
        0 <= i <= d.len(),
        d.len() <= u64::MAX,
        end_from(d, i) == d.len(),
        encode_utf8(r.key).len() <= u64::MAX,
        encode_utf8(r.value).len() <= u64::MAX,
        rec_encoding(r).len() <= u64::MAX,
    ensures
        ({
            let e = d + rec_encoding(r);
            &&& recs_from(e, i) =~= recs_from(d, i).push(r)
            &&& end_from(e, i) == e.len()
            &&& index_from(im, fid, e, i) == index_apply(
                index_from(im, fid, d, i),
                r,
                (CommandPos {
                    file_id: fid,
                    offset: d.len() as u64,
                    length: rec_encoding(r).len() as u64,
                }),
            )
        }),
    decreases d.len() - i,
{
    let enc = rec_encoding(r);
    let e = d + enc;
    if can_parse_at(d, i) {
        let sz = rec_size(d, i);
        let r0 = rec_at(d, i);
        let p0 = CommandPos { file_id: fid, offset: i as u64, length: sz as u64 };
        lemma_parse_at_stable(d, enc, i);
        lemma_log_append(index_apply(im, r0, p0), fid, d, r, i + sz);
        assert(recs_from(e, i) =~= seq![r0] + recs_from(e, i + sz));
        assert(recs_from(d, i) =~= seq![r0] + recs_from(d, i + sz));
        assert(recs_from(e, i) =~= recs_from(d, i).push(r));
    } else {
        assert(i == d.len());
        lemma_parse_encoding(d, r);
        assert(can_parse_at(e, i));
        assert(rec_size(e, i) == enc.len());
        let i2 = i + enc.len();
        assert(i2 == e.len());
        assert(!can_parse_at(e, i2));
        assert(recs_from(e, i2) =~= Seq::<RecG>::empty());
        assert(recs_from(e, i) =~= seq![r]);
        assert(recs_from(d, i) =~= Seq::<RecG>::empty());
        assert(recs_from(e, i) =~= recs_from(d, i).push(r));
        assert(end_from(e, i2) == i2);
        assert(end_from(e, i) == end_from(e, i2));
        let p = CommandPos {
            file_id: fid,
            offset: d.len() as u64,
            length: rec_encoding(r).len() as u64,
        };
        assert(rec_at(e, i) == r);
        assert(i as u64 == d.len() as u64);
        assert(index_from(im, fid, e, i2) == im);
        let p2 = CommandPos { file_id: fid, offset: i as u64, length: rec_size(e, i) as u64 };
        assert(index_from(im, fid, e, i) == index_from(
            index_apply(im, rec_at(e, i), p2),
            fid,
            e,
            i + rec_size(e, i),
        ));
        assert(index_from(index_apply(im, r, p2), fid, e, i2) == index_apply(im, r, p2));
        assert(p2 == p);
        assert(index_from(im, fid, e, i) == index_apply(im, r, p));
        assert(index_from(im, fid, d, i) == im);
    }
}

/// Replaying a sequence with one more record at its end applies that record
/// to the replay of the sequence.
pub proof fn lemma_replay_snoc(m: Map<Seq<char>, Seq<char>>, rs: Seq<RecG>, r: RecG)
    ensures
        replay(m, rs.push(r)) == apply_rec(replay(m, rs), r),
    decreases rs.len(),
{
    if rs.len() == 0 {
        assert(rs.push(r)[0] == r);
        assert(rs.push(r).drop_first() =~= Seq::<RecG>::empty());
        assert(replay(apply_rec(m, r), Seq::<RecG>::empty()) == apply_rec(m, r));
        assert(replay(m, rs) == m);
    } else {
        assert(rs.push(r)[0] == rs[0]);
        assert(rs.push(r).drop_first() =~= rs.drop_first().push(r));
        lemma_replay_snoc(apply_rec(m, rs[0]), rs.drop_first(), r);
    }
}

/// Replaying a concatenation replays the first part, then the second: a
/// store reopened after further operations observes the state those
/// operations left, applied in order on top of the earlier state.
pub proof fn lemma_replay_concat(m: Map<Seq<char>, Seq<char>>, a: Seq<RecG>, b: Seq<RecG>)
    ensures
        replay(m, a + b) == replay(replay(m, a), b),
    decreases a.len(),
{
    if a.len() == 0 {
        assert(a + b =~= b);
    } else {
        assert((a + b)[0] == a[0]);
        assert((a + b).drop_first() =~= a.drop_first() + b);
        lemma_replay_concat(apply_rec(m, a[0]), a.drop_first(), b);
    }
}

/// Whether position `p` points at a live `Set` record for key `k` with value
/// `v` inside the given segment.
pub open spec fn pos_points_to(seg: (u64, Seq<u8>), p: CommandPos, k: Seq<char>, v: Seq<char>) -> bool {
    &&& seg.0 == p.file_id
    &&& can_parse_at(seg.1, p.offset as int)
    &&& rec_size(seg.1, p.offset as int) == p.length
    &&& rec_at(seg.1, p.offset as int) == (RecG { key: k, value: v })
    &&& v.len() > 0
}

/// Whether position `p` points at a live `Set` record for `k`/`v` in some
/// segment of the log.
pub open spec fn pos_valid(segs: Seq<(u64, Seq<u8>)>, p: CommandPos, k: Seq<char>, v: Seq<char>) -> bool {
    exists|j: int| 0 <= j < segs.len() && #[trigger] pos_points_to(segs[j], p, k, v)
}

/// Whether the index and the visible state agree over the log: they have
/// the same keys, and each indexed position points at a whole `Set` record
/// holding the key's visible value.
pub open spec fn coherent(
    segs: Seq<(u64, Seq<u8>)>,
    im: Map<Seq<char>, CommandPos>,
    m: Map<Seq<char>, Seq<char>>,
) -> bool {
    &&& forall|k: Seq<char>| #[trigger] im.contains_key(k) ==> m.contains_key(k)
    &&& forall|k: Seq<char>| #[trigger] m.contains_key(k) ==> im.contains_key(k) && pos_valid(
        segs,
        im[k],
        k,
        m[k],
    )
}

proof fn lemma_seg_coherent(
    segs: Seq<(u64, Seq<u8>)>,
    j: int,
    i: int,
    im: Map<Seq<char>, CommandPos>,
    m: Map<Seq<char>, Seq<char>>,
)
    requires
        0 <= j < segs.len(),
        0 <= i,
        segs[j].1.len() <= u64::MAX,
        coherent(segs, im, m),
    ensures
        coherent(segs, index_from(im, segs[j].0, segs[j].1, i), replay(m, recs_from(segs[j].1, i))),
    decreases segs[j].1.len() - i,
{
    let d = segs[j].1;
    let fid = segs[j].0;
    if can_parse_at(d, i) {
        let r = rec_at(d, i);
        let sz = rec_size(d, i);
        let p = CommandPos { file_id: fid, offset: i as u64, length: sz as u64 };
        let im2 = index_apply(im, r, p);
        let m2 = apply_rec(m, r);
        if rec_is_set(r) {
            assert(i <= u64::MAX && sz <= u64::MAX);
            assert(p.offset as int == i);
            assert(p.length as int == sz);
            assert(rec_at(d, i) == (RecG { key: r.key, value: r.value }));
            assert(pos_points_to(segs[j], p, r.key, r.value));
        }
        assert(coherent(segs, im2, m2));
        lemma_seg_coherent(segs, j, i + sz, im2, m2);
        assert(recs_from(d, i) =~= seq![r] + recs_from(d, i + sz));
        assert((seq![r] + recs_from(d, i + sz)).drop_first() =~= recs_from(d, i + sz));
        assert(replay(m, recs_from(d, i)) == replay(m2, recs_from(d, i + sz)));
    } else {
        assert(recs_from(d, i) =~= Seq::<RecG>::empty());
    }
}

proof fn lemma_log_coherent_from(
    segs: Seq<(u64, Seq<u8>)>,
    j: int,
    im: Map<Seq<char>, CommandPos>,
    m: Map<Seq<char>, Seq<char>>,
)
    requires
        0 <= j <= segs.len(),
        forall|t: int| 0 <= t < segs.len() ==> (#[trigger] segs[t].1).len() <= u64::MAX,
        coherent(segs, im, m),
    ensures
        coherent(
            segs,
            log_index_from(im, segs.subrange(j, segs.len() as int)),
            replay(m, all_recs(segs.subrange(j, segs.len() as int))),
        ),
    decreases segs.len() - j,
{
    let suffix = segs.subrange(j, segs.len() as int);
    if j == segs.len() {
        assert(suffix =~= Seq::<(u64, Seq<u8>)>::empty());
    } else {
        assert(suffix[0] == segs[j]);
        lemma_seg_coherent(segs, j, 0, im, m);
        let im2 = index_from(im, segs[j].0, segs[j].1, 0);
        let m2 = replay(m, seg_recs(segs[j].1));
        lemma_log_coherent_from(segs, j + 1, im2, m2);
        assert(suffix.drop_first() =~= segs.subrange(j + 1, segs.len() as int));
        lemma_replay_concat(m, seg_recs(segs[j].1), all_recs(suffix.drop_first()));
        assert(all_recs(suffix) == seg_recs(suffix[0].1) + all_recs(suffix.drop_first()));
    }
}

/// The index rebuilt from a log agrees with the log's visible state: both
/// hold the same keys, and each indexed position reads back as a whole
/// `Set` record carrying that key's most recent value.
pub proof fn lemma_log_coherent(segs: Seq<(u64, Seq<u8>)>)
    requires
        forall|t: int| 0 <= t < segs.len() ==> (#[trigger] segs[t].1).len() <= u64::MAX,
    ensures
        coherent(segs, log_index(segs), log_view(segs)),
{
    let im0 = Map::<Seq<char>, CommandPos>::empty();
    let m0 = Map::<Seq<char>, Seq<char>>::empty();
    assert(coherent(segs, im0, m0));
    lemma_log_coherent_from(segs, 0, im0, m0);
    assert(segs.subrange(0, segs.len() as int) =~= segs);
}

/// Appending one record's encoding to the last segment of a log appends the
/// record to the log's record sequence and applies it once to the index.
pub proof fn lemma_log_last_append(im: Map<Seq<char>, CommandPos>, segs: Seq<(u64, Seq<u8>)>, r: RecG)
    requires
        segs.len() > 0,
        seg_clean(segs.last().1),
        segs.last().1.len() <= u64::MAX,
        encode_utf8(r.key).len() <= u64::MAX,
        encode_utf8(r.value).len() <= u64::MAX,
        rec_encoding(r).len() <= u64::MAX,
    ensures
        ({
            let last = segs.last();
            let segs2 = segs.update(segs.len() - 1, (last.0, last.1 + rec_encoding(r)));
            &&& all_recs(segs2) =~= all_recs(segs).push(r)
            &&& seg_clean(segs2.last().1)
            &&& log_index_from(im, segs2) == index_apply(
                log_index_from(im, segs),
                r,
                (CommandPos {
                    file_id: last.0,
                    offset: last.1.len() as u64,
                    length: rec_encoding(r).len() as u64,
                }),
            )
        }),
    decreases segs.len(),
{
    let last = segs.last();
    let segs2 = segs.update(segs.len() - 1, (last.0, last.1 + rec_encoding(r)));
    if segs.len() == 1 {
        lemma_log_append(im, last.0, last.1, r, 0);
        assert(segs[0] == last);
        assert(segs2[0] == (last.0, last.1 + rec_encoding(r)));
        assert(segs2.drop_first() =~= Seq::<(u64, Seq<u8>)>::empty());
        assert(segs.drop_first() =~= Seq::<(u64, Seq<u8>)>::empty());
        assert(all_recs(Seq::<(u64, Seq<u8>)>::empty()) =~= Seq::<RecG>::empty());
        assert(all_recs(segs2) == seg_recs(segs2[0].1) + all_recs(segs2.drop_first()));
        assert(all_recs(segs2) =~= seg_recs(segs2[0].1));
        assert(all_recs(segs) == seg_recs(segs[0].1) + all_recs(segs.drop_first()));
        assert(all_recs(segs) =~= seg_recs(segs[0].1));
        assert(log_index_from(im, segs2) == log_index_from(
            index_from(im, segs2[0].0, segs2[0].1, 0),
            segs2.drop_first(),
        ));
        assert(log_index_from(im, segs) == log_index_from(
            index_from(im, segs[0].0, segs[0].1, 0),
            segs.drop_first(),
        ));
    } else {
        assert(segs2[0] == segs[0]);
        let im2 = index_from(im, segs[0].0, segs[0].1, 0);
        lemma_log_last_append(im2, segs.drop_first(), r);
        assert(segs2.drop_first() =~= segs.drop_first().update(
            segs.drop_first().len() - 1,
            (last.0, last.1 + rec_encoding(r)),
        ));
        assert(segs.drop_first().last() == last);
        assert(all_recs(segs2) == seg_recs(segs2[0].1) + all_recs(segs2.drop_first()));
        assert(all_recs(segs2) =~= all_recs(segs).push(r));
    }
}

/// Pushing an empty segment onto a log changes neither its records nor any
/// index walk over it.
pub proof fn lemma_log_push_empty(im: Map<Seq<char>, CommandPos>, segs: Seq<(u64, Seq<u8>)>, fid: u64)
    ensures
        all_recs(segs.push((fid, Seq::empty()))) =~= all_recs(segs),
        log_index_from(im, segs.push((fid, Seq::empty()))) == log_index_from(im, segs),
        seg_clean(Seq::<u8>::empty()),
    decreases segs.len(),
{
    let segs2 = segs.push((fid, Seq::<u8>::empty()));
    if segs.len() == 0 {
        assert(segs2[0] == (fid, Seq::<u8>::empty()));
        assert(!can_parse_at(Seq::<u8>::empty(), 0));
        assert(seg_recs(Seq::<u8>::empty()) =~= Seq::<RecG>::empty());
        assert(index_from(im, fid, Seq::<u8>::empty(), 0) == im);
        assert(segs2.drop_first() =~= Seq::<(u64, Seq<u8>)>::empty());
        assert(all_recs(Seq::<(u64, Seq<u8>)>::empty()) =~= Seq::<RecG>::empty());
        assert(all_recs(segs2) == seg_recs(segs2[0].1) + all_recs(segs2.drop_first()));
        assert(all_recs(segs2) =~= Seq::<RecG>::empty());
        assert(all_recs(segs) =~= Seq::<RecG>::empty());
        assert(log_index_from(im, segs2) == log_index_from(
            index_from(im, fid, Seq::<u8>::empty(), 0),
            segs2.drop_first(),
        ));
        assert(log_index_from(im, segs2) == im);
        assert(log_index_from(im, segs) == im);
    } else {
        assert(segs2[0] == segs[0]);
        assert(segs2.drop_first() =~= segs.drop_first().push((fid, Seq::<u8>::empty())));
        lemma_log_push_empty(index_from(im, segs[0].0, segs[0].1, 0), segs.drop_first(), fid);
        assert(all_recs(segs2) == seg_recs(segs2[0].1) + all_recs(segs2.drop_first()));
        assert(all_recs(segs) == seg_recs(segs[0].1) + all_recs(segs.drop_first()));
        assert(all_recs(segs2) =~= all_recs(segs));
    }
}

} // verus!

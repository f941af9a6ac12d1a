//! The log-structured store: numbered append-only segments of records, an
//! index from key to the place of its latest value, recovery by replaying
//! the segments, and compaction.
//!
//! This type decides; the caller performs the file operations it hands out
//! (append these bytes to the active segment, write the compacted segment,
//! unlink older segments). The ghost segment contents are what the files
//! hold when the caller has done so.
use vstd::prelude::*;
use vstd::bytes::*;
use vstd::utf8::*;
use crate::codec::{DecodeError, Entry, EntryView, TAG_SET, entry_bytes, entry_fits, field_bytes, lemma_entry_round_trip, parse_entry, parse_field, parse_text, read_entry, text_bytes};
use crate::error::KvsError;
use crate::history::{Op, apply_op, apply_ops, law_get_after_set, untouched};
use crate::index::{Slot, SlotIndex, key_before, index_entries, index_get, index_insert, index_new, index_remove, slot_map};

verus! {

broadcast use vstd::utf8::group_utf8_lib;

/// Stale bytes beyond which the store asks for compaction.
pub const COMPACTION_THRESHOLD: u64 = 1048576;

/// Where a record lies: segment id, byte offset, byte length.
#[derive(Clone, Copy, PartialEq, Eq, Structural, Debug)]
pub struct Position {
    pub log_no: u64,
    pub offset: u64,
    pub size: u64,
}

/// The position that an index slot stands for.
pub open spec fn position_of(s: Slot) -> Position {
    Position { log_no: s.0, offset: s.1, size: s.2 }
}

/// The bytes of segment `id` (empty where there is none).
pub open spec fn segment_bytes(segs: Seq<(u64, Seq<u8>)>, id: u64) -> Seq<u8>
    decreases segs.len(),
{
    if segs.len() == 0 {
        Seq::empty()
    } else if segs.last().0 == id {
        segs.last().1
    } else {
        segment_bytes(segs.drop_last(), id)
    }
}

/// Whether there is a segment `id`.
pub open spec fn has_segment(segs: Seq<(u64, Seq<u8>)>, id: u64) -> bool
    decreases segs.len(),
{
    if segs.len() == 0 {
        false
    } else if segs.last().0 == id {
        true
    } else {
        has_segment(segs.drop_last(), id)
    }
}

/// Segment ids strictly ascend.
pub open spec fn ids_ascending(segs: Seq<(u64, Seq<u8>)>) -> bool {
    forall|i: int, j: int| 0 <= i < j < segs.len() ==> segs[i].0 < segs[j].0
}

/// Every segment is shorter than 2^64 bytes.
pub open spec fn segments_fit(segs: Seq<(u64, Seq<u8>)>) -> bool {
    forall|i: int| 0 <= i < segs.len() ==> #[trigger] segs[i].1.len() <= u64::MAX
}

/// The bytes a position covers.
pub open spec fn record_at(segs: Seq<(u64, Seq<u8>)>, p: Position) -> Seq<u8> {
    segment_bytes(segs, p.log_no).subrange(p.offset as int, p.offset + p.size)
}

/// The position covers exactly one value record of key `k`.
pub open spec fn holds_value_of(segs: Seq<(u64, Seq<u8>)>, k: Seq<char>, p: Position) -> bool {
    &&& has_segment(segs, p.log_no)
    &&& p.offset + p.size <= segment_bytes(segs, p.log_no).len()
    &&& match parse_entry(record_at(segs, p)) {
        Ok((EntryView::Put(k2, _), n)) => k2 == k && n == p.size,
        _ => false,
    }
}

/// The value a record carries (empty if it is no value record).
pub open spec fn value_in(record: Seq<u8>) -> Seq<char> {
    match parse_entry(record) {
        Ok((EntryView::Put(_, v), _)) => v,
        _ => Seq::empty(),
    }
}

/// The index after one record of segment `id` at `off`, `n` bytes long.
pub open spec fn apply_record(
    m: Map<Seq<char>, Slot>,
    id: u64,
    e: EntryView,
    off: int,
    n: int,
) -> Map<Seq<char>, Slot> {
    match e {
        EntryView::Put(k, _) => m.insert(k, (id, off as u64, n as u64)),
        EntryView::Remove(k) => m.remove(k),
    }
}

/// The index after replaying the records of segment `id` from `off` on.
pub open spec fn replay_from(m: Map<Seq<char>, Slot>, id: u64, b: Seq<u8>, off: int) -> Result<
    Map<Seq<char>, Slot>,
    DecodeError,
>
    decreases b.len() - off,
{
    if off < 0 || off >= b.len() {
        Ok(m)
    } else {
        match parse_entry(b.skip(off)) {
            Ok((e, n)) => if n <= 0 {
                Ok(m)
            } else {
                replay_from(apply_record(m, id, e, off, n), id, b, off + n)
            },
            Err(d) => Err(d),
        }
    }
}

/// The index after replaying all segments in ascending order.
pub open spec fn replay(segs: Seq<(u64, Seq<u8>)>) -> Result<Map<Seq<char>, Slot>, DecodeError>
    decreases segs.len(),
{
    if segs.len() == 0 {
        Ok(Map::empty())
    } else {
        match replay(segs.drop_last()) {
            Ok(m) => replay_from(m, segs.last().0, segs.last().1, 0),
            Err(d) => Err(d),
        }
    }
}

/// A parsed field is written in its one form.
proof fn lemma_field_canonical(b: Seq<u8>)
    requires
        parse_field(b) is Some,
    ensures
        b.take(parse_field(b)->Some_0.1) == field_bytes(parse_field(b)->Some_0.0),
        parse_field(b)->Some_0.1 == 8 + parse_field(b)->Some_0.0.len(),
        parse_field(b)->Some_0.0.len() <= u64::MAX,
        parse_field(b)->Some_0.1 <= b.len(),
{
    lemma_auto_spec_u64_to_from_le_bytes();
    let (f, n) = parse_field(b)->Some_0;
    let head = b.subrange(0, 8);
    assert(spec_u64_to_le_bytes(spec_u64_from_le_bytes(head)) == head);
    assert(b.take(n) =~= head + f);
}

/// A parsed text is written in its one form.
proof fn lemma_text_canonical(b: Seq<u8>)
    requires
        parse_text(b) is Ok,
    ensures
        b.take(parse_text(b)->Ok_0.1) == text_bytes(parse_text(b)->Ok_0.0),
        parse_text(b)->Ok_0.1 == 8 + encode_utf8(parse_text(b)->Ok_0.0).len(),
        encode_utf8(parse_text(b)->Ok_0.0).len() <= u64::MAX,
        parse_text(b)->Ok_0.1 <= b.len(),
{
    lemma_field_canonical(b);
    let (f, n) = parse_field(b)->Some_0;
    decode_utf8_encode_utf8(f);
}

/// A parsed record is written in its one form, and takes between one byte
/// and all of the input.
pub proof fn lemma_entry_canonical(b: Seq<u8>)
    requires
        parse_entry(b) is Ok,
    ensures
        b.take(parse_entry(b)->Ok_0.1) == entry_bytes(parse_entry(b)->Ok_0.0),
        entry_fits(parse_entry(b)->Ok_0.0),
        1 <= parse_entry(b)->Ok_0.1 <= b.len(),
{
    let (e, n) = parse_entry(b)->Ok_0;
    let t1 = b.skip(1);
    lemma_text_canonical(t1);
    let n1 = parse_text(t1)->Ok_0.1;
    if b[0] == TAG_SET {
        let t2 = b.skip(1 + n1);
        lemma_text_canonical(t2);
        let n2 = parse_text(t2)->Ok_0.1;
        assert(b.take(n) =~= seq![b[0]] + t1.take(n1) + t2.take(n2));
    } else {
        assert(b.take(n) =~= seq![b[0]] + t1.take(n1));
    }
}

/// Bytes after a record do not change how it parses.
pub proof fn lemma_entry_prefix(x: Seq<u8>, y: Seq<u8>)
    requires
        parse_entry(x) is Ok,
    ensures
        parse_entry(x + y) == parse_entry(x),
{
    lemma_entry_canonical(x);
    let (e, n) = parse_entry(x)->Ok_0;
    assert(x + y =~= entry_bytes(e) + (x.skip(n) + y));
    lemma_entry_round_trip(e, x.skip(n) + y);
}

/// The bytes a record takes parse as that record on their own.
pub proof fn lemma_entry_alone(x: Seq<u8>)
    requires
        parse_entry(x) is Ok,
    ensures
        parse_entry(x.take(parse_entry(x)->Ok_0.1)) == parse_entry(x),
{
    lemma_entry_canonical(x);
    let (e, n) = parse_entry(x)->Ok_0;
    assert(entry_bytes(e) + Seq::<u8>::empty() =~= entry_bytes(e));
    lemma_entry_round_trip(e, Seq::<u8>::empty());
}

/// Replaying a segment that has grown by one record replays that record
/// last.
pub proof fn lemma_replay_append(
    m: Map<Seq<char>, Slot>,
    id: u64,
    b: Seq<u8>,
    off: int,
    rec: Seq<u8>,
    e: EntryView,
)
    requires
        0 <= off <= b.len(),
        replay_from(m, id, b, off) is Ok,
        parse_entry(rec) == Ok::<(EntryView, int), DecodeError>((e, rec.len() as int)),
    ensures
        replay_from(m, id, b + rec, off) == Ok::<Map<Seq<char>, Slot>, DecodeError>(
            apply_record(replay_from(m, id, b, off)->Ok_0, id, e, b.len() as int, rec.len() as int),
        ),
    decreases b.len() - off,
{
    lemma_entry_canonical(rec);
    if off == b.len() {
        assert((b + rec).skip(off) =~= rec);
        let m2 = apply_record(m, id, e, off, rec.len() as int);
        assert(replay_from(m2, id, b + rec, off + rec.len()) == Ok::<Map<Seq<char>, Slot>, DecodeError>(m2));
    } else {
        let x = b.skip(off);
        assert((b + rec).skip(off) =~= x + rec);
        lemma_entry_prefix(x, rec);
        lemma_entry_canonical(x);
        let (e1, n1) = parse_entry(x)->Ok_0;
        lemma_replay_append(apply_record(m, id, e1, off, n1), id, b, off + n1, rec, e);
    }
}

/// Segment bytes after the last segment is replaced.
pub proof fn lemma_update_last(segs: Seq<(u64, Seq<u8>)>, b: Seq<u8>, id: u64)
    requires
        segs.len() >= 1,
    ensures
        segment_bytes(segs.update(segs.len() - 1, (segs.last().0, b)), id) == if id == segs.last().0 {
            b
        } else {
            segment_bytes(segs, id)
        },
        has_segment(segs.update(segs.len() - 1, (segs.last().0, b)), id) == has_segment(segs, id),
        segs.update(segs.len() - 1, (segs.last().0, b)).drop_last() == segs.drop_last(),
{
    let s2 = segs.update(segs.len() - 1, (segs.last().0, b));
    assert(s2.drop_last() =~= segs.drop_last());
}

/// A segment that exists has an id no larger than the last one.
pub proof fn lemma_has_segment_bound(segs: Seq<(u64, Seq<u8>)>, id: u64)
    requires
        ids_ascending(segs),
        has_segment(segs, id),
    ensures
        segs.len() >= 1,
        id <= segs.last().0,
    decreases segs.len(),
{
    if segs.last().0 != id {
        let d = segs.drop_last();
        lemma_has_segment_bound(d, id);
        assert(d.last() == segs[segs.len() - 2]);
    }
}

/// A record parsed out of the last segment covers a value record of its key.
proof fn lemma_last_record_holds(segs: Seq<(u64, Seq<u8>)>, off: int, k: Seq<char>, v: Seq<char>, n: int)
    requires
        segs.len() >= 1,
        0 <= off < segs.last().1.len(),
        segs.last().1.len() <= u64::MAX,
        parse_entry(segs.last().1.skip(off)) == Ok::<(EntryView, int), DecodeError>((EntryView::Put(k, v), n)),
    ensures
        holds_value_of(segs, k, Position { log_no: segs.last().0, offset: off as u64, size: n as u64 }),
{
    let (id, b) = segs.last();
    let x = b.skip(off);
    lemma_entry_canonical(x);
    lemma_entry_alone(x);
    assert(x.take(n) =~= b.subrange(off, off + n));
    assert(segment_bytes(segs, id) == b);
    assert(has_segment(segs, id));
}

/// Every slot that a segment's replay adds covers a value record of its key.
#[verifier::rlimit(40)]
proof fn lemma_replay_from_holds(
    m: Map<Seq<char>, Slot>,
    segs: Seq<(u64, Seq<u8>)>,
    off: int,
)
    requires
        segs.len() >= 1,
        0 <= off,
        segs.last().1.len() <= u64::MAX,
        replay_from(m, segs.last().0, segs.last().1, off) is Ok,
        forall|k: Seq<char>| #[trigger] m.contains_key(k) ==> holds_value_of(segs, k, position_of(m[k])),
    ensures
        forall|k: Seq<char>| #[trigger]
            replay_from(m, segs.last().0, segs.last().1, off)->Ok_0.contains_key(k) ==> holds_value_of(
                segs,
                k,
                position_of(replay_from(m, segs.last().0, segs.last().1, off)->Ok_0[k]),
            ),
    decreases segs.last().1.len() - off,
{
    let id = segs.last().0;
    let b = segs.last().1;
    if off < b.len() {
        let x = b.skip(off);
        lemma_entry_canonical(x);
        let e = parse_entry(x)->Ok_0.0;
        let n = parse_entry(x)->Ok_0.1;
        let m2 = apply_record(m, id, e, off, n);
        match e {
            EntryView::Put(k1, v1) => {
                lemma_last_record_holds(segs, off, k1, v1, n);
                assert forall|k: Seq<char>| #[trigger] m2.contains_key(k) implies holds_value_of(
                    segs,
                    k,
                    position_of(m2[k]),
                ) by {
                    if k != k1 {
                        assert(m.contains_key(k));
                    }
                }
            },
            EntryView::Remove(k1) => {
                assert forall|k: Seq<char>| #[trigger] m2.contains_key(k) implies holds_value_of(
                    segs,
                    k,
                    position_of(m2[k]),
                ) by {
                    assert(m.contains_key(k));
                }
            },
        }
        lemma_replay_from_holds(m2, segs, off + n);
    }
}

/// Every slot of a replay covers a value record of its key.
pub proof fn lemma_replay_holds(segs: Seq<(u64, Seq<u8>)>)
    requires
        ids_ascending(segs),
        segments_fit(segs),
        replay(segs) is Ok,
    ensures
        forall|k: Seq<char>| #[trigger]
            replay(segs)->Ok_0.contains_key(k) ==> holds_value_of(
                segs,
                k,
                position_of(replay(segs)->Ok_0[k]),
            ),
    decreases segs.len(),
{
    if segs.len() > 0 {
        let d = segs.drop_last();
        assert(ids_ascending(d));
        assert(segments_fit(d));
        lemma_replay_holds(d);
        let m = replay(d)->Ok_0;
        assert forall|k: Seq<char>| #[trigger] m.contains_key(k) implies holds_value_of(
            segs,
            k,
            position_of(m[k]),
        ) by {
            let p = position_of(m[k]);
            lemma_has_segment_bound(d, p.log_no);
            assert(d.last() == segs[segs.len() - 2]);
            assert(segment_bytes(segs, p.log_no) == segment_bytes(d, p.log_no));
        }
        lemma_replay_from_holds(m, segs, 0);
    }
}

/// A failed replay of some first segments fails the whole replay alike.
proof fn lemma_replay_err_prefix(segs: Seq<(u64, Seq<u8>)>, j: int)
    requires
        0 <= j <= segs.len(),
        replay(segs.take(j)) is Err,
    ensures
        replay(segs) == replay(segs.take(j)),
    decreases segs.len(),
{
    if j == segs.len() {
        assert(segs.take(j) =~= segs);
    } else {
        let d = segs.drop_last();
        assert(d.take(j) =~= segs.take(j));
        lemma_replay_err_prefix(d, j);
    }
}

/// The segments as the store sees them: id and contents.
pub open spec fn segments_view(logs: Seq<(u64, Vec<u8>)>) -> Seq<(u64, Seq<u8>)> {
    logs.map_values(|x: (u64, Vec<u8>)| (x.0, x.1@))
}

/// The segments a store opened on `logs` starts from: those given, or one
/// empty segment 1 where none is.
pub open spec fn opened_segments(logs: Seq<(u64, Vec<u8>)>) -> Seq<(u64, Seq<u8>)> {
    if logs.len() == 0 {
        seq![(1u64, Seq::<u8>::empty())]
    } else {
        segments_view(logs)
    }
}

/// The value in the bytes read at a key's position: a value record gives
/// its value, a tombstone means the index is broken, and bytes that are no
/// record fail to decode.
pub fn value_of_record(record: &[u8]) -> (r: Result<String, KvsError>)
    ensures
        match parse_entry(record@) {
            Ok((EntryView::Put(_, v), _)) => r is Ok && r->Ok_0@ == v,
            Ok((EntryView::Remove(_), _)) => r == Err::<String, KvsError>(KvsError::LogInconsistent),
            Err(d) => r == Err::<String, KvsError>(KvsError::Codec(d)),
        },
{
    if record.len() == 0 {
        return Err(KvsError::Codec(DecodeError::Truncated));
    }
    assert(record@.skip(0) =~= record@);
    match read_entry(record, 0) {
        Ok(Some((Entry::Put(_, v), _))) => Ok(v),
        Ok(Some((Entry::Remove(_), _))) => Err(KvsError::LogInconsistent),
        Ok(None) => Err(KvsError::Codec(DecodeError::Truncated)),
        Err(d) => Err(KvsError::Codec(d)),
    }
}

/// The segments after `rec` is appended to the last one.
pub open spec fn appended(segs: Seq<(u64, Seq<u8>)>, rec: Seq<u8>) -> Seq<(u64, Seq<u8>)> {
    segs.update(segs.len() - 1, (segs.last().0, segs.last().1 + rec))
}

/// The stale byte count after the slot of `k`, if any, goes stale.
pub open spec fn stale_after(stale: u64, slots: Map<Seq<char>, Slot>, k: Seq<char>) -> u64 {
    if slots.contains_key(k) {
        if stale + slots[k].2 > u64::MAX {
            u64::MAX
        } else {
            (stale + slots[k].2) as u64
        }
    } else {
        stale
    }
}

/// Appending one record to the active segment replays it last, and leaves
/// the bytes of every slot as they were.
proof fn lemma_append_record(
    segs: Seq<(u64, Seq<u8>)>,
    slots: Map<Seq<char>, Slot>,
    rec: Seq<u8>,
    e: EntryView,
)
    requires
        segs.len() >= 1,
        ids_ascending(segs),
        segments_fit(segs),
        replay(segs) == Ok::<Map<Seq<char>, Slot>, DecodeError>(slots),
        parse_entry(rec) == Ok::<(EntryView, int), DecodeError>((e, rec.len() as int)),
        segs.last().1.len() + rec.len() <= u64::MAX,
    ensures
        ids_ascending(appended(segs, rec)),
        segments_fit(appended(segs, rec)),
        appended(segs, rec).len() == segs.len(),
        appended(segs, rec).last() == (segs.last().0, segs.last().1 + rec),
        replay(appended(segs, rec)) == Ok::<Map<Seq<char>, Slot>, DecodeError>(
            apply_record(slots, segs.last().0, e, segs.last().1.len() as int, rec.len() as int),
        ),
        forall|k: Seq<char>| #[trigger]
            slots.contains_key(k) ==> record_at(appended(segs, rec), position_of(slots[k]))
                == record_at(segs, position_of(slots[k])),
{
    let (id, b) = segs.last();
    let s2 = appended(segs, rec);
    lemma_update_last(segs, b + rec, id);
    let m0 = replay(segs.drop_last())->Ok_0;
    lemma_replay_append(m0, id, b, 0, rec, e);
    lemma_replay_holds(segs);
    assert forall|k: Seq<char>| #[trigger] slots.contains_key(k) implies record_at(
        s2,
        position_of(slots[k]),
    ) == record_at(segs, position_of(slots[k])) by {
        let p = position_of(slots[k]);
        assert(replay(segs)->Ok_0.contains_key(k));
        lemma_update_last(segs, b + rec, p.log_no);
        if p.log_no == id {
            assert((b + rec).subrange(p.offset as int, p.offset + p.size) =~= b.subrange(
                p.offset as int,
                p.offset + p.size,
            ));
        }
    }
    assert forall|i: int| 0 <= i < s2.len() implies #[trigger] s2[i].1.len() <= u64::MAX by {
        if i < segs.len() - 1 {
            assert(s2[i] == segs[i]);
        }
    }
}

/// What the caller does after a compaction: write `bytes` as the new
/// segment `compacted`, unlink every segment with a smaller id, and create
/// the empty segment `active`, which takes the next appends.
pub struct Compaction {
    pub compacted: u64,
    pub bytes: Vec<u8>,
    pub active: u64,
    /// The live keys, in the order their records lie in `bytes`.
    pub order: Ghost<Seq<Seq<char>>>,
}

/// `persist` does not fail.
pub open spec fn persist_total<P: Fn(u64, &Vec<u8>) -> Result<(), KvsError>>(persist: P) -> bool {
    forall|c: u64, b: &Vec<u8>, r: Result<(), KvsError>| #[trigger] persist.ensures((c, b), r) ==> r is Ok
}

/// Where record `j` starts when the records of the keys in `order` lie end
/// to end, each as long as its slot in `m` says.
pub open spec fn packed_end(m: Map<Seq<char>, Slot>, order: Seq<Seq<char>>, j: int) -> int
    decreases j,
{
    if j <= 0 {
        0
    } else {
        packed_end(m, order, j - 1) + m[order[j - 1]].2
    }
}

/// `fetch` hands back, when it succeeds, the bytes that a position covers.
pub open spec fn fetch_faithful<F: Fn(Position) -> Result<Vec<u8>, KvsError>>(
    fetch: F,
    segs: Seq<(u64, Seq<u8>)>,
) -> bool {
    forall|p: Position, b: Result<Vec<u8>, KvsError>|
        #[trigger] fetch.ensures((p,), b) && b is Ok ==> b->Ok_0@ == record_at(segs, p)
}

/// `fetch` does not fail at position `p`.
pub open spec fn fetch_total_at<F: Fn(Position) -> Result<Vec<u8>, KvsError>>(fetch: F, p: Position) -> bool {
    forall|b: Result<Vec<u8>, KvsError>| #[trigger] fetch.ensures((p,), b) ==> b is Ok
}

/// `fetch` does not fail at the position of any live key.
pub open spec fn fetch_total_on<F: Fn(Position) -> Result<Vec<u8>, KvsError>>(
    fetch: F,
    slots: Map<Seq<char>, Slot>,
) -> bool {
    forall|k: Seq<char>| #[trigger] slots.contains_key(k) ==> fetch_total_at(fetch, position_of(slots[k]))
}

/// The segments right after a compaction.
pub open spec fn compacted_segments(c: u64, bytes: Seq<u8>, n: u64) -> Seq<(u64, Seq<u8>)> {
    seq![(c, bytes), (n, Seq::<u8>::empty())]
}

/// Every slot lies within `out`, which is to be segment `c`.
pub open spec fn slots_within(m: Map<Seq<char>, Slot>, out: Seq<u8>, c: u64) -> bool {
    forall|k: Seq<char>| #[trigger] m.contains_key(k) ==> m[k].0 == c && m[k].1 + m[k].2 <= out.len()
}

/// Byte `o` lies in the slot of key `k`.
pub open spec fn slot_covers(m: Map<Seq<char>, Slot>, k: Seq<char>, o: int) -> bool {
    m.contains_key(k) && m[k].1 <= o < m[k].1 + m[k].2
}

/// Byte `o` lies in the slot of some key.
pub open spec fn covered(m: Map<Seq<char>, Slot>, o: int) -> bool {
    exists|k: Seq<char>| slot_covers(m, k, o)
}

/// The slots tile bytes `0..len`: each byte lies in the slot of some key,
/// and the slots of two keys do not overlap.
pub open spec fn tiles(m: Map<Seq<char>, Slot>, len: int) -> bool {
    &&& forall|o: int| 0 <= o < len ==> #[trigger] covered(m, o)
    &&& forall|k1: Seq<char>, k2: Seq<char>|
        #[trigger] m.contains_key(k1) && #[trigger] m.contains_key(k2) && k1 != k2 ==> m[k1].1 + m[k1].2
            <= m[k2].1 || m[k2].1 + m[k2].2 <= m[k1].1
}

/// Every slot covers, in `out`, a record with the key's value in `view`.
pub open spec fn copies_values(
    m: Map<Seq<char>, Slot>,
    out: Seq<u8>,
    view: Map<Seq<char>, Seq<char>>,
) -> bool {
    forall|k: Seq<char>| #[trigger]
        m.contains_key(k) ==> value_in(out.subrange(m[k].1 as int, m[k].1 + m[k].2)) == view[k]
}

/// Appending a record to the compacted bytes leaves what earlier slots
/// cover, and the new slot covers the record.
proof fn lemma_copy_step(m: Map<Seq<char>, Slot>, out: Seq<u8>, rec: Seq<u8>, k: Seq<char>, c: u64)
    requires
        slots_within(m, out, c),
        out.len() + rec.len() <= u64::MAX,
    ensures
        slots_within(m.insert(k, (c, out.len() as u64, rec.len() as u64)), out + rec, c),
        (out + rec).subrange(out.len() as int, (out.len() + rec.len()) as int) == rec,
        forall|k2: Seq<char>| #[trigger]
            m.contains_key(k2) ==> (out + rec).subrange(m[k2].1 as int, m[k2].1 + m[k2].2)
                == out.subrange(m[k2].1 as int, m[k2].1 + m[k2].2),
{
    assert((out + rec).subrange(out.len() as int, (out.len() + rec.len()) as int) =~= rec);
    assert forall|k2: Seq<char>| #[trigger] m.contains_key(k2) implies (out + rec).subrange(
        m[k2].1 as int,
        m[k2].1 + m[k2].2,
    ) == out.subrange(m[k2].1 as int, m[k2].1 + m[k2].2) by {
        assert((out + rec).subrange(m[k2].1 as int, m[k2].1 + m[k2].2) =~= out.subrange(
            m[k2].1 as int,
            m[k2].1 + m[k2].2,
        ));
    }
}

/// Appending the record of a new key keeps the slots tiling the bytes.
proof fn lemma_tile_step(m: Map<Seq<char>, Slot>, out: Seq<u8>, k: Seq<char>, n: int, c: u64)
    requires
        tiles(m, out.len() as int),
        slots_within(m, out, c),
        !m.contains_key(k),
        out.len() + n <= u64::MAX,
        n >= 0,
    ensures
        tiles(m.insert(k, (c, out.len() as u64, n as u64)), out.len() + n),
{
    let len = out.len() as int;
    let m2 = m.insert(k, (c, len as u64, n as u64));
    assert forall|o: int| 0 <= o < len + n implies #[trigger] covered(m2, o) by {
        if o < len {
            assert(covered(m, o));
            let k1 = choose|k1: Seq<char>| slot_covers(m, k1, o);
            assert(slot_covers(m2, k1, o));
        } else {
            assert(slot_covers(m2, k, o));
        }
    }
    assert forall|k1: Seq<char>, k2: Seq<char>|
        #[trigger] m2.contains_key(k1) && #[trigger] m2.contains_key(k2) && k1 != k2 implies m2[k1].1
        + m2[k1].2 <= m2[k2].1 || m2[k2].1 + m2[k2].2 <= m2[k1].1 by {
        if k1 != k && k2 != k {
            assert(m.contains_key(k1) && m.contains_key(k2));
        } else if k1 == k {
            assert(m.contains_key(k2));
        } else {
            assert(m.contains_key(k1));
        }
    }
}

/// The store: the index of live keys, the active segment and its length,
/// the stale byte count, and the contents of the segments.
pub struct LogStore {
    index: SlotIndex,
    active: u64,
    active_len: u64,
    stale_bytes: u64,
    segments: Ghost<Seq<(u64, Seq<u8>)>>,
}

impl View for LogStore {
    type V = Map<Seq<char>, Seq<char>>;

    /// The value of each live key: the value of the record its slot covers.
    closed spec fn view(&self) -> Map<Seq<char>, Seq<char>> {
        Map::new(
            |k: Seq<char>| slot_map(self.index).contains_key(k),
            |k: Seq<char>| value_in(record_at(self.segments@, position_of(slot_map(self.index)[k]))),
        )
    }
}

impl LogStore {
    /// The index: each live key's slot.
    pub closed spec fn slots(&self) -> Map<Seq<char>, Slot> {
        slot_map(self.index)
    }

    /// The segments, by ascending id, with their contents.
    pub closed spec fn segments(&self) -> Seq<(u64, Seq<u8>)> {
        self.segments@
    }

    /// The id of the active segment.
    pub closed spec fn active(&self) -> u64 {
        self.active
    }

    /// Bytes of records that were overwritten or removed since the last
    /// compaction.
    pub closed spec fn stale(&self) -> u64 {
        self.stale_bytes
    }

    /// The segments ascend by id, the last is the active one, and the index
    /// is what replaying them gives.
    pub closed spec fn wf(&self) -> bool {
        let segs = self.segments@;
        &&& segs.len() >= 1
        &&& ids_ascending(segs)
        &&& segments_fit(segs)
        &&& segs.last().0 == self.active
        &&& segs.last().1.len() == self.active_len
        &&& replay(segs) == Ok::<Map<Seq<char>, Slot>, DecodeError>(slot_map(self.index))
    }

    /// What well-formedness gives callers: the segments ascend by id, the
    /// last one is the active segment, and replaying them gives the index.
    pub proof fn lemma_wf_shape(&self)
        requires
            self.wf(),
        ensures
            self.segments().len() >= 1,
            ids_ascending(self.segments()),
            segments_fit(self.segments()),
            self.segments().last().0 == self.active(),
            replay(self.segments()) == Ok::<Map<Seq<char>, Slot>, DecodeError>(self.slots()),
            self@.dom() == self.slots().dom(),
    {
        assert(self@.dom() =~= self.slots().dom());
    }

    /// Each live key's slot covers a value record of that key.
    pub proof fn lemma_slots_hold_values(&self)
        requires
            self.wf(),
        ensures
            forall|k: Seq<char>| #[trigger]
                self.slots().contains_key(k) ==> holds_value_of(
                    self.segments(),
                    k,
                    position_of(self.slots()[k]),
                ),
    {
        lemma_replay_holds(self.segments@);
        assert forall|k: Seq<char>| #[trigger] self.slots().contains_key(k) implies holds_value_of(
            self.segments(),
            k,
            position_of(self.slots()[k]),
        ) by {
            assert(replay(self.segments@)->Ok_0.contains_key(k));
        }
    }

    /// The id of the active segment, to which records are appended.
    pub fn active_id(&self) -> (r: u64)
        ensures
            r == self.active(),
    {
        self.active
    }

    /// Records a value for a key: hands back the record to append to the
    /// active segment, and points the key at it. Fails, changing nothing,
    /// where the active segment would outgrow 64-bit offsets.
    pub fn set(&mut self, k: String, v: String) -> (r: Result<Vec<u8>, KvsError>)
        requires
            old(self).wf(),
        ensures
            final(self).wf(),
            r is Ok <==> old(self).segments().last().1.len() + entry_bytes(EntryView::Put(k@, v@)).len()
                <= u64::MAX,
            match r {
                Ok(rec) => {
                    &&& rec@ == entry_bytes(EntryView::Put(k@, v@))
                    &&& final(self)@ == old(self)@.insert(k@, v@)
                    &&& final(self).segments() == appended(old(self).segments(), rec@)
                    &&& final(self).active() == old(self).active()
                    &&& final(self).stale() == stale_after(old(self).stale(), old(self).slots(), k@)
                },
                Err(e) => e == KvsError::SegmentFull && *final(self) == *old(self),
            },
    {
        let e = Entry::Put(k.clone(), v);
        let rec = e.to_bytes();
        let n = rec.len() as u64;
        let off = self.active_len;
        if n > u64::MAX - off {
            return Err(KvsError::SegmentFull);
        }
        proof {
            lemma_entry_round_trip(e@, Seq::<u8>::empty());
            assert(rec@ + Seq::<u8>::empty() =~= rec@);
            lemma_append_record(self.segments@, slot_map(self.index), rec@, e@);
            self.lemma_slots_hold_values();
        }
        let ghost old_self = *self;
        let ghost segs2 = appended(self.segments@, rec@);
        match index_get(&self.index, &k) {
            Some(old_slot) => {
                self.stale_bytes = self.stale_bytes.saturating_add(old_slot.2);
            },
            None => {},
        }
        index_insert(&mut self.index, k, (self.active, off, n));
        self.active_len = off + n;
        self.segments = Ghost(segs2);
        proof {
            assert(segs2.last().1 =~= old_self.segments@.last().1 + rec@);
            assert(segs2.last().1.subrange(off as int, off + n) =~= rec@);
            assert(self@ =~= old_self@.insert(k@, v@)) by {
                assert forall|k2: Seq<char>| #[trigger] self@.contains_key(k2) implies self@[k2] == old_self@.insert(k@, v@)[k2] by {
                    if k2 != k@ {
                        assert(old_self.slots().contains_key(k2));
                    }
                }
            }
        }
        Ok(rec)
    }

    /// Removes a key: hands back the tombstone to append to the active
    /// segment, and drops the key from the index. A key that holds no value
    /// fails with `KeyNotFound`, and a segment that would outgrow 64-bit
    /// offsets with `SegmentFull`; either failure changes nothing.
    pub fn remove(&mut self, k: &String) -> (r: Result<Vec<u8>, KvsError>)
        requires
            old(self).wf(),
        ensures
            final(self).wf(),
            !old(self)@.contains_key(k@) ==> r == Err::<Vec<u8>, KvsError>(KvsError::KeyNotFound),
            old(self)@.contains_key(k@) ==> if old(self).segments().last().1.len() + entry_bytes(
                EntryView::Remove(k@),
            ).len() <= u64::MAX {
                r is Ok
            } else {
                r == Err::<Vec<u8>, KvsError>(KvsError::SegmentFull)
            },
            match r {
                Ok(rec) => {
                    &&& rec@ == entry_bytes(EntryView::Remove(k@))
                    &&& final(self)@ == old(self)@.remove(k@)
                    &&& final(self).segments() == appended(old(self).segments(), rec@)
                    &&& final(self).active() == old(self).active()
                    &&& final(self).stale() == stale_after(old(self).stale(), old(self).slots(), k@)
                },
                Err(e) => (e == KvsError::KeyNotFound || e == KvsError::SegmentFull) && *final(self)
                    == *old(self),
            },
    {
        let old_slot = match index_get(&self.index, k) {
            Some(s) => s,
            None => return Err(KvsError::KeyNotFound),
        };
        let e = Entry::Remove(k.clone());
        let rec = e.to_bytes();
        let n = rec.len() as u64;
        let off = self.active_len;
        if n > u64::MAX - off {
            return Err(KvsError::SegmentFull);
        }
        proof {
            lemma_entry_round_trip(e@, Seq::<u8>::empty());
            assert(rec@ + Seq::<u8>::empty() =~= rec@);
            lemma_append_record(self.segments@, slot_map(self.index), rec@, e@);
        }
        let ghost old_self = *self;
        let ghost segs2 = appended(self.segments@, rec@);
        self.stale_bytes = self.stale_bytes.saturating_add(old_slot.2);
        index_remove(&mut self.index, k);
        self.active_len = off + n;
        self.segments = Ghost(segs2);
        proof {
            assert(self@ =~= old_self@.remove(k@)) by {
                assert forall|k2: Seq<char>| #[trigger] self@.contains_key(k2) implies self@[k2] == old_self@.remove(k@)[k2] by {
                    assert(old_self.slots().contains_key(k2));
                }
            }
        }
        Ok(rec)
    }

    /// Where the value of a key lies, if the key is live. Reading those bytes
    /// and decoding them with `value_of_record` gives the key's value.
    pub fn lookup(&self, k: &String) -> (r: Option<Position>)
        requires
            self.wf(),
        ensures
            match r {
                Some(p) => {
                    &&& self@.contains_key(k@)
                    &&& p == position_of(self.slots()[k@])
                    &&& holds_value_of(self.segments(), k@, p)
                    &&& value_in(record_at(self.segments(), p)) == self@[k@]
                },
                None => !self@.contains_key(k@),
            },
    {
        proof {
            self.lemma_slots_hold_values();
        }
        match index_get(&self.index, k) {
            Some(s) => Some(Position { log_no: s.0, offset: s.1, size: s.2 }),
            None => None,
        }
    }

    /// The value of a key, read through `fetch` at the key's position: none
    /// for a key that is not live, and, where `fetch` hands back the bytes
    /// the position covers, the key's value.
    pub fn get<F: Fn(Position) -> Result<Vec<u8>, KvsError>>(&self, k: &String, fetch: F) -> (r: Result<
        Option<String>,
        KvsError,
    >)
        requires
            self.wf(),
            forall|p: Position| fetch.requires((p,)),
        ensures
            !self@.contains_key(k@) ==> r == Ok::<Option<String>, KvsError>(None),
            self@.contains_key(k@) && fetch_faithful(fetch, self.segments()) ==> (r is Ok ==> r->Ok_0 is Some
                && r->Ok_0->Some_0@ == self@[k@]),
            self@.contains_key(k@) && fetch_faithful(fetch, self.segments()) && fetch_total_at(
                fetch,
                position_of(self.slots()[k@]),
            ) ==> r is Ok,
    {
        match self.lookup(k) {
            None => Ok(None),
            Some(p) => {
                let bytes = match fetch(p) {
                    Ok(b) => b,
                    Err(e) => return Err(e),
                };
                match value_of_record(bytes.as_slice()) {
                    Ok(v) => Ok(Some(v)),
                    Err(e) => Err(e),
                }
            },
        }
    }

    /// Whether enough bytes went stale to compact.
    pub fn needs_compaction(&self) -> (r: bool)
        ensures
            r == (self.stale() > COMPACTION_THRESHOLD),
    {
        self.stale_bytes > COMPACTION_THRESHOLD
    }

    /// Compacts: copies the record of every live key, read through `fetch`,
    /// in ascending key order and end to end, into a new segment one above
    /// the active one; hands that segment to `persist`; then points the
    /// index there and makes the segment two above the active one the new,
    /// empty, active segment. Each record read must be a value record of its
    /// key with the length the index gives; where one is not, or `fetch` or
    /// `persist` fails, nothing changes.
    #[verifier::rlimit(100)]
    pub fn compact<F, P>(&mut self, fetch: F, persist: P) -> (r: Result<Compaction, KvsError>)
        where
            F: Fn(Position) -> Result<Vec<u8>, KvsError>,
            P: Fn(u64, &Vec<u8>) -> Result<(), KvsError>,
        requires
            old(self).wf(),
            forall|p: Position| fetch.requires((p,)),
            forall|c: u64, b: &Vec<u8>| persist.requires((c, b)),
        ensures
            final(self).wf(),
            old(self).active() > u64::MAX - 2 ==> r == Err::<Compaction, KvsError>(KvsError::SegmentFull),
            fetch_faithful(fetch, old(self).segments()) && fetch_total_on(fetch, old(self).slots())
                && persist_total(persist) && old(self).active() <= u64::MAX - 2 ==> r is Ok,
            match r {
                Ok(c) => {
                    &&& c.compacted == old(self).active() + 1
                    &&& c.active == old(self).active() + 2
                    &&& final(self).segments() == compacted_segments(c.compacted, c.bytes@, c.active)
                    &&& final(self).active() == c.active
                    &&& final(self).stale() == 0
                    &&& final(self).slots().dom() == old(self).slots().dom()
                    &&& final(self)@.dom() == old(self)@.dom()
                    &&& forall|k: Seq<char>| #[trigger]
                        old(self).slots().contains_key(k) <==> c.order@.contains(k)
                    &&& forall|i: int, j: int|
                        0 <= i < j < c.order@.len() ==> key_before(c.order@[i], c.order@[j])
                    &&& forall|j: int|
                        0 <= j < c.order@.len() ==> {
                            let s = #[trigger] final(self).slots()[c.order@[j]];
                            &&& s.0 == c.compacted
                            &&& s.1 == packed_end(old(self).slots(), c.order@, j)
                            &&& s.2 == old(self).slots()[c.order@[j]].2
                        }
                    &&& c.bytes@.len() == packed_end(old(self).slots(), c.order@, c.order@.len() as int)
                    &&& tiles(final(self).slots(), c.bytes@.len() as int)
                    &&& fetch_faithful(fetch, old(self).segments()) ==> final(self)@ == old(self)@
                },
                Err(_) => *final(self) == *old(self),
            },
    {
        if self.active > u64::MAX - 2 {
            return Err(KvsError::SegmentFull);
        }
        let compacted = self.active + 1;
        let next = self.active + 2;
        let entries = index_entries(&self.index);
        let mut out: Vec<u8> = Vec::new();
        let mut fresh = index_new();
        let ghost old_view = self@;
        let ghost segs = self.segments@;
        let ghost m0 = self.slots();
        let ghost order = Seq::new(entries@.len(), |j: int| entries@[j].0@);
        let ghost empty = Map::<Seq<char>, Slot>::empty();
        assert(slot_map(fresh) =~= empty);
        proof {
            self.lemma_slots_hold_values();
            assert(tiles(slot_map(fresh), 0));
        }
        let mut i: usize = 0;
        while i < entries.len()
            invariant
                self.wf(),
                self.active < compacted,
                compacted == self.active + 1,
                self.active <= u64::MAX - 2,
                old_view == self@,
                segs == self.segments(),
                m0 == self.slots(),
                order == Seq::new(entries@.len(), |j: int| entries@[j].0@),
                0 <= i <= entries@.len(),
                forall|p: Position| fetch.requires((p,)),
                forall|k: Seq<char>| #[trigger]
                    self.slots().contains_key(k) ==> holds_value_of(segs, k, position_of(self.slots()[k])),
                forall|j: int|
                    0 <= j < entries@.len() ==> #[trigger] self.slots().contains_key(entries@[j].0@)
                        && self.slots()[entries@[j].0@] == entries@[j].1,
                forall|k: Seq<char>| #[trigger] slot_map(fresh).contains_key(k) <==> exists|j: int|
                    0 <= j < i && entries@[j].0@ == k,
                out@.len() <= u64::MAX,
                out@.len() == packed_end(m0, order, i as int),
                forall|j: int|
                    0 <= j < i ==> {
                        let s = #[trigger] slot_map(fresh)[order[j]];
                        &&& s.0 == compacted
                        &&& s.1 == packed_end(m0, order, j)
                        &&& s.2 == m0[order[j]].2
                    },
                replay_from(empty, compacted, out@, 0) == Ok::<Map<Seq<char>, Slot>, DecodeError>(
                    slot_map(fresh),
                ),
                slots_within(slot_map(fresh), out@, compacted),
                tiles(slot_map(fresh), out@.len() as int),
                forall|a: int, b: int| 0 <= a < b < entries@.len() ==> entries@[a].0@ != entries@[b].0@,
                fetch_faithful(fetch, segs) ==> copies_values(slot_map(fresh), out@, old_view),
            decreases entries@.len() - i,
        {
            let key = &entries[i].0;
            let slot = entries[i].1;
            let pos = Position { log_no: slot.0, offset: slot.1, size: slot.2 };
            let ghost src = record_at(segs, pos);
            proof {
                assert(self.slots().contains_key(entries@[i as int].0@));
                assert(position_of(self.slots()[key@]) == pos);
                assert(fetch_total_on(fetch, m0) ==> fetch_total_at(fetch, pos));
            }
            let rec = match fetch(pos) {
                Ok(b) => b,
                Err(e) => return Err(e),
            };
            assert(fetch_faithful(fetch, segs) ==> rec@ == src);
            let n = rec.len();
            assert(rec@.skip(0) =~= rec@);
            proof {
                assert(self.slots().contains_key(entries@[i as int].0@));
                assert(position_of(self.slots()[key@]) == pos);
                if fetch_faithful(fetch, segs) {
                    assert(holds_value_of(segs, key@, pos));
                    lemma_entry_canonical(rec@);
                    assert(old_view[key@] == value_in(src));
                }
            }
            if n == 0 || n as u64 != slot.2 {
                return Err(KvsError::LogInconsistent);
            }
            let ghost e;
            match read_entry(rec.as_slice(), 0) {
                Ok(Some((Entry::Put(k2, v2), end))) => {
                    if !(k2.eq(key)) || end != n {
                        return Err(KvsError::LogInconsistent);
                    }
                    proof {
                        e = EntryView::Put(k2@, v2@);
                    }
                },
                _ => return Err(KvsError::LogInconsistent),
            }
            let off = out.len();
            proof {
                lemma_replay_append(empty, compacted, out@, 0, rec@, e);
            }
            let ghost before = out@;
            let ghost fresh_before = slot_map(fresh);
            proof {
                assert(!fresh_before.contains_key(key@)) by {
                    if fresh_before.contains_key(key@) {
                        let j = choose|j: int| 0 <= j < i && entries@[j].0@ == key@;
                    }
                }
            }
            let mut copy = rec;
            out.append(&mut copy);
            let total = out.len();
            index_insert(&mut fresh, key.clone(), (compacted, off as u64, n as u64));
            proof {
                assert(order[i as int] == key@);
                assert(m0[order[i as int]] == slot);
                assert(packed_end(m0, order, i + 1) == packed_end(m0, order, i as int) + m0[order[i as int]].2);
                assert forall|j: int| 0 <= j < i + 1 implies {
                    let s = #[trigger] slot_map(fresh)[order[j]];
                    &&& s.0 == compacted
                    &&& s.1 == packed_end(m0, order, j)
                    &&& s.2 == m0[order[j]].2
                } by {
                    if j < i {
                        assert(order[j] != key@);
                    }
                }
                lemma_tile_step(fresh_before, before, key@, n as int, compacted);
                lemma_copy_step(fresh_before, before, rec@, key@, compacted);
                if fetch_faithful(fetch, segs) {
                    assert(value_in(rec@) == old_view[key@]);
                    assert forall|k: Seq<char>| #[trigger] slot_map(fresh).contains_key(k) implies value_in(
                        out@.subrange(
                            slot_map(fresh)[k].1 as int,
                            slot_map(fresh)[k].1 + slot_map(fresh)[k].2,
                        ),
                    ) == old_view[k] by {
                        if k != key@ {
                            assert(fresh_before.contains_key(k));
                        }
                    }
                }
                assert forall|k: Seq<char>| #[trigger] slot_map(fresh).contains_key(k) <==> exists|j: int|
                    0 <= j < i + 1 && entries@[j].0@ == k by {
                    if k == key@ {
                        assert(entries@[i as int].0@ == k);
                    }
                    if exists|j: int| 0 <= j < i + 1 && entries@[j].0@ == k {
                        let j = choose|j: int| 0 <= j < i + 1 && entries@[j].0@ == k;
                        if j < i {
                            assert(fresh_before.contains_key(k));
                        }
                    }
                }
            }
            i += 1;
        }
        match persist(compacted, &out) {
            Ok(()) => {},
            Err(e) => return Err(e),
        }
        let ghost segs2 = compacted_segments(compacted, out@, next);
        let ghost one = seq![(compacted, out@)];
        proof {
            assert(segs2.drop_last() =~= one);
            assert(one.drop_last() =~= Seq::<(u64, Seq<u8>)>::empty());
            assert(replay(Seq::<(u64, Seq<u8>)>::empty()) == Ok::<Map<Seq<char>, Slot>, DecodeError>(empty));
            assert(replay(one) == replay_from(empty, compacted, out@, 0));
            assert(replay(segs2) == replay(one));
            assert(segment_bytes(one, compacted) == out@);
            assert(segment_bytes(segs2, compacted) == out@);
            assert forall|k: Seq<char>| #[trigger] slot_map(fresh).contains_key(k) <==> old_view.contains_key(k) by {
                if old_view.contains_key(k) {
                    assert(self.slots().contains_key(k));
                    let j = choose|j: int| 0 <= j < entries@.len() && entries@[j].0@ == k;
                }
                if slot_map(fresh).contains_key(k) {
                    let j = choose|j: int| 0 <= j < i && entries@[j].0@ == k;
                }
            }
            assert forall|k: Seq<char>| #[trigger] m0.contains_key(k) <==> order.contains(k) by {
                if m0.contains_key(k) {
                    let j = choose|j: int| 0 <= j < entries@.len() && entries@[j].0@ == k;
                    assert(order[j] == k);
                }
                if order.contains(k) {
                    let j = choose|j: int| 0 <= j < order.len() && order[j] == k;
                    assert(entries@[j].0@ == k);
                }
            }
            assert(slot_map(fresh).dom() =~= m0.dom());
        }
        self.index = fresh;
        self.active = next;
        self.active_len = 0;
        self.stale_bytes = 0;
        self.segments = Ghost(segs2);
        proof {
            assert(self@.dom() =~= old_view.dom());
            if fetch_faithful(fetch, segs) {
                assert forall|k: Seq<char>| #[trigger] self@.contains_key(k) implies self@[k] == old_view[k] by {
                    assert(slot_map(fresh).contains_key(k));
                }
                assert(self@ =~= old_view);
            }
        }
        Ok(Compaction { compacted, bytes: out, active: next, order: Ghost(order) })
    }

    /// Reopening gives the same reads: two well-formed stores on the same
    /// segments hold the same index and the same values. `open` on the files
    /// that a store leaves gives a well-formed store on those segments.
    pub proof fn law_reopen_same_values(s: LogStore, t: LogStore)
        requires
            s.wf(),
            t.wf(),
            s.segments() == t.segments(),
        ensures
            s.slots() == t.slots(),
            s@ == t@,
    {
        assert(s@ =~= t@);
    }

    /// A store whose values come from a write of `v` to `k` followed by
    /// writes on other keys holds `v` at `k`, in a value record of `k` that
    /// its index points at: `get` reads it back.
    pub proof fn law_get_after_set(&self, m: Map<Seq<char>, Seq<char>>, k: Seq<char>, v: Seq<char>, ops: Seq<Op>)
        requires
            self.wf(),
            self@ == apply_ops(apply_op(m, Op::Put(k, v)), ops),
            untouched(ops, k),
        ensures
            self@.contains_key(k),
            self@[k] == v,
            holds_value_of(self.segments(), k, position_of(self.slots()[k])),
            value_in(record_at(self.segments(), position_of(self.slots()[k]))) == v,
    {
        law_get_after_set(m, k, v, ops);
        self.lemma_slots_hold_values();
    }

    /// The segments of a well-formed store replay to its index: this is what
    /// `open` computes from them.
    pub proof fn law_replay_gives_index(&self)
        requires
            self.wf(),
        ensures
            replay(self.segments()) == Ok::<Map<Seq<char>, Slot>, DecodeError>(self.slots()),
    {
    }

    /// Opens the store on the existing segments, given by ascending id with
    /// their contents: replays them into the index. The active segment is
    /// the last one, or a new empty segment 1 where there is none.
    pub fn open(logs: &Vec<(u64, Vec<u8>)>) -> (r: Result<LogStore, KvsError>)
        requires
            ids_ascending(segments_view(logs@)),
        ensures
            r is Ok <==> replay(segments_view(logs@)) is Ok,
            match r {
                Ok(s) => {
                    &&& s.wf()
                    &&& s@.dom() == replay(segments_view(logs@))->Ok_0.dom()
                    &&& s.segments() == opened_segments(logs@)
                    &&& s.active() == opened_segments(logs@).last().0
                    &&& s.slots() == replay(segments_view(logs@))->Ok_0
                    &&& s.stale() == 0
                },
                Err(e) => e == KvsError::Codec(replay(segments_view(logs@))->Err_0),
            },
    {
        let ghost segs = segments_view(logs@);
        let mut index = index_new();
        let mut i: usize = 0;
        assert(segs.take(0) =~= Seq::<(u64, Seq<u8>)>::empty());
        assert(slot_map(index) =~= Map::<Seq<char>, Slot>::empty());
        while i < logs.len()
            invariant
                0 <= i <= logs@.len(),
                segs == segments_view(logs@),
                segs.len() == logs@.len(),
                replay(segs.take(i as int)) == Ok::<Map<Seq<char>, Slot>, DecodeError>(slot_map(index)),
                segments_fit(segs.take(i as int)),
            decreases logs@.len() - i,
        {
            let id = logs[i].0;
            let bytes = logs[i].1.as_slice();
            let n = bytes.len();
            assert(segs[i as int] == (id, bytes@));
            let ghost start = slot_map(index);
            assert(segs.take(i + 1).drop_last() =~= segs.take(i as int));
            assert(segs.take(i + 1).last() == (id, bytes@));
            assert(replay(segs.take(i + 1)) == replay_from(start, id, bytes@, 0));
            let mut off: usize = 0;
            while off < bytes.len()
                invariant
                    i < logs@.len(),
                    segs == segments_view(logs@),
                    segs.len() == logs@.len(),
                    replay(segs.take(i + 1)) == replay_from(start, id, bytes@, 0),
                    off <= bytes@.len(),
                    replay_from(start, id, bytes@, 0) == replay_from(slot_map(index), id, bytes@, off as int),
                ensures
                    off == bytes@.len(),
                    replay_from(start, id, bytes@, 0) == replay_from(slot_map(index), id, bytes@, off as int),
                decreases bytes@.len() - off,
            {
                match read_entry(bytes, off) {
                    Ok(Some((e, next))) => {
                        proof {
                            lemma_entry_canonical(bytes@.skip(off as int));
                        }
                        match e {
                            Entry::Put(k, _) => {
                                index_insert(&mut index, k, (id, off as u64, (next - off) as u64));
                            },
                            Entry::Remove(k) => {
                                index_remove(&mut index, &k);
                            },
                        }
                        off = next;
                    },
                    Ok(None) => {
                        break;
                    },
                    Err(d) => {
                        proof {
                            lemma_replay_err_prefix(segs, i + 1);
                        }
                        return Err(KvsError::Codec(d));
                    },
                }
            }
            assert(replay_from(slot_map(index), id, bytes@, off as int) == Ok::<Map<Seq<char>, Slot>, DecodeError>(slot_map(index)));
            proof {
                assert(segments_fit(segs.take(i + 1))) by {
                    assert forall|j: int| 0 <= j < i + 1 implies #[trigger] segs.take(i + 1)[j].1.len() <= u64::MAX by {
                        if j < i {
                            assert(segs.take(i + 1)[j] == segs.take(i as int)[j]);
                        } else {
                            assert(segs.take(i + 1)[j] == (id, bytes@));
                        }
                    }
                }
            }
            i += 1;
        }
        assert(segs.take(logs@.len() as int) =~= segs);
        let ghost first = seq![(1u64, Seq::<u8>::empty())];
        if logs.len() == 0 {
            assert(first.drop_last() =~= Seq::<(u64, Seq<u8>)>::empty());
            Ok(LogStore { index, active: 1, active_len: 0, stale_bytes: 0, segments: Ghost(first) })
        } else {
            let last = logs.len() - 1;
            let active = logs[last].0;
            let active_len = logs[last].1.len() as u64;
            Ok(LogStore { index, active, active_len, stale_bytes: 0, segments: Ghost(segs) })
        }
    }
}

} // verus!

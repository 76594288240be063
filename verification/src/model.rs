//! The store as plain values: its state, what each operation makes of it,
//! and the proofs that every operation keeps the state valid.

use crate::codec::{command_of, CommandView};
use crate::compaction::{
    compacted_segments, lemma_compacted_scan, lemma_moved_records, live_bytes, moved,
};
use crate::framing::{separator_free, SEPARATOR};
use crate::index::{
    drop_entry, keys_distinct, lemma_drop_entry, lemma_put_entry, place_of, put_entry, slot_of,
    CommandPos, EntryView,
};
use crate::recovery::{
    entries_ok, entry_ok, freed, lemma_recovered_entries, lemma_scan_append, nothing_recovered,
    place, record_at, recover, recover_from, recovered, sat_add, scan,
};
use crate::store::{
    bytes_at, data_of, has_segment, ids_ascending, lemma_position_of_own_id, position_of,
    sizes_fit, with_appended, SegmentView,
};
use vstd::prelude::*;

verus! {

/// The state of a store as plain values.
pub struct KvsView {
    /// The segments, in ascending order of id.
    pub segments: Seq<SegmentView>,
    /// The index entries, in the order in which the keys were first set.
    pub entries: Seq<EntryView>,
    /// The count of dead bytes.
    pub uncompacted: u64,
    /// The count of dead bytes above which a set compacts.
    pub compaction_limit: u64,
    /// The id of the segment that takes the appends.
    pub current_log: u64,
}

/// The state is one that the operations keep: the segments are in order
/// and there is at least one, the last one is active, and the index and the
/// count of dead bytes are what recovery reads from the segments.
pub open spec fn valid(v: KvsView) -> bool {
    &&& ids_ascending(v.segments)
    &&& sizes_fit(v.segments)
    &&& v.segments.len() > 0
    &&& v.current_log == v.segments.last().id
    &&& keys_distinct(v.entries)
    &&& recover(v.segments) == Some(recovered(v.entries, v.uncompacted))
}

/// The value that the record at `at` sets; empty where no such record lies
/// there.
pub open spec fn value_at(segs: Seq<SegmentView>, at: CommandPos) -> Seq<char> {
    match record_at(segs, at) {
        Some(CommandView::Put { key, value }) => value,
        _ => Seq::empty(),
    }
}

/// What the store holds: each live key with its value.
pub open spec fn contents(v: KvsView) -> Map<Seq<char>, Seq<char>> {
    Map::new(
        |k: Seq<char>| place_of(v.entries, k) is Some,
        |k: Seq<char>| value_at(v.segments, place_of(v.entries, k)->0),
    )
}

/// The segments that opening works on: those given, or a single empty
/// segment 0 where none is given.
pub open spec fn opened_segments(segs: Seq<SegmentView>) -> Seq<SegmentView> {
    if segs.len() == 0 {
        seq![SegmentView { id: 0, data: Seq::empty() }]
    } else {
        segs
    }
}

/// The state that opening the segments gives; `None` where a segment is no
/// run of records.
pub open spec fn opened(segs: Seq<SegmentView>, limit: u64) -> Option<KvsView> {
    let segments = opened_segments(segs);
    match recover(segments) {
        None => None,
        Some(r) => Some(
            KvsView {
                segments,
                entries: r.entries,
                uncompacted: r.dead,
                compaction_limit: limit,
                current_log: segments.last().id,
            },
        ),
    }
}

/// The segments after `frame` and its separator were appended to the
/// active segment.
pub open spec fn appended(v: KvsView, frame: Seq<u8>) -> Seq<SegmentView> {
    with_appended(v.segments, v.segments.len() - 1, frame + seq![SEPARATOR])
}

/// The place of a frame that is appended to the active segment.
pub open spec fn tail_place(v: KvsView, frame: Seq<u8>) -> CommandPos {
    CommandPos {
        pos: v.segments.last().data.len() as u64,
        len: frame.len() as u64,
        log: v.current_log,
    }
}

/// The state after the record `frame`, which sets `key`, was written: the
/// frame is appended, the index points at it, and the record that the key
/// had before is counted as dead.
pub open spec fn after_put(v: KvsView, key: Seq<char>, frame: Seq<u8>) -> KvsView {
    KvsView {
        segments: appended(v, frame),
        entries: put_entry(v.entries, key, tail_place(v, frame)),
        uncompacted: sat_add(v.uncompacted, freed(v.entries, key)),
        compaction_limit: v.compaction_limit,
        current_log: v.current_log,
    }
}

/// The state after the record `frame`, which removes `key`, was written:
/// the frame is appended, the key leaves the index, and its record is
/// counted as dead.
pub open spec fn after_rm(v: KvsView, key: Seq<char>, frame: Seq<u8>) -> KvsView {
    KvsView {
        segments: appended(v, frame),
        entries: drop_entry(v.entries, key),
        uncompacted: sat_add(v.uncompacted, freed(v.entries, key)),
        compaction_limit: v.compaction_limit,
        current_log: v.current_log,
    }
}

/// There are more dead bytes than the limit allows.
pub open spec fn compaction_due(v: KvsView) -> bool {
    v.uncompacted > v.compaction_limit
}

/// Two ids above the highest are left.
pub open spec fn can_compact(v: KvsView) -> bool {
    v.segments.len() > 0 && v.segments.last().id <= u64::MAX - 2
}

/// The id of the segment that compaction writes: one above the highest.
pub open spec fn compaction_id(v: KvsView) -> u64 {
    (v.segments.last().id + 1) as u64
}

/// The state after compaction: the live records lie in the compaction
/// segment, an empty segment after it is active, all older segments are
/// gone, and no byte is dead.
pub open spec fn compacted(v: KvsView) -> KvsView {
    let target = compaction_id(v);
    KvsView {
        segments: compacted_segments(v.segments, v.entries, target),
        entries: moved(v.segments, v.entries, target),
        uncompacted: 0,
        compaction_limit: v.compaction_limit,
        current_log: (target + 1) as u64,
    }
}

/// The state after a set whose record is `frame`: the record is written,
/// and compaction follows where it is due and possible.
pub open spec fn after_set(v: KvsView, key: Seq<char>, frame: Seq<u8>) -> KvsView {
    let written = after_put(v, key, frame);
    if compaction_due(written) && can_compact(written) {
        compacted(written)
    } else {
        written
    }
}

/// The state after a new empty segment `id`, above all others, became active.
pub open spec fn rotated(v: KvsView, id: u64) -> KvsView {
    KvsView {
        segments: v.segments.push(SegmentView { id, data: Seq::empty() }),
        entries: v.entries,
        uncompacted: v.uncompacted,
        compaction_limit: v.compaction_limit,
        current_log: id,
    }
}

/// Appending to a segment changes no bytes that were there.
pub proof fn lemma_bytes_at_after_append(
    segs: Seq<SegmentView>,
    at: int,
    tail: Seq<u8>,
    id: u64,
    pos: u64,
    len: u64,
)
    requires
        ids_ascending(segs),
        0 <= at < segs.len(),
        bytes_at(segs, id, pos, len) is Some,
    ensures
        bytes_at(with_appended(segs, at, tail), id, pos, len) == bytes_at(segs, id, pos, len),
{
    let after = with_appended(segs, at, tail);
    let p = position_of(segs, id);
    assert(ids_ascending(after)) by {
        assert forall|i: int, j: int| 0 <= i < j < after.len() implies after[i].id
            < after[j].id by {
            assert(after[i].id == segs[i].id && after[j].id == segs[j].id);
        }
    }
    assert(after[p].id == id);
    lemma_position_of_own_id(after, p);
    lemma_position_of_own_id(segs, p);
    if p == at {
        assert(after[p].data.subrange(pos as int, pos + len) =~= segs[p].data.subrange(
            pos as int,
            pos + len,
        ));
    }
}

/// What recovery reads after one more record was appended to the last
/// segment: what it read before, with the command of the record applied.
pub proof fn lemma_recover_appended(segs: Seq<SegmentView>, frame: Seq<u8>)
    requires
        segs.len() > 0,
        recover(segs) is Some,
        separator_free(frame),
        command_of(frame) is Some,
    ensures
        recover(with_appended(segs, segs.len() - 1, frame + seq![SEPARATOR])) == Some(
            crate::recovery::apply_command(
                recover(segs)->0,
                command_of(frame)->0,
                place(
                    segs.last().id,
                    segs.last().data.len() as int,
                    (segs.last().data.len() + frame.len()) as int,
                ),
            ),
        ),
{
    let after = with_appended(segs, segs.len() - 1, frame + seq![SEPARATOR]);
    let data = segs.last().data;
    assert(after.drop_last() =~= segs.drop_last());
    assert(after.last().data =~= data + frame + seq![SEPARATOR]);
    let before = recover_from(nothing_recovered(), segs.drop_last())->0;
    lemma_scan_append(before, segs.last().id, data, frame, 0);
}

/// Appending keeps the segments in order and within size.
pub proof fn lemma_appended_shape(v: KvsView, frame: Seq<u8>)
    requires
        valid(v),
        v.segments.last().data.len() + frame.len() + 1 <= u64::MAX,
    ensures
        ids_ascending(appended(v, frame)),
        sizes_fit(appended(v, frame)),
        appended(v, frame).len() == v.segments.len(),
        appended(v, frame).last().id == v.current_log,
{
    let after = appended(v, frame);
    assert forall|i: int, j: int| 0 <= i < j < after.len() implies after[i].id < after[j].id by {
        assert(after[i].id == v.segments[i].id && after[j].id == v.segments[j].id);
    }
    assert forall|i: int| 0 <= i < after.len() implies #[trigger] after[i].data.len()
        <= u64::MAX by {
        if i < after.len() - 1 {
            assert(after[i] == v.segments[i]);
        }
    }
}

/// The records that the entries of a valid state point at lie unchanged in
/// the segments after an append.
pub proof fn lemma_records_after_append(v: KvsView, frame: Seq<u8>, at: CommandPos)
    requires
        valid(v),
        record_at(v.segments, at) is Some,
    ensures
        record_at(appended(v, frame), at) == record_at(v.segments, at),
{
    lemma_bytes_at_after_append(
        v.segments,
        v.segments.len() - 1,
        frame + seq![SEPARATOR],
        at.log,
        at.pos,
        at.len,
    );
}

/// The frame that was appended is what lies at its place.
pub proof fn lemma_tail_record(v: KvsView, frame: Seq<u8>)
    requires
        valid(v),
        v.segments.last().data.len() + frame.len() + 1 <= u64::MAX,
    ensures
        bytes_at(
            appended(v, frame),
            tail_place(v, frame).log,
            tail_place(v, frame).pos,
            tail_place(v, frame).len,
        ) == Some(frame),
{
    let after = appended(v, frame);
    let n = v.segments.len() - 1;
    lemma_appended_shape(v, frame);
    lemma_position_of_own_id(after, n);
    let data = v.segments.last().data;
    assert(after[n].data.subrange(data.len() as int, (data.len() + frame.len()) as int)
        =~= frame);
}

/// Every entry of a valid state points at a record that sets its key.
pub proof fn lemma_valid_entries(v: KvsView)
    requires
        valid(v),
    ensures
        entries_ok(v.segments, v.entries),
{
    lemma_recovered_entries(v.segments);
}

/// A key of a valid state has a record that sets it to its value.
pub proof fn lemma_live_record(v: KvsView, key: Seq<char>)
    requires
        valid(v),
        place_of(v.entries, key) is Some,
    ensures
        record_at(v.segments, place_of(v.entries, key)->0) == Some(
            CommandView::Put { key, value: contents(v)[key] },
        ),
{
    lemma_valid_entries(v);
    let s = slot_of(v.entries, key);
    assert(entry_ok(v.segments, v.entries[s]));
}

/// Writing a record that sets `key` to `value` keeps the state valid and
/// sets the key in the contents.
pub proof fn lemma_after_put(v: KvsView, key: Seq<char>, value: Seq<char>, frame: Seq<u8>)
    requires
        valid(v),
        separator_free(frame),
        command_of(frame) == Some(CommandView::Put { key, value }),
        v.segments.last().data.len() + frame.len() + 1 <= u64::MAX,
    ensures
        valid(after_put(v, key, frame)),
        contents(after_put(v, key, frame)) == contents(v).insert(key, value),
{
    let w = after_put(v, key, frame);
    let at = tail_place(v, frame);
    lemma_appended_shape(v, frame);
    lemma_recover_appended(v.segments, frame);
    lemma_put_entry(v.entries, key, at);
    lemma_tail_record(v, frame);
    lemma_valid_entries(v);
    assert forall|k: Seq<char>| place_of(w.entries, k) is Some implies value_at(
        w.segments,
        place_of(w.entries, k)->0,
    ) == (if k == key {
        value
    } else {
        value_at(v.segments, place_of(v.entries, k)->0)
    }) by {
        if k != key {
            let s = slot_of(v.entries, k);
            assert(entry_ok(v.segments, v.entries[s]));
            lemma_records_after_append(v, frame, v.entries[s].at);
        }
    }
    assert(contents(w) =~= contents(v).insert(key, value));
}

/// Writing a record that removes `key` keeps the state valid and removes
/// the key from the contents.
pub proof fn lemma_after_rm(v: KvsView, key: Seq<char>, frame: Seq<u8>)
    requires
        valid(v),
        separator_free(frame),
        command_of(frame) == Some(CommandView::Rm { key }),
        v.segments.last().data.len() + frame.len() + 1 <= u64::MAX,
    ensures
        valid(after_rm(v, key, frame)),
        contents(after_rm(v, key, frame)) == contents(v).remove(key),
{
    let w = after_rm(v, key, frame);
    lemma_appended_shape(v, frame);
    lemma_recover_appended(v.segments, frame);
    lemma_drop_entry(v.entries, key);
    lemma_valid_entries(v);
    assert forall|k: Seq<char>| place_of(w.entries, k) is Some implies value_at(
        w.segments,
        place_of(w.entries, k)->0,
    ) == value_at(v.segments, place_of(v.entries, k)->0) by {
        let s = slot_of(v.entries, k);
        assert(entry_ok(v.segments, v.entries[s]));
        lemma_records_after_append(v, frame, v.entries[s].at);
    }
    assert(contents(w) =~= contents(v).remove(key));
}

/// Compaction keeps the state valid and the contents as they are.
pub proof fn lemma_compacted(v: KvsView)
    requires
        valid(v),
        can_compact(v),
        live_bytes(v.segments, v.entries).len() <= u64::MAX,
    ensures
        valid(compacted(v)),
        contents(compacted(v)) == contents(v),
{
    let w = compacted(v);
    let target = compaction_id(v);
    lemma_valid_entries(v);
    lemma_compacted_scan(v.segments, v.entries, target);
    let first = w.segments.drop_last();
    assert(first =~= seq![w.segments[0]]);
    assert(first.drop_last() =~= Seq::<SegmentView>::empty());
    assert(recover_from(nothing_recovered(), first.drop_last()) == Some(nothing_recovered()));
    assert(first.last() == w.segments[0]);
    assert(recover_from(nothing_recovered(), first) == Some(recovered(w.entries, 0)));
    assert(w.segments.last().data.len() == 0);
    assert(recover(w.segments) == Some(recovered(w.entries, 0)));
    assert(keys_distinct(w.entries));
    assert forall|k: Seq<char>| (place_of(w.entries, k) is Some) == (place_of(v.entries, k)
        is Some) by {
        if place_of(v.entries, k) is Some {
            let s = slot_of(v.entries, k);
            assert(w.entries[s].key == k);
        }
        if place_of(w.entries, k) is Some {
            let s = slot_of(w.entries, k);
            assert(v.entries[s].key == k);
        }
    }
    assert forall|k: Seq<char>| place_of(w.entries, k) is Some implies value_at(
        w.segments,
        place_of(w.entries, k)->0,
    ) == value_at(v.segments, place_of(v.entries, k)->0) by {
        let s = slot_of(w.entries, k);
        assert(v.entries[s].key == k);
        crate::index::lemma_slot_is(v.entries, s);
        lemma_moved_records(v.segments, v.entries, target, s);
    }
    assert(contents(w) =~= contents(v));
}

/// A new empty segment above all others keeps the state valid and the
/// contents as they are.
pub proof fn lemma_rotated(v: KvsView, id: u64)
    requires
        valid(v),
        id > v.segments.last().id,
    ensures
        valid(rotated(v, id)),
        contents(rotated(v, id)) == contents(v),
{
    let w = rotated(v, id);
    assert(w.segments.drop_last() =~= v.segments);
    assert(ids_ascending(w.segments)) by {
        assert forall|i: int, j: int| 0 <= i < j < w.segments.len() implies w.segments[i].id
            < w.segments[j].id by {
            if j == v.segments.len() {
                if i < v.segments.len() - 1 {
                    assert(v.segments[i].id < v.segments[v.segments.len() - 1].id);
                }
            }
        }
    }
    lemma_valid_entries(v);
    assert forall|k: Seq<char>| place_of(w.entries, k) is Some implies value_at(
        w.segments,
        place_of(w.entries, k)->0,
    ) == value_at(v.segments, place_of(v.entries, k)->0) by {
        let s = slot_of(v.entries, k);
        let at = v.entries[s].at;
        assert(entry_ok(v.segments, v.entries[s]));
        let p = position_of(v.segments, at.log);
        assert(w.segments[p] == v.segments[p]);
        lemma_position_of_own_id(w.segments, p);
        lemma_position_of_own_id(v.segments, p);
    }
    assert(contents(w) =~= contents(v));
}

/// What opening gives is valid.
pub proof fn lemma_opened(segs: Seq<SegmentView>, limit: u64)
    requires
        ids_ascending(segs),
        sizes_fit(segs),
        opened(segs, limit) is Some,
    ensures
        valid(opened(segs, limit)->0),
{
    let segments = opened_segments(segs);
    lemma_recovered_entries(segments);
}

} // verus!

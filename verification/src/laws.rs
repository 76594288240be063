//! What holds of the store whatever is written to it, proved over the
//! states and steps of the model.
//!
//! The laws ask that the states they speak of fit in memory: no segment
//! is longer than an offset can say. Every store that runs meets this.

use crate::codec::{
    command_of, command_of_fields, fields_of, packed_fields, reads_back, record_of, CommandView,
};
use crate::framing::{frame_of, payload_of};
use crate::compaction::live_bytes;
use crate::framing::separator_free;
use crate::index::{place_of, EntryView};
use crate::model::{
    after_put, after_rm, after_set, can_compact, compacted, compaction_due, compaction_id,
    contents, lemma_after_put, lemma_after_rm, lemma_compacted, opened, valid, KvsView,
};
use crate::recovery::{nothing_recovered, recover, recover_from, sat_add};
use crate::store::{has_segment, SegmentView};
use crate::sync::{
    apply_ops, changes_for, extents_of, files_of, grown_from, law_changes_follow_the_store,
};
use crate::model::{appended, rotated};
use vstd::prelude::*;

verus! {

/// The three fields that a command is packed as are read back as the command.
pub proof fn law_fields_round_trip(cmd: CommandView)
    ensures
        command_of_fields(fields_of(cmd).0, fields_of(cmd).1, fields_of(cmd).2) == Some(cmd),
{
}

/// The frame of a payload holds no separator, and unescaping it gives the
/// payload back, whatever bytes the payload holds.
pub proof fn law_frame_round_trip(payload: Seq<u8>)
    ensures
        separator_free(frame_of(payload)),
        payload_of(frame_of(payload)) == Some(payload),
{
    crate::framing::lemma_frame_round_trip(payload);
    crate::framing::lemma_frame_shape(payload);
}

/// The frame holds no separator and stands for the command.
pub open spec fn stands_for(frame: Seq<u8>, cmd: CommandView) -> bool {
    separator_free(frame) && command_of(frame) == Some(cmd)
}

/// The frame stands for the command that sets `key` to `value`.
pub open spec fn stands_for_put(frame: Seq<u8>, key: Seq<char>, value: Seq<char>) -> bool {
    stands_for(frame, CommandView::Put { key, value })
}

/// The frame stands for the command that removes `key`.
pub open spec fn stands_for_rm(frame: Seq<u8>, key: Seq<char>) -> bool {
    stands_for(frame, CommandView::Rm { key })
}

/// A command whose packed bytes read back has a record that holds no
/// separator and stands for the command: where a set or a removal succeeds,
/// the laws on its frame apply.
pub proof fn law_read_back_gives_a_record(cmd: CommandView)
    requires
        reads_back(cmd),
    ensures
        stands_for(record_of(cmd), cmd),
{
    law_frame_round_trip(packed_fields(cmd));
    law_fields_round_trip(cmd);
}

/// The active segment is short enough to take the frame and its separator.
pub open spec fn append_fits(v: KvsView, frame: Seq<u8>) -> bool {
    v.segments.last().data.len() + frame.len() + 1 <= u64::MAX
}

/// The live records of the state are short enough for one segment.
pub open spec fn compaction_fits(v: KvsView) -> bool {
    live_bytes(v.segments, v.entries).len() <= u64::MAX
}

/// The segments are short enough for a set of `key` with the record
/// `frame`, and for the compaction that may follow it.
pub open spec fn set_fits(v: KvsView, key: Seq<char>, frame: Seq<u8>) -> bool {
    append_fits(v, frame) && compaction_fits(after_put(v, key, frame))
}

/// After a set of `key` to `value`, the state is valid, the key has that
/// value, and every other key is as it was.
pub proof fn law_set_then_get(v: KvsView, key: Seq<char>, value: Seq<char>, frame: Seq<u8>)
    requires
        valid(v),
        stands_for_put(frame, key, value),
        set_fits(v, key, frame),
    ensures
        valid(after_set(v, key, frame)),
        contents(after_set(v, key, frame)) == contents(v).insert(key, value),
        contents(after_set(v, key, frame)).contains_key(key),
        contents(after_set(v, key, frame))[key] == value,
{
    lemma_after_put(v, key, value, frame);
    let written = after_put(v, key, frame);
    if compaction_due(written) && can_compact(written) {
        lemma_compacted(written);
    }
}

/// The state after the records `frames`, which all set `key`, were written
/// one after the other.
pub open spec fn after_sets(v: KvsView, key: Seq<char>, frames: Seq<Seq<u8>>) -> KvsView
    decreases frames.len(),
{
    if frames.len() == 0 {
        v
    } else {
        after_set(after_sets(v, key, frames.drop_last()), key, frames.last())
    }
}

/// Every set of the run fits when its turn comes.
pub open spec fn sets_fit(v: KvsView, key: Seq<char>, frames: Seq<Seq<u8>>) -> bool {
    forall|i: int|
        0 <= i < frames.len() ==> set_fits(
            after_sets(v, key, #[trigger] frames.take(i)),
            key,
            frames[i],
        )
}

/// After a key was set to several values, one after the other, it has the
/// last of them.
pub proof fn law_last_set_wins(
    v: KvsView,
    key: Seq<char>,
    values: Seq<Seq<char>>,
    frames: Seq<Seq<u8>>,
)
    requires
        valid(v),
        frames.len() == values.len(),
        forall|i: int| 0 <= i < frames.len() ==> stands_for_put(frames[i], key, values[i]),
        sets_fit(v, key, frames),
    ensures
        valid(after_sets(v, key, frames)),
        frames.len() > 0 ==> contents(after_sets(v, key, frames)).contains_key(key) && contents(
            after_sets(v, key, frames),
        )[key] == values.last(),
    decreases frames.len(),
{
    if frames.len() > 0 {
        let n = frames.len() - 1;
        let earlier = frames.drop_last();
        assert(earlier =~= frames.take(n));
        assert forall|i: int| 0 <= i < earlier.len() implies set_fits(
            after_sets(v, key, #[trigger] earlier.take(i)),
            key,
            earlier[i],
        ) by {
            assert(earlier.take(i) =~= frames.take(i));
        }
        law_last_set_wins(v, key, values.drop_last(), earlier);
        assert(set_fits(after_sets(v, key, frames.take(n)), key, frames[n]));
        law_set_then_get(after_sets(v, key, earlier), key, values[n], frames[n]);
    }
}

/// After a key was removed it has no value, and every other key is as it was.
pub proof fn law_remove_then_get(v: KvsView, key: Seq<char>, frame: Seq<u8>)
    requires
        valid(v),
        stands_for_rm(frame, key),
        append_fits(v, frame),
    ensures
        valid(after_rm(v, key, frame)),
        contents(after_rm(v, key, frame)) == contents(v).remove(key),
        !contents(after_rm(v, key, frame)).contains_key(key),
{
    lemma_after_rm(v, key, frame);
}

/// A key that was set and then removed has no value.
pub proof fn law_set_remove_then_get(
    v: KvsView,
    key: Seq<char>,
    value: Seq<char>,
    put_frame: Seq<u8>,
    rm_frame: Seq<u8>,
)
    requires
        valid(v),
        stands_for_put(put_frame, key, value),
        set_fits(v, key, put_frame),
        stands_for_rm(rm_frame, key),
        append_fits(after_set(v, key, put_frame), rm_frame),
    ensures
        !contents(after_rm(after_set(v, key, put_frame), key, rm_frame)).contains_key(key),
{
    law_set_then_get(v, key, value, put_frame);
    law_remove_then_get(after_set(v, key, put_frame), key, rm_frame);
}

/// Closing a store and opening its segments again gives the state that the
/// store had: the same index, the same count of dead bytes, the same active
/// segment, and so the same answer to every later operation.
pub proof fn law_reopen_gives_same_state(v: KvsView)
    requires
        valid(v),
    ensures
        opened(v.segments, v.compaction_limit) == Some(v),
        contents(opened(v.segments, v.compaction_limit)->0) == contents(v),
{
}

/// After compaction two segments are left, and no segment with an id below
/// the compaction id is among them.
pub proof fn law_compaction_drops_old_segments(v: KvsView, id: u64)
    requires
        valid(v),
        can_compact(v),
        id < compaction_id(v),
    ensures
        compacted(v).segments.len() == 2,
        !has_segment(compacted(v).segments, id),
{
}

/// A set that leaves more dead bytes than the limit allows ends with two
/// segments and no dead bytes, as long as two ids are left.
pub proof fn law_set_bounds_segments(v: KvsView, key: Seq<char>, frame: Seq<u8>)
    requires
        valid(v),
        compaction_due(after_put(v, key, frame)),
        can_compact(after_put(v, key, frame)),
    ensures
        after_set(v, key, frame).segments.len() == 2,
        after_set(v, key, frame).uncompacted == 0,
        !compaction_due(after_set(v, key, frame)),
{
}

/// No set and no removal adds to the number of segments: it stays, or falls
/// to two.
pub proof fn law_writes_add_no_segments(v: KvsView, key: Seq<char>, frame: Seq<u8>)
    requires
        valid(v),
    ensures
        after_set(v, key, frame).segments.len() == v.segments.len() || after_set(
            v,
            key,
            frame,
        ).segments.len() == 2,
        after_rm(v, key, frame).segments.len() == v.segments.len(),
{
}

/// Compaction changes no value: what every key gives is what it gave before.
pub proof fn law_compaction_keeps_contents(v: KvsView)
    requires
        valid(v),
        can_compact(v),
        compaction_fits(v),
    ensures
        valid(compacted(v)),
        contents(compacted(v)) == contents(v),
{
    lemma_compacted(v);
}

/// Opening no segments gives a store with the empty segment 0 as its
/// active segment, no key and no dead bytes.
pub proof fn law_open_empty(limit: u64)
    ensures
        opened(Seq::empty(), limit) == Some(
            KvsView {
                segments: seq![SegmentView { id: 0, data: Seq::empty() }],
                entries: Seq::empty(),
                uncompacted: 0,
                compaction_limit: limit,
                current_log: 0,
            },
        ),
        valid(opened(Seq::empty(), limit)->0),
        contents(opened(Seq::empty(), limit)->0) == Map::<Seq<char>, Seq<char>>::empty(),
{
    let segments = seq![SegmentView { id: 0, data: Seq::<u8>::empty() }];
    assert(segments.drop_last() =~= Seq::<SegmentView>::empty());
    assert(recover_from(nothing_recovered(), segments.drop_last()) == Some(nothing_recovered()));
    assert(recover(segments) == Some(nothing_recovered()));
    let v = opened(Seq::empty(), limit)->0;
    assert(v.entries =~= Seq::<EntryView>::empty());
    assert(contents(v) =~= Map::<Seq<char>, Seq<char>>::empty());
}

/// Opening the single empty segment 0 gives what opening no segments gives.
pub proof fn law_open_empty_segment_zero(limit: u64)
    ensures
        opened(seq![SegmentView { id: 0, data: Seq::empty() }], limit) == opened(
            Seq::empty(),
            limit,
        ),
{
}

/// A set of a key that has a record counts the length of that record as
/// dead, whatever the length of the new record; a set of a new key counts
/// nothing.
pub proof fn law_set_counts_previous_record(v: KvsView, key: Seq<char>, frame: Seq<u8>)
    ensures
        after_put(v, key, frame).uncompacted == (match place_of(v.entries, key) {
            Some(at) => sat_add(v.uncompacted, at.len),
            None => v.uncompacted,
        }),
{
}

/// Compaction writes the segment one above the highest id and leaves the
/// segment two above it active.
pub proof fn law_compaction_ids(v: KvsView)
    requires
        valid(v),
        can_compact(v),
    ensures
        compacted(v).segments[0].id == v.segments.last().id + 1,
        compacted(v).segments[1].id == v.segments.last().id + 2,
        compacted(v).current_log == v.segments.last().id + 2,
{
}

/// After compaction every key points into the compaction segment.
pub proof fn law_compaction_moves_every_key(v: KvsView, i: int)
    requires
        valid(v),
        can_compact(v),
        0 <= i < v.entries.len(),
    ensures
        compacted(v).entries.len() == v.entries.len(),
        compacted(v).entries[i].key == v.entries[i].key,
        compacted(v).entries[i].at.log == compaction_id(v),
{
}

/// In a valid state every key of the index points at a record, in a segment
/// of the store, that sets this key.
pub proof fn law_index_points_at_records(v: KvsView, i: int)
    requires
        valid(v),
        0 <= i < v.entries.len(),
    ensures
        has_segment(v.segments, v.entries[i].at.log),
        crate::recovery::entry_ok(v.segments, v.entries[i]),
{
    crate::model::lemma_valid_entries(v);
    assert(crate::recovery::entry_ok(v.segments, v.entries[i]));
}

/// An append changes the segments only by growth.
pub proof fn law_append_grows(v: KvsView, frame: Seq<u8>)
    requires
        valid(v),
    ensures
        grown_from(v.segments, appended(v, frame)),
{
    let after = appended(v, frame);
    assert forall|i: int, j: int|
        0 <= i < v.segments.len() && 0 <= j < after.len() && (#[trigger] v.segments[i]).id == (
        #[trigger] after[j]).id implies v.segments[i].data.len() <= after[j].data.len()
        && after[j].data.take(v.segments[i].data.len() as int) == v.segments[i].data by {
        assert(after[j].id == v.segments[j].id);
        if i < j {
            assert(v.segments[i].id < v.segments[j].id);
        } else if j < i {
            assert(v.segments[j].id < v.segments[i].id);
        }
        assert(after[j].data.take(v.segments[i].data.len() as int) =~= v.segments[i].data);
    }
}

/// Compaction changes the segments only by growth: it adds two segments
/// and deletes the others.
pub proof fn law_compaction_grows(v: KvsView)
    requires
        valid(v),
        can_compact(v),
    ensures
        grown_from(v.segments, compacted(v).segments),
{
    let after = compacted(v).segments;
    assert forall|i: int, j: int|
        0 <= i < v.segments.len() && 0 <= j < after.len() && (#[trigger] v.segments[i]).id == (
        #[trigger] after[j]).id implies v.segments[i].data.len() <= after[j].data.len()
        && after[j].data.take(v.segments[i].data.len() as int) == v.segments[i].data by {
        if i < v.segments.len() - 1 {
            assert(v.segments[i].id < v.segments[v.segments.len() - 1].id);
        }
    }
}

/// A set changes the segments only by growth.
pub proof fn law_set_grows(v: KvsView, key: Seq<char>, value: Seq<char>, frame: Seq<u8>)
    requires
        valid(v),
        stands_for_put(frame, key, value),
        set_fits(v, key, frame),
    ensures
        grown_from(v.segments, after_set(v, key, frame).segments),
{
    let written = after_put(v, key, frame);
    law_append_grows(v, frame);
    if compaction_due(written) && can_compact(written) {
        lemma_after_put(v, key, value, frame);
        law_compaction_grows(written);
        let after = compacted(written).segments;
        assert forall|i: int, j: int|
            0 <= i < v.segments.len() && 0 <= j < after.len() && (#[trigger] v.segments[i]).id
                == (#[trigger] after[j]).id implies v.segments[i].data.len()
            <= after[j].data.len() && after[j].data.take(v.segments[i].data.len() as int)
            == v.segments[i].data by {
            if i < v.segments.len() - 1 {
                assert(v.segments[i].id < v.segments[v.segments.len() - 1].id);
            }
        }
    }
}

/// A new active segment changes the segments only by growth.
pub proof fn law_rotation_grows(v: KvsView, id: u64)
    requires
        valid(v),
        id > v.segments.last().id,
    ensures
        grown_from(v.segments, rotated(v, id).segments),
{
    let after = rotated(v, id).segments;
    assert forall|i: int, j: int|
        0 <= i < v.segments.len() && 0 <= j < after.len() && (#[trigger] v.segments[i]).id == (
        #[trigger] after[j]).id implies v.segments[i].data.len() <= after[j].data.len()
        && after[j].data.take(v.segments[i].data.len() as int) == v.segments[i].data by {
        if j < v.segments.len() {
            if i < j {
                assert(v.segments[i].id < v.segments[j].id);
            } else if j < i {
                assert(v.segments[j].id < v.segments[i].id);
            }
            assert(after[j].data.take(v.segments[i].data.len() as int) =~= v.segments[i].data);
        } else {
            if i < v.segments.len() - 1 {
                assert(v.segments[i].id < v.segments[v.segments.len() - 1].id);
            }
        }
    }
}

/// Files that held the segments before a set hold them after it, once the
/// steps are applied that the store names for a copy of that extent.
pub proof fn law_copy_follows_set(v: KvsView, key: Seq<char>, value: Seq<char>, frame: Seq<u8>)
    requires
        valid(v),
        stands_for_put(frame, key, value),
        set_fits(v, key, frame),
    ensures
        apply_ops(
            files_of(v.segments),
            changes_for(after_set(v, key, frame).segments, extents_of(v.segments)),
        ) == files_of(after_set(v, key, frame).segments),
{
    law_set_then_get(v, key, value, frame);
    law_set_grows(v, key, value, frame);
    law_changes_follow_the_store(v.segments, after_set(v, key, frame).segments);
}

/// Files that held the segments before a removal hold them after it, once
/// the steps are applied that the store names for a copy of that extent.
pub proof fn law_copy_follows_rm(v: KvsView, key: Seq<char>, frame: Seq<u8>)
    requires
        valid(v),
        stands_for_rm(frame, key),
        append_fits(v, frame),
    ensures
        apply_ops(
            files_of(v.segments),
            changes_for(after_rm(v, key, frame).segments, extents_of(v.segments)),
        ) == files_of(after_rm(v, key, frame).segments),
{
    law_remove_then_get(v, key, frame);
    law_append_grows(v, frame);
    law_changes_follow_the_store(v.segments, after_rm(v, key, frame).segments);
}

} // verus!

//! Compaction as a function on plain values: the bytes of the segment that
//! holds every live record once, and the places of the records in it.

use crate::codec::{command_of, CommandView};
use crate::framing::{lemma_payload_means_separator_free, SEPARATOR};
use crate::index::{has_key, keys_distinct, slot_of, CommandPos, EntryView};
use crate::recovery::{
    apply_command, entries_ok, entry_ok, lemma_scan_append, nothing_recovered, place, record_at,
    recovered, scan,
};
use crate::store::{bytes_at, lemma_position_of_own_id, SegmentView};
use vstd::prelude::*;

verus! {

/// The bytes that lie at `at`, empty where the segments hold no such range.
pub open spec fn frame_at(segs: Seq<SegmentView>, at: CommandPos) -> Seq<u8> {
    match bytes_at(segs, at.log, at.pos, at.len) {
        Some(frame) => frame,
        None => Seq::empty(),
    }
}

/// The records of the entries `es`, in their order, each with its separator.
pub open spec fn live_bytes(segs: Seq<SegmentView>, es: Seq<EntryView>) -> Seq<u8>
    decreases es.len(),
{
    if es.len() == 0 {
        Seq::empty()
    } else {
        live_bytes(segs, es.drop_last()) + frame_at(segs, es.last().at) + seq![SEPARATOR]
    }
}

/// The place of the record of entry `i` once the records of `es` lie one
/// after the other in segment `target`.
pub open spec fn moved_place(segs: Seq<SegmentView>, es: Seq<EntryView>, i: int, target: u64)
    -> CommandPos {
    CommandPos { pos: live_bytes(segs, es.take(i)).len() as u64, len: es[i].at.len, log: target }
}

/// The entries `es`, each pointing at its record in segment `target`.
pub open spec fn moved(segs: Seq<SegmentView>, es: Seq<EntryView>, target: u64) -> Seq<
    EntryView,
> {
    Seq::new(
        es.len(),
        |i: int| EntryView { key: es[i].key, at: moved_place(segs, es, i, target) },
    )
}

/// The two segments that compaction leaves: `target` with the live records
/// and an empty one after it.
pub open spec fn compacted_segments(segs: Seq<SegmentView>, es: Seq<EntryView>, target: u64)
    -> Seq<SegmentView> {
    seq![
        SegmentView { id: target, data: live_bytes(segs, es) },
        SegmentView { id: (target + 1) as u64, data: Seq::empty() },
    ]
}

/// The records of the first `i` entries are the first bytes of the records
/// of all, and the record of entry `i` follows them.
pub proof fn lemma_live_bytes_prefix(segs: Seq<SegmentView>, es: Seq<EntryView>, i: int)
    requires
        0 <= i < es.len(),
    ensures
        live_bytes(segs, es.take(i)).len() + frame_at(segs, es[i].at).len() < live_bytes(
            segs,
            es,
        ).len(),
        live_bytes(segs, es).subrange(
            live_bytes(segs, es.take(i)).len() as int,
            (live_bytes(segs, es.take(i)).len() + frame_at(segs, es[i].at).len()) as int,
        ) == frame_at(segs, es[i].at),
    decreases es.len(),
{
    let all = live_bytes(segs, es);
    let shorter = es.drop_last();
    let before = live_bytes(segs, shorter);
    if i == es.len() - 1 {
        assert(es.take(i) =~= shorter);
        assert(all.subrange(
            before.len() as int,
            (before.len() + frame_at(segs, es[i].at).len()) as int,
        ) =~= frame_at(segs, es[i].at));
    } else {
        lemma_live_bytes_prefix(segs, shorter, i);
        assert(shorter.take(i) =~= es.take(i));
        assert(shorter[i] == es[i]);
        let start = live_bytes(segs, es.take(i)).len() as int;
        let end = start + frame_at(segs, es[i].at).len();
        assert(all.subrange(start, end) =~= before.subrange(start, end));
    }
}

/// Reading the compacted bytes as a segment gives the moved entries and no
/// dead bytes.
pub proof fn lemma_compacted_scan(segs: Seq<SegmentView>, es: Seq<EntryView>, target: u64)
    requires
        keys_distinct(es),
        entries_ok(segs, es),
    ensures
        scan(nothing_recovered(), target, live_bytes(segs, es), 0) == Some(
            recovered(moved(segs, es, target), 0),
        ),
    decreases es.len(),
{
    if es.len() == 0 {
        assert(moved(segs, es, target) =~= Seq::<EntryView>::empty());
    } else {
        let shorter = es.drop_last();
        let last = es.last();
        let before = live_bytes(segs, shorter);
        let frame = frame_at(segs, last.at);
        assert(keys_distinct(shorter));
        assert(entries_ok(segs, shorter)) by {
            assert forall|i: int| 0 <= i < shorter.len() implies entry_ok(
                segs,
                #[trigger] shorter[i],
            ) by {
                assert(shorter[i] == es[i]);
            }
        }
        lemma_compacted_scan(segs, shorter, target);
        assert(entry_ok(segs, last));
        assert(command_of(frame) is Some);
        lemma_payload_means_separator_free(frame);
        lemma_scan_append(nothing_recovered(), target, before, frame, 0);
        let at = place(target, before.len() as int, (before.len() + frame.len()) as int);
        let earlier = moved(segs, shorter, target);
        assert(!has_key(earlier, last.key)) by {
            if has_key(earlier, last.key) {
                let s = slot_of(earlier, last.key);
                assert(es[s].key == shorter[s].key);
                assert(es[s].key != es[es.len() - 1].key);
            }
        }
        assert(frame.len() == last.at.len);
        assert(at == moved_place(segs, es, es.len() - 1, target)) by {
            assert(es.take(es.len() - 1) =~= shorter);
        }
        assert(moved(segs, es, target) =~= earlier.push(EntryView { key: last.key, at })) by {
            assert forall|i: int| 0 <= i < shorter.len() implies moved(segs, es, target)[i]
                == earlier[i] by {
                assert(es.take(i) =~= shorter.take(i));
            }
        }
    }
}

/// After compaction every entry points at a record that says what its
/// record said before.
pub proof fn lemma_moved_records(
    segs: Seq<SegmentView>,
    es: Seq<EntryView>,
    target: u64,
    i: int,
)
    requires
        entries_ok(segs, es),
        0 <= i < es.len(),
        live_bytes(segs, es).len() <= u64::MAX,
        target < u64::MAX,
    ensures
        record_at(compacted_segments(segs, es, target), moved(segs, es, target)[i].at)
            == record_at(segs, es[i].at),
{
    let after = compacted_segments(segs, es, target);
    let at = moved(segs, es, target)[i].at;
    lemma_live_bytes_prefix(segs, es, i);
    assert(crate::store::ids_ascending(after));
    lemma_position_of_own_id(after, 0);
    assert(entry_ok(segs, es[i]));
    assert(frame_at(segs, es[i].at).len() == es[i].at.len);
    assert(bytes_at(after, at.log, at.pos, at.len) == Some(frame_at(segs, es[i].at)));
}

} // verus!

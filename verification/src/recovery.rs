//! Recovery: what the segments of a store say about the index.
//!
//! The segments are read in ascending order of id, and the records of a
//! segment from its first byte on. Every record is decoded and applied to
//! the index; the bytes of records that a later record made dead are counted.

use crate::codec::{command_of, decode, CommandView, KvsCommand};
use crate::error::{ErrorKind, KvsError};
use crate::framing::{separator_free, SEPARATOR};
use crate::index::{
    drop_entry, keys_distinct, lemma_drop_entry, lemma_put_entry, place_of, put_entry,
    CommandPos, EntryView, Index,
};
use crate::store::{
    bytes_at, ids_ascending, lemma_position_of_own_id, sizes_fit, SegmentStore, SegmentView,
};
use vstd::prelude::*;
use vstd::slice::slice_subrange;

verus! {

/// What recovery has gathered: the index entries and the count of dead bytes.
pub struct Recovered {
    pub entries: Seq<EntryView>,
    pub dead: u64,
}

/// The state with the given entries and count of dead bytes.
pub open spec fn recovered(entries: Seq<EntryView>, dead: u64) -> Recovered {
    Recovered { entries, dead }
}

/// The state before any record is read.
pub open spec fn nothing_recovered() -> Recovered {
    Recovered { entries: Seq::empty(), dead: 0 }
}

/// The sum of two counts, held at the largest count where it would pass it.
pub open spec fn sat_add(a: u64, b: u64) -> u64 {
    if a + b > u64::MAX {
        u64::MAX
    } else {
        (a + b) as u64
    }
}

/// The length of the record that `es` holds for `key`, 0 where it holds none:
/// the bytes that die when the key is set again or removed.
pub open spec fn freed(es: Seq<EntryView>, key: Seq<char>) -> u64 {
    match place_of(es, key) {
        Some(at) => at.len,
        None => 0,
    }
}

/// The state after one command, whose record lies at `at`, has been applied.
pub open spec fn apply_command(st: Recovered, cmd: CommandView, at: CommandPos) -> Recovered {
    match cmd {
        CommandView::Put { key, value } => Recovered {
            entries: put_entry(st.entries, key, at),
            dead: sat_add(st.dead, freed(st.entries, key)),
        },
        CommandView::Rm { key } => Recovered {
            entries: drop_entry(st.entries, key),
            dead: sat_add(st.dead, freed(st.entries, key)),
        },
    }
}

/// The position of the first separator at or after `from`; the length of
/// `data` where there is none.
pub open spec fn frame_end(data: Seq<u8>, from: int) -> int
    decreases data.len() - from,
{
    if from < 0 || from >= data.len() {
        data.len() as int
    } else if data[from] == SEPARATOR {
        from
    } else {
        frame_end(data, from + 1)
    }
}

/// `frame_end` lies between `from` and the end, no separator stands before
/// it, and one stands at it unless it is the end.
pub proof fn lemma_frame_end(data: Seq<u8>, from: int)
    requires
        0 <= from <= data.len(),
    ensures
        from <= frame_end(data, from) <= data.len(),
        forall|i: int| from <= i < frame_end(data, from) ==> data[i] != SEPARATOR,
        frame_end(data, from) < data.len() ==> data[frame_end(data, from)] == SEPARATOR,
    decreases data.len() - from,
{
    if from < data.len() && data[from] != SEPARATOR {
        lemma_frame_end(data, from + 1);
    }
}

/// Where no separator stands in `from..end` and one stands at `end`, or
/// `end` is the end of `data`, `end` is the frame end.
pub proof fn lemma_frame_end_is(data: Seq<u8>, from: int, end: int)
    requires
        0 <= from <= end <= data.len(),
        forall|i: int| from <= i < end ==> data[i] != SEPARATOR,
        end < data.len() ==> data[end] == SEPARATOR,
    ensures
        frame_end(data, from) == end,
    decreases end - from,
{
    if from < end {
        lemma_frame_end_is(data, from + 1, end);
    }
}

/// The place of the record that starts at `from` and ends before `end` in
/// segment `id`.
pub open spec fn place(id: u64, from: int, end: int) -> CommandPos {
    CommandPos { pos: from as u64, len: (end - from) as u64, log: id }
}

/// The state after the records of `data` from offset `from` on have been
/// applied to `st`, as records of segment `id`. `None` where the bytes are
/// no run of records: the last frame has no separator after it, or a frame
/// does not decode.
pub open spec fn scan(st: Recovered, id: u64, data: Seq<u8>, from: int) -> Option<Recovered>
    decreases data.len() - from,
{
    if from < 0 || from >= data.len() {
        Some(st)
    } else {
        let end = frame_end(data, from);
        if end >= data.len() || end < from {
            None
        } else {
            match command_of(data.subrange(from, end)) {
                None => None,
                Some(cmd) => scan(apply_command(st, cmd, place(id, from, end)), id, data, end + 1),
            }
        }
    }
}

/// The state after all segments of `segs`, in their order, have been
/// applied to `st`.
pub open spec fn recover_from(st: Recovered, segs: Seq<SegmentView>) -> Option<Recovered>
    decreases segs.len(),
{
    if segs.len() == 0 {
        Some(st)
    } else {
        match recover_from(st, segs.drop_last()) {
            None => None,
            Some(before) => scan(before, segs.last().id, segs.last().data, 0),
        }
    }
}

/// What the segments of a store say: the index and the dead bytes that
/// reading them from nothing gives.
pub open spec fn recover(segs: Seq<SegmentView>) -> Option<Recovered> {
    recover_from(nothing_recovered(), segs)
}

/// One more record after scanned bytes: the scan of the longer bytes is the
/// scan of the shorter ones with the command of the new frame applied.
pub proof fn lemma_scan_append(
    st: Recovered,
    id: u64,
    data: Seq<u8>,
    frame: Seq<u8>,
    from: int,
)
    requires
        0 <= from <= data.len(),
        scan(st, id, data, from) is Some,
        separator_free(frame),
        command_of(frame) is Some,
    ensures
        scan(st, id, data + frame + seq![SEPARATOR], from) == Some(
            apply_command(
                scan(st, id, data, from)->0,
                command_of(frame)->0,
                place(id, data.len() as int, (data.len() + frame.len()) as int),
            ),
        ),
    decreases data.len() - from,
{
    let longer = data + frame + seq![SEPARATOR];
    if from == data.len() {
        let end = (data.len() + frame.len()) as int;
        assert forall|i: int| from <= i < end implies longer[i] != SEPARATOR by {
            assert(longer[i] == frame[i - data.len()]);
        }
        assert(longer[end] == SEPARATOR);
        lemma_frame_end_is(longer, from, end);
        assert(longer.subrange(from, end) =~= frame);
        assert(longer.len() == end + 1);
        let cmd = command_of(frame)->0;
        assert(scan(st, id, data, from) == Some(st));
        assert(scan(apply_command(st, cmd, place(id, from, end)), id, longer, end + 1) == Some(
            apply_command(st, cmd, place(id, from, end)),
        ));
    } else {
        let end = frame_end(data, from);
        lemma_frame_end(data, from);
        assert forall|i: int| from <= i < end implies longer[i] != SEPARATOR by {
            assert(longer[i] == data[i]);
        }
        assert(longer[end] == data[end]);
        lemma_frame_end_is(longer, from, end);
        assert(longer.subrange(from, end) =~= data.subrange(from, end));
        let cmd = command_of(data.subrange(from, end))->0;
        let next = apply_command(st, cmd, place(id, from, end));
        assert(end < data.len());
        assert(scan(st, id, data, from) == scan(next, id, data, end + 1));
        lemma_scan_append(next, id, data, frame, end + 1);
        assert(scan(st, id, longer, from) == scan(next, id, longer, end + 1));
    }
}

/// The command of the record that lies at `at`, where the segments hold
/// that range and its bytes decode.
pub open spec fn record_at(segs: Seq<SegmentView>, at: CommandPos) -> Option<CommandView> {
    match bytes_at(segs, at.log, at.pos, at.len) {
        Some(frame) => command_of(frame),
        None => None,
    }
}

/// The entry points at a record that sets its own key.
pub open spec fn entry_ok(segs: Seq<SegmentView>, e: EntryView) -> bool {
    match record_at(segs, e.at) {
        Some(CommandView::Put { key, value }) => key == e.key,
        _ => false,
    }
}

/// Every entry points at a record that sets its own key.
pub open spec fn entries_ok(segs: Seq<SegmentView>, es: Seq<EntryView>) -> bool {
    forall|i: int| 0 <= i < es.len() ==> entry_ok(segs, #[trigger] es[i])
}

/// Scanning a segment of `segs` keeps the keys distinct and every entry
/// pointing at a record of `segs` that sets its key.
pub proof fn lemma_scan_entries(segs: Seq<SegmentView>, k: int, st: Recovered, from: int)
    requires
        ids_ascending(segs),
        sizes_fit(segs),
        0 <= k < segs.len(),
        0 <= from <= segs[k].data.len(),
        keys_distinct(st.entries),
        entries_ok(segs, st.entries),
        scan(st, segs[k].id, segs[k].data, from) is Some,
    ensures
        keys_distinct(scan(st, segs[k].id, segs[k].data, from)->0.entries),
        entries_ok(segs, scan(st, segs[k].id, segs[k].data, from)->0.entries),
    decreases segs[k].data.len() - from,
{
    let id = segs[k].id;
    let data = segs[k].data;
    if from < data.len() {
        let end = frame_end(data, from);
        lemma_frame_end(data, from);
        let cmd = command_of(data.subrange(from, end))->0;
        let at = place(id, from, end);
        let next = apply_command(st, cmd, at);
        lemma_position_of_own_id(segs, k);
        assert(bytes_at(segs, at.log, at.pos, at.len) == Some(data.subrange(from, end)));
        match cmd {
            CommandView::Put { key, value } => {
                lemma_put_entry(st.entries, key, at);
                let e = EntryView { key, at };
                assert(entry_ok(segs, e));
                assert forall|i: int| 0 <= i < next.entries.len() implies entry_ok(
                    segs,
                    #[trigger] next.entries[i],
                ) by {
                    if next.entries[i] != e {
                        assert(next.entries[i] == st.entries[i]);
                    }
                }
            },
            CommandView::Rm { key } => {
                lemma_drop_entry(st.entries, key);
                assert forall|i: int| 0 <= i < next.entries.len() implies entry_ok(
                    segs,
                    #[trigger] next.entries[i],
                ) by {
                    assert(crate::index::holds_entry(st.entries, next.entries[i]));
                    let j = choose|j: int|
                        0 <= j < st.entries.len() && #[trigger] st.entries[j] == next.entries[i];
                    assert(entry_ok(segs, st.entries[j]));
                }
            },
        }
        lemma_scan_entries(segs, k, next, end + 1);
    }
}

/// What recovery gives from the first `n` segments has distinct keys, and
/// every entry points at a record of `segs` that sets its key.
pub proof fn lemma_recovered_prefix(segs: Seq<SegmentView>, n: int)
    requires
        ids_ascending(segs),
        sizes_fit(segs),
        0 <= n <= segs.len(),
        recover(segs.take(n)) is Some,
    ensures
        keys_distinct(recover(segs.take(n))->0.entries),
        entries_ok(segs, recover(segs.take(n))->0.entries),
    decreases n,
{
    if n > 0 {
        let part = segs.take(n);
        assert(part.drop_last() =~= segs.take(n - 1));
        assert(part.last() == segs[n - 1]);
        lemma_recovered_prefix(segs, n - 1);
        lemma_scan_entries(segs, n - 1, recover(segs.take(n - 1))->0, 0);
    }
}

/// What recovery gives has distinct keys, and every entry points at a
/// record that sets its key.
pub proof fn lemma_recovered_entries(segs: Seq<SegmentView>)
    requires
        ids_ascending(segs),
        sizes_fit(segs),
        recover(segs) is Some,
    ensures
        keys_distinct(recover(segs)->0.entries),
        entries_ok(segs, recover(segs)->0.entries),
{
    assert(segs.take(segs.len() as int) =~= segs);
    lemma_recovered_prefix(segs, segs.len() as int);
}

/// Adds two counts of dead bytes, holding the sum at the largest count.
pub fn add_dead(a: u64, b: u64) -> (sum: u64)
    ensures
        sum == sat_add(a, b),
{
    if b > u64::MAX - a {
        u64::MAX
    } else {
        a + b
    }
}

/// Applies one command, whose record lies at `at`, to the index, and returns
/// the count of dead bytes after it.
pub fn apply(index: &mut Index, cmd: KvsCommand, at: CommandPos, dead: u64) -> (total: u64)
    requires
        old(index).wf(),
    ensures
        final(index).wf(),
        recovered(final(index).entries(), total) == apply_command(
            recovered(old(index).entries(), dead),
            cmd@,
            at,
        ),
{
    let previous = match cmd {
        KvsCommand::Put { key, value } => index.insert(key, at),
        KvsCommand::Rm { key } => index.remove(&key),
    };
    match previous {
        Some(old_at) => add_dead(dead, old_at.len),
        None => dead,
    }
}

/// The end of the frame that starts at `from`: the position of the next
/// separator, or the length of `data` where none follows.
pub fn find_frame_end(data: &[u8], from: usize) -> (end: usize)
    requires
        from <= data@.len(),
    ensures
        end == frame_end(data@, from as int),
        from <= end <= data@.len(),
{
    let mut end: usize = from;
    while end < data.len() && data[end] != SEPARATOR
        invariant
            from <= end <= data@.len(),
            forall|i: int| from <= i < end ==> data@[i] != SEPARATOR,
        decreases data@.len() - end,
    {
        end += 1;
    }
    proof {
        lemma_frame_end_is(data@, from as int, end as int);
    }
    end
}

/// Reads the records of one segment into the index. `dead` is the count of
/// dead bytes before the segment; the count after it comes back. Bytes that
/// are no run of records give a `Codec` error.
pub fn load(log: u64, data: &[u8], index: &mut Index, dead: u64) -> (r: Result<u64, KvsError>)
    requires
        old(index).wf(),
    ensures
        final(index).wf(),
        match r {
            Ok(total) => scan(
                recovered(old(index).entries(), dead),
                log,
                data@,
                0,
            ) == Some(recovered(final(index).entries(), total)),
            Err(e) => e.kind == ErrorKind::Codec && (scan(
                recovered(old(index).entries(), dead),
                log,
                data@,
                0,
            ) is None),
        },
{
    let ghost start = recovered(index.entries(), dead);
    let mut total: u64 = dead;
    let mut pos: usize = 0;
    while pos < data.len()
        invariant
            index.wf(),
            pos <= data@.len(),
            start == recovered(old(index).entries(), dead),
            scan(start, log, data@, 0) == scan(
                recovered(index.entries(), total),
                log,
                data@,
                pos as int,
            ),
        decreases data@.len() - pos,
    {
        let end = find_frame_end(data, pos);
        if end >= data.len() {
            return Err(KvsError::codec());
        }
        let frame = slice_subrange(data, pos, end);
        match decode(frame) {
            None => {
                return Err(KvsError::codec());
            },
            Some(cmd) => {
                let at = CommandPos { pos: pos as u64, len: (end - pos) as u64, log };
                proof {
                    assert(at == place(log, pos as int, end as int));
                }
                total = apply(index, cmd, at, total);
                pos = end + 1;
            },
        }
    }
    Ok(total)
}

/// Reads all segments of a store, in ascending order of id, and returns the
/// index and the count of dead bytes that they give. A segment that is no
/// run of records gives a `Codec` error.
pub fn rebuild(store: &SegmentStore) -> (r: Result<(Index, u64), KvsError>)
    requires
        store.wf(),
    ensures
        match r {
            Ok((index, dead)) => index.wf() && recover(store@) == Some(
                recovered(index.entries(), dead),
            ),
            Err(e) => e.kind == ErrorKind::Codec && (recover(store@) is None),
        },
{
    let mut index = Index::new();
    let mut dead: u64 = 0;
    let mut i: usize = 0;
    let n = store.count();
    proof {
        assert(store@.take(0) =~= Seq::<SegmentView>::empty());
    }
    while i < n
        invariant
            index.wf(),
            i <= n,
            n == store@.len(),
            recover(store@.take(i as int)) == Some(recovered(index.entries(), dead)),
        decreases n - i,
    {
        proof {
            assert(store@.take(i + 1).drop_last() =~= store@.take(i as int));
            assert(store@.take(i + 1).last() == store@[i as int]);
        }
        match load(store.id_at(i), store.data_at(i), &mut index, dead) {
            Err(e) => {
                proof {
                    lemma_recover_fails_on(store@, i + 1);
                }
                return Err(e);
            },
            Ok(total) => {
                dead = total;
            },
        }
        i += 1;
    }
    proof {
        assert(store@.take(n as int) =~= store@);
    }
    Ok((index, dead))
}

/// Where recovery fails on the first `n` segments, it fails on all.
pub proof fn lemma_recover_fails_on(segs: Seq<SegmentView>, n: int)
    requires
        0 <= n <= segs.len(),
        recover(segs.take(n)) is None,
    ensures
        recover(segs) is None,
    decreases segs.len() - n,
{
    if n < segs.len() {
        assert(segs.take(n + 1).drop_last() =~= segs.take(n));
        lemma_recover_fails_on(segs, n + 1);
    } else {
        assert(segs.take(n) =~= segs);
    }
}

} // verus!

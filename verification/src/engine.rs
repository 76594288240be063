//! The engine: set, get and remove over the segments and the index, with
//! recovery on opening and compaction when too many bytes are dead.

use crate::codec::{
    decode, encode, put_command, put_record, reads_back, removes_key, rm_command, rm_record,
    sets_key, value_set_by, CommandView, KvsCommand,
};
use crate::compaction::{compacted_segments, live_bytes, moved, moved_place};
use crate::error::{ErrorKind, KvsError};
use crate::framing::{separator_free, SEPARATOR};
use crate::index::{place_of, CommandPos, EntryView, Index};
use crate::model::{
    after_put, after_rm, after_set, can_compact, compacted, compaction_due, contents,
    lemma_after_put, lemma_after_rm, lemma_compacted, lemma_live_record, lemma_opened,
    lemma_rotated, lemma_valid_entries, opened, rotated, valid, KvsView,
};
use crate::recovery::{add_dead, entry_ok, rebuild};
use crate::store::{lemma_rank_is, SegmentStore, SegmentView};
use crate::sync::{changes, changes_for, extents, extents_of, ops_view, Extent, StoreOp};
use vstd::prelude::*;

verus! {

/// The count of dead bytes above which a set compacts, where none is given:
/// 1 MiB.
pub const DEFAULT_COMPACTION_LIMIT: u64 = 1_048_576;

/// The compaction limit that an option stands for.
pub open spec fn limit_of(compaction_limit: Option<u64>) -> u64 {
    match compaction_limit {
        Some(limit) => limit,
        None => DEFAULT_COMPACTION_LIMIT,
    }
}

/// A key-value store over the segments of one directory.
pub struct Kvs {
    store: SegmentStore,
    index: Index,
    uncompacted: u64,
    compaction_limit: u64,
    current_log: u64,
}

impl View for Kvs {
    type V = KvsView;

    closed spec fn view(&self) -> KvsView {
        KvsView {
            segments: self.store@,
            entries: self.index.entries(),
            uncompacted: self.uncompacted,
            compaction_limit: self.compaction_limit,
            current_log: self.current_log,
        }
    }
}

impl Kvs {
    /// The state is valid: the active segment is the last one, and the index
    /// and the count of dead bytes are what recovery reads from the segments.
    pub open spec fn wf(&self) -> bool {
        valid(self@) && self.index_ok()
    }

    /// The hash map of the index leads from every key to its entry.
    pub closed spec fn index_ok(&self) -> bool {
        self.index.slots_ok()
    }

    /// Opens a store on the given segments. Where there is none, segment 0 is
    /// created. The index and the count of dead bytes are recovered from the
    /// segments, and the segment with the highest id becomes active. A
    /// segment that is no run of records gives a `Codec` error.
    pub fn open(store: SegmentStore, compaction_limit: Option<u64>) -> (r: Result<Kvs, KvsError>)
        requires
            store.wf(),
        ensures
            match r {
                Ok(kvs) => kvs.wf() && opened(store@, limit_of(compaction_limit)) == Some(kvs@),
                Err(e) => e.kind == ErrorKind::Codec && (opened(
                    store@,
                    limit_of(compaction_limit),
                ) is None),
            },
    {
        let limit = match compaction_limit {
            Some(limit) => limit,
            None => DEFAULT_COMPACTION_LIMIT,
        };
        let mut store = store;
        let ghost given = store@;
        if store.count() == 0 {
            store.create(0);
            proof {
                assert(store@ =~= seq![SegmentView { id: 0, data: Seq::empty() }]);
            }
        }
        match rebuild(&store) {
            Err(e) => Err(e),
            Ok((index, dead)) => {
                let current_log = store.id_at(store.count() - 1);
                proof {
                    lemma_opened(given, limit);
                }
                Ok(Kvs { store, index, uncompacted: dead, compaction_limit: limit, current_log })
            },
        }
    }

    /// Gives the segments back and ends the store.
    pub fn close(self) -> (store: SegmentStore)
        requires
            self.wf(),
        ensures
            store.wf(),
            store@ == self@.segments,
    {
        self.store
    }

    /// The count of dead bytes.
    pub fn uncompacted(&self) -> (n: u64)
        ensures
            n == self@.uncompacted,
    {
        self.uncompacted
    }

    /// The count of dead bytes above which a set compacts.
    pub fn compaction_limit(&self) -> (n: u64)
        ensures
            n == self@.compaction_limit,
    {
        self.compaction_limit
    }

    /// The id of the active segment.
    pub fn current_log(&self) -> (id: u64)
        ensures
            id == self@.current_log,
    {
        self.current_log
    }

    /// The ids of the segments, ascending.
    pub fn segment_ids(&self) -> (ids: Vec<u64>)
        ensures
            ids@.len() == self@.segments.len(),
            forall|i: int| 0 <= i < ids@.len() ==> ids@[i] == self@.segments[i].id,
    {
        self.store.ids()
    }

    /// The extents of the segments: each id with the full length.
    pub fn extents(&self) -> (r: Vec<Extent>)
        ensures
            r@ == extents_of(self@.segments),
    {
        extents(&self.store)
    }

    /// The steps that bring a copy of the segments up to date, where the
    /// copy holds the first bytes of each segment as `copy` says.
    pub fn changes(&self, copy: &Vec<Extent>) -> (ops: Vec<StoreOp>)
        requires
            self.wf(),
        ensures
            ops_view(ops@) == changes_for(self@.segments, copy@),
    {
        changes(&self.store, copy)
    }

    /// The number of live keys.
    pub fn len(&self) -> (n: usize)
        ensures
            n == self@.entries.len(),
    {
        self.index.len()
    }

    /// The place of the record of `key`, if the key is live.
    pub fn locate(&self, key: &String) -> (r: Option<CommandPos>)
        requires
            self.wf(),
        ensures
            r == place_of(self@.entries, key@),
            r is Some <==> contents(self@).contains_key(key@),
    {
        self.index.get(key)
    }

    /// The value of `key`. A key that is not live gives `KeyNotFound`; in a
    /// valid store nothing else can fail.
    pub fn get(&self, key: &String) -> (r: Result<String, KvsError>)
        requires
            self.wf(),
        ensures
            match r {
                Ok(value) => contents(self@).contains_key(key@) && value@ == contents(
                    self@,
                )[key@],
                Err(e) => e.kind == ErrorKind::KeyNotFound && !contents(self@).contains_key(key@),
            },
    {
        let at = match self.index.get(key) {
            None => {
                return Err(KvsError::key_not_found());
            },
            Some(at) => at,
        };
        proof {
            lemma_live_record(self@, key@);
        }
        let frame = match self.store.read(at.log, at.pos, at.len) {
            None => {
                return Err(KvsError::broken());
            },
            Some(frame) => frame,
        };
        match decode(frame.as_slice()) {
            Some(KvsCommand::Put { key: _, value }) => Ok(value),
            Some(KvsCommand::Rm { key: _ }) => Err(KvsError::broken()),
            None => Err(KvsError::codec()),
        }
    }

    /// Makes a new empty segment with the id `log_num` the active one. The
    /// id must lie above every id in use: otherwise nothing changes and an
    /// `Invariant` error comes back.
    pub fn create_new(&mut self, log_num: u64) -> (r: Result<(), KvsError>)
        requires
            old(self).wf(),
        ensures
            final(self).wf(),
            contents(final(self)@) == contents(old(self)@),
            match r {
                Ok(_) => log_num > old(self)@.current_log && final(self)@ == rotated(
                    old(self)@,
                    log_num,
                ),
                Err(e) => e.kind == ErrorKind::Invariant && log_num <= old(self)@.current_log
                    && final(self)@ == old(self)@,
            },
    {
        if log_num <= self.current_log {
            return Err(KvsError::bad_segment_id());
        }
        proof {
            lemma_rotated(self@, log_num);
            lemma_rank_is(self@.segments, log_num, self@.segments.len() as int);
            assert forall|j: int| 0 <= j < self@.segments.len() implies self@.segments[j].id
                < log_num by {
                if j < self@.segments.len() - 1 {
                    assert(self@.segments[j].id < self@.segments[self@.segments.len() - 1].id);
                }
            }
            assert(!crate::store::has_segment(self@.segments, log_num));
        }
        let ghost before = self@;
        self.store.create(log_num);
        self.current_log = log_num;
        proof {
            assert(self@.segments =~= rotated(before, log_num).segments);
        }
        Ok(())
    }

    /// Writes every live record into a new segment, one above the highest,
    /// makes an empty segment after that one active, and deletes all older
    /// segments. Where no two ids are left above the highest, nothing
    /// changes and an `Invariant` error comes back.
    pub fn compact(&mut self) -> (r: Result<(), KvsError>)
        requires
            old(self).wf(),
        ensures
            final(self).wf(),
            match r {
                Ok(_) => can_compact(old(self)@) && final(self)@ == compacted(old(self)@)
                    && contents(final(self)@) == contents(old(self)@),
                Err(e) => e.kind == ErrorKind::Invariant && !can_compact(old(self)@)
                    && final(self)@ == old(self)@,
            },
    {
        if self.current_log > u64::MAX - 2 {
            return Err(KvsError::bad_segment_id());
        }
        let target: u64 = self.current_log + 1;
        let ghost before = self@;
        let ghost segs = before.segments;
        let ghost es = before.entries;
        let mut data: Vec<u8> = Vec::new();
        let mut places: Vec<CommandPos> = Vec::new();
        let n = self.index.len();
        let mut i: usize = 0;
        proof {
            lemma_valid_entries(before);
            assert(es.take(0) =~= Seq::<EntryView>::empty());
        }
        while i < n
            invariant
                self@ == before,
                valid(before),
                segs == before.segments,
                es == before.entries,
                crate::recovery::entries_ok(segs, es),
                n == es.len(),
                i <= n,
                data@ == live_bytes(segs, es.take(i as int)),
                places@.len() == i,
                forall|j: int| 0 <= j < i ==> places@[j] == moved_place(segs, es, j, target),
            decreases n - i,
        {
            let at = self.index.place_at(i);
            proof {
                assert(entry_ok(segs, es[i as int]));
                assert(es.take(i + 1).drop_last() =~= es.take(i as int));
                assert(es.take(i + 1).last() == es[i as int]);
            }
            match self.store.read(at.log, at.pos, at.len) {
                None => {
                    return Err(KvsError::broken());
                },
                Some(frame) => {
                    let pos = data.len() as u64;
                    let mut frame = frame;
                    data.append(&mut frame);
                    data.push(SEPARATOR);
                    places.push(CommandPos { pos, len: at.len, log: target });
                    proof {
                        assert(data@ =~= live_bytes(segs, es.take(i + 1)));
                    }
                },
            }
            i += 1;
        }
        // Reading the length makes its bound known: the bytes fit one segment.
        let _size = data.len();
        proof {
            assert(es.take(n as int) =~= es);
            lemma_compacted(before);
            let last = segs.len() as int;
            assert forall|j: int| 0 <= j < segs.len() implies segs[j].id < target by {
                if j < segs.len() - 1 {
                    assert(segs[j].id < segs[segs.len() - 1].id);
                }
            }
            lemma_rank_is(segs, target, last);
            assert(!crate::store::has_segment(segs, target));
        }
        self.store.put(target, data);
        let ghost with_target = self.store@;
        proof {
            assert(with_target =~= segs.push(SegmentView { id: target, data: data@ }));
            lemma_rank_is(with_target, (target + 1) as u64, with_target.len() as int);
            assert(!crate::store::has_segment(with_target, (target + 1) as u64));
        }
        self.store.create(target + 1);
        let ghost with_both = self.store@;
        proof {
            assert(with_both =~= with_target.push(
                SegmentView { id: (target + 1) as u64, data: Seq::empty() },
            ));
            lemma_rank_is(with_both, target, segs.len() as int);
        }
        self.store.remove_below(target);
        self.index.relocate(&places);
        self.uncompacted = 0;
        self.current_log = target + 1;
        proof {
            assert(self@.segments =~= compacted_segments(segs, es, target));
            assert(self@.entries =~= moved(segs, es, target));
        }
        Ok(())
    }

    /// Writes a record that sets `key`: the frame and a separator are
    /// appended to the active segment, the index points at the frame, the
    /// record that the key had before is counted as dead, and compaction
    /// follows where more bytes are dead than the limit allows and two ids
    /// are left. The frame must be one that stands for a command setting
    /// `key`.
    pub fn record_put(&mut self, key: String, frame: Vec<u8>)
        requires
            old(self).wf(),
            separator_free(frame@),
            sets_key(frame@, key@),
        ensures
            final(self).wf(),
            final(self)@ == after_set(old(self)@, key@, frame@),
            contents(final(self)@) == contents(old(self)@).insert(key@, value_set_by(frame@)),
    {
        let ghost before = self@;
        let ghost k = key@;
        let ghost f = frame@;
        let len = frame.len() as u64;
        let mut bytes = frame;
        bytes.push(SEPARATOR);
        proof {
            assert(bytes@ =~= f + seq![SEPARATOR]);
        }
        let last = self.store.count() - 1;
        let pos = self.store.append_at(last, bytes.as_slice());
        let at = CommandPos { pos, len, log: self.current_log };
        let previous = self.index.insert(key, at);
        match previous {
            Some(was) => {
                self.uncompacted = add_dead(self.uncompacted, was.len);
            },
            None => {},
        }
        proof {
            assert(self.store@[last as int].data.len() == before.segments.last().data.len()
                + f.len() + 1);
            lemma_after_put(before, k, value_set_by(f), f);
            assert(self@ == after_put(before, k, f));
        }
        if self.uncompacted > self.compaction_limit {
            let _ = self.compact();
        }
    }

    /// Sets `key` to `value`. The command is encoded, which succeeds exactly
    /// where its packed bytes read back as the command, and its record is
    /// written as `record_put` says. Where the bytes do not read back,
    /// nothing changes and a `Codec` error comes back.
    pub fn set(&mut self, key: String, value: String) -> (r: Result<(), KvsError>)
        requires
            old(self).wf(),
        ensures
            final(self).wf(),
            r is Ok <==> reads_back(put_command(key@, value@)),
            match r {
                Ok(_) => final(self)@ == after_set(old(self)@, key@, put_record(key@, value@))
                    && contents(final(self)@) == contents(old(self)@).insert(key@, value@),
                Err(e) => e.kind == ErrorKind::Codec && final(self)@ == old(self)@,
            },
    {
        let cmd = KvsCommand::Put { key, value };
        match encode(&cmd) {
            None => Err(KvsError::codec()),
            Some(frame) => {
                match cmd {
                    KvsCommand::Put { key, value } => {
                        self.record_put(key, frame);
                        Ok(())
                    },
                    KvsCommand::Rm { key } => Err(KvsError::codec()),
                }
            },
        }
    }

    /// Writes a record that removes `key`: the frame and a separator are
    /// appended to the active segment, the key leaves the index, and its
    /// record is counted as dead. The frame must be one that stands for the
    /// command removing `key`.
    pub fn record_rm(&mut self, key: &String, frame: Vec<u8>)
        requires
            old(self).wf(),
            separator_free(frame@),
            removes_key(frame@, key@),
        ensures
            final(self).wf(),
            final(self)@ == after_rm(old(self)@, key@, frame@),
            contents(final(self)@) == contents(old(self)@).remove(key@),
    {
        let ghost before = self@;
        let ghost f = frame@;
        let mut bytes = frame;
        bytes.push(SEPARATOR);
        proof {
            assert(bytes@ =~= f + seq![SEPARATOR]);
        }
        let last = self.store.count() - 1;
        self.store.append_at(last, bytes.as_slice());
        let previous = self.index.remove(key);
        match previous {
            Some(was) => {
                self.uncompacted = add_dead(self.uncompacted, was.len);
            },
            None => {},
        }
        proof {
            assert(self.store@[last as int].data.len() == before.segments.last().data.len()
                + f.len() + 1);
            lemma_after_rm(before, key@, f);
            assert(self@ == after_rm(before, key@, f));
        }
    }

    /// Removes `key`. A key that is not live gives `KeyNotFound`, and a
    /// command whose packed bytes do not read back as the command gives
    /// `Codec`; in both cases nothing is written. In every other case the
    /// record is written as `record_rm` says.
    pub fn rm(&mut self, key: String) -> (r: Result<(), KvsError>)
        requires
            old(self).wf(),
        ensures
            final(self).wf(),
            r is Ok <==> contents(old(self)@).contains_key(key@) && reads_back(rm_command(key@)),
            match r {
                Ok(_) => contents(old(self)@).contains_key(key@) && final(self)@ == after_rm(
                    old(self)@,
                    key@,
                    rm_record(key@),
                ) && contents(final(self)@) == contents(old(self)@).remove(key@),
                Err(e) => final(self)@ == old(self)@ && (if contents(old(self)@).contains_key(
                    key@,
                ) {
                    e.kind == ErrorKind::Codec
                } else {
                    e.kind == ErrorKind::KeyNotFound
                }),
            },
    {
        match self.index.get(&key) {
            None => {
                return Err(KvsError::key_not_found());
            },
            Some(_) => {},
        }
        let cmd = KvsCommand::Rm { key };
        match encode(&cmd) {
            None => Err(KvsError::codec()),
            Some(frame) => {
                match cmd {
                    KvsCommand::Rm { key } => {
                        self.record_rm(&key, frame);
                        Ok(())
                    },
                    KvsCommand::Put { key, value } => Err(KvsError::codec()),
                }
            },
        }
    }
}

} // verus!

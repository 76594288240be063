//! Bringing a copy of the segments up to date.
//!
//! The store holds its segments as bytes. Whoever keeps a copy of them
//! elsewhere, as files of a directory do, says how much of each segment the
//! copy holds and is told what to write and what to delete. Segments only
//! grow at their end, so what is to be written is always a tail.

use crate::store::{
    data_of, has_segment, ids_ascending, lemma_position_of_own_id, SegmentStore, SegmentView,
};
use vstd::prelude::*;
use vstd::slice::{slice_subrange, slice_to_vec};

verus! {

/// How much a copy holds of one segment: the first `len` bytes of segment `id`.
#[derive(Debug, Clone, Copy, PartialEq, Eq, Structural)]
pub struct Extent {
    pub id: u64,
    pub len: u64,
}

/// One step that brings a copy up to date.
#[derive(Debug, PartialEq, Eq)]
pub enum StoreOp {
    /// Write `bytes` at the end of segment `id`, which holds `offset` bytes
    /// so far; create the segment where the copy has none.
    Write { id: u64, offset: u64, bytes: Vec<u8> },
    /// Delete segment `id`.
    Delete { id: u64 },
}

/// A step as plain values.
pub enum OpView {
    Write { id: u64, offset: u64, bytes: Seq<u8> },
    Delete { id: u64 },
}

impl View for StoreOp {
    type V = OpView;

    open spec fn view(&self) -> OpView {
        match self {
            StoreOp::Write { id, offset, bytes } => OpView::Write {
                id: *id,
                offset: *offset,
                bytes: bytes@,
            },
            StoreOp::Delete { id } => OpView::Delete { id: *id },
        }
    }
}

/// The steps as plain values.
pub open spec fn ops_view(ops: Seq<StoreOp>) -> Seq<OpView> {
    Seq::new(ops.len(), |i: int| ops[i]@)
}

/// How many bytes the copy holds of segment `id`, going by the first extent
/// that names it; `None` where none does.
pub open spec fn copy_len(copy: Seq<Extent>, id: u64) -> Option<u64>
    decreases copy.len(),
{
    if copy.len() == 0 {
        None
    } else if copy[0].id == id {
        Some(copy[0].len)
    } else {
        copy_len(copy.skip(1), id)
    }
}

/// The extents of the segments: each id with the full length.
pub open spec fn extents_of(segs: Seq<SegmentView>) -> Seq<Extent> {
    Seq::new(segs.len(), |i: int| Extent { id: segs[i].id, len: segs[i].data.len() as u64 })
}

/// The write that one segment needs: nothing where the copy holds all of
/// it, otherwise the bytes after those that the copy holds.
pub open spec fn write_for(seg: SegmentView, copy: Seq<Extent>) -> Seq<OpView> {
    match copy_len(copy, seg.id) {
        Some(have) => if have >= seg.data.len() {
            Seq::empty()
        } else {
            seq![OpView::Write { id: seg.id, offset: have, bytes: seg.data.skip(have as int) }]
        },
        None => seq![OpView::Write { id: seg.id, offset: 0, bytes: seg.data }],
    }
}

/// The writes that the segments need, in the order of the segments.
pub open spec fn writes_for(segs: Seq<SegmentView>, copy: Seq<Extent>) -> Seq<OpView>
    decreases segs.len(),
{
    if segs.len() == 0 {
        Seq::empty()
    } else {
        writes_for(segs.drop_last(), copy) + write_for(segs.last(), copy)
    }
}

/// The deletions that the copy needs: one for each segment that it holds
/// and the store does not, in the order of the copy.
pub open spec fn deletes_for(copy: Seq<Extent>, segs: Seq<SegmentView>) -> Seq<OpView>
    decreases copy.len(),
{
    if copy.len() == 0 {
        Seq::empty()
    } else if has_segment(segs, copy.last().id) {
        deletes_for(copy.drop_last(), segs)
    } else {
        deletes_for(copy.drop_last(), segs).push(OpView::Delete { id: copy.last().id })
    }
}

/// The steps that bring the copy up to date: the writes, then the deletions.
pub open spec fn changes_for(segs: Seq<SegmentView>, copy: Seq<Extent>) -> Seq<OpView> {
    writes_for(segs, copy) + deletes_for(copy, segs)
}

/// The segments as files: each id with the bytes of its segment.
pub open spec fn files_of(segs: Seq<SegmentView>) -> Map<u64, Seq<u8>> {
    Map::new(|id: u64| has_segment(segs, id), |id: u64| data_of(segs, id))
}

/// The files after one step: a write adds its bytes at the end of the file,
/// which it creates where there is none; a deletion takes the file away.
pub open spec fn apply_op(files: Map<u64, Seq<u8>>, op: OpView) -> Map<u64, Seq<u8>> {
    match op {
        OpView::Write { id, offset, bytes } => files.insert(
            id,
            if files.contains_key(id) {
                files[id] + bytes
            } else {
                bytes
            },
        ),
        OpView::Delete { id } => files.remove(id),
    }
}

/// The files after the steps, one after the other.
pub open spec fn apply_ops(files: Map<u64, Seq<u8>>, ops: Seq<OpView>) -> Map<u64, Seq<u8>>
    decreases ops.len(),
{
    if ops.len() == 0 {
        files
    } else {
        apply_op(apply_ops(files, ops.drop_last()), ops.last())
    }
}

/// The extents say what the files are: which there are, and how long each is.
pub open spec fn describes(copy: Seq<Extent>, files: Map<u64, Seq<u8>>) -> bool {
    forall|id: u64|
        (#[trigger] files.contains_key(id) <==> copy_len(copy, id) is Some) && (
        files.contains_key(id) ==> files[id].len() == copy_len(copy, id)->0)
}

/// Each file that is a segment of `segs` holds the first bytes of it.
pub open spec fn behind(files: Map<u64, Seq<u8>>, segs: Seq<SegmentView>) -> bool {
    forall|id: u64|
        #[trigger] files.contains_key(id) && has_segment(segs, id) ==> files[id].len()
            <= data_of(segs, id).len() && data_of(segs, id).take(files[id].len() as int)
            == files[id]
}

/// The steps of two runs, one after the other, act as the first run and
/// then the second.
pub proof fn lemma_apply_ops_concat(files: Map<u64, Seq<u8>>, a: Seq<OpView>, b: Seq<OpView>)
    ensures
        apply_ops(files, a + b) == apply_ops(apply_ops(files, a), b),
    decreases b.len(),
{
    if b.len() == 0 {
        assert(a + b =~= a);
    } else {
        lemma_apply_ops_concat(files, a, b.drop_last());
        assert((a + b).drop_last() =~= a + b.drop_last());
        assert((a + b).last() == b.last());
    }
}

/// The copy names a segment exactly where it holds a length for it.
pub proof fn lemma_copy_len_some(copy: Seq<Extent>, id: u64)
    ensures
        copy_len(copy, id) is Some <==> exists|i: int|
            0 <= i < copy.len() && (#[trigger] copy[i]).id == id,
    decreases copy.len(),
{
    if copy.len() > 0 {
        let rest = copy.skip(1);
        lemma_copy_len_some(rest, id);
        if copy[0].id != id {
            if copy_len(rest, id) is Some {
                let i = choose|i: int| 0 <= i < rest.len() && (#[trigger] rest[i]).id == id;
                assert(copy[i + 1].id == id);
            }
            if exists|i: int| 0 <= i < copy.len() && (#[trigger] copy[i]).id == id {
                let i = choose|i: int| 0 <= i < copy.len() && (#[trigger] copy[i]).id == id;
                assert(rest[i - 1].id == id);
            }
        }
    }
}

/// One of the first `n` segments has the id `id`.
pub open spec fn among_first(segs: Seq<SegmentView>, n: int, id: u64) -> bool {
    exists|j: int| 0 <= j < n && j < segs.len() && (#[trigger] segs[j]).id == id
}

/// After the writes for the first `n` segments, each of these is a file
/// with all its bytes, and every other file is as it was.
pub proof fn lemma_writes_applied(
    files: Map<u64, Seq<u8>>,
    segs: Seq<SegmentView>,
    copy: Seq<Extent>,
    n: int,
    id: u64,
)
    requires
        ids_ascending(segs),
        describes(copy, files),
        behind(files, segs),
        0 <= n <= segs.len(),
    ensures
        among_first(segs, n, id) ==> apply_ops(
            files,
            writes_for(segs.take(n), copy),
        ).contains_key(id) && apply_ops(files, writes_for(segs.take(n), copy))[id] == data_of(
            segs,
            id,
        ),
        !among_first(segs, n, id) ==> (apply_ops(
            files,
            writes_for(segs.take(n), copy),
        ).contains_key(id) <==> files.contains_key(id)),
        !among_first(segs, n, id) && files.contains_key(id) ==> apply_ops(
            files,
            writes_for(segs.take(n), copy),
        )[id] == files[id],
    decreases n,
{
    let part = segs.take(n);
    if n == 0 {
        assert(writes_for(part, copy) =~= Seq::<OpView>::empty());
    } else {
        let seg = segs[n - 1];
        assert(part.drop_last() =~= segs.take(n - 1));
        assert(part.last() == seg);
        lemma_writes_applied(files, segs, copy, n - 1, id);
        let earlier = writes_for(segs.take(n - 1), copy);
        let mid = apply_ops(files, earlier);
        let step = write_for(seg, copy);
        lemma_apply_ops_concat(files, earlier, step);
        let after = apply_ops(files, writes_for(part, copy));
        assert(after == apply_ops(mid, step));
        lemma_position_of_own_id(segs, n - 1);
        if step.len() == 0 {
            assert(after == mid);
        } else {
            assert(step.len() == 1);
            assert(step.drop_last() =~= Seq::<OpView>::empty());
            assert(apply_ops(mid, step.drop_last()) == mid);
            assert(after == apply_op(mid, step[0]));
        }
        if seg.id == id {
            assert(among_first(segs, n, id));
            assert(!among_first(segs, n - 1, id)) by {
                if among_first(segs, n - 1, id) {
                    let j = choose|j: int| 0 <= j < n - 1 && (#[trigger] segs[j]).id == id;
                    assert(segs[j].id < segs[n - 1].id);
                }
            }
            assert(has_segment(segs, id));
            if files.contains_key(id) {
                let have = copy_len(copy, id)->0;
                assert(files[id].len() == have);
                assert(seg.data.take(have as int) == files[id]);
                if have >= seg.data.len() {
                    assert(seg.data.take(have as int) =~= seg.data);
                } else {
                    assert(files[id] + seg.data.skip(have as int) =~= seg.data);
                }
            }
        } else {
            if among_first(segs, n, id) {
                let j = choose|j: int| 0 <= j < n && (#[trigger] segs[j]).id == id;
                assert(among_first(segs, n - 1, id));
            }
            if among_first(segs, n - 1, id) {
                let j = choose|j: int| 0 <= j < n - 1 && (#[trigger] segs[j]).id == id;
                assert(among_first(segs, n, id));
            }
        }
    }
}

/// After the deletions for the first `k` extents of the copy, the files
/// that these extents name and the store does not hold are gone, and every
/// other file is as it was.
pub proof fn lemma_deletes_applied(
    files: Map<u64, Seq<u8>>,
    segs: Seq<SegmentView>,
    copy: Seq<Extent>,
    k: int,
    id: u64,
)
    requires
        0 <= k <= copy.len(),
    ensures
        apply_ops(files, deletes_for(copy.take(k), segs)).contains_key(id) <==> (
        files.contains_key(id) && (has_segment(segs, id) || copy_len(copy.take(k), id) is None)),
        apply_ops(files, deletes_for(copy.take(k), segs)).contains_key(id) ==> apply_ops(
            files,
            deletes_for(copy.take(k), segs),
        )[id] == files[id],
    decreases k,
{
    let part = copy.take(k);
    if k == 0 {
        assert(deletes_for(part, segs) =~= Seq::<OpView>::empty());
    } else {
        let shorter = copy.take(k - 1);
        assert(part.drop_last() =~= shorter);
        assert(part.last() == copy[k - 1]);
        lemma_deletes_applied(files, segs, copy, k - 1, id);
        let gone = copy[k - 1].id;
        let mid = apply_ops(files, deletes_for(shorter, segs));
        if !has_segment(segs, gone) {
            let ops = deletes_for(part, segs);
            assert(ops.drop_last() =~= deletes_for(shorter, segs));
            assert(apply_ops(files, ops) == mid.remove(gone));
        }
        lemma_copy_len_some(part, id);
        lemma_copy_len_some(shorter, id);
        if copy_len(shorter, id) is Some {
            let i = choose|i: int| 0 <= i < shorter.len() && (#[trigger] shorter[i]).id == id;
            assert(part[i].id == id);
        }
        if id == gone {
            assert(part[k - 1].id == id);
        }
        if copy_len(part, id) is Some {
            let i = choose|i: int| 0 <= i < part.len() && (#[trigger] part[i]).id == id;
            if i < k - 1 {
                assert(shorter[i].id == id);
            }
        }
    }
}

/// Applying the steps to files that the copy describes, and that hold the
/// first bytes of their segments, gives the segments of the store.
pub proof fn law_changes_bring_up_to_date(
    files: Map<u64, Seq<u8>>,
    segs: Seq<SegmentView>,
    copy: Seq<Extent>,
)
    requires
        ids_ascending(segs),
        describes(copy, files),
        behind(files, segs),
    ensures
        apply_ops(files, changes_for(segs, copy)) == files_of(segs),
{
    let writes = writes_for(segs, copy);
    let deletes = deletes_for(copy, segs);
    let written = apply_ops(files, writes);
    let done = apply_ops(files, changes_for(segs, copy));
    lemma_apply_ops_concat(files, writes, deletes);
    assert(segs.take(segs.len() as int) =~= segs);
    assert(copy.take(copy.len() as int) =~= copy);
    assert forall|id: u64| (#[trigger] done.contains_key(id) <==> has_segment(segs, id)) && (
    has_segment(segs, id) ==> done[id] == data_of(segs, id)) by {
        lemma_writes_applied(files, segs, copy, segs.len() as int, id);
        lemma_deletes_applied(written, segs, copy, copy.len() as int, id);
        if has_segment(segs, id) {
            let p = crate::store::position_of(segs, id);
            assert(among_first(segs, segs.len() as int, id));
        } else {
            assert(!among_first(segs, segs.len() as int, id)) by {
                if among_first(segs, segs.len() as int, id) {
                    let j = choose|j: int|
                        0 <= j < segs.len() && j < segs.len() && (#[trigger] segs[j]).id == id;
                    assert(has_segment(segs, id));
                }
            }
        }
    }
    assert(done =~= files_of(segs));
}

/// Every segment of `older` that `newer` still has holds the first bytes
/// of what it holds in `newer`: segments were added, deleted and appended
/// to, and nothing else.
pub open spec fn grown_from(older: Seq<SegmentView>, newer: Seq<SegmentView>) -> bool {
    forall|i: int, j: int|
        0 <= i < older.len() && 0 <= j < newer.len() && (#[trigger] older[i]).id == (
        #[trigger] newer[j]).id ==> older[i].data.len() <= newer[j].data.len()
            && newer[j].data.take(older[i].data.len() as int) == older[i].data
}

/// The length that the copy holds for a segment is the length of the first
/// extent that names it.
pub proof fn lemma_copy_len_first(copy: Seq<Extent>, id: u64, i: int)
    requires
        0 <= i < copy.len(),
        copy[i].id == id,
        forall|j: int| 0 <= j < i ==> (#[trigger] copy[j]).id != id,
    ensures
        copy_len(copy, id) == Some(copy[i].len),
    decreases i,
{
    if i > 0 {
        let rest = copy.skip(1);
        assert(copy[0].id != id);
        assert forall|j: int| 0 <= j < i - 1 implies (#[trigger] rest[j]).id != id by {
            assert(rest[j] == copy[j + 1]);
        }
        lemma_copy_len_first(rest, id, i - 1);
    }
}

/// The extents of segments describe the segments as files.
pub proof fn lemma_extents_describe(segs: Seq<SegmentView>)
    requires
        ids_ascending(segs),
        crate::store::sizes_fit(segs),
    ensures
        describes(extents_of(segs), files_of(segs)),
{
    let copy = extents_of(segs);
    let files = files_of(segs);
    assert forall|id: u64|
        (#[trigger] files.contains_key(id) <==> copy_len(copy, id) is Some) && (
        files.contains_key(id) ==> files[id].len() == copy_len(copy, id)->0) by {
        lemma_copy_len_some(copy, id);
        if has_segment(segs, id) {
            let p = crate::store::position_of(segs, id);
            assert(copy[p].id == id);
            lemma_position_of_own_id(segs, p);
            assert forall|j: int| 0 <= j < p implies (#[trigger] copy[j]).id != id by {
                assert(segs[j].id < segs[p].id);
            }
            lemma_copy_len_first(copy, id, p);
        }
        if copy_len(copy, id) is Some {
            let i = choose|i: int| 0 <= i < copy.len() && (#[trigger] copy[i]).id == id;
            assert(segs[i].id == id);
        }
    }
}

/// Where the segments have only grown since the copy was up to date, the
/// steps bring it up to date again.
pub proof fn law_changes_follow_the_store(older: Seq<SegmentView>, newer: Seq<SegmentView>)
    requires
        ids_ascending(older),
        crate::store::sizes_fit(older),
        ids_ascending(newer),
        grown_from(older, newer),
    ensures
        apply_ops(files_of(older), changes_for(newer, extents_of(older))) == files_of(newer),
{
    lemma_extents_describe(older);
    let files = files_of(older);
    assert forall|id: u64| #[trigger] files.contains_key(id) && has_segment(newer, id) implies
        files[id].len() <= data_of(newer, id).len() && data_of(newer, id).take(
        files[id].len() as int,
    ) == files[id] by {
        let i = crate::store::position_of(older, id);
        let j = crate::store::position_of(newer, id);
        assert(older[i].id == newer[j].id);
    }
    law_changes_bring_up_to_date(files, newer, extents_of(older));
}

/// How many bytes the copy holds of segment `id`, if it holds any of it.
pub fn held(copy: &Vec<Extent>, id: u64) -> (r: Option<u64>)
    ensures
        r == copy_len(copy@, id),
{
    let mut i: usize = 0;
    proof {
        assert(copy@.skip(0) =~= copy@);
    }
    while i < copy.len()
        invariant
            i <= copy@.len(),
            copy_len(copy@, id) == copy_len(copy@.skip(i as int), id),
        decreases copy@.len() - i,
    {
        proof {
            assert(copy@.skip(i as int)[0] == copy@[i as int]);
            assert(copy@.skip(i as int).skip(1) =~= copy@.skip(i + 1));
        }
        if copy[i].id == id {
            return Some(copy[i].len);
        }
        i += 1;
    }
    None
}

/// The extents of the store: each segment with its full length.
pub fn extents(store: &SegmentStore) -> (r: Vec<Extent>)
    ensures
        r@ == extents_of(store@),
{
    let mut r: Vec<Extent> = Vec::new();
    let n = store.count();
    let mut i: usize = 0;
    while i < n
        invariant
            i <= n,
            n == store@.len(),
            r@.len() == i,
            forall|j: int| 0 <= j < i ==> r@[j] == extents_of(store@)[j],
        decreases n - i,
    {
        r.push(Extent { id: store.id_at(i), len: store.data_at(i).len() as u64 });
        i += 1;
    }
    proof {
        assert(r@ =~= extents_of(store@));
    }
    r
}

/// The steps that bring a copy up to date with the store: for each segment
/// of which the copy holds less than all, a write of the missing tail; then,
/// for each segment that the copy holds and the store does not, a deletion.
pub fn changes(store: &SegmentStore, copy: &Vec<Extent>) -> (ops: Vec<StoreOp>)
    requires
        store.wf(),
    ensures
        ops_view(ops@) == changes_for(store@, copy@),
{
    let mut ops: Vec<StoreOp> = Vec::new();
    let n = store.count();
    let mut i: usize = 0;
    proof {
        assert(store@.take(0) =~= Seq::<SegmentView>::empty());
        assert(ops_view(ops@) =~= Seq::<OpView>::empty());
    }
    while i < n
        invariant
            i <= n,
            n == store@.len(),
            ops_view(ops@) == writes_for(store@.take(i as int), copy@),
        decreases n - i,
    {
        let id = store.id_at(i);
        let data = store.data_at(i);
        let ghost before = ops_view(ops@);
        proof {
            assert(store@.take(i + 1).drop_last() =~= store@.take(i as int));
            assert(store@.take(i + 1).last() == store@[i as int]);
        }
        match held(copy, id) {
            Some(have) => {
                if have < data.len() as u64 {
                    let tail = slice_subrange(data, have as usize, data.len());
                    let bytes = slice_to_vec(tail);
                    ops.push(StoreOp::Write { id, offset: have, bytes });
                    proof {
                        assert(ops_view(ops@) =~= before + write_for(store@[i as int], copy@));
                    }
                } else {
                    proof {
                        assert(ops_view(ops@) =~= before + write_for(store@[i as int], copy@));
                    }
                }
            },
            None => {
                let bytes = slice_to_vec(data);
                ops.push(StoreOp::Write { id, offset: 0, bytes });
                proof {
                    assert(ops_view(ops@) =~= before + write_for(store@[i as int], copy@));
                }
            },
        }
        i += 1;
    }
    let ghost writes = ops_view(ops@);
    let m = copy.len();
    let mut k: usize = 0;
    proof {
        assert(store@.take(n as int) =~= store@);
        assert(copy@.take(0) =~= Seq::<Extent>::empty());
        assert(writes + Seq::<OpView>::empty() =~= writes);
    }
    while k < m
        invariant
            k <= m,
            m == copy@.len(),
            store.wf(),
            writes == writes_for(store@, copy@),
            ops_view(ops@) == writes + deletes_for(copy@.take(k as int), store@),
        decreases m - k,
    {
        let id = copy[k].id;
        let ghost before = deletes_for(copy@.take(k as int), store@);
        let ghost prior = ops_view(ops@);
        proof {
            assert(copy@.take(k + 1).drop_last() =~= copy@.take(k as int));
            assert(copy@.take(k + 1).last() == copy@[k as int]);
        }
        match store.find(id) {
            Some(_) => {},
            None => {
                ops.push(StoreOp::Delete { id });
                proof {
                    assert(ops_view(ops@) =~= prior.push(OpView::Delete { id }));
                    assert(prior.push(OpView::Delete { id }) =~= writes + before.push(
                        OpView::Delete { id },
                    ));
                }
            },
        }
        k += 1;
    }
    proof {
        assert(copy@.take(m as int) =~= copy@);
    }
    ops
}

} // verus!

//! The segment store: the numbered log segments of one directory, held as
//! bytes and kept in ascending order of their ids.

use vstd::prelude::*;
use vstd::slice::{slice_subrange, slice_to_vec};

verus! {

/// One segment as plain values: its id and its bytes.
pub struct SegmentView {
    pub id: u64,
    pub data: Seq<u8>,
}

/// The ids of `segs` grow strictly from each segment to the next.
pub open spec fn ids_ascending(segs: Seq<SegmentView>) -> bool {
    forall|i: int, j: int| 0 <= i < j < segs.len() ==> segs[i].id < segs[j].id
}

/// Some segment of `segs` has the id `id`.
pub open spec fn has_segment(segs: Seq<SegmentView>, id: u64) -> bool {
    exists|i: int| 0 <= i < segs.len() && segs[i].id == id
}

/// The position in `segs` of the segment with the id `id`.
pub open spec fn position_of(segs: Seq<SegmentView>, id: u64) -> int {
    choose|i: int| 0 <= i < segs.len() && segs[i].id == id
}

/// The bytes of the segment with the id `id`.
pub open spec fn data_of(segs: Seq<SegmentView>, id: u64) -> Seq<u8> {
    segs[position_of(segs, id)].data
}

/// How many leading segments of `segs` have an id below `id`. In ascending
/// order this is where a segment with that id stands or would be inserted.
pub open spec fn rank(segs: Seq<SegmentView>, id: u64) -> int
    decreases segs.len(),
{
    if segs.len() == 0 || segs[0].id >= id {
        0
    } else {
        1 + rank(segs.skip(1), id)
    }
}

/// The `len` bytes at offset `pos` of segment `id`, where the segment
/// exists and holds that range.
pub open spec fn bytes_at(segs: Seq<SegmentView>, id: u64, pos: u64, len: u64) -> Option<
    Seq<u8>,
> {
    if has_segment(segs, id) && pos + len <= data_of(segs, id).len() {
        Some(data_of(segs, id).subrange(pos as int, pos + len))
    } else {
        None
    }
}

/// `segs` with `bytes` added at the end of the segment at position `at`.
pub open spec fn with_appended(segs: Seq<SegmentView>, at: int, bytes: Seq<u8>) -> Seq<
    SegmentView,
> {
    segs.update(at, SegmentView { id: segs[at].id, data: segs[at].data + bytes })
}

/// The segments of `segs` whose id is at least `id`, in order.
pub open spec fn from_id(segs: Seq<SegmentView>, id: u64) -> Seq<SegmentView> {
    segs.skip(rank(segs, id))
}

/// Where the first `i` ids are below `id` and the next is not, `i` is the rank.
pub proof fn lemma_rank_is(segs: Seq<SegmentView>, id: u64, i: int)
    requires
        0 <= i <= segs.len(),
        forall|j: int| 0 <= j < i ==> segs[j].id < id,
        i < segs.len() ==> segs[i].id >= id,
    ensures
        rank(segs, id) == i,
    decreases segs.len(),
{
    if i > 0 {
        let rest = segs.skip(1);
        assert forall|j: int| 0 <= j < i - 1 implies rest[j].id < id by {
            assert(rest[j] == segs[j + 1]);
        }
        lemma_rank_is(rest, id, i - 1);
    }
}

/// In ascending order a segment is found at the rank of its id, and at no
/// other position.
pub proof fn lemma_position_is_rank(segs: Seq<SegmentView>, id: u64)
    requires
        ids_ascending(segs),
    ensures
        0 <= rank(segs, id) <= segs.len(),
        has_segment(segs, id) <==> (rank(segs, id) < segs.len() && segs[rank(segs, id)].id == id),
        has_segment(segs, id) ==> position_of(segs, id) == rank(segs, id),
        forall|j: int| 0 <= j < rank(segs, id) ==> segs[j].id < id,
        forall|j: int| rank(segs, id) <= j < segs.len() ==> segs[j].id >= id,
    decreases segs.len(),
{
    if segs.len() == 0 || segs[0].id >= id {
        assert forall|j: int| 0 <= j < segs.len() implies segs[j].id >= id by {
            if j > 0 {
                assert(segs[0].id < segs[j].id);
            }
        }
        if has_segment(segs, id) {
            let p = position_of(segs, id);
            if p > 0 {
                assert(segs[0].id < segs[p].id);
            }
        }
    } else {
        let rest = segs.skip(1);
        assert(ids_ascending(rest)) by {
            assert forall|i: int, j: int| 0 <= i < j < rest.len() implies rest[i].id
                < rest[j].id by {
                assert(rest[i] == segs[i + 1] && rest[j] == segs[j + 1]);
            }
        }
        lemma_position_is_rank(rest, id);
        let r = rank(segs, id);
        assert(r == 1 + rank(rest, id));
        assert forall|j: int| 0 <= j < r implies segs[j].id < id by {
            if j > 0 {
                assert(rest[j - 1] == segs[j]);
            }
        }
        assert forall|j: int| r <= j < segs.len() implies segs[j].id >= id by {
            assert(rest[j - 1] == segs[j]);
        }
        if r < segs.len() {
            assert(rest[r - 1] == segs[r]);
        }
        if has_segment(segs, id) {
            let p = position_of(segs, id);
            assert(p >= r);
            if p > r {
                assert(segs[r].id < segs[p].id);
            }
        }
    }
}

/// In ascending order the segment at position `k` is the one found under
/// its id.
pub proof fn lemma_position_of_own_id(segs: Seq<SegmentView>, k: int)
    requires
        ids_ascending(segs),
        0 <= k < segs.len(),
    ensures
        has_segment(segs, segs[k].id),
        position_of(segs, segs[k].id) == k,
        data_of(segs, segs[k].id) == segs[k].data,
{
    let p = position_of(segs, segs[k].id);
    if p < k {
        assert(segs[p].id < segs[k].id);
    } else if k < p {
        assert(segs[k].id < segs[p].id);
    }
}

/// No segment of `segs` is longer than an offset can say.
pub open spec fn sizes_fit(segs: Seq<SegmentView>) -> bool {
    forall|i: int| 0 <= i < segs.len() ==> #[trigger] segs[i].data.len() <= u64::MAX
}

/// One segment: a numbered, append-only run of bytes.
pub struct Segment {
    id: u64,
    data: Vec<u8>,
}

impl View for Segment {
    type V = SegmentView;

    closed spec fn view(&self) -> SegmentView {
        SegmentView { id: self.id, data: self.data@ }
    }
}

/// The segments of one store, in ascending order of their ids.
pub struct SegmentStore {
    segments: Vec<Segment>,
}

impl View for SegmentStore {
    type V = Seq<SegmentView>;

    closed spec fn view(&self) -> Seq<SegmentView> {
        Seq::new(self.segments@.len(), |i: int| self.segments@[i]@)
    }
}

impl SegmentStore {
    /// The store holds its segments in strictly ascending order of id, and
    /// none is longer than an offset can say.
    pub open spec fn wf(&self) -> bool {
        ids_ascending(self@) && sizes_fit(self@)
    }

    /// A store without segments.
    pub fn new() -> (store: SegmentStore)
        ensures
            store.wf(),
            store@ == Seq::<SegmentView>::empty(),
    {
        let store = SegmentStore { segments: Vec::new() };
        proof {
            assert(store@ =~= Seq::<SegmentView>::empty());
        }
        store
    }

    /// The number of segments.
    pub fn count(&self) -> (n: usize)
        ensures
            n == self@.len(),
    {
        self.segments.len()
    }

    /// The id of the segment at position `i`.
    pub fn id_at(&self, i: usize) -> (id: u64)
        requires
            i < self@.len(),
        ensures
            id == self@[i as int].id,
    {
        self.segments[i].id
    }

    /// The bytes of the segment at position `i`.
    pub fn data_at(&self, i: usize) -> (data: &[u8])
        requires
            i < self@.len(),
        ensures
            data@ == self@[i as int].data,
    {
        self.segments[i].data.as_slice()
    }

    /// The position at which the id `id` stands or would be inserted.
    pub fn rank_of(&self, id: u64) -> (i: usize)
        requires
            self.wf(),
        ensures
            i == rank(self@, id),
            i <= self@.len(),
    {
        let mut i: usize = 0;
        while i < self.segments.len() && self.segments[i].id < id
            invariant
                i <= self@.len(),
                self@.len() == self.segments@.len(),
                forall|j: int| 0 <= j < i ==> self@[j].id < id,
                forall|j: int| 0 <= j < self@.len() ==> self@[j].id == self.segments@[j].id,
            decreases self@.len() - i,
        {
            i += 1;
        }
        proof {
            lemma_rank_is(self@, id, i as int);
        }
        i
    }

    /// The position of the segment with the id `id`, if the store has one.
    pub fn find(&self, id: u64) -> (r: Option<usize>)
        requires
            self.wf(),
        ensures
            match r {
                Some(i) => has_segment(self@, id) && i == position_of(self@, id) && i
                    < self@.len() && self@[i as int].id == id,
                None => !has_segment(self@, id),
            },
    {
        let i = self.rank_of(id);
        proof {
            lemma_position_is_rank(self@, id);
        }
        if i < self.segments.len() && self.segments[i].id == id {
            Some(i)
        } else {
            None
        }
    }

    /// The highest id in the store, if it has any segment.
    pub fn last_id(&self) -> (r: Option<u64>)
        ensures
            match r {
                Some(id) => self@.len() > 0 && id == self@.last().id,
                None => self@.len() == 0,
            },
    {
        let n = self.segments.len();
        if n == 0 {
            None
        } else {
            Some(self.segments[n - 1].id)
        }
    }

    /// The ids of the segments, ascending.
    pub fn ids(&self) -> (ids: Vec<u64>)
        ensures
            ids@.len() == self@.len(),
            forall|i: int| 0 <= i < ids@.len() ==> ids@[i] == self@[i].id,
    {
        let mut ids: Vec<u64> = Vec::new();
        let mut i: usize = 0;
        while i < self.segments.len()
            invariant
                i <= self.segments@.len(),
                self@.len() == self.segments@.len(),
                ids@.len() == i,
                forall|j: int| 0 <= j < i ==> ids@[j] == self@[j].id,
                forall|j: int| 0 <= j < self@.len() ==> self@[j].id == self.segments@[j].id,
            decreases self.segments@.len() - i,
        {
            ids.push(self.segments[i].id);
            i += 1;
        }
        ids
    }

    /// Adds a segment with the given bytes, unless the id is taken: then the
    /// store stays as it is and `false` comes back.
    pub fn put(&mut self, id: u64, data: Vec<u8>) -> (added: bool)
        requires
            old(self).wf(),
        ensures
            final(self).wf(),
            added == !has_segment(old(self)@, id),
            added ==> final(self)@ == old(self)@.insert(
                rank(old(self)@, id),
                SegmentView { id, data: data@ },
            ),
            !added ==> final(self)@ == old(self)@,
    {
        let i = self.rank_of(id);
        proof {
            lemma_position_is_rank(self@, id);
        }
        if i < self.segments.len() && self.segments[i].id == id {
            return false;
        }
        let ghost before = self@;
        // Reading the length makes its bound known: it fits an offset.
        let _size = data.len();
        self.segments.insert(i, Segment { id, data });
        proof {
            let after = before.insert(i as int, SegmentView { id, data: data@ });
            assert(self@ =~= after);
            assert forall|a: int| 0 <= a < after.len() implies #[trigger] after[a].data.len()
                <= u64::MAX by {
                if a < i {
                    assert(after[a] == before[a]);
                } else if a > i {
                    assert(after[a] == before[a - 1]);
                }
            }
            assert forall|a: int, b: int| 0 <= a < b < after.len() implies after[a].id
                < after[b].id by {
                if a < i && b > i {
                    assert(before[a].id < id);
                    assert(before[b - 1].id >= id);
                }
            }
        }
        true
    }

    /// Creates an empty segment with the id `id` if the store has none.
    pub fn create(&mut self, id: u64) -> (added: bool)
        requires
            old(self).wf(),
        ensures
            final(self).wf(),
            added == !has_segment(old(self)@, id),
            added ==> final(self)@ == old(self)@.insert(
                rank(old(self)@, id),
                SegmentView { id, data: Seq::empty() },
            ),
            !added ==> final(self)@ == old(self)@,
    {
        self.put(id, Vec::new())
    }

    /// Appends `bytes` to the segment at position `at` and returns the offset
    /// at which they start.
    pub fn append_at(&mut self, at: usize, bytes: &[u8]) -> (offset: u64)
        requires
            old(self).wf(),
            at < old(self)@.len(),
        ensures
            final(self).wf(),
            offset == old(self)@[at as int].data.len(),
            final(self)@ == with_appended(old(self)@, at as int, bytes@),
    {
        let ghost before = self@;
        let offset = self.segments[at].data.len() as u64;
        let mut tail = slice_to_vec(bytes);
        self.segments[at].data.append(&mut tail);
        // Reading the length makes its bound known: it fits an offset.
        let _size = self.segments[at].data.len();
        proof {
            let after = with_appended(before, at as int, bytes@);
            assert(self@ =~= after);
            assert forall|a: int| 0 <= a < after.len() implies #[trigger] after[a].data.len()
                <= u64::MAX by {
                if a != at {
                    assert(after[a] == before[a]);
                }
            }
        }
        offset
    }

    /// The `len` bytes at offset `pos` of segment `id`; `None` where the
    /// store has no such segment or the segment does not hold that range.
    pub fn read(&self, id: u64, pos: u64, len: u64) -> (r: Option<Vec<u8>>)
        requires
            self.wf(),
        ensures
            match r {
                Some(bytes) => bytes_at(self@, id, pos, len) == Some(bytes@),
                None => bytes_at(self@, id, pos, len) is None,
            },
    {
        match self.find(id) {
            None => None,
            Some(i) => {
                let data = self.segments[i].data.as_slice();
                let n = data.len() as u64;
                if pos > n || len > n - pos {
                    None
                } else {
                    let part = slice_subrange(data, pos as usize, (pos + len) as usize);
                    Some(slice_to_vec(part))
                }
            },
        }
    }

    /// Deletes the segment with the id `id`, if the store has one.
    pub fn remove(&mut self, id: u64) -> (removed: bool)
        requires
            old(self).wf(),
        ensures
            final(self).wf(),
            removed == has_segment(old(self)@, id),
            removed ==> final(self)@ == old(self)@.remove(position_of(old(self)@, id)),
            !removed ==> final(self)@ == old(self)@,
    {
        match self.find(id) {
            None => false,
            Some(i) => {
                let ghost before = self@;
                self.segments.remove(i);
                proof {
                    let after = before.remove(i as int);
                    assert(self@ =~= after);
                    assert forall|a: int, b: int| 0 <= a < b < after.len() implies after[a].id
                        < after[b].id by {
                        let x = if a < i { a } else { a + 1 };
                        let y = if b < i { b } else { b + 1 };
                        assert(after[a] == before[x] && after[b] == before[y]);
                    }
                    assert forall|a: int| 0 <= a < after.len() implies #[trigger] after[a].data.len()
                        <= u64::MAX by {
                        let x = if a < i { a } else { a + 1 };
                        assert(after[a] == before[x]);
                    }
                }
                true
            },
        }
    }

    /// Deletes every segment whose id is below `id`.
    pub fn remove_below(&mut self, id: u64)
        requires
            old(self).wf(),
        ensures
            final(self).wf(),
            final(self)@ == from_id(old(self)@, id),
    {
        let n = self.rank_of(id);
        let ghost before = self@;
        let mut k: usize = 0;
        while k < n
            invariant
                k <= n <= before.len(),
                self@ == before.skip(k as int),
                self.segments@.len() == self@.len(),
            decreases n - k,
        {
            let ghost here = self@;
            self.segments.remove(0);
            proof {
                assert(self@ =~= here.skip(1));
                assert(before.skip(k as int).skip(1) =~= before.skip(k + 1));
            }
            k += 1;
        }
        proof {
            assert forall|a: int, b: int| 0 <= a < b < self@.len() implies self@[a].id
                < self@[b].id by {
                assert(self@[a] == before[a + n] && self@[b] == before[b + n]);
            }
        }
    }
}

} // verus!

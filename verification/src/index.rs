//! The index: for each live key, where its record lies. The entries stand
//! in a list, and a hash map leads from each key to its position in it.

use vstd::hash_map::StringHashMap;
use vstd::prelude::*;

verus! {

/// Where a record lies: the segment, the offset of its first byte, and its
/// length without the separator.
#[derive(Debug, Clone, Copy, PartialEq, Eq, Structural)]
pub struct CommandPos {
    /// The offset of the first byte of the record in its segment.
    pub pos: u64,
    /// The length of the record, without its separator.
    pub len: u64,
    /// The id of the segment.
    pub log: u64,
}

/// One entry of the index as plain values.
pub struct EntryView {
    pub key: Seq<char>,
    pub at: CommandPos,
}

/// No key occurs twice in `es`.
pub open spec fn keys_distinct(es: Seq<EntryView>) -> bool {
    forall|i: int, j: int| 0 <= i < j < es.len() ==> es[i].key != es[j].key
}

/// Some entry of `es` has the key `key`.
pub open spec fn has_key(es: Seq<EntryView>, key: Seq<char>) -> bool {
    exists|i: int| 0 <= i < es.len() && es[i].key == key
}

/// The position in `es` of an entry with the key `key`.
pub open spec fn slot_of(es: Seq<EntryView>, key: Seq<char>) -> int {
    choose|i: int| 0 <= i < es.len() && es[i].key == key
}

/// `es` after `key` is set to `at`: the entry of the key is replaced where
/// it stands, or a new entry is added at the end.
pub open spec fn put_entry(es: Seq<EntryView>, key: Seq<char>, at: CommandPos) -> Seq<
    EntryView,
> {
    if has_key(es, key) {
        es.update(slot_of(es, key), EntryView { key, at })
    } else {
        es.push(EntryView { key, at })
    }
}

/// `es` without the entry of `key`: the last entry takes its position.
pub open spec fn drop_entry(es: Seq<EntryView>, key: Seq<char>) -> Seq<EntryView> {
    if has_key(es, key) {
        es.update(slot_of(es, key), es.last()).drop_last()
    } else {
        es
    }
}

/// The entries of `es` with the place of each replaced by the place at the
/// same position of `places`.
pub open spec fn with_places(es: Seq<EntryView>, places: Seq<CommandPos>) -> Seq<EntryView> {
    Seq::new(es.len(), |i: int| EntryView { key: es[i].key, at: places[i] })
}

/// `e` is one of the entries `es`.
pub open spec fn holds_entry(es: Seq<EntryView>, e: EntryView) -> bool {
    exists|j: int| 0 <= j < es.len() && #[trigger] es[j] == e
}

/// The place that `es` records for `key`, if any.
pub open spec fn place_of(es: Seq<EntryView>, key: Seq<char>) -> Option<CommandPos> {
    if has_key(es, key) {
        Some(es[slot_of(es, key)].at)
    } else {
        None
    }
}

/// The entries as a map from key to place.
pub open spec fn map_of(es: Seq<EntryView>) -> Map<Seq<char>, CommandPos> {
    Map::new(|k: Seq<char>| has_key(es, k), |k: Seq<char>| es[slot_of(es, k)].at)
}

/// With distinct keys, an entry is found at its own position.
pub proof fn lemma_slot_is(es: Seq<EntryView>, i: int)
    requires
        keys_distinct(es),
        0 <= i < es.len(),
    ensures
        has_key(es, es[i].key),
        slot_of(es, es[i].key) == i,
{
    let s = slot_of(es, es[i].key);
    if s < i {
        assert(es[s].key != es[i].key);
    } else if i < s {
        assert(es[i].key != es[s].key);
    }
}

/// Setting a key keeps the keys distinct and acts on the map as an insert.
pub proof fn lemma_put_entry(es: Seq<EntryView>, key: Seq<char>, at: CommandPos)
    requires
        keys_distinct(es),
    ensures
        keys_distinct(put_entry(es, key, at)),
        map_of(put_entry(es, key, at)) == map_of(es).insert(key, at),
        place_of(put_entry(es, key, at), key) == Some(at),
        forall|k: Seq<char>| k != key ==> place_of(put_entry(es, key, at), k) == place_of(es, k),
{
    let after = put_entry(es, key, at);
    let e = EntryView { key, at };
    if has_key(es, key) {
        let s = slot_of(es, key);
        assert forall|i: int, j: int| 0 <= i < j < after.len() implies after[i].key
            != after[j].key by {
            assert(after[i].key == es[i].key && after[j].key == es[j].key);
        }
        assert forall|k: Seq<char>| has_key(after, k) == has_key(es, k) by {
            if has_key(es, k) {
                let i = slot_of(es, k);
                assert(after[i].key == k);
            }
            if has_key(after, k) {
                let i = slot_of(after, k);
                assert(es[i].key == k);
            }
        }
        assert forall|k: Seq<char>| has_key(after, k) implies after[slot_of(after, k)].at == (if k
            == key {
            at
        } else {
            es[slot_of(es, k)].at
        }) by {
            let i = slot_of(after, k);
            lemma_slot_is(after, i);
            assert(es[i].key == k);
            lemma_slot_is(es, i);
        }
    } else {
        assert forall|i: int, j: int| 0 <= i < j < after.len() implies after[i].key
            != after[j].key by {
            if j == es.len() {
                assert(es[i].key != key);
            }
        }
        assert(after[es.len() as int].key == key);
        assert forall|k: Seq<char>| has_key(after, k) == (k == key || has_key(es, k)) by {
            if has_key(es, k) {
                let i = slot_of(es, k);
                assert(after[i].key == k);
            }
            if has_key(after, k) {
                let i = slot_of(after, k);
                if i < es.len() {
                    assert(es[i].key == k);
                }
            }
        }
        assert forall|k: Seq<char>| has_key(after, k) implies after[slot_of(after, k)].at == (if k
            == key {
            at
        } else {
            es[slot_of(es, k)].at
        }) by {
            let i = slot_of(after, k);
            lemma_slot_is(after, i);
            if i < es.len() {
                assert(es[i].key == k);
                lemma_slot_is(es, i);
            }
        }
    }
    assert(map_of(after) =~= map_of(es).insert(key, at));
}

/// Dropping a key keeps the keys distinct and acts on the map as a removal.
pub proof fn lemma_drop_entry(es: Seq<EntryView>, key: Seq<char>)
    requires
        keys_distinct(es),
    ensures
        keys_distinct(drop_entry(es, key)),
        map_of(drop_entry(es, key)) == map_of(es).remove(key),
        place_of(drop_entry(es, key), key) is None,
        forall|k: Seq<char>| k != key ==> place_of(drop_entry(es, key), k) == place_of(es, k),
        forall|i: int|
            0 <= i < drop_entry(es, key).len() ==> holds_entry(
                es,
                #[trigger] drop_entry(es, key)[i],
            ),
{
    let after = drop_entry(es, key);
    if has_key(es, key) {
        let s = slot_of(es, key);
        let last = es.len() - 1;
        lemma_slot_is(es, s);
        assert forall|i: int| 0 <= i < after.len() implies after[i] == es[if i == s {
            last
        } else {
            i
        }] by {}
        assert forall|i: int, j: int| 0 <= i < j < after.len() implies after[i].key
            != after[j].key by {
            let a = if i == s { last } else { i };
            let b = if j == s { last } else { j };
            if a < b {
                assert(es[a].key != es[b].key);
            } else {
                assert(es[b].key != es[a].key);
            }
        }
        assert forall|k: Seq<char>| has_key(after, k) == (k != key && has_key(es, k)) by {
            if k != key && has_key(es, k) {
                let i = slot_of(es, k);
                let a = if i == last { s } else { i };
                assert(after[a].key == k);
            }
            if has_key(after, k) {
                let i = slot_of(after, k);
                let a = if i == s { last } else { i };
                assert(es[a].key == k);
                lemma_slot_is(es, a);
            }
        }
        assert forall|k: Seq<char>| has_key(after, k) implies after[slot_of(after, k)].at
            == es[slot_of(es, k)].at by {
            let i = slot_of(after, k);
            let a = if i == s { last } else { i };
            assert(es[a].key == k);
            lemma_slot_is(es, a);
        }
        assert forall|i: int| 0 <= i < after.len() implies holds_entry(
            es,
            #[trigger] after[i],
        ) by {
            let a = if i == s { last } else { i };
            assert(es[a] == after[i]);
        }
    } else {
        assert forall|i: int| 0 <= i < after.len() implies holds_entry(
            es,
            #[trigger] after[i],
        ) by {
            assert(es[i] == after[i]);
        }
    }
    assert(map_of(after) =~= map_of(es).remove(key));
}

/// The slots say where each key stands: every entry is found under its key
/// at its own position, and every slot leads to an entry with its key.
pub open spec fn slots_match(slots: Map<Seq<char>, usize>, es: Seq<EntryView>) -> bool {
    &&& forall|i: int|
        0 <= i < es.len() ==> slots.contains_key(#[trigger] es[i].key) && slots[es[i].key] == i
    &&& forall|k: Seq<char>| #[trigger]
        slots.contains_key(k) ==> slots[k] < es.len() && es[slots[k] as int].key == k
}

/// One entry of the index.
pub struct IndexEntry {
    key: String,
    at: CommandPos,
}

impl View for IndexEntry {
    type V = EntryView;

    closed spec fn view(&self) -> EntryView {
        EntryView { key: self.key@, at: self.at }
    }
}

/// The index: the live keys, each with the place of its record, and a hash
/// map from each key to the position of its entry.
pub struct Index {
    entries: Vec<IndexEntry>,
    slots: StringHashMap<usize>,
}

impl Index {
    /// The entries in their order.
    pub closed spec fn entries(&self) -> Seq<EntryView> {
        Seq::new(self.entries@.len(), |i: int| self.entries@[i]@)
    }

    /// The index as a map from key to place.
    pub open spec fn view(&self) -> Map<Seq<char>, CommandPos> {
        map_of(self.entries())
    }

    /// The hash map leads from every key to its entry.
    pub closed spec fn slots_ok(&self) -> bool {
        slots_match(self.slots@, self.entries())
    }

    /// No key occurs twice, and the hash map leads from every key to its entry.
    pub open spec fn wf(&self) -> bool {
        keys_distinct(self.entries()) && self.slots_ok()
    }

    /// An index without entries.
    pub fn new() -> (index: Index)
        ensures
            index.wf(),
            index.entries() == Seq::<EntryView>::empty(),
    {
        let index = Index { entries: Vec::new(), slots: StringHashMap::new() };
        proof {
            assert(index.entries() =~= Seq::<EntryView>::empty());
        }
        index
    }

    /// The number of entries.
    pub fn len(&self) -> (n: usize)
        ensures
            n == self.entries().len(),
    {
        self.entries.len()
    }

    /// The key of the entry at position `i`.
    pub fn key_at(&self, i: usize) -> (key: &String)
        requires
            i < self.entries().len(),
        ensures
            key@ == self.entries()[i as int].key,
    {
        &self.entries[i].key
    }

    /// The place recorded by the entry at position `i`.
    pub fn place_at(&self, i: usize) -> (at: CommandPos)
        requires
            i < self.entries().len(),
        ensures
            at == self.entries()[i as int].at,
    {
        self.entries[i].at
    }

    /// The position of the entry of `key`, if there is one.
    pub fn find(&self, key: &String) -> (r: Option<usize>)
        requires
            self.wf(),
        ensures
            match r {
                Some(i) => has_key(self.entries(), key@) && i == slot_of(self.entries(), key@)
                    && i < self.entries().len() && self.entries()[i as int].key == key@,
                None => !has_key(self.entries(), key@),
            },
    {
        match self.slots.get(key.as_str()) {
            Some(slot) => {
                let i = *slot;
                proof {
                    lemma_slot_is(self.entries(), i as int);
                }
                Some(i)
            },
            None => {
                proof {
                    if has_key(self.entries(), key@) {
                        let i = slot_of(self.entries(), key@);
                        assert(self.slots@.contains_key(self.entries()[i].key));
                    }
                }
                None
            },
        }
    }

    /// The place recorded for `key`, if any.
    pub fn get(&self, key: &String) -> (r: Option<CommandPos>)
        requires
            self.wf(),
        ensures
            r == place_of(self.entries(), key@),
            r == (if self@.contains_key(key@) {
                Some(self@[key@])
            } else {
                None
            }),
    {
        match self.find(key) {
            Some(i) => Some(self.entries[i].at),
            None => None,
        }
    }

    /// Records `at` as the place of `key` and returns the place recorded
    /// before, if any.
    pub fn insert(&mut self, key: String, at: CommandPos) -> (previous: Option<CommandPos>)
        requires
            old(self).wf(),
        ensures
            final(self).wf(),
            previous == place_of(old(self).entries(), key@),
            previous == (if old(self)@.contains_key(key@) {
                Some(old(self)@[key@])
            } else {
                None
            }),
            final(self).entries() == put_entry(old(self).entries(), key@, at),
            final(self)@ == old(self)@.insert(key@, at),
    {
        let ghost before = self.entries();
        let ghost slots = self.slots@;
        proof {
            lemma_put_entry(before, key@, at);
        }
        match self.find(&key) {
            Some(i) => {
                let previous = self.entries[i].at;
                self.entries[i].at = at;
                proof {
                    let after = put_entry(before, key@, at);
                    assert(self.entries() =~= after);
                    assert forall|j: int| 0 <= j < after.len() implies after[j].key
                        == before[j].key by {}
                    assert(slots_match(slots, after));
                }
                Some(previous)
            },
            None => {
                let slot = self.entries.len();
                self.slots.insert(key.clone(), slot);
                self.entries.push(IndexEntry { key, at });
                proof {
                    let after = put_entry(before, key@, at);
                    assert(self.entries() =~= after);
                    assert forall|j: int| 0 <= j < after.len() implies self.slots@.contains_key(
                        #[trigger] after[j].key,
                    ) && self.slots@[after[j].key] == j by {
                        if j < before.len() {
                            assert(after[j] == before[j]);
                            assert(slots.contains_key(before[j].key));
                        }
                    }
                    assert forall|k: Seq<char>| #[trigger]
                        self.slots@.contains_key(k) implies self.slots@[k] < after.len()
                        && after[self.slots@[k] as int].key == k by {
                        if k != key@ {
                            assert(slots.contains_key(k));
                            assert(after[slots[k] as int] == before[slots[k] as int]);
                        }
                    }
                }
                None
            },
        }
    }

    /// Forgets `key` and returns the place recorded for it, if any. The last
    /// entry takes the position of the one that leaves.
    pub fn remove(&mut self, key: &String) -> (previous: Option<CommandPos>)
        requires
            old(self).wf(),
        ensures
            final(self).wf(),
            previous == place_of(old(self).entries(), key@),
            previous == (if old(self)@.contains_key(key@) {
                Some(old(self)@[key@])
            } else {
                None
            }),
            final(self).entries() == drop_entry(old(self).entries(), key@),
            final(self)@ == old(self)@.remove(key@),
    {
        let ghost before = self.entries();
        let ghost slots = self.slots@;
        proof {
            lemma_drop_entry(before, key@);
        }
        match self.find(key) {
            Some(i) => {
                let last = self.entries.len() - 1;
                let gone = self.entries.swap_remove(i);
                self.slots.remove(key.as_str());
                if i < last {
                    let moved = self.entries[i].key.clone();
                    self.slots.insert(moved, i);
                }
                proof {
                    let after = drop_entry(before, key@);
                    assert(self.entries() =~= after);
                    lemma_slot_is(before, i as int);
                    lemma_slot_is(before, last as int);
                    assert forall|j: int| 0 <= j < after.len() implies self.slots@.contains_key(
                        #[trigger] after[j].key,
                    ) && self.slots@[after[j].key] == j by {
                        if j != i {
                            assert(after[j] == before[j]);
                            assert(slots.contains_key(before[j].key));
                            assert(before[j].key != before[i as int].key) by {
                                lemma_slot_is(before, j);
                            }
                            assert(before[j].key != before[last as int].key) by {
                                lemma_slot_is(before, j);
                            }
                        }
                    }
                    assert forall|k: Seq<char>| #[trigger]
                        self.slots@.contains_key(k) implies self.slots@[k] < after.len()
                        && after[self.slots@[k] as int].key == k by {
                        if i < last && k == before[last as int].key {
                        } else {
                            assert(slots.contains_key(k));
                            let p = slots[k] as int;
                            assert(before[p].key == k);
                            lemma_slot_is(before, p);
                            assert(p != i);
                            assert(p != last);
                            assert(after[p] == before[p]);
                        }
                    }
                }
                Some(gone.at)
            },
            None => None,
        }
    }

    /// Replaces the place of every entry by the place at the same position
    /// of `places`. The keys and their order stay.
    pub fn relocate(&mut self, places: &Vec<CommandPos>)
        requires
            old(self).wf(),
            places@.len() == old(self).entries().len(),
        ensures
            final(self).wf(),
            final(self).entries() == with_places(old(self).entries(), places@),
    {
        let ghost before = self.entries();
        let ghost slots = self.slots@;
        let mut i: usize = 0;
        while i < self.entries.len()
            invariant
                i <= self.entries@.len(),
                self.entries@.len() == before.len(),
                places@.len() == before.len(),
                self.slots@ == slots,
                forall|j: int| 0 <= j < before.len() ==> self.entries()[j].key == before[j].key,
                forall|j: int| 0 <= j < i ==> self.entries()[j].at == places@[j],
            decreases self.entries@.len() - i,
        {
            let ghost here = self.entries();
            self.entries[i].at = places[i];
            proof {
                assert forall|j: int| 0 <= j < before.len() implies self.entries()[j].key
                    == before[j].key by {
                    assert(self.entries()[j].key == here[j].key);
                }
                assert forall|j: int| 0 <= j < i implies self.entries()[j].at == places@[j] by {
                    assert(self.entries()[j].at == here[j].at);
                }
            }
            i += 1;
        }
        proof {
            let after = with_places(before, places@);
            assert(self.entries() =~= after);
            assert forall|a: int, b: int| 0 <= a < b < after.len() implies after[a].key
                != after[b].key by {
                assert(before[a].key != before[b].key);
            }
            assert forall|j: int| 0 <= j < after.len() implies slots.contains_key(
                #[trigger] after[j].key,
            ) && slots[after[j].key] == j by {
                assert(after[j].key == before[j].key);
            }
        }
    }
}

} // verus!

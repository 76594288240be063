use kvs::codec::encode;
use kvs::index::Index;
use kvs::names::{get_logs, insert_id, parse_decimal, render_decimal, segment_id, segment_name};
use kvs::recovery::{add_dead, apply, find_frame_end, load, rebuild};
use kvs::sync::{changes, extents, held};
use kvs::{CommandPos, ErrorKind, Extent, Kvs, KvsCommand, SegmentStore, StoreOp};
use std::collections::BTreeMap;

fn s(text: &str) -> String {
    text.to_owned()
}

fn at(pos: u64, len: u64, log: u64) -> CommandPos {
    CommandPos { pos, len, log }
}

fn put_record(key: &str, value: &str) -> Vec<u8> {
    let mut bytes = encode(&KvsCommand::Put { key: s(key), value: s(value) }).unwrap();
    bytes.push(0x0A);
    bytes
}

fn rm_record(key: &str) -> Vec<u8> {
    let mut bytes = encode(&KvsCommand::Rm { key: s(key) }).unwrap();
    bytes.push(0x0A);
    bytes
}

#[test]
fn store_keeps_segments_in_ascending_order() {
    let mut store = SegmentStore::new();
    assert_eq!(store.count(), 0);
    assert_eq!(store.last_id(), None);
    assert!(store.put(5, vec![1, 2]));
    assert!(store.create(2));
    assert!(store.put(9, vec![3]));
    assert!(store.create(7));
    assert_eq!(store.ids(), vec![2, 5, 7, 9]);
    assert_eq!(store.count(), 4);
    assert_eq!(store.last_id(), Some(9));
    assert_eq!(store.id_at(1), 5);
    assert_eq!(store.data_at(1), &[1, 2]);
    assert_eq!(store.data_at(0), &[] as &[u8]);
}

#[test]
fn store_put_leaves_a_taken_id_alone() {
    let mut store = SegmentStore::new();
    assert!(store.put(5, vec![1, 2]));
    assert!(!store.put(5, vec![9, 9, 9]));
    assert!(!store.create(5));
    assert_eq!(store.ids(), vec![5]);
    assert_eq!(store.data_at(0), &[1, 2]);
}

#[test]
fn store_find_and_rank() {
    let mut store = SegmentStore::new();
    for id in [10, 20, 30] {
        store.create(id);
    }
    assert_eq!(store.find(10), Some(0));
    assert_eq!(store.find(30), Some(2));
    assert_eq!(store.find(15), None);
    assert_eq!(store.find(0), None);
    assert_eq!(store.rank_of(0), 0);
    assert_eq!(store.rank_of(10), 0);
    assert_eq!(store.rank_of(11), 1);
    assert_eq!(store.rank_of(30), 2);
    assert_eq!(store.rank_of(31), 3);
}

#[test]
fn store_append_returns_the_offset() {
    let mut store = SegmentStore::new();
    store.create(1);
    store.put(2, vec![7]);
    assert_eq!(store.append_at(0, &[1, 2, 3]), 0);
    assert_eq!(store.append_at(0, &[4]), 3);
    assert_eq!(store.append_at(1, &[]), 1);
    assert_eq!(store.append_at(1, &[8, 9]), 1);
    assert_eq!(store.data_at(0), &[1, 2, 3, 4]);
    assert_eq!(store.data_at(1), &[7, 8, 9]);
}

#[test]
fn store_read_gives_the_range_or_nothing() {
    let mut store = SegmentStore::new();
    store.put(3, vec![10, 11, 12, 13]);
    assert_eq!(store.read(3, 0, 4), Some(vec![10, 11, 12, 13]));
    assert_eq!(store.read(3, 1, 2), Some(vec![11, 12]));
    assert_eq!(store.read(3, 4, 0), Some(vec![]));
    assert_eq!(store.read(3, 0, 5), None);
    assert_eq!(store.read(3, 5, 0), None);
    assert_eq!(store.read(3, 2, 3), None);
    assert_eq!(store.read(3, u64::MAX, 1), None);
    assert_eq!(store.read(3, 1, u64::MAX), None);
    assert_eq!(store.read(4, 0, 0), None);
}

#[test]
fn store_remove_below_drops_the_lower_ids() {
    let mut store = SegmentStore::new();
    for id in [1, 4, 6, 9] {
        store.put(id, vec![id as u8]);
    }
    store.remove_below(5);
    assert_eq!(store.ids(), vec![6, 9]);
    assert_eq!(store.data_at(0), &[6]);
    store.remove_below(6);
    assert_eq!(store.ids(), vec![6, 9]);
    store.remove_below(0);
    assert_eq!(store.ids(), vec![6, 9]);
    store.remove_below(u64::MAX);
    assert_eq!(store.ids(), Vec::<u64>::new());
}

#[test]
fn index_insert_returns_the_previous_place() {
    let mut index = Index::new();
    assert_eq!(index.len(), 0);
    assert_eq!(index.insert(s("a"), at(0, 5, 0)), None);
    assert_eq!(index.insert(s("b"), at(6, 5, 0)), None);
    assert_eq!(index.insert(s("a"), at(12, 7, 1)), Some(at(0, 5, 0)));
    assert_eq!(index.len(), 2);
    assert_eq!(index.get(&s("a")), Some(at(12, 7, 1)));
    assert_eq!(index.get(&s("b")), Some(at(6, 5, 0)));
    assert_eq!(index.get(&s("c")), None);
    assert_eq!(index.find(&s("a")), Some(0));
    assert_eq!(index.find(&s("b")), Some(1));
    assert_eq!(index.key_at(1), "b");
    assert_eq!(index.place_at(0), at(12, 7, 1));
}

#[test]
fn index_remove_moves_the_last_entry_into_the_gap() {
    let mut index = Index::new();
    for (i, k) in ["a", "b", "c", "d"].iter().enumerate() {
        index.insert(s(k), at(i as u64, 1, 0));
    }
    assert_eq!(index.remove(&s("a")), Some(at(0, 1, 0)));
    assert_eq!(index.remove(&s("a")), None);
    assert_eq!(index.len(), 3);
    assert_eq!(index.key_at(0), "d");
    assert_eq!(index.key_at(1), "b");
    assert_eq!(index.key_at(2), "c");
    assert_eq!(index.find(&s("d")), Some(0));
    assert_eq!(index.get(&s("c")), Some(at(2, 1, 0)));
    assert_eq!(index.remove(&s("c")), Some(at(2, 1, 0)));
    assert_eq!(index.key_at(0), "d");
    assert_eq!(index.key_at(1), "b");
    assert_eq!(index.find(&s("c")), None);
    assert_eq!(index.remove(&s("d")), Some(at(3, 1, 0)));
    assert_eq!(index.remove(&s("b")), Some(at(1, 1, 0)));
    assert_eq!(index.len(), 0);
    assert_eq!(index.insert(s("b"), at(9, 9, 9)), None);
    assert_eq!(index.find(&s("b")), Some(0));
}

#[test]
fn index_holds_many_keys() {
    let mut index = Index::new();
    for i in 0..2000u64 {
        assert_eq!(index.insert(format!("key{}", i), at(i, 1, 0)), None);
    }
    for i in (0..2000u64).step_by(3) {
        assert_eq!(index.remove(&format!("key{}", i)), Some(at(i, 1, 0)));
    }
    for i in 0..2000u64 {
        let expected = if i % 3 == 0 { None } else { Some(at(i, 1, 0)) };
        assert_eq!(index.get(&format!("key{}", i)), expected);
    }
    for i in 0..index.len() {
        assert_eq!(index.find(&index.key_at(i).clone()), Some(i));
    }
}

#[test]
fn index_relocate_replaces_every_place() {
    let mut index = Index::new();
    index.insert(s("a"), at(0, 1, 0));
    index.insert(s("b"), at(2, 3, 0));
    index.relocate(&vec![at(10, 1, 7), at(12, 3, 7)]);
    assert_eq!(index.get(&s("a")), Some(at(10, 1, 7)));
    assert_eq!(index.get(&s("b")), Some(at(12, 3, 7)));
    assert_eq!(index.key_at(0), "a");
}

#[test]
fn add_dead_saturates() {
    assert_eq!(add_dead(0, 0), 0);
    assert_eq!(add_dead(3, 4), 7);
    assert_eq!(add_dead(u64::MAX - 1, 1), u64::MAX);
    assert_eq!(add_dead(u64::MAX, 1), u64::MAX);
    assert_eq!(add_dead(u64::MAX, u64::MAX), u64::MAX);
    assert_eq!(add_dead(1, u64::MAX), u64::MAX);
}

#[test]
fn find_frame_end_stops_at_the_separator() {
    assert_eq!(find_frame_end(b"ab\ncd\n", 0), 2);
    assert_eq!(find_frame_end(b"ab\ncd\n", 2), 2);
    assert_eq!(find_frame_end(b"ab\ncd\n", 3), 5);
    assert_eq!(find_frame_end(b"ab\ncd", 3), 5);
    assert_eq!(find_frame_end(b"ab", 2), 2);
    assert_eq!(find_frame_end(b"", 0), 0);
}

#[test]
fn apply_updates_index_and_dead_bytes() {
    let mut index = Index::new();
    let put = |k: &str| KvsCommand::Put { key: s(k), value: s("v") };
    assert_eq!(apply(&mut index, put("a"), at(0, 10, 0), 0), 0);
    assert_eq!(apply(&mut index, put("a"), at(11, 20, 0), 0), 10);
    assert_eq!(apply(&mut index, put("b"), at(32, 5, 0), 10), 10);
    assert_eq!(apply(&mut index, KvsCommand::Rm { key: s("a") }, at(38, 3, 0), 10), 30);
    assert_eq!(apply(&mut index, KvsCommand::Rm { key: s("a") }, at(42, 3, 0), 30), 30);
    assert_eq!(apply(&mut index, put("b"), at(46, 5, 0), u64::MAX - 2), u64::MAX);
    assert_eq!(index.get(&s("a")), None);
    assert_eq!(index.get(&s("b")), Some(at(46, 5, 0)));
}

#[test]
fn load_reads_a_segment_into_the_index() {
    let first = put_record("a", "1");
    let second = put_record("b", "22");
    let third = put_record("a", "333");
    let fourth = rm_record("b");
    let mut data = first.clone();
    data.extend(&second);
    data.extend(&third);
    data.extend(&fourth);
    let mut index = Index::new();
    let dead = load(6, &data, &mut index, 100).unwrap();
    assert_eq!(dead, 100 + (first.len() - 1 + second.len() - 1) as u64);
    let pos = (first.len() + second.len()) as u64;
    assert_eq!(index.get(&s("a")), Some(at(pos, third.len() as u64 - 1, 6)));
    assert_eq!(index.get(&s("b")), None);
    assert_eq!(index.len(), 1);
}

#[test]
fn load_of_an_empty_segment_changes_nothing() {
    let mut index = Index::new();
    index.insert(s("a"), at(0, 1, 0));
    assert_eq!(load(1, b"", &mut index, 5).unwrap(), 5);
    assert_eq!(index.len(), 1);
}

#[test]
fn load_refuses_bad_bytes() {
    let mut index = Index::new();
    assert_eq!(load(0, b"\n", &mut index, 0).err().unwrap().kind, ErrorKind::Codec);
    assert_eq!(load(0, b"xyz\n", &mut index, 0).err().unwrap().kind, ErrorKind::Codec);
    let mut torn = put_record("a", "1");
    torn.pop();
    assert_eq!(load(0, &torn, &mut index, 0).err().unwrap().kind, ErrorKind::Codec);
    let mut tail = put_record("a", "1");
    tail.extend(b"x");
    assert_eq!(load(0, &tail, &mut index, 0).err().unwrap().kind, ErrorKind::Codec);
}

#[test]
fn rebuild_reads_all_segments() {
    let mut store = SegmentStore::new();
    store.put(2, put_record("k", "second"));
    store.put(1, put_record("k", "first"));
    store.put(3, Vec::new());
    let (index, dead) = rebuild(&store).unwrap();
    assert_eq!(index.get(&s("k")), Some(at(0, put_record("k", "second").len() as u64 - 1, 2)));
    assert_eq!(dead, put_record("k", "first").len() as u64 - 1);
    store.put(4, b"bad".to_vec());
    assert_eq!(rebuild(&store).err().unwrap().kind, ErrorKind::Codec);
    let (empty, none) = rebuild(&SegmentStore::new()).unwrap();
    assert_eq!((empty.len(), none), (0, 0));
}

#[test]
fn segment_names_are_decimal_digits_and_log() {
    assert_eq!(segment_name(0), b"0.log".to_vec());
    assert_eq!(segment_name(7), b"7.log".to_vec());
    assert_eq!(segment_name(10), b"10.log".to_vec());
    assert_eq!(segment_name(1234567890), b"1234567890.log".to_vec());
    assert_eq!(segment_name(u64::MAX), b"18446744073709551615.log".to_vec());
    assert_eq!(render_decimal(0), b"0".to_vec());
    assert_eq!(render_decimal(909), b"909".to_vec());
}

#[test]
fn segment_id_reads_a_name() {
    assert_eq!(segment_id(b"0.log"), Some(0));
    assert_eq!(segment_id(b"12.log"), Some(12));
    assert_eq!(segment_id(b"7.log"), Some(7));
    assert_eq!(segment_id(b"70.log"), Some(70));
    assert_eq!(segment_id(b"007.log"), None);
    assert_eq!(segment_id(b"07.log"), None);
    assert_eq!(segment_id(b"00.log"), None);
    assert_eq!(segment_id(b"018446744073709551615.log"), None);
    assert_eq!(segment_id(b"18446744073709551615.log"), Some(u64::MAX));
    assert_eq!(segment_id(b"18446744073709551616.log"), None);
    assert_eq!(segment_id(b"99999999999999999999999.log"), None);
    assert_eq!(segment_id(b".log"), None);
    assert_eq!(segment_id(b"log"), None);
    assert_eq!(segment_id(b""), None);
    assert_eq!(segment_id(b"1.txt"), None);
    assert_eq!(segment_id(b"1.log.log"), None);
    assert_eq!(segment_id(b"+1.log"), None);
    assert_eq!(segment_id(b"-1.log"), None);
    assert_eq!(segment_id(b"1a.log"), None);
    assert_eq!(segment_id(b" 1.log"), None);
    assert_eq!(segment_id(b"1.LOG"), None);
    assert_eq!(segment_id(b"1.log "), None);
    assert_eq!(segment_id(b"1log"), None);
}

#[test]
fn segment_id_inverts_segment_name() {
    for id in [0, 1, 9, 10, 99, 100, 4096, u64::MAX - 1, u64::MAX] {
        assert_eq!(segment_id(&segment_name(id)), Some(id));
    }
}

#[test]
fn every_listed_id_has_its_own_name_in_the_list() {
    let names: Vec<Vec<u8>> = ["0.log", "00.log", "12.log", "012.log", "5.log.log", "9.log"]
        .iter()
        .map(|n| n.as_bytes().to_vec())
        .collect();
    let ids = get_logs(&names);
    assert_eq!(ids, vec![0, 9, 12]);
    for id in ids {
        assert!(names.contains(&segment_name(id)));
    }
}

#[test]
fn parse_decimal_reads_digits() {
    assert_eq!(parse_decimal(b""), Some(0));
    assert_eq!(parse_decimal(b"0"), Some(0));
    assert_eq!(parse_decimal(b"0042"), Some(42));
    assert_eq!(parse_decimal(b"18446744073709551615"), Some(u64::MAX));
    assert_eq!(parse_decimal(b"18446744073709551616"), None);
    assert_eq!(parse_decimal(b"4x"), None);
    assert_eq!(parse_decimal(b"/"), None);
    assert_eq!(parse_decimal(b":"), None);
}

#[test]
fn get_logs_lists_the_ids_ascending() {
    let names: Vec<Vec<u8>> = ["10.log", "2.log", "notes.txt", "1.log", "03.log", ".log", "2.log"]
        .iter()
        .map(|n| n.as_bytes().to_vec())
        .collect();
    assert_eq!(get_logs(&names), vec![1, 2, 10]);
    assert_eq!(get_logs(&Vec::new()), Vec::<u64>::new());
}

#[test]
fn insert_id_keeps_the_list_ascending() {
    let mut ids = vec![2, 5, 9];
    insert_id(&mut ids, 7);
    insert_id(&mut ids, 1);
    insert_id(&mut ids, 10);
    insert_id(&mut ids, 5);
    assert_eq!(ids, vec![1, 2, 5, 7, 9, 10]);
}

#[test]
fn extents_give_each_segment_with_its_length() {
    let mut store = SegmentStore::new();
    store.put(4, vec![1, 2, 3]);
    store.create(9);
    assert_eq!(extents(&store), vec![Extent { id: 4, len: 3 }, Extent { id: 9, len: 0 }]);
    assert_eq!(extents(&SegmentStore::new()), Vec::new());
}

#[test]
fn held_goes_by_the_first_extent() {
    let copy = vec![Extent { id: 4, len: 3 }, Extent { id: 9, len: 0 }, Extent { id: 4, len: 8 }];
    assert_eq!(held(&copy, 4), Some(3));
    assert_eq!(held(&copy, 9), Some(0));
    assert_eq!(held(&copy, 5), None);
}

#[test]
fn changes_write_tails_and_delete_what_is_gone() {
    let mut store = SegmentStore::new();
    store.put(4, vec![1, 2, 3]);
    store.put(6, vec![7, 8]);
    store.create(9);
    let copy = vec![
        Extent { id: 2, len: 10 },
        Extent { id: 4, len: 1 },
        Extent { id: 6, len: 2 },
        Extent { id: 3, len: 0 },
    ];
    assert_eq!(
        changes(&store, &copy),
        vec![
            StoreOp::Write { id: 4, offset: 1, bytes: vec![2, 3] },
            StoreOp::Write { id: 9, offset: 0, bytes: vec![] },
            StoreOp::Delete { id: 2 },
            StoreOp::Delete { id: 3 },
        ]
    );
    assert_eq!(changes(&store, &extents(&store)), Vec::new());
}

#[test]
fn changes_follow_a_store_through_compaction() {
    let mut kvs = Kvs::open(SegmentStore::new(), Some(1)).unwrap();
    let mut copy = Vec::new();
    let first = changes_of(&kvs, &mut copy);
    assert_eq!(first, vec![StoreOp::Write { id: 0, offset: 0, bytes: vec![] }]);
    kvs.set(s("a"), s("1")).unwrap();
    let second = changes_of(&kvs, &mut copy);
    assert_eq!(second, vec![StoreOp::Write { id: 0, offset: 0, bytes: put_record("a", "1") }]);
    kvs.set(s("b"), s("2")).unwrap();
    let third = changes_of(&kvs, &mut copy);
    assert_eq!(
        third,
        vec![StoreOp::Write {
            id: 0,
            offset: put_record("a", "1").len() as u64,
            bytes: put_record("b", "2"),
        }]
    );
    kvs.set(s("a"), s("3")).unwrap();
    let mut live = put_record("a", "3");
    live.extend(put_record("b", "2"));
    assert_eq!(
        changes_of(&kvs, &mut copy),
        vec![
            StoreOp::Write { id: 1, offset: 0, bytes: live },
            StoreOp::Write { id: 2, offset: 0, bytes: vec![] },
            StoreOp::Delete { id: 0 },
        ]
    );
    assert_eq!(changes_of(&kvs, &mut copy), Vec::new());
}

fn changes_of(kvs: &Kvs, copy: &mut Vec<Extent>) -> Vec<StoreOp> {
    let ops = kvs.changes(copy);
    *copy = kvs.extents();
    ops
}

#[test]
fn applying_the_changes_keeps_files_equal_to_the_segments() {
    let mut kvs = Kvs::open(SegmentStore::new(), Some(60)).unwrap();
    let mut files: BTreeMap<u64, Vec<u8>> = BTreeMap::new();
    let mut copy: Vec<Extent> = Vec::new();
    let mut compactions = 0;
    for i in 0..80 {
        let before = kvs.current_log();
        kvs.set(format!("key{}", i % 9), format!("value {}\n{}", i, "x".repeat(i % 5))).unwrap();
        if i % 7 == 3 {
            kvs.rm(format!("key{}", i % 9)).unwrap();
        }
        if kvs.current_log() != before {
            compactions += 1;
        }
        for op in kvs.changes(&copy) {
            match op {
                StoreOp::Write { id, offset, bytes } => {
                    let file = files.entry(id).or_default();
                    assert_eq!(file.len() as u64, offset);
                    file.extend(bytes);
                }
                StoreOp::Delete { id } => {
                    assert!(files.remove(&id).is_some());
                }
            }
        }
        copy = kvs.extents();
        assert_eq!(files.keys().cloned().collect::<Vec<u64>>(), kvs.segment_ids());
        for extent in &copy {
            assert_eq!(files[&extent.id].len() as u64, extent.len);
        }
    }
    assert!(compactions > 3);
    let values: Vec<_> = (0..9).map(|i| kvs.get(&format!("key{}", i)).ok()).collect();
    let dead = kvs.uncompacted();
    let kept = kvs.close();
    let mut store = SegmentStore::new();
    for (id, data) in files {
        assert_eq!(kept.read(id, 0, data.len() as u64), Some(data.clone()));
        assert!(store.put(id, data));
    }
    let again = Kvs::open(store, Some(60)).unwrap();
    assert_eq!(again.uncompacted(), dead);
    for i in 0..9 {
        assert_eq!(again.get(&format!("key{}", i)).ok(), values[i]);
    }
}

use kvs::{Kvs, KvsError, SegmentStore};

fn create_tmp() -> Kvs {
    Kvs::open(SegmentStore::new(), None).expect("unable to open an empty store")
}

#[test]
fn set_get() -> Result<(), KvsError> {
    let mut kvs = create_tmp();
    let exp = "value1";
    kvs.set("key1".to_owned(), exp.to_owned())?;
    let actual = kvs.get(&"key1".to_owned()).unwrap();
    assert_eq!(exp, actual);

    Ok(())
}

#[test]
fn set_multiple() -> Result<(), KvsError> {
    let mut kvs = create_tmp();
    let exp = "value1";
    kvs.set("key1".to_owned(), "somethingelse".to_owned())?;
    kvs.set("key2".to_owned(), exp.to_owned())?;
    let actual = kvs.get(&"key2".to_owned()).unwrap();
    assert_eq!(exp, actual);

    Ok(())
}

#[test]
fn open() -> Result<(), KvsError> {
    let mut kvs = Kvs::open(SegmentStore::new(), None)?;
    let exp = "value1";
    kvs.set("key1".to_owned(), exp.to_owned())?;
    let store = kvs.close();

    let kvs = Kvs::open(store, None)?;
    let actual = kvs.get(&"key1".to_owned()).unwrap();
    assert_eq!(exp, actual);

    Ok(())
}

#[test]
fn overwrite() -> Result<(), KvsError> {
    let mut kvs = create_tmp();
    let exp = "last";
    kvs.set("key1".to_owned(), "somethingelse".to_owned())?;
    kvs.set("key1".to_owned(), "somethingelse".to_owned())?;
    kvs.set("key1".to_owned(), "somethingelse".to_owned())?;
    kvs.set("key1".to_owned(), exp.to_owned())?;
    let actual = kvs.get(&"key1".to_owned()).unwrap();

    assert_eq!(exp, actual);
    Ok(())
}

#[test]
fn log_threshold() -> Result<(), KvsError> {
    let mut kvs = Kvs::open(SegmentStore::new(), Some(1))?;

    kvs.set("key1".to_owned(), "somethingelse".to_owned())?;
    kvs.set("key1".to_owned(), "somethingelse".to_owned())?;
    kvs.set("key1".to_owned(), "somethingelse".to_owned())?;

    let entries = kvs.segment_ids().len();

    assert_eq!(2, entries);
    Ok(())
}

#[test]
fn compaction() -> Result<(), KvsError> {
    let mut kvs = Kvs::open(SegmentStore::new(), Some(1))?;

    kvs.set("key1".to_owned(), "val1".to_owned())?;
    kvs.set("key1".to_owned(), "val1".to_owned())?;
    kvs.set("key2".to_owned(), "val2".to_owned())?;
    kvs.set("key2".to_owned(), "val2".to_owned())?;
    kvs.set("key3".to_owned(), "val3".to_owned())?;
    kvs.set("key3".to_owned(), "val3".to_owned())?;

    let entries = kvs.segment_ids();

    println!("entries: {:?}", entries);
    assert_eq!(2, entries.len());

    Ok(())
}

#[test]
fn reload_compaction() -> Result<(), KvsError> {
    let mut kvs = Kvs::open(SegmentStore::new(), Some(1))?;

    kvs.set("key1".to_owned(), "val1".to_owned())?;
    kvs.set("key1".to_owned(), "val1".to_owned())?;
    kvs.set("key2".to_owned(), "val2".to_owned())?;
    kvs.set("key2".to_owned(), "val2".to_owned())?;
    kvs.set("key3".to_owned(), "val3".to_owned())?;
    kvs.set("key3".to_owned(), "val3".to_owned())?;

    let store = kvs.close();
    let kvs = Kvs::open(store, None)?;

    assert_eq!("val1", kvs.get(&"key1".to_owned()).unwrap());
    assert_eq!("val2", kvs.get(&"key2".to_owned()).unwrap());
    assert_eq!("val3", kvs.get(&"key3".to_owned()).unwrap());

    Ok(())
}

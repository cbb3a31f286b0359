use kvs::kvs::{Directory, Segment};
use kvs::{KvStore, KvsEngine, KvsError};

fn fresh_directory() -> Directory {
    Directory { segments: Vec::new() }
}

// Should get previously stored value
#[test]
fn get_stored_value() -> Result<(), KvsError> {
    let mut store = KvStore::open(fresh_directory())?;

    store.set("key1".to_owned(), "value1".to_owned())?;
    store.set("key2".to_owned(), "value2".to_owned())?;

    assert_eq!(store.get("key1".to_owned())?, Some("value1".to_owned()));
    assert_eq!(store.get("key2".to_owned())?, Some("value2".to_owned()));

    // Open from the directory image again and check persistent data
    let dir = store.export();
    drop(store);
    let store = KvStore::open(dir)?;
    assert_eq!(store.get("key1".to_owned())?, Some("value1".to_owned()));
    assert_eq!(store.get("key2".to_owned())?, Some("value2".to_owned()));

    Ok(())
}

// Should overwrite existent value
#[test]
fn overwrite_value() -> Result<(), KvsError> {
    let mut store = KvStore::open(fresh_directory())?;

    store.set("key1".to_owned(), "value1".to_owned())?;
    assert_eq!(store.get("key1".to_owned())?, Some("value1".to_owned()));
    store.set("key1".to_owned(), "value2".to_owned())?;
    assert_eq!(store.get("key1".to_owned())?, Some("value2".to_owned()));

    // Open from the directory image again and check persistent data
    let dir = store.export();
    drop(store);
    let mut store = KvStore::open(dir)?;
    assert_eq!(store.get("key1".to_owned())?, Some("value2".to_owned()));
    store.set("key1".to_owned(), "value3".to_owned())?;
    assert_eq!(store.get("key1".to_owned())?, Some("value3".to_owned()));

    Ok(())
}

// Should get `None` when getting a non-existent key
#[test]
fn get_non_existent_value() -> Result<(), KvsError> {
    let mut store = KvStore::open(fresh_directory())?;

    store.set("key1".to_owned(), "value1".to_owned())?;
    assert_eq!(store.get("key2".to_owned())?, None);

    // Open from the directory image again and check persistent data
    let dir = store.export();
    drop(store);
    let store = KvStore::open(dir)?;
    assert_eq!(store.get("key2".to_owned())?, None);

    Ok(())
}

#[test]
fn remove_non_existent_key() -> Result<(), KvsError> {
    let mut store = KvStore::open(fresh_directory())?;
    assert!(store.remove("key1".to_owned()).is_err());
    Ok(())
}

#[test]
fn remove_key() -> Result<(), KvsError> {
    let mut store = KvStore::open(fresh_directory())?;
    store.set("key1".to_owned(), "value1".to_owned())?;
    assert!(store.remove("key1".to_owned()).is_ok());
    assert_eq!(store.get("key1".to_owned())?, None);
    Ok(())
}

// A removed key stays absent across a reopen, and a fresh set brings it back
#[test]
fn remove_then_reopen() -> Result<(), KvsError> {
    let mut store = KvStore::open(fresh_directory())?;
    store.set("key1".to_owned(), "value1".to_owned())?;
    store.remove("key1".to_owned())?;

    let dir = store.export();
    drop(store);
    let mut store = KvStore::open(dir)?;
    assert_eq!(store.get("key1".to_owned())?, None);

    store.set("key1".to_owned(), "value2".to_owned())?;
    assert_eq!(store.get("key1".to_owned())?, Some("value2".to_owned()));
    Ok(())
}

// One thousand distinct keys all read back, before and after a reopen
#[test]
fn many_keys_persist() -> Result<(), KvsError> {
    let mut store = KvStore::open(fresh_directory())?;
    for i in 0..1000 {
        store.set(format!("key{}", i), format!("value{}", i))?;
    }
    for i in 0..1000 {
        assert_eq!(store.get(format!("key{}", i))?, Some(format!("value{}", i)));
    }

    let dir = store.export();
    drop(store);
    let store = KvStore::open(dir)?;
    for i in 0..1000 {
        assert_eq!(store.get(format!("key{}", i))?, Some(format!("value{}", i)));
    }

    Ok(())
}

// A directory whose segment ids do not ascend is refused
#[test]
fn open_rejects_unsorted_segments() {
    let dir = Directory {
        segments: vec![
            Segment { id: 3, data: Vec::new() },
            Segment { id: 1, data: Vec::new() },
        ],
    };
    assert!(matches!(KvStore::open(dir), Err(KvsError::LogIndexIDError)));
}

// A directory with a torn record at the end of a segment is refused
#[test]
fn open_rejects_torn_record() {
    let mut store = KvStore::open(fresh_directory()).unwrap();
    store.set("key1".to_owned(), "value1".to_owned()).unwrap();
    let mut dir = store.export();
    let seg = &mut dir.segments[0];
    seg.data.pop();
    assert!(matches!(
        KvStore::open(dir),
        Err(KvsError::SerializationError)
    ));
}

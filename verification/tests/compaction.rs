use kvs::kvs::{Directory, KvStore};
use kvs::KvsEngine;

fn directory_size(store: &KvStore) -> u64 {
    let mut total: u64 = 0;
    for seg in &store.export().segments {
        total += seg.data.len() as u64;
    }
    total
}

// Insert data until the total size of the directory decreases.
// Test data correctness after compaction.
#[test]
fn compaction() -> Result<(), kvs::KvsError> {
    let mut store = KvStore::open(Directory { segments: Vec::new() })?;

    let mut current_size = directory_size(&store);
    for iter in 0..1000 {
        for key_id in 0..1000 {
            let key = format!("key{}", key_id);
            let value = format!("{}", iter);
            store.set(key, value)?;
        }

        let new_size = directory_size(&store);
        if new_size > current_size {
            current_size = new_size;
            continue;
        }
        // Compaction triggered

        let dir = store.export();
        drop(store);
        // reopen and check content
        let store = KvStore::open(dir)?;
        for key_id in 0..1000 {
            let key = format!("key{}", key_id);
            assert_eq!(store.get(key)?, Some(format!("{}", iter)));
        }
        return Ok(());
    }

    panic!("No compaction detected");
}

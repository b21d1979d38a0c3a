use chuangshi::storage::{StorageManager, StoreError, StoredFiles};
use std::collections::HashMap;

type Disk = HashMap<String, Vec<u8>>;

fn put(store: &StorageManager, disk: &mut Disk, path: &str, data: &[u8]) {
    for f in store.write_file(path, data).unwrap() {
        disk.insert(f.name, f.contents);
    }
}

fn found(store: &StorageManager, disk: &Disk, path: &str) -> StoredFiles {
    let shards = (0..store.shard_count())
        .map(|i| disk.get(&store.shard_path(path, i)).cloned())
        .collect();
    StoredFiles { shards, plain: disk.get(&store.full_path(path)).cloned() }
}

fn get(store: &StorageManager, disk: &Disk, path: &str, size: usize) -> Result<Vec<u8>, StoreError> {
    store.read_file(&found(store, disk, path), size as u64)
}

fn payload(n: usize) -> Vec<u8> {
    (0..n).map(|i| (i * 13 + 1) as u8).collect()
}

#[test]
fn plain_round_trip() {
    let store = StorageManager::new("/data");
    let mut disk = Disk::new();
    for n in [0usize, 1, 4 * 8, 4 * 8 + 1] {
        let data = payload(n);
        put(&store, &mut disk, "f.bin", &data);
        assert_eq!(get(&store, &disk, "f.bin", n), Ok(data));
    }
    assert_eq!(disk.len(), 1);
    assert!(disk.contains_key("/data/f.bin"));
}

#[test]
fn sharded_round_trip() {
    let mut store = StorageManager::new("/data");
    store.set_erasure_coding(4, 2).unwrap();
    let mut disk = Disk::new();
    for n in [0usize, 1, 4 * 8, 4 * 8 + 1] {
        let data = payload(n);
        put(&store, &mut disk, "g.bin", &data);
        assert_eq!(get(&store, &disk, "g.bin", n), Ok(data));
    }
}

#[test]
fn scenario_four_plus_two() {
    let mut store = StorageManager::new("root");
    store.set_erasure_coding(4, 2).unwrap();
    let mut disk = Disk::new();
    let data = payload(4096);
    put(&store, &mut disk, "/a/b.dat", &data);
    for i in 0..6 {
        let name = format!("root//a/b.dat.shard{}", i);
        assert_eq!(disk.get(&name).map(|s| s.len()), Some(1024));
    }
    for a in 0..6 {
        for b in a + 1..6 {
            let mut d = disk.clone();
            d.remove(&store.shard_path("/a/b.dat", a));
            d.remove(&store.shard_path("/a/b.dat", b));
            assert_eq!(get(&store, &d, "/a/b.dat", 4096), Ok(data.clone()));
            for c in b + 1..6 {
                let mut e = d.clone();
                e.remove(&store.shard_path("/a/b.dat", c));
                assert_eq!(get(&store, &e, "/a/b.dat", 4096), Err(StoreError::InsufficientShards));
            }
        }
    }
}

#[test]
fn file_names() {
    let mut store = StorageManager::new("root");
    assert_eq!(store.full_path("x/y"), "root/x/y");
    assert_eq!(store.shard_path("x", 12), "root/x.shard12");
    assert_eq!(store.shard_count(), 0);
    store.set_erasure_coding(3, 2).unwrap();
    assert_eq!(store.shard_count(), 5);
    assert_eq!(
        store.delete_file("x"),
        vec![
            "root/x".to_string(),
            "root/x.shard0".to_string(),
            "root/x.shard1".to_string(),
            "root/x.shard2".to_string(),
            "root/x.shard3".to_string(),
            "root/x.shard4".to_string(),
        ]
    );
}

#[test]
fn delete_without_coding_lists_plain_file() {
    let store = StorageManager::new("r");
    assert_eq!(store.delete_file("p"), vec!["r/p".to_string()]);
}

#[test]
fn missing_path_is_not_found() {
    let mut store = StorageManager::new("r");
    let disk = Disk::new();
    assert_eq!(get(&store, &disk, "nope", 0), Err(StoreError::NotFound));
    store.set_erasure_coding(2, 1).unwrap();
    assert_eq!(get(&store, &disk, "nope", 0), Err(StoreError::NotFound));
}

#[test]
fn too_few_shards_fall_back_to_plain_file() {
    let plain_store = StorageManager::new("r");
    let mut disk = Disk::new();
    put(&plain_store, &mut disk, "p", b"plain bytes");
    let mut store = StorageManager::new("r");
    store.set_erasure_coding(2, 1).unwrap();
    assert_eq!(get(&store, &disk, "p", 11), Ok(b"plain bytes".to_vec()));
    disk.insert(store.shard_path("p", 0), vec![1, 2, 3]);
    assert_eq!(get(&store, &disk, "p", 11), Ok(b"plain bytes".to_vec()));
}

#[test]
fn sharded_write_lists_only_shard_files() {
    let mut store = StorageManager::new("r");
    store.set_erasure_coding(4, 1).unwrap();
    let mut disk = Disk::new();
    put(&store, &mut disk, "p", &payload(9));
    let mut names: Vec<&String> = disk.keys().collect();
    names.sort();
    assert_eq!(names, vec!["r/p.shard0", "r/p.shard1", "r/p.shard2", "r/p.shard3", "r/p.shard4"]);
    assert_eq!(disk.get("r/p.shard0").map(|s| s.len()), Some(3));
}

#[test]
fn size_cuts_padding_and_too_large_size_is_corrupt() {
    let mut store = StorageManager::new("r");
    store.set_erasure_coding(4, 1).unwrap();
    let mut disk = Disk::new();
    let data = payload(9);
    put(&store, &mut disk, "p", &data);
    assert_eq!(get(&store, &disk, "p", 9), Ok(data.clone()));
    assert_eq!(get(&store, &disk, "p", 12).map(|v| v.len()), Ok(12));
    assert_eq!(get(&store, &disk, "p", 13), Err(StoreError::CorruptLayout));
}

#[test]
fn invalid_coding_is_refused() {
    let mut store = StorageManager::new("r");
    assert!(store.set_erasure_coding(0, 2).is_err());
    assert_eq!(store.shard_count(), 0);
}

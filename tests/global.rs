use hivemind::global::{GlobalCache, GlobalStorageError, GlobalStore};
use hivemind::ids::UUID;

/// A write through one client: commit on the store, then apply to the cache.
fn set(store: &mut GlobalStore, cache: &mut GlobalCache, id: &UUID, key: Vec<u8>, value: Option<Vec<u8>>) {
    let committed = store.set(id, key.clone(), value.clone()).map(|_| ());
    cache.set(id, key, value, committed).unwrap();
}

#[test]
pub fn cached() {
    let mut store = GlobalStore::new();
    let mut cache = GlobalCache::new();
    let task = UUID::rand();
    store.create_store(&task).unwrap();
    cache.prepare(&task, store.dump(&task).unwrap()).unwrap();
    set(&mut store, &mut cache, &task, vec![1, 2, 3], Some(vec![4, 5, 6]));
    set(&mut store, &mut cache, &task, vec![7, 8, 9], Some(vec![10, 11, 12]));

    assert_eq!(cache.get_cached(&task, &vec![1, 2, 3]).unwrap().unwrap(), vec![4, 5, 6]);
    assert_eq!(cache.get_cached(&task, &vec![7, 8, 9]).unwrap().unwrap(), vec![10, 11, 12]);

    set(&mut store, &mut cache, &task, vec![1, 2, 3], None);
    assert!(cache.get_cached(&task, &vec![1, 2, 3]).unwrap().is_none());
    set(&mut store, &mut cache, &task, vec![1, 2, 3], Some(vec![13, 14, 15, 16]));
    assert_eq!(cache.get_cached(&task, &vec![1, 2, 3]).unwrap().unwrap(), vec![13, 14, 15, 16]);

    let committed = store.invalidate(&task);
    cache.invalidate(&task, committed).unwrap();
    assert!(!cache.is_prepared(&task));
}

#[test]
fn cas_contention() {
    let mut store = GlobalStore::new();
    let mut a = GlobalCache::new();
    let mut b = GlobalCache::new();
    let n = UUID::new(4, 4);
    let k = vec![9u8];
    store.create_store(&n).unwrap();
    let ra = store.compare_and_swap(&n, k.clone(), &None, Some(vec![1])).map(|r| r.0);
    let ra = a.compare_and_swap(&n, k.clone(), &None, Some(vec![1]), ra).unwrap();
    let rb = store.compare_and_swap(&n, k.clone(), &None, Some(vec![2])).map(|r| r.0);
    let rb = b.compare_and_swap(&n, k.clone(), &None, Some(vec![2]), rb).unwrap();
    assert_eq!(ra, None);
    assert_eq!(rb, Some(vec![1]));
    assert_eq!(store.get(&n, &k), Ok(Some(vec![1])));
    assert_eq!(a.get_cached(&n, &k), Ok(Some(vec![1])));
    assert_eq!(b.get_cached(&n, &k), Ok(Some(vec![1])));
}

#[test]
fn cas_commits_on_match() {
    let mut store = GlobalStore::new();
    let n = UUID::new(5, 5);
    store.create_store(&n).unwrap();
    store.set(&n, vec![1], Some(vec![2])).unwrap();
    assert_eq!(store.compare_and_swap(&n, vec![1], &Some(vec![3]), None).map(|r| r.0), Ok(Some(vec![2])));
    assert_eq!(store.get(&n, &vec![1]), Ok(Some(vec![2])));
    assert_eq!(store.compare_and_swap(&n, vec![1], &Some(vec![2]), None).map(|r| r.0), Ok(Some(vec![2])));
    assert_eq!(store.get(&n, &vec![1]), Ok(None));
}

#[test]
fn swap_returns_previous() {
    let mut store = GlobalStore::new();
    let n = UUID::new(6, 6);
    store.create_store(&n).unwrap();
    assert_eq!(store.swap(&n, vec![1], Some(vec![1])).map(|r| r.0), Ok(None));
    assert_eq!(store.swap(&n, vec![1], Some(vec![2])).map(|r| r.0), Ok(Some(vec![1])));
    assert_eq!(store.swap(&n, vec![1], None).map(|r| r.0), Ok(Some(vec![2])));
    assert_eq!(store.get(&n, &vec![1]), Ok(None));
}

#[test]
fn global_errors() {
    let mut store = GlobalStore::new();
    let mut cache = GlobalCache::new();
    let n = UUID::new(7, 7);
    assert_eq!(store.set(&n, vec![1], None).map(|_| ()), Err(GlobalStorageError::StoreNotExisted));
    assert_eq!(store.get(&n, &vec![1]), Err(GlobalStorageError::StoreNotExisted));
    assert!(store.dump(&n).is_err());
    assert_eq!(store.invalidate(&n), Err(GlobalStorageError::StoreNotExisted));
    store.create_store(&n).unwrap();
    assert_eq!(store.create_store(&n), Err(GlobalStorageError::StoreExisted));
    assert_eq!(cache.get_cached(&n, &vec![1]), Err(GlobalStorageError::StoreNotExisted));
    cache.prepare(&n, store.dump(&n).unwrap()).unwrap();
    assert_eq!(cache.prepare(&n, store.dump(&n).unwrap()), Err(GlobalStorageError::StoreNotExisted));
    assert_eq!(cache.set(&n, vec![1], Some(vec![1]), Err(GlobalStorageError::RemoteError)), Err(GlobalStorageError::RemoteError));
    assert_eq!(cache.get_cached(&n, &vec![1]), Ok(None));
}

#[test]
fn cache_follows_changes_and_snapshot() {
    let mut store = GlobalStore::new();
    let n = UUID::new(8, 8);
    store.create_store(&n).unwrap();
    store.set(&n, vec![1], Some(vec![10])).unwrap();
    store.set(&n, vec![2], Some(vec![20])).unwrap();
    let mut watcher = GlobalCache::new();
    watcher.prepare(&n, store.dump(&n).unwrap()).unwrap();
    assert_eq!(watcher.get_cached(&n, &vec![2]), Ok(Some(vec![20])));
    watcher.update_cache(&n, vec![2], None);
    watcher.update_cache(&n, vec![3], Some(vec![30]));
    assert_eq!(watcher.get_cached(&n, &vec![2]), Ok(None));
    assert_eq!(watcher.get_cached(&n, &vec![3]), Ok(Some(vec![30])));
    assert_eq!(watcher.get_cached(&n, &vec![1]), Ok(Some(vec![10])));
}

#[test]
fn get_newest_refreshes_cache() {
    let mut cache = GlobalCache::new();
    let n = UUID::new(9, 1);
    assert_eq!(cache.get_newest(&n, vec![1], false, Ok(Some(vec![5]))), Ok(Some(vec![5])));
    assert_eq!(cache.get_cached(&n, &vec![1]), Err(GlobalStorageError::StoreNotExisted));
    assert_eq!(cache.get_newest(&n, vec![1], true, Ok(Some(vec![6]))), Ok(Some(vec![6])));
    assert_eq!(cache.get_cached(&n, &vec![1]), Ok(Some(vec![6])));
    assert_eq!(cache.get_newest(&n, vec![1], true, Err(GlobalStorageError::RemoteError)), Err(GlobalStorageError::RemoteError));
    assert_eq!(cache.get_cached(&n, &vec![1]), Ok(Some(vec![6])));
}

#[test]
fn prepare_decisions() {
    let mut store = GlobalStore::new();
    let n = UUID::new(9, 2);
    assert!(matches!(hivemind::global::snapshot_or_create(store.dump(&n)), Ok(None)));
    assert_eq!(hivemind::global::created(store.create_store(&n)), Ok(()));
    assert_eq!(hivemind::global::created(store.create_store(&n)), Ok(()));
    assert_eq!(hivemind::global::created(Err(GlobalStorageError::RemoteError)), Err(GlobalStorageError::RemoteError));
    store.set(&n, vec![1], Some(vec![2])).unwrap();
    let snap = hivemind::global::snapshot_or_create(store.dump(&n)).unwrap().unwrap();
    assert_eq!(snap.get(&vec![1]), Some(vec![2]));
    assert!(matches!(hivemind::global::snapshot_or_create(Err(GlobalStorageError::SubscriptionError)), Err(GlobalStorageError::SubscriptionError)));
}

#[test]
fn mutations_announce_changes() {
    let mut store = GlobalStore::new();
    let n = UUID::new(3, 1);
    store.create_store(&n).unwrap();
    let c = store.set(&n, vec![1], Some(vec![2])).unwrap();
    assert_eq!((c.key, c.value), (vec![1], Some(vec![2])));
    let (prev, c) = store.swap(&n, vec![1], None).unwrap();
    assert_eq!(prev, Some(vec![2]));
    assert_eq!((c.key, c.value), (vec![1], None));
    let (actual, c) = store.compare_and_swap(&n, vec![1], &Some(vec![9]), Some(vec![3])).unwrap();
    assert_eq!(actual, None);
    assert!(c.is_none());
    let (actual, c) = store.compare_and_swap(&n, vec![1], &None, Some(vec![3])).unwrap();
    assert_eq!(actual, None);
    let c = c.unwrap();
    assert_eq!((c.key.clone(), c.value.clone()), (vec![1], Some(vec![3])));
    let mut watcher = GlobalCache::new();
    watcher.prepare(&n, hivemind::kvmap::KvMap::new()).unwrap();
    assert!(watcher.is_prepared(&n));
    watcher.apply_change(&n, c);
    assert_eq!(watcher.get_cached(&n, &vec![1]), Ok(Some(vec![3])));
}

#[test]
fn failed_invalidate_keeps_cache() {
    let mut cache = GlobalCache::new();
    let n = UUID::new(3, 9);
    assert_eq!(cache.invalidate(&n, Ok(())), Err(GlobalStorageError::StoreNotExisted));
    cache.prepare(&n, hivemind::kvmap::KvMap::new()).unwrap();
    assert_eq!(cache.invalidate(&n, Err(GlobalStorageError::RemoteError)), Err(GlobalStorageError::RemoteError));
    assert!(cache.is_prepared(&n));
    assert_eq!(cache.invalidate(&n, Ok(())), Ok(()));
    assert!(!cache.is_prepared(&n));
}

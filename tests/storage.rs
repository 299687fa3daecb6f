use hivemind::block_server::BlockOwnerServer;
use hivemind::dataset::{BatchedReader, Pull, STORAGE_BUFFER};
use hivemind::damper::CloneDamperManager;
use hivemind::ids::UUID;
use hivemind::record::ReadLimitBy;
use hivemind::registry::{ImmutableStorageRegistry, ImmutableStorageRegistryError};
use hivemind::storage::{CloneNext, GetStep, ReadStep, StorageManagers, BLOCK_COPY_BUFFER};

/// Blocks here stay within the default buffer, so no spill file is read.
const NO_FILE: Vec<u8> = Vec::new();

#[test]
fn clone_on_read() {
    let task = UUID::new(1, 1);
    let block = UUID::new(2, 2);
    let mut registry = ImmutableStorageRegistry::new();
    registry.create_registry(&task).unwrap();
    let mut a = StorageManagers::new("test_data".to_owned(), 1);
    let mut c = StorageManagers::new("test_data".to_owned(), 3);
    a.block.new_task(&task);
    c.block.new_task(&task);
    let records: Vec<Vec<u8>> = (0..120u32).map(|i| vec![(i % 251) as u8; (i % 5) as usize]).collect();
    a.block.write(&task, &block, records.clone()).unwrap();
    registry.set_location(&task, &block, 1).unwrap();

    let replicas = registry.get_location(&task, &block).unwrap();
    let servers = match c.plan_read(&task, &block, replicas) {
        ReadStep::Clone(servers) => servers,
        other => panic!("unexpected plan {:?}", other),
    };
    assert_eq!(servers, vec![1]);
    // a second reader on the same node waits for the clone
    assert!(matches!(c.plan_read(&task, &block, registry.get_location(&task, &block).unwrap()), ReadStep::Wait));
    let mut pos = 0u64;
    loop {
        let (batch, next) = a.block.read(&task, &block, pos, ReadLimitBy::Items(BLOCK_COPY_BUFFER), &NO_FILE).unwrap();
        pos = next;
        if c.absorb_batch(&task, &block, batch).unwrap().0 {
            break;
        }
    }
    assert!(c.complete_clone(&task, &block));
    registry.set_location(&task, &block, 3).unwrap();
    assert!(!c.damper.is_cloning(&block));
    assert_eq!(c.block.contains_block(&task, &block), Ok(true));
    assert!(matches!(c.plan_read(&task, &block, registry.get_location(&task, &block).unwrap()), ReadStep::Local));
    let (data, end) = c.block.read(&task, &block, 0, ReadLimitBy::Items(1000), &NO_FILE).unwrap();
    assert_eq!(data, records);
    assert_eq!(Ok((data, end)), a.block.read(&task, &block, 0, ReadLimitBy::Items(1000), &NO_FILE));
    let mut holders = registry.get_location(&task, &block).unwrap().unwrap();
    holders.sort();
    assert_eq!(holders, vec![1, 3]);
}

#[test]
fn plan_read_without_replicas_fails() {
    let mut c = StorageManagers::new("test_data".to_owned(), 3);
    let task = UUID::new(1, 0);
    let block = UUID::new(0, 1);
    assert!(matches!(c.plan_read(&task, &block, None), ReadStep::Fail));
    assert!(matches!(c.plan_read(&task, &block, Some(vec![3])), ReadStep::Fail));
    assert!(!c.damper.is_cloning(&block));
}

#[test]
fn clone_damping() {
    let mut d = CloneDamperManager::new();
    let id = UUID::new(5, 6);
    let results: Vec<bool> = (0..8).map(|_| d.damp(&id)).collect();
    assert_eq!(results, vec![true, false, false, false, false, false, false, false]);
    d.finish(&id);
    assert!(d.damp(&id));
}

#[test]
fn registry_lifecycle() {
    let mut r = ImmutableStorageRegistry::new();
    let id = UUID::new(1, 2);
    let key = UUID::new(3, 4);
    assert_eq!(r.set_location(&id, &key, 1), Err(ImmutableStorageRegistryError::RegistryNotExisted));
    assert_eq!(r.get_location(&id, &key), Err(ImmutableStorageRegistryError::RegistryNotExisted));
    r.create_registry(&id).unwrap();
    assert_eq!(r.create_registry(&id), Err(ImmutableStorageRegistryError::RegistryExisted));
    assert_eq!(r.get_location(&id, &key), Ok(None));
    r.set_location(&id, &key, 5).unwrap();
    r.set_location(&id, &key, 5).unwrap();
    r.set_location(&id, &key, 2).unwrap();
    assert_eq!(r.get_location(&id, &key), Ok(Some(vec![5, 2])));
    r.dispose_registry(&id).unwrap();
    assert_eq!(r.dispose_registry(&id), Err(ImmutableStorageRegistryError::RegistryNotExisted));
}

#[test]
fn immutable_values_share_task_block() {
    let task = UUID::new(9, 9);
    let key = UUID::new(1, 9);
    let mut m = StorageManagers::new("test_data".to_owned(), 2);
    assert_eq!(m.local_get(&task, &key, &NO_FILE), None);
    m.block.new_task(&task);
    assert_eq!(m.local_get(&task, &key, &NO_FILE), None);
    m.set(&task, &key, vec![7, 7]).unwrap();
    assert_eq!(m.local_get(&task, &key, &NO_FILE), Some(vec![7, 7]));
    assert_eq!(m.block.contains_block(&task, &task), Ok(true));
    assert_eq!(m.write(&task, &UUID::new(0, 3), vec![vec![1]]).map(|r| r.0), Ok(vec![0]));
    assert!(m.mark_owned(&task, &key));
    assert!(!m.mark_owned(&task, &key));
    assert!(m.mark_owned(&UUID::new(0, 1), &key));
}

#[test]
fn dataset_reads_in_batches() {
    let mut server = BlockOwnerServer::new("test_data".to_owned());
    let task = UUID::new(1, 5);
    let id = UUID::new(2, 5);
    server.new_task(&task);
    let records: Vec<Vec<u8>> = (0..23u8).map(|i| vec![i]).collect();
    server.write(&task, &id, records.clone()).unwrap();
    let mut reader = BatchedReader::new(task, id);
    let mut out = Vec::new();
    let mut fetches = 0;
    loop {
        match reader.pull() {
            Pull::Item(v) => out.push(v),
            Pull::Fetch(c) => {
                fetches += 1;
                assert_eq!(c.limit, ReadLimitBy::Items(STORAGE_BUFFER));
                let (batch, next) = server.read(&c.task, &c.id, c.pos, c.limit, &NO_FILE).unwrap();
                reader.fill(batch, next);
            }
            Pull::End => break,
        }
    }
    assert_eq!(out, records);
    assert_eq!(fetches, 4);
}

#[test]
fn immutable_get_plan() {
    let task = UUID::new(4, 4);
    let key = UUID::new(5, 5);
    let mut c = StorageManagers::new("test_data".to_owned(), 3);
    c.block.new_task(&task);
    let replicas = Some(vec![1, 3, 2]);
    assert!(matches!(c.plan_get(&task, &key, replicas.clone(), 0, &NO_FILE), GetStep::Ask(1)));
    assert!(matches!(c.plan_get(&task, &key, replicas.clone(), 1, &NO_FILE), GetStep::Ask(2)));
    assert!(matches!(c.plan_get(&task, &key, replicas.clone(), 2, &NO_FILE), GetStep::Done(None)));
    assert!(matches!(c.plan_get(&task, &key, None, 0, &NO_FILE), GetStep::Done(None)));
    assert_eq!(c.take_remote_value(&task, &key, vec![8, 8]).map(|r| r.0), Ok(true));
    match c.plan_get(&task, &key, replicas.clone(), 0, &NO_FILE) {
        GetStep::Done(Some(v)) => assert_eq!(v, vec![8, 8]),
        other => panic!("unexpected plan {:?}", other),
    }
    assert_eq!(c.take_remote_value(&task, &key, vec![9]).map(|r| r.0), Ok(false));
    assert_eq!(c.local_get(&task, &key, &NO_FILE), Some(vec![9]));
    let other = UUID::new(6, 6);
    assert_eq!(c.take_remote_value(&other, &key, vec![1]).map(|r| r.0), Err(hivemind::block_server::BlockServiceError::NoTask));
}

#[test]
fn absorb_batch_appends() {
    let task = UUID::new(7, 7);
    let id = UUID::new(8, 8);
    let mut c = StorageManagers::new("test_data".to_owned(), 3);
    assert_eq!(c.absorb_batch(&task, &id, vec![vec![1]]).map(|r| r.0), Err(hivemind::block_server::BlockServiceError::NoTask));
    c.block.new_task(&task);
    assert_eq!(c.absorb_batch(&task, &id, vec![vec![1], vec![2]]).map(|r| r.0), Ok(false));
    assert_eq!(c.absorb_batch(&task, &id, vec![vec![3]]).map(|r| r.0), Ok(false));
    assert_eq!(c.absorb_batch(&task, &id, vec![]).map(|r| r.0), Ok(true));
    assert_eq!(c.block.read(&task, &id, 0, ReadLimitBy::Items(10), &NO_FILE).unwrap().0, vec![vec![1], vec![2], vec![3]]);
    assert_eq!(c.write(&task, &id, vec![vec![4]]).map(|r| r.0), Ok(vec![27]));
}

#[test]
fn clone_attempts() {
    let task = UUID::new(2, 7);
    let id = UUID::new(3, 7);
    let mut c = StorageManagers::new("test_data".to_owned(), 3);
    c.block.new_task(&task);
    assert!(matches!(c.plan_read(&task, &id, Some(vec![1, 2])), ReadStep::Clone(_)));
    c.absorb_batch(&task, &id, vec![vec![1]]).unwrap();
    // the first replica failed midway: its partial copy goes
    assert_eq!(c.clone_attempt_done(&task, &id, false, true), CloneNext::TryNext);
    assert_eq!(c.block.contains_block(&task, &id), Ok(false));
    assert!(c.damper.is_cloning(&id));
    // an empty replica still gives an empty local block
    assert_eq!(c.absorb_batch(&task, &id, vec![]).map(|r| r.0), Ok(true));
    assert_eq!(c.clone_attempt_done(&task, &id, true, true), CloneNext::ReadLocal { register: true });
    assert!(!c.damper.is_cloning(&id));
    assert_eq!(c.block.read(&task, &id, 0, ReadLimitBy::Items(5), &NO_FILE).map(|r| r.0), Ok(vec![]));
    let other = UUID::new(4, 7);
    assert!(matches!(c.plan_read(&task, &other, Some(vec![1])), ReadStep::Clone(_)));
    assert_eq!(c.clone_attempt_done(&task, &other, false, false), CloneNext::Fail);
    assert!(!c.damper.is_cloning(&other));
}

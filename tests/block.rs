use hivemind::block::{FileAction, LocalOwnedBlock, BUFFER_CAP};
use hivemind::block_server::{BlockOwnerServer, BlockServiceError};
use hivemind::ids::UUID;
use hivemind::record::{BlockCursor, ReadLimitBy};

/// Performs a file action on an in-memory copy of a spill file.
fn apply(file: &mut Vec<u8>, action: FileAction) {
    match action {
        FileAction::Keep => {}
        FileAction::Create(bytes) => *file = bytes,
        FileAction::Append(mut bytes) => file.append(&mut bytes),
    }
}

#[test]
pub fn streaming() {
    let mut server = BlockOwnerServer::new("test_data".to_owned());
    let task = UUID::rand();
    let id = UUID::rand();
    let mut file = Vec::new();
    server.new_task(&task);
    apply(&mut file, server.write(&task, &id, vec![vec![1u8, 2u8, 3u8]]).unwrap().1);
    apply(&mut file, server.write(&task, &id, vec![vec![4u8, 5u8, 6u8]]).unwrap().1);
    let cursor = BlockCursor::new(task, id, ReadLimitBy::Items(10));
    let (data, pos) = server.read(&cursor.task, &cursor.id, cursor.pos, cursor.limit, &file).unwrap();
    assert_eq!(data, vec![vec![1u8, 2u8, 3u8], vec![4u8, 5u8, 6u8]]);
    assert_eq!(&pos, &22);
    let test_iter = BUFFER_CAP / 8; // ensure exceeds in-memory buffer
    for i in 0..test_iter {
        let n: u8 = (i % 255) as u8;
        apply(&mut file, server.write(&task, &id, vec![vec![n, n]]).unwrap().1);
    }
    assert!(!file.is_empty());
    let mut bulk_cursor = BlockCursor::new(task, id, ReadLimitBy::Items(1));
    bulk_cursor.pos = pos;
    for i in 0..test_iter {
        let n: u8 = (i % 255) as u8;
        let (data, new_pos) = server.read(&task, &id, bulk_cursor.pos, bulk_cursor.limit, &file).unwrap();
        bulk_cursor.pos = new_pos;
        assert_eq!(data, vec![vec![n, n]], "at iter: {}, cursor {}, MEM_CAP {}", i, bulk_cursor.pos, BUFFER_CAP);
    }
    server.remove_task(&task).unwrap();
}

#[test]
pub fn key_value() {
    let mut server = BlockOwnerServer::new("test_data".to_owned());
    let task = UUID::rand();
    let id = UUID::rand();
    let test_iter = BUFFER_CAP / 8; // ensure exceeds in-memory buffer
    let mut file = Vec::new();
    server.new_task(&task);
    for i in 0..test_iter {
        let n: u8 = (i % 255) as u8;
        let key = UUID::new(i as u64, i as u64);
        apply(&mut file, server.set(&task, &id, &key, vec![n, n]).unwrap());
    }
    for i in 0..test_iter {
        let n: u8 = (i % 255) as u8;
        let key = UUID::new(i as u64, i as u64);
        let data = server.get(&task, &id, &key, &file).unwrap().unwrap();
        assert_eq!(data, vec![n, n], "at iter: {}", i);
    }
    server.remove_task(&task).unwrap();
}

#[test]
pub fn parallel() {
    let mut server = BlockOwnerServer::new("test_data".to_owned());
    let task = UUID::rand();
    let id = UUID::rand();
    let test_iter = BUFFER_CAP / 8; // ensure exceeds in-memory buffer
    let mut file = Vec::new();
    server.new_task(&task);
    for i in 0..test_iter {
        let n: u8 = (i % 255) as u8;
        let key = UUID::new(i as u64, i as u64);
        apply(&mut file, server.set(&task, &id, &key, vec![n, n]).unwrap());
    }
    for i in 0..test_iter {
        let n: u8 = (i % 255) as u8;
        let key = UUID::new(i as u64, i as u64);
        let x = server.get(&task, &id, &key, &file).unwrap().unwrap();
        assert_eq!(x, vec![n, n], "at iter: {}", i);
    }
    server.remove_task(&task).unwrap();
}

#[test]
fn round_trip_small_capacity() {
    let records: Vec<Vec<u8>> = vec![vec![], vec![1], vec![2, 3], vec![4, 5, 6, 7, 8, 9, 10, 11, 12]];
    for cap in [0u64, 8, 9, 20, 1000] {
        let mut b = LocalOwnedBlock::new(UUID::new(1, 2), cap);
        let mut file = Vec::new();
        let (offsets, action) = b.write(records.clone()).unwrap();
        apply(&mut file, action);
        assert_eq!(offsets, vec![0, 8, 17, 27]);
        let (data, pos) = b.read(0, ReadLimitBy::Items(100), &file);
        assert_eq!(data, records);
        assert_eq!(pos, 44);
        assert_eq!(b.size(), 44);
    }
}

#[test]
fn spill_flushes_buffer_once() {
    let mut b = LocalOwnedBlock::new(UUID::new(0, 9), 20);
    assert!(matches!(b.append_data(&[1, 2, 3]).unwrap(), FileAction::Keep));
    assert!(!b.is_spilled());
    match b.append_data(&[4, 5]).unwrap() {
        FileAction::Create(bytes) => {
            assert_eq!(bytes.len(), 21);
            assert_eq!(&bytes[0..8], &[3, 0, 0, 0, 0, 0, 0, 0]);
            assert_eq!(&bytes[11..], &[2, 0, 0, 0, 0, 0, 0, 0, 4, 5]);
        }
        other => panic!("unexpected action {:?}", other),
    }
    assert!(b.is_spilled());
    match b.append_data(&[6]).unwrap() {
        FileAction::Append(bytes) => assert_eq!(bytes, vec![1, 0, 0, 0, 0, 0, 0, 0, 6]),
        other => panic!("unexpected action {:?}", other),
    }
}

#[test]
fn spill_transparent_reads() {
    let records: Vec<Vec<u8>> = (0u8..50).map(|i| vec![i; (i % 7) as usize]).collect();
    let mut mem = LocalOwnedBlock::new(UUID::new(0, 1), 1 << 20);
    let mut disk = LocalOwnedBlock::new(UUID::new(0, 2), 16);
    let mut mem_file = Vec::new();
    let mut disk_file = Vec::new();
    for r in &records {
        apply(&mut mem_file, mem.write(vec![r.clone()]).unwrap().1);
        apply(&mut disk_file, disk.write(vec![r.clone()]).unwrap().1);
    }
    assert!(!mem.is_spilled());
    assert!(mem_file.is_empty());
    assert!(disk.is_spilled());
    assert_eq!(disk_file.len() as u64, disk.size());
    let mut pos = 0u64;
    loop {
        let a = mem.read(pos, ReadLimitBy::Size(30), &mem_file);
        let b = disk.read(pos, ReadLimitBy::Size(30), &disk_file);
        assert_eq!(a, b);
        if a.0.is_empty() {
            break;
        }
        pos = a.1;
    }
    assert_eq!(disk.read(0, ReadLimitBy::Items(50), &disk_file).0, records);
}

#[test]
fn cursor_resume_matches_single_read() {
    let records: Vec<Vec<u8>> = (0u8..10).map(|i| vec![i, i]).collect();
    let mut b = LocalOwnedBlock::new(UUID::new(3, 3), 64);
    let mut file = Vec::new();
    apply(&mut file, b.write(records).unwrap().1);
    let (first, first_end) = b.read(10, ReadLimitBy::Items(3), &file);
    let (second, second_end) = b.read(first_end, ReadLimitBy::Size(25), &file);
    let (both, p) = b.read(10, ReadLimitBy::Items((first.len() + second.len()) as u64), &file);
    let mut joined = first.clone();
    joined.extend(second);
    assert_eq!(joined, both);
    assert_eq!(p, second_end);
    assert_eq!(first, vec![vec![1, 1], vec![2, 2], vec![3, 3]]);
    assert_eq!(first_end, 40);
    assert_eq!(second_end, 70);
}

#[test]
fn read_by_size_limit() {
    let mut b = LocalOwnedBlock::new(UUID::new(3, 4), 64);
    let empty = Vec::new();
    b.write(vec![vec![1; 2], vec![2; 2], vec![3; 2]]).unwrap();
    let (data, pos) = b.read(0, ReadLimitBy::Size(11), &empty);
    assert_eq!(data, vec![vec![1, 1], vec![2, 2]]);
    assert_eq!(pos, 20);
    let (data, pos) = b.read(0, ReadLimitBy::Size(10), &empty);
    assert_eq!(data, vec![vec![1, 1]]);
    assert_eq!(pos, 10);
    let (data, pos) = b.read(30, ReadLimitBy::Items(3), &empty);
    assert!(data.is_empty());
    assert_eq!(pos, 30);
    let (data, pos) = b.read(1000, ReadLimitBy::Items(3), &empty);
    assert!(data.is_empty());
    assert_eq!(pos, 1000);
}

#[test]
fn kv_last_write_wins() {
    let mut b = LocalOwnedBlock::new(UUID::new(5, 5), 20);
    let mut file = Vec::new();
    let k = UUID::new(7, 8);
    let other = UUID::new(8, 7);
    apply(&mut file, b.kv_set(&k, &[1, 2]).unwrap());
    apply(&mut file, b.kv_set(&other, &[9]).unwrap());
    apply(&mut file, b.kv_set(&k, &[3, 4, 5]).unwrap());
    assert!(b.is_spilled());
    assert_eq!(b.kv_get(&k, &file), Some(vec![3, 4, 5]));
    assert_eq!(b.kv_get(&other, &file), Some(vec![9]));
}

#[test]
fn kv_unset_clears_value() {
    let mut b = LocalOwnedBlock::new(UUID::new(5, 6), 64);
    let file = Vec::new();
    let k = UUID::new(1, 1);
    b.kv_set(&k, &[1]).unwrap();
    let size = b.size();
    assert_eq!(b.kv_unset(&k), Some(()));
    assert_eq!(b.kv_get(&k, &file), None);
    assert_eq!(b.kv_unset(&k), None);
    assert_eq!(b.size(), size);
}

#[test]
fn service_errors() {
    let mut server = BlockOwnerServer::with_buffer_cap("test_data".to_owned(), 64);
    let file = Vec::new();
    let task = UUID::new(1, 0);
    let id = UUID::new(2, 0);
    let key = UUID::new(3, 0);
    assert_eq!(server.write(&task, &id, vec![vec![1]]).map(|r| r.0), Err(BlockServiceError::NoTask));
    assert_eq!(server.contains_block(&task, &id), Err(BlockServiceError::NoTask));
    server.new_task(&task);
    assert_eq!(server.contains_block(&task, &id), Ok(false));
    assert_eq!(server.read(&task, &id, 0, ReadLimitBy::Items(1), &file), Err(BlockServiceError::NoBlock));
    assert_eq!(server.get(&task, &id, &key, &file), Err(BlockServiceError::NoBlock));
    assert_eq!(server.write(&task, &id, vec![vec![1], vec![2, 2]]).map(|r| r.0), Ok(vec![0, 9]));
    assert_eq!(server.contains_block(&task, &id), Ok(true));
    assert_eq!(server.get(&task, &id, &key, &file), Err(BlockServiceError::NoKey));
    server.set(&task, &id, &key, vec![4, 4, 4]).unwrap();
    assert_eq!(server.get(&task, &id, &key, &file), Ok(Some(vec![4, 4, 4])));
    assert_eq!(server.unset(&task, &id, &key), Ok(Some(())));
    assert_eq!(server.get(&task, &id, &key, &file), Err(BlockServiceError::NoKey));
    assert_eq!(server.remove(&task, &id), Ok(()));
    assert_eq!(server.remove(&task, &id), Err(BlockServiceError::NoBlock));
    server.remove_task(&task).unwrap();
    assert_eq!(server.read(&task, &id, 0, ReadLimitBy::Items(1), &file), Err(BlockServiceError::NoTask));
}

#[test]
fn read_data_ranges() {
    let mut b = LocalOwnedBlock::new(UUID::new(6, 6), 10);
    let mut file = Vec::new();
    apply(&mut file, b.append_data(&[9, 8]).unwrap());
    assert_eq!(b.read_data(0, 3, &file), Some(vec![2, 0, 0]));
    assert_eq!(b.read_data(8, 100, &file), Some(vec![9, 8]));
    assert_eq!(b.read_data(10, 1, &file), Some(vec![]));
    assert_eq!(b.read_data(11, 1, &file), None);
    apply(&mut file, b.append_data(&[7]).unwrap());
    assert!(b.is_spilled());
    assert_eq!(b.read_data(9, 10, &file), Some(vec![8, 1, 0, 0, 0, 0, 0, 0, 0, 7]));
}

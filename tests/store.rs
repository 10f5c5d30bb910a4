//! End-to-end runs of the write, read and recovery paths over segments held in
//! memory.
use bitcask::data::log_record::{decode_log_record, LogRecord, LogRecordPos, LogRecordType};
use bitcask::engine::{check_key, order_file_ids, read_value, WriteConfig, WriteState};
use bitcask::error::Errors;
use bitcask::index::skiplist::SkipList;
use bitcask::index::Index;
use bitcask::recovery::load_segment;

struct MemStore {
    segments: Vec<Vec<u8>>,
    state: WriteState,
    cfg: WriteConfig,
    index: SkipList,
}

impl MemStore {
    fn new(data_file_size: u64) -> Self {
        MemStore {
            segments: vec![Vec::new()],
            state: WriteState::new(1, 0),
            cfg: WriteConfig { data_file_size, sync_writes: false, bytes_per_sync: 0 },
            index: SkipList::new(),
        }
    }

    fn append(&mut self, rec: &LogRecord) -> LogRecordPos {
        let enc = rec.encode();
        let plan = self.state.plan_append(enc.len() as u64, &self.cfg);
        if plan.rotate {
            self.segments.push(Vec::new());
        }
        let seg = &mut self.segments[(plan.file_id - 1) as usize];
        assert_eq!(seg.len() as u64, plan.offset);
        seg.extend_from_slice(&enc);
        LogRecordPos { file_id: plan.file_id, offset: plan.offset, size: enc.len() as u32 }
    }

    fn put(&mut self, key: &[u8], value: &[u8]) -> Result<(), Errors> {
        check_key(key)?;
        let rec = LogRecord { key: key.to_vec(), value: value.to_vec(), rec_type: LogRecordType::NORMAL };
        let pos = self.append(&rec);
        self.index.put(key.to_vec(), pos);
        Ok(())
    }

    fn get(&self, key: &[u8]) -> Result<Vec<u8>, Errors> {
        check_key(key)?;
        let pos = self.index.get(key.to_vec()).ok_or(Errors::KeyNotFound)?;
        let seg = self.segments.get((pos.file_id - 1) as usize).ok_or(Errors::DataFileNotFound)?;
        let start = pos.offset as usize;
        let read = decode_log_record(&seg[start..start + pos.size as usize])?;
        read_value(read)
    }

    fn delete(&mut self, key: &[u8]) -> Result<(), Errors> {
        check_key(key)?;
        if self.index.get(key.to_vec()).is_none() {
            return Ok(());
        }
        let rec = LogRecord { key: key.to_vec(), value: Vec::new(), rec_type: LogRecordType::DELETED };
        self.append(&rec);
        self.index.delete(key.to_vec());
        Ok(())
    }

    /// Drops the index and rebuilds it from the segments, as an open does.
    fn reopen(&mut self) {
        let ids: Vec<u32> = (1..=self.segments.len() as u32).rev().collect();
        let ordered = order_file_ids(&ids).unwrap();
        let mut index = SkipList::new();
        let mut last_end = 0;
        for id in ordered.iter() {
            let seg = &self.segments[(*id - 1) as usize];
            last_end = load_segment(&mut index, *id, seg);
            assert_eq!(last_end, seg.len());
        }
        self.index = index;
        self.state = WriteState::new(*ordered.last().unwrap(), last_end as u64);
    }
}

#[test]
fn put_get_delete_round() {
    let mut store = MemStore::new(256 * 1024 * 1024);
    store.put(b"name", b"bitcask-rs").unwrap();
    assert_eq!(store.get(b"name"), Ok(b"bitcask-rs".to_vec()));
    store.delete(b"name").unwrap();
    assert_eq!(store.get(b"name"), Err(Errors::KeyNotFound));
    assert_eq!(store.put(b"", b"v"), Err(Errors::KeyIsEmpty));
    assert_eq!(store.get(b""), Err(Errors::KeyIsEmpty));
    store.reopen();
    assert_eq!(store.get(b"name"), Err(Errors::KeyNotFound));
}

#[test]
fn rotation_at_small_segment_size_survives_reopen() {
    let mut store = MemStore::new(64);
    store.put(b"key-a", b"value-aaaaaaaaaaaaaaaaaaaaaaaaaaa").unwrap();
    let used = store.segments[0].len();
    assert!(used < 64);
    store.put(b"key-b", b"value-bbbbbbbbbbbbbbbbbbbbbbbbbbb").unwrap();
    assert_eq!(store.segments.len(), 2);
    assert_eq!(store.state.active_file_id, 2);
    assert_eq!(store.index.get(b"key-b".to_vec()).unwrap().file_id, 2);
    store.reopen();
    assert_eq!(store.get(b"key-a"), Ok(b"value-aaaaaaaaaaaaaaaaaaaaaaaaaaa".to_vec()));
    assert_eq!(store.get(b"key-b"), Ok(b"value-bbbbbbbbbbbbbbbbbbbbbbbbbbb".to_vec()));
}

#[test]
fn ten_thousand_keys_survive_reopen() {
    let mut store = MemStore::new(64 * 1024);
    for i in 0..10000 {
        let key = format!("k-{:04}", i);
        let value = format!("v-{}", i);
        store.put(key.as_bytes(), value.as_bytes()).unwrap();
    }
    store.reopen();
    for i in 0..10000 {
        let key = format!("k-{:04}", i);
        assert_eq!(store.get(key.as_bytes()), Ok(format!("v-{}", i).into_bytes()));
    }
    assert_eq!(store.index.list_keys().ok().unwrap().len(), 10000);
}

#[test]
fn latest_record_wins_after_reopen() {
    let mut store = MemStore::new(128);
    store.put(b"a", b"1").unwrap();
    store.put(b"b", b"2").unwrap();
    store.put(b"a", b"3").unwrap();
    store.delete(b"b").unwrap();
    store.put(b"c", b"4").unwrap();
    store.reopen();
    assert_eq!(store.get(b"a"), Ok(b"3".to_vec()));
    assert_eq!(store.get(b"b"), Err(Errors::KeyNotFound));
    assert_eq!(store.get(b"c"), Ok(b"4".to_vec()));
}

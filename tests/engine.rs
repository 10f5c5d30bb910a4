use bitcask::data::log_record::{decode_log_record, LogRecord, LogRecordType};
use bitcask::engine::{check_key, order_file_ids, read_value, AppendPlan, WriteConfig, WriteState};
use bitcask::error::Errors;

fn config(data_file_size: u64, sync_writes: bool, bytes_per_sync: u64) -> WriteConfig {
    WriteConfig { data_file_size, sync_writes, bytes_per_sync }
}

#[test]
fn append_that_overflows_opens_segment_two() {
    let cfg = config(64, false, 0);
    let mut state = WriteState::new(1, 0);
    let first = state.plan_append(60, &cfg);
    assert_eq!(first, AppendPlan { rotate: false, file_id: 1, offset: 0, sync: false });
    assert_eq!(state.write_off, 60);
    let second = state.plan_append(21, &cfg);
    assert_eq!(second, AppendPlan { rotate: true, file_id: 2, offset: 0, sync: false });
    assert_eq!(state.active_file_id, 2);
    assert_eq!(state.write_off, 21);
    let third = state.plan_append(43, &cfg);
    assert_eq!(third, AppendPlan { rotate: false, file_id: 2, offset: 21, sync: false });
    assert_eq!(state.write_off, 64);
}

#[test]
fn sync_writes_syncs_every_append() {
    let cfg = config(1024, true, 0);
    let mut state = WriteState::new(3, 100);
    let plan = state.plan_append(10, &cfg);
    assert!(plan.sync);
    assert_eq!(plan.offset, 100);
    assert_eq!(state.unsynced, 0);
}

#[test]
fn bytes_per_sync_syncs_when_counter_crosses() {
    let cfg = config(1024, false, 25);
    let mut state = WriteState::new(1, 0);
    assert!(!state.plan_append(10, &cfg).sync);
    assert_eq!(state.unsynced, 10);
    assert!(!state.plan_append(10, &cfg).sync);
    assert!(state.plan_append(10, &cfg).sync);
    assert_eq!(state.unsynced, 0);
    assert!(!state.plan_append(10, &cfg).sync);
    assert_eq!(state.unsynced, 10);
}

#[test]
fn empty_key_is_rejected() {
    assert_eq!(check_key(b""), Err(Errors::KeyIsEmpty));
    assert_eq!(check_key(b"name"), Ok(()));
}

#[test]
fn read_value_of_value_and_tombstone() {
    let put = LogRecord {
        key: b"name".to_vec(),
        value: b"bitcask-rs".to_vec(),
        rec_type: LogRecordType::NORMAL,
    };
    let read = decode_log_record(&put.encode()).ok().unwrap();
    assert_eq!(read_value(read), Ok(b"bitcask-rs".to_vec()));

    let del = LogRecord { key: b"name".to_vec(), value: Vec::new(), rec_type: LogRecordType::DELETED };
    let read = decode_log_record(&del.encode()).ok().unwrap();
    assert_eq!(read_value(read), Err(Errors::KeyNotFound));
}

#[test]
fn file_ids_are_ordered_and_must_be_contiguous() {
    assert_eq!(order_file_ids(&vec![3, 1, 2]), Ok(vec![1, 2, 3]));
    assert_eq!(order_file_ids(&vec![]), Ok(vec![]));
    assert_eq!(order_file_ids(&vec![1, 3]), Err(Errors::DataDirectoryCorrupted));
    assert_eq!(order_file_ids(&vec![2, 2]), Err(Errors::DataDirectoryCorrupted));
    assert_eq!(order_file_ids(&vec![0]), Err(Errors::DataDirectoryCorrupted));
}

use dharmadb::dharma::Dharma;
use dharmadb::errors::Errors;
use dharmadb::options::DharmaOpts;
use dharmadb::storage::block::TableValue;
use dharmadb::storage::write_ahead_log::WriteAheadLog;

fn test_value(text: &str) -> TableValue {
    TableValue::Data(text.as_bytes().to_vec())
}

fn get_test_data(count: u64) -> Vec<(u64, TableValue)> {
    get_test_data_in_range(0, count)
}

fn get_test_data_in_range(start: u64, end: u64) -> Vec<(u64, TableValue)> {
    let mut vector = Vec::new();
    for i in start..end {
        vector.push((i, test_value(format!("value is {}", i).as_str())));
    }
    vector
}

#[test]
fn test_creation() {
    let db: Result<Dharma, Errors> = Dharma::create(DharmaOpts::default(), Vec::new(), false);
    assert_eq!(db.is_ok(), true);
}

#[test]
fn test_insert() {
    let mut db =
        Dharma::create(DharmaOpts::default(), Vec::new(), false).expect("Error creating database");
    let insert = db.put(1, test_value("1"));
    assert!(insert.is_ok());
}

#[test]
fn test_get() {
    let mut db =
        Dharma::create(DharmaOpts::default(), Vec::new(), false).expect("Error creating database");
    db.put(1, test_value("1")).expect("Failed to insert entry");
    let get = db.get(&1).expect("Failed to read value from database");
    assert_eq!(get.unwrap(), test_value("1"));
    // a key that was never stored reads as absent
    let non_existent = db.get(&3);
    assert!(non_existent.is_ok());
    assert_eq!(non_existent.unwrap(), None);
}

#[test]
fn test_create_database() {
    let options = DharmaOpts::default();
    let db: Result<Dharma, Errors> = Dharma::create(options, Vec::new(), false);
    assert!(db.is_ok());
}

#[test]
fn test_insert_and_get() {
    let options = DharmaOpts::default();
    let mut db: Dharma = Dharma::create(options, Vec::new(), false).unwrap();
    let insert_result = db.put(1, test_value("first value"));

    assert!(insert_result.is_ok());
    let query_result = db.get(&1);
    assert!(query_result.is_ok());
    let maybe_result = query_result.unwrap();
    assert_eq!(maybe_result, Some(test_value("first value")));
}

#[test]
fn test_delete() {
    let options = DharmaOpts::default();
    let mut db: Dharma = Dharma::create(options, Vec::new(), false).unwrap();
    let key = 1u64;
    let insert_result = db.put(key, test_value("first value"));
    assert!(insert_result.is_ok());
    // delete the value associated with the key
    let delete_result = db.delete(key);
    assert!(delete_result.is_ok());

    // the value is not retrievable after the delete
    let get_result = db.get(&key);
    assert!(get_result.is_ok());
    assert_eq!(get_result, Ok(None));
}

#[test]
fn test_database_flush() {
    let options = DharmaOpts::default();
    let data = get_test_data(50);
    let mut db: Dharma = Dharma::create(options, Vec::new(), false).unwrap();
    for (key, value) in data {
        db.put(key, value).unwrap();
    }
    let flush_result = db.flush();
    assert!(flush_result.is_ok());
}

#[test]
fn test_database_operations_after_flush() {
    let options = DharmaOpts::default();
    let data = get_test_data(200);
    let expected_data = data.clone();
    let mut db: Dharma = Dharma::create(options, Vec::new(), false).unwrap();
    for (key, value) in data {
        db.put(key, value).unwrap();
    }
    // flush the database to ensure no data remains in memory
    let flush_result = db.flush();
    assert!(flush_result.is_ok());
    assert_eq!(db.in_memory_size(), 0);
    // test reading the values back
    for (key, value) in expected_data {
        let get_result = db.get(&key);
        assert!(get_result.is_ok());
        let maybe_get_value = get_result.unwrap();
        assert!(maybe_get_value.is_some());
        assert_eq!(maybe_get_value.unwrap(), value);
    }
}

#[test]
fn test_database_delete_after_flush() {
    // a memtable threshold large enough that the puts and deletes stay in
    // memory until the explicit flush
    let mut options = DharmaOpts::default();
    options.memtable_size_in_bytes = 1048576;
    let data = get_test_data(10);
    let mut db: Dharma = Dharma::create(options, Vec::new(), false).unwrap();
    for (key, value) in data {
        db.put(key, value).unwrap();
    }
    // delete the keys in the range 0..5
    for i in 0..5u64 {
        assert!(db.delete(i).is_ok());
    }
    db.flush().unwrap();
    // data in the deleted range reads as absent
    for i in 0..5u64 {
        let get_result = db.get(&i);
        assert!(get_result.is_ok());
        let maybe_value = get_result.unwrap();
        assert!(maybe_value.is_none());
    }
    // data in the non-deleted range is present
    for (key, value) in get_test_data_in_range(5, 10) {
        let get_result = db.get(&key);
        assert!(get_result.is_ok());
        let maybe_value = get_result.unwrap();
        assert!(maybe_value.is_some());
        assert_eq!(maybe_value.unwrap(), value);
    }
}

#[test]
fn test_database_reads_data_from_existing_sstable() {
    let options = DharmaOpts::default();
    let test_data_1 = get_test_data(200);
    let test_data_2 = get_test_data(200);
    let mut db = Dharma::create(options, Vec::new(), false).unwrap();
    for (key, value) in test_data_1 {
        db.put(key, value).unwrap();
    }
    let flush_result = db.flush();
    assert!(flush_result.is_ok());
    // carry the table images over to a new instance, as a re-opened engine
    // would read them back from its data directory
    let tables = db.sstable_images().clone();
    std::mem::drop(db);
    let mut new_db: Dharma =
        Dharma::create(DharmaOpts::default(), tables, false).unwrap();
    for (key, expected_value) in test_data_2 {
        let retrieved_value = new_db.get(&key);
        assert!(retrieved_value.is_ok());
        assert_eq!(retrieved_value.unwrap().unwrap(), expected_value);
    }
}

#[test]
fn test_put_flush_reopen_yields_single_sstable() {
    // insert 200 entries, flush once, re-open over the written tables:
    // exactly one SSTable exists and every key reads back
    let mut options = DharmaOpts::default();
    options.memtable_size_in_bytes = 1048576;
    let data = get_test_data(200);
    let mut db: Dharma = Dharma::create(options, Vec::new(), false).unwrap();
    for (key, value) in data {
        db.put(key, value).unwrap();
    }
    db.flush().unwrap();
    assert_eq!(db.sstable_images().len(), 1);
    let tables = db.sstable_images().clone();
    std::mem::drop(db);
    let mut reopened: Dharma =
        Dharma::create(DharmaOpts::default(), tables, false).unwrap();
    for (key, value) in get_test_data(200) {
        assert_eq!(reopened.get(&key), Ok(Some(value)));
    }
}

#[test]
fn test_database_initialization_fails_when_wal_exists_at_path() {
    let options = DharmaOpts::default();
    let data = get_test_data(200);
    let mut wal = WriteAheadLog::create(options).unwrap();
    for (key, value) in data {
        wal.append(key, value).unwrap();
    }
    // initializing the database must fail because a log exists
    let db_result: Result<Dharma, Errors> =
        Dharma::create(DharmaOpts::default(), Vec::new(), true);
    assert!(db_result.is_err());
}

#[test]
fn test_database_recovery_from_existing_wal() {
    let options = DharmaOpts::default();
    let data = get_test_data(200);
    let expected_data = get_test_data(200);
    let mut wal = WriteAheadLog::create(options).unwrap();
    for (key, value) in data {
        wal.append(key, value).unwrap();
    }
    // initializing the database fails because the log exists
    let db_result: Result<Dharma, Errors> =
        Dharma::create(DharmaOpts::default(), Vec::new(), true);
    assert!(db_result.is_err());
    // attempt database recovery from the log's bytes
    let wal_bytes = wal.bytes().clone();
    let new_db_result = Dharma::recover(DharmaOpts::default(), Vec::new(), &wal_bytes);
    assert!(new_db_result.is_ok());
    let mut new_db = new_db_result.unwrap();
    for (key, expected_value) in expected_data {
        let value_result = new_db.get(&key);
        assert!(value_result.is_ok());
        let maybe_value = value_result.unwrap();
        assert!(maybe_value.is_some());
        assert_eq!(maybe_value.unwrap(), expected_value);
    }
}

#[test]
fn test_wal_recovery_keeps_last_write() {
    // replay ordering equals append ordering: the last value for a key wins
    let options = DharmaOpts::default();
    let mut wal = WriteAheadLog::create(options).unwrap();
    wal.append(1, test_value("old")).unwrap();
    wal.append(1, test_value("new")).unwrap();
    let recovered =
        WriteAheadLog::recover(&DharmaOpts::default(), wal.bytes()).unwrap();
    assert_eq!(recovered.len(), 2);
    assert_eq!(recovered[0].1, test_value("old"));
    assert_eq!(recovered[1].1, test_value("new"));
    let mut db = Dharma::recover(DharmaOpts::default(), Vec::new(), wal.bytes()).unwrap();
    assert_eq!(db.get(&1), Ok(Some(test_value("new"))));
}

#[test]
fn test_wal_recovery_discards_partial_trailing_block() {
    let options = DharmaOpts::default();
    let mut wal = WriteAheadLog::create(options).unwrap();
    wal.append(1, test_value("kept")).unwrap();
    wal.append(2, test_value("torn")).unwrap();
    // simulate a crash in the middle of the second append
    let mut bytes = wal.bytes().clone();
    bytes.truncate(bytes.len() - 1);
    let recovered = WriteAheadLog::recover(&DharmaOpts::default(), &bytes).unwrap();
    assert_eq!(recovered.len(), 1);
    assert_eq!(recovered[0].0, 1);
}

#[test]
fn test_wal_bootstrap_fails_on_undecodable_payload() {
    // a well-framed block whose payload is not a valid entry encoding
    let mut options = DharmaOpts::default();
    options.block_size_in_bytes = 16;
    let mut bytes = vec![1u8, 0, 9];
    bytes.extend_from_slice(&[0u8; 8]);
    bytes.push(9u8);
    while bytes.len() < 16 {
        bytes.push(0u8);
    }
    let result = WriteAheadLog::recover(&options, &bytes);
    assert_eq!(result, Err(Errors::WAL_BOOTSTRAP_FAILED));
}

#[test]
fn test_error_descriptions_exist() {
    assert_eq!(
        Errors::DB_PATH_DIRTY.value(),
        "The supplied database path is already in use."
    );
    assert_eq!(Errors::WAL_WRITE_FAILED.value(), "Write Ahead Log write failed.");
}

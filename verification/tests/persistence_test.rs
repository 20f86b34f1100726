use dharmadb::errors::Errors;
use dharmadb::options::DharmaOpts;
use dharmadb::persistence::Persistence;
use dharmadb::storage::block::TableValue;
use dharmadb::traits::Nil;

fn test_value(text: &str) -> TableValue {
    TableValue::Data(text.as_bytes().to_vec())
}

fn get_test_data(count: u64) -> Vec<(u64, TableValue)> {
    get_test_data_in_range(0, count)
}

fn get_test_data_in_range(start: u64, end: u64) -> Vec<(u64, TableValue)> {
    let mut vector = Vec::new();
    for i in start..end {
        vector.push((i, test_value(format!("value is {}", i).as_str())));
    }
    vector
}

#[test]
fn test_create_persistence() {
    let options = DharmaOpts::default();
    let persistence_result: Result<Persistence, Errors> =
        Persistence::create(options, Vec::new(), false);
    assert!(persistence_result.is_ok());
}

#[test]
fn test_insert_works() {
    let options = DharmaOpts::default();
    let persistence_result: Result<Persistence, Errors> =
        Persistence::create(options, Vec::new(), false);
    let mut persistence = persistence_result.unwrap();
    let key = 1u64;
    let value = test_value("Test Value");
    let insert_result = persistence.insert(key, value);
    assert!(insert_result.is_ok());
}

#[test]
fn test_flush_to_disk_works() {
    let options = DharmaOpts::default();
    let data = get_test_data(200);
    let persistence_result: Result<Persistence, Errors> =
        Persistence::create(options, Vec::new(), false);
    let mut persistence = persistence_result.unwrap();
    let flush_result = persistence.flush(&data);
    assert!(flush_result.is_ok());
}

#[test]
fn test_persistence_get_after_flush() {
    let data = get_test_data(500);
    let options = DharmaOpts::default();
    let persistence_result: Result<Persistence, Errors> =
        Persistence::create(options, Vec::new(), false);
    let mut persistence = persistence_result.unwrap();
    let flush_result = persistence.flush(&data);
    assert!(flush_result.is_ok());

    for (key, value) in data {
        let get_result = persistence.get(&key);
        assert!(get_result.is_ok());
        let get_value = get_result.unwrap();
        assert!(get_value.is_some());
        assert_eq!(get_value.unwrap(), value);
    }
}

#[test]
fn test_persistence_get_after_flush_with_duplicate_keys() {
    let mut data = Vec::new();
    for i in 0..50u64 {
        data.push((i, test_value("old value")));
        data.push((i, test_value("new value")));
    }
    let options = DharmaOpts::default();
    let persistence_result: Result<Persistence, Errors> =
        Persistence::create(options, Vec::new(), false);
    let mut persistence = persistence_result.unwrap();
    let flush_result = persistence.flush(&data);
    assert!(flush_result.is_ok());

    for i in 0..50u64 {
        let get_result = persistence.get(&i);
        assert!(get_result.is_ok());
        let maybe_value = get_result.unwrap();
        assert!(maybe_value.is_some());
        assert_eq!(maybe_value.unwrap(), test_value("new value"));
    }
}

#[test]
fn test_persistence_delete_after_flush() {
    let data = get_test_data(200);
    let options = DharmaOpts::default();
    let persistence_result: Result<Persistence, Errors> =
        Persistence::create(options, Vec::new(), false);
    let mut persistence = persistence_result.unwrap();
    let flush_result = persistence.flush(&data);
    assert!(flush_result.is_ok());

    // flush delete markers for the first half of the data
    let mut delete_data = Vec::new();
    for i in 0..100u64 {
        delete_data.push((i, TableValue::nil()));
    }
    let delete_flush_result = persistence.flush(&delete_data);
    assert!(delete_flush_result.is_ok());

    // data in the deleted range is absent
    for i in 0..100u64 {
        let get_result = persistence.get(&i);
        assert!(get_result.is_ok());
        let maybe_value = get_result.unwrap();
        assert!(maybe_value.is_none());
    }
    // data in the non-deleted range is present
    for (key, value) in get_test_data_in_range(100, 200) {
        let get_result = persistence.get(&key);
        assert!(get_result.is_ok());
        let maybe_value = get_result.unwrap();
        assert!(maybe_value.is_some());
        assert_eq!(maybe_value.unwrap(), value);
    }
}

#[test]
fn test_flush_respects_compaction_threshold() {
    let options = DharmaOpts::default();
    let data_1 = get_test_data_in_range(0, 100);
    let data_2 = get_test_data_in_range(80, 300);
    let data_3 = get_test_data_in_range(280, 400);

    let persistence_result: Result<Persistence, Errors> =
        Persistence::create(options, Vec::new(), false);
    let mut persistence = persistence_result.unwrap();

    assert!(persistence.flush(&data_1).is_ok());
    assert!(persistence.flush(&data_2).is_ok());
    assert!(persistence.flush(&data_3).is_ok());

    assert_eq!(persistence.sstable_images().len(), 3);
}

#[test]
fn test_tables_are_compacted_after_threshold_is_met() {
    let options = DharmaOpts::default();
    let data_1 = get_test_data_in_range(0, 100);
    let data_2 = get_test_data_in_range(80, 300);
    let data_3 = get_test_data_in_range(280, 400);
    let data_4 = get_test_data_in_range(400, 500);
    let persistence_result: Result<Persistence, Errors> =
        Persistence::create(options, Vec::new(), false);
    let mut persistence = persistence_result.unwrap();

    assert!(persistence.flush(&data_1).is_ok());
    assert!(persistence.flush(&data_2).is_ok());
    assert!(persistence.flush(&data_3).is_ok());
    assert!(persistence.flush(&data_4).is_ok());

    assert_eq!(persistence.sstable_images().len(), 1);
}

#[test]
fn test_duplicate_keys_across_flushes() {
    // two flushes with the same keys: the later flush wins
    let options = DharmaOpts::default();
    let mut persistence = Persistence::create(options, Vec::new(), false).unwrap();
    let mut old_data = Vec::new();
    let mut new_data = Vec::new();
    for i in 0..50u64 {
        old_data.push((i, test_value("old")));
        new_data.push((i, test_value("new")));
    }
    assert!(persistence.flush(&old_data).is_ok());
    assert!(persistence.flush(&new_data).is_ok());
    for i in 0..50u64 {
        let got = persistence.get(&i).unwrap();
        assert_eq!(got, Some(test_value("new")));
    }
}

#[test]
fn test_compaction_collapses_four_tables_to_one() {
    // four flushes of non-overlapping ranges trigger compaction into a
    // single table holding every entry in ascending key order
    let options = DharmaOpts::default();
    let block_size = options.block_size_in_bytes;
    let mut persistence = Persistence::create(options, Vec::new(), false).unwrap();
    assert!(persistence.flush(&get_test_data_in_range(0, 100)).is_ok());
    assert!(persistence.flush(&get_test_data_in_range(100, 200)).is_ok());
    assert!(persistence.flush(&get_test_data_in_range(200, 300)).is_ok());
    assert!(persistence.flush(&get_test_data_in_range(300, 400)).is_ok());
    assert_eq!(persistence.sstable_images().len(), 1);
    let image = persistence.sstable_images()[0].clone();
    let mut reader =
        dharmadb::storage::sorted_string_table_reader::SSTableReader::from(image, block_size)
            .unwrap();
    let mut keys = Vec::new();
    while reader.has_next() {
        let value = reader.read();
        let record = value.to_record().unwrap();
        keys.push(record.key);
        reader.next();
    }
    assert_eq!(keys.len(), 400);
    for i in 0..400u64 {
        assert_eq!(keys[i as usize], i);
    }
}

#[test]
fn test_empty_flush_is_a_no_op() {
    let options = DharmaOpts::default();
    let mut persistence = Persistence::create(options, Vec::new(), false).unwrap();
    let empty: Vec<(u64, TableValue)> = Vec::new();
    let result = persistence.flush(&empty);
    assert!(result.is_ok());
    assert_eq!(persistence.sstable_images().len(), 0);
}

#[test]
fn test_create_fails_when_wal_exists() {
    let options = DharmaOpts::default();
    let result = Persistence::create(options, Vec::new(), true);
    assert!(result.is_err());
    assert_eq!(result.err().unwrap(), Errors::DB_PATH_DIRTY);
}

use dharmadb::options::DharmaOpts;
use dharmadb::storage::block::TableValue;
use dharmadb::storage::compaction::{BasicCompaction, BasicCompactionOpts};
use dharmadb::storage::sorted_string_table_reader::SSTableReader;
use dharmadb::storage::sorted_string_table_writer::write_sstable;
use dharmadb::traits::Nil;

fn test_value(text: &str) -> TableValue {
    TableValue::Data(text.as_bytes().to_vec())
}

fn get_test_data(count: u64) -> Vec<(u64, TableValue)> {
    get_test_data_in_range(0, count)
}

fn get_test_data_in_range(start: u64, end: u64) -> Vec<(u64, TableValue)> {
    let mut vector = Vec::new();
    for i in start..end {
        vector.push((i, test_value(format!("value is {}", i).as_str())));
    }
    vector
}

fn read_all(image: Vec<u8>, block_size: usize) -> Vec<(u64, TableValue)> {
    let mut reader = SSTableReader::from(image, block_size).unwrap();
    let mut output = Vec::new();
    while reader.has_next() {
        let value = reader.read();
        let record = value.to_record().unwrap();
        output.push((record.key, record.value));
        reader.next();
    }
    output
}

#[test]
fn test_default_compaction_options() {
    let dharma_opts = DharmaOpts::default();
    let compaction_opts = BasicCompactionOpts::from(dharma_opts.duplicate());
    assert_eq!(compaction_opts.input_path, dharma_opts.path);
    assert_eq!(
        compaction_opts.output_path,
        format!("{}/compaction/compaction.db", dharma_opts.path)
    );
    assert_eq!(compaction_opts.block_size, dharma_opts.block_size_in_bytes);
    assert_eq!(compaction_opts.threshold, 4);
}

#[test]
fn test_basic_compaction_with_tables_of_same_size() {
    let options = DharmaOpts::default();
    let mut data_1 = get_test_data(500);
    let mut data_2 = get_test_data(500);
    let image_1 = write_sstable(&options, &data_1, 0);
    let image_2 = write_sstable(&options, &data_2, 1);
    assert!(image_1.is_ok());
    assert!(image_2.is_ok());

    let mut compaction_opts = BasicCompactionOpts::from(options.duplicate());
    // override the compaction threshold to 2
    compaction_opts.threshold = 2;
    let compaction = BasicCompaction::new(compaction_opts);

    let tables = vec![image_1.unwrap(), image_2.unwrap()];
    let compaction_result = compaction.compact(&tables);
    assert!(compaction_result.is_ok());
    let maybe_compacted = compaction_result.unwrap();
    assert!(maybe_compacted.is_some());
    let compacted = maybe_compacted.unwrap();
    // the merged data is sorted
    let output = read_all(compacted, options.block_size_in_bytes);
    assert_eq!(output.len(), 500);
    data_1.append(&mut data_2);
    data_1.sort_by_key(|val| val.0);
    data_1.dedup();
    assert_eq!(data_1, output);
}

#[test]
fn test_basic_compaction_with_tables_of_different_size() {
    let mut data_1 = get_test_data(200);
    let mut data_2 = get_test_data_in_range(200, 700);
    let options = DharmaOpts::default();
    let image_1 = write_sstable(&options, &data_1, 0);
    let image_2 = write_sstable(&options, &data_2, 1);
    assert!(image_1.is_ok());
    assert!(image_2.is_ok());

    let mut compaction_opts = BasicCompactionOpts::from(options.duplicate());
    compaction_opts.threshold = 2;
    let compaction = BasicCompaction::new(compaction_opts);
    let tables = vec![image_1.unwrap(), image_2.unwrap()];
    let compaction_result = compaction.compact(&tables);
    assert!(compaction_result.is_ok());
    let maybe_compacted = compaction_result.unwrap();
    assert!(maybe_compacted.is_some());
    let compacted = maybe_compacted.unwrap();
    let output = read_all(compacted, options.block_size_in_bytes);
    assert_eq!(output.len(), 700);
    data_1.append(&mut data_2);
    data_1.sort_by_key(|val| val.0);
    data_1.dedup();
    assert_eq!(data_1, output);
}

#[test]
fn test_basic_compaction_with_intersecting_values() {
    let mut data_1 = get_test_data_in_range(0, 200);
    let mut data_2 = get_test_data_in_range(80, 220);
    let options = DharmaOpts::default();
    let image_1 = write_sstable(&options, &data_1, 0);
    let image_2 = write_sstable(&options, &data_2, 1);
    assert!(image_1.is_ok());
    assert!(image_2.is_ok());

    let mut compaction_opts = BasicCompactionOpts::from(options.duplicate());
    compaction_opts.threshold = 2;
    let compaction = BasicCompaction::new(compaction_opts);
    let tables = vec![image_1.unwrap(), image_2.unwrap()];
    let compaction_result = compaction.compact(&tables);
    assert!(compaction_result.is_ok());
    let maybe_compacted = compaction_result.unwrap();
    assert!(maybe_compacted.is_some());
    let compacted = maybe_compacted.unwrap();
    let output = read_all(compacted, options.block_size_in_bytes);
    assert_eq!(output.len(), 220);
    data_1.append(&mut data_2);
    data_1.sort_by_key(|val| val.0);
    data_1.dedup();
    assert_eq!(data_1, output);
}

#[test]
fn test_basic_compaction_ignores_delete_markers() {
    let data_1 = get_test_data_in_range(0, 200);
    let mut data_2 = Vec::new();
    // create delete markers for values in the range 0..50
    for i in 0..50u64 {
        data_2.push((i, TableValue::nil()));
    }
    let options = DharmaOpts::default();
    let image_1 = write_sstable(&options, &data_1, 0);
    let image_2 = write_sstable(&options, &data_2, 1);
    assert!(image_1.is_ok());
    assert!(image_2.is_ok());

    let mut compaction_opts = BasicCompactionOpts::from(options.duplicate());
    compaction_opts.threshold = 2;
    let compaction = BasicCompaction::new(compaction_opts);
    let tables = vec![image_1.unwrap(), image_2.unwrap()];
    let compaction_result = compaction.compact(&tables);
    assert!(compaction_result.is_ok());
    let maybe_compacted = compaction_result.unwrap();
    assert!(maybe_compacted.is_some());
    let compacted = maybe_compacted.unwrap();
    let output = read_all(compacted, options.block_size_in_bytes);
    assert_eq!(output.len(), 150);
    // contains the values from 50..200
    let mut i = 50u64;
    for (key, _) in output {
        assert_eq!(key, i);
        i += 1;
    }
}

#[test]
fn test_compaction_below_threshold_is_a_no_op() {
    let options = DharmaOpts::default();
    let data = get_test_data(10);
    let image = write_sstable(&options, &data, 0).unwrap();
    let compaction = BasicCompaction::new(BasicCompactionOpts::from(options));
    let result = compaction.compact(&vec![image]);
    assert!(result.is_ok());
    assert!(result.unwrap().is_none());
}

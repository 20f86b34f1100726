use dharmadb::options::DharmaOpts;
use dharmadb::storage::block::TableValue;
use dharmadb::storage::sorted_string_table_reader::SSTableReader;
use dharmadb::storage::sorted_string_table_writer::{read_sstable, write_sstable};

fn test_value(text: &str) -> TableValue {
    TableValue::Data(text.as_bytes().to_vec())
}

fn get_test_data(count: u64) -> Vec<(u64, TableValue)> {
    let mut vector = Vec::new();
    for i in 0..count {
        vector.push((i, test_value(format!("value is {}", i).as_str())));
    }
    vector
}

#[test]
fn test_sstables_io() {
    let values = get_test_data(700);
    let options = DharmaOpts::default();
    let write_result = write_sstable(&options, &values, 0);
    assert!(write_result.is_ok());
    // read the SSTable back
    let written_image = write_result.unwrap();
    let reader_result = SSTableReader::from(written_image, options.block_size_in_bytes);
    assert!(reader_result.is_ok());
    let mut reader = reader_result.unwrap();
    let mut result: Vec<(u64, TableValue)> = Vec::new();
    let mut count = 0;
    while reader.has_next() {
        let value = reader.read();
        let record = value.to_record().unwrap();
        result.push((record.key, record.value));
        count += 1;
        reader.next();
    }
    assert_eq!(count, values.len());
    assert_eq!(values, result);
}

#[test]
fn test_sstable_size_is_multiple_of_block_size() {
    let values = get_test_data(800);
    let options = DharmaOpts::default();
    let write_result = write_sstable(&options, &values, 0);
    assert!(write_result.is_ok());
    let image = write_result.unwrap();
    let file_size_in_bytes = image.len() as u64;
    assert_eq!(file_size_in_bytes % options.block_size_in_bytes as u64, 0);
}

#[test]
fn test_sstable() {
    let mut data = Vec::new();
    for i in 0..30u64 {
        data.push((i, test_value("data in record")));
    }
    let mut options = DharmaOpts::default();
    options.block_size_in_bytes = 16;
    // test writing data
    let write_result = write_sstable(&options, &data, 0);
    println!("{:?}", write_result.is_ok());
    assert!(write_result.is_ok());
    // read data back from the image
    let image = write_result.unwrap();
    let read_result = read_sstable(&options, &image);
    assert!(read_result.is_ok());
    let values = read_result.unwrap();
    assert_eq!(values.len(), data.len());
}

#[test]
fn test_entry_exactly_filling_block() {
    // an entry of exactly block_size - 3 payload bytes: one complete record
    // that fills the block, followed by a fresh block for the next entry
    let mut options = DharmaOpts::default();
    options.block_size_in_bytes = 32;
    // payload = 9 (key and tag) + 20 (data) = 29; 3 + 29 == 32
    let data = vec![
        (1u64, TableValue::Data(vec![7u8; 20])),
        (2u64, TableValue::Data(vec![8u8; 20])),
    ];
    let image = write_sstable(&options, &data, 0).unwrap();
    assert_eq!(image.len(), 64);
    // the first block is exactly the complete record: kind 1, length 29
    assert_eq!(image[0], 1);
    assert_eq!(image[1], 0);
    assert_eq!(image[2], 29);
    // the second entry starts a new block
    assert_eq!(image[32], 1);
    let back = read_sstable(&options, &image).unwrap();
    assert_eq!(back.len(), 2);
    assert_eq!(back[0].key, 1);
    assert_eq!(back[1].key, 2);
}

#[test]
fn test_entry_one_byte_too_large_spans_two_blocks() {
    let mut options = DharmaOpts::default();
    options.block_size_in_bytes = 32;
    // payload = 9 + 21 = 30; 3 + 30 == 33 == block_size + 1: START then END
    let data = vec![(1u64, TableValue::Data(vec![7u8; 21]))];
    let image = write_sstable(&options, &data, 0).unwrap();
    assert_eq!(image.len(), 64);
    // first record: START filling the first block with 29 payload bytes
    assert_eq!(image[0], 2);
    assert_eq!(image[1], 0);
    assert_eq!(image[2], 29);
    // second block: END with the one remaining payload byte
    assert_eq!(image[32], 4);
    assert_eq!(image[33], 0);
    assert_eq!(image[34], 1);
    let back = read_sstable(&options, &image).unwrap();
    assert_eq!(back.len(), 1);
    assert_eq!(back[0].value, TableValue::Data(vec![7u8; 21]));
}

#[test]
fn test_entry_spanning_three_blocks() {
    let mut options = DharmaOpts::default();
    options.block_size_in_bytes = 32;
    // payload = 9 + 60 = 69 > 2 * (32 - 3): START + MIDDLE + END
    let data = vec![(1u64, TableValue::Data(vec![9u8; 60]))];
    let image = write_sstable(&options, &data, 0).unwrap();
    assert_eq!(image.len(), 96);
    assert_eq!(image[0], 2);
    assert_eq!(image[32], 3);
    assert_eq!(image[64], 4);
    let back = read_sstable(&options, &image).unwrap();
    assert_eq!(back.len(), 1);
    assert_eq!(back[0].value, TableValue::Data(vec![9u8; 60]));
}

#[test]
fn test_block_with_three_bytes_remaining_gets_padding_header() {
    let mut options = DharmaOpts::default();
    options.block_size_in_bytes = 32;
    // first entry payload = 9 + 17 = 26; 3 + 26 == 29 leaves 3 bytes: the
    // bare padding header [0, 0, 2]
    let data = vec![
        (1u64, TableValue::Data(vec![7u8; 17])),
        (2u64, TableValue::Data(vec![8u8; 17])),
    ];
    let image = write_sstable(&options, &data, 0).unwrap();
    assert_eq!(image.len(), 64);
    assert_eq!(image[29], 0);
    assert_eq!(image[30], 0);
    assert_eq!(image[31], 2);
    // the second entry re-attempted in a fresh block
    assert_eq!(image[32], 1);
    let back = read_sstable(&options, &image).unwrap();
    assert_eq!(back.len(), 2);
}

#[test]
fn test_block_with_two_bytes_remaining_gets_zero_fill() {
    let mut options = DharmaOpts::default();
    options.block_size_in_bytes = 32;
    // first entry payload = 9 + 18 = 27; 3 + 27 == 30 leaves 2 bytes: raw
    // zero fill, no header
    let data = vec![
        (1u64, TableValue::Data(vec![7u8; 18])),
        (2u64, TableValue::Data(vec![8u8; 18])),
    ];
    let image = write_sstable(&options, &data, 0).unwrap();
    assert_eq!(image.len(), 64);
    assert_eq!(image[30], 0);
    assert_eq!(image[31], 0);
    assert_eq!(image[32], 1);
    let back = read_sstable(&options, &image).unwrap();
    assert_eq!(back.len(), 2);
}

#[test]
fn test_codec_exact_bytes() {
    // one tombstone entry: the payload is the key in little-endian bytes and
    // the tombstone tag
    let mut options = DharmaOpts::default();
    options.block_size_in_bytes = 16;
    let data = vec![(0x0102030405060708u64, TableValue::Tombstone)];
    let image = write_sstable(&options, &data, 0).unwrap();
    assert_eq!(image.len(), 16);
    // complete record, length 9
    assert_eq!(&image[0..3], &[1u8, 0, 9]);
    // key bytes, little-endian
    assert_eq!(&image[3..11], &[8u8, 7, 6, 5, 4, 3, 2, 1]);
    // tombstone tag
    assert_eq!(image[11], 0);
    // padding record covering the last 4 bytes: length 1, one zero byte
    assert_eq!(&image[12..16], &[0u8, 0, 1, 0]);
}

#[test]
fn test_invalid_seek_offset() {
    let options = DharmaOpts::default();
    let data = get_test_data(5);
    let image = write_sstable(&options, &data, 0).unwrap();
    let size = image.len();
    let mut reader = SSTableReader::from(image, options.block_size_in_bytes).unwrap();
    let bad = reader.seek_closest(size);
    assert_eq!(bad, Err(dharmadb::errors::Errors::SSTABLE_INVALID_READ_OFFSET));
    let good = reader.seek_closest(0);
    assert!(good.is_ok());
}

#[test]
fn test_undecodable_payload_is_reported() {
    // hand-build one block: a complete record whose payload is not a valid
    // entry encoding (bad tag byte)
    let mut options = DharmaOpts::default();
    options.block_size_in_bytes = 16;
    let mut image = vec![1u8, 0, 9];
    image.extend_from_slice(&[0u8; 8]);
    image.push(7u8);
    while image.len() < 16 {
        image.push(0u8);
    }
    let result = read_sstable(&options, &image);
    assert_eq!(result, Err(dharmadb::errors::Errors::RECORD_DESERIALIZATION_FAILED));
}

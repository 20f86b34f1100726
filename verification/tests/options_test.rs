use dharmadb::options::DharmaOpts;

#[test]
fn options_test_default_options() {
    let options = DharmaOpts::default();
    assert!(options.bootstrap);
    assert_eq!(options.path, String::from("/var/lib/dharma"));
    assert_eq!(options.memtable_size_in_bytes, 4);
    assert_eq!(options.block_size_in_bytes, 32768);
    assert_eq!(options.sparse_index_sampling_rate, 100);
}

#[test]
fn dharma_opts_test_default_options() {
    let options = dharmadb::dharma::dharma_opts::DharmaOpts::default();
    assert!(options.bootstrap);
    assert_eq!(options.path, String::from("/var/lib/dharma"));
}

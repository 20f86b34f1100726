use vstd::prelude::*;

verus! {

/// Configuration properties used to initialize a database instance.
#[derive(Clone, Debug)]
pub struct DharmaOpts {
    /// Flag specifying whether to bootstrap the database from an existing
    /// store if data has already been persisted at that path.
    pub bootstrap: bool,
    /// Path at which data is persisted.
    pub path: String,
    /// Threshold for memtable size. If the in-memory size exceeds this then
    /// the memtable is flushed to disk.
    pub memtable_size_in_bytes: usize,
    /// Block size in bytes.
    pub block_size_in_bytes: usize,
    /// Number of blocks in an SSTable. Advisory only in this revision.
    pub blocks_per_sstable: usize,
    /// Sparse index sampling frequency: one out of every n entries of an
    /// SSTable is recorded in the sparse index.
    pub sparse_index_sampling_rate: u32,
}

impl DharmaOpts {
    /// The block size must leave room for at least one record header plus
    /// some payload and may not exceed what the 16-bit record length field
    /// can describe.
    pub open spec fn block_size_valid(self) -> bool {
        16 <= self.block_size_in_bytes <= 0xffff + 3
    }

    /// Options a storage engine can run with: a valid block size and a
    /// positive sampling rate.
    pub open spec fn valid(self) -> bool {
        &&& self.block_size_valid()
        &&& self.sparse_index_sampling_rate >= 1
    }

    /// A copy of these options.
    pub fn duplicate(&self) -> (r: DharmaOpts)
        ensures
            r.bootstrap == self.bootstrap,
            r.path@ == self.path@,
            r.memtable_size_in_bytes == self.memtable_size_in_bytes,
            r.block_size_in_bytes == self.block_size_in_bytes,
            r.blocks_per_sstable == self.blocks_per_sstable,
            r.sparse_index_sampling_rate == self.sparse_index_sampling_rate,
            r.valid() == self.valid(),
    {
        DharmaOpts {
            bootstrap: self.bootstrap,
            path: self.path.clone(),
            memtable_size_in_bytes: self.memtable_size_in_bytes,
            block_size_in_bytes: self.block_size_in_bytes,
            blocks_per_sstable: self.blocks_per_sstable,
            sparse_index_sampling_rate: self.sparse_index_sampling_rate,
        }
    }

    /// Create configuration options with default values.
    pub fn default() -> (options: DharmaOpts)
        ensures
            options.bootstrap == true,
            options.path@ == "/var/lib/dharma"@,
            options.memtable_size_in_bytes == 4,
            options.block_size_in_bytes == 32768,
            options.blocks_per_sstable == 1024,
            options.sparse_index_sampling_rate == 100,
            options.valid(),
    {
        DharmaOpts {
            bootstrap: true,
            path: "/var/lib/dharma".to_string(),
            memtable_size_in_bytes: 4,
            block_size_in_bytes: 32768,
            // 32 blocks of 32 KiB each give 1 MiB; 32 such groups per SSTable
            blocks_per_sstable: 32 * 32,
            sparse_index_sampling_rate: 100,
        }
    }
}

} // verus!

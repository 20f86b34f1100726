use vstd::prelude::*;

verus! {

/// Configuration properties used to initialize a database instance: the
/// essential pair of a data path and the bootstrap flag.
#[derive(Clone, Debug)]
pub struct DharmaOpts {
    /// Used to bootstrap the database from an existing store if data has
    /// already been persisted at that path.
    pub bootstrap: bool,
    /// Path at which data is persisted.
    pub path: String,
}

impl DharmaOpts {
    pub fn default() -> (options: DharmaOpts)
        ensures
            options.bootstrap == true,
            options.path@ == "/var/lib/dharma"@,
    {
        DharmaOpts { bootstrap: true, path: "/var/lib/dharma".to_string() }
    }
}

} // verus!

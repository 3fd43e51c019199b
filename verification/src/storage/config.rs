use vstd::prelude::*;

verus! {

/// Which storage backend to use.
#[derive(Debug)]
pub enum StorageConfig {
    /// Files under the directory `root`.
    Local { root: String },
}

impl Default for StorageConfig {
    /// Local storage under `./data`.
    fn default() -> (c: Self)
        ensures
            c->root@ == "./data"@,
    {
        StorageConfig::Local { root: String::from_str("./data") }
    }
}

} // verus!

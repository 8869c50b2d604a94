//! The settings of a store.
use vstd::prelude::*;

verus! {

/// How a store behaves. How far apart the sizes of merged tables may be is not
/// among the settings here: that is a matter of the test that
/// [`SSTableSet::pick_run`](crate::sstable::tableset::SSTableSet::pick_run) is given.
pub struct Config {
    /// The data directory.
    pub path: String,
    /// Whether each change has to be on disk before it counts.
    pub sync: bool,
    /// How many bytes of keys and values are taken in before a flush.
    pub table_size: usize,
    /// How many bits a bloom filter spends on each key.
    pub bits_per_key: usize,
    /// How many tables of one size make a run worth merging.
    pub compaction_threshold: usize,
}

impl Default for Config {
    fn default() -> (r: Config)
        ensures
            r.path@ == "data"@,
            r.sync,
            r.table_size == 4096 * 1024,
            r.bits_per_key == 10,
            r.compaction_threshold == 4,
    {
        Config {
            path: "data".to_string(),
            sync: true,
            table_size: 4096 * 1024,
            bits_per_key: 10,
            compaction_threshold: 4,
        }
    }
}

} // verus!

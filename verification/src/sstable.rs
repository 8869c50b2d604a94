//! Sorted tables: the file format, point lookups, merging, and the set of live
//! tables.
pub mod image;
pub mod layout;
pub mod lookup;
pub mod merge;
pub mod names;
pub mod records;
pub mod recovery;
pub mod roundtrip;
pub mod stored;
pub mod table;
pub mod tableset;
pub mod tiers;
pub mod writer;

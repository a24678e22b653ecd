//! A slotted heap page, a heap file of such pages, and a grace hash
//! equi-join over partitioned tuples.
pub mod page;
pub mod heap_page;
pub mod heap_file;
pub mod grace_hash_join;

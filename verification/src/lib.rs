//! IP prefix lookup and the data structures behind it.
use vstd::prelude::*;

pub mod address;
pub mod capture;
pub mod compact;
pub mod allocator;
pub mod database;
pub mod dbset;
pub mod detect;
pub mod ipdb;
pub mod locations;
pub mod parse;
pub mod progress;
pub mod sources;
pub mod table;
pub mod traffic;
pub mod trace;
pub mod tree_bitmap;

pub use table::IpLookupTable;

verus! {
} // verus!

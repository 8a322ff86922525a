//! A tiered sparse Merkle tree over keys and values of four field elements, and the byte form
//! of the `Debug` decorator's options.
use vstd::prelude::*;

pub mod debug_options;
pub mod digest;
pub mod hash;
pub mod laws;
pub mod printer;
pub mod store;
pub mod text;
pub mod tree;
pub mod word;

pub use debug_options::{read_options_from, write_options_into, DebugOptions, DecodeError};
pub use printer::{interval_addresses, Printer};
pub use tree::{TieredSmt, TreeError};
pub use word::{empty_value, key_prefix, Word};

verus! {

} // verus!

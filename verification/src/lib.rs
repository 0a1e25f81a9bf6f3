//! A bitmap-indexed sparse trie over an alphabet of 64 symbols, and a small
//! store of entity-attribute-value facts.
//!
//! A branch of the trie keeps a 64-bit presence bitmap, symbol 0 in the most
//! significant bit, and one child for each marked symbol; the place of a
//! child is the number of marked symbols below its own.

pub mod bitmap;
pub mod error;
pub mod node;
pub mod store;
pub mod trie;

pub use bitmap::{bitmap_index_of, is_set, popcnt, ALPHABET_SIZE};
pub use error::IndexError;
pub use node::{Leaf, Node, Tree};
pub use store::{AVEIndex, Attr, Datum, EAVIndex, Val, EID};
pub use trie::{lookup, Trie};

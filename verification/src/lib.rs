//! A prefix trie over fixed 32-byte keys, and what a block indexer works out
//! between its node and its database.
//!
//! A key is a 31-byte stem followed by a one-byte suffix. All keys that share
//! a stem live in one leaf-level node holding up to 256 values; interior nodes
//! fan out 256 ways on successive stem bytes. `key` splits and joins keys,
//! `node` holds the two kinds of node and what a subtree stores, `tree` holds
//! the trie with its lookup, its insertion and the split of a leaf, and `laws`
//! states what holds of every trie.
//!
//! `hex` reads the hexadecimal quantities of a JSON-RPC node, `sync` turns a
//! reported block into a database row and says which blocks are due, and
//! `alchemy` holds the push feed's address and the reply to each of its
//! messages.

pub mod alchemy;
pub mod hex;
pub mod key;
pub mod laws;
pub mod node;
pub mod shape;
pub mod sync;
pub mod tree;

pub use key::{get_stem, get_suffix, make_key, Commitment, Key, Stem, Suffix, Value};
pub use node::{BranchNode, NodeRef, StemNode};
pub use tree::VerkleTree;

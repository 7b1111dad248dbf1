//! Recursive length-prefix encoding of nested byte strings, and a
//! hash-addressed Merkle-Patricia trie stored through that encoding.

pub mod nibbles;
pub mod node;
pub mod rlp;
pub mod trie;

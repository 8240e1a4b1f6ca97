//! A binary Merkle Patricia trie: an authenticated key-value index whose
//! root hash commits to every stored pair, with inclusion and exclusion
//! proofs that can be checked offline against that root.

pub mod hash;
pub mod key;
pub mod node;
pub mod map_proof;
pub mod index;

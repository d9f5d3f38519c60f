//! A storage engine for backends where every read and write is costly:
//! a lazily synchronised cell cache over a raw store, and an ordered map
//! whose nodes live in that cache and are addressed by integer handles.

pub mod backend;
pub mod balance;
pub mod btree;
pub mod checks;
pub mod chunk;
pub mod edges;
pub mod entry;
pub mod grow;
pub mod node;
pub mod order;
pub mod search;
pub mod seqs;
pub mod shrink;
pub mod tree;
